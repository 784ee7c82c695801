//! What one file lists can be decided over: the rows of every tensor that is
//! derived come to a 64-bit number.

use super::decide::{
    entry_progress, entry_rows_fit, picked, row_sum, rows_add_up, rows_fit, suffixes_of,
    target_progress, values_of, Progress,
};
use super::runs::{
    by_role, declared_runs_tile, distinct_roles, extents_fit, parts_of, runs_stand_in_role_order,
    runs_upto, with_parts, SourceModel,
};
use crate::contract::{governing, ContractModel, TensorModel};
use crate::fusion::{run_roles_are_distinct, run_sum, PermuteModel, RunModel};
use crate::pattern::{captured, instantiated};
use crate::planner::{lie_apart, InventoryModel};
use vstd::prelude::*;

verus! {

/// The summed lengths of the first `upto` tensors.
pub open spec fn listed_length(tensors: Seq<InventoryModel>, upto: int) -> nat
    decreases upto,
{
    if upto <= 0 {
        0
    } else {
        listed_length(tensors, upto - 1) + tensors[upto - 1].length as nat
    }
}

proof fn apart_lengths(tensors: Seq<InventoryModel>, size: int, upto: int)
    requires
        lie_apart(tensors, size),
        0 <= size,
        0 <= upto <= tensors.len(),
    ensures
        listed_length(tensors, upto) <= if upto < tensors.len() {
            tensors[upto].offset as int
        } else {
            size
        },
    decreases upto,
{
    if upto > 0 {
        apart_lengths(tensors, size, upto - 1);
        assert(tensors[upto - 1].offset + tensors[upto - 1].length <= if upto < tensors.len() {
            tensors[upto].offset as int
        } else {
            size
        });
    }
}

proof fn apart_ends(tensors: Seq<InventoryModel>, size: int, i: int)
    requires
        lie_apart(tensors, size),
        0 <= i < tensors.len(),
    ensures
        tensors[i].offset + tensors[i].length <= size,
    decreases tensors.len() - i,
{
    if i + 1 < tensors.len() {
        apart_ends(tensors, size, i + 1);
    }
}

// ---------------------------------------------------------------------------
// Rows are at most bytes
// ---------------------------------------------------------------------------

proof fn rows_of_parts(
    found: Seq<SourceModel>,
    tensor: InventoryModel,
    permute: Option<PermuteModel>,
    base: Seq<char>,
    parts: Seq<RunModel>,
    upto: int,
)
    requires
        0 <= upto <= parts.len(),
    ensures
        with_parts(found, tensor, permute, base, parts, upto) matches Ok(runs) ==> row_sum(
            runs,
            runs.len() as int,
        ) <= row_sum(found, found.len() as int) + run_sum(parts, upto),
    decreases upto,
{
    if upto > 0 {
        rows_of_parts(found, tensor, permute, base, parts, upto - 1);
        if let Ok(runs) = with_parts(found, tensor, permute, base, parts, upto - 1) {
            if let Ok(after) = with_parts(found, tensor, permute, base, parts, upto) {
                let row = super::runs::row_bytes(tensor);
                let length = parts[upto - 1].length;
                assert(length / row <= length) by (nonlinear_arith)
                    requires
                        row > 0,
                ;
                assert(after.drop_last() =~= runs);
                row_sum_of_prefix(runs, after, runs.len() as int);
            }
        }
    }
}

proof fn row_sum_of_prefix(a: Seq<SourceModel>, b: Seq<SourceModel>, upto: int)
    requires
        upto <= a.len(),
        upto <= b.len(),
        forall|i: int| 0 <= i < upto ==> #[trigger] a[i] == b[i],
    ensures
        row_sum(a, upto) == row_sum(b, upto),
    decreases upto,
{
    if upto > 0 {
        row_sum_of_prefix(a, b, upto - 1);
        assert(a[upto - 1] == b[upto - 1]);
    }
}

proof fn rows_of_tensors(contract: ContractModel, tensors: Seq<InventoryModel>, upto: int)
    requires
        0 <= upto <= tensors.len(),
    ensures
        runs_upto(contract, tensors, upto) matches Ok(runs) ==> row_sum(runs, runs.len() as int)
            <= listed_length(tensors, upto),
    decreases upto,
{
    if upto > 0 {
        rows_of_tensors(contract, tensors, upto - 1);
        if let Ok(found) = runs_upto(contract, tensors, upto - 1) {
            let tensor = tensors[upto - 1];
            let at = governing(contract.tensors, tensor.name);
            if at < contract.tensors.len() {
                let entry = contract.tensors[at];
                let values = captured(entry.pattern, tensor.name).unwrap();
                if let Some(base) = instantiated(entry.role, values) {
                    let parts = parts_of(contract, tensor);
                    rows_of_parts(found, tensor, entry.permute, base, parts, parts.len() as int);
                    if contract.runs_of(tensor.name, tensor.shape, tensor.length) is Some {
                        declared_runs_tile(contract, tensor);
                    } else {
                        reveal_with_fuel(run_sum, 2);
                    }
                }
            }
        }
    }
}

// ---------------------------------------------------------------------------
// What is picked is picked once
// ---------------------------------------------------------------------------

proof fn row_sum_without(runs: Seq<SourceModel>, at: int)
    requires
        0 <= at < runs.len(),
    ensures
        row_sum(runs, runs.len() as int) == row_sum(runs.remove(at), runs.len() - 1)
            + runs[at].rows,
    decreases runs.len(),
{
    let rest = runs.remove(at);
    if at == runs.len() - 1 {
        row_sum_of_prefix(runs, rest, runs.len() - 1);
    } else {
        let fewer = runs.drop_last();
        row_sum_without(fewer, at);
        assert(rest.drop_last() =~= fewer.remove(at));
        row_sum_of_prefix(runs, fewer, runs.len() - 1);
        row_sum_of_prefix(rest, fewer.remove(at), runs.len() - 2);
        assert(rest.last() == runs.last());
    }
}

/// Runs of distinct roles among others have at most the others' rows.
proof fn rows_among(few: Seq<SourceModel>, all: Seq<SourceModel>)
    requires
        distinct_roles(few),
        forall|i: int| 0 <= i < few.len() ==> all.contains(#[trigger] few[i]),
    ensures
        row_sum(few, few.len() as int) <= row_sum(all, all.len() as int),
    decreases few.len(),
{
    if few.len() > 0 {
        let last = few.last();
        assert(all.contains(few[few.len() - 1]));
        let at = choose|at: int| 0 <= at < all.len() && all[at] == last;
        let rest = all.remove(at);
        let fewer = few.drop_last();
        assert forall|i: int| 0 <= i < fewer.len() implies rest.contains(#[trigger] fewer[i]) by {
            assert(fewer[i] == few[i]);
            assert(few[i].role != few[few.len() - 1].role);
            assert(all.contains(few[i]));
            let k = choose|k: int| 0 <= k < all.len() && all[k] == few[i];
            if k < at {
                assert(rest[k] == few[i]);
            } else {
                assert(rest[k - 1] == few[i]);
            }
        }
        rows_among(fewer, rest);
        row_sum_without(all, at);
        row_sum_of_prefix(few, fewer, few.len() - 1);
    }
}

proof fn suffixes_are_distinct(entry: TensorModel, i: int, j: int)
    requires
        entry.fusion matches Some(fusion) ==> fusion.has_distinct_parts(),
        0 <= i < j < suffixes_of(entry).len(),
    ensures
        suffixes_of(entry)[i] != suffixes_of(entry)[j],
{
    if let Some(fusion) = entry.fusion {
        let n = fusion.parts.len() as int;
        let total = fusion.groups * n;
        if suffixes_of(entry)[i] == suffixes_of(entry)[j] {
            assert(n > 0) by (nonlinear_arith)
                requires
                    0 <= i < total,
                    total == fusion.groups * n,
                    n >= 0,
            ;
            vstd::arithmetic::div_mod::lemma_fundamental_div_mod(i, n);
            vstd::arithmetic::div_mod::lemma_fundamental_div_mod(j, n);
            assert(0 <= i / n < fusion.groups && 0 <= j / n < fusion.groups) by (nonlinear_arith)
                requires
                    0 <= i < fusion.groups * n,
                    0 <= j < fusion.groups * n,
                    n > 0,
            ;
            run_roles_are_distinct(fusion, i / n, i % n, j / n, j % n);
        }
    }
}

proof fn picked_once(
    runs: Seq<SourceModel>,
    base: Seq<char>,
    entry: TensorModel,
    upto: int,
)
    requires
        entry.fusion matches Some(fusion) ==> fusion.has_distinct_parts(),
        0 <= upto <= suffixes_of(entry).len(),
    ensures
        picked(runs, base, suffixes_of(entry), upto) matches Ok(found) ==> {
            &&& found.len() == upto
            &&& distinct_roles(found)
            &&& forall|i: int| 0 <= i < found.len() ==> runs.contains(#[trigger] found[i])
            &&& forall|i: int|
                0 <= i < found.len() ==> (#[trigger] found[i]).role == base + suffixes_of(entry)[i]
        },
    decreases upto,
{
    if upto > 0 {
        let suffixes = suffixes_of(entry);
        picked_once(runs, base, entry, upto - 1);
        if let Ok(found) = picked(runs, base, suffixes, upto) {
            let role = base + suffixes[upto - 1];
            let at = choose|i: int| 0 <= i < runs.len() && (#[trigger] runs[i]).role == role;
            assert(found.last() == runs[at]);
            assert forall|i: int, j: int| 0 <= i < j < found.len() implies (
            #[trigger] found[i]).role != (#[trigger] found[j]).role by {
                suffixes_are_distinct(entry, i, j);
                if base + suffixes[i] == base + suffixes[j] {
                    let (x, y) = (suffixes[i], suffixes[j]);
                    assert((base + x).len() == (base + y).len());
                    assert forall|k: int| 0 <= k < x.len() implies x[k] == y[k] by {
                        assert((base + x)[base.len() + k] == x[k]);
                        assert((base + y)[base.len() + k] == y[k]);
                    }
                    assert(x =~= y);
                }
            }
        }
    }
}

/// The rows of every tensor that can be derived from an inventory fit in 64
/// bits, where its lengths together do.
pub proof fn lengths_that_fit_have_rows_that_fit(
    source: ContractModel,
    tensors: Seq<InventoryModel>,
    target: ContractModel,
)
    requires
        target.wf(),
        listed_length(tensors, tensors.len() as int) <= u64::MAX,
        runs_upto(source, tensors, tensors.len() as int) matches Ok(found) ==> found.len()
            <= usize::MAX,
    ensures
        rows_fit(source, tensors, target),
{
    if let Ok(all) = runs_upto(source, tensors, tensors.len() as int) {
        let runs = by_role(all);
        rows_of_tensors(source, tensors, tensors.len() as int);
        assert forall|entry: TensorModel, values: Seq<u64>|
            entry.fusion matches Some(fusion)
                ==> fusion.has_distinct_parts() implies #[trigger] rows_add_up(
            entry,
            runs,
            values,
        ) by {
            let suffixes = suffixes_of(entry);
            if let (Some(_), Some(base)) = (
                instantiated(entry.pattern, values),
                instantiated(entry.role, values),
            ) {
                if let Ok(found) = picked(runs, base, suffixes, suffixes.len() as int) {
                    picked_once(runs, base, entry, suffixes.len() as int);
                    assert forall|i: int| 0 <= i < found.len() implies all.contains(
                        #[trigger] found[i],
                    ) by {
                        runs_stand_in_role_order(source, tensors, found[i]);
                    }
                    rows_among(found, all);
                }
            }
        }
        assert forall|e: int| 0 <= e < target.tensors.len() implies (
        #[trigger] target_progress(target, runs, e) matches
            Progress::Going(found) ==> entry_rows_fit(
            found,
            target.tensors[e],
            runs,
        )) by {
            if let Progress::Going(found) = target_progress(
                target,
                runs,
                e,
            ) {
                let entry = target.tensors[e];
                let list = values_of(entry, runs);
                assert forall|k: int|
                    0 <= k < list.len() && entry_progress(
                        found,
                        entry,
                        runs,
                        list,
                        k,
                    ) is Going implies rows_add_up(entry, runs, #[trigger] list[k]) by {}
            }
        }
    }
}

/// What lies apart within a file, as the tensors of an inventory do, can be
/// decided over, whatever the contracts: every extent ends within 64 bits, and so
/// do the rows of every tensor that is derived.
pub proof fn an_inventory_can_be_decided(
    source: ContractModel,
    tensors: Seq<InventoryModel>,
    target: ContractModel,
    file_size: u64,
)
    requires
        lie_apart(tensors, file_size as int),
        target.wf(),
        runs_upto(source, tensors, tensors.len() as int) matches Ok(found) ==> found.len()
            <= usize::MAX,
    ensures
        extents_fit(tensors),
        rows_fit(source, tensors, target),
{
    let size = file_size as int;
    apart_lengths(tensors, size, tensors.len() as int);
    assert forall|i: int| 0 <= i < tensors.len() implies (#[trigger] tensors[i]).offset
        + tensors[i].length <= u64::MAX by {
        apart_ends(tensors, size, i);
    }
    lengths_that_fit_have_rows_that_fit(source, tensors, target);
}

} // verus!
