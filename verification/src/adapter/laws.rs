//! What a derived tensor is made of: the runs that the target's own declaration
//! names, in the order in which it cuts such a tensor.

use super::decide::{
    decided, entry_progress, one_more, picked, row_sum, run_with, suffixes_of, target_progress,
    values_of, DecisionModel, DerivedModel, Progress,
};
use super::kernel::TransformModel;
use super::runs::{runs_of_file, SourceModel};
use crate::contract::{ContractModel, TensorModel};
use crate::fusion::FusionModel;
use crate::pattern::instantiated;
use crate::planner::InventoryModel;
use vstd::prelude::*;

verus! {

/// Runs stand in the order in which a declaration cuts a tensor of the base role:
/// group by group, and in each group part by part. Without a fusion there is one,
/// of the role itself.
pub open spec fn in_cut_order(entry: TensorModel, base: Seq<char>, runs: Seq<SourceModel>) -> bool {
    match entry.fusion {
        None => runs.len() == 1 && runs[0].role == base,
        Some(fusion) => {
            let parts = fusion.parts.len() as int;
            &&& runs.len() == fusion.groups * parts
            &&& forall|group: int, part: int|
                0 <= group < fusion.groups && 0 <= part < parts ==> (#[trigger] runs[at_place(
                    parts,
                    group,
                    part,
                )]).role == base + fusion.run_role(group, part)
        },
    }
}

/// The place of a part of a group.
pub open spec fn at_place(parts: int, group: int, part: int) -> int {
    group * parts + part
}

/// How many rows runs have together.
pub open spec fn rows_together(runs: Seq<SourceModel>) -> nat
    decreases runs.len(),
{
    if runs.len() == 0 {
        0
    } else {
        rows_together(runs.drop_last()) + runs.last().rows as nat
    }
}

proof fn rows_add_up(runs: Seq<SourceModel>, upto: int)
    requires
        0 <= upto <= runs.len(),
    ensures
        row_sum(runs, upto) == rows_together(runs.take(upto)),
    decreases upto,
{
    if upto > 0 {
        rows_add_up(runs, upto - 1);
        assert(runs.take(upto).drop_last() =~= runs.take(upto - 1));
    }
}

/// A derived tensor is the one that a declaration names for some hole values: its
/// runs are runs of the source in the order of the declaration, all of one element
/// type, one shape of a row and one permute, and its rows are their rows.
pub open spec fn is_made_by(
    source: Seq<SourceModel>,
    entry: TensorModel,
    values: Seq<u64>,
    tensor: DerivedModel,
) -> bool {
    let runs = tensor.runs;
    &&& instantiated(entry.pattern, values) == Some(tensor.name)
    &&& instantiated(entry.role, values) is Some
    &&& in_cut_order(entry, instantiated(entry.role, values).unwrap(), runs)
    &&& runs.len() > 0
    &&& forall|i: int|
        0 <= i < runs.len() ==> source.contains(#[trigger] runs[i]) && runs[i].dtype == tensor.dtype
            && runs[i].row_shape == tensor.shape.skip(1) && runs[i].permute == runs[0].permute
    &&& tensor.shape.len() > 0
    &&& tensor.shape[0] == rows_together(runs) as u64
    &&& match tensor.transform {
        TransformModel::Identity => runs[0].permute == entry.permute,
        TransformModel::Forward(permute) => runs[0].permute is None && entry.permute == Some(
            permute,
        ),
        TransformModel::Inverse(permute) => entry.permute is None && runs[0].permute == Some(
            permute,
        ),
    }
}

pub(crate) proof fn picked_in_order(
    runs: Seq<SourceModel>,
    base: Seq<char>,
    suffixes: Seq<Seq<char>>,
    upto: int,
)
    requires
        0 <= upto <= suffixes.len(),
    ensures
        picked(runs, base, suffixes, upto) matches Ok(found) ==> {
            &&& found.len() == upto
            &&& forall|i: int|
                0 <= i < upto ==> runs.contains(#[trigger] found[i]) && found[i].role == base
                    + suffixes[i]
        },
    decreases upto,
{
    if upto > 0 {
        picked_in_order(runs, base, suffixes, upto - 1);
        if let Ok(found) = picked(runs, base, suffixes, upto) {
            let role = base + suffixes[upto - 1];
            let at = choose|i: int| 0 <= i < runs.len() && (#[trigger] runs[i]).role == role;
            assert(run_with(runs, role) == runs[at]);
            assert(runs.contains(runs[at]));
            let before = picked(runs, base, suffixes, upto - 1)->Ok_0;
            assert forall|i: int| 0 <= i < upto implies runs.contains(#[trigger] found[i])
                && found[i].role == base + suffixes[i] by {
                if i < upto - 1 {
                    assert(found[i] == before[i]);
                }
            }
        }
    }
}

proof fn suffixes_in_cut_order(entry: TensorModel, base: Seq<char>, runs: Seq<SourceModel>)
    requires
        runs.len() == suffixes_of(entry).len(),
        forall|i: int|
            0 <= i < runs.len() ==> (#[trigger] runs[i]).role == base + suffixes_of(entry)[i],
    ensures
        in_cut_order(entry, base, runs),
{
    match entry.fusion {
        None => {
            assert(base + Seq::<char>::empty() =~= base);
        },
        Some(fusion) => {
            let parts = fusion.parts.len() as int;
            assert(fusion.groups * parts >= 0) by (nonlinear_arith)
                requires
                    parts >= 0,
                    fusion.groups >= 0,
            ;
            assert forall|group: int, part: int|
                0 <= group < fusion.groups && 0 <= part < parts implies (#[trigger] runs[at_place(
                parts,
                group,
                part,
            )]).role == base + fusion.run_role(group, part) by {
                let k = at_place(parts, group, part);
                assert(0 <= k < fusion.groups * parts) by (nonlinear_arith)
                    requires
                        k == group * parts + part,
                        0 <= group < fusion.groups,
                        0 <= part < parts,
                ;
                vstd::arithmetic::div_mod::lemma_fundamental_div_mod_converse(
                    k,
                    parts,
                    group,
                    part,
                );
            }
        },
    }
}

proof fn no_clash(name: Seq<char>, runs: Seq<SourceModel>, upto: int, i: int)
    requires
        super::decide::clash(name, runs, upto) is None,
        0 <= i < upto,
    ensures
        runs[i].dtype == runs[0].dtype,
        runs[i].row_shape == runs[0].row_shape,
        runs[i].permute == runs[0].permute,
    decreases upto,
{
    if i < upto - 1 {
        no_clash(name, runs, upto - 1, i);
    }
}

pub(crate) proof fn one_more_is_made(
    tensors: Seq<DerivedModel>,
    entry: TensorModel,
    runs: Seq<SourceModel>,
    values: Seq<u64>,
)
    ensures
        one_more(tensors, entry, runs, values) matches Progress::Going(after) ==> {
            &&& after == tensors.push(after.last())
            &&& is_made_by(runs, entry, values, after.last())
        },
{
    if let Progress::Going(after) = one_more(tensors, entry, runs, values) {
        let suffixes = suffixes_of(entry);
        let name = instantiated(entry.pattern, values).unwrap();
        let base = instantiated(entry.role, values).unwrap();
        picked_in_order(runs, base, suffixes, suffixes.len() as int);
        let found = picked(runs, base, suffixes, suffixes.len() as int)->Ok_0;
        suffixes_in_cut_order(entry, base, found);
        let tensor = after.last();
        assert(tensor.runs == found);
        rows_add_up(found, found.len() as int);
        assert(found.take(found.len() as int) =~= found);
        assert(tensor.shape.skip(1) =~= found[0].row_shape);
        assert forall|i: int| 0 <= i < found.len() implies runs.contains(#[trigger] found[i])
            && found[i].dtype == tensor.dtype && found[i].row_shape == tensor.shape.skip(1)
            && found[i].permute == found[0].permute by {
            no_clash(name, found, found.len() as int, i);
        }
    }
}

proof fn entry_is_made(
    tensors: Seq<DerivedModel>,
    entry: TensorModel,
    runs: Seq<SourceModel>,
    list: Seq<Seq<u64>>,
    upto: int,
    t: int,
)
    requires
        0 <= upto <= list.len(),
        tensors.len() <= t,
    ensures
        entry_progress(tensors, entry, runs, list, upto) matches Progress::Going(after) ==> {
            &&& after.len() >= tensors.len()
            &&& forall|i: int| 0 <= i < tensors.len() ==> #[trigger] after[i] == tensors[i]
            &&& t < after.len() ==> exists|values: Seq<u64>| #[trigger]
                is_made_by(runs, entry, values, after[t])
        },
    decreases upto,
{
    if upto > 0 {
        entry_is_made(tensors, entry, runs, list, upto - 1, t);
        if let Progress::Going(before) = entry_progress(tensors, entry, runs, list, upto - 1) {
            one_more_is_made(before, entry, runs, list[upto - 1]);
            if let Progress::Going(after) = one_more(before, entry, runs, list[upto - 1]) {
                assert forall|i: int| 0 <= i < tensors.len() implies #[trigger] after[i]
                    == tensors[i] by {
                    assert(after[i] == before[i]);
                }
                if t < before.len() {
                    assert(after[t] == before[t]);
                }
            }
        }
    }
}

proof fn target_is_made(target: ContractModel, runs: Seq<SourceModel>, upto: int, t: int)
    requires
        0 <= upto <= target.tensors.len(),
        0 <= t,
    ensures
        target_progress(target, runs, upto) matches Progress::Going(after) ==> (t < after.len()
            ==> exists|e: int, values: Seq<u64>|
            0 <= e < upto && #[trigger] is_made_by(runs, target.tensors[e], values, after[t])),
    decreases upto,
{
    if upto > 0 {
        target_is_made(target, runs, upto - 1, t);
        if let Progress::Going(before) = target_progress(target, runs, upto - 1) {
            let entry = target.tensors[upto - 1];
            let list = values_of(entry, runs);
            if let Progress::Going(after) = target_progress(target, runs, upto) {
                if t < before.len() {
                    entry_is_made(before, entry, runs, list, list.len() as int, before.len() as int);
                    assert(after[t] == before[t]);
                    let (e, values) = choose|e: int, values: Seq<u64>|
                        0 <= e < upto - 1 && #[trigger] is_made_by(
                            runs,
                            target.tensors[e],
                            values,
                            before[t],
                        );
                    assert(is_made_by(runs, target.tensors[e], values, after[t]));
                } else {
                    entry_is_made(before, entry, runs, list, list.len() as int, t);
                    if t < after.len() {
                        let values = choose|values: Seq<u64>| #[trigger]
                            is_made_by(runs, entry, values, after[t]);
                        assert(is_made_by(runs, target.tensors[upto - 1], values, after[t]));
                    }
                }
            }
        }
    }
}

/// The tensors that a decision serves, none for a conversion.
pub open spec fn served(decision: DecisionModel) -> Seq<DerivedModel> {
    match decision {
        DecisionModel::RunPreserving(tensors) => tensors,
        DecisionModel::Rearranged { tensors, .. } => tensors,
        DecisionModel::Conversion(_) => Seq::empty(),
    }
}

/// Every tensor of a layout that is served is one that the target declares, made
/// of the source's runs in the order in which the declaration cuts it.
pub proof fn a_served_tensor_is_as_declared(
    source: ContractModel,
    tensors: Seq<InventoryModel>,
    target: ContractModel,
    t: int,
)
    requires
        decided(source, tensors, target) is Ok,
        0 <= t < served(decided(source, tensors, target)->Ok_0).len(),
    ensures
        runs_of_file(source, tensors) is Ok,
        exists|e: int, values: Seq<u64>|
            0 <= e < target.tensors.len() && #[trigger] is_made_by(
                runs_of_file(source, tensors)->Ok_0,
                target.tensors[e],
                values,
                served(decided(source, tensors, target)->Ok_0)[t],
            ),
{
    let runs = runs_of_file(source, tensors)->Ok_0;
    target_is_made(target, runs, target.tensors.len() as int, t);
    if target_progress(target, runs, target.tensors.len() as int) is Done {
        super::decide::done_is_conversion(target, runs, target.tensors.len() as int);
    }
}

/// A decision re-arranges exactly where some tensor is re-arranged inside: it is
/// run-preserving exactly where every tensor is its runs as they stand.
pub proof fn only_whole_runs_are_preserved(
    source: ContractModel,
    tensors: Seq<InventoryModel>,
    target: ContractModel,
)
    requires
        decided(source, tensors, target) is Ok,
    ensures
        match decided(source, tensors, target)->Ok_0 {
            DecisionModel::RunPreserving(made) => made.len() > 0 && forall|t: int|
                0 <= t < made.len() ==> (#[trigger] made[t]).transform is Identity,
            DecisionModel::Rearranged { tensors: made, rearranged } => {
                &&& rearranged.len() > 0
                &&& forall|name: Seq<char>| #[trigger]
                    rearranged.contains(name) <==> exists|t: int|
                        0 <= t < made.len() && (#[trigger] made[t]).name == name
                            && !(made[t].transform is Identity)
            },
            DecisionModel::Conversion(_) => true,
        },
{
    let runs = runs_of_file(source, tensors)->Ok_0;
    match target_progress(target, runs, target.tensors.len() as int) {
        Progress::Going(made) => {
            moved_are_listed(made, made.len() as int);
            let moved = super::decide::rearranged(made, made.len() as int);
            if moved.len() == 0 {
                assert forall|t: int| 0 <= t < made.len() implies (
                #[trigger] made[t]).transform is Identity by {
                    if !(made[t].transform is Identity) {
                        assert(moved.contains(made[t].name));
                    }
                }
            }
        },
        Progress::Done(_) => {
            super::decide::done_is_conversion(target, runs, target.tensors.len() as int);
        },
    }
}

proof fn moved_are_listed(made: Seq<DerivedModel>, upto: int)
    requires
        0 <= upto <= made.len(),
    ensures
        forall|name: Seq<char>| #[trigger]
            super::decide::rearranged(made, upto).contains(name) <==> exists|t: int|
                0 <= t < upto && (#[trigger] made[t]).name == name && !(made[t].transform is Identity),
    decreases upto,
{
    if upto > 0 {
        moved_are_listed(made, upto - 1);
        let before = super::decide::rearranged(made, upto - 1);
        let after = super::decide::rearranged(made, upto);
        assert forall|name: Seq<char>| #[trigger] after.contains(name) <==> exists|t: int|
            0 <= t < upto && (#[trigger] made[t]).name == name && !(made[t].transform is Identity) by {
            if before.contains(name) {
                let t = choose|t: int|
                    0 <= t < upto - 1 && (#[trigger] made[t]).name == name
                        && !(made[t].transform is Identity);
                assert(made[t].name == name);
                let k = choose|k: int| 0 <= k < before.len() && before[k] == name;
                assert(after[k] == name);
            }
            if !(made[upto - 1].transform is Identity) {
                assert(after.last() == made[upto - 1].name);
                if after.contains(name) {
                    let k = choose|k: int| 0 <= k < after.len() && after[k] == name;
                    if k < before.len() {
                        assert(before[k] == name);
                        assert(before.contains(name));
                    }
                }
                assert(made[upto - 1].name == after.last());
            }
        }
    }
}

/// A fusion cuts a tensor group by group and part by part: each run has the role
/// of its part, of the tensor's bytes its share, and before it the shares of those
/// before it.
pub proof fn a_fusion_cuts_by_shares(
    fusion: FusionModel,
    shape: Seq<u64>,
    byte_length: u64,
    group: int,
    part: int,
)
    requires
        fusion.runs(shape, byte_length) is Some,
        0 <= group < fusion.groups,
        0 <= part < fusion.parts.len(),
    ensures
        ({
            let runs = fusion.runs(shape, byte_length).unwrap();
            let parts = fusion.parts.len() as int;
            let shares = crate::fusion::share_sum(fusion.parts, parts);
            let run = runs[at_place(parts, group, part)];
            &&& runs.len() == fusion.groups * parts
            &&& run.role == fusion.run_role(group, part)
            &&& run.length * (fusion.groups * shares) == byte_length * fusion.parts[part].share
            &&& crate::fusion::run_sum(runs, at_place(parts, group, part)) * (fusion.groups
                * shares) == byte_length * (group * shares + crate::fusion::share_sum(
                fusion.parts,
                part,
            ))
        }),
{
    let parts = fusion.parts.len() as int;
    let k = at_place(parts, group, part);
    let runs = fusion.runs(shape, byte_length).unwrap();
    assert(0 <= k < fusion.groups * parts) by (nonlinear_arith)
        requires
            k == group * parts + part,
            0 <= group < fusion.groups,
            0 <= part < parts,
    ;
    vstd::arithmetic::div_mod::lemma_fundamental_div_mod_converse(k, parts, group, part);
    let units = fusion.units() as int;
    let unit = byte_length as int / units;
    let share = fusion.parts[part].share as int;
    crate::fusion::unit_facts(shape[0] as int, units, byte_length as int);
    crate::fusion::run_length_bound(fusion, byte_length as int, part);
    crate::fusion::runs_sum_to(fusion, shape, byte_length, group, part);
    let before = group * crate::fusion::share_sum(fusion.parts, parts) + crate::fusion::share_sum(
        fusion.parts,
        part,
    );
    assert((unit * before) * units == (units * unit) * before) by (nonlinear_arith);
    assert((unit * share) * units == (units * unit) * share) by (nonlinear_arith);
    assert(runs[k] == fusion.run_at(unit, k));
}

} // verus!
