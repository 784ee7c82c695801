//! Why a layout is not served: each reason that a decision gives is true, so a
//! layout to which none applies is served.

use super::decide::{
    clash, decided, derivation, entry_progress, numbers_less, numbers_less_total,
    numbers_less_transitive, one_more, orphan, picked, placed, read_upto, reads, rising_numbers,
    suffixes_of, target_progress, values_of, Clash,
    DecisionModel, Derivation, DerivedModel, Progress, ReasonModel,
};
use super::laws::picked_in_order;
use super::runs::{carries, runs_of_file, FaultModel, SourceModel};
use crate::contract::{ContractModel, TensorModel};
use crate::pattern::{captured, captures_exactly_instances, hole_count, instantiated, is_pattern};
use crate::planner::InventoryModel;
use crate::text::{bytes_less, bytes_less_irreflexive, bytes_less_transitive, ends_with};
use vstd::prelude::*;
use vstd::utf8::encode_utf8;

verus! {

/// Whether a suffix is one that a declaration's tensors are made of: that of a
/// part of a group, or none where nothing is fused.
pub open spec fn is_suffix(entry: TensorModel, suffix: Seq<char>) -> bool {
    match entry.fusion {
        None => suffix == Seq::<char>::empty(),
        Some(fusion) => exists|group: int, part: int|
            0 <= group < fusion.groups && 0 <= part < fusion.parts.len()
                && #[trigger] fusion.run_role(group, part) == suffix,
    }
}

/// Whether a role is a part of the tensor that a declaration names for some hole
/// values.
pub open spec fn is_wanted(entry: TensorModel, values: Seq<u64>, role: Seq<char>) -> bool {
    &&& instantiated(entry.role, values) is Some
    &&& exists|suffix: Seq<char>| #[trigger]
        is_suffix(entry, suffix) && role == instantiated(entry.role, values)->Some_0 + suffix
}

/// Whether the source has a run for a part of that tensor.
pub open spec fn is_touched(
    entry: TensorModel,
    values: Seq<u64>,
    runs: Seq<SourceModel>,
) -> bool {
    exists|i: int| 0 <= i < runs.len() && is_wanted(entry, values, (#[trigger] runs[i]).role)
}

/// Whether two runs of the source are parts of one tensor.
pub open spec fn go_together(
    entry: TensorModel,
    values: Seq<u64>,
    runs: Seq<SourceModel>,
    i: int,
    j: int,
) -> bool {
    &&& 0 <= i < runs.len()
    &&& 0 <= j < runs.len()
    &&& is_wanted(entry, values, runs[i].role)
    &&& is_wanted(entry, values, runs[j].role)
}

/// Whether a reason holds of what a source has and a target declares.
pub open spec fn is_true_of(
    reason: ReasonModel,
    runs: Seq<SourceModel>,
    target: ContractModel,
) -> bool {
    match reason {
        ReasonModel::Required { role } => exists|e: int|
            0 <= e < target.tensors.len() && (#[trigger] target.tensors[e]).required
                && target.tensors[e].role == role && forall|values: Seq<u64>|
                !#[trigger] is_touched(target.tensors[e], values, runs),
        ReasonModel::NoBytes { role } => !carries(runs, role) && exists|e: int, values: Seq<u64>|
            0 <= e < target.tensors.len() && #[trigger] is_touched(target.tensors[e], values, runs)
                && is_wanted(target.tensors[e], values, role),
        ReasonModel::NothingDescribed => forall|e: int, values: Seq<u64>|
            0 <= e < target.tensors.len() ==> !#[trigger] is_touched(
                target.tensors[e],
                values,
                runs,
            ),
        ReasonModel::NoPlace { role } => carries(runs, role) && forall|e: int, values: Seq<u64>|
            0 <= e < target.tensors.len() ==> !#[trigger] is_wanted(
                target.tensors[e],
                values,
                role,
            ),
        ReasonModel::NoRuns => exists|e: int|
            0 <= e < target.tensors.len() && forall|suffix: Seq<char>|
                !is_suffix(#[trigger] target.tensors[e], suffix),
        ReasonModel::MixedDtypes { name, first, other } => first != other && exists|
            e: int,
            values: Seq<u64>,
            i: int,
            j: int,
        |
            0 <= e < target.tensors.len() && instantiated(target.tensors[e].pattern, values)
                == Some(name) && #[trigger] go_together(target.tensors[e], values, runs, i, j)
                && runs[i].dtype == first && runs[j].dtype == other,
        ReasonModel::MixedRows { name } => exists|e: int, values: Seq<u64>, i: int, j: int|
            0 <= e < target.tensors.len() && instantiated(target.tensors[e].pattern, values)
                == Some(name) && #[trigger] go_together(target.tensors[e], values, runs, i, j)
                && runs[i].row_shape != runs[j].row_shape,
    }
}

/// Whether a fault holds of them.
pub open spec fn is_fault_of(
    fault: FaultModel,
    runs: Seq<SourceModel>,
    target: ContractModel,
) -> bool {
    match fault {
        FaultModel::MixedPermutes { name } => exists|e: int, values: Seq<u64>, i: int, j: int|
            0 <= e < target.tensors.len() && instantiated(target.tensors[e].pattern, values)
                == Some(name) && #[trigger] go_together(target.tensors[e], values, runs, i, j)
                && runs[i].permute != runs[j].permute,
        FaultModel::TwoPermutes { name } => exists|e: int, values: Seq<u64>, i: int, j: int|
            0 <= e < target.tensors.len() && instantiated(target.tensors[e].pattern, values)
                == Some(name) && #[trigger] go_together(target.tensors[e], values, runs, i, j)
                && runs[i].permute is Some && target.tensors[e].permute is Some
                && runs[i].permute != target.tensors[e].permute,
        FaultModel::SourceMismatch => exists|e: int|
            0 <= e < target.tensors.len() && hole_count((#[trigger] target.tensors[e]).pattern)
                != hole_count(target.tensors[e].role),
        _ => false,
    }
}

proof fn suffixes_are(entry: TensorModel, suffix: Seq<char>)
    ensures
        suffixes_of(entry).contains(suffix) <==> is_suffix(entry, suffix),
{
    let list = suffixes_of(entry);
    match entry.fusion {
        None => {
            assert(list[0] == Seq::<char>::empty());
        },
        Some(fusion) => {
            let parts = fusion.parts.len() as int;
            if list.contains(suffix) {
                let k = choose|k: int| 0 <= k < list.len() && list[k] == suffix;
                assert(parts > 0) by (nonlinear_arith)
                    requires
                        0 <= k < fusion.groups * parts,
                        parts >= 0,
                ;
                assert(0 <= k / parts < fusion.groups && 0 <= k % parts < parts)
                    by (nonlinear_arith)
                    requires
                        parts > 0,
                        0 <= k < fusion.groups * parts,
                ;
                assert(fusion.run_role(k / parts, k % parts) == suffix);
            }
            if is_suffix(entry, suffix) {
                let (group, part) = choose|group: int, part: int|
                    0 <= group < fusion.groups && 0 <= part < fusion.parts.len()
                        && #[trigger] fusion.run_role(group, part) == suffix;
                let k = group * parts + part;
                assert(0 <= k < fusion.groups * parts && k / parts == group && k % parts == part)
                    by (nonlinear_arith)
                    requires
                        k == group * parts + part,
                        0 <= group < fusion.groups,
                        0 <= part < parts,
                ;
                assert(list[k] == suffix);
            }
        },
    }
}

proof fn wanted_is_read(entry: TensorModel, values: Seq<u64>, role: Seq<char>)
    requires
        is_pattern(entry.role),
    ensures
        is_wanted(entry, values, role) <==> exists|j: int|
            0 <= j < suffixes_of(entry).len() && #[trigger] reads(
                entry.role,
                role,
                suffixes_of(entry)[j],
                values,
            ),
{
    let list = suffixes_of(entry);
    if is_wanted(entry, values, role) {
        let base = instantiated(entry.role, values)->Some_0;
        let suffix = choose|suffix: Seq<char>| #[trigger]
            is_suffix(entry, suffix) && role == base + suffix;
        suffixes_are(entry, suffix);
        let j = choose|j: int| 0 <= j < list.len() && list[j] == suffix;
        assert(role.take(role.len() - suffix.len()) =~= base);
        assert(role.skip(role.len() - suffix.len()) =~= suffix);
        captures_exactly_instances(entry.role, base, values);
        assert(reads(entry.role, role, list[j], values));
    }
    if exists|j: int| 0 <= j < list.len() && #[trigger] reads(entry.role, role, list[j], values) {
        let j = choose|j: int|
            0 <= j < list.len() && #[trigger] reads(entry.role, role, list[j], values);
        let suffix = list[j];
        let base = role.take(role.len() - suffix.len());
        captures_exactly_instances(entry.role, base, values);
        assert(list.contains(suffix));
        suffixes_are(entry, suffix);
        assert(role =~= base + suffix);
    }
}

proof fn a_rising_list_takes_one_more(list: Seq<Seq<u64>>, value: Seq<u64>) -> (more: Seq<Seq<u64>>)
    requires
        rising_numbers(list),
    ensures
        rising_numbers(more),
        forall|v: Seq<u64>| #[trigger] more.contains(v) <==> list.contains(v) || v == value,
    decreases list.len(),
{
    if list.len() == 0 {
        let more = seq![value];
        assert(more[0] == value);
        more
    } else {
        let last = list.last();
        let fewer = list.drop_last();
        assert forall|i: int, j: int| 0 <= i < j < fewer.len() implies numbers_less(
            #[trigger] fewer[i],
            #[trigger] fewer[j],
        ) by {
            assert(fewer[i] == list[i] && fewer[j] == list[j]);
        }
        assert forall|v: Seq<u64>| #[trigger] list.contains(v) <==> fewer.contains(v) || v
            == last by {
            if list.contains(v) {
                let k = choose|k: int| 0 <= k < list.len() && list[k] == v;
                if k < fewer.len() {
                    assert(fewer[k] == v);
                }
            }
            if fewer.contains(v) {
                let k = choose|k: int| 0 <= k < fewer.len() && fewer[k] == v;
                assert(list[k] == v);
            }
        }
        numbers_less_total(last, value);
        if last == value {
            list
        } else if numbers_less(last, value) {
            let more = list.push(value);
            assert forall|i: int, j: int| 0 <= i < j < more.len() implies numbers_less(
                #[trigger] more[i],
                #[trigger] more[j],
            ) by {
                if j < list.len() {
                    assert(more[i] == list[i] && more[j] == list[j]);
                } else if i < list.len() - 1 {
                    assert(numbers_less(list[i], list[list.len() - 1]));
                    numbers_less_transitive(list[i], last, value);
                }
            }
            assert forall|v: Seq<u64>| #[trigger] more.contains(v) <==> list.contains(v) || v
                == value by {
                if list.contains(v) {
                    let k = choose|k: int| 0 <= k < list.len() && list[k] == v;
                    assert(more[k] == v);
                }
                if v == value {
                    assert(more[list.len() as int] == v);
                }
                if more.contains(v) {
                    let k = choose|k: int| 0 <= k < more.len() && more[k] == v;
                    if k < list.len() {
                        assert(list[k] == v);
                    }
                }
            }
            more
        } else {
            let head = a_rising_list_takes_one_more(fewer, value);
            let more = head.push(last);
            assert forall|i: int, j: int| 0 <= i < j < more.len() implies numbers_less(
                #[trigger] more[i],
                #[trigger] more[j],
            ) by {
                if j < head.len() {
                    assert(more[i] == head[i] && more[j] == head[j]);
                } else {
                    assert(head.contains(head[i]));
                    if fewer.contains(head[i]) {
                        let k = choose|k: int| 0 <= k < fewer.len() && fewer[k] == head[i];
                        assert(numbers_less(list[k], list[list.len() - 1]));
                    }
                }
            }
            assert forall|v: Seq<u64>| #[trigger] more.contains(v) <==> list.contains(v) || v
                == value by {
                if head.contains(v) {
                    let k = choose|k: int| 0 <= k < head.len() && head[k] == v;
                    assert(more[k] == v);
                }
                if v == last {
                    assert(more[head.len() as int] == v);
                }
                if more.contains(v) {
                    let k = choose|k: int| 0 <= k < more.len() && more[k] == v;
                    if k < head.len() {
                        assert(head[k] == v);
                        assert(head.contains(v));
                    }
                }
            }
            more
        }
    }
}

proof fn values_can_be_listed(
    entry: TensorModel,
    runs: Seq<SourceModel>,
    upto: int,
    part: int,
) -> (list: Seq<Seq<u64>>)
    requires
        0 <= upto <= runs.len(),
        0 <= part <= suffixes_of(entry).len(),
        upto == runs.len() ==> part == 0,
    ensures
        rising_numbers(list),
        forall|v: Seq<u64>| #[trigger] list.contains(v) <==> read_upto(entry, runs, v, upto, part),
    decreases upto, part,
{
    let suffixes = suffixes_of(entry);
    if part > 0 {
        let before = values_can_be_listed(entry, runs, upto, part - 1);
        let suffix = suffixes[part - 1];
        let role = runs[upto].role;
        let found = captured(
            entry.role,
            role.take(role.len() - suffix.len()),
        );
        let list = if ends_with(role, suffix) && found is Some {
            a_rising_list_takes_one_more(before, found->Some_0)
        } else {
            before
        };
        assert forall|v: Seq<u64>| #[trigger] list.contains(v) <==> read_upto(
            entry,
            runs,
            v,
            upto,
            part,
        ) by {
            assert(before.contains(v) <==> read_upto(entry, runs, v, upto, part - 1));
            if read_upto(entry, runs, v, upto, part) {
                let (i, j) = choose|i: int, j: int|
                    0 <= i < runs.len() && 0 <= j < suffixes.len() && (i < upto || (i == upto && j
                        < part)) && #[trigger] reads(entry.role, runs[i].role, suffixes[j], v);
                if !(i == upto && j == part - 1) {
                    assert(reads(entry.role, runs[i].role, suffixes[j], v));
                    assert(read_upto(entry, runs, v, upto, part - 1));
                }
            }
            if read_upto(entry, runs, v, upto, part - 1) {
                let (i, j) = choose|i: int, j: int|
                    0 <= i < runs.len() && 0 <= j < suffixes.len() && (i < upto || (i == upto && j
                        < part - 1)) && #[trigger] reads(entry.role, runs[i].role, suffixes[j], v);
                assert(reads(entry.role, runs[i].role, suffixes[j], v));
            }
            if found == Some(v) && ends_with(role, suffix) {
                assert(reads(entry.role, runs[upto].role, suffixes[part - 1], v));
            }
        }
        list
    } else if upto > 0 {
        let list = values_can_be_listed(entry, runs, upto - 1, suffixes.len() as int);
        assert forall|v: Seq<u64>| #[trigger] list.contains(v) <==> read_upto(
            entry,
            runs,
            v,
            upto,
            part,
        ) by {
            assert(list.contains(v) <==> read_upto(
                entry,
                runs,
                v,
                upto - 1,
                suffixes.len() as int,
            ));
            if read_upto(entry, runs, v, upto, part) {
                let (i, j) = choose|i: int, j: int|
                    0 <= i < runs.len() && 0 <= j < suffixes.len() && (i < upto || (i == upto && j
                        < part)) && #[trigger] reads(entry.role, runs[i].role, suffixes[j], v);
                assert(reads(entry.role, runs[i].role, suffixes[j], v));
            }
            if read_upto(entry, runs, v, upto - 1, suffixes.len() as int) {
                let (i, j) = choose|i: int, j: int|
                    0 <= i < runs.len() && 0 <= j < suffixes.len() && (i < upto - 1 || (i == upto
                        - 1 && j < suffixes.len())) && #[trigger] reads(
                        entry.role,
                        runs[i].role,
                        suffixes[j],
                        v,
                    );
                assert(reads(entry.role, runs[i].role, suffixes[j], v));
            }
        }
        list
    } else {
        let list: Seq<Seq<u64>> = Seq::empty();
        assert forall|v: Seq<u64>| #[trigger] list.contains(v) <==> read_upto(
            entry,
            runs,
            v,
            upto,
            part,
        ) by {}
        list
    }
}

/// The values that a declaration covers are those that the source touches.
pub(crate) proof fn values_are_touched(entry: TensorModel, runs: Seq<SourceModel>, values: Seq<u64>)
    requires
        is_pattern(entry.role),
    ensures
        values_of(entry, runs).contains(values) <==> is_touched(entry, values, runs),
        rising_numbers(values_of(entry, runs)),
{
    let built = values_can_be_listed(entry, runs, runs.len() as int, 0);
    let count = runs.len() as int;
    assert(rising_numbers(built) && forall|v: Seq<u64>| #[trigger]
        built.contains(v) <==> read_upto(entry, runs, v, count, 0));
    let chosen = values_of(entry, runs);
    assert(chosen.contains(values) <==> read_upto(entry, runs, values, count, 0));
    let suffixes = suffixes_of(entry);
    if read_upto(entry, runs, values, count, 0) {
        let (i, j) = choose|i: int, j: int|
            0 <= i < runs.len() && 0 <= j < suffixes.len() && (i < count || (i == count && j < 0))
                && #[trigger] reads(entry.role, runs[i].role, suffixes[j], values);
        wanted_is_read(entry, values, runs[i].role);
        assert(is_wanted(entry, values, runs[i].role));
    }
    if is_touched(entry, values, runs) {
        let i = choose|i: int|
            0 <= i < runs.len() && is_wanted(entry, values, (#[trigger] runs[i]).role);
        wanted_is_read(entry, values, runs[i].role);
        let j = choose|j: int|
            0 <= j < suffixes.len() && #[trigger] reads(
                entry.role,
                runs[i].role,
                suffixes[j],
                values,
            );
        assert(reads(entry.role, runs[i].role, suffixes[j], values));
    }
}

/// The run at a place of those picked for a tensor is a run of the source, and a
/// part of that tensor.
proof fn a_picked_run_is_wanted(
    entry: TensorModel,
    values: Seq<u64>,
    runs: Seq<SourceModel>,
    found: Seq<SourceModel>,
    u: int,
) -> (i: int)
    requires
        instantiated(entry.role, values) is Some,
        found.len() == suffixes_of(entry).len(),
        forall|k: int|
            0 <= k < found.len() ==> runs.contains(#[trigger] found[k]) && found[k].role
                == instantiated(entry.role, values)->Some_0 + suffixes_of(entry)[k],
        0 <= u < found.len(),
    ensures
        0 <= i < runs.len(),
        runs[i] == found[u],
        is_wanted(entry, values, runs[i].role),
{
    assert(runs.contains(found[u]));
    let i = choose|i: int| 0 <= i < runs.len() && runs[i] == found[u];
    let suffix = suffixes_of(entry)[u];
    assert(suffixes_of(entry).contains(suffix));
    suffixes_are(entry, suffix);
    i
}

proof fn what_was_not_picked(
    runs: Seq<SourceModel>,
    base: Seq<char>,
    suffixes: Seq<Seq<char>>,
    upto: int,
)
    requires
        0 <= upto <= suffixes.len(),
    ensures
        picked(runs, base, suffixes, upto) matches Err(role) ==> !carries(runs, role) && exists|
            k: int,
        |
            0 <= k < suffixes.len() && role == base + #[trigger] suffixes[k],
    decreases upto,
{
    if upto > 0 {
        what_was_not_picked(runs, base, suffixes, upto - 1);
        if picked(runs, base, suffixes, upto - 1) is Ok {
            assert(suffixes[upto - 1] == suffixes[upto - 1]);
        }
    }
}

proof fn what_clashes(name: Seq<char>, found: Seq<SourceModel>, upto: int)
    requires
        0 <= upto <= found.len(),
    ensures
        clash(name, found, upto) matches Some(clash) ==> exists|u: int|
            0 <= u < upto && match clash {
                Clash::Reason(ReasonModel::MixedDtypes { name: n, first, other }) => n == name
                    && first == found[0].dtype && (#[trigger] found[u]).dtype == other && first
                    != other,
                Clash::Reason(ReasonModel::MixedRows { name: n }) => n == name
                    && found[u].row_shape != found[0].row_shape,
                Clash::Fault(FaultModel::MixedPermutes { name: n }) => n == name && found[u].permute
                    != found[0].permute,
                _ => false,
            },
    decreases upto,
{
    if upto > 0 {
        what_clashes(name, found, upto - 1);
        if clash(name, found, upto - 1) is None {
            assert(found[upto - 1] == found[upto - 1]);
        } else {
            let before = clash(name, found, upto - 1)->Some_0;
            let u = choose|u: int|
                0 <= u < upto - 1 && match before {
                    Clash::Reason(ReasonModel::MixedDtypes { name: n, first, other }) => n == name
                        && first == found[0].dtype && (#[trigger] found[u]).dtype == other && first
                        != other,
                    Clash::Reason(ReasonModel::MixedRows { name: n }) => n == name
                        && found[u].row_shape != found[0].row_shape,
                    Clash::Fault(FaultModel::MixedPermutes { name: n }) => n == name
                        && found[u].permute != found[0].permute,
                    _ => false,
                };
            assert(found[u] == found[u]);
        }
    }
}

/// Whether what deriving comes to, where it ends, has its reason.
spec fn ends_truly(
    progress: Progress,
    runs: Seq<SourceModel>,
    target: ContractModel,
) -> bool {
    match progress {
        Progress::Going(_) => true,
        Progress::Done(Ok(DecisionModel::Conversion(reason))) => is_true_of(reason, runs, target),
        Progress::Done(Ok(_)) => false,
        Progress::Done(Err(fault)) => is_fault_of(fault, runs, target),
    }
}

proof fn one_tensor_has_its_reason(
    tensors: Seq<DerivedModel>,
    target: ContractModel,
    e: int,
    runs: Seq<SourceModel>,
    values: Seq<u64>,
)
    requires
        0 <= e < target.tensors.len(),
        is_pattern(target.tensors[e].role),
        is_pattern(target.tensors[e].pattern),
        is_touched(target.tensors[e], values, runs),
    ensures
        ends_truly(one_more(tensors, target.tensors[e], runs, values), runs, target),
        one_more(tensors, target.tensors[e], runs, values) matches Progress::Going(more) ==> {
            &&& more.len() == tensors.len() + 1
            &&& more.drop_last() == tensors
            &&& forall|role: Seq<char>| #[trigger]
                is_wanted(target.tensors[e], values, role) ==> carries(more.last().runs, role)
        },
{
    let entry = target.tensors[e];
    let suffixes = suffixes_of(entry);
    let i = choose|i: int|
        0 <= i < runs.len() && is_wanted(entry, values, (#[trigger] runs[i]).role);
    let base = instantiated(entry.role, values)->Some_0;
    if instantiated(entry.pattern, values) is Some {
        let name = instantiated(entry.pattern, values)->Some_0;
        what_was_not_picked(runs, base, suffixes, suffixes.len() as int);
        picked_in_order(runs, base, suffixes, suffixes.len() as int);
        match picked(runs, base, suffixes, suffixes.len() as int) {
            Err(role) => {
                let k = choose|k: int| 0 <= k < suffixes.len() && role == base + #[trigger] suffixes[k];
                assert(suffixes.contains(suffixes[k]));
                suffixes_are(entry, suffixes[k]);
                assert(is_wanted(entry, values, role));
            },
            Ok(found) => {
                a_derivation_has_its_reason(target, e, runs, values, found);
                if let Derivation::Tensor(tensor) = derivation(name, found, entry.permute) {
                    let more = tensors.push(tensor);
                    assert(more.drop_last() =~= tensors);
                    assert forall|role: Seq<char>| #[trigger]
                        is_wanted(entry, values, role) implies carries(more.last().runs, role) by {
                        let suffix = choose|suffix: Seq<char>| #[trigger]
                            is_suffix(entry, suffix) && role == base + suffix;
                        suffixes_are(entry, suffix);
                        let k = choose|k: int| 0 <= k < suffixes.len() && suffixes[k] == suffix;
                        assert(found[k].role == role);
                    }
                }
            },
        }
    } else {
        assert(hole_count(entry.pattern) != hole_count(entry.role));
    }
}

proof fn a_derivation_has_its_reason(
    target: ContractModel,
    e: int,
    runs: Seq<SourceModel>,
    values: Seq<u64>,
    found: Seq<SourceModel>,
)
    requires
        0 <= e < target.tensors.len(),
        instantiated(target.tensors[e].role, values) is Some,
        instantiated(target.tensors[e].pattern, values) is Some,
        found.len() == suffixes_of(target.tensors[e]).len(),
        forall|k: int|
            0 <= k < found.len() ==> runs.contains(#[trigger] found[k]) && found[k].role
                == instantiated(target.tensors[e].role, values)->Some_0 + suffixes_of(
                target.tensors[e],
            )[k],
    ensures
        ({
            let name = instantiated(target.tensors[e].pattern, values)->Some_0;
            match derivation(name, found, target.tensors[e].permute) {
                Derivation::Tensor(tensor) => tensor.runs == found,
                Derivation::Clash(Clash::Reason(reason)) => is_true_of(reason, runs, target),
                Derivation::Clash(Clash::Fault(fault)) => is_fault_of(fault, runs, target),
            }
        }),
{
    let entry = target.tensors[e];
    let name = instantiated(entry.pattern, values)->Some_0;
    if found.len() == 0 {
        assert forall|suffix: Seq<char>| !is_suffix(entry, suffix) by {
            suffixes_are(entry, suffix);
        }
        assert(is_true_of(ReasonModel::NoRuns, runs, target));
    } else {
        what_clashes(name, found, found.len() as int);
        let i = a_picked_run_is_wanted(entry, values, runs, found, 0);
        assert(go_together(target.tensors[e], values, runs, i, i));
        if let Some(one) = clash(name, found, found.len() as int) {
            let u = choose|u: int|
                0 <= u < found.len() && match one {
                    Clash::Reason(ReasonModel::MixedDtypes { name: n, first, other }) => n == name
                        && first == found[0].dtype && (#[trigger] found[u]).dtype == other && first
                        != other,
                    Clash::Reason(ReasonModel::MixedRows { name: n }) => n == name
                        && found[u].row_shape != found[0].row_shape,
                    Clash::Fault(FaultModel::MixedPermutes { name: n }) => n == name
                        && found[u].permute != found[0].permute,
                    _ => false,
                };
            let j = a_picked_run_is_wanted(entry, values, runs, found, u);
            assert(go_together(target.tensors[e], values, runs, i, j));
        }
    }
}

/// Whether every run of the source that is a part of a tensor of one of the first
/// `upto` values has a place.
spec fn places_all(
    tensors: Seq<DerivedModel>,
    entry: TensorModel,
    runs: Seq<SourceModel>,
    list: Seq<Seq<u64>>,
    upto: int,
) -> bool {
    forall|v: int, i: int|
        0 <= v < upto && 0 <= i < runs.len() && #[trigger] is_wanted(entry, list[v], runs[i].role)
            ==> placed(tensors, runs[i].role)
}

proof fn placed_stays(tensors: Seq<DerivedModel>, more: Seq<DerivedModel>, role: Seq<char>)
    requires
        more.len() == tensors.len() + 1,
        more.drop_last() == tensors,
        placed(tensors, role),
    ensures
        placed(more, role),
{
    let t = choose|t: int| 0 <= t < tensors.len() && carries((#[trigger] tensors[t]).runs, role);
    assert(more[t] == tensors[t]);
}

proof fn an_entry_has_its_reason(
    tensors: Seq<DerivedModel>,
    target: ContractModel,
    e: int,
    runs: Seq<SourceModel>,
    list: Seq<Seq<u64>>,
    upto: int,
)
    requires
        0 <= e < target.tensors.len(),
        is_pattern(target.tensors[e].role),
        is_pattern(target.tensors[e].pattern),
        0 <= upto <= list.len(),
        forall|v: int|
            0 <= v < list.len() ==> is_touched(target.tensors[e], #[trigger] list[v], runs),
    ensures
        ends_truly(entry_progress(tensors, target.tensors[e], runs, list, upto), runs, target),
        entry_progress(tensors, target.tensors[e], runs, list, upto) matches Progress::Going(more)
            ==> {
            &&& places_all(more, target.tensors[e], runs, list, upto)
            &&& forall|role: Seq<char>| placed(tensors, role) ==> #[trigger] placed(more, role)
        },
    decreases upto,
{
    let entry = target.tensors[e];
    if upto > 0 {
        an_entry_has_its_reason(tensors, target, e, runs, list, upto - 1);
        if let Progress::Going(found) = entry_progress(tensors, entry, runs, list, upto - 1) {
            assert(is_touched(entry, list[upto - 1], runs));
            one_tensor_has_its_reason(found, target, e, runs, list[upto - 1]);
            if let Progress::Going(more) = one_more(found, entry, runs, list[upto - 1]) {
                assert forall|role: Seq<char>| placed(tensors, role) implies #[trigger] placed(
                    more,
                    role,
                ) by {
                    assert(placed(found, role));
                    placed_stays(found, more, role);
                }
                assert forall|v: int, i: int|
                    0 <= v < upto && 0 <= i < runs.len() && #[trigger] is_wanted(
                        entry,
                        list[v],
                        runs[i].role,
                    ) implies placed(more, runs[i].role) by {
                    if v < upto - 1 {
                        placed_stays(found, more, runs[i].role);
                    } else {
                        assert(carries(more[more.len() - 1].runs, runs[i].role));
                    }
                }
            }
        }
    }
}

/// Whether every run of the source that one of the first `upto` declarations wants
/// has a place.
spec fn gives_places(
    tensors: Seq<DerivedModel>,
    target: ContractModel,
    runs: Seq<SourceModel>,
    upto: int,
) -> bool {
    forall|e: int, values: Seq<u64>, i: int|
        0 <= e < upto && 0 <= i < runs.len() && #[trigger] is_wanted(
            target.tensors[e],
            values,
            runs[i].role,
        ) ==> placed(tensors, runs[i].role)
}

proof fn a_target_has_its_reason(target: ContractModel, runs: Seq<SourceModel>, upto: int)
    requires
        target.wf(),
        0 <= upto <= target.tensors.len(),
    ensures
        ends_truly(target_progress(target, runs, upto), runs, target),
        target_progress(target, runs, upto) matches Progress::Going(tensors) ==> gives_places(
            tensors,
            target,
            runs,
            upto,
        ),
    decreases upto,
{
    if upto > 0 {
        a_target_has_its_reason(target, runs, upto - 1);
        let e = upto - 1;
        let entry = target.tensors[e];
        assert(is_pattern(entry.role) && is_pattern(entry.pattern));
        let list = values_of(entry, runs);
        assert forall|v: int| 0 <= v < list.len() implies is_touched(
            entry,
            #[trigger] list[v],
            runs,
        ) by {
            assert(list.contains(list[v]));
            values_are_touched(entry, runs, list[v]);
        }
        if let Progress::Going(tensors) = target_progress(target, runs, upto - 1) {
            if list.len() == 0 && entry.required {
                assert forall|values: Seq<u64>| !#[trigger] is_touched(entry, values, runs) by {
                    values_are_touched(entry, runs, values);
                }
                assert(target.tensors[e].required);
            } else {
                an_entry_has_its_reason(tensors, target, e, runs, list, list.len() as int);
                if let Progress::Going(more) = entry_progress(
                    tensors,
                    entry,
                    runs,
                    list,
                    list.len() as int,
                ) {
                    assert forall|d: int, values: Seq<u64>, i: int|
                        0 <= d < upto && 0 <= i < runs.len() && #[trigger] is_wanted(
                            target.tensors[d],
                            values,
                            runs[i].role,
                        ) implies placed(more, runs[i].role) by {
                        if d < e {
                            assert(placed(tensors, runs[i].role));
                        } else {
                            assert(is_touched(entry, values, runs)) by {
                                assert(is_wanted(entry, values, runs[i].role));
                            }
                            values_are_touched(entry, runs, values);
                            let v = choose|v: int| 0 <= v < list.len() && list[v] == values;
                            assert(is_wanted(entry, list[v], runs[i].role));
                        }
                    }
                }
            }
        }
    }
}

proof fn an_orphan_is_the_least(tensors: Seq<DerivedModel>, runs: Seq<SourceModel>, upto: int)
    requires
        0 <= upto <= runs.len(),
    ensures
        orphan(tensors, runs, upto) matches Some(role) ==> {
            &&& carries(runs, role)
            &&& !placed(tensors, role)
            &&& forall|i: int|
                0 <= i < upto && !placed(tensors, (#[trigger] runs[i]).role) ==> !bytes_less(
                    encode_utf8(runs[i].role),
                    encode_utf8(role),
                )
        },
        orphan(tensors, runs, upto) is None ==> forall|i: int|
            0 <= i < upto ==> placed(tensors, (#[trigger] runs[i]).role),
    decreases upto,
{
    if upto > 0 {
        an_orphan_is_the_least(tensors, runs, upto - 1);
        let role = runs[upto - 1].role;
        assert(carries(runs, role));
        bytes_less_irreflexive(encode_utf8(role));
        if let Some(least) = orphan(tensors, runs, upto - 1) {
            if !placed(tensors, role) && bytes_less(encode_utf8(role), encode_utf8(least)) {
                assert forall|i: int|
                    0 <= i < upto && !placed(tensors, (#[trigger] runs[i]).role) implies !bytes_less(
                    encode_utf8(runs[i].role),
                    encode_utf8(role),
                ) by {
                    if i < upto - 1 && bytes_less(encode_utf8(runs[i].role), encode_utf8(role)) {
                        bytes_less_transitive(
                            encode_utf8(runs[i].role),
                            encode_utf8(role),
                            encode_utf8(least),
                        );
                    }
                }
            }
        }
    }
}

/// A layout is not served only for a reason that holds: a required declaration
/// that nothing of the source is for, a part that the source lacks of a tensor that
/// it has other parts of, parts of one tensor that differ in type, in rows or in
/// permute, a run that no declaration wants, or nothing that any does.
pub proof fn a_refusal_has_its_reason(
    source: ContractModel,
    tensors: Seq<InventoryModel>,
    target: ContractModel,
)
    requires
        target.wf(),
        runs_of_file(source, tensors) is Ok,
    ensures
        ({
            let runs = runs_of_file(source, tensors)->Ok_0;
            match decided(source, tensors, target) {
                Ok(DecisionModel::Conversion(reason)) => is_true_of(reason, runs, target),
                Ok(_) => true,
                Err(fault) => is_fault_of(fault, runs, target),
            }
        }),
{
    let runs = runs_of_file(source, tensors)->Ok_0;
    let count = target.tensors.len() as int;
    a_target_has_its_reason(target, runs, count);
    if let Progress::Going(made) = target_progress(target, runs, count) {
        if made.len() == 0 {
            assert forall|e: int, values: Seq<u64>|
                0 <= e < target.tensors.len() implies !#[trigger] is_touched(
                target.tensors[e],
                values,
                runs,
            ) by {
                if is_touched(target.tensors[e], values, runs) {
                    let i = choose|i: int|
                        0 <= i < runs.len() && is_wanted(
                            target.tensors[e],
                            values,
                            (#[trigger] runs[i]).role,
                        );
                    assert(placed(made, runs[i].role));
                }
            }
        } else {
            an_orphan_is_the_least(made, runs, runs.len() as int);
            if let Some(role) = orphan(made, runs, runs.len() as int) {
                assert forall|e: int, values: Seq<u64>|
                    0 <= e < target.tensors.len() implies !#[trigger] is_wanted(
                    target.tensors[e],
                    values,
                    role,
                ) by {
                    let i = choose|i: int| 0 <= i < runs.len() && (#[trigger] runs[i]).role == role;
                    if is_wanted(target.tensors[e], values, role) {
                        assert(is_wanted(target.tensors[e], values, runs[i].role));
                        assert(placed(made, runs[i].role));
                    }
                }
            }
        }
    }
}

} // verus!
