//! In which order the tensors of a served layout stand, and that none is left out.

use super::decide::{
    decided, done_is_conversion, entry_progress, numbers_less, one_more, target_progress,
    values_of, DerivedModel, Progress,
};
use super::laws::{is_made_by, one_more_is_made, served};
use super::reasons::{is_touched, values_are_touched};
use super::runs::{runs_of_file, SourceModel};
use crate::contract::{ContractModel, TensorModel};
use crate::pattern::is_pattern;
use crate::planner::InventoryModel;
use vstd::prelude::*;

verus! {

/// A declaration and the hole values of one of its tensors.
pub type Origin = (int, Seq<u64>);

/// An earlier declaration, or lower values of the same one.
pub open spec fn comes_before(a: Origin, b: Origin) -> bool {
    a.0 < b.0 || (a.0 == b.0 && numbers_less(a.1, b.1))
}

proof fn entry_origins(
    tensors: Seq<DerivedModel>,
    entry: TensorModel,
    runs: Seq<SourceModel>,
    list: Seq<Seq<u64>>,
    upto: int,
)
    requires
        0 <= upto <= list.len(),
    ensures
        entry_progress(tensors, entry, runs, list, upto) matches Progress::Going(after) ==> {
            &&& after.len() == tensors.len() + upto
            &&& forall|t: int| 0 <= t < tensors.len() ==> #[trigger] after[t] == tensors[t]
            &&& forall|v: int|
                0 <= v < upto ==> is_made_by(
                    runs,
                    entry,
                    #[trigger] list[v],
                    after[tensors.len() + v],
                )
        },
    decreases upto,
{
    if upto > 0 {
        entry_origins(tensors, entry, runs, list, upto - 1);
        if let Progress::Going(before) = entry_progress(tensors, entry, runs, list, upto - 1) {
            one_more_is_made(before, entry, runs, list[upto - 1]);
            if let Progress::Going(after) = one_more(before, entry, runs, list[upto - 1]) {
                assert forall|t: int| 0 <= t < tensors.len() implies #[trigger] after[t]
                    == tensors[t] by {
                    assert(after[t] == before[t]);
                }
                assert forall|v: int| 0 <= v < upto implies is_made_by(
                    runs,
                    entry,
                    #[trigger] list[v],
                    after[tensors.len() + v],
                ) by {
                    if v < upto - 1 {
                        assert(after[tensors.len() + v] == before[tensors.len() + v]);
                    }
                }
            }
        }
    }
}

proof fn target_origins(target: ContractModel, runs: Seq<SourceModel>, upto: int) -> (origins: Seq<
    Origin,
>)
    requires
        target.wf(),
        0 <= upto <= target.tensors.len(),
    ensures
        target_progress(target, runs, upto) matches Progress::Going(made) ==> {
            &&& origins.len() == made.len()
            &&& forall|t: int|
                0 <= t < made.len() ==> 0 <= (#[trigger] origins[t]).0 < upto && is_made_by(
                    runs,
                    target.tensors[origins[t].0],
                    origins[t].1,
                    made[t],
                )
            &&& forall|t: int, u: int|
                0 <= t < u < made.len() ==> comes_before(#[trigger] origins[t], #[trigger] origins[u])
            &&& forall|e: int, values: Seq<u64>|
                0 <= e < upto && #[trigger] is_touched(target.tensors[e], values, runs)
                    ==> origins.contains((e, values))
        },
    decreases upto,
{
    if upto <= 0 {
        Seq::empty()
    } else {
        let before = target_origins(target, runs, upto - 1);
        let e = upto - 1;
        let entry = target.tensors[e];
        assert(is_pattern(entry.role));
        let list = values_of(entry, runs);
        values_are_touched(entry, runs, Seq::empty());
        let origins = before + Seq::new(list.len(), |v: int| (e, list[v]));
        if let Progress::Going(tensors) = target_progress(target, runs, upto - 1) {
            entry_origins(tensors, entry, runs, list, list.len() as int);
            if let Progress::Going(made) = target_progress(target, runs, upto) {
                assert forall|t: int| 0 <= t < made.len() implies 0 <= (#[trigger] origins[t]).0
                    < upto && is_made_by(
                    runs,
                    target.tensors[origins[t].0],
                    origins[t].1,
                    made[t],
                ) by {
                    if t < tensors.len() {
                        assert(origins[t] == before[t]);
                        assert(made[t] == tensors[t]);
                    } else {
                        let v = t - tensors.len();
                        assert(is_made_by(runs, entry, list[v], made[tensors.len() + v]));
                    }
                }
                assert forall|t: int, u: int| 0 <= t < u < made.len() implies comes_before(
                    #[trigger] origins[t],
                    #[trigger] origins[u],
                ) by {
                    if u < tensors.len() {
                        assert(origins[t] == before[t] && origins[u] == before[u]);
                    } else if t < tensors.len() {
                        assert(origins[t] == before[t]);
                    } else {
                        assert(numbers_less(list[t - tensors.len()], list[u - tensors.len()]));
                    }
                }
                assert forall|d: int, values: Seq<u64>|
                    0 <= d < upto && #[trigger] is_touched(
                        target.tensors[d],
                        values,
                        runs,
                    ) implies origins.contains((d, values)) by {
                    if d < e {
                        assert(before.contains((d, values)));
                        let k = choose|k: int| 0 <= k < before.len() && before[k] == (d, values);
                        assert(origins[k] == (d, values));
                    } else {
                        values_are_touched(entry, runs, values);
                        let v = choose|v: int| 0 <= v < list.len() && list[v] == values;
                        assert(origins[before.len() + v] == (d, values));
                    }
                }
            }
        }
        origins
    }
}

/// A served layout has exactly one tensor for each declaration and each choice of
/// hole values that the source has a run for, declaration by declaration, and of
/// one declaration the lower values first.
pub proof fn a_layout_is_served_in_the_declared_order(
    source: ContractModel,
    tensors: Seq<InventoryModel>,
    target: ContractModel,
) -> (origins: Seq<Origin>)
    requires
        target.wf(),
        decided(source, tensors, target) is Ok,
        served(decided(source, tensors, target)->Ok_0).len() > 0,
    ensures
        ({
            let runs = runs_of_file(source, tensors)->Ok_0;
            let made = served(decided(source, tensors, target)->Ok_0);
            &&& runs_of_file(source, tensors) is Ok
            &&& origins.len() == made.len()
            &&& forall|t: int|
                0 <= t < made.len() ==> 0 <= (#[trigger] origins[t]).0 < target.tensors.len()
                    && is_made_by(
                    runs,
                    target.tensors[origins[t].0],
                    origins[t].1,
                    made[t],
                )
            &&& forall|t: int, u: int|
                0 <= t < u < made.len() ==> comes_before(#[trigger] origins[t], #[trigger] origins[u])
            &&& forall|e: int, values: Seq<u64>|
                0 <= e < target.tensors.len() && #[trigger] is_touched(
                    target.tensors[e],
                    values,
                    runs,
                ) ==> origins.contains((e, values))
        }),
{
    let runs = runs_of_file(source, tensors)->Ok_0;
    let count = target.tensors.len() as int;
    if target_progress(target, runs, count) is Done {
        done_is_conversion(target, runs, count);
    }
    target_origins(target, runs, count)
}

} // verus!
