//! What a transfer makes of an answer: which lists are accepted, which objects
//! travel, and how they share packs.

use super::packs::{grouped, groups_of, payload};
use super::pull::picked_rows;
use super::push::{known_rows, recorded};
use super::{
    accepted_missing_is_a_projection, is_projection, lane_fault, misplaced, missing_fault,
    names_once, next_named, next_named_facts, pause_millis, rightly_placed, Lane, RowModel,
};
use vstd::prelude::*;

verus! {

proof fn projection_from(
    closure: Seq<RowModel>,
    missing: Seq<RowModel>,
    picked: Seq<int>,
    cursor: int,
    at: int,
)
    requires
        names_once(closure),
        is_projection(closure, missing, picked),
        0 <= at <= missing.len(),
        0 <= cursor <= closure.len(),
        at < missing.len() ==> cursor <= picked[at],
    ensures
        missing_fault(closure, missing, cursor, at) is None,
    decreases missing.len() - at,
{
    if at < missing.len() {
        let digest = missing[at].0;
        next_named_facts(closure, cursor, digest);
        let found = next_named(closure, cursor, digest);
        let place = picked[at];
        assert(closure[place] == missing[at]);
        assert(found <= place);
        if found < place {
            assert(closure[found].0 != closure[place].0);
        }
        if at + 1 < missing.len() {
            assert(picked[at] < picked[at + 1]);
        }
        projection_from(closure, missing, picked, found + 1, at + 1);
    }
}

/// A list of missing objects is accepted exactly if it is what is left of the
/// closure when rows are left out.
pub proof fn exactly_projections_are_accepted(closure: Seq<RowModel>, missing: Seq<RowModel>)
    requires
        names_once(closure),
    ensures
        missing_fault(closure, missing, 0, 0) is None <==> exists|picked: Seq<int>| #[trigger]
            is_projection(closure, missing, picked),
{
    if missing_fault(closure, missing, 0, 0) is None {
        accepted_missing_is_a_projection(closure, missing);
    }
    if exists|picked: Seq<int>| #[trigger] is_projection(closure, missing, picked) {
        let picked = choose|picked: Seq<int>| #[trigger] is_projection(closure, missing, picked);
        if missing.len() > 0 {
            assert(0 <= picked[0]);
        }
        projection_from(closure, missing, picked, 0, 0);
    }
}

proof fn well_placed(list: Seq<RowModel>, at: int, limit: u64, lane: Lane)
    requires
        0 <= at <= list.len(),
        forall|i: int| at <= i < list.len() ==> ((#[trigger] list[i]).1 > limit) == (lane is Blob),
    ensures
        misplaced(list, at, limit, lane) is None,
    decreases list.len() - at,
{
    if at < list.len() {
        assert((list[at].1 > limit) == (lane is Blob));
        well_placed(list, at + 1, limit, lane);
    }
}

/// Two lanes are accepted exactly if both are projections of the closure, what a
/// pack can carry is in the pack lane, and what none can is in the blob lane.
pub proof fn exactly_sorted_lanes_are_accepted(
    closure: Seq<RowModel>,
    missing: Seq<RowModel>,
    missing_blobs: Seq<RowModel>,
    limit: u64,
)
    requires
        names_once(closure),
    ensures
        lane_fault(closure, missing, missing_blobs, limit) is None <==> {
            &&& exists|picked: Seq<int>| #[trigger] is_projection(closure, missing, picked)
            &&& exists|picked: Seq<int>| #[trigger] is_projection(closure, missing_blobs, picked)
            &&& forall|i: int| 0 <= i < missing.len() ==> (#[trigger] missing[i]).1 <= limit
            &&& forall|i: int|
                0 <= i < missing_blobs.len() ==> (#[trigger] missing_blobs[i]).1 > limit
        },
{
    exactly_projections_are_accepted(closure, missing);
    exactly_projections_are_accepted(closure, missing_blobs);
    if lane_fault(closure, missing, missing_blobs, limit) is None {
        assert forall|i: int| 0 <= i < missing.len() implies (#[trigger] missing[i]).1 <= limit by {
            rightly_placed(missing, 0, limit, Lane::Pack, i);
        }
        assert forall|i: int| 0 <= i < missing_blobs.len() implies (
        #[trigger] missing_blobs[i]).1 > limit by {
            rightly_placed(missing_blobs, 0, limit, Lane::Blob, i);
        }
    }
    if forall|i: int| 0 <= i < missing.len() ==> (#[trigger] missing[i]).1 <= limit {
        well_placed(missing, 0, limit, Lane::Pack);
    }
    if forall|i: int| 0 <= i < missing_blobs.len() ==> (#[trigger] missing_blobs[i]).1 > limit {
        well_placed(missing_blobs, 0, limit, Lane::Blob);
    }
}

/// What a pull fetches are exactly the objects of the closure that the store does
/// not hold, in the order of the closure, each once.
pub proof fn a_pull_fetches_what_is_not_held(list: Seq<RowModel>, held: Seq<bool>, upto: int) -> (picked:
    Seq<int>)
    requires
        0 <= upto <= list.len(),
        held.len() == list.len(),
    ensures
        is_projection(list, picked_rows(list, held, false, upto), picked),
        forall|i: int| 0 <= i < upto ==> (#[trigger] picked.contains(i) <==> !held[i]),
        forall|k: int| 0 <= k < picked.len() ==> #[trigger] picked[k] < upto,
    decreases upto,
{
    if upto <= 0 {
        Seq::empty()
    } else {
        let before = a_pull_fetches_what_is_not_held(list, held, upto - 1);
        if held[upto - 1] {
            assert forall|i: int| 0 <= i < upto implies (#[trigger] before.contains(i)
                <==> !held[i]) by {
                if i == upto - 1 && before.contains(i) {
                    let k = choose|k: int| 0 <= k < before.len() && before[k] == i;
                    assert(before[k] < upto - 1);
                }
            }
            before
        } else {
            let picked = before.push(upto - 1);
            let rows = picked_rows(list, held, false, upto);
            assert forall|k: int| 0 <= k < picked.len() implies 0 <= #[trigger] picked[k]
                < list.len() && list[picked[k]] == rows[k] by {
                if k < before.len() {
                    assert(picked[k] == before[k]);
                }
            }
            assert forall|i: int, j: int| 0 <= i < j < picked.len() implies #[trigger] picked[i]
                < #[trigger] picked[j] by {
                assert(picked[i] == before[i]);
                if j < before.len() {
                    assert(picked[j] == before[j]);
                }
            }
            assert forall|i: int| 0 <= i < upto implies (#[trigger] picked.contains(i)
                <==> !held[i]) by {
                if before.contains(i) {
                    let k = choose|k: int| 0 <= k < before.len() && before[k] == i;
                    assert(picked[k] == i);
                }
                if picked.contains(i) {
                    let k = choose|k: int| 0 <= k < picked.len() && picked[k] == i;
                    if k < before.len() {
                        assert(before[k] == i);
                    }
                }
                if i == upto - 1 {
                    assert(picked[before.len() as int] == i);
                }
            }
            picked
        }
    }
}

/// What the remote holds already are the objects of the closure that it names, each
/// with the length that the closure records for it.
pub proof fn the_remote_holds_what_it_names(
    closure: Seq<RowModel>,
    have: Seq<Seq<u8>>,
    upto: int,
    row: RowModel,
)
    requires
        names_once(closure),
        0 <= upto <= have.len(),
    ensures
        known_rows(closure, have, upto).contains(row) <==> closure.contains(row) && exists|i: int|
            0 <= i < upto && #[trigger] have[i] == row.0,
    decreases upto,
{
    if upto > 0 {
        the_remote_holds_what_it_names(closure, have, upto - 1, row);
        let before = known_rows(closure, have, upto - 1);
        let after = known_rows(closure, have, upto);
        let digest = have[upto - 1];
        if recorded(closure, digest) is Some {
            let at = choose|i: int| 0 <= i < closure.len() && (#[trigger] closure[i]).0 == digest;
            let one = (digest, closure[at].1);
            assert(closure[at] == one);
            assert(after == before.push(one));
            assert(closure.contains(one));
            if before.contains(row) {
                let k = choose|k: int| 0 <= k < before.len() && before[k] == row;
                assert(after[k] == row);
            }
            if after.contains(row) {
                let k = choose|k: int| 0 <= k < after.len() && after[k] == row;
                if k < before.len() {
                    assert(before[k] == row);
                    assert(before.contains(row));
                } else {
                    assert(have[upto - 1] == row.0);
                }
            }
            if closure.contains(row) && row.0 == digest {
                let k = choose|k: int| 0 <= k < closure.len() && closure[k] == row;
                if k < at {
                    assert(closure[k].0 != closure[at].0);
                }
                if at < k {
                    assert(closure[at].0 != closure[k].0);
                }
                assert(after[before.len() as int] == row);
            }
        } else if closure.contains(row) && row.0 == digest {
            let k = choose|k: int| 0 <= k < closure.len() && closure[k] == row;
            assert(closure[k].0 == digest);
        }
        if exists|i: int| 0 <= i < upto - 1 && #[trigger] have[i] == row.0 {
            let i = choose|i: int| 0 <= i < upto - 1 && #[trigger] have[i] == row.0;
            assert(have[i] == row.0);
        }
    }
}

proof fn groups_stay_small(list: Seq<RowModel>, limit: u64, upto: int)
    requires
        0 <= upto <= list.len(),
    ensures
        forall|g: int|
            0 <= g < grouped(list, limit, upto).len() ==> (#[trigger] grouped(
                list,
                limit,
                upto,
            )[g]).len() <= 1000000,
    decreases upto,
{
    if upto > 0 {
        groups_stay_small(list, limit, upto - 1);
        let before = grouped(list, limit, upto - 1);
        let groups = grouped(list, limit, upto);
        assert forall|g: int| 0 <= g < groups.len() implies (#[trigger] groups[g]).len()
            <= 1000000 by {
            if g < before.len() {
                assert(before[g].len() <= 1000000);
            }
        }
    }
}

proof fn groups_grow_full(list: Seq<RowModel>, limit: u64, upto: int, g: int)
    requires
        0 <= upto <= list.len(),
        0 <= g,
        g + 1 < grouped(list, limit, upto).len(),
    ensures
        ({
            let groups = grouped(list, limit, upto);
            groups[g + 1].len() > 0 && (groups[g].len() == 1000000 || payload(groups[g])
                + groups[g + 1][0].1 > limit)
        }),
    decreases upto,
{
    if upto > 0 {
        let before = grouped(list, limit, upto - 1);
        let groups = grouped(list, limit, upto);
        if g + 1 < before.len() {
            groups_grow_full(list, limit, upto - 1, g);
            assert(groups[g] == before[g]);
            if g + 1 < before.len() - 1 {
                assert(groups[g + 1] == before[g + 1]);
            } else {
                assert(groups[g + 1][0] == before[g + 1][0]);
            }
        } else {
            groups_stay_small(list, limit, upto - 1);
            assert(before[g].len() <= 1000000);
            assert(groups[g] == before.last());
            assert(groups[g + 1] == seq![list[upto - 1]]);
        }
    }
}

/// No pack is closed early: the object that opens the next one would not have
/// fitted, by its bytes or by the number of objects.
pub proof fn packs_are_filled_in_turn(list: Seq<RowModel>, limit: u64, g: int)
    requires
        0 <= g,
        g + 1 < groups_of(list, limit).len(),
    ensures
        ({
            let groups = groups_of(list, limit);
            groups[g + 1].len() > 0 && (groups[g].len() == 1000000 || payload(groups[g])
                + groups[g + 1][0].1 > limit)
        }),
{
    groups_grow_full(list, limit, list.len() as int, g);
}

/// The first pause is a quarter of a second, and each is twice the one before it,
/// eight seconds at most.
pub proof fn pauses_double(attempt: u32)
    requires
        attempt < u32::MAX,
    ensures
        pause_millis(0) == 250,
        pause_millis((attempt + 1) as u32) == if 2 * pause_millis(attempt) < 8000 {
            2 * pause_millis(attempt)
        } else {
            8000
        },
{
    vstd::arithmetic::power2::lemma2_to64();
}

} // verus!
