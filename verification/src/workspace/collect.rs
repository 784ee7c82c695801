//! Collecting objects that nothing refers to.
//!
//! An object that nothing refers to is first marked, and deleted only after it
//! has stayed so for two full epochs. What a collection does is decided here;
//! the store performs it in the transaction that the roots were read in.

use super::GcReport;
use crate::digest_index::{digests, DigestIndex};
use crate::object::ObjectDigest;
use crate::sync::packs::{digests_of, row_digests};
use crate::sync::{firsts, rows, unique_rows, RowModel};
use vstd::prelude::*;

verus! {

/// How many epochs an object stays marked before it is deleted.
pub const QUARANTINE_EPOCHS: i64 = 2;

/// What becomes of a marked object.
#[derive(Clone, Copy, Debug, PartialEq, Eq, Structural)]
pub enum QuarantineStep {
    /// It is referred to again: unmark it.
    Rescue,
    /// It is gone: unmark it.
    Forget,
    /// It was marked long enough: delete it, and unmark it. It has so many
    /// bytes.
    Delete { length: u64 },
    /// It stays marked.
    Keep,
}

/// The length of an object, as the store last named it among the first `upto`.
pub open spec fn resident_length(resident: Seq<RowModel>, digest: Seq<u8>, upto: int) -> u64
    decreases upto,
{
    if upto <= 0 {
        0
    } else if resident[upto - 1].0 == digest {
        resident[upto - 1].1
    } else {
        resident_length(resident, digest, upto - 1)
    }
}

/// What becomes of an object that was marked in the epoch `marked`.
pub open spec fn step_of(
    roots: Seq<Seq<u8>>,
    resident: Seq<RowModel>,
    digest: Seq<u8>,
    marked: i64,
    epoch: i64,
) -> QuarantineStep {
    if roots.contains(digest) {
        QuarantineStep::Rescue
    } else if !row_digests(resident).contains(digest) {
        QuarantineStep::Forget
    } else if marked <= epoch - QUARANTINE_EPOCHS {
        QuarantineStep::Delete {
            length: resident_length(resident, digest, resident.len() as int),
        }
    } else {
        QuarantineStep::Keep
    }
}

/// A marked object, and the epoch of its mark.
pub type MarkModel = (Seq<u8>, i64);

pub open spec fn mark_models(list: Seq<(ObjectDigest, i64)>) -> Seq<MarkModel> {
    list.map_values(|mark: (ObjectDigest, i64)| (mark.0@, mark.1))
}

pub open spec fn mark_digests(list: Seq<MarkModel>) -> Seq<Seq<u8>> {
    list.map_values(|mark: MarkModel| mark.0)
}

/// The resident objects among the first `upto` that nothing refers to and that
/// are not marked yet.
pub open spec fn unmarked(
    unique: Seq<RowModel>,
    roots: Seq<Seq<u8>>,
    marks: Seq<Seq<u8>>,
    upto: int,
) -> Seq<Seq<u8>>
    decreases upto,
{
    if upto <= 0 {
        Seq::empty()
    } else {
        let before = unmarked(unique, roots, marks, upto - 1);
        let digest = unique[upto - 1].0;
        if roots.contains(digest) || marks.contains(digest) {
            before
        } else {
            before.push(digest)
        }
    }
}

/// How many of the first `upto` marked objects are rescued.
pub open spec fn rescued(steps: Seq<QuarantineStep>, upto: int) -> nat
    decreases upto,
{
    if upto <= 0 {
        0
    } else {
        rescued(steps, upto - 1) + if steps[upto - 1] is Rescue {
            1nat
        } else {
            0nat
        }
    }
}

/// What a collection does.
pub struct Collection {
    /// The epoch that it begins.
    pub epoch: i64,
    /// The report, before anything is deleted.
    pub report: GcReport,
    /// What becomes of each marked object, in order.
    pub steps: Vec<QuarantineStep>,
    /// The objects to mark.
    pub marks: Vec<ObjectDigest>,
}

/// Decides a collection. `roots` are the objects that something refers to,
/// `resident` those that the store holds, `quarantined` those that are marked.
pub fn collect(
    epoch: i64,
    roots: &[ObjectDigest],
    resident: &Vec<(ObjectDigest, u64)>,
    quarantined: &[(ObjectDigest, i64)],
) -> (plan: Collection)
    requires
        0 <= epoch < i64::MAX,
    ensures
        ({
            let names = digests(roots@);
            let held = rows(resident@);
            let marks = mark_models(quarantined@);
            let unique = firsts(held, held.len() as int);
            let fresh = unmarked(unique, names, mark_digests(marks), unique.len() as int);
            &&& plan.epoch == epoch + 1
            &&& plan.steps@ == Seq::new(
                marks.len(),
                |i: int| step_of(names, held, marks[i].0, marks[i].1, (epoch + 1) as i64),
            )
            &&& digests(plan.marks@) == fresh
            &&& plan.report == (GcReport {
                roots: names.to_set().len() as u64,
                resident: held.len() as u64,
                newly_quarantined: fresh.len() as u64,
                rescued: rescued(plan.steps@, plan.steps@.len() as int) as u64,
                deleted: 0,
                bytes_deleted: 0,
                epoch: (epoch + 1) as u64,
            })
        }),
{
    let next: i64 = epoch + 1;
    let ghost names = digests(roots@);
    let ghost held = rows(resident@);
    let ghost marks = mark_models(quarantined@);
    let root_index = DigestIndex::new(roots);
    let resident_digests = digests_of(resident);
    let ghost held_names = digests(resident_digests@);
    let resident_index = DigestIndex::new(&resident_digests);
    let mut report = GcReport::default();
    let root_count: usize = root_index.count(Ghost(names));
    let resident_count: usize = resident.len();
    report.roots = root_count as u64;
    report.resident = resident_count as u64;
    report.epoch = next as u64;
    let mut steps: Vec<QuarantineStep> = Vec::new();
    let mut marked_digests: Vec<ObjectDigest> = Vec::new();
    let mut at: usize = 0;
    while at < quarantined.len()
        invariant
            at <= quarantined@.len(),
            0 <= epoch < i64::MAX,
            next == epoch + 1,
            marks == mark_models(quarantined@),
            held == rows(resident@),
            held_names == row_digests(held),
            root_index.of(names),
            resident_index.of(held_names),
            steps@.len() == at,
            marked_digests@.len() == at,
            forall|i: int|
                0 <= i < at ==> #[trigger] steps@[i] == step_of(
                    names,
                    held,
                    marks[i].0,
                    marks[i].1,
                    next,
                ),
            forall|i: int| 0 <= i < at ==> (#[trigger] marked_digests@[i])@ == marks[i].0,
            report == (GcReport {
                roots: root_count as u64,
                resident: resident_count as u64,
                newly_quarantined: 0,
                rescued: rescued(steps@, at as int) as u64,
                deleted: 0,
                bytes_deleted: 0,
                epoch: next as u64,
            }),
            rescued(steps@, at as int) <= at,
        decreases quarantined@.len() - at,
    {
        let digest = quarantined[at].0;
        let marked = quarantined[at].1;
        let ghost before = steps@;
        assert(marks[at as int] == (digest@, marked));
        let step = if root_index.contains(&digest, Ghost(names)) {
            QuarantineStep::Rescue
        } else {
            match resident_index.find(&digest, Ghost(held_names)) {
                None => QuarantineStep::Forget,
                Some(place) => if marked <= next - QUARANTINE_EPOCHS {
                    proof {
                        assert(held_names[place as int] == held[place as int].0);
                        assert(held_names.contains(digest@));
                        length_is(held, digest@, place as int, held.len() as int);
                        assert(held[place as int].1 == resident@[place as int].1);
                    }
                    QuarantineStep::Delete { length: resident[place].1 }
                } else {
                    assert(held_names[place as int] == digest@);
                    QuarantineStep::Keep
                },
            }
        };
        steps.push(step);
        marked_digests.push(digest);
        proof {
            rescued_stay(before, steps@, at as int);
        }
        if let QuarantineStep::Rescue = step {
            report.rescued = report.rescued + 1;
        }
        at += 1;
    }
    assert(digests(marked_digests@) =~= mark_digests(marks));
    assert(steps@ =~= Seq::new(
        marks.len(),
        |i: int| step_of(names, held, marks[i].0, marks[i].1, next),
    ));
    let unique_list = unique_rows(resident);
    let fresh = find_unmarked(&unique_list, roots, &marked_digests);
    let fresh_count: usize = fresh.len();
    assert(digests(fresh@).len() == fresh@.len());
    report.newly_quarantined = fresh_count as u64;
    Collection { epoch: next, report, steps, marks: fresh }
}

proof fn length_is(resident: Seq<RowModel>, digest: Seq<u8>, at: int, upto: int)
    requires
        0 <= at < upto <= resident.len(),
        resident[at].0 == digest,
        forall|j: int| at < j < resident.len() ==> (#[trigger] row_digests(resident)[j]) != row_digests(
            resident,
        )[at],
    ensures
        resident_length(resident, digest, upto) == resident[at].1,
    decreases upto,
{
    if upto - 1 > at {
        assert(row_digests(resident)[upto - 1] == resident[upto - 1].0);
        assert(row_digests(resident)[at] == digest);
        length_is(resident, digest, at, upto - 1);
    }
}

proof fn rescued_stay(before: Seq<QuarantineStep>, after: Seq<QuarantineStep>, upto: int)
    requires
        0 <= upto <= before.len() <= after.len(),
        forall|i: int| 0 <= i < before.len() ==> before[i] == after[i],
    ensures
        rescued(before, upto) == rescued(after, upto),
    decreases upto,
{
    if upto > 0 {
        rescued_stay(before, after, upto - 1);
    }
}

fn find_unmarked(
    unique: &Vec<(ObjectDigest, u64)>,
    roots: &[ObjectDigest],
    marked: &Vec<ObjectDigest>,
) -> (fresh: Vec<ObjectDigest>)
    ensures
        digests(fresh@) == unmarked(
            rows(unique@),
            digests(roots@),
            digests(marked@),
            unique@.len() as int,
        ),
{
    let ghost models = rows(unique@);
    let ghost names = digests(roots@);
    let ghost marks = digests(marked@);
    let root_index = DigestIndex::new(roots);
    let mark_index = DigestIndex::new(marked);
    let mut fresh: Vec<ObjectDigest> = Vec::new();
    let mut at: usize = 0;
    assert(digests(fresh@) =~= unmarked(models, names, marks, 0));
    while at < unique.len()
        invariant
            at <= unique@.len(),
            models == rows(unique@),
            root_index.of(names),
            mark_index.of(marks),
            digests(fresh@) == unmarked(models, names, marks, at as int),
        decreases unique@.len() - at,
    {
        let digest = unique[at].0;
        let ghost before = digests(fresh@);
        assert(models[at as int].0 == digest@);
        if !root_index.contains(&digest, Ghost(names)) && !mark_index.contains(&digest, Ghost(marks)) {
            fresh.push(digest);
            assert(digests(fresh@) =~= before.push(digest@));
        }
        at += 1;
    }
    fresh
}

/// Accounts for one deletion. An object that was gone already counts for
/// nothing.
pub fn account_deletion(report: &mut GcReport, removed: bool, length: u64)
    requires
        old(report).deleted < u64::MAX,
        old(report).bytes_deleted + length <= u64::MAX,
    ensures
        *final(report) == if removed {
            GcReport {
                deleted: (old(report).deleted + 1) as u64,
                bytes_deleted: (old(report).bytes_deleted + length) as u64,
                ..*old(report)
            }
        } else {
            *old(report)
        },
{
    if removed {
        report.deleted = report.deleted + 1;
        report.bytes_deleted = report.bytes_deleted + length;
    }
}

/// Only an object that nothing refers to, and that was marked at least two
/// epochs ago, is deleted.
pub proof fn only_abandoned_objects_are_deleted(
    roots: Seq<Seq<u8>>,
    resident: Seq<RowModel>,
    digest: Seq<u8>,
    marked: i64,
    epoch: i64,
)
    ensures
        step_of(roots, resident, digest, marked, epoch) is Delete <==> !roots.contains(digest)
            && row_digests(resident).contains(digest) && marked + QUARANTINE_EPOCHS <= epoch,
{
}

proof fn marks_are_unrooted(
    unique: Seq<RowModel>,
    roots: Seq<Seq<u8>>,
    marks: Seq<Seq<u8>>,
    upto: int,
    i: int,
)
    requires
        0 <= i < unmarked(unique, roots, marks, upto).len(),
    ensures
        !roots.contains(unmarked(unique, roots, marks, upto)[i]),
        !marks.contains(unmarked(unique, roots, marks, upto)[i]),
    decreases upto,
{
    if upto > 0 {
        let before = unmarked(unique, roots, marks, upto - 1);
        if i < before.len() {
            marks_are_unrooted(unique, roots, marks, upto - 1, i);
        }
    }
}

/// No object is marked and deleted by the same collection, and none that
/// something refers to is marked.
pub proof fn an_object_is_marked_before_it_is_deleted(
    unique: Seq<RowModel>,
    roots: Seq<Seq<u8>>,
    marks: Seq<Seq<u8>>,
    i: int,
)
    requires
        0 <= i < unmarked(unique, roots, marks, unique.len() as int).len(),
    ensures
        !roots.contains(unmarked(unique, roots, marks, unique.len() as int)[i]),
        !marks.contains(unmarked(unique, roots, marks, unique.len() as int)[i]),
{
    marks_are_unrooted(unique, roots, marks, unique.len() as int, i);
}

} // verus!
