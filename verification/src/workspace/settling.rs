//! What committing, sealing and collecting come to: which objects a batch needs,
//! what a sealed file holds, and which objects go.

use super::collect::{mark_digests, step_of, unmarked, MarkModel, QuarantineStep};
use super::seal::{
    batch_rows, committed, committed_at, has_holes, is_at, pending_before, pending_slots, resliced,
    same_boundaries, seal_of, SealModel,
};
use super::MutationModel;
use crate::planner::{PlanModel, PlannerId, Region};
use crate::sync::laws::{data_row_is_listed, listed_row_is_data};
use crate::sync::packs::row_digests;
use crate::sync::{data_rows, firsts, firsts_come_from, firsts_cover, firsts_name_once, RowModel};
use crate::tfm1::{record_sum, RecordModel};
use vstd::prelude::*;

verus! {

// ---------------------------------------------------------------------------
// A batch
// ---------------------------------------------------------------------------

/// Mutation `i` of a batch gives a file the data record `k`.
pub open spec fn gives(batch: Seq<MutationModel>, i: int, k: int, row: RowModel) -> bool {
    &&& 0 <= i < batch.len()
    &&& match batch[i] {
        MutationModel::CreateFile { records, .. } => 0 <= k < records.len() && records[k] == (
        RecordModel::Data { digest: row.0, length: row.1 }),
        MutationModel::SetRecords { records, .. } => 0 <= k < records.len() && records[k] == (
        RecordModel::Data { digest: row.0, length: row.1 }),
        _ => false,
    }
}

proof fn given_is_listed(batch: Seq<MutationModel>, i: int, k: int, row: RowModel, upto: int) -> (at:
    int)
    requires
        gives(batch, i, k, row),
        i < upto <= batch.len(),
    ensures
        0 <= at < batch_rows(batch, upto).len(),
        batch_rows(batch, upto)[at] == row,
    decreases upto,
{
    let before = batch_rows(batch, upto - 1);
    if i < upto - 1 {
        let at = given_is_listed(batch, i, k, row, upto - 1);
        assert(batch_rows(batch, upto)[at] == before[at]);
        at
    } else {
        let records = super::seal::given_records(batch[i]).unwrap();
        data_row_is_listed(records, k, records.len() as int);
        let at = data_rows(records, k).len() as int;
        assert(batch_rows(batch, upto)[before.len() + at] == data_rows(
            records,
            records.len() as int,
        )[at]);
        before.len() + at
    }
}

proof fn listed_is_given(batch: Seq<MutationModel>, at: int, upto: int) -> (spot: (int, int))
    requires
        0 <= upto <= batch.len(),
        0 <= at < batch_rows(batch, upto).len(),
    ensures
        gives(batch, spot.0, spot.1, batch_rows(batch, upto)[at]),
    decreases upto,
{
    let before = batch_rows(batch, upto - 1);
    if at < before.len() {
        assert(batch_rows(batch, upto)[at] == before[at]);
        listed_is_given(batch, at, upto - 1)
    } else {
        let records = super::seal::given_records(batch[upto - 1]).unwrap();
        let k = listed_row_is_data(records, at - before.len(), records.len() as int);
        assert(batch_rows(batch, upto)[at] == data_rows(records, records.len() as int)[at
            - before.len()]);
        (upto - 1, k)
    }
}

/// A batch refers to exactly the objects of the records that its mutations give,
/// to each once.
pub proof fn a_batch_refers_to_what_it_gives(batch: Seq<MutationModel>, digest: Seq<u8>)
    ensures
        ({
            let all = batch_rows(batch, batch.len() as int);
            let wanted = row_digests(firsts(all, all.len() as int));
            &&& wanted.no_duplicates()
            &&& wanted.contains(digest) <==> exists|i: int, k: int, row: RowModel| #[trigger]
                gives(batch, i, k, row) && row.0 == digest
        }),
{
    let n = batch.len() as int;
    let all = batch_rows(batch, n);
    let once = firsts(all, all.len() as int);
    let wanted = row_digests(once);
    firsts_name_once(all, all.len() as int);
    assert forall|i: int, j: int| 0 <= i < wanted.len() && 0 <= j < wanted.len() && i != j implies wanted[i]
        != wanted[j] by {
        if i < j {
            assert(once[i].0 != once[j].0);
        } else {
            assert(once[j].0 != once[i].0);
        }
    }
    if wanted.contains(digest) {
        let w = choose|w: int| 0 <= w < wanted.len() && wanted[w] == digest;
        let at = firsts_come_from(all, all.len() as int, w);
        let (i, k) = listed_is_given(batch, at, n);
        assert(gives(batch, i, k, all[at]));
    }
    if exists|i: int, k: int, row: RowModel| #[trigger] gives(batch, i, k, row) && row.0 == digest {
        let (i, k, row) = choose|i: int, k: int, row: RowModel| #[trigger]
            gives(batch, i, k, row) && row.0 == digest;
        let at = given_is_listed(batch, i, k, row, n);
        let w = firsts_cover(all, all.len() as int, at);
        assert(wanted[w] == digest);
    }
}

// ---------------------------------------------------------------------------
// A sealed file
// ---------------------------------------------------------------------------

/// What sealing does to a file. A sparse one stays if a tensor planner made it, and
/// else becomes one object. Any other is canonical afterwards: one object where its
/// bytes are no tensor container, and else the regions that its planner sees; and
/// what is canonical already is not done again.
pub proof fn sealing_makes_canonical(
    stored: PlannerId,
    records: Seq<RecordModel>,
    planned: PlanModel,
)
    requires
        records.len() > 0,
    ensures
        ({
            let sparse = exists|i: int| 0 <= i < records.len() && (#[trigger] records[i]) is Hole;
            let tensor = stored is SafetensorsV1 || stored is GgufV1;
            let blob = planned.planner is BlobV1;
            let cut = records.len() == planned.regions.len() && forall|i: int|
                0 <= i < planned.regions.len() ==> record_sum(records, i) == (
                #[trigger] planned.regions[i]).offset && records[i].length()
                    == planned.regions[i].length;
            match seal_of(stored, records, planned) {
                SealModel::Keep => if sparse {
                    tensor
                } else if blob {
                    records.len() == 1 && stored is BlobV1
                } else {
                    cut && stored == planned.planner
                },
                SealModel::Blob => if sparse {
                    !tensor
                } else {
                    blob && records.len() != 1
                },
                SealModel::Relabel { planner } => !sparse && planner == planned.planner && planner
                    != stored && if blob {
                    records.len() == 1
                } else {
                    cut
                },
                SealModel::Reslice { planner, regions, .. } => !sparse && !blob && !cut && planner
                    == planned.planner && regions == planned.regions,
            }
        }),
{
    assert(has_holes(records) == exists|i: int|
        0 <= i < records.len() && (#[trigger] records[i]) is Hole);
    assert(same_boundaries(records, planned.regions) == (records.len() == planned.regions.len()
        && forall|i: int|
        0 <= i < planned.regions.len() ==> record_sum(records, i) == (
        #[trigger] planned.regions[i]).offset && records[i].length() == planned.regions[i].length))
        by {
        if same_boundaries(records, planned.regions) {
            assert forall|i: int| 0 <= i < planned.regions.len() implies record_sum(records, i) == (
            #[trigger] planned.regions[i]).offset && records[i].length()
                == planned.regions[i].length by {
                assert(is_at(records, i, planned.regions[i]));
            }
        }
    }
}

proof fn committed_is_at(records: Seq<RecordModel>, region: Region, upto: int)
    requires
        upto <= records.len(),
    ensures
        ({
            let at = committed_at(records, region, upto);
            &&& at < upto || at == -1
            &&& at >= 0 ==> is_at(records, at, region)
            &&& at < 0 ==> forall|i: int| 0 <= i < upto ==> !#[trigger] is_at(records, i, region)
        }),
    decreases upto,
{
    if upto > 0 {
        committed_is_at(records, region, upto - 1);
    }
}

proof fn pending_is_where_none_is(
    records: Seq<RecordModel>,
    regions: Seq<Region>,
    upto: int,
    p: int,
)
    requires
        0 <= upto <= regions.len() <= usize::MAX,
        0 <= p < pending_slots(records, regions, upto).len(),
    ensures
        ({
            let slot = pending_slots(records, regions, upto)[p] as int;
            &&& 0 <= slot < upto
            &&& committed(records, regions[slot]) < 0
            &&& pending_before(records, regions, slot) == p
        }),
    decreases upto,
{
    if upto > 0 {
        if p < pending_slots(records, regions, upto - 1).len() {
            pending_is_where_none_is(records, regions, upto - 1, p);
        }
    }
}

proof fn none_is_pending(records: Seq<RecordModel>, regions: Seq<Region>, upto: int, slot: int)
    requires
        0 <= slot < upto <= regions.len() <= usize::MAX,
        committed(records, regions[slot]) < 0,
    ensures
        pending_before(records, regions, slot) < pending_slots(records, regions, upto).len(),
        pending_slots(records, regions, upto)[pending_before(records, regions, slot) as int]
            == slot,
    decreases upto,
{
    if slot < upto - 1 {
        none_is_pending(records, regions, upto - 1, slot);
    }
}

/// The regions that have to be admitted are exactly those that no record is.
pub proof fn only_new_regions_are_pending(
    records: Seq<RecordModel>,
    regions: Seq<Region>,
    slot: int,
)
    requires
        regions.len() <= usize::MAX,
        0 <= slot < regions.len(),
    ensures
        pending_slots(records, regions, regions.len() as int).contains(slot as usize) <==> forall|
            k: int,
        |
            0 <= k < records.len() ==> !(record_sum(records, k) == regions[slot].offset && (
            #[trigger] records[k]).length() == regions[slot].length),
{
    let n = regions.len() as int;
    let pending = pending_slots(records, regions, n);
    committed_is_at(records, regions[slot], records.len() as int);
    if pending.contains(slot as usize) {
        let p = choose|p: int| 0 <= p < pending.len() && pending[p] == slot as usize;
        pending_is_where_none_is(records, regions, n, p);
        assert forall|k: int| 0 <= k < records.len() implies !(record_sum(records, k)
            == regions[slot].offset && (#[trigger] records[k]).length() == regions[slot].length) by {
            assert(!is_at(records, k, regions[slot]));
        }
    }
    if committed(records, regions[slot]) < 0 {
        none_is_pending(records, regions, n, slot);
        assert(pending[pending_before(records, regions, slot) as int] == slot as usize);
    }
}

/// A file that gets the boundaries of its plan keeps its bytes: where every record
/// names an object of the bytes that it stands for, and every object that was
/// admitted holds the bytes of its pending region, every new record names an object
/// of the bytes of its region.
pub proof fn a_resliced_file_keeps_its_bytes(
    file: Seq<u8>,
    objects: spec_fn(Seq<u8>) -> Seq<u8>,
    records: Seq<RecordModel>,
    regions: Seq<Region>,
    admitted: Seq<Seq<u8>>,
    slot: int,
)
    requires
        regions.len() <= usize::MAX,
        0 <= slot < regions.len(),
        forall|k: int|
            0 <= k < records.len() ==> (#[trigger] records[k] matches RecordModel::Data {
                digest,
                length,
            } && objects(digest) == file.subrange(
                record_sum(records, k) as int,
                record_sum(records, k) + length,
            )),
        ({
            let pending = pending_slots(records, regions, regions.len() as int);
            &&& admitted.len() == pending.len()
            &&& forall|p: int|
                0 <= p < pending.len() ==> objects(#[trigger] admitted[p]) == file.subrange(
                    regions[pending[p] as int].offset as int,
                    regions[pending[p] as int].offset + regions[pending[p] as int].length,
                )
        }),
    ensures
        resliced(records, regions, admitted, slot) matches RecordModel::Data { digest, length }
            && length == regions[slot].length && objects(digest) == file.subrange(
            regions[slot].offset as int,
            regions[slot].offset + regions[slot].length,
        ),
{
    let at = committed(records, regions[slot]);
    committed_is_at(records, regions[slot], records.len() as int);
    if at >= 0 {
        assert(is_at(records, at, regions[slot]));
        assert(records[at] is Data);
    } else {
        none_is_pending(records, regions, regions.len() as int, slot);
        let p = pending_before(records, regions, slot) as int;
        assert(objects(admitted[p]) == file.subrange(
            regions[slot].offset as int,
            regions[slot].offset + regions[slot].length,
        ));
    }
}

// ---------------------------------------------------------------------------
// A collection
// ---------------------------------------------------------------------------

proof fn fresh_marks(
    unique: Seq<RowModel>,
    roots: Seq<Seq<u8>>,
    marks: Seq<Seq<u8>>,
    digest: Seq<u8>,
    upto: int,
)
    requires
        0 <= upto <= unique.len(),
    ensures
        unmarked(unique, roots, marks, upto).contains(digest) <==> !roots.contains(digest)
            && !marks.contains(digest) && exists|i: int|
            0 <= i < upto && (#[trigger] unique[i]).0 == digest,
    decreases upto,
{
    if upto > 0 {
        fresh_marks(unique, roots, marks, digest, upto - 1);
        let before = unmarked(unique, roots, marks, upto - 1);
        let after = unmarked(unique, roots, marks, upto);
        if before.contains(digest) {
            let k = choose|k: int| 0 <= k < before.len() && before[k] == digest;
            assert(after[k] == digest);
            let i = choose|i: int| 0 <= i < upto - 1 && (#[trigger] unique[i]).0 == digest;
            assert(unique[i].0 == digest);
        }
        if after.contains(digest) && !before.contains(digest) {
            let k = choose|k: int| 0 <= k < after.len() && after[k] == digest;
            if k < before.len() {
                assert(before[k] == digest);
            }
            assert(unique[upto - 1].0 == digest);
        }
        if !roots.contains(digest) && !marks.contains(digest) && unique[upto - 1].0 == digest {
            assert(after.last() == digest);
        }
    }
}

/// A collection marks exactly the objects that the store holds, that nothing refers
/// to, and that are not marked yet.
pub proof fn what_nothing_refers_to_is_marked(
    resident: Seq<RowModel>,
    roots: Seq<Seq<u8>>,
    marks: Seq<MarkModel>,
    digest: Seq<u8>,
)
    ensures
        ({
            let unique = firsts(resident, resident.len() as int);
            let fresh = unmarked(unique, roots, mark_digests(marks), unique.len() as int);
            fresh.contains(digest) <==> !roots.contains(digest) && (exists|i: int|
                0 <= i < resident.len() && (#[trigger] resident[i]).0 == digest) && !(exists|i: int|
                0 <= i < marks.len() && (#[trigger] marks[i]).0 == digest)
        }),
{
    let n = resident.len() as int;
    let unique = firsts(resident, n);
    let named = mark_digests(marks);
    fresh_marks(unique, roots, named, digest, unique.len() as int);
    if exists|i: int| 0 <= i < unique.len() && (#[trigger] unique[i]).0 == digest {
        let i = choose|i: int| 0 <= i < unique.len() && (#[trigger] unique[i]).0 == digest;
        let at = firsts_come_from(resident, n, i);
        assert(resident[at].0 == digest);
    }
    if exists|i: int| 0 <= i < resident.len() && (#[trigger] resident[i]).0 == digest {
        let i = choose|i: int| 0 <= i < resident.len() && (#[trigger] resident[i]).0 == digest;
        let at = firsts_cover(resident, n, i);
        assert(unique[at].0 == digest);
    }
    if named.contains(digest) {
        let i = choose|i: int| 0 <= i < named.len() && named[i] == digest;
        assert(marks[i].0 == digest);
    }
    if exists|i: int| 0 <= i < marks.len() && (#[trigger] marks[i]).0 == digest {
        let i = choose|i: int| 0 <= i < marks.len() && (#[trigger] marks[i]).0 == digest;
        assert(named[i] == digest);
    }
}

/// What becomes of a marked object. Referred to again, it is unmarked; gone, it is
/// forgotten; else it stays through the epoch after its mark, and is deleted in the
/// one after that, with the bytes that the store has of it.
pub proof fn a_marked_object_waits_two_epochs(
    roots: Seq<Seq<u8>>,
    resident: Seq<RowModel>,
    digest: Seq<u8>,
    marked: i64,
    epoch: i64,
)
    requires
        0 <= marked < epoch,
    ensures
        ({
            let held = exists|i: int| 0 <= i < resident.len() && (#[trigger] resident[i]).0 == digest;
            match step_of(roots, resident, digest, marked, epoch) {
                QuarantineStep::Rescue => roots.contains(digest),
                QuarantineStep::Forget => !roots.contains(digest) && !held,
                QuarantineStep::Keep => !roots.contains(digest) && held && epoch == marked + 1,
                QuarantineStep::Delete { length } => !roots.contains(digest) && held && epoch
                    >= marked + 2 && exists|i: int|
                    0 <= i < resident.len() && #[trigger] resident[i] == (digest, length),
            }
        }),
{
    let named = row_digests(resident);
    if named.contains(digest) {
        let i = choose|i: int| 0 <= i < named.len() && named[i] == digest;
        assert(resident[i].0 == digest);
        length_is_held(resident, digest, i, resident.len() as int);
    }
    if exists|i: int| 0 <= i < resident.len() && (#[trigger] resident[i]).0 == digest {
        let i = choose|i: int| 0 <= i < resident.len() && (#[trigger] resident[i]).0 == digest;
        assert(named[i] == digest);
    }
}

proof fn length_is_held(resident: Seq<RowModel>, digest: Seq<u8>, i: int, upto: int)
    requires
        0 <= i < upto <= resident.len(),
        resident[i].0 == digest,
    ensures
        exists|k: int|
            0 <= k < resident.len() && #[trigger] resident[k] == (
                digest,
                super::collect::resident_length(resident, digest, upto),
            ),
    decreases upto,
{
    if resident[upto - 1].0 == digest {
        assert(resident[upto - 1] == (digest, resident[upto - 1].1));
    } else {
        length_is_held(resident, digest, i, upto - 1);
    }
}

} // verus!
