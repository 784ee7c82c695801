//! Committing a batch of mutations, and sealing a workspace as a snapshot.

use super::tree::{change_models, Change, ChangeModel, Kind, TreeRows, WorkspaceTree};
use super::{ErrorModel, Mutation, MutationModel, WorkspaceError};
use crate::digest_index::digests;
use crate::object::ObjectDigest;
use crate::planner::{
    plan, plan_of, region_sum, ByteSource, Plan, PlanError, PlanModel, PlannerId, Region,
};
use crate::sync::packs::{digests_of, row_digests};
use crate::sync::{data_rows, firsts, push_data_rows, rows, unique_rows, RowModel};
use crate::tfm1::builder::records_length;
use crate::tfm1::{
    entry_models, files_before, record_models, record_sum, record_sum_grows, run_error, run_length,
    validate_record_run, Entry, EntryModel, FileRecord, RecordModel, Snapshot, SnapshotId, SnapshotModel,
    Tfm1Error,
};
use crate::tfm1::decode::{decode, decoded, takes_memory};
use crate::tfm1::laws::{carrier_of, one_carrier, ordinals_resolve};
use crate::trusted::sha256;
use std::collections::HashMap;
use vstd::prelude::*;

verus! {

// ---------------------------------------------------------------------------
// Committing
// ---------------------------------------------------------------------------

/// The record run that a mutation gives a file, if it gives one.
pub open spec fn given_records(mutation: MutationModel) -> Option<Seq<RecordModel>> {
    match mutation {
        MutationModel::CreateFile { records, .. } => Some(records),
        MutationModel::SetRecords { records, .. } => Some(records),
        _ => None,
    }
}

/// The rule that a given record run breaks. Its size is the sum of its lengths.
pub open spec fn given_error(records: Seq<RecordModel>) -> Option<Tfm1Error> {
    if run_length(records) > u64::MAX {
        Some(Tfm1Error::LengthSumMismatch)
    } else {
        run_error(records, run_length(records) as u64)
    }
}

pub open spec fn mutation_models(list: Seq<Mutation>) -> Seq<MutationModel> {
    list.map_values(|mutation: Mutation| mutation@)
}

/// The first rule that a mutation at or behind `at` breaks.
pub open spec fn batch_error(batch: Seq<MutationModel>, at: int) -> Option<Tfm1Error>
    decreases batch.len() - at,
{
    if at >= batch.len() {
        None
    } else {
        match given_records(batch[at]) {
            Some(records) if given_error(records) is Some => given_error(records),
            _ => batch_error(batch, at + 1),
        }
    }
}

/// The data records that the first `upto` mutations give.
pub open spec fn batch_rows(batch: Seq<MutationModel>, upto: int) -> Seq<RowModel>
    decreases upto,
{
    if upto <= 0 {
        Seq::empty()
    } else {
        let before = batch_rows(batch, upto - 1);
        match given_records(batch[upto - 1]) {
            Some(records) => before + data_rows(records, records.len() as int),
            None => before,
        }
    }
}

/// The objects that a batch refers to, each once. Every record run of the batch
/// must be well formed. The objects have to be verified resident before the
/// batch is committed.
pub fn referenced_objects(batch: &[Mutation]) -> (outcome: Result<Vec<ObjectDigest>, WorkspaceError>)
    ensures
        ({
            let models = mutation_models(batch@);
            let all = batch_rows(models, models.len() as int);
            match outcome {
                Ok(list) => batch_error(models, 0) is None && digests(list@) == row_digests(
                    firsts(all, all.len() as int),
                ),
                Err(e) => {
                    &&& e@ matches ErrorModel::Tfm1(inner)
                    &&& batch_error(models, 0) == Some(inner)
                },
            }
        }),
{
    let ghost models = mutation_models(batch@);
    let mut list: Vec<(ObjectDigest, u64)> = Vec::new();
    let mut at: usize = 0;
    assert(rows(list@) =~= batch_rows(models, 0));
    while at < batch.len()
        invariant
            at <= batch@.len(),
            models == mutation_models(batch@),
            batch_error(models, 0) == batch_error(models, at as int),
            rows(list@) == batch_rows(models, at as int),
        decreases batch@.len() - at,
    {
        assert(models[at as int] == batch@[at as int]@);
        match &batch[at] {
            Mutation::CreateFile { records, .. } => {
                check_records(records)?;
                push_data_rows(&mut list, records);
            },
            Mutation::SetRecords { records, .. } => {
                check_records(records)?;
                push_data_rows(&mut list, records);
            },
            _ => {},
        }
        at += 1;
    }
    assert(rows(list@).len() == list@.len());
    let unique = unique_rows(&list);
    Ok(digests_of(&unique))
}

fn check_records(records: &Vec<FileRecord>) -> (outcome: Result<(), WorkspaceError>)
    ensures
        match outcome {
            Ok(_) => given_error(record_models(records@)) is None,
            Err(e) => {
                &&& e@ matches ErrorModel::Tfm1(inner)
                &&& given_error(record_models(records@)) == Some(inner)
            },
        },
{
    match records_length(records) {
        Err(e) => Err(WorkspaceError::Tfm1(e)),
        Ok(size) => match validate_record_run(records, size) {
            Err(e) => Err(WorkspaceError::Tfm1(e)),
            Ok(_) => Ok(()),
        },
    }
}

// ---------------------------------------------------------------------------
// A workspace out of a snapshot
// ---------------------------------------------------------------------------

/// The mutation that makes the `i`th entry of a snapshot.
pub open spec fn mutation_of(entries: Seq<(Seq<char>, EntryModel)>, i: int) -> MutationModel {
    let path = entries[i].0;
    match entries[i].1 {
        EntryModel::Directory => MutationModel::Mkdir { path },
        EntryModel::File { executable, body } => MutationModel::CreateFile {
            path,
            executable,
            planner: body.planner(),
            records: body.run(),
        },
        EntryModel::Symlink { target } => MutationModel::Symlink { path, target },
        EntryModel::Hardlink { ordinal } => MutationModel::Hardlink {
            path,
            target: entries[carrier_of(entries, ordinal)].0,
        },
    }
}

/// The mutations that make a snapshot's tree in an empty workspace.
pub fn clone_mutations(snapshot: &Snapshot) -> (batch: Vec<Mutation>)
    requires
        ordinals_resolve(snapshot@.entries),
    ensures
        mutation_models(batch@) == Seq::new(
            snapshot@.entries.len(),
            |i: int| mutation_of(snapshot@.entries, i),
        ),
{
    let entries = snapshot.entries();
    let ghost models = snapshot@.entries;
    let mut batch: Vec<Mutation> = Vec::new();
    let mut at: usize = 0;
    while at < entries.len()
        invariant
            at <= entries@.len(),
            models == entry_models(entries@),
            models == snapshot@.entries,
            ordinals_resolve(models),
            batch@.len() == at,
            forall|i: int| 0 <= i < at ==> (#[trigger] batch@[i])@ == mutation_of(models, i),
        decreases entries@.len() - at,
    {
        assert(models[at as int] == (entries@[at as int].0@, entries@[at as int].1@));
        let path = entries[at].0.clone();
        let mutation = match &entries[at].1 {
            Entry::Directory => Mutation::Mkdir { path },
            Entry::File { executable, body } => Mutation::CreateFile {
                path,
                executable: *executable,
                planner: body.planner_id(),
                records: body.records(),
            },
            Entry::Symlink { target } => Mutation::Symlink { path, target: target.clone() },
            Entry::Hardlink { ordinal } => {
                match snapshot.ordinal_path(*ordinal) {
                    Some(target) => {
                        proof {
                            let i = choose|i: int|
                                0 <= i < models.len() && (#[trigger] models[i]).1 is File && files_before(
                                    models,
                                    i,
                                ) == ordinal && target@ == models[i].0;
                            one_carrier(models, *ordinal, i);
                        }
                        Mutation::Hardlink { path, target: target.to_string() }
                    },
                    None => {
                        assert(false);
                        Mutation::Mkdir { path }
                    },
                }
            },
        };
        batch.push(mutation);
        at += 1;
    }
    assert(mutation_models(batch@) =~= Seq::new(models.len(), |i: int| mutation_of(models, i)));
    batch
}

/// Reads a manifest that is stored under a snapshot's identity. Bytes that do
/// not hash to it are corrupt.
pub fn read_manifest(id: &SnapshotId, bytes: &[u8]) -> (outcome: Result<Snapshot, WorkspaceError>)
    ensures
        if sha256(bytes@) != id@ {
            outcome is Err && outcome->Err_0@ == ErrorModel::SnapshotCorrupt
        } else {
            match outcome {
                Ok(snapshot) => decoded(bytes@) == Ok::<SnapshotModel, Tfm1Error>(snapshot@),
                Err(e) => {
                    &&& e@ matches ErrorModel::Tfm1(inner)
                    &&& (inner == Tfm1Error::ResourceExhausted && takes_memory(bytes@)) || decoded(bytes@)
                        == Err::<SnapshotModel, Tfm1Error>(inner)
                },
            }
        },
{
    let hashed = SnapshotId::of(bytes);
    if !crate::text::same_bytes(hashed.as_bytes(), id.as_bytes()) {
        return Err(WorkspaceError::SnapshotCorrupt);
    }
    match decode(bytes) {
        Ok(snapshot) => Ok(snapshot),
        Err(e) => Err(WorkspaceError::Tfm1(e)),
    }
}

// ---------------------------------------------------------------------------
// What sealing does to one file
// ---------------------------------------------------------------------------

/// What sealing does to one file.
#[derive(Debug, PartialEq, Eq)]
pub enum SealWork {
    /// The committed records are canonical.
    Keep,
    /// The whole file becomes one object.
    Blob,
    /// The records stay, and were made by this planner.
    Relabel { planner: PlannerId },
    /// The records become these regions. The pending ones have to be admitted;
    /// the others are committed already.
    Reslice { planner: PlannerId, regions: Vec<Region>, pending: Vec<usize> },
}

/// The value of a [`SealWork`].
#[verifier::ext_equal]
pub enum SealModel {
    Keep,
    Blob,
    Relabel { planner: PlannerId },
    Reslice { planner: PlannerId, regions: Seq<Region>, pending: Seq<usize> },
}

impl View for SealWork {
    type V = SealModel;

    open spec fn view(&self) -> SealModel {
        match self {
            SealWork::Keep => SealModel::Keep,
            SealWork::Blob => SealModel::Blob,
            SealWork::Relabel { planner } => SealModel::Relabel { planner: *planner },
            SealWork::Reslice { planner, regions, pending } => SealModel::Reslice {
                planner: *planner,
                regions: regions@,
                pending: pending@,
            },
        }
    }
}

pub open spec fn has_holes(records: Seq<RecordModel>) -> bool {
    exists|i: int| 0 <= i < records.len() && (#[trigger] records[i]) is Hole
}

/// Whether record `i` is exactly the bytes of a region.
pub open spec fn is_at(records: Seq<RecordModel>, i: int, region: Region) -> bool {
    record_sum(records, i) == region.offset && records[i].length() == region.length
}

/// The last record among the first `upto` that is exactly the bytes of a
/// region; none where it is negative.
pub open spec fn committed_at(records: Seq<RecordModel>, region: Region, upto: int) -> int
    decreases upto,
{
    if upto <= 0 {
        -1
    } else if is_at(records, upto - 1, region) {
        upto - 1
    } else {
        committed_at(records, region, upto - 1)
    }
}

/// The record that is exactly the bytes of a region; none where it is negative.
pub open spec fn committed(records: Seq<RecordModel>, region: Region) -> int {
    committed_at(records, region, records.len() as int)
}

/// The records are exactly the regions.
pub open spec fn same_boundaries(records: Seq<RecordModel>, regions: Seq<Region>) -> bool {
    records.len() == regions.len() && forall|i: int|
        0 <= i < regions.len() ==> is_at(records, i, #[trigger] regions[i])
}

/// The regions among the first `upto` that no record is.
pub open spec fn pending_slots(records: Seq<RecordModel>, regions: Seq<Region>, upto: int) -> Seq<usize>
    decreases upto,
{
    if upto <= 0 {
        Seq::empty()
    } else if committed(records, regions[upto - 1]) < 0 {
        pending_slots(records, regions, upto - 1).push((upto - 1) as usize)
    } else {
        pending_slots(records, regions, upto - 1)
    }
}

/// What sealing does to a file whose committed records are `records`, made by
/// the planner `stored`, and whose bytes are planned as `planned`.
///
/// A sparse tensor container keeps its records; any other sparse file becomes
/// one object, its holes filled. A file that is no tensor container stays if it
/// is one object already, and else becomes one. A tensor container gets the
/// boundaries that its planner sees.
pub open spec fn seal_of(stored: PlannerId, records: Seq<RecordModel>, planned: PlanModel) -> SealModel {
    if records.len() == 0 {
        SealModel::Keep
    } else if has_holes(records) {
        if stored.format() is Some {
            SealModel::Keep
        } else {
            SealModel::Blob
        }
    } else if planned.planner == PlannerId::BlobV1 {
        if records.len() != 1 {
            SealModel::Blob
        } else if stored == PlannerId::BlobV1 {
            SealModel::Keep
        } else {
            SealModel::Relabel { planner: PlannerId::BlobV1 }
        }
    } else if same_boundaries(records, planned.regions) {
        if planned.planner == stored {
            SealModel::Keep
        } else {
            SealModel::Relabel { planner: planned.planner }
        }
    } else {
        SealModel::Reslice {
            planner: planned.planner,
            regions: planned.regions,
            pending: pending_slots(records, planned.regions, planned.regions.len() as int),
        }
    }
}

/// Where the records of a run start.
struct Starts {
    starts: Vec<u64>,
    last: HashMap<u64, usize>,
}

impl Starts {
    spec fn of(&self, records: Seq<RecordModel>) -> bool {
        &&& self.starts@.len() == records.len()
        &&& forall|i: int| 0 <= i < records.len() ==> #[trigger] self.starts@[i] == record_sum(records, i)
        &&& forall|start: u64| #[trigger]
            self.last@.dom().contains(start) ==> self.last@[start] < records.len()
                && self.starts@[self.last@[start] as int] == start
        &&& forall|i: int|
            0 <= i < records.len() ==> self.last@.dom().contains(#[trigger] self.starts@[i])
                && i <= self.last@[self.starts@[i]]
    }

    fn new(records: &[FileRecord]) -> (found: Starts)
        requires
            run_length(record_models(records@)) <= u64::MAX,
        ensures
            found.of(record_models(records@)),
    {
        broadcast use vstd::std_specs::hash::group_hash_axioms;

        let ghost models = record_models(records@);
        let mut starts: Vec<u64> = Vec::new();
        let mut last: HashMap<u64, usize> = HashMap::new();
        let mut position: u64 = 0;
        let mut at: usize = 0;
        while at < records.len()
            invariant
                at <= records@.len(),
                models == record_models(records@),
                run_length(models) <= u64::MAX,
                position == record_sum(models, at as int),
                starts@.len() == at,
                forall|i: int| 0 <= i < at ==> #[trigger] starts@[i] == record_sum(models, i),
                forall|start: u64| #[trigger]
                    last@.dom().contains(start) ==> last@[start] < at && starts@[last@[start] as int]
                        == start,
                forall|i: int|
                    0 <= i < at ==> last@.dom().contains(#[trigger] starts@[i]) && i
                        <= last@[starts@[i]],
            decreases records@.len() - at,
        {
            let ghost before = starts@;
            let ghost map = last@;
            proof {
                record_sum_grows(models, at + 1, models.len() as int);
                assert(models[at as int] == records@[at as int]@);
            }
            starts.push(position);
            last.insert(position, at);
            proof {
                assert forall|i: int| 0 <= i < at + 1 implies last@.dom().contains(#[trigger] starts@[i])
                    && i <= last@[starts@[i]] by {
                    if i < at {
                        assert(starts@[i] == before[i]);
                        assert(map.dom().contains(before[i]));
                    }
                }
                assert forall|start: u64| #[trigger] last@.dom().contains(start) implies last@[start] < at
                    + 1 && starts@[last@[start] as int] == start by {
                    if start != position {
                        assert(map.dom().contains(start));
                        assert(before[map[start] as int] == start);
                    }
                }
            }
            position = position + records[at].length();
            at += 1;
        }
        Starts { starts, last }
    }

    /// The record that is exactly the bytes of a region.
    fn find(&self, records: &[FileRecord], region: &Region) -> (found: Option<usize>)
        requires
            self.of(record_models(records@)),
        ensures
            match found {
                Some(i) => i == committed(record_models(records@), *region) && i < records@.len(),
                None => committed(record_models(records@), *region) < 0,
            },
    {
        broadcast use vstd::std_specs::hash::group_hash_axioms;

        let ghost models = record_models(records@);
        let offset = region.offset();
        let length = region.length();
        match self.last.get(&offset) {
            None => {
                proof {
                    assert forall|i: int| 0 <= i < models.len() implies !is_at(models, i, *region) by {
                        let start = self.starts@[i];
                    }
                    none_committed(models, *region, models.len() as int);
                }
                None
            },
            Some(place) => {
                let top: usize = *place;
                let count: usize = records.len();
                let mut at: usize = top + 1;
                proof {
                    assert forall|i: int| at <= i < models.len() implies !is_at(models, i, *region) by {
                        let start = self.starts@[i];
                    }
                    committed_skips(models, *region, at as int, models.len() as int);
                }
                while at > 0 && self.starts[at - 1] == offset
                    invariant
                        at <= top + 1 <= models.len(),
                        models == record_models(records@),
                        self.of(models),
                        self.starts@[top as int] == offset,
                        offset == region.offset,
                        length == region.length,
                        committed(models, *region) == committed_at(models, *region, at as int),
                    decreases at,
                {
                    assert(models[at - 1] == records@[at - 1]@);
                    assert(self.starts@[at - 1] == record_sum(models, at - 1));
                    if records[at - 1].length() == length {
                        return Some(at - 1);
                    }
                    at -= 1;
                }
                proof {
                    assert forall|i: int| 0 <= i < at implies !is_at(models, i, *region) by {
                        let start = self.starts@[i];
                        record_sum_grows(models, i, at - 1);
                        let below = self.starts@[at - 1];
                        if is_at(models, i, *region) {
                            record_sum_grows(models, at - 1, top as int);
                            let above = self.starts@[top as int];
                        }
                    }
                    none_committed(models, *region, at as int);
                }
                None
            },
        }
    }
}

proof fn none_committed(records: Seq<RecordModel>, region: Region, upto: int)
    requires
        forall|i: int| 0 <= i < upto ==> !is_at(records, i, region),
    ensures
        committed_at(records, region, upto) < 0,
    decreases upto,
{
    if upto > 0 {
        none_committed(records, region, upto - 1);
    }
}

proof fn committed_skips(records: Seq<RecordModel>, region: Region, low: int, high: int)
    requires
        0 <= low <= high,
        forall|i: int| low <= i < high ==> !is_at(records, i, region),
    ensures
        committed_at(records, region, high) == committed_at(records, region, low),
    decreases high - low,
{
    if low < high {
        committed_skips(records, region, low, high - 1);
    }
}

fn any_hole(records: &[FileRecord]) -> (found: bool)
    ensures
        found == has_holes(record_models(records@)),
{
    let ghost models = record_models(records@);
    let mut at: usize = 0;
    while at < records.len()
        invariant
            at <= records@.len(),
            models == record_models(records@),
            forall|i: int| 0 <= i < at ==> !((#[trigger] models[i]) is Hole),
        decreases records@.len() - at,
    {
        assert(models[at as int] == records@[at as int]@);
        if let FileRecord::Hole { .. } = records[at] {
            return true;
        }
        at += 1;
    }
    false
}

fn boundaries_match(starts: &Starts, records: &[FileRecord], regions: &[Region]) -> (same: bool)
    requires
        starts.of(record_models(records@)),
    ensures
        same == same_boundaries(record_models(records@), regions@),
{
    let ghost models = record_models(records@);
    if records.len() != regions.len() {
        return false;
    }
    let mut at: usize = 0;
    while at < regions.len()
        invariant
            at <= regions@.len(),
            models == record_models(records@),
            starts.of(models),
            records@.len() == regions@.len(),
            forall|i: int| 0 <= i < at ==> is_at(models, i, #[trigger] regions@[i]),
        decreases regions@.len() - at,
    {
        assert(models[at as int] == records@[at as int]@);
        assert(starts.starts@[at as int] == record_sum(models, at as int));
        if starts.starts[at] != regions[at].offset() || records[at].length() != regions[at].length() {
            assert(!is_at(models, at as int, regions@[at as int]));
            return false;
        }
        at += 1;
    }
    true
}

/// The regions that no record is.
fn find_pending(starts: &Starts, records: &[FileRecord], regions: &[Region]) -> (pending: Vec<usize>)
    requires
        starts.of(record_models(records@)),
    ensures
        pending@ == pending_slots(record_models(records@), regions@, regions@.len() as int),
{
    let ghost models = record_models(records@);
    let mut pending: Vec<usize> = Vec::new();
    let mut slot: usize = 0;
    while slot < regions.len()
        invariant
            slot <= regions@.len(),
            models == record_models(records@),
            starts.of(models),
            pending@ == pending_slots(models, regions@, slot as int),
        decreases regions@.len() - slot,
    {
        match starts.find(records, &regions[slot]) {
            None => {
                pending.push(slot);
            },
            Some(_) => {},
        }
        slot += 1;
    }
    pending
}

/// What sealing does to a file without holes, under its plan.
pub fn seal_planned(stored: PlannerId, records: &[FileRecord], planned: &Plan) -> (work: SealWork)
    requires
        run_length(record_models(records@)) <= u64::MAX,
        records@.len() > 0,
        !has_holes(record_models(records@)),
    ensures
        work@ == seal_of(stored, record_models(records@), planned@),
{
    if planned.planner() == PlannerId::BlobV1 {
        if records.len() != 1 {
            return SealWork::Blob;
        }
        if stored == PlannerId::BlobV1 {
            return SealWork::Keep;
        }
        return SealWork::Relabel { planner: PlannerId::BlobV1 };
    }
    let starts = Starts::new(records);
    let regions = planned.regions();
    if boundaries_match(&starts, records, regions) {
        if planned.planner() == stored {
            return SealWork::Keep;
        }
        return SealWork::Relabel { planner: planned.planner() };
    }
    let pending = find_pending(&starts, records, regions);
    SealWork::Reslice {
        planner: planned.planner(),
        regions: vstd::slice::slice_to_vec(regions),
        pending,
    }
}

/// Decides what sealing does to one file. The file's bytes are planned only
/// where the decision needs it.
pub fn plan_seal_job<S: ByteSource + ?Sized>(source: &S, stored: PlannerId, records: &[FileRecord]) -> (outcome:
    Result<SealWork, PlanError>)
    requires
        run_length(record_models(records@)) <= u64::MAX,
    ensures
        match outcome {
            Ok(work) => source.steady() || records@.len() == 0 || has_holes(
                record_models(records@),
            ) ==> work@ == seal_of(
                stored,
                record_models(records@),
                plan_of(source.content(), None),
            ),
            Err(PlanError::Read(_)) => !source.reliable(),
            Err(PlanError::SourceChanged(_)) => !source.reliable(),
            Err(PlanError::ResourceExhausted) => source.steady() ==> crate::planner::takes_memory(
                source.content(),
            ),
            Err(_) => false,
        },
        records@.len() == 0 || has_holes(record_models(records@)) ==> outcome is Ok,
{
    if records.len() == 0 {
        return Ok(SealWork::Keep);
    }
    if any_hole(records) {
        if stored.tensor_format().is_some() {
            return Ok(SealWork::Keep);
        }
        return Ok(SealWork::Blob);
    }
    match plan(source) {
        Ok(planned) => Ok(seal_planned(stored, records, &planned)),
        Err(e) => Err(e),
    }
}

// ---------------------------------------------------------------------------
// What one file's sealing leaves
// ---------------------------------------------------------------------------

/// One file's sealing: its canonical records, the planner that made them, and
/// the objects admitted for them.
#[derive(Debug, PartialEq, Eq)]
pub struct SealJob {
    pub path: String,
    pub planner: PlannerId,
    pub records: Vec<FileRecord>,
    pub update_records: bool,
    pub new_digests: Vec<ObjectDigest>,
}

/// The records stay; only the planner is noted.
pub fn relabel_job(path: &str, planner: PlannerId, records: &[FileRecord]) -> (job: SealJob)
    ensures
        job.path@ == path@,
        job.planner == planner,
        record_models(job.records@) == record_models(records@),
        !job.update_records,
        job.new_digests@.len() == 0,
{
    SealJob {
        path: path.to_string(),
        planner,
        records: vstd::slice::slice_to_vec(records),
        update_records: false,
        new_digests: Vec::new(),
    }
}

/// The file becomes the one object that was admitted for it.
pub fn blob_seal_job(path: &str, digest: ObjectDigest, length: u64) -> (job: SealJob)
    ensures
        job.path@ == path@,
        job.planner == PlannerId::BlobV1,
        record_models(job.records@) == seq![RecordModel::Data { digest: digest@, length }],
        job.update_records,
        digests(job.new_digests@) == seq![digest@],
{
    let mut records: Vec<FileRecord> = Vec::new();
    records.push(FileRecord::Data { digest, length });
    let mut new_digests: Vec<ObjectDigest> = Vec::new();
    new_digests.push(digest);
    assert(record_models(records@) =~= seq![RecordModel::Data { digest: digest@, length }]);
    assert(digests(new_digests@) =~= seq![digest@]);
    SealJob {
        path: path.to_string(),
        planner: PlannerId::BlobV1,
        records,
        update_records: true,
        new_digests,
    }
}

/// How many of the first `upto` regions are pending.
pub open spec fn pending_before(records: Seq<RecordModel>, regions: Seq<Region>, upto: int) -> nat {
    pending_slots(records, regions, upto).len()
}

/// The record of region `slot`: the committed record that is exactly its bytes,
/// or the object that was admitted for it.
pub open spec fn resliced(
    records: Seq<RecordModel>,
    regions: Seq<Region>,
    admitted: Seq<Seq<u8>>,
    slot: int,
) -> RecordModel {
    let place = committed(records, regions[slot]);
    RecordModel::Data {
        digest: if place >= 0 {
            records[place]->Data_digest
        } else {
            admitted[pending_before(records, regions, slot) as int]
        },
        length: regions[slot].length,
    }
}

/// The file gets the boundaries of its regions. `admitted` holds the objects
/// that were admitted for the pending regions, in order.
pub fn reslice_job(
    path: &str,
    planner: PlannerId,
    records: &[FileRecord],
    regions: &[Region],
    admitted: &[ObjectDigest],
) -> (job: SealJob)
    requires
        run_length(record_models(records@)) <= u64::MAX,
        !has_holes(record_models(records@)),
        admitted@.len() == pending_before(record_models(records@), regions@, regions@.len() as int),
    ensures
        job.path@ == path@,
        job.planner == planner,
        record_models(job.records@) == Seq::new(
            regions@.len(),
            |slot: int| resliced(record_models(records@), regions@, digests(admitted@), slot),
        ),
        job.update_records,
        digests(job.new_digests@) == digests(admitted@),
{
    let ghost models = record_models(records@);
    let ghost names = digests(admitted@);
    let starts = Starts::new(records);
    let mut fresh: Vec<FileRecord> = Vec::new();
    let mut used: usize = 0;
    let mut slot: usize = 0;
    while slot < regions.len()
        invariant
            slot <= regions@.len(),
            models == record_models(records@),
            names == digests(admitted@),
            !has_holes(models),
            starts.of(models),
            used == pending_before(models, regions@, slot as int),
            admitted@.len() == pending_before(models, regions@, regions@.len() as int),
            fresh@.len() == slot,
            forall|i: int|
                0 <= i < slot ==> (#[trigger] fresh@[i])@ == resliced(models, regions@, names, i),
        decreases regions@.len() - slot,
    {
        let length = regions[slot].length();
        match starts.find(records, &regions[slot]) {
            Some(place) => {
                assert(models[place as int] == records@[place as int]@);
                match records[place] {
                    FileRecord::Data { digest, .. } => {
                        fresh.push(FileRecord::Data { digest, length });
                    },
                    FileRecord::Hole { .. } => {
                        assert(models[place as int] is Hole);
                        fresh.push(FileRecord::Hole { length });
                    },
                }
            },
            None => {
                proof {
                    pending_grow(models, regions@, slot + 1, regions@.len() as int);
                    assert(names[used as int] == admitted@[used as int]@);
                }
                fresh.push(FileRecord::Data { digest: admitted[used], length });
                used += 1;
            },
        }
        slot += 1;
    }
    assert(record_models(fresh@) =~= Seq::new(
        regions@.len(),
        |slot: int| resliced(models, regions@, names, slot),
    ));
    SealJob {
        path: path.to_string(),
        planner,
        records: fresh,
        update_records: true,
        new_digests: vstd::slice::slice_to_vec(admitted),
    }
}

proof fn pending_grow(records: Seq<RecordModel>, regions: Seq<Region>, low: int, high: int)
    requires
        0 <= low <= high,
    ensures
        pending_before(records, regions, low) <= pending_before(records, regions, high),
    decreases high - low,
{
    if low < high {
        pending_grow(records, regions, low, high - 1);
    }
}

proof fn sum_of_regions(records: Seq<RecordModel>, regions: Seq<Region>, upto: int)
    requires
        records.len() == regions.len(),
        0 <= upto <= regions.len(),
        forall|i: int| 0 <= i < regions.len() ==> (#[trigger] records[i]).length() == regions[i].length,
    ensures
        record_sum(records, upto) == region_sum(regions, upto),
    decreases upto,
{
    if upto > 0 {
        sum_of_regions(records, regions, upto - 1);
    }
}

/// A file that is given the boundaries of its plan keeps its length, and
/// sealing it once more changes nothing.
pub proof fn a_resliced_file_is_settled(
    records: Seq<RecordModel>,
    planned: PlanModel,
    admitted: Seq<Seq<u8>>,
)
    requires
        planned.covered(),
        planned.planner != PlannerId::BlobV1,
    ensures
        ({
            let fresh = Seq::new(
                planned.regions.len(),
                |slot: int| resliced(records, planned.regions, admitted, slot),
            );
            &&& run_length(fresh) == planned.file_size
            &&& seal_of(planned.planner, fresh, planned) == SealModel::Keep
        }),
{
    let regions = planned.regions;
    let fresh = Seq::new(regions.len(), |slot: int| resliced(records, regions, admitted, slot));
    sum_of_regions(fresh, regions, regions.len() as int);
    assert forall|i: int| 0 <= i < regions.len() implies is_at(fresh, i, #[trigger] regions[i]) by {
        sum_of_regions(fresh, regions, i);
    }
    assert(same_boundaries(fresh, regions));
    assert(!has_holes(fresh));
}

// ---------------------------------------------------------------------------
// The transaction
// ---------------------------------------------------------------------------

/// What sealing one file changes: its records, where they change, and its
/// planner.
pub open spec fn decided_job(
    tree: TreeRows,
    path: Seq<char>,
    planner: PlannerId,
    records: Option<Seq<RecordModel>>,
) -> Result<Seq<ChangeModel>, ErrorModel> {
    match records {
        Some(run) => match tree.file_at(path) {
            Err(error) => Err(error),
            Ok(inode) => Ok(
                seq![
                    ChangeModel::SetRecords { inode, records: run },
                    ChangeModel::SetPlanner { inode, planner },
                ],
            ),
        },
        None => match tree.existing(path) {
            Err(error) => Err(error),
            Ok((inode, _)) => Ok(seq![ChangeModel::SetPlanner { inode, planner }]),
        },
    }
}

/// Decides the changes of one file's sealing.
pub fn decide_job(tree: &WorkspaceTree, job: &SealJob) -> (outcome: Result<Vec<Change>, WorkspaceError>)
    ensures
        ({
            let records = if job.update_records {
                Some(record_models(job.records@))
            } else {
                None
            };
            match outcome {
                Ok(changes) => decided_job(tree@, job.path@, job.planner, records) == Ok::<
                    Seq<ChangeModel>,
                    ErrorModel,
                >(change_models(changes@)),
                Err(e) => decided_job(tree@, job.path@, job.planner, records) == Err::<
                    Seq<ChangeModel>,
                    ErrorModel,
                >(e@),
            }
        }),
{
    let found = tree.existing(job.path.as_str())?;
    let mut changes: Vec<Change> = Vec::new();
    if job.update_records {
        if found.1 != Kind::File {
            return Err(WorkspaceError::NotAFile(job.path.clone()));
        }
        changes.push(
            Change::SetRecords { inode: found.0, records: vstd::slice::slice_to_vec(&job.records) },
        );
        changes.push(Change::SetPlanner { inode: found.0, planner: job.planner });
        assert(change_models(changes@) =~= seq![
            ChangeModel::SetRecords { inode: found.0, records: record_models(job.records@) },
            ChangeModel::SetPlanner { inode: found.0, planner: job.planner },
        ]);
    } else {
        changes.push(Change::SetPlanner { inode: found.0, planner: job.planner });
        assert(change_models(changes@) =~= seq![
            ChangeModel::SetPlanner { inode: found.0, planner: job.planner },
        ]);
    }
    Ok(changes)
}

/// How often sealing starts over where the workspace changes under it.
pub const SEAL_ATTEMPTS: u32 = 3;

/// Whether sealing goes on to its transaction: the head must not have moved
/// since the tree was captured. Where it has, sealing starts over, or gives up
/// after the last attempt.
pub fn seal_turn(attempt: u32, captured: u64, head: u64) -> (outcome: Result<bool, WorkspaceError>)
    requires
        attempt < SEAL_ATTEMPTS,
    ensures
        if head == captured {
            outcome == Ok::<bool, WorkspaceError>(true)
        } else if attempt + 1 < SEAL_ATTEMPTS {
            outcome == Ok::<bool, WorkspaceError>(false)
        } else {
            outcome is Err && outcome->Err_0@ == ErrorModel::SealContention
        },
{
    if head == captured {
        Ok(true)
    } else if attempt + 1 < SEAL_ATTEMPTS {
        Ok(false)
    } else {
        Err(WorkspaceError::SealContention)
    }
}

/// The generation that a seal leaves: the head's where no file changed, else
/// the next.
pub fn sealed_generation(head: u64, jobs: usize) -> (generation: u64)
    requires
        head < u64::MAX,
    ensures
        generation == head + if jobs == 0 {
            0int
        } else {
            1int
        },
{
    if jobs == 0 {
        head
    } else {
        head + 1
    }
}

} // verus!
