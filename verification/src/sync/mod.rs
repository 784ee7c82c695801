//! Snapshot sync: which objects a push or a pull moves, in which order, and
//! when it gives up.
//!
//! A push declares a manifest and is answered with what the remote is still
//! missing. Objects that a pack can carry travel in packs; larger ones travel
//! as blobs, in parts. Every budget counts attempts that achieved nothing, so
//! work that keeps advancing is never abandoned for taking long.
//!
//! Nothing here touches a socket or a disk. The drivers of a transfer perform
//! what the lanes ask for, and hand back what came of it.


pub mod answers;
pub mod blobs;
pub mod http;
pub mod laws;
pub mod packs;
pub mod pull;
pub mod push;
pub mod steps;

use crate::object::ObjectDigest;
use crate::sort::{sort_positions, sorted_range, sorts_before};
use crate::text::{bytes_less_irreflexive, bytes_less_total, same_bytes};
use crate::tfm1::{entry_models, record_models, Entry, EntryModel, FileRecord, RecordModel, Snapshot, SnapshotId, Tfm1Error};
use crate::tfp1::{Tfp1Error, MAX_PACK_PAYLOAD};
use vstd::prelude::*;

verus! {

/// How many objects one request for download grants may name.
pub const DOWNLOAD_GRANT_BATCH: usize = 256;

/// How many blobs one request for blob grants may name.
pub const BLOB_GRANT_BATCH: usize = 16;

/// How often one object is fetched before its download is given up.
pub const DOWNLOAD_ATTEMPTS: u32 = 4;

// ---------------------------------------------------------------------------
// What a remote says
// ---------------------------------------------------------------------------

/// One observation that a transfer advanced.
#[derive(Clone, Copy, Debug, PartialEq, Eq)]
pub enum Progress {
    /// Bytes that moved since the previous observation.
    Bytes(u64),
    /// One object is accounted for: moved, or already on the far side.
    Object { digest: ObjectDigest, length: u64 },
}

impl Progress {
    /// The observation that bytes moved; none where no byte did.
    pub fn of_bytes(moved: u64) -> (seen: Option<Progress>)
        ensures
            seen == if moved > 0 {
                Some(Progress::Bytes(moved))
            } else {
                None
            },
    {
        if moved > 0 {
            Some(Progress::Bytes(moved))
        } else {
            None
        }
    }
}

/// One authorization to send one exact pack. Its headers are replayed as they
/// are.
#[derive(Clone, Debug, PartialEq, Eq)]
pub struct PackGrant {
    pub pack_sha256: String,
    pub staging_key: String,
    pub url: String,
    pub headers: Vec<(String, String)>,
}

/// One authorization to fetch one exact object.
#[derive(Clone, Debug, PartialEq, Eq)]
pub struct DownloadGrant {
    pub digest: ObjectDigest,
    pub length: u64,
    pub url: String,
}

/// One authorization to send one exact part of one blob.
#[derive(Clone, Debug, PartialEq, Eq)]
pub struct BlobPart {
    pub part_number: u32,
    pub size_bytes: u64,
    pub url: String,
    pub headers: Vec<(String, String)>,
}

/// One blob's upload: its parts, and the ones that the remote already holds.
#[derive(Clone, Debug, PartialEq, Eq)]
pub struct BlobGrant {
    pub digest: ObjectDigest,
    pub length: u64,
    pub staging_key: String,
    pub upload_id: String,
    pub part_size: u64,
    pub parts: Vec<BlobPart>,
    pub uploaded_parts: Vec<u32>,
}

/// One part that landed, under the name that the store gave it.
#[derive(Clone, Debug, PartialEq, Eq)]
pub struct BlobPartReport {
    pub part_number: u32,
    pub etag: String,
}

/// One pack that the session granted before.
#[derive(Clone, Debug, PartialEq, Eq)]
pub struct StagedPack {
    pub sha256: String,
    pub staged: bool,
}

/// What a client claims of one assembled pack.
#[derive(Clone, Debug, PartialEq, Eq)]
pub struct PackClaim {
    pub sha256: String,
    pub size_bytes: u64,
    pub objects: Vec<ObjectDigest>,
}

/// The remote's answer to a declaration.
#[derive(Clone, Debug, PartialEq, Eq)]
pub struct SyncPlan {
    pub snapshot_id: SnapshotId,
    pub session: String,
    pub have: Vec<ObjectDigest>,
    pub staged_packs: Vec<StagedPack>,
    /// The missing objects that a pack can carry.
    pub missing: Vec<(ObjectDigest, u64)>,
    /// The missing objects that are too large for a pack.
    pub missing_blobs: Vec<(ObjectDigest, u64)>,
    pub max_pack_payload: u64,
    pub max_packs_per_request: usize,
}

/// The remote's answer to a request for pack grants.
#[derive(Clone, Debug)]
pub struct GrantsPlan {
    pub grants: Vec<PackGrant>,
    pub staged_packs: Vec<StagedPack>,
    pub missing: Vec<(ObjectDigest, u64)>,
    pub missing_blobs: Vec<(ObjectDigest, u64)>,
}

/// The answer to one call to complete a push.
#[derive(Clone, Debug, PartialEq, Eq)]
pub enum CompleteStatus {
    Promoted,
    /// Call again. `promoted` is how many objects the remote has admitted.
    Incomplete { code: String, promoted: u64, total: u64 },
    /// The same bytes cannot succeed.
    Failed { code: String },
}

/// Why a call to the remote failed.
#[derive(Clone, Debug, PartialEq, Eq)]
pub enum TransportError {
    /// An authorization ran out: the caller plans again.
    Expired(String),
    /// The remote refused: the same input fails again.
    Refused { code: String, detail: String },
    /// The carrier failed: worth a bounded number of further attempts.
    Io(String),
}

/// The lane that an object travels in.
#[derive(Clone, Copy, Debug, PartialEq, Eq, Structural)]
pub enum Lane {
    Pack,
    Blob,
}

impl Lane {
    /// The lane's name.
    pub open spec fn name(self) -> Seq<char> {
        match self {
            Lane::Pack => "pack"@,
            Lane::Blob => "blob"@,
        }
    }

    pub fn as_str(&self) -> (name: &'static str)
        ensures
            name@ == self.name(),
    {
        match self {
            Lane::Pack => "pack",
            Lane::Blob => "blob",
        }
    }
}

/// Why a transfer failed.
#[derive(Clone, Debug, PartialEq, Eq)]
pub enum SyncError {
    Transport(TransportError),
    Pack(Tfp1Error),
    Manifest(Tfm1Error),
    IdentityMismatch { local: SnapshotId, remote: SnapshotId },
    HeadRefused { code: String },
    RemoteManifestCorrupt(SnapshotId),
    NoRemoteHead,
    LocalObjectLength { digest: ObjectDigest, expected: u64, actual: u64 },
    GrantOmitted(ObjectDigest),
    MissingNotCanonical { digest: ObjectDigest },
    MissingLength { digest: ObjectDigest, expected: u64, actual: u64 },
    PackGrantOmitted(String),
    ReplansStalled { rounds: u32, owed: usize },
    CompletionStalled { stalls: u32, promoted: u64, last: String },
    BlobGrantOmitted(ObjectDigest),
    BlobLaneMismatch { digest: ObjectDigest, length: u64, limit: u64, lane: Lane },
    BlobPartCoverage { digest: ObjectDigest, length: u64, granted: u64 },
    BlobPartAttemptsExhausted { digest: ObjectDigest, attempts: u32 },
    BlobNotAccepted(ObjectDigest),
}

/// The bounds of a push. Each counts attempts that achieved nothing.
#[derive(Clone, Copy, Debug, PartialEq, Eq, Structural)]
pub struct PushOptions {
    /// Rounds in a row that moved nothing.
    pub max_stalled_replans: u32,
    /// Attempts to send one pack, or one part of a blob.
    pub max_upload_attempts: u32,
    /// Calls to complete in a row that admitted nothing.
    pub max_completion_stalls: u32,
}

impl Default for PushOptions {
    fn default() -> (options: Self)
        ensures
            options.max_stalled_replans == 16,
            options.max_upload_attempts == 8,
            options.max_completion_stalls == 24,
    {
        PushOptions { max_stalled_replans: 16, max_upload_attempts: 8, max_completion_stalls: 24 }
    }
}

/// What a push did.
#[derive(Clone, Copy, Debug, PartialEq, Eq, Structural)]
pub struct PushReport {
    pub uploaded_objects: u64,
    pub uploaded_bytes: u64,
    pub packs: u64,
    /// Objects that travelled as blobs.
    pub blobs: u64,
    /// Parts that were sent; a part that the remote held already is not.
    pub blob_parts: u64,
    pub skipped_remote_resident: u64,
    pub complete_attempts: u32,
    pub replans: u32,
}

impl Default for PushReport {
    fn default() -> (report: Self)
        ensures
            report == (PushReport {
                uploaded_objects: 0,
                uploaded_bytes: 0,
                packs: 0,
                blobs: 0,
                blob_parts: 0,
                skipped_remote_resident: 0,
                complete_attempts: 0,
                replans: 0,
            }),
    {
        PushReport {
            uploaded_objects: 0,
            uploaded_bytes: 0,
            packs: 0,
            blobs: 0,
            blob_parts: 0,
            skipped_remote_resident: 0,
            complete_attempts: 0,
            replans: 0,
        }
    }
}

/// What a pull did.
#[derive(Clone, Copy, Debug, PartialEq, Eq, Structural)]
pub struct PullReport {
    pub fetched_objects: u64,
    pub fetched_bytes: u64,
    pub skipped_local_resident: u64,
}

impl Default for PullReport {
    fn default() -> (report: Self)
        ensures
            report == (PullReport {
                fetched_objects: 0,
                fetched_bytes: 0,
                skipped_local_resident: 0,
            }),
    {
        PullReport { fetched_objects: 0, fetched_bytes: 0, skipped_local_resident: 0 }
    }
}

// ---------------------------------------------------------------------------
// The closure of a snapshot
// ---------------------------------------------------------------------------

/// One object by its digest and its length.
pub type RowModel = (Seq<u8>, u64);

/// The values of a list of objects.
pub open spec fn rows(list: Seq<(ObjectDigest, u64)>) -> Seq<RowModel> {
    list.map_values(|row: (ObjectDigest, u64)| (row.0@, row.1))
}

/// The data records among the first `upto` records.
pub open spec fn data_rows(records: Seq<RecordModel>, upto: int) -> Seq<RowModel>
    decreases upto,
{
    if upto <= 0 {
        Seq::empty()
    } else {
        let before = data_rows(records, upto - 1);
        match records[upto - 1] {
            RecordModel::Data { digest, length } => before.push((digest, length)),
            RecordModel::Hole { .. } => before,
        }
    }
}

/// The data records of the files among the first `upto` entries.
pub open spec fn named_rows(entries: Seq<(Seq<char>, EntryModel)>, upto: int) -> Seq<RowModel>
    decreases upto,
{
    if upto <= 0 {
        Seq::empty()
    } else {
        let before = named_rows(entries, upto - 1);
        match entries[upto - 1].1 {
            EntryModel::File { body, .. } => before + data_rows(body.run(), body.run().len() as int),
            _ => before,
        }
    }
}

/// No earlier row names the digest of row `i`.
pub open spec fn is_first(list: Seq<RowModel>, i: int) -> bool {
    forall|j: int| 0 <= j < i ==> (#[trigger] list[j]).0 != list[i].0
}

/// The rows among the first `upto` that name their digest first.
pub open spec fn firsts(list: Seq<RowModel>, upto: int) -> Seq<RowModel>
    decreases upto,
{
    if upto <= 0 {
        Seq::empty()
    } else if is_first(list, upto - 1) {
        firsts(list, upto - 1).push(list[upto - 1])
    } else {
        firsts(list, upto - 1)
    }
}

/// The objects that a snapshot needs, each once, in the order of its manifest.
pub open spec fn closure_of(entries: Seq<(Seq<char>, EntryModel)>) -> Seq<RowModel> {
    let all = named_rows(entries, entries.len() as int);
    firsts(all, all.len() as int)
}

/// Whether a list of objects names no digest twice.
pub open spec fn names_once(list: Seq<RowModel>) -> bool {
    forall|i: int, j: int| 0 <= i < j < list.len() ==> (#[trigger] list[i]).0 != (#[trigger] list[j]).0
}

pub(crate) proof fn firsts_come_from(list: Seq<RowModel>, upto: int, i: int) -> (at: int)
    requires
        0 <= upto <= list.len(),
        0 <= i < firsts(list, upto).len(),
    ensures
        0 <= at < upto,
        firsts(list, upto)[i] == list[at],
    decreases upto,
{
    if is_first(list, upto - 1) && i == firsts(list, upto).len() - 1 {
        upto - 1
    } else {
        firsts_come_from(list, upto - 1, i)
    }
}

pub(crate) proof fn firsts_name_once(list: Seq<RowModel>, upto: int)
    requires
        0 <= upto <= list.len(),
    ensures
        names_once(firsts(list, upto)),
    decreases upto,
{
    if upto > 0 {
        firsts_name_once(list, upto - 1);
        if is_first(list, upto - 1) {
            let before = firsts(list, upto - 1);
            assert forall|i: int, j: int| 0 <= i < j < firsts(list, upto).len() implies (
            #[trigger] firsts(list, upto)[i]).0 != (#[trigger] firsts(list, upto)[j]).0 by {
                assert(firsts(list, upto)[i] == before[i]);
                if j < before.len() {
                    assert(firsts(list, upto)[j] == before[j]);
                } else {
                    let at = firsts_come_from(list, upto - 1, i);
                }
            }
        }
    }
}

/// The closure of a snapshot names no object twice.
pub proof fn closure_names_once(entries: Seq<(Seq<char>, EntryModel)>)
    ensures
        names_once(closure_of(entries)),
{
    let all = named_rows(entries, entries.len() as int);
    firsts_name_once(all, all.len() as int);
}

pub(crate) proof fn firsts_cover(list: Seq<RowModel>, upto: int, at: int) -> (i: int)
    requires
        0 <= at < upto <= list.len(),
    ensures
        0 <= i < firsts(list, upto).len(),
        firsts(list, upto)[i].0 == list[at].0,
    decreases upto,
{
    if at == upto - 1 {
        if is_first(list, upto - 1) {
            firsts(list, upto).len() - 1
        } else {
            let j = choose|j: int| 0 <= j < upto - 1 && (#[trigger] list[j]).0 == list[upto - 1].0;
            firsts_cover(list, upto - 1, j)
        }
    } else {
        let i = firsts_cover(list, upto - 1, at);
        assert(firsts(list, upto)[i] == firsts(list, upto - 1)[i]);
        i
    }
}

/// Every data record of a snapshot names an object of its closure.
pub proof fn closure_is_complete(entries: Seq<(Seq<char>, EntryModel)>, at: int)
    requires
        0 <= at < named_rows(entries, entries.len() as int).len(),
    ensures
        exists|i: int|
            0 <= i < closure_of(entries).len() && (#[trigger] closure_of(entries)[i]).0
                == named_rows(entries, entries.len() as int)[at].0,
{
    let all = named_rows(entries, entries.len() as int);
    let i = firsts_cover(all, all.len() as int, at);
    assert(closure_of(entries)[i].0 == all[at].0);
}

/// Appends the data records of a run.
pub fn push_data_rows(list: &mut Vec<(ObjectDigest, u64)>, records: &[FileRecord])
    ensures
        rows(final(list)@) == rows(old(list)@) + data_rows(
            record_models(records@),
            records@.len() as int,
        ),
{
    let ghost before = rows(list@);
    let ghost models = record_models(records@);
    let mut at: usize = 0;
    assert(rows(list@) =~= before + data_rows(models, 0));
    while at < records.len()
        invariant
            at <= records@.len(),
            models == record_models(records@),
            rows(list@) == before + data_rows(models, at as int),
        decreases records@.len() - at,
    {
        assert(models[at as int] == records@[at as int]@);
        if let FileRecord::Data { digest, length } = &records[at] {
            let ghost held = list@;
            list.push((*digest, *length));
            proof {
                assert(rows(list@) =~= rows(held).push((digest@, *length)));
                assert(data_rows(models, at + 1) == data_rows(models, at as int).push(
                    (digest@, *length),
                ));
                assert(rows(list@) =~= before + data_rows(models, at + 1));
            }
        }
        at += 1;
    }
}

/// The data records of a snapshot's files, in order.
pub fn all_rows(snapshot: &Snapshot) -> (list: Vec<(ObjectDigest, u64)>)
    ensures
        rows(list@) == named_rows(snapshot@.entries, snapshot@.entries.len() as int),
{
    let entries = snapshot.entries();
    let ghost models = entry_models(entries@);
    let mut list: Vec<(ObjectDigest, u64)> = Vec::new();
    let mut at: usize = 0;
    assert(rows(list@) =~= named_rows(models, 0));
    while at < entries.len()
        invariant
            at <= entries@.len(),
            models == entry_models(entries@),
            rows(list@) == named_rows(models, at as int),
        decreases entries@.len() - at,
    {
        assert(models[at as int] == (entries@[at as int].0@, entries@[at as int].1@));
        if let Entry::File { body, .. } = &entries[at].1 {
            let records = body.records();
            push_data_rows(&mut list, &records);
        }
        at += 1;
    }
    list
}

/// Which rows name their digest first. Sorting brings equal digests together,
/// the earliest in front.
fn mark_firsts(list: &Vec<(ObjectDigest, u64)>) -> (keep: Vec<bool>)
    ensures
        keep@.len() == list@.len(),
        forall|i: int| 0 <= i < keep@.len() ==> #[trigger] keep@[i] == is_first(rows(list@), i),
{
    let ghost models = rows(list@);
    let mut keys: Vec<Vec<u8>> = Vec::new();
    let mut keep: Vec<bool> = Vec::new();
    let mut at: usize = 0;
    while at < list.len()
        invariant
            at <= list@.len(),
            keys@.len() == at,
            keep@.len() == at,
            models == rows(list@),
            forall|i: int| 0 <= i < at ==> #[trigger] keep@[i],
            forall|i: int| 0 <= i < at ==> (#[trigger] keys@[i])@ == models[i].0,
        decreases list@.len() - at,
    {
        keys.push(vstd::slice::slice_to_vec(list[at].0.as_bytes()));
        keep.push(true);
        at += 1;
    }
    let order = sort_positions(&keys);
    let mut k: usize = 1;
    while k < order.len()
        invariant
            1 <= k,
            keys@.len() == models.len(),
            keep@.len() == models.len(),
            sorted_range(keys@, order@, 0, keys@.len() as int),
            forall|i: int| 0 <= i < models.len() ==> (#[trigger] keys@[i])@ == models[i].0,
            forall|p: int| 0 <= p < order@.len() ==> (#[trigger] keep@[order@[p] as int]) == !(1 <= p < k
                && keys@[order@[p - 1] as int]@ == keys@[order@[p] as int]@),
        decreases order@.len() - k,
    {
        let x = order[k - 1];
        let y = order[k];
        let ghost held = keep@;
        if same_bytes(&keys[x], &keys[y]) {
            keep[y] = false;
        }
        proof {
            assert forall|p: int| 0 <= p < order@.len() implies (#[trigger] keep@[order@[p] as int])
                == !(1 <= p < k + 1 && keys@[order@[p - 1] as int]@ == keys@[order@[p] as int]@) by {
                assert(held[order@[p] as int] == !(1 <= p < k && keys@[order@[p - 1] as int]@
                    == keys@[order@[p] as int]@));
                if p != k {
                    assert(order@[p] != order@[k as int]);
                }
            }
        }
        k += 1;
    }
    proof {
        assert forall|i: int| 0 <= i < keep@.len() implies #[trigger] keep@[i] == is_first(models, i) by {
            marked_is_first(keys@, order@, models, keep@, i);
        }
    }
    keep
}

proof fn marked_is_first(keys: Seq<Vec<u8>>, order: Seq<usize>, models: Seq<RowModel>, keep: Seq<bool>, i: int)
    requires
        sorted_range(keys, order, 0, keys.len() as int),
        keys.len() == models.len() <= usize::MAX,
        keep.len() == models.len(),
        0 <= i < keep.len(),
        forall|i: int| 0 <= i < models.len() ==> (#[trigger] keys[i])@ == models[i].0,
        forall|p: int| 0 <= p < order.len() ==> (#[trigger] keep[order[p] as int]) == !(1 <= p
            && keys[order[p - 1] as int]@ == keys[order[p] as int]@),
    ensures
        keep[i] == is_first(models, i),
{
    assert(order.contains(i as usize));
    let p = choose|p: int| 0 <= p < order.len() && order[p] == i as usize;
    assert(keep[order[p] as int] == keep[i]);
    if !keep[i] {
        let q = order[p - 1] as int;
        assert(sorts_before(keys, order[p - 1] as int, order[p] as int));
        bytes_less_irreflexive(keys[i]@);
        assert(models[q].0 == models[i].0);
    } else if !is_first(models, i) {
        let j = choose|j: int| 0 <= j < i && (#[trigger] models[j]).0 == models[i].0;
        assert(keys[j]@ == keys[i]@);
        assert(order.contains(j as usize));
        let r = choose|r: int| 0 <= r < order.len() && order[r] == j as usize;
        bytes_less_irreflexive(keys[i]@);
        if p < r {
            assert(sorts_before(keys, order[p] as int, order[r] as int));
        }
        assert(r < p);
        let q = order[p - 1] as int;
        assert(sorts_before(keys, order[p - 1] as int, order[p] as int));
        if r < p - 1 {
            assert(sorts_before(keys, order[r] as int, order[p - 1] as int));
            bytes_less_total(keys[q]@, keys[i]@);
        }
        assert(keys[q]@ == keys[i]@);
    }
}

/// The rows that name their digest first, in order.
pub fn unique_rows(list: &Vec<(ObjectDigest, u64)>) -> (unique: Vec<(ObjectDigest, u64)>)
    ensures
        rows(unique@) == firsts(rows(list@), list@.len() as int),
{
    let ghost models = rows(list@);
    let keep = mark_firsts(list);
    let mut unique: Vec<(ObjectDigest, u64)> = Vec::new();
    let mut at: usize = 0;
    assert(rows(unique@) =~= firsts(models, 0));
    while at < list.len()
        invariant
            at <= list@.len(),
            models == rows(list@),
            keep@.len() == list@.len(),
            forall|i: int| 0 <= i < keep@.len() ==> #[trigger] keep@[i] == is_first(models, i),
            rows(unique@) == firsts(models, at as int),
        decreases list@.len() - at,
    {
        assert(keep@[at as int] == is_first(models, at as int));
        if keep[at] {
            unique.push(list[at]);
            assert(rows(unique@) =~= firsts(models, at as int).push(models[at as int]));
        }
        at += 1;
    }
    unique
}

/// The objects that a snapshot needs, each once, in the order of its manifest.
pub fn data_closure(snapshot: &Snapshot) -> (closure: Vec<(ObjectDigest, u64)>)
    ensures
        rows(closure@) == closure_of(snapshot@.entries),
{
    let list = all_rows(snapshot);
    assert(rows(list@).len() == list@.len());
    unique_rows(&list)
}

// ---------------------------------------------------------------------------
// The remote's answers, held against the manifest
// ---------------------------------------------------------------------------

/// What is wrong with a list of missing objects.
pub enum MissingFault {
    NotCanonical { digest: Seq<u8> },
    Length { digest: Seq<u8>, expected: u64, actual: u64 },
}

/// The first row of the closure, from `cursor` on, that names `digest`; the
/// closure's length where there is none.
pub open spec fn next_named(closure: Seq<RowModel>, cursor: int, digest: Seq<u8>) -> int
    decreases closure.len() - cursor,
{
    if cursor >= closure.len() || closure[cursor].0 == digest {
        cursor
    } else {
        next_named(closure, cursor + 1, digest)
    }
}

/// What is wrong with the missing rows from `at` on, where the closure is read
/// forward from `cursor` only.
pub open spec fn missing_fault(
    closure: Seq<RowModel>,
    missing: Seq<RowModel>,
    cursor: int,
    at: int,
) -> Option<MissingFault>
    decreases missing.len() - at,
{
    if at >= missing.len() {
        None
    } else {
        let (digest, length) = missing[at];
        let found = next_named(closure, cursor, digest);
        if found >= closure.len() {
            Some(MissingFault::NotCanonical { digest })
        } else if length != closure[found].1 {
            Some(MissingFault::Length { digest, expected: closure[found].1, actual: length })
        } else {
            missing_fault(closure, missing, found + 1, at + 1)
        }
    }
}

/// Whether an error tells of a fault.
pub open spec fn tells(error: SyncError, fault: MissingFault) -> bool {
    match fault {
        MissingFault::NotCanonical { digest } => match error {
            SyncError::MissingNotCanonical { digest: d } => d@ == digest,
            _ => false,
        },
        MissingFault::Length { digest, expected, actual } => match error {
            SyncError::MissingLength { digest: d, expected: e, actual: a } => d@ == digest && e
                == expected && a == actual,
            _ => false,
        },
    }
}

pub(crate) proof fn next_named_facts(closure: Seq<RowModel>, cursor: int, digest: Seq<u8>)
    requires
        0 <= cursor <= closure.len(),
    ensures
        cursor <= next_named(closure, cursor, digest) <= closure.len(),
        next_named(closure, cursor, digest) < closure.len() ==> closure[next_named(
            closure,
            cursor,
            digest,
        )].0 == digest,
        forall|i: int|
            cursor <= i < next_named(closure, cursor, digest) ==> (#[trigger] closure[i]).0
                != digest,
    decreases closure.len() - cursor,
{
    if cursor < closure.len() && closure[cursor].0 != digest {
        next_named_facts(closure, cursor + 1, digest);
    }
}

/// Refuses a list of missing objects that is not the closure with rows left
/// out: the same digests, with the same lengths, in the same order.
pub fn verify_canonical_missing(
    closure: &[(ObjectDigest, u64)],
    missing: &[(ObjectDigest, u64)],
) -> (outcome: Result<(), SyncError>)
    ensures
        match missing_fault(rows(closure@), rows(missing@), 0, 0) {
            None => outcome is Ok,
            Some(fault) => outcome is Err && tells(outcome->Err_0, fault),
        },
{
    let ghost held = rows(closure@);
    let ghost owed = rows(missing@);
    let ghost whole = missing_fault(held, owed, 0, 0);
    let mut cursor: usize = 0;
    let mut at: usize = 0;
    while at < missing.len()
        invariant
            at <= missing@.len(),
            cursor <= closure@.len(),
            held == rows(closure@),
            owed == rows(missing@),
            whole == missing_fault(held, owed, cursor as int, at as int),
            whole == missing_fault(held, owed, 0, 0),
        decreases missing@.len() - at,
    {
        let digest = missing[at].0;
        let length = missing[at].1;
        let ghost found = next_named(held, cursor as int, digest@);
        proof {
            next_named_facts(held, cursor as int, digest@);
            assert(owed[at as int] == (digest@, length));
        }
        while cursor < closure.len() && !same_bytes(closure[cursor].0.as_bytes(), digest.as_bytes())
            invariant
                cursor <= closure@.len(),
                held == rows(closure@),
                found == next_named(held, cursor as int, digest@),
            decreases closure@.len() - cursor,
        {
            assert(held[cursor as int].0 == closure@[cursor as int].0@);
            cursor += 1;
        }
        proof {
            if cursor < closure@.len() {
                assert(held[cursor as int].0 == closure@[cursor as int].0@);
            }
            assert(found == cursor);
        }
        if cursor == closure.len() {
            return Err(SyncError::MissingNotCanonical { digest });
        }
        let expected = closure[cursor].1;
        cursor += 1;
        if length != expected {
            return Err(SyncError::MissingLength { digest, expected, actual: length });
        }
        at += 1;
    }
    Ok(())
}

/// Whether `missing` is what is left of `closure` when rows are left out:
/// `picked` says which row of the closure each missing row is.
pub open spec fn is_projection(closure: Seq<RowModel>, missing: Seq<RowModel>, picked: Seq<int>) -> bool {
    &&& picked.len() == missing.len()
    &&& forall|i: int|
        0 <= i < picked.len() ==> 0 <= #[trigger] picked[i] < closure.len() && closure[picked[i]]
            == missing[i]
    &&& forall|i: int, j: int|
        0 <= i < j < picked.len() ==> #[trigger] picked[i] < #[trigger] picked[j]
}

proof fn picks(closure: Seq<RowModel>, missing: Seq<RowModel>, cursor: int, at: int) -> (picked: Seq<int>)
    requires
        0 <= cursor <= closure.len(),
        0 <= at <= missing.len(),
        missing_fault(closure, missing, cursor, at) is None,
    ensures
        is_projection(closure, missing.skip(at), picked),
        forall|i: int| 0 <= i < picked.len() ==> cursor <= #[trigger] picked[i],
    decreases missing.len() - at,
{
    if at >= missing.len() {
        Seq::empty()
    } else {
        let found = next_named(closure, cursor, missing[at].0);
        next_named_facts(closure, cursor, missing[at].0);
        let later = picks(closure, missing, found + 1, at + 1);
        let picked = seq![found] + later;
        assert forall|i: int| 0 <= i < picked.len() implies 0 <= #[trigger] picked[i] < closure.len()
            && closure[picked[i]] == missing.skip(at)[i] by {
            if i > 0 {
                assert(picked[i] == later[i - 1]);
                assert(missing.skip(at + 1)[i - 1] == missing.skip(at)[i]);
            }
        }
        assert forall|i: int, j: int| 0 <= i < j < picked.len() implies #[trigger] picked[i]
            < #[trigger] picked[j] by {
            assert(picked[j] == later[j - 1]);
            if i > 0 {
                assert(picked[i] == later[i - 1]);
            }
        }
        picked
    }
}

/// A list of missing objects that is accepted is a projection of the closure:
/// the same rows, in the same order, with rows left out.
pub proof fn accepted_missing_is_a_projection(closure: Seq<RowModel>, missing: Seq<RowModel>)
    requires
        missing_fault(closure, missing, 0, 0) is None,
    ensures
        exists|picked: Seq<int>| is_projection(closure, missing, picked),
{
    let picked = picks(closure, missing, 0, 0);
    assert(missing.skip(0) =~= missing);
    assert(is_projection(closure, missing, picked));
}

/// The first of `list` at or behind `at` that `limit` puts in the other lane.
pub open spec fn misplaced(list: Seq<RowModel>, at: int, limit: u64, lane: Lane) -> Option<RowModel>
    decreases list.len() - at,
{
    if at >= list.len() {
        None
    } else if (list[at].1 > limit) == (lane is Pack) {
        Some(list[at])
    } else {
        misplaced(list, at + 1, limit, lane)
    }
}

/// What is wrong with the two lanes of an answer.
pub enum LaneFault {
    Missing(MissingFault),
    Misplaced { row: RowModel, lane: Lane },
}

/// Both lanes must be projections of the closure, and each object must be in
/// the lane that its length puts it in.
pub open spec fn lane_fault(
    closure: Seq<RowModel>,
    missing: Seq<RowModel>,
    missing_blobs: Seq<RowModel>,
    limit: u64,
) -> Option<LaneFault> {
    match missing_fault(closure, missing, 0, 0) {
        Some(fault) => Some(LaneFault::Missing(fault)),
        None => match missing_fault(closure, missing_blobs, 0, 0) {
            Some(fault) => Some(LaneFault::Missing(fault)),
            None => match misplaced(missing, 0, limit, Lane::Pack) {
                Some(row) => Some(LaneFault::Misplaced { row, lane: Lane::Pack }),
                None => match misplaced(missing_blobs, 0, limit, Lane::Blob) {
                    Some(row) => Some(LaneFault::Misplaced { row, lane: Lane::Blob }),
                    None => None,
                },
            },
        },
    }
}

/// Whether an error tells of a lane's fault.
pub open spec fn tells_lane(error: SyncError, fault: LaneFault, limit: u64) -> bool {
    match fault {
        LaneFault::Missing(fault) => tells(error, fault),
        LaneFault::Misplaced { row, lane } => match error {
            SyncError::BlobLaneMismatch { digest, length, limit: l, lane: named } => digest@ == row.0
                && length == row.1 && l == limit && named == lane,
            _ => false,
        },
    }
}

fn check_lane(list: &[(ObjectDigest, u64)], limit: u64, lane: Lane) -> (outcome: Result<(), SyncError>)
    ensures
        match misplaced(rows(list@), 0, limit, lane) {
            None => outcome is Ok,
            Some(row) => outcome is Err && tells_lane(
                outcome->Err_0,
                LaneFault::Misplaced { row, lane },
                limit,
            ),
        },
{
    let ghost models = rows(list@);
    let mut at: usize = 0;
    while at < list.len()
        invariant
            at <= list@.len(),
            models == rows(list@),
            misplaced(models, 0, limit, lane) == misplaced(models, at as int, limit, lane),
        decreases list@.len() - at,
    {
        assert(models[at as int] == (list@[at as int].0@, list@[at as int].1));
        let large = list[at].1 > limit;
        let wrong = match lane {
            Lane::Pack => large,
            Lane::Blob => !large,
        };
        if wrong {
            return Err(
                SyncError::BlobLaneMismatch {
                    digest: list[at].0,
                    length: list[at].1,
                    limit,
                    lane,
                },
            );
        }
        at += 1;
    }
    Ok(())
}

/// Refuses lanes that are no projections of the closure, and objects in the
/// wrong lane.
pub fn verify_lanes(
    closure: &[(ObjectDigest, u64)],
    missing: &[(ObjectDigest, u64)],
    missing_blobs: &[(ObjectDigest, u64)],
    max_payload: u64,
) -> (outcome: Result<(), SyncError>)
    ensures
        match lane_fault(rows(closure@), rows(missing@), rows(missing_blobs@), max_payload) {
            None => outcome is Ok,
            Some(fault) => outcome is Err && tells_lane(outcome->Err_0, fault, max_payload),
        },
{
    verify_canonical_missing(closure, missing)?;
    verify_canonical_missing(closure, missing_blobs)?;
    check_lane(missing, max_payload, Lane::Pack)?;
    check_lane(missing_blobs, max_payload, Lane::Blob)
}

pub(crate) proof fn rightly_placed(list: Seq<RowModel>, at: int, limit: u64, lane: Lane, i: int)
    requires
        misplaced(list, at, limit, lane) is None,
        0 <= at <= i < list.len(),
    ensures
        (list[i].1 > limit) == (lane is Blob),
    decreases list.len() - at,
{
    if at < i {
        rightly_placed(list, at + 1, limit, lane, i);
    }
}

/// In accepted lanes, each object of the pack lane fits a pack.
pub proof fn accepted_lanes_fit(
    closure: Seq<RowModel>,
    missing: Seq<RowModel>,
    missing_blobs: Seq<RowModel>,
    limit: u64,
)
    requires
        lane_fault(closure, missing, missing_blobs, limit) is None,
    ensures
        forall|i: int| 0 <= i < missing.len() ==> (#[trigger] missing[i]).1 <= limit,
        forall|i: int| 0 <= i < missing_blobs.len() ==> (#[trigger] missing_blobs[i]).1 > limit,
{
    assert forall|i: int| 0 <= i < missing.len() implies (#[trigger] missing[i]).1 <= limit by {
        rightly_placed(missing, 0, limit, Lane::Pack, i);
    }
    assert forall|i: int| 0 <= i < missing_blobs.len() implies (#[trigger] missing_blobs[i]).1 > limit by {
        rightly_placed(missing_blobs, 0, limit, Lane::Blob, i);
    }
}

/// In accepted lanes, each object of the pack lane fits a pack, each object of
/// the blob lane does not, and so no object is in both.
pub proof fn accepted_lanes_are_apart(
    closure: Seq<RowModel>,
    missing: Seq<RowModel>,
    missing_blobs: Seq<RowModel>,
    limit: u64,
)
    requires
        lane_fault(closure, missing, missing_blobs, limit) is None,
        names_once(closure),
    ensures
        forall|i: int| 0 <= i < missing.len() ==> (#[trigger] missing[i]).1 <= limit,
        forall|i: int| 0 <= i < missing_blobs.len() ==> (#[trigger] missing_blobs[i]).1 > limit,
        forall|i: int, j: int|
            0 <= i < missing.len() && 0 <= j < missing_blobs.len() ==> (#[trigger] missing[i]).0 != (
            #[trigger] missing_blobs[j]).0,
{
    accepted_missing_is_a_projection(closure, missing);
    accepted_missing_is_a_projection(closure, missing_blobs);
    let a = choose|picked: Seq<int>| is_projection(closure, missing, picked);
    let b = choose|picked: Seq<int>| is_projection(closure, missing_blobs, picked);
    accepted_lanes_fit(closure, missing, missing_blobs, limit);
    assert forall|i: int, j: int|
        0 <= i < missing.len() && 0 <= j < missing_blobs.len() implies (#[trigger] missing[i]).0 != (
    #[trigger] missing_blobs[j]).0 by {
        assert(closure[a[i]] == missing[i]);
        assert(closure[b[j]] == missing_blobs[j]);
        assert(missing[i].1 <= limit && missing_blobs[j].1 > limit);
    }
}

/// The largest payload of one pack: what the remote says, within the format's
/// own bound; the format's bound where the remote says nothing.
pub open spec fn payload_limit(said: u64) -> u64 {
    if said == 0 || said > MAX_PACK_PAYLOAD {
        MAX_PACK_PAYLOAD
    } else {
        said
    }
}

pub fn max_payload(said: u64) -> (limit: u64)
    ensures
        limit == payload_limit(said),
{
    if said == 0 || said > MAX_PACK_PAYLOAD {
        MAX_PACK_PAYLOAD
    } else {
        said
    }
}

/// The digest under which a snapshot's canonical bytes stand among the objects:
/// the snapshot's own identity.
pub fn manifest_object_digest(id: &SnapshotId) -> (digest: ObjectDigest)
    ensures
        digest@ == id@,
{
    ObjectDigest::from_bytes(*id.as_bytes())
}

/// The pause before attempt number `attempt` is followed by another: a quarter
/// of a second, doubled with each attempt up to the sixth, eight seconds at
/// most.
pub open spec fn pause_millis(attempt: u32) -> nat {
    let doubled = 250 * vstd::arithmetic::power2::pow2(if attempt < 6 {
        attempt as nat
    } else {
        6
    });
    if doubled < 8000 {
        doubled
    } else {
        8000
    }
}

/// The pause before a further attempt, in milliseconds.
pub fn back_off(attempt: u32) -> (millis: u64)
    ensures
        millis == pause_millis(attempt),
{
    proof {
        vstd::arithmetic::power2::lemma2_to64();
    }
    if attempt == 0 {
        250
    } else if attempt == 1 {
        500
    } else if attempt == 2 {
        1000
    } else if attempt == 3 {
        2000
    } else if attempt == 4 {
        4000
    } else {
        8000
    }
}

/// A pause is never longer than eight seconds, and never shorter than the one
/// before it.
pub proof fn pauses_are_bounded(attempt: u32, later: u32)
    requires
        attempt <= later,
    ensures
        250 <= pause_millis(attempt) <= pause_millis(later) <= 8000,
{
    vstd::arithmetic::power2::lemma2_to64();
}

} // verus!
