//! A pull: which objects are fetched, and when it gives up.

use super::packs::{digests_of, row_digests};
use super::{
    back_off, pause_millis, rows, DownloadGrant, PullReport, RowModel, SyncError, TransportError,
    DOWNLOAD_ATTEMPTS, DOWNLOAD_GRANT_BATCH,
};
use crate::digest_index::digests;
use crate::object::ObjectDigest;
use crate::text::same_bytes;
use crate::tfm1::decode::{decode, decoded, takes_memory};
use crate::tfm1::{Snapshot, SnapshotId, SnapshotModel, Tfm1Error};
use crate::trusted::sha256;
use vstd::prelude::*;

verus! {

/// The head to pull.
pub fn pull_head(head: Option<SnapshotId>) -> (id: Result<SnapshotId, SyncError>)
    ensures
        id == match head {
            Some(h) => Ok::<SnapshotId, SyncError>(h),
            None => Err::<SnapshotId, SyncError>(SyncError::NoRemoteHead),
        },
{
    match head {
        Some(h) => Ok(h),
        None => Err(SyncError::NoRemoteHead),
    }
}

/// The first grant at or behind `at` for the object `digest`.
pub open spec fn first_download_grant(grants: Seq<DownloadGrant>, digest: Seq<u8>, at: int) -> int
    decreases grants.len() - at,
{
    if at >= grants.len() || grants[at].digest@ == digest {
        at
    } else {
        first_download_grant(grants, digest, at + 1)
    }
}

/// The place of an object's grant in the remote's answer.
pub fn find_download(grants: &[DownloadGrant], digest: &ObjectDigest) -> (found: Result<usize, SyncError>)
    ensures
        ({
            let place = first_download_grant(grants@, digest@, 0);
            if place < grants@.len() {
                found == Ok::<usize, SyncError>(place as usize)
            } else {
                found == Err::<usize, SyncError>(SyncError::GrantOmitted(*digest))
            }
        }),
{
    let mut at: usize = 0;
    while at < grants.len() && !same_bytes(grants[at].digest.as_bytes(), digest.as_bytes())
        invariant
            at <= grants@.len(),
            first_download_grant(grants@, digest@, 0) == first_download_grant(
                grants@,
                digest@,
                at as int,
            ),
        decreases grants@.len() - at,
    {
        at += 1;
    }
    if at < grants.len() {
        Ok(at)
    } else {
        Err(SyncError::GrantOmitted(*digest))
    }
}

/// Accepts fetched manifest bytes: they must hash to the snapshot's identity
/// before anything is read from them.
pub fn accept_manifest(id: &SnapshotId, bytes: &[u8]) -> (outcome: Result<Snapshot, SyncError>)
    ensures
        if sha256(bytes@) != id@ {
            outcome == Err::<Snapshot, SyncError>(SyncError::RemoteManifestCorrupt(*id))
        } else {
            match outcome {
                Ok(snapshot) => decoded(bytes@) == Ok::<SnapshotModel, Tfm1Error>(snapshot@),
                Err(e) => {
                    &&& e matches SyncError::Manifest(inner)
                    &&& (inner == Tfm1Error::ResourceExhausted && takes_memory(bytes@)) || decoded(bytes@)
                        == Err::<SnapshotModel, Tfm1Error>(inner)
                },
            }
        },
{
    let hashed = SnapshotId::of(bytes);
    if !same_bytes(hashed.as_bytes(), id.as_bytes()) {
        return Err(SyncError::RemoteManifestCorrupt(*id));
    }
    match decode(bytes) {
        Ok(snapshot) => Ok(snapshot),
        Err(e) => Err(SyncError::Manifest(e)),
    }
}

/// The rows among the first `upto` that are, or are not, held.
pub open spec fn picked_rows(
    list: Seq<RowModel>,
    held: Seq<bool>,
    wanted: bool,
    upto: int,
) -> Seq<RowModel>
    decreases upto,
{
    if upto <= 0 {
        Seq::empty()
    } else if held[upto - 1] == wanted {
        picked_rows(list, held, wanted, upto - 1).push(list[upto - 1])
    } else {
        picked_rows(list, held, wanted, upto - 1)
    }
}

/// Every object of the closure is either held or fetched.
pub proof fn a_pull_is_complete(list: Seq<RowModel>, held: Seq<bool>, upto: int)
    requires
        0 <= upto <= list.len(),
        held.len() == list.len(),
    ensures
        picked_rows(list, held, true, upto).len() + picked_rows(list, held, false, upto).len() == upto,
        forall|i: int|
            0 <= i < upto && !held[i] ==> picked_rows(list, held, false, upto).contains(
                #[trigger] list[i],
            ),
    decreases upto,
{
    if upto > 0 {
        a_pull_is_complete(list, held, upto - 1);
        let before = picked_rows(list, held, false, upto - 1);
        let after = picked_rows(list, held, false, upto);
        assert forall|i: int| 0 <= i < upto && !held[i] implies after.contains(#[trigger] list[i]) by {
            if i < upto - 1 {
                assert(before.contains(list[i]));
                let k = choose|k: int| 0 <= k < before.len() && before[k] == list[i];
                assert(after[k] == list[i]);
            } else {
                assert(after[after.len() - 1] == list[i]);
            }
        }
    }
}

/// What a pull asks for next.
#[derive(Clone, Copy, Debug, PartialEq, Eq, Structural)]
pub enum PullStep {
    /// Ask for the grants of the next batch.
    Ask,
    /// Fetch the current object into the store.
    Fetch,
    /// Every object is held: adopt the snapshot.
    Done,
}

/// Where a pull stands.
#[verifier::ext_equal]
pub struct PullModel {
    /// The objects to fetch.
    pub missing: Seq<RowModel>,
    /// How many of them are fetched.
    pub settled: int,
    /// How many of them were granted.
    pub granted: int,
    /// The failed attempts to fetch the current one.
    pub attempts: u32,
}

impl PullModel {
    pub open spec fn valid(self) -> bool {
        &&& 0 <= self.settled <= self.granted <= self.missing.len()
        &&& self.attempts < DOWNLOAD_ATTEMPTS
    }

    pub open spec fn step(self) -> PullStep {
        if self.settled == self.missing.len() {
            PullStep::Done
        } else if self.settled < self.granted {
            PullStep::Fetch
        } else {
            PullStep::Ask
        }
    }

    /// Where the batch that begins at the first object not yet fetched ends.
    pub open spec fn batch_end(self) -> int {
        if self.missing.len() - self.settled <= DOWNLOAD_GRANT_BATCH {
            self.missing.len() as int
        } else {
            self.settled + DOWNLOAD_GRANT_BATCH
        }
    }
}

/// A pull.
pub struct Pull {
    missing: Vec<(ObjectDigest, u64)>,
    settled: usize,
    granted: usize,
    attempts: u32,
}

impl View for Pull {
    type V = PullModel;

    closed spec fn view(&self) -> PullModel {
        PullModel {
            missing: rows(self.missing@),
            settled: self.settled as int,
            granted: self.granted as int,
            attempts: self.attempts,
        }
    }
}

impl Pull {
    /// A pull of what the store does not hold, and its first report.
    pub fn new(closure: &[(ObjectDigest, u64)], held: &[bool]) -> (pull: (Pull, PullReport))
        requires
            held@.len() == closure@.len(),
        ensures
            pull.0@.valid(),
            pull.0@ == (PullModel {
                missing: picked_rows(rows(closure@), held@, false, closure@.len() as int),
                settled: 0,
                granted: 0,
                attempts: 0,
            }),
            pull.1 == (PullReport {
                fetched_objects: 0,
                fetched_bytes: 0,
                skipped_local_resident: picked_rows(
                    rows(closure@),
                    held@,
                    true,
                    closure@.len() as int,
                ).len() as u64,
            }),
    {
        let ghost models = rows(closure@);
        let mut report = PullReport::default();
        let mut missing: Vec<(ObjectDigest, u64)> = Vec::new();
        let mut at: usize = 0;
        assert(rows(missing@) =~= picked_rows(models, held@, false, 0));
        while at < closure.len()
            invariant
                at <= closure@.len(),
                held@.len() == closure@.len(),
                models == rows(closure@),
                rows(missing@) == picked_rows(models, held@, false, at as int),
                report == (PullReport {
                    fetched_objects: 0,
                    fetched_bytes: 0,
                    skipped_local_resident: picked_rows(models, held@, true, at as int).len() as u64,
                }),
                picked_rows(models, held@, true, at as int).len() <= at,
            decreases closure@.len() - at,
        {
            let ghost before = rows(missing@);
            assert(models[at as int] == (closure@[at as int].0@, closure@[at as int].1));
            if held[at] {
                report.skipped_local_resident = report.skipped_local_resident + 1;
            } else {
                missing.push(closure[at]);
                assert(rows(missing@) =~= before.push(models[at as int]));
            }
            at += 1;
        }
        (Pull { missing, settled: 0, granted: 0, attempts: 0 }, report)
    }

    /// What to do next.
    pub fn next(&self) -> (step: PullStep)
        requires
            self@.valid(),
        ensures
            step == self@.step(),
    {
        if self.settled == self.missing.len() {
            PullStep::Done
        } else if self.settled < self.granted {
            PullStep::Fetch
        } else {
            PullStep::Ask
        }
    }

    fn end_of_batch(&self) -> (end: usize)
        requires
            self@.valid(),
        ensures
            end == self@.batch_end(),
            self@.settled <= end <= self@.missing.len(),
    {
        if self.missing.len() - self.settled <= DOWNLOAD_GRANT_BATCH {
            self.missing.len()
        } else {
            self.settled + DOWNLOAD_GRANT_BATCH
        }
    }

    /// The digests of the next batch.
    pub fn batch(&self) -> (named: Vec<ObjectDigest>)
        requires
            self@.valid(),
        ensures
            digests(named@) == row_digests(
                self@.missing.subrange(self@.settled, self@.batch_end()),
            ),
            named@.len() <= DOWNLOAD_GRANT_BATCH,
    {
        let end = self.end_of_batch();
        let part = vstd::slice::slice_subrange(self.missing.as_slice(), self.settled, end);
        assert(rows(part@) =~= self@.missing.subrange(self@.settled, self@.batch_end()));
        let named = digests_of(part);
        assert(digests(named@).len() == row_digests(rows(part@)).len());
        named
    }

    /// The batch was granted.
    pub fn granted(&mut self)
        requires
            old(self)@.valid(),
            old(self)@.step() is Ask,
        ensures
            final(self)@.valid(),
            final(self)@ == (PullModel { granted: old(self)@.batch_end(), ..old(self)@ }),
    {
        self.granted = self.end_of_batch();
    }

    /// The current object.
    pub fn current(&self) -> (row: (ObjectDigest, u64))
        requires
            self@.valid(),
            self@.step() is Fetch,
        ensures
            (row.0@, row.1) == self@.missing[self@.settled],
    {
        self.missing[self.settled]
    }

    /// The current object is in the store.
    pub fn fetched(&mut self, report: &mut PullReport)
        requires
            old(self)@.valid(),
            old(self)@.step() is Fetch,
            old(report).fetched_objects < u64::MAX,
            old(report).fetched_bytes + old(self)@.missing[old(self)@.settled].1 <= u64::MAX,
        ensures
            final(self)@.valid(),
            final(self)@ == (PullModel {
                settled: old(self)@.settled + 1,
                attempts: 0,
                ..old(self)@
            }),
            *final(report) == (PullReport {
                fetched_objects: (old(report).fetched_objects + 1) as u64,
                fetched_bytes: (old(report).fetched_bytes + old(self)@.missing[old(
                    self,
                )@.settled].1) as u64,
                ..*old(report)
            }),
    {
        report.fetched_objects = report.fetched_objects + 1;
        report.fetched_bytes = report.fetched_bytes + self.missing[self.settled].1;
        self.settled = self.settled + 1;
        self.attempts = 0;
    }

    /// What to do where the current object was not fetched: after a failure of
    /// the carrier, try again after the returned pause in milliseconds, within
    /// the bound; anything else ends the pull.
    pub fn not_fetched(&mut self, error: TransportError) -> (outcome: Result<u64, SyncError>)
        requires
            old(self)@.valid(),
            old(self)@.step() is Fetch,
        ensures
            final(self)@.valid(),
            ({
                let attempts = (old(self)@.attempts + 1) as u32;
                if error is Io && attempts < DOWNLOAD_ATTEMPTS {
                    &&& outcome matches Ok(millis)
                    &&& millis == pause_millis(attempts)
                    &&& final(self)@ == (PullModel { attempts, ..old(self)@ })
                } else {
                    outcome == Err::<u64, SyncError>(SyncError::Transport(error)) && final(self)@
                        == old(self)@
                }
            }),
    {
        if let TransportError::Io(_) = &error {
            let attempts: u32 = self.attempts + 1;
            if attempts < DOWNLOAD_ATTEMPTS {
                self.attempts = attempts;
                return Ok(back_off(attempts));
            }
        }
        Err(SyncError::Transport(error))
    }
}

} // verus!
