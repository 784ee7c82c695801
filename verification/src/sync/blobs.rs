//! The blob lane: an object too large for a pack travels in parts.

use super::packs::{digests_of, row_digests};
use super::{
    back_off, pause_millis, rows, BlobGrant, BlobPart, BlobPartReport, PushOptions, PushReport, RowModel,
    SyncError, TransportError, BLOB_GRANT_BATCH,
};
use crate::digest_index::digests;
use crate::object::ObjectDigest;
use crate::text::same_bytes;
use vstd::prelude::*;

verus! {

// ---------------------------------------------------------------------------
// One blob
// ---------------------------------------------------------------------------

/// The bytes of the first `upto` parts; where part `upto` starts.
pub open spec fn parts_total(parts: Seq<BlobPart>, upto: int) -> nat
    decreases upto,
{
    if upto <= 0 {
        0
    } else {
        parts_total(parts, upto - 1) + parts[upto - 1].size_bytes as nat
    }
}

/// Whether the remote holds part `i` already.
pub open spec fn is_held(grant: BlobGrant, i: int) -> bool {
    grant.uploaded_parts@.contains(grant.parts@[i].part_number)
}

/// The first part at or behind `at` that the remote does not hold.
pub open spec fn next_unheld(grant: BlobGrant, at: int) -> int
    decreases grant.parts@.len() - at,
{
    if at >= grant.parts@.len() || !is_held(grant, at) {
        at
    } else {
        next_unheld(grant, at + 1)
    }
}

/// The numbers of the first `upto` parts that the remote does not hold.
pub open spec fn unheld_numbers(grant: BlobGrant, upto: int) -> Seq<u32>
    decreases upto,
{
    if upto <= 0 {
        Seq::empty()
    } else if is_held(grant, upto - 1) {
        unheld_numbers(grant, upto - 1)
    } else {
        unheld_numbers(grant, upto - 1).push(grant.parts@[upto - 1].part_number)
    }
}

pub(crate) proof fn parts_total_grows(parts: Seq<BlobPart>, i: int, j: int)
    requires
        0 <= i <= j <= parts.len(),
    ensures
        parts_total(parts, i) <= parts_total(parts, j),
    decreases j - i,
{
    if i < j {
        parts_total_grows(parts, i, j - 1);
    }
}

/// The parts of an accepted grant cover the object: every byte stands in a
/// part, behind the parts before it.
pub proof fn parts_cover_the_object(parts: Seq<BlobPart>, length: u64, at: int) -> (i: int)
    requires
        parts_total(parts, parts.len() as int) == length,
        0 <= at < length,
    ensures
        0 <= i < parts.len(),
        parts_total(parts, i) <= at < parts_total(parts, i) + parts[i].size_bytes,
{
    covering_part(parts, at, parts.len() as int)
}

proof fn covering_part(parts: Seq<BlobPart>, at: int, upto: int) -> (i: int)
    requires
        0 <= at < parts_total(parts, upto),
        0 <= upto <= parts.len(),
    ensures
        0 <= i < upto,
        parts_total(parts, i) <= at < parts_total(parts, i) + parts[i].size_bytes,
    decreases upto,
{
    if at < parts_total(parts, upto - 1) {
        covering_part(parts, at, upto - 1)
    } else {
        upto - 1
    }
}

proof fn unheld_stay(grant: BlobGrant, from: int, to: int)
    requires
        0 <= from <= to <= grant.parts@.len(),
        next_unheld(grant, from) >= to,
    ensures
        unheld_numbers(grant, from) == unheld_numbers(grant, to),
    decreases to - from,
{
    if from < to {
        assert(is_held(grant, from));
        assert(next_unheld(grant, from) == next_unheld(grant, from + 1));
        unheld_stay(grant, from + 1, to);
    }
}

/// What one blob's upload asks for next.
#[derive(Clone, Copy, Debug, PartialEq, Eq, Structural)]
pub enum BlobStep {
    /// Send part number `index` of the grant: `size` bytes of the object from
    /// byte `start` on.
    Send { index: usize, start: u64, size: u64 },
    /// Every part has landed. Tell the remote of the parts that this push sent,
    /// where it sent any.
    Finish { report: bool },
}

/// What becomes of a part that could not be sent.
#[derive(Clone, Copy, Debug, PartialEq, Eq, Structural)]
pub enum PartAnswer {
    /// Send it again after a pause of so many milliseconds.
    Again(u64),
    /// The authorization ran out. Tell the remote of the parts that landed,
    /// where any did, and defer the blob.
    Expired { report: bool },
}

/// Where one blob's upload stands.
#[verifier::ext_equal]
pub struct BlobModel {
    pub grant: BlobGrant,
    pub max_attempts: u32,
    /// The parts that are settled: sent by this push, or held before.
    pub settled: int,
    /// The parts that this push sent, with the names they were given.
    pub landed: Seq<(u32, Seq<char>)>,
    /// The failed attempts to send the current part.
    pub attempts: u32,
}

/// The values of the reports of parts.
pub open spec fn reported(list: Seq<BlobPartReport>) -> Seq<(u32, Seq<char>)> {
    list.map_values(|part: BlobPartReport| (part.part_number, part.etag@))
}

/// The part numbers of reports.
pub open spec fn numbers(list: Seq<(u32, Seq<char>)>) -> Seq<u32> {
    list.map_values(|part: (u32, Seq<char>)| part.0)
}

impl BlobModel {
    pub open spec fn valid(self) -> bool {
        let parts = self.grant.parts@;
        &&& 0 <= self.settled <= parts.len()
        &&& self.settled < parts.len() ==> !is_held(self.grant, self.settled)
        &&& parts_total(parts, parts.len() as int) == self.grant.length
        &&& numbers(self.landed) == unheld_numbers(self.grant, self.settled)
        &&& self.attempts == 0 || self.attempts < self.max_attempts
    }

    pub open spec fn step(self) -> BlobStep {
        if self.settled < self.grant.parts@.len() {
            BlobStep::Send {
                index: self.settled as usize,
                start: parts_total(self.grant.parts@, self.settled) as u64,
                size: self.grant.parts@[self.settled].size_bytes,
            }
        } else {
            BlobStep::Finish { report: self.landed.len() > 0 }
        }
    }

    /// The current part landed under the name `etag`.
    pub open spec fn with_landed(self, etag: Seq<char>) -> BlobModel {
        BlobModel {
            settled: next_unheld(self.grant, self.settled + 1),
            landed: self.landed.push((self.grant.parts@[self.settled].part_number, etag)),
            attempts: 0,
            ..self
        }
    }
}

/// One blob's upload.
pub struct BlobUpload {
    grant: BlobGrant,
    max_attempts: u32,
    settled: usize,
    start: u64,
    landed: Vec<BlobPartReport>,
    attempts: u32,
}

impl View for BlobUpload {
    type V = BlobModel;

    closed spec fn view(&self) -> BlobModel {
        BlobModel {
            grant: self.grant,
            max_attempts: self.max_attempts,
            settled: self.settled as int,
            landed: reported(self.landed@),
            attempts: self.attempts,
        }
    }
}

fn holds(list: &Vec<u32>, number: u32) -> (found: bool)
    ensures
        found == list@.contains(number),
{
    let mut at: usize = 0;
    while at < list.len()
        invariant
            at <= list@.len(),
            forall|i: int| 0 <= i < at ==> list@[i] != number,
        decreases list@.len() - at,
    {
        if list[at] == number {
            return true;
        }
        at += 1;
    }
    false
}

/// Passes over the parts that the remote holds.
fn pass_held(grant: &BlobGrant, from: usize, start: u64) -> (reached: (usize, u64))
    requires
        from <= grant.parts@.len(),
        start == parts_total(grant.parts@, from as int),
        parts_total(grant.parts@, grant.parts@.len() as int) <= u64::MAX,
    ensures
        reached.0 == next_unheld(*grant, from as int),
        reached.0 <= grant.parts@.len(),
        reached.1 == parts_total(grant.parts@, reached.0 as int),
        unheld_numbers(*grant, reached.0 as int) == unheld_numbers(*grant, from as int),
{
    let mut at: usize = from;
    let mut offset: u64 = start;
    while at < grant.parts.len() && holds(&grant.uploaded_parts, grant.parts[at].part_number)
        invariant
            from <= at <= grant.parts@.len(),
            offset == parts_total(grant.parts@, at as int),
            parts_total(grant.parts@, grant.parts@.len() as int) <= u64::MAX,
            next_unheld(*grant, from as int) == next_unheld(*grant, at as int),
        decreases grant.parts@.len() - at,
    {
        proof {
            parts_total_grows(grant.parts@, at + 1, grant.parts@.len() as int);
        }
        offset += grant.parts[at].size_bytes;
        at += 1;
    }
    proof {
        unheld_stay(*grant, from as int, at as int);
    }
    (at, offset)
}

impl BlobUpload {
    pub closed spec fn sound(&self) -> bool {
        &&& self@.valid()
        &&& self.start == parts_total(self.grant.parts@, self.settled as int)
    }

    /// The upload's model is valid.
    pub proof fn sound_is_valid(&self)
        requires
            self.sound(),
        ensures
            self@.valid(),
    {
    }

    /// Opens the upload of an object of `length` bytes. The grant must be for
    /// that length, and its parts must cover the object exactly.
    pub fn open(grant: BlobGrant, length: u64, options: PushOptions) -> (outcome: Result<
        BlobUpload,
        SyncError,
    >)
        requires
            parts_total(grant.parts@, grant.parts@.len() as int) <= u64::MAX,
        ensures
            ({
                let total = parts_total(grant.parts@, grant.parts@.len() as int);
                if grant.length != length {
                    outcome == Err::<BlobUpload, SyncError>(
                        SyncError::MissingLength {
                            digest: grant.digest,
                            expected: length,
                            actual: grant.length,
                        },
                    )
                } else if total != length {
                    outcome == Err::<BlobUpload, SyncError>(
                        SyncError::BlobPartCoverage {
                            digest: grant.digest,
                            length,
                            granted: total as u64,
                        },
                    )
                } else {
                    &&& outcome matches Ok(upload)
                    &&& upload.sound()
                    &&& upload@ == (BlobModel {
                        grant,
                        max_attempts: options.max_upload_attempts,
                        settled: next_unheld(grant, 0),
                        landed: Seq::empty(),
                        attempts: 0,
                    })
                }
            }),
    {
        if grant.length != length {
            return Err(
                SyncError::MissingLength {
                    digest: grant.digest,
                    expected: length,
                    actual: grant.length,
                },
            );
        }
        let granted = granted_bytes(&grant.parts);
        if granted != length {
            return Err(SyncError::BlobPartCoverage { digest: grant.digest, length, granted });
        }
        let reached = pass_held(&grant, 0, 0);
        let upload = BlobUpload {
            grant,
            max_attempts: options.max_upload_attempts,
            settled: reached.0,
            start: reached.1,
            landed: Vec::new(),
            attempts: 0,
        };
        proof {
            assert(upload@.landed =~= Seq::empty());
            assert(numbers(upload@.landed) =~= unheld_numbers(grant, 0));
            unheld_is_unheld(grant, 0);
        }
        Ok(upload)
    }

    /// What to do next.
    pub fn next(&self) -> (step: BlobStep)
        requires
            self.sound(),
        ensures
            step == self@.step(),
            step is Finish ==> numbers(self@.landed) == unheld_numbers(
                self@.grant,
                self@.grant.parts@.len() as int,
            ),
    {
        if self.settled < self.grant.parts.len() {
            BlobStep::Send {
                index: self.settled,
                start: self.start,
                size: self.grant.parts[self.settled].size_bytes,
            }
        } else {
            BlobStep::Finish { report: self.landed.len() > 0 }
        }
    }

    /// The grant.
    pub fn grant(&self) -> (grant: &BlobGrant)
        ensures
            *grant == self@.grant,
    {
        &self.grant
    }

    /// The parts that this push sent.
    pub fn landed(&self) -> (landed: &[BlobPartReport])
        ensures
            reported(landed@) == self@.landed,
    {
        &self.landed
    }

    /// The current part landed.
    pub fn sent(&mut self, etag: String, report: &mut PushReport)
        requires
            old(self).sound(),
            old(self)@.step() is Send,
            old(report).blob_parts < u64::MAX,
        ensures
            final(self).sound(),
            final(self)@ == old(self)@.with_landed(etag@),
            *final(report) == (PushReport {
                blob_parts: (old(report).blob_parts + 1) as u64,
                ..*old(report)
            }),
    {
        let ghost before = self@;
        let count: usize = self.grant.parts.len();
        let number = self.grant.parts[self.settled].part_number;
        let size = self.grant.parts[self.settled].size_bytes;
        proof {
            parts_total_grows(
                self.grant.parts@,
                self.settled + 1,
                self.grant.parts@.len() as int,
            );
            unheld_is_unheld(self.grant, self.settled + 1);
        }
        let reached = pass_held(&self.grant, self.settled + 1, self.start + size);
        self.landed.push(BlobPartReport { part_number: number, etag });
        self.settled = reached.0;
        self.start = reached.1;
        self.attempts = 0;
        report.blob_parts = report.blob_parts + 1;
        proof {
            assert(self@.landed =~= before.landed.push((number, etag@)));
            assert(numbers(self@.landed) =~= numbers(before.landed).push(number));
            assert(self@ =~= before.with_landed(etag@));
        }
    }

    /// What to do where the current part was not sent.
    pub fn not_sent(&mut self, error: TransportError) -> (outcome: Result<PartAnswer, SyncError>)
        requires
            old(self).sound(),
            old(self)@.step() is Send,
        ensures
            final(self).sound(),
            match error {
                TransportError::Io(_) => {
                    let attempts = (old(self)@.attempts + 1) as u32;
                    if attempts >= old(self)@.max_attempts {
                        outcome == Err::<PartAnswer, SyncError>(
                            SyncError::BlobPartAttemptsExhausted {
                                digest: old(self)@.grant.digest,
                                attempts,
                            },
                        ) && final(self)@ == old(self)@
                    } else {
                        &&& outcome matches Ok(PartAnswer::Again(millis))
                        &&& millis == pause_millis(attempts)
                        &&& final(self)@ == (BlobModel { attempts, ..old(self)@ })
                    }
                },
                TransportError::Expired(_) => outcome == Ok::<PartAnswer, SyncError>(
                    PartAnswer::Expired { report: old(self)@.landed.len() > 0 },
                ) && final(self)@ == old(self)@,
                TransportError::Refused { .. } => outcome == Err::<PartAnswer, SyncError>(
                    SyncError::Transport(error),
                ) && final(self)@ == old(self)@,
            },
    {
        match &error {
            TransportError::Io(_) => {
                let attempts: u32 = self.attempts + 1;
                if attempts >= self.max_attempts {
                    return Err(
                        SyncError::BlobPartAttemptsExhausted { digest: self.grant.digest, attempts },
                    );
                }
                self.attempts = attempts;
                Ok(PartAnswer::Again(back_off(attempts)))
            },
            TransportError::Expired(_) => Ok(PartAnswer::Expired { report: self.landed.len() > 0 }),
            TransportError::Refused { .. } => Err(SyncError::Transport(error)),
        }
    }
}

proof fn unheld_is_unheld(grant: BlobGrant, at: int)
    requires
        0 <= at <= grant.parts@.len(),
    ensures
        at <= next_unheld(grant, at) <= grant.parts@.len(),
        next_unheld(grant, at) < grant.parts@.len() ==> !is_held(grant, next_unheld(grant, at)),
    decreases grant.parts@.len() - at,
{
    if at < grant.parts@.len() && is_held(grant, at) {
        unheld_is_unheld(grant, at + 1);
    }
}

fn granted_bytes(parts: &Vec<BlobPart>) -> (bytes: u64)
    requires
        parts_total(parts@, parts@.len() as int) <= u64::MAX,
    ensures
        bytes == parts_total(parts@, parts@.len() as int),
{
    let mut bytes: u64 = 0;
    let mut at: usize = 0;
    while at < parts.len()
        invariant
            at <= parts@.len(),
            parts_total(parts@, parts@.len() as int) <= u64::MAX,
            bytes == parts_total(parts@, at as int),
        decreases parts@.len() - at,
    {
        proof {
            parts_total_grows(parts@, at + 1, parts@.len() as int);
        }
        bytes += parts[at].size_bytes;
        at += 1;
    }
    bytes
}

/// Whether the bytes of a grant's parts can be counted.
pub fn parts_fit(parts: &[BlobPart]) -> (yes: bool)
    ensures
        yes == (parts_total(parts@, parts@.len() as int) <= u64::MAX),
{
    let mut bytes: u64 = 0;
    let mut at: usize = 0;
    while at < parts.len()
        invariant
            at <= parts@.len(),
            bytes == parts_total(parts@, at as int),
        decreases parts@.len() - at,
    {
        proof {
            parts_total_grows(parts@, at + 1, parts@.len() as int);
        }
        let size = parts[at].size_bytes;
        if size > u64::MAX - bytes {
            return false;
        }
        bytes += size;
        at += 1;
    }
    true
}

// ---------------------------------------------------------------------------
// The lane
// ---------------------------------------------------------------------------

/// What the blob lane asks for next.
#[derive(Clone, Copy, Debug, PartialEq, Eq, Structural)]
pub enum BlobLaneStep {
    /// Ask for the grants of the next batch.
    Ask,
    /// Upload the current blob.
    Upload,
    /// The round is over: account for it.
    Turn,
    /// Nothing is owed any more.
    Done,
}

/// Where a push stands in its blob lane.
#[verifier::ext_equal]
pub struct BlobLaneModel {
    pub options: PushOptions,
    /// What this round owes.
    pub pending: Seq<RowModel>,
    /// How many blobs of this round are settled.
    pub settled: int,
    /// How many blobs of this round were granted.
    pub granted: int,
    /// What this round leaves to the next.
    pub deferred: Seq<RowModel>,
    /// The parts that had been sent when this round began.
    pub parts_before: u64,
    /// The rounds in a row that moved nothing.
    pub stalled: u32,
}

impl BlobLaneModel {
    pub open spec fn valid(self) -> bool {
        &&& 0 <= self.settled <= self.granted <= self.pending.len()
        &&& self.deferred.len() <= self.settled
        &&& self.stalled == 0 || self.stalled < self.options.max_stalled_replans
    }

    pub open spec fn step(self) -> BlobLaneStep {
        if self.pending.len() == 0 {
            BlobLaneStep::Done
        } else if self.settled == self.pending.len() {
            BlobLaneStep::Turn
        } else if self.settled < self.granted {
            BlobLaneStep::Upload
        } else {
            BlobLaneStep::Ask
        }
    }

    /// Where the batch that begins at the first blob not yet settled ends.
    pub open spec fn batch_end(self) -> int {
        if self.pending.len() - self.settled <= BLOB_GRANT_BATCH {
            self.pending.len() as int
        } else {
            self.settled + BLOB_GRANT_BATCH
        }
    }

    /// The batch.
    pub open spec fn batch(self) -> Seq<RowModel> {
        self.pending.subrange(self.settled, self.batch_end())
    }

    /// The batch goes to the next round.
    pub open spec fn with_batch_deferred(self) -> BlobLaneModel {
        BlobLaneModel {
            settled: self.batch_end(),
            granted: self.batch_end(),
            deferred: self.deferred + self.batch(),
            ..self
        }
    }

    /// The current blob goes to the next round.
    pub open spec fn with_blob_deferred(self) -> BlobLaneModel {
        BlobLaneModel {
            settled: self.settled + 1,
            deferred: self.deferred.push(self.pending[self.settled]),
            ..self
        }
    }

    /// A round moved something if it sent a part, or settled a blob for good.
    pub open spec fn moved(self, parts: u64) -> bool {
        parts > self.parts_before || self.deferred.len() < self.pending.len()
    }

    /// The next round.
    pub open spec fn next_round(self, parts: u64) -> BlobLaneModel {
        BlobLaneModel {
            pending: self.deferred,
            settled: 0,
            granted: 0,
            deferred: Seq::empty(),
            parts_before: parts,
            stalled: if self.moved(parts) {
                0
            } else {
                (self.stalled + 1) as u32
            },
            ..self
        }
    }
}

/// A push in its blob lane.
pub struct BlobLane {
    options: PushOptions,
    pending: Vec<(ObjectDigest, u64)>,
    settled: usize,
    granted: usize,
    deferred: Vec<(ObjectDigest, u64)>,
    parts_before: u64,
    stalled: u32,
}

impl View for BlobLane {
    type V = BlobLaneModel;

    closed spec fn view(&self) -> BlobLaneModel {
        BlobLaneModel {
            options: self.options,
            pending: rows(self.pending@),
            settled: self.settled as int,
            granted: self.granted as int,
            deferred: rows(self.deferred@),
            parts_before: self.parts_before,
            stalled: self.stalled,
        }
    }
}

/// The first grant at or behind `at` for the object `digest`.
pub open spec fn first_blob_grant(grants: Seq<BlobGrant>, digest: Seq<u8>, at: int) -> int
    decreases grants.len() - at,
{
    if at >= grants.len() || grants[at].digest@ == digest {
        at
    } else {
        first_blob_grant(grants, digest, at + 1)
    }
}

/// Whether a report can count one more blob.
pub open spec fn has_room_for_blob(report: PushReport, length: u64) -> bool {
    &&& report.blobs < u64::MAX
    &&& report.uploaded_objects < u64::MAX
    &&& report.uploaded_bytes + length <= u64::MAX
}

impl BlobLane {
    /// A lane that owes `blobs`.
    pub fn new(blobs: Vec<(ObjectDigest, u64)>, options: PushOptions, report: &PushReport) -> (lane: BlobLane)
        ensures
            lane@.valid(),
            lane@ == (BlobLaneModel {
                options,
                pending: rows(blobs@),
                settled: 0,
                granted: 0,
                deferred: Seq::empty(),
                parts_before: report.blob_parts,
                stalled: 0,
            }),
    {
        let lane = BlobLane {
            options,
            pending: blobs,
            settled: 0,
            granted: 0,
            deferred: Vec::new(),
            parts_before: report.blob_parts,
            stalled: 0,
        };
        assert(lane@.deferred =~= Seq::empty());
        lane
    }

    /// What to do next.
    pub fn next(&self) -> (step: BlobLaneStep)
        requires
            self@.valid(),
        ensures
            step == self@.step(),
    {
        if self.pending.len() == 0 {
            BlobLaneStep::Done
        } else if self.settled == self.pending.len() {
            BlobLaneStep::Turn
        } else if self.settled < self.granted {
            BlobLaneStep::Upload
        } else {
            BlobLaneStep::Ask
        }
    }

    fn end_of_batch(&self) -> (end: usize)
        requires
            self@.valid(),
        ensures
            end == self@.batch_end(),
            self@.settled <= end <= self@.pending.len(),
    {
        if self.pending.len() - self.settled <= BLOB_GRANT_BATCH {
            self.pending.len()
        } else {
            self.settled + BLOB_GRANT_BATCH
        }
    }

    /// The digests of the next batch.
    pub fn batch(&self) -> (named: Vec<ObjectDigest>)
        requires
            self@.valid(),
        ensures
            digests(named@) == row_digests(self@.batch()),
            named@.len() <= BLOB_GRANT_BATCH,
    {
        let end = self.end_of_batch();
        let part = vstd::slice::slice_subrange(self.pending.as_slice(), self.settled, end);
        assert(rows(part@) =~= self@.batch());
        let named = digests_of(part);
        assert(digests(named@).len() == row_digests(self@.batch()).len());
        named
    }

    /// The batch was granted.
    pub fn granted(&mut self)
        requires
            old(self)@.valid(),
            old(self)@.step() is Ask,
        ensures
            final(self)@.valid(),
            final(self)@ == (BlobLaneModel { granted: old(self)@.batch_end(), ..old(self)@ }),
    {
        self.granted = self.end_of_batch();
    }

    /// What to do where the batch was not granted: an authorization that ran
    /// out defers the batch, anything else ends the push.
    pub fn not_granted(&mut self, error: TransportError) -> (outcome: Result<(), SyncError>)
        requires
            old(self)@.valid(),
            old(self)@.step() is Ask,
        ensures
            final(self)@.valid(),
            match error {
                TransportError::Expired(_) => outcome is Ok && final(self)@
                    == old(self)@.with_batch_deferred(),
                _ => outcome == Err::<(), SyncError>(SyncError::Transport(error)) && final(self)@
                    == old(self)@,
            },
    {
        if let TransportError::Expired(_) = &error {
            let ghost before = self@;
            let end = self.end_of_batch();
            let mut at: usize = self.settled;
            assert(before.deferred + before.pending.subrange(before.settled, at as int)
                =~= before.deferred);
            while at < end
                invariant
                    before.settled <= at <= end <= self.pending@.len(),
                    end == before.batch_end(),
                    before.pending == rows(self.pending@),
                    rows(self.deferred@) == before.deferred + before.pending.subrange(
                        before.settled,
                        at as int,
                    ),
                    self@ == (BlobLaneModel { deferred: rows(self.deferred@), ..before }),
                    before.valid(),
                decreases end - at,
            {
                let ghost held = rows(self.deferred@);
                let row = self.pending[at];
                self.deferred.push(row);
                proof {
                    assert(rows(self.deferred@) =~= held.push(before.pending[at as int]));
                    assert(rows(self.deferred@) =~= before.deferred + before.pending.subrange(
                        before.settled,
                        at + 1,
                    ));
                }
                at += 1;
            }
            self.settled = end;
            self.granted = end;
            assert(self@ =~= before.with_batch_deferred());
            return Ok(());
        }
        Err(SyncError::Transport(error))
    }

    /// The current blob.
    pub fn current(&self) -> (row: (ObjectDigest, u64))
        requires
            self@.valid(),
            self@.step() is Upload,
        ensures
            (row.0@, row.1) == self@.pending[self@.settled],
    {
        self.pending[self.settled]
    }

    /// The place of the current blob's grant in the remote's answer.
    pub fn grant_of(&self, grants: &[BlobGrant]) -> (found: Result<usize, SyncError>)
        requires
            self@.valid(),
            self@.step() is Upload,
        ensures
            ({
                let digest = self@.pending[self@.settled].0;
                let place = first_blob_grant(grants@, digest, 0);
                if place < grants@.len() {
                    found == Ok::<usize, SyncError>(place as usize)
                } else {
                    &&& found matches Err(SyncError::BlobGrantOmitted(named))
                    &&& named@ == digest
                }
            }),
    {
        let digest = self.pending[self.settled].0;
        let mut at: usize = 0;
        while at < grants.len() && !same_bytes(grants[at].digest.as_bytes(), digest.as_bytes())
            invariant
                at <= grants@.len(),
                first_blob_grant(grants@, digest@, 0) == first_blob_grant(grants@, digest@, at as int),
            decreases grants@.len() - at,
        {
            at += 1;
        }
        if at < grants.len() {
            Ok(at)
        } else {
            Err(SyncError::BlobGrantOmitted(digest))
        }
    }

    /// The current blob is uploaded.
    pub fn uploaded(&mut self, report: &mut PushReport)
        requires
            old(self)@.valid(),
            old(self)@.step() is Upload,
            has_room_for_blob(*old(report), old(self)@.pending[old(self)@.settled].1),
        ensures
            final(self)@.valid(),
            final(self)@ == (BlobLaneModel { settled: old(self)@.settled + 1, ..old(self)@ }),
            *final(report) == (PushReport {
                blobs: (old(report).blobs + 1) as u64,
                uploaded_objects: (old(report).uploaded_objects + 1) as u64,
                uploaded_bytes: (old(report).uploaded_bytes + old(self)@.pending[old(
                    self,
                )@.settled].1) as u64,
                ..*old(report)
            }),
    {
        report.blobs = report.blobs + 1;
        report.uploaded_objects = report.uploaded_objects + 1;
        report.uploaded_bytes = report.uploaded_bytes + self.pending[self.settled].1;
        self.settled = self.settled + 1;
    }

    /// The current blob's authorization ran out.
    pub fn expired(&mut self)
        requires
            old(self)@.valid(),
            old(self)@.step() is Upload,
        ensures
            final(self)@.valid(),
            final(self)@ == old(self)@.with_blob_deferred(),
    {
        let ghost before = self@;
        let row = self.pending[self.settled];
        self.deferred.push(row);
        self.settled = self.settled + 1;
        assert(self@.deferred =~= before.deferred.push(before.pending[before.settled]));
    }

    /// Accounts for a round, and begins the next with what it left.
    pub fn turn(&mut self, report: &mut PushReport) -> (outcome: Result<(), SyncError>)
        requires
            old(self)@.valid(),
            old(self)@.step() is Turn,
            old(report).replans < u32::MAX,
        ensures
            final(self)@.valid(),
            *final(report) == (PushReport { replans: (old(report).replans + 1) as u32, ..*old(report) }),
            ({
                let next = old(self)@.next_round(old(report).blob_parts);
                if next.stalled > 0 && next.stalled >= old(self)@.options.max_stalled_replans {
                    outcome == Err::<(), SyncError>(
                        SyncError::ReplansStalled {
                            rounds: next.stalled,
                            owed: old(self)@.deferred.len() as usize,
                        },
                    ) && final(self)@ == old(self)@
                } else {
                    outcome is Ok && final(self)@ == next
                }
            }),
    {
        let ghost before = self@;
        report.replans = report.replans + 1;
        let mut stalled: u32 = 0;
        if report.blob_parts <= self.parts_before && self.deferred.len() >= self.pending.len() {
            stalled = self.stalled + 1;
            if stalled >= self.options.max_stalled_replans {
                return Err(SyncError::ReplansStalled { rounds: stalled, owed: self.deferred.len() });
            }
        }
        self.stalled = stalled;
        self.parts_before = report.blob_parts;
        self.settled = 0;
        self.granted = 0;
        let mut rest: Vec<(ObjectDigest, u64)> = Vec::new();
        std::mem::swap(&mut rest, &mut self.deferred);
        self.pending = rest;
        assert(self@ =~= before.next_round(report.blob_parts));
        Ok(())
    }
}

/// A round that sent a part or settled a blob costs nothing; only a round that
/// did neither is counted.
pub proof fn only_idle_rounds_are_counted(lane: BlobLaneModel, parts: u64)
    requires
        lane.valid(),
        lane.stalled < u32::MAX,
    ensures
        parts > lane.parts_before || lane.deferred.len() < lane.pending.len() ==> lane.next_round(
            parts,
        ).stalled == 0,
        parts <= lane.parts_before && lane.deferred.len() >= lane.pending.len() ==> lane.next_round(
            parts,
        ).stalled == lane.stalled + 1,
{
}

} // verus!
