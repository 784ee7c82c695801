//! A push from its declaration to its end: first the blob lane, then the pack
//! lane, then completion.

use super::blobs::{BlobLane, BlobLaneModel};
use super::packs::{digests_of, row_digests, PackLane, PackLaneModel};
use super::{
    accepted_lanes_fit, back_off, lane_fault, max_payload, payload_limit, pause_millis, rows, tells_lane,
    verify_lanes, CompleteStatus, GrantsPlan, PushOptions, PushReport, RowModel, SyncError, SyncPlan,
    TransportError,
};
use crate::digest_index::{digests, DigestIndex};
use crate::object::ObjectDigest;
use crate::text::same_bytes;
use crate::tfm1::SnapshotId;
use vstd::prelude::*;

verus! {

// ---------------------------------------------------------------------------
// What the remote holds already
// ---------------------------------------------------------------------------

/// The length that a closure records for an object, if the object is in it.
pub open spec fn recorded(closure: Seq<RowModel>, digest: Seq<u8>) -> Option<u64> {
    if exists|i: int| 0 <= i < closure.len() && (#[trigger] closure[i]).0 == digest {
        Some(closure[choose|i: int| 0 <= i < closure.len() && (#[trigger] closure[i]).0 == digest].1)
    } else {
        None
    }
}

/// The objects of the closure among the first `upto` digests, each with its
/// recorded length.
pub open spec fn known_rows(closure: Seq<RowModel>, have: Seq<Seq<u8>>, upto: int) -> Seq<RowModel>
    decreases upto,
{
    if upto <= 0 {
        Seq::empty()
    } else {
        match recorded(closure, have[upto - 1]) {
            Some(length) => known_rows(closure, have, upto - 1).push((have[upto - 1], length)),
            None => known_rows(closure, have, upto - 1),
        }
    }
}

proof fn recorded_is(closure: Seq<RowModel>, digest: Seq<u8>, at: int)
    requires
        super::names_once(closure),
        0 <= at < closure.len(),
        closure[at].0 == digest,
    ensures
        recorded(closure, digest) == Some(closure[at].1),
{
    let i = choose|i: int| 0 <= i < closure.len() && (#[trigger] closure[i]).0 == digest;
    if i < at {
        assert(closure[i].0 != closure[at].0);
    } else if at < i {
        assert(closure[at].0 != closure[i].0);
    }
}

/// The objects of the closure that the remote says it holds.
pub fn resident_rows(closure: &[(ObjectDigest, u64)], have: &[ObjectDigest]) -> (list: Vec<(ObjectDigest, u64)>)
    requires
        super::names_once(rows(closure@)),
    ensures
        rows(list@) == known_rows(rows(closure@), digests(have@), have@.len() as int),
{
    let ghost models = rows(closure@);
    let ghost names = digests(have@);
    let named = digests_of(closure);
    let ghost keys = digests(named@);
    let index = DigestIndex::new(&named);
    let mut list: Vec<(ObjectDigest, u64)> = Vec::new();
    let mut at: usize = 0;
    assert(rows(list@) =~= known_rows(models, names, 0));
    while at < have.len()
        invariant
            at <= have@.len(),
            models == rows(closure@),
            names == digests(have@),
            keys == row_digests(models),
            super::names_once(models),
            index.of(keys),
            rows(list@) == known_rows(models, names, at as int),
        decreases have@.len() - at,
    {
        let ghost held = rows(list@);
        assert(names[at as int] == have@[at as int]@);
        match index.find(&have[at], Ghost(keys)) {
            Some(place) => {
                list.push((have[at], closure[place].1));
                proof {
                    assert(keys[place as int] == models[place as int].0);
                    recorded_is(models, names[at as int], place as int);
                    assert(models[place as int].1 == closure@[place as int].1);
                    assert(rows(list@) =~= held.push((names[at as int], closure@[place as int].1)));
                }
            },
            None => {
                proof {
                    assert forall|i: int| 0 <= i < models.len() implies (#[trigger] models[i]).0
                        != names[at as int] by {
                        assert(keys[i] == models[i].0);
                    }
                    assert(recorded(models, names[at as int]) is None);
                }
            },
        }
        at += 1;
    }
    list
}

// ---------------------------------------------------------------------------
// The stages of a push
// ---------------------------------------------------------------------------

/// How a push goes on after a call to complete it.
#[derive(Clone, Copy, Debug, PartialEq, Eq, Structural)]
pub enum CompleteStep {
    /// The push is done.
    Promoted,
    /// Call again at once: objects were admitted since the last call.
    Poll,
    /// Call again after a pause of so many milliseconds.
    Wait(u64),
}

/// Completion: how many objects the remote has admitted, and the calls in a
/// row that admitted none.
#[derive(Clone, Copy, Debug, PartialEq, Eq, Structural)]
pub struct Completion {
    pub admitted: u64,
    pub stalls: u32,
}

/// Accounts for one call that admitted nothing.
pub open spec fn idle_call(
    state: Completion,
    options: PushOptions,
    failure: SyncError,
    after: Completion,
    outcome: Result<CompleteStep, SyncError>,
) -> bool {
    let stalls = (state.stalls + 1) as u32;
    if stalls >= options.max_completion_stalls {
        outcome == Err::<CompleteStep, SyncError>(failure) && after == state
    } else {
        &&& outcome matches Ok(CompleteStep::Wait(millis))
        &&& millis == pause_millis(stalls)
        &&& after == (Completion { admitted: state.admitted, stalls })
    }
}

impl Completion {
    pub open spec fn valid(self, options: PushOptions) -> bool {
        self.stalls == 0 || self.stalls < options.max_completion_stalls
    }

    pub fn new() -> (state: Completion)
        ensures
            state == (Completion { admitted: 0, stalls: 0 }),
    {
        Completion { admitted: 0, stalls: 0 }
    }

    /// What to do under the answer to one call. While the remote admits more
    /// objects, the push polls on for free; a call that admitted none, and one
    /// that the carrier lost, count against the budget; a terminal answer ends
    /// the push.
    pub fn answered(
        &mut self,
        answer: Result<CompleteStatus, TransportError>,
        options: &PushOptions,
        report: &mut PushReport,
    ) -> (outcome: Result<CompleteStep, SyncError>)
        requires
            old(self).valid(*options),
            old(report).complete_attempts < u32::MAX,
        ensures
            final(self).valid(*options),
            *final(report) == (PushReport {
                complete_attempts: (old(report).complete_attempts + 1) as u32,
                ..*old(report)
            }),
            match answer {
                Ok(CompleteStatus::Promoted) => outcome == Ok::<CompleteStep, SyncError>(
                    CompleteStep::Promoted,
                ) && *final(self) == *old(self),
                Ok(CompleteStatus::Incomplete { code, promoted, .. }) => if promoted > old(
                    self,
                ).admitted {
                    outcome == Ok::<CompleteStep, SyncError>(CompleteStep::Poll) && *final(self) == (
                    Completion { admitted: promoted, stalls: 0 })
                } else {
                    idle_call(
                        *old(self),
                        *options,
                        SyncError::CompletionStalled {
                            stalls: (old(self).stalls + 1) as u32,
                            promoted: old(self).admitted,
                            last: code,
                        },
                        *final(self),
                        outcome,
                    )
                },
                Ok(CompleteStatus::Failed { code }) => outcome == Err::<CompleteStep, SyncError>(
                    SyncError::HeadRefused { code },
                ) && *final(self) == *old(self),
                Err(error) => if error is Io {
                    idle_call(
                        *old(self),
                        *options,
                        SyncError::Transport(error),
                        *final(self),
                        outcome,
                    )
                } else {
                    outcome == Err::<CompleteStep, SyncError>(SyncError::Transport(error))
                        && *final(self) == *old(self)
                },
            },
    {
        report.complete_attempts = report.complete_attempts + 1;
        match answer {
            Ok(CompleteStatus::Promoted) => Ok(CompleteStep::Promoted),
            Ok(CompleteStatus::Incomplete { code, promoted, .. }) => {
                if promoted > self.admitted {
                    self.admitted = promoted;
                    self.stalls = 0;
                    return Ok(CompleteStep::Poll);
                }
                let stalls: u32 = self.stalls + 1;
                if stalls >= options.max_completion_stalls {
                    return Err(
                        SyncError::CompletionStalled { stalls, promoted: self.admitted, last: code },
                    );
                }
                self.stalls = stalls;
                Ok(CompleteStep::Wait(back_off(stalls)))
            },
            Ok(CompleteStatus::Failed { code }) => Err(SyncError::HeadRefused { code }),
            Err(error) => {
                if let TransportError::Io(_) = &error {
                    let stalls: u32 = self.stalls + 1;
                    if stalls >= options.max_completion_stalls {
                        return Err(SyncError::Transport(error));
                    }
                    self.stalls = stalls;
                    return Ok(CompleteStep::Wait(back_off(stalls)));
                }
                Err(SyncError::Transport(error))
            },
        }
    }
}

/// What a push has to do once its manifest is declared.
pub struct Push {
    /// The largest payload of one pack.
    pub limit: u64,
    pub report: PushReport,
    /// The objects that the remote holds already.
    pub resident: Vec<(ObjectDigest, u64)>,
    /// The blob lane.
    pub blobs: BlobLane,
    /// The pack lane, for a push that has no blobs to send.
    pub packs: PackLane,
}

/// The report of a push that has moved nothing yet.
pub open spec fn first_report(have: nat) -> PushReport {
    PushReport {
        uploaded_objects: 0,
        uploaded_bytes: 0,
        packs: 0,
        blobs: 0,
        blob_parts: 0,
        skipped_remote_resident: have as u64,
        complete_attempts: 0,
        replans: 0,
    }
}

/// Begins a push under the remote's answer to its declaration. The remote must
/// have computed the same identity, and the lanes must hold against the
/// manifest.
pub fn begin_push(
    snapshot: &SnapshotId,
    closure: &[(ObjectDigest, u64)],
    plan: SyncPlan,
    options: PushOptions,
) -> (outcome: Result<Push, SyncError>)
    requires
        super::names_once(rows(closure@)),
    ensures
        ({
            let limit = payload_limit(plan.max_pack_payload);
            if plan.snapshot_id@ != snapshot@ {
                outcome == Err::<Push, SyncError>(
                    SyncError::IdentityMismatch { local: *snapshot, remote: plan.snapshot_id },
                )
            } else {
                match lane_fault(rows(closure@), rows(plan.missing@), rows(plan.missing_blobs@), limit) {
                    Some(fault) => outcome is Err && tells_lane(outcome->Err_0, fault, limit),
                    None => {
                        &&& outcome matches Ok(push)
                        &&& push.limit == limit
                        &&& push.report == first_report(plan.have@.len())
                        &&& rows(push.resident@) == known_rows(
                            rows(closure@),
                            digests(plan.have@),
                            plan.have@.len() as int,
                        )
                        &&& push.blobs@.valid()
                        &&& push.blobs@ == (BlobLaneModel {
                            options,
                            pending: rows(plan.missing_blobs@),
                            settled: 0,
                            granted: 0,
                            deferred: Seq::empty(),
                            parts_before: 0,
                            stalled: 0,
                        })
                        &&& push.packs.sound()
                        &&& push.packs@ == first_round(rows(plan.missing@), limit, options)
                    },
                }
            }
        }),
{
    if !same_bytes(plan.snapshot_id.as_bytes(), snapshot.as_bytes()) {
        return Err(SyncError::IdentityMismatch { local: *snapshot, remote: plan.snapshot_id });
    }
    let limit = max_payload(plan.max_pack_payload);
    verify_lanes(closure, &plan.missing, &plan.missing_blobs, limit)?;
    let mut report = PushReport::default();
    let held: usize = plan.have.len();
    report.skipped_remote_resident = held as u64;
    let resident = resident_rows(closure, &plan.have);
    let blobs = BlobLane::new(plan.missing_blobs, options, &report);
    proof {
        accepted_lanes_fit(rows(closure@), rows(plan.missing@), rows(plan.missing_blobs@), limit);
        assert forall|i: int| 0 <= i < plan.missing@.len() implies (#[trigger] plan.missing@[i]).1 <= limit by {
            assert(rows(plan.missing@)[i].1 == plan.missing@[i].1);
        }
    }
    let packs = PackLane::new(plan.missing, limit, options);
    Ok(Push { limit, report, resident, blobs, packs })
}

/// A pack lane before its first pack.
pub open spec fn first_round(missing: Seq<RowModel>, limit: u64, options: PushOptions) -> PackLaneModel {
    PackLaneModel { options, limit, missing, settled: 0, attempts: 0, stalled: 0 }
}

/// The pack lane after the blob lane: the remote says anew what it is missing.
/// A blob still missing then was not accepted.
pub fn after_blobs(
    closure: &[(ObjectDigest, u64)],
    plan: GrantsPlan,
    limit: u64,
    options: PushOptions,
) -> (outcome: Result<PackLane, SyncError>)
    requires
        limit <= crate::tfp1::MAX_PACK_PAYLOAD,
    ensures
        match lane_fault(rows(closure@), rows(plan.missing@), rows(plan.missing_blobs@), limit) {
            Some(fault) => outcome is Err && tells_lane(outcome->Err_0, fault, limit),
            None => if plan.missing_blobs@.len() > 0 {
                outcome == Err::<PackLane, SyncError>(
                    SyncError::BlobNotAccepted(plan.missing_blobs@[0].0),
                )
            } else {
                &&& outcome matches Ok(lane)
                &&& lane.sound()
                &&& lane@ == first_round(rows(plan.missing@), limit, options)
            },
        },
{
    verify_lanes(closure, &plan.missing, &plan.missing_blobs, limit)?;
    if plan.missing_blobs.len() > 0 {
        return Err(SyncError::BlobNotAccepted(plan.missing_blobs[0].0));
    }
    proof {
        accepted_lanes_fit(rows(closure@), rows(plan.missing@), rows(plan.missing_blobs@), limit);
        assert forall|i: int| 0 <= i < plan.missing@.len() implies (#[trigger] plan.missing@[i]).1 <= limit by {
            assert(rows(plan.missing@)[i].1 == plan.missing@[i].1);
        }
    }
    Ok(PackLane::new(plan.missing, limit, options))
}

} // verus!
