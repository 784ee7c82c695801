//! The pack lane: which objects share a pack, and what a push does with the
//! answers that it gets while it sends them.

use super::{
    back_off, pause_millis, rows, tells_lane, lane_fault, verify_lanes, GrantsPlan, PackClaim, PackGrant,
    PushOptions, PushReport, RowModel, StagedPack, SyncError, TransportError,
};
use crate::digest_index::digests;
use crate::object::ObjectDigest;
use crate::text::{hex, push_hex};
use crate::tfp1::{encode, encoded, offered, MAX_PACK_OBJECTS, MAX_PACK_PAYLOAD};
use crate::trusted::{sha256, sha256_digest};
use vstd::prelude::*;

verus! {

// ---------------------------------------------------------------------------
// Which objects share a pack
// ---------------------------------------------------------------------------

/// The bytes of a group of objects.
pub open spec fn payload(group: Seq<RowModel>) -> nat
    decreases group.len(),
{
    if group.len() == 0 {
        0
    } else {
        payload(group.drop_last()) + group.last().1 as nat
    }
}

/// The first `upto` objects in groups, each group in its turn taking the next
/// objects for as long as they fit: at most `limit` bytes, and at most as many
/// objects as a pack holds.
pub open spec fn grouped(list: Seq<RowModel>, limit: u64, upto: int) -> Seq<Seq<RowModel>>
    decreases upto,
{
    if upto <= 0 {
        Seq::empty()
    } else {
        let before = grouped(list, limit, upto - 1);
        let row = list[upto - 1];
        if before.len() > 0 && before.last().len() < MAX_PACK_OBJECTS && payload(before.last())
            + row.1 <= limit {
            before.drop_last().push(before.last().push(row))
        } else {
            before.push(seq![row])
        }
    }
}

/// The groups of a whole list.
pub open spec fn groups_of(list: Seq<RowModel>, limit: u64) -> Seq<Seq<RowModel>> {
    grouped(list, limit, list.len() as int)
}

/// Groups laid end to end.
pub open spec fn laid_out(groups: Seq<Seq<RowModel>>) -> Seq<RowModel>
    decreases groups.len(),
{
    if groups.len() == 0 {
        Seq::empty()
    } else {
        laid_out(groups.drop_last()) + groups.last()
    }
}

proof fn payload_of_pushed(group: Seq<RowModel>, row: RowModel)
    ensures
        payload(group.push(row)) == payload(group) + row.1,
{
    assert(group.push(row).drop_last() =~= group);
}

proof fn groups_are_packs_upto(list: Seq<RowModel>, limit: u64, upto: int)
    requires
        0 <= upto <= list.len(),
    ensures
        laid_out(grouped(list, limit, upto)) == list.take(upto),
        upto > 0 ==> grouped(list, limit, upto).len() > 0,
        forall|g: int|
            0 <= g < grouped(list, limit, upto).len() ==> 0 < (#[trigger] grouped(list, limit, upto)[g]).len()
                <= MAX_PACK_OBJECTS,
        (forall|i: int| 0 <= i < list.len() ==> (#[trigger] list[i]).1 <= limit) ==> forall|g: int|
            0 <= g < grouped(list, limit, upto).len() ==> payload(
                #[trigger] grouped(list, limit, upto)[g],
            ) <= limit,
    decreases upto,
{
    if upto > 0 {
        groups_are_packs_upto(list, limit, upto - 1);
        let before = grouped(list, limit, upto - 1);
        let row = list[upto - 1];
        let groups = grouped(list, limit, upto);
        assert(list.take(upto) =~= list.take(upto - 1).push(row));
        if before.len() > 0 && before.last().len() < MAX_PACK_OBJECTS && payload(before.last())
            + row.1 <= limit {
            payload_of_pushed(before.last(), row);
            assert(groups.drop_last() =~= before.drop_last());
            assert(laid_out(groups) =~= laid_out(before).push(row));
            assert forall|g: int| 0 <= g < groups.len() implies 0 < (#[trigger] groups[g]).len()
                <= MAX_PACK_OBJECTS by {
                if g < groups.len() - 1 {
                    assert(groups[g] == before[g]);
                }
            }
            if forall|i: int| 0 <= i < list.len() ==> (#[trigger] list[i]).1 <= limit {
                assert forall|g: int| 0 <= g < groups.len() implies payload(#[trigger] groups[g])
                    <= limit by {
                    if g < groups.len() - 1 {
                        assert(groups[g] == before[g]);
                    }
                }
            }
        } else {
            assert(groups.drop_last() =~= before);
            assert(laid_out(groups) =~= laid_out(before).push(row));
            assert forall|g: int| 0 <= g < groups.len() implies 0 < (#[trigger] groups[g]).len()
                <= MAX_PACK_OBJECTS by {
                if g < groups.len() - 1 {
                    assert(groups[g] == before[g]);
                }
            }
            if forall|i: int| 0 <= i < list.len() ==> (#[trigger] list[i]).1 <= limit {
                payload_of_pushed(Seq::empty(), row);
                assert(Seq::<RowModel>::empty().push(row) =~= seq![row]);
                assert forall|g: int| 0 <= g < groups.len() implies payload(#[trigger] groups[g])
                    <= limit by {
                    if g < groups.len() - 1 {
                        assert(groups[g] == before[g]);
                    }
                }
            }
        }
    }
}

/// The groups of a list, laid end to end, are the list: no object is left out,
/// none is sent twice, and none changes its place. Each group is a pack: it
/// holds at least one object and no more than a pack may, and where no single
/// object is over the limit, no group is.
pub proof fn groups_are_packs(list: Seq<RowModel>, limit: u64)
    ensures
        laid_out(groups_of(list, limit)) == list,
        forall|g: int|
            0 <= g < groups_of(list, limit).len() ==> 0 < (#[trigger] groups_of(list, limit)[g]).len()
                <= MAX_PACK_OBJECTS,
        (forall|i: int| 0 <= i < list.len() ==> (#[trigger] list[i]).1 <= limit) ==> forall|g: int|
            0 <= g < groups_of(list, limit).len() ==> payload(#[trigger] groups_of(list, limit)[g])
                <= limit,
{
    groups_are_packs_upto(list, limit, list.len() as int);
    assert(list.take(list.len() as int) =~= list);
}

/// The values of a list of groups.
pub open spec fn group_rows(groups: Seq<Vec<(ObjectDigest, u64)>>) -> Seq<Seq<RowModel>> {
    groups.map_values(|group: Vec<(ObjectDigest, u64)>| rows(group@))
}

/// Puts objects into groups, in their order.
pub fn pack_groups(list: &[(ObjectDigest, u64)], limit: u64) -> (groups: Vec<Vec<(ObjectDigest, u64)>>)
    requires
        limit <= MAX_PACK_PAYLOAD,
        forall|i: int| 0 <= i < list@.len() ==> (#[trigger] list@[i]).1 <= limit,
    ensures
        group_rows(groups@) == groups_of(rows(list@), limit),
{
    let ghost models = rows(list@);
    let mut groups: Vec<Vec<(ObjectDigest, u64)>> = Vec::new();
    let mut group: Vec<(ObjectDigest, u64)> = Vec::new();
    let mut bytes: u64 = 0;
    let mut at: usize = 0;
    assert(group_rows(groups@) =~= Seq::<Seq<RowModel>>::empty());
    while at < list.len()
        invariant
            at <= list@.len(),
            models == rows(list@),
            limit <= MAX_PACK_PAYLOAD,
            forall|i: int| 0 <= i < list@.len() ==> (#[trigger] list@[i]).1 <= limit,
            bytes <= limit,
            bytes == payload(rows(group@)),
            at == 0 <==> group@.len() == 0,
            group@.len() == 0 ==> groups@.len() == 0,
            grouped(models, limit, at as int) == (if group@.len() == 0 {
                group_rows(groups@)
            } else {
                group_rows(groups@).push(rows(group@))
            }),
        decreases list@.len() - at,
    {
        let row = list[at];
        let ghost before = grouped(models, limit, at as int);
        let ghost held = rows(group@);
        assert(models[at as int] == (row.0@, row.1));
        assert(list@[at as int].1 <= limit);
        if group.len() > 0 && (bytes + row.1 > limit || group.len() >= MAX_PACK_OBJECTS) {
            let ghost closed = groups@;
            let mut fresh: Vec<(ObjectDigest, u64)> = Vec::new();
            fresh.push(row);
            groups.push(group);
            group = fresh;
            bytes = row.1;
            proof {
                assert(before.last() == held);
                assert(group_rows(groups@) =~= group_rows(closed).push(held));
                assert(rows(group@) =~= seq![models[at as int]]);
                payload_of_pushed(Seq::empty(), models[at as int]);
                assert(Seq::<RowModel>::empty().push(models[at as int]) =~= seq![models[at as int]]);
                assert(grouped(models, limit, at + 1) =~= group_rows(groups@).push(rows(group@)));
            }
        } else {
            group.push(row);
            bytes += row.1;
            proof {
                assert(rows(group@) =~= held.push(models[at as int]));
                payload_of_pushed(held, models[at as int]);
                if held.len() > 0 {
                    assert(before.last() == held);
                    assert(before.drop_last() =~= group_rows(groups@));
                    assert(grouped(models, limit, at + 1) =~= group_rows(groups@).push(rows(group@)));
                } else {
                    assert(rows(group@) =~= seq![models[at as int]]);
                    assert(before =~= Seq::<Seq<RowModel>>::empty());
                    assert(grouped(models, limit, at + 1) =~= group_rows(groups@).push(rows(group@)));
                }
            }
        }
        at += 1;
    }
    if group.len() > 0 {
        let ghost closed = groups@;
        let ghost held = rows(group@);
        groups.push(group);
        assert(group_rows(groups@) =~= group_rows(closed).push(held));
    }
    groups
}

// ---------------------------------------------------------------------------
// Assembling one pack
// ---------------------------------------------------------------------------

/// Refuses a local object whose bytes are not as many as the manifest records.
pub fn check_member(digest: &ObjectDigest, expected: u64, actual: u64) -> (outcome: Result<(), SyncError>)
    ensures
        match outcome {
            Ok(_) => actual == expected,
            Err(e) => actual != expected && e == (SyncError::LocalObjectLength {
                digest: *digest,
                expected,
                actual,
            }),
        },
{
    if actual != expected {
        return Err(SyncError::LocalObjectLength { digest: *digest, expected, actual });
    }
    Ok(())
}

/// The digests of a list of objects.
pub open spec fn row_digests(list: Seq<RowModel>) -> Seq<Seq<u8>> {
    list.map_values(|row: RowModel| row.0)
}

/// What is claimed of a pack: its bytes' own SHA-256 in lowercase hexadecimal
/// digits, their number, and the objects inside.
pub open spec fn claims(claim: PackClaim, pack: Seq<u8>, members: Seq<RowModel>) -> bool {
    &&& claim.sha256@ == hex(sha256(pack))
    &&& claim.size_bytes == pack.len()
    &&& digests(claim.objects@) == row_digests(members)
}

/// The digests of a list of objects, in order.
pub fn digests_of(list: &[(ObjectDigest, u64)]) -> (named: Vec<ObjectDigest>)
    ensures
        digests(named@) == row_digests(rows(list@)),
{
    let mut named: Vec<ObjectDigest> = Vec::new();
    let mut at: usize = 0;
    while at < list.len()
        invariant
            at <= list@.len(),
            named@.len() == at,
            forall|i: int| 0 <= i < at ==> #[trigger] named@[i] == list@[i].0,
        decreases list@.len() - at,
    {
        named.push(list[at].0);
        at += 1;
    }
    assert(digests(named@) =~= row_digests(rows(list@)));
    named
}

/// Lowercase hexadecimal digits, two for each byte.
pub fn lowercase_hex(bytes: &[u8]) -> (text: String)
    ensures
        text@ == hex(bytes@),
{
    let mut text = String::new();
    push_hex(&mut text, bytes);
    assert(text@ =~= hex(bytes@));
    text
}

/// The claim for an encoded pack.
pub fn claim_pack(pack: &[u8], members: &[(ObjectDigest, u64)]) -> (claim: PackClaim)
    ensures
        claims(claim, pack@, rows(members@)),
{
    let size: usize = pack.len();
    PackClaim {
        sha256: lowercase_hex(&sha256_digest(pack)),
        size_bytes: size as u64,
        objects: digests_of(members),
    }
}

/// The objects of a pack: each member's digest with the bytes loaded for it.
pub open spec fn member_pieces(members: Seq<RowModel>, loaded: Seq<Vec<u8>>) -> Seq<(Seq<u8>, Seq<u8>)> {
    Seq::new(members.len(), |i: int| (members[i].0, loaded[i]@))
}

/// Encodes one pack and claims it.
pub fn assemble(members: &[(ObjectDigest, u64)], loaded: &[Vec<u8>]) -> (outcome: Result<
    (Vec<u8>, PackClaim),
    SyncError,
>)
    requires
        loaded@.len() == members@.len(),
    ensures
        match encoded(member_pieces(rows(members@), loaded@)) {
            Ok(pack) => outcome is Ok && outcome->Ok_0.0@ == pack && claims(
                outcome->Ok_0.1,
                pack,
                rows(members@),
            ),
            Err(e) => outcome == Err::<(Vec<u8>, PackClaim), SyncError>(SyncError::Pack(e)),
        },
{
    let mut borrowed: Vec<(ObjectDigest, &[u8])> = Vec::new();
    let mut at: usize = 0;
    while at < members.len()
        invariant
            at <= members@.len(),
            loaded@.len() == members@.len(),
            borrowed@.len() == at,
            forall|i: int|
                0 <= i < at ==> (#[trigger] borrowed@[i]).0 == members@[i].0 && borrowed@[i].1@
                    == loaded@[i]@,
        decreases members@.len() - at,
    {
        borrowed.push((members[at].0, loaded[at].as_slice()));
        at += 1;
    }
    assert(offered(borrowed@) =~= member_pieces(rows(members@), loaded@));
    match encode(&borrowed) {
        Ok(pack) => {
            let claim = claim_pack(&pack, members);
            Ok((pack, claim))
        },
        Err(e) => Err(SyncError::Pack(e)),
    }
}

// ---------------------------------------------------------------------------
// The lane
// ---------------------------------------------------------------------------

/// What the pack lane asks for next.
#[derive(Clone, Copy, Debug, PartialEq, Eq, Structural)]
pub enum PackStep {
    /// Load and encode the members of the current pack, and ask for its grant.
    Assemble,
    /// Ask the remote what is still missing.
    Probe,
    /// Nothing is missing any more.
    Done,
}

/// What becomes of a claimed pack.
#[derive(Clone, Copy, Debug, PartialEq, Eq, Structural)]
pub enum PackAnswer {
    /// Send it under the grant at this place of the answer.
    Upload(usize),
    /// The remote holds it already.
    Staged,
}

/// What becomes of a pack that could not be sent.
#[derive(Clone, Copy, Debug, PartialEq, Eq, Structural)]
pub enum SendAnswer {
    /// Send it again after a pause of so many milliseconds.
    Again(u64),
    /// The authorization ran out: ask what is still missing.
    Replan,
}

/// Where a push stands in its pack lane.
#[verifier::ext_equal]
pub struct PackLaneModel {
    pub options: PushOptions,
    pub limit: u64,
    /// What the remote is missing, as it last said.
    pub missing: Seq<RowModel>,
    /// The groups of this round that are settled.
    pub settled: int,
    /// The failed attempts to send the current pack.
    pub attempts: u32,
    /// The rounds in a row that moved nothing.
    pub stalled: u32,
}

impl PackLaneModel {
    /// The groups of this round.
    pub open spec fn groups(self) -> Seq<Seq<RowModel>> {
        groups_of(self.missing, self.limit)
    }

    pub open spec fn valid(self) -> bool {
        &&& self.limit <= MAX_PACK_PAYLOAD
        &&& forall|i: int| 0 <= i < self.missing.len() ==> (#[trigger] self.missing[i]).1 <= self.limit
        &&& 0 <= self.settled <= self.groups().len()
        &&& self.attempts == 0 || self.attempts < self.options.max_upload_attempts
        &&& self.stalled == 0 || self.stalled < self.options.max_stalled_replans
    }

    pub open spec fn step(self) -> PackStep {
        if self.missing.len() == 0 {
            PackStep::Done
        } else if self.settled < self.groups().len() {
            PackStep::Assemble
        } else {
            PackStep::Probe
        }
    }

    /// The current pack is settled.
    pub open spec fn behind_this_pack(self) -> PackLaneModel {
        PackLaneModel { settled: self.settled + 1, attempts: 0, ..self }
    }

    /// The rest of the round is given up.
    pub open spec fn behind_this_round(self) -> PackLaneModel {
        PackLaneModel { settled: self.groups().len() as int, attempts: 0, ..self }
    }

    /// A new round, where the remote says that `missing` is still owed.
    pub open spec fn next_round(self, missing: Seq<RowModel>) -> PackLaneModel {
        PackLaneModel {
            missing,
            settled: 0,
            attempts: 0,
            stalled: if missing.len() < self.missing.len() {
                0
            } else {
                (self.stalled + 1) as u32
            },
            ..self
        }
    }
}

/// A push in its pack lane.
pub struct PackLane {
    options: PushOptions,
    limit: u64,
    missing: Vec<(ObjectDigest, u64)>,
    groups: Vec<Vec<(ObjectDigest, u64)>>,
    settled: usize,
    attempts: u32,
    stalled: u32,
}

impl View for PackLane {
    type V = PackLaneModel;

    closed spec fn view(&self) -> PackLaneModel {
        PackLaneModel {
            options: self.options,
            limit: self.limit,
            missing: rows(self.missing@),
            settled: self.settled as int,
            attempts: self.attempts,
            stalled: self.stalled,
        }
    }
}

/// The first grant at or behind `at` for the pack named `sha`.
pub open spec fn first_grant(grants: Seq<PackGrant>, sha: Seq<char>, at: int) -> int
    decreases grants.len() - at,
{
    if at >= grants.len() || grants[at].pack_sha256@ == sha {
        at
    } else {
        first_grant(grants, sha, at + 1)
    }
}

/// Whether the remote says that it holds the pack named `sha`.
pub open spec fn is_staged(staged: Seq<StagedPack>, sha: Seq<char>) -> bool {
    exists|i: int|
        0 <= i < staged.len() && (#[trigger] staged[i]).sha256@ == sha && staged[i].staged
}

fn find_grant(grants: &[PackGrant], sha: &String) -> (at: usize)
    ensures
        at == first_grant(grants@, sha@, 0),
        at <= grants@.len(),
{
    let mut at: usize = 0;
    while at < grants.len() && grants[at].pack_sha256 != *sha
        invariant
            at <= grants@.len(),
            first_grant(grants@, sha@, 0) == first_grant(grants@, sha@, at as int),
        decreases grants@.len() - at,
    {
        at += 1;
    }
    at
}

fn find_staged(staged: &[StagedPack], sha: &String) -> (found: bool)
    ensures
        found == is_staged(staged@, sha@),
{
    let mut at: usize = 0;
    while at < staged.len()
        invariant
            at <= staged@.len(),
            forall|i: int| 0 <= i < at ==> !((#[trigger] staged@[i]).sha256@ == sha@ && staged@[i].staged),
        decreases staged@.len() - at,
    {
        if staged[at].sha256 == *sha && staged[at].staged {
            return true;
        }
        at += 1;
    }
    false
}

impl PackLane {
    /// What every lane keeps.
    pub closed spec fn sound(&self) -> bool {
        &&& self@.valid()
        &&& group_rows(self.groups@) == self@.groups()
        &&& self.missing@.len() <= usize::MAX
    }

    /// The lane's model is valid.
    pub proof fn sound_is_valid(&self)
        requires
            self.sound(),
        ensures
            self@.valid(),
    {
    }

    /// A lane that owes `missing`.
    pub fn new(missing: Vec<(ObjectDigest, u64)>, limit: u64, options: PushOptions) -> (lane: PackLane)
        requires
            limit <= MAX_PACK_PAYLOAD,
            forall|i: int| 0 <= i < missing@.len() ==> (#[trigger] missing@[i]).1 <= limit,
        ensures
            lane.sound(),
            lane@ == (PackLaneModel {
                options,
                limit,
                missing: rows(missing@),
                settled: 0,
                attempts: 0,
                stalled: 0,
            }),
    {
        let groups = pack_groups(&missing, limit);
        let count: usize = missing.len();
        let lane = PackLane {
            options,
            limit,
            missing,
            groups,
            settled: 0,
            attempts: 0,
            stalled: 0,
        };
        proof {
            assert forall|i: int| 0 <= i < lane@.missing.len() implies (#[trigger] lane@.missing[i]).1
                <= limit by {
                assert(lane@.missing[i].1 == missing@[i].1);
            }
        }
        lane
    }

    /// What to do next.
    pub fn next(&self) -> (step: PackStep)
        requires
            self.sound(),
        ensures
            step == self@.step(),
    {
        assert(self.groups@.len() == group_rows(self.groups@).len());
        if self.missing.len() == 0 {
            PackStep::Done
        } else if self.settled < self.groups.len() {
            PackStep::Assemble
        } else {
            PackStep::Probe
        }
    }

    /// The members of the current pack.
    pub fn members(&self) -> (members: &[(ObjectDigest, u64)])
        requires
            self.sound(),
            self@.step() is Assemble,
        ensures
            rows(members@) == self@.groups()[self@.settled],
    {
        assert(self.groups@.len() == group_rows(self.groups@).len());
        assert(group_rows(self.groups@)[self.settled as int] == rows(
            self.groups@[self.settled as int]@,
        ));
        &self.groups[self.settled]
    }

    /// What to do under the remote's answer to a claim: send the pack under the
    /// first grant that names it, or pass it over where the remote holds it.
    pub fn granted(&mut self, claim: &PackClaim, plan: &GrantsPlan) -> (outcome: Result<
        PackAnswer,
        SyncError,
    >)
        requires
            old(self).sound(),
            old(self)@.step() is Assemble,
        ensures
            final(self).sound(),
            ({
                let found = first_grant(plan.grants@, claim.sha256@, 0);
                if found < plan.grants@.len() {
                    outcome == Ok::<PackAnswer, SyncError>(PackAnswer::Upload(found as usize))
                        && final(self)@ == old(self)@
                } else if is_staged(plan.staged_packs@, claim.sha256@) {
                    outcome == Ok::<PackAnswer, SyncError>(PackAnswer::Staged) && final(self)@
                        == old(self)@.behind_this_pack()
                } else {
                    &&& outcome matches Err(SyncError::PackGrantOmitted(sha))
                    &&& sha@ == claim.sha256@
                    &&& final(self)@ == old(self)@
                }
            }),
    {
        assert(self.groups@.len() == group_rows(self.groups@).len());
        let found = find_grant(&plan.grants, &claim.sha256);
        if found < plan.grants.len() {
            return Ok(PackAnswer::Upload(found));
        }
        if find_staged(&plan.staged_packs, &claim.sha256) {
            let packs: usize = self.groups.len();
            self.settled = self.settled + 1;
            self.attempts = 0;
            return Ok(PackAnswer::Staged);
        }
        Err(SyncError::PackGrantOmitted(claim.sha256.clone()))
    }

    /// What to do where the claim was not answered: an authorization that ran
    /// out ends the round, anything else ends the push.
    pub fn not_granted(&mut self, error: TransportError) -> (outcome: Result<(), SyncError>)
        requires
            old(self).sound(),
        ensures
            final(self).sound(),
            match error {
                TransportError::Expired(_) => outcome is Ok && final(self)@
                    == old(self)@.behind_this_round(),
                _ => outcome == Err::<(), SyncError>(SyncError::Transport(error)) && final(self)@
                    == old(self)@,
            },
    {
        assert(self.groups@.len() == group_rows(self.groups@).len());
        if let TransportError::Expired(_) = &error {
            self.settled = self.groups.len();
            self.attempts = 0;
            return Ok(());
        }
        Err(SyncError::Transport(error))
    }

    /// The current pack was sent.
    pub fn sent(&mut self, report: &mut PushReport)
        requires
            old(self).sound(),
            old(self)@.step() is Assemble,
            has_room(*old(report), old(self)@.groups()[old(self)@.settled]),
        ensures
            final(self).sound(),
            final(self)@ == old(self)@.behind_this_pack(),
            *final(report) == with_pack(*old(report), old(self)@.groups()[old(self)@.settled]),
    {
        let ghost members = self@.groups()[self@.settled];
        assert(self.groups@.len() == group_rows(self.groups@).len());
        assert(group_rows(self.groups@)[self.settled as int] == rows(
            self.groups@[self.settled as int]@,
        ));
        let packs: usize = self.groups.len();
        let count: usize = self.groups[self.settled].len();
        let bytes = payload_of(&self.groups[self.settled]);
        assert(count == members.len());
        report.uploaded_objects = report.uploaded_objects + count as u64;
        report.uploaded_bytes = report.uploaded_bytes + bytes;
        report.packs = report.packs + 1;
        self.settled = self.settled + 1;
        self.attempts = 0;
    }

    /// What to do where the current pack was not sent. A failure of the carrier
    /// is worth a further attempt, within the bound; an authorization that ran
    /// out ends the round; anything else ends the push.
    pub fn not_sent(&mut self, error: TransportError) -> (outcome: Result<SendAnswer, SyncError>)
        requires
            old(self).sound(),
            old(self)@.step() is Assemble,
        ensures
            final(self).sound(),
            match error {
                TransportError::Io(_) => {
                    let attempts = (old(self)@.attempts + 1) as u32;
                    if attempts >= old(self)@.options.max_upload_attempts {
                        outcome == Err::<SendAnswer, SyncError>(SyncError::Transport(error))
                            && final(self)@ == old(self)@
                    } else {
                        &&& outcome matches Ok(SendAnswer::Again(millis))
                        &&& millis == pause_millis(attempts)
                        &&& final(self)@ == (PackLaneModel { attempts, ..old(self)@ })
                    }
                },
                TransportError::Expired(_) => outcome == Ok::<SendAnswer, SyncError>(
                    SendAnswer::Replan,
                ) && final(self)@ == old(self)@.behind_this_round(),
                TransportError::Refused { .. } => outcome == Err::<SendAnswer, SyncError>(
                    SyncError::Transport(error),
                ) && final(self)@ == old(self)@,
            },
    {
        assert(self.groups@.len() == group_rows(self.groups@).len());
        match &error {
            TransportError::Io(_) => {
                let attempts: u32 = self.attempts + 1;
                if attempts >= self.options.max_upload_attempts {
                    return Err(SyncError::Transport(error));
                }
                self.attempts = attempts;
                Ok(SendAnswer::Again(back_off(attempts)))
            },
            TransportError::Expired(_) => {
                self.settled = self.groups.len();
                self.attempts = 0;
                Ok(SendAnswer::Replan)
            },
            TransportError::Refused { .. } => Err(SyncError::Transport(error)),
        }
    }

    /// What the remote says to be missing after a round: the lanes must hold
    /// against the manifest, and a round that left as much owed as before
    /// counts against the budget.
    pub fn probed(
        &mut self,
        closure: &[(ObjectDigest, u64)],
        plan: GrantsPlan,
        report: &mut PushReport,
    ) -> (outcome: Result<(), SyncError>)
        requires
            old(self).sound(),
            old(report).replans < u32::MAX,
        ensures
            final(self).sound(),
            *final(report) == (PushReport { replans: (old(report).replans + 1) as u32, ..*old(report) }),
            ({
                let missing = rows(plan.missing@);
                let next = old(self)@.next_round(missing);
                match lane_fault(rows(closure@), missing, rows(plan.missing_blobs@), old(self)@.limit) {
                    Some(fault) => outcome is Err && tells_lane(
                        outcome->Err_0,
                        fault,
                        old(self)@.limit,
                    ) && final(self)@ == old(self)@,
                    None => if next.stalled > 0 && next.stalled
                        >= old(self)@.options.max_stalled_replans {
                        outcome == Err::<(), SyncError>(
                            SyncError::ReplansStalled {
                                rounds: next.stalled,
                                owed: missing.len() as usize,
                            },
                        ) && final(self)@ == old(self)@
                    } else {
                        outcome is Ok && final(self)@ == next
                    },
                }
            }),
    {
        report.replans = report.replans + 1;
        verify_lanes(closure, &plan.missing, &plan.missing_blobs, self.limit)?;
        let owed: usize = plan.missing.len();
        let ghost missing = rows(plan.missing@);
        proof {
            super::accepted_lanes_fit(
                rows(closure@),
                missing,
                rows(plan.missing_blobs@),
                self.limit,
            );
            assert forall|i: int| 0 <= i < plan.missing@.len() implies (#[trigger] plan.missing@[i]).1
                <= self.limit by {
                assert(missing[i].1 == plan.missing@[i].1);
            }
        }
        let mut stalled: u32 = 0;
        if owed >= self.missing.len() {
            stalled = self.stalled + 1;
            if stalled >= self.options.max_stalled_replans {
                return Err(SyncError::ReplansStalled { rounds: stalled, owed });
            }
        }
        self.stalled = stalled;
        self.attempts = 0;
        self.settled = 0;
        self.groups = pack_groups(&plan.missing, self.limit);
        self.missing = plan.missing;
        Ok(())
    }
}

/// Whether a report can count one more pack.
pub open spec fn has_room(report: PushReport, members: Seq<RowModel>) -> bool {
    &&& report.uploaded_objects + members.len() <= u64::MAX
    &&& report.uploaded_bytes + payload(members) <= u64::MAX
    &&& report.packs < u64::MAX
}

/// The report with one more pack.
pub open spec fn with_pack(report: PushReport, members: Seq<RowModel>) -> PushReport {
    PushReport {
        uploaded_objects: (report.uploaded_objects + members.len()) as u64,
        uploaded_bytes: (report.uploaded_bytes + payload(members)) as u64,
        packs: (report.packs + 1) as u64,
        ..report
    }
}

proof fn payload_of_prefix(list: Seq<RowModel>, upto: int)
    requires
        0 <= upto <= list.len(),
    ensures
        payload(list.take(upto)) <= payload(list),
    decreases list.len() - upto,
{
    if upto < list.len() {
        assert(list.take(upto + 1).drop_last() =~= list.take(upto));
        payload_of_prefix(list, upto + 1);
    } else {
        assert(list.take(upto) =~= list);
    }
}

fn payload_of(members: &[(ObjectDigest, u64)]) -> (bytes: u64)
    requires
        payload(rows(members@)) <= u64::MAX,
    ensures
        bytes == payload(rows(members@)),
{
    let ghost models = rows(members@);
    let mut bytes: u64 = 0;
    let mut at: usize = 0;
    assert(models.take(0) =~= Seq::empty());
    while at < members.len()
        invariant
            at <= members@.len(),
            models == rows(members@),
            payload(models) <= u64::MAX,
            bytes == payload(models.take(at as int)),
        decreases members@.len() - at,
    {
        proof {
            payload_of_prefix(models, at + 1);
            assert(models.take(at + 1).drop_last() =~= models.take(at as int));
            assert(models[at as int].1 == members@[at as int].1);
        }
        bytes += members[at].1;
        at += 1;
    }
    assert(models.take(at as int) =~= models);
    bytes
}

/// Whether a report can count one more pack of these members.
pub fn can_count(report: &PushReport, members: &[(ObjectDigest, u64)]) -> (yes: bool)
    requires
        payload(rows(members@)) <= u64::MAX,
    ensures
        yes == has_room(*report, rows(members@)),
{
    let bytes = payload_of(members);
    let count: usize = members.len();
    report.uploaded_objects <= u64::MAX - count as u64 && report.uploaded_bytes <= u64::MAX - bytes
        && report.packs < u64::MAX
}

/// A round either leaves less owed, and clears the count of rounds in a row
/// that moved nothing, or is counted, within the budget. So a push that keeps
/// moving objects never runs out of rounds, and one that stands still does.
pub proof fn only_standing_still_is_counted(lane: PackLaneModel, missing: Seq<RowModel>)
    requires
        lane.valid(),
        lane.stalled < u32::MAX,
    ensures
        missing.len() < lane.missing.len() ==> lane.next_round(missing).stalled == 0,
        missing.len() >= lane.missing.len() ==> lane.next_round(missing).stalled == lane.stalled + 1,
{
}

} // verus!
