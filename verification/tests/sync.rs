use tensorfs_core::object::ObjectDigest;
use tensorfs_core::planner::PlannerId;
use tensorfs_core::sync::blobs::{
    parts_fit, BlobLane, BlobLaneStep, BlobStep, BlobUpload, PartAnswer,
};
use tensorfs_core::sync::http::{
    base_url, bearer_of, check_download, complete_status, declaration, download_refusal, missing_pairs,
    pack_refusal, parse_head, parse_ref, parse_refs, parse_snapshot_id, part_etag, part_refusal, refuse,
    route, states_length, tagged, CompleteAnswer,
};
use tensorfs_core::sync::packs::{
    assemble, can_count, check_member, pack_groups, PackAnswer, PackLane, PackStep, SendAnswer,
};
use tensorfs_core::sync::pull::{accept_manifest, find_download, pull_head, Pull, PullStep};
use tensorfs_core::sync::push::{after_blobs, begin_push, CompleteStep, Completion};
use tensorfs_core::sync::{
    back_off, data_closure, manifest_object_digest, max_payload, verify_canonical_missing, verify_lanes,
    BlobGrant, BlobPart, CompleteStatus, DownloadGrant, GrantsPlan, Lane, PackGrant, Progress,
    PullReport, PushOptions, PushReport, StagedPack, SyncError, SyncPlan, TransportError,
};
use tensorfs_core::tfm1::builder::SnapshotBuilder;
use tensorfs_core::tfm1::{FileRecord, SnapshotId, Tfm1Error};
use tensorfs_core::tfp1::{encode, Tfp1Error, MAX_PACK_PAYLOAD};

fn digest(byte: u8) -> ObjectDigest {
    ObjectDigest::from_bytes([byte; 32])
}

fn named(bytes: &[u8]) -> ObjectDigest {
    ObjectDigest::from_bytes(*SnapshotId::of(bytes).as_bytes())
}

fn options() -> PushOptions {
    PushOptions { max_stalled_replans: 2, max_upload_attempts: 3, max_completion_stalls: 2 }
}

fn expired() -> TransportError {
    TransportError::Expired("late".to_owned())
}

fn lost() -> TransportError {
    TransportError::Io("reset".to_owned())
}

fn refused() -> TransportError {
    TransportError::Refused { code: "no".to_owned(), detail: String::new() }
}

fn grants(missing: Vec<(ObjectDigest, u64)>, blobs: Vec<(ObjectDigest, u64)>) -> GrantsPlan {
    GrantsPlan { grants: Vec::new(), staged_packs: Vec::new(), missing, missing_blobs: blobs }
}

#[test]
fn a_closure_names_every_object_once_in_first_use_order() {
    let data = |byte, length| FileRecord::Data { digest: digest(byte), length };
    let mut builder = SnapshotBuilder::new(None);
    builder.file("a".to_owned(), false, PlannerId::BlobV1, vec![data(2, 5)]);
    builder.file(
        "b".to_owned(),
        false,
        PlannerId::SafetensorsV1,
        vec![data(1, 3), FileRecord::Hole { length: 4 }, data(2, 5)],
    );
    builder.file("c".to_owned(), false, PlannerId::BlobV1, vec![]);
    let snapshot = builder.finish().unwrap();
    assert_eq!(data_closure(&snapshot), [(digest(2), 5), (digest(1), 3)]);
}

#[test]
fn what_is_missing_must_be_of_the_closure_and_in_its_order() {
    let closure = [(digest(1), 10), (digest(2), 20), (digest(3), 30)];
    assert_eq!(verify_canonical_missing(&closure, &[]), Ok(()));
    assert_eq!(verify_canonical_missing(&closure, &[closure[0], closure[2]]), Ok(()));
    assert_eq!(
        verify_canonical_missing(&closure, &[closure[2], closure[0]]),
        Err(SyncError::MissingNotCanonical { digest: digest(1) })
    );
    assert_eq!(
        verify_canonical_missing(&closure, &[(digest(9), 1)]),
        Err(SyncError::MissingNotCanonical { digest: digest(9) })
    );
    assert_eq!(
        verify_canonical_missing(&closure, &[(digest(2), 21)]),
        Err(SyncError::MissingLength { digest: digest(2), expected: 20, actual: 21 })
    );
}

#[test]
fn an_objects_size_decides_its_lane() {
    let closure = [(digest(1), 10), (digest(2), 20)];
    assert_eq!(verify_lanes(&closure, &[closure[0]], &[closure[1]], 10), Ok(()));
    assert_eq!(
        verify_lanes(&closure, &[closure[1]], &[], 10),
        Err(SyncError::BlobLaneMismatch { digest: digest(2), length: 20, limit: 10, lane: Lane::Pack })
    );
    assert_eq!(
        verify_lanes(&closure, &[], &[closure[0]], 10),
        Err(SyncError::BlobLaneMismatch { digest: digest(1), length: 10, limit: 10, lane: Lane::Blob })
    );
    assert_eq!(Lane::Pack.as_str(), "pack");
    assert_eq!(Lane::Blob.as_str(), "blob");
    assert_eq!(max_payload(10), 10);
    assert_eq!(max_payload(u64::MAX), MAX_PACK_PAYLOAD);
}

#[test]
fn pauses_double_up_to_eight_seconds() {
    let pauses: Vec<u64> = (0..8).map(back_off).collect();
    assert_eq!(pauses, [250, 500, 1000, 2000, 4000, 8000, 8000, 8000]);
    assert_eq!(Progress::of_bytes(0), None);
    assert_eq!(Progress::of_bytes(3), Some(Progress::Bytes(3)));
}

#[test]
fn groups_fill_up_in_order() {
    let rows = [(digest(1), 4), (digest(2), 4), (digest(3), 7), (digest(4), 1)];
    let groups = pack_groups(&rows, 8);
    assert_eq!(groups, [vec![rows[0], rows[1]], vec![rows[2], rows[3]]]);
    assert_eq!(groups.concat(), rows);
    assert!(pack_groups(&[], 8).is_empty());
}

#[test]
fn a_pack_is_claimed_by_its_own_digest() {
    let members = [(named(b"a"), 1), (named(b"bb"), 2)];
    let (pack, claim) = assemble(&members, &[b"a".to_vec(), b"bb".to_vec()]).unwrap();
    assert_eq!(pack, encode(&[(named(b"a"), b"a"), (named(b"bb"), b"bb")]).unwrap());
    assert_eq!(claim.sha256, SnapshotId::of(&pack).to_text());
    assert_eq!(claim.size_bytes, pack.len() as u64);
    assert_eq!(claim.objects, [named(b"a"), named(b"bb")]);
    assert_eq!(
        assemble(&members[..1], &[b"x".to_vec()]),
        Err(SyncError::Pack(Tfp1Error::DigestMismatch))
    );
    assert_eq!(check_member(&digest(1), 4, 4), Ok(()));
    assert_eq!(
        check_member(&digest(1), 4, 5),
        Err(SyncError::LocalObjectLength { digest: digest(1), expected: 4, actual: 5 })
    );
}

fn claimed(sha256: &str) -> tensorfs_core::sync::PackClaim {
    tensorfs_core::sync::PackClaim { sha256: sha256.to_owned(), size_bytes: 1, objects: Vec::new() }
}

#[test]
fn a_pack_lane_sends_probes_and_ends() {
    let closure = [(digest(1), 6), (digest(2), 6)];
    let mut report = PushReport::default();
    let mut lane = PackLane::new(closure.to_vec(), 8, options());
    assert_eq!(lane.next(), PackStep::Assemble);
    assert_eq!(lane.members(), [closure[0]]);

    let mut plan = grants(Vec::new(), Vec::new());
    plan.grants.push(PackGrant {
        pack_sha256: "p".to_owned(),
        staging_key: String::new(),
        url: String::new(),
        headers: Vec::new(),
    });
    plan.staged_packs.push(StagedPack { sha256: "q".to_owned(), staged: true });
    assert_eq!(lane.granted(&claimed("p"), &plan), Ok(PackAnswer::Upload(0)));
    assert_eq!(lane.not_sent(lost()), Ok(SendAnswer::Again(500)));
    assert_eq!(lane.not_sent(lost()), Ok(SendAnswer::Again(1000)));
    assert_eq!(lane.not_sent(lost()), Err(SyncError::Transport(lost())));
    assert!(can_count(&report, lane.members()));
    lane.sent(&mut report);
    assert_eq!(lane.members(), [closure[1]]);
    assert_eq!(lane.granted(&claimed("q"), &plan), Ok(PackAnswer::Staged));
    assert_eq!(lane.next(), PackStep::Probe);
    assert_eq!(report.uploaded_objects, 1);
    assert_eq!(report.uploaded_bytes, 6);
    assert_eq!(report.packs, 1);

    lane.probed(&closure, grants(vec![closure[1]], Vec::new()), &mut report).unwrap();
    assert_eq!(lane.next(), PackStep::Assemble);
    assert_eq!(
        lane.granted(&claimed("r"), &plan),
        Err(SyncError::PackGrantOmitted("r".to_owned()))
    );
    assert_eq!(lane.not_sent(expired()), Ok(SendAnswer::Replan));
    assert_eq!(lane.next(), PackStep::Probe);
    lane.probed(&closure, grants(Vec::new(), Vec::new()), &mut report).unwrap();
    assert_eq!(lane.next(), PackStep::Done);
    assert_eq!(report.replans, 2);
}

#[test]
fn only_rounds_that_stand_still_are_counted() {
    let closure = [(digest(1), 6), (digest(2), 6)];
    let mut report = PushReport::default();
    let mut lane = PackLane::new(closure.to_vec(), 8, options());
    lane.not_granted(expired()).unwrap();
    lane.probed(&closure, grants(closure.to_vec(), Vec::new()), &mut report).unwrap();
    lane.not_granted(expired()).unwrap();
    lane.probed(&closure, grants(vec![closure[0]], Vec::new()), &mut report).unwrap();
    lane.not_granted(expired()).unwrap();
    lane.probed(&closure, grants(vec![closure[0]], Vec::new()), &mut report).unwrap();
    lane.not_granted(expired()).unwrap();
    assert_eq!(
        lane.probed(&closure, grants(vec![closure[0]], Vec::new()), &mut report),
        Err(SyncError::ReplansStalled { rounds: 2, owed: 1 })
    );
    assert_eq!(lane.not_granted(refused()), Err(SyncError::Transport(refused())));
}

fn part(number: u32, size: u64) -> BlobPart {
    BlobPart { part_number: number, size_bytes: size, url: String::new(), headers: Vec::new() }
}

fn blob_grant(parts: Vec<BlobPart>, held: Vec<u32>) -> BlobGrant {
    BlobGrant {
        digest: digest(7),
        length: parts.iter().map(|part| part.size_bytes).sum(),
        staging_key: String::new(),
        upload_id: String::new(),
        part_size: 4,
        parts,
        uploaded_parts: held,
    }
}

#[test]
fn a_blob_is_sent_part_by_part() {
    let parts = vec![part(1, 4), part(2, 4), part(3, 2)];
    assert!(parts_fit(&parts));
    assert!(!parts_fit(&[part(1, u64::MAX), part(2, 1)]));
    let mut report = PushReport::default();
    let mut upload = BlobUpload::open(blob_grant(parts, vec![2]), 10, options()).unwrap();
    assert_eq!(upload.next(), BlobStep::Send { index: 0, start: 0, size: 4 });
    assert_eq!(upload.not_sent(lost()), Ok(PartAnswer::Again(500)));
    upload.sent("e1".to_owned(), &mut report);
    assert_eq!(upload.next(), BlobStep::Send { index: 2, start: 8, size: 2 });
    assert_eq!(upload.not_sent(lost()), Ok(PartAnswer::Again(500)));
    assert_eq!(upload.not_sent(lost()), Ok(PartAnswer::Again(1000)));
    assert_eq!(
        upload.not_sent(lost()),
        Err(SyncError::BlobPartAttemptsExhausted { digest: digest(7), attempts: 3 })
    );
    upload.sent("e3".to_owned(), &mut report);
    assert_eq!(upload.next(), BlobStep::Finish { report: true });
    let landed: Vec<(u32, &str)> =
        upload.landed().iter().map(|part| (part.part_number, part.etag.as_str())).collect();
    assert_eq!(landed, [(1, "e1"), (3, "e3")]);
    assert_eq!(report.blob_parts, 2);
    assert_eq!(upload.grant().digest, digest(7));
}

#[test]
fn a_grant_must_cover_its_blob() {
    let mut grant = blob_grant(vec![part(1, 4)], Vec::new());
    assert_eq!(
        BlobUpload::open(grant.clone(), 5, options()).err(),
        Some(SyncError::MissingLength { digest: digest(7), expected: 5, actual: 4 })
    );
    grant.length = 5;
    assert_eq!(
        BlobUpload::open(grant, 5, options()).err(),
        Some(SyncError::BlobPartCoverage { digest: digest(7), length: 5, granted: 4 })
    );
    let whole = blob_grant(vec![part(1, 4)], vec![1]);
    let upload = BlobUpload::open(whole, 4, options()).unwrap();
    assert_eq!(upload.next(), BlobStep::Finish { report: false });
    let mut late = BlobUpload::open(blob_grant(vec![part(1, 4)], Vec::new()), 4, options()).unwrap();
    assert_eq!(late.not_sent(expired()), Ok(PartAnswer::Expired { report: false }));
    assert_eq!(late.not_sent(refused()), Err(SyncError::Transport(refused())));
}

#[test]
fn a_blob_lane_asks_uploads_and_turns() {
    let blobs: Vec<(ObjectDigest, u64)> = (0..18).map(|byte| (digest(byte), 100)).collect();
    let mut report = PushReport::default();
    let mut lane = BlobLane::new(blobs.clone(), options(), &report);
    assert_eq!(lane.next(), BlobLaneStep::Ask);
    assert_eq!(lane.batch().len(), 16);
    lane.granted();
    for row in &blobs[..16] {
        assert_eq!(lane.next(), BlobLaneStep::Upload);
        assert_eq!(lane.current(), *row);
        lane.uploaded(&mut report);
    }
    assert_eq!(lane.batch(), [digest(16), digest(17)]);
    lane.granted();
    let mut grant = blob_grant(vec![part(1, 100)], Vec::new());
    assert_eq!(
        lane.grant_of(&[grant.clone()]),
        Err(SyncError::BlobGrantOmitted(digest(16)))
    );
    grant.digest = digest(16);
    assert_eq!(lane.grant_of(&[grant]), Ok(0));
    lane.expired();
    lane.uploaded(&mut report);
    assert_eq!(lane.next(), BlobLaneStep::Turn);
    lane.turn(&mut report).unwrap();
    assert_eq!(report.replans, 1);
    assert_eq!(report.blobs, 17);
    assert_eq!(report.uploaded_objects, 17);
    assert_eq!(report.uploaded_bytes, 1700);
    assert_eq!(lane.batch(), [digest(16)]);

    lane.not_granted(expired()).unwrap();
    lane.turn(&mut report).unwrap();
    lane.not_granted(expired()).unwrap();
    assert_eq!(
        lane.turn(&mut report),
        Err(SyncError::ReplansStalled { rounds: 2, owed: 1 })
    );
    assert_eq!(BlobLane::new(Vec::new(), options(), &report).next(), BlobLaneStep::Done);
}

fn plan(id: SnapshotId) -> SyncPlan {
    SyncPlan {
        snapshot_id: id,
        session: String::new(),
        have: vec![digest(3), digest(9)],
        staged_packs: Vec::new(),
        missing: vec![(digest(1), 5)],
        missing_blobs: vec![(digest(2), 50)],
        max_pack_payload: 10,
        max_packs_per_request: 1,
    }
}

#[test]
fn a_push_begins_with_what_the_remote_is_missing() {
    let closure = [(digest(1), 5), (digest(2), 50), (digest(3), 7)];
    let id = SnapshotId::from_bytes([1; 32]);
    let push = begin_push(&id, &closure, plan(id), options()).unwrap();
    assert_eq!(push.limit, 10);
    assert_eq!(push.report.skipped_remote_resident, 2);
    assert_eq!(push.resident, [(digest(3), 7)]);
    assert_eq!(push.blobs.batch(), [digest(2)]);
    assert_eq!(push.packs.members(), [(digest(1), 5)]);

    let other = SnapshotId::from_bytes([2; 32]);
    assert_eq!(
        begin_push(&id, &closure, plan(other), options()).err(),
        Some(SyncError::IdentityMismatch { local: id, remote: other })
    );
    assert!(matches!(
        begin_push(&id, &closure[1..], plan(id), options()),
        Err(SyncError::MissingNotCanonical { .. })
    ));

    let lane = after_blobs(&closure, grants(vec![closure[0]], Vec::new()), 10, options()).unwrap();
    assert_eq!(lane.members(), [closure[0]]);
    assert_eq!(
        after_blobs(&closure, grants(Vec::new(), vec![closure[1]]), 10, options()).err(),
        Some(SyncError::BlobNotAccepted(digest(2)))
    );
}

#[test]
fn completion_polls_while_objects_are_admitted() {
    let incomplete = |promoted| {
        Ok(CompleteStatus::Incomplete { code: "busy".to_owned(), promoted, total: 9 })
    };
    let mut report = PushReport::default();
    let mut state = Completion::new();
    assert_eq!(state.answered(incomplete(3), &options(), &mut report), Ok(CompleteStep::Poll));
    assert_eq!(state.answered(incomplete(3), &options(), &mut report), Ok(CompleteStep::Wait(500)));
    assert_eq!(state.answered(incomplete(4), &options(), &mut report), Ok(CompleteStep::Poll));
    assert_eq!(state.answered(Err(lost()), &options(), &mut report), Ok(CompleteStep::Wait(500)));
    assert_eq!(
        state.answered(incomplete(4), &options(), &mut report),
        Err(SyncError::CompletionStalled { stalls: 2, promoted: 4, last: "busy".to_owned() })
    );
    assert_eq!(
        state.answered(Err(lost()), &options(), &mut report),
        Err(SyncError::Transport(lost()))
    );
    assert_eq!(
        state.answered(Err(refused()), &options(), &mut report),
        Err(SyncError::Transport(refused()))
    );
    let failed = Ok(CompleteStatus::Failed { code: "head-moved".to_owned() });
    assert_eq!(
        state.answered(failed, &options(), &mut report),
        Err(SyncError::HeadRefused { code: "head-moved".to_owned() })
    );
    assert_eq!(
        state.answered(Ok(CompleteStatus::Promoted), &options(), &mut report),
        Ok(CompleteStep::Promoted)
    );
    assert_eq!(report.complete_attempts, 9);
}

#[test]
fn a_pull_fetches_what_is_not_held() {
    let closure = [(digest(1), 5), (digest(2), 6), (digest(3), 7)];
    let (mut pull, mut report) = Pull::new(&closure, &[false, true, false]);
    assert_eq!(report.skipped_local_resident, 1);
    assert_eq!(pull.next(), PullStep::Ask);
    assert_eq!(pull.batch(), [digest(1), digest(3)]);
    pull.granted();
    assert_eq!(pull.current(), (digest(1), 5));
    assert_eq!(pull.not_fetched(lost()), Ok(500));
    assert_eq!(pull.not_fetched(lost()), Ok(1000));
    assert_eq!(pull.not_fetched(lost()), Ok(2000));
    assert_eq!(pull.not_fetched(lost()), Err(SyncError::Transport(lost())));
    pull.fetched(&mut report);
    assert_eq!(pull.not_fetched(expired()), Err(SyncError::Transport(expired())));
    pull.fetched(&mut report);
    assert_eq!(pull.next(), PullStep::Done);
    assert_eq!(
        report,
        PullReport { fetched_objects: 2, fetched_bytes: 12, skipped_local_resident: 1 }
    );
}

#[test]
fn a_pull_needs_a_head_and_its_manifest() {
    assert_eq!(pull_head(None), Err(SyncError::NoRemoteHead));
    let empty = SnapshotBuilder::new(None).finish().unwrap();
    let id = empty.snapshot_id();
    assert_eq!(pull_head(Some(id)), Ok(id));
    assert_eq!(accept_manifest(&id, &empty.to_bytes()), Ok(empty));
    assert_eq!(
        accept_manifest(&id, b"TFM1"),
        Err(SyncError::RemoteManifestCorrupt(id))
    );
    assert_eq!(
        accept_manifest(&SnapshotId::of(b"TFMX"), b"TFMX"),
        Err(SyncError::Manifest(Tfm1Error::BadMagic))
    );
    assert_eq!(manifest_object_digest(&id).as_bytes(), id.as_bytes());
    let grant = DownloadGrant { digest: digest(1), length: 5, url: String::new() };
    assert_eq!(find_download(&[grant.clone()], &digest(1)), Ok(0));
    assert_eq!(find_download(&[grant], &digest(2)), Err(SyncError::GrantOmitted(digest(2))));
}

#[test]
fn routes_and_tokens_are_spelled() {
    assert_eq!(base_url("https://hub.example///"), "https://hub.example");
    assert_eq!(
        route("https://h", "org", "repo", "/plan"),
        "https://h/api/v1/repos/org/repo/snapshot-sync/plan"
    );
    assert_eq!(bearer_of(" \tSECRET\n"), "SECRET");
}

#[test]
fn a_declaration_is_base64_and_hexadecimal() {
    let id = SnapshotId::from_bytes([0xab; 32]);
    assert_eq!(declaration(b"", None), (String::new(), String::new()));
    assert_eq!(declaration(b"a", None).0, "YQ==");
    assert_eq!(declaration(b"ab", None).0, "YWI=");
    assert_eq!(declaration(&[0xfb, 0xff, 0xfe, 0x10], Some(&id)), ("+//+EA==".to_owned(), "ab".repeat(32)));
}

#[test]
fn references_are_tagged() {
    let text = tagged(&digest(0xcd));
    assert_eq!(text, format!("sha256:{}", "cd".repeat(32)));
    assert_eq!(parse_ref(&text), Ok(digest(0xcd)));
    assert_eq!(
        parse_ref("cd"),
        Err(TransportError::Io("untagged ref \"cd\"".to_owned()))
    );
    assert_eq!(
        parse_ref("sha256:\n"),
        Err(TransportError::Io("undecodable ref \"sha256:\\n\"".to_owned()))
    );
    assert_eq!(parse_refs(&[text.clone(), text.clone()]), Ok(vec![digest(0xcd); 2]));
    assert!(parse_refs(&[text.clone(), "x".to_owned()]).is_err());
    assert_eq!(missing_pairs(&[text], &[9]), Ok(vec![(digest(0xcd), 9)]));
    assert_eq!(parse_head(""), Ok(None));
    assert_eq!(
        parse_head(&"cd".repeat(32)),
        Ok(Some(SnapshotId::from_bytes([0xcd; 32])))
    );
    assert_eq!(
        parse_head("x"),
        Err(TransportError::Io("undecodable head \"x\"".to_owned()))
    );
    assert_eq!(
        parse_snapshot_id("x"),
        Err(TransportError::Io("undecodable snapshot id \"x\"".to_owned()))
    );
}

#[test]
fn answers_are_read_for_what_they_mean() {
    let said = |code: &str| Some((code.to_owned(), "why".to_owned()));
    assert_eq!(
        refuse(409, said("session-expired"), String::new()),
        TransportError::Expired("session-expired".to_owned())
    );
    assert_eq!(
        refuse(409, said("head-moved"), String::new()),
        TransportError::Refused { code: "head-moved".to_owned(), detail: "why".to_owned() }
    );
    assert_eq!(
        refuse(502, None, "gateway".to_owned()),
        TransportError::Refused { code: "http-502".to_owned(), detail: "gateway".to_owned() }
    );
    let answer = |stage: &str, failure| {
        Some(CompleteAnswer { stage: stage.to_owned(), promoted: 1, total: 2, failure })
    };
    assert_eq!(complete_status(200, answer("promoted", None)), Some(CompleteStatus::Promoted));
    assert_eq!(complete_status(202, answer("promoted", None)), None);
    assert_eq!(complete_status(200, answer("other", None)), None);
    assert_eq!(complete_status(200, None), None);
    assert_eq!(
        complete_status(409, answer("x", Some(("busy".to_owned(), true)))),
        Some(CompleteStatus::Incomplete { code: "busy".to_owned(), promoted: 1, total: 2 })
    );
    assert_eq!(
        complete_status(409, answer("x", Some(("gone".to_owned(), false)))),
        Some(CompleteStatus::Failed { code: "gone".to_owned() })
    );
}

#[test]
fn the_stores_refusals_are_told_apart() {
    let text = || "body".to_owned();
    assert!(matches!(part_refusal(403, text()), TransportError::Expired(_)));
    assert!(matches!(part_refusal(404, text()), TransportError::Expired(_)));
    assert!(matches!(pack_refusal(403, text()), TransportError::Expired(_)));
    assert!(matches!(download_refusal(403, text()), TransportError::Expired(_)));
    for error in [part_refusal(500, text()), pack_refusal(500, text()), download_refusal(500, text())] {
        assert_eq!(
            error,
            TransportError::Refused { code: "http-500".to_owned(), detail: "body".to_owned() }
        );
    }
    assert_eq!(part_etag(Some("e".to_owned()), 3), Ok("e".to_owned()));
    assert_eq!(
        part_etag(Some(String::new()), 3),
        Err(TransportError::Io("part 3 landed without an etag".to_owned()))
    );
    assert!(part_etag(None, 3).is_err());
    assert!(states_length(&[("Content-Length".to_owned(), "1".to_owned())]));
    assert!(!states_length(&[("Content-Type".to_owned(), "1".to_owned())]));
    let grant = DownloadGrant { digest: digest(0), length: 5, url: String::new() };
    assert_eq!(check_download(&grant, 5), Ok(5));
    assert_eq!(
        check_download(&grant, 4),
        Err(TransportError::Io(format!(
            "download for sha256:{} returned 4 bytes, grant says 5",
            "00".repeat(32)
        )))
    );
}
