use tensorfs_core::contract::Stamp;
use tensorfs_core::layout::{
    is_lease_name, lease_state, removal_of, scratch_token_of, stub_bytes, stub_json, stub_of, Artifact,
    Layout, LayoutError, LeaseProbe, LeaseState, Removal, Rename, ScratchKind, ScratchReap,
};
use tensorfs_core::object::ObjectDigest;
use tensorfs_core::planner::PlannerId;
use tensorfs_core::store::ObjectStore;
use tensorfs_core::tfm1::builder::{canonical_body, SnapshotBuilder};
use tensorfs_core::tfm1::{FileRecord, Snapshot, SnapshotId};

fn digest(byte: u8) -> ObjectDigest {
    ObjectDigest::from_bytes([byte; 32])
}

fn data(byte: u8, length: u64) -> FileRecord {
    FileRecord::Data { digest: digest(byte), length }
}

fn layout() -> Layout {
    Layout::new(&ObjectStore::new(true))
}

fn snapshot() -> Snapshot {
    let mut builder = SnapshotBuilder::new(None);
    builder.directory("d".to_owned());
    builder.file("d/blob".to_owned(), false, PlannerId::BlobV1, vec![data(0xab, 5)]);
    builder.file("empty".to_owned(), false, PlannerId::BlobV1, vec![]);
    builder.hardlink("hard".to_owned(), "d/blob".to_owned());
    builder.symlink("soft".to_owned(), "d/blob".to_owned());
    builder.file("t".to_owned(), false, PlannerId::SafetensorsV1, vec![data(1, 9)]);
    builder.finish().unwrap()
}

#[test]
fn a_stub_is_one_line_of_exact_bytes() {
    let bytes = stub_bytes(&digest(0xab), 42);
    let expected = format!(
        "TFSSTUB1 {{\"body_sha256\":\"{}\",\"size\":42,\"read\":\"tensorfs\"}}\n",
        "ab".repeat(32)
    );
    assert_eq!(bytes, expected.as_bytes());
}

#[test]
fn a_stub_is_read_back() {
    let bytes = stub_bytes(&digest(0xcd), 7);
    let json: serde_json::Value = serde_json::from_slice(stub_json(&bytes).unwrap()).unwrap();
    let stub = stub_of(
        json["body_sha256"].as_str().unwrap(),
        json["size"].as_u64().unwrap(),
        json["read"].as_str().unwrap(),
    )
    .unwrap();
    assert_eq!(stub.body_sha256, digest(0xcd));
    assert_eq!(stub.size, 7);

    assert_eq!(stub_json(b"TFSSTUB1 {}"), Some(b"{}".as_slice()));
    assert_eq!(stub_json(b"TFSSTUB1 {}\n\n"), Some(b"{}\n".as_slice()));
    assert_eq!(stub_json(b"TFSSTUB1{}"), None);
    assert_eq!(stub_json(b"GGUF"), None);
    assert!(stub_of(&"ab".repeat(32), 7, "other").is_none());
    assert!(stub_of("ab", 7, "tensorfs").is_none());
}

#[test]
fn a_tree_is_projected_entry_by_entry() {
    let hex = "ab".repeat(32);
    let object = format!("objects/sha256/ab/ab/{hex}");
    let body = canonical_body(PlannerId::SafetensorsV1, &Stamp::Absent, &vec![data(1, 9)]).unwrap();
    let tree = layout().project(&snapshot());
    let expected = [
        ("d", Artifact::Directory),
        ("d/blob", Artifact::Link(format!("../../../{object}"))),
        ("empty", Artifact::Bytes(Vec::new())),
        ("hard", Artifact::Link(format!("../../{object}"))),
        ("soft", Artifact::Link("d/blob".to_owned())),
        ("t", Artifact::Bytes(stub_bytes(&body.body_sha256(), 9))),
    ];
    assert_eq!(tree.len(), expected.len());
    for ((path, artifact), (expected_path, expected)) in tree.iter().zip(&expected) {
        assert_eq!(path, expected_path);
        assert_eq!(artifact, expected);
    }

    let copies = Layout::without_symlinks(&ObjectStore::new(true)).project(&snapshot());
    assert_eq!(copies[1].1, Artifact::Copy(digest(0xab)));
    assert_eq!(copies[3].1, Artifact::Copy(digest(0xab)));
    assert_eq!(copies[4].1, Artifact::Link("d/blob".to_owned()));
    assert_eq!(Layout::new(&ObjectStore::new(false)).project(&snapshot()), copies);
}

#[test]
fn every_path_stands_below_the_root() {
    let id = SnapshotId::from_bytes([0x11; 32]);
    let hex = "11".repeat(32);
    assert_eq!(layout().snapshots_dir(), "snapshots");
    assert_eq!(layout().refs_dir(), "refs");
    assert_eq!(layout().tree_path(&id), format!("snapshots/{hex}"));
    assert_eq!(layout().building_path("7-8"), "snapshots/.building-7-8");
    assert_eq!(layout().lease_path("7-8"), "tmp/building-7-8.tmp");
    let unlink = layout().remove_tree(&id, "t");
    assert_eq!(unlink.path, format!("snapshots/{hex}"));
    assert_eq!(unlink.claimed, "snapshots/.removed-t");
    let swap = layout().set_ref("main", &id, "t").unwrap();
    assert_eq!(swap.staged, "refs/.swap-t");
    assert_eq!(swap.destination, "refs/main");
    assert_eq!(swap.bytes, format!("{hex}\n").as_bytes());
    let unlink = layout().remove_ref("main", "t").unwrap();
    assert_eq!(unlink.path, "refs/main");
    assert_eq!(unlink.claimed, "refs/.removed-t");
}

#[test]
fn a_ref_name_is_one_safe_segment() {
    for name in ["", ".", "..", ".hidden", "a/b", "a\\b", "a\0b", &"a".repeat(256), &"é".repeat(128)] {
        let error = layout().ref_path(name).unwrap_err();
        assert_eq!(error, LayoutError::InvalidRefName(name.to_owned()));
    }
    for name in ["main", "v1.2", &"a".repeat(255)] {
        assert_eq!(layout().ref_path(name), Ok(format!("refs/{name}")));
    }
    assert_eq!(
        layout().ref_path("a/b").unwrap_err().to_text(),
        "ref name \"a/b\" is not a single safe path segment"
    );
}

#[test]
fn a_ref_is_read_back_as_it_was_pointed() {
    let id = SnapshotId::from_bytes([0x5a; 32]);
    let swap = layout().set_ref("main", &id, "t").unwrap();
    assert_eq!(layout().read_ref("main", Some(swap.bytes)), Ok(Some(id)));
    assert_eq!(layout().read_ref("main", None), Ok(None));
    let bare = "5a".repeat(32).into_bytes();
    assert_eq!(layout().read_ref("main", Some(bare)), Ok(Some(id)));
    for bytes in [vec![], vec![0xff], b"main\n".to_vec()] {
        let error = layout().read_ref("main", Some(bytes)).unwrap_err();
        assert_eq!(error, LayoutError::UnreadableRef("main".to_owned()));
        assert_eq!(error.to_text(), "ref \"main\" does not name a snapshot id");
    }
    assert!(layout().read_ref(".main", None).is_err());
}

#[test]
fn listings_keep_what_they_are_of_and_are_sorted() {
    let names = ["b", ".swap-1", "a", "c/d"].map(str::to_owned);
    assert_eq!(layout().ref_names(&names), ["a", "b"]);

    let ids = ["ff".repeat(32), "00".repeat(32), ".building-1".to_owned()];
    assert_eq!(
        layout().tree_ids(&ids),
        [SnapshotId::from_bytes([0; 32]), SnapshotId::from_bytes([0xff; 32])]
    );

    let id = SnapshotId::from_bytes([1; 32]);
    let refs = [
        ("a".to_owned(), Some(id)),
        ("b".to_owned(), None),
        ("c".to_owned(), Some(SnapshotId::from_bytes([2; 32]))),
        ("d".to_owned(), Some(id)),
    ];
    assert_eq!(layout().refs_to(&id, &refs), ["a", "d"]);
}

#[test]
fn a_removal_tells_what_became_of_the_name() {
    assert_eq!(removal_of(Rename::Done), Some(Removal::Taken));
    assert_eq!(removal_of(Rename::NotFound), Some(Removal::Absent));
    assert_eq!(removal_of(Rename::ShareRefused), Some(Removal::Deferred));
    assert_eq!(removal_of(Rename::Failed), None);
    assert!(Removal::Taken.taken());
    assert!(!Removal::Absent.taken());
    assert!(!Removal::Deferred.taken());
}

#[test]
fn a_lease_decides_and_never_a_name() {
    assert_eq!(lease_state(LeaseProbe::Opened { locked: true }), Some(LeaseState::Free));
    assert_eq!(lease_state(LeaseProbe::Opened { locked: false }), None);
    assert_eq!(lease_state(LeaseProbe::NotFound), Some(LeaseState::Absent));
    assert_eq!(lease_state(LeaseProbe::Failed), None);
    assert!(is_lease_name("building-1-2.tmp"));
    assert!(!is_lease_name("obj-1-2.tmp"));
}

#[test]
fn a_reap_describes_what_it_removes() {
    assert_eq!(
        scratch_token_of(ScratchKind::Tree, ".building-7-0"),
        Some("7-0".to_owned())
    );
    assert_eq!(scratch_token_of(ScratchKind::Swap, ".building-7-0"), None);
    assert_eq!(scratch_token_of(ScratchKind::Unlinked, ".removed-x"), Some("x".to_owned()));

    let mut report = ScratchReap::default();
    let held = report.examine(ScratchKind::Tree, "p".to_owned(), "t".to_owned(), None);
    assert!(held.is_none());
    let gone = report
        .examine(ScratchKind::Swap, "q".to_owned(), "u".to_owned(), Some(LeaseState::Free))
        .unwrap();
    assert_eq!((gone.path.as_str(), gone.creator.as_str(), gone.lease), ("q", "u", LeaseState::Free));
    report.removed(ScratchKind::Swap, gone);
    let unlinked = report
        .examine(ScratchKind::Unlinked, "r".to_owned(), "v".to_owned(), None)
        .unwrap();
    assert_eq!(unlinked.lease, LeaseState::Unreachable);
    report.removed(ScratchKind::Unlinked, unlinked);
    assert_eq!(report.examined, 3);
    assert_eq!(
        (report.trees_removed, report.swaps_removed, report.unlinked_removed),
        (0, 1, 1)
    );
    assert_eq!(report.reclaimed.len(), 2);
}
