use tensorfs_core::contract::Stamp;
use tensorfs_core::object::ObjectDigest;
use tensorfs_core::planner::{PlannerId, TensorFormat, MAX_OBJECT_SIZE};
use tensorfs_core::tfm1::builder::{canonical_body, SnapshotBuilder, TreeEntry};
use tensorfs_core::tfm1::decode::decode;
use tensorfs_core::tfm1::path::{case_fold, validate_path, validate_symlink_target};
use tensorfs_core::tfm1::{
    validate_record_run, validate_records, Entry, FileBody, FileRecord, SnapshotId, Tfm1Error,
    EMPTY_BLOB_DIGEST,
};

fn digest(byte: u8) -> ObjectDigest {
    ObjectDigest::from_bytes([byte; 32])
}

fn data(byte: u8, length: u64) -> FileRecord {
    FileRecord::Data { digest: digest(byte), length }
}

fn path(text: &str) -> Vec<u8> {
    let mut bytes = (text.len() as u32).to_le_bytes().to_vec();
    bytes.extend_from_slice(text.as_bytes());
    bytes
}

fn manifest(count: u64, entries: &[Vec<u8>]) -> Vec<u8> {
    let mut bytes = b"TFM1\0".to_vec();
    bytes.extend_from_slice(&count.to_le_bytes());
    for entry in entries {
        bytes.extend_from_slice(entry);
    }
    bytes
}

fn directory(name: &str) -> Vec<u8> {
    [path(name), vec![1]].concat()
}

fn blob(name: &str, size: u64, byte: u8) -> Vec<u8> {
    [path(name), vec![2, 0, 4], size.to_le_bytes().to_vec(), vec![byte; 32]].concat()
}

fn tensor(name: &str, tag: u8, size: u64, stamp: &[u8], records: &[Vec<u8>]) -> Vec<u8> {
    [
        path(name),
        vec![2, 0, tag],
        size.to_le_bytes().to_vec(),
        stamp.to_vec(),
        (records.len() as u64).to_le_bytes().to_vec(),
        records.concat(),
    ]
    .concat()
}

const NO_STAMP: [u8; 5] = [0; 5];

fn data_record(byte: u8, length: u64) -> Vec<u8> {
    [vec![1], vec![byte; 32], length.to_le_bytes().to_vec()].concat()
}

fn hole_record(length: u64) -> Vec<u8> {
    [vec![2], length.to_le_bytes().to_vec()].concat()
}

fn refused(bytes: &[u8]) -> Tfm1Error {
    decode(bytes).unwrap_err()
}

fn refused_entry(entry: Vec<u8>) -> Tfm1Error {
    refused(&manifest(1, &[entry]))
}

#[test]
fn a_manifest_is_encoded_byte_for_byte() {
    let mut builder = SnapshotBuilder::new(Some(SnapshotId::from_bytes([9; 32])));
    builder.symlink("a/link".to_owned(), "../b".to_owned());
    builder.file("a/x".to_owned(), true, PlannerId::BlobV1, vec![data(5, 7)]);
    builder.directory("a".to_owned());
    builder.file_under(
        "b".to_owned(),
        false,
        PlannerId::SafetensorsV1,
        Stamp::named("llama.fused", 3).unwrap(),
        vec![data(1, 10), FileRecord::Hole { length: 4 }],
    );
    builder.hardlink("c".to_owned(), "b".to_owned());
    let snapshot = builder.finish().unwrap();

    let mut expected = b"TFM1\x01".to_vec();
    expected.extend_from_slice(&[9; 32]);
    expected.extend_from_slice(&5_u64.to_le_bytes());
    expected.extend(directory("a"));
    expected.extend([path("a/link"), vec![3], path("../b")].concat());
    expected.extend(
        [path("a/x"), vec![2, 1, 4], 7_u64.to_le_bytes().to_vec(), vec![5; 32]].concat(),
    );
    let mut stamp = vec![11];
    stamp.extend_from_slice(b"llama.fused");
    stamp.extend_from_slice(&3_u32.to_le_bytes());
    expected.extend(tensor("b", 1, 14, &stamp, &[data_record(1, 10), hole_record(4)]));
    expected.extend([path("c"), vec![4], 1_u64.to_le_bytes().to_vec()].concat());

    assert_eq!(snapshot.to_bytes(), expected);
    assert_eq!(snapshot.snapshot_id(), SnapshotId::of(&expected));
    assert_eq!(snapshot.ordinal_path(0), Some("a/x"));
    assert_eq!(snapshot.ordinal_path(1), Some("b"));
    assert_eq!(snapshot.ordinal_path(2), None);

    let back = decode(&expected).unwrap();
    assert_eq!(back, snapshot);
    assert_eq!(back.to_bytes(), expected);
}

#[test]
fn the_empty_snapshot_has_the_identity_of_its_thirteen_bytes() {
    let empty = SnapshotBuilder::new(None).finish().unwrap();
    assert_eq!(empty.to_bytes(), b"TFM1\0\0\0\0\0\0\0\0\0");
    assert_eq!(empty.parent(), None);
    assert!(empty.entries().is_empty());
    assert_eq!(decode(&empty.to_bytes()).unwrap(), empty);
}

#[test]
fn an_identity_is_read_back_from_its_spelling() {
    let id = SnapshotId::of(b"abc");
    assert_eq!(
        id.to_text(),
        "ba7816bf8f01cfea414140de5dae2223b00361a396177a9cb410ff61f20015ad"
    );
    assert_eq!(SnapshotId::parse_hex(&id.to_text()), Some(id));
    assert_eq!(SnapshotId::parse_hex(&id.to_text().to_uppercase()), None);
    assert_eq!(SnapshotId::parse_hex(&id.to_text()[1..]), None);
    assert_eq!(SnapshotId::parse_hex(&"é".repeat(32)), None);
    let mut signed = "00".repeat(32);
    signed.replace_range(0..2, "+7");
    let mut bytes = [0; 32];
    bytes[0] = 7;
    assert_eq!(SnapshotId::parse_hex(&signed), Some(SnapshotId::from_bytes(bytes)));
}

#[test]
fn every_malformed_heading_is_refused() {
    assert_eq!(refused(b"TFM"), Tfm1Error::Truncated);
    assert_eq!(refused(b"TFM2\0\0\0\0\0\0\0\0\0"), Tfm1Error::BadMagic);
    assert_eq!(refused(b"TFM1\x02\0\0\0\0\0\0\0\0"), Tfm1Error::ParentFlag);
    assert_eq!(refused(b"TFM1\0\xff\0\0\0\0\0\0\0"), Tfm1Error::CountExceedsInput);
    assert_eq!(refused(b"TFM1\0\0\0\0\0\0\0\0\0\0"), Tfm1Error::TrailingBytes);
}

#[test]
fn every_malformed_entry_is_refused() {
    assert_eq!(refused_entry([path("a"), vec![9]].concat()), Tfm1Error::UnknownEntryKind);
    assert_eq!(
        refused_entry([path("a"), vec![2, 2, 4], vec![0; 40]].concat()),
        Tfm1Error::ExecutableFlag
    );
    assert_eq!(
        refused_entry([path("a"), vec![2, 0, 3], vec![0; 40]].concat()),
        Tfm1Error::UnknownPlanner
    );
    assert_eq!(refused_entry(blob("a", 0, 1)), Tfm1Error::EmptyBlobDigest);
    assert_eq!(
        refused_entry([path("a"), vec![3], path("")].concat()),
        Tfm1Error::SymlinkTarget
    );
    assert_eq!(
        refused_entry([path("a"), vec![4], 0_u64.to_le_bytes().to_vec()].concat()),
        Tfm1Error::HardlinkOrdinal
    );
    assert_eq!(
        refused_entry([vec![2, 0, 0, 0], vec![0xc3, 0x28], vec![1]].concat()),
        Tfm1Error::PathUtf8
    );
    assert_eq!(
        refused_entry(tensor("a", 1, 1, &[1, b'A', 1, 0, 0, 0], &[data_record(1, 1)])),
        Tfm1Error::ContractName
    );
    assert_eq!(
        refused_entry(tensor("a", 1, 1, &[1, b'a', 0, 0, 0, 0], &[data_record(1, 1)])),
        Tfm1Error::ContractVersion
    );
    assert_eq!(
        refused_entry(tensor("a", 2, 1, &NO_STAMP, &[vec![3; 41]])),
        Tfm1Error::UnknownRecordTag
    );
    let mut many = tensor("a", 1, 1, &NO_STAMP, &[]);
    let at = many.len() - 8;
    many[at..].copy_from_slice(&1_000_001_u64.to_le_bytes());
    assert_eq!(refused_entry(many.clone()), Tfm1Error::RecordLimit);
    many[at..].copy_from_slice(&2_u64.to_le_bytes());
    assert_eq!(refused_entry(many), Tfm1Error::CountExceedsInput);
}

#[test]
fn record_runs_are_checked_in_one_order() {
    let runs: [(&[FileRecord], u64, Option<Tfm1Error>); 6] = [
        (&[], 0, None),
        (&[data(1, 0)], 0, Some(Tfm1Error::ZeroLengthRecord)),
        (
            &[FileRecord::Hole { length: 1 }, FileRecord::Hole { length: 1 }],
            2,
            Some(Tfm1Error::AdjacentHoles),
        ),
        (&[data(1, 3)], 4, Some(Tfm1Error::LengthSumMismatch)),
        (&[data(1, u64::MAX), data(2, 1)], 0, Some(Tfm1Error::LengthSumMismatch)),
        (&[data(1, 3), FileRecord::Hole { length: 2 }], 5, None),
    ];
    for (records, size, expected) in runs {
        assert_eq!(validate_record_run(records, size).err(), expected);
    }
    let wide = [data(1, MAX_OBJECT_SIZE + 1)];
    assert_eq!(validate_record_run(&wide, MAX_OBJECT_SIZE + 1), Ok(()));
    assert_eq!(
        validate_records(&wide, MAX_OBJECT_SIZE + 1),
        Err(Tfm1Error::DataTooLarge)
    );
}

#[test]
fn a_tree_is_ordered_unique_and_rooted() {
    let order = manifest(2, &[directory("b"), directory("a")]);
    assert_eq!(refused(&order), Tfm1Error::EntryOrder);
    let twice = manifest(2, &[directory("a"), directory("a")]);
    assert_eq!(refused(&twice), Tfm1Error::DuplicatePath);
    let folded = manifest(2, &[directory("A"), directory("a")]);
    assert_eq!(refused(&folded), Tfm1Error::CaseFoldCollision);
    let orphan = manifest(1, &[directory("a/b")]);
    assert_eq!(refused(&orphan), Tfm1Error::MissingParentDirectory);
}

#[test]
fn a_tree_folds_case_beyond_ascii() {
    assert_eq!(case_fold("ÄÖ/ß"), "äö/ß");
    let mut builder = SnapshotBuilder::new(None);
    builder.directory("Ä".to_owned());
    builder.directory("ä".to_owned());
    assert_eq!(builder.finish().unwrap_err(), Tfm1Error::CaseFoldCollision);
}

#[test]
fn every_path_rule_has_its_own_refusal() {
    let cases = [
        ("", Tfm1Error::PathLength),
        ("e\u{301}", Tfm1Error::PathNotNfc),
        ("/a", Tfm1Error::PathAbsolute),
        ("a//b", Tfm1Error::PathEmptySegment),
        ("a/../b", Tfm1Error::PathDotSegment),
        ("a/b:c", Tfm1Error::PathForbiddenCharacter),
        ("a./b", Tfm1Error::PathTrailingDotSpace),
        ("aux.txt", Tfm1Error::PathWindowsReserved),
        ("x/com9", Tfm1Error::PathWindowsReserved),
    ];
    for (text, expected) in cases {
        assert_eq!(validate_path(text), Err(expected), "{text}");
    }
    assert_eq!(validate_path(&"a".repeat(4097)), Err(Tfm1Error::PathLength));
    for text in ["a", "é/b c", "com10", "auxiliary", &"a".repeat(4096)] {
        assert_eq!(validate_path(text), Ok(()), "{text}");
    }
    assert_eq!(validate_symlink_target("../../x"), Ok(()));
    assert_eq!(validate_symlink_target(""), Err(Tfm1Error::SymlinkTarget));
    assert_eq!(validate_symlink_target("a\nb"), Err(Tfm1Error::SymlinkTarget));
}

#[test]
fn a_blob_body_is_one_object_or_nothing() {
    assert_eq!(
        canonical_body(PlannerId::BlobV1, &Stamp::Absent, &vec![]),
        Ok(FileBody::Blob {
            logical_size: 0,
            digest: ObjectDigest::from_bytes(EMPTY_BLOB_DIGEST)
        })
    );
    assert_eq!(
        canonical_body(PlannerId::BlobV1, &Stamp::Absent, &vec![data(1, 1), data(2, 1)]),
        Err(Tfm1Error::BlobRecords)
    );
    let body = canonical_body(
        PlannerId::GgufV1,
        &Stamp::Absent,
        &vec![data(1, 2), FileRecord::Hole { length: 1 }],
    )
    .unwrap();
    assert_eq!(body.logical_size(), 3);
    assert_eq!(body.planner_id(), PlannerId::GgufV1);
    assert_eq!(
        body,
        FileBody::Tensor {
            format: TensorFormat::GgufV1,
            contract: Stamp::Absent,
            logical_size: 3,
            records: vec![data(1, 2), FileRecord::Hole { length: 1 }],
        }
    );
}

#[test]
fn a_hardlink_group_is_carried_by_its_first_path() {
    let mut builder = SnapshotBuilder::new(None);
    builder.hardlink("a".to_owned(), "c".to_owned());
    builder.hardlink("b".to_owned(), "c".to_owned());
    builder.file("c".to_owned(), true, PlannerId::BlobV1, vec![data(1, 1)]);
    let snapshot = builder.finish().unwrap();
    let kinds: Vec<(&str, bool)> = snapshot
        .entries()
        .iter()
        .map(|(path, entry)| (path.as_str(), matches!(entry, Entry::File { .. })))
        .collect();
    assert_eq!(kinds, [("a", true), ("b", false), ("c", false)]);
    assert_eq!(snapshot.entries()[2].1, Entry::Hardlink { ordinal: 0 });

    let mut dangling = SnapshotBuilder::new(None);
    dangling.hardlink("a".to_owned(), "missing".to_owned());
    assert_eq!(dangling.finish().unwrap_err(), Tfm1Error::HardlinkTarget);

    let mut chained = SnapshotBuilder::new(None);
    chained.hardlink("a".to_owned(), "b".to_owned());
    chained.hardlink("b".to_owned(), "c".to_owned());
    chained.file("c".to_owned(), true, PlannerId::BlobV1, vec![data(1, 1)]);
    assert_eq!(chained.finish().unwrap_err(), Tfm1Error::HardlinkTarget);
}

#[test]
fn a_head_tree_keeps_unsealed_runs() {
    let mut builder = SnapshotBuilder::new(None);
    builder.file(
        "a".to_owned(),
        false,
        PlannerId::BlobV1,
        vec![data(1, 1), data(2, 1)],
    );
    let tree = builder.finish_tree().unwrap();
    assert_eq!(
        tree.entries()[0].1,
        TreeEntry::File {
            executable: false,
            planner: PlannerId::BlobV1,
            contract: Stamp::Absent,
            records: vec![data(1, 1), data(2, 1)],
        }
    );
    assert_eq!(tree.ordinal_path(0), Some("a"));
}

#[test]
fn a_digest_stamp_is_part_of_the_snapshot() {
    let stamped = |contract: Stamp| {
        let mut builder = SnapshotBuilder::new(None);
        let records = vec![data(1, 1)];
        builder.file_under("a".to_owned(), false, PlannerId::SafetensorsV1, contract, records);
        builder.finish().unwrap()
    };
    let snapshot = stamped(Stamp::Digest([0x7a; 32]));
    let spelled = [&[71], b"sha256:".as_slice(), "7a".repeat(32).as_bytes(), &[0; 4]].concat();
    let bytes = manifest(1, &[tensor("a", 1, 1, &spelled, &[data_record(1, 1)])]);
    assert_eq!(snapshot.to_bytes(), bytes);
    assert_eq!(decode(&bytes).unwrap(), snapshot);
    assert_ne!(snapshot.to_bytes(), stamped(Stamp::Absent).to_bytes());
    assert_ne!(snapshot.to_bytes(), stamped(Stamp::Digest([0x7b; 32])).to_bytes());
    assert_ne!(snapshot.snapshot_id(), stamped(Stamp::Absent).snapshot_id());
    let file = |stamp: &[u8]| tensor("a", 1, 1, stamp, &[data_record(1, 1)]);
    let mut versioned = spelled.clone();
    versioned[72] = 1;
    assert_eq!(refused_entry(file(&versioned)), Tfm1Error::ContractVersion);
    let mut shouted = spelled.clone();
    shouted[8] = b'A';
    assert_eq!(refused_entry(file(&shouted)), Tfm1Error::ContractName);
    let mut misnamed = spelled;
    misnamed[1] = b'S';
    assert_eq!(refused_entry(file(&misnamed)), Tfm1Error::ContractName);
}

#[test]
fn every_refusal_has_its_label() {
    assert_eq!(Tfm1Error::CountExceedsInput.reason(), "count-exceeds-input");
    assert_eq!(Tfm1Error::PathWindowsReserved.reason(), "path-windows-reserved");
    assert_eq!(Tfm1Error::ResourceExhausted.reason(), "resource-exhausted");
}

#[test]
fn a_snapshot_depends_on_the_tree_alone() {
    let mut first = SnapshotBuilder::new(None);
    first.directory("d".to_owned());
    first.file("d/b".to_owned(), true, PlannerId::BlobV1, vec![data(1, 3)]);
    first.hardlink("a".to_owned(), "d/b".to_owned());
    first.hardlink("z".to_owned(), "d/b".to_owned());
    first.symlink("s".to_owned(), "d".to_owned());
    let mut second = SnapshotBuilder::new(None);
    second.symlink("s".to_owned(), "d".to_owned());
    second.hardlink("d/b".to_owned(), "z".to_owned());
    second.file("z".to_owned(), true, PlannerId::BlobV1, vec![data(1, 3)]);
    second.hardlink("a".to_owned(), "z".to_owned());
    second.directory("d".to_owned());
    let (first, second) = (first.finish().unwrap(), second.finish().unwrap());
    assert_eq!(first, second);
    assert_eq!(first.snapshot_id(), second.snapshot_id());
    assert!(matches!(first.entries()[0], (ref path, Entry::File { .. }) if path == "a"));
    assert!(matches!(first.entries()[2].1, Entry::Hardlink { ordinal: 0 }));
}

#[test]
fn a_file_and_its_hardlink_may_change_places() {
    let mut builder = SnapshotBuilder::new(None);
    builder.file("b".to_owned(), true, PlannerId::BlobV1, vec![data(5, 7)]);
    builder.hardlink("a".to_owned(), "b".to_owned());
    builder.hardlink("c".to_owned(), "b".to_owned());
    let mut traded = SnapshotBuilder::new(None);
    traded.hardlink("b".to_owned(), "a".to_owned());
    traded.file("a".to_owned(), true, PlannerId::BlobV1, vec![data(5, 7)]);
    traded.hardlink("c".to_owned(), "a".to_owned());
    let snapshot = builder.finish().unwrap();
    assert_eq!(traded.finish().unwrap(), snapshot);
    assert_eq!(snapshot.ordinal_path(0), Some("a"));
}

#[test]
fn what_is_built_under_any_stamp_is_read_back() {
    for stamp in [Stamp::Absent, Stamp::named("llama.fused", 3).unwrap(), Stamp::Digest([7; 32])] {
        let mut builder = SnapshotBuilder::new(None);
        builder.file_under(
            "b".to_owned(),
            false,
            PlannerId::GgufV1,
            stamp,
            vec![data(1, 10), FileRecord::Hole { length: 4 }],
        );
        let snapshot = builder.finish().unwrap();
        assert_eq!(decode(&snapshot.to_bytes()), Ok(snapshot));
    }
}
