use tensorfs_core::object::ObjectDigest;
use tensorfs_core::store::{
    account_reclaimed, check_grace, ingest_concurrency, is_old_enough, is_temp_name, may_reclaim,
    next_block, parse_digest_hex, range_end, AdmittedObject, ObjectStore, ObjectWriter, StoreError,
    TempCollection, TempIdentity, VERIFY_BUFFER_SIZE,
};

fn abc() -> ObjectDigest {
    parse_digest_hex("ba7816bf8f01cfea414140de5dae2223b00361a396177a9cb410ff61f20015ad").unwrap()
}

#[test]
fn an_object_stands_at_its_digests_path() {
    let store = ObjectStore::new(true);
    assert_eq!(
        store.object_path(&abc()),
        "objects/sha256/ba/78/ba7816bf8f01cfea414140de5dae2223b00361a396177a9cb410ff61f20015ad"
    );
    assert_eq!(store.sha256_dir(), "objects/sha256");
    assert_eq!(store.tmp_dir(), "tmp");
    assert!(store.supports_symlinks());
}

#[test]
fn an_objects_name_is_read_back() {
    let digest = abc();
    assert_eq!(parse_digest_hex(&digest.to_hex()), Some(digest));
    assert_eq!(parse_digest_hex(&digest.to_hex().to_uppercase()), None);
    assert_eq!(parse_digest_hex("ba78"), None);
    assert_eq!(parse_digest_hex(&"g".repeat(64)), None);
}

#[test]
fn bytes_are_hashed_as_they_are_written() {
    let mut writer = ObjectWriter::new();
    writer.write(b"a");
    writer.write(b"");
    writer.write(b"bc");
    assert_eq!(writer.written(), 3);
    assert_eq!(writer.finish(), (abc(), 3));
}

#[test]
fn an_expected_object_is_checked_by_length_and_by_digest() {
    let write = |bytes: &[u8]| {
        let mut writer = ObjectWriter::new();
        writer.write(bytes);
        writer
    };
    assert_eq!(write(b"abc").finish_expecting(abc(), 3), Ok(abc()));
    assert_eq!(
        write(b"ab").finish_expecting(abc(), 3),
        Err(StoreError::LengthMismatch { expected: 3, actual: 2 })
    );
    assert!(matches!(
        write(b"abd").finish_expecting(abc(), 3),
        Err(StoreError::DigestMismatch { expected, actual }) if expected == abc() && actual != abc()
    ));
    assert_eq!(write(b"abc").verify(&abc()), Ok(3));
    assert!(matches!(
        write(b"abd").verify(&abc()),
        Err(StoreError::CorruptObject { expected, .. }) if expected == abc()
    ));
}

#[test]
fn an_admitted_object_tells_what_it_is() {
    let object = AdmittedObject::new(abc(), 3, true);
    assert_eq!(object.digest(), abc());
    assert_eq!(object.length(), 3);
    assert!(object.preexisting());
}

#[test]
fn memory_and_cores_bound_the_workers() {
    let mib64 = 64 * 1024 * 1024_u64;
    assert_eq!(ingest_concurrency(None, 32), 8);
    assert_eq!(ingest_concurrency(None, 4), 4);
    assert_eq!(ingest_concurrency(Some("not a number"), 32), 8);
    assert_eq!(ingest_concurrency(Some(&format!(" {} ", 3 * mib64)), 32), 3);
    assert_eq!(ingest_concurrency(Some("0"), 32), 1);
    assert_eq!(ingest_concurrency(Some("0"), 0), 1);
    assert_eq!(ingest_concurrency(Some(&u64::MAX.to_string()), 6), 6);
}

#[test]
fn a_range_is_read_in_bounded_blocks() {
    assert_eq!(next_block(10, 13), 3);
    assert_eq!(next_block(0, VERIFY_BUFFER_SIZE as u64), VERIFY_BUFFER_SIZE);
    assert_eq!(next_block(1, VERIFY_BUFFER_SIZE as u64 + 9), VERIFY_BUFFER_SIZE);
    assert_eq!(range_end(3, 4), Some(7));
    assert_eq!(range_end(u64::MAX, 1), None);
}

#[test]
fn only_temporary_names_are_considered() {
    assert!(is_temp_name("obj-1-2-3.tmp"));
    assert!(!is_temp_name("building-1.tmp"));
    assert!(!is_temp_name("obj-1"));
    assert!(!is_temp_name(""));
}

#[test]
fn a_temporary_file_is_reclaimed_only_when_nothing_moved() {
    let listed = TempIdentity { length: 3, modified: Some(5), device: 1, inode: 2 };
    let other = TempIdentity { inode: 3, ..listed };
    assert!(may_reclaim(&listed, &listed, true, &listed));
    assert!(!may_reclaim(&listed, &other, true, &other));
    assert!(!may_reclaim(&listed, &listed, false, &listed));
    assert!(!may_reclaim(&listed, &listed, true, &other));
    assert!(is_old_enough(Some(5), Some(5)));
    assert!(!is_old_enough(Some(6), Some(5)));
    assert!(!is_old_enough(None, Some(5)));
    assert!(!is_old_enough(Some(5), None));
    assert_eq!(check_grace(0), Err(StoreError::InvalidGrace));
    assert_eq!(check_grace(1), Ok(()));

    let mut report = TempCollection::default();
    account_reclaimed(&mut report, 7);
    assert_eq!(report, TempCollection { examined: 0, deleted: 1, bytes_deleted: 7 });
}
