use tensorfs_core::object::ObjectDigest;
use tensorfs_core::tfm1::SnapshotId;
use tensorfs_core::tfp1::{decode, encode, Pack, Tfp1Error};

fn named(bytes: &[u8]) -> ObjectDigest {
    ObjectDigest::from_bytes(*SnapshotId::of(bytes).as_bytes())
}

fn two() -> [(ObjectDigest, &'static [u8]); 2] {
    // SHA-256 of "b" begins 3e, of "a" begins ca.
    [(named(b"a"), b"a"), (named(b"b"), b"b")]
}

fn row(bytes: &mut [u8], index: usize) -> &mut [u8] {
    &mut bytes[12 + 48 * index..12 + 48 * (index + 1)]
}

#[test]
fn a_pack_is_encoded_byte_for_byte() {
    let bytes = encode(&two()).unwrap();
    let mut expected = b"TFP1".to_vec();
    expected.extend_from_slice(&2_u64.to_le_bytes());
    for (bytes, offset) in [(b"b", 0_u64), (b"a", 1)] {
        expected.extend_from_slice(named(bytes).as_bytes());
        expected.extend_from_slice(&offset.to_le_bytes());
        expected.extend_from_slice(&1_u64.to_le_bytes());
    }
    expected.extend_from_slice(b"ba");
    assert_eq!(bytes, expected);

    let pack = decode(&bytes).unwrap();
    assert_eq!(pack.object_count(), 2);
    let objects: Vec<(ObjectDigest, &[u8])> = pack
        .objects()
        .iter()
        .map(|object| (object.digest(), object.bytes()))
        .collect();
    assert_eq!(objects, [(named(b"b"), b"b".as_slice()), (named(b"a"), b"a")]);
}

#[test]
fn a_pack_does_not_depend_on_the_order_of_its_members() {
    let [first, second] = two();
    assert_eq!(encode(&[first, second]), encode(&[second, first]));
}

#[test]
fn objects_that_make_no_pack_are_refused() {
    assert_eq!(encode(&[]), Err(Tfp1Error::ZeroObjects));
    let [first, _] = two();
    assert_eq!(encode(&[first, first]), Err(Tfp1Error::DuplicateDigest));
    assert_eq!(encode(&[(named(b""), b"")]), Err(Tfp1Error::ZeroLengthObject));
    assert_eq!(encode(&[(named(b"x"), b"y")]), Err(Tfp1Error::DigestMismatch));
}

#[test]
fn bytes_that_are_no_pack_are_refused() {
    let valid = encode(&two()).unwrap();
    assert_eq!(Pack::parse(&valid[..3]).unwrap_err(), Tfp1Error::Truncated);

    let mut magic = valid.clone();
    magic[3] = b'2';
    assert_eq!(Pack::parse(&magic).unwrap_err(), Tfp1Error::BadMagic);

    let mut none = valid.clone();
    none[4..12].copy_from_slice(&0_u64.to_le_bytes());
    assert_eq!(Pack::parse(&none).unwrap_err(), Tfp1Error::ZeroObjects);
    none[4..12].copy_from_slice(&1_000_001_u64.to_le_bytes());
    assert_eq!(Pack::parse(&none).unwrap_err(), Tfp1Error::ObjectLimit);
    none[4..12].copy_from_slice(&999_u64.to_le_bytes());
    assert_eq!(Pack::parse(&none).unwrap_err(), Tfp1Error::CountExceedsInput);

    let mut order = valid.clone();
    row(&mut order, 0)[..32].fill(0xff);
    assert_eq!(Pack::parse(&order).unwrap_err(), Tfp1Error::IndexOrder);
    let mut twice = valid.clone();
    let first = row(&mut twice, 0)[..32].to_vec();
    row(&mut twice, 1)[..32].copy_from_slice(&first);
    assert_eq!(Pack::parse(&twice).unwrap_err(), Tfp1Error::DuplicateDigest);

    let mut empty = valid.clone();
    row(&mut empty, 0)[40..].fill(0);
    assert_eq!(Pack::parse(&empty).unwrap_err(), Tfp1Error::ZeroLengthObject);
    let mut large = valid.clone();
    row(&mut large, 0)[40..].copy_from_slice(&67_108_865_u64.to_le_bytes());
    assert_eq!(Pack::parse(&large).unwrap_err(), Tfp1Error::ObjectTooLarge);
    let mut both = valid.clone();
    row(&mut both, 0)[40..].copy_from_slice(&67_108_864_u64.to_le_bytes());
    row(&mut both, 1)[32..40].copy_from_slice(&67_108_864_u64.to_le_bytes());
    assert_eq!(Pack::parse(&both).unwrap_err(), Tfp1Error::PayloadTooLarge);
    let mut gap = valid.clone();
    row(&mut gap, 1)[32..40].copy_from_slice(&2_u64.to_le_bytes());
    assert_eq!(Pack::parse(&gap).unwrap_err(), Tfp1Error::OffsetMismatch);

    let mut trailing = valid.clone();
    trailing.push(0);
    assert_eq!(Pack::parse(&trailing).unwrap_err(), Tfp1Error::TrailingBytes);
    assert_eq!(
        Pack::parse(&valid[..valid.len() - 1]).unwrap_err(),
        Tfp1Error::Truncated
    );
}

#[test]
fn a_decoded_pack_is_verified() {
    let mut torn = encode(&two()).unwrap();
    let last = torn.len() - 1;
    torn[last] = b'z';
    assert!(Pack::parse(&torn).is_ok());
    assert_eq!(decode(&torn).unwrap_err(), Tfp1Error::DigestMismatch);
}
