use tensorfs_core::object::ObjectDigest;
use tensorfs_core::stream::{
    bounce_step, direct_body, BounceStep, ReadMode, ReadPiece, ReadRefusal, StreamReader, BOUNCE_BYTES,
    DIRECT_ALIGNMENT,
};
use tensorfs_core::tfm1::FileRecord;

fn digest(byte: u8) -> ObjectDigest {
    ObjectDigest::from_bytes([byte; 32])
}

fn records() -> Vec<FileRecord> {
    vec![
        FileRecord::Data { digest: digest(1), length: 4 },
        FileRecord::Hole { length: 3 },
        FileRecord::Data { digest: digest(2), length: 5 },
    ]
}

fn reader() -> StreamReader {
    StreamReader::new(&records(), ReadMode::Buffered, true).unwrap()
}

/// The bytes of the file: an object's byte is its number, a hole's is zero.
fn file() -> Vec<u8> {
    [vec![1; 4], vec![0; 3], vec![2; 5]].concat()
}

fn read(offset: u64, length: usize) -> Result<Vec<u8>, ReadRefusal> {
    let mut bytes = vec![0xff; length];
    for piece in reader().read_exact_at(offset, length)? {
        match piece {
            ReadPiece::Zeros { at, length } => bytes[at..at + length].fill(0),
            ReadPiece::Object { at, length, digest, within } => {
                assert!(within + length as u64 <= if digest.as_bytes()[0] == 1 { 4 } else { 5 });
                bytes[at..at + length].fill(digest.as_bytes()[0]);
            }
        }
    }
    Ok(bytes)
}

#[test]
fn every_read_gives_the_files_bytes() {
    let file = file();
    assert_eq!(reader().length(), 12);
    assert_eq!(reader().mode(), ReadMode::Buffered);
    for start in 0..=file.len() {
        for end in start..=file.len() {
            assert_eq!(read(start as u64, end - start).unwrap(), file[start..end]);
        }
    }
}

#[test]
fn a_read_past_the_end_is_refused() {
    assert_eq!(read(11, 2), Err(ReadRefusal::PastEnd));
    assert_eq!(read(13, 0), Err(ReadRefusal::PastEnd));
    assert_eq!(read(u64::MAX, 1), Err(ReadRefusal::Overflow));
}

#[test]
fn direct_reads_need_support() {
    assert_eq!(
        StreamReader::new(&records(), ReadMode::Direct, false),
        Err(ReadRefusal::Unsupported)
    );
    assert!(StreamReader::new(&records(), ReadMode::Direct, true).is_ok());
    assert!(StreamReader::new(&records(), ReadMode::Buffered, false).is_ok());
}

#[test]
fn a_bounce_starts_on_a_block() {
    let block = DIRECT_ALIGNMENT;
    assert_eq!(
        bounce_step(block as u64 + 10, 100),
        BounceStep { start: block as u64, skip: 10, want: 100, read: block }
    );
    let step = bounce_step(5, 2 * BOUNCE_BYTES);
    assert_eq!(step.start, 0);
    assert_eq!(step.skip, 5);
    assert_eq!(step.read, BOUNCE_BYTES);
    assert_eq!(step.want, BOUNCE_BYTES - 5);
    assert_eq!(direct_body(3 * block + 7), 3 * block);
    assert_eq!(direct_body(block - 1), 0);
}
