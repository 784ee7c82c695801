use std::io;

use tensorfs_core::hashrepo::source::{check_range, PositionalRead, ReadAnswer, ReadFault};

fn error_of(fault: ReadFault) -> io::Error {
    io::Error::from(match fault {
        ReadFault::RangeOverflow => io::ErrorKind::InvalidInput,
        ReadFault::PastEnd | ReadFault::Truncated => io::ErrorKind::UnexpectedEof,
        ReadFault::Exceeded => io::ErrorKind::InvalidData,
    })
}

fn read_exact_with(
    destination: &mut [u8],
    offset: u64,
    mut read_at: impl FnMut(&mut [u8], u64) -> io::Result<usize>,
) -> io::Result<()> {
    let mut read = PositionalRead::new(offset, destination.len());
    while !read.is_done() {
        let answer = match read_at(&mut destination[read.filled..], read.offset) {
            Ok(count) => ReadAnswer::Read(count),
            Err(error) if error.kind() == io::ErrorKind::Interrupted => ReadAnswer::Interrupted,
            Err(error) => return Err(error),
        };
        read.take(answer).map_err(error_of)?;
    }
    Ok(())
}

#[test]
fn propagates_non_interrupted_read_errors() {
    let error = read_exact_with(&mut [0_u8; 1], 0, |_, _| {
        Err(io::Error::from_raw_os_error(5))
    })
    .unwrap_err();
    assert_eq!(error.raw_os_error(), Some(5));
}

#[test]
fn retries_interrupted_and_partial_reads() {
    let mut calls = 0;
    let mut destination = [0_u8; 4];
    read_exact_with(&mut destination, 11, |buffer, offset| {
        calls += 1;
        match calls {
            1 => Err(io::Error::from(io::ErrorKind::Interrupted)),
            2 => {
                assert_eq!(offset, 11);
                buffer[..2].copy_from_slice(b"ab");
                Ok(2)
            }
            3 => {
                assert_eq!(offset, 13);
                buffer.copy_from_slice(b"cd");
                Ok(2)
            }
            _ => unreachable!(),
        }
    })
    .unwrap();
    assert_eq!(&destination, b"abcd");
}

#[test]
fn a_read_refuses_truncation_excess_and_overflow() {
    let mut read = PositionalRead::new(7, 4);
    assert_eq!(read.take(ReadAnswer::Read(0)), Err(ReadFault::Truncated));
    assert_eq!(read.take(ReadAnswer::Read(5)), Err(ReadFault::Exceeded));
    assert_eq!(read, PositionalRead { offset: 7, filled: 0, length: 4 });
    let mut last = PositionalRead::new(u64::MAX, 4);
    assert_eq!(last.take(ReadAnswer::Read(1)), Err(ReadFault::RangeOverflow));
}

#[test]
fn ranges_stay_within_the_captured_length() {
    assert_eq!(check_range(u64::MAX, 2, 4), Err(ReadFault::RangeOverflow));
    assert_eq!(check_range(3, 2, 4), Err(ReadFault::PastEnd));
    assert_eq!(check_range(4, 0, 4), Ok(()));
    assert_eq!(check_range(5, 0, 4), Err(ReadFault::PastEnd));
}

#[test]
fn a_read_goes_on_where_its_bytes_end() {
    let mut read = PositionalRead::new(100, 10);
    for answer in [
        ReadAnswer::Read(3),
        ReadAnswer::Interrupted,
        ReadAnswer::Read(1),
        ReadAnswer::Read(6),
    ] {
        read.take(answer).unwrap();
        assert_eq!(read.offset, 100 + read.filled as u64);
    }
    assert!(read.is_done());
}
