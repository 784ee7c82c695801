use tensorfs_core::arith::checked_product;
use tensorfs_core::planner::PlanError;
use tensorfs_core::text::{
    bytes_before, digits_value, is_utf8, join, parse_hex_chars, parse_unsigned, split, trim,
};
use tensorfs_core::wire::{push_le, read_le};

fn chars(text: &str) -> Vec<char> {
    text.chars().collect()
}

#[test]
fn numbers_are_read_as_the_standard_library_reads_them() {
    for text in ["0", "+7", "007", "18446744073709551615", "", "+", "-1", " 1", "18446744073709551616", "1a"] {
        assert_eq!(parse_unsigned(&chars(text)), text.parse::<u64>().ok(), "{text}");
    }
    assert_eq!(digits_value(&chars("0012")), Some(12));
    assert_eq!(parse_hex_chars(&chars("00ff")), Some(vec![0, 255]));
    assert_eq!(parse_hex_chars(&chars("0")), None);
    assert_eq!(parse_hex_chars(&chars("0F")), None);
}

#[test]
fn texts_are_trimmed_split_and_joined() {
    for text in ["", "  ", " a b ", "\u{3000}x\u{a0}", "\u{200b}y"] {
        let kept: String = trim(&chars(text)).iter().collect();
        assert_eq!(kept, text.trim(), "{text:?}");
    }
    assert_eq!(split("a/b//c", '/'), ["a", "b", "", "c"]);
    assert_eq!(split("", '/'), [""]);
    assert_eq!(join(&["a".to_owned(), "b".to_owned()], ", "), "a, b");
}

#[test]
fn utf8_is_told_from_other_bytes() {
    for bytes in [
        b"abc".as_slice(),
        "é€𐍈".as_bytes(),
        &[0xc0, 0x80],
        &[0xed, 0xa0, 0x80],
        &[0xf4, 0x90, 0x80, 0x80],
        &[0xe2, 0x82],
    ] {
        assert_eq!(is_utf8(bytes), std::str::from_utf8(bytes).is_ok(), "{bytes:?}");
    }
}

#[test]
fn byte_strings_are_ordered_as_slices_are() {
    let strings: [&[u8]; 5] = [b"", b"a", b"ab", b"b", &[0xff]];
    for left in strings {
        for right in strings {
            assert_eq!(bytes_before(left, right), left < right);
        }
    }
}

#[test]
fn numbers_are_written_little_endian() {
    let mut bytes = vec![9];
    push_le(&mut bytes, 0x0102_0304, 4);
    assert_eq!(bytes, [9, 4, 3, 2, 1]);
    assert_eq!(read_le(&bytes[1..]), 0x0102_0304);
    assert_eq!(checked_product(&[3, 4, 5]), Some(60));
    assert_eq!(checked_product(&[u64::MAX, 2]), None);
}

#[test]
fn a_planning_failure_is_told_in_words() {
    let cases = [
        (PlanError::Read(std::io::Error::other("x")), "source read failed"),
        (
            PlanError::SourceChanged(std::io::Error::other("x")),
            "source changed during planning or hashing",
        ),
        (PlanError::InvalidCoverage, "planner produced invalid file coverage"),
        (PlanError::ObjectLimit, "planner exceeds bounded object cardinality"),
        (PlanError::ResourceExhausted, "planner could not reserve bounded working memory"),
        (
            PlanError::SourceLengthMismatch { expected: 4, actual: 50 },
            "plan source length mismatch: expected 4, got 50",
        ),
    ];
    for (error, text) in cases {
        assert_eq!(error.to_text(), text);
    }
}
