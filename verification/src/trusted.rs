//! What the library takes on trust: calls into the standard library and into
//! outside crates, each with the contract that the proofs rest on.

use crate::planner::safetensors::{is_space, past_space};
use crate::text::hex_char;
use sha2::Digest;
use vstd::prelude::*;
use vstd::utf8::encode_utf8;

verus! {

/// `std::io::Error`, opaque: it is carried through and never looked into.
#[verifier::external_type_specification]
#[verifier::external_body]
pub struct ExIoError(std::io::Error);

/// The SHA-256 digest of a byte string.
pub uninterp spec fn sha256(bytes: Seq<u8>) -> Seq<u8>;

/// `sha2::Sha256::digest`: the SHA-256 digest of the given bytes. Its value is
/// named, not spelled out; that it has thirty-two bytes is the array's length.
#[verifier::external_body]
pub(crate) fn sha256_digest(bytes: &[u8]) -> (digest: [u8; 32])
    ensures
        digest@ == sha256(bytes@),
{
    sha2::Sha256::digest(bytes).into()
}

/// A running SHA-256 computation.
#[verifier::external_body]
pub struct Hasher {
    inner: sha2::Sha256,
}

/// The bytes a running computation has taken in so far.
pub uninterp spec fn absorbed(hasher: Hasher) -> Seq<u8>;

/// `sha2::Sha256::new`: a computation that has taken in nothing.
#[verifier::external_body]
pub(crate) fn hasher_new() -> (hasher: Hasher)
    ensures
        absorbed(hasher) == Seq::<u8>::empty(),
{
    Hasher { inner: sha2::Sha256::new() }
}

/// `sha2::Sha256::update`: takes in `bytes` behind what was taken in before.
#[verifier::external_body]
pub(crate) fn hasher_update(hasher: &mut Hasher, bytes: &[u8])
    ensures
        absorbed(*final(hasher)) == absorbed(*old(hasher)) + bytes@,
{
    hasher.inner.update(bytes);
}

/// `sha2::Sha256::finalize`: the digest of everything taken in, the same as the
/// digest of those bytes in one piece.
#[verifier::external_body]
pub(crate) fn hasher_finish(hasher: Hasher) -> (digest: [u8; 32])
    ensures
        digest@ == sha256(absorbed(hasher)),
{
    hasher.inner.finalize().into()
}

/// `String::push`: appends one character.
pub assume_specification[ String::push ](text: &mut String, c: char)
    ensures
        final(text)@ == old(text)@.push(c),
;

/// `String::from_utf8`: succeeds exactly on valid UTF-8 and then holds the
/// characters the bytes encode.
#[verifier::external_body]
pub(crate) fn string_from_utf8(bytes: Vec<u8>) -> (text: Option<String>)
    ensures
        text is Some <==> vstd::utf8::valid_utf8(bytes@),
        text matches Some(t) ==> t@ == vstd::utf8::decode_utf8(bytes@),
{
    String::from_utf8(bytes).ok()
}

/// `std::io::Error::new` with the kind `InvalidInput`. Nothing is claimed of
/// the error but that there is one.
#[verifier::external_body]
pub(crate) fn invalid_input(message: &str) -> (error: std::io::Error) {
    std::io::Error::new(std::io::ErrorKind::InvalidInput, message)
}

/// `std::io::Error::new` with the kind `UnexpectedEof`. Nothing is claimed of
/// the error but that there is one.
#[verifier::external_body]
pub(crate) fn unexpected_eof(message: &str) -> (error: std::io::Error) {
    std::io::Error::new(std::io::ErrorKind::UnexpectedEof, message)
}

/// The JSON string that bytes start with, behind white space, and how many
/// bytes it takes with the white space before it.
pub uninterp spec fn json_string(bytes: Seq<u8>) -> Option<(Seq<char>, nat)>;

/// `serde_json::StreamDeserializer::<String>`: the JSON string that the bytes
/// start with, unescaped, and its end. The value is named; of the end it is
/// stated that it lies behind the start and within the bytes.
#[verifier::external_body]
pub(crate) fn read_json_string(bytes: &[u8]) -> (found: Option<(String, usize)>)
    ensures
        match found {
            Some((text, end)) => json_string(bytes@) == Some((text@, end as nat)) && 0 < end
                <= bytes@.len(),
            None => json_string(bytes@) is None,
        },
{
    let mut stream = serde_json::Deserializer::from_slice(bytes).into_iter::<String>();
    match stream.next() {
        Some(Ok(text)) => Some((text, stream.byte_offset())),
        _ => None,
    }
}

/// Where the decimal digits at `pos` end.
pub open spec fn digits_end(bytes: Seq<u8>, pos: int) -> int
    decreases bytes.len() - pos,
{
    if 0 <= pos < bytes.len() && 48 <= bytes[pos] <= 57 {
        digits_end(bytes, pos + 1)
    } else {
        pos
    }
}

/// The number that the digits from `from` to `to` spell.
pub open spec fn digits_value(bytes: Seq<u8>, from: int, to: int) -> nat
    decreases to - from,
{
    if to <= from {
        0
    } else {
        (digits_value(bytes, from, to - 1) * 10 + (bytes[to - 1] - 48)) as nat
    }
}

/// Whether a byte can stand behind a JSON number: white space, a quotation
/// mark, a bracket, a brace, a comma or a colon.
pub open spec fn ends_number(b: u8) -> bool {
    is_space(b) || b == 34 || b == 91 || b == 93 || b == 123 || b == 125 || b == 44 || b == 58
}

/// The unsigned JSON integer that bytes start with, behind white space, and how
/// many bytes it takes with the white space before it: digits without a leading
/// zero, within 64 bits, at the end of the bytes or before a byte that ends a
/// number.
pub open spec fn json_u64(bytes: Seq<u8>) -> Option<(u64, nat)> {
    let at = past_space(bytes, 0);
    let end = digits_end(bytes, at);
    if at < end && (bytes[at] == 48 ==> end == at + 1) && digits_value(bytes, at, end) <= u64::MAX && (
    end < bytes.len() ==> ends_number(bytes[end])) {
        Some((digits_value(bytes, at, end) as u64, end as nat))
    } else {
        None
    }
}

/// `serde_json::StreamDeserializer::<u64>`: the unsigned integer that the bytes
/// start with and its end. A sign, a fraction, an exponent and a number beyond
/// 64 bits are refused.
#[verifier::external_body]
pub(crate) fn read_json_u64(bytes: &[u8]) -> (found: Option<(u64, usize)>)
    ensures
        match found {
            Some((value, end)) => json_u64(bytes@) == Some((value, end as nat)) && 0 < end
                <= bytes@.len(),
            None => json_u64(bytes@) is None,
        },
{
    let mut stream = serde_json::Deserializer::from_slice(bytes).into_iter::<u64>();
    match stream.next() {
        Some(Ok(value)) => Some((value, stream.byte_offset())),
        _ => None,
    }
}

/// Whether a text is in Unicode normalization form C.
pub uninterp spec fn nfc(text: Seq<char>) -> bool;

/// `unicode_normalization::is_nfc`: whether the text is in normalization form C,
/// by the crate's Unicode tables. The answer is named.
#[verifier::external_body]
pub(crate) fn is_nfc(text: &str) -> (yes: bool)
    ensures
        yes == nfc(text@),
{
    unicode_normalization::is_nfc(text)
}

/// The lowercase mapping of one character.
pub uninterp spec fn lowercase(c: char) -> Seq<char>;

/// `char::to_lowercase`: the characters of the lowercase mapping, by the
/// standard library's Unicode tables. The mapping is named.
#[verifier::external_body]
pub(crate) fn to_lowercase(c: char) -> (text: String)
    ensures
        text@ == lowercase(c),
{
    c.to_lowercase().to_string()
}

/// A text between quotation marks, escaped.
pub uninterp spec fn quotation(text: Seq<char>) -> Seq<char>;

/// `core::fmt::Debug` for `str`: the text between quotation marks, with what
/// does not print escaped. The escaping is named.
#[verifier::external_body]
pub(crate) fn quoted(text: &str) -> (quoted: String)
    ensures
        quoted@ == quotation(text@),
{
    format!("{text:?}")
}

/// A character between single quotation marks, escaped.
pub uninterp spec fn char_quotation(c: char) -> Seq<char>;

/// `core::fmt::Debug` for `char`: the character between single quotation marks,
/// escaped where it does not print. The escaping is named.
#[verifier::external_body]
pub(crate) fn quoted_char(c: char) -> (quoted: String)
    ensures
        quoted@ == char_quotation(c),
{
    format!("{c:?}")
}

/// The character of a six-bit digit in the standard base64 alphabet.
pub open spec fn base64_char(digit: int) -> char {
    if digit < 26 {
        (65 + digit) as u8 as char
    } else if digit < 52 {
        (97 + digit - 26) as u8 as char
    } else if digit < 62 {
        (48 + digit - 52) as u8 as char
    } else if digit == 62 {
        '+'
    } else {
        '/'
    }
}

/// Bytes in base64: three bytes in four characters, the last characters filled
/// up with `=`.
pub open spec fn base64_text(bytes: Seq<u8>) -> Seq<char>
    decreases bytes.len(),
{
    if bytes.len() == 0 {
        Seq::empty()
    } else {
        let second = if bytes.len() > 1 {
            bytes[1] as int
        } else {
            0
        };
        let third = if bytes.len() > 2 {
            bytes[2] as int
        } else {
            0
        };
        let group = bytes[0] as int * 65536 + second * 256 + third;
        seq![
            base64_char(group / 262144),
            base64_char(group / 4096 % 64),
            if bytes.len() > 1 {
                base64_char(group / 64 % 64)
            } else {
                '='
            },
            if bytes.len() > 2 {
                base64_char(group % 64)
            } else {
                '='
            },
        ] + base64_text(
            bytes.skip(
                if bytes.len() > 2 {
                    3
                } else {
                    bytes.len() as int
                },
            ),
        )
    }
}

/// `base64::Engine::encode` of `base64::engine::general_purpose::STANDARD`: the
/// bytes in the standard alphabet, padded. The text must be one that a string
/// can hold.
#[verifier::external_body]
pub(crate) fn base64_standard(bytes: &[u8]) -> (text: String)
    requires
        4 * (bytes@.len() / 3 + 1) <= isize::MAX,
    ensures
        text@ == base64_text(bytes@),
{
    base64::engine::Engine::encode(&base64::engine::general_purpose::STANDARD, bytes)
}

/// A character as it stands in a JSON string.
pub open spec fn json_char(c: char) -> Seq<char> {
    if c == '"' || c == '\\' {
        seq!['\\', c]
    } else if c as int == 8 {
        seq!['\\', 'b']
    } else if c as int == 9 {
        seq!['\\', 't']
    } else if c as int == 10 {
        seq!['\\', 'n']
    } else if c as int == 12 {
        seq!['\\', 'f']
    } else if c as int == 13 {
        seq!['\\', 'r']
    } else if (c as int) < 32 {
        seq!['\\', 'u', '0', '0', hex_char(c as int / 16), hex_char(c as int % 16)]
    } else {
        seq![c]
    }
}

/// The characters of a text as they stand in a JSON string.
pub open spec fn json_chars(text: Seq<char>) -> Seq<char>
    decreases text.len(),
{
    if text.len() == 0 {
        Seq::empty()
    } else {
        json_chars(text.drop_last()) + json_char(text.last())
    }
}

/// A text as a JSON string.
pub open spec fn json_text(text: Seq<char>) -> Seq<char> {
    seq!['"'] + json_chars(text) + seq!['"']
}

/// `serde_json::to_string` of a `str`: the text between quotation marks, with
/// quotation marks, backslashes and control characters escaped. What is written
/// is read back by `serde_json::StreamDeserializer::<String>`, whatever stands
/// behind it. Writing a string never fails.
#[verifier::external_body]
pub(crate) fn json_quoted(text: &str) -> (quoted: String)
    ensures
        quoted@ == json_text(text@),
        forall|rest: Seq<u8>|
            json_string(#[trigger] (encode_utf8(quoted@) + rest)) == Some(
                (text@, encode_utf8(quoted@).len()),
            ),
{
    serde_json::to_string(text).unwrap_or_default()
}

} // verus!
