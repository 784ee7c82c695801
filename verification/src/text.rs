//! Characters, decimal and hexadecimal spellings, and byte-string order.

use vstd::prelude::*;
use vstd::string::*;
use vstd::utf8::*;

verus! {

/// The characters of `text`, in order.
pub fn chars_of(text: &str) -> (chars: Vec<char>)
    ensures
        chars@ == text@,
{
    let mut chars: Vec<char> = Vec::new();
    for c in walk: text.chars()
        invariant
            walk.seq() == text@,
            chars@ == walk.seq().take(walk.index()),
    {
        chars.push(c);
    }
    chars
}

/// The string spelled by `chars`.
pub fn string_of(chars: &[char]) -> (text: String)
    ensures
        text@ == chars@,
{
    let mut text = String::new();
    let mut at: usize = 0;
    while at < chars.len()
        invariant
            at <= chars@.len(),
            text@ == chars@.take(at as int),
        decreases chars@.len() - at,
    {
        text.push(chars[at]);
        at += 1;
    }
    text
}

/// Appends `chars` to `text`.
pub fn push_chars(text: &mut String, chars: &[char])
    ensures
        final(text)@ == old(text)@ + chars@,
{
    let mut at: usize = 0;
    while at < chars.len()
        invariant
            at <= chars@.len(),
            text@ == old(text)@ + chars@.take(at as int),
        decreases chars@.len() - at,
    {
        text.push(chars[at]);
        at += 1;
    }
}

/// Whether two character runs are the same.
pub fn same_chars(left: &[char], right: &[char]) -> (same: bool)
    ensures
        same == (left@ == right@),
{
    if left.len() != right.len() {
        return false;
    }
    let mut at: usize = 0;
    while at < left.len()
        invariant
            left@.len() == right@.len(),
            at <= left@.len(),
            forall|i: int| 0 <= i < at ==> left@[i] == right@[i],
        decreases left@.len() - at,
    {
        if left[at] != right[at] {
            return false;
        }
        at += 1;
    }
    assert(left@ =~= right@);
    true
}

/// Whether two byte runs are the same.
pub fn same_bytes(left: &[u8], right: &[u8]) -> (same: bool)
    ensures
        same == (left@ == right@),
{
    if left.len() != right.len() {
        return false;
    }
    let mut at: usize = 0;
    while at < left.len()
        invariant
            left@.len() == right@.len(),
            at <= left@.len(),
            forall|i: int| 0 <= i < at ==> left@[i] == right@[i],
        decreases left@.len() - at,
    {
        if left[at] != right[at] {
            return false;
        }
        at += 1;
    }
    assert(left@ =~= right@);
    true
}

// ---------------------------------------------------------------------------
// Searching
// ---------------------------------------------------------------------------

/// The position of the first `c` in `s`, or the length.
pub open spec fn first_index(s: Seq<char>, c: char) -> int
    decreases s.len(),
{
    if s.len() == 0 || s[0] == c {
        0
    } else {
        1 + first_index(s.drop_first(), c)
    }
}

/// The position of the last `c` in `s`, or -1.
pub open spec fn last_index(s: Seq<char>, c: char) -> int
    decreases s.len(),
{
    if s.len() == 0 {
        -1
    } else if s.last() == c {
        s.len() - 1
    } else {
        last_index(s.drop_last(), c)
    }
}

pub proof fn first_index_facts(s: Seq<char>, c: char)
    ensures
        0 <= first_index(s, c) <= s.len(),
        first_index(s, c) < s.len() ==> s[first_index(s, c)] == c,
        forall|i: int| 0 <= i < first_index(s, c) ==> s[i] != c,
    decreases s.len(),
{
    if s.len() > 0 && s[0] != c {
        first_index_facts(s.drop_first(), c);
        assert forall|i: int| 0 <= i < first_index(s, c) implies s[i] != c by {
            if i > 0 {
                assert(s[i] == s.drop_first()[i - 1]);
            }
        }
    }
}

pub proof fn first_index_is(s: Seq<char>, c: char, at: int)
    requires
        0 <= at <= s.len(),
        at < s.len() ==> s[at] == c,
        forall|i: int| 0 <= i < at ==> s[i] != c,
    ensures
        first_index(s, c) == at,
{
    first_index_facts(s, c);
    let found = first_index(s, c);
    if found < at {
        assert(s[found] != c);
    }
}

pub fn position_of(chars: &[char], c: char) -> (at: usize)
    ensures
        at == first_index(chars@, c),
        at <= chars@.len(),
{
    let mut at: usize = 0;
    while at < chars.len()
        invariant
            at <= chars@.len(),
            forall|i: int| 0 <= i < at ==> chars@[i] != c,
        decreases chars@.len() - at,
    {
        if chars[at] == c {
            proof {
                first_index_is(chars@, c, at as int);
            }
            return at;
        }
        at += 1;
    }
    proof {
        first_index_is(chars@, c, at as int);
    }
    at
}

pub proof fn last_index_facts(s: Seq<char>, c: char)
    ensures
        -1 <= last_index(s, c) < s.len(),
        last_index(s, c) >= 0 ==> s[last_index(s, c)] == c,
        forall|i: int| last_index(s, c) < i < s.len() ==> s[i] != c,
    decreases s.len(),
{
    if s.len() > 0 && s.last() != c {
        last_index_facts(s.drop_last(), c);
        assert forall|i: int| last_index(s, c) < i < s.len() implies s[i] != c by {
            if i < s.len() - 1 {
                assert(s[i] == s.drop_last()[i]);
            }
        }
    }
}

pub proof fn last_index_is(s: Seq<char>, c: char, at: int)
    requires
        -1 <= at < s.len(),
        at >= 0 ==> s[at] == c,
        forall|i: int| at < i < s.len() ==> s[i] != c,
    ensures
        last_index(s, c) == at,
{
    last_index_facts(s, c);
}

// ---------------------------------------------------------------------------
// Character classes
// ---------------------------------------------------------------------------

pub open spec fn is_digit(c: char) -> bool {
    '0' <= c <= '9'
}

pub open spec fn is_lower(c: char) -> bool {
    'a' <= c <= 'z'
}

pub fn digit(c: char) -> (yes: bool)
    ensures
        yes == is_digit(c),
{
    '0' <= c && c <= '9'
}

pub fn lower(c: char) -> (yes: bool)
    ensures
        yes == is_lower(c),
{
    'a' <= c && c <= 'z'
}

pub open spec fn all_digits(s: Seq<char>) -> bool {
    forall|i: int| 0 <= i < s.len() ==> is_digit(#[trigger] s[i])
}

// ---------------------------------------------------------------------------
// Decimal
// ---------------------------------------------------------------------------

pub open spec fn digit_char(d: int) -> char {
    (48 + d) as char
}

/// The shortest decimal spelling of `n`.
pub open spec fn decimal(n: nat) -> Seq<char>
    decreases n,
{
    if n < 10 {
        seq![digit_char(n as int)]
    } else {
        decimal(n / 10).push(digit_char((n % 10) as int))
    }
}

/// The value of a run of decimal digits, the empty run being zero.
pub open spec fn decimal_value(s: Seq<char>) -> nat
    decreases s.len(),
{
    if s.len() == 0 {
        0
    } else {
        (decimal_value(s.drop_last()) * 10 + (s.last() as int - 48)) as nat
    }
}

/// A run of digits in its shortest spelling.
pub open spec fn is_shortest(s: Seq<char>) -> bool {
    &&& s.len() > 0
    &&& all_digits(s)
    &&& (s.len() > 1 ==> s[0] != '0')
}

/// The decimal spelling of a number is a shortest digit run of that value.
pub proof fn decimal_round_trip(n: nat)
    ensures
        is_shortest(decimal(n)),
        decimal_value(decimal(n)) == n,
        n > 0 ==> decimal(n)[0] != '0',
    decreases n,
{
    if n < 10 {
        assert(decimal(n).drop_last() =~= Seq::<char>::empty());
        assert(decimal_value(Seq::<char>::empty()) == 0);
    } else {
        decimal_round_trip(n / 10);
        let head = decimal(n / 10);
        let s = decimal(n);
        assert(s.drop_last() =~= head);
        assert forall|i: int| 0 <= i < s.len() implies is_digit(#[trigger] s[i]) by {
            if i < head.len() {
                assert(s[i] == head[i]);
            }
        }
        assert(s[0] == head[0]);
    }
}

/// A shortest digit run is the decimal spelling of its value.
pub proof fn decimal_of_value(s: Seq<char>)
    requires
        is_shortest(s),
    ensures
        decimal(decimal_value(s)) == s,
        s[0] != '0' ==> decimal_value(s) > 0,
    decreases s.len(),
{
    if s.len() == 1 {
        assert(s.drop_last() =~= Seq::<char>::empty());
        assert(decimal_value(s.drop_last()) == 0);
        assert(is_digit(s[0]));
        assert(decimal(decimal_value(s)) =~= s);
    } else {
        let head = s.drop_last();
        assert(head[0] == s[0]);
        assert forall|i: int| 0 <= i < head.len() implies is_digit(#[trigger] head[i]) by {
            assert(is_digit(s[i]));
        }
        decimal_of_value(head);
        assert(is_digit(s[s.len() - 1]));
        let v = decimal_value(head);
        let d = s.last() as int - 48;
        assert(decimal_value(s) == v * 10 + d);
        assert((v * 10 + d) / 10 == v && (v * 10 + d) % 10 == d);
        assert(decimal(decimal_value(s)) =~= s);
    }
}

/// Appends the decimal spelling of `n`.
pub fn push_decimal(text: &mut String, n: u64)
    ensures
        final(text)@ == old(text)@ + decimal(n as nat),
    decreases n,
{
    if n >= 10 {
        push_decimal(text, n / 10);
        proof {
            assert(decimal(n as nat) == decimal((n / 10) as nat).push(
                digit_char((n % 10) as int),
            ));
        }
    }
    let d: u8 = (n % 10) as u8;
    text.push((48 + d) as char);
    assert(text@ =~= old(text)@ + decimal(n as nat));
}

/// The number a digit run spells, when it fits in 64 bits.
pub fn digits_value(chars: &[char]) -> (value: Option<u64>)
    requires
        all_digits(chars@),
    ensures
        value matches Some(v) ==> v == decimal_value(chars@),
        value is None <==> decimal_value(chars@) > u64::MAX,
{
    let mut value: u64 = 0;
    let mut at: usize = 0;
    while at < chars.len()
        invariant
            at <= chars@.len(),
            all_digits(chars@),
            value == decimal_value(chars@.take(at as int)),
        decreases chars@.len() - at,
    {
        let c = chars[at];
        proof {
            assert(is_digit(chars@[at as int]));
            assert(chars@.take(at + 1).drop_last() =~= chars@.take(at as int));
            digits_value_grows(chars@, at + 1);
        }
        let d: u64 = (c as u32 - 48) as u64;
        if value > (u64::MAX - d) / 10 {
            return None;
        }
        value = value * 10 + d;
        at += 1;
    }
    proof {
        assert(chars@.take(at as int) =~= chars@);
    }
    Some(value)
}

proof fn digits_value_grows(s: Seq<char>, upto: int)
    requires
        all_digits(s),
        0 <= upto <= s.len(),
    ensures
        decimal_value(s.take(upto)) <= decimal_value(s),
    decreases s.len(),
{
    if upto == s.len() {
        assert(s.take(upto) =~= s);
    } else {
        assert(all_digits(s.drop_last())) by {
            assert forall|i: int| 0 <= i < s.drop_last().len() implies is_digit(
                #[trigger] s.drop_last()[i],
            ) by {
                assert(is_digit(s[i]));
            }
        }
        digits_value_grows(s.drop_last(), upto);
        assert(s.drop_last().take(upto) =~= s.take(upto));
        assert(is_digit(s[s.len() - 1]));
    }
}

/// What `str::parse` accepts as an unsigned number: digits behind at most one
/// plus sign, with any number of leading zeros, of a value within `max`.
pub open spec fn unsigned(s: Seq<char>, max: nat) -> Option<nat> {
    let digits = if s.len() > 0 && s[0] == '+' {
        s.skip(1)
    } else {
        s
    };
    if digits.len() > 0 && all_digits(digits) && decimal_value(digits) <= max {
        Some(decimal_value(digits))
    } else {
        None
    }
}

/// Parses an unsigned decimal number.
#[verifier::loop_isolation(false)]
pub fn parse_unsigned(chars: &[char]) -> (value: Option<u64>)
    ensures
        value matches Some(v) ==> unsigned(chars@, u64::MAX as nat) == Some(v as nat),
        value is None ==> unsigned(chars@, u64::MAX as nat) is None,
{
    let from: usize = if chars.len() > 0 && chars[0] == '+' {
        1
    } else {
        0
    };
    let digits = vstd::slice::slice_subrange(chars, from, chars.len());
    proof {
        assert(from == 0 ==> digits@ =~= chars@);
        assert(from == 1 ==> digits@ =~= chars@.skip(1));
    }
    if digits.len() == 0 {
        return None;
    }
    let mut at: usize = 0;
    while at < digits.len()
        invariant
            at <= digits@.len(),
            forall|i: int| 0 <= i < at ==> is_digit(#[trigger] digits@[i]),
        decreases digits@.len() - at,
    {
        if !digit(digits[at]) {
            assert(!is_digit(digits@[at as int]));
            return None;
        }
        at += 1;
    }
    digits_value(digits)
}

// ---------------------------------------------------------------------------
// Hexadecimal
// ---------------------------------------------------------------------------

/// The lowercase hexadecimal digit of value `d`.
pub open spec fn hex_char(d: int) -> char {
    if d < 10 {
        (48 + d) as char
    } else {
        (87 + d) as char
    }
}

/// The value of a lowercase hexadecimal digit.
pub open spec fn hex_value(c: char) -> Option<int> {
    if '0' <= c <= '9' {
        Some(c as int - 48)
    } else if 'a' <= c <= 'f' {
        Some(c as int - 87)
    } else {
        None
    }
}

/// The lowercase hexadecimal spelling of `bytes`, two digits each.
pub open spec fn hex(bytes: Seq<u8>) -> Seq<char>
    decreases bytes.len(),
{
    if bytes.len() == 0 {
        Seq::empty()
    } else {
        hex(bytes.drop_last()).push(hex_char(bytes.last() as int / 16)).push(
            hex_char(bytes.last() as int % 16),
        )
    }
}

/// The bytes a run of lowercase hexadecimal digit pairs spells.
pub open spec fn unhex(s: Seq<char>) -> Option<Seq<u8>>
    decreases s.len(),
{
    if s.len() == 0 {
        Some(Seq::empty())
    } else if s.len() == 1 {
        None
    } else {
        match (
            unhex(s.take(s.len() - 2)),
            hex_value(s[s.len() - 2]),
            hex_value(s[s.len() - 1]),
        ) {
            (Some(head), Some(high), Some(low)) => Some(head.push((high * 16 + low) as u8)),
            _ => None,
        }
    }
}

/// Reading back a hexadecimal spelling gives the bytes it was made of.
pub proof fn unhex_of_hex(bytes: Seq<u8>)
    ensures
        hex(bytes).len() == 2 * bytes.len(),
        unhex(hex(bytes)) == Some(bytes),
    decreases bytes.len(),
{
    if bytes.len() > 0 {
        unhex_of_hex(bytes.drop_last());
        let s = hex(bytes);
        assert(s.take(s.len() - 2) =~= hex(bytes.drop_last()));
        assert(bytes.drop_last().push(bytes.last()) =~= bytes);
    }
}

/// Only the spelling itself reads back as the bytes.
pub proof fn hex_of_unhex(s: Seq<char>)
    ensures
        unhex(s) matches Some(bytes) ==> hex(bytes) == s && s.len() == 2 * bytes.len(),
    decreases s.len(),
{
    if s.len() > 1 && unhex(s) is Some {
        hex_of_unhex(s.take(s.len() - 2));
        let bytes = unhex(s).unwrap();
        let head = unhex(s.take(s.len() - 2)).unwrap();
        assert(bytes.drop_last() =~= head);
        assert(hex(bytes) =~= s);
    }
}

fn hex_digit(d: u8) -> (c: char)
    requires
        d < 16,
    ensures
        c == hex_char(d as int),
{
    if d < 10 {
        (48 + d) as char
    } else {
        (87 + d) as char
    }
}

fn hex_digit_value(c: char) -> (value: Option<u8>)
    ensures
        value matches Some(v) ==> v < 16 && hex_value(c) == Some(v as int),
        value is None ==> hex_value(c) is None,
{
    if '0' <= c && c <= '9' {
        Some((c as u32 - 48) as u8)
    } else if 'a' <= c && c <= 'f' {
        Some((c as u32 - 87) as u8)
    } else {
        None
    }
}

/// Appends the lowercase hexadecimal spelling of `bytes`.
pub fn push_hex(text: &mut String, bytes: &[u8])
    ensures
        final(text)@ == old(text)@ + hex(bytes@),
{
    let mut at: usize = 0;
    while at < bytes.len()
        invariant
            at <= bytes@.len(),
            text@ == old(text)@ + hex(bytes@.take(at as int)),
        decreases bytes@.len() - at,
    {
        proof {
            assert(bytes@.take(at + 1).drop_last() =~= bytes@.take(at as int));
        }
        text.push(hex_digit(bytes[at] / 16));
        text.push(hex_digit(bytes[at] % 16));
        at += 1;
        assert(text@ =~= old(text)@ + hex(bytes@.take(at as int)));
    }
    proof {
        assert(bytes@.take(at as int) =~= bytes@);
    }
}

/// The bytes spelled by lowercase hexadecimal digit pairs.
pub fn parse_hex_chars(chars: &[char]) -> (bytes: Option<Vec<u8>>)
    ensures
        bytes matches Some(b) ==> unhex(chars@) == Some(b@),
        bytes is None ==> unhex(chars@) is None,
{
    if chars.len() % 2 != 0 {
        proof {
            hex_of_unhex(chars@);
        }
        return None;
    }
    let mut bytes: Vec<u8> = Vec::new();
    let mut at: usize = 0;
    while at < chars.len()
        invariant
            at <= chars@.len(),
            at % 2 == 0,
            chars@.len() % 2 == 0,
            unhex(chars@.take(at as int)) == Some(bytes@),
        decreases chars@.len() - at,
    {
        let ghost s = chars@.take(at + 2);
        proof {
            assert(s.take(s.len() - 2) =~= chars@.take(at as int));
        }
        match (hex_digit_value(chars[at]), hex_digit_value(chars[at + 1])) {
            (Some(high), Some(low)) => {
                bytes.push(high * 16 + low);
            },
            _ => {
                proof {
                    unhex_prefix(chars@, at + 2);
                }
                return None;
            },
        }
        at += 2;
    }
    proof {
        assert(chars@.take(at as int) =~= chars@);
    }
    Some(bytes)
}

proof fn unhex_prefix(s: Seq<char>, upto: int)
    requires
        0 <= upto <= s.len(),
        upto % 2 == 0,
        s.len() % 2 == 0,
        unhex(s.take(upto)) is None,
    ensures
        unhex(s) is None,
    decreases s.len(),
{
    if upto == s.len() {
        assert(s.take(upto) =~= s);
    } else {
        assert(s.take(s.len() - 2).take(upto) =~= s.take(upto));
        unhex_prefix(s.take(s.len() - 2), upto);
    }
}

/// Two texts one behind the other are encoded one behind the other.
pub proof fn encode_utf8_concat(a: Seq<char>, b: Seq<char>)
    ensures
        encode_utf8(a + b) == encode_utf8(a) + encode_utf8(b),
    decreases a.len(),
{
    if a.len() == 0 {
        assert(a + b =~= b);
        assert(encode_utf8(a) + encode_utf8(b) =~= encode_utf8(b));
    } else {
        encode_utf8_concat(a.drop_first(), b);
        assert((a + b).drop_first() =~= a.drop_first() + b);
        assert(encode_utf8(a + b) =~= encode_utf8(a) + encode_utf8(b));
    }
}

/// The array of thirty-two given bytes.
pub fn array_of_32(bytes: &[u8]) -> (array: [u8; 32])
    requires
        bytes@.len() == 32,
    ensures
        array@ == bytes@,
{
    let mut array: [u8; 32] = [0; 32];
    let mut at: usize = 0;
    while at < 32
        invariant
            at <= 32,
            bytes@.len() == 32,
            array@.len() == 32,
            forall|i: int| 0 <= i < at ==> array@[i] == bytes@[i],
        decreases 32 - at,
    {
        array[at] = bytes[at];
        at += 1;
    }
    assert(array@ =~= bytes@);
    array
}

/// The byte that two characters spell in lowercase hexadecimal digits. A plus
/// sign may stand for the first.
pub open spec fn pair_value(a: char, b: char) -> Option<int> {
    if a == '+' {
        hex_value(b)
    } else {
        match (hex_value(a), hex_value(b)) {
            (Some(high), Some(low)) => Some(high * 16 + low),
            _ => None,
        }
    }
}

/// The digest that sixty-four characters spell, two for each byte.
pub open spec fn digest_of_hex(text: Seq<char>) -> Option<Seq<u8>> {
    if text.len() == 64 && forall|i: int|
        0 <= i < 32 ==> #[trigger] pair_value(text[2 * i], text[2 * i + 1]) is Some {
        Some(Seq::new(32, |i: int| pair_value(text[2 * i], text[2 * i + 1]).unwrap() as u8))
    } else {
        None
    }
}

/// The digits of each byte stand at twice its place.
pub proof fn hex_at(bytes: Seq<u8>, i: int)
    requires
        0 <= i < bytes.len(),
    ensures
        hex(bytes).len() == 2 * bytes.len(),
        hex(bytes)[2 * i] == hex_char(bytes[i] as int / 16),
        hex(bytes)[2 * i + 1] == hex_char(bytes[i] as int % 16),
    decreases bytes.len(),
{
    if bytes.len() > 1 {
        if i == bytes.len() - 1 {
            hex_at(bytes.drop_last(), i - 1);
        } else {
            hex_at(bytes.drop_last(), i);
        }
    } else {
        assert(hex(bytes.drop_last()) =~= Seq::<char>::empty());
    }
}

/// A digest is read back from its spelling.
pub proof fn digest_of_hex_reads_back(digest: Seq<u8>)
    requires
        digest.len() == 32,
    ensures
        digest_of_hex(hex(digest)) == Some(digest),
{
    let text = hex(digest);
    hex_at(digest, 0);
    assert forall|i: int| 0 <= i < 32 implies #[trigger] pair_value(text[2 * i], text[2 * i + 1]) == Some(
        digest[i] as int,
    ) by {
        hex_at(digest, i);
    }
    assert(Seq::new(32, |i: int| pair_value(text[2 * i], text[2 * i + 1]).unwrap() as u8) =~= digest);
}

/// Without a plus sign, only the spelling itself is read as the digest.
pub proof fn digest_of_hex_is_its_spelling(text: Seq<char>)
    requires
        !text.contains('+'),
    ensures
        digest_of_hex(text) matches Some(digest) ==> text == hex(digest),
{
    if digest_of_hex(text) is Some {
        let digest = digest_of_hex(text).unwrap();
        hex_at(digest, 0);
        assert forall|k: int| 0 <= k < 64 implies text[k] == #[trigger] hex(digest)[k] by {
            let i = k / 2;
            hex_at(digest, i);
            assert(pair_value(text[2 * i], text[2 * i + 1]) is Some);
            assert(text.contains(text[2 * i]));
            assert(k == 2 * i || k == 2 * i + 1);
        }
        assert(text =~= hex(digest));
    }
}

/// Reads a digest.
pub fn parse_digest_chars(chars: &[char]) -> (digest: Option<[u8; 32]>)
    ensures
        match digest {
            Some(d) => digest_of_hex(chars@) == Some(d@),
            None => digest_of_hex(chars@) is None,
        },
{
    if chars.len() != 64 {
        return None;
    }
    let mut bytes: Vec<u8> = Vec::new();
    let mut at: usize = 0;
    while at < 32
        invariant
            at <= 32,
            chars@.len() == 64,
            bytes@.len() == at,
            forall|i: int|
                0 <= i < at ==> (#[trigger] pair_value(chars@[2 * i], chars@[2 * i + 1])) == Some(
                    bytes@[i] as int,
                ),
        decreases 32 - at,
    {
        let first = chars[2 * at];
        let low = match hex_digit_value(chars[2 * at + 1]) {
            Some(value) => value,
            None => {
                assert(pair_value(chars@[2 * at], chars@[2 * at + 1]) is None);
                return None;
            },
        };
        let value: u8 = if first == '+' {
            low
        } else {
            match hex_digit_value(first) {
                Some(high) => high * 16 + low,
                None => {
                    assert(pair_value(chars@[2 * at], chars@[2 * at + 1]) is None);
                    return None;
                },
            }
        };
        bytes.push(value);
        at += 1;
    }
    assert(bytes@ =~= Seq::new(
        32,
        |i: int| pair_value(chars@[2 * i], chars@[2 * i + 1]).unwrap() as u8,
    ));
    Some(array_of_32(&bytes))
}

// ---------------------------------------------------------------------------
// Byte-string order
// ---------------------------------------------------------------------------

/// Lexicographic order by byte value, a proper prefix coming first.
pub open spec fn bytes_less(a: Seq<u8>, b: Seq<u8>) -> bool
    decreases a.len(),
{
    if b.len() == 0 {
        false
    } else if a.len() == 0 {
        true
    } else if a[0] != b[0] {
        a[0] < b[0]
    } else {
        bytes_less(a.drop_first(), b.drop_first())
    }
}

/// No byte string comes before itself.
pub proof fn bytes_less_irreflexive(a: Seq<u8>)
    ensures
        !bytes_less(a, a),
    decreases a.len(),
{
    if a.len() > 0 {
        bytes_less_irreflexive(a.drop_first());
    }
}

/// The order is transitive.
pub proof fn bytes_less_transitive(a: Seq<u8>, b: Seq<u8>, c: Seq<u8>)
    requires
        bytes_less(a, b),
        bytes_less(b, c),
    ensures
        bytes_less(a, c),
    decreases a.len(),
{
    if a.len() > 0 && b.len() > 0 && c.len() > 0 && a[0] == b[0] && b[0] == c[0] {
        bytes_less_transitive(a.drop_first(), b.drop_first(), c.drop_first());
    }
}

/// Two different byte strings are ordered one way or the other.
pub proof fn bytes_less_total(a: Seq<u8>, b: Seq<u8>)
    ensures
        bytes_less(a, b) || bytes_less(b, a) || a == b,
    decreases a.len(),
{
    if a.len() > 0 && b.len() > 0 && a[0] == b[0] {
        bytes_less_total(a.drop_first(), b.drop_first());
        if a.drop_first() == b.drop_first() {
            assert(a =~= seq![a[0]] + a.drop_first());
            assert(b =~= seq![b[0]] + b.drop_first());
        }
    } else if a.len() == 0 && b.len() == 0 {
        assert(a =~= b);
    }
}

/// Whether `left` comes before `right`.
pub fn bytes_before(left: &[u8], right: &[u8]) -> (before: bool)
    ensures
        before == bytes_less(left@, right@),
{
    let mut at: usize = 0;
    proof {
        assert(left@.skip(0) =~= left@);
        assert(right@.skip(0) =~= right@);
    }
    while at < left.len() && at < right.len()
        invariant
            at <= left@.len(),
            at <= right@.len(),
            bytes_less(left@, right@) == bytes_less(left@.skip(at as int), right@.skip(at as int)),
        decreases left@.len() - at,
    {
        if left[at] != right[at] {
            return left[at] < right[at];
        }
        proof {
            assert(left@.skip(at as int).drop_first() =~= left@.skip(at + 1));
            assert(right@.skip(at as int).drop_first() =~= right@.skip(at + 1));
        }
        at += 1;
    }
    at < right.len()
}

// ---------------------------------------------------------------------------
// UTF-8
// ---------------------------------------------------------------------------

/// The width of the UTF-8 scalar that `bytes` start with, or zero when they
/// start with none.
pub fn scalar_width(bytes: &[u8]) -> (width: usize)
    ensures
        width == if bytes@.len() > 0 && valid_first_scalar(bytes@) {
            length_of_first_scalar(bytes@)
        } else {
            0
        },
{
    let n = bytes.len();
    if n == 0 {
        return 0;
    }
    let b0 = bytes[0];
    if b0 <= 0x7f {
        proof {
            assert((b0 & 0x7f) <= 0x7f) by (bit_vector);
        }
        return 1;
    }
    if n < 2 || bytes[1] < 0x80 || bytes[1] > 0xbf {
        return 0;
    }
    let b1 = bytes[1];
    if 0xc0 <= b0 && b0 <= 0xdf {
        let code: u32 = (((b0 & 0x1f) as u32) << 6) | ((b1 & 0x3f) as u32);
        return if 0x80 <= code && !(0xd800 <= code && code <= 0xdfff) {
            2
        } else {
            0
        };
    }
    if n < 3 || bytes[2] < 0x80 || bytes[2] > 0xbf {
        return 0;
    }
    let b2 = bytes[2];
    if 0xe0 <= b0 && b0 <= 0xef {
        let code: u32 = (((b0 & 0x0f) as u32) << 12) | (((b1 & 0x3f) as u32) << 6) | ((b2
            & 0x3f) as u32);
        return if 0x800 <= code && !(0xd800 <= code && code <= 0xdfff) {
            3
        } else {
            0
        };
    }
    if n < 4 || bytes[3] < 0x80 || bytes[3] > 0xbf {
        return 0;
    }
    let b3 = bytes[3];
    if 0xf0 <= b0 && b0 <= 0xf7 {
        let code: u32 = (((b0 & 0x07) as u32) << 18) | (((b1 & 0x3f) as u32) << 12) | (((b2
            & 0x3f) as u32) << 6) | ((b3 & 0x3f) as u32);
        return if 0x10000 <= code && code <= 0x10ffff && !(0xd800 <= code && code <= 0xdfff) {
            4
        } else {
            0
        };
    }
    0
}

/// Whether `bytes` are valid UTF-8.
pub fn is_utf8(bytes: &[u8]) -> (valid: bool)
    ensures
        valid == valid_utf8(bytes@),
{
    let mut at: usize = 0;
    assert(bytes@.skip(0) =~= bytes@);
    while at < bytes.len()
        invariant
            at <= bytes@.len(),
            valid_utf8(bytes@) == valid_utf8(bytes@.skip(at as int)),
        decreases bytes@.len() - at,
    {
        let rest = vstd::slice::slice_subrange(bytes, at, bytes.len());
        assert(rest@ =~= bytes@.skip(at as int));
        let width = scalar_width(rest);
        if width == 0 {
            return false;
        }
        proof {
            assert(pop_first_scalar(rest@) =~= bytes@.skip(at + width));
        }
        at += width;
    }
    true
}

/// Whether a scalar starts `bytes` is decided by the first four of them.
pub proof fn first_scalar_is_local(long: Seq<u8>, short: Seq<u8>)
    requires
        short.len() <= long.len(),
        short.len() >= 4 || short.len() == long.len(),
        forall|i: int| 0 <= i < short.len() ==> short[i] == long[i],
    ensures
        long.len() > 0 ==> valid_first_scalar(long) == valid_first_scalar(short),
        long.len() > 0 ==> length_of_first_scalar(long) == length_of_first_scalar(short),
        valid_first_scalar(short) ==> 1 <= length_of_first_scalar(short) <= 4,
{
}

/// The characters with the Unicode property `White_Space`.
pub open spec fn is_white(c: char) -> bool {
    let n = c as u32;
    (9 <= n <= 13) || n == 0x20 || n == 0x85 || n == 0xa0 || n == 0x1680 || (0x2000 <= n <= 0x200a)
        || n == 0x2028 || n == 0x2029 || n == 0x202f || n == 0x205f || n == 0x3000
}

fn white(c: char) -> (yes: bool)
    ensures
        yes == is_white(c),
{
    let n: u32 = c as u32;
    (9 <= n && n <= 13) || n == 0x20 || n == 0x85 || n == 0xa0 || n == 0x1680 || (0x2000 <= n && n
        <= 0x200a) || n == 0x2028 || n == 0x2029 || n == 0x202f || n == 0x205f || n == 0x3000
}

/// A text without the white space at its ends.
pub open spec fn trimmed(s: Seq<char>) -> Seq<char>
    decreases s.len(),
{
    if s.len() == 0 {
        s
    } else if is_white(s[0]) {
        trimmed(s.drop_first())
    } else if is_white(s.last()) {
        trimmed(s.drop_last())
    } else {
        s
    }
}

/// Trims white space at both ends.
pub fn trim(chars: &[char]) -> (kept: &[char])
    ensures
        kept@ == trimmed(chars@),
{
    let mut low: usize = 0;
    let mut high: usize = chars.len();
    assert(chars@.subrange(0, chars@.len() as int) =~= chars@);
    while low < high && white(chars[low])
        invariant
            low <= high,
            high == chars@.len(),
            trimmed(chars@) == trimmed(chars@.subrange(low as int, high as int)),
        decreases high - low,
    {
        assert(chars@.subrange(low as int, high as int).drop_first() =~= chars@.subrange(
            low + 1,
            high as int,
        ));
        low += 1;
    }
    while low < high && white(chars[high - 1])
        invariant
            low <= high <= chars@.len(),
            low < high ==> !is_white(chars@[low as int]),
            trimmed(chars@) == trimmed(chars@.subrange(low as int, high as int)),
        decreases high - low,
    {
        assert(chars@.subrange(low as int, high as int).drop_last() =~= chars@.subrange(
            low as int,
            high - 1,
        ));
        high -= 1;
    }
    vstd::slice::slice_subrange(chars, low, high)
}

/// Texts one behind the other, `between` standing between each two of the first
/// `upto`.
pub open spec fn joined(list: Seq<Seq<char>>, between: Seq<char>, upto: int) -> Seq<char>
    decreases upto,
{
    if upto <= 0 {
        Seq::empty()
    } else if upto == 1 {
        list[0]
    } else {
        joined(list, between, upto - 1) + between + list[upto - 1]
    }
}

/// The values of strings.
pub open spec fn strings(list: Seq<String>) -> Seq<Seq<char>> {
    list.map_values(|text: String| text@)
}

/// Joins texts.
pub fn join(list: &[String], between: &str) -> (text: String)
    ensures
        text@ == joined(strings(list@), between@, list@.len() as int),
{
    let ghost views = strings(list@);
    let mut text = String::new();
    let mut at: usize = 0;
    while at < list.len()
        invariant
            at <= list@.len(),
            views == strings(list@),
            text@ == joined(views, between@, at as int),
        decreases list@.len() - at,
    {
        assert(views[at as int] == list@[at as int]@);
        if at > 0 {
            text.append(between);
        }
        text.append(list[at].as_str());
        assert(text@ =~= joined(views, between@, at + 1));
        at += 1;
    }
    text
}

/// The parts of a text between the places where `c` stands.
pub open spec fn split_at(text: Seq<char>, c: char) -> Seq<Seq<char>>
    decreases text.len(),
{
    if text.len() == 0 {
        seq![Seq::empty()]
    } else {
        let before = split_at(text.drop_last(), c);
        if text.last() == c {
            before.push(Seq::empty())
        } else {
            before.drop_last().push(before.last().push(text.last()))
        }
    }
}

pub proof fn split_is_filled(text: Seq<char>, c: char)
    ensures
        split_at(text, c).len() > 0,
    decreases text.len(),
{
    if text.len() > 0 {
        split_is_filled(text.drop_last(), c);
    }
}

/// Splits a text.
pub fn split(text: &str, c: char) -> (parts: Vec<String>)
    ensures
        strings(parts@) == split_at(text@, c),
{
    let chars = chars_of(text);
    let mut parts: Vec<String> = Vec::new();
    let mut part = String::new();
    let mut at: usize = 0;
    assert(chars@.take(0) =~= Seq::<char>::empty());
    assert(strings(parts@).push(part@) =~= split_at(chars@.take(0), c));
    while at < chars.len()
        invariant
            at <= chars@.len(),
            strings(parts@).push(part@) == split_at(chars@.take(at as int), c),
        decreases chars@.len() - at,
    {
        let ghost before = strings(parts@);
        let ghost head = part@;
        proof {
            assert(chars@.take(at + 1).drop_last() =~= chars@.take(at as int));
            assert(before.push(head).drop_last() =~= before);
        }
        if chars[at] == c {
            parts.push(part);
            part = String::new();
            assert(strings(parts@) =~= before.push(head));
        } else {
            part.push(chars[at]);
        }
        at += 1;
    }
    let ghost before = strings(parts@);
    let ghost last = part@;
    parts.push(part);
    proof {
        assert(chars@.take(at as int) =~= text@);
        assert(strings(parts@) =~= before.push(last));
    }
    parts
}

/// A sorted list of distinct texts with one more text.
pub open spec fn with_text(list: Seq<Seq<char>>, text: Seq<char>) -> Seq<Seq<char>>
    decreases list.len(),
{
    if list.len() == 0 {
        seq![text]
    } else if list[0] == text {
        list
    } else if bytes_less(vstd::utf8::encode_utf8(text), vstd::utf8::encode_utf8(list[0])) {
        seq![text] + list
    } else {
        seq![list[0]] + with_text(list.drop_first(), text)
    }
}

/// Adds a text to a sorted list of distinct texts.
pub fn insert_text(list: &mut Vec<String>, text: &str)
    ensures
        strings(final(list)@) == with_text(strings(old(list)@), text@),
{
    let ghost before = strings(list@);
    let chars = chars_of(text);
    let mut at: usize = 0;
    assert(before.skip(0) =~= before);
    assert(before.take(0) + with_text(before, text@) =~= with_text(before, text@));
    while at < list.len()
        invariant
            at <= list@.len(),
            before == strings(list@),
            list@ == old(list)@,
            chars@ == text@,
            with_text(before, text@) == before.take(at as int) + with_text(
                before.skip(at as int),
                text@,
            ),
        decreases list@.len() - at,
    {
        let ghost rest = before.skip(at as int);
        assert(rest[0] == list@[at as int]@);
        if same_chars(&chars_of(list[at].as_str()), &chars) {
            assert(before.take(at as int) + rest =~= before);
            return;
        }
        if bytes_before(text.as_bytes(), list[at].as_str().as_bytes()) {
            list.insert(at, text.to_string());
            assert(strings(list@) =~= before.take(at as int) + (seq![text@] + rest));
            return;
        }
        proof {
            assert(rest.drop_first() =~= before.skip(at + 1));
            assert(before.take(at as int) + (seq![rest[0]] + with_text(before.skip(at + 1), text@))
                =~= before.take(at + 1) + with_text(before.skip(at + 1), text@));
        }
        at += 1;
    }
    list.push(text.to_string());
    assert(before.skip(at as int) =~= Seq::<Seq<char>>::empty());
    assert(strings(list@) =~= before.take(at as int) + seq![text@]);
}

/// Whether a text begins with another.
pub open spec fn begins_with(text: Seq<char>, head: Seq<char>) -> bool {
    head.len() <= text.len() && text.subrange(0, head.len() as int) == head
}

/// Whether a text ends with another.
pub open spec fn ends_with(text: Seq<char>, tail: Seq<char>) -> bool {
    tail.len() <= text.len() && text.skip(text.len() - tail.len()) == tail
}

/// What stands behind a text's beginning.
pub fn strip_prefix(text: &str, head: &str) -> (rest: Option<String>)
    ensures
        match rest {
            Some(r) => begins_with(text@, head@) && r@ == text@.skip(head@.len() as int),
            None => !begins_with(text@, head@),
        },
{
    let chars = chars_of(text);
    let front = chars_of(head);
    if chars.len() < front.len() || !same_chars(
        vstd::slice::slice_subrange(chars.as_slice(), 0, front.len()),
        &front,
    ) {
        return None;
    }
    let rest = string_of(vstd::slice::slice_subrange(chars.as_slice(), front.len(), chars.len()));
    assert(rest@ =~= text@.skip(head@.len() as int));
    Some(rest)
}

/// Whether a name begins and ends as given.
pub fn is_between(name: &str, head: &str, tail: &str) -> (yes: bool)
    ensures
        yes == (begins_with(name@, head@) && ends_with(name@, tail@)),
{
    let chars = chars_of(name);
    let front = chars_of(head);
    let back = chars_of(tail);
    let length: usize = chars.len();
    if length < front.len() || length < back.len() {
        return false;
    }
    let end = vstd::slice::slice_subrange(chars.as_slice(), length - back.len(), length);
    assert(end@ =~= name@.skip(length - back@.len()));
    same_chars(vstd::slice::slice_subrange(chars.as_slice(), 0, front.len()), &front) && same_chars(
        end,
        &back,
    )
}

/// Whether a text ends with another.
pub fn has_tail(text: &str, tail: &str) -> (yes: bool)
    ensures
        yes == ends_with(text@, tail@),
{
    let chars = chars_of(text);
    let wanted = chars_of(tail);
    if chars.len() < wanted.len() {
        return false;
    }
    let from: usize = chars.len() - wanted.len();
    let end = vstd::slice::slice_subrange(&chars, from, chars.len());
    assert(end@ =~= text@.skip(from as int));
    same_chars(end, &wanted)
}

} // verus!
