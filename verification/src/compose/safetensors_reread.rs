//! A composed safetensors container reads back as what was composed.

use super::safetensors::{
    head_bytes, header_text, layout_rises, listed, member_text, members_text, new_start,
    new_starts_fit, rising, short_of_eight, tensor_names, unusable_at, usable,
};
use super::{in_source_order, selected, selection_is_well_made, Kept, Unnamed};
use crate::planner::safetensors::{
    byte_size, descriptor_at, empty_header, field_after, fields_from, fill_data, header_of, in_file_order,
    laid_out, layout_fills_the_file, layout_of, layout_tensors_are_sound, member_after,
    members_from, next_item, no_fields, number_at, numbers_at, numbers_from, past_mark, past_space,
    reached, sound, span_keys, span_of, string_at, Descriptor, Fields, Header, LayoutModel,
    SpanModel, MAX_HEADER_SIZE,
};
use crate::planner::MAX_OBJECT_COUNT;
use crate::sort::{sorted_order_is, sorts_before};
use crate::text::{all_digits, decimal, decimal_round_trip, decimal_value, encode_utf8_concat};
use crate::trusted::{
    digits_end, digits_value, ends_number, json_char, json_chars, json_string, json_text,
};
use crate::wire::{le_bytes, le_of_le_bytes, stands_at, stands_split, stands_u64, u64_at};
use vstd::prelude::*;
use vstd::utf8::{encode_utf8, is_ascii_chars, is_ascii_chars_encode_utf8};

verus! {

// ---------------------------------------------------------------------------
// Texts in bytes
// ---------------------------------------------------------------------------

/// A text stands at `pos`, in UTF-8.
spec fn spelled(h: Seq<u8>, pos: int, text: Seq<char>) -> bool {
    stands_at(h, pos, encode_utf8(text))
}

/// How many bytes a text takes.
spec fn width(text: Seq<char>) -> int {
    encode_utf8(text).len() as int
}

proof fn spelled_split(h: Seq<u8>, pos: int, a: Seq<char>, b: Seq<char>)
    ensures
        spelled(h, pos, a + b) == (spelled(h, pos, a) && spelled(h, pos + width(a), b)),
        width(a + b) == width(a) + width(b),
{
    encode_utf8_concat(a, b);
    stands_split(h, pos, encode_utf8(a), encode_utf8(b));
}

/// A character of ASCII takes a byte.
proof fn mark_is_a_byte(h: Seq<u8>, pos: int, c: char)
    requires
        c <= '\u{7f}',
    ensures
        width(seq![c]) == 1,
        spelled(h, pos, seq![c]) ==> 0 <= pos < h.len() && h[pos] == c as u8,
{
    let text = seq![c];
    assert(is_ascii_chars(text));
    is_ascii_chars_encode_utf8(text);
    let bytes = encode_utf8(text);
    assert(bytes[0] == text[0] as u8);
    if spelled(h, pos, text) {
        assert(h.subrange(pos, pos + 1)[0] == bytes[0]);
    }
}

/// The texts from `from` on, one behind the other.
spec fn joined(tokens: Seq<Seq<char>>, from: int) -> Seq<char>
    decreases tokens.len() - from,
{
    if 0 <= from < tokens.len() {
        tokens[from] + joined(tokens, from + 1)
    } else {
        Seq::empty()
    }
}

/// How many bytes the first `upto` texts take.
spec fn offset(tokens: Seq<Seq<char>>, upto: int) -> int
    decreases upto,
{
    if upto <= 0 {
        0
    } else {
        offset(tokens, upto - 1) + width(tokens[upto - 1])
    }
}

proof fn tokens_stand(h: Seq<u8>, pos: int, tokens: Seq<Seq<char>>, from: int)
    requires
        0 <= from <= tokens.len(),
        spelled(h, pos + offset(tokens, from), joined(tokens, from)),
    ensures
        forall|i: int|
            from <= i < tokens.len() ==> spelled(h, pos + offset(tokens, i), #[trigger] tokens[i]),
        offset(tokens, tokens.len() as int) == offset(tokens, from) + width(joined(tokens, from)),
    decreases tokens.len() - from,
{
    if from < tokens.len() {
        spelled_split(h, pos + offset(tokens, from), tokens[from], joined(tokens, from + 1));
        tokens_stand(h, pos, tokens, from + 1);
    } else {
        encode_utf8_concat(Seq::<char>::empty(), Seq::<char>::empty());
        assert(Seq::<char>::empty() + Seq::<char>::empty() =~= Seq::<char>::empty());
    }
}

// ---------------------------------------------------------------------------
// Strings and numbers
// ---------------------------------------------------------------------------

/// A text is read back from its JSON string, whatever stands behind it.
pub open spec fn reads_back(text: Seq<char>) -> bool {
    forall|rest: Seq<u8>|
        json_string(#[trigger] (encode_utf8(json_text(text)) + rest)) == Some(
            (text, encode_utf8(json_text(text)).len()),
        )
}

proof fn string_is_read(h: Seq<u8>, pos: int, text: Seq<char>)
    requires
        reads_back(text),
        spelled(h, pos, json_text(text)),
    ensures
        string_at(h, pos) == Some((text, pos + width(json_text(text)))),
        width(json_text(text)) > 0,
        h[pos] == 34,
{
    let quoted = encode_utf8(json_text(text));
    let end = pos + quoted.len();
    let body = json_chars(text) + seq!['"'];
    assert(json_text(text) =~= seq!['"'] + body);
    spelled_split(h, pos, seq!['"'], body);
    mark_is_a_byte(h, pos, '"');
    assert(h.skip(pos) =~= quoted + h.skip(end)) by {
        assert(h.subrange(pos, end) == quoted);
        assert(h.skip(pos) =~= h.subrange(pos, end) + h.skip(end));
    }
}

/// A text of which nothing is escaped.
spec fn plain(text: Seq<char>) -> bool {
    forall|i: int| 0 <= i < text.len() ==> json_char(#[trigger] text[i]) == seq![text[i]]
}

proof fn plain_stays(text: Seq<char>)
    requires
        plain(text),
    ensures
        json_chars(text) == text,
    decreases text.len(),
{
    if text.len() > 0 {
        assert(plain(text.drop_last())) by {
            assert forall|i: int| 0 <= i < text.drop_last().len() implies json_char(
                #[trigger] text.drop_last()[i],
            ) == seq![text.drop_last()[i]] by {
                assert(text[i] == text.drop_last()[i]);
            }
        }
        plain_stays(text.drop_last());
        assert(json_char(text[text.len() - 1]) == seq![text.last()]);
        assert(json_chars(text) =~= text);
    } else {
        assert(json_chars(text) =~= text);
    }
}

proof fn digits_end_is(b: Seq<u8>, from: int, to: int)
    requires
        0 <= from <= to <= b.len(),
        forall|i: int| from <= i < to ==> 48 <= #[trigger] b[i] <= 57,
        to < b.len() ==> !(48 <= b[to] <= 57),
    ensures
        digits_end(b, from) == to,
    decreases to - from,
{
    if from < to {
        digits_end_is(b, from + 1, to);
    }
}

proof fn digits_value_is(b: Seq<u8>, text: Seq<char>, upto: int)
    requires
        0 <= upto <= text.len() <= b.len(),
        all_digits(text),
        forall|i: int| 0 <= i < text.len() ==> b[i] == #[trigger] text[i] as u8,
    ensures
        digits_value(b, 0, upto) == decimal_value(text.take(upto)),
    decreases upto,
{
    if upto > 0 {
        digits_value_is(b, text, upto - 1);
        let taken = text.take(upto);
        assert(taken.drop_last() =~= text.take(upto - 1));
        assert(taken.last() == text[upto - 1]);
        assert(b[upto - 1] == text[upto - 1] as u8);
    }
}

proof fn number_is_read(h: Seq<u8>, pos: int, n: u64)
    requires
        spelled(h, pos, decimal(n as nat)),
        pos + width(decimal(n as nat)) < h.len(),
        ends_number(h[pos + width(decimal(n as nat))]),
    ensures
        number_at(h, pos) == Some((n, pos + width(decimal(n as nat)))),
        width(decimal(n as nat)) > 0,
        48 <= h[pos] <= 57,
{
    let text = decimal(n as nat);
    let bytes = encode_utf8(text);
    decimal_round_trip(n as nat);
    assert(is_ascii_chars(text));
    is_ascii_chars_encode_utf8(text);
    let count = text.len() as int;
    let b = h.skip(pos);
    assert forall|i: int| 0 <= i < count implies b[i] == #[trigger] text[i] as u8 && 48 <= b[i] <= 57 by {
        assert(h.subrange(pos, pos + count)[i] == bytes[i]);
        assert(bytes[i] == text[i] as u8);
    }
    assert(b[count] == h[pos + count]);
    digits_end_is(b, 0, count);
    digits_value_is(b, text, count);
    assert(text.take(count) =~= text);
    assert(b[0] == text[0] as u8 && b[0] == h[pos]);
    assert(past_space(b, 0) == 0);
    if b[0] == 48 {
        assert(text[0] == '0');
    }
}

// ---------------------------------------------------------------------------
// Lists
// ---------------------------------------------------------------------------

proof fn listed_stands(h: Seq<u8>, pos: int, numbers: Seq<u64>, upto: int, high: int)
    requires
        0 <= upto <= high,
        spelled(h, pos, listed(numbers, high)),
    ensures
        spelled(h, pos, listed(numbers, upto)),
        width(listed(numbers, upto)) <= width(listed(numbers, high)),
        0 < upto < high ==> h[pos + width(listed(numbers, upto))] == 44,
    decreases high - upto,
{
    if upto < high {
        let before = listed(numbers, high - 1);
        let last = decimal(numbers[high - 1] as nat);
        if high == 1 {
            assert(seq![] + last =~= last);
            spelled_split(h, pos, Seq::empty(), last);
        } else {
            reveal_strlit(",");
            assert(","@ =~= seq![',']);
            spelled_split(h, pos, before + ","@, last);
            spelled_split(h, pos, before, ","@);
            mark_is_a_byte(h, pos + width(before), ',');
        }
        listed_stands(h, pos, numbers, upto, high - 1);
    }
}

/// What stands behind the first `i` numbers of a list is read on to its end.
proof fn list_is_read(h: Seq<u8>, pos: int, numbers: Seq<u64>, i: int)
    requires
        0 <= i <= numbers.len(),
        spelled(h, pos, listed(numbers, numbers.len() as int)),
        pos + width(listed(numbers, numbers.len() as int)) < h.len(),
        h[pos + width(listed(numbers, numbers.len() as int))] == 93,
    ensures
        numbers_from(h, pos + width(listed(numbers, i)), i == 0, numbers.take(i)) == Some(
            (numbers, pos + width(listed(numbers, numbers.len() as int)) + 1),
        ),
    decreases numbers.len() - i,
{
    let count = numbers.len() as int;
    let at = pos + width(listed(numbers, i));
    listed_stands(h, pos, numbers, i, count);
    if i == count {
        assert(numbers.take(i) =~= numbers);
    } else {
        let next = pos + width(listed(numbers, i + 1));
        let number = decimal(numbers[i] as nat);
        listed_stands(h, pos, numbers, i + 1, count);
        let from = if i == 0 {
            at
        } else {
            at + 1
        };
        if i == 0 {
            assert(seq![] + number =~= number);
            spelled_split(h, pos, Seq::empty(), number);
        } else {
            reveal_strlit(",");
            assert(","@ =~= seq![',']);
            spelled_split(h, pos, listed(numbers, i) + ","@, number);
            spelled_split(h, pos, listed(numbers, i), ","@);
            mark_is_a_byte(h, at, ',');
        }
        number_is_read(h, from, numbers[i]);
        assert(next_item(h, at, i == 0, 93) == Some((true, from)));
        assert(numbers.take(i).push(numbers[i]) =~= numbers.take(i + 1));
        list_is_read(h, pos, numbers, i + 1);
    }
}

proof fn numbers_are_read(h: Seq<u8>, pos: int, numbers: Seq<u64>)
    requires
        spelled(h, pos, seq!['[']),
        spelled(h, pos + 1, listed(numbers, numbers.len() as int)),
        spelled(h, pos + 1 + width(listed(numbers, numbers.len() as int)), seq![']']),
    ensures
        numbers_at(h, pos) == Some(
            (numbers, pos + 1 + width(listed(numbers, numbers.len() as int)) + 1),
        ),
{
    let end = pos + 1 + width(listed(numbers, numbers.len() as int));
    mark_is_a_byte(h, pos, '[');
    mark_is_a_byte(h, end, ']');
    list_is_read(h, pos + 1, numbers, 0);
    assert(numbers.take(0) =~= Seq::empty());
    encode_utf8_concat(Seq::<char>::empty(), Seq::<char>::empty());
    assert(Seq::<char>::empty() + Seq::<char>::empty() =~= Seq::<char>::empty());
    assert(width(listed(numbers, 0)) == 0);
}

// ---------------------------------------------------------------------------
// Members
// ---------------------------------------------------------------------------

/// The member of a tensor, in pieces.
spec fn member_tokens(name: Seq<char>, descriptor: Descriptor) -> Seq<Seq<char>> {
    let shape = descriptor.shape;
    let offsets = seq![descriptor.offsets.0, descriptor.offsets.1];
    seq![
        json_text(name),
        seq![':'],
        seq!['{'],
        json_text("dtype"@),
        seq![':'],
        json_text(descriptor.dtype),
        seq![','],
        json_text("shape"@),
        seq![':'],
        seq!['['],
        listed(shape, shape.len() as int),
        seq![']'],
        seq![','],
        json_text("data_offsets"@),
        seq![':'],
        seq!['['],
        listed(offsets, 2),
        seq![']'],
        seq!['}'],
    ]
}

/// What the header says of a kept tensor.
pub open spec fn kept_descriptor(tensors: Seq<SpanModel>, kept: Seq<Kept>, k: int) -> Descriptor {
    let tensor = tensors[kept[k].1];
    Descriptor {
        dtype: tensor.dtype,
        shape: tensor.shape,
        offsets: (new_start(tensors, kept, k) as u64, new_start(tensors, kept, k + 1) as u64),
    }
}

pub(crate) proof fn keys_are_plain()
    ensures
        json_text("dtype"@) == "\"dtype\""@,
        json_text("shape"@) == "\"shape\""@,
        json_text("data_offsets"@) == "\"data_offsets\""@,
{
    reveal_strlit("dtype");
    reveal_strlit("shape");
    reveal_strlit("data_offsets");
    reveal_strlit("\"dtype\"");
    reveal_strlit("\"shape\"");
    reveal_strlit("\"data_offsets\"");
    plain_stays("dtype"@);
    plain_stays("shape"@);
    plain_stays("data_offsets"@);
    assert(json_text("dtype"@) =~= "\"dtype\""@);
    assert(json_text("shape"@) =~= "\"shape\""@);
    assert(json_text("data_offsets"@) =~= "\"data_offsets\""@);
}

proof fn regrouped(a: Seq<char>, b: Seq<char>, c: Seq<char>)
    ensures
        a + b + c == a + (b + c),
{
    assert(a + b + c =~= a + (b + c));
}

proof fn pair_is_listed(a: u64, b: u64)
    ensures
        listed(seq![a, b], 2) == decimal(a as nat) + ","@ + decimal(b as nat),
{
    reveal_with_fuel(listed, 3);
}

/// The pieces of a member make up its text.
proof fn pieces_make_the_member(name: Seq<char>, descriptor: Descriptor)
    ensures
        joined(member_tokens(name, descriptor), 0) == json_text(name) + ":{\"dtype\":"@ + json_text(
            descriptor.dtype,
        ) + ",\"shape\":["@ + listed(descriptor.shape, descriptor.shape.len() as int)
            + "],\"data_offsets\":["@ + listed(seq![descriptor.offsets.0, descriptor.offsets.1], 2)
            + "]}"@,
{
    let tokens = member_tokens(name, descriptor);
    keys_are_plain();
    reveal_strlit("\"dtype\"");
    reveal_strlit("\"shape\"");
    reveal_strlit("\"data_offsets\"");
    reveal_strlit(":{\"dtype\":");
    reveal_strlit(",\"shape\":[");
    reveal_strlit("],\"data_offsets\":[");
    reveal_strlit("]}");
    let (a, b) = (json_text(name), ":{\"dtype\":"@);
    let (c, d) = (json_text(descriptor.dtype), ",\"shape\":["@);
    let (e, f) = (listed(descriptor.shape, descriptor.shape.len() as int), "],\"data_offsets\":["@);
    let (g, z) = (listed(seq![descriptor.offsets.0, descriptor.offsets.1], 2), "]}"@);
    assert(joined(tokens, 19) == Seq::<char>::empty());
    assert(joined(tokens, 18) =~= seq!['}']);
    assert(joined(tokens, 17) =~= z);
    assert(joined(tokens, 16) == g + z);
    assert(joined(tokens, 15) == seq!['['] + (g + z));
    assert(joined(tokens, 14) =~= ":["@ + (g + z)) by {
        reveal_strlit(":[");
    }
    assert(joined(tokens, 13) == "\"data_offsets\""@ + joined(tokens, 14));
    assert(joined(tokens, 12) == seq![','] + joined(tokens, 13));
    assert(joined(tokens, 11) == seq![']'] + joined(tokens, 12));
    assert(joined(tokens, 11) =~= f + (g + z)) by {
        reveal_strlit(":[");
        assert(f =~= seq![']'] + (seq![','] + ("\"data_offsets\""@ + ":["@)));
    }
    assert(joined(tokens, 10) == e + joined(tokens, 11));
    assert(joined(tokens, 9) == seq!['['] + joined(tokens, 10));
    assert(joined(tokens, 8) == seq![':'] + joined(tokens, 9));
    assert(joined(tokens, 7) == "\"shape\""@ + joined(tokens, 8));
    assert(joined(tokens, 6) =~= d + joined(tokens, 10)) by {
        assert(d =~= seq![','] + ("\"shape\""@ + (seq![':'] + seq!['['])));
    }
    assert(joined(tokens, 5) == c + joined(tokens, 6));
    assert(joined(tokens, 4) == seq![':'] + joined(tokens, 5));
    assert(joined(tokens, 3) == "\"dtype\""@ + joined(tokens, 4));
    assert(joined(tokens, 2) == seq!['{'] + joined(tokens, 3));
    assert(joined(tokens, 1) =~= b + joined(tokens, 5)) by {
        assert(b =~= seq![':'] + (seq!['{'] + ("\"dtype\""@ + seq![':'])));
    }
    assert(joined(tokens, 0) == a + (b + (c + (d + (e + (f + (g + z)))))));
    regrouped(a + b + c + d + e + f, g, z);
    regrouped(a + b + c + d + e, f, g + z);
    regrouped(a + b + c + d, e, f + (g + z));
    regrouped(a + b + c, d, e + (f + (g + z)));
    regrouped(a + b, c, d + (e + (f + (g + z))));
    regrouped(a, b, c + (d + (e + (f + (g + z)))));
}

/// A field with a string or a list stands at `pos`: its key, and a colon.
proof fn key_is_read(h: Seq<u8>, pos: int, key: Seq<char>)
    requires
        reads_back(key),
        spelled(h, pos, json_text(key)),
        spelled(h, pos + width(json_text(key)), seq![':']),
    ensures
        string_at(h, pos) == Some((key, pos + width(json_text(key)))),
        past_mark(h, pos + width(json_text(key)), 58) == Some(pos + width(json_text(key)) + 1),
        h[pos] == 34,
        width(json_text(key)) > 0,
{
    string_is_read(h, pos, key);
    mark_is_a_byte(h, pos + width(json_text(key)), ':');
}

/// The three keys of a descriptor are read back.
pub open spec fn keys_read_back() -> bool {
    reads_back("dtype"@) && reads_back("shape"@) && reads_back("data_offsets"@)
}

proof fn keys_differ()
    ensures
        "dtype"@ != "shape"@,
        "dtype"@ != "data_offsets"@,
        "shape"@ != "data_offsets"@,
{
    reveal_strlit("dtype");
    reveal_strlit("shape");
    reveal_strlit("data_offsets");
    assert("dtype"@[0] != "shape"@[0]);
    assert("data_offsets"@.len() == 12);
}

/// The first field: the type.
proof fn type_is_read(h: Seq<u8>, fields: Fields, dtype: Seq<char>)
    requires
        reads_back("dtype"@),
        reads_back(dtype),
        fields.dtype is None,
        ({
            let at = fields.position + width(json_text("dtype"@));
            &&& spelled(h, fields.position, json_text("dtype"@))
            &&& spelled(h, at, seq![':'])
            &&& spelled(h, at + 1, json_text(dtype))
        }),
    ensures
        field_after(h, fields) == Some(
            Fields {
                position: fields.position + width(json_text("dtype"@)) + 1 + width(json_text(dtype)),
                dtype: Some(dtype),
                ..fields
            },
        ),
        h[fields.position] == 34,
{
    key_is_read(h, fields.position, "dtype"@);
    string_is_read(h, fields.position + width(json_text("dtype"@)) + 1, dtype);
}

/// The second field: the shape.
proof fn shape_is_read(h: Seq<u8>, fields: Fields, shape: Seq<u64>)
    requires
        reads_back("shape"@),
        fields.shape is None,
        ({
            let at = fields.position + width(json_text("shape"@));
            let end = at + 2 + width(listed(shape, shape.len() as int));
            &&& spelled(h, fields.position, json_text("shape"@))
            &&& spelled(h, at, seq![':'])
            &&& spelled(h, at + 1, seq!['['])
            &&& spelled(h, at + 2, listed(shape, shape.len() as int))
            &&& spelled(h, end, seq![']'])
        }),
    ensures
        field_after(h, fields) == Some(
            Fields {
                position: fields.position + width(json_text("shape"@)) + 2 + width(
                    listed(shape, shape.len() as int),
                ) + 1,
                shape: Some(shape),
                ..fields
            },
        ),
        h[fields.position] == 34,
{
    keys_differ();
    key_is_read(h, fields.position, "shape"@);
    numbers_are_read(h, fields.position + width(json_text("shape"@)) + 1, shape);
}

/// The third field: the offsets.
proof fn offsets_are_read(h: Seq<u8>, fields: Fields, offsets: (u64, u64))
    requires
        reads_back("data_offsets"@),
        fields.offsets is None,
        ({
            let pair = seq![offsets.0, offsets.1];
            let at = fields.position + width(json_text("data_offsets"@));
            let end = at + 2 + width(listed(pair, 2));
            &&& spelled(h, fields.position, json_text("data_offsets"@))
            &&& spelled(h, at, seq![':'])
            &&& spelled(h, at + 1, seq!['['])
            &&& spelled(h, at + 2, listed(pair, 2))
            &&& spelled(h, end, seq![']'])
        }),
    ensures
        field_after(h, fields) == Some(
            Fields {
                position: fields.position + width(json_text("data_offsets"@)) + 2 + width(
                    listed(seq![offsets.0, offsets.1], 2),
                ) + 1,
                offsets: Some(offsets),
                ..fields
            },
        ),
        h[fields.position] == 34,
{
    keys_differ();
    key_is_read(h, fields.position, "data_offsets"@);
    numbers_are_read(
        h,
        fields.position + width(json_text("data_offsets"@)) + 1,
        seq![offsets.0, offsets.1],
    );
}

/// A descriptor is read as it was written.
#[verifier::spinoff_prover]
#[verifier::rlimit(60)]
proof fn descriptor_is_read(h: Seq<u8>, pos: int, name: Seq<char>, descriptor: Descriptor)
    requires
        keys_read_back(),
        reads_back(descriptor.dtype),
        spelled(h, pos, joined(member_tokens(name, descriptor), 0)),
    ensures
        ({
            let at = pos + width(json_text(name)) + 1;
            let end = pos + width(joined(member_tokens(name, descriptor), 0));
            descriptor_at(h, at) == Some((descriptor, end)) && at < end <= h.len()
        }),
{
    let tokens = member_tokens(name, descriptor);
    let pair = seq![descriptor.offsets.0, descriptor.offsets.1];
    let end = pos + width(joined(tokens, 0));
    assert(offset(tokens, 0) == 0);
    tokens_stand(h, pos, tokens, 0);
    let p1 = pos + width(json_text(name));
    assert(offset(tokens, 1) == p1 - pos);
    assert(tokens[1] == seq![':']);
    mark_is_a_byte(h, p1, ':');
    assert(offset(tokens, 2) == p1 + 1 - pos);
    assert(tokens[2] == seq!['{']);
    mark_is_a_byte(h, p1 + 1, '{');
    let p3 = p1 + 2;
    assert(offset(tokens, 3) == p3 - pos);
    assert(tokens[3] == json_text("dtype"@));
    let p4 = p3 + width(json_text("dtype"@));
    assert(offset(tokens, 4) == p4 - pos);
    assert(tokens[4] == seq![':']);
    mark_is_a_byte(h, p4, ':');
    assert(offset(tokens, 5) == p4 + 1 - pos);
    assert(tokens[5] == json_text(descriptor.dtype));
    let none = no_fields(p3);
    type_is_read(h, none, descriptor.dtype);
    let p6 = p4 + 1 + width(json_text(descriptor.dtype));
    assert(offset(tokens, 6) == p6 - pos);
    assert(tokens[6] == seq![',']);
    mark_is_a_byte(h, p6, ',');
    let p7 = p6 + 1;
    assert(offset(tokens, 7) == p7 - pos);
    assert(tokens[7] == json_text("shape"@));
    let p8 = p7 + width(json_text("shape"@));
    assert(offset(tokens, 8) == p8 - pos);
    assert(tokens[8] == seq![':']);
    mark_is_a_byte(h, p8, ':');
    assert(offset(tokens, 9) == p8 + 1 - pos);
    assert(tokens[9] == seq!['[']);
    mark_is_a_byte(h, p8 + 1, '[');
    assert(offset(tokens, 10) == p8 + 2 - pos);
    assert(tokens[10] == listed(descriptor.shape, descriptor.shape.len() as int));
    let p11 = p8 + 2 + width(tokens[10]);
    assert(offset(tokens, 11) == p11 - pos);
    assert(tokens[11] == seq![']']);
    mark_is_a_byte(h, p11, ']');
    let typed = Fields { position: p6, dtype: Some(descriptor.dtype), ..none };
    shape_is_read(h, Fields { position: p7, ..typed }, descriptor.shape);
    let p12 = p11 + 1;
    assert(offset(tokens, 12) == p12 - pos);
    assert(tokens[12] == seq![',']);
    mark_is_a_byte(h, p12, ',');
    let p13 = p12 + 1;
    assert(offset(tokens, 13) == p13 - pos);
    assert(tokens[13] == json_text("data_offsets"@));
    let p14 = p13 + width(json_text("data_offsets"@));
    assert(offset(tokens, 14) == p14 - pos);
    assert(tokens[14] == seq![':']);
    mark_is_a_byte(h, p14, ':');
    assert(offset(tokens, 15) == p14 + 1 - pos);
    assert(tokens[15] == seq!['[']);
    mark_is_a_byte(h, p14 + 1, '[');
    assert(offset(tokens, 16) == p14 + 2 - pos);
    assert(tokens[16] == listed(pair, 2));
    let p17 = p14 + 2 + width(tokens[16]);
    assert(offset(tokens, 17) == p17 - pos);
    assert(tokens[17] == seq![']']);
    mark_is_a_byte(h, p17, ']');
    let shaped = Fields { position: p12, shape: Some(descriptor.shape), ..typed };
    offsets_are_read(h, Fields { position: p13, ..shaped }, descriptor.offsets);
    let p18 = p17 + 1;
    assert(offset(tokens, 18) == p18 - pos);
    assert(tokens[18] == seq!['}']);
    mark_is_a_byte(h, p18, '}');
    assert(offset(tokens, 19) == p18 + 1 - pos);
    assert(end == p18 + 1);
    let placed = Fields { position: p18, offsets: Some(descriptor.offsets), ..shaped };
    let done = Fields { position: end, ..placed };
    assert(next_item(h, p18, false, 125) == Some((false, end)));
    assert(fields_from(h, placed, false) == Some(done));
    assert(next_item(h, p12, false, 125) == Some((true, p13)));
    assert(fields_from(h, shaped, false) == Some(done));
    assert(next_item(h, p6, false, 125) == Some((true, p7)));
    assert(fields_from(h, typed, false) == Some(done));
    assert(next_item(h, p3, true, 125) == Some((true, p3)));
    assert(fields_from(h, none, true) == Some(done));
}

/// A member is read as it was written.
proof fn member_is_read(h: Seq<u8>, header: Header, name: Seq<char>, descriptor: Descriptor)
    requires
        keys_read_back(),
        reads_back(name),
        reads_back(descriptor.dtype),
        spelled(h, header.position, joined(member_tokens(name, descriptor), 0)),
        name != "__metadata__"@,
        name.len() > 0,
        header.tensors.len() < MAX_OBJECT_COUNT,
    ensures
        member_after(h, header) == Some(
            Header {
                position: header.position + width(joined(member_tokens(name, descriptor), 0)),
                names: header.names.push(name),
                tensors: header.tensors.push((name, descriptor)),
            },
        ),
        h[header.position] == 34,
        header.position < header.position + width(joined(member_tokens(name, descriptor), 0)) <= h.len(),
{
    let pos = header.position;
    let tokens = member_tokens(name, descriptor);
    assert(offset(tokens, 0) == 0);
    tokens_stand(h, pos, tokens, 0);
    assert(tokens[0] == json_text(name));
    assert(offset(tokens, 1) == width(json_text(name)));
    assert(tokens[1] == seq![':']);
    key_is_read(h, pos, name);
    descriptor_is_read(h, pos, name, descriptor);
}

// ---------------------------------------------------------------------------
// The header
// ---------------------------------------------------------------------------

/// The texts of the member for kept tensor `k` are read back.
pub open spec fn member_reads_back(tensors: Seq<SpanModel>, kept: Seq<Kept>, k: int) -> bool {
    keys_read_back() && reads_back(kept[k].0) && reads_back(tensors[kept[k].1].dtype)
}

/// Every text of a composed header is read back.
pub open spec fn texts_read_back(tensors: Seq<SpanModel>, kept: Seq<Kept>) -> bool {
    forall|k: int| 0 <= k < kept.len() ==> #[trigger] member_reads_back(tensors, kept, k)
}

/// What a composed header declares: the first `upto` kept tensors.
pub open spec fn kept_declared(tensors: Seq<SpanModel>, kept: Seq<Kept>, upto: int) -> Seq<
    (Seq<char>, Descriptor),
> {
    Seq::new(upto as nat, |k: int| (kept[k].0, kept_descriptor(tensors, kept, k)))
}

/// The pieces of the member for kept tensor `k`.
spec fn kept_tokens(tensors: Seq<SpanModel>, kept: Seq<Kept>, k: int) -> Seq<Seq<char>> {
    member_tokens(kept[k].0, kept_descriptor(tensors, kept, k))
}

proof fn member_is_its_pieces(tensors: Seq<SpanModel>, kept: Seq<Kept>, size: int, k: int)
    requires
        rising(tensors, size),
        size <= u64::MAX,
        in_source_order(kept, tensors.len() as int),
        0 <= k < kept.len(),
    ensures
        member_text(tensors, kept, k) == joined(kept_tokens(tensors, kept, k), 0),
{
    let descriptor = kept_descriptor(tensors, kept, k);
    let tensor = tensors[kept[k].1];
    new_starts_fit(tensors, kept, size, k);
    new_starts_fit(tensors, kept, size, k + 1);
    assert(tensors[kept[k].1].end <= size);
    if k > 0 {
        assert(tensors[kept[k - 1].1].end <= size);
    }
    let (from, to) = (descriptor.offsets.0, descriptor.offsets.1);
    let front = json_text(kept[k].0) + ":{\"dtype\":"@ + json_text(tensor.dtype) + ",\"shape\":["@ + listed(
        tensor.shape,
        tensor.shape.len() as int,
    ) + "],\"data_offsets\":["@;
    pieces_make_the_member(kept[k].0, descriptor);
    pair_is_listed(from, to);
    regrouped(front, decimal(from as nat), ","@);
    regrouped(front, decimal(from as nat) + ","@, decimal(to as nat));
}

proof fn members_stand(h: Seq<u8>, tensors: Seq<SpanModel>, kept: Seq<Kept>, k: int, high: int)
    requires
        0 <= k <= high,
        spelled(h, 0, members_text(tensors, kept, high)),
    ensures
        spelled(h, 0, members_text(tensors, kept, k)),
        0 < k < high ==> h[width(members_text(tensors, kept, k))] == 44,
        width(members_text(tensors, kept, k)) <= h.len(),
    decreases high - k,
{
    if k < high {
        let before = members_text(tensors, kept, high - 1);
        let member = member_text(tensors, kept, high - 1);
        reveal_strlit(",");
        assert(","@ =~= seq![',']);
        if high == 1 {
            spelled_split(h, 0, before, member);
        } else {
            spelled_split(h, 0, before + ","@, member);
            spelled_split(h, 0, before, ","@);
            mark_is_a_byte(h, width(before), ',');
        }
        members_stand(h, tensors, kept, k, high - 1);
    }
}

/// The header once the first `upto` members are read.
spec fn behind_members(tensors: Seq<SpanModel>, kept: Seq<Kept>, upto: int) -> Header {
    Header {
        position: width(members_text(tensors, kept, upto)),
        names: Seq::new(upto as nat, |k: int| kept[k].0),
        tensors: kept_declared(tensors, kept, upto),
    }
}

/// What reading a composed header takes.
#[verifier::opaque]
spec fn readable(h: Seq<u8>, tensors: Seq<SpanModel>, kept: Seq<Kept>, size: int) -> bool {
    &&& rising(tensors, size)
    &&& size <= u64::MAX
    &&& in_source_order(kept, tensors.len() as int)
    &&& kept.len() <= MAX_OBJECT_COUNT
    &&& texts_read_back(tensors, kept)
    &&& forall|k: int| 0 <= k < kept.len() ==> usable((#[trigger] kept[k]).0)
    &&& spelled(h, 0, header_text(tensors, kept))
}

proof fn readable_members(h: Seq<u8>, tensors: Seq<SpanModel>, kept: Seq<Kept>, size: int)
    requires
        readable(h, tensors, kept, size),
    ensures
        spelled(h, 0, members_text(tensors, kept, kept.len() as int)),
        width(members_text(tensors, kept, kept.len() as int)) < h.len(),
        h[width(members_text(tensors, kept, kept.len() as int))] == 125,
        width(header_text(tensors, kept)) == width(members_text(tensors, kept, kept.len() as int)) + 1,
        kept.len() <= MAX_OBJECT_COUNT,
{
    reveal(readable);
    let members = members_text(tensors, kept, kept.len() as int);
    reveal_strlit("}");
    assert("}"@ =~= seq!['}']);
    spelled_split(h, 0, members, "}"@);
    mark_is_a_byte(h, width(members), '}');
}

proof fn one_member_is_read(h: Seq<u8>, tensors: Seq<SpanModel>, kept: Seq<Kept>, size: int, k: int)
    requires
        readable(h, tensors, kept, size),
        0 <= k < kept.len(),
    ensures
        ({
            let before = behind_members(tensors, kept, k);
            let at = if k == 0 {
                before.position
            } else {
                before.position + 1
            };
            let next = behind_members(tensors, kept, k + 1);
            &&& next_item(h, before.position, k == 0, 125) == Some((true, at))
            &&& member_after(h, Header { position: at, ..before }) == Some(next)
            &&& before.position < next.position <= h.len()
        }),
{
    let before = behind_members(tensors, kept, k);
    let next = behind_members(tensors, kept, k + 1);
    let text = members_text(tensors, kept, k);
    let member = member_text(tensors, kept, k);
    readable_members(h, tensors, kept, size);
    members_stand(h, tensors, kept, k, kept.len() as int);
    members_stand(h, tensors, kept, k + 1, kept.len() as int);
    reveal_strlit(",");
    assert(","@ =~= seq![',']);
    let at = if k == 0 {
        before.position
    } else {
        before.position + 1
    };
    if k == 0 {
        spelled_split(h, 0, text, member);
    } else {
        spelled_split(h, 0, text + ","@, member);
        spelled_split(h, 0, text, ","@);
        mark_is_a_byte(h, width(text), ',');
    }
    let here = Header { position: at, ..before };
    assert(spelled(h, at, member));
    assert(member_reads_back(tensors, kept, k) && usable(kept[k].0) && member == joined(
        kept_tokens(tensors, kept, k),
        0,
    )) by {
        reveal(readable);
        member_is_its_pieces(tensors, kept, size, k);
    }
    member_is_read(h, here, kept[k].0, kept_descriptor(tensors, kept, k));
    let read = member_after(h, here).unwrap();
    assert(read.names =~= next.names);
    assert(read.tensors =~= next.tensors);
}

proof fn members_are_read(h: Seq<u8>, tensors: Seq<SpanModel>, kept: Seq<Kept>, size: int, k: int)
    requires
        readable(h, tensors, kept, size),
        0 <= k <= kept.len(),
    ensures
        members_from(h, behind_members(tensors, kept, k), k == 0) == Some(
            Header {
                position: width(header_text(tensors, kept)),
                ..behind_members(tensors, kept, kept.len() as int)
            },
        ),
    decreases kept.len() - k,
{
    if k < kept.len() {
        one_member_is_read(h, tensors, kept, size, k);
        members_are_read(h, tensors, kept, size, k + 1);
    } else {
        readable_members(h, tensors, kept, size);
    }
}

proof fn spaces_are_skipped(h: Seq<u8>, pos: int)
    requires
        0 <= pos <= h.len(),
        forall|i: int| pos <= i < h.len() ==> #[trigger] h[i] == 32,
    ensures
        past_space(h, pos) == h.len(),
    decreases h.len() - pos,
{
    if pos < h.len() {
        spaces_are_skipped(h, pos + 1);
    }
}

/// A composed header is read as it was written.
proof fn header_is_read(h: Seq<u8>, tensors: Seq<SpanModel>, kept: Seq<Kept>, size: int)
    requires
        readable(h, tensors, kept, size),
        forall|i: int, j: int|
            0 <= i < j < kept.len() ==> (#[trigger] kept[i]).0 != (#[trigger] kept[j]).0,
        forall|i: int| width(header_text(tensors, kept)) <= i < h.len() ==> #[trigger] h[i] == 32,
    ensures
        header_of(h) == Some(kept_declared(tensors, kept, kept.len() as int)),
{
    readable_members(h, tensors, kept, size);
    members_stand(h, tensors, kept, 0, kept.len() as int);
    reveal_strlit("{");
    assert("{"@ =~= seq!['{']);
    mark_is_a_byte(h, 0, '{');
    let first = behind_members(tensors, kept, 0);
    assert(first.names =~= empty_header().names);
    assert(first.tensors =~= empty_header().tensors);
    members_are_read(h, tensors, kept, size, 0);
    spaces_are_skipped(h, width(header_text(tensors, kept)));
    let names = behind_members(tensors, kept, kept.len() as int).names;
    assert(names.no_duplicates());
}

// ---------------------------------------------------------------------------
// The file
// ---------------------------------------------------------------------------

/// The layout of a composed file: the kept tensors under their new names, in
/// their old order, back to back.
pub open spec fn recomposed(tensors: Seq<SpanModel>, kept: Seq<Kept>) -> LayoutModel {
    LayoutModel {
        header_end: head_bytes(tensors, kept).len() as u64,
        tensors: Seq::new(
            kept.len(),
            |k: int| span_of((kept[k].0, kept_descriptor(tensors, kept, k))),
        ),
    }
}

/// A file that starts with the composed head and goes on for as long as the
/// kept tensors take. The header must not be longer than a header may be.
pub open spec fn is_composed(tensors: Seq<SpanModel>, kept: Seq<Kept>, file: Seq<u8>) -> bool {
    let head = head_bytes(tensors, kept);
    &&& head.len() <= 8 + MAX_HEADER_SIZE
    &&& stands_at(file, 0, head)
    &&& file.len() == head.len() + new_start(tensors, kept, kept.len() as int)
}

proof fn starts_grow(tensors: Seq<SpanModel>, kept: Seq<Kept>, size: int, a: int, b: int)
    requires
        rising(tensors, size),
        0 <= size,
        in_source_order(kept, tensors.len() as int),
        0 <= a <= b <= kept.len(),
    ensures
        0 <= new_start(tensors, kept, a) <= new_start(tensors, kept, b) <= size,
    decreases b - a,
{
    new_starts_fit(tensors, kept, size, a);
    new_starts_fit(tensors, kept, size, b);
    if a < b {
        starts_grow(tensors, kept, size, a, b - 1);
        assert(tensors[kept[b - 1].1].start <= tensors[kept[b - 1].1].end <= size);
    } else if b > 0 {
        assert(tensors[kept[b - 1].1].end <= size);
    }
}

/// Kept tensors are declared in the order of the file.
proof fn declared_in_order(tensors: Seq<SpanModel>, kept: Seq<Kept>, size: int)
    requires
        rising(tensors, size),
        0 <= size <= u64::MAX,
        in_source_order(kept, tensors.len() as int),
        kept.len() <= MAX_OBJECT_COUNT,
    ensures
        in_file_order(kept_declared(tensors, kept, kept.len() as int)) == recomposed(tensors, kept).tensors,
{
    let declared = kept_declared(tensors, kept, kept.len() as int);
    let keys = span_keys(declared);
    let order = Seq::new(kept.len(), |i: int| i as usize);
    assert forall|x: usize| 0 <= x < keys.len() implies #[trigger] order.contains(x) by {
        assert(order[x as int] == x);
    }
    assert forall|i: int, j: int| 0 <= i < j < order.len() implies sorts_before(
        keys,
        #[trigger] order[i] as int,
        #[trigger] order[j] as int,
    ) by {
        starts_grow(tensors, kept, size, i, i + 1);
        starts_grow(tensors, kept, size, i + 1, j);
        starts_grow(tensors, kept, size, j, j + 1);
        assert(keys[i] == declared[i].1.offsets);
        assert(keys[j] == declared[j].1.offsets);
    }
    sorted_order_is(keys, order);
    assert(in_file_order(declared) =~= recomposed(tensors, kept).tensors);
}

/// Kept tensors fill the data of a composed file.
proof fn kept_tensors_fill(tensors: Seq<SpanModel>, kept: Seq<Kept>, size: int)
    requires
        rising(tensors, size),
        0 <= size <= u64::MAX,
        in_source_order(kept, tensors.len() as int),
    ensures
        fill_data(recomposed(tensors, kept).tensors, new_start(tensors, kept, kept.len() as int)),
{
    let spans = recomposed(tensors, kept).tensors;
    let count = kept.len() as int;
    assert forall|k: int| 0 <= k < spans.len() implies (#[trigger] spans[k]).start == reached(spans, k)
        && spans[k].start <= spans[k].end by {
        starts_grow(tensors, kept, size, k, k + 1);
        if k > 0 {
            assert(spans[k - 1].end == new_start(tensors, kept, k) as u64);
        }
    }
    starts_grow(tensors, kept, size, count, count);
    if count > 0 {
        assert(spans[count - 1].end == new_start(tensors, kept, count) as u64);
    }
}

/// A kept tensor has the extent of its type and shape.
proof fn kept_tensor_is_sound(tensors: Seq<SpanModel>, kept: Seq<Kept>, size: int, k: int)
    requires
        rising(tensors, size),
        0 <= size <= u64::MAX,
        in_source_order(kept, tensors.len() as int),
        0 <= k < kept.len(),
        ({
            let tensor = tensors[kept[k].1];
            byte_size(tensor.dtype, tensor.shape) == Some((tensor.end - tensor.start) as u64)
        }),
    ensures
        sound(kept_descriptor(tensors, kept, k)),
{
    starts_grow(tensors, kept, size, k, k + 1);
    let tensor = tensors[kept[k].1];
    assert(tensor.start <= tensor.end);
}

/// What a composed header declares is laid out in a composed file.
proof fn declared_is_laid_out(content: Seq<u8>, kept: Seq<Kept>, header_end: u64)
    requires
        content.len() <= u64::MAX,
        layout_of(content) is Some,
        in_source_order(kept, layout_of(content).unwrap().tensors.len() as int),
        kept.len() <= MAX_OBJECT_COUNT,
    ensures
        ({
            let tensors = layout_of(content).unwrap().tensors;
            let count = kept.len() as int;
            laid_out(kept_declared(tensors, kept, count), header_end, new_start(tensors, kept, count)) == Some(
                LayoutModel { header_end, tensors: recomposed(tensors, kept).tensors },
            )
        }),
{
    let layout = layout_of(content).unwrap();
    let tensors = layout.tensors;
    let size = content.len() - layout.header_end;
    let declared = kept_declared(tensors, kept, kept.len() as int);
    layout_fills_the_file(content);
    layout_rises(content);
    declared_in_order(tensors, kept, size);
    kept_tensors_fill(tensors, kept, size);
    assert forall|k: int| 0 <= k < declared.len() implies sound((#[trigger] declared[k]).1) by {
        layout_tensors_are_sound(content);
        assert(0 <= kept[k].1 < tensors.len());
        kept_tensor_is_sound(tensors, kept, size, k);
    }
}

/// The head of a composed file: its length, and the header.
proof fn head_is_read(tensors: Seq<SpanModel>, kept: Seq<Kept>, file: Seq<u8>) -> (h: Seq<u8>)
    requires
        is_composed(tensors, kept, file),
    ensures
        h.len() + 8 == head_bytes(tensors, kept).len() <= file.len(),
        u64_at(file, 0) == h.len(),
        8 <= h.len() <= MAX_HEADER_SIZE,
        h == file.subrange(8, 8 + h.len() as int),
        spelled(h, 0, header_text(tensors, kept)),
        forall|i: int| width(header_text(tensors, kept)) <= i < h.len() ==> #[trigger] h[i] == 32,
{
    let text = encode_utf8(header_text(tensors, kept));
    let filled = text + Seq::new(short_of_eight(text.len() as int) as nat, |i: int| 32u8);
    let length = le_bytes(filled.len(), 8);
    le_of_le_bytes(filled.len(), 8);
    stands_split(file, 0, length, filled);
    stands_u64(file, 0, filled.len() as u64);
    assert(filled.subrange(0, text.len() as int) =~= text);
    let members = members_text(tensors, kept, kept.len() as int);
    reveal_strlit("}");
    assert("}"@ =~= seq!['}']);
    spelled_split(file, 8, members, "}"@);
    mark_is_a_byte(file, 8, '}');
    filled
}

/// Kept tensors are as a composed header needs them.
#[verifier::opaque]
spec fn well_kept(content: Seq<u8>, kept: Seq<Kept>) -> bool {
    let layout = layout_of(content).unwrap();
    &&& rising(layout.tensors, content.len() - layout.header_end)
    &&& in_source_order(kept, layout.tensors.len() as int)
    &&& kept.len() <= MAX_OBJECT_COUNT
    &&& forall|k: int| 0 <= k < kept.len() ==> usable((#[trigger] kept[k]).0)
    &&& forall|i: int, j: int|
        0 <= i < j < kept.len() ==> (#[trigger] kept[i]).0 != (#[trigger] kept[j]).0
}

proof fn selected_is_well_kept(content: Seq<u8>, names: Seq<(Seq<char>, Seq<char>)>, unnamed: Unnamed)
    requires
        layout_of(content) is Some,
        ({
            let tensors = layout_of(content).unwrap().tensors;
            let kept = selected(tensor_names(tensors), names, unnamed);
            kept is Ok && unusable_at(kept->Ok_0, 0) >= kept->Ok_0.len()
        }),
    ensures
        ({
            let tensors = layout_of(content).unwrap().tensors;
            well_kept(content, selected(tensor_names(tensors), names, unnamed)->Ok_0)
        }),
{
    let tensors = layout_of(content).unwrap().tensors;
    let kept = selected(tensor_names(tensors), names, unnamed)->Ok_0;
    reveal(well_kept);
    selection_is_well_made(tensor_names(tensors), names, unnamed, tensors.len() as int);
    layout_rises(content);
    layout_tensors_are_sound(content);
    assert forall|k: int| 0 <= k < kept.len() implies usable((#[trigger] kept[k]).0) by {
        all_usable(kept, 0, k);
    }
}

proof fn file_is_read(content: Seq<u8>, kept: Seq<Kept>, file: Seq<u8>)
    requires
        content.len() <= u64::MAX,
        layout_of(content) is Some,
        well_kept(content, kept),
        texts_read_back(layout_of(content).unwrap().tensors, kept),
        is_composed(layout_of(content).unwrap().tensors, kept, file),
    ensures
        layout_of(file) == Some(recomposed(layout_of(content).unwrap().tensors, kept)),
{
    let layout = layout_of(content).unwrap();
    let tensors = layout.tensors;
    let size = content.len() - layout.header_end;
    let h = head_is_read(tensors, kept, file);
    assert(header_of(h) == Some(kept_declared(tensors, kept, kept.len() as int))) by {
        reveal(well_kept);
        assert(readable(h, tensors, kept, size)) by {
            reveal(readable);
        }
        header_is_read(h, tensors, kept, size);
    }
    assert(laid_out(
        kept_declared(tensors, kept, kept.len() as int),
        (8 + h.len()) as u64,
        new_start(tensors, kept, kept.len() as int),
    ) == Some(recomposed(tensors, kept))) by {
        reveal(well_kept);
        declared_is_laid_out(content, kept, (8 + h.len()) as u64);
    }
}

/// Every file that a composition comes to is read as what was composed.
pub open spec fn reads_as_composed(
    content: Seq<u8>,
    names: Seq<(Seq<char>, Seq<char>)>,
    unnamed: Unnamed,
) -> bool {
    let tensors = layout_of(content).unwrap().tensors;
    let kept = selected(tensor_names(tensors), names, unnamed)->Ok_0;
    forall|file: Seq<u8>| #[trigger] is_composed(tensors, kept, file) ==> layout_of(file) == Some(
        recomposed(tensors, kept),
    )
}

/// A composed safetensors file is read as what was composed: the kept tensors
/// under their new names, in the source's order, each with the type, the shape
/// and the size it had, back to back behind the new header. That the header's
/// strings are read back is what writing them ensures.
pub proof fn a_composed_safetensors_reads_back(
    content: Seq<u8>,
    names: Seq<(Seq<char>, Seq<char>)>,
    unnamed: Unnamed,
    file: Seq<u8>,
)
    requires
        content.len() <= u64::MAX,
        layout_of(content) is Some,
        ({
            let tensors = layout_of(content).unwrap().tensors;
            let kept = selected(tensor_names(tensors), names, unnamed);
            &&& kept is Ok
            &&& unusable_at(kept->Ok_0, 0) >= kept->Ok_0.len()
            &&& is_composed(tensors, kept->Ok_0, file)
        }),
    ensures
        ({
            let tensors = layout_of(content).unwrap().tensors;
            let kept = selected(tensor_names(tensors), names, unnamed)->Ok_0;
            texts_read_back(tensors, kept) ==> layout_of(file) == Some(recomposed(tensors, kept))
        }),
{
    let tensors = layout_of(content).unwrap().tensors;
    let kept = selected(tensor_names(tensors), names, unnamed)->Ok_0;
    if texts_read_back(tensors, kept) {
        selected_is_well_kept(content, names, unnamed);
        file_is_read(content, kept, file);
    }
}

proof fn all_usable(kept: Seq<Kept>, from: int, k: int)
    requires
        unusable_at(kept, from) >= kept.len(),
        from <= k < kept.len(),
    ensures
        usable(kept[k].0),
    decreases k - from,
{
    if from < k {
        all_usable(kept, from + 1, k);
    }
}

} // verus!
