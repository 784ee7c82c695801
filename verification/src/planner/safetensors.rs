//! Safetensors files: a length-prefixed JSON header over back-to-back tensors.
//!
//! The header is an object of tensor names, each naming a descriptor, and of
//! one optional string table. Its strings and numbers are JSON's.

use super::gguf::{contract_model, seams_for, seams_of};
use super::{
    append_split_region, append_tensor_regions, grid, grid_tiles, gridded, inventory_models,
    lie_apart, seam_grid, seam_grid_tiles, tiles, tiles_join, tiles_nothing, ByteSource,
    InventoryModel, InventoryTensor, Plan, PlanError, PlanModel, PlannerId, Region, RegionKind,
    MAX_OBJECT_COUNT,
};
use crate::arith::{checked_product, product};
use crate::contract::{seams_fall_inside, Contract, ContractModel, Stamp, StampModel};
use crate::sort::{
    all_distinct, byte_strings, keys_can_be_sorted, sort_positions, sorted_order, sorted_order_is,
    sorted_range,
};
use crate::text::{chars_of, same_chars};
use crate::trusted::{json_string, json_u64, read_json_string, read_json_u64};
use crate::wire::{read_le, u64_at};
use vstd::prelude::*;
use vstd::string::*;
use vstd::utf8::encode_utf8;

verus! {

pub const PREFIX_SIZE: u64 = 8;

pub const MAX_HEADER_SIZE: u64 = 100000000;

// ---------------------------------------------------------------------------
// The header grammar
// ---------------------------------------------------------------------------

/// JSON white space.
pub open spec fn is_space(b: u8) -> bool {
    b == 32 || b == 10 || b == 9 || b == 13
}

/// Where the white space at `pos` ends.
pub open spec fn past_space(h: Seq<u8>, pos: int) -> int
    decreases h.len() - pos,
{
    if 0 <= pos < h.len() && is_space(h[pos]) {
        past_space(h, pos + 1)
    } else {
        pos
    }
}

/// Where the given punctuation, which stands next, ends.
pub open spec fn past_mark(h: Seq<u8>, pos: int, mark: u8) -> Option<int> {
    let at = past_space(h, pos);
    if at < h.len() && h[at] == mark {
        Some(at + 1)
    } else {
        None
    }
}

/// The string that stands next and where it ends.
pub open spec fn string_at(h: Seq<u8>, pos: int) -> Option<(Seq<char>, int)> {
    match json_string(h.skip(pos)) {
        Some((text, end)) if 0 < end <= h.len() - pos => Some((text, pos + end)),
        _ => None,
    }
}

/// The unsigned integer that stands next and where it ends.
pub open spec fn number_at(h: Seq<u8>, pos: int) -> Option<(u64, int)> {
    match json_u64(h.skip(pos)) {
        Some((value, end)) if 0 < end <= h.len() - pos => Some((value, pos + end)),
        _ => None,
    }
}

/// What stands before the next item of a list: the closing mark, or nothing
/// before the first item, or a comma. Gives whether an item follows, and where.
pub open spec fn next_item(h: Seq<u8>, pos: int, first: bool, close: u8) -> Option<(bool, int)> {
    let at = past_space(h, pos);
    if at >= h.len() {
        None
    } else if h[at] == close {
        Some((false, at + 1))
    } else if first {
        Some((true, at))
    } else if h[at] == 44 {
        Some((true, at + 1))
    } else {
        None
    }
}

/// The numbers of a list, behind its opening bracket.
pub open spec fn numbers_from(h: Seq<u8>, pos: int, first: bool, found: Seq<u64>) -> Option<
    (Seq<u64>, int),
>
    decreases h.len() - pos,
{
    match next_item(h, pos, first, 93) {
        None => None,
        Some((false, at)) => Some((found, at)),
        Some((true, at)) => match number_at(h, at) {
            Some((value, end)) if pos < end <= h.len() => numbers_from(
                h,
                end,
                false,
                found.push(value),
            ),
            _ => None,
        },
    }
}

/// A list of numbers.
pub open spec fn numbers_at(h: Seq<u8>, pos: int) -> Option<(Seq<u64>, int)> {
    match past_mark(h, pos, 91) {
        None => None,
        Some(at) => numbers_from(h, at, true, Seq::empty()),
    }
}

/// A list of exactly two numbers.
pub open spec fn pair_at(h: Seq<u8>, pos: int) -> Option<((u64, u64), int)> {
    match numbers_at(h, pos) {
        Some((values, end)) if values.len() == 2 => Some(((values[0], values[1]), end)),
        _ => None,
    }
}

/// What a tensor's descriptor says.
#[verifier::ext_equal]
pub struct Descriptor {
    pub dtype: Seq<char>,
    pub shape: Seq<u64>,
    pub offsets: (u64, u64),
}

/// The fields of a descriptor seen so far.
pub struct Fields {
    pub position: int,
    pub dtype: Option<Seq<char>>,
    pub shape: Option<Seq<u64>>,
    pub offsets: Option<(u64, u64)>,
}

pub open spec fn no_fields(position: int) -> Fields {
    Fields { position, dtype: None, shape: None, offsets: None }
}

/// One field: a known name, not seen before, a colon, its value.
pub open spec fn field_after(h: Seq<u8>, fields: Fields) -> Option<Fields> {
    match string_at(h, fields.position) {
        None => None,
        Some((name, behind)) => match past_mark(h, behind, 58) {
            None => None,
            Some(at) => if name == "dtype"@ && fields.dtype is None {
                match string_at(h, at) {
                    None => None,
                    Some((dtype, end)) => Some(
                        Fields { position: end, dtype: Some(dtype), ..fields },
                    ),
                }
            } else if name == "shape"@ && fields.shape is None {
                match numbers_at(h, at) {
                    None => None,
                    Some((shape, end)) => Some(
                        Fields { position: end, shape: Some(shape), ..fields },
                    ),
                }
            } else if name == "data_offsets"@ && fields.offsets is None {
                match pair_at(h, at) {
                    None => None,
                    Some((offsets, end)) => Some(
                        Fields { position: end, offsets: Some(offsets), ..fields },
                    ),
                }
            } else {
                None
            },
        },
    }
}

/// The fields of an object, behind its opening brace.
pub open spec fn fields_from(h: Seq<u8>, fields: Fields, first: bool) -> Option<Fields>
    decreases h.len() - fields.position,
{
    match next_item(h, fields.position, first, 125) {
        None => None,
        Some((false, at)) => Some(Fields { position: at, ..fields }),
        Some((true, at)) => match field_after(h, Fields { position: at, ..fields }) {
            Some(next) if fields.position < next.position <= h.len() => fields_from(h, next, false),
            _ => None,
        },
    }
}

/// A descriptor as an object: each field once, none else.
pub open spec fn descriptor_object(h: Seq<u8>, pos: int) -> Option<(Descriptor, int)> {
    match fields_from(h, no_fields(pos), true) {
        Some(fields) => match (fields.dtype, fields.shape, fields.offsets) {
            (Some(dtype), Some(shape), Some(offsets)) => Some(
                (Descriptor { dtype, shape, offsets }, fields.position),
            ),
            _ => None,
        },
        None => None,
    }
}

/// A descriptor as a list of its fields in order.
pub open spec fn descriptor_list(h: Seq<u8>, pos: int) -> Option<(Descriptor, int)> {
    match string_at(h, pos) {
        None => None,
        Some((dtype, a)) => match past_mark(h, a, 44) {
            None => None,
            Some(b) => match numbers_at(h, b) {
                None => None,
                Some((shape, c)) => match past_mark(h, c, 44) {
                    None => None,
                    Some(d) => match pair_at(h, d) {
                        None => None,
                        Some((offsets, e)) => match past_mark(h, e, 93) {
                            None => None,
                            Some(end) => Some((Descriptor { dtype, shape, offsets }, end)),
                        },
                    },
                },
            },
        },
    }
}

/// A descriptor.
pub open spec fn descriptor_at(h: Seq<u8>, pos: int) -> Option<(Descriptor, int)> {
    match past_mark(h, pos, 123) {
        Some(at) => descriptor_object(h, at),
        None => match past_mark(h, pos, 91) {
            Some(at) => descriptor_list(h, at),
            None => None,
        },
    }
}

/// The string table, behind its opening brace: the keys seen so far and the end.
pub open spec fn table_from(h: Seq<u8>, pos: int, first: bool, keys: Seq<Seq<char>>) -> Option<
    (Seq<Seq<char>>, int),
>
    decreases h.len() - pos,
{
    match next_item(h, pos, first, 125) {
        None => None,
        Some((false, at)) => Some((keys, at)),
        Some((true, at)) => match string_at(h, at) {
            None => None,
            Some((key, behind)) => match past_mark(h, behind, 58) {
                None => None,
                Some(value) => match string_at(h, value) {
                    Some((_, end)) if pos < end <= h.len() => table_from(
                        h,
                        end,
                        false,
                        keys.push(key),
                    ),
                    _ => None,
                },
            },
        },
    }
}

/// Whether `null` stands next, and where it ends.
pub open spec fn null_at(h: Seq<u8>, pos: int) -> Option<int> {
    let at = past_space(h, pos);
    if at + 4 <= h.len() && h.subrange(at, at + 4) == seq![110u8, 117, 108, 108] {
        Some(at + 4)
    } else {
        None
    }
}

/// The string table: `null`, or an object of strings under distinct keys.
pub open spec fn table_at(h: Seq<u8>, pos: int) -> Option<int> {
    match null_at(h, pos) {
        Some(end) => Some(end),
        None => match past_mark(h, pos, 123) {
            None => None,
            Some(at) => match table_from(h, at, true, Seq::empty()) {
                Some((keys, end)) if keys.no_duplicates() => Some(end),
                _ => None,
            },
        },
    }
}

/// The header read so far.
pub struct Header {
    pub position: int,
    pub names: Seq<Seq<char>>,
    pub tensors: Seq<(Seq<char>, Descriptor)>,
}

/// One member of the header: a name, a colon, and a descriptor or the table.
pub open spec fn member_after(h: Seq<u8>, header: Header) -> Option<Header> {
    match string_at(h, header.position) {
        None => None,
        Some((name, behind)) => match past_mark(h, behind, 58) {
            None => None,
            Some(at) => if name == "__metadata__"@ {
                match table_at(h, at) {
                    None => None,
                    Some(end) => Some(
                        Header { position: end, names: header.names.push(name), ..header },
                    ),
                }
            } else if name.len() == 0 || header.tensors.len() >= MAX_OBJECT_COUNT {
                None
            } else {
                match descriptor_at(h, at) {
                    None => None,
                    Some((descriptor, end)) => Some(
                        Header {
                            position: end,
                            names: header.names.push(name),
                            tensors: header.tensors.push((name, descriptor)),
                        },
                    ),
                }
            },
        },
    }
}

/// The members of the header, behind its opening brace.
pub open spec fn members_from(h: Seq<u8>, header: Header, first: bool) -> Option<Header>
    decreases h.len() - header.position,
{
    match next_item(h, header.position, first, 125) {
        None => None,
        Some((false, at)) => Some(Header { position: at, ..header }),
        Some((true, at)) => match member_after(h, Header { position: at, ..header }) {
            Some(next) if header.position < next.position <= h.len() => members_from(
                h,
                next,
                false,
            ),
            _ => None,
        },
    }
}

pub open spec fn empty_header() -> Header {
    Header { position: 1, names: Seq::empty(), tensors: Seq::empty() }
}

/// The tensors a header declares: an object from its first byte on, under
/// distinct names, with nothing but white space behind it.
pub open spec fn header_of(h: Seq<u8>) -> Option<Seq<(Seq<char>, Descriptor)>> {
    if h.len() == 0 || h[0] != 123 {
        None
    } else {
        match members_from(h, empty_header(), true) {
            Some(header) if header.names.no_duplicates() && past_space(h, header.position)
                == h.len() => Some(header.tensors),
            _ => None,
        }
    }
}

// ---------------------------------------------------------------------------
// Reading a header
// ---------------------------------------------------------------------------

fn skip_space(h: &[u8], pos: usize) -> (end: usize)
    requires
        pos <= h@.len(),
    ensures
        end == past_space(h@, pos as int),
        pos <= end <= h@.len(),
{
    let mut at: usize = pos;
    while at < h.len() && (h[at] == 32 || h[at] == 10 || h[at] == 9 || h[at] == 13)
        invariant
            pos <= at <= h@.len(),
            past_space(h@, pos as int) == past_space(h@, at as int),
        decreases h@.len() - at,
    {
        at += 1;
    }
    at
}

fn read_mark(h: &[u8], pos: usize, mark: u8) -> (end: Option<usize>)
    requires
        pos <= h@.len(),
    ensures
        match end {
            Some(e) => past_mark(h@, pos as int, mark) == Some(e as int) && pos < e <= h@.len(),
            None => past_mark(h@, pos as int, mark) is None,
        },
{
    let at = skip_space(h, pos);
    if at < h.len() && h[at] == mark {
        Some(at + 1)
    } else {
        None
    }
}

fn read_string(h: &[u8], pos: usize) -> (found: Option<(String, usize)>)
    requires
        pos <= h@.len(),
    ensures
        match found {
            Some((text, end)) => string_at(h@, pos as int) == Some((text@, end as int)) && pos < end
                <= h@.len(),
            None => string_at(h@, pos as int) is None,
        },
{
    let rest = vstd::slice::slice_subrange(h, pos, h.len());
    assert(rest@ =~= h@.skip(pos as int));
    match read_json_string(rest) {
        Some((text, end)) => Some((text, pos + end)),
        None => None,
    }
}

fn read_number(h: &[u8], pos: usize) -> (found: Option<(u64, usize)>)
    requires
        pos <= h@.len(),
    ensures
        match found {
            Some((value, end)) => number_at(h@, pos as int) == Some((value, end as int)) && pos
                < end <= h@.len(),
            None => number_at(h@, pos as int) is None,
        },
{
    let rest = vstd::slice::slice_subrange(h, pos, h.len());
    assert(rest@ =~= h@.skip(pos as int));
    match read_json_u64(rest) {
        Some((value, end)) => Some((value, pos + end)),
        None => None,
    }
}

fn read_item(h: &[u8], pos: usize, first: bool, close: u8) -> (found: Option<(bool, usize)>)
    requires
        pos <= h@.len(),
    ensures
        match found {
            Some((more, at)) => next_item(h@, pos as int, first, close) == Some((more, at as int))
                && pos <= at <= h@.len() && (!more ==> pos < at),
            None => next_item(h@, pos as int, first, close) is None,
        },
{
    let at = skip_space(h, pos);
    if at >= h.len() {
        None
    } else if h[at] == close {
        Some((false, at + 1))
    } else if first {
        Some((true, at))
    } else if h[at] == 44 {
        Some((true, at + 1))
    } else {
        None
    }
}

fn read_numbers(h: &[u8], pos: usize) -> (found: Option<(Vec<u64>, usize)>)
    requires
        pos <= h@.len(),
    ensures
        match found {
            Some((values, end)) => numbers_at(h@, pos as int) == Some((values@, end as int)) && pos
                < end <= h@.len(),
            None => numbers_at(h@, pos as int) is None,
        },
{
    let start = match read_mark(h, pos, 91) {
        Some(start) => start,
        None => {
            return None;
        },
    };
    let mut values: Vec<u64> = Vec::new();
    let mut at: usize = start;
    let mut first = true;
    loop
        invariant
            pos < start <= at <= h@.len(),
            past_mark(h@, pos as int, 91) == Some(start as int),
            numbers_from(h@, start as int, true, Seq::empty()) == numbers_from(
                h@,
                at as int,
                first,
                values@,
            ),
        decreases h@.len() - at,
    {
        match read_item(h, at, first, 93) {
            None => {
                return None;
            },
            Some((false, end)) => {
                return Some((values, end));
            },
            Some((true, item)) => {
                match read_number(h, item) {
                    None => {
                        return None;
                    },
                    Some((value, end)) => {
                        values.push(value);
                        at = end;
                        first = false;
                    },
                }
            },
        }
    }
}

fn read_pair(h: &[u8], pos: usize) -> (found: Option<((u64, u64), usize)>)
    requires
        pos <= h@.len(),
    ensures
        match found {
            Some((pair, end)) => pair_at(h@, pos as int) == Some((pair, end as int)) && pos < end
                <= h@.len(),
            None => pair_at(h@, pos as int) is None,
        },
{
    match read_numbers(h, pos) {
        Some((values, end)) => if values.len() == 2 {
            Some(((values[0], values[1]), end))
        } else {
            None
        },
        None => None,
    }
}

/// A tensor's descriptor.
#[derive(Debug, PartialEq, Eq)]
struct TensorDescriptor {
    dtype: String,
    shape: Vec<u64>,
    data_offsets: (u64, u64),
}

impl View for TensorDescriptor {
    type V = Descriptor;

    closed spec fn view(&self) -> Descriptor {
        Descriptor { dtype: self.dtype@, shape: self.shape@, offsets: self.data_offsets }
    }
}

fn text_is(text: &str, literal: &str) -> (same: bool)
    ensures
        same == (text@ == literal@),
{
    let left = chars_of(text);
    let right = chars_of(literal);
    same_chars(&left, &right)
}

/// The fields of a descriptor read so far.
struct FieldSet {
    dtype: Option<String>,
    shape: Option<Vec<u64>>,
    offsets: Option<(u64, u64)>,
}

impl FieldSet {
    spec fn at(&self, position: int) -> Fields {
        Fields {
            position,
            dtype: match self.dtype {
                Some(dtype) => Some(dtype@),
                None => None,
            },
            shape: match self.shape {
                Some(shape) => Some(shape@),
                None => None,
            },
            offsets: self.offsets,
        }
    }
}

fn read_field(h: &[u8], pos: usize, fields: &mut FieldSet) -> (end: Option<usize>)
    requires
        pos <= h@.len(),
    ensures
        match end {
            Some(e) => field_after(h@, old(fields).at(pos as int)) == Some(
                final(fields).at(e as int),
            ) && pos < e <= h@.len(),
            None => field_after(h@, old(fields).at(pos as int)) is None,
        },
{
    proof {
        reveal_strlit("dtype");
        reveal_strlit("shape");
        reveal_strlit("data_offsets");
        assert("dtype"@[0] == 'd' && "shape"@[0] == 's');
        assert("dtype"@.len() == 5 && "data_offsets"@.len() == 12);
    }
    let (name, behind) = match read_string(h, pos) {
        Some(found) => found,
        None => {
            return None;
        },
    };
    let at = match read_mark(h, behind, 58) {
        Some(at) => at,
        None => {
            return None;
        },
    };
    if text_is(name.as_str(), "dtype") {
        if fields.dtype.is_some() {
            return None;
        }
        match read_string(h, at) {
            Some((dtype, end)) => {
                fields.dtype = Some(dtype);
                Some(end)
            },
            None => None,
        }
    } else if text_is(name.as_str(), "shape") {
        if fields.shape.is_some() {
            return None;
        }
        match read_numbers(h, at) {
            Some((shape, end)) => {
                fields.shape = Some(shape);
                Some(end)
            },
            None => None,
        }
    } else if text_is(name.as_str(), "data_offsets") {
        if fields.offsets.is_some() {
            return None;
        }
        match read_pair(h, at) {
            Some((offsets, end)) => {
                fields.offsets = Some(offsets);
                Some(end)
            },
            None => None,
        }
    } else {
        None
    }
}

fn read_descriptor_object(h: &[u8], pos: usize) -> (found: Option<(TensorDescriptor, usize)>)
    requires
        pos <= h@.len(),
    ensures
        match found {
            Some((descriptor, end)) => descriptor_object(h@, pos as int) == Some(
                (descriptor@, end as int),
            ) && pos < end <= h@.len(),
            None => descriptor_object(h@, pos as int) is None,
        },
{
    let mut fields = FieldSet { dtype: None, shape: None, offsets: None };
    let mut at: usize = pos;
    let mut first = true;
    loop
        invariant_except_break
            pos <= at <= h@.len(),
            fields_from(h@, no_fields(pos as int), true) == fields_from(
                h@,
                fields.at(at as int),
                first,
            ),
        ensures
            pos < at <= h@.len(),
            fields_from(h@, no_fields(pos as int), true) == Some(fields.at(at as int)),
        decreases h@.len() - at,
    {
        match read_item(h, at, first, 125) {
            None => {
                return None;
            },
            Some((false, end)) => {
                at = end;
                break ;
            },
            Some((true, item)) => {
                match read_field(h, item, &mut fields) {
                    None => {
                        return None;
                    },
                    Some(end) => {
                        at = end;
                        first = false;
                    },
                }
            },
        }
    }
    match (fields.dtype, fields.shape, fields.offsets) {
        (Some(dtype), Some(shape), Some(data_offsets)) => Some(
            (TensorDescriptor { dtype, shape, data_offsets }, at),
        ),
        _ => None,
    }
}

fn read_descriptor_list(h: &[u8], pos: usize) -> (found: Option<(TensorDescriptor, usize)>)
    requires
        pos <= h@.len(),
    ensures
        match found {
            Some((descriptor, end)) => descriptor_list(h@, pos as int) == Some(
                (descriptor@, end as int),
            ) && pos < end <= h@.len(),
            None => descriptor_list(h@, pos as int) is None,
        },
{
    let (dtype, a) = match read_string(h, pos) {
        Some(found) => found,
        None => {
            return None;
        },
    };
    let b = match read_mark(h, a, 44) {
        Some(b) => b,
        None => {
            return None;
        },
    };
    let (shape, c) = match read_numbers(h, b) {
        Some(found) => found,
        None => {
            return None;
        },
    };
    let d = match read_mark(h, c, 44) {
        Some(d) => d,
        None => {
            return None;
        },
    };
    let (data_offsets, e) = match read_pair(h, d) {
        Some(found) => found,
        None => {
            return None;
        },
    };
    match read_mark(h, e, 93) {
        Some(end) => Some((TensorDescriptor { dtype, shape, data_offsets }, end)),
        None => None,
    }
}

fn read_descriptor(h: &[u8], pos: usize) -> (found: Option<(TensorDescriptor, usize)>)
    requires
        pos <= h@.len(),
    ensures
        match found {
            Some((descriptor, end)) => descriptor_at(h@, pos as int) == Some(
                (descriptor@, end as int),
            ) && pos < end <= h@.len(),
            None => descriptor_at(h@, pos as int) is None,
        },
{
    match read_mark(h, pos, 123) {
        Some(at) => read_descriptor_object(h, at),
        None => match read_mark(h, pos, 91) {
            Some(at) => read_descriptor_list(h, at),
            None => None,
        },
    }
}

/// The UTF-8 bytes of texts.
spec fn encoded(texts: Seq<Seq<char>>) -> Seq<Seq<u8>> {
    texts.map_values(|text: Seq<char>| encode_utf8(text))
}

proof fn distinct_when_encoded(texts: Seq<Seq<char>>)
    ensures
        encoded(texts).no_duplicates() == texts.no_duplicates(),
{
    let bytes = encoded(texts);
    if texts.no_duplicates() {
        assert forall|i: int, j: int| 0 <= i < bytes.len() && 0 <= j < bytes.len() && i != j
            implies bytes[i] != bytes[j] by {
            vstd::utf8::encode_utf8_decode_utf8(texts[i]);
            vstd::utf8::encode_utf8_decode_utf8(texts[j]);
        }
    }
    if bytes.no_duplicates() {
        assert forall|i: int, j: int| 0 <= i < texts.len() && 0 <= j < texts.len() && i != j
            implies texts[i] != texts[j] by {
            assert(bytes[i] != bytes[j]);
        }
    }
}

/// The bytes of one more text.
fn push_encoded(list: &mut Vec<Vec<u8>>, text: &str, Ghost(texts): Ghost<Seq<Seq<char>>>)
    requires
        byte_strings(old(list)@) == encoded(texts),
    ensures
        byte_strings(final(list)@) == encoded(texts.push(text@)),
{
    let ghost before = byte_strings(list@);
    list.push(vstd::slice::slice_to_vec(text.as_bytes()));
    proof {
        assert(byte_strings(list@) =~= before.push(encode_utf8(text@)));
        assert(encoded(texts.push(text@)) =~= encoded(texts).push(encode_utf8(text@)));
    }
}

fn read_table(h: &[u8], pos: usize) -> (end: Option<usize>)
    requires
        pos <= h@.len(),
    ensures
        match end {
            Some(e) => table_at(h@, pos as int) == Some(e as int) && pos < e <= h@.len(),
            None => table_at(h@, pos as int) is None,
        },
{
    let word = skip_space(h, pos);
    if h.len() - word >= 4 && h[word] == 110 && h[word + 1] == 117 && h[word + 2] == 108 && h[word
        + 3] == 108 {
        assert(h@.subrange(word as int, word + 4) =~= seq![110u8, 117, 108, 108]);
        return Some(word + 4);
    }
    assert(null_at(h@, pos as int) is None) by {
        if word + 4 <= h@.len() && h@.subrange(word as int, word + 4) == seq![
            110u8,
            117,
            108,
            108,
        ] {
            let s = h@.subrange(word as int, word + 4);
            assert(s[0] == 110 && s[1] == 117 && s[2] == 108 && s[3] == 108);
        }
    }
    let start = match read_mark(h, pos, 123) {
        Some(start) => start,
        None => {
            return None;
        },
    };
    let mut keys: Vec<Vec<u8>> = Vec::new();
    let ghost mut texts: Seq<Seq<char>> = Seq::empty();
    let mut at: usize = start;
    let mut first = true;
    assert(byte_strings(keys@) =~= encoded(texts));
    loop
        invariant_except_break
            pos < start <= at <= h@.len(),
            byte_strings(keys@) == encoded(texts),
            null_at(h@, pos as int) is None,
            past_mark(h@, pos as int, 123) == Some(start as int),
            table_from(h@, start as int, true, Seq::empty()) == table_from(
                h@,
                at as int,
                first,
                texts,
            ),
        ensures
            pos < at <= h@.len(),
            byte_strings(keys@) == encoded(texts),
            null_at(h@, pos as int) is None,
            past_mark(h@, pos as int, 123) == Some(start as int),
            table_from(h@, start as int, true, Seq::empty()) == Some((texts, at as int)),
        decreases h@.len() - at,
    {
        match read_item(h, at, first, 125) {
            None => {
                return None;
            },
            Some((false, end)) => {
                at = end;
                break ;
            },
            Some((true, item)) => {
                let (key, behind) = match read_string(h, item) {
                    Some(found) => found,
                    None => {
                        return None;
                    },
                };
                let value = match read_mark(h, behind, 58) {
                    Some(value) => value,
                    None => {
                        return None;
                    },
                };
                match read_string(h, value) {
                    None => {
                        return None;
                    },
                    Some((_text, end)) => {
                        push_encoded(&mut keys, key.as_str(), Ghost(texts));
                        proof {
                            texts = texts.push(key@);
                        }
                        at = end;
                        first = false;
                    },
                }
            },
        }
    }
    proof {
        distinct_when_encoded(texts);
    }
    if all_distinct(&keys) {
        Some(at)
    } else {
        None
    }
}

/// The tensors a header declares, in the order of the header.
struct Declared {
    names: Vec<Vec<u8>>,
    tensors: Vec<(String, TensorDescriptor)>,
}

spec fn declared_models(tensors: Seq<(String, TensorDescriptor)>) -> Seq<(Seq<char>, Descriptor)> {
    tensors.map_values(|pair: (String, TensorDescriptor)| (pair.0@, pair.1@))
}

impl Declared {
    spec fn at(&self, position: int, names: Seq<Seq<char>>) -> Header {
        Header { position, names, tensors: declared_models(self.tensors@) }
    }
}

fn read_member(
    h: &[u8],
    pos: usize,
    declared: &mut Declared,
    Ghost(names): Ghost<Seq<Seq<char>>>,
) -> (end: Option<(usize, Ghost<Seq<Seq<char>>>)>)
    requires
        pos <= h@.len(),
        byte_strings(old(declared).names@) == encoded(names),
    ensures
        match end {
            Some((e, more)) => member_after(h@, old(declared).at(pos as int, names)) == Some(
                final(declared).at(e as int, more@),
            ) && pos < e <= h@.len() && byte_strings(final(declared).names@) == encoded(more@),
            None => member_after(h@, old(declared).at(pos as int, names)) is None,
        },
{
    let (name, behind) = match read_string(h, pos) {
        Some(found) => found,
        None => {
            return None;
        },
    };
    let at = match read_mark(h, behind, 58) {
        Some(at) => at,
        None => {
            return None;
        },
    };
    let ghost more = names.push(name@);
    if text_is(name.as_str(), "__metadata__") {
        match read_table(h, at) {
            Some(end) => {
                push_encoded(&mut declared.names, name.as_str(), Ghost(names));
                Some((end, Ghost(more)))
            },
            None => None,
        }
    } else if name.as_str().is_empty() || declared.tensors.len() >= MAX_OBJECT_COUNT {
        None
    } else {
        match read_descriptor(h, at) {
            Some((descriptor, end)) => {
                push_encoded(&mut declared.names, name.as_str(), Ghost(names));
                let ghost before = declared_models(declared.tensors@);
                let ghost model = (name@, descriptor@);
                declared.tensors.push((name, descriptor));
                assert(declared_models(declared.tensors@) =~= before.push(model));
                Some((end, Ghost(more)))
            },
            None => None,
        }
    }
}

fn read_header(h: &[u8]) -> (tensors: Option<Vec<(String, TensorDescriptor)>>)
    ensures
        match tensors {
            Some(t) => header_of(h@) == Some(declared_models(t@)),
            None => header_of(h@) is None,
        },
{
    if h.len() == 0 || h[0] != 123 {
        return None;
    }
    let mut declared = Declared { names: Vec::new(), tensors: Vec::new() };
    let ghost mut names: Seq<Seq<char>> = Seq::empty();
    let mut at: usize = 1;
    let mut first = true;
    assert(byte_strings(declared.names@) =~= encoded(names));
    assert(declared_models(declared.tensors@) =~= Seq::<(Seq<char>, Descriptor)>::empty());
    loop
        invariant_except_break
            1 <= at <= h@.len(),
            h@.len() > 0,
            h@[0] == 123,
            byte_strings(declared.names@) == encoded(names),
            members_from(h@, empty_header(), true) == members_from(
                h@,
                declared.at(at as int, names),
                first,
            ),
        ensures
            1 <= at <= h@.len(),
            h@.len() > 0,
            h@[0] == 123,
            byte_strings(declared.names@) == encoded(names),
            members_from(h@, empty_header(), true) == Some(declared.at(at as int, names)),
        decreases h@.len() - at,
    {
        match read_item(h, at, first, 125) {
            None => {
                return None;
            },
            Some((false, end)) => {
                at = end;
                break ;
            },
            Some((true, item)) => {
                match read_member(h, item, &mut declared, Ghost(names)) {
                    None => {
                        return None;
                    },
                    Some((end, more)) => {
                        proof {
                            names = more@;
                        }
                        at = end;
                        first = false;
                    },
                }
            },
        }
    }
    proof {
        distinct_when_encoded(names);
    }
    if !all_distinct(&declared.names) || skip_space(h, at) != h.len() {
        return None;
    }
    Some(declared.tensors)
}

// ---------------------------------------------------------------------------
// Layout
// ---------------------------------------------------------------------------

/// The bits of one element of a known type.
pub open spec fn dtype_width(dtype: Seq<char>) -> Option<u64> {
    if dtype == "F4"@ {
        Some(4)
    } else if dtype == "F6_E2M3"@ || dtype == "F6_E3M2"@ {
        Some(6)
    } else if dtype == "BOOL"@ || dtype == "U8"@ || dtype == "I8"@ || dtype == "F8_E5M2"@ || dtype
        == "F8_E4M3"@ || dtype == "F8_E8M0"@ || dtype == "F8_E5M2FNUZ"@ || dtype == "F8_E4M3FNUZ"@ {
        Some(8)
    } else if dtype == "I16"@ || dtype == "U16"@ || dtype == "F16"@ || dtype == "BF16"@ {
        Some(16)
    } else if dtype == "I32"@ || dtype == "U32"@ || dtype == "F32"@ {
        Some(32)
    } else if dtype == "I64"@ || dtype == "U64"@ || dtype == "F64"@ || dtype == "C64"@ {
        Some(64)
    } else {
        None
    }
}

/// The bits of one element of a known type.
pub fn dtype_bits(dtype: &str) -> (bits: Option<u64>)
    ensures
        bits == dtype_width(dtype@),
{
    if text_is(dtype, "F4") {
        Some(4)
    } else if text_is(dtype, "F6_E2M3") || text_is(dtype, "F6_E3M2") {
        Some(6)
    } else if text_is(dtype, "BOOL") || text_is(dtype, "U8") || text_is(dtype, "I8") || text_is(
        dtype,
        "F8_E5M2",
    ) || text_is(dtype, "F8_E4M3") || text_is(dtype, "F8_E8M0") || text_is(dtype, "F8_E5M2FNUZ")
        || text_is(dtype, "F8_E4M3FNUZ") {
        Some(8)
    } else if text_is(dtype, "I16") || text_is(dtype, "U16") || text_is(dtype, "F16") || text_is(
        dtype,
        "BF16",
    ) {
        Some(16)
    } else if text_is(dtype, "I32") || text_is(dtype, "U32") || text_is(dtype, "F32") {
        Some(32)
    } else if text_is(dtype, "I64") || text_is(dtype, "U64") || text_is(dtype, "F64") || text_is(
        dtype,
        "C64",
    ) {
        Some(64)
    } else {
        None
    }
}

/// The bytes a tensor of a known type and shape takes, when they are whole.
pub open spec fn byte_size(dtype: Seq<char>, shape: Seq<u64>) -> Option<u64> {
    match (dtype_width(dtype), product(shape)) {
        (Some(bits), Some(elements)) if elements * bits <= u64::MAX && (elements * bits) % 8 == 0 => {
            Some((elements * bits / 8) as u64)
        },
        _ => None,
    }
}

/// The bytes a tensor of a known type and shape takes, when they are whole.
pub fn tensor_byte_size(dtype: &str, shape: &[u64]) -> (size: Option<u64>)
    ensures
        size == byte_size(dtype@, shape@),
{
    let bits: u64 = match dtype_bits(dtype) {
        Some(bits) => bits,
        None => {
            return None;
        },
    };
    let elements: u64 = match checked_product(shape) {
        Some(elements) => elements,
        None => {
            return None;
        },
    };
    match elements.checked_mul(bits) {
        Some(total) if total % 8 == 0 => Some(total / 8),
        _ => None,
    }
}

/// One tensor of a validated file, its extent relative to the data section.
#[derive(Debug, PartialEq, Eq)]
pub struct TensorSpan {
    pub name: String,
    pub dtype: String,
    pub shape: Vec<u64>,
    pub start: u64,
    pub end: u64,
}

/// The value of a [`TensorSpan`].
#[verifier::ext_equal]
pub struct SpanModel {
    pub name: Seq<char>,
    pub dtype: Seq<char>,
    pub shape: Seq<u64>,
    pub start: u64,
    pub end: u64,
}

impl View for TensorSpan {
    type V = SpanModel;

    open spec fn view(&self) -> SpanModel {
        SpanModel {
            name: self.name@,
            dtype: self.dtype@,
            shape: self.shape@,
            start: self.start,
            end: self.end,
        }
    }
}

/// A validated file: where its header ends, and its tensors in file order.
#[derive(Debug, PartialEq, Eq)]
pub struct Layout {
    pub header_end: u64,
    pub tensors: Vec<TensorSpan>,
}

/// The value of a [`Layout`].
#[verifier::ext_equal]
pub struct LayoutModel {
    pub header_end: u64,
    pub tensors: Seq<SpanModel>,
}

pub open spec fn span_models(tensors: Seq<TensorSpan>) -> Seq<SpanModel> {
    tensors.map_values(|tensor: TensorSpan| tensor@)
}

impl View for Layout {
    type V = LayoutModel;

    open spec fn view(&self) -> LayoutModel {
        LayoutModel { header_end: self.header_end, tensors: span_models(self.tensors@) }
    }
}

/// A descriptor's extent is the size of its type and shape.
pub open spec fn sound(descriptor: Descriptor) -> bool {
    &&& descriptor.offsets.0 <= descriptor.offsets.1
    &&& byte_size(descriptor.dtype, descriptor.shape) == Some(
        (descriptor.offsets.1 - descriptor.offsets.0) as u64,
    )
}

pub open spec fn span_of(declared: (Seq<char>, Descriptor)) -> SpanModel {
    SpanModel {
        name: declared.0,
        dtype: declared.1.dtype,
        shape: declared.1.shape,
        start: declared.1.offsets.0,
        end: declared.1.offsets.1,
    }
}

/// What tensors are ordered by: where they start, then where they end.
pub open spec fn span_keys(declared: Seq<(Seq<char>, Descriptor)>) -> Seq<(u64, u64)> {
    declared.map_values(|pair: (Seq<char>, Descriptor)| pair.1.offsets)
}

/// The declared tensors in file order.
pub open spec fn in_file_order(declared: Seq<(Seq<char>, Descriptor)>) -> Seq<SpanModel> {
    sorted_order(span_keys(declared)).map_values(|at: usize| span_of(declared[at as int]))
}

/// Where the `i`th tensor must start: where the one before it ends.
pub open spec fn reached(tensors: Seq<SpanModel>, i: int) -> int {
    if i <= 0 {
        0
    } else {
        tensors[i - 1].end as int
    }
}

/// The tensors follow one another and fill the data section.
pub open spec fn fill_data(tensors: Seq<SpanModel>, data_size: int) -> bool {
    &&& forall|i: int|
        0 <= i < tensors.len() ==> (#[trigger] tensors[i]).start == reached(tensors, i)
            && tensors[i].start <= tensors[i].end
    &&& reached(tensors, tensors.len() as int) == data_size
}

/// The layout that declared tensors give, when each has the extent of its type
/// and shape and together they fill the data section.
pub open spec fn laid_out(
    declared: Seq<(Seq<char>, Descriptor)>,
    header_end: u64,
    data_size: int,
) -> Option<LayoutModel> {
    if (forall|i: int| 0 <= i < declared.len() ==> sound((#[trigger] declared[i]).1)) && fill_data(
        in_file_order(declared),
        data_size,
    ) {
        Some(LayoutModel { header_end, tensors: in_file_order(declared) })
    } else {
        None
    }
}

/// The layout of a file, when its bytes are a well-formed safetensors file whose
/// tensors fill the data section exactly.
pub open spec fn layout_of(c: Seq<u8>) -> Option<LayoutModel> {
    let n = u64_at(c, 0);
    if c.len() < 10 || n < 2 || n > MAX_HEADER_SIZE || 8 + n > c.len() {
        None
    } else {
        match header_of(c.subrange(8, 8 + n)) {
            None => None,
            Some(declared) => laid_out(declared, (8 + n) as u64, c.len() - 8 - n),
        }
    }
}

/// Puts declared tensors in file order.
fn order_spans(declared: &Vec<(String, TensorDescriptor)>) -> (spans: Vec<TensorSpan>)
    requires
        forall|i: int|
            0 <= i < declared@.len() ==> sound((#[trigger] declared_models(declared@)[i]).1),
    ensures
        span_models(spans@) == in_file_order(declared_models(declared@)),
        forall|i: int| 0 <= i < spans@.len() ==> (#[trigger] spans@[i]).start <= spans@[i].end,
{
    let ghost models = declared_models(declared@);
    let mut keys: Vec<(u64, u64)> = Vec::new();
    let mut at: usize = 0;
    while at < declared.len()
        invariant
            at <= declared@.len(),
            models == declared_models(declared@),
            keys@.len() == at,
            forall|i: int| 0 <= i < at ==> #[trigger] keys@[i] == models[i].1.offsets,
        decreases declared@.len() - at,
    {
        keys.push(declared[at].1.data_offsets);
        at += 1;
    }
    assert(keys@ =~= span_keys(models));
    let order = sort_positions(&keys);
    proof {
        sorted_order_is(keys@, order@);
    }
    let mut spans: Vec<TensorSpan> = Vec::new();
    at = 0;
    while at < order.len()
        invariant
            at <= order@.len(),
            models == declared_models(declared@),
            sorted_range(keys@, order@, 0, keys@.len() as int),
            keys@.len() == declared@.len(),
            spans@.len() == at,
            forall|i: int| 0 <= i < declared@.len() ==> sound((#[trigger] models[i]).1),
            forall|i: int|
                0 <= i < at ==> (#[trigger] spans@[i])@ == span_of(models[order@[i] as int]),
            forall|i: int| 0 <= i < at ==> (#[trigger] spans@[i]).start <= spans@[i].end,
        decreases order@.len() - at,
    {
        assert(0 <= order@[at as int] < keys@.len());
        assert(sound(models[order@[at as int] as int].1));
        let pair = &declared[order[at]];
        let span = TensorSpan {
            name: pair.0.clone(),
            dtype: pair.1.dtype.clone(),
            shape: vstd::slice::slice_to_vec(&pair.1.shape),
            start: pair.1.data_offsets.0,
            end: pair.1.data_offsets.1,
        };
        assert(span@ =~= span_of(models[order@[at as int] as int]));
        spans.push(span);
        at += 1;
    }
    assert(span_models(spans@) =~= in_file_order(models));
    spans
}

/// Whether every descriptor's extent is the size of its type and shape.
fn all_sound(declared: &Vec<(String, TensorDescriptor)>) -> (yes: bool)
    ensures
        yes == (forall|i: int|
            0 <= i < declared@.len() ==> sound((#[trigger] declared_models(declared@)[i]).1)),
{
    let ghost models = declared_models(declared@);
    let mut at: usize = 0;
    while at < declared.len()
        invariant
            at <= declared@.len(),
            models == declared_models(declared@),
            forall|i: int| 0 <= i < at ==> sound((#[trigger] models[i]).1),
        decreases declared@.len() - at,
    {
        let descriptor = &declared[at].1;
        assert(models[at as int].1 == descriptor@);
        let (start, end) = descriptor.data_offsets;
        if end < start {
            return false;
        }
        match tensor_byte_size(descriptor.dtype.as_str(), &descriptor.shape) {
            Some(size) if size == end - start => {},
            _ => {
                return false;
            },
        }
        at += 1;
    }
    true
}

/// Whether tensors in file order fill the data section.
fn spans_fill(spans: &Vec<TensorSpan>, data_size: u64) -> (yes: bool)
    requires
        forall|i: int| 0 <= i < spans@.len() ==> (#[trigger] spans@[i]).start <= spans@[i].end,
    ensures
        yes == fill_data(span_models(spans@), data_size as int),
{
    let ghost models = span_models(spans@);
    let mut cursor: u64 = 0;
    let mut at: usize = 0;
    while at < spans.len()
        invariant
            at <= spans@.len(),
            models == span_models(spans@),
            cursor == reached(models, at as int),
            forall|i: int| 0 <= i < spans@.len() ==> (#[trigger] spans@[i]).start <= spans@[i].end,
            forall|i: int| 0 <= i < at ==> (#[trigger] models[i]).start == reached(models, i),
        decreases spans@.len() - at,
    {
        let span = &spans[at];
        assert(models[at as int] == span@);
        if span.start != cursor {
            return false;
        }
        cursor = span.end;
        at += 1;
    }
    proof {
        assert forall|i: int| 0 <= i < models.len() implies (#[trigger] models[i]).start
            <= models[i].end by {
            assert(models[i] == spans@[i]@);
        }
    }
    cursor == data_size
}

/// Whether reading a file needs memory that can be wanting: for a header of a
/// bounded size that stands in it.
pub open spec fn takes_memory(c: Seq<u8>) -> bool {
    let n = u64_at(c, 0);
    c.len() >= 10 && 2 <= n <= MAX_HEADER_SIZE && 8 + n <= c.len()
}

/// Reads the layout of a safetensors file; `None` when the file is no such
/// container. Only the prefix and the bounded header are read.
pub fn read_layout<S: ByteSource + ?Sized>(source: &S) -> (outcome: Result<
    Option<Layout>,
    PlanError,
>)
    ensures
        match outcome {
            Ok(Some(layout)) => fills(layout@, source.content().len() as int) && (source.steady()
                ==> layout_of(source.content()) == Some(layout@)),
            Ok(None) => source.steady() ==> layout_of(source.content()) is None,
            Err(PlanError::Read(_)) => !source.reliable(),
            Err(PlanError::ResourceExhausted) => source.steady() ==> takes_memory(
                source.content(),
            ),
            Err(_) => false,
        },
{
    let file_size: u64 = source.len();
    let ghost c = source.content();
    if file_size < PREFIX_SIZE + 2 {
        return Ok(None);
    }
    let mut prefix: [u8; 8] = [0; 8];
    match source.read_exact_at(0, &mut prefix) {
        Ok(_) => {},
        Err(error) => {
            return Err(PlanError::Read(error));
        },
    }
    let header_size: u64 = read_le(&prefix);
    assert(source.steady() ==> header_size == u64_at(c, 0));
    if header_size < 2 || header_size > MAX_HEADER_SIZE {
        return Ok(None);
    }
    let header_end: u64 = PREFIX_SIZE + header_size;
    if header_end > file_size {
        return Ok(None);
    }
    let mut header: Vec<u8> = Vec::new();
    if header.try_reserve(header_size as usize).is_err() {
        return Err(PlanError::ResourceExhausted);
    }
    header.resize(header_size as usize, 0);
    match source.read_exact_at(PREFIX_SIZE, header.as_mut_slice()) {
        Ok(_) => {},
        Err(error) => {
            return Err(PlanError::Read(error));
        },
    }
    assert(source.steady() ==> header@ =~= c.subrange(8, 8 + header_size));
    Ok(layout_from(&header, file_size - header_end))
}

/// The layout that a header gives, where `data_size` bytes stand behind it.
pub open spec fn layout_under(header: Seq<u8>, data_size: int) -> Option<LayoutModel> {
    match header_of(header) {
        None => None,
        Some(declared) => laid_out(declared, (8 + header.len()) as u64, data_size),
    }
}

/// Reads a header, where `data_size` bytes stand behind it. `None` when it is
/// malformed, or when its tensors do not fill those bytes.
pub fn layout_from(header: &[u8], data_size: u64) -> (layout: Option<Layout>)
    requires
        header@.len() <= MAX_HEADER_SIZE,
    ensures
        match layout {
            Some(l) => layout_under(header@, data_size as int) == Some(l@),
            None => layout_under(header@, data_size as int) is None,
        },
{
    match read_header(header) {
        Some(declared) => lay_out(&declared, PREFIX_SIZE + header.len() as u64, data_size),
        None => None,
    }
}

/// Lays out declared tensors.
fn lay_out(declared: &Vec<(String, TensorDescriptor)>, header_end: u64, data_size: u64) -> (layout:
    Option<Layout>)
    ensures
        match layout {
            Some(l) => laid_out(declared_models(declared@), header_end, data_size as int) == Some(
                l@,
            ),
            None => laid_out(declared_models(declared@), header_end, data_size as int) is None,
        },
{
    if !all_sound(declared) {
        return None;
    }
    let spans = order_spans(declared);
    if !spans_fill(&spans, data_size) {
        return None;
    }
    Some(Layout { header_end, tensors: spans })
}

// ---------------------------------------------------------------------------
// Regions
// ---------------------------------------------------------------------------

/// The header and the tensors follow one another to the end of the file.
pub open spec fn fills(layout: LayoutModel, file_size: int) -> bool {
    layout.header_end <= file_size && fill_data(layout.tensors, file_size - layout.header_end)
}

/// A validated file is filled exactly by its header and its tensors.
pub proof fn layout_fills_the_file(c: Seq<u8>)
    ensures
        layout_of(c) matches Some(layout) ==> fills(layout, c.len() as int),
{
}

pub(crate) proof fn members_are_bounded(h: Seq<u8>, header: Header, first: bool)
    requires
        header.tensors.len() <= MAX_OBJECT_COUNT,
    ensures
        members_from(h, header, first) matches Some(last) ==> last.tensors.len() <= MAX_OBJECT_COUNT,
    decreases h.len() - header.position,
{
    if let Some((true, at)) = next_item(h, header.position, first, 125) {
        if let Some(next) = member_after(h, Header { position: at, ..header }) {
            if header.position < next.position <= h.len() {
                members_are_bounded(h, next, false);
            }
        }
    }
}

/// A validated file has no more tensors than a file may have, and each has the
/// extent of its type and shape.
pub proof fn layout_tensors_are_sound(c: Seq<u8>)
    ensures
        layout_of(c) matches Some(layout) ==> {
            &&& layout.tensors.len() <= MAX_OBJECT_COUNT
            &&& forall|i: int|
                0 <= i < layout.tensors.len() ==> byte_size(
                    (#[trigger] layout.tensors[i]).dtype,
                    layout.tensors[i].shape,
                ) == Some((layout.tensors[i].end - layout.tensors[i].start) as u64)
        },
{
    if let Some(layout) = layout_of(c) {
        let h = c.subrange(8, 8 + u64_at(c, 0));
        let declared = header_of(h).unwrap();
        let keys = span_keys(declared);
        members_are_bounded(h, empty_header(), true);
        let order = keys_can_be_sorted(keys, keys.len() as int);
        sorted_order_is(keys, order);
        assert forall|i: int| 0 <= i < layout.tensors.len() implies byte_size(
            (#[trigger] layout.tensors[i]).dtype,
            layout.tensors[i].shape,
        ) == Some((layout.tensors[i].end - layout.tensors[i].start) as u64) by {
            assert(layout.tensors[i] == span_of(declared[order[i] as int]));
            assert(sound(declared[order[i] as int].1));
        }
    }
}

/// The regions of one tensor.
pub open spec fn tensor_regions(
    layout: LayoutModel,
    contract: Option<ContractModel>,
    i: int,
) -> Seq<Region> {
    let tensor = layout.tensors[i];
    let length = (tensor.end - tensor.start) as u64;
    seam_grid(
        layout.header_end + tensor.start,
        length as int,
        seams_for(contract, tensor.name, tensor.shape, length),
        RegionKind::Tensor,
    )
}

/// The regions of the first `upto` tensors.
pub open spec fn data_regions(
    layout: LayoutModel,
    contract: Option<ContractModel>,
    upto: int,
) -> Seq<Region>
    decreases upto,
{
    if upto <= 0 {
        Seq::empty()
    } else {
        data_regions(layout, contract, upto - 1) + tensor_regions(layout, contract, upto - 1)
    }
}

/// The regions of a validated file: the header, then each tensor.
pub open spec fn layout_regions(layout: LayoutModel, contract: Option<ContractModel>) -> Seq<Region> {
    grid(0, layout.header_end as int, RegionKind::Header) + data_regions(
        layout,
        contract,
        layout.tensors.len() as int,
    )
}

pub(crate) proof fn reached_grows(tensors: Seq<SpanModel>, data_size: int, low: int, high: int)
    requires
        fill_data(tensors, data_size),
        0 <= low <= high <= tensors.len(),
    ensures
        0 <= reached(tensors, low) <= reached(tensors, high),
    decreases high - low,
{
    if low < high {
        reached_grows(tensors, data_size, low, high - 1);
        assert(tensors[high - 1].start == reached(tensors, high - 1));
    }
}

proof fn data_regions_tile(
    layout: LayoutModel,
    contract: Option<ContractModel>,
    file_size: int,
    upto: int,
)
    requires
        fills(layout, file_size),
        file_size <= u64::MAX,
        0 <= upto <= layout.tensors.len(),
    ensures
        tiles(
            data_regions(layout, contract, upto),
            layout.header_end as int,
            layout.header_end + reached(layout.tensors, upto),
        ),
        gridded(data_regions(layout, contract, upto)),
    decreases upto,
{
    let base = layout.header_end as int;
    if upto > 0 {
        data_regions_tile(layout, contract, file_size, upto - 1);
        let tensor = layout.tensors[upto - 1];
        let length = (tensor.end - tensor.start) as u64;
        let seams = seams_for(contract, tensor.name, tensor.shape, length);
        assert(tensor.start == reached(layout.tensors, upto - 1));
        reached_grows(layout.tensors, file_size - base, upto, layout.tensors.len() as int);
        if contract is Some {
            seams_fall_inside(contract.unwrap(), tensor.name, tensor.shape, length);
        }
        seam_grid_tiles(base + tensor.start, length, seams, RegionKind::Tensor);
        tiles_join(
            data_regions(layout, contract, upto - 1),
            tensor_regions(layout, contract, upto - 1),
            base,
            base + tensor.start,
            base + tensor.end,
        );
    } else {
        tiles_nothing(base);
    }
}

/// The regions of a validated file tile it exactly, whatever the contract.
pub proof fn layout_regions_tile(
    layout: LayoutModel,
    contract: Option<ContractModel>,
    file_size: int,
)
    requires
        fills(layout, file_size),
        file_size <= u64::MAX,
    ensures
        tiles(layout_regions(layout, contract), 0, file_size),
        gridded(layout_regions(layout, contract)),
{
    let n = layout.tensors.len() as int;
    let base = layout.header_end as int;
    grid_tiles(0, base, RegionKind::Header);
    data_regions_tile(layout, contract, file_size, n);
    tiles_join(
        grid(0, base, RegionKind::Header),
        data_regions(layout, contract, n),
        0,
        base,
        file_size,
    );
}

proof fn data_regions_grow(layout: LayoutModel, contract: Option<ContractModel>, low: int, high: int)
    requires
        0 <= low <= high,
    ensures
        data_regions(layout, contract, low).len() <= data_regions(layout, contract, high).len(),
    decreases high - low,
{
    if low < high {
        data_regions_grow(layout, contract, low, high - 1);
    }
}

/// The region shape a validated layout produces; `None` when it takes more
/// objects than a file may have.
pub fn plan_layout(file_size: u64, layout: &Layout, contract: Option<&Contract>) -> (outcome: Result<
    Option<Vec<Region>>,
    PlanError,
>)
    requires
        fills(layout@, file_size as int),
        contract matches Some(c) ==> c.wf(),
    ensures
        ({
            let expected = layout_regions(layout@, contract_model(contract));
            match outcome {
                Ok(Some(regions)) => regions@ == expected && expected.len() <= MAX_OBJECT_COUNT,
                Ok(None) => expected.len() > MAX_OBJECT_COUNT,
                Err(PlanError::ResourceExhausted) => expected.len() > 0,
                Err(_) => false,
            }
        }),
{
    let ghost model = contract_model(contract);
    let ghost n = layout@.tensors.len() as int;
    let mut regions: Vec<Region> = Vec::new();
    match append_split_region(&mut regions, 0, layout.header_end, RegionKind::Header) {
        Ok(_) => {},
        Err(PlanError::ObjectLimit) => {
            return Ok(None);
        },
        Err(error) => {
            return Err(error);
        },
    }
    let ghost head = grid(0, layout.header_end as int, RegionKind::Header);
    assert(regions@ =~= head + data_regions(layout@, model, 0));
    let mut at: usize = 0;
    while at < layout.tensors.len()
        invariant
            fills(layout@, file_size as int),
            contract matches Some(c) ==> c.wf(),
            model == contract_model(contract),
            n == layout@.tensors.len(),
            head == grid(0, layout.header_end as int, RegionKind::Header),
            at <= layout.tensors@.len(),
            regions@ == head + data_regions(layout@, model, at as int),
            regions@.len() <= MAX_OBJECT_COUNT,
        decreases layout.tensors@.len() - at,
    {
        let tensor = &layout.tensors[at];
        proof {
            assert(layout@.tensors[at as int] == tensor@);
            assert(tensor.start == reached(layout@.tensors, at as int));
            reached_grows(layout@.tensors, file_size - layout.header_end, at + 1, n);
            data_regions_grow(layout@, model, at + 1, n);
        }
        let length: u64 = tensor.end - tensor.start;
        let seams = seams_of(contract, tensor.name.as_str(), &tensor.shape, length);
        match append_tensor_regions(
            &mut regions,
            layout.header_end + tensor.start,
            length,
            &seams,
            RegionKind::Tensor,
        ) {
            Ok(_) => {},
            Err(PlanError::ObjectLimit) => {
                return Ok(None);
            },
            Err(error) => {
                return Err(error);
            },
        }
        assert(regions@ =~= head + data_regions(layout@, model, at + 1));
        at += 1;
    }
    Ok(Some(regions))
}

/// The regions a file's bytes and a contract give, when the bytes are a
/// well-formed safetensors file of a bounded number of objects.
pub open spec fn safetensors_regions(c: Seq<u8>, contract: Option<ContractModel>) -> Option<
    Seq<Region>,
> {
    match layout_of(c) {
        Some(layout) if layout_regions(layout, contract).len() <= MAX_OBJECT_COUNT => Some(
            layout_regions(layout, contract),
        ),
        _ => None,
    }
}

/// The regions of a file tile it exactly.
pub proof fn safetensors_regions_cover(c: Seq<u8>, contract: Option<ContractModel>)
    requires
        c.len() <= u64::MAX,
    ensures
        safetensors_regions(c, contract) matches Some(regions) ==> tiles(regions, 0, c.len() as int) && gridded(
            regions,
        ) && regions.len() <= MAX_OBJECT_COUNT,
{
    layout_fills_the_file(c);
    if layout_of(c) is Some {
        layout_regions_tile(layout_of(c).unwrap(), contract, c.len() as int);
    }
}

/// Plans the regions of a safetensors file; `None` when the file is no such
/// container.
pub fn try_regions<S: ByteSource + ?Sized>(source: &S, contract: Option<&Contract>) -> (outcome:
    Result<Option<Vec<Region>>, PlanError>)
    requires
        contract matches Some(c) ==> c.wf(),
    ensures
        match outcome {
            Ok(Some(regions)) => {
                &&& tiles(regions@, 0, source.content().len() as int)
                &&& gridded(regions@)
                &&& regions@.len() <= MAX_OBJECT_COUNT
                &&& source.steady() ==> safetensors_regions(
                    source.content(),
                    contract_model(contract),
                ) == Some(regions@)
            },
            Ok(None) => source.steady() ==> safetensors_regions(
                source.content(),
                contract_model(contract),
            ) is None,
            Err(PlanError::Read(_)) => !source.reliable(),
            Err(PlanError::ResourceExhausted) => source.steady() ==> takes_memory(
                source.content(),
            ),
            Err(_) => false,
        },
{
    let length: u64 = source.len();
    match read_layout(source)? {
        None => Ok(None),
        Some(layout) => {
            proof {
                layout_regions_tile(layout@, contract_model(contract), length as int);
            }
            plan_layout(length, &layout, contract)
        },
    }
}

/// The plan of a file's bytes without a contract, when they are a well-formed
/// safetensors file.
pub open spec fn planned(c: Seq<u8>) -> Option<PlanModel> {
    match safetensors_regions(c, None) {
        None => None,
        Some(regions) => Some(
            PlanModel {
                planner: PlannerId::SafetensorsV1,
                contract: StampModel::Absent,
                file_size: c.len() as u64,
                regions,
            },
        ),
    }
}

/// Plans a safetensors file along its own structure; `None` when the file is no such
/// container.
pub fn try_plan<S: ByteSource + ?Sized>(source: &S) -> (outcome: Result<Option<Plan>, PlanError>)
    ensures
        match outcome {
            Ok(Some(plan)) => plan@.covered() && plan@.file_size == source.content().len() && (
            source.steady() ==> planned(source.content()) == Some(plan@)),
            Ok(None) => source.steady() ==> planned(source.content()) is None,
            Err(PlanError::Read(_)) => !source.reliable(),
            Err(PlanError::ResourceExhausted) => source.steady() ==> takes_memory(
                source.content(),
            ),
            Err(_) => false,
        },
{
    let file_size: u64 = source.len();
    match try_regions(source, None)? {
        None => Ok(None),
        Some(regions) => {
            proof {
                safetensors_regions_cover(source.content(), None);
            }
            let plan = Plan {
                planner: PlannerId::SafetensorsV1,
                contract: Stamp::Absent,
                file_size,
                regions,
            };
            assert(source.steady() ==> plan@ =~= planned(source.content()).unwrap());
            Ok(Some(plan))
        },
    }
}

// ---------------------------------------------------------------------------
// Inventory
// ---------------------------------------------------------------------------

/// One tensor of the inventory.
pub open spec fn listed_tensor(layout: LayoutModel, i: int) -> InventoryModel {
    let tensor = layout.tensors[i];
    InventoryModel {
        name: tensor.name,
        dtype: tensor.dtype,
        shape: tensor.shape,
        offset: (layout.header_end + tensor.start) as u64,
        length: (tensor.end - tensor.start) as u64,
    }
}

/// The inventory of a validated file, in file order.
pub open spec fn inventory_of(layout: LayoutModel) -> Seq<InventoryModel> {
    Seq::new(layout.tensors.len(), |i: int| listed_tensor(layout, i))
}

/// A listed tensor has the extent of its span, behind the header and within the
/// file.
pub(crate) proof fn span_is_inside(layout: LayoutModel, file_size: int, i: int)
    requires
        fills(layout, file_size),
        file_size <= u64::MAX,
        0 <= i < layout.tensors.len(),
    ensures
        ({
            let span = layout.tensors[i];
            &&& span.start <= span.end
            &&& inventory_of(layout)[i].offset == layout.header_end + span.start
            &&& inventory_of(layout)[i].length == span.end - span.start
            &&& layout.header_end + span.end <= file_size
        }),
{
    let size = file_size - layout.header_end;
    let tensors = layout.tensors;
    let n = tensors.len() as int;
    assert(tensors[i].start == reached(tensors, i));
    reached_grows(tensors, size, i, n);
    reached_grows(tensors, size, i + 1, n);
}

/// What a validated file lists lies one behind another, within the file.
pub(crate) proof fn listed_extents_lie_apart(layout: LayoutModel, file_size: int)
    requires
        fills(layout, file_size),
        file_size <= u64::MAX,
    ensures
        lie_apart(inventory_of(layout), file_size),
{
    let tensors = layout.tensors;
    let n = tensors.len() as int;
    let size = file_size - layout.header_end;
    assert forall|i: int| 0 <= i < n implies (#[trigger] inventory_of(layout)[i]).offset
        + inventory_of(layout)[i].length <= if i + 1 < n {
        inventory_of(layout)[i + 1].offset as int
    } else {
        file_size
    } by {
        assert(tensors[i].start == reached(tensors, i));
        reached_grows(tensors, size, i, n);
        reached_grows(tensors, size, i + 1, n);
        if i + 1 < n {
            assert(tensors[i + 1].start == reached(tensors, i + 1));
        }
    }
}

/// Lists the tensors of a validated file.
pub fn inventory(layout: &Layout, Ghost(file_size): Ghost<int>) -> (tensors: Vec<InventoryTensor>)
    requires
        fills(layout@, file_size),
        file_size <= u64::MAX,
    ensures
        inventory_models(tensors@) == inventory_of(layout@),
{
    let mut tensors: Vec<InventoryTensor> = Vec::new();
    let mut at: usize = 0;
    while at < layout.tensors.len()
        invariant
            fills(layout@, file_size),
            file_size <= u64::MAX,
            at <= layout.tensors@.len(),
            tensors@.len() == at,
            forall|i: int|
                0 <= i < at ==> (#[trigger] tensors@[i])@ == listed_tensor(layout@, i),
        decreases layout.tensors@.len() - at,
    {
        let tensor = &layout.tensors[at];
        proof {
            assert(layout@.tensors[at as int] == tensor@);
            assert(tensor.start == reached(layout@.tensors, at as int));
            reached_grows(
                layout@.tensors,
                file_size - layout.header_end,
                at + 1,
                layout@.tensors.len() as int,
            );
        }
        let listed = InventoryTensor {
            name: tensor.name.clone(),
            dtype: tensor.dtype.clone(),
            shape: vstd::slice::slice_to_vec(&tensor.shape),
            offset: layout.header_end + tensor.start,
            length: tensor.end - tensor.start,
        };
        assert(listed@ =~= listed_tensor(layout@, at as int));
        tensors.push(listed);
        at += 1;
    }
    assert(inventory_models(tensors@) =~= inventory_of(layout@));
    tensors
}

} // verus!
