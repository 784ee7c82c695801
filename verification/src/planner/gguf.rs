//! GGUF files: the structural proof of a header, and the regions it gives.

use super::{
    append_split_region, append_tensor_regions, grid, grid_tiles, gridded, lie_apart, seam_grid,
    seam_grid_tiles, tiles, tiles_join, tiles_nothing, ByteSource, InventoryModel,
    InventoryTensor, Plan, PlanError, PlanModel, PlannerId, Region, RegionKind, MAX_OBJECT_COUNT,
};
use crate::arith::{checked_product, product};
use crate::contract::{seams_fall_inside, Contract, ContractModel, Stamp, StampModel};
use crate::sort::{all_distinct, byte_strings};
use crate::text::{first_scalar_is_local, is_utf8, same_bytes, scalar_width};
use crate::trusted::string_from_utf8;
use crate::wire::{le_bytes_of_le, read_le, spans, u32_at, u64_at};
use std::io;
use vstd::prelude::*;
use vstd::utf8::*;

verus! {

pub const DEFAULT_ALIGNMENT: u64 = 32;

pub const MAX_METADATA_COUNT: u64 = 1000000;

pub const MAX_TENSOR_COUNT: u64 = 1000000;

pub const MAX_SYMBOL_BYTES: u64 = 67108864;

pub const MAX_METADATA_VALUE_BYTES: u64 = 67108864;

pub const MAX_METADATA_INSPECTION_BYTES: u64 = 67108864;

pub const MAX_ARRAY_ELEMENTS: u64 = 16000000;

pub const MAX_ARRAY_DEPTH: u32 = 16;

pub const MAX_METADATA_KEY_LEN: u64 = 65535;

pub const MAX_TENSOR_NAME_LEN: u64 = 63;

pub const GGUF_TYPE_UINT8: u32 = 0;

pub const GGUF_TYPE_INT8: u32 = 1;

pub const GGUF_TYPE_UINT16: u32 = 2;

pub const GGUF_TYPE_INT16: u32 = 3;

pub const GGUF_TYPE_UINT32: u32 = 4;

pub const GGUF_TYPE_INT32: u32 = 5;

pub const GGUF_TYPE_FLOAT32: u32 = 6;

pub const GGUF_TYPE_BOOL: u32 = 7;

pub const GGUF_TYPE_STRING: u32 = 8;

pub const GGUF_TYPE_ARRAY: u32 = 9;

pub const GGUF_TYPE_UINT64: u32 = 10;

pub const GGUF_TYPE_INT64: u32 = 11;

pub const GGUF_TYPE_FLOAT64: u32 = 12;

/// Why parsing stopped: the file is no such container, a read failed, or
/// memory ran out.
#[derive(Debug)]
pub enum ParseFailure {
    Invalid,
    Read(io::Error),
    ResourceExhausted,
}

// ---------------------------------------------------------------------------
// The grammar
// ---------------------------------------------------------------------------

/// What inspecting metadata has used up: array elements and value bytes.
#[derive(Clone, Copy, PartialEq, Eq, Structural)]
pub struct Budget {
    pub elements: u64,
    pub bytes: u64,
}

pub open spec fn elements_charged(budget: Budget, count: int) -> Option<Budget> {
    if budget.elements + count <= MAX_ARRAY_ELEMENTS {
        Some(Budget { elements: (budget.elements + count) as u64, ..budget })
    } else {
        None
    }
}

pub open spec fn bytes_charged(budget: Budget, count: int) -> Option<Budget> {
    if budget.bytes + count <= MAX_METADATA_VALUE_BYTES {
        Some(Budget { bytes: (budget.bytes + count) as u64, ..budget })
    } else {
        None
    }
}

/// Where parsing stands: a position and the budget used.
pub struct Spot {
    pub position: int,
    pub budget: Budget,
}

/// Skips `count` bytes of value.
pub open spec fn skipped(bound: int, spot: Spot, count: int) -> Option<Spot> {
    match bytes_charged(spot.budget, count) {
        Some(budget) if spot.position + count <= bound => Some(
            Spot { position: spot.position + count, budget },
        ),
        _ => None,
    }
}

/// A length-prefixed byte string of at most `max` bytes and where it ends.
pub open spec fn bytes_at(c: Seq<u8>, bound: int, pos: int, max: u64) -> Option<(Seq<u8>, int)> {
    let length = u64_at(c, pos);
    if pos + 8 <= bound && length <= max && pos + 8 + length <= bound {
        Some((c.subrange(pos + 8, pos + 8 + length), pos + 8 + length))
    } else {
        None
    }
}

/// A length-prefixed UTF-8 string of any length within the budget.
pub open spec fn string_after(c: Seq<u8>, bound: int, spot: Spot) -> Option<Spot> {
    let start = spot.position + 8;
    let length = u64_at(c, spot.position);
    if start > bound {
        None
    } else {
        match skipped(bound, Spot { position: start, ..spot }, length as int) {
            Some(next) if valid_utf8(c.subrange(start, start + length)) => Some(next),
            _ => None,
        }
    }
}

/// The width of a fixed-width value type other than the boolean.
pub open spec fn fixed_width(kind: u32) -> Option<int> {
    if kind == GGUF_TYPE_UINT8 || kind == GGUF_TYPE_INT8 {
        Some(1)
    } else if kind == GGUF_TYPE_UINT16 || kind == GGUF_TYPE_INT16 {
        Some(2)
    } else if kind == GGUF_TYPE_UINT32 || kind == GGUF_TYPE_INT32 || kind == GGUF_TYPE_FLOAT32 {
        Some(4)
    } else if kind == GGUF_TYPE_UINT64 || kind == GGUF_TYPE_INT64 || kind == GGUF_TYPE_FLOAT64 {
        Some(8)
    } else {
        None
    }
}

/// Bytes that are booleans.
pub open spec fn booleans(bytes: Seq<u8>) -> bool {
    forall|i: int| 0 <= i < bytes.len() ==> #[trigger] bytes[i] <= 1
}

pub open spec fn booleans_after(c: Seq<u8>, bound: int, spot: Spot, count: int) -> Option<Spot> {
    match skipped(bound, spot, count) {
        Some(next) if booleans(c.subrange(spot.position, spot.position + count)) => Some(next),
        _ => None,
    }
}

/// Where one metadata value of the given type ends.
pub open spec fn value_after(c: Seq<u8>, bound: int, spot: Spot, kind: u32, depth: int) -> Option<
    Spot,
>
    decreases 17 - depth, 0int,
{
    if fixed_width(kind) is Some {
        skipped(bound, spot, fixed_width(kind).unwrap())
    } else if kind == GGUF_TYPE_BOOL {
        booleans_after(c, bound, spot, 1)
    } else if kind == GGUF_TYPE_STRING {
        string_after(c, bound, spot)
    } else if kind == GGUF_TYPE_ARRAY && 0 <= depth < MAX_ARRAY_DEPTH {
        array_after(c, bound, spot, depth)
    } else {
        None
    }
}

/// Where one metadata array ends: an element type, a count, the elements.
pub open spec fn array_after(c: Seq<u8>, bound: int, spot: Spot, depth: int) -> Option<Spot>
    decreases 16 - depth, 3int + u64_at(c, spot.position + 4),
{
    let kind = u32_at(c, spot.position);
    let count = u64_at(c, spot.position + 4);
    if spot.position + 12 > bound || kind > GGUF_TYPE_FLOAT64 || depth < 0 || depth
        >= MAX_ARRAY_DEPTH {
        None
    } else {
        match elements_charged(spot.budget, count as int) {
            None => None,
            Some(budget) => {
                let start = Spot { position: spot.position + 12, budget };
                if fixed_width(kind) is Some {
                    skipped(bound, start, count * fixed_width(kind).unwrap())
                } else if kind == GGUF_TYPE_BOOL {
                    booleans_after(c, bound, start, count as int)
                } else {
                    elements_after(c, bound, start, kind, depth + 1, count as nat)
                }
            },
        }
    }
}

/// Where `count` values of one type end.
pub open spec fn elements_after(
    c: Seq<u8>,
    bound: int,
    spot: Spot,
    kind: u32,
    depth: int,
    count: nat,
) -> Option<Spot>
    decreases 17 - depth, 1int + count,
{
    if count == 0 {
        Some(spot)
    } else {
        match value_after(c, bound, spot, kind, depth) {
            None => None,
            Some(next) => elements_after(c, bound, next, kind, depth, (count - 1) as nat),
        }
    }
}

pub open spec fn lower_byte(b: u8) -> bool {
    97 <= b <= 122
}

pub open spec fn digit_byte(b: u8) -> bool {
    48 <= b <= 57
}

/// A metadata key: dot-separated lower snake case segments, each starting with
/// a letter, ending in a letter or digit, without two underscores in a row.
pub open spec fn valid_key(key: Seq<u8>) -> bool {
    &&& key.len() > 0
    &&& lower_byte(key[0])
    &&& key.last() != 95
    &&& key.last() != 46
    &&& forall|i: int|
        0 <= i < key.len() ==> lower_byte(#[trigger] key[i]) || digit_byte(key[i]) || key[i] == 95
            || key[i] == 46
    &&& forall|i: int|
        0 < i < key.len() ==> (key[i - 1] == 46 ==> lower_byte(#[trigger] key[i])) && (key[i] == 46
            ==> key[i - 1] != 95) && !(key[i - 1] == 95 && key[i] == 95)
}

/// A tensor name: UTF-8 without a zero byte.
pub open spec fn valid_name(name: Seq<u8>) -> bool {
    !name.contains(0) && valid_utf8(name)
}

/// The key that sets the alignment.
pub open spec fn alignment_key() -> Seq<u8> {
    seq![103u8, 101, 110, 101, 114, 97, 108, 46, 97, 108, 105, 103, 110, 109, 101, 110, 116]
}

/// The state of reading metadata entries.
pub struct MetadataState {
    pub spot: Spot,
    pub symbols: int,
    pub alignment: u64,
    pub keys: Seq<Seq<u8>>,
}

/// One metadata entry: a key, a type, a value.
pub open spec fn entry_after(c: Seq<u8>, bound: int, state: MetadataState) -> Option<
    MetadataState,
> {
    match bytes_at(c, bound, state.spot.position, MAX_METADATA_KEY_LEN) {
        None => None,
        Some((key, at)) => {
            let kind = u32_at(c, at);
            let spot = Spot { position: at + 4, budget: state.spot.budget };
            let next = MetadataState {
                symbols: state.symbols + key.len(),
                keys: state.keys.push(key),
                ..state
            };
            if !valid_key(key) || next.symbols > MAX_SYMBOL_BYTES || at + 4 > bound {
                None
            } else if key == alignment_key() {
                if kind != GGUF_TYPE_UINT32 {
                    None
                } else {
                    match skipped(bound, spot, 4) {
                        None => None,
                        Some(after) => Some(
                            MetadataState {
                                spot: after,
                                alignment: u32_at(c, at + 4) as u64,
                                ..next
                            },
                        ),
                    }
                }
            } else {
                match value_after(c, bound, spot, kind, 0) {
                    None => None,
                    Some(after) => Some(MetadataState { spot: after, ..next }),
                }
            }
        },
    }
}

/// `count` metadata entries.
pub open spec fn metadata_after(
    c: Seq<u8>,
    bound: int,
    state: MetadataState,
    count: nat,
) -> Option<MetadataState>
    decreases count,
{
    if count == 0 {
        Some(state)
    } else {
        match entry_after(c, bound, state) {
            None => None,
            Some(next) => metadata_after(c, bound, next, (count - 1) as nat),
        }
    }
}

pub open spec fn power_of_two(n: int) -> bool
    decreases n,
{
    n == 1 || (n > 1 && n % 2 == 0 && power_of_two(n / 2))
}

/// `value` rounded up to a multiple of `alignment`, when that fits.
pub open spec fn aligned(value: int, alignment: u64) -> Option<int> {
    if value + alignment - 1 <= u64::MAX {
        Some((value + alignment - 1) / (alignment as int) * alignment)
    } else {
        None
    }
}

/// Elements and bytes of one encoded block of a tensor type.
pub open spec fn block_layout(kind: u32) -> Option<(u64, u64)> {
    if kind == 0 {
        Some((1, 4))
    } else if kind == 1 {
        Some((1, 2))
    } else if kind == 2 {
        Some((32, 18))
    } else if kind == 3 {
        Some((32, 20))
    } else if kind == 6 {
        Some((32, 22))
    } else if kind == 7 {
        Some((32, 24))
    } else if kind == 8 {
        Some((32, 34))
    } else if kind == 9 {
        Some((32, 40))
    } else if kind == 10 {
        Some((256, 84))
    } else if kind == 11 {
        Some((256, 110))
    } else if kind == 12 {
        Some((256, 144))
    } else if kind == 13 {
        Some((256, 176))
    } else if kind == 14 {
        Some((256, 210))
    } else if kind == 15 {
        Some((256, 292))
    } else if kind == 16 {
        Some((256, 66))
    } else if kind == 17 {
        Some((256, 74))
    } else if kind == 18 {
        Some((256, 98))
    } else if kind == 19 {
        Some((256, 50))
    } else if kind == 20 {
        Some((32, 18))
    } else if kind == 21 {
        Some((256, 110))
    } else if kind == 22 {
        Some((256, 82))
    } else if kind == 23 {
        Some((256, 136))
    } else if kind == 24 {
        Some((1, 1))
    } else if kind == 25 {
        Some((1, 2))
    } else if kind == 26 {
        Some((1, 4))
    } else if kind == 27 {
        Some((1, 8))
    } else if kind == 28 {
        Some((1, 8))
    } else if kind == 29 {
        Some((256, 56))
    } else if kind == 30 {
        Some((1, 2))
    } else if kind == 34 {
        Some((256, 54))
    } else if kind == 35 {
        Some((256, 66))
    } else if kind == 39 {
        Some((32, 17))
    } else if kind == 40 {
        Some((64, 36))
    } else if kind == 41 {
        Some((128, 18))
    } else if kind == 42 {
        Some((64, 18))
    } else {
        None
    }
}

/// The bytes of a tensor of four dimensions in blocks along the first.
pub open spec fn tensor_bytes(dimensions: Seq<u64>, layout: (u64, u64)) -> Option<u64> {
    match product(dimensions) {
        Some(elements) if dimensions[0] % layout.0 == 0 && elements < i64::MAX => product(
            seq![
                dimensions[0] / layout.0,
                layout.1,
                dimensions[1],
                dimensions[2],
                dimensions[3],
            ],
        ),
        _ => None,
    }
}

/// One tensor as the directory declares it. `offset` is relative to the start
/// of the data section and `length` is the unpadded extent.
#[derive(Debug, PartialEq, Eq)]
pub struct TensorInfo {
    pub name: String,
    pub dimensions: [u64; 4],
    pub dimension_count: u32,
    pub ggml_type: u32,
    pub offset: u64,
    pub length: u64,
}

/// The value of a [`TensorInfo`].
#[verifier::ext_equal]
pub struct TensorInfoModel {
    pub name: Seq<char>,
    pub dimensions: Seq<u64>,
    pub dimension_count: u32,
    pub ggml_type: u32,
    pub offset: u64,
    pub length: u64,
}

impl View for TensorInfo {
    type V = TensorInfoModel;

    open spec fn view(&self) -> TensorInfoModel {
        TensorInfoModel {
            name: self.name@,
            dimensions: self.dimensions@,
            dimension_count: self.dimension_count,
            ggml_type: self.ggml_type,
            offset: self.offset,
            length: self.length,
        }
    }
}

/// The state of reading the tensor directory.
pub struct DirectoryState {
    pub position: int,
    pub symbols: int,
    pub expected: int,
    pub names: Seq<Seq<u8>>,
    pub tensors: Seq<TensorInfoModel>,
}

/// The declared dimensions, padded with ones to four.
pub open spec fn dimensions_at(c: Seq<u8>, pos: int, count: int) -> Seq<u64> {
    Seq::new(
        4,
        |i: int|
            if i < count {
                u64_at(c, pos + 8 * i)
            } else {
                1u64
            },
    )
}

/// One directory entry: a name, the dimensions, a type, and the offset that
/// the tensors before it leave.
pub open spec fn tensor_after(c: Seq<u8>, alignment: u64, state: DirectoryState) -> Option<
    DirectoryState,
> {
    let bound = c.len() as int;
    match bytes_at(c, bound, state.position, MAX_TENSOR_NAME_LEN) {
        None => None,
        Some((name, at)) => {
            let count = u32_at(c, at);
            let behind = at + 4 + 8 * count;
            let dimensions = dimensions_at(c, at + 4, count as int);
            let kind = u32_at(c, behind);
            let offset = u64_at(c, behind + 4);
            if !valid_name(name) || state.symbols + name.len() > MAX_SYMBOL_BYTES || at + 4 > bound
                || count > 4 || behind + 12 > bound || !(forall|i: int|
                0 <= i < count ==> #[trigger] dimensions[i] <= i64::MAX) || offset
                != state.expected {
                None
            } else {
                match block_layout(kind) {
                    None => None,
                    Some(layout) => match tensor_bytes(dimensions, layout) {
                        None => None,
                        Some(length) => match aligned(length as int, alignment) {
                            Some(padded) if state.expected + padded <= u64::MAX => Some(
                                DirectoryState {
                                    position: behind + 12,
                                    symbols: state.symbols + name.len(),
                                    expected: state.expected + padded,
                                    names: state.names.push(name),
                                    tensors: state.tensors.push(
                                        TensorInfoModel {
                                            name: decode_utf8(name),
                                            dimensions,
                                            dimension_count: count,
                                            ggml_type: kind,
                                            offset,
                                            length,
                                        },
                                    ),
                                },
                            ),
                            _ => None,
                        },
                    },
                }
            }
        },
    }
}

/// `count` directory entries.
pub open spec fn directory_after(
    c: Seq<u8>,
    alignment: u64,
    state: DirectoryState,
    count: nat,
) -> Option<DirectoryState>
    decreases count,
{
    if count == 0 {
        Some(state)
    } else {
        match tensor_after(c, alignment, state) {
            None => None,
            Some(next) => directory_after(c, alignment, next, (count - 1) as nat),
        }
    }
}

/// A fully validated file: its three header domains and every tensor.
#[derive(Debug, PartialEq, Eq)]
pub struct Layout {
    pub alignment: u64,
    pub directory_start: u64,
    pub directory_end: u64,
    pub data_start: u64,
    pub tensors: Vec<TensorInfo>,
}

/// The value of a [`Layout`].
#[verifier::ext_equal]
pub struct LayoutModel {
    pub alignment: u64,
    pub directory_start: u64,
    pub directory_end: u64,
    pub data_start: u64,
    pub tensors: Seq<TensorInfoModel>,
}

impl View for Layout {
    type V = LayoutModel;

    open spec fn view(&self) -> LayoutModel {
        LayoutModel {
            alignment: self.alignment,
            directory_start: self.directory_start,
            directory_end: self.directory_end,
            data_start: self.data_start,
            tensors: self.tensors@.map_values(|tensor: TensorInfo| tensor@),
        }
    }
}

/// The counts are bounded and their smallest encodings fit what is left.
pub open spec fn plausible_counts(metadata: int, tensors: int, remaining: int) -> bool {
    &&& metadata <= MAX_METADATA_COUNT
    &&& tensors <= MAX_TENSOR_COUNT
    &&& metadata * 13 + tensors * 24 <= remaining
}

pub open spec fn metadata_start() -> MetadataState {
    MetadataState {
        spot: Spot { position: 24, budget: Budget { elements: 0, bytes: 0 } },
        symbols: 0,
        alignment: DEFAULT_ALIGNMENT,
        keys: Seq::empty(),
    }
}

pub open spec fn directory_start(metadata: MetadataState) -> DirectoryState {
    DirectoryState {
        position: metadata.spot.position,
        symbols: metadata.symbols,
        expected: 0,
        names: Seq::empty(),
        tensors: Seq::empty(),
    }
}

/// How far metadata may be inspected.
pub open spec fn inspection_bound(c: Seq<u8>) -> int {
    if c.len() < 24 + MAX_METADATA_INSPECTION_BYTES {
        c.len() as int
    } else {
        24 + MAX_METADATA_INSPECTION_BYTES
    }
}

/// The magic, a supported version, and plausible counts.
pub open spec fn well_started(c: Seq<u8>) -> bool {
    &&& c.len() >= 24
    &&& c.subrange(0, 4) == seq![71u8, 71, 85, 70]
    &&& (u32_at(c, 4) == 2 || u32_at(c, 4) == 3)
    &&& plausible_counts(u64_at(c, 16) as int, u64_at(c, 8) as int, c.len() - 24)
}

/// The metadata section, with distinct keys and a usable alignment.
pub open spec fn metadata_of(c: Seq<u8>) -> Option<MetadataState> {
    match metadata_after(c, inspection_bound(c), metadata_start(), u64_at(c, 16) as nat) {
        Some(state) if state.keys.no_duplicates() && state.alignment >= 8 && power_of_two(
            state.alignment as int,
        ) => Some(state),
        _ => None,
    }
}

/// Where the data section starts.
pub open spec fn data_start_of(directory: DirectoryState, alignment: u64) -> Option<int> {
    if directory.tensors.len() == 0 {
        Some(directory.position)
    } else {
        aligned(directory.position, alignment)
    }
}

/// The layout of a file, when its bytes are a well-formed GGUF file whose
/// tensors fill the data section exactly.
pub open spec fn layout_of(c: Seq<u8>) -> Option<LayoutModel> {
    if !well_started(c) {
        None
    } else {
        match metadata_of(c) {
            None => None,
            Some(metadata) => match directory_after(
                c,
                metadata.alignment,
                directory_start(metadata),
                u64_at(c, 8) as nat,
            ) {
                None => None,
                Some(directory) => match data_start_of(directory, metadata.alignment) {
                    Some(data_start) if directory.names.no_duplicates() && data_start
                        + directory.expected == c.len() => Some(
                        LayoutModel {
                            alignment: metadata.alignment,
                            directory_start: metadata.spot.position as u64,
                            directory_end: directory.position as u64,
                            data_start: data_start as u64,
                            tensors: directory.tensors,
                        },
                    ),
                    _ => None,
                },
            },
        }
    }
}

/// Whether a byte string that is not empty stands next.
pub open spec fn holds_bytes(c: Seq<u8>, bound: int, pos: int, max: u64) -> bool {
    bytes_at(c, bound, pos, max) matches Some((bytes, _)) && bytes.len() > 0
}

/// Whether reading the layout of a file needs memory that can be wanting: for
/// its first key, or, where it has no metadata, for its tensors.
pub open spec fn takes_memory(c: Seq<u8>) -> bool {
    well_started(c) && if u64_at(c, 16) > 0 {
        holds_bytes(c, inspection_bound(c), 24, MAX_METADATA_KEY_LEN)
    } else {
        u64_at(c, 8) > 0
    }
}

/// Whether planning a file needs memory that can be wanting: for reading its
/// layout, or for its regions.
pub open spec fn plan_takes_memory(c: Seq<u8>) -> bool {
    takes_memory(c) || layout_of(c) is Some
}

// ---------------------------------------------------------------------------
// Reading
// ---------------------------------------------------------------------------

/// A position in a source, with the end of what may be read.
struct Reader<'a, S: ByteSource + ?Sized> {
    source: &'a S,
    position: u64,
    bound: u64,
}

impl<'a, S: ByteSource + ?Sized> Reader<'a, S> {
    spec fn wf(&self) -> bool {
        self.position <= self.bound <= self.source.content().len()
    }

    /// The same reader but for the position.
    spec fn moved_from(&self, before: &Self) -> bool {
        &&& self.source == before.source
        &&& self.bound == before.bound
        &&& before.position <= self.position
        &&& self.wf()
    }

    fn ensure(&self, length: u64) -> (outcome: Result<(), ParseFailure>)
        requires
            self.wf(),
        ensures
            outcome is Ok <==> self.position + length <= self.bound,
            outcome matches Err(e) ==> e is Invalid,
    {
        if length > self.bound - self.position {
            return Err(ParseFailure::Invalid);
        }
        Ok(())
    }

    fn fill(&self, destination: &mut [u8]) -> (outcome: Result<(), ParseFailure>)
        requires
            self.wf(),
            self.position + old(destination)@.len() <= self.bound,
        ensures
            final(destination)@.len() == old(destination)@.len(),
            match outcome {
                Ok(_) => self.source.steady() ==> final(destination)@
                    == self.source.content().subrange(
                    self.position as int,
                    self.position + old(destination)@.len(),
                ),
                Err(ParseFailure::Read(_)) => !self.source.reliable(),
                Err(_) => false,
            },
    {
        match self.source.read_exact_at(self.position, destination) {
            Ok(_) => Ok(()),
            Err(error) => Err(ParseFailure::Read(error)),
        }
    }

    fn read_u32(&mut self) -> (outcome: Result<u32, ParseFailure>)
        requires
            old(self).wf(),
        ensures
            final(self).moved_from(old(self)),
            match outcome {
                Ok(value) => old(self).position + 4 <= old(self).bound && final(self).position
                    == old(self).position + 4 && (old(self).source.steady() ==> value == u32_at(
                    old(self).source.content(),
                    old(self).position as int,
                )),
                Err(ParseFailure::Invalid) => old(self).position + 4 > old(self).bound,
                Err(ParseFailure::Read(_)) => !old(self).source.reliable(),
                Err(_) => false,
            },
    {
        self.ensure(4)?;
        let mut bytes: [u8; 4] = [0; 4];
        self.fill(&mut bytes)?;
        self.position = self.position + 4;
        let value: u64 = read_le(&bytes);
        proof {
            le_bytes_of_le(bytes@);
            spans();
        }
        Ok(value as u32)
    }

    fn read_u64(&mut self) -> (outcome: Result<u64, ParseFailure>)
        requires
            old(self).wf(),
        ensures
            final(self).moved_from(old(self)),
            match outcome {
                Ok(value) => old(self).position + 8 <= old(self).bound && final(self).position
                    == old(self).position + 8 && (old(self).source.steady() ==> value == u64_at(
                    old(self).source.content(),
                    old(self).position as int,
                )),
                Err(ParseFailure::Invalid) => old(self).position + 8 > old(self).bound,
                Err(ParseFailure::Read(_)) => !old(self).source.reliable(),
                Err(_) => false,
            },
    {
        self.ensure(8)?;
        let mut bytes: [u8; 8] = [0; 8];
        self.fill(&mut bytes)?;
        self.position = self.position + 8;
        Ok(read_le(&bytes))
    }

    fn read_bounded_bytes(&mut self, max_length: u64) -> (outcome: Result<Vec<u8>, ParseFailure>)
        requires
            old(self).wf(),
            max_length <= 65535,
        ensures
            final(self).moved_from(old(self)),
            ({
                let steady = old(self).source.steady();
                let expected = bytes_at(
                    old(self).source.content(),
                    old(self).bound as int,
                    old(self).position as int,
                    max_length,
                );
                match outcome {
                    Ok(bytes) => bytes@.len() <= max_length && (steady ==> expected == Some(
                        (bytes@, final(self).position as int),
                    )),
                    Err(ParseFailure::Invalid) => steady ==> expected is None,
                    Err(ParseFailure::Read(_)) => !old(self).source.reliable(),
                    Err(ParseFailure::ResourceExhausted) => steady ==> (expected matches Some(
                        (bytes, _),
                    ) && bytes.len() > 0),
                }
            }),
    {
        let length: u64 = self.read_u64()?;
        if length > max_length {
            return Err(ParseFailure::Invalid);
        }
        self.ensure(length)?;
        let mut bytes: Vec<u8> = Vec::new();
        if length > 0 && bytes.try_reserve(length as usize).is_err() {
            return Err(ParseFailure::ResourceExhausted);
        }
        bytes.resize(length as usize, 0);
        self.fill(bytes.as_mut_slice())?;
        self.position = self.position + length;
        Ok(bytes)
    }

    /// Validates a UTF-8 string in bounded memory rather than allocating from
    /// its untrusted length prefix.
    fn skip_utf8_string(&mut self, budget: &mut Budget) -> (outcome: Result<(), ParseFailure>)
        requires
            old(self).wf(),
        ensures
            final(self).moved_from(old(self)),
            steps(
                outcome,
                old(self).source.steady(),
                old(self).source.reliable(),
                string_after(
                    old(self).source.content(),
                    old(self).bound as int,
                    Spot { position: old(self).position as int, budget: *old(budget) },
                ),
                Spot { position: final(self).position as int, budget: *final(budget) },
            ),
    {
        let length: u64 = self.read_u64()?;
        charge_bytes(budget, length)?;
        self.ensure(length)?;
        let ghost start = self.position as int;
        let ghost steady = self.source.steady();
        let ghost whole = self.source.content().subrange(start, start + length);
        let mut remaining: u64 = length;
        let mut pending: usize = 0;
        let ghost mut done: int = 0;
        let mut buffer: Vec<u8> = Vec::new();
        buffer.resize(8196, 0);
        assert(whole.skip(0) =~= whole);
        while remaining > 0
            invariant
                self.moved_from(old(self)),
                buffer@.len() == 8196,
                pending <= 3,
                0 <= start,
                0 <= done,
                done + pending + remaining == length,
                self.position == start + done + pending,
                start + length <= self.bound,
                whole == self.source.content().subrange(start, start + length),
                remaining == 0 ==> pending == 0,
                steady == self.source.steady(),
                steady ==> valid_utf8(whole) == valid_utf8(whole.skip(done)),
                steady ==> forall|i: int| 0 <= i < pending ==> buffer@[i] == whole[done + i],
                steady ==> string_after(
                    old(self).source.content(),
                    old(self).bound as int,
                    Spot { position: old(self).position as int, budget: *old(budget) },
                ) == if valid_utf8(whole) {
                    Some(Spot { position: start + length, budget: *budget })
                } else {
                    None
                },
            decreases remaining,
        {
            let chunk: usize = if remaining < 8192 {
                remaining as usize
            } else {
                8192
            };
            self.fill_part(&mut buffer, pending, chunk)?;
            let used: usize = pending + chunk;
            let ghost tail = if steady {
                whole.skip(done)
            } else {
                buffer@.take(used as int)
            };
            self.position = self.position + chunk as u64;
            remaining = remaining - chunk as u64;
            proof {
                assert forall|i: int| 0 <= i < used implies buffer@[i] == tail[i] by {
                    if steady && i >= pending {
                        assert(tail[i] == self.source.content()[start + done + i]);
                    }
                }
            }
            let at: usize = match walk_scalars(&buffer, used, remaining == 0, Ghost(tail)) {
                Some(at) => at,
                None => {
                    return Err(ParseFailure::Invalid);
                },
            };
            let ghost full = buffer@;
            shift_down(&mut buffer, at, used);
            proof {
                if steady {
                    assert(tail.skip(at as int) =~= whole.skip(done + at));
                    assert forall|i: int| 0 <= i < used - at implies buffer@[i] == whole[done + at
                        + i] by {
                        assert(buffer@[i] == full[at + i]);
                        assert(full[at + i] == tail[at + i]);
                    }
                }
                done = done + at;
            }
            pending = used - at;
        }
        proof {
            assert(whole.skip(done) =~= Seq::<u8>::empty());
        }
        Ok(())
    }

    /// Fills `count` bytes of the buffer behind `from`.
    fn fill_part(&self, buffer: &mut Vec<u8>, from: usize, count: usize) -> (outcome: Result<
        (),
        ParseFailure,
    >)
        requires
            self.wf(),
            self.position + count <= self.bound,
            from + count <= old(buffer)@.len(),
        ensures
            final(buffer)@.len() == old(buffer)@.len(),
            match outcome {
                Ok(_) => self.source.steady() ==> forall|i: int|
                    0 <= i < from + count ==> #[trigger] final(buffer)@[i] == if i < from {
                        old(buffer)@[i]
                    } else {
                        self.source.content()[self.position + i - from]
                    },
                Err(ParseFailure::Read(_)) => !self.source.reliable(),
                Err(_) => false,
            },
    {
        let (_kept, free) = buffer.as_mut_slice().split_at_mut(from);
        let (target, _rest) = free.split_at_mut(count);
        self.fill(target)
    }

    #[verifier::loop_isolation(false)]
    fn check_bool_bytes(&mut self, count: u64) -> (outcome: Result<(), ParseFailure>)
        requires
            old(self).wf(),
        ensures
            final(self).moved_from(old(self)),
            match outcome {
                Ok(_) => old(self).position + count <= old(self).bound && final(self).position
                    == old(self).position + count && (old(self).source.steady() ==> booleans(
                    old(self).source.content().subrange(
                        old(self).position as int,
                        old(self).position + count,
                    ),
                )),
                Err(ParseFailure::Invalid) => old(self).source.steady() ==> old(self).position
                    + count > old(self).bound || !booleans(
                    old(self).source.content().subrange(
                        old(self).position as int,
                        old(self).position + count,
                    ),
                ),
                Err(ParseFailure::Read(_)) => !old(self).source.reliable(),
                Err(_) => false,
            },
    {
        self.ensure(count)?;
        let ghost start = self.position as int;
        let ghost steady = self.source.steady();
        let ghost whole = self.source.content().subrange(start, start + count);
        let mut remaining: u64 = count;
        let mut buffer: Vec<u8> = Vec::new();
        while remaining > 0
            invariant
                self.moved_from(old(self)),
                remaining <= count,
                start + count <= self.bound,
                self.position == start + count - remaining,
                steady ==> forall|i: int|
                    0 <= i < count - remaining ==> #[trigger] whole[i] <= 1,
            decreases remaining,
        {
            let chunk: usize = if remaining < 8192 {
                remaining as usize
            } else {
                8192
            };
            buffer.clear();
            buffer.resize(chunk, 0);
            self.fill(buffer.as_mut_slice())?;
            let mut at: usize = 0;
            while at < chunk
                invariant
                    at <= chunk,
                    chunk == buffer@.len(),
                    chunk <= remaining <= count,
                    steady ==> forall|i: int|
                        0 <= i < chunk ==> #[trigger] buffer@[i] == whole[count - remaining + i],
                    forall|i: int| 0 <= i < at ==> #[trigger] buffer@[i] <= 1,
                decreases chunk - at,
            {
                if buffer[at] > 1 {
                    assert(steady ==> whole[count - remaining + at] > 1);
                    return Err(ParseFailure::Invalid);
                }
                at += 1;
            }
            proof {
                assert forall|i: int|
                    steady && 0 <= i < count - remaining + chunk implies #[trigger] whole[i]
                    <= 1 by {
                    if i >= count - remaining {
                        assert(buffer@[i - (count - remaining)] <= 1);
                    }
                }
            }
            self.position = self.position + chunk as u64;
            remaining = remaining - chunk as u64;
        }
        Ok(())
    }
}

/// Walks whole UTF-8 scalars from the front of the buffer, which holds the
/// start of `tail`, as far as they can be told apart: to the end where the
/// buffer holds all of it, else to within three bytes.
fn walk_scalars(buffer: &Vec<u8>, used: usize, last: bool, Ghost(tail): Ghost<Seq<u8>>) -> (reached:
    Option<usize>)
    requires
        used <= buffer@.len(),
        used <= tail.len(),
        last ==> used == tail.len(),
        forall|i: int| 0 <= i < used ==> buffer@[i] == tail[i],
    ensures
        match reached {
            Some(at) => at <= used && used - at <= 3 && (last ==> at == used) && valid_utf8(tail)
                == valid_utf8(tail.skip(at as int)),
            None => !valid_utf8(tail),
        },
{
    let mut at: usize = 0;
    assert(tail.skip(0) =~= tail);
    while used - at >= 4 || (last && at < used)
        invariant
            at <= used <= buffer@.len(),
            used <= tail.len(),
            last ==> used == tail.len(),
            forall|i: int| 0 <= i < used ==> buffer@[i] == tail[i],
            valid_utf8(tail) == valid_utf8(tail.skip(at as int)),
        decreases used - at,
    {
        let rest = vstd::slice::slice_subrange(buffer.as_slice(), at, used);
        let width: usize = scalar_width(rest);
        let ghost here = tail.skip(at as int);
        proof {
            assert forall|i: int| 0 <= i < rest@.len() implies rest@[i] == here[i] by {
                assert(rest@[i] == buffer@[at + i]);
            }
            first_scalar_is_local(here, rest@);
        }
        if width == 0 {
            return None;
        }
        proof {
            assert(pop_first_scalar(here) =~= tail.skip(at + width));
        }
        at += width;
    }
    Some(at)
}

/// Moves the buffer's bytes `at..used` to the front.
fn shift_down(buffer: &mut Vec<u8>, at: usize, used: usize)
    requires
        at <= used <= old(buffer)@.len(),
    ensures
        final(buffer)@.len() == old(buffer)@.len(),
        forall|i: int| 0 <= i < used - at ==> #[trigger] final(buffer)@[i] == old(buffer)@[at + i],
{
    let mut to: usize = 0;
    while to < used - at
        invariant
            at <= used <= old(buffer)@.len(),
            buffer@.len() == old(buffer)@.len(),
            to <= used - at,
            forall|i: int| 0 <= i < to ==> #[trigger] buffer@[i] == old(buffer)@[at + i],
            forall|i: int| to <= i < buffer@.len() ==> #[trigger] buffer@[i] == old(buffer)@[i],
        decreases used - at - to,
    {
        let moved = buffer[at + to];
        buffer[to] = moved;
        to += 1;
    }
}

/// A step that moves a spot agrees with what the bytes hold, where the source
/// is not torn.
spec fn steps(
    outcome: Result<(), ParseFailure>,
    steady: bool,
    reliable: bool,
    expected: Option<Spot>,
    reached: Spot,
) -> bool {
    match outcome {
        Ok(_) => steady ==> expected == Some(reached),
        Err(ParseFailure::Invalid) => steady ==> expected is None,
        Err(ParseFailure::Read(_)) => !reliable,
        Err(ParseFailure::ResourceExhausted) => false,
    }
}

fn charge_elements(budget: &mut Budget, count: u64) -> (outcome: Result<(), ParseFailure>)
    ensures
        match outcome {
            Ok(_) => elements_charged(*old(budget), count as int) == Some(*final(budget)),
            Err(e) => e is Invalid && elements_charged(*old(budget), count as int) is None,
        },
{
    match budget.elements.checked_add(count) {
        Some(total) if total <= MAX_ARRAY_ELEMENTS => {
            budget.elements = total;
            Ok(())
        },
        _ => Err(ParseFailure::Invalid),
    }
}

fn charge_bytes(budget: &mut Budget, count: u64) -> (outcome: Result<(), ParseFailure>)
    ensures
        match outcome {
            Ok(_) => bytes_charged(*old(budget), count as int) == Some(*final(budget)),
            Err(e) => e is Invalid && bytes_charged(*old(budget), count as int) is None,
        },
{
    match budget.bytes.checked_add(count) {
        Some(total) if total <= MAX_METADATA_VALUE_BYTES => {
            budget.bytes = total;
            Ok(())
        },
        _ => Err(ParseFailure::Invalid),
    }
}

fn width_of(kind: u32) -> (width: Option<u64>)
    ensures
        match width {
            Some(w) => fixed_width(kind) == Some(w as int),
            None => fixed_width(kind) is None,
        },
{
    if kind == GGUF_TYPE_UINT8 || kind == GGUF_TYPE_INT8 {
        Some(1)
    } else if kind == GGUF_TYPE_UINT16 || kind == GGUF_TYPE_INT16 {
        Some(2)
    } else if kind == GGUF_TYPE_UINT32 || kind == GGUF_TYPE_INT32 || kind == GGUF_TYPE_FLOAT32 {
        Some(4)
    } else if kind == GGUF_TYPE_UINT64 || kind == GGUF_TYPE_INT64 || kind == GGUF_TYPE_FLOAT64 {
        Some(8)
    } else {
        None
    }
}

/// Charges and skips `count` bytes of value.
fn skip_value<S: ByteSource + ?Sized>(
    reader: &mut Reader<'_, S>,
    count: u64,
    budget: &mut Budget,
) -> (outcome: Result<(), ParseFailure>)
    requires
        old(reader).wf(),
    ensures
        final(reader).moved_from(old(reader)),
        steps(
            outcome,
            old(reader).source.steady(),
            old(reader).source.reliable(),
            skipped(
                old(reader).bound as int,
                Spot { position: old(reader).position as int, budget: *old(budget) },
                count as int,
            ),
            Spot { position: final(reader).position as int, budget: *final(budget) },
        ),
{
    charge_bytes(budget, count)?;
    reader.ensure(count)?;
    reader.position = reader.position + count;
    Ok(())
}

/// Charges and checks `count` booleans.
fn check_booleans<S: ByteSource + ?Sized>(
    reader: &mut Reader<'_, S>,
    count: u64,
    budget: &mut Budget,
) -> (outcome: Result<(), ParseFailure>)
    requires
        old(reader).wf(),
    ensures
        final(reader).moved_from(old(reader)),
        steps(
            outcome,
            old(reader).source.steady(),
            old(reader).source.reliable(),
            booleans_after(
                old(reader).source.content(),
                old(reader).bound as int,
                Spot { position: old(reader).position as int, budget: *old(budget) },
                count as int,
            ),
            Spot { position: final(reader).position as int, budget: *final(budget) },
        ),
{
    charge_bytes(budget, count)?;
    reader.check_bool_bytes(count)
}

fn parse_metadata_value<S: ByteSource + ?Sized>(
    reader: &mut Reader<'_, S>,
    kind: u32,
    depth: u32,
    budget: &mut Budget,
) -> (outcome: Result<(), ParseFailure>)
    requires
        old(reader).wf(),
        depth <= MAX_ARRAY_DEPTH,
    ensures
        final(reader).moved_from(old(reader)),
        steps(
            outcome,
            old(reader).source.steady(),
            old(reader).source.reliable(),
            value_after(
                old(reader).source.content(),
                old(reader).bound as int,
                Spot { position: old(reader).position as int, budget: *old(budget) },
                kind,
                depth as int,
            ),
            Spot { position: final(reader).position as int, budget: *final(budget) },
        ),
    decreases 17 - depth, 0int,
{
    if let Some(width) = width_of(kind) {
        return skip_value(reader, width, budget);
    }
    if kind == GGUF_TYPE_BOOL {
        check_booleans(reader, 1, budget)
    } else if kind == GGUF_TYPE_STRING {
        reader.skip_utf8_string(budget)
    } else if kind == GGUF_TYPE_ARRAY && depth < MAX_ARRAY_DEPTH {
        parse_metadata_array(reader, depth, budget)
    } else {
        Err(ParseFailure::Invalid)
    }
}

fn parse_metadata_array<S: ByteSource + ?Sized>(
    reader: &mut Reader<'_, S>,
    depth: u32,
    budget: &mut Budget,
) -> (outcome: Result<(), ParseFailure>)
    requires
        old(reader).wf(),
        depth < MAX_ARRAY_DEPTH,
    ensures
        final(reader).moved_from(old(reader)),
        steps(
            outcome,
            old(reader).source.steady(),
            old(reader).source.reliable(),
            array_after(
                old(reader).source.content(),
                old(reader).bound as int,
                Spot { position: old(reader).position as int, budget: *old(budget) },
                depth as int,
            ),
            Spot { position: final(reader).position as int, budget: *final(budget) },
        ),
    decreases 16 - depth, 1int,
{
    let kind: u32 = reader.read_u32()?;
    if kind > GGUF_TYPE_FLOAT64 {
        return Err(ParseFailure::Invalid);
    }
    let count: u64 = reader.read_u64()?;
    charge_elements(budget, count)?;
    if let Some(width) = width_of(kind) {
        return match count.checked_mul(width) {
            Some(bytes) => skip_value(reader, bytes, budget),
            None => Err(ParseFailure::Invalid),
        };
    }
    if kind == GGUF_TYPE_BOOL {
        return check_booleans(reader, count, budget);
    }
    let ghost c = reader.source.content();
    let ghost steady = reader.source.steady();
    let ghost bound = reader.bound as int;
    let ghost all = array_after(
        old(reader).source.content(),
        old(reader).bound as int,
        Spot { position: old(reader).position as int, budget: *old(budget) },
        depth as int,
    );
    let mut left: u64 = count;
    while left > 0
        invariant
            depth < MAX_ARRAY_DEPTH,
            reader.moved_from(old(reader)),
            c == reader.source.content(),
            bound == reader.bound,
            steady == reader.source.steady(),
            steady ==> all == elements_after(
                c,
                bound,
                Spot { position: reader.position as int, budget: *budget },
                kind,
                depth + 1,
                left as nat,
            ),
            all == array_after(
                old(reader).source.content(),
                old(reader).bound as int,
                Spot { position: old(reader).position as int, budget: *old(budget) },
                depth as int,
            ),
        decreases left,
    {
        parse_metadata_value(reader, kind, depth + 1, budget)?;
        left = left - 1;
    }
    Ok(())
}

/// Whether `key` is a metadata key.
fn key_is_valid(key: &[u8]) -> (valid: bool)
    ensures
        valid == valid_key(key@),
{
    let n = key.len();
    if n == 0 || !(97 <= key[0] && key[0] <= 122) || key[n - 1] == 95 || key[n - 1] == 46 {
        return false;
    }
    let mut at: usize = 1;
    while at < n
        invariant
            n == key@.len(),
            1 <= at <= n,
            lower_byte(key@[0]),
            forall|i: int|
                0 <= i < at ==> lower_byte(#[trigger] key@[i]) || digit_byte(key@[i]) || key@[i]
                    == 95 || key@[i] == 46,
            forall|i: int|
                0 < i < at ==> (key@[i - 1] == 46 ==> lower_byte(#[trigger] key@[i])) && (key@[i]
                    == 46 ==> key@[i - 1] != 95) && !(key@[i - 1] == 95 && key@[i] == 95),
        decreases n - at,
    {
        let b = key[at];
        let before = key[at - 1];
        let letter = 97 <= b && b <= 122;
        if !letter && !(48 <= b && b <= 57) && b != 95 && b != 46 {
            assert(!lower_byte(key@[at as int]) && !digit_byte(key@[at as int]));
            return false;
        }
        if (before == 46 && !letter) || (b == 46 && before == 95) || (before == 95 && b == 95) {
            assert(key@[at - 1] == before && key@[at as int] == b);
            return false;
        }
        at += 1;
    }
    true
}

/// Whether `name` is a tensor name.
fn name_is_valid(name: &[u8]) -> (valid: bool)
    ensures
        valid == valid_name(name@),
{
    let mut at: usize = 0;
    while at < name.len()
        invariant
            at <= name@.len(),
            forall|i: int| 0 <= i < at ==> name@[i] != 0,
        decreases name@.len() - at,
    {
        if name[at] == 0 {
            assert(name@.contains(0));
            return false;
        }
        at += 1;
    }
    is_utf8(name)
}

/// What reading metadata gathers beside the position.
struct Metadata {
    budget: Budget,
    symbols: u64,
    alignment: u64,
    keys: Vec<Vec<u8>>,
}

impl Metadata {
    spec fn at(&self, position: u64) -> MetadataState {
        MetadataState {
            spot: Spot { position: position as int, budget: self.budget },
            symbols: self.symbols as int,
            alignment: self.alignment,
            keys: byte_strings(self.keys@),
        }
    }
}

fn alignment_name() -> (key: [u8; 17])
    ensures
        key@ == alignment_key(),
{
    let key: [u8; 17] = [
        103,
        101,
        110,
        101,
        114,
        97,
        108,
        46,
        97,
        108,
        105,
        103,
        110,
        109,
        101,
        110,
        116,
    ];
    assert(key@ =~= alignment_key());
    key
}

/// Reads one metadata entry.
fn read_entry<S: ByteSource + ?Sized>(
    reader: &mut Reader<'_, S>,
    metadata: &mut Metadata,
) -> (outcome: Result<(), ParseFailure>)
    requires
        old(reader).wf(),
        old(metadata).symbols <= MAX_SYMBOL_BYTES,
    ensures
        final(reader).moved_from(old(reader)),
        ({
            let steady = old(reader).source.steady();
            let expected = entry_after(
                old(reader).source.content(),
                old(reader).bound as int,
                old(metadata).at(old(reader).position),
            );
            match outcome {
                Ok(_) => final(metadata).symbols <= MAX_SYMBOL_BYTES && (steady ==> expected
                    == Some(final(metadata).at(final(reader).position))),
                Err(ParseFailure::Invalid) => steady ==> expected is None,
                Err(ParseFailure::Read(_)) => !old(reader).source.reliable(),
                Err(ParseFailure::ResourceExhausted) => steady ==> holds_bytes(
                    old(reader).source.content(),
                    old(reader).bound as int,
                    old(reader).position as int,
                    MAX_METADATA_KEY_LEN,
                ),
            }
        }),
{
    let key = reader.read_bounded_bytes(MAX_METADATA_KEY_LEN)?;
    if !key_is_valid(&key) {
        return Err(ParseFailure::Invalid);
    }
    let symbols: u64 = metadata.symbols + key.len() as u64;
    if symbols > MAX_SYMBOL_BYTES {
        return Err(ParseFailure::Invalid);
    }
    metadata.symbols = symbols;
    let kind: u32 = reader.read_u32()?;
    let name = alignment_name();
    if same_bytes(&key, &name) {
        if kind != GGUF_TYPE_UINT32 {
            return Err(ParseFailure::Invalid);
        }
        charge_bytes(&mut metadata.budget, 4)?;
        let alignment: u32 = reader.read_u32()?;
        metadata.alignment = alignment as u64;
    } else {
        parse_metadata_value(reader, kind, 0, &mut metadata.budget)?;
    }
    let ghost before = byte_strings(metadata.keys@);
    let ghost bytes = key@;
    metadata.keys.push(key);
    assert(byte_strings(metadata.keys@) =~= before.push(bytes));
    Ok(())
}

/// Whether `n` is a power of two.
fn is_power_of_two(n: u64) -> (yes: bool)
    ensures
        yes == power_of_two(n as int),
{
    if n == 0 {
        return false;
    }
    let mut rest: u64 = n;
    while rest > 1
        invariant
            rest >= 1,
            power_of_two(n as int) == power_of_two(rest as int),
        decreases rest,
    {
        if rest % 2 != 0 {
            return false;
        }
        rest = rest / 2;
    }
    true
}

/// Rounds up to a multiple of `alignment`.
pub fn align_up(value: u64, alignment: u64) -> (result: Option<u64>)
    requires
        alignment > 0,
    ensures
        match result {
            Some(r) => aligned(value as int, alignment) == Some(r as int),
            None => aligned(value as int, alignment) is None,
        },
{
    match value.checked_add(alignment - 1) {
        Some(sum) => {
            proof {
                vstd::arithmetic::div_mod::lemma_fundamental_div_mod(
                    sum as int,
                    alignment as int,
                );
                let q = sum as int / alignment as int;
                assert(alignment * q == q * alignment) by (nonlinear_arith);
            }
            Some(sum - sum % alignment)
        },
        None => None,
    }
}

/// What rounding up gives: the next multiple.
pub proof fn aligned_bounds(value: int, alignment: u64)
    requires
        0 <= value,
        alignment > 0,
        aligned(value, alignment) is Some,
    ensures
        value <= aligned(value, alignment).unwrap() <= value + alignment - 1,
        aligned(value, alignment).unwrap() <= u64::MAX,
{
    let sum = value + alignment - 1;
    vstd::arithmetic::div_mod::lemma_fundamental_div_mod(sum, alignment as int);
    let q = sum / (alignment as int);
    assert(alignment * q == q * alignment) by (nonlinear_arith);
}

/// Elements and bytes of one encoded block of a tensor type.
pub fn ggml_layout(ggml_type: u32) -> (layout: Result<(u64, u64), ParseFailure>)
    ensures
        match layout {
            Ok(l) => block_layout(ggml_type) == Some(l),
            Err(e) => e is Invalid && block_layout(ggml_type) is None,
        },
{
    let layout: (u64, u64) = match ggml_type {
        0 => (1, 4),
        1 => (1, 2),
        2 => (32, 18),
        3 => (32, 20),
        6 => (32, 22),
        7 => (32, 24),
        8 => (32, 34),
        9 => (32, 40),
        10 => (256, 84),
        11 => (256, 110),
        12 => (256, 144),
        13 => (256, 176),
        14 => (256, 210),
        15 => (256, 292),
        16 => (256, 66),
        17 => (256, 74),
        18 => (256, 98),
        19 => (256, 50),
        20 => (32, 18),
        21 => (256, 110),
        22 => (256, 82),
        23 => (256, 136),
        24 => (1, 1),
        25 => (1, 2),
        26 => (1, 4),
        27 => (1, 8),
        28 => (1, 8),
        29 => (256, 56),
        30 => (1, 2),
        34 => (256, 54),
        35 => (256, 66),
        39 => (32, 17),
        40 => (64, 36),
        41 => (128, 18),
        42 => (64, 18),
        _ => {
            return Err(ParseFailure::Invalid);
        },
    };
    Ok(layout)
}

/// The bytes of a tensor of four dimensions in blocks along the first.
pub fn tensor_length(dimensions: [u64; 4], block_elements: u64, block_bytes: u64) -> (length:
    Result<u64, ParseFailure>)
    requires
        block_elements > 0,
    ensures
        match length {
            Ok(l) => tensor_bytes(dimensions@, (block_elements, block_bytes)) == Some(l),
            Err(e) => e is Invalid && tensor_bytes(dimensions@, (block_elements, block_bytes)) is None,
        },
{
    if dimensions[0] % block_elements != 0 {
        return Err(ParseFailure::Invalid);
    }
    match checked_product(&dimensions) {
        Some(elements) if elements < i64::MAX as u64 => {},
        _ => {
            return Err(ParseFailure::Invalid);
        },
    }
    let factors: [u64; 5] = [
        dimensions[0] / block_elements,
        block_bytes,
        dimensions[1],
        dimensions[2],
        dimensions[3],
    ];
    assert(factors@ =~= seq![
        dimensions@[0] / block_elements,
        block_bytes,
        dimensions@[1],
        dimensions@[2],
        dimensions@[3],
    ]);
    match checked_product(&factors) {
        Some(length) => Ok(length),
        None => Err(ParseFailure::Invalid),
    }
}

/// What reading the tensor directory gathers beside the position.
struct Directory {
    symbols: u64,
    expected: u64,
    names: Vec<Vec<u8>>,
    tensors: Vec<TensorInfo>,
}

spec fn tensor_models(tensors: Seq<TensorInfo>) -> Seq<TensorInfoModel> {
    tensors.map_values(|tensor: TensorInfo| tensor@)
}

impl Directory {
    spec fn at(&self, position: u64) -> DirectoryState {
        DirectoryState {
            position: position as int,
            symbols: self.symbols as int,
            expected: self.expected as int,
            names: byte_strings(self.names@),
            tensors: tensor_models(self.tensors@),
        }
    }
}

/// Reads the declared dimensions, padding with ones to four.
fn read_dimensions<S: ByteSource + ?Sized>(reader: &mut Reader<'_, S>, count: u32) -> (outcome:
    Result<[u64; 4], ParseFailure>)
    requires
        old(reader).wf(),
        count <= 4,
    ensures
        final(reader).moved_from(old(reader)),
        ({
            let c = old(reader).source.content();
            let steady = old(reader).source.steady();
            let from = old(reader).position as int;
            let dimensions = dimensions_at(c, from, count as int);
            let small = forall|i: int| 0 <= i < count ==> #[trigger] dimensions[i] <= i64::MAX;
            match outcome {
                Ok(d) => from + 8 * count <= old(reader).bound && final(reader).position == from
                    + 8 * count && (steady ==> small && d@ == dimensions),
                Err(ParseFailure::Invalid) => steady ==> from + 8 * count > old(reader).bound
                    || !small,
                Err(ParseFailure::Read(_)) => !old(reader).source.reliable(),
                Err(_) => false,
            }
        }),
{
    let mut dimensions: [u64; 4] = [1; 4];
    let ghost c = reader.source.content();
    let ghost steady = reader.source.steady();
    let ghost from = reader.position as int;
    let ghost expected = dimensions_at(c, from, count as int);
    let mut at: u32 = 0;
    while at < count
        invariant
            reader.moved_from(old(reader)),
            c == reader.source.content(),
            c == old(reader).source.content(),
            from == old(reader).position,
            expected == dimensions_at(c, from, count as int),
            at <= count <= 4,
            reader.position == from + 8 * at,
            dimensions@.len() == 4,
            steady == old(reader).source.steady(),
            steady ==> forall|i: int| 0 <= i < at ==> #[trigger] dimensions@[i] == expected[i],
            steady ==> forall|i: int| 0 <= i < at ==> #[trigger] expected[i] <= i64::MAX,
            forall|i: int| at <= i < 4 ==> #[trigger] dimensions@[i] == 1,
        decreases count - at,
    {
        let dimension: u64 = reader.read_u64()?;
        assert(steady ==> dimension == expected[at as int]);
        if dimension > i64::MAX as u64 {
            return Err(ParseFailure::Invalid);
        }
        dimensions[at as usize] = dimension;
        at += 1;
    }
    assert(steady ==> dimensions@ =~= expected);
    Ok(dimensions)
}

/// One tensor more, which starts where the ones before it end.
spec fn packs_on(before: DirectoryState, after: DirectoryState, alignment: u64) -> bool {
    let tensor = after.tensors.last();
    &&& after.tensors == before.tensors.push(tensor)
    &&& tensor.offset == before.expected
    &&& aligned(tensor.length as int, alignment) == Some(after.expected - before.expected)
    &&& tensor.dimensions.len() == 4
    &&& tensor.dimension_count <= 4
}

proof fn packing_on(before: DirectoryState, after: DirectoryState, alignment: u64)
    requires
        packs_on(before, after, alignment),
        packed_tensors(before.tensors, alignment),
        before.expected == packed(before.tensors, alignment, before.tensors.len() as int),
    ensures
        packed_tensors(after.tensors, alignment),
        after.expected == packed(after.tensors, alignment, after.tensors.len() as int),
{
    let n = before.tensors.len() as int;
    assert forall|i: int| 0 <= i <= n implies packed(after.tensors, alignment, i) == packed(
        before.tensors,
        alignment,
        i,
    ) by {
        packed_of_prefix(before.tensors, after.tensors, alignment, i);
    }
    assert forall|i: int| 0 <= i < after.tensors.len() implies (
    #[trigger] after.tensors[i]).offset == packed(after.tensors, alignment, i) && aligned(
        after.tensors[i].length as int,
        alignment,
    ) is Some && after.tensors[i].dimensions.len() == 4 && after.tensors[i].dimension_count
        <= 4 by {
        if i < n {
            assert(after.tensors[i] == before.tensors[i]);
        }
    }
}

/// Reads one directory entry.
fn read_tensor<S: ByteSource + ?Sized>(
    reader: &mut Reader<'_, S>,
    alignment: u64,
    directory: &mut Directory,
) -> (outcome: Result<(), ParseFailure>)
    requires
        old(reader).wf(),
        old(reader).bound == old(reader).source.content().len(),
        old(directory).symbols <= MAX_SYMBOL_BYTES,
        alignment > 0,
    ensures
        final(reader).moved_from(old(reader)),
        ({
            let steady = old(reader).source.steady();
            let expected = tensor_after(
                old(reader).source.content(),
                alignment,
                old(directory).at(old(reader).position),
            );
            match outcome {
                Ok(_) => {
                    &&& final(directory).symbols <= MAX_SYMBOL_BYTES
                    &&& packs_on(
                        old(directory).at(old(reader).position),
                        final(directory).at(final(reader).position),
                        alignment,
                    )
                    &&& steady ==> expected == Some(final(directory).at(final(reader).position))
                },
                Err(ParseFailure::Invalid) => steady ==> expected is None,
                Err(ParseFailure::Read(_)) => !old(reader).source.reliable(),
                Err(ParseFailure::ResourceExhausted) => steady ==> holds_bytes(
                    old(reader).source.content(),
                    old(reader).bound as int,
                    old(reader).position as int,
                    MAX_TENSOR_NAME_LEN,
                ),
            }
        }),
{
    let name = reader.read_bounded_bytes(MAX_TENSOR_NAME_LEN)?;
    if !name_is_valid(&name) {
        return Err(ParseFailure::Invalid);
    }
    let symbols: u64 = directory.symbols + name.len() as u64;
    if symbols > MAX_SYMBOL_BYTES {
        return Err(ParseFailure::Invalid);
    }
    directory.symbols = symbols;
    let count: u32 = reader.read_u32()?;
    if count > 4 {
        return Err(ParseFailure::Invalid);
    }
    let dimensions = read_dimensions(reader, count)?;
    let ggml_type: u32 = reader.read_u32()?;
    let layout = ggml_layout(ggml_type)?;
    let length: u64 = tensor_length(dimensions, layout.0, layout.1)?;
    let offset: u64 = reader.read_u64()?;
    if offset != directory.expected {
        return Err(ParseFailure::Invalid);
    }
    let padded: u64 = match align_up(length, alignment) {
        Some(padded) => padded,
        None => {
            return Err(ParseFailure::Invalid);
        },
    };
    match directory.expected.checked_add(padded) {
        Some(next) => {
            directory.expected = next;
        },
        None => {
            return Err(ParseFailure::Invalid);
        },
    }
    let ghost bytes = name@;
    let text = match string_from_utf8(vstd::slice::slice_to_vec(&name)) {
        Some(text) => text,
        None => {
            return Err(ParseFailure::Invalid);
        },
    };
    let ghost names = byte_strings(directory.names@);
    let ghost tensors = tensor_models(directory.tensors@);
    directory.names.push(name);
    let tensor = TensorInfo {
        name: text,
        dimensions,
        dimension_count: count,
        ggml_type,
        offset,
        length,
    };
    let ghost model = tensor@;
    directory.tensors.push(tensor);
    assert(byte_strings(directory.names@) =~= names.push(bytes));
    assert(tensor_models(directory.tensors@) =~= tensors.push(model));
    Ok(())
}

/// Parses a whole header: the structural proof shared by planning and
/// composition.
pub fn parse<S: ByteSource + ?Sized>(source: &S) -> (outcome: Result<Layout, ParseFailure>)
    ensures
        match outcome {
            Ok(layout) => {
                &&& fills(layout@, source.content().len() as int)
                &&& 24 <= layout@.directory_start
                &&& source.steady() ==> layout_of(source.content()) == Some(layout@)
            },
            Err(ParseFailure::Invalid) => source.steady() ==> layout_of(source.content()) is None,
            Err(ParseFailure::Read(_)) => !source.reliable(),
            Err(ParseFailure::ResourceExhausted) => source.steady() ==> takes_memory(
                source.content(),
            ),
        },
{
    let length: u64 = source.len();
    let ghost c = source.content();
    let ghost steady = source.steady();
    let mut reader = Reader { source, position: 0, bound: length };
    reader.ensure(4)?;
    let mut magic: [u8; 4] = [0; 4];
    reader.fill(&mut magic)?;
    reader.position = 4;
    let expected: [u8; 4] = [71, 71, 85, 70];
    assert(expected@ =~= seq![71u8, 71, 85, 70]);
    if !same_bytes(&magic, &expected) {
        return Err(ParseFailure::Invalid);
    }
    let version: u32 = reader.read_u32()?;
    if version != 2 && version != 3 {
        return Err(ParseFailure::Invalid);
    }
    let tensor_count: u64 = reader.read_u64()?;
    let metadata_count: u64 = reader.read_u64()?;
    if metadata_count > MAX_METADATA_COUNT || tensor_count > MAX_TENSOR_COUNT || metadata_count * 13
        + tensor_count * 24 > length - 24 {
        return Err(ParseFailure::Invalid);
    }
    let bound: u64 = if length - 24 < MAX_METADATA_INSPECTION_BYTES {
        length
    } else {
        24 + MAX_METADATA_INSPECTION_BYTES
    };
    assert(bound == inspection_bound(c));
    assert(steady ==> well_started(c));
    reader.bound = bound;
    let mut metadata = Metadata {
        budget: Budget { elements: 0, bytes: 0 },
        symbols: 0,
        alignment: DEFAULT_ALIGNMENT,
        keys: Vec::new(),
    };
    assert(byte_strings(metadata.keys@) =~= Seq::<Seq<u8>>::empty());
    let mut left: u64 = metadata_count;
    while left > 0
        invariant
            reader.wf(),
            reader.source == source,
            reader.bound == bound,
            c == source.content(),
            steady == source.steady(),
            bound == inspection_bound(c),
            metadata.symbols <= MAX_SYMBOL_BYTES,
            steady ==> well_started(c),
            steady ==> metadata_count == u64_at(c, 16),
            steady ==> metadata_after(c, bound as int, metadata_start(), metadata_count as nat)
                == metadata_after(c, bound as int, metadata.at(reader.position), left as nat),
            left <= metadata_count,
            24 <= reader.position,
            left == metadata_count ==> reader.position == 24,
            steady && left < metadata_count ==> takes_memory(c),
        decreases left,
    {
        read_entry(&mut reader, &mut metadata)?;
        left = left - 1;
    }
    reader.bound = length;
    if !all_distinct(&metadata.keys) || metadata.alignment < 8 || !is_power_of_two(
        metadata.alignment,
    ) {
        return Err(ParseFailure::Invalid);
    }
    let alignment: u64 = metadata.alignment;
    let directory_from: u64 = reader.position;
    let ghost gathered = metadata.at(directory_from);
    assert(steady ==> metadata_of(c) == Some(gathered));
    let mut directory = Directory {
        symbols: metadata.symbols,
        expected: 0,
        names: Vec::new(),
        tensors: Vec::new(),
    };
    if tensor_count > 0 && directory.tensors.try_reserve(tensor_count as usize).is_err() {
        return Err(ParseFailure::ResourceExhausted);
    }
    assert(byte_strings(directory.names@) =~= Seq::<Seq<u8>>::empty());
    assert(tensor_models(directory.tensors@) =~= Seq::<TensorInfoModel>::empty());
    let mut left: u64 = tensor_count;
    assert(steady && tensor_count > 0 ==> takes_memory(c));
    while left > 0
        invariant
            reader.wf(),
            reader.source == source,
            reader.bound == length,
            length == c.len(),
            c == source.content(),
            steady == source.steady(),
            directory.symbols <= MAX_SYMBOL_BYTES,
            alignment >= 8,
            24 <= directory_from <= reader.position,
            packed_tensors(tensor_models(directory.tensors@), alignment),
            directory.expected == packed(
                tensor_models(directory.tensors@),
                alignment,
                directory.tensors@.len() as int,
            ),
            gathered.alignment == alignment,
            left <= tensor_count,
            steady ==> {
                &&& well_started(c)
                &&& tensor_count == u64_at(c, 8)
                &&& metadata_of(c) == Some(gathered)
                &&& tensor_count > 0 ==> takes_memory(c)
                &&& directory_after(c, alignment, directory_start(gathered), tensor_count as nat)
                    == directory_after(c, alignment, directory.at(reader.position), left as nat)
            },
        decreases left,
    {
        let ghost before = directory.at(reader.position);
        read_tensor(&mut reader, alignment, &mut directory)?;
        proof {
            packing_on(before, directory.at(reader.position), alignment);
        }
        left = left - 1;
    }
    if !all_distinct(&directory.names) {
        return Err(ParseFailure::Invalid);
    }
    let directory_end: u64 = reader.position;
    let data_start: u64 = if directory.tensors.len() == 0 {
        directory_end
    } else {
        match align_up(directory_end, alignment) {
            Some(start) => start,
            None => {
                return Err(ParseFailure::Invalid);
            },
        }
    };
    match data_start.checked_add(directory.expected) {
        Some(size) if size == length => {},
        _ => {
            return Err(ParseFailure::Invalid);
        },
    }
    let layout = Layout {
        alignment,
        directory_start: directory_from,
        directory_end,
        data_start,
        tensors: directory.tensors,
    };
    proof {
        assert(layout@.tensors =~= tensor_models(layout.tensors@));
        if layout.tensors@.len() > 0 {
            aligned_bounds(directory_end as int, alignment);
        }
    }
    assert(steady ==> layout@ =~= layout_of(c).unwrap());
    Ok(layout)
}

// ---------------------------------------------------------------------------
// Regions
// ---------------------------------------------------------------------------

/// A tensor's extent with its trailing padding.
pub open spec fn padded(tensor: TensorInfoModel, alignment: u64) -> int {
    aligned(tensor.length as int, alignment).unwrap()
}

/// How many data bytes the first `upto` tensors take.
pub open spec fn packed(tensors: Seq<TensorInfoModel>, alignment: u64, upto: int) -> int
    decreases upto,
{
    if upto <= 0 {
        0
    } else {
        packed(tensors, alignment, upto - 1) + padded(tensors[upto - 1], alignment)
    }
}

/// The tensors lie back to back, padded, from the data start.
pub open spec fn packed_tensors(tensors: Seq<TensorInfoModel>, alignment: u64) -> bool {
    forall|i: int|
        0 <= i < tensors.len() ==> (#[trigger] tensors[i]).offset == packed(tensors, alignment, i)
            && aligned(tensors[i].length as int, alignment) is Some && tensors[i].dimensions.len()
            == 4 && tensors[i].dimension_count <= 4
}

/// The domains of a layout follow one another to the end of the file.
pub open spec fn fills(layout: LayoutModel, file_size: int) -> bool {
    &&& layout.alignment > 0
    &&& layout.directory_start <= layout.directory_end <= layout.data_start
    &&& packed_tensors(layout.tensors, layout.alignment)
    &&& layout.data_start + packed(
        layout.tensors,
        layout.alignment,
        layout.tensors.len() as int,
    ) == file_size
}

pub(crate) proof fn value_moves_on(c: Seq<u8>, bound: int, spot: Spot, kind: u32, depth: int)
    ensures
        value_after(c, bound, spot, kind, depth) matches Some(next) ==> spot.position
            <= next.position <= bound,
    decreases 17 - depth, 0int,
{
    if kind == GGUF_TYPE_ARRAY && 0 <= depth < MAX_ARRAY_DEPTH {
        let element = u32_at(c, spot.position);
        let count = u64_at(c, spot.position + 4);
        match elements_charged(spot.budget, count as int) {
            None => {},
            Some(budget) => {
                let start = Spot { position: spot.position + 12, budget };
                if fixed_width(element) is Some {
                    assert(count * fixed_width(element).unwrap() >= 0) by (nonlinear_arith)
                        requires
                            count >= 0,
                            fixed_width(element).unwrap() >= 0,
                    ;
                }
                if start.position <= bound {
                    elements_move_on(c, bound, start, element, depth + 1, count as nat);
                }
            },
        }
    }
}

pub(crate) proof fn elements_move_on(c: Seq<u8>, bound: int, spot: Spot, kind: u32, depth: int, count: nat)
    requires
        spot.position <= bound,
    ensures
        elements_after(c, bound, spot, kind, depth, count) matches Some(next) ==> spot.position
            <= next.position <= bound,
    decreases 17 - depth, 1int + count,
{
    if count > 0 {
        value_moves_on(c, bound, spot, kind, depth);
        match value_after(c, bound, spot, kind, depth) {
            None => {},
            Some(next) => {
                elements_move_on(c, bound, next, kind, depth, (count - 1) as nat);
            },
        }
    }
}

pub(crate) proof fn metadata_moves_on(c: Seq<u8>, bound: int, state: MetadataState, count: nat)
    requires
        state.spot.position <= bound,
    ensures
        metadata_after(c, bound, state, count) matches Some(next) ==> state.spot.position
            <= next.spot.position <= bound,
    decreases count,
{
    if count > 0 {
        match entry_after(c, bound, state) {
            None => {},
            Some(next) => {
                let at = bytes_at(c, bound, state.spot.position, MAX_METADATA_KEY_LEN).unwrap().1;
                value_moves_on(
                    c,
                    bound,
                    Spot { position: at + 4, budget: state.spot.budget },
                    u32_at(c, at),
                    0,
                );
                metadata_moves_on(c, bound, next, (count - 1) as nat);
            },
        }
    }
}

proof fn packed_of_prefix(a: Seq<TensorInfoModel>, b: Seq<TensorInfoModel>, alignment: u64, upto: int)
    requires
        0 <= upto <= a.len(),
        upto <= b.len(),
        forall|i: int| 0 <= i < upto ==> a[i] == b[i],
    ensures
        packed(a, alignment, upto) == packed(b, alignment, upto),
    decreases upto,
{
    if upto > 0 {
        packed_of_prefix(a, b, alignment, upto - 1);
    }
}

pub(crate) open spec fn well_packed(c: Seq<u8>, alignment: u64, state: DirectoryState) -> bool {
    &&& state.position <= c.len()
    &&& packed_tensors(state.tensors, alignment)
    &&& state.expected == packed(state.tensors, alignment, state.tensors.len() as int)
}

pub(crate) proof fn directory_packs(c: Seq<u8>, alignment: u64, state: DirectoryState, count: nat)
    requires
        well_packed(c, alignment, state),
    ensures
        directory_after(c, alignment, state, count) matches Some(next) ==> well_packed(
            c,
            alignment,
            next,
        ) && state.position <= next.position,
    decreases count,
{
    if count > 0 {
        match tensor_after(c, alignment, state) {
            None => {},
            Some(next) => {
                let n = state.tensors.len() as int;
                assert forall|i: int| 0 <= i < next.tensors.len() implies (
                #[trigger] next.tensors[i]).offset == packed(next.tensors, alignment, i) && aligned(
                    next.tensors[i].length as int,
                    alignment,
                ) is Some && next.tensors[i].dimensions.len() == 4
                    && next.tensors[i].dimension_count <= 4 by {
                    packed_of_prefix(next.tensors, state.tensors, alignment, i);
                    if i < n {
                        assert(next.tensors[i] == state.tensors[i]);
                    }
                }
                packed_of_prefix(next.tensors, state.tensors, alignment, n);
                directory_packs(c, alignment, next, (count - 1) as nat);
            },
        }
    }
}

/// A validated file is filled exactly by its header domains and its padded
/// tensors.
pub proof fn layout_fills_the_file(c: Seq<u8>)
    requires
        c.len() <= u64::MAX,
    ensures
        layout_of(c) matches Some(layout) ==> fills(layout, c.len() as int),
{
    if layout_of(c) is Some {
        let metadata = metadata_of(c).unwrap();
        metadata_moves_on(c, inspection_bound(c), metadata_start(), u64_at(c, 16) as nat);
        let start = directory_start(metadata);
        directory_packs(c, metadata.alignment, start, u64_at(c, 8) as nat);
        let directory = directory_after(
            c,
            metadata.alignment,
            start,
            u64_at(c, 8) as nat,
        ).unwrap();
        packed_is_positive(directory.tensors, metadata.alignment, directory.tensors.len() as int);
        if directory.tensors.len() > 0 {
            aligned_bounds(directory.position, metadata.alignment);
        }
    }
}

/// The tensor directory of a validated file starts behind the counts.
pub proof fn the_directory_starts_behind_the_counts(c: Seq<u8>)
    requires
        c.len() <= u64::MAX,
    ensures
        layout_of(c) matches Some(layout) ==> 24 <= layout.directory_start <= c.len(),
{
    if layout_of(c) is Some {
        metadata_moves_on(c, inspection_bound(c), metadata_start(), u64_at(c, 16) as nat);
    }
}

pub(crate) proof fn packed_is_positive(tensors: Seq<TensorInfoModel>, alignment: u64, upto: int)
    requires
        alignment > 0,
        packed_tensors(tensors, alignment),
        0 <= upto <= tensors.len(),
    ensures
        packed(tensors, alignment, upto) >= 0,
    decreases upto,
{
    if upto > 0 {
        packed_is_positive(tensors, alignment, upto - 1);
        assert(aligned(tensors[upto - 1].length as int, alignment) is Some);
        aligned_bounds(tensors[upto - 1].length as int, alignment);
    }
}

proof fn packed_grows(tensors: Seq<TensorInfoModel>, alignment: u64, low: int, high: int)
    requires
        alignment > 0,
        packed_tensors(tensors, alignment),
        0 <= low <= high <= tensors.len(),
    ensures
        packed(tensors, alignment, low) <= packed(tensors, alignment, high),
    decreases high - low,
{
    if low < high {
        packed_grows(tensors, alignment, low, high - 1);
        assert(aligned(tensors[high - 1].length as int, alignment) is Some);
        aligned_bounds(tensors[high - 1].length as int, alignment);
    }
}

/// The logical shape, outermost axis first: the declared dimensions reversed.
pub open spec fn logical_shape(tensor: TensorInfoModel) -> Seq<u64> {
    tensor.dimensions.take(tensor.dimension_count as int).reverse()
}

/// The cut points a contract declares inside one tensor.
pub open spec fn seams_for(
    contract: Option<ContractModel>,
    name: Seq<char>,
    shape: Seq<u64>,
    length: u64,
) -> Seq<u64> {
    match contract {
        None => Seq::empty(),
        Some(c) => c.seams(name, shape, length),
    }
}

/// One tensor's regions and, apart from them, its padding.
pub open spec fn tensor_regions(
    layout: LayoutModel,
    contract: Option<ContractModel>,
    i: int,
) -> Seq<Region> {
    let tensor = layout.tensors[i];
    let start = layout.data_start + tensor.offset;
    seam_grid(
        start,
        tensor.length as int,
        seams_for(contract, tensor.name, logical_shape(tensor), tensor.length),
        RegionKind::Tensor,
    ) + grid(
        start + tensor.length,
        padded(tensor, layout.alignment) - tensor.length,
        RegionKind::Header,
    )
}

/// The regions of the first `upto` tensors.
pub open spec fn data_regions(
    layout: LayoutModel,
    contract: Option<ContractModel>,
    upto: int,
) -> Seq<Region>
    decreases upto,
{
    if upto <= 0 {
        Seq::empty()
    } else {
        data_regions(layout, contract, upto - 1) + tensor_regions(layout, contract, upto - 1)
    }
}

/// The metadata, the directory and the padding before the data, kept apart.
pub open spec fn header_regions(layout: LayoutModel) -> Seq<Region> {
    grid(0, layout.directory_start as int, RegionKind::Header) + grid(
        layout.directory_start as int,
        layout.directory_end - layout.directory_start,
        RegionKind::Header,
    ) + grid(
        layout.directory_end as int,
        layout.data_start - layout.directory_end,
        RegionKind::Header,
    )
}

/// The regions of a validated file.
pub open spec fn layout_regions(layout: LayoutModel, contract: Option<ContractModel>) -> Seq<Region> {
    header_regions(layout) + data_regions(layout, contract, layout.tensors.len() as int)
}

proof fn tensor_regions_tile(
    layout: LayoutModel,
    contract: Option<ContractModel>,
    file_size: int,
    i: int,
)
    requires
        fills(layout, file_size),
        file_size <= u64::MAX,
        0 <= i < layout.tensors.len(),
    ensures
        tiles(
            tensor_regions(layout, contract, i),
            layout.data_start + packed(layout.tensors, layout.alignment, i),
            layout.data_start + packed(layout.tensors, layout.alignment, i + 1),
        ),
        gridded(tensor_regions(layout, contract, i)),
        layout.data_start + packed(layout.tensors, layout.alignment, i + 1) <= file_size,
{
    let tensor = layout.tensors[i];
    let alignment = layout.alignment;
    let start = layout.data_start + tensor.offset;
    let seams = seams_for(contract, tensor.name, logical_shape(tensor), tensor.length);
    assert(aligned(tensor.length as int, alignment) is Some);
    aligned_bounds(tensor.length as int, alignment);
    packed_grows(layout.tensors, alignment, i + 1, layout.tensors.len() as int);
    packed_is_positive(layout.tensors, alignment, i);
    if contract is Some {
        seams_fall_inside(contract.unwrap(), tensor.name, logical_shape(tensor), tensor.length);
    }
    seam_grid_tiles(start, tensor.length, seams, RegionKind::Tensor);
    grid_tiles(
        start + tensor.length,
        padded(tensor, alignment) - tensor.length,
        RegionKind::Header,
    );
    tiles_join(
        seam_grid(start, tensor.length as int, seams, RegionKind::Tensor),
        grid(start + tensor.length, padded(tensor, alignment) - tensor.length, RegionKind::Header),
        start,
        start + tensor.length,
        start + padded(tensor, alignment),
    );
}

proof fn data_regions_tile(
    layout: LayoutModel,
    contract: Option<ContractModel>,
    file_size: int,
    upto: int,
)
    requires
        fills(layout, file_size),
        file_size <= u64::MAX,
        0 <= upto <= layout.tensors.len(),
    ensures
        tiles(
            data_regions(layout, contract, upto),
            layout.data_start as int,
            layout.data_start + packed(layout.tensors, layout.alignment, upto),
        ),
        gridded(data_regions(layout, contract, upto)),
    decreases upto,
{
    if upto > 0 {
        data_regions_tile(layout, contract, file_size, upto - 1);
        tensor_regions_tile(layout, contract, file_size, upto - 1);
        tiles_join(
            data_regions(layout, contract, upto - 1),
            tensor_regions(layout, contract, upto - 1),
            layout.data_start as int,
            layout.data_start + packed(layout.tensors, layout.alignment, upto - 1),
            layout.data_start + packed(layout.tensors, layout.alignment, upto),
        );
    } else {
        tiles_nothing(layout.data_start as int);
    }
}

/// The regions of a validated file tile it exactly, whatever the contract.
pub proof fn layout_regions_tile(
    layout: LayoutModel,
    contract: Option<ContractModel>,
    file_size: int,
)
    requires
        fills(layout, file_size),
        file_size <= u64::MAX,
    ensures
        tiles(layout_regions(layout, contract), 0, file_size),
        gridded(layout_regions(layout, contract)),
{
    let a = layout.directory_start as int;
    let b = layout.directory_end as int;
    let d = layout.data_start as int;
    let kind = RegionKind::Header;
    let n = layout.tensors.len() as int;
    packed_is_positive(layout.tensors, layout.alignment, n);
    grid_tiles(0, a, kind);
    grid_tiles(a, b - a, kind);
    grid_tiles(b, d - b, kind);
    tiles_join(grid(0, a, kind), grid(a, b - a, kind), 0, a, b);
    tiles_join(grid(0, a, kind) + grid(a, b - a, kind), grid(b, d - b, kind), 0, b, d);
    data_regions_tile(layout, contract, file_size, n);
    tiles_join(header_regions(layout), data_regions(layout, contract, n), 0, d, file_size);
}

fn append_domain(regions: &mut Vec<Region>, offset: u64, length: u64, kind: RegionKind) -> (outcome:
    Result<(), ParseFailure>)
    requires
        offset + length <= u64::MAX,
    ensures
        match outcome {
            Ok(_) => final(regions)@ == old(regions)@ + grid(offset as int, length as int, kind)
                && final(regions)@.len() <= MAX_OBJECT_COUNT,
            Err(ParseFailure::Invalid) => old(regions)@.len() + grid(
                offset as int,
                length as int,
                kind,
            ).len() > MAX_OBJECT_COUNT,
            Err(ParseFailure::ResourceExhausted) => length > 0,
            Err(_) => false,
        },
{
    match append_split_region(regions, offset, length, kind) {
        Ok(_) => Ok(()),
        Err(PlanError::ResourceExhausted) => Err(ParseFailure::ResourceExhausted),
        Err(_) => Err(ParseFailure::Invalid),
    }
}

proof fn data_regions_grow(layout: LayoutModel, contract: Option<ContractModel>, low: int, high: int)
    requires
        0 <= low <= high,
    ensures
        data_regions(layout, contract, low).len() <= data_regions(layout, contract, high).len(),
    decreases high - low,
{
    if low < high {
        data_regions_grow(layout, contract, low, high - 1);
    }
}

/// The logical shape of a tensor.
pub fn shape_of(tensor: &TensorInfo) -> (shape: Vec<u64>)
    requires
        tensor.dimension_count <= 4,
    ensures
        shape@ == logical_shape(tensor@),
{
    let mut shape: Vec<u64> = Vec::new();
    let mut at: usize = tensor.dimension_count as usize;
    let ghost n = tensor.dimension_count as int;
    while at > 0
        invariant
            at <= n <= 4,
            n == tensor.dimension_count,
            tensor.dimensions@.len() == 4,
            shape@.len() == n - at,
            forall|i: int|
                0 <= i < shape@.len() ==> #[trigger] shape@[i] == tensor.dimensions@[n - 1 - i],
        decreases at,
    {
        at -= 1;
        shape.push(tensor.dimensions[at]);
    }
    assert(shape@ =~= logical_shape(tensor@));
    shape
}

/// The model of an optional contract.
pub open spec fn contract_model(contract: Option<&Contract>) -> Option<ContractModel> {
    match contract {
        Some(c) => Some(c@),
        None => None,
    }
}

/// The cut points a contract declares inside one tensor.
pub fn seams_of(contract: Option<&Contract>, name: &str, shape: &[u64], length: u64) -> (seams: Vec<
    u64,
>)
    requires
        contract matches Some(c) ==> c.wf(),
    ensures
        seams@ == seams_for(contract_model(contract), name@, shape@, length),
        crate::contract::rising_within(seams@, length),
{
    match contract {
        None => {
            let seams: Vec<u64> = Vec::new();
            seams
        },
        Some(contract) => contract.seam_offsets(name, shape, length),
    }
}

/// Appends one tensor's regions and its padding.
fn append_tensor(
    regions: &mut Vec<Region>,
    layout: &Layout,
    contract: Option<&Contract>,
    at: usize,
    Ghost(file_size): Ghost<int>,
) -> (outcome: Result<(), ParseFailure>)
    requires
        fills(layout@, file_size),
        file_size <= u64::MAX,
        contract matches Some(c) ==> c.wf(),
        at < layout.tensors@.len(),
    ensures
        match outcome {
            Ok(_) => final(regions)@ == old(regions)@ + tensor_regions(
                layout@,
                contract_model(contract),
                at as int,
            ) && final(regions)@.len() <= MAX_OBJECT_COUNT,
            Err(ParseFailure::Invalid) => old(regions)@.len() + tensor_regions(
                layout@,
                contract_model(contract),
                at as int,
            ).len() > MAX_OBJECT_COUNT,
            Err(ParseFailure::ResourceExhausted) => tensor_regions(
                layout@,
                contract_model(contract),
                at as int,
            ).len() > 0,
            Err(_) => false,
        },
{
    let tensor = &layout.tensors[at];
    proof {
        assert(layout@.tensors[at as int] == tensor@);
        assert(aligned(tensor.length as int, layout.alignment) is Some);
        aligned_bounds(tensor.length as int, layout.alignment);
        packed_grows(layout@.tensors, layout.alignment, at + 1, layout@.tensors.len() as int);
        packed_is_positive(layout@.tensors, layout.alignment, at as int);
    }
    let start: u64 = layout.data_start + tensor.offset;
    let shape = shape_of(tensor);
    let seams = seams_of(contract, tensor.name.as_str(), &shape, tensor.length);
    match append_tensor_regions(regions, start, tensor.length, &seams, RegionKind::Tensor) {
        Ok(_) => {},
        Err(PlanError::ResourceExhausted) => {
            return Err(ParseFailure::ResourceExhausted);
        },
        Err(_) => {
            return Err(ParseFailure::Invalid);
        },
    }
    let whole: u64 = match align_up(tensor.length, layout.alignment) {
        Some(whole) => whole,
        None => {
            return Err(ParseFailure::Invalid);
        },
    };
    let outcome = append_domain(
        regions,
        start + tensor.length,
        whole - tensor.length,
        RegionKind::Header,
    );
    assert(outcome is Ok ==> regions@ =~= old(regions)@ + tensor_regions(
        layout@,
        contract_model(contract),
        at as int,
    ));
    outcome
}

/// The region shape a validated layout produces: metadata, directory and
/// pre-data padding as separate header domains, then every tensor's unpadded
/// extent with its own trailing padding kept out of it.
pub fn plan_layout(file_size: u64, layout: &Layout, contract: Option<&Contract>) -> (outcome: Result<
    Vec<Region>,
    ParseFailure,
>)
    requires
        fills(layout@, file_size as int),
        contract matches Some(c) ==> c.wf(),
    ensures
        ({
            let expected = layout_regions(layout@, contract_model(contract));
            match outcome {
                Ok(regions) => regions@ == expected && expected.len() <= MAX_OBJECT_COUNT,
                Err(ParseFailure::Invalid) => expected.len() > MAX_OBJECT_COUNT,
                Err(ParseFailure::ResourceExhausted) => expected.len() > 0,
                Err(_) => false,
            }
        }),
{
    let ghost model = contract_model(contract);
    let ghost n = layout@.tensors.len() as int;
    proof {
        packed_is_positive(layout@.tensors, layout.alignment, n);
    }
    let mut regions: Vec<Region> = Vec::new();
    append_domain(&mut regions, 0, layout.directory_start, RegionKind::Header)?;
    append_domain(
        &mut regions,
        layout.directory_start,
        layout.directory_end - layout.directory_start,
        RegionKind::Header,
    )?;
    append_domain(
        &mut regions,
        layout.directory_end,
        layout.data_start - layout.directory_end,
        RegionKind::Header,
    )?;
    assert(regions@ =~= header_regions(layout@) + data_regions(layout@, model, 0));
    let mut at: usize = 0;
    while at < layout.tensors.len()
        invariant
            fills(layout@, file_size as int),
            contract matches Some(c) ==> c.wf(),
            model == contract_model(contract),
            n == layout@.tensors.len(),
            at <= layout.tensors@.len(),
            regions@ == header_regions(layout@) + data_regions(layout@, model, at as int),
            regions@.len() <= MAX_OBJECT_COUNT,
        decreases layout.tensors@.len() - at,
    {
        proof {
            data_regions_grow(layout@, model, at + 1, n);
        }
        append_tensor(&mut regions, layout, contract, at, Ghost(file_size as int))?;
        assert(regions@ =~= header_regions(layout@) + data_regions(layout@, model, at + 1));
        at += 1;
    }
    Ok(regions)
}

/// The regions a file's bytes and a contract give, when the bytes are a
/// well-formed GGUF file of a bounded number of objects.
pub open spec fn gguf_regions(c: Seq<u8>, contract: Option<ContractModel>) -> Option<Seq<Region>> {
    match layout_of(c) {
        Some(layout) if layout_regions(layout, contract).len() <= MAX_OBJECT_COUNT => Some(
            layout_regions(layout, contract),
        ),
        _ => None,
    }
}

/// The regions of a file tile it exactly.
pub proof fn gguf_regions_cover(c: Seq<u8>, contract: Option<ContractModel>)
    requires
        c.len() <= u64::MAX,
    ensures
        gguf_regions(c, contract) matches Some(regions) ==> tiles(regions, 0, c.len() as int) && gridded(
            regions,
        ) && regions.len() <= MAX_OBJECT_COUNT,
{
    layout_fills_the_file(c);
    if layout_of(c) is Some {
        layout_regions_tile(layout_of(c).unwrap(), contract, c.len() as int);
    }
}

/// Plans the regions of a GGUF file; `None` when the file is no such container.
pub fn try_regions<S: ByteSource + ?Sized>(source: &S, contract: Option<&Contract>) -> (outcome:
    Result<Option<Vec<Region>>, PlanError>)
    requires
        contract matches Some(c) ==> c.wf(),
    ensures
        match outcome {
            Ok(Some(regions)) => {
                &&& tiles(regions@, 0, source.content().len() as int)
                &&& gridded(regions@)
                &&& regions@.len() <= MAX_OBJECT_COUNT
                &&& source.steady() ==> gguf_regions(source.content(), contract_model(contract))
                    == Some(regions@)
            },
            Ok(None) => source.steady() ==> gguf_regions(
                source.content(),
                contract_model(contract),
            ) is None,
            Err(PlanError::Read(_)) => !source.reliable(),
            Err(PlanError::ResourceExhausted) => source.steady() ==> plan_takes_memory(
                source.content(),
            ),
            Err(_) => false,
        },
{
    let length: u64 = source.len();
    let layout = match parse(source) {
        Ok(layout) => layout,
        Err(ParseFailure::Invalid) => {
            return Ok(None);
        },
        Err(ParseFailure::Read(error)) => {
            return Err(PlanError::Read(error));
        },
        Err(ParseFailure::ResourceExhausted) => {
            return Err(PlanError::ResourceExhausted);
        },
    };
    proof {
        layout_regions_tile(layout@, contract_model(contract), length as int);
    }
    match plan_layout(length, &layout, contract) {
        Ok(regions) => Ok(Some(regions)),
        Err(ParseFailure::ResourceExhausted) => Err(PlanError::ResourceExhausted),
        Err(_) => Ok(None),
    }
}

/// Reads the layout of a GGUF file; `None` when the file is no such container.
pub fn read_layout<S: ByteSource + ?Sized>(source: &S) -> (outcome: Result<
    Option<Layout>,
    PlanError,
>)
    ensures
        match outcome {
            Ok(Some(layout)) => {
                &&& fills(layout@, source.content().len() as int)
                &&& 24 <= layout@.directory_start
                &&& source.steady() ==> layout_of(source.content()) == Some(layout@)
            },
            Ok(None) => source.steady() ==> layout_of(source.content()) is None,
            Err(PlanError::Read(_)) => !source.reliable(),
            Err(PlanError::ResourceExhausted) => source.steady() ==> takes_memory(
                source.content(),
            ),
            Err(_) => false,
        },
{
    match parse(source) {
        Ok(layout) => Ok(Some(layout)),
        Err(ParseFailure::Invalid) => Ok(None),
        Err(ParseFailure::Read(error)) => Err(PlanError::Read(error)),
        Err(ParseFailure::ResourceExhausted) => Err(PlanError::ResourceExhausted),
    }
}

/// The plan of a file's bytes without a contract, when they are a well-formed
/// GGUF file.
pub open spec fn planned(c: Seq<u8>) -> Option<PlanModel> {
    match gguf_regions(c, None) {
        None => None,
        Some(regions) => Some(
            PlanModel {
                planner: PlannerId::GgufV1,
                contract: StampModel::Absent,
                file_size: c.len() as u64,
                regions,
            },
        ),
    }
}

/// Plans a GGUF file along its own structure; `None` when the file is no such
/// container.
pub fn try_plan<S: ByteSource + ?Sized>(source: &S) -> (outcome: Result<Option<Plan>, PlanError>)
    ensures
        match outcome {
            Ok(Some(plan)) => plan@.covered() && plan@.file_size == source.content().len() && (
            source.steady() ==> planned(source.content()) == Some(plan@)),
            Ok(None) => source.steady() ==> planned(source.content()) is None,
            Err(PlanError::Read(_)) => !source.reliable(),
            Err(PlanError::ResourceExhausted) => source.steady() ==> plan_takes_memory(
                source.content(),
            ),
            Err(_) => false,
        },
{
    let file_size: u64 = source.len();
    match try_regions(source, None)? {
        None => Ok(None),
        Some(regions) => {
            proof {
                gguf_regions_cover(source.content(), None);
            }
            let plan = Plan {
                planner: PlannerId::GgufV1,
                contract: Stamp::Absent,
                file_size,
                regions,
            };
            assert(source.steady() ==> plan@ =~= planned(source.content()).unwrap());
            Ok(Some(plan))
        },
    }
}

// ---------------------------------------------------------------------------
// Inventory
// ---------------------------------------------------------------------------

/// The name of a tensor type.
pub open spec fn ggml_name(kind: u32) -> Seq<char> {
    if kind == 0 {
        "F32"@
    } else if kind == 1 {
        "F16"@
    } else if kind == 2 {
        "Q4_0"@
    } else if kind == 3 {
        "Q4_1"@
    } else if kind == 6 {
        "Q5_0"@
    } else if kind == 7 {
        "Q5_1"@
    } else if kind == 8 {
        "Q8_0"@
    } else if kind == 9 {
        "Q8_1"@
    } else if kind == 10 {
        "Q2_K"@
    } else if kind == 11 {
        "Q3_K"@
    } else if kind == 12 {
        "Q4_K"@
    } else if kind == 13 {
        "Q5_K"@
    } else if kind == 14 {
        "Q6_K"@
    } else if kind == 15 {
        "Q8_K"@
    } else if kind == 16 {
        "IQ2_XXS"@
    } else if kind == 17 {
        "IQ2_XS"@
    } else if kind == 18 {
        "IQ3_XXS"@
    } else if kind == 19 {
        "IQ1_S"@
    } else if kind == 20 {
        "IQ4_NL"@
    } else if kind == 21 {
        "IQ3_S"@
    } else if kind == 22 {
        "IQ2_S"@
    } else if kind == 23 {
        "IQ4_XS"@
    } else if kind == 24 {
        "I8"@
    } else if kind == 25 {
        "I16"@
    } else if kind == 26 {
        "I32"@
    } else if kind == 27 {
        "I64"@
    } else if kind == 28 {
        "F64"@
    } else if kind == 29 {
        "IQ1_M"@
    } else if kind == 30 {
        "BF16"@
    } else if kind == 34 {
        "TQ1_0"@
    } else if kind == 35 {
        "TQ2_0"@
    } else if kind == 39 {
        "MXFP4"@
    } else if kind == 40 {
        "NVFP4"@
    } else if kind == 41 {
        "Q1_0"@
    } else if kind == 42 {
        "Q2_0"@
    } else {
        Seq::empty()
    }
}

/// The name of a tensor type, empty where there is no such type.
pub fn ggml_name_of(kind: u32) -> (name: &'static str)
    ensures
        name@ == ggml_name(kind),
{
    proof {
        reveal_strlit("");
        assert(""@ =~= Seq::<char>::empty());
    }
    match kind {
        0 => "F32",
        1 => "F16",
        2 => "Q4_0",
        3 => "Q4_1",
        6 => "Q5_0",
        7 => "Q5_1",
        8 => "Q8_0",
        9 => "Q8_1",
        10 => "Q2_K",
        11 => "Q3_K",
        12 => "Q4_K",
        13 => "Q5_K",
        14 => "Q6_K",
        15 => "Q8_K",
        16 => "IQ2_XXS",
        17 => "IQ2_XS",
        18 => "IQ3_XXS",
        19 => "IQ1_S",
        20 => "IQ4_NL",
        21 => "IQ3_S",
        22 => "IQ2_S",
        23 => "IQ4_XS",
        24 => "I8",
        25 => "I16",
        26 => "I32",
        27 => "I64",
        28 => "F64",
        29 => "IQ1_M",
        30 => "BF16",
        34 => "TQ1_0",
        35 => "TQ2_0",
        39 => "MXFP4",
        40 => "NVFP4",
        41 => "Q1_0",
        42 => "Q2_0",
        _ => "",
    }
}

/// One tensor of the inventory.
pub open spec fn listed_tensor(layout: LayoutModel, i: int) -> InventoryModel {
    let tensor = layout.tensors[i];
    InventoryModel {
        name: tensor.name,
        dtype: ggml_name(tensor.ggml_type),
        shape: logical_shape(tensor),
        offset: (layout.data_start + tensor.offset) as u64,
        length: tensor.length,
    }
}

/// The inventory of a validated file.
pub open spec fn inventory_of(layout: LayoutModel) -> Seq<InventoryModel> {
    Seq::new(layout.tensors.len(), |i: int| listed_tensor(layout, i))
}

/// What a validated file lists lies one behind another, within the file.
pub(crate) proof fn listed_extents_lie_apart(layout: LayoutModel, file_size: int)
    requires
        fills(layout, file_size),
        file_size <= u64::MAX,
    ensures
        lie_apart(inventory_of(layout), file_size),
{
    let tensors = layout.tensors;
    let n = tensors.len() as int;
    let alignment = layout.alignment;
    assert forall|i: int| 0 <= i < n implies (#[trigger] inventory_of(layout)[i]).offset
        + inventory_of(layout)[i].length <= if i + 1 < n {
        inventory_of(layout)[i + 1].offset as int
    } else {
        file_size
    } by {
        assert(tensors[i].offset == packed(tensors, alignment, i));
        aligned_bounds(tensors[i].length as int, alignment);
        packed_grows(tensors, alignment, i, n);
        packed_grows(tensors, alignment, i + 1, n);
        if i + 1 < n {
            assert(tensors[i + 1].offset == packed(tensors, alignment, i + 1));
        }
    }
}

/// Lists the tensors of a validated file.
pub fn inventory(layout: &Layout, Ghost(file_size): Ghost<int>) -> (tensors: Vec<InventoryTensor>)
    requires
        fills(layout@, file_size),
        file_size <= u64::MAX,
    ensures
        super::inventory_models(tensors@) == inventory_of(layout@),
{
    let mut tensors: Vec<InventoryTensor> = Vec::new();
    let mut at: usize = 0;
    while at < layout.tensors.len()
        invariant
            fills(layout@, file_size),
            file_size <= u64::MAX,
            at <= layout.tensors@.len(),
            tensors@.len() == at,
            forall|i: int|
                0 <= i < at ==> (#[trigger] tensors@[i])@ == listed_tensor(layout@, i),
        decreases layout.tensors@.len() - at,
    {
        let tensor = &layout.tensors[at];
        proof {
            assert(layout@.tensors[at as int] == tensor@);
            assert(aligned(tensor.length as int, layout.alignment) is Some);
            aligned_bounds(tensor.length as int, layout.alignment);
            packed_grows(layout@.tensors, layout.alignment, at + 1, layout@.tensors.len() as int);
        }
        let listed = InventoryTensor {
            name: tensor.name.clone(),
            dtype: ggml_name_of(tensor.ggml_type).to_owned(),
            shape: shape_of(tensor),
            offset: layout.data_start + tensor.offset,
            length: tensor.length,
        };
        assert(listed@ =~= listed_tensor(layout@, at as int));
        tensors.push(listed);
        at += 1;
    }
    assert(super::inventory_models(tensors@) =~= inventory_of(layout@));
    tensors
}

} // verus!
