//! A composed GGUF container reads back as what was composed.

use super::gguf::{
    dimension_bytes, directory_bytes, entry_bytes, new_data_start, new_directory_end, new_offset,
    new_offsets_fit, recounted, sound, tensor_names, unusable_at, usable,
};
use super::{in_source_order, selected, selection_is_well_made, Kept, Unnamed};
use crate::planner::gguf::{
    aligned, aligned_bounds, alignment_key, array_after, block_layout, bytes_at, data_start_of,
    dimensions_at, directory_after, directory_start, elements_after, elements_charged,
    elements_move_on, entry_after, fixed_width, inspection_bound, layout_fills_the_file, layout_of,
    metadata_after, metadata_moves_on, metadata_of, metadata_start, padded, tensor_after,
    tensor_bytes, the_directory_starts_behind_the_counts, valid_name, value_after, value_moves_on,
    well_started, DirectoryState, LayoutModel, MetadataState, Spot, TensorInfoModel, GGUF_TYPE_BOOL,
    GGUF_TYPE_STRING, MAX_METADATA_KEY_LEN, MAX_SYMBOL_BYTES, MAX_TENSOR_NAME_LEN,
};
use crate::tfm1::tree::same_encoding;
use crate::wire::{le_bytes, stands_at, stands_split, stands_u32, stands_u64, u32_at, u64_at};
use vstd::prelude::*;
use vstd::utf8::{encode_utf8, encode_utf8_decode_utf8, encode_utf8_valid_utf8};

verus! {

// ---------------------------------------------------------------------------
// Metadata is read the same where its bytes are the same
// ---------------------------------------------------------------------------

/// Two byte strings hold the same from `low` to `high`.
pub open spec fn agree(a: Seq<u8>, b: Seq<u8>, low: int, high: int) -> bool {
    &&& 0 <= low
    &&& high <= a.len()
    &&& high <= b.len()
    &&& forall|i: int| low <= i < high ==> #[trigger] a[i] == b[i]
}

proof fn same_between(a: Seq<u8>, b: Seq<u8>, low: int, high: int, from: int, to: int)
    requires
        agree(a, b, low, high),
        low <= from <= to <= high,
    ensures
        a.subrange(from, to) == b.subrange(from, to),
        agree(a, b, from, to),
{
    assert(a.subrange(from, to) =~= b.subrange(from, to));
}

proof fn value_is_local(a: Seq<u8>, b: Seq<u8>, bound: int, other: int, spot: Spot, kind: u32, depth: int)
    requires
        value_after(a, bound, spot, kind, depth) is Some,
        value_after(a, bound, spot, kind, depth).unwrap().position <= other,
        agree(a, b, spot.position, value_after(a, bound, spot, kind, depth).unwrap().position),
    ensures
        value_after(b, other, spot, kind, depth) == value_after(a, bound, spot, kind, depth),
        spot.position < value_after(a, bound, spot, kind, depth).unwrap().position,
    decreases 17 - depth, 0int,
{
    let next = value_after(a, bound, spot, kind, depth).unwrap();
    let (low, high) = (spot.position, next.position);
    if fixed_width(kind) is Some {
    } else if kind == GGUF_TYPE_BOOL {
        same_between(a, b, low, high, low, high);
    } else if kind == GGUF_TYPE_STRING {
        same_between(a, b, low, high, low, low + 8);
        same_between(a, b, low, high, low + 8, high);
    } else {
        let element = u32_at(a, low);
        let count = u64_at(a, low + 4);
        let budget = elements_charged(spot.budget, count as int).unwrap();
        let start = Spot { position: low + 12, budget };
        assert(array_after(a, bound, spot, depth) == Some(next));
        if fixed_width(element) is Some {
            assert(count * fixed_width(element).unwrap() >= 0) by (nonlinear_arith)
                requires
                    count >= 0,
                    fixed_width(element).unwrap() >= 0,
            ;
        } else if element != GGUF_TYPE_BOOL {
            elements_move_on(a, bound, start, element, depth + 1, count as nat);
        }
        assert(low + 12 <= high);
        same_between(a, b, low, high, low, low + 4);
        same_between(a, b, low, high, low + 4, low + 12);
        same_between(a, b, low, high, low + 12, high);
        if fixed_width(element) is None && element != GGUF_TYPE_BOOL {
            elements_are_local(a, b, bound, other, start, element, depth + 1, count as nat);
        }
        assert(array_after(b, other, spot, depth) == Some(next));
    }
}

proof fn elements_are_local(
    a: Seq<u8>,
    b: Seq<u8>,
    bound: int,
    other: int,
    spot: Spot,
    kind: u32,
    depth: int,
    count: nat,
)
    requires
        spot.position <= bound,
        elements_after(a, bound, spot, kind, depth, count) is Some,
        elements_after(a, bound, spot, kind, depth, count).unwrap().position <= other,
        agree(a, b, spot.position, elements_after(a, bound, spot, kind, depth, count).unwrap().position),
    ensures
        elements_after(b, other, spot, kind, depth, count) == elements_after(
            a,
            bound,
            spot,
            kind,
            depth,
            count,
        ),
    decreases 17 - depth, 1int + count,
{
    if count > 0 {
        let last = elements_after(a, bound, spot, kind, depth, count).unwrap();
        let next = value_after(a, bound, spot, kind, depth).unwrap();
        value_moves_on(a, bound, spot, kind, depth);
        elements_move_on(a, bound, next, kind, depth, (count - 1) as nat);
        same_between(a, b, spot.position, last.position, spot.position, next.position);
        same_between(a, b, spot.position, last.position, next.position, last.position);
        value_is_local(a, b, bound, other, spot, kind, depth);
        elements_are_local(a, b, bound, other, next, kind, depth, (count - 1) as nat);
    }
}

proof fn entry_is_local(a: Seq<u8>, b: Seq<u8>, bound: int, other: int, state: MetadataState)
    requires
        entry_after(a, bound, state) is Some,
        entry_after(a, bound, state).unwrap().spot.position <= other,
        agree(a, b, state.spot.position, entry_after(a, bound, state).unwrap().spot.position),
    ensures
        entry_after(b, other, state) == entry_after(a, bound, state),
        state.spot.position + 13 <= entry_after(a, bound, state).unwrap().spot.position <= bound,
{
    let low = state.spot.position;
    let next = entry_after(a, bound, state).unwrap();
    let high = next.spot.position;
    let (key, at) = bytes_at(a, bound, low, MAX_METADATA_KEY_LEN).unwrap();
    let kind = u32_at(a, at);
    let spot = Spot { position: at + 4, budget: state.spot.budget };
    value_moves_on(a, bound, spot, kind, 0);
    assert(at + 4 <= high);
    same_between(a, b, low, high, low, low + 8);
    same_between(a, b, low, high, low + 8, at);
    same_between(a, b, low, high, at, at + 4);
    same_between(a, b, low, high, at + 4, high);
    if key == alignment_key() {
        same_between(a, b, low, high, at + 4, at + 8);
    } else {
        value_is_local(a, b, bound, other, spot, kind, 0);
    }
}

proof fn metadata_is_local(
    a: Seq<u8>,
    b: Seq<u8>,
    bound: int,
    other: int,
    state: MetadataState,
    count: nat,
)
    requires
        state.spot.position <= bound,
        metadata_after(a, bound, state, count) is Some,
        metadata_after(a, bound, state, count).unwrap().spot.position <= other,
        agree(
            a,
            b,
            state.spot.position,
            metadata_after(a, bound, state, count).unwrap().spot.position,
        ),
    ensures
        metadata_after(b, other, state, count) == metadata_after(a, bound, state, count),
        state.spot.position + 13 * count <= metadata_after(a, bound, state, count).unwrap().spot.position,
    decreases count,
{
    if count > 0 {
        let last = metadata_after(a, bound, state, count).unwrap();
        let next = entry_after(a, bound, state).unwrap();
        metadata_moves_on(a, bound, state, 1);
        assert(metadata_after(a, bound, next, 0) == Some(next));
        metadata_moves_on(a, bound, next, (count - 1) as nat);
        let (low, mid, high) = (state.spot.position, next.spot.position, last.spot.position);
        same_between(a, b, low, high, low, mid);
        same_between(a, b, low, high, mid, high);
        entry_is_local(a, b, bound, other, state);
        metadata_is_local(a, b, bound, other, next, (count - 1) as nat);
    }
}

// ---------------------------------------------------------------------------
// A directory is read as it was written
// ---------------------------------------------------------------------------

/// A tensor that a directory can declare.
spec fn declarable(tensor: TensorInfoModel, alignment: u64) -> bool {
    &&& tensor.dimensions.len() == 4
    &&& tensor.dimension_count <= 4
    &&& forall|i: int| 0 <= i < tensor.dimension_count ==> #[trigger] tensor.dimensions[i] <= i64::MAX
    &&& forall|i: int| tensor.dimension_count <= i < 4 ==> #[trigger] tensor.dimensions[i] == 1
    &&& block_layout(tensor.ggml_type) is Some
    &&& tensor_bytes(tensor.dimensions, block_layout(tensor.ggml_type).unwrap()) == Some(tensor.length)
    &&& aligned(tensor.length as int, alignment) is Some
}

proof fn directory_is_declarable(c: Seq<u8>, alignment: u64, state: DirectoryState, count: nat)
    requires
        forall|i: int| 0 <= i < state.tensors.len() ==> declarable(#[trigger] state.tensors[i], alignment),
    ensures
        directory_after(c, alignment, state, count) matches Some(next) ==> {
            &&& next.tensors.len() == state.tensors.len() + count
            &&& forall|i: int| 0 <= i < next.tensors.len() ==> declarable(#[trigger] next.tensors[i], alignment)
        },
    decreases count,
{
    if count > 0 {
        match tensor_after(c, alignment, state) {
            None => {},
            Some(next) => {
                assert forall|i: int| 0 <= i < next.tensors.len() implies declarable(
                    #[trigger] next.tensors[i],
                    alignment,
                ) by {
                    if i < state.tensors.len() {
                        assert(next.tensors[i] == state.tensors[i]);
                    }
                }
                directory_is_declarable(c, alignment, next, (count - 1) as nat);
            },
        }
    }
}

proof fn dimensions_stand(c: Seq<u8>, pos: int, dimensions: Seq<u64>, upto: int)
    requires
        0 <= upto <= dimensions.len(),
        stands_at(c, pos, dimension_bytes(dimensions, upto)),
    ensures
        dimension_bytes(dimensions, upto).len() == 8 * upto,
        forall|i: int| 0 <= i < upto ==> u64_at(c, pos + 8 * i) == #[trigger] dimensions[i],
    decreases upto,
{
    if upto > 0 {
        let before = dimension_bytes(dimensions, upto - 1);
        let last = le_bytes(dimensions[upto - 1] as nat, 8);
        stands_split(c, pos, before, last);
        dimensions_stand(c, pos, dimensions, upto - 1);
        stands_u64(c, pos + 8 * (upto - 1), dimensions[upto - 1]);
    }
}

/// The state behind one more directory entry.
spec fn behind_entry(
    state: DirectoryState,
    name: Seq<char>,
    tensor: TensorInfoModel,
    alignment: u64,
) -> DirectoryState {
    DirectoryState {
        position: state.position + entry_bytes(name, tensor, state.expected).len(),
        symbols: state.symbols + encode_utf8(name).len(),
        expected: state.expected + padded(tensor, alignment),
        names: state.names.push(encode_utf8(name)),
        tensors: state.tensors.push(
            TensorInfoModel { name, offset: state.expected as u64, ..tensor },
        ),
    }
}

proof fn entry_is_read(
    c: Seq<u8>,
    alignment: u64,
    state: DirectoryState,
    name: Seq<char>,
    tensor: TensorInfoModel,
)
    requires
        alignment > 0,
        declarable(tensor, alignment),
        usable(name),
        stands_at(c, state.position, entry_bytes(name, tensor, state.expected)),
        0 <= state.expected,
        state.expected + padded(tensor, alignment) <= u64::MAX,
        state.symbols + encode_utf8(name).len() <= MAX_SYMBOL_BYTES,
    ensures
        tensor_after(c, alignment, state) == Some(behind_entry(state, name, tensor, alignment)),
        entry_bytes(name, tensor, state.expected).len() >= 24,
{
    let pos = state.position;
    let spelled = encode_utf8(name);
    let count = tensor.dimension_count;
    let sizes = dimension_bytes(tensor.dimensions, count as int);
    let offset = state.expected as u64;
    aligned_bounds(tensor.length as int, alignment);
    let a = le_bytes(spelled.len(), 8);
    let b = le_bytes(count as nat, 4);
    let d = le_bytes(tensor.ggml_type as nat, 4);
    let e = le_bytes(offset as nat, 8);
    assert(entry_bytes(name, tensor, state.expected) == a + spelled + b + sizes + d + e);
    stands_split(c, pos, a + spelled + b + sizes + d, e);
    stands_split(c, pos, a + spelled + b + sizes, d);
    stands_split(c, pos, a + spelled + b, sizes);
    stands_split(c, pos, a + spelled, b);
    stands_split(c, pos, a, spelled);
    stands_u64(c, pos, spelled.len() as u64);
    let at = pos + 8 + spelled.len();
    stands_u32(c, at, count);
    dimensions_stand(c, at + 4, tensor.dimensions, count as int);
    let behind = at + 4 + 8 * count;
    stands_u32(c, behind, tensor.ggml_type);
    stands_u64(c, behind + 4, offset);
    assert(bytes_at(c, c.len() as int, pos, MAX_TENSOR_NAME_LEN) == Some((spelled, at)));
    let read = dimensions_at(c, at + 4, count as int);
    assert(read =~= tensor.dimensions) by {
        assert forall|i: int| 0 <= i < 4 implies read[i] == tensor.dimensions[i] by {}
    }
    encode_utf8_decode_utf8(name);
    encode_utf8_valid_utf8(name);
    assert(valid_name(spelled));
    assert(behind + 12 == pos + entry_bytes(name, tensor, state.expected).len());
}

/// How many bytes the first `upto` kept names take.
pub open spec fn names_length(kept: Seq<Kept>, upto: int) -> nat
    decreases upto,
{
    if upto <= 0 {
        0
    } else {
        names_length(kept, upto - 1) + encode_utf8(kept[upto - 1].0).len()
    }
}

proof fn names_grow(kept: Seq<Kept>, low: int, high: int)
    requires
        low <= high,
    ensures
        names_length(kept, low) <= names_length(kept, high),
    decreases high - low,
{
    if low < high {
        names_grow(kept, low, high - 1);
    }
}

/// Kept tensor `k` as the new file declares it.
pub open spec fn kept_tensor(layout: LayoutModel, kept: Seq<Kept>, k: int) -> TensorInfoModel {
    TensorInfoModel {
        name: kept[k].0,
        offset: new_offset(layout, kept, k) as u64,
        ..layout.tensors[kept[k].1]
    }
}

pub open spec fn kept_tensors(layout: LayoutModel, kept: Seq<Kept>, upto: int) -> Seq<TensorInfoModel> {
    Seq::new(upto as nat, |k: int| kept_tensor(layout, kept, k))
}

/// The layout of a composed file: the kept tensors under their new names, in
/// their old order, back to back.
pub open spec fn recomposed(layout: LayoutModel, kept: Seq<Kept>) -> LayoutModel {
    LayoutModel {
        directory_end: new_directory_end(layout, kept) as u64,
        data_start: new_data_start(layout, kept).unwrap() as u64,
        tensors: kept_tensors(layout, kept, kept.len() as int),
        ..layout
    }
}

/// What a composed file starts with: the metadata block with the new count, and
/// the new directory.
pub open spec fn composed_head(content: Seq<u8>, layout: LayoutModel, kept: Seq<Kept>) -> Seq<u8> {
    recounted(content, layout.directory_start as int, kept.len()) + directory_bytes(
        layout,
        kept,
        kept.len() as int,
    )
}

/// The names of kept tensors are usable, and no two are alike.
spec fn well_named(kept: Seq<Kept>) -> bool {
    &&& forall|k: int| 0 <= k < kept.len() ==> usable((#[trigger] kept[k]).0)
    &&& forall|i: int, j: int|
        0 <= i < j < kept.len() ==> (#[trigger] kept[i]).0 != (#[trigger] kept[j]).0
}

proof fn all_usable(kept: Seq<Kept>, from: int, k: int)
    requires
        unusable_at(kept, from) >= kept.len(),
        from <= k < kept.len(),
    ensures
        usable(kept[k].0),
    decreases k - from,
{
    if from < k {
        all_usable(kept, from + 1, k);
    }
}

/// The state behind the first `upto` entries of the new directory.
spec fn behind_entries(start: DirectoryState, layout: LayoutModel, kept: Seq<Kept>, upto: int) -> DirectoryState {
    DirectoryState {
        position: start.position + directory_bytes(layout, kept, upto).len(),
        symbols: start.symbols + names_length(kept, upto),
        expected: new_offset(layout, kept, upto),
        names: Seq::new(upto as nat, |k: int| encode_utf8(kept[k].0)),
        tensors: kept_tensors(layout, kept, upto),
    }
}

proof fn directory_stands(c: Seq<u8>, pos: int, layout: LayoutModel, kept: Seq<Kept>, upto: int, high: int)
    requires
        0 <= upto <= high,
        stands_at(c, pos, directory_bytes(layout, kept, high)),
    ensures
        stands_at(c, pos, directory_bytes(layout, kept, upto)),
    decreases high - upto,
{
    if upto < high {
        stands_split(
            c,
            pos,
            directory_bytes(layout, kept, high - 1),
            entry_bytes(
                kept[high - 1].0,
                layout.tensors[kept[high - 1].1],
                new_offset(layout, kept, high - 1),
            ),
        );
        directory_stands(c, pos, layout, kept, upto, high - 1);
    }
}

/// What reading the new directory takes.
#[verifier::opaque]
spec fn readable(c: Seq<u8>, start: DirectoryState, layout: LayoutModel, kept: Seq<Kept>, size: int) -> bool {
    &&& sound(layout, size)
    &&& in_source_order(kept, layout.tensors.len() as int)
    &&& well_named(kept)
    &&& forall|i: int| 0 <= i < layout.tensors.len() ==> declarable(#[trigger] layout.tensors[i], layout.alignment)
    &&& start.symbols + names_length(kept, kept.len() as int) <= MAX_SYMBOL_BYTES
    &&& stands_at(c, start.position, directory_bytes(layout, kept, kept.len() as int))
}

/// The entry at `k` stands where the entries before it end, and can be read.
proof fn readable_entry(
    c: Seq<u8>,
    start: DirectoryState,
    layout: LayoutModel,
    kept: Seq<Kept>,
    size: int,
    k: int,
)
    requires
        readable(c, start, layout, kept, size),
        0 <= k < kept.len(),
    ensures
        ({
            let tensor = layout.tensors[kept[k].1];
            let before = new_offset(layout, kept, k);
            &&& layout.alignment > 0
            &&& declarable(tensor, layout.alignment)
            &&& usable(kept[k].0)
            &&& stands_at(
                c,
                start.position + directory_bytes(layout, kept, k).len(),
                entry_bytes(kept[k].0, tensor, before),
            )
            &&& 0 <= before
            &&& before + padded(tensor, layout.alignment) <= u64::MAX
            &&& start.symbols + names_length(kept, k) + encode_utf8(kept[k].0).len() <= MAX_SYMBOL_BYTES
        }),
{
    reveal(readable);
    let tensor = layout.tensors[kept[k].1];
    let entry = entry_bytes(kept[k].0, tensor, new_offset(layout, kept, k));
    assert(declarable(tensor, layout.alignment));
    directory_stands(c, start.position, layout, kept, k + 1, kept.len() as int);
    stands_split(c, start.position, directory_bytes(layout, kept, k), entry);
    new_offsets_fit(layout, kept, size, k);
    new_offsets_fit(layout, kept, size, k + 1);
    names_grow(kept, k + 1, kept.len() as int);
}

proof fn one_entry_is_read(
    c: Seq<u8>,
    start: DirectoryState,
    layout: LayoutModel,
    kept: Seq<Kept>,
    size: int,
    k: int,
)
    requires
        readable(c, start, layout, kept, size),
        0 <= k < kept.len(),
    ensures
        tensor_after(c, layout.alignment, behind_entries(start, layout, kept, k)) == Some(
            behind_entries(start, layout, kept, k + 1),
        ),
        directory_bytes(layout, kept, k + 1).len() >= directory_bytes(layout, kept, k).len() + 24,
{
    let state = behind_entries(start, layout, kept, k);
    let next = behind_entries(start, layout, kept, k + 1);
    let tensor = layout.tensors[kept[k].1];
    let name = kept[k].0;
    readable_entry(c, start, layout, kept, size, k);
    entry_is_read(c, layout.alignment, state, name, tensor);
    let read = behind_entry(state, name, tensor, layout.alignment);
    assert(read.names =~= next.names);
    assert(read.tensors =~= next.tensors);
}

proof fn entries_are_read(
    c: Seq<u8>,
    start: DirectoryState,
    layout: LayoutModel,
    kept: Seq<Kept>,
    size: int,
    k: int,
)
    requires
        readable(c, start, layout, kept, size),
        0 <= k <= kept.len(),
    ensures
        directory_after(
            c,
            layout.alignment,
            behind_entries(start, layout, kept, k),
            (kept.len() - k) as nat,
        ) == Some(behind_entries(start, layout, kept, kept.len() as int)),
        directory_bytes(layout, kept, kept.len() as int).len() >= directory_bytes(layout, kept, k).len()
            + 24 * (kept.len() - k),
    decreases kept.len() - k,
{
    if k < kept.len() {
        one_entry_is_read(c, start, layout, kept, size, k);
        entries_are_read(c, start, layout, kept, size, k + 1);
    }
}

/// A composed file's names are as distinct as the names it was given.
proof fn spelled_apart(kept: Seq<Kept>)
    requires
        well_named(kept),
    ensures
        Seq::new(kept.len(), |k: int| encode_utf8(kept[k].0)).no_duplicates(),
{
    let spelled = Seq::new(kept.len(), |k: int| encode_utf8(kept[k].0));
    assert forall|i: int, j: int| 0 <= i < spelled.len() && 0 <= j < spelled.len() && i != j implies spelled[i]
        != spelled[j] by {
        same_encoding(kept[i].0, kept[j].0);
    }
}

/// A composed file starts as the source does, but for the count.
proof fn head_stands(content: Seq<u8>, layout: LayoutModel, kept: Seq<Kept>, file: Seq<u8>)
    requires
        24 <= layout.directory_start <= content.len(),
        kept.len() <= u64::MAX,
        stands_at(file, 0, composed_head(content, layout, kept)),
    ensures
        agree(content, file, 0, 8),
        u64_at(file, 8) == kept.len(),
        agree(content, file, 16, layout.directory_start as int),
        stands_at(
            file,
            layout.directory_start as int,
            directory_bytes(layout, kept, kept.len() as int),
        ),
{
    let start = layout.directory_start as int;
    let directory = directory_bytes(layout, kept, kept.len() as int);
    let front = content.subrange(0, 8);
    let count = le_bytes(kept.len(), 8);
    let rest = content.subrange(16, start);
    stands_u64(file, 8, kept.len() as u64);
    stands_split(file, 0, front + count + rest, directory);
    stands_split(file, 0, front + count, rest);
    stands_split(file, 0, front, count);
    assert forall|i: int| 0 <= i < 8 implies #[trigger] content[i] == file[i] by {
        assert(file.subrange(0, 8)[i] == front[i]);
    }
    assert forall|i: int| 16 <= i < start implies #[trigger] content[i] == file[i] by {
        assert(file.subrange(16, start)[i - 16] == rest[i - 16]);
    }
}

/// What a source's layout says of its tensors and its metadata.
proof fn source_is_sound(content: Seq<u8>)
    requires
        content.len() <= u64::MAX,
        layout_of(content) is Some,
    ensures
        ({
            let layout = layout_of(content).unwrap();
            let metadata = metadata_of(content).unwrap();
            &&& metadata_of(content) is Some
            &&& well_started(content)
            &&& sound(layout, content.len() as int)
            &&& layout.alignment == metadata.alignment
            &&& layout.directory_start == metadata.spot.position
            &&& metadata.spot.position <= inspection_bound(content)
            &&& layout.tensors.len() == u64_at(content, 8)
            &&& forall|i: int|
                0 <= i < layout.tensors.len() ==> declarable(#[trigger] layout.tensors[i], layout.alignment)
        }),
{
    let metadata = metadata_of(content).unwrap();
    layout_fills_the_file(content);
    the_directory_starts_behind_the_counts(content);
    metadata_moves_on(
        content,
        inspection_bound(content),
        metadata_start(),
        u64_at(content, 16) as nat,
    );
    directory_is_declarable(
        content,
        metadata.alignment,
        directory_start(metadata),
        u64_at(content, 8) as nat,
    );
}

/// A file that starts as the source does has the source's metadata.
pub(crate) proof fn metadata_is_kept(content: Seq<u8>, file: Seq<u8>)
    requires
        content.len() <= u64::MAX,
        well_started(content),
        metadata_of(content) is Some,
        24 <= metadata_of(content).unwrap().spot.position <= inspection_bound(content),
        agree(content, file, 0, 8),
        agree(content, file, 16, metadata_of(content).unwrap().spot.position),
    ensures
        metadata_of(file) == metadata_of(content),
        file.subrange(0, 4) == content.subrange(0, 4),
        u32_at(file, 4) == u32_at(content, 4),
        u64_at(file, 16) == u64_at(content, 16),
        24 + 13 * u64_at(content, 16) <= metadata_of(content).unwrap().spot.position,
{
    let (bound, other) = (inspection_bound(content), inspection_bound(file));
    let behind = metadata_of(content).unwrap().spot.position;
    same_between(content, file, 0, 8, 0, 4);
    same_between(content, file, 0, 8, 4, 8);
    same_between(content, file, 16, behind, 16, 24);
    same_between(content, file, 16, behind, 24, behind);
    metadata_is_local(content, file, bound, other, metadata_start(), u64_at(content, 16) as nat);
}

/// A file of the source's metadata and the new directory has the new layout.
proof fn parts_make_the_layout(
    content: Seq<u8>,
    layout: LayoutModel,
    kept: Seq<Kept>,
    file: Seq<u8>,
    metadata: MetadataState,
)
    requires
        file.len() <= u64::MAX,
        well_started(content),
        metadata_of(file) == Some(metadata),
        file.subrange(0, 4) == content.subrange(0, 4),
        u32_at(file, 4) == u32_at(content, 4),
        u64_at(file, 16) == u64_at(content, 16),
        u64_at(file, 8) == kept.len(),
        kept.len() <= u64_at(content, 8),
        24 + 13 * u64_at(content, 16) <= metadata.spot.position,
        layout.alignment == metadata.alignment,
        layout.directory_start == metadata.spot.position,
        sound(layout, content.len() as int),
        readable(file, directory_start(metadata), layout, kept, content.len() as int),
        new_data_start(layout, kept) is Some,
        file.len() == new_data_start(layout, kept).unwrap() + new_offset(layout, kept, kept.len() as int),
    ensures
        layout_of(file) == Some(recomposed(layout, kept)),
{
    let start = directory_start(metadata);
    let size = content.len() as int;
    let count = kept.len() as int;
    let first = behind_entries(start, layout, kept, 0);
    assert(first.names =~= start.names);
    assert(first.tensors =~= start.tensors);
    entries_are_read(file, start, layout, kept, size, 0);
    let directory = behind_entries(start, layout, kept, count);
    assert(well_named(kept) && in_source_order(kept, layout.tensors.len() as int) && stands_at(
        file,
        start.position,
        directory_bytes(layout, kept, count),
    )) by {
        reveal(readable);
    }
    spelled_apart(kept);
    new_offsets_fit(layout, kept, size, count);
    assert(well_started(file));
    assert(data_start_of(directory, metadata.alignment) == new_data_start(layout, kept));
}

/// A composed GGUF file is read as what was composed: the kept tensors under
/// their new names, in the source's order, each with the type, the dimensions
/// and the size it had, back to back behind the new directory. The new names
/// must not take more than the bytes that all names and keys of a file may
/// take together.
pub proof fn a_composed_gguf_reads_back(
    content: Seq<u8>,
    names: Seq<(Seq<char>, Seq<char>)>,
    unnamed: Unnamed,
    file: Seq<u8>,
)
    requires
        content.len() <= u64::MAX,
        file.len() <= u64::MAX,
        layout_of(content) is Some,
        ({
            let layout = layout_of(content).unwrap();
            let kept = selected(tensor_names(layout.tensors), names, unnamed);
            &&& kept is Ok
            &&& unusable_at(kept->Ok_0, 0) >= kept->Ok_0.len()
            &&& metadata_of(content).unwrap().symbols + names_length(
                kept->Ok_0,
                kept->Ok_0.len() as int,
            ) <= MAX_SYMBOL_BYTES
            &&& new_data_start(layout, kept->Ok_0) is Some
            &&& stands_at(file, 0, composed_head(content, layout, kept->Ok_0))
            &&& file.len() == new_data_start(layout, kept->Ok_0).unwrap() + new_offset(
                layout,
                kept->Ok_0,
                kept->Ok_0.len() as int,
            )
        }),
    ensures
        ({
            let layout = layout_of(content).unwrap();
            let kept = selected(tensor_names(layout.tensors), names, unnamed)->Ok_0;
            layout_of(file) == Some(recomposed(layout, kept))
        }),
{
    let layout = layout_of(content).unwrap();
    let tensors = tensor_names(layout.tensors);
    let kept = selected(tensors, names, unnamed)->Ok_0;
    let metadata = metadata_of(content).unwrap();
    source_is_sound(content);
    selection_is_well_made(tensors, names, unnamed, tensors.len() as int);
    assert(well_named(kept)) by {
        assert forall|k: int| 0 <= k < kept.len() implies usable((#[trigger] kept[k]).0) by {
            all_usable(kept, 0, k);
        }
    }
    head_stands(content, layout, kept, file);
    metadata_is_kept(content, file);
    assert(readable(file, directory_start(metadata), layout, kept, content.len() as int)) by {
        reveal(readable);
    }
    parts_make_the_layout(content, layout, kept, file, metadata);
}

} // verus!
