//! What a GGUF file lists is what stands in its directory, entry by entry.

use super::gguf::{
    aligned, aligned_bounds, block_layout, directory_after, directory_start,
    fills, inventory_of, layout_fills_the_file, layout_of, metadata_of, packed, padded, tensor_after,
    tensor_bytes, DirectoryState, LayoutModel, TensorInfoModel, MAX_TENSOR_NAME_LEN,
};
use crate::arith::product;
use crate::wire::{u32_at, u64_at};
use vstd::prelude::*;
use vstd::utf8::{decode_utf8, decode_utf8_encode_utf8, encode_utf8};

verus! {

/// The bytes of a directory entry's name stand behind their number.
pub open spec fn name_end(c: Seq<u8>, at: int) -> int {
    at + 8 + u64_at(c, at)
}

/// How many dimensions the directory entry at a position declares.
pub open spec fn rank_at(c: Seq<u8>, at: int) -> int {
    u32_at(c, name_end(c, at)) as int
}

/// The `k`th dimension that the directory entry at a position declares,
/// innermost first.
pub open spec fn dimension_at(c: Seq<u8>, at: int, k: int) -> u64 {
    u64_at(c, name_end(c, at) + 4 + 8 * k)
}

/// Where the type of a directory entry stands, behind its dimensions.
pub open spec fn type_at(c: Seq<u8>, at: int) -> int {
    name_end(c, at) + 4 + 8 * rank_at(c, at)
}

/// Where the `i`th of the directory entries from `from` on stands: each is a
/// counted name, counted dimensions, a type of four bytes and an offset of eight.
pub open spec fn entry_at(c: Seq<u8>, from: int, i: int) -> int
    decreases i,
{
    if i <= 0 {
        from
    } else {
        type_at(c, entry_at(c, from, i - 1)) + 12
    }
}

/// The product of dimensions.
pub open spec fn volume(shape: Seq<u64>) -> nat
    decreases shape.len(),
{
    if shape.len() == 0 {
        1
    } else {
        shape[0] as nat * volume(shape.drop_first())
    }
}

/// A tensor is what the directory entry at a position declares.
#[verifier::opaque]
pub(crate) open spec fn is_declared(c: Seq<u8>, at: int, tensor: TensorInfoModel) -> bool {
    let n = rank_at(c, at);
    &&& encode_utf8(tensor.name) == c.subrange(at + 8, name_end(c, at))
    &&& tensor.dimension_count == n <= 4
    &&& tensor.dimensions.len() == 4
    &&& forall|k: int|
        0 <= k < 4 ==> #[trigger] tensor.dimensions[k] == if k < n {
            dimension_at(c, at, k)
        } else {
            1
        }
    &&& tensor.ggml_type == u32_at(c, type_at(c, at))
    &&& tensor.offset == u64_at(c, type_at(c, at) + 4)
    &&& block_layout(tensor.ggml_type) is Some
    &&& tensor_bytes(tensor.dimensions, block_layout(tensor.ggml_type).unwrap()) == Some(
        tensor.length,
    )
}

proof fn entry_from_the_next(c: Seq<u8>, from: int, i: int)
    requires
        0 <= i,
    ensures
        entry_at(c, from, i + 1) == entry_at(c, type_at(c, from) + 12, i),
    decreases i,
{
    if i > 0 {
        entry_from_the_next(c, from, i - 1);
    } else {
        assert(entry_at(c, from, 0) == from);
    }
}

proof fn entry_is_declared(c: Seq<u8>, alignment: u64, state: DirectoryState)
    ensures
        tensor_after(c, alignment, state) matches Some(next) ==> {
            &&& next.position == type_at(c, state.position) + 12
            &&& next.position <= c.len()
            &&& next.tensors == state.tensors.push(next.tensors.last())
            &&& is_declared(c, state.position, next.tensors.last())
            &&& next.tensors.last().offset == state.expected
            &&& aligned(next.tensors.last().length as int, alignment) == Some(
                next.expected - state.expected,
            )
        },
{
    if let Some(next) = tensor_after(c, alignment, state) {
        let name = c.subrange(state.position + 8, name_end(c, state.position));
        assert(name == super::gguf::bytes_at(
            c,
            c.len() as int,
            state.position,
            MAX_TENSOR_NAME_LEN,
        ).unwrap().0);
        decode_utf8_encode_utf8(name);
        reveal(is_declared);
        assert(next.tensors.last().name == decode_utf8(name));
    }
}

proof fn directory_is_declared(c: Seq<u8>, alignment: u64, state: DirectoryState, count: nat)
    ensures
        directory_after(c, alignment, state, count) matches Some(last) ==> {
            let from = state.tensors.len() as int;
            &&& last.tensors.len() == from + count
            &&& last.position == entry_at(c, state.position, count as int)
            &&& forall|i: int| 0 <= i < from ==> #[trigger] last.tensors[i] == state.tensors[i]
            &&& forall|i: int|
                0 <= i < count ==> is_declared(
                    c,
                    entry_at(c, state.position, i),
                    #[trigger] last.tensors[from + i],
                )
        },
    decreases count,
{
    if count > 0 {
        entry_is_declared(c, alignment, state);
        if let Some(next) = tensor_after(c, alignment, state) {
            let fewer = (count - 1) as nat;
            directory_is_declared(c, alignment, next, fewer);
            if let Some(last) = directory_after(c, alignment, next, fewer) {
                let from = state.tensors.len() as int;
                entry_from_the_next(c, state.position, fewer as int);
                assert forall|i: int| 0 <= i < from implies #[trigger] last.tensors[i]
                    == state.tensors[i] by {
                    assert(last.tensors[i] == next.tensors[i]);
                }
                assert forall|i: int| 0 <= i < count implies is_declared(
                    c,
                    entry_at(c, state.position, i),
                    #[trigger] last.tensors[from + i],
                ) by {
                    if i > 0 {
                        entry_from_the_next(c, state.position, i - 1);
                        assert(last.tensors[from + i] == last.tensors[from + 1 + (i - 1)]);
                    } else {
                        assert(last.tensors[from] == next.tensors[from]);
                    }
                }
            }
        }
    }
}

proof fn product_of_four(d: Seq<u64>)
    requires
        d.len() == 4,
        product(d) is Some,
    ensures
        product(d).unwrap() == d[0] * d[1] * d[2] * d[3],
{
    reveal_with_fuel(product, 5);
    let three = d.drop_last();
    let two = three.drop_last();
    let one = two.drop_last();
    assert(one.drop_last() =~= Seq::<u64>::empty());
    assert(1 * d[0] == d[0]) by (nonlinear_arith);
}

proof fn product_of_five(d: Seq<u64>)
    requires
        d.len() == 5,
        product(d) is Some,
    ensures
        product(d).unwrap() == d[0] * d[1] * d[2] * d[3] * d[4],
{
    product_of_four_of_five(d);
    assert(product(d.drop_last()) is Some);
    product_of_four(d.drop_last());
}

proof fn product_of_four_of_five(d: Seq<u64>)
    requires
        d.len() == 5,
        product(d) is Some,
    ensures
        product(d.drop_last()) is Some,
        product(d).unwrap() == product(d.drop_last()).unwrap() * d[4],
{
}

/// The volume of reversed dimensions of which those behind `n` are ones.
proof fn volume_of_reversed(d: Seq<u64>, n: int, shape: Seq<u64>)
    requires
        0 <= n <= 4,
        d.len() == 4,
        forall|k: int| n <= k < 4 ==> #[trigger] d[k] == 1,
        shape.len() == n,
        forall|k: int| 0 <= k < n ==> #[trigger] shape[k] == d[n - 1 - k],
    ensures
        volume(shape) == d[0] * d[1] * d[2] * d[3],
{
    reveal_with_fuel(volume, 5);
    let (a, b, e, f) = (d[0] as int, d[1] as int, d[2] as int, d[3] as int);
    let s1 = shape.drop_first();
    let s2 = s1.drop_first();
    let s3 = s2.drop_first();
    if n == 0 {
        assert(1 == a * b * e * f) by (nonlinear_arith)
            requires
                a == 1,
                b == 1,
                e == 1,
                f == 1,
        ;
    } else if n == 1 {
        assert(s1 =~= Seq::<u64>::empty());
        assert(shape[0] == d[0]);
        assert(a * 1 == a * b * e * f) by (nonlinear_arith)
            requires
                b == 1,
                e == 1,
                f == 1,
        ;
    } else if n == 2 {
        assert(s2 =~= Seq::<u64>::empty());
        assert(shape[0] == d[1] && s1[0] == d[0]);
        assert(b * (a * 1) == a * b * e * f) by (nonlinear_arith)
            requires
                e == 1,
                f == 1,
        ;
    } else if n == 3 {
        assert(s3 =~= Seq::<u64>::empty());
        assert(shape[0] == d[2] && s1[0] == d[1] && s2[0] == d[0]);
        assert(e * (b * (a * 1)) == a * b * e * f) by (nonlinear_arith)
            requires
                f == 1,
        ;
    } else {
        assert(s3.drop_first() =~= Seq::<u64>::empty());
        assert(shape[0] == d[3] && s1[0] == d[2] && s2[0] == d[1] && s3[0] == d[0]);
        assert(f * (e * (b * (a * 1))) == a * b * e * f) by (nonlinear_arith);
    }
}

/// The bytes of a tensor, counted in blocks.
proof fn length_in_blocks(d: Seq<u64>, layout: (u64, u64), length: u64)
    requires
        d.len() == 4,
        layout.0 > 0,
        tensor_bytes(d, layout) == Some(length),
    ensures
        d[0] % layout.0 == 0,
        length == (d[0] / layout.0) * layout.1 * d[1] * d[2] * d[3],
        length * layout.0 == d[0] * d[1] * d[2] * d[3] * layout.1,
{
    let factors = seq![d[0] / layout.0, layout.1, d[1], d[2], d[3]];
    product_of_five(factors);
    let q = (d[0] / layout.0) as int;
    let (x, y) = (layout.0 as int, layout.1 as int);
    let (a, b, e, f) = (d[0] as int, d[1] as int, d[2] as int, d[3] as int);
    vstd::arithmetic::div_mod::lemma_fundamental_div_mod(a, x);
    let r = b * e * f;
    assert(q * y * b * e * f == (q * y) * r) by (nonlinear_arith)
        requires
            r == b * e * f,
    ;
    assert(a * b * e * f == a * r) by (nonlinear_arith)
        requires
            r == b * e * f,
    ;
    assert((q * y) * r * x == a * r * y) by (nonlinear_arith)
        requires
            a == x * q,
    ;
}

proof fn blocks_hold_elements(kind: u32)
    ensures
        block_layout(kind) matches Some(layout) ==> layout.0 > 0,
{
}

/// What a layout takes over from the reading of the directory.
proof fn a_layout_is_read(c: Seq<u8>) -> (ends: (DirectoryState, DirectoryState))
    requires
        layout_of(c) is Some,
        c.len() <= u64::MAX,
    ensures
        ({
            let layout = layout_of(c).unwrap();
            &&& directory_after(c, layout.alignment, ends.0, u64_at(c, 8) as nat) == Some(ends.1)
            &&& ends.0.tensors.len() == 0
            &&& ends.0.position == layout.directory_start
            &&& ends.1.position == layout.directory_end
            &&& ends.1.tensors == layout.tensors
            &&& layout.tensors.len() > 0 ==> aligned(
                layout.directory_end as int,
                layout.alignment,
            ) == Some(layout.data_start as int)
        }),
{
    let metadata = metadata_of(c).unwrap();
    let start = directory_start(metadata);
    let count = u64_at(c, 8) as nat;
    super::gguf::metadata_moves_on(
        c,
        super::gguf::inspection_bound(c),
        super::gguf::metadata_start(),
        u64_at(c, 16) as nat,
    );
    super::gguf::directory_packs(c, metadata.alignment, start, count);
    let last = directory_after(c, metadata.alignment, start, count).unwrap();
    super::gguf::packed_is_positive(last.tensors, metadata.alignment, last.tensors.len() as int);
    if last.tensors.len() > 0 {
        aligned_bounds(last.position, metadata.alignment);
    }
    (start, last)
}

/// The tensors of a layout are those that the directory declares.
pub(crate) proof fn a_layout_is_the_directory(c: Seq<u8>)
    requires
        layout_of(c) is Some,
        c.len() <= u64::MAX,
    ensures
        ({
            let layout = layout_of(c).unwrap();
            let count = u64_at(c, 8) as int;
            let from = layout.directory_start as int;
            &&& layout.tensors.len() == count
            &&& forall|i: int|
                0 <= i < count ==> is_declared(
                    c,
                    entry_at(c, from, i),
                    #[trigger] layout.tensors[i],
                )
            &&& layout.directory_end == entry_at(c, from, count)
            &&& count > 0 ==> aligned(layout.directory_end as int, layout.alignment) == Some(
                layout.data_start as int,
            )
        }),
{
    let layout = layout_of(c).unwrap();
    let (start, last) = a_layout_is_read(c);
    let count = u64_at(c, 8) as int;
    directory_is_declared(c, layout.alignment, start, count as nat);
    assert forall|i: int| 0 <= i < count implies is_declared(
        c,
        entry_at(c, layout.directory_start as int, i),
        #[trigger] layout.tensors[i],
    ) by {
        assert(last.tensors[start.tensors.len() + i] == layout.tensors[i]);
    }
}

/// A GGUF file lists as many tensors as it counts, and each as its directory
/// entry declares it: the name, the dimensions outermost first, which is the
/// reverse of how they stand, the type, and the place behind the start of the
/// data.
pub proof fn a_listing_is_the_directory(c: Seq<u8>, i: int)
    requires
        layout_of(c) is Some,
        c.len() <= u64::MAX,
        0 <= i < u64_at(c, 8),
    ensures
        ({
            let layout = layout_of(c).unwrap();
            let at = entry_at(c, layout.directory_start as int, i);
            let listed = inventory_of(layout)[i];
            let n = rank_at(c, at);
            &&& inventory_of(layout).len() == u64_at(c, 8)
            &&& encode_utf8(listed.name) == c.subrange(at + 8, name_end(c, at))
            &&& listed.shape.len() == n <= 4
            &&& forall|k: int|
                0 <= k < n ==> #[trigger] listed.shape[k] == dimension_at(c, at, n - 1 - k)
            &&& listed.dtype == super::gguf::ggml_name(u32_at(c, type_at(c, at)))
            &&& listed.offset == layout.data_start + u64_at(c, type_at(c, at) + 4)
        }),
{
    let layout = layout_of(c).unwrap();
    layout_fills_the_file(c);
    a_layout_is_the_directory(c);
    let at = entry_at(c, layout.directory_start as int, i);
    let tensor = layout.tensors[i];
    reveal(is_declared);
    assert(tensor.offset == packed(layout.tensors, layout.alignment, i));
    packed_reaches(layout.tensors, layout.alignment, i, layout.tensors.len() as int);
    let n = rank_at(c, at);
    let listed = inventory_of(layout)[i];
    assert forall|k: int| 0 <= k < n implies #[trigger] listed.shape[k] == dimension_at(
        c,
        at,
        n - 1 - k,
    ) by {
        assert(listed.shape[k] == tensor.dimensions[n - 1 - k]);
    }
}

proof fn packed_reaches(tensors: Seq<TensorInfoModel>, alignment: u64, low: int, high: int)
    requires
        0 <= low <= high <= tensors.len(),
        alignment > 0,
        super::gguf::packed_tensors(tensors, alignment),
    ensures
        packed(tensors, alignment, low) <= packed(tensors, alignment, high),
    decreases high - low,
{
    if low < high {
        packed_reaches(tensors, alignment, low, high - 1);
        assert(aligned(tensors[high - 1].length as int, alignment) is Some);
        aligned_bounds(tensors[high - 1].length as int, alignment);
    }
}

/// A tensor has as many bytes as its elements take in blocks, and where it has
/// more than one axis, one part in `shape[0]` of its bytes is one whole slice of
/// its outermost axis.
pub proof fn a_listed_tensor_has_whole_slices(c: Seq<u8>, i: int)
    requires
        layout_of(c) is Some,
        c.len() <= u64::MAX,
        0 <= i < u64_at(c, 8),
    ensures
        ({
            let layout = layout_of(c).unwrap();
            let at = entry_at(c, layout.directory_start as int, i);
            let listed = inventory_of(layout)[i];
            let block = block_layout(u32_at(c, type_at(c, at)));
            &&& block is Some
            &&& listed.length * block.unwrap().0 == volume(listed.shape) * block.unwrap().1
            &&& listed.shape.len() > 1 && listed.shape[0] > 0 ==> {
                let slice = listed.length / listed.shape[0];
                &&& slice * listed.shape[0] == listed.length
                &&& slice * block.unwrap().0 == volume(listed.shape.drop_first())
                    * block.unwrap().1
            }
        }),
{
    a_listing_is_the_directory(c, i);
    let layout = layout_of(c).unwrap();
    a_layout_is_the_directory(c);
    let at = entry_at(c, layout.directory_start as int, i);
    let tensor = layout.tensors[i];
    reveal(is_declared);
    let n = rank_at(c, at);
    let d = tensor.dimensions;
    let listed = inventory_of(layout)[i];
    let shape = listed.shape;
    let block = block_layout(tensor.ggml_type).unwrap();
    blocks_hold_elements(tensor.ggml_type);
    length_in_blocks(d, block, tensor.length);
    assert forall|k: int| 0 <= k < n implies #[trigger] shape[k] == d[n - 1 - k] by {
        assert(d[n - 1 - k] == dimension_at(c, at, n - 1 - k));
    }
    volume_of_reversed(d, n, shape);
    if n > 1 && shape[0] > 0 {
        let s = shape[0] as int;
        let inner = volume(shape.drop_first()) as int;
        let length = tensor.length as int;
        let q = (d[0] / block.0) as int;
        let (x, y) = (block.0 as int, block.1 as int);
        assert(shape[0] == d[n - 1]);
        let rest = q * y * (if n == 2 {
            d[2] * d[3]
        } else if n == 3 {
            d[1] * d[3]
        } else {
            d[1] * d[2]
        });
        let (b, e, f) = (d[1] as int, d[2] as int, d[3] as int);
        assert(length == s * rest) by {
            if n == 2 {
                assert(q * y * b * e * f == b * (q * y * (e * f))) by (nonlinear_arith);
            } else if n == 3 {
                assert(q * y * b * e * f == e * (q * y * (b * f))) by (nonlinear_arith);
            } else {
                assert(q * y * b * e * f == f * (q * y * (b * e))) by (nonlinear_arith);
            }
        }
        assert(s * rest == rest * s) by (nonlinear_arith);
        vstd::arithmetic::div_mod::lemma_fundamental_div_mod_converse(length, s, rest, 0);
        assert(volume(shape) == s * inner);
        assert(rest * x == inner * y) by (nonlinear_arith)
            requires
                s > 0,
                (s * rest) * x == (s * inner) * y,
        ;
    }
}

/// The data of a GGUF file starts at the first multiple of the alignment behind
/// the directory, where it has tensors; the first tensor stands at its start,
/// every other at the first multiple behind the one before it, and the file ends
/// at the first multiple behind the last.
pub proof fn tensors_follow_one_another(c: Seq<u8>, i: int)
    requires
        layout_of(c) is Some,
        c.len() <= u64::MAX,
        0 <= i < u64_at(c, 8),
    ensures
        ({
            let layout = layout_of(c).unwrap();
            let count = u64_at(c, 8) as int;
            let directory_end = entry_at(c, layout.directory_start as int, count);
            let listed = inventory_of(layout);
            let step = layout.alignment as int;
            &&& step > 0
            &&& first_multiple(directory_end, step, layout.data_start as int)
            &&& listed[0].offset == layout.data_start
            &&& first_multiple(
                listed[i].offset - layout.data_start + listed[i].length,
                step,
                (if i + 1 < count {
                    listed[i + 1].offset as int
                } else {
                    c.len() as int
                }) - layout.data_start,
            )
        }),
{
    let layout = layout_of(c).unwrap();
    let n = layout.tensors.len() as int;
    layout_fills_the_file(c);
    a_layout_is_the_directory(c);
    rounding_up(layout.directory_end as int, layout.alignment);
    room_is_even(layout, c.len() as int, 0);
    room_is_even(layout, c.len() as int, i);
    if i + 1 < n {
        room_is_even(layout, c.len() as int, i + 1);
    }
}

pub(crate) proof fn room_is_even(layout: LayoutModel, size: int, i: int)
    requires
        fills(layout, size),
        size <= u64::MAX,
        0 <= i < layout.tensors.len(),
    ensures
        ({
            let before = packed(layout.tensors, layout.alignment, i);
            let after = packed(layout.tensors, layout.alignment, i + 1);
            &&& inventory_of(layout)[i].offset == layout.data_start + before
            &&& first_multiple(
                before + inventory_of(layout)[i].length,
                layout.alignment as int,
                after,
            )
            &&& layout.data_start + after <= size
            &&& i + 1 == layout.tensors.len() ==> layout.data_start + after == size
            &&& i == 0 ==> before == 0
        }),
{
    let tensor = layout.tensors[i];
    let step = layout.alignment as int;
    let before = packed(layout.tensors, layout.alignment, i);
    let room = padded(tensor, layout.alignment);
    assert(tensor.offset == before && aligned(tensor.length as int, layout.alignment) is Some);
    packed_reaches(layout.tensors, layout.alignment, i, layout.tensors.len() as int);
    packed_reaches(layout.tensors, layout.alignment, i + 1, layout.tensors.len() as int);
    rounding_up(tensor.length as int, layout.alignment);
    packed_is_even(layout.tensors, layout.alignment, i);
    vstd::arithmetic::div_mod::lemma_add_mod_noop(before, room, step);
    vstd::arithmetic::div_mod::lemma_small_mod(0, step as nat);
}

/// The least multiple of `step` that is not below `value`.
pub open spec fn first_multiple(value: int, step: int, multiple: int) -> bool {
    &&& multiple % step == 0
    &&& value <= multiple < value + step
}

proof fn rounding_up(value: int, alignment: u64)
    requires
        0 <= value,
        alignment > 0,
    ensures
        aligned(value, alignment) matches Some(up) ==> first_multiple(value, alignment as int, up),
{
    if aligned(value, alignment) is Some {
        aligned_bounds(value, alignment);
        let q = (value + alignment - 1) / (alignment as int);
        vstd::arithmetic::div_mod::lemma_mod_multiples_basic(q, alignment as int);
    }
}

proof fn packed_is_even(tensors: Seq<TensorInfoModel>, alignment: u64, upto: int)
    requires
        0 <= upto <= tensors.len(),
        alignment > 0,
        super::gguf::packed_tensors(tensors, alignment),
    ensures
        packed(tensors, alignment, upto) % (alignment as int) == 0,
    decreases upto,
{
    let step = alignment as int;
    if upto > 0 {
        packed_is_even(tensors, alignment, upto - 1);
        assert(aligned(tensors[upto - 1].length as int, alignment) is Some);
        rounding_up(tensors[upto - 1].length as int, alignment);
        let before = packed(tensors, alignment, upto - 1);
        let room = padded(tensors[upto - 1], alignment);
        vstd::arithmetic::div_mod::lemma_add_mod_noop(before, room, step);
        vstd::arithmetic::div_mod::lemma_small_mod(0, step as nat);
    } else {
        vstd::arithmetic::div_mod::lemma_small_mod(0, step as nat);
    }
}

} // verus!
