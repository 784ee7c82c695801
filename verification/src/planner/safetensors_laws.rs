//! What a listed safetensors file holds: the tensors that its header declares, at
//! the bytes that it declares for them.

use super::gguf_laws::volume;
use super::safetensors::{
    dtype_width, empty_header, header_of, in_file_order, inventory_of, layout_of,
    members_are_bounded, reached, span_is_inside, span_keys, sound, span_of, Descriptor,
};
use super::InventoryModel;
use crate::arith::product;
use crate::sort::{keys_can_be_sorted, sorted_order_is};
use crate::wire::{numbers_stand_least_byte_first, u64_at};
use vstd::prelude::*;

verus! {

/// Whether a listed tensor is what a header of `n` bytes declares under a name.
pub open spec fn is_declared_as(
    listed: InventoryModel,
    declared: (Seq<char>, Descriptor),
    n: int,
) -> bool {
    &&& listed.name == declared.0
    &&& listed.dtype == declared.1.dtype
    &&& listed.shape == declared.1.shape
    &&& listed.offset == 8 + n + declared.1.offsets.0
    &&& listed.offset + listed.length == 8 + n + declared.1.offsets.1
}

proof fn volume_of_one_more(shape: Seq<u64>, dim: u64)
    ensures
        volume(shape.push(dim)) == volume(shape) * dim as nat,
    decreases shape.len(),
{
    let more = shape.push(dim);
    if shape.len() == 0 {
        assert(more.drop_first() =~= Seq::empty());
        assert(volume(more) == dim as nat * volume(more.drop_first()));
        assert(volume(Seq::<u64>::empty()) == 1);
        assert(dim as nat * 1nat == 1nat * dim as nat) by (nonlinear_arith);
    } else {
        let rest = shape.drop_first();
        volume_of_one_more(rest, dim);
        assert(more.drop_first() =~= rest.push(dim));
        let first = shape[0] as nat;
        let inner = volume(rest);
        assert(first * (inner * dim as nat) == (first * inner) * dim as nat) by (nonlinear_arith);
    }
}

proof fn a_product_is_the_volume(shape: Seq<u64>)
    requires
        product(shape) is Some,
    ensures
        product(shape)->Some_0 == volume(shape),
    decreases shape.len(),
{
    if shape.len() > 0 {
        a_product_is_the_volume(shape.drop_last());
        volume_of_one_more(shape.drop_last(), shape.last());
        assert(shape.drop_last().push(shape.last()) =~= shape);
    }
}

/// A safetensors file lists exactly the tensors that its header declares, each at
/// the bytes that its declaration gives behind the header.
pub proof fn a_listing_is_the_header(c: Seq<u8>, i: int) -> (places: (int, int))
    requires
        layout_of(c) is Some,
        c.len() <= u64::MAX,
        0 <= i < inventory_of(layout_of(c)->Some_0).len(),
    ensures
        ({
            let n = u64_at(c, 0) as int;
            let declared = header_of(c.subrange(8, 8 + n))->Some_0;
            let listed = inventory_of(layout_of(c)->Some_0);
            &&& header_of(c.subrange(8, 8 + n)) is Some
            &&& listed.len() == declared.len()
            &&& 0 <= places.0 < declared.len()
            &&& is_declared_as(listed[i], declared[places.0], n)
            &&& 0 <= places.1 < listed.len()
            &&& is_declared_as(listed[places.1], declared[i], n)
        }),
{
    let n = u64_at(c, 0) as int;
    let h = c.subrange(8, 8 + n);
    let declared = header_of(h)->Some_0;
    let layout = layout_of(c)->Some_0;
    members_are_bounded(h, empty_header(), true);
    let keys = span_keys(declared);
    let order = keys_can_be_sorted(keys, keys.len() as int);
    sorted_order_is(keys, order);
    assert(layout.tensors == in_file_order(declared));
    let from = order[i] as int;
    assert(0 <= order[i] < keys.len());
    assert(order.contains(i as usize));
    let to = choose|k: int| 0 <= k < order.len() && order[k] == i as usize;
    span_is_inside(layout, c.len() as int, i);
    span_is_inside(layout, c.len() as int, to);
    assert(layout.tensors[i] == span_of(declared[from]));
    assert(layout.tensors[to] == span_of(declared[i]));
    (from, to)
}

/// The tensors of a safetensors file follow one another without a gap, from the
/// end of the header to the end of the file.
pub proof fn tensors_fill_the_file(c: Seq<u8>, i: int)
    requires
        layout_of(c) is Some,
        c.len() <= u64::MAX,
        0 <= i < inventory_of(layout_of(c)->Some_0).len(),
    ensures
        ({
            let listed = inventory_of(layout_of(c)->Some_0);
            &&& listed[0].offset == 8 + u64_at(c, 0)
            &&& i + 1 < listed.len() ==> listed[i + 1].offset == listed[i].offset
                + listed[i].length
            &&& i + 1 == listed.len() ==> c.len() == listed[i].offset + listed[i].length
        }),
{
    let layout = layout_of(c)->Some_0;
    let tensors = layout.tensors;
    assert(tensors[0].start == reached(tensors, 0));
    assert(tensors[i].start == reached(tensors, i));
    span_is_inside(layout, c.len() as int, 0);
    span_is_inside(layout, c.len() as int, i);
    if i + 1 < tensors.len() {
        assert(tensors[i + 1].start == reached(tensors, i + 1));
        span_is_inside(layout, c.len() as int, i + 1);
    }
}

/// A listed tensor has as many bytes as its elements take together.
pub proof fn a_listed_tensor_has_its_elements(c: Seq<u8>, i: int)
    requires
        layout_of(c) is Some,
        c.len() <= u64::MAX,
        0 <= i < inventory_of(layout_of(c)->Some_0).len(),
    ensures
        ({
            let listed = inventory_of(layout_of(c)->Some_0)[i];
            &&& dtype_width(listed.dtype) is Some
            &&& listed.length * 8 == volume(listed.shape) * dtype_width(listed.dtype)->Some_0
        }),
{
    let places = a_listing_is_the_header(c, i);
    let n = u64_at(c, 0) as int;
    let declared = header_of(c.subrange(8, 8 + n))->Some_0;
    let one = declared[places.0].1;
    assert(sound(one));
    a_product_is_the_volume(one.shape);
    let total = product(one.shape)->Some_0 * dtype_width(one.dtype)->Some_0;
    assert(total % 8 == 0);
    assert(total / 8 * 8 == total);
}

/// An element takes the bits that its type's name gives: the number in it, a byte
/// for a truth value, and four, six or eight for the small floating types.
pub proof fn a_type_names_its_bits(dtype: Seq<char>)
    ensures
        dtype == "F64"@ || dtype == "I64"@ || dtype == "U64"@ || dtype == "C64"@ ==> dtype_width(
            dtype,
        ) == Some(64u64),
        dtype == "F32"@ || dtype == "I32"@ || dtype == "U32"@ ==> dtype_width(dtype) == Some(32u64),
        dtype == "F16"@ || dtype == "BF16"@ || dtype == "I16"@ || dtype == "U16"@ ==> dtype_width(
            dtype,
        ) == Some(16u64),
        dtype == "I8"@ || dtype == "U8"@ || dtype == "BOOL"@ ==> dtype_width(dtype) == Some(8u64),
        dtype == "F8_E4M3"@ || dtype == "F8_E5M2"@ || dtype == "F8_E8M0"@ || dtype
            == "F8_E4M3FNUZ"@ || dtype == "F8_E5M2FNUZ"@ ==> dtype_width(dtype) == Some(8u64),
        dtype == "F6_E2M3"@ || dtype == "F6_E3M2"@ ==> dtype_width(dtype) == Some(6u64),
        dtype == "F4"@ ==> dtype_width(dtype) == Some(4u64),
{
    reveal_strlit("F4");
    reveal_strlit("F6_E2M3");
    reveal_strlit("F6_E3M2");
    reveal_strlit("BOOL");
    reveal_strlit("U8");
    reveal_strlit("I8");
    reveal_strlit("F8_E5M2");
    reveal_strlit("F8_E4M3");
    reveal_strlit("F8_E8M0");
    reveal_strlit("F8_E5M2FNUZ");
    reveal_strlit("F8_E4M3FNUZ");
    reveal_strlit("I16");
    reveal_strlit("U16");
    reveal_strlit("F16");
    reveal_strlit("BF16");
    reveal_strlit("I32");
    reveal_strlit("U32");
    reveal_strlit("F32");
    reveal_strlit("I64");
    reveal_strlit("U64");
    reveal_strlit("F64");
    reveal_strlit("C64");
    if dtype.len() > 2 {
        assert("F4"@.len() == 2 && "U8"@.len() == 2 && "I8"@.len() == 2);
        assert("BOOL"@.len() == 4 && "BF16"@.len() == 4);
        assert("F6_E2M3"@.len() == 7 && "F6_E3M2"@.len() == 7);
        assert("F8_E5M2"@.len() == 7 && "F8_E4M3"@.len() == 7 && "F8_E8M0"@.len() == 7);
        assert("F8_E5M2FNUZ"@.len() == 11 && "F8_E4M3FNUZ"@.len() == 11);
        assert("I16"@[1] == '1' && "U16"@[1] == '1' && "F16"@[1] == '1');
        assert("I32"@[1] == '3' && "U32"@[1] == '3' && "F32"@[1] == '3');
        assert("I64"@[1] == '6' && "U64"@[1] == '6' && "F64"@[1] == '6' && "C64"@[1] == '6');
        assert("BF16"@[1] == 'F' && "BOOL"@[1] == 'O');
        assert("F6_E2M3"@[1] == '6' && "F6_E3M2"@[1] == '6');
        assert("F8_E5M2"@[1] == '8' && "F8_E4M3"@[1] == '8' && "F8_E8M0"@[1] == '8');
    } else {
        assert("F4"@[0] == 'F' && "U8"@[0] == 'U' && "I8"@[0] == 'I');
    }
}

/// No file is a container of both formats: the magic of a GGUF file would be a
/// header longer than any. So it does not matter which format is tried first.
pub proof fn no_file_is_of_both_formats(c: Seq<u8>)
    ensures
        layout_of(c) is None || super::gguf::layout_of(c) is None,
{
    if super::gguf::layout_of(c) is Some {
        numbers_stand_least_byte_first(c, 0);
        let magic = c.subrange(0, 4);
        assert(magic[3] == 70u8);
        assert(c[3] == magic[3]);
    }
}

} // verus!
