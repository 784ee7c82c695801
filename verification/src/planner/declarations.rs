//! The plan of a safetensors file does not depend on the order in which its
//! header declares the tensors.

use super::gguf::seams_for;
use super::safetensors::{
    data_regions, fill_data, in_file_order, laid_out, layout_regions, reached, sound, span_keys,
    span_of, tensor_regions, Descriptor, LayoutModel, SpanModel,
};
use super::{seam_grid, RegionKind};
use crate::contract::{seams_fall_inside, ContractModel};
use crate::sort::{
    all_are_taken, keys_can_be_sorted, picked, shuffles, sorted_order_is, sorted_range,
    sorts_before, Ranked,
};
use vstd::prelude::*;

verus! {

/// A rearrangement in which no key comes before an earlier one.
spec fn ascends<K: Ranked>(keys: Seq<K>, order: Seq<usize>) -> bool {
    &&& shuffles(order, keys.len())
    &&& forall|i: int, j: int|
        0 <= i < j < order.len() ==> !keys[#[trigger] order[j] as int].before(
            &keys[#[trigger] order[i] as int],
        )
}

/// What stands at one place of an ascending arrangement does not come before
/// what stands there in another.
proof fn no_earlier<K: Ranked>(keys: Seq<K>, a: Seq<usize>, b: Seq<usize>, i: int)
    requires
        ascends(keys, a),
        ascends(keys, b),
        0 <= i < keys.len(),
    ensures
        !keys[a[i] as int].before(&keys[b[i] as int]),
{
    let limit = keys[b[i] as int];
    if keys[a[i] as int].before(&limit) {
        let front = a.take(i + 1);
        let before = b.take(i);
        assert forall|x: usize| front.to_set().contains(x) implies #[trigger] before.to_set().contains(
            x,
        ) by {
            let p = choose|p: int| 0 <= p < front.len() && front[p] == x;
            all_are_taken(b, x);
            let q = choose|q: int| 0 <= q < b.len() && b[q] == x;
            if q >= i {
                if p < i {
                    assert(!keys[a[i] as int].before(&keys[a[p] as int]));
                }
                if q > i {
                    assert(!keys[b[q] as int].before(&keys[b[i] as int]));
                }
                K::asymmetric(&keys[a[i] as int], &limit);
                if p < i {
                    if q > i {
                        K::transitive(&limit, &keys[x as int], &keys[a[i] as int]);
                    } else {
                        K::transitive(&keys[x as int], &keys[a[i] as int], &keys[a[i] as int]);
                    }
                }
            }
            assert(q < i);
            assert(before[q] == x);
        }
        front.unique_seq_to_set();
        before.unique_seq_to_set();
        assert(front.to_set().subset_of(before.to_set()));
        vstd::set_lib::lemma_len_subset(front.to_set(), before.to_set());
    }
}

proof fn sorted_ascends<K: Ranked>(keys: Seq<K>, order: Seq<usize>)
    requires
        keys.len() <= usize::MAX,
        sorted_range(keys, order, 0, keys.len() as int),
    ensures
        ascends(keys, order),
{
    assert forall|i: int, j: int| 0 <= i < order.len() && 0 <= j < order.len() && i != j implies order[i]
        != order[j] by {
        if i < j {
            assert(sorts_before(keys, order[i] as int, order[j] as int));
        } else {
            assert(sorts_before(keys, order[j] as int, order[i] as int));
        }
    }
    assert forall|i: int, j: int| 0 <= i < j < order.len() implies !keys[#[trigger] order[j] as int].before(
        &keys[#[trigger] order[i] as int],
    ) by {
        assert(sorts_before(keys, order[i] as int, order[j] as int));
    }
}

/// An ascending arrangement of shuffled keys, traced back.
proof fn traced_back<K: Ranked>(keys: Seq<K>, order: Seq<usize>, found: Seq<usize>)
    requires
        shuffles(order, keys.len()),
        ascends(picked(keys, order), found),
    ensures
        ascends(keys, picked(order, found)),
{
    let back = picked(order, found);
    let other = picked(keys, order);
    assert forall|i: int, j: int| 0 <= i < back.len() && 0 <= j < back.len() && i != j implies back[i]
        != back[j] by {
        assert(found[i] != found[j]);
        assert(found[i] < other.len() && found[j] < other.len());
        assert(order[found[i] as int] != order[found[j] as int]);
    }
    assert forall|i: int| 0 <= i < back.len() implies #[trigger] back[i] < keys.len() by {
        assert(found[i] < other.len());
    }
    assert forall|i: int, j: int| 0 <= i < j < back.len() implies !keys[#[trigger] back[j] as int].before(
        &keys[#[trigger] back[i] as int],
    ) by {
        assert(!other[found[j] as int].before(&other[found[i] as int]));
        assert(found[i] < other.len() && found[j] < other.len());
    }
}

/// The tensors at one place of two arrangements of the same declarations have
/// the same extent, and are the same tensor where they have bytes.
proof fn same_place(
    declared: Seq<(Seq<char>, Descriptor)>,
    a: Seq<usize>,
    b: Seq<usize>,
    data_size: int,
    i: int,
)
    requires
        ascends(span_keys(declared), a),
        ascends(span_keys(declared), b),
        0 <= i < declared.len(),
        fill_data(a.map_values(|at: usize| span_of(declared[at as int])), data_size),
    ensures
        declared[a[i] as int].1.offsets == declared[b[i] as int].1.offsets,
        declared[a[i] as int].1.offsets.0 < declared[a[i] as int].1.offsets.1 ==> a[i] == b[i],
{
    let keys = span_keys(declared);
    let tensors = a.map_values(|at: usize| span_of(declared[at as int]));
    no_earlier(keys, a, b, i);
    no_earlier(keys, b, a, i);
    assert(keys[a[i] as int] == declared[a[i] as int].1.offsets);
    assert(keys[b[i] as int] == declared[b[i] as int].1.offsets);
    if a[i] != b[i] {
        all_are_taken(a, b[i]);
        let k = choose|k: int| 0 <= k < a.len() && a[k] == b[i];
        assert(tensors[i].start == tensors[k].start && tensors[i].end == tensors[k].end);
        if i < k {
            climbs(tensors, data_size, i + 1, k);
        } else {
            climbs(tensors, data_size, k + 1, i);
        }
    }
}

proof fn climbs(tensors: Seq<SpanModel>, data_size: int, low: int, high: int)
    requires
        fill_data(tensors, data_size),
        0 <= low <= high < tensors.len(),
    ensures
        reached(tensors, low) <= tensors[high].start,
    decreases high - low,
{
    assert(tensors[high].start == reached(tensors, high));
    if low < high {
        climbs(tensors, data_size, low, high - 1);
        assert(tensors[high - 1].start <= tensors[high - 1].end);
    }
}

proof fn same_data_regions(
    a: LayoutModel,
    b: LayoutModel,
    contract: Option<ContractModel>,
    upto: int,
)
    requires
        0 <= upto <= a.tensors.len() == b.tensors.len(),
        forall|i: int|
            0 <= i < a.tensors.len() ==> tensor_regions(a, contract, i) == #[trigger] tensor_regions(
                b,
                contract,
                i,
            ),
    ensures
        data_regions(a, contract, upto) == data_regions(b, contract, upto),
    decreases upto,
{
    if upto > 0 {
        same_data_regions(a, b, contract, upto - 1);
        assert(tensor_regions(a, contract, upto - 1) == tensor_regions(b, contract, upto - 1));
    }
}

/// A tensor without bytes has no regions.
proof fn nothing_to_cut(layout: LayoutModel, contract: Option<ContractModel>, i: int)
    requires
        layout.tensors[i].start == layout.tensors[i].end,
    ensures
        tensor_regions(layout, contract, i).len() == 0,
{
    let tensor = layout.tensors[i];
    let seams = seams_for(contract, tensor.name, tensor.shape, 0);
    if let Some(c) = contract {
        seams_fall_inside(c, tensor.name, tensor.shape, 0);
        if seams.len() > 0 {
            assert(0 < seams[0] < 0u64);
        }
    }
    assert(seams.len() == 0);
    assert(seam_grid(layout.header_end + tensor.start, 0, seams, RegionKind::Tensor).len() == 0);
}

/// A header that declares the same tensors in another order gives the same
/// regions, and is refused where the other is.
pub proof fn any_order_of_declarations_plans_the_same(
    declared: Seq<(Seq<char>, Descriptor)>,
    order: Seq<usize>,
    header_end: u64,
    data_size: int,
    contract: Option<ContractModel>,
)
    requires
        shuffles(order, declared.len()),
    ensures
        match (
            laid_out(declared, header_end, data_size),
            laid_out(picked(declared, order), header_end, data_size),
        ) {
            (Some(a), Some(b)) => layout_regions(a, contract) == layout_regions(b, contract),
            (None, None) => true,
            _ => false,
        },
{
    let other = picked(declared, order);
    let keys = span_keys(declared);
    assert(span_keys(other) =~= picked(keys, order));
    let a = keys_can_be_sorted(keys, keys.len() as int);
    let found = keys_can_be_sorted(span_keys(other), keys.len() as int);
    sorted_order_is(keys, a);
    sorted_order_is(span_keys(other), found);
    sorted_ascends(keys, a);
    sorted_ascends(span_keys(other), found);
    traced_back(keys, order, found);
    let b = picked(order, found);
    let first = in_file_order(declared);
    let second = in_file_order(other);
    assert forall|i: int| 0 <= i < first.len() implies #[trigger] second[i] == span_of(
        declared[b[i] as int],
    ) && first[i] == span_of(declared[a[i] as int]) && first[i].start == second[i].start
        && first[i].end == second[i].end by {
        assert(found[i] < other.len());
        no_earlier(keys, a, b, i);
        no_earlier(keys, b, a, i);
    }
    assert(first.len() == second.len());
    assert(fill_data(first, data_size) == fill_data(second, data_size)) by {
        extents_decide(first, second, data_size);
        extents_decide(second, first, data_size);
    }
    assert((forall|i: int| 0 <= i < declared.len() ==> sound((#[trigger] declared[i]).1)) == (forall|
        i: int,
    | 0 <= i < other.len() ==> sound((#[trigger] other[i]).1))) by {
        if forall|i: int| 0 <= i < other.len() ==> sound((#[trigger] other[i]).1) {
            assert forall|i: int| 0 <= i < declared.len() implies sound(
                (#[trigger] declared[i]).1,
            ) by {
                all_are_taken(order, i as usize);
                let k = choose|k: int| 0 <= k < order.len() && order[k] == i as usize;
                assert(other[k] == declared[i]);
            }
        }
    }
    if let (Some(x), Some(y)) = (
        laid_out(declared, header_end, data_size),
        laid_out(other, header_end, data_size),
    ) {
        assert(first =~= a.map_values(|at: usize| span_of(declared[at as int])));
        assert forall|i: int| 0 <= i < x.tensors.len() implies tensor_regions(x, contract, i)
            == #[trigger] tensor_regions(y, contract, i) by {
            assert(second[i] == span_of(declared[b[i] as int]));
            same_place(declared, a, b, data_size, i);
            if x.tensors[i].start < x.tensors[i].end {
                assert(x.tensors[i] == y.tensors[i]);
            } else {
                assert(first[i].start <= first[i].end);
                nothing_to_cut(x, contract, i);
                nothing_to_cut(y, contract, i);
                assert(tensor_regions(x, contract, i) =~= tensor_regions(y, contract, i));
            }
        }
        same_data_regions(x, y, contract, x.tensors.len() as int);
    }
}

proof fn extents_decide(a: Seq<SpanModel>, b: Seq<SpanModel>, data_size: int)
    requires
        a.len() == b.len(),
        forall|i: int|
            0 <= i < a.len() ==> (#[trigger] a[i]).start == b[i].start && a[i].end == b[i].end,
    ensures
        fill_data(a, data_size) ==> fill_data(b, data_size),
{
    assert forall|i: int| 0 <= i <= a.len() implies reached(a, i) == reached(b, i) by {
        if i > 0 {
            assert(a[i - 1].end == b[i - 1].end);
        }
    }
    assert(reached(a, a.len() as int) == reached(b, b.len() as int));
    if fill_data(a, data_size) {
        assert forall|i: int| 0 <= i < b.len() implies (#[trigger] b[i]).start == reached(b, i)
            && b[i].start <= b[i].end by {
            assert(a[i].start == b[i].start);
            assert(reached(a, i) == reached(b, i));
        }
    }
}

} // verus!
