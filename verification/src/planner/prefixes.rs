//! No container is the beginning of another: one that is cut short, or has
//! bytes behind its end, is refused.

use super::safetensors::fill_data;
use crate::compose::gguf_reread::metadata_is_kept;
use crate::planner::gguf::{
    bytes_at, dimensions_at, directory_after, directory_start, inspection_bound, metadata_moves_on,
    metadata_of, metadata_start, tensor_after, DirectoryState, MAX_TENSOR_NAME_LEN,
};
use crate::planner::{gguf, safetensors, PlannerId};
use crate::wire::{u32_at, u64_at};
use vstd::prelude::*;

verus! {

proof fn reads_alike(a: Seq<u8>, b: Seq<u8>, from: int, to: int)
    requires
        a.is_prefix_of(b),
        0 <= from <= to <= a.len(),
    ensures
        a.subrange(from, to) == b.subrange(from, to),
{
    assert(a.len() <= b.len());
    assert(b.subrange(0, a.len() as int) == a);
    assert(a.subrange(from, to) =~= b.subrange(from, to));
}

proof fn an_entry_reads_alike(a: Seq<u8>, b: Seq<u8>, alignment: u64, state: DirectoryState)
    requires
        a.is_prefix_of(b),
        0 <= state.position,
    ensures
        tensor_after(a, alignment, state) matches Some(next) ==> tensor_after(b, alignment, state)
            == Some(next) && 0 <= next.position,
{
    if let Some(next) = tensor_after(a, alignment, state) {
        let at = bytes_at(a, a.len() as int, state.position, MAX_TENSOR_NAME_LEN).unwrap().1;
        let count = u32_at(a, at);
        let behind = at + 4 + 8 * count;
        reads_alike(a, b, state.position, state.position + 8);
        reads_alike(a, b, state.position + 8, at);
        reads_alike(a, b, at, at + 4);
        reads_alike(a, b, behind, behind + 4);
        reads_alike(a, b, behind + 4, behind + 12);
        assert forall|i: int| 0 <= i < count implies u64_at(a, at + 4 + 8 * i) == #[trigger] u64_at(
            b,
            at + 4 + 8 * i,
        ) by {
            reads_alike(a, b, at + 4 + 8 * i, at + 12 + 8 * i);
        }
        let dimensions = dimensions_at(a, at + 4, count as int);
        assert(dimensions_at(b, at + 4, count as int) =~= dimensions);
    }
}

proof fn a_directory_reads_alike(
    a: Seq<u8>,
    b: Seq<u8>,
    alignment: u64,
    state: DirectoryState,
    count: nat,
)
    requires
        a.is_prefix_of(b),
        0 <= state.position,
    ensures
        directory_after(a, alignment, state, count) matches Some(next) ==> directory_after(
            b,
            alignment,
            state,
            count,
        ) == Some(next),
    decreases count,
{
    if count > 0 {
        an_entry_reads_alike(a, b, alignment, state);
        if let Some(next) = tensor_after(a, alignment, state) {
            a_directory_reads_alike(a, b, alignment, next, (count - 1) as nat);
        }
    }
}

/// A GGUF file with its end cut off, or with bytes behind its end, is no GGUF
/// file: of two files of which one starts with all of the other, at most one has
/// a layout.
pub proof fn no_gguf_file_begins_another(a: Seq<u8>, b: Seq<u8>)
    requires
        b.len() <= u64::MAX,
        a.is_prefix_of(b),
        a != b,
    ensures
        gguf::layout_of(a) is None || gguf::layout_of(b) is None,
{
    assert(a.len() <= b.len());
    assert(b.subrange(0, a.len() as int) == a);
    if a.len() == b.len() {
        assert(a =~= b);
    }
    if gguf::layout_of(a) is Some && gguf::layout_of(b) is Some {
        let metadata = metadata_of(a).unwrap();
        reads_alike(a, b, 8, 16);
        metadata_moves_on(a, inspection_bound(a), metadata_start(), u64_at(a, 16) as nat);
        metadata_is_kept(a, b);
        a_directory_reads_alike(
            a,
            b,
            metadata.alignment,
            directory_start(metadata),
            u64_at(a, 8) as nat,
        );
    }
}

/// A safetensors file with its end cut off, or with bytes behind its end, is no
/// safetensors file.
pub proof fn no_safetensors_file_begins_another(a: Seq<u8>, b: Seq<u8>)
    requires
        a.is_prefix_of(b),
        a != b,
    ensures
        safetensors::layout_of(a) is None || safetensors::layout_of(b) is None,
{
    assert(a.len() <= b.len());
    assert(b.subrange(0, a.len() as int) == a);
    if a.len() == b.len() {
        assert(a =~= b);
    }
    if safetensors::layout_of(a) is Some && safetensors::layout_of(b) is Some {
        let n = u64_at(a, 0);
        reads_alike(a, b, 0, 8);
        reads_alike(a, b, 8, 8 + n);
        assert(fill_data(safetensors::layout_of(a).unwrap().tensors, a.len() - 8 - n));
        assert(fill_data(safetensors::layout_of(b).unwrap().tensors, b.len() - 8 - n));
    }
}

/// The plan of a GGUF file covers it exactly with regions that are not empty. No
/// cut of the file has a plan, and none has the file with a byte behind it.
pub proof fn a_gguf_plan_is_for_the_whole_file(c: Seq<u8>)
    requires
        c.len() < u64::MAX,
        gguf::planned(c) is Some,
    ensures
        ({
            let plan = gguf::planned(c).unwrap();
            &&& plan.planner == PlannerId::GgufV1
            &&& plan.file_size == c.len()
            &&& plan.covered()
            &&& forall|i: int|
                0 <= i < plan.regions.len() ==> (#[trigger] plan.regions[i]).length > 0
        }),
        forall|n: int| 0 <= n < c.len() ==> gguf::planned(#[trigger] c.take(n)) is None,
        forall|x: u8| gguf::planned(#[trigger] c.push(x)) is None,
{
    gguf::gguf_regions_cover(c, None);
    assert forall|n: int| 0 <= n < c.len() implies gguf::planned(#[trigger] c.take(n)) is None by {
        assert(c.subrange(0, n) =~= c.take(n));
        no_gguf_file_begins_another(c.take(n), c);
    }
    assert forall|x: u8| gguf::planned(#[trigger] c.push(x)) is None by {
        assert(c.push(x).subrange(0, c.len() as int) =~= c);
        assert(c.push(x).len() == c.len() + 1);
        no_gguf_file_begins_another(c, c.push(x));
    }
}

} // verus!
