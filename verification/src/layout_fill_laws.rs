//! What every fill keeps: the bytes do not depend on how the source is cut, the
//! padding makes up the difference between destination and source, and a host
//! destination changes in the place of the tensor alone.

use crate::layout_fill::{
    chunk_at, chunk_start, chunks_before, chunks_touched, delivered, fill_bytes, fillable, filled,
    joined, joined_grows, overwritten, padding_upto, primed, reach, stats_of, FillSink, FillStats,
    HostSink, TensorFill,
};
use crate::layout_morphism::laws::{arranging_is_injective, arranging_is_onto};
use crate::layout_morphism::plan::{planned, run_lies_inside, structured_plans_are_sound, PlanModel};
use crate::layout_morphism::ErrorModel;
use vstd::prelude::*;
use vstd::set_lib::{lemma_int_range, lemma_set_disjoint_lens, set_int_range};

verus! {

/// A host destination with room for the tensor is filled: the tensor stands at
/// its offset, and every other byte is what it was. Without room it refuses,
/// names both sizes, and stays as it was.
pub proof fn a_host_with_room_is_filled(
    before: HostSink,
    after: HostSink,
    offset: u64,
    arranged: Seq<u8>,
    refusal: Option<ErrorModel>,
)
    requires
        arranged.len() <= usize::MAX,
        delivered(before, after, offset, arranged, refusal),
    ensures
        refusal is None <==> offset + arranged.len() <= before@.len(),
        after@ == match refusal {
            None => overwritten(before@, offset as int, arranged),
            Some(_) => before@,
        },
        refusal matches Some(error) ==> error == (ErrorModel::Buffer {
            got: before@.len() as usize,
            want: reach(offset, arranged.len() as usize),
        }),
{
    if refusal is None {
        let (between, handed) = choose|between: HostSink, handed: Seq<u8>| #[trigger]
            primed(between, handed, before, offset, arranged) && after.committed(&between);
        assert(arranged + handed.skip(arranged.len() as int) =~= arranged);
    }
}

/// How a source is cut into chunks changes nothing that a fill reports but the
/// number of chunks it touched.
pub proof fn cutting_changes_only_the_chunks(
    plan: PlanModel,
    a: Seq<&[u8]>,
    b: Seq<&[u8]>,
    element: nat,
)
    ensures
        stats_of(plan, a, element) == (FillStats {
            chunks: stats_of(plan, a, element).chunks,
            ..stats_of(plan, b, element)
        }),
{
}

/// The source elements that the first `upto` runs hold.
spec fn held(plan: PlanModel, upto: int) -> Set<int>
    decreases upto,
{
    if upto <= 0 {
        Set::empty()
    } else {
        match plan.source_of((upto - 1) * plan.run_length()) {
            Some(from) => held(plan, upto - 1).union(
                set_int_range(from, from + plan.run_length()),
            ),
            None => held(plan, upto - 1),
        }
    }
}

/// The run that holds a source element.
proof fn held_by(plan: PlanModel, upto: int, s: int) -> (k: int)
    requires
        held(plan, upto).contains(s),
    ensures
        0 <= k < upto,
        plan.source_of(k * plan.run_length()) matches Some(from) && from <= s < from
            + plan.run_length(),
    decreases upto,
{
    match plan.source_of((upto - 1) * plan.run_length()) {
        Some(from) => if from <= s < from + plan.run_length() {
            upto - 1
        } else {
            held_by(plan, upto - 1, s)
        },
        None => held_by(plan, upto - 1, s),
    }
}

proof fn holds_its_run(plan: PlanModel, upto: int, k: int, s: int)
    requires
        0 <= k < upto,
        plan.source_of(k * plan.run_length()) matches Some(from) && from <= s < from
            + plan.run_length(),
    ensures
        held(plan, upto).contains(s),
    decreases upto,
{
    if k < upto - 1 {
        holds_its_run(plan, upto - 1, k, s);
    }
}

/// Two runs hold different source elements.
proof fn runs_are_apart(plan: PlanModel, j: int, k: int, s: int)
    requires
        plan.sound(),
        0 <= j <= k < plan.run_total(),
        plan.source_of(j * plan.run_length()) matches Some(from) && from <= s < from
            + plan.run_length(),
        plan.source_of(k * plan.run_length()) matches Some(from) && from <= s < from
            + plan.run_length(),
    ensures
        j == k,
{
    let run = plan.run_length() as int;
    let x = s - plan.source_of(j * run).unwrap();
    let y = s - plan.source_of(k * run).unwrap();
    plan.run_is_contiguous(j, x);
    plan.run_is_contiguous(k, y);
    run_lies_inside(plan, j, 1);
    run_lies_inside(plan, k, 1);
    assert(j < k ==> j * run + run <= k * run) by (nonlinear_arith)
        requires
            0 <= j <= k,
            0 <= run,
    ;
    assert(0 <= j * run <= k * run) by (nonlinear_arith)
        requires
            0 <= j <= k,
            0 <= run,
    ;
    arranging_is_injective(plan, j * run + x, k * run + y);
}

proof fn held_and_padding(plan: PlanModel, element: nat, upto: int)
    requires
        plan.sound(),
        0 <= upto <= plan.run_total(),
    ensures
        held(plan, upto).finite(),
        padding_upto(plan, element, upto) + held(plan, upto).len() * element == upto
            * plan.run_length() * element,
    decreases upto,
{
    let run = plan.run_length() as int;
    let e = element as int;
    if upto > 0 {
        held_and_padding(plan, element, upto - 1);
        let below = held(plan, upto - 1);
        assert(upto * run * e == (upto - 1) * run * e + run * e) by (nonlinear_arith);
        if let Some(from) = plan.source_of((upto - 1) * run) {
            let here = set_int_range(from, from + run);
            lemma_int_range(from, from + run);
            assert(below.disjoint(here)) by {
                assert forall|s: int| below.contains(s) implies !here.contains(s) by {
                    if here.contains(s) {
                        let k = held_by(plan, upto - 1, s);
                        runs_are_apart(plan, k, upto - 1, s);
                    }
                }
            }
            lemma_set_disjoint_lens(below, here);
            assert((below.len() + run) * e == below.len() * e + run * e) by (nonlinear_arith);
        }
    } else {
        assert(0 * run * e == 0) by (nonlinear_arith);
        assert(held(plan, upto).len() * e == 0) by (nonlinear_arith)
            requires
                held(plan, upto).len() == 0,
        ;
    }
}

/// Every byte of the destination is a byte of the source or a byte of padding:
/// the padding is what the destination is larger by.
pub proof fn padding_is_the_difference(plan: PlanModel, element: nat)
    requires
        plan.sound(),
    ensures
        padding_upto(plan, element, plan.run_total() as int) == plan.dest_elements() * element
            - plan.source_elements() * element,
{
    let run = plan.run_length() as int;
    let total = plan.run_total() as int;
    let all = held(plan, total);
    let source = plan.source_elements() as int;
    plan.runs_tile();
    held_and_padding(plan, element, total);
    assert forall|s: int| all.contains(s) <==> set_int_range(0, source).contains(s) by {
        if all.contains(s) {
            let k = held_by(plan, total, s);
            run_lies_inside(plan, k, 1);
        }
        if 0 <= s < source {
            let to = arranging_is_onto(plan, s);
            let k = to / run;
            vstd::arithmetic::div_mod::lemma_fundamental_div_mod(to, run);
            assert(k * run == run * k) by (nonlinear_arith);
            assert(0 <= to / run < total) by (nonlinear_arith)
                requires
                    0 <= to < total * run,
                    0 < run,
            ;
            plan.run_is_contiguous(k, to % run);
            holds_its_run(plan, total, k, s);
        }
    }
    assert(all =~= set_int_range(0, source));
    lemma_int_range(0, source);
}

/// A fill pads exactly where its destination is larger than its source.
pub proof fn a_fill_adds_up(plan: PlanModel, chunks: Seq<&[u8]>, element: nat)
    requires
        plan.sound(),
        plan.dest_elements() * element <= u64::MAX,
        plan.source_elements() * element <= u64::MAX,
    ensures
        ({
            let stats = stats_of(plan, chunks, element);
            &&& stats.source_bytes + stats.padding_bytes == stats.destination_bytes
            &&& stats.runs == plan.run_total()
            &&& stats.runs * plan.run_length() * element == stats.destination_bytes
        }),
{
    padding_is_the_difference(plan, element);
    plan.runs_tile();
}

/// The same bytes, cut in two ways, fill two equal hosts alike: where one fill
/// succeeds so does the other, both leave the arranged tensor at its offset and
/// every other byte as it was, and what they report differs in the number of
/// chunks alone. The padding is what the destination is larger by, and every run
/// of the plan is counted.
pub proof fn any_cut_fills_a_host_alike(
    tensor: TensorFill<'_>,
    source: Seq<u8>,
    a: Seq<&[u8]>,
    b: Seq<&[u8]>,
    before: HostSink,
    x: HostSink,
    y: HostSink,
    first: FillStats,
    second: Result<FillStats, ErrorModel>,
)
    requires
        fillable(tensor, source, a.len()),
        filled(tensor, a, source, before, x, Ok(first)),
        filled(tensor, b, source, before, y, second),
    ensures
        second == Ok::<FillStats, ErrorModel>(
            FillStats { chunks: second->Ok_0.chunks, ..first },
        ),
        x@ == overwritten(before@, tensor.device_offset as int, fill_bytes(tensor, source)),
        y@ == x@,
        first.source_bytes + first.padding_bytes == first.destination_bytes,
        first.runs == planned(*tensor.layout, tensor.shape@)->Ready_0.run_total(),
{
    let plan = planned(*tensor.layout, tensor.shape@)->Ready_0;
    let element = tensor.element_bytes as nat;
    let bytes = fill_bytes(tensor, source);
    assert(tensor.shape.len() <= usize::MAX);
    structured_plans_are_sound(*tensor.layout, tensor.shape@);
    a_host_with_room_is_filled(before, x, tensor.device_offset, bytes, None);
    a_host_with_room_is_filled(
        before,
        y,
        tensor.device_offset,
        bytes,
        match second {
            Ok(_) => None,
            Err(error) => Some(error),
        },
    );
    a_fill_adds_up(plan, a, element);
}

/// Whether a chunk holds a byte of a read of `count` bytes at `offset`.
pub open spec fn holds_part(chunks: Seq<&[u8]>, i: int, offset: int, count: int) -> bool {
    chunk_start(chunks, i) < offset + count && offset < chunk_start(chunks, i) + chunks[i]@.len()
}

/// How many of the first `upto` chunks hold a byte of a read.
pub open spec fn chunks_with_part(chunks: Seq<&[u8]>, offset: int, count: int, upto: int) -> nat
    decreases upto,
{
    if upto <= 0 {
        0
    } else {
        chunks_with_part(chunks, offset, count, upto - 1) + if holds_part(
            chunks,
            upto - 1,
            offset,
            count,
        ) {
            1nat
        } else {
            0nat
        }
    }
}

proof fn the_chunk_of_an_offset(chunks: Seq<&[u8]>, index: int, offset: int)
    requires
        0 <= index < chunks.len(),
        chunk_start(chunks, index) <= offset,
    ensures
        index <= chunk_at(chunks, index, offset) < chunks.len(),
        chunk_start(chunks, chunk_at(chunks, index, offset)) <= offset,
        chunk_at(chunks, index, offset) + 1 < chunks.len() ==> offset < chunk_start(
            chunks,
            chunk_at(chunks, index, offset) + 1,
        ),
    decreases chunks.len() - index,
{
    if index + 1 < chunks.len() && chunk_start(chunks, index + 1) <= offset {
        the_chunk_of_an_offset(chunks, index + 1, offset);
    }
}

proof fn chunks_behind(chunks: Seq<&[u8]>, first: int, offset: int, count: int, upto: int)
    requires
        0 <= first <= upto <= chunks.len(),
        forall|i: int| 0 <= i < chunks.len() ==> (#[trigger] chunks[i])@.len() > 0,
        forall|i: int| 0 <= i < first ==> chunk_start(chunks, i) + (#[trigger] chunks[i])@.len() <= offset,
        forall|i: int| first <= i < chunks.len() ==> offset < chunk_start(chunks, i)
            + (#[trigger] chunks[i])@.len(),
        forall|i: int| first <= i < upto ==> chunk_start(chunks, i) < offset + count,
    ensures
        chunks_with_part(chunks, offset, count, upto) == upto - first,
    decreases upto,
{
    if upto > first {
        chunks_behind(chunks, first, offset, count, upto - 1);
        assert(chunks[upto - 1]@.len() > 0);
        assert(chunk_start(chunks, upto - 1) < offset + count);
    } else if upto > 0 {
        nothing_before(chunks, offset, count, upto);
    }
}

proof fn nothing_before(chunks: Seq<&[u8]>, offset: int, count: int, upto: int)
    requires
        0 <= upto <= chunks.len(),
        forall|i: int| 0 <= i < upto ==> chunk_start(chunks, i) + (#[trigger] chunks[i])@.len() <= offset,
    ensures
        chunks_with_part(chunks, offset, count, upto) == 0,
    decreases upto,
{
    if upto > 0 {
        assert(chunk_start(chunks, upto - 1) + chunks[upto - 1]@.len() <= offset);
        nothing_before(chunks, offset, count, upto - 1);
    }
}

proof fn nothing_behind(chunks: Seq<&[u8]>, offset: int, count: int, low: int, upto: int)
    requires
        0 <= low <= upto <= chunks.len(),
        low < chunks.len() ==> chunk_start(chunks, low) >= offset + count,
    ensures
        chunks_with_part(chunks, offset, count, upto) == chunks_with_part(chunks, offset, count, low),
    decreases upto - low,
{
    if low < upto {
        nothing_behind(chunks, offset, count, low, upto - 1);
        joined_grows(chunks, low, upto - 1);
    }
}

proof fn chunks_until(chunks: Seq<&[u8]>, index: int, end: int)
    requires
        0 <= index <= chunks.len(),
    ensures
        index + chunks_before(chunks, index, end) <= chunks.len(),
        forall|i: int|
            index <= i < index + chunks_before(chunks, index, end) ==> #[trigger] chunk_start(
                chunks,
                i,
            ) < end,
        index + chunks_before(chunks, index, end) < chunks.len() ==> chunk_start(
            chunks,
            index + chunks_before(chunks, index, end),
        ) >= end,
    decreases chunks.len() - index,
{
    if index < chunks.len() && chunk_start(chunks, index) < end {
        chunks_until(chunks, index + 1, end);
    }
}

/// A read touches exactly the chunks that hold one of its bytes, however the
/// source is cut.
pub proof fn a_read_touches_the_chunks_that_hold_it(chunks: Seq<&[u8]>, offset: int, count: int)
    requires
        0 <= offset,
        0 <= count,
        offset + count <= joined(chunks, chunks.len() as int).len(),
        forall|i: int| 0 <= i < chunks.len() ==> (#[trigger] chunks[i])@.len() > 0,
    ensures
        chunks_touched(chunks, offset, count) == if count == 0 {
            0
        } else {
            chunks_with_part(chunks, offset, count, chunks.len() as int)
        },
{
    if count > 0 {
        let n = chunks.len() as int;
        let end = offset + count;
        assert(chunk_start(chunks, 0) == 0);
        if n == 0 {
            assert(joined(chunks, 0).len() == 0);
        }
        the_chunk_of_an_offset(chunks, 0, offset);
        let first = chunk_at(chunks, 0, offset);
        assert forall|i: int| 0 <= i < n implies chunk_start(chunks, i) + (
        #[trigger] chunks[i])@.len() == chunk_start(chunks, i + 1) by {}
        assert forall|i: int| 0 <= i < first implies chunk_start(chunks, i) + (
        #[trigger] chunks[i])@.len() <= offset by {
            joined_grows(chunks, i + 1, first);
        }
        assert forall|i: int| first <= i < n implies offset < chunk_start(chunks, i) + (
        #[trigger] chunks[i])@.len() by {
            joined_grows(chunks, first + 1, i + 1);
        }
        chunks_until(chunks, first, end);
        let last = first + chunks_before(chunks, first, end);
        chunks_behind(chunks, first, offset, count, last);
        nothing_behind(chunks, offset, count, last, n);
    }
}

} // verus!
