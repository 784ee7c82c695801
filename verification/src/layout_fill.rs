//! The fill path: chunks to bytes at a destination, with the arrangement
//! applied on the way.
//!
//! The bytes go into memory somebody else owns. The destination is a
//! [`FillSink`] the caller provides; nothing here decides what to load or where
//! it lands.

use crate::layout_morphism::plan::{
    addressable, addressable_part, arranged_bytes, arranged_run, at_least, clear_bytes, copy_bytes,
    planned, run_lies_inside, structured, Plan, PlanModel, Planning, Runs,
};
use crate::layout_morphism::{handle_text, ErrorModel, LayoutError, LayoutMorphism};
use vstd::prelude::*;

verus! {

/// Where filled bytes go.
///
/// The calls are ordered: the caller asks for staging, writes the arranged
/// bytes into it, and commits. A sink whose staging is the destination commits
/// for free.
pub trait FillSink {
    /// Whether this is what `before` turns into when `written` stands in the
    /// staging that it handed out as `handed`, for `bytes` at `device_offset`.
    open spec fn staged(
        &self,
        before: &Self,
        bytes: usize,
        device_offset: u64,
        handed: Seq<u8>,
        written: Seq<u8>,
    ) -> bool {
        arbitrary()
    }

    /// Whether `before` answers a request for `bytes` of staging at
    /// `device_offset` with `error` and turns into this.
    open spec fn refused(
        &self,
        before: &Self,
        bytes: usize,
        device_offset: u64,
        error: ErrorModel,
    ) -> bool {
        arbitrary()
    }

    /// Whether this is what `before` turns into when its staging moves to the
    /// destination.
    open spec fn committed(&self, before: &Self) -> bool {
        arbitrary()
    }

    /// Whether `before` answers a commit with `error` and turns into this.
    open spec fn uncommitted(&self, before: &Self, error: ErrorModel) -> bool {
        arbitrary()
    }

    /// Hands back at least `bytes` of writable staging for the tensor destined
    /// for `device_offset`.
    fn staging(&mut self, bytes: usize, device_offset: u64) -> (staging: Result<
        &mut [u8],
        LayoutError,
    >)
        ensures
            match staging {
                Ok(buffer) => buffer@.len() >= bytes && (final(buffer)@.len() == buffer@.len()
                    ==> final(self).staged(
                    old(self),
                    bytes,
                    device_offset,
                    buffer@,
                    final(buffer)@,
                )),
                Err(e) => final(self).refused(old(self), bytes, device_offset, e@),
            },
    ;

    /// Moves the staged bytes to their destination.
    fn commit(&mut self) -> (outcome: Result<(), LayoutError>)
        ensures
            match outcome {
                Ok(_) => final(self).committed(old(self)),
                Err(e) => final(self).uncommitted(old(self), e@),
            },
    ;
}

/// The host backend: the destination is plain memory the caller owns.
pub struct HostSink {
    buffer: Vec<u8>,
    pending: Option<(usize, usize)>,
}

impl View for HostSink {
    type V = Seq<u8>;

    closed spec fn view(&self) -> Seq<u8> {
        self.buffer@
    }
}

impl HostSink {
    /// A destination of exactly `bytes`, zeroed.
    pub fn with_capacity(bytes: usize) -> (sink: Self)
        ensures
            sink@ == Seq::new(bytes as nat, |i: int| 0u8),
    {
        let mut buffer: Vec<u8> = Vec::new();
        buffer.resize(bytes, 0);
        assert(buffer@ =~= Seq::new(bytes as nat, |i: int| 0u8));
        HostSink { buffer, pending: None }
    }

    pub fn bytes(&self) -> (bytes: &[u8])
        ensures
            bytes@ == self@,
    {
        &self.buffer
    }

    pub fn into_bytes(self) -> (bytes: Vec<u8>)
        ensures
            bytes@ == self@,
    {
        self.buffer
    }
}

/// `host` with `written` in place of the bytes from `offset` on.
pub open spec fn overwritten(host: Seq<u8>, offset: int, written: Seq<u8>) -> Seq<u8> {
    host.take(offset) + written + host.skip(offset + written.len())
}

/// Where `bytes` at `offset` end, or the last address.
pub open spec fn reach(offset: u64, bytes: usize) -> usize {
    if offset + bytes > usize::MAX {
        usize::MAX
    } else {
        (offset + bytes) as usize
    }
}

impl FillSink for HostSink {
    open spec fn staged(
        &self,
        before: &Self,
        bytes: usize,
        device_offset: u64,
        handed: Seq<u8>,
        written: Seq<u8>,
    ) -> bool {
        &&& device_offset + bytes <= before@.len()
        &&& handed == before@.subrange(device_offset as int, device_offset + bytes)
        &&& self@ == overwritten(before@, device_offset as int, written)
    }

    open spec fn refused(
        &self,
        before: &Self,
        bytes: usize,
        device_offset: u64,
        error: ErrorModel,
    ) -> bool {
        &&& device_offset + bytes > before@.len()
        &&& error == ErrorModel::Buffer {
            got: before@.len() as usize,
            want: reach(device_offset, bytes),
        }
        &&& self@ == before@
    }

    open spec fn committed(&self, before: &Self) -> bool {
        self@ == before@
    }

    open spec fn uncommitted(&self, before: &Self, error: ErrorModel) -> bool {
        false
    }

    fn staging(&mut self, bytes: usize, device_offset: u64) -> (staging: Result<
        &mut [u8],
        LayoutError,
    >)
        ensures
            staging is Ok <==> device_offset + bytes <= old(self)@.len(),
            match staging {
                Ok(buffer) => buffer@ == old(self)@.subrange(
                    device_offset as int,
                    device_offset + bytes,
                ) && (final(buffer)@.len() == bytes ==> final(self)@ == overwritten(
                    old(self)@,
                    device_offset as int,
                    final(buffer)@,
                )),
                Err(e) => *final(self) == *old(self) && e == (LayoutError::Buffer {
                    got: old(self)@.len() as usize,
                    want: reach(device_offset, bytes),
                }),
            },
    {
        let length: usize = self.buffer.len();
        if device_offset > length as u64 || bytes > length - device_offset as usize {
            let want: usize = if device_offset > (usize::MAX - bytes) as u64 {
                usize::MAX
            } else {
                device_offset as usize + bytes
            };
            return Err(LayoutError::Buffer { got: length, want });
        }
        let at: usize = device_offset as usize;
        let ghost host = self.buffer@;
        let ghost tail = host.subrange(at as int, host.len() as int);
        proof {
            let behind = tail.subrange(bytes as int, tail.len() as int);
            assert forall|written: Seq<u8>| written.len() == bytes implies host.subrange(
                0,
                at as int,
            ) + #[trigger] (written + behind) == overwritten(host, at as int, written) by {
                assert(host.subrange(0, at as int) + (written + behind) =~= overwritten(
                    host,
                    at as int,
                    written,
                ));
            }
            assert(tail.subrange(0, bytes as int) =~= host.subrange(at as int, at + bytes));
        }
        self.pending = Some((at, bytes));
        let (_, rest) = self.buffer.as_mut_slice().split_at_mut(at);
        let (staging, _) = rest.split_at_mut(bytes);
        Ok(staging)
    }

    fn commit(&mut self) -> (outcome: Result<(), LayoutError>)
        ensures
            outcome is Ok,
            final(self)@ == old(self)@,
    {
        self.pending = None;
        Ok(())
    }
}

// ---------------------------------------------------------------------------
// Chunked sources
// ---------------------------------------------------------------------------

/// The bytes of the first `upto` chunks, one behind the other.
pub open spec fn joined(chunks: Seq<&[u8]>, upto: int) -> Seq<u8>
    decreases upto,
{
    if upto <= 0 {
        Seq::empty()
    } else {
        joined(chunks, upto - 1) + chunks[upto - 1]@
    }
}

/// Where the `i`th chunk starts.
pub open spec fn chunk_start(chunks: Seq<&[u8]>, i: int) -> nat {
    joined(chunks, i).len()
}

pub(crate) proof fn joined_grows(chunks: Seq<&[u8]>, low: int, high: int)
    requires
        0 <= low <= high,
    ensures
        joined(chunks, low).len() <= joined(chunks, high).len(),
        joined(chunks, high).take(joined(chunks, low).len() as int) == joined(chunks, low),
    decreases high - low,
{
    let a = joined(chunks, low);
    if low < high {
        joined_grows(chunks, low, high - 1);
        let b = joined(chunks, high - 1);
        assert(joined(chunks, high).take(a.len() as int) =~= b.take(a.len() as int));
    } else {
        assert(a.take(a.len() as int) =~= a);
    }
}

/// One tensor's source bytes: an ordered chunk list that is logically one
/// contiguous buffer. The chunks are not concatenated first.
pub struct ChunkedSource<'a> {
    chunks: &'a [&'a [u8]],
    starts: Vec<u64>,
}

impl<'a> View for ChunkedSource<'a> {
    type V = Seq<u8>;

    closed spec fn view(&self) -> Seq<u8> {
        joined(self.chunks@, self.chunks@.len() as int)
    }
}

/// How many chunks from `index` on start before `end`.
pub open spec fn chunks_before(chunks: Seq<&[u8]>, index: int, end: int) -> nat
    decreases chunks.len() - index,
{
    if index >= chunks.len() || chunk_start(chunks, index) >= end {
        0
    } else {
        1 + chunks_before(chunks, index + 1, end)
    }
}

/// The last chunk from `index` on that starts at or before `offset`.
pub open spec fn chunk_at(chunks: Seq<&[u8]>, index: int, offset: int) -> int
    decreases chunks.len() - index,
{
    if index + 1 < chunks.len() && chunk_start(chunks, index + 1) <= offset {
        chunk_at(chunks, index + 1, offset)
    } else {
        index
    }
}

/// How many chunks a read of `count` bytes at `offset` touches.
pub open spec fn chunks_touched(chunks: Seq<&[u8]>, offset: int, count: int) -> nat {
    if count == 0 {
        0
    } else {
        chunks_before(chunks, chunk_at(chunks, 0, offset), offset + count)
    }
}

impl<'a> ChunkedSource<'a> {
    /// The starts are the starts of the chunks, and the total behind them.
    pub closed spec fn wf(&self) -> bool {
        &&& self.starts@.len() == self.chunks@.len() + 1
        &&& forall|i: int|
            0 <= i <= self.chunks@.len() ==> #[trigger] self.starts@[i] == chunk_start(
                self.chunks@,
                i,
            )
        &&& self@.len() <= u64::MAX
    }

    /// The chunks.
    pub closed spec fn chunks(&self) -> Seq<&'a [u8]> {
        self.chunks@
    }

    pub fn new(chunks: &'a [&'a [u8]]) -> (source: Self)
        requires
            joined(chunks@, chunks@.len() as int).len() <= u64::MAX,
        ensures
            source.wf(),
            source.chunks() == chunks@,
            source@ == joined(chunks@, chunks@.len() as int),
    {
        let ghost n = chunks@.len() as int;
        let mut starts: Vec<u64> = Vec::new();
        let mut total: u64 = 0;
        let mut at: usize = 0;
        while at < chunks.len()
            invariant
                at <= chunks@.len(),
                n == chunks@.len(),
                joined(chunks@, n).len() <= u64::MAX,
                total == chunk_start(chunks@, at as int),
                starts@.len() == at,
                forall|i: int| 0 <= i < at ==> #[trigger] starts@[i] == chunk_start(chunks@, i),
            decreases chunks@.len() - at,
        {
            starts.push(total);
            proof {
                joined_grows(chunks@, at + 1, n);
            }
            total = total + chunks[at].len() as u64;
            at += 1;
        }
        starts.push(total);
        ChunkedSource { chunks, starts }
    }

    pub fn len(&self) -> (length: u64)
        requires
            self.wf(),
        ensures
            length == self@.len(),
    {
        self.starts[self.starts.len() - 1]
    }

    pub fn is_empty(&self) -> (empty: bool)
        requires
            self.wf(),
        ensures
            empty == (self@.len() == 0),
    {
        self.len() == 0
    }

    /// The whole source as one slice, when it already is one.
    pub fn contiguous(&self) -> (whole: Option<&'a [u8]>)
        ensures
            match whole {
                Some(w) => self.chunks().len() == 1 && w@ == self@,
                None => self.chunks().len() != 1,
            },
    {
        if self.chunks.len() == 1 {
            let only = self.chunks[0];
            proof {
                reveal_with_fuel(joined, 2);
                assert(self@ =~= only@);
            }
            Some(only)
        } else {
            None
        }
    }

    /// The last chunk that starts at or before `offset`.
    fn find_chunk(&self, offset: u64) -> (index: usize)
        requires
            self.wf(),
            self.chunks().len() > 0,
        ensures
            index == chunk_at(self.chunks(), 0, offset as int),
            index < self.chunks().len(),
            self.starts@[index as int] <= offset,
            index + 1 < self.chunks().len() ==> self.starts@[index + 1] > offset,
    {
        let ghost chunks = self.chunks@;
        let mut low: usize = 0;
        let mut high: usize = self.chunks.len() - 1;
        assert(self.starts@[0] == chunk_start(chunks, 0));
        while low < high
            invariant
                low <= high < self.chunks@.len(),
                chunks == self.chunks@,
                self.wf(),
                self.starts@[low as int] <= offset,
                high + 1 < chunks.len() ==> self.starts@[high + 1] > offset,
            decreases high - low,
        {
            let middle: usize = high - (high - low) / 2;
            if self.starts[middle] <= offset {
                low = middle;
            } else {
                high = middle - 1;
            }
        }
        proof {
            chunk_at_is(chunks, 0, low as int, offset as int);
        }
        low
    }

    /// Copies `count` bytes at `offset` to `out` at `to`, crossing chunk
    /// boundaries as needed. How many chunks that touched.
    fn read_at(&self, offset: u64, out: &mut [u8], to: usize, count: usize) -> (touched: u64)
        requires
            self.wf(),
            offset + count <= self@.len(),
            to + count <= old(out)@.len(),
        ensures
            final(out)@.len() == old(out)@.len(),
            forall|b: int|
                0 <= b < old(out)@.len() ==> #[trigger] final(out)@[b] == if to <= b < to + count {
                    self@[offset + b - to]
                } else {
                    old(out)@[b]
                },
            touched == chunks_touched(self.chunks(), offset as int, count as int),
            touched <= self.chunks().len(),
    {
        if count == 0 {
            return 0;
        }
        let ghost chunks = self.chunks@;
        let ghost n = chunks.len() as int;
        let room: usize = out.len();
        let all: usize = self.chunks.len();
        proof {
            if n == 0 {
                assert(self@ =~= Seq::<u8>::empty());
            }
        }
        let mut index: usize = self.find_chunk(offset);
        let ghost first = index as int;
        let ghost end = offset + count;
        let mut written: usize = 0;
        let mut cursor: u64 = offset;
        let mut touched: u64 = 0;
        proof {
            assert(self.starts@[n] == chunk_start(chunks, n));
            chunks_before_bound(chunks, first, end as int);
        }
        while written < count
            invariant
                written <= count,
                self.wf(),
                chunks == self.chunks@,
                n == chunks.len(),
                room == out@.len(),
                to + count <= room,
                cursor == offset + written,
                end == offset + count,
                end <= self@.len(),
                written < count ==> index < n && chunk_start(chunks, index as int) <= cursor,
                written < count ==> cursor < chunk_start(chunks, index + 1) || chunk_start(
                    chunks,
                    index + 1,
                ) == cursor,
                touched + chunks_before(chunks, index as int, end as int) == chunks_before(
                    chunks,
                    first,
                    end as int,
                ),
                chunks_before(chunks, first, end as int) <= n,
                n == all,
                out@.len() == old(out)@.len(),
                forall|b: int|
                    0 <= b < out@.len() ==> #[trigger] out@[b] == if to <= b < to + written {
                        self@[offset + b - to]
                    } else {
                        old(out)@[b]
                    },
                written == count ==> chunks_before(chunks, index as int, end as int) == 0,
            decreases n - index,
        {
            let chunk = self.chunks[index];
            proof {
                assert(self.starts@[index as int] == chunk_start(chunks, index as int));
                assert(chunk_start(chunks, index + 1) == chunk_start(chunks, index as int)
                    + chunk@.len());
                joined_grows(chunks, index as int, n);
                joined_grows(chunks, index + 1, n);
            }
            let within: usize = (cursor - self.starts[index]) as usize;
            let left: usize = chunk.len() - within;
            let take: usize = if left < count - written {
                left
            } else {
                count - written
            };
            let ghost before = out@;
            copy_bytes(out, to + written, chunk, within, take);
            proof {
                let whole = joined(chunks, n);
                let upto = joined(chunks, index + 1);
                assert forall|b: int| 0 <= b < out@.len() implies #[trigger] out@[b] == if to <= b
                    < to + written + take {
                    self@[offset + b - to]
                } else {
                    old(out)@[b]
                } by {
                    if to + written <= b < to + written + take {
                        let x = b - to - written;
                        assert(out@[b] == chunk@[within + x]);
                        assert(upto[cursor + x] == chunk@[within + x]);
                        assert(whole.take(upto.len() as int)[cursor + x] == whole[cursor + x]);
                    } else {
                        assert(out@[b] == before[b]);
                    }
                }
            }
            written = written + take;
            cursor = cursor + take as u64;
            touched = touched + 1;
            index = index + 1;
            proof {
                if written < count {
                    assert(cursor == chunk_start(chunks, index as int));
                    if index == n {
                        assert(self@.len() == chunk_start(chunks, n));
                    }
                    assert(index < n);
                    joined_grows(chunks, index as int, index + 1);
                } else {
                    assert(chunk_start(chunks, index as int) >= end);
                }
            }
        }
        touched
    }
}

proof fn chunk_at_is(chunks: Seq<&[u8]>, from: int, index: int, offset: int)
    requires
        0 <= from <= index < chunks.len(),
        chunk_start(chunks, index) <= offset,
        index + 1 < chunks.len() ==> chunk_start(chunks, index + 1) > offset,
    ensures
        chunk_at(chunks, from, offset) == index,
    decreases index - from,
{
    if from < index {
        joined_grows(chunks, from + 1, index);
        chunk_at_is(chunks, from + 1, index, offset);
    }
}

proof fn chunks_before_bound(chunks: Seq<&[u8]>, index: int, end: int)
    requires
        0 <= index <= chunks.len(),
    ensures
        chunks_before(chunks, index, end) <= chunks.len() - index,
    decreases chunks.len() - index,
{
    if index < chunks.len() && chunk_start(chunks, index) < end {
        chunks_before_bound(chunks, index + 1, end);
    }
}

// ---------------------------------------------------------------------------
// Filling
// ---------------------------------------------------------------------------

/// What one tensor's fill is: the arrangement the destination wants, the
/// source's logical shape, its element size, and where it lands.
#[derive(Clone, Debug)]
pub struct TensorFill<'a> {
    pub layout: &'a LayoutMorphism,
    pub shape: Vec<u64>,
    pub element_bytes: usize,
    pub device_offset: u64,
}

/// What a fill did.
#[derive(Clone, Copy, Debug, PartialEq, Eq, Structural)]
pub struct FillStats {
    /// Source bytes read out of the chunks.
    pub source_bytes: u64,
    /// Bytes written to the destination, more than `source_bytes` exactly when
    /// the arrangement pads.
    pub destination_bytes: u64,
    /// Zero-filled padding bytes.
    pub padding_bytes: u64,
    /// Contiguous runs the arrangement decomposed into.
    pub runs: u64,
    /// Source chunks touched.
    pub chunks: u64,
}

impl Default for FillStats {
    fn default() -> (stats: Self)
        ensures
            stats == (FillStats {
                source_bytes: 0,
                destination_bytes: 0,
                padding_bytes: 0,
                runs: 0,
                chunks: 0,
            }),
    {
        FillStats { source_bytes: 0, destination_bytes: 0, padding_bytes: 0, runs: 0, chunks: 0 }
    }
}

/// The padding bytes of the first `upto` runs.
pub open spec fn padding_upto(plan: PlanModel, element: nat, upto: int) -> nat
    decreases upto,
{
    if upto <= 0 {
        0
    } else {
        padding_upto(plan, element, upto - 1) + if plan.source_of(
            (upto - 1) * plan.run_length(),
        ) is None {
            plan.run_length() * element
        } else {
            0
        }
    }
}

/// The chunks that the first `upto` runs touch.
pub open spec fn touched_upto(plan: PlanModel, chunks: Seq<&[u8]>, element: nat, upto: int) -> nat
    decreases upto,
{
    if upto <= 0 {
        0
    } else {
        touched_upto(plan, chunks, element, upto - 1) + match plan.source_of(
            (upto - 1) * plan.run_length(),
        ) {
            Some(from) => chunks_touched(
                chunks,
                from * element,
                (plan.run_length() * element) as int,
            ),
            None => 0,
        }
    }
}

/// What a fill reports.
pub open spec fn stats_of(plan: PlanModel, chunks: Seq<&[u8]>, element: nat) -> FillStats {
    let runs = plan.run_total() as int;
    FillStats {
        source_bytes: (plan.source_elements() * element) as u64,
        destination_bytes: (plan.dest_elements() * element) as u64,
        padding_bytes: padding_upto(plan, element, runs) as u64,
        runs: plan.run_total() as u64,
        chunks: if chunks.len() == 1 {
            1
        } else {
            touched_upto(plan, chunks, element, runs) as u64
        },
    }
}

/// Why a fill is refused before the sink is asked.
pub open spec fn fill_error(tensor: TensorFill<'_>, source: Seq<u8>) -> Option<ErrorModel> {
    let layout = *tensor.layout;
    if layout.candidate {
        Some(ErrorModel::Candidate { handle: handle_text(layout) })
    } else if tensor.element_bytes == 0 {
        Some(ErrorModel::Buffer { got: 0, want: 1 })
    } else {
        match planned(layout, tensor.shape@) {
            Planning::Ready(plan) => {
                let want = plan.source_elements() * tensor.element_bytes as nat;
                if source.len() != want {
                    Some(ErrorModel::Buffer { got: source.len() as usize, want: want as usize })
                } else {
                    None
                }
            },
            Planning::Refused(error) => Some(error),
            Planning::TooLarge => None,
        }
    }
}

/// A fill that can be carried out: a structured record, and nothing in its plan
/// leaves 64 bits or the address space.
pub open spec fn fillable(tensor: TensorFill<'_>, source: Seq<u8>, chunks: nat) -> bool {
    let layout = *tensor.layout;
    &&& structured(layout)
    &&& source.len() <= usize::MAX
    &&& !(planned(layout, tensor.shape@) is TooLarge)
    &&& planned(layout, tensor.shape@) matches Planning::Ready(plan) ==> {
        &&& addressable(plan, tensor.element_bytes as nat)
        &&& plan.run_total() * chunks <= u64::MAX
    }
}

proof fn padding_is_bounded(plan: PlanModel, element: nat, upto: int)
    requires
        plan.sound(),
        0 <= upto <= plan.run_total(),
    ensures
        padding_upto(plan, element, upto) <= upto * plan.run_length() * element,
        upto * plan.run_length() * element <= plan.dest_elements() * element,
    decreases upto,
{
    let run = plan.run_length() as int;
    let e = element as int;
    plan.runs_tile();
    assert(upto * run * e <= plan.run_total() * run * e) by (nonlinear_arith)
        requires
            0 <= upto <= plan.run_total(),
            0 <= run,
            0 <= e,
    ;
    if upto > 0 {
        padding_is_bounded(plan, element, upto - 1);
        assert((upto - 1) * run * e + run * e == upto * run * e) by (nonlinear_arith);
        assert(0 <= run * e) by (nonlinear_arith)
            requires
                0 <= run,
                0 <= e,
        ;
    }
}

/// The bytes of one run through the chunks.
#[verifier::loop_isolation(false)]
fn fill_runs(
    plan: &Plan,
    source: &ChunkedSource<'_>,
    staging: &mut [u8],
    element: usize,
) -> (counts: (u64, u64, u64))
    requires
        plan.wf(),
        source.wf(),
        0 < element,
        addressable(plan@, element as nat),
        source@.len() == plan@.source_elements() * element,
        old(staging)@.len() >= plan@.dest_elements() * element,
        plan@.run_total() * source.chunks().len() <= u64::MAX,
    ensures
        final(staging)@.len() == old(staging)@.len(),
        final(staging)@ == arranged_bytes(plan@, source@, element as nat) + old(staging)@.skip(
            (plan@.dest_elements() * element) as int,
        ),
        counts.0 == plan@.run_total(),
        counts.1 == padding_upto(plan@, element as nat, plan@.run_total() as int),
        counts.2 == touched_upto(
            plan@,
            source.chunks(),
            element as nat,
            plan@.run_total() as int,
        ),
{
    let ghost m = plan@;
    let ghost e = element as int;
    let ghost chunks = source.chunks();
    let ghost expected = arranged_bytes(m, source@, element as nat);
    let mut count: u64 = 0;
    let mut padding: u64 = 0;
    let mut touched: u64 = 0;
    let mut runs = Runs::new(plan);
    proof {
        m.runs_tile();
        assert(0 * m.run_length() * e == 0) by (nonlinear_arith);
    }
    while runs.more()
        invariant
            runs.wf(),
            runs.model() == m,
            staging@.len() == old(staging)@.len(),
            count == runs.given(),
            padding == padding_upto(m, element as nat, count as int),
            touched == touched_upto(m, chunks, element as nat, count as int),
            touched <= count * chunks.len(),
            runs.given() <= m.run_total(),
            forall|b: int|
                0 <= b < count * m.run_length() * e ==> #[trigger] staging@[b] == expected[b],
            forall|b: int|
                m.dest_elements() * e <= b < staging@.len() ==> #[trigger] staging@[b] == old(
                    staging,
                )@[b],
        decreases m.run_total() - runs.given(),
    {
        let ghost k = count as int;
        let ghost length = m.run_length() as int;
        let ghost base = k * length;
        let run = runs.advance();
        let ghost before = staging@;
        proof {
            run_lies_inside(m, k, element as nat);
            padding_is_bounded(m, element as nat, k + 1);
            assert(base * e + length * e == (base + length) * e) by (nonlinear_arith);
            assert(0 <= base) by (nonlinear_arith)
                requires
                    base == k * length,
                    0 <= k,
                    0 <= length,
            ;
            addressable_part(base, base + length, e, usize::MAX as int);
            assert((k + 1) * length * e == (base + length) * e) by (nonlinear_arith)
                requires
                    base == k * length,
            ;
            assert((k + 1) * chunks.len() <= m.run_total() * chunks.len()) by (nonlinear_arith)
                requires
                    k + 1 <= m.run_total(),
                    0 <= chunks.len(),
            ;
            assert((k + 1) * chunks.len() == k * chunks.len() + chunks.len()) by (nonlinear_arith);
        }
        let at: usize = run.to as usize * element;
        let bytes: usize = run.length as usize * element;
        match run.from {
            Some(index) => {
                proof {
                    let from = m.source_of(base).unwrap();
                    assert(from * e + length * e == (from + length) * e) by (nonlinear_arith);
                    addressable_part(from, from + length, e, usize::MAX as int);
                }
                let reached = source.read_at(
                    (index as usize * element) as u64,
                    staging,
                    at,
                    bytes,
                );
                touched = touched + reached;
            },
            None => {
                clear_bytes(staging, at, bytes);
                padding = padding + bytes as u64;
            },
        }
        proof {
            assert forall|b: int| 0 <= b < (k + 1) * length * e implies #[trigger] staging@[b]
                == expected[b] by {
                if b < at {
                    assert(staging@[b] == before[b]);
                } else {
                    arranged_run(m, source@, element as nat, k, b - at);
                }
            }
        }
        count = count + 1;
    }
    assert(staging@ =~= expected + old(staging)@.skip(m.dest_elements() * e));
    (count, padding, touched)
}

/// A sink between staging and commit: the arranged tensor stands at the front of
/// the staging it handed out, and the rest of the staging is as it was.
pub open spec fn primed<S: FillSink>(
    between: S,
    handed: Seq<u8>,
    before: S,
    offset: u64,
    arranged: Seq<u8>,
) -> bool {
    &&& handed.len() >= arranged.len()
    &&& between.staged(
        &before,
        arranged.len() as usize,
        offset,
        handed,
        arranged + handed.skip(arranged.len() as int),
    )
}

/// What handing `arranged` to the sink `before`, for `offset`, comes to: staged
/// once and committed once, or the error of the step that the sink refused.
pub open spec fn delivered<S: FillSink>(
    before: S,
    after: S,
    offset: u64,
    arranged: Seq<u8>,
    refusal: Option<ErrorModel>,
) -> bool {
    match refusal {
        None => exists|between: S, handed: Seq<u8>|
            #[trigger] primed(between, handed, before, offset, arranged) && after.committed(
                &between,
            ),
        Some(error) => after.refused(&before, arranged.len() as usize, offset, error) || exists|
            between: S,
            handed: Seq<u8>,
        | #[trigger]
            primed(between, handed, before, offset, arranged) && after.uncommitted(
                &between,
                error,
            ),
    }
}

/// What a fill of a sink from the chunks of a source comes to.
pub open spec fn filled<S: FillSink>(
    tensor: TensorFill<'_>,
    chunks: Seq<&[u8]>,
    source: Seq<u8>,
    before: S,
    after: S,
    outcome: Result<FillStats, ErrorModel>,
) -> bool {
    match fill_error(tensor, source) {
        Some(error) => after == before && outcome == Err::<FillStats, ErrorModel>(error),
        None => {
            &&& delivered(
                before,
                after,
                tensor.device_offset,
                fill_bytes(tensor, source),
                match outcome {
                    Ok(_) => None,
                    Err(error) => Some(error),
                },
            )
            &&& outcome matches Ok(stats) ==> stats == stats_of(
                planned(*tensor.layout, tensor.shape@)->Ready_0,
                chunks,
                tensor.element_bytes as nat,
            )
        },
    }
}

/// The arranged tensor of a fill that nothing speaks against.
pub open spec fn fill_bytes(tensor: TensorFill<'_>, source: Seq<u8>) -> Seq<u8> {
    arranged_bytes(
        planned(*tensor.layout, tensor.shape@)->Ready_0,
        source,
        tensor.element_bytes as nat,
    )
}

/// Fills one tensor: reads its chunks, applies the arrangement, hands the result
/// to the sink.
///
/// A sink may refuse the staging or the commit; its error is handed on.
pub fn fill<S: FillSink>(source: &ChunkedSource<'_>, tensor: &TensorFill<'_>, sink: &mut S) -> (stats:
    Result<FillStats, LayoutError>)
    requires
        source.wf(),
        fillable(*tensor, source@, source.chunks().len()),
    ensures
        filled(
            *tensor,
            source.chunks(),
            source@,
            *old(sink),
            *final(sink),
            match stats {
                Ok(s) => Ok(s),
                Err(e) => Err(e@),
            },
        ),
{
    let ghost before = *old(sink);
    let ghost arranged = fill_bytes(*tensor, source@);
    tensor.layout.ensure_ratified()?;
    if tensor.element_bytes == 0 {
        return Err(LayoutError::Buffer { got: 0, want: 1 });
    }
    let plan: Plan = tensor.layout.plan(&tensor.shape)?;
    let element: usize = tensor.element_bytes;
    let ghost m = plan@;
    proof {
        at_least(m.source_elements(), element as nat);
        at_least(m.dest_elements(), element as nat);
    }
    let want_source: usize = plan.source_elements() as usize * element;
    if source.len() != want_source as u64 {
        return Err(LayoutError::Buffer { got: source.len() as usize, want: want_source });
    }
    let destination_bytes: usize = plan.dest_elements() as usize * element;
    let staging = sink.staging(destination_bytes, tensor.device_offset)?;
    let ghost handed = staging@;
    let (runs, padding_bytes, touched) = fill_runs(&plan, source, staging, element);
    assert(primed(*sink, handed, before, tensor.device_offset, arranged));
    let chunks: u64 = if source.contiguous().is_some() {
        1
    } else {
        touched
    };
    sink.commit()?;
    Ok(
        FillStats {
            source_bytes: want_source as u64,
            destination_bytes: destination_bytes as u64,
            padding_bytes,
            runs,
            chunks,
        },
    )
}

} // verus!
