//! Reading a committed file's records into memory.
//!
//! Which bytes of a read come from which object, and which are zeros, is
//! decided here, and so is how a read past the page cache is aligned. The
//! driver of a read fetches the bytes.

use crate::object::ObjectDigest;
use crate::tfm1::{record_models, record_sum, record_sum_grows, run_length, FileRecord, RecordModel};
use vstd::prelude::*;

verus! {

/// What reads past the page cache are aligned to: one page.
pub const DIRECT_ALIGNMENT: usize = 4096;

/// The size of the buffer that unaligned reads past the page cache go through.
pub const BOUNCE_BYTES: usize = 8388608;

/// How objects are read.
#[derive(Clone, Copy, Debug, PartialEq, Eq, Structural)]
pub enum ReadMode {
    Buffered,
    Direct,
}

/// Why a read is refused.
#[derive(Clone, Copy, Debug, PartialEq, Eq, Structural)]
pub enum ReadRefusal {
    /// The platform cannot read past the page cache.
    Unsupported,
    /// The end of the range does not fit in 64 bits.
    Overflow,
    /// The range ends behind the file.
    PastEnd,
}

/// One piece of a read: `length` bytes of the destination from `at` on.
#[derive(Clone, Copy, Debug)]
pub enum ReadPiece {
    /// Zeros.
    Zeros { at: usize, length: usize },
    /// The bytes of an object from `within` on.
    Object { at: usize, length: usize, digest: ObjectDigest, within: u64 },
}

/// The value of a [`ReadPiece`].
pub enum PieceModel {
    Zeros { at: int, length: int },
    Object { at: int, length: int, digest: Seq<u8>, within: int },
}

impl View for ReadPiece {
    type V = PieceModel;

    open spec fn view(&self) -> PieceModel {
        match self {
            ReadPiece::Zeros { at, length } => PieceModel::Zeros {
                at: *at as int,
                length: *length as int,
            },
            ReadPiece::Object { at, length, digest, within } => PieceModel::Object {
                at: *at as int,
                length: *length as int,
                digest: digest@,
                within: *within as int,
            },
        }
    }
}

pub open spec fn piece_models(pieces: Seq<ReadPiece>) -> Seq<PieceModel> {
    pieces.map_values(|piece: ReadPiece| piece@)
}

pub open spec fn larger(a: int, b: int) -> int {
    if a < b {
        b
    } else {
        a
    }
}

pub open spec fn smaller(a: int, b: int) -> int {
    if a < b {
        a
    } else {
        b
    }
}

/// What record `i` gives to a read of the bytes from `offset` to `end`.
pub open spec fn piece_of(records: Seq<RecordModel>, i: int, offset: int, end: int) -> PieceModel {
    let start = record_sum(records, i);
    let from = larger(offset, start as int);
    let to = smaller(end, record_sum(records, i + 1) as int);
    match records[i] {
        RecordModel::Hole { .. } => PieceModel::Zeros { at: from - offset, length: to - from },
        RecordModel::Data { digest, .. } => PieceModel::Object {
            at: from - offset,
            length: to - from,
            digest,
            within: from - start,
        },
    }
}

/// The pieces of a read that the records from `i` on give.
pub open spec fn pieces_from(records: Seq<RecordModel>, i: int, offset: int, end: int) -> Seq<PieceModel>
    decreases records.len() - i,
{
    if i >= records.len() || record_sum(records, i) >= end && record_sum(records, i + 1) > offset {
        Seq::empty()
    } else if record_sum(records, i + 1) <= offset {
        pieces_from(records, i + 1, offset, end)
    } else {
        seq![piece_of(records, i, offset, end)] + pieces_from(records, i + 1, offset, end)
    }
}

/// The pieces of a read, or why it is refused.
pub open spec fn read_of(records: Seq<RecordModel>, offset: u64, length: nat) -> Result<
    Seq<PieceModel>,
    ReadRefusal,
> {
    if offset + length > u64::MAX {
        Err(ReadRefusal::Overflow)
    } else if offset + length > run_length(records) {
        Err(ReadRefusal::PastEnd)
    } else {
        Ok(pieces_from(records, 0, offset as int, offset + length))
    }
}

/// A committed file's records, readable at any offset.
#[derive(Debug, PartialEq, Eq)]
pub struct StreamReader {
    records: Vec<FileRecord>,
    length: u64,
    mode: ReadMode,
}

impl StreamReader {
    /// The records.
    pub closed spec fn run(&self) -> Seq<RecordModel> {
        record_models(self.records@)
    }

    pub closed spec fn how(&self) -> ReadMode {
        self.mode
    }

    /// The length is that of the records.
    pub closed spec fn sound(&self) -> bool {
        run_length(record_models(self.records@)) == self.length
    }

    /// A reader of one record run. A mode that the platform cannot honor is
    /// refused.
    pub fn new(records: &[FileRecord], mode: ReadMode, direct_supported: bool) -> (outcome: Result<
        StreamReader,
        ReadRefusal,
    >)
        requires
            run_length(record_models(records@)) <= u64::MAX,
        ensures
            match outcome {
                Ok(reader) => reader.sound() && reader.run() == record_models(records@) && reader.how()
                    == mode && (mode == ReadMode::Direct ==> direct_supported),
                Err(e) => e == ReadRefusal::Unsupported && mode == ReadMode::Direct
                    && !direct_supported,
            },
    {
        if mode == ReadMode::Direct && !direct_supported {
            return Err(ReadRefusal::Unsupported);
        }
        let ghost models = record_models(records@);
        let mut length: u64 = 0;
        let mut at: usize = 0;
        while at < records.len()
            invariant
                at <= records@.len(),
                models == record_models(records@),
                run_length(models) <= u64::MAX,
                length == record_sum(models, at as int),
            decreases records@.len() - at,
        {
            proof {
                record_sum_grows(models, at + 1, models.len() as int);
                assert(models[at as int] == records@[at as int]@);
            }
            length = length + records[at].length();
            at += 1;
        }
        Ok(StreamReader { records: vstd::slice::slice_to_vec(records), length, mode })
    }

    pub fn mode(&self) -> (mode: ReadMode)
        ensures
            mode == self.how(),
    {
        self.mode
    }

    pub fn length(&self) -> (length: u64)
        requires
            self.sound(),
        ensures
            length == run_length(self.run()),
    {
        self.length
    }

    /// The pieces of a read of exactly `length` bytes from `offset` on. Holes
    /// read as zeros; a range past the end is refused.
    pub fn read_exact_at(&self, offset: u64, length: usize) -> (outcome: Result<
        Vec<ReadPiece>,
        ReadRefusal,
    >)
        requires
            self.sound(),
        ensures
            match outcome {
                Ok(pieces) => read_of(self.run(), offset, length as nat) == Ok::<
                    Seq<PieceModel>,
                    ReadRefusal,
                >(piece_models(pieces@)),
                Err(e) => read_of(self.run(), offset, length as nat) == Err::<
                    Seq<PieceModel>,
                    ReadRefusal,
                >(e),
            },
    {
        if length as u64 > u64::MAX - offset {
            return Err(ReadRefusal::Overflow);
        }
        let end: u64 = offset + length as u64;
        if end > self.length {
            return Err(ReadRefusal::PastEnd);
        }
        let ghost models = record_models(self.records@);
        let ghost whole = pieces_from(models, 0, offset as int, end as int);
        let mut pieces: Vec<ReadPiece> = Vec::new();
        let mut start: u64 = 0;
        let mut at: usize = 0;
        assert(piece_models(pieces@) + whole =~= whole);
        while at < self.records.len()
            invariant
                at <= self.records@.len(),
                models == record_models(self.records@),
                run_length(models) == self.length,
                end == offset + length,
                start == record_sum(models, at as int),
                whole == pieces_from(models, 0, offset as int, end as int),
                whole == piece_models(pieces@) + pieces_from(models, at as int, offset as int, end as int),
                self.run() == models,
                end <= self.length,
            decreases self.records@.len() - at,
        {
            let ghost before = piece_models(pieces@);
            let record = self.records[at];
            proof {
                record_sum_grows(models, at + 1, models.len() as int);
                assert(models[at as int] == record@);
            }
            let stop: u64 = start + record.length();
            if stop > offset {
                if start >= end {
                    assert(before + Seq::<PieceModel>::empty() =~= before);
                    return Ok(pieces);
                }
                let from: u64 = if offset < start {
                    start
                } else {
                    offset
                };
                let to: u64 = if end < stop {
                    end
                } else {
                    stop
                };
                let place: usize = (from - offset) as usize;
                let size: usize = (to - from) as usize;
                let piece = match record {
                    FileRecord::Hole { .. } => ReadPiece::Zeros { at: place, length: size },
                    FileRecord::Data { digest, .. } => ReadPiece::Object {
                        at: place,
                        length: size,
                        digest,
                        within: from - start,
                    },
                };
                pieces.push(piece);
                proof {
                    let rest = pieces_from(models, at + 1, offset as int, end as int);
                    assert(piece@ == piece_of(models, at as int, offset as int, end as int));
                    assert(piece_models(pieces@) =~= before.push(piece@));
                    assert(before + (seq![piece@] + rest) =~= before.push(piece@) + rest);
                }
            }
            start = stop;
            at += 1;
        }
        assert(piece_models(pieces@) + Seq::<PieceModel>::empty() =~= piece_models(pieces@));
        Ok(pieces)
    }
}

// ---------------------------------------------------------------------------
// What a read gives
// ---------------------------------------------------------------------------

impl PieceModel {
    pub open spec fn at(self) -> int {
        match self {
            PieceModel::Zeros { at, .. } => at,
            PieceModel::Object { at, .. } => at,
        }
    }

    pub open spec fn length(self) -> int {
        match self {
            PieceModel::Zeros { length, .. } => length,
            PieceModel::Object { length, .. } => length,
        }
    }

    /// The byte that a piece gives to place `d` of the destination, where
    /// `objects` tells the bytes of each object.
    pub open spec fn byte(self, objects: spec_fn(Seq<u8>) -> Seq<u8>, d: int) -> u8 {
        match self {
            PieceModel::Zeros { .. } => 0,
            PieceModel::Object { at, digest, within, .. } => objects(digest)[within + d - at],
        }
    }
}

/// The byte that record `i` holds at byte `position` of the file.
pub open spec fn record_byte(
    records: Seq<RecordModel>,
    i: int,
    objects: spec_fn(Seq<u8>) -> Seq<u8>,
    position: int,
) -> u8 {
    match records[i] {
        RecordModel::Hole { .. } => 0,
        RecordModel::Data { digest, .. } => objects(digest)[position - record_sum(records, i)],
    }
}

proof fn piece_covers(
    records: Seq<RecordModel>,
    i: int,
    offset: int,
    end: int,
    objects: spec_fn(Seq<u8>) -> Seq<u8>,
    at: int,
    position: int,
) -> (k: int)
    requires
        0 <= i <= at < records.len(),
        0 <= offset <= position < end,
        record_sum(records, at) <= position < record_sum(records, at + 1),
    ensures
        ({
            let pieces = pieces_from(records, i, offset, end);
            &&& 0 <= k < pieces.len()
            &&& pieces[k].at() <= position - offset < pieces[k].at() + pieces[k].length()
            &&& pieces[k].byte(objects, position - offset) == record_byte(records, at, objects, position)
        }),
    decreases records.len() - i,
{
    let pieces = pieces_from(records, i, offset, end);
    record_sum_grows(records, i, at);
    record_sum_grows(records, i + 1, at + 1);
    if i == at {
        assert(pieces[0] == piece_of(records, i, offset, end));
        0
    } else {
        let k = piece_covers(records, i + 1, offset, end, objects, at, position);
        if record_sum(records, i + 1) <= offset {
            k
        } else {
            assert(pieces[k + 1] == pieces_from(records, i + 1, offset, end)[k]);
            k + 1
        }
    }
}

proof fn record_holding(records: Seq<RecordModel>, position: int, upto: int) -> (at: int)
    requires
        0 <= position < record_sum(records, upto),
        0 <= upto <= records.len(),
    ensures
        0 <= at < upto,
        record_sum(records, at) <= position < record_sum(records, at + 1),
    decreases upto,
{
    if position < record_sum(records, upto - 1) {
        record_holding(records, position, upto - 1)
    } else {
        upto - 1
    }
}

/// Every byte of an accepted read is given by a piece, and it is the file's:
/// the object's byte in a data record, zero in a hole.
pub proof fn a_read_gives_the_files_bytes(
    records: Seq<RecordModel>,
    offset: u64,
    length: nat,
    objects: spec_fn(Seq<u8>) -> Seq<u8>,
    d: int,
) -> (found: (int, int))
    requires
        read_of(records, offset, length) is Ok,
        0 <= d < length,
    ensures
        ({
            let pieces = read_of(records, offset, length)->Ok_0;
            let (k, i) = found;
            &&& 0 <= i < records.len()
            &&& record_sum(records, i) <= offset + d < record_sum(records, i + 1)
            &&& 0 <= k < pieces.len()
            &&& pieces[k].at() <= d < pieces[k].at() + pieces[k].length()
            &&& pieces[k].byte(objects, d) == record_byte(records, i, objects, offset + d)
        }),
{
    let i = record_holding(records, offset + d, records.len() as int);
    let k = piece_covers(records, 0, offset as int, offset + length, objects, i, offset + d);
    (k, i)
}

// ---------------------------------------------------------------------------
// Reading past the page cache
// ---------------------------------------------------------------------------

/// One read through the aligned buffer: `read` bytes of the object from
/// `start` on; `want` of them, behind the first `skip`, are wanted.
#[derive(Clone, Copy, Debug, PartialEq, Eq, Structural)]
pub struct BounceStep {
    pub start: u64,
    pub skip: usize,
    pub want: usize,
    pub read: usize,
}

/// The next read through the aligned buffer, where `left` bytes from `cursor`
/// on are still wanted. It starts on a page, reads whole pages, and holds at
/// least one wanted byte, all of them if they fit the buffer.
pub fn bounce_step(cursor: u64, left: usize) -> (step: BounceStep)
    requires
        left > 0,
    ensures
        step.start as int % DIRECT_ALIGNMENT as int == 0,
        step.start + step.skip == cursor,
        step.skip < DIRECT_ALIGNMENT,
        step.read as int % DIRECT_ALIGNMENT as int == 0,
        step.skip + step.want <= step.read <= BOUNCE_BYTES,
        step.want == smaller(left as int, BOUNCE_BYTES - step.skip),
        step.want > 0,
        step.read < step.skip + step.want + DIRECT_ALIGNMENT,
{
    let skip: usize = (cursor % (DIRECT_ALIGNMENT as u64)) as usize;
    let start: u64 = cursor - skip as u64;
    let room: usize = BOUNCE_BYTES - skip;
    let want: usize = if left < room {
        left
    } else {
        room
    };
    let need: usize = skip + want;
    let over: usize = need % DIRECT_ALIGNMENT;
    let read: usize = if over == 0 {
        need
    } else {
        need + (DIRECT_ALIGNMENT - over)
    };
    assert(start as int % 4096 == 0) by (nonlinear_arith)
        requires
            start == cursor - cursor as int % 4096,
    ;
    assert(read as int % 4096 == 0 && read <= 8388608) by (nonlinear_arith)
        requires
            need <= 8388608,
            over == need as int % 4096,
            read == (if over == 0 {
                need as int
            } else {
                need + (4096 - over)
            }),
    ;
    BounceStep { start, skip, want, read }
}

/// How much of an aligned read goes straight to the destination: whole pages.
pub fn direct_body(length: usize) -> (body: usize)
    ensures
        body as int % DIRECT_ALIGNMENT as int == 0,
        body <= length < body + DIRECT_ALIGNMENT,
{
    let body: usize = length - length % DIRECT_ALIGNMENT;
    assert(body as int % 4096 == 0) by (nonlinear_arith)
        requires
            body == length - length as int % 4096,
    ;
    body
}

} // verus!
