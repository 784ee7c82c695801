//! TFP1: the canonical upload-staging envelope.
//!
//! One pack carries one or more whole objects behind a sorted
//! `(digest, payload_offset, length)` index, so that a receiver can verify and
//! admit each object without holding more than one. A pack bounds the number of
//! upload requests and nothing else: it takes no part in the identity of a
//! snapshot or a file, and is never kept as a storage format.

use crate::object::ObjectDigest;
use crate::planner::MAX_OBJECT_SIZE;
use crate::sort::{
    all_are_taken, byte_strings, distinct_keys_order, one_rising_order, picked, picked_sum,
    picked_sum_is_range_sum, range_sum, rising_order, rising_order_is_distinct,
    rising_order_of_shuffled, shuffled_keys_are_distinct, shuffles, sort_distinct,
};
use crate::text::{array_of_32, bytes_before, bytes_less, bytes_less_irreflexive, same_bytes};
use crate::trusted::{sha256, sha256_digest};
use crate::wire::{
    le_bytes, push_bytes, push_le, read_le, stands_at, stands_split, stands_u64, u64_at,
};
use vstd::prelude::*;
use vstd::slice::slice_subrange;

verus! {

/// The payload bound of one pack, the same as the bound of one object.
pub const MAX_PACK_PAYLOAD: u64 = MAX_OBJECT_SIZE;

/// The bound on the objects of one pack.
pub const MAX_PACK_OBJECTS: usize = 1000000;

/// The width of one index row.
pub const ROW_BYTES: usize = 48;

/// The width of the magic and the count.
pub const HEAD_BYTES: usize = 12;

/// Why bytes are no pack, or objects make none.
#[derive(Clone, Copy, Debug, PartialEq, Eq, Structural)]
pub enum Tfp1Error {
    Truncated,
    BadMagic,
    ZeroObjects,
    ObjectLimit,
    CountExceedsInput,
    IndexOrder,
    DuplicateDigest,
    ZeroLengthObject,
    ObjectTooLarge,
    PayloadTooLarge,
    OffsetMismatch,
    TrailingBytes,
    DigestMismatch,
}

/// The stable label of an error.
pub open spec fn label(error: Tfp1Error) -> Seq<char> {
    match error {
        Tfp1Error::Truncated => "truncated"@,
        Tfp1Error::BadMagic => "bad-magic"@,
        Tfp1Error::ZeroObjects => "zero-objects"@,
        Tfp1Error::ObjectLimit => "object-limit"@,
        Tfp1Error::CountExceedsInput => "count-exceeds-input"@,
        Tfp1Error::IndexOrder => "index-order"@,
        Tfp1Error::DuplicateDigest => "duplicate-digest"@,
        Tfp1Error::ZeroLengthObject => "zero-length-object"@,
        Tfp1Error::ObjectTooLarge => "object-too-large"@,
        Tfp1Error::PayloadTooLarge => "payload-too-large"@,
        Tfp1Error::OffsetMismatch => "offset-mismatch"@,
        Tfp1Error::TrailingBytes => "trailing-bytes"@,
        Tfp1Error::DigestMismatch => "digest-mismatch"@,
    }
}

impl Tfp1Error {
    /// The stable label, in kebab case.
    pub fn reason(&self) -> (reason: &'static str)
        ensures
            reason@ == label(*self),
    {
        match self {
            Tfp1Error::Truncated => "truncated",
            Tfp1Error::BadMagic => "bad-magic",
            Tfp1Error::ZeroObjects => "zero-objects",
            Tfp1Error::ObjectLimit => "object-limit",
            Tfp1Error::CountExceedsInput => "count-exceeds-input",
            Tfp1Error::IndexOrder => "index-order",
            Tfp1Error::DuplicateDigest => "duplicate-digest",
            Tfp1Error::ZeroLengthObject => "zero-length-object",
            Tfp1Error::ObjectTooLarge => "object-too-large",
            Tfp1Error::PayloadTooLarge => "payload-too-large",
            Tfp1Error::OffsetMismatch => "offset-mismatch",
            Tfp1Error::TrailingBytes => "trailing-bytes",
            Tfp1Error::DigestMismatch => "digest-mismatch",
        }
    }
}

// ---------------------------------------------------------------------------
// The encoding
// ---------------------------------------------------------------------------

/// A digest and the bytes it names.
pub type Piece = (Seq<u8>, Seq<u8>);

/// The bytes `TFP1`.
pub open spec fn magic() -> Seq<u8> {
    seq![0x54u8, 0x46u8, 0x50u8, 0x31u8]
}

/// The summed length of the first `upto` objects.
pub open spec fn payload_length(pieces: Seq<Piece>, upto: int) -> nat
    decreases upto,
{
    if upto <= 0 {
        0
    } else {
        payload_length(pieces, upto - 1) + pieces[upto - 1].1.len()
    }
}

/// One index row: the digest, the offset in the payload, the length.
pub open spec fn row_bytes(pieces: Seq<Piece>, i: int) -> Seq<u8> {
    pieces[i].0 + le_bytes(payload_length(pieces, i), 8) + le_bytes(pieces[i].1.len(), 8)
}

/// The index rows of the first `upto` objects.
pub open spec fn index_bytes(pieces: Seq<Piece>, upto: int) -> Seq<u8>
    decreases upto,
{
    if upto <= 0 {
        Seq::empty()
    } else {
        index_bytes(pieces, upto - 1) + row_bytes(pieces, upto - 1)
    }
}

/// The payload of the first `upto` objects.
pub open spec fn payload_bytes(pieces: Seq<Piece>, upto: int) -> Seq<u8>
    decreases upto,
{
    if upto <= 0 {
        Seq::empty()
    } else {
        payload_bytes(pieces, upto - 1) + pieces[upto - 1].1
    }
}

/// The bytes of a pack.
pub open spec fn pack_bytes(pieces: Seq<Piece>) -> Seq<u8> {
    let n = pieces.len() as int;
    magic() + le_bytes(pieces.len(), 8) + index_bytes(pieces, n) + payload_bytes(pieces, n)
}

// ---------------------------------------------------------------------------
// Parsing
// ---------------------------------------------------------------------------

/// Where the `i`th index row stands.
pub open spec fn row_start(i: int) -> int {
    HEAD_BYTES + ROW_BYTES * i
}

/// The digest of the `i`th index row.
pub open spec fn row_digest(b: Seq<u8>, i: int) -> Seq<u8> {
    b.subrange(row_start(i), row_start(i) + 32)
}

/// The offset that the `i`th index row declares.
pub open spec fn row_offset(b: Seq<u8>, i: int) -> u64 {
    u64_at(b, row_start(i) + 32)
}

/// The length that the `i`th index row declares.
pub open spec fn row_length(b: Seq<u8>, i: int) -> u64 {
    u64_at(b, row_start(i) + 40)
}

/// The summed lengths of the first `upto` index rows.
pub open spec fn row_sum(b: Seq<u8>, upto: int) -> nat
    decreases upto,
{
    if upto <= 0 {
        0
    } else {
        row_sum(b, upto - 1) + row_length(b, upto - 1) as nat
    }
}

/// The first rule that the `i`th index row breaks.
pub open spec fn row_error(b: Seq<u8>, i: int) -> Option<Tfp1Error> {
    if row_length(b, i) == 0 {
        Some(Tfp1Error::ZeroLengthObject)
    } else if row_length(b, i) > MAX_OBJECT_SIZE {
        Some(Tfp1Error::ObjectTooLarge)
    } else if row_offset(b, i) != row_sum(b, i) {
        Some(Tfp1Error::OffsetMismatch)
    } else if i > 0 && row_digest(b, i - 1) == row_digest(b, i) {
        Some(Tfp1Error::DuplicateDigest)
    } else if i > 0 && !bytes_less(row_digest(b, i - 1), row_digest(b, i)) {
        Some(Tfp1Error::IndexOrder)
    } else if row_sum(b, i + 1) > MAX_PACK_PAYLOAD {
        Some(Tfp1Error::PayloadTooLarge)
    } else {
        None
    }
}

/// The first rule that an index row among the first `upto` breaks.
pub open spec fn first_row_error(b: Seq<u8>, upto: int) -> Option<Tfp1Error>
    decreases upto,
{
    if upto <= 0 {
        None
    } else {
        match first_row_error(b, upto - 1) {
            Some(error) => Some(error),
            None => row_error(b, upto - 1),
        }
    }
}

/// The `i`th object of a pack of `count` objects.
pub open spec fn piece_at(b: Seq<u8>, count: int, i: int) -> Piece {
    let start = row_start(count) + row_sum(b, i);
    (row_digest(b, i), b.subrange(start, start + row_length(b, i)))
}

/// The objects that the bytes of a pack hold, in index order, or the first rule
/// that the bytes break.
pub open spec fn parsed(b: Seq<u8>) -> Result<Seq<Piece>, Tfp1Error> {
    let count = u64_at(b, 4) as int;
    let remaining = b.len() - row_start(count);
    if b.len() < 4 {
        Err(Tfp1Error::Truncated)
    } else if b.subrange(0, 4) != magic() {
        Err(Tfp1Error::BadMagic)
    } else if b.len() < HEAD_BYTES {
        Err(Tfp1Error::Truncated)
    } else if count == 0 {
        Err(Tfp1Error::ZeroObjects)
    } else if count > MAX_PACK_OBJECTS {
        Err(Tfp1Error::ObjectLimit)
    } else if remaining < 0 {
        Err(Tfp1Error::CountExceedsInput)
    } else if first_row_error(b, count) is Some {
        Err(first_row_error(b, count).unwrap())
    } else if remaining < row_sum(b, count) {
        Err(Tfp1Error::Truncated)
    } else if remaining > row_sum(b, count) {
        Err(Tfp1Error::TrailingBytes)
    } else {
        Ok(Seq::new(count as nat, |i: int| piece_at(b, count, i)))
    }
}

/// Every object hashes to its digest.
pub open spec fn verified(pieces: Seq<Piece>) -> bool {
    forall|i: int| 0 <= i < pieces.len() ==> sha256((#[trigger] pieces[i]).1) == pieces[i].0
}

/// The verified objects that the bytes of a pack hold, or the first rule that
/// the bytes break.
pub open spec fn decoded(b: Seq<u8>) -> Result<Seq<Piece>, Tfp1Error> {
    match parsed(b) {
        Err(error) => Err(error),
        Ok(pieces) => if verified(pieces) {
            Ok(pieces)
        } else {
            Err(Tfp1Error::DigestMismatch)
        },
    }
}

proof fn row_error_stays(b: Seq<u8>, low: int, high: int)
    requires
        0 <= low <= high,
        first_row_error(b, low) is Some,
    ensures
        first_row_error(b, high) == first_row_error(b, low),
    decreases high - low,
{
    if low < high {
        row_error_stays(b, low, high - 1);
    }
}

proof fn no_row_error(b: Seq<u8>, i: int, upto: int)
    requires
        0 <= i < upto,
        first_row_error(b, upto) is None,
    ensures
        row_error(b, i) is None,
    decreases upto,
{
    if i < upto - 1 {
        no_row_error(b, i, upto - 1);
    }
}

proof fn row_sum_grows(b: Seq<u8>, low: int, high: int)
    requires
        0 <= low <= high,
    ensures
        row_sum(b, low) <= row_sum(b, high),
    decreases high - low,
{
    if low < high {
        row_sum_grows(b, low, high - 1);
    }
}

#[derive(Clone, Copy, Debug, PartialEq, Eq)]
struct IndexRow {
    digest: ObjectDigest,
    offset: u64,
    length: u64,
}

/// One whole object viewed inside a parsed pack.
#[derive(Clone, Copy, Debug, PartialEq, Eq)]
pub struct PackObject<'pack> {
    digest: ObjectDigest,
    bytes: &'pack [u8],
}

impl<'pack> View for PackObject<'pack> {
    type V = Piece;

    closed spec fn view(&self) -> Piece {
        (self.digest@, self.bytes@)
    }
}

impl<'pack> PackObject<'pack> {
    pub fn digest(&self) -> (digest: ObjectDigest)
        ensures
            digest@ == self@.0,
    {
        self.digest
    }

    pub fn bytes(&self) -> (bytes: &'pack [u8])
        ensures
            bytes@ == self@.1,
    {
        self.bytes
    }
}

/// The values of viewed objects.
pub open spec fn pieces_of(objects: Seq<PackObject<'_>>) -> Seq<Piece> {
    objects.map_values(|object: PackObject<'_>| object@)
}

/// One structurally validated pack over borrowed envelope bytes.
#[derive(Debug, PartialEq, Eq)]
pub struct Pack<'bytes> {
    rows: Vec<IndexRow>,
    payload: &'bytes [u8],
}

impl<'bytes> View for Pack<'bytes> {
    type V = Seq<Piece>;

    closed spec fn view(&self) -> Seq<Piece> {
        Seq::new(
            self.rows@.len(),
            |i: int|
                (
                    self.rows@[i].digest@,
                    self.payload@.subrange(
                        self.rows@[i].offset as int,
                        self.rows@[i].offset + self.rows@[i].length,
                    ),
                ),
        )
    }
}

/// Checks that a buffer holds the magic.
fn has_magic(bytes: &[u8]) -> (yes: bool)
    requires
        bytes@.len() >= 4,
    ensures
        yes == (bytes@.subrange(0, 4) == magic()),
{
    let yes = bytes[0] == 0x54 && bytes[1] == 0x46 && bytes[2] == 0x50 && bytes[3] == 0x31;
    proof {
        let head = bytes@.subrange(0, 4);
        if yes {
            assert(head =~= magic());
        } else {
            assert(head[0] == bytes@[0] && head[1] == bytes@[1] && head[2] == bytes@[2] && head[3]
                == bytes@[3]);
        }
    }
    yes
}

/// Reads the `i`th index row, `total` bytes standing before its object.
fn read_row(bytes: &[u8], i: usize, total: u64) -> (row: Result<IndexRow, Tfp1Error>)
    requires
        row_start(i + 1) <= bytes@.len(),
        total == row_sum(bytes@, i as int),
        total <= MAX_PACK_PAYLOAD,
    ensures
        match row {
            Ok(r) => {
                &&& row_error(bytes@, i as int) is None
                &&& r.digest@ == row_digest(bytes@, i as int)
                &&& r.offset == row_offset(bytes@, i as int)
                &&& r.length == row_length(bytes@, i as int)
            },
            Err(e) => row_error(bytes@, i as int) == Some(e),
        },
{
    let available: usize = bytes.len();
    assert(HEAD_BYTES + ROW_BYTES * i + 48 <= available);
    let start: usize = HEAD_BYTES + ROW_BYTES * i;
    let spelled = slice_subrange(bytes, start, start + 32);
    let offset: u64 = read_le(slice_subrange(bytes, start + 32, start + 40));
    let length: u64 = read_le(slice_subrange(bytes, start + 40, start + 48));
    assert(row_sum(bytes@, i + 1) == row_sum(bytes@, i as int) + length);
    if length == 0 {
        return Err(Tfp1Error::ZeroLengthObject);
    }
    if length > MAX_OBJECT_SIZE {
        return Err(Tfp1Error::ObjectTooLarge);
    }
    if offset != total {
        return Err(Tfp1Error::OffsetMismatch);
    }
    if i > 0 {
        let previous = slice_subrange(bytes, start - 48, start - 16);
        if same_bytes(previous, spelled) {
            return Err(Tfp1Error::DuplicateDigest);
        }
        if !bytes_before(previous, spelled) {
            return Err(Tfp1Error::IndexOrder);
        }
    }
    if total + length > MAX_PACK_PAYLOAD {
        return Err(Tfp1Error::PayloadTooLarge);
    }
    Ok(IndexRow { digest: ObjectDigest::from_bytes(array_of_32(spelled)), offset, length })
}

impl<'bytes> Pack<'bytes> {
    /// Every row lies within the payload.
    pub closed spec fn wf(&self) -> bool {
        forall|i: int|
            0 <= i < self.rows@.len() ==> (#[trigger] self.rows@[i]).offset + self.rows@[i].length
                <= self.payload@.len()
    }

    /// Validates the complete structure without hashing any payload byte. For
    /// verified objects see [`Pack::verify_objects`], or [`decode`], which does
    /// both.
    pub fn parse(bytes: &'bytes [u8]) -> (pack: Result<Pack<'bytes>, Tfp1Error>)
        ensures
            match pack {
                Ok(p) => p.wf() && parsed(bytes@) == Ok::<Seq<Piece>, Tfp1Error>(p@),
                Err(e) => parsed(bytes@) == Err::<Seq<Piece>, Tfp1Error>(e),
            },
    {
        if bytes.len() < 4 {
            return Err(Tfp1Error::Truncated);
        }
        if !has_magic(bytes) {
            return Err(Tfp1Error::BadMagic);
        }
        if bytes.len() < HEAD_BYTES {
            return Err(Tfp1Error::Truncated);
        }
        let declared: u64 = read_le(slice_subrange(bytes, 4, 12));
        if declared == 0 {
            return Err(Tfp1Error::ZeroObjects);
        }
        if declared > MAX_PACK_OBJECTS as u64 {
            return Err(Tfp1Error::ObjectLimit);
        }
        let count: usize = declared as usize;
        if count > (bytes.len() - HEAD_BYTES) / ROW_BYTES {
            return Err(Tfp1Error::CountExceedsInput);
        }
        let ghost b = bytes@;
        let mut rows: Vec<IndexRow> = Vec::new();
        let mut total: u64 = 0;
        let mut at: usize = 0;
        while at < count
            invariant
                at <= count,
                count <= MAX_PACK_OBJECTS,
                b == bytes@,
                count == u64_at(b, 4),
                row_start(count as int) <= b.len(),
                total == row_sum(b, at as int),
                total <= MAX_PACK_PAYLOAD,
                first_row_error(b, at as int) is None,
                rows@.len() == at,
                forall|i: int|
                    0 <= i < at ==> (#[trigger] rows@[i]).digest@ == row_digest(b, i)
                        && rows@[i].offset == row_sum(b, i) && rows@[i].length == row_length(b, i),
                parsed(b) == (if first_row_error(b, count as int) is Some {
                    Err(first_row_error(b, count as int).unwrap())
                } else if b.len() - row_start(count as int) < row_sum(b, count as int) {
                    Err(Tfp1Error::Truncated)
                } else if b.len() - row_start(count as int) > row_sum(b, count as int) {
                    Err(Tfp1Error::TrailingBytes)
                } else {
                    Ok(Seq::new(count as nat, |i: int| piece_at(b, count as int, i)))
                }),
            decreases count - at,
        {
            proof {
                if first_row_error(b, at + 1) is Some {
                    row_error_stays(b, at + 1, count as int);
                }
            }
            let row = read_row(bytes, at, total)?;
            total = total + row.length;
            rows.push(row);
            at += 1;
        }
        let start: usize = HEAD_BYTES + ROW_BYTES * count;
        let remaining: usize = bytes.len() - start;
        if (remaining as u64) < total {
            return Err(Tfp1Error::Truncated);
        }
        if remaining as u64 > total {
            return Err(Tfp1Error::TrailingBytes);
        }
        let payload = slice_subrange(bytes, start, bytes.len());
        let pack = Pack { rows, payload };
        proof {
            assert forall|i: int| 0 <= i < pack.rows@.len() implies (
            #[trigger] pack.rows@[i]).offset + pack.rows@[i].length <= pack.payload@.len() by {
                row_sum_grows(b, i + 1, count as int);
            }
            let pieces = Seq::new(count as nat, |i: int| piece_at(b, count as int, i));
            assert forall|i: int| 0 <= i < count implies pack@[i] == pieces[i] by {
                row_sum_grows(b, i + 1, count as int);
                let from = row_sum(b, i) as int;
                let to = from + row_length(b, i);
                assert(payload@.subrange(from, to) =~= b.subrange(start + from, start + to));
            }
            assert(pack@ =~= pieces);
        }
        Ok(pack)
    }

    pub fn object_count(&self) -> (count: usize)
        ensures
            count == self@.len(),
    {
        self.rows.len()
    }

    /// The `at`th object in index order. Its bytes borrow the envelope.
    fn object(&self, at: usize) -> (object: PackObject<'bytes>)
        requires
            self.wf(),
            at < self@.len(),
        ensures
            object@ == self@[at as int],
    {
        let row = self.rows[at];
        let available: usize = self.payload.len();
        assert(row.offset + row.length <= available);
        let bytes = slice_subrange(
            self.payload,
            row.offset as usize,
            (row.offset + row.length) as usize,
        );
        PackObject { digest: row.digest, bytes }
    }

    /// Hashes each object's bytes in turn.
    pub fn verify_objects(&self) -> (outcome: Result<(), Tfp1Error>)
        requires
            self.wf(),
        ensures
            match outcome {
                Ok(_) => verified(self@),
                Err(e) => e == Tfp1Error::DigestMismatch && !verified(self@),
            },
    {
        let mut at: usize = 0;
        while at < self.rows.len()
            invariant
                self.wf(),
                at <= self.rows@.len(),
                self.rows@.len() == self@.len(),
                forall|i: int| 0 <= i < at ==> sha256((#[trigger] self@[i]).1) == self@[i].0,
            decreases self.rows@.len() - at,
        {
            let object = self.object(at);
            let actual = sha256_digest(object.bytes);
            if !same_bytes(&actual, object.digest.as_bytes()) {
                assert(sha256(self@[at as int].1) != self@[at as int].0);
                return Err(Tfp1Error::DigestMismatch);
            }
            at += 1;
        }
        Ok(())
    }

    /// The whole objects in index order. Their bytes borrow the envelope.
    pub fn objects(&self) -> (objects: Vec<PackObject<'bytes>>)
        requires
            self.wf(),
        ensures
            pieces_of(objects@) == self@,
    {
        let mut objects: Vec<PackObject<'bytes>> = Vec::new();
        let mut at: usize = 0;
        while at < self.rows.len()
            invariant
                self.wf(),
                at <= self.rows@.len(),
                self.rows@.len() == self@.len(),
                objects@.len() == at,
                forall|i: int| 0 <= i < at ==> (#[trigger] objects@[i])@ == self@[i],
            decreases self.rows@.len() - at,
        {
            objects.push(self.object(at));
            at += 1;
        }
        assert(pieces_of(objects@) =~= self@);
        objects
    }
}

/// Strictly decodes and fully verifies one canonical pack: every structural
/// rule and every object digest.
pub fn decode(bytes: &[u8]) -> (pack: Result<Pack<'_>, Tfp1Error>)
    ensures
        match pack {
            Ok(p) => p.wf() && decoded(bytes@) == Ok::<Seq<Piece>, Tfp1Error>(p@),
            Err(e) => decoded(bytes@) == Err::<Seq<Piece>, Tfp1Error>(e),
        },
{
    let pack = Pack::parse(bytes)?;
    pack.verify_objects()?;
    Ok(pack)
}

// ---------------------------------------------------------------------------
// Encoding
// ---------------------------------------------------------------------------

/// The values of offered objects.
pub open spec fn offered(objects: Seq<(ObjectDigest, &[u8])>) -> Seq<Piece> {
    objects.map_values(|object: (ObjectDigest, &[u8])| (object.0@, object.1@))
}

/// The first rule that the `i`th offered object breaks.
pub open spec fn offer_error(pieces: Seq<Piece>, i: int) -> Option<Tfp1Error> {
    if pieces[i].1.len() == 0 {
        Some(Tfp1Error::ZeroLengthObject)
    } else if pieces[i].1.len() > MAX_OBJECT_SIZE {
        Some(Tfp1Error::ObjectTooLarge)
    } else if payload_length(pieces, i + 1) > MAX_PACK_PAYLOAD {
        Some(Tfp1Error::PayloadTooLarge)
    } else if sha256(pieces[i].1) != pieces[i].0 {
        Some(Tfp1Error::DigestMismatch)
    } else {
        None
    }
}

/// The first rule that an offered object among the first `upto` breaks.
pub open spec fn first_offer_error(pieces: Seq<Piece>, upto: int) -> Option<Tfp1Error>
    decreases upto,
{
    if upto <= 0 {
        None
    } else {
        match first_offer_error(pieces, upto - 1) {
            Some(error) => Some(error),
            None => offer_error(pieces, upto - 1),
        }
    }
}

/// The digests of objects.
pub open spec fn digests_of(pieces: Seq<Piece>) -> Seq<Seq<u8>> {
    pieces.map_values(|piece: Piece| piece.0)
}

/// The objects in rising order of digest.
pub open spec fn by_digest(pieces: Seq<Piece>) -> Seq<Piece> {
    let order = choose|order: Seq<usize>| rising_order(digests_of(pieces), order);
    order.map_values(|at: usize| pieces[at as int])
}

/// The pack of offered objects, or the first rule that they break.
pub open spec fn encoded(pieces: Seq<Piece>) -> Result<Seq<u8>, Tfp1Error> {
    if pieces.len() == 0 {
        Err(Tfp1Error::ZeroObjects)
    } else if pieces.len() > MAX_PACK_OBJECTS {
        Err(Tfp1Error::ObjectLimit)
    } else if first_offer_error(pieces, pieces.len() as int) is Some {
        Err(first_offer_error(pieces, pieces.len() as int).unwrap())
    } else if !digests_of(pieces).no_duplicates() {
        Err(Tfp1Error::DuplicateDigest)
    } else {
        Ok(pack_bytes(by_digest(pieces)))
    }
}

proof fn offer_error_stays(pieces: Seq<Piece>, low: int, high: int)
    requires
        0 <= low <= high,
        first_offer_error(pieces, low) is Some,
    ensures
        first_offer_error(pieces, high) == first_offer_error(pieces, low),
    decreases high - low,
{
    if low < high {
        offer_error_stays(pieces, low, high - 1);
    }
}

proof fn no_offer_error(pieces: Seq<Piece>, i: int, upto: int)
    requires
        0 <= i < upto,
        first_offer_error(pieces, upto) is None,
    ensures
        offer_error(pieces, i) is None,
    decreases upto,
{
    if i < upto - 1 {
        no_offer_error(pieces, i, upto - 1);
    }
}

/// Checks every offered object.
fn check_offered(objects: &[(ObjectDigest, &[u8])]) -> (outcome: Result<(), Tfp1Error>)
    ensures
        match outcome {
            Ok(_) => first_offer_error(offered(objects@), objects@.len() as int) is None,
            Err(e) => first_offer_error(offered(objects@), objects@.len() as int) == Some(e),
        },
{
    let ghost pieces = offered(objects@);
    let mut total: u64 = 0;
    let mut at: usize = 0;
    while at < objects.len()
        invariant
            at <= objects@.len(),
            pieces == offered(objects@),
            total == payload_length(pieces, at as int),
            total <= MAX_PACK_PAYLOAD,
            first_offer_error(pieces, at as int) is None,
        decreases objects@.len() - at,
    {
        let (digest, bytes) = objects[at];
        proof {
            assert(pieces[at as int] == (digest@, bytes@));
            if first_offer_error(pieces, at + 1) is Some {
                offer_error_stays(pieces, at + 1, pieces.len() as int);
            }
        }
        if bytes.len() == 0 {
            return Err(Tfp1Error::ZeroLengthObject);
        }
        if bytes.len() as u64 > MAX_OBJECT_SIZE {
            return Err(Tfp1Error::ObjectTooLarge);
        }
        total = total + bytes.len() as u64;
        if total > MAX_PACK_PAYLOAD {
            return Err(Tfp1Error::PayloadTooLarge);
        }
        let actual = sha256_digest(bytes);
        if !same_bytes(&actual, digest.as_bytes()) {
            return Err(Tfp1Error::DigestMismatch);
        }
        at += 1;
    }
    Ok(())
}

/// The digests of offered objects, as sort keys.
fn digest_keys(objects: &[(ObjectDigest, &[u8])]) -> (keys: Vec<Vec<u8>>)
    ensures
        byte_strings(keys@) == digests_of(offered(objects@)),
{
    let ghost pieces = offered(objects@);
    let mut keys: Vec<Vec<u8>> = Vec::new();
    let mut at: usize = 0;
    while at < objects.len()
        invariant
            at <= objects@.len(),
            pieces == offered(objects@),
            keys@.len() == at,
            forall|i: int| 0 <= i < at ==> (#[trigger] keys@[i])@ == pieces[i].0,
        decreases objects@.len() - at,
    {
        keys.push(vstd::slice::slice_to_vec(objects[at].0.as_bytes()));
        assert(pieces[at as int].0 == objects@[at as int].0@);
        at += 1;
    }
    assert(byte_strings(keys@) =~= digests_of(pieces));
    keys
}

/// Writes the pack of objects in a given order.
fn write_pack(
    objects: &[(ObjectDigest, &[u8])],
    order: &Vec<usize>,
    Ghost(sorted): Ghost<Seq<Piece>>,
) -> (bytes: Vec<u8>)
    requires
        forall|i: int| 0 <= i < order@.len() ==> #[trigger] order@[i] < objects@.len(),
        sorted == order@.map_values(|at: usize| offered(objects@)[at as int]),
        payload_length(sorted, sorted.len() as int) <= u64::MAX,
    ensures
        bytes@ == pack_bytes(sorted),
{
    let ghost pieces = offered(objects@);
    let ghost n = sorted.len() as int;
    let mut bytes: Vec<u8> = Vec::new();
    push_bytes(&mut bytes, &[0x54u8, 0x46u8, 0x50u8, 0x31u8]);
    push_le(&mut bytes, order.len() as u64, 8);
    let ghost head = magic() + le_bytes(sorted.len(), 8);
    assert(bytes@ =~= head + index_bytes(sorted, 0));
    let mut offset: u64 = 0;
    let mut at: usize = 0;
    while at < order.len()
        invariant
            at <= order@.len(),
            n == order@.len(),
            n == sorted.len(),
            pieces == offered(objects@),
            forall|i: int| 0 <= i < order@.len() ==> #[trigger] order@[i] < objects@.len(),
            sorted == order@.map_values(|at: usize| pieces[at as int]),
            payload_length(sorted, n) <= u64::MAX,
            offset == payload_length(sorted, at as int),
            bytes@ == head + index_bytes(sorted, at as int),
        decreases order@.len() - at,
    {
        assert(order@[at as int] < objects@.len());
        let (digest, object) = objects[order[at]];
        let ghost before = bytes@;
        proof {
            assert(sorted[at as int] == (digest@, object@));
            payload_length_grows(sorted, at + 1, n);
        }
        push_bytes(&mut bytes, digest.as_bytes());
        push_le(&mut bytes, offset, 8);
        push_le(&mut bytes, object.len() as u64, 8);
        assert(bytes@ =~= before + row_bytes(sorted, at as int));
        assert(bytes@ =~= head + index_bytes(sorted, at + 1));
        offset = offset + object.len() as u64;
        at += 1;
    }
    let ghost front = head + index_bytes(sorted, n);
    assert(bytes@ =~= front + payload_bytes(sorted, 0));
    let mut at: usize = 0;
    while at < order.len()
        invariant
            at <= order@.len(),
            n == order@.len(),
            n == sorted.len(),
            pieces == offered(objects@),
            forall|i: int| 0 <= i < order@.len() ==> #[trigger] order@[i] < objects@.len(),
            sorted == order@.map_values(|at: usize| pieces[at as int]),
            bytes@ == front + payload_bytes(sorted, at as int),
        decreases order@.len() - at,
    {
        assert(order@[at as int] < objects@.len());
        let (_, object) = objects[order[at]];
        let ghost before = bytes@;
        assert(sorted[at as int].1 == object@);
        push_bytes(&mut bytes, object);
        assert(bytes@ =~= front + payload_bytes(sorted, at + 1));
        at += 1;
    }
    bytes
}

proof fn payload_length_grows(pieces: Seq<Piece>, low: int, high: int)
    requires
        0 <= low <= high,
    ensures
        payload_length(pieces, low) <= payload_length(pieces, high),
    decreases high - low,
{
    if low < high {
        payload_length_grows(pieces, low, high - 1);
    }
}

proof fn length_is_range_sum(pieces: Seq<Piece>, upto: int)
    ensures
        payload_length(pieces, upto) == range_sum(upto, |i: int| pieces[i].1.len()),
    decreases upto,
{
    if upto > 0 {
        length_is_range_sum(pieces, upto - 1);
    }
}

proof fn length_is_picked_sum(pieces: Seq<Piece>, order: Seq<usize>)
    ensures
        payload_length(order.map_values(|at: usize| pieces[at as int]), order.len() as int)
            == picked_sum(order, |i: int| pieces[i].1.len()),
    decreases order.len(),
{
    if order.len() > 0 {
        let fewer = order.drop_last();
        let sorted = order.map_values(|at: usize| pieces[at as int]);
        let rest = fewer.map_values(|at: usize| pieces[at as int]);
        length_is_picked_sum(pieces, fewer);
        length_of_prefix(sorted, rest, order.len() - 1);
    }
}

proof fn length_of_prefix(a: Seq<Piece>, b: Seq<Piece>, upto: int)
    requires
        upto <= a.len(),
        upto <= b.len(),
        forall|i: int| 0 <= i < upto ==> #[trigger] a[i] == b[i],
    ensures
        payload_length(a, upto) == payload_length(b, upto),
    decreases upto,
{
    if upto > 0 {
        length_of_prefix(a, b, upto - 1);
        assert(a[upto - 1] == b[upto - 1]);
    }
}

/// Sorting keeps the summed length.
proof fn sorted_length(pieces: Seq<Piece>, order: Seq<usize>)
    requires
        pieces.len() <= usize::MAX,
        rising_order(digests_of(pieces), order),
    ensures
        payload_length(order.map_values(|at: usize| pieces[at as int]), order.len() as int)
            == payload_length(pieces, pieces.len() as int),
{
    let quantity = |i: int| pieces[i].1.len();
    rising_order_is_distinct(digests_of(pieces), order);
    length_is_picked_sum(pieces, order);
    length_is_range_sum(pieces, pieces.len() as int);
    picked_sum_is_range_sum(order, quantity);
}

proof fn by_digest_is(pieces: Seq<Piece>, order: Seq<usize>)
    requires
        rising_order(digests_of(pieces), order),
    ensures
        by_digest(pieces) == order.map_values(|at: usize| pieces[at as int]),
{
    let chosen = choose|order: Seq<usize>| rising_order(digests_of(pieces), order);
    one_rising_order(digests_of(pieces), chosen, order);
}

/// Builds one canonical pack from whole objects: sorts the index, refuses
/// duplicates and what exceeds a bound, and verifies every digest against its
/// bytes.
pub fn encode(objects: &[(ObjectDigest, &[u8])]) -> (bytes: Result<Vec<u8>, Tfp1Error>)
    ensures
        match bytes {
            Ok(b) => encoded(offered(objects@)) == Ok::<Seq<u8>, Tfp1Error>(b@),
            Err(e) => encoded(offered(objects@)) == Err::<Seq<u8>, Tfp1Error>(e),
        },
{
    let ghost pieces = offered(objects@);
    if objects.len() == 0 {
        return Err(Tfp1Error::ZeroObjects);
    }
    if objects.len() > MAX_PACK_OBJECTS {
        return Err(Tfp1Error::ObjectLimit);
    }
    check_offered(objects)?;
    let keys = digest_keys(objects);
    match sort_distinct(&keys) {
        None => {
            proof {
                let (i, j) = choose|i: int, j: int|
                    0 <= i < j < keys@.len() && byte_strings(keys@)[i] == byte_strings(keys@)[j];
                assert(digests_of(pieces)[i] == digests_of(pieces)[j]);
            }
            Err(Tfp1Error::DuplicateDigest)
        },
        Some(order) => {
            let ghost sorted = by_digest(pieces);
            proof {
                by_digest_is(pieces, order@);
                sorted_length(pieces, order@);
                no_offer_error(pieces, pieces.len() - 1, pieces.len() as int);
                distinct_digests(pieces, order@);
            }
            Ok(write_pack(objects, &order, Ghost(sorted)))
        },
    }
}

proof fn distinct_digests(pieces: Seq<Piece>, order: Seq<usize>)
    requires
        pieces.len() <= usize::MAX,
        rising_order(digests_of(pieces), order),
    ensures
        digests_of(pieces).no_duplicates(),
{
    let digests = digests_of(pieces);
    assert forall|a: int, b: int| 0 <= a < digests.len() && 0 <= b < digests.len() && a
        != b implies digests[a] != digests[b] by {
        assert(order.contains(a as usize) && order.contains(b as usize));
        let i = choose|i: int| 0 <= i < order.len() && order[i] == a as usize;
        let j = choose|j: int| 0 <= j < order.len() && order[j] == b as usize;
        bytes_less_irreflexive(digests[a]);
        if i < j {
            assert(bytes_less(digests[order[i] as int], digests[order[j] as int]));
        } else {
            assert(bytes_less(digests[order[j] as int], digests[order[i] as int]));
        }
    }
}

// ---------------------------------------------------------------------------
// Laws
// ---------------------------------------------------------------------------

proof fn row_stands(b: Seq<u8>, pieces: Seq<Piece>, i: int)
    requires
        0 <= i < pieces.len(),
        pieces[i].0.len() == 32,
        pieces[i].1.len() <= u64::MAX,
        payload_length(pieces, i) <= u64::MAX,
    ensures
        row_bytes(pieces, i).len() == ROW_BYTES,
        stands_at(b, row_start(i), row_bytes(pieces, i)) <==> row_start(i + 1) <= b.len()
            && row_digest(b, i) == pieces[i].0 && row_offset(b, i) == payload_length(pieces, i)
            && row_length(b, i) == pieces[i].1.len(),
{
    let digest = pieces[i].0;
    let offset = le_bytes(payload_length(pieces, i), 8);
    let length = le_bytes(pieces[i].1.len(), 8);
    let at = row_start(i);
    stands_u64(b, at + 32, payload_length(pieces, i) as u64);
    stands_u64(b, at + 40, pieces[i].1.len() as u64);
    stands_split(b, at, digest, offset);
    stands_split(b, at, digest + offset, length);
}

proof fn index_length(pieces: Seq<Piece>, upto: int)
    requires
        0 <= upto <= pieces.len(),
        forall|i: int| 0 <= i < pieces.len() ==> (#[trigger] pieces[i]).0.len() == 32,
        forall|i: int| 0 <= i < pieces.len() ==> (#[trigger] pieces[i]).1.len() <= u64::MAX,
        payload_length(pieces, pieces.len() as int) <= u64::MAX,
    ensures
        index_bytes(pieces, upto).len() == ROW_BYTES * upto,
    decreases upto,
{
    if upto > 0 {
        index_length(pieces, upto - 1);
        payload_length_grows(pieces, upto - 1, pieces.len() as int);
        row_stands(Seq::empty(), pieces, upto - 1);
    }
}

proof fn payload_size(pieces: Seq<Piece>, upto: int)
    requires
        0 <= upto <= pieces.len(),
    ensures
        payload_bytes(pieces, upto).len() == payload_length(pieces, upto),
    decreases upto,
{
    if upto > 0 {
        payload_size(pieces, upto - 1);
    }
}

/// The index of a parsed pack is the index of its objects.
proof fn index_read(b: Seq<u8>, pieces: Seq<Piece>, upto: int)
    requires
        parsed(b) == Ok::<Seq<Piece>, Tfp1Error>(pieces),
        0 <= upto <= pieces.len(),
    ensures
        payload_length(pieces, upto) == row_sum(b, upto),
        stands_at(b, HEAD_BYTES as int, index_bytes(pieces, upto)),
        index_bytes(pieces, upto).len() == ROW_BYTES * upto,
    decreases upto,
{
    let count = pieces.len() as int;
    if upto > 0 {
        let i = upto - 1;
        index_read(b, pieces, i);
        no_row_error(b, i, count);
        row_sum_grows(b, i + 1, count);
        assert(pieces[i] == piece_at(b, count, i));
        row_stands(b, pieces, i);
        stands_split(b, HEAD_BYTES as int, index_bytes(pieces, i), row_bytes(pieces, i));
    } else {
        assert(b.subrange(HEAD_BYTES as int, HEAD_BYTES as int) =~= Seq::<u8>::empty());
    }
}

proof fn payload_read(b: Seq<u8>, pieces: Seq<Piece>, upto: int)
    requires
        parsed(b) == Ok::<Seq<Piece>, Tfp1Error>(pieces),
        0 <= upto <= pieces.len(),
    ensures
        stands_at(b, row_start(pieces.len() as int), payload_bytes(pieces, upto)),
        payload_bytes(pieces, upto).len() == row_sum(b, upto),
    decreases upto,
{
    let count = pieces.len() as int;
    let start = row_start(count);
    if upto > 0 {
        let i = upto - 1;
        payload_read(b, pieces, i);
        row_sum_grows(b, i + 1, count);
        assert(pieces[i] == piece_at(b, count, i));
        stands_split(b, start, payload_bytes(pieces, i), pieces[i].1);
    } else {
        assert(b.subrange(start, start) =~= Seq::<u8>::empty());
    }
}

/// A pack is canonical: what parses is, byte for byte, the pack of the objects
/// it holds.
pub proof fn parsing_is_canonical(b: Seq<u8>)
    requires
        parsed(b) is Ok,
    ensures
        pack_bytes(parsed(b)->Ok_0) == b,
{
    let pieces = parsed(b)->Ok_0;
    let count = pieces.len() as int;
    index_read(b, pieces, count);
    payload_read(b, pieces, count);
    let head = magic();
    let size = le_bytes(pieces.len(), 8);
    let index = index_bytes(pieces, count);
    let payload = payload_bytes(pieces, count);
    stands_u64(b, 4, u64_at(b, 4));
    assert(stands_at(b, 0, head));
    stands_split(b, 0, head, size);
    stands_split(b, 0, head + size, index);
    stands_split(b, 0, head + size + index, payload);
    assert(b.subrange(0, b.len() as int) =~= b);
}

/// Objects that a pack can hold: in strictly rising order of digest, none empty,
/// within the bounds.
pub open spec fn packable(pieces: Seq<Piece>) -> bool {
    &&& 0 < pieces.len() <= MAX_PACK_OBJECTS
    &&& forall|i: int| 0 <= i < pieces.len() ==> (#[trigger] pieces[i]).0.len() == 32
    &&& forall|i: int|
        0 <= i < pieces.len() ==> 0 < (#[trigger] pieces[i]).1.len() <= MAX_OBJECT_SIZE
    &&& payload_length(pieces, pieces.len() as int) <= MAX_PACK_PAYLOAD
    &&& forall|i: int, j: int|
        0 <= i < j < pieces.len() ==> bytes_less((#[trigger] pieces[i]).0, (#[trigger] pieces[j]).0)
}

proof fn index_prefix_stands(b: Seq<u8>, pieces: Seq<Piece>, upto: int, all: int)
    requires
        0 <= upto <= all,
        stands_at(b, HEAD_BYTES as int, index_bytes(pieces, all)),
    ensures
        stands_at(b, HEAD_BYTES as int, index_bytes(pieces, upto)),
    decreases all - upto,
{
    if upto < all {
        stands_split(b, HEAD_BYTES as int, index_bytes(pieces, all - 1), row_bytes(pieces, all - 1));
        index_prefix_stands(b, pieces, upto, all - 1);
    }
}

proof fn payload_prefix_stands(b: Seq<u8>, at: int, pieces: Seq<Piece>, upto: int, all: int)
    requires
        0 <= upto <= all,
        stands_at(b, at, payload_bytes(pieces, all)),
    ensures
        stands_at(b, at, payload_bytes(pieces, upto)),
    decreases all - upto,
{
    if upto < all {
        stands_split(b, at, payload_bytes(pieces, all - 1), pieces[all - 1].1);
        payload_prefix_stands(b, at, pieces, upto, all - 1);
    }
}

proof fn row_written(b: Seq<u8>, pieces: Seq<Piece>, i: int)
    requires
        packable(pieces),
        stands_at(b, HEAD_BYTES as int, index_bytes(pieces, pieces.len() as int)),
        0 <= i < pieces.len(),
    ensures
        row_digest(b, i) == pieces[i].0,
        row_offset(b, i) == payload_length(pieces, i),
        row_length(b, i) == pieces[i].1.len(),
{
    let count = pieces.len() as int;
    payload_length_grows(pieces, i, count);
    index_length(pieces, i);
    index_prefix_stands(b, pieces, i + 1, count);
    stands_split(b, HEAD_BYTES as int, index_bytes(pieces, i), row_bytes(pieces, i));
    row_stands(b, pieces, i);
}

proof fn rows_written(b: Seq<u8>, pieces: Seq<Piece>, upto: int)
    requires
        packable(pieces),
        stands_at(b, HEAD_BYTES as int, index_bytes(pieces, pieces.len() as int)),
        0 <= upto <= pieces.len(),
    ensures
        row_sum(b, upto) == payload_length(pieces, upto),
        first_row_error(b, upto) is None,
    decreases upto,
{
    if upto > 0 {
        let i = upto - 1;
        rows_written(b, pieces, i);
        row_written(b, pieces, i);
        payload_length_grows(pieces, upto, pieces.len() as int);
        assert(0 < pieces[i].1.len() <= MAX_OBJECT_SIZE);
        if i > 0 {
            row_written(b, pieces, i - 1);
            assert(bytes_less(pieces[i - 1].0, pieces[i].0));
            bytes_less_irreflexive(pieces[i].0);
        }
    }
}

/// The pack of objects parses to the objects.
pub proof fn pack_parses(pieces: Seq<Piece>)
    requires
        packable(pieces),
    ensures
        parsed(pack_bytes(pieces)) == Ok::<Seq<Piece>, Tfp1Error>(pieces),
{
    let b = pack_bytes(pieces);
    let count = pieces.len() as int;
    let head = magic();
    let size = le_bytes(pieces.len(), 8);
    let index = index_bytes(pieces, count);
    let payload = payload_bytes(pieces, count);
    assert(b.subrange(0, b.len() as int) =~= b);
    stands_split(b, 0, head + size + index, payload);
    stands_split(b, 0, head + size, index);
    stands_split(b, 0, head, size);
    stands_u64(b, 4, pieces.len() as u64);
    index_length(pieces, count);
    payload_size(pieces, count);
    rows_written(b, pieces, count);
    let found = Seq::new(count as nat, |i: int| piece_at(b, count, i));
    assert forall|i: int| 0 <= i < count implies found[i] == pieces[i] by {
        row_written(b, pieces, i);
        rows_written(b, pieces, i);
        payload_prefix_stands(b, row_start(count), pieces, i + 1, count);
        payload_size(pieces, i);
        stands_split(b, row_start(count), payload_bytes(pieces, i), pieces[i].1);
    }
    assert(found =~= pieces);
}

/// Decoding undoes encoding: what encodes decodes to the same objects, in
/// rising order of digest.
pub proof fn encoding_decodes(pieces: Seq<Piece>)
    requires
        forall|i: int| 0 <= i < pieces.len() ==> (#[trigger] pieces[i]).0.len() == 32,
        encoded(pieces) is Ok,
    ensures
        decoded(encoded(pieces)->Ok_0) == Ok::<Seq<Piece>, Tfp1Error>(by_digest(pieces)),
{
    let n = pieces.len() as int;
    let keys = digests_of(pieces);
    let order = distinct_keys_order(keys);
    let sorted = by_digest(pieces);
    by_digest_is(pieces, order);
    sorted_length(pieces, order);
    no_offer_error(pieces, n - 1, n);
    assert forall|i: int| 0 <= i < sorted.len() implies (#[trigger] sorted[i]).0.len() == 32 && 0
        < sorted[i].1.len() <= MAX_OBJECT_SIZE && sha256(sorted[i].1) == sorted[i].0 by {
        assert(order[i] < keys.len());
        assert(sorted[i] == pieces[order[i] as int]);
        no_offer_error(pieces, order[i] as int, n);
    }
    assert forall|i: int, j: int| 0 <= i < j < sorted.len() implies bytes_less(
        (#[trigger] sorted[i]).0,
        (#[trigger] sorted[j]).0,
    ) by {
        assert(bytes_less(keys[order[i] as int], keys[order[j] as int]));
    }
    pack_parses(sorted);
}

// ---------------------------------------------------------------------------
// Order
// ---------------------------------------------------------------------------

proof fn fitting_offers(pieces: Seq<Piece>, upto: int)
    requires
        0 <= upto <= pieces.len(),
        payload_length(pieces, pieces.len() as int) <= MAX_PACK_PAYLOAD,
        forall|i: int|
            0 <= i < pieces.len() ==> 0 < (#[trigger] pieces[i]).1.len() <= MAX_OBJECT_SIZE && sha256(
                pieces[i].1,
            ) == pieces[i].0,
    ensures
        first_offer_error(pieces, upto) is None,
    decreases upto,
{
    if upto > 0 {
        fitting_offers(pieces, upto - 1);
        payload_length_grows(pieces, upto, pieces.len() as int);
    }
}

/// The order in which objects are offered does not change their pack.
pub proof fn any_order_makes_the_same_pack(pieces: Seq<Piece>, order: Seq<usize>)
    requires
        encoded(pieces) is Ok,
        shuffles(order, pieces.len()),
    ensures
        encoded(picked(pieces, order)) == encoded(pieces),
{
    let other = picked(pieces, order);
    let keys = digests_of(pieces);
    let n = pieces.len() as int;
    assert(digests_of(other) =~= picked(keys, order));
    shuffled_keys_are_distinct(keys, order);
    assert forall|i: int| 0 <= i < other.len() implies 0 < (#[trigger] other[i]).1.len()
        <= MAX_OBJECT_SIZE && sha256(other[i].1) == other[i].0 by {
        no_offer_error(pieces, order[i] as int, n);
    }
    no_offer_error(pieces, n - 1, n);
    assert forall|x: usize| x < n implies #[trigger] order.contains(x) by {
        all_are_taken(order, x);
    }
    length_is_picked_sum(pieces, order);
    length_is_range_sum(pieces, n);
    picked_sum_is_range_sum(order, |i: int| pieces[i].1.len());
    fitting_offers(other, n);
    let found = distinct_keys_order(digests_of(other));
    rising_order_of_shuffled(keys, order, found);
    by_digest_is(other, found);
    by_digest_is(pieces, picked(order, found));
    assert(by_digest(other) =~= by_digest(pieces));
}

} // verus!
