//! Content digests, and the objects a plan cuts a file into.

use crate::contract::rising_within;
use crate::planner::{
    cell, grid, part_start, tiles, ByteSource, PlanError, Region, RegionKind, MAX_OBJECT_SIZE,
};
use crate::text::{hex, push_hex};
use crate::trusted::{absorbed, hasher_finish, hasher_new, hasher_update, sha256};
use vstd::prelude::*;
use vstd::string::*;

verus! {

/// How many bytes are read and hashed at a time.
pub const HASH_BUFFER_SIZE: usize = 1048576;

/// The SHA-256 digest that names one object.
#[derive(Clone, Copy, Debug, PartialEq, Eq, Hash)]
pub struct ObjectDigest([u8; 32]);

impl View for ObjectDigest {
    type V = Seq<u8>;

    closed spec fn view(&self) -> Seq<u8> {
        self.0@
    }
}

/// The display form of a digest: `sha256:` and its hexadecimal digits.
pub open spec fn digest_spelling(digest: Seq<u8>) -> Seq<char> {
    "sha256:"@ + hex(digest)
}

impl ObjectDigest {
    pub proof fn is_whole(&self)
        ensures
            self@.len() == 32,
    {
    }

    pub fn from_bytes(bytes: [u8; 32]) -> (digest: Self)
        ensures
            digest@ == bytes@,
    {
        ObjectDigest(bytes)
    }

    pub fn as_bytes(&self) -> (bytes: &[u8; 32])
        ensures
            bytes@ == self@,
    {
        &self.0
    }

    /// The sixty-four lowercase hexadecimal digits.
    pub fn to_hex(&self) -> (text: String)
        ensures
            text@ == hex(self@),
    {
        let mut text = String::new();
        push_hex(&mut text, &self.0);
        assert(text@ =~= hex(self@));
        text
    }

    /// The display form.
    pub fn to_text(&self) -> (text: String)
        ensures
            text@ == digest_spelling(self@),
    {
        let mut text = String::new();
        text.append("sha256:");
        push_hex(&mut text, &self.0);
        assert(text@ =~= digest_spelling(self@));
        text
    }
}

/// The value of one hashed object.
#[verifier::ext_equal]
pub struct ObjectModel {
    pub digest: Seq<u8>,
    pub length: u64,
    pub kind: RegionKind,
}

/// One hashed object of a plan.
#[derive(Clone, Debug, PartialEq, Eq)]
pub struct PlannedObject {
    digest: ObjectDigest,
    length: u64,
    kind: RegionKind,
}

impl View for PlannedObject {
    type V = ObjectModel;

    closed spec fn view(&self) -> ObjectModel {
        ObjectModel { digest: self.digest@, length: self.length, kind: self.kind }
    }
}

impl PlannedObject {
    pub fn digest(&self) -> (digest: ObjectDigest)
        ensures
            digest@ == self@.digest,
    {
        self.digest
    }

    pub fn length(&self) -> (length: u64)
        ensures
            length == self@.length,
    {
        self.length
    }

    pub fn kind(&self) -> (kind: RegionKind)
        ensures
            kind == self@.kind,
    {
        self.kind
    }
}

/// The object of one region of a file's bytes.
pub open spec fn object_of(c: Seq<u8>, region: Region) -> ObjectModel {
    ObjectModel {
        digest: sha256(c.subrange(region.offset as int, region.offset + region.length)),
        length: region.length,
        kind: region.kind,
    }
}

/// The objects of the regions of a file's bytes.
pub open spec fn objects_of(c: Seq<u8>, regions: Seq<Region>) -> Seq<ObjectModel> {
    regions.map_values(|region: Region| object_of(c, region))
}

/// Bytes that move within a file, or to another file, keep their objects: the
/// objects of a gridded extent depend on its bytes alone, not on where it lies.
pub proof fn moved_bytes_keep_their_objects(
    a: Seq<u8>,
    b: Seq<u8>,
    from: int,
    to: int,
    length: int,
    kind: RegionKind,
)
    requires
        0 <= from,
        0 <= to,
        0 <= length,
        from + length <= a.len() <= u64::MAX,
        to + length <= b.len() <= u64::MAX,
        a.subrange(from, from + length) == b.subrange(to, to + length),
    ensures
        objects_of(a, grid(from, length, kind)) == objects_of(b, grid(to, length, kind)),
{
    let left = objects_of(a, grid(from, length, kind));
    let right = objects_of(b, grid(to, length, kind));
    let bytes = a.subrange(from, from + length);
    assert forall|i: int| 0 <= i < left.len() implies left[i] == right[i] by {
        let start = i * MAX_OBJECT_SIZE;
        let x = cell(from, length, kind, i);
        let y = cell(to, length, kind, i);
        assert(x.length == y.length);
        assert(a.subrange(x.offset as int, x.offset + x.length) =~= bytes.subrange(
            start,
            start + x.length,
        ));
        assert(b.subrange(y.offset as int, y.offset + y.length) =~= b.subrange(
            to,
            to + length,
        ).subrange(start, start + x.length));
    }
    assert(left =~= right);
}

/// What seams are for: a fused tensor cut at its seams holds, part by part, the
/// objects that the same bytes have as a tensor of their own.
pub proof fn a_seamed_part_has_the_split_tensors_objects(
    fused: Seq<u8>,
    split: Seq<u8>,
    offset: int,
    length: u64,
    cuts: Seq<u64>,
    part: int,
    to: int,
    kind: RegionKind,
)
    requires
        0 <= offset,
        0 <= to,
        offset + length <= fused.len() <= u64::MAX,
        split.len() <= u64::MAX,
        rising_within(cuts, length),
        0 <= part <= cuts.len(),
        ({
            let start = part_start(cuts, part);
            let end = if part < cuts.len() {
                cuts[part] as int
            } else {
                length as int
            };
            to + (end - start) <= split.len() && fused.subrange(offset + start, offset + end)
                == split.subrange(to, to + (end - start))
        }),
    ensures
        ({
            let start = part_start(cuts, part);
            let end = if part < cuts.len() {
                cuts[part] as int
            } else {
                length as int
            };
            objects_of(fused, grid(offset + start, end - start, kind)) == objects_of(
                split,
                grid(to, end - start, kind),
            )
        }),
{
    let start = part_start(cuts, part);
    let end = if part < cuts.len() {
        cuts[part] as int
    } else {
        length as int
    };
    if part > 0 {
        assert(0 < cuts[part - 1] < length);
        if part < cuts.len() {
            assert(cuts[part - 1] < cuts[part]);
        }
    }
    if part < cuts.len() {
        assert(0 < cuts[part] < length);
    }
    moved_bytes_keep_their_objects(fused, split, offset + start, to, end - start, kind);
}

/// Hashes one range of a source through a bounded buffer.
pub(crate) fn hash_range<S: ByteSource + ?Sized>(
    source: &S,
    offset: u64,
    length: u64,
    buffer: &mut Vec<u8>,
) -> (outcome: Result<ObjectDigest, PlanError>)
    requires
        offset + length <= source.content().len(),
        source.content().len() <= u64::MAX,
        old(buffer)@.len() == HASH_BUFFER_SIZE,
    ensures
        final(buffer)@.len() == HASH_BUFFER_SIZE,
        match outcome {
            Ok(digest) => source.steady() ==> digest@ == sha256(
                source.content().subrange(offset as int, offset + length),
            ),
            Err(PlanError::Read(_)) => !source.reliable(),
            Err(_) => false,
        },
{
    let ghost c = source.content();
    let mut hasher = hasher_new();
    let mut cursor: u64 = offset;
    let mut remaining: u64 = length;
    assert(absorbed(hasher) =~= c.subrange(offset as int, offset as int));
    while remaining > 0
        invariant
            c == source.content(),
            c.len() <= u64::MAX,
            offset + length <= c.len(),
            cursor + remaining == offset + length,
            offset <= cursor,
            buffer@.len() == HASH_BUFFER_SIZE,
            source.steady() ==> absorbed(hasher) == c.subrange(offset as int, cursor as int),
        decreases remaining,
    {
        let chunk: usize = if remaining < HASH_BUFFER_SIZE as u64 {
            remaining as usize
        } else {
            HASH_BUFFER_SIZE
        };
        {
            let (target, _rest) = buffer.as_mut_slice().split_at_mut(chunk);
            match source.read_exact_at(cursor, target) {
                Ok(_) => {},
                Err(error) => {
                    return Err(PlanError::Read(error));
                },
            }
        }
        let filled = vstd::slice::slice_subrange(buffer.as_slice(), 0, chunk);
        assert(source.steady() ==> filled@ =~= c.subrange(cursor as int, cursor + chunk));
        hasher_update(&mut hasher, filled);
        assert(source.steady() ==> absorbed(hasher) =~= c.subrange(
            offset as int,
            cursor + chunk,
        ));
        cursor = cursor + chunk as u64;
        remaining = remaining - chunk as u64;
    }
    Ok(ObjectDigest::from_bytes(hasher_finish(hasher)))
}

/// Hashes each region of a covered source, in order.
pub(crate) fn hash_regions<S: ByteSource + ?Sized>(source: &S, regions: &Vec<Region>) -> (outcome:
    Result<Vec<PlannedObject>, PlanError>)
    requires
        tiles(regions@, 0, source.content().len() as int),
        source.content().len() <= u64::MAX,
    ensures
        match outcome {
            Ok(objects) => objects@.len() == regions@.len() && (source.steady()
                ==> objects@.map_values(|object: PlannedObject| object@) == objects_of(
                source.content(),
                regions@,
            )),
            Err(PlanError::Read(_)) => !source.reliable(),
            Err(PlanError::ResourceExhausted) => regions@.len() > 0,
            Err(_) => false,
        },
{
    let ghost c = source.content();
    if regions.len() == 0 {
        let none: Vec<PlannedObject> = Vec::new();
        assert(none@.map_values(|object: PlannedObject| object@) =~= objects_of(c, regions@));
        return Ok(none);
    }
    let mut buffer: Vec<u8> = Vec::new();
    if buffer.try_reserve(HASH_BUFFER_SIZE).is_err() {
        return Err(PlanError::ResourceExhausted);
    }
    buffer.resize(HASH_BUFFER_SIZE, 0);
    let mut objects: Vec<PlannedObject> = Vec::new();
    if objects.try_reserve(regions.len()).is_err() {
        return Err(PlanError::ResourceExhausted);
    }
    let mut at: usize = 0;
    while at < regions.len()
        invariant
            c == source.content(),
            c.len() <= u64::MAX,
            tiles(regions@, 0, c.len() as int),
            at <= regions@.len(),
            buffer@.len() == HASH_BUFFER_SIZE,
            objects@.len() == at,
            source.steady() ==> forall|i: int|
                0 <= i < at ==> (#[trigger] objects@[i])@ == object_of(c, regions@[i]),
        decreases regions@.len() - at,
    {
        let region = regions[at];
        proof {
            crate::planner::tile_within(regions@, 0, c.len() as int, at as int);
        }
        let digest = hash_range(source, region.offset, region.length, &mut buffer)?;
        objects.push(PlannedObject { digest, length: region.length, kind: region.kind });
        at += 1;
    }
    assert(source.steady() ==> objects@.map_values(|object: PlannedObject| object@)
        =~= objects_of(c, regions@));
    Ok(objects)
}

} // verus!
