//! Strict decoding of a manifest.

use super::path::{
    path_error, usable_target, validate_path, validate_symlink_target, MAX_PATH_BYTES,
    MAX_SYMLINK_TARGET_BYTES,
};
use super::tree::{path_views, rising_paths, tree_error, validate_tree};
use super::{
    entry_models, magic, parent_model, record_models, records_error, validate_records, BodyModel,
    Entry, EntryModel, FileBody, FileRecord, RecordModel, Snapshot, SnapshotId, SnapshotModel,
    Tfm1Error, DIGEST_STAMP_BYTES, EMPTY_BLOB_DIGEST, MAX_FILE_RECORDS,
};
use crate::contract::{
    contract_name, stamp_of, HandleModel, Stamp, StampModel, MAX_CONTRACT_NAME_BYTES,
};
use crate::object::ObjectDigest;
use crate::planner::TensorFormat;
use crate::text::{array_of_32, bytes_before, bytes_less, bytes_less_transitive, same_bytes};
use crate::trusted::string_from_utf8;
use crate::wire::{le_bytes_of_le, read_le, spans, u32_at, u64_at};
use vstd::prelude::*;
use vstd::utf8::{decode_utf8, encode_utf8, valid_utf8};

verus! {

// ---------------------------------------------------------------------------
// The grammar
// ---------------------------------------------------------------------------

/// The contract stamp: a bounded name and its version, the digest of a nameless
/// contract, or the absent stamp.
pub open spec fn stamp_at(b: Seq<u8>, pos: int) -> Result<(StampModel, int), Tfm1Error> {
    if pos + 1 > b.len() {
        Err(Tfm1Error::Truncated)
    } else {
        let n = b[pos] as int;
        let name = b.subrange(pos + 1, pos + 1 + n);
        let version = u32_at(b, pos + 1 + n);
        if n > MAX_CONTRACT_NAME_BYTES && n != DIGEST_STAMP_BYTES {
            Err(Tfm1Error::ContractName)
        } else if pos + 1 + n > b.len() {
            Err(Tfm1Error::Truncated)
        } else if !valid_utf8(name) {
            Err(Tfm1Error::ContractName)
        } else if pos + 1 + n + 4 > b.len() {
            Err(Tfm1Error::Truncated)
        } else if n == 0 {
            if version == 0 {
                Ok((StampModel::Absent, pos + 1 + n + 4))
            } else {
                Err(Tfm1Error::ContractVersion)
            }
        } else if n == DIGEST_STAMP_BYTES {
            match stamp_of(decode_utf8(name)) {
                Ok(StampModel::Digest(digest)) => if version == 0 {
                    Ok((StampModel::Digest(digest), pos + 1 + n + 4))
                } else {
                    Err(Tfm1Error::ContractVersion)
                },
                _ => Err(Tfm1Error::ContractName),
            }
        } else if version == 0 {
            Err(Tfm1Error::ContractVersion)
        } else if !contract_name(decode_utf8(name)) {
            Err(Tfm1Error::ContractName)
        } else {
            Ok(
                (
                    StampModel::Named(HandleModel { name: decode_utf8(name), version }),
                    pos + 1 + n + 4,
                ),
            )
        }
    }
}

/// One record.
pub open spec fn record_at(b: Seq<u8>, pos: int) -> Result<(RecordModel, int), Tfm1Error> {
    if pos + 1 > b.len() {
        Err(Tfm1Error::Truncated)
    } else if b[pos] == 1 {
        if pos + 41 > b.len() {
            Err(Tfm1Error::Truncated)
        } else {
            Ok(
                (
                    RecordModel::Data {
                        digest: b.subrange(pos + 1, pos + 33),
                        length: u64_at(b, pos + 33),
                    },
                    pos + 41,
                ),
            )
        }
    } else if b[pos] == 2 {
        if pos + 9 > b.len() {
            Err(Tfm1Error::Truncated)
        } else {
            Ok((RecordModel::Hole { length: u64_at(b, pos + 1) }, pos + 9))
        }
    } else {
        Err(Tfm1Error::UnknownRecordTag)
    }
}

/// `count` records, behind those already read.
pub open spec fn records_at(b: Seq<u8>, pos: int, count: nat, found: Seq<RecordModel>) -> Result<
    (Seq<RecordModel>, int),
    Tfm1Error,
>
    decreases count,
{
    if count == 0 {
        Ok((found, pos))
    } else {
        match record_at(b, pos) {
            Err(error) => Err(error),
            Ok((record, next)) => records_at(b, next, (count - 1) as nat, found.push(record)),
        }
    }
}

/// A tensor body behind its planner tag.
pub open spec fn tensor_body_at(b: Seq<u8>, pos: int, format: TensorFormat) -> Result<
    (BodyModel, int),
    Tfm1Error,
> {
    if pos + 8 > b.len() {
        Err(Tfm1Error::Truncated)
    } else {
        let logical_size = u64_at(b, pos);
        match stamp_at(b, pos + 8) {
            Err(error) => Err(error),
            Ok((contract, at)) => if at + 8 > b.len() {
                Err(Tfm1Error::Truncated)
            } else {
                let count = u64_at(b, at);
                if count > MAX_FILE_RECORDS {
                    Err(Tfm1Error::RecordLimit)
                } else if count > (b.len() - at - 8) / 9 {
                    Err(Tfm1Error::CountExceedsInput)
                } else {
                    match records_at(b, at + 8, count as nat, Seq::empty()) {
                        Err(error) => Err(error),
                        Ok((records, end)) => match records_error(records, logical_size) {
                            Some(error) => Err(error),
                            None => Ok(
                                (
                                    BodyModel::Tensor { format, contract, logical_size, records },
                                    end,
                                ),
                            ),
                        },
                    }
                }
            },
        }
    }
}

/// A file body: the planner tag and the body.
pub open spec fn body_at(b: Seq<u8>, pos: int) -> Result<(BodyModel, int), Tfm1Error> {
    if pos + 1 > b.len() {
        Err(Tfm1Error::Truncated)
    } else if b[pos] == 1 {
        tensor_body_at(b, pos + 1, TensorFormat::SafetensorsV1)
    } else if b[pos] == 2 {
        tensor_body_at(b, pos + 1, TensorFormat::GgufV1)
    } else if b[pos] == 4 {
        if pos + 41 > b.len() {
            Err(Tfm1Error::Truncated)
        } else {
            let logical_size = u64_at(b, pos + 1);
            let digest = b.subrange(pos + 9, pos + 41);
            if logical_size == 0 && digest != EMPTY_BLOB_DIGEST@ {
                Err(Tfm1Error::EmptyBlobDigest)
            } else {
                Ok((BodyModel::Blob { logical_size, digest }, pos + 41))
            }
        }
    } else {
        Err(Tfm1Error::UnknownPlanner)
    }
}

/// One entry behind its path; `ordinals` files stand before it.
pub open spec fn entry_at(b: Seq<u8>, pos: int, ordinals: nat) -> Result<
    (EntryModel, int),
    Tfm1Error,
> {
    if pos + 1 > b.len() {
        Err(Tfm1Error::Truncated)
    } else if b[pos] == 1 {
        Ok((EntryModel::Directory, pos + 1))
    } else if b[pos] == 2 {
        if pos + 2 > b.len() {
            Err(Tfm1Error::Truncated)
        } else if b[pos + 1] > 1 {
            Err(Tfm1Error::ExecutableFlag)
        } else {
            match body_at(b, pos + 2) {
                Err(error) => Err(error),
                Ok((body, end)) => Ok(
                    (EntryModel::File { executable: b[pos + 1] == 1, body }, end),
                ),
            }
        }
    } else if b[pos] == 3 {
        if pos + 5 > b.len() {
            Err(Tfm1Error::Truncated)
        } else {
            let n = u32_at(b, pos + 1);
            let target = b.subrange(pos + 5, pos + 5 + n);
            if n > MAX_SYMLINK_TARGET_BYTES {
                Err(Tfm1Error::SymlinkTarget)
            } else if pos + 5 + n > b.len() {
                Err(Tfm1Error::Truncated)
            } else if !valid_utf8(target) || !usable_target(decode_utf8(target)) {
                Err(Tfm1Error::SymlinkTarget)
            } else {
                Ok((EntryModel::Symlink { target: decode_utf8(target) }, pos + 5 + n))
            }
        }
    } else if b[pos] == 4 {
        if pos + 9 > b.len() {
            Err(Tfm1Error::Truncated)
        } else if u64_at(b, pos + 1) >= ordinals {
            Err(Tfm1Error::HardlinkOrdinal)
        } else {
            Ok((EntryModel::Hardlink { ordinal: u64_at(b, pos + 1) }, pos + 9))
        }
    } else {
        Err(Tfm1Error::UnknownEntryKind)
    }
}

/// What reading entries has gathered.
pub struct Gathered {
    pub position: int,
    pub ordinals: nat,
    pub entries: Seq<(Seq<char>, EntryModel)>,
}

/// A path: its length, its UTF-8 bytes, the path rules.
pub open spec fn path_at(b: Seq<u8>, pos: int) -> Result<(Seq<char>, int), Tfm1Error> {
    if pos + 4 > b.len() {
        Err(Tfm1Error::Truncated)
    } else {
        let n = u32_at(b, pos);
        let bytes = b.subrange(pos + 4, pos + 4 + n);
        if n == 0 || n > MAX_PATH_BYTES {
            Err(Tfm1Error::PathLength)
        } else if pos + 4 + n > b.len() {
            Err(Tfm1Error::Truncated)
        } else if !valid_utf8(bytes) {
            Err(Tfm1Error::PathUtf8)
        } else if path_error(decode_utf8(bytes)) is Some {
            Err(path_error(decode_utf8(bytes)).unwrap())
        } else {
            Ok((decode_utf8(bytes), pos + 4 + n))
        }
    }
}

/// How a path stands behind the one before it.
pub open spec fn order_error(entries: Seq<(Seq<char>, EntryModel)>, path: Seq<char>) -> Option<
    Tfm1Error,
> {
    if entries.len() == 0 || bytes_less(encode_utf8(entries.last().0), encode_utf8(path)) {
        None
    } else if encode_utf8(entries.last().0) == encode_utf8(path) {
        Some(Tfm1Error::DuplicatePath)
    } else {
        Some(Tfm1Error::EntryOrder)
    }
}

/// One path and its entry.
pub open spec fn member_at(b: Seq<u8>, state: Gathered) -> Result<Gathered, Tfm1Error> {
    match path_at(b, state.position) {
        Err(error) => Err(error),
        Ok((path, at)) => match order_error(state.entries, path) {
            Some(error) => Err(error),
            None => match entry_at(b, at, state.ordinals) {
                Err(error) => Err(error),
                Ok((entry, end)) => Ok(
                    Gathered {
                        position: end,
                        ordinals: state.ordinals + if entry is File {
                            1nat
                        } else {
                            0nat
                        },
                        entries: state.entries.push((path, entry)),
                    },
                ),
            },
        },
    }
}

/// `count` paths and their entries.
pub open spec fn members_at(b: Seq<u8>, state: Gathered, count: nat) -> Result<Gathered, Tfm1Error>
    decreases count,
{
    if count == 0 {
        Ok(state)
    } else {
        match member_at(b, state) {
            Err(error) => Err(error),
            Ok(next) => members_at(b, next, (count - 1) as nat),
        }
    }
}

/// The magic and the parent.
pub open spec fn parent_at(b: Seq<u8>) -> Result<(Option<Seq<u8>>, int), Tfm1Error> {
    if b.len() < 4 {
        Err(Tfm1Error::Truncated)
    } else if b.subrange(0, 4) != magic() {
        Err(Tfm1Error::BadMagic)
    } else if b.len() < 5 {
        Err(Tfm1Error::Truncated)
    } else if b[4] == 0 {
        Ok((None, 5))
    } else if b[4] == 1 {
        if b.len() < 37 {
            Err(Tfm1Error::Truncated)
        } else {
            Ok((Some(b.subrange(5, 37)), 37))
        }
    } else {
        Err(Tfm1Error::ParentFlag)
    }
}

/// The paths of entries.
pub open spec fn paths_of(entries: Seq<(Seq<char>, EntryModel)>) -> Seq<Seq<char>> {
    entries.map_values(|pair: (Seq<char>, EntryModel)| pair.0)
}

/// Which entries are directories.
pub open spec fn directories_of(entries: Seq<(Seq<char>, EntryModel)>) -> Seq<bool> {
    entries.map_values(|pair: (Seq<char>, EntryModel)| pair.1 is Directory)
}

pub open spec fn nothing_gathered(position: int) -> Gathered {
    Gathered { position, ordinals: 0, entries: Seq::empty() }
}

/// What decoding a manifest gives.
pub open spec fn decoded(b: Seq<u8>) -> Result<SnapshotModel, Tfm1Error> {
    match parent_at(b) {
        Err(error) => Err(error),
        Ok((parent, at)) => if at + 8 > b.len() {
            Err(Tfm1Error::Truncated)
        } else {
            let count = u64_at(b, at);
            if count > (b.len() - at - 8) / 6 {
                Err(Tfm1Error::CountExceedsInput)
            } else {
                match members_at(b, nothing_gathered(at + 8), count as nat) {
                    Err(error) => Err(error),
                    Ok(state) => if state.position != b.len() {
                        Err(Tfm1Error::TrailingBytes)
                    } else {
                        match tree_error(paths_of(state.entries), directories_of(state.entries)) {
                            Some(error) => Err(error),
                            None => Ok(SnapshotModel { parent, entries: state.entries }),
                        }
                    },
                }
            }
        },
    }
}

// ---------------------------------------------------------------------------
// Decoding
// ---------------------------------------------------------------------------

/// A position in the bytes of a manifest.
struct Reader<'a> {
    bytes: &'a [u8],
    position: usize,
}

impl<'a> Reader<'a> {
    spec fn wf(&self) -> bool {
        self.position <= self.bytes@.len()
    }

    spec fn moved_from(&self, before: &Self) -> bool {
        self.bytes@ == before.bytes@ && self.wf()
    }

    fn take(&mut self, count: usize) -> (taken: Result<&'a [u8], Tfm1Error>)
        requires
            old(self).wf(),
        ensures
            final(self).moved_from(old(self)),
            match taken {
                Ok(slice) => old(self).position + count <= old(self).bytes@.len() && slice@
                    == old(self).bytes@.subrange(
                    old(self).position as int,
                    old(self).position + count,
                ) && final(self).position == old(self).position + count,
                Err(e) => old(self).position + count > old(self).bytes@.len() && e
                    == Tfm1Error::Truncated && final(self).position == old(self).position,
            },
    {
        if count > self.bytes.len() - self.position {
            return Err(Tfm1Error::Truncated);
        }
        let end: usize = self.position + count;
        let slice = vstd::slice::slice_subrange(self.bytes, self.position, end);
        self.position = end;
        Ok(slice)
    }

    fn take_u8(&mut self) -> (taken: Result<u8, Tfm1Error>)
        requires
            old(self).wf(),
        ensures
            final(self).moved_from(old(self)),
            match taken {
                Ok(value) => old(self).position + 1 <= old(self).bytes@.len() && value
                    == old(self).bytes@[old(self).position as int] && final(self).position
                    == old(self).position + 1,
                Err(e) => old(self).position + 1 > old(self).bytes@.len() && e
                    == Tfm1Error::Truncated,
            },
    {
        let slice = self.take(1)?;
        Ok(slice[0])
    }

    fn take_u32(&mut self) -> (taken: Result<u32, Tfm1Error>)
        requires
            old(self).wf(),
        ensures
            final(self).moved_from(old(self)),
            match taken {
                Ok(value) => old(self).position + 4 <= old(self).bytes@.len() && value == u32_at(
                    old(self).bytes@,
                    old(self).position as int,
                ) && final(self).position == old(self).position + 4,
                Err(e) => old(self).position + 4 > old(self).bytes@.len() && e
                    == Tfm1Error::Truncated,
            },
    {
        let slice = self.take(4)?;
        proof {
            spans();
            le_bytes_of_le(slice@);
        }
        Ok(read_le(slice) as u32)
    }

    fn take_u64(&mut self) -> (taken: Result<u64, Tfm1Error>)
        requires
            old(self).wf(),
        ensures
            final(self).moved_from(old(self)),
            match taken {
                Ok(value) => old(self).position + 8 <= old(self).bytes@.len() && value == u64_at(
                    old(self).bytes@,
                    old(self).position as int,
                ) && final(self).position == old(self).position + 8,
                Err(e) => old(self).position + 8 > old(self).bytes@.len() && e
                    == Tfm1Error::Truncated,
            },
    {
        let slice = self.take(8)?;
        Ok(read_le(slice))
    }
}

/// A step agrees with what the bytes hold, unless it takes memory and memory ran
/// out.
spec fn agrees<T, V>(outcome: Result<T, Tfm1Error>, expected: Result<V, Tfm1Error>, takes: bool) -> bool {
    match outcome {
        Ok(_) => expected is Ok,
        Err(e) => (takes && e == Tfm1Error::ResourceExhausted) || expected == Err::<V, Tfm1Error>(e),
    }
}

fn decode_stamp(reader: &mut Reader<'_>) -> (stamp: Result<Stamp, Tfm1Error>)
    requires
        old(reader).wf(),
    ensures
        final(reader).moved_from(old(reader)),
        ({
            let expected = stamp_at(old(reader).bytes@, old(reader).position as int);
            &&& agrees(stamp, expected, false)
            &&& stamp matches Ok(s) ==> expected->Ok_0 == (s@, final(reader).position as int)
        }),
{
    let length: usize = reader.take_u8()? as usize;
    if length > MAX_CONTRACT_NAME_BYTES && length != DIGEST_STAMP_BYTES {
        return Err(Tfm1Error::ContractName);
    }
    let spelled = reader.take(length)?;
    let name = match string_from_utf8(vstd::slice::slice_to_vec(spelled)) {
        Some(name) => name,
        None => {
            return Err(Tfm1Error::ContractName);
        },
    };
    let version: u32 = reader.take_u32()?;
    if length == 0 {
        if version != 0 {
            return Err(Tfm1Error::ContractVersion);
        }
        return Ok(Stamp::Absent);
    }
    if length == DIGEST_STAMP_BYTES {
        return match Stamp::parse(name.as_str()) {
            Ok(Stamp::Digest(digest)) => if version == 0 {
                Ok(Stamp::Digest(digest))
            } else {
                Err(Tfm1Error::ContractVersion)
            },
            _ => Err(Tfm1Error::ContractName),
        };
    }
    if version == 0 {
        return Err(Tfm1Error::ContractVersion);
    }
    match Stamp::named(name.as_str(), version) {
        Ok(stamp) => Ok(stamp),
        Err(_) => Err(Tfm1Error::ContractName),
    }
}

fn decode_record(reader: &mut Reader<'_>) -> (record: Result<FileRecord, Tfm1Error>)
    requires
        old(reader).wf(),
    ensures
        final(reader).moved_from(old(reader)),
        match record {
            Ok(r) => record_at(old(reader).bytes@, old(reader).position as int) == Ok::<
                (RecordModel, int),
                Tfm1Error,
            >((r@, final(reader).position as int)),
            Err(e) => record_at(old(reader).bytes@, old(reader).position as int) == Err::<
                (RecordModel, int),
                Tfm1Error,
            >(e),
        },
{
    let tag: u8 = reader.take_u8()?;
    if tag == 1 {
        let digest = ObjectDigest::from_bytes(array_of_32(reader.take(32)?));
        let length: u64 = reader.take_u64()?;
        Ok(FileRecord::Data { digest, length })
    } else if tag == 2 {
        let length: u64 = reader.take_u64()?;
        Ok(FileRecord::Hole { length })
    } else {
        Err(Tfm1Error::UnknownRecordTag)
    }
}

fn decode_tensor_body(reader: &mut Reader<'_>, format: TensorFormat) -> (body: Result<
    FileBody,
    Tfm1Error,
>)
    requires
        old(reader).wf(),
    ensures
        final(reader).moved_from(old(reader)),
        ({
            let expected = tensor_body_at(
                old(reader).bytes@,
                old(reader).position as int,
                format,
            );
            &&& agrees(
                body,
                expected,
                tensor_takes_memory(old(reader).bytes@, old(reader).position as int),
            )
            &&& body matches Ok(x) ==> expected->Ok_0 == (x@, final(reader).position as int)
        }),
{
    let ghost b = reader.bytes@;
    let ghost start = reader.position as int;
    let logical_size: u64 = reader.take_u64()?;
    let contract = decode_stamp(reader)?;
    let count: u64 = reader.take_u64()?;
    if count > MAX_FILE_RECORDS as u64 {
        return Err(Tfm1Error::RecordLimit);
    }
    let remaining: usize = reader.bytes.len() - reader.position;
    if count > (remaining / 9) as u64 {
        return Err(Tfm1Error::CountExceedsInput);
    }
    let mut records: Vec<FileRecord> = Vec::new();
    if count > 0 && records.try_reserve(count as usize).is_err() {
        return Err(Tfm1Error::ResourceExhausted);
    }
    let ghost from = reader.position as int;
    let ghost expected = tensor_body_at(b, start, format);
    let ghost all = records_at(b, from, count as nat, Seq::empty());
    assert(record_models(records@) =~= Seq::<RecordModel>::empty());
    let mut left: u64 = count;
    while left > 0
        invariant
            reader.moved_from(old(reader)),
            b == reader.bytes@,
            all == records_at(b, reader.position as int, left as nat, record_models(records@)),
            all is Err ==> expected == Err::<(BodyModel, int), Tfm1Error>(all->Err_0),
            expected == tensor_body_at(
                old(reader).bytes@,
                old(reader).position as int,
                format,
            ),
        decreases left,
    {
        let record = decode_record(reader)?;
        let ghost before = record_models(records@);
        records.push(record);
        assert(record_models(records@) =~= before.push(record@));
        left = left - 1;
    }
    validate_records(&records, logical_size)?;
    Ok(FileBody::Tensor { format, contract, logical_size, records })
}

fn decode_body(reader: &mut Reader<'_>) -> (body: Result<FileBody, Tfm1Error>)
    requires
        old(reader).wf(),
    ensures
        final(reader).moved_from(old(reader)),
        ({
            let expected = body_at(old(reader).bytes@, old(reader).position as int);
            &&& agrees(
                body,
                expected,
                body_takes_memory(old(reader).bytes@, old(reader).position as int),
            )
            &&& body matches Ok(x) ==> expected->Ok_0 == (x@, final(reader).position as int)
        }),
{
    let tag: u8 = reader.take_u8()?;
    if tag == 1 {
        decode_tensor_body(reader, TensorFormat::SafetensorsV1)
    } else if tag == 2 {
        decode_tensor_body(reader, TensorFormat::GgufV1)
    } else if tag == 4 {
        let logical_size: u64 = reader.take_u64()?;
        let spelled = reader.take(32)?;
        let empty: [u8; 32] = EMPTY_BLOB_DIGEST;
        if logical_size == 0 && !same_bytes(spelled, &empty) {
            return Err(Tfm1Error::EmptyBlobDigest);
        }
        Ok(FileBody::Blob { logical_size, digest: ObjectDigest::from_bytes(array_of_32(spelled)) })
    } else {
        Err(Tfm1Error::UnknownPlanner)
    }
}

fn decode_entry(reader: &mut Reader<'_>, ordinals: u64) -> (entry: Result<Entry, Tfm1Error>)
    requires
        old(reader).wf(),
    ensures
        final(reader).moved_from(old(reader)),
        ({
            let expected = entry_at(
                old(reader).bytes@,
                old(reader).position as int,
                ordinals as nat,
            );
            &&& agrees(
                entry,
                expected,
                entry_takes_memory(old(reader).bytes@, old(reader).position as int),
            )
            &&& entry matches Ok(x) ==> expected->Ok_0 == (x@, final(reader).position as int)
        }),
{
    let kind: u8 = reader.take_u8()?;
    if kind == 1 {
        Ok(Entry::Directory)
    } else if kind == 2 {
        let flag: u8 = reader.take_u8()?;
        if flag > 1 {
            return Err(Tfm1Error::ExecutableFlag);
        }
        let body = decode_body(reader)?;
        Ok(Entry::File { executable: flag == 1, body })
    } else if kind == 3 {
        let length: u32 = reader.take_u32()?;
        if length as usize > MAX_SYMLINK_TARGET_BYTES {
            return Err(Tfm1Error::SymlinkTarget);
        }
        let spelled = reader.take(length as usize)?;
        let target = match string_from_utf8(vstd::slice::slice_to_vec(spelled)) {
            Some(target) => target,
            None => {
                return Err(Tfm1Error::SymlinkTarget);
            },
        };
        validate_symlink_target(target.as_str())?;
        Ok(Entry::Symlink { target })
    } else if kind == 4 {
        let ordinal: u64 = reader.take_u64()?;
        if ordinal >= ordinals {
            return Err(Tfm1Error::HardlinkOrdinal);
        }
        Ok(Entry::Hardlink { ordinal })
    } else {
        Err(Tfm1Error::UnknownEntryKind)
    }
}

fn decode_path(reader: &mut Reader<'_>) -> (path: Result<String, Tfm1Error>)
    requires
        old(reader).wf(),
    ensures
        final(reader).moved_from(old(reader)),
        match path {
            Ok(p) => path_at(old(reader).bytes@, old(reader).position as int) == Ok::<
                (Seq<char>, int),
                Tfm1Error,
            >((p@, final(reader).position as int)),
            Err(e) => path_at(old(reader).bytes@, old(reader).position as int) == Err::<
                (Seq<char>, int),
                Tfm1Error,
            >(e),
        },
{
    let length: u32 = reader.take_u32()?;
    if length == 0 || length as usize > MAX_PATH_BYTES {
        return Err(Tfm1Error::PathLength);
    }
    let spelled = reader.take(length as usize)?;
    let path = match string_from_utf8(vstd::slice::slice_to_vec(spelled)) {
        Some(path) => path,
        None => {
            return Err(Tfm1Error::PathUtf8);
        },
    };
    validate_path(path.as_str())?;
    Ok(path)
}

fn check_order(entries: &Vec<(String, Entry)>, path: &str) -> (outcome: Result<(), Tfm1Error>)
    ensures
        match outcome {
            Ok(_) => order_error(entry_models(entries@), path@) is None,
            Err(e) => order_error(entry_models(entries@), path@) == Some(e),
        },
{
    let n = entries.len();
    if n == 0 {
        return Ok(());
    }
    assert(entry_models(entries@).last().0 == entries@[n - 1].0@);
    let before = entries[n - 1].0.as_str().as_bytes();
    let here = path.as_bytes();
    if bytes_before(before, here) {
        Ok(())
    } else if same_bytes(before, here) {
        Err(Tfm1Error::DuplicatePath)
    } else {
        Err(Tfm1Error::EntryOrder)
    }
}

/// The paths of entries and which of them are directories.
fn split_entries(entries: &Vec<(String, Entry)>) -> (split: (Vec<String>, Vec<bool>))
    ensures
        path_views(split.0@) == paths_of(entry_models(entries@)),
        split.1@ == directories_of(entry_models(entries@)),
{
    let ghost models = entry_models(entries@);
    let mut paths: Vec<String> = Vec::new();
    let mut directories: Vec<bool> = Vec::new();
    let mut at: usize = 0;
    while at < entries.len()
        invariant
            at <= entries@.len(),
            models == entry_models(entries@),
            paths@.len() == at,
            directories@.len() == at,
            forall|i: int| 0 <= i < at ==> (#[trigger] paths@[i])@ == models[i].0,
            forall|i: int| 0 <= i < at ==> #[trigger] directories@[i] == (models[i].1 is Directory),
        decreases entries@.len() - at,
    {
        let pair = &entries[at];
        assert(models[at as int] == (pair.0@, pair.1@));
        paths.push(pair.0.clone());
        directories.push(
            match pair.1 {
                Entry::Directory => true,
                _ => false,
            },
        );
        at += 1;
    }
    assert(path_views(paths@) =~= paths_of(models));
    assert(directories@ =~= directories_of(models));
    (paths, directories)
}

/// Entries whose paths rise.
pub open spec fn rising_entries(entries: Seq<(Seq<char>, EntryModel)>) -> bool {
    rising_paths(paths_of(entries))
}

pub proof fn push_rises(entries: Seq<(Seq<char>, EntryModel)>, next: (Seq<char>, EntryModel))
    requires
        rising_entries(entries),
        order_error(entries, next.0) is None,
    ensures
        rising_entries(entries.push(next)),
{
    let more = paths_of(entries.push(next));
    let paths = paths_of(entries);
    assert forall|i: int, j: int| 0 <= i < j < more.len() implies bytes_less(
        encode_utf8(#[trigger] more[i]),
        encode_utf8(#[trigger] more[j]),
    ) by {
        if j < paths.len() {
            assert(more[i] == paths[i] && more[j] == paths[j]);
        } else {
            let last = paths.len() - 1;
            assert(more[i] == paths[i]);
            assert(paths[last] == entries.last().0);
            if i < last {
                assert(bytes_less(encode_utf8(paths[i]), encode_utf8(paths[last])));
                bytes_less_transitive(
                    encode_utf8(paths[i]),
                    encode_utf8(paths[last]),
                    encode_utf8(next.0),
                );
            }
        }
    }
}

/// Whether reading the records of a tensor body takes memory that can be
/// wanting: there are some, and no more than the bytes can hold.
pub open spec fn tensor_takes_memory(b: Seq<u8>, pos: int) -> bool {
    &&& pos + 8 <= b.len()
    &&& stamp_at(b, pos + 8) matches Ok((_, at))
    &&& at + 8 <= b.len()
    &&& 0 < u64_at(b, at) <= MAX_FILE_RECORDS
    &&& u64_at(b, at) <= (b.len() - at - 8) / 9
}

/// Whether reading a file body takes memory that can be wanting.
pub open spec fn body_takes_memory(b: Seq<u8>, pos: int) -> bool {
    pos < b.len() && (b[pos] == 1 || b[pos] == 2) && tensor_takes_memory(b, pos + 1)
}

/// Whether reading an entry takes memory that can be wanting: only a file's body
/// does.
pub open spec fn entry_takes_memory(b: Seq<u8>, pos: int) -> bool {
    pos + 2 <= b.len() && b[pos] == 2 && b[pos + 1] <= 1 && body_takes_memory(b, pos + 2)
}

/// Whether the first member is read, or takes memory to read.
pub open spec fn first_member_takes_memory(b: Seq<u8>, pos: int) -> bool {
    member_at(b, nothing_gathered(pos)) is Ok || (path_at(b, pos) matches Ok((_, at))
        && entry_takes_memory(b, at))
}

/// Whether decoding takes memory that can be wanting: there are entries, no more
/// than the bytes can hold, and nothing before their records refuses the first.
/// What refuses the heading or the first entry's own fields refuses it whatever
/// memory there is.
pub open spec fn takes_memory(b: Seq<u8>) -> bool {
    &&& parent_at(b) matches Ok((_, at))
    &&& at + 8 <= b.len()
    &&& 0 < u64_at(b, at) <= (b.len() - at - 8) / 6
    &&& first_member_takes_memory(b, at + 8)
}

/// Strictly decodes one canonical manifest: every structural, path, record,
/// ordering and topology rule refuses. Only for want of memory may it refuse
/// what is canonical, and only where there are entries to keep.
pub fn decode(bytes: &[u8]) -> (snapshot: Result<Snapshot, Tfm1Error>)
    ensures
        match snapshot {
            Ok(s) => decoded(bytes@) == Ok::<SnapshotModel, Tfm1Error>(s@),
            Err(e) => (e == Tfm1Error::ResourceExhausted && takes_memory(bytes@)) || decoded(bytes@)
                == Err::<SnapshotModel, Tfm1Error>(e),
        },
{
    let ghost b = bytes@;
    let mut reader = Reader { bytes, position: 0 };
    let expected: [u8; 4] = [84, 70, 77, 49];
    assert(expected@ =~= magic());
    let found = reader.take(4)?;
    if !same_bytes(found, &expected) {
        return Err(Tfm1Error::BadMagic);
    }
    let flag: u8 = reader.take_u8()?;
    let parent = if flag == 0 {
        None
    } else if flag == 1 {
        Some(SnapshotId::from_bytes(array_of_32(reader.take(32)?)))
    } else {
        return Err(Tfm1Error::ParentFlag);
    };
    assert(parent_at(b) == Ok::<(Option<Seq<u8>>, int), Tfm1Error>(
        (parent_model(parent), reader.position as int),
    ));
    let count: u64 = reader.take_u64()?;
    let remaining: usize = bytes.len() - reader.position;
    if count > (remaining / 6) as u64 {
        return Err(Tfm1Error::CountExceedsInput);
    }
    let mut entries: Vec<(String, Entry)> = Vec::new();
    let ghost from = reader.position as int;
    let ghost all = members_at(b, nothing_gathered(from), count as nat);
    assert(entry_models(entries@) =~= Seq::<(Seq<char>, EntryModel)>::empty());
    let mut ordinals: u64 = 0;
    let mut left: u64 = count;
    while left > 0
        invariant
            reader.wf(),
            reader.bytes@ == b,
            b == bytes@,
            left <= count,
            ordinals <= count - left,
            rising_entries(entry_models(entries@)),
            all == members_at(
                b,
                Gathered {
                    position: reader.position as int,
                    ordinals: ordinals as nat,
                    entries: entry_models(entries@),
                },
                left as nat,
            ),
            all is Err ==> decoded(b) == Err::<SnapshotModel, Tfm1Error>(all->Err_0),
            parent_at(b) matches Ok((_, at)) && from == at + 8 <= b.len() && count == u64_at(b, at)
                && count <= (b.len() - from) / 6,
            left == count ==> reader.position == from && ordinals == 0 && entry_models(entries@)
                =~= Seq::<(Seq<char>, EntryModel)>::empty(),
            left < count ==> member_at(b, nothing_gathered(from)) is Ok,
        decreases left,
    {
        let path = decode_path(&mut reader)?;
        check_order(&entries, path.as_str())?;
        let entry = decode_entry(&mut reader, ordinals)?;
        if let Entry::File { .. } = entry {
            ordinals = ordinals + 1;
        }
        let ghost before = entry_models(entries@);
        let ghost model = (path@, entry@);
        proof {
            push_rises(before, model);
        }
        if left == count && entries.try_reserve(count as usize).is_err() {
            return Err(Tfm1Error::ResourceExhausted);
        }
        entries.push((path, entry));
        assert(entry_models(entries@) =~= before.push(model));
        left = left - 1;
    }
    if reader.position != bytes.len() {
        return Err(Tfm1Error::TrailingBytes);
    }
    let (paths, directories) = split_entries(&entries);
    validate_tree(&paths, &directories)?;
    Ok(Snapshot { parent, entries })
}

} // verus!
