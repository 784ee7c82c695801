//! The canonical binary snapshot manifest.
//!
//! One byte encoding is canonical: the decoder refuses every deviation, so
//! decoding and encoding again reproduces the bytes. File bodies come in two
//! shapes: tensor containers carry an ordered record list, and everything else
//! is one unchunked blob.

pub mod builder;
pub mod declared;
pub mod decode;
pub mod laws;
pub mod path;
pub mod rules;
pub mod tree;
pub mod trees;

use crate::contract::{stamp_spelling, Stamp, StampModel};
use crate::object::ObjectDigest;
use crate::planner::{PlannerId, TensorFormat, MAX_OBJECT_SIZE};
use crate::text::{
    chars_of, digest_of_hex, digest_of_hex_is_its_spelling, digest_of_hex_reads_back, hex,
    parse_digest_chars, push_hex,
};
use crate::trusted::{sha256, sha256_digest};
use crate::wire::{le_bytes, push_bytes, push_le};
use vstd::prelude::*;
use vstd::utf8::encode_utf8;

verus! {

/// Why a manifest was refused.
#[derive(Clone, Copy, Debug, PartialEq, Eq, Structural)]
pub enum Tfm1Error {
    Truncated,
    BadMagic,
    ParentFlag,
    CountExceedsInput,
    TrailingBytes,
    EntryOrder,
    DuplicatePath,
    PathUtf8,
    PathLength,
    PathNotNfc,
    PathAbsolute,
    PathEmptySegment,
    PathDotSegment,
    PathForbiddenCharacter,
    PathTrailingDotSpace,
    PathWindowsReserved,
    CaseFoldCollision,
    MissingParentDirectory,
    UnknownEntryKind,
    ExecutableFlag,
    UnknownPlanner,
    ContractName,
    ContractVersion,
    UnknownRecordTag,
    ZeroLengthRecord,
    AdjacentHoles,
    DataTooLarge,
    RecordLimit,
    LengthSumMismatch,
    EmptyBlobDigest,
    BlobRecords,
    SymlinkTarget,
    HardlinkOrdinal,
    HardlinkTarget,
    ResourceExhausted,
}

impl Tfm1Error {
    /// The stable kebab-case label of this refusal.
    pub open spec fn label(self) -> Seq<char> {
        match self {
            Tfm1Error::Truncated => "truncated"@,
            Tfm1Error::BadMagic => "bad-magic"@,
            Tfm1Error::ParentFlag => "parent-flag"@,
            Tfm1Error::CountExceedsInput => "count-exceeds-input"@,
            Tfm1Error::TrailingBytes => "trailing-bytes"@,
            Tfm1Error::EntryOrder => "entry-order"@,
            Tfm1Error::DuplicatePath => "duplicate-path"@,
            Tfm1Error::PathUtf8 => "path-utf8"@,
            Tfm1Error::PathLength => "path-length"@,
            Tfm1Error::PathNotNfc => "path-not-nfc"@,
            Tfm1Error::PathAbsolute => "path-absolute"@,
            Tfm1Error::PathEmptySegment => "path-empty-segment"@,
            Tfm1Error::PathDotSegment => "path-dot-segment"@,
            Tfm1Error::PathForbiddenCharacter => "path-forbidden-character"@,
            Tfm1Error::PathTrailingDotSpace => "path-trailing-dot-space"@,
            Tfm1Error::PathWindowsReserved => "path-windows-reserved"@,
            Tfm1Error::CaseFoldCollision => "case-fold-collision"@,
            Tfm1Error::MissingParentDirectory => "missing-parent-directory"@,
            Tfm1Error::UnknownEntryKind => "unknown-entry-kind"@,
            Tfm1Error::ExecutableFlag => "executable-flag"@,
            Tfm1Error::UnknownPlanner => "unknown-planner"@,
            Tfm1Error::ContractName => "contract-name"@,
            Tfm1Error::ContractVersion => "contract-version"@,
            Tfm1Error::UnknownRecordTag => "unknown-record-tag"@,
            Tfm1Error::ZeroLengthRecord => "zero-length-record"@,
            Tfm1Error::AdjacentHoles => "adjacent-holes"@,
            Tfm1Error::DataTooLarge => "data-too-large"@,
            Tfm1Error::RecordLimit => "record-limit"@,
            Tfm1Error::LengthSumMismatch => "length-sum-mismatch"@,
            Tfm1Error::EmptyBlobDigest => "empty-blob-digest"@,
            Tfm1Error::BlobRecords => "blob-records"@,
            Tfm1Error::SymlinkTarget => "symlink-target"@,
            Tfm1Error::HardlinkOrdinal => "hardlink-ordinal"@,
            Tfm1Error::HardlinkTarget => "hardlink-target"@,
            Tfm1Error::ResourceExhausted => "resource-exhausted"@,
        }
    }

    /// The stable kebab-case label of this refusal.
    pub fn reason(&self) -> (label: &'static str)
        ensures
            label@ == self.label(),
    {
        match self {
            Tfm1Error::Truncated => "truncated",
            Tfm1Error::BadMagic => "bad-magic",
            Tfm1Error::ParentFlag => "parent-flag",
            Tfm1Error::CountExceedsInput => "count-exceeds-input",
            Tfm1Error::TrailingBytes => "trailing-bytes",
            Tfm1Error::EntryOrder => "entry-order",
            Tfm1Error::DuplicatePath => "duplicate-path",
            Tfm1Error::PathUtf8 => "path-utf8",
            Tfm1Error::PathLength => "path-length",
            Tfm1Error::PathNotNfc => "path-not-nfc",
            Tfm1Error::PathAbsolute => "path-absolute",
            Tfm1Error::PathEmptySegment => "path-empty-segment",
            Tfm1Error::PathDotSegment => "path-dot-segment",
            Tfm1Error::PathForbiddenCharacter => "path-forbidden-character",
            Tfm1Error::PathTrailingDotSpace => "path-trailing-dot-space",
            Tfm1Error::PathWindowsReserved => "path-windows-reserved",
            Tfm1Error::CaseFoldCollision => "case-fold-collision",
            Tfm1Error::MissingParentDirectory => "missing-parent-directory",
            Tfm1Error::UnknownEntryKind => "unknown-entry-kind",
            Tfm1Error::ExecutableFlag => "executable-flag",
            Tfm1Error::UnknownPlanner => "unknown-planner",
            Tfm1Error::ContractName => "contract-name",
            Tfm1Error::ContractVersion => "contract-version",
            Tfm1Error::UnknownRecordTag => "unknown-record-tag",
            Tfm1Error::ZeroLengthRecord => "zero-length-record",
            Tfm1Error::AdjacentHoles => "adjacent-holes",
            Tfm1Error::DataTooLarge => "data-too-large",
            Tfm1Error::RecordLimit => "record-limit",
            Tfm1Error::LengthSumMismatch => "length-sum-mismatch",
            Tfm1Error::EmptyBlobDigest => "empty-blob-digest",
            Tfm1Error::BlobRecords => "blob-records",
            Tfm1Error::SymlinkTarget => "symlink-target",
            Tfm1Error::HardlinkOrdinal => "hardlink-ordinal",
            Tfm1Error::HardlinkTarget => "hardlink-target",
            Tfm1Error::ResourceExhausted => "resource-exhausted",
        }
    }
}

// ---------------------------------------------------------------------------
// Identity
// ---------------------------------------------------------------------------

/// The identity of one snapshot: the SHA-256 of its canonical bytes.
#[derive(Clone, Copy, Debug, PartialEq, Eq, Hash)]
pub struct SnapshotId([u8; 32]);

impl View for SnapshotId {
    type V = Seq<u8>;

    closed spec fn view(&self) -> Seq<u8> {
        self.0@
    }
}

impl SnapshotId {
    pub proof fn is_whole(&self)
        ensures
            self@.len() == 32,
    {
    }

    pub fn from_bytes(bytes: [u8; 32]) -> (id: Self)
        ensures
            id@ == bytes@,
    {
        SnapshotId(bytes)
    }

    pub fn as_bytes(&self) -> (bytes: &[u8; 32])
        ensures
            bytes@ == self@,
    {
        &self.0
    }

    /// The identity of one canonical encoding: exactly its SHA-256.
    pub fn of(canonical_bytes: &[u8]) -> (id: Self)
        ensures
            id@ == sha256(canonical_bytes@),
    {
        SnapshotId(sha256_digest(canonical_bytes))
    }

    /// Parses sixty-four characters of lowercase hexadecimal.
    pub fn parse_hex(text: &str) -> (id: Option<Self>)
        ensures
            match id {
                Some(i) => digest_of_hex(text@) == Some(i@),
                None => digest_of_hex(text@) is None,
            },
    {
        let chars = chars_of(text);
        match parse_digest_chars(&chars) {
            Some(bytes) => Some(SnapshotId(bytes)),
            None => None,
        }
    }

    /// The display form: sixty-four lowercase hexadecimal digits.
    pub fn to_text(&self) -> (text: String)
        ensures
            text@ == hex(self@),
    {
        let mut text = String::new();
        push_hex(&mut text, &self.0);
        assert(text@ =~= hex(self@));
        text
    }
}

/// An identity is read back from its display form, and from no other text
/// that holds no plus sign.
pub proof fn snapshot_id_round_trip(id: Seq<u8>, text: Seq<char>)
    requires
        id.len() == 32,
    ensures
        digest_of_hex(hex(id)) == Some(id),
        digest_of_hex(text) == Some(id) && !text.contains('+') ==> text == hex(id),
{
    digest_of_hex_reads_back(id);
    if !text.contains('+') {
        digest_of_hex_is_its_spelling(text);
    }
}

// ---------------------------------------------------------------------------
// Records and bodies
// ---------------------------------------------------------------------------

/// Mirrors the planner's bounded object cardinality for one regular file.
pub const MAX_FILE_RECORDS: usize = 1000000;

/// One run of a file's bytes: an object, or a hole.
#[derive(Clone, Copy, Debug, PartialEq, Eq)]
pub enum FileRecord {
    Data { digest: ObjectDigest, length: u64 },
    Hole { length: u64 },
}

/// The value of a [`FileRecord`].
pub enum RecordModel {
    Data { digest: Seq<u8>, length: u64 },
    Hole { length: u64 },
}

impl View for FileRecord {
    type V = RecordModel;

    open spec fn view(&self) -> RecordModel {
        match self {
            FileRecord::Data { digest, length } => RecordModel::Data {
                digest: digest@,
                length: *length,
            },
            FileRecord::Hole { length } => RecordModel::Hole { length: *length },
        }
    }
}

/// The values of a list of records.
pub open spec fn record_models(records: Seq<FileRecord>) -> Seq<RecordModel> {
    records.map_values(|record: FileRecord| record@)
}

impl RecordModel {
    pub open spec fn length(self) -> u64 {
        match self {
            RecordModel::Data { length, .. } => length,
            RecordModel::Hole { length } => length,
        }
    }
}

impl FileRecord {
    pub fn length(&self) -> (length: u64)
        ensures
            length == self@.length(),
    {
        match self {
            FileRecord::Data { length, .. } => *length,
            FileRecord::Hole { length } => *length,
        }
    }
}

/// The sum of the lengths of the first `upto` records.
pub open spec fn record_sum(records: Seq<RecordModel>, upto: int) -> nat
    decreases upto,
{
    if upto <= 0 {
        0
    } else {
        record_sum(records, upto - 1) + records[upto - 1].length() as nat
    }
}

/// The total length of a record run.
pub open spec fn run_length(records: Seq<RecordModel>) -> nat {
    record_sum(records, records.len() as int)
}

/// The first rule that the records up to `upto` break, taken one by one: none
/// is empty, no two holes are adjacent, and the sum stays within 64 bits.
pub open spec fn run_error_upto(records: Seq<RecordModel>, upto: int) -> Option<Tfm1Error>
    decreases upto,
{
    if upto <= 0 {
        None
    } else {
        match run_error_upto(records, upto - 1) {
            Some(error) => Some(error),
            None => if records[upto - 1].length() == 0 {
                Some(Tfm1Error::ZeroLengthRecord)
            } else if records[upto - 1] is Hole && upto > 1 && records[upto - 2] is Hole {
                Some(Tfm1Error::AdjacentHoles)
            } else if record_sum(records, upto) > u64::MAX {
                Some(Tfm1Error::LengthSumMismatch)
            } else {
                None
            },
        }
    }
}

/// The first structural rule that a record run of a given size breaks.
pub open spec fn run_error(records: Seq<RecordModel>, logical_size: u64) -> Option<Tfm1Error> {
    if records.len() > MAX_FILE_RECORDS {
        Some(Tfm1Error::RecordLimit)
    } else if run_error_upto(records, records.len() as int) is Some {
        run_error_upto(records, records.len() as int)
    } else if run_length(records) != logical_size {
        Some(Tfm1Error::LengthSumMismatch)
    } else {
        None
    }
}

/// No data record is larger than the tensor grid allows.
pub open spec fn within_grid(records: Seq<RecordModel>) -> bool {
    forall|i: int|
        0 <= i < records.len() && (#[trigger] records[i]) is Data ==> records[i].length()
            <= MAX_OBJECT_SIZE
}

/// The first rule that a tensor body's records break.
pub open spec fn records_error(records: Seq<RecordModel>, logical_size: u64) -> Option<Tfm1Error> {
    match run_error(records, logical_size) {
        Some(error) => Some(error),
        None => if within_grid(records) {
            None
        } else {
            Some(Tfm1Error::DataTooLarge)
        },
    }
}

pub proof fn run_error_stays(records: Seq<RecordModel>, low: int, high: int)
    requires
        0 <= low <= high,
        run_error_upto(records, low) is Some,
    ensures
        run_error_upto(records, high) == run_error_upto(records, low),
    decreases high - low,
{
    if low < high {
        run_error_stays(records, low, high - 1);
    }
}

pub proof fn record_sum_grows(records: Seq<RecordModel>, low: int, high: int)
    requires
        0 <= low <= high,
    ensures
        record_sum(records, low) <= record_sum(records, high),
    decreases high - low,
{
    if low < high {
        record_sum_grows(records, low, high - 1);
    }
}

/// The structural rules every record run obeys: bounded cardinality, no empty
/// record, no adjacent holes, and an exact sum of lengths.
pub fn validate_record_run(records: &[FileRecord], logical_size: u64) -> (outcome: Result<
    (),
    Tfm1Error,
>)
    ensures
        match outcome {
            Ok(_) => run_error(record_models(records@), logical_size) is None,
            Err(e) => run_error(record_models(records@), logical_size) == Some(e),
        },
{
    if records.len() > MAX_FILE_RECORDS {
        return Err(Tfm1Error::RecordLimit);
    }
    let ghost models = record_models(records@);
    let mut sum: u64 = 0;
    let mut at: usize = 0;
    let mut behind_hole = false;
    while at < records.len()
        invariant
            at <= records@.len(),
            records@.len() <= MAX_FILE_RECORDS,
            models == record_models(records@),
            run_error_upto(models, at as int) is None,
            sum == record_sum(models, at as int),
            behind_hole == (at > 0 && models[at - 1] is Hole),
        decreases records@.len() - at,
    {
        let record = records[at];
        proof {
            assert(models[at as int] == record@);
            if run_error_upto(models, at + 1) is Some {
                run_error_stays(models, at + 1, models.len() as int);
            }
        }
        let length = record.length();
        if length == 0 {
            return Err(Tfm1Error::ZeroLengthRecord);
        }
        let hole = match record {
            FileRecord::Data { .. } => false,
            FileRecord::Hole { .. } => true,
        };
        if hole && behind_hole {
            return Err(Tfm1Error::AdjacentHoles);
        }
        behind_hole = hole;
        match sum.checked_add(length) {
            Some(next) => {
                sum = next;
            },
            None => {
                return Err(Tfm1Error::LengthSumMismatch);
            },
        }
        at += 1;
    }
    if sum != logical_size {
        return Err(Tfm1Error::LengthSumMismatch);
    }
    Ok(())
}

/// The tensor-body rule: the structural rules and the grid bound on every data
/// record.
pub fn validate_records(records: &[FileRecord], logical_size: u64) -> (outcome: Result<
    (),
    Tfm1Error,
>)
    ensures
        match outcome {
            Ok(_) => records_error(record_models(records@), logical_size) is None,
            Err(e) => records_error(record_models(records@), logical_size) == Some(e),
        },
{
    validate_record_run(records, logical_size)?;
    let ghost models = record_models(records@);
    let mut at: usize = 0;
    while at < records.len()
        invariant
            at <= records@.len(),
            models == record_models(records@),
            run_error(models, logical_size) is None,
            forall|i: int|
                0 <= i < at && (#[trigger] models[i]) is Data ==> models[i].length()
                    <= MAX_OBJECT_SIZE,
        decreases records@.len() - at,
    {
        assert(models[at as int] == records@[at as int]@);
        if let FileRecord::Data { length, .. } = records[at] {
            if length > MAX_OBJECT_SIZE {
                return Err(Tfm1Error::DataTooLarge);
            }
        }
        at += 1;
    }
    Ok(())
}

/// The SHA-256 of the empty byte string: the one canonical digest of an empty
/// blob.
pub const EMPTY_BLOB_DIGEST: [u8; 32] = [
    0xe3,
    0xb0,
    0xc4,
    0x42,
    0x98,
    0xfc,
    0x1c,
    0x14,
    0x9a,
    0xfb,
    0xf4,
    0xc8,
    0x99,
    0x6f,
    0xb9,
    0x24,
    0x27,
    0xae,
    0x41,
    0xe4,
    0x64,
    0x9b,
    0x93,
    0x4c,
    0xa4,
    0x95,
    0x99,
    0x1b,
    0x78,
    0x52,
    0xb8,
    0x55,
];

/// One regular file's canonical content: a tensor container's ordered record
/// list, or one whole blob named by its own SHA-256.
#[derive(Debug, PartialEq, Eq)]
pub enum FileBody {
    Tensor {
        format: TensorFormat,
        contract: Stamp,
        logical_size: u64,
        records: Vec<FileRecord>,
    },
    Blob { logical_size: u64, digest: ObjectDigest },
}

/// The value of a [`FileBody`].
pub enum BodyModel {
    Tensor {
        format: TensorFormat,
        contract: StampModel,
        logical_size: u64,
        records: Seq<RecordModel>,
    },
    Blob { logical_size: u64, digest: Seq<u8> },
}

impl View for FileBody {
    type V = BodyModel;

    open spec fn view(&self) -> BodyModel {
        match self {
            FileBody::Tensor { format, contract, logical_size, records } => BodyModel::Tensor {
                format: *format,
                contract: contract@,
                logical_size: *logical_size,
                records: record_models(records@),
            },
            FileBody::Blob { logical_size, digest } => BodyModel::Blob {
                logical_size: *logical_size,
                digest: digest@,
            },
        }
    }
}

/// How many bytes the stamp of a nameless contract takes: `sha256:` and the
/// digits of its digest. No name is as long.
pub const DIGEST_STAMP_BYTES: usize = 71;

/// A stamp as the manifest carries it: a name and a version. A nameless contract
/// is named by its digest, `sha256:<64 hex digits>`, and has version zero; where
/// there is no contract, the name is empty and the version zero.
pub open spec fn stamp_bytes(stamp: StampModel) -> Seq<u8> {
    let (name, version) = match stamp {
        StampModel::Absent => (Seq::empty(), 0u32),
        StampModel::Named(handle) => (encode_utf8(handle.name), handle.version),
        StampModel::Digest(_) => (encode_utf8(stamp_spelling(stamp)), 0u32),
    };
    seq![name.len() as u8] + name + le_bytes(version as nat, 4)
}

/// One encoded record.
pub open spec fn record_bytes(record: RecordModel) -> Seq<u8> {
    match record {
        RecordModel::Data { digest, length } => seq![1u8] + digest + le_bytes(length as nat, 8),
        RecordModel::Hole { length } => seq![2u8] + le_bytes(length as nat, 8),
    }
}

/// The first `upto` encoded records.
pub open spec fn records_bytes(records: Seq<RecordModel>, upto: int) -> Seq<u8>
    decreases upto,
{
    if upto <= 0 {
        Seq::empty()
    } else {
        records_bytes(records, upto - 1) + record_bytes(records[upto - 1])
    }
}

pub open spec fn format_tag(format: TensorFormat) -> u8 {
    match format {
        TensorFormat::SafetensorsV1 => 1,
        TensorFormat::GgufV1 => 2,
    }
}

/// One file body's canonical encoding: the planner tag and the body.
pub open spec fn body_bytes(body: BodyModel) -> Seq<u8> {
    match body {
        BodyModel::Tensor { format, contract, logical_size, records } => seq![format_tag(format)]
            + le_bytes(logical_size as nat, 8) + stamp_bytes(contract) + le_bytes(
            records.len() as u64 as nat,
            8,
        ) + records_bytes(records, records.len() as int),
        BodyModel::Blob { logical_size, digest } => seq![4u8] + le_bytes(logical_size as nat, 8)
            + digest,
    }
}

fn emit_stamp(bytes: &mut Vec<u8>, stamp: &Stamp)
    ensures
        final(bytes)@ == old(bytes)@ + stamp_bytes(stamp@),
{
    match stamp {
        Stamp::Named(handle) => {
            let name = handle.name().as_bytes();
            bytes.push(name.len() as u8);
            push_bytes(bytes, name);
            push_le(bytes, handle.version() as u64, 4);
        },
        Stamp::Digest(_) => {
            let text = stamp.to_text();
            let name = text.as_str().as_bytes();
            bytes.push(name.len() as u8);
            push_bytes(bytes, name);
            push_le(bytes, 0, 4);
        },
        Stamp::Absent => {
            bytes.push(0);
            push_le(bytes, 0, 4);
        },
    }
    assert(bytes@ =~= old(bytes)@ + stamp_bytes(stamp@));
}

fn emit_record(bytes: &mut Vec<u8>, record: &FileRecord)
    ensures
        final(bytes)@ == old(bytes)@ + record_bytes(record@),
{
    match record {
        FileRecord::Data { digest, length } => {
            bytes.push(1);
            push_bytes(bytes, digest.as_bytes());
            push_le(bytes, *length, 8);
        },
        FileRecord::Hole { length } => {
            bytes.push(2);
            push_le(bytes, *length, 8);
        },
    }
    assert(bytes@ =~= old(bytes)@ + record_bytes(record@));
}

fn emit_body(bytes: &mut Vec<u8>, body: &FileBody)
    ensures
        final(bytes)@ == old(bytes)@ + body_bytes(body@),
{
    match body {
        FileBody::Tensor { format, contract, logical_size, records } => {
            let tag: u8 = match format {
                TensorFormat::SafetensorsV1 => 1,
                TensorFormat::GgufV1 => 2,
            };
            bytes.push(tag);
            push_le(bytes, *logical_size, 8);
            emit_stamp(bytes, contract);
            push_le(bytes, records.len() as u64, 8);
            let ghost models = record_models(records@);
            let ghost base = bytes@;
            let mut at: usize = 0;
            while at < records.len()
                invariant
                    at <= records@.len(),
                    models == record_models(records@),
                    bytes@ == base + records_bytes(models, at as int),
                decreases records@.len() - at,
            {
                assert(models[at as int] == records@[at as int]@);
                emit_record(bytes, &records[at]);
                assert(bytes@ =~= base + records_bytes(models, at + 1));
                at += 1;
            }
        },
        FileBody::Blob { logical_size, digest } => {
            bytes.push(4);
            push_le(bytes, *logical_size, 8);
            push_bytes(bytes, digest.as_bytes());
        },
    }
    assert(bytes@ =~= old(bytes)@ + body_bytes(body@));
}

impl BodyModel {
    pub open spec fn size(self) -> u64 {
        match self {
            BodyModel::Tensor { logical_size, .. } => logical_size,
            BodyModel::Blob { logical_size, .. } => logical_size,
        }
    }

    pub open spec fn planner(self) -> PlannerId {
        match self {
            BodyModel::Tensor { format, .. } => format.planner(),
            BodyModel::Blob { .. } => PlannerId::BlobV1,
        }
    }

    /// The body as an ordered record run: a tensor body's records, one
    /// whole-file data record for a blob, none for an empty one.
    pub open spec fn run(self) -> Seq<RecordModel> {
        match self {
            BodyModel::Tensor { records, .. } => records,
            BodyModel::Blob { logical_size, digest } => if logical_size == 0 {
                Seq::empty()
            } else {
                seq![RecordModel::Data { digest, length: logical_size }]
            },
        }
    }
}

impl FileBody {
    pub fn logical_size(&self) -> (size: u64)
        ensures
            size == self@.size(),
    {
        match self {
            FileBody::Tensor { logical_size, .. } => *logical_size,
            FileBody::Blob { logical_size, .. } => *logical_size,
        }
    }

    pub fn planner_id(&self) -> (planner: PlannerId)
        ensures
            planner == self@.planner(),
    {
        match self {
            FileBody::Tensor { format, .. } => format.planner_id(),
            FileBody::Blob { .. } => PlannerId::BlobV1,
        }
    }

    /// This file's identity: SHA-256 over the body's canonical encoding.
    pub fn body_sha256(&self) -> (digest: ObjectDigest)
        ensures
            digest@ == sha256(body_bytes(self@)),
    {
        let mut bytes: Vec<u8> = Vec::new();
        emit_body(&mut bytes, self);
        assert(bytes@ =~= body_bytes(self@));
        ObjectDigest::from_bytes(sha256_digest(&bytes))
    }

    /// The body as an ordered record run.
    pub fn records(&self) -> (records: Vec<FileRecord>)
        ensures
            record_models(records@) == self@.run(),
    {
        match self {
            FileBody::Tensor { records, .. } => vstd::slice::slice_to_vec(records),
            FileBody::Blob { logical_size, digest } => {
                let mut records: Vec<FileRecord> = Vec::new();
                if *logical_size != 0 {
                    records.push(FileRecord::Data { digest: *digest, length: *logical_size });
                }
                assert(record_models(records@) =~= self@.run());
                records
            },
        }
    }
}

// ---------------------------------------------------------------------------
// Snapshots
// ---------------------------------------------------------------------------

/// One entry of a manifest.
#[derive(Debug, PartialEq, Eq)]
pub enum Entry {
    Directory,
    File { executable: bool, body: FileBody },
    Symlink { target: String },
    Hardlink { ordinal: u64 },
}

/// The value of an [`Entry`].
pub enum EntryModel {
    Directory,
    File { executable: bool, body: BodyModel },
    Symlink { target: Seq<char> },
    Hardlink { ordinal: u64 },
}

impl View for Entry {
    type V = EntryModel;

    open spec fn view(&self) -> EntryModel {
        match self {
            Entry::Directory => EntryModel::Directory,
            Entry::File { executable, body } => EntryModel::File {
                executable: *executable,
                body: body@,
            },
            Entry::Symlink { target } => EntryModel::Symlink { target: target@ },
            Entry::Hardlink { ordinal } => EntryModel::Hardlink { ordinal: *ordinal },
        }
    }
}

/// One encoded entry behind its path.
pub open spec fn entry_bytes(entry: EntryModel) -> Seq<u8> {
    match entry {
        EntryModel::Directory => seq![1u8],
        EntryModel::File { executable, body } => seq![
            2u8,
            if executable {
                1u8
            } else {
                0u8
            },
        ] + body_bytes(body),
        EntryModel::Symlink { target } => seq![3u8] + le_bytes(
            encode_utf8(target).len() as u32 as nat,
            4,
        ) + encode_utf8(target),
        EntryModel::Hardlink { ordinal } => seq![4u8] + le_bytes(ordinal as nat, 8),
    }
}

/// One encoded path.
pub open spec fn path_bytes(path: Seq<char>) -> Seq<u8> {
    le_bytes(encode_utf8(path).len() as u32 as nat, 4) + encode_utf8(path)
}

/// The first `upto` encoded entries with their paths.
pub open spec fn entries_bytes(entries: Seq<(Seq<char>, EntryModel)>, upto: int) -> Seq<u8>
    decreases upto,
{
    if upto <= 0 {
        Seq::empty()
    } else {
        entries_bytes(entries, upto - 1) + (path_bytes(entries[upto - 1].0) + entry_bytes(
            entries[upto - 1].1,
        ))
    }
}

/// The value of a [`Snapshot`].
pub struct SnapshotModel {
    pub parent: Option<Seq<u8>>,
    pub entries: Seq<(Seq<char>, EntryModel)>,
}

pub open spec fn magic() -> Seq<u8> {
    seq![84u8, 70, 77, 49]
}

/// What stands before the entries.
pub open spec fn heading_bytes(snapshot: SnapshotModel) -> Seq<u8> {
    magic() + (match snapshot.parent {
        None => seq![0u8],
        Some(parent) => seq![1u8] + parent,
    }) + le_bytes(snapshot.entries.len() as u64 as nat, 8)
}

/// The canonical encoding of a snapshot.
pub open spec fn encoding(snapshot: SnapshotModel) -> Seq<u8> {
    heading_bytes(snapshot) + entries_bytes(snapshot.entries, snapshot.entries.len() as int)
}

/// The values of a list of entries.
pub open spec fn entry_models(entries: Seq<(String, Entry)>) -> Seq<(Seq<char>, EntryModel)> {
    entries.map_values(|pair: (String, Entry)| (pair.0@, pair.1@))
}

/// One decoded or built snapshot.
#[derive(Debug, PartialEq, Eq)]
pub struct Snapshot {
    parent: Option<SnapshotId>,
    entries: Vec<(String, Entry)>,
}

pub open spec fn parent_model(parent: Option<SnapshotId>) -> Option<Seq<u8>> {
    match parent {
        Some(id) => Some(id@),
        None => None,
    }
}

impl View for Snapshot {
    type V = SnapshotModel;

    closed spec fn view(&self) -> SnapshotModel {
        SnapshotModel { parent: parent_model(self.parent), entries: entry_models(self.entries@) }
    }
}

fn emit_entry(bytes: &mut Vec<u8>, path: &str, entry: &Entry)
    ensures
        final(bytes)@ == old(bytes)@ + (path_bytes(path@) + entry_bytes(entry@)),
{
    let spelled = path.as_bytes();
    push_le(bytes, spelled.len() as u32 as u64, 4);
    push_bytes(bytes, spelled);
    match entry {
        Entry::Directory => {
            bytes.push(1);
        },
        Entry::File { executable, body } => {
            bytes.push(2);
            let flag: u8 = if *executable {
                1
            } else {
                0
            };
            bytes.push(flag);
            emit_body(bytes, body);
        },
        Entry::Symlink { target } => {
            let spelled = target.as_str().as_bytes();
            bytes.push(3);
            push_le(bytes, spelled.len() as u32 as u64, 4);
            push_bytes(bytes, spelled);
        },
        Entry::Hardlink { ordinal } => {
            bytes.push(4);
            push_le(bytes, *ordinal, 8);
        },
    }
    assert(bytes@ =~= old(bytes)@ + (path_bytes(path@) + entry_bytes(entry@)));
}

/// The number of regular files among the first `upto` entries.
pub open spec fn files_before(entries: Seq<(Seq<char>, EntryModel)>, upto: int) -> nat
    decreases upto,
{
    if upto <= 0 {
        0
    } else {
        files_before(entries, upto - 1) + if entries[upto - 1].1 is File {
            1nat
        } else {
            0nat
        }
    }
}

impl Snapshot {
    pub fn parent(&self) -> (parent: Option<&SnapshotId>)
        ensures
            match parent {
                Some(id) => self@.parent == Some(id@),
                None => self@.parent is None,
            },
    {
        self.parent.as_ref()
    }

    pub fn entries(&self) -> (entries: &[(String, Entry)])
        ensures
            entry_models(entries@) == self@.entries,
    {
        &self.entries
    }

    /// The canonical bytes.
    pub fn to_bytes(&self) -> (bytes: Vec<u8>)
        ensures
            bytes@ == encoding(self@),
    {
        let mut bytes: Vec<u8> = Vec::new();
        bytes.push(84);
        bytes.push(70);
        bytes.push(77);
        bytes.push(49);
        assert(bytes@ =~= magic());
        match &self.parent {
            None => {
                bytes.push(0);
            },
            Some(parent) => {
                bytes.push(1);
                push_bytes(&mut bytes, parent.as_bytes());
            },
        }
        push_le(&mut bytes, self.entries.len() as u64, 8);
        let ghost models = self@.entries;
        assert(bytes@ =~= heading_bytes(self@));
        let mut at: usize = 0;
        while at < self.entries.len()
            invariant
                at <= self.entries@.len(),
                models == entry_models(self.entries@),
                bytes@ == heading_bytes(self@) + entries_bytes(models, at as int),
            decreases self.entries@.len() - at,
        {
            let pair = &self.entries[at];
            assert(models[at as int] == (pair.0@, pair.1@));
            emit_entry(&mut bytes, pair.0.as_str(), &pair.1);
            assert(bytes@ =~= heading_bytes(self@) + entries_bytes(models, at + 1));
            at += 1;
        }
        bytes
    }

    /// The identity: the SHA-256 of the canonical bytes.
    pub fn snapshot_id(&self) -> (id: SnapshotId)
        ensures
            id@ == sha256(encoding(self@)),
    {
        SnapshotId::of(&self.to_bytes())
    }

    /// Resolves a hardlink ordinal to the carrier path, in ordinal order.
    pub fn ordinal_path(&self, ordinal: u64) -> (path: Option<&str>)
        ensures
            match path {
                Some(p) => exists|i: int|
                    0 <= i < self@.entries.len() && (#[trigger] self@.entries[i]).1 is File
                        && files_before(self@.entries, i) == ordinal && p@ == self@.entries[i].0,
                None => ordinal >= files_before(self@.entries, self@.entries.len() as int),
            },
    {
        let ghost models = self@.entries;
        let mut seen: u64 = 0;
        let mut at: usize = 0;
        while at < self.entries.len()
            invariant
                at <= self.entries@.len(),
                models == entry_models(self.entries@),
                models == self@.entries,
                seen == files_before(models, at as int),
                seen <= ordinal,
                seen <= at,
            decreases self.entries@.len() - at,
        {
            let pair = &self.entries[at];
            assert(models[at as int] == (pair.0@, pair.1@));
            if let Entry::File { .. } = pair.1 {
                if seen == ordinal {
                    return Some(pair.0.as_str());
                }
                seen += 1;
            }
            at += 1;
        }
        None
    }
}

} // verus!
