//! One encoding is canonical: decoding accepts exactly the encodings of valid
//! snapshots, and gives each back.

use super::decode::{
    body_at, decoded, directories_of, entry_at, member_at, members_at, nothing_gathered, parent_at,
    path_at, paths_of, record_at, records_at, rising_entries, stamp_at, tensor_body_at, Gathered,
};
use super::path::{path_error, usable_target};
use super::tree::tree_error;
use super::{
    body_bytes, encoding, entries_bytes, entry_bytes, files_before, format_tag, heading_bytes,
    magic, path_bytes, record_bytes, records_bytes, records_error, run_error_upto, run_length,
    stamp_bytes, within_grid, BodyModel, EntryModel, RecordModel, SnapshotModel, Tfm1Error,
    DIGEST_STAMP_BYTES, EMPTY_BLOB_DIGEST,
};
use crate::contract::{
    stamp_of, stamp_round_trip, stamp_spelling, Refusal, StampModel, MAX_CONTRACT_NAME_BYTES,
};
use crate::planner::TensorFormat;
use crate::text::{bytes_less, hex, hex_of_unhex, unhex};
use crate::wire::{
    le_bytes, stands_at, stands_split, stands_u32, stands_u64, stands_u8, u32_at, u64_at,
};
use vstd::prelude::*;
use vstd::utf8::{
    decode_utf8, decode_utf8_encode_utf8, encode_utf8, encode_utf8_decode_utf8,
    encode_utf8_valid_utf8, is_ascii_chars, is_ascii_chars_encode_utf8, valid_utf8,
};

verus! {

/// A stamp that the manifest can carry: none, a usable handle or a whole digest.
pub open spec fn carried(stamp: StampModel) -> bool {
    stamp.wf()
}

/// Records whose digests are whole.
pub open spec fn whole_digests(records: Seq<RecordModel>) -> bool {
    forall|i: int|
        0 <= i < records.len() ==> ((#[trigger] records[i]) matches RecordModel::Data { digest, .. }
            ==> digest.len() == 32)
}

/// A valid file body.
pub open spec fn valid_body(body: BodyModel) -> bool {
    match body {
        BodyModel::Tensor { contract, logical_size, records, .. } => carried(contract)
            && whole_digests(records) && records_error(records, logical_size) is None,
        BodyModel::Blob { logical_size, digest } => digest.len() == 32 && (logical_size == 0
            ==> digest == EMPTY_BLOB_DIGEST@),
    }
}

/// A valid entry, `ordinals` files standing before it.
pub open spec fn valid_entry(entry: EntryModel, ordinals: nat) -> bool {
    match entry {
        EntryModel::Directory => true,
        EntryModel::File { body, .. } => valid_body(body),
        EntryModel::Symlink { target } => usable_target(target),
        EntryModel::Hardlink { ordinal } => ordinal < ordinals,
    }
}

/// Valid entries: usable rising paths, each entry valid where it stands.
pub open spec fn valid_entries(entries: Seq<(Seq<char>, EntryModel)>) -> bool {
    &&& rising_entries(entries)
    &&& forall|i: int| 0 <= i < entries.len() ==> path_error((#[trigger] entries[i]).0) is None
    &&& forall|i: int|
        0 <= i < entries.len() ==> valid_entry(
            (#[trigger] entries[i]).1,
            files_before(entries, i),
        )
}

/// A valid snapshot.
pub open spec fn valid(snapshot: SnapshotModel) -> bool {
    &&& (snapshot.parent matches Some(parent) ==> parent.len() == 32)
    &&& snapshot.entries.len() <= u64::MAX
    &&& valid_entries(snapshot.entries)
    &&& tree_error(paths_of(snapshot.entries), directories_of(snapshot.entries)) is None
}

// ---------------------------------------------------------------------------
// Stamps
// ---------------------------------------------------------------------------

proof fn hex_is_ascii(bytes: Seq<u8>)
    ensures
        is_ascii_chars(hex(bytes)),
        hex(bytes).len() == 2 * bytes.len(),
    decreases bytes.len(),
{
    if bytes.len() > 0 {
        hex_is_ascii(bytes.drop_last());
    }
}

/// The spelling of a digest is as long as no name is.
proof fn digest_spelling_is_long(digest: Seq<u8>)
    requires
        digest.len() == 32,
    ensures
        encode_utf8(stamp_spelling(StampModel::Digest(digest))).len() == DIGEST_STAMP_BYTES,
{
    let text = stamp_spelling(StampModel::Digest(digest));
    reveal_strlit("sha256:");
    hex_is_ascii(digest);
    assert(is_ascii_chars(text)) by {
        assert forall|i: int| 0 <= i < text.len() implies '\0' <= #[trigger] text[i] <= '\u{7f}' by {
            if i >= 7 {
                assert(text[i] == hex(digest)[i - 7]);
            }
        }
    }
    is_ascii_chars_encode_utf8(text);
}

/// A text that is read as a digest is the digest's spelling.
proof fn digest_is_spelled(text: Seq<char>)
    requires
        stamp_of(text) matches Ok(StampModel::Digest(_)),
    ensures
        stamp_spelling(stamp_of(text)->Ok_0) == text,
        stamp_of(text)->Ok_0.wf(),
{
    reveal_strlit("sha256:");
    let digest = unhex(text.skip(7)).unwrap();
    hex_of_unhex(text.skip(7));
    assert(stamp_of(text) == Ok::<StampModel, Refusal>(StampModel::Digest(digest)));
    assert(text =~= "sha256:"@ + hex(digest)) by {
        assert(text.take(7) =~= "sha256:"@);
        assert(text =~= text.take(7) + text.skip(7));
    }
}

proof fn stamp_read(b: Seq<u8>, pos: int)
    requires
        0 <= pos,
        stamp_at(b, pos) is Ok,
    ensures
        ({
            let (stamp, end) = stamp_at(b, pos)->Ok_0;
            carried(stamp) && stands_at(b, pos, stamp_bytes(stamp)) && end == pos + stamp_bytes(
                stamp,
            ).len()
        }),
{
    let (stamp, end) = stamp_at(b, pos)->Ok_0;
    let n = b[pos] as int;
    let name = b.subrange(pos + 1, pos + 1 + n);
    let version = u32_at(b, pos + 1 + n);
    decode_utf8_encode_utf8(name);
    stands_u8(b, pos, n as u8);
    stands_u32(b, pos + 1 + n, version);
    let tag = seq![n as u8];
    assert(stands_at(b, pos + 1, name));
    stands_split(b, pos, tag, name);
    stands_split(b, pos, tag + name, le_bytes(version as nat, 4));
    if n == 0 {
        assert(name =~= Seq::<u8>::empty());
    } else if n == DIGEST_STAMP_BYTES {
        digest_is_spelled(decode_utf8(name));
    }
    assert(stamp_bytes(stamp) =~= tag + name + le_bytes(version as nat, 4));
}

proof fn stamp_written(b: Seq<u8>, pos: int, stamp: StampModel)
    requires
        carried(stamp),
        stands_at(b, pos, stamp_bytes(stamp)),
    ensures
        stamp_at(b, pos) == Ok::<(StampModel, int), Tfm1Error>(
            (stamp, pos + stamp_bytes(stamp).len()),
        ),
{
    let (name, version) = match stamp {
        StampModel::Absent => (Seq::empty(), 0u32),
        StampModel::Named(handle) => (encode_utf8(handle.name), handle.version),
        StampModel::Digest(_) => (encode_utf8(stamp_spelling(stamp)), 0u32),
    };
    if let StampModel::Digest(digest) = stamp {
        digest_spelling_is_long(digest);
    }
    let tag = seq![name.len() as u8];
    stands_split(b, pos, tag + name, le_bytes(version as nat, 4));
    stands_split(b, pos, tag, name);
    stands_u8(b, pos, name.len() as u8);
    stands_u32(b, pos + 1 + name.len(), version);
    assert(name.len() <= MAX_CONTRACT_NAME_BYTES || name.len() == DIGEST_STAMP_BYTES);
    assert(b.subrange(pos + 1, pos + 1 + b[pos]) == name);
    match stamp {
        StampModel::Named(handle) => {
            encode_utf8_valid_utf8(handle.name);
            encode_utf8_decode_utf8(handle.name);
            if name.len() == 0 {
                assert(valid_utf8(name));
                assert(decode_utf8(name) =~= Seq::<char>::empty());
            }
        },
        StampModel::Digest(_) => {
            let text = stamp_spelling(stamp);
            encode_utf8_valid_utf8(text);
            encode_utf8_decode_utf8(text);
            stamp_round_trip(stamp);
        },
        StampModel::Absent => {},
    }
}

// ---------------------------------------------------------------------------
// Records
// ---------------------------------------------------------------------------

proof fn record_read(b: Seq<u8>, pos: int)
    requires
        0 <= pos,
        record_at(b, pos) is Ok,
    ensures
        ({
            let (record, end) = record_at(b, pos)->Ok_0;
            &&& stands_at(b, pos, record_bytes(record))
            &&& end == pos + record_bytes(record).len()
            &&& (record matches RecordModel::Data { digest, .. } ==> digest.len() == 32)
        }),
{
    let (record, end) = record_at(b, pos)->Ok_0;
    match record {
        RecordModel::Data { digest, length } => {
            stands_u8(b, pos, 1);
            assert(stands_at(b, pos + 1, digest));
            stands_u64(b, pos + 33, length);
            stands_split(b, pos, seq![1u8], digest);
            stands_split(b, pos, seq![1u8] + digest, le_bytes(length as nat, 8));
        },
        RecordModel::Hole { length } => {
            stands_u8(b, pos, 2);
            stands_u64(b, pos + 1, length);
            stands_split(b, pos, seq![2u8], le_bytes(length as nat, 8));
        },
    }
}

proof fn record_written(b: Seq<u8>, pos: int, record: RecordModel)
    requires
        record matches RecordModel::Data { digest, .. } ==> digest.len() == 32,
        stands_at(b, pos, record_bytes(record)),
    ensures
        record_at(b, pos) == Ok::<(RecordModel, int), Tfm1Error>(
            (record, pos + record_bytes(record).len()),
        ),
        record_bytes(record).len() >= 9,
{
    match record {
        RecordModel::Data { digest, length } => {
            stands_split(b, pos, seq![1u8] + digest, le_bytes(length as nat, 8));
            stands_split(b, pos, seq![1u8], digest);
            stands_u8(b, pos, 1);
            stands_u64(b, pos + 33, length);
        },
        RecordModel::Hole { length } => {
            stands_split(b, pos, seq![2u8], le_bytes(length as nat, 8));
            stands_u8(b, pos, 2);
            stands_u64(b, pos + 1, length);
        },
    }
}

proof fn records_bytes_of_prefix(a: Seq<RecordModel>, b: Seq<RecordModel>, upto: int)
    requires
        0 <= upto <= a.len(),
        upto <= b.len(),
        forall|i: int| 0 <= i < upto ==> a[i] == b[i],
    ensures
        records_bytes(a, upto) == records_bytes(b, upto),
    decreases upto,
{
    if upto > 0 {
        records_bytes_of_prefix(a, b, upto - 1);
    }
}

proof fn records_read(b: Seq<u8>, start: int, pos: int, count: nat, found: Seq<RecordModel>)
    requires
        0 <= start,
        whole_digests(found),
        stands_at(b, start, records_bytes(found, found.len() as int)),
        pos == start + records_bytes(found, found.len() as int).len(),
        records_at(b, pos, count, found) is Ok,
    ensures
        ({
            let (records, end) = records_at(b, pos, count, found)->Ok_0;
            let bytes = records_bytes(records, records.len() as int);
            &&& whole_digests(records)
            &&& records.len() == found.len() + count
            &&& stands_at(b, start, bytes)
            &&& end == start + bytes.len()
        }),
    decreases count,
{
    if count > 0 {
        record_read(b, pos);
        let (record, next) = record_at(b, pos)->Ok_0;
        let more = found.push(record);
        records_bytes_of_prefix(more, found, found.len() as int);
        stands_split(b, start, records_bytes(found, found.len() as int), record_bytes(record));
        assert(records_bytes(more, more.len() as int) == records_bytes(found, found.len() as int)
            + record_bytes(record));
        assert forall|i: int| 0 <= i < more.len() implies ((#[trigger] more[i]) matches RecordModel::Data {
            digest,
            ..
        } ==> digest.len() == 32) by {
            if i < found.len() {
                assert(more[i] == found[i]);
            }
        }
        records_read(b, start, next, (count - 1) as nat, more);
    }
}

proof fn records_written(b: Seq<u8>, start: int, records: Seq<RecordModel>, at: int)
    requires
        whole_digests(records),
        0 <= at <= records.len(),
        stands_at(b, start, records_bytes(records, records.len() as int)),
    ensures
        records_at(
            b,
            start + records_bytes(records, at).len(),
            (records.len() - at) as nat,
            records.take(at),
        ) == Ok::<(Seq<RecordModel>, int), Tfm1Error>(
            (records, start + records_bytes(records, records.len() as int).len()),
        ),
        9 * at <= records_bytes(records, at).len(),
    decreases records.len() - at,
{
    records_prefix_stands(b, start, records, at);
    records_are_long(b, start, records, at);
    if at == records.len() {
        assert(records.take(at) =~= records);
    } else {
        records_written(b, start, records, at + 1);
        records_prefix_stands(b, start, records, at + 1);
        stands_split(b, start, records_bytes(records, at), record_bytes(records[at]));
        record_written(b, start + records_bytes(records, at).len(), records[at]);
        assert(records.take(at).push(records[at]) =~= records.take(at + 1));
    }
}

proof fn records_are_long(b: Seq<u8>, start: int, records: Seq<RecordModel>, upto: int)
    requires
        whole_digests(records),
        0 <= upto <= records.len(),
        stands_at(b, start, records_bytes(records, upto)),
    ensures
        9 * upto <= records_bytes(records, upto).len(),
    decreases upto,
{
    if upto > 0 {
        stands_split(b, start, records_bytes(records, upto - 1), record_bytes(records[upto - 1]));
        records_are_long(b, start, records, upto - 1);
        record_written(b, start + records_bytes(records, upto - 1).len(), records[upto - 1]);
    }
}

proof fn records_prefix_stands(b: Seq<u8>, start: int, records: Seq<RecordModel>, upto: int)
    requires
        0 <= upto <= records.len(),
        stands_at(b, start, records_bytes(records, records.len() as int)),
    ensures
        stands_at(b, start, records_bytes(records, upto)),
    decreases records.len() - upto,
{
    if upto < records.len() {
        records_prefix_stands(b, start, records, upto + 1);
        stands_split(b, start, records_bytes(records, upto), record_bytes(records[upto]));
    }
}

// ---------------------------------------------------------------------------
// Bodies
// ---------------------------------------------------------------------------

proof fn tensor_body_read(b: Seq<u8>, pos: int, format: TensorFormat)
    requires
        0 <= pos,
        pos < b.len(),
        b[pos] == format_tag(format),
        tensor_body_at(b, pos + 1, format) is Ok,
    ensures
        ({
            let (body, end) = tensor_body_at(b, pos + 1, format)->Ok_0;
            valid_body(body) && stands_at(b, pos, body_bytes(body)) && end == pos + body_bytes(
                body,
            ).len()
        }),
{
    let (body, end) = tensor_body_at(b, pos + 1, format)->Ok_0;
    let logical_size = u64_at(b, pos + 1);
    stands_u8(b, pos, format_tag(format));
    stands_u64(b, pos + 1, logical_size);
    stamp_read(b, pos + 9);
    let (contract, at) = stamp_at(b, pos + 9)->Ok_0;
    let count = u64_at(b, at);
    stands_u64(b, at, count);
    assert(b.subrange(at + 8, at + 8) =~= Seq::<u8>::empty());
    assert(stands_at(b, at + 8, records_bytes(Seq::empty(), 0)));
    records_read(b, at + 8, at + 8, count as nat, Seq::empty());
    let (records, _) = records_at(b, at + 8, count as nat, Seq::empty())->Ok_0;
    let x = seq![format_tag(format)];
    let y = le_bytes(logical_size as nat, 8);
    let z = stamp_bytes(contract);
    let w = le_bytes(count as nat, 8);
    stands_split(b, pos, x, y);
    stands_split(b, pos, x + y, z);
    stands_split(b, pos, x + y + z, w);
    stands_split(b, pos, x + y + z + w, records_bytes(records, records.len() as int));
}

proof fn body_read(b: Seq<u8>, pos: int)
    requires
        0 <= pos,
        body_at(b, pos) is Ok,
    ensures
        ({
            let (body, end) = body_at(b, pos)->Ok_0;
            valid_body(body) && stands_at(b, pos, body_bytes(body)) && end == pos + body_bytes(
                body,
            ).len()
        }),
{
    if b[pos] == 1 {
        tensor_body_read(b, pos, TensorFormat::SafetensorsV1);
    } else if b[pos] == 2 {
        tensor_body_read(b, pos, TensorFormat::GgufV1);
    } else {
        let logical_size = u64_at(b, pos + 1);
        let digest = b.subrange(pos + 9, pos + 41);
        stands_u8(b, pos, 4);
        stands_u64(b, pos + 1, logical_size);
        assert(stands_at(b, pos + 9, digest));
        stands_split(b, pos, seq![4u8], le_bytes(logical_size as nat, 8));
        stands_split(b, pos, seq![4u8] + le_bytes(logical_size as nat, 8), digest);
    }
}

proof fn body_written(b: Seq<u8>, pos: int, body: BodyModel)
    requires
        valid_body(body),
        stands_at(b, pos, body_bytes(body)),
    ensures
        body_at(b, pos) == Ok::<(BodyModel, int), Tfm1Error>((body, pos + body_bytes(body).len())),
{
    match body {
        BodyModel::Tensor { format, contract, logical_size, records } => {
            let x = seq![format_tag(format)];
            let y = le_bytes(logical_size as nat, 8);
            let z = stamp_bytes(contract);
            let count = records.len() as u64;
            let w = le_bytes(count as nat, 8);
            let r = records_bytes(records, records.len() as int);
            stands_split(b, pos, x + y + z + w, r);
            stands_split(b, pos, x + y + z, w);
            stands_split(b, pos, x + y, z);
            stands_split(b, pos, x, y);
            stands_u8(b, pos, format_tag(format));
            stands_u64(b, pos + 1, logical_size);
            stamp_written(b, pos + 9, contract);
            let at = pos + 9 + z.len();
            stands_u64(b, at, count);
            assert(records.take(0) =~= Seq::<RecordModel>::empty());
            records_written(b, at + 8, records, 0);
            records_are_long(b, at + 8, records, records.len() as int);
            assert(count <= (b.len() - at - 8) / 9) by {
                assert(9 * count <= b.len() - at - 8);
            }
        },
        BodyModel::Blob { logical_size, digest } => {
            stands_split(b, pos, seq![4u8] + le_bytes(logical_size as nat, 8), digest);
            stands_split(b, pos, seq![4u8], le_bytes(logical_size as nat, 8));
            stands_u8(b, pos, 4);
            stands_u64(b, pos + 1, logical_size);
        },
    }
}

// ---------------------------------------------------------------------------
// Entries
// ---------------------------------------------------------------------------

proof fn entry_read(b: Seq<u8>, pos: int, ordinals: nat)
    requires
        0 <= pos,
        entry_at(b, pos, ordinals) is Ok,
    ensures
        ({
            let (entry, end) = entry_at(b, pos, ordinals)->Ok_0;
            valid_entry(entry, ordinals) && stands_at(b, pos, entry_bytes(entry)) && end == pos
                + entry_bytes(entry).len()
        }),
{
    let (entry, end) = entry_at(b, pos, ordinals)->Ok_0;
    match entry {
        EntryModel::Directory => {
            stands_u8(b, pos, 1);
        },
        EntryModel::File { executable, body } => {
            body_read(b, pos + 2);
            stands_u8(b, pos, 2);
            stands_u8(b, pos + 1, b[pos + 1]);
            stands_split(b, pos, seq![2u8], seq![b[pos + 1]]);
            let head = seq![2u8, b[pos + 1]];
            assert(head =~= seq![2u8] + seq![b[pos + 1]]);
            stands_split(b, pos, head, body_bytes(body));
            assert(entry_bytes(entry) =~= head + body_bytes(body));
        },
        EntryModel::Symlink { target } => {
            let n = u32_at(b, pos + 1);
            let bytes = b.subrange(pos + 5, pos + 5 + n);
            decode_utf8_encode_utf8(bytes);
            stands_u8(b, pos, 3);
            stands_u32(b, pos + 1, n);
            assert(stands_at(b, pos + 5, bytes));
            stands_split(b, pos, seq![3u8], le_bytes(n as nat, 4));
            stands_split(b, pos, seq![3u8] + le_bytes(n as nat, 4), bytes);
        },
        EntryModel::Hardlink { ordinal } => {
            stands_u8(b, pos, 4);
            stands_u64(b, pos + 1, ordinal);
            stands_split(b, pos, seq![4u8], le_bytes(ordinal as nat, 8));
        },
    }
}

proof fn entry_written(b: Seq<u8>, pos: int, entry: EntryModel, ordinals: nat)
    requires
        valid_entry(entry, ordinals),
        stands_at(b, pos, entry_bytes(entry)),
    ensures
        entry_at(b, pos, ordinals) == Ok::<(EntryModel, int), Tfm1Error>(
            (entry, pos + entry_bytes(entry).len()),
        ),
        entry_bytes(entry).len() >= 1,
{
    match entry {
        EntryModel::Directory => {
            stands_u8(b, pos, 1);
        },
        EntryModel::File { executable, body } => {
            let flag: u8 = if executable {
                1
            } else {
                0
            };
            let head = seq![2u8, flag];
            assert(head =~= seq![2u8] + seq![flag]);
            assert(entry_bytes(entry) =~= head + body_bytes(body));
            stands_split(b, pos, head, body_bytes(body));
            stands_split(b, pos, seq![2u8], seq![flag]);
            stands_u8(b, pos, 2);
            stands_u8(b, pos + 1, flag);
            body_written(b, pos + 2, body);
        },
        EntryModel::Symlink { target } => {
            let bytes = encode_utf8(target);
            let n = bytes.len() as u32;
            encode_utf8_valid_utf8(target);
            encode_utf8_decode_utf8(target);
            stands_split(b, pos, seq![3u8] + le_bytes(n as nat, 4), bytes);
            stands_split(b, pos, seq![3u8], le_bytes(n as nat, 4));
            stands_u8(b, pos, 3);
            stands_u32(b, pos + 1, n);
        },
        EntryModel::Hardlink { ordinal } => {
            stands_split(b, pos, seq![4u8], le_bytes(ordinal as nat, 8));
            stands_u8(b, pos, 4);
            stands_u64(b, pos + 1, ordinal);
        },
    }
}

proof fn path_read(b: Seq<u8>, pos: int)
    requires
        0 <= pos,
        path_at(b, pos) is Ok,
    ensures
        ({
            let (path, end) = path_at(b, pos)->Ok_0;
            path_error(path) is None && stands_at(b, pos, path_bytes(path)) && end == pos
                + path_bytes(path).len()
        }),
{
    let n = u32_at(b, pos);
    let bytes = b.subrange(pos + 4, pos + 4 + n);
    decode_utf8_encode_utf8(bytes);
    stands_u32(b, pos, n);
    assert(stands_at(b, pos + 4, bytes));
    stands_split(b, pos, le_bytes(n as nat, 4), bytes);
}

proof fn path_written(b: Seq<u8>, pos: int, path: Seq<char>)
    requires
        path_error(path) is None,
        stands_at(b, pos, path_bytes(path)),
    ensures
        path_at(b, pos) == Ok::<(Seq<char>, int), Tfm1Error>((path, pos + path_bytes(path).len())),
        path_bytes(path).len() >= 5,
{
    let bytes = encode_utf8(path);
    let n = bytes.len() as u32;
    encode_utf8_valid_utf8(path);
    encode_utf8_decode_utf8(path);
    if bytes.len() == 0 {
        assert(decode_utf8(bytes) =~= Seq::<char>::empty());
    }
    stands_split(b, pos, le_bytes(n as nat, 4), bytes);
    stands_u32(b, pos, n);
}

proof fn entries_bytes_of_prefix(
    a: Seq<(Seq<char>, EntryModel)>,
    b: Seq<(Seq<char>, EntryModel)>,
    upto: int,
)
    requires
        0 <= upto <= a.len(),
        upto <= b.len(),
        forall|i: int| 0 <= i < upto ==> a[i] == b[i],
    ensures
        entries_bytes(a, upto) == entries_bytes(b, upto),
        files_before(a, upto) == files_before(b, upto),
    decreases upto,
{
    if upto > 0 {
        entries_bytes_of_prefix(a, b, upto - 1);
    }
}

/// What has been gathered is valid and stands where it was read.
spec fn sound(b: Seq<u8>, start: int, state: Gathered) -> bool {
    let bytes = entries_bytes(state.entries, state.entries.len() as int);
    &&& valid_entries(state.entries)
    &&& state.ordinals == files_before(state.entries, state.entries.len() as int)
    &&& stands_at(b, start, bytes)
    &&& state.position == start + bytes.len()
}

proof fn member_read(b: Seq<u8>, start: int, state: Gathered)
    requires
        0 <= start,
        sound(b, start, state),
        member_at(b, state) is Ok,
    ensures
        sound(b, start, member_at(b, state)->Ok_0),
{
    let next = member_at(b, state)->Ok_0;
    let n = state.entries.len() as int;
    path_read(b, state.position);
    let (path, at) = path_at(b, state.position)->Ok_0;
    entry_read(b, at, state.ordinals);
    let (entry, end) = entry_at(b, at, state.ordinals)->Ok_0;
    let more = next.entries;
    entries_bytes_of_prefix(more, state.entries, n);
    assert(more[n] == (path, entry));
    stands_split(b, state.position, path_bytes(path), entry_bytes(entry));
    stands_split(
        b,
        start,
        entries_bytes(state.entries, n),
        path_bytes(path) + entry_bytes(entry),
    );
    assert(entries_bytes(more, n + 1) == entries_bytes(more, n) + (path_bytes(path) + entry_bytes(
        entry,
    )));
    assert(files_before(more, n + 1) == files_before(more, n) + if entry is File {
        1nat
    } else {
        0nat
    });
    super::decode::push_rises(state.entries, (path, entry));
    assert forall|i: int| 0 <= i < more.len() implies path_error((#[trigger] more[i]).0) is None by {
        if i < n {
            assert(more[i] == state.entries[i]);
        }
    }
    assert forall|i: int| 0 <= i < more.len() implies valid_entry(
        (#[trigger] more[i]).1,
        files_before(more, i),
    ) by {
        entries_bytes_of_prefix(more, state.entries, i);
        if i < n {
            assert(more[i] == state.entries[i]);
        }
    }
}

proof fn members_read(b: Seq<u8>, start: int, state: Gathered, count: nat)
    requires
        0 <= start,
        sound(b, start, state),
        members_at(b, state, count) is Ok,
    ensures
        sound(b, start, members_at(b, state, count)->Ok_0),
        members_at(b, state, count)->Ok_0.entries.len() == state.entries.len() + count,
    decreases count,
{
    if count > 0 {
        member_read(b, start, state);
        let next = member_at(b, state)->Ok_0;
        members_read(b, start, next, (count - 1) as nat);
    }
}

/// What decoding accepts is valid, and its encoding is the decoded bytes.
pub proof fn decoding_is_canonical(b: Seq<u8>)
    requires
        decoded(b) is Ok,
    ensures
        valid(decoded(b)->Ok_0),
        encoding(decoded(b)->Ok_0) == b,
{
    let snapshot = decoded(b)->Ok_0;
    let (parent, at) = parent_at(b)->Ok_0;
    let count = u64_at(b, at);
    let start = at + 8;
    let state = nothing_gathered(start);
    assert(sound(b, start, state)) by {
        assert(b.subrange(start, start) =~= Seq::<u8>::empty());
        assert(paths_of(state.entries) =~= Seq::<Seq<char>>::empty());
    }
    members_read(b, start, state, count as nat);
    let entries = snapshot.entries;
    let body = entries_bytes(entries, entries.len() as int);
    stands_u64(b, at, count);
    assert(stands_at(b, 0, magic()));
    match parent {
        None => {
            stands_u8(b, 4, 0);
            stands_split(b, 0, magic(), seq![0u8]);
            stands_split(b, 0, magic() + seq![0u8], le_bytes(count as nat, 8));
        },
        Some(id) => {
            stands_u8(b, 4, 1);
            assert(stands_at(b, 5, id));
            stands_split(b, 4, seq![1u8], id);
            stands_split(b, 0, magic(), seq![1u8] + id);
            stands_split(b, 0, magic() + (seq![1u8] + id), le_bytes(count as nat, 8));
        },
    }
    stands_split(b, 0, heading_bytes(snapshot), body);
    assert(encoding(snapshot).len() == b.len());
    assert(b.subrange(0, b.len() as int) =~= b);
}

proof fn entries_prefix_stands(
    b: Seq<u8>,
    start: int,
    entries: Seq<(Seq<char>, EntryModel)>,
    upto: int,
)
    requires
        0 <= upto <= entries.len(),
        stands_at(b, start, entries_bytes(entries, entries.len() as int)),
    ensures
        stands_at(b, start, entries_bytes(entries, upto)),
    decreases entries.len() - upto,
{
    if upto < entries.len() {
        entries_prefix_stands(b, start, entries, upto + 1);
        stands_split(
            b,
            start,
            entries_bytes(entries, upto),
            path_bytes(entries[upto].0) + entry_bytes(entries[upto].1),
        );
    }
}

spec fn gathered_upto(start: int, entries: Seq<(Seq<char>, EntryModel)>, at: int) -> Gathered {
    Gathered {
        position: start + entries_bytes(entries, at).len(),
        ordinals: files_before(entries, at),
        entries: entries.take(at),
    }
}

proof fn member_written(
    b: Seq<u8>,
    start: int,
    entries: Seq<(Seq<char>, EntryModel)>,
    at: int,
)
    requires
        valid_entries(entries),
        0 <= at < entries.len(),
        stands_at(b, start, entries_bytes(entries, entries.len() as int)),
    ensures
        member_at(b, gathered_upto(start, entries, at)) == Ok::<Gathered, Tfm1Error>(
            gathered_upto(start, entries, at + 1),
        ),
        entries_bytes(entries, at + 1).len() >= entries_bytes(entries, at).len() + 6,
{
    let state = gathered_upto(start, entries, at);
    let (path, entry) = entries[at];
    entries_prefix_stands(b, start, entries, at + 1);
    stands_split(b, start, entries_bytes(entries, at), path_bytes(path) + entry_bytes(entry));
    stands_split(b, state.position, path_bytes(path), entry_bytes(entry));
    path_written(b, state.position, path);
    entry_written(b, state.position + path_bytes(path).len(), entry, state.ordinals);
    if at > 0 {
        let paths = paths_of(entries);
        assert(paths[at - 1] == entries[at - 1].0 && paths[at] == path);
        assert(bytes_less(encode_utf8(paths[at - 1]), encode_utf8(paths[at])));
        assert(state.entries.last() == entries[at - 1]);
    }
    assert(entries.take(at).push((path, entry)) =~= entries.take(at + 1));
}

proof fn members_written(
    b: Seq<u8>,
    start: int,
    entries: Seq<(Seq<char>, EntryModel)>,
    at: int,
)
    requires
        valid_entries(entries),
        0 <= at <= entries.len(),
        stands_at(b, start, entries_bytes(entries, entries.len() as int)),
    ensures
        members_at(b, gathered_upto(start, entries, at), (entries.len() - at) as nat) == Ok::<
            Gathered,
            Tfm1Error,
        >(gathered_upto(start, entries, entries.len() as int)),
        6 * (entries.len() - at) <= entries_bytes(entries, entries.len() as int).len()
            - entries_bytes(entries, at).len(),
    decreases entries.len() - at,
{
    if at < entries.len() {
        member_written(b, start, entries, at);
        members_written(b, start, entries, at + 1);
    }
}

/// The encoding of a valid snapshot decodes to the snapshot.
pub proof fn encoding_decodes(snapshot: SnapshotModel)
    requires
        valid(snapshot),
    ensures
        decoded(encoding(snapshot)) == Ok::<SnapshotModel, Tfm1Error>(snapshot),
{
    let b = encoding(snapshot);
    let entries = snapshot.entries;
    let count = entries.len() as u64;
    let body = entries_bytes(entries, entries.len() as int);
    let w = le_bytes(count as nat, 8);
    assert(b.subrange(0, b.len() as int) =~= b);
    stands_split(b, 0, heading_bytes(snapshot), body);
    let at: int = match snapshot.parent {
        None => {
            stands_split(b, 0, magic() + seq![0u8], w);
            stands_split(b, 0, magic(), seq![0u8]);
            stands_u8(b, 4, 0);
            5
        },
        Some(id) => {
            stands_split(b, 0, magic() + (seq![1u8] + id), w);
            stands_split(b, 0, magic(), seq![1u8] + id);
            stands_split(b, 4, seq![1u8], id);
            stands_u8(b, 4, 1);
            37
        },
    };
    stands_u64(b, at, count);
    let start = at + 8;
    assert(heading_bytes(snapshot).len() == start);
    members_written(b, start, entries, 0);
    assert(entries.take(0) =~= Seq::<(Seq<char>, EntryModel)>::empty());
    assert(entries.take(entries.len() as int) =~= entries);
    assert(entries_bytes(entries, 0) =~= Seq::<u8>::empty());
    assert(count <= (b.len() - at - 8) / 6) by {
        assert(6 * count <= b.len() - at - 8);
    }
}

/// Two valid snapshots of the same bytes are the same snapshot.
pub proof fn encoding_is_injective(a: SnapshotModel, b: SnapshotModel)
    requires
        valid(a),
        valid(b),
        encoding(a) == encoding(b),
    ensures
        a == b,
{
    encoding_decodes(a);
    encoding_decodes(b);
}

/// The stamp of a file body, none for a blob.
pub open spec fn stamp_of_body(body: BodyModel) -> StampModel {
    match body {
        BodyModel::Tensor { contract, .. } => contract,
        BodyModel::Blob { .. } => StampModel::Absent,
    }
}

/// One file under two contracts is two snapshots: where the stamps of a file
/// differ, a custom contract's digest among them, so do the bytes.
pub proof fn two_stamps_are_two_snapshots(a: SnapshotModel, b: SnapshotModel, i: int)
    requires
        valid(a),
        valid(b),
        0 <= i < a.entries.len(),
        i < b.entries.len(),
        a.entries[i].1 is File,
        b.entries[i].1 is File,
        stamp_of_body(a.entries[i].1->body) != stamp_of_body(b.entries[i].1->body),
    ensures
        encoding(a) != encoding(b),
{
    if encoding(a) == encoding(b) {
        encoding_is_injective(a, b);
    }
}

/// A file's custom contract is written and read back: the bytes of a snapshot
/// decode to it with the digest of the contract still on the file, and they are
/// other bytes than those of the same tree without the contract.
pub proof fn a_custom_contract_is_read_back(
    stamped: SnapshotModel,
    plain: SnapshotModel,
    i: int,
    digest: Seq<u8>,
)
    requires
        valid(stamped),
        valid(plain),
        0 <= i < stamped.entries.len(),
        stamped.entries[i].1 matches EntryModel::File { body, .. } && stamp_of_body(body)
            == StampModel::Digest(digest),
        i < plain.entries.len(),
        plain.entries[i].1 matches EntryModel::File { body, .. } && stamp_of_body(body)
            == StampModel::Absent,
    ensures
        decoded(encoding(stamped)) == Ok::<SnapshotModel, Tfm1Error>(stamped),
        encoding(stamped) != encoding(plain),
{
    encoding_decodes(stamped);
    two_stamps_are_two_snapshots(stamped, plain, i);
}

proof fn run_without_error(records: Seq<RecordModel>, k: int, upto: int)
    requires
        0 <= k < upto,
        run_error_upto(records, upto) is None,
    ensures
        records[k].length() > 0,
        records[k] is Hole && k > 0 ==> !(records[k - 1] is Hole),
    decreases upto,
{
    if k < upto - 1 {
        run_without_error(records, k, upto - 1);
    }
}

/// The records of a tensor container in a valid snapshot, whatever its stamp,
/// add up to its size; none is empty, no two holes are adjacent, and no data
/// record is larger than the grid.
pub proof fn records_add_up(snapshot: SnapshotModel, i: int)
    requires
        valid(snapshot),
        0 <= i < snapshot.entries.len(),
    ensures
        snapshot.entries[i].1 matches EntryModel::File {
            body: BodyModel::Tensor { logical_size, records, .. },
            ..
        } ==> {
            &&& run_length(records) == logical_size
            &&& within_grid(records)
            &&& forall|k: int| 0 <= k < records.len() ==> (#[trigger] records[k]).length() > 0
            &&& forall|k: int|
                0 < k < records.len() && (#[trigger] records[k]) is Hole ==> !(records[k
                    - 1] is Hole)
        },
{
    assert(valid_entry(snapshot.entries[i].1, files_before(snapshot.entries, i)));
    if let EntryModel::File { body: BodyModel::Tensor { records, .. }, .. } = snapshot.entries[i].1 {
        assert forall|k: int| 0 <= k < records.len() implies (#[trigger] records[k]).length() > 0 && (
        records[k] is Hole && k > 0 ==> !(records[k - 1] is Hole)) by {
            run_without_error(records, k, records.len() as int);
        }
    }
}

// ---------------------------------------------------------------------------
// Hardlinks
// ---------------------------------------------------------------------------

/// The place of the file that is number `ordinal` among the files.
pub open spec fn carrier_of(entries: Seq<(Seq<char>, EntryModel)>, ordinal: u64) -> int {
    choose|i: int|
        0 <= i < entries.len() && (#[trigger] entries[i]).1 is File && files_before(entries, i) == ordinal
}

/// Every hardlink of the entries names one of their files.
pub open spec fn ordinals_resolve(entries: Seq<(Seq<char>, EntryModel)>) -> bool {
    forall|i: int|
        0 <= i < entries.len() ==> ((#[trigger] entries[i]).1 matches EntryModel::Hardlink { ordinal }
            ==> ordinal < files_before(entries, entries.len() as int))
}

proof fn files_before_grow(entries: Seq<(Seq<char>, EntryModel)>, i: int, j: int)
    requires
        0 <= i <= j <= entries.len(),
    ensures
        files_before(entries, i) <= files_before(entries, j),
        i < j && entries[i].1 is File ==> files_before(entries, i) < files_before(entries, j),
    decreases j - i,
{
    if i < j {
        files_before_grow(entries, i, j - 1);
    }
}

/// Only one file has a number.
pub proof fn one_carrier(entries: Seq<(Seq<char>, EntryModel)>, ordinal: u64, at: int)
    requires
        0 <= at < entries.len(),
        entries[at].1 is File,
        files_before(entries, at) == ordinal,
    ensures
        carrier_of(entries, ordinal) == at,
{
    let i = carrier_of(entries, ordinal);
    if i < at {
        files_before_grow(entries, i, at);
    } else if at < i {
        files_before_grow(entries, at, i);
    }
}

/// Every hardlink of a valid snapshot names a file that stands before it.
pub proof fn valid_hardlinks_resolve(snapshot: SnapshotModel)
    requires
        valid(snapshot),
    ensures
        ordinals_resolve(snapshot.entries),
{
    let entries = snapshot.entries;
    assert forall|i: int| 0 <= i < entries.len() implies ((#[trigger] entries[i]).1 matches EntryModel::Hardlink {
        ordinal,
    } ==> ordinal < files_before(entries, entries.len() as int)) by {
        assert(valid_entry(entries[i].1, files_before(entries, i)));
        files_before_grow(entries, i, entries.len() as int);
    }
}

} // verus!
