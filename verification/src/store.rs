//! The object store: names, admissions, and what is abandoned.
//!
//! An object stands at its digest's path. Bytes are hashed while they are
//! written and installed only when they are what they were said to be. The
//! driver of the store does the writing; what it may conclude is decided here.

use crate::object::ObjectDigest;
use crate::planner::MAX_OBJECT_SIZE;
use crate::text::{
    begins_with, chars_of, digest_of_hex, digest_of_hex_reads_back, ends_with, hex, hex_at,
    parse_digest_chars, parse_unsigned, is_between, push_hex, same_bytes, string_of, trim, trimmed,
    unsigned,
};
use crate::trusted::{absorbed, hasher_finish, hasher_new, hasher_update, sha256, Hasher};
use vstd::prelude::*;
use vstd::string::*;

verus! {

/// How many bytes are read at once.
pub const VERIFY_BUFFER_SIZE: usize = 1048576;

/// What the names of temporary files begin and end with.
pub const TEMP_PREFIX: &'static str = "obj-";

pub const TEMP_SUFFIX: &'static str = ".tmp";

/// How many bytes may be held in memory while objects are admitted.
pub const DEFAULT_INGEST_BUDGET: u64 = 536870912;

/// The budget that a setting names; the default where it names none.
pub open spec fn budget_of(setting: Option<Seq<char>>) -> nat {
    match setting {
        None => DEFAULT_INGEST_BUDGET as nat,
        Some(raw) => match unsigned(trimmed(raw), u64::MAX as nat) {
            Some(budget) => budget,
            None => DEFAULT_INGEST_BUDGET as nat,
        },
    }
}

/// How many objects may be admitted at once: as many as the budget holds, at
/// least one, and no more than there are cores.
pub open spec fn workers_of(budget: nat, cores: nat) -> nat {
    let room = budget / MAX_OBJECT_SIZE as nat;
    let by_memory = if room > usize::MAX {
        1
    } else {
        room
    };
    let most = if cores < 1 {
        1
    } else {
        cores
    };
    if by_memory < 1 {
        1
    } else if by_memory > most {
        most
    } else {
        by_memory
    }
}

/// As many objects are admitted at once as the budget holds at their largest, one
/// in any case, and never more than there are cores.
pub proof fn the_budget_bounds_the_workers(budget: nat, cores: nat)
    requires
        budget / MAX_OBJECT_SIZE as nat <= usize::MAX,
    ensures
        ({
            let workers = workers_of(budget, cores);
            &&& workers >= 1
            &&& workers * 0x400_0000 <= budget || workers == 1
            &&& workers <= cores || workers == 1
            &&& (workers + 1) * 0x400_0000 > budget || workers + 1 > cores
        }),
{
    let room = budget / MAX_OBJECT_SIZE as nat;
    assert(room * 0x400_0000 <= budget < (room + 1) * 0x400_0000);
}

/// How many objects may be admitted at once, under the setting of the budget
/// and on so many cores.
pub fn ingest_concurrency(setting: Option<&str>, cores: usize) -> (workers: usize)
    ensures
        workers == workers_of(
            budget_of(
                match setting {
                    Some(raw) => Some(raw@),
                    None => None,
                },
            ),
            cores as nat,
        ),
        workers >= 1,
{
    let budget: u64 = match setting {
        None => DEFAULT_INGEST_BUDGET,
        Some(raw) => {
            let chars = chars_of(raw);
            match parse_unsigned(trim(&chars)) {
                Some(budget) => budget,
                None => DEFAULT_INGEST_BUDGET,
            }
        },
    };
    let room: u64 = budget / MAX_OBJECT_SIZE;
    let by_memory: usize = if room > usize::MAX as u64 {
        1
    } else {
        room as usize
    };
    let most: usize = if cores < 1 {
        1
    } else {
        cores
    };
    if by_memory < 1 {
        1
    } else if by_memory > most {
        most
    } else {
        by_memory
    }
}

/// Why an object was refused.
#[derive(Clone, Copy, Debug, PartialEq, Eq)]
pub enum StoreError {
    LengthMismatch { expected: u64, actual: u64 },
    DigestMismatch { expected: ObjectDigest, actual: ObjectDigest },
    Missing { digest: ObjectDigest },
    NotARegularFile { digest: ObjectDigest },
    CorruptObject { expected: ObjectDigest, actual: ObjectDigest },
    InvalidGrace,
}

/// One admitted object.
#[derive(Clone, Copy, Debug, PartialEq, Eq)]
pub struct AdmittedObject {
    digest: ObjectDigest,
    length: u64,
    preexisting: bool,
}

/// The value of an [`AdmittedObject`].
pub struct AdmittedModel {
    pub digest: Seq<u8>,
    pub length: u64,
    pub preexisting: bool,
}

impl View for AdmittedObject {
    type V = AdmittedModel;

    closed spec fn view(&self) -> AdmittedModel {
        AdmittedModel {
            digest: self.digest@,
            length: self.length,
            preexisting: self.preexisting,
        }
    }
}

impl AdmittedObject {
    pub fn new(digest: ObjectDigest, length: u64, preexisting: bool) -> (object: AdmittedObject)
        ensures
            object@ == (AdmittedModel { digest: digest@, length, preexisting }),
    {
        AdmittedObject { digest, length, preexisting }
    }

    pub fn digest(&self) -> (digest: ObjectDigest)
        ensures
            digest@ == self@.digest,
    {
        self.digest
    }

    pub fn length(&self) -> (length: u64)
        ensures
            length == self@.length,
    {
        self.length
    }

    /// Whether the same object was resident before, so that nothing was
    /// installed.
    pub fn preexisting(&self) -> (preexisting: bool)
        ensures
            preexisting == self@.preexisting,
    {
        self.preexisting
    }
}

/// What a collection of abandoned temporary files did.
#[derive(Clone, Copy, Debug, PartialEq, Eq, Structural)]
pub struct TempCollection {
    pub examined: u64,
    pub deleted: u64,
    pub bytes_deleted: u64,
}

impl Default for TempCollection {
    fn default() -> (report: Self)
        ensures
            report == (TempCollection { examined: 0, deleted: 0, bytes_deleted: 0 }),
    {
        TempCollection { examined: 0, deleted: 0, bytes_deleted: 0 }
    }
}

// ---------------------------------------------------------------------------
// Names
// ---------------------------------------------------------------------------

/// Where an object stands below the store's root: two directories by the first
/// digits of its digest, then the whole digest.
pub open spec fn object_place(digest: Seq<u8>) -> Seq<char> {
    "objects/sha256/"@ + hex(digest).subrange(0, 2) + "/"@ + hex(digest).subrange(2, 4) + "/"@ + hex(digest)
}

fn object_path(digest: &ObjectDigest) -> (path: String)
    ensures
        path@ == object_place(digest@),
{
    let mut name = String::new();
    push_hex(&mut name, digest.as_bytes());
    assert(name@ =~= hex(digest@));
    proof {
        digest.is_whole();
        hex_at(digest@, 0);
    }
    let chars = chars_of(name.as_str());
    let first = string_of(vstd::slice::slice_subrange(chars.as_slice(), 0, 2));
    let second = string_of(vstd::slice::slice_subrange(chars.as_slice(), 2, 4));
    let mut path = String::new();
    path.append("objects/sha256/");
    path.append(first.as_str());
    path.append("/");
    path.append(second.as_str());
    path.append("/");
    path.append(name.as_str());
    assert(path@ =~= object_place(digest@));
    path
}

/// What is known of an open store. Its paths are texts below its root, with
/// `/` between the segments.
#[derive(Clone, Copy, Debug, PartialEq, Eq, Structural)]
pub struct ObjectStore {
    pub symlinks: bool,
}

impl ObjectStore {
    pub fn new(symlinks: bool) -> (store: ObjectStore)
        ensures
            store == (ObjectStore { symlinks }),
    {
        ObjectStore { symlinks }
    }

    /// Whether the file system let the store create a symbolic link.
    pub fn supports_symlinks(&self) -> (yes: bool)
        ensures
            yes == self.symlinks,
    {
        self.symlinks
    }

    /// The directory of the objects.
    pub fn sha256_dir(&self) -> (path: String)
        ensures
            path@ == "objects/sha256"@,
    {
        "objects/sha256".to_string()
    }

    /// The directory of the temporary files and the leases.
    pub fn tmp_dir(&self) -> (path: String)
        ensures
            path@ == "tmp"@,
    {
        "tmp".to_string()
    }

    /// The path of an object.
    pub fn object_path(&self, digest: &ObjectDigest) -> (path: String)
        ensures
            path@ == object_place(digest@),
    {
        object_path(digest)
    }
}

/// Reads an object's name back.
pub fn parse_digest_hex(name: &str) -> (digest: Option<ObjectDigest>)
    ensures
        match digest {
            Some(d) => digest_of_hex(name@) == Some(d@),
            None => digest_of_hex(name@) is None,
        },
{
    let chars = chars_of(name);
    match parse_digest_chars(&chars) {
        Some(bytes) => Some(ObjectDigest::from_bytes(bytes)),
        None => None,
    }
}

/// An object's name is read back as its digest.
pub proof fn an_objects_name_is_read_back(digest: Seq<u8>)
    requires
        digest.len() == 32,
    ensures
        ends_with(object_place(digest), hex(digest)),
        digest_of_hex(hex(digest)) == Some(digest),
{
    digest_of_hex_reads_back(digest);
    let place = object_place(digest);
    assert(place.subrange(place.len() - hex(digest).len(), place.len() as int) =~= hex(digest));
}

/// Whether a name is that of a temporary file of the store.
pub fn is_temp_name(name: &str) -> (yes: bool)
    ensures
        yes == (begins_with(name@, TEMP_PREFIX@) && ends_with(name@, TEMP_SUFFIX@)),
{
    is_between(name, TEMP_PREFIX, TEMP_SUFFIX)
}

// ---------------------------------------------------------------------------
// Admissions
// ---------------------------------------------------------------------------

/// An admission: the bytes written so far are hashed as they arrive.
pub struct ObjectWriter {
    hasher: Hasher,
    written: u64,
}

impl ObjectWriter {
    /// The bytes written so far.
    pub closed spec fn content(&self) -> Seq<u8> {
        absorbed(self.hasher)
    }

    pub closed spec fn sound(&self) -> bool {
        self.written == absorbed(self.hasher).len()
    }

    pub fn new() -> (writer: ObjectWriter)
        ensures
            writer.sound(),
            writer.content() == Seq::<u8>::empty(),
    {
        ObjectWriter { hasher: hasher_new(), written: 0 }
    }

    /// Notes bytes that were written.
    pub fn write(&mut self, bytes: &[u8])
        requires
            old(self).sound(),
            old(self).content().len() + bytes@.len() <= u64::MAX,
        ensures
            final(self).sound(),
            final(self).content() == old(self).content() + bytes@,
    {
        hasher_update(&mut self.hasher, bytes);
        self.written = self.written + bytes.len() as u64;
    }

    pub fn written(&self) -> (written: u64)
        requires
            self.sound(),
        ensures
            written == self.content().len(),
    {
        self.written
    }

    /// The digest of what was written, and its length.
    pub fn finish(self) -> (object: (ObjectDigest, u64))
        requires
            self.sound(),
        ensures
            object.0@ == sha256(self.content()),
            object.1 == self.content().len(),
    {
        let written = self.written;
        (ObjectDigest::from_bytes(hasher_finish(self.hasher)), written)
    }

    /// Accepts what was written only if it has the expected length and digest.
    pub fn finish_expecting(self, expected: ObjectDigest, length: u64) -> (outcome: Result<
        ObjectDigest,
        StoreError,
    >)
        requires
            self.sound(),
        ensures
            if self.content().len() != length {
                outcome == Err::<ObjectDigest, StoreError>(
                    StoreError::LengthMismatch {
                        expected: length,
                        actual: self.content().len() as u64,
                    },
                )
            } else if sha256(self.content()) != expected@ {
                &&& outcome matches Err(StoreError::DigestMismatch { expected: e, actual })
                &&& e == expected
                &&& actual@ == sha256(self.content())
            } else {
                outcome is Ok && outcome->Ok_0@ == expected@
            },
    {
        if self.written != length {
            return Err(StoreError::LengthMismatch { expected: length, actual: self.written });
        }
        let actual = ObjectDigest::from_bytes(hasher_finish(self.hasher));
        if !same_bytes(actual.as_bytes(), expected.as_bytes()) {
            return Err(StoreError::DigestMismatch { expected, actual });
        }
        Ok(actual)
    }

    /// Accepts a resident object's bytes only if they hash to its digest, and
    /// tells how many they are.
    pub fn verify(self, digest: &ObjectDigest) -> (outcome: Result<u64, StoreError>)
        requires
            self.sound(),
        ensures
            if sha256(self.content()) != digest@ {
                &&& outcome matches Err(StoreError::CorruptObject { expected, actual })
                &&& expected == *digest
                &&& actual@ == sha256(self.content())
            } else {
                outcome == Ok::<u64, StoreError>(self.content().len() as u64)
            },
    {
        let length = self.written;
        let actual = ObjectDigest::from_bytes(hasher_finish(self.hasher));
        if !same_bytes(actual.as_bytes(), digest.as_bytes()) {
            return Err(StoreError::CorruptObject { expected: *digest, actual });
        }
        Ok(length)
    }
}

/// How many bytes to read next of a range that is read in blocks.
pub fn next_block(position: u64, end: u64) -> (take: usize)
    requires
        position < end,
    ensures
        take == if end - position < VERIFY_BUFFER_SIZE {
            end - position
        } else {
            VERIFY_BUFFER_SIZE as int
        },
        0 < take <= VERIFY_BUFFER_SIZE,
        position + take <= end,
{
    let left: u64 = end - position;
    if left < VERIFY_BUFFER_SIZE as u64 {
        left as usize
    } else {
        VERIFY_BUFFER_SIZE
    }
}

/// The end of a range, when it fits in 64 bits.
pub fn range_end(offset: u64, length: u64) -> (end: Option<u64>)
    ensures
        end == if offset + length <= u64::MAX {
            Some((offset + length) as u64)
        } else {
            None
        },
{
    offset.checked_add(length)
}

// ---------------------------------------------------------------------------
// Abandoned temporary files
// ---------------------------------------------------------------------------

/// What tells one file from another under the same name: its length, when it
/// was changed (in nanoseconds of some epoch), and its place on the device.
#[derive(Clone, Copy, Debug, PartialEq, Eq, Structural)]
pub struct TempIdentity {
    pub length: u64,
    pub modified: Option<i128>,
    pub device: u64,
    pub inode: u64,
}

/// Refuses a collection without a grace.
pub fn check_grace(nanos: u128) -> (outcome: Result<(), StoreError>)
    ensures
        if nanos == 0 {
            outcome == Err::<(), StoreError>(StoreError::InvalidGrace)
        } else {
            outcome is Ok
        },
{
    if nanos == 0 {
        Err(StoreError::InvalidGrace)
    } else {
        Ok(())
    }
}

/// Whether a file was last changed no later than the cutoff. Where either is
/// not known, it was not.
pub fn is_old_enough(modified: Option<i128>, cutoff: Option<i128>) -> (yes: bool)
    ensures
        yes == match (modified, cutoff) {
            (Some(m), Some(c)) => m <= c,
            _ => false,
        },
{
    match (modified, cutoff) {
        (Some(m), Some(c)) => m <= c,
        _ => false,
    }
}

/// Whether a candidate may be removed: the file that was opened is the one that
/// was listed, nobody else held its lock, and its name still leads to it.
pub fn may_reclaim(
    listed: &TempIdentity,
    held: &TempIdentity,
    locked: bool,
    current: &TempIdentity,
) -> (yes: bool)
    ensures
        yes == (*held == *listed && locked && *current == *held),
{
    *held == *listed && locked && *current == *held
}

/// Accounts for one removed file.
pub fn account_reclaimed(report: &mut TempCollection, length: u64)
    requires
        old(report).deleted < u64::MAX,
        old(report).bytes_deleted + length <= u64::MAX,
    ensures
        *final(report) == (TempCollection {
            deleted: (old(report).deleted + 1) as u64,
            bytes_deleted: (old(report).bytes_deleted + length) as u64,
            ..*old(report)
        }),
{
    report.deleted = report.deleted + 1;
    report.bytes_deleted = report.bytes_deleted + length;
}

} // verus!
