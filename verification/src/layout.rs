//! The projected layout beside a store: trees of snapshots, pointer stubs and
//! refs.
//!
//! A projection copies no bytes where links can be had: a directory becomes a
//! directory, a blob a relative link to its object, and a tensor file, which
//! has no one object to point at, a stub. What the driver of the file system
//! writes, renames and removes is decided here. Paths are texts below the
//! store's root.

use crate::object::ObjectDigest;
use crate::sort::{byte_strings, in_order, sort_stably, stable_order};
use crate::store::{object_place, ObjectStore};
use crate::text::{
    begins_with, chars_of, decimal, digest_of_hex, digest_of_hex_reads_back, encode_utf8_concat, ends_with, hex,
    hex_at, is_between, is_white, parse_digest_chars, push_decimal, push_hex, same_bytes, same_chars, strings, strip_prefix, trim,
    trimmed,
};
use crate::tfm1::laws::{carrier_of, one_carrier, ordinals_resolve};
use crate::tfm1::{
    body_bytes, entry_models, files_before, BodyModel, Entry, EntryModel, FileBody, Snapshot, SnapshotId,
};
use crate::trusted::{quotation, quoted, sha256, string_from_utf8};
use vstd::prelude::*;
use vstd::string::*;
use vstd::utf8::{decode_utf8, encode_utf8, valid_utf8};

verus! {

/// What a tree that is being built is named with.
pub const BUILDING_PREFIX: &'static str = ".building-";

/// What is named with this has lost its own name to a removal.
pub const REMOVED_PREFIX: &'static str = ".removed-";

/// What a lease is named with, before and behind its token.
pub const LEASE_PREFIX: &'static str = "building-";

pub const LEASE_SUFFIX: &'static str = ".tmp";

/// What a ref that is being swapped in is named with.
pub const SWAP_PREFIX: &'static str = ".swap-";

/// What every stub begins with.
pub const STUB_MAGIC: &'static str = "TFSSTUB1";

/// Why the layout refused.
#[derive(Debug, PartialEq, Eq)]
pub enum LayoutError {
    InvalidRefName(String),
    UnreadableRef(String),
}

/// The value of a [`LayoutError`].
pub enum LayoutFault {
    InvalidRefName(Seq<char>),
    UnreadableRef(Seq<char>),
}

impl View for LayoutError {
    type V = LayoutFault;

    open spec fn view(&self) -> LayoutFault {
        match self {
            LayoutError::InvalidRefName(name) => LayoutFault::InvalidRefName(name@),
            LayoutError::UnreadableRef(name) => LayoutFault::UnreadableRef(name@),
        }
    }
}

impl LayoutFault {
    pub open spec fn message(self) -> Seq<char> {
        match self {
            LayoutFault::InvalidRefName(name) => "ref name "@ + quotation(name)
                + " is not a single safe path segment"@,
            LayoutFault::UnreadableRef(name) => "ref "@ + quotation(name)
                + " does not name a snapshot id"@,
        }
    }
}

impl LayoutError {
    pub fn to_text(&self) -> (text: String)
        ensures
            text@ == self@.message(),
    {
        let mut text = String::new();
        match self {
            LayoutError::InvalidRefName(name) => {
                text.append("ref name ");
                let quote = quoted(name.as_str());
                text.append(quote.as_str());
                text.append(" is not a single safe path segment");
            },
            LayoutError::UnreadableRef(name) => {
                text.append("ref ");
                let quote = quoted(name.as_str());
                text.append(quote.as_str());
                text.append(" does not name a snapshot id");
            },
        }
        assert(text@ =~= self@.message());
        text
    }
}

// ---------------------------------------------------------------------------
// Stubs
// ---------------------------------------------------------------------------

/// What one stub says: which file body it stands for, and how many bytes that
/// file has.
#[derive(Clone, Copy, Debug, PartialEq, Eq)]
pub struct Stub {
    pub body_sha256: ObjectDigest,
    pub size: u64,
}

/// The line of a stub behind its magic and one space, without the line feed.
pub open spec fn stub_line(body: Seq<u8>, size: u64) -> Seq<char> {
    "{\"body_sha256\":\""@ + hex(body) + "\",\"size\":"@ + decimal(size as nat)
        + ",\"read\":\"tensorfs\"}"@
}

/// One whole stub: the magic, one space, one line.
pub open spec fn stub_text(body: Seq<u8>, size: u64) -> Seq<char> {
    STUB_MAGIC@ + " "@ + stub_line(body, size) + "\n"@
}

/// The bytes of one stub.
pub fn stub_bytes(body_sha256: &ObjectDigest, size: u64) -> (bytes: Vec<u8>)
    ensures
        bytes@ == encode_utf8(stub_text(body_sha256@, size)),
{
    let mut text = String::new();
    text.append(STUB_MAGIC);
    text.append(" ");
    text.append("{\"body_sha256\":\"");
    push_hex(&mut text, body_sha256.as_bytes());
    text.append("\",\"size\":");
    push_decimal(&mut text, size);
    text.append(",\"read\":\"tensorfs\"}");
    text.append("\n");
    assert(text@ =~= stub_text(body_sha256@, size));
    vstd::slice::slice_to_vec(text.as_str().as_bytes())
}

/// What a stub's bytes hold between the magic with its space and at most one
/// line feed; nothing where they do not begin as a stub does.
pub open spec fn stub_body(bytes: Seq<u8>) -> Option<Seq<u8>> {
    let head = encode_utf8(STUB_MAGIC@ + " "@);
    if !head.is_prefix_of(bytes) {
        None
    } else {
        let rest = bytes.skip(head.len() as int);
        if rest.len() > 0 && rest.last() == 10 {
            Some(rest.drop_last())
        } else {
            Some(rest)
        }
    }
}

/// The JSON of a stub, when the bytes begin as a stub does.
pub fn stub_json(bytes: &[u8]) -> (json: Option<&[u8]>)
    ensures
        match json {
            Some(j) => stub_body(bytes@) == Some(j@),
            None => stub_body(bytes@) is None,
        },
{
    let mut head = String::new();
    head.append(STUB_MAGIC);
    head.append(" ");
    assert(head@ =~= STUB_MAGIC@ + " "@);
    let front = head.as_str().as_bytes();
    let length: usize = front.len();
    if bytes.len() < length || !same_bytes(
        vstd::slice::slice_subrange(bytes, 0, length),
        front,
    ) {
        proof {
            if front@.is_prefix_of(bytes@) {
                assert(bytes@.subrange(0, length as int) =~= front@);
            }
        }
        return None;
    }
    assert(front@.is_prefix_of(bytes@)) by {
        assert(bytes@.subrange(0, length as int) =~= front@);
    }
    let mut end: usize = bytes.len();
    if end > length && bytes[end - 1] == 10 {
        end -= 1;
    }
    let json = vstd::slice::slice_subrange(bytes, length, end);
    proof {
        let rest = bytes@.skip(length as int);
        if rest.len() > 0 && rest.last() == 10 {
            assert(json@ =~= rest.drop_last());
        } else {
            assert(json@ =~= rest);
        }
    }
    Some(json)
}

/// The stub that the three fields of its JSON make.
pub open spec fn stub_fields(body: Seq<char>, size: u64, read: Seq<char>) -> Option<(Seq<u8>, u64)> {
    if read != "tensorfs"@ {
        None
    } else {
        match digest_of_hex(body) {
            Some(digest) => Some((digest, size)),
            None => None,
        }
    }
}

/// Makes a stub of the three fields of its JSON.
pub fn stub_of(body_sha256: &str, size: u64, read: &str) -> (stub: Option<Stub>)
    ensures
        match stub {
            Some(s) => stub_fields(body_sha256@, size, read@) == Some((s.body_sha256@, s.size)),
            None => stub_fields(body_sha256@, size, read@) is None,
        },
{
    let word = chars_of(read);
    let expected = chars_of("tensorfs");
    if !same_chars(&word, &expected) {
        return None;
    }
    let chars = chars_of(body_sha256);
    match parse_digest_chars(&chars) {
        Some(bytes) => Some(Stub { body_sha256: ObjectDigest::from_bytes(bytes), size }),
        None => None,
    }
}

/// What a stub was written for is read back from it: its line stands behind its
/// magic, and the fields of that line make the stub.
pub proof fn a_stub_is_read_back(body: Seq<u8>, size: u64)
    requires
        body.len() == 32,
    ensures
        stub_body(encode_utf8(stub_text(body, size))) == Some(encode_utf8(stub_line(body, size))),
        stub_fields(hex(body), size, "tensorfs"@) == Some((body, size)),
{
    let line = stub_line(body, size);
    let head = STUB_MAGIC@ + " "@;
    reveal_strlit("\n");
    encode_utf8_concat(head + line, "\n"@);
    encode_utf8_concat(head, line);
    let bytes = encode_utf8(stub_text(body, size));
    assert("\n"@ =~= seq!['\n']);
    vstd::utf8::is_ascii_chars_encode_utf8("\n"@);
    assert(encode_utf8("\n"@) =~= seq![10u8]);
    assert(bytes =~= encode_utf8(head) + encode_utf8(line) + seq![10u8]);
    assert(encode_utf8(head).is_prefix_of(bytes));
    let rest = bytes.skip(encode_utf8(head).len() as int);
    assert(rest.drop_last() =~= encode_utf8(line));
    digest_of_hex_reads_back(body);
}

// ---------------------------------------------------------------------------
// Trees
// ---------------------------------------------------------------------------

/// What stands at one path of a projected tree.
#[derive(Debug, PartialEq, Eq)]
pub enum Artifact {
    Directory,
    /// A file of these bytes that nobody may write.
    Bytes(Vec<u8>),
    /// A symbolic link to this target.
    Link(String),
    /// A copy of this object that nobody may write.
    Copy(ObjectDigest),
}

/// The value of an [`Artifact`].
pub enum ArtifactModel {
    Directory,
    Bytes(Seq<u8>),
    Link(Seq<char>),
    Copy(Seq<u8>),
}

impl View for Artifact {
    type V = ArtifactModel;

    open spec fn view(&self) -> ArtifactModel {
        match self {
            Artifact::Directory => ArtifactModel::Directory,
            Artifact::Bytes(bytes) => ArtifactModel::Bytes(bytes@),
            Artifact::Link(target) => ArtifactModel::Link(target@),
            Artifact::Copy(digest) => ArtifactModel::Copy(digest@),
        }
    }
}

/// So many steps up.
pub open spec fn steps_up(count: nat) -> Seq<char>
    decreases count,
{
    if count == 0 {
        Seq::empty()
    } else {
        steps_up((count - 1) as nat) + "../"@
    }
}

/// How often a character stands in a text.
pub open spec fn occurrences(text: Seq<char>, c: char) -> nat
    decreases text.len(),
{
    if text.len() == 0 {
        0
    } else {
        occurrences(text.drop_last(), c) + if text.last() == c {
            1nat
        } else {
            0nat
        }
    }
}

/// The way from a projected file to its object: up through the directories of
/// its path and the two segments of its tree, then down to the object.
pub open spec fn object_link(path: Seq<char>, digest: Seq<u8>) -> Seq<char> {
    steps_up(occurrences(path, '/') + 2) + object_place(digest)
}

fn relative_object_target(store: &ObjectStore, path: &str, digest: &ObjectDigest) -> (target: String)
    ensures
        target@ == object_link(path@, digest@),
{
    let chars = chars_of(path);
    let mut target = String::new();
    assert(target@ =~= steps_up(0));
    let mut at: usize = 0;
    while at < chars.len()
        invariant
            at <= chars@.len(),
            chars@ == path@,
            target@ == steps_up(occurrences(path@.take(at as int), '/')),
        decreases chars@.len() - at,
    {
        assert(path@.take(at + 1).drop_last() =~= path@.take(at as int));
        if chars[at] == '/' {
            target.append("../");
        }
        at += 1;
    }
    assert(path@.take(at as int) =~= path@);
    let ghost depth = occurrences(path@, '/');
    target.append("../");
    assert(target@ == steps_up(depth + 1));
    target.append("../");
    assert(target@ == steps_up(depth + 2));
    let place = store.object_path(digest);
    target.append(place.as_str());
    target
}

/// What stands for a file with this body at this path.
pub open spec fn body_artifact(symlinks: bool, path: Seq<char>, body: BodyModel) -> ArtifactModel {
    match body {
        BodyModel::Tensor { logical_size, .. } => ArtifactModel::Bytes(
            encode_utf8(stub_text(sha256(body_bytes(body)), logical_size)),
        ),
        BodyModel::Blob { logical_size, digest } => if logical_size == 0 {
            ArtifactModel::Bytes(Seq::empty())
        } else if symlinks {
            ArtifactModel::Link(object_link(path, digest))
        } else {
            ArtifactModel::Copy(digest)
        },
    }
}

/// What stands for entry `i` of a snapshot. A hardlink stands for the body of
/// the file that it names, at its own path.
pub open spec fn entry_artifact(
    symlinks: bool,
    entries: Seq<(Seq<char>, EntryModel)>,
    i: int,
) -> ArtifactModel {
    let path = entries[i].0;
    match entries[i].1 {
        EntryModel::Directory => ArtifactModel::Directory,
        EntryModel::File { body, .. } => body_artifact(symlinks, path, body),
        EntryModel::Symlink { target } => ArtifactModel::Link(target),
        EntryModel::Hardlink { ordinal } => match entries[carrier_of(entries, ordinal)].1 {
            EntryModel::File { body, .. } => body_artifact(symlinks, path, body),
            _ => ArtifactModel::Directory,
        },
    }
}

/// The name and value of each artifact.
pub open spec fn artifact_models(list: Seq<(String, Artifact)>) -> Seq<(Seq<char>, ArtifactModel)> {
    list.map_values(|pair: (String, Artifact)| (pair.0@, pair.1@))
}

fn project_body(symlinks: bool, store: &ObjectStore, path: &str, body: &FileBody) -> (artifact: Artifact)
    ensures
        artifact@ == body_artifact(symlinks, path@, body@),
{
    match body {
        FileBody::Tensor { logical_size, .. } => {
            let digest = body.body_sha256();
            Artifact::Bytes(stub_bytes(&digest, *logical_size))
        },
        FileBody::Blob { logical_size, digest } => if *logical_size == 0 {
            let empty: Vec<u8> = Vec::new();
            Artifact::Bytes(empty)
        } else if symlinks {
            Artifact::Link(relative_object_target(store, path, digest))
        } else {
            Artifact::Copy(*digest)
        },
    }
}

fn carrier_place(entries: &[(String, Entry)], ordinal: u64) -> (place: usize)
    requires
        ordinal < files_before(entry_models(entries@), entries@.len() as int),
    ensures
        place < entries@.len(),
        entry_models(entries@)[place as int].1 is File,
        carrier_of(entry_models(entries@), ordinal) == place,
{
    let ghost models = entry_models(entries@);
    let mut seen: u64 = 0;
    let mut at: usize = 0;
    while at < entries.len()
        invariant
            at <= entries@.len(),
            models == entry_models(entries@),
            seen == files_before(models, at as int),
            seen <= ordinal,
            ordinal < files_before(models, entries@.len() as int),
        decreases entries@.len() - at,
    {
        assert(models[at as int] == (entries@[at as int].0@, entries@[at as int].1@));
        if let Entry::File { .. } = entries[at].1 {
            if seen == ordinal {
                proof {
                    one_carrier(models, ordinal, at as int);
                }
                return at;
            }
            seen += 1;
        }
        at += 1;
    }
    assert(false);
    0
}

/// The directory of the trees.
pub open spec fn snapshots_place() -> Seq<char> {
    "snapshots"@
}

/// The directory of the refs.
pub open spec fn refs_place() -> Seq<char> {
    "refs"@
}

/// A name in a directory.
pub open spec fn below(directory: Seq<char>, name: Seq<char>) -> Seq<char> {
    directory + "/"@ + name
}

fn path_below(directory: &str, prefix: &str, name: &str) -> (path: String)
    ensures
        path@ == below(directory@, prefix@ + name@),
{
    let mut path = String::new();
    path.append(directory);
    path.append("/");
    path.append(prefix);
    path.append(name);
    assert(path@ =~= below(directory@, prefix@ + name@));
    path
}

/// What a removal renames, and to what, before anything is deleted.
#[derive(Debug, PartialEq, Eq)]
pub struct Unlink {
    pub path: String,
    pub claimed: String,
}

/// What a swap of a ref writes, and renames to the ref.
#[derive(Debug, PartialEq, Eq)]
pub struct Swap {
    pub staged: String,
    pub bytes: Vec<u8>,
    pub destination: String,
}

/// Whether a name may be a ref's: one segment of at most 255 bytes, with no
/// leading dot and without separators.
pub open spec fn is_ref_name(name: Seq<char>) -> bool {
    &&& name.len() > 0
    &&& encode_utf8(name).len() <= 255
    &&& name[0] != '.'
    &&& !name.contains('/')
    &&& !name.contains('\\')
    &&& !name.contains('\0')
}

fn holds(chars: &[char], c: char) -> (yes: bool)
    ensures
        yes == chars@.contains(c),
{
    let mut at: usize = 0;
    while at < chars.len()
        invariant
            at <= chars@.len(),
            forall|i: int| 0 <= i < at ==> chars@[i] != c,
        decreases chars@.len() - at,
    {
        if chars[at] == c {
            return true;
        }
        at += 1;
    }
    false
}

/// Refuses a name that no ref may have.
pub fn validated_ref_name(name: &str) -> (outcome: Result<(), LayoutError>)
    ensures
        if is_ref_name(name@) {
            outcome is Ok
        } else {
            outcome is Err && outcome->Err_0@ == LayoutFault::InvalidRefName(name@)
        },
{
    let chars = chars_of(name);
    let length: usize = name.as_bytes().len();
    if chars.len() == 0 || length > 255 || chars[0] == '.' || holds(&chars, '/') || holds(&chars, '\\')
        || holds(&chars, '\0') {
        return Err(LayoutError::InvalidRefName(name.to_string()));
    }
    Ok(())
}

/// The whole content of a ref.
pub open spec fn ref_text(id: Seq<u8>) -> Seq<char> {
    hex(id) + "\n"@
}

fn ref_bytes(id: &SnapshotId) -> (bytes: Vec<u8>)
    ensures
        bytes@ == encode_utf8(ref_text(id@)),
{
    let mut text = id.to_text();
    text.append("\n");
    assert(text@ =~= ref_text(id@));
    vstd::slice::slice_to_vec(text.as_str().as_bytes())
}

/// The identity that a ref's bytes name.
pub open spec fn ref_target(bytes: Seq<u8>) -> Option<Seq<u8>> {
    if valid_utf8(bytes) {
        digest_of_hex(trimmed(decode_utf8(bytes)))
    } else {
        None
    }
}

/// The projected trees and refs beside one store.
#[derive(Clone, Copy, Debug, PartialEq, Eq, Structural)]
pub struct Layout {
    pub store: ObjectStore,
    pub symlinks: bool,
}

impl Layout {
    /// Projects with links where the store can have them, and with copies where
    /// it cannot.
    pub fn new(store: &ObjectStore) -> (layout: Layout)
        ensures
            layout == (Layout { store: *store, symlinks: store.symlinks }),
    {
        Layout { store: *store, symlinks: store.supports_symlinks() }
    }

    /// Projects with copies in any case.
    pub fn without_symlinks(store: &ObjectStore) -> (layout: Layout)
        ensures
            layout == (Layout { store: *store, symlinks: false }),
    {
        Layout { store: *store, symlinks: false }
    }

    pub fn snapshots_dir(&self) -> (path: String)
        ensures
            path@ == snapshots_place(),
    {
        "snapshots".to_string()
    }

    pub fn refs_dir(&self) -> (path: String)
        ensures
            path@ == refs_place(),
    {
        "refs".to_string()
    }

    /// Where a snapshot's tree stands.
    pub fn tree_path(&self, id: &SnapshotId) -> (path: String)
        ensures
            path@ == below(snapshots_place(), hex(id@)),
    {
        let name = id.to_text();
        let path = path_below("snapshots", "", name.as_str());
        proof {
            reveal_strlit("");
            assert(""@ + name@ =~= name@);
        }
        path
    }

    /// Where a tree is built under a token.
    pub fn building_path(&self, token: &str) -> (path: String)
        ensures
            path@ == below(snapshots_place(), BUILDING_PREFIX@ + token@),
    {
        path_below("snapshots", BUILDING_PREFIX, token)
    }

    /// Where the lease of a token stands.
    pub fn lease_path(&self, token: &str) -> (path: String)
        ensures
            path@ == below("tmp"@, LEASE_PREFIX@ + token@ + LEASE_SUFFIX@),
    {
        let mut path = path_below("tmp", LEASE_PREFIX, token);
        path.append(LEASE_SUFFIX);
        assert(path@ =~= below("tmp"@, LEASE_PREFIX@ + token@ + LEASE_SUFFIX@));
        path
    }

    /// What stands at each path of a snapshot's tree, in the order of the
    /// entries.
    pub fn project(&self, snapshot: &Snapshot) -> (tree: Vec<(String, Artifact)>)
        requires
            ordinals_resolve(snapshot@.entries),
        ensures
            artifact_models(tree@) == Seq::new(
                snapshot@.entries.len(),
                |i: int| (snapshot@.entries[i].0, entry_artifact(self.symlinks, snapshot@.entries, i)),
            ),
    {
        let entries = snapshot.entries();
        let ghost models = snapshot@.entries;
        let mut tree: Vec<(String, Artifact)> = Vec::new();
        let mut at: usize = 0;
        while at < entries.len()
            invariant
                at <= entries@.len(),
                models == entry_models(entries@),
                ordinals_resolve(models),
                tree@.len() == at,
                forall|i: int|
                    0 <= i < at ==> (#[trigger] tree@[i]).0@ == models[i].0 && tree@[i].1@ == entry_artifact(
                        self.symlinks,
                        models,
                        i,
                    ),
            decreases entries@.len() - at,
        {
            assert(models[at as int] == (entries@[at as int].0@, entries@[at as int].1@));
            let path = entries[at].0.clone();
            let artifact = match &entries[at].1 {
                Entry::Directory => Artifact::Directory,
                Entry::File { body, .. } => project_body(self.symlinks, &self.store, path.as_str(), body),
                Entry::Symlink { target } => Artifact::Link(target.clone()),
                Entry::Hardlink { ordinal } => {
                    let place = carrier_place(entries, *ordinal);
                    assert(models[place as int] == (entries@[place as int].0@, entries@[place as int].1@));
                    match &entries[place].1 {
                        Entry::File { body, .. } => project_body(
                            self.symlinks,
                            &self.store,
                            path.as_str(),
                            body,
                        ),
                        _ => Artifact::Directory,
                    }
                },
            };
            tree.push((path, artifact));
            at += 1;
        }
        assert(artifact_models(tree@) =~= Seq::new(
            models.len(),
            |i: int| (models[i].0, entry_artifact(self.symlinks, models, i)),
        ));
        tree
    }

    /// Takes a tree's name away: what is renamed under the given token.
    pub fn remove_tree(&self, id: &SnapshotId, token: &str) -> (unlink: Unlink)
        ensures
            unlink.path@ == below(snapshots_place(), hex(id@)),
            unlink.claimed@ == below(snapshots_place(), REMOVED_PREFIX@ + token@),
    {
        Unlink { path: self.tree_path(id), claimed: path_below("snapshots", REMOVED_PREFIX, token) }
    }

    /// Where a ref stands.
    pub fn ref_path(&self, name: &str) -> (outcome: Result<String, LayoutError>)
        ensures
            if is_ref_name(name@) {
                outcome is Ok && outcome->Ok_0@ == below(refs_place(), name@)
            } else {
                outcome is Err && outcome->Err_0@ == LayoutFault::InvalidRefName(name@)
            },
    {
        validated_ref_name(name)?;
        let path = path_below("refs", "", name);
        proof {
            reveal_strlit("");
            assert(""@ + name@ =~= name@);
        }
        Ok(path)
    }

    /// Points a ref at a snapshot: what is written under the given token, and
    /// then renamed to the ref.
    pub fn set_ref(&self, name: &str, id: &SnapshotId, token: &str) -> (outcome: Result<Swap, LayoutError>)
        ensures
            if is_ref_name(name@) {
                &&& outcome matches Ok(swap)
                &&& swap.staged@ == below(refs_place(), SWAP_PREFIX@ + token@)
                &&& swap.bytes@ == encode_utf8(ref_text(id@))
                &&& swap.destination@ == below(refs_place(), name@)
            } else {
                outcome is Err && outcome->Err_0@ == LayoutFault::InvalidRefName(name@)
            },
    {
        let destination = self.ref_path(name)?;
        Ok(Swap { staged: path_below("refs", SWAP_PREFIX, token), bytes: ref_bytes(id), destination })
    }

    /// The identity that a ref names, of the bytes of its file where it has one.
    pub fn read_ref(&self, name: &str, bytes: Option<Vec<u8>>) -> (outcome: Result<
        Option<SnapshotId>,
        LayoutError,
    >)
        ensures
            if !is_ref_name(name@) {
                outcome is Err && outcome->Err_0@ == LayoutFault::InvalidRefName(name@)
            } else {
                match bytes {
                    None => outcome == Ok::<Option<SnapshotId>, LayoutError>(None),
                    Some(content) => match ref_target(content@) {
                        Some(id) => {
                            &&& outcome matches Ok(Some(found))
                            &&& found@ == id
                        },
                        None => outcome is Err && outcome->Err_0@ == LayoutFault::UnreadableRef(name@),
                    },
                }
            },
    {
        validated_ref_name(name)?;
        let content = match bytes {
            None => {
                return Ok(None);
            },
            Some(content) => content,
        };
        if let Some(text) = string_from_utf8(content) {
            let chars = chars_of(text.as_str());
            if let Some(id) = parse_digest_chars(trim(&chars)) {
                return Ok(Some(SnapshotId::from_bytes(id)));
            }
        }
        Err(LayoutError::UnreadableRef(name.to_string()))
    }

    /// Takes a ref's name away: what is renamed under the given token.
    pub fn remove_ref(&self, name: &str, token: &str) -> (outcome: Result<Unlink, LayoutError>)
        ensures
            if is_ref_name(name@) {
                &&& outcome matches Ok(unlink)
                &&& unlink.path@ == below(refs_place(), name@)
                &&& unlink.claimed@ == below(refs_place(), REMOVED_PREFIX@ + token@)
            } else {
                outcome is Err && outcome->Err_0@ == LayoutFault::InvalidRefName(name@)
            },
    {
        let path = self.ref_path(name)?;
        Ok(Unlink { path, claimed: path_below("refs", REMOVED_PREFIX, token) })
    }

    /// The names among these that point at a snapshot, in their order. A ref
    /// that could not be read points at none.
    pub fn refs_to(&self, id: &SnapshotId, refs: &[(String, Option<SnapshotId>)]) -> (names: Vec<String>)
        ensures
            strings(names@) == pointing(refs@, id@, refs@.len() as int),
    {
        let mut names: Vec<String> = Vec::new();
        let mut at: usize = 0;
        assert(strings(names@) =~= pointing(refs@, id@, 0));
        while at < refs.len()
            invariant
                at <= refs@.len(),
                strings(names@) == pointing(refs@, id@, at as int),
            decreases refs@.len() - at,
        {
            if let Some(found) = &refs[at].1 {
                if same_bytes(found.as_bytes(), id.as_bytes()) {
                    let ghost before = names@;
                    names.push(refs[at].0.clone());
                    assert(strings(names@) =~= strings(before).push(refs@[at as int].0@));
                }
            }
            at += 1;
        }
        names
    }

    /// The names among these that refs may have, sorted.
    pub fn ref_names(&self, names: &[String]) -> (kept: Vec<String>)
        ensures
            strings(kept@) == sorted_texts(usable_names(strings(names@), names@.len() as int)),
    {
        let mut usable: Vec<String> = Vec::new();
        let mut at: usize = 0;
        let ghost all = strings(names@);
        assert(strings(usable@) =~= usable_names(all, 0));
        while at < names.len()
            invariant
                at <= names@.len(),
                all == strings(names@),
                strings(usable@) == usable_names(all, at as int),
            decreases names@.len() - at,
        {
            assert(all[at as int] == names@[at as int]@);
            if validated_ref_name(names[at].as_str()).is_ok() {
                let ghost before = usable@;
                usable.push(names[at].clone());
                assert(strings(usable@) =~= strings(before).push(all[at as int]));
            }
            at += 1;
        }
        let mut keys: Vec<Vec<u8>> = Vec::new();
        let mut i: usize = 0;
        while i < usable.len()
            invariant
                i <= usable@.len(),
                keys@.len() == i,
                forall|k: int| 0 <= k < i ==> (#[trigger] keys@[k])@ == encode_utf8(usable@[k]@),
            decreases usable@.len() - i,
        {
            keys.push(vstd::slice::slice_to_vec(usable[i].as_str().as_bytes()));
            i += 1;
        }
        let order = sort_stably(&keys);
        let ghost texts = strings(usable@);
        assert(byte_strings(keys@) =~= encodings(texts));
        let mut kept: Vec<String> = Vec::new();
        let mut j: usize = 0;
        while j < order.len()
            invariant
                j <= order@.len(),
                stable_order(encodings(texts), order@),
                texts == strings(usable@),
                kept@.len() == j,
                forall|k: int| 0 <= k < j ==> (#[trigger] kept@[k])@ == texts[order@[k] as int],
            decreases order@.len() - j,
        {
            let place: usize = order[j];
            assert(place < texts.len());
            kept.push(usable[place].clone());
            j += 1;
        }
        assert(strings(kept@) =~= sorted_texts(texts));
        kept
    }

    /// The identities that these names spell, sorted. A name that is none is no
    /// tree.
    pub fn tree_ids(&self, names: &[String]) -> (ids: Vec<SnapshotId>)
        ensures
            id_views(ids@) == sorted_bytes(named_ids(strings(names@), names@.len() as int)),
    {
        let mut found: Vec<SnapshotId> = Vec::new();
        let mut keys: Vec<Vec<u8>> = Vec::new();
        let mut at: usize = 0;
        let ghost all = strings(names@);
        assert(id_views(found@) =~= named_ids(all, 0));
        while at < names.len()
            invariant
                at <= names@.len(),
                all == strings(names@),
                id_views(found@) == named_ids(all, at as int),
                keys@.len() == found@.len(),
                forall|k: int| 0 <= k < keys@.len() ==> (#[trigger] keys@[k])@ == found@[k]@,
            decreases names@.len() - at,
        {
            assert(all[at as int] == names@[at as int]@);
            if let Some(id) = SnapshotId::parse_hex(names[at].as_str()) {
                let ghost before = found@;
                found.push(id);
                keys.push(vstd::slice::slice_to_vec(id.as_bytes()));
                assert(id_views(found@) =~= id_views(before).push(id@));
            }
            at += 1;
        }
        let order = sort_stably(&keys);
        let ghost views = id_views(found@);
        assert(byte_strings(keys@) =~= views);
        let mut ids: Vec<SnapshotId> = Vec::new();
        let mut j: usize = 0;
        while j < order.len()
            invariant
                j <= order@.len(),
                stable_order(views, order@),
                views == id_views(found@),
                ids@.len() == j,
                forall|k: int| 0 <= k < j ==> (#[trigger] ids@[k])@ == views[order@[k] as int],
            decreases order@.len() - j,
        {
            let place: usize = order[j];
            assert(place < views.len());
            ids.push(found[place]);
            j += 1;
        }
        assert(id_views(ids@) =~= sorted_bytes(views));
        ids
    }
}

/// A ref is read back as the snapshot that it was pointed at.
pub proof fn a_ref_is_read_back(id: Seq<u8>)
    requires
        id.len() == 32,
    ensures
        ref_target(encode_utf8(ref_text(id))) == Some(id),
{
    vstd::utf8::encode_utf8_valid_utf8(ref_text(id));
    vstd::utf8::encode_utf8_decode_utf8(ref_text(id));
    reveal_strlit("\n");
    let text = ref_text(id);
    hex_is_not_white(id);
    reveal_with_fuel(trimmed, 2);
    assert(text.drop_last() =~= hex(id));
    assert(trimmed(text) == hex(id));
    digest_of_hex_reads_back(id);
}

proof fn hex_is_not_white(bytes: Seq<u8>)
    requires
        bytes.len() > 0,
    ensures
        hex(bytes).len() == 2 * bytes.len(),
        !is_white(hex(bytes)[0]),
        !is_white(hex(bytes).last()),
{
    hex_at(bytes, 0);
    hex_at(bytes, bytes.len() - 1);
}

/// The names of the first `upto` refs that point at a snapshot.
pub open spec fn pointing(refs: Seq<(String, Option<SnapshotId>)>, id: Seq<u8>, upto: int) -> Seq<Seq<char>>
    decreases upto,
{
    if upto <= 0 {
        Seq::empty()
    } else {
        let before = pointing(refs, id, upto - 1);
        match refs[upto - 1].1 {
            Some(found) if found@ == id => before.push(refs[upto - 1].0@),
            _ => before,
        }
    }
}

/// The names among the first `upto` that refs may have.
pub open spec fn usable_names(names: Seq<Seq<char>>, upto: int) -> Seq<Seq<char>>
    decreases upto,
{
    if upto <= 0 {
        Seq::empty()
    } else {
        let before = usable_names(names, upto - 1);
        if is_ref_name(names[upto - 1]) {
            before.push(names[upto - 1])
        } else {
            before
        }
    }
}

/// The identities that the first `upto` names spell.
pub open spec fn named_ids(names: Seq<Seq<char>>, upto: int) -> Seq<Seq<u8>>
    decreases upto,
{
    if upto <= 0 {
        Seq::empty()
    } else {
        let before = named_ids(names, upto - 1);
        match digest_of_hex(names[upto - 1]) {
            Some(id) => before.push(id),
            None => before,
        }
    }
}

/// The encodings of texts.
pub open spec fn encodings(texts: Seq<Seq<char>>) -> Seq<Seq<u8>> {
    texts.map_values(|text: Seq<char>| encode_utf8(text))
}

/// Texts in the order of their encodings.
pub open spec fn sorted_texts(texts: Seq<Seq<char>>) -> Seq<Seq<char>> {
    in_order(encodings(texts)).map_values(|place: usize| texts[place as int])
}

/// Byte strings in order.
pub open spec fn sorted_bytes(list: Seq<Seq<u8>>) -> Seq<Seq<u8>> {
    in_order(list).map_values(|place: usize| list[place as int])
}

/// The values of identities.
pub open spec fn id_views(ids: Seq<SnapshotId>) -> Seq<Seq<u8>> {
    ids.map_values(|id: SnapshotId| id@)
}

// ---------------------------------------------------------------------------
// Removals and scratch
// ---------------------------------------------------------------------------

/// What a removal did to the name that it was asked to take.
#[derive(Clone, Copy, Debug, PartialEq, Eq, Structural)]
pub enum Removal {
    /// The name is gone, and so are its bytes, or no name leads to them.
    Taken,
    /// Nothing was there.
    Absent,
    /// The name is still there: another handle is inside.
    Deferred,
}

impl Removal {
    /// Whether this removal took the name.
    pub fn taken(self) -> (yes: bool)
        ensures
            yes == (self is Taken),
    {
        match self {
            Removal::Taken => true,
            _ => false,
        }
    }
}

/// How a rename ended that was to take a name away.
#[derive(Clone, Copy, Debug, PartialEq, Eq, Structural)]
pub enum Rename {
    Done,
    NotFound,
    /// Another handle is inside, and the system refuses for that alone.
    ShareRefused,
    Failed,
}

/// What a rename says of the removal; nothing where it failed.
pub fn removal_of(rename: Rename) -> (removal: Option<Removal>)
    ensures
        removal == match rename {
            Rename::Done => Some(Removal::Taken),
            Rename::NotFound => Some(Removal::Absent),
            Rename::ShareRefused => Some(Removal::Deferred),
            Rename::Failed => None,
        },
{
    match rename {
        Rename::Done => Some(Removal::Taken),
        Rename::NotFound => Some(Removal::Absent),
        Rename::ShareRefused => Some(Removal::Deferred),
        Rename::Failed => None,
    }
}

/// Why scratch could be reclaimed.
#[derive(Clone, Copy, Debug, PartialEq, Eq, Structural)]
pub enum LeaseState {
    /// There was a lease and nobody held it.
    Free,
    /// There was no lease.
    Absent,
    /// No name leads to it any more.
    Unreachable,
}

/// What a look at a lease gave.
#[derive(Clone, Copy, Debug, PartialEq, Eq, Structural)]
pub enum LeaseProbe {
    /// The lease was opened, and its lock was taken or not.
    Opened { locked: bool },
    NotFound,
    Failed,
}

/// Why a lease says that its creator is gone; nothing while one may hold it.
pub fn lease_state(probe: LeaseProbe) -> (state: Option<LeaseState>)
    ensures
        state == match probe {
            LeaseProbe::Opened { locked } => if locked {
                Some(LeaseState::Free)
            } else {
                None
            },
            LeaseProbe::NotFound => Some(LeaseState::Absent),
            LeaseProbe::Failed => None,
        },
{
    match probe {
        LeaseProbe::Opened { locked } => if locked {
            Some(LeaseState::Free)
        } else {
            None
        },
        LeaseProbe::NotFound => Some(LeaseState::Absent),
        LeaseProbe::Failed => None,
    }
}

/// Whether a name is a lease's.
pub fn is_lease_name(name: &str) -> (yes: bool)
    ensures
        yes == (begins_with(name@, LEASE_PREFIX@) && ends_with(name@, LEASE_SUFFIX@)),
{
    is_between(name, LEASE_PREFIX, LEASE_SUFFIX)
}

/// The three kinds of scratch.
#[derive(Clone, Copy, Debug, PartialEq, Eq, Structural)]
pub enum ScratchKind {
    /// A tree that is being built.
    Tree,
    /// A ref that is being swapped in.
    Swap,
    /// What has lost its name to a removal.
    Unlinked,
}

impl ScratchKind {
    pub open spec fn prefix(self) -> Seq<char> {
        match self {
            ScratchKind::Tree => BUILDING_PREFIX@,
            ScratchKind::Swap => SWAP_PREFIX@,
            ScratchKind::Unlinked => REMOVED_PREFIX@,
        }
    }
}

/// The token in the name of scratch of a kind; nothing where the name is not of
/// that kind.
pub fn scratch_token_of(kind: ScratchKind, name: &str) -> (token: Option<String>)
    ensures
        match token {
            Some(t) => begins_with(name@, kind.prefix()) && t@ == name@.skip(kind.prefix().len() as int),
            None => !begins_with(name@, kind.prefix()),
        },
{
    match kind {
        ScratchKind::Tree => strip_prefix(name, BUILDING_PREFIX),
        ScratchKind::Swap => strip_prefix(name, SWAP_PREFIX),
        ScratchKind::Unlinked => strip_prefix(name, REMOVED_PREFIX),
    }
}

/// One piece of scratch, described while it still exists.
#[derive(Debug, PartialEq, Eq)]
pub struct ReclaimedScratch {
    pub path: String,
    /// The token of the process that created it. Evidence alone: the lease
    /// decides.
    pub creator: String,
    pub lease: LeaseState,
}

/// What one reap examined and removed.
#[derive(Debug, PartialEq, Eq)]
pub struct ScratchReap {
    pub examined: u64,
    pub trees_removed: u64,
    pub swaps_removed: u64,
    pub unlinked_removed: u64,
    pub reclaimed: Vec<ReclaimedScratch>,
}

impl Default for ScratchReap {
    fn default() -> (report: Self)
        ensures
            report.sound(),
            report.examined == 0,
            report.reclaimed@.len() == 0,
    {
        ScratchReap {
            examined: 0,
            trees_removed: 0,
            swaps_removed: 0,
            unlinked_removed: 0,
            reclaimed: Vec::new(),
        }
    }
}

impl ScratchReap {
    /// Everything that was removed is described, and was examined before.
    pub open spec fn sound(&self) -> bool {
        &&& self.trees_removed + self.swaps_removed + self.unlinked_removed == self.reclaimed@.len()
        &&& self.reclaimed@.len() <= self.examined
    }

    /// Examines one piece of scratch, and describes it where it may be removed:
    /// where its lease says that its creator is gone, or no name leads to it.
    pub fn examine(
        &mut self,
        kind: ScratchKind,
        path: String,
        token: String,
        lease: Option<LeaseState>,
    ) -> (evidence: Option<ReclaimedScratch>)
        requires
            old(self).sound(),
            old(self).examined < u64::MAX,
        ensures
            final(self).sound(),
            final(self).examined == old(self).examined + 1,
            final(self).reclaimed@ == old(self).reclaimed@,
            final(self).trees_removed == old(self).trees_removed,
            final(self).swaps_removed == old(self).swaps_removed,
            final(self).unlinked_removed == old(self).unlinked_removed,
            match (kind, lease) {
                (ScratchKind::Unlinked, _) => evidence == Some(
                    ReclaimedScratch { path, creator: token, lease: LeaseState::Unreachable },
                ),
                (_, Some(state)) => evidence == Some(
                    ReclaimedScratch { path, creator: token, lease: state },
                ),
                (_, None) => evidence is None,
            },
    {
        self.examined = self.examined + 1;
        let state = match kind {
            ScratchKind::Unlinked => LeaseState::Unreachable,
            _ => match lease {
                Some(state) => state,
                None => {
                    return None;
                },
            },
        };
        Some(ReclaimedScratch { path, creator: token, lease: state })
    }

    /// Accounts for one piece of scratch that was removed after it was
    /// examined.
    pub fn removed(&mut self, kind: ScratchKind, evidence: ReclaimedScratch)
        requires
            old(self).sound(),
            old(self).reclaimed@.len() < old(self).examined,
        ensures
            final(self).sound(),
            final(self).examined == old(self).examined,
            final(self).reclaimed@ == old(self).reclaimed@.push(evidence),
            final(self).trees_removed == old(self).trees_removed + if kind is Tree {
                1int
            } else {
                0
            },
            final(self).swaps_removed == old(self).swaps_removed + if kind is Swap {
                1int
            } else {
                0
            },
            final(self).unlinked_removed == old(self).unlinked_removed + if kind is Unlinked {
                1int
            } else {
                0
            },
    {
        match kind {
            ScratchKind::Tree => {
                self.trees_removed = self.trees_removed + 1;
            },
            ScratchKind::Swap => {
                self.swaps_removed = self.swaps_removed + 1;
            },
            ScratchKind::Unlinked => {
                self.unlinked_removed = self.unlinked_removed + 1;
            },
        }
        self.reclaimed.push(evidence);
    }
}

} // verus!
