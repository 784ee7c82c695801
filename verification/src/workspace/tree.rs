//! A workspace's rows, and what a mutation changes in them.

use super::{ErrorModel, Mutation, MutationModel, WorkspaceError};
use crate::planner::PlannerId;
use crate::text::{
    chars_of, last_index, last_index_is, same_chars, split, split_at, string_of, strings,
};
use crate::tfm1::path::{
    case_fold, folded, path_error, usable_target, validate_path, validate_symlink_target,
};
use crate::tfm1::tree::parent_of;
use crate::tfm1::{
    record_models, record_sum, run_error, run_length, validate_record_run, FileRecord, RecordModel, Tfm1Error,
};
use vstd::prelude::*;

verus! {

// ---------------------------------------------------------------------------
// Rows
// ---------------------------------------------------------------------------

/// What an inode is.
#[derive(Debug, PartialEq, Eq)]
pub enum Node {
    Directory,
    File { executable: bool, planner: PlannerId, records: Vec<FileRecord> },
    Symlink { target: String },
}

/// The value of a [`Node`].
pub enum NodeModel {
    Directory,
    File { executable: bool, planner: PlannerId, records: Seq<RecordModel> },
    Symlink { target: Seq<char> },
}

impl View for Node {
    type V = NodeModel;

    open spec fn view(&self) -> NodeModel {
        match self {
            Node::Directory => NodeModel::Directory,
            Node::File { executable, planner, records } => NodeModel::File {
                executable: *executable,
                planner: *planner,
                records: record_models(records@),
            },
            Node::Symlink { target } => NodeModel::Symlink { target: target@ },
        }
    }
}

/// One inode.
#[derive(Debug, PartialEq, Eq)]
pub struct Inode {
    pub id: i64,
    pub node: Node,
}

pub struct InodeModel {
    pub id: i64,
    pub node: NodeModel,
}

impl View for Inode {
    type V = InodeModel;

    open spec fn view(&self) -> InodeModel {
        InodeModel { id: self.id, node: self.node@ }
    }
}

/// One name in a directory.
#[derive(Debug, PartialEq, Eq)]
pub struct Dirent {
    pub parent: i64,
    pub name: String,
    pub child: i64,
}

pub struct DirentModel {
    pub parent: i64,
    pub name: Seq<char>,
    pub child: i64,
}

impl View for Dirent {
    type V = DirentModel;

    open spec fn view(&self) -> DirentModel {
        DirentModel { parent: self.parent, name: self.name@, child: self.child }
    }
}

pub open spec fn inode_models(list: Seq<Inode>) -> Seq<InodeModel> {
    list.map_values(|inode: Inode| inode@)
}

pub open spec fn dirent_models(list: Seq<Dirent>) -> Seq<DirentModel> {
    list.map_values(|dirent: Dirent| dirent@)
}

/// The rows of one workspace.
#[verifier::ext_equal]
pub struct TreeRows {
    /// The root directory's inode.
    pub root: i64,
    /// The number that the next inode gets.
    pub next: i64,
    pub inodes: Seq<InodeModel>,
    pub dirents: Seq<DirentModel>,
    /// The inodes that leases pin.
    pub leases: Seq<i64>,
}

/// What a path leads to.
#[derive(Clone, Copy, Debug, PartialEq, Eq, Structural)]
pub enum Kind {
    Directory,
    File,
    Symlink,
}

impl NodeModel {
    pub open spec fn kind(self) -> Kind {
        match self {
            NodeModel::Directory => Kind::Directory,
            NodeModel::File { .. } => Kind::File,
            NodeModel::Symlink { .. } => Kind::Symlink,
        }
    }
}

impl Node {
    fn kind(&self) -> (kind: Kind)
        ensures
            kind == self@.kind(),
    {
        match self {
            Node::Directory => Kind::Directory,
            Node::File { .. } => Kind::File,
            Node::Symlink { .. } => Kind::Symlink,
        }
    }
}

/// The first inode numbered `id` at or behind `at`; the length where there is
/// none.
pub open spec fn inode_at(inodes: Seq<InodeModel>, id: i64, at: int) -> int
    decreases inodes.len() - at,
{
    if at >= inodes.len() || inodes[at].id == id {
        at
    } else {
        inode_at(inodes, id, at + 1)
    }
}

/// The first name `name` of the directory `parent` at or behind `at`; the
/// length where there is none.
pub open spec fn dirent_at(dirents: Seq<DirentModel>, parent: i64, name: Seq<char>, at: int) -> int
    decreases dirents.len() - at,
{
    if at >= dirents.len() || (dirents[at].parent == parent && dirents[at].name == name) {
        at
    } else {
        dirent_at(dirents, parent, name, at + 1)
    }
}

impl TreeRows {
    /// The inode numbered `id`, if there is one.
    pub open spec fn node(self, id: i64) -> Option<NodeModel> {
        let at = inode_at(self.inodes, id, 0);
        if at < self.inodes.len() {
            Some(self.inodes[at].node)
        } else {
            None
        }
    }

    /// What the name `name` in the directory `parent` leads to.
    pub open spec fn child(self, parent: i64, name: Seq<char>) -> Option<(i64, Kind)> {
        let at = dirent_at(self.dirents, parent, name, 0);
        if at < self.dirents.len() {
            match self.node(self.dirents[at].child) {
                Some(node) => Some((self.dirents[at].child, node.kind())),
                None => None,
            }
        } else {
            None
        }
    }

    /// What the names from `at` on lead to, one below the other.
    pub open spec fn walk(self, from: (i64, Kind), names: Seq<Seq<char>>, at: int) -> Option<(i64, Kind)>
        decreases names.len() - at,
    {
        if at >= names.len() {
            Some(from)
        } else if from.1 != Kind::Directory {
            None
        } else {
            match self.child(from.0, names[at]) {
                Some(found) => self.walk(found, names, at + 1),
                None => None,
            }
        }
    }

    /// What a path leads to. The empty path is the root.
    pub open spec fn resolved(self, path: Seq<char>) -> Result<Option<(i64, Kind)>, ErrorModel> {
        if path.len() == 0 {
            Ok(Some((self.root, Kind::Directory)))
        } else {
            match path_error(path) {
                Some(error) => Err(ErrorModel::Tfm1(error)),
                None => Ok(self.walk((self.root, Kind::Directory), split_at(path, '/'), 0)),
            }
        }
    }

    /// What a path leads to, where it must lead to something.
    pub open spec fn existing(self, path: Seq<char>) -> Result<(i64, Kind), ErrorModel> {
        match self.resolved(path) {
            Err(error) => Err(error),
            Ok(None) => Err(ErrorModel::Missing(path)),
            Ok(Some(found)) => Ok(found),
        }
    }

    /// The regular file at a path.
    pub open spec fn file_at(self, path: Seq<char>) -> Result<i64, ErrorModel> {
        match self.existing(path) {
            Err(error) => Err(error),
            Ok((id, kind)) => if kind == Kind::File {
                Ok(id)
            } else {
                Err(ErrorModel::NotAFile(path))
            },
        }
    }

    /// The directory that a new path goes into.
    pub open spec fn new_parent(self, path: Seq<char>) -> Result<i64, ErrorModel> {
        match parent_of(path) {
            None => Ok(self.root),
            Some(parent) => match self.existing(parent) {
                Err(error) => Err(error),
                Ok((id, kind)) => if kind == Kind::Directory {
                    Ok(id)
                } else {
                    Err(ErrorModel::NotADirectory(parent))
                },
            },
        }
    }

    /// Whether a directory holds a name that is the same but for its case.
    pub open spec fn collides(self, parent: i64, name: Seq<char>) -> bool {
        exists|i: int|
            0 <= i < self.dirents.len() && (#[trigger] self.dirents[i]).parent == parent && folded(
                self.dirents[i].name,
            ) == folded(name)
    }

    /// The place of a new path: its directory and its name. The name must be
    /// free, and no sibling may be the same but for its case.
    pub open spec fn new_leaf(self, path: Seq<char>) -> Result<(i64, Seq<char>), ErrorModel> {
        match path_error(path) {
            Some(error) => Err(ErrorModel::Tfm1(error)),
            None => match self.new_parent(path) {
                Err(error) => Err(error),
                Ok(parent) => if dirent_at(self.dirents, parent, name_of(path), 0)
                    < self.dirents.len() {
                    Err(ErrorModel::Exists(path))
                } else if self.collides(parent, name_of(path)) {
                    Err(ErrorModel::CaseFoldCollision(path))
                } else {
                    Ok((parent, name_of(path)))
                },
            },
        }
    }

    /// The directory of a path that leads somewhere.
    pub open spec fn old_parent(self, path: Seq<char>) -> Result<i64, ErrorModel> {
        match parent_of(path) {
            None => Ok(self.root),
            Some(parent) => match self.existing(parent) {
                Err(error) => Err(error),
                Ok((id, _)) => Ok(id),
            },
        }
    }

    /// Whether another name than `name` in `parent` leads to an inode, or a
    /// lease pins it.
    pub open spec fn still_held(self, id: i64, parent: i64, name: Seq<char>) -> bool {
        ||| exists|i: int|
            0 <= i < self.dirents.len() && (#[trigger] self.dirents[i]).child == id && !(
            self.dirents[i].parent == parent && self.dirents[i].name == name)
        ||| self.leases.contains(id)
    }

    /// Whether a directory holds any name.
    pub open spec fn has_children(self, id: i64) -> bool {
        exists|i: int| 0 <= i < self.dirents.len() && (#[trigger] self.dirents[i]).parent == id
    }

    /// The record run of a file.
    pub open spec fn records(self, id: i64) -> Seq<RecordModel> {
        match self.node(id) {
            Some(NodeModel::File { records, .. }) => records,
            _ => Seq::empty(),
        }
    }
}

/// The last name of a path.
pub open spec fn name_of(path: Seq<char>) -> Seq<char> {
    path.skip(last_index(path, '/') + 1)
}

// ---------------------------------------------------------------------------
// Cutting a record run
// ---------------------------------------------------------------------------

/// The records from `at` on that stay when a run is cut at `length`, `position`
/// bytes being before them; nothing where the cut goes through a data record,
/// or the run does not fit in 64 bits. Records behind the cut are dropped, and
/// a hole is cut short.
pub open spec fn cut(records: Seq<RecordModel>, at: int, position: nat, length: nat) -> Option<
    Seq<RecordModel>,
>
    decreases records.len() - at,
{
    if at >= records.len() || position >= length {
        Some(Seq::empty())
    } else {
        let end = position + records[at].length() as nat;
        if end > u64::MAX {
            None
        } else if end <= length {
            match cut(records, at + 1, end, length) {
                Some(rest) => Some(seq![records[at]] + rest),
                None => None,
            }
        } else {
            match records[at] {
                RecordModel::Hole { .. } => Some(
                    seq![RecordModel::Hole { length: (length - position) as u64 }],
                ),
                RecordModel::Data { .. } => None,
            }
        }
    }
}

/// A run with `more` zero bytes behind it: its last hole grows, or it gets one.
pub open spec fn extended(records: Seq<RecordModel>, more: nat) -> Seq<RecordModel> {
    if more == 0 {
        records
    } else if records.len() > 0 && records.last() is Hole {
        records.drop_last().push(
            RecordModel::Hole { length: (records.last().length() + more) as u64 },
        )
    } else {
        records.push(RecordModel::Hole { length: more as u64 })
    }
}

/// A record run cut or extended to `length` bytes.
pub open spec fn truncated(records: Seq<RecordModel>, length: u64) -> Option<Seq<RecordModel>> {
    match cut(records, 0, 0, length as nat) {
        Some(kept) => Some(extended(kept, (length - run_length(kept)) as nat)),
        None => None,
    }
}

// ---------------------------------------------------------------------------
// Changes
// ---------------------------------------------------------------------------

/// One change to a workspace's rows.
#[derive(Debug, PartialEq, Eq)]
pub enum Change {
    /// Add an inode.
    AddInode { id: i64, node: Node },
    /// Add a name.
    Link { parent: i64, name: String, child: i64 },
    /// Replace a file's record run.
    SetRecords { inode: i64, records: Vec<FileRecord> },
    SetExecutable { inode: i64, executable: bool },
    SetPlanner { inode: i64, planner: PlannerId },
    /// Give a name another place.
    Move { parent: i64, name: String, new_parent: i64, new_name: String },
    /// Remove a name.
    Unlink { parent: i64, name: String },
    /// Remove an inode.
    DropInode { id: i64 },
}

/// The value of a [`Change`].
pub enum ChangeModel {
    AddInode { id: i64, node: NodeModel },
    Link { parent: i64, name: Seq<char>, child: i64 },
    SetRecords { inode: i64, records: Seq<RecordModel> },
    SetExecutable { inode: i64, executable: bool },
    SetPlanner { inode: i64, planner: PlannerId },
    Move { parent: i64, name: Seq<char>, new_parent: i64, new_name: Seq<char> },
    Unlink { parent: i64, name: Seq<char> },
    DropInode { id: i64 },
}

impl View for Change {
    type V = ChangeModel;

    open spec fn view(&self) -> ChangeModel {
        match self {
            Change::AddInode { id, node } => ChangeModel::AddInode { id: *id, node: node@ },
            Change::Link { parent, name, child } => ChangeModel::Link {
                parent: *parent,
                name: name@,
                child: *child,
            },
            Change::SetRecords { inode, records } => ChangeModel::SetRecords {
                inode: *inode,
                records: record_models(records@),
            },
            Change::SetExecutable { inode, executable } => ChangeModel::SetExecutable {
                inode: *inode,
                executable: *executable,
            },
            Change::SetPlanner { inode, planner } => ChangeModel::SetPlanner {
                inode: *inode,
                planner: *planner,
            },
            Change::Move { parent, name, new_parent, new_name } => ChangeModel::Move {
                parent: *parent,
                name: name@,
                new_parent: *new_parent,
                new_name: new_name@,
            },
            Change::Unlink { parent, name } => ChangeModel::Unlink { parent: *parent, name: name@ },
            Change::DropInode { id } => ChangeModel::DropInode { id: *id },
        }
    }
}

pub open spec fn change_models(list: Seq<Change>) -> Seq<ChangeModel> {
    list.map_values(|change: Change| change@)
}

impl TreeRows {
    /// The rows with the file numbered `id` replaced, where there is one.
    pub open spec fn with_file(self, id: i64, file: NodeModel) -> TreeRows {
        let at = inode_at(self.inodes, id, 0);
        if at < self.inodes.len() && self.inodes[at].node is File {
            TreeRows { inodes: self.inodes.update(at, InodeModel { id, node: file }), ..self }
        } else {
            self
        }
    }

    /// The rows after one change.
    pub open spec fn after(self, change: ChangeModel) -> TreeRows {
        match change {
            ChangeModel::AddInode { id, node } => TreeRows {
                next: (id + 1) as i64,
                inodes: self.inodes.push(InodeModel { id, node }),
                ..self
            },
            ChangeModel::Link { parent, name, child } => TreeRows {
                dirents: self.dirents.push(DirentModel { parent, name, child }),
                ..self
            },
            ChangeModel::SetRecords { inode, records } => match self.node(inode) {
                Some(NodeModel::File { executable, planner, .. }) => self.with_file(
                    inode,
                    NodeModel::File { executable, planner, records },
                ),
                _ => self,
            },
            ChangeModel::SetExecutable { inode, executable } => match self.node(inode) {
                Some(NodeModel::File { planner, records, .. }) => self.with_file(
                    inode,
                    NodeModel::File { executable, planner, records },
                ),
                _ => self,
            },
            ChangeModel::SetPlanner { inode, planner } => match self.node(inode) {
                Some(NodeModel::File { executable, records, .. }) => self.with_file(
                    inode,
                    NodeModel::File { executable, planner, records },
                ),
                _ => self,
            },
            ChangeModel::Move { parent, name, new_parent, new_name } => {
                let at = dirent_at(self.dirents, parent, name, 0);
                if at < self.dirents.len() {
                    TreeRows {
                        dirents: self.dirents.update(
                            at,
                            DirentModel {
                                parent: new_parent,
                                name: new_name,
                                child: self.dirents[at].child,
                            },
                        ),
                        ..self
                    }
                } else {
                    self
                }
            },
            ChangeModel::Unlink { parent, name } => {
                let at = dirent_at(self.dirents, parent, name, 0);
                if at < self.dirents.len() {
                    TreeRows { dirents: self.dirents.remove(at), ..self }
                } else {
                    self
                }
            },
            ChangeModel::DropInode { id } => {
                let at = inode_at(self.inodes, id, 0);
                if at < self.inodes.len() {
                    TreeRows { inodes: self.inodes.remove(at), ..self }
                } else {
                    self
                }
            },
        }
    }

    /// The rows after the first `upto` changes.
    pub open spec fn after_all(self, changes: Seq<ChangeModel>, upto: int) -> TreeRows
        decreases upto,
    {
        if upto <= 0 {
            self
        } else {
            self.after_all(changes, upto - 1).after(changes[upto - 1])
        }
    }

    /// A new inode under a new path.
    pub open spec fn adding(self, path: Seq<char>, node: NodeModel) -> Result<Seq<ChangeModel>, ErrorModel> {
        match self.new_leaf(path) {
            Err(error) => Err(error),
            Ok((parent, name)) => Ok(
                seq![
                    ChangeModel::AddInode { id: self.next, node },
                    ChangeModel::Link { parent, name, child: self.next },
                ],
            ),
        }
    }

    /// The path's name goes, and its inode with it if nothing else holds it.
    pub open spec fn removing(self, path: Seq<char>, id: i64) -> Result<Seq<ChangeModel>, ErrorModel> {
        match self.old_parent(path) {
            Err(error) => Err(error),
            Ok(parent) => {
                let unlink = ChangeModel::Unlink { parent, name: name_of(path) };
                if self.still_held(id, parent, name_of(path)) {
                    Ok(seq![unlink])
                } else {
                    Ok(seq![unlink, ChangeModel::DropInode { id }])
                }
            },
        }
    }

    /// What a mutation changes, or why it is refused.
    pub open spec fn decided(self, mutation: MutationModel) -> Result<Seq<ChangeModel>, ErrorModel> {
        match mutation {
            MutationModel::Mkdir { path } => self.adding(path, NodeModel::Directory),
            MutationModel::CreateFile { path, executable, planner, records } => self.adding(
                path,
                NodeModel::File { executable, planner, records },
            ),
            MutationModel::SetRecords { path, records } => match self.file_at(path) {
                Err(error) => Err(error),
                Ok(inode) => Ok(seq![ChangeModel::SetRecords { inode, records }]),
            },
            MutationModel::Truncate { path, length } => match self.file_at(path) {
                Err(error) => Err(error),
                Ok(inode) => match truncated(self.records(inode), length) {
                    None => Err(ErrorModel::MidRecordTruncate { path, length }),
                    Some(records) => match run_error(records, length) {
                        Some(error) => Err(ErrorModel::Tfm1(error)),
                        None => Ok(seq![ChangeModel::SetRecords { inode, records }]),
                    },
                },
            },
            MutationModel::Rename { from, to } => match self.existing(from) {
                Err(error) => Err(error),
                Ok((_, kind)) => if kind == Kind::Directory && (to == from || from.push(
                    '/',
                ).is_prefix_of(to)) {
                    Err(ErrorModel::RenameIntoSelf(from))
                } else {
                    match self.new_leaf(to) {
                        Err(error) => Err(error),
                        Ok((new_parent, new_name)) => match self.old_parent(from) {
                            Err(error) => Err(error),
                            Ok(parent) => Ok(
                                seq![
                                    ChangeModel::Move {
                                        parent,
                                        name: name_of(from),
                                        new_parent,
                                        new_name,
                                    },
                                ],
                            ),
                        },
                    }
                },
            },
            MutationModel::Unlink { path } => match self.existing(path) {
                Err(error) => Err(error),
                Ok((id, kind)) => if kind == Kind::Directory {
                    Err(ErrorModel::NotAFile(path))
                } else {
                    self.removing(path, id)
                },
            },
            MutationModel::Rmdir { path } => match self.existing(path) {
                Err(error) => Err(error),
                Ok((id, kind)) => if kind != Kind::Directory {
                    Err(ErrorModel::NotADirectory(path))
                } else if self.has_children(id) {
                    Err(ErrorModel::NotEmpty(path))
                } else {
                    self.removing(path, id)
                },
            },
            MutationModel::Symlink { path, target } => if !usable_target(target) {
                Err(ErrorModel::Tfm1(Tfm1Error::SymlinkTarget))
            } else {
                self.adding(path, NodeModel::Symlink { target })
            },
            MutationModel::Hardlink { path, target } => match self.file_at(target) {
                Err(error) => Err(error),
                Ok(child) => match self.new_leaf(path) {
                    Err(error) => Err(error),
                    Ok((parent, name)) => Ok(seq![ChangeModel::Link { parent, name, child }]),
                },
            },
            MutationModel::SetExecutable { path, executable } => match self.file_at(path) {
                Err(error) => Err(error),
                Ok(inode) => Ok(seq![ChangeModel::SetExecutable { inode, executable }]),
            },
        }
    }
}

// ---------------------------------------------------------------------------
// Deciding
// ---------------------------------------------------------------------------

/// The rows of one workspace.
#[derive(Debug, PartialEq, Eq)]
pub struct WorkspaceTree {
    root: i64,
    next: i64,
    inodes: Vec<Inode>,
    dirents: Vec<Dirent>,
    leases: Vec<i64>,
}

impl View for WorkspaceTree {
    type V = TreeRows;

    closed spec fn view(&self) -> TreeRows {
        TreeRows {
            root: self.root,
            next: self.next,
            inodes: inode_models(self.inodes@),
            dirents: dirent_models(self.dirents@),
            leases: self.leases@,
        }
    }
}

/// Splits a path into the path above it and its last name.
pub fn split_parent(path: &str) -> (parts: (Option<String>, String))
    ensures
        match parts.0 {
            Some(parent) => parent_of(path@) == Some(parent@),
            None => parent_of(path@) is None,
        },
        parts.1@ == name_of(path@),
{
    let chars = chars_of(path);
    let mut at: usize = chars.len();
    while at > 0 && chars[at - 1] != '/'
        invariant
            at <= chars@.len(),
            forall|i: int| at <= i < chars@.len() ==> chars@[i] != '/',
        decreases at,
    {
        at -= 1;
    }
    proof {
        last_index_is(chars@, '/', at - 1);
    }
    let name = string_of(vstd::slice::slice_subrange(chars.as_slice(), at, chars.len()));
    assert(name@ =~= name_of(path@));
    if at == 0 {
        (None, name)
    } else {
        let parent = string_of(vstd::slice::slice_subrange(chars.as_slice(), 0, at - 1));
        assert(parent@ =~= path@.take(at - 1));
        (Some(parent), name)
    }
}

/// Whether a path is another path, or lies below it.
fn is_at_or_below(path: &str, top: &str) -> (yes: bool)
    ensures
        yes == (path@ == top@ || top@.push('/').is_prefix_of(path@)),
{
    let inner = chars_of(path);
    let outer = chars_of(top);
    if inner.len() < outer.len() {
        return false;
    }
    let head = vstd::slice::slice_subrange(inner.as_slice(), 0, outer.len());
    if !same_chars(head, &outer) {
        proof {
            if top@.push('/').is_prefix_of(path@) {
                assert(head@ =~= top@) by {
                    assert forall|i: int| 0 <= i < top@.len() implies path@[i] == top@[i] by {
                        assert(path@.subrange(0, top@.push('/').len() as int)[i] == path@[i]);
                        assert(top@.push('/')[i] == top@[i]);
                    }
                }
            }
            if path@ == top@ {
                assert(head@ =~= top@);
            }
        }
        return false;
    }
    if inner.len() == outer.len() {
        assert(path@ =~= top@);
        return true;
    }
    let below = inner[outer.len()] == '/';
    proof {
        if below {
            assert(top@.push('/') =~= path@.subrange(0, top@.push('/').len() as int)) by {
                assert forall|i: int| 0 <= i < top@.len() implies path@[i] == top@[i] by {
                    assert(head@[i] == path@[i]);
                }
            }
        } else if top@.push('/').is_prefix_of(path@) {
            assert(path@.subrange(0, top@.push('/').len() as int)[top@.len() as int] == path@[top@.len() as int]);
        }
    }
    below
}

impl WorkspaceTree {
    /// The rows of a stored workspace.
    pub fn load(
        root: i64,
        next: i64,
        inodes: Vec<Inode>,
        dirents: Vec<Dirent>,
        leases: Vec<i64>,
    ) -> (tree: WorkspaceTree)
        ensures
            tree@ == (TreeRows {
                root,
                next,
                inodes: inode_models(inodes@),
                dirents: dirent_models(dirents@),
                leases: leases@,
            }),
    {
        WorkspaceTree { root, next, inodes, dirents, leases }
    }

    fn find_inode(&self, id: i64) -> (at: usize)
        ensures
            at == inode_at(self@.inodes, id, 0),
            at <= self.inodes@.len(),
    {
        let mut at: usize = 0;
        while at < self.inodes.len() && self.inodes[at].id != id
            invariant
                at <= self.inodes@.len(),
                inode_at(self@.inodes, id, 0) == inode_at(self@.inodes, id, at as int),
            decreases self.inodes@.len() - at,
        {
            assert(self@.inodes[at as int].id == self.inodes@[at as int].id);
            at += 1;
        }
        proof {
            if at < self.inodes@.len() {
                assert(self@.inodes[at as int].id == self.inodes@[at as int].id);
            }
        }
        at
    }

    fn find_dirent(&self, parent: i64, name: &String) -> (at: usize)
        ensures
            at == dirent_at(self@.dirents, parent, name@, 0),
            at <= self.dirents@.len(),
    {
        let mut at: usize = 0;
        while at < self.dirents.len() && !(self.dirents[at].parent == parent && self.dirents[at].name
            == *name)
            invariant
                at <= self.dirents@.len(),
                dirent_at(self@.dirents, parent, name@, 0) == dirent_at(
                    self@.dirents,
                    parent,
                    name@,
                    at as int,
                ),
            decreases self.dirents@.len() - at,
        {
            assert(self@.dirents[at as int] == self.dirents@[at as int]@);
            at += 1;
        }
        proof {
            if at < self.dirents@.len() {
                assert(self@.dirents[at as int] == self.dirents@[at as int]@);
            }
        }
        at
    }

    fn child(&self, parent: i64, name: &String) -> (found: Option<(i64, Kind)>)
        ensures
            found == self@.child(parent, name@),
    {
        let at = self.find_dirent(parent, name);
        if at == self.dirents.len() {
            return None;
        }
        assert(self@.dirents[at as int] == self.dirents@[at as int]@);
        let child = self.dirents[at].child;
        let place = self.find_inode(child);
        if place == self.inodes.len() {
            return None;
        }
        assert(self@.inodes[place as int] == self.inodes@[place as int]@);
        Some((child, self.inodes[place].node.kind()))
    }

    /// What a path leads to.
    pub fn resolve_path(&self, path: &str) -> (outcome: Result<Option<(i64, Kind)>, WorkspaceError>)
        ensures
            match outcome {
                Ok(found) => self@.resolved(path@) == Ok::<Option<(i64, Kind)>, ErrorModel>(found),
                Err(e) => self@.resolved(path@) == Err::<Option<(i64, Kind)>, ErrorModel>(e@),
            },
    {
        let chars = chars_of(path);
        if chars.len() == 0 {
            return Ok(Some((self.root, Kind::Directory)));
        }
        if let Err(e) = validate_path(path) {
            return Err(WorkspaceError::Tfm1(e));
        }
        let names = split(path, '/');
        let ghost segments = split_at(path@, '/');
        let mut current: (i64, Kind) = (self.root, Kind::Directory);
        let mut at: usize = 0;
        while at < names.len()
            invariant
                at <= names@.len(),
                strings(names@) == segments,
                segments == split_at(path@, '/'),
                path@.len() > 0,
                path_error(path@) is None,
                self@.walk((self.root, Kind::Directory), segments, 0) == self@.walk(
                    current,
                    segments,
                    at as int,
                ),
            decreases names@.len() - at,
        {
            assert(segments[at as int] == names@[at as int]@);
            if current.1 != Kind::Directory {
                return Ok(None);
            }
            match self.child(current.0, &names[at]) {
                Some(found) => {
                    current = found;
                },
                None => {
                    return Ok(None);
                },
            }
            at += 1;
        }
        Ok(Some(current))
    }

    /// What a path leads to, where it must lead to something.
    pub fn existing(&self, path: &str) -> (outcome: Result<(i64, Kind), WorkspaceError>)
        ensures
            match outcome {
                Ok(found) => self@.existing(path@) == Ok::<(i64, Kind), ErrorModel>(found),
                Err(e) => self@.existing(path@) == Err::<(i64, Kind), ErrorModel>(e@),
            },
    {
        match self.resolve_path(path)? {
            Some(found) => Ok(found),
            None => Err(WorkspaceError::Missing(path.to_string())),
        }
    }

    fn file_at(&self, path: &str) -> (outcome: Result<i64, WorkspaceError>)
        ensures
            match outcome {
                Ok(id) => self@.file_at(path@) == Ok::<i64, ErrorModel>(id),
                Err(e) => self@.file_at(path@) == Err::<i64, ErrorModel>(e@),
            },
    {
        let found = self.existing(path)?;
        if found.1 != Kind::File {
            return Err(WorkspaceError::NotAFile(path.to_string()));
        }
        Ok(found.0)
    }

    fn collides(&self, parent: i64, name: &str) -> (yes: bool)
        ensures
            yes == self@.collides(parent, name@),
    {
        let wanted = case_fold(name);
        let mut at: usize = 0;
        while at < self.dirents.len()
            invariant
                at <= self.dirents@.len(),
                wanted@ == folded(name@),
                forall|i: int|
                    0 <= i < at ==> !((#[trigger] self@.dirents[i]).parent == parent && folded(
                        self@.dirents[i].name,
                    ) == folded(name@)),
            decreases self.dirents@.len() - at,
        {
            assert(self@.dirents[at as int] == self.dirents@[at as int]@);
            if self.dirents[at].parent == parent {
                let sibling = case_fold(self.dirents[at].name.as_str());
                if sibling == wanted {
                    return true;
                }
            }
            at += 1;
        }
        false
    }

    /// The place of a new path.
    pub fn resolve_new_leaf(&self, path: &str) -> (outcome: Result<(i64, String), WorkspaceError>)
        ensures
            match outcome {
                Ok((parent, name)) => self@.new_leaf(path@) == Ok::<(i64, Seq<char>), ErrorModel>(
                    (parent, name@),
                ),
                Err(e) => self@.new_leaf(path@) == Err::<(i64, Seq<char>), ErrorModel>(e@),
            },
    {
        if let Err(e) = validate_path(path) {
            return Err(WorkspaceError::Tfm1(e));
        }
        let (above, name) = split_parent(path);
        let parent: i64 = match above {
            None => self.root,
            Some(above) => {
                let found = self.existing(above.as_str())?;
                if found.1 != Kind::Directory {
                    return Err(WorkspaceError::NotADirectory(above));
                }
                found.0
            },
        };
        if self.find_dirent(parent, &name) < self.dirents.len() {
            return Err(WorkspaceError::Exists(path.to_string()));
        }
        if self.collides(parent, name.as_str()) {
            return Err(WorkspaceError::CaseFoldCollision(path.to_string()));
        }
        Ok((parent, name))
    }

    fn old_parent(&self, path: &str) -> (outcome: Result<(i64, String), WorkspaceError>)
        ensures
            match outcome {
                Ok((parent, name)) => self@.old_parent(path@) == Ok::<i64, ErrorModel>(parent)
                    && name@ == name_of(path@),
                Err(e) => self@.old_parent(path@) == Err::<i64, ErrorModel>(e@),
            },
    {
        let (above, name) = split_parent(path);
        match above {
            None => Ok((self.root, name)),
            Some(above) => {
                let found = self.existing(above.as_str())?;
                Ok((found.0, name))
            },
        }
    }

    fn still_held(&self, id: i64, parent: i64, name: &String) -> (yes: bool)
        ensures
            yes == self@.still_held(id, parent, name@),
    {
        let mut at: usize = 0;
        while at < self.dirents.len()
            invariant
                at <= self.dirents@.len(),
                forall|i: int|
                    0 <= i < at ==> !((#[trigger] self@.dirents[i]).child == id && !(
                    self@.dirents[i].parent == parent && self@.dirents[i].name == name@)),
            decreases self.dirents@.len() - at,
        {
            assert(self@.dirents[at as int] == self.dirents@[at as int]@);
            if self.dirents[at].child == id && !(self.dirents[at].parent == parent
                && self.dirents[at].name == *name) {
                return true;
            }
            at += 1;
        }
        let mut lease: usize = 0;
        while lease < self.leases.len()
            invariant
                lease <= self.leases@.len(),
                forall|i: int| 0 <= i < lease ==> self.leases@[i] != id,
                forall|i: int|
                    0 <= i < self@.dirents.len() ==> !((#[trigger] self@.dirents[i]).child == id && !(
                    self@.dirents[i].parent == parent && self@.dirents[i].name == name@)),
            decreases self.leases@.len() - lease,
        {
            if self.leases[lease] == id {
                return true;
            }
            lease += 1;
        }
        false
    }

    fn has_children(&self, id: i64) -> (yes: bool)
        ensures
            yes == self@.has_children(id),
    {
        let mut at: usize = 0;
        while at < self.dirents.len()
            invariant
                at <= self.dirents@.len(),
                forall|i: int| 0 <= i < at ==> (#[trigger] self@.dirents[i]).parent != id,
            decreases self.dirents@.len() - at,
        {
            assert(self@.dirents[at as int] == self.dirents@[at as int]@);
            if self.dirents[at].parent == id {
                return true;
            }
            at += 1;
        }
        false
    }

    fn adding(&self, path: &str, node: Node) -> (outcome: Result<Vec<Change>, WorkspaceError>)
        ensures
            match outcome {
                Ok(changes) => self@.adding(path@, node@) == Ok::<Seq<ChangeModel>, ErrorModel>(
                    change_models(changes@),
                ),
                Err(e) => self@.adding(path@, node@) == Err::<Seq<ChangeModel>, ErrorModel>(e@),
            },
    {
        let (parent, name) = self.resolve_new_leaf(path)?;
        let ghost model = node@;
        let mut changes: Vec<Change> = Vec::new();
        changes.push(Change::AddInode { id: self.next, node });
        changes.push(Change::Link { parent, name, child: self.next });
        assert(change_models(changes@) =~= seq![
            ChangeModel::AddInode { id: self.next, node: model },
            ChangeModel::Link { parent, name: name@, child: self.next },
        ]);
        Ok(changes)
    }

    fn removing(&self, path: &str, id: i64) -> (outcome: Result<Vec<Change>, WorkspaceError>)
        ensures
            match outcome {
                Ok(changes) => self@.removing(path@, id) == Ok::<Seq<ChangeModel>, ErrorModel>(
                    change_models(changes@),
                ),
                Err(e) => self@.removing(path@, id) == Err::<Seq<ChangeModel>, ErrorModel>(e@),
            },
    {
        let (parent, name) = self.old_parent(path)?;
        let held = self.still_held(id, parent, &name);
        let ghost named = name@;
        let mut changes: Vec<Change> = Vec::new();
        changes.push(Change::Unlink { parent, name });
        if !held {
            changes.push(Change::DropInode { id });
            assert(change_models(changes@) =~= seq![
                ChangeModel::Unlink { parent, name: named },
                ChangeModel::DropInode { id },
            ]);
        } else {
            assert(change_models(changes@) =~= seq![ChangeModel::Unlink { parent, name: named }]);
        }
        Ok(changes)
    }

    fn one(change: Change) -> (changes: Vec<Change>)
        ensures
            change_models(changes@) == seq![change@],
    {
        let ghost model = change@;
        let mut changes: Vec<Change> = Vec::new();
        changes.push(change);
        assert(change_models(changes@) =~= seq![model]);
        changes
    }

    fn renaming(&self, from: &str, to: &str) -> (outcome: Result<Vec<Change>, WorkspaceError>)
        ensures
            match outcome {
                Ok(changes) => self@.decided(MutationModel::Rename { from: from@, to: to@ }) == Ok::<
                    Seq<ChangeModel>,
                    ErrorModel,
                >(change_models(changes@)),
                Err(e) => self@.decided(MutationModel::Rename { from: from@, to: to@ }) == Err::<
                    Seq<ChangeModel>,
                    ErrorModel,
                >(e@),
            },
    {
        let source = self.existing(from)?;
        if source.1 == Kind::Directory && is_at_or_below(to, from) {
            return Err(WorkspaceError::RenameIntoSelf(from.to_string()));
        }
        let (new_parent, new_name) = self.resolve_new_leaf(to)?;
        let (parent, name) = self.old_parent(from)?;
        Ok(Self::one(Change::Move { parent, name, new_parent, new_name }))
    }

    fn truncating(&self, path: &str, length: u64) -> (outcome: Result<Vec<Change>, WorkspaceError>)
        ensures
            match outcome {
                Ok(changes) => self@.decided(MutationModel::Truncate { path: path@, length }) == Ok::<
                    Seq<ChangeModel>,
                    ErrorModel,
                >(change_models(changes@)),
                Err(e) => self@.decided(MutationModel::Truncate { path: path@, length }) == Err::<
                    Seq<ChangeModel>,
                    ErrorModel,
                >(e@),
            },
    {
        let inode = self.file_at(path)?;
        let records = self.records(inode);
        match truncate_records(&records, length) {
            None => Err(WorkspaceError::MidRecordTruncate { path: path.to_string(), length }),
            Some(cut_records) => {
                if let Err(e) = validate_record_run(&cut_records, length) {
                    return Err(WorkspaceError::Tfm1(e));
                }
                Ok(Self::one(Change::SetRecords { inode, records: cut_records }))
            },
        }
    }

    /// The record run of a file.
    pub fn records(&self, id: i64) -> (records: Vec<FileRecord>)
        ensures
            record_models(records@) == self@.records(id),
    {
        let at = self.find_inode(id);
        if at < self.inodes.len() {
            assert(self@.inodes[at as int] == self.inodes@[at as int]@);
            if let Node::File { records, .. } = &self.inodes[at].node {
                return vstd::slice::slice_to_vec(records);
            }
        }
        let empty: Vec<FileRecord> = Vec::new();
        assert(record_models(empty@) =~= Seq::empty());
        empty
    }

    /// What a mutation changes, or why it is refused.
    pub fn decide(&self, mutation: &Mutation) -> (outcome: Result<Vec<Change>, WorkspaceError>)
        ensures
            match outcome {
                Ok(changes) => self@.decided(mutation@) == Ok::<Seq<ChangeModel>, ErrorModel>(
                    change_models(changes@),
                ),
                Err(e) => self@.decided(mutation@) == Err::<Seq<ChangeModel>, ErrorModel>(e@),
            },
    {
        match mutation {
            Mutation::Mkdir { path } => self.adding(path.as_str(), Node::Directory),
            Mutation::CreateFile { path, executable, planner, records } => self.adding(
                path.as_str(),
                Node::File {
                    executable: *executable,
                    planner: *planner,
                    records: vstd::slice::slice_to_vec(records),
                },
            ),
            Mutation::SetRecords { path, records } => {
                let inode = self.file_at(path.as_str())?;
                Ok(
                    Self::one(
                        Change::SetRecords { inode, records: vstd::slice::slice_to_vec(records) },
                    ),
                )
            },
            Mutation::Truncate { path, length } => self.truncating(path.as_str(), *length),
            Mutation::Rename { from, to } => self.renaming(from.as_str(), to.as_str()),
            Mutation::Unlink { path } => {
                let found = self.existing(path.as_str())?;
                if found.1 == Kind::Directory {
                    return Err(WorkspaceError::NotAFile(path.clone()));
                }
                self.removing(path.as_str(), found.0)
            },
            Mutation::Rmdir { path } => {
                let found = self.existing(path.as_str())?;
                if found.1 != Kind::Directory {
                    return Err(WorkspaceError::NotADirectory(path.clone()));
                }
                if self.has_children(found.0) {
                    return Err(WorkspaceError::NotEmpty(path.clone()));
                }
                self.removing(path.as_str(), found.0)
            },
            Mutation::Symlink { path, target } => {
                if let Err(e) = validate_symlink_target(target.as_str()) {
                    return Err(WorkspaceError::Tfm1(e));
                }
                self.adding(path.as_str(), Node::Symlink { target: target.clone() })
            },
            Mutation::Hardlink { path, target } => {
                let child = self.file_at(target.as_str())?;
                let (parent, name) = self.resolve_new_leaf(path.as_str())?;
                Ok(Self::one(Change::Link { parent, name, child }))
            },
            Mutation::SetExecutable { path, executable } => {
                let inode = self.file_at(path.as_str())?;
                Ok(Self::one(Change::SetExecutable { inode, executable: *executable }))
            },
        }
    }
}

// ---------------------------------------------------------------------------
// Performing
// ---------------------------------------------------------------------------

impl WorkspaceTree {
    fn set_file(&mut self, id: i64, executable: Option<bool>, planner: Option<PlannerId>, records: Option<Vec<FileRecord>>)
        ensures
            final(self)@ == match old(self)@.node(id) {
                Some(NodeModel::File { executable: e, planner: p, records: r }) => old(self)@.with_file(
                    id,
                    NodeModel::File {
                        executable: match executable {
                            Some(x) => x,
                            None => e,
                        },
                        planner: match planner {
                            Some(x) => x,
                            None => p,
                        },
                        records: match records {
                            Some(x) => record_models(x@),
                            None => r,
                        },
                    },
                ),
                _ => old(self)@,
            },
    {
        let ghost before = self@;
        let at = self.find_inode(id);
        if at < self.inodes.len() {
            assert(before.inodes[at as int] == self.inodes@[at as int]@);
            if let Node::File { executable: e, planner: p, records: r } = &self.inodes[at].node {
                let new_executable = match executable {
                    Some(x) => x,
                    None => *e,
                };
                let new_planner = match planner {
                    Some(x) => x,
                    None => *p,
                };
                let new_records = match records {
                    Some(x) => x,
                    None => vstd::slice::slice_to_vec(r),
                };
                self.inodes[at] = Inode {
                    id,
                    node: Node::File {
                        executable: new_executable,
                        planner: new_planner,
                        records: new_records,
                    },
                };
                assert(self@.inodes =~= before.inodes.update(
                    at as int,
                    InodeModel {
                        id,
                        node: NodeModel::File {
                            executable: new_executable,
                            planner: new_planner,
                            records: record_models(new_records@),
                        },
                    },
                ));
            }
        }
    }

    /// Performs one decided change.
    pub fn perform(&mut self, change: Change)
        requires
            change@ matches ChangeModel::AddInode { id, .. } ==> id < i64::MAX,
        ensures
            final(self)@ == old(self)@.after(change@),
    {
        let ghost before = self@;
        let ghost model = change@;
        match change {
            Change::AddInode { id, node } => {
                let ghost kept = node@;
                self.inodes.push(Inode { id, node });
                self.next = id + 1;
                assert(self@.inodes =~= before.inodes.push(InodeModel { id, node: kept }));
            },
            Change::Link { parent, name, child } => {
                let ghost named = name@;
                self.dirents.push(Dirent { parent, name, child });
                assert(self@.dirents =~= before.dirents.push(
                    DirentModel { parent, name: named, child },
                ));
            },
            Change::SetRecords { inode, records } => {
                self.set_file(inode, None, None, Some(records));
            },
            Change::SetExecutable { inode, executable } => {
                self.set_file(inode, Some(executable), None, None);
            },
            Change::SetPlanner { inode, planner } => {
                self.set_file(inode, None, Some(planner), None);
            },
            Change::Move { parent, name, new_parent, new_name } => {
                let at = self.find_dirent(parent, &name);
                if at < self.dirents.len() {
                    let ghost named = new_name@;
                    let child = self.dirents[at].child;
                    assert(before.dirents[at as int] == self.dirents@[at as int]@);
                    self.dirents[at] = Dirent { parent: new_parent, name: new_name, child };
                    assert(self@.dirents =~= before.dirents.update(
                        at as int,
                        DirentModel { parent: new_parent, name: named, child },
                    ));
                }
            },
            Change::Unlink { parent, name } => {
                let at = self.find_dirent(parent, &name);
                if at < self.dirents.len() {
                    let gone = self.dirents.remove(at);
                    assert(self@.dirents =~= before.dirents.remove(at as int));
                }
            },
            Change::DropInode { id } => {
                let at = self.find_inode(id);
                if at < self.inodes.len() {
                    let gone = self.inodes.remove(at);
                    assert(self@.inodes =~= before.inodes.remove(at as int));
                }
            },
        }
        assert(self@ =~= before.after(model));
    }

    pub fn root(&self) -> (root: i64)
        ensures
            root == self@.root,
    {
        self.root
    }

    pub fn inodes(&self) -> (inodes: &[Inode])
        ensures
            inode_models(inodes@) == self@.inodes,
    {
        &self.inodes
    }

    pub fn dirents(&self) -> (dirents: &[Dirent])
        ensures
            dirent_models(dirents@) == self@.dirents,
    {
        &self.dirents
    }

    /// The number that the next inode gets.
    pub fn next(&self) -> (next: i64)
        ensures
            next == self@.next,
    {
        self.next
    }

    /// What becomes of an inode whose lease is released: it goes where neither
    /// a name nor another lease holds it.
    pub fn release(&mut self, lease: usize) -> (changes: Vec<Change>)
        requires
            lease < old(self)@.leases.len(),
        ensures
            ({
                let id = old(self)@.leases[lease as int];
                let rest = TreeRows { leases: old(self)@.leases.remove(lease as int), ..old(self)@ };
                &&& final(self)@ == rest
                &&& change_models(changes@) == if rest.is_held(id) {
                    Seq::<ChangeModel>::empty()
                } else {
                    seq![ChangeModel::DropInode { id }]
                }
            }),
    {
        let ghost before = self@;
        let id = self.leases.remove(lease);
        assert(self@ =~= (TreeRows { leases: before.leases.remove(lease as int), ..before }));
        let mut changes: Vec<Change> = Vec::new();
        if !self.is_held(id) {
            changes.push(Change::DropInode { id });
            assert(change_models(changes@) =~= seq![ChangeModel::DropInode { id }]);
        } else {
            assert(change_models(changes@) =~= Seq::empty());
        }
        changes
    }

    fn is_held(&self, id: i64) -> (yes: bool)
        ensures
            yes == self@.is_held(id),
    {
        let mut at: usize = 0;
        while at < self.dirents.len()
            invariant
                at <= self.dirents@.len(),
                forall|i: int| 0 <= i < at ==> (#[trigger] self@.dirents[i]).child != id,
            decreases self.dirents@.len() - at,
        {
            assert(self@.dirents[at as int] == self.dirents@[at as int]@);
            if self.dirents[at].child == id {
                return true;
            }
            at += 1;
        }
        let mut lease: usize = 0;
        while lease < self.leases.len()
            invariant
                lease <= self.leases@.len(),
                forall|i: int| 0 <= i < lease ==> self.leases@[i] != id,
                forall|i: int|
                    0 <= i < self@.dirents.len() ==> (#[trigger] self@.dirents[i]).child != id,
            decreases self.leases@.len() - lease,
        {
            if self.leases[lease] == id {
                return true;
            }
            lease += 1;
        }
        false
    }
}

impl TreeRows {
    /// Whether a name leads to an inode, or a lease pins it.
    pub open spec fn is_held(self, id: i64) -> bool {
        ||| exists|i: int| 0 <= i < self.dirents.len() && (#[trigger] self.dirents[i]).child == id
        ||| self.leases.contains(id)
    }
}

proof fn sum_of_prefix(a: Seq<RecordModel>, b: Seq<RecordModel>, upto: int)
    requires
        0 <= upto <= a.len(),
        upto <= b.len(),
        forall|i: int| 0 <= i < upto ==> a[i] == b[i],
    ensures
        record_sum(a, upto) == record_sum(b, upto),
    decreases upto,
{
    if upto > 0 {
        sum_of_prefix(a, b, upto - 1);
    }
}

proof fn length_of_pushed(records: Seq<RecordModel>, record: RecordModel)
    ensures
        run_length(records.push(record)) == run_length(records) + record.length(),
{
    sum_of_prefix(records.push(record), records, records.len() as int);
}

/// What cutting the whole run gives, once `kept` is settled and the rest is cut
/// from `at` on.
spec fn cut_with(kept: Seq<RecordModel>, rest: Option<Seq<RecordModel>>) -> Option<Seq<RecordModel>> {
    match rest {
        Some(more) => Some(kept + more),
        None => None,
    }
}

/// Cuts a record run at `length`, or extends it with a hole. A cut through a
/// data record is refused.
pub fn truncate_records(records: &Vec<FileRecord>, length: u64) -> (outcome: Option<Vec<FileRecord>>)
    ensures
        match outcome {
            Some(kept) => truncated(record_models(records@), length) == Some(record_models(kept@)),
            None => truncated(record_models(records@), length) is None,
        },
{
    let ghost models = record_models(records@);
    let ghost whole = cut(models, 0, 0, length as nat);
    let mut kept: Vec<FileRecord> = Vec::new();
    let mut position: u64 = 0;
    let mut at: usize = 0;
    assert(record_models(kept@) =~= Seq::empty());
    proof {
        match whole {
            Some(more) => {
                assert(record_models(kept@) + more =~= more);
            },
            None => {},
        }
    }
    while at < records.len() && position < length
        invariant
            at <= records@.len(),
            models == record_models(records@),
            position <= length,
            position == run_length(record_models(kept@)),
            whole == cut(models, 0, 0, length as nat),
            whole == cut_with(
                record_models(kept@),
                cut(models, at as int, position as nat, length as nat),
            ),
        decreases records@.len() - at,
    {
        let record = records[at];
        let ghost before = record_models(kept@);
        let ghost rest = cut(models, at + 1, (position + record@.length()) as nat, length as nat);
        assert(models[at as int] == record@);
        let size: u64 = record.length();
        if size > u64::MAX - position {
            return None;
        }
        let end: u64 = position + size;
        if end <= length {
            kept.push(record);
            proof {
                assert(record_models(kept@) =~= before.push(record@));
                length_of_pushed(before, record@);
                match rest {
                    Some(more) => {
                        assert(before + (seq![record@] + more) =~= before.push(record@) + more);
                    },
                    None => {},
                }
            }
            position = end;
            at += 1;
        } else {
            match record {
                FileRecord::Hole { .. } => {
                    let last = FileRecord::Hole { length: length - position };
                    kept.push(last);
                    proof {
                        assert(record_models(kept@) =~= before.push(last@));
                        length_of_pushed(before, last@);
                        assert(before + seq![last@] =~= before.push(last@));
                        assert(whole == Some(record_models(kept@)));
                    }
                    return Some(kept);
                },
                FileRecord::Data { .. } => {
                    return None;
                },
            }
        }
    }
    let ghost short = record_models(kept@);
    proof {
        assert(short + Seq::<RecordModel>::empty() =~= short);
        assert(whole == Some(short));
    }
    if position < length {
        let more: u64 = length - position;
        let count: usize = kept.len();
        if count > 0 {
            let last = kept[count - 1];
            if let FileRecord::Hole { length: hole } = last {
                proof {
                    assert(short[count - 1] == last@);
                    assert(short =~= short.drop_last().push(last@));
                    length_of_pushed(short.drop_last(), last@);
                }
                kept[count - 1] = FileRecord::Hole { length: hole + more };
                assert(record_models(kept@) =~= extended(short, more as nat));
                return Some(kept);
            }
            assert(short.last() == last@);
        }
        kept.push(FileRecord::Hole { length: more });
        assert(record_models(kept@) =~= extended(short, more as nat));
    }
    Some(kept)
}

/// A run that was cut or extended is as long as it was asked to be.
pub proof fn a_truncated_run_has_its_length(records: Seq<RecordModel>, length: u64)
    requires
        truncated(records, length) is Some,
    ensures
        run_length(truncated(records, length).unwrap()) == length,
{
    let kept = cut(records, 0, 0, length as nat).unwrap();
    cut_is_short(records, 0, 0, length as nat);
    let more = (length - run_length(kept)) as nat;
    if more > 0 {
        if kept.len() > 0 && kept.last() is Hole {
            assert(kept =~= kept.drop_last().push(kept.last()));
            length_of_pushed(kept.drop_last(), kept.last());
            length_of_pushed(
                kept.drop_last(),
                RecordModel::Hole { length: (kept.last().length() + more) as u64 },
            );
        } else {
            length_of_pushed(kept, RecordModel::Hole { length: more as u64 });
        }
    }
}

proof fn length_of_joined(a: Seq<RecordModel>, b: Seq<RecordModel>)
    ensures
        run_length(a + b) == run_length(a) + run_length(b),
    decreases b.len(),
{
    if b.len() == 0 {
        assert(a + b =~= a);
    } else {
        length_of_joined(a, b.drop_last());
        assert(a + b =~= (a + b.drop_last()).push(b.last()));
        assert(b =~= b.drop_last().push(b.last()));
        length_of_pushed(a + b.drop_last(), b.last());
        length_of_pushed(b.drop_last(), b.last());
    }
}

proof fn cut_is_short(records: Seq<RecordModel>, at: int, position: nat, length: nat)
    requires
        cut(records, at, position, length) is Some,
        position <= length <= u64::MAX,
    ensures
        position + run_length(cut(records, at, position, length).unwrap()) <= length,
    decreases records.len() - at,
{
    let kept = cut(records, at, position, length).unwrap();
    if at >= records.len() || position >= length {
    } else {
        let end = position + records[at].length() as nat;
        if end <= length {
            cut_is_short(records, at + 1, end, length);
            let rest = cut(records, at + 1, end, length).unwrap();
            length_of_joined(seq![records[at]], rest);
            length_of_pushed(Seq::empty(), records[at]);
            assert(Seq::<RecordModel>::empty().push(records[at]) =~= seq![records[at]]);
        } else {
            let last = RecordModel::Hole { length: (length - position) as u64 };
            length_of_pushed(Seq::empty(), last);
            assert(Seq::<RecordModel>::empty().push(last) =~= seq![last]);
        }
    }
}

/// A run cut at its own length stays as it is, if no record of it is empty.
pub proof fn a_run_cut_at_its_length_stays(records: Seq<RecordModel>)
    requires
        run_length(records) <= u64::MAX,
        forall|i: int| 0 <= i < records.len() ==> (#[trigger] records[i]).length() > 0,
    ensures
        truncated(records, run_length(records) as u64) == Some(records),
{
    whole_cut(records, 0);
    assert(records.skip(0) =~= records);
}

proof fn whole_cut(records: Seq<RecordModel>, at: int)
    requires
        0 <= at <= records.len(),
        run_length(records) <= u64::MAX,
        forall|i: int| 0 <= i < records.len() ==> (#[trigger] records[i]).length() > 0,
    ensures
        cut(records, at, record_sum(records, at), run_length(records)) == Some(records.skip(at)),
    decreases records.len() - at,
{
    if at < records.len() {
        crate::tfm1::record_sum_grows(records, at + 1, records.len() as int);
        whole_cut(records, at + 1);
        assert(seq![records[at]] + records.skip(at + 1) =~= records.skip(at));
    } else {
        assert(records.skip(at) =~= Seq::empty());
    }
}

} // verus!
