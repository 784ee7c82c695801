//! A workspace's tree as a snapshot builder takes it.

use super::tree::{
    dirent_models, inode_at, inode_models, Dirent, DirentModel, Inode, Node, NodeModel, TreeRows,
    WorkspaceTree,
};
use super::{ErrorModel, WorkspaceError};
use crate::contract::StampModel;
use crate::sort::{byte_strings, in_order, sort_stably};
use crate::text::{chars_of, strings};
use crate::tfm1::builder::{
    finished, resolved, BuilderModel, Declared, HeadTree, PendingModel, SnapshotBuilder, TreeModel,
};
use crate::tfm1::{parent_model, Snapshot, SnapshotId, SnapshotModel, Tfm1Error};
use std::collections::HashMap;
use vstd::prelude::*;
use vstd::string::*;
use vstd::utf8::encode_utf8;

verus! {

/// The first name at or behind `at` that leads to the inode `id`; the length
/// where there is none.
pub open spec fn link_at(dirents: Seq<DirentModel>, id: i64, at: int) -> int
    decreases dirents.len() - at,
{
    if at >= dirents.len() || dirents[at].child == id {
        at
    } else {
        link_at(dirents, id, at + 1)
    }
}

/// A name below a path.
pub open spec fn below(path: Seq<char>, name: Seq<char>) -> Seq<char> {
    if path.len() == 0 {
        name
    } else {
        path + "/"@ + name
    }
}

impl TreeRows {
    /// The path of a directory: empty for the root, else its name below the
    /// path of the directory that the name stands in. At most `steps` names
    /// are followed.
    pub open spec fn climb(self, id: i64, steps: nat) -> Option<Seq<char>>
        decreases steps,
    {
        let link = link_at(self.dirents, id, 0);
        if id == self.root {
            Some(Seq::empty())
        } else if steps == 0 || self.node(id) != Some(NodeModel::Directory) || link >= self.dirents.len() {
            None
        } else {
            match self.climb(self.dirents[link].parent, (steps - 1) as nat) {
                Some(path) => Some(below(path, self.dirents[link].name)),
                None => None,
            }
        }
    }

    /// The path of the name at `i`, if it hangs from the root.
    pub open spec fn path_at(self, i: int) -> Option<Seq<char>> {
        match self.climb(self.dirents[i].parent, self.dirents.len()) {
            Some(path) => Some(below(path, self.dirents[i].name)),
            None => None,
        }
    }

    /// The directories among the first `upto` names.
    pub open spec fn directories(self, upto: int) -> Seq<Declared>
        decreases upto,
    {
        if upto <= 0 {
            Seq::empty()
        } else {
            let before = self.directories(upto - 1);
            match (self.node(self.dirents[upto - 1].child), self.path_at(upto - 1)) {
                (Some(NodeModel::Directory), Some(path)) => before.push((path, PendingModel::Directory)),
                _ => before,
            }
        }
    }

    /// The symlinks among the first `upto` names.
    pub open spec fn symlinks(self, upto: int) -> Seq<Declared>
        decreases upto,
    {
        if upto <= 0 {
            Seq::empty()
        } else {
            let before = self.symlinks(upto - 1);
            match (self.node(self.dirents[upto - 1].child), self.path_at(upto - 1)) {
                (Some(NodeModel::Symlink { target }), Some(path)) => before.push(
                    (path, PendingModel::Symlink { target }),
                ),
                _ => before,
            }
        }
    }

    /// The paths among the first `upto` names that lead to an inode.
    pub open spec fn paths_to(self, id: i64, upto: int) -> Seq<Seq<char>>
        decreases upto,
    {
        if upto <= 0 {
            Seq::empty()
        } else {
            let before = self.paths_to(id, upto - 1);
            match self.path_at(upto - 1) {
                Some(path) if self.dirents[upto - 1].child == id => before.push(path),
                _ => before,
            }
        }
    }

    /// The files among the first `upto` inodes. The first path of a file, in
    /// the order of its bytes, carries it; the others are hardlinks to it.
    pub open spec fn files(self, upto: int) -> Seq<Declared>
        decreases upto,
    {
        if upto <= 0 {
            Seq::empty()
        } else {
            let before = self.files(upto - 1);
            let inode = self.inodes[upto - 1];
            let paths = ordered(self.paths_to(inode.id, self.dirents.len() as int));
            match inode.node {
                NodeModel::File { executable, planner, records } if paths.len() > 0 => before.push(
                    (
                        paths[0],
                        PendingModel::File {
                            executable,
                            planner,
                            contract: StampModel::Absent,
                            records,
                        },
                    ),
                ) + hardlinks(paths),
                _ => before,
            }
        }
    }

    /// What a builder is told of the tree.
    pub open spec fn declared(self) -> Seq<Declared> {
        self.directories(self.dirents.len() as int) + self.symlinks(self.dirents.len() as int)
            + self.files(self.inodes.len() as int)
    }
}

/// Paths in the order of their bytes.
pub open spec fn ordered(paths: Seq<Seq<char>>) -> Seq<Seq<char>> {
    in_order(paths.map_values(|path: Seq<char>| encode_utf8(path))).map_values(
        |at: usize| paths[at as int],
    )
}

/// All paths but the first, each a hardlink to the first.
pub open spec fn hardlinks(paths: Seq<Seq<char>>) -> Seq<Declared> {
    Seq::new(
        (paths.len() - 1) as nat,
        |i: int| (paths[i + 1], PendingModel::HardlinkTo { target: paths[0] }),
    )
}

// ---------------------------------------------------------------------------
// Staging
// ---------------------------------------------------------------------------

/// The rows of a tree with the place of each inode and of the first name that
/// leads to it.
struct Rows<'a> {
    root: i64,
    inodes: &'a [Inode],
    dirents: &'a [Dirent],
    nodes: HashMap<i64, usize>,
    links: HashMap<i64, usize>,
}

impl<'a> Rows<'a> {
    spec fn of(&self, rows: TreeRows) -> bool {
        &&& rows.root == self.root
        &&& rows.inodes == inode_models(self.inodes@)
        &&& rows.dirents == dirent_models(self.dirents@)
        &&& forall|id: i64|
            #![trigger inode_at(rows.inodes, id, 0)]
            self.nodes@.dom().contains(id) == (inode_at(rows.inodes, id, 0) < rows.inodes.len()) && (
            self.nodes@.dom().contains(id) ==> self.nodes@[id] == inode_at(rows.inodes, id, 0))
        &&& forall|id: i64|
            #![trigger link_at(rows.dirents, id, 0)]
            self.links@.dom().contains(id) == (link_at(rows.dirents, id, 0) < rows.dirents.len()) && (
            self.links@.dom().contains(id) ==> self.links@[id] == link_at(rows.dirents, id, 0))
    }

    fn new(tree: &'a WorkspaceTree) -> (index: Rows<'a>)
        ensures
            index.of(tree@),
    {
        broadcast use vstd::std_specs::hash::group_hash_axioms;

        let inodes = tree.inodes();
        let dirents = tree.dirents();
        let ghost rows = tree@;
        let mut nodes: HashMap<i64, usize> = HashMap::new();
        let mut at: usize = inodes.len();
        while at > 0
            invariant
                at <= inodes@.len(),
                rows.inodes == inode_models(inodes@),
                forall|id: i64|
                    #![trigger inode_at(rows.inodes, id, at as int)]
                    nodes@.dom().contains(id) == (inode_at(rows.inodes, id, at as int)
                        < rows.inodes.len()) && (nodes@.dom().contains(id) ==> nodes@[id] == inode_at(
                        rows.inodes,
                        id,
                        at as int,
                    )),
            decreases at,
        {
            let ghost before = nodes@;
            let ghost old_at = at as int;
            at -= 1;
            assert(rows.inodes[at as int] == inodes@[at as int]@);
            nodes.insert(inodes[at].id, at);
            proof {
                assert forall|id: i64|
                    #![trigger inode_at(rows.inodes, id, at as int)]
                    nodes@.dom().contains(id) == (inode_at(rows.inodes, id, at as int)
                        < rows.inodes.len()) && (nodes@.dom().contains(id) ==> nodes@[id] == inode_at(
                        rows.inodes,
                        id,
                        at as int,
                    )) by {
                    let later = inode_at(rows.inodes, id, old_at);
                    assert(before.dom().contains(id) == (later < rows.inodes.len()));
                }
            }
        }
        let mut links: HashMap<i64, usize> = HashMap::new();
        let mut name: usize = dirents.len();
        while name > 0
            invariant
                name <= dirents@.len(),
                rows.dirents == dirent_models(dirents@),
                forall|id: i64|
                    #![trigger link_at(rows.dirents, id, name as int)]
                    links@.dom().contains(id) == (link_at(rows.dirents, id, name as int)
                        < rows.dirents.len()) && (links@.dom().contains(id) ==> links@[id] == link_at(
                        rows.dirents,
                        id,
                        name as int,
                    )),
            decreases name,
        {
            let ghost before = links@;
            let ghost old_name = name as int;
            name -= 1;
            assert(rows.dirents[name as int] == dirents@[name as int]@);
            links.insert(dirents[name].child, name);
            proof {
                assert forall|id: i64|
                    #![trigger link_at(rows.dirents, id, name as int)]
                    links@.dom().contains(id) == (link_at(rows.dirents, id, name as int)
                        < rows.dirents.len()) && (links@.dom().contains(id) ==> links@[id] == link_at(
                        rows.dirents,
                        id,
                        name as int,
                    )) by {
                    let later = link_at(rows.dirents, id, old_name);
                    assert(before.dom().contains(id) == (later < rows.dirents.len()));
                }
            }
        }
        Rows { root: tree.root(), inodes, dirents, nodes, links }
    }

    /// The inode numbered `id`.
    fn node(&self, id: i64, Ghost(rows): Ghost<TreeRows>) -> (node: Option<&'a Node>)
        requires
            self.of(rows),
        ensures
            match node {
                Some(found) => rows.node(id) == Some(found@),
                None => rows.node(id) is None,
            },
    {
        broadcast use vstd::std_specs::hash::group_hash_axioms;

        let ghost place = inode_at(rows.inodes, id, 0);
        match self.nodes.get(&id) {
            Some(at) => {
                proof {
                    super::laws::inode_at_facts(rows.inodes, id, 0);
                    assert(rows.inodes[place] == self.inodes@[place]@);
                }
                Some(&self.inodes[*at].node)
            },
            None => None,
        }
    }

    fn climb(&self, id: i64, steps: usize, Ghost(rows): Ghost<TreeRows>) -> (path: Option<String>)
        requires
            self.of(rows),
        ensures
            match path {
                Some(p) => rows.climb(id, steps as nat) == Some(p@),
                None => rows.climb(id, steps as nat) is None,
            },
        decreases steps,
    {
        broadcast use vstd::std_specs::hash::group_hash_axioms;

        if id == self.root {
            return Some(String::new());
        }
        if steps == 0 {
            return None;
        }
        match self.node(id, Ghost(rows)) {
            Some(Node::Directory) => {},
            _ => {
                return None;
            },
        }
        let ghost place = link_at(rows.dirents, id, 0);
        match self.links.get(&id) {
            None => None,
            Some(at) => {
                proof {
                    link_at_is_near(rows.dirents, id, 0);
                    assert(rows.dirents[place] == self.dirents@[place]@);
                }
                let dirent = &self.dirents[*at];
                match self.climb(dirent.parent, steps - 1, Ghost(rows)) {
                    None => None,
                    Some(path) => Some(name_below(path, dirent.name.as_str())),
                }
            },
        }
    }

    fn path_at(&self, i: usize, Ghost(rows): Ghost<TreeRows>) -> (path: Option<String>)
        requires
            self.of(rows),
            i < rows.dirents.len(),
        ensures
            match path {
                Some(p) => rows.path_at(i as int) == Some(p@),
                None => rows.path_at(i as int) is None,
            },
    {
        assert(rows.dirents[i as int] == self.dirents@[i as int]@);
        let dirent = &self.dirents[i];
        match self.climb(dirent.parent, self.dirents.len(), Ghost(rows)) {
            None => None,
            Some(path) => Some(name_below(path, dirent.name.as_str())),
        }
    }

    /// Declares the directories.
    fn stage_directories(&self, builder: &mut SnapshotBuilder, Ghost(rows): Ghost<TreeRows>)
        requires
            self.of(rows),
        ensures
            final(builder)@ == (BuilderModel {
                pending: old(builder)@.pending + rows.directories(rows.dirents.len() as int),
                ..old(builder)@
            }),
    {
        let ghost before = builder@;
        let mut at: usize = 0;
        assert(before.pending + rows.directories(0) =~= before.pending);
        while at < self.dirents.len()
            invariant
                self.of(rows),
                at <= self.dirents@.len(),
                builder@ == (BuilderModel {
                    pending: before.pending + rows.directories(at as int),
                    ..before
                }),
            decreases self.dirents@.len() - at,
        {
            let ghost held = builder@.pending;
            assert(rows.dirents[at as int] == self.dirents@[at as int]@);
            if let Some(Node::Directory) = self.node(self.dirents[at].child, Ghost(rows)) {
                if let Some(path) = self.path_at(at, Ghost(rows)) {
                    let ghost named = path@;
                    builder.directory(path);
                    assert(held.push((named, PendingModel::Directory)) =~= before.pending
                        + rows.directories(at + 1));
                }
            }
            at += 1;
        }
    }

    /// Declares the symlinks.
    fn stage_symlinks(&self, builder: &mut SnapshotBuilder, Ghost(rows): Ghost<TreeRows>)
        requires
            self.of(rows),
        ensures
            final(builder)@ == (BuilderModel {
                pending: old(builder)@.pending + rows.symlinks(rows.dirents.len() as int),
                ..old(builder)@
            }),
    {
        let ghost before = builder@;
        let mut at: usize = 0;
        assert(before.pending + rows.symlinks(0) =~= before.pending);
        while at < self.dirents.len()
            invariant
                self.of(rows),
                at <= self.dirents@.len(),
                builder@ == (BuilderModel {
                    pending: before.pending + rows.symlinks(at as int),
                    ..before
                }),
            decreases self.dirents@.len() - at,
        {
            let ghost held = builder@.pending;
            assert(rows.dirents[at as int] == self.dirents@[at as int]@);
            if let Some(Node::Symlink { target }) = self.node(self.dirents[at].child, Ghost(rows)) {
                if let Some(path) = self.path_at(at, Ghost(rows)) {
                    let ghost named = path@;
                    builder.symlink(path, target.clone());
                    assert(held.push((named, PendingModel::Symlink { target: target@ }))
                        =~= before.pending + rows.symlinks(at + 1));
                }
            }
            at += 1;
        }
    }

    /// The paths that lead to an inode.
    fn paths_to(&self, id: i64, Ghost(rows): Ghost<TreeRows>) -> (paths: Vec<String>)
        requires
            self.of(rows),
        ensures
            strings(paths@) == rows.paths_to(id, rows.dirents.len() as int),
    {
        let mut paths: Vec<String> = Vec::new();
        let mut at: usize = 0;
        assert(strings(paths@) =~= rows.paths_to(id, 0));
        while at < self.dirents.len()
            invariant
                self.of(rows),
                at <= self.dirents@.len(),
                strings(paths@) == rows.paths_to(id, at as int),
            decreases self.dirents@.len() - at,
        {
            let ghost held = strings(paths@);
            assert(rows.dirents[at as int] == self.dirents@[at as int]@);
            if self.dirents[at].child == id {
                if let Some(path) = self.path_at(at, Ghost(rows)) {
                    let ghost named = path@;
                    paths.push(path);
                    assert(strings(paths@) =~= held.push(named));
                }
            }
            at += 1;
        }
        paths
    }

    /// Declares the files.
    fn stage_files(&self, builder: &mut SnapshotBuilder, Ghost(rows): Ghost<TreeRows>)
        requires
            self.of(rows),
        ensures
            final(builder)@ == (BuilderModel {
                pending: old(builder)@.pending + rows.files(rows.inodes.len() as int),
                ..old(builder)@
            }),
    {
        let ghost before = builder@;
        let mut at: usize = 0;
        assert(before.pending + rows.files(0) =~= before.pending);
        while at < self.inodes.len()
            invariant
                self.of(rows),
                at <= self.inodes@.len(),
                builder@ == (BuilderModel {
                    pending: before.pending + rows.files(at as int),
                    ..before
                }),
            decreases self.inodes@.len() - at,
        {
            assert(rows.inodes[at as int] == self.inodes@[at as int]@);
            let inode = &self.inodes[at];
            if let Node::File { executable, planner, records } = &inode.node {
                let found = self.paths_to(inode.id, Ghost(rows));
                let paths = order_paths(&found);
                if paths.len() > 0 {
                    let ghost held = builder@.pending;
                    let ghost named = strings(paths@);
                    assert(named[0] == paths@[0]@);
                    builder.file(
                        paths[0].clone(),
                        *executable,
                        *planner,
                        vstd::slice::slice_to_vec(records),
                    );
                    stage_hardlinks(builder, &paths);
                    assert(builder@.pending =~= before.pending + rows.files(at + 1));
                }
            }
            at += 1;
        }
    }
}

proof fn link_at_is_near(dirents: Seq<DirentModel>, id: i64, at: int)
    requires
        0 <= at <= dirents.len(),
    ensures
        at <= link_at(dirents, id, at) <= dirents.len(),
    decreases dirents.len() - at,
{
    if at < dirents.len() && dirents[at].child != id {
        link_at_is_near(dirents, id, at + 1);
    }
}

fn name_below(path: String, name: &str) -> (joined: String)
    ensures
        joined@ == below(path@, name@),
{
    let chars = chars_of(path.as_str());
    if chars.len() == 0 {
        return name.to_string();
    }
    let mut joined = path;
    joined.append("/");
    joined.append(name);
    assert(joined@ =~= below(path@, name@));
    joined
}

fn order_paths(paths: &Vec<String>) -> (sorted: Vec<String>)
    ensures
        strings(sorted@) == ordered(strings(paths@)),
{
    let ghost views = strings(paths@);
    let mut keys: Vec<Vec<u8>> = Vec::new();
    let mut at: usize = 0;
    while at < paths.len()
        invariant
            at <= paths@.len(),
            keys@.len() == at,
            forall|i: int| 0 <= i < at ==> (#[trigger] keys@[i])@ == encode_utf8(paths@[i]@),
        decreases paths@.len() - at,
    {
        keys.push(vstd::slice::slice_to_vec(paths[at].as_str().as_bytes()));
        at += 1;
    }
    let order = sort_stably(&keys);
    proof {
        assert(byte_strings(keys@) =~= views.map_values(|path: Seq<char>| encode_utf8(path)));
    }
    let mut sorted: Vec<String> = Vec::new();
    let mut place: usize = 0;
    while place < order.len()
        invariant
            place <= order@.len(),
            order@.len() == paths@.len(),
            forall|i: int| 0 <= i < order@.len() ==> #[trigger] order@[i] < paths@.len(),
            sorted@.len() == place,
            forall|i: int|
                0 <= i < place ==> (#[trigger] sorted@[i])@ == paths@[order@[i] as int]@,
        decreases order@.len() - place,
    {
        assert(order@[place as int] < paths@.len());
        sorted.push(paths[order[place]].clone());
        place += 1;
    }
    proof {
        assert(strings(sorted@) =~= ordered(views)) by {
            assert forall|i: int| 0 <= i < sorted@.len() implies strings(sorted@)[i] == ordered(views)[i] by {
                assert(strings(sorted@)[i] == sorted@[i]@);
                assert(order@[i] < paths@.len());
                assert(views[order@[i] as int] == paths@[order@[i] as int]@);
            }
        }
    }
    sorted
}

fn stage_hardlinks(builder: &mut SnapshotBuilder, paths: &Vec<String>)
    requires
        paths@.len() > 0,
    ensures
        final(builder)@ == (BuilderModel {
            pending: old(builder)@.pending + hardlinks(strings(paths@)),
            ..old(builder)@
        }),
{
    let ghost before = builder@;
    let ghost links = hardlinks(strings(paths@));
    let mut at: usize = 1;
    assert(before.pending + links.take(0) =~= before.pending);
    while at < paths.len()
        invariant
            1 <= at <= paths@.len(),
            links == hardlinks(strings(paths@)),
            builder@ == (BuilderModel { pending: before.pending + links.take(at - 1), ..before }),
        decreases paths@.len() - at,
    {
        let ghost held = builder@.pending;
        builder.hardlink(paths[at].clone(), paths[0].clone());
        proof {
            assert(links[at - 1] == (
                paths@[at as int]@,
                PendingModel::HardlinkTo { target: paths@[0]@ },
            ));
            assert(held.push(links[at - 1]) =~= before.pending + links.take(at as int));
        }
        at += 1;
    }
    assert(links.take(at - 1) =~= links);
}

impl WorkspaceTree {
    /// The tree, declared to a builder.
    pub fn stage_builder(&self, parent: Option<SnapshotId>) -> (builder: SnapshotBuilder)
        ensures
            builder@ == (BuilderModel { parent: parent_model(parent), pending: self@.declared() }),
    {
        let rows = Rows::new(self);
        let mut builder = SnapshotBuilder::new(parent);
        rows.stage_directories(&mut builder, Ghost(self@));
        rows.stage_symlinks(&mut builder, Ghost(self@));
        rows.stage_files(&mut builder, Ghost(self@));
        assert(builder@.pending =~= self@.declared());
        builder
    }

    /// The tree with its files as they are staged.
    pub fn head_tree(&self) -> (outcome: Result<HeadTree, WorkspaceError>)
        ensures
            match outcome {
                Ok(tree) => resolved(self@.declared()) == Ok::<Seq<(Seq<char>, TreeModel)>, Tfm1Error>(
                    tree@,
                ),
                Err(e) => {
                    &&& e@ matches ErrorModel::Tfm1(inner)
                    &&& resolved(self@.declared()) == Err::<Seq<(Seq<char>, TreeModel)>, Tfm1Error>(inner)
                },
            },
    {
        match self.stage_builder(None).finish_tree() {
            Ok(tree) => Ok(tree),
            Err(e) => Err(WorkspaceError::Tfm1(e)),
        }
    }

    /// The tree as a canonical snapshot. Every file that is no tensor container
    /// must be empty or one whole object.
    pub fn build_snapshot(&self, parent: Option<SnapshotId>) -> (outcome: Result<Snapshot, WorkspaceError>)
        ensures
            ({
                let builder = BuilderModel {
                    parent: parent_model(parent),
                    pending: self@.declared(),
                };
                match outcome {
                    Ok(snapshot) => finished(builder) == Ok::<SnapshotModel, Tfm1Error>(snapshot@),
                    Err(e) => {
                        &&& e@ matches ErrorModel::Tfm1(inner)
                        &&& finished(builder) == Err::<SnapshotModel, Tfm1Error>(inner)
                    },
                }
            }),
    {
        match self.stage_builder(parent).finish() {
            Ok(snapshot) => Ok(snapshot),
            Err(e) => Err(WorkspaceError::Tfm1(e)),
        }
    }
}

} // verus!
