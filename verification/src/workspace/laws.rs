//! What every mutation keeps.

use super::tree::{
    dirent_at, inode_at, name_of, ChangeModel, DirentModel, InodeModel, Kind, NodeModel, TreeRows,
};
use super::MutationModel;
use crate::text::{last_index, last_index_facts, split_at, split_is_filled};
use crate::tfm1::path::{folded, path_error};
use crate::tfm1::tree::parent_of;
use vstd::prelude::*;

verus! {

impl TreeRows {
    /// Inodes are numbered in rising order, below the next number.
    pub open spec fn numbered(self) -> bool {
        &&& forall|i: int, j: int|
            0 <= i < j < self.inodes.len() ==> (#[trigger] self.inodes[i]).id < (#[trigger] self.inodes[j]).id
        &&& forall|i: int| 0 <= i < self.inodes.len() ==> (#[trigger] self.inodes[i]).id < self.next
    }

    /// The name at `i` stands in a directory and leads to an inode other than
    /// the root.
    pub open spec fn anchored(self, i: int) -> bool {
        &&& self.node(self.dirents[i].parent) == Some(NodeModel::Directory)
        &&& self.node(self.dirents[i].child) is Some
        &&& self.dirents[i].child != self.root
    }

    /// No two names of one directory are the same but for their case, and no
    /// two names lead to one directory.
    pub open spec fn apart(self, i: int, j: int) -> bool {
        &&& self.dirents[i].parent == self.dirents[j].parent ==> folded(self.dirents[i].name)
            != folded(self.dirents[j].name)
        &&& self.dirents[i].child == self.dirents[j].child ==> self.node(self.dirents[i].child)
            != Some(NodeModel::Directory)
    }

    /// A tree: the root is a directory, every name is anchored, and any two are
    /// apart.
    pub open spec fn valid(self) -> bool {
        &&& self.numbered()
        &&& self.node(self.root) == Some(NodeModel::Directory)
        &&& forall|i: int| 0 <= i < self.dirents.len() ==> #[trigger] self.anchored(i)
        &&& forall|i: int, j: int| 0 <= i < j < self.dirents.len() ==> #[trigger] self.apart(i, j)
    }
}

pub(crate) proof fn inode_at_facts(inodes: Seq<InodeModel>, id: i64, at: int)
    requires
        0 <= at <= inodes.len(),
    ensures
        at <= inode_at(inodes, id, at) <= inodes.len(),
        inode_at(inodes, id, at) < inodes.len() ==> inodes[inode_at(inodes, id, at)].id == id,
        forall|i: int| at <= i < inode_at(inodes, id, at) ==> (#[trigger] inodes[i]).id != id,
    decreases inodes.len() - at,
{
    if at < inodes.len() && inodes[at].id != id {
        inode_at_facts(inodes, id, at + 1);
    }
}

proof fn inode_at_is(inodes: Seq<InodeModel>, id: i64, at: int, place: int)
    requires
        0 <= at <= place <= inodes.len(),
        place < inodes.len() ==> inodes[place].id == id,
        forall|i: int| at <= i < place ==> (#[trigger] inodes[i]).id != id,
    ensures
        inode_at(inodes, id, at) == place,
    decreases inodes.len() - at,
{
    if at < place {
        inode_at_is(inodes, id, at + 1, place);
    }
}

pub(crate) proof fn dirent_at_facts(dirents: Seq<DirentModel>, parent: i64, name: Seq<char>, at: int)
    requires
        0 <= at <= dirents.len(),
    ensures
        at <= dirent_at(dirents, parent, name, at) <= dirents.len(),
        dirent_at(dirents, parent, name, at) < dirents.len() ==> dirents[dirent_at(
            dirents,
            parent,
            name,
            at,
        )].parent == parent && dirents[dirent_at(dirents, parent, name, at)].name == name,
        forall|i: int|
            at <= i < dirent_at(dirents, parent, name, at) ==> !((#[trigger] dirents[i]).parent == parent
                && dirents[i].name == name),
    decreases dirents.len() - at,
{
    if at < dirents.len() && !(dirents[at].parent == parent && dirents[at].name == name) {
        dirent_at_facts(dirents, parent, name, at + 1);
    }
}

/// A new inode is found under its number, and the others stay as they are.
pub(crate) proof fn node_of_added(rows: TreeRows, id: i64, node: NodeModel, asked: i64)
    requires
        rows.numbered(),
        rows.next <= id < i64::MAX,
    ensures
        rows.after(ChangeModel::AddInode { id, node }).node(asked) == if asked == id {
            Some(node)
        } else {
            rows.node(asked)
        },
        rows.after(ChangeModel::AddInode { id, node }).numbered(),
{
    let after = rows.after(ChangeModel::AddInode { id, node });
    inode_at_facts(rows.inodes, asked, 0);
    let place = inode_at(rows.inodes, asked, 0);
    assert forall|i: int| 0 <= i < rows.inodes.len() implies (#[trigger] after.inodes[i]) == rows.inodes[i] by {}
    if place < rows.inodes.len() {
        assert(rows.inodes[place].id < rows.next);
        inode_at_is(after.inodes, asked, 0, place);
    } else if asked == id {
        inode_at_is(after.inodes, asked, 0, place);
    } else {
        inode_at_is(after.inodes, asked, 0, place + 1);
    }
}

/// Replacing a file leaves a file under its number, and the rest as it is.
pub(crate) proof fn node_of_replaced(rows: TreeRows, id: i64, file: NodeModel, asked: i64)
    requires
        rows.numbered(),
        file is File,
    ensures
        rows.with_file(id, file).numbered(),
        rows.with_file(id, file).node(asked) is Some == rows.node(asked) is Some,
        (rows.with_file(id, file).node(asked) == Some(NodeModel::Directory)) == (rows.node(asked) == Some(
            NodeModel::Directory,
        )),
{
    let after = rows.with_file(id, file);
    let place = inode_at(rows.inodes, id, 0);
    inode_at_facts(rows.inodes, id, 0);
    inode_at_facts(rows.inodes, asked, 0);
    let found = inode_at(rows.inodes, asked, 0);
    if place < rows.inodes.len() && rows.inodes[place].node is File {
        assert forall|i: int| 0 <= i < rows.inodes.len() implies (#[trigger] after.inodes[i]).id
            == rows.inodes[i].id by {}
        inode_at_is(after.inodes, asked, 0, found);
    }
}

/// Dropping an inode takes it away, and leaves the others as they are.
pub(crate) proof fn node_of_dropped(rows: TreeRows, id: i64, asked: i64)
    requires
        rows.numbered(),
    ensures
        rows.after(ChangeModel::DropInode { id }).numbered(),
        asked != id ==> rows.after(ChangeModel::DropInode { id }).node(asked) == rows.node(asked),
{
    let after = rows.after(ChangeModel::DropInode { id });
    let place = inode_at(rows.inodes, id, 0);
    inode_at_facts(rows.inodes, id, 0);
    inode_at_facts(rows.inodes, asked, 0);
    let found = inode_at(rows.inodes, asked, 0);
    if place < rows.inodes.len() {
        assert forall|i: int| 0 <= i < after.inodes.len() implies (#[trigger] after.inodes[i])
            == rows.inodes[if i < place {
            i
        } else {
            i + 1
        }] by {}
        assert forall|i: int, j: int| 0 <= i < j < after.inodes.len() implies (#[trigger] after.inodes[i]).id
            < (#[trigger] after.inodes[j]).id by {
            let a = if i < place {
                i
            } else {
                i + 1
            };
            let b = if j < place {
                j
            } else {
                j + 1
            };
            assert(rows.inodes[a].id < rows.inodes[b].id);
        }
        if asked != id {
            let moved = if found > place {
                found - 1
            } else {
                found
            };
            assert forall|i: int| 0 <= i < moved implies (#[trigger] after.inodes[i]).id != asked by {
                let a = if i < place {
                    i
                } else {
                    i + 1
                };
                assert(rows.inodes[a].id != asked);
            }
            inode_at_is(after.inodes, asked, 0, moved);
        }
    }
}

/// What a name of a valid tree leads to is there, and is not the root.
proof fn child_is_there(rows: TreeRows, parent: i64, name: Seq<char>)
    requires
        rows.valid(),
        rows.child(parent, name) is Some,
    ensures
        ({
            let found = rows.child(parent, name).unwrap();
            &&& rows.node(found.0) is Some
            &&& rows.node(found.0).unwrap().kind() == found.1
            &&& found.0 != rows.root
        }),
{
    dirent_at_facts(rows.dirents, parent, name, 0);
    assert(rows.anchored(dirent_at(rows.dirents, parent, name, 0)));
}

pub(crate) proof fn walk_is_there(rows: TreeRows, from: (i64, Kind), names: Seq<Seq<char>>, at: int)
    requires
        rows.valid(),
        0 <= at <= names.len(),
        rows.node(from.0) is Some,
        rows.node(from.0).unwrap().kind() == from.1,
        rows.walk(from, names, at) is Some,
    ensures
        ({
            let found = rows.walk(from, names, at).unwrap();
            &&& rows.node(found.0) is Some
            &&& rows.node(found.0).unwrap().kind() == found.1
            &&& (from.0 != rows.root || at < names.len()) ==> found.0 != rows.root
        }),
    decreases names.len() - at,
{
    if at < names.len() {
        child_is_there(rows, from.0, names[at]);
        walk_is_there(rows, rows.child(from.0, names[at]).unwrap(), names, at + 1);
    }
}

/// What a path of a valid tree leads to is there, and is the root only for the
/// empty path.
pub proof fn resolved_is_there(rows: TreeRows, path: Seq<char>)
    requires
        rows.valid(),
        rows.existing(path) is Ok,
    ensures
        ({
            let found = rows.existing(path)->Ok_0;
            &&& rows.node(found.0) is Some
            &&& rows.node(found.0).unwrap().kind() == found.1
            &&& path.len() > 0 ==> found.0 != rows.root
        }),
{
    if path.len() > 0 {
        split_is_filled(path, '/');
        walk_is_there(rows, (rows.root, Kind::Directory), split_at(path, '/'), 0);
    }
}

pub(crate) proof fn split_of_parent(path: Seq<char>)
    ensures
        split_at(path, '/') == match parent_of(path) {
            Some(parent) => split_at(parent, '/').push(name_of(path)),
            None => seq![path],
        },
        parent_of(path) is None ==> name_of(path) == path,
    decreases path.len(),
{
    last_index_facts(path, '/');
    if path.len() == 0 {
        assert(name_of(path) =~= path);
        assert(path =~= Seq::<char>::empty());
    } else {
        let before = path.drop_last();
        split_of_parent(before);
        last_index_facts(before, '/');
        if path.last() == '/' {
            assert(path.take(path.len() - 1) =~= before);
            assert(name_of(path) =~= Seq::empty());
        } else {
            let at = last_index(path, '/');
            assert(name_of(path) =~= name_of(before).push(path.last()));
            if at < 0 {
                assert(name_of(path) =~= path);
                assert(split_at(path, '/') =~= seq![path]);
            } else {
                assert(path.take(at) =~= before.take(at));
                assert(split_at(path, '/') =~= split_at(path.take(at), '/').push(name_of(path)));
            }
        }
    }
}

pub(crate) proof fn walk_of_prefix(rows: TreeRows, from: (i64, Kind), names: Seq<Seq<char>>, last: Seq<char>, at: int)
    requires
        0 <= at <= names.len(),
        rows.walk(from, names.push(last), at) is Some,
    ensures
        rows.walk(from, names, at) is Some,
        rows.walk(from, names, at).unwrap().1 == Kind::Directory,
        rows.walk(from, names.push(last), at) == rows.child(rows.walk(from, names, at).unwrap().0, last),
    decreases names.len() - at,
{
    let longer = names.push(last);
    if at < names.len() {
        assert(longer[at] == names[at]);
        walk_of_prefix(rows, rows.child(from.0, names[at]).unwrap(), names, last, at + 1);
    } else {
        assert(longer[at] == last);
        assert(rows.walk(rows.child(from.0, last).unwrap(), longer, at + 1) == rows.child(
            from.0,
            last,
        ));
    }
}

/// Where a path leads somewhere, the path above it leads to a directory (if it
/// is a path at all), and the last name there leads to the same.
pub proof fn the_parent_is_a_directory(rows: TreeRows, path: Seq<char>)
    requires
        rows.existing(path) is Ok,
        path.len() > 0,
    ensures
        match parent_of(path) {
            None => rows.child(rows.root, name_of(path)) == Some(rows.existing(path)->Ok_0),
            Some(parent) => path_error(parent) is None ==> {
                &&& rows.existing(parent) is Ok
                &&& rows.existing(parent)->Ok_0.1 == Kind::Directory
                &&& rows.child(rows.existing(parent)->Ok_0.0, name_of(path)) == Some(
                    rows.existing(path)->Ok_0,
                )
            },
        },
{
    let root = (rows.root, Kind::Directory);
    split_of_parent(path);
    match parent_of(path) {
        None => {
            assert(rows.walk(root, seq![path], 0) == rows.walk(
                rows.child(rows.root, path).unwrap(),
                seq![path],
                1,
            ));
        },
        Some(parent) => {
            walk_of_prefix(rows, root, split_at(parent, '/'), name_of(path), 0);
            if path_error(parent) is None {
                if parent.len() == 0 {
                    assert(path_error(parent) is Some);
                }
            }
        },
    }
}

proof fn adding_keeps_valid(rows: TreeRows, path: Seq<char>, node: NodeModel)
    requires
        rows.valid(),
        rows.next < i64::MAX,
        rows.adding(path, node) is Ok,
    ensures
        rows.after_all(rows.adding(path, node)->Ok_0, 2).valid(),
{
    reveal_with_fuel(TreeRows::after_all, 3);
    let changes = rows.adding(path, node)->Ok_0;
    let added = rows.after(changes[0]);
    let after = rows.after_all(changes, 2);
    let (parent, name) = rows.new_leaf(path)->Ok_0;
    new_parent_is_directory(rows, path);
    assert(after == added.after(changes[1]));
    assert forall|id: i64| #[trigger] after.node(id) == (if id == rows.next {
        Some(node)
    } else {
        rows.node(id)
    }) by {
        node_of_added(rows, rows.next, node, id);
        assert(after.node(id) == added.node(id));
    }
    node_of_added(rows, rows.next, node, rows.root);
    assert forall|id: i64| rows.node(id) is Some implies id < rows.next by {
        inode_at_facts(rows.inodes, id, 0);
    }
    assert forall|i: int| 0 <= i < after.dirents.len() implies #[trigger] after.anchored(i) by {
        if i < rows.dirents.len() {
            assert(rows.anchored(i));
            assert(after.dirents[i] == rows.dirents[i]);
        }
    }
    assert forall|i: int, j: int| 0 <= i < j < after.dirents.len() implies #[trigger] after.apart(i, j) by {
        assert(after.dirents[i] == rows.dirents[i]);
        assert(rows.anchored(i));
        if j < rows.dirents.len() {
            assert(after.dirents[j] == rows.dirents[j]);
            assert(rows.apart(i, j));
        } else {
            assert(!rows.collides(parent, name));
        }
    }
}

proof fn new_parent_is_directory(rows: TreeRows, path: Seq<char>)
    requires
        rows.valid(),
        rows.new_leaf(path) is Ok,
    ensures
        rows.node(rows.new_leaf(path)->Ok_0.0) == Some(NodeModel::Directory),
{
    match parent_of(path) {
        Some(parent) => {
            resolved_is_there(rows, parent);
        },
        None => {},
    }
}

proof fn linking_keeps_valid(rows: TreeRows, path: Seq<char>, child: i64)
    requires
        rows.valid(),
        rows.new_leaf(path) is Ok,
        rows.node(child) is Some,
        rows.node(child) != Some(NodeModel::Directory),
    ensures
        rows.after(
            ChangeModel::Link {
                parent: rows.new_leaf(path)->Ok_0.0,
                name: rows.new_leaf(path)->Ok_0.1,
                child,
            },
        ).valid(),
{
    let (parent, name) = rows.new_leaf(path)->Ok_0;
    let after = rows.after(ChangeModel::Link { parent, name, child });
    new_parent_is_directory(rows, path);
    assert forall|id: i64| #[trigger] after.node(id) == rows.node(id) by {}
    assert forall|i: int| 0 <= i < after.dirents.len() implies #[trigger] after.anchored(i) by {
        if i < rows.dirents.len() {
            assert(rows.anchored(i));
            assert(after.dirents[i] == rows.dirents[i]);
        }
    }
    assert forall|i: int, j: int| 0 <= i < j < after.dirents.len() implies #[trigger] after.apart(i, j) by {
        assert(after.dirents[i] == rows.dirents[i]);
        if j < rows.dirents.len() {
            assert(after.dirents[j] == rows.dirents[j]);
            assert(rows.apart(i, j));
        } else {
            assert(!rows.collides(parent, name));
        }
    }
}

proof fn replacing_keeps_valid(rows: TreeRows, id: i64, file: NodeModel)
    requires
        rows.valid(),
        file is File,
    ensures
        rows.with_file(id, file).valid(),
{
    let after = rows.with_file(id, file);
    assert forall|asked: i64|
        (#[trigger] after.node(asked) is Some == rows.node(asked) is Some) && ((after.node(asked) == Some(
            NodeModel::Directory,
        )) == (rows.node(asked) == Some(NodeModel::Directory))) by {
        node_of_replaced(rows, id, file, asked);
    }
    node_of_replaced(rows, id, file, rows.root);
    assert forall|i: int| 0 <= i < after.dirents.len() implies #[trigger] after.anchored(i) by {
        assert(rows.anchored(i));
        let a = after.node(rows.dirents[i].parent);
        let b = after.node(rows.dirents[i].child);
    }
    assert forall|i: int, j: int| 0 <= i < j < after.dirents.len() implies #[trigger] after.apart(i, j) by {
        assert(rows.apart(i, j));
        let a = after.node(rows.dirents[i].child);
    }
}

proof fn moving_keeps_valid(rows: TreeRows, parent: i64, name: Seq<char>, to: Seq<char>)
    requires
        rows.valid(),
        rows.new_leaf(to) is Ok,
    ensures
        rows.after(
            ChangeModel::Move {
                parent,
                name,
                new_parent: rows.new_leaf(to)->Ok_0.0,
                new_name: rows.new_leaf(to)->Ok_0.1,
            },
        ).valid(),
{
    let (new_parent, new_name) = rows.new_leaf(to)->Ok_0;
    let after = rows.after(ChangeModel::Move { parent, name, new_parent, new_name });
    let place = dirent_at(rows.dirents, parent, name, 0);
    dirent_at_facts(rows.dirents, parent, name, 0);
    new_parent_is_directory(rows, to);
    if place < rows.dirents.len() {
        assert forall|id: i64| #[trigger] after.node(id) == rows.node(id) by {}
        assert(rows.anchored(place));
        assert forall|i: int| 0 <= i < after.dirents.len() implies #[trigger] after.anchored(i) by {
            assert(rows.anchored(i));
        }
        assert forall|i: int, j: int| 0 <= i < j < after.dirents.len() implies #[trigger] after.apart(i, j) by {
            assert(rows.apart(i, j));
            assert(!rows.collides(new_parent, new_name));
            if i != place {
                assert(after.dirents[i] == rows.dirents[i]);
            }
            if j != place {
                assert(after.dirents[j] == rows.dirents[j]);
            }
        }
    }
}

proof fn removing_keeps_valid(rows: TreeRows, path: Seq<char>, id: i64)
    requires
        rows.valid(),
        rows.removing(path, id) is Ok,
        id != rows.root,
        !rows.has_children(id),
    ensures
        rows.after_all(rows.removing(path, id)->Ok_0, rows.removing(path, id)->Ok_0.len() as int).valid(),
{
    reveal_with_fuel(TreeRows::after_all, 3);
    let changes = rows.removing(path, id)->Ok_0;
    let parent = rows.old_parent(path)->Ok_0;
    let name = name_of(path);
    let unlinked = rows.after(ChangeModel::Unlink { parent, name });
    let place = dirent_at(rows.dirents, parent, name, 0);
    dirent_at_facts(rows.dirents, parent, name, 0);
    assert forall|asked: i64| #[trigger] unlinked.node(asked) == rows.node(asked) by {}
    if place < rows.dirents.len() {
        assert forall|i: int| 0 <= i < unlinked.dirents.len() implies (#[trigger] unlinked.dirents[i])
            == rows.dirents[if i < place {
            i
        } else {
            i + 1
        }] by {}
    }
    assert forall|i: int| 0 <= i < unlinked.dirents.len() implies #[trigger] unlinked.anchored(i) by {
        let a = if i < place {
            i
        } else {
            i + 1
        };
        assert(rows.anchored(a));
    }
    assert forall|i: int, j: int| 0 <= i < j < unlinked.dirents.len() implies #[trigger] unlinked.apart(
        i,
        j,
    ) by {
        let a = if i < place {
            i
        } else {
            i + 1
        };
        let b = if j < place {
            j
        } else {
            j + 1
        };
        assert(rows.apart(a, b));
    }
    assert(unlinked.valid());
    if !rows.still_held(id, parent, name) {
        let after = unlinked.after(ChangeModel::DropInode { id });
        assert forall|asked: i64| asked != id implies #[trigger] after.node(asked) == rows.node(asked) by {
            node_of_dropped(unlinked, id, asked);
        }
        node_of_dropped(unlinked, id, rows.root);
        assert forall|i: int| 0 <= i < after.dirents.len() implies after.dirents[i].parent != id
            && (#[trigger] after.dirents[i]).child != id by {
            let a = if i < place {
                i
            } else {
                i + 1
            };
            assert(unlinked.dirents[i] == rows.dirents[a]);
            assert(!rows.has_children(id));
            assert(rows.dirents[a].parent != id);
            if rows.dirents[a].child == id {
                assert(rows.dirents[a].parent == parent && rows.dirents[a].name == name);
                if a < place {
                    assert(rows.apart(a, place));
                } else if place < a {
                    assert(rows.apart(place, a));
                }
            }
        }
        assert forall|i: int| 0 <= i < after.dirents.len() implies #[trigger] after.anchored(i) by {
            assert(unlinked.anchored(i));
            assert(after.dirents[i].child != id);
        }
        assert forall|i: int, j: int| 0 <= i < j < after.dirents.len() implies #[trigger] after.apart(i, j) by {
            assert(unlinked.apart(i, j));
            assert(after.dirents[i].child != id);
        }
        assert(rows.after_all(changes, 2) == after);
    } else {
        assert(rows.after_all(changes, 1) == unlinked);
    }
}

pub(crate) proof fn single(rows: TreeRows, changes: Seq<ChangeModel>)
    requires
        changes.len() == 1,
    ensures
        rows.after_all(changes, 1) == rows.after(changes[0]),
{
    reveal_with_fuel(TreeRows::after_all, 2);
}

/// The rows that a mutation leaves.
pub open spec fn mutated(rows: TreeRows, mutation: MutationModel) -> TreeRows {
    let changes = rows.decided(mutation)->Ok_0;
    rows.after_all(changes, changes.len() as int)
}

proof fn file_mutations_keep_valid(rows: TreeRows, mutation: MutationModel)
    requires
        rows.valid(),
        rows.decided(mutation) is Ok,
        mutation is SetRecords || mutation is Truncate || mutation is SetExecutable,
    ensures
        mutated(rows, mutation).valid(),
{
    let changes = rows.decided(mutation)->Ok_0;
    single(rows, changes);
    file_change_keeps_valid(rows, changes[0]);
}

proof fn removals_keep_valid(rows: TreeRows, mutation: MutationModel)
    requires
        rows.valid(),
        rows.decided(mutation) is Ok,
        mutation is Unlink || mutation is Rmdir,
        mutation matches MutationModel::Rmdir { path } ==> path.len() > 0,
    ensures
        mutated(rows, mutation).valid(),
{
    let path = match mutation {
        MutationModel::Unlink { path } => path,
        MutationModel::Rmdir { path } => path,
        _ => Seq::empty(),
    };
    resolved_is_there(rows, path);
    let id = rows.existing(path)->Ok_0.0;
    if mutation is Unlink && rows.has_children(id) {
        let i = choose|i: int| 0 <= i < rows.dirents.len() && (#[trigger] rows.dirents[i]).parent == id;
        assert(rows.anchored(i));
    }
    removing_keeps_valid(rows, path, id);
}

proof fn renames_keep_valid(rows: TreeRows, from: Seq<char>, to: Seq<char>)
    requires
        rows.valid(),
        rows.decided(MutationModel::Rename { from, to }) is Ok,
    ensures
        mutated(rows, MutationModel::Rename { from, to }).valid(),
{
    single(rows, rows.decided(MutationModel::Rename { from, to })->Ok_0);
    moving_keeps_valid(rows, rows.old_parent(from)->Ok_0, name_of(from), to);
}

proof fn hardlinks_keep_valid(rows: TreeRows, path: Seq<char>, target: Seq<char>)
    requires
        rows.valid(),
        rows.decided(MutationModel::Hardlink { path, target }) is Ok,
    ensures
        mutated(rows, MutationModel::Hardlink { path, target }).valid(),
{
    single(rows, rows.decided(MutationModel::Hardlink { path, target })->Ok_0);
    resolved_is_there(rows, target);
    linking_keeps_valid(rows, path, rows.file_at(target)->Ok_0);
}

/// A mutation that is carried out leaves a valid tree: every name still stands
/// in a directory and leads somewhere, no two siblings are the same but for
/// their case, and no directory is reached by two names. Removing the empty
/// path is left out: it takes the root away.
pub proof fn mutations_keep_the_tree_valid(rows: TreeRows, mutation: MutationModel)
    requires
        rows.valid(),
        rows.next < i64::MAX,
        rows.decided(mutation) is Ok,
        mutation matches MutationModel::Rmdir { path } ==> path.len() > 0,
    ensures
        mutated(rows, mutation).valid(),
{
    match mutation {
        MutationModel::Mkdir { path } => {
            adding_keeps_valid(rows, path, NodeModel::Directory);
        },
        MutationModel::CreateFile { path, executable, planner, records } => {
            adding_keeps_valid(rows, path, NodeModel::File { executable, planner, records });
        },
        MutationModel::Symlink { path, target } => {
            adding_keeps_valid(rows, path, NodeModel::Symlink { target });
        },
        MutationModel::Rename { from, to } => {
            renames_keep_valid(rows, from, to);
        },
        MutationModel::Hardlink { path, target } => {
            hardlinks_keep_valid(rows, path, target);
        },
        MutationModel::Unlink { .. } => {
            removals_keep_valid(rows, mutation);
        },
        MutationModel::Rmdir { .. } => {
            removals_keep_valid(rows, mutation);
        },
        _ => {
            file_mutations_keep_valid(rows, mutation);
        },
    }
}

/// A change to a file keeps the tree valid.
pub proof fn file_change_keeps_valid(rows: TreeRows, change: ChangeModel)
    requires
        rows.valid(),
        change is SetRecords || change is SetExecutable || change is SetPlanner,
    ensures
        rows.after(change).valid(),
{
    match change {
        ChangeModel::SetRecords { inode, records } => {
            if let Some(NodeModel::File { executable, planner, .. }) = rows.node(inode) {
                replacing_keeps_valid(rows, inode, NodeModel::File { executable, planner, records });
            }
        },
        ChangeModel::SetExecutable { inode, executable } => {
            if let Some(NodeModel::File { planner, records, .. }) = rows.node(inode) {
                replacing_keeps_valid(rows, inode, NodeModel::File { executable, planner, records });
            }
        },
        ChangeModel::SetPlanner { inode, planner } => {
            if let Some(NodeModel::File { executable, records, .. }) = rows.node(inode) {
                replacing_keeps_valid(rows, inode, NodeModel::File { executable, planner, records });
            }
        },
        _ => {},
    }
}

} // verus!
