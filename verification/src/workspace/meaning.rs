//! What each mutation does: which names lead where afterwards, what stands behind
//! them, and that nothing else changes.

use super::laws::{
    dirent_at_facts, inode_at_facts, mutated, node_of_added, node_of_dropped, resolved_is_there,
    single, split_of_parent,
};
use super::tree::{
    cut, dirent_at, inode_at, name_of, truncated, ChangeModel, DirentModel, Kind, NodeModel,
    TreeRows,
};
use super::MutationModel;
use crate::text::{split_at, split_is_filled};
use crate::tfm1::tree::parent_of;
use crate::tfm1::{record_sum, run_length, RecordModel};
use vstd::prelude::*;

verus! {

/// In the directory `parent` the name `name` leads to `child`.
pub open spec fn names(rows: TreeRows, parent: i64, name: Seq<char>, child: i64) -> bool {
    exists|i: int|
        0 <= i < rows.dirents.len() && (#[trigger] rows.dirents[i]).parent == parent
            && rows.dirents[i].name == name && rows.dirents[i].child == child
}

/// The inode numbered `id` is `node`.
pub open spec fn is_inode(rows: TreeRows, id: i64, node: NodeModel) -> bool {
    exists|i: int|
        0 <= i < rows.inodes.len() && (#[trigger] rows.inodes[i]).id == id && rows.inodes[i].node
            == node
}

/// The first `upto` names, one below the other, lead from the root to `id`.
pub open spec fn leads(rows: TreeRows, path: Seq<Seq<char>>, upto: int, id: i64) -> bool
    decreases upto,
{
    if upto <= 0 {
        id == rows.root
    } else {
        exists|above: i64| #[trigger]
            names(rows, above, path[upto - 1], id) && leads(rows, path, upto - 1, above)
    }
}

/// The names of a path.
pub open spec fn steps(path: Seq<char>) -> Seq<Seq<char>> {
    split_at(path, '/')
}

/// A path leads to an inode.
pub open spec fn stands_at(rows: TreeRows, path: Seq<char>, id: i64) -> bool {
    leads(rows, steps(path), steps(path).len() as int, id)
}

/// The directory that a path's last name stands in.
pub open spec fn stands_in(rows: TreeRows, path: Seq<char>, id: i64) -> bool {
    leads(rows, steps(path), steps(path).len() - 1, id)
}

pub(crate) proof fn node_is_inode(rows: TreeRows, id: i64, node: NodeModel)
    requires
        rows.numbered(),
    ensures
        is_inode(rows, id, node) <==> rows.node(id) == Some(node),
{
    inode_at_facts(rows.inodes, id, 0);
    let at = inode_at(rows.inodes, id, 0);
    if is_inode(rows, id, node) {
        let i = choose|i: int|
            0 <= i < rows.inodes.len() && (#[trigger] rows.inodes[i]).id == id
                && rows.inodes[i].node == node;
        if at < i {
            assert(rows.inodes[at].id < rows.inodes[i].id);
        }
    }
    if rows.node(id) == Some(node) {
        assert(rows.inodes[at].id == id);
    }
}

pub(crate) proof fn child_is_named(rows: TreeRows, parent: i64, name: Seq<char>)
    ensures
        rows.child(parent, name) matches Some(found) ==> names(rows, parent, name, found.0),
        dirent_at(rows.dirents, parent, name, 0) < rows.dirents.len() <==> exists|child: i64|
            names(rows, parent, name, child),
{
    dirent_at_facts(rows.dirents, parent, name, 0);
    let at = dirent_at(rows.dirents, parent, name, 0);
    if at < rows.dirents.len() {
        assert(rows.dirents[at].parent == parent);
        assert(names(rows, parent, name, rows.dirents[at].child));
    }
    if exists|child: i64| names(rows, parent, name, child) {
        let child = choose|child: i64| names(rows, parent, name, child);
        let i = choose|i: int|
            0 <= i < rows.dirents.len() && (#[trigger] rows.dirents[i]).parent == parent
                && rows.dirents[i].name == name && rows.dirents[i].child == child;
        assert(rows.dirents[i].parent == parent && rows.dirents[i].name == name);
    }
}

proof fn leads_by_prefix(
    rows: TreeRows,
    a: Seq<Seq<char>>,
    b: Seq<Seq<char>>,
    upto: int,
    id: i64,
)
    requires
        upto <= a.len(),
        upto <= b.len(),
        forall|i: int| 0 <= i < upto ==> #[trigger] a[i] == b[i],
    ensures
        leads(rows, a, upto, id) == leads(rows, b, upto, id),
    decreases upto,
{
    if upto > 0 {
        assert(a[upto - 1] == b[upto - 1]);
        if leads(rows, a, upto, id) {
            let above = choose|above: i64| #[trigger]
                names(rows, above, a[upto - 1], id) && leads(rows, a, upto - 1, above);
            leads_by_prefix(rows, a, b, upto - 1, above);
            assert(leads(rows, b, upto - 1, above) && names(rows, above, b[upto - 1], id));
        }
        if leads(rows, b, upto, id) {
            let above = choose|above: i64| #[trigger]
                names(rows, above, b[upto - 1], id) && leads(rows, b, upto - 1, above);
            leads_by_prefix(rows, a, b, upto - 1, above);
            assert(leads(rows, a, upto - 1, above) && names(rows, above, a[upto - 1], id));
        }
    }
}

proof fn walk_leads(rows: TreeRows, from: (i64, Kind), path: Seq<Seq<char>>, at: int)
    requires
        0 <= at <= path.len(),
        leads(rows, path, at, from.0),
        rows.walk(from, path, at) is Some,
    ensures
        leads(rows, path, path.len() as int, rows.walk(from, path, at).unwrap().0),
    decreases path.len() - at,
{
    if at < path.len() {
        child_is_named(rows, from.0, path[at]);
        let found = rows.child(from.0, path[at]).unwrap();
        assert(names(rows, from.0, path[(at + 1) - 1], found.0));
        assert(leads(rows, path, at + 1, found.0));
        walk_leads(rows, found, path, at + 1);
    }
}

pub(crate) proof fn existing_stands(rows: TreeRows, path: Seq<char>)
    requires
        rows.existing(path) is Ok,
        path.len() > 0,
    ensures
        stands_at(rows, path, rows.existing(path)->Ok_0.0),
{
    walk_leads(rows, (rows.root, Kind::Directory), steps(path), 0);
}

pub(crate) proof fn last_name_is(path: Seq<char>)
    ensures
        steps(path).len() > 0,
        steps(path).last() == name_of(path),
{
    split_of_parent(path);
    split_is_filled(path, '/');
}

pub(crate) proof fn parent_stands(rows: TreeRows, path: Seq<char>, parent: i64)
    requires
        match parent_of(path) {
            None => parent == rows.root,
            Some(above) => rows.existing(above) is Ok && rows.existing(above)->Ok_0.0 == parent,
        },
        path.len() > 0,
        path[0] != '/',
    ensures
        stands_in(rows, path, parent),
{
    split_of_parent(path);
    crate::text::last_index_facts(path, '/');
    match parent_of(path) {
        None => {
            assert(steps(path).len() == 1);
        },
        Some(above) => {
            if above.len() == 0 {
                assert(path[0] == '/');
            }
            existing_stands(rows, above);
            let a = steps(above);
            let b = steps(path);
            assert(b == a.push(name_of(path)));
            assert forall|i: int| 0 <= i < a.len() implies #[trigger] a[i] == b[i] by {}
            leads_by_prefix(rows, a, b, a.len() as int, parent);
        },
    }
}

pub(crate) proof fn usable_paths_start_with_a_name(path: Seq<char>)
    requires
        crate::tfm1::path::path_error(path) is None,
    ensures
        path.len() > 0,
        path[0] != '/',
{
}

/// A mutation that adds an inode: what it adds, and at which path.
pub open spec fn adds(mutation: MutationModel) -> Option<(Seq<char>, NodeModel)> {
    match mutation {
        MutationModel::Mkdir { path } => Some((path, NodeModel::Directory)),
        MutationModel::CreateFile { path, executable, planner, records } => Some(
            (path, NodeModel::File { executable, planner, records }),
        ),
        MutationModel::Symlink { path, target } => Some((path, NodeModel::Symlink { target })),
        _ => None,
    }
}

/// The place of a name: its directory, and itself.
pub open spec fn is_place(parent: i64, name: Seq<char>, directory: i64, path: Seq<char>) -> bool {
    parent == directory && name == steps(path).last()
}

/// Creating a directory, a file or a symlink adds one inode of a new number, and
/// one name for it in the directory above the path, where that name was free. Every
/// other name and every other inode stays.
#[verifier::rlimit(40)]
pub proof fn a_creation_adds_one_name(rows: TreeRows, mutation: MutationModel) -> (directory: i64)
    requires
        rows.valid(),
        rows.next < i64::MAX,
        rows.decided(mutation) is Ok,
        adds(mutation) is Some,
    ensures
        ({
            let (path, node) = adds(mutation).unwrap();
            let after = mutated(rows, mutation);
            &&& stands_in(rows, path, directory)
            &&& is_inode(rows, directory, NodeModel::Directory)
            &&& forall|child: i64| !#[trigger] names(rows, directory, steps(path).last(), child)
            &&& forall|id: i64, other: NodeModel| !#[trigger] is_inode(rows, id, other) || id
                != rows.next
            &&& forall|parent: i64, name: Seq<char>, child: i64| #[trigger]
                names(after, parent, name, child) <==> names(rows, parent, name, child) || (
                is_place(parent, name, directory, path) && child == rows.next)
            &&& forall|id: i64, other: NodeModel| #[trigger]
                is_inode(after, id, other) <==> is_inode(rows, id, other) || (id == rows.next
                    && other == node)
            &&& after.root == rows.root
            &&& after.leases == rows.leases
        }),
{
    let (path, node) = adds(mutation).unwrap();
    let changes = rows.decided(mutation)->Ok_0;
    let after = mutated(rows, mutation);
    let directory = rows.new_parent(path)->Ok_0;
    usable_paths_start_with_a_name(path);
    parent_stands(rows, path, directory);
    last_name_is(path);
    directory_of_new(rows, path);
    child_is_named(rows, directory, name_of(path));
    let added = rows.after(changes[0]);
    reveal_with_fuel(TreeRows::after_all, 3);
    assert(after == added.after(changes[1]));
    assert forall|id: i64, other: NodeModel| !#[trigger] is_inode(rows, id, other) || id
        != rows.next by {
        if is_inode(rows, id, other) {
            let i = choose|i: int|
                0 <= i < rows.inodes.len() && (#[trigger] rows.inodes[i]).id == id
                    && rows.inodes[i].node == other;
            assert(rows.inodes[i].id < rows.next);
        }
    }
    linked(rows, directory, name_of(path), rows.next);
    assert forall|parent: i64, name: Seq<char>, child: i64| #[trigger]
        names(after, parent, name, child) <==> names(rows, parent, name, child) || (is_place(
        parent,
        name,
        directory,
        path,
    ) && child == rows.next) by {
        let only = rows.after(
            ChangeModel::Link { parent: directory, name: name_of(path), child: rows.next },
        );
        assert(after.dirents == only.dirents);
        assert(names(after, parent, name, child) == names(only, parent, name, child));
    }
    assert forall|id: i64, other: NodeModel| #[trigger]
        is_inode(after, id, other) <==> is_inode(rows, id, other) || (id == rows.next && other
            == node) by {
        node_of_added(rows, rows.next, node, id);
        node_is_inode(rows, id, other);
        node_is_inode(added, id, other);
        assert(after.inodes == added.inodes);
        assert(is_inode(after, id, other) == is_inode(added, id, other));
    }
    directory
}

proof fn directory_of_new(rows: TreeRows, path: Seq<char>)
    requires
        rows.valid(),
        rows.new_parent(path) is Ok,
    ensures
        is_inode(rows, rows.new_parent(path)->Ok_0, NodeModel::Directory),
{
    let id = rows.new_parent(path)->Ok_0;
    if let Some(above) = parent_of(path) {
        resolved_is_there(rows, above);
    }
    node_is_inode(rows, id, NodeModel::Directory);
}

proof fn linked(rows: TreeRows, directory: i64, last: Seq<char>, to: i64)
    ensures
        ({
            let after = rows.after(ChangeModel::Link { parent: directory, name: last, child: to });
            forall|parent: i64, name: Seq<char>, child: i64| #[trigger]
                names(after, parent, name, child) <==> names(rows, parent, name, child) || (parent
                    == directory && name == last && child == to)
        }),
{
    let after = rows.after(ChangeModel::Link { parent: directory, name: last, child: to });
    assert forall|parent: i64, name: Seq<char>, child: i64| #[trigger]
        names(after, parent, name, child) <==> names(rows, parent, name, child) || (parent
            == directory && name == last && child == to) by {
        if names(rows, parent, name, child) {
            let i = choose|i: int|
                0 <= i < rows.dirents.len() && (#[trigger] rows.dirents[i]).parent == parent
                    && rows.dirents[i].name == name && rows.dirents[i].child == child;
            assert(after.dirents[i] == rows.dirents[i]);
        }
        if names(after, parent, name, child) {
            let i = choose|i: int|
                0 <= i < after.dirents.len() && (#[trigger] after.dirents[i]).parent == parent
                    && after.dirents[i].name == name && after.dirents[i].child == child;
            if i < rows.dirents.len() {
                assert(rows.dirents[i] == after.dirents[i]);
            }
        }
        let n = rows.dirents.len() as int;
        assert(after.dirents[n] == (DirentModel { parent: directory, name: last, child: to }));
    }
}

/// A hard link adds one more name, which leads to the file that the target path
/// leads to. Nothing else changes.
pub proof fn a_hardlink_adds_a_name_of_the_target(
    rows: TreeRows,
    path: Seq<char>,
    target: Seq<char>,
) -> (found: (i64, i64))
    requires
        rows.valid(),
        rows.decided(MutationModel::Hardlink { path, target }) is Ok,
    ensures
        ({
            let after = mutated(rows, MutationModel::Hardlink { path, target });
            let (directory, file) = found;
            &&& stands_in(rows, path, directory)
            &&& stands_at(rows, target, file)
            &&& exists|node: NodeModel| #[trigger] is_inode(rows, file, node) && node is File
            &&& forall|child: i64| !#[trigger] names(rows, directory, steps(path).last(), child)
            &&& forall|parent: i64, name: Seq<char>, child: i64| #[trigger]
                names(after, parent, name, child) <==> names(rows, parent, name, child) || (
                is_place(parent, name, directory, path) && child == file)
            &&& after.inodes == rows.inodes
            &&& after.root == rows.root
            &&& after.leases == rows.leases
        }),
{
    let mutation = MutationModel::Hardlink { path, target };
    let changes = rows.decided(mutation)->Ok_0;
    single(rows, changes);
    let directory = rows.new_parent(path)->Ok_0;
    let file = rows.file_at(target)->Ok_0;
    usable_paths_start_with_a_name(path);
    parent_stands(rows, path, directory);
    last_name_is(path);
    child_is_named(rows, directory, name_of(path));
    existing_stands(rows, target);
    resolved_is_there(rows, target);
    let node = rows.node(file).unwrap();
    node_is_inode(rows, file, node);
    assert(node.kind() == Kind::File);
    assert(node is File);
    linked(rows, directory, name_of(path), file);
    let after = mutated(rows, mutation);
    let only = rows.after(
        ChangeModel::Link { parent: directory, name: name_of(path), child: file },
    );
    assert(after == only);
    assert(after.inodes == rows.inodes && after.root == rows.root && after.leases == rows.leases);
    assert(exists|node: NodeModel| #[trigger] is_inode(rows, file, node) && node is File);
    assert forall|parent: i64, name: Seq<char>, child: i64| #[trigger]
        names(after, parent, name, child) <==> names(rows, parent, name, child) || (is_place(
        parent,
        name,
        directory,
        path,
    ) && child == file) by {
        assert(names(only, parent, name, child) == names(after, parent, name, child));
    }
    (directory, file)
}

/// Where a name of a valid tree stands, no other does.
proof fn one_name(rows: TreeRows, i: int, j: int)
    requires
        rows.valid(),
        0 <= i < rows.dirents.len(),
        0 <= j < rows.dirents.len(),
        rows.dirents[i].parent == rows.dirents[j].parent,
        rows.dirents[i].name == rows.dirents[j].name,
    ensures
        i == j,
{
    if i < j {
        assert(rows.apart(i, j));
    }
    if j < i {
        assert(rows.apart(j, i));
    }
}

proof fn unlinked(rows: TreeRows, directory: i64, last: Seq<char>)
    requires
        rows.valid(),
    ensures
        ({
            let after = rows.after(ChangeModel::Unlink { parent: directory, name: last });
            forall|parent: i64, name: Seq<char>, child: i64| #[trigger]
                names(after, parent, name, child) <==> names(rows, parent, name, child) && !(parent
                    == directory && name == last)
        }),
{
    let after = rows.after(ChangeModel::Unlink { parent: directory, name: last });
    dirent_at_facts(rows.dirents, directory, last, 0);
    let at = dirent_at(rows.dirents, directory, last, 0);
    assert forall|parent: i64, name: Seq<char>, child: i64| #[trigger]
        names(after, parent, name, child) <==> names(rows, parent, name, child) && !(parent
            == directory && name == last) by {
        if names(rows, parent, name, child) && !(parent == directory && name == last) {
            let i = choose|i: int|
                0 <= i < rows.dirents.len() && (#[trigger] rows.dirents[i]).parent == parent
                    && rows.dirents[i].name == name && rows.dirents[i].child == child;
            if at < rows.dirents.len() {
                let k = if i < at {
                    i
                } else {
                    i - 1
                };
                assert(after.dirents[k] == rows.dirents[i]);
            }
        }
        if names(after, parent, name, child) {
            let i = choose|i: int|
                0 <= i < after.dirents.len() && (#[trigger] after.dirents[i]).parent == parent
                    && after.dirents[i].name == name && after.dirents[i].child == child;
            if at < rows.dirents.len() {
                let k = if i < at {
                    i
                } else {
                    i + 1
                };
                assert(rows.dirents[k] == after.dirents[i]);
                if parent == directory && name == last {
                    one_name(rows, k, at);
                }
            } else {
                assert(rows.dirents[i] == after.dirents[i]);
            }
        }
    }
}

/// A mutation that takes a name away, and its path.
pub open spec fn removes(mutation: MutationModel) -> Option<Seq<char>> {
    match mutation {
        MutationModel::Unlink { path } => Some(path),
        MutationModel::Rmdir { path } => Some(path),
        _ => None,
    }
}

/// An inode is still wanted without one of its names: another name leads to it, or
/// a lease pins it.
pub open spec fn is_wanted_without(
    rows: TreeRows,
    id: i64,
    directory: i64,
    path: Seq<char>,
) -> bool {
    ||| exists|parent: i64, name: Seq<char>| #[trigger]
        names(rows, parent, name, id) && !is_place(parent, name, directory, path)
    ||| rows.leases.contains(id)
}

/// Unlinking takes the path's name away, and the inode with it where no other name
/// and no lease holds it; it is never a directory. Removing a directory takes an
/// empty one away. Every other name and every other inode stays.
#[verifier::rlimit(40)]
pub proof fn a_removal_takes_one_name_away(rows: TreeRows, mutation: MutationModel) -> (found: (
    i64,
    i64,
))
    requires
        rows.valid(),
        rows.decided(mutation) is Ok,
        removes(mutation) matches Some(path) && path.len() > 0,
    ensures
        ({
            let path = removes(mutation).unwrap();
            let after = mutated(rows, mutation);
            let (directory, id) = found;
            let wanted = is_wanted_without(rows, id, directory, path);
            &&& stands_in(rows, path, directory)
            &&& stands_at(rows, path, id)
            &&& names(rows, directory, steps(path).last(), id)
            &&& mutation is Rmdir <==> is_inode(rows, id, NodeModel::Directory)
            &&& mutation is Rmdir ==> forall|name: Seq<char>, child: i64|
                !#[trigger] names(rows, id, name, child)
            &&& forall|parent: i64, name: Seq<char>, child: i64| #[trigger]
                names(after, parent, name, child) <==> names(rows, parent, name, child)
                    && !is_place(parent, name, directory, path)
            &&& forall|other: i64, node: NodeModel| #[trigger]
                is_inode(after, other, node) <==> is_inode(rows, other, node) && (other != id
                    || wanted)
            &&& after.root == rows.root
            &&& after.leases == rows.leases
        }),
{
    let path = removes(mutation).unwrap();
    let changes = rows.decided(mutation)->Ok_0;
    let after = mutated(rows, mutation);
    let (id, kind) = rows.existing(path)->Ok_0;
    let directory = rows.old_parent(path)->Ok_0;
    usable_paths_start_with_a_name(path);
    parent_stands(rows, path, directory);
    existing_stands(rows, path);
    last_name_is(path);
    resolved_is_there(rows, path);
    super::rooted::last_name_leads(rows, path);
    child_is_named(rows, directory, name_of(path));
    let node = rows.node(id).unwrap();
    node_is_inode(rows, id, NodeModel::Directory);
    unlinked(rows, directory, name_of(path));
    let gone = rows.after(changes[0]);
    let wanted = is_wanted_without(rows, id, directory, path);
    assert(wanted == rows.still_held(id, directory, name_of(path))) by {
        if rows.still_held(id, directory, name_of(path)) && !rows.leases.contains(id) {
            let i = choose|i: int|
                0 <= i < rows.dirents.len() && (#[trigger] rows.dirents[i]).child == id && !(
                rows.dirents[i].parent == directory && rows.dirents[i].name == name_of(path));
            assert(names(rows, rows.dirents[i].parent, rows.dirents[i].name, id));
        }
        if wanted && !rows.leases.contains(id) {
            let (parent, name) = choose|parent: i64, name: Seq<char>| #[trigger]
                names(rows, parent, name, id) && !is_place(parent, name, directory, path);
            let i = choose|i: int|
                0 <= i < rows.dirents.len() && (#[trigger] rows.dirents[i]).parent == parent
                    && rows.dirents[i].name == name && rows.dirents[i].child == id;
            assert(rows.dirents[i].child == id);
        }
    }
    if mutation is Rmdir {
        assert forall|name: Seq<char>, child: i64| !#[trigger] names(rows, id, name, child) by {
            if names(rows, id, name, child) {
                let i = choose|i: int|
                    0 <= i < rows.dirents.len() && (#[trigger] rows.dirents[i]).parent == id
                        && rows.dirents[i].name == name && rows.dirents[i].child == child;
                assert(rows.dirents[i].parent == id);
            }
        }
    }
    reveal_with_fuel(TreeRows::after_all, 3);
    if wanted {
        assert(after == gone);
    } else {
        assert(after == gone.after(ChangeModel::DropInode { id }));
    }
    assert(after.dirents == gone.dirents);
    assert forall|parent: i64, name: Seq<char>, child: i64| #[trigger]
        names(after, parent, name, child) <==> names(rows, parent, name, child) && !is_place(
        parent,
        name,
        directory,
        path,
    ) by {
        assert(names(after, parent, name, child) == names(gone, parent, name, child));
    }
    assert(gone.inodes == rows.inodes);
    assert forall|other: i64, node: NodeModel| #[trigger]
        is_inode(after, other, node) <==> is_inode(rows, other, node) && (other != id
            || wanted) by {
        node_is_inode(rows, other, node);
        assert(gone.numbered());
        assert(gone.node(other) == rows.node(other));
        if wanted {
            assert(is_inode(after, other, node) == is_inode(rows, other, node));
        } else {
            node_of_dropped(gone, id, other);
            node_is_inode(after, other, node);
            if other == id {
                dropped_is_gone(gone, id);
            }
        }
    }
    (directory, id)
}

proof fn dropped_is_gone(rows: TreeRows, id: i64)
    requires
        rows.numbered(),
    ensures
        rows.after(ChangeModel::DropInode { id }).node(id) is None,
{
    let after = rows.after(ChangeModel::DropInode { id });
    inode_at_facts(rows.inodes, id, 0);
    inode_at_facts(after.inodes, id, 0);
    let at = inode_at(rows.inodes, id, 0);
    let k = inode_at(after.inodes, id, 0);
    if at < rows.inodes.len() && k < after.inodes.len() {
        let i = if k < at {
            k
        } else {
            k + 1
        };
        assert(after.inodes[k] == rows.inodes[i]);
        if i < at {
            assert(rows.inodes[i].id < rows.inodes[at].id);
        } else {
            assert(rows.inodes[at].id < rows.inodes[i].id);
        }
    }
}

/// Renaming gives the path's name another place: what the old path led to is what
/// the new name leads to, the old name is gone, and nothing else changes.
pub proof fn a_rename_moves_one_name(rows: TreeRows, from: Seq<char>, to: Seq<char>) -> (found: (
    i64,
    i64,
    i64,
))
    requires
        rows.valid(),
        rows.decided(MutationModel::Rename { from, to }) is Ok,
        from.len() > 0,
    ensures
        ({
            let after = mutated(rows, MutationModel::Rename { from, to });
            let (old, new, id) = found;
            &&& stands_in(rows, from, old)
            &&& stands_at(rows, from, id)
            &&& stands_in(rows, to, new)
            &&& names(rows, old, steps(from).last(), id)
            &&& forall|child: i64| !#[trigger] names(rows, new, steps(to).last(), child)
            &&& forall|parent: i64, name: Seq<char>, child: i64| #[trigger]
                names(after, parent, name, child) <==> (names(rows, parent, name, child)
                    && !is_place(parent, name, old, from)) || (is_place(parent, name, new, to)
                    && child == id)
            &&& after.inodes == rows.inodes
            &&& after.root == rows.root
            &&& after.leases == rows.leases
        }),
{
    let mutation = MutationModel::Rename { from, to };
    let changes = rows.decided(mutation)->Ok_0;
    single(rows, changes);
    let after = mutated(rows, mutation);
    let (id, _) = rows.existing(from)->Ok_0;
    let old = rows.old_parent(from)->Ok_0;
    let new = rows.new_parent(to)->Ok_0;
    usable_paths_start_with_a_name(from);
    usable_paths_start_with_a_name(to);
    parent_stands(rows, from, old);
    parent_stands(rows, to, new);
    existing_stands(rows, from);
    last_name_is(from);
    last_name_is(to);
    super::rooted::last_name_leads(rows, from);
    child_is_named(rows, old, name_of(from));
    child_is_named(rows, new, name_of(to));
    dirent_at_facts(rows.dirents, old, name_of(from), 0);
    let at = dirent_at(rows.dirents, old, name_of(from), 0);
    assert(rows.dirents[at].child == id);
    assert forall|parent: i64, name: Seq<char>, child: i64| #[trigger]
        names(after, parent, name, child) <==> (names(rows, parent, name, child) && !is_place(
        parent,
        name,
        old,
        from,
    )) || (is_place(parent, name, new, to) && child == id) by {
        if names(rows, parent, name, child) && !is_place(parent, name, old, from) {
            let i = choose|i: int|
                0 <= i < rows.dirents.len() && (#[trigger] rows.dirents[i]).parent == parent
                    && rows.dirents[i].name == name && rows.dirents[i].child == child;
            assert(after.dirents[i] == rows.dirents[i]);
        }
        assert(after.dirents[at].child == id);
        if names(after, parent, name, child) {
            let i = choose|i: int|
                0 <= i < after.dirents.len() && (#[trigger] after.dirents[i]).parent == parent
                    && after.dirents[i].name == name && after.dirents[i].child == child;
            if i != at {
                assert(rows.dirents[i] == after.dirents[i]);
                if is_place(parent, name, old, from) {
                    one_name(rows, i, at);
                }
            }
        }
    }
    (old, new, id)
}

/// A mutation that changes a file: its path.
pub open spec fn changes_file(mutation: MutationModel) -> Option<Seq<char>> {
    match mutation {
        MutationModel::SetRecords { path, .. } => Some(path),
        MutationModel::Truncate { path, .. } => Some(path),
        MutationModel::SetExecutable { path, .. } => Some(path),
        _ => None,
    }
}

/// Setting the records, the length or the executable bit of a file changes that
/// and nothing else of it, and no other inode and no name.
pub proof fn a_file_change_changes_one_thing(rows: TreeRows, mutation: MutationModel) -> (id: i64)
    requires
        rows.valid(),
        rows.decided(mutation) is Ok,
        changes_file(mutation) is Some,
    ensures
        ({
            let path = changes_file(mutation).unwrap();
            let after = mutated(rows, mutation);
            &&& stands_at(rows, path, id)
            &&& after.dirents == rows.dirents
            &&& after.root == rows.root
            &&& after.leases == rows.leases
            &&& forall|other: i64, node: NodeModel| #[trigger]
                is_inode(after, other, node) && other != id <==> is_inode(rows, other, node)
                    && other != id
            &&& exists|old: NodeModel, new: NodeModel| #[trigger]
                is_inode(rows, id, old) && #[trigger] is_inode(after, id, new) && old is File
                    && new is File && match mutation {
                    MutationModel::SetRecords { records, .. } => new == (NodeModel::File {
                        executable: old->executable,
                        planner: old->planner,
                        records,
                    }),
                    MutationModel::SetExecutable { executable, .. } => new == (NodeModel::File {
                        executable,
                        planner: old->planner,
                        records: old->records,
                    }),
                    MutationModel::Truncate { length, .. } => Some(new->records) == truncated(
                        old->records,
                        length,
                    ) && new == (NodeModel::File {
                        executable: old->executable,
                        planner: old->planner,
                        records: new->records,
                    }),
                    _ => false,
                }
        }),
{
    let path = changes_file(mutation).unwrap();
    let changes = rows.decided(mutation)->Ok_0;
    single(rows, changes);
    let after = mutated(rows, mutation);
    let id = rows.file_at(path)->Ok_0;
    if path.len() == 0 {
        assert(rows.existing(path) == Ok::<(i64, Kind), super::ErrorModel>((rows.root, Kind::Directory)));
    }
    existing_stands(rows, path);
    resolved_is_there(rows, path);
    let old = rows.node(id).unwrap();
    let at = inode_at(rows.inodes, id, 0);
    inode_at_facts(rows.inodes, id, 0);
    let new = after.inodes[at].node;
    assert(after.inodes =~= rows.inodes.update(at, after.inodes[at]));
    assert(after.inodes[at].id == id);
    assert(is_inode(rows, id, old)) by {
        assert(rows.inodes[at].id == id);
    }
    assert(is_inode(after, id, new));
    assert forall|other: i64, node: NodeModel| #[trigger]
        is_inode(after, other, node) && other != id <==> is_inode(rows, other, node) && other
            != id by {
        if is_inode(after, other, node) && other != id {
            let i = choose|i: int|
                0 <= i < after.inodes.len() && (#[trigger] after.inodes[i]).id == other
                    && after.inodes[i].node == node;
            assert(rows.inodes[i] == after.inodes[i]);
        }
        if is_inode(rows, other, node) && other != id {
            let i = choose|i: int|
                0 <= i < rows.inodes.len() && (#[trigger] rows.inodes[i]).id == other
                    && rows.inodes[i].node == node;
            assert(rows.inodes[i] == after.inodes[i]);
        }
    }
    id
}

// ---------------------------------------------------------------------------
// The bytes of a record run
// ---------------------------------------------------------------------------

/// What stands at a position behind the records before `at`: a byte of an object,
/// or nothing, which reads as zero.
pub open spec fn byte_from(records: Seq<RecordModel>, at: int, position: int) -> Option<(
    Seq<u8>,
    int,
)>
    decreases records.len() - at,
{
    if at >= records.len() {
        None
    } else if position < records[at].length() {
        match records[at] {
            RecordModel::Data { digest, .. } => Some((digest, position)),
            RecordModel::Hole { .. } => None,
        }
    } else {
        byte_from(records, at + 1, position - records[at].length())
    }
}

proof fn byte_behind(first: RecordModel, rest: Seq<RecordModel>, at: int, position: int)
    requires
        0 <= at,
    ensures
        byte_from(seq![first] + rest, at + 1, position) == byte_from(rest, at, position),
    decreases rest.len() - at,
{
    let all = seq![first] + rest;
    if at < rest.len() {
        assert(all[at + 1] == rest[at]);
        byte_behind(first, rest, at + 1, position - rest[at].length());
    }
}

proof fn hole_behind(records: Seq<RecordModel>, length: u64, at: int, position: int)
    requires
        0 <= at <= records.len(),
    ensures
        byte_from(records.push(RecordModel::Hole { length }), at, position) == byte_from(
            records,
            at,
            position,
        ),
    decreases records.len() - at,
{
    let more = records.push(RecordModel::Hole { length });
    if at < records.len() {
        assert(more[at] == records[at]);
        hole_behind(records, length, at + 1, position - records[at].length());
    } else {
        assert(byte_from(more, at + 1, position - length) is None);
    }
}

proof fn cut_keeps_bytes(
    records: Seq<RecordModel>,
    at: int,
    start: nat,
    length: nat,
    position: int,
)
    requires
        0 <= at <= records.len(),
        cut(records, at, start, length) is Some,
        0 <= position < length - start,
    ensures
        byte_from(cut(records, at, start, length).unwrap(), 0, position) == byte_from(
            records,
            at,
            position,
        ),
    decreases records.len() - at,
{
    if at < records.len() {
        let here = records[at];
        let end = start + here.length() as nat;
        let kept = cut(records, at, start, length).unwrap();
        if end <= length {
            let rest = cut(records, at + 1, end, length).unwrap();
            assert(kept[0] == here);
            if position >= here.length() {
                byte_behind(here, rest, 0, position - here.length());
                cut_keeps_bytes(records, at + 1, end, length, position - here.length());
            }
        } else {
            assert(kept[0] == (RecordModel::Hole { length: (length - start) as u64 }));
        }
    }
}

/// Cutting or extending a file keeps its bytes up to where it ends or ended, and
/// what it gains is zeros.
pub proof fn a_truncated_file_keeps_its_bytes(
    records: Seq<RecordModel>,
    length: u64,
    position: int,
)
    requires
        truncated(records, length) is Some,
        0 <= position < length,
    ensures
        byte_from(truncated(records, length).unwrap(), 0, position) == byte_from(
            records,
            0,
            position,
        ),
        position >= run_length(records) ==> byte_from(records, 0, position) is None,
{
    cut_keeps_bytes(records, 0, 0, length as nat, position);
    let kept = cut(records, 0, 0, length as nat).unwrap();
    let more = (length - run_length(kept)) as nat;
    if more > 0 {
        if kept.len() > 0 && kept.last() is Hole {
            let front = kept.drop_last();
            let last = kept.last()->Hole_length;
            assert(kept =~= front.push(RecordModel::Hole { length: last }));
            hole_behind(front, last, 0, position);
            hole_behind(front, (last + more) as u64, 0, position);
        } else {
            hole_behind(kept, more as u64, 0, position);
        }
    }
    if position >= run_length(records) {
        nothing_behind(records, 0, position);
    }
}

proof fn nothing_behind(records: Seq<RecordModel>, at: int, position: int)
    requires
        0 <= at <= records.len(),
        position >= run_length(records) - record_sum(records, at),
    ensures
        byte_from(records, at, position) is None,
    decreases records.len() - at,
{
    if at < records.len() {
        crate::tfm1::record_sum_grows(records, at + 1, records.len() as int);
        nothing_behind(records, at + 1, position - records[at].length());
    }
}

/// A run that fits in 64 bits cannot be cut exactly where the cut goes through a
/// data record.
pub proof fn only_cuts_through_data_are_refused(records: Seq<RecordModel>, length: u64)
    requires
        run_length(records) <= u64::MAX,
    ensures
        truncated(records, length) is None <==> exists|k: int|
            0 <= k < records.len() && (#[trigger] records[k]) is Data && record_sum(records, k)
                < length < record_sum(records, k + 1),
{
    cut_is_refused(records, 0, length as nat);
    if exists|k: int|
        0 <= k < records.len() && (#[trigger] records[k]) is Data && record_sum(records, k) < length
            < record_sum(records, k + 1) {
        let k = choose|k: int|
            0 <= k < records.len() && (#[trigger] records[k]) is Data && record_sum(records, k)
                < length < record_sum(records, k + 1);
        assert(0 <= k && records[k] is Data);
    }
}

proof fn cut_is_refused(records: Seq<RecordModel>, at: int, length: nat)
    requires
        0 <= at <= records.len(),
        run_length(records) <= u64::MAX,
    ensures
        cut(records, at, record_sum(records, at), length) is None <==> exists|k: int|
            at <= k < records.len() && (#[trigger] records[k]) is Data && record_sum(records, k)
                < length < record_sum(records, k + 1),
    decreases records.len() - at,
{
    if at < records.len() {
        crate::tfm1::record_sum_grows(records, at + 1, records.len() as int);
        let end = record_sum(records, at + 1);
        if record_sum(records, at) >= length {
            assert forall|k: int| at <= k < records.len() implies !(
            (#[trigger] records[k]) is Data && record_sum(records, k) < length < record_sum(
                records,
                k + 1,
            )) by {
                crate::tfm1::record_sum_grows(records, at, k);
            }
        } else if end <= length {
            cut_is_refused(records, at + 1, length);
            if cut(records, at, record_sum(records, at), length) is None {
                let k = choose|k: int|
                    at + 1 <= k < records.len() && (#[trigger] records[k]) is Data && record_sum(
                        records,
                        k,
                    ) < length < record_sum(records, k + 1);
                assert(records[k] is Data);
            }
        } else {
            if records[at] is Data {
                assert(records[at] is Data && record_sum(records, at) < length < end);
            } else {
                assert forall|k: int| at <= k < records.len() implies !(
                (#[trigger] records[k]) is Data && record_sum(records, k) < length < record_sum(
                    records,
                    k + 1,
                )) by {
                    if k > at {
                        crate::tfm1::record_sum_grows(records, at + 1, k);
                    }
                }
            }
        }
    }
}

/// A released inode goes exactly if no name leads to it and no other lease pins it.
/// Every name and every other inode stays.
pub proof fn a_release_drops_only_what_nothing_holds(rows: TreeRows, lease: int)
    requires
        rows.valid(),
        0 <= lease < rows.leases.len(),
    ensures
        ({
            let id = rows.leases[lease];
            let rest = TreeRows { leases: rows.leases.remove(lease), ..rows };
            let dropped = rest.after(ChangeModel::DropInode { id });
            &&& rest.is_held(id) <==> (exists|parent: i64, name: Seq<char>| #[trigger]
                names(rows, parent, name, id)) || exists|other: int|
                0 <= other < rows.leases.len() && other != lease && #[trigger] rows.leases[other]
                    == id
            &&& forall|x: i64, node: NodeModel| #[trigger]
                is_inode(dropped, x, node) <==> is_inode(rows, x, node) && x != id
            &&& dropped.dirents == rows.dirents
            &&& dropped.leases == rest.leases
        }),
{
    let id = rows.leases[lease];
    let rest = TreeRows { leases: rows.leases.remove(lease), ..rows };
    let dropped = rest.after(ChangeModel::DropInode { id });
    if exists|i: int| 0 <= i < rows.dirents.len() && (#[trigger] rows.dirents[i]).child == id {
        let i = choose|i: int| 0 <= i < rows.dirents.len() && (#[trigger] rows.dirents[i]).child == id;
        assert(names(rows, rows.dirents[i].parent, rows.dirents[i].name, id));
    }
    if exists|parent: i64, name: Seq<char>| #[trigger] names(rows, parent, name, id) {
        let (parent, name) = choose|parent: i64, name: Seq<char>| #[trigger]
            names(rows, parent, name, id);
        let i = choose|i: int|
            0 <= i < rows.dirents.len() && (#[trigger] rows.dirents[i]).parent == parent
                && rows.dirents[i].name == name && rows.dirents[i].child == id;
        assert(rest.dirents[i].child == id);
    }
    if rest.leases.contains(id) {
        let k = choose|k: int| 0 <= k < rest.leases.len() && rest.leases[k] == id;
        if k < lease {
            assert(rows.leases[k] == id);
        } else {
            assert(rows.leases[k + 1] == id);
        }
    }
    if exists|other: int|
        0 <= other < rows.leases.len() && other != lease && #[trigger] rows.leases[other] == id {
        let other = choose|other: int|
            0 <= other < rows.leases.len() && other != lease && #[trigger] rows.leases[other] == id;
        if other < lease {
            assert(rest.leases[other] == id);
        } else {
            assert(rest.leases[other - 1] == id);
        }
    }
    inode_at_facts(rows.inodes, id, 0);
    let at = inode_at(rows.inodes, id, 0);
    assert forall|x: i64, node: NodeModel| #[trigger] is_inode(dropped, x, node) <==> is_inode(
        rows,
        x,
        node,
    ) && x != id by {
        if is_inode(dropped, x, node) {
            let i = choose|i: int|
                0 <= i < dropped.inodes.len() && (#[trigger] dropped.inodes[i]).id == x
                    && dropped.inodes[i].node == node;
            if at < rows.inodes.len() && i >= at {
                assert(rows.inodes[i + 1] == dropped.inodes[i]);
                assert(rows.inodes[at].id < rows.inodes[i + 1].id);
            } else {
                assert(rows.inodes[i] == dropped.inodes[i]);
            }
        }
        if is_inode(rows, x, node) && x != id {
            let i = choose|i: int|
                0 <= i < rows.inodes.len() && (#[trigger] rows.inodes[i]).id == x
                    && rows.inodes[i].node == node;
            if at < rows.inodes.len() && i > at {
                assert(dropped.inodes[i - 1] == rows.inodes[i]);
            } else {
                assert(dropped.inodes[i] == rows.inodes[i]);
            }
        }
    }
}

} // verus!
