//! Why a mutation is refused: each refusal names what stands in its way.

use super::laws::{dirent_at_facts, resolved_is_there};
use super::meaning::{
    child_is_named, existing_stands, is_inode, last_name_is, leads, names, node_is_inode,
    parent_stands, stands_at, stands_in, steps, usable_paths_start_with_a_name,
};
use super::tree::{dirent_at, name_of, Kind, NodeModel, TreeRows};
use super::{ErrorModel, MutationModel};
use crate::tfm1::path::{folded, path_error};
use crate::tfm1::tree::parent_of;
use vstd::prelude::*;

verus! {

proof fn one_child(rows: TreeRows, parent: i64, name: Seq<char>, a: i64, b: i64)
    requires
        rows.valid(),
        names(rows, parent, name, a),
        names(rows, parent, name, b),
    ensures
        a == b,
        rows.node(parent) == Some(NodeModel::Directory),
        rows.node(a) is Some,
{
    let i = choose|i: int|
        0 <= i < rows.dirents.len() && (#[trigger] rows.dirents[i]).parent == parent
            && rows.dirents[i].name == name && rows.dirents[i].child == a;
    let j = choose|j: int|
        0 <= j < rows.dirents.len() && (#[trigger] rows.dirents[j]).parent == parent
            && rows.dirents[j].name == name && rows.dirents[j].child == b;
    assert(rows.anchored(i));
    if i < j {
        assert(rows.apart(i, j));
    }
    if j < i {
        assert(rows.apart(j, i));
    }
}

proof fn leads_through(rows: TreeRows, path: Seq<Seq<char>>, at: int, upto: int, id: i64) -> (x: i64)
    requires
        0 <= at <= upto,
        leads(rows, path, upto, id),
    ensures
        leads(rows, path, at, x),
    decreases upto - at,
{
    if at == upto {
        id
    } else {
        let above = choose|above: i64| #[trigger]
            names(rows, above, path[upto - 1], id) && leads(rows, path, upto - 1, above);
        leads_through(rows, path, at, upto - 1, above)
    }
}

proof fn a_walk_that_ends_leads_nowhere(
    rows: TreeRows,
    from: (i64, Kind),
    path: Seq<Seq<char>>,
    at: int,
    id: i64,
)
    requires
        rows.valid(),
        0 <= at <= path.len(),
        rows.node(from.0) matches Some(node) && node.kind() == from.1,
        forall|x: i64| #[trigger] leads(rows, path, at, x) ==> x == from.0,
        rows.walk(from, path, at) is None,
    ensures
        !leads(rows, path, path.len() as int, id),
    decreases path.len() - at,
{
    let name = path[at];
    dirent_at_facts(rows.dirents, from.0, name, 0);
    child_is_named(rows, from.0, name);
    let place = dirent_at(rows.dirents, from.0, name, 0);
    if place < rows.dirents.len() {
        assert(rows.anchored(place));
    }
    match rows.child(from.0, name) {
        Some(found) if from.1 == Kind::Directory => {
            assert forall|x: i64| #[trigger] leads(rows, path, at + 1, x) implies x == found.0 by {
                let above = choose|above: i64| #[trigger]
                    names(rows, above, path[at + 1 - 1], x) && leads(rows, path, at + 1 - 1, above);
                assert(above == from.0);
                one_child(rows, from.0, name, x, found.0);
            }
            a_walk_that_ends_leads_nowhere(rows, found, path, at + 1, id);
        },
        _ => {
            if leads(rows, path, path.len() as int, id) {
                let x = leads_through(rows, path, at + 1, path.len() as int, id);
                let above = choose|above: i64| #[trigger]
                    names(rows, above, path[at + 1 - 1], x) && leads(rows, path, at + 1 - 1, above);
                assert(above == from.0);
                one_child(rows, from.0, name, x, x);
            }
        },
    }
}

proof fn a_missing_path_leads_nowhere(rows: TreeRows, path: Seq<char>, id: i64)
    requires
        rows.valid(),
        rows.existing(path) == Err::<(i64, Kind), ErrorModel>(ErrorModel::Missing(path)),
    ensures
        !stands_at(rows, path, id),
{
    let root = (rows.root, Kind::Directory);
    assert forall|x: i64| #[trigger] leads(rows, steps(path), 0, x) implies x == root.0 by {}
    a_walk_that_ends_leads_nowhere(rows, root, steps(path), 0, id);
}

/// Whether what stands at a path is of a kind.
pub open spec fn is_at(rows: TreeRows, path: Seq<char>, kind: Kind) -> bool {
    exists|id: i64, node: NodeModel|
        (stands_at(rows, path, id) || (path.len() == 0 && id == rows.root)) && #[trigger] is_inode(
            rows,
            id,
            node,
        ) && node.kind() == kind
}

/// Whether the directory of a path has the path's last name already.
pub open spec fn is_taken(rows: TreeRows, path: Seq<char>) -> bool {
    exists|directory: i64, child: i64|
        stands_in(rows, path, directory) && #[trigger] names(
            rows,
            directory,
            steps(path).last(),
            child,
        )
}

/// Whether the directory of a path has another name that differs in case alone.
pub open spec fn is_taken_but_for_case(rows: TreeRows, path: Seq<char>) -> bool {
    exists|directory: i64, name: Seq<char>, child: i64|
        stands_in(rows, path, directory) && #[trigger] names(rows, directory, name, child) && name
            != steps(path).last() && folded(name) == folded(steps(path).last())
}

/// Whether a mutation renames a path to itself or to a path below it.
pub open spec fn goes_into_itself(mutation: MutationModel, from: Seq<char>) -> bool {
    mutation matches MutationModel::Rename { from: old, to } && old == from && (to == from || (
    to.len() > from.len() && to.take(from.len() as int) == from && to[from.len() as int] == '/'))
}

/// Whether a refusal is true of a tree and a mutation.
pub open spec fn stands_in_the_way(rows: TreeRows, mutation: MutationModel, error: ErrorModel) -> bool {
    match error {
        ErrorModel::Missing(path) => forall|id: i64| !#[trigger] stands_at(rows, path, id),
        ErrorModel::Exists(path) => is_taken(rows, path),
        ErrorModel::CaseFoldCollision(path) => is_taken_but_for_case(rows, path),
        ErrorModel::NotADirectory(path) => is_at(rows, path, Kind::File) || is_at(
            rows,
            path,
            Kind::Symlink,
        ),
        ErrorModel::NotAFile(path) => is_at(rows, path, Kind::Directory) || is_at(
            rows,
            path,
            Kind::Symlink,
        ),
        ErrorModel::NotEmpty(path) => is_at(rows, path, Kind::Directory) && exists|
            id: i64,
            name: Seq<char>,
            child: i64,
        |
            (stands_at(rows, path, id) || (path.len() == 0 && id == rows.root)) && #[trigger] names(
                rows,
                id,
                name,
                child,
            ),
        ErrorModel::RenameIntoSelf(from) => is_at(rows, from, Kind::Directory)
            && goes_into_itself(mutation, from),
        ErrorModel::MidRecordTruncate { path, length } => mutation == (MutationModel::Truncate {
            path,
            length,
        }) && is_at(rows, path, Kind::File),
        ErrorModel::Tfm1(_) => true,
        _ => false,
    }
}

proof fn what_is_there(rows: TreeRows, path: Seq<char>)
    requires
        rows.valid(),
        rows.existing(path) is Ok,
    ensures
        is_at(rows, path, rows.existing(path)->Ok_0.1),
{
    let (id, kind) = rows.existing(path)->Ok_0;
    resolved_is_there(rows, path);
    if path.len() > 0 {
        existing_stands(rows, path);
    }
    let node = rows.node(id)->Some_0;
    node_is_inode(rows, id, node);
    assert(is_inode(rows, id, node));
}

proof fn a_new_leaf_is_refused(rows: TreeRows, path: Seq<char>, mutation: MutationModel)
    requires
        rows.valid(),
    ensures
        rows.new_leaf(path) matches Err(error) ==> stands_in_the_way(rows, mutation, error),
        path_error(path) is None && rows.new_parent(path) is Err ==> (
        rows.new_parent(path) matches Err(error) ==> stands_in_the_way(rows, mutation, error)),
{
    if path_error(path) is None {
        usable_paths_start_with_a_name(path);
        last_name_is(path);
        if let Some(parent) = parent_of(path) {
            an_old_path_is_refused(rows, parent, mutation);
            if rows.existing(parent) is Ok {
                what_is_there(rows, parent);
            }
        }
        if let Ok(directory) = rows.new_parent(path) {
            parent_stands(rows, path, directory);
            child_is_named(rows, directory, name_of(path));
            if dirent_at(rows.dirents, directory, name_of(path), 0) < rows.dirents.len() {
                let child = choose|child: i64| names(rows, directory, name_of(path), child);
                assert(names(rows, directory, steps(path).last(), child));
                assert(is_taken(rows, path));
            }
            if dirent_at(rows.dirents, directory, name_of(path), 0) >= rows.dirents.len()
                && rows.collides(directory, name_of(path)) {
                let i = choose|i: int|
                    0 <= i < rows.dirents.len() && (#[trigger] rows.dirents[i]).parent == directory
                        && folded(rows.dirents[i].name) == folded(name_of(path));
                let name = rows.dirents[i].name;
                dirent_at_facts(rows.dirents, directory, name_of(path), 0);
                assert(names(rows, directory, name, rows.dirents[i].child));
                assert(name != name_of(path));
                assert(is_taken_but_for_case(rows, path));
            }
        }
    }
}

proof fn an_old_path_is_refused(rows: TreeRows, path: Seq<char>, mutation: MutationModel)
    requires
        rows.valid(),
    ensures
        rows.existing(path) matches Err(error) ==> stands_in_the_way(rows, mutation, error),
{
    if rows.existing(path) == Err::<(i64, Kind), ErrorModel>(ErrorModel::Missing(path)) {
        assert forall|id: i64| !#[trigger] stands_at(rows, path, id) by {
            a_missing_path_leads_nowhere(rows, path, id);
        }
    }
}

proof fn a_directory_holds_a_name(rows: TreeRows, path: Seq<char>, mutation: MutationModel)
    requires
        rows.valid(),
        rows.existing(path) matches Ok((id, kind)) && kind == Kind::Directory
            && rows.has_children(id),
    ensures
        stands_in_the_way(rows, mutation, ErrorModel::NotEmpty(path)),
{
    let id = rows.existing(path)->Ok_0.0;
    what_is_there(rows, path);
    if path.len() > 0 {
        existing_stands(rows, path);
    }
    let i = choose|i: int| 0 <= i < rows.dirents.len() && (#[trigger] rows.dirents[i]).parent == id;
    assert(names(rows, id, rows.dirents[i].name, rows.dirents[i].child));
}

/// A mutation is refused only for what stands in its way: a path that leads
/// nowhere, a name that is taken, as it is or but for its case, something of
/// another kind, a directory that is not empty, or a directory that would go into
/// itself.
pub proof fn a_refusal_names_what_stands_in_the_way(rows: TreeRows, mutation: MutationModel)
    requires
        rows.valid(),
    ensures
        rows.decided(mutation) matches Err(error) ==> stands_in_the_way(rows, mutation, error),
{
    match mutation {
        MutationModel::Mkdir { path } => a_new_leaf_is_refused(rows, path, mutation),
        MutationModel::CreateFile { path, .. } => a_new_leaf_is_refused(rows, path, mutation),
        MutationModel::Symlink { path, .. } => a_new_leaf_is_refused(rows, path, mutation),
        MutationModel::SetRecords { path, .. } => a_file_is_refused(rows, path, mutation),
        MutationModel::Truncate { path, .. } => a_file_is_refused(rows, path, mutation),
        MutationModel::SetExecutable { path, .. } => a_file_is_refused(rows, path, mutation),
        MutationModel::Hardlink { path, target } => {
            a_file_is_refused(rows, target, mutation);
            a_new_leaf_is_refused(rows, path, mutation);
        },
        MutationModel::Unlink { path } => a_removal_is_refused(rows, path, mutation),
        MutationModel::Rmdir { path } => a_removal_is_refused(rows, path, mutation),
        MutationModel::Rename { from, to } => {
            an_old_path_is_refused(rows, from, mutation);
            a_new_leaf_is_refused(rows, to, mutation);
            if let Some(parent) = parent_of(from) {
                an_old_path_is_refused(rows, parent, mutation);
            }
            if rows.existing(from) is Ok {
                what_is_there(rows, from);
                if from.push('/').is_prefix_of(to) {
                    let head = from.push('/');
                    assert(to.take(from.len() as int) =~= from) by {
                        assert(to.take(head.len() as int) =~= head);
                        assert forall|i: int| 0 <= i < from.len() implies to[i] == from[i] by {
                            assert(to.take(head.len() as int)[i] == head[i]);
                        }
                    }
                    assert(to.take(head.len() as int)[from.len() as int] == '/');
                }
            }
        },
    }
}

proof fn a_file_is_refused(rows: TreeRows, path: Seq<char>, mutation: MutationModel)
    requires
        rows.valid(),
    ensures
        rows.file_at(path) matches Err(error) ==> stands_in_the_way(rows, mutation, error),
        rows.file_at(path) is Ok ==> is_at(rows, path, Kind::File),
{
    an_old_path_is_refused(rows, path, mutation);
    if rows.existing(path) is Ok {
        what_is_there(rows, path);
    }
}

proof fn a_removal_is_refused(rows: TreeRows, path: Seq<char>, mutation: MutationModel)
    requires
        rows.valid(),
        mutation == (MutationModel::Unlink { path }) || mutation == (MutationModel::Rmdir { path }),
    ensures
        rows.decided(mutation) matches Err(error) ==> stands_in_the_way(rows, mutation, error),
{
    an_old_path_is_refused(rows, path, mutation);
    if let Some(parent) = parent_of(path) {
        an_old_path_is_refused(rows, parent, mutation);
    }
    if rows.existing(path) is Ok {
        what_is_there(rows, path);
        let (id, kind) = rows.existing(path)->Ok_0;
        if kind == Kind::Directory && rows.has_children(id) {
            a_directory_holds_a_name(rows, path, mutation);
        }
    }
}

} // verus!
