//! Every name of a workspace's tree hangs from its root.

use super::laws::{
    dirent_at_facts, inode_at_facts, mutated, node_of_added, node_of_dropped, node_of_replaced,
    resolved_is_there, single, split_of_parent, the_parent_is_a_directory, walk_is_there,
    walk_of_prefix,
};
use super::stage::{hardlinks, link_at, ordered};
use super::tree::{
    dirent_at, inode_at, name_of, ChangeModel, DirentModel, InodeModel, Kind, NodeModel, TreeRows,
};
use super::MutationModel;
use crate::contract::StampModel;
use crate::sort::keys_have_an_order;
use crate::text::{first_index, first_index_facts, last_index_facts, split_at, split_is_filled};
use crate::tfm1::builder::{Declared, PendingModel};
use crate::tfm1::path::segments_error;
use crate::tfm1::tree::parent_of;
use vstd::prelude::*;
use vstd::utf8::encode_utf8;

verus! {

impl TreeRows {
    /// A directory hangs from the root: its name stands in the root, or in a
    /// directory that does.
    pub open spec fn hangs(self, id: i64) -> bool {
        self.climb(id, self.dirents.len()) is Some
    }

    /// Every name stands in a directory that hangs from the root.
    pub open spec fn rooted(self) -> bool {
        forall|i: int| 0 <= i < self.dirents.len() ==> self.hangs((#[trigger] self.dirents[i]).parent)
    }

    /// The places of the names from the root down to a directory.
    spec fn chain(self, id: i64, steps: nat) -> Seq<int>
        decreases steps,
    {
        let link = link_at(self.dirents, id, 0);
        if id == self.root || steps == 0 {
            Seq::empty()
        } else {
            self.chain(self.dirents[link].parent, (steps - 1) as nat).push(link)
        }
    }

    /// Whether a directory is `above`, or `above` is met on the way to the root.
    spec fn is_under(self, id: i64, steps: nat, above: i64) -> bool
        decreases steps,
    {
        let link = link_at(self.dirents, id, 0);
        ||| id == above
        ||| id != self.root && steps > 0 && self.is_under(
            self.dirents[link].parent,
            (steps - 1) as nat,
            above,
        )
    }
}

proof fn link_at_facts(dirents: Seq<DirentModel>, id: i64, at: int)
    requires
        0 <= at <= dirents.len(),
    ensures
        at <= link_at(dirents, id, at) <= dirents.len(),
        link_at(dirents, id, at) < dirents.len() ==> dirents[link_at(dirents, id, at)].child == id,
        forall|i: int| at <= i < link_at(dirents, id, at) ==> (#[trigger] dirents[i]).child != id,
    decreases dirents.len() - at,
{
    if at < dirents.len() && dirents[at].child != id {
        link_at_facts(dirents, id, at + 1);
    }
}

proof fn link_at_is(dirents: Seq<DirentModel>, id: i64, at: int, place: int)
    requires
        0 <= at <= place < dirents.len(),
        dirents[place].child == id,
        forall|i: int| at <= i < place ==> (#[trigger] dirents[i]).child != id,
    ensures
        link_at(dirents, id, at) == place,
    decreases dirents.len() - at,
{
    if at < place {
        link_at_is(dirents, id, at + 1, place);
    }
}

/// More steps than are needed change nothing.
proof fn climb_goes_on(rows: TreeRows, id: i64, steps: nat, more: nat)
    requires
        rows.climb(id, steps) is Some,
        steps <= more,
    ensures
        rows.climb(id, more) == rows.climb(id, steps),
        rows.chain(id, more) == rows.chain(id, steps),
    decreases steps,
{
    if id != rows.root {
        let link = link_at(rows.dirents, id, 0);
        climb_goes_on(rows, rows.dirents[link].parent, (steps - 1) as nat, (more - 1) as nat);
    }
}

/// The path of a directory that hangs from the root is the same for more steps.
pub(crate) proof fn climb_is_settled(rows: TreeRows, id: i64, more: nat)
    requires
        rows.hangs(id),
        rows.dirents.len() <= more,
    ensures
        rows.climb(id, more) == rows.climb(id, rows.dirents.len()),
{
    climb_goes_on(rows, id, rows.dirents.len(), more);
}

/// As many steps as there are names on the way are enough.
proof fn climb_is_tight(rows: TreeRows, id: i64, steps: nat)
    requires
        rows.climb(id, steps) is Some,
    ensures
        rows.chain(id, steps).len() <= steps,
        rows.climb(id, rows.chain(id, steps).len()) == rows.climb(id, steps),
    decreases steps,
{
    if id != rows.root {
        let link = link_at(rows.dirents, id, 0);
        climb_is_tight(rows, rows.dirents[link].parent, (steps - 1) as nat);
    }
}

/// Each name on the way leads to a directory as far from the root as the name
/// is along the way.
proof fn chain_rises(rows: TreeRows, id: i64, steps: nat)
    requires
        rows.climb(id, steps) is Some,
    ensures
        forall|k: int|
            0 <= k < rows.chain(id, steps).len() ==> {
                let place = #[trigger] rows.chain(id, steps)[k];
                &&& 0 <= place < rows.dirents.len()
                &&& rows.climb(rows.dirents[place].child, steps) is Some
                &&& rows.chain(rows.dirents[place].child, steps).len() == k + 1
            },
    decreases steps,
{
    if id != rows.root {
        let link = link_at(rows.dirents, id, 0);
        let up = rows.dirents[link].parent;
        let shorter = (steps - 1) as nat;
        link_at_facts(rows.dirents, id, 0);
        chain_rises(rows, up, shorter);
        assert forall|k: int| 0 <= k < rows.chain(id, steps).len() implies {
            let place = #[trigger] rows.chain(id, steps)[k];
            &&& 0 <= place < rows.dirents.len()
            &&& rows.climb(rows.dirents[place].child, steps) is Some
            &&& rows.chain(rows.dirents[place].child, steps).len() == k + 1
        } by {
            if k < rows.chain(up, shorter).len() {
                let place = rows.chain(up, shorter)[k];
                assert(rows.chain(id, steps)[k] == place);
                climb_goes_on(rows, rows.dirents[place].child, shorter, steps);
            }
        }
    }
}

/// The way to the root takes no more steps than there are names.
proof fn climb_is_short(rows: TreeRows, id: i64, steps: nat)
    requires
        rows.climb(id, steps) is Some,
    ensures
        rows.hangs(id),
{
    let chain = rows.chain(id, steps);
    chain_rises(rows, id, steps);
    assert(chain.no_duplicates()) by {
        assert forall|a: int, b: int| 0 <= a < chain.len() && 0 <= b < chain.len() && a != b implies chain[a]
            != chain[b] by {
            let first = chain[a];
            let second = chain[b];
        }
    }
    chain.unique_seq_to_set();
    let places = vstd::set_lib::set_int_range(0, rows.dirents.len() as int);
    vstd::set_lib::lemma_int_range(0, rows.dirents.len() as int);
    assert(chain.to_set().subset_of(places)) by {
        assert forall|place: int| chain.to_set().contains(place) implies places.contains(place) by {
            let k = choose|k: int| 0 <= k < chain.len() && chain[k] == place;
            let met = chain[k];
        }
    }
    vstd::set_lib::lemma_len_subset(chain.to_set(), places);
    climb_is_tight(rows, id, steps);
    climb_goes_on(rows, id, chain.len(), rows.dirents.len());
}

// ---------------------------------------------------------------------------
// What a path leads to
// ---------------------------------------------------------------------------

/// The one name of a directory is where its link is found.
pub(crate) proof fn only_link(rows: TreeRows, place: int)
    requires
        rows.valid(),
        0 <= place < rows.dirents.len(),
        rows.node(rows.dirents[place].child) == Some(NodeModel::Directory),
    ensures
        link_at(rows.dirents, rows.dirents[place].child, 0) == place,
{
    let id = rows.dirents[place].child;
    link_at_facts(rows.dirents, id, 0);
    let link = link_at(rows.dirents, id, 0);
    if link < place {
        assert(rows.apart(link, place));
    }
    if place < link {
        assert(rows.dirents[place].child != id);
    }
}

/// A directory named in one that hangs from the root hangs there too.
pub(crate) proof fn named_hangs(rows: TreeRows, place: int)
    requires
        rows.valid(),
        0 <= place < rows.dirents.len(),
        rows.hangs(rows.dirents[place].parent),
        rows.node(rows.dirents[place].child) == Some(NodeModel::Directory),
    ensures
        rows.hangs(rows.dirents[place].child),
{
    only_link(rows, place);
    assert(rows.anchored(place));
    climb_is_short(rows, rows.dirents[place].child, rows.dirents.len() + 1);
}

proof fn walk_hangs(rows: TreeRows, from: (i64, Kind), names: Seq<Seq<char>>, at: int)
    requires
        rows.valid(),
        0 <= at <= names.len(),
        from.1 == Kind::Directory ==> rows.hangs(from.0),
        rows.walk(from, names, at) is Some,
    ensures
        rows.walk(from, names, at).unwrap().1 == Kind::Directory ==> rows.hangs(
            rows.walk(from, names, at).unwrap().0,
        ),
    decreases names.len() - at,
{
    if at < names.len() {
        let found = rows.child(from.0, names[at]).unwrap();
        let place = dirent_at(rows.dirents, from.0, names[at], 0);
        dirent_at_facts(rows.dirents, from.0, names[at], 0);
        if found.1 == Kind::Directory {
            named_hangs(rows, place);
        }
        walk_hangs(rows, found, names, at + 1);
    }
}

/// A directory that a path leads to hangs from the root.
pub proof fn a_resolved_directory_hangs(rows: TreeRows, path: Seq<char>)
    requires
        rows.valid(),
        rows.existing(path) is Ok,
        rows.existing(path)->Ok_0.1 == Kind::Directory,
    ensures
        rows.hangs(rows.existing(path)->Ok_0.0),
{
    if path.len() > 0 {
        walk_hangs(rows, (rows.root, Kind::Directory), split_at(path, '/'), 0);
    }
}

proof fn new_parent_hangs(rows: TreeRows, path: Seq<char>)
    requires
        rows.valid(),
        rows.new_leaf(path) is Ok,
    ensures
        rows.hangs(rows.new_leaf(path)->Ok_0.0),
{
    match parent_of(path) {
        Some(parent) => {
            a_resolved_directory_hangs(rows, parent);
        },
        None => {},
    }
}

/// Where a walk from the root ends under a directory, some of its names lead
/// to that directory.
proof fn walk_passes(rows: TreeRows, names: Seq<Seq<char>>, steps: nat, above: i64) -> (k: int)
    requires
        rows.valid(),
        rows.walk((rows.root, Kind::Directory), names, 0) is Some,
        rows.walk((rows.root, Kind::Directory), names, 0).unwrap().1 == Kind::Directory,
        rows.is_under(rows.walk((rows.root, Kind::Directory), names, 0).unwrap().0, steps, above),
        above != rows.root,
    ensures
        0 < k <= names.len(),
        rows.walk((rows.root, Kind::Directory), names.take(k), 0) == Some((above, Kind::Directory)),
    decreases names.len(),
{
    let root = (rows.root, Kind::Directory);
    let (id, kind) = rows.walk(root, names, 0).unwrap();
    if names.len() == 0 {
        assert(id == rows.root);
        0
    } else if id == above {
        assert(names.take(names.len() as int) =~= names);
        names.len() as int
    } else {
        let front = names.drop_last();
        assert(front.push(names.last()) =~= names);
        walk_of_prefix(rows, root, front, names.last(), 0);
        let up = rows.walk(root, front, 0).unwrap().0;
        let place = dirent_at(rows.dirents, up, names.last(), 0);
        dirent_at_facts(rows.dirents, up, names.last(), 0);
        assert(rows.anchored(place));
        only_link(rows, place);
        let k = walk_passes(rows, front, (steps - 1) as nat, above);
        assert(front.take(k) =~= names.take(k));
        k
    }
}

/// Only one list of names leads from the root to a directory.
proof fn one_way(rows: TreeRows, first: Seq<Seq<char>>, second: Seq<Seq<char>>, id: i64)
    requires
        rows.valid(),
        rows.walk((rows.root, Kind::Directory), first, 0) == Some((id, Kind::Directory)),
        rows.walk((rows.root, Kind::Directory), second, 0) == Some((id, Kind::Directory)),
    ensures
        first == second,
    decreases first.len(),
{
    let root = (rows.root, Kind::Directory);
    walk_is_there(rows, root, first, 0);
    walk_is_there(rows, root, second, 0);
    if first.len() == 0 || second.len() == 0 {
        assert(first =~= second);
    } else {
        let (front, last) = (first.drop_last(), first.last());
        let (other, end) = (second.drop_last(), second.last());
        assert(front.push(last) =~= first);
        assert(other.push(end) =~= second);
        walk_of_prefix(rows, root, front, last, 0);
        walk_of_prefix(rows, root, other, end, 0);
        let up = rows.walk(root, front, 0).unwrap().0;
        let over = rows.walk(root, other, 0).unwrap().0;
        dirent_at_facts(rows.dirents, up, last, 0);
        dirent_at_facts(rows.dirents, over, end, 0);
        only_link(rows, dirent_at(rows.dirents, up, last, 0));
        only_link(rows, dirent_at(rows.dirents, over, end, 0));
        one_way(rows, front, other, up);
    }
}

// ---------------------------------------------------------------------------
// Paths and their names
// ---------------------------------------------------------------------------

pub(crate) proof fn text_of_parent(path: Seq<char>)
    ensures
        parent_of(path) matches Some(parent) ==> path == parent.push('/') + name_of(path),
{
    last_index_facts(path, '/');
    if let Some(parent) = parent_of(path) {
        assert(path =~= parent.push('/') + name_of(path));
    }
}

/// The names of a path tell the path.
proof fn names_tell_the_path(first: Seq<char>, second: Seq<char>)
    requires
        split_at(first, '/') == split_at(second, '/'),
    ensures
        first == second,
    decreases first.len(),
{
    split_of_parent(first);
    split_of_parent(second);
    text_of_parent(first);
    text_of_parent(second);
    let names = split_at(first, '/');
    match (parent_of(first), parent_of(second)) {
        (Some(a), Some(b)) => {
            assert(names.drop_last() =~= split_at(a, '/'));
            assert(names.drop_last() =~= split_at(b, '/'));
            assert(names.last() == name_of(first));
            assert(names.last() == name_of(second));
            names_tell_the_path(a, b);
        },
        (Some(a), None) => {
            split_is_filled(a, '/');
            assert(names.len() == 1);
        },
        (None, Some(b)) => {
            split_is_filled(b, '/');
            assert(names.len() == 1);
        },
        (None, None) => {
            assert(names[0] == first);
            assert(names[0] == second);
        },
    }
}

/// A path whose names begin with all those of another, and go on, is below it.
proof fn longer_is_below(from: Seq<char>, to: Seq<char>, k: int)
    requires
        0 <= k < split_at(to, '/').len(),
        split_at(from, '/') == split_at(to, '/').take(k),
    ensures
        from.push('/').is_prefix_of(to),
    decreases to.len(),
{
    split_of_parent(to);
    text_of_parent(to);
    split_is_filled(from, '/');
    if let Some(parent) = parent_of(to) {
        let names = split_at(parent, '/');
        assert(split_at(to, '/').take(k) =~= names.take(k));
        if k == names.len() {
            assert(names.take(k) =~= names);
            names_tell_the_path(from, parent);
            assert(to.take(from.len() as int + 1) =~= from.push('/'));
        } else {
            longer_is_below(from, parent, k);
            assert(to.take(from.len() as int + 1) =~= parent.take(from.len() as int + 1));
        }
    }
}

proof fn split_of_first(path: Seq<char>)
    ensures
        ({
            let at = first_index(path, '/');
            split_at(path, '/') == if at < path.len() {
                seq![path.take(at)] + split_at(path.skip(at + 1), '/')
            } else {
                seq![path]
            }
        }),
    decreases path.len(),
{
    first_index_facts(path, '/');
    let at = first_index(path, '/');
    if path.len() == 0 {
        assert(path =~= Seq::<char>::empty());
    } else {
        let front = path.drop_last();
        split_of_first(front);
        first_index_facts(front, '/');
        split_is_filled(front, '/');
        if at < path.len() - 1 {
            assert(first_index(front, '/') == at) by {
                if first_index(front, '/') < at {
                    assert(front[first_index(front, '/')] == path[first_index(front, '/')]);
                }
                assert(front[at] == path[at]);
            }
            assert(front.take(at) =~= path.take(at));
            assert(path.skip(at + 1).drop_last() =~= front.skip(at + 1));
            split_is_filled(front.skip(at + 1), '/');
            let rest = split_at(front.skip(at + 1), '/');
            let head = seq![path.take(at)];
            assert((head + rest).drop_last() =~= head + rest.drop_last());
            assert((head + rest).last() == rest.last());
            assert(split_at(path, '/') =~= head + split_at(path.skip(at + 1), '/'));
        } else {
            assert(first_index(front, '/') == front.len()) by {
                if first_index(front, '/') < front.len() {
                    assert(front[first_index(front, '/')] == path[first_index(front, '/')]);
                }
            }
            if at == path.len() - 1 {
                assert(front =~= path.take(at));
                assert(path.skip(at + 1) =~= Seq::<char>::empty());
                assert(split_at(path, '/') =~= seq![path.take(at)] + split_at(path.skip(at + 1), '/'));
            } else {
                assert(path[path.len() - 1] != '/');
                assert(front.push(path.last()) =~= path);
                assert(seq![front].last() == front);
                assert(split_at(path, '/') =~= seq![path]);
            }
        }
    }
}

/// No name of a path that keeps the rules is empty.
proof fn names_are_not_empty(path: Seq<char>)
    requires
        segments_error(path) is None,
    ensures
        forall|i: int| 0 <= i < split_at(path, '/').len() ==> (#[trigger] split_at(path, '/')[i]).len() > 0,
    decreases path.len(),
{
    split_of_first(path);
    first_index_facts(path, '/');
    let at = first_index(path, '/');
    if at < path.len() {
        let rest = path.skip(at + 1);
        names_are_not_empty(rest);
        assert forall|i: int| 0 <= i < split_at(path, '/').len() implies (#[trigger] split_at(path, '/')[i]).len()
            > 0 by {
            if i > 0 {
                assert(split_at(path, '/')[i] == split_at(rest, '/')[i - 1]);
            }
        }
    } else {
        assert(path.take(at) =~= path);
    }
}

// ---------------------------------------------------------------------------
// What a mutation keeps
// ---------------------------------------------------------------------------

/// A directory of some rows has its name in the same directory in others.
spec fn same_place(before: TreeRows, after: TreeRows, id: i64) -> bool {
    let link = link_at(before.dirents, id, 0);
    let place = link_at(after.dirents, id, 0);
    id != before.root && before.node(id) == Some(NodeModel::Directory) && link < before.dirents.len() ==> {
        &&& after.node(id) == Some(NodeModel::Directory)
        &&& place < after.dirents.len()
        &&& after.dirents[place].parent == before.dirents[link].parent
    }
}

/// A way to the root that does not meet `changed` is there still.
proof fn climb_stays(before: TreeRows, after: TreeRows, id: i64, steps: nat, changed: i64)
    requires
        before.root == after.root,
        before.climb(id, steps) is Some,
        !before.is_under(id, steps, changed),
        forall|d: i64| d != changed ==> #[trigger] same_place(before, after, d),
    ensures
        after.climb(id, steps) is Some,
    decreases steps,
{
    if id != before.root {
        assert(same_place(before, after, id));
        let link = link_at(before.dirents, id, 0);
        climb_stays(before, after, before.dirents[link].parent, (steps - 1) as nat, changed);
    }
}

/// A way to the root is there still if `changed` has one.
proof fn climb_detours(before: TreeRows, after: TreeRows, id: i64, steps: nat, changed: i64, base: nat)
    requires
        before.root == after.root,
        before.climb(id, steps) is Some,
        after.climb(changed, base) is Some,
        forall|d: i64| d != changed ==> #[trigger] same_place(before, after, d),
    ensures
        after.climb(id, steps + base) is Some,
    decreases steps,
{
    if id == changed {
        climb_goes_on(after, id, base, steps + base);
    } else if id != before.root {
        assert(same_place(before, after, id));
        let link = link_at(before.dirents, id, 0);
        climb_detours(before, after, before.dirents[link].parent, (steps - 1) as nat, changed, base);
    }
}

/// Nothing but itself is under what holds no names.
proof fn nothing_under(rows: TreeRows, id: i64, steps: nat, bare: i64)
    requires
        !rows.has_children(bare),
        rows.climb(id, steps) is Some,
        id != bare,
    ensures
        !rows.is_under(id, steps, bare),
    decreases steps,
{
    if id != rows.root {
        let link = link_at(rows.dirents, id, 0);
        link_at_facts(rows.dirents, id, 0);
        assert(rows.dirents[link].parent != bare);
        nothing_under(rows, rows.dirents[link].parent, (steps - 1) as nat, bare);
    }
}

/// What hangs from the root hangs there still, after a change to what holds no
/// names.
proof fn hanging_stays(before: TreeRows, after: TreeRows, id: i64, bare: i64)
    requires
        before.root == after.root,
        before.hangs(id),
        id != bare,
        !before.has_children(bare),
        forall|d: i64| d != bare ==> #[trigger] same_place(before, after, d),
    ensures
        after.hangs(id),
{
    nothing_under(before, id, before.dirents.len(), bare);
    climb_stays(before, after, id, before.dirents.len(), bare);
    climb_is_short(after, id, before.dirents.len());
}

proof fn parent_is_no_leaf(rows: TreeRows, i: int)
    requires
        0 <= i < rows.dirents.len(),
    ensures
        rows.has_children(rows.dirents[i].parent),
{
}

/// The next number is no directory yet.
proof fn next_is_bare(rows: TreeRows)
    requires
        rows.valid(),
    ensures
        rows.node(rows.next) is None,
        !rows.has_children(rows.next),
{
    inode_at_facts(rows.inodes, rows.next, 0);
    if rows.has_children(rows.next) {
        let i = choose|i: int| 0 <= i < rows.dirents.len() && (#[trigger] rows.dirents[i]).parent == rows.next;
        assert(rows.anchored(i));
    }
}

/// A new name that is no directory's second one leaves every other directory
/// in its place.
proof fn linking_keeps_place(rows: TreeRows, added: TreeRows, dirent: DirentModel, id: i64)
    requires
        added.root == rows.root,
        added.dirents == rows.dirents.push(dirent),
        rows.node(id) == Some(NodeModel::Directory) ==> added.node(id) == rows.node(id),
    ensures
        same_place(rows, added, id),
{
    let link = link_at(rows.dirents, id, 0);
    link_at_facts(rows.dirents, id, 0);
    if link < rows.dirents.len() {
        assert forall|i: int| 0 <= i < link implies (#[trigger] added.dirents[i]).child != id by {
            assert(added.dirents[i] == rows.dirents[i]);
        }
        link_at_is(added.dirents, id, 0, link);
    }
}

proof fn adding_keeps_rooted(rows: TreeRows, path: Seq<char>, node: NodeModel)
    requires
        rows.valid(),
        rows.rooted(),
        rows.next < i64::MAX,
        rows.adding(path, node) is Ok,
    ensures
        rows.after_all(rows.adding(path, node)->Ok_0, 2).rooted(),
{
    reveal_with_fuel(TreeRows::after_all, 3);
    let changes = rows.adding(path, node)->Ok_0;
    let added = rows.after(changes[0]);
    let after = rows.after_all(changes, 2);
    let (parent, name) = rows.new_leaf(path)->Ok_0;
    let dirent = DirentModel { parent, name, child: rows.next };
    assert(after == added.after(changes[1]));
    assert(after.dirents == rows.dirents.push(dirent));
    new_parent_hangs(rows, path);
    next_is_bare(rows);
    assert forall|d: i64| d != rows.next implies #[trigger] same_place(rows, after, d) by {
        node_of_added(rows, rows.next, node, d);
        assert(after.node(d) == added.node(d));
        linking_keeps_place(rows, after, dirent, d);
    }
    assert forall|i: int| 0 <= i < after.dirents.len() implies after.hangs((#[trigger] after.dirents[i]).parent) by {
        let up = after.dirents[i].parent;
        if i < rows.dirents.len() {
            assert(after.dirents[i] == rows.dirents[i]);
            parent_is_no_leaf(rows, i);
        } else {
            match parent_of(path) {
                Some(p) => {
                    resolved_is_there(rows, p);
                },
                None => {},
            }
        }
        hanging_stays(rows, after, up, rows.next);
    }
}

proof fn linking_keeps_rooted(rows: TreeRows, path: Seq<char>, child: i64)
    requires
        rows.valid(),
        rows.rooted(),
        rows.new_leaf(path) is Ok,
    ensures
        rows.after(
            ChangeModel::Link {
                parent: rows.new_leaf(path)->Ok_0.0,
                name: rows.new_leaf(path)->Ok_0.1,
                child,
            },
        ).rooted(),
{
    let (parent, name) = rows.new_leaf(path)->Ok_0;
    let after = rows.after(ChangeModel::Link { parent, name, child });
    let dirent = DirentModel { parent, name, child };
    new_parent_hangs(rows, path);
    next_is_bare(rows);
    assert forall|d: i64| d != rows.next implies #[trigger] same_place(rows, after, d) by {
        assert(after.node(d) == rows.node(d));
        linking_keeps_place(rows, after, dirent, d);
    }
    assert forall|i: int| 0 <= i < after.dirents.len() implies after.hangs((#[trigger] after.dirents[i]).parent) by {
        let up = after.dirents[i].parent;
        if i < rows.dirents.len() {
            assert(after.dirents[i] == rows.dirents[i]);
            parent_is_no_leaf(rows, i);
        } else {
            match parent_of(path) {
                Some(p) => {
                    resolved_is_there(rows, p);
                },
                None => {},
            }
        }
        hanging_stays(rows, after, up, rows.next);
    }
}

proof fn replacing_keeps_rooted(rows: TreeRows, id: i64, file: NodeModel)
    requires
        rows.valid(),
        rows.rooted(),
        file is File,
    ensures
        rows.with_file(id, file).rooted(),
{
    let after = rows.with_file(id, file);
    next_is_bare(rows);
    assert forall|d: i64| d != rows.next implies #[trigger] same_place(rows, after, d) by {
        node_of_replaced(rows, id, file, d);
    }
    assert forall|i: int| 0 <= i < after.dirents.len() implies after.hangs((#[trigger] after.dirents[i]).parent) by {
        parent_is_no_leaf(rows, i);
        assert(rows.hangs(rows.dirents[i].parent));
        hanging_stays(rows, after, after.dirents[i].parent, rows.next);
    }
}

/// A change to a file leaves every name hanging from the root.
pub proof fn file_change_keeps_rooted(rows: TreeRows, change: ChangeModel)
    requires
        rows.valid(),
        rows.rooted(),
        change is SetRecords || change is SetExecutable || change is SetPlanner,
    ensures
        rows.after(change).rooted(),
{
    match change {
        ChangeModel::SetRecords { inode, records } => {
            if let Some(NodeModel::File { executable, planner, .. }) = rows.node(inode) {
                replacing_keeps_rooted(rows, inode, NodeModel::File { executable, planner, records });
            }
        },
        ChangeModel::SetExecutable { inode, executable } => {
            if let Some(NodeModel::File { planner, records, .. }) = rows.node(inode) {
                replacing_keeps_rooted(rows, inode, NodeModel::File { executable, planner, records });
            }
        },
        ChangeModel::SetPlanner { inode, planner } => {
            if let Some(NodeModel::File { executable, records, .. }) = rows.node(inode) {
                replacing_keeps_rooted(rows, inode, NodeModel::File { executable, planner, records });
            }
        },
        _ => {},
    }
}

/// The last name of a path that leads somewhere is a name of the directory
/// above it.
pub(crate) proof fn last_name_leads(rows: TreeRows, path: Seq<char>)
    requires
        rows.existing(path) is Ok,
        rows.old_parent(path) is Ok,
        path.len() > 0,
    ensures
        rows.child(rows.old_parent(path)->Ok_0, name_of(path)) == Some(rows.existing(path)->Ok_0),
{
    the_parent_is_a_directory(rows, path);
    last_index_facts(path, '/');
    if let Some(parent) = parent_of(path) {
        if parent.len() == 0 {
            assert(path[0] == '/');
        }
    }
}

/// Taking away a name leaves every directory but the one it led to in its
/// place.
proof fn unlinking_keeps_place(rows: TreeRows, after: TreeRows, place: int, id: i64)
    requires
        after.root == rows.root,
        0 <= place < rows.dirents.len(),
        after.dirents == rows.dirents.remove(place),
        rows.dirents[place].child != id,
        after.node(id) == rows.node(id),
    ensures
        same_place(rows, after, id),
{
    let link = link_at(rows.dirents, id, 0);
    link_at_facts(rows.dirents, id, 0);
    if link < rows.dirents.len() {
        let moved = if link < place {
            link
        } else {
            link - 1
        };
        assert(after.dirents[moved] == rows.dirents[link]);
        assert forall|i: int| 0 <= i < moved implies (#[trigger] after.dirents[i]).child != id by {
            let a = if i < place {
                i
            } else {
                i + 1
            };
            assert(after.dirents[i] == rows.dirents[a]);
            assert(rows.dirents[a].child != id);
        }
        link_at_is(after.dirents, id, 0, moved);
    }
}

proof fn removing_keeps_rooted(rows: TreeRows, path: Seq<char>)
    requires
        rows.valid(),
        rows.rooted(),
        path.len() > 0,
        rows.existing(path) is Ok,
        rows.removing(path, rows.existing(path)->Ok_0.0) is Ok,
        !rows.has_children(rows.existing(path)->Ok_0.0),
    ensures
        ({
            let changes = rows.removing(path, rows.existing(path)->Ok_0.0)->Ok_0;
            rows.after_all(changes, changes.len() as int).rooted()
        }),
{
    reveal_with_fuel(TreeRows::after_all, 3);
    let id = rows.existing(path)->Ok_0.0;
    let changes = rows.removing(path, id)->Ok_0;
    let parent = rows.old_parent(path)->Ok_0;
    let name = name_of(path);
    let place = dirent_at(rows.dirents, parent, name, 0);
    let unlinked = rows.after(ChangeModel::Unlink { parent, name });
    let after = rows.after_all(changes, changes.len() as int);
    last_name_leads(rows, path);
    resolved_is_there(rows, path);
    dirent_at_facts(rows.dirents, parent, name, 0);
    assert(after == if changes.len() == 1 {
        unlinked
    } else {
        unlinked.after(ChangeModel::DropInode { id })
    });
    assert(after.dirents == rows.dirents.remove(place));
    assert forall|d: i64| d != id implies #[trigger] same_place(rows, after, d) by {
        assert(unlinked.node(d) == rows.node(d));
        node_of_dropped(unlinked, id, d);
        unlinking_keeps_place(rows, after, place, d);
    }
    assert forall|i: int| 0 <= i < after.dirents.len() implies after.hangs((#[trigger] after.dirents[i]).parent) by {
        let a = if i < place {
            i
        } else {
            i + 1
        };
        assert(after.dirents[i] == rows.dirents[a]);
        assert(rows.hangs(rows.dirents[a].parent));
        parent_is_no_leaf(rows, a);
        hanging_stays(rows, after, rows.dirents[a].parent, id);
    }
}

/// A directory is not moved to below itself.
proof fn moved_is_not_above(rows: TreeRows, from: Seq<char>, to: Seq<char>)
    requires
        rows.valid(),
        rows.decided(MutationModel::Rename { from, to }) is Ok,
        dirent_at(rows.dirents, rows.old_parent(from)->Ok_0, name_of(from), 0) < rows.dirents.len(),
    ensures
        ({
            let place = dirent_at(rows.dirents, rows.old_parent(from)->Ok_0, name_of(from), 0);
            let id = rows.dirents[place].child;
            rows.node(id) == Some(NodeModel::Directory) ==> !rows.is_under(
                rows.new_leaf(to)->Ok_0.0,
                rows.dirents.len(),
                id,
            )
        }),
{
    let root = (rows.root, Kind::Directory);
    let parent = rows.old_parent(from)->Ok_0;
    let place = dirent_at(rows.dirents, parent, name_of(from), 0);
    let id = rows.dirents[place].child;
    let target = rows.new_leaf(to)->Ok_0.0;
    dirent_at_facts(rows.dirents, parent, name_of(from), 0);
    assert(rows.anchored(place));
    if rows.node(id) == Some(NodeModel::Directory) && rows.is_under(target, rows.dirents.len(), id) {
        match parent_of(to) {
            None => {
                assert(target == rows.root);
            },
            Some(above) => {
                last_index_facts(to, '/');
                if above.len() == 0 {
                    assert(to[0] == '/');
                }
                let names = split_at(above, '/');
                split_of_parent(to);
                let k = walk_passes(rows, names, rows.dirents.len(), id);
                let way = names.take(k);
                if from.len() == 0 {
                    names_are_not_empty(above);
                    let front = way.drop_last();
                    assert(front.push(way.last()) =~= way);
                    walk_of_prefix(rows, root, front, way.last(), 0);
                    let up = rows.walk(root, front, 0).unwrap().0;
                    dirent_at_facts(rows.dirents, up, way.last(), 0);
                    only_link(rows, dirent_at(rows.dirents, up, way.last(), 0));
                    only_link(rows, place);
                    assert(way.last() == name_of(from));
                    assert(way.last() == names[k - 1]);
                } else {
                    last_name_leads(rows, from);
                    one_way(rows, split_at(from, '/'), way, id);
                    assert(split_at(to, '/').take(k) =~= way);
                    longer_is_below(from, to, k);
                }
            },
        }
    }
}

proof fn moving_keeps_rooted(rows: TreeRows, from: Seq<char>, to: Seq<char>)
    requires
        rows.valid(),
        rows.rooted(),
        rows.decided(MutationModel::Rename { from, to }) is Ok,
    ensures
        mutated(rows, MutationModel::Rename { from, to }).rooted(),
{
    let parent = rows.old_parent(from)->Ok_0;
    let name = name_of(from);
    let (new_parent, new_name) = rows.new_leaf(to)->Ok_0;
    let after = rows.after(ChangeModel::Move { parent, name, new_parent, new_name });
    let place = dirent_at(rows.dirents, parent, name, 0);
    single(rows, rows.decided(MutationModel::Rename { from, to })->Ok_0);
    new_parent_hangs(rows, to);
    dirent_at_facts(rows.dirents, parent, name, 0);
    if place < rows.dirents.len() {
        let id = rows.dirents[place].child;
        let count = rows.dirents.len();
        assert(rows.anchored(place));
        assert forall|d: i64| d != id implies #[trigger] same_place(rows, after, d) by {
            let link = link_at(rows.dirents, d, 0);
            link_at_facts(rows.dirents, d, 0);
            assert(after.node(d) == rows.node(d));
            if link < rows.dirents.len() {
                assert forall|i: int| 0 <= i < link implies (#[trigger] after.dirents[i]).child != d by {
                    assert(after.dirents[i].child == rows.dirents[i].child);
                }
                link_at_is(after.dirents, d, 0, link);
            }
        }
        if rows.node(id) == Some(NodeModel::Directory) {
            moved_is_not_above(rows, from, to);
            climb_stays(rows, after, new_parent, count, id);
            only_link(rows, place);
            assert(after.node(id) == rows.node(id));
            link_at_facts(rows.dirents, id, 0);
            assert forall|i: int| 0 <= i < place implies (#[trigger] after.dirents[i]).child != id by {
                assert(after.dirents[i].child == rows.dirents[i].child);
            }
            link_at_is(after.dirents, id, 0, place);
            assert(after.climb(id, count + 1) is Some);
            assert forall|i: int| 0 <= i < after.dirents.len() implies after.hangs(
                (#[trigger] after.dirents[i]).parent,
            ) by {
                if i == place {
                    climb_is_short(after, new_parent, count);
                } else {
                    assert(rows.hangs(rows.dirents[i].parent));
                    climb_detours(rows, after, rows.dirents[i].parent, count, id, count + 1);
                    climb_is_short(after, rows.dirents[i].parent, count + (count + 1));
                }
            }
        } else {
            if rows.has_children(id) {
                let i = choose|i: int| 0 <= i < rows.dirents.len() && (#[trigger] rows.dirents[i]).parent == id;
                assert(rows.anchored(i));
            }
            assert forall|i: int| 0 <= i < after.dirents.len() implies after.hangs(
                (#[trigger] after.dirents[i]).parent,
            ) by {
                let up = after.dirents[i].parent;
                if i == place {
                    match parent_of(to) {
                        Some(above) => {
                            resolved_is_there(rows, above);
                        },
                        None => {},
                    }
                } else {
                    assert(rows.hangs(rows.dirents[i].parent));
                    parent_is_no_leaf(rows, i);
                }
                hanging_stays(rows, after, up, id);
            }
        }
    }
}

/// A mutation that is carried out leaves every name of the tree hanging from
/// its root: no directory is cut off, and none is moved to below itself.
/// Removing the empty path is left out: it takes the root away.
pub proof fn mutations_keep_the_tree_rooted(rows: TreeRows, mutation: MutationModel)
    requires
        rows.valid(),
        rows.rooted(),
        rows.next < i64::MAX,
        rows.decided(mutation) is Ok,
        mutation matches MutationModel::Rmdir { path } ==> path.len() > 0,
    ensures
        mutated(rows, mutation).rooted(),
{
    match mutation {
        MutationModel::Mkdir { path } => {
            adding_keeps_rooted(rows, path, NodeModel::Directory);
        },
        MutationModel::CreateFile { path, executable, planner, records } => {
            adding_keeps_rooted(rows, path, NodeModel::File { executable, planner, records });
        },
        MutationModel::Symlink { path, target } => {
            adding_keeps_rooted(rows, path, NodeModel::Symlink { target });
        },
        MutationModel::Rename { from, to } => {
            moving_keeps_rooted(rows, from, to);
        },
        MutationModel::Hardlink { path, target } => {
            single(rows, rows.decided(mutation)->Ok_0);
            linking_keeps_rooted(rows, path, rows.file_at(target)->Ok_0);
        },
        MutationModel::Unlink { path } => {
            resolved_is_there(rows, path);
            let id = rows.existing(path)->Ok_0.0;
            if rows.has_children(id) {
                let i = choose|i: int| 0 <= i < rows.dirents.len() && (#[trigger] rows.dirents[i]).parent == id;
                assert(rows.anchored(i));
            }
            removing_keeps_rooted(rows, path);
        },
        MutationModel::Rmdir { path } => {
            removing_keeps_rooted(rows, path);
        },
        _ => {
            single(rows, rows.decided(mutation)->Ok_0);
            file_change_keeps_rooted(rows, rows.decided(mutation)->Ok_0[0]);
        },
    }
}

/// The rows of a workspace that was just made: its root alone.
pub open spec fn new_rows(root: i64) -> TreeRows {
    TreeRows {
        root,
        next: (root + 1) as i64,
        inodes: seq![InodeModel { id: root, node: NodeModel::Directory }],
        dirents: Seq::empty(),
        leases: Seq::empty(),
    }
}

/// A workspace begins as a tree.
pub proof fn a_new_workspace_is_a_tree(root: i64)
    requires
        root < i64::MAX,
    ensures
        new_rows(root).valid(),
        new_rows(root).rooted(),
{
}

/// Releasing a lease leaves a tree. What goes with the lease is an inode that
/// no name leads to. The root is left out: a lease on it takes it along.
pub proof fn releases_keep_the_tree(rows: TreeRows, lease: int)
    requires
        rows.valid(),
        rows.rooted(),
        0 <= lease < rows.leases.len(),
        rows.leases[lease] != rows.root,
    ensures
        ({
            let id = rows.leases[lease];
            let rest = TreeRows { leases: rows.leases.remove(lease), ..rows };
            let after = if rest.is_held(id) {
                rest
            } else {
                rest.after(ChangeModel::DropInode { id })
            };
            after.valid() && after.rooted()
        }),
{
    let id = rows.leases[lease];
    let rest = TreeRows { leases: rows.leases.remove(lease), ..rows };
    assert forall|d: i64| #[trigger] rest.node(d) == rows.node(d) by {}
    assert forall|i: int| 0 <= i < rest.dirents.len() implies #[trigger] rest.anchored(i) by {
        assert(rows.anchored(i));
    }
    assert forall|i: int, j: int| 0 <= i < j < rest.dirents.len() implies #[trigger] rest.apart(i, j) by {
        assert(rows.apart(i, j));
    }
    assert(rest.valid());
    next_is_bare(rows);
    assert forall|d: i64| d != rows.next implies #[trigger] same_place(rows, rest, d) by {}
    assert forall|i: int| 0 <= i < rest.dirents.len() implies rest.hangs((#[trigger] rest.dirents[i]).parent) by {
        assert(rows.hangs(rows.dirents[i].parent));
        parent_is_no_leaf(rows, i);
        hanging_stays(rows, rest, rest.dirents[i].parent, rows.next);
    }
    if !rest.is_held(id) {
        let after = rest.after(ChangeModel::DropInode { id });
        link_at_facts(rows.dirents, id, 0);
        assert forall|i: int| 0 <= i < rest.dirents.len() implies (#[trigger] rest.dirents[i]).parent != id
            && rest.dirents[i].child != id by {
            assert(rest.hangs(rest.dirents[i].parent));
        }
        assert forall|d: i64| d != id implies #[trigger] after.node(d) == rest.node(d) by {
            node_of_dropped(rest, id, d);
        }
        node_of_dropped(rest, id, rows.root);
        assert forall|i: int| 0 <= i < after.dirents.len() implies #[trigger] after.anchored(i) by {
            assert(rest.anchored(i));
            assert(rest.dirents[i].child != id);
        }
        assert forall|i: int, j: int| 0 <= i < j < after.dirents.len() implies #[trigger] after.apart(i, j) by {
            assert(rest.apart(i, j));
            assert(rest.dirents[i].child != id);
        }
        assert forall|d: i64| d != id implies #[trigger] same_place(rest, after, d) by {
            assert(after.node(d) == rest.node(d));
        }
        assert forall|i: int| 0 <= i < after.dirents.len() implies after.hangs((#[trigger] after.dirents[i]).parent) by {
            assert(rest.hangs(rest.dirents[i].parent));
            assert(rest.dirents[i].parent != id);
            if rest.has_children(id) {
                let k = choose|k: int| 0 <= k < rest.dirents.len() && (#[trigger] rest.dirents[k]).parent == id;
                assert(rest.dirents[k].child != id);
            }
            hanging_stays(rest, after, after.dirents[i].parent, id);
        }
    }
}

// ---------------------------------------------------------------------------
// Staging
// ---------------------------------------------------------------------------

/// Whether a path is declared with that meaning. A file is declared as itself,
/// or as a hardlink.
pub open spec fn stages(declared: Declared, path: Seq<char>, node: NodeModel) -> bool {
    &&& declared.0 == path
    &&& match node {
        NodeModel::Directory => declared.1 is Directory,
        NodeModel::Symlink { target } => declared.1 == (PendingModel::Symlink { target }),
        NodeModel::File { executable, planner, records } => declared.1 is HardlinkTo || declared.1 == (
        PendingModel::File { executable, planner, contract: StampModel::Absent, records }),
    }
}

pub(crate) proof fn directory_is_staged(rows: TreeRows, i: int, upto: int) -> (k: int)
    requires
        0 <= i < upto <= rows.dirents.len(),
        rows.path_at(i) is Some,
        rows.node(rows.dirents[i].child) == Some(NodeModel::Directory),
    ensures
        0 <= k < rows.directories(upto).len(),
        stages(rows.directories(upto)[k], rows.path_at(i).unwrap(), NodeModel::Directory),
    decreases upto,
{
    if i == upto - 1 {
        rows.directories(upto - 1).len() as int
    } else {
        directory_is_staged(rows, i, upto - 1)
    }
}

pub(crate) proof fn symlink_is_staged(rows: TreeRows, i: int, upto: int) -> (k: int)
    requires
        0 <= i < upto <= rows.dirents.len(),
        rows.path_at(i) is Some,
        rows.node(rows.dirents[i].child) matches Some(NodeModel::Symlink { .. }),
    ensures
        0 <= k < rows.symlinks(upto).len(),
        stages(
            rows.symlinks(upto)[k],
            rows.path_at(i).unwrap(),
            rows.node(rows.dirents[i].child).unwrap(),
        ),
    decreases upto,
{
    if i == upto - 1 {
        rows.symlinks(upto - 1).len() as int
    } else {
        symlink_is_staged(rows, i, upto - 1)
    }
}

pub(crate) proof fn path_is_listed(rows: TreeRows, i: int, upto: int) -> (k: int)
    requires
        0 <= i < upto <= rows.dirents.len(),
        rows.path_at(i) is Some,
    ensures
        rows.paths_to(rows.dirents[i].child, upto).len() <= upto,
        0 <= k < rows.paths_to(rows.dirents[i].child, upto).len(),
        rows.paths_to(rows.dirents[i].child, upto)[k] == rows.path_at(i).unwrap(),
    decreases upto,
{
    paths_are_few(rows, rows.dirents[i].child, upto);
    if i == upto - 1 {
        rows.paths_to(rows.dirents[i].child, upto - 1).len() as int
    } else {
        path_is_listed(rows, i, upto - 1)
    }
}

pub(crate) proof fn paths_are_few(rows: TreeRows, id: i64, upto: int)
    requires
        0 <= upto,
    ensures
        rows.paths_to(id, upto).len() <= upto,
    decreases upto,
{
    if upto > 0 {
        paths_are_few(rows, id, upto - 1);
    }
}

/// The paths in order are the same paths.
pub(crate) proof fn ordered_keeps(paths: Seq<Seq<char>>, at: int) -> (k: int)
    requires
        0 <= at < paths.len() <= usize::MAX,
    ensures
        0 <= k < ordered(paths).len(),
        ordered(paths)[k] == paths[at],
{
    let keys = paths.map_values(|path: Seq<char>| encode_utf8(path));
    let order = keys_have_an_order(keys);
    assert(order.contains(at as usize));
    choose|k: int| 0 <= k < order.len() && order[k] == at as usize
}

/// How the path at `at`, among the paths of a file in order, is declared.
pub(crate) open spec fn declared_as(inode: InodeModel, paths: Seq<Seq<char>>, at: int) -> Declared {
    if at == 0 {
        (
            paths[0],
            PendingModel::File {
                executable: inode.node->File_executable,
                planner: inode.node->File_planner,
                contract: StampModel::Absent,
                records: inode.node->File_records,
            },
        )
    } else {
        (paths[at], PendingModel::HardlinkTo { target: paths[0] })
    }
}

pub(crate) proof fn listed_is_staged(rows: TreeRows, place: int, at: int, upto: int) -> (k: int)
    requires
        0 <= place < upto <= rows.inodes.len(),
        rows.inodes[place].node is File,
        0 <= at < ordered(rows.paths_to(rows.inodes[place].id, rows.dirents.len() as int)).len(),
    ensures
        0 <= k < rows.files(upto).len(),
        rows.files(upto)[k] == declared_as(
            rows.inodes[place],
            ordered(rows.paths_to(rows.inodes[place].id, rows.dirents.len() as int)),
            at,
        ),
    decreases upto,
{
    let before = rows.files(upto - 1);
    let inode = rows.inodes[upto - 1];
    let paths = ordered(rows.paths_to(inode.id, rows.dirents.len() as int));
    if place < upto - 1 {
        let k = listed_is_staged(rows, place, at, upto - 1);
        assert(rows.files(upto)[k] == before[k]) by {
            match inode.node {
                NodeModel::File { executable, planner, records } if paths.len() > 0 => {
                    let carrier = before.push(
                        (
                            paths[0],
                            PendingModel::File { executable, planner, contract: StampModel::Absent, records },
                        ),
                    );
                    assert(rows.files(upto) == carrier + hardlinks(paths));
                },
                _ => {},
            }
        }
        k
    } else if at == 0 {
        before.len() as int
    } else {
        assert(hardlinks(paths)[at - 1] == declared_as(inode, paths, at));
        before.len() + at
    }
}

proof fn file_is_staged(rows: TreeRows, i: int, place: int) -> (k: int)
    requires
        0 <= i < rows.dirents.len() <= usize::MAX,
        rows.path_at(i) is Some,
        0 <= place < rows.inodes.len(),
        rows.inodes[place].id == rows.dirents[i].child,
        rows.inodes[place].node is File,
    ensures
        0 <= k < rows.files(rows.inodes.len() as int).len(),
        stages(
            rows.files(rows.inodes.len() as int)[k],
            rows.path_at(i).unwrap(),
            rows.inodes[place].node,
        ),
{
    let listed = path_is_listed(rows, i, rows.dirents.len() as int);
    let at = ordered_keeps(
        rows.paths_to(rows.inodes[place].id, rows.dirents.len() as int),
        listed,
    );
    listed_is_staged(rows, place, at, rows.inodes.len() as int)
}

/// Every name of a tree is staged under its path: nothing that a workspace
/// holds is missing from what is sealed.
pub proof fn every_name_is_staged(rows: TreeRows, i: int)
    requires
        rows.valid(),
        rows.rooted(),
        0 <= i < rows.dirents.len() <= usize::MAX,
    ensures
        rows.path_at(i) is Some,
        exists|k: int|
            0 <= k < rows.declared().len() && stages(
                #[trigger] rows.declared()[k],
                rows.path_at(i).unwrap(),
                rows.node(rows.dirents[i].child).unwrap(),
            ),
{
    let count = rows.dirents.len() as int;
    let directories = rows.directories(count);
    let symlinks = rows.symlinks(count);
    let id = rows.dirents[i].child;
    assert(rows.hangs(rows.dirents[i].parent));
    assert(rows.anchored(i));
    match rows.node(id).unwrap() {
        NodeModel::Directory => {
            let k = directory_is_staged(rows, i, count);
            assert(rows.declared()[k] == directories[k]);
        },
        NodeModel::Symlink { .. } => {
            let k = symlink_is_staged(rows, i, count);
            assert(rows.declared()[directories.len() + k] == symlinks[k]);
        },
        NodeModel::File { .. } => {
            inode_at_facts(rows.inodes, id, 0);
            let place = inode_at(rows.inodes, id, 0);
            let k = file_is_staged(rows, i, place);
            assert(rows.declared()[directories.len() + symlinks.len() + k] == rows.files(
                rows.inodes.len() as int,
            )[k]);
        },
    }
}

} // verus!
