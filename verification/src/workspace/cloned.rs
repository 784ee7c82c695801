//! A workspace made out of a snapshot holds what the snapshot holds.

use super::laws::{
    dirent_at_facts, inode_at_facts, mutated, mutations_keep_the_tree_valid, node_of_added, single,
    split_of_parent,
};
use super::rooted::{
    a_new_workspace_is_a_tree, climb_is_settled, mutations_keep_the_tree_rooted, named_hangs, new_rows,
    only_link, text_of_parent,
};
use super::seal::mutation_of;
use super::tree::{dirent_at, name_of, Kind, NodeModel, TreeRows};
use super::MutationModel;
use crate::text::{
    bytes_less, bytes_less_irreflexive, bytes_less_transitive, encode_utf8_concat, split_at,
};
use crate::tfm1::decode::{directories_of, paths_of};
use crate::tfm1::laws::{carrier_of, one_carrier, valid, valid_entry};
use crate::tfm1::path::{folded, path_error};
use crate::tfm1::tree::parent_of;
use crate::tfm1::{files_before, EntryModel, SnapshotModel};
use vstd::prelude::*;
use vstd::utf8::encode_utf8;

verus! {

/// The rows after a mutation, if it is carried out.
#[verifier::opaque]
pub open spec fn carried_out(rows: TreeRows, mutation: MutationModel) -> Option<TreeRows> {
    match rows.decided(mutation) {
        Ok(_) => Some(mutated(rows, mutation)),
        Err(_) => None,
    }
}

/// The rows after the first `upto` mutations of a batch, if all are carried
/// out.
pub open spec fn all_carried_out(rows: TreeRows, batch: Seq<MutationModel>, upto: int) -> Option<TreeRows>
    decreases upto,
{
    if upto <= 0 {
        Some(rows)
    } else {
        match all_carried_out(rows, batch, upto - 1) {
            Some(before) => carried_out(before, batch[upto - 1]),
            None => None,
        }
    }
}

/// The mutations that make a snapshot's tree.
pub open spec fn batch_of(entries: Seq<(Seq<char>, EntryModel)>) -> Seq<MutationModel> {
    Seq::new(entries.len(), |i: int| mutation_of(entries, i))
}

/// The name at `i` leads to what the entry at `i` is.
pub open spec fn mirrors(rows: TreeRows, entries: Seq<(Seq<char>, EntryModel)>, i: int) -> bool {
    let child = rows.dirents[i].child;
    match entries[i].1 {
        EntryModel::Directory => rows.node(child) == Some(NodeModel::Directory),
        EntryModel::File { executable, body } => rows.node(child) == Some(
            NodeModel::File { executable, planner: body.planner(), records: body.run() },
        ),
        EntryModel::Symlink { target } => rows.node(child) == Some(NodeModel::Symlink { target }),
        EntryModel::Hardlink { ordinal } => child == rows.dirents[carrier_of(entries, ordinal)].child,
    }
}

/// No two names among the first `upto` lead to one inode, but for hardlinks.
pub open spec fn kept_apart(rows: TreeRows, entries: Seq<(Seq<char>, EntryModel)>, upto: int) -> bool {
    forall|j: int, k: int|
        0 <= j < k < upto && !(entries[k].1 is Hardlink) ==> (#[trigger] rows.dirents[j]).child != (
        #[trigger] rows.dirents[k]).child
}

/// The place of the entry that is the directory above the entry at `i`.
spec fn above(entries: Seq<(Seq<char>, EntryModel)>, i: int) -> int {
    choose|k: int|
        0 <= k < entries.len() && (#[trigger] entries[k]).0 == parent_of(entries[i].0).unwrap()
            && entries[k].1 is Directory
}

/// The name at `i` is that of the entry at `i`, and stands where the entry does.
spec fn placed(rows: TreeRows, entries: Seq<(Seq<char>, EntryModel)>, i: int) -> bool {
    &&& rows.dirents[i].name == name_of(entries[i].0)
    &&& rows.dirents[i].parent == match parent_of(entries[i].0) {
        None => rows.root,
        Some(_) => rows.dirents[above(entries, i)].child,
    }
}

/// The rows hold the first `i` entries.
#[verifier::opaque]
spec fn follows(rows: TreeRows, entries: Seq<(Seq<char>, EntryModel)>, root: i64, i: int) -> bool {
    &&& rows.root == root
    &&& rows.dirents.len() == i
    &&& root < rows.next <= root + 1 + i
    &&& rows.valid()
    &&& rows.rooted()
    &&& forall|j: int| 0 <= j < i ==> #[trigger] placed(rows, entries, j)
    &&& forall|j: int| 0 <= j < i ==> #[trigger] mirrors(rows, entries, j)
    &&& kept_apart(rows, entries, i)
}

// ---------------------------------------------------------------------------
// Entries
// ---------------------------------------------------------------------------

/// A snapshot is valid.
#[verifier::opaque]
pub(crate) open spec fn sound(snapshot: SnapshotModel) -> bool {
    valid(snapshot)
}

pub(crate) proof fn sound_paths(snapshot: SnapshotModel, i: int)
    requires
        sound(snapshot),
        0 <= i < snapshot.entries.len(),
    ensures
        path_error(snapshot.entries[i].0) is None,
        valid_entry(snapshot.entries[i].1, files_before(snapshot.entries, i)),
{
    reveal(sound);
}

pub(crate) proof fn sound_order(snapshot: SnapshotModel, i: int, j: int)
    requires
        sound(snapshot),
        0 <= i < j < snapshot.entries.len(),
    ensures
        bytes_less(encode_utf8(snapshot.entries[i].0), encode_utf8(snapshot.entries[j].0)),
        folded(snapshot.entries[i].0) != folded(snapshot.entries[j].0),
{
    reveal(sound);
    let paths = paths_of(snapshot.entries);
    assert(bytes_less(encode_utf8(paths[i]), encode_utf8(paths[j])));
    let lower = paths.map_values(|path: Seq<char>| folded(path));
    assert(lower.no_duplicates());
    assert(lower[i] != lower[j]);
}

proof fn sound_parents(snapshot: SnapshotModel, i: int) -> (k: int)
    requires
        sound(snapshot),
        0 <= i < snapshot.entries.len(),
        parent_of(snapshot.entries[i].0) is Some,
    ensures
        0 <= k < snapshot.entries.len(),
        snapshot.entries[k].0 == parent_of(snapshot.entries[i].0).unwrap(),
        snapshot.entries[k].1 is Directory,
{
    reveal(sound);
    let paths = paths_of(snapshot.entries);
    let directories = directories_of(snapshot.entries);
    assert(crate::tfm1::tree::rooted(paths, directories, paths[i]));
    let parent = parent_of(snapshot.entries[i].0).unwrap();
    choose|k: int| 0 <= k < paths.len() && #[trigger] paths[k] == parent && directories[k]
}

proof fn longer_is_later(a: Seq<u8>, b: Seq<u8>)
    requires
        b.len() > 0,
    ensures
        bytes_less(a, a + b),
    decreases a.len(),
{
    if a.len() > 0 {
        longer_is_later(a.drop_first(), b);
        assert((a + b).drop_first() =~= a.drop_first() + b);
        assert((a + b)[0] == a[0]);
    } else {
        assert(a + b =~= b);
    }
}

proof fn above_is_before(snapshot: SnapshotModel, i: int)
    requires
        sound(snapshot),
        0 <= i < snapshot.entries.len(),
        parent_of(snapshot.entries[i].0) is Some,
    ensures
        ({
            let k = above(snapshot.entries, i);
            &&& 0 <= k < i
            &&& snapshot.entries[k].0 == parent_of(snapshot.entries[i].0).unwrap()
            &&& snapshot.entries[k].1 is Directory
        }),
{
    let entries = snapshot.entries;
    let path = entries[i].0;
    let parent = parent_of(path).unwrap();
    let j = sound_parents(snapshot, i);
    assert(entries[j].0 == parent && entries[j].1 is Directory);
    let k = above(entries, i);
    assert(0 <= k < entries.len() && entries[k].0 == parent && entries[k].1 is Directory);
    text_of_parent(path);
    let rest = seq!['/'] + name_of(path);
    assert(path =~= parent + rest);
    encode_utf8_concat(parent, rest);
    encode_utf8_concat(seq!['/'], name_of(path));
    slash_takes_a_byte();
    longer_is_later(encode_utf8(parent), encode_utf8(rest));
    bytes_less_irreflexive(encode_utf8(parent));
    if k == i {
        assert(parent.len() == path.len());
    } else if i < k {
        sound_order(snapshot, i, k);
        bytes_less_transitive(encode_utf8(parent), encode_utf8(path), encode_utf8(parent));
    }
}

proof fn slash_takes_a_byte()
    ensures
        encode_utf8(seq!['/']).len() > 0,
{
    if encode_utf8(seq!['/']).len() == 0 {
        vstd::utf8::encode_utf8_decode_utf8(seq!['/']);
        vstd::utf8::encode_utf8_decode_utf8(Seq::<char>::empty());
        assert(encode_utf8(seq!['/']) =~= encode_utf8(Seq::<char>::empty()));
        assert(seq!['/'].len() == 1);
    }
}

proof fn some_file_has_the_number(entries: Seq<(Seq<char>, EntryModel)>, ordinal: u64, upto: int) -> (c: int)
    requires
        0 <= upto <= entries.len(),
        ordinal < files_before(entries, upto),
    ensures
        0 <= c < upto,
        entries[c].1 is File,
        files_before(entries, c) == ordinal,
    decreases upto,
{
    if ordinal < files_before(entries, upto - 1) {
        some_file_has_the_number(entries, ordinal, upto - 1)
    } else {
        upto - 1
    }
}

pub(crate) proof fn carrier_is_before(snapshot: SnapshotModel, i: int)
    requires
        sound(snapshot),
        0 <= i < snapshot.entries.len(),
        snapshot.entries[i].1 is Hardlink,
    ensures
        ({
            let ordinal = snapshot.entries[i].1->ordinal;
            let c = carrier_of(snapshot.entries, ordinal);
            &&& 0 <= c < i
            &&& snapshot.entries[c].1 is File
            &&& files_before(snapshot.entries, c) == ordinal
        }),
{
    let entries = snapshot.entries;
    let ordinal = entries[i].1->ordinal;
    sound_paths(snapshot, i);
    let c = some_file_has_the_number(entries, ordinal, i);
    one_carrier(entries, ordinal, c);
}

/// What the entry at `i` is.
pub open spec fn entry_kind(entry: EntryModel) -> Kind {
    match entry {
        EntryModel::Directory => Kind::Directory,
        EntryModel::Symlink { .. } => Kind::Symlink,
        _ => Kind::File,
    }
}

proof fn kind_of_name(snapshot: SnapshotModel, rows: TreeRows, root: i64, i: int, j: int)
    requires
        sound(snapshot),
        0 <= j < i <= snapshot.entries.len(),
        follows(rows, snapshot.entries, root, i),
    ensures
        rows.node(rows.dirents[j].child) is Some,
        rows.node(rows.dirents[j].child).unwrap().kind() == entry_kind(snapshot.entries[j].1),
        rows.dirents[j].child != root,
{
    reveal(follows);
    assert(mirrors(rows, snapshot.entries, j));
    assert(rows.anchored(j));
    if snapshot.entries[j].1 is Hardlink {
        carrier_is_before(snapshot, j);
        let c = carrier_of(snapshot.entries, snapshot.entries[j].1->ordinal);
        assert(mirrors(rows, snapshot.entries, c));
    }
}

// ---------------------------------------------------------------------------
// Paths in the workspace
// ---------------------------------------------------------------------------

proof fn walk_then(rows: TreeRows, from: (i64, Kind), names: Seq<Seq<char>>, last: Seq<char>, at: int)
    requires
        0 <= at <= names.len(),
        rows.walk(from, names, at) is Some,
        rows.walk(from, names, at).unwrap().1 == Kind::Directory,
    ensures
        rows.walk(from, names.push(last), at) == rows.child(rows.walk(from, names, at).unwrap().0, last),
    decreases names.len() - at,
{
    let longer = names.push(last);
    if at < names.len() {
        assert(longer[at] == names[at]);
        walk_then(rows, rows.child(from.0, names[at]).unwrap(), names, last, at + 1);
    } else {
        assert(longer[at] == last);
        match rows.child(from.0, last) {
            Some(found) => {
                assert(rows.walk(found, longer, at + 1) == Some(found));
            },
            None => {},
        }
    }
}

/// A name is found where it stands.
proof fn name_is_found(rows: TreeRows, place: int)
    requires
        rows.valid(),
        0 <= place < rows.dirents.len(),
    ensures
        dirent_at(rows.dirents, rows.dirents[place].parent, rows.dirents[place].name, 0) == place,
{
    let parent = rows.dirents[place].parent;
    let name = rows.dirents[place].name;
    dirent_at_facts(rows.dirents, parent, name, 0);
    let at = dirent_at(rows.dirents, parent, name, 0);
    if at < place {
        assert(rows.apart(at, place));
    }
}

/// The path of an entry leads to what its name leads to.
proof fn path_leads(snapshot: SnapshotModel, rows: TreeRows, root: i64, i: int, j: int)
    requires
        sound(snapshot),
        0 <= j < i <= snapshot.entries.len(),
        follows(rows, snapshot.entries, root, i),
    ensures
        rows.existing(snapshot.entries[j].0) == Ok::<(i64, Kind), super::ErrorModel>(
            (rows.dirents[j].child, entry_kind(snapshot.entries[j].1)),
        ),
    decreases j,
{
    reveal(follows);
    let entries = snapshot.entries;
    let path = entries[j].0;
    let from = (root, Kind::Directory);
    sound_paths(snapshot, j);
    assert(placed(rows, entries, j));
    kind_of_name(snapshot, rows, root, i, j);
    name_is_found(rows, j);
    split_of_parent(path);
    assert(rows.child(rows.dirents[j].parent, name_of(path)) == Some(
        (rows.dirents[j].child, entry_kind(entries[j].1)),
    ));
    match parent_of(path) {
        None => {
            let none = Seq::<Seq<char>>::empty();
            assert(none.push(path) =~= seq![path]);
            walk_then(rows, from, none, path, 0);
        },
        Some(parent) => {
            above_is_before(snapshot, j);
            let k = above(entries, j);
            path_leads(snapshot, rows, root, i, k);
            sound_paths(snapshot, k);
            walk_then(rows, from, split_at(parent, '/'), name_of(path), 0);
        },
    }
}

/// A directory's path is the path of its entry.
proof fn climb_leads(snapshot: SnapshotModel, rows: TreeRows, root: i64, i: int, j: int)
    requires
        sound(snapshot),
        0 <= j < i <= snapshot.entries.len(),
        follows(rows, snapshot.entries, root, i),
    ensures
        rows.path_at(j) == Some(snapshot.entries[j].0),
    decreases j,
{
    reveal(follows);
    let entries = snapshot.entries;
    let path = entries[j].0;
    assert(placed(rows, entries, j));
    assert(rows.hangs(rows.dirents[j].parent));
    text_of_parent(path);
    split_of_parent(path);
    match parent_of(path) {
        None => {},
        Some(parent) => {
            above_is_before(snapshot, j);
            let k = above(entries, j);
            climb_leads(snapshot, rows, root, i, k);
            kind_of_name(snapshot, rows, root, i, k);
            assert(mirrors(rows, entries, k));
            only_link(rows, k);
            let up = rows.dirents[k].child;
            let count = rows.dirents.len();
            assert(rows.climb(up, count + 1) == rows.path_at(k));
            named_hangs(rows, k);
            climb_is_settled(rows, up, count + 1);
            sound_paths(snapshot, k);
            assert(super::stage::below(parent, name_of(path)) =~= path) by {
                reveal_strlit("/");
                assert(parent.push('/') =~= parent + "/"@);
            }
        },
    }
}

// ---------------------------------------------------------------------------
// One entry more
// ---------------------------------------------------------------------------

proof fn folded_concat(a: Seq<char>, b: Seq<char>)
    ensures
        folded(a + b) == folded(a) + folded(b),
    decreases b.len(),
{
    if b.len() == 0 {
        assert(a + b =~= a);
        assert(folded(a) + folded(b) =~= folded(a));
    } else {
        assert((a + b).drop_last() =~= a + b.drop_last());
        assert((a + b).last() == b.last());
        folded_concat(a, b.drop_last());
        assert(folded(a + b) =~= folded(a) + folded(b));
    }
}

/// The directory that the entry at `i` goes into.
spec fn directory_of(rows: TreeRows, entries: Seq<(Seq<char>, EntryModel)>, i: int) -> i64 {
    match parent_of(entries[i].0) {
        None => rows.root,
        Some(_) => rows.dirents[above(entries, i)].child,
    }
}

/// No entry before it stands in the same directory under the same name but for
/// its case.
proof fn siblings_differ(snapshot: SnapshotModel, rows: TreeRows, root: i64, i: int, j: int)
    requires
        sound(snapshot),
        0 <= j < i < snapshot.entries.len(),
        follows(rows, snapshot.entries, root, i),
        rows.dirents[j].parent == directory_of(rows, snapshot.entries, i),
    ensures
        folded(rows.dirents[j].name) != folded(name_of(snapshot.entries[i].0)),
{
    reveal(follows);
    let entries = snapshot.entries;
    let (mine, other) = (entries[i].0, entries[j].0);
    assert(placed(rows, entries, j));
    split_of_parent(mine);
    split_of_parent(other);
    text_of_parent(mine);
    text_of_parent(other);
    if parent_of(other) is Some {
        above_is_before(snapshot, j);
        kind_of_name(snapshot, rows, root, i, above(entries, j));
        assert(mirrors(rows, entries, above(entries, j)));
        only_link(rows, above(entries, j));
    }
    if parent_of(mine) is Some {
        above_is_before(snapshot, i);
        kind_of_name(snapshot, rows, root, i, above(entries, i));
        assert(mirrors(rows, entries, above(entries, i)));
        only_link(rows, above(entries, i));
        let front = parent_of(mine).unwrap().push('/');
        folded_concat(front, name_of(mine));
        folded_concat(front, name_of(other));
    }
    sound_order(snapshot, j, i);
}

proof fn leaf_is_free(snapshot: SnapshotModel, rows: TreeRows, root: i64, i: int)
    requires
        sound(snapshot),
        0 <= i < snapshot.entries.len(),
        follows(rows, snapshot.entries, root, i),
    ensures
        rows.new_leaf(snapshot.entries[i].0) == Ok::<(i64, Seq<char>), super::ErrorModel>(
            (directory_of(rows, snapshot.entries, i), name_of(snapshot.entries[i].0)),
        ),
{
    reveal(follows);
    let entries = snapshot.entries;
    let path = entries[i].0;
    let parent = directory_of(rows, entries, i);
    let name = name_of(path);
    sound_paths(snapshot, i);
    if parent_of(path) is Some {
        above_is_before(snapshot, i);
        path_leads(snapshot, rows, root, i, above(entries, i));
    }
    assert(rows.new_parent(path) == Ok::<i64, super::ErrorModel>(parent));
    dirent_at_facts(rows.dirents, parent, name, 0);
    let at = dirent_at(rows.dirents, parent, name, 0);
    if at < rows.dirents.len() {
        siblings_differ(snapshot, rows, root, i, at);
    }
    if rows.collides(parent, name) {
        let j = choose|j: int|
            0 <= j < rows.dirents.len() && (#[trigger] rows.dirents[j]).parent == parent && folded(
                rows.dirents[j].name,
            ) == folded(name);
        siblings_differ(snapshot, rows, root, i, j);
    }
}

/// The entries before keep their names and what these lead to.
proof fn earlier_stay(snapshot: SnapshotModel, rows: TreeRows, after: TreeRows, root: i64, i: int)
    requires
        sound(snapshot),
        0 <= i < snapshot.entries.len(),
        follows(rows, snapshot.entries, root, i),
        after.root == root,
        after.dirents.len() == i + 1,
        forall|j: int| 0 <= j < i ==> (#[trigger] after.dirents[j]) == rows.dirents[j],
        forall|id: i64| rows.node(id) is Some ==> #[trigger] after.node(id) == rows.node(id),
        after.dirents[i].name == name_of(snapshot.entries[i].0),
        after.dirents[i].parent == directory_of(rows, snapshot.entries, i),
    ensures
        forall|j: int| 0 <= j <= i ==> #[trigger] placed(after, snapshot.entries, j),
        forall|j: int| 0 <= j < i ==> #[trigger] mirrors(after, snapshot.entries, j),
{
    reveal(follows);
    let entries = snapshot.entries;
    assert forall|j: int| 0 <= j <= i implies #[trigger] placed(after, entries, j) by {
        if j < i {
            assert(placed(rows, entries, j));
        }
        if parent_of(entries[j].0) is Some {
            above_is_before(snapshot, j);
        }
    }
    assert forall|j: int| 0 <= j < i implies #[trigger] mirrors(after, entries, j) by {
        assert(mirrors(rows, entries, j));
        kind_of_name(snapshot, rows, root, i, j);
        if entries[j].1 is Hardlink {
            carrier_is_before(snapshot, j);
        }
    }
}

proof fn entry_is_added(snapshot: SnapshotModel, rows: TreeRows, root: i64, i: int, node: NodeModel)
    requires
        sound(snapshot),
        0 <= i < snapshot.entries.len(),
        root + 2 + i < i64::MAX,
        follows(rows, snapshot.entries, root, i),
        !(snapshot.entries[i].1 is Hardlink),
        rows.decided(mutation_of(snapshot.entries, i)) == rows.adding(snapshot.entries[i].0, node),
        match snapshot.entries[i].1 {
            EntryModel::Directory => node == NodeModel::Directory,
            EntryModel::File { executable, body } => node == (NodeModel::File {
                executable,
                planner: body.planner(),
                records: body.run(),
            }),
            EntryModel::Symlink { target } => node == (NodeModel::Symlink { target }),
            EntryModel::Hardlink { .. } => false,
        },
    ensures
        rows.decided(mutation_of(snapshot.entries, i)) is Ok,
        follows(mutated(rows, mutation_of(snapshot.entries, i)), snapshot.entries, root, i + 1),
{
    reveal(follows);
    let entries = snapshot.entries;
    let mutation = mutation_of(entries, i);
    leaf_is_free(snapshot, rows, root, i);
    let changes = rows.adding(entries[i].0, node)->Ok_0;
    let after = mutated(rows, mutation);
    let added = rows.after(changes[0]);
    reveal_with_fuel(TreeRows::after_all, 3);
    assert(after == added.after(changes[1]));
    mutations_keep_the_tree_valid(rows, mutation);
    mutations_keep_the_tree_rooted(rows, mutation);
    assert forall|id: i64| #[trigger] after.node(id) == (if id == rows.next {
        Some(node)
    } else {
        rows.node(id)
    }) by {
        node_of_added(rows, rows.next, node, id);
        assert(after.node(id) == added.node(id));
    }
    assert forall|id: i64| rows.node(id) is Some implies #[trigger] after.node(id) == rows.node(id) by {
        inode_at_facts(rows.inodes, id, 0);
    }
    earlier_stay(snapshot, rows, after, root, i);
    assert(after.node(after.dirents[i].child) == Some(node));
    assert(mirrors(after, entries, i));
    assert forall|j: int| 0 <= j < i implies (#[trigger] after.dirents[j]).child != rows.next by {
        assert(rows.anchored(j));
        inode_at_facts(rows.inodes, rows.dirents[j].child, 0);
    }
}

proof fn link_is_added(snapshot: SnapshotModel, rows: TreeRows, root: i64, i: int)
    requires
        sound(snapshot),
        0 <= i < snapshot.entries.len(),
        root + 2 + i < i64::MAX,
        follows(rows, snapshot.entries, root, i),
        snapshot.entries[i].1 is Hardlink,
    ensures
        rows.decided(mutation_of(snapshot.entries, i)) is Ok,
        follows(mutated(rows, mutation_of(snapshot.entries, i)), snapshot.entries, root, i + 1),
{
    reveal(follows);
    let entries = snapshot.entries;
    let mutation = mutation_of(entries, i);
    let c = carrier_of(entries, entries[i].1->ordinal);
    carrier_is_before(snapshot, i);
    path_leads(snapshot, rows, root, i, c);
    leaf_is_free(snapshot, rows, root, i);
    let after = mutated(rows, mutation);
    single(rows, rows.decided(mutation)->Ok_0);
    mutations_keep_the_tree_valid(rows, mutation);
    mutations_keep_the_tree_rooted(rows, mutation);
    assert forall|id: i64| rows.node(id) is Some implies #[trigger] after.node(id) == rows.node(id) by {}
    earlier_stay(snapshot, rows, after, root, i);
    assert(mirrors(after, entries, i));
}

proof fn entry_follows(snapshot: SnapshotModel, rows: TreeRows, root: i64, i: int)
    requires
        sound(snapshot),
        0 <= i < snapshot.entries.len(),
        root + 2 + i < i64::MAX,
        follows(rows, snapshot.entries, root, i),
    ensures
        carried_out(rows, mutation_of(snapshot.entries, i)) matches Some(after) && follows(
            after,
            snapshot.entries,
            root,
            i + 1,
        ),
{
    let entries = snapshot.entries;
    reveal(carried_out);
    sound_paths(snapshot, i);
    match entries[i].1 {
        EntryModel::Directory => {
            entry_is_added(snapshot, rows, root, i, NodeModel::Directory);
        },
        EntryModel::File { executable, body } => {
            entry_is_added(
                snapshot,
                rows,
                root,
                i,
                NodeModel::File { executable, planner: body.planner(), records: body.run() },
            );
        },
        EntryModel::Symlink { target } => {
            entry_is_added(snapshot, rows, root, i, NodeModel::Symlink { target });
        },
        EntryModel::Hardlink { .. } => {
            link_is_added(snapshot, rows, root, i);
        },
    }
}

proof fn entries_follow(snapshot: SnapshotModel, root: i64, upto: int)
    requires
        sound(snapshot),
        0 <= upto <= snapshot.entries.len(),
        root + 2 + snapshot.entries.len() < i64::MAX,
    ensures
        all_carried_out(new_rows(root), batch_of(snapshot.entries), upto) matches Some(rows) && follows(
            rows,
            snapshot.entries,
            root,
            upto,
        ),
    decreases upto,
{
    if upto == 0 {
        reveal(follows);
        a_new_workspace_is_a_tree(root);
    } else {
        let batch = batch_of(snapshot.entries);
        entries_follow(snapshot, root, upto - 1);
        let rows = all_carried_out(new_rows(root), batch, upto - 1).unwrap();
        assert(batch[upto - 1] == mutation_of(snapshot.entries, upto - 1));
        entry_follows(snapshot, rows, root, upto - 1);
    }
}

/// The rows hold a snapshot's entries and nothing else: one name for each, at
/// its path, that leads to what the entry is, and to no inode that another name
/// leads to unless it is a hardlink to it.
pub open spec fn holds(rows: TreeRows, entries: Seq<(Seq<char>, EntryModel)>) -> bool {
    &&& rows.valid()
    &&& rows.rooted()
    &&& rows.dirents.len() == entries.len()
    &&& forall|i: int| 0 <= i < entries.len() ==> #[trigger] rows.path_at(i) == Some(entries[i].0)
    &&& forall|i: int| 0 <= i < entries.len() ==> #[trigger] mirrors(rows, entries, i)
    &&& kept_apart(rows, entries, entries.len() as int)
    &&& forall|i: int|
        0 <= i < entries.len() ==> rows.existing((#[trigger] entries[i]).0) == Ok::<
            (i64, Kind),
            super::ErrorModel,
        >((rows.dirents[i].child, entry_kind(entries[i].1)))
}

proof fn followed(snapshot: SnapshotModel, rows: TreeRows, root: i64)
    requires
        sound(snapshot),
        follows(rows, snapshot.entries, root, snapshot.entries.len() as int),
    ensures
        holds(rows, snapshot.entries),
{
    let entries = snapshot.entries;
    let count = entries.len() as int;
    reveal(follows);
    assert forall|i: int| 0 <= i < entries.len() implies #[trigger] rows.path_at(i) == Some(entries[i].0) by {
        climb_leads(snapshot, rows, root, count, i);
    }
    assert forall|i: int| 0 <= i < entries.len() implies rows.existing((#[trigger] entries[i]).0) == Ok::<
        (i64, Kind),
        super::ErrorModel,
    >((rows.dirents[i].child, entry_kind(entries[i].1))) by {
        path_leads(snapshot, rows, root, count, i);
    }
}

/// A new workspace into which a valid snapshot is cloned takes every entry, and
/// then holds the snapshot's entries and nothing else.
pub proof fn a_clone_holds_the_snapshot(snapshot: SnapshotModel, root: i64)
    requires
        valid(snapshot),
        root + 2 + snapshot.entries.len() < i64::MAX,
    ensures
        all_carried_out(
            new_rows(root),
            batch_of(snapshot.entries),
            snapshot.entries.len() as int,
        ) matches Some(rows) && holds(rows, snapshot.entries),
{
    assert(sound(snapshot)) by {
        reveal(sound);
    }
    entries_follow(snapshot, root, snapshot.entries.len() as int);
    let rows = all_carried_out(
        new_rows(root),
        batch_of(snapshot.entries),
        snapshot.entries.len() as int,
    ).unwrap();
    followed(snapshot, rows, root);
}

} // verus!
