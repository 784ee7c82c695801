//! A workspace made out of a snapshot seals to that snapshot.

use super::cloned::{
    a_clone_holds_the_snapshot, all_carried_out, batch_of, carrier_is_before, holds, kept_apart, mirrors,
    sound, sound_order, sound_paths,
};
use super::laws::inode_at_facts;
use super::rooted::{
    directory_is_staged, listed_is_staged, new_rows, ordered_keeps, path_is_listed, paths_are_few,
    symlink_is_staged,
};
use super::stage::ordered;
use super::tree::{inode_at, TreeRows};
use crate::contract::StampModel;
use crate::planner::format_of_planner;
use crate::sort::{all_are_taken, keys_have_an_order, stands_before};
use crate::text::{bytes_less, bytes_less_irreflexive, bytes_less_transitive};
use crate::tfm1::builder::{
    canonical_entries, canonical_entry, carrier, carrier_from, carriers_before, carries, dangles,
    declared_error, declared_paths, finished, first_declared_error, first_file_error, is_path_order,
    path_encodings, place_of, resolved, resolved_entries, resolved_entry, root_of, staged,
    staged_error, staged_is, sum_error, tree_directories, tree_paths, BuilderModel, Declared,
    PendingModel, TreeModel,
};
use crate::tfm1::decode::{directories_of, paths_of};
use crate::tfm1::laws::{carrier_of, valid, valid_body};
use crate::tfm1::tree::tree_error;
use crate::tfm1::{
    files_before, record_sum, run_error_upto, BodyModel, EntryModel, RecordModel, SnapshotModel,
    Tfm1Error,
};
use vstd::prelude::*;
use vstd::utf8::encode_utf8;

verus! {

/// An entry without the contract of its tensor file. A workspace keeps no
/// contracts.
pub open spec fn unstamped(entry: EntryModel) -> EntryModel {
    match entry {
        EntryModel::File {
            executable,
            body: BodyModel::Tensor { format, logical_size, records, .. },
        } => EntryModel::File {
            executable,
            body: BodyModel::Tensor { format, contract: StampModel::Absent, logical_size, records },
        },
        _ => entry,
    }
}

pub open spec fn unstamped_entries(entries: Seq<(Seq<char>, EntryModel)>) -> Seq<(Seq<char>, EntryModel)> {
    entries.map_values(|pair: (Seq<char>, EntryModel)| (pair.0, unstamped(pair.1)))
}

/// How the entry at `k` is declared to a builder.
spec fn declaration(entries: Seq<(Seq<char>, EntryModel)>, k: int) -> Declared {
    (
        entries[k].0,
        match entries[k].1 {
            EntryModel::Directory => PendingModel::Directory,
            EntryModel::Symlink { target } => PendingModel::Symlink { target },
            EntryModel::File { executable, body } => PendingModel::File {
                executable,
                planner: body.planner(),
                contract: StampModel::Absent,
                records: body.run(),
            },
            EntryModel::Hardlink { ordinal } => PendingModel::HardlinkTo {
                target: entries[carrier_of(entries, ordinal)].0,
            },
        },
    )
}

spec fn is_of_an_entry(declared: Declared, entries: Seq<(Seq<char>, EntryModel)>) -> bool {
    exists|k: int| 0 <= k < entries.len() && declared == #[trigger] declaration(entries, k)
}

spec fn declarations(entries: Seq<(Seq<char>, EntryModel)>) -> Seq<Declared> {
    Seq::new(entries.len(), |k: int| declaration(entries, k))
}

// ---------------------------------------------------------------------------
// Counting
// ---------------------------------------------------------------------------

/// How many of the first `names` names lead to a file among the first `upto`
/// inodes.
spec fn listed(rows: TreeRows, names: int, upto: int) -> nat
    decreases upto,
{
    if upto <= 0 {
        0
    } else {
        listed(rows, names, upto - 1) + if rows.inodes[upto - 1].node is File {
            rows.paths_to(rows.inodes[upto - 1].id, names).len()
        } else {
            0
        }
    }
}

proof fn none_is_listed(rows: TreeRows, upto: int)
    ensures
        listed(rows, 0, upto) == 0,
    decreases upto,
{
    if upto > 0 {
        none_is_listed(rows, upto - 1);
    }
}

proof fn one_is_listed(rows: TreeRows, name: int, upto: int)
    requires
        rows.numbered(),
        0 <= name < rows.dirents.len(),
        rows.path_at(name) is Some,
        0 <= upto <= rows.inodes.len(),
    ensures
        ({
            let place = inode_at(rows.inodes, rows.dirents[name].child, 0);
            listed(rows, name + 1, upto) == listed(rows, name, upto) + if place < upto
                && rows.inodes[place].node is File {
                1nat
            } else {
                0nat
            }
        }),
    decreases upto,
{
    let child = rows.dirents[name].child;
    let place = inode_at(rows.inodes, child, 0);
    inode_at_facts(rows.inodes, child, 0);
    if upto > 0 {
        one_is_listed(rows, name, upto - 1);
        let last = rows.inodes[upto - 1];
        if last.id == child && place < upto - 1 {
            assert(rows.inodes[place].id < rows.inodes[upto - 1].id);
        }
        assert((last.id == child) == (place == upto - 1));
        if last.id == child {
            assert(rows.paths_to(last.id, name + 1) == rows.paths_to(last.id, name).push(
                rows.path_at(name).unwrap(),
            ));
        } else {
            assert(rows.paths_to(last.id, name + 1) == rows.paths_to(last.id, name));
        }
    }
}

/// Every name is a directory's, a symlink's or a file's.
proof fn names_are_counted(rows: TreeRows, names: int)
    requires
        rows.valid(),
        0 <= names <= rows.dirents.len(),
        forall|i: int| 0 <= i < rows.dirents.len() ==> #[trigger] rows.path_at(i) is Some,
    ensures
        rows.directories(names).len() + rows.symlinks(names).len() + listed(
            rows,
            names,
            rows.inodes.len() as int,
        ) == names,
    decreases names,
{
    let count = rows.inodes.len() as int;
    if names == 0 {
        none_is_listed(rows, count);
    } else {
        let name = names - 1;
        names_are_counted(rows, name);
        one_is_listed(rows, name, count);
        assert(rows.anchored(name));
        assert(rows.path_at(name) is Some);
        inode_at_facts(rows.inodes, rows.dirents[name].child, 0);
    }
}

proof fn ordered_are_as_many(paths: Seq<Seq<char>>)
    requires
        paths.len() <= usize::MAX,
    ensures
        ordered(paths).len() == paths.len(),
{
    keys_have_an_order(paths.map_values(|path: Seq<char>| encode_utf8(path)));
}

proof fn files_are_counted(rows: TreeRows, upto: int)
    requires
        rows.dirents.len() <= usize::MAX,
        0 <= upto <= rows.inodes.len(),
    ensures
        rows.files(upto).len() == listed(rows, rows.dirents.len() as int, upto),
    decreases upto,
{
    if upto > 0 {
        files_are_counted(rows, upto - 1);
        let id = rows.inodes[upto - 1].id;
        paths_are_few(rows, id, rows.dirents.len() as int);
        ordered_are_as_many(rows.paths_to(id, rows.dirents.len() as int));
    }
}

// ---------------------------------------------------------------------------
// What is declared
// ---------------------------------------------------------------------------

/// A path that leads to an inode is that of a name that does.
proof fn listed_is_named(rows: TreeRows, id: i64, upto: int, at: int) -> (i: int)
    requires
        0 <= upto,
        0 <= at < rows.paths_to(id, upto).len(),
    ensures
        0 <= i < upto,
        rows.dirents[i].child == id,
        rows.path_at(i) == Some(rows.paths_to(id, upto)[at]),
    decreases upto,
{
    if at < rows.paths_to(id, upto - 1).len() {
        listed_is_named(rows, id, upto - 1, at)
    } else {
        upto - 1
    }
}

/// A path in order is one of the paths.
proof fn ordered_is_given(paths: Seq<Seq<char>>, at: int) -> (i: int)
    requires
        paths.len() <= usize::MAX,
        0 <= at < ordered(paths).len(),
    ensures
        0 <= i < paths.len(),
        ordered(paths)[at] == paths[i],
{
    let order = keys_have_an_order(paths.map_values(|path: Seq<char>| encode_utf8(path)));
    order[at] as int
}

/// No path in order comes before the first.
proof fn first_is_least(paths: Seq<Seq<char>>, at: int)
    requires
        paths.len() <= usize::MAX,
        0 <= at < ordered(paths).len(),
    ensures
        !bytes_less(encode_utf8(ordered(paths)[at]), encode_utf8(ordered(paths)[0])),
{
    let keys = paths.map_values(|path: Seq<char>| encode_utf8(path));
    let order = keys_have_an_order(keys);
    let (a, b) = (encode_utf8(ordered(paths)[0]), encode_utf8(ordered(paths)[at]));
    assert(keys[order[0] as int] == a && keys[order[at] as int] == b);
    bytes_less_irreflexive(a);
    if at > 0 {
        assert(stands_before(keys, order[0] as int, order[at] as int));
        if bytes_less(b, a) {
            bytes_less_transitive(a, b, a);
        }
    }
}

/// The rows hold a sound snapshot, as many entries as a position can count.
#[verifier::opaque]
spec fn held(rows: TreeRows, snapshot: SnapshotModel) -> bool {
    &&& holds(rows, snapshot.entries)
    &&& sound(snapshot)
    &&& snapshot.entries.len() <= usize::MAX
}

proof fn held_entry(rows: TreeRows, snapshot: SnapshotModel, k: int)
    requires
        held(rows, snapshot),
        0 <= k < snapshot.entries.len(),
    ensures
        rows.dirents.len() == snapshot.entries.len() <= usize::MAX,
        rows.path_at(k) == Some(snapshot.entries[k].0),
        mirrors(rows, snapshot.entries, k),
        sound(snapshot),
{
    reveal(held);
}

proof fn held_apart(rows: TreeRows, snapshot: SnapshotModel, i: int, k: int)
    requires
        held(rows, snapshot),
        0 <= i < k < snapshot.entries.len(),
        snapshot.entries[k].1 is File,
    ensures
        rows.dirents[i].child != rows.dirents[k].child,
{
    reveal(held);
    assert(kept_apart(rows, snapshot.entries, snapshot.entries.len() as int));
}

proof fn rising(snapshot: SnapshotModel, i: int, j: int)
    requires
        sound(snapshot),
        0 <= i < j < snapshot.entries.len(),
    ensures
        bytes_less(encode_utf8(snapshot.entries[i].0), encode_utf8(snapshot.entries[j].0)),
        snapshot.entries[i].0 != snapshot.entries[j].0,
{
    sound_order(snapshot, i, j);
    bytes_less_irreflexive(encode_utf8(snapshot.entries[i].0));
}

/// The first path of a file is the path of its entry.
proof fn file_comes_first(snapshot: SnapshotModel, rows: TreeRows, k: int)
    requires
        held(rows, snapshot),
        0 <= k < snapshot.entries.len(),
        snapshot.entries[k].1 is File,
    ensures
        ({
            let paths = ordered(rows.paths_to(rows.dirents[k].child, rows.dirents.len() as int));
            paths.len() > 0 && paths[0] == snapshot.entries[k].0
        }),
{
    let entries = snapshot.entries;
    let count = rows.dirents.len() as int;
    let id = rows.dirents[k].child;
    let given = rows.paths_to(id, count);
    held_entry(rows, snapshot, k);
    let mine = path_is_listed(rows, k, count);
    let at = ordered_keeps(given, mine);
    let first = ordered_is_given(given, 0);
    let i = listed_is_named(rows, id, count, first);
    held_entry(rows, snapshot, i);
    first_is_least(given, at);
    if i < k {
        held_apart(rows, snapshot, i, k);
    } else if k < i {
        rising(snapshot, k, i);
    }
}

/// Every entry is declared.
proof fn entry_is_declared(snapshot: SnapshotModel, rows: TreeRows, k: int) -> (x: int)
    requires
        held(rows, snapshot),
        0 <= k < snapshot.entries.len(),
    ensures
        0 <= x < rows.declared().len(),
        rows.declared()[x] == declaration(snapshot.entries, k),
{
    let entries = snapshot.entries;
    let count = rows.dirents.len() as int;
    let inodes = rows.inodes.len() as int;
    let id = rows.dirents[k].child;
    let front = rows.directories(count).len() + rows.symlinks(count).len();
    held_entry(rows, snapshot, k);
    let place = inode_at(rows.inodes, id, 0);
    inode_at_facts(rows.inodes, id, 0);
    match entries[k].1 {
        EntryModel::Directory => {
            let x = directory_is_staged(rows, k, count);
            assert(rows.declared()[x] == rows.directories(count)[x]);
            x
        },
        EntryModel::Symlink { .. } => {
            let x = symlink_is_staged(rows, k, count);
            let at = rows.directories(count).len() + x;
            assert(rows.declared()[at] == rows.symlinks(count)[x]);
            at
        },
        EntryModel::File { .. } => {
            file_comes_first(snapshot, rows, k);
            let x = listed_is_staged(rows, place, 0, inodes);
            assert(rows.declared()[front + x] == rows.files(inodes)[x]);
            front + x
        },
        EntryModel::Hardlink { ordinal } => {
            let c = carrier_of(entries, ordinal);
            carrier_is_before(snapshot, k);
            held_entry(rows, snapshot, c);
            file_comes_first(snapshot, rows, c);
            let mine = path_is_listed(rows, k, count);
            let at = ordered_keeps(rows.paths_to(id, count), mine);
            rising(snapshot, c, k);
            let x = listed_is_staged(rows, place, at, inodes);
            assert(rows.declared()[front + x] == rows.files(inodes)[x]);
            front + x
        },
    }
}

/// Where the entry at `k` is declared.
spec fn declared_at(rows: TreeRows, entries: Seq<(Seq<char>, EntryModel)>, k: int) -> int {
    choose|x: int|
        0 <= x < rows.declared().len() && #[trigger] rows.declared()[x] == declaration(entries, k)
}

proof fn all_are_counted(rows: TreeRows, snapshot: SnapshotModel)
    requires
        held(rows, snapshot),
    ensures
        rows.declared().len() == snapshot.entries.len() <= usize::MAX,
        sound(snapshot),
{
    reveal(held);
    assert forall|i: int| 0 <= i < rows.dirents.len() implies #[trigger] rows.path_at(i) is Some by {
        assert(rows.path_at(i) == Some(snapshot.entries[i].0));
    }
    names_are_counted(rows, rows.dirents.len() as int);
    files_are_counted(rows, rows.inodes.len() as int);
}

/// The declarations in order are those of the entries, and each path is
/// declared once.
proof fn entries_are_staged(snapshot: SnapshotModel, rows: TreeRows)
    requires
        held(rows, snapshot),
    ensures
        rows.declared().len() == snapshot.entries.len(),
        staged(rows.declared()) == declarations(snapshot.entries),
        forall|x: int|
            0 <= x < rows.declared().len() ==> #[trigger] is_of_an_entry(
                rows.declared()[x],
                snapshot.entries,
            ),
        forall|x: int, y: int|
            0 <= x < y < rows.declared().len() ==> (#[trigger] rows.declared()[x]).0 != (
            #[trigger] rows.declared()[y]).0,
{
    let entries = snapshot.entries;
    let pending = rows.declared();
    let count = entries.len() as int;
    all_are_counted(rows, snapshot);
    let order = Seq::new(entries.len(), |k: int| declared_at(rows, entries, k) as usize);
    assert forall|k: int| 0 <= k < count implies (#[trigger] order[k]) < count && pending[order[k] as int]
        == declaration(entries, k) by {
        let x = entry_is_declared(snapshot, rows, k);
        assert(rows.declared()[x] == declaration(entries, k));
    }
    assert forall|i: int, j: int| 0 <= i < j < count implies #[trigger] order[i] != #[trigger] order[j] by {
        rising(snapshot, i, j);
    }
    assert(order.no_duplicates());
    let paths = declared_paths(pending);
    let keys = path_encodings(paths);
    assert forall|x: usize| x < keys.len() implies #[trigger] order.contains(x) by {
        all_are_taken(order, x);
    }
    assert forall|i: int, j: int| 0 <= i < j < order.len() implies bytes_less(
        keys[#[trigger] order[i] as int],
        keys[#[trigger] order[j] as int],
    ) by {
        rising(snapshot, i, j);
        assert(keys[order[i] as int] == encode_utf8(entries[i].0));
        assert(keys[order[j] as int] == encode_utf8(entries[j].0));
    }
    assert(is_path_order(paths, order));
    staged_is(pending, order);
    assert(staged(pending) =~= declarations(entries));
    assert forall|x: int| 0 <= x < pending.len() implies #[trigger] is_of_an_entry(pending[x], entries) by {
        assert(order.contains(x as usize));
        let k = choose|k: int| 0 <= k < order.len() && order[k] == x as usize;
        assert(pending[x] == declaration(entries, k));
    }
    assert forall|x: int, y: int| 0 <= x < y < pending.len() implies (#[trigger] pending[x]).0 != (
    #[trigger] pending[y]).0 by {
        assert(order.contains(x as usize) && order.contains(y as usize));
        let i = choose|i: int| 0 <= i < order.len() && order[i] == x as usize;
        let j = choose|j: int| 0 <= j < order.len() && order[j] == y as usize;
        if i < j {
            rising(snapshot, i, j);
        } else {
            rising(snapshot, j, i);
        }
    }
}

// ---------------------------------------------------------------------------
// What is resolved
// ---------------------------------------------------------------------------

proof fn path_is_placed(stage: Seq<Declared>, c: int, from: int)
    requires
        0 <= from <= c < stage.len(),
        forall|j: int| 0 <= j < c ==> (#[trigger] stage[j]).0 != stage[c].0,
    ensures
        place_of(stage, stage[c].0, from) == c,
    decreases c - from,
{
    if from < c {
        path_is_placed(stage, c, from + 1);
    }
}

proof fn root_is(snapshot: SnapshotModel, k: int)
    requires
        sound(snapshot),
        0 <= k < snapshot.entries.len(),
    ensures
        root_of(declarations(snapshot.entries), k) == match snapshot.entries[k].1 {
            EntryModel::File { .. } => Some(k),
            EntryModel::Hardlink { ordinal } => Some(carrier_of(snapshot.entries, ordinal)),
            _ => None,
        },
{
    let entries = snapshot.entries;
    let stage = declarations(entries);
    assert(stage[k] == declaration(entries, k));
    if entries[k].1 is Hardlink {
        carrier_is_before(snapshot, k);
        let c = carrier_of(entries, entries[k].1->ordinal);
        assert(stage[c] == declaration(entries, c));
        assert forall|j: int| 0 <= j < c implies (#[trigger] stage[j]).0 != stage[c].0 by {
            rising(snapshot, j, c);
        }
        path_is_placed(stage, c, 0);
    }
}

/// A file's entry carries it.
proof fn file_carries(snapshot: SnapshotModel, c: int, from: int)
    requires
        sound(snapshot),
        0 <= from <= c < snapshot.entries.len(),
        snapshot.entries[c].1 is File,
    ensures
        carrier_from(declarations(snapshot.entries), c, from) == c,
    decreases c - from,
{
    root_is(snapshot, from);
    if from < c {
        file_carries(snapshot, c, from + 1);
        if snapshot.entries[from].1 is Hardlink {
            carrier_is_before(snapshot, from);
        }
    }
}

proof fn only_files_carry(snapshot: SnapshotModel, k: int)
    requires
        sound(snapshot),
        0 <= k < snapshot.entries.len(),
    ensures
        carries(declarations(snapshot.entries), k) == (snapshot.entries[k].1 is File),
        snapshot.entries[k].1 matches EntryModel::Hardlink { ordinal } ==> carrier(
            declarations(snapshot.entries),
            carrier_of(snapshot.entries, ordinal),
        ) == carrier_of(snapshot.entries, ordinal),
{
    root_is(snapshot, k);
    match snapshot.entries[k].1 {
        EntryModel::File { .. } => {
            file_carries(snapshot, k, 0);
        },
        EntryModel::Hardlink { ordinal } => {
            carrier_is_before(snapshot, k);
            file_carries(snapshot, carrier_of(snapshot.entries, ordinal), 0);
        },
        _ => {},
    }
}

proof fn carriers_are_files(snapshot: SnapshotModel, upto: int)
    requires
        sound(snapshot),
        0 <= upto <= snapshot.entries.len(),
    ensures
        carriers_before(declarations(snapshot.entries), upto) == files_before(snapshot.entries, upto),
    decreases upto,
{
    if upto > 0 {
        carriers_are_files(snapshot, upto - 1);
        only_files_carry(snapshot, upto - 1);
    }
}

/// The entry at `k` as a resolved entry.
spec fn tree_entry(entry: EntryModel) -> TreeModel {
    match entry {
        EntryModel::Directory => TreeModel::Directory,
        EntryModel::Symlink { target } => TreeModel::Symlink { target },
        EntryModel::Hardlink { ordinal } => TreeModel::Hardlink { ordinal },
        EntryModel::File { executable, body } => TreeModel::File {
            executable,
            planner: body.planner(),
            contract: StampModel::Absent,
            records: body.run(),
        },
    }
}

proof fn entry_is_resolved(snapshot: SnapshotModel, k: int)
    requires
        sound(snapshot),
        0 <= k < snapshot.entries.len(),
    ensures
        resolved_entry(declarations(snapshot.entries), k) == tree_entry(snapshot.entries[k].1),
        !dangles(declarations(snapshot.entries), k),
{
    let entries = snapshot.entries;
    assert(declarations(entries)[k] == declaration(entries, k));
    root_is(snapshot, k);
    only_files_carry(snapshot, k);
    if entries[k].1 is Hardlink {
        carrier_is_before(snapshot, k);
        carriers_are_files(snapshot, carrier_of(entries, entries[k].1->ordinal));
    }
}

proof fn run_has_a_sum(records: Seq<RecordModel>, upto: int)
    requires
        run_error_upto(records, upto) is None,
    ensures
        sum_error(records, upto) is None,
    decreases upto,
{
    if upto > 0 {
        run_has_a_sum(records, upto - 1);
    }
}

/// A valid body's run is a declared run, and gives the body back without its
/// contract.
proof fn body_comes_back(executable: bool, body: BodyModel)
    requires
        valid_body(body),
    ensures
        staged_error(body.run()) is None,
        canonical_entry(tree_entry(EntryModel::File { executable, body })) == Ok::<EntryModel, Tfm1Error>(
            unstamped(EntryModel::File { executable, body }),
        ),
{
    let records = body.run();
    match body {
        BodyModel::Tensor { format, logical_size, .. } => {
            format_of_planner(format);
            run_has_a_sum(records, records.len() as int);
        },
        BodyModel::Blob { logical_size, digest } => {
            reveal_with_fuel(run_error_upto, 2);
            reveal_with_fuel(sum_error, 2);
            reveal_with_fuel(record_sum, 2);
        },
    }
}

proof fn no_file_error(snapshot: SnapshotModel, upto: int)
    requires
        sound(snapshot),
        0 <= upto <= snapshot.entries.len(),
    ensures
        first_file_error(declarations(snapshot.entries), upto) is None,
    decreases upto,
{
    if upto > 0 {
        let k = upto - 1;
        no_file_error(snapshot, k);
        only_files_carry(snapshot, k);
        root_is(snapshot, k);
        if let EntryModel::File { executable, body } = snapshot.entries[k].1 {
            sound_paths(snapshot, k);
            body_comes_back(executable, body);
            assert(declarations(snapshot.entries)[k] == declaration(snapshot.entries, k));
        }
    }
}

proof fn no_declared_error(snapshot: SnapshotModel, rows: TreeRows, upto: int)
    requires
        held(rows, snapshot),
        0 <= upto <= rows.declared().len(),
    ensures
        first_declared_error(rows.declared(), upto) is None,
    decreases upto,
{
    if upto > 0 {
        let pending = rows.declared();
        let entries = snapshot.entries;
        no_declared_error(snapshot, rows, upto - 1);
        all_are_counted(rows, snapshot);
        entries_are_staged(snapshot, rows);
        assert(is_of_an_entry(pending[upto - 1], entries));
        let k = choose|k: int|
            0 <= k < entries.len() && pending[upto - 1] == #[trigger] declaration(entries, k);
        sound_paths(snapshot, k);
        assert(declared_error(pending, upto - 1) is None);
    }
}

proof fn no_tree_error(snapshot: SnapshotModel)
    requires
        sound(snapshot),
    ensures
        ({
            let tree = resolved_entries(declarations(snapshot.entries));
            tree_error(tree_paths(tree), tree_directories(tree)) is None
        }),
{
    let entries = snapshot.entries;
    let tree = resolved_entries(declarations(entries));
    assert(tree_error(paths_of(entries), directories_of(entries)) is None) by {
        reveal(sound);
    }
    assert forall|k: int| 0 <= k < entries.len() implies (#[trigger] tree[k]) == (
        entries[k].0,
        tree_entry(entries[k].1),
    ) by {
        entry_is_resolved(snapshot, k);
        assert(declarations(entries)[k] == declaration(entries, k));
    }
    assert(tree_paths(tree) =~= paths_of(entries));
    assert(tree_directories(tree) =~= directories_of(entries));
}

proof fn entries_come_back(snapshot: SnapshotModel, upto: int)
    requires
        sound(snapshot),
        0 <= upto <= snapshot.entries.len(),
    ensures
        canonical_entries(resolved_entries(declarations(snapshot.entries)), upto) == Ok::<
            Seq<(Seq<char>, EntryModel)>,
            Tfm1Error,
        >(unstamped_entries(snapshot.entries).take(upto)),
    decreases upto,
{
    let entries = snapshot.entries;
    let stage = declarations(entries);
    let tree = resolved_entries(stage);
    let back = unstamped_entries(entries);
    if upto == 0 {
        assert(back.take(0) =~= Seq::empty());
    } else {
        let k = upto - 1;
        entries_come_back(snapshot, k);
        entry_is_resolved(snapshot, k);
        assert(stage[k] == declaration(entries, k));
        assert(tree[k] == (entries[k].0, tree_entry(entries[k].1)));
        if let EntryModel::File { executable, body } = entries[k].1 {
            sound_paths(snapshot, k);
            body_comes_back(executable, body);
        }
        assert(back.take(upto) =~= back.take(k).push(back[k]));
    }
}

/// A tree that holds a snapshot's entries seals to them.
proof fn held_is_sealed(snapshot: SnapshotModel, rows: TreeRows, parent: Option<Seq<u8>>)
    requires
        held(rows, snapshot),
    ensures
        finished(BuilderModel { parent, pending: rows.declared() }) == Ok::<SnapshotModel, Tfm1Error>(
            SnapshotModel { parent, entries: unstamped_entries(snapshot.entries) },
        ),
{
    let entries = snapshot.entries;
    let pending = rows.declared();
    let stage = declarations(entries);
    let count = entries.len() as int;
    all_are_counted(rows, snapshot);
    entries_are_staged(snapshot, rows);
    no_declared_error(snapshot, rows, pending.len() as int);
    assert forall|k: int| 0 <= k < stage.len() implies !#[trigger] dangles(stage, k) by {
        entry_is_resolved(snapshot, k);
    }
    no_file_error(snapshot, count);
    no_tree_error(snapshot);
    assert(resolved(pending) == Ok::<Seq<(Seq<char>, TreeModel)>, Tfm1Error>(resolved_entries(stage)));
    entries_come_back(snapshot, count);
    assert(unstamped_entries(entries).take(count) =~= unstamped_entries(entries));
}

/// A new workspace into which a valid snapshot is cloned seals to the
/// snapshot's own entries, under whatever parent it is sealed. Contracts are
/// left out: a workspace keeps none.
pub proof fn a_clone_seals_to_the_snapshot(snapshot: SnapshotModel, root: i64, parent: Option<Seq<u8>>)
    requires
        valid(snapshot),
        root + 2 + snapshot.entries.len() < i64::MAX,
        snapshot.entries.len() <= usize::MAX,
    ensures
        all_carried_out(
            new_rows(root),
            batch_of(snapshot.entries),
            snapshot.entries.len() as int,
        ) matches Some(rows) && finished(BuilderModel { parent, pending: rows.declared() }) == Ok::<
            SnapshotModel,
            Tfm1Error,
        >(SnapshotModel { parent, entries: unstamped_entries(snapshot.entries) }),
{
    a_clone_holds_the_snapshot(snapshot, root);
    let rows = all_carried_out(
        new_rows(root),
        batch_of(snapshot.entries),
        snapshot.entries.len() as int,
    ).unwrap();
    assert(held(rows, snapshot)) by {
        reveal(held);
        reveal(sound);
    }
    held_is_sealed(snapshot, rows, parent);
}

} // verus!
