//! A snapshot depends on the tree that was declared, not on how it was
//! declared.

use super::builder::{
    carrier, carrier_from, carriers_before, carries, dangles, declared_error, declared_paths,
    finished, first_declared_error, first_file_error, is_path_order, path_encodings, resolved,
    place_found, place_of, resolved_entries, resolved_entry, root_of, staged, staged_is,
    BuilderModel, Declared, PendingModel,
};
use super::tree::{rising_paths, same_encoding};
use crate::sort::{all_are_taken, distinct_keys_order, rising_order_is_distinct};
use crate::text::bytes_less_irreflexive;
use vstd::prelude::*;
use vstd::utf8::encode_utf8;

verus! {

// ---------------------------------------------------------------------------
// The order of declarations
// ---------------------------------------------------------------------------

proof fn declared_without_error(pending: Seq<Declared>, upto: int, i: int)
    requires
        first_declared_error(pending, upto) is None,
        0 <= i < upto,
    ensures
        declared_error(pending, i) is None,
    decreases upto,
{
    if i < upto - 1 {
        declared_without_error(pending, upto - 1, i);
    }
}

proof fn all_without_error(pending: Seq<Declared>, upto: int)
    requires
        forall|i: int| 0 <= i < upto ==> #[trigger] declared_error(pending, i) is None,
    ensures
        first_declared_error(pending, upto) is None,
    decreases upto,
{
    if upto > 0 {
        all_without_error(pending, upto - 1);
    }
}

proof fn accepted_paths_differ(pending: Seq<Declared>, i: int, j: int)
    requires
        first_declared_error(pending, pending.len() as int) is None,
        0 <= i < j < pending.len(),
    ensures
        pending[i].0 != pending[j].0,
{
    declared_without_error(pending, pending.len() as int, j);
}

/// Where the `k`th declaration of `a`, in path order, stands in `b`.
spec fn place_in(a: Seq<Declared>, b: Seq<Declared>, k: int) -> int {
    choose|x: int| 0 <= x < b.len() && #[trigger] b[x] == staged(a)[k]
}

/// The same declarations in another order are accepted and sorted alike.
proof fn another_order_sorts_alike(a: Seq<Declared>, b: Seq<Declared>)
    requires
        a.len() <= usize::MAX,
        a.to_multiset() == b.to_multiset(),
        first_declared_error(a, a.len() as int) is None,
    ensures
        first_declared_error(b, b.len() as int) is None,
        staged(b) == staged(a),
{
    broadcast use vstd::multiset::group_multiset_axioms;

    a.to_multiset_ensures();
    b.to_multiset_ensures();
    assert(a.no_duplicates()) by {
        assert forall|i: int, j: int| 0 <= i < a.len() && 0 <= j < a.len() && i != j implies a[i] != a[j] by {
            if i < j {
                accepted_paths_differ(a, i, j);
            } else {
                accepted_paths_differ(a, j, i);
            }
        }
    }
    a.lemma_multiset_has_no_duplicates();
    b.lemma_multiset_has_no_duplicates_conv();
    assert forall|x: int| 0 <= x < b.len() implies a.contains(#[trigger] b[x]) by {
        assert(b.contains(b[x]));
        assert(b.to_multiset().count(b[x]) > 0);
    }
    assert forall|x: int, y: int| 0 <= x < y < b.len() implies (#[trigger] b[x]).0 != (#[trigger] b[y]).0 by {
        assert(a.contains(b[x]) && a.contains(b[y]));
        let i = choose|i: int| 0 <= i < a.len() && a[i] == b[x];
        let j = choose|j: int| 0 <= j < a.len() && a[j] == b[y];
        assert(b[x] != b[y]);
        if i < j {
            accepted_paths_differ(a, i, j);
        } else {
            accepted_paths_differ(a, j, i);
        }
    }
    assert forall|x: int| 0 <= x < b.len() implies #[trigger] declared_error(b, x) is None by {
        assert(a.contains(b[x]));
        let i = choose|i: int| 0 <= i < a.len() && a[i] == b[x];
        declared_without_error(a, a.len() as int, i);
    }
    all_without_error(b, b.len() as int);
    orders_agree(a, b);
}

/// Two lists of the same declarations, no path twice, have one sorted form.
proof fn orders_agree(a: Seq<Declared>, b: Seq<Declared>)
    requires
        a.len() == b.len() <= usize::MAX,
        first_declared_error(a, a.len() as int) is None,
        a.to_multiset() == b.to_multiset(),
    ensures
        staged(b) == staged(a),
{
    let keys = path_encodings(declared_paths(a));
    assert forall|i: int, j: int| 0 <= j < i < keys.len() implies #[trigger] keys[j] != #[trigger] keys[i] by {
        accepted_paths_differ(a, j, i);
        same_encoding(a[j].0, a[i].0);
    }
    let first = distinct_keys_order(keys);
    staged_is(a, first);
    let stage = staged(a);
    a.to_multiset_ensures();
    b.to_multiset_ensures();
    let order = Seq::new(b.len(), |k: int| place_in(a, b, k) as usize);
    assert forall|k: int| 0 <= k < order.len() implies (#[trigger] order[k]) < b.len() && b[order[k] as int]
        == stage[k] by {
        assert(stage[k] == a[first[k] as int]);
        assert(a.contains(stage[k]));
        assert(a.to_multiset().count(stage[k]) > 0);
        assert(b.contains(stage[k]));
        let x = choose|x: int| 0 <= x < b.len() && b[x] == stage[k];
        assert(b[x] == staged(a)[k]);
    }
    let paths = declared_paths(b);
    let spelled = path_encodings(paths);
    assert forall|i: int, j: int| 0 <= i < j < order.len() implies crate::text::bytes_less(
        spelled[#[trigger] order[i] as int],
        spelled[#[trigger] order[j] as int],
    ) by {
        assert(crate::text::bytes_less(keys[first[i] as int], keys[first[j] as int]));
        assert(spelled[order[i] as int] == encode_utf8(stage[i].0));
        assert(spelled[order[j] as int] == encode_utf8(stage[j].0));
        assert(keys[first[i] as int] == encode_utf8(stage[i].0));
        assert(keys[first[j] as int] == encode_utf8(stage[j].0));
    }
    assert forall|i: int, j: int| 0 <= i < order.len() && 0 <= j < order.len() && i != j implies order[i]
        != order[j] by {
        bytes_less_irreflexive(spelled[order[i] as int]);
        if i < j {
            assert(crate::text::bytes_less(spelled[order[i] as int], spelled[order[j] as int]));
        } else {
            assert(crate::text::bytes_less(spelled[order[j] as int], spelled[order[i] as int]));
        }
    }
    assert forall|x: usize| x < spelled.len() implies #[trigger] order.contains(x) by {
        all_are_taken(order, x);
    }
    assert(is_path_order(paths, order));
    staged_is(b, order);
    assert(staged(b) =~= stage);
}

/// The order of declarations does not matter: what one order is built into, any
/// other is built into too.
pub proof fn declaration_order_does_not_matter(a: BuilderModel, b: BuilderModel)
    requires
        a.parent == b.parent,
        a.pending.to_multiset() == b.pending.to_multiset(),
        a.pending.len() <= usize::MAX,
        finished(a) is Ok,
    ensures
        finished(b) == finished(a),
{
    another_order_sorts_alike(a.pending, b.pending);
}

// ---------------------------------------------------------------------------
// The path that a file is declared under
// ---------------------------------------------------------------------------

/// Whether a declaration is of a file, under any of its paths.
pub open spec fn is_of_a_file(declared: Declared) -> bool {
    declared.1 is File || declared.1 is HardlinkTo
}

/// Two lists of declarations, in path order, declare the same tree: the same
/// paths, the same directories and symlinks, and the same files under the same
/// groups of paths, whichever path of a group the file was declared under.
pub open spec fn same_tree(a: Seq<Declared>, b: Seq<Declared>) -> bool {
    &&& a.len() == b.len()
    &&& forall|k: int| 0 <= k < a.len() ==> (#[trigger] a[k]).0 == b[k].0
    &&& forall|k: int| 0 <= k < a.len() ==> is_of_a_file(#[trigger] a[k]) == is_of_a_file(b[k])
    &&& forall|k: int| 0 <= k < a.len() && !is_of_a_file(#[trigger] a[k]) ==> a[k] == b[k]
    &&& forall|k: int|
        0 <= k < a.len() ==> (#[trigger] root_of(a, k) is Some) == (root_of(b, k) is Some)
    &&& forall|k: int|
        0 <= k < a.len() && #[trigger] root_of(a, k) is Some ==> a[root_of(a, k).unwrap()].1
            == b[root_of(b, k).unwrap()].1
    &&& forall|j: int, k: int|
        0 <= j < a.len() && 0 <= k < a.len() && root_of(a, j) is Some ==> (#[trigger] root_of(a, j)
            == #[trigger] root_of(a, k)) == (root_of(b, j) == root_of(b, k))
}

proof fn same_carrier(a: Seq<Declared>, b: Seq<Declared>, k: int, from: int)
    requires
        same_tree(a, b),
        0 <= k < a.len(),
        root_of(a, k) is Some,
        0 <= from <= a.len(),
    ensures
        carrier_from(a, root_of(a, k).unwrap(), from) == carrier_from(b, root_of(b, k).unwrap(), from),
    decreases a.len() - from,
{
    if from < a.len() {
        same_carrier(a, b, k, from + 1);
        assert((root_of(a, k) == root_of(a, from)) == (root_of(b, k) == root_of(b, from)));
    }
}

proof fn same_carries(a: Seq<Declared>, b: Seq<Declared>, k: int)
    requires
        same_tree(a, b),
        0 <= k < a.len(),
    ensures
        carries(a, k) == carries(b, k),
        root_of(a, k) is Some ==> carrier(a, root_of(a, k).unwrap()) == carrier(b, root_of(b, k).unwrap()),
{
    assert((root_of(a, k) is Some) == (root_of(b, k) is Some));
    if root_of(a, k) is Some {
        same_carrier(a, b, k, 0);
    }
}

proof fn same_counts(a: Seq<Declared>, b: Seq<Declared>, upto: int)
    requires
        same_tree(a, b),
        upto <= a.len(),
    ensures
        carriers_before(a, upto) == carriers_before(b, upto),
    decreases upto,
{
    if upto > 0 {
        same_counts(a, b, upto - 1);
        same_carries(a, b, upto - 1);
    }
}

proof fn same_file_errors(a: Seq<Declared>, b: Seq<Declared>, upto: int)
    requires
        same_tree(a, b),
        upto <= a.len(),
    ensures
        first_file_error(a, upto) == first_file_error(b, upto),
    decreases upto,
{
    if upto > 0 {
        same_file_errors(a, b, upto - 1);
        same_carries(a, b, upto - 1);
        assert((root_of(a, upto - 1) is Some) == (root_of(b, upto - 1) is Some));
    }
}

proof fn carrier_stands(stage: Seq<Declared>, root: int, from: int, k: int)
    requires
        0 <= from <= k < stage.len(),
        root_of(stage, k) == Some(root),
    ensures
        from <= carrier_from(stage, root, from) <= k,
    decreases k - from,
{
    if root_of(stage, from) != Some(root) {
        carrier_stands(stage, root, from + 1, k);
    }
}

proof fn same_entry(a: Seq<Declared>, b: Seq<Declared>, k: int)
    requires
        same_tree(a, b),
        0 <= k < a.len(),
    ensures
        dangles(a, k) == dangles(b, k),
        !dangles(a, k) ==> resolved_entry(a, k) == resolved_entry(b, k),
{
    same_carries(a, b, k);
    assert(is_of_a_file(a[k]) == is_of_a_file(b[k]));
    assert((root_of(a, k) is Some) == (root_of(b, k) is Some));
    if is_of_a_file(a[k]) {
        if let Some(root) = root_of(a, k) {
            carrier_stands(a, root, 0, k);
            same_counts(a, b, carrier(a, root));
        }
    } else {
        assert(a[k] == b[k]);
    }
}

/// A snapshot depends on the tree alone: not on the order of declarations, and
/// not on which path of a file with several it was declared under.
pub proof fn the_same_tree_gives_the_same_snapshot(a: BuilderModel, b: BuilderModel)
    requires
        a.parent == b.parent,
        first_declared_error(a.pending, a.pending.len() as int) is None,
        first_declared_error(b.pending, b.pending.len() as int) is None,
        same_tree(staged(a.pending), staged(b.pending)),
    ensures
        finished(a) == finished(b),
{
    let left = staged(a.pending);
    let right = staged(b.pending);
    assert forall|k: int| 0 <= k < left.len() implies #[trigger] dangles(left, k) == dangles(right, k) by {
        same_entry(left, right, k);
    }
    same_file_errors(left, right, left.len() as int);
    if !(exists|k: int| 0 <= k < left.len() && #[trigger] dangles(left, k)) {
        assert forall|k: int| 0 <= k < left.len() implies resolved_entries(left)[k] == resolved_entries(
            right,
        )[k] by {
            same_entry(left, right, k);
            assert(!dangles(left, k));
        }
        assert(resolved_entries(left) =~= resolved_entries(right));
        assert forall|k: int| 0 <= k < right.len() implies !#[trigger] dangles(right, k) by {
            assert(!dangles(left, k));
        }
    } else {
        let k = choose|k: int| 0 <= k < left.len() && #[trigger] dangles(left, k);
        assert(dangles(right, k));
    }
    assert(resolved(a.pending) == resolved(b.pending));
}

// ---------------------------------------------------------------------------
// A file and its hardlink
// ---------------------------------------------------------------------------

/// The declarations with the file at `i` and its hardlink at `j` in each other's
/// place: the file is declared under the hardlink's path, and its own path, with
/// every other hardlink to it, names that one.
pub open spec fn traded(pending: Seq<Declared>, i: int, j: int) -> Seq<Declared> {
    Seq::new(
        pending.len(),
        |k: int|
            (
                pending[k].0,
                if k == j {
                    pending[i].1
                } else if k == i || pending[k].1 == (PendingModel::HardlinkTo {
                    target: pending[i].0,
                }) {
                    PendingModel::HardlinkTo { target: pending[j].0 }
                } else {
                    pending[k].1
                },
            ),
    )
}

proof fn same_place_of(a: Seq<Declared>, b: Seq<Declared>, path: Seq<char>, from: int)
    requires
        declared_paths(a) == declared_paths(b),
        0 <= from <= a.len(),
    ensures
        place_of(a, path, from) == place_of(b, path, from),
    decreases a.len() - from,
{
    assert(declared_paths(a).len() == a.len() && declared_paths(b).len() == b.len());
    if from < a.len() {
        assert(declared_paths(a)[from] == a[from].0 && declared_paths(b)[from] == b[from].0);
        same_place_of(a, b, path, from + 1);
    }
}

proof fn place_has_the_path(stage: Seq<Declared>, path: Seq<char>, from: int)
    requires
        0 <= from <= stage.len(),
    ensures
        from <= place_of(stage, path, from) <= stage.len(),
        place_of(stage, path, from) < stage.len() ==> stage[place_of(stage, path, from)].0 == path,
    decreases stage.len() - from,
{
    if from < stage.len() && stage[from].0 != path {
        place_has_the_path(stage, path, from + 1);
    }
}

/// The root of a path after its file has traded places.
proof fn traded_root(left: Seq<Declared>, right: Seq<Declared>, x: int, y: int, k: int)
    requires
        rising_paths(declared_paths(left)),
        0 <= x < left.len(),
        0 <= y < left.len(),
        0 <= k < left.len(),
        x != y,
        left[x].1 is File,
        left[y].1 == (PendingModel::HardlinkTo { target: left[x].0 }),
        right == traded(left, x, y),
        forall|m: int| 0 <= m < left.len() ==> !#[trigger] dangles(left, m),
    ensures
        root_of(right, k) == match root_of(left, k) {
            Some(root) => Some(
                if root == x {
                    y
                } else {
                    root
                },
            ),
            None => None,
        },
        root_of(left, k) matches Some(root) ==> 0 <= root < left.len() && left[root].1 is File,
{
    let p = left[x].0;
    let q = left[y].0;
    assert(declared_paths(right) =~= declared_paths(left));
    place_found(left, p, x, 0);
    place_found(left, q, y, 0);
    same_place_of(left, right, p, 0);
    same_place_of(left, right, q, 0);
    if let PendingModel::HardlinkTo { target } = left[k].1 {
        assert(!dangles(left, k));
        place_has_the_path(left, target, 0);
        same_place_of(left, right, target, 0);
        let m = place_of(left, target, 0);
        assert(left[m].1 is File);
        if target != p {
            assert(m != x && m != y);
        }
    }
}

/// A file and its hardlink may change places: whichever of its paths a file is
/// declared under, the snapshot is the same.
pub proof fn a_file_and_its_hardlink_may_trade_places(builder: BuilderModel, i: int, j: int)
    requires
        builder.pending.len() <= usize::MAX,
        finished(builder) is Ok,
        0 <= i < builder.pending.len(),
        0 <= j < builder.pending.len(),
        builder.pending[i].1 is File,
        builder.pending[j].1 == (PendingModel::HardlinkTo { target: builder.pending[i].0 }),
    ensures
        finished(BuilderModel { pending: traded(builder.pending, i, j), ..builder }) == finished(
            builder,
        ),
{
    let a = builder.pending;
    let b = traded(a, i, j);
    let keys = path_encodings(declared_paths(a));
    assert(declared_paths(b) =~= declared_paths(a));
    assert forall|x: int, y: int| 0 <= y < x < keys.len() implies #[trigger] keys[y] != #[trigger] keys[x] by {
        accepted_paths_differ(a, y, x);
        same_encoding(a[y].0, a[x].0);
    }
    assert forall|k: int| 0 <= k < b.len() implies #[trigger] declared_error(b, k) is None by {
        declared_without_error(a, a.len() as int, k);
        assert forall|m: int| 0 <= m < k implies (#[trigger] b[m]).0 != b[k].0 by {
            assert(a[m].0 != a[k].0);
        }
    }
    all_without_error(b, b.len() as int);
    let order = distinct_keys_order(keys);
    staged_is(a, order);
    staged_is(b, order);
    let left = staged(a);
    let right = staged(b);
    assert(order.contains(i as usize) && order.contains(j as usize));
    let x = choose|x: int| 0 <= x < order.len() && order[x] == i as usize;
    let y = choose|y: int| 0 <= y < order.len() && order[y] == j as usize;
    rising_order_is_distinct(keys, order);
    assert(right =~= traded(left, x, y)) by {
        assert forall|k: int| 0 <= k < left.len() implies right[k] == traded(left, x, y)[k] by {
            assert(left[k] == a[order[k] as int] && right[k] == b[order[k] as int]);
            assert((order[k] == i as usize) == (k == x));
            assert((order[k] == j as usize) == (k == y));
        }
    }
    assert forall|k: int| 0 <= k < left.len() implies !#[trigger] dangles(left, k) by {
        assert(resolved(a) is Ok);
    }
    assert forall|k: int| 0 <= k < left.len() implies (#[trigger] root_of(right, k) is Some) == (
    root_of(left, k) is Some) && (root_of(left, k) is Some ==> left[root_of(left, k).unwrap()].1
        == right[root_of(right, k).unwrap()].1) by {
        traded_root(left, right, x, y, k);
    }
    assert forall|m: int, k: int|
        0 <= m < left.len() && 0 <= k < left.len() && root_of(left, m) is Some implies (
    #[trigger] root_of(left, m) == #[trigger] root_of(left, k)) == (root_of(right, m) == root_of(
        right,
        k,
    )) by {
        traded_root(left, right, x, y, m);
        traded_root(left, right, x, y, k);
    }
    assert(same_tree(left, right)) by {
        assert forall|k: int| 0 <= k < left.len() && #[trigger] root_of(left, k) is Some implies left[root_of(
            left,
            k,
        ).unwrap()].1 == right[root_of(right, k).unwrap()].1 by {
            assert((root_of(right, k) is Some) == (root_of(left, k) is Some));
        }
        assert forall|k: int| 0 <= k < left.len() implies (#[trigger] root_of(left, k) is Some) == (
        root_of(right, k) is Some) by {
            assert((root_of(right, k) is Some) == (root_of(left, k) is Some));
        }
    }
    the_same_tree_gives_the_same_snapshot(
        builder,
        BuilderModel { pending: b, ..builder },
    );
}

} // verus!
