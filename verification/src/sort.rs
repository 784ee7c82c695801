//! Stable sorting of positions by their keys.

use crate::text::{bytes_before, bytes_less, bytes_less_irreflexive, bytes_less_total, bytes_less_transitive};
use vstd::prelude::*;

verus! {

/// Keys with a total order.
pub trait Ranked: Sized {
    /// Whether `self` comes strictly before `other`.
    spec fn before(&self, other: &Self) -> bool;

    /// Two keys do not come before each other.
    proof fn asymmetric(a: &Self, b: &Self)
        ensures
            !(a.before(b) && b.before(a)),
    ;

    /// Not coming after is transitive.
    proof fn transitive(a: &Self, b: &Self, c: &Self)
        requires
            !b.before(a),
            !c.before(b),
        ensures
            !c.before(a),
    ;

    fn comes_before(&self, other: &Self) -> (yes: bool)
        ensures
            yes == self.before(other),
    ;
}

impl Ranked for Vec<u8> {
    open spec fn before(&self, other: &Self) -> bool {
        bytes_less(self@, other@)
    }

    proof fn asymmetric(a: &Self, b: &Self) {
        if bytes_less(a@, b@) && bytes_less(b@, a@) {
            bytes_less_transitive(a@, b@, a@);
            bytes_less_irreflexive(a@);
        }
    }

    proof fn transitive(a: &Self, b: &Self, c: &Self) {
        bytes_less_total(a@, b@);
        bytes_less_total(b@, c@);
        if bytes_less(c@, a@) {
            if a@ != b@ {
                bytes_less_transitive(c@, a@, b@);
            }
        }
    }

    fn comes_before(&self, other: &Self) -> (yes: bool) {
        bytes_before(self, other)
    }
}

impl Ranked for (u64, u64) {
    open spec fn before(&self, other: &Self) -> bool {
        self.0 < other.0 || (self.0 == other.0 && self.1 < other.1)
    }

    proof fn asymmetric(a: &Self, b: &Self) {
    }

    proof fn transitive(a: &Self, b: &Self, c: &Self) {
    }

    fn comes_before(&self, other: &Self) -> (yes: bool) {
        self.0 < other.0 || (self.0 == other.0 && self.1 < other.1)
    }
}

/// Position `x` sorts before position `y`: by key, then by position.
pub open spec fn sorts_before<K: Ranked>(keys: Seq<K>, x: int, y: int) -> bool {
    !keys[y].before(&keys[x]) && (keys[x].before(&keys[y]) || x < y)
}

/// The positions `lo..hi`, each once, in sorted order.
pub open spec fn sorted_range<K: Ranked>(keys: Seq<K>, order: Seq<usize>, lo: int, hi: int) -> bool {
    &&& order.len() == hi - lo
    &&& forall|i: int| 0 <= i < order.len() ==> lo <= #[trigger] order[i] < hi
    &&& forall|x: usize| lo <= x < hi ==> #[trigger] order.contains(x)
    &&& forall|i: int, j: int|
        0 <= i < j < order.len() ==> sorts_before(
            keys,
            #[trigger] order[i] as int,
            #[trigger] order[j] as int,
        )
}

proof fn sorts_transitive<K: Ranked>(keys: Seq<K>, x: int, y: int, z: int)
    requires
        sorts_before(keys, x, y),
        sorts_before(keys, y, z),
    ensures
        sorts_before(keys, x, z),
{
    K::transitive(&keys[x], &keys[y], &keys[z]);
    if !keys[x].before(&keys[z]) {
        if keys[x].before(&keys[y]) {
            K::transitive(&keys[y], &keys[z], &keys[x]);
        } else if keys[y].before(&keys[z]) {
            K::transitive(&keys[z], &keys[x], &keys[y]);
        }
    }
}

/// Merges two sorted neighbouring ranges.
#[verifier::loop_isolation(false)]
fn merge<K: Ranked>(
    keys: &Vec<K>,
    left: Vec<usize>,
    right: Vec<usize>,
    Ghost(lo): Ghost<int>,
    Ghost(mid): Ghost<int>,
    Ghost(hi): Ghost<int>,
) -> (order: Vec<usize>)
    requires
        0 <= lo <= mid <= hi <= keys@.len(),
        sorted_range(keys@, left@, lo, mid),
        sorted_range(keys@, right@, mid, hi),
    ensures
        sorted_range(keys@, order@, lo, hi),
{
    let mut order: Vec<usize> = Vec::new();
    let mut i: usize = 0;
    let mut j: usize = 0;
    while i < left.len() || j < right.len()
        invariant
            i <= left@.len(),
            j <= right@.len(),
            order@.len() == i + j,
            forall|k: int| 0 <= k < order@.len() ==> lo <= #[trigger] order@[k] < hi,
            forall|k: int| 0 <= k < i ==> order@.contains(#[trigger] left@[k]),
            forall|k: int| 0 <= k < j ==> order@.contains(#[trigger] right@[k]),
            forall|k: int, l: int|
                0 <= k < l < order@.len() ==> sorts_before(
                    keys@,
                    #[trigger] order@[k] as int,
                    #[trigger] order@[l] as int,
                ),
            forall|k: int, l: int|
                0 <= k < order@.len() && i <= l < left@.len() ==> sorts_before(
                    keys@,
                    #[trigger] order@[k] as int,
                    #[trigger] left@[l] as int,
                ),
            forall|k: int, l: int|
                0 <= k < order@.len() && j <= l < right@.len() ==> sorts_before(
                    keys@,
                    #[trigger] order@[k] as int,
                    #[trigger] right@[l] as int,
                ),
        decreases left@.len() - i + right@.len() - j,
    {
        let take_left = if i >= left.len() {
            false
        } else if j >= right.len() {
            true
        } else {
            let x = left[i];
            let y = right[j];
            !keys[y].comes_before(&keys[x])
        };
        let ghost before = order@;
        if take_left {
            let x = left[i];
            order.push(x);
            proof {
                assert forall|l: int| j <= l < right@.len() implies sorts_before(
                    keys@,
                    x as int,
                    #[trigger] right@[l] as int,
                ) by {
                    if l > j {
                        sorts_transitive(keys@, x as int, right@[j as int] as int, right@[l] as int);
                    }
                }
                assert forall|k: int| 0 <= k < i + 1 implies order@.contains(
                    #[trigger] left@[k],
                ) by {
                    if k < i {
                        let at = choose|at: int| 0 <= at < before.len() && before[at] == left@[k];
                        assert(order@[at] == left@[k]);
                    } else {
                        assert(order@[before.len() as int] == x);
                    }
                }
                assert forall|k: int| 0 <= k < j implies order@.contains(#[trigger] right@[k]) by {
                    let at = choose|at: int| 0 <= at < before.len() && before[at] == right@[k];
                    assert(order@[at] == right@[k]);
                }
            }
            i += 1;
        } else {
            let y = right[j];
            order.push(y);
            proof {
                if i < left@.len() {
                    K::asymmetric(&keys@[y as int], &keys@[left@[i as int] as int]);
                }
                assert forall|l: int| i <= l < left@.len() implies sorts_before(
                    keys@,
                    y as int,
                    #[trigger] left@[l] as int,
                ) by {
                    if l > i {
                        sorts_transitive(keys@, y as int, left@[i as int] as int, left@[l] as int);
                    }
                }
                assert forall|k: int| 0 <= k < j + 1 implies order@.contains(
                    #[trigger] right@[k],
                ) by {
                    if k < j {
                        let at = choose|at: int| 0 <= at < before.len() && before[at] == right@[k];
                        assert(order@[at] == right@[k]);
                    } else {
                        assert(order@[before.len() as int] == y);
                    }
                }
                assert forall|k: int| 0 <= k < i implies order@.contains(#[trigger] left@[k]) by {
                    let at = choose|at: int| 0 <= at < before.len() && before[at] == left@[k];
                    assert(order@[at] == left@[k]);
                }
            }
            j += 1;
        }
    }
    proof {
        assert forall|x: usize| lo <= x < hi implies #[trigger] order@.contains(x) by {
            if x < mid {
                assert(left@.contains(x));
                let k = choose|k: int| 0 <= k < left@.len() && left@[k] == x;
                assert(order@.contains(left@[k]));
            } else {
                assert(right@.contains(x));
                let k = choose|k: int| 0 <= k < right@.len() && right@[k] == x;
                assert(order@.contains(right@[k]));
            }
        }
    }
    order
}

fn sort_range<K: Ranked>(keys: &Vec<K>, lo: usize, hi: usize) -> (order: Vec<usize>)
    requires
        lo <= hi <= keys@.len(),
    ensures
        sorted_range(keys@, order@, lo as int, hi as int),
    decreases hi - lo,
{
    let mut order: Vec<usize> = Vec::new();
    if lo == hi {
        return order;
    }
    if hi - lo == 1 {
        order.push(lo);
        assert(order@[0] == lo);
        return order;
    }
    let mid: usize = lo + (hi - lo) / 2;
    let left = sort_range(keys, lo, mid);
    let right = sort_range(keys, mid, hi);
    merge(keys, left, right, Ghost(lo as int), Ghost(mid as int), Ghost(hi as int))
}

/// The positions of `keys` in sorted order, equal keys keeping their order.
pub fn sort_positions<K: Ranked>(keys: &Vec<K>) -> (order: Vec<usize>)
    ensures
        sorted_range(keys@, order@, 0, keys@.len() as int),
{
    sort_range(keys, 0, keys.len())
}

/// The byte strings of a list.
pub open spec fn byte_strings(list: Seq<Vec<u8>>) -> Seq<Seq<u8>> {
    list.map_values(|bytes: Vec<u8>| bytes@)
}

/// Whether no byte string occurs twice.
pub fn all_distinct(list: &Vec<Vec<u8>>) -> (distinct: bool)
    ensures
        distinct == byte_strings(list@).no_duplicates(),
{
    let order = sort_positions(list);
    let ghost views = byte_strings(list@);
    let mut at: usize = 1;
    while at < order.len()
        invariant
            sorted_range(list@, order@, 0, list@.len() as int),
            views == byte_strings(list@),
            1 <= at,
            forall|i: int|
                1 <= i < at && i < order@.len() ==> bytes_less(
                    list@[order@[i - 1] as int]@,
                    list@[#[trigger] order@[i] as int]@,
                ),
        decreases order@.len() - at,
    {
        let x = order[at - 1];
        let y = order[at];
        if !list[x].comes_before(&list[y]) {
            proof {
                assert(sorts_before(list@, order@[at - 1] as int, order@[at as int] as int));
                bytes_less_total(list@[x as int]@, list@[y as int]@);
                assert(views[x as int] == views[y as int]);
                assert(x < y);
            }
            return false;
        }
        at += 1;
    }
    proof {
        assert forall|a: int, b: int| 0 <= a < views.len() && 0 <= b < views.len() && a != b
            implies views[a] != views[b] by {
            assert(order@.contains(a as usize) && order@.contains(b as usize));
            let i = choose|i: int| 0 <= i < order@.len() && order@[i] == a as usize;
            let j = choose|j: int| 0 <= j < order@.len() && order@[j] == b as usize;
            if i < j {
                rising_run(list@, order@, i, j);
            } else {
                rising_run(list@, order@, j, i);
            }
            bytes_less_irreflexive(views[a]);
        }
    }
    true
}

proof fn rising_run(list: Seq<Vec<u8>>, order: Seq<usize>, i: int, j: int)
    requires
        0 <= i < j < order.len(),
        forall|k: int| 0 <= k < order.len() ==> 0 <= #[trigger] order[k] < list.len(),
        forall|k: int|
            1 <= k < order.len() ==> bytes_less(
                list[order[k - 1] as int]@,
                list[#[trigger] order[k] as int]@,
            ),
    ensures
        bytes_less(list[order[i] as int]@, list[order[j] as int]@),
    decreases j - i,
{
    assert(bytes_less(list[order[j - 1] as int]@, list[order[j] as int]@));
    if i < j - 1 {
        rising_run(list, order, i, j - 1);
        bytes_less_transitive(
            list[order[i] as int]@,
            list[order[j - 1] as int]@,
            list[order[j] as int]@,
        );
    }
}

proof fn same_prefix<K: Ranked>(keys: Seq<K>, a: Seq<usize>, b: Seq<usize>, upto: int)
    requires
        sorted_range(keys, a, 0, keys.len() as int),
        sorted_range(keys, b, 0, keys.len() as int),
        0 <= upto <= a.len(),
    ensures
        forall|i: int| 0 <= i < upto ==> a[i] == b[i],
    decreases upto,
{
    if upto > 0 {
        same_prefix(keys, a, b, upto - 1);
        let k = upto - 1;
        if a[k] != b[k] {
            assert(b.contains(a[k]));
            assert(a.contains(b[k]));
            let i = choose|i: int| 0 <= i < a.len() && a[i] == b[k];
            let j = choose|j: int| 0 <= j < b.len() && b[j] == a[k];
            if i < k {
                assert(sorts_before(keys, b[i] as int, b[k] as int));
                assert(a[i] == b[i]);
            }
            if j < k {
                assert(sorts_before(keys, a[j] as int, a[k] as int));
                assert(a[j] == b[j]);
            }
            assert(sorts_before(keys, a[k] as int, a[i] as int));
            assert(sorts_before(keys, b[k] as int, b[j] as int));
        }
    }
}

/// There is one sorted order.
pub proof fn one_sorted_order<K: Ranked>(keys: Seq<K>, a: Seq<usize>, b: Seq<usize>)
    requires
        sorted_range(keys, a, 0, keys.len() as int),
        sorted_range(keys, b, 0, keys.len() as int),
    ensures
        a == b,
{
    same_prefix(keys, a, b, a.len() as int);
    assert(a =~= b);
}

/// The positions of `keys` in sorted order.
pub open spec fn sorted_order<K: Ranked>(keys: Seq<K>) -> Seq<usize> {
    choose|order: Seq<usize>| sorted_range(keys, order, 0, keys.len() as int)
}

/// Whatever is sorted is the sorted order.
pub proof fn sorted_order_is<K: Ranked>(keys: Seq<K>, order: Seq<usize>)
    requires
        sorted_range(keys, order, 0, keys.len() as int),
    ensures
        sorted_order(keys) == order,
        sorted_range(keys, sorted_order(keys), 0, keys.len() as int),
{
    one_sorted_order(keys, sorted_order(keys), order);
}

/// Where the last key belongs behind all that it does not come before.
proof fn last_place<K: Ranked>(keys: Seq<K>, order: Seq<usize>, from: int) -> (at: int)
    requires
        keys.len() > 0,
        sorted_range(keys, order, 0, keys.len() - 1),
        0 <= from <= order.len(),
        forall|i: int| 0 <= i < from ==> !keys.last().before(&keys[#[trigger] order[i] as int]),
    ensures
        from <= at <= order.len(),
        forall|i: int| 0 <= i < at ==> !keys.last().before(&keys[#[trigger] order[i] as int]),
        forall|i: int| at <= i < order.len() ==> keys.last().before(&keys[#[trigger] order[i] as int]),
    decreases order.len() - from,
{
    if from == order.len() {
        from
    } else {
        let next = keys[order[from] as int];
        if keys.last().before(&next) {
            assert forall|i: int| from <= i < order.len() implies keys.last().before(
                &keys[#[trigger] order[i] as int],
            ) by {
                if from < i {
                    assert(sorts_before(keys, order[from] as int, order[i] as int));
                    if !keys.last().before(&keys[order[i] as int]) {
                        K::transitive(&next, &keys[order[i] as int], &keys.last());
                    }
                }
            }
            from
        } else {
            last_place(keys, order, from + 1)
        }
    }
}

/// Keys can be sorted.
pub proof fn keys_can_be_sorted<K: Ranked>(keys: Seq<K>, upto: int) -> (order: Seq<usize>)
    requires
        0 <= upto <= keys.len() <= usize::MAX,
    ensures
        sorted_range(keys, order, 0, upto),
    decreases upto,
{
    if upto == 0 {
        Seq::empty()
    } else {
        let before = keys_can_be_sorted(keys, upto - 1);
        let first = keys.take(upto);
        assert(sorted_range(first, before, 0, upto - 1)) by {
            assert forall|i: int, j: int| 0 <= i < j < before.len() implies sorts_before(
                first,
                #[trigger] before[i] as int,
                #[trigger] before[j] as int,
            ) by {
                assert(sorts_before(keys, before[i] as int, before[j] as int));
            }
        }
        let at = last_place(first, before, 0);
        let new = (upto - 1) as usize;
        let order = before.insert(at, new);
        assert forall|i: int| 0 <= i < order.len() implies 0 <= #[trigger] order[i] < upto by {
            if i < at {
                assert(order[i] == before[i]);
            } else if i > at {
                assert(order[i] == before[i - 1]);
            }
        }
        assert forall|x: usize| 0 <= x < upto implies #[trigger] order.contains(x) by {
            if x == new {
                assert(order[at] == x);
            } else {
                assert(before.contains(x));
                let i = choose|i: int| 0 <= i < before.len() && before[i] == x;
                if i < at {
                    assert(order[i] == x);
                } else {
                    assert(order[i + 1] == x);
                }
            }
        }
        assert forall|i: int, j: int| 0 <= i < j < order.len() implies sorts_before(
            keys,
            #[trigger] order[i] as int,
            #[trigger] order[j] as int,
        ) by {
            let a = if i < at {
                i
            } else {
                i - 1
            };
            let b = if j < at {
                j
            } else {
                j - 1
            };
            if i != at {
                assert(order[i] == before[a]);
            }
            if j != at {
                assert(order[j] == before[b]);
            }
            if i != at && j != at {
                assert(sorts_before(keys, before[a] as int, before[b] as int));
            } else if j == at {
                assert(!first.last().before(&first[before[a] as int]));
            } else {
                assert(first.last().before(&first[before[b] as int]));
                K::asymmetric(&first.last(), &first[before[b] as int]);
            }
        }
        order
    }
}

/// Numbers below their count, no two alike, are all the numbers below it.
pub(crate) proof fn all_are_taken(numbers: Seq<usize>, x: usize)
    requires
        numbers.no_duplicates(),
        forall|i: int| 0 <= i < numbers.len() ==> #[trigger] numbers[i] < numbers.len(),
        x < numbers.len(),
    ensures
        numbers.contains(x),
{
    let count = numbers.len() as int;
    let taken = numbers.map_values(|n: usize| n as int);
    assert(taken.no_duplicates());
    taken.unique_seq_to_set();
    let there = taken.to_set();
    let all = vstd::set_lib::set_int_range(0, count);
    vstd::set_lib::lemma_int_range(0, count);
    assert(there.subset_of(all)) by {
        assert forall|n: int| there.contains(n) implies all.contains(n) by {
            let i = choose|i: int| 0 <= i < taken.len() && taken[i] == n;
            assert(numbers[i] < numbers.len());
        }
    }
    vstd::set_lib::lemma_subset_equality(there, all);
    assert(there.contains(x as int));
    let i = choose|i: int| 0 <= i < taken.len() && taken[i] == x as int;
    assert(numbers[i] == x);
}

/// Every position once, in strictly rising order of its byte string.
pub open spec fn rising_order(keys: Seq<Seq<u8>>, order: Seq<usize>) -> bool {
    &&& order.len() == keys.len()
    &&& forall|i: int| 0 <= i < order.len() ==> #[trigger] order[i] < keys.len()
    &&& forall|x: usize| x < keys.len() ==> #[trigger] order.contains(x)
    &&& forall|i: int, j: int|
        0 <= i < j < order.len() ==> bytes_less(
            keys[#[trigger] order[i] as int],
            keys[#[trigger] order[j] as int],
        )
}

proof fn same_rising_prefix(keys: Seq<Seq<u8>>, a: Seq<usize>, b: Seq<usize>, upto: int)
    requires
        rising_order(keys, a),
        rising_order(keys, b),
        0 <= upto <= a.len(),
    ensures
        forall|i: int| 0 <= i < upto ==> a[i] == b[i],
    decreases upto,
{
    if upto > 0 {
        same_rising_prefix(keys, a, b, upto - 1);
        let k = upto - 1;
        if a[k] != b[k] {
            assert(b.contains(a[k]) && a.contains(b[k]));
            let i = choose|i: int| 0 <= i < a.len() && a[i] == b[k];
            let j = choose|j: int| 0 <= j < b.len() && b[j] == a[k];
            let x = keys[a[k] as int];
            let y = keys[b[k] as int];
            bytes_less_irreflexive(x);
            bytes_less_irreflexive(y);
            if i < k {
                assert(a[i] == b[i]);
                assert(bytes_less(keys[b[i] as int], keys[b[k] as int]));
            }
            if j < k {
                assert(a[j] == b[j]);
                assert(bytes_less(keys[a[j] as int], keys[a[k] as int]));
            }
            assert(bytes_less(keys[a[k] as int], keys[a[i] as int]));
            assert(bytes_less(keys[b[k] as int], keys[b[j] as int]));
            bytes_less_transitive(x, y, x);
        }
    }
}

/// There is at most one rising order.
pub proof fn one_rising_order(keys: Seq<Seq<u8>>, a: Seq<usize>, b: Seq<usize>)
    requires
        rising_order(keys, a),
        rising_order(keys, b),
    ensures
        a == b,
{
    same_rising_prefix(keys, a, b, a.len() as int);
    assert(a =~= b);
}

/// Where a byte string belongs among others in rising order.
proof fn insertion_place(keys: Seq<Seq<u8>>, order: Seq<usize>, key: Seq<u8>, from: int) -> (at: int)
    requires
        rising_order(keys, order),
        forall|i: int| 0 <= i < keys.len() ==> #[trigger] keys[i] != key,
        0 <= from <= order.len(),
        forall|i: int| 0 <= i < from ==> bytes_less(keys[#[trigger] order[i] as int], key),
    ensures
        from <= at <= order.len(),
        forall|i: int| 0 <= i < at ==> bytes_less(keys[#[trigger] order[i] as int], key),
        forall|i: int| at <= i < order.len() ==> bytes_less(key, keys[#[trigger] order[i] as int]),
    decreases order.len() - from,
{
    if from == order.len() {
        from
    } else {
        let next = keys[order[from] as int];
        if bytes_less(next, key) {
            insertion_place(keys, order, key, from + 1)
        } else {
            bytes_less_total(next, key);
            assert forall|i: int| from <= i < order.len() implies bytes_less(
                key,
                keys[#[trigger] order[i] as int],
            ) by {
                if from < i {
                    bytes_less_transitive(key, next, keys[order[i] as int]);
                }
            }
            from
        }
    }
}

/// Distinct byte strings have a rising order.
pub proof fn distinct_keys_order(keys: Seq<Seq<u8>>) -> (order: Seq<usize>)
    requires
        keys.len() <= usize::MAX,
        forall|i: int, j: int|
            0 <= j < i < keys.len() ==> #[trigger] keys[j] != #[trigger] keys[i],
    ensures
        rising_order(keys, order),
    decreases keys.len(),
{
    if keys.len() == 0 {
        Seq::empty()
    } else {
        let fewer = keys.drop_last();
        let before = distinct_keys_order(fewer);
        let at = insertion_place(fewer, before, keys.last(), 0);
        let new = (keys.len() - 1) as usize;
        let order = before.insert(at, new);
        assert forall|i: int| 0 <= i < order.len() implies #[trigger] order[i] < keys.len() by {
            if i < at {
                assert(order[i] == before[i]);
            } else if i > at {
                assert(order[i] == before[i - 1]);
            }
        }
        assert forall|x: usize| x < keys.len() implies #[trigger] order.contains(x) by {
            if x == new {
                assert(order[at] == x);
            } else {
                assert(before.contains(x));
                let i = choose|i: int| 0 <= i < before.len() && before[i] == x;
                if i < at {
                    assert(order[i] == x);
                } else {
                    assert(order[i + 1] == x);
                }
            }
        }
        assert forall|i: int, j: int| 0 <= i < j < order.len() implies bytes_less(
            keys[#[trigger] order[i] as int],
            keys[#[trigger] order[j] as int],
        ) by {
            let a = if i < at {
                i
            } else {
                i - 1
            };
            let b = if j < at {
                j
            } else {
                j - 1
            };
            if i != at {
                assert(order[i] == before[a]);
                assert(fewer[before[a] as int] == keys[before[a] as int]);
            }
            if j != at {
                assert(order[j] == before[b]);
                assert(fewer[before[b] as int] == keys[before[b] as int]);
            }
        }
        order
    }
}

/// Sorts byte strings, if they are distinct.
pub fn sort_distinct(keys: &Vec<Vec<u8>>) -> (order: Option<Vec<usize>>)
    ensures
        match order {
            Some(o) => rising_order(byte_strings(keys@), o@),
            None => exists|i: int, j: int|
                0 <= i < j < keys@.len() && byte_strings(keys@)[i] == byte_strings(keys@)[j],
        },
{
    let ghost views = byte_strings(keys@);
    let order = sort_positions(keys);
    let mut at: usize = 1;
    while at < order.len()
        invariant
            1 <= at,
            views == byte_strings(keys@),
            sorted_range(keys@, order@, 0, keys@.len() as int),
            forall|k: int|
                1 <= k < at && k < order@.len() ==> bytes_less(
                    keys@[order@[k - 1] as int]@,
                    keys@[#[trigger] order@[k] as int]@,
                ),
        decreases order@.len() - at,
    {
        let x = order[at - 1];
        let y = order[at];
        if !keys[x].comes_before(&keys[y]) {
            proof {
                assert(sorts_before(keys@, order@[at - 1] as int, order@[at as int] as int));
                bytes_less_total(keys@[x as int]@, keys@[y as int]@);
                assert(views[x as int] == views[y as int]);
                assert(x < y);
            }
            return None;
        }
        at += 1;
    }
    proof {
        assert forall|i: int, j: int| 0 <= i < j < order@.len() implies bytes_less(
            views[#[trigger] order@[i] as int],
            views[#[trigger] order@[j] as int],
        ) by {
            rising_run(keys@, order@, i, j);
        }
    }
    Some(order)
}

/// The sum of a quantity over picked positions.
pub open spec fn picked_sum(order: Seq<usize>, quantity: spec_fn(int) -> nat) -> nat
    decreases order.len(),
{
    if order.len() == 0 {
        0
    } else {
        picked_sum(order.drop_last(), quantity) + quantity(order.last() as int)
    }
}

/// The sum of a quantity over the first `upto` positions.
pub open spec fn range_sum(upto: int, quantity: spec_fn(int) -> nat) -> nat
    decreases upto,
{
    if upto <= 0 {
        0
    } else {
        range_sum(upto - 1, quantity) + quantity(upto - 1)
    }
}

proof fn picked_sum_without(order: Seq<usize>, quantity: spec_fn(int) -> nat, at: int)
    requires
        0 <= at < order.len(),
    ensures
        picked_sum(order, quantity) == picked_sum(order.remove(at), quantity) + quantity(
            order[at] as int,
        ),
    decreases order.len(),
{
    if at == order.len() - 1 {
        assert(order.remove(at) =~= order.drop_last());
    } else {
        picked_sum_without(order.drop_last(), quantity, at);
        assert(order.remove(at).drop_last() =~= order.drop_last().remove(at));
        assert(order.remove(at).last() == order.last());
    }
}

/// A sum over every position once does not depend on the order.
pub proof fn picked_sum_is_range_sum(order: Seq<usize>, quantity: spec_fn(int) -> nat)
    requires
        order.len() <= usize::MAX,
        order.no_duplicates(),
        forall|i: int| 0 <= i < order.len() ==> #[trigger] order[i] < order.len(),
        forall|x: usize| x < order.len() ==> #[trigger] order.contains(x),
    ensures
        picked_sum(order, quantity) == range_sum(order.len() as int, quantity),
    decreases order.len(),
{
    if order.len() > 0 {
        let n = order.len() as int;
        let largest = (n - 1) as usize;
        assert(order.contains(largest));
        let at = choose|at: int| 0 <= at < n && order[at] == largest;
        let fewer = order.remove(at);
        picked_sum_without(order, quantity, at);
        assert forall|i: int| 0 <= i < fewer.len() implies #[trigger] fewer[i] < fewer.len() by {
            let j = if i < at {
                i
            } else {
                i + 1
            };
            assert(fewer[i] == order[j]);
            assert(order[j] != order[at]);
        }
        assert forall|x: usize| x < fewer.len() implies #[trigger] fewer.contains(x) by {
            assert(order.contains(x));
            let j = choose|j: int| 0 <= j < n && order[j] == x;
            if j < at {
                assert(fewer[j] == x);
            } else {
                assert(fewer[j - 1] == x);
            }
        }
        picked_sum_is_range_sum(fewer, quantity);
    }
}

/// The positions of a rising order are distinct.
pub proof fn rising_order_is_distinct(keys: Seq<Seq<u8>>, order: Seq<usize>)
    requires
        rising_order(keys, order),
    ensures
        order.no_duplicates(),
{
    assert forall|i: int, j: int| 0 <= i < order.len() && 0 <= j < order.len() && i != j implies order[i]
        != order[j] by {
        bytes_less_irreflexive(keys[order[i] as int]);
        if i < j {
            assert(bytes_less(keys[order[i] as int], keys[order[j] as int]));
        } else {
            assert(bytes_less(keys[order[j] as int], keys[order[i] as int]));
        }
    }
}

/// Position `x` stands before position `y`: by byte string, then by position.
pub open spec fn stands_before(keys: Seq<Seq<u8>>, x: int, y: int) -> bool {
    bytes_less(keys[x], keys[y]) || (keys[x] == keys[y] && x < y)
}

/// Every position once, in order of its byte string, then of position.
pub open spec fn stable_order(keys: Seq<Seq<u8>>, order: Seq<usize>) -> bool {
    &&& order.len() == keys.len()
    &&& forall|i: int| 0 <= i < order.len() ==> #[trigger] order[i] < keys.len()
    &&& forall|x: usize| x < keys.len() ==> #[trigger] order.contains(x)
    &&& forall|i: int, j: int|
        0 <= i < j < order.len() ==> stands_before(
            keys,
            #[trigger] order[i] as int,
            #[trigger] order[j] as int,
        )
}

proof fn stands_once(keys: Seq<Seq<u8>>, x: int, y: int)
    ensures
        !(stands_before(keys, x, y) && stands_before(keys, y, x)),
{
    bytes_less_irreflexive(keys[x]);
    if bytes_less(keys[x], keys[y]) && bytes_less(keys[y], keys[x]) {
        bytes_less_transitive(keys[x], keys[y], keys[x]);
    }
}

proof fn same_stable_prefix(keys: Seq<Seq<u8>>, a: Seq<usize>, b: Seq<usize>, upto: int)
    requires
        stable_order(keys, a),
        stable_order(keys, b),
        0 <= upto <= a.len(),
    ensures
        forall|i: int| 0 <= i < upto ==> a[i] == b[i],
    decreases upto,
{
    if upto > 0 {
        same_stable_prefix(keys, a, b, upto - 1);
        let k = upto - 1;
        if a[k] != b[k] {
            assert(b.contains(a[k]) && a.contains(b[k]));
            let i = choose|i: int| 0 <= i < a.len() && a[i] == b[k];
            let j = choose|j: int| 0 <= j < b.len() && b[j] == a[k];
            stands_once(keys, b[k] as int, b[k] as int);
            stands_once(keys, a[k] as int, a[k] as int);
            if i < k {
                assert(a[i] == b[i]);
                assert(stands_before(keys, b[i] as int, b[k] as int));
            }
            if j < k {
                assert(a[j] == b[j]);
                assert(stands_before(keys, a[j] as int, a[k] as int));
            }
            assert(stands_before(keys, a[k] as int, a[i] as int));
            assert(stands_before(keys, b[k] as int, b[j] as int));
            stands_once(keys, a[k] as int, b[k] as int);
        }
    }
}

/// The positions in order of their byte strings, then of position.
pub open spec fn in_order(keys: Seq<Seq<u8>>) -> Seq<usize> {
    choose|order: Seq<usize>| stable_order(keys, order)
}

/// Whatever is in order is the order.
pub proof fn in_order_is(keys: Seq<Seq<u8>>, order: Seq<usize>)
    requires
        stable_order(keys, order),
    ensures
        in_order(keys) == order,
{
    let chosen = in_order(keys);
    same_stable_prefix(keys, chosen, order, order.len() as int);
    assert(chosen =~= order);
}

/// Where a byte string belongs behind all that it does not come before.
proof fn stable_place(keys: Seq<Seq<u8>>, order: Seq<usize>, key: Seq<u8>, from: int) -> (at: int)
    requires
        stable_order(keys, order),
        0 <= from <= order.len(),
        forall|i: int| 0 <= i < from ==> !bytes_less(key, keys[#[trigger] order[i] as int]),
    ensures
        from <= at <= order.len(),
        forall|i: int| 0 <= i < at ==> !bytes_less(key, keys[#[trigger] order[i] as int]),
        forall|i: int| at <= i < order.len() ==> bytes_less(key, keys[#[trigger] order[i] as int]),
    decreases order.len() - from,
{
    if from == order.len() {
        from
    } else {
        let next = keys[order[from] as int];
        if bytes_less(key, next) {
            assert forall|i: int| from <= i < order.len() implies bytes_less(
                key,
                keys[#[trigger] order[i] as int],
            ) by {
                if from < i {
                    assert(stands_before(keys, order[from] as int, order[i] as int));
                    if next != keys[order[i] as int] {
                        bytes_less_transitive(key, next, keys[order[i] as int]);
                    }
                }
            }
            from
        } else {
            stable_place(keys, order, key, from + 1)
        }
    }
}

/// Byte strings have an order.
pub proof fn keys_have_an_order(keys: Seq<Seq<u8>>) -> (order: Seq<usize>)
    requires
        keys.len() <= usize::MAX,
    ensures
        stable_order(keys, order),
        in_order(keys) == order,
    decreases keys.len(),
{
    let order = if keys.len() == 0 {
        Seq::empty()
    } else {
        let fewer = keys.drop_last();
        let before = keys_have_an_order(fewer);
        let at = stable_place(fewer, before, keys.last(), 0);
        let new = (keys.len() - 1) as usize;
        let order = before.insert(at, new);
        assert forall|i: int| 0 <= i < order.len() implies #[trigger] order[i] < keys.len() by {
            if i < at {
                assert(order[i] == before[i]);
            } else if i > at {
                assert(order[i] == before[i - 1]);
            }
        }
        assert forall|x: usize| x < keys.len() implies #[trigger] order.contains(x) by {
            if x == new {
                assert(order[at] == x);
            } else {
                assert(before.contains(x));
                let i = choose|i: int| 0 <= i < before.len() && before[i] == x;
                if i < at {
                    assert(order[i] == x);
                } else {
                    assert(order[i + 1] == x);
                }
            }
        }
        assert forall|i: int, j: int| 0 <= i < j < order.len() implies stands_before(
            keys,
            #[trigger] order[i] as int,
            #[trigger] order[j] as int,
        ) by {
            let a = if i < at {
                i
            } else {
                i - 1
            };
            let b = if j < at {
                j
            } else {
                j - 1
            };
            if i != at {
                assert(order[i] == before[a]);
                assert(fewer[before[a] as int] == keys[before[a] as int]);
            }
            if j != at {
                assert(order[j] == before[b]);
                assert(fewer[before[b] as int] == keys[before[b] as int]);
            }
            if i != at && j != at {
                assert(stands_before(fewer, before[a] as int, before[b] as int));
            } else if j == at {
                bytes_less_total(keys[before[a] as int], keys.last());
            }
        }
        order
    };
    in_order_is(keys, order);
    order
}

/// Every position below `count` once, in any order.
pub open spec fn shuffles(order: Seq<usize>, count: nat) -> bool {
    &&& order.len() == count <= usize::MAX
    &&& order.no_duplicates()
    &&& forall|i: int| 0 <= i < order.len() ==> #[trigger] order[i] < count
}

/// The items at given positions.
pub open spec fn picked<T>(items: Seq<T>, order: Seq<usize>) -> Seq<T> {
    order.map_values(|at: usize| items[at as int])
}

/// The rising order of shuffled keys, traced back, is that of the keys.
pub proof fn rising_order_of_shuffled(keys: Seq<Seq<u8>>, order: Seq<usize>, found: Seq<usize>)
    requires
        shuffles(order, keys.len()),
        rising_order(picked(keys, order), found),
    ensures
        rising_order(keys, picked(order, found)),
{
    let back = picked(order, found);
    let other = picked(keys, order);
    assert forall|i: int| 0 <= i < back.len() implies #[trigger] back[i] < keys.len() by {
        assert(found[i] < other.len());
    }
    assert forall|x: usize| x < keys.len() implies #[trigger] back.contains(x) by {
        all_are_taken(order, x);
        let i = choose|i: int| 0 <= i < order.len() && order[i] == x;
        assert(found.contains(i as usize));
        let j = choose|j: int| 0 <= j < found.len() && found[j] == i as usize;
        assert(back[j] == x);
    }
    assert forall|i: int, j: int| 0 <= i < j < back.len() implies bytes_less(
        keys[#[trigger] back[i] as int],
        keys[#[trigger] back[j] as int],
    ) by {
        assert(bytes_less(other[found[i] as int], other[found[j] as int]));
    }
}

/// The stable order of distinct shuffled keys, traced back, is that of the keys.
pub proof fn stable_order_of_shuffled(keys: Seq<Seq<u8>>, order: Seq<usize>, found: Seq<usize>)
    requires
        keys.no_duplicates(),
        shuffles(order, keys.len()),
        stable_order(picked(keys, order), found),
    ensures
        stable_order(keys, picked(order, found)),
{
    let other = picked(keys, order);
    assert forall|i: int, j: int| 0 <= i < j < found.len() implies bytes_less(
        other[#[trigger] found[i] as int],
        other[#[trigger] found[j] as int],
    ) by {
        let x = found[i] as int;
        let y = found[j] as int;
        assert(stands_before(other, x, y));
        if x != y {
            assert(order[x] != order[y]);
            assert(keys[order[x] as int] != keys[order[y] as int]);
        }
    }
    assert(rising_order(other, found));
    rising_order_of_shuffled(keys, order, found);
}

/// Distinct keys stay distinct when shuffled.
pub proof fn shuffled_keys_are_distinct(keys: Seq<Seq<u8>>, order: Seq<usize>)
    requires
        keys.no_duplicates(),
        shuffles(order, keys.len()),
    ensures
        picked(keys, order).no_duplicates(),
{
    let other = picked(keys, order);
    assert forall|i: int, j: int| 0 <= i < other.len() && 0 <= j < other.len() && i != j implies other[i]
        != other[j] by {
        assert(order[i] != order[j]);
        assert(keys[order[i] as int] != keys[order[j] as int]);
    }
}

/// Sorts positions by their byte strings.
pub fn sort_stably(keys: &Vec<Vec<u8>>) -> (order: Vec<usize>)
    ensures
        order@ == in_order(byte_strings(keys@)),
        stable_order(byte_strings(keys@), order@),
{
    let ghost views = byte_strings(keys@);
    let order = sort_positions(keys);
    proof {
        assert forall|i: int, j: int| 0 <= i < j < order@.len() implies stands_before(
            views,
            #[trigger] order@[i] as int,
            #[trigger] order@[j] as int,
        ) by {
            let x = order@[i] as int;
            let y = order@[j] as int;
            assert(sorts_before(keys@, x, y));
            assert(views[x] == keys@[x]@ && views[y] == keys@[y]@);
            bytes_less_total(views[x], views[y]);
        }
        in_order_is(views, order@);
    }
    order
}

} // verus!
