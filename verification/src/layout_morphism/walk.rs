//! The map between destination elements and source elements.

use super::plan::{bijective, grouped, overshoots, running, starts_axis, within, PlanModel};
use crate::radix::{
    digits, digits_of_parts, digits_of_value, positive, positive_tail, proper, span,
    span_is_positive, span_of_parts, value, value_is_bounded, value_of_digits, value_update, weight,
};
use vstd::arithmetic::mul::{
    lemma_mul_inequality, lemma_mul_is_associative, lemma_mul_is_commutative,
    lemma_mul_is_distributive_sub_other_way,
};
use vstd::prelude::*;

verus! {

/// The coordinate on one logical axis that the counters of the first `upto`
/// sub-axes come to.
pub open spec fn coordinate(
    axes: Seq<usize>,
    extents: Seq<u64>,
    counters: Seq<int>,
    axis: int,
    upto: int,
) -> int
    decreases upto,
{
    if upto <= 0 {
        0
    } else {
        coordinate(axes, extents, counters, axis, upto - 1) + if axes[upto - 1] == axis {
            counters[upto - 1] * within(axes, extents, upto - 1)
        } else {
            0
        }
    }
}

impl PlanModel {
    /// The counters of the sub-axes in storage order.
    pub open spec fn placed(self, counters: Seq<int>) -> Seq<int> {
        Seq::new(self.permutation.len(), |p: int| counters[self.permutation[p] as int])
    }

    /// The counters of the sub-axes, from storage order.
    pub open spec fn counters(self, stored: Seq<int>) -> Seq<int> {
        Seq::new(
            self.permutation.len(),
            |j: int| stored[self.permutation.index_of(j as usize)],
        )
    }

    /// The logical coordinates that counters come to.
    pub open spec fn coordinates(self, counters: Seq<int>) -> Seq<int> {
        Seq::new(
            self.shape.len(),
            |a: int|
                coordinate(self.axes, self.extents, counters, a, self.extents.len() as int),
        )
    }

    /// Whether logical coordinates lie in the shape.
    pub open spec fn inside(self, coordinates: Seq<int>) -> bool {
        forall|a: int| 0 <= a < self.shape.len() ==> #[trigger] coordinates[a] < self.shape[a]
    }

    /// The source element of given counters, `None` for padding.
    pub open spec fn source_at(self, counters: Seq<int>) -> Option<int> {
        if self.inside(self.coordinates(counters)) {
            Some(value(self.shape, self.coordinates(counters)))
        } else {
            None
        }
    }

    /// The source element of a destination element, `None` for padding: the
    /// destination element's digits in the storage extents are the sub-axis
    /// counters, which come to one coordinate on each logical axis.
    pub open spec fn source_of(self, to: int) -> Option<int> {
        self.source_at(self.counters(digits(self.storage(), to)))
    }

    /// Whether a storage position extends the run behind it: its source stride
    /// is the length of that run, and its axis has no padding.
    pub open spec fn folds(self, position: int) -> bool {
        let at = self.permutation[position] as int;
        !overshoots(self.shape, self.axes, self.extents, self.axes[at] as int) && self.src_stride(
            at,
        ) == weight(self.storage(), position)
    }

    /// The first of the trailing storage positions before `position` that fold
    /// into one run.
    pub open spec fn outer_before(self, position: int) -> int
        decreases position,
    {
        if position > 0 && self.folds(position - 1) {
            self.outer_before(position - 1)
        } else {
            position
        }
    }

    /// How many storage positions stay outside the runs.
    pub open spec fn outer(self) -> int {
        self.outer_before(self.permutation.len() as int)
    }

    /// The length of every run.
    pub open spec fn run_length(self) -> nat {
        span(self.storage().skip(self.outer()))
    }

    /// How many runs there are.
    pub open spec fn run_total(self) -> nat {
        span(self.storage().take(self.outer()))
    }
}

// ---------------------------------------------------------------------------
// Products
// ---------------------------------------------------------------------------

pub(crate) proof fn span_without(radix: Seq<u64>, at: int)
    requires
        0 <= at < radix.len(),
    ensures
        span(radix) == radix[at] * span(radix.remove(at)),
{
    let front = radix.take(at);
    let back = radix.skip(at + 1);
    let one = seq![radix[at]];
    assert(radix =~= front + (one + back));
    assert(radix.remove(at) =~= front + back);
    assert((one + back).drop_first() =~= back);
    span_of_parts(front, one + back);
    span_of_parts(front, back);
    let f = span(front) as int;
    let b = span(back) as int;
    let e = radix[at] as int;
    lemma_mul_is_associative(f, e, b);
    lemma_mul_is_commutative(f, e);
    lemma_mul_is_associative(e, f, b);
}

/// A product does not depend on the order of its factors.
proof fn span_of_permuted(extents: Seq<u64>, permutation: Seq<usize>)
    requires
        bijective(permutation),
        permutation.len() == extents.len(),
        permutation.len() <= usize::MAX,
    ensures
        span(permutation.map_values(|at: usize| extents[at as int])) == span(extents),
    decreases extents.len(),
{
    let stored = permutation.map_values(|at: usize| extents[at as int]);
    if extents.len() > 0 {
        let n = extents.len() as int;
        let last = (n - 1) as usize;
        assert(permutation.contains(last));
        let p = choose|p: int| 0 <= p < n && permutation[p] == last;
        let fewer = permutation.remove(p);
        let shorter = extents.drop_last();
        assert forall|i: int| 0 <= i < fewer.len() implies #[trigger] fewer[i] < fewer.len() by {
            let j = if i < p {
                i
            } else {
                i + 1
            };
            assert(fewer[i] == permutation[j]);
            assert(permutation[j] != permutation[p]);
        }
        assert forall|x: usize| x < fewer.len() implies #[trigger] fewer.contains(x) by {
            assert(permutation.contains(x));
            let j = choose|j: int| 0 <= j < n && permutation[j] == x;
            if j < p {
                assert(fewer[j] == x);
            } else {
                assert(fewer[j - 1] == x);
            }
        }
        assert(fewer.no_duplicates()) by {
            assert forall|i: int, j: int| 0 <= i < fewer.len() && 0 <= j < fewer.len() && i
                != j implies fewer[i] != fewer[j] by {
                let a = if i < p {
                    i
                } else {
                    i + 1
                };
                let b = if j < p {
                    j
                } else {
                    j + 1
                };
                assert(fewer[i] == permutation[a] && fewer[j] == permutation[b]);
            }
        }
        span_of_permuted(shorter, fewer);
        span_without(stored, p);
        span_without(extents, n - 1);
        assert(extents.remove(n - 1) =~= shorter);
        assert(stored.remove(p) =~= fewer.map_values(|at: usize| shorter[at as int])) by {
            assert forall|i: int| 0 <= i < fewer.len() implies stored.remove(p)[i]
                == shorter[fewer[i] as int] by {
                assert(fewer[i] < fewer.len());
            }
        }
    } else {
        assert(stored =~= extents);
    }
}

// ---------------------------------------------------------------------------
// Axes
// ---------------------------------------------------------------------------

/// The first sub-axis at or behind `from` of an axis.
pub open spec fn first_of(axes: Seq<usize>, axis: int, from: int) -> int
    decreases axes.len() - from,
{
    if from >= axes.len() || axes[from] >= axis {
        from
    } else {
        first_of(axes, axis, from + 1)
    }
}

/// Where the sub-axes of an axis start.
pub open spec fn low(axes: Seq<usize>, axis: int) -> int {
    first_of(axes, axis, 0)
}

/// Where the sub-axes of an axis end.
pub open spec fn high(axes: Seq<usize>, axis: int) -> int {
    first_of(axes, axis + 1, 0)
}

proof fn axes_rise(axes: Seq<usize>, rank: nat, i: int, j: int)
    requires
        grouped(axes, rank),
        0 <= i <= j < axes.len(),
    ensures
        axes[i] <= axes[j],
    decreases j - i,
{
    if i < j {
        axes_rise(axes, rank, i, j - 1);
        assert(axes[j] == axes[j - 1] || axes[j] == axes[j - 1] + 1);
    }
}

proof fn first_of_facts(axes: Seq<usize>, axis: int, from: int)
    requires
        0 <= from <= axes.len(),
    ensures
        from <= first_of(axes, axis, from) <= axes.len(),
        forall|j: int| from <= j < first_of(axes, axis, from) ==> #[trigger] axes[j] < axis,
        first_of(axes, axis, from) < axes.len() ==> axes[first_of(axes, axis, from)] >= axis,
    decreases axes.len() - from,
{
    if from < axes.len() && axes[from] < axis {
        first_of_facts(axes, axis, from + 1);
    }
}

/// The sub-axes of an axis are the ones between its start and its end.
pub proof fn axis_range(axes: Seq<usize>, rank: nat, axis: int)
    requires
        grouped(axes, rank),
        0 <= axis < rank,
    ensures
        0 <= low(axes, axis) < high(axes, axis) <= axes.len(),
        forall|j: int|
            0 <= j < axes.len() ==> (#[trigger] axes[j] == axis <==> low(axes, axis) <= j < high(
                axes,
                axis,
            )),
        starts_axis(axes, low(axes, axis)),
        high(axes, axis) < axes.len() ==> axes[high(axes, axis)] != axis,
{
    let lo = low(axes, axis);
    let hi = high(axes, axis);
    first_of_facts(axes, axis, 0);
    first_of_facts(axes, axis + 1, 0);
    assert(axes.last() == rank - 1);
    assert(lo < axes.len());
    assert(axes[lo] == axis) by {
        if lo > 0 {
            assert(axes[lo - 1] < axis);
            assert(axes[lo] == axes[lo - 1] || axes[lo] == axes[lo - 1] + 1);
        }
    }
    if hi <= lo {
        if hi < axes.len() {
            axes_rise(axes, rank, hi, lo);
        }
    }
    assert forall|j: int| 0 <= j < axes.len() implies (#[trigger] axes[j] == axis <==> lo <= j
        < hi) by {
        if lo <= j {
            axes_rise(axes, rank, lo, j);
        }
        if hi <= j {
            axes_rise(axes, rank, hi, j);
        }
    }
    if lo > 0 {
        assert(axes[lo - 1] < axis);
    }
}

/// Every sub-axis belongs to an axis of the shape.
pub proof fn axes_are_inside(axes: Seq<usize>, rank: nat, j: int)
    requires
        grouped(axes, rank),
        0 <= j < axes.len(),
    ensures
        axes[j] < rank,
{
    axes_rise(axes, rank, j, axes.len() - 1);
}

proof fn within_is_span(axes: Seq<usize>, extents: Seq<u64>, axis: int, hi: int, i: int)
    requires
        axes.len() == extents.len(),
        0 <= i < hi <= axes.len(),
        forall|j: int| i <= j < hi ==> #[trigger] axes[j] == axis,
        hi < axes.len() ==> axes[hi] != axis,
    ensures
        within(axes, extents, i) == span(extents.subrange(i + 1, hi)),
    decreases hi - i,
{
    assert(axes[i] == axis);
    if i + 1 < hi {
        assert(axes[i + 1] == axis);
        within_is_span(axes, extents, axis, hi, i + 1);
        let rest = extents.subrange(i + 1, hi);
        assert(rest.drop_first() =~= extents.subrange(i + 2, hi));
    } else {
        assert(extents.subrange(i + 1, hi) =~= Seq::<u64>::empty());
    }
}

/// The part of a coordinate that the sub-axes from `i` on come to.
proof fn coordinate_is_value(
    axes: Seq<usize>,
    extents: Seq<u64>,
    counters: Seq<int>,
    axis: int,
    hi: int,
    i: int,
)
    requires
        axes.len() == extents.len(),
        counters.len() == extents.len(),
        0 <= i <= hi <= axes.len(),
        forall|j: int| i <= j < hi ==> #[trigger] axes[j] == axis,
        hi < axes.len() ==> axes[hi] != axis,
    ensures
        coordinate(axes, extents, counters, axis, hi) == coordinate(
            axes,
            extents,
            counters,
            axis,
            i,
        ) + value(extents.subrange(i, hi), counters.subrange(i, hi)),
    decreases hi - i,
{
    if i < hi {
        coordinate_is_value(axes, extents, counters, axis, hi, i + 1);
        within_is_span(axes, extents, axis, hi, i);
        assert(axes[i] == axis);
        let radix = extents.subrange(i, hi);
        let spelled = counters.subrange(i, hi);
        assert(radix.drop_first() =~= extents.subrange(i + 1, hi));
        assert(spelled.drop_first() =~= counters.subrange(i + 1, hi));
    } else {
        assert(extents.subrange(i, hi) =~= Seq::<u64>::empty());
    }
}

proof fn coordinate_elsewhere(
    axes: Seq<usize>,
    extents: Seq<u64>,
    counters: Seq<int>,
    axis: int,
    from: int,
    upto: int,
)
    requires
        0 <= from <= upto <= axes.len(),
        forall|j: int| from <= j < upto ==> #[trigger] axes[j] != axis,
    ensures
        coordinate(axes, extents, counters, axis, upto) == coordinate(
            axes,
            extents,
            counters,
            axis,
            from,
        ),
    decreases upto - from,
{
    if from < upto {
        coordinate_elsewhere(axes, extents, counters, axis, from, upto - 1);
        assert(axes[upto - 1] != axis);
    }
}

pub proof fn part_is_proper(radix: Seq<u64>, spelled: Seq<int>, lo: int, hi: int)
    requires
        proper(radix, spelled),
        0 <= lo <= hi <= radix.len(),
    ensures
        proper(radix.subrange(lo, hi), spelled.subrange(lo, hi)),
{
    let a = radix.subrange(lo, hi);
    let b = spelled.subrange(lo, hi);
    assert forall|i: int| 0 <= i < a.len() implies 0 <= #[trigger] b[i] < a[i] by {
        assert(b[i] == spelled[lo + i]);
        assert(a[i] == radix[lo + i]);
    }
}

proof fn run_is_span(axes: Seq<usize>, extents: Seq<u64>, axis: int, lo: int, hi: int)
    requires
        axes.len() == extents.len(),
        0 <= lo < hi <= axes.len(),
        forall|j: int| 0 <= j < axes.len() ==> (#[trigger] axes[j] == axis <==> lo <= j < hi),
    ensures
        running(axes, extents, lo) == span(extents.subrange(lo, hi)),
{
    within_is_span(axes, extents, axis, hi, lo);
    let factors = extents.subrange(lo, hi);
    assert(factors.drop_first() =~= extents.subrange(lo + 1, hi));
    assert(factors[0] == extents[lo]);
}

proof fn overshoot_is_at_the_start(
    shape: Seq<u64>,
    axes: Seq<usize>,
    extents: Seq<u64>,
    axis: int,
    lo: int,
    hi: int,
)
    requires
        0 <= lo < hi <= axes.len(),
        starts_axis(axes, lo),
        forall|j: int| 0 <= j < axes.len() ==> (#[trigger] axes[j] == axis <==> lo <= j < hi),
    ensures
        overshoots(shape, axes, extents, axis) == (running(axes, extents, lo) > shape[axis]),
{
    assert(axes[lo] == axis);
    if overshoots(shape, axes, extents, axis) {
        let j = choose|j: int|
            0 <= j < axes.len() && #[trigger] starts_axis(axes, j) && axes[j] == axis && running(
                axes,
                extents,
                j,
            ) > shape[axis];
        assert(lo <= j < hi);
        if j > lo {
            assert(axes[j - 1] == axis);
        }
    }
}

impl PlanModel {
    /// The extents of the sub-axes of one axis.
    pub open spec fn factors(self, axis: int) -> Seq<u64> {
        self.extents.subrange(low(self.axes, axis), high(self.axes, axis))
    }

    /// The counters of the sub-axes of one axis.
    pub open spec fn numeral(self, counters: Seq<int>, axis: int) -> Seq<int> {
        counters.subrange(low(self.axes, axis), high(self.axes, axis))
    }

    /// The coordinate on an axis is the number that its counters spell.
    pub proof fn coordinate_spelled(self, counters: Seq<int>, axis: int)
        requires
            self.sound(),
            counters.len() == self.extents.len(),
            0 <= axis < self.shape.len(),
        ensures
            0 <= low(self.axes, axis) < high(self.axes, axis) <= self.axes.len(),
            self.coordinates(counters)[axis] == value(
                self.factors(axis),
                self.numeral(counters, axis),
            ),
            running(self.axes, self.extents, low(self.axes, axis)) == span(self.factors(axis)),
            span(self.factors(axis)) >= self.shape[axis],
            overshoots(self.shape, self.axes, self.extents, axis) == (span(self.factors(axis))
                > self.shape[axis]),
    {
        let lo = low(self.axes, axis);
        let hi = high(self.axes, axis);
        let n = self.axes.len() as int;
        axis_range(self.axes, self.shape.len(), axis);
        assert forall|j: int| lo <= j < hi implies #[trigger] self.axes[j] == axis by {}
        coordinate_is_value(self.axes, self.extents, counters, axis, hi, lo);
        coordinate_elsewhere(self.axes, self.extents, counters, axis, 0, lo);
        coordinate_elsewhere(self.axes, self.extents, counters, axis, hi, n);
        self.span_of_an_axis(axis);
    }

    /// What the sub-axes of one axis factor into, and whether that overshoots.
    proof fn span_of_an_axis(self, axis: int)
        requires
            self.sound(),
            0 <= axis < self.shape.len(),
        ensures
            running(self.axes, self.extents, low(self.axes, axis)) == span(self.factors(axis)),
            span(self.factors(axis)) >= self.shape[axis],
            overshoots(self.shape, self.axes, self.extents, axis) == (span(self.factors(axis))
                > self.shape[axis]),
    {
        let lo = low(self.axes, axis);
        let hi = high(self.axes, axis);
        axis_range(self.axes, self.shape.len(), axis);
        run_is_span(self.axes, self.extents, axis, lo, hi);
        overshoot_is_at_the_start(self.shape, self.axes, self.extents, axis, lo, hi);
        assert(self.axes[lo] == axis);
        assert(running(self.axes, self.extents, lo) >= self.shape[axis]);
    }

    proof fn numeral_is_proper(self, counters: Seq<int>, axis: int)
        requires
            self.sound(),
            proper(self.extents, counters),
            0 <= axis < self.shape.len(),
        ensures
            proper(self.factors(axis), self.numeral(counters, axis)),
    {
        axis_range(self.axes, self.shape.len(), axis);
        part_is_proper(self.extents, counters, low(self.axes, axis), high(self.axes, axis));
    }

    /// Proper counters come to coordinates below what the axes factor into;
    /// without padding, below the dimension.
    pub proof fn coordinate_is_bounded(self, counters: Seq<int>, axis: int)
        requires
            self.sound(),
            proper(self.extents, counters),
            0 <= axis < self.shape.len(),
        ensures
            0 <= self.coordinates(counters)[axis] <= u64::MAX,
            !overshoots(self.shape, self.axes, self.extents, axis)
                ==> self.coordinates(counters)[axis] < self.shape[axis],
    {
        self.coordinate_spelled(counters, axis);
        self.numeral_is_proper(counters, axis);
        value_is_bounded(self.factors(axis), self.numeral(counters, axis));
        self.factors_are_bounded(axis);
    }

    proof fn factors_are_bounded(self, axis: int)
        requires
            self.sound(),
            0 <= axis < self.shape.len(),
        ensures
            span(self.factors(axis)) <= span(self.extents),
    {
        axis_range(self.axes, self.shape.len(), axis);
        let lo = low(self.axes, axis);
        let hi = high(self.axes, axis);
        let front = self.extents.take(lo);
        let middle = self.factors(axis);
        let back = self.extents.skip(hi);
        assert(front + (middle + back) =~= self.extents);
        span_of_parts(front, middle + back);
        span_of_parts(middle, back);
        assert forall|i: int| 0 <= i < front.len() implies 0 < #[trigger] front[i] by {
            assert(front[i] == self.extents[i]);
        }
        positive_tail(self.extents, hi);
        span_is_positive(front);
        span_is_positive(back);
        lemma_mul_inequality(1, span(back) as int, span(middle) as int);
        lemma_mul_is_commutative(span(back) as int, span(middle) as int);
        lemma_mul_inequality(1, span(front) as int, span(middle + back) as int);
    }

    // -----------------------------------------------------------------------
    // Storage order
    // -----------------------------------------------------------------------

    pub proof fn storage_is_positive(self)
        requires
            self.sound(),
        ensures
            positive(self.storage()),
            self.storage().len() == self.permutation.len(),
    {
        let storage = self.storage();
        assert forall|p: int| 0 <= p < storage.len() implies 0 < #[trigger] storage[p] by {
            assert(self.permutation[p] < self.permutation.len());
            assert(storage[p] == self.extents[self.permutation[p] as int]);
        }
    }

    /// Placing counters and taking them back changes nothing.
    pub proof fn counters_of_placed(self, counters: Seq<int>)
        requires
            self.sound(),
            counters.len() == self.extents.len(),
        ensures
            self.counters(self.placed(counters)) == counters,
    {
        let back = self.counters(self.placed(counters));
        assert forall|j: int| 0 <= j < counters.len() implies back[j] == counters[j] by {
            assert(self.permutation.contains(j as usize));
            let p = self.permutation.index_of(j as usize);
            assert(self.permutation[p] == j as usize);
        }
        assert(back =~= counters);
    }

    /// Taking counters out of storage order and placing them changes nothing.
    pub proof fn placed_of_counters(self, stored: Seq<int>)
        requires
            self.sound(),
            stored.len() == self.permutation.len(),
        ensures
            self.placed(self.counters(stored)) == stored,
    {
        let back = self.placed(self.counters(stored));
        assert forall|p: int| 0 <= p < stored.len() implies back[p] == stored[p] by {
            let j = self.permutation[p];
            assert(j < self.permutation.len());
            assert(self.permutation.contains(j));
            let q = self.permutation.index_of(j);
            assert(self.permutation[q] == j);
            assert(q == p);
        }
        assert(back =~= stored);
    }

    /// Counters are proper exactly when they are in storage order.
    pub proof fn placed_is_proper(self, counters: Seq<int>)
        requires
            self.sound(),
            counters.len() == self.extents.len(),
        ensures
            proper(self.extents, counters) <==> proper(self.storage(), self.placed(counters)),
    {
        let storage = self.storage();
        let stored = self.placed(counters);
        if proper(self.extents, counters) {
            assert forall|p: int| 0 <= p < storage.len() implies 0 <= #[trigger] stored[p]
                < storage[p] by {
                assert(self.permutation[p] < self.permutation.len());
                assert(0 <= counters[self.permutation[p] as int]);
            }
        }
        if proper(storage, stored) {
            assert forall|j: int| 0 <= j < counters.len() implies 0 <= #[trigger] counters[j]
                < self.extents[j] by {
                assert(self.permutation.contains(j as usize));
                let p = self.permutation.index_of(j as usize);
                assert(self.permutation[p] == j as usize);
                assert(0 <= stored[p] < storage[p]);
            }
        }
    }

    /// The source element of the destination element that given counters spell.
    pub proof fn source_of_counters(self, counters: Seq<int>)
        requires
            self.sound(),
            proper(self.extents, counters),
        ensures
            self.source_of(value(self.storage(), self.placed(counters))) == self.source_at(counters),
            0 <= value(self.storage(), self.placed(counters)) < span(self.storage()),
    {
        self.placed_is_proper(counters);
        digits_of_value(self.storage(), self.placed(counters));
        value_is_bounded(self.storage(), self.placed(counters));
        self.counters_of_placed(counters);
    }

    /// The counters of a destination element.
    pub proof fn counters_of_element(self, to: int)
        requires
            self.sound(),
            0 <= to < span(self.storage()),
        ensures
            proper(self.extents, self.counters(digits(self.storage(), to))),
            value(self.storage(), self.placed(self.counters(digits(self.storage(), to)))) == to,
    {
        let stored = digits(self.storage(), to);
        self.storage_is_positive();
        value_of_digits(self.storage(), to);
        self.placed_of_counters(stored);
        self.placed_is_proper(self.counters(stored));
    }
}

// ---------------------------------------------------------------------------
// Runs
// ---------------------------------------------------------------------------

/// Changing one counter changes the coordinate on its axis by its multiplier.
pub proof fn coordinate_update(
    axes: Seq<usize>,
    extents: Seq<u64>,
    counters: Seq<int>,
    at: int,
    new: int,
    axis: int,
    upto: int,
)
    requires
        0 <= at < counters.len(),
        0 <= upto <= counters.len(),
    ensures
        coordinate(axes, extents, counters.update(at, new), axis, upto) == coordinate(
            axes,
            extents,
            counters,
            axis,
            upto,
        ) + if at < upto && axes[at] == axis {
            (new - counters[at]) * within(axes, extents, at)
        } else {
            0
        },
    decreases upto,
{
    if upto > 0 {
        coordinate_update(axes, extents, counters, at, new, axis, upto - 1);
        if at == upto - 1 {
            lemma_mul_is_distributive_sub_other_way(
                within(axes, extents, at) as int,
                new,
                counters[at],
            );
        }
    }
}

impl PlanModel {
    pub proof fn storage_span(self)
        requires
            self.sound(),
        ensures
            span(self.storage()) == self.dest_elements(),
    {
        span_of_permuted(self.extents, self.permutation);
        assert(self.storage() =~= self.permutation.map_values(|at: usize| self.extents[at as int]));
    }

    proof fn outer_facts(self, position: int)
        requires
            0 <= position <= self.permutation.len(),
        ensures
            0 <= self.outer_before(position) <= position,
            forall|p: int| self.outer_before(position) <= p < position ==> #[trigger] self.folds(p),
        decreases position,
    {
        if position > 0 && self.folds(position - 1) {
            self.outer_facts(position - 1);
        }
    }

    /// Runs tile the destination.
    pub proof fn runs_tile(self)
        requires
            self.sound(),
        ensures
            0 <= self.outer() <= self.permutation.len(),
            self.run_length() > 0,
            self.run_total() > 0,
            self.run_total() * self.run_length() == self.dest_elements(),
            positive(self.storage().take(self.outer())),
            positive(self.storage().skip(self.outer())),
            self.run_length() <= self.dest_elements(),
            self.run_total() <= self.dest_elements(),
    {
        self.outer_facts(self.permutation.len() as int);
        self.storage_is_positive();
        self.storage_span();
        let o = self.outer();
        let storage = self.storage();
        let outer = storage.take(o);
        assert(outer + storage.skip(o) =~= storage);
        span_of_parts(outer, storage.skip(o));
        assert forall|i: int| 0 <= i < outer.len() implies 0 < #[trigger] outer[i] by {
            assert(outer[i] == storage[i]);
        }
        positive_tail(storage, o);
        span_is_positive(outer);
        span_is_positive(storage.skip(o));
        lemma_mul_inequality(1, span(outer) as int, span(storage.skip(o)) as int);
        lemma_mul_inequality(1, span(storage.skip(o)) as int, span(outer) as int);
        lemma_mul_is_commutative(span(outer) as int, span(storage.skip(o)) as int);
    }
}

impl PlanModel {
    /// Changing one counter, seen in the logical coordinates.
    pub proof fn coordinates_update(self, counters: Seq<int>, at: int, new: int)
        requires
            self.sound(),
            counters.len() == self.extents.len(),
            0 <= at < counters.len(),
        ensures
            self.axes[at] < self.shape.len(),
            self.coordinates(counters.update(at, new)) == self.coordinates(counters).update(
                self.axes[at] as int,
                self.coordinates(counters)[self.axes[at] as int] + (new - counters[at]) * within(
                    self.axes,
                    self.extents,
                    at,
                ),
            ),
    {
        let n = self.extents.len() as int;
        let axis = self.axes[at] as int;
        axes_are_inside(self.axes, self.shape.len(), at);
        let after = self.coordinates(counters.update(at, new));
        let before = self.coordinates(counters);
        let expected = before.update(
            axis,
            before[axis] + (new - counters[at]) * within(self.axes, self.extents, at),
        );
        assert forall|a: int| 0 <= a < after.len() implies after[a] == expected[a] by {
            coordinate_update(self.axes, self.extents, counters, at, new, a, n);
        }
        assert(after =~= expected);
    }

    /// Changing one counter moves the logical offset by its source stride.
    proof fn offset_update(self, counters: Seq<int>, at: int, new: int)
        requires
            self.sound(),
            counters.len() == self.extents.len(),
            0 <= at < counters.len(),
        ensures
            value(self.shape, self.coordinates(counters.update(at, new))) == value(
                self.shape,
                self.coordinates(counters),
            ) + (new - counters[at]) * self.src_stride(at),
    {
        self.coordinates_update(counters, at, new);
        let axis = self.axes[at] as int;
        let before = self.coordinates(counters);
        let inner = within(self.axes, self.extents, at) as int;
        value_update(
            self.shape,
            before,
            axis,
            before[axis] + (new - counters[at]) * inner,
        );
        lemma_mul_is_associative(new - counters[at], inner, weight(self.shape, axis) as int);
    }

    /// Changing the counter at one storage position.
    pub proof fn placed_update(self, counters: Seq<int>, position: int, new: int)
        requires
            self.sound(),
            counters.len() == self.extents.len(),
            0 <= position < self.permutation.len(),
        ensures
            self.placed(counters.update(self.permutation[position] as int, new)) == self.placed(
                counters,
            ).update(position, new),
    {
        let at = self.permutation[position] as int;
        assert(self.permutation[position] < self.permutation.len());
        let after = self.placed(counters.update(at, new));
        let expected = self.placed(counters).update(position, new);
        assert forall|p: int| 0 <= p < after.len() implies after[p] == expected[p] by {
            assert(self.permutation[p] < self.permutation.len());
            if p != position {
                assert(self.permutation[p] != self.permutation[position]);
            }
        }
        assert(after =~= expected);
    }

    /// Counters that differ from `low` only at folded positions from `from` on.
    spec fn mixed(self, low: Seq<int>, high: Seq<int>, from: int) -> Seq<int> {
        Seq::new(
            low.len(),
            |j: int|
                if self.permutation.index_of(j as usize) >= from {
                    high[j]
                } else {
                    low[j]
                },
        )
    }

    proof fn mixed_step(self, low: Seq<int>, high: Seq<int>, from: int)
        requires
            self.sound(),
            low.len() == self.extents.len(),
            high.len() == self.extents.len(),
            0 <= from < self.permutation.len(),
        ensures
            self.mixed(low, high, from) == self.mixed(low, high, from + 1).update(
                self.permutation[from] as int,
                high[self.permutation[from] as int],
            ),
    {
        let at = self.permutation[from] as int;
        assert(self.permutation[from] < self.permutation.len());
        let left = self.mixed(low, high, from);
        let right = self.mixed(low, high, from + 1).update(at, high[at]);
        assert forall|j: int| 0 <= j < left.len() implies left[j] == right[j] by {
            assert(self.permutation.contains(j as usize));
            let p = self.permutation.index_of(j as usize);
            assert(self.permutation[p] == j as usize);
            if p == from {
                assert(j == at);
            }
        }
        assert(left =~= right);
    }

    /// Over folded positions the logical offset moves with the destination.
    proof fn offsets_move_together(self, low: Seq<int>, high: Seq<int>, from: int)
        requires
            self.sound(),
            low.len() == self.extents.len(),
            high.len() == self.extents.len(),
            self.outer() <= from <= self.permutation.len(),
        ensures
            ({
                let mixed = self.mixed(low, high, from);
                &&& value(self.shape, self.coordinates(mixed)) - value(
                    self.shape,
                    self.coordinates(low),
                ) == value(self.storage(), self.placed(mixed)) - value(
                    self.storage(),
                    self.placed(low),
                )
                &&& forall|a: int|
                    0 <= a < self.shape.len() && overshoots(self.shape, self.axes, self.extents, a)
                        ==> #[trigger] self.coordinates(mixed)[a] == self.coordinates(low)[a]
            }),
        decreases self.permutation.len() - from,
    {
        let n = self.permutation.len() as int;
        let mixed = self.mixed(low, high, from);
        if from == n {
            assert(mixed =~= low) by {
                assert forall|j: int| 0 <= j < low.len() implies mixed[j] == low[j] by {
                    assert(self.permutation.contains(j as usize));
                    let p = self.permutation.index_of(j as usize);
                    assert(self.permutation[p] == j as usize);
                }
            }
        } else {
            self.outer_facts(n);
            self.offsets_move_together(low, high, from + 1);
            self.mixed_step(low, high, from);
            let before = self.mixed(low, high, from + 1);
            let at = self.permutation[from] as int;
            assert(self.permutation[from] < n);
            let new = high[at];
            assert(self.folds(from));
            self.offset_update(before, at, new);
            self.coordinates_update(before, at, new);
            self.placed_update(before, from, new);
            value_update(self.storage(), self.placed(before), from, new);
            assert(self.placed(before)[from] == before[at]);
        }
    }

    /// The digits of a destination element, split into its run and its place in
    /// the run.
    proof fn element_digits(self, run: int, step: int)
        requires
            self.sound(),
            0 <= run < self.run_total(),
            0 <= step < self.run_length(),
        ensures
            0 <= run * self.run_length() + step < span(self.storage()),
            digits(self.storage(), run * self.run_length() + step) == digits(
                self.storage().take(self.outer()),
                run,
            ) + digits(self.storage().skip(self.outer()), step),
    {
        self.runs_tile();
        self.storage_span();
        let o = self.outer();
        let outer = self.storage().take(o);
        let inner = self.storage().skip(o);
        assert(outer + inner =~= self.storage());
        digits_of_parts(outer, inner, run, step);
        assert(run * self.run_length() + step < self.run_total() * self.run_length())
            by (nonlinear_arith)
            requires
                0 <= run < self.run_total(),
                0 <= step < self.run_length(),
        ;
        assert(0 <= run * self.run_length()) by (nonlinear_arith)
            requires
                0 <= run,
                0 <= self.run_length(),
        ;
    }

    /// A run is contiguous in the source: the elements of one run are
    /// consecutive source elements, or all padding.
    pub proof fn run_is_contiguous(self, run: int, step: int)
        requires
            self.sound(),
            0 <= run < self.run_total(),
            0 <= step < self.run_length(),
        ensures
            self.source_of(run * self.run_length() + step) == match self.source_of(
                run * self.run_length(),
            ) {
                Some(from) => Some(from + step),
                None => None::<int>,
            },
    {
        let n = self.permutation.len() as int;
        let o = self.outer();
        self.runs_tile();
        let base = run * self.run_length();
        self.element_digits(run, 0);
        self.element_digits(run, step);
        let first = digits(self.storage(), base);
        let other = digits(self.storage(), base + step);
        assert(base + 0 == base);
        let low = self.counters(first);
        let high = self.counters(other);
        self.counters_of_element(base);
        self.counters_of_element(base + step);
        self.offsets_move_together(low, high, o);
        let mixed = self.mixed(low, high, o);
        let head = digits(self.storage().take(o), run);
        value_of_digits(self.storage().take(o), run);
        assert(mixed =~= high) by {
            assert forall|j: int| 0 <= j < high.len() implies mixed[j] == high[j] by {
                assert(self.permutation.contains(j as usize));
                let p = self.permutation.index_of(j as usize);
                assert(self.permutation[p] == j as usize);
                if p < o {
                    assert(first[p] == head[p]);
                    assert(other[p] == head[p]);
                }
            }
        }
        let a = self.coordinates(low);
        let b = self.coordinates(high);
        assert forall|axis: int| 0 <= axis < self.shape.len() implies ((#[trigger] a[axis]
            < self.shape[axis]) == (b[axis] < self.shape[axis])) by {
            self.coordinate_is_bounded(low, axis);
            self.coordinate_is_bounded(high, axis);
            if overshoots(self.shape, self.axes, self.extents, axis) {
                assert(self.coordinates(mixed)[axis] == a[axis]);
            }
        }
        if self.inside(a) {
            assert forall|axis: int| 0 <= axis < self.shape.len() implies #[trigger] b[axis]
                < self.shape[axis] by {
                assert(a[axis] < self.shape[axis]);
            }
        }
        if self.inside(b) {
            assert forall|axis: int| 0 <= axis < self.shape.len() implies #[trigger] a[axis]
                < self.shape[axis] by {
                assert(b[axis] < self.shape[axis]);
            }
        }
    }
}

} // verus!
