//! What a record means for a tensor: which element stands where, told by the
//! record's own formulas and its own permutation.

use super::formula::{evaluation, Evaluation};
use super::laws::arranging_is_injective;
use super::plan::{
    arranged_bytes, extents_of, planned, restored_bytes, structured, structured_plans_are_sound,
    Extents, PlanModel,
};
use super::walk::{axis_range, high, low};
use super::{LayoutMorphism, SubAxis};
use crate::radix::{proper, span, span_of_parts, value};
use vstd::prelude::*;

verus! {

/// How many elements a shape has: the product of its first `upto` dimensions.
pub open spec fn element_count(dims: Seq<u64>, upto: int) -> nat
    decreases upto,
{
    if upto <= 0 {
        1
    } else {
        element_count(dims, upto - 1) * dims[upto - 1] as nat
    }
}

/// The place of an element among all elements, the last axis varying fastest: from
/// its coordinates on the first `upto` axes.
pub open spec fn row_major(dims: Seq<u64>, at: Seq<int>, upto: int) -> int
    decreases upto,
{
    if upto <= 0 {
        0
    } else {
        row_major(dims, at, upto - 1) * dims[upto - 1] + at[upto - 1]
    }
}

/// The coordinate on one logical axis: the counters of its sub-axes among the
/// first `upto`, the last varying fastest.
pub open spec fn along(
    sub_axes: Seq<SubAxis>,
    extents: Seq<u64>,
    counters: Seq<int>,
    axis: int,
    upto: int,
) -> int
    decreases upto,
{
    if upto <= 0 {
        0
    } else if sub_axes[upto - 1].axis == axis {
        along(sub_axes, extents, counters, axis, upto - 1) * extents[upto - 1] + counters[upto - 1]
    } else {
        along(sub_axes, extents, counters, axis, upto - 1)
    }
}

/// The values of a record's formulas for a shape.
pub open spec fn are_extents(record: LayoutMorphism, shape: Seq<u64>, extents: Seq<u64>) -> bool {
    &&& extents.len() == record.sub_axes@.len()
    &&& forall|j: int|
        0 <= j < extents.len() ==> evaluation(
            (#[trigger] record.sub_axes@[j]).extent@,
            shape,
        ) == Evaluation::Value(extents[j])
}

/// What the sub-axes have, in storage order: at position `p` that of the sub-axis
/// `permutation[p]`.
pub open spec fn stored_as<T>(record: LayoutMorphism, of: Seq<T>) -> Seq<T> {
    Seq::new(record.permutation@.len(), |p: int| of[record.permutation@[p] as int])
}

proof fn value_of_pushed(radix: Seq<u64>, digits: Seq<int>, base: u64, digit: int)
    requires
        radix.len() == digits.len(),
    ensures
        value(radix.push(base), digits.push(digit)) == value(radix, digits) * base + digit,
        span(radix.push(base)) == span(radix) * base as nat,
    decreases radix.len(),
{
    let more = radix.push(base);
    let longer = digits.push(digit);
    assert(more =~= radix + seq![base]);
    span_of_parts(radix, seq![base]);
    assert(seq![base].drop_first() =~= Seq::<u64>::empty());
    assert(span(seq![base].drop_first()) == 1);
    assert(seq![base][0] == base);
    assert(base as nat * 1nat == base as nat) by (nonlinear_arith);
    if radix.len() == 0 {
        assert(more.drop_first() =~= Seq::<u64>::empty());
        assert(span(Seq::<u64>::empty()) == 1);
        assert(value(Seq::<u64>::empty(), longer.drop_first()) == 0);
        assert(digit * 1 == digit) by (nonlinear_arith);
        assert(value(radix, digits) == 0);
        assert(0 * base == 0) by (nonlinear_arith);
    } else {
        let rest = radix.drop_first();
        let tail = digits.drop_first();
        value_of_pushed(rest, tail, base, digit);
        assert(more.drop_first() =~= rest.push(base));
        assert(longer.drop_first() =~= tail.push(digit));
        assert(rest.push(base) =~= rest + seq![base]);
        span_of_parts(rest, seq![base]);
        let d = digits[0];
        let s = span(rest) as int;
        let b = base as int;
        let v = value(rest, tail);
        assert(d * (s * b) + (v * b + digit) == (d * s + v) * b + digit) by (nonlinear_arith);
    }
}

proof fn row_major_is_value(dims: Seq<u64>, at: Seq<int>, upto: int)
    requires
        0 <= upto <= dims.len(),
        at.len() == dims.len(),
    ensures
        row_major(dims, at, upto) == value(dims.take(upto), at.take(upto)),
        element_count(dims, upto) == span(dims.take(upto)),
    decreases upto,
{
    if upto > 0 {
        row_major_is_value(dims, at, upto - 1);
        assert(dims.take(upto) =~= dims.take(upto - 1).push(dims[upto - 1]));
        assert(at.take(upto) =~= at.take(upto - 1).push(at[upto - 1]));
        value_of_pushed(dims.take(upto - 1), at.take(upto - 1), dims[upto - 1], at[upto - 1]);
    } else {
        assert(dims.take(0) =~= Seq::<u64>::empty());
    }
}

pub(crate) proof fn whole_row_major(dims: Seq<u64>, at: Seq<int>)
    requires
        at.len() == dims.len(),
    ensures
        row_major(dims, at, dims.len() as int) == value(dims, at),
        element_count(dims, dims.len() as int) == span(dims),
{
    row_major_is_value(dims, at, dims.len() as int);
    assert(dims.take(dims.len() as int) =~= dims);
    assert(at.take(at.len() as int) =~= at);
}

proof fn along_is_value(
    record: LayoutMorphism,
    plan: PlanModel,
    counters: Seq<int>,
    axis: int,
    upto: int,
)
    requires
        plan.sound(),
        plan.axes == super::plan::axes_of(record.sub_axes@),
        counters.len() == plan.extents.len(),
        0 <= axis < plan.shape.len(),
        0 <= upto <= plan.extents.len(),
    ensures
        ({
            let lo = low(plan.axes, axis);
            let hi = high(plan.axes, axis);
            let end = if upto < lo {
                lo
            } else if upto < hi {
                upto
            } else {
                hi
            };
            along(record.sub_axes@, plan.extents, counters, axis, upto) == value(
                plan.extents.subrange(lo, end),
                counters.subrange(lo, end),
            )
        }),
    decreases upto,
{
    axis_range(plan.axes, plan.shape.len(), axis);
    let lo = low(plan.axes, axis);
    let hi = high(plan.axes, axis);
    if upto <= 0 {
        assert(plan.extents.subrange(lo, lo) =~= Seq::<u64>::empty());
    } else {
        along_is_value(record, plan, counters, axis, upto - 1);
        assert(plan.axes[upto - 1] == record.sub_axes@[upto - 1].axis);
        if lo < upto <= hi {
            assert(plan.axes[upto - 1] == axis);
            let e = plan.extents.subrange(lo, upto - 1);
            let c = counters.subrange(lo, upto - 1);
            assert(plan.extents.subrange(lo, upto) =~= e.push(plan.extents[upto - 1]));
            assert(counters.subrange(lo, upto) =~= c.push(counters[upto - 1]));
            value_of_pushed(e, c, plan.extents[upto - 1], counters[upto - 1]);
        } else {
            assert(plan.axes[upto - 1] != axis);
        }
    }
}

pub(crate) proof fn found_extents(record: LayoutMorphism, shape: Seq<u64>, extents: Seq<u64>, upto: int)
    requires
        0 <= upto <= extents.len(),
        are_extents(record, shape, extents),
    ensures
        extents_of(record, shape, upto) matches Extents::Found(found) ==> found == extents.take(
            upto,
        ),
        (forall|j: int| 0 <= j < upto ==> #[trigger] extents[j] > 0) ==> extents_of(
            record,
            shape,
            upto,
        ) is Found,
    decreases upto,
{
    if upto > 0 {
        found_extents(record, shape, extents, upto - 1);
        let sub = record.sub_axes@[upto - 1];
        assert(evaluation(sub.extent@, shape) == Evaluation::Value(extents[upto - 1]));
        if let Extents::Found(found) = extents_of(record, shape, upto) {
            assert(found =~= extents.take(upto));
        }
    } else {
        assert(extents.take(0) =~= Seq::<u64>::empty());
    }
}

/// The plan of a record holds what the record says: its shape is the one it was
/// made for, and its storage has at each position the extent of the sub-axis that
/// the record's permutation puts there.
pub proof fn a_plan_stores_in_the_declared_order(
    record: LayoutMorphism,
    shape: Seq<u64>,
    extents: Seq<u64>,
)
    requires
        structured(record),
        record.sub_axes@.len() > 0,
        planned(record, shape) is Ready,
        are_extents(record, shape, extents),
    ensures
        planned(record, shape)->Ready_0.shape == shape,
        planned(record, shape)->Ready_0.storage() == stored_as(record, extents),
        planned(record, shape)->Ready_0.extents == extents,
        planned(record, shape)->Ready_0.permutation == record.permutation@,
{
    let plan = planned(record, shape)->Ready_0;
    found_extents(record, shape, extents, extents.len() as int);
    assert(extents.take(extents.len() as int) =~= extents);
    assert(plan.storage() =~= stored_as(record, extents));
}

/// The destination holds, at the coordinates that the storage order gives the
/// sub-axes, the source element at the coordinates that the sub-axes come to on
/// the logical axes; zeros, where those lie outside the shape.
pub proof fn an_element_stands_where_the_record_says(
    record: LayoutMorphism,
    shape: Seq<u64>,
    extents: Seq<u64>,
    counters: Seq<int>,
    source: Seq<u8>,
    element: nat,
    b: int,
)
    requires
        structured(record),
        record.sub_axes@.len() > 0,
        shape.len() <= usize::MAX,
        planned(record, shape) is Ready,
        are_extents(record, shape, extents),
        counters.len() == extents.len(),
        forall|j: int| 0 <= j < extents.len() ==> 0 <= #[trigger] counters[j] < extents[j],
        0 <= b < element,
    ensures
        ({
            let plan = planned(record, shape)->Ready_0;
            let n = extents.len() as int;
            let rank = shape.len() as int;
            let made = arranged_bytes(plan, source, element);
            let dims = stored_as(record, extents);
            let to = row_major(dims, stored_as(record, counters), n);
            let at = Seq::new(
                shape.len(),
                |axis: int| along(record.sub_axes@, extents, counters, axis, n),
            );
            let from = row_major(shape, at, rank);
            let inside = forall|axis: int| 0 <= axis < rank ==> #[trigger] at[axis] < shape[axis];
            &&& made.len() == element_count(dims, n) * element
            &&& 0 <= to < element_count(dims, n)
            &&& 0 <= to * element + b < made.len()
            &&& made[to * element + b] == if inside {
                source[from * element + b]
            } else {
                0u8
            }
            &&& inside ==> 0 <= from < element_count(shape, rank)
        }),
{
    let plan = planned(record, shape)->Ready_0;
    let n = extents.len() as int;
    structured_plans_are_sound(record, shape);
    a_plan_stores_in_the_declared_order(record, shape, extents);
    let stored = stored_as(record, counters);
    assert(plan.placed(counters) =~= stored);
    assert(proper(plan.extents, counters));
    plan.source_of_counters(counters);
    plan.storage_span();
    whole_row_major(plan.storage(), stored);
    let to = value(plan.storage(), stored);
    let at = Seq::new(
        shape.len(),
        |axis: int| along(record.sub_axes@, extents, counters, axis, n),
    );
    let found = plan.coordinates(counters);
    assert forall|axis: int| 0 <= axis < shape.len() implies found[axis] == at[axis] by {
        plan.coordinate_spelled(counters, axis);
        axis_range(plan.axes, plan.shape.len(), axis);
        along_is_value(record, plan, counters, axis, n);
    }
    assert(found =~= at);
    whole_row_major(shape, at);
    let e = element as int;
    bytes_of_element(to, e, b, span(plan.storage()) as int);
    if plan.inside(found) {
        super::laws::sources_are_inside(plan, to);
    }
    let inside = forall|axis: int| 0 <= axis < shape.len() ==> #[trigger] at[axis] < shape[axis];
    assert(inside == plan.inside(found));
}

pub(crate) proof fn bytes_of_element(at: int, element: int, b: int, count: int)
    requires
        0 <= at < count,
        0 <= b < element,
    ensures
        0 <= at * element + b < count * element,
        (at * element + b) / element == at,
        (at * element + b) % element == b,
{
    assert(0 <= at * element && at * element + element <= count * element) by (nonlinear_arith)
        requires
            0 <= at,
            at + 1 <= count,
            0 < element,
    ;
    assert(at * element == element * at) by (nonlinear_arith);
    vstd::arithmetic::div_mod::lemma_fundamental_div_mod_converse(
        at * element + b,
        element,
        at,
        b,
    );
}

/// Undoing an arrangement takes each element back from where the record says that
/// it stands.
pub proof fn an_element_is_taken_back_from_there(
    record: LayoutMorphism,
    shape: Seq<u64>,
    extents: Seq<u64>,
    counters: Seq<int>,
    destination: Seq<u8>,
    element: nat,
    b: int,
)
    requires
        structured(record),
        record.sub_axes@.len() > 0,
        shape.len() <= usize::MAX,
        planned(record, shape) is Ready,
        are_extents(record, shape, extents),
        counters.len() == extents.len(),
        forall|j: int| 0 <= j < extents.len() ==> 0 <= #[trigger] counters[j] < extents[j],
        forall|axis: int|
            0 <= axis < shape.len() ==> #[trigger] along(
                record.sub_axes@,
                extents,
                counters,
                axis,
                extents.len() as int,
            ) < shape[axis],
        0 <= b < element,
    ensures
        ({
            let plan = planned(record, shape)->Ready_0;
            let n = extents.len() as int;
            let rank = shape.len() as int;
            let back = restored_bytes(plan, destination, element);
            let to = row_major(stored_as(record, extents), stored_as(record, counters), n);
            let at = Seq::new(
                shape.len(),
                |axis: int| along(record.sub_axes@, extents, counters, axis, n),
            );
            let from = row_major(shape, at, rank);
            &&& back.len() == element_count(shape, rank) * element
            &&& 0 <= from * element + b < back.len()
            &&& back[from * element + b] == destination[to * element + b]
        }),
{
    let plan = planned(record, shape)->Ready_0;
    let n = extents.len() as int;
    structured_plans_are_sound(record, shape);
    a_plan_stores_in_the_declared_order(record, shape, extents);
    let stored = stored_as(record, counters);
    assert(plan.placed(counters) =~= stored);
    assert(proper(plan.extents, counters));
    plan.source_of_counters(counters);
    plan.storage_span();
    whole_row_major(plan.storage(), stored);
    let to = value(plan.storage(), stored);
    let at = Seq::new(
        shape.len(),
        |axis: int| along(record.sub_axes@, extents, counters, axis, n),
    );
    let found = plan.coordinates(counters);
    assert forall|axis: int| 0 <= axis < shape.len() implies found[axis] == at[axis] by {
        plan.coordinate_spelled(counters, axis);
        axis_range(plan.axes, plan.shape.len(), axis);
        along_is_value(record, plan, counters, axis, n);
    }
    assert(found =~= at);
    whole_row_major(shape, at);
    assert forall|axis: int| 0 <= axis < shape.len() implies #[trigger] found[axis]
        < shape[axis] by {
        assert(along(record.sub_axes@, extents, counters, axis, n) < shape[axis]);
    }
    assert(plan.inside(found));
    let from = value(shape, at);
    assert(plan.source_of(to) == Some(from));
    super::laws::sources_are_inside(plan, to);
    bytes_of_element(from, element as int, b, span(shape) as int);
    let place = super::plan::place_of(plan, from);
    assert(0 <= place < plan.dest_elements() && plan.source_of(place) == Some(from));
    arranging_is_injective(plan, place, to);
}

/// A record without sub-axes arranges nothing: the bytes stay as they are.
pub proof fn the_identity_moves_nothing(
    record: LayoutMorphism,
    shape: Seq<u64>,
    source: Seq<u8>,
    element: nat,
)
    requires
        record.sub_axes@.len() == 0,
        shape.len() <= usize::MAX,
        planned(record, shape) is Ready,
        source.len() == element_count(shape, shape.len() as int) * element,
        element > 0,
    ensures
        planned(record, shape)->Ready_0.storage() == shape,
        arranged_bytes(planned(record, shape)->Ready_0, source, element) == source,
{
    let plan = planned(record, shape)->Ready_0;
    structured_plans_are_sound(record, shape);
    assert(plan.storage() =~= shape);
    plan.storage_span();
    whole_row_major(shape, Seq::new(shape.len(), |i: int| 0));
    let made = arranged_bytes(plan, source, element);
    let e = element as int;
    assert forall|i: int| 0 <= i < source.len() implies made[i] == source[i] by {
        let to = i / e;
        vstd::arithmetic::div_mod::lemma_fundamental_div_mod(i, e);
        assert(0 <= to < span(shape)) by (nonlinear_arith)
            requires
                0 <= i < span(shape) * e,
                i == e * to + i % e,
                0 <= i % e,
                e > 0,
        ;
        identity_stays(plan, to);
        assert(e * to == to * e) by (nonlinear_arith);
    }
    assert(made =~= source);
}

proof fn identity_stays(plan: PlanModel, to: int)
    requires
        plan.sound(),
        plan.axes == super::plan::counting(plan.shape.len()),
        plan.extents == plan.shape,
        plan.permutation == super::plan::counting(plan.shape.len()),
        plan.storage() == plan.shape,
        plan.shape.len() <= usize::MAX,
        0 <= to < plan.dest_elements(),
    ensures
        plan.source_of(to) == Some(to),
{
    let digits = crate::radix::digits(plan.shape, to);
    crate::radix::value_of_digits(plan.shape, to);
    let counters = plan.counters(digits);
    assert forall|j: int| 0 <= j < digits.len() implies counters[j] == digits[j] by {
        assert(plan.permutation.contains(j as usize));
        let p = plan.permutation.index_of(j as usize);
        assert(plan.permutation[p] == p as usize);
    }
    assert(counters =~= digits);
    let found = plan.coordinates(counters);
    assert forall|a: int| 0 <= a < plan.shape.len() implies found[a] == digits[a] by {
        plan.coordinate_spelled(counters, a);
        axis_range(plan.axes, plan.shape.len(), a);
        let lo = low(plan.axes, a);
        let hi = high(plan.axes, a);
        assert(plan.axes[a] == a);
        assert(lo <= a < hi);
        assert(plan.axes[lo] == lo && plan.axes[hi - 1] == hi - 1);
        assert(lo == a && hi == a + 1);
        let f = plan.factors(a);
        let c = plan.numeral(counters, a);
        assert(f =~= seq![plan.shape[a]]);
        assert(c =~= seq![digits[a]]);
        assert(f.drop_first() =~= Seq::<u64>::empty());
        assert(value(f.drop_first(), c.drop_first()) == 0);
        assert(span(f.drop_first()) == 1);
        assert(digits[a] * 1 == digits[a]) by (nonlinear_arith);
    }
    assert(found =~= digits);
    assert forall|a: int| 0 <= a < plan.shape.len() implies #[trigger] found[a] < plan.shape[a] by {
        assert(0 <= digits[a] < plan.shape[a]);
    }
}

} // verus!
