//! An arrangement loses nothing: every source element stands at exactly one
//! destination element, so what is arranged can be put back.

use super::plan::PlanModel;
use super::walk::{axes_are_inside, axis_range, high, low, part_is_proper};
use crate::radix::{
    digits, digits_of_value, positive, proper, value, value_is_bounded, value_of_digits,
};
use vstd::prelude::*;

verus! {

/// What is not padding stands for an element of the source.
pub proof fn sources_are_inside(plan: PlanModel, to: int)
    requires
        plan.sound(),
        0 <= to < plan.dest_elements(),
        plan.source_of(to) is Some,
    ensures
        0 <= plan.source_of(to).unwrap() < plan.source_elements(),
{
    plan.storage_span();
    plan.counters_of_element(to);
    let counters = plan.counters(digits(plan.storage(), to));
    coordinates_are_proper(plan, counters);
    value_is_bounded(plan.shape, plan.coordinates(counters));
}

proof fn coordinates_are_proper(plan: PlanModel, counters: Seq<int>)
    requires
        plan.sound(),
        proper(plan.extents, counters),
        plan.inside(plan.coordinates(counters)),
    ensures
        proper(plan.shape, plan.coordinates(counters)),
{
    let found = plan.coordinates(counters);
    assert forall|a: int| 0 <= a < plan.shape.len() implies 0 <= #[trigger] found[a]
        < plan.shape[a] by {
        plan.coordinate_is_bounded(counters, a);
    }
}

/// No two destination elements hold the same source element.
pub proof fn arranging_is_injective(plan: PlanModel, a: int, b: int)
    requires
        plan.sound(),
        0 <= a < plan.dest_elements(),
        0 <= b < plan.dest_elements(),
        plan.source_of(a) is Some,
        plan.source_of(a) == plan.source_of(b),
    ensures
        a == b,
{
    plan.storage_span();
    plan.counters_of_element(a);
    plan.counters_of_element(b);
    let x = plan.counters(digits(plan.storage(), a));
    let y = plan.counters(digits(plan.storage(), b));
    coordinates_are_proper(plan, x);
    coordinates_are_proper(plan, y);
    digits_of_value(plan.shape, plan.coordinates(x));
    digits_of_value(plan.shape, plan.coordinates(y));
    assert(plan.coordinates(x) == plan.coordinates(y));
    assert forall|j: int| 0 <= j < x.len() implies x[j] == y[j] by {
        let axis = plan.axes[j] as int;
        axes_are_inside(plan.axes, plan.shape.len(), j);
        axis_range(plan.axes, plan.shape.len(), axis);
        plan.coordinate_spelled(x, axis);
        plan.coordinate_spelled(y, axis);
        let lo = low(plan.axes, axis);
        let hi = high(plan.axes, axis);
        part_is_proper(plan.extents, x, lo, hi);
        part_is_proper(plan.extents, y, lo, hi);
        digits_of_value(plan.factors(axis), plan.numeral(x, axis));
        digits_of_value(plan.factors(axis), plan.numeral(y, axis));
        assert(plan.numeral(x, axis)[j - lo] == x[j]);
        assert(plan.numeral(y, axis)[j - lo] == y[j]);
    }
    assert(x =~= y);
}

/// The counters under which a source element stands.
spec fn counters_for(plan: PlanModel, coordinates: Seq<int>) -> Seq<int> {
    Seq::new(
        plan.extents.len(),
        |j: int|
            {
                let axis = plan.axes[j] as int;
                digits(plan.factors(axis), coordinates[axis])[j - low(plan.axes, axis)]
            },
    )
}

proof fn counters_spell(plan: PlanModel, coordinates: Seq<int>, axis: int)
    requires
        plan.sound(),
        proper(plan.shape, coordinates),
        0 <= axis < plan.shape.len(),
    ensures
        proper(plan.factors(axis), digits(plan.factors(axis), coordinates[axis])),
        plan.numeral(counters_for(plan, coordinates), axis) == digits(
            plan.factors(axis),
            coordinates[axis],
        ),
        plan.coordinates(counters_for(plan, coordinates))[axis] == coordinates[axis],
{
    let counters = counters_for(plan, coordinates);
    let lo = low(plan.axes, axis);
    let hi = high(plan.axes, axis);
    axis_range(plan.axes, plan.shape.len(), axis);
    plan.coordinate_spelled(counters, axis);
    let radix = plan.factors(axis);
    assert(positive(radix)) by {
        assert forall|i: int| 0 <= i < radix.len() implies 0 < #[trigger] radix[i] by {
            assert(radix[i] == plan.extents[lo + i]);
        }
    }
    assert(0 <= coordinates[axis] < plan.shape[axis]);
    value_of_digits(radix, coordinates[axis]);
    let spelled = digits(radix, coordinates[axis]);
    assert forall|i: int| 0 <= i < spelled.len() implies plan.numeral(counters, axis)[i]
        == spelled[i] by {
        assert(plan.axes[lo + i] == axis);
    }
    assert(plan.numeral(counters, axis) =~= spelled);
}

/// Every source element stands somewhere in the destination.
pub proof fn arranging_is_onto(plan: PlanModel, from: int) -> (to: int)
    requires
        plan.sound(),
        0 <= from < plan.source_elements(),
    ensures
        0 <= to < plan.dest_elements(),
        plan.source_of(to) == Some(from),
{
    value_of_digits(plan.shape, from);
    let coordinates = digits(plan.shape, from);
    let counters = counters_for(plan, coordinates);
    assert forall|j: int| 0 <= j < plan.extents.len() implies 0 <= #[trigger] counters[j]
        < plan.extents[j] by {
        let axis = plan.axes[j] as int;
        axes_are_inside(plan.axes, plan.shape.len(), j);
        axis_range(plan.axes, plan.shape.len(), axis);
        counters_spell(plan, coordinates, axis);
        let lo = low(plan.axes, axis);
        let spelled = digits(plan.factors(axis), coordinates[axis]);
        assert(0 <= spelled[j - lo] < plan.factors(axis)[j - lo]);
        assert(plan.factors(axis)[j - lo] == plan.extents[j]);
    }
    let found = plan.coordinates(counters);
    assert forall|a: int| 0 <= a < plan.shape.len() implies found[a] == coordinates[a] by {
        counters_spell(plan, coordinates, a);
    }
    assert(found =~= coordinates);
    plan.source_of_counters(counters);
    plan.storage_span();
    let to = value(plan.storage(), plan.placed(counters));
    assert(plan.inside(found)) by {
        assert forall|a: int| 0 <= a < plan.shape.len() implies #[trigger] found[a]
            < plan.shape[a] by {
            assert(0 <= coordinates[a] < plan.shape[a]);
        }
    }
    to
}

} // verus!
