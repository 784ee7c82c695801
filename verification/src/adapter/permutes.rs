//! Where a permute puts each element, told by coordinates.

use super::kernel::{
    inverse_facts, inverse_of, lone_coordinate, permuted_bytes, permuted_dims, permuting_returns,
    sizes_are_of_their_dims, viewed, TransformModel,
};
use crate::fusion::{dim_sizes, Dim, PermuteModel};
use crate::layout_morphism::meaning::{
    bytes_of_element, element_count, row_major, whole_row_major,
};
use crate::layout_morphism::plan::{permuting, permuting_is_sound};
use crate::radix::{proper, span, value};
use vstd::prelude::*;

verus! {

/// What a view has on its axes, in the order of the permuted view: at axis `t` that
/// of axis `axes[t]`.
pub open spec fn turned<T>(axes: Seq<usize>, of: Seq<T>) -> Seq<T> {
    Seq::new(axes.len(), |t: int| of[axes[t] as int])
}

/// Coordinates that lie in a view.
pub open spec fn lies_in(dims: Seq<u64>, at: Seq<int>) -> bool {
    &&& at.len() == dims.len()
    &&& forall|a: int| 0 <= a < dims.len() ==> 0 <= #[trigger] at[a] < dims[a]
}

/// A permute puts the element at each place of the view to the place with the
/// permuted coordinates: axis `t` of what comes out is axis `axes[t]` of what goes
/// in. No byte is lost and none is made up.
pub proof fn a_permute_moves_each_element(
    input: Seq<u8>,
    element: nat,
    dims: Seq<u64>,
    axes: Seq<usize>,
    at: Seq<int>,
    b: int,
)
    requires
        viewed(input, element, dims, axes),
        lies_in(dims, at),
        0 <= b < element,
    ensures
        ({
            let n = dims.len() as int;
            let moved = permuted_bytes(input, element, dims, axes);
            let from = row_major(dims, at, n) * element + b;
            let to = row_major(turned(axes, dims), turned(axes, at), n) * element + b;
            &&& permuted_dims(dims, axes) == turned(axes, dims)
            &&& moved.len() == input.len() == element_count(dims, n) * element
            &&& 0 <= from < input.len()
            &&& 0 <= to < moved.len()
            &&& moved[to] == input[from]
        }),
{
    let n = dims.len() as int;
    whole_row_major(dims, at);
    let sizes = turned(axes, dims);
    let stored = turned(axes, at);
    assert(permuted_dims(dims, axes) =~= sizes);
    if n == 0 {
        assert(span(dims) == 1);
        assert(row_major(dims, at, 0) == 0 && row_major(sizes, stored, 0) == 0);
        assert(0 * element == 0) by (nonlinear_arith);
        assert(1 * element == element) by (nonlinear_arith);
    } else {
        assert forall|i: int| 0 <= i < dims.len() implies 0 < #[trigger] dims[i] by {
            assert(0 <= at[i] < dims[i]);
        }
        permuting_is_sound(dims, axes);
        let plan = permuting(dims, axes);
        assert(plan.storage() =~= sizes);
        assert(plan.placed(at) =~= stored);
        assert(proper(plan.extents, at));
        plan.source_of_counters(at);
        plan.storage_span();
        let found = plan.coordinates(at);
        assert forall|a: int| 0 <= a < n implies found[a] == at[a] by {
            lone_coordinate(dims, at, a, n);
        }
        assert(found =~= at);
        assert forall|a: int| 0 <= a < n implies #[trigger] found[a] < dims[a] by {
            assert(0 <= at[a] < dims[a]);
        }
        assert(plan.inside(found));
        whole_row_major(sizes, stored);
        let to = value(sizes, stored);
        let from = value(dims, at);
        crate::radix::value_is_bounded(dims, at);
        bytes_of_element(to, element as int, b, span(sizes) as int);
        bytes_of_element(from, element as int, b, span(dims) as int);
    }
}

/// A forward transform permutes the view that the declaration resolves to; an
/// inverse one puts each element back from where the permute put it.
pub proof fn a_transform_moves_each_element(
    permute: PermuteModel,
    bytes: Seq<u8>,
    element: nat,
    shape: Seq<u64>,
    dims: Seq<u64>,
    at: Seq<int>,
    b: int,
)
    requires
        permute.resolved(shape) == Some(dims),
        viewed(bytes, element, dims, permute.axes),
        lies_in(dims, at),
        0 <= b < element,
    ensures
        ({
            let n = dims.len() as int;
            let axes = permute.axes;
            let plain = row_major(dims, at, n) * element + b;
            let placed = row_major(turned(axes, dims), turned(axes, at), n) * element + b;
            &&& TransformModel::Identity.applied(bytes, element, shape) == Some(bytes)
            &&& TransformModel::Forward(permute).applied(bytes, element, shape) matches Some(moved)
                && moved.len() == bytes.len() && moved[placed] == bytes[plain]
            &&& TransformModel::Inverse(permute).applied(bytes, element, shape) matches Some(back)
                && back.len() == bytes.len() && back[plain] == bytes[placed]
        }),
{
    let n = dims.len() as int;
    let axes = permute.axes;
    a_permute_moves_each_element(bytes, element, dims, axes, at, b);
    inverse_facts(axes);
    let sizes = turned(axes, dims);
    let stored = turned(axes, at);
    let inverse = inverse_of(axes);
    assert(permuted_dims(dims, axes) =~= sizes);
    permuting_returns(bytes, element, dims, axes);
    assert(viewed(bytes, element, sizes, inverse));
    assert forall|t: int| 0 <= t < n implies 0 <= #[trigger] stored[t] < sizes[t] by {
        assert(axes[t] < axes.len());
        assert(0 <= at[axes[t] as int] < dims[axes[t] as int]);
    }
    a_permute_moves_each_element(bytes, element, sizes, inverse, stored, b);
    assert(turned(inverse, sizes) =~= dims) by {
        assert forall|a: int| 0 <= a < n implies turned(inverse, sizes)[a] == dims[a] by {
            assert(axes[inverse[a] as int] == a);
        }
    }
    assert(turned(inverse, stored) =~= at) by {
        assert forall|a: int| 0 <= a < n implies turned(inverse, stored)[a] == at[a] by {
            assert(axes[inverse[a] as int] == a);
        }
    }
}

/// A view has the size that each of its dimensions declares: a literal one, a part
/// of an axis, or, for the one that is left open, what makes the view hold exactly
/// the elements of the shape.
pub proof fn a_view_is_as_declared(permute: PermuteModel, shape: Seq<u64>, dims: Seq<u64>, i: int)
    requires
        permute.resolved(shape) == Some(dims),
        0 <= i < permute.view.len(),
    ensures
        dims.len() == permute.view.len(),
        element_count(dims, dims.len() as int) == element_count(shape, shape.len() as int),
        match permute.view[i] {
            Dim::Literal(literal) => dims[i] == literal,
            Dim::Axis { axis, divisor } => axis < shape.len() && dims[i] * divisor
                == shape[axis as int],
            Dim::Auto => true,
        },
{
    super::kernel::a_view_holds_the_shape(permute, shape);
    whole_row_major(dims, Seq::new(dims.len(), |k: int| 0));
    whole_row_major(shape, Seq::new(shape.len(), |k: int| 0));
    sizes_are_of_their_dims(permute.view, shape, i);
    let sizes = dim_sizes(permute.view, shape).unwrap();
    if permute.view.contains(Dim::Auto) {
        let open = permute.view.index_of(Dim::Auto);
        assert(permute.view[open] == Dim::Auto);
    }
    if let Dim::Axis { axis, divisor } = permute.view[i] {
        let whole = shape[axis as int] as int;
        vstd::arithmetic::div_mod::lemma_fundamental_div_mod(whole, divisor as int);
        assert(divisor * (whole / divisor as int) == (whole / divisor as int) * divisor)
            by (nonlinear_arith);
    }
}

} // verus!
