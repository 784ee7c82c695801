//! The permute kernel: a pure index remap of fixed-size elements. No arithmetic
//! touches a value, so it is exactly invertible and blind to the element type.

use crate::arith::product;
use crate::fusion::{dim_size, dim_sizes, Dim, Permute, PermuteModel};
use crate::layout_morphism::plan::{
    arranged_bytes, bijective, counting, permuting, permuting_is_sound, within, Plan,
};
use crate::layout_morphism::walk::{coordinate, span_without};
use crate::radix::{
    digits, positive, span, span_is_positive, span_of_parts, value, value_is_bounded,
    value_of_digits,
};
use vstd::prelude::*;

verus! {

/// The dimensions of a view, permuted.
pub open spec fn permuted_dims(dims: Seq<u64>, axes: Seq<usize>) -> Seq<u64> {
    axes.map_values(|axis: usize| dims[axis as int])
}

/// The bytes of a view whose axes are permuted: axis `axes[t]` of the input is
/// axis `t` of the output.
pub open spec fn permuted_bytes(
    input: Seq<u8>,
    element: nat,
    dims: Seq<u64>,
    axes: Seq<usize>,
) -> Seq<u8> {
    if dims.len() == 0 {
        input
    } else {
        arranged_bytes(permuting(dims, axes), input, element)
    }
}

/// The permutation that undoes another.
pub open spec fn inverse_of(axes: Seq<usize>) -> Seq<usize> {
    Seq::new(axes.len(), |axis: int| axes.index_of(axis as usize) as usize)
}

/// A view that an input fills: the axes are a permutation, and the elements are
/// those of the input.
pub open spec fn viewed(
    input: Seq<u8>,
    element: nat,
    dims: Seq<u64>,
    axes: Seq<usize>,
) -> bool {
    &&& axes.len() == dims.len()
    &&& dims.len() <= usize::MAX
    &&& bijective(axes)
    &&& span(dims) <= u64::MAX
    &&& span(dims) * element == input.len()
}

/// A view of an input that can be permuted: the input fills it, and it is empty
/// only where whole rows that stay in place are.
pub open spec fn permutable(
    input: Seq<u8>,
    element: nat,
    dims: Seq<u64>,
    axes: Seq<usize>,
) -> bool {
    &&& viewed(input, element, dims, axes)
    &&& positive(dims) || element == 0 || (axes.last() == dims.len() - 1 && dims.last() == 0)
}

pub(crate) proof fn lone_coordinate(dims: Seq<u64>, counters: Seq<int>, axis: int, upto: int)
    requires
        dims.len() <= usize::MAX,
        counters.len() == dims.len(),
        0 <= axis < dims.len(),
        0 <= upto <= dims.len(),
    ensures
        coordinate(counting(dims.len()), dims, counters, axis, upto) == if upto > axis {
            counters[axis]
        } else {
            0
        },
    decreases upto,
{
    if upto > 0 {
        lone_coordinate(dims, counters, axis, upto - 1);
        let axes = counting(dims.len());
        if upto < dims.len() {
            assert(axes[upto] != axes[upto - 1]);
        }
        assert(within(axes, dims, upto - 1) == 1);
    }
}

/// A plan that only permutes leaves coordinates as they are.
proof fn own_coordinates(dims: Seq<u64>, axes: Seq<usize>, counters: Seq<int>)
    requires
        dims.len() <= usize::MAX,
        counters.len() == dims.len(),
    ensures
        permuting(dims, axes).coordinates(counters) == counters,
{
    let found = permuting(dims, axes).coordinates(counters);
    assert forall|a: int| 0 <= a < dims.len() implies found[a] == counters[a] by {
        lone_coordinate(dims, counters, a, dims.len() as int);
    }
    assert(found =~= counters);
}

pub proof fn inverse_facts(axes: Seq<usize>)
    requires
        axes.len() <= usize::MAX,
        bijective(axes),
    ensures
        bijective(inverse_of(axes)),
        forall|axis: int|
            0 <= axis < axes.len() ==> axes[#[trigger] inverse_of(axes)[axis] as int] == axis,
        forall|t: int| 0 <= t < axes.len() ==> inverse_of(axes)[#[trigger] axes[t] as int] == t,
{
    let inverse = inverse_of(axes);
    assert forall|axis: int| 0 <= axis < axes.len() implies axes[#[trigger] inverse[axis] as int]
        == axis && inverse[axis] < axes.len() by {
        assert(axes.contains(axis as usize));
        let t = axes.index_of(axis as usize);
        assert(0 <= t < axes.len() && axes[t] == axis as usize);
    }
    assert forall|t: int| 0 <= t < axes.len() implies inverse[#[trigger] axes[t] as int] == t by {
        assert(axes[t] < axes.len());
        let axis = axes[t] as int;
        assert(axes[inverse[axis] as int] == axis);
    }
    assert forall|i: int, j: int| 0 <= i < inverse.len() && 0 <= j < inverse.len() && i
        != j implies inverse[i] != inverse[j] by {
        assert(axes[inverse[i] as int] == i && axes[inverse[j] as int] == j);
    }
    assert forall|x: usize| x < inverse.len() implies #[trigger] inverse.contains(x) by {
        assert(axes[x as int] < axes.len());
        assert(inverse[axes[x as int] as int] == x);
    }
}

/// The inverse permutation takes every element back.
proof fn element_returns(dims: Seq<u64>, axes: Seq<usize>, u: int) -> (t: int)
    requires
        0 < dims.len() <= usize::MAX,
        axes.len() == dims.len(),
        bijective(axes),
        positive(dims),
        span(dims) <= u64::MAX,
        0 <= u < span(dims),
    ensures
        0 <= t < span(dims),
        permuting(dims, axes).source_of(t) == Some(u),
        permuting(permuted_dims(dims, axes), inverse_of(axes)).source_of(u) == Some(t),
        positive(permuted_dims(dims, axes)),
        span(permuted_dims(dims, axes)) == span(dims),
{
    let m = permuting(dims, axes);
    let turned = permuted_dims(dims, axes);
    let back = inverse_of(axes);
    permuting_is_sound(dims, axes);
    inverse_facts(axes);
    m.storage_is_positive();
    m.storage_span();
    assert(turned =~= m.storage());
    let w = permuting(turned, back);
    permuting_is_sound(turned, back);
    value_of_digits(dims, u);
    let x = digits(dims, u);
    own_coordinates(dims, axes, x);
    m.source_of_counters(x);
    let y = m.placed(x);
    let t = value(m.storage(), y);
    m.placed_is_proper(x);
    own_coordinates(turned, back, y);
    w.source_of_counters(y);
    assert(w.placed(y) =~= x) by {
        assert forall|q: int| 0 <= q < x.len() implies w.placed(y)[q] == x[q] by {
            assert(axes[back[q] as int] == q);
        }
    }
    assert(w.storage() =~= dims) by {
        assert forall|q: int| 0 <= q < dims.len() implies w.storage()[q] == dims[q] by {
            assert(axes[back[q] as int] == q);
        }
    }
    value_is_bounded(m.storage(), y);
    t
}

proof fn byte_of(to: int, element: int, r: int, count: int)
    requires
        0 <= to < count,
        0 <= r < element,
    ensures
        0 <= to * element + r < count * element,
        (to * element + r) / element == to,
        (to * element + r) % element == r,
{
    vstd::arithmetic::div_mod::lemma_fundamental_div_mod_converse(
        to * element + r,
        element,
        to,
        r,
    );
    assert(0 <= to * element + r < count * element) by (nonlinear_arith)
        requires
            0 <= to < count,
            0 <= r < element,
    ;
}

/// An empty axis makes the whole view empty.
proof fn an_empty_axis_is_all(dims: Seq<u64>, at: int)
    requires
        0 <= at < dims.len(),
        dims[at] == 0,
    ensures
        span(dims) == 0,
{
    span_without(dims, at);
    assert(0 * span(dims.remove(at)) == 0) by (nonlinear_arith);
}

/// A permuted view holds as many elements.
proof fn turning_keeps_the_span(dims: Seq<u64>, axes: Seq<usize>)
    requires
        axes.len() == dims.len() <= usize::MAX,
        bijective(axes),
        span(dims) <= u64::MAX,
    ensures
        span(permuted_dims(dims, axes)) == span(dims),
        positive(dims) ==> positive(permuted_dims(dims, axes)),
        span(dims) > 0 <==> positive(dims),
{
    let turned = permuted_dims(dims, axes);
    if dims.len() == 0 {
        assert(turned =~= dims);
        assert(span(dims) == 1);
    } else if positive(dims) {
        span_is_positive(dims);
        let zero = element_returns(dims, axes, 0);
    } else {
        let i = choose|i: int| 0 <= i < dims.len() && dims[i] == 0;
        an_empty_axis_is_all(dims, i);
        assert(axes.contains(i as usize));
        let t = axes.index_of(i as usize);
        assert(turned[t] == dims[i]);
        an_empty_axis_is_all(turned, t);
    }
}

/// A permute is exactly invertible: permuting by the inverse permutation gives
/// the input back.
pub proof fn permuting_returns(input: Seq<u8>, element: nat, dims: Seq<u64>, axes: Seq<usize>)
    requires
        viewed(input, element, dims, axes),
    ensures
        viewed(
            permuted_bytes(input, element, dims, axes),
            element,
            permuted_dims(dims, axes),
            inverse_of(axes),
        ),
        permuted_bytes(
            permuted_bytes(input, element, dims, axes),
            element,
            permuted_dims(dims, axes),
            inverse_of(axes),
        ) == input,
{
    inverse_facts(axes);
    turning_keeps_the_span(dims, axes);
    if dims.len() == 0 {
        assert(permuted_dims(dims, axes) =~= dims);
    } else if !positive(dims) {
        let moved = permuted_bytes(input, element, dims, axes);
        assert(span(dims) * element == 0) by (nonlinear_arith)
            requires
                span(dims) == 0,
        ;
        assert(moved =~= input);
        assert(permuted_bytes(moved, element, permuted_dims(dims, axes), inverse_of(axes)) =~= input);
    } else {
        permuting_is_sound(dims, axes);
        span_is_positive(dims);
        let zero = element_returns(dims, axes, 0);
        let e = element as int;
        let n = span(dims) as int;
        let moved = permuted_bytes(input, element, dims, axes);
        let back = permuted_bytes(moved, element, permuted_dims(dims, axes), inverse_of(axes));
        assert(moved.len() == n * e);
        assert(back.len() == n * e);
        assert forall|b: int| 0 <= b < input.len() implies back[b] == input[b] by {
            assert(e > 0) by (nonlinear_arith)
                requires
                    0 <= b < n * e,
                    n > 0,
            ;
            vstd::arithmetic::div_mod::lemma_fundamental_div_mod(b, e);
            let u = b / e;
            let r = b % e;
            assert(0 <= u < n) by (nonlinear_arith)
                requires
                    0 <= b < n * e,
                    e > 0,
                    u == b / e,
            ;
            assert(b == u * e + r) by (nonlinear_arith)
                requires
                    b == e * u + r,
            ;
            let t = element_returns(dims, axes, u);
            byte_of(u, e, r, n);
            byte_of(t, e, r, n);
            assert(moved[t * e + r] == input[u * e + r]);
        }
        assert(back =~= input);
    }
}

/// Applies a generalized permute to one tensor's bytes.
///
/// `dims` are the resolved view dimensions of the input side and `axes[t]` names
/// the input axis that becomes output axis `t`.
pub fn permute_bytes(input: &[u8], element_size: usize, dims: &[u64], axes: &[usize]) -> (output:
    Vec<u8>)
    requires
        permutable(input@, element_size as nat, dims@, axes@),
    ensures
        output@ == permuted_bytes(input@, element_size as nat, dims@, axes@),
{
    let count: usize = input.len();
    if dims.len() == 0 {
        return vstd::slice::slice_to_vec(input);
    }
    if count == 0 {
        let none: Vec<u8> = Vec::new();
        assert(none@ =~= permuted_bytes(input@, element_size as nat, dims@, axes@));
        return none;
    }
    proof {
        turning_keeps_the_span(dims@, axes@);
        assert(span(dims@) > 0) by (nonlinear_arith)
            requires
                span(dims@) * element_size > 0,
        ;
    }
    let plan = Plan::permute(dims, axes);
    let mut output: Vec<u8> = Vec::new();
    output.resize(count, 0);
    let outcome = plan.apply(input, &mut output, element_size);
    assert(outcome is Ok);
    output
}

/// The permutation that undoes `axes`.
pub fn invert_axes(axes: &[usize]) -> (inverse: Vec<usize>)
    requires
        bijective(axes@),
    ensures
        inverse@ == inverse_of(axes@),
{
    let count: usize = axes.len();
    let mut inverse: Vec<usize> = Vec::new();
    inverse.resize(count, 0);
    proof {
        inverse_facts(axes@);
    }
    let mut at: usize = 0;
    while at < count
        invariant
            at <= count,
            count == axes@.len(),
            bijective(axes@),
            inverse@.len() == count,
            forall|t: int| 0 <= t < at ==> inverse@[#[trigger] axes@[t] as int] == t,
        decreases count - at,
    {
        assert(axes@[at as int] < axes@.len());
        let ghost before = inverse@;
        inverse[axes[at]] = at;
        proof {
            assert forall|t: int| 0 <= t < at + 1 implies inverse@[#[trigger] axes@[t] as int]
                == t by {
                if t < at {
                    assert(axes@[t] != axes@[at as int]);
                    assert(before[axes@[t] as int] == t);
                }
            }
        }
        at += 1;
    }
    proof {
        assert forall|axis: int| 0 <= axis < count implies inverse@[axis] == inverse_of(
            axes@,
        )[axis] by {
            let t = inverse_of(axes@)[axis] as int;
            assert(axes@[t] == axis);
        }
        assert(inverse@ =~= inverse_of(axes@));
    }
    inverse
}

/// What must happen to concatenated source runs to make a tensor: nothing, or a
/// generalized permute in one direction or the other.
#[derive(Debug, PartialEq, Eq)]
pub enum Transform {
    Identity,
    Forward(Permute),
    Inverse(Permute),
}

/// The value of a [`Transform`].
pub enum TransformModel {
    Identity,
    Forward(PermuteModel),
    Inverse(PermuteModel),
}

impl View for Transform {
    type V = TransformModel;

    open spec fn view(&self) -> TransformModel {
        match self {
            Transform::Identity => TransformModel::Identity,
            Transform::Forward(permute) => TransformModel::Forward(permute@),
            Transform::Inverse(permute) => TransformModel::Inverse(permute@),
        }
    }
}

impl TransformModel {
    /// The transform of one tensor's bytes, of the shape that the declaration
    /// resolves against, `None` where it does not resolve.
    pub open spec fn applied(self, bytes: Seq<u8>, element: nat, shape: Seq<u64>) -> Option<Seq<u8>> {
        match self {
            TransformModel::Identity => Some(bytes),
            TransformModel::Forward(permute) => match permute.resolved(shape) {
                Some(dims) => Some(permuted_bytes(bytes, element, dims, permute.axes)),
                None => None,
            },
            TransformModel::Inverse(permute) => match permute.resolved(shape) {
                Some(dims) => Some(
                    permuted_bytes(
                        bytes,
                        element,
                        permuted_dims(dims, permute.axes),
                        inverse_of(permute.axes),
                    ),
                ),
                None => None,
            },
        }
    }

    /// The transform can be applied to a tensor's bytes.
    pub open spec fn applies(self, bytes: Seq<u8>, element: nat, shape: Seq<u64>) -> bool {
        match self {
            TransformModel::Identity => true,
            TransformModel::Forward(permute) => permute.resolved(shape) matches Some(dims)
                ==> permutable(bytes, element, dims, permute.axes),
            TransformModel::Inverse(permute) => permute.resolved(shape) matches Some(dims)
                ==> permutable(bytes, element, dims, permute.axes),
        }
    }
}

/// Undoing a permute gives the bytes back.
pub proof fn inverse_undoes_forward(
    permute: PermuteModel,
    bytes: Seq<u8>,
    element: nat,
    shape: Seq<u64>,
)
    requires
        TransformModel::Forward(permute).applies(bytes, element, shape),
        permute.resolved(shape) is Some,
    ensures
        ({
            let moved = TransformModel::Forward(permute).applied(bytes, element, shape).unwrap();
            TransformModel::Inverse(permute).applied(moved, element, shape) == Some(bytes)
        }),
{
    permuting_returns(bytes, element, permute.resolved(shape).unwrap(), permute.axes);
}

proof fn product_is_span(factors: Seq<u64>)
    ensures
        product(factors) matches Some(value) ==> value == span(factors),
    decreases factors.len(),
{
    if factors.len() > 0 {
        let front = factors.drop_last();
        let last = seq![factors.last()];
        product_is_span(front);
        assert(front + last =~= factors);
        span_of_parts(front, last);
        assert(last.drop_first() =~= Seq::<u64>::empty());
        assert(span(last) == factors.last()) by {
            assert(span(last.drop_first()) == 1);
            assert(factors.last() as nat * 1 == factors.last());
        }
    }
}

pub(crate) proof fn sizes_are_of_their_dims(view: Seq<Dim>, shape: Seq<u64>, i: int)
    requires
        dim_sizes(view, shape) is Some,
        0 <= i < view.len(),
    ensures
        dim_sizes(view, shape).unwrap().len() == view.len(),
        dim_size(view[i], shape) == Some(dim_sizes(view, shape).unwrap()[i]),
        dim_sizes(view, shape).unwrap()[i] > 0,
    decreases view.len(),
{
    let front = view.drop_last();
    if i < view.len() - 1 {
        sizes_are_of_their_dims(front, shape, i);
        assert(front[i] == view[i]);
    } else if front.len() > 0 {
        sizes_are_of_their_dims(front, shape, 0);
    }
}

/// A view holds exactly the elements of the shape it resolves against, and none
/// of its dimensions is empty unless the shape is.
pub proof fn a_view_holds_the_shape(permute: PermuteModel, shape: Seq<u64>)
    ensures
        permute.resolved(shape) matches Some(dims) ==> {
            &&& dims.len() == permute.view.len()
            &&& span(dims) == span(shape) <= u64::MAX
            &&& positive(shape) ==> positive(dims)
        },
{
    if let Some(dims) = permute.resolved(shape) {
        let view = permute.view;
        let sizes = dim_sizes(view, shape).unwrap();
        let elements = product(shape).unwrap();
        let known = product(sizes).unwrap();
        product_is_span(shape);
        product_is_span(sizes);
        if view.len() > 0 {
            sizes_are_of_their_dims(view, shape, 0);
        }
        assert forall|i: int| 0 <= i < sizes.len() implies 0 < #[trigger] sizes[i] by {
            sizes_are_of_their_dims(view, shape, i);
        }
        if view.contains(Dim::Auto) {
            let at = view.index_of(Dim::Auto);
            let found = elements / known;
            assert(0 <= at < view.len() && view[at] == Dim::Auto);
            sizes_are_of_their_dims(view, shape, at);
            span_without(sizes, at);
            span_without(dims, at);
            assert(dims.remove(at) =~= sizes.remove(at));
            assert(1 * span(sizes.remove(at)) == span(sizes.remove(at)));
            vstd::arithmetic::div_mod::lemma_fundamental_div_mod(elements as int, known as int);
            assert(found * known == known * found) by (nonlinear_arith);
            if positive(shape) {
                span_is_positive(shape);
                assert(found > 0) by (nonlinear_arith)
                    requires
                        elements == known * found,
                        elements > 0,
                        0 <= found,
                ;
            }
        }
    }
}

/// Undoing a permute gives the bytes of a whole tensor of the shape back, an
/// empty one's too.
pub proof fn a_permute_returns_over_its_shape(
    permute: PermuteModel,
    bytes: Seq<u8>,
    element: nat,
    shape: Seq<u64>,
)
    requires
        permute.resolved(shape) is Some,
        permute.axes.len() == permute.view.len() <= usize::MAX,
        bijective(permute.axes),
        bytes.len() == span(shape) * element,
    ensures
        ({
            let moved = TransformModel::Forward(permute).applied(bytes, element, shape).unwrap();
            TransformModel::Inverse(permute).applied(moved, element, shape) == Some(bytes)
        }),
{
    a_view_holds_the_shape(permute, shape);
    permuting_returns(bytes, element, permute.resolved(shape).unwrap(), permute.axes);
}

impl Transform {
    pub fn is_identity(&self) -> (yes: bool)
        ensures
            yes == (self@ is Identity),
    {
        match self {
            Transform::Identity => true,
            _ => false,
        }
    }

    /// Applies this transform to one tensor's concatenated bytes. `shape` is
    /// the tensor's logical shape on the side the bytes are in.
    pub fn apply(&self, bytes: &[u8], element_size: usize, shape: &[u64]) -> (moved: Option<
        Vec<u8>,
    >)
        requires
            self@.applies(bytes@, element_size as nat, shape@),
        ensures
            match moved {
                Some(m) => self@.applied(bytes@, element_size as nat, shape@) == Some(m@),
                None => self@.applied(bytes@, element_size as nat, shape@) is None,
            },
    {
        match self {
            Transform::Identity => Some(vstd::slice::slice_to_vec(bytes)),
            Transform::Forward(permute) => {
                let dims = permute.resolve(shape)?;
                Some(permute_bytes(bytes, element_size, &dims, permute.axes()))
            },
            Transform::Inverse(permute) => {
                let dims = permute.resolve(shape)?;
                let axes = permute.axes();
                let mut turned: Vec<u64> = Vec::new();
                let mut at: usize = 0;
                while at < axes.len()
                    invariant
                        at <= axes@.len(),
                        axes@.len() == dims@.len(),
                        bijective(axes@),
                        turned@.len() == at,
                        forall|t: int|
                            0 <= t < at ==> #[trigger] turned@[t] == dims@[axes@[t] as int],
                    decreases axes@.len() - at,
                {
                    assert(axes@[at as int] < axes@.len());
                    turned.push(dims[axes[at]]);
                    at += 1;
                }
                proof {
                    assert(turned@ =~= permuted_dims(dims@, axes@));
                    permuting_returns(bytes@, element_size as nat, dims@, axes@);
                    turned_fills(bytes@, element_size as nat, dims@, axes@);
                }
                Some(permute_bytes(bytes, element_size, &turned, &invert_axes(axes)))
            },
        }
    }
}

/// The permuted view of an input is permutable by the inverse.
proof fn turned_fills(input: Seq<u8>, element: nat, dims: Seq<u64>, axes: Seq<usize>)
    requires
        permutable(input, element, dims, axes),
    ensures
        permutable(input, element, permuted_dims(dims, axes), inverse_of(axes)),
{
    inverse_facts(axes);
    turning_keeps_the_span(dims, axes);
    if dims.len() > 0 && axes.last() == dims.len() - 1 {
        let last = dims.len() - 1;
        assert(inverse_of(axes)[axes[last] as int] == last);
        assert(permuted_dims(dims, axes).last() == dims.last());
    }
}

} // verus!
