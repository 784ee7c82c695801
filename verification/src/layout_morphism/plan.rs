//! What a layout morphism means for one tensor.

use super::formula::{eval, evaluation, Evaluation, FaultModel, FormulaFault};
use super::{
    handle_text, position_fault, axis_fault, ErrorModel, LayoutError, LayoutMorphism, SubAxis,
};
use super::laws::{arranging_is_injective, arranging_is_onto, sources_are_inside};
use super::walk::{axes_are_inside, coordinate};
use crate::radix::{
    positive, proper, span, span_from, value, value_is_bounded, value_of_zeros, value_update,
    weight, weight_is_bounded,
};
use vstd::arithmetic::mul::{lemma_mul_inequality, lemma_mul_is_commutative};
use vstd::prelude::*;

verus! {

/// The value of a [`Plan`].
#[verifier::ext_equal]
pub struct PlanModel {
    pub handle: Seq<char>,
    pub shape: Seq<u64>,
    /// The logical axis each sub-axis belongs to, in declaration order.
    pub axes: Seq<usize>,
    /// Sub-axis extents, in declaration order.
    pub extents: Seq<u64>,
    /// The declaration index at each storage position.
    pub permutation: Seq<usize>,
}

/// The multiplier of a sub-axis coordinate inside its logical axis: the product
/// of the factors that follow it in the same axis.
pub open spec fn within(axes: Seq<usize>, extents: Seq<u64>, at: int) -> nat
    decreases extents.len() - at,
{
    if at + 1 < extents.len() && axes[at + 1] == axes[at] {
        extents[at + 1] as nat * within(axes, extents, at + 1)
    } else {
        1
    }
}

/// The product of the factors of an axis from `at` on.
pub open spec fn running(axes: Seq<usize>, extents: Seq<u64>, at: int) -> nat {
    extents[at] as nat * within(axes, extents, at)
}

/// Where the run of one axis that holds `at` ends.
pub open spec fn group_end(axes: Seq<usize>, at: int) -> int
    decreases axes.len() - at,
{
    if at + 1 < axes.len() && axes[at + 1] == axes[at] {
        group_end(axes, at + 1)
    } else {
        at + 1
    }
}

/// Whether the factors of one axis start at `at`.
pub open spec fn starts_axis(axes: Seq<usize>, at: int) -> bool {
    at == 0 || axes[at - 1] != axes[at]
}

/// Whether the factorization of an axis overshoots its dimension.
pub open spec fn overshoots(
    shape: Seq<u64>,
    axes: Seq<usize>,
    extents: Seq<u64>,
    axis: int,
) -> bool {
    exists|j: int|
        0 <= j < axes.len() && #[trigger] starts_axis(axes, j) && axes[j] == axis && running(
            axes,
            extents,
            j,
        ) > shape[axis]
}

impl PlanModel {
    /// The source stride of one sub-axis coordinate.
    pub open spec fn src_stride(self, at: int) -> nat {
        within(self.axes, self.extents, at) * weight(self.shape, self.axes[at] as int)
    }

    /// Sub-axis extents in storage order: the destination's own shape.
    pub open spec fn storage(self) -> Seq<u64> {
        self.permutation.map_values(|at: usize| self.extents[at as int])
    }

    /// Whether the destination is larger than the source.
    pub open spec fn padded(self) -> bool {
        exists|axis: int|
            0 <= axis < self.shape.len() && #[trigger] overshoots(
                self.shape,
                self.axes,
                self.extents,
                axis,
            )
    }

    pub open spec fn source_elements(self) -> nat {
        span(self.shape)
    }

    pub open spec fn dest_elements(self) -> nat {
        span(self.extents)
    }

    /// A plan that arranges: every axis is factored in order, no factor is
    /// empty, every axis is covered, and every sub-axis has one position.
    pub open spec fn sound(self) -> bool {
        &&& self.shape.len() > 0
        &&& positive(self.shape)
        &&& positive(self.extents)
        &&& self.axes.len() == self.extents.len()
        &&& self.permutation.len() == self.extents.len()
        &&& self.permutation.len() <= usize::MAX
        &&& grouped(self.axes, self.shape.len())
        &&& bijective(self.permutation)
        &&& forall|j: int|
            0 <= j < self.axes.len() && #[trigger] starts_axis(self.axes, j) ==> running(
                self.axes,
                self.extents,
                j,
            ) >= self.shape[self.axes[j] as int]
        &&& span(self.shape) <= u64::MAX
        &&& span(self.extents) <= u64::MAX
    }
}

/// Every axis, one behind the other.
pub open spec fn grouped(axes: Seq<usize>, rank: nat) -> bool {
    &&& axes.len() > 0
    &&& axes[0] == 0
    &&& axes.last() == rank - 1
    &&& forall|j: int|
        0 < j < axes.len() ==> #[trigger] axes[j] == axes[j - 1] || axes[j] == axes[j - 1] + 1
}

/// Every position once.
pub open spec fn bijective(permutation: Seq<usize>) -> bool {
    &&& permutation.no_duplicates()
    &&& forall|i: int| 0 <= i < permutation.len() ==> #[trigger] permutation[i] < permutation.len()
    &&& forall|x: usize| x < permutation.len() ==> #[trigger] permutation.contains(x)
}

/// A record whose plans arrange: the identity, or one whose sub-axes stand in
/// order and whose permutation is one.
pub open spec fn structured(record: LayoutMorphism) -> bool {
    record.sub_axes@.len() > 0 ==> {
        &&& record.permutation@.len() == record.sub_axes@.len()
        &&& axis_fault(record.sub_axes@, record.sub_axes@.len() as int) is None
        &&& record.sub_axes@.last().axis + 1 == record.rank
        &&& position_fault(record.permutation@, record.permutation@.len() as int) is None
    }
}

/// The extents that formulas come to.
pub enum Extents {
    Found(Seq<u64>),
    Refused(ErrorModel),
    TooLarge,
}

/// The extents of the first `upto` sub-axes.
pub open spec fn extents_of(record: LayoutMorphism, shape: Seq<u64>, upto: int) -> Extents
    decreases upto,
{
    if upto <= 0 {
        Extents::Found(Seq::empty())
    } else {
        match extents_of(record, shape, upto - 1) {
            Extents::Found(found) => {
                let sub = record.sub_axes@[upto - 1];
                let refused = |fault: FaultModel|
                    Extents::Refused(
                        ErrorModel::Formula { handle: handle_text(record), axis: sub.axis, fault },
                    );
                match evaluation(sub.extent@, shape) {
                    Evaluation::TooLarge => Extents::TooLarge,
                    Evaluation::Fault(fault) => refused(fault),
                    Evaluation::Value(extent) => if extent == 0 {
                        refused(FaultModel::Zero { text: sub.extent@ })
                    } else {
                        Extents::Found(found.push(extent))
                    },
                }
            },
            other => other,
        }
    }
}

/// What checking the axes comes to.
pub enum Fit {
    Fits,
    Refused(ErrorModel),
    TooLarge,
}

/// Checks that every axis from the factor at `at` on covers its dimension.
pub open spec fn fit(
    handle: Seq<char>,
    rank: usize,
    shape: Seq<u64>,
    axes: Seq<usize>,
    extents: Seq<u64>,
    at: int,
) -> Fit
    decreases axes.len() - at,
{
    if at >= axes.len() {
        Fit::Fits
    } else if running(axes, extents, at) > u64::MAX {
        Fit::TooLarge
    } else if axes[at] >= shape.len() {
        Fit::Refused(ErrorModel::Rank { handle, want: rank, got: shape.len() as usize })
    } else if running(axes, extents, at) < shape[axes[at] as int] {
        Fit::Refused(
            ErrorModel::ShortAxis {
                handle,
                axis: axes[at],
                product: running(axes, extents, at) as u64,
                dim: shape[axes[at] as int],
            },
        )
    } else {
        proof {
            group_end_is_behind(axes, at);
        }
        fit(handle, rank, shape, axes, extents, group_end(axes, at))
    }
}

pub proof fn group_end_is_behind(axes: Seq<usize>, at: int)
    requires
        at < axes.len(),
    ensures
        at < group_end(axes, at) <= axes.len(),
    decreases axes.len() - at,
{
    if at + 1 < axes.len() && axes[at + 1] == axes[at] {
        group_end_is_behind(axes, at + 1);
    }
}

/// What planning comes to.
pub enum Planning {
    Ready(PlanModel),
    Refused(ErrorModel),
    /// A product leaves 64 bits.
    TooLarge,
}

/// The logical axes of a record's sub-axes.
pub open spec fn axes_of(sub_axes: Seq<SubAxis>) -> Seq<usize> {
    sub_axes.map_values(|sub: SubAxis| sub.axis)
}

/// The numbers from zero.
pub open spec fn counting(upto: nat) -> Seq<usize> {
    Seq::new(upto, |i: int| i as usize)
}

/// The plan of a record for a shape.
pub open spec fn planned(record: LayoutMorphism, shape: Seq<u64>) -> Planning {
    let handle = handle_text(record);
    if record.rank != 0 && shape.len() != record.rank {
        Planning::Refused(
            ErrorModel::Rank { handle, want: record.rank, got: shape.len() as usize },
        )
    } else if shape.len() == 0 || !positive(shape) {
        Planning::Refused(ErrorModel::Shape { handle, shape })
    } else if record.sub_axes@.len() == 0 {
        arranged(
            record,
            PlanModel {
                handle,
                shape,
                axes: counting(shape.len()),
                extents: shape,
                permutation: counting(shape.len()),
            },
        )
    } else {
        match extents_of(record, shape, record.sub_axes@.len() as int) {
            Extents::TooLarge => Planning::TooLarge,
            Extents::Refused(error) => Planning::Refused(error),
            Extents::Found(extents) => arranged(
                record,
                PlanModel {
                    handle,
                    shape,
                    axes: axes_of(record.sub_axes@),
                    extents,
                    permutation: record.permutation@,
                },
            ),
        }
    }
}

/// The plan, when its axes fit.
pub open spec fn arranged(record: LayoutMorphism, plan: PlanModel) -> Planning {
    match fit(plan.handle, record.rank, plan.shape, plan.axes, plan.extents, 0) {
        Fit::TooLarge => Planning::TooLarge,
        Fit::Refused(error) => Planning::Refused(error),
        Fit::Fits => if span(plan.shape) > u64::MAX || span(plan.extents) > u64::MAX || exists|j: int|
            0 <= j < plan.extents.len() && #[trigger] plan.src_stride(j) > u64::MAX {
            Planning::TooLarge
        } else {
            Planning::Ready(plan)
        },
    }
}

/// Every number the walk needs for one tensor.
#[derive(Clone, Debug, PartialEq, Eq)]
pub struct Plan {
    handle: String,
    shape: Vec<u64>,
    axes: Vec<usize>,
    extents: Vec<u64>,
    within: Vec<u64>,
    permutation: Vec<usize>,
    logical_stride: Vec<u64>,
    src_stride: Vec<u64>,
    padded_axis: Vec<bool>,
    source_elements: u64,
    dest_elements: u64,
    padded: bool,
}

impl View for Plan {
    type V = PlanModel;

    closed spec fn view(&self) -> PlanModel {
        PlanModel {
            handle: self.handle@,
            shape: self.shape@,
            axes: self.axes@,
            extents: self.extents@,
            permutation: self.permutation@,
        }
    }
}

impl Plan {
    /// The derived numbers are what they stand for.
    pub closed spec fn consistent(&self) -> bool {
        let m = self@;
        &&& self.within@.len() == m.extents.len()
        &&& forall|j: int|
            0 <= j < m.extents.len() ==> #[trigger] self.within@[j] == within(m.axes, m.extents, j)
        &&& self.logical_stride@.len() == m.shape.len()
        &&& forall|a: int|
            0 <= a < m.shape.len() ==> #[trigger] self.logical_stride@[a] == weight(m.shape, a)
        &&& self.src_stride@.len() == m.extents.len()
        &&& forall|j: int|
            0 <= j < m.extents.len() ==> #[trigger] self.src_stride@[j] == m.src_stride(j)
        &&& self.padded_axis@.len() == m.shape.len()
        &&& forall|a: int|
            0 <= a < m.shape.len() ==> #[trigger] self.padded_axis@[a] == overshoots(
                m.shape,
                m.axes,
                m.extents,
                a,
            )
        &&& self.source_elements == m.source_elements()
        &&& self.dest_elements == m.dest_elements()
        &&& self.padded == m.padded()
    }

    /// A plan that arranges.
    pub open spec fn wf(&self) -> bool {
        self.consistent() && self@.sound()
    }

    pub fn handle(&self) -> (handle: &str)
        ensures
            handle@ == self@.handle,
    {
        self.handle.as_str()
    }

    pub fn shape(&self) -> (shape: &[u64])
        ensures
            shape@ == self@.shape,
    {
        &self.shape
    }

    pub fn source_elements(&self) -> (elements: u64)
        requires
            self.consistent(),
        ensures
            elements == self@.source_elements(),
    {
        self.source_elements
    }

    pub fn dest_elements(&self) -> (elements: u64)
        requires
            self.consistent(),
        ensures
            elements == self@.dest_elements(),
    {
        self.dest_elements
    }

    /// Whether the destination is larger than the source because some axis
    /// rounded up. The map is then injective, not bijective.
    pub fn padded(&self) -> (padded: bool)
        requires
            self.consistent(),
        ensures
            padded == self@.padded(),
    {
        self.padded
    }

    /// Sub-axis extents in storage order: the destination's own shape.
    pub fn storage_extents(&self) -> (extents: Vec<u64>)
        requires
            self.wf(),
        ensures
            extents@ == self@.storage(),
    {
        let mut extents: Vec<u64> = Vec::new();
        let mut at: usize = 0;
        while at < self.permutation.len()
            invariant
                at <= self.permutation@.len(),
                self.wf(),
                extents@.len() == at,
                forall|p: int| 0 <= p < at ==> #[trigger] extents@[p] == self@.storage()[p],
            decreases self.permutation@.len() - at,
        {
            assert(self@.permutation[at as int] < self@.permutation.len());
            extents.push(self.extents[self.permutation[at]]);
            at += 1;
        }
        assert(extents@ =~= self@.storage());
        extents
    }
}

// ---------------------------------------------------------------------------
// Planning
// ---------------------------------------------------------------------------

fn all_positive(shape: &[u64]) -> (yes: bool)
    ensures
        yes == positive(shape@),
{
    let mut at: usize = 0;
    while at < shape.len()
        invariant
            at <= shape@.len(),
            forall|i: int| 0 <= i < at ==> 0 < #[trigger] shape@[i],
        decreases shape@.len() - at,
    {
        if shape[at] == 0 {
            assert(shape@[at as int] == 0);
            return false;
        }
        at += 1;
    }
    true
}

/// The logical strides of a shape, and the number of its elements.
fn strides(shape: &[u64]) -> (outcome: (Vec<u64>, u64))
    requires
        positive(shape@),
        span(shape@) <= u64::MAX,
    ensures
        outcome.0@.len() == shape@.len(),
        forall|a: int| 0 <= a < shape@.len() ==> #[trigger] outcome.0@[a] == weight(shape@, a),
        outcome.1 == span(shape@),
{
    let n = shape.len();
    let mut strides: Vec<u64> = Vec::new();
    strides.resize(n, 1);
    let mut stride: u64 = 1;
    let mut at: usize = n;
    assert(shape@.skip(n as int) =~= Seq::<u64>::empty());
    while at > 0
        invariant
            at <= n,
            n == shape@.len(),
            positive(shape@),
            span(shape@) <= u64::MAX,
            strides@.len() == n,
            stride == span(shape@.skip(at as int)),
            forall|a: int| at <= a < n ==> #[trigger] strides@[a] == weight(shape@, a),
        decreases at,
    {
        at -= 1;
        strides[at] = stride;
        proof {
            span_from(shape@, at as int);
            weight_is_bounded(shape@, at as int);
            lemma_mul_is_commutative(stride as int, shape@[at as int] as int);
        }
        stride = stride * shape[at];
    }
    assert(shape@.skip(0) =~= shape@);
    (strides, stride)
}

/// Evaluates the extents of a record's sub-axes.
fn find_extents(record: &LayoutMorphism, shape: &[u64]) -> (outcome: Result<Vec<u64>, LayoutError>)
    requires
        !(extents_of(*record, shape@, record.sub_axes@.len() as int) is TooLarge),
    ensures
        match outcome {
            Ok(extents) => extents_of(*record, shape@, record.sub_axes@.len() as int)
                == Extents::Found(extents@) && positive(extents@) && extents@.len()
                == record.sub_axes@.len(),
            Err(e) => extents_of(*record, shape@, record.sub_axes@.len() as int)
                == Extents::Refused(e@),
        },
{
    let ghost n = record.sub_axes@.len() as int;
    let mut extents: Vec<u64> = Vec::new();
    let mut at: usize = 0;
    while at < record.sub_axes.len()
        invariant
            at <= record.sub_axes@.len(),
            n == record.sub_axes@.len(),
            !(extents_of(*record, shape@, n) is TooLarge),
            extents_of(*record, shape@, at as int) == Extents::Found(extents@),
            positive(extents@),
            extents@.len() == at,
        decreases record.sub_axes@.len() - at,
    {
        let sub = &record.sub_axes[at];
        proof {
            if !(extents_of(*record, shape@, at + 1) is Found) {
                extents_stay(*record, shape@, at + 1, n);
            }
        }
        match eval(sub.extent.as_str(), shape) {
            Err(fault) => {
                return Err(
                    LayoutError::Formula { handle: record.handle(), axis: sub.axis, fault },
                );
            },
            Ok(extent) => {
                if extent == 0 {
                    return Err(
                        LayoutError::Formula {
                            handle: record.handle(),
                            axis: sub.axis,
                            fault: FormulaFault::Zero { text: sub.extent.clone() },
                        },
                    );
                }
                extents.push(extent);
            },
        }
        at += 1;
    }
    Ok(extents)
}

proof fn extents_stay(record: LayoutMorphism, shape: Seq<u64>, low: int, high: int)
    requires
        0 <= low <= high,
        !(extents_of(record, shape, low) is Found),
    ensures
        extents_of(record, shape, high) == extents_of(record, shape, low),
    decreases high - low,
{
    if low < high {
        extents_stay(record, shape, low, high - 1);
    }
}

fn find_axes(sub_axes: &Vec<SubAxis>) -> (axes: Vec<usize>)
    ensures
        axes@ == axes_of(sub_axes@),
{
    let mut axes: Vec<usize> = Vec::new();
    let mut at: usize = 0;
    while at < sub_axes.len()
        invariant
            at <= sub_axes@.len(),
            axes@.len() == at,
            forall|i: int| 0 <= i < at ==> #[trigger] axes@[i] == sub_axes@[i].axis,
        decreases sub_axes@.len() - at,
    {
        axes.push(sub_axes[at].axis);
        at += 1;
    }
    assert(axes@ =~= axes_of(sub_axes@));
    axes
}

fn count_up(upto: usize) -> (numbers: Vec<usize>)
    ensures
        numbers@ == counting(upto as nat),
{
    let mut numbers: Vec<usize> = Vec::new();
    let mut at: usize = 0;
    while at < upto
        invariant
            at <= upto,
            numbers@.len() == at,
            forall|i: int| 0 <= i < at ==> #[trigger] numbers@[i] == i,
        decreases upto - at,
    {
        numbers.push(at);
        at += 1;
    }
    assert(numbers@ =~= counting(upto as nat));
    numbers
}

/// Checks every axis, and finds the multipliers and the padded axes.
#[verifier::loop_isolation(false)]
fn fit_axes(
    handle: &String,
    rank: usize,
    shape: &[u64],
    axes: &Vec<usize>,
    extents: &Vec<u64>,
) -> (outcome: Result<(Vec<u64>, Vec<bool>), LayoutError>)
    requires
        axes@.len() == extents@.len(),
        positive(extents@),
        !(fit(handle@, rank, shape@, axes@, extents@, 0) is TooLarge),
    ensures
        match outcome {
            Ok((inner, padded)) => {
                &&& fit(handle@, rank, shape@, axes@, extents@, 0) is Fits
                &&& inner@.len() == extents@.len()
                &&& forall|j: int|
                    0 <= j < extents@.len() ==> #[trigger] inner@[j] == within(
                        axes@,
                        extents@,
                        j,
                    )
                &&& forall|j: int|
                    0 <= j < axes@.len() ==> #[trigger] axes@[j] < shape@.len()
                &&& forall|j: int|
                    0 <= j < axes@.len() && #[trigger] starts_axis(axes@, j) ==> running(
                        axes@,
                        extents@,
                        j,
                    ) >= shape@[axes@[j] as int]
                &&& padded@.len() == shape@.len()
                &&& forall|a: int|
                    0 <= a < shape@.len() ==> #[trigger] padded@[a] == overshoots(
                        shape@,
                        axes@,
                        extents@,
                        a,
                    )
            },
            Err(e) => fit(handle@, rank, shape@, axes@, extents@, 0) == Fit::Refused(e@),
        },
{
    let n = axes.len();
    let mut inner: Vec<u64> = Vec::new();
    inner.resize(n, 1);
    let mut padded: Vec<bool> = Vec::new();
    padded.resize(shape.len(), false);
    let ghost all = fit(handle@, rank, shape@, axes@, extents@, 0);
    let mut at: usize = 0;
    while at < n
        invariant
            at <= n,
            n == axes@.len(),
            n == extents@.len(),
            positive(extents@),
            !(all is TooLarge),
            all == fit(handle@, rank, shape@, axes@, extents@, at as int),
            at < n ==> starts_axis(axes@, at as int),
            inner@.len() == n,
            forall|j: int| 0 <= j < at ==> #[trigger] inner@[j] == within(axes@, extents@, j),
            forall|j: int| 0 <= j < at ==> #[trigger] axes@[j] < shape@.len(),
            forall|j: int|
                0 <= j < at && #[trigger] starts_axis(axes@, j) ==> running(axes@, extents@, j)
                    >= shape@[axes@[j] as int],
            padded@.len() == shape@.len(),
            forall|a: int|
                0 <= a < shape@.len() ==> (#[trigger] padded@[a] <==> exists|j: int|
                    0 <= j < at && #[trigger] starts_axis(axes@, j) && axes@[j] == a && running(
                        axes@,
                        extents@,
                        j,
                    ) > shape@[a]),
        decreases n - at,
    {
        let mut end: usize = at + 1;
        while end < n && axes[end] == axes[end - 1]
            invariant
                at < end <= n,
                n == axes@.len(),
                group_end(axes@, at as int) == group_end(axes@, end - 1),
                forall|j: int| at <= j < end ==> #[trigger] axes@[j] == axes@[at as int],
                forall|j: int| at < j < end ==> !#[trigger] starts_axis(axes@, j),
            decreases n - end,
        {
            end += 1;
        }
        assert(group_end(axes@, at as int) == end);
        let ghost before = inner@;
        let mut product: u64 = 1;
        let mut index: usize = end;
        while index > at
            invariant
                at <= index <= end,
                end <= n,
                n == extents@.len(),
                n == axes@.len(),
                positive(extents@),
                running(axes@, extents@, at as int) <= u64::MAX,
                forall|j: int| at <= j < end ==> #[trigger] axes@[j] == axes@[at as int],
                end < n ==> axes@[end as int] != axes@[at as int],
                inner@.len() == n,
                forall|j: int| 0 <= j < at ==> #[trigger] inner@[j] == before[j],
                forall|j: int|
                    index <= j < end ==> #[trigger] inner@[j] == within(axes@, extents@, j),
                index == end ==> product == 1,
                index < end ==> product == running(axes@, extents@, index as int),
            decreases index,
        {
            index -= 1;
            proof {
                running_shrinks(axes@, extents@, at as int, index as int);
                lemma_mul_is_commutative(product as int, extents@[index as int] as int);
                assert(axes@[index as int] == axes@[at as int]);
                if index + 1 < end {
                    assert(axes@[index + 1] == axes@[at as int]);
                }
            }
            inner[index] = product;
            product = product * extents[index];
        }
        let axis: usize = axes[at];
        if axis >= shape.len() {
            return Err(
                LayoutError::Rank { handle: handle.clone(), want: rank, got: shape.len() },
            );
        }
        if product < shape[axis] {
            return Err(
                LayoutError::ShortAxis { handle: handle.clone(), axis, product, dim: shape[axis] },
            );
        }
        let ghost marked = padded@;
        if product > shape[axis] {
            padded[axis] = true;
        }
        proof {
            assert forall|j: int| 0 <= j < end implies #[trigger] inner@[j] == within(
                axes@,
                extents@,
                j,
            ) by {
                if j < at {
                    assert(inner@[j] == before[j]);
                }
            }
            assert forall|a: int| 0 <= a < shape@.len() implies (#[trigger] padded@[a]
                <==> exists|j: int|
                0 <= j < end && #[trigger] starts_axis(axes@, j) && axes@[j] == a && running(
                    axes@,
                    extents@,
                    j,
                ) > shape@[a]) by {
                if padded@[a] && !marked[a] {
                    assert(starts_axis(axes@, at as int) && axes@[at as int] == a);
                }
                if marked[a] {
                    let j = choose|j: int|
                        0 <= j < at && #[trigger] starts_axis(axes@, j) && axes@[j] == a && running(
                            axes@,
                            extents@,
                            j,
                        ) > shape@[a];
                    assert(starts_axis(axes@, j));
                }
            }
        }
        at = end;
    }
    Ok((inner, padded))
}

proof fn running_shrinks(axes: Seq<usize>, extents: Seq<u64>, low: int, high: int)
    requires
        0 <= low <= high < extents.len(),
        axes.len() == extents.len(),
        positive(extents),
        forall|j: int| low <= j <= high ==> #[trigger] axes[j] == axes[low],
    ensures
        running(axes, extents, high) <= running(axes, extents, low),
    decreases high - low,
{
    if low < high {
        assert(axes[low + 1] == axes[low]);
        running_shrinks(axes, extents, low + 1, high);
        assert(extents[low] > 0);
        lemma_mul_inequality(1, extents[low] as int, running(axes, extents, low + 1) as int);
    }
}

/// The source strides, and the number of destination elements.
fn find_strides(
    plan: Ghost<PlanModel>,
    axes: &Vec<usize>,
    extents: &Vec<u64>,
    inner: &Vec<u64>,
    logical: &Vec<u64>,
) -> (outcome: (Vec<u64>, u64))
    requires
        plan@.axes == axes@,
        plan@.extents == extents@,
        axes@.len() == extents@.len(),
        positive(extents@),
        span(extents@) <= u64::MAX,
        inner@.len() == extents@.len(),
        logical@.len() == plan@.shape.len(),
        forall|j: int| 0 <= j < axes@.len() ==> #[trigger] axes@[j] < plan@.shape.len(),
        forall|j: int|
            0 <= j < extents@.len() ==> #[trigger] inner@[j] == within(axes@, extents@, j),
        forall|a: int|
            0 <= a < plan@.shape.len() ==> #[trigger] logical@[a] == weight(plan@.shape, a),
        forall|j: int| 0 <= j < extents@.len() ==> #[trigger] plan@.src_stride(j) <= u64::MAX,
    ensures
        outcome.0@.len() == extents@.len(),
        forall|j: int| 0 <= j < extents@.len() ==> #[trigger] outcome.0@[j] == plan@.src_stride(j),
        outcome.1 == span(extents@),
{
    let n = extents.len();
    let mut strides: Vec<u64> = Vec::new();
    let mut at: usize = 0;
    while at < n
        invariant
            at <= n,
            n == extents@.len(),
            positive(extents@),
            span(extents@) <= u64::MAX,
            plan@.axes == axes@,
            plan@.extents == extents@,
            axes@.len() == extents@.len(),
            inner@.len() == extents@.len(),
            logical@.len() == plan@.shape.len(),
            forall|j: int| 0 <= j < axes@.len() ==> #[trigger] axes@[j] < plan@.shape.len(),
            forall|j: int|
                0 <= j < extents@.len() ==> #[trigger] inner@[j] == within(axes@, extents@, j),
            forall|a: int|
                0 <= a < plan@.shape.len() ==> #[trigger] logical@[a] == weight(plan@.shape, a),
            forall|j: int| 0 <= j < extents@.len() ==> #[trigger] plan@.src_stride(j) <= u64::MAX,
            strides@.len() == at,
            forall|j: int| 0 <= j < at ==> #[trigger] strides@[j] == plan@.src_stride(j),
        decreases n - at,
    {
        proof {
            assert(axes@[at as int] < plan@.shape.len());
            assert(logical@[axes@[at as int] as int] == weight(plan@.shape, axes@[at as int] as int));
            assert(plan@.src_stride(at as int) <= u64::MAX);
        }
        strides.push(inner[at] * logical[axes[at]]);
        at += 1;
    }
    let (_, elements) = self::strides(extents);
    (strides, elements)
}

fn any(marks: &Vec<bool>) -> (yes: bool)
    ensures
        yes == exists|a: int| 0 <= a < marks@.len() && #[trigger] marks@[a],
{
    let mut at: usize = 0;
    while at < marks.len()
        invariant
            at <= marks@.len(),
            forall|a: int| 0 <= a < at ==> !#[trigger] marks@[a],
        decreases marks@.len() - at,
    {
        if marks[at] {
            return true;
        }
        at += 1;
    }
    false
}

impl LayoutMorphism {
    /// Plans this arrangement for one concrete logical shape.
    pub fn plan(&self, shape: &[u64]) -> (plan: Result<Plan, LayoutError>)
        requires
            !(planned(*self, shape@) is TooLarge),
        ensures
            match plan {
                Ok(p) => planned(*self, shape@) == Planning::Ready(p@) && p.consistent() && (
                structured(*self) ==> p.wf()),
                Err(e) => planned(*self, shape@) == Planning::Refused(e@),
            },
    {
        let handle = self.handle();
        if self.rank != 0 && shape.len() != self.rank {
            return Err(LayoutError::Rank { handle, want: self.rank, got: shape.len() });
        }
        if shape.len() == 0 || !all_positive(shape) {
            return Err(LayoutError::Shape { handle, shape: vstd::slice::slice_to_vec(shape) });
        }
        let identity = self.is_identity();
        let axes: Vec<usize>;
        let extents: Vec<u64>;
        let permutation: Vec<usize>;
        if identity {
            axes = count_up(shape.len());
            extents = vstd::slice::slice_to_vec(shape);
            permutation = count_up(shape.len());
        } else {
            extents = find_extents(self, shape)?;
            axes = find_axes(&self.sub_axes);
            permutation = vstd::slice::slice_to_vec(&self.permutation);
        }
        let ghost model = PlanModel {
            handle: handle@,
            shape: shape@,
            axes: axes@,
            extents: extents@,
            permutation: permutation@,
        };
        assert(planned(*self, shape@) == arranged(*self, model));
        let (inner, padded_axis) = fit_axes(&handle, self.rank, shape, &axes, &extents)?;
        let (logical_stride, source_elements) = strides(shape);
        let (src_stride, dest_elements) = find_strides(
            Ghost(model),
            &axes,
            &extents,
            &inner,
            &logical_stride,
        );
        let padded = any(&padded_axis);
        let positions: usize = permutation.len();
        let plan = Plan {
            handle,
            shape: vstd::slice::slice_to_vec(shape),
            axes,
            extents,
            within: inner,
            permutation,
            logical_stride,
            src_stride,
            padded_axis,
            source_elements,
            dest_elements,
            padded,
        };
        proof {
            assert(plan@ == model);
            assert(model.permutation.len() == positions);
            if structured(*self) {
                if identity {
                    counting_is_sound(shape@);
                } else {
                    sub_axes_are_grouped(self.sub_axes@, self.rank);
                    positions_are_bijective(permutation@);
                }
            }
            if exists|axis: int|
                0 <= axis < model.shape.len() && #[trigger] overshoots(
                    model.shape,
                    model.axes,
                    model.extents,
                    axis,
                ) {
                let axis = choose|axis: int|
                    0 <= axis < model.shape.len() && #[trigger] overshoots(
                        model.shape,
                        model.axes,
                        model.extents,
                        axis,
                    );
                assert(padded_axis@[axis]);
            }
        }
        Ok(plan)
    }
}

proof fn found_extents_are_positive(record: LayoutMorphism, shape: Seq<u64>, upto: int)
    requires
        0 <= upto,
    ensures
        extents_of(record, shape, upto) matches Extents::Found(found) ==> found.len() == upto
            && positive(found),
    decreases upto,
{
    if upto > 0 {
        found_extents_are_positive(record, shape, upto - 1);
    }
}

proof fn a_group_has_one_start(axes: Seq<usize>, at: int, k: int)
    requires
        0 <= at < k < group_end(axes, at),
        at < axes.len(),
    ensures
        !starts_axis(axes, k),
    decreases axes.len() - at,
{
    if k > at + 1 {
        a_group_has_one_start(axes, at + 1, k);
    }
}

proof fn what_fits_covers(
    handle: Seq<char>,
    rank: usize,
    shape: Seq<u64>,
    axes: Seq<usize>,
    extents: Seq<u64>,
    at: int,
    j: int,
)
    requires
        fit(handle, rank, shape, axes, extents, at) is Fits,
        0 <= at <= j < axes.len(),
        starts_axis(axes, j),
    ensures
        axes[j] < shape.len(),
        running(axes, extents, j) >= shape[axes[j] as int],
    decreases axes.len() - at,
{
    if at < j {
        group_end_is_behind(axes, at);
        if j < group_end(axes, at) {
            a_group_has_one_start(axes, at, j);
        }
        what_fits_covers(handle, rank, shape, axes, extents, group_end(axes, at), j);
    }
}

/// Whatever a structured record plans, arranges.
pub proof fn structured_plans_are_sound(record: LayoutMorphism, shape: Seq<u64>)
    requires
        structured(record),
        shape.len() <= usize::MAX,
    ensures
        planned(record, shape) matches Planning::Ready(plan) ==> plan.sound(),
{
    if let Planning::Ready(plan) = planned(record, shape) {
        if record.sub_axes@.len() == 0 {
            counting_is_sound(shape);
        } else {
            assert(record.permutation.len() <= usize::MAX);
            found_extents_are_positive(record, shape, record.sub_axes@.len() as int);
            sub_axes_are_grouped(record.sub_axes@, record.rank);
            positions_are_bijective(record.permutation@);
        }
        assert forall|j: int|
            0 <= j < plan.axes.len() && #[trigger] starts_axis(plan.axes, j) implies running(
            plan.axes,
            plan.extents,
            j,
        ) >= plan.shape[plan.axes[j] as int] by {
            what_fits_covers(plan.handle, record.rank, shape, plan.axes, plan.extents, 0, j);
        }
    }
}

proof fn counting_is_sound(shape: Seq<u64>)
    requires
        0 < shape.len() <= usize::MAX,
    ensures
        grouped(counting(shape.len()), shape.len()),
        bijective(counting(shape.len())),
{
    let numbers = counting(shape.len());
    assert forall|x: usize| x < numbers.len() implies #[trigger] numbers.contains(x) by {
        assert(numbers[x as int] == x);
    }
}

proof fn no_axis_fault(sub_axes: Seq<SubAxis>, j: int, upto: int)
    requires
        0 <= j < upto,
        axis_fault(sub_axes, upto) is None,
    ensures
        axis_fault(sub_axes, j + 1) is None,
    decreases upto,
{
    if j + 1 < upto {
        no_axis_fault(sub_axes, j, upto - 1);
    }
}

pub(crate) proof fn sub_axes_are_grouped(sub_axes: Seq<SubAxis>, rank: usize)
    requires
        sub_axes.len() > 0,
        axis_fault(sub_axes, sub_axes.len() as int) is None,
        sub_axes.last().axis + 1 == rank,
    ensures
        grouped(axes_of(sub_axes), rank as nat),
{
    let axes = axes_of(sub_axes);
    no_axis_fault(sub_axes, 0, sub_axes.len() as int);
    assert forall|j: int| 0 < j < axes.len() implies #[trigger] axes[j] == axes[j - 1] || axes[j]
        == axes[j - 1] + 1 by {
        no_axis_fault(sub_axes, j, sub_axes.len() as int);
    }
}

proof fn no_position_fault(permutation: Seq<usize>, j: int, upto: int)
    requires
        0 <= j < upto,
        position_fault(permutation, upto) is None,
    ensures
        permutation[j] < permutation.len(),
        forall|i: int| 0 <= i < j ==> #[trigger] permutation[i] != permutation[j],
    decreases upto,
{
    if j + 1 < upto {
        no_position_fault(permutation, j, upto - 1);
    }
}

pub proof fn positions_are_bijective(permutation: Seq<usize>)
    requires
        permutation.len() <= usize::MAX,
        position_fault(permutation, permutation.len() as int) is None,
    ensures
        bijective(permutation),
{
    let n = permutation.len() as int;
    assert forall|i: int| 0 <= i < n implies #[trigger] permutation[i] < n by {
        no_position_fault(permutation, i, n);
    }
    assert forall|i: int, j: int| 0 <= i < n && 0 <= j < n && i != j implies permutation[i]
        != permutation[j] by {
        if i < j {
            no_position_fault(permutation, j, n);
        } else {
            no_position_fault(permutation, i, n);
        }
    }
    distinct_positions_cover(permutation);
}

/// As many distinct positions as there are cover all of them.
proof fn distinct_positions_cover(permutation: Seq<usize>)
    requires
        permutation.len() <= usize::MAX,
        permutation.no_duplicates(),
        forall|i: int| 0 <= i < permutation.len() ==> #[trigger] permutation[i] < permutation.len(),
    ensures
        forall|x: usize| x < permutation.len() ==> #[trigger] permutation.contains(x),
{
    let n = permutation.len();
    let found = permutation.to_set();
    let all = Set::new(|x: usize| x < n);
    numbers_below(n);
    permutation.unique_seq_to_set();
    assert(found.subset_of(all));
    vstd::set_lib::lemma_set_subset_finite(all, found);
    vstd::set_lib::lemma_subset_equality(found, all);
    assert forall|x: usize| x < permutation.len() implies #[trigger] permutation.contains(x) by {
        assert(all.contains(x));
        assert(found.contains(x));
    }
}

proof fn numbers_below(n: nat)
    requires
        n <= usize::MAX,
    ensures
        Set::new(|x: usize| x < n).finite(),
        Set::new(|x: usize| x < n).len() == n,
    decreases n,
{
    let all = Set::new(|x: usize| x < n);
    if n == 0 {
        assert(all =~= Set::empty());
    } else {
        let fewer = Set::new(|x: usize| x < n - 1);
        numbers_below((n - 1) as nat);
        assert(Set::new(|x: usize| x < (n - 1) as nat) =~= fewer);
        assert(all =~= fewer.insert((n - 1) as usize));
    }
}

// ---------------------------------------------------------------------------
// The walk
// ---------------------------------------------------------------------------

/// One contiguous run: where it goes, where it comes from, how long it is.
/// Padding comes from nowhere.
#[derive(Clone, Copy, Debug, PartialEq, Eq, Structural)]
pub struct Run {
    pub to: u64,
    pub from: Option<u64>,
    pub length: u64,
}

/// A source element as a 64-bit number.
pub open spec fn narrow(from: Option<int>) -> Option<u64> {
    match from {
        Some(index) => Some(index as u64),
        None => None,
    }
}

impl PlanModel {
    /// The `k`th run.
    pub open spec fn run_at(self, k: int) -> Run {
        Run {
            to: (k * self.run_length()) as u64,
            from: narrow(self.source_of(k * self.run_length())),
            length: self.run_length() as u64,
        }
    }

    /// The runs, in destination order.
    pub open spec fn runs(self) -> Seq<Run> {
        Seq::new(self.run_total(), |k: int| self.run_at(k))
    }

    /// The source of every destination element, in order.
    pub open spec fn elements(self) -> Seq<(u64, Option<u64>)> {
        Seq::new(self.dest_elements(), |to: int| (to as u64, narrow(self.source_of(to))))
    }
}

/// Numbers without their width.
spec fn ints(numbers: Seq<u64>) -> Seq<int> {
    numbers.map_values(|number: u64| number as int)
}

/// The walk in progress: the counters of the sub-axes and the logical
/// coordinates they come to, at the start of the next run.
pub struct Runs<'a> {
    plan: &'a Plan,
    outer: usize,
    run: u64,
    total: u64,
    step: u64,
    counters: Vec<u64>,
    coord: Vec<u64>,
}

impl<'a> Runs<'a> {
    spec fn placed_value(&self) -> int {
        value(self.plan@.storage(), self.plan@.placed(ints(self.counters@)))
    }

    /// The counters and the coordinates belong together.
    spec fn in_step(&self) -> bool {
        let m = self.plan@;
        &&& self.plan.wf()
        &&& self.outer == m.outer()
        &&& self.run == m.run_length()
        &&& self.total == m.run_total()
        &&& self.counters@.len() == m.extents.len()
        &&& proper(m.extents, ints(self.counters@))
        &&& self.coord@.len() == m.shape.len()
        &&& forall|a: int|
            0 <= a < m.shape.len() ==> #[trigger] self.coord@[a] == m.coordinates(
                ints(self.counters@),
            )[a]
    }

    /// The plan that is walked.
    pub closed spec fn model(&self) -> PlanModel {
        self.plan@
    }

    /// How many runs have been given out.
    pub closed spec fn given(&self) -> nat {
        self.step as nat
    }

    pub closed spec fn wf(&self) -> bool {
        &&& self.in_step()
        &&& self.step <= self.total
        &&& self.placed_value() == if self.step < self.total {
            self.step * self.run
        } else {
            0
        }
    }

    pub fn new(plan: &'a Plan) -> (runs: Runs<'a>)
        requires
            plan.wf(),
        ensures
            runs.wf(),
            runs.model() == plan@,
            runs.given() == 0,
    {
        let ghost m = plan@;
        let (outer, run) = fold_runs(plan);
        proof {
            m.runs_tile();
            vstd::arithmetic::div_mod::lemma_div_multiples_vanish(
                m.run_total() as int,
                run as int,
            );
            lemma_mul_is_commutative(m.run_total() as int, run as int);
        }
        let total: u64 = plan.dest_elements / run;
        let mut counters: Vec<u64> = Vec::new();
        counters.resize(plan.extents.len(), 0);
        let mut coord: Vec<u64> = Vec::new();
        coord.resize(plan.shape.len(), 0);
        proof {
            zeros_are_in_step(m, ints(counters@));
        }
        let runs = Runs { plan, outer, run, total, step: 0, counters, coord };
        proof {
            assert(runs.in_step());
            assert(runs.step * runs.run == 0) by (nonlinear_arith)
                requires
                    runs.step == 0,
            ;
        }
        runs
    }

    /// The source element at the start of the next run.
    fn source(&self) -> (from: Option<u64>)
        requires
            self.wf(),
            self.step < self.total,
        ensures
            from == narrow(self.plan@.source_of(self.step * self.run)),
    {
        let ghost m = self.plan@;
        let ghost c = ints(self.counters@);
        let ghost found = m.coordinates(c);
        proof {
            m.source_of_counters(c);
        }
        let rank = self.coord.len();
        let mut at: usize = 0;
        while at < rank
            invariant
                at <= rank,
                rank == self.coord@.len(),
                rank == m.shape.len(),
                self.wf(),
                m == self.plan@,
                c == ints(self.counters@),
                found == m.coordinates(c),
                m.source_of(self.step * self.run) == m.source_at(c),
                forall|a: int| 0 <= a < at ==> #[trigger] found[a] < m.shape[a],
            decreases rank - at,
        {
            if self.coord[at] >= self.plan.shape[at] {
                assert(found[at as int] >= m.shape[at as int]);
                return None;
            }
            at += 1;
        }
        proof {
            assert(m.inside(found));
            assert forall|a: int| 0 <= a < m.shape.len() implies 0 <= #[trigger] found[a]
                < m.shape[a] by {
                m.coordinate_is_bounded(c, a);
            }
            value_is_bounded(m.shape, found);
        }
        let mut offset: u64 = 0;
        let mut at: usize = 0;
        assert(m.shape.skip(0) =~= m.shape && found.skip(0) =~= found);
        while at < rank
            invariant
                at <= rank,
                rank == self.coord@.len(),
                rank == m.shape.len(),
                self.wf(),
                m == self.plan@,
                c == ints(self.counters@),
                found == m.coordinates(c),
                m.source_of(self.step * self.run) == m.source_at(c),
                proper(m.shape, found),
                offset + value(m.shape.skip(at as int), found.skip(at as int)) == value(
                    m.shape,
                    found,
                ),
                value(m.shape, found) <= u64::MAX,
            decreases rank - at,
        {
            proof {
                let radix = m.shape.skip(at as int);
                let spelled = found.skip(at as int);
                assert(radix.drop_first() =~= m.shape.skip(at + 1));
                assert(spelled.drop_first() =~= found.skip(at + 1));
                tail_is_proper(m.shape, found, at + 1);
                value_is_bounded(m.shape.skip(at + 1), found.skip(at + 1));
                assert(found[at as int] * weight(m.shape, at as int) >= 0) by (nonlinear_arith)
                    requires
                        found[at as int] >= 0,
                        weight(m.shape, at as int) >= 0,
                ;
            }
            offset = offset + self.coord[at] * self.plan.logical_stride[at];
            at += 1;
        }
        assert(m.shape.skip(rank as int) =~= Seq::<u64>::empty());
        Some(offset)
    }

    /// Turns the counter at one storage position by one, back to zero if it is
    /// full. Whether it was not full.
    fn turn(&mut self, position: usize) -> (stopped: bool)
        requires
            old(self).in_step(),
            position < old(self).plan@.permutation.len(),
        ensures
            final(self).in_step(),
            final(self).plan == old(self).plan,
            final(self).step == old(self).step,
            stopped ==> final(self).placed_value() == old(self).placed_value() + weight(
                old(self).plan@.storage(),
                position as int,
            ),
            !stopped ==> final(self).placed_value() + span(
                old(self).plan@.storage().skip(position as int),
            ) == old(self).placed_value() + weight(old(self).plan@.storage(), position as int),
    {
        let ghost m = self.plan@;
        let ghost storage = m.storage();
        let at: usize = self.plan.permutation[position];
        let ghost c = ints(self.counters@);
        proof {
            assert(m.permutation[position as int] < m.permutation.len());
            axes_are_inside(m.axes, m.shape.len(), at as int);
            assert(0 <= c[at as int] < m.extents[at as int]);
            assert(m.placed(c)[position as int] == c[at as int]);
            assert(storage[position as int] == m.extents[at as int]);
            span_from(storage, position as int);
        }
        let axis: usize = self.plan.axes[at];
        let count: u64 = self.counters[at];
        let factor: u64 = self.plan.within[at];
        let stopped = count + 1 < self.plan.extents[at];
        let new: u64 = if stopped {
            count + 1
        } else {
            0
        };
        let ghost next = c.update(at as int, new as int);
        proof {
            m.coordinates_update(c, at as int, new as int);
            m.placed_update(c, position as int, new as int);
            value_update(storage, m.placed(c), position as int, new as int);
            update_is_proper(m.extents, c, at as int, new as int);
            m.coordinate_is_bounded(next, axis as int);
            assert(self.coord@[axis as int] == m.coordinates(c)[axis as int]);
            let w = weight(storage, position as int) as int;
            if stopped {
                assert((new - count) * w == w) by (nonlinear_arith)
                    requires
                        new == count + 1,
                ;
                assert((new - count) * factor == factor) by (nonlinear_arith)
                    requires
                        new == count + 1,
                ;
            } else {
                assert((new - count) * w + storage[position as int] * w == w) by (nonlinear_arith)
                    requires
                        storage[position as int] == count + 1,
                        new == 0,
                ;
                assert((new - count) * factor == -(count * factor)) by (nonlinear_arith)
                    requires
                        new == 0,
                ;
                assert(0 <= count * factor) by (nonlinear_arith)
                    requires
                        0 <= count,
                        0 <= factor,
                ;
            }
        }
        if stopped {
            self.coord[axis] = self.coord[axis] + factor;
        } else {
            self.coord[axis] = self.coord[axis] - count * factor;
        }
        self.counters[at] = new;
        assert(ints(self.counters@) =~= next);
        stopped
    }

    /// Steps the odometer over the outer storage positions.
    fn step_on(&mut self)
        requires
            old(self).wf(),
            old(self).step < old(self).total,
        ensures
            final(self).wf(),
            final(self).plan == old(self).plan,
            final(self).step == old(self).step + 1,
    {
        let ghost m = self.plan@;
        let ghost goal = (self.step + 1) * self.run;
        let ghost storage = m.storage();
        let mut position: usize = self.outer;
        let mut done = false;
        proof {
            m.runs_tile();
            m.storage_span();
            assert(self.step * self.run + self.run == goal) by (nonlinear_arith)
                requires
                    goal == (self.step + 1) * self.run,
            ;
        }
        while position > 0 && !done
            invariant
                position <= self.outer,
                self.in_step(),
                self.plan == old(self).plan,
                self.step == old(self).step,
                m == self.plan@,
                storage == m.storage(),
                0 <= m.outer() <= m.permutation.len(),
                !done ==> self.placed_value() + span(storage.skip(position as int)) == goal,
                done ==> self.placed_value() == goal,
            decreases position,
        {
            position -= 1;
            done = self.turn(position);
        }
        proof {
            let c = ints(self.counters@);
            m.placed_is_proper(c);
            value_is_bounded(storage, m.placed(c));
            let next = self.step + 1;
            let total = self.total as int;
            let run = self.run as int;
            if done {
                assert(next < total) by (nonlinear_arith)
                    requires
                        next * run < total * run,
                        run > 0,
                ;
            } else {
                assert(storage.skip(0) =~= storage);
                assert(next == total) by (nonlinear_arith)
                    requires
                        next * run >= total * run,
                        next <= total,
                        run > 0,
                ;
            }
        }
        self.step = self.step + 1;
    }

    /// Whether there are more runs.
    pub fn more(&self) -> (more: bool)
        requires
            self.wf(),
        ensures
            more == (self.given() < self.model().run_total()),
            !more ==> self.given() == self.model().run_total(),
    {
        self.step < self.total
    }

    /// The next run, in destination order.
    pub fn advance(&mut self) -> (run: Run)
        requires
            old(self).wf(),
            old(self).given() < old(self).model().run_total(),
        ensures
            final(self).wf(),
            final(self).model() == old(self).model(),
            final(self).given() == old(self).given() + 1,
            run == old(self).model().run_at(old(self).given() as int),
    {
        let from = self.source();
        proof {
            run_lies_inside(self.plan@, self.step as int, 1);
        }
        let run = Run { to: self.step * self.run, from, length: self.run };
        self.step_on();
        run
    }
}

/// Counters that are all zero.
proof fn zeros_are_in_step(plan: PlanModel, counters: Seq<int>)
    requires
        plan.sound(),
        counters.len() == plan.extents.len(),
        forall|j: int| 0 <= j < counters.len() ==> #[trigger] counters[j] == 0,
    ensures
        proper(plan.extents, counters),
        forall|a: int|
            0 <= a < plan.shape.len() ==> #[trigger] plan.coordinates(counters)[a] == 0,
        value(plan.storage(), plan.placed(counters)) == 0,
{
    assert forall|j: int| 0 <= j < plan.extents.len() implies 0 <= #[trigger] counters[j]
        < plan.extents[j] by {
        assert(plan.extents[j] > 0);
    }
    assert forall|a: int| 0 <= a < plan.shape.len() implies #[trigger] plan.coordinates(counters)[a]
        == 0 by {
        coordinate_of_zeros(plan.axes, plan.extents, counters, a, plan.extents.len() as int);
    }
    let placed = plan.placed(counters);
    assert forall|p: int| 0 <= p < placed.len() implies #[trigger] placed[p] == 0 by {
        assert(plan.permutation[p] < plan.permutation.len());
    }
    value_of_zeros(plan.storage(), placed);
}

/// Folds trailing storage positions into one run.
fn fold_runs(plan: &Plan) -> (folded: (usize, u64))
    requires
        plan.wf(),
    ensures
        folded.0 == plan@.outer(),
        folded.1 == plan@.run_length(),
{
    let ghost m = plan@;
    let n = plan.extents.len();
    let mut run: u64 = 1;
    let mut outer: usize = n;
    proof {
        m.storage_is_positive();
        m.storage_span();
        assert(m.storage().skip(n as int) =~= Seq::<u64>::empty());
    }
    while outer > 0 && folds_at(plan, outer - 1, run)
        invariant
            outer <= n,
            plan.wf(),
            m == plan@,
            n == m.permutation.len(),
            run == span(m.storage().skip(outer as int)),
            m.outer() == m.outer_before(outer as int),
            positive(m.storage()),
            m.storage().len() == n,
            span(m.storage()) == m.dest_elements(),
        decreases outer,
    {
        outer -= 1;
        let at: usize = plan.permutation[outer];
        proof {
            assert(m.permutation[outer as int] < m.permutation.len());
            span_from(m.storage(), outer as int);
            weight_is_bounded(m.storage(), outer as int);
            lemma_mul_is_commutative(run as int, m.storage()[outer as int] as int);
        }
        run = run * plan.extents[at];
    }
    (outer, run)
}

proof fn update_is_proper(radix: Seq<u64>, spelled: Seq<int>, at: int, new: int)
    requires
        proper(radix, spelled),
        0 <= at < radix.len(),
        0 <= new < radix[at],
    ensures
        proper(radix, spelled.update(at, new)),
{
}

proof fn tail_is_proper(radix: Seq<u64>, spelled: Seq<int>, at: int)
    requires
        proper(radix, spelled),
        0 <= at <= radix.len(),
    ensures
        proper(radix.skip(at), spelled.skip(at)),
{
    let a = radix.skip(at);
    let b = spelled.skip(at);
    assert forall|i: int| 0 <= i < a.len() implies 0 <= #[trigger] b[i] < a[i] by {
        assert(b[i] == spelled[at + i]);
        assert(a[i] == radix[at + i]);
    }
}

proof fn coordinate_of_zeros(
    axes: Seq<usize>,
    extents: Seq<u64>,
    counters: Seq<int>,
    axis: int,
    upto: int,
)
    requires
        0 <= upto <= counters.len(),
        forall|j: int| 0 <= j < counters.len() ==> #[trigger] counters[j] == 0,
    ensures
        coordinate(axes, extents, counters, axis, upto) == 0,
    decreases upto,
{
    if upto > 0 {
        coordinate_of_zeros(axes, extents, counters, axis, upto - 1);
        assert(counters[upto - 1] == 0);
    }
}

/// Whether a storage position extends a run of length `run` behind it.
fn folds_at(plan: &Plan, position: usize, run: u64) -> (yes: bool)
    requires
        plan.wf(),
        position < plan@.permutation.len(),
        run == weight(plan@.storage(), position as int),
    ensures
        yes == plan@.folds(position as int),
{
    let at: usize = plan.permutation[position];
    proof {
        let m = plan@;
        assert(m.permutation[position as int] < m.permutation.len());
        axes_are_inside(m.axes, m.shape.len(), at as int);
        assert(plan.padded_axis@[m.axes[at as int] as int] == overshoots(
            m.shape,
            m.axes,
            m.extents,
            m.axes[at as int] as int,
        ));
        assert(plan.src_stride@[at as int] == m.src_stride(at as int));
    }
    !plan.padded_axis[plan.axes[at]] && plan.src_stride[at] == run
}

/// What a walk over runs is shown to.
pub trait RunVisitor {
    /// The runs seen so far.
    open spec fn seen(&self) -> Seq<Run> {
        arbitrary()
    }

    fn visit(&mut self, run: Run)
        ensures
            final(self).seen() == old(self).seen().push(run),
    ;
}

/// A list of runs.
#[derive(Debug, PartialEq, Eq)]
pub struct RunList {
    pub runs: Vec<Run>,
}

impl RunVisitor for RunList {
    open spec fn seen(&self) -> Seq<Run> {
        self.runs@
    }

    fn visit(&mut self, run: Run) {
        self.runs.push(run);
    }
}

/// What a walk over elements is shown to.
pub trait ElementVisitor {
    /// The elements seen so far, each with its source.
    open spec fn seen(&self) -> Seq<(u64, Option<u64>)> {
        arbitrary()
    }

    fn visit(&mut self, to: u64, from: Option<u64>)
        ensures
            final(self).seen() == old(self).seen().push((to, from)),
    ;
}

/// A list of elements and their sources.
#[derive(Debug, PartialEq, Eq)]
pub struct ElementList {
    pub elements: Vec<(u64, Option<u64>)>,
}

impl ElementVisitor for ElementList {
    open spec fn seen(&self) -> Seq<(u64, Option<u64>)> {
        self.elements@
    }

    fn visit(&mut self, to: u64, from: Option<u64>) {
        self.elements.push((to, from));
    }
}

/// The arranged bytes of a source: at each destination element the bytes of its
/// source element, zero where there is none.
pub open spec fn arranged_bytes(plan: PlanModel, source: Seq<u8>, element: nat) -> Seq<u8> {
    Seq::new(
        plan.dest_elements() * element,
        |b: int|
            match plan.source_of(b / element as int) {
                Some(from) => source[from * element + b % element as int],
                None => 0u8,
            },
    )
}

/// Where a source element stands in the destination.
pub open spec fn place_of(plan: PlanModel, from: int) -> int {
    choose|to: int|
        0 <= to < plan.dest_elements() && #[trigger] plan.source_of(to) == Some(from)
}

/// The bytes of the source that an arranged destination holds.
pub open spec fn restored_bytes(plan: PlanModel, destination: Seq<u8>, element: nat) -> Seq<u8> {
    Seq::new(
        plan.source_elements() * element,
        |b: int| destination[place_of(plan, b / element as int) * element + b % element as int],
    )
}

/// What is wrong with the sizes of two buffers.
pub open spec fn size_error(plan: PlanModel, source: nat, destination: nat, element: nat) -> Option<
    ErrorModel,
> {
    if source != plan.source_elements() * element {
        Some(
            ErrorModel::Buffer {
                got: source as usize,
                want: (plan.source_elements() * element) as usize,
            },
        )
    } else if destination != plan.dest_elements() * element {
        Some(
            ErrorModel::Buffer {
                got: destination as usize,
                want: (plan.dest_elements() * element) as usize,
            },
        )
    } else {
        None
    }
}

/// Both buffers of a plan can be addressed.
pub open spec fn addressable(plan: PlanModel, element: nat) -> bool {
    plan.source_elements() * element <= usize::MAX && plan.dest_elements() * element <= usize::MAX
}

/// Copies `count` bytes.
pub(crate) fn copy_bytes(target: &mut [u8], to: usize, source: &[u8], from: usize, count: usize)
    requires
        to + count <= old(target)@.len(),
        from + count <= source@.len(),
    ensures
        final(target)@.len() == old(target)@.len(),
        forall|b: int|
            0 <= b < old(target)@.len() ==> #[trigger] final(target)@[b] == if to <= b < to + count {
                source@[from + b - to]
            } else {
                old(target)@[b]
            },
{
    let room: usize = target.len();
    let available: usize = source.len();
    let mut at: usize = 0;
    while at < count
        invariant
            at <= count,
            to + count <= room,
            from + count <= available,
            room == target@.len(),
            available == source@.len(),
            target@.len() == old(target)@.len(),
            forall|b: int|
                0 <= b < target@.len() ==> #[trigger] target@[b] == if to <= b < to + at {
                    source@[from + b - to]
                } else {
                    old(target)@[b]
                },
        decreases count - at,
    {
        target[to + at] = source[from + at];
        at += 1;
    }
}

/// Writes `count` zeros.
pub(crate) fn clear_bytes(target: &mut [u8], to: usize, count: usize)
    requires
        to + count <= old(target)@.len(),
    ensures
        final(target)@.len() == old(target)@.len(),
        forall|b: int|
            0 <= b < old(target)@.len() ==> #[trigger] final(target)@[b] == if to <= b < to + count {
                0
            } else {
                old(target)@[b]
            },
{
    let room: usize = target.len();
    let mut at: usize = 0;
    while at < count
        invariant
            at <= count,
            to + count <= room,
            room == target@.len(),
            target@.len() == old(target)@.len(),
            forall|b: int|
                0 <= b < target@.len() ==> #[trigger] target@[b] == if to <= b < to + at {
                    0
                } else {
                    old(target)@[b]
                },
        decreases count - at,
    {
        target[to + at] = 0;
        at += 1;
    }
}

/// Where a run lies in both buffers.
pub proof fn run_lies_inside(plan: PlanModel, k: int, element: nat)
    requires
        plan.sound(),
        0 <= k < plan.run_total(),
    ensures
        plan.run_at(k).to == k * plan.run_length(),
        plan.run_at(k).length == plan.run_length(),
        k * plan.run_length() + plan.run_length() <= plan.dest_elements(),
        (k * plan.run_length() + plan.run_length()) * element <= plan.dest_elements() * element,
        plan.source_of(k * plan.run_length()) matches Some(from) ==> {
            &&& 0 <= from
            &&& from + plan.run_length() <= plan.source_elements()
            &&& (from + plan.run_length()) * element <= plan.source_elements() * element
            &&& plan.run_at(k).from == Some(from as u64)
            &&& from <= u64::MAX
        },
        plan.source_of(k * plan.run_length()) is None ==> plan.run_at(k).from is None,
{
    plan.runs_tile();
    let run = plan.run_length() as int;
    let total = plan.run_total() as int;
    assert(k * run + run <= total * run) by (nonlinear_arith)
        requires
            0 <= k < total,
            run > 0,
    ;
    assert(0 <= k * run) by (nonlinear_arith)
        requires
            0 <= k,
            run > 0,
    ;
    lemma_mul_inequality(k * run + run, plan.dest_elements() as int, element as int);
    if let Some(from) = plan.source_of(k * run) {
        plan.run_is_contiguous(k, run - 1);
        sources_are_inside(plan, k * run);
        sources_are_inside(plan, k * run + run - 1);
        lemma_mul_inequality(from + run, plan.source_elements() as int, element as int);
    }
}

/// The element and the byte in it that a byte of a run is.
proof fn byte_of_run(base: int, element: int, x: int)
    requires
        0 <= base,
        0 < element,
        0 <= x,
    ensures
        (base * element + x) / element == base + x / element,
        (base * element + x) % element == x % element,
        x == (x / element) * element + x % element,
        0 <= x % element < element,
        0 <= x / element,
{
    vstd::arithmetic::div_mod::lemma_fundamental_div_mod(x, element);
    lemma_mul_is_commutative(element, x / element);
    assert(base * element + x == (base + x / element) * element + x % element) by (nonlinear_arith)
        requires
            x == (x / element) * element + x % element,
    ;
    vstd::arithmetic::div_mod::lemma_fundamental_div_mod_converse(
        base * element + x,
        element,
        base + x / element,
        x % element,
    );
    assert(0 <= x / element) by (nonlinear_arith)
        requires
            0 <= x,
            0 < element,
    ;
}

proof fn place_in_run(x: int, run: int, element: int)
    requires
        0 <= x < run * element,
        0 < element,
    ensures
        0 <= x / element < run,
{
    assert(0 <= x / element < run) by (nonlinear_arith)
        requires
            0 <= x < run * element,
            0 < element,
    ;
}

/// The bytes of one run, arranged.
pub proof fn arranged_run(plan: PlanModel, source: Seq<u8>, element: nat, k: int, x: int)
    requires
        plan.sound(),
        0 <= k < plan.run_total(),
        0 < element,
        0 <= x < plan.run_length() * element,
        source.len() == plan.source_elements() * element,
    ensures
        ({
            let base = k * plan.run_length();
            let b = base * element + x;
            &&& 0 <= b < plan.dest_elements() * element
            &&& arranged_bytes(plan, source, element)[b] == match plan.source_of(base) {
                Some(from) => source[from * element + x],
                None => 0u8,
            }
        }),
{
    let run = plan.run_length() as int;
    let e = element as int;
    let base = k * run;
    run_lies_inside(plan, k, element);
    byte_of_run(base, e, x);
    place_in_run(x, run, e);
    plan.run_is_contiguous(k, x / e);
    assert(base * e + x < (base + run) * e) by (nonlinear_arith)
        requires
            x < run * e,
    ;
    assert(0 <= base * e) by (nonlinear_arith)
        requires
            0 <= base,
            0 < e,
    ;
    if let Some(from) = plan.source_of(base) {
        assert((from + x / e) * e + x % e == from * e + x) by (nonlinear_arith)
            requires
                x == (x / e) * e + x % e,
        ;
    }
}

impl Plan {
    /// The walk in maximal contiguous runs, visiting every destination element
    /// exactly once across all runs, in destination order.
    ///
    /// Trailing storage positions fold into one run for as long as each
    /// sub-axis's source stride equals the run length so far; only the outer
    /// positions need an odometer. A padded axis is never folded, so that every
    /// run is wholly copy or wholly padding.
    pub fn for_each_run<V: RunVisitor>(&self, visitor: &mut V)
        requires
            self.wf(),
        ensures
            final(visitor).seen() == old(visitor).seen() + self@.runs(),
    {
        let ghost all = self@.runs();
        let mut runs = Runs::new(self);
        assert(visitor.seen() =~= old(visitor).seen() + all.take(0));
        while runs.more()
            invariant
                self.wf(),
                runs.wf(),
                runs.model() == self@,
                all == self@.runs(),
                visitor.seen() == old(visitor).seen() + all.take(runs.step as int),
            decreases self@.run_total() - runs.given(),
        {
            let run = runs.advance();
            assert(all.take(runs.step as int) =~= all.take(runs.step - 1).push(run));
            visitor.visit(run);
            assert(visitor.seen() =~= old(visitor).seen() + all.take(runs.step as int));
        }
        assert(all.take(all.len() as int) =~= all);
    }

    /// The walk one element at a time.
    pub fn for_each<V: ElementVisitor>(&self, visitor: &mut V)
        requires
            self.wf(),
        ensures
            final(visitor).seen() == old(visitor).seen() + self@.elements(),
    {
        let ghost m = self@;
        let ghost all = m.elements();
        proof {
            m.runs_tile();
        }
        let mut runs = Runs::new(self);
        assert(visitor.seen() =~= old(visitor).seen() + all.take(0));
        while runs.more()
            invariant
                self.wf(),
                runs.wf(),
                runs.model() == self@,
                m == self@,
                all == m.elements(),
                visitor.seen() == old(visitor).seen() + all.take(runs.step * runs.run),
            decreases self@.run_total() - runs.given(),
        {
            let ghost k = runs.step as int;
            let ghost base = k * m.run_length();
            let run = runs.advance();
            proof {
                run_lies_inside(m, k, 1);
                assert(0 <= base) by (nonlinear_arith)
                    requires
                        0 <= k,
                        base == k * m.run_length(),
                        0 <= m.run_length(),
                ;
            }
            let mut step: u64 = 0;
            while step < run.length
                invariant
                    step <= run.length,
                    self.wf(),
                    m == self@,
                    all == m.elements(),
                    0 <= k < m.run_total(),
                    run == m.run_at(k),
                    base == k * m.run_length(),
                    0 <= base,
                    run.to == base,
                    run.length == m.run_length(),
                    base + m.run_length() <= m.dest_elements(),
                    m.dest_elements() <= u64::MAX,
                    m.source_of(base) matches Some(from) ==> 0 <= from && from + m.run_length()
                        <= u64::MAX && run.from == Some(from as u64),
                    m.source_of(base) is None ==> run.from is None,
                    visitor.seen() == old(visitor).seen() + all.take(base + step),
                decreases run.length - step,
            {
                proof {
                    m.run_is_contiguous(k, step as int);
                    assert(all.take(base + step + 1) =~= all.take(base + step).push(
                        all[base + step],
                    ));
                }
                let from = match run.from {
                    Some(index) => Some(index + step),
                    None => None,
                };
                visitor.visit(run.to + step, from);
                assert(visitor.seen() =~= old(visitor).seen() + all.take(base + step + 1));
                step += 1;
            }
            assert(base + m.run_length() == runs.step * runs.run) by (nonlinear_arith)
                requires
                    base == k * m.run_length(),
                    runs.step == k + 1,
                    runs.run == m.run_length(),
            ;
        }
        proof {
            m.runs_tile();
        }
        assert(all.take(all.len() as int) =~= all);
    }

    /// How many runs this plan decomposes into.
    pub fn run_count(&self) -> (count: u64)
        requires
            self.wf(),
        ensures
            count == self@.run_total(),
    {
        Runs::new(self).total
    }

    fn sized(&self, source: usize, destination: usize, element: usize) -> (outcome: Result<
        (),
        LayoutError,
    >)
        requires
            self.wf(),
            addressable(self@, element as nat),
        ensures
            match outcome {
                Ok(_) => size_error(
                    self@,
                    source as nat,
                    destination as nat,
                    element as nat,
                ) is None,
                Err(e) => size_error(self@, source as nat, destination as nat, element as nat)
                    == Some(e@),
            },
    {
        if element == 0 {
            proof {
                nothing_of(self@.source_elements());
                nothing_of(self@.dest_elements());
            }
            if source != 0 {
                return Err(LayoutError::Buffer { got: source, want: 0 });
            }
            if destination != 0 {
                return Err(LayoutError::Buffer { got: destination, want: 0 });
            }
            return Ok(());
        }
        proof {
            at_least(self@.source_elements(), element as nat);
            at_least(self@.dest_elements(), element as nat);
        }
        let want_source: usize = self.source_elements as usize * element;
        let want_destination: usize = self.dest_elements as usize * element;
        if source != want_source {
            return Err(LayoutError::Buffer { got: source, want: want_source });
        }
        if destination != want_destination {
            return Err(LayoutError::Buffer { got: destination, want: want_destination });
        }
        Ok(())
    }

    /// Reads the source in its logical arrangement and writes the destination
    /// in this layout's. Padding is written as zero.
    pub fn apply(&self, source: &[u8], destination: &mut [u8], element: usize) -> (outcome: Result<
        (),
        LayoutError,
    >)
        requires
            self.wf(),
            addressable(self@, element as nat),
        ensures
            final(destination)@.len() == old(destination)@.len(),
            match outcome {
                Ok(_) => size_error(
                    self@,
                    source@.len(),
                    old(destination)@.len(),
                    element as nat,
                ) is None && final(destination)@ == arranged_bytes(
                    self@,
                    source@,
                    element as nat,
                ),
                Err(e) => size_error(self@, source@.len(), old(destination)@.len(), element as nat)
                    == Some(e@) && final(destination)@ == old(destination)@,
            },
    {
        let ghost m = self@;
        self.sized(source.len(), destination.len(), element)?;
        let ghost expected = arranged_bytes(m, source@, element as nat);
        if element == 0 {
            proof {
                nothing_of(m.dest_elements());
            }
            assert(destination@ =~= expected);
            return Ok(());
        }
        let mut runs = Runs::new(self);
        assert(runs.step * runs.run * element == 0) by (nonlinear_arith)
            requires
                runs.step == 0,
        ;
        while runs.more()
            invariant
                self.wf(),
                runs.wf(),
                runs.model() == self@,
                m == self@,
                addressable(m, element as nat),
                0 < element,
                source@.len() == m.source_elements() * element,
                destination@.len() == m.dest_elements() * element,
                destination@.len() == old(destination)@.len(),
                expected == arranged_bytes(m, source@, element as nat),
                forall|b: int|
                    0 <= b < runs.step * runs.run * element ==> #[trigger] destination@[b]
                        == expected[b],
            decreases self@.run_total() - runs.given(),
        {
            let ghost k = runs.step as int;
            let ghost base = k * m.run_length();
            let ghost length = m.run_length() as int;
            let ghost e = element as int;
            let run = runs.advance();
            proof {
                m.runs_tile();
                run_lies_inside(m, k, element as nat);
                assert(base * e + length * e == (base + length) * e) by (nonlinear_arith);
                assert(0 <= base) by (nonlinear_arith)
                    requires
                        base == k * length,
                        0 <= k,
                        0 <= length,
                ;
                addressable_part(base, base + length, e, usize::MAX as int);
                assert(runs.step * runs.run * e == (base + length) * e) by (nonlinear_arith)
                    requires
                        runs.step == k + 1,
                        runs.run == length,
                        base == k * length,
                ;
            }
            let at: usize = run.to as usize * element;
            let count: usize = run.length as usize * element;
            let ghost before = destination@;
            match run.from {
                Some(index) => {
                    proof {
                        let from = m.source_of(base).unwrap();
                        assert(from * e + length * e == (from + length) * e) by (nonlinear_arith);
                        addressable_part(from, from + length, e, usize::MAX as int);
                    }
                    copy_bytes(destination, at, source, index as usize * element, count);
                },
                None => {
                    clear_bytes(destination, at, count);
                },
            }
            proof {
                assert forall|b: int| 0 <= b < runs.step * runs.run * element implies #[trigger] destination@[b]
                    == expected[b] by {
                    if b < at {
                        assert(destination@[b] == before[b]);
                    } else {
                        arranged_run(m, source@, element as nat, k, b - at);
                    }
                }
            }
        }
        proof {
            m.runs_tile();
            assert(runs.step * runs.run * element == m.dest_elements() * element);
        }
        assert(destination@ =~= expected);
        Ok(())
    }
}

proof fn nothing_of(count: nat)
    ensures
        count * 0 == 0,
{
}

pub proof fn at_least(count: nat, element: nat)
    requires
        element > 0,
    ensures
        count <= count * element,
{
    assert(count <= count * element) by (nonlinear_arith)
        requires
            element > 0,
    ;
}

/// A part of what can be addressed can be addressed.
pub proof fn addressable_part(low: int, high: int, element: int, limit: int)
    requires
        0 <= low < high,
        1 <= element,
        high * element <= limit,
    ensures
        0 <= low * element < limit,
        low < limit,
        high - low <= limit,
        0 <= (high - low) * element <= limit,
{
    assert(0 <= low * element < limit && low < limit && high - low <= limit && 0 <= (high - low)
        * element <= limit) by (nonlinear_arith)
        requires
            0 <= low < high,
            1 <= element,
            high * element <= limit,
    ;
}

/// One byte of the source is what stands for it in the destination.
spec fn byte_restored(
    plan: PlanModel,
    destination: Seq<u8>,
    source: Seq<u8>,
    element: int,
    to: int,
    r: int,
) -> bool {
    plan.source_of(to) matches Some(from) ==> source[from * element + r] == destination[to
        * element + r]
}

/// The source holds what the first `upto` destination elements hold.
spec fn restored_upto(
    plan: PlanModel,
    destination: Seq<u8>,
    source: Seq<u8>,
    element: int,
    upto: int,
) -> bool {
    forall|to: int, r: int|
        0 <= to < upto && 0 <= r < element ==> #[trigger] byte_restored(
            plan,
            destination,
            source,
            element,
            to,
            r,
        )
}

/// Writing one run back keeps what was written back before.
proof fn run_restored(
    plan: PlanModel,
    destination: Seq<u8>,
    before: Seq<u8>,
    after: Seq<u8>,
    element: int,
    k: int,
)
    requires
        plan.sound(),
        0 <= k < plan.run_total(),
        0 < element,
        before.len() == plan.source_elements() * element,
        after.len() == before.len(),
        restored_upto(plan, destination, before, element, k * plan.run_length()),
        plan.source_of(k * plan.run_length()) is None ==> after == before,
        plan.source_of(k * plan.run_length()) matches Some(from) ==> forall|b: int|
            0 <= b < before.len() ==> #[trigger] after[b] == if from * element <= b < from * element
                + plan.run_length() * element {
                destination[k * plan.run_length() * element + b - from * element]
            } else {
                before[b]
            },
    ensures
        restored_upto(plan, destination, after, element, (k + 1) * plan.run_length()),
{
    let run = plan.run_length() as int;
    let base = k * run;
    run_lies_inside(plan, k, element as nat);
    assert((k + 1) * run == base + run) by (nonlinear_arith)
        requires
            base == k * run,
    ;
    assert(0 <= base) by (nonlinear_arith)
        requires
            base == k * run,
            0 <= k,
            0 <= run,
    ;
    assert forall|to: int, r: int| 0 <= to < base + run && 0 <= r
        < element implies #[trigger] byte_restored(plan, destination, after, element, to, r) by {
        if plan.source_of(to) is Some {
            let index = plan.source_of(to).unwrap();
            sources_are_inside(plan, to);
            byte_is_inside(index, plan.source_elements() as int, element, r);
            if to < base {
                assert(byte_restored(plan, destination, before, element, to, r));
                if let Some(from) = plan.source_of(base) {
                    if from <= index < from + run {
                        plan.run_is_contiguous(k, index - from);
                        arranging_is_injective(plan, to, base + (index - from));
                    }
                    byte_is_elsewhere(index, from, run, element, r);
                }
            } else {
                let step = to - base;
                plan.run_is_contiguous(k, step);
                let from = plan.source_of(base).unwrap();
                assert((from + step) * element + r == from * element + (step * element + r))
                    by (nonlinear_arith);
                assert((base + step) * element + r == base * element + (step * element + r))
                    by (nonlinear_arith);
                byte_is_inside(step, run, element, r);
            }
        }
    }
}

proof fn byte_is_inside(index: int, count: int, element: int, r: int)
    requires
        0 <= index < count,
        0 <= r < element,
    ensures
        0 <= index * element + r < count * element,
{
    assert(0 <= index * element + r < count * element) by (nonlinear_arith)
        requires
            0 <= index < count,
            0 <= r < element,
    ;
}

proof fn byte_is_elsewhere(index: int, from: int, run: int, element: int, r: int)
    requires
        0 <= r < element,
    ensures
        !(from <= index < from + run) ==> !(from * element <= index * element + r < from * element
            + run * element),
{
    if index < from {
        assert(index * element + r < from * element) by (nonlinear_arith)
            requires
                index < from,
                0 <= r < element,
        ;
    } else if index >= from + run {
        assert(index * element + r >= from * element + run * element) by (nonlinear_arith)
            requires
                index >= from + run,
                0 <= r < element,
        ;
    }
}

/// What every destination element gives back is the whole source.
proof fn restored_whole(plan: PlanModel, destination: Seq<u8>, source: Seq<u8>, element: nat)
    requires
        plan.sound(),
        0 < element,
        source.len() == plan.source_elements() * element,
        restored_upto(plan, destination, source, element as int, plan.dest_elements() as int),
    ensures
        source == restored_bytes(plan, destination, element),
{
    let e = element as int;
    let expected = restored_bytes(plan, destination, element);
    assert forall|b: int| 0 <= b < source.len() implies source[b] == expected[b] by {
        byte_of_run(0, e, b);
        place_in_run(b, plan.source_elements() as int, e);
        let found = arranging_is_onto(plan, b / e);
        let to = place_of(plan, b / e);
        assert(plan.source_of(found) == Some(b / e));
        assert(byte_restored(plan, destination, source, e, to, b % e));
    }
    assert(source =~= expected);
}

/// Putting back undoes arranging: the bytes that come back through the inverse
/// are the bytes that went in.
pub proof fn restoring_undoes_arranging(plan: PlanModel, source: Seq<u8>, element: nat)
    requires
        plan.sound(),
        source.len() == plan.source_elements() * element,
    ensures
        restored_bytes(plan, arranged_bytes(plan, source, element), element) == source,
{
    let e = element as int;
    if element == 0 {
        nothing_of(plan.source_elements());
        assert(restored_bytes(plan, arranged_bytes(plan, source, element), element) =~= source);
    } else {
        let destination = arranged_bytes(plan, source, element);
        assert forall|to: int, r: int| 0 <= to < plan.dest_elements() && 0 <= r
            < e implies #[trigger] byte_restored(plan, destination, source, e, to, r) by {
            byte_is_inside(to, plan.dest_elements() as int, e, r);
            vstd::arithmetic::div_mod::lemma_fundamental_div_mod_converse(to * e + r, e, to, r);
        }
        restored_whole(plan, destination, source, element);
    }
}

/// What an arranged destination holds outside its source elements is zero.
pub proof fn padding_is_zero(plan: PlanModel, source: Seq<u8>, element: nat, to: int, r: int)
    requires
        0 <= to < plan.dest_elements(),
        0 <= r < element,
        plan.source_of(to) is None,
    ensures
        arranged_bytes(plan, source, element)[to * element + r] == 0,
{
    let e = element as int;
    byte_is_inside(to, plan.dest_elements() as int, e, r);
    vstd::arithmetic::div_mod::lemma_fundamental_div_mod_converse(to * e + r, e, to, r);
}

impl Plan {
    /// The same walk, run backwards: reads the destination in this layout's
    /// arrangement and writes the source in logical order. Padding is skipped:
    /// it holds no element.
    pub fn apply_inverse(&self, destination: &[u8], source: &mut [u8], element: usize) -> (outcome:
        Result<(), LayoutError>)
        requires
            self.wf(),
            addressable(self@, element as nat),
        ensures
            final(source)@.len() == old(source)@.len(),
            match outcome {
                Ok(_) => size_error(
                    self@,
                    old(source)@.len(),
                    destination@.len(),
                    element as nat,
                ) is None && final(source)@ == restored_bytes(
                    self@,
                    destination@,
                    element as nat,
                ),
                Err(e) => size_error(self@, old(source)@.len(), destination@.len(), element as nat)
                    == Some(e@) && final(source)@ == old(source)@,
            },
    {
        let ghost m = self@;
        self.sized(source.len(), destination.len(), element)?;
        if element == 0 {
            proof {
                nothing_of(m.source_elements());
            }
            assert(source@ =~= restored_bytes(m, destination@, 0));
            return Ok(());
        }
        let mut runs = Runs::new(self);
        while runs.more()
            invariant
                self.wf(),
                runs.wf(),
                runs.model() == self@,
                m == self@,
                addressable(m, element as nat),
                0 < element,
                source@.len() == m.source_elements() * element,
                destination@.len() == m.dest_elements() * element,
                source@.len() == old(source)@.len(),
                restored_upto(m, destination@, source@, element as int, runs.step * runs.run),
            decreases self@.run_total() - runs.given(),
        {
            let ghost k = runs.step as int;
            let ghost base = k * m.run_length();
            let ghost length = m.run_length() as int;
            let ghost e = element as int;
            let run = runs.advance();
            let ghost before = source@;
            proof {
                m.runs_tile();
                run_lies_inside(m, k, element as nat);
                assert(base * e + length * e == (base + length) * e) by (nonlinear_arith);
                assert(0 <= base) by (nonlinear_arith)
                    requires
                        base == k * length,
                        0 <= k,
                        0 <= length,
                ;
                addressable_part(base, base + length, e, usize::MAX as int);
            }
            if let Some(index) = run.from {
                let at: usize = run.to as usize * element;
                let count: usize = run.length as usize * element;
                proof {
                    let from = m.source_of(base).unwrap();
                    assert(from * e + length * e == (from + length) * e) by (nonlinear_arith);
                    addressable_part(from, from + length, e, usize::MAX as int);
                }
                copy_bytes(source, index as usize * element, destination, at, count);
            }
            proof {
                run_restored(m, destination@, before, source@, e, k);
            }
        }
        proof {
            m.runs_tile();
            restored_whole(m, destination@, source@, element as nat);
        }
        Ok(())
    }
}

// ---------------------------------------------------------------------------
// Permutations
// ---------------------------------------------------------------------------

/// The plan that only permutes: one sub-axis for each axis.
pub open spec fn permuting(dims: Seq<u64>, axes: Seq<usize>) -> PlanModel {
    PlanModel {
        handle: Seq::empty(),
        shape: dims,
        axes: counting(dims.len()),
        extents: dims,
        permutation: axes,
    }
}

proof fn permuting_fits(dims: Seq<u64>, at: int)
    requires
        0 <= at <= dims.len(),
        dims.len() <= usize::MAX,
    ensures
        fit(Seq::empty(), 0, dims, counting(dims.len()), dims, at) is Fits,
    decreases dims.len() - at,
{
    if at < dims.len() {
        permuting_fits(dims, at + 1);
        single_factor(dims, at);
    }
}

proof fn single_factor(dims: Seq<u64>, at: int)
    requires
        0 <= at < dims.len(),
        dims.len() <= usize::MAX,
    ensures
        within(counting(dims.len()), dims, at) == 1,
        running(counting(dims.len()), dims, at) == dims[at],
        group_end(counting(dims.len()), at) == at + 1,
{
    let axes = counting(dims.len());
    if at + 1 < dims.len() {
        assert(axes[at + 1] != axes[at]);
    }
}

/// A plan that only permutes has no padding: it gives every destination element
/// the source element whose coordinates are its own, permuted.
pub proof fn permuting_is_sound(dims: Seq<u64>, axes: Seq<usize>)
    requires
        0 < dims.len() <= usize::MAX,
        positive(dims),
        axes.len() == dims.len(),
        bijective(axes),
        span(dims) <= u64::MAX,
    ensures
        permuting(dims, axes).sound(),
        forall|j: int|
            0 <= j < dims.len() ==> #[trigger] permuting(dims, axes).src_stride(j) <= u64::MAX,
{
    counting_is_sound(dims);
    let m = permuting(dims, axes);
    assert forall|j: int| 0 <= j < m.axes.len() && #[trigger] starts_axis(m.axes, j) implies running(
        m.axes,
        m.extents,
        j,
    ) >= m.shape[m.axes[j] as int] by {
        single_factor(dims, j);
    }
    assert forall|j: int| 0 <= j < dims.len() implies #[trigger] m.src_stride(j) <= u64::MAX by {
        single_factor(dims, j);
        weight_is_bounded(dims, j + 1);
        let w = weight(dims, j) as int;
        assert(1 * w == w) by (nonlinear_arith);
    }
}

impl Plan {
    /// The plan that permutes the axes of a view.
    pub(crate) fn permute(dims: &[u64], axes: &[usize]) -> (plan: Plan)
        requires
            0 < dims@.len(),
            positive(dims@),
            axes@.len() == dims@.len(),
            bijective(axes@),
            span(dims@) <= u64::MAX,
        ensures
            plan.wf(),
            plan@ == permuting(dims@, axes@),
    {
        let rank: usize = dims.len();
        let handle = String::new();
        let (logical_stride, source_elements) = strides(dims);
        let numbers = count_up(rank);
        let extents = vstd::slice::slice_to_vec(dims);
        let ghost model = permuting(dims@, axes@);
        proof {
            assert(handle@ =~= Seq::<char>::empty());
            permuting_fits(dims@, 0);
            permuting_is_sound(dims@, axes@);
        }
        let (inner, padded_axis) = match fit_axes(&handle, 0, dims, &numbers, &extents) {
            Ok(found) => found,
            Err(_) => (Vec::new(), Vec::new()),
        };
        let (src_stride, dest_elements) = find_strides(
            Ghost(model),
            &numbers,
            &extents,
            &inner,
            &logical_stride,
        );
        let padded = any(&padded_axis);
        let plan = Plan {
            handle,
            shape: vstd::slice::slice_to_vec(dims),
            axes: numbers,
            extents,
            within: inner,
            permutation: vstd::slice::slice_to_vec(axes),
            logical_stride,
            src_stride,
            padded_axis,
            source_elements,
            dest_elements,
            padded,
        };
        proof {
            assert(plan@ == model);
            if model.padded() {
                let axis = choose|axis: int|
                    0 <= axis < model.shape.len() && #[trigger] overshoots(
                        model.shape,
                        model.axes,
                        model.extents,
                        axis,
                    );
                assert(padded_axis@[axis]);
            }
        }
        plan
    }
}

} // verus!
