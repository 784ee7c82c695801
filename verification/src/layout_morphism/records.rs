//! Which records are sound, which shapes they have plans for, and which shapes
//! they are probed with.

use super::catalog::{catalog_error, first_document_error, holds, records_of};
use super::meaning::{are_extents, found_extents};
use super::plan::{
    axes_of, fit, group_end, group_end_is_behind, grouped, planned, running, structured,
    sub_axes_are_grouped, within, Fit, Planning,
};
use super::ratify::{aligned, aligned_dim, alignment, literal, probes_of, ragged};
use super::{
    axis_fault, handle_text, position_fault, record_fault, ErrorModel, LayoutMorphism, SubAxis,
};
use crate::radix::positive;
use vstd::prelude::*;

verus! {

/// Whether sub-axes factor the logical axes in their order, each at least once:
/// they begin with the first axis, end with the last, and skip none.
pub open spec fn factor_every_axis(sub_axes: Seq<SubAxis>, rank: usize) -> bool {
    &&& sub_axes.len() > 0
    &&& sub_axes[0].axis == 0
    &&& sub_axes[sub_axes.len() - 1].axis == rank - 1
    &&& forall|j: int|
        0 < j < sub_axes.len() ==> 0 <= (#[trigger] sub_axes[j]).axis - sub_axes[j - 1].axis <= 1
}

/// Whether a permutation has each position exactly once.
pub open spec fn has_each_position(permutation: Seq<usize>) -> bool {
    &&& forall|i: int| 0 <= i < permutation.len() ==> #[trigger] permutation[i] < permutation.len()
    &&& forall|i: int, j: int|
        0 <= i < j < permutation.len() ==> #[trigger] permutation[i] != #[trigger] permutation[j]
}

proof fn axis_faults(sub_axes: Seq<SubAxis>, upto: int)
    requires
        0 <= upto <= sub_axes.len(),
    ensures
        axis_fault(sub_axes, upto) is None <==> (upto > 0 ==> sub_axes[0].axis == 0) && forall|
            j: int,
        |
            0 < j < upto ==> 0 <= (#[trigger] sub_axes[j]).axis - sub_axes[j - 1].axis <= 1,
    decreases upto,
{
    if upto > 0 {
        axis_faults(sub_axes, upto - 1);
    }
}

proof fn position_faults(permutation: Seq<usize>, upto: int)
    requires
        0 <= upto <= permutation.len(),
    ensures
        position_fault(permutation, upto) is None <==> (forall|i: int|
            0 <= i < upto ==> #[trigger] permutation[i] < permutation.len()) && forall|
            i: int,
            j: int,
        |
            0 <= i < j < upto ==> #[trigger] permutation[i] != #[trigger] permutation[j],
    decreases upto,
{
    if upto > 0 {
        position_faults(permutation, upto - 1);
    }
}

/// A record is sound exactly if it has the format tag and some evidence, and is
/// the identity, with nothing declared, or factors every axis of its rank and has
/// a storage position for each factor.
pub proof fn exactly_sound_records_pass(record: LayoutMorphism)
    ensures
        record_fault(record) is None <==> {
            &&& record.format@ == "tensorfs-layout-morphism-v2"@
            &&& record.provenance@.len() > 0
            &&& if record.sub_axes@.len() == 0 {
                record.permutation@.len() == 0 && record.rank == 0
            } else {
                &&& record.permutation@.len() == record.sub_axes@.len()
                &&& factor_every_axis(record.sub_axes@, record.rank)
                &&& has_each_position(record.permutation@)
            }
        },
{
    axis_faults(record.sub_axes@, record.sub_axes@.len() as int);
    position_faults(record.permutation@, record.permutation@.len() as int);
}

proof fn document_errors(documents: Seq<(String, LayoutMorphism)>, upto: int)
    requires
        0 <= upto <= documents.len(),
    ensures
        first_document_error(documents, upto) is None <==> (forall|i: int|
            0 <= i < upto ==> record_fault((#[trigger] documents[i]).1) is None) && forall|
            i: int,
            j: int,
        |
            0 <= i < j < upto ==> handle_text((#[trigger] documents[i]).1) != handle_text(
                (#[trigger] documents[j]).1,
            ),
    decreases upto,
{
    if upto > 0 {
        document_errors(documents, upto - 1);
        let records = records_of(documents);
        let last = documents[upto - 1].1;
        assert(holds(records, handle_text(last), upto - 1) <==> exists|i: int|
            0 <= i < upto - 1 && handle_text((#[trigger] documents[i]).1) == handle_text(last)) by {
            if holds(records, handle_text(last), upto - 1) {
                let i = choose|i: int|
                    0 <= i < upto - 1 && handle_text(#[trigger] records[i]) == handle_text(last);
                assert(records[i] == documents[i].1);
            }
            if exists|i: int|
                0 <= i < upto - 1 && handle_text((#[trigger] documents[i]).1) == handle_text(
                    last,
                ) {
                let i = choose|i: int|
                    0 <= i < upto - 1 && handle_text((#[trigger] documents[i]).1) == handle_text(
                        last,
                    );
                assert(records[i] == documents[i].1);
            }
        }
    }
}

/// A catalog is accepted exactly if every record is sound, no two have one handle,
/// and one is the arrangement that trees carry by default.
pub proof fn exactly_sound_catalogs_pass(documents: Seq<(String, LayoutMorphism)>)
    ensures
        catalog_error(documents) is None <==> {
            &&& forall|i: int|
                0 <= i < documents.len() ==> record_fault((#[trigger] documents[i]).1) is None
            &&& forall|i: int, j: int|
                0 <= i < j < documents.len() ==> handle_text((#[trigger] documents[i]).1)
                    != handle_text((#[trigger] documents[j]).1)
            &&& exists|i: int|
                0 <= i < documents.len() && handle_text((#[trigger] documents[i]).1)
                    == "torch.contiguous@1"@
        },
{
    let count = documents.len() as int;
    let records = records_of(documents);
    document_errors(documents, count);
    if holds(records, "torch.contiguous@1"@, count) {
        let i = choose|i: int|
            0 <= i < count && handle_text(#[trigger] records[i]) == "torch.contiguous@1"@;
        assert(records[i] == documents[i].1);
    }
    if exists|i: int|
        0 <= i < count && handle_text((#[trigger] documents[i]).1) == "torch.contiguous@1"@ {
        let i = choose|i: int|
            0 <= i < count && handle_text((#[trigger] documents[i]).1) == "torch.contiguous@1"@;
        assert(records[i] == documents[i].1);
    }
}

/// How many coordinates the sub-axes of one axis have together, from the sub-axis
/// `from` on.
pub open spec fn room_on(axes: Seq<usize>, extents: Seq<u64>, axis: int, from: int) -> nat
    decreases axes.len() - from,
{
    if from >= axes.len() {
        1
    } else if axes[from] == axis {
        extents[from] as nat * room_on(axes, extents, axis, from + 1)
    } else {
        room_on(axes, extents, axis, from + 1)
    }
}

proof fn no_room_behind(axes: Seq<usize>, extents: Seq<u64>, axis: int, from: int)
    requires
        0 <= from,
        forall|j: int| from <= j < axes.len() ==> #[trigger] axes[j] != axis,
    ensures
        room_on(axes, extents, axis, from) == 1,
    decreases axes.len() - from,
{
    if from < axes.len() {
        assert(axes[from] != axis);
        no_room_behind(axes, extents, axis, from + 1);
    }
}

proof fn axes_never_fall(axes: Seq<usize>, rank: nat, low: int, high: int)
    requires
        grouped(axes, rank),
        0 <= low <= high < axes.len(),
    ensures
        axes[low] <= axes[high],
    decreases high - low,
{
    if low < high {
        axes_never_fall(axes, rank, low, high - 1);
        assert(axes[high] == axes[high - 1] || axes[high] == axes[high - 1] + 1);
    }
}

proof fn a_run_is_the_room(axes: Seq<usize>, extents: Seq<u64>, rank: nat, at: int)
    requires
        grouped(axes, rank),
        extents.len() == axes.len(),
        0 <= at < axes.len(),
    ensures
        running(axes, extents, at) == room_on(axes, extents, axes[at] as int, at),
    decreases axes.len() - at,
{
    let axis = axes[at] as int;
    if at + 1 < axes.len() && axes[at + 1] == axes[at] {
        a_run_is_the_room(axes, extents, rank, at + 1);
        assert(within(axes, extents, at) == running(axes, extents, at + 1));
    } else {
        assert forall|j: int| at + 1 <= j < axes.len() implies #[trigger] axes[j] != axis by {
            axes_never_fall(axes, rank, at + 1, j);
            assert(axes[at + 1] == axes[at] || axes[at + 1] == axes[at] + 1);
        }
        no_room_behind(axes, extents, axis, at + 1);
    }
}

proof fn other_axes_keep_their_room(
    axes: Seq<usize>,
    extents: Seq<u64>,
    rank: nat,
    axis: int,
    at: int,
)
    requires
        grouped(axes, rank),
        0 <= at < axes.len(),
        axis != axes[at],
    ensures
        room_on(axes, extents, axis, at) == room_on(axes, extents, axis, group_end(axes, at)),
        group_end(axes, at) < axes.len() ==> axes[group_end(axes, at)] == axes[at] + 1,
        group_end(axes, at) >= axes.len() ==> axes[at] == rank - 1,
    decreases axes.len() - at,
{
    if at + 1 < axes.len() && axes[at + 1] == axes[at] {
        other_axes_keep_their_room(axes, extents, rank, axis, at + 1);
    } else if at + 1 < axes.len() {
        assert(axes[at + 1] == axes[at] || axes[at + 1] == axes[at] + 1);
    }
}

proof fn what_fits(
    handle: Seq<char>,
    rank: usize,
    shape: Seq<u64>,
    axes: Seq<usize>,
    extents: Seq<u64>,
    at: int,
)
    requires
        grouped(axes, rank as nat),
        shape.len() == rank,
        extents.len() == axes.len(),
        0 <= at < axes.len(),
    ensures
        match fit(handle, rank, shape, axes, extents, at) {
            Fit::Fits => forall|axis: int|
                axes[at] <= axis < rank ==> #[trigger] room_on(axes, extents, axis, at)
                    >= shape[axis],
            Fit::Refused(ErrorModel::ShortAxis { handle: named, axis, product, dim }) => {
                &&& named == handle
                &&& axes[at] <= axis < rank
                &&& dim == shape[axis as int]
                &&& product == room_on(axes, extents, axis as int, at)
                &&& product < dim
                &&& forall|before: int|
                    axes[at] <= before < axis ==> #[trigger] room_on(axes, extents, before, at)
                        >= shape[before]
            },
            Fit::Refused(_) => false,
            Fit::TooLarge => true,
        },
    decreases axes.len() - at,
{
    group_end_is_behind(axes, at);
    let next = group_end(axes, at);
    let here = axes[at] as int;
    a_run_is_the_room(axes, extents, rank as nat, at);
    axes_never_fall(axes, rank as nat, at, axes.len() - 1);
    other_axes_keep_their_room(axes, extents, rank as nat, here + 1, at);
    if next < axes.len() {
        what_fits(handle, rank, shape, axes, extents, next);
    }
    assert forall|axis: int| here < axis < rank implies #[trigger] room_on(
        axes,
        extents,
        axis,
        at,
    ) == room_on(axes, extents, axis, next) by {
        other_axes_keep_their_room(axes, extents, rank as nat, axis, at);
    }
}

/// A sound record has a plan for a shape of its rank unless an axis falls short:
/// the sub-axes of every axis have as many coordinates together as the axis has.
/// The refusal names the first axis that falls short, with both numbers.
pub proof fn a_shape_fits_where_every_axis_is_covered(
    record: LayoutMorphism,
    shape: Seq<u64>,
    extents: Seq<u64>,
)
    requires
        structured(record),
        record.sub_axes@.len() > 0,
        shape.len() == record.rank,
        positive(shape),
        positive(extents),
        are_extents(record, shape, extents),
    ensures
        ({
            let axes = axes_of(record.sub_axes@);
            match planned(record, shape) {
                Planning::Ready(plan) => forall|axis: int|
                    0 <= axis < record.rank ==> #[trigger] room_on(axes, extents, axis, 0)
                        >= shape[axis],
                Planning::Refused(ErrorModel::ShortAxis { handle, axis, product, dim }) => {
                    &&& handle == handle_text(record)
                    &&& axis < record.rank
                    &&& product == room_on(axes, extents, axis as int, 0)
                    &&& dim == shape[axis as int]
                    &&& product < dim
                    &&& forall|before: int|
                        0 <= before < axis ==> #[trigger] room_on(axes, extents, before, 0)
                            >= shape[before]
                },
                Planning::Refused(_) => false,
                Planning::TooLarge => true,
            }
        }),
{
    let axes = axes_of(record.sub_axes@);
    sub_axes_are_grouped(record.sub_axes@, record.rank);
    found_extents(record, shape, extents, extents.len() as int);
    assert(extents.take(extents.len() as int) =~= extents);
    what_fits(handle_text(record), record.rank, shape, axes, extents, 0);
}

/// A shape of another rank, one with no axis and one with an empty axis have no
/// plan.
pub proof fn a_shape_of_another_rank_has_no_plan(record: LayoutMorphism, shape: Seq<u64>)
    ensures
        record.rank != 0 && shape.len() != record.rank ==> planned(record, shape)
            == Planning::Refused(
            ErrorModel::Rank {
                handle: handle_text(record),
                want: record.rank,
                got: shape.len() as usize,
            },
        ),
        shape.len() == 0 || (exists|i: int| 0 <= i < shape.len() && #[trigger] shape[i] == 0)
            ==> planned(record, shape) is Refused,
{
}

/// One more sub-axis makes the aligned probe longer on its own axis by the number
/// it spells, and on no other. Without numbers an axis has two coordinates more
/// than its index.
pub proof fn a_number_lengthens_its_own_axis(
    record: LayoutMorphism,
    more: LayoutMorphism,
    axis: int,
)
    requires
        more.rank == record.rank,
        more.sub_axes@.len() == record.sub_axes@.len() + 1,
        more.sub_axes@.drop_last() == record.sub_axes@,
        0 <= axis < record.rank,
    ensures
        aligned_dim(more, axis) == aligned_dim(record, axis) * if more.sub_axes@.last().axis
            == axis {
            literal(more.sub_axes@.last().extent@)
        } else {
            1
        },
        (forall|j: int|
            0 <= j < record.sub_axes@.len() ==> (#[trigger] record.sub_axes@[j]).axis != axis
                || literal(record.sub_axes@[j].extent@) == 1) ==> aligned_dim(
            record,
            axis,
        ) == axis + 2,
{
    let count = record.sub_axes@.len() as int;
    same_alignment(record.sub_axes@, more.sub_axes@, axis, count);
    let before = alignment(record.sub_axes@, axis, count);
    let factor = if more.sub_axes@.last().axis == axis {
        literal(more.sub_axes@.last().extent@)
    } else {
        1
    };
    assert(alignment(more.sub_axes@, axis, count + 1) == before * factor) by (nonlinear_arith)
        requires
            alignment(more.sub_axes@, axis, count + 1) == before * factor || (factor == 1
                && alignment(more.sub_axes@, axis, count + 1) == before),
    ;
    assert((before * factor) * (axis + 2) as nat == (before * (axis + 2) as nat) * factor)
        by (nonlinear_arith);
    if forall|j: int|
        0 <= j < record.sub_axes@.len() ==> (#[trigger] record.sub_axes@[j]).axis != axis
            || literal(record.sub_axes@[j].extent@) == 1 {
        nothing_to_align(record.sub_axes@, axis, count);
    }
}

proof fn same_alignment(fewer: Seq<SubAxis>, more: Seq<SubAxis>, axis: int, upto: int)
    requires
        more.len() == fewer.len() + 1,
        more.drop_last() == fewer,
        0 <= upto <= fewer.len(),
    ensures
        alignment(fewer, axis, upto) == alignment(more, axis, upto),
    decreases upto,
{
    if upto > 0 {
        same_alignment(fewer, more, axis, upto - 1);
        assert(fewer[upto - 1] == more[upto - 1]);
    }
}

proof fn nothing_to_align(sub_axes: Seq<SubAxis>, axis: int, upto: int)
    requires
        0 <= upto <= sub_axes.len(),
        forall|j: int|
            0 <= j < sub_axes.len() ==> (#[trigger] sub_axes[j]).axis != axis || literal(
                sub_axes[j].extent@,
            ) == 1,
    ensures
        alignment(sub_axes, axis, upto) == 1,
    decreases upto,
{
    if upto > 0 {
        nothing_to_align(sub_axes, axis, upto - 1);
        assert(sub_axes[upto - 1].axis != axis || literal(sub_axes[upto - 1].extent@) == 1);
    }
}

/// A record is probed with its aligned shape and, where that differs, with the
/// shape one coordinate short on every axis of more than one; the identity with a
/// shape of each rank up to four.
pub proof fn a_record_is_probed_aligned_and_ragged(record: LayoutMorphism)
    ensures
        ({
            let probes = probes_of(record);
            if record.sub_axes@.len() == 0 {
                &&& probes.len() == 4
                &&& forall|k: int|
                    0 <= k < 4 ==> (#[trigger] probes[k]).len() == k + 1 && forall|axis: int|
                        0 <= axis <= k ==> #[trigger] probes[k][axis] == axis + 2
            } else {
                &&& 1 <= probes.len() <= 2
                &&& probes[0] == aligned(record)
                &&& probes[0].len() == record.rank
                &&& probes.len() == 2 <==> exists|axis: int|
                    0 <= axis < record.rank && #[trigger] probes[0][axis] > 1
                &&& probes.len() == 2 ==> probes[1].len() == record.rank && forall|axis: int|
                    0 <= axis < record.rank ==> #[trigger] probes[1][axis] == if probes[0][axis]
                        > 1 {
                        probes[0][axis] - 1
                    } else {
                        probes[0][axis] as int
                    }
            }
        }),
{
    let whole = aligned(record);
    let short = ragged(whole);
    if record.sub_axes@.len() > 0 {
        if short != whole {
            assert(exists|axis: int| 0 <= axis < whole.len() && #[trigger] whole[axis] > 1) by {
                if forall|axis: int| 0 <= axis < whole.len() ==> #[trigger] whole[axis] <= 1 {
                    assert(short =~= whole);
                }
            }
        } else {
            assert forall|axis: int| 0 <= axis < whole.len() implies #[trigger] whole[axis] <= 1 by {
                assert(short[axis] == whole[axis]);
            }
        }
    }
}

} // verus!
