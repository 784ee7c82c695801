//! What every composition keeps: the tensors that are named, under their new
//! names and in their old order, with the records they had.

use super::{
    composition, container_tensors, in_source_order, inherited, is_taken, kept_upto, pair_at, pieces,
    records_between, selected, selection_is_well_made, unknown_at, ComposeFault, Kept, Unnamed,
};
use crate::planner::gguf::padded;
use crate::planner::TensorFormat;
use crate::tfm1::{record_sum, run_length, BodyModel, RecordModel};
use vstd::prelude::*;

verus! {

/// Where a tensor of a container starts, and how many bytes stand there for it.
pub open spec fn place_of(content: Seq<u8>, format: TensorFormat, tensor: int) -> (u64, u64) {
    match format {
        TensorFormat::SafetensorsV1 => {
            let layout = crate::planner::safetensors::layout_of(content).unwrap();
            let span = layout.tensors[tensor];
            ((layout.header_end + span.start) as u64, (span.end - span.start) as u64)
        },
        TensorFormat::GgufV1 => {
            let layout = crate::planner::gguf::layout_of(content).unwrap();
            let info = layout.tensors[tensor];
            (
                (layout.data_start + info.offset) as u64,
                padded(info, layout.alignment) as u64,
            )
        },
    }
}

/// The records that a container has for one of its tensors, where it has them
/// for itself.
pub open spec fn own_records(
    content: Seq<u8>,
    format: TensorFormat,
    records: Seq<RecordModel>,
    tensor: int,
) -> Option<Seq<RecordModel>> {
    let place = place_of(content, format, tensor);
    inherited(records, place.0, place.1)
}

/// The records of the first `upto` kept tensors, one behind another.
pub open spec fn kept_records(
    content: Seq<u8>,
    format: TensorFormat,
    records: Seq<RecordModel>,
    kept: Seq<Kept>,
    upto: int,
) -> Seq<RecordModel>
    decreases upto,
{
    if upto <= 0 {
        Seq::empty()
    } else {
        kept_records(content, format, records, kept, upto - 1) + own_records(
            content,
            format,
            records,
            kept[upto - 1].1,
        ).unwrap()
    }
}

/// A composed container has the format and the contract of the one it was
/// composed of, and is as long as its records. Behind the records of its header
/// stand the records of the kept tensors, each tensor's own, in the order of the
/// source, and nothing else. Every name that was given is a source tensor's; a
/// tensor is kept exactly if it is named, under the name given for it; and no two
/// kept tensors have one name.
pub proof fn a_composition_keeps_whole_tensors(
    content: Seq<u8>,
    body: BodyModel,
    names: Seq<(Seq<char>, Seq<char>)>,
    unnamed: Unnamed,
) -> (head: Seq<RecordModel>)
    requires
        composition(content, body, names, unnamed) is Ok,
    ensures
        body matches BodyModel::Tensor { format, contract, records, .. } && {
            let tensors = container_tensors(content, format);
            let kept = selected(tensors, names, unnamed)->Ok_0;
            let made = head + kept_records(content, format, records, kept, kept.len() as int);
            &&& composition(content, body, names, unnamed)->Ok_0.0 == (BodyModel::Tensor {
                format,
                contract,
                logical_size: run_length(made) as u64,
                records: made,
            })
            &&& run_length(made) <= u64::MAX
            &&& forall|k: int|
                0 <= k < kept.len() ==> own_records(
                    content,
                    format,
                    records,
                    (#[trigger] kept[k]).1,
                ) is Some
            &&& in_source_order(kept, tensors.len() as int)
            &&& forall|i: int, j: int|
                0 <= i < j < kept.len() ==> (#[trigger] kept[i]).0 != (#[trigger] kept[j]).0
            &&& forall|i: int| 0 <= i < names.len() ==> tensors.contains((#[trigger] names[i]).0)
            &&& keeps_the_named(tensors, names, kept)
        },
{
    match body {
        BodyModel::Tensor { format, records, .. } => {
            let tensors = container_tensors(content, format);
            selection_is_well_made(tensors, names, unnamed, tensors.len() as int);
            the_named_are_kept(tensors, names, unnamed, tensors.len() as int);
            no_name_is_unknown(tensors, names, 0);
            let kept = selected(tensors, names, unnamed)->Ok_0;
            let n = kept.len() as int;
            match format {
                TensorFormat::SafetensorsV1 => {
                    let layout = crate::planner::safetensors::layout_of(content).unwrap();
                    safetensors_records(content, records, kept, n);
                    super::safetensors::with_tensors(records, layout, kept, 0)->Ok_0.records
                },
                TensorFormat::GgufV1 => {
                    let layout = crate::planner::gguf::layout_of(content).unwrap();
                    gguf_records(content, records, kept, n);
                    super::gguf::with_tensors(content, records, layout, kept, 0)->Ok_0.records
                },
            }
        },
        BodyModel::Blob { .. } => Seq::empty(),
    }
}

/// A tensor is kept exactly if a pair names it, under the pair's new name.
pub open spec fn keeps_the_named(
    tensors: Seq<Seq<char>>,
    names: Seq<(Seq<char>, Seq<char>)>,
    kept: Seq<Kept>,
) -> bool {
    forall|p: int, new: Seq<char>|
        0 <= p < tensors.len() ==> (#[trigger] kept.contains((new, p)) <==> {
            let at = pair_at(names, tensors[p], 0);
            at < names.len() && names[at].1 == new
        })
}

proof fn the_named_are_kept(
    tensors: Seq<Seq<char>>,
    names: Seq<(Seq<char>, Seq<char>)>,
    unnamed: Unnamed,
    upto: int,
)
    requires
        0 <= upto <= tensors.len(),
    ensures
        kept_upto(tensors, names, unnamed, upto) matches Ok(kept) ==> {
            &&& in_source_order(kept, upto)
            &&& forall|p: int, new: Seq<char>|
                0 <= p < upto ==> (#[trigger] kept.contains((new, p)) <==> {
                    let at = pair_at(names, tensors[p], 0);
                    at < names.len() && names[at].1 == new
                })
        },
    decreases upto,
{
    selection_is_well_made(tensors, names, unnamed, upto);
    if upto > 0 {
        the_named_are_kept(tensors, names, unnamed, upto - 1);
        if let (Ok(before), Ok(kept)) = (
            kept_upto(tensors, names, unnamed, upto - 1),
            kept_upto(tensors, names, unnamed, upto),
        ) {
            let at = pair_at(names, tensors[upto - 1], 0);
            assert forall|p: int, new: Seq<char>|
                0 <= p < upto implies (#[trigger] kept.contains((new, p)) <==> {
                let at = pair_at(names, tensors[p], 0);
                at < names.len() && names[at].1 == new
            }) by {
                let one: Kept = (new, p);
                if before.contains(one) {
                    let k = choose|k: int| 0 <= k < before.len() && before[k] == one;
                    assert(before[k].1 < upto - 1);
                    assert(kept[k] == one);
                }
                if kept.contains(one) {
                    let k = choose|k: int| 0 <= k < kept.len() && kept[k] == one;
                    if k < before.len() {
                        assert(before[k] == one);
                        assert(before.contains(one));
                        assert(before[k].1 < upto - 1);
                    }
                }
                if p == upto - 1 && at < names.len() && names[at].1 == new {
                    assert(kept.last() == one);
                }
                if p < upto - 1 {
                    assert(before.contains(one) <==> {
                        let at = pair_at(names, tensors[p], 0);
                        at < names.len() && names[at].1 == new
                    });
                }
            }
        }
    }
}

proof fn no_name_is_unknown(tensors: Seq<Seq<char>>, names: Seq<(Seq<char>, Seq<char>)>, at: int)
    requires
        0 <= at,
        unknown_at(tensors, names, at) >= names.len(),
    ensures
        forall|i: int| at <= i < names.len() ==> tensors.contains((#[trigger] names[i]).0),
    decreases names.len() - at,
{
    if at < names.len() {
        no_name_is_unknown(tensors, names, at + 1);
    }
}

proof fn safetensors_records(
    content: Seq<u8>,
    records: Seq<RecordModel>,
    kept: Seq<Kept>,
    upto: int,
)
    requires
        0 <= upto <= kept.len(),
        crate::planner::safetensors::layout_of(content) is Some,
    ensures
        ({
            let format = TensorFormat::SafetensorsV1;
            let layout = crate::planner::safetensors::layout_of(content).unwrap();
            let whole = super::safetensors::with_tensors(records, layout, kept, upto);
            let head = super::safetensors::with_tensors(records, layout, kept, 0);
            whole matches Ok(composed) ==> {
                &&& head is Ok
                &&& composed.records == head->Ok_0.records + kept_records(
                    content,
                    format,
                    records,
                    kept,
                    upto,
                )
                &&& forall|k: int|
                    0 <= k < upto ==> own_records(content, format, records, (#[trigger] kept[k]).1) is Some
            }
        }),
    decreases upto,
{
    let layout = crate::planner::safetensors::layout_of(content).unwrap();
    let head = super::safetensors::with_tensors(records, layout, kept, 0);
    if upto > 0 {
        safetensors_records(content, records, kept, upto - 1);
        if let Ok(composed) = super::safetensors::with_tensors(records, layout, kept, upto) {
            assert(composed.records =~= head->Ok_0.records + kept_records(
                content,
                TensorFormat::SafetensorsV1,
                records,
                kept,
                upto,
            ));
        }
    } else if let Ok(composed) = head {
        assert(composed.records + Seq::<RecordModel>::empty() =~= composed.records);
    }
}

proof fn gguf_records(content: Seq<u8>, records: Seq<RecordModel>, kept: Seq<Kept>, upto: int)
    requires
        0 <= upto <= kept.len(),
        crate::planner::gguf::layout_of(content) is Some,
    ensures
        ({
            let format = TensorFormat::GgufV1;
            let layout = crate::planner::gguf::layout_of(content).unwrap();
            let whole = super::gguf::with_tensors(content, records, layout, kept, upto);
            let head = super::gguf::with_tensors(content, records, layout, kept, 0);
            whole matches Ok(composed) ==> {
                &&& head is Ok
                &&& composed.records == head->Ok_0.records + kept_records(
                    content,
                    format,
                    records,
                    kept,
                    upto,
                )
                &&& forall|k: int|
                    0 <= k < upto ==> own_records(content, format, records, (#[trigger] kept[k]).1) is Some
            }
        }),
    decreases upto,
{
    let layout = crate::planner::gguf::layout_of(content).unwrap();
    let head = super::gguf::with_tensors(content, records, layout, kept, 0);
    if upto > 0 {
        gguf_records(content, records, kept, upto - 1);
        if let Ok(composed) = super::gguf::with_tensors(content, records, layout, kept, upto) {
            assert(composed.records =~= head->Ok_0.records + kept_records(
                content,
                TensorFormat::GgufV1,
                records,
                kept,
                upto,
            ));
        }
    } else if let Ok(composed) = head {
        assert(composed.records + Seq::<RecordModel>::empty() =~= composed.records);
    }
}

/// Whether the first pair for a name gives it a new one.
pub open spec fn is_renamed(
    names: Seq<(Seq<char>, Seq<char>)>,
    old: Seq<char>,
    new: Seq<char>,
) -> bool {
    exists|p: int|
        0 <= p < names.len() && #[trigger] names[p] == (old, new) && forall|q: int|
            0 <= q < p ==> (#[trigger] names[q]).0 != old
}

/// Whether two tensors would have one name.
pub open spec fn two_get_the_name(
    tensors: Seq<Seq<char>>,
    names: Seq<(Seq<char>, Seq<char>)>,
    new: Seq<char>,
) -> bool {
    exists|i: int, j: int|
        0 <= i < j < tensors.len() && is_renamed(names, #[trigger] tensors[i], new) && is_renamed(
            names,
            #[trigger] tensors[j],
            new,
        )
}

/// Whether a refusal of a selection is true.
pub open spec fn is_true_of(
    fault: ComposeFault,
    tensors: Seq<Seq<char>>,
    names: Seq<(Seq<char>, Seq<char>)>,
    unnamed: Unnamed,
) -> bool {
    match fault {
        ComposeFault::UnnamedTensor(old) => unnamed is Refuse && tensors.contains(old) && forall|
            p: int,
        |
            0 <= p < names.len() ==> (#[trigger] names[p]).0 != old,
        ComposeFault::UnknownTensor(old) => !tensors.contains(old) && exists|p: int|
            0 <= p < names.len() && (#[trigger] names[p]).0 == old,
        ComposeFault::DuplicateName(new) => two_get_the_name(tensors, names, new),
        _ => false,
    }
}

proof fn the_first_pair(names: Seq<(Seq<char>, Seq<char>)>, old: Seq<char>, at: int)
    requires
        0 <= at <= names.len(),
    ensures
        ({
            let found = pair_at(names, old, at);
            &&& at <= found <= names.len()
            &&& found < names.len() ==> names[found].0 == old
            &&& forall|q: int| at <= q < found ==> (#[trigger] names[q]).0 != old
        }),
    decreases names.len() - at,
{
    if at < names.len() && names[at].0 != old {
        the_first_pair(names, old, at + 1);
    }
}

proof fn kept_are_renamed(
    tensors: Seq<Seq<char>>,
    names: Seq<(Seq<char>, Seq<char>)>,
    unnamed: Unnamed,
    upto: int,
)
    requires
        0 <= upto <= tensors.len(),
    ensures
        match kept_upto(tensors, names, unnamed, upto) {
            Ok(kept) => forall|k: int|
                0 <= k < kept.len() ==> 0 <= (#[trigger] kept[k]).1 < upto && is_renamed(
                    names,
                    tensors[kept[k].1],
                    kept[k].0,
                ),
            Err(fault) => is_true_of(fault, tensors, names, unnamed),
        },
    decreases upto,
{
    if upto > 0 {
        kept_are_renamed(tensors, names, unnamed, upto - 1);
        if let Ok(kept) = kept_upto(tensors, names, unnamed, upto - 1) {
            let old = tensors[upto - 1];
            the_first_pair(names, old, 0);
            let at = pair_at(names, old, 0);
            if at < names.len() {
                let new = names[at].1;
                assert(names[at] == (old, new));
                assert(is_renamed(names, old, new));
                if is_taken(kept, new) {
                    let k = choose|k: int| 0 <= k < kept.len() && (#[trigger] kept[k]).0 == new;
                    assert(is_renamed(names, tensors[kept[k].1], new));
                    assert(is_renamed(names, tensors[upto - 1], new));
                    assert(two_get_the_name(tensors, names, new));
                }
            }
        }
    }
}

/// A selection is refused only for a reason that holds: a tensor is not named where
/// all must be, a name is none of the source's, or two tensors would have one name.
pub proof fn a_selection_is_refused_for_a_reason(
    tensors: Seq<Seq<char>>,
    names: Seq<(Seq<char>, Seq<char>)>,
    unnamed: Unnamed,
)
    ensures
        selected(tensors, names, unnamed) matches Err(fault) ==> is_true_of(
            fault,
            tensors,
            names,
            unnamed,
        ),
{
    kept_are_renamed(tensors, names, unnamed, tensors.len() as int);
    an_unknown_name_is_named(tensors, names, 0);
}

proof fn an_unknown_name_is_named(
    tensors: Seq<Seq<char>>,
    names: Seq<(Seq<char>, Seq<char>)>,
    at: int,
)
    requires
        0 <= at <= names.len(),
    ensures
        ({
            let found = unknown_at(tensors, names, at);
            &&& at <= found <= names.len()
            &&& found < names.len() ==> !tensors.contains(names[found].0)
        }),
    decreases names.len() - at,
{
    if at < names.len() && tensors.contains(names[at].0) {
        an_unknown_name_is_named(tensors, names, at + 1);
    }
}

/// A tensor is kept exactly if a pair names it, and of several pairs for one name
/// the first one counts.
pub proof fn the_first_pair_counts(
    tensors: Seq<Seq<char>>,
    names: Seq<(Seq<char>, Seq<char>)>,
    unnamed: Unnamed,
    p: int,
    new: Seq<char>,
)
    requires
        selected(tensors, names, unnamed) is Ok,
        0 <= p < tensors.len(),
    ensures
        selected(tensors, names, unnamed)->Ok_0.contains((new, p)) <==> is_renamed(
            names,
            tensors[p],
            new,
        ),
{
    let kept = selected(tensors, names, unnamed)->Ok_0;
    the_named_are_kept(tensors, names, unnamed, tensors.len() as int);
    the_first_pair(names, tensors[p], 0);
    let at = pair_at(names, tensors[p], 0);
    assert(kept.contains((new, p)) <==> at < names.len() && names[at].1 == new);
    if at < names.len() && names[at].1 == new {
        assert(names[at] == (tensors[p], new));
    }
    if is_renamed(names, tensors[p], new) {
        let first = choose|q: int|
            0 <= q < names.len() && #[trigger] names[q] == (tensors[p], new) && forall|r: int|
                0 <= r < q ==> (#[trigger] names[r]).0 != tensors[p];
        if at < first {
            assert(names[at].0 != tensors[p]);
        }
        if first < at {
            assert(names[first].0 != tensors[p]);
        }
    }
}

proof fn sums_rise(records: Seq<RecordModel>, low: int, high: int)
    requires
        0 <= low <= high <= records.len(),
        forall|k: int| 0 <= k < records.len() ==> (#[trigger] records[k]).length() > 0,
    ensures
        record_sum(records, low) <= record_sum(records, high),
        low < high ==> record_sum(records, low) < record_sum(records, high),
    decreases high - low,
{
    if low < high {
        sums_rise(records, low, high - 1);
        assert(records[high - 1].length() > 0);
    }
}

proof fn a_whole_run_stands_between(
    records: Seq<RecordModel>,
    from: int,
    to: int,
    at: int,
)
    requires
        0 <= from <= to <= records.len(),
        0 <= at <= to,
        forall|k: int| 0 <= k < records.len() ==> (#[trigger] records[k]).length() > 0,
    ensures
        records_between(
            records,
            at,
            record_sum(records, from) as int,
            record_sum(records, to) as int,
        ) == Some(
            records.subrange(
                if at < from {
                    from
                } else {
                    at
                },
                to,
            ),
        ),
    decreases to - at,
{
    if at < to {
        a_whole_run_stands_between(records, from, to, at + 1);
        if at < from {
            sums_rise(records, at + 1, from);
        } else {
            sums_rise(records, from, at);
            sums_rise(records, at, at + 1);
            sums_rise(records, at + 1, to);
            assert(records.subrange(at, to) =~= seq![records[at]] + records.subrange(at + 1, to));
        }
    } else {
        sums_rise(records, from, to);
        if to < records.len() {
            sums_rise(records, to, to + 1);
        }
        assert(records.subrange(to, to) =~= Seq::empty());
    }
}

proof fn a_part_of_a_run(records: Seq<RecordModel>, from: int, to: int, upto: int)
    requires
        0 <= from <= to <= records.len(),
        0 <= upto <= to - from,
    ensures
        record_sum(records.subrange(from, to), upto) == record_sum(records, from + upto)
            - record_sum(records, from),
    decreases upto,
{
    if upto > 0 {
        a_part_of_a_run(records, from, to, upto - 1);
        assert(records.subrange(from, to)[upto - 1] == records[from + upto - 1]);
    }
}

/// Records are inherited wherever they are whole: where one record starts at the
/// first byte and one ends at the last, those between are inherited.
pub proof fn whole_records_are_inherited(
    records: Seq<RecordModel>,
    from: int,
    to: int,
    start: u64,
    length: u64,
)
    requires
        0 <= from <= to <= records.len(),
        forall|k: int| 0 <= k < records.len() ==> (#[trigger] records[k]).length() > 0,
        record_sum(records, from) == start,
        record_sum(records, to) == start + length,
        start + length <= u64::MAX,
    ensures
        inherited(records, start, length) == Some(records.subrange(from, to)),
{
    a_whole_run_stands_between(records, from, to, 0);
    a_part_of_a_run(records, from, to, to - from);
}

/// New bytes are cut into objects of 64 MiB, the last one being what is left, and
/// byte `b` of them is in the object and at the place that this gives.
pub proof fn new_bytes_are_cut_in_whole_objects(bytes: Seq<u8>, b: int)
    requires
        0 <= b < bytes.len(),
    ensures
        ({
            let cell: int = 0x400_0000;
            let objects = pieces(bytes);
            let i = b / cell;
            &&& 0 <= i < objects.len()
            &&& 0 <= b % cell < objects[i].len()
            &&& objects[i][b % cell] == bytes[b]
            &&& i + 1 < objects.len() ==> objects[i].len() == cell
            &&& i + 1 == objects.len() ==> i * cell + objects[i].len() == bytes.len()
        }),
{
}

} // verus!
