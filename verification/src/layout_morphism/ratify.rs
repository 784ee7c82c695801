//! Ratifying a record: apply the map, apply it inverted, compare bytes.

use super::laws::{arranging_is_injective, arranging_is_onto, sources_are_inside};
use super::plan::{
    addressable, arranged_bytes, extents_of, padding_is_zero, planned, restoring_undoes_arranging,
    structured, ElementList, Plan, PlanModel, Planning,
};
use super::{
    handle_text, record_fault, ErrorModel, LayoutError, LayoutMorphism, ProbeFault, RecordFault,
    SubAxis,
};
use crate::text::{chars_of, parse_unsigned, trim, trimmed, unsigned};
use vstd::prelude::*;

verus! {

/// The bytes of one probe element.
pub const ELEMENT: usize = 4;

const POISON: u8 = 0xa5;

/// What ratifying a record showed for one shape.
#[derive(Clone, Debug, PartialEq, Eq)]
pub struct Probe {
    pub shape: Vec<u64>,
    pub dest_elements: u64,
    pub padded: bool,
}

/// The verdict on one record.
#[derive(Clone, Debug)]
pub struct Ratification {
    pub handle: String,
    pub probes: Vec<Probe>,
}

/// The value of a [`Probe`].
#[verifier::ext_equal]
pub struct ProbeModel {
    pub shape: Seq<u64>,
    pub dest_elements: u64,
    pub padded: bool,
}

impl View for Probe {
    type V = ProbeModel;

    open spec fn view(&self) -> ProbeModel {
        ProbeModel {
            shape: self.shape@,
            dest_elements: self.dest_elements,
            padded: self.padded,
        }
    }
}

pub open spec fn probe_models(probes: Seq<Probe>) -> Seq<ProbeModel> {
    probes.map_values(|probe: Probe| probe@)
}

// ---------------------------------------------------------------------------
// Probe shapes
// ---------------------------------------------------------------------------

/// The literal factor that an extent spells, one for a formula.
pub open spec fn literal(extent: Seq<char>) -> nat {
    match unsigned(trimmed(extent), u64::MAX as nat) {
        Some(factor) => factor,
        None => 1,
    }
}

/// The product of the literal factors of an axis among the first `upto`
/// sub-axes.
pub open spec fn alignment(sub_axes: Seq<SubAxis>, axis: int, upto: int) -> nat
    decreases upto,
{
    if upto <= 0 {
        1
    } else {
        let before = alignment(sub_axes, axis, upto - 1);
        if sub_axes[upto - 1].axis == axis {
            before * literal(sub_axes[upto - 1].extent@)
        } else {
            before
        }
    }
}

/// The dimension of the aligned probe on an axis.
pub open spec fn aligned_dim(record: LayoutMorphism, axis: int) -> nat {
    alignment(record.sub_axes@, axis, record.sub_axes@.len() as int) * (axis + 2) as nat
}

/// The aligned probe of a record.
pub open spec fn aligned(record: LayoutMorphism) -> Seq<u64> {
    Seq::new(record.rank as nat, |axis: int| aligned_dim(record, axis) as u64)
}

/// One element short of a shape on every axis that can lose one.
pub open spec fn ragged(shape: Seq<u64>) -> Seq<u64> {
    shape.map_values(
        |dim: u64|
            if dim > 1 {
                (dim - 1) as u64
            } else {
                dim
            },
    )
}

/// The probe of the identity at a rank.
pub open spec fn rising(rank: nat) -> Seq<u64> {
    Seq::new(rank, |at: int| (at + 2) as u64)
}

/// The probe shapes of a record, derived from the record.
pub open spec fn probes_of(record: LayoutMorphism) -> Seq<Seq<u64>> {
    if record.sub_axes@.len() == 0 {
        seq![rising(1), rising(2), rising(3), rising(4)]
    } else if ragged(aligned(record)) == aligned(record) {
        seq![aligned(record)]
    } else {
        seq![aligned(record), ragged(aligned(record))]
    }
}

/// The probe shapes of a record fit in 64 bits.
pub open spec fn probes_fit(record: LayoutMorphism) -> bool {
    &&& forall|i: int|
        0 <= i < record.sub_axes@.len() ==> (#[trigger] record.sub_axes@[i]).axis < record.rank
    &&& forall|axis: int, upto: int|
        0 <= axis < record.rank && 0 <= upto <= record.sub_axes@.len() ==> #[trigger] alignment(
            record.sub_axes@,
            axis,
            upto,
        ) <= u64::MAX
    &&& forall|axis: int| 0 <= axis < record.rank ==> #[trigger] aligned_dim(record, axis) <= u64::MAX
}

/// The values of shapes.
pub open spec fn shape_models(shapes: Seq<Vec<u64>>) -> Seq<Seq<u64>> {
    shapes.map_values(|shape: Vec<u64>| shape@)
}

fn rising_shape(rank: usize) -> (shape: Vec<u64>)
    requires
        rank <= 4,
    ensures
        shape@ == rising(rank as nat),
{
    let mut shape: Vec<u64> = Vec::new();
    let mut at: usize = 0;
    while at < rank
        invariant
            at <= rank <= 4,
            shape@.len() == at,
            forall|i: int| 0 <= i < at ==> #[trigger] shape@[i] == i + 2,
        decreases rank - at,
    {
        shape.push(at as u64 + 2);
        at += 1;
    }
    assert(shape@ =~= rising(rank as nat));
    shape
}

fn literal_of(extent: &str) -> (factor: u64)
    ensures
        factor == literal(extent@),
{
    let chars = chars_of(extent);
    match parse_unsigned(trim(&chars)) {
        Some(factor) => factor,
        None => 1,
    }
}

fn aligned_shape(record: &LayoutMorphism) -> (shape: Vec<u64>)
    requires
        probes_fit(*record),
    ensures
        shape@ == aligned(*record),
{
    let ghost subs = record.sub_axes@;
    let mut align: Vec<u64> = Vec::new();
    align.resize(record.rank, 1);
    let mut at: usize = 0;
    while at < record.sub_axes.len()
        invariant
            at <= record.sub_axes@.len(),
            subs == record.sub_axes@,
            probes_fit(*record),
            align@.len() == record.rank,
            forall|a: int|
                0 <= a < record.rank ==> #[trigger] align@[a] == alignment(subs, a, at as int),
        decreases record.sub_axes@.len() - at,
    {
        let sub = &record.sub_axes[at];
        let ghost before = align@;
        assert(subs[at as int].axis < record.rank);
        let axis: usize = sub.axis;
        let factor: u64 = literal_of(sub.extent.as_str());
        proof {
            assert(align@[axis as int] == alignment(subs, axis as int, at as int));
            assert(alignment(subs, axis as int, at + 1) <= u64::MAX);
        }
        align[axis] = align[axis] * factor;
        proof {
            assert forall|a: int| 0 <= a < record.rank implies #[trigger] align@[a] == alignment(
                subs,
                a,
                at + 1,
            ) by {
                assert(before[a] == alignment(subs, a, at as int));
            }
        }
        at += 1;
    }
    let mut shape: Vec<u64> = Vec::new();
    let mut at: usize = 0;
    while at < record.rank
        invariant
            at <= record.rank,
            subs == record.sub_axes@,
            probes_fit(*record),
            align@.len() == record.rank,
            forall|a: int|
                0 <= a < record.rank ==> #[trigger] align@[a] == alignment(
                    subs,
                    a,
                    subs.len() as int,
                ),
            shape@.len() == at,
            forall|a: int| 0 <= a < at ==> #[trigger] shape@[a] == aligned_dim(*record, a),
        decreases record.rank - at,
    {
        let factor: u64 = align[at];
        assert(aligned_dim(*record, at as int) <= u64::MAX);
        if factor == 0 {
            assert(aligned_dim(*record, at as int) == 0) by (nonlinear_arith)
                requires
                    aligned_dim(*record, at as int) == factor * (at + 2) as nat,
                    factor == 0,
            ;
            shape.push(0);
        } else {
            assert(at + 2 <= factor * (at + 2)) by (nonlinear_arith)
                requires
                    factor >= 1,
            ;
            shape.push(factor * (at as u64 + 2));
        }
        at += 1;
    }
    assert(shape@ =~= aligned(*record));
    shape
}

/// Probe shapes derived from the record.
///
/// The alignment each axis needs is the product of its literal factors, so the
/// aligned probe is that product times a small distinct multiplier, and the
/// ragged probe is one element short of it.
pub fn probe_shapes(record: &LayoutMorphism) -> (shapes: Vec<Vec<u64>>)
    requires
        record.sub_axes@.len() > 0 ==> probes_fit(*record),
    ensures
        shape_models(shapes@) == probes_of(*record),
{
    let mut shapes: Vec<Vec<u64>> = Vec::new();
    if record.is_identity() {
        shapes.push(rising_shape(1));
        shapes.push(rising_shape(2));
        shapes.push(rising_shape(3));
        shapes.push(rising_shape(4));
        assert(shape_models(shapes@) =~= probes_of(*record));
        return shapes;
    }
    let whole = aligned_shape(record);
    let mut short: Vec<u64> = Vec::new();
    let mut same = true;
    let mut at: usize = 0;
    while at < whole.len()
        invariant
            at <= whole@.len(),
            short@.len() == at,
            forall|a: int| 0 <= a < at ==> #[trigger] short@[a] == ragged(whole@)[a],
            same == (forall|a: int| 0 <= a < at ==> #[trigger] short@[a] == whole@[a]),
        decreases whole@.len() - at,
    {
        let dim: u64 = whole[at];
        let ghost before = short@;
        short.push(
            if dim > 1 {
                dim - 1
            } else {
                dim
            },
        );
        if dim > 1 {
            assert(short@[at as int] != whole@[at as int]);
            same = false;
        } else {
            proof {
                if same {
                    assert forall|a: int| 0 <= a < at + 1 implies #[trigger] short@[a]
                        == whole@[a] by {
                        if a < at {
                            assert(short@[a] == before[a]);
                        }
                    }
                } else {
                    let a = choose|a: int| 0 <= a < at && before[a] != whole@[a];
                    assert(short@[a] != whole@[a]);
                }
            }
        }
        at += 1;
    }
    assert(short@ =~= ragged(whole@));
    proof {
        if same {
            assert(ragged(whole@) =~= whole@);
        } else {
            let a = choose|a: int| 0 <= a < whole@.len() && short@[a] != whole@[a];
            assert(ragged(whole@)[a] != whole@[a]);
        }
    }
    shapes.push(whole);
    if !same {
        shapes.push(short);
    }
    assert(shape_models(shapes@) =~= probes_of(*record));
    shapes
}

// ---------------------------------------------------------------------------
// Probing
// ---------------------------------------------------------------------------

/// How many of the first `upto` destination elements hold a source element.
pub open spec fn mapped_upto(plan: PlanModel, upto: int) -> nat
    decreases upto,
{
    if upto <= 0 {
        0
    } else {
        mapped_upto(plan, upto - 1) + if plan.source_of(upto - 1) is Some {
            1nat
        } else {
            0nat
        }
    }
}

spec fn mapped_set(plan: PlanModel, upto: int) -> Set<int> {
    Set::new(|to: int| 0 <= to < upto && plan.source_of(to) is Some)
}

proof fn mapped_set_size(plan: PlanModel, upto: int)
    requires
        0 <= upto,
    ensures
        mapped_set(plan, upto).finite(),
        mapped_set(plan, upto).len() == mapped_upto(plan, upto),
    decreases upto,
{
    if upto == 0 {
        assert(mapped_set(plan, 0) =~= Set::<int>::empty());
    } else {
        mapped_set_size(plan, upto - 1);
        let fewer = mapped_set(plan, upto - 1);
        if plan.source_of(upto - 1) is Some {
            assert(mapped_set(plan, upto) =~= fewer.insert(upto - 1));
        } else {
            assert(mapped_set(plan, upto) =~= fewer);
        }
    }
}

/// Every source element is written exactly once: as many destination elements
/// hold one as there are.
pub proof fn every_element_is_mapped(plan: PlanModel)
    requires
        plan.sound(),
    ensures
        mapped_upto(plan, plan.dest_elements() as int) == plan.source_elements(),
{
    let n = plan.dest_elements() as int;
    let held = mapped_set(plan, n);
    let all = vstd::set_lib::set_int_range(0, plan.source_elements() as int);
    let from = |to: int| plan.source_of(to).unwrap();
    mapped_set_size(plan, n);
    vstd::set_lib::lemma_int_range(0, plan.source_elements() as int);
    assert forall|a: int, b: int| #[trigger] held.contains(a) && #[trigger] held.contains(b) && from(
        a,
    ) == from(b) implies a == b by {
        arranging_is_injective(plan, a, b);
    }
    assert(held.map(from) =~= all) by {
        assert forall|i: int| held.map(from).contains(i) <==> all.contains(i) by {
            if held.map(from).contains(i) {
                let to = choose|to: int| held.contains(to) && i == from(to);
                sources_are_inside(plan, to);
            }
            if all.contains(i) {
                let to = arranging_is_onto(plan, i);
                assert(held.contains(to) && from(to) == i);
            }
        }
    }
    vstd::set_lib::lemma_map_size(held, all, from);
}

/// Fills a probe source: every element has bytes of its own.
fn probe_source(elements: usize) -> (source: Vec<u8>)
    requires
        elements * ELEMENT <= usize::MAX,
    ensures
        source@.len() == elements * ELEMENT,
{
    let mut source: Vec<u8> = Vec::new();
    let mut at: usize = 0;
    while at < elements
        invariant
            at <= elements,
            source@.len() == at * ELEMENT,
        decreases elements - at,
    {
        let low: u32 = (at as u64 % 0x1_0000_0000) as u32;
        let tag: u32 = low.wrapping_mul(2654435761);
        source.push((tag % 256) as u8);
        source.push(((tag / 256) % 256) as u8);
        source.push(((tag / 65536) % 256) as u8);
        source.push((tag / 16777216) as u8);
        at += 1;
    }
    source
}

fn filled(count: usize, byte: u8) -> (bytes: Vec<u8>)
    ensures
        bytes@.len() == count,
{
    let mut bytes: Vec<u8> = Vec::new();
    bytes.resize(count, byte);
    bytes
}

/// Counts the mapped elements, and checks that the padding is zero and that a
/// plan without padding has none.
fn check_map(plan: &Plan, destination: &Vec<u8>, Ghost(source): Ghost<Seq<u8>>) -> (outcome: Result<
    (),
    ProbeFault,
>)
    requires
        plan.wf(),
        addressable(plan@, ELEMENT as nat),
        source.len() == plan@.source_elements() * ELEMENT,
        destination@ == arranged_bytes(plan@, source, ELEMENT as nat),
    ensures
        outcome is Ok,
{
    let ghost m = plan@;
    let mut list = ElementList { elements: Vec::new() };
    plan.for_each(&mut list);
    assert(list.elements@ =~= m.elements());
    let mut mapped: u64 = 0;
    let mut slots: usize = 0;
    let mut at: usize = 0;
    while at < list.elements.len()
        invariant
            at <= list.elements@.len(),
            m == plan@,
            m.sound(),
            list.elements@ == m.elements(),
            addressable(m, ELEMENT as nat),
            destination@ == arranged_bytes(m, source, ELEMENT as nat),
            mapped == mapped_upto(m, at as int),
            mapped <= at,
            slots <= at,
            slots > 0 ==> exists|to: int| 0 <= to < m.dest_elements() && m.source_of(to) is None,
        decreases list.elements@.len() - at,
    {
        let (to, from) = list.elements[at];
        match from {
            Some(_) => {
                mapped += 1;
            },
            None => {
                proof {
                    let all = m.dest_elements();
                    assert(to == at);
                    assert(at < all);
                    assert((at as nat) * (ELEMENT as nat) + (ELEMENT as nat) <= all * (ELEMENT as nat))
                        by (nonlinear_arith)
                        requires
                            at < all,
                    ;
                    fits_four_times(at as nat, to);
                    assert(destination@.len() == all * (ELEMENT as nat));
                }
                let start: usize = to as usize * ELEMENT;
                proof {
                    padding_is_zero(m, source, ELEMENT as nat, at as int, 0);
                    padding_is_zero(m, source, ELEMENT as nat, at as int, 1);
                    padding_is_zero(m, source, ELEMENT as nat, at as int, 2);
                    padding_is_zero(m, source, ELEMENT as nat, at as int, 3);
                }
                if destination[start] != 0 || destination[start + 1] != 0 || destination[start + 2]
                    != 0 || destination[start + 3] != 0 {
                    return Err(ProbeFault::PaddingNotZero { slot: to });
                }
                slots += 1;
            },
        }
        at += 1;
    }
    let elements: u64 = plan.source_elements();
    proof {
        every_element_is_mapped(m);
    }
    if mapped != elements {
        return Err(ProbeFault::Unmapped { mapped, elements });
    }
    if !plan.padded() && slots > 0 {
        proof {
            let to = choose|to: int| 0 <= to < m.dest_elements() && m.source_of(to) is None;
            padding_is_declared(m, to);
        }
        return Err(ProbeFault::UndeclaredPadding { slots });
    }
    Ok(())
}

/// Padding stands only in a plan that declares it.
pub proof fn padding_is_declared(plan: PlanModel, to: int)
    requires
        plan.sound(),
        0 <= to < plan.dest_elements(),
        plan.source_of(to) is None,
    ensures
        plan.padded(),
{
    plan.storage_span();
    plan.counters_of_element(to);
    let counters = plan.counters(crate::radix::digits(plan.storage(), to));
    let found = plan.coordinates(counters);
    assert(!plan.inside(found));
    let axis = choose|axis: int| 0 <= axis < plan.shape.len() && found[axis] >= plan.shape[axis];
    plan.coordinate_is_bounded(counters, axis);
    assert(super::plan::overshoots(plan.shape, plan.axes, plan.extents, axis));
}

proof fn fits_four_times(elements: nat, count: u64)
    requires
        count == elements,
        elements * (ELEMENT as nat) <= usize::MAX,
    ensures
        count <= usize::MAX,
        count * ELEMENT <= usize::MAX,
        elements * (ELEMENT as nat) == 4 * elements,
        count * ELEMENT == 4 * count,
{
    assert(ELEMENT == 4);
    assert(elements * (ELEMENT as nat) == 4 * elements) by (nonlinear_arith)
        requires
            ELEMENT as nat == 4,
    ;
    assert(count * ELEMENT == 4 * count) by (nonlinear_arith)
        requires
            ELEMENT == 4,
    ;
}

/// Applies the map, applies it inverted, and compares bytes.
fn probe_plan(plan: &Plan) -> (outcome: Result<(), ProbeFault>)
    requires
        plan.wf(),
        addressable(plan@, ELEMENT as nat),
    ensures
        outcome is Ok,
{
    let ghost m = plan@;
    let source_count: u64 = plan.source_elements();
    let dest_count: u64 = plan.dest_elements();
    proof {
        fits_four_times(m.source_elements(), source_count);
        fits_four_times(m.dest_elements(), dest_count);
    }
    let source_bytes: usize = source_count as usize * ELEMENT;
    let source = probe_source(source_count as usize);
    let mut destination = filled(dest_count as usize * ELEMENT, POISON);
    let applied = plan.apply(&source, &mut destination, ELEMENT);
    assert(applied is Ok);
    check_map(plan, &destination, Ghost(source@))?;
    let mut back = filled(source_bytes, POISON);
    let inverted = plan.apply_inverse(&destination, &mut back, ELEMENT);
    assert(inverted is Ok);
    proof {
        restoring_undoes_arranging(m, source@, ELEMENT as nat);
    }
    let mut at: usize = 0;
    while at < back.len()
        invariant
            at <= back@.len(),
            back@ == source@,
        decreases back@.len() - at,
    {
        if back[at] != source[at] {
            return Err(ProbeFault::RoundTrip { element: at / ELEMENT });
        }
        at += 1;
    }
    Ok(())
}

/// A shape can be probed: nothing in its plan leaves 64 bits, and the probe's
/// bytes can be addressed.
pub open spec fn probeable(record: LayoutMorphism, shape: Seq<u64>) -> bool {
    &&& !(planned(record, shape) is TooLarge)
    &&& planned(record, shape) matches Planning::Ready(plan) ==> addressable(plan, ELEMENT as nat)
}

/// What the probes among the first `upto` shapes show. A shape that the record
/// refuses shows nothing.
pub open spec fn probed(record: LayoutMorphism, shapes: Seq<Seq<u64>>, upto: int) -> Seq<ProbeModel>
    decreases upto,
{
    if upto <= 0 {
        Seq::empty()
    } else {
        let before = probed(record, shapes, upto - 1);
        match planned(record, shapes[upto - 1]) {
            Planning::Ready(plan) => before.push(
                ProbeModel {
                    shape: shapes[upto - 1],
                    dest_elements: plan.dest_elements() as u64,
                    padded: plan.padded(),
                },
            ),
            _ => before,
        }
    }
}

/// What ratifying a record comes to: what its probes show, or what is wrong
/// with it.
pub open spec fn ratified(record: LayoutMorphism) -> Result<Seq<ProbeModel>, RecordFault> {
    let shapes = probes_of(record);
    let shown = probed(record, shapes, shapes.len() as int);
    match record_fault(record) {
        Some(fault) => Err(fault),
        None => if shown.len() > 0 {
            Ok(shown)
        } else {
            Err(RecordFault::NoProbe)
        },
    }
}

proof fn same_extents(a: LayoutMorphism, b: LayoutMorphism, shape: Seq<u64>, upto: int)
    requires
        a.sub_axes@ == b.sub_axes@,
        handle_text(a) == handle_text(b),
    ensures
        extents_of(a, shape, upto) == extents_of(b, shape, upto),
    decreases upto,
{
    if upto > 0 {
        same_extents(a, b, shape, upto - 1);
    }
}

proof fn same_probes(a: LayoutMorphism, b: LayoutMorphism, shapes: Seq<Seq<u64>>, upto: int)
    requires
        a.sub_axes@ == b.sub_axes@,
        a.permutation@ == b.permutation@,
        a.rank == b.rank,
        handle_text(a) == handle_text(b),
    ensures
        probed(a, shapes, upto) == probed(b, shapes, upto),
    decreases upto,
{
    if upto > 0 {
        same_probes(a, b, shapes, upto - 1);
        same_extents(a, b, shapes[upto - 1], a.sub_axes@.len() as int);
    }
}

/// A candidate is probed as any other record: marking a record as one, or
/// clearing the mark, changes nothing in what ratifying it comes to.
pub proof fn a_candidate_is_ratified_alike(record: LayoutMorphism, candidate: bool)
    ensures
        ratified(LayoutMorphism { candidate, ..record }) == ratified(record),
        handle_text(LayoutMorphism { candidate, ..record }) == handle_text(record),
{
    let twin = LayoutMorphism { candidate, ..record };
    let shapes = probes_of(record);
    assert(aligned(twin) =~= aligned(record));
    same_probes(twin, record, shapes, shapes.len() as int);
}

proof fn checked_is_structured(record: LayoutMorphism)
    requires
        record_fault(record) is None,
    ensures
        structured(record),
{
}

/// Ratifies one record: applies the map, applies it inverted, compares bytes,
/// for every probe shape that the record takes.
///
/// A record that passes its own check always passes: for every shape it plans,
/// each destination element is one source element or zero padding, every source
/// element is written exactly once, and the inverse gives the bytes back.
pub fn ratify(record: &LayoutMorphism) -> (outcome: Result<Ratification, LayoutError>)
    requires
        record_fault(*record) is None ==> {
            &&& (record.sub_axes@.len() > 0 ==> probes_fit(*record))
            &&& forall|i: int|
                0 <= i < probes_of(*record).len() ==> probeable(
                    *record,
                    #[trigger] probes_of(*record)[i],
                )
        },
    ensures
        match outcome {
            Ok(r) => ratified(*record) == Ok::<Seq<ProbeModel>, RecordFault>(
                probe_models(r.probes@),
            ) && r.handle@ == handle_text(*record),
            Err(e) => ratified(*record) is Err && e@ == (ErrorModel::Record {
                handle: handle_text(*record),
                fault: ratified(*record)->Err_0,
            }),
        },
{
    record.check()?;
    proof {
        checked_is_structured(*record);
    }
    let shapes = probe_shapes(record);
    let ghost models = probes_of(*record);
    let mut probes: Vec<Probe> = Vec::new();
    let mut at: usize = 0;
    assert(probe_models(probes@) =~= Seq::<ProbeModel>::empty());
    while at < shapes.len()
        invariant
            at <= shapes@.len(),
            models == shape_models(shapes@),
            models == probes_of(*record),
            record_fault(*record) is None,
            structured(*record),
            forall|i: int|
                0 <= i < models.len() ==> probeable(*record, #[trigger] models[i]),
            probe_models(probes@) == probed(*record, models, at as int),
        decreases shapes@.len() - at,
    {
        let shape = &shapes[at];
        proof {
            assert(models[at as int] == shape@);
            assert(probeable(*record, models[at as int]));
        }
        if let Ok(plan) = record.plan(shape) {
            match probe_plan(&plan) {
                Ok(_) => {},
                Err(fault) => {
                    return Err(
                        LayoutError::Probe {
                            handle: record.handle(),
                            shape: vstd::slice::slice_to_vec(shape),
                            fault,
                        },
                    );
                },
            }
            let ghost before = probe_models(probes@);
            let probe = Probe {
                shape: vstd::slice::slice_to_vec(shape),
                dest_elements: plan.dest_elements(),
                padded: plan.padded(),
            };
            let ghost model = probe@;
            probes.push(probe);
            assert(probe_models(probes@) =~= before.push(model));
        }
        at += 1;
    }
    if probes.len() == 0 {
        return Err(LayoutError::Record { handle: record.handle(), fault: RecordFault::NoProbe });
    }
    Ok(Ratification { handle: record.handle(), probes })
}

} // verus!
