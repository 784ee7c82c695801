//! A new tensor container out of a committed one's own objects.
//!
//! Renaming tensors, or leaving some out, rewrites the container's header and
//! nothing else: every kept tensor keeps its objects. What comes out is an
//! ordinary file body, and the few new objects that its header takes.


pub mod gguf;
pub mod gguf_reread;
pub mod laws;
pub mod safetensors;
pub mod safetensors_reread;

use crate::object::ObjectDigest;
use crate::planner::{ByteSource, PlanError, TensorFormat, MAX_OBJECT_SIZE};
use crate::tfm1::builder::records_length;
use crate::tfm1::{
    record_models, record_sum, record_sum_grows, run_length, BodyModel, FileBody, FileRecord, RecordModel,
};
use crate::trusted::{sha256, sha256_digest};
use vstd::prelude::*;

verus! {

/// Why a container could not be composed.
#[derive(Debug)]
pub enum ComposeError {
    NotATensorContainer,
    Unreadable(TensorFormat),
    UnknownTensor(String),
    UnnamedTensor(String),
    DuplicateName(String),
    UnusableName(String),
    NotObjectAligned(String),
    HeaderTooLarge,
    Plan(PlanError),
}

/// The value of a [`ComposeError`]; of a failure to read, that there was one.
pub enum ComposeFault {
    NotATensorContainer,
    Unreadable(TensorFormat),
    UnknownTensor(Seq<char>),
    UnnamedTensor(Seq<char>),
    DuplicateName(Seq<char>),
    UnusableName(Seq<char>),
    NotObjectAligned(Seq<char>),
    HeaderTooLarge,
    Plan,
}

impl View for ComposeError {
    type V = ComposeFault;

    open spec fn view(&self) -> ComposeFault {
        match self {
            ComposeError::NotATensorContainer => ComposeFault::NotATensorContainer,
            ComposeError::Unreadable(format) => ComposeFault::Unreadable(*format),
            ComposeError::UnknownTensor(name) => ComposeFault::UnknownTensor(name@),
            ComposeError::UnnamedTensor(name) => ComposeFault::UnnamedTensor(name@),
            ComposeError::DuplicateName(name) => ComposeFault::DuplicateName(name@),
            ComposeError::UnusableName(name) => ComposeFault::UnusableName(name@),
            ComposeError::NotObjectAligned(name) => ComposeFault::NotObjectAligned(name@),
            ComposeError::HeaderTooLarge => ComposeFault::HeaderTooLarge,
            ComposeError::Plan(_) => ComposeFault::Plan,
        }
    }
}

/// What becomes of a tensor that the caller did not name.
#[derive(Clone, Copy, Debug, PartialEq, Eq, Structural)]
pub enum Unnamed {
    Refuse,
    Drop,
}

// ---------------------------------------------------------------------------
// Which tensors stay, under which names
// ---------------------------------------------------------------------------

/// The old and new names of a list of pairs.
pub open spec fn name_pairs(names: Seq<(String, String)>) -> Seq<(Seq<char>, Seq<char>)> {
    names.map_values(|pair: (String, String)| (pair.0@, pair.1@))
}

/// The first pair at or behind `at` for the name `old`; the length where there
/// is none.
pub open spec fn pair_at(names: Seq<(Seq<char>, Seq<char>)>, old: Seq<char>, at: int) -> int
    decreases names.len() - at,
{
    if at >= names.len() || names[at].0 == old {
        at
    } else {
        pair_at(names, old, at + 1)
    }
}

/// A kept tensor: its new name and its place among the source's tensors.
pub type Kept = (Seq<char>, int);

/// Whether a kept tensor has the name `new`.
pub open spec fn is_taken(kept: Seq<Kept>, new: Seq<char>) -> bool {
    exists|k: int| 0 <= k < kept.len() && (#[trigger] kept[k]).0 == new
}

/// The tensors kept among the first `upto`, or the first refusal.
pub open spec fn kept_upto(
    tensors: Seq<Seq<char>>,
    names: Seq<(Seq<char>, Seq<char>)>,
    unnamed: Unnamed,
    upto: int,
) -> Result<Seq<Kept>, ComposeFault>
    decreases upto,
{
    if upto <= 0 {
        Ok(Seq::empty())
    } else {
        match kept_upto(tensors, names, unnamed, upto - 1) {
            Err(fault) => Err(fault),
            Ok(kept) => {
                let old = tensors[upto - 1];
                let at = pair_at(names, old, 0);
                if at >= names.len() {
                    match unnamed {
                        Unnamed::Drop => Ok(kept),
                        Unnamed::Refuse => Err(ComposeFault::UnnamedTensor(old)),
                    }
                } else if is_taken(kept, names[at].1) {
                    Err(ComposeFault::DuplicateName(names[at].1))
                } else {
                    Ok(kept.push((names[at].1, upto - 1)))
                }
            },
        }
    }
}

/// The first pair at or behind `at` whose old name no tensor has; the length
/// where there is none.
pub open spec fn unknown_at(
    tensors: Seq<Seq<char>>,
    names: Seq<(Seq<char>, Seq<char>)>,
    at: int,
) -> int
    decreases names.len() - at,
{
    if at >= names.len() || !tensors.contains(names[at].0) {
        at
    } else {
        unknown_at(tensors, names, at + 1)
    }
}

/// The kept tensors in the source's order, under their new names. No two may
/// get one name, and a name that the source does not hold is refused.
pub open spec fn selected(
    tensors: Seq<Seq<char>>,
    names: Seq<(Seq<char>, Seq<char>)>,
    unnamed: Unnamed,
) -> Result<Seq<Kept>, ComposeFault> {
    match kept_upto(tensors, names, unnamed, tensors.len() as int) {
        Err(fault) => Err(fault),
        Ok(kept) => {
            let at = unknown_at(tensors, names, 0);
            if at < names.len() {
                Err(ComposeFault::UnknownTensor(names[at].0))
            } else {
                Ok(kept)
            }
        },
    }
}

/// The values of kept tensors.
pub open spec fn kept_models(kept: Seq<(String, usize)>) -> Seq<Kept> {
    kept.map_values(|pair: (String, usize)| (pair.0@, pair.1 as int))
}

/// Kept tensors stand in the source's order.
pub open spec fn in_source_order(kept: Seq<Kept>, count: int) -> bool {
    &&& forall|k: int| 0 <= k < kept.len() ==> 0 <= (#[trigger] kept[k]).1 < count
    &&& forall|i: int, j: int|
        0 <= i < j < kept.len() ==> (#[trigger] kept[i]).1 < (#[trigger] kept[j]).1
}

proof fn kept_fault_stays(
    tensors: Seq<Seq<char>>,
    names: Seq<(Seq<char>, Seq<char>)>,
    unnamed: Unnamed,
    low: int,
    high: int,
)
    requires
        0 <= low <= high,
        kept_upto(tensors, names, unnamed, low) is Err,
    ensures
        kept_upto(tensors, names, unnamed, high) == kept_upto(tensors, names, unnamed, low),
    decreases high - low,
{
    if low < high {
        kept_fault_stays(tensors, names, unnamed, low, high - 1);
    }
}

/// Kept tensors stand in the source's order under names of their own, and are
/// at most as many as the source's.
pub(crate) proof fn selection_is_well_made(
    tensors: Seq<Seq<char>>,
    names: Seq<(Seq<char>, Seq<char>)>,
    unnamed: Unnamed,
    upto: int,
)
    requires
        0 <= upto,
    ensures
        kept_upto(tensors, names, unnamed, upto) matches Ok(kept) ==> {
            &&& in_source_order(kept, upto)
            &&& kept.len() <= upto
            &&& forall|i: int, j: int|
                0 <= i < j < kept.len() ==> (#[trigger] kept[i]).0 != (#[trigger] kept[j]).0
        },
    decreases upto,
{
    if upto > 0 {
        selection_is_well_made(tensors, names, unnamed, upto - 1);
    }
}

/// A renaming that is accepted keeps every tensor.
pub proof fn a_renaming_keeps_every_tensor(
    tensors: Seq<Seq<char>>,
    names: Seq<(Seq<char>, Seq<char>)>,
    upto: int,
)
    requires
        0 <= upto <= tensors.len(),
        kept_upto(tensors, names, Unnamed::Refuse, upto) is Ok,
    ensures
        ({
            let kept = kept_upto(tensors, names, Unnamed::Refuse, upto)->Ok_0;
            kept.len() == upto && forall|i: int| 0 <= i < upto ==> (#[trigger] kept[i]).1 == i
        }),
    decreases upto,
{
    if upto > 0 {
        a_renaming_keeps_every_tensor(tensors, names, upto - 1);
    }
}

/// The first tensor at or behind `at` that no pair names; the length where there
/// is none.
pub open spec fn unnamed_at(
    tensors: Seq<Seq<char>>,
    names: Seq<(Seq<char>, Seq<char>)>,
    at: int,
) -> int
    decreases tensors.len() - at,
{
    if at >= tensors.len() || pair_at(names, tensors[at], 0) >= names.len() {
        at
    } else {
        unnamed_at(tensors, names, at + 1)
    }
}

proof fn kept_alike(
    tensors: Seq<Seq<char>>,
    names: Seq<(Seq<char>, Seq<char>)>,
    first: int,
    upto: int,
)
    requires
        0 <= upto <= tensors.len(),
        0 <= first,
        kept_upto(tensors, names, Unnamed::Drop, upto) is Ok,
        first < tensors.len() ==> pair_at(names, tensors[first], 0) >= names.len(),
        forall|i: int|
            0 <= i < first && i < tensors.len() ==> pair_at(names, #[trigger] tensors[i], 0)
                < names.len(),
    ensures
        kept_upto(tensors, names, Unnamed::Refuse, upto) == if first < upto {
            Err(ComposeFault::UnnamedTensor(tensors[first]))
        } else {
            kept_upto(tensors, names, Unnamed::Drop, upto)
        },
        first < upto ==> kept_upto(tensors, names, Unnamed::Drop, upto)->Ok_0.len() < upto,
        kept_upto(tensors, names, Unnamed::Drop, upto)->Ok_0.len() <= upto,
        first >= upto ==> kept_upto(tensors, names, Unnamed::Drop, upto)->Ok_0.len() == upto,
    decreases upto,
{
    if upto > 0 {
        kept_alike(tensors, names, first, upto - 1);
        if upto - 1 < first {
            assert(pair_at(names, tensors[upto - 1], 0) < names.len());
        }
    }
}

proof fn unnamed_is_first(
    tensors: Seq<Seq<char>>,
    names: Seq<(Seq<char>, Seq<char>)>,
    at: int,
)
    requires
        0 <= at <= tensors.len(),
    ensures
        ({
            let first = unnamed_at(tensors, names, at);
            &&& at <= first <= tensors.len()
            &&& first < tensors.len() ==> pair_at(names, tensors[first], 0) >= names.len()
            &&& forall|i: int|
                at <= i < first ==> pair_at(names, #[trigger] tensors[i], 0) < names.len()
        }),
    decreases tensors.len() - at,
{
    if at < tensors.len() && pair_at(names, tensors[at], 0) < names.len() {
        unnamed_is_first(tensors, names, at + 1);
    }
}

/// A renaming refuses exactly where a trim would leave a tensor out, and names
/// the first that it would leave out; elsewhere both keep the same tensors under
/// the same names.
pub proof fn a_renaming_refuses_what_a_trim_drops(
    tensors: Seq<Seq<char>>,
    names: Seq<(Seq<char>, Seq<char>)>,
)
    requires
        selected(tensors, names, Unnamed::Drop) is Ok,
    ensures
        ({
            let first = unnamed_at(tensors, names, 0);
            let trimmed = selected(tensors, names, Unnamed::Drop);
            &&& trimmed->Ok_0.len() < tensors.len() <==> first < tensors.len()
            &&& selected(tensors, names, Unnamed::Refuse) == if first < tensors.len() {
                Err(ComposeFault::UnnamedTensor(tensors[first]))
            } else {
                trimmed
            }
        }),
{
    unnamed_is_first(tensors, names, 0);
    kept_alike(tensors, names, unnamed_at(tensors, names, 0), tensors.len() as int);
}

fn find_pair(names: &[(String, String)], old: &String) -> (at: usize)
    ensures
        at == pair_at(name_pairs(names@), old@, 0),
        at <= names@.len(),
{
    let ghost pairs = name_pairs(names@);
    let mut at: usize = 0;
    while at < names.len() && names[at].0 != *old
        invariant
            at <= names@.len(),
            pairs == name_pairs(names@),
            pair_at(pairs, old@, 0) == pair_at(pairs, old@, at as int),
        decreases names@.len() - at,
    {
        assert(pairs[at as int].0 == names@[at as int].0@);
        at += 1;
    }
    proof {
        if at < names@.len() {
            assert(pairs[at as int].0 == names@[at as int].0@);
        }
    }
    at
}

fn taken(kept: &Vec<(String, usize)>, new: &String) -> (yes: bool)
    ensures
        yes == is_taken(kept_models(kept@), new@),
{
    let ghost models = kept_models(kept@);
    let mut at: usize = 0;
    while at < kept.len()
        invariant
            at <= kept@.len(),
            models == kept_models(kept@),
            forall|k: int| 0 <= k < at ==> (#[trigger] models[k]).0 != new@,
        decreases kept@.len() - at,
    {
        assert(models[at as int].0 == kept@[at as int].0@);
        if kept[at].0 == *new {
            return true;
        }
        at += 1;
    }
    false
}

fn holds_name(tensors: &[String], name: &String) -> (yes: bool)
    ensures
        yes == crate::text::strings(tensors@).contains(name@),
{
    let ghost texts = crate::text::strings(tensors@);
    let mut at: usize = 0;
    while at < tensors.len()
        invariant
            at <= tensors@.len(),
            texts == crate::text::strings(tensors@),
            forall|i: int| 0 <= i < at ==> texts[i] != name@,
        decreases tensors@.len() - at,
    {
        assert(texts[at as int] == tensors@[at as int]@);
        if tensors[at] == *name {
            return true;
        }
        at += 1;
    }
    false
}

/// Selects the tensors that stay.
pub fn select(tensors: &[String], names: &[(String, String)], unnamed: Unnamed) -> (outcome: Result<
    Vec<(String, usize)>,
    ComposeError,
>)
    ensures
        ({
            let texts = crate::text::strings(tensors@);
            match outcome {
                Ok(kept) => selected(texts, name_pairs(names@), unnamed) == Ok::<
                    Seq<Kept>,
                    ComposeFault,
                >(kept_models(kept@)) && in_source_order(kept_models(kept@), tensors@.len() as int),
                Err(e) => selected(texts, name_pairs(names@), unnamed) == Err::<
                    Seq<Kept>,
                    ComposeFault,
                >(e@) && !(e is Plan),
            }
        }),
{
    let ghost texts = crate::text::strings(tensors@);
    let ghost pairs = name_pairs(names@);
    let ghost count = tensors@.len() as int;
    let mut kept: Vec<(String, usize)> = Vec::new();
    let mut at: usize = 0;
    assert(kept_models(kept@) =~= Seq::empty());
    while at < tensors.len()
        invariant
            at <= tensors@.len(),
            texts == crate::text::strings(tensors@),
            pairs == name_pairs(names@),
            count == tensors@.len(),
            kept_upto(texts, pairs, unnamed, at as int) == Ok::<Seq<Kept>, ComposeFault>(
                kept_models(kept@),
            ),
        decreases tensors@.len() - at,
    {
        let ghost before = kept_models(kept@);
        assert(texts[at as int] == tensors@[at as int]@);
        let place = find_pair(names, &tensors[at]);
        if place == names.len() {
            match unnamed {
                Unnamed::Drop => {},
                Unnamed::Refuse => {
                    proof {
                        kept_fault_stays(texts, pairs, unnamed, at + 1, count);
                    }
                    return Err(ComposeError::UnnamedTensor(tensors[at].clone()));
                },
            }
        } else {
            assert(pairs[place as int] == (names@[place as int].0@, names@[place as int].1@));
            if taken(&kept, &names[place].1) {
                proof {
                    kept_fault_stays(texts, pairs, unnamed, at + 1, count);
                }
                return Err(ComposeError::DuplicateName(names[place].1.clone()));
            }
            kept.push((names[place].1.clone(), at));
            assert(kept_models(kept@) =~= before.push((names@[place as int].1@, at as int)));
        }
        at += 1;
    }
    let mut name: usize = 0;
    while name < names.len()
        invariant
            name <= names@.len(),
            texts == crate::text::strings(tensors@),
            pairs == name_pairs(names@),
            kept_upto(texts, pairs, unnamed, texts.len() as int) == Ok::<Seq<Kept>, ComposeFault>(
                kept_models(kept@),
            ),
            unknown_at(texts, pairs, 0) == unknown_at(texts, pairs, name as int),
        decreases names@.len() - name,
    {
        assert(pairs[name as int].0 == names@[name as int].0@);
        if !holds_name(tensors, &names[name].0) {
            return Err(ComposeError::UnknownTensor(names[name].0.clone()));
        }
        name += 1;
    }
    proof {
        selection_is_well_made(texts, pairs, unnamed, texts.len() as int);
    }
    Ok(kept)
}

// ---------------------------------------------------------------------------
// Inheriting records
// ---------------------------------------------------------------------------

/// The records from `at` on that lie between two bytes of the file; nothing
/// where a record reaches over one of them.
pub open spec fn records_between(records: Seq<RecordModel>, at: int, start: int, end: int) -> Option<
    Seq<RecordModel>,
>
    decreases records.len() - at,
{
    if at >= records.len() {
        Some(Seq::empty())
    } else if record_sum(records, at + 1) <= start {
        records_between(records, at + 1, start, end)
    } else if record_sum(records, at) >= end {
        Some(Seq::empty())
    } else if record_sum(records, at) < start || record_sum(records, at + 1) > end {
        None
    } else {
        match records_between(records, at + 1, start, end) {
            Some(rest) => Some(seq![records[at]] + rest),
            None => None,
        }
    }
}

/// The records that are exactly `length` bytes of the file from `start` on.
pub open spec fn inherited(records: Seq<RecordModel>, start: u64, length: u64) -> Option<Seq<RecordModel>> {
    if start + length > u64::MAX {
        None
    } else {
        match records_between(records, 0, start as int, start + length) {
            Some(taken) if run_length(taken) == length => Some(taken),
            _ => None,
        }
    }
}

spec fn joined_with(taken: Seq<RecordModel>, rest: Option<Seq<RecordModel>>) -> Option<Seq<RecordModel>> {
    match rest {
        Some(more) => Some(taken + more),
        None => None,
    }
}

/// The records that are exactly a run of the file's bytes.
pub fn inherit(records: &[FileRecord], start: u64, length: u64) -> (outcome: Option<Vec<FileRecord>>)
    requires
        run_length(record_models(records@)) <= u64::MAX,
    ensures
        match outcome {
            Some(taken) => inherited(record_models(records@), start, length) == Some(
                record_models(taken@),
            ),
            None => inherited(record_models(records@), start, length) is None,
        },
{
    let ghost models = record_models(records@);
    if length > u64::MAX - start {
        return None;
    }
    let end: u64 = start + length;
    let ghost whole = records_between(models, 0, start as int, end as int);
    let mut taken: Vec<FileRecord> = Vec::new();
    let mut sum: u64 = 0;
    let mut position: u64 = 0;
    let mut at: usize = 0;
    assert(record_models(taken@) =~= Seq::empty());
    proof {
        match whole {
            Some(more) => {
                assert(record_models(taken@) + more =~= more);
            },
            None => {},
        }
    }
    while at < records.len()
        invariant
            at <= records@.len(),
            models == record_models(records@),
            run_length(models) <= u64::MAX,
            end == start + length,
            position == record_sum(models, at as int),
            sum == run_length(record_models(taken@)),
            sum <= position,
            whole == records_between(models, 0, start as int, end as int),
            whole == joined_with(
                record_models(taken@),
                records_between(models, at as int, start as int, end as int),
            ),
        decreases records@.len() - at,
    {
        let ghost before = record_models(taken@);
        let record = records[at];
        proof {
            record_sum_grows(models, at + 1, models.len() as int);
            assert(models[at as int] == record@);
        }
        let record_end: u64 = position + record.length();
        if record_end <= start {
            position = record_end;
            at += 1;
            continue;
        }
        if position >= end {
            assert(before + Seq::<RecordModel>::empty() =~= before);
            return if sum == length {
                Some(taken)
            } else {
                None
            };
        }
        if position < start || record_end > end {
            return None;
        }
        taken.push(record);
        proof {
            assert(record_models(taken@) =~= before.push(record@));
            run_of_pushed(before, record@);
            match records_between(models, at + 1, start as int, end as int) {
                Some(more) => {
                    assert(before + (seq![record@] + more) =~= before.push(record@) + more);
                },
                None => {},
            }
        }
        sum = sum + record.length();
        position = record_end;
        at += 1;
    }
    proof {
        assert(record_models(taken@) + Seq::<RecordModel>::empty() =~= record_models(taken@));
        assert(whole == Some(record_models(taken@)));
    }
    if sum == length {
        Some(taken)
    } else {
        None
    }
}

proof fn run_of_prefix(a: Seq<RecordModel>, b: Seq<RecordModel>, upto: int)
    requires
        0 <= upto <= a.len(),
        upto <= b.len(),
        forall|i: int| 0 <= i < upto ==> a[i] == b[i],
    ensures
        record_sum(a, upto) == record_sum(b, upto),
    decreases upto,
{
    if upto > 0 {
        run_of_prefix(a, b, upto - 1);
    }
}

pub(crate) proof fn run_of_pushed(records: Seq<RecordModel>, record: RecordModel)
    ensures
        run_length(records.push(record)) == run_length(records) + record.length(),
{
    run_of_prefix(records.push(record), records, records.len() as int);
}

proof fn inside_is_a_run(records: Seq<RecordModel>, at: int, start: int, end: int)
    requires
        0 <= at <= records.len(),
        record_sum(records, at) > start,
        records_between(records, at, start, end) is Some,
    ensures
        ({
            let taken = records_between(records, at, start, end).unwrap();
            at + taken.len() <= records.len() && taken == records.subrange(at, at + taken.len())
        }),
    decreases records.len() - at,
{
    let taken = records_between(records, at, start, end).unwrap();
    if at < records.len() && record_sum(records, at) < end {
        inside_is_a_run(records, at + 1, start, end);
    }
    assert(taken =~= records.subrange(at, at + taken.len()));
}

proof fn between_is_a_run(records: Seq<RecordModel>, at: int, start: int, end: int) -> (from: int)
    requires
        0 <= at <= records.len(),
        record_sum(records, at) <= start,
        records_between(records, at, start, end) is Some,
    ensures
        ({
            let taken = records_between(records, at, start, end).unwrap();
            &&& 0 <= from <= from + taken.len() <= records.len()
            &&& taken == records.subrange(from, from + taken.len())
            &&& taken.len() > 0 ==> record_sum(records, from) == start
        }),
    decreases records.len() - at,
{
    let taken = records_between(records, at, start, end).unwrap();
    if at >= records.len() {
        assert(taken =~= records.subrange(at, at));
        at
    } else if record_sum(records, at + 1) <= start {
        between_is_a_run(records, at + 1, start, end)
    } else if record_sum(records, at) >= end {
        assert(taken =~= records.subrange(at, at));
        at
    } else {
        inside_is_a_run(records, at + 1, start, end);
        assert(taken =~= records.subrange(at, at + taken.len()));
        at
    }
}

/// Inherited records are the file's own, side by side, from the byte asked for
/// on, and they are as long as asked for: nothing is cut and nothing is moved.
pub proof fn inherited_records_are_the_files_own(records: Seq<RecordModel>, start: u64, length: u64) -> (from:
    int)
    requires
        inherited(records, start, length) is Some,
    ensures
        ({
            let taken = inherited(records, start, length).unwrap();
            &&& run_length(taken) == length
            &&& 0 <= from <= from + taken.len() <= records.len()
            &&& taken == records.subrange(from, from + taken.len())
            &&& taken.len() > 0 ==> record_sum(records, from) == start
        }),
{
    between_is_a_run(records, 0, start as int, start + length)
}

// ---------------------------------------------------------------------------
// New objects
// ---------------------------------------------------------------------------

/// How many objects new bytes take.
pub open spec fn piece_count(bytes: Seq<u8>) -> nat {
    ((bytes.len() + MAX_OBJECT_SIZE - 1) / MAX_OBJECT_SIZE as int) as nat
}

/// The `i`th object of new bytes.
pub open spec fn piece(bytes: Seq<u8>, i: int) -> Seq<u8> {
    let end = (i + 1) * MAX_OBJECT_SIZE;
    bytes.subrange(
        i * MAX_OBJECT_SIZE,
        if end < bytes.len() {
            end
        } else {
            bytes.len() as int
        },
    )
}

/// New bytes, cut into objects.
pub open spec fn pieces(bytes: Seq<u8>) -> Seq<Seq<u8>> {
    Seq::new(piece_count(bytes), |i: int| piece(bytes, i))
}

/// The record of a new object.
pub open spec fn record_of(object: Seq<u8>) -> RecordModel {
    RecordModel::Data { digest: sha256(object), length: object.len() as u64 }
}

pub open spec fn records_of(objects: Seq<Seq<u8>>) -> Seq<RecordModel> {
    objects.map_values(|object: Seq<u8>| record_of(object))
}

pub open spec fn object_models(objects: Seq<Vec<u8>>) -> Seq<Seq<u8>> {
    objects.map_values(|object: Vec<u8>| object@)
}

/// What a composition leaves: the records of the new file, and the objects
/// that have to be stored for it.
#[verifier::ext_equal]
pub struct ComposedModel {
    pub records: Seq<RecordModel>,
    pub objects: Seq<Seq<u8>>,
}

pub struct Composed {
    pub records: Vec<FileRecord>,
    pub objects: Vec<Vec<u8>>,
}

impl View for Composed {
    type V = ComposedModel;

    open spec fn view(&self) -> ComposedModel {
        ComposedModel {
            records: record_models(self.records@),
            objects: object_models(self.objects@),
        }
    }
}

impl ComposedModel {
    /// With new bytes behind it.
    pub open spec fn admitting(self, bytes: Seq<u8>) -> ComposedModel {
        ComposedModel {
            records: self.records + records_of(pieces(bytes)),
            objects: self.objects + pieces(bytes),
        }
    }

    /// With inherited records behind it.
    pub open spec fn inheriting(self, records: Seq<RecordModel>) -> ComposedModel {
        ComposedModel { records: self.records + records, ..self }
    }
}

pub open spec fn nothing() -> ComposedModel {
    ComposedModel { records: Seq::empty(), objects: Seq::empty() }
}

impl Composed {
    pub fn new() -> (composed: Composed)
        ensures
            composed@ == nothing(),
    {
        let composed = Composed { records: Vec::new(), objects: Vec::new() };
        assert(composed@ =~= nothing());
        composed
    }

    /// Adds new bytes, cut into objects.
    pub fn add_new(&mut self, bytes: &[u8])
        ensures
            final(self)@ == old(self)@.admitting(bytes@),
    {
        let ghost before = self@;
        let ghost all = pieces(bytes@);
        let grid: usize = MAX_OBJECT_SIZE as usize;
        let mut at: usize = 0;
        let ghost mut done: int = 0;
        assert(all.take(0) =~= Seq::empty());
        assert(self@ =~= (ComposedModel {
            records: before.records + records_of(all.take(0)),
            objects: before.objects + all.take(0),
        }));
        while at < bytes.len()
            invariant
                grid == MAX_OBJECT_SIZE,
                at <= bytes@.len(),
                all == pieces(bytes@),
                0 <= done <= all.len(),
                at < bytes@.len() ==> at == done * MAX_OBJECT_SIZE,
                at == bytes@.len() ==> done == all.len(),
                self@ == (ComposedModel {
                    records: before.records + records_of(all.take(done)),
                    objects: before.objects + all.take(done),
                }),
            decreases bytes@.len() - at,
        {
            let size: usize = if bytes.len() - at < grid {
                bytes.len() - at
            } else {
                grid
            };
            let object = vstd::slice::slice_to_vec(vstd::slice::slice_subrange(bytes, at, at + size));
            let ghost model = object@;
            let ghost held = self@;
            proof {
                assert(done < all.len()) by (nonlinear_arith)
                    requires
                        at == done * MAX_OBJECT_SIZE,
                        at < bytes@.len(),
                        all.len() == (bytes@.len() + MAX_OBJECT_SIZE - 1) / MAX_OBJECT_SIZE as int,
                        MAX_OBJECT_SIZE > 0,
                ;
                assert((done + 1) * MAX_OBJECT_SIZE == at + MAX_OBJECT_SIZE) by (nonlinear_arith)
                    requires
                        at == done * MAX_OBJECT_SIZE,
                ;
                assert(model =~= piece(bytes@, done));
                if at + size == bytes@.len() {
                    assert(done + 1 == all.len()) by (nonlinear_arith)
                        requires
                            at == done * MAX_OBJECT_SIZE,
                            bytes@.len() - at <= MAX_OBJECT_SIZE,
                            done < all.len(),
                            all.len() == (bytes@.len() + MAX_OBJECT_SIZE - 1) / MAX_OBJECT_SIZE as int,
                            MAX_OBJECT_SIZE > 0,
                    ;
                }
            }
            let length: usize = object.len();
            let digest = ObjectDigest::from_bytes(sha256_digest(&object));
            self.records.push(FileRecord::Data { digest, length: length as u64 });
            self.objects.push(object);
            proof {
                assert(all.take(done + 1) =~= all.take(done).push(model));
                assert(self@.objects =~= held.objects.push(model));
                assert(self@.records =~= held.records.push(record_of(model)));
                assert(records_of(all.take(done + 1)) =~= records_of(all.take(done)).push(
                    record_of(model),
                ));
                assert(self@ =~= (ComposedModel {
                    records: before.records + records_of(all.take(done + 1)),
                    objects: before.objects + all.take(done + 1),
                }));
                done = done + 1;
            }
            at += size;
        }
        proof {
            if bytes@.len() == 0 {
                assert(all.len() == 0) by (nonlinear_arith)
                    requires
                        all.len() == (0 + MAX_OBJECT_SIZE - 1) / MAX_OBJECT_SIZE as int,
                        MAX_OBJECT_SIZE > 0,
                ;
            }
            assert(all.take(all.len() as int) =~= all);
            assert(self@ =~= before.admitting(bytes@));
        }
    }

    /// Adds inherited records.
    pub fn extend(&mut self, records: Vec<FileRecord>)
        ensures
            final(self)@ == old(self)@.inheriting(record_models(records@)),
    {
        let ghost before = self@;
        self.records.extend_from_slice(&records);
        assert(self@ =~= before.inheriting(record_models(records@)));
    }
}

// ---------------------------------------------------------------------------
// Composing a file body
// ---------------------------------------------------------------------------

/// A composed file body, and the objects that have to be stored for it.
pub type CompositionModel = (BodyModel, Seq<Seq<u8>>);

/// The records and new objects of a composed container.
pub open spec fn composed_records(
    content: Seq<u8>,
    format: TensorFormat,
    records: Seq<RecordModel>,
    names: Seq<(Seq<char>, Seq<char>)>,
    unnamed: Unnamed,
) -> Result<ComposedModel, ComposeFault> {
    match format {
        TensorFormat::SafetensorsV1 => self::safetensors::safetensors_composition(
            content,
            records,
            names,
            unnamed,
        ),
        TensorFormat::GgufV1 => self::gguf::gguf_composition(content, records, names, unnamed),
    }
}

/// The composition of a file body whose bytes are `content`. A tensor container
/// keeps its format, and the contract that directed its chunking.
pub open spec fn composition(
    content: Seq<u8>,
    body: BodyModel,
    names: Seq<(Seq<char>, Seq<char>)>,
    unnamed: Unnamed,
) -> Result<CompositionModel, ComposeFault> {
    match body {
        BodyModel::Blob { .. } => Err(ComposeFault::NotATensorContainer),
        BodyModel::Tensor { format, contract, records, .. } => match composed_records(
            content,
            format,
            records,
            names,
            unnamed,
        ) {
            Err(fault) => Err(fault),
            Ok(composed) => if run_length(composed.records) > u64::MAX {
                Err(ComposeFault::HeaderTooLarge)
            } else {
                Ok(
                    (
                        BodyModel::Tensor {
                            format,
                            contract,
                            logical_size: run_length(composed.records) as u64,
                            records: composed.records,
                        },
                        composed.objects,
                    ),
                )
            },
        },
    }
}

/// The names of a container's tensors, in its own order.
pub open spec fn container_tensors(content: Seq<u8>, format: TensorFormat) -> Seq<Seq<char>> {
    match format {
        TensorFormat::SafetensorsV1 => match crate::planner::safetensors::layout_of(content) {
            Some(layout) => self::safetensors::tensor_names(layout.tensors),
            None => Seq::empty(),
        },
        TensorFormat::GgufV1 => match crate::planner::gguf::layout_of(content) {
            Some(layout) => self::gguf::tensor_names(layout.tensors),
            None => Seq::empty(),
        },
    }
}

/// Where a trim succeeds, the renaming by the same names gives the same file
/// when every tensor is named, and is refused when one is not.
pub proof fn rekeying_is_trimming_that_drops_nothing(
    content: Seq<u8>,
    body: BodyModel,
    names: Seq<(Seq<char>, Seq<char>)>,
)
    requires
        composition(content, body, names, Unnamed::Drop) is Ok,
    ensures
        body matches BodyModel::Tensor { format, .. } && {
            let tensors = container_tensors(content, format);
            let first = unnamed_at(tensors, names, 0);
            composition(content, body, names, Unnamed::Refuse) == if first < tensors.len() {
                Err(ComposeFault::UnnamedTensor(tensors[first]))
            } else {
                composition(content, body, names, Unnamed::Drop)
            }
        },
{
    if let BodyModel::Tensor { format, .. } = body {
        a_renaming_refuses_what_a_trim_drops(container_tensors(content, format), names);
    }
}

/// Whether composing a container takes memory that can be wanting: for reading
/// its layout.
pub open spec fn takes_memory(content: Seq<u8>, format: TensorFormat) -> bool {
    match format {
        TensorFormat::SafetensorsV1 => crate::planner::safetensors::takes_memory(content),
        TensorFormat::GgufV1 => crate::planner::gguf::takes_memory(content),
    }
}

/// What a composition of a source may come to. A composed safetensors file is
/// read as what was composed. A file that is no container is refused unread;
/// what else comes out is a function of the bytes where the source is steady.
pub open spec fn composes<S: ByteSource + ?Sized>(
    source: &S,
    body: BodyModel,
    names: Seq<(Seq<char>, Seq<char>)>,
    unnamed: Unnamed,
    outcome: Result<(FileBody, Vec<Vec<u8>>), ComposeError>,
) -> bool {
    let expected = composition(source.content(), body, names, unnamed);
    match outcome {
        Ok(composed) => source.steady() ==> {
            &&& expected == Ok::<CompositionModel, ComposeFault>(
                (composed.0@, object_models(composed.1@)),
            )
            &&& body matches BodyModel::Tensor { format: TensorFormat::SafetensorsV1, .. }
                ==> self::safetensors_reread::reads_as_composed(source.content(), names, unnamed)
        },
        Err(ComposeError::Plan(e)) => {
            &&& body matches BodyModel::Tensor { format, .. }
            &&& (e is ResourceExhausted && (source.steady() ==> takes_memory(
                source.content(),
                format,
            ))) || !source.reliable()
        },
        Err(e) => source.steady() || body is Blob ==> expected == Err::<CompositionModel, ComposeFault>(e@),
    }
}

fn compose<S: ByteSource + ?Sized>(
    source: &S,
    body: &FileBody,
    names: &[(String, String)],
    unnamed: Unnamed,
) -> (outcome: Result<(FileBody, Vec<Vec<u8>>), ComposeError>)
    requires
        run_length(body@.run()) <= u64::MAX,
    ensures
        composes(source, body@, name_pairs(names@), unnamed, outcome),
{
    match body {
        FileBody::Blob { .. } => Err(ComposeError::NotATensorContainer),
        FileBody::Tensor { format, contract, records, .. } => {
            let composed = match format {
                TensorFormat::SafetensorsV1 => self::safetensors::compose_safetensors(
                    source,
                    records,
                    names,
                    unnamed,
                ),
                TensorFormat::GgufV1 => self::gguf::compose_gguf(source, records, names, unnamed),
            };
            let composed = match composed {
                Ok(composed) => composed,
                Err(e) => {
                    return Err(e);
                },
            };
            match records_length(&composed.records) {
                Err(_) => Err(ComposeError::HeaderTooLarge),
                Ok(logical_size) => Ok(
                    (
                        FileBody::Tensor {
                            format: *format,
                            contract: contract.clone(),
                            logical_size,
                            records: composed.records,
                        },
                        composed.objects,
                    ),
                ),
            }
        },
    }
}

/// Renames the tensors of a container. Every tensor must be named, once.
pub fn rekey<S: ByteSource + ?Sized>(source: &S, body: &FileBody, names: &[(String, String)]) -> (outcome:
    Result<(FileBody, Vec<Vec<u8>>), ComposeError>)
    requires
        run_length(body@.run()) <= u64::MAX,
    ensures
        composes(source, body@, name_pairs(names@), Unnamed::Refuse, outcome),
{
    compose(source, body, names, Unnamed::Refuse)
}

/// Keeps the named tensors of a container, in its own order, and leaves the
/// others out.
pub fn subset<S: ByteSource + ?Sized>(source: &S, body: &FileBody, names: &[(String, String)]) -> (outcome:
    Result<(FileBody, Vec<Vec<u8>>), ComposeError>)
    requires
        run_length(body@.run()) <= u64::MAX,
    ensures
        composes(source, body@, name_pairs(names@), Unnamed::Drop, outcome),
{
    compose(source, body, names, Unnamed::Drop)
}

} // verus!
