//! The answer to "view or convert?".

use super::kernel::{Transform, TransformModel};
use super::runs::{
    carries, distinct_roles, extents_fit, role_runs, run_of, runs_of_file, source_models, AdapterError, FaultModel,
    SourceModel, SourceRun,
};
use crate::contract::{Contract, ContractModel, TensorModel, TensorPattern};
use crate::fusion::{Dim, Permute, PermuteModel};
use crate::pattern::{captured, instantiated};
use crate::planner::{inventory_models, InventoryModel, TensorInventory};
use crate::text::{
    bytes_before, bytes_less, chars_of, ends_with, push_decimal, same_chars, string_of, strings,
};
use vstd::prelude::*;
use vstd::string::*;
use vstd::utf8::encode_utf8;

verus! {

// ---------------------------------------------------------------------------
// Types
// ---------------------------------------------------------------------------

/// Why a change of layout would be a conversion: a fact about the weights.
#[derive(Debug, PartialEq, Eq)]
pub enum Reason {
    /// The target requires a role that the source has no bytes for.
    Required { role: String },
    /// The source carries no bytes for a role.
    NoBytes { role: String },
    /// The target contract describes none of the file.
    NothingDescribed,
    /// The target layout has no place for a role.
    NoPlace { role: String },
    /// A target tensor has no runs.
    NoRuns,
    /// A tensor would concatenate two element types.
    MixedDtypes { name: String, first: String, other: String },
    /// A tensor would concatenate rows of different shapes.
    MixedRows { name: String },
}

/// The value of a [`Reason`].
pub enum ReasonModel {
    Required { role: Seq<char> },
    NoBytes { role: Seq<char> },
    NothingDescribed,
    NoPlace { role: Seq<char> },
    NoRuns,
    MixedDtypes { name: Seq<char>, first: Seq<char>, other: Seq<char> },
    MixedRows { name: Seq<char> },
}

impl View for Reason {
    type V = ReasonModel;

    open spec fn view(&self) -> ReasonModel {
        match self {
            Reason::Required { role } => ReasonModel::Required { role: role@ },
            Reason::NoBytes { role } => ReasonModel::NoBytes { role: role@ },
            Reason::NothingDescribed => ReasonModel::NothingDescribed,
            Reason::NoPlace { role } => ReasonModel::NoPlace { role: role@ },
            Reason::NoRuns => ReasonModel::NoRuns,
            Reason::MixedDtypes { name, first, other } => ReasonModel::MixedDtypes {
                name: name@,
                first: first@,
                other: other@,
            },
            Reason::MixedRows { name } => ReasonModel::MixedRows { name: name@ },
        }
    }
}

/// One tensor of the derived layout: its name, its shape, and the ordered source
/// runs whose concatenation is its bytes.
#[derive(Debug, PartialEq, Eq)]
pub struct DerivedTensor {
    name: String,
    dtype: String,
    shape: Vec<u64>,
    runs: Vec<SourceRun>,
    transform: Transform,
}

/// The value of a [`DerivedTensor`].
#[verifier::ext_equal]
pub struct DerivedModel {
    pub name: Seq<char>,
    pub dtype: Seq<char>,
    pub shape: Seq<u64>,
    pub runs: Seq<SourceModel>,
    /// The re-arrangement needed inside the tensor after concatenation.
    pub transform: TransformModel,
}

impl View for DerivedTensor {
    type V = DerivedModel;

    closed spec fn view(&self) -> DerivedModel {
        DerivedModel {
            name: self.name@,
            dtype: self.dtype@,
            shape: self.shape@,
            runs: source_models(self.runs@),
            transform: self.transform@,
        }
    }
}

/// The values of derived tensors.
pub open spec fn derived_models(tensors: Seq<DerivedTensor>) -> Seq<DerivedModel> {
    tensors.map_values(|tensor: DerivedTensor| tensor@)
}

/// The summed lengths of the first `upto` runs.
pub open spec fn length_sum(runs: Seq<SourceModel>, upto: int) -> nat
    decreases upto,
{
    if upto <= 0 {
        0
    } else {
        length_sum(runs, upto - 1) + runs[upto - 1].length as nat
    }
}

/// The summed rows of the first `upto` runs.
pub open spec fn row_sum(runs: Seq<SourceModel>, upto: int) -> nat
    decreases upto,
{
    if upto <= 0 {
        0
    } else {
        row_sum(runs, upto - 1) + runs[upto - 1].rows as nat
    }
}

impl DerivedTensor {
    pub fn name(&self) -> (name: &str)
        ensures
            name@ == self@.name,
    {
        self.name.as_str()
    }

    pub fn dtype(&self) -> (dtype: &str)
        ensures
            dtype@ == self@.dtype,
    {
        self.dtype.as_str()
    }

    pub fn shape(&self) -> (shape: &[u64])
        ensures
            shape@ == self@.shape,
    {
        &self.shape
    }

    pub fn runs(&self) -> (runs: &[SourceRun])
        ensures
            source_models(runs@) == self@.runs,
    {
        &self.runs
    }

    pub fn transform(&self) -> (transform: &Transform)
        ensures
            transform@ == self@.transform,
    {
        &self.transform
    }

    /// The bytes of the tensor.
    pub fn length(&self) -> (length: u64)
        requires
            length_sum(self@.runs, self@.runs.len() as int) <= u64::MAX,
        ensures
            length == length_sum(self@.runs, self@.runs.len() as int),
    {
        let ghost models = self@.runs;
        let ghost n = models.len() as int;
        let mut length: u64 = 0;
        let mut at: usize = 0;
        while at < self.runs.len()
            invariant
                at <= self.runs@.len(),
                models == source_models(self.runs@),
                n == models.len(),
                length_sum(models, n) <= u64::MAX,
                length == length_sum(models, at as int),
            decreases self.runs@.len() - at,
        {
            proof {
                assert(models[at as int] == self.runs@[at as int]@);
                length_sum_grows(models, at + 1, n);
            }
            length = length + self.runs[at].length();
            at += 1;
        }
        length
    }

    /// Whether this tensor is in the source under one name and one contiguous
    /// extent: a pure rename or reshape.
    pub fn is_whole_source_tensor(&self) -> (yes: bool)
        ensures
            yes == (self@.runs.len() == 1 && self@.runs[0].whole && self@.transform is Identity),
    {
        if self.runs.len() != 1 {
            return false;
        }
        assert(self@.runs[0] == self.runs@[0]@);
        self.runs[0].is_whole() && self.transform.is_identity()
    }
}

proof fn length_sum_grows(runs: Seq<SourceModel>, low: int, high: int)
    requires
        low <= high,
    ensures
        length_sum(runs, low) <= length_sum(runs, high),
    decreases high - low,
{
    if low < high {
        length_sum_grows(runs, low, high - 1);
    }
}

/// A complete layout adapter: every tensor of the target layout, as runs of the
/// source's bytes.
#[derive(Debug, PartialEq, Eq)]
pub struct Adapter {
    tensors: Vec<DerivedTensor>,
}

impl View for Adapter {
    type V = Seq<DerivedModel>;

    closed spec fn view(&self) -> Seq<DerivedModel> {
        derived_models(self.tensors@)
    }
}

impl Adapter {
    pub fn tensors(&self) -> (tensors: &[DerivedTensor])
        ensures
            derived_models(tensors@) == self@,
    {
        &self.tensors
    }
}

/// The answer to "view or convert?".
#[derive(Debug, PartialEq, Eq)]
pub enum Decision {
    /// Every target tensor is an ordered concatenation of source runs.
    RunPreserving(Adapter),
    /// At least one tensor's bytes are re-arranged inside itself.
    Rearranged { adapter: Adapter, rearranged: Vec<String> },
    /// Not a layout change.
    Conversion { reason: Reason },
}

/// The value of a [`Decision`].
pub enum DecisionModel {
    RunPreserving(Seq<DerivedModel>),
    Rearranged { tensors: Seq<DerivedModel>, rearranged: Seq<Seq<char>> },
    Conversion(ReasonModel),
}

impl View for Decision {
    type V = DecisionModel;

    open spec fn view(&self) -> DecisionModel {
        match self {
            Decision::RunPreserving(adapter) => DecisionModel::RunPreserving(adapter@),
            Decision::Rearranged { adapter, rearranged } => DecisionModel::Rearranged {
                tensors: adapter@,
                rearranged: strings(rearranged@),
            },
            Decision::Conversion { reason } => DecisionModel::Conversion(reason@),
        }
    }
}

impl Decision {
    /// Whether the target layout can be served from the source's bytes at all.
    pub fn is_viewable(&self) -> (yes: bool)
        ensures
            yes == !(self@ is Conversion),
    {
        match self {
            Decision::Conversion { .. } => false,
            _ => true,
        }
    }

    pub fn adapter(&self) -> (adapter: Option<&Adapter>)
        ensures
            match adapter {
                Some(a) => match self@ {
                    DecisionModel::RunPreserving(tensors) => a@ == tensors,
                    DecisionModel::Rearranged { tensors, .. } => a@ == tensors,
                    DecisionModel::Conversion(_) => false,
                },
                None => self@ is Conversion,
            },
    {
        match self {
            Decision::RunPreserving(adapter) => Some(adapter),
            Decision::Rearranged { adapter, .. } => Some(adapter),
            Decision::Conversion { .. } => None,
        }
    }
}

// ---------------------------------------------------------------------------
// Hole values
// ---------------------------------------------------------------------------

/// Whether a list of numbers comes before another.
pub open spec fn numbers_less(a: Seq<u64>, b: Seq<u64>) -> bool
    decreases a.len(),
{
    if b.len() == 0 {
        false
    } else if a.len() == 0 {
        true
    } else if a[0] != b[0] {
        a[0] < b[0]
    } else {
        numbers_less(a.drop_first(), b.drop_first())
    }
}

proof fn numbers_less_irreflexive(a: Seq<u64>)
    ensures
        !numbers_less(a, a),
    decreases a.len(),
{
    if a.len() > 0 {
        numbers_less_irreflexive(a.drop_first());
    }
}

pub(crate) proof fn numbers_less_transitive(a: Seq<u64>, b: Seq<u64>, c: Seq<u64>)
    requires
        numbers_less(a, b),
        numbers_less(b, c),
    ensures
        numbers_less(a, c),
    decreases a.len(),
{
    if a.len() > 0 && a[0] == b[0] && b[0] == c[0] {
        numbers_less_transitive(a.drop_first(), b.drop_first(), c.drop_first());
    }
}

pub(crate) proof fn numbers_less_total(a: Seq<u64>, b: Seq<u64>)
    ensures
        numbers_less(a, b) || numbers_less(b, a) || a == b,
    decreases a.len(),
{
    if a.len() > 0 && b.len() > 0 && a[0] == b[0] {
        numbers_less_total(a.drop_first(), b.drop_first());
        if a.drop_first() == b.drop_first() {
            assert(a =~= seq![a[0]] + a.drop_first());
            assert(b =~= seq![b[0]] + b.drop_first());
        }
    } else if a.len() == 0 && b.len() == 0 {
        assert(a =~= b);
    }
}

/// Lists of numbers in strictly rising order.
pub open spec fn rising_numbers(list: Seq<Seq<u64>>) -> bool {
    forall|i: int, j: int|
        0 <= i < j < list.len() ==> numbers_less(#[trigger] list[i], #[trigger] list[j])
}

/// Two rising lists with the same members are the same.
proof fn one_rising_list(a: Seq<Seq<u64>>, b: Seq<Seq<u64>>)
    requires
        rising_numbers(a),
        rising_numbers(b),
        forall|v: Seq<u64>| a.contains(v) <==> b.contains(v),
    ensures
        a == b,
    decreases a.len(),
{
    if a.len() == 0 {
        if b.len() > 0 {
            assert(b.contains(b[0]));
            assert(a.contains(b[0]));
        }
        assert(a =~= b);
    } else {
        assert(a.contains(a[0]));
        assert(b.contains(a[0]));
        assert(b.contains(b[0]));
        assert(a.contains(b[0]));
        let i = choose|i: int| 0 <= i < a.len() && a[i] == b[0];
        let j = choose|j: int| 0 <= j < b.len() && b[j] == a[0];
        if a[0] != b[0] {
            assert(numbers_less(a[0], a[i]));
            assert(numbers_less(b[0], b[j]));
            numbers_less_transitive(a[0], b[0], a[0]);
            numbers_less_irreflexive(a[0]);
        }
        let x = a.drop_first();
        let y = b.drop_first();
        assert forall|i: int, j: int| 0 <= i < j < x.len() implies numbers_less(
            #[trigger] x[i],
            #[trigger] x[j],
        ) by {
            assert(numbers_less(a[i + 1], a[j + 1]));
        }
        assert forall|i: int, j: int| 0 <= i < j < y.len() implies numbers_less(
            #[trigger] y[i],
            #[trigger] y[j],
        ) by {
            assert(numbers_less(b[i + 1], b[j + 1]));
        }
        assert forall|v: Seq<u64>| x.contains(v) <==> y.contains(v) by {
            numbers_less_irreflexive(a[0]);
            if x.contains(v) {
                let k = choose|k: int| 0 <= k < x.len() && x[k] == v;
                assert(a[k + 1] == v);
                assert(numbers_less(a[0], a[k + 1]));
                assert(a.contains(v));
                assert(b.contains(v));
                let m = choose|m: int| 0 <= m < b.len() && b[m] == v;
                assert(y[m - 1] == v);
            }
            if y.contains(v) {
                let k = choose|k: int| 0 <= k < y.len() && y[k] == v;
                assert(b[k + 1] == v);
                assert(numbers_less(b[0], b[k + 1]));
                assert(b.contains(v));
                assert(a.contains(v));
                let m = choose|m: int| 0 <= m < a.len() && a[m] == v;
                assert(x[m - 1] == v);
            }
        }
        one_rising_list(x, y);
        assert(a =~= seq![a[0]] + x);
        assert(b =~= seq![b[0]] + y);
    }
}

fn numbers_before(a: &[u64], b: &[u64]) -> (yes: bool)
    ensures
        yes == numbers_less(a@, b@),
{
    let mut at: usize = 0;
    assert(a@.skip(0) =~= a@ && b@.skip(0) =~= b@);
    while at < a.len() && at < b.len()
        invariant
            at <= a@.len(),
            at <= b@.len(),
            numbers_less(a@, b@) == numbers_less(a@.skip(at as int), b@.skip(at as int)),
        decreases a@.len() - at,
    {
        if a[at] != b[at] {
            return a[at] < b[at];
        }
        assert(a@.skip(at as int).drop_first() =~= a@.skip(at + 1));
        assert(b@.skip(at as int).drop_first() =~= b@.skip(at + 1));
        at += 1;
    }
    at < b.len()
}

/// The values of lists of numbers.
pub open spec fn number_lists(list: Seq<Vec<u64>>) -> Seq<Seq<u64>> {
    list.map_values(|numbers: Vec<u64>| numbers@)
}

/// Adds a list of numbers to a rising list of such lists.
fn insert_numbers(list: &mut Vec<Vec<u64>>, values: Vec<u64>)
    requires
        rising_numbers(number_lists(old(list)@)),
    ensures
        rising_numbers(number_lists(final(list)@)),
        forall|v: Seq<u64>|
            number_lists(final(list)@).contains(v) <==> number_lists(old(list)@).contains(v) || v
                == values@,
{
    let ghost before = number_lists(list@);
    let mut at: usize = 0;
    while at < list.len() && numbers_before(&list[at], &values)
        invariant
            at <= list@.len(),
            list@ == old(list)@,
            before == number_lists(list@),
            rising_numbers(before),
            forall|i: int| 0 <= i < at ==> numbers_less(#[trigger] before[i], values@),
        decreases list@.len() - at,
    {
        assert(before[at as int] == list@[at as int]@);
        at += 1;
    }
    if at < list.len() {
        assert(before[at as int] == list@[at as int]@);
        if !numbers_before(&values, &list[at]) {
            proof {
                numbers_less_total(before[at as int], values@);
                assert(before.contains(values@));
            }
            return;
        }
    }
    let ghost value = values@;
    list.insert(at, values);
    proof {
        let after = number_lists(list@);
        assert(after =~= before.insert(at as int, value));
        assert forall|i: int, j: int| 0 <= i < j < after.len() implies numbers_less(
            #[trigger] after[i],
            #[trigger] after[j],
        ) by {
            if j < at {
                assert(after[i] == before[i] && after[j] == before[j]);
            } else if j == at {
                assert(after[i] == before[i]);
            } else if i < at {
                assert(after[i] == before[i] && after[j] == before[j - 1]);
            } else if i == at {
                assert(after[j] == before[j - 1]);
                if j - 1 > at {
                    numbers_less_transitive(value, before[at as int], before[j - 1]);
                }
            } else {
                assert(after[i] == before[i - 1] && after[j] == before[j - 1]);
            }
        }
        assert forall|v: Seq<u64>| after.contains(v) <==> before.contains(v) || v == value by {
            if after.contains(v) {
                let i = choose|i: int| 0 <= i < after.len() && after[i] == v;
                if i < at {
                    assert(before[i] == v);
                } else if i > at {
                    assert(before[i - 1] == v);
                }
            }
            if before.contains(v) {
                let i = choose|i: int| 0 <= i < before.len() && before[i] == v;
                if i < at {
                    assert(after[i] == v);
                } else {
                    assert(after[i + 1] == v);
                }
            }
            if v == value {
                assert(after[at as int] == v);
            }
        }
    }
}

// ---------------------------------------------------------------------------
// Deriving
// ---------------------------------------------------------------------------

/// The ordered role suffixes that one target declaration needs.
pub open spec fn suffixes_of(entry: TensorModel) -> Seq<Seq<char>> {
    match entry.fusion {
        None => seq![Seq::empty()],
        Some(fusion) => Seq::new(
            (fusion.groups * fusion.parts.len()) as nat,
            |k: int|
                fusion.run_role(k / fusion.parts.len() as int, k % fusion.parts.len() as int),
        ),
    }
}

/// Whether a role, without a suffix, is an instance of a pattern with these
/// values.
pub open spec fn reads(
    pattern: Seq<char>,
    role: Seq<char>,
    suffix: Seq<char>,
    values: Seq<u64>,
) -> bool {
    ends_with(role, suffix) && captured(pattern, role.take(role.len() - suffix.len())) == Some(
        values,
    )
}

/// Whether one of the first roles and suffixes reads as these values: any
/// suffix on the first `upto` roles, one of the first `part` on the next.
pub open spec fn read_upto(
    entry: TensorModel,
    runs: Seq<SourceModel>,
    values: Seq<u64>,
    upto: int,
    part: int,
) -> bool {
    exists|i: int, j: int|
        0 <= i < runs.len() && 0 <= j < suffixes_of(entry).len() && (i < upto || (i == upto && j
            < part)) && #[trigger] reads(entry.role, runs[i].role, suffixes_of(entry)[j], values)
}

/// The hole values that a declaration covers: what the roles that the source
/// carries read as, in rising order.
pub open spec fn values_of(entry: TensorModel, runs: Seq<SourceModel>) -> Seq<Seq<u64>> {
    choose|list: Seq<Seq<u64>>|
        rising_numbers(list) && forall|v: Seq<u64>| #[trigger]
            list.contains(v) <==> read_upto(entry, runs, v, runs.len() as int, 0)
}

/// The runs under the first `upto` suffixes of a base role, or the first role
/// that the source does not carry.
pub open spec fn picked(
    runs: Seq<SourceModel>,
    base: Seq<char>,
    suffixes: Seq<Seq<char>>,
    upto: int,
) -> Result<Seq<SourceModel>, Seq<char>>
    decreases upto,
{
    if upto <= 0 {
        Ok(Seq::empty())
    } else {
        match picked(runs, base, suffixes, upto - 1) {
            Err(role) => Err(role),
            Ok(found) => {
                let role = base + suffixes[upto - 1];
                if carries(runs, role) {
                    Ok(found.push(run_with(runs, role)))
                } else {
                    Err(role)
                }
            },
        }
    }
}

/// The run of a role.
pub open spec fn run_with(runs: Seq<SourceModel>, role: Seq<char>) -> SourceModel {
    runs[choose|i: int| 0 <= i < runs.len() && (#[trigger] runs[i]).role == role]
}

/// Why a run does not go with the first.
pub enum Clash {
    Reason(ReasonModel),
    Fault(FaultModel),
}

/// What keeps the first `upto` runs from being concatenated.
pub open spec fn clash(name: Seq<char>, runs: Seq<SourceModel>, upto: int) -> Option<Clash>
    decreases upto,
{
    if upto <= 0 {
        None
    } else {
        match clash(name, runs, upto - 1) {
            Some(clash) => Some(clash),
            None => {
                let run = runs[upto - 1];
                if run.dtype != runs[0].dtype {
                    Some(
                        Clash::Reason(
                            ReasonModel::MixedDtypes {
                                name,
                                first: runs[0].dtype,
                                other: run.dtype,
                            },
                        ),
                    )
                } else if run.row_shape != runs[0].row_shape {
                    Some(Clash::Reason(ReasonModel::MixedRows { name }))
                } else if run.permute != runs[0].permute {
                    Some(Clash::Fault(FaultModel::MixedPermutes { name }))
                } else {
                    None
                }
            },
        }
    }
}

/// The transform between two declared permutes, target behind the inverse of
/// source; `None` where both are there and differ.
pub open spec fn transform_between(
    source: Option<PermuteModel>,
    target: Option<PermuteModel>,
) -> Option<TransformModel> {
    match (source, target) {
        (None, None) => Some(TransformModel::Identity),
        (Some(s), Some(t)) => if s == t {
            Some(TransformModel::Identity)
        } else {
            None
        },
        (None, Some(t)) => Some(TransformModel::Forward(t)),
        (Some(s), None) => Some(TransformModel::Inverse(s)),
    }
}

/// What deriving one tensor comes to.
pub enum Derivation {
    Tensor(DerivedModel),
    Clash(Clash),
}

/// A target tensor made of runs.
pub open spec fn derivation(
    name: Seq<char>,
    runs: Seq<SourceModel>,
    target: Option<PermuteModel>,
) -> Derivation {
    if runs.len() == 0 {
        Derivation::Clash(Clash::Reason(ReasonModel::NoRuns))
    } else {
        match clash(name, runs, runs.len() as int) {
            Some(clash) => Derivation::Clash(clash),
            None => match transform_between(runs[0].permute, target) {
                None => Derivation::Clash(Clash::Fault(FaultModel::TwoPermutes { name })),
                Some(transform) => Derivation::Tensor(
                    DerivedModel {
                        name,
                        dtype: runs[0].dtype,
                        shape: seq![row_sum(runs, runs.len() as int) as u64] + runs[0].row_shape,
                        runs,
                        transform,
                    },
                ),
            },
        }
    }
}

/// What deriving the tensors so far comes to.
pub enum Progress {
    Going(Seq<DerivedModel>),
    Done(Result<DecisionModel, FaultModel>),
}

/// One more tensor: the one that a declaration names for given hole values.
pub open spec fn one_more(
    tensors: Seq<DerivedModel>,
    entry: TensorModel,
    runs: Seq<SourceModel>,
    values: Seq<u64>,
) -> Progress {
    let suffixes = suffixes_of(entry);
    match (instantiated(entry.pattern, values), instantiated(entry.role, values)) {
        (Some(name), Some(base)) => match picked(runs, base, suffixes, suffixes.len() as int) {
            Err(role) => Progress::Done(Ok(DecisionModel::Conversion(ReasonModel::NoBytes { role }))),
            Ok(found) => match derivation(name, found, entry.permute) {
                Derivation::Tensor(tensor) => Progress::Going(tensors.push(tensor)),
                Derivation::Clash(Clash::Reason(reason)) => Progress::Done(
                    Ok(DecisionModel::Conversion(reason)),
                ),
                Derivation::Clash(Clash::Fault(fault)) => Progress::Done(Err(fault)),
            },
        },
        _ => Progress::Done(Err(FaultModel::SourceMismatch)),
    }
}

/// The tensors of one declaration, for the first `upto` of its hole values.
pub open spec fn entry_progress(
    tensors: Seq<DerivedModel>,
    entry: TensorModel,
    runs: Seq<SourceModel>,
    list: Seq<Seq<u64>>,
    upto: int,
) -> Progress
    decreases upto,
{
    if upto <= 0 {
        Progress::Going(tensors)
    } else {
        match entry_progress(tensors, entry, runs, list, upto - 1) {
            Progress::Going(found) => one_more(found, entry, runs, list[upto - 1]),
            done => done,
        }
    }
}

/// The tensors of the first `upto` declarations.
pub open spec fn target_progress(
    target: ContractModel,
    runs: Seq<SourceModel>,
    upto: int,
) -> Progress
    decreases upto,
{
    if upto <= 0 {
        Progress::Going(Seq::empty())
    } else {
        match target_progress(target, runs, upto - 1) {
            Progress::Going(tensors) => {
                let entry = target.tensors[upto - 1];
                let list = values_of(entry, runs);
                if list.len() == 0 && entry.required {
                    Progress::Done(
                        Ok(DecisionModel::Conversion(ReasonModel::Required { role: entry.role })),
                    )
                } else {
                    entry_progress(tensors, entry, runs, list, list.len() as int)
                }
            },
            done => done,
        }
    }
}

/// Whether a role is among the runs of a derived tensor.
pub open spec fn placed(tensors: Seq<DerivedModel>, role: Seq<char>) -> bool {
    exists|t: int| 0 <= t < tensors.len() && carries((#[trigger] tensors[t]).runs, role)
}

/// The least of the first `upto` roles that no derived tensor has a place for.
pub open spec fn orphan(tensors: Seq<DerivedModel>, runs: Seq<SourceModel>, upto: int) -> Option<
    Seq<char>,
>
    decreases upto,
{
    if upto <= 0 {
        None
    } else {
        let role = runs[upto - 1].role;
        match orphan(tensors, runs, upto - 1) {
            None => if placed(tensors, role) {
                None
            } else {
                Some(role)
            },
            Some(least) => if !placed(tensors, role) && bytes_less(
                encode_utf8(role),
                encode_utf8(least),
            ) {
                Some(role)
            } else {
                Some(least)
            },
        }
    }
}

/// The names of the first `upto` tensors that are re-arranged inside.
pub open spec fn rearranged(tensors: Seq<DerivedModel>, upto: int) -> Seq<Seq<char>>
    decreases upto,
{
    if upto <= 0 {
        Seq::empty()
    } else if tensors[upto - 1].transform is Identity {
        rearranged(tensors, upto - 1)
    } else {
        rearranged(tensors, upto - 1).push(tensors[upto - 1].name)
    }
}

/// The decision over the runs that a source carries.
pub open spec fn decision(runs: Seq<SourceModel>, target: ContractModel) -> Result<
    DecisionModel,
    FaultModel,
> {
    match target_progress(target, runs, target.tensors.len() as int) {
        Progress::Done(outcome) => outcome,
        Progress::Going(tensors) => if tensors.len() == 0 {
            Ok(DecisionModel::Conversion(ReasonModel::NothingDescribed))
        } else {
            match orphan(tensors, runs, runs.len() as int) {
                Some(role) => Ok(DecisionModel::Conversion(ReasonModel::NoPlace { role })),
                None => {
                    let moved = rearranged(tensors, tensors.len() as int);
                    if moved.len() == 0 {
                        Ok(DecisionModel::RunPreserving(tensors))
                    } else {
                        Ok(DecisionModel::Rearranged { tensors, rearranged: moved })
                    }
                },
            }
        },
    }
}

/// The decision for one file and one target layout.
pub open spec fn decided(
    source: ContractModel,
    tensors: Seq<InventoryModel>,
    target: ContractModel,
) -> Result<DecisionModel, FaultModel> {
    match runs_of_file(source, tensors) {
        Err(fault) => Err(fault),
        Ok(runs) => decision(runs, target),
    }
}

/// Every source role is spoken for: a layout that is served has a place for
/// every run of the source.
pub proof fn nothing_is_dropped(
    source: ContractModel,
    tensors: Seq<InventoryModel>,
    target: ContractModel,
    role: Seq<char>,
)
    requires
        runs_of_file(source, tensors) is Ok,
        carries(runs_of_file(source, tensors)->Ok_0, role),
        decided(source, tensors, target) is Ok,
    ensures
        match decided(source, tensors, target)->Ok_0 {
            DecisionModel::RunPreserving(derived) => placed(derived, role),
            DecisionModel::Rearranged { tensors: derived, .. } => placed(derived, role),
            DecisionModel::Conversion(_) => true,
        },
{
    let runs = runs_of_file(source, tensors)->Ok_0;
    let i = choose|i: int| 0 <= i < runs.len() && (#[trigger] runs[i]).role == role;
    if let Progress::Going(derived) = target_progress(target, runs, target.tensors.len() as int) {
        no_orphan(derived, runs, i, runs.len() as int);
    } else {
        done_is_conversion(target, runs, target.tensors.len() as int);
    }
}

proof fn no_orphan(tensors: Seq<DerivedModel>, runs: Seq<SourceModel>, i: int, upto: int)
    requires
        0 <= i < upto <= runs.len(),
    ensures
        orphan(tensors, runs, upto) is None ==> placed(tensors, runs[i].role),
    decreases upto,
{
    if i < upto - 1 {
        no_orphan(tensors, runs, i, upto - 1);
    }
}

pub(crate) proof fn done_is_conversion(target: ContractModel, runs: Seq<SourceModel>, upto: int)
    requires
        target_progress(target, runs, upto) is Done,
    ensures
        target_progress(target, runs, upto)->Done_0 matches Ok(decision) ==> decision is Conversion,
    decreases upto,
{
    if upto > 0 {
        match target_progress(target, runs, upto - 1) {
            Progress::Done(_) => {
                done_is_conversion(target, runs, upto - 1);
            },
            Progress::Going(tensors) => {
                let entry = target.tensors[upto - 1];
                let list = values_of(entry, runs);
                if !(list.len() == 0 && entry.required) {
                    entry_done_is_conversion(tensors, entry, runs, list, list.len() as int);
                }
            },
        }
    }
}

proof fn entry_done_is_conversion(
    tensors: Seq<DerivedModel>,
    entry: TensorModel,
    runs: Seq<SourceModel>,
    list: Seq<Seq<u64>>,
    upto: int,
)
    ensures
        entry_progress(tensors, entry, runs, list, upto) matches Progress::Done(Ok(decision))
            ==> decision is Conversion,
    decreases upto,
{
    if upto > 0 {
        entry_done_is_conversion(tensors, entry, runs, list, upto - 1);
    }
}

// ---------------------------------------------------------------------------
// Deciding
// ---------------------------------------------------------------------------

/// The ordered role suffixes that one target declaration needs, in file order.
fn entry_suffixes(entry: &TensorPattern) -> (suffixes: Vec<String>)
    ensures
        strings(suffixes@) == suffixes_of(entry@),
{
    let mut suffixes: Vec<String> = Vec::new();
    let fusion = match entry.fusion() {
        Some(fusion) => fusion,
        None => {
            suffixes.push(String::new());
            assert(strings(suffixes@)[0] =~= Seq::<char>::empty());
            assert(strings(suffixes@) =~= suffixes_of(entry@));
            return suffixes;
        },
    };
    let ghost model = fusion@;
    let parts = fusion.parts();
    let groups: u64 = fusion.groups();
    let ghost n = parts@.len() as int;
    let mut group: u64 = 0;
    while group < groups
        invariant
            group <= groups,
            model == fusion@,
            groups == model.groups,
            n == parts@.len(),
            n == model.parts.len(),
            forall|i: int| 0 <= i < n ==> #[trigger] model.parts[i] == parts@[i]@,
            suffixes@.len() == group * n,
            forall|k: int|
                0 <= k < suffixes@.len() ==> (#[trigger] suffixes@[k])@ == model.run_role(
                    k / n,
                    k % n,
                ),
        decreases groups - group,
    {
        let mut at: usize = 0;
        while at < parts.len()
            invariant
                at <= parts@.len(),
                group < groups,
                model == fusion@,
                groups == model.groups,
                n == parts@.len(),
                n == model.parts.len(),
                forall|i: int| 0 <= i < n ==> #[trigger] model.parts[i] == parts@[i]@,
                suffixes@.len() == group * n + at,
                forall|k: int|
                    0 <= k < suffixes@.len() ==> (#[trigger] suffixes@[k])@ == model.run_role(
                        k / n,
                        k % n,
                    ),
            decreases parts@.len() - at,
        {
            let part = &parts[at];
            assert(model.parts[at as int] == part@);
            let mut suffix = String::new();
            if chars_of(part.role()).len() > 0 {
                suffix.append("#");
                suffix.append(part.role());
            }
            if groups > 1 {
                suffix.append("@");
                push_decimal(&mut suffix, group);
            }
            proof {
                let k = group * n + at;
                vstd::arithmetic::div_mod::lemma_fundamental_div_mod_converse(
                    k,
                    n,
                    group as int,
                    at as int,
                );
                assert(suffix@ =~= model.run_role(group as int, at as int));
            }
            suffixes.push(suffix);
            at += 1;
        }
        assert(group * n + n == (group + 1) * n) by (nonlinear_arith);
        group = group + 1;
    }
    assert(strings(suffixes@) =~= suffixes_of(entry@));
    suffixes
}

/// The part of a role before a suffix.
fn before_suffix(role: &str, suffix: &str) -> (base: Option<String>)
    ensures
        match base {
            Some(b) => ends_with(role@, suffix@) && b@ == role@.take(role@.len() - suffix@.len()),
            None => !ends_with(role@, suffix@),
        },
{
    let chars = chars_of(role);
    let wanted = chars_of(suffix);
    if chars.len() < wanted.len() {
        return None;
    }
    let from: usize = chars.len() - wanted.len();
    let end = vstd::slice::slice_subrange(&chars, from, chars.len());
    assert(end@ =~= role@.skip(from as int));
    if !same_chars(end, &wanted) {
        return None;
    }
    let base = vstd::slice::slice_subrange(&chars, 0, from);
    assert(base@ =~= role@.take(from as int));
    Some(string_of(base))
}

/// The hole values that a declaration covers.
#[verifier::loop_isolation(false)]
fn find_values(entry: &TensorPattern, runs: &Vec<SourceRun>, suffixes: &Vec<String>) -> (list: Vec<
    Vec<u64>,
>)
    requires
        entry.wf(),
        strings(suffixes@) == suffixes_of(entry@),
    ensures
        number_lists(list@) == values_of(entry@, source_models(runs@)),
{
    let ghost e = entry@;
    let ghost models = source_models(runs@);
    let ghost ends = suffixes_of(e);
    let mut list: Vec<Vec<u64>> = Vec::new();
    let mut at: usize = 0;
    while at < runs.len()
        invariant
            at <= runs@.len(),
            rising_numbers(number_lists(list@)),
            forall|v: Seq<u64>| #[trigger]
                number_lists(list@).contains(v) <==> read_upto(e, models, v, at as int, 0),
        decreases runs@.len() - at,
    {
        let run = &runs[at];
        assert(models[at as int] == run@);
        let mut part: usize = 0;
        while part < suffixes.len()
            invariant
                part <= suffixes@.len(),
                at < runs@.len(),
                rising_numbers(number_lists(list@)),
                forall|v: Seq<u64>| #[trigger]
                    number_lists(list@).contains(v) <==> read_upto(
                        e,
                        models,
                        v,
                        at as int,
                        part as int,
                    ),
            decreases suffixes@.len() - part,
        {
            let ghost before = number_lists(list@);
            let ghost role = models[at as int].role;
            assert(ends[part as int] == suffixes@[part as int]@);
            let ghost mut read: Option<Seq<u64>> = None;
            if let Some(base) = before_suffix(run.role(), suffixes[part].as_str()) {
                if let Some(values) = entry.role().captures(base.as_str()) {
                    proof {
                        read = Some(values@);
                    }
                    insert_numbers(&mut list, values);
                }
            }
            proof {
                assert forall|v: Seq<u64>| #[trigger]
                    number_lists(list@).contains(v) <==> read_upto(
                        e,
                        models,
                        v,
                        at as int,
                        part + 1,
                    ) by {
                    assert(number_lists(list@).contains(v) <==> before.contains(v) || read
                        == Some(v));
                    assert(reads(e.role, role, ends[part as int], v) <==> read == Some(v));
                    if read_upto(e, models, v, at as int, part as int) {
                        let (i, j) = choose|i: int, j: int|
                            0 <= i < models.len() && 0 <= j < ends.len() && (i < at || (i == at && j
                                < part)) && #[trigger] reads(e.role, models[i].role, ends[j], v);
                        assert(reads(e.role, models[i].role, ends[j], v));
                    }
                    if read == Some(v) {
                        assert(reads(e.role, models[at as int].role, ends[part as int], v));
                    }
                    if read_upto(e, models, v, at as int, part + 1) {
                        let (i, j) = choose|i: int, j: int|
                            0 <= i < models.len() && 0 <= j < ends.len() && (i < at || (i == at && j
                                < part + 1)) && #[trigger] reads(
                                e.role,
                                models[i].role,
                                ends[j],
                                v,
                            );
                        if i == at && j == part {
                            assert(read == Some(v));
                        } else {
                            assert(read_upto(e, models, v, at as int, part as int));
                        }
                    }
                }
            }
            part += 1;
        }
        proof {
            assert forall|v: Seq<u64>| #[trigger]
                number_lists(list@).contains(v) <==> read_upto(e, models, v, at + 1, 0) by {
                assert(number_lists(list@).contains(v) <==> read_upto(
                    e,
                    models,
                    v,
                    at as int,
                    part as int,
                ));
                if read_upto(e, models, v, at as int, part as int) {
                    let (i, j) = choose|i: int, j: int|
                        0 <= i < models.len() && 0 <= j < ends.len() && (i < at || (i == at && j
                            < part)) && #[trigger] reads(e.role, models[i].role, ends[j], v);
                    assert(reads(e.role, models[i].role, ends[j], v));
                }
                if read_upto(e, models, v, at + 1, 0) {
                    let (i, j) = choose|i: int, j: int|
                        0 <= i < models.len() && 0 <= j < ends.len() && (i < at + 1 || (i == at + 1
                            && j < 0)) && #[trigger] reads(e.role, models[i].role, ends[j], v);
                    assert(reads(e.role, models[i].role, ends[j], v));
                }
            }
        }
        at += 1;
    }
    proof {
        let chosen = values_of(e, models);
        let built = number_lists(list@);
        assert(rising_numbers(built) && forall|v: Seq<u64>| #[trigger]
            built.contains(v) <==> read_upto(e, models, v, models.len() as int, 0));
        one_rising_list(built, chosen);
    }
    list
}

/// The runs under the suffixes of a base role.
fn pick(runs: &Vec<SourceRun>, base: &String, suffixes: &Vec<String>) -> (found: Result<
    Vec<SourceRun>,
    String,
>)
    requires
        distinct_roles(source_models(runs@)),
    ensures
        ({
            let expected = picked(
                source_models(runs@),
                base@,
                strings(suffixes@),
                suffixes@.len() as int,
            );
            match found {
                Ok(f) => expected == Ok::<Seq<SourceModel>, Seq<char>>(source_models(f@)),
                Err(role) => expected == Err::<Seq<SourceModel>, Seq<char>>(role@),
            }
        }),
{
    let ghost models = source_models(runs@);
    let ghost ends = strings(suffixes@);
    let ghost n = ends.len() as int;
    let mut found: Vec<SourceRun> = Vec::new();
    let mut at: usize = 0;
    assert(source_models(found@) =~= Seq::<SourceModel>::empty());
    while at < suffixes.len()
        invariant
            at <= suffixes@.len(),
            models == source_models(runs@),
            ends == strings(suffixes@),
            n == ends.len(),
            distinct_roles(models),
            picked(models, base@, ends, at as int) == Ok::<Seq<SourceModel>, Seq<char>>(
                source_models(found@),
            ),
        decreases suffixes@.len() - at,
    {
        assert(ends[at as int] == suffixes@[at as int]@);
        proof {
            if picked(models, base@, ends, at + 1) is Err {
                pick_stays(models, base@, ends, at + 1, n);
            }
        }
        let mut role = base.clone();
        role.append(suffixes[at].as_str());
        match run_of(runs, role.as_str()) {
            None => {
                return Err(role);
            },
            Some(run) => {
                proof {
                    only_run(models, run@);
                }
                let ghost before = source_models(found@);
                found.push(run.clone());
                assert(source_models(found@) =~= before.push(run@));
            },
        }
        at += 1;
    }
    Ok(found)
}

proof fn pick_stays(
    runs: Seq<SourceModel>,
    base: Seq<char>,
    suffixes: Seq<Seq<char>>,
    low: int,
    high: int,
)
    requires
        0 <= low <= high,
        picked(runs, base, suffixes, low) is Err,
    ensures
        picked(runs, base, suffixes, high) == picked(runs, base, suffixes, low),
    decreases high - low,
{
    if low < high {
        pick_stays(runs, base, suffixes, low, high - 1);
    }
}

proof fn only_run(runs: Seq<SourceModel>, run: SourceModel)
    requires
        distinct_roles(runs),
        runs.contains(run),
    ensures
        run_with(runs, run.role) == run,
        carries(runs, run.role),
{
    let k = choose|k: int| 0 <= k < runs.len() && runs[k] == run;
    assert(runs[k].role == run.role);
    let i = choose|i: int| 0 <= i < runs.len() && (#[trigger] runs[i]).role == run.role;
    if i < k {
        assert(runs[i].role != runs[k].role);
    } else if k < i {
        assert(runs[k].role != runs[i].role);
    }
}

proof fn row_sum_grows(runs: Seq<SourceModel>, low: int, high: int)
    requires
        low <= high,
    ensures
        row_sum(runs, low) <= row_sum(runs, high),
    decreases high - low,
{
    if low < high {
        row_sum_grows(runs, low, high - 1);
    }
}

fn same_permute(a: Option<&Permute>, b: Option<&Permute>) -> (same: bool)
    ensures
        same == (match a {
            Some(p) => Some(p@),
            None => None,
        } == match b {
            Some(p) => Some(p@),
            None => None,
        }),
{
    match (a, b) {
        (None, None) => true,
        (Some(x), Some(y)) => same_dims(&x.view, &y.view) && same_axes(&x.axes, &y.axes),
        _ => false,
    }
}

fn same_dims(a: &Vec<Dim>, b: &Vec<Dim>) -> (same: bool)
    ensures
        same == (a@ == b@),
{
    if a.len() != b.len() {
        return false;
    }
    let mut at: usize = 0;
    while at < a.len()
        invariant
            at <= a@.len(),
            a@.len() == b@.len(),
            forall|i: int| 0 <= i < at ==> #[trigger] a@[i] == b@[i],
        decreases a@.len() - at,
    {
        if a[at] != b[at] {
            assert(a@[at as int] != b@[at as int]);
            return false;
        }
        at += 1;
    }
    assert(a@ =~= b@);
    true
}

fn same_axes(a: &Vec<usize>, b: &Vec<usize>) -> (same: bool)
    ensures
        same == (a@ == b@),
{
    if a.len() != b.len() {
        return false;
    }
    let mut at: usize = 0;
    while at < a.len()
        invariant
            at <= a@.len(),
            a@.len() == b@.len(),
            forall|i: int| 0 <= i < at ==> #[trigger] a@[i] == b@[i],
        decreases a@.len() - at,
    {
        if a[at] != b[at] {
            assert(a@[at as int] != b@[at as int]);
            return false;
        }
        at += 1;
    }
    assert(a@ =~= b@);
    true
}

fn same_numbers(a: &[u64], b: &[u64]) -> (same: bool)
    ensures
        same == (a@ == b@),
{
    if a.len() != b.len() {
        return false;
    }
    let mut at: usize = 0;
    while at < a.len()
        invariant
            at <= a@.len(),
            a@.len() == b@.len(),
            forall|i: int| 0 <= i < at ==> #[trigger] a@[i] == b@[i],
        decreases a@.len() - at,
    {
        if a[at] != b[at] {
            assert(a@[at as int] != b@[at as int]);
            return false;
        }
        at += 1;
    }
    assert(a@ =~= b@);
    true
}

/// Why a tensor could not be derived: a fact about the weights, or a limit of
/// this vocabulary.
enum Failure {
    Reason(Reason),
    Fault(AdapterError),
}

impl View for Failure {
    type V = Clash;

    closed spec fn view(&self) -> Clash {
        match self {
            Failure::Reason(reason) => Clash::Reason(reason@),
            Failure::Fault(fault) => Clash::Fault(fault@),
        }
    }
}

proof fn clash_stays(name: Seq<char>, runs: Seq<SourceModel>, low: int, high: int)
    requires
        0 <= low <= high,
        clash(name, runs, low) is Some,
    ensures
        clash(name, runs, high) == clash(name, runs, low),
    decreases high - low,
{
    if low < high {
        clash_stays(name, runs, low, high - 1);
    }
}

/// The rows of runs, together.
fn count_rows(runs: &Vec<SourceRun>) -> (rows: u64)
    requires
        row_sum(source_models(runs@), runs@.len() as int) <= u64::MAX,
    ensures
        rows == row_sum(source_models(runs@), runs@.len() as int),
{
    let ghost models = source_models(runs@);
    let mut rows: u64 = 0;
    let mut at: usize = 0;
    while at < runs.len()
        invariant
            at <= runs@.len(),
            models == source_models(runs@),
            row_sum(models, runs@.len() as int) <= u64::MAX,
            rows == row_sum(models, at as int),
        decreases runs@.len() - at,
    {
        let run = &runs[at];
        proof {
            assert(models[at as int] == run@);
            row_sum_grows(models, at + 1, runs@.len() as int);
        }
        rows = rows + run.rows();
        at += 1;
    }
    rows
}

/// Checks that runs can be concatenated.
fn check_runs(name: &String, runs: &Vec<SourceRun>) -> (outcome: Result<(), Failure>)
    requires
        runs@.len() > 0,
    ensures
        match outcome {
            Ok(_) => clash(name@, source_models(runs@), runs@.len() as int) is None,
            Err(failure) => clash(name@, source_models(runs@), runs@.len() as int) == Some(failure@),
        },
{
    let ghost models = source_models(runs@);
    let ghost n = models.len() as int;
    let first = &runs[0];
    assert(models[0] == first@);
    let dtype = chars_of(first.dtype());
    let mut at: usize = 0;
    while at < runs.len()
        invariant
            at <= runs@.len(),
            models == source_models(runs@),
            n == models.len(),
            n > 0,
            models[0] == first@,
            dtype@ == first@.dtype,
            clash(name@, models, at as int) is None,
        decreases runs@.len() - at,
    {
        let run = &runs[at];
        proof {
            assert(models[at as int] == run@);
            if clash(name@, models, at + 1) is Some {
                clash_stays(name@, models, at + 1, n);
            }
        }
        if !same_chars(&chars_of(run.dtype()), &dtype) {
            return Err(
                Failure::Reason(
                    Reason::MixedDtypes {
                        name: name.clone(),
                        first: first.dtype().to_string(),
                        other: run.dtype().to_string(),
                    },
                ),
            );
        }
        if !same_numbers(run.row_shape(), first.row_shape()) {
            return Err(Failure::Reason(Reason::MixedRows { name: name.clone() }));
        }
        if !same_permute(run.permute(), first.permute()) {
            return Err(Failure::Fault(AdapterError::MixedPermutes { name: name.clone() }));
        }
        at += 1;
    }
    Ok(())
}

fn derived_tensor(name: String, runs: Vec<SourceRun>, target: Option<&Permute>) -> (tensor: Result<
    DerivedTensor,
    Failure,
>)
    requires
        derivation(
            name@,
            source_models(runs@),
            match target {
                Some(p) => Some(p@),
                None => None,
            },
        ) is Tensor ==> row_sum(source_models(runs@), runs@.len() as int) <= u64::MAX,
    ensures
        ({
            let expected = derivation(
                name@,
                source_models(runs@),
                match target {
                    Some(p) => Some(p@),
                    None => None,
                },
            );
            match tensor {
                Ok(t) => expected == Derivation::Tensor(t@),
                Err(failure) => expected == Derivation::Clash(failure@),
            }
        }),
{
    let ghost models = source_models(runs@);
    if runs.len() == 0 {
        return Err(Failure::Reason(Reason::NoRuns));
    }
    check_runs(&name, &runs)?;
    let first = &runs[0];
    assert(models[0] == first@);
    let transform = match (first.permute(), target) {
        (None, None) => Transform::Identity,
        (None, Some(permute)) => Transform::Forward(permute.clone()),
        (Some(permute), None) => Transform::Inverse(permute.clone()),
        (Some(source), Some(permute)) => {
            if !same_permute(Some(source), Some(permute)) {
                return Err(Failure::Fault(AdapterError::TwoPermutes { name }));
            }
            Transform::Identity
        },
    };
    let rows: u64 = count_rows(&runs);
    let mut shape: Vec<u64> = Vec::new();
    shape.push(rows);
    shape.extend_from_slice(first.row_shape());
    let dtype = first.dtype().to_string();
    assert(shape@ =~= seq![rows] + models[0].row_shape);
    Ok(DerivedTensor { name, dtype, shape, runs, transform })
}

/// What stops deriving.
enum Stop {
    Conversion(Reason),
    Fault(AdapterError),
}

impl Stop {
    spec fn outcome(&self) -> Result<DecisionModel, FaultModel> {
        match self {
            Stop::Conversion(reason) => Ok(DecisionModel::Conversion(reason@)),
            Stop::Fault(fault) => Err(fault@),
        }
    }
}

/// Derives the tensor that a declaration names for given hole values.
fn derive_one(
    tensors: &mut Vec<DerivedTensor>,
    entry: &TensorPattern,
    runs: &Vec<SourceRun>,
    suffixes: &Vec<String>,
    values: &Vec<u64>,
) -> (outcome: Result<(), Stop>)
    requires
        entry.wf(),
        strings(suffixes@) == suffixes_of(entry@),
        distinct_roles(source_models(runs@)),
        rows_add_up(entry@, source_models(runs@), values@),
    ensures
        ({
            let expected = one_more(
                derived_models(old(tensors)@),
                entry@,
                source_models(runs@),
                values@,
            );
            match outcome {
                Ok(_) => expected == Progress::Going(derived_models(final(tensors)@)),
                Err(stop) => expected == Progress::Done(stop.outcome()),
            }
        }),
{
    let name = match entry.pattern().instantiate(values) {
        Some(name) => name,
        None => {
            return Err(Stop::Fault(AdapterError::SourceMismatch));
        },
    };
    let base = match entry.role().instantiate(values) {
        Some(base) => base,
        None => {
            return Err(Stop::Fault(AdapterError::SourceMismatch));
        },
    };
    let found = match pick(runs, &base, suffixes) {
        Ok(found) => found,
        Err(role) => {
            return Err(Stop::Conversion(Reason::NoBytes { role }));
        },
    };
    match derived_tensor(name, found, entry.permute()) {
        Ok(tensor) => {
            let ghost before = derived_models(tensors@);
            let ghost model = tensor@;
            tensors.push(tensor);
            assert(derived_models(tensors@) =~= before.push(model));
            Ok(())
        },
        Err(Failure::Reason(reason)) => Err(Stop::Conversion(reason)),
        Err(Failure::Fault(fault)) => Err(Stop::Fault(fault)),
    }
}

proof fn entry_stop_stays(
    tensors: Seq<DerivedModel>,
    entry: TensorModel,
    runs: Seq<SourceModel>,
    list: Seq<Seq<u64>>,
    low: int,
    high: int,
)
    requires
        0 <= low <= high,
        entry_progress(tensors, entry, runs, list, low) is Done,
    ensures
        entry_progress(tensors, entry, runs, list, high) == entry_progress(
            tensors,
            entry,
            runs,
            list,
            low,
        ),
    decreases high - low,
{
    if low < high {
        entry_stop_stays(tensors, entry, runs, list, low, high - 1);
    }
}

proof fn stop_stays(target: ContractModel, runs: Seq<SourceModel>, low: int, high: int)
    requires
        0 <= low <= high,
        target_progress(target, runs, low) is Done,
    ensures
        target_progress(target, runs, high) == target_progress(target, runs, low),
    decreases high - low,
{
    if low < high {
        stop_stays(target, runs, low, high - 1);
    }
}

/// Derives the tensors of one declaration.
fn derive_entry(
    tensors: &mut Vec<DerivedTensor>,
    entry: &TensorPattern,
    runs: &Vec<SourceRun>,
) -> (outcome: Result<(), Stop>)
    requires
        entry.wf(),
        distinct_roles(source_models(runs@)),
        entry_rows_fit(derived_models(old(tensors)@), entry@, source_models(runs@)),
    ensures
        ({
            let list = values_of(entry@, source_models(runs@));
            let expected = if list.len() == 0 && entry@.required {
                Progress::Done(
                    Ok(DecisionModel::Conversion(ReasonModel::Required { role: entry@.role })),
                )
            } else {
                entry_progress(
                    derived_models(old(tensors)@),
                    entry@,
                    source_models(runs@),
                    list,
                    list.len() as int,
                )
            };
            match outcome {
                Ok(_) => expected == Progress::Going(derived_models(final(tensors)@)),
                Err(stop) => expected == Progress::Done(stop.outcome()),
            }
        }),
{
    let ghost models = source_models(runs@);
    let ghost start = derived_models(tensors@);
    let suffixes = entry_suffixes(entry);
    assert(strings(suffixes@).len() == suffixes@.len());
    let values = find_values(entry, runs, &suffixes);
    let ghost list = values_of(entry@, models);
    let ghost n = list.len() as int;
    if values.len() == 0 && entry.is_required() {
        return Err(
            Stop::Conversion(Reason::Required { role: entry.role().as_str().to_string() }),
        );
    }
    let mut at: usize = 0;
    while at < values.len()
        invariant
            at <= values@.len(),
            entry.wf(),
            models == source_models(runs@),
            start == derived_models(old(tensors)@),
            strings(suffixes@) == suffixes_of(entry@),
            suffixes@.len() == suffixes_of(entry@).len(),
            distinct_roles(models),
            entry_rows_fit(start, entry@, models),
            list == number_lists(values@),
            list == values_of(entry@, models),
            n == list.len(),
            !(n == 0 && entry@.required),
            entry_progress(start, entry@, models, list, at as int) == Progress::Going(
                derived_models(tensors@),
            ),
        decreases values@.len() - at,
    {
        proof {
            assert(list[at as int] == values@[at as int]@);
            if entry_progress(start, entry@, models, list, at + 1) is Done {
                entry_stop_stays(start, entry@, models, list, at + 1, n);
            }
        }
        derive_one(tensors, entry, runs, &suffixes, &values[at])?;
        at += 1;
    }
    Ok(())
}

fn is_placed(tensors: &Vec<DerivedTensor>, role: &str) -> (yes: bool)
    ensures
        yes == placed(derived_models(tensors@), role@),
{
    let ghost models = derived_models(tensors@);
    let mut at: usize = 0;
    while at < tensors.len()
        invariant
            at <= tensors@.len(),
            models == derived_models(tensors@),
            forall|t: int| 0 <= t < at ==> !carries((#[trigger] models[t]).runs, role@),
        decreases tensors@.len() - at,
    {
        assert(models[at as int] == tensors@[at as int]@);
        if let Some(run) = run_of(&tensors[at].runs, role) {
            proof {
                let found = source_models(tensors@[at as int].runs@);
                let k = choose|k: int| 0 <= k < found.len() && found[k] == run@;
                assert(found[k].role == role@);
                assert(carries(models[at as int].runs, role@));
            }
            return true;
        }
        at += 1;
    }
    false
}

fn find_orphan(tensors: &Vec<DerivedTensor>, runs: &Vec<SourceRun>) -> (found: Option<String>)
    ensures
        ({
            let expected = orphan(
                derived_models(tensors@),
                source_models(runs@),
                runs@.len() as int,
            );
            match found {
                Some(role) => expected == Some(role@),
                None => expected is None,
            }
        }),
{
    let ghost derived = derived_models(tensors@);
    let ghost models = source_models(runs@);
    let mut least: Option<String> = None;
    let mut at: usize = 0;
    while at < runs.len()
        invariant
            at <= runs@.len(),
            derived == derived_models(tensors@),
            models == source_models(runs@),
            match least {
                Some(role) => orphan(derived, models, at as int) == Some(role@),
                None => orphan(derived, models, at as int) is None,
            },
        decreases runs@.len() - at,
    {
        let run = &runs[at];
        assert(models[at as int] == run@);
        if !is_placed(tensors, run.role()) {
            let less = match &least {
                None => true,
                Some(role) => bytes_before(run.role().as_bytes(), role.as_str().as_bytes()),
            };
            if less {
                least = Some(run.role().to_string());
            }
        }
        at += 1;
    }
    least
}

fn find_rearranged(tensors: &Vec<DerivedTensor>) -> (names: Vec<String>)
    ensures
        strings(names@) == rearranged(derived_models(tensors@), tensors@.len() as int),
{
    let ghost models = derived_models(tensors@);
    let mut names: Vec<String> = Vec::new();
    let mut at: usize = 0;
    assert(strings(names@) =~= Seq::<Seq<char>>::empty());
    while at < tensors.len()
        invariant
            at <= tensors@.len(),
            models == derived_models(tensors@),
            strings(names@) == rearranged(models, at as int),
        decreases tensors@.len() - at,
    {
        let tensor = &tensors[at];
        assert(models[at as int] == tensor@);
        if !tensor.transform.is_identity() {
            let ghost before = strings(names@);
            names.push(tensor.name.clone());
            assert(strings(names@) =~= before.push(tensor@.name));
        }
        at += 1;
    }
    names
}

/// The rows of the tensor that a declaration names for given hole values, if
/// they make one, come to a 64-bit number.
pub open spec fn rows_add_up(
    entry: TensorModel,
    runs: Seq<SourceModel>,
    values: Seq<u64>,
) -> bool {
    let suffixes = suffixes_of(entry);
    match (instantiated(entry.pattern, values), instantiated(entry.role, values)) {
        (Some(name), Some(base)) => picked(runs, base, suffixes, suffixes.len() as int) matches Ok(
            found,
        ) ==> derivation(name, found, entry.permute) is Tensor ==> row_sum(
            found,
            found.len() as int,
        ) <= u64::MAX,
        _ => true,
    }
}

/// The rows of every tensor of one declaration that is come to.
pub open spec fn entry_rows_fit(
    tensors: Seq<DerivedModel>,
    entry: TensorModel,
    runs: Seq<SourceModel>,
) -> bool {
    let list = values_of(entry, runs);
    forall|k: int|
        0 <= k < list.len() && entry_progress(tensors, entry, runs, list, k) is Going
            ==> rows_add_up(entry, runs, #[trigger] list[k])
}

/// The rows of every tensor that is derived fit in 64 bits.
pub open spec fn rows_fit(
    source: ContractModel,
    tensors: Seq<InventoryModel>,
    target: ContractModel,
) -> bool {
    runs_of_file(source, tensors) matches Ok(runs) ==> forall|e: int|
        0 <= e < target.tensors.len() ==> (#[trigger] target_progress(target, runs, e) matches
            Progress::Going(found) ==> entry_rows_fit(found, target.tensors[e], runs))
}

/// Answers "view or convert?" for one file and one target layout, from the two
/// contracts and the source's header alone. Whatever a file lists meets the two
/// bounds: see `an_inventory_can_be_decided`.
pub fn decide(source: &Contract, inventory: &TensorInventory, target: &Contract) -> (outcome: Result<
    Decision,
    AdapterError,
>)
    requires
        source.wf(),
        target.wf(),
        extents_fit(inventory_models(inventory.tensors@)),
        rows_fit(source@, inventory_models(inventory.tensors@), target@),
    ensures
        ({
            let expected = decided(source@, inventory_models(inventory.tensors@), target@);
            match outcome {
                Ok(d) => expected == Ok::<DecisionModel, FaultModel>(d@),
                Err(e) => expected == Err::<DecisionModel, FaultModel>(e@),
            }
        }),
{
    let ghost headers = inventory_models(inventory.tensors@);
    let runs = role_runs(source, inventory)?;
    let ghost models = source_models(runs@);
    let entries = target.tensors();
    let ghost n = entries@.len() as int;
    let mut tensors: Vec<DerivedTensor> = Vec::new();
    let mut at: usize = 0;
    assert(derived_models(tensors@) =~= Seq::<DerivedModel>::empty());
    while at < entries.len()
        invariant
            at <= entries@.len(),
            n == entries@.len(),
            headers == inventory_models(inventory.tensors@),
            target@.tensors == entries@.map_values(|entry: TensorPattern| entry@),
            forall|i: int| 0 <= i < entries@.len() ==> (#[trigger] entries@[i]).wf(),
            models == source_models(runs@),
            distinct_roles(models),
            runs_of_file(source@, headers) == Ok::<Seq<SourceModel>, FaultModel>(models),
            rows_fit(source@, headers, target@),
            decided(source@, headers, target@) == decision(models, target@),
            target_progress(target@, models, at as int) == Progress::Going(
                derived_models(tensors@),
            ),
        decreases entries@.len() - at,
    {
        let entry = &entries[at];
        proof {
            assert(target@.tensors[at as int] == entry@);
            if target_progress(target@, models, at + 1) is Done {
                stop_stays(target@, models, at + 1, n);
            }
        }
        match derive_entry(&mut tensors, entry, &runs) {
            Ok(_) => {},
            Err(Stop::Conversion(reason)) => {
                return Ok(Decision::Conversion { reason });
            },
            Err(Stop::Fault(fault)) => {
                return Err(fault);
            },
        }
        at += 1;
    }
    if tensors.len() == 0 {
        return Ok(Decision::Conversion { reason: Reason::NothingDescribed });
    }
    if let Some(role) = find_orphan(&tensors, &runs) {
        return Ok(Decision::Conversion { reason: Reason::NoPlace { role } });
    }
    let moved = find_rearranged(&tensors);
    let adapter = Adapter { tensors };
    assert(strings(moved@).len() == moved@.len());
    if moved.len() == 0 {
        Ok(Decision::RunPreserving(adapter))
    } else {
        Ok(Decision::Rearranged { adapter, rearranged: moved })
    }
}

} // verus!
