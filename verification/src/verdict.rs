//! Whether a file satisfies a contract, can be converted to it, or neither.
//!
//! A length of zero means that none was supplied: the byte half of the fusion
//! rule is then skipped, while the shape half still applies. The seam floor is
//! not applied: matching asks whether a declaration can apply at all, not where
//! the cuts land.

use crate::contract::{
    governing, stamp_for, stamp_spelling, Contract, ContractModel, Fusion, Permute, TensorModel,
    TensorPattern,
};
use crate::fusion::{share_sum, FusionModel, PartModel};
use crate::sort::{
    byte_strings, in_order, in_order_is, keys_have_an_order, picked, shuffles, sort_stably,
    stable_order, stable_order_of_shuffled,
};
use crate::text::{
    bytes_less, bytes_less_total, bytes_less_transitive, chars_of, decimal, ends_with, has_tail, insert_text, join, joined, push_decimal, same_chars, split, split_at,
    strings, with_text,
};
use crate::trusted::{quotation, quoted};
use vstd::prelude::*;
use vstd::string::*;
use vstd::utf8::encode_utf8;

verus! {

// ---------------------------------------------------------------------------
// Types
// ---------------------------------------------------------------------------

/// One header entry, reduced to what a contract check needs. The element type
/// is in the container's own spelling, the shape outermost axis first.
#[derive(Debug, PartialEq, Eq)]
pub struct InventoryTensor {
    pub name: String,
    pub dtype: String,
    pub shape: Vec<u64>,
    /// The byte extent, zero when none is supplied.
    pub length: u64,
}

/// The value of an [`InventoryTensor`].
#[verifier::ext_equal]
pub struct HeaderModel {
    pub name: Seq<char>,
    pub dtype: Seq<char>,
    pub shape: Seq<u64>,
    pub length: u64,
}

impl View for InventoryTensor {
    type V = HeaderModel;

    open spec fn view(&self) -> HeaderModel {
        HeaderModel {
            name: self.name@,
            dtype: self.dtype@,
            shape: self.shape@,
            length: self.length,
        }
    }
}

/// The values of header entries.
pub open spec fn headers(tensors: Seq<InventoryTensor>) -> Seq<HeaderModel> {
    tensors.map_values(|tensor: InventoryTensor| tensor@)
}

/// One tensor-carrying member of a checkpoint.
#[derive(Debug, PartialEq, Eq)]
pub struct ArtifactFile {
    pub path: String,
    pub tensors: Vec<InventoryTensor>,
}

/// The value of an [`ArtifactFile`].
#[verifier::ext_equal]
pub struct FileModel {
    pub path: Seq<char>,
    pub tensors: Seq<HeaderModel>,
}

impl View for ArtifactFile {
    type V = FileModel;

    open spec fn view(&self) -> FileModel {
        FileModel { path: self.path@, tensors: headers(self.tensors@) }
    }
}

/// The values of members.
pub open spec fn file_models(files: Seq<ArtifactFile>) -> Seq<FileModel> {
    files.map_values(|file: ArtifactFile| file@)
}

/// A successful contract match over one file.
#[derive(Debug, PartialEq, Eq)]
pub struct FileMatch {
    pub stamp: String,
    /// The tensors explained, not the declarations satisfied.
    pub matched: usize,
}

/// Why a contract does not describe a file.
#[derive(Clone, Copy, Debug, PartialEq, Eq, Structural)]
pub enum MismatchKind {
    /// Routinely a packaging difference rather than a different model.
    Dtype,
    Rank,
    Fusion,
    Permute,
    Required,
    /// The contract claims no tensor of the file at all.
    NothingExplained,
}

/// The stable label of a mismatch.
pub open spec fn mismatch_label(kind: MismatchKind) -> Seq<char> {
    match kind {
        MismatchKind::Dtype => "dtype"@,
        MismatchKind::Rank => "rank"@,
        MismatchKind::Fusion => "fusion"@,
        MismatchKind::Permute => "permute"@,
        MismatchKind::Required => "required"@,
        MismatchKind::NothingExplained => "nothing-explained"@,
    }
}

impl MismatchKind {
    pub fn as_str(self) -> (label: &'static str)
        ensures
            label@ == mismatch_label(self),
    {
        match self {
            MismatchKind::Dtype => "dtype",
            MismatchKind::Rank => "rank",
            MismatchKind::Fusion => "fusion",
            MismatchKind::Permute => "permute",
            MismatchKind::Required => "required",
            MismatchKind::NothingExplained => "nothing-explained",
        }
    }
}

/// A named refusal.
#[derive(Debug, PartialEq, Eq)]
pub struct Mismatch {
    pub kind: MismatchKind,
    pub tensor: String,
    pub pattern: String,
    pub role: String,
    pub declared: String,
    pub observed: String,
    pub stamp: String,
}

/// The value of a [`Mismatch`].
#[verifier::ext_equal]
pub struct MismatchModel {
    pub kind: MismatchKind,
    pub tensor: Seq<char>,
    pub pattern: Seq<char>,
    pub role: Seq<char>,
    pub declared: Seq<char>,
    pub observed: Seq<char>,
    pub stamp: Seq<char>,
}

impl View for Mismatch {
    type V = MismatchModel;

    open spec fn view(&self) -> MismatchModel {
        MismatchModel {
            kind: self.kind,
            tensor: self.tensor@,
            pattern: self.pattern@,
            role: self.role@,
            declared: self.declared@,
            observed: self.observed@,
            stamp: self.stamp@,
        }
    }
}

/// The display form of a mismatch.
pub open spec fn mismatch_text(mismatch: MismatchModel) -> Seq<char> {
    match mismatch.kind {
        MismatchKind::NothingExplained => mismatch.stamp + " explains no tensor of this file"@,
        MismatchKind::Required => mismatch.stamp + " requires "@ + quotation(mismatch.pattern)
            + ", which no tensor satisfies"@,
        kind => mismatch.stamp + ": tensor "@ + quotation(mismatch.tensor) + " matches pattern "@
            + quotation(mismatch.pattern) + " but its "@ + mismatch_label(kind) + " is "@
            + mismatch.observed + ", not "@ + mismatch.declared,
    }
}

impl Mismatch {
    /// The display form.
    pub fn to_text(&self) -> (text: String)
        ensures
            text@ == mismatch_text(self@),
    {
        let mut text = self.stamp.clone();
        match self.kind {
            MismatchKind::NothingExplained => {
                text.append(" explains no tensor of this file");
            },
            MismatchKind::Required => {
                text.append(" requires ");
                text.append(quoted(self.pattern.as_str()).as_str());
                text.append(", which no tensor satisfies");
            },
            kind => {
                text.append(": tensor ");
                text.append(quoted(self.tensor.as_str()).as_str());
                text.append(" matches pattern ");
                text.append(quoted(self.pattern.as_str()).as_str());
                text.append(" but its ");
                text.append(kind.as_str());
                text.append(" is ");
                text.append(self.observed.as_str());
                text.append(", not ");
                text.append(self.declared.as_str());
            },
        }
        text
    }
}

/// The three-way answer.
#[derive(Clone, Copy, Debug, PartialEq, Eq, Structural)]
pub enum VerdictKind {
    Satisfies,
    /// The gap is one that a named conversion closes.
    Derivable,
    Incompatible,
}

/// The stable label of a verdict.
pub open spec fn verdict_label(kind: VerdictKind) -> Seq<char> {
    match kind {
        VerdictKind::Satisfies => "satisfies"@,
        VerdictKind::Derivable => "derivable"@,
        VerdictKind::Incompatible => "incompatible"@,
    }
}

impl VerdictKind {
    pub fn as_str(self) -> (label: &'static str)
        ensures
            label@ == verdict_label(self),
    {
        match self {
            VerdictKind::Satisfies => "satisfies",
            VerdictKind::Derivable => "derivable",
            VerdictKind::Incompatible => "incompatible",
        }
    }
}

/// Changes element types and nothing else.
pub const RECIPE_DTYPE_CAST: &'static str = "dtype-cast";

/// Quantizes to fp8 and emits a scale for each row of each weight.
pub const RECIPE_FP8_ROWWISE: &'static str = "fp8-rowwise";

/// The work that would make a derivable artifact satisfy.
#[derive(Debug, PartialEq, Eq)]
pub struct Conversion {
    /// The recipe that the target contract's bytes are made by.
    pub kind: String,
    pub from: Vec<String>,
    pub to: Vec<String>,
    pub files: Vec<String>,
}

/// The value of a [`Conversion`].
#[verifier::ext_equal]
pub struct ConversionModel {
    pub kind: Seq<char>,
    pub from: Seq<Seq<char>>,
    pub to: Seq<Seq<char>>,
    pub files: Seq<Seq<char>>,
}

impl View for Conversion {
    type V = ConversionModel;

    open spec fn view(&self) -> ConversionModel {
        ConversionModel {
            kind: self.kind@,
            from: strings(self.from@),
            to: strings(self.to@),
            files: strings(self.files@),
        }
    }
}

/// The display form of a conversion.
pub open spec fn conversion_text(conversion: ConversionModel) -> Seq<char> {
    conversion.kind + " from "@ + joined(conversion.from, "|"@, conversion.from.len() as int)
        + " to "@ + joined(conversion.to, "|"@, conversion.to.len() as int) + " ("@ + decimal(
        conversion.files.len(),
    ) + " file(s): "@ + joined(conversion.files, ", "@, conversion.files.len() as int) + ")"@
}

impl Conversion {
    /// The display form.
    pub fn to_text(&self) -> (text: String)
        ensures
            text@ == conversion_text(self@),
    {
        let mut text = self.kind.clone();
        text.append(" from ");
        text.append(join(&self.from, "|").as_str());
        text.append(" to ");
        text.append(join(&self.to, "|").as_str());
        text.append(" (");
        push_decimal(&mut text, self.files.len() as u64);
        text.append(" file(s): ");
        text.append(join(&self.files, ", ").as_str());
        text.append(")");
        text
    }
}

/// The answer for a whole artifact.
#[derive(Debug, PartialEq, Eq)]
pub struct Verdict {
    pub kind: VerdictKind,
    pub stamp: String,
    pub matched: usize,
    pub explained: usize,
    /// Members that the contract claims no tensor of. No refusal on its own.
    pub unexplained: Vec<String>,
    /// There exactly when the verdict is `Derivable`.
    pub conversion: Option<Conversion>,
    /// There exactly when the verdict is not `Satisfies`.
    pub mismatch: Option<Mismatch>,
    /// The member that the mismatch came from.
    pub file: String,
}

/// The value of a [`Verdict`].
#[verifier::ext_equal]
pub struct VerdictModel {
    pub kind: VerdictKind,
    pub stamp: Seq<char>,
    pub matched: nat,
    pub explained: nat,
    pub unexplained: Seq<Seq<char>>,
    pub conversion: Option<ConversionModel>,
    pub mismatch: Option<MismatchModel>,
    pub file: Seq<char>,
}

impl View for Verdict {
    type V = VerdictModel;

    open spec fn view(&self) -> VerdictModel {
        VerdictModel {
            kind: self.kind,
            stamp: self.stamp@,
            matched: self.matched as nat,
            explained: self.explained as nat,
            unexplained: strings(self.unexplained@),
            conversion: match self.conversion {
                Some(conversion) => Some(conversion@),
                None => None,
            },
            mismatch: match self.mismatch {
                Some(mismatch) => Some(mismatch@),
                None => None,
            },
            file: self.file@,
        }
    }
}

/// What a verdict says of itself is there: a conversion exactly when it is
/// derivable, a mismatch exactly when it does not satisfy.
pub open spec fn complete(verdict: VerdictModel) -> bool {
    &&& (verdict.conversion is Some <==> verdict.kind == VerdictKind::Derivable)
    &&& (verdict.mismatch is Some <==> verdict.kind != VerdictKind::Satisfies)
}

/// The display form of a verdict.
pub open spec fn verdict_text(verdict: VerdictModel) -> Seq<char> {
    match verdict.kind {
        VerdictKind::Satisfies => "satisfies "@ + verdict.stamp + " ("@ + decimal(verdict.matched)
            + " tensors across "@ + decimal(verdict.explained) + " file(s))"@,
        VerdictKind::Derivable => "derivable to "@ + verdict.stamp + " via "@ + conversion_text(
            verdict.conversion.unwrap(),
        ) + " — in "@ + verdict.file + ", "@ + mismatch_text(verdict.mismatch.unwrap()),
        VerdictKind::Incompatible => if verdict.file.len() == 0 {
            "incompatible with "@ + verdict.stamp + " — "@ + mismatch_text(
                verdict.mismatch.unwrap(),
            )
        } else {
            "incompatible with "@ + verdict.stamp + " — in "@ + verdict.file + ", "@
                + mismatch_text(verdict.mismatch.unwrap())
        },
    }
}

impl Verdict {
    /// The display form.
    pub fn to_text(&self) -> (text: String)
        requires
            complete(self@),
        ensures
            text@ == verdict_text(self@),
    {
        let mut text = String::new();
        match (&self.conversion, &self.mismatch) {
            (Some(conversion), Some(mismatch)) => {
                text.append("derivable to ");
                text.append(self.stamp.as_str());
                text.append(" via ");
                text.append(conversion.to_text().as_str());
                text.append(" — in ");
                text.append(self.file.as_str());
                text.append(", ");
                text.append(mismatch.to_text().as_str());
            },
            (_, Some(mismatch)) => {
                text.append("incompatible with ");
                text.append(self.stamp.as_str());
                if chars_of(self.file.as_str()).len() == 0 {
                    text.append(" — ");
                } else {
                    text.append(" — in ");
                    text.append(self.file.as_str());
                    text.append(", ");
                }
                text.append(mismatch.to_text().as_str());
            },
            _ => {
                text.append("satisfies ");
                text.append(self.stamp.as_str());
                text.append(" (");
                push_decimal(&mut text, self.matched as u64);
                text.append(" tensors across ");
                push_decimal(&mut text, self.explained as u64);
                text.append(" file(s))");
            },
        }
        assert(text@ =~= verdict_text(self@));
        text
    }
}

// ---------------------------------------------------------------------------
// One tensor
// ---------------------------------------------------------------------------

/// Whether a fusion can apply to a tensor: whole units of rows, and whole rows
/// of bytes where a length is supplied.
pub open spec fn divides(fusion: FusionModel, shape: Seq<u64>, length: u64) -> bool {
    &&& shape.len() > 0
    &&& shape[0] > 0
    &&& fusion.units() > 0
    &&& shape[0] as int % fusion.units() as int == 0
    &&& (length == 0 || length % shape[0] == 0)
}

/// One part of a fusion, described.
pub open spec fn part_text(part: PartModel) -> Seq<char> {
    (if part.role.len() == 0 {
        "-"@
    } else {
        part.role
    }) + ":"@ + decimal(part.share as nat)
}

/// The parts of a fusion, described.
pub open spec fn part_texts(parts: Seq<PartModel>) -> Seq<Seq<char>> {
    parts.map_values(|part: PartModel| part_text(part))
}

/// What a fusion asks for, described.
pub open spec fn fusion_text(fusion: FusionModel) -> Seq<char> {
    "an outer axis divisible by "@ + decimal(fusion.groups as nat) + " group(s) of ["@ + joined(
        part_texts(fusion.parts),
        " "@,
        fusion.parts.len() as int,
    ) + "]"@
}

/// The dimensions of a shape, spelled.
pub open spec fn dim_texts(shape: Seq<u64>) -> Seq<Seq<char>> {
    shape.map_values(|dim: u64| decimal(dim as nat))
}

/// A shape, spelled.
pub open spec fn shape_spelling(shape: Seq<u64>) -> Seq<char> {
    "["@ + joined(dim_texts(shape), ","@, shape.len() as int) + "]"@
}

/// What a declaration finds wrong with a tensor that it claims: the element
/// type, the number of axes, the fusion, the permute, in that order.
pub open spec fn refusal(decl: TensorModel, stamp: Seq<char>, tensor: HeaderModel) -> Option<
    MismatchModel,
> {
    let bad = |kind: MismatchKind, declared: Seq<char>, observed: Seq<char>|
        Some(
            MismatchModel {
                kind,
                tensor: tensor.name,
                pattern: decl.pattern,
                role: decl.role,
                declared,
                observed,
                stamp,
            },
        );
    if decl.dtypes.len() > 0 && !decl.dtypes.contains(tensor.dtype) {
        bad(
            MismatchKind::Dtype,
            joined(decl.dtypes, "|"@, decl.dtypes.len() as int),
            tensor.dtype,
        )
    } else if decl.rank is Some && decl.rank.unwrap() != tensor.shape.len() {
        bad(
            MismatchKind::Rank,
            decimal(decl.rank.unwrap() as nat),
            decimal(tensor.shape.len()),
        )
    } else if decl.fusion is Some && !divides(decl.fusion.unwrap(), tensor.shape, tensor.length) {
        bad(MismatchKind::Fusion, fusion_text(decl.fusion.unwrap()), shape_spelling(tensor.shape))
    } else if decl.permute is Some && decl.permute.unwrap().resolved(tensor.shape) is None {
        bad(MismatchKind::Permute, "a resolvable view"@, shape_spelling(tensor.shape))
    } else {
        None
    }
}

fn decimal_text(n: u64) -> (text: String)
    ensures
        text@ == decimal(n as nat),
{
    let mut text = String::new();
    push_decimal(&mut text, n);
    assert(text@ =~= decimal(n as nat));
    text
}

fn shape_text(shape: &[u64]) -> (text: String)
    ensures
        text@ == shape_spelling(shape@),
{
    let mut parts: Vec<String> = Vec::new();
    let mut at: usize = 0;
    while at < shape.len()
        invariant
            at <= shape@.len(),
            parts@.len() == at,
            forall|i: int| 0 <= i < at ==> (#[trigger] parts@[i])@ == decimal(shape@[i] as nat),
        decreases shape@.len() - at,
    {
        parts.push(decimal_text(shape[at]));
        at += 1;
    }
    assert(strings(parts@) =~= dim_texts(shape@));
    let mut text = String::new();
    text.append("[");
    text.append(join(&parts, ",").as_str());
    text.append("]");
    assert(text@ =~= shape_spelling(shape@));
    text
}

fn describe(fusion: &Fusion) -> (text: String)
    ensures
        text@ == fusion_text(fusion@),
{
    let parts = fusion.parts();
    let ghost models = fusion@.parts;
    let mut spelled: Vec<String> = Vec::new();
    let mut at: usize = 0;
    while at < parts.len()
        invariant
            at <= parts@.len(),
            models == fusion@.parts,
            models.len() == parts@.len(),
            forall|i: int| 0 <= i < parts@.len() ==> #[trigger] models[i] == parts@[i]@,
            spelled@.len() == at,
            forall|i: int| 0 <= i < at ==> (#[trigger] spelled@[i])@ == part_text(models[i]),
        decreases parts@.len() - at,
    {
        let part = &parts[at];
        assert(models[at as int] == part@);
        let mut text = String::new();
        if chars_of(part.role()).len() == 0 {
            text.append("-");
        } else {
            text.append(part.role());
        }
        text.append(":");
        push_decimal(&mut text, part.share());
        assert(text@ =~= part_text(part@));
        spelled.push(text);
        at += 1;
    }
    assert(strings(spelled@) =~= part_texts(models));
    let mut text = String::new();
    text.append("an outer axis divisible by ");
    push_decimal(&mut text, fusion.groups());
    text.append(" group(s) of [");
    text.append(join(&spelled, " ").as_str());
    text.append("]");
    assert(text@ =~= fusion_text(fusion@));
    text
}

/// The sum of shares, when it fits in 64 bits.
fn share_total(fusion: &Fusion) -> (total: Option<u64>)
    ensures
        ({
            let sum = share_sum(fusion@.parts, fusion@.parts.len() as int);
            match total {
                Some(t) => t == sum,
                None => sum > u64::MAX,
            }
        }),
{
    let parts = fusion.parts();
    let ghost models = fusion@.parts;
    let mut total: u64 = 0;
    let mut at: usize = 0;
    while at < parts.len()
        invariant
            at <= parts@.len(),
            models == fusion@.parts,
            models.len() == parts@.len(),
            forall|i: int| 0 <= i < parts@.len() ==> #[trigger] models[i] == parts@[i]@,
            total == share_sum(models, at as int),
        decreases parts@.len() - at,
    {
        assert(models[at as int] == parts@[at as int]@);
        match total.checked_add(parts[at].share()) {
            Some(next) => {
                total = next;
            },
            None => {
                proof {
                    share_sum_grows(models, at + 1, models.len() as int);
                }
                return None;
            },
        }
        at += 1;
    }
    Some(total)
}

proof fn share_sum_grows(parts: Seq<PartModel>, low: int, high: int)
    requires
        low <= high,
    ensures
        share_sum(parts, low) <= share_sum(parts, high),
    decreases high - low,
{
    if low < high {
        share_sum_grows(parts, low, high - 1);
    }
}

/// More units than rows never divide the rows.
proof fn too_many_units(rows: int, units: int)
    requires
        0 < rows < units,
    ensures
        rows % units != 0,
{
    vstd::arithmetic::div_mod::lemma_small_mod(rows as nat, units as nat);
}

fn can_divide(fusion: &Fusion, shape: &[u64], length: u64) -> (yes: bool)
    ensures
        yes == divides(fusion@, shape@, length),
{
    if shape.len() == 0 || shape[0] == 0 || fusion.groups() == 0 {
        proof {
            if shape@.len() > 0 && shape@[0] > 0 {
                assert(fusion@.units() == 0) by (nonlinear_arith)
                    requires
                        fusion@.units() == 0 * share_sum(fusion@.parts, fusion@.parts.len() as int),
                ;
            }
        }
        return false;
    }
    let rows: u64 = shape[0];
    let ghost sum = share_sum(fusion@.parts, fusion@.parts.len() as int);
    let ghost groups = fusion@.groups as nat;
    let units: u64 = match share_total(fusion) {
        Some(total) => match total.checked_mul(fusion.groups()) {
            Some(units) => {
                assert(units == groups * sum) by (nonlinear_arith)
                    requires
                        units == total * groups,
                        total == sum,
                ;
                units
            },
            None => {
                proof {
                    assert(groups * sum > u64::MAX) by (nonlinear_arith)
                        requires
                            total * groups > u64::MAX,
                            total == sum,
                    ;
                    too_many_units(rows as int, (groups * sum) as int);
                }
                return false;
            },
        },
        None => {
            proof {
                assert(groups * sum >= sum) by (nonlinear_arith)
                    requires
                        groups >= 1,
                ;
                too_many_units(rows as int, (groups * sum) as int);
            }
            return false;
        },
    };
    if units == 0 || rows % units != 0 {
        return false;
    }
    length == 0 || length % rows == 0
}

fn accepts(decl: &TensorPattern, stamp: &String, tensor: &InventoryTensor) -> (found: Option<
    Mismatch,
>)
    requires
        decl.wf(),
    ensures
        match found {
            Some(m) => refusal(decl@, stamp@, tensor@) == Some(m@),
            None => refusal(decl@, stamp@, tensor@) is None,
        },
{
    let kind: MismatchKind;
    let declared: String;
    let observed: String;
    let dtypes = decl.dtypes();
    if dtypes.len() > 0 && !listed(dtypes, tensor.dtype.as_str()) {
        kind = MismatchKind::Dtype;
        declared = join(dtypes, "|");
        observed = tensor.dtype.clone();
    } else if decl.rank().is_some() && decl.rank().unwrap() != tensor.shape.len() {
        kind = MismatchKind::Rank;
        declared = decimal_text(decl.rank().unwrap() as u64);
        observed = decimal_text(tensor.shape.len() as u64);
    } else if decl.fusion().is_some() && !can_divide(
        decl.fusion().unwrap(),
        &tensor.shape,
        tensor.length,
    ) {
        kind = MismatchKind::Fusion;
        declared = describe(decl.fusion().unwrap());
        observed = shape_text(&tensor.shape);
    } else if decl.permute().is_some() && decl.permute().unwrap().resolve(
        &tensor.shape,
    ).is_none() {
        kind = MismatchKind::Permute;
        declared = "a resolvable view".to_string();
        observed = shape_text(&tensor.shape);
    } else {
        return None;
    }
    Some(
        Mismatch {
            kind,
            tensor: tensor.name.clone(),
            pattern: decl.pattern().as_str().to_string(),
            role: decl.role().as_str().to_string(),
            declared,
            observed,
            stamp: stamp.clone(),
        },
    )
}

fn listed(list: &[String], text: &str) -> (yes: bool)
    ensures
        yes == strings(list@).contains(text@),
{
    let wanted = chars_of(text);
    let ghost views = strings(list@);
    let mut at: usize = 0;
    while at < list.len()
        invariant
            at <= list@.len(),
            wanted@ == text@,
            views == strings(list@),
            forall|i: int| 0 <= i < at ==> #[trigger] views[i] != text@,
        decreases list@.len() - at,
    {
        if same_chars(&chars_of(list[at].as_str()), &wanted) {
            assert(views[at as int] == text@);
            return true;
        }
        assert(views[at as int] == list@[at as int]@);
        at += 1;
    }
    false
}

// ---------------------------------------------------------------------------
// One file
// ---------------------------------------------------------------------------

/// Whether a declaration claims a tensor.
pub open spec fn claimed(contract: ContractModel, tensor: HeaderModel) -> bool {
    governing(contract.tensors, tensor.name) < contract.tensors.len()
}

/// What the contract finds wrong with the first of the first `upto` tensors
/// that it claims and refuses.
pub open spec fn first_refusal(
    contract: ContractModel,
    tensors: Seq<HeaderModel>,
    upto: int,
) -> Option<MismatchModel>
    decreases upto,
{
    if upto <= 0 {
        None
    } else {
        match first_refusal(contract, tensors, upto - 1) {
            Some(mismatch) => Some(mismatch),
            None => {
                let tensor = tensors[upto - 1];
                if claimed(contract, tensor) {
                    refusal(
                        contract.tensors[governing(contract.tensors, tensor.name)],
                        stamp_spelling(stamp_for(contract)),
                        tensor,
                    )
                } else {
                    None
                }
            },
        }
    }
}

/// How many of the first `upto` tensors the contract claims.
pub open spec fn claims(contract: ContractModel, tensors: Seq<HeaderModel>, upto: int) -> nat
    decreases upto,
{
    if upto <= 0 {
        0
    } else {
        claims(contract, tensors, upto - 1) + if claimed(contract, tensors[upto - 1]) {
            1nat
        } else {
            0nat
        }
    }
}

/// Whether one of the first `upto` tensors is governed by a declaration.
pub open spec fn met(
    contract: ContractModel,
    tensors: Seq<HeaderModel>,
    declaration: int,
    upto: int,
) -> bool {
    exists|i: int|
        0 <= i < upto && governing(contract.tensors, (#[trigger] tensors[i]).name) == declaration
}

/// The first required declaration at or behind `from` that no tensor meets, or
/// the number of declarations.
pub open spec fn first_missing(
    contract: ContractModel,
    tensors: Seq<HeaderModel>,
    from: int,
) -> int
    decreases contract.tensors.len() - from,
{
    if from >= contract.tensors.len() || (contract.tensors[from].required && !met(
        contract,
        tensors,
        from,
        tensors.len() as int,
    )) {
        from
    } else {
        first_missing(contract, tensors, from + 1)
    }
}

/// A mismatch that names no tensor.
pub open spec fn bare_mismatch(
    kind: MismatchKind,
    pattern: Seq<char>,
    role: Seq<char>,
    stamp: Seq<char>,
) -> MismatchModel {
    MismatchModel {
        kind,
        tensor: Seq::empty(),
        pattern,
        role,
        declared: Seq::empty(),
        observed: Seq::empty(),
        stamp,
    }
}

/// How many tensors of a file the contract explains, or the first disagreement.
pub open spec fn file_outcome(contract: ContractModel, tensors: Seq<HeaderModel>) -> Result<
    nat,
    MismatchModel,
> {
    let n = tensors.len() as int;
    let stamp = stamp_spelling(stamp_for(contract));
    let missing = first_missing(contract, tensors, 0);
    if first_refusal(contract, tensors, n) is Some {
        Err(first_refusal(contract, tensors, n).unwrap())
    } else if missing < contract.tensors.len() {
        Err(
            bare_mismatch(
                MismatchKind::Required,
                contract.tensors[missing].pattern,
                contract.tensors[missing].role,
                stamp,
            ),
        )
    } else if claims(contract, tensors, n) == 0 {
        Err(bare_mismatch(MismatchKind::NothingExplained, Seq::empty(), Seq::empty(), stamp))
    } else {
        Ok(claims(contract, tensors, n))
    }
}

proof fn refusal_stays(contract: ContractModel, tensors: Seq<HeaderModel>, low: int, high: int)
    requires
        0 <= low <= high,
        first_refusal(contract, tensors, low) is Some,
    ensures
        first_refusal(contract, tensors, high) == first_refusal(contract, tensors, low),
    decreases high - low,
{
    if low < high {
        refusal_stays(contract, tensors, low, high - 1);
    }
}

fn empty_mismatch(kind: MismatchKind, pattern: &str, role: &str, stamp: &String) -> (mismatch:
    Mismatch)
    ensures
        mismatch@ == bare_mismatch(kind, pattern@, role@, stamp@),
{
    let mismatch = Mismatch {
        kind,
        tensor: String::new(),
        pattern: pattern.to_string(),
        role: role.to_string(),
        declared: String::new(),
        observed: String::new(),
        stamp: stamp.clone(),
    };
    assert(mismatch@ =~= bare_mismatch(kind, pattern@, role@, stamp@));
    mismatch
}

/// The index of the first declaration whose pattern is `name`.
fn governing_index(declarations: &[TensorPattern], name: &str, Ghost(models): Ghost<
    Seq<TensorModel>,
>) -> (index: usize)
    requires
        models == declarations@.map_values(|decl: TensorPattern| decl@),
        forall|i: int| 0 <= i < declarations@.len() ==> (#[trigger] declarations@[i]).wf(),
    ensures
        index == governing(models, name@),
        index <= declarations@.len(),
{
    let mut at: usize = 0;
    while at < declarations.len() && !declarations[at].pattern().matches(name)
        invariant
            at <= declarations@.len(),
            models == declarations@.map_values(|decl: TensorPattern| decl@),
            forall|i: int| 0 <= i < declarations@.len() ==> (#[trigger] declarations@[i]).wf(),
            governing(models, name@) == crate::contract::governing_from(models, name@, at as int),
        decreases declarations@.len() - at,
    {
        assert(models[at as int] == declarations@[at as int]@);
        at += 1;
    }
    proof {
        if at < declarations@.len() {
            assert(models[at as int] == declarations@[at as int]@);
        }
    }
    at
}

/// Whether a declaration lists an fp8 element type.
pub open spec fn lists_fp8(decl: TensorModel) -> bool {
    decl.dtypes.contains("F8_E4M3"@) || decl.dtypes.contains("F8_E5M2"@)
}

/// Whether a declaration is of a weight's scales.
pub open spec fn names_scales(decl: TensorModel) -> bool {
    ends_with(decl.pattern, ".weight_scale"@)
}

/// The conversion that a contract's bytes are made by.
pub open spec fn recipe_of(contract: ContractModel) -> Seq<char> {
    if (exists|i: int| 0 <= i < contract.tensors.len() && lists_fp8(#[trigger] contract.tensors[i]))
        && (exists|i: int|
        0 <= i < contract.tensors.len() && names_scales(#[trigger] contract.tensors[i])) {
        RECIPE_FP8_ROWWISE@
    } else {
        RECIPE_DTYPE_CAST@
    }
}

impl Contract {
    /// The conversion this contract's bytes are made by, derived from the
    /// declarations and not from the name.
    pub fn recipe(&self) -> (recipe: &'static str)
        requires
            self.wf(),
        ensures
            recipe@ == recipe_of(self@),
    {
        let ghost models = self@.tensors;
        let declarations = self.tensors();
        let mut fp8 = false;
        let mut scales = false;
        let mut at: usize = 0;
        while at < declarations.len()
            invariant
                at <= declarations@.len(),
                models == declarations@.map_values(|decl: TensorPattern| decl@),
                forall|i: int| 0 <= i < declarations@.len() ==> (#[trigger] declarations@[i]).wf(),
                fp8 == exists|i: int| 0 <= i < at && lists_fp8(#[trigger] models[i]),
                scales == exists|i: int| 0 <= i < at && names_scales(#[trigger] models[i]),
            decreases declarations@.len() - at,
        {
            let decl = &declarations[at];
            assert(models[at as int] == decl@);
            if listed(decl.dtypes(), "F8_E4M3") || listed(decl.dtypes(), "F8_E5M2") {
                assert(lists_fp8(models[at as int]));
                fp8 = true;
            }
            if has_tail(decl.pattern().as_str(), ".weight_scale") {
                assert(names_scales(models[at as int]));
                scales = true;
            }
            at += 1;
        }
        if fp8 && scales {
            RECIPE_FP8_ROWWISE
        } else {
            RECIPE_DTYPE_CAST
        }
    }

    /// Whether this contract describes one file, naming the first disagreement
    /// when it does not. The first declaration whose pattern matches governs a
    /// tensor; a tensor that none claims is neither a refusal nor a credit.
    pub fn match_file(&self, inventory: &[InventoryTensor]) -> (outcome: Result<
        FileMatch,
        Mismatch,
    >)
        requires
            self.wf(),
        ensures
            match outcome {
                Ok(m) => file_outcome(self@, headers(inventory@)) == Ok::<nat, MismatchModel>(
                    m.matched as nat,
                ) && m.stamp@ == stamp_spelling(stamp_for(self@)),
                Err(m) => file_outcome(self@, headers(inventory@)) == Err::<nat, MismatchModel>(
                    m@,
                ),
            },
            outcome matches Ok(m) ==> m.matched <= inventory@.len(),
    {
        let ghost contract = self@;
        let ghost tensors = headers(inventory@);
        let ghost n = tensors.len() as int;
        let stamp = self.stamp().to_text();
        let declarations = self.tensors();
        let mut seen: Vec<bool> = Vec::new();
        seen.resize(declarations.len(), false);
        let mut matched: usize = 0;
        let mut at: usize = 0;
        while at < inventory.len()
            invariant
                at <= inventory@.len(),
                contract == self@,
                tensors == headers(inventory@),
                n == tensors.len(),
                stamp@ == stamp_spelling(stamp_for(contract)),
                contract.tensors == declarations@.map_values(|decl: TensorPattern| decl@),
                forall|i: int| 0 <= i < declarations@.len() ==> (#[trigger] declarations@[i]).wf(),
                first_refusal(contract, tensors, at as int) is None,
                matched == claims(contract, tensors, at as int),
                matched <= at,
                seen@.len() == declarations@.len(),
                forall|d: int|
                    0 <= d < seen@.len() ==> #[trigger] seen@[d] == met(
                        contract,
                        tensors,
                        d,
                        at as int,
                    ),
            decreases inventory@.len() - at,
        {
            let tensor = &inventory[at];
            let index = governing_index(declarations, tensor.name.as_str(), Ghost(contract.tensors));
            proof {
                assert(tensors[at as int] == tensor@);
                if first_refusal(contract, tensors, at + 1) is Some {
                    refusal_stays(contract, tensors, at + 1, n);
                }
                met_grows(contract, tensors, at as int, index as int);
            }
            if index < declarations.len() {
                assert(contract.tensors[index as int] == declarations@[index as int]@);
                if let Some(mismatch) = accepts(&declarations[index], &stamp, tensor) {
                    return Err(mismatch);
                }
                seen[index] = true;
                matched += 1;
            }
            at += 1;
        }
        let mut at: usize = 0;
        while at < declarations.len()
            invariant
                at <= declarations@.len(),
                contract == self@,
                tensors == headers(inventory@),
                n == tensors.len(),
                stamp@ == stamp_spelling(stamp_for(contract)),
                contract.tensors == declarations@.map_values(|decl: TensorPattern| decl@),
                forall|i: int| 0 <= i < declarations@.len() ==> (#[trigger] declarations@[i]).wf(),
                first_refusal(contract, tensors, n) is None,
                seen@.len() == declarations@.len(),
                forall|d: int|
                    0 <= d < seen@.len() ==> #[trigger] seen@[d] == met(contract, tensors, d, n),
                first_missing(contract, tensors, 0) == first_missing(
                    contract,
                    tensors,
                    at as int,
                ),
            decreases declarations@.len() - at,
        {
            let decl = &declarations[at];
            assert(contract.tensors[at as int] == decl@);
            if decl.is_required() && !seen[at] {
                return Err(
                    empty_mismatch(
                        MismatchKind::Required,
                        decl.pattern().as_str(),
                        decl.role().as_str(),
                        &stamp,
                    ),
                );
            }
            at += 1;
        }
        if matched == 0 {
            proof {
                reveal_strlit("");
                assert(""@ =~= Seq::<char>::empty());
            }
            return Err(empty_mismatch(MismatchKind::NothingExplained, "", "", &stamp));
        }
        Ok(FileMatch { stamp, matched })
    }
}

proof fn met_grows(contract: ContractModel, tensors: Seq<HeaderModel>, at: int, index: int)
    requires
        0 <= at < tensors.len(),
        index == governing(contract.tensors, tensors[at].name),
    ensures
        forall|d: int|
            #[trigger] met(contract, tensors, d, at + 1) == (met(contract, tensors, d, at) || d
                == index),
{
    assert forall|d: int|
        #[trigger] met(contract, tensors, d, at + 1) == (met(contract, tensors, d, at) || d
            == index) by {
        if met(contract, tensors, d, at) {
            let i = choose|i: int|
                0 <= i < at && governing(contract.tensors, (#[trigger] tensors[i]).name) == d;
            assert(governing(contract.tensors, tensors[i].name) == d);
        }
        if d == index {
            assert(governing(contract.tensors, tensors[at].name) == d);
        }
    }
}

// ---------------------------------------------------------------------------
// One artifact
// ---------------------------------------------------------------------------

/// What the members visited so far come to.
#[verifier::ext_equal]
pub struct Tally {
    pub matched: nat,
    pub explained: nat,
    pub unexplained: Seq<Seq<char>>,
    pub structural: Option<(MismatchModel, Seq<char>)>,
    pub dtype_first: Option<(MismatchModel, Seq<char>)>,
    pub from: Seq<Seq<char>>,
    pub to: Seq<Seq<char>>,
    pub cast_files: Seq<Seq<char>>,
}

/// A sorted list of distinct texts with the first `upto` of others.
pub open spec fn with_texts(list: Seq<Seq<char>>, more: Seq<Seq<char>>, upto: int) -> Seq<Seq<char>>
    decreases upto,
{
    if upto <= 0 {
        list
    } else {
        with_text(with_texts(list, more, upto - 1), more[upto - 1])
    }
}

/// One member more.
pub open spec fn tallied(tally: Tally, outcome: Result<nat, MismatchModel>, path: Seq<char>) -> Tally {
    match outcome {
        Ok(matched) => Tally {
            matched: tally.matched + matched,
            explained: tally.explained + 1,
            ..tally
        },
        Err(mismatch) => match mismatch.kind {
            MismatchKind::NothingExplained => Tally {
                unexplained: tally.unexplained.push(path),
                ..tally
            },
            MismatchKind::Dtype => {
                let declared = split_at(mismatch.declared, '|');
                Tally {
                    from: with_text(tally.from, mismatch.observed),
                    to: with_texts(tally.to, declared, declared.len() as int),
                    cast_files: tally.cast_files.push(path),
                    dtype_first: match tally.dtype_first {
                        Some(first) => Some(first),
                        None => Some((mismatch, path)),
                    },
                    ..tally
                }
            },
            _ => Tally {
                structural: match tally.structural {
                    Some(first) => Some(first),
                    None => Some((mismatch, path)),
                },
                ..tally
            },
        },
    }
}

/// What the first `upto` members, in order, come to.
pub open spec fn tally_upto(contract: ContractModel, files: Seq<FileModel>, upto: int) -> Tally
    decreases upto,
{
    if upto <= 0 {
        Tally {
            matched: 0,
            explained: 0,
            unexplained: Seq::empty(),
            structural: None,
            dtype_first: None,
            from: Seq::empty(),
            to: Seq::empty(),
            cast_files: Seq::empty(),
        }
    } else {
        tallied(
            tally_upto(contract, files, upto - 1),
            file_outcome(contract, files[upto - 1].tensors),
            files[upto - 1].path,
        )
    }
}

/// The members in path order.
pub open spec fn by_path(files: Seq<FileModel>) -> Seq<FileModel> {
    in_order(path_keys(files)).map_values(|at: usize| files[at as int])
}

/// The UTF-8 bytes of the members' paths.
pub open spec fn path_keys(files: Seq<FileModel>) -> Seq<Seq<u8>> {
    files.map_values(|file: FileModel| encode_utf8(file.path))
}

/// The verdict of a tally: a structural disagreement is incompatible outright;
/// otherwise one of element types alone is derivable; otherwise it satisfies if
/// a member was explained; otherwise nothing here is the contract's.
pub open spec fn settled(contract: ContractModel, tally: Tally) -> VerdictModel {
    let base = VerdictModel {
        kind: VerdictKind::Satisfies,
        stamp: stamp_spelling(stamp_for(contract)),
        matched: tally.matched,
        explained: tally.explained,
        unexplained: tally.unexplained,
        conversion: None,
        mismatch: None,
        file: Seq::empty(),
    };
    match tally.structural {
        Some((mismatch, file)) => VerdictModel {
            kind: VerdictKind::Incompatible,
            mismatch: Some(mismatch),
            file,
            ..base
        },
        None => match tally.dtype_first {
            Some((mismatch, file)) => VerdictModel {
                kind: VerdictKind::Derivable,
                conversion: Some(
                    ConversionModel {
                        kind: recipe_of(contract),
                        from: tally.from,
                        to: tally.to,
                        files: tally.cast_files,
                    },
                ),
                mismatch: Some(mismatch),
                file,
                ..base
            },
            None => if tally.explained > 0 {
                base
            } else {
                VerdictModel {
                    kind: VerdictKind::Incompatible,
                    mismatch: Some(
                        bare_mismatch(
                            MismatchKind::NothingExplained,
                            Seq::empty(),
                            Seq::empty(),
                            base.stamp,
                        ),
                    ),
                    ..base
                }
            },
        },
    }
}

/// The bind verdict on a whole artifact.
pub open spec fn verdict_of(contract: ContractModel, files: Seq<FileModel>) -> VerdictModel {
    settled(contract, tally_upto(contract, by_path(files), files.len() as int))
}

/// A verdict carries a conversion exactly when it is derivable, and a mismatch
/// exactly when it does not satisfy.
pub proof fn verdicts_are_complete(contract: ContractModel, files: Seq<FileModel>)
    ensures
        complete(verdict_of(contract, files)),
{
}

/// How many tensors the first `upto` members have.
pub open spec fn tensor_total(files: Seq<FileModel>, upto: int) -> nat
    decreases upto,
{
    if upto <= 0 {
        0
    } else {
        tensor_total(files, upto - 1) + files[upto - 1].tensors.len()
    }
}

/// A tally in progress.
struct Count {
    matched: usize,
    explained: usize,
    unexplained: Vec<String>,
    structural: Option<(Mismatch, String)>,
    dtype_first: Option<(Mismatch, String)>,
    from: Vec<String>,
    to: Vec<String>,
    cast_files: Vec<String>,
}

spec fn located(found: Option<(Mismatch, String)>) -> Option<(MismatchModel, Seq<char>)> {
    match found {
        Some((mismatch, file)) => Some((mismatch@, file@)),
        None => None,
    }
}

impl View for Count {
    type V = Tally;

    closed spec fn view(&self) -> Tally {
        Tally {
            matched: self.matched as nat,
            explained: self.explained as nat,
            unexplained: strings(self.unexplained@),
            structural: located(self.structural),
            dtype_first: located(self.dtype_first),
            from: strings(self.from@),
            to: strings(self.to@),
            cast_files: strings(self.cast_files@),
        }
    }
}

fn push_text(list: &mut Vec<String>, text: &String)
    ensures
        strings(final(list)@) == strings(old(list)@).push(text@),
{
    list.push(text.clone());
    assert(strings(list@) =~= strings(old(list)@).push(text@));
}

fn insert_texts(list: &mut Vec<String>, more: &Vec<String>)
    ensures
        strings(final(list)@) == with_texts(
            strings(old(list)@),
            strings(more@),
            more@.len() as int,
        ),
{
    let mut at: usize = 0;
    while at < more.len()
        invariant
            at <= more@.len(),
            strings(list@) == with_texts(strings(old(list)@), strings(more@), at as int),
        decreases more@.len() - at,
    {
        assert(strings(more@)[at as int] == more@[at as int]@);
        insert_text(list, more[at].as_str());
        at += 1;
    }
}

impl Count {
    fn new() -> (count: Self)
        ensures
            forall|contract: ContractModel, files: Seq<FileModel>|
                count@ == #[trigger] tally_upto(contract, files, 0),
    {
        let count = Count {
            matched: 0,
            explained: 0,
            unexplained: Vec::new(),
            structural: None,
            dtype_first: None,
            from: Vec::new(),
            to: Vec::new(),
            cast_files: Vec::new(),
        };
        proof {
            assert forall|contract: ContractModel, files: Seq<FileModel>|
                count@ == #[trigger] tally_upto(contract, files, 0) by {
                assert(count@ =~= tally_upto(contract, files, 0));
            }
        }
        count
    }

    /// Takes one member's outcome in.
    fn take(
        &mut self,
        outcome: Result<FileMatch, Mismatch>,
        path: &String,
        Ghost(model): Ghost<Result<nat, MismatchModel>>,
    )
        requires
            match outcome {
                Ok(m) => model == Ok::<nat, MismatchModel>(m.matched as nat),
                Err(m) => model == Err::<nat, MismatchModel>(m@),
            },
            outcome matches Ok(m) ==> old(self)@.matched + m.matched <= usize::MAX,
            old(self)@.explained < usize::MAX,
        ensures
            final(self)@ == tallied(old(self)@, model, path@),
    {
        match outcome {
            Ok(found) => {
                self.matched = self.matched + found.matched;
                self.explained = self.explained + 1;
            },
            Err(mismatch) => match mismatch.kind {
                MismatchKind::NothingExplained => {
                    push_text(&mut self.unexplained, path);
                },
                MismatchKind::Dtype => {
                    insert_text(&mut self.from, mismatch.observed.as_str());
                    let declared = split(mismatch.declared.as_str(), '|');
                    insert_texts(&mut self.to, &declared);
                    push_text(&mut self.cast_files, path);
                    if self.dtype_first.is_none() {
                        self.dtype_first = Some((mismatch, path.clone()));
                    }
                },
                _ => {
                    if self.structural.is_none() {
                        self.structural = Some((mismatch, path.clone()));
                    }
                },
            },
        }
        assert(self@ =~= tallied(old(self)@, model, path@));
    }
}

/// The UTF-8 bytes of the members' paths, as sort keys.
fn keys_of(files: &[ArtifactFile]) -> (keys: Vec<Vec<u8>>)
    ensures
        byte_strings(keys@) == path_keys(file_models(files@)),
{
    let ghost models = file_models(files@);
    let mut keys: Vec<Vec<u8>> = Vec::new();
    let mut at: usize = 0;
    while at < files.len()
        invariant
            at <= files@.len(),
            models == file_models(files@),
            keys@.len() == at,
            forall|i: int| 0 <= i < at ==> (#[trigger] keys@[i])@ == encode_utf8(models[i].path),
        decreases files@.len() - at,
    {
        assert(models[at as int] == files@[at as int]@);
        keys.push(vstd::slice::slice_to_vec(files[at].path.as_str().as_bytes()));
        at += 1;
    }
    assert(byte_strings(keys@) =~= path_keys(models));
    keys
}

proof fn tally_is_bounded(contract: ContractModel, files: Seq<FileModel>, upto: int)
    requires
        0 <= upto <= files.len(),
    ensures
        tally_upto(contract, files, upto).matched <= tensor_total(files, upto),
        tally_upto(contract, files, upto).explained <= upto,
    decreases upto,
{
    if upto > 0 {
        tally_is_bounded(contract, files, upto - 1);
        let tensors = files[upto - 1].tensors;
        claims_are_bounded(contract, tensors, tensors.len() as int);
    }
}

proof fn claims_are_bounded(contract: ContractModel, tensors: Seq<HeaderModel>, upto: int)
    requires
        0 <= upto,
    ensures
        claims(contract, tensors, upto) <= upto,
    decreases upto,
{
    if upto > 0 {
        claims_are_bounded(contract, tensors, upto - 1);
    }
}

proof fn total_grows(files: Seq<FileModel>, low: int, high: int)
    requires
        low <= high,
    ensures
        tensor_total(files, low) <= tensor_total(files, high),
    decreases high - low,
{
    if low < high {
        total_grows(files, low, high - 1);
    }
}

impl Contract {
    /// The bind question for a whole artifact. Members are visited in path
    /// order, so that the tensor a verdict names is the same on every call.
    pub fn verdict(&self, files: &[ArtifactFile]) -> (verdict: Verdict)
        requires
            self.wf(),
            tensor_total(by_path(file_models(files@)), files@.len() as int) <= usize::MAX,
        ensures
            verdict@ == verdict_of(self@, file_models(files@)),
    {
        let ghost contract = self@;
        let ghost models = file_models(files@);
        let keys = keys_of(files);
        let order = sort_stably(&keys);
        let ghost sorted = by_path(models);
        let ghost n = models.len() as int;
        let mut count = Count::new();
        let mut at: usize = 0;
        while at < order.len()
            invariant
                at <= order@.len(),
                self.wf(),
                contract == self@,
                models == file_models(files@),
                n == models.len(),
                stable_order(path_keys(models), order@),
                sorted == order@.map_values(|at: usize| models[at as int]),
                tensor_total(sorted, n) <= usize::MAX,
                count@ == tally_upto(contract, sorted, at as int),
            decreases order@.len() - at,
        {
            assert(order@[at as int] < path_keys(models).len());
            let file = &files[order[at]];
            proof {
                assert(models[order@[at as int] as int] == file@);
                assert(sorted[at as int] == file@);
                tally_is_bounded(contract, sorted, at as int);
                total_grows(sorted, at + 1, n);
            }
            let outcome = self.match_file(&file.tensors);
            count.take(
                outcome,
                &file.path,
                Ghost(file_outcome(contract, sorted[at as int].tensors)),
            );
            at += 1;
        }
        self.settle(count)
    }

    fn settle(&self, count: Count) -> (verdict: Verdict)
        requires
            self.wf(),
        ensures
            verdict@ == settled(self@, count@),
    {
        let stamp = self.stamp().to_text();
        let kind: VerdictKind;
        let mut conversion: Option<Conversion> = None;
        let mut mismatch: Option<Mismatch> = None;
        let mut file = String::new();
        if let Some((found, path)) = count.structural {
            kind = VerdictKind::Incompatible;
            mismatch = Some(found);
            file = path;
        } else if let Some((found, path)) = count.dtype_first {
            kind = VerdictKind::Derivable;
            conversion = Some(
                Conversion {
                    kind: self.recipe().to_string(),
                    from: count.from,
                    to: count.to,
                    files: count.cast_files,
                },
            );
            mismatch = Some(found);
            file = path;
        } else if count.explained > 0 {
            kind = VerdictKind::Satisfies;
        } else {
            kind = VerdictKind::Incompatible;
            proof {
                reveal_strlit("");
                assert(""@ =~= Seq::<char>::empty());
            }
            mismatch = Some(empty_mismatch(MismatchKind::NothingExplained, "", "", &stamp));
        }
        let verdict = Verdict {
            kind,
            stamp,
            matched: count.matched,
            explained: count.explained,
            unexplained: count.unexplained,
            conversion,
            mismatch,
            file,
        };
        assert(verdict@ =~= settled(self@, count@));
        verdict
    }
}

// ---------------------------------------------------------------------------
// Order
// ---------------------------------------------------------------------------

/// The order in which the members of an artifact are listed does not change the
/// verdict on it.
pub proof fn any_order_gets_the_same_verdict(
    contract: ContractModel,
    files: Seq<FileModel>,
    order: Seq<usize>,
)
    requires
        path_keys(files).no_duplicates(),
        shuffles(order, files.len()),
    ensures
        verdict_of(contract, picked(files, order)) == verdict_of(contract, files),
{
    let other = picked(files, order);
    let keys = path_keys(files);
    assert(path_keys(other) =~= picked(keys, order));
    let found = keys_have_an_order(path_keys(other));
    stable_order_of_shuffled(keys, order, found);
    in_order_is(keys, picked(order, found));
    assert(by_path(other) =~= by_path(files));
}

/// Texts in strictly rising order of their bytes.
pub open spec fn rising_texts(list: Seq<Seq<char>>) -> bool {
    forall|i: int, j: int|
        0 <= i < j < list.len() ==> bytes_less(
            encode_utf8(#[trigger] list[i]),
            encode_utf8(#[trigger] list[j]),
        )
}

/// One more text keeps a list of texts rising.
pub proof fn with_text_is_rising(list: Seq<Seq<char>>, text: Seq<char>)
    requires
        rising_texts(list),
    ensures
        rising_texts(with_text(list, text)),
        forall|t: Seq<char>| #[trigger]
            with_text(list, text).contains(t) <==> list.contains(t) || t == text,
    decreases list.len(),
{
    let made = with_text(list, text);
    if list.len() == 0 {
        assert(made =~= seq![text]);
        assert(made[0] == text);
    } else if list[0] == text {
        assert(list.contains(text));
    } else if bytes_less(encode_utf8(text), encode_utf8(list[0])) {
        assert(made[0] == text);
        assert forall|i: int, j: int| 0 <= i < j < made.len() implies bytes_less(
            encode_utf8(#[trigger] made[i]),
            encode_utf8(#[trigger] made[j]),
        ) by {
            assert(made[j] == list[j - 1]);
            if i > 0 {
                assert(made[i] == list[i - 1]);
            } else if j > 1 {
                bytes_less_transitive(
                    encode_utf8(text),
                    encode_utf8(list[0]),
                    encode_utf8(list[j - 1]),
                );
            }
        }
        assert forall|t: Seq<char>| #[trigger] made.contains(t) <==> list.contains(t) || t
            == text by {
            if list.contains(t) {
                let i = choose|i: int| 0 <= i < list.len() && list[i] == t;
                assert(made[i + 1] == t);
            }
            if made.contains(t) {
                let i = choose|i: int| 0 <= i < made.len() && made[i] == t;
                if i > 0 {
                    assert(list[i - 1] == t);
                }
            }
        }
    } else {
        let rest = list.drop_first();
        let after = with_text(rest, text);
        assert forall|i: int, j: int| 0 <= i < j < rest.len() implies bytes_less(
            encode_utf8(#[trigger] rest[i]),
            encode_utf8(#[trigger] rest[j]),
        ) by {
            assert(rest[i] == list[i + 1] && rest[j] == list[j + 1]);
        }
        with_text_is_rising(rest, text);
        if encode_utf8(text) == encode_utf8(list[0]) {
            vstd::utf8::encode_utf8_decode_utf8(text);
            vstd::utf8::encode_utf8_decode_utf8(list[0]);
        }
        bytes_less_total(encode_utf8(text), encode_utf8(list[0]));
        assert(made[0] == list[0]);
        assert forall|i: int, j: int| 0 <= i < j < made.len() implies bytes_less(
            encode_utf8(#[trigger] made[i]),
            encode_utf8(#[trigger] made[j]),
        ) by {
            assert(made[j] == after[j - 1]);
            assert(after.contains(after[j - 1]));
            if i > 0 {
                assert(made[i] == after[i - 1]);
            } else if rest.contains(after[j - 1]) {
                let k = choose|k: int| 0 <= k < rest.len() && rest[k] == after[j - 1];
                assert(rest[k] == list[k + 1]);
            }
        }
        assert forall|t: Seq<char>| #[trigger] made.contains(t) <==> list.contains(t) || t
            == text by {
            if made.contains(t) {
                let i = choose|i: int| 0 <= i < made.len() && made[i] == t;
                if i > 0 {
                    assert(after[i - 1] == t);
                    assert(after.contains(t));
                    if rest.contains(t) {
                        let k = choose|k: int| 0 <= k < rest.len() && rest[k] == t;
                        assert(list[k + 1] == t);
                    }
                } else {
                    assert(list[0] == t);
                }
            }
            if list.contains(t) {
                let k = choose|k: int| 0 <= k < list.len() && list[k] == t;
                if k > 0 {
                    assert(rest[k - 1] == t);
                    assert(after.contains(t));
                }
            }
            if t == text {
                assert(after.contains(t));
            }
            if after.contains(t) {
                let i = choose|i: int| 0 <= i < after.len() && after[i] == t;
                assert(made[i + 1] == t);
            }
        }
    }
}

proof fn with_texts_is_rising(list: Seq<Seq<char>>, more: Seq<Seq<char>>, upto: int)
    requires
        rising_texts(list),
    ensures
        rising_texts(with_texts(list, more, upto)),
    decreases upto,
{
    if upto > 0 {
        with_texts_is_rising(list, more, upto - 1);
        with_text_is_rising(with_texts(list, more, upto - 1), more[upto - 1]);
    }
}

proof fn tally_is_rising(contract: ContractModel, files: Seq<FileModel>, upto: int)
    ensures
        rising_texts(tally_upto(contract, files, upto).from),
        rising_texts(tally_upto(contract, files, upto).to),
    decreases upto,
{
    if upto > 0 {
        tally_is_rising(contract, files, upto - 1);
        let before = tally_upto(contract, files, upto - 1);
        if let Err(mismatch) = file_outcome(contract, files[upto - 1].tensors) {
            let declared = split_at(mismatch.declared, '|');
            with_text_is_rising(before.from, mismatch.observed);
            with_texts_is_rising(before.to, declared, declared.len() as int);
        }
    }
}

/// A conversion names the element types it starts from and those it leads to in
/// rising order, each once.
pub proof fn conversions_are_sorted(contract: ContractModel, files: Seq<FileModel>)
    ensures
        verdict_of(contract, files).conversion matches Some(conversion) ==> rising_texts(
            conversion.from,
        ) && rising_texts(conversion.to),
{
    tally_is_rising(contract, by_path(files), files.len() as int);
}

/// Members in strictly rising order of their paths.
pub open spec fn rising_paths(files: Seq<FileModel>) -> bool {
    forall|i: int, j: int|
        0 <= i < j < files.len() ==> bytes_less(
            encode_utf8((#[trigger] files[i]).path),
            encode_utf8((#[trigger] files[j]).path),
        )
}

/// A list of paths of members among the first `upto`, in rising order.
spec fn lists_paths(list: Seq<Seq<char>>, files: Seq<FileModel>, upto: int) -> bool {
    &&& rising_texts(list)
    &&& forall|k: int|
        0 <= k < list.len() ==> exists|i: int|
            0 <= i < upto && (#[trigger] files[i]).path == #[trigger] list[k]
}

proof fn one_path_more(list: Seq<Seq<char>>, files: Seq<FileModel>, upto: int)
    requires
        rising_paths(files),
        0 < upto <= files.len(),
        lists_paths(list, files, upto - 1),
    ensures
        lists_paths(list, files, upto),
        lists_paths(list.push(files[upto - 1].path), files, upto),
{
    let more = list.push(files[upto - 1].path);
    assert forall|k: int| 0 <= k < list.len() implies exists|i: int|
        0 <= i < upto && (#[trigger] files[i]).path == #[trigger] list[k] by {
        let i = choose|i: int| 0 <= i < upto - 1 && (#[trigger] files[i]).path == list[k];
        assert(files[i].path == list[k]);
    }
    assert forall|k: int| 0 <= k < more.len() implies exists|i: int|
        0 <= i < upto && (#[trigger] files[i]).path == #[trigger] more[k] by {
        if k < list.len() {
            assert(more[k] == list[k]);
            let i = choose|i: int| 0 <= i < upto - 1 && (#[trigger] files[i]).path == list[k];
            assert(files[i].path == more[k]);
        } else {
            assert(files[upto - 1].path == more[k]);
        }
    }
    assert forall|i: int, j: int| 0 <= i < j < more.len() implies bytes_less(
        encode_utf8(#[trigger] more[i]),
        encode_utf8(#[trigger] more[j]),
    ) by {
        assert(more[i] == list[i]);
        if j < list.len() {
            assert(more[j] == list[j]);
        } else {
            let at = choose|at: int| 0 <= at < upto - 1 && (#[trigger] files[at]).path == list[i];
            assert(bytes_less(encode_utf8(files[at].path), encode_utf8(files[upto - 1].path)));
        }
    }
}

proof fn tally_lists_paths(contract: ContractModel, files: Seq<FileModel>, upto: int)
    requires
        rising_paths(files),
        0 <= upto <= files.len(),
    ensures
        lists_paths(tally_upto(contract, files, upto).unexplained, files, upto),
        lists_paths(tally_upto(contract, files, upto).cast_files, files, upto),
    decreases upto,
{
    if upto > 0 {
        tally_lists_paths(contract, files, upto - 1);
        let before = tally_upto(contract, files, upto - 1);
        one_path_more(before.unexplained, files, upto);
        one_path_more(before.cast_files, files, upto);
    }
}

/// The members that a verdict leaves unexplained, and those that its conversion
/// is for, are listed in rising order of their paths.
pub proof fn verdicts_list_paths_in_order(contract: ContractModel, files: Seq<FileModel>)
    requires
        files.len() <= usize::MAX,
        path_keys(files).no_duplicates(),
    ensures
        rising_texts(verdict_of(contract, files).unexplained),
        verdict_of(contract, files).conversion matches Some(conversion) ==> rising_texts(
            conversion.files,
        ),
{
    let keys = path_keys(files);
    let order = keys_have_an_order(keys);
    let sorted = by_path(files);
    assert forall|i: int, j: int| 0 <= i < j < sorted.len() implies bytes_less(
        encode_utf8((#[trigger] sorted[i]).path),
        encode_utf8((#[trigger] sorted[j]).path),
    ) by {
        let x = order[i] as int;
        let y = order[j] as int;
        assert(crate::sort::stands_before(keys, x, y));
        assert(keys[x] == encode_utf8(files[x].path) && keys[y] == encode_utf8(files[y].path));
    }
    tally_lists_paths(contract, sorted, files.len() as int);
}

} // verus!
