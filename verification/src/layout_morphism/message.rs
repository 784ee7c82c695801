//! What layout morphisms say of what is wrong.

use super::formula::{FaultModel, FormulaFault};
use super::{
    CatalogFault, CatalogFaultModel, ErrorModel, LayoutError, ProbeFault, RecordFault,
    DEFAULT_LAYOUT, LAYOUT_MORPHISM_FORMAT,
};
use crate::text::{decimal, joined, push_decimal};
use crate::trusted::{char_quotation, quotation, quoted, quoted_char};
use crate::verdict::dim_texts;
use vstd::prelude::*;
use vstd::string::*;

verus! {

/// A list of numbers, spelled.
pub open spec fn list_spelling(numbers: Seq<u64>) -> Seq<char> {
    "["@ + joined(dim_texts(numbers), ", "@, numbers.len() as int) + "]"@
}

fn spell_list(numbers: &[u64]) -> (text: String)
    ensures
        text@ == list_spelling(numbers@),
{
    let ghost texts = dim_texts(numbers@);
    let mut text = String::new();
    text.append("[");
    let mut at: usize = 0;
    assert(text@ =~= "["@ + joined(texts, ", "@, 0));
    while at < numbers.len()
        invariant
            at <= numbers@.len(),
            texts == dim_texts(numbers@),
            text@ == "["@ + joined(texts, ", "@, at as int),
        decreases numbers@.len() - at,
    {
        assert(texts[at as int] == decimal(numbers@[at as int] as nat));
        if at > 0 {
            text.append(", ");
        }
        push_decimal(&mut text, numbers[at]);
        assert(text@ =~= "["@ + joined(texts, ", "@, at + 1));
        at += 1;
    }
    text.append("]");
    text
}

impl FaultModel {
    /// What is wrong with the formula.
    pub open spec fn message(self) -> Seq<char> {
        match self {
            FaultModel::Empty => "empty formula"@,
            FaultModel::Unclosed { text: of } => quotation(of) + " has an unclosed ceil("@,
            FaultModel::NotAnAxis { token } => quotation(token) + " is not an axis"@,
            FaultModel::NoSuchAxis { text: of, axis, rank } => quotation(of) + " reads axis "@
                + decimal(axis as nat) + " of a rank-"@ + decimal(rank as nat) + " tensor"@,
            FaultModel::NotPositive { token } => quotation(token) + " is not a positive integer"@,
            FaultModel::DividesByZero { text: of } => quotation(of) + " divides by zero"@,
            FaultModel::Inexact { text: of, value, operand } => quotation(of) + " divides "@
                + decimal(value as nat) + " by "@ + decimal(operand as nat)
                + ", which is not exact"@,
            FaultModel::Stray { text: of, found } => quotation(of) + " has a stray "@
                + char_quotation(found),
            FaultModel::EndsOnOperator { text: of } => quotation(of) + " ends on an operator"@,
            FaultModel::Zero { text: of } => quotation(of) + " is zero-sized"@,
        }
    }
}

impl FormulaFault {
    /// What is wrong with the formula.
    pub fn to_text(&self) -> (text: String)
        ensures
            text@ == self@.message(),
    {
        let mut text = String::new();
        match self {
            FormulaFault::Empty => {
                text.append("empty formula");
            },
            FormulaFault::Unclosed { text: of } => {
                text.append(quoted(of.as_str()).as_str());
                text.append(" has an unclosed ceil(");
            },
            FormulaFault::NotAnAxis { token } => {
                text.append(quoted(token.as_str()).as_str());
                text.append(" is not an axis");
            },
            FormulaFault::NoSuchAxis { text: of, axis, rank } => {
                text.append(quoted(of.as_str()).as_str());
                text.append(" reads axis ");
                push_decimal(&mut text, *axis as u64);
                text.append(" of a rank-");
                push_decimal(&mut text, *rank as u64);
                text.append(" tensor");
            },
            FormulaFault::NotPositive { token } => {
                text.append(quoted(token.as_str()).as_str());
                text.append(" is not a positive integer");
            },
            FormulaFault::DividesByZero { text: of } => {
                text.append(quoted(of.as_str()).as_str());
                text.append(" divides by zero");
            },
            FormulaFault::Inexact { text: of, value, operand } => {
                text.append(quoted(of.as_str()).as_str());
                text.append(" divides ");
                push_decimal(&mut text, *value as u64);
                text.append(" by ");
                push_decimal(&mut text, *operand as u64);
                text.append(", which is not exact");
            },
            FormulaFault::Stray { text: of, found } => {
                text.append(quoted(of.as_str()).as_str());
                text.append(" has a stray ");
                text.append(quoted_char(*found).as_str());
            },
            FormulaFault::EndsOnOperator { text: of } => {
                text.append(quoted(of.as_str()).as_str());
                text.append(" ends on an operator");
            },
            FormulaFault::Zero { text: of } => {
                text.append(quoted(of.as_str()).as_str());
                text.append(" is zero-sized");
            },
        }
        assert(text@ =~= self@.message());
        text
    }
}

impl RecordFault {
    /// What is wrong with the record.
    pub open spec fn message(self) -> Seq<char> {
        match self {
            RecordFault::Format => "not a "@ + LAYOUT_MORPHISM_FORMAT@ + " document"@,
            RecordFault::NoEvidence => "carries no evidence"@,
            RecordFault::PermutesNothing => "permutes a factorization it does not declare"@,
            RecordFault::RankedIdentity => "the identity is the identity at every rank"@,
            RecordFault::NoRank => "factors sub-axes without declaring a rank"@,
            RecordFault::PermutationLength { positions, sub_axes } => "permutes "@
                + decimal(positions as nat) + " positions over "@ + decimal(sub_axes as nat)
                + " sub-axes"@,
            RecordFault::SkipsFirstAxis => "does not factor axis 0"@,
            RecordFault::AxisOrder { axis, after } => "lists axis "@ + decimal(axis as nat)
                + " after axis "@ + decimal(after as nat)
                + "; sub-axes are grouped by axis, outermost first, and no axis is skipped"@,
            RecordFault::Covered { rank, covered } => "declares rank "@ + decimal(rank as nat)
                + " and factors "@ + decimal(covered as nat) + " axes"@,
            RecordFault::NoSuchPosition { to } => "permutes to position "@ + decimal(to as nat)
                + ", which does not exist"@,
            RecordFault::TwicePosition { to } => "sends two sub-axes to storage position "@
                + decimal(to as nat)
                + ". A layout that is not a bijection loses elements, and it loses them silently"@,
            RecordFault::Unknown => "the catalog carries no such arrangement"@,
            RecordFault::NoProbe => "no probe shape reached this record, so nothing was proved"@,
        }
    }

    /// What is wrong with the record.
    pub fn to_text(&self) -> (text: String)
        ensures
            text@ == self.message(),
    {
        let mut text = String::new();
        match self {
            RecordFault::Format => {
                text.append("not a ");
                text.append(LAYOUT_MORPHISM_FORMAT);
                text.append(" document");
            },
            RecordFault::NoEvidence => {
                text.append("carries no evidence");
            },
            RecordFault::PermutesNothing => {
                text.append("permutes a factorization it does not declare");
            },
            RecordFault::RankedIdentity => {
                text.append("the identity is the identity at every rank");
            },
            RecordFault::NoRank => {
                text.append("factors sub-axes without declaring a rank");
            },
            RecordFault::PermutationLength { positions, sub_axes } => {
                text.append("permutes ");
                push_decimal(&mut text, *positions as u64);
                text.append(" positions over ");
                push_decimal(&mut text, *sub_axes as u64);
                text.append(" sub-axes");
            },
            RecordFault::SkipsFirstAxis => {
                text.append("does not factor axis 0");
            },
            RecordFault::AxisOrder { axis, after } => {
                text.append("lists axis ");
                push_decimal(&mut text, *axis as u64);
                text.append(" after axis ");
                push_decimal(&mut text, *after as u64);
                text.append("; sub-axes are grouped by axis, outermost first, and no axis is skipped");
            },
            RecordFault::Covered { rank, covered } => {
                text.append("declares rank ");
                push_decimal(&mut text, *rank as u64);
                text.append(" and factors ");
                push_decimal(&mut text, *covered as u64);
                text.append(" axes");
            },
            RecordFault::NoSuchPosition { to } => {
                text.append("permutes to position ");
                push_decimal(&mut text, *to as u64);
                text.append(", which does not exist");
            },
            RecordFault::TwicePosition { to } => {
                text.append("sends two sub-axes to storage position ");
                push_decimal(&mut text, *to as u64);
                text.append(". A layout that is not a bijection loses elements, and it loses them silently");
            },
            RecordFault::Unknown => {
                text.append("the catalog carries no such arrangement");
            },
            RecordFault::NoProbe => {
                text.append("no probe shape reached this record, so nothing was proved");
            },
        }
        assert(text@ =~= self.message());
        text
    }
}

impl ProbeFault {
    /// What the probe showed.
    pub open spec fn message(self) -> Seq<char> {
        match self {
            ProbeFault::Unmapped { mapped, elements } => "the map writes "@ + decimal(mapped as nat)
                + " of "@ + decimal(elements as nat)
                + " source elements. A layout that does not write every element exactly once drops or duplicates numbers with every name and shape still correct"@,
            ProbeFault::PaddingNotZero { slot } => "padding at "@ + decimal(slot as nat)
                + " is not zero"@,
            ProbeFault::UndeclaredPadding { slots } => decimal(slots as nat)
                + " padding slots in a plan that reports none"@,
            ProbeFault::RoundTrip { element } => "the round trip does not return the source bytes; element "@
                + decimal(element as nat) + " differs"@,
        }
    }

    /// What the probe showed.
    pub fn to_text(&self) -> (text: String)
        ensures
            text@ == self.message(),
    {
        let mut text = String::new();
        match self {
            ProbeFault::Unmapped { mapped, elements } => {
                text.append("the map writes ");
                push_decimal(&mut text, *mapped as u64);
                text.append(" of ");
                push_decimal(&mut text, *elements as u64);
                text.append(" source elements. A layout that does not write every element exactly once drops or duplicates numbers with every name and shape still correct");
            },
            ProbeFault::PaddingNotZero { slot } => {
                text.append("padding at ");
                push_decimal(&mut text, *slot as u64);
                text.append(" is not zero");
            },
            ProbeFault::UndeclaredPadding { slots } => {
                push_decimal(&mut text, *slots as u64);
                text.append(" padding slots in a plan that reports none");
            },
            ProbeFault::RoundTrip { element } => {
                text.append("the round trip does not return the source bytes; element ");
                push_decimal(&mut text, *element as u64);
                text.append(" differs");
            },
        }
        assert(text@ =~= self.message());
        text
    }
}

impl CatalogFaultModel {
    /// What is wrong with the catalog.
    pub open spec fn message(self) -> Seq<char> {
        match self {
            CatalogFaultModel::Unreadable { detail } => detail,
            CatalogFaultModel::Duplicate => "declares a handle the catalog already carries"@,
            CatalogFaultModel::NoDefault => "carries no "@ + DEFAULT_LAYOUT@ + " record"@,
        }
    }
}

impl CatalogFault {
    /// What is wrong with the catalog.
    pub fn to_text(&self) -> (text: String)
        ensures
            text@ == self@.message(),
    {
        let mut text = String::new();
        match self {
            CatalogFault::Unreadable { detail } => {
                text.append(detail.as_str());
            },
            CatalogFault::Duplicate => {
                text.append("declares a handle the catalog already carries");
            },
            CatalogFault::NoDefault => {
                text.append("carries no ");
                text.append(DEFAULT_LAYOUT);
                text.append(" record");
            },
        }
        assert(text@ =~= self@.message());
        text
    }
}

impl ErrorModel {
    /// What is wrong, with where.
    pub open spec fn message(self) -> Seq<char> {
        match self {
            ErrorModel::Catalog { file, fault } => "layout catalog "@ + file + ": "@
                + fault.message(),
            ErrorModel::Record { handle, fault } => handle + ": "@ + fault.message(),
            ErrorModel::Shape { handle, shape } => handle
                + ": cannot arrange a tensor of shape "@ + list_spelling(shape),
            ErrorModel::Rank { handle, want, got } => handle + " arranges rank-"@ + decimal(
                want as nat,
            ) + " tensors; this one is rank "@ + decimal(got as nat),
            ErrorModel::ShortAxis { handle, axis, product, dim } => handle + ": axis "@ + decimal(
                axis as nat,
            ) + " factors into "@ + decimal(product as nat) + " elements and the axis is "@
                + decimal(dim as nat),
            ErrorModel::Formula { handle, axis, fault } => handle + ": axis "@ + decimal(
                axis as nat,
            ) + ": "@ + fault.message(),
            ErrorModel::Probe { handle, shape, fault } => handle + ": shape "@ + list_spelling(
                shape,
            ) + ": "@ + fault.message(),
            ErrorModel::Buffer { got, want } => "buffer holds "@ + decimal(got as nat)
                + " bytes, the plan needs "@ + decimal(want as nat),
            ErrorModel::Candidate { handle } => handle
                + " is an unratified candidate and does not derive"@,
        }
    }
}

impl LayoutError {
    /// What is wrong, with where.
    pub fn to_text(&self) -> (text: String)
        ensures
            text@ == self@.message(),
    {
        let mut text = String::new();
        match self {
            LayoutError::Catalog { file, fault } => {
                text.append("layout catalog ");
                text.append(file.as_str());
                text.append(": ");
                text.append(fault.to_text().as_str());
            },
            LayoutError::Record { handle, fault } => {
                text.append(handle.as_str());
                text.append(": ");
                text.append(fault.to_text().as_str());
            },
            LayoutError::Shape { handle, shape } => {
                text.append(handle.as_str());
                text.append(": cannot arrange a tensor of shape ");
                text.append(spell_list(shape.as_slice()).as_str());
            },
            LayoutError::Rank { handle, want, got } => {
                text.append(handle.as_str());
                text.append(" arranges rank-");
                push_decimal(&mut text, *want as u64);
                text.append(" tensors; this one is rank ");
                push_decimal(&mut text, *got as u64);
            },
            LayoutError::ShortAxis { handle, axis, product, dim } => {
                text.append(handle.as_str());
                text.append(": axis ");
                push_decimal(&mut text, *axis as u64);
                text.append(" factors into ");
                push_decimal(&mut text, *product);
                text.append(" elements and the axis is ");
                push_decimal(&mut text, *dim);
            },
            LayoutError::Formula { handle, axis, fault } => {
                text.append(handle.as_str());
                text.append(": axis ");
                push_decimal(&mut text, *axis as u64);
                text.append(": ");
                text.append(fault.to_text().as_str());
            },
            LayoutError::Probe { handle, shape, fault } => {
                text.append(handle.as_str());
                text.append(": shape ");
                text.append(spell_list(shape.as_slice()).as_str());
                text.append(": ");
                text.append(fault.to_text().as_str());
            },
            LayoutError::Buffer { got, want } => {
                text.append("buffer holds ");
                push_decimal(&mut text, *got as u64);
                text.append(" bytes, the plan needs ");
                push_decimal(&mut text, *want as u64);
            },
            LayoutError::Candidate { handle } => {
                text.append(handle.as_str());
                text.append(" is an unratified candidate and does not derive");
            },
        }
        assert(text@ =~= self@.message());
        text
    }
}

} // verus!
