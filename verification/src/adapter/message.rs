//! What deriving a layout says of what it refuses.

use super::decide::{Reason, ReasonModel};
use super::runs::{AdapterError, FaultModel};
use crate::trusted::{quotation, quoted};
use vstd::prelude::*;
use vstd::string::*;

verus! {

impl ReasonModel {
    /// Why the change of layout is a conversion.
    pub open spec fn message(self) -> Seq<char> {
        match self {
            ReasonModel::Required { role } => "the target requires "@ + quotation(role)
                + ", which the source has no bytes for"@,
            ReasonModel::NoBytes { role } => "the source carries no bytes for the role "@
                + quotation(role),
            ReasonModel::NothingDescribed => "the target contract describes none of this file"@,
            ReasonModel::NoPlace { role } => "the target layout has no place for the role "@
                + quotation(role),
            ReasonModel::NoRuns => "a target tensor with no runs"@,
            ReasonModel::MixedDtypes { name, first, other } => quotation(name)
                + " would concatenate "@ + first + " and "@ + other
                + " — a cast is math, not layout"@,
            ReasonModel::MixedRows { name } => quotation(name)
                + " would concatenate rows of different shapes"@,
        }
    }
}

impl Reason {
    /// Why the change of layout is a conversion.
    pub fn to_text(&self) -> (text: String)
        ensures
            text@ == self@.message(),
    {
        let mut text = String::new();
        match self {
            Reason::Required { role } => {
                text.append("the target requires ");
                text.append(quoted(role.as_str()).as_str());
                text.append(", which the source has no bytes for");
            },
            Reason::NoBytes { role } => {
                text.append("the source carries no bytes for the role ");
                text.append(quoted(role.as_str()).as_str());
            },
            Reason::NothingDescribed => {
                text.append("the target contract describes none of this file");
            },
            Reason::NoPlace { role } => {
                text.append("the target layout has no place for the role ");
                text.append(quoted(role.as_str()).as_str());
            },
            Reason::NoRuns => {
                text.append("a target tensor with no runs");
            },
            Reason::MixedDtypes { name, first, other } => {
                text.append(quoted(name.as_str()).as_str());
                text.append(" would concatenate ");
                text.append(first.as_str());
                text.append(" and ");
                text.append(other.as_str());
                text.append(" — a cast is math, not layout");
            },
            Reason::MixedRows { name } => {
                text.append(quoted(name.as_str()).as_str());
                text.append(" would concatenate rows of different shapes");
            },
        }
        assert(text@ =~= self@.message());
        text
    }
}

impl FaultModel {
    /// Why the layout is not read off, or not derived.
    pub open spec fn message(self) -> Seq<char> {
        match self {
            FaultModel::SourceMismatch => "the source file does not implement the source contract"@,
            FaultModel::TwiceCarried { role } => "two source tensors carry the role "@
                + quotation(role),
            FaultModel::PartialRows { role } => "run "@ + quotation(role)
                + " is not a whole number of rows"@,
            FaultModel::MixedPermutes { name } => quotation(name)
                + " would concatenate runs re-arranged differently"@,
            FaultModel::TwoPermutes { name } => quotation(name)
                + " is re-arranged on BOTH sides; composing two permutes is not in this vocabulary"@,
        }
    }
}

impl AdapterError {
    /// Why the layout is not read off, or not derived.
    pub fn to_text(&self) -> (text: String)
        ensures
            text@ == self@.message(),
    {
        let mut text = String::new();
        match self {
            AdapterError::SourceMismatch => {
                text.append("the source file does not implement the source contract");
            },
            AdapterError::TwiceCarried { role } => {
                text.append("two source tensors carry the role ");
                text.append(quoted(role.as_str()).as_str());
            },
            AdapterError::PartialRows { role } => {
                text.append("run ");
                text.append(quoted(role.as_str()).as_str());
                text.append(" is not a whole number of rows");
            },
            AdapterError::MixedPermutes { name } => {
                text.append(quoted(name.as_str()).as_str());
                text.append(" would concatenate runs re-arranged differently");
            },
            AdapterError::TwoPermutes { name } => {
                text.append(quoted(name.as_str()).as_str());
                text.append(" is re-arranged on BOTH sides; composing two permutes is not in this vocabulary");
            },
        }
        assert(text@ =~= self@.message());
        text
    }
}

} // verus!
