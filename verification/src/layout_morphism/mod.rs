//! Layout morphisms: which byte of an arranged tensor is which byte of the
//! logical one, and the copy that puts it there.
//!
//! A layout morphism is data: a factorization of a tensor's logical shape into
//! sub-axes, and a permutation of those sub-axes. There is one walk, and it runs
//! in both directions: the inverse is the same walk with source and destination
//! swapped.
//!
//! Padding is part of the language. A sub-axis product that exceeds its logical
//! dimension rounds up: the destination is larger than the source, the elements
//! in between are zero, and the map is injective rather than bijective.

pub mod catalog;
pub mod formula;
pub mod formula_laws;
pub mod laws;
pub mod meaning;
pub mod message;
pub mod plan;
pub mod ratify;
pub mod records;
pub mod walk;

use crate::text::{chars_of, decimal, push_decimal, same_chars};
use formula::{FaultModel, FormulaFault};
use vstd::prelude::*;
use vstd::string::*;

pub use catalog::{arrangement, catalog, Catalog};
pub use plan::{Plan, Run};
pub use ratify::{probe_shapes, ratify, Probe, Ratification};

verus! {

/// The document format tag.
pub const LAYOUT_MORPHISM_FORMAT: &'static str = "tensorfs-layout-morphism-v2";

/// The arrangement every tree carries unless it says otherwise.
pub const DEFAULT_LAYOUT: &'static str = "torch.contiguous@1";

// ---------------------------------------------------------------------------
// Errors
// ---------------------------------------------------------------------------

/// Why a document of the catalog is refused.
#[derive(Clone, Debug, PartialEq, Eq)]
pub enum CatalogFault {
    /// The document does not parse.
    Unreadable { detail: String },
    /// Its handle is in the catalog already.
    Duplicate,
    /// There is no record of the default layout.
    NoDefault,
}

/// Why a record is refused.
#[derive(Clone, Copy, Debug, PartialEq, Eq, Structural)]
pub enum RecordFault {
    /// The format tag is another one.
    Format,
    /// It carries no evidence.
    NoEvidence,
    /// It permutes a factorization it does not declare.
    PermutesNothing,
    /// The identity declares a rank.
    RankedIdentity,
    /// It factors sub-axes without declaring a rank.
    NoRank,
    /// It permutes another number of positions than it has sub-axes.
    PermutationLength { positions: usize, sub_axes: usize },
    /// It does not factor the first axis.
    SkipsFirstAxis,
    /// It lists an axis behind one that is neither the same nor the one before.
    AxisOrder { axis: usize, after: usize },
    /// It factors another number of axes than its rank.
    Covered { rank: usize, covered: usize },
    /// It permutes to a position that does not exist.
    NoSuchPosition { to: usize },
    /// It sends two sub-axes to one position.
    TwicePosition { to: usize },
    /// The catalog holds no such record.
    Unknown,
    /// No probe shape reached the record.
    NoProbe,
}

/// What a probe of a record showed.
#[derive(Clone, Copy, Debug, PartialEq, Eq, Structural)]
pub enum ProbeFault {
    /// The map does not write every element exactly once.
    Unmapped { mapped: u64, elements: u64 },
    /// Padding holds something other than zero.
    PaddingNotZero { slot: u64 },
    /// There is padding in a plan that reports none.
    UndeclaredPadding { slots: usize },
    /// The round trip does not give the source back.
    RoundTrip { element: usize },
}

#[derive(Clone, Debug, PartialEq, Eq)]
pub enum LayoutError {
    Catalog { file: String, fault: CatalogFault },
    Record { handle: String, fault: RecordFault },
    /// A tensor of this shape cannot be arranged.
    Shape { handle: String, shape: Vec<u64> },
    Rank { handle: String, want: usize, got: usize },
    ShortAxis { handle: String, axis: usize, product: u64, dim: u64 },
    Formula { handle: String, axis: usize, fault: FormulaFault },
    Probe { handle: String, shape: Vec<u64>, fault: ProbeFault },
    Buffer { got: usize, want: usize },
    Candidate { handle: String },
}

/// The value of a [`CatalogFault`].
pub enum CatalogFaultModel {
    Unreadable { detail: Seq<char> },
    Duplicate,
    NoDefault,
}

/// The value of a [`LayoutError`].
pub enum ErrorModel {
    Catalog { file: Seq<char>, fault: CatalogFaultModel },
    Record { handle: Seq<char>, fault: RecordFault },
    Shape { handle: Seq<char>, shape: Seq<u64> },
    Rank { handle: Seq<char>, want: usize, got: usize },
    ShortAxis { handle: Seq<char>, axis: usize, product: u64, dim: u64 },
    Formula { handle: Seq<char>, axis: usize, fault: FaultModel },
    Probe { handle: Seq<char>, shape: Seq<u64>, fault: ProbeFault },
    Buffer { got: usize, want: usize },
    Candidate { handle: Seq<char> },
}

impl View for CatalogFault {
    type V = CatalogFaultModel;

    open spec fn view(&self) -> CatalogFaultModel {
        match self {
            CatalogFault::Unreadable { detail } => CatalogFaultModel::Unreadable {
                detail: detail@,
            },
            CatalogFault::Duplicate => CatalogFaultModel::Duplicate,
            CatalogFault::NoDefault => CatalogFaultModel::NoDefault,
        }
    }
}

impl View for LayoutError {
    type V = ErrorModel;

    open spec fn view(&self) -> ErrorModel {
        match self {
            LayoutError::Catalog { file, fault } => ErrorModel::Catalog {
                file: file@,
                fault: fault@,
            },
            LayoutError::Record { handle, fault } => ErrorModel::Record {
                handle: handle@,
                fault: *fault,
            },
            LayoutError::Shape { handle, shape } => ErrorModel::Shape {
                handle: handle@,
                shape: shape@,
            },
            LayoutError::Rank { handle, want, got } => ErrorModel::Rank {
                handle: handle@,
                want: *want,
                got: *got,
            },
            LayoutError::ShortAxis { handle, axis, product, dim } => ErrorModel::ShortAxis {
                handle: handle@,
                axis: *axis,
                product: *product,
                dim: *dim,
            },
            LayoutError::Formula { handle, axis, fault } => ErrorModel::Formula {
                handle: handle@,
                axis: *axis,
                fault: fault@,
            },
            LayoutError::Probe { handle, shape, fault } => ErrorModel::Probe {
                handle: handle@,
                shape: shape@,
                fault: *fault,
            },
            LayoutError::Buffer { got, want } => ErrorModel::Buffer { got: *got, want: *want },
            LayoutError::Candidate { handle } => ErrorModel::Candidate { handle: handle@ },
        }
    }
}

// ---------------------------------------------------------------------------
// Records
// ---------------------------------------------------------------------------

/// The two classes: the compiler's own closed vocabulary, and the arrangement a
/// kernel library demands.
#[derive(Clone, Copy, Debug, PartialEq, Eq, Structural)]
pub enum LayoutClass {
    Inductor,
    EndpointDeclared,
}

/// One factor of one logical axis.
#[derive(Clone, Debug, PartialEq, Eq)]
pub struct SubAxis {
    pub axis: usize,
    pub extent: String,
}

/// One storage arrangement.
#[derive(Clone, Debug, PartialEq, Eq)]
pub struct LayoutMorphism {
    pub format: String,
    pub name: String,
    pub version: u32,
    pub class: LayoutClass,
    pub description: String,
    pub rank: usize,
    pub sub_axes: Vec<SubAxis>,
    pub permutation: Vec<usize>,
    /// A wish that nothing has ratified. It parses, it verifies, and it still
    /// never derives.
    pub candidate: bool,
    pub provenance: Vec<String>,
    pub digest: String,
}

/// `<name>@<version>`.
pub open spec fn handle_text(record: LayoutMorphism) -> Seq<char> {
    record.name@ + "@"@ + decimal(record.version as nat)
}

/// The first sub-axis among the first `upto` that is out of order: the first
/// names axis 0, each other the axis before it or the next one.
pub open spec fn axis_fault(sub_axes: Seq<SubAxis>, upto: int) -> Option<RecordFault>
    decreases upto,
{
    if upto <= 0 {
        None
    } else {
        match axis_fault(sub_axes, upto - 1) {
            Some(fault) => Some(fault),
            None => if upto == 1 {
                if sub_axes[0].axis != 0 {
                    Some(RecordFault::SkipsFirstAxis)
                } else {
                    None
                }
            } else {
                let axis = sub_axes[upto - 1].axis;
                let after = sub_axes[upto - 2].axis;
                if axis != after && axis != after + 1 {
                    Some(RecordFault::AxisOrder { axis, after })
                } else {
                    None
                }
            },
        }
    }
}

/// The first position among the first `upto` that does not exist or is taken.
pub open spec fn position_fault(permutation: Seq<usize>, upto: int) -> Option<RecordFault>
    decreases upto,
{
    if upto <= 0 {
        None
    } else {
        match position_fault(permutation, upto - 1) {
            Some(fault) => Some(fault),
            None => {
                let to = permutation[upto - 1];
                if to >= permutation.len() {
                    Some(RecordFault::NoSuchPosition { to })
                } else if exists|i: int| 0 <= i < upto - 1 && #[trigger] permutation[i] == to {
                    Some(RecordFault::TwicePosition { to })
                } else {
                    None
                }
            },
        }
    }
}

/// The first rule that a record breaks.
pub open spec fn record_fault(record: LayoutMorphism) -> Option<RecordFault> {
    let sub_axes = record.sub_axes@;
    let permutation = record.permutation@;
    if record.format@ != LAYOUT_MORPHISM_FORMAT@ {
        Some(RecordFault::Format)
    } else if record.provenance@.len() == 0 {
        Some(RecordFault::NoEvidence)
    } else if sub_axes.len() == 0 {
        if permutation.len() != 0 {
            Some(RecordFault::PermutesNothing)
        } else if record.rank != 0 {
            Some(RecordFault::RankedIdentity)
        } else {
            None
        }
    } else if record.rank == 0 {
        Some(RecordFault::NoRank)
    } else if permutation.len() != sub_axes.len() {
        Some(
            RecordFault::PermutationLength {
                positions: permutation.len() as usize,
                sub_axes: sub_axes.len() as usize,
            },
        )
    } else if axis_fault(sub_axes, sub_axes.len() as int) is Some {
        axis_fault(sub_axes, sub_axes.len() as int)
    } else if sub_axes.last().axis + 1 != record.rank {
        Some(
            RecordFault::Covered {
                rank: record.rank,
                covered: (sub_axes.last().axis + 1) as usize,
            },
        )
    } else {
        position_fault(permutation, permutation.len() as int)
    }
}

proof fn axis_fault_stays(sub_axes: Seq<SubAxis>, low: int, high: int)
    requires
        0 <= low <= high,
        axis_fault(sub_axes, low) is Some,
    ensures
        axis_fault(sub_axes, high) == axis_fault(sub_axes, low),
    decreases high - low,
{
    if low < high {
        axis_fault_stays(sub_axes, low, high - 1);
    }
}

proof fn position_fault_stays(permutation: Seq<usize>, low: int, high: int)
    requires
        0 <= low <= high,
        position_fault(permutation, low) is Some,
    ensures
        position_fault(permutation, high) == position_fault(permutation, low),
    decreases high - low,
{
    if low < high {
        position_fault_stays(permutation, low, high - 1);
    }
}

fn check_axes(sub_axes: &Vec<SubAxis>) -> (outcome: Result<(), RecordFault>)
    ensures
        match outcome {
            Ok(_) => axis_fault(sub_axes@, sub_axes@.len() as int) is None,
            Err(fault) => axis_fault(sub_axes@, sub_axes@.len() as int) == Some(fault),
        },
        outcome is Ok && sub_axes@.len() > 0 ==> sub_axes@.last().axis < sub_axes@.len(),
{
    let mut axis: usize = 0;
    let mut at: usize = 0;
    while at < sub_axes.len()
        invariant
            at <= sub_axes@.len(),
            axis_fault(sub_axes@, at as int) is None,
            at > 0 ==> axis == sub_axes@[at - 1].axis,
            axis <= at,
            at > 0 ==> axis < at,
        decreases sub_axes@.len() - at,
    {
        let next: usize = sub_axes[at].axis;
        proof {
            if axis_fault(sub_axes@, at + 1) is Some {
                axis_fault_stays(sub_axes@, at + 1, sub_axes@.len() as int);
            }
        }
        if at == 0 {
            if next != 0 {
                return Err(RecordFault::SkipsFirstAxis);
            }
        } else if next != axis && next != axis + 1 {
            return Err(RecordFault::AxisOrder { axis: next, after: axis });
        }
        axis = next;
        at += 1;
    }
    Ok(())
}

fn check_positions(permutation: &Vec<usize>) -> (outcome: Result<(), RecordFault>)
    ensures
        match outcome {
            Ok(_) => position_fault(permutation@, permutation@.len() as int) is None,
            Err(fault) => position_fault(permutation@, permutation@.len() as int) == Some(fault),
        },
{
    let ghost all = permutation@;
    let mut seen: Vec<bool> = Vec::new();
    seen.resize(permutation.len(), false);
    let mut at: usize = 0;
    while at < permutation.len()
        invariant
            at <= permutation@.len(),
            all == permutation@,
            position_fault(all, at as int) is None,
            seen@.len() == permutation@.len(),
            forall|p: int|
                0 <= p < seen@.len() ==> (#[trigger] seen@[p] <==> exists|i: int|
                    0 <= i < at && #[trigger] all[i] == p),
        decreases permutation@.len() - at,
    {
        let to: usize = permutation[at];
        proof {
            if position_fault(all, at + 1) is Some {
                position_fault_stays(all, at + 1, all.len() as int);
            }
        }
        if to >= seen.len() {
            return Err(RecordFault::NoSuchPosition { to });
        }
        if seen[to] {
            assert(exists|i: int| 0 <= i < at && #[trigger] all[i] == to);
            return Err(RecordFault::TwicePosition { to });
        }
        let ghost before = seen@;
        seen[to] = true;
        proof {
            assert forall|p: int| 0 <= p < seen@.len() implies (#[trigger] seen@[p]
                <==> exists|i: int| 0 <= i < at + 1 && #[trigger] all[i] == p) by {
                if p == to {
                    assert(all[at as int] == p);
                } else {
                    assert(seen@[p] == before[p]);
                }
            }
        }
        at += 1;
    }
    Ok(())
}

impl LayoutMorphism {
    /// `<name>@<version>`.
    pub fn handle(&self) -> (handle: String)
        ensures
            handle@ == handle_text(*self),
    {
        let mut handle = self.name.clone();
        handle.append("@");
        push_decimal(&mut handle, self.version as u64);
        handle
    }

    /// The identity: no factorization, no permutation, every rank.
    pub fn is_identity(&self) -> (yes: bool)
        ensures
            yes == (self.sub_axes@.len() == 0),
    {
        self.sub_axes.len() == 0
    }

    /// Refuses a candidate before it moves a byte.
    pub fn ensure_ratified(&self) -> (outcome: Result<(), LayoutError>)
        ensures
            match outcome {
                Ok(_) => !self.candidate,
                Err(e) => self.candidate && e@ == (ErrorModel::Candidate {
                    handle: handle_text(*self),
                }),
            },
    {
        if self.candidate {
            return Err(LayoutError::Candidate { handle: self.handle() });
        }
        Ok(())
    }

    fn find_fault(&self) -> (outcome: Result<(), RecordFault>)
        ensures
            match outcome {
                Ok(_) => record_fault(*self) is None,
                Err(fault) => record_fault(*self) == Some(fault),
            },
    {
        if !same_chars(&chars_of(self.format.as_str()), &chars_of(LAYOUT_MORPHISM_FORMAT)) {
            return Err(RecordFault::Format);
        }
        if self.provenance.len() == 0 {
            return Err(RecordFault::NoEvidence);
        }
        if self.sub_axes.len() == 0 {
            if self.permutation.len() != 0 {
                return Err(RecordFault::PermutesNothing);
            }
            if self.rank != 0 {
                return Err(RecordFault::RankedIdentity);
            }
            return Ok(());
        }
        if self.rank == 0 {
            return Err(RecordFault::NoRank);
        }
        if self.permutation.len() != self.sub_axes.len() {
            return Err(
                RecordFault::PermutationLength {
                    positions: self.permutation.len(),
                    sub_axes: self.sub_axes.len(),
                },
            );
        }
        check_axes(&self.sub_axes)?;
        let covered: usize = self.sub_axes[self.sub_axes.len() - 1].axis + 1;
        if covered != self.rank {
            return Err(RecordFault::Covered { rank: self.rank, covered });
        }
        check_positions(&self.permutation)
    }

    /// Checks everything that can be checked of a record without a shape.
    pub fn check(&self) -> (outcome: Result<(), LayoutError>)
        ensures
            match outcome {
                Ok(_) => record_fault(*self) is None,
                Err(e) => record_fault(*self) is Some && e@ == (ErrorModel::Record {
                    handle: handle_text(*self),
                    fault: record_fault(*self).unwrap(),
                }),
            },
    {
        match self.find_fault() {
            Ok(_) => Ok(()),
            Err(fault) => Err(LayoutError::Record { handle: self.handle(), fault }),
        }
    }
}

} // verus!
