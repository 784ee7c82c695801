//! The closed planner registry: how one file's bytes are cut into objects.
//!
//! A tensor container is cut along its own structure and then on a fixed grid;
//! every other file is one whole blob of any size.

pub mod declarations;
pub mod gguf;
pub mod gguf_laws;
pub mod metadata_laws;
pub mod prefixes;
pub mod region_laws;
pub mod safetensors;
pub mod safetensors_laws;

use crate::contract::{
    rising_within, stamp_for, Contract, ContractModel, Stamp, StampModel,
};
use self::gguf::{contract_model, gguf_regions};
use self::safetensors::safetensors_regions;
use crate::text::{decimal, push_decimal};
use crate::trusted::{invalid_input, unexpected_eof};
use std::io;
use vstd::prelude::*;
use vstd::string::*;

verus! {

/// The bound on one tensor-planned object. It is not a store admission cap: a
/// blob is one object of any size.
pub const MAX_OBJECT_SIZE: u64 = 67108864;

/// The bound on the number of objects of one file.
pub const MAX_OBJECT_COUNT: usize = 1000000;

#[derive(Clone, Copy, Debug, PartialEq, Eq, Structural)]
pub enum PlannerId {
    SafetensorsV1,
    GgufV1,
    BlobV1,
}

/// The tensor container formats: exactly the planners whose file bodies carry a
/// record list.
#[derive(Clone, Copy, Debug, PartialEq, Eq, Structural)]
pub enum TensorFormat {
    SafetensorsV1,
    GgufV1,
}

impl PlannerId {
    pub open spec fn spelling(self) -> Seq<char> {
        match self {
            PlannerId::SafetensorsV1 => "safetensors-v1"@,
            PlannerId::GgufV1 => "gguf-v1"@,
            PlannerId::BlobV1 => "blob-v1"@,
        }
    }

    pub fn as_str(self) -> (name: &'static str)
        ensures
            name@ == self.spelling(),
    {
        match self {
            PlannerId::SafetensorsV1 => "safetensors-v1",
            PlannerId::GgufV1 => "gguf-v1",
            PlannerId::BlobV1 => "blob-v1",
        }
    }

    /// The tensor format of a tensor planner.
    pub open spec fn format(self) -> Option<TensorFormat> {
        match self {
            PlannerId::SafetensorsV1 => Some(TensorFormat::SafetensorsV1),
            PlannerId::GgufV1 => Some(TensorFormat::GgufV1),
            PlannerId::BlobV1 => None,
        }
    }

    pub fn tensor_format(self) -> (format: Option<TensorFormat>)
        ensures
            format == self.format(),
    {
        match self {
            PlannerId::SafetensorsV1 => Some(TensorFormat::SafetensorsV1),
            PlannerId::GgufV1 => Some(TensorFormat::GgufV1),
            PlannerId::BlobV1 => None,
        }
    }
}

impl TensorFormat {
    pub open spec fn planner(self) -> PlannerId {
        match self {
            TensorFormat::SafetensorsV1 => PlannerId::SafetensorsV1,
            TensorFormat::GgufV1 => PlannerId::GgufV1,
        }
    }

    pub fn planner_id(self) -> (planner: PlannerId)
        ensures
            planner == self.planner(),
    {
        match self {
            TensorFormat::SafetensorsV1 => PlannerId::SafetensorsV1,
            TensorFormat::GgufV1 => PlannerId::GgufV1,
        }
    }
}

/// A tensor format and its planner name each other.
pub proof fn format_of_planner(format: TensorFormat)
    ensures
        format.planner().format() == Some(format),
{
}

/// What one planned region holds.
#[derive(Clone, Copy, Debug, PartialEq, Eq, Structural)]
pub enum RegionKind {
    Header,
    Tensor,
    Blob,
    Raw,
}

/// One planned region of a file.
#[derive(Clone, Copy, Debug, PartialEq, Eq, Structural)]
pub struct Region {
    pub offset: u64,
    pub length: u64,
    pub kind: RegionKind,
}

impl Region {
    pub fn offset(&self) -> (offset: u64)
        ensures
            offset == self.offset,
    {
        self.offset
    }

    pub fn length(&self) -> (length: u64)
        ensures
            length == self.length,
    {
        self.length
    }

    pub fn kind(&self) -> (kind: RegionKind)
        ensures
            kind == self.kind,
    {
        self.kind
    }
}

/// Why a file could not be planned or hashed.
#[derive(Debug)]
pub enum PlanError {
    Read(io::Error),
    SourceChanged(io::Error),
    InvalidCoverage,
    ObjectLimit,
    ResourceExhausted,
    SourceLengthMismatch { expected: u64, actual: u64 },
}

impl PlanError {
    pub open spec fn message(self) -> Seq<char> {
        match self {
            PlanError::Read(_) => "source read failed"@,
            PlanError::SourceChanged(_) => "source changed during planning or hashing"@,
            PlanError::InvalidCoverage => "planner produced invalid file coverage"@,
            PlanError::ObjectLimit => "planner exceeds bounded object cardinality"@,
            PlanError::ResourceExhausted => "planner could not reserve bounded working memory"@,
            PlanError::SourceLengthMismatch { expected, actual } =>
                "plan source length mismatch: expected "@ + decimal(expected as nat) + ", got "@ + decimal(
                actual as nat,
            ),
        }
    }

    /// The failure in words.
    pub fn to_text(&self) -> (text: String)
        ensures
            text@ == self.message(),
    {
        match self {
            PlanError::Read(_) => "source read failed".to_string(),
            PlanError::SourceChanged(_) => "source changed during planning or hashing".to_string(),
            PlanError::InvalidCoverage => "planner produced invalid file coverage".to_string(),
            PlanError::ObjectLimit => "planner exceeds bounded object cardinality".to_string(),
            PlanError::ResourceExhausted => {
                "planner could not reserve bounded working memory".to_string()
            },
            PlanError::SourceLengthMismatch { expected, actual } => {
                let mut text = String::new();
                text.append("plan source length mismatch: expected ");
                push_decimal(&mut text, *expected);
                text.append(", got ");
                push_decimal(&mut text, *actual);
                assert(text@ =~= self.message());
                text
            },
        }
    }
}

// ---------------------------------------------------------------------------
// Coverage
// ---------------------------------------------------------------------------

/// The sum of the lengths of the first `upto` regions.
pub open spec fn region_sum(regions: Seq<Region>, upto: int) -> nat
    decreases upto,
{
    if upto <= 0 {
        0
    } else {
        region_sum(regions, upto - 1) + regions[upto - 1].length as nat
    }
}

/// The regions are non-empty and follow one another from `from` to `to`.
pub open spec fn tiles(regions: Seq<Region>, from: int, to: int) -> bool {
    &&& forall|i: int|
        0 <= i < regions.len() ==> (#[trigger] regions[i]).length > 0 && regions[i].offset == from
            + region_sum(regions, i)
    &&& from + region_sum(regions, regions.len() as int) == to
}

/// No region is larger than the grid allows.
pub open spec fn gridded(regions: Seq<Region>) -> bool {
    forall|i: int| 0 <= i < regions.len() ==> (#[trigger] regions[i]).length <= MAX_OBJECT_SIZE
}

/// Exact coverage of a file by a bounded number of regions: one region of any
/// size for a blob, grid-bounded regions otherwise.
pub open spec fn covers(planner: PlannerId, file_size: u64, regions: Seq<Region>) -> bool {
    &&& regions.len() <= MAX_OBJECT_COUNT
    &&& tiles(regions, 0, file_size as int)
    &&& if planner == PlannerId::BlobV1 {
        regions.len() <= 1
    } else {
        gridded(regions)
    }
}

proof fn region_sum_of_prefix(a: Seq<Region>, b: Seq<Region>, upto: int)
    requires
        0 <= upto <= a.len(),
        upto <= b.len(),
        forall|i: int| 0 <= i < upto ==> a[i] == b[i],
    ensures
        region_sum(a, upto) == region_sum(b, upto),
    decreases upto,
{
    if upto > 0 {
        region_sum_of_prefix(a, b, upto - 1);
    }
}

proof fn region_sum_of_join(a: Seq<Region>, b: Seq<Region>, upto: int)
    requires
        0 <= upto <= b.len(),
    ensures
        region_sum(a + b, a.len() + upto) == region_sum(a, a.len() as int) + region_sum(b, upto),
    decreases upto,
{
    if upto > 0 {
        region_sum_of_join(a, b, upto - 1);
        assert((a + b)[a.len() + upto - 1] == b[upto - 1]);
    } else {
        region_sum_of_prefix(a + b, a, a.len() as int);
    }
}

/// A tile lies within the tiled extent.
pub proof fn tile_within(regions: Seq<Region>, from: int, to: int, i: int)
    requires
        tiles(regions, from, to),
        0 <= i < regions.len(),
    ensures
        from <= regions[i].offset,
        regions[i].offset + regions[i].length <= to,
{
    region_sum_grows(regions, i + 1, regions.len() as int);
}

/// Two adjacent tilings join into one.
pub proof fn tiles_join(a: Seq<Region>, b: Seq<Region>, from: int, mid: int, to: int)
    requires
        tiles(a, from, mid),
        tiles(b, mid, to),
    ensures
        tiles(a + b, from, to),
        gridded(a) && gridded(b) ==> gridded(a + b),
{
    let c = a + b;
    assert forall|i: int| 0 <= i < c.len() implies (#[trigger] c[i]).length > 0 && c[i].offset
        == from + region_sum(c, i) by {
        if i < a.len() {
            region_sum_of_prefix(c, a, i);
            assert(c[i] == a[i]);
        } else {
            region_sum_of_join(a, b, i - a.len());
            assert(c[i] == b[i - a.len()]);
        }
    }
    region_sum_of_join(a, b, b.len() as int);
    if gridded(a) && gridded(b) {
        assert forall|i: int| 0 <= i < c.len() implies (#[trigger] c[i]).length
            <= MAX_OBJECT_SIZE by {
            if i < a.len() {
                assert(c[i] == a[i]);
            } else {
                assert(c[i] == b[i - a.len()]);
            }
        }
    }
}

/// Nothing tiles an empty extent but no region.
pub proof fn tiles_nothing(at: int)
    ensures
        tiles(Seq::empty(), at, at),
        gridded(Seq::empty()),
{
}

/// How many grid cells an extent takes.
pub open spec fn cells(length: int) -> int {
    (length + MAX_OBJECT_SIZE - 1) / (MAX_OBJECT_SIZE as int)
}

/// The `i`th grid cell of an extent: whole cells, then the rest.
pub open spec fn cell(offset: int, length: int, kind: RegionKind, i: int) -> Region {
    let start = i * MAX_OBJECT_SIZE;
    Region {
        offset: (offset + start) as u64,
        length: (if length - start < MAX_OBJECT_SIZE {
            length - start
        } else {
            MAX_OBJECT_SIZE as int
        }) as u64,
        kind,
    }
}

/// An extent cut on the grid that starts at its own start.
pub open spec fn grid(offset: int, length: int, kind: RegionKind) -> Seq<Region> {
    Seq::new(cells(length) as nat, |i: int| cell(offset, length, kind, i))
}

proof fn grid_sum(offset: int, length: int, kind: RegionKind, upto: int)
    requires
        0 <= offset,
        0 <= length,
        offset + length <= u64::MAX,
        0 <= upto <= cells(length),
    ensures
        region_sum(grid(offset, length, kind), upto) == if upto == cells(length) {
            length
        } else {
            upto * MAX_OBJECT_SIZE
        },
    decreases upto,
{
    if upto > 0 {
        grid_sum(offset, length, kind, upto - 1);
    }
}

/// The grid tiles its extent.
pub proof fn grid_tiles(offset: int, length: int, kind: RegionKind)
    requires
        0 <= offset,
        0 <= length,
        offset + length <= u64::MAX,
    ensures
        tiles(grid(offset, length, kind), offset, offset + length),
        gridded(grid(offset, length, kind)),
{
    let g = grid(offset, length, kind);
    assert forall|i: int| 0 <= i < g.len() implies (#[trigger] g[i]).length > 0 && g[i].offset
        == offset + region_sum(g, i) && g[i].length <= MAX_OBJECT_SIZE by {
        grid_sum(offset, length, kind, i);
    }
    grid_sum(offset, length, kind, g.len() as int);
}

/// Where the `i`th part of a cut extent starts.
pub open spec fn part_start(cuts: Seq<u64>, i: int) -> int {
    if i <= 0 {
        0
    } else {
        cuts[i - 1] as int
    }
}

/// The grids of the parts before the `upto`th cut.
pub open spec fn parts_grid(offset: int, cuts: Seq<u64>, kind: RegionKind, upto: int) -> Seq<Region>
    decreases upto,
{
    if upto <= 0 {
        Seq::empty()
    } else {
        parts_grid(offset, cuts, kind, upto - 1) + grid(
            offset + part_start(cuts, upto - 1),
            cuts[upto - 1] - part_start(cuts, upto - 1),
            kind,
        )
    }
}

/// An extent cut at declared seams first and then on the grid within each part.
pub open spec fn seam_grid(offset: int, length: int, cuts: Seq<u64>, kind: RegionKind) -> Seq<
    Region,
> {
    let last = part_start(cuts, cuts.len() as int);
    parts_grid(offset, cuts, kind, cuts.len() as int) + grid(offset + last, length - last, kind)
}

proof fn parts_grid_tiles(offset: int, length: u64, cuts: Seq<u64>, kind: RegionKind, upto: int)
    requires
        0 <= offset,
        offset + length <= u64::MAX,
        rising_within(cuts, length),
        0 <= upto <= cuts.len(),
    ensures
        0 <= part_start(cuts, upto) <= length,
        tiles(parts_grid(offset, cuts, kind, upto), offset, offset + part_start(cuts, upto)),
        gridded(parts_grid(offset, cuts, kind, upto)),
    decreases upto,
{
    if upto > 0 {
        parts_grid_tiles(offset, length, cuts, kind, upto - 1);
        let start = part_start(cuts, upto - 1);
        if upto > 1 {
            assert(cuts[upto - 2] < cuts[upto - 1]);
        }
        assert(0 < cuts[upto - 1] < length);
        grid_tiles(offset + start, cuts[upto - 1] - start, kind);
        tiles_join(
            parts_grid(offset, cuts, kind, upto - 1),
            grid(offset + start, cuts[upto - 1] - start, kind),
            offset,
            offset + start,
            offset + cuts[upto - 1],
        );
    }
}

/// Seams never move bytes: the cut extent is still tiled exactly.
pub proof fn seam_grid_tiles(offset: int, length: u64, cuts: Seq<u64>, kind: RegionKind)
    requires
        0 <= offset,
        offset + length <= u64::MAX,
        rising_within(cuts, length),
    ensures
        tiles(seam_grid(offset, length as int, cuts, kind), offset, offset + length),
        gridded(seam_grid(offset, length as int, cuts, kind)),
{
    let n = cuts.len() as int;
    let last = part_start(cuts, n);
    parts_grid_tiles(offset, length, cuts, kind, n);
    grid_tiles(offset + last, length - last, kind);
    tiles_join(
        parts_grid(offset, cuts, kind, n),
        grid(offset + last, length - last, kind),
        offset,
        offset + last,
        offset + length,
    );
}

/// Without seams the extent is cut on the plain grid.
pub proof fn seam_grid_without_seams(offset: int, length: int, kind: RegionKind)
    ensures
        seam_grid(offset, length, Seq::empty(), kind) == grid(offset, length, kind),
{
    assert(seam_grid(offset, length, Seq::empty(), kind) =~= grid(offset, length, kind));
}

/// Appends the grid of one extent, refusing to exceed the object bound.
pub fn append_split_region(
    regions: &mut Vec<Region>,
    offset: u64,
    length: u64,
    kind: RegionKind,
) -> (outcome: Result<(), PlanError>)
    requires
        offset + length <= u64::MAX,
    ensures
        outcome is Err ==> final(regions)@ == old(regions)@,
        outcome matches Err(PlanError::ObjectLimit) <==> old(regions)@.len() + cells(length as int)
            > MAX_OBJECT_COUNT,
        match outcome {
            Ok(_) => final(regions)@ == old(regions)@ + grid(offset as int, length as int, kind)
                && final(regions)@.len() <= MAX_OBJECT_COUNT,
            Err(PlanError::ObjectLimit) => true,
            Err(PlanError::ResourceExhausted) => length > 0,
            Err(_) => false,
        },
{
    let whole: u64 = length / MAX_OBJECT_SIZE;
    let objects: u64 = if length % MAX_OBJECT_SIZE == 0 {
        whole
    } else {
        whole + 1
    };
    assert(objects == cells(length as int));
    let have: usize = regions.len();
    if have > MAX_OBJECT_COUNT || objects > (MAX_OBJECT_COUNT - have) as u64 {
        return Err(PlanError::ObjectLimit);
    }
    if objects > 0 && regions.try_reserve(objects as usize).is_err() {
        return Err(PlanError::ResourceExhausted);
    }
    let ghost expected = grid(offset as int, length as int, kind);
    let mut cursor: u64 = offset;
    let mut remaining: u64 = length;
    let ghost mut done: int = 0;
    assert(regions@ =~= old(regions)@ + expected.take(0));
    while remaining > 0
        invariant
            offset + length <= u64::MAX,
            expected == grid(offset as int, length as int, kind),
            0 <= done <= cells(length as int),
            cursor + remaining == offset + length,
            remaining > 0 ==> remaining == length - done * MAX_OBJECT_SIZE && done < cells(
                length as int,
            ),
            remaining == 0 ==> done == cells(length as int),
            regions@ == old(regions)@ + expected.take(done),
        decreases remaining,
    {
        let part: u64 = if remaining < MAX_OBJECT_SIZE {
            remaining
        } else {
            MAX_OBJECT_SIZE
        };
        regions.push(Region { offset: cursor, length: part, kind });
        proof {
            assert(expected[done] == (Region { offset: cursor, length: part, kind }));
            done = done + 1;
            assert(regions@ =~= old(regions)@ + expected.take(done));
        }
        cursor = cursor + part;
        remaining = remaining - part;
    }
    assert(expected.take(done) =~= expected);
    Ok(())
}

/// What is wrong with the parts of a cut extent.
#[derive(Clone, Copy, Debug, PartialEq, Eq, Structural)]
pub enum CutFault {
    /// A seam does not lie behind the one before it and inside the extent.
    Coverage,
    /// The objects are too many.
    Limit,
}

/// What is wrong with the part that ends at seam `at`, or at the end of the
/// extent, where `have` objects stand before it.
pub open spec fn part_fault(have: int, length: int, seams: Seq<u64>, at: int) -> Option<CutFault> {
    let start = part_start(seams, at);
    if at < seams.len() && !(start < seams[at] < length) {
        Some(CutFault::Coverage)
    } else if have + cells(part_end(length, seams, at) - start) > MAX_OBJECT_COUNT {
        Some(CutFault::Limit)
    } else {
        None
    }
}

/// Where the part that starts behind `at` seams ends.
pub open spec fn part_end(length: int, seams: Seq<u64>, at: int) -> int {
    if at < seams.len() {
        seams[at] as int
    } else {
        length
    }
}

/// The first thing wrong with the parts from the one behind `at` seams on.
pub open spec fn cut_fault(have: int, length: int, seams: Seq<u64>, at: int) -> Option<CutFault>
    decreases seams.len() - at,
{
    match part_fault(have, length, seams, at) {
        Some(fault) => Some(fault),
        None => if at < seams.len() {
            cut_fault(
                have + cells(part_end(length, seams, at) - part_start(seams, at)),
                length,
                seams,
                at + 1,
            )
        } else {
            None
        },
    }
}

/// Appends one tensor's regions, cut at declared seams first and then on the
/// grid within each part. Where it fails, the parts before the failure stand.
pub fn append_tensor_regions(
    regions: &mut Vec<Region>,
    offset: u64,
    length: u64,
    seams: &[u64],
    kind: RegionKind,
) -> (outcome: Result<(), PlanError>)
    requires
        offset + length <= u64::MAX,
    ensures
        match outcome {
            Ok(_) => rising_within(seams@, length) && final(regions)@ == old(regions)@ + seam_grid(
                offset as int,
                length as int,
                seams@,
                kind,
            ) && final(regions)@.len() <= MAX_OBJECT_COUNT,
            Err(PlanError::InvalidCoverage) => !rising_within(seams@, length),
            Err(PlanError::ObjectLimit) => rising_within(seams@, length) ==> old(regions)@.len()
                + seam_grid(offset as int, length as int, seams@, kind).len() > MAX_OBJECT_COUNT,
            Err(PlanError::ResourceExhausted) => length > 0,
            Err(_) => false,
        },
        ({
            let fault = cut_fault(old(regions)@.len() as int, length as int, seams@, 0);
            match outcome {
                Ok(_) => fault is None,
                Err(PlanError::InvalidCoverage) => fault == Some(CutFault::Coverage),
                Err(PlanError::ObjectLimit) => fault == Some(CutFault::Limit),
                Err(_) => part_fault(old(regions)@.len() as int, length as int, seams@, 0) is None,
            }
        }),
        outcome is Err ==> exists|parts: int|
            0 <= parts <= seams@.len() && final(regions)@ == old(regions)@ + #[trigger] parts_grid(
                offset as int,
                seams@,
                kind,
                parts,
            ),
{
    let mut cursor: u64 = 0;
    let mut at: usize = 0;
    assert(regions@ =~= old(regions)@ + parts_grid(offset as int, seams@, kind, 0));
    while at < seams.len()
        invariant
            offset + length <= u64::MAX,
            at <= seams@.len(),
            cursor == part_start(seams@, at as int),
            cursor <= length,
            forall|i: int| 0 <= i < at ==> 0 < #[trigger] seams@[i] < length,
            forall|i: int, j: int|
                0 <= i < j < at ==> #[trigger] seams@[i] < #[trigger] seams@[j],
            regions@ == old(regions)@ + parts_grid(offset as int, seams@, kind, at as int),
            cut_fault(old(regions)@.len() as int, length as int, seams@, 0) == cut_fault(
                regions@.len() as int,
                length as int,
                seams@,
                at as int,
            ),
            at > 0 ==> part_fault(old(regions)@.len() as int, length as int, seams@, 0) is None,
        decreases seams@.len() - at,
    {
        let seam: u64 = seams[at];
        if seam <= cursor || seam >= length {
            proof {
                if rising_within(seams@, length) {
                    assert(0 < seams@[at as int] < length);
                    if at > 0 {
                        assert(seams@[at - 1] < seams@[at as int]);
                    }
                }
            }
            return Err(PlanError::InvalidCoverage);
        }
        let ghost before = regions@;
        match append_split_region(regions, offset + cursor, seam - cursor, kind) {
            Ok(_) => {},
            Err(error) => {
                proof {
                    parts_grid_grows(offset as int, seams@, kind, at + 1, seams@.len() as int);
                }
                return Err(error);
            },
        }
        proof {
            assert(regions@ =~= old(regions)@ + parts_grid(
                offset as int,
                seams@,
                kind,
                at + 1,
            ));
            assert forall|i: int, j: int| 0 <= i < j < at + 1 implies #[trigger] seams@[i]
                < #[trigger] seams@[j] by {
                if j == at && i < at - 1 {
                    assert(seams@[i] < seams@[at - 1]);
                }
            }
        }
        cursor = seam;
        at += 1;
    }
    let ghost before = regions@;
    let outcome = append_split_region(regions, offset + cursor, length - cursor, kind);
    assert(outcome is Ok ==> regions@ =~= old(regions)@ + seam_grid(
        offset as int,
        length as int,
        seams@,
        kind,
    ));
    outcome
}

proof fn parts_grid_grows(offset: int, cuts: Seq<u64>, kind: RegionKind, low: int, high: int)
    requires
        0 <= low <= high,
    ensures
        parts_grid(offset, cuts, kind, low).len() <= parts_grid(offset, cuts, kind, high).len(),
    decreases high - low,
{
    if low < high {
        parts_grid_grows(offset, cuts, kind, low, high - 1);
    }
}

// ---------------------------------------------------------------------------
// Plans
// ---------------------------------------------------------------------------

/// How one file is cut into objects, under which planner and contract.
#[derive(Debug, PartialEq, Eq)]
pub struct Plan {
    pub planner: PlannerId,
    pub contract: Stamp,
    pub file_size: u64,
    pub regions: Vec<Region>,
}

/// The value of a [`Plan`].
#[verifier::ext_equal]
pub struct PlanModel {
    pub planner: PlannerId,
    pub contract: StampModel,
    pub file_size: u64,
    pub regions: Seq<Region>,
}

impl View for Plan {
    type V = PlanModel;

    open spec fn view(&self) -> PlanModel {
        PlanModel {
            planner: self.planner,
            contract: self.contract@,
            file_size: self.file_size,
            regions: self.regions@,
        }
    }
}

impl PlanModel {
    /// The regions cover the file exactly.
    pub open spec fn covered(self) -> bool {
        covers(self.planner, self.file_size, self.regions)
    }
}

proof fn region_sum_grows(regions: Seq<Region>, low: int, high: int)
    requires
        0 <= low <= high,
    ensures
        region_sum(regions, low) <= region_sum(regions, high),
    decreases high - low,
{
    if low < high {
        region_sum_grows(regions, low, high - 1);
    }
}

/// Checks exact coverage. `blob` lifts the grid bound and allows one region.
pub(crate) fn check_coverage(blob: bool, file_size: u64, regions: &Vec<Region>) -> (outcome: Result<
    (),
    PlanError,
>)
    ensures
        match outcome {
            Ok(_) => regions@.len() <= MAX_OBJECT_COUNT && tiles(regions@, 0, file_size as int)
                && (if blob {
                regions@.len() <= 1
            } else {
                gridded(regions@)
            }),
            Err(PlanError::ObjectLimit) => regions@.len() > MAX_OBJECT_COUNT,
            Err(PlanError::InvalidCoverage) => regions@.len() <= MAX_OBJECT_COUNT && !(tiles(
                regions@,
                0,
                file_size as int,
            ) && (if blob {
                regions@.len() <= 1
            } else {
                gridded(regions@)
            })),
            Err(_) => false,
        },
{
    if regions.len() > MAX_OBJECT_COUNT {
        return Err(PlanError::ObjectLimit);
    }
    if blob && regions.len() > 1 {
        return Err(PlanError::InvalidCoverage);
    }
    let mut expected: u64 = 0;
    let mut at: usize = 0;
    while at < regions.len()
        invariant
            at <= regions@.len(),
            regions@.len() <= MAX_OBJECT_COUNT,
            blob ==> regions@.len() <= 1,
            expected == region_sum(regions@, at as int),
            forall|i: int|
                0 <= i < at ==> (#[trigger] regions@[i]).length > 0 && regions@[i].offset
                    == region_sum(regions@, i),
            !blob ==> forall|i: int|
                0 <= i < at ==> (#[trigger] regions@[i]).length <= MAX_OBJECT_SIZE,
        decreases regions@.len() - at,
    {
        let region = regions[at];
        proof {
            assert(region == regions@[at as int]);
            region_sum_grows(regions@, at + 1, regions@.len() as int);
        }
        if region.offset != expected || region.length == 0 || (!blob && region.length
            > MAX_OBJECT_SIZE) {
            return Err(PlanError::InvalidCoverage);
        }
        match expected.checked_add(region.length) {
            Some(next) => {
                expected = next;
            },
            None => {
                return Err(PlanError::InvalidCoverage);
            },
        }
        at += 1;
    }
    if expected != file_size {
        return Err(PlanError::InvalidCoverage);
    }
    Ok(())
}

impl Plan {
    pub fn planner(&self) -> (planner: PlannerId)
        ensures
            planner == self@.planner,
    {
        self.planner
    }

    pub fn contract(&self) -> (contract: &Stamp)
        ensures
            contract@ == self@.contract,
    {
        &self.contract
    }

    pub fn file_size(&self) -> (file_size: u64)
        ensures
            file_size == self@.file_size,
    {
        self.file_size
    }

    pub fn regions(&self) -> (regions: &[Region])
        ensures
            regions@ == self@.regions,
    {
        &self.regions
    }

    /// Refuses a plan that does not cover its file exactly.
    pub fn validate(&self) -> (outcome: Result<(), PlanError>)
        ensures
            match outcome {
                Ok(_) => self@.covered(),
                Err(PlanError::ObjectLimit) => self@.regions.len() > MAX_OBJECT_COUNT,
                Err(PlanError::InvalidCoverage) => self@.regions.len() <= MAX_OBJECT_COUNT
                    && !self@.covered(),
                Err(_) => false,
            },
    {
        let blob = match self.planner {
            PlannerId::BlobV1 => true,
            _ => false,
        };
        check_coverage(blob, self.file_size, &self.regions)
    }
}

/// The whole-blob plan: one region of any size, none when the file is empty.
pub open spec fn blob_model(file_size: u64) -> PlanModel {
    PlanModel {
        planner: PlannerId::BlobV1,
        contract: StampModel::Absent,
        file_size,
        regions: if file_size == 0 {
            Seq::empty()
        } else {
            seq![Region { offset: 0, length: file_size, kind: RegionKind::Blob }]
        },
    }
}

/// The whole-blob plan for every file that is no tensor container.
pub fn blob_plan(file_size: u64) -> (plan: Plan)
    ensures
        plan@ == blob_model(file_size),
        plan@.covered(),
{
    let mut regions: Vec<Region> = Vec::new();
    if file_size != 0 {
        regions.push(Region { offset: 0, length: file_size, kind: RegionKind::Blob });
    }
    let plan = Plan { planner: PlannerId::BlobV1, contract: Stamp::Absent, file_size, regions };
    proof {
        assert(plan@ =~= blob_model(file_size));
        reveal_with_fuel(region_sum, 2);
    }
    plan
}

// ---------------------------------------------------------------------------
// Sources
// ---------------------------------------------------------------------------

/// A bounded random-access view of one immutable byte string.
pub trait ByteSource {
    /// The bytes this source stands for.
    open spec fn content(&self) -> Seq<u8> {
        arbitrary()
    }

    /// Whether no read gives other bytes than these: a file that is written to
    /// while it is read is torn, not steady.
    open spec fn steady(&self) -> bool {
        arbitrary()
    }

    /// Whether every read within the bytes succeeds and no change is reported.
    open spec fn reliable(&self) -> bool {
        arbitrary()
    }

    fn len(&self) -> (length: u64)
        ensures
            length == self.content().len(),
    ;

    /// Fills `destination` from `offset`.
    fn read_exact_at(&self, offset: u64, destination: &mut [u8]) -> (outcome: io::Result<()>)
        ensures
            final(destination)@.len() == old(destination)@.len(),
            self.steady() && outcome is Ok ==> offset + old(destination)@.len()
                <= self.content().len() && final(destination)@ == self.content().subrange(
                offset as int,
                offset + old(destination)@.len(),
            ),
            self.reliable() && offset + old(destination)@.len() <= self.content().len()
                ==> outcome is Ok,
    ;

    /// Refuses if this source no longer represents the immutable snapshot
    /// captured when it was constructed.
    fn check_unchanged(&self) -> (outcome: io::Result<()>)
        ensures
            self.reliable() ==> outcome is Ok,
    ;

    fn is_empty(&self) -> (empty: bool)
        ensures
            empty == (self.content().len() == 0),
    {
        self.len() == 0
    }
}

impl ByteSource for [u8] {
    open spec fn content(&self) -> Seq<u8> {
        self@
    }

    open spec fn steady(&self) -> bool {
        true
    }

    open spec fn reliable(&self) -> bool {
        true
    }

    fn len(&self) -> (length: u64) {
        <[u8]>::len(self) as u64
    }

    fn read_exact_at(&self, offset: u64, destination: &mut [u8]) -> (outcome: io::Result<()>) {
        let have: usize = <[u8]>::len(self);
        let want: usize = destination.len();
        if offset > usize::MAX as u64 {
            return Err(invalid_input("offset is too large"));
        }
        let start: usize = offset as usize;
        let end: usize = match start.checked_add(want) {
            Some(end) => end,
            None => {
                return Err(invalid_input("range overflow"));
            },
        };
        if end > have {
            return Err(unexpected_eof("range is truncated"));
        }
        let mut at: usize = 0;
        while at < want
            invariant
                at <= want,
                destination@.len() == want,
                want == old(destination)@.len(),
                start == offset,
                end == start + want,
                end <= self@.len(),
                forall|i: int| 0 <= i < at ==> destination@[i] == self@[start + i],
            decreases want - at,
        {
            destination[at] = self[start + at];
            at += 1;
        }
        assert(destination@ =~= self@.subrange(offset as int, offset + want));
        Ok(())
    }

    fn check_unchanged(&self) -> (outcome: io::Result<()>) {
        Ok(())
    }
}

// ---------------------------------------------------------------------------
// Inventories
// ---------------------------------------------------------------------------

/// One tensor as a container's header declares it, outermost axis first
/// whatever the container's own axis convention.
#[derive(Debug, PartialEq, Eq)]
pub struct InventoryTensor {
    pub name: String,
    pub dtype: String,
    pub shape: Vec<u64>,
    pub offset: u64,
    pub length: u64,
}

/// The value of an [`InventoryTensor`].
#[verifier::ext_equal]
pub struct InventoryModel {
    pub name: Seq<char>,
    pub dtype: Seq<char>,
    pub shape: Seq<u64>,
    pub offset: u64,
    pub length: u64,
}

impl View for InventoryTensor {
    type V = InventoryModel;

    open spec fn view(&self) -> InventoryModel {
        InventoryModel {
            name: self.name@,
            dtype: self.dtype@,
            shape: self.shape@,
            offset: self.offset,
            length: self.length,
        }
    }
}

impl InventoryTensor {
    pub fn name(&self) -> (name: &str)
        ensures
            name@ == self@.name,
    {
        self.name.as_str()
    }

    /// The canonical dtype name.
    pub fn dtype(&self) -> (dtype: &str)
        ensures
            dtype@ == self@.dtype,
    {
        self.dtype.as_str()
    }

    /// The logical shape, outermost axis first.
    pub fn shape(&self) -> (shape: &[u64])
        ensures
            shape@ == self@.shape,
    {
        &self.shape
    }

    /// The offset of this tensor's first byte within the file.
    pub fn offset(&self) -> (offset: u64)
        ensures
            offset == self@.offset,
    {
        self.offset
    }

    /// The tensor's own extent, excluding any container padding.
    pub fn length(&self) -> (length: u64)
        ensures
            length == self@.length,
    {
        self.length
    }
}

/// Extents that lie one behind another, within `size` bytes.
pub open spec fn lie_apart(tensors: Seq<InventoryModel>, size: int) -> bool {
    forall|i: int|
        0 <= i < tensors.len() ==> (#[trigger] tensors[i]).offset + tensors[i].length <= if i + 1
            < tensors.len() {
            tensors[i + 1].offset as int
        } else {
            size
        }
}

/// A tensor container's header inventory.
#[derive(Debug, PartialEq, Eq)]
pub struct TensorInventory {
    pub format: TensorFormat,
    pub tensors: Vec<InventoryTensor>,
}

/// The values of a list of inventory tensors.
pub open spec fn inventory_models(tensors: Seq<InventoryTensor>) -> Seq<InventoryModel> {
    tensors.map_values(|tensor: InventoryTensor| tensor@)
}

impl TensorInventory {
    pub fn format(&self) -> (format: TensorFormat)
        ensures
            format == self.format,
    {
        self.format
    }

    pub fn tensors(&self) -> (tensors: &[InventoryTensor])
        ensures
            tensors@ == self.tensors@,
    {
        &self.tensors
    }
}

// ---------------------------------------------------------------------------
// The registry
// ---------------------------------------------------------------------------

/// The stamp of an optional contract.
pub open spec fn stamp_of_contract(contract: Option<ContractModel>) -> StampModel {
    match contract {
        None => StampModel::Absent,
        Some(c) => stamp_for(c),
    }
}

/// The plan of a file, a pure function of its bytes and the contract: the first
/// container format that its bytes are, and one whole blob otherwise.
pub open spec fn plan_of(c: Seq<u8>, contract: Option<ContractModel>) -> PlanModel {
    let size = c.len() as u64;
    let stamp = stamp_of_contract(contract);
    if c.len() < 10 {
        blob_model(size)
    } else if c.len() >= 24 && gguf_regions(c, contract) is Some {
        PlanModel {
            planner: PlannerId::GgufV1,
            contract: stamp,
            file_size: size,
            regions: gguf_regions(c, contract).unwrap(),
        }
    } else if safetensors_regions(c, contract) is Some {
        PlanModel {
            planner: PlannerId::SafetensorsV1,
            contract: stamp,
            file_size: size,
            regions: safetensors_regions(c, contract).unwrap(),
        }
    } else {
        blob_model(size)
    }
}

/// Every plan covers its file exactly.
pub proof fn plans_cover(c: Seq<u8>, contract: Option<ContractModel>)
    requires
        c.len() <= u64::MAX,
    ensures
        plan_of(c, contract).covered(),
        plan_of(c, contract).file_size == c.len(),
{
    blob_covers(c.len() as u64);
    gguf::gguf_regions_cover(c, contract);
    safetensors::safetensors_regions_cover(c, contract);
}

proof fn blob_covers(size: u64)
    ensures
        blob_model(size).covered(),
{
    reveal_with_fuel(region_sum, 2);
}

fn contract_stamp(contract: Option<&Contract>) -> (stamp: Stamp)
    requires
        contract matches Some(c) ==> c.wf(),
    ensures
        stamp@ == stamp_of_contract(contract_model(contract)),
{
    match contract {
        None => Stamp::Absent,
        Some(contract) => contract.stamp(),
    }
}

/// What a check of a source says: a check that fails means that the source
/// changed.
pub fn unchanged(check: Result<(), std::io::Error>) -> (outcome: Result<(), PlanError>)
    ensures
        match check {
            Ok(_) => outcome is Ok,
            Err(error) => outcome == Err::<(), PlanError>(PlanError::SourceChanged(error)),
        },
{
    match check {
        Ok(_) => Ok(()),
        Err(error) => Err(PlanError::SourceChanged(error)),
    }
}

/// What was made out of a source stands only if the check behind its reads says
/// that the source is the one it was: nothing made out of a torn source is
/// given back, neither what was planned nor how planning failed.
pub fn settle<T>(made: Result<T, PlanError>, after: Result<(), std::io::Error>) -> (outcome: Result<
    T,
    PlanError,
>)
    ensures
        match after {
            Ok(_) => outcome == made,
            Err(error) => outcome == Err::<T, PlanError>(PlanError::SourceChanged(error)),
        },
{
    match after {
        Ok(_) => made,
        Err(error) => Err(PlanError::SourceChanged(error)),
    }
}

/// Whether planning a file needs memory that can be wanting: where it starts as
/// a tensor container does.
pub open spec fn takes_memory(c: Seq<u8>) -> bool {
    gguf::plan_takes_memory(c) || safetensors::takes_memory(c)
}

/// Whether listing a file needs memory that can be wanting.
pub open spec fn listing_takes_memory(c: Seq<u8>) -> bool {
    gguf::takes_memory(c) || safetensors::takes_memory(c)
}

/// A file too short for a header is planned without more memory.
pub proof fn short_files_take_no_memory(c: Seq<u8>)
    requires
        c.len() < 10,
    ensures
        !takes_memory(c),
        !listing_takes_memory(c),
{
}

/// Selects the planner and plans, once.
fn plan_once<S: ByteSource + ?Sized>(source: &S, contract: Option<&Contract>) -> (outcome: Result<
    Plan,
    PlanError,
>)
    requires
        contract matches Some(c) ==> c.wf(),
    ensures
        match outcome {
            Ok(plan) => plan@.covered() && plan@.file_size == source.content().len() && (
            source.steady() ==> plan@ == plan_of(
                source.content(),
                contract_model(contract),
            )),
            Err(PlanError::Read(_)) => !source.reliable(),
            Err(PlanError::ResourceExhausted) => source.steady() ==> takes_memory(
                source.content(),
            ),
            Err(_) => false,
        },
{
    let size: u64 = source.len();
    let ghost model = contract_model(contract);
    proof {
        plans_cover(source.content(), model);
    }
    if size >= 24 {
        if let Some(regions) = gguf::try_regions(source, contract)? {
            let plan = Plan {
                planner: PlannerId::GgufV1,
                contract: contract_stamp(contract),
                file_size: size,
                regions,
            };
            assert(source.steady() ==> plan@ =~= plan_of(source.content(), model));
            plan.validate()?;
            return Ok(plan);
        }
    }
    if size >= 10 {
        if let Some(regions) = safetensors::try_regions(source, contract)? {
            let plan = Plan {
                planner: PlannerId::SafetensorsV1,
                contract: contract_stamp(contract),
                file_size: size,
                regions,
            };
            assert(source.steady() ==> plan@ =~= plan_of(source.content(), model));
            plan.validate()?;
            return Ok(plan);
        }
    }
    let plan = blob_plan(size);
    plan.validate()?;
    Ok(plan)
}

/// Plans one file under the plain per-tensor grid.
pub fn plan<S: ByteSource + ?Sized>(source: &S) -> (outcome: Result<Plan, PlanError>)
    ensures
        match outcome {
            Ok(plan) => plan@.covered() && plan@.file_size == source.content().len() && (
            source.steady() ==> plan@ == plan_of(
                source.content(),
                None,
            )),
            Err(PlanError::Read(_)) => !source.reliable(),
            Err(PlanError::SourceChanged(_)) => !source.reliable(),
            Err(PlanError::ResourceExhausted) => source.steady() ==> takes_memory(
                source.content(),
            ),
            Err(_) => false,
        },
{
    plan_with(source, None)
}

/// Plans one file under a declared layout contract.
///
/// The contract adds cut points inside fused tensors and nothing else. A
/// reliable source is planned, unless memory runs out. The plan is a function
/// of the bytes and the contract where the source is steady; a torn source that
/// goes unnoticed is still covered exactly.
pub fn plan_with<S: ByteSource + ?Sized>(source: &S, contract: Option<&Contract>) -> (outcome:
    Result<Plan, PlanError>)
    requires
        contract matches Some(c) ==> c.wf(),
    ensures
        match outcome {
            Ok(plan) => plan@.covered() && plan@.file_size == source.content().len() && (
            source.steady() ==> plan@ == plan_of(
                source.content(),
                contract_model(contract),
            )),
            Err(PlanError::Read(_)) => !source.reliable(),
            Err(PlanError::SourceChanged(_)) => !source.reliable(),
            Err(PlanError::ResourceExhausted) => source.steady() ==> takes_memory(
                source.content(),
            ),
            Err(_) => false,
        },
{
    let _size: u64 = source.len();
    proof {
        plans_cover(source.content(), contract_model(contract));
    }
    unchanged(source.check_unchanged())?;
    let planned = plan_once(source, contract);
    settle(planned, source.check_unchanged())
}

/// The value of a [`TensorInventory`].
pub struct ListingModel {
    pub format: TensorFormat,
    pub tensors: Seq<InventoryModel>,
}

/// The header inventory of a file's bytes, when they are a tensor container.
pub open spec fn listing_of(c: Seq<u8>) -> Option<ListingModel> {
    if c.len() >= 24 && gguf::layout_of(c) is Some {
        Some(
            ListingModel {
                format: TensorFormat::GgufV1,
                tensors: gguf::inventory_of(gguf::layout_of(c).unwrap()),
            },
        )
    } else if safetensors::layout_of(c) is Some {
        Some(
            ListingModel {
                format: TensorFormat::SafetensorsV1,
                tensors: safetensors::inventory_of(safetensors::layout_of(c).unwrap()),
            },
        )
    } else {
        None
    }
}

/// Reads one container's header inventory, or `None` when the file is not a
/// tensor container. No tensor byte is read.
pub fn inventory<S: ByteSource + ?Sized>(source: &S) -> (outcome: Result<
    Option<TensorInventory>,
    PlanError,
>)
    ensures
        match outcome {
            Ok(Some(listing)) => {
                &&& lie_apart(inventory_models(listing.tensors@), source.content().len() as int)
                &&& source.steady() ==> listing_of(source.content()) == Some(
                    ListingModel {
                        format: listing.format,
                        tensors: inventory_models(listing.tensors@),
                    },
                )
            },
            Ok(None) => source.steady() ==> listing_of(source.content()) is None,
            Err(PlanError::Read(_)) => !source.reliable(),
            Err(PlanError::SourceChanged(_)) => !source.reliable(),
            Err(PlanError::ResourceExhausted) => source.steady() ==> listing_takes_memory(
                source.content(),
            ),
            Err(_) => false,
        },
{
    unchanged(source.check_unchanged())?;
    let size: u64 = source.len();
    if size >= 24 {
        if let Some(layout) = gguf::read_layout(source)? {
            proof {
                gguf::listed_extents_lie_apart(layout@, size as int);
            }
            let tensors = gguf::inventory(&layout, Ghost(size as int));
            return Ok(Some(TensorInventory { format: TensorFormat::GgufV1, tensors }));
        }
    }
    if let Some(layout) = safetensors::read_layout(source)? {
        proof {
            safetensors::listed_extents_lie_apart(layout@, size as int);
        }
        let tensors = safetensors::inventory(&layout, Ghost(size as int));
        return Ok(Some(TensorInventory { format: TensorFormat::SafetensorsV1, tensors }));
    }
    Ok(None)
}

} // verus!
