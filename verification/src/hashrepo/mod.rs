//! The registry with a raw grid: every file that is no tensor container is cut
//! into fixed cells, and each planned object is hashed on its own.

pub mod gguf;
pub mod laws;
pub mod safetensors;
pub mod source;

use crate::object::{hash_regions, objects_of, ObjectModel, PlannedObject};
use crate::planner::gguf::gguf_regions;
use crate::planner::safetensors::safetensors_regions;
use crate::planner::{
    append_split_region, cells, check_coverage, grid, grid_tiles, gridded, settle, tiles, unchanged,
    ByteSource, PlanError, Region, RegionKind, MAX_OBJECT_COUNT,
};
use vstd::prelude::*;

verus! {

#[derive(Clone, Copy, Debug, PartialEq, Eq, Structural)]
pub enum PlannerId {
    SafetensorsV1,
    GgufV1,
    RawFixed64mV1,
}

impl PlannerId {
    pub open spec fn spelling(self) -> Seq<char> {
        match self {
            PlannerId::SafetensorsV1 => "safetensors-v1"@,
            PlannerId::GgufV1 => "gguf-v1"@,
            PlannerId::RawFixed64mV1 => "raw-fixed-64m-v1"@,
        }
    }

    pub fn as_str(self) -> (name: &'static str)
        ensures
            name@ == self.spelling(),
    {
        match self {
            PlannerId::SafetensorsV1 => "safetensors-v1",
            PlannerId::GgufV1 => "gguf-v1",
            PlannerId::RawFixed64mV1 => "raw-fixed-64m-v1",
        }
    }
}

/// How one file is cut into objects, and by which planner.
#[derive(Clone, Debug, PartialEq, Eq)]
pub struct Plan {
    pub planner: PlannerId,
    pub file_size: u64,
    pub regions: Vec<Region>,
}

/// The value of a [`Plan`].
#[verifier::ext_equal]
pub struct PlanModel {
    pub planner: PlannerId,
    pub file_size: u64,
    pub regions: Seq<Region>,
}

impl View for Plan {
    type V = PlanModel;

    open spec fn view(&self) -> PlanModel {
        PlanModel { planner: self.planner, file_size: self.file_size, regions: self.regions@ }
    }
}

impl PlanModel {
    /// A bounded number of grid-bounded regions covers the file exactly.
    pub open spec fn covered(self) -> bool {
        &&& self.regions.len() <= MAX_OBJECT_COUNT
        &&& tiles(self.regions, 0, self.file_size as int)
        &&& gridded(self.regions)
    }
}

impl Plan {
    pub fn planner(&self) -> (planner: PlannerId)
        ensures
            planner == self@.planner,
    {
        self.planner
    }

    pub fn file_size(&self) -> (file_size: u64)
        ensures
            file_size == self@.file_size,
    {
        self.file_size
    }

    pub fn regions(&self) -> (regions: &[Region])
        ensures
            regions@ == self@.regions,
    {
        &self.regions
    }

    /// Refuses a plan that does not cover its file exactly.
    pub fn validate(&self) -> (outcome: Result<(), PlanError>)
        ensures
            match outcome {
                Ok(_) => self@.covered(),
                Err(PlanError::ObjectLimit) => self@.regions.len() > MAX_OBJECT_COUNT,
                Err(PlanError::InvalidCoverage) => self@.regions.len() <= MAX_OBJECT_COUNT
                    && !self@.covered(),
                Err(_) => false,
            },
    {
        check_coverage(false, self.file_size, &self.regions)
    }
}

/// The raw grid over a whole file.
pub open spec fn raw_model(file_size: u64) -> PlanModel {
    PlanModel {
        planner: PlannerId::RawFixed64mV1,
        file_size,
        regions: grid(0, file_size as int, RegionKind::Raw),
    }
}

/// Cuts a whole file on the raw grid, refusing more objects than a file may
/// have before any region is made.
pub fn raw_plan(file_size: u64) -> (outcome: Result<Plan, PlanError>)
    ensures
        match outcome {
            Ok(plan) => plan@ == raw_model(file_size) && plan@.covered(),
            Err(PlanError::ObjectLimit) => cells(file_size as int) > MAX_OBJECT_COUNT,
            Err(PlanError::ResourceExhausted) => 0 < cells(file_size as int) <= MAX_OBJECT_COUNT,
            Err(_) => false,
        },
        cells(file_size as int) > MAX_OBJECT_COUNT ==> outcome matches Err(PlanError::ObjectLimit),
{
    let mut regions: Vec<Region> = Vec::new();
    append_split_region(&mut regions, 0, file_size, RegionKind::Raw)?;
    let plan = Plan { planner: PlannerId::RawFixed64mV1, file_size, regions };
    proof {
        grid_tiles(0, file_size as int, RegionKind::Raw);
        assert(plan@ =~= raw_model(file_size));
    }
    Ok(plan)
}

/// The plan of a file, a pure function of its bytes: the first container format
/// that its bytes are, and the raw grid otherwise.
pub open spec fn plan_of(c: Seq<u8>) -> PlanModel {
    let size = c.len() as u64;
    if c.len() < 10 {
        raw_model(size)
    } else if c.len() >= 24 && gguf_regions(c, None) is Some {
        PlanModel {
            planner: PlannerId::GgufV1,
            file_size: size,
            regions: gguf_regions(c, None).unwrap(),
        }
    } else if safetensors_regions(c, None) is Some {
        PlanModel {
            planner: PlannerId::SafetensorsV1,
            file_size: size,
            regions: safetensors_regions(c, None).unwrap(),
        }
    } else {
        raw_model(size)
    }
}

/// Whether planning a file needs memory that can be wanting: for reading what
/// starts as a tensor container does, or for the cells of the raw grid.
pub open spec fn takes_memory(c: Seq<u8>) -> bool {
    crate::planner::takes_memory(c) || 0 < plan_of(c).regions.len() <= MAX_OBJECT_COUNT
}

fn plan_once<S: ByteSource + ?Sized>(source: &S) -> (outcome: Result<Plan, PlanError>)
    ensures
        match outcome {
            Ok(plan) => plan@.covered() && plan@.file_size == source.content().len() && (
            source.steady() ==> plan@ == plan_of(source.content())),
            Err(PlanError::Read(_)) => !source.reliable(),
            Err(PlanError::ResourceExhausted) => source.steady() ==> takes_memory(
                source.content(),
            ),
            Err(PlanError::ObjectLimit) => source.steady() ==> plan_of(
                source.content(),
            ).regions.len() > MAX_OBJECT_COUNT,
            Err(_) => false,
        },
{
    let size: u64 = source.len();
    if size >= 24 {
        if let Some(plan) = gguf::try_plan(source)? {
            plan.validate()?;
            return Ok(plan);
        }
    }
    if size >= 10 {
        if let Some(plan) = safetensors::try_plan(source)? {
            plan.validate()?;
            return Ok(plan);
        }
    }
    let plan = raw_plan(size)?;
    plan.validate()?;
    Ok(plan)
}

/// Plans one file. A reliable source is planned, unless it takes more objects
/// than a file may have or memory runs out.
pub fn plan<S: ByteSource + ?Sized>(source: &S) -> (outcome: Result<Plan, PlanError>)
    ensures
        match outcome {
            Ok(plan) => plan@.covered() && plan@.file_size == source.content().len() && (
            source.steady() ==> plan@ == plan_of(source.content())),
            Err(PlanError::Read(_)) => !source.reliable(),
            Err(PlanError::SourceChanged(_)) => !source.reliable(),
            Err(PlanError::ResourceExhausted) => source.steady() ==> takes_memory(
                source.content(),
            ),
            Err(PlanError::ObjectLimit) => source.steady() ==> plan_of(
                source.content(),
            ).regions.len() > MAX_OBJECT_COUNT,
            Err(_) => false,
        },
{
    unchanged(source.check_unchanged())?;
    let planned = plan_once(source);
    settle(planned, source.check_unchanged())
}

/// A plan whose objects have been hashed.
#[derive(Clone, Debug, PartialEq, Eq)]
pub struct HashedPlan {
    planner: PlannerId,
    file_size: u64,
    objects: Vec<PlannedObject>,
}

/// The value of a [`HashedPlan`].
#[verifier::ext_equal]
pub struct HashedModel {
    pub planner: PlannerId,
    pub file_size: u64,
    pub objects: Seq<ObjectModel>,
}

impl View for HashedPlan {
    type V = HashedModel;

    closed spec fn view(&self) -> HashedModel {
        HashedModel {
            planner: self.planner,
            file_size: self.file_size,
            objects: self.objects@.map_values(|object: PlannedObject| object@),
        }
    }
}

impl HashedPlan {
    pub fn planner(&self) -> (planner: PlannerId)
        ensures
            planner == self@.planner,
    {
        self.planner
    }

    pub fn file_size(&self) -> (file_size: u64)
        ensures
            file_size == self@.file_size,
    {
        self.file_size
    }

    pub fn objects(&self) -> (objects: &[PlannedObject])
        ensures
            objects@.map_values(|object: PlannedObject| object@) == self@.objects,
    {
        &self.objects
    }
}

/// A plan with the object of each of its regions.
pub open spec fn hashed(c: Seq<u8>, plan: PlanModel) -> HashedModel {
    HashedModel {
        planner: plan.planner,
        file_size: plan.file_size,
        objects: objects_of(c, plan.regions),
    }
}

/// Hashes each object of a plan from one stable source. A plan that does not
/// cover its file, or is for a file of another length, is refused.
pub fn hash_plan<S: ByteSource + ?Sized>(source: &S, plan: &Plan) -> (outcome: Result<
    HashedPlan,
    PlanError,
>)
    ensures
        match outcome {
            Ok(h) => {
                &&& plan@.covered()
                &&& plan@.file_size == source.content().len()
                &&& h@.planner == plan@.planner
                &&& h@.file_size == plan@.file_size
                &&& h@.objects.len() == plan@.regions.len()
                &&& source.steady() ==> h@ == hashed(source.content(), plan@)
            },
            Err(PlanError::SourceChanged(_)) => !source.reliable(),
            Err(PlanError::Read(_)) => !source.reliable(),
            Err(PlanError::ResourceExhausted) => plan@.covered() && plan@.file_size
                == source.content().len() && plan@.regions.len() > 0,
            Err(PlanError::ObjectLimit) => plan@.regions.len() > MAX_OBJECT_COUNT,
            Err(PlanError::InvalidCoverage) => plan@.regions.len() <= MAX_OBJECT_COUNT
                && !plan@.covered(),
            Err(PlanError::SourceLengthMismatch { expected, actual }) => plan@.covered() && expected
                == plan@.file_size && actual == source.content().len() && expected != actual,
        },
{
    unchanged(source.check_unchanged())?;
    plan.validate()?;
    let actual: u64 = source.len();
    if actual != plan.file_size {
        return Err(PlanError::SourceLengthMismatch { expected: plan.file_size, actual });
    }
    let objects = hash_regions(source, &plan.regions)?;
    let hashed_plan = HashedPlan { planner: plan.planner, file_size: plan.file_size, objects };
    assert(source.steady() ==> hashed_plan@ =~= hashed(source.content(), plan@));
    settle(Ok(hashed_plan), source.check_unchanged())
}

/// Selects the sole canonical planner and hashes each resulting object from one
/// stable source. Callers cannot supply a planner or boundaries.
pub fn plan_and_hash<S: ByteSource + ?Sized>(source: &S) -> (outcome: Result<
    HashedPlan,
    PlanError,
>)
    ensures
        match outcome {
            Ok(h) => source.steady() ==> h@ == hashed(
                source.content(),
                plan_of(source.content()),
            ),
            Err(PlanError::SourceChanged(_)) => !source.reliable(),
            Err(PlanError::Read(_)) => !source.reliable(),
            Err(PlanError::ResourceExhausted) => source.steady() ==> takes_memory(
                source.content(),
            ),
            Err(PlanError::ObjectLimit) => source.steady() ==> plan_of(
                source.content(),
            ).regions.len() > MAX_OBJECT_COUNT,
            Err(_) => false,
        },
{
    let _size: u64 = source.len();
    let planned = plan(source)?;
    hash_plan(source, &planned)
}

} // verus!
