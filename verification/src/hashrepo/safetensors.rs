//! Plans of safetensors files.

use super::{Plan, PlanModel, PlannerId};
use crate::planner::safetensors::{safetensors_regions, takes_memory, try_regions};
use crate::planner::{ByteSource, PlanError};
use vstd::prelude::*;

verus! {

/// The plan of a file's bytes, when they are a well-formed safetensors file.
pub open spec fn planned(c: Seq<u8>) -> Option<PlanModel> {
    match safetensors_regions(c, None) {
        None => None,
        Some(regions) => Some(
            PlanModel { planner: PlannerId::SafetensorsV1, file_size: c.len() as u64, regions },
        ),
    }
}

/// Plans a safetensors file along its own structure; `None` when the file is no such
/// container.
pub fn try_plan<S: ByteSource + ?Sized>(source: &S) -> (outcome: Result<Option<Plan>, PlanError>)
    ensures
        match outcome {
            Ok(Some(plan)) => plan@.covered() && plan@.file_size == source.content().len() && (
            source.steady() ==> planned(source.content()) == Some(plan@)),
            Ok(None) => source.steady() ==> planned(source.content()) is None,
            Err(PlanError::Read(_)) => !source.reliable(),
            Err(PlanError::ResourceExhausted) => source.steady() ==> takes_memory(
                source.content(),
            ),
            Err(_) => false,
        },
{
    let file_size: u64 = source.len();
    match try_regions(source, None)? {
        None => Ok(None),
        Some(regions) => {
            let plan = Plan { planner: PlannerId::SafetensorsV1, file_size, regions };
            assert(source.steady() ==> plan@ =~= planned(source.content()).unwrap());
            Ok(Some(plan))
        },
    }
}

} // verus!
