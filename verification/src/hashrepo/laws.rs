//! What a hashed file is cut into.

use super::{hashed, plan_of, raw_model};
use crate::trusted::sha256;
use vstd::prelude::*;

verus! {

/// A file that is no container is cut into whole cells of 64 MiB, the last one
/// being what is left: cell `i` begins at `i` times that, and no byte is in two.
pub proof fn a_raw_file_is_cut_in_whole_cells(file_size: u64, i: int)
    requires
        0 <= i < raw_model(file_size).regions.len(),
    ensures
        ({
            let regions = raw_model(file_size).regions;
            let cell: int = 0x400_0000;
            &&& regions[i].offset == i * cell
            &&& i + 1 < regions.len() ==> regions[i].length == cell
            &&& i + 1 == regions.len() ==> 0 < regions[i].length <= cell && regions[i].offset
                + regions[i].length == file_size
            &&& regions[i].kind is Raw
        }),
{
}

/// An empty file has no cell, and every other has one.
pub proof fn only_an_empty_file_has_no_cell(file_size: u64)
    ensures
        raw_model(file_size).regions.len() == 0 <==> file_size == 0,
{
}

/// Both registries cut a container alike: what one takes for a container the
/// other does too, into the same regions. What is no container is a grid in the
/// one and a blob in the other.
pub proof fn both_registries_cut_containers_alike(c: Seq<u8>)
    ensures
        ({
            let here = plan_of(c);
            let there = crate::planner::plan_of(c, None);
            &&& here.file_size == there.file_size
            &&& here.planner is GgufV1 <==> there.planner is GgufV1
            &&& here.planner is SafetensorsV1 <==> there.planner is SafetensorsV1
            &&& !(here.planner is RawFixed64mV1) ==> here.regions == there.regions
            &&& here.planner is RawFixed64mV1 ==> here == raw_model(c.len() as u64)
        }),
{
}

/// Each object of a hashed file has the length and the kind of its region, and the
/// digest of the region's bytes.
pub proof fn each_object_is_its_regions_bytes(c: Seq<u8>, i: int)
    requires
        c.len() <= u64::MAX,
        0 <= i < plan_of(c).regions.len(),
    ensures
        ({
            let region = plan_of(c).regions[i];
            let objects = hashed(c, plan_of(c)).objects;
            let bytes = c.subrange(region.offset as int, region.offset + region.length);
            &&& objects.len() == plan_of(c).regions.len()
            &&& objects[i].digest == sha256(bytes)
            &&& objects[i].length == region.length
            &&& objects[i].kind == region.kind
        }),
{
}

} // verus!
