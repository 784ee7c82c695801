//! Where a tensor container is cut: every tensor on a grid of its own, which starts
//! anew at each seam that the contract declares.

use super::gguf::seams_for;
use super::{
    cells, grid, gguf, listing_of, parts_grid, plan_of, safetensors, seam_grid, InventoryModel,
    PlannerId, Region, RegionKind, TensorFormat,
};
use crate::adapter::laws::{a_fusion_cuts_by_shares, at_place};
use crate::contract::{governing, ContractModel};
use crate::fusion::{share_sum, FusionModel};
use crate::verdict_laws::{one_speaks, speaks_for};
use vstd::prelude::*;

verus! {

/// The bytes of the smallest part that a seam may cut off.
pub open spec fn smallest_part() -> int {
    0x10_0000
}

/// The bytes of the largest object of a tensor.
pub open spec fn largest_object() -> int {
    0x400_0000
}

/// From region `r` on, `count` regions cut an extent: whole objects of the largest
/// size, and what is left.
pub open spec fn cut_from(
    regions: Seq<Region>,
    r: int,
    count: int,
    offset: int,
    length: int,
    kind: RegionKind,
) -> bool {
    &&& 0 <= r
    &&& r + count <= regions.len()
    &&& (count - 1) * largest_object() < length <= count * largest_object()
    &&& forall|k: int|
        0 <= k < count ==> {
            let region = #[trigger] regions[r + k];
            let rest = length - k * largest_object();
            &&& region.kind == kind
            &&& region.offset == offset + k * largest_object()
            &&& region.length == if rest < largest_object() {
                rest
            } else {
                largest_object()
            }
        }
}

/// The planner of a container's format.
pub open spec fn planner_of(format: TensorFormat) -> PlannerId {
    match format {
        TensorFormat::SafetensorsV1 => PlannerId::SafetensorsV1,
        TensorFormat::GgufV1 => PlannerId::GgufV1,
    }
}

/// The cut points that a contract declares inside a listed tensor.
pub open spec fn cuts_in(contract: Option<ContractModel>, tensor: InventoryModel) -> Seq<u64> {
    match contract {
        None => Seq::empty(),
        Some(contract) => contract.seams(tensor.name, tensor.shape, tensor.length),
    }
}

/// Where the `part`th part of a tensor starts; behind the last, where the tensor
/// ends.
pub open spec fn part_at(cuts: Seq<u64>, length: u64, part: int) -> int {
    if part <= 0 {
        0
    } else if part <= cuts.len() {
        cuts[part - 1] as int
    } else {
        length as int
    }
}

proof fn grid_is_cut(front: Seq<Region>, offset: int, length: int, kind: RegionKind, back: Seq<Region>)
    requires
        0 <= offset,
        0 <= length,
        offset + length <= u64::MAX,
    ensures
        cut_from(
            front + grid(offset, length, kind) + back,
            front.len() as int,
            cells(length),
            offset,
            length,
            kind,
        ),
{
    let all = front + grid(offset, length, kind) + back;
    let count = cells(length);
    assert(grid(offset, length, kind).len() == count);
    assert forall|k: int| 0 <= k < count implies {
        let region = #[trigger] all[front.len() + k];
        let rest = length - k * largest_object();
        &&& region.kind == kind
        &&& region.offset == offset + k * largest_object()
        &&& region.length == if rest < largest_object() {
            rest
        } else {
            largest_object()
        }
    } by {
        assert(all[front.len() + k] == grid(offset, length, kind)[k]);
    }
}

/// The grids of the first parts, in two pieces around one of them.
proof fn parts_grid_around(
    offset: int,
    cuts: Seq<u64>,
    kind: RegionKind,
    part: int,
    upto: int,
) -> (back: Seq<Region>)
    requires
        0 <= part < upto <= cuts.len(),
    ensures
        parts_grid(offset, cuts, kind, upto) == parts_grid(offset, cuts, kind, part) + grid(
            offset + super::part_start(cuts, part),
            cuts[part] - super::part_start(cuts, part),
            kind,
        ) + back,
    decreases upto,
{
    if part == upto - 1 {
        let back = Seq::<Region>::empty();
        let front = parts_grid(offset, cuts, kind, upto);
        assert(front =~= front + back);
        back
    } else {
        let before = parts_grid_around(offset, cuts, kind, part, upto - 1);
        let last = grid(
            offset + super::part_start(cuts, upto - 1),
            cuts[upto - 1] - super::part_start(cuts, upto - 1),
            kind,
        );
        let middle = grid(
            offset + super::part_start(cuts, part),
            cuts[part] - super::part_start(cuts, part),
            kind,
        );
        assert(parts_grid(offset, cuts, kind, upto) =~= parts_grid(offset, cuts, kind, part)
            + middle + (before + last));
        before + last
    }
}

proof fn seam_grid_around(offset: int, length: int, cuts: Seq<u64>, kind: RegionKind, part: int) -> (ends:
    (Seq<Region>, Seq<Region>))
    requires
        0 <= part <= cuts.len(),
        0 <= length <= u64::MAX,
    ensures
        ({
            let start = part_at(cuts, length as u64, part);
            let end = part_at(cuts, length as u64, part + 1);
            seam_grid(offset, length, cuts, kind) == ends.0 + grid(
                offset + start,
                end - start,
                kind,
            ) + ends.1
        }),
{
    let n = cuts.len() as int;
    if part < n {
        let back = parts_grid_around(offset, cuts, kind, part, n);
        let last = super::part_start(cuts, n);
        let tail = grid(offset + last, length - last, kind);
        let front = parts_grid(offset, cuts, kind, part);
        let start = part_at(cuts, length as u64, part);
        let end = part_at(cuts, length as u64, part + 1);
        assert(seam_grid(offset, length, cuts, kind) =~= front + grid(
            offset + start,
            end - start,
            kind,
        ) + (back + tail));
        (front, back + tail)
    } else {
        let front = parts_grid(offset, cuts, kind, n);
        let whole = seam_grid(offset, length, cuts, kind);
        assert(whole + Seq::<Region>::empty() =~= whole);
        (front, Seq::empty())
    }
}

proof fn gguf_data_around(
    layout: gguf::LayoutModel,
    contract: Option<ContractModel>,
    i: int,
    upto: int,
) -> (ends: (Seq<Region>, Seq<Region>))
    requires
        0 <= i < upto <= layout.tensors.len(),
    ensures
        gguf::data_regions(layout, contract, upto) == ends.0 + gguf::tensor_regions(
            layout,
            contract,
            i,
        ) + ends.1,
    decreases upto,
{
    let whole = gguf::data_regions(layout, contract, upto);
    if i == upto - 1 {
        assert(whole + Seq::<Region>::empty() =~= whole);
        (gguf::data_regions(layout, contract, i), Seq::empty())
    } else {
        let ends = gguf_data_around(layout, contract, i, upto - 1);
        let last = gguf::tensor_regions(layout, contract, upto - 1);
        assert(whole =~= ends.0 + gguf::tensor_regions(layout, contract, i) + (ends.1 + last));
        (ends.0, ends.1 + last)
    }
}

proof fn safetensors_data_around(
    layout: safetensors::LayoutModel,
    contract: Option<ContractModel>,
    i: int,
    upto: int,
) -> (ends: (Seq<Region>, Seq<Region>))
    requires
        0 <= i < upto <= layout.tensors.len(),
    ensures
        safetensors::data_regions(layout, contract, upto) == ends.0 + safetensors::tensor_regions(
            layout,
            contract,
            i,
        ) + ends.1,
    decreases upto,
{
    let whole = safetensors::data_regions(layout, contract, upto);
    if i == upto - 1 {
        assert(whole + Seq::<Region>::empty() =~= whole);
        (safetensors::data_regions(layout, contract, i), Seq::empty())
    } else {
        let ends = safetensors_data_around(layout, contract, i, upto - 1);
        let last = safetensors::tensor_regions(layout, contract, upto - 1);
        assert(whole =~= ends.0 + safetensors::tensor_regions(layout, contract, i) + (ends.1
            + last));
        (ends.0, ends.1 + last)
    }
}

proof fn gguf_tensor_among(
    layout: gguf::LayoutModel,
    contract: Option<ContractModel>,
    size: int,
    t: int,
) -> (ends: (Seq<Region>, Seq<Region>))
    requires
        gguf::fills(layout, size),
        size <= u64::MAX,
        0 <= t < layout.tensors.len(),
    ensures
        ({
            let tensor = gguf::inventory_of(layout)[t];
            &&& gguf::layout_regions(layout, contract) == ends.0 + seam_grid(
                tensor.offset as int,
                tensor.length as int,
                cuts_in(contract, tensor),
                RegionKind::Tensor,
            ) + ends.1
            &&& tensor.offset + tensor.length <= size
        }),
{
    let tensor = gguf::inventory_of(layout)[t];
    super::gguf_laws::room_is_even(layout, size, t);
    let info = layout.tensors[t];
    assert(info.offset == gguf::packed(layout.tensors, layout.alignment, t));
    let around = gguf_data_around(layout, contract, t, layout.tensors.len() as int);
    let cuts = cuts_in(contract, tensor);
    assert(cuts == seams_for(contract, info.name, gguf::logical_shape(info), info.length));
    let middle = seam_grid(
        tensor.offset as int,
        tensor.length as int,
        cuts,
        RegionKind::Tensor,
    );
    let rest = grid(
        tensor.offset + tensor.length,
        gguf::padded(info, layout.alignment) - info.length,
        RegionKind::Header,
    );
    assert(gguf::tensor_regions(layout, contract, t) == middle + rest);
    let header = gguf::header_regions(layout);
    joined_around(header, around.0, middle, rest, around.1);
    (header + around.0, rest + around.1)
}

proof fn joined_around(
    a: Seq<Region>,
    b: Seq<Region>,
    middle: Seq<Region>,
    d: Seq<Region>,
    e: Seq<Region>,
)
    ensures
        a + (b + (middle + d) + e) == (a + b) + middle + (d + e),
{
    assert(a + (b + (middle + d) + e) =~= (a + b) + middle + (d + e));
}

proof fn safetensors_tensor_among(
    layout: safetensors::LayoutModel,
    contract: Option<ContractModel>,
    size: int,
    t: int,
) -> (ends: (Seq<Region>, Seq<Region>))
    requires
        safetensors::fills(layout, size),
        size <= u64::MAX,
        0 <= t < layout.tensors.len(),
    ensures
        ({
            let tensor = safetensors::inventory_of(layout)[t];
            &&& safetensors::layout_regions(layout, contract) == ends.0 + seam_grid(
                tensor.offset as int,
                tensor.length as int,
                cuts_in(contract, tensor),
                RegionKind::Tensor,
            ) + ends.1
            &&& tensor.offset + tensor.length <= size
        }),
{
    let tensor = safetensors::inventory_of(layout)[t];
    safetensors::span_is_inside(layout, size, t);
    let around = safetensors_data_around(layout, contract, t, layout.tensors.len() as int);
    let span = layout.tensors[t];
    let cuts = cuts_in(contract, tensor);
    assert(cuts == seams_for(contract, span.name, span.shape, (span.end - span.start) as u64));
    let middle = seam_grid(
        tensor.offset as int,
        tensor.length as int,
        cuts,
        RegionKind::Tensor,
    );
    let nothing = Seq::<Region>::empty();
    assert(safetensors::tensor_regions(layout, contract, t) == middle);
    assert(middle + nothing =~= middle);
    assert(nothing + around.1 =~= around.1);
    let header = grid(0, layout.header_end as int, RegionKind::Header);
    joined_around(header, around.0, middle, nothing, around.1);
    (header + around.0, around.1)
}

/// The regions of a listed tensor, among all regions of its file.
proof fn tensor_among_regions(c: Seq<u8>, contract: Option<ContractModel>, t: int) -> (ends: (
    Seq<Region>,
    Seq<Region>,
))
    requires
        c.len() <= u64::MAX,
        listing_of(c) is Some,
        plan_of(c, contract).planner == planner_of(listing_of(c).unwrap().format),
        0 <= t < listing_of(c).unwrap().tensors.len(),
    ensures
        ({
            let tensor = listing_of(c).unwrap().tensors[t];
            &&& plan_of(c, contract).regions == ends.0 + seam_grid(
                tensor.offset as int,
                tensor.length as int,
                cuts_in(contract, tensor),
                RegionKind::Tensor,
            ) + ends.1
            &&& tensor.offset + tensor.length <= c.len()
        }),
{
    if listing_of(c).unwrap().format == TensorFormat::GgufV1 {
        let layout = gguf::layout_of(c).unwrap();
        gguf::layout_fills_the_file(c);
        assert(plan_of(c, contract).regions == gguf::layout_regions(layout, contract));
        gguf_tensor_among(layout, contract, c.len() as int, t)
    } else {
        let layout = safetensors::layout_of(c).unwrap();
        safetensors::layout_fills_the_file(c);
        assert(plan_of(c, contract).regions == safetensors::layout_regions(layout, contract));
        safetensors_tensor_among(layout, contract, c.len() as int, t)
    }
}

proof fn part_is_cut(
    front: Seq<Region>,
    offset: int,
    length: u64,
    cuts: Seq<u64>,
    back: Seq<Region>,
    part: int,
) -> (r: int)
    requires
        0 <= offset,
        offset + length <= u64::MAX,
        crate::contract::rising_within(cuts, length),
        0 <= part <= cuts.len(),
    ensures
        ({
            let start = part_at(cuts, length, part);
            let size = part_at(cuts, length, part + 1) - start;
            cut_from(
                front + seam_grid(offset, length as int, cuts, RegionKind::Tensor) + back,
                r,
                cells(size),
                offset + start,
                size,
                RegionKind::Tensor,
            )
        }),
{
    let start = part_at(cuts, length, part);
    let size = part_at(cuts, length, part + 1) - start;
    let (low, high) = seam_grid_around(offset, length as int, cuts, RegionKind::Tensor, part);
    let middle = grid(offset + start, size, RegionKind::Tensor);
    let whole = seam_grid(offset, length as int, cuts, RegionKind::Tensor);
    assert(whole == low + middle + high);
    assert(front + (low + middle + high) + back =~= (front + low) + middle + (high + back));
    if 0 < part < cuts.len() {
        assert(cuts[part - 1] < cuts[part]);
    }
    if part > 0 {
        assert(0 < cuts[part - 1] < length);
    }
    if part < cuts.len() {
        assert(0 < cuts[part] < length);
    }
    grid_is_cut(front + low, offset + start, size, RegionKind::Tensor, high + back);
    (front + low).len() as int
}

/// Every part of every listed tensor, from one declared cut point to the next, is
/// cut on a grid that starts where the part starts.
pub proof fn every_part_is_cut_on_its_own_grid(
    c: Seq<u8>,
    contract: Option<ContractModel>,
    t: int,
    part: int,
) -> (r: int)
    requires
        c.len() <= u64::MAX,
        listing_of(c) is Some,
        plan_of(c, contract).planner == planner_of(listing_of(c).unwrap().format),
        0 <= t < listing_of(c).unwrap().tensors.len(),
        0 <= part <= cuts_in(contract, listing_of(c).unwrap().tensors[t]).len(),
    ensures
        ({
            let tensor = listing_of(c).unwrap().tensors[t];
            let cuts = cuts_in(contract, tensor);
            let start = part_at(cuts, tensor.length, part);
            let length = part_at(cuts, tensor.length, part + 1) - start;
            cut_from(
                plan_of(c, contract).regions,
                r,
                (length + largest_object() - 1) / largest_object(),
                tensor.offset + start,
                length,
                RegionKind::Tensor,
            )
        }),
{
    let tensor = listing_of(c).unwrap().tensors[t];
    let cuts = cuts_in(contract, tensor);
    let (front, back) = tensor_among_regions(c, contract, t);
    if let Some(contract) = contract {
        crate::contract::seams_fall_inside(contract, tensor.name, tensor.shape, tensor.length);
    }
    part_is_cut(front, tensor.offset as int, tensor.length, cuts, back, part)
}

// ---------------------------------------------------------------------------
// Cut points
// ---------------------------------------------------------------------------

/// A fusion cuts a tensor: its rows divide into the declared units, its bytes into
/// its rows, and no part is smaller than a seam may cut off.
pub open spec fn is_cut_by(fusion: FusionModel, tensor: InventoryModel) -> bool {
    let shares = share_sum(fusion.parts, fusion.parts.len() as int);
    let units = fusion.groups * shares;
    &&& tensor.shape.len() > 0
    &&& tensor.shape[0] > 0
    &&& units > 0
    &&& tensor.shape[0] as int % units == 0
    &&& tensor.length % tensor.shape[0] == 0
    &&& forall|part: int|
        0 <= part < fusion.parts.len() ==> tensor.length * (
        #[trigger] fusion.parts[part]).share >= smallest_part() * units
}

/// A contract cuts a tensor where the declaration that speaks for it has a fusion
/// that cuts it, and nowhere else: between any two parts, so that before each cut
/// point stand the shares of the parts before it.
pub proof fn cuts_stand_between_the_parts(
    contract: ContractModel,
    tensor: InventoryModel,
    d: int,
    fusion: FusionModel,
    group: int,
    part: int,
)
    requires
        speaks_for(contract, tensor.name, d),
        contract.tensors[d].fusion == Some(fusion),
        is_cut_by(fusion, tensor),
        0 <= group < fusion.groups,
        0 <= part < fusion.parts.len(),
        0 < at_place(fusion.parts.len() as int, group, part),
    ensures
        ({
            let parts = fusion.parts.len() as int;
            let shares = share_sum(fusion.parts, parts);
            let cuts = cuts_in(Some(contract), tensor);
            &&& cuts.len() == fusion.groups * parts - 1
            &&& cuts[at_place(parts, group, part) - 1] * (fusion.groups * shares) == tensor.length * (
            group * shares + share_sum(fusion.parts, part))
        }),
{
    one_speaks(contract, tensor.name, d);
    let parts = fusion.parts.len() as int;
    runs_are_large(fusion, tensor);
    a_fusion_cuts_by_shares(fusion, tensor.shape, tensor.length, group, part);
    let runs = fusion.runs(tensor.shape, tensor.length).unwrap();
    assert(contract.runs_of(tensor.name, tensor.shape, tensor.length) == Some(runs));
    let k = at_place(parts, group, part);
    assert(0 <= k < fusion.groups * parts) by (nonlinear_arith)
        requires
            k == group * parts + part,
            0 <= group < fusion.groups,
            0 <= part < parts,
    ;
    crate::contract::seams_fall_inside(contract, tensor.name, tensor.shape, tensor.length);
    crate::fusion::runs_tile_the_tensor(fusion, tensor.shape, tensor.length);
    crate::contract::run_sums_fit(runs, k, tensor.length);
}

/// A tensor that no declaration speaks for, or whose declaration has no fusion that
/// cuts it, is not cut.
pub proof fn other_tensors_are_not_cut(contract: ContractModel, tensor: InventoryModel)
    requires
        forall|d: int| #[trigger]
            speaks_for(contract, tensor.name, d) ==> (contract.tensors[d].fusion matches Some(fusion)
                ==> !is_cut_by(fusion, tensor)),
    ensures
        cuts_in(Some(contract), tensor).len() == 0,
{
    let g = governing(contract.tensors, tensor.name);
    one_speaks(contract, tensor.name, g);
    if g < contract.tensors.len() {
        crate::contract::governing_is_inside(contract.tensors, tensor.name);
        assert(speaks_for(contract, tensor.name, g));
        if let Some(fusion) = contract.tensors[g].fusion {
            if let Some(runs) = contract.runs_of(tensor.name, tensor.shape, tensor.length) {
                large_runs_cut(fusion, tensor);
            }
        }
    }
}

pub(crate) proof fn runs_are_large(fusion: FusionModel, tensor: InventoryModel)
    requires
        is_cut_by(fusion, tensor),
    ensures
        fusion.runs(tensor.shape, tensor.length) matches Some(runs) && forall|k: int|
            0 <= k < runs.len() ==> (#[trigger] runs[k]).length >= smallest_part(),
{
    let parts = fusion.parts.len() as int;
    let units = fusion.units() as int;
    let runs = fusion.runs(tensor.shape, tensor.length).unwrap();
    assert forall|k: int| 0 <= k < runs.len() implies (#[trigger] runs[k]).length
        >= smallest_part() by {
        place_of_run(fusion, k);
        let (group, part) = (k / parts, k % parts);
        a_fusion_cuts_by_shares(fusion, tensor.shape, tensor.length, group, part);
        let length = runs[k].length as int;
        assert(tensor.length * fusion.parts[part].share >= smallest_part() * units);
        assert(length >= smallest_part()) by (nonlinear_arith)
            requires
                length * units >= smallest_part() * units,
                units > 0,
        ;
    }
}

proof fn place_of_run(fusion: FusionModel, k: int)
    requires
        0 <= k < fusion.groups * fusion.parts.len(),
    ensures
        ({
            let parts = fusion.parts.len() as int;
            &&& parts > 0
            &&& 0 <= k / parts < fusion.groups
            &&& 0 <= k % parts < parts
            &&& at_place(parts, k / parts, k % parts) == k
        }),
{
    let parts = fusion.parts.len() as int;
    let groups = fusion.groups as int;
    assert(parts > 0) by (nonlinear_arith)
        requires
            0 <= k < groups * parts,
            parts >= 0,
    ;
    vstd::arithmetic::div_mod::lemma_fundamental_div_mod(k, parts);
    assert(parts * (k / parts) == (k / parts) * parts) by (nonlinear_arith);
    assert(0 <= k / parts < groups) by (nonlinear_arith)
        requires
            0 <= k < groups * parts,
            parts > 0,
    ;
}

pub(crate) proof fn large_runs_cut(fusion: FusionModel, tensor: InventoryModel)
    requires
        fusion.runs(tensor.shape, tensor.length) matches Some(runs) && forall|k: int|
            0 <= k < runs.len() ==> (#[trigger] runs[k]).length >= smallest_part(),
    ensures
        is_cut_by(fusion, tensor),
{
    let parts = fusion.parts.len() as int;
    let units = fusion.units() as int;
    let runs = fusion.runs(tensor.shape, tensor.length).unwrap();
    let groups = fusion.groups as int;
    assert(groups > 0) by (nonlinear_arith)
        requires
            groups * share_sum(fusion.parts, parts) > 0,
            groups >= 0,
    ;
    assert forall|part: int| 0 <= part < fusion.parts.len() implies tensor.length * (
    #[trigger] fusion.parts[part]).share >= smallest_part() * units by {
        a_fusion_cuts_by_shares(fusion, tensor.shape, tensor.length, 0, part);
        let k = at_place(parts, 0, part);
        assert(0 * parts == 0) by (nonlinear_arith);
        assert(part < groups * parts) by (nonlinear_arith)
            requires
                0 <= part < parts,
                groups >= 1,
        ;
        let length = runs[k].length as int;
        assert(length >= smallest_part());
        assert(length * units >= smallest_part() * units) by (nonlinear_arith)
            requires
                length >= smallest_part(),
                units > 0,
        ;
    }
}

} // verus!
