//! The runs of a file are the parts that its contract cuts its tensors into: each
//! part of each tensor once, where it stands in the file.

use super::laws::{a_fusion_cuts_by_shares, at_place};
use super::runs::{
    carries, parts_of, row_bytes, runs_of_file, runs_stand_in_role_order, runs_upto, with_parts,
    FaultModel, SourceModel,
};
use crate::contract::{governing, governing_is_inside, ContractModel};
use crate::fusion::{run_sum, share_sum, PermuteModel, RunModel};
use crate::pattern::{captured, instantiated};
use crate::planner::region_laws::{is_cut_by, large_runs_cut, runs_are_large};
use crate::planner::InventoryModel;
use crate::verdict_laws::{one_speaks, speaks_for};
use vstd::prelude::*;

verus! {

/// A run is one part of a tensor: it has the base role with the part's suffix, the
/// element type and the permute of its tensor, stands `before` bytes behind the
/// tensor's start, and covers whole rows.
pub open spec fn is_part_run(
    run: SourceModel,
    tensor: InventoryModel,
    permute: Option<PermuteModel>,
    base: Seq<char>,
    part: RunModel,
    before: int,
) -> bool {
    &&& run.role == base + part.role
    &&& run.tensor == tensor.name
    &&& run.dtype == tensor.dtype
    &&& run.permute == permute
    &&& run.offset == (tensor.offset + before) as u64
    &&& run.length == part.length
    &&& run.whole == (part.length == tensor.length)
    &&& run.row_shape == (if tensor.shape.len() == 0 {
        tensor.shape
    } else {
        tensor.shape.skip(1)
    })
    &&& tensor.shape.len() > 0 && tensor.shape[0] > 0 ==> run.rows * (tensor.length
        / tensor.shape[0]) == run.length
}

/// The parts of a tensor that a fusion cuts are the fusion's, group by group; any
/// other tensor is one part, without a suffix.
pub proof fn parts_are_as_declared(contract: ContractModel, tensor: InventoryModel, d: int)
    requires
        speaks_for(contract, tensor.name, d),
    ensures
        ({
            let parts = parts_of(contract, tensor);
            let whole = RunModel { role: Seq::empty(), length: tensor.length };
            match contract.tensors[d].fusion {
                None => parts == seq![whole],
                Some(fusion) => if is_cut_by(fusion, tensor) {
                    let n = fusion.parts.len() as int;
                    let shares = share_sum(fusion.parts, n);
                    &&& parts.len() == fusion.groups * n
                    &&& forall|group: int, part: int|
                        0 <= group < fusion.groups && 0 <= part < n ==> {
                            let one = #[trigger] parts[at_place(n, group, part)];
                            &&& one.role == fusion.run_role(group, part)
                            &&& one.length * (fusion.groups * shares) == tensor.length
                                * fusion.parts[part].share
                        }
                } else {
                    parts == seq![whole]
                },
            }
        }),
{
    one_speaks(contract, tensor.name, d);
    if let Some(fusion) = contract.tensors[d].fusion {
        if is_cut_by(fusion, tensor) {
            runs_are_large(fusion, tensor);
            let n = fusion.parts.len() as int;
            let runs = fusion.runs(tensor.shape, tensor.length).unwrap();
            assert(parts_of(contract, tensor) == runs);
            let shares = share_sum(fusion.parts, n);
            assert forall|group: int, part: int|
                0 <= group < fusion.groups && 0 <= part < n implies {
                let one = #[trigger] runs[at_place(n, group, part)];
                &&& one.role == fusion.run_role(group, part)
                &&& one.length * (fusion.groups * shares) == tensor.length
                    * fusion.parts[part].share
            } by {
                a_fusion_cuts_by_shares(fusion, tensor.shape, tensor.length, group, part);
            }
        } else if contract.runs_of(tensor.name, tensor.shape, tensor.length) is Some {
            large_runs_cut(fusion, tensor);
        }
    }
}

proof fn parts_are_runs(
    found: Seq<SourceModel>,
    tensor: InventoryModel,
    permute: Option<PermuteModel>,
    base: Seq<char>,
    parts: Seq<RunModel>,
    upto: int,
)
    requires
        0 <= upto <= parts.len(),
    ensures
        with_parts(found, tensor, permute, base, parts, upto) matches Ok(runs) ==> {
            &&& runs.len() == found.len() + upto
            &&& forall|i: int| 0 <= i < found.len() ==> #[trigger] runs[i] == found[i]
            &&& forall|k: int|
                0 <= k < upto ==> is_part_run(
                    #[trigger] runs[found.len() + k],
                    tensor,
                    permute,
                    base,
                    parts[k],
                    run_sum(parts, k) as int,
                )
        },
    decreases upto,
{
    if upto > 0 {
        parts_are_runs(found, tensor, permute, base, parts, upto - 1);
        if let (Ok(before), Ok(runs)) = (
            with_parts(found, tensor, permute, base, parts, upto - 1),
            with_parts(found, tensor, permute, base, parts, upto),
        ) {
            let row = row_bytes(tensor) as int;
            let length = parts[upto - 1].length as int;
            vstd::arithmetic::div_mod::lemma_fundamental_div_mod(length, row);
            assert(row * (length / row) == (length / row) * row) by (nonlinear_arith);
            assert forall|i: int| 0 <= i < found.len() implies #[trigger] runs[i] == found[i] by {
                assert(runs[i] == before[i]);
            }
            assert forall|k: int| 0 <= k < upto implies is_part_run(
                #[trigger] runs[found.len() + k],
                tensor,
                permute,
                base,
                parts[k],
                run_sum(parts, k) as int,
            ) by {
                if k < upto - 1 {
                    assert(runs[found.len() + k] == before[found.len() + k]);
                }
            }
        }
    }
}

/// A run is the `k`th part of the `i`th tensor.
pub open spec fn is_run_of(
    contract: ContractModel,
    tensors: Seq<InventoryModel>,
    run: SourceModel,
    i: int,
    k: int,
) -> bool {
    let tensor = tensors[i];
    let parts = parts_of(contract, tensor);
    &&& 0 <= k < parts.len()
    &&& exists|d: int| #[trigger]
        speaks_for(contract, tensor.name, d) && {
            let entry = contract.tensors[d];
            let values = captured(entry.pattern, tensor.name).unwrap();
            &&& instantiated(entry.role, values) is Some
            &&& is_part_run(
                run,
                tensor,
                entry.permute,
                instantiated(entry.role, values).unwrap(),
                parts[k],
                run_sum(parts, k) as int,
            )
        }
}

/// One tensor more gives the runs of its parts behind those before it.
proof fn one_tensor_more(contract: ContractModel, tensors: Seq<InventoryModel>, upto: int)
    requires
        0 < upto <= tensors.len(),
        runs_upto(contract, tensors, upto) is Ok,
    ensures
        ({
            let tensor = tensors[upto - 1];
            let parts = parts_of(contract, tensor);
            let runs = runs_upto(contract, tensors, upto)->Ok_0;
            let before = runs_upto(contract, tensors, upto - 1)->Ok_0;
            let spoken = governing(contract.tensors, tensor.name) < contract.tensors.len();
            &&& runs_upto(contract, tensors, upto - 1) is Ok
            &&& runs.len() == before.len() + if spoken {
                parts.len()
            } else {
                0
            }
            &&& forall|i: int| 0 <= i < before.len() ==> #[trigger] runs[i] == before[i]
            &&& spoken ==> forall|k: int|
                0 <= k < parts.len() ==> is_run_of(
                    contract,
                    tensors,
                    #[trigger] runs[before.len() + k],
                    upto - 1,
                    k,
                )
        }),
{
    let tensor = tensors[upto - 1];
    let g = governing(contract.tensors, tensor.name);
    one_speaks(contract, tensor.name, g);
    governing_is_inside(contract.tensors, tensor.name);
    let parts = parts_of(contract, tensor);
    let before = runs_upto(contract, tensors, upto - 1)->Ok_0;
    let runs = runs_upto(contract, tensors, upto)->Ok_0;
    if g < contract.tensors.len() {
        let entry = contract.tensors[g];
        let values = captured(entry.pattern, tensor.name).unwrap();
        let base = instantiated(entry.role, values).unwrap();
        parts_are_runs(before, tensor, entry.permute, base, parts, parts.len() as int);
        assert forall|k: int| 0 <= k < parts.len() implies is_run_of(
            contract,
            tensors,
            #[trigger] runs[before.len() + k],
            upto - 1,
            k,
        ) by {
            assert(speaks_for(contract, tensor.name, g));
        }
    }
}

proof fn part_is_found(
    contract: ContractModel,
    tensors: Seq<InventoryModel>,
    i: int,
    d: int,
    k: int,
    upto: int,
) -> (r: int)
    requires
        0 <= i < upto <= tensors.len(),
        runs_upto(contract, tensors, upto) is Ok,
        speaks_for(contract, tensors[i].name, d),
        0 <= k < parts_of(contract, tensors[i]).len(),
    ensures
        0 <= r < runs_upto(contract, tensors, upto)->Ok_0.len(),
        is_run_of(contract, tensors, runs_upto(contract, tensors, upto)->Ok_0[r], i, k),
    decreases upto,
{
    one_tensor_more(contract, tensors, upto);
    let runs = runs_upto(contract, tensors, upto)->Ok_0;
    let before = runs_upto(contract, tensors, upto - 1)->Ok_0;
    if i < upto - 1 {
        let r = part_is_found(contract, tensors, i, d, k, upto - 1);
        assert(runs[r] == before[r]);
        r
    } else {
        one_speaks(contract, tensors[i].name, d);
        assert(is_run_of(contract, tensors, runs[before.len() + k], i, k));
        before.len() + k
    }
}

proof fn found_is_a_part(
    contract: ContractModel,
    tensors: Seq<InventoryModel>,
    r: int,
    upto: int,
) -> (spot: (int, int))
    requires
        0 <= upto <= tensors.len(),
        runs_upto(contract, tensors, upto) is Ok,
        0 <= r < runs_upto(contract, tensors, upto)->Ok_0.len(),
    ensures
        0 <= spot.0 < upto,
        is_run_of(
            contract,
            tensors,
            runs_upto(contract, tensors, upto)->Ok_0[r],
            spot.0,
            spot.1,
        ),
    decreases upto,
{
    one_tensor_more(contract, tensors, upto);
    let runs = runs_upto(contract, tensors, upto)->Ok_0;
    let before = runs_upto(contract, tensors, upto - 1)->Ok_0;
    if r < before.len() {
        assert(runs[r] == before[r]);
        found_is_a_part(contract, tensors, r, upto - 1)
    } else {
        let k = r - before.len();
        assert(runs[before.len() + k] == runs[r]);
        (upto - 1, k)
    }
}

/// Every part of every tensor that the contract speaks for is a run of the file.
pub proof fn every_part_is_a_run(
    contract: ContractModel,
    tensors: Seq<InventoryModel>,
    i: int,
    d: int,
    k: int,
)
    requires
        runs_of_file(contract, tensors) is Ok,
        runs_upto(contract, tensors, tensors.len() as int) matches Ok(found) ==> found.len()
            <= usize::MAX,
        0 <= i < tensors.len(),
        speaks_for(contract, tensors[i].name, d),
        0 <= k < parts_of(contract, tensors[i]).len(),
    ensures
        exists|r: int|
            0 <= r < runs_of_file(contract, tensors)->Ok_0.len() && is_run_of(
                contract,
                tensors,
                #[trigger] runs_of_file(contract, tensors)->Ok_0[r],
                i,
                k,
            ),
{
    let n = tensors.len() as int;
    let found = runs_upto(contract, tensors, n)->Ok_0;
    let runs = runs_of_file(contract, tensors)->Ok_0;
    let r = part_is_found(contract, tensors, i, d, k, n);
    runs_stand_in_role_order(contract, tensors, found[r]);
    assert(found.contains(found[r]));
    let at = choose|at: int| 0 <= at < runs.len() && runs[at] == found[r];
    assert(is_run_of(contract, tensors, runs[at], i, k));
}

/// Every run of a file is a part of a tensor that the contract speaks for.
pub proof fn every_run_is_a_part(contract: ContractModel, tensors: Seq<InventoryModel>, r: int)
    requires
        runs_of_file(contract, tensors) is Ok,
        runs_upto(contract, tensors, tensors.len() as int) matches Ok(found) ==> found.len()
            <= usize::MAX,
        0 <= r < runs_of_file(contract, tensors)->Ok_0.len(),
    ensures
        exists|i: int, k: int|
            0 <= i < tensors.len() && #[trigger] is_run_of(
                contract,
                tensors,
                runs_of_file(contract, tensors)->Ok_0[r],
                i,
                k,
            ),
{
    let n = tensors.len() as int;
    let found = runs_upto(contract, tensors, n)->Ok_0;
    let runs = runs_of_file(contract, tensors)->Ok_0;
    runs_stand_in_role_order(contract, tensors, runs[r]);
    assert(runs.contains(runs[r]));
    let at = choose|at: int| 0 <= at < found.len() && found[at] == runs[r];
    let (i, k) = found_is_a_part(contract, tensors, at, n);
    assert(is_run_of(contract, tensors, runs[r], i, k));
}

/// Whether the `k`th part of the `i`th tensor has a role.
pub open spec fn has_role(
    contract: ContractModel,
    tensors: Seq<InventoryModel>,
    i: int,
    k: int,
    role: Seq<char>,
) -> bool {
    let tensor = tensors[i];
    &&& 0 <= i < tensors.len()
    &&& 0 <= k < parts_of(contract, tensor).len()
    &&& exists|d: int| #[trigger]
        speaks_for(contract, tensor.name, d) && {
            let entry = contract.tensors[d];
            let values = captured(entry.pattern, tensor.name).unwrap();
            &&& instantiated(entry.role, values) is Some
            &&& role == instantiated(entry.role, values).unwrap() + parts_of(contract, tensor)[k].role
        }
}

/// Whether so many bytes are no whole number of a tensor's rows, or a row has none.
pub open spec fn cuts_a_row(tensor: InventoryModel, length: u64) -> bool {
    let rows = if tensor.shape.len() == 0 || tensor.shape[0] == 0 {
        1
    } else {
        tensor.shape[0] as int
    };
    let row = tensor.length as int / rows;
    row == 0 || length as int % row != 0
}

/// Whether two parts have one role.
pub open spec fn two_have_role(
    contract: ContractModel,
    tensors: Seq<InventoryModel>,
    role: Seq<char>,
) -> bool {
    exists|i: int, k: int, j: int, l: int|
        (i != j || k != l) && #[trigger] has_role(contract, tensors, i, k, role)
            && #[trigger] has_role(contract, tensors, j, l, role)
}

/// Whether a part of that role ends within a row.
pub open spec fn one_cuts_a_row(
    contract: ContractModel,
    tensors: Seq<InventoryModel>,
    role: Seq<char>,
) -> bool {
    exists|i: int, k: int| #[trigger]
        has_role(contract, tensors, i, k, role) && cuts_a_row(
            tensors[i],
            parts_of(contract, tensors[i])[k].length,
        )
}

/// Whether a fault holds of a file under a contract.
pub open spec fn is_source_fault(
    contract: ContractModel,
    tensors: Seq<InventoryModel>,
    fault: FaultModel,
) -> bool {
    match fault {
        FaultModel::TwiceCarried { role } => two_have_role(contract, tensors, role),
        FaultModel::PartialRows { role } => one_cuts_a_row(contract, tensors, role),
        FaultModel::SourceMismatch => exists|i: int, d: int|
            0 <= i < tensors.len() && #[trigger] speaks_for(contract, tensors[i].name, d)
                && instantiated(
                contract.tensors[d].role,
                captured(contract.tensors[d].pattern, tensors[i].name).unwrap(),
            ) is None,
        _ => false,
    }
}

proof fn two_of_one_role(
    contract: ContractModel,
    tensors: Seq<InventoryModel>,
    a: (int, int),
    b: (int, int),
    role: Seq<char>,
)
    requires
        a != b,
        has_role(contract, tensors, a.0, a.1, role),
        has_role(contract, tensors, b.0, b.1, role),
    ensures
        two_have_role(contract, tensors, role),
{
}

proof fn a_part_of_a_row(
    contract: ContractModel,
    tensors: Seq<InventoryModel>,
    i: int,
    k: int,
    role: Seq<char>,
)
    requires
        has_role(contract, tensors, i, k, role),
        row_bytes(tensors[i]) == 0 || parts_of(contract, tensors[i])[k].length % row_bytes(
            tensors[i],
        ) != 0,
    ensures
        one_cuts_a_row(contract, tensors, role),
{
    assert(cuts_a_row(tensors[i], parts_of(contract, tensors[i])[k].length));
}

proof fn a_run_has_its_role(
    contract: ContractModel,
    tensors: Seq<InventoryModel>,
    run: SourceModel,
    i: int,
    k: int,
)
    requires
        0 <= i < tensors.len(),
        is_run_of(contract, tensors, run, i, k),
    ensures
        has_role(contract, tensors, i, k, run.role),
{
}

proof fn a_part_has_its_role(
    contract: ContractModel,
    tensors: Seq<InventoryModel>,
    i: int,
    d: int,
    k: int,
    base: Seq<char>,
)
    requires
        0 <= i < tensors.len(),
        speaks_for(contract, tensors[i].name, d),
        ({
            let entry = contract.tensors[d];
            instantiated(entry.role, captured(entry.pattern, tensors[i].name).unwrap()) == Some(base)
        }),
        0 <= k < parts_of(contract, tensors[i]).len(),
    ensures
        has_role(contract, tensors, i, k, base + parts_of(contract, tensors[i])[k].role),
{
}

/// Where a run among those found and the parts before it has a role.
proof fn the_other_of_that_role(
    contract: ContractModel,
    tensors: Seq<InventoryModel>,
    i: int,
    d: int,
    upto: int,
    base: Seq<char>,
    r: int,
) -> (spot: (int, int))
    requires
        0 <= i < tensors.len(),
        runs_upto(contract, tensors, i) is Ok,
        speaks_for(contract, tensors[i].name, d),
        ({
            let entry = contract.tensors[d];
            instantiated(entry.role, captured(entry.pattern, tensors[i].name).unwrap()) == Some(base)
        }),
        0 <= upto < parts_of(contract, tensors[i]).len(),
        with_parts(
            runs_upto(contract, tensors, i)->Ok_0,
            tensors[i],
            contract.tensors[d].permute,
            base,
            parts_of(contract, tensors[i]),
            upto,
        ) matches Ok(runs) && 0 <= r < runs.len(),
    ensures
        spot != (i, upto),
        has_role(
            contract,
            tensors,
            spot.0,
            spot.1,
            with_parts(
                runs_upto(contract, tensors, i)->Ok_0,
                tensors[i],
                contract.tensors[d].permute,
                base,
                parts_of(contract, tensors[i]),
                upto,
            )->Ok_0[r].role,
        ),
{
    let found = runs_upto(contract, tensors, i)->Ok_0;
    let parts = parts_of(contract, tensors[i]);
    let entry = contract.tensors[d];
    parts_are_runs(found, tensors[i], entry.permute, base, parts, upto);
    let runs = with_parts(found, tensors[i], entry.permute, base, parts, upto)->Ok_0;
    if r < found.len() {
        assert(runs[r] == found[r]);
        let spot = found_is_a_part(contract, tensors, r, i);
        a_run_has_its_role(contract, tensors, found[r], spot.0, spot.1);
        spot
    } else {
        let k = r - found.len();
        assert(runs[found.len() + k] == runs[r]);
        a_part_has_its_role(contract, tensors, i, d, k, base);
        (i, k)
    }
}

proof fn a_part_is_refused_for_a_reason(
    contract: ContractModel,
    tensors: Seq<InventoryModel>,
    i: int,
    d: int,
    upto: int,
)
    requires
        0 <= i < tensors.len(),
        runs_upto(contract, tensors, i) is Ok,
        speaks_for(contract, tensors[i].name, d),
        ({
            let entry = contract.tensors[d];
            instantiated(entry.role, captured(entry.pattern, tensors[i].name).unwrap()) is Some
        }),
        0 <= upto <= parts_of(contract, tensors[i]).len(),
    ensures
        ({
            let entry = contract.tensors[d];
            let base = instantiated(
                entry.role,
                captured(entry.pattern, tensors[i].name).unwrap(),
            ).unwrap();
            with_parts(
                runs_upto(contract, tensors, i)->Ok_0,
                tensors[i],
                entry.permute,
                base,
                parts_of(contract, tensors[i]),
                upto,
            ) matches Err(fault) ==> is_source_fault(contract, tensors, fault)
        }),
    decreases upto,
{
    let tensor = tensors[i];
    let entry = contract.tensors[d];
    let base = instantiated(entry.role, captured(entry.pattern, tensor.name).unwrap()).unwrap();
    let found = runs_upto(contract, tensors, i)->Ok_0;
    let parts = parts_of(contract, tensor);
    if upto > 0 {
        a_part_is_refused_for_a_reason(contract, tensors, i, d, upto - 1);
        let part = parts[upto - 1];
        let role = base + part.role;
        a_part_has_its_role(contract, tensors, i, d, upto - 1, base);
        if let Ok(runs) = with_parts(found, tensor, entry.permute, base, parts, upto - 1) {
            if row_bytes(tensor) == 0 || part.length % row_bytes(tensor) != 0 {
                a_part_of_a_row(contract, tensors, i, upto - 1, role);
            } else if carries(runs, role) {
                let r = choose|r: int| 0 <= r < runs.len() && (#[trigger] runs[r]).role == role;
                let spot = the_other_of_that_role(contract, tensors, i, d, upto - 1, base, r);
                two_of_one_role(contract, tensors, spot, (i, upto - 1), role);
            }
        }
    }
}

proof fn a_tensor_is_refused_for_a_reason(
    contract: ContractModel,
    tensors: Seq<InventoryModel>,
    upto: int,
)
    requires
        0 <= upto <= tensors.len(),
    ensures
        runs_upto(contract, tensors, upto) matches Err(fault) ==> is_source_fault(
            contract,
            tensors,
            fault,
        ),
    decreases upto,
{
    if upto > 0 {
        a_tensor_is_refused_for_a_reason(contract, tensors, upto - 1);
        if runs_upto(contract, tensors, upto - 1) is Ok {
            let i = upto - 1;
            let g = governing(contract.tensors, tensors[i].name);
            one_speaks(contract, tensors[i].name, g);
            governing_is_inside(contract.tensors, tensors[i].name);
            if g < contract.tensors.len() {
                let entry = contract.tensors[g];
                let values = captured(entry.pattern, tensors[i].name).unwrap();
                assert(speaks_for(contract, tensors[i].name, g));
                if instantiated(entry.role, values) is Some {
                    a_part_is_refused_for_a_reason(
                        contract,
                        tensors,
                        i,
                        g,
                        parts_of(contract, tensors[i]).len() as int,
                    );
                }
            }
        }
    }
}

/// A file is refused under its own contract only for a reason that holds: two parts
/// have one role, a part ends within a row, or a role has no text for the values of
/// a name.
pub proof fn a_source_is_refused_for_a_reason(
    contract: ContractModel,
    tensors: Seq<InventoryModel>,
)
    ensures
        runs_of_file(contract, tensors) matches Err(fault) ==> is_source_fault(
            contract,
            tensors,
            fault,
        ),
{
    a_tensor_is_refused_for_a_reason(contract, tensors, tensors.len() as int);
}

} // verus!
