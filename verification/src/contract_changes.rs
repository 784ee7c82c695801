//! One change to a contract changes its canonical rendering, whatever its texts
//! hold: the contract's digest is the digest of that rendering.

use crate::contract::{
    canonical_text, dtypes_text, fusion_text, heading_text, parts_text, permute_text, rank_text,
    required_text, sets_text, tensor_head, tensor_text, tensors_text, ContractModel, HandleModel,
    TensorModel, CONTRACT_FORMAT,
};
use crate::contract_rendering::{
    a_name_is_in_line, answers_tell_apart, apart, behind, grouped, numbers_tell_apart,
    ranks_tell_apart,
};
use crate::fusion::{FusionModel, PartModel};
use crate::text::decimal;
use vstd::prelude::*;

verus! {

/// What stands before the same text is the same.
proof fn before(x: Seq<char>, y: Seq<char>, tail: Seq<char>)
    requires
        x + tail == y + tail,
    ensures
        x == y,
{
    assert((x + tail).len() == x.len() + tail.len());
    assert((y + tail).len() == y.len() + tail.len());
    assert forall|i: int| 0 <= i < x.len() implies x[i] == y[i] by {
        assert((x + tail)[i] == x[i]);
        assert((y + tail)[i] == y[i]);
    }
    assert(x =~= y);
}

/// What stands between the same texts is the same.
proof fn between(head: Seq<char>, x: Seq<char>, y: Seq<char>, tail: Seq<char>)
    requires
        head + x + tail == head + y + tail,
    ensures
        x == y,
{
    before(head + x, head + y, tail);
    behind(head, x, y);
}

// ---------------------------------------------------------------------------
// The heading
// ---------------------------------------------------------------------------

spec fn identity_text(handle: Option<HandleModel>) -> Seq<char> {
    match handle {
        None => Seq::empty(),
        Some(handle) => "name="@ + handle.name + "\nversion="@ + decimal(handle.version as nat)
            + "\n"@,
    }
}

spec fn dtype_text(dtype: Option<Seq<char>>) -> Seq<char> {
    match dtype {
        None => Seq::empty(),
        Some(dtype) => "dtype="@ + dtype + "\n"@,
    }
}

proof fn headings_are_alike(a: ContractModel, b: ContractModel)
    requires
        canonical_text(a) == canonical_text(b),
        a.tensors == b.tensors,
        a.sets == b.sets,
    ensures
        heading_text(a) == heading_text(b),
{
    let tensors = tensors_text(a.tensors, a.tensors.len() as int);
    let sets = sets_text(a.sets, a.sets.len() as int);
    before(heading_text(a) + tensors, heading_text(b) + tensors, sets);
    before(heading_text(a), heading_text(b), tensors);
}

/// To declare another element type, or to declare one at all, changes the
/// rendering.
pub proof fn another_dtype_is_another_rendering(a: ContractModel, b: ContractModel)
    requires
        a.handle == b.handle,
        a.tensors == b.tensors,
        a.sets == b.sets,
        a.dtype != b.dtype,
    ensures
        canonical_text(a) != canonical_text(b),
{
    if canonical_text(a) == canonical_text(b) {
        headings_are_alike(a, b);
        let head = CONTRACT_FORMAT@ + "\n"@ + identity_text(a.handle);
        assert(heading_text(a) == head + dtype_text(a.dtype));
        assert(heading_text(b) == head + dtype_text(b.dtype));
        behind(head, dtype_text(a.dtype), dtype_text(b.dtype));
        reveal_strlit("dtype=");
        match (a.dtype, b.dtype) {
            (Some(x), Some(y)) => {
                between("dtype="@, x, y, "\n"@);
            },
            (Some(x), None) => {
                assert(dtype_text(a.dtype).len() > 0);
            },
            (None, Some(y)) => {
                assert(dtype_text(b.dtype).len() > 0);
            },
            (None, None) => {},
        }
    }
}

/// To declare another name or version, or to declare them at all, changes the
/// rendering.
pub proof fn another_identity_is_another_rendering(a: ContractModel, b: ContractModel)
    requires
        a.wf(),
        b.wf(),
        a.dtype == b.dtype,
        a.tensors == b.tensors,
        a.sets == b.sets,
        a.handle != b.handle,
    ensures
        canonical_text(a) != canonical_text(b),
{
    if canonical_text(a) == canonical_text(b) {
        headings_are_alike(a, b);
        let head = CONTRACT_FORMAT@ + "\n"@;
        let tail = dtype_text(a.dtype);
        assert(heading_text(a) == head + identity_text(a.handle) + tail);
        assert(heading_text(b) == head + identity_text(b.handle) + tail);
        between(head, identity_text(a.handle), identity_text(b.handle), tail);
        reveal_strlit("name=");
        match (a.handle, b.handle) {
            (Some(x), Some(y)) => {
                identities_tell_apart(x, y);
            },
            (Some(x), None) => {
                assert(identity_text(a.handle).len() > 0);
            },
            (None, Some(y)) => {
                assert(identity_text(b.handle).len() > 0);
            },
            (None, None) => {},
        }
    }
}

proof fn identities_tell_apart(a: HandleModel, b: HandleModel)
    requires
        a.wf(),
        b.wf(),
        identity_text(Some(a)) == identity_text(Some(b)),
    ensures
        a == b,
{
    reveal_strlit("\nversion=");
    let x = "\nversion="@ + decimal(a.version as nat);
    let y = "\nversion="@ + decimal(b.version as nat);
    grouped("name="@ + a.name, "\nversion="@, decimal(a.version as nat));
    grouped("name="@ + b.name, "\nversion="@, decimal(b.version as nat));
    before("name="@ + a.name + x, "name="@ + b.name + y, "\n"@);
    grouped("name="@, a.name, x);
    grouped("name="@, b.name, y);
    behind("name="@, a.name + x, b.name + y);
    let marks = seq!['\n'];
    assert(marks[0] == '\n');
    a_name_is_in_line(a);
    a_name_is_in_line(b);
    apart(a.name, b.name, x, y, marks);
    behind("\nversion="@, decimal(a.version as nat), decimal(b.version as nat));
    numbers_tell_apart(a.version as nat, b.version as nat);
}

// ---------------------------------------------------------------------------
// One declaration
// ---------------------------------------------------------------------------

/// A contract with another declaration at one place.
pub open spec fn with_tensor(contract: ContractModel, at: int, tensor: TensorModel) -> ContractModel {
    ContractModel { tensors: contract.tensors.update(at, tensor), ..contract }
}

proof fn other_tensors_stay(
    tensors: Seq<TensorModel>,
    at: int,
    tensor: TensorModel,
    upto: int,
)
    requires
        0 <= at < tensors.len(),
        0 <= upto <= tensors.len(),
    ensures
        upto <= at ==> tensors_text(tensors.update(at, tensor), upto) == tensors_text(
            tensors,
            upto,
        ),
        upto > at && tensors_text(tensors.update(at, tensor), upto) == tensors_text(tensors, upto)
            ==> tensor_text(tensor) == tensor_text(tensors[at]),
    decreases upto,
{
    if upto > 0 {
        let other = tensors.update(at, tensor);
        other_tensors_stay(tensors, at, tensor, upto - 1);
        if upto > at && tensors_text(other, upto) == tensors_text(tensors, upto) {
            if upto - 1 == at {
                behind(
                    tensors_text(tensors, at),
                    tensor_text(tensor),
                    tensor_text(tensors[at]),
                );
            } else {
                assert(other[upto - 1] == tensors[upto - 1]);
                before(
                    tensors_text(other, upto - 1),
                    tensors_text(tensors, upto - 1),
                    tensor_text(tensors[upto - 1]),
                );
            }
        }
    }
}

/// A declaration with another line changes the rendering.
pub proof fn another_line_is_another_rendering(
    contract: ContractModel,
    at: int,
    tensor: TensorModel,
)
    requires
        0 <= at < contract.tensors.len(),
        tensor_text(tensor) != tensor_text(contract.tensors[at]),
    ensures
        canonical_text(with_tensor(contract, at, tensor)) != canonical_text(contract),
{
    let other = with_tensor(contract, at, tensor);
    if canonical_text(other) == canonical_text(contract) {
        let n = contract.tensors.len() as int;
        let sets = sets_text(contract.sets, contract.sets.len() as int);
        assert(heading_text(other) == heading_text(contract));
        between(
            heading_text(contract),
            tensors_text(other.tensors, n),
            tensors_text(contract.tensors, n),
            sets,
        );
        other_tensors_stay(contract.tensors, at, tensor, n);
    }
}

/// To change the role, the pattern, the rank or whether it is required, of one
/// declaration and one of these alone, changes the rendering.
pub proof fn another_field_is_another_rendering(
    contract: ContractModel,
    at: int,
    tensor: TensorModel,
)
    requires
        0 <= at < contract.tensors.len(),
        tensor != contract.tensors[at],
        ({
            let now = contract.tensors[at];
            ||| tensor == (TensorModel { role: tensor.role, ..now })
            ||| tensor == (TensorModel { pattern: tensor.pattern, ..now })
            ||| tensor == (TensorModel { rank: tensor.rank, ..now })
            ||| tensor == (TensorModel { required: tensor.required, ..now })
        }),
    ensures
        canonical_text(with_tensor(contract, at, tensor)) != canonical_text(contract),
{
    let now = contract.tensors[at];
    if tensor_text(tensor) == tensor_text(now) {
        let fusion = fusion_text(now.fusion);
        let permute = permute_text(now.permute);
        let dtypes = dtypes_text(now.dtypes);
        before(
            tensor_head(tensor) + dtypes + permute + fusion,
            tensor_head(now) + dtypes + permute + fusion,
            "\n"@,
        );
        before(
            tensor_head(tensor) + dtypes + permute,
            tensor_head(now) + dtypes + permute,
            fusion,
        );
        before(tensor_head(tensor) + dtypes, tensor_head(now) + dtypes, permute);
        before(tensor_head(tensor), tensor_head(now), dtypes);
        heads_tell_apart(tensor, now);
    }
    another_line_is_another_rendering(contract, at, tensor);
}

proof fn heads_tell_apart(a: TensorModel, b: TensorModel)
    requires
        tensor_head(a) == tensor_head(b),
        ({
            ||| a == (TensorModel { role: a.role, ..b })
            ||| a == (TensorModel { pattern: a.pattern, ..b })
            ||| a == (TensorModel { rank: a.rank, ..b })
            ||| a == (TensorModel { required: a.required, ..b })
        }),
    ensures
        a == b,
{
    let (r, s) = ("tensor role="@ + a.role, "tensor role="@ + b.role);
    let (p, q) = (r + " pattern="@ + a.pattern, s + " pattern="@ + b.pattern);
    let (k, l) = (p + " rank="@ + rank_text(a.rank), q + " rank="@ + rank_text(b.rank));
    if a.required == b.required {
        before(k + " required="@, l + " required="@, required_text(b.required));
        before(k, l, " required="@);
        if a.rank == b.rank {
            before(p + " rank="@, q + " rank="@, rank_text(b.rank));
            before(p, q, " rank="@);
            if a.pattern == b.pattern {
                before(r + " pattern="@, s + " pattern="@, b.pattern);
                before(r, s, " pattern="@);
                behind("tensor role="@, a.role, b.role);
            } else {
                behind(r + " pattern="@, a.pattern, b.pattern);
            }
        } else {
            behind(p + " rank="@, rank_text(a.rank), rank_text(b.rank));
            ranks_tell_apart(a.rank, b.rank);
        }
    } else {
        behind(k + " required="@, required_text(a.required), required_text(b.required));
        answers_tell_apart(a.required, b.required);
    }
}

// ---------------------------------------------------------------------------
// One fusion
// ---------------------------------------------------------------------------

/// A contract with another fusion at one place.
pub open spec fn with_fusion(contract: ContractModel, at: int, fusion: FusionModel) -> ContractModel {
    with_tensor(
        contract,
        at,
        TensorModel { fusion: Some(fusion), ..contract.tensors[at] },
    )
}

proof fn another_fusion_is_another_line(tensor: TensorModel, fusion: FusionModel)
    requires
        fusion_text(Some(fusion)) != fusion_text(tensor.fusion),
    ensures
        tensor_text(TensorModel { fusion: Some(fusion), ..tensor }) != tensor_text(tensor),
{
    let other = TensorModel { fusion: Some(fusion), ..tensor };
    if tensor_text(other) == tensor_text(tensor) {
        assert(tensor_head(other) == tensor_head(tensor));
        let head = tensor_head(tensor) + dtypes_text(tensor.dtypes) + permute_text(tensor.permute);
        between(head, fusion_text(Some(fusion)), fusion_text(tensor.fusion), "\n"@);
    }
}

proof fn other_parts_stay(parts: Seq<PartModel>, k: int, share: u64, upto: int)
    requires
        0 <= k < parts.len(),
        0 <= upto <= parts.len(),
        share != parts[k].share,
    ensures
        ({
            let other = parts.update(k, PartModel { share, ..parts[k] });
            &&& upto <= k ==> parts_text(other, upto) == parts_text(parts, upto)
            &&& upto > k ==> parts_text(other, upto) != parts_text(parts, upto)
        }),
    decreases upto,
{
    if upto > 0 {
        let other = parts.update(k, PartModel { share, ..parts[k] });
        other_parts_stay(parts, k, share, upto - 1);
        let here = other[upto - 1];
        let head = parts_text(parts, upto - 1) + here.role + ":"@;
        if upto > k && parts_text(other, upto) == parts_text(parts, upto) {
            if upto - 1 == k {
                between(head, decimal(share as nat), decimal(parts[k].share as nat), ","@);
                numbers_tell_apart(share as nat, parts[k].share as nat);
            } else {
                assert(here == parts[upto - 1]);
                let number = decimal(here.share as nat);
                let (u, v) = (parts_text(other, upto - 1), parts_text(parts, upto - 1));
                before(u + here.role + ":"@ + number, v + here.role + ":"@ + number, ","@);
                before(u + here.role + ":"@, v + here.role + ":"@, number);
                before(u + here.role, v + here.role, ":"@);
                before(u, v, here.role);
            }
        }
    }
}

/// To change one share of one fusion changes the rendering.
pub proof fn another_share_is_another_rendering(
    contract: ContractModel,
    at: int,
    fusion: FusionModel,
    k: int,
    share: u64,
)
    requires
        0 <= at < contract.tensors.len(),
        contract.tensors[at].fusion == Some(fusion),
        0 <= k < fusion.parts.len(),
        share != fusion.parts[k].share,
    ensures
        ({
            let parts = fusion.parts.update(k, PartModel { share, ..fusion.parts[k] });
            canonical_text(with_fusion(contract, at, FusionModel { parts, ..fusion }))
                != canonical_text(contract)
        }),
{
    let parts = fusion.parts.update(k, PartModel { share, ..fusion.parts[k] });
    let other = FusionModel { parts, ..fusion };
    let n = fusion.parts.len() as int;
    other_parts_stay(fusion.parts, k, share, n);
    let head = " fusion=groups:"@ + decimal(fusion.groups as nat) + ","@;
    if fusion_text(Some(other)) == fusion_text(Some(fusion)) {
        behind(head, parts_text(parts, n), parts_text(fusion.parts, n));
    }
    another_fusion_is_another_line(contract.tensors[at], other);
    another_line_is_another_rendering(
        contract,
        at,
        TensorModel { fusion: Some(other), ..contract.tensors[at] },
    );
}

/// To change the number of groups of one fusion changes the rendering.
pub proof fn another_grouping_is_another_rendering(
    contract: ContractModel,
    at: int,
    fusion: FusionModel,
    other: FusionModel,
)
    requires
        0 <= at < contract.tensors.len(),
        contract.tensors[at].fusion == Some(fusion),
        other == (FusionModel { groups: other.groups, ..fusion }),
        other.groups != fusion.groups,
    ensures
        canonical_text(with_fusion(contract, at, other)) != canonical_text(contract),
{
    let parts = parts_text(fusion.parts, fusion.parts.len() as int);
    let (x, y) = (decimal(other.groups as nat), decimal(fusion.groups as nat));
    if fusion_text(Some(other)) == fusion_text(Some(fusion)) {
        before(" fusion=groups:"@ + x + ","@, " fusion=groups:"@ + y + ","@, parts);
        between(" fusion=groups:"@, x, y, ","@);
        numbers_tell_apart(other.groups as nat, fusion.groups as nat);
    }
    another_fusion_is_another_line(contract.tensors[at], other);
    another_line_is_another_rendering(
        contract,
        at,
        TensorModel { fusion: Some(other), ..contract.tensors[at] },
    );
}

} // verus!
