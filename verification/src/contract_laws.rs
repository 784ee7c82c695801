//! What a contract says of a tensor, and which documents are contracts.

use crate::contract::{
    contract_name, first_bad_member, first_set_refusal, first_tensor_refusal, governing,
    governing_from, matching, raw_dim, tensor_refusal, usable_dtype, usable_fusion, usable_permute,
    set_named, set_named_is_first, validated, ContractModel, RawContract, RawDim, RawFusion,
    RawPermute, RawSet, RawTensor, Refusal, SetModel, TensorModel,
};
use crate::fusion::{dim_of, slash_is, Dim};
use crate::pattern::{captured, hole_count, is_pattern};
use crate::text::{
    bytes_less, bytes_less_irreflexive, decimal, decimal_round_trip, is_digit, unsigned,
};
use vstd::prelude::*;
use vstd::utf8::encode_utf8;

verus! {

/// Whether a declaration is for tensors of that name.
pub open spec fn is_for(tensor: TensorModel, name: Seq<char>) -> bool {
    captured(tensor.pattern, name) is Some
}

/// A tensor is governed by the first declaration that is for its name, whatever
/// comes behind it, and by none exactly if none is for its name.
pub proof fn the_first_declaration_for_a_name_governs(
    tensors: Seq<TensorModel>,
    name: Seq<char>,
    at: int,
)
    requires
        0 <= at < tensors.len(),
    ensures
        governing(tensors, name) == at <==> is_for(tensors[at], name) && forall|i: int|
            0 <= i < at ==> !is_for(#[trigger] tensors[i], name),
        governing(tensors, name) == tensors.len() <==> forall|i: int|
            0 <= i < tensors.len() ==> !is_for(#[trigger] tensors[i], name),
{
    governing_is_first(tensors, name, 0);
    let found = governing(tensors, name);
    if found < tensors.len() {
        assert(is_for(tensors[found], name));
    }
    if is_for(tensors[at], name) && forall|i: int|
        0 <= i < at ==> !is_for(#[trigger] tensors[i], name) {
        assert(!(at < found));
    }
}

proof fn governing_is_first(tensors: Seq<TensorModel>, name: Seq<char>, from: int)
    requires
        0 <= from <= tensors.len(),
    ensures
        ({
            let found = governing_from(tensors, name, from);
            &&& from <= found <= tensors.len()
            &&& found < tensors.len() ==> is_for(tensors[found], name)
            &&& forall|i: int| from <= i < found ==> !is_for(#[trigger] tensors[i], name)
        }),
    decreases tensors.len() - from,
{
    if from < tensors.len() && !is_for(tensors[from], name) {
        governing_is_first(tensors, name, from + 1);
    }
}

/// Whether a set has a pattern for the name.
pub open spec fn belongs(set: SetModel, name: Seq<char>) -> bool {
    exists|m: int| 0 <= m < set.members.len() && captured(#[trigger] set.members[m], name) is Some
}

/// The members of a set are those of the names that a pattern of the set is for,
/// and they stand in the order of the names. A set that is not declared has none.
pub proof fn set_members_are_the_names_it_is_for(
    contract: ContractModel,
    set: Seq<char>,
    names: Seq<Seq<char>>,
) -> (picked: Seq<int>)
    requires
        contract.wf(),
    ensures
        picked.len() == contract.members_of(set, names).len(),
        forall|k: int|
            0 <= k < picked.len() ==> 0 <= #[trigger] picked[k] < names.len()
                && contract.members_of(set, names)[k] == names[picked[k]],
        forall|j: int, k: int|
            0 <= j < k < picked.len() ==> #[trigger] picked[j] < #[trigger] picked[k],
        forall|i: int|
            0 <= i < names.len() ==> (#[trigger] picked.contains(i) <==> exists|s: int|
                0 <= s < contract.sets.len() && (#[trigger] contract.sets[s]).name == set
                    && belongs(contract.sets[s], names[i])),
{
    let sets = contract.sets;
    set_named_is_first(sets, set, 0);
    let at = set_named(sets, set, 0);
    assert forall|s: int, t: int| 0 <= s < t < sets.len() implies (#[trigger] sets[s]).name != (
    #[trigger] sets[t]).name by {
        let spelled = sets.map_values(|one: SetModel| one.name);
        assert(spelled[s] == sets[s].name && spelled[t] == sets[t].name);
        assert(bytes_less(encode_utf8(spelled[s]), encode_utf8(spelled[t])));
        bytes_less_irreflexive(encode_utf8(spelled[s]));
    }
    if at >= sets.len() {
        Seq::empty()
    } else {
        let picked = matching_picks(sets[at].members, names, names.len() as int);
        assert forall|i: int| 0 <= i < names.len() implies (#[trigger] picked.contains(i)
            <==> exists|s: int|
            0 <= s < sets.len() && (#[trigger] sets[s]).name == set && belongs(
                sets[s],
                names[i],
            )) by {
            if belongs(sets[at], names[i]) {
                assert(sets[at].name == set);
            }
            if exists|s: int|
                0 <= s < sets.len() && (#[trigger] sets[s]).name == set && belongs(
                    sets[s],
                    names[i],
                ) {
                let s = choose|s: int|
                    0 <= s < sets.len() && (#[trigger] sets[s]).name == set && belongs(
                        sets[s],
                        names[i],
                    );
                if s < at {
                    assert(sets[s].name != sets[at].name);
                }
                if at < s {
                    assert(sets[at].name != sets[s].name);
                }
            }
        }
        picked
    }
}

proof fn matching_picks(patterns: Seq<Seq<char>>, names: Seq<Seq<char>>, upto: int) -> (picked: Seq<
    int,
>)
    requires
        0 <= upto <= names.len(),
    ensures
        picked.len() == matching(patterns, names, upto).len(),
        forall|k: int|
            0 <= k < picked.len() ==> 0 <= #[trigger] picked[k] < upto && matching(
                patterns,
                names,
                upto,
            )[k] == names[picked[k]],
        forall|j: int, k: int|
            0 <= j < k < picked.len() ==> #[trigger] picked[j] < #[trigger] picked[k],
        forall|i: int|
            0 <= i < upto ==> (#[trigger] picked.contains(i) <==> exists|m: int|
                0 <= m < patterns.len() && captured(#[trigger] patterns[m], names[i]) is Some),
    decreases upto,
{
    if upto <= 0 {
        Seq::empty()
    } else {
        let before = matching_picks(patterns, names, upto - 1);
        let yes = exists|m: int|
            0 <= m < patterns.len() && captured(#[trigger] patterns[m], names[upto - 1]) is Some;
        if yes {
            let picked = before.push(upto - 1);
            assert(picked[before.len() as int] == upto - 1);
            assert forall|i: int| 0 <= i < upto implies (#[trigger] picked.contains(i)
                <==> exists|m: int|
                0 <= m < patterns.len() && captured(#[trigger] patterns[m], names[i])
                    is Some) by {
                if i < upto - 1 {
                    if before.contains(i) {
                        let k = choose|k: int| 0 <= k < before.len() && before[k] == i;
                        assert(picked[k] == i);
                    }
                    if picked.contains(i) {
                        let k = choose|k: int| 0 <= k < picked.len() && picked[k] == i;
                        assert(before[k] == i);
                    }
                }
            }
            picked
        } else {
            assert forall|i: int| 0 <= i < upto implies (#[trigger] before.contains(i)
                <==> exists|m: int|
                0 <= m < patterns.len() && captured(#[trigger] patterns[m], names[i])
                    is Some) by {
                if i == upto - 1 && before.contains(i) {
                    let k = choose|k: int| 0 <= k < before.len() && before[k] == i;
                    assert(before[k] < upto - 1);
                }
            }
            before
        }
    }
}

/// Whether a fusion cuts a tensor in two pieces or more, each of some rows, and
/// tells its pieces apart.
pub open spec fn cuts_apart(fusion: RawFusion) -> bool {
    let parts = fusion.parts@;
    &&& fusion.axis == 0
    &&& fusion.groups * parts.len() >= 2
    &&& forall|i: int| 0 <= i < parts.len() ==> (#[trigger] parts[i]).share >= 1
    &&& forall|i: int, j: int|
        0 <= i < parts.len() && 0 <= j < parts.len() && i != j ==> (#[trigger] parts[i]).role@ != (
        #[trigger] parts[j]).role@
    &&& parts.len() >= 2 ==> forall|i: int|
        0 <= i < parts.len() ==> (#[trigger] parts[i]).role@ != Seq::<char>::empty()
}

/// Whether a permute moves something: each axis goes to one place, and some axis
/// to another place than its own.
pub open spec fn moves_axes(permute: RawPermute) -> bool {
    let view = permute.view@;
    let axes = permute.axes@;
    &&& axes.len() == view.len()
    &&& forall|i: int| 0 <= i < axes.len() ==> 0 <= #[trigger] axes[i] < axes.len()
    &&& forall|i: int, j: int|
        0 <= i < axes.len() && 0 <= j < axes.len() && i != j ==> #[trigger] axes[i]
            != #[trigger] axes[j]
    &&& exists|i: int| 0 <= i < axes.len() && #[trigger] axes[i] != i
    &&& forall|i: int|
        0 <= i < view.len() ==> match #[trigger] view[i] {
            RawDim::Number(extent) => extent >= 1,
            RawDim::Text(text) => dim_of(text@) is Some,
            RawDim::Other => false,
        }
}

/// Whether a declaration can stand behind those before it.
pub open spec fn can_stand(raws: Seq<RawTensor>, i: int) -> bool {
    let raw = raws[i];
    &&& is_pattern(raw.pattern@)
    &&& is_pattern(raw.role@)
    &&& hole_count(raw.role@) == hole_count(raw.pattern@)
    &&& forall|j: int|
        0 <= j < i ==> (#[trigger] raws[j]).pattern@ != raw.pattern@ && raws[j].role@ != raw.role@
    &&& raw.fusion matches Some(fusion) ==> cuts_apart(fusion) && raw.permute is None
    &&& raw.permute matches Some(permute) ==> moves_axes(permute)
}

proof fn a_fusion_is_usable(fusion: RawFusion)
    ensures
        usable_fusion(fusion) <==> cuts_apart(fusion),
{
    let parts = fusion.parts@;
    let groups = fusion.groups;
    let count = parts.len();
    assert(groups * count >= 2 <==> groups > 0 && count > 0 && (groups > 1 || count > 1))
        by (nonlinear_arith)
        requires
            groups >= 0,
            count >= 0,
    ;
    if cuts_apart(fusion) {
        assert forall|i: int| 0 <= i < parts.len() && (#[trigger] parts[i]).role@.len()
            == 0 implies parts.len() == 1 by {
            assert(parts[i].role@ =~= Seq::<char>::empty());
        }
    }
}

proof fn a_permute_is_usable(permute: RawPermute)
    ensures
        usable_permute(permute) <==> moves_axes(permute),
{
    let view = permute.view@;
    let axes = permute.axes@;
    if moves_axes(permute) {
        let moved = choose|i: int| 0 <= i < axes.len() && #[trigger] axes[i] != i;
        assert(axes[moved] < axes.len());
        assert(view.len() >= 2);
        assert forall|i: int| 0 <= i < view.len() implies raw_dim(#[trigger] view[i]) is Some by {}
    }
    if usable_permute(permute) {
        assert forall|i: int| 0 <= i < view.len() implies match #[trigger] view[i] {
            RawDim::Number(extent) => extent >= 1,
            RawDim::Text(text) => dim_of(text@) is Some,
            RawDim::Other => false,
        } by {
            assert(raw_dim(view[i]) is Some);
        }
    }
}

proof fn a_declaration_can_stand(raws: Seq<RawTensor>, i: int)
    ensures
        tensor_refusal(raws, i) is None <==> can_stand(raws, i),
{
    if raws[i].fusion is Some {
        a_fusion_is_usable(raws[i].fusion->Some_0);
    }
    if raws[i].permute is Some {
        a_permute_is_usable(raws[i].permute->Some_0);
    }
}

proof fn tensor_refusals(raws: Seq<RawTensor>, upto: int)
    requires
        0 <= upto <= raws.len(),
    ensures
        first_tensor_refusal(raws, upto) is None <==> forall|i: int|
            0 <= i < upto ==> #[trigger] can_stand(raws, i),
        first_tensor_refusal(raws, upto) is Some ==> exists|i: int|
            0 <= i < upto && !#[trigger] can_stand(raws, i) && first_tensor_refusal(raws, upto)
                == tensor_refusal(raws, i) && forall|j: int|
                0 <= j < i ==> #[trigger] can_stand(raws, j),
    decreases upto,
{
    if upto > 0 {
        tensor_refusals(raws, upto - 1);
        a_declaration_can_stand(raws, upto - 1);
        if first_tensor_refusal(raws, upto - 1) is None {
            if !can_stand(raws, upto - 1) {
                assert(first_tensor_refusal(raws, upto) == tensor_refusal(raws, upto - 1));
            }
        } else {
            let i = choose|i: int|
                0 <= i < upto - 1 && !#[trigger] can_stand(raws, i) && first_tensor_refusal(
                    raws,
                    upto - 1,
                ) == tensor_refusal(raws, i) && forall|j: int|
                    0 <= j < i ==> #[trigger] can_stand(raws, j);
            assert(!can_stand(raws, i));
        }
    }
}

/// Whether a set has members, all of them patterns.
pub open spec fn has_members(set: RawSet) -> bool {
    set.members@.len() > 0 && forall|m: int|
        0 <= m < set.members@.len() ==> is_pattern((#[trigger] set.members@[m])@)
}

proof fn bad_members(members: Seq<String>, upto: int)
    requires
        0 <= upto <= members.len(),
    ensures
        first_bad_member(members, upto) is None <==> forall|m: int|
            0 <= m < upto ==> is_pattern((#[trigger] members[m])@),
    decreases upto,
{
    if upto > 0 {
        bad_members(members, upto - 1);
    }
}

proof fn set_refusals(sets: Seq<RawSet>, upto: int)
    requires
        0 <= upto <= sets.len(),
    ensures
        first_set_refusal(sets, upto) is None <==> forall|s: int|
            0 <= s < upto ==> has_members(#[trigger] sets[s]),
    decreases upto,
{
    if upto > 0 {
        set_refusals(sets, upto - 1);
        let last = sets[upto - 1];
        bad_members(last.members@, last.members@.len() as int);
    }
}

/// Whether the identity of a document is a usable name with a version from one
/// up, or is left out as a whole.
pub open spec fn is_identified(raw: RawContract) -> bool {
    match (raw.name, raw.version) {
        (Some(name), Some(version)) => contract_name(name@) && version >= 1,
        (None, None) => true,
        _ => false,
    }
}

/// A document is a contract exactly if it has the format tag, a whole identity or
/// none, a usable element type or none, at least one tensor declaration, all
/// declarations can stand, and every set has patterns for members.
pub proof fn exactly_sound_documents_are_contracts(raw: RawContract)
    ensures
        validated(raw) is Ok <==> {
            &&& raw.format@ == "tensorfs-contract-v1"@
            &&& is_identified(raw)
            &&& raw.dtype matches Some(dtype) ==> usable_dtype(dtype@)
            &&& raw.tensors@.len() > 0
            &&& forall|i: int| 0 <= i < raw.tensors@.len() ==> #[trigger] can_stand(raw.tensors@, i)
            &&& forall|s: int| 0 <= s < raw.sets@.len() ==> has_members(#[trigger] raw.sets@[s])
        },
{
    tensor_refusals(raw.tensors@, raw.tensors@.len() as int);
    set_refusals(raw.sets@, raw.sets@.len() as int);
}

/// Of several declarations that cannot stand, the refusal is about the first one.
pub proof fn the_first_wrong_declaration_is_refused(raw: RawContract, i: int)
    requires
        raw.format@ == "tensorfs-contract-v1"@,
        is_identified(raw),
        raw.dtype matches Some(dtype) ==> usable_dtype(dtype@),
        0 <= i < raw.tensors@.len(),
        !can_stand(raw.tensors@, i),
        forall|j: int| 0 <= j < i ==> #[trigger] can_stand(raw.tensors@, j),
    ensures
        ({
            let one = raw.tensors@[i];
            match validated(raw) {
                Err(Refusal::Pattern(text)) => !is_pattern(text) && (text == one.pattern@ || text
                    == one.role@),
                Err(Refusal::RoleHoles(text)) => text == one.role@ && hole_count(one.role@)
                    != hole_count(one.pattern@),
                Err(Refusal::Duplicate(text)) => exists|j: int|
                    0 <= j < i && ((#[trigger] raw.tensors@[j]).pattern@ == text && text
                        == one.pattern@ || raw.tensors@[j].role@ == text && text == one.role@),
                Err(Refusal::Fusion(text)) => text == one.pattern@ && one.fusion is Some
                    && !cuts_apart(one.fusion->Some_0),
                Err(Refusal::Permute(text)) => text == one.pattern@ && one.permute is Some && (
                one.fusion is Some || !moves_axes(one.permute->Some_0)),
                _ => false,
            }
        }),
{
    let raws = raw.tensors@;
    tensor_refusals(raws, raws.len() as int);
    a_declaration_can_stand(raws, i);
    let first = choose|k: int|
        0 <= k < raws.len() && !#[trigger] can_stand(raws, k) && first_tensor_refusal(
            raws,
            raws.len() as int,
        ) == tensor_refusal(raws, k) && forall|j: int| 0 <= j < k ==> #[trigger] can_stand(raws, j);
    assert(!can_stand(raws, first));
    if first < i {
        assert(can_stand(raws, first));
    }
    if i < first {
        assert(can_stand(raws, i));
    }
    if raws[i].fusion is Some {
        a_fusion_is_usable(raws[i].fusion->Some_0);
    }
    if raws[i].permute is Some {
        a_permute_is_usable(raws[i].permute->Some_0);
    }
}

/// A contract declares what its document declares, field by field and in the same
/// order.
pub proof fn a_contract_is_as_its_document(raw: RawContract, i: int)
    requires
        validated(raw) is Ok,
        0 <= i < raw.tensors@.len(),
    ensures
        ({
            let contract = validated(raw)->Ok_0;
            let given = raw.tensors@[i];
            let tensor = contract.tensors[i];
            &&& contract.handle is Some <==> raw.name is Some
            &&& contract.handle matches Some(handle) ==> handle.name == raw.name->Some_0@
                && Some(handle.version) == raw.version
            &&& contract.description == raw.description@
            &&& contract.dtype is Some <==> raw.dtype is Some
            &&& raw.dtype matches Some(dtype) ==> contract.dtype == Some(dtype@)
            &&& contract.tensors.len() == raw.tensors@.len()
            &&& tensor.role == given.role@
            &&& tensor.pattern == given.pattern@
            &&& tensor.rank == given.rank
            &&& tensor.required == given.required
            &&& tensor.dtypes.len() == given.dtypes@.len()
            &&& forall|d: int|
                0 <= d < given.dtypes@.len() ==> #[trigger] tensor.dtypes[d] == given.dtypes@[d]@
            &&& tensor.fusion is Some <==> given.fusion is Some
            &&& given.fusion matches Some(fusion) ==> {
                &&& tensor.fusion->Some_0.groups == fusion.groups
                &&& tensor.fusion->Some_0.parts.len() == fusion.parts@.len()
                &&& forall|p: int|
                    0 <= p < fusion.parts@.len() ==> (
                    #[trigger] tensor.fusion->Some_0.parts[p]).role == fusion.parts@[p].role@
                        && tensor.fusion->Some_0.parts[p].share == fusion.parts@[p].share
            }
            &&& tensor.permute is Some <==> given.permute is Some
            &&& given.permute matches Some(permute) ==> {
                &&& tensor.permute->Some_0.axes == permute.axes@
                &&& tensor.permute->Some_0.view.len() == permute.view@.len()
                &&& forall|v: int|
                    0 <= v < permute.view@.len() ==> match permute.view@[v] {
                        RawDim::Number(extent) => #[trigger] tensor.permute->Some_0.view[v]
                            == Dim::Literal(extent),
                        RawDim::Text(text) => dim_of(text@) == Some(
                            tensor.permute->Some_0.view[v],
                        ),
                        RawDim::Other => false,
                    }
            }
            &&& contract.sets.len() == raw.sets@.len()
            &&& forall|s: int|
                0 <= s < raw.sets@.len() ==> {
                    &&& (#[trigger] contract.sets[s]).name == raw.sets@[s].name@
                    &&& contract.sets[s].members.len() == raw.sets@[s].members@.len()
                    &&& forall|m: int|
                        0 <= m < raw.sets@[s].members@.len() ==> #[trigger] contract.sets[s].members[m]
                            == raw.sets@[s].members@[m]@
                }
        }),
{
    let raws = raw.tensors@;
    tensor_refusals(raws, raws.len() as int);
    assert(can_stand(raws, i));
}

/// A dimension is what its text spells: `auto` is left open, a number is itself,
/// `shape[k]` is an axis and `shape[k]/n` the part of it that `n` leaves.
pub proof fn a_dimension_is_as_it_is_spelled(axis: usize, number: u64)
    requires
        number > 0,
    ensures
        dim_of("auto"@) == Some(Dim::Auto),
        dim_of(decimal(number as nat)) == Some(Dim::Literal(number)),
        dim_of("shape["@ + decimal(axis as nat) + seq![']']) == Some(Dim::Axis { axis, divisor: 1 }),
        dim_of("shape["@ + decimal(axis as nat) + seq![']', '/'] + decimal(number as nat)) == Some(
            Dim::Axis { axis, divisor: number },
        ),
{
    reveal_strlit("auto");
    reveal_strlit("shape[");
    let spelled = decimal(number as nat);
    let index = decimal(axis as nat);
    decimal_round_trip(number as nat);
    decimal_round_trip(axis as nat);
    assert(is_digit(spelled[0]));
    assert("auto"@[0] == 'a');
    let head = "shape["@ + index + seq![']'];
    let divided = "shape["@ + index + seq![']', '/'] + spelled;
    let end = head.len() as int;
    assert(head[0] == 's' && divided[0] == 's');
    assert(!is_digit('s'));
    assert forall|i: int| 0 <= i < end implies head[i] != '/' && divided[i] == head[i] by {
        if 6 <= i < 6 + index.len() {
            assert(is_digit(index[i - 6]));
            assert(head[i] == index[i - 6]);
        }
    }
    slash_is(head, end);
    slash_is(divided, end);
    assert(head.take(end) =~= head);
    assert(divided.take(end) =~= head);
    assert(divided.skip(end + 1) =~= spelled);
    assert(head.take(6) =~= "shape["@);
    assert(head.subrange(6, end - 1) =~= index);
    assert(unsigned(head, u64::MAX as nat) is None);
    assert(unsigned(divided, u64::MAX as nat) is None);
}

} // verus!
