//! What a verdict says of an artifact follows from what its members are found
//! to be, one by one.

use crate::contract::{governing, governing_from, ContractModel, TensorModel};
use crate::pattern::captured;
use crate::sort::{keys_have_an_order, stands_before};
use crate::text::{bytes_less, split_at};
use crate::verdict::{
    by_path, claimed, claims, file_outcome, first_missing, first_refusal, lists_fp8, met,
    names_scales, path_keys, recipe_of,
    rising_paths, rising_texts, settled, tally_upto, verdict_of, with_text_is_rising, with_texts,
    FileModel, HeaderModel, MismatchKind, MismatchModel, Tally, VerdictKind,
};
use vstd::prelude::*;
use vstd::utf8::encode_utf8;

verus! {

/// A disagreement that no conversion closes.
pub open spec fn is_structural(kind: MismatchKind) -> bool {
    kind is Rank || kind is Fusion || kind is Permute || kind is Required
}

/// A member that the contract refuses, with its mismatch.
pub open spec fn refused_with(
    contract: ContractModel,
    file: FileModel,
    mismatch: MismatchModel,
) -> bool {
    file_outcome(contract, file.tensors) == Err::<nat, MismatchModel>(mismatch)
}

/// A member that is refused for its structure.
pub open spec fn is_broken(contract: ContractModel, file: FileModel) -> bool {
    file_outcome(contract, file.tensors) matches Err(mismatch) && is_structural(mismatch.kind)
}

/// A member that is refused for an element type.
pub open spec fn is_cast(contract: ContractModel, file: FileModel) -> bool {
    file_outcome(contract, file.tensors) matches Err(mismatch) && mismatch.kind is Dtype
}

/// A member of which the contract claims no tensor.
pub open spec fn is_unexplained(contract: ContractModel, file: FileModel) -> bool {
    file_outcome(contract, file.tensors) matches Err(mismatch) && mismatch.kind is NothingExplained
}

/// A member that the contract describes.
pub open spec fn is_explained(contract: ContractModel, file: FileModel) -> bool {
    file_outcome(contract, file.tensors) is Ok
}

/// Whether one path stands before another.
pub open spec fn path_before(a: FileModel, b: FileModel) -> bool {
    bytes_less(encode_utf8(a.path), encode_utf8(b.path))
}

proof fn tally_holds(contract: ContractModel, files: Seq<FileModel>, upto: int)
    requires
        0 <= upto <= files.len(),
    ensures
        ({
            let tally = tally_upto(contract, files, upto);
            &&& match tally.structural {
                None => forall|i: int|
                    0 <= i < upto ==> !is_broken(contract, #[trigger] files[i]),
                Some((mismatch, path)) => exists|i: int|
                    0 <= i < upto && is_broken(contract, #[trigger] files[i]) && refused_with(
                        contract,
                        files[i],
                        mismatch,
                    ) && files[i].path == path && (forall|j: int|
                        0 <= j < i ==> !is_broken(contract, #[trigger] files[j])),
            }
            &&& match tally.dtype_first {
                None => forall|i: int| 0 <= i < upto ==> !is_cast(contract, #[trigger] files[i]),
                Some((mismatch, path)) => exists|i: int|
                    0 <= i < upto && is_cast(contract, #[trigger] files[i]) && refused_with(
                        contract,
                        files[i],
                        mismatch,
                    ) && files[i].path == path && (forall|j: int|
                        0 <= j < i ==> !is_cast(contract, #[trigger] files[j])),
            }
            &&& tally.explained > 0 <==> exists|i: int|
                0 <= i < upto && is_explained(contract, #[trigger] files[i])
        }),
    decreases upto,
{
    if upto > 0 {
        tally_holds(contract, files, upto - 1);
        let before = tally_upto(contract, files, upto - 1);
        let here = files[upto - 1];
        if let Some((mismatch, path)) = before.structural {
            let i = choose|i: int|
                0 <= i < upto - 1 && is_broken(contract, #[trigger] files[i]) && refused_with(
                    contract,
                    files[i],
                    mismatch,
                ) && files[i].path == path && (forall|j: int|
                    0 <= j < i ==> !is_broken(contract, #[trigger] files[j]));
            assert(is_broken(contract, files[i]));
        } else if is_broken(contract, here) {
            assert(files[upto - 1] == here);
        }
        if let Some((mismatch, path)) = before.dtype_first {
            let i = choose|i: int|
                0 <= i < upto - 1 && is_cast(contract, #[trigger] files[i]) && refused_with(
                    contract,
                    files[i],
                    mismatch,
                ) && files[i].path == path && (forall|j: int|
                    0 <= j < i ==> !is_cast(contract, #[trigger] files[j]));
            assert(is_cast(contract, files[i]));
        } else if is_cast(contract, here) {
            assert(files[upto - 1] == here);
        }
        if before.explained > 0 {
            let i = choose|i: int|
                0 <= i < upto - 1 && is_explained(contract, #[trigger] files[i]);
            assert(is_explained(contract, files[i]));
        }
        if is_explained(contract, here) {
            assert(is_explained(contract, files[upto - 1]));
        }
    }
}

proof fn lists_hold(contract: ContractModel, files: Seq<FileModel>, upto: int)
    requires
        0 <= upto <= files.len(),
    ensures
        ({
            let tally = tally_upto(contract, files, upto);
            &&& rising_texts(tally.from)
            &&& rising_texts(tally.to)
            &&& forall|path: Seq<char>| #[trigger]
                tally.unexplained.contains(path) <==> exists|i: int|
                    0 <= i < upto && is_unexplained(contract, #[trigger] files[i])
                        && files[i].path == path
            &&& forall|path: Seq<char>| #[trigger]
                tally.cast_files.contains(path) <==> exists|i: int|
                    0 <= i < upto && is_cast(contract, #[trigger] files[i]) && files[i].path
                        == path
            &&& forall|text: Seq<char>| #[trigger]
                tally.from.contains(text) <==> exists|i: int|
                    0 <= i < upto && is_cast(contract, #[trigger] files[i]) && observed(
                        contract,
                        files[i],
                    ) == text
            &&& forall|text: Seq<char>| #[trigger]
                tally.to.contains(text) <==> exists|i: int|
                    0 <= i < upto && is_cast(contract, #[trigger] files[i]) && wanted(
                        contract,
                        files[i],
                    ).contains(text)
        }),
    decreases upto,
{
    if upto > 0 {
        lists_hold(contract, files, upto - 1);
        let before = tally_upto(contract, files, upto - 1);
        let after = tally_upto(contract, files, upto);
        let here = files[upto - 1];
        assert forall|path: Seq<char>| #[trigger]
            after.unexplained.contains(path) <==> exists|i: int|
                0 <= i < upto && is_unexplained(contract, #[trigger] files[i]) && files[i].path
                    == path by {
            pushed(before.unexplained, here.path, path);
            if before.unexplained.contains(path) {
                let i = choose|i: int|
                    0 <= i < upto - 1 && is_unexplained(contract, #[trigger] files[i])
                        && files[i].path == path;
                assert(is_unexplained(contract, files[i]));
            }
            if is_unexplained(contract, here) {
                assert(is_unexplained(contract, files[upto - 1]));
            }
        }
        assert forall|path: Seq<char>| #[trigger]
            after.cast_files.contains(path) <==> exists|i: int|
                0 <= i < upto && is_cast(contract, #[trigger] files[i]) && files[i].path
                    == path by {
            pushed(before.cast_files, here.path, path);
            if before.cast_files.contains(path) {
                let i = choose|i: int|
                    0 <= i < upto - 1 && is_cast(contract, #[trigger] files[i]) && files[i].path
                        == path;
                assert(is_cast(contract, files[i]));
            }
            if is_cast(contract, here) {
                assert(is_cast(contract, files[upto - 1]));
            }
        }
        if is_cast(contract, here) {
            with_text_is_rising(before.from, observed(contract, here));
            let more = wanted(contract, here);
            with_texts_hold(before.to, more, more.len() as int);
            assert(more.take(more.len() as int) =~= more);
        }
        assert forall|text: Seq<char>| #[trigger]
            after.from.contains(text) <==> exists|i: int|
                0 <= i < upto && is_cast(contract, #[trigger] files[i]) && observed(
                    contract,
                    files[i],
                ) == text by {
            if before.from.contains(text) {
                let i = choose|i: int|
                    0 <= i < upto - 1 && is_cast(contract, #[trigger] files[i]) && observed(
                        contract,
                        files[i],
                    ) == text;
                assert(is_cast(contract, files[i]));
            }
            if is_cast(contract, here) {
                assert(is_cast(contract, files[upto - 1]));
            }
        }
        assert forall|text: Seq<char>| #[trigger]
            after.to.contains(text) <==> exists|i: int|
                0 <= i < upto && is_cast(contract, #[trigger] files[i]) && wanted(
                    contract,
                    files[i],
                ).contains(text) by {
            if before.to.contains(text) {
                let i = choose|i: int|
                    0 <= i < upto - 1 && is_cast(contract, #[trigger] files[i]) && wanted(
                        contract,
                        files[i],
                    ).contains(text);
                assert(is_cast(contract, files[i]));
            }
            if is_cast(contract, here) {
                assert(is_cast(contract, files[upto - 1]));
            }
        }
    }
}

proof fn pushed(list: Seq<Seq<char>>, one: Seq<char>, path: Seq<char>)
    ensures
        list.push(one).contains(path) <==> list.contains(path) || path == one,
{
    let more = list.push(one);
    if list.contains(path) {
        let i = choose|i: int| 0 <= i < list.len() && list[i] == path;
        assert(more[i] == path);
    }
    assert(more[list.len() as int] == one);
    if more.contains(path) {
        let i = choose|i: int| 0 <= i < more.len() && more[i] == path;
        if i < list.len() {
            assert(list[i] == path);
        }
    }
}

proof fn with_texts_hold(list: Seq<Seq<char>>, more: Seq<Seq<char>>, upto: int)
    requires
        rising_texts(list),
        0 <= upto <= more.len(),
    ensures
        rising_texts(with_texts(list, more, upto)),
        forall|text: Seq<char>| #[trigger]
            with_texts(list, more, upto).contains(text) <==> list.contains(text) || more.take(
                upto,
            ).contains(text),
    decreases upto,
{
    if upto > 0 {
        with_texts_hold(list, more, upto - 1);
        with_text_is_rising(with_texts(list, more, upto - 1), more[upto - 1]);
        assert(more.take(upto) =~= more.take(upto - 1).push(more[upto - 1]));
        assert forall|text: Seq<char>| #[trigger]
            with_texts(list, more, upto).contains(text) <==> list.contains(text) || more.take(
                upto,
            ).contains(text) by {
            pushed(more.take(upto - 1), more[upto - 1], text);
            assert(with_texts(list, more, upto - 1).contains(text) <==> list.contains(text)
                || more.take(upto - 1).contains(text));
        }
    }
}

/// The element type that a refused member has.
pub open spec fn observed(contract: ContractModel, file: FileModel) -> Seq<char> {
    file_outcome(contract, file.tensors)->Err_0.observed
}

/// The element types that a refused member should have, one of.
pub open spec fn wanted(contract: ContractModel, file: FileModel) -> Seq<Seq<char>> {
    split_at(file_outcome(contract, file.tensors)->Err_0.declared, '|')
}

/// What stands in path order is what was given.
proof fn sorted_members(files: Seq<FileModel>)
    requires
        files.len() <= usize::MAX,
        path_keys(files).no_duplicates(),
    ensures
        rising_paths(by_path(files)),
        by_path(files).len() == files.len(),
        forall|i: int| 0 <= i < files.len() ==> by_path(files).contains(#[trigger] files[i]),
        forall|i: int| 0 <= i < files.len() ==> files.contains(#[trigger] by_path(files)[i]),
{
    let keys = path_keys(files);
    let order = keys_have_an_order(keys);
    let sorted = by_path(files);
    assert forall|i: int, j: int| 0 <= i < j < sorted.len() implies bytes_less(
        encode_utf8((#[trigger] sorted[i]).path),
        encode_utf8((#[trigger] sorted[j]).path),
    ) by {
        let x = order[i] as int;
        let y = order[j] as int;
        assert(stands_before(keys, x, y));
        assert(keys[x] == encode_utf8(files[x].path) && keys[y] == encode_utf8(files[y].path));
    }
    assert forall|i: int| 0 <= i < files.len() implies sorted.contains(#[trigger] files[i]) by {
        assert(order.contains(i as usize));
        let k = choose|k: int| 0 <= k < order.len() && order[k] == i as usize;
        assert(sorted[k] == files[i]);
    }
    assert forall|i: int| 0 <= i < files.len() implies files.contains(#[trigger] sorted[i]) by {
        assert(sorted[i] == files[order[i] as int]);
    }
}

/// A verdict follows from its members. One that is refused for its structure
/// makes the artifact incompatible, whatever the others are, and the first such
/// in path order is named. Otherwise one that is refused for an element type
/// makes it derivable, and the first such is named. Otherwise it satisfies
/// exactly if a member is described.
pub proof fn a_verdict_follows_from_the_members(contract: ContractModel, files: Seq<FileModel>)
    requires
        files.len() <= usize::MAX,
        path_keys(files).no_duplicates(),
    ensures
        ({
            let verdict = verdict_of(contract, files);
            let broken = exists|i: int|
                0 <= i < files.len() && is_broken(contract, #[trigger] files[i]);
            let cast = exists|i: int| 0 <= i < files.len() && is_cast(contract, #[trigger] files[i]);
            let described = exists|i: int|
                0 <= i < files.len() && is_explained(contract, #[trigger] files[i]);
            &&& verdict.kind == if broken {
                VerdictKind::Incompatible
            } else if cast {
                VerdictKind::Derivable
            } else if described {
                VerdictKind::Satisfies
            } else {
                VerdictKind::Incompatible
            }
            &&& broken ==> exists|i: int|
                0 <= i < files.len() && is_broken(contract, #[trigger] files[i])
                    && verdict.mismatch is Some && refused_with(
                    contract,
                    files[i],
                    verdict.mismatch.unwrap(),
                ) && verdict.file == files[i].path && forall|j: int|
                    0 <= j < files.len() && is_broken(contract, #[trigger] files[j]) ==> j == i
                        || path_before(files[i], files[j])
            &&& !broken && cast ==> exists|i: int|
                0 <= i < files.len() && is_cast(contract, #[trigger] files[i])
                    && verdict.mismatch is Some && refused_with(
                    contract,
                    files[i],
                    verdict.mismatch.unwrap(),
                ) && verdict.file == files[i].path && forall|j: int|
                    0 <= j < files.len() && is_cast(contract, #[trigger] files[j]) ==> j == i
                        || path_before(files[i], files[j])
            &&& !broken && !cast && !described ==> (verdict.mismatch matches Some(mismatch)
                && mismatch.kind is NothingExplained)
            &&& verdict.conversion is Some <==> !broken && cast
        }),
{
    let sorted = by_path(files);
    let n = files.len() as int;
    sorted_members(files);
    tally_holds(contract, sorted, n);
    members_alike(files, sorted);
    let tally = tally_upto(contract, sorted, n);
    if let Some((mismatch, path)) = tally.structural {
        let i = choose|i: int|
            0 <= i < n && is_broken(contract, #[trigger] sorted[i]) && refused_with(
                contract,
                sorted[i],
                mismatch,
            ) && sorted[i].path == path && (forall|j: int|
                0 <= j < i ==> !is_broken(contract, #[trigger] sorted[j]));
        assert(files.contains(sorted[i]));
        let at = choose|at: int| 0 <= at < n && files[at] == sorted[i];
        assert(is_broken(contract, files[at]));
        assert forall|j: int| 0 <= j < n && is_broken(contract, #[trigger] files[j]) implies j == at
            || path_before(files[at], files[j]) by {
            assert(sorted.contains(files[j]));
            let k = choose|k: int| 0 <= k < n && sorted[k] == files[j];
            assert(is_broken(contract, sorted[k]));
            if k == i && j != at {
                assert(path_keys(files)[j] == path_keys(files)[at]);
            }
        }
    } else {
        assert forall|i: int| 0 <= i < n implies !is_broken(contract, #[trigger] files[i]) by {
            assert(sorted.contains(files[i]));
        }
    }
    if let Some((mismatch, path)) = tally.dtype_first {
        let i = choose|i: int|
            0 <= i < n && is_cast(contract, #[trigger] sorted[i]) && refused_with(
                contract,
                sorted[i],
                mismatch,
            ) && sorted[i].path == path && (forall|j: int|
                0 <= j < i ==> !is_cast(contract, #[trigger] sorted[j]));
        assert(files.contains(sorted[i]));
        let at = choose|at: int| 0 <= at < n && files[at] == sorted[i];
        assert(is_cast(contract, files[at]));
        assert forall|j: int| 0 <= j < n && is_cast(contract, #[trigger] files[j]) implies j == at
            || path_before(files[at], files[j]) by {
            assert(sorted.contains(files[j]));
            let k = choose|k: int| 0 <= k < n && sorted[k] == files[j];
            assert(is_cast(contract, sorted[k]));
            if k == i && j != at {
                assert(path_keys(files)[j] == path_keys(files)[at]);
            }
        }
    } else {
        assert forall|i: int| 0 <= i < n implies !is_cast(contract, #[trigger] files[i]) by {
            assert(sorted.contains(files[i]));
        }
    }
    if tally.explained > 0 {
        let i = choose|i: int| 0 <= i < n && is_explained(contract, #[trigger] sorted[i]);
        assert(files.contains(sorted[i]));
        let at = choose|at: int| 0 <= at < n && files[at] == sorted[i];
        assert(is_explained(contract, files[at]));
    } else {
        assert forall|i: int| 0 <= i < n implies !is_explained(contract, #[trigger] files[i]) by {
            assert(sorted.contains(files[i]));
        }
    }
}

proof fn members_alike(files: Seq<FileModel>, sorted: Seq<FileModel>)
    requires
        files.len() == sorted.len(),
        forall|i: int| 0 <= i < files.len() ==> sorted.contains(#[trigger] files[i]),
        forall|i: int| 0 <= i < files.len() ==> files.contains(#[trigger] sorted[i]),
    ensures
        forall|file: FileModel| #[trigger] sorted.contains(file) <==> files.contains(file),
{
    assert forall|file: FileModel| #[trigger] sorted.contains(file) <==> files.contains(file) by {
        if sorted.contains(file) {
            let i = choose|i: int| 0 <= i < sorted.len() && sorted[i] == file;
            assert(files.contains(sorted[i]));
        }
        if files.contains(file) {
            let i = choose|i: int| 0 <= i < files.len() && files[i] == file;
            assert(sorted.contains(files[i]));
        }
    }
}

/// A verdict lists as unexplained exactly the members of which nothing is
/// claimed, and its conversion is for exactly the members that are refused for an
/// element type, from the types they have to the types they should have.
pub proof fn a_verdict_lists_its_members(contract: ContractModel, files: Seq<FileModel>)
    requires
        files.len() <= usize::MAX,
        path_keys(files).no_duplicates(),
    ensures
        ({
            let verdict = verdict_of(contract, files);
            &&& forall|path: Seq<char>| #[trigger]
                verdict.unexplained.contains(path) <==> exists|i: int|
                    0 <= i < files.len() && is_unexplained(contract, #[trigger] files[i])
                        && files[i].path == path
            &&& verdict.conversion matches Some(conversion) ==> {
                &&& forall|path: Seq<char>| #[trigger]
                    conversion.files.contains(path) <==> exists|i: int|
                        0 <= i < files.len() && is_cast(contract, #[trigger] files[i])
                            && files[i].path == path
                &&& forall|text: Seq<char>| #[trigger]
                    conversion.from.contains(text) <==> exists|i: int|
                        0 <= i < files.len() && is_cast(contract, #[trigger] files[i])
                            && observed(contract, files[i]) == text
                &&& forall|text: Seq<char>| #[trigger]
                    conversion.to.contains(text) <==> exists|i: int|
                        0 <= i < files.len() && is_cast(contract, #[trigger] files[i]) && wanted(
                            contract,
                            files[i],
                        ).contains(text)
            }
        }),
{
    let sorted = by_path(files);
    let n = files.len() as int;
    sorted_members(files);
    lists_hold(contract, sorted, n);
    let tally = tally_upto(contract, sorted, n);
    assert forall|path: Seq<char>| #[trigger]
        tally.unexplained.contains(path) <==> exists|i: int|
            0 <= i < n && is_unexplained(contract, #[trigger] files[i]) && files[i].path
                == path by {
        one_in_both(files, sorted, |file: FileModel| is_unexplained(contract, file) && file.path == path);
    }
    assert forall|path: Seq<char>| #[trigger]
        tally.cast_files.contains(path) <==> exists|i: int|
            0 <= i < n && is_cast(contract, #[trigger] files[i]) && files[i].path == path by {
        one_in_both(files, sorted, |file: FileModel| is_cast(contract, file) && file.path == path);
    }
    assert forall|text: Seq<char>| #[trigger]
        tally.from.contains(text) <==> exists|i: int|
            0 <= i < n && is_cast(contract, #[trigger] files[i]) && observed(contract, files[i])
                == text by {
        one_in_both(
            files,
            sorted,
            |file: FileModel| is_cast(contract, file) && observed(contract, file) == text,
        );
    }
    assert forall|text: Seq<char>| #[trigger]
        tally.to.contains(text) <==> exists|i: int|
            0 <= i < n && is_cast(contract, #[trigger] files[i]) && wanted(
                contract,
                files[i],
            ).contains(text) by {
        one_in_both(
            files,
            sorted,
            |file: FileModel| is_cast(contract, file) && wanted(contract, file).contains(text),
        );
    }
}

proof fn one_in_both(files: Seq<FileModel>, sorted: Seq<FileModel>, wanted: spec_fn(FileModel) -> bool)
    requires
        files.len() == sorted.len(),
        forall|i: int| 0 <= i < files.len() ==> sorted.contains(#[trigger] files[i]),
        forall|i: int| 0 <= i < files.len() ==> files.contains(#[trigger] sorted[i]),
    ensures
        (exists|i: int| 0 <= i < sorted.len() && wanted(#[trigger] sorted[i])) <==> (exists|i: int|
            0 <= i < files.len() && wanted(#[trigger] files[i])),
{
    if exists|i: int| 0 <= i < sorted.len() && wanted(#[trigger] sorted[i]) {
        let i = choose|i: int| 0 <= i < sorted.len() && wanted(#[trigger] sorted[i]);
        assert(files.contains(sorted[i]));
        let k = choose|k: int| 0 <= k < files.len() && files[k] == sorted[i];
        assert(wanted(files[k]));
    }
    if exists|i: int| 0 <= i < files.len() && wanted(#[trigger] files[i]) {
        let i = choose|i: int| 0 <= i < files.len() && wanted(#[trigger] files[i]);
        assert(sorted.contains(files[i]));
        let k = choose|k: int| 0 <= k < sorted.len() && sorted[k] == files[i];
        assert(wanted(sorted[k]));
    }
}

// ---------------------------------------------------------------------------
// One file
// ---------------------------------------------------------------------------

/// The declaration that speaks for a name: the first whose pattern reads it.
pub open spec fn speaks_for(contract: ContractModel, name: Seq<char>, d: int) -> bool {
    &&& 0 <= d < contract.tensors.len()
    &&& captured(contract.tensors[d].pattern, name) is Some
    &&& forall|e: int| 0 <= e < d ==> captured((#[trigger] contract.tensors[e]).pattern, name) is None
}

/// The element type, the number of axes, the rows of the outermost axis and the
/// view of a tensor are as a declaration wants them.
pub open spec fn agrees(decl: TensorModel, tensor: HeaderModel) -> bool {
    &&& decl.dtypes.len() == 0 || decl.dtypes.contains(tensor.dtype)
    &&& decl.rank matches Some(rank) ==> tensor.shape.len() == rank
    &&& decl.fusion matches Some(fusion) ==> {
        let units = fusion.groups * crate::fusion::share_sum(
            fusion.parts,
            fusion.parts.len() as int,
        );
        &&& tensor.shape.len() > 0
        &&& tensor.shape[0] > 0
        &&& units > 0
        &&& tensor.shape[0] as int % units == 0
        &&& tensor.length == 0 || tensor.length % tensor.shape[0] == 0
    }
    &&& decl.permute matches Some(permute) ==> permute.resolved(tensor.shape) is Some
}

proof fn governing_speaks(contract: ContractModel, name: Seq<char>, from: int)
    requires
        0 <= from <= contract.tensors.len(),
        forall|e: int|
            0 <= e < from ==> captured((#[trigger] contract.tensors[e]).pattern, name) is None,
    ensures
        ({
            let d = governing_from(contract.tensors, name, from);
            if d < contract.tensors.len() {
                speaks_for(contract, name, d)
            } else {
                d == contract.tensors.len() && forall|e: int|
                    0 <= e < contract.tensors.len() ==> captured(
                        (#[trigger] contract.tensors[e]).pattern,
                        name,
                    ) is None
            }
        }),
    decreases contract.tensors.len() - from,
{
    if from < contract.tensors.len() && captured(contract.tensors[from].pattern, name) is None {
        governing_speaks(contract, name, from + 1);
    }
}

pub(crate) proof fn one_speaks(contract: ContractModel, name: Seq<char>, d: int)
    ensures
        speaks_for(contract, name, d) <==> d == governing(contract.tensors, name) && d
            < contract.tensors.len(),
{
    governing_speaks(contract, name, 0);
    let g = governing(contract.tensors, name);
    if speaks_for(contract, name, d) && d != g {
        if d < g {
            assert(captured(contract.tensors[d].pattern, name) is None);
        } else {
            assert(captured(contract.tensors[g].pattern, name) is None);
        }
    }
}

/// A tensor that a declaration speaks for and disagrees with.
pub open spec fn disagrees(contract: ContractModel, tensor: HeaderModel) -> bool {
    exists|d: int| #[trigger]
        speaks_for(contract, tensor.name, d) && !agrees(contract.tensors[d], tensor)
}

proof fn refusals_are_disagreements(contract: ContractModel, tensors: Seq<HeaderModel>, upto: int)
    requires
        0 <= upto <= tensors.len(),
    ensures
        match first_refusal(contract, tensors, upto) {
            None => forall|i: int|
                0 <= i < upto ==> !disagrees(contract, #[trigger] tensors[i]),
            Some(mismatch) => exists|i: int|
                0 <= i < upto && disagrees(contract, #[trigger] tensors[i]) && mismatch.tensor
                    == tensors[i].name && told(contract, tensors[i], mismatch) && (forall|j: int|
                    0 <= j < i ==> !disagrees(contract, #[trigger] tensors[j])),
        },
    decreases upto,
{
    if upto > 0 {
        refusals_are_disagreements(contract, tensors, upto - 1);
        let here = tensors[upto - 1];
        let g = governing(contract.tensors, here.name);
        one_speaks(contract, here.name, g);
        if let Some(mismatch) = first_refusal(contract, tensors, upto - 1) {
            let i = choose|i: int|
                0 <= i < upto - 1 && disagrees(contract, #[trigger] tensors[i]) && mismatch.tensor
                    == tensors[i].name && told(contract, tensors[i], mismatch) && (forall|j: int|
                    0 <= j < i ==> !disagrees(contract, #[trigger] tensors[j]));
            assert(disagrees(contract, tensors[i]));
        } else {
            assert forall|d: int| #[trigger] speaks_for(contract, here.name, d) implies d == g by {
                one_speaks(contract, here.name, d);
            }
            if first_refusal(contract, tensors, upto) is Some {
                assert(speaks_for(contract, here.name, g));
                assert(!agrees(contract.tensors[g], here));
                assert(disagrees(contract, tensors[upto - 1]));
            } else {
                assert(!disagrees(contract, here));
            }
        }
    }
}

/// A mismatch names what is wrong with a tensor: the first of the element type,
/// the number of axes, the rows and the view that its declaration does not find.
pub open spec fn told(contract: ContractModel, tensor: HeaderModel, mismatch: MismatchModel) -> bool {
    exists|d: int| #[trigger]
        speaks_for(contract, tensor.name, d) && {
            let decl = contract.tensors[d];
            let typed = decl.dtypes.len() == 0 || decl.dtypes.contains(tensor.dtype);
            let ranked = decl.rank matches Some(rank) ==> tensor.shape.len() == rank;
            let viewed = TensorModel { permute: None, ..decl };
            &&& mismatch.role == decl.role
            &&& mismatch.pattern == decl.pattern
            &&& mismatch.kind == if !typed {
                MismatchKind::Dtype
            } else if !ranked {
                MismatchKind::Rank
            } else if !agrees(viewed, tensor) {
                MismatchKind::Fusion
            } else {
                MismatchKind::Permute
            }
            &&& !typed ==> mismatch.observed == tensor.dtype
        }
}

proof fn missing_is_first(contract: ContractModel, tensors: Seq<HeaderModel>, from: int)
    requires
        0 <= from <= contract.tensors.len(),
    ensures
        ({
            let d = first_missing(contract, tensors, from);
            &&& from <= d <= contract.tensors.len()
            &&& forall|e: int|
                from <= e < d ==> !lacks(contract, tensors, #[trigger] contract.tensors[e], e)
            &&& d < contract.tensors.len() ==> lacks(contract, tensors, contract.tensors[d], d)
        }),
    decreases contract.tensors.len() - from,
{
    if from < contract.tensors.len() {
        met_is_spoken_for(contract, tensors, from);
        if !(contract.tensors[from].required && !met(
            contract,
            tensors,
            from,
            tensors.len() as int,
        )) {
            missing_is_first(contract, tensors, from + 1);
        }
    }
}

proof fn met_is_spoken_for(contract: ContractModel, tensors: Seq<HeaderModel>, d: int)
    requires
        0 <= d < contract.tensors.len(),
    ensures
        met(contract, tensors, d, tensors.len() as int) <==> exists|i: int|
            0 <= i < tensors.len() && speaks_for(contract, (#[trigger] tensors[i]).name, d),
{
    assert forall|i: int| 0 <= i < tensors.len() implies (speaks_for(
        contract,
        (#[trigger] tensors[i]).name,
        d,
    ) <==> governing(contract.tensors, tensors[i].name) == d) by {
        one_speaks(contract, tensors[i].name, d);
    }
    if met(contract, tensors, d, tensors.len() as int) {
        let i = choose|i: int|
            0 <= i < tensors.len() && governing(contract.tensors, (#[trigger] tensors[i]).name) == d;
        assert(speaks_for(contract, tensors[i].name, d));
    }
    if exists|i: int| 0 <= i < tensors.len() && speaks_for(contract, (#[trigger] tensors[i]).name, d) {
        let i = choose|i: int|
            0 <= i < tensors.len() && speaks_for(contract, (#[trigger] tensors[i]).name, d);
        assert(governing(contract.tensors, tensors[i].name) == d);
    }
}

/// A required declaration that speaks for no tensor of a file.
pub open spec fn lacks(
    contract: ContractModel,
    tensors: Seq<HeaderModel>,
    decl: TensorModel,
    d: int,
) -> bool {
    decl.required && forall|i: int|
        0 <= i < tensors.len() ==> !speaks_for(contract, (#[trigger] tensors[i]).name, d)
}

/// A tensor that some declaration reads.
pub open spec fn is_read(contract: ContractModel, tensor: HeaderModel) -> bool {
    exists|d: int|
        0 <= d < contract.tensors.len() && captured(
            (#[trigger] contract.tensors[d]).pattern,
            tensor.name,
        ) is Some
}

proof fn claimed_is_read(contract: ContractModel, tensor: HeaderModel)
    ensures
        claimed(contract, tensor) <==> is_read(contract, tensor),
{
    governing_speaks(contract, tensor.name, 0);
}

proof fn claims_count(contract: ContractModel, tensors: Seq<HeaderModel>, upto: int)
    requires
        0 <= upto <= tensors.len(),
    ensures
        claims(contract, tensors, upto) == tensors.take(upto).filter(
            |tensor: HeaderModel| is_read(contract, tensor),
        ).len(),
        claims(contract, tensors, upto) > 0 <==> exists|i: int|
            0 <= i < upto && is_read(contract, #[trigger] tensors[i]),
    decreases upto,
{
    reveal(Seq::filter);
    if upto > 0 {
        claims_count(contract, tensors, upto - 1);
        claimed_is_read(contract, tensors[upto - 1]);
        assert(tensors.take(upto).drop_last() =~= tensors.take(upto - 1));
        assert(tensors.take(upto).last() == tensors[upto - 1]);
        if is_read(contract, tensors[upto - 1]) {
            assert(is_read(contract, tensors[upto - 1]));
        }
        if claims(contract, tensors, upto - 1) > 0 {
            let i = choose|i: int| 0 <= i < upto - 1 && is_read(contract, #[trigger] tensors[i]);
            assert(is_read(contract, tensors[i]));
        }
    } else {
        assert(tensors.take(0) =~= Seq::<HeaderModel>::empty());
    }
}

/// A contract describes a file exactly if it disagrees with no tensor of it, no
/// required declaration is without a tensor, and some tensor is read by a
/// declaration; all that are read are counted. Otherwise the first tensor that
/// it disagrees with is named, or the first declaration that is without one.
pub proof fn a_file_is_described_exactly(contract: ContractModel, tensors: Seq<HeaderModel>)
    ensures
        ({
            let wrong = exists|i: int|
                0 <= i < tensors.len() && disagrees(contract, #[trigger] tensors[i]);
            let missing = exists|d: int|
                0 <= d < contract.tensors.len() && lacks(
                    contract,
                    tensors,
                    #[trigger] contract.tensors[d],
                    d,
                );
            let read = exists|i: int|
                0 <= i < tensors.len() && is_read(contract, #[trigger] tensors[i]);
            match file_outcome(contract, tensors) {
                Ok(matched) => !wrong && !missing && read && matched == tensors.filter(
                    |tensor: HeaderModel| is_read(contract, tensor),
                ).len(),
                Err(mismatch) => if wrong {
                    exists|i: int|
                        0 <= i < tensors.len() && disagrees(contract, #[trigger] tensors[i])
                            && mismatch.tensor == tensors[i].name && told(
                            contract,
                            tensors[i],
                            mismatch,
                        ) && (forall|j: int|
                            0 <= j < i ==> !disagrees(contract, #[trigger] tensors[j]))
                } else if missing {
                    mismatch.kind is Required && exists|d: int|
                        0 <= d < contract.tensors.len() && lacks(
                            contract,
                            tensors,
                            #[trigger] contract.tensors[d],
                            d,
                        ) && mismatch.role == contract.tensors[d].role && mismatch.pattern
                            == contract.tensors[d].pattern && (forall|e: int|
                            0 <= e < d ==> !lacks(
                                contract,
                                tensors,
                                #[trigger] contract.tensors[e],
                                e,
                            ))
                } else {
                    !read && mismatch.kind is NothingExplained
                },
            }
        }),
{
    let n = tensors.len() as int;
    refusals_are_disagreements(contract, tensors, n);
    missing_is_first(contract, tensors, 0);
    claims_count(contract, tensors, n);
    assert(tensors.take(n) =~= tensors);
    let d = first_missing(contract, tensors, 0);
    if d < contract.tensors.len() {
        assert(lacks(contract, tensors, contract.tensors[d], d));
    }
}

/// How many of the first `upto` members are explained.
pub open spec fn explained_members(
    contract: ContractModel,
    files: Seq<FileModel>,
    upto: int,
) -> nat
    decreases upto,
{
    if upto <= 0 {
        0
    } else {
        explained_members(contract, files, upto - 1) + if is_explained(contract, files[upto - 1]) {
            1nat
        } else {
            0nat
        }
    }
}

/// How many tensors of the first `upto` members are matched: those of a member
/// count only where the whole member is explained.
pub open spec fn matched_tensors(
    contract: ContractModel,
    files: Seq<FileModel>,
    upto: int,
) -> nat
    decreases upto,
{
    if upto <= 0 {
        0
    } else {
        matched_tensors(contract, files, upto - 1) + if is_explained(contract, files[upto - 1]) {
            file_outcome(contract, files[upto - 1].tensors)->Ok_0
        } else {
            0nat
        }
    }
}

proof fn tallies_count(contract: ContractModel, files: Seq<FileModel>, upto: int)
    requires
        0 <= upto <= files.len(),
    ensures
        tally_upto(contract, files, upto).explained == explained_members(contract, files, upto),
        tally_upto(contract, files, upto).matched == matched_tensors(contract, files, upto),
    decreases upto,
{
    if upto > 0 {
        tallies_count(contract, files, upto - 1);
    }
}

/// A verdict counts the members that are explained and the tensors that are matched
/// in them, and converts by the contract's recipe.
pub proof fn a_verdict_counts_its_members(contract: ContractModel, files: Seq<FileModel>)
    requires
        files.len() <= usize::MAX,
    ensures
        ({
            let verdict = verdict_of(contract, files);
            let members = by_path(files);
            let count = members.len() as int;
            &&& verdict.explained == explained_members(contract, members, count)
            &&& verdict.matched == matched_tensors(contract, members, count)
            &&& verdict.conversion matches Some(conversion) ==> conversion.kind == recipe_of(
                contract,
            )
        }),
{
    let members = by_path(files);
    keys_have_an_order(path_keys(files));
    tallies_count(contract, members, members.len() as int);
    a_tally_is_told(contract, tally_upto(contract, members, members.len() as int));
}

proof fn a_tally_is_told(contract: ContractModel, tally: Tally)
    ensures
        settled(contract, tally).explained == tally.explained,
        settled(contract, tally).matched == tally.matched,
        settled(contract, tally).conversion matches Some(conversion) ==> conversion.kind
            == recipe_of(contract),
{
}

/// Whether a declaration lists an fp8 type.
pub open spec fn wants_fp8(decl: TensorModel) -> bool {
    exists|t: int|
        0 <= t < decl.dtypes.len() && (#[trigger] decl.dtypes[t] == "F8_E4M3"@ || decl.dtypes[t]
            == "F8_E5M2"@)
}

/// Whether a declaration is of a weight's scales: its names end so.
pub open spec fn is_of_scales(decl: TensorModel) -> bool {
    exists|head: Seq<char>| decl.pattern == #[trigger] (head + ".weight_scale"@)
}

/// The declarations tell the recipe: rows are scaled for fp8 where some declaration
/// lists an fp8 type and some is of a weight's scales, and else elements are cast.
pub proof fn the_declarations_tell_the_recipe(contract: ContractModel)
    ensures
        ({
            let fp8 = exists|d: int|
                0 <= d < contract.tensors.len() && wants_fp8(#[trigger] contract.tensors[d]);
            let scales = exists|d: int|
                0 <= d < contract.tensors.len() && is_of_scales(#[trigger] contract.tensors[d]);
            recipe_of(contract) == if fp8 && scales {
                "fp8-rowwise"@
            } else {
                "dtype-cast"@
            }
        }),
{
    assert forall|d: int| 0 <= d < contract.tensors.len() implies lists_fp8(
        #[trigger] contract.tensors[d],
    ) == wants_fp8(contract.tensors[d]) && names_scales(contract.tensors[d]) == is_of_scales(
        contract.tensors[d],
    ) by {
        same_wishes(contract.tensors[d]);
    }
}

proof fn same_wishes(decl: TensorModel)
    ensures
        lists_fp8(decl) == wants_fp8(decl),
        names_scales(decl) == is_of_scales(decl),
{
    let tail = ".weight_scale"@;
    let types = decl.dtypes;
    if types.contains("F8_E4M3"@) {
        let t = choose|t: int| 0 <= t < types.len() && types[t] == "F8_E4M3"@;
        assert(types[t] == "F8_E4M3"@);
    }
    if types.contains("F8_E5M2"@) {
        let t = choose|t: int| 0 <= t < types.len() && types[t] == "F8_E5M2"@;
        assert(types[t] == "F8_E5M2"@);
    }
    if names_scales(decl) {
        let head = decl.pattern.take(decl.pattern.len() - tail.len());
        assert(decl.pattern =~= head + tail);
    }
    if is_of_scales(decl) {
        let head = choose|head: Seq<char>| decl.pattern == #[trigger] (head + tail);
        assert(decl.pattern.skip(decl.pattern.len() - tail.len()) =~= tail);
    }
}

} // verus!
