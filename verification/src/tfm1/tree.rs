//! The whole-tree rules of a manifest.

use super::path::{case_fold, folded};
use super::Tfm1Error;
use crate::sort::{all_distinct, byte_strings};
use crate::text::{
    bytes_before, bytes_less, bytes_less_irreflexive, bytes_less_total, bytes_less_transitive,
    last_index, last_index_is,
};
use vstd::prelude::*;
use vstd::utf8::{encode_utf8, encode_utf8_decode_utf8};

verus! {

/// Paths that rise strictly by their UTF-8 bytes.
pub open spec fn rising_paths(paths: Seq<Seq<char>>) -> bool {
    forall|i: int, j: int|
        0 <= i < j < paths.len() ==> bytes_less(
            encode_utf8(#[trigger] paths[i]),
            encode_utf8(#[trigger] paths[j]),
        )
}

/// The path above a path, when there is one.
pub open spec fn parent_of(path: Seq<char>) -> Option<Seq<char>> {
    let at = last_index(path, '/');
    if at < 0 {
        None
    } else {
        Some(path.take(at))
    }
}

/// The parent of a path is a directory among the entries, or there is none.
pub open spec fn rooted(paths: Seq<Seq<char>>, directories: Seq<bool>, path: Seq<char>) -> bool {
    match parent_of(path) {
        None => true,
        Some(parent) => exists|j: int|
            0 <= j < paths.len() && #[trigger] paths[j] == parent && directories[j],
    }
}

/// The whole-tree rules: no two paths are the same in lower case, and the
/// parent of every entry is an explicit directory.
pub open spec fn tree_error(paths: Seq<Seq<char>>, directories: Seq<bool>) -> Option<Tfm1Error> {
    if !paths.map_values(|path: Seq<char>| folded(path)).no_duplicates() {
        Some(Tfm1Error::CaseFoldCollision)
    } else if !(forall|i: int|
        0 <= i < paths.len() ==> rooted(paths, directories, #[trigger] paths[i])) {
        Some(Tfm1Error::MissingParentDirectory)
    } else {
        None
    }
}

/// The values of a list of paths.
pub open spec fn path_views(paths: Seq<String>) -> Seq<Seq<char>> {
    paths.map_values(|path: String| path@)
}

/// Two texts of the same UTF-8 bytes are the same.
pub proof fn same_encoding(a: Seq<char>, b: Seq<char>)
    ensures
        encode_utf8(a) == encode_utf8(b) ==> a == b,
{
    encode_utf8_decode_utf8(a);
    encode_utf8_decode_utf8(b);
}

/// Finds a path, given by its UTF-8 bytes, among rising paths.
pub fn find_path(paths: &Vec<String>, wanted: &[u8]) -> (found: Option<usize>)
    requires
        rising_paths(path_views(paths@)),
    ensures
        match found {
            Some(at) => at < paths@.len() && encode_utf8(paths@[at as int]@) == wanted@,
            None => forall|i: int|
                0 <= i < paths@.len() ==> encode_utf8((#[trigger] paths@[i])@) != wanted@,
        },
{
    let ghost views = path_views(paths@);
    let mut low: usize = 0;
    let mut high: usize = paths.len();
    while low < high
        invariant
            views == path_views(paths@),
            rising_paths(views),
            low <= high <= paths@.len(),
            forall|i: int| 0 <= i < low ==> bytes_less(encode_utf8((#[trigger] paths@[i])@), wanted@),
            forall|i: int|
                high <= i < paths@.len() ==> bytes_less(
                    wanted@,
                    encode_utf8((#[trigger] paths@[i])@),
                ),
        decreases high - low,
    {
        let mid: usize = low + (high - low) / 2;
        let here = paths[mid].as_str().as_bytes();
        proof {
            assert(views[mid as int] == paths@[mid as int]@);
        }
        if bytes_before(here, wanted) {
            proof {
                assert forall|i: int| 0 <= i < mid + 1 implies bytes_less(
                    encode_utf8((#[trigger] paths@[i])@),
                    wanted@,
                ) by {
                    if i < mid {
                        assert(views[i] == paths@[i]@);
                        assert(bytes_less(encode_utf8(views[i]), encode_utf8(views[mid as int])));
                        bytes_less_transitive(encode_utf8(paths@[i]@), here@, wanted@);
                    }
                }
            }
            low = mid + 1;
        } else if bytes_before(wanted, here) {
            proof {
                assert forall|i: int| mid <= i < paths@.len() implies bytes_less(
                    wanted@,
                    encode_utf8((#[trigger] paths@[i])@),
                ) by {
                    if i > mid {
                        assert(views[i] == paths@[i]@);
                        assert(bytes_less(encode_utf8(views[mid as int]), encode_utf8(views[i])));
                        bytes_less_transitive(wanted@, here@, encode_utf8(paths@[i]@));
                    }
                }
            }
            high = mid;
        } else {
            proof {
                bytes_less_total(here@, wanted@);
            }
            return Some(mid);
        }
    }
    proof {
        assert forall|i: int| 0 <= i < paths@.len() implies encode_utf8((#[trigger] paths@[i])@)
            != wanted@ by {
            bytes_less_irreflexive(wanted@);
        }
    }
    None
}

/// The UTF-8 bytes of the path above a path.
fn parent_bytes(path: &str) -> (parent: Option<Vec<u8>>)
    ensures
        match parent {
            Some(p) => parent_of(path@) matches Some(above) && p@ == encode_utf8(above),
            None => parent_of(path@) is None,
        },
{
    let chars = crate::text::chars_of(path);
    let mut at: usize = chars.len();
    while at > 0 && chars[at - 1] != '/'
        invariant
            chars@ == path@,
            at <= chars@.len(),
            forall|i: int| at <= i < chars@.len() ==> chars@[i] != '/',
        decreases at,
    {
        at -= 1;
    }
    proof {
        last_index_is(path@, '/', at - 1);
    }
    if at == 0 {
        return None;
    }
    let above = crate::text::string_of(vstd::slice::slice_subrange(&chars, 0, at - 1));
    assert(above@ =~= path@.take(at - 1));
    Some(vstd::slice::slice_to_vec(above.as_str().as_bytes()))
}

spec fn folds(paths: Seq<Seq<char>>) -> Seq<Seq<char>> {
    paths.map_values(|path: Seq<char>| folded(path))
}

/// Whether no two paths are the same in lower case.
fn folds_distinct(paths: &Vec<String>) -> (distinct: bool)
    ensures
        distinct == folds(path_views(paths@)).no_duplicates(),
{
    let ghost views = folds(path_views(paths@));
    let mut list: Vec<Vec<u8>> = Vec::new();
    let mut at: usize = 0;
    while at < paths.len()
        invariant
            at <= paths@.len(),
            views == folds(path_views(paths@)),
            list@.len() == at,
            forall|i: int| 0 <= i < at ==> (#[trigger] list@[i])@ == encode_utf8(views[i]),
        decreases paths@.len() - at,
    {
        let lower = case_fold(paths[at].as_str());
        assert(views[at as int] == folded(paths@[at as int]@));
        list.push(vstd::slice::slice_to_vec(lower.as_str().as_bytes()));
        at += 1;
    }
    let distinct = all_distinct(&list);
    proof {
        let bytes = byte_strings(list@);
        assert(bytes.len() == views.len());
        assert forall|i: int| 0 <= i < views.len() implies #[trigger] bytes[i] == encode_utf8(
            views[i],
        ) by {
            assert(list@[i]@ == encode_utf8(views[i]));
        }
        if views.no_duplicates() {
            assert forall|i: int, j: int| 0 <= i < bytes.len() && 0 <= j < bytes.len() && i != j
                implies bytes[i] != bytes[j] by {
                same_encoding(views[i], views[j]);
            }
        }
        if bytes.no_duplicates() {
            assert forall|i: int, j: int| 0 <= i < views.len() && 0 <= j < views.len() && i != j
                implies views[i] != views[j] by {
                assert(bytes[i] != bytes[j]);
            }
        }
    }
    distinct
}

/// Checks the whole-tree rules over rising paths.
pub fn validate_tree(paths: &Vec<String>, directories: &Vec<bool>) -> (outcome: Result<
    (),
    Tfm1Error,
>)
    requires
        rising_paths(path_views(paths@)),
        directories@.len() == paths@.len(),
    ensures
        match outcome {
            Ok(_) => tree_error(path_views(paths@), directories@) is None,
            Err(e) => tree_error(path_views(paths@), directories@) == Some(e),
        },
{
    let ghost views = path_views(paths@);
    if !folds_distinct(paths) {
        return Err(Tfm1Error::CaseFoldCollision);
    }
    let mut at: usize = 0;
    while at < paths.len()
        invariant
            views == path_views(paths@),
            rising_paths(views),
            directories@.len() == paths@.len(),
            folds(views).no_duplicates(),
            at <= paths@.len(),
            forall|i: int| 0 <= i < at ==> rooted(views, directories@, #[trigger] views[i]),
        decreases paths@.len() - at,
    {
        assert(views[at as int] == paths@[at as int]@);
        if let Some(above) = parent_bytes(paths[at].as_str()) {
            let ghost parent = parent_of(paths@[at as int]@).unwrap();
            let found = find_path(paths, &above);
            let mut present = false;
            if let Some(j) = found {
                present = directories[j];
                proof {
                    assert(views[j as int] == paths@[j as int]@);
                    same_encoding(views[j as int], parent);
                }
            }
            if !present {
                proof {
                    if rooted(views, directories@, views[at as int]) {
                        let j = choose|j: int|
                            0 <= j < views.len() && #[trigger] views[j] == parent && directories@[j];
                        assert(views[j] == paths@[j]@);
                        match found {
                            Some(k) => {
                                rising_is_distinct(views, j, k as int);
                            },
                            None => {},
                        }
                    }
                }
                return Err(Tfm1Error::MissingParentDirectory);
            }
        }
        at += 1;
    }
    Ok(())
}

/// Rising paths are distinct.
pub proof fn rising_is_distinct(paths: Seq<Seq<char>>, i: int, j: int)
    requires
        rising_paths(paths),
        0 <= i < paths.len(),
        0 <= j < paths.len(),
        paths[i] == paths[j],
    ensures
        i == j,
{
    bytes_less_irreflexive(encode_utf8(paths[i]));
    if i < j {
        assert(bytes_less(encode_utf8(paths[i]), encode_utf8(paths[j])));
    } else if j < i {
        assert(bytes_less(encode_utf8(paths[j]), encode_utf8(paths[i])));
    }
}

} // verus!
