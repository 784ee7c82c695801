//! The rules of a manifest: which record runs, which paths and which trees it can
//! hold.

use super::path::{folded, forbidden, path_error, reserved, segment_error, segments_error};
use super::tree::{parent_of, rooted, tree_error};
use super::trees::{length_together, lengths_add_up};
use super::{record_sum, records_error, run_error_upto, RecordModel};
use crate::contract::byte_len;
use crate::text::{first_index, first_index_facts, last_index, last_index_facts, last_index_is};
use crate::trusted::nfc;
use vstd::prelude::*;

verus! {

proof fn sums_grow(records: Seq<RecordModel>, low: int, high: int)
    requires
        0 <= low <= high,
    ensures
        record_sum(records, low) <= record_sum(records, high),
    decreases high - low,
{
    if low < high {
        sums_grow(records, low, high - 1);
    }
}

proof fn run_errors(records: Seq<RecordModel>, upto: int)
    requires
        0 <= upto <= records.len(),
    ensures
        run_error_upto(records, upto) is None <==> {
            &&& record_sum(records, upto) <= u64::MAX
            &&& forall|i: int| 0 <= i < upto ==> (#[trigger] records[i]).length() > 0
            &&& forall|i: int|
                0 < i < upto ==> !((#[trigger] records[i]) is Hole && records[i - 1] is Hole)
        },
    decreases upto,
{
    if upto > 0 {
        run_errors(records, upto - 1);
        sums_grow(records, upto - 1, upto);
    }
}

/// A tensor file's records are accepted exactly if they are at most as many as a
/// file may have, none is empty, no hole follows a hole, they come to the size of
/// the file, and no data record is larger than the grid's cells.
pub proof fn exactly_sound_runs_pass(records: Seq<RecordModel>, size: u64)
    ensures
        records_error(records, size) is None <==> {
            &&& records.len() <= 1_000_000
            &&& length_together(records) == size
            &&& forall|i: int| 0 <= i < records.len() ==> (#[trigger] records[i]).length() > 0
            &&& forall|i: int|
                0 < i < records.len() ==> !((#[trigger] records[i]) is Hole && records[i
                    - 1] is Hole)
            &&& forall|i: int|
                0 <= i < records.len() && (#[trigger] records[i]) is Data ==> records[i].length()
                    <= 0x400_0000
        },
{
    run_errors(records, records.len() as int);
    lengths_add_up(records, records.len() as int);
    assert(records.take(records.len() as int) =~= records);
}

/// Whether the characters from `a` up to `b` are a segment of a path: no slash is
/// among them, and a slash or an end of the path stands on either side.
pub open spec fn is_segment(path: Seq<char>, a: int, b: int) -> bool {
    &&& 0 <= a <= b <= path.len()
    &&& a == 0 || path[a - 1] == '/'
    &&& b == path.len() || path[b] == '/'
    &&& forall|i: int| a <= i < b ==> #[trigger] path[i] != '/'
}

/// Whether every system can have a segment for a name.
pub open spec fn is_portable(segment: Seq<char>) -> bool {
    &&& segment.len() > 0
    &&& segment != seq!['.']
    &&& segment != seq!['.', '.']
    &&& forall|i: int|
        0 <= i < segment.len() ==> {
            let c = #[trigger] segment[i];
            &&& 0x20 <= c as u32
            &&& !(0x7f <= c as u32 <= 0x9f)
            &&& c != '\\'
            &&& c != ':'
            &&& c != '*'
            &&& c != '?'
            &&& c != '"'
            &&& c != '<'
            &&& c != '>'
            &&& c != '|'
        }
    &&& segment[segment.len() - 1] != '.'
    &&& segment[segment.len() - 1] != ' '
    &&& !reserved(segment.take(first_index(segment, '.')))
}

proof fn portable_segments_pass(segment: Seq<char>)
    ensures
        segment_error(segment) is None <==> is_portable(segment),
{
    if is_portable(segment) {
        assert forall|i: int| 0 <= i < segment.len() implies !forbidden(#[trigger] segment[i]) by {}
    }
    if segment_error(segment) is None {
        assert forall|i: int| 0 <= i < segment.len() implies {
            let c = #[trigger] segment[i];
            &&& 0x20 <= c as u32
            &&& !(0x7f <= c as u32 <= 0x9f)
            &&& c != '\\'
            &&& c != ':'
            &&& c != '*'
            &&& c != '?'
            &&& c != '"'
            &&& c != '<'
            &&& c != '>'
            &&& c != '|'
        } by {
            assert(!forbidden(segment[i]));
        }
    }
}

proof fn all_segments_pass(path: Seq<char>)
    ensures
        segments_error(path) is None <==> forall|a: int, b: int| #[trigger]
            is_segment(path, a, b) ==> is_portable(path.subrange(a, b)),
    decreases path.len(),
{
    let at = first_index(path, '/');
    first_index_facts(path, '/');
    portable_segments_pass(path.take(at));
    assert(is_segment(path, 0, at));
    assert(path.subrange(0, at) =~= path.take(at));
    if at < path.len() {
        let rest = path.skip(at + 1);
        all_segments_pass(rest);
        if segments_error(path) is None {
            assert forall|a: int, b: int| #[trigger] is_segment(path, a, b) implies is_portable(
                path.subrange(a, b),
            ) by {
                if a <= at {
                    if a > 0 {
                        assert(path[a - 1] != '/');
                    }
                    if b < at {
                        assert(path[b] != '/');
                    }
                    if at < b {
                        assert(path[at] != '/');
                    }
                } else {
                    let x = a - at - 1;
                    let y = b - at - 1;
                    assert forall|i: int| x <= i < y implies #[trigger] rest[i] != '/' by {
                        assert(rest[i] == path[i + at + 1]);
                    }
                    assert(is_segment(rest, x, y));
                    assert(rest.subrange(x, y) =~= path.subrange(a, b));
                }
            }
        }
        if forall|a: int, b: int| #[trigger]
            is_segment(path, a, b) ==> is_portable(path.subrange(a, b)) {
            assert forall|x: int, y: int| #[trigger] is_segment(rest, x, y) implies is_portable(
                rest.subrange(x, y),
            ) by {
                let a = x + at + 1;
                let b = y + at + 1;
                assert forall|i: int| a <= i < b implies #[trigger] path[i] != '/' by {
                    assert(rest[i - at - 1] == path[i]);
                }
                assert(is_segment(path, a, b));
                assert(rest.subrange(x, y) =~= path.subrange(a, b));
            }
        }
    } else {
        if segments_error(path) is None {
            assert forall|a: int, b: int| #[trigger] is_segment(path, a, b) implies is_portable(
                path.subrange(a, b),
            ) by {
                if a > 0 {
                    assert(path[a - 1] != '/');
                }
                if b < path.len() {
                    assert(path[b] != '/');
                }
            }
        }
    }
}

/// A path is accepted exactly if it is not empty, not too long, in its composed
/// form, and every segment of it is portable.
pub proof fn exactly_portable_paths_pass(path: Seq<char>)
    ensures
        path_error(path) is None <==> {
            &&& 0 < path.len()
            &&& byte_len(path) <= 4096
            &&& nfc(path)
            &&& forall|a: int, b: int| #[trigger]
                is_segment(path, a, b) ==> is_portable(path.subrange(a, b))
        },
{
    all_segments_pass(path);
    if path.len() > 0 && path[0] == '/' {
        assert(is_segment(path, 0, 0));
        assert(path.subrange(0, 0).len() == 0);
    }
}

/// Whether a path is a name in the directory of another.
pub open spec fn is_in(path: Seq<char>, directory: Seq<char>) -> bool {
    exists|name: Seq<char>|
        path == #[trigger] (directory + seq!['/'] + name) && forall|i: int|
            0 <= i < name.len() ==> #[trigger] name[i] != '/'
}

proof fn a_parent_is_the_directory(path: Seq<char>, directory: Seq<char>)
    ensures
        parent_of(path) == Some(directory) <==> is_in(path, directory),
        parent_of(path) is None <==> !path.contains('/'),
{
    last_index_facts(path, '/');
    let at = last_index(path, '/');
    if parent_of(path) == Some(directory) {
        let name = path.skip(at + 1);
        assert(path =~= directory + seq!['/'] + name);
        assert forall|i: int| 0 <= i < name.len() implies #[trigger] name[i] != '/' by {
            assert(name[i] == path[at + 1 + i]);
        }
    }
    if is_in(path, directory) {
        let name = choose|name: Seq<char>|
            path == #[trigger] (directory + seq!['/'] + name) && forall|i: int|
                0 <= i < name.len() ==> #[trigger] name[i] != '/';
        let slash = directory.len() as int;
        assert(path[slash] == '/');
        assert forall|i: int| slash < i < path.len() implies path[i] != '/' by {
            assert(path[i] == name[i - slash - 1]);
        }
        last_index_is(path, '/', slash);
        assert(path.take(slash) =~= directory);
    }
    if at >= 0 {
        assert(path[at] == '/');
    }
    if path.contains('/') {
        let i = choose|i: int| 0 <= i < path.len() && path[i] == '/';
    }
}

/// A tree is accepted exactly if no two paths differ in case alone, and every
/// path with a slash stands in a directory of the tree.
pub proof fn exactly_rooted_trees_pass(paths: Seq<Seq<char>>, directories: Seq<bool>)
    ensures
        tree_error(paths, directories) is None <==> {
            &&& forall|i: int, j: int|
                0 <= i < j < paths.len() ==> folded(#[trigger] paths[i]) != folded(
                    #[trigger] paths[j],
                )
            &&& forall|i: int|
                0 <= i < paths.len() && (#[trigger] paths[i]).contains('/') ==> exists|j: int|
                    0 <= j < paths.len() && directories[j] && is_in(paths[i], #[trigger] paths[j])
        },
{
    let folds = paths.map_values(|path: Seq<char>| folded(path));
    if folds.no_duplicates() {
        assert forall|i: int, j: int| 0 <= i < j < paths.len() implies folded(#[trigger] paths[i])
            != folded(#[trigger] paths[j]) by {
            assert(folds[i] != folds[j]);
        }
    }
    if forall|i: int, j: int|
        0 <= i < j < paths.len() ==> folded(#[trigger] paths[i]) != folded(#[trigger] paths[j]) {
        assert forall|i: int, j: int|
            0 <= i < folds.len() && 0 <= j < folds.len() && i != j implies folds[i] != folds[j] by {
            if i < j {
                assert(folded(paths[i]) != folded(paths[j]));
            } else {
                assert(folded(paths[j]) != folded(paths[i]));
            }
        }
    }
    assert forall|i: int| 0 <= i < paths.len() implies (rooted(
        paths,
        directories,
        #[trigger] paths[i],
    ) <==> (paths[i].contains('/') ==> exists|j: int|
        0 <= j < paths.len() && directories[j] && is_in(paths[i], #[trigger] paths[j]))) by {
        a_parent_is_the_directory(paths[i], Seq::empty());
        if parent_of(paths[i]) is Some {
            let parent = parent_of(paths[i])->Some_0;
            a_parent_is_the_directory(paths[i], parent);
            if rooted(paths, directories, paths[i]) {
                let j = choose|j: int|
                    0 <= j < paths.len() && #[trigger] paths[j] == parent && directories[j];
                assert(is_in(paths[i], paths[j]));
            }
            if exists|j: int|
                0 <= j < paths.len() && directories[j] && is_in(paths[i], #[trigger] paths[j]) {
                let j = choose|j: int|
                    0 <= j < paths.len() && directories[j] && is_in(paths[i], #[trigger] paths[j]);
                a_parent_is_the_directory(paths[i], paths[j]);
            }
        }
    }
}

} // verus!
