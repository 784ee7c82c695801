//! Building a snapshot from tree facts.
//!
//! The builder sorts what was declared, re-roots every hardlink group onto its
//! first path, numbers the files in path order, and checks the whole tree. No
//! host identity, inode number, timestamp or random value reaches the result.

use super::decode::{directories_of, paths_of};
use super::laws::{carried, valid, valid_entry, whole_digests};
use super::path::{path_error, usable_target, validate_path, validate_symlink_target};
use super::tree::{
    find_path, path_views, rising_is_distinct, rising_paths, same_encoding, tree_error,
    validate_tree,
};
use super::{
    entry_models, files_before, parent_model, record_models, record_sum, record_sum_grows,
    records_error, run_error, run_length, validate_record_run, validate_records, BodyModel, Entry,
    EntryModel, FileBody, FileRecord, RecordModel, Snapshot, SnapshotId, SnapshotModel, Tfm1Error,
    EMPTY_BLOB_DIGEST,
};
use crate::contract::{Stamp, StampModel};
use crate::object::ObjectDigest;
use crate::planner::PlannerId;
use crate::sort::{
    distinct_keys_order, one_rising_order, rising_order, sort_positions, sorted_range, sorts_before,
};
use crate::text::{bytes_less, bytes_less_irreflexive, bytes_less_total, same_bytes};
use vstd::prelude::*;
use vstd::utf8::encode_utf8;

verus! {

// ---------------------------------------------------------------------------
// Types
// ---------------------------------------------------------------------------

/// One entry of a resolved tree whose files are still record runs.
#[derive(Debug, PartialEq, Eq)]
pub enum TreeEntry {
    Directory,
    File { executable: bool, planner: PlannerId, contract: Stamp, records: Vec<FileRecord> },
    Symlink { target: String },
    Hardlink { ordinal: u64 },
}

/// The value of a [`TreeEntry`].
pub enum TreeModel {
    Directory,
    File { executable: bool, planner: PlannerId, contract: StampModel, records: Seq<RecordModel> },
    Symlink { target: Seq<char> },
    Hardlink { ordinal: u64 },
}

impl View for TreeEntry {
    type V = TreeModel;

    open spec fn view(&self) -> TreeModel {
        match self {
            TreeEntry::Directory => TreeModel::Directory,
            TreeEntry::File { executable, planner, contract, records } => TreeModel::File {
                executable: *executable,
                planner: *planner,
                contract: contract@,
                records: record_models(records@),
            },
            TreeEntry::Symlink { target } => TreeModel::Symlink { target: target@ },
            TreeEntry::Hardlink { ordinal } => TreeModel::Hardlink { ordinal: *ordinal },
        }
    }
}

/// The values of a resolved tree.
pub open spec fn tree_models(entries: Seq<(String, TreeEntry)>) -> Seq<(Seq<char>, TreeModel)> {
    entries.map_values(|pair: (String, TreeEntry)| (pair.0@, pair.1@))
}

/// One declared entry.
#[derive(Debug, PartialEq, Eq)]
enum Pending {
    Directory,
    File { executable: bool, planner: PlannerId, contract: Stamp, records: Vec<FileRecord> },
    Symlink { target: String },
    HardlinkTo { target_path: String },
}

/// The value of a declared entry.
pub enum PendingModel {
    Directory,
    File { executable: bool, planner: PlannerId, contract: StampModel, records: Seq<RecordModel> },
    Symlink { target: Seq<char> },
    HardlinkTo { target: Seq<char> },
}

impl View for Pending {
    type V = PendingModel;

    closed spec fn view(&self) -> PendingModel {
        match self {
            Pending::Directory => PendingModel::Directory,
            Pending::File { executable, planner, contract, records } => PendingModel::File {
                executable: *executable,
                planner: *planner,
                contract: contract@,
                records: record_models(records@),
            },
            Pending::Symlink { target } => PendingModel::Symlink { target: target@ },
            Pending::HardlinkTo { target_path } => PendingModel::HardlinkTo { target: target_path@ },
        }
    }
}

/// A path and what was declared of it.
pub type Declared = (Seq<char>, PendingModel);

spec fn pending_models(pending: Seq<(String, Pending)>) -> Seq<Declared> {
    pending.map_values(|pair: (String, Pending)| (pair.0@, pair.1@))
}

// ---------------------------------------------------------------------------
// What resolving gives
// ---------------------------------------------------------------------------

/// The first rule that the `i`th declaration breaks, given the earlier ones.
pub open spec fn declared_error(pending: Seq<Declared>, i: int) -> Option<Tfm1Error> {
    if path_error(pending[i].0) is Some {
        path_error(pending[i].0)
    } else if pending[i].1 matches PendingModel::Symlink { target } && !usable_target(target) {
        Some(Tfm1Error::SymlinkTarget)
    } else if exists|j: int| 0 <= j < i && (#[trigger] pending[j]).0 == pending[i].0 {
        Some(Tfm1Error::DuplicatePath)
    } else {
        None
    }
}

/// The first rule that a declaration among the first `upto` breaks.
pub open spec fn first_declared_error(pending: Seq<Declared>, upto: int) -> Option<Tfm1Error>
    decreases upto,
{
    if upto <= 0 {
        None
    } else {
        match first_declared_error(pending, upto - 1) {
            Some(error) => Some(error),
            None => declared_error(pending, upto - 1),
        }
    }
}

/// The UTF-8 bytes of paths.
pub open spec fn path_encodings(paths: Seq<Seq<char>>) -> Seq<Seq<u8>> {
    paths.map_values(|path: Seq<char>| encode_utf8(path))
}

/// Every position once, in strictly rising order of path.
pub open spec fn is_path_order(paths: Seq<Seq<char>>, order: Seq<usize>) -> bool {
    rising_order(path_encodings(paths), order)
}

pub open spec fn declared_paths(pending: Seq<Declared>) -> Seq<Seq<char>> {
    pending.map_values(|pair: Declared| pair.0)
}

/// The declarations in path order.
pub open spec fn staged(pending: Seq<Declared>) -> Seq<Declared> {
    let order = choose|order: Seq<usize>| is_path_order(declared_paths(pending), order);
    order.map_values(|at: usize| pending[at as int])
}

/// The position of a path, or the length.
pub open spec fn place_of(stage: Seq<Declared>, path: Seq<char>, from: int) -> int
    decreases stage.len() - from,
{
    if from >= stage.len() || stage[from].0 == path {
        from
    } else {
        place_of(stage, path, from + 1)
    }
}

/// The file that a file or a hardlink stands for.
pub open spec fn root_of(stage: Seq<Declared>, k: int) -> Option<int> {
    match stage[k].1 {
        PendingModel::File { .. } => Some(k),
        PendingModel::HardlinkTo { target } => {
            let at = place_of(stage, target, 0);
            if at < stage.len() && stage[at].1 is File {
                Some(at)
            } else {
                None
            }
        },
        _ => None,
    }
}

/// A hardlink whose target is no declared file.
pub open spec fn dangles(stage: Seq<Declared>, k: int) -> bool {
    stage[k].1 is HardlinkTo && root_of(stage, k) is None
}

/// The first path at or behind `from` that stands for the file `root`.
pub open spec fn carrier_from(stage: Seq<Declared>, root: int, from: int) -> int
    decreases stage.len() - from,
{
    if from >= stage.len() || root_of(stage, from) == Some(root) {
        from
    } else {
        carrier_from(stage, root, from + 1)
    }
}

/// The path that carries the file `root`: the first that stands for it.
pub open spec fn carrier(stage: Seq<Declared>, root: int) -> int {
    carrier_from(stage, root, 0)
}

/// Whether the `k`th path carries a file.
pub open spec fn carries(stage: Seq<Declared>, k: int) -> bool {
    root_of(stage, k) is Some && carrier(stage, root_of(stage, k).unwrap()) == k
}

/// How many of the first `upto` paths carry a file.
pub open spec fn carriers_before(stage: Seq<Declared>, upto: int) -> nat
    decreases upto,
{
    if upto <= 0 {
        0
    } else {
        carriers_before(stage, upto - 1) + if carries(stage, upto - 1) {
            1nat
        } else {
            0nat
        }
    }
}

/// The resolved entry of the `k`th path.
pub open spec fn resolved_entry(stage: Seq<Declared>, k: int) -> TreeModel {
    match stage[k].1 {
        PendingModel::Directory => TreeModel::Directory,
        PendingModel::Symlink { target } => TreeModel::Symlink { target },
        _ => {
            let root = root_of(stage, k).unwrap();
            if carries(stage, k) {
                let file = stage[root].1;
                TreeModel::File {
                    executable: file->File_executable,
                    planner: file->File_planner,
                    contract: file->File_contract,
                    records: file->File_records,
                }
            } else {
                TreeModel::Hardlink {
                    ordinal: carriers_before(stage, carrier(stage, root)) as u64,
                }
            }
        },
    }
}

/// The first record among the first `upto` that is empty or takes the sum out
/// of 64 bits.
pub open spec fn sum_error(records: Seq<RecordModel>, upto: int) -> Option<Tfm1Error>
    decreases upto,
{
    if upto <= 0 {
        None
    } else {
        match sum_error(records, upto - 1) {
            Some(error) => Some(error),
            None => if records[upto - 1].length() == 0 {
                Some(Tfm1Error::ZeroLengthRecord)
            } else if record_sum(records, upto) > u64::MAX {
                Some(Tfm1Error::LengthSumMismatch)
            } else {
                None
            },
        }
    }
}

/// The first rule that a declared record run breaks. Its size is the sum of its
/// lengths.
pub open spec fn staged_error(records: Seq<RecordModel>) -> Option<Tfm1Error> {
    match sum_error(records, records.len() as int) {
        Some(error) => Some(error),
        None => run_error(records, run_length(records) as u64),
    }
}

/// The first rule that the file carried by a path among the first `upto` breaks.
pub open spec fn first_file_error(stage: Seq<Declared>, upto: int) -> Option<Tfm1Error>
    decreases upto,
{
    if upto <= 0 {
        None
    } else {
        match first_file_error(stage, upto - 1) {
            Some(error) => Some(error),
            None => if carries(stage, upto - 1) {
                staged_error(stage[root_of(stage, upto - 1).unwrap()].1->File_records)
            } else {
                None
            },
        }
    }
}

/// The resolved tree of a stage.
pub open spec fn resolved_entries(stage: Seq<Declared>) -> Seq<(Seq<char>, TreeModel)> {
    Seq::new(stage.len(), |k: int| (stage[k].0, resolved_entry(stage, k)))
}

pub open spec fn tree_paths(entries: Seq<(Seq<char>, TreeModel)>) -> Seq<Seq<char>> {
    entries.map_values(|pair: (Seq<char>, TreeModel)| pair.0)
}

pub open spec fn tree_directories(entries: Seq<(Seq<char>, TreeModel)>) -> Seq<bool> {
    entries.map_values(|pair: (Seq<char>, TreeModel)| pair.1 is Directory)
}

/// What resolving declarations gives: the first refusal of a declaration in
/// declaration order, of a hardlink, of a file in path order, of the tree; or
/// the resolved tree.
pub open spec fn resolved(pending: Seq<Declared>) -> Result<
    Seq<(Seq<char>, TreeModel)>,
    Tfm1Error,
> {
    let stage = staged(pending);
    let entries = resolved_entries(stage);
    if first_declared_error(pending, pending.len() as int) is Some {
        Err(first_declared_error(pending, pending.len() as int).unwrap())
    } else if exists|k: int| 0 <= k < stage.len() && #[trigger] dangles(stage, k) {
        Err(Tfm1Error::HardlinkTarget)
    } else if first_file_error(stage, stage.len() as int) is Some {
        Err(first_file_error(stage, stage.len() as int).unwrap())
    } else if tree_error(tree_paths(entries), tree_directories(entries)) is Some {
        Err(tree_error(tree_paths(entries), tree_directories(entries)).unwrap())
    } else {
        Ok(entries)
    }
}

// ---------------------------------------------------------------------------
// Ordering
// ---------------------------------------------------------------------------

pub(crate) proof fn staged_is(pending: Seq<Declared>, order: Seq<usize>)
    requires
        is_path_order(declared_paths(pending), order),
    ensures
        staged(pending) == order.map_values(|at: usize| pending[at as int]),
        rising_paths(declared_paths(staged(pending))),
        staged(pending).len() == pending.len(),
{
    let paths = declared_paths(pending);
    let chosen = choose|order: Seq<usize>| is_path_order(paths, order);
    one_rising_order(path_encodings(paths), chosen, order);
    let stage = staged(pending);
    let rising = declared_paths(stage);
    assert forall|i: int, j: int| 0 <= i < j < rising.len() implies bytes_less(
        encode_utf8(#[trigger] rising[i]),
        encode_utf8(#[trigger] rising[j]),
    ) by {
        let keys = path_encodings(paths);
        assert(bytes_less(keys[order[i] as int], keys[order[j] as int]));
        assert(rising[i] == paths[order[i] as int]);
        assert(rising[j] == paths[order[j] as int]);
    }
}

proof fn first_error_stays(pending: Seq<Declared>, low: int, high: int)
    requires
        0 <= low <= high,
        first_declared_error(pending, low) is Some,
    ensures
        first_declared_error(pending, high) == first_declared_error(pending, low),
    decreases high - low,
{
    if low < high {
        first_error_stays(pending, low, high - 1);
    }
}

/// The UTF-8 bytes of the declared paths.
fn path_keys(pending: &Vec<(String, Pending)>) -> (keys: Vec<Vec<u8>>)
    ensures
        keys@.len() == pending@.len(),
        forall|i: int|
            0 <= i < keys@.len() ==> (#[trigger] keys@[i])@ == encode_utf8(
                pending_models(pending@)[i].0,
            ),
{
    let ghost models = pending_models(pending@);
    let mut keys: Vec<Vec<u8>> = Vec::new();
    let mut at: usize = 0;
    while at < pending.len()
        invariant
            at <= pending@.len(),
            models == pending_models(pending@),
            keys@.len() == at,
            forall|i: int|
                0 <= i < at ==> (#[trigger] keys@[i])@ == encode_utf8(models[i].0),
        decreases pending@.len() - at,
    {
        assert(models[at as int].0 == pending@[at as int].0@);
        keys.push(vstd::slice::slice_to_vec(pending[at].0.as_str().as_bytes()));
        at += 1;
    }
    keys
}

/// The smallest position whose path occurs before it, or the length.
fn first_repeat(keys: &Vec<Vec<u8>>, order: &Vec<usize>) -> (repeat: usize)
    requires
        sorted_range(keys@, order@, 0, keys@.len() as int),
    ensures
        repeat <= keys@.len(),
        repeat < keys@.len() ==> exists|j: int|
            0 <= j < repeat && (#[trigger] keys@[j])@ == keys@[repeat as int]@,
        forall|i: int, j: int|
            0 <= j < i < repeat ==> (#[trigger] keys@[j])@ != (#[trigger] keys@[i])@,
{
    let n = keys.len();
    let mut repeat: usize = n;
    let mut at: usize = 1;
    while at < n
        invariant
            n == keys@.len(),
            sorted_range(keys@, order@, 0, n as int),
            1 <= at,
            repeat <= n,
            repeat < n ==> exists|j: int|
                0 <= j < repeat && (#[trigger] keys@[j])@ == keys@[repeat as int]@,
            forall|k: int|
                1 <= k < at && k < n && keys@[order@[k - 1] as int]@ == keys@[
                #[trigger] order@[k] as int]@ ==> repeat <= order@[k],
        decreases n - at,
    {
        let x = order[at - 1];
        let y = order[at];
        proof {
            assert(0 <= order@[at - 1] < n && 0 <= order@[at as int] < n);
            assert(sorts_before(keys@, order@[at - 1] as int, order@[at as int] as int));
        }
        if same_bytes(&keys[x], &keys[y]) {
            proof {
                bytes_less_irreflexive(keys@[x as int]@);
                assert(x < y);
            }
            if y < repeat {
                repeat = y;
                assert(keys@[x as int]@ == keys@[repeat as int]@);
            }
        }
        at += 1;
    }
    proof {
        assert forall|i: int, j: int| 0 <= j < i < repeat implies (#[trigger] keys@[j])@ != (
        #[trigger] keys@[i])@ by {
            if keys@[j]@ == keys@[i]@ {
                equal_keys_meet(keys@, order@, j, i, repeat as int);
            }
        }
    }
    repeat
}

proof fn equal_keys_meet(keys: Seq<Vec<u8>>, order: Seq<usize>, j: int, i: int, repeat: int)
    requires
        sorted_range(keys, order, 0, keys.len() as int),
        keys.len() <= usize::MAX,
        0 <= j < i < keys.len(),
        keys[j]@ == keys[i]@,
        forall|k: int|
            1 <= k < keys.len() && keys[order[k - 1] as int]@ == keys[
            #[trigger] order[k] as int]@ ==> repeat <= order[k],
    ensures
        repeat <= i,
{
    assert(order.contains(i as usize) && order.contains(j as usize));
    let a = choose|a: int| 0 <= a < order.len() && order[a] == j as usize;
    let b = choose|b: int| 0 <= b < order.len() && order[b] == i as usize;
    bytes_less_irreflexive(keys[i]@);
    if b < a {
        assert(sorts_before(keys, order[b] as int, order[a] as int));
    }
    assert(a < b);
    let p = order[b - 1] as int;
    assert(0 <= p < keys.len());
    assert(sorts_before(keys, p, order[b] as int));
    if a < b - 1 {
        assert(sorts_before(keys, order[a] as int, p));
        bytes_less_total(keys[p]@, keys[i]@);
    }
    assert(keys[p]@ == keys[i]@);
}

/// Checks the declarations in declaration order.
fn check_declared(pending: &Vec<(String, Pending)>, repeat: usize) -> (outcome: Result<
    (),
    Tfm1Error,
>)
    requires
        repeat <= pending@.len(),
        repeat < pending@.len() ==> exists|j: int|
            0 <= j < repeat && (#[trigger] pending_models(pending@)[j]).0 == pending_models(
                pending@,
            )[repeat as int].0,
        forall|i: int, j: int|
            0 <= j < i < repeat ==> (#[trigger] pending_models(pending@)[j]).0 != (
            #[trigger] pending_models(pending@)[i]).0,
    ensures
        match outcome {
            Ok(_) => first_declared_error(pending_models(pending@), pending@.len() as int) is None
                && repeat == pending@.len(),
            Err(e) => first_declared_error(pending_models(pending@), pending@.len() as int) == Some(
                e,
            ),
        },
{
    let ghost models = pending_models(pending@);
    let mut at: usize = 0;
    while at < pending.len()
        invariant
            at <= pending@.len(),
            models == pending_models(pending@),
            repeat <= pending@.len(),
            at <= repeat,
            repeat < pending@.len() ==> exists|j: int|
                0 <= j < repeat && (#[trigger] models[j]).0 == models[repeat as int].0,
            forall|i: int, j: int|
                0 <= j < i < repeat ==> (#[trigger] models[j]).0 != (#[trigger] models[i]).0,
            first_declared_error(models, at as int) is None,
        decreases pending@.len() - at,
    {
        let pair = &pending[at];
        proof {
            assert(models[at as int] == (pair.0@, pair.1@));
            if first_declared_error(models, at + 1) is Some {
                first_error_stays(models, at + 1, models.len() as int);
            }
        }
        validate_path(pair.0.as_str())?;
        if let Pending::Symlink { target } = &pair.1 {
            validate_symlink_target(target.as_str())?;
        }
        if at == repeat {
            return Err(Tfm1Error::DuplicatePath);
        }
        at += 1;
    }
    Ok(())
}

/// Sorts the declarations by path, refusing what breaks a rule.
fn stage_order(pending: &Vec<(String, Pending)>) -> (order: Result<Vec<usize>, Tfm1Error>)
    ensures
        match order {
            Ok(o) => first_declared_error(pending_models(pending@), pending@.len() as int) is None
                && is_path_order(declared_paths(pending_models(pending@)), o@),
            Err(e) => first_declared_error(pending_models(pending@), pending@.len() as int) == Some(
                e,
            ),
        },
{
    let ghost models = pending_models(pending@);
    let ghost paths = declared_paths(models);
    let keys = path_keys(pending);
    let order = sort_positions(&keys);
    let repeat = first_repeat(&keys, &order);
    proof {
        if repeat < keys@.len() {
            let j = choose|j: int| 0 <= j < repeat && (#[trigger] keys@[j])@ == keys@[repeat as int]@;
            same_encoding(models[j].0, models[repeat as int].0);
        }
        assert forall|i: int, j: int| 0 <= j < i < repeat implies (#[trigger] models[j]).0 != (
        #[trigger] models[i]).0 by {
            assert(keys@[j]@ != keys@[i]@);
        }
    }
    check_declared(pending, repeat)?;
    proof {
        let encodings = path_encodings(paths);
        assert forall|i: int, j: int| 0 <= i < j < order@.len() implies bytes_less(
            encodings[#[trigger] order@[i] as int],
            encodings[#[trigger] order@[j] as int],
        ) by {
            let x = order@[i] as int;
            let y = order@[j] as int;
            assert(sorts_before(keys@, x, y));
            assert(keys@[x]@ == encode_utf8(models[x].0) && keys@[y]@ == encode_utf8(models[y].0));
            assert(x != y);
            if x < y {
                assert(keys@[x]@ != keys@[y]@);
            } else {
                assert(keys@[y]@ != keys@[x]@);
            }
            bytes_less_total(keys@[x]@, keys@[y]@);
        }
    }
    Ok(order)
}

// ---------------------------------------------------------------------------
// Roots and carriers
// ---------------------------------------------------------------------------

pub(crate) proof fn place_found(stage: Seq<Declared>, path: Seq<char>, at: int, from: int)
    requires
        rising_paths(declared_paths(stage)),
        0 <= from <= at < stage.len(),
        stage[at].0 == path,
    ensures
        place_of(stage, path, from) == at,
    decreases at - from,
{
    if from < at {
        if stage[from].0 == path {
            let paths = declared_paths(stage);
            assert(paths[from] == path && paths[at] == path);
            rising_is_distinct(paths, from, at);
        }
        place_found(stage, path, at, from + 1);
    }
}

proof fn place_missing(stage: Seq<Declared>, path: Seq<char>, from: int)
    requires
        0 <= from <= stage.len(),
        forall|i: int| 0 <= i < stage.len() ==> (#[trigger] stage[i]).0 != path,
    ensures
        place_of(stage, path, from) == stage.len(),
    decreases stage.len() - from,
{
    if from < stage.len() {
        assert(stage[from].0 != path);
        place_missing(stage, path, from + 1);
    }
}

/// The root of each path in path order, the length where there is none.
fn find_roots(
    pending: &Vec<(String, Pending)>,
    order: &Vec<usize>,
    paths: &Vec<String>,
    Ghost(stage): Ghost<Seq<Declared>>,
) -> (roots: Option<Vec<usize>>)
    requires
        is_path_order(declared_paths(pending_models(pending@)), order@),
        stage == order@.map_values(|at: usize| pending_models(pending@)[at as int]),
        rising_paths(declared_paths(stage)),
        path_views(paths@) == declared_paths(stage),
    ensures
        match roots {
            Some(r) => {
                &&& r@.len() == stage.len()
                &&& forall|k: int|
                    0 <= k < stage.len() ==> #[trigger] r@[k] == match root_of(stage, k) {
                        Some(root) => root,
                        None => stage.len() as int,
                    }
                &&& forall|k: int| 0 <= k < stage.len() ==> !#[trigger] dangles(stage, k)
            },
            None => exists|k: int| 0 <= k < stage.len() && #[trigger] dangles(stage, k),
        },
{
    let ghost models = pending_models(pending@);
    let n = order.len();
    let mut roots: Vec<usize> = Vec::new();
    let mut at: usize = 0;
    while at < n
        invariant
            n == order@.len(),
            n == stage.len(),
            at <= n,
            models == pending_models(pending@),
            is_path_order(declared_paths(models), order@),
            stage == order@.map_values(|at: usize| models[at as int]),
            rising_paths(declared_paths(stage)),
            path_views(paths@) == declared_paths(stage),
            roots@.len() == at,
            forall|k: int|
                0 <= k < at ==> #[trigger] roots@[k] == match root_of(stage, k) {
                    Some(root) => root,
                    None => stage.len() as int,
                },
            forall|k: int| 0 <= k < at ==> !#[trigger] dangles(stage, k),
        decreases n - at,
    {
        assert(order@[at as int] < models.len());
        let pair = &pending[order[at]];
        assert(stage[at as int] == (pair.0@, pair.1@));
        match &pair.1 {
            Pending::File { .. } => {
                roots.push(at);
            },
            Pending::HardlinkTo { target_path } => {
                let found = find_path(paths, target_path.as_str().as_bytes());
                let mut root: Option<usize> = None;
                if let Some(j) = found {
                    proof {
                        assert(path_views(paths@).len() == stage.len());
                        assert(path_views(paths@)[j as int] == paths@[j as int]@);
                        assert(declared_paths(stage)[j as int] == stage[j as int].0);
                        same_encoding(stage[j as int].0, target_path@);
                        place_found(stage, target_path@, j as int, 0);
                        assert(order@[j as int] < models.len());
                        assert(stage[j as int] == models[order@[j as int] as int]);
                    }
                    if let Pending::File { .. } = pending[order[j]].1 {
                        root = Some(j);
                    }
                } else {
                    proof {
                        assert(path_views(paths@).len() == stage.len());
                        assert forall|i: int| 0 <= i < stage.len() implies (#[trigger] stage[i]).0
                            != target_path@ by {
                            assert(path_views(paths@)[i] == paths@[i]@);
                            assert(declared_paths(stage)[i] == stage[i].0);
                            assert(encode_utf8(paths@[i]@) != encode_utf8(target_path@));
                        }
                        place_missing(stage, target_path@, 0);
                    }
                }
                match root {
                    Some(j) => {
                        roots.push(j);
                    },
                    None => {
                        assert(dangles(stage, at as int));
                        return None;
                    },
                }
            },
            _ => {
                roots.push(n);
            },
        }
        at += 1;
    }
    Some(roots)
}

pub(crate) proof fn carrier_facts(stage: Seq<Declared>, root: int, k: int, from: int)
    requires
        0 <= from <= k < stage.len(),
        root_of(stage, k) == Some(root),
    ensures
        from <= carrier_from(stage, root, from) <= k,
        root_of(stage, carrier_from(stage, root, from)) == Some(root),
    decreases k - from,
{
    if root_of(stage, from) != Some(root) {
        carrier_facts(stage, root, k, from + 1);
    }
}

proof fn carrier_is_first(stage: Seq<Declared>, root: int, k: int, from: int)
    requires
        0 <= from <= k < stage.len(),
        root_of(stage, k) == Some(root),
        forall|i: int| from <= i < k ==> #[trigger] root_of(stage, i) != Some(root),
    ensures
        carrier_from(stage, root, from) == k,
    decreases k - from,
{
    if from < k {
        assert(root_of(stage, from) != Some(root));
        carrier_is_first(stage, root, k, from + 1);
    }
}

proof fn carriers_grow(stage: Seq<Declared>, low: int, high: int)
    requires
        0 <= low <= high,
    ensures
        carriers_before(stage, low) <= carriers_before(stage, high),
        carriers_before(stage, high) <= high,
    decreases high,
{
    if low < high {
        carriers_grow(stage, low, high - 1);
    } else if high > 0 {
        carriers_grow(stage, high - 1, high - 1);
    }
}

proof fn file_error_stays(stage: Seq<Declared>, low: int, high: int)
    requires
        0 <= low <= high,
        first_file_error(stage, low) is Some,
    ensures
        first_file_error(stage, high) == first_file_error(stage, low),
    decreases high - low,
{
    if low < high {
        file_error_stays(stage, low, high - 1);
    }
}

proof fn sum_error_stays(records: Seq<RecordModel>, low: int, high: int)
    requires
        0 <= low <= high,
        sum_error(records, low) is Some,
    ensures
        sum_error(records, high) == sum_error(records, low),
    decreases high - low,
{
    if low < high {
        sum_error_stays(records, low, high - 1);
    }
}

/// Checks a declared record run.
fn check_staged(records: &Vec<FileRecord>) -> (outcome: Result<(), Tfm1Error>)
    ensures
        match outcome {
            Ok(_) => staged_error(record_models(records@)) is None,
            Err(e) => staged_error(record_models(records@)) == Some(e),
        },
{
    let ghost models = record_models(records@);
    let mut size: u64 = 0;
    let mut at: usize = 0;
    while at < records.len()
        invariant
            at <= records@.len(),
            models == record_models(records@),
            sum_error(models, at as int) is None,
            size == record_sum(models, at as int),
        decreases records@.len() - at,
    {
        let length = records[at].length();
        proof {
            assert(models[at as int] == records@[at as int]@);
            if sum_error(models, at + 1) is Some {
                sum_error_stays(models, at + 1, models.len() as int);
            }
        }
        if length == 0 {
            return Err(Tfm1Error::ZeroLengthRecord);
        }
        match size.checked_add(length) {
            Some(next) => {
                size = next;
            },
            None => {
                return Err(Tfm1Error::LengthSumMismatch);
            },
        }
        at += 1;
    }
    validate_record_run(records, size)
}

/// Every file's size fits in 64 bits.
pub open spec fn files_fit(entries: Seq<(Seq<char>, TreeModel)>) -> bool {
    forall|k: int|
        0 <= k < entries.len() ==> ((#[trigger] entries[k]).1 matches TreeModel::File {
            records,
            ..
        } ==> run_length(records) <= u64::MAX)
}

pub(crate) proof fn no_file_error(stage: Seq<Declared>, k: int, upto: int)
    requires
        0 <= k < upto,
        first_file_error(stage, upto) is None,
        carries(stage, k),
    ensures
        staged_error(stage[root_of(stage, k).unwrap()].1->File_records) is None,
    decreases upto,
{
    if k < upto - 1 {
        no_file_error(stage, k, upto - 1);
    }
}

proof fn staged_files_fit(stage: Seq<Declared>)
    requires
        first_file_error(stage, stage.len() as int) is None,
        forall|k: int| 0 <= k < stage.len() ==> !#[trigger] dangles(stage, k),
    ensures
        files_fit(resolved_entries(stage)),
{
    let entries = resolved_entries(stage);
    assert forall|k: int| 0 <= k < entries.len() implies ((#[trigger] entries[k]).1 matches TreeModel::File {
        records,
        ..
    } ==> run_length(records) <= u64::MAX) by {
        if entries[k].1 is File {
            assert(!dangles(stage, k));
            assert(carries(stage, k));
            no_file_error(stage, k, stage.len() as int);
        }
    }
}

/// Makes the resolved entries, in path order.
fn resolve_entries(
    pending: &Vec<(String, Pending)>,
    order: &Vec<usize>,
    roots: &Vec<usize>,
    Ghost(stage): Ghost<Seq<Declared>>,
) -> (entries: Result<Vec<(String, TreeEntry)>, Tfm1Error>)
    requires
        is_path_order(declared_paths(pending_models(pending@)), order@),
        stage == order@.map_values(|at: usize| pending_models(pending@)[at as int]),
        roots@.len() == stage.len(),
        forall|k: int|
            0 <= k < stage.len() ==> #[trigger] roots@[k] == match root_of(stage, k) {
                Some(root) => root,
                None => stage.len() as int,
            },
        forall|k: int| 0 <= k < stage.len() ==> !#[trigger] dangles(stage, k),
        forall|k: int|
            0 <= k < stage.len() ==> (#[trigger] root_of(stage, k) matches Some(root) ==> 0 <= root
                < stage.len() && stage[root].1 is File),
    ensures
        match entries {
            Ok(e) => first_file_error(stage, stage.len() as int) is None && tree_models(e@)
                == resolved_entries(stage),
            Err(e) => first_file_error(stage, stage.len() as int) == Some(e),
        },
{
    let ghost models = pending_models(pending@);
    let n = order.len();
    let mut carriers: Vec<usize> = Vec::new();
    carriers.resize(n, n);
    let mut ordinals: Vec<u64> = Vec::new();
    ordinals.resize(n, 0);
    let mut files: u64 = 0;
    let mut entries: Vec<(String, TreeEntry)> = Vec::new();
    let mut at: usize = 0;
    while at < n
        invariant
            n == order@.len(),
            n == stage.len(),
            at <= n,
            models == pending_models(pending@),
            is_path_order(declared_paths(models), order@),
            stage == order@.map_values(|at: usize| models[at as int]),
            roots@.len() == n,
            forall|k: int|
                0 <= k < n ==> #[trigger] roots@[k] == match root_of(stage, k) {
                    Some(root) => root,
                    None => stage.len() as int,
                },
            forall|k: int| 0 <= k < n ==> !#[trigger] dangles(stage, k),
            forall|k: int|
                0 <= k < n ==> (#[trigger] root_of(stage, k) matches Some(root) ==> 0 <= root < n
                    && stage[root].1 is File),
            carriers@.len() == n,
            ordinals@.len() == n,
            files == carriers_before(stage, at as int),
            files <= at,
            forall|r: int|
                0 <= r < n ==> #[trigger] carriers@[r] == n || (carriers@[r] < at && carrier(
                    stage,
                    r,
                ) == carriers@[r] && ordinals@[r] == carriers_before(stage, carriers@[r] as int)),
            forall|r: int, k: int|
                0 <= r < n && 0 <= k < at && carriers@[r] == n ==> #[trigger] root_of(stage, k)
                    != Some(r) || #[trigger] carriers@[r] != n,
            first_file_error(stage, at as int) is None,
            entries@.len() == at,
            forall|k: int|
                0 <= k < at ==> (#[trigger] entries@[k]).0@ == stage[k].0 && entries@[k].1@
                    == resolved_entry(stage, k),
        decreases n - at,
    {
        assert(order@[at as int] < models.len());
        let pair = &pending[order[at]];
        let r = roots[at];
        proof {
            assert(stage[at as int] == (pair.0@, pair.1@));
            assert(!dangles(stage, at as int));
            if first_file_error(stage, at + 1) is Some {
                file_error_stays(stage, at + 1, n as int);
            }
        }
        let entry = match &pair.1 {
            Pending::Directory => TreeEntry::Directory,
            Pending::Symlink { target } => TreeEntry::Symlink { target: target.clone() },
            _ => {
                proof {
                    assert(root_of(stage, at as int) == Some(r as int));
                    assert(r < n);
                }
                if carriers[r] < n {
                    TreeEntry::Hardlink { ordinal: ordinals[r] }
                } else {
                    proof {
                        assert forall|i: int| 0 <= i < at implies #[trigger] root_of(stage, i)
                            != Some(r as int) by {
                            assert(carriers@[r as int] == n);
                        }
                        carrier_is_first(stage, r as int, at as int, 0);
                        assert(carries(stage, at as int));
                        assert(order@[r as int] < models.len());
                        assert(stage[r as int] == models[order@[r as int] as int]);
                    }
                    let file = &pending[order[r]].1;
                    let entry = match file {
                        Pending::File { executable, planner, contract, records } => {
                            match check_staged(records) {
                                Ok(_) => {},
                                Err(error) => {
                                    return Err(error);
                                },
                            }
                            TreeEntry::File {
                                executable: *executable,
                                planner: *planner,
                                contract: contract.clone(),
                                records: vstd::slice::slice_to_vec(records),
                            }
                        },
                        _ => TreeEntry::Directory,
                    };
                    carriers[r] = at;
                    ordinals[r] = files;
                    files = files + 1;
                    entry
                }
            },
        };
        entries.push((pair.0.clone(), entry));
        at += 1;
    }
    assert(tree_models(entries@) =~= resolved_entries(stage));
    Ok(entries)
}

pub(crate) proof fn roots_are_files(stage: Seq<Declared>, k: int)
    requires
        0 <= k < stage.len(),
    ensures
        root_of(stage, k) matches Some(root) ==> 0 <= root < stage.len() && stage[root].1 is File,
{
    match stage[k].1 {
        PendingModel::HardlinkTo { target } => {
            place_is_positive(stage, target, 0);
        },
        _ => {},
    }
}

proof fn place_is_positive(stage: Seq<Declared>, path: Seq<char>, from: int)
    requires
        0 <= from,
    ensures
        place_of(stage, path, from) >= from,
    decreases stage.len() - from,
{
    if from < stage.len() && stage[from].0 != path {
        place_is_positive(stage, path, from + 1);
    }
}

// ---------------------------------------------------------------------------
// The builder
// ---------------------------------------------------------------------------

/// The resolved, validated tree whose files are still record runs.
#[derive(Debug, PartialEq, Eq)]
pub struct HeadTree {
    entries: Vec<(String, TreeEntry)>,
}

impl View for HeadTree {
    type V = Seq<(Seq<char>, TreeModel)>;

    closed spec fn view(&self) -> Seq<(Seq<char>, TreeModel)> {
        tree_models(self.entries@)
    }
}

/// The number of regular files among the first `upto` entries.
pub open spec fn tree_files_before(entries: Seq<(Seq<char>, TreeModel)>, upto: int) -> nat
    decreases upto,
{
    if upto <= 0 {
        0
    } else {
        tree_files_before(entries, upto - 1) + if entries[upto - 1].1 is File {
            1nat
        } else {
            0nat
        }
    }
}

impl HeadTree {
    pub fn entries(&self) -> (entries: &[(String, TreeEntry)])
        ensures
            tree_models(entries@) == self@,
    {
        &self.entries
    }

    /// Resolves a hardlink ordinal to the carrier path, in ordinal order.
    pub fn ordinal_path(&self, ordinal: u64) -> (path: Option<&str>)
        ensures
            match path {
                Some(p) => exists|i: int|
                    0 <= i < self@.len() && (#[trigger] self@[i]).1 is File && tree_files_before(
                        self@,
                        i,
                    ) == ordinal && p@ == self@[i].0,
                None => ordinal >= tree_files_before(self@, self@.len() as int),
            },
    {
        let ghost models = self@;
        let mut seen: u64 = 0;
        let mut at: usize = 0;
        while at < self.entries.len()
            invariant
                at <= self.entries@.len(),
                models == tree_models(self.entries@),
                models == self@,
                seen == tree_files_before(models, at as int),
                seen <= ordinal,
                seen <= at,
            decreases self.entries@.len() - at,
        {
            let pair = &self.entries[at];
            assert(models[at as int] == (pair.0@, pair.1@));
            if let TreeEntry::File { .. } = pair.1 {
                if seen == ordinal {
                    return Some(pair.0.as_str());
                }
                seen += 1;
            }
            at += 1;
        }
        None
    }
}

/// The sole manifest writer. Its inputs are pure tree facts.
#[derive(Debug, PartialEq, Eq)]
pub struct SnapshotBuilder {
    parent: Option<SnapshotId>,
    pending: Vec<(String, Pending)>,
}

/// The value of a [`SnapshotBuilder`].
#[verifier::ext_equal]
pub struct BuilderModel {
    pub parent: Option<Seq<u8>>,
    pub pending: Seq<Declared>,
}

impl View for SnapshotBuilder {
    type V = BuilderModel;

    closed spec fn view(&self) -> BuilderModel {
        BuilderModel {
            parent: parent_model(self.parent),
            pending: pending_models(self.pending@),
        }
    }
}

impl BuilderModel {
    /// The builder with one more declaration.
    pub open spec fn declaring(self, path: Seq<char>, entry: PendingModel) -> BuilderModel {
        BuilderModel { pending: self.pending.push((path, entry)), ..self }
    }
}

impl SnapshotBuilder {
    pub fn new(parent: Option<SnapshotId>) -> (builder: Self)
        ensures
            builder@ == (BuilderModel { parent: parent_model(parent), pending: Seq::empty() }),
    {
        let builder = SnapshotBuilder { parent, pending: Vec::new() };
        assert(builder@.pending =~= Seq::empty());
        builder
    }

    fn declare(&mut self, path: String, entry: Pending)
        ensures
            final(self)@ == old(self)@.declaring(path@, entry@),
    {
        let ghost before = pending_models(self.pending@);
        let ghost model = (path@, entry@);
        self.pending.push((path, entry));
        assert(pending_models(self.pending@) =~= before.push(model));
    }

    /// Declares a directory.
    pub fn directory(&mut self, path: String)
        ensures
            final(self)@ == old(self)@.declaring(path@, PendingModel::Directory),
    {
        self.declare(path, Pending::Directory);
    }

    /// Declares one regular file by a planner and an ordered record run.
    pub fn file(
        &mut self,
        path: String,
        executable: bool,
        planner: PlannerId,
        records: Vec<FileRecord>,
    )
        ensures
            final(self)@ == old(self)@.declaring(
                path@,
                PendingModel::File {
                    executable,
                    planner,
                    contract: StampModel::Absent,
                    records: record_models(records@),
                },
            ),
    {
        self.file_under(path, executable, planner, Stamp::Absent, records);
    }

    /// Declares one regular file, stamped with the layout contract that
    /// directed its chunking.
    pub fn file_under(
        &mut self,
        path: String,
        executable: bool,
        planner: PlannerId,
        contract: Stamp,
        records: Vec<FileRecord>,
    )
        ensures
            final(self)@ == old(self)@.declaring(
                path@,
                PendingModel::File {
                    executable,
                    planner,
                    contract: contract@,
                    records: record_models(records@),
                },
            ),
    {
        self.declare(path, Pending::File { executable, planner, contract, records });
    }

    /// Declares a symlink.
    pub fn symlink(&mut self, path: String, target: String)
        ensures
            final(self)@ == old(self)@.declaring(path@, PendingModel::Symlink { target: target@ }),
    {
        self.declare(path, Pending::Symlink { target });
    }

    /// Declares `path` as a hardlink of the regular file at `target_path`.
    pub fn hardlink(&mut self, path: String, target_path: String)
        ensures
            final(self)@ == old(self)@.declaring(
                path@,
                PendingModel::HardlinkTo { target: target_path@ },
            ),
    {
        self.declare(path, Pending::HardlinkTo { target_path });
    }

    /// Resolves the declared entries into the validated tree.
    fn resolve(self) -> (entries: Result<Vec<(String, TreeEntry)>, Tfm1Error>)
        ensures
            match entries {
                Ok(e) => resolved(self@.pending) == Ok::<Seq<(Seq<char>, TreeModel)>, Tfm1Error>(
                    tree_models(e@),
                ) && files_fit(tree_models(e@)),
                Err(e) => resolved(self@.pending) == Err::<Seq<(Seq<char>, TreeModel)>, Tfm1Error>(
                    e,
                ),
            },
    {
        let ghost models = self@.pending;
        let order = stage_order(&self.pending)?;
        let ghost stage = staged(models);
        proof {
            staged_is(models, order@);
            assert forall|k: int| 0 <= k < stage.len() implies (#[trigger] root_of(stage, k) matches Some(
                root,
            ) ==> 0 <= root < stage.len() && stage[root].1 is File) by {
                roots_are_files(stage, k);
            }
        }
        let paths = ordered_paths(&self.pending, &order, Ghost(stage));
        let roots = match find_roots(&self.pending, &order, &paths, Ghost(stage)) {
            Some(roots) => roots,
            None => {
                return Err(Tfm1Error::HardlinkTarget);
            },
        };
        let entries = resolve_entries(&self.pending, &order, &roots, Ghost(stage))?;
        let ghost trees = tree_models(entries@);
        let directories = directories_among(&entries);
        proof {
            assert(tree_paths(trees) =~= declared_paths(stage));
            assert(trees == resolved_entries(stage));
            staged_files_fit(stage);
        }
        validate_tree(&paths, &directories)?;
        Ok(entries)
    }

    /// Finishes as the staging tree, without canonicalizing file bodies.
    pub fn finish_tree(self) -> (tree: Result<HeadTree, Tfm1Error>)
        ensures
            match tree {
                Ok(t) => resolved(self@.pending) == Ok::<Seq<(Seq<char>, TreeModel)>, Tfm1Error>(
                    t@,
                ),
                Err(e) => resolved(self@.pending) == Err::<Seq<(Seq<char>, TreeModel)>, Tfm1Error>(
                    e,
                ),
            },
    {
        let entries = self.resolve()?;
        Ok(HeadTree { entries })
    }

    /// What is declared is what the manifest can carry.
    fn stays_encodable(&self)
        ensures
            encodable(self@),
    {
        let ghost pending = self@.pending;
        let mut at: usize = 0;
        while at < self.pending.len()
            invariant
                at <= self.pending@.len(),
                pending == pending_models(self.pending@),
                forall|i: int|
                    0 <= i < at ==> ((#[trigger] pending[i]).1 matches PendingModel::File {
                        contract,
                        records,
                        ..
                    } ==> carried(contract) && whole_digests(records)),
            decreases self.pending@.len() - at,
        {
            if let Pending::File { contract, records, .. } = &self.pending[at].1 {
                contract.stays_usable();
                proof {
                    let models = record_models(records@);
                    assert forall|i: int| 0 <= i < models.len() implies ((
                    #[trigger] models[i]) matches RecordModel::Data { digest, .. } ==> digest.len()
                        == 32) by {
                        if let FileRecord::Data { digest, .. } = records@[i] {
                            digest.is_whole();
                        }
                    }
                }
            }
            at += 1;
        }
        proof {
            if let Some(parent) = self.parent {
                parent.is_whole();
            }
        }
    }

    /// Finishes as one canonical snapshot, canonicalizing every file body:
    /// tensor planners keep their record list; a blob is empty or exactly one
    /// whole-file data record.
    pub fn finish(self) -> (snapshot: Result<Snapshot, Tfm1Error>)
        ensures
            match snapshot {
                Ok(s) => finished(self@) == Ok::<SnapshotModel, Tfm1Error>(s@) && valid(s@),
                Err(e) => finished(self@) == Err::<SnapshotModel, Tfm1Error>(e),
            },
    {
        let parent = self.parent;
        let ghost model = self@;
        self.stays_encodable();
        let tree = self.resolve()?;
        let entries = canonicalize(&tree)?;
        proof {
            finished_is_valid(model);
        }
        Ok(Snapshot { parent, entries })
    }
}

/// Canonicalizes every file body of a resolved tree.
fn canonicalize(tree: &Vec<(String, TreeEntry)>) -> (entries: Result<
    Vec<(String, Entry)>,
    Tfm1Error,
>)
    requires
        files_fit(tree_models(tree@)),
    ensures
        match entries {
            Ok(e) => canonical_entries(tree_models(tree@), tree@.len() as int) == Ok::<
                Seq<(Seq<char>, EntryModel)>,
                Tfm1Error,
            >(entry_models(e@)),
            Err(e) => canonical_entries(tree_models(tree@), tree@.len() as int) == Err::<
                Seq<(Seq<char>, EntryModel)>,
                Tfm1Error,
            >(e),
        },
{
    let ghost trees = tree_models(tree@);
    let mut entries: Vec<(String, Entry)> = Vec::new();
    let mut at: usize = 0;
    assert(entry_models(entries@) =~= Seq::<(Seq<char>, EntryModel)>::empty());
    while at < tree.len()
        invariant
            at <= tree@.len(),
            trees == tree_models(tree@),
            files_fit(trees),
            canonical_entries(trees, at as int) == Ok::<Seq<(Seq<char>, EntryModel)>, Tfm1Error>(
                entry_models(entries@),
            ),
        decreases tree@.len() - at,
    {
        let pair = &tree[at];
        assert(trees[at as int] == (pair.0@, pair.1@));
        let ghost before = entry_models(entries@);
        let entry = match canonical_entry_of(&pair.1) {
            Ok(entry) => entry,
            Err(error) => {
                proof {
                    canonical_error_stays(trees, at + 1, trees.len() as int);
                }
                return Err(error);
            },
        };
        let ghost made = (pair.0@, entry@);
        entries.push((pair.0.clone(), entry));
        assert(entry_models(entries@) =~= before.push(made));
        at += 1;
    }
    Ok(entries)
}

/// The paths in path order.
fn ordered_paths(
    pending: &Vec<(String, Pending)>,
    order: &Vec<usize>,
    Ghost(stage): Ghost<Seq<Declared>>,
) -> (paths: Vec<String>)
    requires
        is_path_order(declared_paths(pending_models(pending@)), order@),
        stage == order@.map_values(|at: usize| pending_models(pending@)[at as int]),
    ensures
        path_views(paths@) == declared_paths(stage),
{
    let ghost models = pending_models(pending@);
    let mut paths: Vec<String> = Vec::new();
    let mut at: usize = 0;
    while at < order.len()
        invariant
            at <= order@.len(),
            models == pending_models(pending@),
            is_path_order(declared_paths(models), order@),
            stage == order@.map_values(|at: usize| models[at as int]),
            paths@.len() == at,
            forall|i: int| 0 <= i < at ==> (#[trigger] paths@[i])@ == stage[i].0,
        decreases order@.len() - at,
    {
        assert(order@[at as int] < models.len());
        paths.push(pending[order[at]].0.clone());
        at += 1;
    }
    assert(path_views(paths@) =~= declared_paths(stage));
    paths
}

fn directories_among(entries: &Vec<(String, TreeEntry)>) -> (directories: Vec<bool>)
    ensures
        directories@ == tree_directories(tree_models(entries@)),
{
    let ghost models = tree_models(entries@);
    let mut directories: Vec<bool> = Vec::new();
    let mut at: usize = 0;
    while at < entries.len()
        invariant
            at <= entries@.len(),
            models == tree_models(entries@),
            directories@.len() == at,
            forall|i: int| 0 <= i < at ==> #[trigger] directories@[i] == (models[i].1 is Directory),
        decreases entries@.len() - at,
    {
        assert(models[at as int].1 == entries@[at as int].1@);
        directories.push(
            match entries[at].1 {
                TreeEntry::Directory => true,
                _ => false,
            },
        );
        at += 1;
    }
    assert(directories@ =~= tree_directories(models));
    directories
}

// ---------------------------------------------------------------------------
// Canonical bodies
// ---------------------------------------------------------------------------

/// The canonical body of a staged file.
pub open spec fn canonical_body_of(
    planner: PlannerId,
    contract: StampModel,
    records: Seq<RecordModel>,
) -> Result<BodyModel, Tfm1Error> {
    match planner.format() {
        Some(format) => {
            let logical_size = run_length(records) as u64;
            match records_error(records, logical_size) {
                Some(error) => Err(error),
                None => Ok(BodyModel::Tensor { format, contract, logical_size, records }),
            }
        },
        None => if records.len() == 0 {
            Ok(BodyModel::Blob { logical_size: 0, digest: EMPTY_BLOB_DIGEST@ })
        } else if records.len() == 1 && records[0] is Data {
            Ok(
                BodyModel::Blob {
                    logical_size: records[0].length(),
                    digest: records[0]->Data_digest,
                },
            )
        } else {
            Err(Tfm1Error::BlobRecords)
        },
    }
}

/// The canonical entry of a resolved entry.
pub open spec fn canonical_entry(entry: TreeModel) -> Result<EntryModel, Tfm1Error> {
    match entry {
        TreeModel::Directory => Ok(EntryModel::Directory),
        TreeModel::Symlink { target } => Ok(EntryModel::Symlink { target }),
        TreeModel::Hardlink { ordinal } => Ok(EntryModel::Hardlink { ordinal }),
        TreeModel::File { executable, planner, contract, records } => match canonical_body_of(
            planner,
            contract,
            records,
        ) {
            Ok(body) => Ok(EntryModel::File { executable, body }),
            Err(error) => Err(error),
        },
    }
}

/// The canonical entries of the first `upto` resolved entries.
pub open spec fn canonical_entries(entries: Seq<(Seq<char>, TreeModel)>, upto: int) -> Result<
    Seq<(Seq<char>, EntryModel)>,
    Tfm1Error,
>
    decreases upto,
{
    if upto <= 0 {
        Ok(Seq::empty())
    } else {
        match canonical_entries(entries, upto - 1) {
            Err(error) => Err(error),
            Ok(done) => match canonical_entry(entries[upto - 1].1) {
                Err(error) => Err(error),
                Ok(entry) => Ok(done.push((entries[upto - 1].0, entry))),
            },
        }
    }
}

/// What finishing a builder gives.
pub open spec fn finished(builder: BuilderModel) -> Result<SnapshotModel, Tfm1Error> {
    match resolved(builder.pending) {
        Err(error) => Err(error),
        Ok(entries) => match canonical_entries(entries, entries.len() as int) {
            Err(error) => Err(error),
            Ok(done) => Ok(SnapshotModel { parent: builder.parent, entries: done }),
        },
    }
}

proof fn canonical_error_stays(entries: Seq<(Seq<char>, TreeModel)>, low: int, high: int)
    requires
        0 <= low <= high,
        canonical_entries(entries, low) is Err,
    ensures
        canonical_entries(entries, high) == canonical_entries(entries, low),
    decreases high - low,
{
    if low < high {
        canonical_error_stays(entries, low, high - 1);
    }
}

/// The total length of a record run, when it fits in 64 bits.
pub fn records_length(records: &[FileRecord]) -> (size: Result<u64, Tfm1Error>)
    ensures
        match size {
            Ok(s) => s == run_length(record_models(records@)),
            Err(e) => e == Tfm1Error::LengthSumMismatch && run_length(record_models(records@))
                > u64::MAX,
        },
{
    let ghost models = record_models(records@);
    let mut size: u64 = 0;
    let mut at: usize = 0;
    while at < records.len()
        invariant
            at <= records@.len(),
            models == record_models(records@),
            size == record_sum(models, at as int),
        decreases records@.len() - at,
    {
        proof {
            assert(models[at as int] == records@[at as int]@);
            record_sum_grows(models, at + 1, models.len() as int);
        }
        match size.checked_add(records[at].length()) {
            Some(next) => {
                size = next;
            },
            None => {
                return Err(Tfm1Error::LengthSumMismatch);
            },
        }
        at += 1;
    }
    Ok(size)
}

/// Makes the canonical body of a staged file.
pub fn canonical_body(planner: PlannerId, contract: &Stamp, records: &Vec<FileRecord>) -> (body:
    Result<FileBody, Tfm1Error>)
    requires
        run_length(record_models(records@)) <= u64::MAX,
    ensures
        match body {
            Ok(b) => canonical_body_of(planner, contract@, record_models(records@)) == Ok::<
                BodyModel,
                Tfm1Error,
            >(b@),
            Err(e) => canonical_body_of(planner, contract@, record_models(records@)) == Err::<
                BodyModel,
                Tfm1Error,
            >(e),
        },
{
    match planner.tensor_format() {
        Some(format) => {
            let logical_size: u64 = records_length(records)?;
            validate_records(records, logical_size)?;
            Ok(
                FileBody::Tensor {
                    format,
                    contract: contract.clone(),
                    logical_size,
                    records: vstd::slice::slice_to_vec(records),
                },
            )
        },
        None => {
            if records.len() == 0 {
                return Ok(
                    FileBody::Blob {
                        logical_size: 0,
                        digest: ObjectDigest::from_bytes(EMPTY_BLOB_DIGEST),
                    },
                );
            }
            assert(record_models(records@)[0] == records@[0]@);
            if records.len() == 1 {
                if let FileRecord::Data { digest, length } = records[0] {
                    return Ok(FileBody::Blob { logical_size: length, digest });
                }
            }
            Err(Tfm1Error::BlobRecords)
        },
    }
}

fn canonical_entry_of(entry: &TreeEntry) -> (canonical: Result<Entry, Tfm1Error>)
    requires
        entry@ matches TreeModel::File { records, .. } ==> run_length(records) <= u64::MAX,
    ensures
        match canonical {
            Ok(c) => canonical_entry(entry@) == Ok::<EntryModel, Tfm1Error>(c@),
            Err(e) => canonical_entry(entry@) == Err::<EntryModel, Tfm1Error>(e),
        },
{
    match entry {
        TreeEntry::Directory => Ok(Entry::Directory),
        TreeEntry::Symlink { target } => Ok(Entry::Symlink { target: target.clone() }),
        TreeEntry::Hardlink { ordinal } => Ok(Entry::Hardlink { ordinal: *ordinal }),
        TreeEntry::File { executable, planner, contract, records } => {
            let body = canonical_body(*planner, contract, records)?;
            Ok(Entry::File { executable: *executable, body })
        },
    }
}

// ---------------------------------------------------------------------------
// What is built is valid
// ---------------------------------------------------------------------------

/// Declarations that the manifest can carry: every digest is whole, and every
/// stamp is one that a contract gives.
pub open spec fn encodable(builder: BuilderModel) -> bool {
    &&& (builder.parent matches Some(parent) ==> parent.len() == 32)
    &&& builder.pending.len() <= usize::MAX
    &&& forall|i: int|
        0 <= i < builder.pending.len() ==> ((#[trigger] builder.pending[i]).1 matches PendingModel::File {
            contract,
            records,
            ..
        } ==> carried(contract) && whole_digests(records))
}

pub(crate) proof fn no_declared_error(pending: Seq<Declared>, i: int, upto: int)
    requires
        0 <= i < upto,
        first_declared_error(pending, upto) is None,
    ensures
        declared_error(pending, i) is None,
    decreases upto,
{
    if i < upto - 1 {
        no_declared_error(pending, i, upto - 1);
    }
}

proof fn no_sum_error(records: Seq<RecordModel>, i: int, upto: int)
    requires
        0 <= i < upto,
        sum_error(records, upto) is None,
    ensures
        records[i].length() > 0,
    decreases upto,
{
    if i < upto - 1 {
        no_sum_error(records, i, upto - 1);
    }
}

pub(crate) proof fn canonical_entries_are(entries: Seq<(Seq<char>, TreeModel)>, upto: int)
    requires
        0 <= upto,
        canonical_entries(entries, upto) is Ok,
    ensures
        ({
            let done = canonical_entries(entries, upto)->Ok_0;
            &&& done.len() == upto
            &&& forall|k: int|
                0 <= k < upto ==> (#[trigger] done[k]).0 == entries[k].0 && canonical_entry(
                    entries[k].1,
                ) == Ok::<EntryModel, Tfm1Error>(done[k].1)
        }),
    decreases upto,
{
    if upto > 0 {
        canonical_entries_are(entries, upto - 1);
    }
}

pub(crate) proof fn carriers_are_files(
    stage: Seq<Declared>,
    done: Seq<(Seq<char>, EntryModel)>,
    upto: int,
)
    requires
        0 <= upto <= stage.len(),
        done.len() == stage.len(),
        forall|k: int| 0 <= k < stage.len() ==> !#[trigger] dangles(stage, k),
        forall|k: int|
            0 <= k < done.len() ==> canonical_entry(resolved_entry(stage, k)) == Ok::<
                EntryModel,
                Tfm1Error,
            >((#[trigger] done[k]).1),
    ensures
        files_before(done, upto) == carriers_before(stage, upto),
    decreases upto,
{
    if upto > 0 {
        carriers_are_files(stage, done, upto - 1);
        let k = upto - 1;
        assert(!dangles(stage, k));
        assert(canonical_entry(resolved_entry(stage, k)) == Ok::<EntryModel, Tfm1Error>(done[k].1));
    }
}

/// One entry of a built snapshot is valid.
proof fn built_entry_is_valid(
    pending: Seq<Declared>,
    stage: Seq<Declared>,
    order: Seq<usize>,
    done: Seq<(Seq<char>, EntryModel)>,
    k: int,
)
    requires
        is_path_order(declared_paths(pending), order),
        stage == order.map_values(|at: usize| pending[at as int]),
        first_declared_error(pending, pending.len() as int) is None,
        first_file_error(stage, stage.len() as int) is None,
        forall|k: int| 0 <= k < stage.len() ==> !#[trigger] dangles(stage, k),
        stage.len() <= u64::MAX,
        done.len() == stage.len(),
        forall|k: int|
            0 <= k < done.len() ==> canonical_entry(resolved_entry(stage, k)) == Ok::<
                EntryModel,
                Tfm1Error,
            >((#[trigger] done[k]).1),
        forall|i: int|
            0 <= i < pending.len() ==> ((#[trigger] pending[i]).1 matches PendingModel::File {
                contract,
                records,
                ..
            } ==> carried(contract) && whole_digests(records)),
        0 <= k < stage.len(),
    ensures
        path_error(stage[k].0) is None,
        valid_entry(done[k].1, files_before(done, k)),
{
    assert(order[k] < declared_paths(pending).len());
    assert(stage[k] == pending[order[k] as int]);
    no_declared_error(pending, order[k] as int, pending.len() as int);
    carriers_are_files(stage, done, k);
    assert(!dangles(stage, k));
    assert(canonical_entry(resolved_entry(stage, k)) == Ok::<EntryModel, Tfm1Error>(done[k].1));
    if root_of(stage, k) is Some {
        let root = root_of(stage, k).unwrap();
        roots_are_files(stage, k);
        assert(order[root] < declared_paths(pending).len());
        assert(stage[root] == pending[order[root] as int]);
        let records = stage[root].1->File_records;
        if carries(stage, k) {
            no_file_error(stage, k, stage.len() as int);
            if records.len() == 1 {
                no_sum_error(records, 0, 1);
            }
        } else {
            carrier_facts(stage, root, k, 0);
            let first = carrier(stage, root);
            assert(carries(stage, first));
            carriers_grow(stage, first + 1, k);
            carriers_grow(stage, first, k);
        }
    }
}

/// What is built from declarations that the manifest can carry is a valid
/// snapshot.
pub proof fn finished_is_valid(builder: BuilderModel)
    requires
        encodable(builder),
        finished(builder) is Ok,
    ensures
        valid(finished(builder)->Ok_0),
{
    let pending = builder.pending;
    let paths = declared_paths(pending);
    assert forall|i: int, j: int| 0 <= j < i < paths.len() implies #[trigger] paths[j]
        != #[trigger] paths[i] by {
        no_declared_error(pending, i, pending.len() as int);
        assert(paths[i] == pending[i].0 && paths[j] == pending[j].0);
    }
    let keys = path_encodings(paths);
    assert forall|i: int, j: int| 0 <= j < i < keys.len() implies #[trigger] keys[j]
        != #[trigger] keys[i] by {
        if keys[j] == keys[i] {
            same_encoding(paths[j], paths[i]);
        }
    }
    let order = distinct_keys_order(keys);
    staged_is(pending, order);
    let stage = staged(pending);
    let entries = resolved_entries(stage);
    let done = canonical_entries(entries, entries.len() as int)->Ok_0;
    canonical_entries_are(entries, entries.len() as int);
    assert forall|k: int| 0 <= k < stage.len() implies !#[trigger] dangles(stage, k) by {}
    assert forall|k: int| 0 <= k < done.len() implies canonical_entry(resolved_entry(stage, k))
        == Ok::<EntryModel, Tfm1Error>((#[trigger] done[k]).1) by {
        assert(entries[k].1 == resolved_entry(stage, k));
    }
    assert forall|k: int| 0 <= k < done.len() implies path_error((#[trigger] done[k]).0) is None
        && valid_entry(done[k].1, files_before(done, k)) by {
        assert(done[k].0 == entries[k].0 && entries[k].0 == stage[k].0);
        built_entry_is_valid(pending, stage, order, done, k);
    }
    assert(paths_of(done) =~= declared_paths(stage)) by {
        assert forall|k: int| 0 <= k < done.len() implies paths_of(done)[k] == declared_paths(
            stage,
        )[k] by {
            assert(done[k].0 == entries[k].0);
        }
    }
    assert(tree_paths(entries) =~= declared_paths(stage));
    assert(directories_of(done) =~= tree_directories(entries)) by {
        assert forall|k: int| 0 <= k < done.len() implies directories_of(done)[k]
            == tree_directories(entries)[k] by {
            assert(canonical_entry(entries[k].1) == Ok::<EntryModel, Tfm1Error>(done[k].1));
        }
    }
}

} // verus!
