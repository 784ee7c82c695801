//! What a built snapshot holds of what was declared.

use super::builder::{
    canonical_entries, canonical_entries_are, canonical_entry, carrier, carrier_facts,
    carriers_are_files, carries, dangles, declared_paths, finished, first_declared_error,
    no_declared_error, no_file_error, path_encodings, place_found, place_of, resolved_entries,
    resolved_entry, root_of, roots_are_files, staged, staged_is, BuilderModel, Declared,
    PendingModel,
};
use super::tree::{rising_is_distinct, rising_paths, same_encoding};
use super::decode::paths_of;
use super::{files_before, record_sum, BodyModel, EntryModel, RecordModel, Tfm1Error};
use crate::contract::StampModel;
use crate::planner::PlannerId;
use crate::sort::distinct_keys_order;
use crate::text::{bytes_less, bytes_less_irreflexive, bytes_less_transitive};
use vstd::prelude::*;
use vstd::utf8::encode_utf8;

verus! {

/// Whether a declaration is of the file that the declaration `file` is of: it is
/// that declaration, or a hardlink to its path.
pub open spec fn is_of(pending: Seq<Declared>, file: int, other: int) -> bool {
    other == file || pending[other].1 == (PendingModel::HardlinkTo { target: pending[file].0 })
}

/// How long records are together.
pub open spec fn length_together(records: Seq<RecordModel>) -> int
    decreases records.len(),
{
    if records.len() == 0 {
        0
    } else {
        length_together(records.drop_last()) + records.last().length()
    }
}

/// Whether an entry is the file with these attributes.
pub open spec fn is_the_file(
    entry: EntryModel,
    executable: bool,
    planner: PlannerId,
    contract: StampModel,
    records: Seq<RecordModel>,
) -> bool {
    entry is File && entry->File_executable == executable && match entry->File_body {
        BodyModel::Tensor { format, contract: stamp, logical_size, records: held } => {
            &&& planner.format() == Some(format)
            &&& stamp == contract
            &&& held == records
            &&& logical_size == length_together(records)
        },
        BodyModel::Blob { logical_size, digest } => {
            &&& planner.format() is None
            &&& logical_size == length_together(records)
            &&& records.len() <= 1
            &&& records.len() == 1 ==> records[0] == RecordModel::Data {
                length: logical_size,
                digest,
            }
        },
    }
}

/// The places of the tree that a declaration speaks of: its own, and the place of
/// the file that it is of.
pub struct Places {
    pub own: int,
    pub file: int,
    pub first: int,
}

proof fn a_stage_holds_every_declaration(pending: Seq<Declared>) -> (order: Seq<usize>)
    requires
        pending.len() <= usize::MAX,
        first_declared_error(pending, pending.len() as int) is None,
    ensures
        rising_paths(declared_paths(staged(pending))),
        order.len() == pending.len(),
        staged(pending).len() == pending.len(),
        forall|k: int|
            0 <= k < order.len() ==> #[trigger] order[k] < pending.len() && staged(pending)[k]
                == pending[order[k] as int],
        forall|x: usize| x < pending.len() ==> #[trigger] order.contains(x),
{
    let paths = declared_paths(pending);
    assert forall|i: int, j: int| 0 <= j < i < paths.len() implies #[trigger] paths[j]
        != #[trigger] paths[i] by {
        no_declared_error(pending, i, pending.len() as int);
        assert(paths[i] == pending[i].0 && paths[j] == pending[j].0);
    }
    let keys = path_encodings(paths);
    assert forall|i: int, j: int| 0 <= j < i < keys.len() implies #[trigger] keys[j]
        != #[trigger] keys[i] by {
        if keys[j] == keys[i] {
            same_encoding(paths[j], paths[i]);
        }
    }
    let order = distinct_keys_order(keys);
    staged_is(pending, order);
    assert forall|k: int| 0 <= k < order.len() implies #[trigger] order[k] < pending.len()
        && staged(pending)[k] == pending[order[k] as int] by {
        assert(order[k] < keys.len());
    }
    order
}

proof fn a_root_is_a_file(stage: Seq<Declared>, k: int)
    requires
        rising_paths(declared_paths(stage)),
        0 <= k < stage.len(),
        !dangles(stage, k),
        stage[k].1 is File || stage[k].1 is HardlinkTo,
    ensures
        root_of(stage, k) is Some,
        ({
            let root = root_of(stage, k)->Some_0;
            &&& 0 <= root < stage.len()
            &&& stage[root].1 is File
            &&& root == k || stage[k].1 == (PendingModel::HardlinkTo { target: stage[root].0 })
        }),
{
    roots_are_files(stage, k);
    match stage[k].1 {
        PendingModel::HardlinkTo { target } => {
            place_holds(stage, target, 0);
        },
        _ => {},
    }
}

proof fn place_holds(stage: Seq<Declared>, path: Seq<char>, from: int)
    requires
        0 <= from,
    ensures
        place_of(stage, path, from) < stage.len()
            ==> stage[place_of(stage, path, from)].0 == path,
    decreases stage.len() - from,
{
    if from < stage.len() && stage[from].0 != path {
        place_holds(stage, path, from + 1);
    }
}

pub(crate) proof fn lengths_add_up(records: Seq<RecordModel>, upto: int)
    requires
        0 <= upto <= records.len(),
    ensures
        record_sum(records, upto) == length_together(records.take(upto)),
    decreases upto,
{
    if upto > 0 {
        lengths_add_up(records, upto - 1);
        assert(records.take(upto).drop_last() =~= records.take(upto - 1));
    }
}

/// A snapshot holds each declaration under its path, the paths in rising order. A
/// file with several paths stands whole under the first of them, whichever it was
/// declared under, and each other path is a hardlink that counts the files before
/// that one.
pub proof fn a_snapshot_holds_what_was_declared(builder: BuilderModel, i: int) -> (at: Places)
    requires
        builder.pending.len() <= usize::MAX,
        finished(builder) is Ok,
        0 <= i < builder.pending.len(),
    ensures
        ({
            let pending = builder.pending;
            let tree = finished(builder)->Ok_0.entries;
            &&& finished(builder)->Ok_0.parent == builder.parent
            &&& tree.len() == pending.len()
            &&& rising_paths(paths_of(tree))
            &&& 0 <= at.own < tree.len()
            &&& tree[at.own].0 == pending[i].0
            &&& match pending[i].1 {
                PendingModel::Directory => tree[at.own].1 is Directory,
                PendingModel::Symlink { target } => tree[at.own].1 == (EntryModel::Symlink {
                    target,
                }),
                _ => {
                    &&& 0 <= at.file < pending.len()
                    &&& pending[at.file].1 is File
                    &&& is_of(pending, at.file, i)
                    &&& 0 <= at.first <= at.own
                    &&& is_the_file(
                        tree[at.first].1,
                        pending[at.file].1->File_executable,
                        pending[at.file].1->File_planner,
                        pending[at.file].1->File_contract,
                        pending[at.file].1->File_records,
                    )
                    &&& exists|d: int|
                        0 <= d < pending.len() && #[trigger] is_of(pending, at.file, d)
                            && pending[d].0 == tree[at.first].0
                    &&& forall|d: int|
                        0 <= d < pending.len() && #[trigger] is_of(pending, at.file, d)
                            ==> !bytes_less(
                            encode_utf8(pending[d].0),
                            encode_utf8(tree[at.first].0),
                        )
                    &&& at.own != at.first ==> tree[at.own].1 == (EntryModel::Hardlink {
                        ordinal: files_before(tree, at.first) as u64,
                    })
                },
            }
        }),
{
    let pending = builder.pending;
    let order = a_stage_holds_every_declaration(pending);
    let stage = staged(pending);
    let entries = resolved_entries(stage);
    let tree = canonical_entries(entries, entries.len() as int)->Ok_0;
    canonical_entries_are(entries, entries.len() as int);
    assert forall|k: int| 0 <= k < stage.len() implies !#[trigger] dangles(stage, k) by {}
    assert forall|k: int| 0 <= k < tree.len() implies canonical_entry(resolved_entry(stage, k))
        == Ok::<EntryModel, Tfm1Error>((#[trigger] tree[k]).1) && tree[k].0 == stage[k].0 by {
        assert(entries[k].1 == resolved_entry(stage, k));
        assert(entries[k].0 == stage[k].0);
    }
    assert(paths_of(tree) =~= declared_paths(stage)) by {
        assert forall|k: int| 0 <= k < tree.len() implies paths_of(tree)[k] == declared_paths(
            stage,
        )[k] by {
            assert(tree[k].0 == stage[k].0);
        }
    }
    assert(order.contains(i as usize));
    let own = choose|k: int| 0 <= k < order.len() && order[k] == i as usize;
    assert(order[own] < pending.len());
    assert(stage[own] == pending[i]);
    assert(!dangles(stage, own));
    assert(canonical_entry(resolved_entry(stage, own)) == Ok::<EntryModel, Tfm1Error>(tree[own].1));
    if pending[i].1 is Directory || pending[i].1 is Symlink {
        Places { own, file: 0, first: 0 }
    } else {
        a_root_is_a_file(stage, own);
        let root = root_of(stage, own)->Some_0;
        carrier_facts(stage, root, own, 0);
        let first = carrier(stage, root);
        let file = order[root] as int;
        assert(order[root] < pending.len() && stage[root] == pending[file]);
        assert(carries(stage, first));
        assert(canonical_entry(resolved_entry(stage, first)) == Ok::<EntryModel, Tfm1Error>(
            tree[first].1,
        ));
        let declared = stage[root].1;
        lengths_add_up(declared->File_records, declared->File_records.len() as int);
        assert(declared->File_records.take(declared->File_records.len() as int)
            =~= declared->File_records);
        no_file_error(stage, first, stage.len() as int);
        if declared->File_records.len() == 1 {
            let one = declared->File_records;
            assert(one.drop_last() =~= Seq::empty());
            assert(length_together(one) == length_together(one.drop_last()) + one.last().length());
        }
        carriers_are_files(stage, tree, first);
        if own == root {
            assert(is_of(pending, file, i)) by {
                assert(order[own] == i as usize);
            }
        }
        let d = order[first] as int;
        assert(order[first] < pending.len() && stage[first] == pending[d]);
        a_root_is_a_file(stage, first);
        assert(is_of(pending, file, d));
        assert forall|d: int|
            0 <= d < pending.len() && #[trigger] is_of(pending, file, d) implies !bytes_less(
            encode_utf8(pending[d].0),
            encode_utf8(tree[first].0),
        ) by {
            assert(order.contains(d as usize));
            let k = choose|k: int| 0 <= k < order.len() && order[k] == d as usize;
            assert(order[k] < pending.len());
            assert(stage[k] == pending[d]);
            if d == file {
                let paths = declared_paths(stage);
                assert(paths[k] == paths[root]);
                if k < root {
                    rising_is_distinct(paths, k, root);
                }
                if root < k {
                    rising_is_distinct(paths, root, k);
                }
            } else {
                place_found(stage, stage[root].0, root, 0);
            }
            assert(root_of(stage, k) == Some(root));
            carrier_facts(stage, root, k, 0);
            let paths = declared_paths(stage);
            assert(paths[first] == stage[first].0 && paths[k] == stage[k].0);
            if first < k {
                assert(bytes_less(encode_utf8(paths[first]), encode_utf8(paths[k])));
                if bytes_less(encode_utf8(paths[k]), encode_utf8(paths[first])) {
                    bytes_less_transitive(
                        encode_utf8(paths[k]),
                        encode_utf8(paths[first]),
                        encode_utf8(paths[k]),
                    );
                    bytes_less_irreflexive(encode_utf8(paths[k]));
                }
            } else {
                bytes_less_irreflexive(encode_utf8(paths[k]));
            }
        }
        Places { own, file, first }
    }
}

} // verus!
