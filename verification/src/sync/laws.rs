//! What a snapshot needs is what its files are made of, no more and no less.

use super::{
    closure_is_complete, closure_of, data_rows, firsts, is_first, named_rows, RowModel,
};
use crate::tfm1::{BodyModel, EntryModel, RecordModel};
use vstd::prelude::*;

verus! {

/// Data record `k` of the file at entry `e` is `row`: one of a tensor file's
/// records, or the whole of a blob that is not empty.
pub open spec fn is_made_of(
    entries: Seq<(Seq<char>, EntryModel)>,
    e: int,
    k: int,
    row: RowModel,
) -> bool {
    &&& 0 <= e < entries.len()
    &&& match entries[e].1 {
        EntryModel::File { body: BodyModel::Tensor { records, .. }, .. } => 0 <= k < records.len()
            && records[k] == (RecordModel::Data { digest: row.0, length: row.1 }),
        EntryModel::File { body: BodyModel::Blob { logical_size, digest }, .. } => k == 0
            && logical_size > 0 && row == (digest, logical_size),
        _ => false,
    }
}

/// A place in a manifest before another: in an earlier entry, or earlier in the
/// same one.
pub open spec fn comes_before(a: (int, int), b: (int, int)) -> bool {
    a.0 < b.0 || (a.0 == b.0 && a.1 < b.1)
}

pub(crate) proof fn data_row_is_listed(records: Seq<RecordModel>, k: int, upto: int)
    requires
        0 <= k < upto <= records.len(),
        records[k] is Data,
    ensures
        ({
            let at = data_rows(records, k).len() as int;
            &&& at < data_rows(records, upto).len()
            &&& data_rows(records, upto)[at] == (records[k]->digest, records[k]->Data_length)
        }),
    decreases upto,
{
    if k < upto - 1 {
        data_row_is_listed(records, k, upto - 1);
    }
}

pub(crate) proof fn listed_row_is_data(records: Seq<RecordModel>, at: int, upto: int) -> (k: int)
    requires
        0 <= upto <= records.len(),
        0 <= at < data_rows(records, upto).len(),
    ensures
        0 <= k < upto,
        at == data_rows(records, k).len(),
        records[k] == (RecordModel::Data {
            digest: data_rows(records, upto)[at].0,
            length: data_rows(records, upto)[at].1,
        }),
    decreases upto,
{
    if records[upto - 1] is Data && at == data_rows(records, upto).len() - 1 {
        upto - 1
    } else {
        listed_row_is_data(records, at, upto - 1)
    }
}

proof fn row_is_named(entries: Seq<(Seq<char>, EntryModel)>, e: int, k: int, row: RowModel, upto: int) -> (at:
    int)
    requires
        is_made_of(entries, e, k, row),
        e < upto <= entries.len(),
    ensures
        0 <= at < named_rows(entries, upto).len(),
        named_rows(entries, upto)[at] == row,
        at == place(entries, e, k),
    decreases upto,
{
    if e < upto - 1 {
        let at = row_is_named(entries, e, k, row, upto - 1);
        assert(named_rows(entries, upto)[at] == named_rows(entries, upto - 1)[at]);
        at
    } else {
        let run = run_of(entries, e);
        data_row_is_listed(run, k, run.len() as int);
        place(entries, e, k)
    }
}

/// The records of the file at entry `e`.
spec fn run_of(entries: Seq<(Seq<char>, EntryModel)>, e: int) -> Seq<RecordModel> {
    match entries[e].1 {
        EntryModel::File { body, .. } => body.run(),
        _ => Seq::empty(),
    }
}

/// How many data records stand before record `k` of the file at entry `e`.
spec fn place(entries: Seq<(Seq<char>, EntryModel)>, e: int, k: int) -> int {
    (named_rows(entries, e).len() + data_rows(run_of(entries, e), k).len()) as int
}

proof fn named_row_is_made_of(entries: Seq<(Seq<char>, EntryModel)>, at: int, upto: int) -> (spot: (
    int,
    int,
))
    requires
        0 <= upto <= entries.len(),
        0 <= at < named_rows(entries, upto).len(),
    ensures
        spot.0 < upto,
        is_made_of(entries, spot.0, spot.1, named_rows(entries, upto)[at]),
        at == place(entries, spot.0, spot.1),
    decreases upto,
{
    if at < named_rows(entries, upto - 1).len() {
        let spot = named_row_is_made_of(entries, at, upto - 1);
        assert(named_rows(entries, upto)[at] == named_rows(entries, upto - 1)[at]);
        spot
    } else {
        let run = run_of(entries, upto - 1);
        let k = listed_row_is_data(run, at - named_rows(entries, upto - 1).len(), run.len() as int);
        (upto - 1, k)
    }
}

proof fn names_grow(entries: Seq<(Seq<char>, EntryModel)>, low: int, high: int)
    requires
        low <= high,
    ensures
        named_rows(entries, low).len() <= named_rows(entries, high).len(),
    decreases high - low,
{
    if low < high {
        names_grow(entries, low, high - 1);
    }
}

proof fn places_follow(
    entries: Seq<(Seq<char>, EntryModel)>,
    a: (int, int),
    x: RowModel,
    b: (int, int),
    y: RowModel,
)
    requires
        is_made_of(entries, a.0, a.1, x),
        is_made_of(entries, b.0, b.1, y),
    ensures
        comes_before(a, b) <==> place(entries, a.0, a.1) < place(entries, b.0, b.1),
        a == b ==> x == y,
{
    if comes_before(a, b) {
        place_rises(entries, a, x, b, y);
    } else if comes_before(b, a) {
        place_rises(entries, b, y, a, x);
    }
}

proof fn place_rises(
    entries: Seq<(Seq<char>, EntryModel)>,
    a: (int, int),
    x: RowModel,
    b: (int, int),
    y: RowModel,
)
    requires
        is_made_of(entries, a.0, a.1, x),
        is_made_of(entries, b.0, b.1, y),
        comes_before(a, b),
    ensures
        place(entries, a.0, a.1) < place(entries, b.0, b.1),
{
    let run = run_of(entries, a.0);
    if a.0 < b.0 {
        data_row_is_listed(run, a.1, run.len() as int);
        names_grow(entries, a.0 + 1, b.0);
    } else {
        data_row_is_listed(run, a.1, b.1);
    }
}

/// Every data record of every file of a snapshot, whatever else the file is,
/// names an object of the closure.
pub proof fn every_record_is_needed(
    entries: Seq<(Seq<char>, EntryModel)>,
    e: int,
    k: int,
    row: RowModel,
)
    requires
        is_made_of(entries, e, k, row),
    ensures
        exists|i: int|
            0 <= i < closure_of(entries).len() && (#[trigger] closure_of(entries)[i]).0 == row.0,
{
    let at = row_is_named(entries, e, k, row, entries.len() as int);
    closure_is_complete(entries, at);
}

proof fn first_place(list: Seq<RowModel>, upto: int, i: int) -> (at: int)
    requires
        0 <= upto <= list.len(),
        0 <= i < firsts(list, upto).len(),
    ensures
        0 <= at < upto,
        firsts(list, upto)[i] == list[at],
        is_first(list, at),
        firsts(list, at).len() == i,
    decreases upto,
{
    if is_first(list, upto - 1) && i == firsts(list, upto).len() - 1 {
        upto - 1
    } else {
        first_place(list, upto - 1, i)
    }
}

proof fn firsts_grow(list: Seq<RowModel>, low: int, high: int)
    requires
        low <= high,
    ensures
        firsts(list, low).len() <= firsts(list, high).len(),
    decreases high - low,
{
    if low < high {
        firsts_grow(list, low, high - 1);
    }
}

/// Every object of the closure is a data record of a file of the snapshot: the
/// first in the manifest that names it.
pub proof fn every_needed_object_is_a_record(entries: Seq<(Seq<char>, EntryModel)>, i: int) -> (spot:
    (int, int))
    requires
        0 <= i < closure_of(entries).len(),
    ensures
        is_made_of(entries, spot.0, spot.1, closure_of(entries)[i]),
        forall|e: int, k: int, row: RowModel| #[trigger]
            is_made_of(entries, e, k, row) && comes_before((e, k), spot) ==> row.0
                != closure_of(entries)[i].0,
{
    let all = named_rows(entries, entries.len() as int);
    let at = first_place(all, all.len() as int, i);
    let spot = named_row_is_made_of(entries, at, entries.len() as int);
    assert forall|e: int, k: int, row: RowModel| #[trigger]
        is_made_of(entries, e, k, row) && comes_before((e, k), spot) implies row.0
        != closure_of(entries)[i].0 by {
        let before = row_is_named(entries, e, k, row, entries.len() as int);
        places_follow(entries, (e, k), row, spot, all[at]);
        assert(all[before].0 != all[at].0);
    }
    spot
}

/// The objects of a closure stand in the order in which the manifest first names
/// them.
pub proof fn the_closure_is_in_manifest_order(
    entries: Seq<(Seq<char>, EntryModel)>,
    i: int,
    j: int,
    a: (int, int),
    b: (int, int),
)
    requires
        0 <= i < j < closure_of(entries).len(),
        is_made_of(entries, a.0, a.1, closure_of(entries)[i]),
        is_made_of(entries, b.0, b.1, closure_of(entries)[j]),
        forall|e: int, k: int, row: RowModel| #[trigger]
            is_made_of(entries, e, k, row) && comes_before((e, k), a) ==> row.0
                != closure_of(entries)[i].0,
    ensures
        comes_before(a, b),
{
    let all = named_rows(entries, entries.len() as int);
    let n = entries.len() as int;
    let x = first_place(all, all.len() as int, i);
    let y = first_place(all, all.len() as int, j);
    if y <= x {
        firsts_grow(all, y, x);
    }
    let spot = named_row_is_made_of(entries, x, n);
    places_follow(entries, spot, all[x], a, all[x]);
    places_follow(entries, a, all[x], spot, all[x]);
    let at = row_is_named(entries, b.0, b.1, all[y], n);
    if at < y {
        assert(all[at].0 != all[y].0);
    }
    places_follow(entries, a, all[x], b, all[y]);
}

} // verus!
