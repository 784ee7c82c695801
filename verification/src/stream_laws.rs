//! How the pieces of a read stand to each other, and which reads are refused.

use crate::stream::{larger, piece_of, pieces_from, read_of, PieceModel};
use crate::tfm1::trees::{length_together, lengths_add_up};
use crate::tfm1::{record_sum, RecordModel};
use vstd::prelude::*;

verus! {

/// Whether pieces stand one behind another from `from` to `to`, none of them empty.
pub open spec fn stand_in_turn(pieces: Seq<PieceModel>, from: int, to: int) -> bool {
    &&& pieces.len() == 0 ==> from == to
    &&& pieces.len() > 0 ==> pieces[0].at() == from && pieces.last().at() + pieces.last().length()
        == to
    &&& forall|k: int| 0 <= k < pieces.len() ==> (#[trigger] pieces[k]).length() > 0
    &&& forall|k: int|
        0 < k < pieces.len() ==> (#[trigger] pieces[k]).at() == pieces[k - 1].at() + pieces[k
            - 1].length()
}

proof fn pieces_from_stand_in_turn(records: Seq<RecordModel>, i: int, offset: int, end: int)
    requires
        0 <= i <= records.len(),
        0 <= offset < end <= record_sum(records, records.len() as int),
        forall|k: int| 0 <= k < records.len() ==> (#[trigger] records[k]).length() > 0,
    ensures
        ({
            let from = larger(offset, record_sum(records, i) as int);
            stand_in_turn(
                pieces_from(records, i, offset, end),
                if from < end {
                    from - offset
                } else {
                    end - offset
                },
                end - offset,
            )
        }),
    decreases records.len() - i,
{
    let pieces = pieces_from(records, i, offset, end);
    if i < records.len() {
        assert(records[i].length() > 0);
        let start = record_sum(records, i) as int;
        let next = record_sum(records, i + 1) as int;
        if next <= offset {
            pieces_from_stand_in_turn(records, i + 1, offset, end);
        } else if start < end {
            pieces_from_stand_in_turn(records, i + 1, offset, end);
            let rest = pieces_from(records, i + 1, offset, end);
            let first = piece_of(records, i, offset, end);
            assert(pieces =~= seq![first] + rest);
            assert forall|k: int| 0 <= k < pieces.len() implies (#[trigger] pieces[k]).length()
                > 0 by {
                if k > 0 {
                    assert(pieces[k] == rest[k - 1]);
                }
            }
            assert forall|k: int| 0 < k < pieces.len() implies (#[trigger] pieces[k]).at()
                == pieces[k - 1].at() + pieces[k - 1].length() by {
                assert(pieces[k] == rest[k - 1]);
                if k > 1 {
                    assert(pieces[k - 1] == rest[k - 2]);
                }
            }
            if rest.len() > 0 {
                assert(pieces.last() == rest.last());
            }
        }
    }
}

/// The pieces of a read stand one behind another from its first byte to its last:
/// none is empty, none overlaps another, and none goes beyond the read.
pub proof fn the_pieces_of_a_read_stand_in_turn(
    records: Seq<RecordModel>,
    offset: u64,
    length: nat,
)
    requires
        read_of(records, offset, length) is Ok,
        length > 0,
        forall|k: int| 0 <= k < records.len() ==> (#[trigger] records[k]).length() > 0,
    ensures
        stand_in_turn(read_of(records, offset, length)->Ok_0, 0, length as int),
{
    pieces_from_stand_in_turn(records, 0, offset as int, offset + length);
}

/// A read is accepted exactly if it ends within the file.
pub proof fn exactly_reads_within_the_file_are_accepted(
    records: Seq<RecordModel>,
    offset: u64,
    length: nat,
)
    requires
        length_together(records) <= u64::MAX,
    ensures
        read_of(records, offset, length) is Ok <==> offset + length <= length_together(records),
        read_of(records, offset, length) matches Err(refusal) ==> (refusal is Overflow <==> offset
            + length > u64::MAX),
{
    lengths_add_up(records, records.len() as int);
    assert(records.take(records.len() as int) =~= records);
}

} // verus!
