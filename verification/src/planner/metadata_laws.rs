//! What the metadata of a GGUF file are: counted entries, each a key, a type and a
//! value, one of which may set the alignment.

use super::gguf::{
    alignment_key, array_after, entry_after, fixed_width, inspection_bound, layout_of, metadata_after, metadata_moves_on,
    metadata_of, metadata_start, value_after, value_moves_on, MetadataState, Spot,
};
use crate::wire::{u32_at, u64_at};
use vstd::prelude::*;

verus! {

/// The key of the entry at a position.
pub open spec fn key_at(c: Seq<u8>, at: int) -> Seq<u8> {
    c.subrange(at + 8, at + 8 + u64_at(c, at))
}

/// The type of the entry at a position, behind the key.
pub open spec fn kind_at(c: Seq<u8>, at: int) -> u32 {
    u32_at(c, at + 8 + u64_at(c, at))
}

/// Where the value of the entry at a position starts, behind the type.
pub open spec fn value_start(c: Seq<u8>, at: int) -> int {
    at + 12 + u64_at(c, at)
}

/// How many bytes every value of a type has: one for a byte and a truth value,
/// two, four or eight for the wider numbers.
pub open spec fn bytes_of_kind(kind: u32) -> Option<int> {
    if kind == 0 || kind == 1 || kind == 7 {
        Some(1)
    } else if kind == 2 || kind == 3 {
        Some(2)
    } else if kind == 4 || kind == 5 || kind == 6 {
        Some(4)
    } else if kind == 10 || kind == 11 || kind == 12 {
        Some(8)
    } else {
        None
    }
}

/// Whether an entry stands from `at` to `next`: a number has its bytes, a string
/// those that it counts, and a list of numbers those of as many as it counts.
pub open spec fn is_entry(c: Seq<u8>, at: int, next: int) -> bool {
    let start = value_start(c, at);
    let kind = kind_at(c, at);
    &&& 0 <= at
    &&& start <= next <= c.len()
    &&& kind <= 12
    &&& bytes_of_kind(kind) matches Some(width) ==> next == start + width
    &&& kind == 8 ==> next == start + 8 + u64_at(c, start)
    &&& kind == 9 ==> (bytes_of_kind(u32_at(c, start)) matches Some(width) ==> next == start + 12
        + width * u64_at(c, start + 4))
}

proof fn a_value_ends(c: Seq<u8>, bound: int, spot: Spot, kind: u32)
    requires
        value_after(c, bound, spot, kind, 0) is Some,
    ensures
        ({
            let start = spot.position;
            let next = value_after(c, bound, spot, kind, 0)->Some_0.position;
            &&& start <= next <= bound
            &&& kind <= 12
            &&& bytes_of_kind(kind) matches Some(width) ==> next == start + width
            &&& kind == 8 ==> next == start + 8 + u64_at(c, start)
            &&& kind == 9 ==> (bytes_of_kind(u32_at(c, start)) matches Some(width) ==> next == start
                + 12 + width * u64_at(c, start + 4))
        }),
{
    value_moves_on(c, bound, spot, kind, 0);
    if kind == 9 {
        assert(value_after(c, bound, spot, kind, 0) == array_after(c, bound, spot, 0));
        if let Some(width) = bytes_of_kind(u32_at(c, spot.position)) {
            let element = u32_at(c, spot.position);
            let count = u64_at(c, spot.position + 4);
            let next = array_after(c, bound, spot, 0)->Some_0;
            if element == 7 {
                assert(next.position == spot.position + 12 + count);
                assert(width * count == count) by (nonlinear_arith)
                    requires
                        width == 1,
                ;
            } else {
                assert(fixed_width(element) == Some(width));
                assert(next.position == spot.position + 12 + count * width);
                assert(count * width == width * count) by (nonlinear_arith);
            }
        }
    }
}

proof fn one_entry(c: Seq<u8>, bound: int, state: MetadataState)
    requires
        0 <= state.spot.position,
        bound <= c.len(),
        entry_after(c, bound, state) is Some,
    ensures
        ({
            let next = entry_after(c, bound, state)->Some_0;
            let at = state.spot.position;
            &&& is_entry(c, at, next.spot.position)
            &&& next.keys == state.keys.push(key_at(c, at))
            &&& next.alignment == if key_at(c, at) == alignment_key() {
                u32_at(c, value_start(c, at)) as u64
            } else {
                state.alignment
            }
        }),
{
    let at = state.spot.position;
    let kind = kind_at(c, at);
    let spot = Spot { position: value_start(c, at), budget: state.spot.budget };
    if key_at(c, at) != alignment_key() {
        a_value_ends(c, bound, spot, kind);
    }
}

/// Where the entries from a state on start, and where the last of them ends.
spec fn starts_of(c: Seq<u8>, bound: int, state: MetadataState, count: nat) -> Seq<int>
    decreases count,
{
    if count == 0 {
        seq![state.spot.position]
    } else {
        seq![state.spot.position] + starts_of(
            c,
            bound,
            entry_after(c, bound, state)->Some_0,
            (count - 1) as nat,
        )
    }
}

proof fn entries_follow(c: Seq<u8>, bound: int, state: MetadataState, count: nat)
    requires
        0 <= state.spot.position,
        bound <= c.len(),
        metadata_after(c, bound, state, count) is Some,
    ensures
        ({
            let after = metadata_after(c, bound, state, count)->Some_0;
            let starts = starts_of(c, bound, state, count);
            &&& starts.len() == count + 1
            &&& starts[0] == state.spot.position
            &&& starts[count as int] == after.spot.position
            &&& forall|i: int| 0 <= i < count ==> #[trigger] is_entry(c, starts[i], starts[i + 1])
        }),
    decreases count,
{
    if count > 0 {
        one_entry(c, bound, state);
        let next = entry_after(c, bound, state)->Some_0;
        let rest = starts_of(c, bound, next, (count - 1) as nat);
        let starts = starts_of(c, bound, state, count);
        assert(0 <= next.spot.position);
        entries_follow(c, bound, next, (count - 1) as nat);
        assert forall|i: int| 0 <= i < count implies #[trigger] is_entry(
            c,
            starts[i],
            starts[i + 1],
        ) by {
            assert(starts[i + 1] == rest[i]);
            if i > 0 {
                assert(starts[i] == rest[i - 1]);
                assert(is_entry(c, rest[i - 1], rest[i - 1 + 1]));
            }
        }
    }
}

proof fn entries_have_keys(c: Seq<u8>, bound: int, state: MetadataState, count: nat)
    requires
        0 <= state.spot.position,
        bound <= c.len(),
        metadata_after(c, bound, state, count) is Some,
    ensures
        ({
            let after = metadata_after(c, bound, state, count)->Some_0;
            let starts = starts_of(c, bound, state, count);
            &&& starts.len() == count + 1
            &&& after.keys == state.keys + Seq::new(count, |i: int| key_at(c, starts[i]))
        }),
    decreases count,
{
    let after = metadata_after(c, bound, state, count)->Some_0;
    let starts = starts_of(c, bound, state, count);
    if count > 0 {
        one_entry(c, bound, state);
        let next = entry_after(c, bound, state)->Some_0;
        let rest = starts_of(c, bound, next, (count - 1) as nat);
        entries_have_keys(c, bound, next, (count - 1) as nat);
        let keys = state.keys + Seq::new(count, |i: int| key_at(c, starts[i]));
        assert(after.keys.len() == keys.len());
        assert forall|k: int| 0 <= k < keys.len() implies after.keys[k] == keys[k] by {
            let known = state.keys.len();
            if k > known {
                let i = k - known;
                assert(starts[i] == rest[i - 1]);
            }
        }
        assert(after.keys =~= keys);
    } else {
        assert(after.keys =~= state.keys + Seq::new(count, |i: int| key_at(c, starts[i])));
    }
}

/// Entries without the key leave the alignment as it is.
proof fn other_entries_keep_the_alignment(
    c: Seq<u8>,
    bound: int,
    state: MetadataState,
    count: nat,
)
    requires
        0 <= state.spot.position,
        bound <= c.len(),
        metadata_after(c, bound, state, count) is Some,
        forall|i: int|
            0 <= i < count ==> key_at(c, #[trigger] starts_of(c, bound, state, count)[i])
                != alignment_key(),
    ensures
        metadata_after(c, bound, state, count)->Some_0.alignment == state.alignment,
    decreases count,
{
    if count > 0 {
        one_entry(c, bound, state);
        entries_follow(c, bound, state, count);
        let next = entry_after(c, bound, state)->Some_0;
        let rest = starts_of(c, bound, next, (count - 1) as nat);
        let starts = starts_of(c, bound, state, count);
        assert(key_at(c, starts[0]) != alignment_key());
        assert forall|i: int| 0 <= i < count - 1 implies key_at(c, #[trigger] rest[i])
            != alignment_key() by {
            assert(starts[i + 1] == rest[i]);
        }
        other_entries_keep_the_alignment(c, bound, next, (count - 1) as nat);
    }
}

/// The last entry with the key sets the alignment.
proof fn an_entry_sets_the_alignment(
    c: Seq<u8>,
    bound: int,
    state: MetadataState,
    count: nat,
    at: int,
)
    requires
        0 <= state.spot.position,
        bound <= c.len(),
        metadata_after(c, bound, state, count) is Some,
        0 <= at < count,
        key_at(c, starts_of(c, bound, state, count)[at]) == alignment_key(),
        forall|i: int|
            at < i < count ==> key_at(c, #[trigger] starts_of(c, bound, state, count)[i])
                != alignment_key(),
    ensures
        metadata_after(c, bound, state, count)->Some_0.alignment == u32_at(
            c,
            value_start(c, starts_of(c, bound, state, count)[at]),
        ),
    decreases count,
{
    one_entry(c, bound, state);
    entries_follow(c, bound, state, count);
    let next = entry_after(c, bound, state)->Some_0;
    let rest = starts_of(c, bound, next, (count - 1) as nat);
    let starts = starts_of(c, bound, state, count);
    assert forall|i: int| at <= i < count - 1 implies key_at(c, #[trigger] rest[i])
        != alignment_key() by {
        assert(starts[i + 1] == rest[i]);
    }
    if at == 0 {
        other_entries_keep_the_alignment(c, bound, next, (count - 1) as nat);
    } else {
        assert(starts[at] == rest[at - 1]);
        an_entry_sets_the_alignment(c, bound, next, (count - 1) as nat, at - 1);
    }
}

/// The metadata of a GGUF file are as many entries as it counts, one behind
/// another, under different keys. The alignment of its tensors is the number under
/// `general.alignment`, and 32 where no entry has that key.
pub proof fn the_metadata_set_the_alignment(c: Seq<u8>) -> (starts: Seq<int>)
    requires
        layout_of(c) is Some,
        c.len() <= u64::MAX,
    ensures
        ({
            let count = u64_at(c, 16) as int;
            let layout = layout_of(c)->Some_0;
            let name = "general.alignment"@.map_values(|letter: char| letter as u8);
            &&& starts.len() == count + 1
            &&& starts[0] == 24
            &&& starts[count] == layout.directory_start
            &&& forall|i: int| 0 <= i < count ==> #[trigger] is_entry(c, starts[i], starts[i + 1])
            &&& forall|i: int, j: int|
                0 <= i < j < count ==> key_at(c, #[trigger] starts[i]) != key_at(
                    c,
                    #[trigger] starts[j],
                )
            &&& forall|i: int|
                0 <= i < count && key_at(c, #[trigger] starts[i]) == name ==> layout.alignment
                    == u32_at(c, value_start(c, starts[i]))
            &&& (forall|i: int| 0 <= i < count ==> key_at(c, #[trigger] starts[i]) != name)
                ==> layout.alignment == 32
        }),
{
    let count = u64_at(c, 16) as nat;
    let bound = inspection_bound(c);
    let start = metadata_start();
    let starts = starts_of(c, bound, start, count);
    entries_follow(c, bound, start, count);
    entries_have_keys(c, bound, start, count);
    metadata_moves_on(c, bound, start, count);
    let after = metadata_of(c)->Some_0;
    let layout = layout_of(c)->Some_0;
    let name = "general.alignment"@.map_values(|letter: char| letter as u8);
    assert(name =~= alignment_key()) by {
        reveal_strlit("general.alignment");
    }
    assert(after.keys.no_duplicates());
    assert forall|i: int, j: int| 0 <= i < j < count implies key_at(c, #[trigger] starts[i])
        != key_at(c, #[trigger] starts[j]) by {
        assert(after.keys[i] == key_at(c, starts[i]));
        assert(after.keys[j] == key_at(c, starts[j]));
    }
    assert forall|i: int|
        0 <= i < count && key_at(c, #[trigger] starts[i]) == name implies layout.alignment
        == u32_at(c, value_start(c, starts[i])) by {
        assert forall|j: int| i < j < count implies key_at(c, #[trigger] starts[j])
            != alignment_key() by {
            assert(key_at(c, starts[i]) != key_at(c, starts[j]));
        }
        an_entry_sets_the_alignment(c, bound, start, count, i);
    }
    if forall|i: int| 0 <= i < count ==> key_at(c, #[trigger] starts[i]) != name {
        other_entries_keep_the_alignment(c, bound, start, count);
    }
    starts
}

} // verus!
