//! What a pattern is: literal texts with a hole between each and the next.

use crate::contract::byte_len;
use crate::pattern::{
    captured, captures_exactly_instances, filled_from, first_hole_facts, first_hole_is, has_brace,
    hole_at, hole_count, holes_in, instantiated, is_pattern, pieces_from, pieces_of, PieceModel,
};
use crate::text::{decimal, is_digit};
use vstd::prelude::*;

verus! {

/// The literal texts in turn, with a hole between each and the next.
pub open spec fn joined(literals: Seq<Seq<char>>) -> Seq<char>
    decreases literals.len(),
{
    if literals.len() == 0 {
        Seq::empty()
    } else if literals.len() == 1 {
        literals[0]
    } else {
        literals[0] + seq!['{', 'i', '}'] + joined(literals.drop_first())
    }
}

/// The literal texts in turn, with a number between each and the next.
pub open spec fn numbered(literals: Seq<Seq<char>>, values: Seq<u64>) -> Seq<char>
    decreases literals.len(),
{
    if literals.len() == 0 {
        Seq::empty()
    } else if literals.len() == 1 {
        literals[0]
    } else {
        literals[0] + decimal(values[0] as nat) + numbered(
            literals.drop_first(),
            values.drop_first(),
        )
    }
}

/// Whether literals can stand so: no hole touches another, and no digit stands
/// behind a hole.
pub open spec fn stand_apart(literals: Seq<Seq<char>>) -> bool {
    &&& forall|k: int|
        0 < k < literals.len() - 1 ==> (#[trigger] literals[k]).len() > 0
    &&& forall|k: int|
        0 < k < literals.len() && (#[trigger] literals[k]).len() > 0 ==> !is_digit(literals[k][0])
}

/// Whether no literal holds a brace.
pub open spec fn hold_no_brace(literals: Seq<Seq<char>>) -> bool {
    forall|k: int| 0 <= k < literals.len() ==> !has_brace(#[trigger] literals[k])
}

spec fn pieces_between(literals: Seq<Seq<char>>) -> Seq<PieceModel>
    decreases literals.len(),
{
    if literals.len() == 0 {
        Seq::empty()
    } else {
        let first = if literals[0].len() == 0 {
            Seq::empty()
        } else {
            seq![PieceModel::Literal(literals[0])]
        };
        if literals.len() == 1 {
            first
        } else {
            first + seq![PieceModel::Integer] + pieces_between(literals.drop_first())
        }
    }
}

proof fn the_first_literal_ends(literals: Seq<Seq<char>>)
    requires
        literals.len() > 0,
        hold_no_brace(literals),
    ensures
        first_hole(literals) == literals[0].len(),
        joined(literals).take(literals[0].len() as int) == literals[0],
        literals.len() > 1 ==> joined(literals).len() >= literals[0].len() + 3 && joined(
            literals,
        ).skip(literals[0].len() as int + 3) == joined(literals.drop_first()),
{
    let text = joined(literals);
    let first = literals[0];
    let at = first.len() as int;
    assert forall|i: int| 0 <= i < at implies !hole_at(text, i) by {
        assert(text[i] == first[i]);
        assert(!has_brace(literals[0]));
        if first[i] == '{' {
            assert(first.contains('{'));
        }
    }
    if literals.len() > 1 {
        let tail = joined(literals.drop_first());
        assert(text[at] == '{' && text[at + 1] == 'i' && text[at + 2] == '}');
        assert(text.skip(at + 3) =~= tail);
    }
    first_hole_is(text, at);
    assert(text.take(at) =~= first);
}

spec fn first_hole(literals: Seq<Seq<char>>) -> int {
    crate::pattern::first_hole(joined(literals))
}

proof fn a_join_is_read(literals: Seq<Seq<char>>, behind: bool)
    requires
        literals.len() > 0,
        hold_no_brace(literals),
    ensures
        pieces_from(joined(literals), behind) is Some <==> stand_apart(literals) && (behind
            && literals.len() > 1 ==> literals[0].len() > 0),
        pieces_from(joined(literals), behind) is Some ==> pieces_from(joined(literals), behind)
            == Some(pieces_between(literals)),
    decreases literals.len(),
{
    let text = joined(literals);
    let at = literals[0].len() as int;
    the_first_literal_ends(literals);
    assert(!has_brace(literals[0]));
    let found = pieces_from(text, behind);
    if literals.len() == 1 {
        if text.len() > 0 {
            assert(text.take(at) =~= literals[0]);
            assert(found == Some(seq![PieceModel::Literal(text)]));
        } else {
            assert(text =~= Seq::empty());
        }
    } else {
        let rest = literals.drop_first();
        let tail = joined(rest);
        assert forall|k: int| 0 <= k < rest.len() implies !has_brace(#[trigger] rest[k]) by {
            assert(rest[k] == literals[k + 1]);
        }
        a_join_is_read(rest, true);
        assert(text.skip(at + 3) == tail);
        assert(rest[0] == literals[1]);
        let digit = tail.len() > 0 && is_digit(tail[0]);
        if rest[0].len() > 0 {
            assert(tail[0] == rest[0][0]);
        } else if rest.len() > 1 {
            assert(tail[0] == '{');
        }
        assert(digit <==> literals[1].len() > 0 && is_digit(literals[1][0]));
        if stand_apart(literals) {
            assert forall|k: int| 0 < k < rest.len() - 1 implies (#[trigger] rest[k]).len()
                > 0 by {
                assert(rest[k] == literals[k + 1]);
            }
            assert forall|k: int| 0 < k < rest.len() && (#[trigger] rest[k]).len() > 0 implies
                !is_digit(rest[k][0]) by {
                assert(rest[k] == literals[k + 1]);
            }
            if rest.len() > 1 {
                assert(literals[1].len() > 0);
            }
            assert(pieces_from(tail, true) is Some);
        }
        if found is Some {
            assert forall|k: int| 0 < k < literals.len() - 1 implies (#[trigger] literals[k]).len()
                > 0 by {
                assert(rest[k - 1] == literals[k]);
            }
            assert forall|k: int| 0 < k < literals.len() && (#[trigger] literals[k]).len()
                > 0 implies !is_digit(literals[k][0]) by {
                assert(rest[k - 1] == literals[k]);
            }
            let more = pieces_between(rest);
            if at == 0 {
                assert(Seq::<PieceModel>::empty() + seq![PieceModel::Integer] =~= seq![
                    PieceModel::Integer,
                ]);
                assert(found.unwrap() =~= pieces_between(literals));
            } else {
                assert(found.unwrap() =~= pieces_between(literals));
            }
        }
    }
}

/// A text of literals and holes is a pattern exactly if it is neither empty nor
/// longer than its bound, no hole touches another and no digit follows a hole.
pub proof fn literals_and_holes_are_a_pattern(literals: Seq<Seq<char>>)
    requires
        literals.len() > 0,
        hold_no_brace(literals),
    ensures
        is_pattern(joined(literals)) <==> 0 < joined(literals).len() && byte_len(joined(literals))
            <= 512 && stand_apart(literals),
        is_pattern(joined(literals)) ==> hole_count(joined(literals)) == literals.len() - 1,
{
    a_join_is_read(literals, false);
    if is_pattern(joined(literals)) {
        a_join_is_filled(literals, Seq::new((literals.len() - 1) as nat, |i: int| 0u64));
    }
}

/// Every pattern is a text of literals and holes.
pub proof fn a_pattern_is_literals_and_holes(text: Seq<char>) -> (literals: Seq<Seq<char>>)
    requires
        is_pattern(text),
    ensures
        literals.len() > 0,
        hold_no_brace(literals),
        joined(literals) == text,
{
    split_at_holes(text, false)
}

proof fn split_at_holes(text: Seq<char>, behind: bool) -> (literals: Seq<Seq<char>>)
    requires
        pieces_from(text, behind) is Some,
    ensures
        literals.len() > 0,
        hold_no_brace(literals),
        joined(literals) == text,
    decreases text.len(),
{
    first_hole_facts(text);
    let at = crate::pattern::first_hole(text);
    if at >= text.len() {
        assert(text.take(at) =~= text);
        if text.len() == 0 {
            assert(!has_brace(text));
        }
        seq![text]
    } else {
        let tail = text.skip(at + 3);
        let more = split_at_holes(tail, true);
        let literals = seq![text.take(at)] + more;
        assert(literals.drop_first() =~= more);
        assert forall|k: int| 0 <= k < literals.len() implies !has_brace(#[trigger] literals[k]) by {
            if k > 0 {
                assert(literals[k] == more[k - 1]);
            }
        }
        assert(joined(literals) =~= text);
        literals
    }
}

proof fn a_join_is_filled(literals: Seq<Seq<char>>, values: Seq<u64>)
    requires
        literals.len() > 0,
    ensures
        holes_in(pieces_between(literals)) == literals.len() - 1,
        values.len() == literals.len() - 1 ==> filled_from(pieces_between(literals), values)
            == numbered(literals, values),
    decreases literals.len(),
{
    let pieces = pieces_between(literals);
    let first = literals[0];
    if literals.len() == 1 {
        if first.len() > 0 {
            assert(pieces.drop_first() =~= Seq::empty());
            assert(holes_in(Seq::<PieceModel>::empty()) == 0);
            assert(first + filled_from(Seq::empty(), values) =~= first);
        } else {
            assert(first =~= Seq::empty());
        }
    } else {
        let rest = literals.drop_first();
        a_join_is_filled(rest, values.drop_first());
        let more = pieces_between(rest);
        let holes = seq![PieceModel::Integer] + more;
        assert(holes.drop_first() =~= more);
        assert(holes[0] is Integer);
        if first.len() > 0 {
            assert(pieces.drop_first() =~= holes);
            assert(pieces[0] == PieceModel::Literal(first));
        } else {
            assert(pieces =~= holes);
        }
        assert(holes_in(holes) == 1 + holes_in(more));
        if values.len() == literals.len() - 1 {
            assert(filled_from(holes, values) == decimal(values[0] as nat) + filled_from(
                more,
                values.drop_first(),
            ));
            assert(filled_from(pieces, values) =~= numbered(literals, values));
        }
    }
}

/// A pattern is for exactly the names that have its literals in turn, with a
/// decimal number in its shortest spelling for each hole, and these numbers are
/// what it captures.
pub proof fn a_pattern_is_for_its_numbered_names(
    literals: Seq<Seq<char>>,
    name: Seq<char>,
    values: Seq<u64>,
)
    requires
        literals.len() > 0,
        hold_no_brace(literals),
        is_pattern(joined(literals)),
    ensures
        captured(joined(literals), name) == Some(values) <==> values.len() == literals.len() - 1
            && name == numbered(literals, values),
        values.len() == literals.len() - 1 ==> instantiated(joined(literals), values) == Some(
            numbered(literals, values),
        ),
{
    let text = joined(literals);
    a_join_is_read(literals, false);
    a_join_is_filled(literals, values);
    captures_exactly_instances(text, name, values);
    assert(pieces_of(text) == Some(pieces_between(literals)));
}

} // verus!
