//! Tensor-name patterns: literal text with `{i}` integer holes.
//!
//! There is no backtracking: a hole is anchored by the literal that follows it,
//! which starts with a non-digit, so the captured numbers are unambiguous.

use crate::contract::{byte_len, ContractError, Refusal, MAX_PATTERN_BYTES};
use crate::text::{
    all_digits, chars_of, decimal, decimal_of_value, decimal_round_trip, decimal_value, digit,
    digits_value, is_digit, is_shortest, push_chars, push_decimal, same_chars,
};
use vstd::prelude::*;
use vstd::string::*;

verus! {

/// One piece of a pattern: literal text, or one non-negative decimal integer
/// without leading zeros.
#[derive(Debug, PartialEq, Eq)]
enum Piece {
    Literal(Vec<char>),
    Integer,
}

/// The value of one piece of a pattern.
pub enum PieceModel {
    Literal(Seq<char>),
    Integer,
}

impl View for Piece {
    type V = PieceModel;

    closed spec fn view(&self) -> PieceModel {
        match self {
            Piece::Literal(text) => PieceModel::Literal(text@),
            Piece::Integer => PieceModel::Integer,
        }
    }
}

/// Whether the hole spelling `{i}` stands at `at`.
pub open spec fn hole_at(s: Seq<char>, at: int) -> bool {
    0 <= at && at + 3 <= s.len() && s[at] == '{' && s[at + 1] == 'i' && s[at + 2] == '}'
}

/// The position of the first hole, or the length.
pub open spec fn first_hole(s: Seq<char>) -> int
    decreases s.len(),
{
    if s.len() == 0 || hole_at(s, 0) {
        0
    } else {
        1 + first_hole(s.drop_first())
    }
}

pub open spec fn has_brace(s: Seq<char>) -> bool {
    s.contains('{') || s.contains('}')
}

/// The pieces of `rest`, which stands behind a hole or not. Refused are
/// adjacent holes, a digit behind a hole, and a brace that is part of no hole.
pub open spec fn pieces_from(rest: Seq<char>, behind_hole: bool) -> Option<Seq<PieceModel>>
    decreases rest.len(),
{
    let at = first_hole(rest);
    let literal = rest.take(at);
    let tail = rest.skip(at + 3);
    if rest.len() == 0 {
        Some(Seq::empty())
    } else if has_brace(literal) {
        None
    } else if at < 0 || at + 3 > rest.len() {
        Some(seq![PieceModel::Literal(rest)])
    } else if (at == 0 && behind_hole) || (tail.len() > 0 && is_digit(tail[0])) {
        None
    } else {
        match pieces_from(tail, true) {
            None => None,
            Some(more) => if at == 0 {
                Some(seq![PieceModel::Integer] + more)
            } else {
                Some(seq![PieceModel::Literal(literal), PieceModel::Integer] + more)
            },
        }
    }
}

/// The pieces of a pattern text.
pub open spec fn pieces_of(text: Seq<char>) -> Option<Seq<PieceModel>> {
    if text.len() == 0 || byte_len(text) > MAX_PATTERN_BYTES {
        None
    } else {
        pieces_from(text, false)
    }
}

/// Whether a text is a usable pattern.
pub open spec fn is_pattern(text: Seq<char>) -> bool {
    pieces_of(text) is Some
}

/// The number of integer holes.
pub open spec fn holes_in(pieces: Seq<PieceModel>) -> nat
    decreases pieces.len(),
{
    if pieces.len() == 0 {
        0
    } else {
        (if pieces[0] is Integer {
            1nat
        } else {
            0nat
        }) + holes_in(pieces.drop_first())
    }
}

/// The number of holes of a pattern text.
pub open spec fn hole_count(text: Seq<char>) -> nat {
    holes_in(pieces_of(text).unwrap())
}

/// The number of digits that `s` starts with.
pub open spec fn digit_run(s: Seq<char>) -> int
    decreases s.len(),
{
    if s.len() == 0 || !is_digit(s[0]) {
        0
    } else {
        1 + digit_run(s.drop_first())
    }
}

/// The hole values when `name` is exactly these pieces.
pub open spec fn captures_from(pieces: Seq<PieceModel>, name: Seq<char>) -> Option<Seq<u64>>
    decreases pieces.len(),
{
    if pieces.len() == 0 {
        if name.len() == 0 {
            Some(Seq::empty())
        } else {
            None
        }
    } else {
        match pieces[0] {
            PieceModel::Literal(literal) => if literal.is_prefix_of(name) {
                captures_from(pieces.drop_first(), name.skip(literal.len() as int))
            } else {
                None
            },
            PieceModel::Integer => {
                let number = name.take(digit_run(name));
                if !is_shortest(number) || decimal_value(number) > u64::MAX {
                    None
                } else {
                    match captures_from(pieces.drop_first(), name.skip(digit_run(name))) {
                        None => None,
                        Some(more) => Some(seq![decimal_value(number) as u64] + more),
                    }
                }
            },
        }
    }
}

/// The hole values when `name` is exactly the pattern `text`.
pub open spec fn captured(text: Seq<char>, name: Seq<char>) -> Option<Seq<u64>> {
    captures_from(pieces_of(text).unwrap(), name)
}

/// The text of pieces whose holes are filled with `values`, in order.
pub open spec fn filled_from(pieces: Seq<PieceModel>, values: Seq<u64>) -> Seq<char>
    decreases pieces.len(),
{
    if pieces.len() == 0 {
        Seq::empty()
    } else {
        match pieces[0] {
            PieceModel::Literal(literal) => literal + filled_from(pieces.drop_first(), values),
            PieceModel::Integer => decimal(values[0] as nat) + filled_from(
                pieces.drop_first(),
                values.drop_first(),
            ),
        }
    }
}

/// The name that a pattern's holes filled with `values` spell.
pub open spec fn instantiated(text: Seq<char>, values: Seq<u64>) -> Option<Seq<char>> {
    if values.len() == hole_count(text) {
        Some(filled_from(pieces_of(text).unwrap(), values))
    } else {
        None
    }
}

/// Every literal behind a hole starts with a non-digit, and no literal is empty.
pub open spec fn anchored(pieces: Seq<PieceModel>) -> bool
    decreases pieces.len(),
{
    pieces.len() > 0 ==> {
        &&& anchored(pieces.drop_first())
        &&& match pieces[0] {
            PieceModel::Literal(literal) => literal.len() > 0,
            PieceModel::Integer => pieces.len() > 1 ==> pieces[1] is Literal && pieces[1]->Literal_0.len() > 0
                && !is_digit(pieces[1]->Literal_0[0]),
        }
    }
}

pub(crate) proof fn first_hole_facts(s: Seq<char>)
    ensures
        0 <= first_hole(s) <= s.len(),
        first_hole(s) < s.len() ==> hole_at(s, first_hole(s)),
        forall|i: int| 0 <= i < first_hole(s) ==> !hole_at(s, i),
    decreases s.len(),
{
    if s.len() > 0 && !hole_at(s, 0) {
        first_hole_facts(s.drop_first());
        assert forall|i: int| 0 <= i < first_hole(s) implies !hole_at(s, i) by {
            if i > 0 {
                assert(!hole_at(s.drop_first(), i - 1));
            }
        }
        if first_hole(s) < s.len() {
            assert(hole_at(s.drop_first(), first_hole(s) - 1));
        }
    }
}

pub(crate) proof fn first_hole_is(s: Seq<char>, at: int)
    requires
        0 <= at <= s.len(),
        at < s.len() ==> hole_at(s, at),
        forall|i: int| 0 <= i < at ==> !hole_at(s, i),
    ensures
        first_hole(s) == at,
{
    first_hole_facts(s);
    if first_hole(s) < at {
        assert(!hole_at(s, first_hole(s)));
    }
}

proof fn pieces_are_anchored(rest: Seq<char>, behind_hole: bool)
    ensures
        pieces_from(rest, behind_hole) matches Some(pieces) ==> {
            &&& anchored(pieces)
            &&& (rest.len() == 0 ==> pieces.len() == 0)
            &&& (behind_hole && pieces.len() > 0 ==> pieces[0] is Literal
                && pieces[0]->Literal_0.len() > 0 && pieces[0]->Literal_0[0] == rest[0])
        },
    decreases rest.len(),
{
    first_hole_facts(rest);
    if pieces_from(rest, behind_hole) is Some && rest.len() > 0 {
        let at = first_hole(rest);
        let pieces = pieces_from(rest, behind_hole).unwrap();
        assert(anchored(Seq::<PieceModel>::empty()));
        if at >= rest.len() {
            assert(pieces.drop_first() =~= Seq::<PieceModel>::empty());
        } else {
            let tail = rest.skip(at + 3);
            pieces_are_anchored(tail, true);
            let more = pieces_from(tail, true).unwrap();
            let from_hole = seq![PieceModel::Integer] + more;
            assert(from_hole.drop_first() =~= more);
            assert(from_hole[0] is Integer);
            if more.len() > 0 {
                assert(from_hole[1] == more[0]);
                assert(more[0]->Literal_0[0] == tail[0]);
            }
            assert(anchored(from_hole));
            if at > 0 {
                assert(pieces.drop_first() =~= from_hole);
                assert(pieces[0] == PieceModel::Literal(rest.take(at)));
            }
        }
    }
}

/// A name that a pattern captures is spelled by the captured values.
pub proof fn captures_then_fill(pieces: Seq<PieceModel>, name: Seq<char>)
    ensures
        captures_from(pieces, name) matches Some(values) ==> values.len() == holes_in(pieces)
            && filled_from(pieces, values) == name,
    decreases pieces.len(),
{
    if pieces.len() > 0 && captures_from(pieces, name) is Some {
        match pieces[0] {
            PieceModel::Literal(literal) => {
                let rest = name.skip(literal.len() as int);
                captures_then_fill(pieces.drop_first(), rest);
                assert(literal + rest =~= name) by {
                    assert(name.take(literal.len() as int) == literal);
                }
            },
            PieceModel::Integer => {
                let run = digit_run(name);
                digit_run_facts(name);
                let number = name.take(run);
                captures_then_fill(pieces.drop_first(), name.skip(run));
                let more = captures_from(pieces.drop_first(), name.skip(run)).unwrap();
                let values = captures_from(pieces, name).unwrap();
                assert(values.drop_first() =~= more);
                decimal_of_value(number);
                assert(number + name.skip(run) =~= name);
            },
        }
    }
}

/// The values that fill a pattern's holes are captured back from the name.
pub proof fn fill_then_capture(pieces: Seq<PieceModel>, values: Seq<u64>)
    requires
        anchored(pieces),
        values.len() == holes_in(pieces),
    ensures
        captures_from(pieces, filled_from(pieces, values)) == Some(values),
    decreases pieces.len(),
{
    let name = filled_from(pieces, values);
    if pieces.len() == 0 {
        assert(values =~= Seq::<u64>::empty());
    } else {
        let later = pieces.drop_first();
        match pieces[0] {
            PieceModel::Literal(literal) => {
                fill_then_capture(later, values);
                assert(name.take(literal.len() as int) =~= literal);
                assert(name.skip(literal.len() as int) =~= filled_from(later, values));
            },
            PieceModel::Integer => {
                fill_then_capture(later, values.drop_first());
                let number = decimal(values[0] as nat);
                let rest = filled_from(later, values.drop_first());
                decimal_round_trip(values[0] as nat);
                if later.len() > 0 {
                    assert(later[0] == pieces[1]);
                    assert(rest[0] == later[0]->Literal_0[0]);
                } else {
                    assert(rest =~= Seq::<char>::empty());
                }
                digit_run_is(name, number.len() as int);
                assert(name.take(number.len() as int) =~= number);
                assert(name.skip(number.len() as int) =~= rest);
                assert(values =~= seq![values[0]] + values.drop_first());
            },
        }
    }
}

proof fn digit_run_facts(s: Seq<char>)
    ensures
        0 <= digit_run(s) <= s.len(),
        forall|i: int| 0 <= i < digit_run(s) ==> is_digit(#[trigger] s[i]),
        digit_run(s) < s.len() ==> !is_digit(s[digit_run(s)]),
    decreases s.len(),
{
    if s.len() > 0 && is_digit(s[0]) {
        digit_run_facts(s.drop_first());
        assert forall|i: int| 0 <= i < digit_run(s) implies is_digit(#[trigger] s[i]) by {
            if i > 0 {
                assert(s[i] == s.drop_first()[i - 1]);
            }
        }
    }
}

proof fn digit_run_is(s: Seq<char>, run: int)
    requires
        0 <= run <= s.len(),
        forall|i: int| 0 <= i < run ==> is_digit(#[trigger] s[i]),
        run < s.len() ==> !is_digit(s[run]),
    ensures
        digit_run(s) == run,
{
    digit_run_facts(s);
    if digit_run(s) < run {
        assert(is_digit(s[digit_run(s)]));
    }
}

/// A pattern captures a name with some values exactly when those values fill
/// its holes to that name.
pub proof fn captures_exactly_instances(text: Seq<char>, name: Seq<char>, values: Seq<u64>)
    requires
        is_pattern(text),
    ensures
        captured(text, name) == Some(values) <==> instantiated(text, values) == Some(name),
{
    let pieces = pieces_of(text).unwrap();
    pieces_are_anchored(text, false);
    captures_then_fill(pieces, name);
    if values.len() == holes_in(pieces) {
        fill_then_capture(pieces, values);
    }
}

/// A tensor-name pattern.
#[derive(Debug, PartialEq, Eq)]
pub struct Pattern {
    pieces: Vec<Piece>,
    text: String,
}

impl View for Pattern {
    type V = Seq<char>;

    closed spec fn view(&self) -> Seq<char> {
        self.text@
    }
}

spec fn piece_models(pieces: Seq<Piece>) -> Seq<PieceModel> {
    pieces.map_values(|piece: Piece| piece@)
}

impl Pattern {
    /// The pieces are those of the text.
    pub closed spec fn wf(&self) -> bool {
        pieces_of(self.text@) == Some(piece_models(self.pieces@))
    }

    pub proof fn wf_is_pattern(&self)
        requires
            self.wf(),
        ensures
            is_pattern(self@),
    {
    }

    /// Parses a pattern text.
    #[verifier::loop_isolation(false)]
    pub fn parse(text: &str) -> (pattern: Result<Self, ContractError>)
        ensures
            match pattern {
                Ok(p) => p.wf() && p@ == text@ && is_pattern(text@),
                Err(e) => !is_pattern(text@) && e@ == Refusal::Pattern(text@),
            },
    {
        if text.is_empty() || text.as_bytes().len() > MAX_PATTERN_BYTES {
            return Err(ContractError::Pattern(text.to_owned()));
        }
        let chars = chars_of(text);
        let mut pieces: Vec<Piece> = Vec::new();
        let mut from: usize = 0;
        let mut behind_hole = false;
        proof {
            assert(text@.skip(0) =~= text@);
            assert(piece_models(pieces@) =~= Seq::<PieceModel>::empty());
        }
        while from < chars.len()
            invariant
                from <= chars@.len(),
                pieces_from(text@, false) == joined(
                    piece_models(pieces@),
                    pieces_from(text@.skip(from as int), behind_hole),
                ),
            decreases chars@.len() - from,
        {
            let ghost rest = text@.skip(from as int);
            let at = find_hole(&chars, from);
            let literal = vstd::slice::slice_subrange(&chars, from, at);
            proof {
                assert(literal@ =~= rest.take(at - from));
            }
            if braced(literal) {
                return Err(ContractError::Pattern(text.to_owned()));
            }
            if at >= chars.len() {
                let ghost before = piece_models(pieces@);
                pieces.push(Piece::Literal(vstd::slice::slice_to_vec(literal)));
                proof {
                    assert(literal@ =~= rest);
                    assert(piece_models(pieces@) =~= before + seq![PieceModel::Literal(rest)]);
                    assert(text@.skip(chars@.len() as int) =~= Seq::<char>::empty());
                    assert(piece_models(pieces@) + Seq::<PieceModel>::empty() =~= piece_models(
                        pieces@,
                    ));
                }
                from = chars.len();
                behind_hole = false;
            } else {
                if at == from && behind_hole {
                    return Err(ContractError::Pattern(text.to_owned()));
                }
                let ghost tail = rest.skip(at - from + 3);
                proof {
                    assert(hole_at(rest, at - from));
                    assert(tail =~= text@.skip(at + 3));
                }
                if at + 3 < chars.len() && digit(chars[at + 3]) {
                    assert(tail[0] == chars@[at + 3]);
                    return Err(ContractError::Pattern(text.to_owned()));
                }
                let ghost before = piece_models(pieces@);
                if at > from {
                    pieces.push(Piece::Literal(vstd::slice::slice_to_vec(literal)));
                }
                pieces.push(Piece::Integer);
                proof {
                    assert(tail.len() > 0 ==> tail[0] == chars@[at + 3]);
                    if at > from {
                        assert(piece_models(pieces@) =~= before + seq![
                            PieceModel::Literal(literal@),
                            PieceModel::Integer,
                        ]);
                    } else {
                        assert(piece_models(pieces@) =~= before + seq![PieceModel::Integer]);
                    }
                    if pieces_from(tail, true) is Some {
                        let more = pieces_from(tail, true).unwrap();
                        let own = pieces_from(rest, behind_hole).unwrap();
                        assert(piece_models(pieces@) + more =~= before + own);
                    }
                }
                from = at + 3;
                behind_hole = true;
            }
        }
        proof {
            assert(text@.skip(from as int) =~= Seq::<char>::empty());
            assert(piece_models(pieces@) + Seq::<PieceModel>::empty() =~= piece_models(pieces@));
        }
        Ok(Pattern { pieces, text: text.to_owned() })
    }

    pub fn as_str(&self) -> (text: &str)
        ensures
            text@ == self@,
    {
        self.text.as_str()
    }

    /// The number of holes.
    pub fn holes(&self) -> (count: usize)
        requires
            self.wf(),
        ensures
            count == hole_count(self@),
    {
        let mut count: usize = 0;
        let mut at: usize = self.pieces.len();
        proof {
            assert(piece_models(self.pieces@).skip(at as int) =~= Seq::<PieceModel>::empty());
        }
        while at > 0
            invariant
                at <= self.pieces@.len(),
                count == holes_in(piece_models(self.pieces@).skip(at as int)),
                count <= self.pieces@.len() - at,
                self.pieces@.len() <= usize::MAX,
            decreases at,
        {
            at -= 1;
            let ghost models = piece_models(self.pieces@);
            proof {
                assert(models.skip(at as int).drop_first() =~= models.skip(at + 1));
                assert(models.skip(at as int)[0] == self.pieces@[at as int]@);
            }
            match self.pieces[at] {
                Piece::Integer => {
                    count += 1;
                },
                _ => {},
            }
        }
        proof {
            assert(piece_models(self.pieces@).skip(0) =~= piece_models(self.pieces@));
        }
        count
    }

    /// The captured hole values when `name` is exactly this pattern.
    #[verifier::loop_isolation(false)]
    pub fn captures(&self, name: &str) -> (values: Option<Vec<u64>>)
        requires
            self.wf(),
        ensures
            match values {
                Some(v) => captured(self@, name@) == Some(v@),
                None => captured(self@, name@) is None,
            },
    {
        let chars = chars_of(name);
        let ghost models = piece_models(self.pieces@);
        let mut values: Vec<u64> = Vec::new();
        let mut from: usize = 0;
        let mut at: usize = 0;
        proof {
            assert(models.skip(0) =~= models);
            assert(name@.skip(0) =~= name@);
            if captures_from(models, name@) is Some {
                let all = captures_from(models, name@).unwrap();
                assert(Seq::<u64>::empty() + all =~= all);
            }
        }
        while at < self.pieces.len()
            invariant
                at <= self.pieces@.len(),
                from <= chars@.len(),
                captures_from(models, name@) == prefixed(
                    values@,
                    captures_from(models.skip(at as int), name@.skip(from as int)),
                ),
            decreases self.pieces@.len() - at,
        {
            let ghost later = models.skip(at as int);
            let ghost rest = name@.skip(from as int);
            proof {
                assert(later[0] == self.pieces@[at as int]@);
                assert(later.drop_first() =~= models.skip(at + 1));
            }
            match &self.pieces[at] {
                Piece::Literal(literal) => {
                    let n = literal.len();
                    if n > chars.len() - from {
                        return None;
                    }
                    let head = vstd::slice::slice_subrange(&chars, from, from + n);
                    proof {
                        assert(head@ =~= rest.take(n as int));
                        assert(rest.skip(n as int) =~= name@.skip(from + n));
                    }
                    if !same_chars(head, literal) {
                        return None;
                    }
                    from = from + n;
                },
                Piece::Integer => {
                    let end = skip_digits(&chars, from);
                    let number = vstd::slice::slice_subrange(&chars, from, end);
                    proof {
                        assert(number@ =~= rest.take(end - from));
                        assert(rest.skip(end - from) =~= name@.skip(end as int));
                        assert(all_digits(number@)) by {
                            assert forall|i: int| 0 <= i < number@.len() implies is_digit(
                                #[trigger] number@[i],
                            ) by {
                                assert(is_digit(chars@[from + i]));
                            }
                        }
                    }
                    if number.len() == 0 || (number.len() > 1 && number[0] == '0') {
                        return None;
                    }
                    match digits_value(number) {
                        None => {
                            return None;
                        },
                        Some(value) => {
                            let ghost before = values@;
                            values.push(value);
                            proof {
                                let more = captures_from(
                                    later.drop_first(),
                                    name@.skip(end as int),
                                );
                                if more is Some {
                                    assert(before + (seq![value] + more.unwrap()) =~= values@
                                        + more.unwrap());
                                }
                            }
                        },
                    }
                    from = end;
                },
            }
            at += 1;
        }
        proof {
            assert(models.skip(at as int) =~= Seq::<PieceModel>::empty());
            assert(values@ + Seq::<u64>::empty() =~= values@);
        }
        if from == chars.len() {
            Some(values)
        } else {
            None
        }
    }

    /// Whether `name` is exactly this pattern.
    pub fn matches(&self, name: &str) -> (yes: bool)
        requires
            self.wf(),
        ensures
            yes == (captured(self@, name@) is Some),
    {
        self.captures(name).is_some()
    }

    /// Fills this pattern's holes with `values`, in order.
    #[verifier::loop_isolation(false)]
    pub fn instantiate(&self, values: &[u64]) -> (name: Option<String>)
        requires
            self.wf(),
        ensures
            match name {
                Some(n) => instantiated(self@, values@) == Some(n@),
                None => instantiated(self@, values@) is None,
            },
    {
        if values.len() != self.holes() {
            return None;
        }
        let ghost models = piece_models(self.pieces@);
        let mut filled = String::new();
        let mut next: usize = 0;
        let mut at: usize = 0;
        proof {
            assert(models.skip(0) =~= models);
            assert(values@.skip(0) =~= values@);
        }
        while at < self.pieces.len()
            invariant
                at <= self.pieces@.len(),
                next <= values@.len(),
                values@.len() - next == holes_in(models.skip(at as int)),
                filled_from(models, values@) == filled@ + filled_from(
                    models.skip(at as int),
                    values@.skip(next as int),
                ),
            decreases self.pieces@.len() - at,
        {
            let ghost later = models.skip(at as int);
            let ghost before = filled@;
            proof {
                assert(later[0] == self.pieces@[at as int]@);
                assert(later.drop_first() =~= models.skip(at + 1));
            }
            match &self.pieces[at] {
                Piece::Literal(literal) => {
                    push_chars(&mut filled, literal);
                    proof {
                        let more = filled_from(later.drop_first(), values@.skip(next as int));
                        assert(before + (literal@ + more) =~= filled@ + more);
                    }
                },
                Piece::Integer => {
                    push_decimal(&mut filled, values[next]);
                    proof {
                        assert(values@.skip(next as int).drop_first() =~= values@.skip(next + 1));
                        let more = filled_from(later.drop_first(), values@.skip(next + 1));
                        assert(before + (decimal(values@[next as int] as nat) + more) =~= filled@
                            + more);
                    }
                    next += 1;
                },
            }
            at += 1;
        }
        proof {
            assert(models.skip(at as int) =~= Seq::<PieceModel>::empty());
            assert(filled@ + Seq::<char>::empty() =~= filled@);
        }
        Some(filled)
    }
}

impl Clone for Pattern {
    fn clone(&self) -> (copy: Self)
        ensures
            copy@ == self@,
            self.wf() ==> copy.wf(),
    {
        let mut pieces: Vec<Piece> = Vec::new();
        let mut at: usize = 0;
        while at < self.pieces.len()
            invariant
                at <= self.pieces@.len(),
                pieces@.len() == at,
                forall|i: int| 0 <= i < at ==> (#[trigger] pieces@[i])@ == self.pieces@[i]@,
            decreases self.pieces@.len() - at,
        {
            match &self.pieces[at] {
                Piece::Literal(text) => {
                    pieces.push(Piece::Literal(vstd::slice::slice_to_vec(text)));
                },
                Piece::Integer => {
                    pieces.push(Piece::Integer);
                },
            }
            at += 1;
        }
        assert(piece_models(pieces@) =~= piece_models(self.pieces@));
        Pattern { pieces, text: self.text.clone() }
    }
}

spec fn joined(done: Seq<PieceModel>, rest: Option<Seq<PieceModel>>) -> Option<Seq<PieceModel>> {
    match rest {
        None => None,
        Some(more) => Some(done + more),
    }
}

spec fn prefixed(done: Seq<u64>, rest: Option<Seq<u64>>) -> Option<Seq<u64>> {
    match rest {
        None => None,
        Some(more) => Some(done + more),
    }
}

fn find_hole(chars: &Vec<char>, from: usize) -> (at: usize)
    requires
        from <= chars@.len(),
    ensures
        from <= at <= chars@.len(),
        at - from == first_hole(chars@.skip(from as int)),
        at < chars@.len() ==> at + 3 <= chars@.len() && hole_at(
            chars@.skip(from as int),
            at - from,
        ),
{
    let ghost rest = chars@.skip(from as int);
    let mut at: usize = from;
    while at < chars.len()
        invariant
            from <= at <= chars@.len(),
            rest == chars@.skip(from as int),
            forall|i: int| 0 <= i < at - from ==> !hole_at(rest, i),
        decreases chars@.len() - at,
    {
        if chars.len() - at >= 3 && chars[at] == '{' && chars[at + 1] == 'i' && chars[at + 2]
            == '}' {
            proof {
                assert(hole_at(rest, at - from));
                first_hole_is(rest, at - from);
            }
            return at;
        }
        assert(!hole_at(rest, at - from));
        at += 1;
    }
    proof {
        first_hole_is(rest, at - from);
    }
    at
}

fn skip_digits(chars: &Vec<char>, from: usize) -> (end: usize)
    requires
        from <= chars@.len(),
    ensures
        from <= end <= chars@.len(),
        end - from == digit_run(chars@.skip(from as int)),
        forall|i: int| from <= i < end ==> is_digit(#[trigger] chars@[i]),
{
    let ghost rest = chars@.skip(from as int);
    let mut end: usize = from;
    while end < chars.len() && digit(chars[end])
        invariant
            from <= end <= chars@.len(),
            forall|i: int| from <= i < end ==> is_digit(#[trigger] chars@[i]),
        decreases chars@.len() - end,
    {
        end += 1;
    }
    proof {
        assert forall|i: int| 0 <= i < end - from implies is_digit(#[trigger] rest[i]) by {
            assert(is_digit(chars@[from + i]));
        }
        digit_run_is(rest, end - from);
    }
    end
}

fn braced(chars: &[char]) -> (yes: bool)
    ensures
        yes == has_brace(chars@),
{
    let mut at: usize = 0;
    while at < chars.len()
        invariant
            at <= chars@.len(),
            forall|i: int| 0 <= i < at ==> chars@[i] != '{' && chars@[i] != '}',
        decreases chars@.len() - at,
    {
        if chars[at] == '{' || chars[at] == '}' {
            assert(chars@.contains(chars@[at as int]));
            return true;
        }
        at += 1;
    }
    false
}

} // verus!
