//! What a formula means: an operand is a number, an axis or a rounded formula,
//! and operators apply from left to right.

use super::formula::{
    chain, closing, closing_is_inside, combined, evaluation, links, opens_ceil, operand_at,
    operand_end, operand_is_inside, operator_at, token_value, without_blanks, Evaluation,
};
use crate::text::{decimal, decimal_round_trip, is_digit};
use vstd::prelude::*;

verus! {

/// How many brackets are open behind the first `n` characters.
pub open spec fn open_brackets(text: Seq<char>, n: int) -> int
    decreases n,
{
    if n <= 0 {
        0
    } else {
        open_brackets(text, n - 1) + if text[n - 1] == '(' {
            1int
        } else if text[n - 1] == ')' {
            -1
        } else {
            0
        }
    }
}

/// Whether each bracket of a text has its partner in it.
pub open spec fn balanced(text: Seq<char>) -> bool {
    &&& open_brackets(text, text.len() as int) == 0
    &&& forall|n: int| 0 <= n <= text.len() ==> #[trigger] open_brackets(text, n) >= 0
}

/// A text inside `ceil(` and `)`.
pub open spec fn rounded_up(inner: Seq<char>) -> Seq<char> {
    seq!['c', 'e', 'i', 'l', '('] + inner + seq![')']
}

/// Whether a text is one operand, and has the value `value`.
pub open spec fn is_operand(text: Seq<char>, shape: Seq<u64>, value: u64) -> bool {
    ||| value > 0 && text == decimal(value as nat)
    ||| exists|axis: int|
        0 <= axis < shape.len() && shape[axis] == value && text == seq!['d'] + #[trigger] decimal(
            axis as nat,
        )
    ||| exists|inner: Seq<char>| #[trigger]
        rounded_up(inner) == text && balanced(inner) && chain(inner, shape, true)
            == Evaluation::Value(value)
}

proof fn closes_behind(inner: Seq<char>, tail: Seq<char>, n: int)
    requires
        balanced(inner),
        0 <= n <= inner.len(),
    ensures
        closing(rounded_up(inner) + tail, 5 + n, (1 + open_brackets(inner, n)) as nat) == Some(
            5 + inner.len() as int,
        ),
    decreases inner.len() - n,
{
    let text = rounded_up(inner) + tail;
    assert(open_brackets(inner, n) >= 0);
    if n < inner.len() {
        assert(text[5 + n] == inner[n]);
        assert(open_brackets(inner, n + 1) >= 0);
        closes_behind(inner, tail, n + 1);
    } else {
        assert(text[5 + n] == ')');
    }
}

proof fn no_operator_before(text: Seq<char>, from: int, end: int)
    requires
        0 <= from <= end <= text.len(),
        forall|i: int| 0 <= i < end ==> #[trigger] text[i] != '*' && text[i] != '/',
        end < text.len() ==> text[end] == '*' || text[end] == '/',
    ensures
        operator_at(text, from) == end,
    decreases end - from,
{
    if from < end {
        assert(text[from] != '*' && text[from] != '/');
        no_operator_before(text, from + 1, end);
    }
}

proof fn a_token_is_read(token: Seq<char>, tail: Seq<char>)
    requires
        token.len() > 0,
        forall|i: int| 0 <= i < token.len() ==> #[trigger] token[i] != '*' && token[i] != '/',
        token[0] != 'c',
        tail.len() > 0 ==> tail[0] == '*' || tail[0] == '/',
    ensures
        !opens_ceil(token + tail),
        operand_end(token + tail) == token.len(),
        (token + tail).take(token.len() as int) == token,
{
    let text = token + tail;
    assert(text[0] == token[0]);
    if text.len() >= 5 {
        assert(text.take(5)[0] == text[0]);
        assert(seq!['c', 'e', 'i', 'l', '('][0] == 'c');
    }
    assert forall|i: int| 0 <= i < token.len() implies #[trigger] text[i] != '*' && text[i]
        != '/' by {
        assert(text[i] == token[i]);
    }
    no_operator_before(text, 0, token.len() as int);
    assert(text.take(token.len() as int) =~= token);
}

proof fn an_operand_is_read(
    text: Seq<char>,
    operand: Seq<char>,
    tail: Seq<char>,
    shape: Seq<u64>,
    value: u64,
)
    requires
        is_operand(operand, shape, value),
        shape.len() <= usize::MAX,
        tail.len() > 0 ==> tail[0] == '*' || tail[0] == '/',
    ensures
        operand.len() > 0,
        operand_end(operand + tail) == operand.len(),
        operand_at(text, operand + tail, shape) == Evaluation::Value(value),
{
    let whole = operand + tail;
    if value > 0 && operand == decimal(value as nat) {
        decimal_round_trip(value as nat);
        assert(is_digit(operand[0]));
        assert forall|i: int| 0 <= i < operand.len() implies #[trigger] operand[i] != '*'
            && operand[i] != '/' by {
            assert(is_digit(operand[i]));
        }
        a_token_is_read(operand, tail);
        assert(token_value(text, operand, shape) is Ok);
    } else if exists|axis: int|
        0 <= axis < shape.len() && shape[axis] == value && operand == seq!['d']
            + #[trigger] decimal(axis as nat) {
        let axis = choose|axis: int|
            0 <= axis < shape.len() && shape[axis] == value && operand == seq!['d']
                + #[trigger] decimal(axis as nat);
        let spelled = decimal(axis as nat);
        decimal_round_trip(axis as nat);
        assert forall|i: int| 0 <= i < operand.len() implies #[trigger] operand[i] != '*'
            && operand[i] != '/' by {
            if i > 0 {
                assert(is_digit(spelled[i - 1]));
                assert(operand[i] == spelled[i - 1]);
            }
        }
        a_token_is_read(operand, tail);
        assert(operand.skip(1) =~= spelled);
        assert(token_value(text, operand, shape) is Ok);
    } else {
        let inner = choose|inner: Seq<char>| #[trigger]
            rounded_up(inner) == operand && balanced(inner) && chain(inner, shape, true)
                == Evaluation::Value(value);
        closes_behind(inner, tail, 0);
        assert(whole.take(5) =~= seq!['c', 'e', 'i', 'l', '(']);
        assert(closing(whole, 5, 1) == Some(5 + inner.len() as int));
        assert(whole.subrange(5, 5 + inner.len() as int) =~= inner);
    }
}

/// A single operand has the value that it spells: a number its own, an axis the
/// extent of the shape there, a rounded formula that of the text in the brackets.
pub proof fn an_operand_has_its_value(
    text: Seq<char>,
    shape: Seq<u64>,
    ceiling: bool,
    value: u64,
)
    requires
        is_operand(text, shape, value),
        shape.len() <= usize::MAX,
    ensures
        chain(text, shape, ceiling) == Evaluation::Value(value),
{
    an_operand_is_read(text, text, Seq::empty(), shape, value);
    assert(text + Seq::<char>::empty() =~= text);
}

proof fn the_same_operand(
    text: Seq<char>,
    other: Seq<char>,
    rest: Seq<char>,
    tail: Seq<char>,
    shape: Seq<u64>,
)
    requires
        operand_at(text, rest, shape) is Value,
        tail.len() > 0,
        tail[0] == '*' || tail[0] == '/',
    ensures
        operand_end(rest + tail) == operand_end(rest),
        operand_at(other, rest + tail, shape) == operand_at(text, rest, shape),
{
    let whole = rest + tail;
    operand_is_inside(rest);
    if opens_ceil(rest) {
        assert(whole.take(5) =~= rest.take(5));
        closing_stays(rest, tail, 5, 1);
        let end = closing(rest, 5, 1)->Some_0;
        closing_is_inside(rest, 5, 1);
        assert(whole.subrange(5, end) =~= rest.subrange(5, end));
    } else {
        if opens_ceil(whole) {
            let name = seq!['c', 'e', 'i', 'l', '('];
            if rest.len() < 5 {
                let at = rest.len() as int;
                assert(whole.take(5)[at] == whole[at]);
                assert(whole[at] == tail[0]);
                assert(name[at] != '*' && name[at] != '/');
            } else {
                assert(whole.take(5) =~= rest.take(5));
            }
        }
        operator_stays(rest, tail, 0);
        let end = operand_end(rest);
        assert(whole.take(end) =~= rest.take(end));
    }
}

proof fn closing_stays(rest: Seq<char>, tail: Seq<char>, from: int, depth: nat)
    requires
        0 <= from,
        closing(rest, from, depth) is Some,
    ensures
        closing(rest + tail, from, depth) == closing(rest, from, depth),
    decreases rest.len() - from,
{
    if from < rest.len() {
        assert((rest + tail)[from] == rest[from]);
        if rest[from] == '(' {
            closing_stays(rest, tail, from + 1, depth + 1);
        } else if rest[from] == ')' {
            if depth != 1 {
                closing_stays(rest, tail, from + 1, (depth - 1) as nat);
            }
        } else {
            closing_stays(rest, tail, from + 1, depth);
        }
    }
}

proof fn operator_stays(rest: Seq<char>, tail: Seq<char>, from: int)
    requires
        0 <= from <= rest.len(),
        tail.len() > 0,
        tail[0] == '*' || tail[0] == '/',
    ensures
        operator_at(rest + tail, from) == operator_at(rest, from),
    decreases rest.len() - from,
{
    let whole = rest + tail;
    if from < rest.len() {
        assert(whole[from] == rest[from]);
        operator_stays(rest, tail, from + 1);
    } else {
        assert(whole[from] == tail[0]);
    }
}

proof fn links_go_on(
    text: Seq<char>,
    other: Seq<char>,
    rest: Seq<char>,
    operand: Seq<char>,
    operator: char,
    shape: Seq<u64>,
    ceiling: bool,
    value: u64,
    divide: bool,
)
    requires
        links(text, rest, shape, ceiling, value, divide) is Value,
        operator == '*' || operator == '/',
        operand.len() > 0,
    ensures
        links(other, rest + seq![operator] + operand, shape, ceiling, value, divide) == links(
            other,
            operand,
            shape,
            ceiling,
            links(text, rest, shape, ceiling, value, divide)->Value_0,
            operator == '/',
        ),
    decreases rest.len(),
{
    let tail = seq![operator] + operand;
    let whole = rest + seq![operator] + operand;
    assert(whole =~= rest + tail);
    assert(tail[0] == operator);
    the_same_operand(text, other, rest, tail, shape);
    operand_is_inside(rest);
    let end = operand_end(rest);
    let factor = operand_at(text, rest, shape)->Value_0;
    let next = combined(text, ceiling, value, divide, factor)->Value_0;
    assert(combined(other, ceiling, value, divide, factor) == Evaluation::Value(
        next,
    ));
    if end == rest.len() {
        assert(whole[end] == operator);
        assert(whole.skip(end + 1) =~= operand);
    } else {
        assert(whole[end] == rest[end]);
        assert(whole.skip(end + 1) =~= rest.skip(end + 1) + seq![operator] + operand);
        links_go_on(
            text,
            other,
            rest.skip(end + 1),
            operand,
            operator,
            shape,
            ceiling,
            next,
            rest[end] == '/',
        );
    }
}

/// A product of a formula and an operand is the product of their values.
pub proof fn a_product_is_of_the_values(
    left: Seq<char>,
    right: Seq<char>,
    shape: Seq<u64>,
    ceiling: bool,
    value: u64,
    operand: u64,
)
    requires
        chain(left, shape, ceiling) == Evaluation::Value(value),
        is_operand(right, shape, operand),
        shape.len() <= usize::MAX,
    ensures
        chain(left + seq!['*'] + right, shape, ceiling) == if value * operand <= u64::MAX {
            Evaluation::Value((value * operand) as u64)
        } else {
            Evaluation::TooLarge
        },
{
    let whole = left + seq!['*'] + right;
    an_operand_is_read(whole, right, Seq::empty(), shape, operand);
    assert(right + Seq::<char>::empty() =~= right);
    links_go_on(left, whole, left, right, '*', shape, ceiling, 1, false);
}

/// A quotient of a formula and an operand is exact, or inside `ceil(...)` the
/// smallest whole number that is no less. Nothing divides by zero, and outside
/// `ceil(...)` a remainder is refused.
pub proof fn a_quotient_is_of_the_values(
    left: Seq<char>,
    right: Seq<char>,
    shape: Seq<u64>,
    ceiling: bool,
    value: u64,
    operand: u64,
)
    requires
        chain(left, shape, ceiling) == Evaluation::Value(value),
        is_operand(right, shape, operand),
        shape.len() <= usize::MAX,
    ensures
        match chain(left + seq!['/'] + right, shape, ceiling) {
            Evaluation::Value(quotient) => operand > 0 && if ceiling {
                (quotient - 1) * operand < value <= quotient * operand
            } else {
                value == quotient * operand
            },
            Evaluation::Fault(_) => operand == 0 || (!ceiling && forall|quotient: int| #[trigger]
                (quotient * operand) != value),
            Evaluation::TooLarge => false,
        },
{
    let whole = left + seq!['/'] + right;
    an_operand_is_read(whole, right, Seq::empty(), shape, operand);
    assert(right + Seq::<char>::empty() =~= right);
    links_go_on(left, whole, left, right, '/', shape, ceiling, 1, false);
    if operand > 0 {
        let quotient = value as int / operand as int;
        let remainder = value as int % operand as int;
        vstd::arithmetic::div_mod::lemma_fundamental_div_mod(value as int, operand as int);
        assert(value == operand * quotient + remainder);
        assert(operand * quotient == quotient * operand) by (nonlinear_arith);
        assert((quotient + 1) * operand == quotient * operand + operand) by (nonlinear_arith);
        assert((quotient - 1) * operand == quotient * operand - operand) by (nonlinear_arith);
        assert(0 <= quotient <= value) by (nonlinear_arith)
            requires
                value == quotient * operand + remainder,
                0 <= remainder < operand,
                value >= 0,
                operand >= 1,
        ;
        if remainder != 0 {
            assert(quotient < value) by (nonlinear_arith)
                requires
                    value == quotient * operand + remainder,
                    0 < remainder < operand,
                    0 <= quotient,
                    operand >= 1,
            ;
            assert forall|other: int| #[trigger] (other * operand) != value by {
                if other * operand == value {
                    vstd::arithmetic::div_mod::lemma_mod_multiples_basic(
                        other,
                        operand as int,
                    );
                }
            }
        }
    }
}

/// Blanks do not count, wherever they stand.
pub proof fn blanks_do_not_count(left: Seq<char>, right: Seq<char>, shape: Seq<u64>)
    ensures
        evaluation(left + seq![' '] + right, shape) == evaluation(left + right, shape),
        (forall|i: int| 0 <= i < left.len() ==> #[trigger] left[i] != ' ') ==> evaluation(left, shape)
            == chain(left, shape, false),
{
    a_blank_is_left_out(left, right);
    if forall|i: int| 0 <= i < left.len() ==> #[trigger] left[i] != ' ' {
        nothing_is_left_out(left);
    }
}

proof fn a_blank_is_left_out(left: Seq<char>, right: Seq<char>)
    ensures
        without_blanks(left + seq![' '] + right) == without_blanks(left + right),
    decreases right.len(),
{
    let with = left + seq![' '] + right;
    if right.len() == 0 {
        assert(with.drop_last() =~= left);
        assert(left + right =~= left);
    } else {
        let less = right.drop_last();
        a_blank_is_left_out(left, less);
        assert(with.drop_last() =~= left + seq![' '] + less);
        assert((left + right).drop_last() =~= left + less);
        assert(with.last() == right.last() && (left + right).last() == right.last());
    }
}

proof fn nothing_is_left_out(text: Seq<char>)
    requires
        forall|i: int| 0 <= i < text.len() ==> #[trigger] text[i] != ' ',
    ensures
        without_blanks(text) == text,
    decreases text.len(),
{
    if text.len() > 0 {
        let head = text.drop_last();
        assert forall|i: int| 0 <= i < head.len() implies #[trigger] head[i] != ' ' by {
            assert(head[i] == text[i]);
        }
        nothing_is_left_out(head);
        assert(head.push(text.last()) =~= text);
    } else {
        assert(text =~= Seq::empty());
    }
}

} // verus!
