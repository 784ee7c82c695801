//! The shape formula: integers, `dN`, `*`, `/` and `ceil(...)`.
//!
//! Division is exact outside `ceil(...)`: a formula that divides an axis it
//! cannot divide refuses the shape, it does not round it.

use crate::text::{chars_of, parse_unsigned, string_of, unsigned};
use vstd::prelude::*;
use vstd::slice::slice_subrange;

verus! {

/// Why a formula has no value for a shape.
#[derive(Clone, Debug, PartialEq, Eq)]
pub enum FormulaFault {
    /// There is nothing to evaluate.
    Empty,
    /// `ceil(` is not closed.
    Unclosed { text: String },
    /// Behind `d` stands no axis number.
    NotAnAxis { token: String },
    /// The axis is none of the shape's.
    NoSuchAxis { text: String, axis: u64, rank: usize },
    /// A token is no positive integer.
    NotPositive { token: String },
    /// An operand of a division is zero.
    DividesByZero { text: String },
    /// A division outside `ceil(...)` leaves a remainder.
    Inexact { text: String, value: u64, operand: u64 },
    /// Behind an operand stands no operator.
    Stray { text: String, found: char },
    /// Behind an operator stands no operand.
    EndsOnOperator { text: String },
    /// The formula has the value zero.
    Zero { text: String },
}

/// The value of a [`FormulaFault`].
pub enum FaultModel {
    Empty,
    Unclosed { text: Seq<char> },
    NotAnAxis { token: Seq<char> },
    NoSuchAxis { text: Seq<char>, axis: u64, rank: usize },
    NotPositive { token: Seq<char> },
    DividesByZero { text: Seq<char> },
    Inexact { text: Seq<char>, value: u64, operand: u64 },
    Stray { text: Seq<char>, found: char },
    EndsOnOperator { text: Seq<char> },
    Zero { text: Seq<char> },
}

impl View for FormulaFault {
    type V = FaultModel;

    open spec fn view(&self) -> FaultModel {
        match self {
            FormulaFault::Empty => FaultModel::Empty,
            FormulaFault::Unclosed { text } => FaultModel::Unclosed { text: text@ },
            FormulaFault::NotAnAxis { token } => FaultModel::NotAnAxis { token: token@ },
            FormulaFault::NoSuchAxis { text, axis, rank } => FaultModel::NoSuchAxis {
                text: text@,
                axis: *axis,
                rank: *rank,
            },
            FormulaFault::NotPositive { token } => FaultModel::NotPositive { token: token@ },
            FormulaFault::DividesByZero { text } => FaultModel::DividesByZero { text: text@ },
            FormulaFault::Inexact { text, value, operand } => FaultModel::Inexact {
                text: text@,
                value: *value,
                operand: *operand,
            },
            FormulaFault::Stray { text, found } => FaultModel::Stray { text: text@, found: *found },
            FormulaFault::EndsOnOperator { text } => FaultModel::EndsOnOperator { text: text@ },
            FormulaFault::Zero { text } => FaultModel::Zero { text: text@ },
        }
    }
}

/// What evaluating a formula comes to.
pub enum Evaluation {
    Value(u64),
    Fault(FaultModel),
    /// A product leaves 64 bits.
    TooLarge,
}

/// Whether a text starts with `ceil(`.
pub open spec fn opens_ceil(rest: Seq<char>) -> bool {
    rest.len() >= 5 && rest.take(5) == seq!['c', 'e', 'i', 'l', '(']
}

/// The position of the bracket that closes one opened `depth` brackets ago, at
/// or behind `from`.
pub open spec fn closing(text: Seq<char>, from: int, depth: nat) -> Option<int>
    decreases text.len() - from,
{
    if from >= text.len() {
        None
    } else if text[from] == '(' {
        closing(text, from + 1, depth + 1)
    } else if text[from] == ')' {
        if depth == 1 {
            Some(from)
        } else {
            closing(text, from + 1, (depth - 1) as nat)
        }
    } else {
        closing(text, from + 1, depth)
    }
}

/// The position of the first operator at or behind `from`, or the length.
pub open spec fn operator_at(text: Seq<char>, from: int) -> int
    decreases text.len() - from,
{
    if from >= text.len() || text[from] == '*' || text[from] == '/' {
        from
    } else {
        operator_at(text, from + 1)
    }
}

/// The value of a token: an axis of the shape, or a positive integer.
pub open spec fn token_value(text: Seq<char>, token: Seq<char>, shape: Seq<u64>) -> Result<
    u64,
    FaultModel,
> {
    if token.len() > 0 && token[0] == 'd' {
        match unsigned(token.skip(1), usize::MAX as nat) {
            None => Err(FaultModel::NotAnAxis { token }),
            Some(axis) => if axis < shape.len() {
                Ok(shape[axis as int])
            } else {
                Err(
                    FaultModel::NoSuchAxis { text, axis: axis as u64, rank: shape.len() as usize },
                )
            },
        }
    } else {
        match unsigned(token, u64::MAX as nat) {
            None => Err(FaultModel::NotPositive { token }),
            Some(literal) => if literal == 0 {
                Err(FaultModel::NotPositive { token })
            } else {
                Ok(literal as u64)
            },
        }
    }
}

/// The quotient, rounded up.
pub open spec fn ceiling_quotient(value: u64, operand: u64) -> u64 {
    if value % operand == 0 {
        value / operand
    } else {
        (value / operand + 1) as u64
    }
}

/// One step of a chain: `value` times or divided by `operand`.
pub open spec fn combined(
    text: Seq<char>,
    ceiling: bool,
    value: u64,
    divide: bool,
    operand: u64,
) -> Evaluation {
    if divide {
        if operand == 0 {
            Evaluation::Fault(FaultModel::DividesByZero { text })
        } else if ceiling {
            Evaluation::Value(ceiling_quotient(value, operand))
        } else if value % operand != 0 {
            Evaluation::Fault(FaultModel::Inexact { text, value, operand })
        } else {
            Evaluation::Value(value / operand)
        }
    } else if value * operand > u64::MAX {
        Evaluation::TooLarge
    } else {
        Evaluation::Value((value * operand) as u64)
    }
}

/// Where the operand that a rest starts with ends.
pub open spec fn operand_end(rest: Seq<char>) -> int {
    if opens_ceil(rest) {
        match closing(rest, 5, 1) {
            None => rest.len() as int,
            Some(end) => end + 1,
        }
    } else {
        operator_at(rest, 0)
    }
}

pub proof fn closing_is_inside(text: Seq<char>, from: int, depth: nat)
    ensures
        closing(text, from, depth) matches Some(end) ==> from <= end < text.len(),
    decreases text.len() - from,
{
    if from < text.len() {
        if text[from] == '(' {
            closing_is_inside(text, from + 1, depth + 1);
        } else if text[from] == ')' {
            closing_is_inside(text, from + 1, (depth - 1) as nat);
        } else {
            closing_is_inside(text, from + 1, depth);
        }
    }
}

proof fn operator_is_inside(text: Seq<char>, from: int)
    requires
        0 <= from <= text.len(),
    ensures
        from <= operator_at(text, from) <= text.len(),
    decreases text.len() - from,
{
    if from < text.len() && text[from] != '*' && text[from] != '/' {
        operator_is_inside(text, from + 1);
    }
}

pub proof fn operand_is_inside(rest: Seq<char>)
    ensures
        0 <= operand_end(rest) <= rest.len(),
{
    closing_is_inside(rest, 5, 1);
    operator_is_inside(rest, 0);
}

/// The operand that a rest starts with.
pub open spec fn operand_at(text: Seq<char>, rest: Seq<char>, shape: Seq<u64>) -> Evaluation
    decreases rest.len(), 0nat,
{
    if opens_ceil(rest) {
        match closing(rest, 5, 1) {
            None => Evaluation::Fault(FaultModel::Unclosed { text }),
            Some(end) => {
                proof {
                    closing_is_inside(rest, 5, 1);
                }
                chain(rest.subrange(5, end), shape, true)
            },
        }
    } else {
        match token_value(text, rest.take(operand_end(rest)), shape) {
            Ok(operand) => Evaluation::Value(operand),
            Err(fault) => Evaluation::Fault(fault),
        }
    }
}

/// What the rest of a chain comes to, behind `value` and an operator.
pub open spec fn links(
    text: Seq<char>,
    rest: Seq<char>,
    shape: Seq<u64>,
    ceiling: bool,
    value: u64,
    divide: bool,
) -> Evaluation
    decreases rest.len(), 1nat,
{
    let end = operand_end(rest);
    match operand_at(text, rest, shape) {
        Evaluation::Value(operand) => match combined(text, ceiling, value, divide, operand) {
            Evaluation::Value(next) => if end == rest.len() {
                Evaluation::Value(next)
            } else if rest[end] != '*' && rest[end] != '/' {
                Evaluation::Fault(FaultModel::Stray { text, found: rest[end] })
            } else if end + 1 == rest.len() {
                Evaluation::Fault(FaultModel::EndsOnOperator { text })
            } else {
                proof {
                    operand_is_inside(rest);
                }
                links(text, rest.skip(end + 1), shape, ceiling, next, rest[end] == '/')
            },
            other => other,
        },
        other => other,
    }
}

/// What a chain comes to.
pub open spec fn chain(text: Seq<char>, shape: Seq<u64>, ceiling: bool) -> Evaluation
    decreases text.len(), 2nat,
{
    if text.len() == 0 {
        Evaluation::Fault(FaultModel::Empty)
    } else {
        links(text, text, shape, ceiling, 1, false)
    }
}

/// A text without its blanks.
pub open spec fn without_blanks(text: Seq<char>) -> Seq<char>
    decreases text.len(),
{
    if text.len() == 0 {
        Seq::empty()
    } else if text.last() == ' ' {
        without_blanks(text.drop_last())
    } else {
        without_blanks(text.drop_last()).push(text.last())
    }
}

/// What a formula comes to for a shape.
pub open spec fn evaluation(text: Seq<char>, shape: Seq<u64>) -> Evaluation {
    chain(without_blanks(text), shape, false)
}

// ---------------------------------------------------------------------------
// Evaluating
// ---------------------------------------------------------------------------

spec fn is_outcome(outcome: Result<u64, FormulaFault>, expected: Evaluation) -> bool {
    match outcome {
        Ok(value) => expected == Evaluation::Value(value),
        Err(fault) => expected == Evaluation::Fault(fault@),
    }
}

fn strip_blanks(chars: &[char]) -> (kept: Vec<char>)
    ensures
        kept@ == without_blanks(chars@),
{
    let mut kept: Vec<char> = Vec::new();
    let mut at: usize = 0;
    assert(chars@.take(0) =~= Seq::<char>::empty());
    while at < chars.len()
        invariant
            at <= chars@.len(),
            kept@ == without_blanks(chars@.take(at as int)),
        decreases chars@.len() - at,
    {
        assert(chars@.take(at + 1).drop_last() =~= chars@.take(at as int));
        if chars[at] != ' ' {
            kept.push(chars[at]);
        }
        at += 1;
    }
    assert(chars@.take(at as int) =~= chars@);
    kept
}

fn starts_ceil(rest: &[char]) -> (yes: bool)
    ensures
        yes == opens_ceil(rest@),
{
    if rest.len() < 5 {
        return false;
    }
    let yes = rest[0] == 'c' && rest[1] == 'e' && rest[2] == 'i' && rest[3] == 'l' && rest[4]
        == '(';
    proof {
        let head = rest@.take(5);
        let name = seq!['c', 'e', 'i', 'l', '('];
        if yes {
            assert(head =~= name);
        } else {
            assert(head[0] == rest@[0] && head[1] == rest@[1] && head[2] == rest@[2] && head[3]
                == rest@[3] && head[4] == rest@[4]);
        }
    }
    yes
}

fn find_closing(text: &[char], from: usize) -> (end: Option<usize>)
    requires
        1 <= from <= text@.len(),
    ensures
        match end {
            Some(e) => closing(text@, from as int, 1) == Some(e as int) && from <= e < text@.len(),
            None => closing(text@, from as int, 1) is None,
        },
{
    let mut depth: usize = 1;
    let mut at: usize = from;
    while at < text.len()
        invariant
            from <= at <= text@.len(),
            1 <= from,
            1 <= depth <= 1 + at - from,
            closing(text@, from as int, 1) == closing(text@, at as int, depth as nat),
        decreases text@.len() - at,
    {
        if text[at] == '(' {
            depth += 1;
        } else if text[at] == ')' {
            if depth == 1 {
                return Some(at);
            }
            depth -= 1;
        }
        at += 1;
    }
    None
}

fn find_operator(text: &[char]) -> (end: usize)
    ensures
        end == operator_at(text@, 0),
        end <= text@.len(),
{
    let mut at: usize = 0;
    while at < text.len() && text[at] != '*' && text[at] != '/'
        invariant
            at <= text@.len(),
            operator_at(text@, 0) == operator_at(text@, at as int),
        decreases text@.len() - at,
    {
        at += 1;
    }
    at
}

fn eval_token(text: &[char], token: &[char], shape: &[u64]) -> (operand: Result<u64, FormulaFault>)
    ensures
        match operand {
            Ok(value) => token_value(text@, token@, shape@) == Ok::<u64, FaultModel>(value),
            Err(fault) => token_value(text@, token@, shape@) == Err::<u64, FaultModel>(fault@),
        },
{
    if token.len() > 0 && token[0] == 'd' {
        let spelled = slice_subrange(token, 1, token.len());
        assert(spelled@ =~= token@.skip(1));
        match parse_unsigned(spelled) {
            Some(axis) if axis <= usize::MAX as u64 => {
                if axis < shape.len() as u64 {
                    Ok(shape[axis as usize])
                } else {
                    Err(
                        FormulaFault::NoSuchAxis {
                            text: string_of(text),
                            axis,
                            rank: shape.len(),
                        },
                    )
                }
            },
            _ => Err(FormulaFault::NotAnAxis { token: string_of(token) }),
        }
    } else {
        match parse_unsigned(token) {
            Some(literal) if literal > 0 => Ok(literal),
            _ => Err(FormulaFault::NotPositive { token: string_of(token) }),
        }
    }
}

/// Evaluates a chain of operands.
fn eval_chain(text: &[char], shape: &[u64], ceiling: bool) -> (outcome: Result<u64, FormulaFault>)
    requires
        chain(text@, shape@, ceiling) != Evaluation::TooLarge,
    ensures
        is_outcome(outcome, chain(text@, shape@, ceiling)),
    decreases text@.len(),
{
    if text.len() == 0 {
        return Err(FormulaFault::Empty);
    }
    let ghost all = chain(text@, shape@, ceiling);
    let mut value: u64 = 1;
    let mut divide: bool = false;
    let mut from: usize = 0;
    assert(text@.skip(0) =~= text@);
    loop
        invariant
            from < text@.len(),
            all != Evaluation::TooLarge,
            all == chain(text@, shape@, ceiling),
            all == links(text@, text@.skip(from as int), shape@, ceiling, value, divide),
        decreases text@.len() - from,
    {
        let rest = slice_subrange(text, from, text.len());
        assert(rest@ =~= text@.skip(from as int));
        proof {
            reveal_with_fuel(links, 2);
            reveal_with_fuel(operand_at, 2);
            operand_is_inside(rest@);
        }
        let operand: u64;
        let end: usize;
        if starts_ceil(rest) {
            match find_closing(rest, 5) {
                None => {
                    return Err(FormulaFault::Unclosed { text: string_of(text) });
                },
                Some(close) => {
                    operand = eval_chain(slice_subrange(rest, 5, close), shape, true)?;
                    end = close + 1;
                },
            }
        } else {
            end = find_operator(rest);
            let token = slice_subrange(rest, 0, end);
            assert(token@ =~= rest@.take(end as int));
            operand = eval_token(text, token, shape)?;
        }
        if divide {
            if operand == 0 {
                return Err(FormulaFault::DividesByZero { text: string_of(text) });
            }
            if ceiling {
                let quotient: u64 = value / operand;
                value = if value % operand == 0 {
                    quotient
                } else {
                    proof {
                        assert(value / operand < u64::MAX) by (nonlinear_arith)
                            requires
                                operand > 0,
                                value % operand != 0,
                                value <= u64::MAX,
                        ;
                    }
                    quotient + 1
                };
            } else {
                if value % operand != 0 {
                    return Err(FormulaFault::Inexact { text: string_of(text), value, operand });
                }
                value = value / operand;
            }
        } else {
            assert(value * operand <= u64::MAX);
            value = value * operand;
        }
        if end == rest.len() {
            return Ok(value);
        }
        let next = rest[end];
        if next != '*' && next != '/' {
            return Err(FormulaFault::Stray { text: string_of(text), found: next });
        }
        divide = next == '/';
        if end + 1 == rest.len() {
            return Err(FormulaFault::EndsOnOperator { text: string_of(text) });
        }
        assert(rest@.skip(end + 1) =~= text@.skip(from + end + 1));
        from = from + end + 1;
    }
}

/// Evaluates a formula for a shape.
pub fn eval(text: &str, shape: &[u64]) -> (outcome: Result<u64, FormulaFault>)
    requires
        evaluation(text@, shape@) != Evaluation::TooLarge,
    ensures
        match outcome {
            Ok(value) => evaluation(text@, shape@) == Evaluation::Value(value),
            Err(fault) => evaluation(text@, shape@) == Evaluation::Fault(fault@),
        },
{
    let chars = chars_of(text);
    let kept = strip_blanks(&chars);
    eval_chain(&kept, shape, false)
}

} // verus!
