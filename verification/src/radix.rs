//! Mixed-radix numerals, most significant digit first.

use vstd::arithmetic::div_mod::{lemma_fundamental_div_mod, lemma_fundamental_div_mod_converse};
use vstd::arithmetic::mul::{
    lemma_mul_basics, lemma_mul_inequality, lemma_mul_is_associative, lemma_mul_is_commutative,
    lemma_mul_is_distributive_add_other_way, lemma_mul_is_distributive_sub_other_way,
    lemma_mul_strictly_positive,
};
use vstd::prelude::*;

verus! {

/// How many numbers a radix can spell: the product of its bases.
pub open spec fn span(radix: Seq<u64>) -> nat
    decreases radix.len(),
{
    if radix.len() == 0 {
        1
    } else {
        radix[0] as nat * span(radix.drop_first())
    }
}

/// The weight of one digit: the product of the bases behind it.
pub open spec fn weight(radix: Seq<u64>, at: int) -> nat {
    span(radix.skip(at + 1))
}

/// The number that digits spell.
pub open spec fn value(radix: Seq<u64>, digits: Seq<int>) -> int
    decreases radix.len(),
{
    if radix.len() == 0 {
        0
    } else {
        digits[0] * span(radix.drop_first()) + value(radix.drop_first(), digits.drop_first())
    }
}

/// The digits of a number.
pub open spec fn digits(radix: Seq<u64>, n: int) -> Seq<int>
    decreases radix.len(),
{
    if radix.len() == 0 {
        Seq::empty()
    } else {
        let rest = radix.drop_first();
        seq![n / span(rest) as int] + digits(rest, n % span(rest) as int)
    }
}

/// One digit for each base, and each below its base.
pub open spec fn proper(radix: Seq<u64>, digits: Seq<int>) -> bool {
    &&& digits.len() == radix.len()
    &&& forall|i: int| 0 <= i < radix.len() ==> 0 <= #[trigger] digits[i] < radix[i]
}

/// No base is zero.
pub open spec fn positive(radix: Seq<u64>) -> bool {
    forall|i: int| 0 <= i < radix.len() ==> 0 < #[trigger] radix[i]
}

pub proof fn span_is_positive(radix: Seq<u64>)
    requires
        positive(radix),
    ensures
        span(radix) > 0,
    decreases radix.len(),
{
    if radix.len() > 0 {
        assert(radix[0] > 0);
        let rest = radix.drop_first();
        assert forall|i: int| 0 <= i < rest.len() implies 0 < #[trigger] rest[i] by {
            assert(rest[i] == radix[i + 1]);
        }
        span_is_positive(rest);
        lemma_mul_strictly_positive(radix[0] as int, span(rest) as int);
    }
}

pub proof fn positive_tail(radix: Seq<u64>, at: int)
    requires
        positive(radix),
        0 <= at <= radix.len(),
    ensures
        positive(radix.skip(at)),
{
    let rest = radix.skip(at);
    assert forall|i: int| 0 <= i < rest.len() implies 0 < #[trigger] rest[i] by {
        assert(rest[i] == radix[i + at]);
    }
}

/// Proper digits spell a number below the span.
pub proof fn value_is_bounded(radix: Seq<u64>, d: Seq<int>)
    requires
        proper(radix, d),
    ensures
        0 <= value(radix, d) < span(radix),
    decreases radix.len(),
{
    if radix.len() > 0 {
        let rest = radix.drop_first();
        let tail = d.drop_first();
        proper_tail(radix, d);
        value_is_bounded(rest, tail);
        let s = span(rest) as int;
        assert(0 <= d[0] < radix[0]);
        lemma_mul_inequality(d[0] + 1, radix[0] as int, s);
        lemma_mul_inequality(0, d[0], s);
        lemma_mul_is_distributive_add_other_way(s, d[0], 1);
    }
}

proof fn proper_tail(radix: Seq<u64>, d: Seq<int>)
    requires
        proper(radix, d),
        radix.len() > 0,
    ensures
        proper(radix.drop_first(), d.drop_first()),
{
    let rest = radix.drop_first();
    let tail = d.drop_first();
    assert forall|i: int| 0 <= i < rest.len() implies 0 <= #[trigger] tail[i] < rest[i] by {
        assert(tail[i] == d[i + 1]);
        assert(rest[i] == radix[i + 1]);
    }
}

/// The digits of the number that proper digits spell are those digits.
pub proof fn digits_of_value(radix: Seq<u64>, d: Seq<int>)
    requires
        proper(radix, d),
    ensures
        digits(radix, value(radix, d)) == d,
    decreases radix.len(),
{
    if radix.len() > 0 {
        let rest = radix.drop_first();
        let tail = d.drop_first();
        proper_tail(radix, d);
        value_is_bounded(rest, tail);
        digits_of_value(rest, tail);
        let s = span(rest) as int;
        lemma_mul_is_commutative(d[0], s);
        lemma_fundamental_div_mod_converse(value(radix, d), s, d[0], value(rest, tail));
        assert(seq![d[0]] + tail =~= d);
    } else {
        assert(d =~= Seq::<int>::empty());
    }
}

/// The digits of a number below the span are proper and spell the number.
pub proof fn value_of_digits(radix: Seq<u64>, n: int)
    requires
        positive(radix),
        0 <= n < span(radix),
    ensures
        proper(radix, digits(radix, n)),
        value(radix, digits(radix, n)) == n,
    decreases radix.len(),
{
    if radix.len() > 0 {
        let rest = radix.drop_first();
        assert(rest =~= radix.skip(1));
        positive_tail(radix, 1);
        span_is_positive(rest);
        let s = span(rest) as int;
        lemma_fundamental_div_mod(n, s);
        value_of_digits(rest, n % s);
        let d = digits(radix, n);
        let tail = digits(rest, n % s);
        assert(d.drop_first() =~= tail);
        lemma_mul_is_commutative(s, n / s);
        assert(0 <= n / s < radix[0]) by (nonlinear_arith)
            requires
                0 <= n < radix[0] * s,
                s > 0,
        ;
        assert forall|i: int| 0 <= i < radix.len() implies 0 <= #[trigger] d[i] < radix[i] by {
            if i > 0 {
                assert(d[i] == tail[i - 1]);
                assert(radix[i] == rest[i - 1]);
            }
        }
    }
}

/// Changing one digit changes the number by its weight.
pub proof fn value_update(radix: Seq<u64>, d: Seq<int>, at: int, new: int)
    requires
        0 <= at < radix.len(),
        d.len() == radix.len(),
    ensures
        value(radix, d.update(at, new)) == value(radix, d) + (new - d[at]) * weight(radix, at),
    decreases radix.len(),
{
    let rest = radix.drop_first();
    let changed = d.update(at, new);
    if at == 0 {
        assert(changed.drop_first() =~= d.drop_first());
        assert(rest =~= radix.skip(1));
        lemma_mul_is_distributive_sub_other_way(span(rest) as int, new, d[0]);
    } else {
        value_update(rest, d.drop_first(), at - 1, new);
        assert(changed.drop_first() =~= d.drop_first().update(at - 1, new));
        assert(rest.skip(at) =~= radix.skip(at + 1));
    }
}

/// Digits that are all zero spell zero.
pub proof fn value_of_zeros(radix: Seq<u64>, d: Seq<int>)
    requires
        d.len() == radix.len(),
        forall|i: int| 0 <= i < d.len() ==> #[trigger] d[i] == 0,
    ensures
        value(radix, d) == 0,
    decreases radix.len(),
{
    if radix.len() > 0 {
        let tail = d.drop_first();
        assert forall|i: int| 0 <= i < tail.len() implies #[trigger] tail[i] == 0 by {
            assert(tail[i] == d[i + 1]);
        }
        value_of_zeros(radix.drop_first(), tail);
    }
}

/// A radix in two parts.
pub proof fn span_of_parts(outer: Seq<u64>, inner: Seq<u64>)
    ensures
        span(outer + inner) == span(outer) * span(inner),
    decreases outer.len(),
{
    if outer.len() == 0 {
        assert(outer + inner =~= inner);
        assert(span(outer) == 1);
        lemma_mul_basics(span(inner) as int);
    } else {
        span_of_parts(outer.drop_first(), inner);
        assert((outer + inner).drop_first() =~= outer.drop_first() + inner);
        assert((outer + inner)[0] == outer[0]);
        assert(span(outer) == outer[0] as nat * span(outer.drop_first()));
        assert(span(outer + inner) == outer[0] as nat * (span(outer.drop_first()) * span(inner)));
        lemma_mul_is_associative(
            outer[0] as int,
            span(outer.drop_first()) as int,
            span(inner) as int,
        );
    }
}

/// A numeral in two parts.
pub proof fn value_of_parts(outer: Seq<u64>, inner: Seq<u64>, a: Seq<int>, b: Seq<int>)
    requires
        a.len() == outer.len(),
        b.len() == inner.len(),
    ensures
        value(outer + inner, a + b) == value(outer, a) * span(inner) + value(inner, b),
    decreases outer.len(),
{
    if outer.len() == 0 {
        assert(outer + inner =~= inner);
        assert(a + b =~= b);
    } else {
        let rest = outer.drop_first();
        value_of_parts(rest, inner, a.drop_first(), b);
        assert((outer + inner).drop_first() =~= rest + inner);
        assert((a + b).drop_first() =~= a.drop_first() + b);
        span_of_parts(rest, inner);
        let s = span(rest) as int;
        let t = span(inner) as int;
        lemma_mul_is_associative(a[0], s, t);
        lemma_mul_is_distributive_add_other_way(t, a[0] * s, value(rest, a.drop_first()));
    }
}

/// The digits of a number split where the radix splits.
pub proof fn digits_of_parts(outer: Seq<u64>, inner: Seq<u64>, high: int, low: int)
    requires
        positive(outer),
        positive(inner),
        0 <= high < span(outer),
        0 <= low < span(inner),
    ensures
        digits(outer + inner, high * span(inner) + low) == digits(outer, high) + digits(inner, low),
{
    value_of_digits(outer, high);
    value_of_digits(inner, low);
    let a = digits(outer, high);
    let b = digits(inner, low);
    value_of_parts(outer, inner, a, b);
    let radix = outer + inner;
    let d = a + b;
    assert forall|i: int| 0 <= i < radix.len() implies 0 <= #[trigger] d[i] < radix[i] by {
        if i < outer.len() {
            assert(d[i] == a[i]);
        } else {
            assert(d[i] == b[i - outer.len()]);
        }
    }
    digits_of_value(radix, d);
}

/// The span in front of a digit, from its weight.
pub proof fn span_from(radix: Seq<u64>, at: int)
    requires
        0 <= at < radix.len(),
    ensures
        span(radix.skip(at)) == radix[at] * weight(radix, at),
{
    assert(radix.skip(at).drop_first() =~= radix.skip(at + 1));
}

/// The span of a longer tail is at least that of a shorter one.
pub proof fn weight_is_bounded(radix: Seq<u64>, at: int)
    requires
        positive(radix),
        0 <= at <= radix.len(),
    ensures
        0 < span(radix.skip(at)) <= span(radix),
{
    positive_tail(radix, at);
    span_is_positive(radix.skip(at));
    let head = radix.take(at);
    assert forall|i: int| 0 <= i < head.len() implies 0 < #[trigger] head[i] by {
        assert(head[i] == radix[i]);
    }
    span_is_positive(head);
    span_of_parts(head, radix.skip(at));
    assert(head + radix.skip(at) =~= radix);
    lemma_mul_inequality(1, span(head) as int, span(radix.skip(at)) as int);
}

/// A larger base spans at least as much, digit by digit.
pub proof fn span_is_monotone(low: Seq<u64>, high: Seq<u64>)
    requires
        low.len() == high.len(),
        forall|i: int| 0 <= i < low.len() ==> #[trigger] low[i] <= high[i],
    ensures
        span(low) <= span(high),
    decreases low.len(),
{
    if low.len() > 0 {
        let a = low.drop_first();
        let b = high.drop_first();
        assert forall|i: int| 0 <= i < a.len() implies #[trigger] a[i] <= b[i] by {
            assert(a[i] == low[i + 1]);
        }
        span_is_monotone(a, b);
        assert(low[0] <= high[0]);
        assert(low[0] * span(a) <= high[0] * span(b)) by (nonlinear_arith)
            requires
                low[0] <= high[0],
                span(a) <= span(b),
        ;
    }
}

} // verus!
