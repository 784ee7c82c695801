//! Checked 64-bit products.

use vstd::prelude::*;

verus! {

/// The product of `factors`, multiplied from the left, when no partial product
/// leaves 64 bits.
pub open spec fn product(factors: Seq<u64>) -> Option<u64>
    decreases factors.len(),
{
    if factors.len() == 0 {
        Some(1)
    } else {
        match product(factors.drop_last()) {
            None => None,
            Some(head) => if head * factors.last() <= u64::MAX {
                Some((head * factors.last()) as u64)
            } else {
                None
            },
        }
    }
}

/// A product that fits stays within 64 bits at every prefix.
pub proof fn product_of_prefix(factors: Seq<u64>, upto: int)
    requires
        0 <= upto <= factors.len(),
        product(factors) is Some,
    ensures
        product(factors.take(upto)) is Some,
    decreases factors.len(),
{
    if upto == factors.len() {
        assert(factors.take(upto) =~= factors);
    } else {
        product_of_prefix(factors.drop_last(), upto);
        assert(factors.drop_last().take(upto) =~= factors.take(upto));
    }
}

/// Multiplies `factors` from the left.
pub fn checked_product(factors: &[u64]) -> (result: Option<u64>)
    ensures
        result == product(factors@),
{
    let mut value: u64 = 1;
    let mut at: usize = 0;
    while at < factors.len()
        invariant
            at <= factors@.len(),
            product(factors@.take(at as int)) == Some(value),
        decreases factors@.len() - at,
    {
        proof {
            assert(factors@.take(at + 1).drop_last() =~= factors@.take(at as int));
            if product(factors@) is Some {
                product_of_prefix(factors@, at + 1);
            }
        }
        match value.checked_mul(factors[at]) {
            None => {
                return None;
            },
            Some(next) => {
                value = next;
            },
        }
        at += 1;
    }
    proof {
        assert(factors@.take(at as int) =~= factors@);
    }
    Some(value)
}

} // verus!
