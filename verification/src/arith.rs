use vstd::prelude::*;
use vstd::arithmetic::div_mod::{
    lemma_div_is_ordered, lemma_div_multiples_vanish, lemma_div_pos_is_pos,
};
use vstd::arithmetic::mul::{lemma_mul_inequality, lemma_mul_nonnegative, lemma_mul_upper_bound};
use crate::SCALE;

verus! {

/// Largest value the fixed-point cost of a lot can take:
/// floor(u64::MAX * u64::MAX / SCALE). It fits comfortably in `i128`.
pub open spec fn max_cost() -> int {
    (u64::MAX as int * u64::MAX as int) / (SCALE as int)
}

/// floor(a * b / d), or `None` when the quotient does not fit in `u64`.
pub fn mul_div_u64(a: u64, b: u64, d: u64) -> (r: Option<u64>)
    requires
        1 <= d,
    ensures
        r matches Some(q) ==> q == (a * b) / (d as int),
        r is Some <==> (a * b) / (d as int) <= u64::MAX,
{
    proof {
        lemma_mul_upper_bound(a as int, u64::MAX as int, b as int, u64::MAX as int);
    }
    let p: u128 = (a as u128) * (b as u128);
    let q: u128 = p / (d as u128);
    if q <= (u64::MAX as u128) {
        Some(q as u64)
    } else {
        None
    }
}

/// Base-asset value of `amount` units priced `price` base units apiece:
/// floor(amount * price / SCALE), both factors scaled by `SCALE`.
pub open spec fn spec_cost(amount: u64, price: u64) -> int {
    (amount * price) / (SCALE as int)
}

/// The fixed-point cost of any lot is non-negative and bounded by `max_cost`.
pub proof fn lemma_cost_bound(amount: u64, price: u64)
    ensures
        0 <= spec_cost(amount, price) <= max_cost(),
{
    lemma_mul_upper_bound(amount as int, u64::MAX as int, price as int, u64::MAX as int);
    lemma_mul_nonnegative(amount as int, price as int);
    lemma_div_pos_is_pos(amount as int * price as int, SCALE as int);
    lemma_div_is_ordered(
        amount as int * price as int,
        u64::MAX as int * u64::MAX as int,
        SCALE as int,
    );
}

/// Computes `spec_cost(amount, price)` exactly; the result always fits `u128`.
pub fn cost_of(amount: u64, price: u64) -> (r: u128)
    ensures
        r == spec_cost(amount, price),
        0 <= spec_cost(amount, price) <= max_cost(),
{
    proof {
        lemma_mul_upper_bound(amount as int, u64::MAX as int, price as int, u64::MAX as int);
        lemma_cost_bound(amount, price);
    }
    ((amount as u128) * (price as u128)) / (SCALE as u128)
}

/// The proceeds slice owed to a fragment of `frag_amount` units out of a sale
/// of `amount` units fetching `proceeds`: floor(proceeds * frag / amount).
/// Never more than the whole proceeds.
pub fn slice_of(proceeds: u64, frag_amount: u64, amount: u64) -> (r: u64)
    requires
        1 <= amount,
        frag_amount <= amount,
    ensures
        r == (proceeds * frag_amount) / (amount as int),
        r <= proceeds,
{
    proof {
        lemma_mul_upper_bound(proceeds as int, u64::MAX as int, frag_amount as int, u64::MAX as int);
        lemma_mul_inequality(frag_amount as int, amount as int, proceeds as int);
        assert(proceeds as int * frag_amount as int == frag_amount as int * proceeds as int)
            by (nonlinear_arith);
        lemma_div_is_ordered(
            proceeds as int * frag_amount as int,
            amount as int * proceeds as int,
            amount as int,
        );
        lemma_div_multiples_vanish(proceeds as int, amount as int);
        assert(amount as int * proceeds as int / (amount as int) == proceeds as int);
        lemma_div_pos_is_pos(proceeds as int * frag_amount as int, amount as int);
    }
    let p: u128 = (proceeds as u128) * (frag_amount as u128);
    let q: u128 = p / (amount as u128);
    q as u64
}

} // verus!
