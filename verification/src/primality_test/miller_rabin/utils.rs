//! Helpers of the Miller-Rabin test: the source of candidate bases and the
//! count of factors of two.

use crate::number_theory::powers::lemma_two_adic_valuation_bound;
use crate::number_theory::two_adic_valuation;
use crate::uint::{lemma_limits_are_powers_of_two, U512};
use vstd::prelude::*;

verus! {

/// An endless supply of random integers of one half-open range.
pub struct RandomIntegers {
    low: U512,
    high: U512,
}

impl RandomIntegers {
    /// The lower end of the range, which belongs to it.
    pub closed spec fn low(&self) -> nat {
        self.low@
    }

    /// The upper end of the range, which does not belong to it.
    pub closed spec fn high(&self) -> nat {
        self.high@
    }

    /// A supply of integers from `low` up to, but not including, `high`.
    pub fn new(low: U512, high: U512) -> (r: Self)
        requires
            low@ < high@,
        ensures
            r.low() == low@,
            r.high() == high@,
    {
        Self { low, high }
    }

    /// The next integer: some value of the range, not determined by the ones
    /// before it.
    pub fn next(&mut self) -> (r: U512)
        requires
            old(self).low() < old(self).high(),
        ensures
            final(self).low() == old(self).low(),
            final(self).high() == old(self).high(),
            old(self).low() <= r@ < old(self).high(),
    {
        U512::random_in_range(&self.low, &self.high)
    }
}

/// How often 2 divides a positive number.
pub fn highest_power_of_2_divisor(base: &U512) -> (exp: u32)
    requires
        base@ > 0,
    ensures
        exp == two_adic_valuation(base@),
{
    let two = U512::two();
    let mut exp: u32 = 0;
    let mut base = *base;
    proof {
        base.lemma_bounded();
        lemma_limits_are_powers_of_two();
        lemma_two_adic_valuation_bound(base@, 512);
    }
    let ghost whole = base@;
    while base.is_even()
        invariant
            two@ == 2,
            base@ > 0,
            exp + two_adic_valuation(base@) == two_adic_valuation(whole),
            two_adic_valuation(whole) < 512,
        decreases base@,
    {
        exp += 1;
        base = base.div(&two);
    }
    exp
}

} // verus!
