//! Trial division: the complete factorization of a number by dividing out
//! 2, 3, 5, 7, 9, ... in turn until the square of the candidate exceeds what
//! is left. It takes about the square root of the number in steps, which is
//! fine for small inputs and serves as the reference for the other methods.

use crate::factorization::{rendering, show_outcome};
use crate::number_theory::{
    all_prime, ascending, divides, is_prime, lemma_divisor_times_cofactor,
    lemma_least_divisor_is_prime, lemma_no_divisor_below_cofactor, lemma_no_small_divisor_is_prime,
    lemma_odd_has_no_even_divisor, lemma_product_push, no_divisor_below, product,
};
use crate::number_theory::unique_factorization::lemma_factorization_of_prime;
use crate::traits::{Command, FactorizationCommand, FactorizationError, PrimeFactorization};
use crate::uint::{half_limit, lemma_square_in_range, lemma_values_push, limit, values, U512};
use vstd::prelude::*;

verus! {

/// Factorization by trial division.
pub struct TrialDivision;

impl PrimeFactorization for TrialDivision {
    /// The prime factors of `n` in ascending order.
    fn prime_factorization(n: &U512) -> (r: Result<Vec<U512>, FactorizationError>)
        ensures
            n@ > 0 ==> r.is_ok(),
            r matches Ok(factors) ==> all_prime(values(factors@)) && ascending(values(factors@)),
            is_prime(n@) ==> (r matches Ok(factors) && values(factors@) == seq![n@]),
    {
        if n.is_zero() {
            return Err(FactorizationError::InvalidInput);
        }
        let factors = trial_div(*n);
        proof {
            if is_prime(n@) {
                lemma_factorization_of_prime(n@, values(factors@));
            }
        }
        Ok(factors)
    }
}

/// The prime factors of a positive number in ascending order.
pub fn trial_div(n: U512) -> (factors: Vec<U512>)
    requires
        n@ > 0,
    ensures
        product(values(factors@)) == n@,
        all_prime(values(factors@)),
        ascending(values(factors@)),
{
    let mut factors: Vec<U512> = Vec::new();
    let mut rest = n;
    let mut divisors = DivisorCandidates::new();
    let ghost mut bound: nat = 2;
    assert(product(values(factors@)) == 1);
    loop
        invariant_except_break
            divisors.current@ <= half_limit() + 1,
            no_divisor_below(rest@, divisors.current@),
            divisors.current@ == 2 || divisors.current@ % 2 == 1,
            forall|i: int|
                0 <= i < factors@.len() ==> (#[trigger] values(factors@)[i]) < divisors.current@,
        invariant
            rest@ >= 1,
            divisors.current@ >= 2,
            product(values(factors@)) * rest@ == n@,
            all_prime(values(factors@)),
            ascending(values(factors@)),
        ensures
            bound >= 2,
            no_divisor_below(rest@, bound),
            bound * bound > rest@,
            forall|i: int| 0 <= i < factors@.len() ==> (#[trigger] values(factors@)[i]) <= bound,
        decreases limit() - divisors.current@,
    {
        let d = divisors.next();
        proof {
            bound = d@;
            rest.lemma_bounded();
        }
        match d.checked_mul(&d) {
            None => {
                break ;
            },
            Some(square) => {
                if rest.lt(&square) {
                    break ;
                }
                proof {
                    lemma_square_in_range(d@);
                }
            },
        }
        while rest.rem(&d).is_zero()
            invariant
                d@ >= 2,
                rest@ >= 1,
                no_divisor_below(rest@, d@),
                product(values(factors@)) * rest@ == n@,
                all_prime(values(factors@)),
                ascending(values(factors@)),
                forall|i: int| 0 <= i < factors@.len() ==> (#[trigger] values(factors@)[i]) <= d@,
            decreases rest@,
        {
            proof {
                lemma_least_divisor_is_prime(d@, rest@);
                lemma_no_divisor_below_cofactor(d@, rest@, d@);
                lemma_divisor_times_cofactor(d@, rest@);
                lemma_values_push(factors@, d);
                lemma_product_push(values(factors@), d@);
                let before = product(values(factors@));
                let quotient = rest@ / d@;
                assert(before * d@ * quotient == before * rest@) by (nonlinear_arith)
                    requires
                        d@ * quotient == rest@,
                ;
                assert(1 <= quotient < rest@) by (nonlinear_arith)
                    requires
                        d@ * quotient == rest@,
                        d@ >= 2,
                        rest@ >= 1,
                ;
            }
            rest = rest.div(&d);
            factors.push(d);
        }
        proof {
            assert forall|k: nat| 2 <= k < divisors.current@ implies !#[trigger] divides(
                k,
                rest@,
            ) by {
                if k == d@ + 1 && d@ != 2 {
                    lemma_odd_has_no_even_divisor(k, rest@);
                }
            }
        }
    }
    if !rest.is_one() {
        proof {
            lemma_no_small_divisor_is_prime(rest@, bound);
            lemma_values_push(factors@, rest);
            lemma_product_push(values(factors@), rest@);
            if rest@ < bound {
                assert(divides(rest@, rest@));
            }
        }
        factors.push(rest);
    } else {
        assert(product(values(factors@)) * 1 == product(values(factors@))) by (nonlinear_arith);
    }
    factors
}

/// The candidates of trial division: 2, then the odd numbers from 3 on.
struct DivisorCandidates {
    current: U512,
}

impl DivisorCandidates {
    /// The candidates from 2 on.
    fn new() -> (r: Self)
        ensures
            r.current@ == 2,
    {
        DivisorCandidates { current: U512::two() }
    }

    /// Hands out the current candidate and moves on to the one after it: to 3
    /// from 2, and by two from an odd number.
    fn next(&mut self) -> (output: U512)
        requires
            old(self).current@ + 2 < limit(),
        ensures
            output == old(self).current,
            final(self).current@ == if old(self).current@ == 2 {
                3nat
            } else {
                old(self).current@ + 2
            },
    {
        let output = self.current;
        self.current = if self.current.equals(&U512::two()) {
            self.current.add(&U512::one())
        } else {
            self.current.add(&U512::two())
        };
        output
    }
}

impl Command for TrialDivision {
    /// The factorization of `n` written out, or for 0 the failure in words.
    fn run(&self, n: &U512) -> (r: String)
        ensures
            n@ == 0 ==> r@ == FactorizationError::InvalidInput.message_text(),
            n@ > 0 ==> exists|factors: Seq<nat>|
                product(factors) == n@ && all_prime(factors) && ascending(factors) && r@
                    == rendering(n@, factors),
    {
        let outcome = Self::prime_factorization(n);
        proof {
            if outcome.is_ok() {
                let factors = values(outcome.unwrap()@);
                assert(product(factors) == n@ && all_prime(factors) && ascending(factors));
            }
        }
        show_outcome(n, outcome)
    }
}

impl FactorizationCommand for TrialDivision {

}

} // verus!
