//! Pollard's rho method: a pseudorandom walk modulo `n` is also a walk
//! modulo each prime factor of `n`, where it closes into a cycle much sooner.
//! Two walkers that meet modulo a factor, but not modulo `n`, stand at a
//! distance whose greatest common divisor with `n` is a proper divisor.

pub mod utils;

use self::utils::{
    distance, floyds_cycle_detection, generate_pseudorandom_fn, is_first_meeting, rho_iterate,
    PseudorandomFn,
};
use crate::factorization::{rendering, show_outcome};
use crate::number_theory::{divides, is_gcd, is_prime, odd_part, product, two_adic_valuation};
use crate::orchestration::recursive::{
    lemma_twos_then_odd_part_of_prime, twos_then_odd_part, RecursivePrimeFactorization,
};
use crate::primality_test::miller_rabin::lemma_miller_rabin_accepts_primes;
use crate::primality_test::MillerRabin;
use crate::traits::{
    Command, FactorizationCommand, FactorizationError, Factorize, PrimalityTest, PrimeFactorization,
};
use crate::uint::{values, U512};
use vstd::prelude::*;

verus! {

/// Factorization by Pollard's rho method.
pub struct PollardsRho;

/// The recursive procedure with Pollard's rho method as its finder and the
/// Miller-Rabin test as its judge.
pub type RecursiveWithPollardsRho = RecursivePrimeFactorization<PollardsRho, MillerRabin>;

/// `d` is what the walk with constant `c` from `start` yields for `n`: the
/// greatest common divisor of `n` and the distance of the walkers in the first
/// round in which that divisor is not 1.
pub open spec fn is_rho_divisor(n: nat, c: nat, start: nat, d: nat) -> bool {
    exists|k: nat|
        {
            &&& #[trigger] is_first_meeting(n, c, start, k)
            &&& is_gcd(
                distance(rho_iterate(n, c, start, k), rho_iterate(n, c, start, 2 * k + 1)),
                n,
                d,
            )
        }
}

impl Factorize for PollardsRho {
    /// A divisor of `n` other than 1 that the walk from 2 yields for some
    /// constant from 2 up to, but not including, `n`.
    open spec fn may_return(n: nat, d: nat) -> bool {
        &&& d > 1
        &&& divides(d, n)
        &&& exists|c: nat| 2 <= c < n && #[trigger] is_rho_divisor(n, c, 2, d)
    }

    /// A divisor of `n` other than 1: what the walk from 2 yields for a
    /// constant drawn at random from 2 up to, but not including, `n`. It is
    /// `n` itself where the walkers met modulo every factor at once; another
    /// call draws another constant.
    fn factorize(n: &U512) -> (d: U512)
        ensures
            d@ > 1,
            divides(d@, n@),
            exists|c: nat| 2 <= c < n@ && #[trigger] is_rho_divisor(n@, c, 2, d@),
    {
        let pseudorandom_fn = generate_pseudorandom_fn(n);
        PollardsRho::factorize_with(&pseudorandom_fn)
    }
}

impl PollardsRho {
    /// The divisor that the walk from 2 along `pseudorandom_fn` yields for
    /// the modulus of that map: the method with the choice of the constant
    /// left to the caller.
    pub fn factorize_with(pseudorandom_fn: &PseudorandomFn) -> (d: U512)
        requires
            pseudorandom_fn.constant() < pseudorandom_fn.modulus(),
            pseudorandom_fn.modulus() >= 2,
        ensures
            d@ > 1,
            divides(d@, pseudorandom_fn.modulus()),
            is_rho_divisor(pseudorandom_fn.modulus(), pseudorandom_fn.constant(), 2, d@),
    {
        let init = U512::two();
        let (tortoise, hare) = floyds_cycle_detection(init, pseudorandom_fn);
        let divisor = hare.abs_diff(&tortoise).gcd(pseudorandom_fn.n());
        proof {
            assert(distance(hare@, tortoise@) == distance(tortoise@, hare@));
            assert(is_rho_divisor(
                pseudorandom_fn.modulus(),
                pseudorandom_fn.constant(),
                2,
                divisor@,
            ));
        }
        divisor
    }
}

impl PrimeFactorization for PollardsRho {
    /// The prime factors of `n`, found by splitting with this method and
    /// judged by the Miller-Rabin test, with the default retry budget.
    ///
    /// What is returned are the factors of two and numbers that the test can
    /// accept, with the product `n`. The method can answer with the number
    /// itself, so success is owed only where the contract says so: where the
    /// test accepts the odd part on every run, as it does every prime.
    fn prime_factorization(n: &U512) -> (r: Result<Vec<U512>, FactorizationError>)
        ensures
            r matches Ok(factors) ==> {
                &&& factors@.len() >= two_adic_valuation(n@)
                &&& forall|i: int|
                    0 <= i < two_adic_valuation(n@) ==> (#[trigger] factors@[i])@ == 2
                &&& product(
                    values(factors@.subrange(two_adic_valuation(n@) as int, factors@.len() as int)),
                ) == odd_part(n@)
                &&& forall|i: int|
                    0 <= i < factors@.len() ==> MillerRabin::may_accept(#[trigger] factors@[i]@)
            },
            n@ > 0 && (odd_part(n@) == 1 || MillerRabin::always_accepts(odd_part(n@)))
                ==> (r matches Ok(factors) && values(factors@) == twos_then_odd_part(n@)),
            is_prime(n@) ==> (r matches Ok(factors) && values(factors@) == seq![n@]),
            n@ > 0 && RecursiveWithPollardsRho::finder_always_splits(odd_part(n@)) ==> r.is_ok(),
            odd_part(n@) > 1 && !MillerRabin::may_accept(odd_part(n@))
                && RecursiveWithPollardsRho::finder_never_splits(odd_part(n@)) ==> (r matches Err(
                FactorizationError::ExhaustedRetries,
            )),
    {
        proof {
            if is_prime(n@) {
                lemma_twos_then_odd_part_of_prime(n@);
                if odd_part(n@) != 1 {
                    lemma_miller_rabin_accepts_primes(odd_part(n@));
                }
            }
        }
        RecursiveWithPollardsRho::prime_factorization(n)
    }
}

impl Command for PollardsRho {
    /// The factorization of `n` written out, or the failure in words.
    fn run(&self, n: &U512) -> (r: String)
        ensures
            n@ == 0 ==> r@ == FactorizationError::InvalidInput.message_text(),
            n@ > 0 ==> r@ == FactorizationError::ExhaustedRetries.message_text() || exists|
                factors: Seq<nat>,
            | product(factors) == n@ && r@ == rendering(n@, factors),
            is_prime(n@) ==> r@ == rendering(n@, seq![n@]),
            n@ > 0 && RecursiveWithPollardsRho::finder_always_splits(odd_part(n@)) ==> exists|
                factors: Seq<nat>,
            | product(factors) == n@ && r@ == rendering(n@, factors),
            odd_part(n@) > 1 && !MillerRabin::may_accept(odd_part(n@))
                && RecursiveWithPollardsRho::finder_never_splits(odd_part(n@)) ==> r@
                == FactorizationError::ExhaustedRetries.message_text(),
    {
        let outcome = Self::prime_factorization(n);
        proof {
            if outcome.is_ok() {
                let factors = values(outcome.unwrap()@);
                assert(product(factors) == n@);
            }
        }
        show_outcome(n, outcome)
    }
}

impl FactorizationCommand for PollardsRho {

}

} // verus!
