//! The Miller-Rabin primality test: a number is taken to be prime where none
//! of a number of randomly drawn bases shows it to be composite.
//!
//! A prime is never rejected. A composite number is accepted only if every
//! base drawn fails to expose it, which for each base happens with
//! probability at most 1/4.

pub mod composite_evidence;
pub mod utils;
pub mod witnessed;

use self::composite_evidence::CompositeEvidence;
use self::utils::RandomIntegers;
use crate::number_theory;
use crate::number_theory::fermat_little::{
    lemma_prime_exceeds_its_multiples, lemma_prime_is_strong_probable_prime,
};
use crate::number_theory::strong_probable_prime::is_witness;
use crate::traits::{Command, PrimalityTest};
use crate::uint::{decimal, U512};
use vstd::prelude::*;

verus! {

/// The number of bases that `MillerRabin::is_prime` draws. Each further base
/// divides the chance of accepting a composite number by at least 4.
pub const TRIALS: usize = 50;

/// The Miller-Rabin test with `TRIALS` random bases.
pub struct MillerRabin;

/// No base from 2 to `p - 2` shows `p` to be composite.
pub open spec fn has_no_witness(p: nat) -> bool {
    forall|a: nat| 2 <= a <= p - 2 ==> !#[trigger] is_witness(p, a)
}

/// Some base from 2 to `p - 2` does not show `p` to be composite.
pub open spec fn has_non_witness(p: nat) -> bool {
    exists|a: nat| 2 <= a <= p - 2 && !#[trigger] is_witness(p, a)
}

impl PrimalityTest for MillerRabin {
    /// 2, 3, and the odd numbers that no base exposes.
    open spec fn always_accepts(p: nat) -> bool {
        p == 2 || p == 3 || (p > 3 && p % 2 == 1 && has_no_witness(p))
    }

    /// 2, 3, and the odd numbers that some base does not expose.
    open spec fn may_accept(p: nat) -> bool {
        p == 2 || p == 3 || (p > 3 && p % 2 == 1 && has_non_witness(p))
    }

    /// Whether `p` is prime, as far as `TRIALS` random bases can tell.
    ///
    /// Numbers below 2 and even numbers above 2 are rejected, 2 and 3 are
    /// accepted, and any other number is accepted exactly if none of the bases
    /// drawn is a witness against it.
    fn is_prime(p: &U512) -> (r: bool)
        ensures
            p@ < 2 ==> !r,
            p@ == 2 || p@ == 3 ==> r,
            p@ > 3 && p@ % 2 == 0 ==> !r,
            number_theory::is_prime(p@) ==> r,
    {
        proof {
            if number_theory::is_prime(p@) {
                lemma_miller_rabin_accepts_primes(p@);
            }
        }
        if p.equals(&U512::two()) || p.equals(&U512::three()) {
            return true;
        }
        if p.lt(&U512::two()) || p.is_even() {
            return false;
        }
        miller_rabin(p, TRIALS)
    }
}

/// No base is a witness against a prime, so the test accepts every prime on
/// every run.
pub proof fn lemma_miller_rabin_accepts_primes(p: nat)
    requires
        number_theory::is_prime(p),
    ensures
        MillerRabin::always_accepts(p),
{
    if p > 3 {
        if p % 2 == 0 {
            assert(number_theory::divides(2, p));
        }
        assert forall|a: nat| 2 <= a <= p - 2 implies !#[trigger] is_witness(p, a) by {
            lemma_prime_exceeds_its_multiples(p, a);
            lemma_prime_is_strong_probable_prime(p, a);
        }
    } else {
        if p != 2 && p != 3 {
            assert(number_theory::divides(2, p));
        }
    }
}

/// Whether none of the given bases is a witness against `p`: the test with
/// the choice of bases left to the caller.
pub fn miller_rabin_with_bases(p: &U512, bases: &Vec<U512>) -> (r: bool)
    requires
        p@ >= 2,
    ensures
        r == forall|i: int| 0 <= i < bases@.len() ==> !is_witness(p@, #[trigger] bases@[i]@),
{
    let evidence = CompositeEvidence::new(p);
    let mut tried: usize = 0;
    while tried < bases.len()
        invariant
            evidence.well_formed(),
            evidence.modulus() == p@,
            tried <= bases@.len(),
            forall|i: int| 0 <= i < tried ==> !is_witness(p@, #[trigger] bases@[i]@),
        decreases bases@.len() - tried,
    {
        if evidence.witnessed_by(&bases[tried]) {
            return false;
        }
        tried += 1;
    }
    true
}

/// Whether none of `trials` random bases from 2 to `p - 2` is a witness
/// against `p`. The test stops at the first witness.
pub fn miller_rabin(p: &U512, trials: usize) -> (r: bool)
    requires
        p@ > 3,
    ensures
        !r ==> !has_no_witness(p@),
        r && trials > 0 ==> has_non_witness(p@),
        trials == 0 ==> r,
{
    let evidence = CompositeEvidence::new(p);
    let mut bases = RandomIntegers::new(U512::two(), p.sub(&U512::one()));
    let mut tried: usize = 0;
    while tried < trials
        invariant
            evidence.well_formed(),
            evidence.modulus() == p@,
            bases.low() == 2,
            bases.high() == p@ - 1,
            p@ > 3,
            tried <= trials,
            tried > 0 ==> has_non_witness(p@),
        decreases trials - tried,
    {
        let base = bases.next();
        if evidence.witnessed_by(&base) {
            return false;
        }
        tried += 1;
    }
    true
}

impl Command for MillerRabin {
    /// The verdict of the test on `n` in words.
    fn run(&self, n: &U512) -> (r: String)
        ensures
            r@ == decimal(n@) + " is prime"@ || r@ == decimal(n@) + " is composite"@,
            number_theory::is_prime(n@) ==> r@ == decimal(n@) + " is prime"@,
            r@ == decimal(n@) + " is prime"@ ==> MillerRabin::may_accept(n@),
    {
        let prime = MillerRabin::is_prime(n);
        let verdict = show_verdict(n, prime);
        proof {
            reveal_strlit(" is prime");
            reveal_strlit(" is composite");
            assert((decimal(n@) + " is prime"@).len() != (decimal(n@) + " is composite"@).len());
        }
        verdict
    }
}

/// The verdict of a primality test on `n` in words.
pub fn show_verdict(n: &U512, prime: bool) -> (r: String)
    ensures
        r@ == decimal(n@) + if prime {
            " is prime"@
        } else {
            " is composite"@
        },
{
    let mut out = n.to_decimal_string();
    if prime {
        out.push_str(" is prime");
    } else {
        out.push_str(" is composite");
    }
    out
}

} // verus!
