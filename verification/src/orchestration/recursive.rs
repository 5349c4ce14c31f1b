//! Complete factorization by divide and classify.
//!
//! Factors of two are stripped first. The odd remainder is handed to the
//! primality test; where that does not accept it, the divisor finder is asked
//! for a candidate, the candidate is examined, and the two pieces it splits
//! the number into are factorized in turn. A candidate that gives no progress
//! is asked for again, but only as often in a row as the retry budget allows.
//!
//! What the finder proposes and what the test answers is not in this
//! module's hands. The contracts therefore say what holds whatever they do,
//! and what is owed where the traits' own statements (`may_return`,
//! `always_accepts`, `may_accept`) settle the matter: success where every
//! candidate splits what it is asked about, failure where none does.

use crate::number_theory::{
    divides, is_prime, lemma_divides_transitive, lemma_divisor_of_odd,
    lemma_divisor_times_cofactor, lemma_multiple_is_divisible, lemma_product_concat,
    lemma_product_push, lemma_product_single, lemma_proper_cofactor, odd_part, product,
    two_adic_valuation,
};
use crate::traits::{FactorizationError, Factorize, PrimalityTest, PrimeFactorization};
use crate::uint::{lemma_values_concat, lemma_values_push, values, U512};
use std::marker::PhantomData;
use vstd::prelude::*;

verus! {

/// The retry budget of the trait's own entry point.
pub const DEFAULT_MAX_SUCCESSIVE_FAILS: usize = 100;

/// A candidate `d` splits `n` into two smaller pieces.
pub open spec fn is_proper_divisor(d: nat, n: nat) -> bool {
    1 < d < n && divides(d, n)
}

/// The factors of a number whose odd part is 1 or is taken to be prime:
/// a 2 for each time 2 divides it, then the odd part unless that is 1.
pub open spec fn twos_then_odd_part(n: nat) -> Seq<nat> {
    let twos = Seq::new(two_adic_valuation(n), |i: int| 2nat);
    if odd_part(n) > 1 {
        twos.push(odd_part(n))
    } else {
        twos
    }
}

/// For a prime the factors of two and the odd part come to the prime alone,
/// and the odd part is the prime itself unless the prime is 2.
pub proof fn lemma_twos_then_odd_part_of_prime(p: nat)
    requires
        is_prime(p),
    ensures
        twos_then_odd_part(p) == seq![p],
        odd_part(p) == 1 || (odd_part(p) == p && is_prime(odd_part(p))),
{
    if p % 2 == 0 {
        assert(divides(2, p));
        assert(p == 2);
        assert(odd_part(1) == 1);
        assert(two_adic_valuation(1) == 0);
        assert(two_adic_valuation(2) == 1);
        assert(odd_part(2) == 1);
        assert(twos_then_odd_part(p) =~= seq![p]);
    } else {
        assert(twos_then_odd_part(p) =~= seq![p]);
    }
}

/// Whether the candidate `d` splits `n` into two smaller pieces: whether it
/// divides `n` and is neither 1 nor `n`.
pub fn splits(d: &U512, n: &U512) -> (r: bool)
    ensures
        r == is_proper_divisor(d@, n@),
{
    let one = U512::one();
    if d.le(&one) || n.le(d) {
        return false;
    }
    n.rem(d).is_zero()
}

/// The verdict on a candidate divisor.
#[derive(Clone, Copy, Debug)]
pub enum DivisorOfN {
    /// A proper divisor that the primality test accepted.
    Prime(U512),
    /// A proper divisor that the primality test did not accept.
    Composite(U512),
    /// No progress: 0, 1, the number itself, or no divisor at all.
    Trivial(U512),
}

/// What is done with a number once a candidate divisor of it is examined.
#[derive(Clone, Copy, Debug)]
pub enum NextStep {
    /// Ask the finder again about the same number.
    Retry,
    /// Report that the retry budget is used up.
    GiveUp,
    /// Record the divisor as a prime factor and go on with the cofactor.
    EmitAndRecurse(U512),
    /// Go on with the cofactor and with the divisor, each with a fresh
    /// budget.
    RecurseOnBoth(U512),
}

/// The verdict on the candidate `factor`, given whether it splits the number
/// and whether the primality test accepted it: trivial where it does not
/// split, else prime or composite as the test answered.
pub fn classify(factor: U512, proper: bool, certified: bool) -> (c: DivisorOfN)
    ensures
        c == if !proper {
            DivisorOfN::Trivial(factor)
        } else if certified {
            DivisorOfN::Prime(factor)
        } else {
            DivisorOfN::Composite(factor)
        },
{
    if !proper {
        DivisorOfN::Trivial(factor)
    } else if certified {
        DivisorOfN::Prime(factor)
    } else {
        DivisorOfN::Composite(factor)
    }
}

/// What follows from a verdict on a candidate when the finder has already
/// failed `retried` times in a row on the number and may fail `budget` times
/// in all. A trivial candidate is one more failure: the finder is asked again
/// unless that failure uses the budget up. Any other candidate is progress,
/// whatever went before: a prime divisor is a factor, a composite one is
/// work of its own.
pub fn next_step(verdict: &DivisorOfN, retried: usize, budget: usize) -> (step: NextStep)
    requires
        retried < budget,
    ensures
        step == match *verdict {
            DivisorOfN::Trivial(_) => if retried + 1 < budget {
                NextStep::Retry
            } else {
                NextStep::GiveUp
            },
            DivisorOfN::Prime(p) => NextStep::EmitAndRecurse(p),
            DivisorOfN::Composite(d) => NextStep::RecurseOnBoth(d),
        },
{
    match *verdict {
        DivisorOfN::Trivial(_) => {
            if retried + 1 < budget {
                NextStep::Retry
            } else {
                NextStep::GiveUp
            }
        },
        DivisorOfN::Prime(p) => NextStep::EmitAndRecurse(p),
        DivisorOfN::Composite(d) => NextStep::RecurseOnBoth(d),
    }
}

/// Factorization that recurses on the pieces a divisor finder splits a number
/// into, with `P` deciding which pieces are prime.
pub struct RecursivePrimeFactorization<F: Factorize, P: PrimalityTest> {
    max_successive_fails: usize,
    _factorizer: PhantomData<F>,
    _prime_tester: PhantomData<P>,
}

impl<F: Factorize, P: PrimalityTest> RecursivePrimeFactorization<F, P> {
    /// How often in a row the finder may fail on one value.
    pub closed spec fn budget(&self) -> usize {
        self.max_successive_fails
    }

    /// A factorizer that gives up on a value once the finder has made no
    /// progress on it `max_successive_fails` times in a row. A large budget
    /// makes failure of a randomized finder unlikely at the cost of time spent
    /// on values it cannot split; with a budget of 0 the finder is never asked.
    pub fn new(max_successive_fails: usize) -> (r: Self)
        ensures
            r.budget() == max_successive_fails,
    {
        Self { max_successive_fails, _factorizer: PhantomData, _prime_tester: PhantomData }
    }

    /// Whatever the finder proposes for a divisor of `n` that the primality
    /// test does not accept on every run splits that divisor. The finder then
    /// never fails on anything that a factorization of `n` can come to ask it
    /// about.
    pub open spec fn finder_always_splits(n: nat) -> bool {
        forall|m: nat, d: nat|
            m > 1 && divides(m, n) && !P::always_accepts(m) && #[trigger] F::may_return(m, d)
                ==> is_proper_divisor(d, m)
    }

    /// Nothing the finder proposes for `n` splits `n`.
    pub open spec fn finder_never_splits(n: nat) -> bool {
        forall|d: nat| #[trigger] F::may_return(n, d) ==> !is_proper_divisor(d, n)
    }

    /// What a list of factors holds beyond its first `from` elements.
    pub open spec fn appended(factors: Seq<U512>, from: nat) -> Seq<U512> {
        factors.subrange(from as int, factors.len() as int)
    }

    /// What `factors` has gained once the odd number `n` is dealt with:
    /// nothing that was there has changed, and what was appended has the
    /// product `n` and consists of numbers that the primality test can
    /// accept.
    pub open spec fn extended_by_factors_of(before: Seq<U512>, after: Seq<U512>, n: nat) -> bool {
        &&& before.len() <= after.len()
        &&& after.subrange(0, before.len() as int) == before
        &&& product(values(Self::appended(after, before.len()))) == n
        &&& forall|i: int| before.len() <= i < after.len() ==> P::may_accept(#[trigger] after[i]@)
    }

    /// The prime factors of `n`: a 2 for each time 2 divides `n`, then the
    /// factors of the odd part of `n` as `recursion_step` finds them.
    ///
    /// Zero is rejected. Where the odd part of `n` is 1 or is accepted by the
    /// primality test on every run, the result is the factors of two followed
    /// by the odd part. Where whatever the finder can propose splits what it
    /// is asked about, and the budget is not 0, the factorization succeeds.
    /// Where the test never accepts the odd part, and the budget is 0 or
    /// nothing the finder can propose splits the odd part, it fails. In every
    /// other case the outcome rests on what the finder and the test answer:
    /// either factors whose product is `n`, or the report that the retry
    /// budget was used up.
    pub fn recursive_factorization(&self, n: U512) -> (r: Result<Vec<U512>, FactorizationError>)
        ensures
            n@ == 0 <==> (r matches Err(FactorizationError::InvalidInput)),
            r matches Ok(factors) ==> {
                &&& product(values(factors@)) == n@
                &&& factors@.len() >= two_adic_valuation(n@)
                &&& forall|i: int|
                    0 <= i < two_adic_valuation(n@) ==> (#[trigger] factors@[i])@ == 2
                &&& product(values(Self::appended(factors@, two_adic_valuation(n@)))) == odd_part(
                    n@,
                )
                &&& forall|i: int|
                    two_adic_valuation(n@) <= i < factors@.len() ==> P::may_accept(
                        #[trigger] factors@[i]@,
                    )
            },
            r matches Err(e) ==> n@ == 0 || (odd_part(n@) > 1 && !P::always_accepts(odd_part(n@))),
            n@ > 0 && (odd_part(n@) == 1 || P::always_accepts(odd_part(n@))) ==> (r matches Ok(
                factors,
            ) && values(factors@) == twos_then_odd_part(n@)),
            n@ > 0 && self.budget() > 0 && Self::finder_always_splits(odd_part(n@)) ==> r.is_ok(),
            odd_part(n@) > 1 && !P::may_accept(odd_part(n@)) && (self.budget() == 0
                || Self::finder_never_splits(odd_part(n@))) ==> (r matches Err(
                FactorizationError::ExhaustedRetries,
            )),
            r matches Ok(factors) ==> (self.budget() == 0 || Self::finder_never_splits(
                odd_part(n@),
            ) ==> values(factors@) == twos_then_odd_part(n@)),
    {
        if n.is_zero() {
            return Err(FactorizationError::InvalidInput);
        }
        let mut factors: Vec<U512> = Vec::new();
        let mut rest = n;
        let two = U512::two();
        assert(values(factors@) =~= Seq::new(0, |i: int| 2nat));
        assert(product(values(factors@)) == 1);
        while rest.is_even()
            invariant
                two@ == 2,
                rest@ > 0,
                odd_part(rest@) == odd_part(n@),
                two_adic_valuation(rest@) + factors@.len() == two_adic_valuation(n@),
                values(factors@) == Seq::new(factors@.len(), |i: int| 2nat),
                product(values(factors@)) * rest@ == n@,
            decreases rest@,
        {
            proof {
                lemma_values_push(factors@, two);
                lemma_product_push(values(factors@), 2);
                lemma_divisor_times_cofactor(2, rest@);
                assert(product(values(factors@)) * 2 * (rest@ / 2) == product(values(factors@))
                    * rest@) by (nonlinear_arith)
                    requires
                        2 * (rest@ / 2) == rest@,
                ;
                assert(values(factors@).push(2) =~= Seq::new(
                    (factors@.len() + 1) as nat,
                    |i: int| 2nat,
                ));
            }
            factors.push(two);
            rest = rest.div(&two);
        }
        let ghost stripped = factors@;
        assert(rest@ == odd_part(n@));
        assert(factors@.len() == two_adic_valuation(n@));
        match self.recursion_step(rest, &mut factors) {
            Ok(()) => {
                proof {
                    let gained = Self::appended(factors@, stripped.len());
                    assert(factors@ =~= stripped + gained);
                    lemma_values_concat(stripped, gained);
                    lemma_product_concat(values(stripped), values(gained));
                    assert forall|i: int| 0 <= i < stripped.len() implies (
                    #[trigger] factors@[i])@ == 2 by {
                        assert(factors@[i] == factors@.subrange(0, stripped.len() as int)[i]);
                        assert(values(stripped)[i] == 2);
                    }
                    if rest@ == 1 {
                        assert(factors@ =~= stripped);
                    } else if factors@ == stripped.push(rest) {
                        lemma_values_push(stripped, rest);
                    }
                }
                Ok(factors)
            },
            Err(e) => Err(e),
        }
    }

    /// Appends the prime factors of the odd number `n` to `factors`.
    ///
    /// Nothing is appended for 1, and `n` itself where the primality test
    /// accepts it. Otherwise the finder is asked for a divisor and the
    /// candidate is examined; `next_step` says what follows. A candidate
    /// that does not split `n` counts as a failure, and with the failure that
    /// uses the budget up the step fails. A candidate that splits `n` ends
    /// the count: the pieces are dealt with in the same way, each with a
    /// fresh budget.
    ///
    /// So the step succeeds where the budget is not 0 and whatever the finder
    /// can propose splits what it is asked about, and it fails where the test
    /// never accepts `n` and the budget is 0 or nothing the finder can
    /// propose splits `n`.
    pub fn recursion_step(&self, n: U512, factors: &mut Vec<U512>) -> (r: Result<
        (),
        FactorizationError,
    >)
        requires
            n@ % 2 == 1,
        ensures
            r matches Ok(_) ==> Self::extended_by_factors_of(old(factors)@, final(factors)@, n@),
            r matches Err(e) ==> e == FactorizationError::ExhaustedRetries && n@ > 1
                && !P::always_accepts(n@),
            n@ == 1 ==> r.is_ok() && final(factors)@ == old(factors)@,
            n@ > 1 && P::always_accepts(n@) ==> r.is_ok() && final(factors)@ == old(factors)@.push(
                n,
            ),
            self.budget() > 0 && Self::finder_always_splits(n@) ==> r.is_ok(),
            n@ > 1 && !P::may_accept(n@) && (self.budget() == 0 || Self::finder_never_splits(n@))
                ==> (r matches Err(FactorizationError::ExhaustedRetries)),
            n@ > 1 && r.is_ok() && (self.budget() == 0 || Self::finder_never_splits(n@))
                ==> final(factors)@ == old(factors)@.push(n),
        decreases n@,
    {
        let one = U512::one();
        if n.le(&one) {
            proof {
                assert(factors@.subrange(0, factors@.len() as int) =~= factors@);
                assert(Self::appended(factors@, factors@.len()) =~= Seq::<U512>::empty());
                assert(values(Seq::<U512>::empty()) =~= Seq::<nat>::empty());
            }
            return Ok(());
        }
        if P::is_prime(&n) {
            proof {
                let after = factors@.push(n);
                assert(after.subrange(0, factors@.len() as int) =~= factors@);
                assert(Self::appended(after, factors@.len()) =~= seq![n]);
                assert(values(seq![n]) =~= seq![n@]);
                lemma_product_single(n@);
            }
            factors.push(n);
            return Ok(());
        }
        if self.max_successive_fails == 0 {
            return Err(FactorizationError::ExhaustedRetries);
        }
        let mut retried: usize = 0;
        loop
            invariant
                n@ >= 3,
                n@ % 2 == 1,
                !P::always_accepts(n@),
                factors@ == old(factors)@,
                retried < self.max_successive_fails,
            decreases self.max_successive_fails - retried,
        {
            let candidate = F::factorize(&n);
            let verdict = Self::classify_factor(candidate, &n);
            proof {
                if Self::finder_always_splits(n@) {
                    lemma_multiple_is_divisible(n@, 1);
                    assert(is_proper_divisor(candidate@, n@));
                }
            }
            match next_step(&verdict, retried, self.max_successive_fails) {
                NextStep::Retry => {
                    retried += 1;
                },
                NextStep::GiveUp => {
                    return Err(FactorizationError::ExhaustedRetries);
                },
                NextStep::EmitAndRecurse(p) => {
                    proof {
                        lemma_proper_cofactor(p@, n@);
                        lemma_divisor_of_odd(p@, n@);
                        lemma_divisor_times_cofactor(p@, n@);
                        if Self::finder_always_splits(n@) {
                            Self::lemma_finder_always_splits_divisor(n@, n@ / p@);
                        }
                    }
                    let ghost before = factors@;
                    factors.push(p);
                    let ghost with_p = factors@;
                    let cofactor = n.div(&p);
                    let rest = self.recursion_step(cofactor, factors);
                    proof {
                        if rest.is_ok() {
                            assert(with_p.subrange(0, before.len() as int) =~= before);
                            assert(Self::appended(with_p, before.len()) =~= seq![p]);
                            assert(values(seq![p]) =~= seq![p@]);
                            lemma_product_single(p@);
                            Self::lemma_extended_twice(before, with_p, factors@, p@, cofactor@);
                        }
                    }
                    return rest;
                },
                NextStep::RecurseOnBoth(d) => {
                    proof {
                        lemma_proper_cofactor(d@, n@);
                        lemma_divisor_of_odd(d@, n@);
                        lemma_divisor_times_cofactor(d@, n@);
                        if Self::finder_always_splits(n@) {
                            Self::lemma_finder_always_splits_divisor(n@, n@ / d@);
                            Self::lemma_finder_always_splits_divisor(n@, d@);
                        }
                    }
                    let ghost before = factors@;
                    let cofactor = n.div(&d);
                    match self.recursion_step(cofactor, factors) {
                        Ok(()) => {},
                        Err(e) => {
                            return Err(e);
                        },
                    }
                    let ghost between = factors@;
                    let rest = self.recursion_step(d, factors);
                    proof {
                        if rest.is_ok() {
                            Self::lemma_extended_twice(before, between, factors@, cofactor@, d@);
                        }
                    }
                    return rest;
                },
            }
        }
    }

    /// Examines a candidate divisor of `n`.
    ///
    /// A candidate that is 0, 1, `n` or more, or no divisor of `n` is trivial
    /// and the primality test is not consulted. Any other is a proper divisor,
    /// prime or composite as the test answers.
    pub fn classify_factor(factor: U512, n: &U512) -> (c: DivisorOfN)
        ensures
            match c {
                DivisorOfN::Trivial(d) => d == factor && !is_proper_divisor(factor@, n@),
                DivisorOfN::Prime(d) => d == factor && is_proper_divisor(factor@, n@)
                    && P::may_accept(factor@),
                DivisorOfN::Composite(d) => d == factor && is_proper_divisor(factor@, n@)
                    && !P::always_accepts(factor@),
            },
    {
        let proper = splits(&factor, n);
        let certified = proper && P::is_prime(&factor);
        classify(factor, proper, certified)
    }

    /// What holds of a number holds of its divisors: a finder that splits
    /// whatever it is asked about on the way down from `n` does so on the way
    /// down from a divisor of `n`.
    pub proof fn lemma_finder_always_splits_divisor(n: nat, divisor: nat)
        requires
            Self::finder_always_splits(n),
            divides(divisor, n),
        ensures
            Self::finder_always_splits(divisor),
    {
        assert forall|m: nat, d: nat|
            m > 1 && divides(m, divisor) && !P::always_accepts(m) && #[trigger] F::may_return(
                m,
                d,
            ) implies is_proper_divisor(d, m) by {
            lemma_divides_transitive(m, divisor, n);
        }
    }

    /// Two extensions in a row are one extension by the product.
    proof fn lemma_extended_twice(a: Seq<U512>, b: Seq<U512>, c: Seq<U512>, m: nat, n: nat)
        requires
            Self::extended_by_factors_of(a, b, m),
            Self::extended_by_factors_of(b, c, n),
        ensures
            Self::extended_by_factors_of(a, c, m * n),
    {
        assert(c.subrange(0, a.len() as int) =~= a) by {
            assert forall|i: int| 0 <= i < a.len() implies c[i] == a[i] by {
                assert(c.subrange(0, b.len() as int)[i] == b[i]);
                assert(b.subrange(0, a.len() as int)[i] == a[i]);
            }
        }
        let first = Self::appended(b, a.len());
        let second = Self::appended(c, b.len());
        assert(Self::appended(c, a.len()) =~= first + second) by {
            assert forall|i: int| 0 <= i < first.len() implies c[a.len() + i] == first[i] by {
                assert(c.subrange(0, b.len() as int)[a.len() + i] == b[a.len() + i]);
            }
        }
        lemma_values_concat(first, second);
        lemma_product_concat(values(first), values(second));
        assert forall|i: int| a.len() <= i < c.len() implies P::may_accept(#[trigger] c[i]@) by {
            if i < b.len() {
                assert(c.subrange(0, b.len() as int)[i] == b[i]);
            }
        }
    }
}

impl<F: Factorize, P: PrimalityTest> PrimeFactorization for RecursivePrimeFactorization<F, P> {
    /// The prime factors of `n`, with the default retry budget.
    fn prime_factorization(n: &U512) -> (r: Result<Vec<U512>, FactorizationError>)
        ensures
            r matches Ok(factors) ==> {
                &&& factors@.len() >= two_adic_valuation(n@)
                &&& forall|i: int|
                    0 <= i < two_adic_valuation(n@) ==> (#[trigger] factors@[i])@ == 2
                &&& product(values(Self::appended(factors@, two_adic_valuation(n@)))) == odd_part(
                    n@,
                )
                &&& forall|i: int|
                    two_adic_valuation(n@) <= i < factors@.len() ==> P::may_accept(
                        #[trigger] factors@[i]@,
                    )
            },
            n@ > 0 && (odd_part(n@) == 1 || P::always_accepts(odd_part(n@))) ==> (r matches Ok(
                factors,
            ) && values(factors@) == twos_then_odd_part(n@)),
            n@ > 0 && Self::finder_always_splits(odd_part(n@)) ==> r.is_ok(),
            odd_part(n@) > 1 && !P::may_accept(odd_part(n@)) && Self::finder_never_splits(
                odd_part(n@),
            ) ==> (r matches Err(FactorizationError::ExhaustedRetries)),
    {
        Self::new(DEFAULT_MAX_SUCCESSIVE_FAILS).recursive_factorization(*n)
    }
}

} // verus!
