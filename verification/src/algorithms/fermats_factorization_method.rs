//! Fermat's factorization method: an odd number `n` is written as a
//! difference of two squares, `n = a^2 - b^2 = (a - b)(a + b)`, by trying
//! `a` from the square root of `n` upwards. It is quick where `n` has two
//! factors close to its square root, and slow where it has none.

use crate::factorization::{rendering, show_outcome};
use crate::number_theory::powers::lemma_two_adic_decomposition;
use crate::number_theory::{
    divides, is_prime, lemma_divisor_at_most, lemma_divisor_of_odd, lemma_divisor_times_cofactor,
    lemma_multiple_is_divisible, lemma_proper_cofactor, odd_part, product, two_adic_valuation,
};
use crate::orchestration::recursive::{
    is_proper_divisor, lemma_twos_then_odd_part_of_prime, twos_then_odd_part,
    RecursivePrimeFactorization,
};
use crate::primality_test::miller_rabin::lemma_miller_rabin_accepts_primes;
use crate::primality_test::MillerRabin;
use crate::traits::{
    Command, FactorizationCommand, FactorizationError, Factorize, PrimalityTest, PrimeFactorization,
};
use crate::uint::{half_limit, lemma_half_limit_squared, lemma_square_in_range, limit, values, U512};
use vstd::prelude::*;

verus! {

/// Factorization by Fermat's method.
pub struct FermatsFactorizationMethod;

/// The recursive procedure with Fermat's method as its finder and the
/// Miller-Rabin test as its judge.
pub type RecursiveWithFermat = RecursivePrimeFactorization<FermatsFactorizationMethod, MillerRabin>;

/// `m` is the square of a natural number.
pub open spec fn is_square(m: nat) -> bool {
    exists|r: nat| #[trigger] (r * r) == m
}

/// The square of `a` exceeds `n` by a square.
pub open spec fn is_fermat_root(n: nat, a: nat) -> bool {
    a * a >= n && is_square((a * a - n) as nat)
}

/// `a` is the least number whose square exceeds `n` by a square.
pub open spec fn is_least_fermat_root(n: nat, a: nat) -> bool {
    is_fermat_root(n, a) && forall|smaller: nat|
        smaller < a ==> !#[trigger] is_fermat_root(n, smaller)
}

/// `d` is what Fermat's method finds for `n`: `a + b` for the least `a`
/// such that `a^2 - n` is a square `b^2`. Where that `a` is 2^256 or more, so
/// that its square cannot be formed in 512 bits, the search is not carried
/// out and `n` itself stands in.
pub open spec fn is_fermat_divisor(n: nat, d: nat) -> bool {
    exists|a: nat, b: nat|
        #![trigger is_least_fermat_root(n, a), (b * b)]
        is_least_fermat_root(n, a) && b * b == a * a - n && d == if a < half_limit() {
            a + b
        } else {
            n
        }
}

impl Factorize for FermatsFactorizationMethod {
    /// What the method finds for `n`, which divides `n`.
    open spec fn may_return(n: nat, d: nat) -> bool {
        divides(d, n) && is_fermat_divisor(n, d)
    }

    /// The divisor `a + b` of the odd number `n`, where `a` is the least
    /// number from the square root of `n` on such that `a^2 - n` is a square
    /// `b^2`. No divisor of `n` lies between the square root of `n` and
    /// `a + b`; for a prime `n` it is `n` itself.
    fn factorize(n: &U512) -> (d: U512)
        ensures
            divides(d@, n@),
            is_fermat_divisor(n@, d@),
    {
        let one = U512::one();
        let mut a = ceil_sqrt(n);
        proof {
            n.lemma_bounded();
            lemma_half_limit_squared();
            if a@ > half_limit() {
                assert((a@ - 1) * (a@ - 1) >= half_limit() * half_limit()) by (nonlinear_arith)
                    requires
                        a@ - 1 >= half_limit(),
                ;
            }
            assert forall|smaller: nat| smaller < a@ implies !#[trigger] is_fermat_root(
                n@,
                smaller,
            ) by {
                assert(smaller * smaller <= (a@ - 1) * (a@ - 1)) by (nonlinear_arith)
                    requires
                        smaller <= a@ - 1,
                ;
            }
        }
        loop
            invariant
                one@ == 1,
                n@ % 2 == 1,
                a@ <= half_limit(),
                a@ * a@ >= n@,
                forall|smaller: nat| smaller < a@ ==> !#[trigger] is_fermat_root(n@, smaller),
            decreases half_limit() - a@,
        {
            let square = match a.checked_mul(&a) {
                Some(square) => square,
                None => {
                    proof {
                        lemma_least_fermat_root_exists(n@, a@);
                        if a@ < half_limit() {
                            assert(a@ * a@ < half_limit() * half_limit()) by (nonlinear_arith)
                                requires
                                    a@ < half_limit(),
                            ;
                        }
                        lemma_multiple_is_divisible(n@, 1);
                    }
                    return *n;
                },
            };
            proof {
                square.lemma_bounded();
                lemma_square_in_range(a@);
                assert((a@ + 1) * (a@ + 1) >= a@ * a@) by (nonlinear_arith);
            }
            let b2 = square.sub(n);
            if is_perfect_square(&b2) {
                let b = b2.sqrt();
                proof {
                    assert(b@ * b@ == b2@) by {
                        let r = choose|r: nat| #[trigger] (r * r) == b2@;
                        lemma_square_root_unique(r, b@, b2@);
                    }
                    assert(b@ <= a@) by (nonlinear_arith)
                        requires
                            b@ * b@ <= a@ * a@,
                    ;
                    assert((a@ + b@) * (a@ - b@) == n@) by (nonlinear_arith)
                        requires
                            b@ * b@ == a@ * a@ - n@,
                    ;
                    lemma_multiple_is_divisible((a@ + b@) as nat, (a@ - b@) as nat);
                    assert(is_least_fermat_root(n@, a@));
                }
                return a.add(&b);
            }
            a = a.add(&one);
        }
    }
}

/// The least number whose square is not below `n`.
pub fn ceil_sqrt(n: &U512) -> (r: U512)
    ensures
        r@ * r@ >= n@,
        r@ > 0 ==> (r@ - 1) * (r@ - 1) < n@,
{
    let root = n.sqrt();
    if is_perfect_square(n) {
        proof {
            let r = choose|r: nat| #[trigger] (r * r) == n@;
            lemma_square_root_unique(r, root@, n@);
            if root@ > 0 {
                assert((root@ - 1) * (root@ - 1) < root@ * root@) by (nonlinear_arith)
                    requires
                        root@ > 0,
                ;
            }
        }
        root
    } else {
        proof {
            n.lemma_bounded();
            lemma_half_limit_squared();
            assert(root@ < half_limit()) by (nonlinear_arith)
                requires
                    root@ * root@ < limit(),
                    half_limit() * half_limit() == limit(),
            ;
            assert(root@ * root@ != n@);
        }
        root.add(&U512::one())
    }
}

/// Whether `n` is the square of a natural number.
pub fn is_perfect_square(n: &U512) -> (r: bool)
    ensures
        r == is_square(n@),
{
    let sqrt = n.sqrt();
    proof {
        if is_square(n@) {
            let r = choose|r: nat| #[trigger] (r * r) == n@;
            lemma_square_root_unique(r, sqrt@, n@);
        }
    }
    match sqrt.checked_mul(&sqrt) {
        Some(square) => square.equals(n),
        None => {
            proof {
                n.lemma_bounded();
            }
            false
        },
    }
}

/// The root of a square is the square root, rounded down, of that square.
pub proof fn lemma_square_root_unique(exact: nat, floor: nat, m: nat)
    requires
        exact * exact == m,
        floor * floor <= m < (floor + 1) * (floor + 1),
    ensures
        exact == floor,
{
    if exact < floor {
        assert(exact * exact < floor * floor) by (nonlinear_arith)
            requires
                exact < floor,
        ;
    }
    if exact > floor {
        assert(exact * exact >= (floor + 1) * (floor + 1)) by (nonlinear_arith)
            requires
                exact >= floor + 1,
        ;
    }
}

/// What Fermat's method finds is the least divisor that is not below the
/// square root: no other divisor of `n` whose square is `n` or more is smaller
/// than `a + b` for the least Fermat root `a`.
pub proof fn lemma_fermat_divisor_is_least(n: nat, a: nat, b: nat, other: nat)
    requires
        n % 2 == 1,
        is_least_fermat_root(n, a),
        b * b == a * a - n,
        divides(other, n),
        other * other >= n,
    ensures
        (a + b) * (a + b) >= n,
        a + b <= other,
{
    assert((a + b) * (a + b) >= n) by (nonlinear_arith)
        requires
            a * a >= n,
    ;
    lemma_divisor_times_cofactor(other, n);
    lemma_divisor_of_odd(other, n);
    let cofactor = n / other;
    assert(cofactor <= other) by (nonlinear_arith)
        requires
            other * cofactor == n,
            other * other >= n,
            other > 0,
    ;
    let root = (other + cofactor) / 2;
    let half_gap = (other - cofactor) / 2;
    assert(root * root == n + half_gap * half_gap) by (nonlinear_arith)
        requires
            2 * root == other + cofactor,
            2 * half_gap == other - cofactor,
            other * cofactor == n,
    ;
    assert(half_gap * half_gap == root * root - n);
    assert(is_fermat_root(n, root));
    assert(a <= root);
    assert(a * a <= root * root) by (nonlinear_arith)
        requires
            a <= root,
    ;
    if b > half_gap {
        assert(b * b > half_gap * half_gap) by (nonlinear_arith)
            requires
                b > half_gap >= 0,
        ;
    }
}

/// Half of the successor of an odd number is a Fermat root of it: the one
/// that belongs to the divisors 1 and `n`.
pub proof fn lemma_fermat_root_exists(n: nat)
    requires
        n % 2 == 1,
    ensures
        is_fermat_root(n, (n + 1) / 2),
{
    let a = (n + 1) / 2;
    let b = (n - 1) / 2;
    assert(a * a == n + b * b) by (nonlinear_arith)
        requires
            2 * a == n + 1,
            2 * b == n - 1,
    ;
    assert(b * b == a * a - n);
}

/// An odd number with no Fermat root below `bound` has a least Fermat root,
/// and that root is not below `bound`.
pub proof fn lemma_least_fermat_root_exists(n: nat, bound: nat)
    requires
        n % 2 == 1,
        forall|smaller: nat| smaller < bound ==> !#[trigger] is_fermat_root(n, smaller),
    ensures
        exists|a: nat| a >= bound && #[trigger] is_least_fermat_root(n, a),
    decreases (n + 1) / 2 - bound,
{
    lemma_fermat_root_exists(n);
    if is_fermat_root(n, bound) {
        assert(is_least_fermat_root(n, bound));
    } else {
        assert forall|smaller: nat| smaller < bound + 1 implies !#[trigger] is_fermat_root(
            n,
            smaller,
        ) by {}
        lemma_least_fermat_root_exists(n, bound + 1);
    }
}

/// With the Miller-Rabin test Fermat's method never fails on an odd number
/// below 2^256: what the test does not accept on every run is composite, and
/// for an odd composite number the method finds the least divisor that is
/// not below the square root, which is neither 1 nor the number.
pub proof fn lemma_fermat_always_splits(n: nat)
    requires
        n % 2 == 1,
        n < half_limit(),
    ensures
        RecursiveWithFermat::finder_always_splits(n),
{
    assert forall|m: nat, d: nat|
        m > 1 && divides(m, n) && !MillerRabin::always_accepts(m)
            && #[trigger] FermatsFactorizationMethod::may_return(m, d) implies is_proper_divisor(
        d,
        m,
    ) by {
        lemma_divisor_of_odd(m, n);
        lemma_divisor_at_most(m, n);
        if is_prime(m) {
            lemma_miller_rabin_accepts_primes(m);
        }
        let k = choose|k: nat| 1 < k < m && #[trigger] divides(k, m);
        lemma_proper_cofactor(k, m);
        lemma_divisor_times_cofactor(k, m);
        let cofactor = m / k;
        let other = if k >= cofactor {
            k
        } else {
            cofactor
        };
        assert(other * other >= m) by (nonlinear_arith)
            requires
                k * cofactor == m,
                other >= k,
                other >= cofactor,
        ;
        let (a, b) = choose|a: nat, b: nat|
            #![trigger is_least_fermat_root(m, a), (b * b)]
            is_least_fermat_root(m, a) && b * b == a * a - m && d == if a < half_limit() {
                a + b
            } else {
                m
            };
        lemma_fermat_divisor_is_least(m, a, b, other);
        assert(a >= 2) by (nonlinear_arith)
            requires
                a * a >= m,
                m >= 3,
        ;
    }
}

impl PrimeFactorization for FermatsFactorizationMethod {
    /// The prime factors of `n`, found by splitting with this method and
    /// judged by the Miller-Rabin test, with the default retry budget.
    ///
    /// The method is not random and splits every odd composite number whose
    /// squares it can form, so the factorization never fails where the odd
    /// part of `n` is below 2^256. What is returned are the factors of two
    /// and numbers that the test can accept, with the product `n`.
    fn prime_factorization(n: &U512) -> (r: Result<Vec<U512>, FactorizationError>)
        ensures
            r matches Ok(factors) ==> {
                &&& factors@.len() >= two_adic_valuation(n@)
                &&& forall|i: int|
                    0 <= i < two_adic_valuation(n@) ==> (#[trigger] factors@[i])@ == 2
                &&& product(
                    values(factors@.subrange(two_adic_valuation(n@) as int, factors@.len() as int)),
                ) == odd_part(n@)
                &&& forall|i: int|
                    0 <= i < factors@.len() ==> MillerRabin::may_accept(#[trigger] factors@[i]@)
            },
            n@ > 0 && (odd_part(n@) == 1 || MillerRabin::always_accepts(odd_part(n@)))
                ==> (r matches Ok(factors) && values(factors@) == twos_then_odd_part(n@)),
            is_prime(n@) ==> (r matches Ok(factors) && values(factors@) == seq![n@]),
            0 < n@ && odd_part(n@) < half_limit() ==> r.is_ok(),
            n@ > 0 && RecursiveWithFermat::finder_always_splits(odd_part(n@)) ==> r.is_ok(),
            odd_part(n@) > 1 && !MillerRabin::may_accept(odd_part(n@))
                && RecursiveWithFermat::finder_never_splits(odd_part(n@)) ==> (r matches Err(
                FactorizationError::ExhaustedRetries,
            )),
    {
        proof {
            if is_prime(n@) {
                lemma_twos_then_odd_part_of_prime(n@);
                if odd_part(n@) != 1 {
                    lemma_miller_rabin_accepts_primes(odd_part(n@));
                }
            }
            if 0 < n@ && odd_part(n@) < half_limit() {
                lemma_two_adic_decomposition(n@);
                lemma_fermat_always_splits(odd_part(n@));
            }
        }
        RecursiveWithFermat::prime_factorization(n)
    }
}

impl Command for FermatsFactorizationMethod {
    /// The factorization of `n` written out, or the failure in words.
    fn run(&self, n: &U512) -> (r: String)
        ensures
            n@ == 0 ==> r@ == FactorizationError::InvalidInput.message_text(),
            n@ > 0 ==> r@ == FactorizationError::ExhaustedRetries.message_text() || exists|
                factors: Seq<nat>,
            | product(factors) == n@ && r@ == rendering(n@, factors),
            0 < n@ && odd_part(n@) < half_limit() ==> exists|factors: Seq<nat>|
                product(factors) == n@ && r@ == rendering(n@, factors),
            is_prime(n@) ==> r@ == rendering(n@, seq![n@]),
            n@ > 0 && RecursiveWithFermat::finder_always_splits(odd_part(n@)) ==> exists|
                factors: Seq<nat>,
            | product(factors) == n@ && r@ == rendering(n@, factors),
            odd_part(n@) > 1 && !MillerRabin::may_accept(odd_part(n@))
                && RecursiveWithFermat::finder_never_splits(odd_part(n@)) ==> r@
                == FactorizationError::ExhaustedRetries.message_text(),
    {
        let outcome = Self::prime_factorization(n);
        proof {
            if outcome.is_ok() {
                let factors = values(outcome.unwrap()@);
                assert(product(factors) == n@);
            }
        }
        show_outcome(n, outcome)
    }
}

impl FactorizationCommand for FermatsFactorizationMethod {

}

} // verus!
