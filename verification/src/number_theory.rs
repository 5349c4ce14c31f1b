//! The mathematical vocabulary of the contracts: divisibility, primality,
//! products of sequences, and the facts about them that the algorithms rest on.

pub mod fermat_little;
pub mod pigeonhole;
pub mod powers;
pub mod strong_probable_prime;
pub mod unique_factorization;

use vstd::arithmetic::div_mod::*;
use vstd::arithmetic::mul::*;
use vstd::prelude::*;

verus! {

/// `d` divides `n`.
pub open spec fn divides(d: nat, n: nat) -> bool {
    d != 0 && n % d == 0
}

/// `n` is a prime number.
pub open spec fn is_prime(n: nat) -> bool {
    n >= 2 && forall|d: nat| 1 < d < n ==> !#[trigger] divides(d, n)
}

/// `g` is the greatest common divisor of `a` and `b`.
pub open spec fn is_gcd(a: nat, b: nat, g: nat) -> bool {
    &&& divides(g, a)
    &&& divides(g, b)
    &&& forall|d: nat| #[trigger] divides(d, a) && #[trigger] divides(d, b) ==> d <= g
}

/// No number from 2 up to, but not including, `bound` divides `n`.
pub open spec fn no_divisor_below(n: nat, bound: nat) -> bool {
    forall|k: nat| 2 <= k < bound ==> !#[trigger] divides(k, n)
}

/// How often 2 divides `n`; 0 for `n == 0`.
pub open spec fn two_adic_valuation(n: nat) -> nat
    decreases n,
{
    if n == 0 || n % 2 != 0 {
        0
    } else {
        1 + two_adic_valuation(n / 2)
    }
}

/// What is left of `n` when every factor 2 is divided out.
pub open spec fn odd_part(n: nat) -> nat
    decreases n,
{
    if n == 0 || n % 2 != 0 {
        n
    } else {
        odd_part(n / 2)
    }
}

/// The product of the elements of `s`; 1 for the empty sequence.
pub open spec fn product(s: Seq<nat>) -> nat
    decreases s.len(),
{
    if s.len() == 0 {
        1
    } else {
        product(s.drop_last()) * s.last()
    }
}

/// Every element of `s` is prime.
pub open spec fn all_prime(s: Seq<nat>) -> bool {
    forall|i: int| 0 <= i < s.len() ==> is_prime(#[trigger] s[i])
}

/// The elements of `s` never decrease.
pub open spec fn ascending(s: Seq<nat>) -> bool {
    forall|i: int, j: int| 0 <= i <= j < s.len() ==> s[i] <= s[j]
}

/// Appending an element multiplies the product by it.
pub proof fn lemma_product_push(s: Seq<nat>, x: nat)
    ensures
        product(s.push(x)) == product(s) * x,
{
    assert(s.push(x).drop_last() =~= s);
}

/// The product of a single element is that element.
pub proof fn lemma_product_single(x: nat)
    ensures
        product(seq![x]) == x,
{
    assert(seq![x].drop_last() =~= Seq::<nat>::empty());
    assert(product(seq![x].drop_last()) == 1);
    assert(1 * x == x) by (nonlinear_arith);
}

/// The product of a sequence in two parts is the product of the products of
/// the parts.
pub proof fn lemma_product_concat(a: Seq<nat>, b: Seq<nat>)
    ensures
        product(a + b) == product(a) * product(b),
    decreases b.len(),
{
    if b.len() == 0 {
        assert(a + b =~= a);
        assert(product(a) * 1 == product(a)) by (nonlinear_arith);
    } else {
        lemma_product_concat(a, b.drop_last());
        assert((a + b).drop_last() =~= a + b.drop_last());
        assert(product(a) * product(b.drop_last()) * b.last() == product(a) * (product(
            b.drop_last(),
        ) * b.last())) by (nonlinear_arith);
    }
}

/// A divisor times its cofactor gives the number back.
pub proof fn lemma_divisor_times_cofactor(d: nat, n: nat)
    requires
        divides(d, n),
    ensures
        d * (n / d) == n,
        (n / d) * d == n,
{
    lemma_fundamental_div_mod(n as int, d as int);
    lemma_mul_is_commutative(d as int, (n / d) as int);
}

/// A divisor of an odd number is odd, and so is its cofactor.
pub proof fn lemma_divisor_of_odd(d: nat, n: nat)
    requires
        divides(d, n),
        n % 2 == 1,
    ensures
        d % 2 == 1,
        (n / d) % 2 == 1,
{
    lemma_divisor_times_cofactor(d, n);
    let q = n / d;
    if d % 2 == 0 {
        let k = d / 2;
        assert(n == 2 * (k * q)) by (nonlinear_arith)
            requires
                d == 2 * k,
                d * q == n,
        ;
    }
    if q % 2 == 0 {
        let k = q / 2;
        assert(n == 2 * (d * k)) by (nonlinear_arith)
            requires
                q == 2 * k,
                d * q == n,
        ;
    }
}

/// The cofactor of a divisor that is neither 1 nor the number itself lies
/// strictly between 1 and the number.
pub proof fn lemma_proper_cofactor(d: nat, n: nat)
    requires
        divides(d, n),
        1 < d < n,
    ensures
        1 < n / d < n,
        divides(n / d, n),
{
    lemma_divisor_times_cofactor(d, n);
    let q = n / d;
    assert(1 < q < n) by (nonlinear_arith)
        requires
            d * q == n,
            1 < d < n,
    ;
    assert(n % q == 0) by (nonlinear_arith)
        requires
            q * d == n,
            q > 0,
    ;
}

/// A multiple of a number is divisible by it.
pub proof fn lemma_multiple_is_divisible(d: nat, k: nat)
    requires
        d > 0,
    ensures
        divides(d, d * k),
        divides(d, k * d),
{
    lemma_mod_multiples_basic(k as int, d as int);
    lemma_mul_is_commutative(d as int, k as int);
}

/// A divisor of a positive number does not exceed it.
pub proof fn lemma_divisor_at_most(d: nat, n: nat)
    requires
        divides(d, n),
        n > 0,
    ensures
        d <= n,
{
    if d > n {
        lemma_small_mod(n, d);
    }
}

/// A divisor of a prime, other than 1, is that prime.
pub proof fn lemma_divisor_of_prime(d: nat, p: nat)
    requires
        is_prime(p),
        divides(d, p),
        d != 1,
    ensures
        d == p,
{
    lemma_divisor_at_most(d, p);
}

/// Divisibility is transitive.
pub proof fn lemma_divides_transitive(a: nat, b: nat, c: nat)
    requires
        divides(a, b),
        divides(b, c),
    ensures
        divides(a, c),
{
    lemma_divisor_times_cofactor(a, b);
    lemma_divisor_times_cofactor(b, c);
    let x = b / a;
    let y = c / b;
    assert(c == a * (x * y)) by (nonlinear_arith)
        requires
            a * x == b,
            b * y == c,
    ;
    lemma_multiple_is_divisible(a, x * y);
}

/// A divisor, other than 1, of a number that has no smaller divisor but 1 is
/// prime.
pub proof fn lemma_least_divisor_is_prime(d: nat, n: nat)
    requires
        d >= 2,
        divides(d, n),
        no_divisor_below(n, d),
    ensures
        is_prime(d),
{
    assert forall|k: nat| 1 < k < d implies !#[trigger] divides(k, d) by {
        if divides(k, d) {
            lemma_divides_transitive(k, d, n);
        }
    }
}

/// Dividing a number by one of its divisors creates no new divisors.
pub proof fn lemma_no_divisor_below_cofactor(d: nat, n: nat, bound: nat)
    requires
        divides(d, n),
        no_divisor_below(n, bound),
    ensures
        no_divisor_below(n / d, bound),
{
    lemma_divisor_times_cofactor(d, n);
    assert forall|k: nat| 2 <= k < bound implies !#[trigger] divides(k, n / d) by {
        if divides(k, n / d) {
            if n / d == 0 {
                assert(n == 0);
                assert(divides(k, n));
            }
            lemma_multiple_is_divisible(n / d, d);
            lemma_divides_transitive(k, n / d, n);
        }
    }
}

/// A number above 1 with no divisor from 2 up to a bound whose square exceeds
/// it is prime.
pub proof fn lemma_no_small_divisor_is_prime(n: nat, bound: nat)
    requires
        n > 1,
        no_divisor_below(n, bound),
        bound * bound > n,
    ensures
        is_prime(n),
{
    assert forall|k: nat| 1 < k < n implies !#[trigger] divides(k, n) by {
        if divides(k, n) {
            lemma_proper_cofactor(k, n);
            let m = n / k;
            lemma_divisor_times_cofactor(k, n);
            if k >= bound && m >= bound {
                assert(k * m >= bound * bound) by (nonlinear_arith)
                    requires
                        k >= bound,
                        m >= bound,
                ;
            }
            assert(divides(m, n));
        }
    }
}

/// A number that 2 does not divide has no even divisor.
pub proof fn lemma_odd_has_no_even_divisor(k: nat, n: nat)
    requires
        k % 2 == 0,
        k > 0,
        !divides(2, n),
    ensures
        !divides(k, n),
{
    if divides(k, n) {
        assert(divides(2, k));
        lemma_divides_transitive(2, k, n);
    }
}

} // verus!
