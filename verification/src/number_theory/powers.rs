//! Powers and their residues.

use crate::number_theory::{odd_part, two_adic_valuation};
use vstd::arithmetic::div_mod::*;
use vstd::arithmetic::mul::*;
use vstd::arithmetic::power::*;
use vstd::prelude::*;

verus! {

/// The residue of `b` to the power `e` modulo `m`.
pub open spec fn pow_mod(b: nat, e: nat, m: nat) -> nat {
    (pow(b as int, e) % (m as int)) as nat
}

/// One step of exponentiation by squaring keeps `result * base^exponent` in
/// its residue class: the base is squared, the exponent halved, and the base
/// is multiplied into the result where the exponent is odd.
pub proof fn lemma_square_and_multiply(result: nat, base: nat, exponent: nat, m: nat)
    requires
        m > 0,
        exponent > 0,
    ensures
        ((if exponent % 2 == 1 {
            (result * base) % m
        } else {
            result
        }) * pow(((base * base) % m) as int, exponent / 2)) % (m as int) == (result * pow(
            base as int,
            exponent,
        )) % (m as int),
{
    let k = exponent / 2;
    let b = base as int;
    let r = result as int;
    let mi = m as int;
    let square = b * b;
    let reduced = pow(square % mi, k);
    let full = pow(square, k);
    lemma_pow_mod_noop(square, k, mi);
    assert(reduced % mi == full % mi);
    lemma_square_is_pow2(b);
    lemma_pow_multiplies(b, 2, k);
    assert(full == pow(b, 2 * k));
    if exponent % 2 == 1 {
        lemma_pow_adds(b, 2 * k, 1);
        lemma_pow1(b);
        assert(pow(b, exponent) == full * b);
        lemma_mul_mod_noop_general(r * b, reduced, mi);
        lemma_mul_mod_noop_general(r * b, full, mi);
        assert((r * b) * full == r * (full * b)) by (nonlinear_arith);
    } else {
        assert(pow(b, exponent) == full);
        lemma_mul_mod_noop_general(r, reduced, mi);
        lemma_mul_mod_noop_general(r, full, mi);
    }
}

/// A positive number is its odd part times 2 to the power of how often 2
/// divides it, and its odd part is odd.
pub proof fn lemma_two_adic_decomposition(n: nat)
    requires
        n > 0,
    ensures
        pow(2, two_adic_valuation(n)) * odd_part(n) == n,
        pow(2, two_adic_valuation(n)) > 0,
        odd_part(n) % 2 == 1,
        odd_part(n) == n / (pow(2, two_adic_valuation(n)) as nat),
    decreases n,
{
    let s = two_adic_valuation(n);
    if n % 2 != 0 {
        lemma_pow0(2);
    } else {
        let half = n / 2;
        lemma_two_adic_decomposition(half);
        let t = two_adic_valuation(half);
        lemma_pow_adds(2, 1, t);
        lemma_pow1(2);
        assert(pow(2, s) == 2 * pow(2, t));
        assert(2 * pow(2, t) * odd_part(half) == 2 * (pow(2, t) * odd_part(half)))
            by (nonlinear_arith);
    }
    let p = pow(2, s);
    lemma_div_multiples_vanish(odd_part(n) as int, p);
    lemma_mul_is_commutative(p, odd_part(n) as int);
}

/// 2 divides a positive number below 2 to the power `bits` fewer than `bits`
/// times.
pub proof fn lemma_two_adic_valuation_bound(n: nat, bits: nat)
    requires
        0 < n < pow(2, bits),
    ensures
        two_adic_valuation(n) < bits,
{
    lemma_two_adic_decomposition(n);
    let p = pow(2, two_adic_valuation(n));
    assert(p <= n) by (nonlinear_arith)
        requires
            p * odd_part(n) == n,
            p > 0,
            odd_part(n) >= 1,
    ;
    lemma_pow_strictly_increases_converse(2, two_adic_valuation(n), bits);
}

} // verus!
