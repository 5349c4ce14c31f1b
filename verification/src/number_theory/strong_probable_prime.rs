//! The test that Miller and Rabin built on: what a base can show about a
//! number by the chain of squares that leads from `a^d` to `a^(n-1)`, where
//! `n - 1 = 2^s * d` with `d` odd.

use crate::number_theory::powers::{lemma_two_adic_decomposition, pow_mod};
use crate::number_theory::{odd_part, two_adic_valuation};
use vstd::arithmetic::div_mod::*;
use vstd::arithmetic::mul::*;
use vstd::arithmetic::power::*;
use vstd::prelude::*;

verus! {

/// The residue of `a^(d * 2^i)` modulo `n`, where `d` is the odd part of
/// `n - 1`: the element `i` of the chain of squares that starts at `a^d`.
pub open spec fn squaring_chain(n: nat, a: nat, i: nat) -> nat {
    pow_mod(a, odd_part((n - 1) as nat) * (pow(2, i) as nat), n)
}

/// `x` squares to 1 modulo `n` although it is neither 1 nor `n - 1`. No such
/// number exists modulo a prime.
pub open spec fn is_nontrivial_sqrt_of_1(x: nat, n: nat) -> bool {
    pow_mod(x, 2, n) == 1 && x != 1 && x != n - 1
}

/// `n` passes the strong test to base `a`: with `n - 1 = 2^s * d` and `d` odd,
/// either `a^d` is 1 modulo `n`, or one of `a^d`, `a^(2d)`, ...,
/// `a^(2^(s-1) d)` is -1 modulo `n`. Every prime passes to every base it does
/// not divide.
pub open spec fn is_strong_probable_prime(n: nat, a: nat) -> bool {
    squaring_chain(n, a, 0) == 1 || exists|r: nat|
        r < two_adic_valuation((n - 1) as nat) && #[trigger] squaring_chain(n, a, r) == n - 1
}

/// Base `a` shows that `n` is composite.
pub open spec fn is_witness(n: nat, a: nat) -> bool {
    !is_strong_probable_prime(n, a)
}

/// What the chain of squares shows where it is walked from `a^d` to
/// `a^(n-1)`: it ends in 1 and passes no number that squares to 1 other than
/// 1 and `n - 1`.
pub open spec fn chain_is_clean(n: nat, a: nat) -> bool {
    &&& squaring_chain(n, a, two_adic_valuation((n - 1) as nat)) == 1
    &&& forall|i: nat|
        i < two_adic_valuation((n - 1) as nat) ==> !is_nontrivial_sqrt_of_1(
            #[trigger] squaring_chain(n, a, i),
            n,
        )
}

/// The chain starts at `a^d`.
pub proof fn lemma_chain_start(n: nat, a: nat)
    ensures
        squaring_chain(n, a, 0) == pow_mod(a, odd_part((n - 1) as nat), n),
{
    lemma_pow0(2);
    assert(odd_part((n - 1) as nat) * 1 == odd_part((n - 1) as nat)) by (nonlinear_arith);
}

/// Each element of the chain is the square of the one before it.
pub proof fn lemma_chain_step(n: nat, a: nat, i: nat)
    requires
        n > 0,
    ensures
        squaring_chain(n, a, i + 1) == pow_mod(squaring_chain(n, a, i), 2, n),
        squaring_chain(n, a, i) < n,
{
    let d = odd_part((n - 1) as nat);
    let e = d * (pow(2, i) as nat);
    lemma_pow_positive(2, i);
    lemma_pow_positive(2, i + 1);
    lemma_pow_adds(2, i, 1);
    lemma_pow1(2);
    assert(d * (pow(2, i + 1) as nat) == e * 2) by (nonlinear_arith)
        requires
            pow(2, i + 1) == pow(2, i) * 2,
            pow(2, i) > 0,
            e == d * (pow(2, i) as nat),
    ;
    lemma_pow_multiplies(a as int, e, 2);
    lemma_pow_mod_noop(pow(a as int, e), 2, n as int);
    lemma_mod_bound(pow(a as int, e), n as int);
}

/// The chain ends at `a^(n-1)`.
pub proof fn lemma_chain_end(n: nat, a: nat)
    requires
        n >= 2,
    ensures
        squaring_chain(n, a, two_adic_valuation((n - 1) as nat)) == pow_mod(a, (n - 1) as nat, n),
{
    lemma_two_adic_decomposition((n - 1) as nat);
    lemma_mul_is_commutative(
        pow(2, two_adic_valuation((n - 1) as nat)),
        odd_part((n - 1) as nat) as int,
    );
}

/// 1 squares to 1.
pub proof fn lemma_one_squared(n: nat)
    requires
        n >= 2,
    ensures
        pow_mod(1, 2, n) == 1,
{
    lemma1_pow(2);
    lemma_small_mod(1, n);
}

/// `n - 1` squares to 1 modulo `n`.
pub proof fn lemma_minus_one_squared(n: nat)
    requires
        n >= 2,
    ensures
        pow_mod((n - 1) as nat, 2, n) == 1,
{
    let m = n as int;
    lemma_square_is_pow2(m - 1);
    assert((m - 1) * (m - 1) == m * (m - 2) + 1) by (nonlinear_arith);
    lemma_mod_multiples_vanish(m - 2, 1, m);
    lemma_mul_is_commutative(m, m - 2);
    lemma_small_mod(1, n);
}

/// Once the chain has reached 1 it stays there.
pub proof fn lemma_chain_stays_one(n: nat, a: nat, i: nat, j: nat)
    requires
        n >= 2,
        i <= j,
        squaring_chain(n, a, i) == 1,
    ensures
        squaring_chain(n, a, j) == 1,
    decreases j - i,
{
    if i < j {
        lemma_chain_step(n, a, i);
        lemma_one_squared(n);
        lemma_chain_stays_one(n, a, i + 1, j);
    }
}

/// In a clean chain that does not start at 1 but has reached 1 at `j`, some
/// earlier element is `n - 1`.
proof fn lemma_clean_chain_passes_minus_one(n: nat, a: nat, j: nat)
    requires
        n >= 2,
        chain_is_clean(n, a),
        j <= two_adic_valuation((n - 1) as nat),
        squaring_chain(n, a, j) == 1,
        squaring_chain(n, a, 0) != 1,
    ensures
        exists|r: nat|
            r < two_adic_valuation((n - 1) as nat) && #[trigger] squaring_chain(n, a, r) == n - 1,
    decreases j,
{
    let before = (j - 1) as nat;
    lemma_chain_step(n, a, before);
    if squaring_chain(n, a, before) == 1 {
        lemma_clean_chain_passes_minus_one(n, a, before);
    } else {
        assert(!is_nontrivial_sqrt_of_1(squaring_chain(n, a, before), n));
        assert(squaring_chain(n, a, before) == n - 1);
    }
}

/// Walking the chain decides the strong test: a number passes to base `a`
/// exactly if the chain is clean.
pub proof fn lemma_clean_chain_is_strong_probable_prime(n: nat, a: nat)
    requires
        n >= 2,
    ensures
        chain_is_clean(n, a) <==> is_strong_probable_prime(n, a),
{
    let s = two_adic_valuation((n - 1) as nat);
    if chain_is_clean(n, a) {
        if squaring_chain(n, a, 0) != 1 {
            lemma_clean_chain_passes_minus_one(n, a, s);
        }
    }
    if is_strong_probable_prime(n, a) {
        if squaring_chain(n, a, 0) == 1 {
            lemma_chain_stays_one(n, a, 0, s);
            assert forall|i: nat| i < s implies !is_nontrivial_sqrt_of_1(
                #[trigger] squaring_chain(n, a, i),
                n,
            ) by {
                lemma_chain_stays_one(n, a, 0, i);
            }
        } else {
            let r = choose|r: nat| r < s && #[trigger] squaring_chain(n, a, r) == n - 1;
            lemma_chain_step(n, a, r);
            lemma_minus_one_squared(n);
            lemma_chain_stays_one(n, a, r + 1, s);
            assert forall|i: nat| i < s implies !is_nontrivial_sqrt_of_1(
                #[trigger] squaring_chain(n, a, i),
                n,
            ) by {
                if i > r {
                    lemma_chain_stays_one(n, a, r + 1, i);
                } else if i < r {
                    if is_nontrivial_sqrt_of_1(squaring_chain(n, a, i), n) {
                        lemma_chain_step(n, a, i);
                        lemma_chain_stays_one(n, a, i + 1, r);
                        // s > 0, so n - 1 is even and differs from 1
                        assert(two_adic_valuation((n - 1) as nat) > 0);
                    }
                }
            }
        }
    }
}

} // verus!
