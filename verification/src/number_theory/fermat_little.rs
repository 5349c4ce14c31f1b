//! Fermat's little theorem, and with it the reason why the Miller-Rabin test
//! never rejects a prime.

use crate::number_theory::powers::pow_mod;
use crate::number_theory::strong_probable_prime::{
    chain_is_clean, is_nontrivial_sqrt_of_1, is_strong_probable_prime, is_witness, lemma_chain_end,
    lemma_chain_step, lemma_clean_chain_is_strong_probable_prime, squaring_chain,
};
use crate::number_theory::unique_factorization::{lemma_euclid, lemma_product_remove};
use crate::number_theory::{divides, is_prime, lemma_divisor_at_most, product, two_adic_valuation};
use vstd::arithmetic::div_mod::*;
use vstd::arithmetic::power::*;
use vstd::prelude::*;
use vstd::seq_lib::{seq_to_set_is_finite, to_multiset_contains, to_multiset_remove};
use vstd::set_lib::lemma_subset_equality;

verus! {

/// The numbers from 1 to `n` in order.
pub open spec fn one_to(n: nat) -> Seq<nat> {
    Seq::new(n, |i: int| (i + 1) as nat)
}

/// The residues modulo `p` of `a` times each element of `s`.
pub open spec fn multiples_mod(a: nat, s: Seq<nat>, p: nat) -> Seq<nat> {
    s.map_values(|x: nat| (a * x) % p)
}

/// The product does not depend on the order of the elements.
pub proof fn lemma_product_permutation(a: Seq<nat>, b: Seq<nat>)
    requires
        a.to_multiset() == b.to_multiset(),
    ensures
        product(a) == product(b),
    decreases a.len(),
{
    a.to_multiset_ensures();
    b.to_multiset_ensures();
    if a.len() == 0 {
        assert(b.len() == 0);
        assert(a =~= b);
    } else {
        let x = a.last();
        let front = a.drop_last();
        assert(a[a.len() - 1] == x);
        assert(a.contains(x));
        to_multiset_contains(a, x);
        to_multiset_contains(b, x);
        let j = choose|j: int| 0 <= j < b.len() && b[j] == x;
        let rest = b.remove(j);
        assert(front =~= a.remove(a.len() - 1));
        to_multiset_remove(a, a.len() - 1);
        to_multiset_remove(b, j);
        lemma_product_permutation(front, rest);
        lemma_product_remove(b, j);
    }
}

/// `n` different numbers from 1 to `n` are the numbers from 1 to `n` in some
/// order.
pub proof fn lemma_permutation_of_range(t: Seq<nat>, n: nat)
    requires
        t.len() == n,
        t.no_duplicates(),
        forall|i: int| 0 <= i < n ==> 1 <= #[trigger] t[i] <= n,
    ensures
        t.to_multiset() == one_to(n).to_multiset(),
{
    let base = one_to(n);
    assert(base.no_duplicates());
    t.unique_seq_to_set();
    base.unique_seq_to_set();
    seq_to_set_is_finite(t);
    seq_to_set_is_finite(base);
    assert(t.to_set().subset_of(base.to_set())) by {
        assert forall|x: nat| t.to_set().contains(x) implies base.to_set().contains(x) by {
            let i = choose|i: int| 0 <= i < t.len() && t[i] == x;
            assert(base[x - 1] == x);
        }
    }
    lemma_subset_equality(t.to_set(), base.to_set());
    t.lemma_multiset_has_no_duplicates();
    base.lemma_multiset_has_no_duplicates();
    assert forall|x: nat| t.to_multiset().count(x) == base.to_multiset().count(x) by {
        to_multiset_contains(t, x);
        to_multiset_contains(base, x);
        assert(t.contains(x) <==> t.to_set().contains(x));
        assert(base.contains(x) <==> base.to_set().contains(x));
    }
    assert(t.to_multiset() =~= base.to_multiset());
}

/// Multiplying each element by `a` and reducing modulo `p` multiplies the
/// product, modulo `p`, by `a` to the power of the number of elements.
pub proof fn lemma_product_of_multiples(a: nat, s: Seq<nat>, p: nat)
    requires
        p > 0,
    ensures
        product(multiples_mod(a, s, p)) % p == (pow(a as int, s.len()) * product(s)) % (p as int),
    decreases s.len(),
{
    let t = multiples_mod(a, s, p);
    let m = p as int;
    if s.len() == 0 {
        lemma_pow0(a as int);
        assert(1 * product(s) == product(s)) by (nonlinear_arith);
    } else {
        let front = s.drop_last();
        let x = s.last();
        lemma_product_of_multiples(a, front, p);
        assert(t.drop_last() =~= multiples_mod(a, front, p));
        assert(t.last() == (a * x) % p);
        let tf = product(multiples_mod(a, front, p)) as int;
        let power = pow(a as int, front.len());
        let pf = product(front) as int;
        // product(t) = tf * ((a * x) % p)
        lemma_mul_mod_noop_general(tf, (a * x) as int, m);
        lemma_mul_mod_noop_general(power * pf, (a * x) as int, m);
        assert((tf * ((a * x) % p) as int) % m == ((power * pf) * (a * x)) % m);
        lemma_pow_adds(a as int, front.len(), 1);
        lemma_pow1(a as int);
        assert((power * pf) * (a * x) == (power * a) * (pf * x)) by (nonlinear_arith);
    }
}

/// A prime that divides none of the factors does not divide the product.
pub proof fn lemma_product_not_divisible(s: Seq<nat>, p: nat)
    requires
        is_prime(p),
        forall|i: int| 0 <= i < s.len() ==> !divides(p, #[trigger] s[i]),
    ensures
        !divides(p, product(s)),
    decreases s.len(),
{
    if s.len() == 0 {
        lemma_small_mod(1, p);
    } else {
        lemma_product_not_divisible(s.drop_last(), p);
        assert(!divides(p, s[s.len() - 1]));
        if divides(p, product(s)) {
            lemma_euclid(p, product(s.drop_last()), s.last());
        }
    }
}

/// A prime divides no positive number below it.
pub proof fn lemma_prime_exceeds_its_multiples(p: nat, x: nat)
    requires
        p > 0,
        0 < x < p,
    ensures
        !divides(p, x),
{
    lemma_small_mod(x, p);
}

/// Fermat's little theorem: a number that the prime `p` does not divide,
/// raised to the power `p - 1`, leaves the remainder 1 modulo `p`.
pub proof fn lemma_fermat_little(p: nat, a: nat)
    requires
        is_prime(p),
        !divides(p, a),
    ensures
        pow_mod(a, (p - 1) as nat, p) == 1,
{
    let n = (p - 1) as nat;
    let base = one_to(n);
    let t = multiples_mod(a, base, p);
    let m = p as int;
    // The multiples of `a` are the numbers from 1 to `p - 1` in some order.
    assert forall|i: int| 0 <= i < n implies 1 <= #[trigger] t[i] <= n by {
        lemma_mod_bound((a * base[i]) as int, m);
        if t[i] == 0 {
            lemma_euclid(p, a, base[i]);
            lemma_prime_exceeds_its_multiples(p, base[i]);
        }
    }
    assert forall|i: int, j: int| 0 <= i < n && 0 <= j < n && i != j implies t[i] != t[j] by {
        if t[i] == t[j] {
            let (low, high) = if i < j {
                (i, j)
            } else {
                (j, i)
            };
            let gap = (high - low) as nat;
            lemma_mod_equivalence((a * base[high]) as int, (a * base[low]) as int, m);
            assert(a * base[high] - a * base[low] == a * gap) by (nonlinear_arith)
                requires
                    base[high] - base[low] == gap,
            ;
            lemma_euclid(p, a, gap);
            lemma_prime_exceeds_its_multiples(p, gap);
        }
    }
    lemma_permutation_of_range(t, n);
    lemma_product_permutation(t, base);
    lemma_product_of_multiples(a, base, p);
    // So (a^(p-1) - 1) * (p-1)! is a multiple of p, and (p-1)! is not.
    let factorial = product(base);
    let power = pow(a as int, n);
    assert forall|i: int| 0 <= i < base.len() implies !divides(p, #[trigger] base[i]) by {
        lemma_prime_exceeds_its_multiples(p, base[i]);
    }
    lemma_product_not_divisible(base, p);
    assert(a > 0) by {
        if a == 0 {
            assert(0nat % p == 0);
        }
    }
    lemma_pow_positive(a as int, n);
    lemma_mod_equivalence(power * factorial, factorial as int, m);
    assert(power * factorial - factorial == (power - 1) * factorial) by (nonlinear_arith);
    assert((power - 1) * factorial >= 0) by (nonlinear_arith)
        requires
            power >= 1,
            factorial >= 0,
    ;
    lemma_euclid(p, (power - 1) as nat, factorial);
    lemma_mod_equivalence(power, 1, m);
    lemma_small_mod(1, p);
}

/// Modulo a prime only 1 and -1 square to 1.
pub proof fn lemma_prime_has_no_nontrivial_sqrt_of_1(p: nat, x: nat)
    requires
        is_prime(p),
        x < p,
    ensures
        !is_nontrivial_sqrt_of_1(x, p),
{
    if pow_mod(x, 2, p) == 1 && x != 1 && x != p - 1 {
        let m = p as int;
        lemma_square_is_pow2(x as int);
        lemma_small_mod(1, p);
        if x == 0 {
            assert(0 * 0 == 0) by (nonlinear_arith);
            assert(0int % m == 0);
        } else {
            lemma_mod_equivalence((x * x) as int, 1, m);
            assert(x * x - 1 == (x - 1) * (x + 1)) by (nonlinear_arith);
            assert((x - 1) * (x + 1) >= 0) by (nonlinear_arith)
                requires
                    x >= 1,
            ;
            lemma_euclid(p, (x - 1) as nat, x + 1);
            if divides(p, (x - 1) as nat) {
                lemma_prime_exceeds_its_multiples(p, (x - 1) as nat);
            } else {
                lemma_divisor_at_most(p, x + 1);
            }
        }
    }
}

/// A prime passes the strong test to every base that it does not divide.
pub proof fn lemma_prime_is_strong_probable_prime(p: nat, a: nat)
    requires
        is_prime(p),
        !divides(p, a),
    ensures
        is_strong_probable_prime(p, a),
{
    lemma_fermat_little(p, a);
    lemma_chain_end(p, a);
    assert forall|i: nat| i < two_adic_valuation((p - 1) as nat) implies !is_nontrivial_sqrt_of_1(
        #[trigger] squaring_chain(p, a, i),
        p,
    ) by {
        lemma_chain_step(p, a, i);
        lemma_prime_has_no_nontrivial_sqrt_of_1(p, squaring_chain(p, a, i));
    }
    assert(chain_is_clean(p, a));
    lemma_clean_chain_is_strong_probable_prime(p, a);
}

/// A witness is right: a number that fails the strong test to a base it
/// does not divide is composite.
pub proof fn lemma_witness_shows_composite(n: nat, a: nat)
    requires
        is_witness(n, a),
        !divides(n, a),
    ensures
        !is_prime(n),
{
    if is_prime(n) {
        lemma_prime_is_strong_probable_prime(n, a);
    }
}

} // verus!
