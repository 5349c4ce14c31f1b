//! Euclid's lemma and what follows from it: a number has only one
//! factorization into primes.

use crate::number_theory::{
    all_prime, ascending, divides, is_prime, lemma_divisor_of_prime, lemma_divisor_times_cofactor,
    lemma_multiple_is_divisible, lemma_product_push, product,
};
use vstd::arithmetic::div_mod::*;
use vstd::prelude::*;
use vstd::relations::{sorted_by, total_ordering};
use vstd::seq_lib::{lemma_sorted_unique, to_multiset_build, to_multiset_remove};

verus! {

/// A prime that divides `r * b` for some positive `r` below it divides `b`.
proof fn lemma_prime_cancels_small_factor(p: nat, r: nat, b: nat)
    requires
        is_prime(p),
        0 < r < p,
        divides(p, r * b),
    ensures
        divides(p, b),
    decreases r,
{
    if r == 1 {
        assert(1 * b == b) by (nonlinear_arith);
    } else {
        let q = p / r;
        let s = p % r;
        lemma_fundamental_div_mod(p as int, r as int);
        assert(!divides(r, p));
        lemma_divisor_times_cofactor(p, r * b);
        let k = (r * b) / p;
        let m = b - q * k;
        assert(s * b == p * m) by (nonlinear_arith)
            requires
                p == r * q + s,
                p * k == r * b,
                m == b - q * k,
        ;
        assert(m >= 0) by (nonlinear_arith)
            requires
                s * b == p * m,
                s >= 0,
                b >= 0,
                p > 0,
        ;
        lemma_multiple_is_divisible(p, m as nat);
        lemma_prime_cancels_small_factor(p, s, b);
    }
}

/// Euclid's lemma: a prime that divides a product divides one of the
/// factors.
pub proof fn lemma_euclid(p: nat, a: nat, b: nat)
    requires
        is_prime(p),
        divides(p, a * b),
    ensures
        divides(p, a) || divides(p, b),
{
    let r = a % p;
    if r != 0 {
        let q = a / p;
        lemma_fundamental_div_mod(a as int, p as int);
        lemma_divisor_times_cofactor(p, a * b);
        let k = (a * b) / p;
        let m = k - q * b;
        assert(r * b == p * m) by (nonlinear_arith)
            requires
                a == p * q + r,
                p * k == a * b,
                m == k - q * b,
        ;
        assert(m >= 0) by (nonlinear_arith)
            requires
                r * b == p * m,
                r >= 0,
                b >= 0,
                p > 0,
        ;
        lemma_multiple_is_divisible(p, m as nat);
        lemma_prime_cancels_small_factor(p, r, b);
    }
}

/// A product of primes is at least 1, and at least 2 unless it is empty.
pub proof fn lemma_product_of_primes_bound(s: Seq<nat>)
    requires
        all_prime(s),
    ensures
        product(s) >= 1,
        s.len() > 0 ==> product(s) >= 2,
    decreases s.len(),
{
    if s.len() > 0 {
        lemma_product_of_primes_bound(s.drop_last());
        assert(is_prime(s[s.len() - 1]));
        assert(product(s.drop_last()) * s.last() >= 2) by (nonlinear_arith)
            requires
                product(s.drop_last()) >= 1,
                s.last() >= 2,
        ;
    }
}

/// Taking an element out divides the product by it.
pub proof fn lemma_product_remove(s: Seq<nat>, j: int)
    requires
        0 <= j < s.len(),
    ensures
        product(s.remove(j)) * s[j] == product(s),
    decreases s.len(),
{
    if j == s.len() - 1 {
        assert(s.remove(j) =~= s.drop_last());
    } else {
        let front = s.drop_last();
        lemma_product_remove(front, j);
        assert(s.remove(j) =~= front.remove(j).push(s.last()));
        lemma_product_push(front.remove(j), s.last());
        assert(product(front.remove(j)) * s.last() * s[j] == product(front.remove(j)) * s[j]
            * s.last()) by (nonlinear_arith);
    }
}

/// A prime that divides a product of primes is one of them.
pub proof fn lemma_prime_divisor_is_factor(p: nat, s: Seq<nat>)
    requires
        is_prime(p),
        all_prime(s),
        divides(p, product(s)),
    ensures
        exists|j: int| 0 <= j < s.len() && s[j] == p,
    decreases s.len(),
{
    if s.len() == 0 {
        lemma_small_mod(1, p);
    } else {
        lemma_euclid(p, product(s.drop_last()), s.last());
        if divides(p, s.last()) {
            assert(is_prime(s[s.len() - 1]));
            lemma_divisor_of_prime(p, s.last());
        } else {
            lemma_prime_divisor_is_factor(p, s.drop_last());
            let j = choose|j: int| 0 <= j < s.drop_last().len() && s.drop_last()[j] == p;
            assert(s[j] == p);
        }
    }
}

/// The fundamental theorem of arithmetic: two sequences of primes with the
/// same product hold the same primes, each as often in one as in the other.
/// So whatever order a factorization was found in, and by whatever method,
/// sorting it gives the same sequence.
pub proof fn lemma_prime_factorization_unique(a: Seq<nat>, b: Seq<nat>)
    requires
        all_prime(a),
        all_prime(b),
        product(a) == product(b),
    ensures
        a.to_multiset() == b.to_multiset(),
    decreases a.len(),
{
    if a.len() == 0 {
        lemma_product_of_primes_bound(b);
        assert(a =~= b);
    } else {
        let p = a.last();
        let front = a.drop_last();
        assert(is_prime(a[a.len() - 1]));
        lemma_multiple_is_divisible(p, product(front));
        lemma_prime_divisor_is_factor(p, b);
        let j = choose|j: int| 0 <= j < b.len() && b[j] == p;
        let rest = b.remove(j);
        lemma_product_remove(b, j);
        assert(product(front) == product(rest)) by (nonlinear_arith)
            requires
                product(front) * p == product(rest) * p,
                p > 0,
        ;
        assert(all_prime(rest)) by {
            assert forall|i: int| 0 <= i < rest.len() implies is_prime(#[trigger] rest[i]) by {
                if i < j {
                    assert(rest[i] == b[i]);
                } else {
                    assert(rest[i] == b[i + 1]);
                }
            }
        }
        assert(all_prime(front)) by {
            assert forall|i: int| 0 <= i < front.len() implies is_prime(#[trigger] front[i]) by {
                assert(front[i] == a[i]);
            }
        }
        lemma_prime_factorization_unique(front, rest);
        to_multiset_build(front, p);
        assert(front.push(p) =~= a);
        to_multiset_remove(b, j);
        b.to_multiset_ensures();
        assert(b.to_multiset().count(p) > 0);
        assert(b.to_multiset() =~= rest.to_multiset().insert(p));
    }
}

/// What sorting makes of uniqueness: two ascending sequences of primes with
/// the same product are the same sequence.
pub proof fn lemma_ascending_prime_factorization_unique(a: Seq<nat>, b: Seq<nat>)
    requires
        all_prime(a),
        all_prime(b),
        ascending(a),
        ascending(b),
        product(a) == product(b),
    ensures
        a == b,
{
    lemma_prime_factorization_unique(a, b);
    let leq = |x: nat, y: nat| x <= y;
    assert(total_ordering(leq)) by {
        assert(vstd::relations::reflexive(leq));
        assert(vstd::relations::antisymmetric(leq));
        assert(vstd::relations::transitive(leq));
        assert(vstd::relations::strongly_connected(leq));
    }
    assert(sorted_by(a, leq));
    assert(sorted_by(b, leq));
    lemma_sorted_unique(a, b, leq);
}

/// A prime has itself as its only factorization into primes.
pub proof fn lemma_factorization_of_prime(p: nat, s: Seq<nat>)
    requires
        is_prime(p),
        all_prime(s),
        product(s) == p,
    ensures
        s == seq![p],
{
    if s.len() == 0 {
    } else {
        let front = s.drop_last();
        assert(all_prime(front)) by {
            assert forall|i: int| 0 <= i < front.len() implies is_prime(#[trigger] front[i]) by {
                assert(front[i] == s[i]);
            }
        }
        lemma_product_of_primes_bound(front);
        assert(is_prime(s[s.len() - 1]));
        let q = s.last();
        lemma_multiple_is_divisible(q, product(front));
        assert(divides(q, p));
        lemma_divisor_of_prime(q, p);
        assert(product(front) == 1) by (nonlinear_arith)
            requires
                product(front) * p == p,
                p > 0,
        ;
        assert(front.len() == 0);
        assert(s =~= seq![p]);
    }
}

} // verus!
