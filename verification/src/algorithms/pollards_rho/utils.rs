//! The two parts of Pollard's rho method: the pseudorandom map that is
//! iterated, and Floyd's search for a meeting of a slow and a fast walker.

use crate::number_theory::pigeonhole::lemma_pigeonhole;
use crate::number_theory::{divides, is_gcd};
use crate::uint::U512;
use vstd::arithmetic::div_mod::*;
use vstd::prelude::*;

verus! {

/// One application of the map `x -> (x^2 + c) mod n`.
pub open spec fn rho_step(n: nat, c: nat, x: nat) -> nat {
    (x * x + c) % n
}

/// The map applied `k` times to `start`.
pub open spec fn rho_iterate(n: nat, c: nat, start: nat, k: nat) -> nat
    decreases k,
{
    if k == 0 {
        start
    } else {
        rho_step(n, c, rho_iterate(n, c, start, (k - 1) as nat))
    }
}

/// How far apart two numbers are.
pub open spec fn distance(x: nat, y: nat) -> nat {
    if x < y {
        (y - x) as nat
    } else {
        (x - y) as nat
    }
}

/// The distance of `x` and `y` has a divisor other than 1 in common with
/// `n`.
pub open spec fn shares_factor(x: nat, y: nat, n: nat) -> bool {
    !is_gcd(distance(x, y), n, 1)
}

/// After `k` rounds the slow walker, who has made `k` steps from `start`, and
/// the fast one, who has made `2k + 1`, are apart by a distance that shares a
/// factor with `n`.
pub open spec fn walkers_meet_at(n: nat, c: nat, start: nat, k: nat) -> bool {
    shares_factor(rho_iterate(n, c, start, k), rho_iterate(n, c, start, 2 * k + 1), n)
}

/// Round `k` is the first in which the walkers meet.
pub open spec fn is_first_meeting(n: nat, c: nat, start: nat, k: nat) -> bool {
    walkers_meet_at(n, c, start, k) && forall|j: nat|
        j < k ==> !#[trigger] walkers_meet_at(n, c, start, j)
}

/// The map `x -> (x^2 + c) mod n` for a fixed constant `c` below `n`.
pub struct PseudorandomFn {
    c: U512,
    n: U512,
}

impl PseudorandomFn {
    /// The constant that is added to the square.
    pub closed spec fn constant(&self) -> nat {
        self.c@
    }

    /// The modulus by which the sum is reduced.
    pub closed spec fn modulus(&self) -> nat {
        self.n@
    }

    /// The map with constant `c` and modulus `n`.
    pub fn new(c: U512, n: U512) -> (r: Self)
        requires
            c@ < n@,
        ensures
            r.constant() == c@,
            r.modulus() == n@,
    {
        Self { c, n }
    }

    /// The image of `x`.
    pub fn call(&self, x: &U512) -> (r: U512)
        requires
            self.constant() < self.modulus(),
        ensures
            r@ == rho_step(self.modulus(), self.constant(), x@),
    {
        let residue = x.rem(&self.n);
        proof {
            let m = self.n@ as int;
            lemma_mul_mod_noop(x@ as int, x@ as int, m);
            lemma_add_mod_noop((x@ * x@) as int, self.c@ as int, m);
            lemma_small_mod(self.c@, self.n@);
            lemma_mod_twice((x@ * x@) as int, m);
            lemma_add_mod_noop(((residue@ * residue@) % self.n@) as int, self.c@ as int, m);
        }
        residue.mul_mod(&residue, &self.n).add_mod(&self.c, &self.n)
    }

    /// The modulus.
    pub fn n(&self) -> (r: &U512)
        ensures
            r@ == self.modulus(),
    {
        &self.n
    }
}

/// Floyd's cycle detection: a slow walker starts at `init` and makes one step
/// of `next` per round, a fast one starts one step ahead and makes two. The
/// search ends with the first round in which the distance of the two shares a
/// factor with the modulus, and returns where the slow and the fast walker
/// then stand.
pub fn floyds_cycle_detection(init: U512, next: &PseudorandomFn) -> (r: (U512, U512))
    requires
        next.constant() < next.modulus(),
        next.modulus() >= 2,
    ensures
        exists|k: nat|
            {
                &&& #[trigger] is_first_meeting(next.modulus(), next.constant(), init@, k)
                &&& r.0@ == rho_iterate(next.modulus(), next.constant(), init@, k)
                &&& r.1@ == rho_iterate(next.modulus(), next.constant(), init@, 2 * k + 1)
            },
{
    let ghost n = next.modulus();
    let ghost c = next.constant();
    let mut tortoise = init;
    let mut hare = next.call(&tortoise);
    let ghost mut rounds: nat = 0;
    proof {
        lemma_walkers_meet(n, c, init@);
    }
    let ghost last = choose|k: nat| walkers_meet_at(n, c, init@, k);
    assert(rho_iterate(n, c, init@, 1) == rho_step(n, c, rho_iterate(n, c, init@, 0)));
    while !finished(&tortoise, &hare, next.n())
        invariant
            n == next.modulus(),
            c == next.constant(),
            c < n,
            n >= 2,
            walkers_meet_at(n, c, init@, last),
            rounds <= last,
            tortoise@ == rho_iterate(n, c, init@, rounds),
            hare@ == rho_iterate(n, c, init@, 2 * rounds + 1),
            forall|j: nat| j < rounds ==> !#[trigger] walkers_meet_at(n, c, init@, j),
        decreases last - rounds,
    {
        assert(!walkers_meet_at(n, c, init@, rounds));
        tortoise = next.call(&tortoise);
        hare = next.call(&next.call(&hare));
        proof {
            rounds = rounds + 1;
            assert(rho_iterate(n, c, init@, 2 * rounds) == rho_step(
                n,
                c,
                rho_iterate(n, c, init@, (2 * rounds - 1) as nat),
            ));
        }
    }
    assert(is_first_meeting(n, c, init@, rounds));
    (tortoise, hare)
}

/// Whether the distance of `x` and `y` shares a factor with `n`.
pub fn finished(x: &U512, y: &U512, n: &U512) -> (r: bool)
    requires
        n@ > 0,
    ensures
        r == shares_factor(x@, y@, n@),
{
    let divisor = x.abs_diff(y).gcd(n);
    proof {
        if divisor@ != 1 && is_gcd(distance(x@, y@), n@, 1) {
            assert(divides(divisor@, distance(x@, y@)) && divides(divisor@, n@));
        }
    }
    !divisor.is_one()
}

/// The map `x -> (x^2 + c) mod n` for a random constant `c` from 2 up to, but
/// not including, `n`.
pub fn generate_pseudorandom_fn(n: &U512) -> (r: PseudorandomFn)
    requires
        n@ > 2,
    ensures
        r.modulus() == n@,
        2 <= r.constant() < n@,
{
    let c = random_integer(n);
    PseudorandomFn::new(c, *n)
}

/// A random integer from 2 up to, but not including, `bound`.
fn random_integer(bound: &U512) -> (r: U512)
    requires
        bound@ > 2,
    ensures
        2 <= r@ < bound@,
{
    U512::random_in_range(&U512::two(), bound)
}

/// Steps add up: `i + j` steps from `start` are `j` steps from where `i`
/// steps lead.
pub proof fn lemma_iterate_adds(n: nat, c: nat, start: nat, i: nat, j: nat)
    ensures
        rho_iterate(n, c, start, i + j) == rho_iterate(n, c, rho_iterate(n, c, start, i), j),
    decreases j,
{
    if j > 0 {
        lemma_iterate_adds(n, c, start, i, (j - 1) as nat);
    }
}

/// Where the walk returns after `period` steps to the place it had reached
/// after `first`, it returns to every later place after any number of
/// periods.
pub proof fn lemma_walk_is_periodic(
    n: nat,
    c: nat,
    start: nat,
    first: nat,
    period: nat,
    k: nat,
    times: nat,
)
    requires
        rho_iterate(n, c, start, first) == rho_iterate(n, c, start, first + period),
        k >= first,
    ensures
        rho_iterate(n, c, start, k + times * period) == rho_iterate(n, c, start, k),
    decreases times,
{
    if times == 0 {
        assert(0 * period == 0) by (nonlinear_arith);
    } else {
        lemma_walk_is_periodic(n, c, start, first, period, k, (times - 1) as nat);
        let before = k + (times - 1) * period;
        assert(k + times * period == before + period) by (nonlinear_arith)
            requires
                before == k + (times - 1) * period,
                times >= 1,
        ;
        assert(before >= first) by (nonlinear_arith)
            requires
                before == k + (times - 1) * period,
                k >= first,
                times >= 1,
        ;
        let ahead = (before - first) as nat;
        lemma_iterate_adds(n, c, start, first, ahead);
        lemma_iterate_adds(n, c, start, first + period, ahead);
    }
}

/// The walk is confined to the numbers below `n`, so the walkers meet: in
/// some round the slow and the fast one stand on the same number.
pub proof fn lemma_walkers_meet(n: nat, c: nat, start: nat)
    requires
        n >= 2,
    ensures
        exists|k: nat| walkers_meet_at(n, c, start, k),
{
    let places = Seq::new(n + 1, |i: int| rho_iterate(n, c, start, (i + 1) as nat) as int);
    assert forall|i: int| 0 <= i < places.len() implies 0 <= #[trigger] places[i] < n by {
        lemma_mod_bound(
            (rho_iterate(n, c, start, i as nat) * rho_iterate(n, c, start, i as nat) + c) as int,
            n as int,
        );
    }
    lemma_pigeonhole(places, n as int);
    let (i, j) = choose|i: int, j: int| 0 <= i < j < places.len() && places[i] == places[j];
    let first = (i + 1) as nat;
    let period = (j - i) as nat;
    assert(rho_iterate(n, c, start, first) == rho_iterate(n, c, start, first + period));
    assert(period * (first + 1) >= first + 1) by (nonlinear_arith)
        requires
            period >= 1,
    ;
    let k = (period * (first + 1) - 1) as nat;
    assert(2 * k + 1 == k + (first + 1) * period) by (nonlinear_arith)
        requires
            k == period * (first + 1) - 1,
    ;
    lemma_walk_is_periodic(n, c, start, first, period, k, first + 1);
    let place = rho_iterate(n, c, start, k);
    assert(distance(place, place) == 0);
    assert(divides(n, 0) && divides(n, n)) by {
        lemma_mod_self_0(n as int);
    }
    assert(walkers_meet_at(n, c, start, k));
}

} // verus!
