//! The 512-bit unsigned integer the algorithms compute with.
//!
//! A value is held as eight 64-bit digits, least significant first, and is
//! viewed as the natural number those digits denote. The arithmetic itself is
//! done by the `bnum` crate; each trusted operation below states what it
//! returns, and everything else is proved from those statements.

use crate::number_theory::is_gcd;
use vstd::arithmetic::div_mod::*;
use vstd::arithmetic::mul::*;
use vstd::arithmetic::power::*;
use vstd::prelude::*;

verus! {

/// The weight of one digit: 2^64.
pub open spec fn radix() -> nat {
    0x1_0000_0000_0000_0000nat
}

/// The first natural number that does not fit: 2^512.
pub open spec fn limit() -> nat {
    0x1_0000_0000_0000_0000_0000_0000_0000_0000_0000_0000_0000_0000_0000_0000_0000_0000_0000_0000_0000_0000_0000_0000_0000_0000_0000_0000_0000_0000_0000_0000_0000_0000nat
}

/// 2^256, the first number whose square does not fit.
pub open spec fn half_limit() -> nat {
    0x1_0000_0000_0000_0000_0000_0000_0000_0000_0000_0000_0000_0000_0000_0000_0000_0000nat
}

/// The square of 2^256 is 2^512.
pub proof fn lemma_half_limit_squared()
    ensures
        half_limit() * half_limit() == limit(),
{
    assert(0x1_0000_0000_0000_0000_0000_0000_0000_0000_0000_0000_0000_0000_0000_0000_0000_0000nat
        * 0x1_0000_0000_0000_0000_0000_0000_0000_0000_0000_0000_0000_0000_0000_0000_0000_0000nat
        == limit()) by (nonlinear_arith)
        requires
            limit()
                == 0x1_0000_0000_0000_0000_0000_0000_0000_0000_0000_0000_0000_0000_0000_0000_0000_0000_0000_0000_0000_0000_0000_0000_0000_0000_0000_0000_0000_0000_0000_0000_0000_0000nat,
    ;
}

/// The named bounds are the powers of two they are meant to be.
pub proof fn lemma_limits_are_powers_of_two()
    ensures
        radix() == pow(2, 64),
        half_limit() == pow(2, 256),
        limit() == pow(2, 512),
{
    vstd::arithmetic::power2::lemma2_to64();
    lemma_pow_positive(2, 64);
    assert(vstd::arithmetic::power2::pow2(64) == pow(2, 64));
    lemma_pow_adds(2, 64, 64);
    lemma_pow_adds(2, 128, 128);
    lemma_pow_adds(2, 256, 256);
    let r = pow(2, 64);
    let q = pow(2, 128);
    assert(q == 0x1_0000_0000_0000_0000_0000_0000_0000_0000nat) by (nonlinear_arith)
        requires
            q == r * r,
            r == 0x1_0000_0000_0000_0000nat,
    ;
    assert(q * q == half_limit()) by (nonlinear_arith)
        requires
            q == 0x1_0000_0000_0000_0000_0000_0000_0000_0000nat,
            half_limit()
                == 0x1_0000_0000_0000_0000_0000_0000_0000_0000_0000_0000_0000_0000_0000_0000_0000_0000nat,
    ;
    lemma_half_limit_squared();
}

/// A number whose square is below 2^512 is below 2^256.
pub proof fn lemma_square_in_range(x: nat)
    requires
        x * x < limit(),
    ensures
        x < half_limit(),
{
    lemma_half_limit_squared();
    assert(x < half_limit()) by (nonlinear_arith)
        requires
            x * x < limit(),
            half_limit() * half_limit() == limit(),
    ;
}

/// The number denoted by eight little-endian digits.
pub open spec fn digits_value(d: Seq<u64>) -> nat {
    (d[0] + radix() * (d[1] + radix() * (d[2] + radix() * (d[3] + radix() * (d[4] + radix() * (d[5]
        + radix() * (d[6] + radix() * d[7]))))))) as nat
}

/// Eight digits denote a number below 2^512.
pub proof fn lemma_digits_bounded(d: Seq<u64>)
    requires
        d.len() == 8,
    ensures
        digits_value(d) < limit(),
{
    let r = radix();
    let t6 = (d[6] + r * d[7]) as nat;
    let t5 = (d[5] + r * t6) as nat;
    let t4 = (d[4] + r * t5) as nat;
    let t3 = (d[3] + r * t4) as nat;
    let t2 = (d[2] + r * t3) as nat;
    let t1 = (d[1] + r * t2) as nat;
    assert(t6 < 0x1_0000_0000_0000_0000_0000_0000_0000_0000nat);
    assert(t5 < 0x1_0000_0000_0000_0000_0000_0000_0000_0000_0000_0000_0000_0000nat);
    assert(t4 < 0x1_0000_0000_0000_0000_0000_0000_0000_0000_0000_0000_0000_0000_0000_0000_0000_0000nat);
    assert(t3 < 0x1_0000_0000_0000_0000_0000_0000_0000_0000_0000_0000_0000_0000_0000_0000_0000_0000_0000_0000_0000_0000nat);
    assert(t2 < 0x1_0000_0000_0000_0000_0000_0000_0000_0000_0000_0000_0000_0000_0000_0000_0000_0000_0000_0000_0000_0000_0000_0000_0000_0000nat);
    assert(t1 < 0x1_0000_0000_0000_0000_0000_0000_0000_0000_0000_0000_0000_0000_0000_0000_0000_0000_0000_0000_0000_0000_0000_0000_0000_0000_0000_0000_0000_0000nat);
    assert(digits_value(d) == d[0] + r * t1);
}

/// A number is below 2^128 exactly if all its digits but the lowest two are
/// 0, and then it is the number that those two denote.
pub proof fn lemma_low_digits(d: Seq<u64>)
    requires
        d.len() == 8,
    ensures
        d[2] == 0 && d[3] == 0 && d[4] == 0 && d[5] == 0 && d[6] == 0 && d[7] == 0
            ==> digits_value(d) == d[0] + radix() * d[1],
        !(d[2] == 0 && d[3] == 0 && d[4] == 0 && d[5] == 0 && d[6] == 0 && d[7] == 0)
            ==> digits_value(d) >= 0x1_0000_0000_0000_0000_0000_0000_0000_0000nat,
{
    let r = radix();
    let t6 = (d[6] + r * d[7]) as nat;
    let t5 = (d[5] + r * t6) as nat;
    let t4 = (d[4] + r * t5) as nat;
    let t3 = (d[3] + r * t4) as nat;
    let t2 = (d[2] + r * t3) as nat;
    let t1 = (d[1] + r * t2) as nat;
    assert(digits_value(d) == d[0] + r * t1);
    if d[2] == 0 && d[3] == 0 && d[4] == 0 && d[5] == 0 && d[6] == 0 && d[7] == 0 {
        assert(t6 == 0);
        assert(t5 == 0);
        assert(t4 == 0);
        assert(t3 == 0);
        assert(t2 == 0);
    } else {
        assert(t6 == 0 ==> d[6] == 0 && d[7] == 0);
        assert(t5 == 0 ==> d[5] == 0 && t6 == 0);
        assert(t4 == 0 ==> d[4] == 0 && t5 == 0);
        assert(t3 == 0 ==> d[3] == 0 && t4 == 0);
        assert(t2 == 0 ==> d[2] == 0 && t3 == 0);
        assert(t2 >= 1);
        assert(t1 >= r);
    }
}

/// A number below 2^64 plus a multiple of 2^64 determines both parts.
pub proof fn lemma_digit_split(low: nat, high: nat, other_low: nat, other_high: nat)
    requires
        low < radix(),
        other_low < radix(),
        low + radix() * high == other_low + radix() * other_high,
    ensures
        low == other_low,
        high == other_high,
{
    let x = (low + radix() * high) as int;
    let r = radix() as int;
    lemma_mul_is_commutative(r, high as int);
    lemma_mul_is_commutative(r, other_high as int);
    lemma_fundamental_div_mod_converse(x, r, high as int, low as int);
    lemma_fundamental_div_mod_converse(x, r, other_high as int, other_low as int);
}

/// Digits that denote the same number are the same digits.
pub proof fn lemma_digits_determined(d: Seq<u64>, e: Seq<u64>)
    requires
        d.len() == 8,
        e.len() == 8,
        digits_value(d) == digits_value(e),
    ensures
        forall|i: int| 0 <= i < 8 ==> d[i] == e[i],
{
    let r = radix();
    let d6 = (d[6] + r * d[7]) as nat;
    let d5 = (d[5] + r * d6) as nat;
    let d4 = (d[4] + r * d5) as nat;
    let d3 = (d[3] + r * d4) as nat;
    let d2 = (d[2] + r * d3) as nat;
    let d1 = (d[1] + r * d2) as nat;
    let e6 = (e[6] + r * e[7]) as nat;
    let e5 = (e[5] + r * e6) as nat;
    let e4 = (e[4] + r * e5) as nat;
    let e3 = (e[3] + r * e4) as nat;
    let e2 = (e[2] + r * e3) as nat;
    let e1 = (e[1] + r * e2) as nat;
    assert(digits_value(d) == d[0] + r * d1);
    assert(digits_value(e) == e[0] + r * e1);
    lemma_digit_split(d[0] as nat, d1, e[0] as nat, e1);
    lemma_digit_split(d[1] as nat, d2, e[1] as nat, e2);
    lemma_digit_split(d[2] as nat, d3, e[2] as nat, e3);
    lemma_digit_split(d[3] as nat, d4, e[3] as nat, e4);
    lemma_digit_split(d[4] as nat, d5, e[4] as nat, e5);
    lemma_digit_split(d[5] as nat, d6, e[5] as nat, e6);
    lemma_digit_split(d[6] as nat, d[7] as nat, e[6] as nat, e[7] as nat);
}

/// A number is even exactly if its lowest digit is.
pub proof fn lemma_parity_of_digits(d: Seq<u64>)
    requires
        d.len() == 8,
    ensures
        digits_value(d) % 2 == d[0] % 2,
{
    let r = radix();
    let rest = (d[1] + r * (d[2] + r * (d[3] + r * (d[4] + r * (d[5] + r * (d[6] + r
        * d[7])))))) as nat;
    assert(digits_value(d) == d[0] + r * rest);
    assert(r * rest == 2 * (0x8000_0000_0000_0000nat * rest)) by (nonlinear_arith)
        requires
            r == 0x1_0000_0000_0000_0000nat,
    ;
    lemma_mod_multiples_vanish((0x8000_0000_0000_0000nat * rest) as int, d[0] as int, 2);
    lemma_mul_is_commutative(2, (0x8000_0000_0000_0000nat * rest) as int);
}

/// The decimal digits of `n`, most significant first; a single 0 for 0.
pub open spec fn decimal_digits(n: nat) -> Seq<nat>
    decreases n,
{
    if n < 10 {
        seq![n]
    } else {
        decimal_digits(n / 10).push(n % 10)
    }
}

/// The character for a decimal digit.
pub open spec fn digit_char(d: nat) -> char {
    "0123456789"@[d as int]
}

/// `n` written in decimal.
pub open spec fn decimal(n: nat) -> Seq<char> {
    decimal_digits(n).map_values(|d: nat| digit_char(d))
}

/// The numbers that a sequence of integers denotes, in order.
pub open spec fn values(v: Seq<U512>) -> Seq<nat> {
    v.map_values(|x: U512| x@)
}

/// Appending an integer appends the number it denotes.
pub proof fn lemma_values_push(v: Seq<U512>, x: U512)
    ensures
        values(v.push(x)) == values(v).push(x@),
{
    assert(values(v.push(x)) =~= values(v).push(x@));
}

/// The numbers of a sequence in two parts are the numbers of the parts.
pub proof fn lemma_values_concat(a: Seq<U512>, b: Seq<U512>)
    ensures
        values(a + b) == values(a) + values(b),
{
    assert(values(a + b) =~= values(a) + values(b));
}

/// A 512-bit unsigned integer.
#[derive(Clone, Copy, Debug, PartialEq, Eq)]
pub struct U512 {
    digits: [u64; 8],
}

impl View for U512 {
    type V = nat;

    closed spec fn view(&self) -> nat {
        digits_value(self.digits@)
    }
}

impl U512 {
    /// Every value is below 2^512.
    pub proof fn lemma_bounded(self)
        ensures
            self@ < limit(),
    {
        lemma_digits_bounded(self.digits@);
    }

    /// The integer with the given digits, least significant first.
    pub fn from_digits(digits: [u64; 8]) -> (r: U512)
        ensures
            r@ == digits_value(digits@),
    {
        U512 { digits }
    }

    /// The digits of the integer, least significant first.
    pub fn digits(&self) -> (r: [u64; 8])
        ensures
            digits_value(r@) == self@,
    {
        self.digits
    }

    /// The integer equal to `x`.
    pub fn from_u64(x: u64) -> (r: U512)
        ensures
            r@ == x,
    {
        let r = U512 { digits: [x, 0, 0, 0, 0, 0, 0, 0] };
        proof {
            lemma_low_digits(r.digits@);
        }
        r
    }

    /// The integer equal to `x`.
    pub fn from_u128(x: u128) -> (r: U512)
        ensures
            r@ == x,
    {
        assert(x & 0xffff_ffff_ffff_ffff <= 0xffff_ffff_ffff_ffff) by (bit_vector);
        assert(x >> 64 <= 0xffff_ffff_ffff_ffff) by (bit_vector);
        assert(x == (x & 0xffff_ffff_ffff_ffff) + (x >> 64) * 0x1_0000_0000_0000_0000)
            by (bit_vector);
        let low = (x & 0xffff_ffff_ffff_ffff) as u64;
        let high = (x >> 64) as u64;
        let r = U512 { digits: [low, high, 0, 0, 0, 0, 0, 0] };
        proof {
            lemma_low_digits(r.digits@);
        }
        r
    }

    /// The value as a `u128`, where it fits.
    pub fn to_u128(&self) -> (r: Option<u128>)
        ensures
            match r {
                Some(x) => x == self@,
                None => self@ > u128::MAX,
            },
    {
        proof {
            lemma_low_digits(self.digits@);
        }
        if self.digits[2] == 0 && self.digits[3] == 0 && self.digits[4] == 0 && self.digits[5] == 0
            && self.digits[6] == 0 && self.digits[7] == 0 {
            let high: u128 = self.digits[1] as u128;
            let low: u128 = self.digits[0] as u128;
            Some(high * 0x1_0000_0000_0000_0000u128 + low)
        } else {
            None
        }
    }

    /// The number 0.
    pub fn zero() -> (r: U512)
        ensures
            r@ == 0,
    {
        U512::from_u64(0)
    }

    /// The number 1.
    pub fn one() -> (r: U512)
        ensures
            r@ == 1,
    {
        U512::from_u64(1)
    }

    /// The number 2.
    pub fn two() -> (r: U512)
        ensures
            r@ == 2,
    {
        U512::from_u64(2)
    }

    /// The number 3.
    pub fn three() -> (r: U512)
        ensures
            r@ == 3,
    {
        U512::from_u64(3)
    }

    /// Whether the value is 0.
    pub fn is_zero(&self) -> (r: bool)
        ensures
            r == (self@ == 0),
    {
        self.equals(&U512::zero())
    }

    /// Whether the value is 1.
    pub fn is_one(&self) -> (r: bool)
        ensures
            r == (self@ == 1),
    {
        self.equals(&U512::one())
    }

    /// Whether the value is a multiple of 2.
    pub fn is_even(&self) -> (r: bool)
        ensures
            r == (self@ % 2 == 0),
    {
        proof {
            lemma_parity_of_digits(self.digits@);
        }
        self.digits[0] % 2 == 0
    }

    /// Whether the value is not a multiple of 2.
    pub fn is_odd(&self) -> (r: bool)
        ensures
            r == (self@ % 2 == 1),
    {
        !self.is_even()
    }

    /// Whether two integers denote the same number.
    pub fn equals(&self, rhs: &U512) -> (r: bool)
        ensures
            r == (self@ == rhs@),
    {
        proof {
            if self@ == rhs@ {
                lemma_digits_determined(self.digits@, rhs.digits@);
            }
        }
        self.digits[0] == rhs.digits[0] && self.digits[1] == rhs.digits[1] && self.digits[2]
            == rhs.digits[2] && self.digits[3] == rhs.digits[3] && self.digits[4] == rhs.digits[4]
            && self.digits[5] == rhs.digits[5] && self.digits[6] == rhs.digits[6] && self.digits[7]
            == rhs.digits[7]
    }

    /// Sum of two integers, where it stays in range.
    ///
    /// Trusted: `+` on `bnum::BUint<8>` returns the sum of its operands when
    /// that sum is below 2^512.
    #[verifier::external_body]
    pub(crate) fn add(&self, rhs: &U512) -> (r: U512)
        requires
            self@ + rhs@ < limit(),
        ensures
            r@ == self@ + rhs@,
    {
        let sum = bnum::BUint::<8>::from_digits(self.digits)
            + bnum::BUint::<8>::from_digits(rhs.digits);
        U512 { digits: *sum.digits() }
    }

    /// Difference of two integers, the larger first.
    ///
    /// Trusted: `-` on `bnum::BUint<8>` returns the difference of its operands
    /// when the right one is not the larger.
    #[verifier::external_body]
    pub(crate) fn sub(&self, rhs: &U512) -> (r: U512)
        requires
            rhs@ <= self@,
        ensures
            r@ == self@ - rhs@,
    {
        let difference = bnum::BUint::<8>::from_digits(self.digits)
            - bnum::BUint::<8>::from_digits(rhs.digits);
        U512 { digits: *difference.digits() }
    }

    /// Product of two integers, or `None` where it leaves the range.
    ///
    /// Trusted: `checked_mul` of `bnum::BUint<8>` returns the product of its
    /// operands exactly when that product is below 2^512, and `None` otherwise.
    #[verifier::external_body]
    pub(crate) fn checked_mul(&self, rhs: &U512) -> (r: Option<U512>)
        ensures
            match r {
                Some(p) => p@ == self@ * rhs@,
                None => self@ * rhs@ >= limit(),
            },
    {
        let product = bnum::BUint::<8>::from_digits(self.digits).checked_mul(
            bnum::BUint::<8>::from_digits(rhs.digits),
        );
        product.map(|p| U512 { digits: *p.digits() })
    }

    /// Quotient of two integers, rounded down.
    ///
    /// Trusted: `/` on `bnum::BUint<8>` returns the quotient of its operands,
    /// rounded down, when the divisor is not zero.
    #[verifier::external_body]
    pub(crate) fn div(&self, rhs: &U512) -> (r: U512)
        requires
            rhs@ != 0,
        ensures
            r@ == self@ / rhs@,
    {
        let quotient = bnum::BUint::<8>::from_digits(self.digits)
            / bnum::BUint::<8>::from_digits(rhs.digits);
        U512 { digits: *quotient.digits() }
    }

    /// Remainder of the division of two integers.
    ///
    /// Trusted: `%` on `bnum::BUint<8>` returns the remainder of the division
    /// of its operands when the divisor is not zero.
    #[verifier::external_body]
    pub(crate) fn rem(&self, rhs: &U512) -> (r: U512)
        requires
            rhs@ != 0,
        ensures
            r@ == self@ % rhs@,
    {
        let remainder = bnum::BUint::<8>::from_digits(self.digits)
            % bnum::BUint::<8>::from_digits(rhs.digits);
        U512 { digits: *remainder.digits() }
    }

    /// A power of an integer, where it stays in range.
    ///
    /// Trusted: `pow` of `bnum::BUint<8>` returns its receiver raised to the
    /// exponent when that power is below 2^512.
    #[verifier::external_body]
    pub(crate) fn pow(&self, exp: u32) -> (r: U512)
        requires
            pow(self@ as int, exp as nat) < limit(),
        ensures
            r@ == pow(self@ as int, exp as nat),
    {
        let power = bnum::BUint::<8>::from_digits(self.digits).pow(exp);
        U512 { digits: *power.digits() }
    }

    /// Whether the first integer is the smaller one.
    ///
    /// Trusted: `<` on `bnum::BUint<8>` orders its operands as numbers.
    #[verifier::external_body]
    pub(crate) fn lt(&self, rhs: &U512) -> (r: bool)
        ensures
            r == (self@ < rhs@),
    {
        bnum::BUint::<8>::from_digits(self.digits) < bnum::BUint::<8>::from_digits(rhs.digits)
    }

    /// The distance between two integers.
    ///
    /// Trusted: `abs_diff` of `bnum::BUint<8>` returns the larger operand
    /// minus the smaller.
    #[verifier::external_body]
    pub(crate) fn abs_diff(&self, rhs: &U512) -> (r: U512)
        ensures
            r@ == if self@ < rhs@ {
                rhs@ - self@
            } else {
                self@ - rhs@
            },
    {
        let distance = bnum::BUint::<8>::from_digits(self.digits).abs_diff(
            bnum::BUint::<8>::from_digits(rhs.digits),
        );
        U512 { digits: *distance.digits() }
    }

    /// The square root of an integer, rounded down.
    ///
    /// Trusted: `num_integer::Roots::sqrt` on `bnum::BUint<8>` returns the
    /// largest integer whose square does not exceed the receiver.
    #[verifier::external_body]
    pub(crate) fn sqrt(&self) -> (r: U512)
        ensures
            r@ * r@ <= self@ < (r@ + 1) * (r@ + 1),
    {
        let root = num_integer::Roots::sqrt(&bnum::BUint::<8>::from_digits(self.digits));
        U512 { digits: *root.digits() }
    }

    /// The greatest common divisor of an integer and a positive integer.
    ///
    /// Trusted: `num_integer::Integer::gcd` on `bnum::BUint<8>` returns the
    /// greatest number that divides both operands.
    #[verifier::external_body]
    pub(crate) fn gcd(&self, rhs: &U512) -> (r: U512)
        requires
            rhs@ > 0,
        ensures
            is_gcd(self@, rhs@, r@),
    {
        let divisor = num_integer::Integer::gcd(
            &bnum::BUint::<8>::from_digits(self.digits),
            &bnum::BUint::<8>::from_digits(rhs.digits),
        );
        U512 { digits: *divisor.digits() }
    }

    /// A random integer of the half-open range from `low` to `high`.
    ///
    /// Trusted: `rand::Rng::gen_range` on `rand::thread_rng()` returns a value
    /// of the range it is given when that range is not empty.
    #[verifier::external_body]
    pub(crate) fn random_in_range(low: &U512, high: &U512) -> (r: U512)
        requires
            low@ < high@,
        ensures
            low@ <= r@ < high@,
    {
        let low = bnum::BUint::<8>::from_digits(low.digits);
        let high = bnum::BUint::<8>::from_digits(high.digits);
        let drawn = rand::Rng::gen_range(&mut rand::thread_rng(), low..high);
        U512 { digits: *drawn.digits() }
    }

    /// The integer written in decimal.
    ///
    /// Trusted: `to_string` on `bnum::BUint<8>` returns the decimal digits of
    /// the number, most significant first, without sign or leading zeros.
    #[verifier::external_body]
    pub(crate) fn to_decimal_string(&self) -> (r: String)
        ensures
            r@ == decimal(self@),
    {
        bnum::BUint::<8>::from_digits(self.digits).to_string()
    }

    /// Whether the first integer is not the larger one.
    pub fn le(&self, rhs: &U512) -> (r: bool)
        ensures
            r == (self@ <= rhs@),
    {
        !rhs.lt(self)
    }

    /// Sum of two residues, reduced modulo `modulus`. No intermediate value
    /// leaves the range, whatever the modulus.
    pub fn add_mod(&self, rhs: &U512, modulus: &U512) -> (r: U512)
        requires
            self@ < modulus@,
            rhs@ < modulus@,
        ensures
            r@ == (self@ + rhs@) % modulus@,
    {
        let gap = modulus.sub(rhs);
        if self.lt(&gap) {
            proof {
                modulus.lemma_bounded();
                lemma_small_mod(self@ + rhs@, modulus@);
            }
            self.add(rhs)
        } else {
            proof {
                lemma_mod_sub_multiples_vanish((self@ + rhs@) as int, modulus@ as int);
                lemma_small_mod((self@ + rhs@ - modulus@) as nat, modulus@);
            }
            self.sub(&gap)
        }
    }

    /// Product of two residues, reduced modulo `modulus`.
    ///
    /// The product is formed directly where it fits in 512 bits, and by
    /// doubling and adding residues where it does not.
    pub fn mul_mod(&self, rhs: &U512, modulus: &U512) -> (r: U512)
        requires
            self@ < modulus@,
            rhs@ < modulus@,
        ensures
            r@ == (self@ * rhs@) % modulus@,
    {
        match self.checked_mul(rhs) {
            Some(product) => product.rem(modulus),
            None => self.mul_mod_by_doubling(rhs, modulus),
        }
    }

    /// Product of two residues, reduced modulo `modulus`, computed without
    /// ever forming a number above the modulus: the left factor is doubled and
    /// the right one halved, and the left one is added in where the right one
    /// is odd.
    pub fn mul_mod_by_doubling(&self, rhs: &U512, modulus: &U512) -> (r: U512)
        requires
            self@ < modulus@,
            rhs@ < modulus@,
        ensures
            r@ == (self@ * rhs@) % modulus@,
    {
        let two = U512::two();
        let mut sum = U512::zero();
        let mut doubled = *self;
        let mut halved = *rhs;
        while !halved.is_zero()
            invariant
                two@ == 2,
                sum@ < modulus@,
                doubled@ < modulus@,
                (sum@ + doubled@ * halved@) % modulus@ == (self@ * rhs@) % modulus@,
            decreases halved@,
        {
            let ghost bit = halved@ % 2;
            let ghost added = (sum@ + bit * doubled@) % modulus@;
            proof {
                lemma_double_and_add(sum@, doubled@, halved@, modulus@);
            }
            if halved.is_odd() {
                assert(bit * doubled@ == doubled@) by (nonlinear_arith)
                    requires
                        bit == 1,
                ;
                sum = sum.add_mod(&doubled, modulus);
            } else {
                proof {
                    assert(bit * doubled@ == 0) by (nonlinear_arith)
                        requires
                            bit == 0,
                    ;
                    lemma_small_mod(sum@, modulus@);
                }
            }
            assert(sum@ == added);
            doubled = doubled.add_mod(&doubled, modulus);
            halved = halved.div(&two);
        }
        proof {
            assert(doubled@ * 0 == 0) by (nonlinear_arith);
            lemma_small_mod(sum@, modulus@);
        }
        sum
    }
}

/// Reducing the terms of `a + b * k` modulo `m` does not change its residue.
pub proof fn lemma_mod_of_sum_with_product(a: int, b: int, k: int, m: int)
    requires
        m > 0,
    ensures
        ((a % m) + (b % m) * k) % m == (a + b * k) % m,
{
    lemma_add_mod_noop(a % m, (b % m) * k, m);
    lemma_mod_twice(a, m);
    lemma_mul_mod_noop_left(b, k, m);
    lemma_add_mod_noop(a, b * k, m);
}

/// One step of multiplication by doubling keeps `sum + doubled * halved`
/// in its residue class.
pub proof fn lemma_double_and_add(sum: nat, doubled: nat, halved: nat, m: nat)
    requires
        m > 0,
    ensures
        ((sum + (halved % 2) * doubled) % m + ((doubled + doubled) % m) * (halved / 2)) % m == (sum
            + doubled * halved) % m,
{
    let k = halved / 2;
    let bit = halved % 2;
    lemma_mod_of_sum_with_product(
        (sum + bit * doubled) as int,
        (doubled + doubled) as int,
        k as int,
        m as int,
    );
    assert(sum + bit * doubled + (doubled + doubled) * k == sum + doubled * halved)
        by (nonlinear_arith)
        requires
            halved == 2 * k + bit,
    ;
}

} // verus!
