//! Signed integers of any size, held as a sign and little-endian base-`2^32`
//! digits.  Their value is the mathematical integer `@`; the arithmetic
//! itself is done by `num_bigint::BigInt`.

use vstd::prelude::*;

use num_bigint::{BigInt, Sign};
use num_traits::{Euclid, ToPrimitive};

verus! {

/// Value of little-endian base-`2^32` digits.
pub open spec fn digits_value(d: Seq<u32>) -> nat
    decreases d.len(),
{
    if d.len() == 0 {
        0
    } else {
        d[0] as nat + 0x1_0000_0000 * digits_value(d.drop_first())
    }
}

/// Number of binary digits of `v` (0 for 0).
pub open spec fn bit_length(v: nat) -> nat
    decreases v,
{
    if v == 0 {
        0
    } else {
        1 + bit_length(v / 2)
    }
}

/// The bit length of `v > 0` is the `b` with `2^(b−1) ≤ v < 2^b`; that of
/// zero is zero.
pub proof fn lemma_bit_length_brackets(v: nat)
    ensures
        v == 0 ==> bit_length(v) == 0,
        v > 0 ==> bit_length(v) >= 1 && vstd::arithmetic::power2::pow2((bit_length(v) - 1) as nat) <= v
            < vstd::arithmetic::power2::pow2(bit_length(v)),
    decreases v,
{
    if v > 0 {
        let h = v / 2;
        lemma_bit_length_brackets(h);
        let b = bit_length(v);
        vstd::arithmetic::power2::lemma_pow2_unfold(b);
        if h == 0 {
            assert(b == 1);
            assert(vstd::arithmetic::power2::pow2(0) == 1) by {
                vstd::arithmetic::power2::lemma2_to64();
            }
            assert(vstd::arithmetic::power2::pow2(1) == 2) by {
                vstd::arithmetic::power2::lemma2_to64();
            }
        } else {
            vstd::arithmetic::power2::lemma_pow2_unfold((b - 1) as nat);
        }
    }
}

/// `|v|`.
pub open spec fn int_abs(v: int) -> int {
    if v < 0 {
        -v
    } else {
        v
    }
}

/// A signed integer: `negative` and the magnitude's base-`2^32` digits,
/// least significant first.
#[derive(Debug)]
pub struct WideInt {
    pub negative: bool,
    pub magnitude: Vec<u32>,
}

impl View for WideInt {
    type V = int;

    open spec fn view(&self) -> int {
        if self.negative {
            -(digits_value(self.magnitude@) as int)
        } else {
            digits_value(self.magnitude@) as int
        }
    }
}

/// `BigInt` addition: the exact sum.
#[verifier::external_body]
fn wide_add(a: &WideInt, b: &WideInt) -> (r: WideInt)
    ensures
        r@ == a@ + b@,
{
    let x = BigInt::from_slice(if a.negative { Sign::Minus } else { Sign::Plus }, &a.magnitude);
    let y = BigInt::from_slice(if b.negative { Sign::Minus } else { Sign::Plus }, &b.magnitude);
    let (sign, magnitude) = (x + y).to_u32_digits();
    WideInt { negative: matches!(sign, Sign::Minus), magnitude }
}

/// `BigInt` subtraction: the exact difference.
#[verifier::external_body]
fn wide_sub(a: &WideInt, b: &WideInt) -> (r: WideInt)
    ensures
        r@ == a@ - b@,
{
    let x = BigInt::from_slice(if a.negative { Sign::Minus } else { Sign::Plus }, &a.magnitude);
    let y = BigInt::from_slice(if b.negative { Sign::Minus } else { Sign::Plus }, &b.magnitude);
    let (sign, magnitude) = (x - y).to_u32_digits();
    WideInt { negative: matches!(sign, Sign::Minus), magnitude }
}

/// `BigInt` multiplication: the exact product.
#[verifier::external_body]
fn wide_mul(a: &WideInt, b: &WideInt) -> (r: WideInt)
    ensures
        r@ == a@ * b@,
{
    let x = BigInt::from_slice(if a.negative { Sign::Minus } else { Sign::Plus }, &a.magnitude);
    let y = BigInt::from_slice(if b.negative { Sign::Minus } else { Sign::Plus }, &b.magnitude);
    let (sign, magnitude) = (x * y).to_u32_digits();
    WideInt { negative: matches!(sign, Sign::Minus), magnitude }
}

/// `Euclid::div_euclid` of `BigInt` by a positive divisor: the floor of the
/// quotient.
#[verifier::external_body]
fn wide_div_euclid(a: &WideInt, m: &WideInt) -> (r: WideInt)
    requires
        m@ > 0,
    ensures
        r@ == a@ / m@,
{
    let x = BigInt::from_slice(if a.negative { Sign::Minus } else { Sign::Plus }, &a.magnitude);
    let y = BigInt::from_slice(if m.negative { Sign::Minus } else { Sign::Plus }, &m.magnitude);
    let (sign, magnitude) = x.div_euclid(&y).to_u32_digits();
    WideInt { negative: matches!(sign, Sign::Minus), magnitude }
}

/// `Euclid::rem_euclid` of `BigInt` by a positive divisor: the remainder in
/// `[0, m)`.
#[verifier::external_body]
fn wide_rem_euclid(a: &WideInt, m: &WideInt) -> (r: WideInt)
    requires
        m@ > 0,
    ensures
        r@ == a@ % m@,
{
    let x = BigInt::from_slice(if a.negative { Sign::Minus } else { Sign::Plus }, &a.magnitude);
    let y = BigInt::from_slice(if m.negative { Sign::Minus } else { Sign::Plus }, &m.magnitude);
    let (sign, magnitude) = x.rem_euclid(&y).to_u32_digits();
    WideInt { negative: matches!(sign, Sign::Minus), magnitude }
}

/// `<=` on `BigInt` (its `PartialOrd`): the integer order.
#[verifier::external_body]
fn wide_le(a: &WideInt, b: &WideInt) -> (r: bool)
    ensures
        r == (a@ <= b@),
{
    let x = BigInt::from_slice(if a.negative { Sign::Minus } else { Sign::Plus }, &a.magnitude);
    let y = BigInt::from_slice(if b.negative { Sign::Minus } else { Sign::Plus }, &b.magnitude);
    x <= y
}

/// `BigInt::bits`: the bit length of the magnitude.
#[verifier::external_body]
fn wide_bits(a: &WideInt) -> (r: u64)
    ensures
        r == bit_length(int_abs(a@) as nat),
{
    BigInt::from_slice(if a.negative { Sign::Minus } else { Sign::Plus }, &a.magnitude).bits()
}

/// `ToPrimitive::to_u64` of a `BigInt` known to fit.
#[verifier::external_body]
fn wide_to_u64(a: &WideInt) -> (r: u64)
    requires
        0 <= a@ <= u64::MAX,
    ensures
        r == a@,
{
    BigInt::from_slice(if a.negative { Sign::Minus } else { Sign::Plus }, &a.magnitude)
        .to_u64()
        .unwrap_or(0)
}

/// `ToPrimitive::to_i64` of a `BigInt` known to fit.
#[verifier::external_body]
fn wide_to_i64(a: &WideInt) -> (r: i64)
    requires
        i64::MIN <= a@ <= i64::MAX,
    ensures
        r == a@,
{
    BigInt::from_slice(if a.negative { Sign::Minus } else { Sign::Plus }, &a.magnitude)
        .to_i64()
        .unwrap_or(0)
}

impl WideInt {
    /// The integer `0`.
    pub fn zero() -> (r: Self)
        ensures
            r@ == 0,
    {
        WideInt { negative: false, magnitude: Vec::new() }
    }

    /// The integer `v`.
    pub fn from_u64(v: u64) -> (r: Self)
        ensures
            r@ == v,
    {
        let lo = (v % 0x1_0000_0000) as u32;
        let hi = (v / 0x1_0000_0000) as u32;
        let mut magnitude: Vec<u32> = Vec::new();
        magnitude.push(lo);
        magnitude.push(hi);
        proof {
            let d = magnitude@;
            assert(d.drop_first().drop_first().len() == 0);
            assert(digits_value(d.drop_first()) == hi as nat + 0x1_0000_0000 * digits_value(
                d.drop_first().drop_first(),
            ));
        }
        WideInt { negative: false, magnitude }
    }

    /// The integer `v`.
    pub fn from_i64(v: i64) -> (r: Self)
        ensures
            r@ == v,
    {
        if v >= 0 {
            WideInt::from_u64(v as u64)
        } else {
            let m = (0 - (v as i128)) as u64;
            let w = WideInt::from_u64(m);
            WideInt { negative: true, magnitude: w.magnitude }
        }
    }

    /// A copy of the value.
    pub fn copy(&self) -> (r: Self)
        ensures
            r@ == self@,
    {
        let mut magnitude: Vec<u32> = Vec::new();
        let mut i: usize = 0;
        while i < self.magnitude.len()
            invariant
                i <= self.magnitude@.len(),
                magnitude@ == self.magnitude@.take(i as int),
            decreases self.magnitude@.len() - i,
        {
            magnitude.push(self.magnitude[i]);
            i += 1;
            proof {
                assert(self.magnitude@.take(i as int) == self.magnitude@.take(i - 1).push(
                    self.magnitude@[i - 1],
                ));
            }
        }
        proof {
            assert(self.magnitude@.take(self.magnitude@.len() as int) == self.magnitude@);
        }
        WideInt { negative: self.negative, magnitude }
    }

    /// `−self`.
    pub fn neg(&self) -> (r: Self)
        ensures
            r@ == -self@,
    {
        let c = self.copy();
        WideInt { negative: !c.negative, magnitude: c.magnitude }
    }

    /// `|self|`.
    pub fn abs(&self) -> (r: Self)
        ensures
            r@ == int_abs(self@),
    {
        let c = self.copy();
        WideInt { negative: false, magnitude: c.magnitude }
    }

    pub fn plus(&self, other: &Self) -> (r: Self)
        ensures
            r@ == self@ + other@,
    {
        wide_add(self, other)
    }

    pub fn minus(&self, other: &Self) -> (r: Self)
        ensures
            r@ == self@ - other@,
    {
        wide_sub(self, other)
    }

    pub fn times(&self, other: &Self) -> (r: Self)
        ensures
            r@ == self@ * other@,
    {
        wide_mul(self, other)
    }

    /// Floor of `self / m` for `m > 0`.
    pub fn div_floor(&self, m: &Self) -> (r: Self)
        requires
            m@ > 0,
        ensures
            r@ == self@ / m@,
    {
        wide_div_euclid(self, m)
    }

    /// `self mod m` in `[0, m)` for `m > 0`.
    pub fn mod_floor(&self, m: &Self) -> (r: Self)
        requires
            m@ > 0,
        ensures
            r@ == self@ % m@,
            0 <= r@ < m@,
    {
        wide_rem_euclid(self, m)
    }

    pub fn le(&self, other: &Self) -> (r: bool)
        ensures
            r == (self@ <= other@),
    {
        wide_le(self, other)
    }

    pub fn lt(&self, other: &Self) -> (r: bool)
        ensures
            r == (self@ < other@),
    {
        !wide_le(other, self)
    }

    /// Bit length of `|self|`.
    pub fn bits(&self) -> (r: u64)
        ensures
            r == bit_length(int_abs(self@) as nat),
    {
        wide_bits(self)
    }

    /// The value as a `u64`, when it fits.
    pub fn to_u64(&self) -> (r: Option<u64>)
        ensures
            0 <= self@ <= u64::MAX ==> r == Some(self@ as u64),
            !(0 <= self@ <= u64::MAX) ==> r is None,
    {
        let zero = WideInt::zero();
        let max = WideInt::from_u64(u64::MAX);
        if zero.le(self) && self.le(&max) {
            Some(wide_to_u64(self))
        } else {
            None
        }
    }

    /// The value as an `i64`, when it fits.
    pub fn to_i64(&self) -> (r: Option<i64>)
        ensures
            i64::MIN <= self@ <= i64::MAX ==> r == Some(self@ as i64),
            !(i64::MIN <= self@ <= i64::MAX) ==> r is None,
    {
        let lo = WideInt::from_i64(i64::MIN);
        let hi = WideInt::from_i64(i64::MAX);
        if lo.le(self) && self.le(&hi) {
            Some(wide_to_i64(self))
        } else {
            None
        }
    }
}

} // verus!
