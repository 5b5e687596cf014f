//! The integers behind RNS residues: the CRT composition of one
//! coefficient's residues modulo the ciphertext moduli, its centered
//! representative, and the balanced key-switching digits read off from it.

use vstd::prelude::*;
use vstd::arithmetic::power2::{lemma2_to64, lemma_pow2_adds, lemma_pow2_strictly_increases, pow2};

use crate::modarith::{
    centered, has_mod_inverse, is_mod_inverse, lemma_mod_inverse_unique, mod_inverse, prefix_product,
    signed_digit_to_mod, signed_residue,
};
use crate::schemes::bgv::keys::BGV_KSW_BASE_LOG;
use crate::schemes::bgv::crt::{
    bigint_mod_u64, crt_inverse, crt_invertible, crt_sum, moduli_product, first_noninvertible, lemma_crt_reduced_residue,
    lemma_divisible_by_product, lemma_factor_of_unit, lemma_first_noninvertible, lemma_first_noninvertible_none,
    lemma_has_inverse_modulus_large, lemma_prefix_product_positive, lemma_product_except, product_except,
    residues_of,
};
use crate::wide::{int_abs, WideInt};

verus! {

// ---------------------------------------------------------------------------
// CRT composition
// ---------------------------------------------------------------------------

/// An RNS base whose CRT composition is defined: every modulus is positive
/// and every `(Q / q_i) mod q_i` is invertible.
pub open spec fn rns_base(moduli: Seq<u64>) -> bool {
    &&& forall|i: int| 0 <= i < moduli.len() ==> #[trigger] moduli[i] > 0
    &&& first_noninvertible(prefix_product(moduli, moduli.len() as int), moduli, 0) is None
}

/// The value in `[0, Q)` that the CRT formula builds from `residues`,
/// `Q = ∏ q_i`.
pub open spec fn rns_value(moduli: Seq<u64>, residues: Seq<u64>) -> int {
    let q = prefix_product(moduli, moduli.len() as int);
    crt_sum(q, moduli, residues, moduli.len() as int) % q
}

/// The value in `[0, Q)` with residue `r_i mod q_i` modulo every `q_i`:
/// `Σ (Q / q_i) · ((Q / q_i)⁻¹ mod q_i) · r_i  mod Q`.
pub fn compose_residues(residues: &Vec<u64>, moduli: &Vec<u64>, q: &WideInt) -> (r: WideInt)
    requires
        residues@.len() == moduli@.len(),
        rns_base(moduli@),
        q@ == prefix_product(moduli@, moduli@.len() as int),
    ensures
        r@ == rns_value(moduli@, residues@),
        0 <= r@ < q@,
        forall|i: int|
            0 <= i < moduli@.len() ==> r@ % (#[trigger] moduli@[i] as int) == (residues@[i] as int) % (
            moduli@[i] as int),
{
    let ghost ms = moduli@;
    let ghost p = q@;
    proof {
        lemma_prefix_product_positive(ms, ms.len() as int);
    }
    let mut acc = WideInt::zero();
    let mut i: usize = 0;
    while i < residues.len()
        invariant
            ms == moduli@,
            p == q@,
            p == prefix_product(ms, ms.len() as int),
            p > 0,
            rns_base(ms),
            residues@.len() == ms.len(),
            i <= ms.len(),
            acc@ == crt_sum(p, ms, residues@, i as int),
            acc@ >= 0,
        decreases ms.len() - i,
    {
        let qi = moduli[i];
        let q_hat = q.div_floor(&WideInt::from_u64(qi));
        let q_hat_mod_qi = bigint_mod_u64(&q_hat, qi);
        proof {
            lemma_first_noninvertible_none(p, ms, 0, i as int);
        }
        let inv = match mod_inverse(q_hat_mod_qi, qi) {
            Some(x) => x,
            None => {
                proof {
                    assert(false);
                }
                0
            },
        };
        proof {
            let y = crt_inverse(p, qi);
            assert(is_mod_inverse(q_hat_mod_qi as int, y, qi as int));
            lemma_mod_inverse_unique(q_hat_mod_qi as int, inv as int, y, qi as int);
        }
        let reduced = WideInt::from_u64(residues[i] % qi);
        let term = q_hat.times(&WideInt::from_u64(inv)).times(&reduced);
        proof {
            vstd::arithmetic::div_mod::lemma_div_pos_is_pos(p, qi as int);
            let a = q_hat@;
            let b = inv as int;
            let c = (residues@[i as int] % qi) as int;
            assert(a * b * c >= 0) by (nonlinear_arith)
                requires
                    a >= 0,
                    b >= 0,
                    c >= 0,
            ;
        }
        acc = acc.plus(&term);
        i += 1;
    }
    let r = acc.mod_floor(q);
    proof {
        assert forall|i: int| 0 <= i < ms.len() implies r@ % (#[trigger] ms[i] as int) == (
        residues@[i] as int) % (ms[i] as int) by {
            lemma_crt_reduced_residue(p, ms, residues@, i);
        }
    }
    r
}

/// The centered representative in `(−Q/2, Q/2]` of the composed value.
pub fn compose_centered(residues: &Vec<u64>, moduli: &Vec<u64>, q: &WideInt) -> (r: WideInt)
    requires
        residues@.len() == moduli@.len(),
        rns_base(moduli@),
        q@ == prefix_product(moduli@, moduli@.len() as int),
    ensures
        r@ == centered(rns_value(moduli@, residues@), q@),
{
    let value = compose_residues(residues, moduli, q);
    let half = q.div_floor(&WideInt::from_u64(2));
    if half.lt(&value) {
        value.minus(q)
    } else {
        value
    }
}

/// Composition undoes taking residues: every `v` in `[0, Q)` is rebuilt from
/// its residues `v mod q_i`.
pub proof fn lemma_rns_round_trip(moduli: Seq<u64>, v: int)
    requires
        rns_base(moduli),
        0 <= v < prefix_product(moduli, moduli.len() as int),
    ensures
        rns_value(moduli, residues_of(v, moduli)) == v,
{
    let n = moduli.len() as int;
    let p = prefix_product(moduli, n);
    let rs = residues_of(v, moduli);
    let x = rns_value(moduli, rs);
    lemma_prefix_product_positive(moduli, n);
    assert forall|i: int| 0 <= i < n implies crt_invertible(p, #[trigger] moduli[i]) by {
        lemma_first_noninvertible_none(p, moduli, 0, i);
    }
    assert forall|i: int| 0 <= i < n implies (x - v) % (#[trigger] moduli[i] as int) == 0 by {
        lemma_crt_reduced_residue(p, moduli, rs, i);
        let m = moduli[i] as int;
        vstd::arithmetic::div_mod::lemma_mod_bound(v, m);
        vstd::arithmetic::div_mod::lemma_small_mod((v % m) as nat, m as nat);
        vstd::arithmetic::div_mod::lemma_sub_mod_noop(x, v, m);
        vstd::arithmetic::div_mod::lemma_small_mod(0, m as nat);
    }
    lemma_divisible_by_product(p, moduli, x - v, n);
    let s = crt_sum(p, moduli, rs, n);
    vstd::arithmetic::div_mod::lemma_mod_bound(s, p);
    vstd::arithmetic::div_mod::lemma_fundamental_div_mod(x - v, p);
    let u = (x - v) / p;
    assert(x - v == p * u);
    assert(0 <= x < p);
    if u > 0 {
        assert(p * u >= p) by (nonlinear_arith)
            requires
                u >= 1,
                p > 0,
        ;
    } else if u < 0 {
        assert(p * u <= -p) by (nonlinear_arith)
            requires
                u <= -1,
                p > 0,
        ;
    } else {
        assert(p * u == 0) by (nonlinear_arith)
            requires
                u == 0,
        ;
    }
}

/// `q_from · q_{from+1} ⋯ q_{to−1}`.
pub open spec fn range_product(q: Seq<u64>, from: int, to: int) -> int
    decreases to - from,
{
    if to <= from {
        1
    } else {
        range_product(q, from, to - 1) * (q[to - 1] as int)
    }
}

proof fn lemma_prefix_product_split(q: Seq<u64>, n: int, total: int)
    requires
        0 <= n <= total <= q.len(),
    ensures
        prefix_product(q, total) == prefix_product(q, n) * range_product(q, n, total),
    decreases total - n,
{
    if total > n {
        lemma_prefix_product_split(q, n, total - 1);
        let a = prefix_product(q, n);
        let b = range_product(q, n, total - 1);
        assert(a * b * (q[total - 1] as int) == a * (b * (q[total - 1] as int))) by (nonlinear_arith);
    }
}

proof fn lemma_prefix_product_take(q: Seq<u64>, n: int, k: int)
    requires
        0 <= k <= n <= q.len(),
    ensures
        prefix_product(q.take(n), k) == prefix_product(q, k),
    decreases k,
{
    if k > 0 {
        lemma_prefix_product_take(q, n, k - 1);
    }
}

/// A prefix of an RNS base whose CRT composition is defined is such a base
/// too.
pub proof fn lemma_rns_base_prefix(moduli: Seq<u64>, n: int)
    requires
        rns_base(moduli),
        0 <= n <= moduli.len(),
    ensures
        rns_base(moduli.take(n)),
{
    let total = moduli.len() as int;
    let p = prefix_product(moduli, total);
    let prefix = moduli.take(n);
    let pp = prefix_product(prefix, n);
    lemma_prefix_product_take(moduli, n, n);
    lemma_prefix_product_split(moduli, n, total);
    let rest = range_product(moduli, n, total);
    assert forall|i: int| 0 <= i < n implies crt_invertible(pp, #[trigger] prefix[i]) by {
        let m = moduli[i] as int;
        lemma_first_noninvertible_none(p, moduli, 0, i);
        assert(crt_invertible(p, moduli[i]));
        lemma_product_except(prefix, n, i);
        let e = product_except(prefix, n, i);
        assert(pp == e * m);
        vstd::arithmetic::div_mod::lemma_div_multiples_vanish(e, m);
        assert(pp / m == e) by {
            vstd::arithmetic::mul::lemma_mul_is_commutative(e, m);
        }
        assert(p == m * (e * rest)) by (nonlinear_arith)
            requires
                p == pp * rest,
                pp == e * m,
        ;
        vstd::arithmetic::div_mod::lemma_div_multiples_vanish(e * rest, m);
        assert(has_mod_inverse((e * rest) % m, m));
        lemma_has_inverse_modulus_large((e * rest) % m, m);
        lemma_factor_of_unit(e, rest, m);
    }
    lemma_first_noninvertible(pp, prefix, 0, n);
}

// ---------------------------------------------------------------------------
// Coefficients of an RNS polynomial
// ---------------------------------------------------------------------------

/// The residues of coefficient `k` across the limbs of a polynomial.
pub open spec fn limb_column(limbs: Seq<Vec<u64>>, k: int) -> Seq<u64> {
    Seq::new(limbs.len(), |l: int| limbs[l]@[k])
}

/// The centered integer in `(−Q/2, Q/2]` behind coefficient `k` of a
/// polynomial given by its limbs.
pub open spec fn centered_coefficient(moduli: Seq<u64>, limbs: Seq<Vec<u64>>, k: int) -> int {
    centered(rns_value(moduli, limb_column(limbs, k)), prefix_product(moduli, moduli.len() as int))
}

/// The limbs of a polynomial of `degree` coefficients over the RNS base.
pub open spec fn limbs_shaped(limbs: Seq<Vec<u64>>, moduli: Seq<u64>, degree: int) -> bool {
    &&& limbs.len() == moduli.len()
    &&& forall|l: int| 0 <= l < limbs.len() ==> (#[trigger] limbs[l])@.len() == degree
}

fn column(limbs: &Vec<Vec<u64>>, k: usize) -> (r: Vec<u64>)
    requires
        forall|l: int| 0 <= l < limbs@.len() ==> k < (#[trigger] limbs@[l])@.len(),
    ensures
        r@ == limb_column(limbs@, k as int),
{
    let mut r: Vec<u64> = Vec::new();
    let mut l: usize = 0;
    while l < limbs.len()
        invariant
            forall|ll: int| 0 <= ll < limbs@.len() ==> k < (#[trigger] limbs@[ll])@.len(),
            l <= limbs@.len(),
            r@ == limb_column(limbs@, k as int).take(l as int),
        decreases limbs@.len() - l,
    {
        r.push(limbs[l][k]);
        l += 1;
        proof {
            assert(r@ =~= limb_column(limbs@, k as int).take(l as int));
        }
    }
    proof {
        assert(r@ =~= limb_column(limbs@, k as int));
    }
    r
}

/// The centered integer behind every coefficient of a polynomial.
pub fn centered_coefficients(limbs: &Vec<Vec<u64>>, moduli: &Vec<u64>, degree: usize) -> (r: Vec<
    WideInt,
>)
    requires
        limbs_shaped(limbs@, moduli@, degree as int),
        rns_base(moduli@),
    ensures
        r@.len() == degree,
        forall|k: int|
            0 <= k < degree ==> (#[trigger] r@[k])@ == centered_coefficient(moduli@, limbs@, k),
{
    let q = moduli_product(moduli);
    let mut out: Vec<WideInt> = Vec::new();
    let mut k: usize = 0;
    while k < degree
        invariant
            limbs_shaped(limbs@, moduli@, degree as int),
            rns_base(moduli@),
            q@ == prefix_product(moduli@, moduli@.len() as int),
            k <= degree,
            out@.len() == k,
            forall|kk: int|
                0 <= kk < k ==> (#[trigger] out@[kk])@ == centered_coefficient(moduli@, limbs@, kk),
        decreases degree - k,
    {
        let residues = column(limbs, k);
        out.push(compose_centered(&residues, moduli, &q));
        k += 1;
    }
    out
}

/// The plaintext whose coefficients are the centered coefficients of a
/// polynomial reduced modulo `t`.
pub fn plaintext_from_centered_poly(
    limbs: &Vec<Vec<u64>>,
    moduli: &Vec<u64>,
    degree: usize,
    plain_modulus: u64,
) -> (r: Vec<u64>)
    requires
        limbs_shaped(limbs@, moduli@, degree as int),
        rns_base(moduli@),
        plain_modulus > 0,
    ensures
        r@.len() == degree,
        forall|k: int|
            0 <= k < degree ==> #[trigger] r@[k] == centered_coefficient(moduli@, limbs@, k) % (
            plain_modulus as int),
{
    let centered_values = centered_coefficients(limbs, moduli, degree);
    plaintext_from_centered_coefficients(&centered_values, degree, plain_modulus)
}

/// A plaintext of `degree` coefficients holding the given integers reduced
/// modulo `t`; coefficients past the given ones are zero, and given ones
/// past the degree are dropped.
pub fn plaintext_from_centered_coefficients(
    coefficients: &Vec<WideInt>,
    degree: usize,
    plain_modulus: u64,
) -> (r: Vec<u64>)
    requires
        plain_modulus > 0,
    ensures
        r@.len() == degree,
        forall|k: int|
            0 <= k < degree ==> #[trigger] r@[k] == (if k < coefficients@.len() {
                coefficients@[k]@ % (plain_modulus as int)
            } else {
                0
            }),
{
    let mut out: Vec<u64> = Vec::new();
    let mut k: usize = 0;
    while k < degree
        invariant
            plain_modulus > 0,
            k <= degree,
            out@.len() == k,
            forall|kk: int|
                0 <= kk < k ==> #[trigger] out@[kk] == (if kk < coefficients@.len() {
                    coefficients@[kk]@ % (plain_modulus as int)
                } else {
                    0
                }),
        decreases degree - k,
    {
        if k < coefficients.len() {
            out.push(bigint_mod_u64(&coefficients[k], plain_modulus));
        } else {
            out.push(0);
        }
        k += 1;
    }
    out
}

// ---------------------------------------------------------------------------
// Balanced key-switching digits
// ---------------------------------------------------------------------------

/// The lowest balanced digit of `v` in base `2^8`: `v mod 256` moved into
/// `(−128, 128]`.
pub open spec fn balanced_digit(v: int) -> int {
    centered(v % 256, 256)
}

/// What remains of `v` once its lowest balanced digit is taken off.
pub open spec fn gadget_step(v: int) -> int {
    (v - balanced_digit(v)) / 256
}

/// What remains of `v` once its `n` lowest balanced digits are taken off.
pub open spec fn gadget_rest(v: int, n: nat) -> int
    decreases n,
{
    if n == 0 {
        v
    } else {
        gadget_rest(gadget_step(v), (n - 1) as nat)
    }
}

/// Balanced digit `i` of `v` in base `2^8`.
pub open spec fn gadget_digit(v: int, i: nat) -> int {
    balanced_digit(gadget_rest(v, i))
}

/// `256^n`.
pub open spec fn base_power(n: nat) -> int
    decreases n,
{
    if n == 0 {
        1
    } else {
        256 * base_power((n - 1) as nat)
    }
}

/// `Σ_{i < n} d_i · 256^i` over the balanced digits `d_i` of `v`.
pub open spec fn gadget_sum(v: int, n: nat) -> int
    decreases n,
{
    if n == 0 {
        0
    } else {
        gadget_sum(v, (n - 1) as nat) + gadget_digit(v, (n - 1) as nat) * base_power((n - 1) as nat)
    }
}

/// `Σ_{i < n} 256^i`.
pub open spec fn gadget_span(n: nat) -> int
    decreases n,
{
    if n == 0 {
        0
    } else {
        256 * gadget_span((n - 1) as nat) + 1
    }
}

proof fn lemma_balanced_digit(v: int)
    ensures
        -128 < balanced_digit(v) <= 128,
        v == 256 * gadget_step(v) + balanced_digit(v),
{
    let r = v % 256;
    vstd::arithmetic::div_mod::lemma_fundamental_div_mod(v, 256);
    vstd::arithmetic::div_mod::lemma_mod_bound(v, 256);
    let q = v / 256;
    if r > 128 {
        assert(v - balanced_digit(v) == 256 * (q + 1));
        vstd::arithmetic::div_mod::lemma_div_multiples_vanish(q + 1, 256);
    } else {
        assert(v - balanced_digit(v) == 256 * q);
        vstd::arithmetic::div_mod::lemma_div_multiples_vanish(q, 256);
    }
}

proof fn lemma_gadget_rest_succ(v: int, j: nat)
    ensures
        gadget_rest(v, j + 1) == gadget_step(gadget_rest(v, j)),
    decreases j,
{
    assert(gadget_rest(v, j + 1) == gadget_rest(gadget_step(v), j));
    if j > 0 {
        lemma_gadget_rest_succ(gadget_step(v), (j - 1) as nat);
        assert(gadget_rest(v, j) == gadget_rest(gadget_step(v), (j - 1) as nat));
    }
}

/// Takes the lowest balanced base-`2^8` digit off `value`: returns the digit
/// `d` in `(−128, 128]` and leaves `(value − d) / 256` behind.
pub fn take_balanced_digit_big(value: &mut WideInt) -> (digit: i64)
    ensures
        digit as int == balanced_digit(old(value)@),
        final(value)@ == gadget_step(old(value)@),
        old(value)@ == 256 * final(value)@ + digit,
        -128 < digit <= 128,
{
    proof {
        lemma_balanced_digit(value@);
        assert((1u64 << 8usize) == 256u64) by (bit_vector);
    }
    let base: u64 = 1u64 << BGV_KSW_BASE_LOG;
    let base_big = WideInt::from_u64(base);
    let half = WideInt::from_u64(base / 2);
    let mut digit = value.mod_floor(&base_big);
    if half.lt(&digit) {
        digit = digit.minus(&base_big);
    }
    let rest = value.minus(&digit).div_floor(&base_big);
    *value = rest;
    match digit.to_i64() {
        Some(d) => d,
        None => {
            proof {
                assert(false);
            }
            0
        },
    }
}

/// Balanced digits recompose the value: `v = Σ_{i < n} d_i · 256^i +
/// 256^n · rest`, for every `v` and every digit count `n`.
pub proof fn lemma_gadget_recompose(v: int, n: nat)
    ensures
        v == gadget_sum(v, n) + base_power(n) * gadget_rest(v, n),
    decreases n,
{
    if n > 0 {
        let m = (n - 1) as nat;
        lemma_gadget_recompose(v, m);
        lemma_gadget_rest_succ(v, m);
        let w = gadget_rest(v, m);
        lemma_balanced_digit(w);
        let p = base_power(m);
        let d = balanced_digit(w);
        let s = gadget_step(w);
        assert(p * w == p * d + (256 * p) * s) by (nonlinear_arith)
            requires
                w == 256 * s + d,
        ;
        assert(d * p == p * d) by (nonlinear_arith);
    }
}

/// `n` balanced digits hold every value in `[−127 · S, 128 · S]`,
/// `S = Σ_{i < n} 256^i`: nothing is left over after them.
pub proof fn lemma_gadget_rest_vanishes(v: int, n: nat)
    requires
        -127 * gadget_span(n) <= v <= 128 * gadget_span(n),
    ensures
        gadget_rest(v, n) == 0,
    decreases n,
{
    if n > 0 {
        let m = (n - 1) as nat;
        lemma_balanced_digit(v);
        let s = gadget_step(v);
        let span = gadget_span(m);
        assert(-127 * span <= s <= 128 * span);
        lemma_gadget_rest_vanishes(s, m);
    }
}

proof fn lemma_base_power_pow2(k: nat)
    ensures
        base_power(k) == pow2(8 * k),
    decreases k,
{
    if k > 0 {
        lemma_base_power_pow2((k - 1) as nat);
        lemma_pow2_adds(8 * ((k - 1) as nat), 8);
        lemma2_to64();
        assert(8 * k == 8 * ((k - 1) as nat) + 8);
    } else {
        lemma2_to64();
    }
}

proof fn lemma_span_covers_power(n: nat)
    requires
        n >= 1,
    ensures
        gadget_span(n) >= base_power((n - 1) as nat),
    decreases n,
{
    let m = (n - 1) as nat;
    assert(gadget_span(n) == 256 * gadget_span(m) + 1);
    if n > 1 {
        lemma_span_covers_power(m);
        assert(base_power(m) == 256 * base_power((m - 1) as nat));
    } else {
        assert(gadget_span(m) == 0);
        assert(base_power(m) == 1);
    }
}

/// The gadget size `⌈b / 8⌉ + 1` that the key-switching key is built with
/// captures every coefficient below `2^b` in size: nothing is left over
/// after its digits, which therefore add up to the coefficient.
pub proof fn lemma_ksw_levels_capture(v: int, bits: nat)
    requires
        int_abs(v) < pow2(bits),
    ensures
        gadget_rest(v, ((bits + 7) / 8 + 1) as nat) == 0,
        v == gadget_sum(v, ((bits + 7) / 8 + 1) as nat),
{
    let k = ((bits + 7) / 8) as nat;
    let n = (k + 1) as nat;
    lemma_base_power_pow2(k);
    if bits < 8 * k {
        lemma_pow2_strictly_increases(bits, 8 * k);
    }
    lemma_span_covers_power(n);
    assert(gadget_span(n) >= pow2(bits));
    lemma_gadget_rest_vanishes(v, n);
    lemma_gadget_recompose(v, n);
    assert(base_power(n) * 0 == 0) by (nonlinear_arith);
}

/// The balanced gadget digits of every coefficient of a polynomial, each
/// digit written back over the RNS base: entry `[i][l][k]` is digit `i` of
/// the centered coefficient `k`, modulo `q_l`.
pub fn decompose_gadget_digits(
    limbs: &Vec<Vec<u64>>,
    moduli: &Vec<u64>,
    degree: usize,
    levels: usize,
) -> (r: Vec<Vec<Vec<u64>>>)
    requires
        limbs_shaped(limbs@, moduli@, degree as int),
        rns_base(moduli@),
    ensures
        r@.len() == levels,
        forall|i: int| 0 <= i < levels ==> (#[trigger] r@[i])@.len() == moduli@.len(),
        forall|i: int, l: int|
            0 <= i < levels && 0 <= l < moduli@.len() ==> (#[trigger] r@[i]@[l])@.len() == degree,
        forall|i: int, l: int, k: int|
            0 <= i < levels && 0 <= l < moduli@.len() && 0 <= k < degree ==> #[trigger] r@[i]@[l]@[k]
                == signed_residue(
                gadget_digit(centered_coefficient(moduli@, limbs@, k), i as nat),
                moduli@[l] as int,
            ),
{
    let centered_values = centered_coefficients(limbs, moduli, degree);
    let mut coefficient_digits: Vec<Vec<i64>> = Vec::new();
    let mut k: usize = 0;
    while k < degree
        invariant
            centered_values@.len() == degree,
            forall|kk: int|
                0 <= kk < degree ==> (#[trigger] centered_values@[kk])@ == centered_coefficient(
                    moduli@,
                    limbs@,
                    kk,
                ),
            k <= degree,
            coefficient_digits@.len() == k,
            forall|kk: int| 0 <= kk < k ==> (#[trigger] coefficient_digits@[kk])@.len() == levels,
            forall|kk: int, i: int|
                0 <= kk < k && 0 <= i < levels ==> (#[trigger] coefficient_digits@[kk]@[i]) as int
                    == gadget_digit(centered_coefficient(moduli@, limbs@, kk), i as nat),
        decreases degree - k,
    {
        let ghost c = centered_coefficient(moduli@, limbs@, k as int);
        let mut signed = centered_values[k].copy();
        let mut digits: Vec<i64> = Vec::new();
        let mut i: usize = 0;
        while i < levels
            invariant
                i <= levels,
                digits@.len() == i,
                signed@ == gadget_rest(c, i as nat),
                forall|ii: int| 0 <= ii < i ==> (#[trigger] digits@[ii]) as int == gadget_digit(c, ii as nat),
            decreases levels - i,
        {
            proof {
                lemma_gadget_rest_succ(c, i as nat);
            }
            digits.push(take_balanced_digit_big(&mut signed));
            i += 1;
        }
        coefficient_digits.push(digits);
        k += 1;
    }
    let mut out: Vec<Vec<Vec<u64>>> = Vec::new();
    let mut i: usize = 0;
    while i < levels
        invariant
            rns_base(moduli@),
            coefficient_digits@.len() == degree,
            forall|kk: int| 0 <= kk < degree ==> (#[trigger] coefficient_digits@[kk])@.len() == levels,
            forall|kk: int, ii: int|
                0 <= kk < degree && 0 <= ii < levels ==> (#[trigger] coefficient_digits@[kk]@[ii]) as int
                    == gadget_digit(centered_coefficient(moduli@, limbs@, kk), ii as nat),
            i <= levels,
            out@.len() == i,
            forall|ii: int| 0 <= ii < i ==> (#[trigger] out@[ii])@.len() == moduli@.len(),
            forall|ii: int, l: int|
                0 <= ii < i && 0 <= l < moduli@.len() ==> (#[trigger] out@[ii]@[l])@.len() == degree,
            forall|ii: int, l: int, kk: int|
                0 <= ii < i && 0 <= l < moduli@.len() && 0 <= kk < degree ==> #[trigger] out@[ii]@[l]@[kk]
                    == signed_residue(
                    gadget_digit(centered_coefficient(moduli@, limbs@, kk), ii as nat),
                    moduli@[l] as int,
                ),
        decreases levels - i,
    {
        let mut level: Vec<Vec<u64>> = Vec::new();
        let mut l: usize = 0;
        while l < moduli.len()
            invariant
                rns_base(moduli@),
                i < levels,
                coefficient_digits@.len() == degree,
                forall|kk: int| 0 <= kk < degree ==> (#[trigger] coefficient_digits@[kk])@.len() == levels,
                forall|kk: int, ii: int|
                    0 <= kk < degree && 0 <= ii < levels ==> (#[trigger] coefficient_digits@[kk]@[ii]) as int
                        == gadget_digit(centered_coefficient(moduli@, limbs@, kk), ii as nat),
                l <= moduli@.len(),
                level@.len() == l,
                forall|ll: int| 0 <= ll < l ==> (#[trigger] level@[ll])@.len() == degree,
                forall|ll: int, kk: int|
                    0 <= ll < l && 0 <= kk < degree ==> #[trigger] level@[ll]@[kk] == signed_residue(
                        gadget_digit(centered_coefficient(moduli@, limbs@, kk), i as nat),
                        moduli@[ll] as int,
                    ),
            decreases moduli@.len() - l,
        {
            let modulus = moduli[l];
            let mut limb: Vec<u64> = Vec::new();
            let mut kk: usize = 0;
            while kk < degree
                invariant
                    modulus > 0,
                    modulus == moduli@[l as int],
                    i < levels,
                    coefficient_digits@.len() == degree,
                    forall|k2: int| 0 <= k2 < degree ==> (#[trigger] coefficient_digits@[k2])@.len() == levels,
                    forall|k2: int, ii: int|
                        0 <= k2 < degree && 0 <= ii < levels ==> (#[trigger] coefficient_digits@[k2]@[ii]) as int
                            == gadget_digit(centered_coefficient(moduli@, limbs@, k2), ii as nat),
                    kk <= degree,
                    limb@.len() == kk,
                    forall|k2: int|
                        0 <= k2 < kk ==> #[trigger] limb@[k2] == signed_residue(
                            gadget_digit(centered_coefficient(moduli@, limbs@, k2), i as nat),
                            modulus as int,
                        ),
                decreases degree - kk,
            {
                limb.push(signed_digit_to_mod(coefficient_digits[kk][i], modulus));
                kk += 1;
            }
            level.push(limb);
            l += 1;
        }
        out.push(level);
        i += 1;
    }
    out
}

} // verus!
