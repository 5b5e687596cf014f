//! Reading the phase `c0 + c1 · s` of a BGV ciphertext: decoding it into
//! plaintext coefficients and estimating the invariant noise it carries.

use vstd::prelude::*;

use crate::modarith::{has_mod_inverse, is_mod_inverse, lemma_mod_inverse_unique, mod_inverse_of, mul_mod, prefix_product};
use crate::schemes::bgv::ciphertext::BgvPlaintextFactor;
use crate::schemes::bgv::crt::{bigint_mod_u64, lemma_prefix_product_positive, moduli_product};
use crate::schemes::bgv::params::BgvLevelError;
use crate::schemes::bgv::rns_big::{centered_coefficient, centered_coefficients, limbs_shaped, rns_base};
use crate::wide::{bit_length, int_abs, WideInt};

verus! {

// ---------------------------------------------------------------------------
// Decoding
// ---------------------------------------------------------------------------

/// The plaintext coefficient decoded from a centered phase coefficient `c`
/// under plaintext factor `f`: `(c mod t) · f⁻¹ mod t`.
pub open spec fn decoded_coefficient(c: int, factor: int, t: int) -> int {
    ((c % t) * mod_inverse_of(factor, t)) % t
}

/// Decodes the phase `c0 + c1 · s` of a BGV ciphertext, given by its limbs
/// over the ciphertext moduli: every coefficient is lifted to its centered
/// integer, reduced modulo `t` and divided by the plaintext factor.  Fails
/// on a phase of another degree or limb count than the parameters, and on a
/// factor with no inverse modulo `t`.
pub fn decode_bgv_phase(
    moduli: &Vec<u64>,
    degree: usize,
    plain_modulus: u64,
    phase_degree: usize,
    phase_limbs: &Vec<Vec<u64>>,
    plaintext_factor: BgvPlaintextFactor,
) -> (r: Result<Vec<u64>, BgvLevelError>)
    requires
        rns_base(moduli@),
        plain_modulus > 0,
        forall|l: int| 0 <= l < phase_limbs@.len() ==> (#[trigger] phase_limbs@[l])@.len() == phase_degree,
    ensures
        phase_degree != degree ==> r == Err::<Vec<u64>, BgvLevelError>(
            BgvLevelError::CiphertextDegreeMismatch { expected: degree, actual: phase_degree },
        ),
        phase_degree == degree && phase_limbs@.len() != moduli@.len() ==> r == Err::<
            Vec<u64>,
            BgvLevelError,
        >(
            BgvLevelError::CiphertextLimbMismatch {
                expected: moduli@.len() as usize,
                actual: phase_limbs@.len() as usize,
            },
        ),
        phase_degree == degree && phase_limbs@.len() == moduli@.len() && !has_mod_inverse(
            plaintext_factor@ as int,
            plain_modulus as int,
        ) ==> r == Err::<Vec<u64>, BgvLevelError>(
            BgvLevelError::PlaintextFactorNotInvertible {
                factor: plaintext_factor@,
                modulus: plain_modulus,
            },
        ),
        phase_degree == degree && phase_limbs@.len() == moduli@.len() && has_mod_inverse(
            plaintext_factor@ as int,
            plain_modulus as int,
        ) ==> r is Ok && r->Ok_0@.len() == degree && forall|k: int|
            0 <= k < degree ==> #[trigger] r->Ok_0@[k] == decoded_coefficient(
                centered_coefficient(moduli@, phase_limbs@, k),
                plaintext_factor@ as int,
                plain_modulus as int,
            ),
{
    if phase_degree != degree {
        return Err(BgvLevelError::CiphertextDegreeMismatch { expected: degree, actual: phase_degree });
    }
    if phase_limbs.len() != moduli.len() {
        return Err(
            BgvLevelError::CiphertextLimbMismatch { expected: moduli.len(), actual: phase_limbs.len() },
        );
    }
    let t = plain_modulus;
    let factor_inv = match plaintext_factor.inverse_mod(t) {
        Ok(x) => x,
        Err(e) => {
            return Err(e);
        },
    };
    proof {
        let y = mod_inverse_of(plaintext_factor@ as int, t as int);
        assert(is_mod_inverse(plaintext_factor@ as int, y, t as int));
        lemma_mod_inverse_unique(plaintext_factor@ as int, factor_inv as int, y, t as int);
    }
    let centered_values = centered_coefficients(phase_limbs, moduli, degree);
    let mut out: Vec<u64> = Vec::new();
    let mut k: usize = 0;
    while k < degree
        invariant
            t == plain_modulus,
            t > 0,
            factor_inv as int == mod_inverse_of(plaintext_factor@ as int, t as int),
            factor_inv < t,
            centered_values@.len() == degree,
            forall|kk: int|
                0 <= kk < degree ==> (#[trigger] centered_values@[kk])@ == centered_coefficient(
                    moduli@,
                    phase_limbs@,
                    kk,
                ),
            k <= degree,
            out@.len() == k,
            forall|kk: int|
                0 <= kk < k ==> #[trigger] out@[kk] == decoded_coefficient(
                    centered_coefficient(moduli@, phase_limbs@, kk),
                    plaintext_factor@ as int,
                    t as int,
                ),
        decreases degree - k,
    {
        let mut decoded = bigint_mod_u64(&centered_values[k], t);
        if factor_inv != 1 {
            decoded = mul_mod(decoded, factor_inv, t);
        } else {
            proof {
                vstd::arithmetic::div_mod::lemma_mod_bound(centered_values@[k as int]@, t as int);
                vstd::arithmetic::div_mod::lemma_small_mod(decoded as nat, t as nat);
            }
        }
        out.push(decoded);
        k += 1;
    }
    Ok(out)
}

/// Decoding recovers the message: a centered phase coefficient congruent to
/// `f · m` modulo `t` (the message times the plaintext factor, plus any
/// multiple of `t` of noise) decodes to `m`, for every message `m < t` and
/// invertible factor `f`.
pub proof fn lemma_decode_recovers_message(c: int, factor: int, message: int, t: int)
    requires
        t > 0,
        has_mod_inverse(factor, t),
        0 <= message < t,
        c % t == (factor * message) % t,
    ensures
        decoded_coefficient(c, factor, t) == message,
{
    let x = mod_inverse_of(factor, t);
    assert(is_mod_inverse(factor, x, t));
    // (f·m mod t) · x ≡ f·x·m ≡ m
    vstd::arithmetic::div_mod::lemma_mul_mod_noop_left(factor * message, x, t);
    assert((factor * message) * x == (factor * x) * message) by (nonlinear_arith);
    vstd::arithmetic::div_mod::lemma_mul_mod_noop_left(factor * x, message, t);
    assert(1 * message == message);
    vstd::arithmetic::div_mod::lemma_small_mod(message as nat, t as nat);
}

// ---------------------------------------------------------------------------
// Invariant noise
// ---------------------------------------------------------------------------

/// The largest invariant noise over a phase and the noise budget left.
#[derive(Debug)]
pub struct BgvNoiseEstimate {
    pub max_noise: WideInt,
    pub budget_bits: u64,
}

impl BgvNoiseEstimate {
    /// Bit length of the largest noise.
    pub fn max_noise_bits(&self) -> (r: u64)
        ensures
            r == bit_length(int_abs(self.max_noise@) as nat),
    {
        self.max_noise.bits()
    }
}

/// The noise of a centered phase coefficient `c`: what is left of it once
/// its residue modulo `t` is taken off, `c − (c mod t)`.
pub open spec fn phase_noise(c: int, t: int) -> int {
    c - c % t
}

/// The size `|c − (c mod t)|` of the noise of centered phase coefficient `k`.
pub open spec fn coefficient_noise(moduli: Seq<u64>, limbs: Seq<Vec<u64>>, t: int, k: int) -> int {
    int_abs(phase_noise(centered_coefficient(moduli, limbs, k), t))
}

/// The largest noise in size over the first `n` coefficients of a phase.
pub open spec fn max_abs_noise(moduli: Seq<u64>, limbs: Seq<Vec<u64>>, t: int, n: int) -> int
    decreases n,
{
    if n <= 0 {
        0
    } else {
        let prev = max_abs_noise(moduli, limbs, t, n - 1);
        let here = int_abs(phase_noise(centered_coefficient(moduli, limbs, n - 1), t));
        if prev < here {
            here
        } else {
            prev
        }
    }
}

/// Bits of `Q / 2` left over the largest noise (all of them when there is
/// no noise, none when the noise is as large).
pub open spec fn noise_budget_bits(q: int, max_noise: int) -> int {
    let half_bits = bit_length((q / 2) as nat);
    if max_noise == 0 {
        half_bits as int
    } else if half_bits >= bit_length(max_noise as nat) {
        half_bits - bit_length(max_noise as nat)
    } else {
        0
    }
}

/// The invariant noise of a BGV phase given by its limbs: the largest
/// `|c − (c mod t)|` over its centered coefficients `c`, and the bits of
/// `Q / 2` that it leaves.
pub fn invariant_noise_estimate(
    phase_limbs: &Vec<Vec<u64>>,
    moduli: &Vec<u64>,
    degree: usize,
    plain_modulus: u64,
) -> (r: BgvNoiseEstimate)
    requires
        limbs_shaped(phase_limbs@, moduli@, degree as int),
        rns_base(moduli@),
        plain_modulus > 0,
    ensures
        r.max_noise@ == max_abs_noise(moduli@, phase_limbs@, plain_modulus as int, degree as int),
        forall|k: int|
            0 <= k < degree ==> #[trigger] coefficient_noise(moduli@, phase_limbs@, plain_modulus as int, k)
                <= r.max_noise@,
        degree > 0 ==> exists|k: int|
            0 <= k < degree && r.max_noise@ == #[trigger] coefficient_noise(
                moduli@,
                phase_limbs@,
                plain_modulus as int,
                k,
            ),
        degree == 0 ==> r.max_noise@ == 0,
        r.budget_bits == noise_budget_bits(
            prefix_product(moduli@, moduli@.len() as int),
            r.max_noise@,
        ),
{
    let t = plain_modulus;
    let q = moduli_product(moduli);
    let centered_values = centered_coefficients(phase_limbs, moduli, degree);
    let mut max_noise = WideInt::zero();
    let mut k: usize = 0;
    while k < degree
        invariant
            t == plain_modulus,
            t > 0,
            centered_values@.len() == degree,
            forall|kk: int|
                0 <= kk < degree ==> (#[trigger] centered_values@[kk])@ == centered_coefficient(
                    moduli@,
                    phase_limbs@,
                    kk,
                ),
            k <= degree,
            max_noise@ == max_abs_noise(moduli@, phase_limbs@, t as int, k as int),
        decreases degree - k,
    {
        let message = bigint_mod_u64(&centered_values[k], t);
        let noise = centered_values[k].minus(&WideInt::from_u64(message)).abs();
        if max_noise.lt(&noise) {
            max_noise = noise;
        }
        k += 1;
    }
    proof {
        assert(max_noise@ >= 0) by {
            lemma_max_abs_noise_nonnegative(moduli@, phase_limbs@, t as int, degree as int);
        }
        lemma_max_abs_noise_is_maximum(moduli@, phase_limbs@, t as int, degree as int);
        lemma_prefix_product_positive(moduli@, moduli@.len() as int);
        vstd::arithmetic::div_mod::lemma_div_pos_is_pos(q@, 2);
    }
    let q_half = q.div_floor(&WideInt::from_u64(2));
    let half_bits = q_half.bits();
    let budget_bits = if max_noise.le(&WideInt::zero()) {
        half_bits
    } else {
        let noise_bits = max_noise.bits();
        if half_bits >= noise_bits {
            half_bits - noise_bits
        } else {
            0
        }
    };
    BgvNoiseEstimate { max_noise, budget_bits }
}

proof fn lemma_max_abs_noise_nonnegative(moduli: Seq<u64>, limbs: Seq<Vec<u64>>, t: int, n: int)
    ensures
        max_abs_noise(moduli, limbs, t, n) >= 0,
    decreases n,
{
    if n > 0 {
        lemma_max_abs_noise_nonnegative(moduli, limbs, t, n - 1);
    }
}

/// The largest noise over the first `n` coefficients is the maximum of
/// their noise sizes: no coefficient's noise exceeds it, and one of them
/// (when there is any) attains it; with no coefficient it is zero.
pub proof fn lemma_max_abs_noise_is_maximum(moduli: Seq<u64>, limbs: Seq<Vec<u64>>, t: int, n: int)
    ensures
        forall|k: int|
            0 <= k < n ==> #[trigger] coefficient_noise(moduli, limbs, t, k) <= max_abs_noise(
                moduli,
                limbs,
                t,
                n,
            ),
        n > 0 ==> exists|k: int|
            0 <= k < n && max_abs_noise(moduli, limbs, t, n) == #[trigger] coefficient_noise(
                moduli,
                limbs,
                t,
                k,
            ),
        n <= 0 ==> max_abs_noise(moduli, limbs, t, n) == 0,
    decreases n,
{
    if n > 0 {
        lemma_max_abs_noise_is_maximum(moduli, limbs, t, n - 1);
        let here = coefficient_noise(moduli, limbs, t, n - 1);
        if n - 1 > 0 {
            let w = choose|k: int|
                0 <= k < n - 1 && max_abs_noise(moduli, limbs, t, n - 1) == #[trigger] coefficient_noise(
                    moduli,
                    limbs,
                    t,
                    k,
                );
            if max_abs_noise(moduli, limbs, t, n) != here {
                assert(max_abs_noise(moduli, limbs, t, n) == coefficient_noise(moduli, limbs, t, w));
            }
        }
    }
}

/// The noise of a phase `m + t · e` with a message `0 ≤ m < t` is exactly
/// the scaled error `t · e`, and its residue modulo `t` is the message.
pub proof fn lemma_noise_is_scaled_error(message: int, error: int, t: int)
    requires
        t > 0,
        0 <= message < t,
    ensures
        (message + t * error) % t == message,
        phase_noise(message + t * error, t) == t * error,
{
    vstd::arithmetic::div_mod::lemma_mod_multiples_vanish(error, message, t);
    vstd::arithmetic::div_mod::lemma_small_mod(message as nat, t as nat);
    assert(t * error + message == message + t * error);
}

} // verus!
