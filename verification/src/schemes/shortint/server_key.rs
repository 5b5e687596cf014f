//! Shortint server-side bookkeeping: how every homomorphic operation moves the
//! ciphertext's degree / noise metadata, when a carry-cleaning bootstrap is
//! due, which errors are raised, and the lookup tables the operations use.
//!
//! Each function here describes the metadata that the corresponding server
//! operation leaves on its output ciphertext, and fails exactly where that
//! operation fails.

use vstd::prelude::*;

use super::error::ShortintError;
use super::types::{
    max_degree_value, max_noise_value, sat_add, sat_mul, sat_sub, CiphertextNoiseDegree, Degree,
    MaxDegree, MaxNoiseLevel, NoiseLevel,
};

verus! {

// ---------------------------------------------------------------------------
// Specifications
// ---------------------------------------------------------------------------

/// The carry buffer is unused: `degree < message_modulus`.
pub open spec fn spec_carry_is_empty(nd: CiphertextNoiseDegree, message_modulus: u64) -> bool {
    nd.degree.0 < message_modulus
}

/// Metadata of a fresh encryption or of any PBS output: degree
/// `message_modulus - 1`, nominal noise.
pub open spec fn spec_nominal(message_modulus: u64) -> CiphertextNoiseDegree {
    CiphertextNoiseDegree {
        degree: Degree(sat_sub(message_modulus, 1)),
        noise: NoiseLevel(1),
    }
}

/// Metadata after a carry-cleaning bootstrap (skipped when the carry is empty).
pub open spec fn spec_extracted(nd: CiphertextNoiseDegree, message_modulus: u64) -> CiphertextNoiseDegree {
    if spec_carry_is_empty(nd, message_modulus) {
        nd
    } else {
        spec_nominal(message_modulus)
    }
}

/// The result of checking a degree and then a noise level against the bounds.
pub open spec fn spec_check(
    degree: Degree,
    noise: NoiseLevel,
    max_degree: MaxDegree,
    max_noise: MaxNoiseLevel,
) -> Result<CiphertextNoiseDegree, ShortintError> {
    if degree.0 > max_degree.0 {
        Err(ShortintError::CarryFull { degree, max_degree })
    } else if noise.0 > max_noise.0 {
        Err(ShortintError::NoiseTooBig { noise, max_noise })
    } else {
        Ok(CiphertextNoiseDegree { degree, noise })
    }
}

/// Metadata of the raw (bootstrap-free) sum of two ciphertexts.
pub open spec fn spec_unchecked_add(
    left: CiphertextNoiseDegree,
    right: CiphertextNoiseDegree,
    max_degree: MaxDegree,
    max_noise: MaxNoiseLevel,
) -> Result<CiphertextNoiseDegree, ShortintError> {
    spec_check(
        Degree(sat_add(left.degree.0, right.degree.0)),
        NoiseLevel(sat_add(left.noise.0, right.noise.0)),
        max_degree,
        max_noise,
    )
}

/// Metadata of the raw product of a ciphertext by a scalar.
pub open spec fn spec_unchecked_scalar_mul(
    nd: CiphertextNoiseDegree,
    scalar: u64,
    max_degree: MaxDegree,
    max_noise: MaxNoiseLevel,
) -> Result<CiphertextNoiseDegree, ShortintError> {
    if scalar == 0 {
        Ok(CiphertextNoiseDegree { degree: Degree(0), noise: NoiseLevel(1) })
    } else {
        spec_check(
            Degree(sat_mul(nd.degree.0, scalar)),
            NoiseLevel(sat_mul(nd.noise.0, scalar)),
            max_degree,
            max_noise,
        )
    }
}

/// Whether `left · factor + right` can be bootstrapped in one bivariate PBS.
pub open spec fn spec_bivariate_possible(
    lhs: CiphertextNoiseDegree,
    rhs: CiphertextNoiseDegree,
    factor: u64,
    max_degree: MaxDegree,
    max_noise: MaxNoiseLevel,
) -> Result<(), ShortintError> {
    if rhs.degree.0 >= factor {
        Err(ShortintError::UnscaledScaledOverlap(rhs.degree, factor))
    } else {
        match spec_check(
            Degree(sat_add(sat_mul(lhs.degree.0, factor), rhs.degree.0)),
            NoiseLevel(sat_add(sat_mul(lhs.noise.0, factor), rhs.noise.0)),
            max_degree,
            max_noise,
        ) {
            Ok(_) => Ok(()),
            Err(e) => Err(e),
        }
    }
}

// ---------------------------------------------------------------------------
// Metadata primitives
// ---------------------------------------------------------------------------

/// `true` when the carry buffer is unused (`degree < message_modulus`).
pub fn carry_is_empty(degree: Degree, message_modulus: u64) -> (r: bool)
    ensures
        r == (degree.0 < message_modulus),
{
    degree.get() < message_modulus
}

/// Degree / noise of a fresh encryption or a PBS output.
pub fn nominal_noise_degree(message_modulus: u64) -> (r: CiphertextNoiseDegree)
    ensures
        r == spec_nominal(message_modulus),
{
    CiphertextNoiseDegree {
        degree: Degree::new(message_modulus.saturating_sub(1)),
        noise: NoiseLevel::nominal(),
    }
}

/// Metadata left by `message_extract`: unchanged when the carry is empty,
/// nominal after the carry-cleaning bootstrap otherwise.
pub fn message_extract_noise_degree(nd: CiphertextNoiseDegree, message_modulus: u64) -> (r:
    CiphertextNoiseDegree)
    ensures
        r == spec_extracted(nd, message_modulus),
{
    if carry_is_empty(nd.degree, message_modulus) {
        nd
    } else {
        nominal_noise_degree(message_modulus)
    }
}

/// Checks a degree and then a noise level against the server bounds.
fn check_noise_degree(
    degree: Degree,
    noise: NoiseLevel,
    max_degree: MaxDegree,
    max_noise: MaxNoiseLevel,
) -> (r: Result<CiphertextNoiseDegree, ShortintError>)
    ensures
        r == spec_check(degree, noise, max_degree, max_noise),
{
    match max_degree.validate(degree) {
        Err(e) => Err(e),
        Ok(()) => match max_noise.validate(noise) {
            Err(e) => Err(e),
            Ok(()) => Ok(CiphertextNoiseDegree { degree, noise }),
        },
    }
}

/// Bounds of a server key for `message_modulus × carry_modulus`; fails with
/// `MessageModulusTooSmall` exactly when `message_modulus < 2`.
pub fn shortint_noise_bounds(message_modulus: u64, carry_modulus: u64) -> (r: Result<
    (MaxDegree, MaxNoiseLevel),
    ShortintError,
>)
    ensures
        message_modulus < 2 ==> r == Err::<(MaxDegree, MaxNoiseLevel), ShortintError>(
            ShortintError::MessageModulusTooSmall,
        ),
        message_modulus >= 2 ==> r == Ok::<(MaxDegree, MaxNoiseLevel), ShortintError>(
            (
                MaxDegree(max_degree_value(message_modulus, carry_modulus)),
                MaxNoiseLevel(max_noise_value(message_modulus, carry_modulus)),
            ),
        ),
{
    if message_modulus < 2 {
        return Err(ShortintError::MessageModulusTooSmall);
    }
    let max_degree = MaxDegree::from_msg_carry(message_modulus, carry_modulus);
    match MaxNoiseLevel::from_msg_carry(message_modulus, carry_modulus) {
        Ok(max_noise) => Ok((max_degree, max_noise)),
        Err(e) => Err(e),
    }
}

/// Metadata of `unchecked_add`: degrees and noises add (saturating), and the
/// sum must fit under both bounds.
pub fn unchecked_add_noise_degree(
    left: CiphertextNoiseDegree,
    right: CiphertextNoiseDegree,
    max_degree: MaxDegree,
    max_noise: MaxNoiseLevel,
) -> (r: Result<CiphertextNoiseDegree, ShortintError>)
    ensures
        r == spec_unchecked_add(left, right, max_degree, max_noise),
{
    let new_d = left.degree.saturating_add(right.degree);
    let new_n = left.noise.saturating_add(right.noise);
    check_noise_degree(new_d, new_n, max_degree, max_noise)
}

/// Metadata of `unchecked_scalar_mul`: a zero scalar yields a trivial zero
/// ciphertext; otherwise degree and noise scale (saturating) and must fit.
pub fn unchecked_scalar_mul_noise_degree(
    nd: CiphertextNoiseDegree,
    scalar: u64,
    max_degree: MaxDegree,
    max_noise: MaxNoiseLevel,
) -> (r: Result<CiphertextNoiseDegree, ShortintError>)
    ensures
        r == spec_unchecked_scalar_mul(nd, scalar, max_degree, max_noise),
{
    if scalar == 0 {
        return Ok(CiphertextNoiseDegree { degree: Degree::new(0), noise: NoiseLevel::nominal() });
    }
    let new_d = nd.degree.saturating_mul_scalar(scalar);
    let new_n = nd.noise.saturating_mul_scalar(scalar);
    check_noise_degree(new_d, new_n, max_degree, max_noise)
}

/// Precondition of a bivariate PBS packing `lhs · factor + rhs`.
pub fn is_bivariate_pbs_possible(
    lhs: CiphertextNoiseDegree,
    rhs: CiphertextNoiseDegree,
    factor: u64,
    max_degree: MaxDegree,
    max_noise: MaxNoiseLevel,
) -> (r: Result<(), ShortintError>)
    ensures
        r == spec_bivariate_possible(lhs, rhs, factor, max_degree, max_noise),
{
    if rhs.degree.get() >= factor {
        return Err(ShortintError::UnscaledScaledOverlap(rhs.degree, factor));
    }
    let final_d = lhs.degree.saturating_mul_scalar(factor).saturating_add(rhs.degree);
    let final_n = lhs.noise.saturating_mul_scalar(factor).saturating_add(rhs.noise);
    match check_noise_degree(final_d, final_n, max_degree, max_noise) {
        Ok(_) => Ok(()),
        Err(e) => Err(e),
    }
}

// ---------------------------------------------------------------------------
// Checked operations (with automatic carry management)
// ---------------------------------------------------------------------------

/// Metadata of `add` / `sub`: operands with a non-empty carry are first
/// cleaned, the raw sum is checked, and the result is cleaned again.
pub fn add_noise_degree(
    left: CiphertextNoiseDegree,
    right: CiphertextNoiseDegree,
    message_modulus: u64,
    max_degree: MaxDegree,
    max_noise: MaxNoiseLevel,
) -> (r: Result<CiphertextNoiseDegree, ShortintError>)
    ensures
        r == (match spec_unchecked_add(
            spec_extracted(left, message_modulus),
            spec_extracted(right, message_modulus),
            max_degree,
            max_noise,
        ) {
            Ok(sum) => Ok(spec_extracted(sum, message_modulus)),
            Err(e) => Err(e),
        }),
{
    let l = message_extract_noise_degree(left, message_modulus);
    let rr = message_extract_noise_degree(right, message_modulus);
    match unchecked_add_noise_degree(l, rr, max_degree, max_noise) {
        Ok(sum) => Ok(message_extract_noise_degree(sum, message_modulus)),
        Err(e) => Err(e),
    }
}

/// Metadata of `scalar_mul`: clean, multiply, clean.
pub fn scalar_mul_noise_degree(
    nd: CiphertextNoiseDegree,
    scalar: u64,
    message_modulus: u64,
    max_degree: MaxDegree,
    max_noise: MaxNoiseLevel,
) -> (r: Result<CiphertextNoiseDegree, ShortintError>)
    ensures
        r == (match spec_unchecked_scalar_mul(
            spec_extracted(nd, message_modulus),
            scalar,
            max_degree,
            max_noise,
        ) {
            Ok(prod) => Ok(spec_extracted(prod, message_modulus)),
            Err(e) => Err(e),
        }),
{
    let cleaned = message_extract_noise_degree(nd, message_modulus);
    match unchecked_scalar_mul_noise_degree(cleaned, scalar, max_degree, max_noise) {
        Ok(prod) => Ok(message_extract_noise_degree(prod, message_modulus)),
        Err(e) => Err(e),
    }
}

/// Scalar used by `neg`: `message_modulus − 1`, or `MessageModulusTooSmall`.
pub fn neg_scalar(message_modulus: u64) -> (r: Result<u64, ShortintError>)
    ensures
        message_modulus < 2 ==> r == Err::<u64, ShortintError>(
            ShortintError::MessageModulusTooSmall,
        ),
        message_modulus >= 2 ==> r == Ok::<u64, ShortintError>((message_modulus - 1) as u64),
{
    if message_modulus < 2 {
        return Err(ShortintError::MessageModulusTooSmall);
    }
    Ok(message_modulus - 1)
}

/// Metadata of `unchecked_apply_lookup_table_bivariate`: the table must pack
/// by `message_modulus`, the packing must be possible, the packed sum must
/// fit; the bootstrapped output is nominal.
pub fn unchecked_bivariate_noise_degree(
    left: CiphertextNoiseDegree,
    right: CiphertextNoiseDegree,
    pack_factor: u64,
    message_modulus: u64,
    max_degree: MaxDegree,
    max_noise: MaxNoiseLevel,
) -> (r: Result<CiphertextNoiseDegree, ShortintError>)
    ensures
        pack_factor != message_modulus ==> r is Err && r->Err_0 is BivariatePbsPrecondition,
        pack_factor == message_modulus ==> r == (match spec_bivariate_possible(
            left,
            right,
            pack_factor,
            max_degree,
            max_noise,
        ) {
            Err(e) => Err(e),
            Ok(_) => match spec_unchecked_scalar_mul(left, pack_factor, max_degree, max_noise) {
                Err(e) => Err(e),
                Ok(scaled) => match spec_unchecked_add(scaled, right, max_degree, max_noise) {
                    Err(e) => Err(e),
                    Ok(_) => Ok(spec_nominal(message_modulus)),
                },
            },
        }),
{
    if pack_factor != message_modulus {
        return Err(
            ShortintError::BivariatePbsPrecondition(
                "BivariateLookupTable.pack_factor must equal parameter message_modulus (use generate_lookup_table_bivariate)",
            ),
        );
    }
    match is_bivariate_pbs_possible(left, right, pack_factor, max_degree, max_noise) {
        Err(e) => Err(e),
        Ok(()) => match unchecked_scalar_mul_noise_degree(left, pack_factor, max_degree, max_noise) {
            Err(e) => Err(e),
            Ok(scaled) => match unchecked_add_noise_degree(scaled, right, max_degree, max_noise) {
                Err(e) => Err(e),
                Ok(_) => Ok(nominal_noise_degree(message_modulus)),
            },
        },
    }
}

/// Metadata of `apply_lookup_table_bivariate`: when the packing is not
/// possible both operands are cleaned first, then the unchecked bivariate
/// bootstrap runs.
pub fn bivariate_noise_degree(
    left: CiphertextNoiseDegree,
    right: CiphertextNoiseDegree,
    pack_factor: u64,
    message_modulus: u64,
    max_degree: MaxDegree,
    max_noise: MaxNoiseLevel,
) -> (r: Result<CiphertextNoiseDegree, ShortintError>)
    ensures
        pack_factor != message_modulus ==> r is Err && r->Err_0 is BivariatePbsPrecondition,
        r is Ok ==> r == Ok::<CiphertextNoiseDegree, ShortintError>(spec_nominal(message_modulus)),
        pack_factor == message_modulus ==> ({
            let (l, rr) = if spec_bivariate_possible(left, right, pack_factor, max_degree, max_noise) is Ok {
                (left, right)
            } else {
                (spec_extracted(left, message_modulus), spec_extracted(right, message_modulus))
            };
            (r is Ok <==> (spec_bivariate_possible(l, rr, pack_factor, max_degree, max_noise) is Ok
                && spec_unchecked_scalar_mul(l, pack_factor, max_degree, max_noise) is Ok
                && spec_unchecked_add(
                spec_unchecked_scalar_mul(l, pack_factor, max_degree, max_noise)->Ok_0,
                rr,
                max_degree,
                max_noise,
            ) is Ok))
        }),
{
    if pack_factor != message_modulus {
        return Err(ShortintError::BivariatePbsPrecondition("pack_factor mismatch with message_modulus"));
    }
    let (l, rr) = if is_bivariate_pbs_possible(
        left,
        right,
        pack_factor,
        max_degree,
        max_noise,
    ).is_err() {
        (
            message_extract_noise_degree(left, message_modulus),
            message_extract_noise_degree(right, message_modulus),
        )
    } else {
        (left, right)
    };
    match is_bivariate_pbs_possible(l, rr, pack_factor, max_degree, max_noise) {
        Err(e) => Err(e),
        Ok(()) => unchecked_bivariate_noise_degree(
            l,
            rr,
            pack_factor,
            message_modulus,
            max_degree,
            max_noise,
        ),
    }
}

/// Range check of `ShortintClientKey::encrypt`: `message < message_modulus`.
pub fn check_message_range(message: u64, message_modulus: u64) -> (r: Result<(), ShortintError>)
    ensures
        message < message_modulus ==> r == Ok::<(), ShortintError>(()),
        message >= message_modulus ==> r == Err::<(), ShortintError>(
            ShortintError::MessageOutOfRange { message, max: sat_sub(message_modulus, 1) },
        ),
{
    if message >= message_modulus {
        return Err(
            ShortintError::MessageOutOfRange { message, max: message_modulus.saturating_sub(1) },
        );
    }
    Ok(())
}

// ---------------------------------------------------------------------------
// Lookup tables
// ---------------------------------------------------------------------------

/// Splits a packed bivariate slot `left · factor + right` into its operands,
/// each reduced modulo `message_modulus`.
pub fn bivariate_unpack(packed: u64, factor: u64, message_modulus: u64) -> (r: (u64, u64))
    requires
        factor > 0,
        message_modulus > 0,
    ensures
        r.0 == (packed / factor) % message_modulus,
        r.1 == (packed % factor) % message_modulus,
{
    ((packed / factor) % message_modulus, (packed % factor) % message_modulus)
}

/// Table of `bitand`: `(a·b) mod 2` on the low bits, reduced mod `message_modulus`.
pub fn bitand_table(x: u64, y: u64, message_modulus: u64) -> (r: u64)
    requires
        message_modulus > 0,
    ensures
        r == (if x % 2 == 1 && y % 2 == 1 { 1int % (message_modulus as int) } else { 0int }),
{
    let xb = x & 1;
    let yb = y & 1;
    assert(xb == x % 2 && yb == y % 2) by (bit_vector)
        requires
            xb == x & 1,
            yb == y & 1,
    ;
    proof {
        vstd::arithmetic::div_mod::lemma_small_mod(0, message_modulus as nat);
        assert(xb * yb == (if xb == 1 && yb == 1 { 1u64 } else { 0u64 })) by (nonlinear_arith)
            requires
                xb <= 1,
                yb <= 1,
        ;
    }
    (xb * yb) % message_modulus
}

/// Table of `bitxor`: `(a + b) mod 2`.
pub fn bitxor_table(x: u64, y: u64) -> (r: u64)
    requires
        x + y <= u64::MAX,
    ensures
        r == (x + y) % 2,
{
    (x + y) % 2
}

/// Table of `bitor`: `(a + b − a·b)` on the low bits, reduced mod `message_modulus`.
pub fn bitor_table(x: u64, y: u64, message_modulus: u64) -> (r: u64)
    requires
        message_modulus > 0,
    ensures
        r == (if x % 2 == 1 || y % 2 == 1 { 1int % (message_modulus as int) } else { 0int }),
{
    let xb = x & 1;
    let yb = y & 1;
    assert(xb == x % 2 && yb == y % 2) by (bit_vector)
        requires
            xb == x & 1,
            yb == y & 1,
    ;
    proof {
        vstd::arithmetic::div_mod::lemma_small_mod(0, message_modulus as nat);
        assert((xb + yb) - xb * yb == (if xb == 1 || yb == 1 { 1int } else { 0int }))
            by (nonlinear_arith)
            requires
                xb <= 1,
                yb <= 1,
        ;
    }
    ((xb + yb) - xb * yb) % message_modulus
}

/// Table of `gt`.
pub fn gt_table(a: u64, b: u64) -> (r: u64)
    ensures
        r == (if a > b { 1u64 } else { 0u64 }),
{
    if a > b { 1 } else { 0 }
}

/// Table of `eq`.
pub fn eq_table(a: u64, b: u64) -> (r: u64)
    ensures
        r == (if a == b { 1u64 } else { 0u64 }),
{
    if a == b { 1 } else { 0 }
}

/// Table of `lt`.
pub fn lt_table(a: u64, b: u64) -> (r: u64)
    ensures
        r == (if a < b { 1u64 } else { 0u64 }),
{
    if a < b { 1 } else { 0 }
}

/// Table of `ge`.
pub fn ge_table(a: u64, b: u64) -> (r: u64)
    ensures
        r == (if a >= b { 1u64 } else { 0u64 }),
{
    if a >= b { 1 } else { 0 }
}

/// Table of `le`.
pub fn le_table(a: u64, b: u64) -> (r: u64)
    ensures
        r == (if a <= b { 1u64 } else { 0u64 }),
{
    if a <= b { 1 } else { 0 }
}

/// Table of `ne`.
pub fn ne_table(a: u64, b: u64) -> (r: u64)
    ensures
        r == (if a != b { 1u64 } else { 0u64 }),
{
    if a != b { 1 } else { 0 }
}

/// Table of `max`.
pub fn max_table(a: u64, b: u64) -> (r: u64)
    ensures
        r == (if a >= b { a } else { b }),
{
    if a >= b { a } else { b }
}

/// Table of `min`.
pub fn min_table(a: u64, b: u64) -> (r: u64)
    ensures
        r == (if a <= b { a } else { b }),
{
    if a <= b { a } else { b }
}

/// Table of `mul`: `(a · b) mod message_modulus` (wrapping product).
pub fn mul_table(a: u64, b: u64, message_modulus: u64) -> (r: u64)
    requires
        message_modulus > 0,
    ensures
        r == ((a * b) % 0x1_0000_0000_0000_0000) % (message_modulus as int),
{
    let p = a.wrapping_mul(b);
    p % message_modulus
}

/// Table of `bitnot`: `v ↦ (1 − (v mod m)) mod m`.
pub fn bitnot_table(v: u64, message_modulus: u64) -> (r: u64)
    requires
        2 <= message_modulus < u64::MAX,
    ensures
        r == (1 - (v % message_modulus) as int) % (message_modulus as int),
{
    let r = (1u64 + message_modulus - (v % message_modulus)) % message_modulus;
    proof {
        vstd::arithmetic::div_mod::lemma_mod_add_multiples_vanish(
            1 - (v % message_modulus) as int,
            message_modulus as int,
        );
    }
    r
}

/// Table of the carry-cleaning bootstrap: `m ↦ m mod message_modulus`.
pub fn message_extract_table(m: u64, message_modulus: u64) -> (r: u64)
    requires
        message_modulus > 0,
    ensures
        r == m % message_modulus,
{
    m % message_modulus
}

/// Output slot of a bivariate table entry: `value mod total`.
pub fn bivariate_table_output(value: u64, total: u64) -> (r: u64)
    requires
        total > 0,
    ensures
        r == value % total,
{
    value % total
}

// ---------------------------------------------------------------------------
// Laws
// ---------------------------------------------------------------------------

/// A checked addition or subtraction always leaves the carry buffer empty.
pub proof fn lemma_add_leaves_carry_empty(
    left: CiphertextNoiseDegree,
    right: CiphertextNoiseDegree,
    message_modulus: u64,
    max_degree: MaxDegree,
    max_noise: MaxNoiseLevel,
)
    requires
        message_modulus >= 1,
        spec_unchecked_add(
            spec_extracted(left, message_modulus),
            spec_extracted(right, message_modulus),
            max_degree,
            max_noise,
        ) is Ok,
    ensures
        spec_carry_is_empty(
            spec_extracted(
                spec_unchecked_add(
                    spec_extracted(left, message_modulus),
                    spec_extracted(right, message_modulus),
                    max_degree,
                    max_noise,
                )->Ok_0,
                message_modulus,
            ),
            message_modulus,
        ),
{
}

/// Cleaning is idempotent and always leaves the carry empty.
pub proof fn lemma_extract_idempotent(nd: CiphertextNoiseDegree, message_modulus: u64)
    requires
        message_modulus >= 1,
    ensures
        spec_carry_is_empty(spec_extracted(nd, message_modulus), message_modulus),
        spec_extracted(spec_extracted(nd, message_modulus), message_modulus) == spec_extracted(
            nd,
            message_modulus,
        ),
{
}

/// A successful unchecked addition stays within the server bounds.
pub proof fn lemma_unchecked_add_within_bounds(
    left: CiphertextNoiseDegree,
    right: CiphertextNoiseDegree,
    max_degree: MaxDegree,
    max_noise: MaxNoiseLevel,
)
    requires
        spec_unchecked_add(left, right, max_degree, max_noise) is Ok,
    ensures
        spec_unchecked_add(left, right, max_degree, max_noise)->Ok_0.degree.0 <= max_degree.0,
        spec_unchecked_add(left, right, max_degree, max_noise)->Ok_0.noise.0 <= max_noise.0,
        spec_unchecked_add(left, right, max_degree, max_noise)->Ok_0.degree.0 >= left.degree.0,
{
}

/// A fresh encryption fits under the bounds of any valid server key
/// (`message_modulus >= 2`, `carry_modulus >= 1`).
pub proof fn lemma_fresh_within_bounds(message_modulus: u64, carry_modulus: u64)
    requires
        message_modulus >= 2,
        carry_modulus >= 1,
    ensures
        spec_nominal(message_modulus).degree.0 <= max_degree_value(message_modulus, carry_modulus),
        spec_nominal(message_modulus).noise.0 <= max_noise_value(message_modulus, carry_modulus),
{
    let mm = message_modulus as int;
    let cm = carry_modulus as int;
    assert(mm * cm >= mm) by (nonlinear_arith)
        requires
            cm >= 1,
            mm >= 2,
    ;
    assert(cm * mm >= mm) by (nonlinear_arith)
        requires
            cm >= 1,
            mm >= 2,
    ;
    let p = sat_sub(sat_mul(carry_modulus, message_modulus), 1) as int;
    assert(p >= mm - 1);
    assert(p / (mm - 1) >= 1) by (nonlinear_arith)
        requires
            p >= mm - 1,
            mm - 1 >= 1,
    ;
}

} // verus!
