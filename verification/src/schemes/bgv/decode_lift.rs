//! Lifting a same-field decoded plaintext back to the source plaintext space.
//!
//! The same-field decode polynomial `D` over `Z / f` maps a raw phase residue
//! `x` to its decoded value.  Reading `D(x)` modulo the source modulus `s`
//! ("target") is what bootstrapping needs; evaluating `D` homomorphically and
//! then reinterpreting modulo `s` instead yields the centered lift of `D`
//! evaluated at the centered lift of `x`.  The audit lists the residues on
//! which the two disagree, and the correction polynomial interpolates the
//! difference so that adding it restores the target.

use vstd::prelude::*;
use vstd::arithmetic::div_mod::{
    lemma_add_mod_noop, lemma_mul_mod_noop_left, lemma_mul_mod_noop_right, lemma_small_mod,
    lemma_mod_bound,
};

use crate::modarith::{
    add_mod, centered, centered_mod_product, centered_residue_mod_modulus,
    centered_residue_mod_plaintext, has_mod_inverse, is_mod_inverse, mul_mod, prefix_product,
    signed_i64_to_mod, sub_mod,
};
use crate::polymod::{evaluate_mod, interpolation_possible, lagrange_denominator, poly_value};
use crate::schemes::bgv::bootstrap::{denominator_error, interpolate_lagrange_mod, is_interpolant};
use crate::schemes::bgv::ciphertext::BgvPlaintextFactor;
use crate::schemes::bgv::params::BgvLevelError;
use crate::wide::{int_abs, WideInt};

verus! {

/// Value over the integers of the polynomial whose coefficients are the
/// centered representatives (modulo `f`) of `c`.
pub open spec fn centered_poly_value(c: Seq<u64>, x: int, f: int) -> int
    decreases c.len(),
{
    if c.len() == 0 {
        0
    } else {
        centered((c[0] as int) % f, f) + x * centered_poly_value(c.drop_first(), x, f)
    }
}

/// `D(x mod f) mod f`, read modulo `s`: the decoded value bootstrapping needs.
pub open spec fn decode_target_mod_source(c: Seq<u64>, x: int, f: int, s: int) -> int {
    (poly_value(c, x % f) % f) % s
}

/// The centered lift of `D` at the centered lift of `x`, modulo `s`: what a
/// reinterpretation of the fused plaintext modulo `s` yields.
pub open spec fn decode_lift_mod_source(c: Seq<u64>, x: int, f: int, s: int) -> int {
    centered_poly_value(c, centered(x % f, f), f) % s
}

/// Centered lift of the decode polynomial at the centered lift of
/// `raw_phase_residue`, reduced modulo `source_plain_modulus`.
pub fn evaluate_centered_lift_mod_source(
    scalar_coefficients: &Vec<u64>,
    raw_phase_residue: u64,
    fusion_plain_modulus: u64,
    source_plain_modulus: u64,
) -> (r: u64)
    requires
        fusion_plain_modulus > 0,
        source_plain_modulus > 0,
    ensures
        r == decode_lift_mod_source(
            scalar_coefficients@,
            raw_phase_residue as int,
            fusion_plain_modulus as int,
            source_plain_modulus as int,
        ),
        r < source_plain_modulus,
{
    let f = fusion_plain_modulus;
    let s = source_plain_modulus;
    let ghost fi = f as int;
    let ghost si = s as int;
    let ghost cs = scalar_coefficients@;
    let x = centered_residue_mod_modulus(raw_phase_residue % f, f, s);
    let ghost xc = centered((raw_phase_residue % f) as int, fi);
    let n = scalar_coefficients.len();
    let mut acc: u64 = 0;
    let mut i: usize = n;
    proof {
        assert(cs.subrange(n as int, n as int) =~= Seq::<u64>::empty());
        lemma_small_mod(0, s as nat);
    }
    while i > 0
        invariant
            s == source_plain_modulus,
            f == fusion_plain_modulus,
            si == s as int,
            fi == f as int,
            s > 0,
            f > 0,
            cs == scalar_coefficients@,
            n == cs.len(),
            x == xc % si,
            i <= n,
            acc < s,
            acc == centered_poly_value(cs.subrange(i as int, n as int), xc, fi) % si,
        decreases i,
    {
        let c = scalar_coefficients[i - 1];
        let ghost tail = cs.subrange(i as int, n as int);
        let ghost whole = cs.subrange(i - 1, n as int);
        proof {
            assert(whole.drop_first() =~= tail);
            assert(whole[0] == c);
        }
        let cc = centered_residue_mod_modulus(c % f, f, s);
        let prod = mul_mod(acc, x, s);
        proof {
            let pt = centered_poly_value(tail, xc, fi);
            let cent = centered((c as int) % fi, fi);
            assert(cc == cent % si);
            lemma_mul_mod_noop_left(pt, x as int, si);
            lemma_mul_mod_noop_right(pt, xc, si);
            assert(prod == (pt * xc) % si);
            lemma_add_mod_noop(pt * xc, cent, si);
            lemma_small_mod(prod as nat, s as nat);
            lemma_small_mod(cc as nat, s as nat);
            assert(pt * xc == xc * pt) by (nonlinear_arith);
            assert(centered_poly_value(whole, xc, fi) == cent + xc * pt);
        }
        acc = add_mod(prod, cc, s);
        i = i - 1;
    }
    proof {
        assert(cs.subrange(0, n as int) =~= cs);
    }
    acc
}


// ---------------------------------------------------------------------------
// Same-field decode polynomial
// ---------------------------------------------------------------------------

/// Largest fused plaintext modulus whose decode table is interpolated.
pub const MAX_DECODE_LOOKUP_POINTS: u64 = 4096;

/// Lookup polynomial over `Z / f` that decodes a fused raw phase residue to
/// the source plaintext: for a residue whose centered lift `c` satisfies
/// `|c| ≤ B`, the value `(c centered mod Q) · factor⁻¹ mod s`, and `0`
/// elsewhere.
#[derive(Clone, Debug, PartialEq, Eq)]
pub struct BgvBootstrapSameFieldDecodePolynomial {
    pub source_degree: usize,
    pub fusion_plain_modulus: u64,
    pub source_plain_modulus: u64,
    pub factor_inverse: u64,
    pub phase_bound_abs: u64,
    pub scalar_coefficients: Vec<u64>,
}

/// `2B + 1`, the number of centered residues a phase bound `B` covers.
pub open spec fn phase_coverage(phase_bound_abs: u64) -> int {
    2 * (phase_bound_abs as int) + 1
}

/// Decoded value of the fused residue `x < f`.
pub open spec fn decode_value(x: int, f: u64, s: u64, factor_inverse: u64, phase_bound_abs: u64, q: int) -> int {
    let c = centered(x, f as int);
    if -(phase_bound_abs as int) <= c <= phase_bound_abs {
        ((centered(c % q, q) % (s as int)) * (factor_inverse as int)) % (s as int)
    } else {
        0
    }
}

/// Interpolation nodes of the decode polynomial.
pub open spec fn decode_points(f: u64, s: u64, factor_inverse: u64, phase_bound_abs: u64, q: int) -> Seq<
    (u64, u64),
> {
    Seq::new(
        f as nat,
        |x: int|
            (
                x as u64,
                (decode_value(x, f, s, factor_inverse, phase_bound_abs, q) % (f as int)) as u64,
            ),
    )
}

/// Builds the same-field decode polynomial for a source ciphertext (degree,
/// plaintext modulus `s`, plaintext factor, ciphertext moduli with product
/// `Q`) and a fused plaintext space (degree, modulus `f`) under the phase
/// bound `|phase| ≤ B`.
#[verifier::rlimit(30)]
pub fn bgv_bootstrap_same_field_decode_polynomial(
    source_degree: usize,
    source_plain_modulus: u64,
    source_factor: BgvPlaintextFactor,
    source_ciphertext_moduli: &Vec<u64>,
    fusion_degree: usize,
    fusion_plain_modulus: u64,
    phase_bound: &WideInt,
) -> (r: Result<BgvBootstrapSameFieldDecodePolynomial, BgvLevelError>)
    requires
        source_plain_modulus > 0,
        fusion_plain_modulus > 0,
        forall|i: int|
            0 <= i < source_ciphertext_moduli@.len() ==> #[trigger] source_ciphertext_moduli@[i]
                > 0,
    ensures
        ({
            let f = fusion_plain_modulus;
            let s = source_plain_modulus;
            let q = prefix_product(source_ciphertext_moduli@, source_ciphertext_moduli@.len() as int);
            let pb = int_abs(phase_bound@) as u64;
            let cov = 2 * int_abs(phase_bound@) + 1;
            &&& source_degree != fusion_degree ==> r == Err::<
                BgvBootstrapSameFieldDecodePolynomial,
                BgvLevelError,
            >(BgvLevelError::CiphertextDegreeMismatch { expected: source_degree, actual: fusion_degree })
            &&& source_degree == fusion_degree && f > MAX_DECODE_LOOKUP_POINTS ==> r == Err::<
                BgvBootstrapSameFieldDecodePolynomial,
                BgvLevelError,
            >(
                BgvLevelError::BootstrapClassifierLookupTooLarge {
                    modulus: f,
                    max_points: MAX_DECODE_LOOKUP_POINTS,
                },
            )
            &&& source_degree == fusion_degree && f <= MAX_DECODE_LOOKUP_POINTS && f < s ==> r
                == Err::<BgvBootstrapSameFieldDecodePolynomial, BgvLevelError>(
                BgvLevelError::BootstrapSameFieldDecodeSourceModulusTooLarge {
                    fusion_modulus: f,
                    source_modulus: s,
                },
            )
            &&& source_degree == fusion_degree && f <= MAX_DECODE_LOOKUP_POINTS && f >= s && f
                <= cov ==> r == Err::<BgvBootstrapSameFieldDecodePolynomial, BgvLevelError>(
                BgvLevelError::BootstrapSingleModulusClassifierCoverageTooSmall {
                    modulus: f,
                    required: if cov > u64::MAX {
                        u64::MAX
                    } else {
                        cov as u64
                    },
                },
            )
            &&& source_degree == fusion_degree && f <= MAX_DECODE_LOOKUP_POINTS && f >= s && f
                > cov && !has_mod_inverse(source_factor@ as int, s as int) ==> r == Err::<
                BgvBootstrapSameFieldDecodePolynomial,
                BgvLevelError,
            >(BgvLevelError::PlaintextFactorNotInvertible { factor: source_factor@, modulus: s })
            &&& source_degree == fusion_degree && f <= MAX_DECODE_LOOKUP_POINTS && f >= s && f
                > cov && has_mod_inverse(source_factor@ as int, s as int) ==> exists|finv: u64|
                is_mod_inverse(source_factor@ as int, finv as int, s as int) && ({
                    let pts = decode_points(f, s, finv, pb, q);
                    &&& (r is Ok <==> interpolation_possible(pts, f as int))
                    &&& r is Ok ==> ({
                        let d = r->Ok_0;
                        &&& d.source_degree == source_degree
                        &&& d.fusion_plain_modulus == f
                        &&& d.source_plain_modulus == s
                        &&& d.factor_inverse == finv
                        &&& d.phase_bound_abs == pb
                        &&& is_interpolant(d.scalar_coefficients@, pts, f as int)
                    })
                    &&& r is Err ==> exists|i: int|
                        0 <= i < f && !has_mod_inverse(
                            lagrange_denominator(pts, i, f as int),
                            f as int,
                        ) && r->Err_0 == denominator_error(pts, i, f)
                })
        }),
{
    if source_degree != fusion_degree {
        return Err(
            BgvLevelError::CiphertextDegreeMismatch { expected: source_degree, actual: fusion_degree },
        );
    }
    let f = fusion_plain_modulus;
    let s = source_plain_modulus;
    if f > MAX_DECODE_LOOKUP_POINTS {
        return Err(
            BgvLevelError::BootstrapClassifierLookupTooLarge {
                modulus: f,
                max_points: MAX_DECODE_LOOKUP_POINTS,
            },
        );
    }
    if f < s {
        return Err(
            BgvLevelError::BootstrapSameFieldDecodeSourceModulusTooLarge {
                fusion_modulus: f,
                source_modulus: s,
            },
        );
    }
    let bound = phase_bound.abs();
    let required_wide = bound.times(&WideInt::from_u64(2)).plus(&WideInt::from_u64(1));
    if WideInt::from_u64(f).le(&required_wide) {
        let required = match required_wide.to_u64() {
            Some(v) => v,
            None => u64::MAX,
        };
        return Err(
            BgvLevelError::BootstrapSingleModulusClassifierCoverageTooSmall {
                modulus: f,
                required,
            },
        );
    }
    let phase_bound_abs = match bound.to_u64() {
        Some(v) => v,
        None => 0,
    };
    let factor_inverse = match source_factor.inverse_mod(s) {
        Ok(x) => x,
        Err(e) => {
            return Err(e);
        },
    };
    let ghost q = prefix_product(source_ciphertext_moduli@, source_ciphertext_moduli@.len() as int);
    let ghost pts = decode_points(f, s, factor_inverse, phase_bound_abs, q);
    let mut points: Vec<(u64, u64)> = Vec::new();
    let mut x: u64 = 0;
    while x < f
        invariant
            f == fusion_plain_modulus,
            s == source_plain_modulus,
            0 < f <= MAX_DECODE_LOOKUP_POINTS,
            s > 0,
            f > phase_coverage(phase_bound_abs),
            forall|i: int|
                0 <= i < source_ciphertext_moduli@.len() ==> #[trigger] source_ciphertext_moduli@[i]
                    > 0,
            q == prefix_product(source_ciphertext_moduli@, source_ciphertext_moduli@.len() as int),
            pts == decode_points(f, s, factor_inverse, phase_bound_abs, q),
            x <= f,
            points@.len() == x,
            forall|j: int| 0 <= j < x ==> #[trigger] points@[j] == pts[j],
        decreases f - x,
    {
        let c: i128 = centered_residue_mod_plaintext(x, f);
        proof {
            vstd::arithmetic::div_mod::lemma_small_mod(x as nat, f as nat);
        }
        let decoded: u64 = if -(phase_bound_abs as i128) <= c && c <= phase_bound_abs as i128 {
            let source_centered = centered_mod_product(c as i64, source_ciphertext_moduli);
            let residue = signed_i64_to_mod(source_centered, s);
            mul_mod(residue, factor_inverse, s)
        } else {
            0
        };
        points.push((x, decoded % f));
        x += 1;
    }
    proof {
        assert(points@ =~= pts);
    }
    match interpolate_lagrange_mod(&points, f) {
        Ok(scalar_coefficients) => Ok(
            BgvBootstrapSameFieldDecodePolynomial {
                source_degree,
                fusion_plain_modulus: f,
                source_plain_modulus: s,
                factor_inverse,
                phase_bound_abs,
                scalar_coefficients,
            },
        ),
        Err(e) => Err(e),
    }
}

impl BgvBootstrapSameFieldDecodePolynomial {
    /// Value of the decode polynomial at `raw_phase_residue mod f`.
    pub fn evaluate_scalar(&self, raw_phase_residue: u64) -> (r: u64)
        requires
            self.fusion_plain_modulus > 0,
        ensures
            r == poly_value(
                self.scalar_coefficients@,
                (raw_phase_residue % self.fusion_plain_modulus) as int,
            ) % (self.fusion_plain_modulus as int),
    {
        evaluate_mod(
            &self.scalar_coefficients,
            raw_phase_residue % self.fusion_plain_modulus,
            self.fusion_plain_modulus,
        )
    }

    /// Centered lift of the decode polynomial at the centered lift of
    /// `raw_phase_residue`, read modulo the source plaintext modulus.
    pub fn evaluate_scalar_centered_lift_mod_source(&self, raw_phase_residue: u64) -> (r: u64)
        requires
            self.fusion_plain_modulus > 0,
            self.source_plain_modulus > 0,
        ensures
            r == decode_lift_mod_source(
                self.scalar_coefficients@,
                raw_phase_residue as int,
                self.fusion_plain_modulus as int,
                self.source_plain_modulus as int,
            ),
    {
        evaluate_centered_lift_mod_source(
            &self.scalar_coefficients,
            raw_phase_residue,
            self.fusion_plain_modulus,
            self.source_plain_modulus,
        )
    }
}

/// A raw phase residue on which the centered lift disagrees with the target.
#[derive(Clone, Debug, PartialEq, Eq)]
pub struct BgvBootstrapSameFieldDecodeLiftMismatch {
    pub raw_phase_residue: u64,
    pub target_mod_source: u64,
    pub centered_lift_mod_source: u64,
    pub correction_mod_source: u64,
}

/// Every residue of `Z / f` on which the centered lift of the decode
/// polynomial misses the target modulo `s`.
#[derive(Clone, Debug, PartialEq, Eq)]
pub struct BgvBootstrapSameFieldDecodeLiftAudit {
    pub source_degree: usize,
    pub fusion_plain_modulus: u64,
    pub source_plain_modulus: u64,
    pub mismatch_count: usize,
    pub mismatches: Vec<BgvBootstrapSameFieldDecodeLiftMismatch>,
}

/// Interpolant over `Z / f` of the per-residue difference between the target
/// and the centered lift, taken modulo `s`.
#[derive(Clone, Debug, PartialEq, Eq)]
pub struct BgvBootstrapSameFieldDecodeLiftCorrectionPolynomial {
    pub source_degree: usize,
    pub fusion_plain_modulus: u64,
    pub source_plain_modulus: u64,
    pub scalar_coefficients: Vec<u64>,
}

/// Residues `x < n` on which the lift and the target disagree, in order.
pub open spec fn lift_mismatch_residues(c: Seq<u64>, f: int, s: int, n: int) -> Seq<int>
    decreases n,
{
    if n <= 0 {
        Seq::empty()
    } else {
        let prev = lift_mismatch_residues(c, f, s, n - 1);
        if decode_target_mod_source(c, n - 1, f, s) != decode_lift_mod_source(c, n - 1, f, s) {
            prev.push(n - 1)
        } else {
            prev
        }
    }
}

/// `m` records the mismatch at residue `x`.
pub open spec fn is_lift_mismatch(
    m: BgvBootstrapSameFieldDecodeLiftMismatch,
    c: Seq<u64>,
    x: int,
    f: int,
    s: int,
) -> bool {
    &&& m.raw_phase_residue == x
    &&& m.target_mod_source == decode_target_mod_source(c, x, f, s)
    &&& m.centered_lift_mod_source == decode_lift_mod_source(c, x, f, s)
    &&& m.correction_mod_source == (decode_target_mod_source(c, x, f, s) - decode_lift_mod_source(
        c,
        x,
        f,
        s,
    )) % s
}

proof fn lemma_mismatch_residues_bounded(c: Seq<u64>, f: int, s: int, n: int)
    ensures
        lift_mismatch_residues(c, f, s, n).len() <= if n < 0 { 0 } else { n },
        forall|j: int|
            0 <= j < lift_mismatch_residues(c, f, s, n).len() ==> 0
                <= #[trigger] lift_mismatch_residues(c, f, s, n)[j] < n,
    decreases n,
{
    if n > 0 {
        lemma_mismatch_residues_bounded(c, f, s, n - 1);
        let prev = lift_mismatch_residues(c, f, s, n - 1);
        let cur = lift_mismatch_residues(c, f, s, n);
        if cur != prev {
            assert(cur == prev.push(n - 1));
            assert forall|j: int| 0 <= j < cur.len() implies 0 <= #[trigger] cur[j] < n by {
                if j < prev.len() {
                    assert(cur[j] == prev[j]);
                }
            }
        }
    }
}

/// Audits the decode polynomial with coefficients `scalar_coefficients`
/// over `Z / f`: lists, in increasing order, every raw phase residue whose
/// centered lift modulo `s` differs from the target `D(x) mod s`.
pub fn audit_bgv_bootstrap_same_field_decode_lift(
    decode: &BgvBootstrapSameFieldDecodePolynomial,
) -> (r: BgvBootstrapSameFieldDecodeLiftAudit)
    requires
        decode.fusion_plain_modulus > 0,
        decode.source_plain_modulus > 0,
    ensures
        r.source_degree == decode.source_degree,
        r.fusion_plain_modulus == decode.fusion_plain_modulus,
        r.source_plain_modulus == decode.source_plain_modulus,
        r.mismatch_count == r.mismatches@.len(),
        ({
            let idx = lift_mismatch_residues(
                decode.scalar_coefficients@,
                decode.fusion_plain_modulus as int,
                decode.source_plain_modulus as int,
                decode.fusion_plain_modulus as int,
            );
            &&& r.mismatches@.len() == idx.len()
            &&& forall|j: int|
                0 <= j < idx.len() ==> is_lift_mismatch(
                    #[trigger] r.mismatches@[j],
                    decode.scalar_coefficients@,
                    idx[j],
                    decode.fusion_plain_modulus as int,
                    decode.source_plain_modulus as int,
                )
        }),
{
    let source_degree = decode.source_degree;
    let scalar_coefficients = &decode.scalar_coefficients;
    let f = decode.fusion_plain_modulus;
    let s = decode.source_plain_modulus;
    let ghost c = scalar_coefficients@;
    let mut mismatches: Vec<BgvBootstrapSameFieldDecodeLiftMismatch> = Vec::new();
    let mut x: u64 = 0;
    while x < f
        invariant
            f == decode.fusion_plain_modulus,
            s == decode.source_plain_modulus,
            f > 0,
            s > 0,
            c == scalar_coefficients@,
            x <= f,
            mismatches@.len() == lift_mismatch_residues(c, f as int, s as int, x as int).len(),
            forall|j: int|
                0 <= j < mismatches@.len() ==> is_lift_mismatch(
                    #[trigger] mismatches@[j],
                    c,
                    lift_mismatch_residues(c, f as int, s as int, x as int)[j],
                    f as int,
                    s as int,
                ),
        decreases f - x,
    {
        proof {
            lemma_mismatch_residues_bounded(c, f as int, s as int, x as int);
        }
        let target = evaluate_mod(scalar_coefficients, x % f, f) % s;
        let lift = evaluate_centered_lift_mod_source(scalar_coefficients, x, f, s);
        if target != lift {
            let correction = sub_mod(target, lift, s);
            mismatches.push(
                BgvBootstrapSameFieldDecodeLiftMismatch {
                    raw_phase_residue: x,
                    target_mod_source: target,
                    centered_lift_mod_source: lift,
                    correction_mod_source: correction,
                },
            );
            proof {
                assert(lift_mismatch_residues(c, f as int, s as int, x + 1) == lift_mismatch_residues(
                    c,
                    f as int,
                    s as int,
                    x as int,
                ).push(x as int));
            }
        }
        x += 1;
    }
    proof {
        lemma_mismatch_residues_bounded(c, f as int, s as int, f as int);
    }
    let mismatch_count = mismatches.len();
    BgvBootstrapSameFieldDecodeLiftAudit {
        source_degree,
        fusion_plain_modulus: f,
        source_plain_modulus: s,
        mismatch_count,
        mismatches,
    }
}

/// Interpolation nodes of the lift correction: at every residue `x < f`,
/// `((target − lift) mod s) mod f`.
pub open spec fn lift_correction_points(c: Seq<u64>, f: u64, s: u64) -> Seq<(u64, u64)> {
    Seq::new(
        f as nat,
        |x: int|
            (
                x as u64,
                (((decode_target_mod_source(c, x, f as int, s as int) - decode_lift_mod_source(
                    c,
                    x,
                    f as int,
                    s as int,
                )) % (s as int)) % (f as int)) as u64,
            ),
    )
}

/// Interpolates over `Z / f` the correction that turns the centered lift of
/// the decode polynomial into the target modulo `s` on every residue.  Fails
/// with the first Lagrange denominator that is not invertible modulo `f`.
pub fn bgv_bootstrap_same_field_decode_lift_correction_polynomial(
    decode: &BgvBootstrapSameFieldDecodePolynomial,
) -> (r: Result<BgvBootstrapSameFieldDecodeLiftCorrectionPolynomial, BgvLevelError>)
    requires
        decode.fusion_plain_modulus > 0,
        decode.source_plain_modulus > 0,
        decode.fusion_plain_modulus < usize::MAX,
    ensures
        r is Ok <==> interpolation_possible(
            lift_correction_points(
                decode.scalar_coefficients@,
                decode.fusion_plain_modulus,
                decode.source_plain_modulus,
            ),
            decode.fusion_plain_modulus as int,
        ),
        r is Ok ==> {
            let p = r->Ok_0;
            &&& p.source_degree == decode.source_degree
            &&& p.fusion_plain_modulus == decode.fusion_plain_modulus
            &&& p.source_plain_modulus == decode.source_plain_modulus
            &&& is_interpolant(
                p.scalar_coefficients@,
                lift_correction_points(
                    decode.scalar_coefficients@,
                    decode.fusion_plain_modulus,
                    decode.source_plain_modulus,
                ),
                decode.fusion_plain_modulus as int,
            )
        },
        r is Err ==> exists|i: int|
            0 <= i < decode.fusion_plain_modulus && !has_mod_inverse(
                lagrange_denominator(
                    lift_correction_points(
                        decode.scalar_coefficients@,
                        decode.fusion_plain_modulus,
                        decode.source_plain_modulus,
                    ),
                    i,
                    decode.fusion_plain_modulus as int,
                ),
                decode.fusion_plain_modulus as int,
            ) && r->Err_0 == denominator_error(
                lift_correction_points(
                    decode.scalar_coefficients@,
                    decode.fusion_plain_modulus,
                    decode.source_plain_modulus,
                ),
                i,
                decode.fusion_plain_modulus,
            ),
{
    let source_degree = decode.source_degree;
    let scalar_coefficients = &decode.scalar_coefficients;
    let f = decode.fusion_plain_modulus;
    let s = decode.source_plain_modulus;
    let ghost c = scalar_coefficients@;
    let mut points: Vec<(u64, u64)> = Vec::new();
    let mut x: u64 = 0;
    while x < f
        invariant
            f == decode.fusion_plain_modulus,
            s == decode.source_plain_modulus,
            f > 0,
            s > 0,
            c == scalar_coefficients@,
            x <= f,
            points@.len() == x,
            forall|j: int| 0 <= j < x ==> #[trigger] points@[j] == lift_correction_points(c, f, s)[j],
        decreases f - x,
    {
        let target = evaluate_mod(scalar_coefficients, x % f, f) % s;
        let lift = evaluate_centered_lift_mod_source(scalar_coefficients, x, f, s);
        let y = sub_mod(target, lift, s) % f;
        points.push((x, y));
        x += 1;
    }
    proof {
        assert(points@ =~= lift_correction_points(c, f, s));
    }
    match interpolate_lagrange_mod(&points, f) {
        Ok(scalar) => Ok(
            BgvBootstrapSameFieldDecodeLiftCorrectionPolynomial {
                source_degree,
                fusion_plain_modulus: f,
                source_plain_modulus: s,
                scalar_coefficients: scalar,
            },
        ),
        Err(e) => Err(e),
    }
}

impl BgvBootstrapSameFieldDecodeLiftCorrectionPolynomial {
    /// Value of the correction polynomial at `raw_phase_residue mod f`.
    pub fn evaluate_scalar(&self, raw_phase_residue: u64) -> (r: u64)
        requires
            self.fusion_plain_modulus > 0,
        ensures
            r == poly_value(
                self.scalar_coefficients@,
                (raw_phase_residue % self.fusion_plain_modulus) as int,
            ) % (self.fusion_plain_modulus as int),
    {
        let x = raw_phase_residue % self.fusion_plain_modulus;
        evaluate_mod(&self.scalar_coefficients, x, self.fusion_plain_modulus)
    }
}

/// Law: when the source modulus does not exceed the fused one, adding the
/// lift correction to the centered lift gives back the target modulo `s` on
/// every raw phase residue of `Z / f`.
pub proof fn lemma_decode_lift_correction_restores_target(
    decode_coefficients: Seq<u64>,
    correction: BgvBootstrapSameFieldDecodeLiftCorrectionPolynomial,
    x: int,
)
    requires
        0 < correction.source_plain_modulus <= correction.fusion_plain_modulus,
        0 <= x < correction.fusion_plain_modulus,
        is_interpolant(
            correction.scalar_coefficients@,
            lift_correction_points(
                decode_coefficients,
                correction.fusion_plain_modulus,
                correction.source_plain_modulus,
            ),
            correction.fusion_plain_modulus as int,
        ),
    ensures
        ({
            let f = correction.fusion_plain_modulus as int;
            let s = correction.source_plain_modulus as int;
            (decode_lift_mod_source(decode_coefficients, x, f, s) + poly_value(
                correction.scalar_coefficients@,
                x % f,
            ) % f) % s == decode_target_mod_source(decode_coefficients, x, f, s)
        }),
{
    let f = correction.fusion_plain_modulus as int;
    let s = correction.source_plain_modulus as int;
    let pts = lift_correction_points(
        decode_coefficients,
        correction.fusion_plain_modulus,
        correction.source_plain_modulus,
    );
    let target = decode_target_mod_source(decode_coefficients, x, f, s);
    let lift = decode_lift_mod_source(decode_coefficients, x, f, s);
    let d = (target - lift) % s;
    lemma_small_mod(x as nat, f as nat);
    lemma_mod_bound(target - lift, s);
    lemma_small_mod(d as nat, f as nat);
    assert(pts[x].0 as int == x);
    assert(pts[x].1 as int == d);
    assert(poly_value(correction.scalar_coefficients@, x) % f == d % f);
    lemma_mod_bound(poly_value(decode_coefficients, x % f) % f, s);
    lemma_mod_bound(centered_poly_value(decode_coefficients, centered(x % f, f), f), s);
    lemma_small_mod(target as nat, s as nat);
    lemma_small_mod(lift as nat, s as nat);
    lemma_add_mod_noop(lift, target - lift, s);
}

} // verus!
