//! Parameter plans of the BGV bootstrap: how a fused plaintext space relates
//! to the source one, which noise scale keeps the two compatible, how the
//! plaintext-modulus switch is corrected, and which pieces of the circuit
//! are in place.

use vstd::prelude::*;
use vstd::arithmetic::div_mod::{lemma_fundamental_div_mod, lemma_mod_multiples_basic, lemma_small_mod};
use vstd::arithmetic::mul::lemma_mul_is_commutative;

use crate::modarith::{has_mod_inverse, is_mod_inverse, mod_inverse, mul_mod, sub_mod};
use crate::schemes::bgv::ciphertext::BgvPlaintextFactor;
use crate::schemes::bgv::params::BgvLevelError;
use crate::wide::{int_abs, WideInt};

verus! {

// ---------------------------------------------------------------------------
// Greatest common divisor
// ---------------------------------------------------------------------------

/// Euclid's greatest common divisor.
pub open spec fn gcd_spec(a: nat, b: nat) -> nat
    decreases b,
{
    if b == 0 {
        a
    } else {
        gcd_spec(b, a % b)
    }
}

proof fn lemma_divides_mod(d: int, a: int, b: int)
    requires
        d > 0,
        b > 0,
        b % d == 0,
        (a % b) % d == 0,
    ensures
        a % d == 0,
{
    lemma_fundamental_div_mod(a, b);
    lemma_fundamental_div_mod(b, d);
    lemma_fundamental_div_mod(a % b, d);
    let q = a / b;
    let kb = b / d;
    let kr = (a % b) / d;
    assert(a == d * (kb * q + kr)) by (nonlinear_arith)
        requires
            a == b * q + a % b,
            b == d * kb + 0,
            a % b == d * kr + 0,
    ;
    lemma_mul_is_commutative(d, kb * q + kr);
    lemma_mod_multiples_basic(kb * q + kr, d);
}

proof fn lemma_gcd_divides(a: nat, b: nat)
    requires
        a > 0 || b > 0,
    ensures
        gcd_spec(a, b) > 0,
        (a as int) % (gcd_spec(a, b) as int) == 0,
        (b as int) % (gcd_spec(a, b) as int) == 0,
    decreases b,
{
    if b == 0 {
        vstd::arithmetic::div_mod::lemma_mod_self_0(a as int);
        lemma_small_mod(0, a);
    } else {
        lemma_gcd_divides(b, a % b);
        lemma_divides_mod(gcd_spec(a, b) as int, a as int, b as int);
    }
}

/// Greatest common divisor by Euclid's algorithm.
pub fn gcd(a: u64, b: u64) -> (r: u64)
    ensures
        r == gcd_spec(a as nat, b as nat),
{
    let mut x = a;
    let mut y = b;
    while y != 0
        invariant
            gcd_spec(x as nat, y as nat) == gcd_spec(a as nat, b as nat),
        decreases y,
    {
        let r = x % y;
        x = y;
        y = r;
    }
    x
}

// ---------------------------------------------------------------------------
// Source-compatible noise scale
// ---------------------------------------------------------------------------

/// Noise scale `lcm(s, f)` under which a fused ciphertext over `Z / f` also
/// reads correctly modulo the source modulus `s`.
#[derive(Clone, Debug, PartialEq, Eq)]
pub struct BgvBootstrapSourceCompatibleFusionNoiseScalePlan {
    pub source_degree: usize,
    pub source_plain_modulus: u64,
    pub fusion_plain_modulus: u64,
    pub error_scalar: u64,
    pub uses_default_fusion_error_scalar: bool,
    pub bridges_without_noise_correction: bool,
}

/// `(f / gcd(s, f)) · s`, the least common multiple of `s` and `f`.
pub open spec fn fusion_error_scalar(s: u64, f: u64) -> int {
    ((f as int) / (gcd_spec(s as nat, f as nat) as int)) * (s as int)
}

/// Plans the error scalar of a fused key so that fused noise vanishes
/// modulo both plaintext moduli: `lcm(s, f)`, or an overflow error when it
/// exceeds `u64`.
pub fn bgv_bootstrap_source_compatible_fusion_noise_scale_plan(
    source_degree: usize,
    source_plain_modulus: u64,
    fusion_degree: usize,
    fusion_plain_modulus: u64,
) -> (r: Result<BgvBootstrapSourceCompatibleFusionNoiseScalePlan, BgvLevelError>)
    requires
        source_plain_modulus > 0,
        fusion_plain_modulus > 0,
    ensures
        source_degree != fusion_degree ==> r == Err::<
            BgvBootstrapSourceCompatibleFusionNoiseScalePlan,
            BgvLevelError,
        >(BgvLevelError::CiphertextDegreeMismatch { expected: source_degree, actual: fusion_degree }),
        source_degree == fusion_degree && fusion_error_scalar(
            source_plain_modulus,
            fusion_plain_modulus,
        ) > u64::MAX ==> r == Err::<BgvBootstrapSourceCompatibleFusionNoiseScalePlan, BgvLevelError>(
            BgvLevelError::BootstrapFusionNoiseScaleOverflow {
                fusion_modulus: fusion_plain_modulus,
                source_modulus: source_plain_modulus,
            },
        ),
        source_degree == fusion_degree && fusion_error_scalar(
            source_plain_modulus,
            fusion_plain_modulus,
        ) <= u64::MAX ==> r is Ok && ({
            let p = r->Ok_0;
            let e = fusion_error_scalar(source_plain_modulus, fusion_plain_modulus);
            &&& p.source_degree == source_degree
            &&& p.source_plain_modulus == source_plain_modulus
            &&& p.fusion_plain_modulus == fusion_plain_modulus
            &&& p.error_scalar == e
            &&& p.uses_default_fusion_error_scalar == (e == fusion_plain_modulus)
            &&& p.bridges_without_noise_correction == (e % (source_plain_modulus as int) == 0 && e
                % (fusion_plain_modulus as int) == 0)
        }),
{
    if source_degree != fusion_degree {
        return Err(
            BgvLevelError::CiphertextDegreeMismatch { expected: source_degree, actual: fusion_degree },
        );
    }
    let s = source_plain_modulus;
    let f = fusion_plain_modulus;
    let g = gcd(s, f);
    proof {
        lemma_gcd_divides(s as nat, f as nat);
    }
    let reduced_fusion = f / g;
    let error_scalar = match reduced_fusion.checked_mul(s) {
        Some(v) => v,
        None => {
            return Err(
                BgvLevelError::BootstrapFusionNoiseScaleOverflow { fusion_modulus: f, source_modulus: s },
            );
        },
    };
    let bridges_without_noise_correction = error_scalar % s == 0 && error_scalar % f == 0;
    Ok(
        BgvBootstrapSourceCompatibleFusionNoiseScalePlan {
            source_degree,
            source_plain_modulus: s,
            fusion_plain_modulus: f,
            error_scalar,
            uses_default_fusion_error_scalar: error_scalar == f,
            bridges_without_noise_correction,
        },
    )
}

/// Law: the planned noise scale always bridges without a noise correction:
/// `lcm(s, f)` is a multiple of both plaintext moduli.
pub proof fn lemma_noise_scale_bridges_without_correction(s: u64, f: u64)
    requires
        s > 0,
        f > 0,
    ensures
        fusion_error_scalar(s, f) % (s as int) == 0,
        fusion_error_scalar(s, f) % (f as int) == 0,
{
    let g = gcd_spec(s as nat, f as nat) as int;
    lemma_gcd_divides(s as nat, f as nat);
    lemma_fundamental_div_mod(s as int, g);
    lemma_fundamental_div_mod(f as int, g);
    let ks = (s as int) / g;
    let kf = (f as int) / g;
    let e = fusion_error_scalar(s, f);
    assert(e == kf * (s as int));
    lemma_mod_multiples_basic(kf, s as int);
    assert(e == (f as int) * ks) by (nonlinear_arith)
        requires
            e == kf * (s as int),
            s as int == g * ks + 0,
            f as int == g * kf + 0,
    ;
    lemma_mul_is_commutative(f as int, ks);
    lemma_mod_multiples_basic(ks, f as int);
}

// ---------------------------------------------------------------------------
// Fusion-to-source bridge
// ---------------------------------------------------------------------------

/// Whether a fused ciphertext can be reinterpreted in the source plaintext
/// space, and whether that needs a noise correction.
#[derive(Clone, Debug, PartialEq, Eq)]
pub struct BgvBootstrapFusionToSourceBridgePlan {
    pub source_degree: usize,
    pub fusion_plain_modulus: u64,
    pub source_plain_modulus: u64,
    pub same_ciphertext_modulus_chain: bool,
    pub plaintext_noise_vanishes_mod_source: bool,
    pub plaintext_factor_compatible: bool,
    pub can_reinterpret_without_noise_correction: bool,
    pub requires_noise_correction: bool,
}

fn same_modulus_chain(left: &Vec<u64>, right: &Vec<u64>) -> (r: bool)
    ensures
        r == (left@ == right@),
{
    if left.len() != right.len() {
        return false;
    }
    let mut i: usize = 0;
    while i < left.len()
        invariant
            left@.len() == right@.len(),
            i <= left@.len(),
            forall|k: int| 0 <= k < i ==> left@[k] == right@[k],
        decreases left@.len() - i,
    {
        if left[i] != right[i] {
            return false;
        }
        i += 1;
    }
    proof {
        assert(left@ =~= right@);
    }
    true
}

/// Plans the reinterpretation of a fused ciphertext (degree, plaintext
/// modulus `f`, plaintext factor, ciphertext modulus chain) in the source
/// parameters (degree, plaintext modulus `s`, chain).
pub fn bgv_bootstrap_fusion_to_source_plaintext_bridge_plan(
    fusion_degree: usize,
    fusion_plain_modulus: u64,
    fusion_factor: BgvPlaintextFactor,
    fusion_ciphertext_moduli: &Vec<u64>,
    source_degree: usize,
    source_plain_modulus: u64,
    source_ciphertext_moduli: &Vec<u64>,
) -> (r: Result<BgvBootstrapFusionToSourceBridgePlan, BgvLevelError>)
    requires
        source_plain_modulus > 0,
    ensures
        fusion_degree != source_degree ==> r == Err::<
            BgvBootstrapFusionToSourceBridgePlan,
            BgvLevelError,
        >(BgvLevelError::CiphertextDegreeMismatch { expected: fusion_degree, actual: source_degree }),
        fusion_degree == source_degree ==> r is Ok && ({
            let p = r->Ok_0;
            let chain = fusion_ciphertext_moduli@ == source_ciphertext_moduli@;
            let vanishes = fusion_plain_modulus % source_plain_modulus == 0;
            let compatible = has_mod_inverse(
                (fusion_factor@ % source_plain_modulus) as int,
                source_plain_modulus as int,
            );
            &&& p.source_degree == source_degree
            &&& p.fusion_plain_modulus == fusion_plain_modulus
            &&& p.source_plain_modulus == source_plain_modulus
            &&& p.same_ciphertext_modulus_chain == chain
            &&& p.plaintext_noise_vanishes_mod_source == vanishes
            &&& p.plaintext_factor_compatible == compatible
            &&& p.can_reinterpret_without_noise_correction == (chain && vanishes && compatible)
            &&& p.requires_noise_correction == (chain && compatible && !vanishes)
        }),
{
    if fusion_degree != source_degree {
        return Err(
            BgvLevelError::CiphertextDegreeMismatch { expected: fusion_degree, actual: source_degree },
        );
    }
    let f = fusion_plain_modulus;
    let s = source_plain_modulus;
    let same_ciphertext_modulus_chain = same_modulus_chain(
        fusion_ciphertext_moduli,
        source_ciphertext_moduli,
    );
    let plaintext_noise_vanishes_mod_source = f % s == 0;
    let plaintext_factor_compatible = mod_inverse(fusion_factor.value() % s, s).is_some();
    let can_reinterpret_without_noise_correction = same_ciphertext_modulus_chain
        && plaintext_noise_vanishes_mod_source && plaintext_factor_compatible;
    let requires_noise_correction = same_ciphertext_modulus_chain && plaintext_factor_compatible
        && !plaintext_noise_vanishes_mod_source;
    Ok(
        BgvBootstrapFusionToSourceBridgePlan {
            source_degree,
            fusion_plain_modulus: f,
            source_plain_modulus: s,
            same_ciphertext_modulus_chain,
            plaintext_noise_vanishes_mod_source,
            plaintext_factor_compatible,
            can_reinterpret_without_noise_correction,
            requires_noise_correction,
        },
    )
}

// ---------------------------------------------------------------------------
// Fused plaintext modulus
// ---------------------------------------------------------------------------

/// Largest plaintext modulus a fused lookup table may use.
pub const MAX_FUSION_LOOKUP_POINTS: u64 = 4096;

/// The plaintext modulus chosen for the fused lookup space.
#[derive(Clone, Debug, PartialEq, Eq)]
pub struct BgvBootstrapFusionPlaintextModulusPlan {
    pub source_degree: usize,
    pub source_plain_modulus: u64,
    pub required_lookup_points: u64,
    pub selected_fusion_plain_modulus: u64,
    pub uses_source_plaintext_modulus: bool,
    pub plaintext_noise_vanishes_mod_source: bool,
    pub requires_small_plaintext_correction: bool,
}

/// `min(a + b, u64::MAX)`.
pub open spec fn sat_add_u64(a: u64, b: u64) -> u64 {
    if a + b > u64::MAX {
        u64::MAX
    } else {
        (a + b) as u64
    }
}

/// Where the search for an NTT-friendly fused prime starts:
/// `max(s, required + 1, step + 1)`, saturating.
pub open spec fn fusion_prime_search_start(s: u64, required: u64, step: u64) -> u64 {
    let a = if s >= sat_add_u64(required, 1) {
        s
    } else {
        sat_add_u64(required, 1)
    };
    if a >= sat_add_u64(step, 1) {
        a
    } else {
        sat_add_u64(step, 1)
    }
}

/// The first point at which a fused prime is searched, for a source
/// plaintext modulus `s`, `required` lookup points and prime step
/// `2 · degree`.
pub fn bgv_bootstrap_fusion_prime_search_start(source_plain_modulus: u64, required_lookup_points: u64, step: u64) -> (r: u64)
    ensures
        r == fusion_prime_search_start(source_plain_modulus, required_lookup_points, step),
{
    let a = required_lookup_points.saturating_add(1);
    let b = step.saturating_add(1);
    let m = if source_plain_modulus >= a {
        source_plain_modulus
    } else {
        a
    };
    if m >= b {
        m
    } else {
        b
    }
}

/// Selects the fused plaintext modulus for a phase bound `|phase| ≤ |B|`:
/// `2B + 1` lookup points are needed, the source modulus `s` is kept when it
/// already exceeds them, and otherwise the fused prime is `ntt_prime`, the
/// result of the NTT-friendly prime search from
/// `bgv_bootstrap_fusion_prime_search_start(s, 2B + 1, 2 · degree)` with step
/// `2 · degree` (`None` when the search found no prime).
pub fn bgv_bootstrap_fusion_plaintext_modulus_plan(
    source_degree: usize,
    source_plain_modulus: u64,
    phase_bound: &WideInt,
    ntt_prime: Option<u64>,
) -> (r: Result<BgvBootstrapFusionPlaintextModulusPlan, BgvLevelError>)
    requires
        source_plain_modulus > 0,
    ensures
        ({
            let required = 2 * int_abs(phase_bound@) + 1;
            let s = source_plain_modulus;
            let step = 2 * (source_degree as int);
            &&& required > u64::MAX ==> r == Err::<
                BgvBootstrapFusionPlaintextModulusPlan,
                BgvLevelError,
            >(
                BgvLevelError::BootstrapClassifierLookupTooLarge {
                    modulus: u64::MAX,
                    max_points: MAX_FUSION_LOOKUP_POINTS,
                },
            )
            &&& required <= u64::MAX && required >= MAX_FUSION_LOOKUP_POINTS ==> r == Err::<
                BgvBootstrapFusionPlaintextModulusPlan,
                BgvLevelError,
            >(
                BgvLevelError::BootstrapClassifierLookupTooLarge {
                    modulus: required as u64,
                    max_points: MAX_FUSION_LOOKUP_POINTS,
                },
            )
            &&& required < MAX_FUSION_LOOKUP_POINTS && step > u64::MAX ==> r == Err::<
                BgvBootstrapFusionPlaintextModulusPlan,
                BgvLevelError,
            >(BgvLevelError::BootstrapCrtPrimeSearchFailed { bits: 0, step: u64::MAX })
            &&& required < MAX_FUSION_LOOKUP_POINTS && step <= u64::MAX && s <= required
                && ntt_prime is None ==> r == Err::<
                BgvBootstrapFusionPlaintextModulusPlan,
                BgvLevelError,
            >(BgvLevelError::BootstrapCrtPrimeSearchFailed { bits: 0, step: step as u64 })
            &&& required < MAX_FUSION_LOOKUP_POINTS && step <= u64::MAX && (s > required
                || ntt_prime is Some) ==> {
                let selected = if s > required {
                    s
                } else {
                    ntt_prime->Some_0
                };
                &&& selected > MAX_FUSION_LOOKUP_POINTS ==> r == Err::<
                    BgvBootstrapFusionPlaintextModulusPlan,
                    BgvLevelError,
                >(
                    BgvLevelError::BootstrapClassifierLookupTooLarge {
                        modulus: selected,
                        max_points: MAX_FUSION_LOOKUP_POINTS,
                    },
                )
                &&& selected <= MAX_FUSION_LOOKUP_POINTS ==> r is Ok && ({
                    let p = r->Ok_0;
                    &&& p.source_degree == source_degree
                    &&& p.source_plain_modulus == s
                    &&& p.required_lookup_points == required
                    &&& p.selected_fusion_plain_modulus == selected
                    &&& p.uses_source_plaintext_modulus == (selected == s)
                    &&& p.plaintext_noise_vanishes_mod_source == (selected % s == 0)
                    &&& p.requires_small_plaintext_correction == (selected % s != 0)
                })
            }
        }),
{
    let required_wide = phase_bound.abs().times(&WideInt::from_u64(2)).plus(&WideInt::from_u64(1));
    let required_lookup_points = match required_wide.to_u64() {
        Some(v) => v,
        None => {
            return Err(
                BgvLevelError::BootstrapClassifierLookupTooLarge {
                    modulus: u64::MAX,
                    max_points: MAX_FUSION_LOOKUP_POINTS,
                },
            );
        },
    };
    if required_lookup_points >= MAX_FUSION_LOOKUP_POINTS {
        return Err(
            BgvLevelError::BootstrapClassifierLookupTooLarge {
                modulus: required_lookup_points,
                max_points: MAX_FUSION_LOOKUP_POINTS,
            },
        );
    }
    let s = source_plain_modulus;
    let degree = source_degree as u64;
    let step = match degree.checked_mul(2) {
        Some(v) => v,
        None => {
            return Err(BgvLevelError::BootstrapCrtPrimeSearchFailed { bits: 0, step: u64::MAX });
        },
    };
    let selected_fusion_plain_modulus = if s > required_lookup_points {
        s
    } else {
        match ntt_prime {
            Some(p) => p,
            None => {
                return Err(BgvLevelError::BootstrapCrtPrimeSearchFailed { bits: 0, step });
            },
        }
    };
    if selected_fusion_plain_modulus > MAX_FUSION_LOOKUP_POINTS {
        return Err(
            BgvLevelError::BootstrapClassifierLookupTooLarge {
                modulus: selected_fusion_plain_modulus,
                max_points: MAX_FUSION_LOOKUP_POINTS,
            },
        );
    }
    let uses_source_plaintext_modulus = selected_fusion_plain_modulus == s;
    let plaintext_noise_vanishes_mod_source = selected_fusion_plain_modulus % s == 0;
    Ok(
        BgvBootstrapFusionPlaintextModulusPlan {
            source_degree,
            source_plain_modulus: s,
            required_lookup_points,
            selected_fusion_plain_modulus,
            uses_source_plaintext_modulus,
            plaintext_noise_vanishes_mod_source,
            requires_small_plaintext_correction: !plaintext_noise_vanishes_mod_source,
        },
    )
}

// ---------------------------------------------------------------------------
// Plaintext-modulus-switch correction audit
// ---------------------------------------------------------------------------

/// Per-coefficient view of a plaintext-modulus switch from `s` to `u`: the
/// source plaintext reduced modulo `u`, the raw phase read directly modulo
/// `u`, and the correction between them.
#[derive(Clone, Debug, PartialEq, Eq)]
pub struct BgvBootstrapPlaintextModulusSwitchCorrectionAudit {
    pub source_degree: usize,
    pub source_plain_modulus: u64,
    pub target_plain_modulus: u64,
    pub source_factor_inverse: u64,
    pub source_plaintext_coefficients: Vec<u64>,
    pub direct_target_coefficients: Vec<u64>,
    pub correction_coefficients: Vec<u64>,
    pub nonzero_correction_count: usize,
}

/// Number of non-zero entries among the first `n` of `v`.
pub open spec fn count_nonzero(v: Seq<u64>, n: int) -> int
    decreases n,
{
    if n <= 0 {
        0
    } else {
        count_nonzero(v, n - 1) + if v[n - 1] != 0 {
            1int
        } else {
            0int
        }
    }
}

/// The count of non-zero entries is at most `n`; it is zero exactly when
/// the first `n` entries are all zero, and `n` exactly when none is.
pub proof fn lemma_count_nonzero_extremes(v: Seq<u64>, n: int)
    requires
        0 <= n <= v.len(),
    ensures
        0 <= count_nonzero(v, n) <= n,
        count_nonzero(v, n) == 0 <==> forall|i: int| 0 <= i < n ==> #[trigger] v[i] == 0,
        count_nonzero(v, n) == n <==> forall|i: int| 0 <= i < n ==> #[trigger] v[i] != 0,
    decreases n,
{
    if n > 0 {
        lemma_count_nonzero_extremes(v, n - 1);
    }
}

proof fn lemma_count_nonzero_bounded(v: Seq<u64>, n: int)
    ensures
        0 <= count_nonzero(v, n) <= if n < 0 { 0 } else { n },
    decreases n,
{
    if n > 0 {
        lemma_count_nonzero_bounded(v, n - 1);
    }
}

/// What `audit_bgv_bootstrap_plaintext_modulus_switch_correction_from_phase_residues` returns, stated over its inputs.
pub open spec fn modulus_switch_audit_outcome(
    r: Result<BgvBootstrapPlaintextModulusSwitchCorrectionAudit, BgvLevelError>,
    source_degree: usize,
    source_plain_modulus: u64,
    source_factor: BgvPlaintextFactor,
    target_degree: usize,
    target_plain_modulus: u64,
    crt_degree: usize,
    phase_residues: Result<Seq<(u64, u64)>, BgvLevelError>,
) -> bool {
    &&& (source_degree != target_degree ==> r == Err::<
        BgvBootstrapPlaintextModulusSwitchCorrectionAudit,
        BgvLevelError,
    >(BgvLevelError::CiphertextDegreeMismatch { expected: source_degree, actual: target_degree }))
    &&& (source_degree == target_degree && source_degree != crt_degree ==> r == Err::<
        BgvBootstrapPlaintextModulusSwitchCorrectionAudit,
        BgvLevelError,
    >(BgvLevelError::CiphertextDegreeMismatch { expected: source_degree, actual: crt_degree }))
    &&& (source_degree == target_degree && source_degree == crt_degree && phase_residues is Err
        ==> r == Err::<BgvBootstrapPlaintextModulusSwitchCorrectionAudit, BgvLevelError>(
        phase_residues->Err_0,
    ))
    &&& (source_degree == target_degree && source_degree == crt_degree && phase_residues is Ok
        && !has_mod_inverse(source_factor@ as int, source_plain_modulus as int) ==> r == Err::<
        BgvBootstrapPlaintextModulusSwitchCorrectionAudit,
        BgvLevelError,
    >(
        BgvLevelError::PlaintextFactorNotInvertible {
            factor: source_factor@,
            modulus: source_plain_modulus,
        },
    ))
    &&& (source_degree == target_degree && source_degree == crt_degree && phase_residues is Ok
        && has_mod_inverse(source_factor@ as int, source_plain_modulus as int) ==> r is Ok)
    &&& (r is Ok ==> ({
        let a = r->Ok_0;
        let ph = phase_residues->Ok_0;
        let s = source_plain_modulus as int;
        let u = target_plain_modulus as int;
        &&& a.source_degree == source_degree
        &&& a.source_plain_modulus == source_plain_modulus
        &&& a.target_plain_modulus == target_plain_modulus
        &&& is_mod_inverse(source_factor@ as int, a.source_factor_inverse as int, s)
        &&& a.source_plaintext_coefficients@.len() == ph.len()
        &&& a.direct_target_coefficients@.len() == ph.len()
        &&& a.correction_coefficients@.len() == ph.len()
        &&& forall|k: int|
            0 <= k < ph.len() ==> {
                &&& #[trigger] a.source_plaintext_coefficients@[k] == (((ph[k].0 as int) * (
                a.source_factor_inverse as int)) % s) % u
                &&& a.direct_target_coefficients@[k] == ph[k].1
                &&& a.correction_coefficients@[k] == ((a.source_plaintext_coefficients@[k]
                    as int) % u - (ph[k].1 as int) % u) % u
            }
        &&& a.nonzero_correction_count == count_nonzero(
            a.correction_coefficients@,
            ph.len() as int,
        )
    }))
}

/// Audits the plaintext-modulus switch of a ciphertext from plaintext
/// modulus `s` to `u`.  `phase_residues` is the CRT reconstruction of the
/// raw phase, per coefficient its centered source phase modulo `s` and its
/// raw value modulo `u` (or the reconstruction error).
#[verifier::spinoff_prover]
#[verifier::rlimit(30)]
pub fn audit_bgv_bootstrap_plaintext_modulus_switch_correction_from_phase_residues(
    source_degree: usize,
    source_plain_modulus: u64,
    source_factor: BgvPlaintextFactor,
    target_degree: usize,
    target_plain_modulus: u64,
    crt_degree: usize,
    phase_residues: &Result<Vec<(u64, u64)>, BgvLevelError>,
) -> (r: Result<BgvBootstrapPlaintextModulusSwitchCorrectionAudit, BgvLevelError>)
    requires
        source_plain_modulus > 0,
        target_plain_modulus > 0,
    ensures
        modulus_switch_audit_outcome(
            r,
            source_degree,
            source_plain_modulus,
            source_factor,
            target_degree,
            target_plain_modulus,
            crt_degree,
            match phase_residues {
                Ok(v) => Ok::<Seq<(u64, u64)>, BgvLevelError>(v@),
                Err(e) => Err::<Seq<(u64, u64)>, BgvLevelError>(*e),
            },
        ),
{
    if source_degree != target_degree {
        return Err(
            BgvLevelError::CiphertextDegreeMismatch { expected: source_degree, actual: target_degree },
        );
    }
    if source_degree != crt_degree {
        return Err(
            BgvLevelError::CiphertextDegreeMismatch { expected: source_degree, actual: crt_degree },
        );
    }
    let phases = match phase_residues {
        Ok(p) => p,
        Err(e) => {
            return Err(*e);
        },
    };
    let s = source_plain_modulus;
    let u = target_plain_modulus;
    let source_factor_inverse = match source_factor.inverse_mod(s) {
        Ok(x) => x,
        Err(e) => {
            return Err(e);
        },
    };
    let n = phases.len();
    let mut source_plaintext_coefficients: Vec<u64> = Vec::new();
    let mut direct_target_coefficients: Vec<u64> = Vec::new();
    let mut correction_coefficients: Vec<u64> = Vec::new();
    let mut nonzero: usize = 0;
    let mut k: usize = 0;
    while k < n
        invariant
            s == source_plain_modulus,
            u == target_plain_modulus,
            s > 0,
            u > 0,
            n == phases@.len(),
            k <= n,
            source_plaintext_coefficients@.len() == k,
            direct_target_coefficients@.len() == k,
            correction_coefficients@.len() == k,
            nonzero == count_nonzero(correction_coefficients@, k as int),
            forall|j: int|
                0 <= j < k ==> {
                    &&& #[trigger] source_plaintext_coefficients@[j] == (((phases@[j].0 as int) * (
                    source_factor_inverse as int)) % (s as int)) % (u as int)
                    &&& direct_target_coefficients@[j] == phases@[j].1
                    &&& correction_coefficients@[j] == ((source_plaintext_coefficients@[j] as int)
                        % (u as int) - (phases@[j].1 as int) % (u as int)) % (u as int)
                },
        decreases n - k,
    {
        let (phase_mod_source, raw_mod_target) = phases[k];
        let sp = mul_mod(phase_mod_source, source_factor_inverse, s) % u;
        let correction = sub_mod(sp % u, raw_mod_target % u, u);
        proof {
            vstd::arithmetic::div_mod::lemma_sub_mod_noop(sp as int, raw_mod_target as int, u as int);
            lemma_count_nonzero_bounded(correction_coefficients@, k as int);
        }
        let ghost old_corr = correction_coefficients@;
        source_plaintext_coefficients.push(sp);
        direct_target_coefficients.push(raw_mod_target);
        correction_coefficients.push(correction);
        proof {
            assert(correction_coefficients@.drop_last() =~= old_corr);
            lemma_count_nonzero_prefix(correction_coefficients@, k as int);
            assert(count_nonzero(correction_coefficients@, k + 1) == count_nonzero(old_corr, k as int)
                + if correction != 0 {
                1int
            } else {
                0int
            });
        }
        if correction != 0 {
            nonzero = nonzero + 1;
        }
        k += 1;
    }
    Ok(
        BgvBootstrapPlaintextModulusSwitchCorrectionAudit {
            source_degree,
            source_plain_modulus: s,
            target_plain_modulus: u,
            source_factor_inverse,
            source_plaintext_coefficients,
            direct_target_coefficients,
            correction_coefficients,
            nonzero_correction_count: nonzero,
        },
    )
}

proof fn lemma_count_nonzero_prefix(v: Seq<u64>, n: int)
    requires
        0 <= n <= v.len(),
        v.len() > 0,
        n < v.len(),
    ensures
        count_nonzero(v, n) == count_nonzero(v.drop_last(), n),
    decreases n,
{
    if n > 0 {
        lemma_count_nonzero_prefix(v, n - 1);
    }
}

// ---------------------------------------------------------------------------
// Circuit readiness
// ---------------------------------------------------------------------------

/// A piece of the bootstrapping circuit that is not in place yet.
#[derive(Clone, Copy, Debug, PartialEq, Eq, Structural)]
pub enum BgvBootstrapCircuitGap {
    HomomorphicFusionToSourcePlaintextBridge,
}

/// Which building blocks of BGV bootstrapping are available for a given
/// ciphertext, recryption key and CRT plan.
#[derive(Clone, Debug, PartialEq, Eq)]
pub struct BgvBootstrapCircuitReadiness {
    pub source_degree: usize,
    pub source_q_limbs: usize,
    pub target_q_limbs: usize,
    pub phase_bound_bits: u64,
    pub crt_modulus_product_bits: u64,
    pub auxiliary_plain_moduli: Vec<u64>,
    pub max_abs_wrap_count: u64,
    pub raw_phase_affine_input_layer: bool,
    pub encrypted_phase_mod_plaintext: bool,
    pub encrypted_crt_phase_residues: bool,
    pub crt_wrap_reconstruction_plan: bool,
    pub extracted_crt_residue_repack: bool,
    pub encrypted_coefficient_carry_correction: bool,
    pub corrected_recryption: bool,
    pub homomorphic_single_modulus_residue_classification: bool,
    pub homomorphic_same_field_crt_residue_bridge: bool,
    pub homomorphic_same_field_crt_residue_fusion: bool,
    pub homomorphic_same_field_plaintext_modulus_switch_correction: bool,
    pub homomorphic_same_field_plaintext_modulus_switch: bool,
    pub homomorphic_same_field_phase_decode: bool,
    pub homomorphic_same_field_fusion_refresh: bool,
    pub fusion_plaintext_modulus_planner: bool,
    pub source_compatible_fusion_noise_scaling: bool,
    pub same_field_decode_lift_correction: bool,
    pub homomorphic_same_field_decode_lift_correction: bool,
    pub fusion_to_source_plaintext_bridge_plan: bool,
    pub fusion_to_source_plaintext_noise_correction_skeleton: bool,
    pub fusion_to_source_plaintext_lift_patch: bool,
    pub fusion_to_source_encrypted_lift_patch: bool,
    pub fusion_to_source_encrypted_noise_correction_bridge: bool,
    pub fusion_to_source_recryption_with_encrypted_correction: bool,
    pub fusion_to_source_extracted_crt_plaintext_modulus_switch: bool,
    pub homomorphic_fusion_to_source_plaintext_bridge: bool,
    pub encrypted_coefficient_wrap_repacking: bool,
    pub full_bootstrapping_circuit: bool,
    pub gaps: Vec<BgvBootstrapCircuitGap>,
}

/// Outcome of checking a ciphertext against a recryption key: the ciphertext
/// must have two components, and its degree and plaintext modulus must match
/// both the key's source parameters and the parameters the key is encrypted
/// under.
pub open spec fn recryption_input_check(
    ct_components: usize,
    ct_degree: usize,
    ct_plain_modulus: u64,
    key_source_degree: usize,
    key_source_plain_modulus: u64,
    key_degree: usize,
    key_plain_modulus: u64,
) -> Result<(), BgvLevelError> {
    if ct_components != 2 {
        Err(BgvLevelError::RecryptionCiphertextSize { actual: ct_components })
    } else if ct_degree != key_source_degree {
        Err(BgvLevelError::CiphertextDegreeMismatch { expected: key_source_degree, actual: ct_degree })
    } else if ct_plain_modulus != key_source_plain_modulus {
        Err(
            BgvLevelError::CiphertextPlaintextModulusMismatch {
                expected: key_source_plain_modulus,
                actual: ct_plain_modulus,
            },
        )
    } else if ct_degree != key_degree {
        Err(BgvLevelError::CiphertextDegreeMismatch { expected: ct_degree, actual: key_degree })
    } else if ct_plain_modulus != key_plain_modulus {
        Err(
            BgvLevelError::CiphertextPlaintextModulusMismatch {
                expected: ct_plain_modulus,
                actual: key_plain_modulus,
            },
        )
    } else {
        Ok(())
    }
}

fn validate_recryption_input(
    ct_components: usize,
    ct_degree: usize,
    ct_plain_modulus: u64,
    key_source_degree: usize,
    key_source_plain_modulus: u64,
    key_degree: usize,
    key_plain_modulus: u64,
) -> (r: Result<(), BgvLevelError>)
    ensures
        r == recryption_input_check(
            ct_components,
            ct_degree,
            ct_plain_modulus,
            key_source_degree,
            key_source_plain_modulus,
            key_degree,
            key_plain_modulus,
        ),
{
    if ct_components != 2 {
        return Err(BgvLevelError::RecryptionCiphertextSize { actual: ct_components });
    }
    if ct_degree != key_source_degree {
        return Err(
            BgvLevelError::CiphertextDegreeMismatch { expected: key_source_degree, actual: ct_degree },
        );
    }
    if ct_plain_modulus != key_source_plain_modulus {
        return Err(
            BgvLevelError::CiphertextPlaintextModulusMismatch {
                expected: key_source_plain_modulus,
                actual: ct_plain_modulus,
            },
        );
    }
    if ct_degree != key_degree {
        return Err(BgvLevelError::CiphertextDegreeMismatch { expected: ct_degree, actual: key_degree });
    }
    if ct_plain_modulus != key_plain_modulus {
        return Err(
            BgvLevelError::CiphertextPlaintextModulusMismatch {
                expected: ct_plain_modulus,
                actual: key_plain_modulus,
            },
        );
    }
    Ok(())
}

/// Checks a ciphertext against a phase-residue recryption key: two
/// components, the key's source degree and plaintext modulus, and a key
/// encrypted under parameters of that degree; reports the first mismatch.
pub fn validate_phase_residue_recryption_input(
    ct_components: usize,
    ct_degree: usize,
    ct_plain_modulus: u64,
    key_source_degree: usize,
    key_source_plain_modulus: u64,
    key_degree: usize,
) -> (r: Result<(), BgvLevelError>)
    ensures
        ct_components != 2 ==> r == Err::<(), BgvLevelError>(
            BgvLevelError::RecryptionCiphertextSize { actual: ct_components },
        ),
        ct_components == 2 && ct_degree != key_source_degree ==> r == Err::<(), BgvLevelError>(
            BgvLevelError::CiphertextDegreeMismatch { expected: key_source_degree, actual: ct_degree },
        ),
        ct_components == 2 && ct_degree == key_source_degree && ct_plain_modulus
            != key_source_plain_modulus ==> r == Err::<(), BgvLevelError>(
            BgvLevelError::CiphertextPlaintextModulusMismatch {
                expected: key_source_plain_modulus,
                actual: ct_plain_modulus,
            },
        ),
        ct_components == 2 && ct_degree == key_source_degree && ct_plain_modulus
            == key_source_plain_modulus && key_degree != key_source_degree ==> r == Err::<
            (),
            BgvLevelError,
        >(BgvLevelError::CiphertextDegreeMismatch { expected: key_source_degree, actual: key_degree }),
        ct_components == 2 && ct_degree == key_source_degree && ct_plain_modulus
            == key_source_plain_modulus && key_degree == key_source_degree ==> r is Ok,
{
    if ct_components != 2 {
        return Err(BgvLevelError::RecryptionCiphertextSize { actual: ct_components });
    }
    if ct_degree != key_source_degree {
        return Err(
            BgvLevelError::CiphertextDegreeMismatch { expected: key_source_degree, actual: ct_degree },
        );
    }
    if ct_plain_modulus != key_source_plain_modulus {
        return Err(
            BgvLevelError::CiphertextPlaintextModulusMismatch {
                expected: key_source_plain_modulus,
                actual: ct_plain_modulus,
            },
        );
    }
    if key_degree != key_source_degree {
        return Err(
            BgvLevelError::CiphertextDegreeMismatch { expected: key_source_degree, actual: key_degree },
        );
    }
    Ok(())
}

/// Readiness report for bootstrapping a ciphertext (component count,
/// degree, plaintext modulus, `q` limbs) with a recryption key (source
/// degree and plaintext modulus, and the degree, plaintext modulus and `q`
/// limbs it is encrypted under) and a CRT plan.  Every building block is in
/// place except the homomorphic fusion-to-source bridge, hence also the
/// full circuit.
pub fn bgv_bootstrap_circuit_readiness(
    ct_components: usize,
    ct_degree: usize,
    ct_plain_modulus: u64,
    ct_q_limbs: usize,
    key_source_degree: usize,
    key_source_plain_modulus: u64,
    key_degree: usize,
    key_plain_modulus: u64,
    key_q_limbs: usize,
    crt_degree: usize,
    phase_bound_bits: u64,
    crt_modulus_product_bits: u64,
    auxiliary_plain_moduli: &Vec<u64>,
    max_abs_wrap_count: u64,
) -> (r: Result<BgvBootstrapCircuitReadiness, BgvLevelError>)
    ensures
        ({
            let check = recryption_input_check(
                ct_components,
                ct_degree,
                ct_plain_modulus,
                key_source_degree,
                key_source_plain_modulus,
                key_degree,
                key_plain_modulus,
            );
            &&& check is Err ==> r == Err::<BgvBootstrapCircuitReadiness, BgvLevelError>(
                check->Err_0,
            )
            &&& check is Ok && ct_degree != crt_degree ==> r == Err::<
                BgvBootstrapCircuitReadiness,
                BgvLevelError,
            >(BgvLevelError::CiphertextDegreeMismatch { expected: ct_degree, actual: crt_degree })
            &&& check is Ok && ct_degree == crt_degree ==> r is Ok
        }),
        r is Ok ==> {
            let c = r->Ok_0;
            &&& c.source_degree == ct_degree
            &&& c.source_q_limbs == ct_q_limbs
            &&& c.target_q_limbs == key_q_limbs
            &&& c.phase_bound_bits == phase_bound_bits
            &&& c.crt_modulus_product_bits == crt_modulus_product_bits
            &&& c.auxiliary_plain_moduli@ == auxiliary_plain_moduli@
            &&& c.max_abs_wrap_count == max_abs_wrap_count
            &&& c.raw_phase_affine_input_layer && c.encrypted_phase_mod_plaintext
                && c.encrypted_crt_phase_residues && c.crt_wrap_reconstruction_plan
                && c.extracted_crt_residue_repack && c.encrypted_coefficient_carry_correction
                && c.corrected_recryption && c.homomorphic_single_modulus_residue_classification
                && c.homomorphic_same_field_crt_residue_bridge
                && c.homomorphic_same_field_crt_residue_fusion
                && c.homomorphic_same_field_plaintext_modulus_switch_correction
                && c.homomorphic_same_field_plaintext_modulus_switch
                && c.homomorphic_same_field_phase_decode && c.homomorphic_same_field_fusion_refresh
                && c.fusion_plaintext_modulus_planner && c.source_compatible_fusion_noise_scaling
                && c.same_field_decode_lift_correction
                && c.homomorphic_same_field_decode_lift_correction
                && c.fusion_to_source_plaintext_bridge_plan
                && c.fusion_to_source_plaintext_noise_correction_skeleton
                && c.fusion_to_source_plaintext_lift_patch && c.fusion_to_source_encrypted_lift_patch
                && c.fusion_to_source_encrypted_noise_correction_bridge
                && c.fusion_to_source_recryption_with_encrypted_correction
                && c.fusion_to_source_extracted_crt_plaintext_modulus_switch
                && c.encrypted_coefficient_wrap_repacking
            &&& !c.homomorphic_fusion_to_source_plaintext_bridge
            &&& !c.full_bootstrapping_circuit
            &&& c.gaps@ == seq![BgvBootstrapCircuitGap::HomomorphicFusionToSourcePlaintextBridge]
        },
{
    match validate_recryption_input(
        ct_components,
        ct_degree,
        ct_plain_modulus,
        key_source_degree,
        key_source_plain_modulus,
        key_degree,
        key_plain_modulus,
    ) {
        Ok(()) => {},
        Err(e) => {
            return Err(e);
        },
    }
    if ct_degree != crt_degree {
        return Err(BgvLevelError::CiphertextDegreeMismatch { expected: ct_degree, actual: crt_degree });
    }
    let mut gaps: Vec<BgvBootstrapCircuitGap> = Vec::new();
    gaps.push(BgvBootstrapCircuitGap::HomomorphicFusionToSourcePlaintextBridge);
    proof {
        assert(gaps@ =~= seq![BgvBootstrapCircuitGap::HomomorphicFusionToSourcePlaintextBridge]);
    }
    Ok(
        BgvBootstrapCircuitReadiness {
            source_degree: ct_degree,
            source_q_limbs: ct_q_limbs,
            target_q_limbs: key_q_limbs,
            phase_bound_bits,
            crt_modulus_product_bits,
            auxiliary_plain_moduli: auxiliary_plain_moduli.clone(),
            max_abs_wrap_count,
            raw_phase_affine_input_layer: true,
            encrypted_phase_mod_plaintext: true,
            encrypted_crt_phase_residues: true,
            crt_wrap_reconstruction_plan: true,
            extracted_crt_residue_repack: true,
            encrypted_coefficient_carry_correction: true,
            corrected_recryption: true,
            homomorphic_single_modulus_residue_classification: true,
            homomorphic_same_field_crt_residue_bridge: true,
            homomorphic_same_field_crt_residue_fusion: true,
            homomorphic_same_field_plaintext_modulus_switch_correction: true,
            homomorphic_same_field_plaintext_modulus_switch: true,
            homomorphic_same_field_phase_decode: true,
            homomorphic_same_field_fusion_refresh: true,
            fusion_plaintext_modulus_planner: true,
            source_compatible_fusion_noise_scaling: true,
            same_field_decode_lift_correction: true,
            homomorphic_same_field_decode_lift_correction: true,
            fusion_to_source_plaintext_bridge_plan: true,
            fusion_to_source_plaintext_noise_correction_skeleton: true,
            fusion_to_source_plaintext_lift_patch: true,
            fusion_to_source_encrypted_lift_patch: true,
            fusion_to_source_encrypted_noise_correction_bridge: true,
            fusion_to_source_recryption_with_encrypted_correction: true,
            fusion_to_source_extracted_crt_plaintext_modulus_switch: true,
            homomorphic_fusion_to_source_plaintext_bridge: false,
            encrypted_coefficient_wrap_repacking: true,
            full_bootstrapping_circuit: false,
            gaps,
        },
    )
}

// ---------------------------------------------------------------------------
// Fusion-to-source noise correction
// ---------------------------------------------------------------------------

/// Per-coefficient difference between the fused plaintext read modulo `s`
/// and the plaintext obtained by reinterpreting the fused ciphertext in the
/// source parameters.
#[derive(Clone, Debug, PartialEq, Eq)]
pub struct BgvBootstrapFusionToSourceNoiseCorrectionAudit {
    pub source_degree: usize,
    pub fusion_plain_modulus: u64,
    pub source_plain_modulus: u64,
    pub target_coefficients: Vec<u64>,
    pub direct_coefficients: Vec<u64>,
    pub correction_coefficients: Vec<u64>,
    pub nonzero_correction_count: usize,
}

/// Audits the noise correction of a fusion-to-source bridge.  The fused
/// ciphertext is described by its degree, plaintext modulus `f`, plaintext
/// factor and modulus chain; `fused_plaintext` is its decryption under the
/// fused parameters and `direct_plaintext` the decryption of the same raw
/// ciphertext under the source parameters (plaintext modulus `s`).
pub fn audit_bgv_bootstrap_fusion_to_source_noise_correction(
    fusion_degree: usize,
    fusion_plain_modulus: u64,
    fusion_factor: BgvPlaintextFactor,
    fusion_ciphertext_moduli: &Vec<u64>,
    source_degree: usize,
    source_plain_modulus: u64,
    source_ciphertext_moduli: &Vec<u64>,
    fused_plaintext: &Vec<u64>,
    direct_plaintext: &Vec<u64>,
) -> (r: Result<BgvBootstrapFusionToSourceNoiseCorrectionAudit, BgvLevelError>)
    requires
        source_plain_modulus > 0,
        fused_plaintext@.len() == direct_plaintext@.len(),
    ensures
        fusion_degree != source_degree ==> r == Err::<
            BgvBootstrapFusionToSourceNoiseCorrectionAudit,
            BgvLevelError,
        >(BgvLevelError::CiphertextDegreeMismatch { expected: fusion_degree, actual: source_degree }),
        fusion_degree == source_degree && fusion_ciphertext_moduli@ != source_ciphertext_moduli@
            ==> r == Err::<BgvBootstrapFusionToSourceNoiseCorrectionAudit, BgvLevelError>(
            BgvLevelError::CiphertextModulusChainMismatch,
        ),
        fusion_degree == source_degree && fusion_ciphertext_moduli@ == source_ciphertext_moduli@
            && !has_mod_inverse(
            (fusion_factor@ % source_plain_modulus) as int,
            source_plain_modulus as int,
        ) ==> r == Err::<BgvBootstrapFusionToSourceNoiseCorrectionAudit, BgvLevelError>(
            BgvLevelError::PlaintextFactorNotInvertible {
                factor: (fusion_factor@ % source_plain_modulus) as u64,
                modulus: source_plain_modulus,
            },
        ),
        fusion_degree == source_degree && fusion_ciphertext_moduli@ == source_ciphertext_moduli@
            && has_mod_inverse(
            (fusion_factor@ % source_plain_modulus) as int,
            source_plain_modulus as int,
        ) ==> r is Ok,
        r is Ok ==> ({
            let a = r->Ok_0;
            let s = source_plain_modulus as int;
            let n = fused_plaintext@.len();
            &&& a.source_degree == source_degree
            &&& a.fusion_plain_modulus == fusion_plain_modulus
            &&& a.source_plain_modulus == source_plain_modulus
            &&& a.target_coefficients@.len() == n
            &&& a.direct_coefficients@ == direct_plaintext@
            &&& a.correction_coefficients@.len() == n
            &&& forall|k: int|
                0 <= k < n ==> {
                    &&& #[trigger] a.target_coefficients@[k] == (fused_plaintext@[k] as int) % s
                    &&& a.correction_coefficients@[k] == ((a.target_coefficients@[k] as int) % s - (
                    direct_plaintext@[k] as int) % s) % s
                }
            &&& a.nonzero_correction_count == count_nonzero(a.correction_coefficients@, n as int)
        }),
{
    let plan = match bgv_bootstrap_fusion_to_source_plaintext_bridge_plan(
        fusion_degree,
        fusion_plain_modulus,
        fusion_factor,
        fusion_ciphertext_moduli,
        source_degree,
        source_plain_modulus,
        source_ciphertext_moduli,
    ) {
        Ok(p) => p,
        Err(e) => {
            return Err(e);
        },
    };
    if !plan.same_ciphertext_modulus_chain {
        return Err(BgvLevelError::CiphertextModulusChainMismatch);
    }
    let s = source_plain_modulus;
    match BgvPlaintextFactor::new(fusion_factor.value(), s) {
        Ok(_) => {},
        Err(e) => {
            return Err(e);
        },
    }
    let n = fused_plaintext.len();
    let mut target_coefficients: Vec<u64> = Vec::new();
    let mut correction_coefficients: Vec<u64> = Vec::new();
    let mut nonzero: usize = 0;
    let mut k: usize = 0;
    while k < n
        invariant
            s == source_plain_modulus,
            s > 0,
            n == fused_plaintext@.len(),
            n == direct_plaintext@.len(),
            k <= n,
            target_coefficients@.len() == k,
            correction_coefficients@.len() == k,
            nonzero == count_nonzero(correction_coefficients@, k as int),
            forall|j: int|
                0 <= j < k ==> {
                    &&& #[trigger] target_coefficients@[j] == (fused_plaintext@[j] as int) % (
                    s as int)
                    &&& correction_coefficients@[j] == ((target_coefficients@[j] as int) % (
                    s as int) - (direct_plaintext@[j] as int) % (s as int)) % (s as int)
                },
        decreases n - k,
    {
        let target = fused_plaintext[k] % s;
        let direct = direct_plaintext[k];
        let correction = sub_mod(target % s, direct % s, s);
        proof {
            vstd::arithmetic::div_mod::lemma_sub_mod_noop(target as int, direct as int, s as int);
            lemma_count_nonzero_bounded(correction_coefficients@, k as int);
        }
        let ghost old_corr = correction_coefficients@;
        target_coefficients.push(target);
        correction_coefficients.push(correction);
        proof {
            assert(correction_coefficients@.drop_last() =~= old_corr);
            lemma_count_nonzero_prefix(correction_coefficients@, k as int);
        }
        if correction != 0 {
            nonzero = nonzero + 1;
        }
        k += 1;
    }
    Ok(
        BgvBootstrapFusionToSourceNoiseCorrectionAudit {
            source_degree,
            fusion_plain_modulus,
            source_plain_modulus: s,
            target_coefficients,
            direct_coefficients: direct_plaintext.clone(),
            correction_coefficients,
            nonzero_correction_count: nonzero,
        },
    )
}

impl BgvBootstrapFusionToSourceNoiseCorrectionAudit {
    /// The correction as a plaintext of the source parameters (`degree`
    /// coefficients modulo `plain_modulus`); fails when those are not the
    /// parameters the audit was made for.
    pub fn correction_plaintext(&self, degree: usize, plain_modulus: u64) -> (r: Result<
        Vec<u64>,
        BgvLevelError,
    >)
        requires
            plain_modulus > 0,
        ensures
            degree != self.source_degree ==> r == Err::<Vec<u64>, BgvLevelError>(
                BgvLevelError::CiphertextDegreeMismatch { expected: self.source_degree, actual: degree },
            ),
            degree == self.source_degree && plain_modulus != self.source_plain_modulus ==> r == Err::<
                Vec<u64>,
                BgvLevelError,
            >(
                BgvLevelError::CiphertextPlaintextModulusMismatch {
                    expected: self.source_plain_modulus,
                    actual: plain_modulus,
                },
            ),
            degree == self.source_degree && plain_modulus == self.source_plain_modulus ==> r is Ok
                && r->Ok_0@.len() == degree && forall|k: int|
                0 <= k < degree ==> #[trigger] r->Ok_0@[k] == (if k < self.correction_coefficients@.len() {
                    self.correction_coefficients@[k] % plain_modulus
                } else {
                    0
                }),
    {
        if degree != self.source_degree {
            return Err(
                BgvLevelError::CiphertextDegreeMismatch { expected: self.source_degree, actual: degree },
            );
        }
        if plain_modulus != self.source_plain_modulus {
            return Err(
                BgvLevelError::CiphertextPlaintextModulusMismatch {
                    expected: self.source_plain_modulus,
                    actual: plain_modulus,
                },
            );
        }
        let mut out: Vec<u64> = Vec::new();
        let mut k: usize = 0;
        while k < degree
            invariant
                plain_modulus > 0,
                k <= degree,
                out@.len() == k,
                forall|kk: int|
                    0 <= kk < k ==> #[trigger] out@[kk] == (if kk < self.correction_coefficients@.len() {
                        self.correction_coefficients@[kk] % plain_modulus
                    } else {
                        0
                    }),
            decreases degree - k,
        {
            if k < self.correction_coefficients.len() {
                out.push(self.correction_coefficients[k] % plain_modulus);
            } else {
                out.push(0);
            }
            k += 1;
        }
        Ok(out)
    }
}

/// Scalar by which a fused plaintext lift is multiplied modulo `s` when the
/// fused ciphertext is patched into the source space:
/// `factor · f⁻¹ · c⁻¹ mod s`, with `f` the fused plaintext modulus and `c`
/// the correction factor.
pub fn fusion_to_source_lift_scalar_mod_source(
    fusion_plain_modulus: u64,
    fusion_factor: BgvPlaintextFactor,
    source_plain_modulus: u64,
    correction_factor: BgvPlaintextFactor,
) -> (r: Result<u64, BgvLevelError>)
    requires
        source_plain_modulus > 0,
    ensures
        ({
            let s = source_plain_modulus as int;
            let fm = (fusion_plain_modulus as int) % s;
            let cm = (correction_factor@ as int) % s;
            &&& !has_mod_inverse(fm, s) ==> r == Err::<u64, BgvLevelError>(
                BgvLevelError::PlaintextFactorNotInvertible {
                    factor: fm as u64,
                    modulus: source_plain_modulus,
                },
            )
            &&& has_mod_inverse(fm, s) && !has_mod_inverse(cm, s) ==> r == Err::<u64, BgvLevelError>(
                BgvLevelError::PlaintextFactorNotInvertible {
                    factor: cm as u64,
                    modulus: source_plain_modulus,
                },
            )
            &&& has_mod_inverse(fm, s) && has_mod_inverse(cm, s) ==> r is Ok && exists|
                fi: int,
                ci: int,
            |
                is_mod_inverse(fm, fi, s) && is_mod_inverse(cm, ci, s) && r->Ok_0 == ((((
                fusion_factor@ as int) % s) * fi) % s * ci) % s
        }),
{
    let s = source_plain_modulus;
    let fusion_mod_source = fusion_plain_modulus % s;
    let fusion_mod_source_inverse = match mod_inverse(fusion_mod_source, s) {
        Some(x) => x,
        None => {
            return Err(
                BgvLevelError::PlaintextFactorNotInvertible { factor: fusion_mod_source, modulus: s },
            );
        },
    };
    let correction_mod_source = correction_factor.value() % s;
    let correction_factor_inverse = match mod_inverse(correction_mod_source, s) {
        Some(x) => x,
        None => {
            return Err(
                BgvLevelError::PlaintextFactorNotInvertible { factor: correction_mod_source, modulus: s },
            );
        },
    };
    let source_factor = fusion_factor.value() % s;
    let lift = mul_mod(source_factor, fusion_mod_source_inverse, s);
    Ok(mul_mod(lift, correction_factor_inverse, s))
}

/// Source and target parameters share the plaintext space: the same ring
/// degree and the same plaintext modulus.
pub fn ensure_same_plaintext_space(
    source_degree: usize,
    source_plain_modulus: u64,
    target_degree: usize,
    target_plain_modulus: u64,
) -> (r: Result<(), BgvLevelError>)
    ensures
        source_degree != target_degree ==> r == Err::<(), BgvLevelError>(
            BgvLevelError::CiphertextDegreeMismatch { expected: source_degree, actual: target_degree },
        ),
        source_degree == target_degree && source_plain_modulus != target_plain_modulus ==> r == Err::<
            (),
            BgvLevelError,
        >(
            BgvLevelError::CiphertextPlaintextModulusMismatch {
                expected: source_plain_modulus,
                actual: target_plain_modulus,
            },
        ),
        source_degree == target_degree && source_plain_modulus == target_plain_modulus ==> r is Ok,
{
    if source_degree != target_degree {
        return Err(BgvLevelError::CiphertextDegreeMismatch { expected: source_degree, actual: target_degree });
    }
    if source_plain_modulus != target_plain_modulus {
        return Err(
            BgvLevelError::CiphertextPlaintextModulusMismatch {
                expected: source_plain_modulus,
                actual: target_plain_modulus,
            },
        );
    }
    Ok(())
}

} // verus!
