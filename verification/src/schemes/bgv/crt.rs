//! Exact CRT bookkeeping of the BGV bootstrap over integers of any size:
//! the raw phase of a ciphertext coefficient is reconstructed from its
//! residues modulo auxiliary plaintext moduli, and its wrap count around the
//! ciphertext modulus `Q` is read off from a table of intervals.

use vstd::prelude::*;

use crate::modarith::{
    centered, centered_wrap, has_mod_inverse, is_mod_inverse, lemma_centered_wrap_exact,
    lemma_mod_inverse_unique, mod_inverse, prefix_product,
};
use crate::polymod::{add_coefficients_assign, negacyclic_coeff, negacyclic_mul_mod};
use crate::schemes::bgv::ciphertext::BgvPlaintextFactor;
use crate::schemes::bgv::params::BgvLevelError;
use crate::schemes::bgv::plans::{
    audit_bgv_bootstrap_plaintext_modulus_switch_correction_from_phase_residues, count_nonzero,
    modulus_switch_audit_outcome, BgvBootstrapPlaintextModulusSwitchCorrectionAudit,
};
use crate::schemes::bgv::same_field::{
    crt_wrap_classifier_outcome, modulus_switch_classifier_outcome, residue_tuple,
    same_field_crt_residue_tuple, same_field_crt_tuple_count, same_field_crt_wrap_classifier_from_classes,
    same_field_plaintext_modulus_switch_correction_classifier_from_residues,
    tuple_count_ok, BgvBootstrapSameFieldCrtWrapClassifier,
    BgvBootstrapSameFieldPlaintextModulusSwitchCorrectionClassifier,
};
use crate::wide::{bit_length, int_abs, WideInt};

verus! {

// ---------------------------------------------------------------------------
// Residues and wrap counts
// ---------------------------------------------------------------------------

/// `value mod modulus`, taken in `[0, modulus)`.
pub fn bigint_mod_u64(value: &WideInt, modulus: u64) -> (r: u64)
    requires
        modulus > 0,
    ensures
        r == value@ % (modulus as int),
{
    let m = WideInt::from_u64(modulus);
    let rem = value.mod_floor(&m);
    match rem.to_u64() {
        Some(v) => v,
        None => 0,
    }
}

/// The centered residue of `value` modulo `Q` (in `(−Q/2, Q/2]`) and the
/// number of times `value` wraps around `Q`.
pub fn centered_residue_and_wrap(value: &WideInt, modulus: &WideInt) -> (r: (WideInt, WideInt))
    requires
        modulus@ > 0,
    ensures
        r.0@ == centered(value@ % modulus@, modulus@),
        r.1@ == centered_wrap(value@, modulus@),
        value@ == modulus@ * r.1@ + r.0@,
{
    let quotient = value.div_floor(modulus);
    let residue = value.mod_floor(modulus);
    let two = WideInt::from_u64(2);
    let half = modulus.div_floor(&two);
    proof {
        lemma_centered_wrap_exact(value@, modulus@);
        vstd::arithmetic::div_mod::lemma_fundamental_div_mod(value@, modulus@);
    }
    if half.lt(&residue) {
        let one = WideInt::from_u64(1);
        let c = residue.minus(modulus);
        let w = quotient.plus(&one);
        proof {
            let q = modulus@;
            assert(value@ - c@ == q * w@) by (nonlinear_arith)
                requires
                    value@ == q * quotient@ + residue@,
                    c@ == residue@ - q,
                    w@ == quotient@ + 1,
            ;
            assert(q * centered_wrap(value@, q) == q * w@);
            vstd::arithmetic::mul::lemma_mul_is_commutative(q, w@);
            vstd::arithmetic::div_mod::lemma_div_multiples_vanish(w@, q);
        }
        (c, w)
    } else {
        proof {
            let q = modulus@;
            assert(q * centered_wrap(value@, q) == q * quotient@);
            vstd::arithmetic::div_mod::lemma_div_multiples_vanish(quotient@, q);
            vstd::arithmetic::div_mod::lemma_div_multiples_vanish(centered_wrap(value@, q), q);
        }
        (residue, quotient)
    }
}

/// `Q = q_0 · q_1 ⋯`.
pub fn moduli_product(moduli: &Vec<u64>) -> (r: WideInt)
    ensures
        r@ == prefix_product(moduli@, moduli@.len() as int),
{
    let mut product = WideInt::from_u64(1);
    let mut i: usize = 0;
    while i < moduli.len()
        invariant
            i <= moduli@.len(),
            product@ == prefix_product(moduli@, i as int),
        decreases moduli@.len() - i,
    {
        let m = WideInt::from_u64(moduli[i]);
        product = product.times(&m);
        i += 1;
    }
    product
}

// ---------------------------------------------------------------------------
// Wrap intervals
// ---------------------------------------------------------------------------

/// The raw phases with wrap count `wrap_count` around `Q`.
#[derive(Debug)]
pub struct BgvBootstrapWrapInterval {
    pub wrap_count: i64,
    pub lower_inclusive: WideInt,
    pub upper_inclusive: WideInt,
}

/// One interval per wrap count in `[−M, M]`, in increasing order.
#[derive(Debug)]
pub struct BgvBootstrapWrapIntervalPlan {
    pub max_abs_wrap_count: u64,
    pub intervals: Vec<BgvBootstrapWrapInterval>,
}

/// Lowest raw phase with wrap count `w` around `q`: `q·w − (q − ⌊q/2⌋ − 1)`.
pub open spec fn wrap_interval_lower(q: int, w: int) -> int {
    q * w - (q - q / 2 - 1)
}

/// Highest raw phase with wrap count `w` around `q`: `q·w + ⌊q/2⌋`.
pub open spec fn wrap_interval_upper(q: int, w: int) -> int {
    q * w + q / 2
}

/// `plan` lists, for `w = −M, …, M` in order, the interval of raw phases
/// with wrap count `w` around `q`.
pub open spec fn is_wrap_interval_plan(plan: BgvBootstrapWrapIntervalPlan, q: int, m: int) -> bool {
    &&& plan.max_abs_wrap_count == m
    &&& plan.intervals@.len() == 2 * m + 1
    &&& forall|k: int|
        0 <= k < plan.intervals@.len() ==> {
            let iv = #[trigger] plan.intervals@[k];
            &&& iv.wrap_count == k - m
            &&& iv.lower_inclusive@ == wrap_interval_lower(q, k - m)
            &&& iv.upper_inclusive@ == wrap_interval_upper(q, k - m)
        }
}

/// `v` lies in the interval.
pub open spec fn in_wrap_interval(iv: BgvBootstrapWrapInterval, v: int) -> bool {
    iv.lower_inclusive@ <= v <= iv.upper_inclusive@
}

/// Wrap count of the first interval, from position `k` on, that holds `v`.
pub open spec fn first_wrap_match(intervals: Seq<BgvBootstrapWrapInterval>, v: int, k: int) -> Option<i64>
    decreases intervals.len() - k,
{
    if k < 0 || k >= intervals.len() {
        None
    } else if in_wrap_interval(intervals[k], v) {
        Some(intervals[k].wrap_count)
    } else {
        first_wrap_match(intervals, v, k + 1)
    }
}

/// The wrap match from position `k` is the wrap count of the first interval
/// at or after `k` that holds `v`, and there is none exactly when no
/// interval from `k` on holds `v`.
pub proof fn lemma_first_wrap_match_is_first(intervals: Seq<BgvBootstrapWrapInterval>, v: int, k: int)
    requires
        0 <= k,
    ensures
        first_wrap_match(intervals, v, k) is None <==> forall|j: int|
            k <= j < intervals.len() ==> !in_wrap_interval(#[trigger] intervals[j], v),
        first_wrap_match(intervals, v, k) is Some ==> exists|j: int|
            k <= j < intervals.len() && in_wrap_interval(#[trigger] intervals[j], v)
                && first_wrap_match(intervals, v, k) == Some(intervals[j].wrap_count)
                && forall|i: int| k <= i < j ==> !in_wrap_interval(#[trigger] intervals[i], v),
    decreases intervals.len() - k,
{
    if k < intervals.len() {
        lemma_first_wrap_match_is_first(intervals, v, k + 1);
        if !in_wrap_interval(intervals[k], v) {
            if first_wrap_match(intervals, v, k) is Some {
                let j = choose|j: int|
                    k + 1 <= j < intervals.len() && in_wrap_interval(#[trigger] intervals[j], v)
                        && first_wrap_match(intervals, v, k + 1) == Some(intervals[j].wrap_count)
                        && forall|i: int| k + 1 <= i < j ==> !in_wrap_interval(#[trigger] intervals[i], v);
                assert forall|i: int| k <= i < j implies !in_wrap_interval(#[trigger] intervals[i], v) by {
                    if i > k {
                    }
                }
            }
        }
    }
}

/// The wrap-interval table for the ciphertext modulus `Q = ∏ q_i` and wrap
/// counts up to `max_abs_wrap_count` in size; fails when that bound does
/// not fit in an `i64`.
pub fn bgv_bootstrap_wrap_interval_plan(
    ciphertext_moduli: &Vec<u64>,
    plain_modulus: u64,
    max_abs_wrap_count: u64,
) -> (r: Result<BgvBootstrapWrapIntervalPlan, BgvLevelError>)
    ensures
        max_abs_wrap_count > i64::MAX ==> r == Err::<BgvBootstrapWrapIntervalPlan, BgvLevelError>(
            BgvLevelError::BootstrapCarryBoundTooLarge {
                bound: max_abs_wrap_count,
                modulus: plain_modulus,
            },
        ),
        max_abs_wrap_count <= i64::MAX ==> r is Ok && is_wrap_interval_plan(
            r->Ok_0,
            prefix_product(ciphertext_moduli@, ciphertext_moduli@.len() as int),
            max_abs_wrap_count as int,
        ),
{
    if max_abs_wrap_count > 0x7fff_ffff_ffff_ffff {
        return Err(
            BgvLevelError::BootstrapCarryBoundTooLarge {
                bound: max_abs_wrap_count,
                modulus: plain_modulus,
            },
        );
    }
    let q = moduli_product(ciphertext_moduli);
    let ghost qv = q@;
    let two = WideInt::from_u64(2);
    let half = q.div_floor(&two);
    let one = WideInt::from_u64(1);
    let lower_offset = q.minus(&half).minus(&one);
    let m = max_abs_wrap_count as i64;
    let count: u64 = 2 * max_abs_wrap_count + 1;
    let mut intervals: Vec<BgvBootstrapWrapInterval> = Vec::new();
    let mut k: u64 = 0;
    while k < count
        invariant
            qv == q@,
            qv == prefix_product(ciphertext_moduli@, ciphertext_moduli@.len() as int),
            half@ == qv / 2,
            lower_offset@ == qv - qv / 2 - 1,
            m == max_abs_wrap_count,
            max_abs_wrap_count <= i64::MAX,
            count == 2 * max_abs_wrap_count + 1,
            k <= count,
            intervals@.len() == k,
            forall|j: int|
                0 <= j < k ==> {
                    let iv = #[trigger] intervals@[j];
                    &&& iv.wrap_count == j - m
                    &&& iv.lower_inclusive@ == wrap_interval_lower(qv, j - m)
                    &&& iv.upper_inclusive@ == wrap_interval_upper(qv, j - m)
                },
        decreases count - k,
    {
        let wrap = (k as i128 - m as i128) as i64;
        let center = q.times(&WideInt::from_i64(wrap));
        let lower = center.minus(&lower_offset);
        let upper = center.plus(&half);
        intervals.push(
            BgvBootstrapWrapInterval {
                wrap_count: wrap,
                lower_inclusive: lower,
                upper_inclusive: upper,
            },
        );
        k += 1;
    }
    Ok(BgvBootstrapWrapIntervalPlan { max_abs_wrap_count, intervals })
}

impl BgvBootstrapWrapIntervalPlan {
    /// The wrap count of the first interval that holds `raw_phase_coefficient`.
    pub fn classify(&self, raw_phase_coefficient: &WideInt) -> (r: Option<i64>)
        ensures
            r == first_wrap_match(self.intervals@, raw_phase_coefficient@, 0),
            match r {
                Some(w) => exists|k: int|
                    0 <= k < self.intervals@.len() && in_wrap_interval(
                        #[trigger] self.intervals@[k],
                        raw_phase_coefficient@,
                    ) && self.intervals@[k].wrap_count == w && forall|j: int|
                        0 <= j < k ==> !in_wrap_interval(
                            #[trigger] self.intervals@[j],
                            raw_phase_coefficient@,
                        ),
                None => forall|k: int|
                    0 <= k < self.intervals@.len() ==> !in_wrap_interval(
                        #[trigger] self.intervals@[k],
                        raw_phase_coefficient@,
                    ),
            },
    {
        let mut k: usize = 0;
        while k < self.intervals.len()
            invariant
                k <= self.intervals@.len(),
                forall|j: int|
                    0 <= j < k ==> !in_wrap_interval(
                        #[trigger] self.intervals@[j],
                        raw_phase_coefficient@,
                    ),
                first_wrap_match(self.intervals@, raw_phase_coefficient@, 0) == first_wrap_match(
                    self.intervals@,
                    raw_phase_coefficient@,
                    k as int,
                ),
            decreases self.intervals@.len() - k,
        {
            let iv = &self.intervals[k];
            if iv.lower_inclusive.le(raw_phase_coefficient) && raw_phase_coefficient.le(
                &iv.upper_inclusive,
            ) {
                return Some(iv.wrap_count);
            }
            k += 1;
        }
        None
    }
}

/// A raw phase lies in the wrap interval of `w` exactly when its wrap count
/// around `q` is `w`.
pub proof fn lemma_wrap_interval_membership(q: int, w: int, v: int)
    requires
        q > 0,
    ensures
        (wrap_interval_lower(q, w) <= v <= wrap_interval_upper(q, w)) <==> centered_wrap(v, q) == w,
{
    lemma_centered_wrap_exact(v, q);
    let c = centered_wrap(v, q);
    let r = centered(v % q, q);
    vstd::arithmetic::div_mod::lemma_mod_bound(v, q);
    assert(r >= -(q - q / 2 - 1));
    assert(r <= q / 2);
    if c == w {
        assert(v == q * w + r);
        assert(wrap_interval_lower(q, w) <= v);
        assert(v <= wrap_interval_upper(q, w));
    } else if wrap_interval_lower(q, w) <= v <= wrap_interval_upper(q, w) {
        let s = v - q * w;
        assert(q * (c - w) == s - r) by (nonlinear_arith)
            requires
                v == q * c + r,
                s == v - q * w,
        ;
        if c > w {
            assert(q * (c - w) >= q) by (nonlinear_arith)
                requires
                    c - w >= 1,
                    q > 0,
            ;
        } else {
            assert(q * (c - w) <= -q) by (nonlinear_arith)
                requires
                    w - c >= 1,
                    q > 0,
            ;
        }
    }
}

/// On a wrap-interval table for `q > 0`, a raw phase is classified exactly
/// when its wrap count around `q` is at most `M` in size, and then as that
/// wrap count.
pub proof fn lemma_classify_is_centered_wrap(plan: BgvBootstrapWrapIntervalPlan, q: int, m: int, v: int)
    requires
        q > 0,
        m >= 0,
        is_wrap_interval_plan(plan, q, m),
    ensures
        (exists|k: int| 0 <= k < plan.intervals@.len() && in_wrap_interval(#[trigger] plan.intervals@[k], v))
            <==> int_abs(centered_wrap(v, q)) <= m,
        forall|k: int|
            0 <= k < plan.intervals@.len() && in_wrap_interval(#[trigger] plan.intervals@[k], v)
                ==> plan.intervals@[k].wrap_count == centered_wrap(v, q),
{
    assert forall|k: int|
        0 <= k < plan.intervals@.len() && in_wrap_interval(#[trigger] plan.intervals@[k], v)
            implies plan.intervals@[k].wrap_count == centered_wrap(v, q) by {
        lemma_wrap_interval_membership(q, k - m, v);
    }
    let c = centered_wrap(v, q);
    if int_abs(c) <= m {
        let k = c + m;
        lemma_wrap_interval_membership(q, c, v);
        assert(in_wrap_interval(plan.intervals@[k], v));
    }
}

// ---------------------------------------------------------------------------
// Phase linearization
// ---------------------------------------------------------------------------

/// One term `multiplier · s_j` of a phase coefficient.
#[derive(Debug)]
pub struct BgvBootstrapPhaseTerm {
    pub secret_coefficient_index: usize,
    pub multiplier: WideInt,
}

/// Phase coefficient `k` as `constant + Σ_j multiplier_j · s_j`.
#[derive(Debug)]
pub struct BgvBootstrapPhaseCoefficientPlan {
    pub coefficient_index: usize,
    pub constant: WideInt,
    pub terms: Vec<BgvBootstrapPhaseTerm>,
}

/// The phase `c0 + c1 · s mod (X^N + 1)` of a two-component ciphertext as
/// linear forms in the secret coefficients, with bounds on their size.
#[derive(Debug)]
pub struct BgvBootstrapPhaseLinearizationPlan {
    pub degree: usize,
    pub coefficients: Vec<BgvBootstrapPhaseCoefficientPlan>,
    pub max_abs_constant: WideInt,
    pub max_abs_multiplier: WideInt,
    pub ternary_secret_abs_phase_bound: WideInt,
}

/// Multiplier of `s_j` in phase coefficient `k`: `c1[k − j]`, or `−c1[k + N − j]`
/// past the wrap (`X^N = −1`).
pub open spec fn phase_multiplier(c1: Seq<WideInt>, n: int, k: int, j: int) -> int {
    if j <= k {
        c1[k - j]@
    } else {
        -c1[k + n - j]@
    }
}

/// `m` is the largest `|s_i|` (0 for an empty sequence).
pub open spec fn is_max_abs(m: int, s: Seq<WideInt>) -> bool {
    &&& forall|i: int| 0 <= i < s.len() ==> int_abs(#[trigger] s[i]@) <= m
    &&& s.len() == 0 ==> m == 0
    &&& s.len() > 0 ==> exists|i: int| 0 <= i < s.len() && m == int_abs(#[trigger] s[i]@)
}

/// `plan` linearizes the phase of the ciphertext with centered components
/// `c0`, `c1` of degree `n`.
pub open spec fn is_phase_plan(plan: BgvBootstrapPhaseLinearizationPlan, c0: Seq<WideInt>, c1: Seq<WideInt>, n: int) -> bool {
    &&& plan.degree == n
    &&& plan.coefficients@.len() == n
    &&& forall|k: int|
        0 <= k < n ==> {
            let cp = #[trigger] plan.coefficients@[k];
            &&& cp.coefficient_index == k
            &&& cp.constant@ == c0[k]@
            &&& cp.terms@.len() == n
            &&& forall|j: int|
                0 <= j < n ==> (#[trigger] cp.terms@[j]).secret_coefficient_index == j
                    && cp.terms@[j].multiplier@ == phase_multiplier(c1, n, k, j)
        }
    &&& is_max_abs(plan.max_abs_constant@, c0)
    &&& is_max_abs(plan.max_abs_multiplier@, c1)
    &&& plan.ternary_secret_abs_phase_bound@ == plan.max_abs_constant@ + plan.max_abs_multiplier@ * n
}

/// Linearizes the phase of a ciphertext with `component_count` components
/// whose first two, centered, are `c0` and `c1`: coefficient `k` of
/// `c0 + c1 · s` is `c0[k] + Σ_j m_kj · s_j`.  The phase of a ternary secret
/// is then at most `max|c0| + N · max|c1|` in size.  Only two-component
/// ciphertexts are accepted.
#[verifier::rlimit(30)]
pub fn bgv_bootstrap_phase_linearization_plan(
    component_count: usize,
    c0: &Vec<WideInt>,
    c1: &Vec<WideInt>,
) -> (r: Result<BgvBootstrapPhaseLinearizationPlan, BgvLevelError>)
    requires
        component_count == 2 ==> c1@.len() == c0@.len(),
    ensures
        component_count != 2 ==> r == Err::<BgvBootstrapPhaseLinearizationPlan, BgvLevelError>(
            BgvLevelError::RecryptionCiphertextSize { actual: component_count },
        ),
        component_count == 2 ==> r is Ok && is_phase_plan(r->Ok_0, c0@, c1@, c0@.len() as int),
{
    if component_count != 2 {
        return Err(BgvLevelError::RecryptionCiphertextSize { actual: component_count });
    }
    let degree = c0.len();
    let ghost n = degree as int;
    let mut max_abs_constant = WideInt::zero();
    let mut max_abs_multiplier = WideInt::zero();
    let mut coefficients: Vec<BgvBootstrapPhaseCoefficientPlan> = Vec::new();
    let mut k: usize = 0;
    while k < degree
        invariant
            degree == c0@.len(),
            degree == c1@.len(),
            n == degree,
            k <= degree,
            coefficients@.len() == k,
            forall|kk: int|
                0 <= kk < k ==> {
                    let cp = #[trigger] coefficients@[kk];
                    &&& cp.coefficient_index == kk
                    &&& cp.constant@ == c0@[kk]@
                    &&& cp.terms@.len() == n
                    &&& forall|j: int|
                        0 <= j < n ==> (#[trigger] cp.terms@[j]).secret_coefficient_index == j
                            && cp.terms@[j].multiplier@ == phase_multiplier(c1@, n, kk, j)
                },
            is_max_abs(max_abs_constant@, c0@.take(k as int)),
            k == 0 ==> max_abs_multiplier@ == 0,
            k > 0 ==> is_max_abs(max_abs_multiplier@, c1@),
        decreases degree - k,
    {
        let constant = c0[k].copy();
        let a = constant.abs();
        let ghost prev_c = max_abs_constant@;
        if max_abs_constant.lt(&a) {
            max_abs_constant = a;
        }
        proof {
            let t = c0@.take(k + 1);
            assert(t.len() == k + 1);
            assert forall|i: int| 0 <= i < t.len() implies int_abs(#[trigger] t[i]@) <= max_abs_constant@ by {
                if i < k {
                    assert(t[i] == c0@.take(k as int)[i]);
                }
            }
            if max_abs_constant@ == prev_c && k > 0 {
                let i0 = choose|i: int| 0 <= i < k && prev_c == int_abs(#[trigger] c0@.take(k as int)[i]@);
                assert(t[i0] == c0@.take(k as int)[i0]);
            } else {
                assert(max_abs_constant@ == int_abs(t[k as int]@) || (prev_c == 0 && k == 0 && max_abs_constant@ == 0));
                if k == 0 && max_abs_constant@ == 0 {
                    assert(int_abs(t[0]@) <= 0);
                }
            }
        }
        let mut terms: Vec<BgvBootstrapPhaseTerm> = Vec::new();
        let mut j: usize = 0;
        let ghost row_start = max_abs_multiplier@;
        while j < degree
            invariant
                degree == c0@.len(),
                degree == c1@.len(),
                n == degree,
                k < degree,
                j <= degree,
                terms@.len() == j,
                forall|jj: int|
                    0 <= jj < j ==> (#[trigger] terms@[jj]).secret_coefficient_index == jj
                        && terms@[jj].multiplier@ == phase_multiplier(c1@, n, k as int, jj),
                k == 0 ==> {
                    &&& forall|jj: int| 0 <= jj < j ==> int_abs(phase_multiplier(c1@, n, 0, jj)) <= max_abs_multiplier@
                    &&& (j == 0 ==> max_abs_multiplier@ == 0)
                    &&& (j > 0 ==> exists|jj: int| 0 <= jj < j && max_abs_multiplier@ == int_abs(phase_multiplier(c1@, n, 0, jj)))
                },
                k > 0 ==> is_max_abs(max_abs_multiplier@, c1@),
            decreases degree - j,
        {
            let multiplier = if j <= k {
                c1[k - j].copy()
            } else {
                c1[k + (degree - j)].neg()
            };
            let b = multiplier.abs();
            let ghost prev_m = max_abs_multiplier@;
            if max_abs_multiplier.lt(&b) {
                max_abs_multiplier = b;
            }
            proof {
                assert(multiplier@ == phase_multiplier(c1@, n, k as int, j as int));
                if k == 0 {
                    assert forall|jj: int| 0 <= jj < j + 1 implies int_abs(phase_multiplier(c1@, n, 0, jj))
                        <= max_abs_multiplier@ by {}
                    if max_abs_multiplier@ == prev_m {
                        if j == 0 {
                            assert(max_abs_multiplier@ == int_abs(phase_multiplier(c1@, n, 0, 0)));
                        } else {
                            let w = choose|jj: int| 0 <= jj < j && prev_m == int_abs(phase_multiplier(c1@, n, 0, jj));
                            assert(max_abs_multiplier@ == int_abs(phase_multiplier(c1@, n, 0, w)));
                        }
                    } else {
                        assert(max_abs_multiplier@ == int_abs(phase_multiplier(c1@, n, 0, j as int)));
                    }
                }
                if k > 0 {
                    // every multiplier is ±c1[i] for some i
                    let i = if j <= k { k - j } else { k + n - j };
                    assert(int_abs(multiplier@) == int_abs(c1@[i]@));
                    assert(max_abs_multiplier@ == prev_m);
                }
            }
            terms.push(BgvBootstrapPhaseTerm { secret_coefficient_index: j, multiplier });
            j += 1;
        }
        proof {
            if k == 0 {
                assert forall|i: int| 0 <= i < c1@.len() implies int_abs(#[trigger] c1@[i]@) <= max_abs_multiplier@ by {
                    let jj = if i == 0 { 0 } else { n - i };
                    assert(int_abs(phase_multiplier(c1@, n, 0, jj)) == int_abs(c1@[i]@));
                }
                if n > 0 {
                    let jj = choose|jj: int| 0 <= jj < n && max_abs_multiplier@ == int_abs(phase_multiplier(c1@, n, 0, jj));
                    let i = if jj == 0 { 0 } else { n - jj };
                    assert(max_abs_multiplier@ == int_abs(c1@[i]@));
                }
            }
        }
        coefficients.push(BgvBootstrapPhaseCoefficientPlan { coefficient_index: k, constant, terms });
        k += 1;
    }
    proof {
        assert(c0@.take(n) == c0@);
    }
    let nw = WideInt::from_u64(degree as u64);
    let scaled = max_abs_multiplier.times(&nw);
    let ternary_secret_abs_phase_bound = max_abs_constant.plus(&scaled);
    Ok(
        BgvBootstrapPhaseLinearizationPlan {
            degree,
            coefficients,
            max_abs_constant,
            max_abs_multiplier,
            ternary_secret_abs_phase_bound,
        },
    )
}

/// `constant + Σ_{t < n} multiplier_t · s[index_t]`.
pub open spec fn phase_value(cp: BgvBootstrapPhaseCoefficientPlan, secret: Seq<i64>, n: int) -> int
    decreases n,
{
    if n <= 0 {
        cp.constant@
    } else {
        phase_value(cp, secret, n - 1) + cp.terms@[n - 1].multiplier@ * secret[cp.terms@[n
            - 1].secret_coefficient_index as int]
    }
}

/// Every term of the plan names a secret coefficient below the degree.
pub open spec fn phase_plan_indices_ok(plan: BgvBootstrapPhaseLinearizationPlan) -> bool {
    forall|k: int, t: int|
        0 <= k < plan.coefficients@.len() && 0 <= t < plan.coefficients@[k].terms@.len() ==> (
        #[trigger] plan.coefficients@[k].terms@[t]).secret_coefficient_index < plan.degree
}

impl BgvBootstrapPhaseLinearizationPlan {
    /// The raw phase coefficients for the secret with signed coefficients
    /// `secret_coefficients`; fails unless there is one per ring coefficient.
    pub fn evaluate_with_secret_coefficients(&self, secret_coefficients: &Vec<i64>) -> (r: Result<
        Vec<WideInt>,
        BgvLevelError,
    >)
        requires
            phase_plan_indices_ok(*self),
        ensures
            secret_coefficients@.len() != self.degree ==> r == Err::<Vec<WideInt>, BgvLevelError>(
                BgvLevelError::CiphertextDegreeMismatch {
                    expected: self.degree,
                    actual: secret_coefficients@.len() as usize,
                },
            ),
            secret_coefficients@.len() == self.degree ==> r is Ok && r->Ok_0@.len()
                == self.coefficients@.len() && forall|k: int|
                0 <= k < self.coefficients@.len() ==> (#[trigger] r->Ok_0@[k])@ == phase_value(
                    self.coefficients@[k],
                    secret_coefficients@,
                    self.coefficients@[k].terms@.len() as int,
                ),
    {
        if secret_coefficients.len() != self.degree {
            return Err(
                BgvLevelError::CiphertextDegreeMismatch {
                    expected: self.degree,
                    actual: secret_coefficients.len(),
                },
            );
        }
        let mut out: Vec<WideInt> = Vec::new();
        let mut k: usize = 0;
        while k < self.coefficients.len()
            invariant
                phase_plan_indices_ok(*self),
                secret_coefficients@.len() == self.degree,
                k <= self.coefficients@.len(),
                out@.len() == k,
                forall|kk: int|
                    0 <= kk < k ==> (#[trigger] out@[kk])@ == phase_value(
                        self.coefficients@[kk],
                        secret_coefficients@,
                        self.coefficients@[kk].terms@.len() as int,
                    ),
            decreases self.coefficients@.len() - k,
        {
            let cp = &self.coefficients[k];
            let mut value = cp.constant.copy();
            let mut t: usize = 0;
            while t < cp.terms.len()
                invariant
                    phase_plan_indices_ok(*self),
                    secret_coefficients@.len() == self.degree,
                    k < self.coefficients@.len(),
                    *cp == self.coefficients@[k as int],
                    t <= cp.terms@.len(),
                    value@ == phase_value(*cp, secret_coefficients@, t as int),
                decreases cp.terms@.len() - t,
            {
                let term = &cp.terms[t];
                proof {
                    assert(term.secret_coefficient_index < self.degree);
                }
                let secret = secret_coefficients[term.secret_coefficient_index];
                if secret != 0 {
                    let product = term.multiplier.times(&WideInt::from_i64(secret));
                    value = value.plus(&product);
                } else {
                    proof {
                        assert(term.multiplier@ * secret == 0) by (nonlinear_arith)
                            requires
                                secret == 0,
                        ;
                    }
                }
                t += 1;
            }
            out.push(value);
            k += 1;
        }
        Ok(out)
    }

    /// The raw phase coefficients reduced modulo `plain_modulus`.
    pub fn evaluate_mod_plaintext_with_secret_coefficients(
        &self,
        secret_coefficients: &Vec<i64>,
        plain_modulus: u64,
    ) -> (r: Result<Vec<u64>, BgvLevelError>)
        requires
            phase_plan_indices_ok(*self),
            plain_modulus > 0,
        ensures
            secret_coefficients@.len() != self.degree ==> r == Err::<Vec<u64>, BgvLevelError>(
                BgvLevelError::CiphertextDegreeMismatch {
                    expected: self.degree,
                    actual: secret_coefficients@.len() as usize,
                },
            ),
            secret_coefficients@.len() == self.degree ==> r is Ok && r->Ok_0@.len()
                == self.coefficients@.len() && forall|k: int|
                0 <= k < self.coefficients@.len() ==> #[trigger] r->Ok_0@[k] == phase_value(
                    self.coefficients@[k],
                    secret_coefficients@,
                    self.coefficients@[k].terms@.len() as int,
                ) % (plain_modulus as int),
    {
        let raw = match self.evaluate_with_secret_coefficients(secret_coefficients) {
            Ok(v) => v,
            Err(e) => {
                return Err(e);
            },
        };
        let mut out: Vec<u64> = Vec::new();
        let mut k: usize = 0;
        while k < raw.len()
            invariant
                plain_modulus > 0,
                k <= raw@.len(),
                out@.len() == k,
                forall|kk: int| 0 <= kk < k ==> #[trigger] out@[kk] == raw@[kk]@ % (plain_modulus as int),
            decreases raw@.len() - k,
        {
            out.push(bigint_mod_u64(&raw[k], plain_modulus));
            k += 1;
        }
        Ok(out)
    }
}

// ---------------------------------------------------------------------------
// CRT reconstruction of raw phases
// ---------------------------------------------------------------------------

/// Largest wrap count in size over the extreme phases `±B` around `q`.
pub open spec fn max_abs_wrap(pb: int, q: int) -> int {
    let a = int_abs(centered_wrap(pb, q));
    let b = int_abs(centered_wrap(-pb, q));
    if a >= b {
        a
    } else {
        b
    }
}

pub(crate) proof fn lemma_prefix_product_positive(q: Seq<u64>, n: int)
    requires
        n <= q.len(),
        forall|i: int| 0 <= i < q.len() ==> #[trigger] q[i] > 0,
    ensures
        prefix_product(q, n) > 0,
    decreases n,
{
    if n > 0 {
        lemma_prefix_product_positive(q, n - 1);
        let p = prefix_product(q, n - 1);
        assert(p * (q[n - 1] as int) > 0) by (nonlinear_arith)
            requires
                p > 0,
                q[n - 1] > 0,
        ;
    }
}

/// Largest wrap count in size of a phase within `|p| ≤ |phase_bound|`
/// around `Q = ∏ q_i` (attained at `±B`); fails when it does not fit in a
/// `u64`.
pub fn max_abs_wrap_count_for_phase_bound(
    ciphertext_moduli: &Vec<u64>,
    plain_modulus: u64,
    phase_bound: &WideInt,
) -> (r: Result<u64, BgvLevelError>)
    requires
        forall|i: int| 0 <= i < ciphertext_moduli@.len() ==> #[trigger] ciphertext_moduli@[i] > 0,
    ensures
        ({
            let w = max_abs_wrap(
                phase_bound@,
                prefix_product(ciphertext_moduli@, ciphertext_moduli@.len() as int),
            );
            &&& w <= u64::MAX ==> r == Ok::<u64, BgvLevelError>(w as u64)
            &&& w > u64::MAX ==> r == Err::<u64, BgvLevelError>(
                BgvLevelError::BootstrapCarryBoundTooLarge { bound: u64::MAX, modulus: plain_modulus },
            )
        }),
{
    let q = moduli_product(ciphertext_moduli);
    proof {
        lemma_prefix_product_positive(ciphertext_moduli@, ciphertext_moduli@.len() as int);
    }
    let (_, positive_wrap) = centered_residue_and_wrap(phase_bound, &q);
    let negative_bound = phase_bound.neg();
    let (_, negative_wrap) = centered_residue_and_wrap(&negative_bound, &q);
    let a = positive_wrap.abs();
    let b = negative_wrap.abs();
    let m = if b.le(&a) {
        a
    } else {
        b
    };
    match m.to_u64() {
        Some(v) => Ok(v),
        None => Err(BgvLevelError::BootstrapCarryBoundTooLarge { bound: u64::MAX, modulus: plain_modulus }),
    }
}

/// Everything needed to read wrap counts off CRT residues of raw phases.
#[derive(Debug)]
pub struct BgvBootstrapCrtWrapReconstructionPlan {
    pub degree: usize,
    pub auxiliary_plain_moduli: Vec<u64>,
    pub modulus_product: WideInt,
    pub phase_bound: WideInt,
    pub max_abs_wrap_count: u64,
    pub wrap_interval_plan: BgvBootstrapWrapIntervalPlan,
}

/// The auxiliary moduli are nonzero and `modulus_product` is their product.
pub open spec fn crt_plan_wf(plan: BgvBootstrapCrtWrapReconstructionPlan) -> bool {
    &&& forall|i: int|
        0 <= i < plan.auxiliary_plain_moduli@.len() ==> #[trigger] plan.auxiliary_plain_moduli@[i] > 0
    &&& plan.modulus_product@ == prefix_product(
        plan.auxiliary_plain_moduli@,
        plan.auxiliary_plain_moduli@.len() as int,
    )
}

/// The CRT plan for a degree-`degree` ciphertext with modulus chain
/// `ciphertext_moduli` (product `Q`), a phase linearization and auxiliary
/// moduli whose product `P` must exceed `2|B| + 1` for the phase bound `B`;
/// the wrap counts then range over `|w| ≤ M`, `M` the wrap count of `±B`.
pub fn bgv_bootstrap_crt_wrap_reconstruction_plan_from_auxiliary_moduli(
    degree: usize,
    ciphertext_moduli: &Vec<u64>,
    plain_modulus: u64,
    phase_plan: &BgvBootstrapPhaseLinearizationPlan,
    auxiliary_plain_moduli: Vec<u64>,
) -> (r: Result<BgvBootstrapCrtWrapReconstructionPlan, BgvLevelError>)
    requires
        forall|i: int| 0 <= i < ciphertext_moduli@.len() ==> #[trigger] ciphertext_moduli@[i] > 0,
    ensures
        ({
            let pb = phase_plan.ternary_secret_abs_phase_bound@;
            let p = prefix_product(auxiliary_plain_moduli@, auxiliary_plain_moduli@.len() as int);
            let q = prefix_product(ciphertext_moduli@, ciphertext_moduli@.len() as int);
            let required = int_abs(pb) * 2 + 1;
            let m = max_abs_wrap(pb, q);
            &&& degree != phase_plan.degree ==> r == Err::<
                BgvBootstrapCrtWrapReconstructionPlan,
                BgvLevelError,
            >(BgvLevelError::CiphertextDegreeMismatch { expected: degree, actual: phase_plan.degree })
            &&& degree == phase_plan.degree && p <= required ==> r == Err::<
                BgvBootstrapCrtWrapReconstructionPlan,
                BgvLevelError,
            >(
                BgvLevelError::BootstrapCrtModulusProductTooSmall {
                    product_bits: bit_length(int_abs(p) as nat) as u64,
                    required_bits: bit_length(required as nat) as u64,
                },
            )
            &&& degree == phase_plan.degree && p > required && m > u64::MAX ==> r == Err::<
                BgvBootstrapCrtWrapReconstructionPlan,
                BgvLevelError,
            >(BgvLevelError::BootstrapCarryBoundTooLarge { bound: u64::MAX, modulus: plain_modulus })
            &&& degree == phase_plan.degree && p > required && i64::MAX < m <= u64::MAX ==> r == Err::<
                BgvBootstrapCrtWrapReconstructionPlan,
                BgvLevelError,
            >(BgvLevelError::BootstrapCarryBoundTooLarge { bound: m as u64, modulus: plain_modulus })
            &&& degree == phase_plan.degree && p > required && m <= i64::MAX ==> r is Ok && {
                let plan = r->Ok_0;
                &&& plan.degree == degree
                &&& plan.auxiliary_plain_moduli@ == auxiliary_plain_moduli@
                &&& plan.modulus_product@ == p
                &&& plan.phase_bound@ == pb
                &&& plan.max_abs_wrap_count == m
                &&& is_wrap_interval_plan(plan.wrap_interval_plan, q, m)
                &&& crt_plan_wf(plan)
            }
        }),
{
    if degree != phase_plan.degree {
        return Err(BgvLevelError::CiphertextDegreeMismatch { expected: degree, actual: phase_plan.degree });
    }
    let phase_bound = phase_plan.ternary_secret_abs_phase_bound.copy();
    let modulus_product = moduli_product(&auxiliary_plain_moduli);
    let two = WideInt::from_u64(2);
    let one = WideInt::from_u64(1);
    let required = phase_bound.abs().times(&two).plus(&one);
    if modulus_product.le(&required) {
        return Err(
            BgvLevelError::BootstrapCrtModulusProductTooSmall {
                product_bits: modulus_product.bits(),
                required_bits: required.bits(),
            },
        );
    }
    proof {
        // P > 2|B| + 1 > 0 rules out a zero auxiliary modulus
        assert forall|i: int| 0 <= i < auxiliary_plain_moduli@.len() implies #[trigger] auxiliary_plain_moduli@[i] > 0 by {
            if auxiliary_plain_moduli@[i] == 0 {
                lemma_prefix_product_zero(auxiliary_plain_moduli@, auxiliary_plain_moduli@.len() as int, i);
            }
        }
    }
    let max_abs_wrap_count = match max_abs_wrap_count_for_phase_bound(ciphertext_moduli, plain_modulus, &phase_bound) {
        Ok(m) => m,
        Err(e) => {
            return Err(e);
        },
    };
    let wrap_interval_plan = match bgv_bootstrap_wrap_interval_plan(ciphertext_moduli, plain_modulus, max_abs_wrap_count) {
        Ok(p) => p,
        Err(e) => {
            return Err(e);
        },
    };
    Ok(
        BgvBootstrapCrtWrapReconstructionPlan {
            degree,
            auxiliary_plain_moduli,
            modulus_product,
            phase_bound,
            max_abs_wrap_count,
            wrap_interval_plan,
        },
    )
}

proof fn lemma_prefix_product_zero(q: Seq<u64>, n: int, i: int)
    requires
        0 <= i < n <= q.len(),
        q[i] == 0,
    ensures
        prefix_product(q, n) == 0,
    decreases n,
{
    if i < n - 1 {
        lemma_prefix_product_zero(q, n - 1, i);
    }
    let p = prefix_product(q, n - 1);
    if i == n - 1 {
        assert(p * 0 == 0) by (nonlinear_arith);
    } else {
        assert(0 * (q[n - 1] as int) == 0) by (nonlinear_arith);
    }
}

/// The inverse of `(P / m) mod m` modulo `m` (meaningful when it exists).
pub open spec fn crt_inverse(p: int, m: u64) -> int {
    choose|x: int| #[trigger] is_mod_inverse((p / (m as int)) % (m as int), x, m as int)
}

/// `(P / m) mod m` is invertible modulo `m`.
pub open spec fn crt_invertible(p: int, m: u64) -> bool {
    has_mod_inverse((p / (m as int)) % (m as int), m as int)
}

/// `Σ_{i < n} (P / m_i) · ((P / m_i)⁻¹ mod m_i) · (r_i mod m_i)`.
pub open spec fn crt_sum(p: int, moduli: Seq<u64>, residues: Seq<u64>, n: int) -> int
    decreases n,
{
    if n <= 0 {
        0
    } else {
        crt_sum(p, moduli, residues, n - 1) + (p / (moduli[n - 1] as int)) * crt_inverse(
            p,
            moduli[n - 1],
        ) * ((residues[n - 1] as int) % (moduli[n - 1] as int))
    }
}

/// The first auxiliary modulus, from position `i` on, for which
/// `(P / m) mod m` has no inverse.
pub open spec fn first_noninvertible(p: int, moduli: Seq<u64>, i: int) -> Option<int>
    decreases moduli.len() - i,
{
    if i < 0 || i >= moduli.len() {
        None
    } else if !crt_invertible(p, moduli[i]) {
        Some(i)
    } else {
        first_noninvertible(p, moduli, i + 1)
    }
}

/// Why the residues of one coefficient cannot be reconstructed, if they
/// cannot: a residue count that does not match, or the first
/// non-invertible `(P / m) mod m`.
pub open spec fn coefficient_error(plan: BgvBootstrapCrtWrapReconstructionPlan, residues: Seq<u64>) -> Option<
    BgvLevelError,
> {
    let ms = plan.auxiliary_plain_moduli@;
    let p = plan.modulus_product@;
    if residues.len() != ms.len() {
        Some(
            BgvLevelError::BootstrapCrtResidueCountMismatch {
                expected: ms.len() as usize,
                actual: residues.len() as usize,
            },
        )
    } else {
        match first_noninvertible(p, ms, 0) {
            Some(i) => Some(
                BgvLevelError::BootstrapCarryInterpolationDenominatorNotInvertible {
                    denominator: ((p / (ms[i] as int)) % (ms[i] as int)) as u64,
                    modulus: ms[i],
                },
            ),
            None => None,
        }
    }
}

/// The first coefficient error, from coefficient `k` on.
pub open spec fn phase_error(plan: BgvBootstrapCrtWrapReconstructionPlan, residues: Seq<Vec<u64>>, k: int) -> Option<
    BgvLevelError,
>
    decreases residues.len() - k,
{
    if k < 0 || k >= residues.len() {
        None
    } else {
        match coefficient_error(plan, residues[k]@) {
            Some(e) => Some(e),
            None => phase_error(plan, residues, k + 1),
        }
    }
}

/// The reconstructed raw phase of coefficient residues `residues`.
pub open spec fn reconstructed(plan: BgvBootstrapCrtWrapReconstructionPlan, residues: Seq<u64>) -> int {
    centered(
        crt_sum(
            plan.modulus_product@,
            plan.auxiliary_plain_moduli@,
            residues,
            plan.auxiliary_plain_moduli@.len() as int,
        ) % plan.modulus_product@,
        plan.modulus_product@,
    )
}

/// Some interval of the plan holds `v`.
pub open spec fn classified(plan: BgvBootstrapWrapIntervalPlan, v: int) -> bool {
    exists|j: int| 0 <= j < plan.intervals@.len() && in_wrap_interval(#[trigger] plan.intervals@[j], v)
}

pub(crate) proof fn lemma_first_noninvertible(p: int, moduli: Seq<u64>, i: int, k: int)
    requires
        0 <= i <= k <= moduli.len(),
        forall|j: int| i <= j < k ==> crt_invertible(p, #[trigger] moduli[j]),
    ensures
        first_noninvertible(p, moduli, i) == first_noninvertible(p, moduli, k),
    decreases k - i,
{
    if i < k {
        lemma_first_noninvertible(p, moduli, i + 1, k);
    }
}

pub(crate) proof fn lemma_first_noninvertible_none(p: int, moduli: Seq<u64>, i: int, k: int)
    requires
        0 <= i <= k < moduli.len(),
        first_noninvertible(p, moduli, i) is None,
    ensures
        crt_invertible(p, moduli[k]),
    decreases k - i,
{
    if i < k {
        lemma_first_noninvertible_none(p, moduli, i + 1, k);
    }
}

proof fn lemma_phase_error_prefix(plan: BgvBootstrapCrtWrapReconstructionPlan, residues: Seq<Vec<u64>>, i: int, k: int)
    requires
        0 <= i <= k <= residues.len(),
        forall|j: int| i <= j < k ==> coefficient_error(plan, (#[trigger] residues[j])@) is None,
    ensures
        phase_error(plan, residues, i) == phase_error(plan, residues, k),
    decreases k - i,
{
    if i < k {
        lemma_phase_error_prefix(plan, residues, i + 1, k);
    }
}

proof fn lemma_phase_error_none(plan: BgvBootstrapCrtWrapReconstructionPlan, residues: Seq<Vec<u64>>, i: int, k: int)
    requires
        0 <= i <= k < residues.len(),
        phase_error(plan, residues, i) is None,
    ensures
        coefficient_error(plan, residues[k]@) is None,
    decreases k - i,
{
    if i < k {
        lemma_phase_error_none(plan, residues, i + 1, k);
    }
}

impl BgvBootstrapCrtWrapReconstructionPlan {
    /// The value in `(−P/2, P/2]` with the given residues modulo the
    /// auxiliary moduli, by the CRT formula.  Fails on a residue count that
    /// does not match, and on the first modulus `m` for which `(P / m) mod m`
    /// has no inverse.
    pub fn reconstruct_centered_coefficient(&self, residues: &Vec<u64>) -> (r: Result<
        WideInt,
        BgvLevelError,
    >)
        requires
            crt_plan_wf(*self),
        ensures
            match coefficient_error(*self, residues@) {
                Some(e) => r == Err::<WideInt, BgvLevelError>(e),
                None => r is Ok && r->Ok_0@ == reconstructed(*self, residues@),
            },
    {
        let ghost ms = self.auxiliary_plain_moduli@;
        let ghost p = self.modulus_product@;
        if residues.len() != self.auxiliary_plain_moduli.len() {
            return Err(
                BgvLevelError::BootstrapCrtResidueCountMismatch {
                    expected: self.auxiliary_plain_moduli.len(),
                    actual: residues.len(),
                },
            );
        }
        proof {
            lemma_prefix_product_positive(ms, ms.len() as int);
        }
        let mut value = WideInt::zero();
        let mut i: usize = 0;
        while i < residues.len()
            invariant
                crt_plan_wf(*self),
                ms == self.auxiliary_plain_moduli@,
                p == self.modulus_product@,
                p > 0,
                residues@.len() == ms.len(),
                i <= ms.len(),
                forall|j: int| 0 <= j < i ==> crt_invertible(p, #[trigger] ms[j]),
                value@ == crt_sum(p, ms, residues@, i as int),
                value@ >= 0,
            decreases ms.len() - i,
        {
            let modulus = self.auxiliary_plain_moduli[i];
            let mw = WideInt::from_u64(modulus);
            let punctured = self.modulus_product.div_floor(&mw);
            let punctured_mod = bigint_mod_u64(&punctured, modulus);
            let inv = match mod_inverse(punctured_mod, modulus) {
                Some(x) => x,
                None => {
                    proof {
                        lemma_first_noninvertible(p, ms, 0, i as int);
                    }
                    return Err(
                        BgvLevelError::BootstrapCarryInterpolationDenominatorNotInvertible {
                            denominator: punctured_mod,
                            modulus,
                        },
                    );
                },
            };
            proof {
                let y = crt_inverse(p, modulus);
                assert(is_mod_inverse(punctured_mod as int, y, modulus as int));
                lemma_mod_inverse_unique(punctured_mod as int, inv as int, y, modulus as int);
            }
            let reduced = WideInt::from_u64(residues[i] % modulus);
            let term = punctured.times(&WideInt::from_u64(inv)).times(&reduced);
            proof {
                vstd::arithmetic::div_mod::lemma_div_pos_is_pos(p, modulus as int);
                let a = punctured@;
                let b = inv as int;
                let c = (residues@[i as int] % modulus) as int;
                assert(a * b * c >= 0) by (nonlinear_arith)
                    requires
                        a >= 0,
                        b >= 0,
                        c >= 0,
                ;
            }
            value = value.plus(&term);
            i += 1;
        }
        proof {
            lemma_first_noninvertible(p, ms, 0, ms.len() as int);
        }
        let reduced = value.mod_floor(&self.modulus_product);
        let two = WideInt::from_u64(2);
        let half = self.modulus_product.div_floor(&two);
        if half.lt(&reduced) {
            Ok(reduced.minus(&self.modulus_product))
        } else {
            Ok(reduced)
        }
    }

    /// Reconstructs every coefficient of a raw phase from its residues;
    /// fails unless there is one residue list per ring coefficient, and with
    /// the first coefficient that cannot be reconstructed.
    pub fn reconstruct_centered_phase(&self, residues_by_coefficient: &Vec<Vec<u64>>) -> (r: Result<
        Vec<WideInt>,
        BgvLevelError,
    >)
        requires
            crt_plan_wf(*self),
        ensures
            residues_by_coefficient@.len() != self.degree ==> r == Err::<Vec<WideInt>, BgvLevelError>(
                BgvLevelError::BootstrapCrtCoefficientCountMismatch {
                    expected: self.degree,
                    actual: residues_by_coefficient@.len() as usize,
                },
            ),
            residues_by_coefficient@.len() == self.degree ==> match phase_error(
                *self,
                residues_by_coefficient@,
                0,
            ) {
                Some(e) => r == Err::<Vec<WideInt>, BgvLevelError>(e),
                None => r is Ok && r->Ok_0@.len() == self.degree && forall|k: int|
                    0 <= k < self.degree ==> (#[trigger] r->Ok_0@[k])@ == reconstructed(
                        *self,
                        residues_by_coefficient@[k]@,
                    ),
            },
    {
        if residues_by_coefficient.len() != self.degree {
            return Err(
                BgvLevelError::BootstrapCrtCoefficientCountMismatch {
                    expected: self.degree,
                    actual: residues_by_coefficient.len(),
                },
            );
        }
        let mut out: Vec<WideInt> = Vec::new();
        let mut k: usize = 0;
        while k < residues_by_coefficient.len()
            invariant
                crt_plan_wf(*self),
                residues_by_coefficient@.len() == self.degree,
                k <= self.degree,
                out@.len() == k,
                forall|j: int|
                    0 <= j < k ==> coefficient_error(*self, (#[trigger] residues_by_coefficient@[j])@)
                        is None,
                forall|kk: int|
                    0 <= kk < k ==> (#[trigger] out@[kk])@ == reconstructed(
                        *self,
                        residues_by_coefficient@[kk]@,
                    ),
            decreases self.degree - k,
        {
            let v = match self.reconstruct_centered_coefficient(&residues_by_coefficient[k]) {
                Ok(v) => v,
                Err(e) => {
                    proof {
                        lemma_phase_error_prefix(*self, residues_by_coefficient@, 0, k as int);
                    }
                    return Err(e);
                },
            };
            out.push(v);
            k += 1;
        }
        proof {
            lemma_phase_error_prefix(*self, residues_by_coefficient@, 0, k as int);
        }
        Ok(out)
    }

    /// The wrap count around `Q` of every raw phase coefficient reconstructed
    /// from its residues.  Fails as the reconstruction does, and otherwise on
    /// the first coefficient that no wrap interval holds.
    pub fn classify_wrap_counts_from_residues(&self, residues_by_coefficient: &Vec<Vec<u64>>) -> (r:
        Result<Vec<i64>, BgvLevelError>)
        requires
            crt_plan_wf(*self),
        ensures
            residues_by_coefficient@.len() != self.degree ==> r == Err::<Vec<i64>, BgvLevelError>(
                BgvLevelError::BootstrapCrtCoefficientCountMismatch {
                    expected: self.degree,
                    actual: residues_by_coefficient@.len() as usize,
                },
            ),
            residues_by_coefficient@.len() == self.degree ==> match phase_error(
                *self,
                residues_by_coefficient@,
                0,
            ) {
                Some(e) => r == Err::<Vec<i64>, BgvLevelError>(e),
                None => {
                    &&& forall|k: int|
                        0 <= k < self.degree && !classified(
                            self.wrap_interval_plan,
                            reconstructed(*self, residues_by_coefficient@[k]@),
                        ) && (forall|j: int|
                            0 <= j < k ==> classified(
                                self.wrap_interval_plan,
                                reconstructed(*self, (#[trigger] residues_by_coefficient@[j])@),
                            )) ==> r == Err::<Vec<i64>, BgvLevelError>(
                            BgvLevelError::BootstrapCrtReconstructionOutOfRange { coefficient: k as usize },
                        )
                    &&& (forall|k: int|
                        0 <= k < self.degree ==> classified(
                            self.wrap_interval_plan,
                            reconstructed(*self, (#[trigger] residues_by_coefficient@[k])@),
                        )) ==> r is Ok && r->Ok_0@.len() == self.degree && forall|k: int|
                        0 <= k < self.degree ==> exists|j: int|
                            0 <= j < self.wrap_interval_plan.intervals@.len() && in_wrap_interval(
                                #[trigger] self.wrap_interval_plan.intervals@[j],
                                reconstructed(*self, residues_by_coefficient@[k]@),
                            ) && self.wrap_interval_plan.intervals@[j].wrap_count == (
                            #[trigger] r->Ok_0@[k]) && forall|i: int|
                                0 <= i < j ==> !in_wrap_interval(
                                    #[trigger] self.wrap_interval_plan.intervals@[i],
                                    reconstructed(*self, residues_by_coefficient@[k]@),
                                )
                },
            },
    {
        let raw_phase = match self.reconstruct_centered_phase(residues_by_coefficient) {
            Ok(v) => v,
            Err(e) => {
                return Err(e);
            },
        };
        let mut out: Vec<i64> = Vec::new();
        let mut k: usize = 0;
        while k < raw_phase.len()
            invariant
                raw_phase@.len() == self.degree,
                residues_by_coefficient@.len() == self.degree,
                phase_error(*self, residues_by_coefficient@, 0) is None,
                k <= self.degree,
                out@.len() == k,
                forall|kk: int|
                    0 <= kk < self.degree ==> (#[trigger] raw_phase@[kk])@ == reconstructed(
                        *self,
                        residues_by_coefficient@[kk]@,
                    ),
                forall|kk: int|
                    0 <= kk < k ==> classified(
                        self.wrap_interval_plan,
                        reconstructed(*self, (#[trigger] residues_by_coefficient@[kk])@),
                    ),
                forall|kk: int|
                    0 <= kk < k ==> exists|j: int|
                        0 <= j < self.wrap_interval_plan.intervals@.len() && in_wrap_interval(
                            #[trigger] self.wrap_interval_plan.intervals@[j],
                            raw_phase@[kk]@,
                        ) && self.wrap_interval_plan.intervals@[j].wrap_count == (#[trigger] out@[kk])
                            && forall|i: int|
                            0 <= i < j ==> !in_wrap_interval(
                                #[trigger] self.wrap_interval_plan.intervals@[i],
                                raw_phase@[kk]@,
                            ),
            decreases self.degree - k,
        {
            match self.wrap_interval_plan.classify(&raw_phase[k]) {
                Some(w) => {
                    out.push(w);
                },
                None => {
                    proof {
                        assert(!classified(
                            self.wrap_interval_plan,
                            reconstructed(*self, residues_by_coefficient@[k as int]@),
                        ));
                        assert forall|k2: int|
                            0 <= k2 < self.degree && !classified(
                                self.wrap_interval_plan,
                                reconstructed(*self, residues_by_coefficient@[k2]@),
                            ) && (forall|j: int|
                                0 <= j < k2 ==> classified(
                                    self.wrap_interval_plan,
                                    reconstructed(*self, (#[trigger] residues_by_coefficient@[j])@),
                                )) implies k2 == k by {
                            if k2 < k {
                            } else if k2 > k {
                                assert(classified(
                                    self.wrap_interval_plan,
                                    reconstructed(*self, residues_by_coefficient@[k as int]@),
                                ));
                            }
                        }
                    }
                    return Err(BgvLevelError::BootstrapCrtReconstructionOutOfRange { coefficient: k });
                },
            }
            k += 1;
        }
        Ok(out)
    }

    /// Residues of every raw phase coefficient modulo each auxiliary modulus;
    /// fails unless there is one coefficient per ring coefficient.
    pub fn residues_for_raw_phase(&self, raw_phase_coefficients: &Vec<WideInt>) -> (r: Result<
        Vec<Vec<u64>>,
        BgvLevelError,
    >)
        requires
            crt_plan_wf(*self),
        ensures
            raw_phase_coefficients@.len() != self.degree ==> r == Err::<Vec<Vec<u64>>, BgvLevelError>(
                BgvLevelError::BootstrapCrtCoefficientCountMismatch {
                    expected: self.degree,
                    actual: raw_phase_coefficients@.len() as usize,
                },
            ),
            raw_phase_coefficients@.len() == self.degree ==> r is Ok && r->Ok_0@.len() == self.degree
                && forall|k: int|
                0 <= k < self.degree ==> (#[trigger] r->Ok_0@[k])@.len()
                    == self.auxiliary_plain_moduli@.len() && forall|i: int|
                    0 <= i < self.auxiliary_plain_moduli@.len() ==> r->Ok_0@[k]@[i]
                        == raw_phase_coefficients@[k]@ % (self.auxiliary_plain_moduli@[i] as int),
    {
        if raw_phase_coefficients.len() != self.degree {
            return Err(
                BgvLevelError::BootstrapCrtCoefficientCountMismatch {
                    expected: self.degree,
                    actual: raw_phase_coefficients.len(),
                },
            );
        }
        let mut out: Vec<Vec<u64>> = Vec::new();
        let mut k: usize = 0;
        while k < raw_phase_coefficients.len()
            invariant
                crt_plan_wf(*self),
                raw_phase_coefficients@.len() == self.degree,
                k <= self.degree,
                out@.len() == k,
                forall|kk: int|
                    0 <= kk < k ==> (#[trigger] out@[kk])@.len() == self.auxiliary_plain_moduli@.len()
                        && forall|i: int|
                        0 <= i < self.auxiliary_plain_moduli@.len() ==> out@[kk]@[i]
                            == raw_phase_coefficients@[kk]@ % (self.auxiliary_plain_moduli@[i] as int),
            decreases self.degree - k,
        {
            let mut row: Vec<u64> = Vec::new();
            let mut i: usize = 0;
            while i < self.auxiliary_plain_moduli.len()
                invariant
                    crt_plan_wf(*self),
                    k < raw_phase_coefficients@.len(),
                    i <= self.auxiliary_plain_moduli@.len(),
                    row@.len() == i,
                    forall|ii: int|
                        0 <= ii < i ==> #[trigger] row@[ii] == raw_phase_coefficients@[k as int]@ % (
                        self.auxiliary_plain_moduli@[ii] as int),
                decreases self.auxiliary_plain_moduli@.len() - i,
            {
                row.push(bigint_mod_u64(&raw_phase_coefficients[k], self.auxiliary_plain_moduli[i]));
                i += 1;
            }
            out.push(row);
            k += 1;
        }
        Ok(out)
    }
}

// ---------------------------------------------------------------------------
// The CRT law
// ---------------------------------------------------------------------------

/// `∏_{k < n, k ≠ j} q_k`.
pub open spec fn product_except(q: Seq<u64>, n: int, j: int) -> int
    decreases n,
{
    if n <= 0 {
        1
    } else if n - 1 == j {
        product_except(q, n - 1, j)
    } else {
        product_except(q, n - 1, j) * (q[n - 1] as int)
    }
}

pub(crate) proof fn lemma_product_except(q: Seq<u64>, n: int, j: int)
    requires
        0 <= j < n <= q.len(),
    ensures
        prefix_product(q, n) == product_except(q, n, j) * (q[j] as int),
    decreases n,
{
    if n - 1 == j {
        assert(product_except(q, n - 1, j) == prefix_product(q, n - 1)) by {
            lemma_product_except_before(q, n - 1, j);
        }
    } else {
        lemma_product_except(q, n - 1, j);
        let a = product_except(q, n - 1, j);
        assert(a * (q[j] as int) * (q[n - 1] as int) == a * (q[n - 1] as int) * (q[j] as int))
            by (nonlinear_arith);
    }
}

proof fn lemma_product_except_before(q: Seq<u64>, n: int, j: int)
    requires
        0 <= n <= j,
        n <= q.len(),
    ensures
        product_except(q, n, j) == prefix_product(q, n),
    decreases n,
{
    if n > 0 {
        lemma_product_except_before(q, n - 1, j);
    }
}

proof fn lemma_product_except_divisible(q: Seq<u64>, n: int, i: int, j: int)
    requires
        0 <= i < n <= q.len(),
        i != j,
        q[i] > 0,
    ensures
        product_except(q, n, j) % (q[i] as int) == 0,
    decreases n,
{
    let m = q[i] as int;
    if n - 1 == i {
        vstd::arithmetic::div_mod::lemma_mod_multiples_basic(product_except(q, n - 1, j), m);
    } else {
        lemma_product_except_divisible(q, n - 1, i, j);
        if n - 1 != j {
            let a = product_except(q, n - 1, j);
            vstd::arithmetic::div_mod::lemma_mul_mod_noop_left(a, q[n - 1] as int, m);
            assert(0 * (q[n - 1] as int) == 0) by (nonlinear_arith);
            vstd::arithmetic::div_mod::lemma_small_mod(0, m as nat);
        }
    }
}

/// The `j`-th CRT term vanishes modulo `m_i` for `j ≠ i`, and is `r_i`
/// there for `j = i`.
proof fn lemma_crt_term(p: int, ms: Seq<u64>, rs: Seq<u64>, i: int, j: int)
    requires
        p == prefix_product(ms, ms.len() as int),
        forall|k: int| 0 <= k < ms.len() ==> #[trigger] ms[k] > 0,
        0 <= i < ms.len(),
        0 <= j < ms.len(),
        j == i ==> crt_invertible(p, ms[i]),
    ensures
        ((p / (ms[j] as int)) * crt_inverse(p, ms[j]) * ((rs[j] as int) % (ms[j] as int))) % (
        ms[i] as int) == (if j == i {
            (rs[i] as int) % (ms[i] as int)
        } else {
            0
        }),
{
    let mj = ms[j] as int;
    let mi = ms[i] as int;
    lemma_product_except(ms, ms.len() as int, j);
    let a = product_except(ms, ms.len() as int, j);
    vstd::arithmetic::div_mod::lemma_div_multiples_vanish(a, mj);
    assert(p / mj == a) by {
        vstd::arithmetic::mul::lemma_mul_is_commutative(a, mj);
    }
    let x = crt_inverse(p, ms[j]);
    let c = (rs[j] as int) % mj;
    if j != i {
        lemma_product_except_divisible(ms, ms.len() as int, i, j);
        vstd::arithmetic::div_mod::lemma_mul_mod_noop_left(a, x, mi);
        assert(0 * x == 0) by (nonlinear_arith);
        vstd::arithmetic::div_mod::lemma_small_mod(0, mi as nat);
        vstd::arithmetic::div_mod::lemma_mul_mod_noop_left(a * x, c, mi);
        assert(0 * c == 0) by (nonlinear_arith);
    } else {
        assert(is_mod_inverse(a % mi, x, mi));
        vstd::arithmetic::div_mod::lemma_mul_mod_noop_left(a, x, mi);
        vstd::arithmetic::div_mod::lemma_mul_mod_noop_left(a * x, c, mi);
        vstd::arithmetic::div_mod::lemma_mod_bound(rs[i] as int, mi);
        vstd::arithmetic::div_mod::lemma_small_mod(c as nat, mi as nat);
    }
}

pub(crate) proof fn lemma_crt_sum_mod(p: int, ms: Seq<u64>, rs: Seq<u64>, i: int, n: int)
    requires
        p == prefix_product(ms, ms.len() as int),
        forall|k: int| 0 <= k < ms.len() ==> #[trigger] ms[k] > 0,
        0 <= i < ms.len(),
        0 <= n <= ms.len(),
        crt_invertible(p, ms[i]),
    ensures
        crt_sum(p, ms, rs, n) % (ms[i] as int) == (if i < n {
            (rs[i] as int) % (ms[i] as int)
        } else {
            0
        }),
    decreases n,
{
    let mi = ms[i] as int;
    if n == 0 {
        vstd::arithmetic::div_mod::lemma_small_mod(0, mi as nat);
    } else {
        lemma_crt_sum_mod(p, ms, rs, i, n - 1);
        lemma_crt_term(p, ms, rs, i, n - 1);
        let prev = crt_sum(p, ms, rs, n - 1);
        let t = (p / (ms[n - 1] as int)) * crt_inverse(p, ms[n - 1]) * ((rs[n - 1] as int) % (
        ms[n - 1] as int));
        vstd::arithmetic::div_mod::lemma_add_mod_noop(prev, t, mi);
        vstd::arithmetic::div_mod::lemma_mod_bound(rs[i] as int, mi);
        vstd::arithmetic::div_mod::lemma_small_mod(((rs[i] as int) % mi) as nat, mi as nat);
        vstd::arithmetic::div_mod::lemma_small_mod(0, mi as nat);
    }
}

/// The CRT sum reduced modulo `P` keeps every residue `r_i mod m_i`, once
/// every `(P / m_i) mod m_i` is invertible.
pub(crate) proof fn lemma_crt_reduced_residue(p: int, ms: Seq<u64>, rs: Seq<u64>, i: int)
    requires
        p == prefix_product(ms, ms.len() as int),
        forall|k: int| 0 <= k < ms.len() ==> #[trigger] ms[k] > 0,
        first_noninvertible(p, ms, 0) is None,
        0 <= i < ms.len(),
    ensures
        (crt_sum(p, ms, rs, ms.len() as int) % p) % (ms[i] as int) == (rs[i] as int) % (ms[i] as int),
{
    let mi = ms[i] as int;
    lemma_first_noninvertible_none(p, ms, 0, i);
    lemma_crt_sum_mod(p, ms, rs, i, ms.len() as int);
    let s = crt_sum(p, ms, rs, ms.len() as int);
    lemma_prefix_product_positive(ms, ms.len() as int);
    lemma_product_except(ms, ms.len() as int, i);
    let a = product_except(ms, ms.len() as int, i);
    assert(a > 0) by (nonlinear_arith)
        requires
            p == a * mi,
            p > 0,
            mi > 0,
    ;
    vstd::arithmetic::div_mod::lemma_mod_mod(s, mi, a);
    assert(mi * a == p) by (nonlinear_arith)
        requires
            p == a * mi,
    ;
}

/// CRT reconstruction is faithful: when every `(P / m_i) mod m_i` is
/// invertible, the reconstructed value has residue `r_i mod m_i` modulo
/// every auxiliary modulus `m_i`.
pub proof fn lemma_crt_reconstruction_matches_residues(
    plan: BgvBootstrapCrtWrapReconstructionPlan,
    residues: Seq<u64>,
    i: int,
)
    requires
        crt_plan_wf(plan),
        residues.len() == plan.auxiliary_plain_moduli@.len(),
        coefficient_error(plan, residues) is None,
        0 <= i < plan.auxiliary_plain_moduli@.len(),
    ensures
        reconstructed(plan, residues) % (plan.auxiliary_plain_moduli@[i] as int) == (residues[i] as int)
            % (plan.auxiliary_plain_moduli@[i] as int),
{
    let ms = plan.auxiliary_plain_moduli@;
    let p = plan.modulus_product@;
    let mi = ms[i] as int;
    lemma_first_noninvertible_none(p, ms, 0, i);
    lemma_crt_sum_mod(p, ms, residues, i, ms.len() as int);
    let s = crt_sum(p, ms, residues, ms.len() as int);
    lemma_prefix_product_positive(ms, ms.len() as int);
    lemma_product_except(ms, ms.len() as int, i);
    let a = product_except(ms, ms.len() as int, i);
    assert(a > 0) by (nonlinear_arith)
        requires
            p == a * mi,
            p > 0,
            mi > 0,
    ;
    // (s mod P) mod m_i = s mod m_i, as m_i divides P
    vstd::arithmetic::div_mod::lemma_mod_mod(s, mi, a);
    assert(mi * a == p) by (nonlinear_arith)
        requires
            p == a * mi,
    ;
    let red = s % p;
    if red > p / 2 {
        // red − P ≡ red (mod m_i)
        vstd::arithmetic::div_mod::lemma_mod_multiples_vanish(-a, red, mi);
        assert(mi * (-a) + red == red - p) by (nonlinear_arith)
            requires
                mi * a == p,
        ;
    }
}

proof fn lemma_mul_divisible(x: int, y: int, a: int)
    requires
        a > 0,
        x % a == 0,
    ensures
        (x * y) % a == 0,
{
    vstd::arithmetic::div_mod::lemma_mul_mod_noop_left(x, y, a);
    assert(0 * y == 0) by (nonlinear_arith);
    vstd::arithmetic::div_mod::lemma_small_mod(0, a as nat);
}

/// The product of the moduli before `k` divides the product of all moduli
/// but `k`.
proof fn lemma_prefix_divides_except(q: Seq<u64>, n: int, k: int)
    requires
        0 <= k < n <= q.len(),
        forall|i: int| 0 <= i < q.len() ==> #[trigger] q[i] > 0,
    ensures
        product_except(q, n, k) % prefix_product(q, k) == 0,
    decreases n,
{
    lemma_prefix_product_positive(q, k);
    let a = prefix_product(q, k);
    if n == k + 1 {
        lemma_product_except_before(q, k, k);
        vstd::arithmetic::div_mod::lemma_mod_self_0(a);
    } else {
        lemma_prefix_divides_except(q, n - 1, k);
        lemma_mul_divisible(product_except(q, n - 1, k), q[n - 1] as int, a);
    }
}

/// A unit times anything is a unit only if each factor is: if `a · b` is
/// invertible modulo `m`, so is `a`.
pub(crate) proof fn lemma_factor_of_unit(a: int, b: int, m: int)
    requires
        m > 1,
        has_mod_inverse((a * b) % m, m),
    ensures
        has_mod_inverse(a % m, m),
{
    let y = choose|y: int| #[trigger] is_mod_inverse((a * b) % m, y, m);
    let z = (b * y) % m;
    vstd::arithmetic::div_mod::lemma_mod_bound(b * y, m);
    vstd::arithmetic::div_mod::lemma_mul_mod_noop_general(a, b * y, m);
    vstd::arithmetic::div_mod::lemma_mul_mod_noop_general(a * b, y, m);
    assert(a * (b * y) == (a * b) * y) by (nonlinear_arith);
    vstd::arithmetic::div_mod::lemma_mod_bound(a, m);
    assert(is_mod_inverse(a % m, z, m));
}

/// If `a` is invertible modulo `m`, and `m` divides `a · t`, then `m`
/// divides `t`.
proof fn lemma_cancel_unit(a: int, t: int, m: int)
    requires
        m > 0,
        has_mod_inverse(a % m, m),
        (a * t) % m == 0,
    ensures
        t % m == 0,
{
    let z = choose|z: int| #[trigger] is_mod_inverse(a % m, z, m);
    // t ≡ (z · a) · t = z · (a · t) ≡ 0
    vstd::arithmetic::div_mod::lemma_mul_mod_noop_general(a % m, z, m);
    vstd::arithmetic::div_mod::lemma_mul_mod_noop_general(a, z, m);
    assert((z * a) % m == 1) by {
        vstd::arithmetic::mul::lemma_mul_is_commutative(z, a);
        vstd::arithmetic::mul::lemma_mul_is_commutative(a % m, z);
        vstd::arithmetic::div_mod::lemma_mul_mod_noop_left(a, z, m);
    }
    vstd::arithmetic::div_mod::lemma_mul_mod_noop_left(z * a, t, m);
    vstd::arithmetic::div_mod::lemma_small_mod(1, m as nat);
    assert((z * a) * t == z * (a * t)) by (nonlinear_arith);
    vstd::arithmetic::div_mod::lemma_mul_mod_noop_right(z, a * t, m);
    assert(z * 0 == 0) by (nonlinear_arith);
    vstd::arithmetic::div_mod::lemma_small_mod(0, m as nat);
    assert(1 * t == t);
}

/// A difference that every auxiliary modulus divides is a multiple of their
/// product, once every `(P / m_i) mod m_i` is invertible.
pub(crate) proof fn lemma_divisible_by_product(p: int, ms: Seq<u64>, d: int, k: int)
    requires
        p == prefix_product(ms, ms.len() as int),
        forall|i: int| 0 <= i < ms.len() ==> #[trigger] ms[i] > 0,
        forall|i: int| 0 <= i < ms.len() ==> crt_invertible(p, #[trigger] ms[i]),
        forall|i: int| 0 <= i < ms.len() ==> d % (#[trigger] ms[i] as int) == 0,
        0 <= k <= ms.len(),
    ensures
        d % prefix_product(ms, k) == 0,
    decreases k,
{
    lemma_prefix_product_positive(ms, k);
    if k == 0 {
        vstd::arithmetic::div_mod::lemma_fundamental_div_mod_converse_mod(d, 1, d, 0);
    } else {
        lemma_divisible_by_product(p, ms, d, k - 1);
        let a = prefix_product(ms, k - 1);
        let m = ms[k - 1] as int;
        lemma_prefix_product_positive(ms, k - 1);
        vstd::arithmetic::div_mod::lemma_fundamental_div_mod(d, a);
        let t = d / a;
        assert(d == a * t);
        // a divides P / m, which is invertible modulo m, so a is too
        let n = ms.len() as int;
        lemma_product_except(ms, n, k - 1);
        let e = product_except(ms, n, k - 1);
        vstd::arithmetic::div_mod::lemma_div_multiples_vanish(e, m);
        assert(p / m == e) by {
            vstd::arithmetic::mul::lemma_mul_is_commutative(e, m);
        }
        lemma_prefix_divides_except(ms, n, k - 1);
        vstd::arithmetic::div_mod::lemma_fundamental_div_mod(e, a);
        let b = e / a;
        assert(e == a * b);
        assert(crt_invertible(p, ms[k - 1]));
        assert(has_mod_inverse((a * b) % m, m));
        lemma_has_inverse_modulus_large((a * b) % m, m);
        lemma_factor_of_unit(a, b, m);
        lemma_cancel_unit(a, t, m);
        vstd::arithmetic::div_mod::lemma_fundamental_div_mod(t, m);
        let u = t / m;
        assert(d == (a * m) * u) by (nonlinear_arith)
            requires
                d == a * t,
                t == m * u + 0,
        ;
        assert(prefix_product(ms, k) == a * m);
        vstd::arithmetic::div_mod::lemma_mod_multiples_basic(u, a * m);
        vstd::arithmetic::mul::lemma_mul_is_commutative(u, a * m);
    }
}

pub(crate) proof fn lemma_has_inverse_modulus_large(a: int, m: int)
    requires
        has_mod_inverse(a, m),
    ensures
        m > 1,
{
    let x = choose|x: int| is_mod_inverse(a, x, m);
    if m == 1 {
        assert(x == 0);
        assert(a * 0 == 0) by (nonlinear_arith);
        vstd::arithmetic::div_mod::lemma_small_mod(0, 1);
    }
}

/// The residues `v mod m_i` of an integer.
pub open spec fn residues_of(v: int, ms: Seq<u64>) -> Seq<u64> {
    Seq::new(ms.len(), |i: int| (v % (ms[i] as int)) as u64)
}

/// Reconstruction undoes taking residues: every `v` in `(−P/2, P/2]` is
/// rebuilt from its residues `v mod m_i`, once every `(P / m_i) mod m_i` is
/// invertible.
pub proof fn lemma_crt_round_trip(plan: BgvBootstrapCrtWrapReconstructionPlan, v: int)
    requires
        crt_plan_wf(plan),
        first_noninvertible(plan.modulus_product@, plan.auxiliary_plain_moduli@, 0) is None,
        -(plan.modulus_product@ - plan.modulus_product@ / 2) < v <= plan.modulus_product@ / 2,
    ensures
        reconstructed(plan, residues_of(v, plan.auxiliary_plain_moduli@)) == v,
{
    let ms = plan.auxiliary_plain_moduli@;
    let p = plan.modulus_product@;
    let rs = residues_of(v, ms);
    lemma_prefix_product_positive(ms, ms.len() as int);
    assert(coefficient_error(plan, rs) is None);
    let x = reconstructed(plan, rs);
    assert forall|i: int| 0 <= i < ms.len() implies crt_invertible(p, #[trigger] ms[i]) by {
        lemma_first_noninvertible_none(p, ms, 0, i);
    }
    assert forall|i: int| 0 <= i < ms.len() implies (x - v) % (#[trigger] ms[i] as int) == 0 by {
        lemma_crt_reconstruction_matches_residues(plan, rs, i);
        let m = ms[i] as int;
        vstd::arithmetic::div_mod::lemma_mod_bound(v, m);
        vstd::arithmetic::div_mod::lemma_small_mod((v % m) as nat, m as nat);
        vstd::arithmetic::div_mod::lemma_sub_mod_noop(x, v, m);
        vstd::arithmetic::div_mod::lemma_small_mod(0, m as nat);
    }
    lemma_divisible_by_product(p, ms, x - v, ms.len() as int);
    // both x and v lie in (−P/2, P/2], so x − v is a multiple of P below P in size
    let s = crt_sum(p, ms, rs, ms.len() as int);
    vstd::arithmetic::div_mod::lemma_mod_bound(s, p);
    vstd::arithmetic::div_mod::lemma_fundamental_div_mod(x - v, p);
    let u = (x - v) / p;
    assert(x - v == p * u);
    assert(x == centered(s % p, p));
    assert(-(p - p / 2) < x <= p / 2);
    assert(-p < x - v < p);
    if u > 0 {
        assert(p * u >= p) by (nonlinear_arith)
            requires
                u >= 1,
                p > 0,
        ;
    } else if u < 0 {
        assert(p * u <= -p) by (nonlinear_arith)
            requires
                u <= -1,
                p > 0,
        ;
    } else {
        assert(p * u == 0) by (nonlinear_arith)
            requires
                u == 0,
        ;
    }
}

// ---------------------------------------------------------------------------
// Raw phases and their wrap corrections
// ---------------------------------------------------------------------------

/// Contributions of `l_i · r_j`, `j < upto`, to coefficient `k` of a
/// product modulo `X^n + 1` (`n = |l|`).
pub open spec fn centered_row(l: Seq<WideInt>, r: Seq<i64>, k: int, i: int, upto: int) -> int
    decreases upto,
{
    if upto <= 0 {
        0
    } else {
        centered_row(l, r, k, i, upto - 1) + crate::polymod::negacyclic_term(
            l.len() as int,
            k,
            i,
            upto - 1,
            l[i]@ * r[upto - 1],
        )
    }
}

/// Coefficient `k` of `l · r mod (X^n + 1)` over the integers, summed over
/// the first `upto` coefficients of `l`.
pub open spec fn centered_coeff(l: Seq<WideInt>, r: Seq<i64>, k: int, upto: int) -> int
    decreases upto,
{
    if upto <= 0 {
        0
    } else {
        centered_coeff(l, r, k, upto - 1) + centered_row(l, r, k, upto - 1, r.len() as int)
    }
}

/// `left · right mod (X^n + 1)` over the integers, `n = |left|`.
pub fn negacyclic_mul_centered(left: &Vec<WideInt>, right: &Vec<i64>) -> (out: Vec<WideInt>)
    requires
        left@.len() + right@.len() <= usize::MAX,
        forall|j: int| left@.len() < j < right@.len() ==> #[trigger] right@[j] == 0,
    ensures
        out@.len() == left@.len(),
        forall|k: int|
            0 <= k < out@.len() ==> (#[trigger] out@[k])@ == centered_coeff(
                left@,
                right@,
                k,
                left@.len() as int,
            ),
{
    let degree = left.len();
    let ghost n = degree as int;
    let mut out: Vec<WideInt> = Vec::new();
    let mut z: usize = 0;
    while z < degree
        invariant
            z <= degree,
            out@.len() == z,
            forall|k: int| 0 <= k < z ==> (#[trigger] out@[k])@ == 0,
        decreases degree - z,
    {
        out.push(WideInt::zero());
        z += 1;
    }
    let mut i: usize = 0;
    while i < degree
        invariant
            n == degree,
            degree == left@.len(),
            left@.len() + right@.len() <= usize::MAX,
            forall|j: int| left@.len() < j < right@.len() ==> #[trigger] right@[j] == 0,
            i <= degree,
            out@.len() == degree,
            forall|k: int|
                0 <= k < degree ==> (#[trigger] out@[k])@ == centered_coeff(left@, right@, k, i as int),
        decreases degree - i,
    {
        let mut j: usize = 0;
        while j < right.len()
            invariant
                n == degree,
                degree == left@.len(),
                left@.len() + right@.len() <= usize::MAX,
                forall|jj: int| left@.len() < jj < right@.len() ==> #[trigger] right@[jj] == 0,
                i < degree,
                j <= right@.len(),
                out@.len() == degree,
                forall|k: int|
                    0 <= k < degree ==> (#[trigger] out@[k])@ == centered_coeff(left@, right@, k, i as int)
                        + centered_row(left@, right@, k, i as int, j as int),
            decreases right@.len() - j,
        {
            let rhs = right[j];
            let ghost v = left@[i as int]@ * rhs;
            let ghost before = out@;
            if rhs != 0 {
                let product = left[i].times(&WideInt::from_i64(rhs));
                let index = i + j;
                if index >= degree {
                    proof {
                        assert(j <= degree);
                    }
                    let dest = index - degree;
                    let updated = out[dest].minus(&product);
                    out.set(dest, updated);
                } else {
                    let updated = out[index].plus(&product);
                    out.set(index, updated);
                }
            }
            proof {
                assert forall|k: int| 0 <= k < degree implies (#[trigger] out@[k])@ == centered_coeff(
                    left@,
                    right@,
                    k,
                    i as int,
                ) + centered_row(left@, right@, k, i as int, j + 1) by {
                    assert(centered_row(left@, right@, k, i as int, j + 1) == centered_row(
                        left@,
                        right@,
                        k,
                        i as int,
                        j as int,
                    ) + crate::polymod::negacyclic_term(n, k, i as int, j as int, v));
                    if rhs == 0 {
                        assert(v == 0) by (nonlinear_arith)
                            requires
                                v == left@[i as int]@ * rhs,
                                rhs == 0,
                        ;
                        assert(out@[k] == before[k]);
                    } else if i + j >= degree {
                        if k != i + j - degree {
                            assert(out@[k] == before[k]);
                        }
                    } else {
                        if k != i + j {
                            assert(out@[k] == before[k]);
                        }
                    }
                }
            }
            j += 1;
        }
        proof {
            assert forall|k: int| 0 <= k < degree implies (#[trigger] out@[k])@ == centered_coeff(
                left@,
                right@,
                k,
                i + 1,
            ) by {}
        }
        i += 1;
    }
    out
}

/// The raw phase `c0 + c1 · s mod (X^N + 1)` of a two-component
/// ciphertext with centered components `c0`, `c1` and signed secret `s`.
pub fn raw_binary_phase_coefficients(c0: &Vec<WideInt>, c1: &Vec<WideInt>, secret: &Vec<i64>) -> (r:
    Vec<WideInt>)
    requires
        c1@.len() + secret@.len() <= usize::MAX,
        forall|j: int| c1@.len() < j < secret@.len() ==> #[trigger] secret@[j] == 0,
    ensures
        r@.len() == c1@.len(),
        forall|k: int|
            0 <= k < r@.len() ==> (#[trigger] r@[k])@ == centered_coeff(c1@, secret@, k, c1@.len() as int)
                + (if k < c0@.len() {
                c0@[k]@
            } else {
                0
            }),
{
    let mut phase = negacyclic_mul_centered(c1, secret);
    let mut k: usize = 0;
    while k < phase.len()
        invariant
            phase@.len() == c1@.len(),
            k <= phase@.len(),
            forall|kk: int|
                0 <= kk < phase@.len() ==> (#[trigger] phase@[kk])@ == centered_coeff(
                    c1@,
                    secret@,
                    kk,
                    c1@.len() as int,
                ) + (if kk < k && kk < c0@.len() {
                    c0@[kk]@
                } else {
                    0
                }),
        decreases phase@.len() - k,
    {
        if k < c0.len() {
            let updated = phase[k].plus(&c0[k]);
            phase.set(k, updated);
        }
        k += 1;
    }
    phase
}

/// `(−w) mod t`.
pub open spec fn negated_residue(w: int, t: int) -> int {
    (-w) % t
}

proof fn lemma_negated_residue(w: int, mag: int, t: int)
    requires
        t > 0,
        mag == int_abs(w),
    ensures
        negated_residue(w, t) == (if w < 0 {
            mag % t
        } else if mag % t == 0 {
            0
        } else {
            t - mag % t
        }),
{
    vstd::arithmetic::div_mod::lemma_fundamental_div_mod(mag, t);
    vstd::arithmetic::div_mod::lemma_mod_bound(mag, t);
    if w >= 0 {
        let q = mag / t;
        let r = mag % t;
        if r == 0 {
            assert(-w == (-q) * t + 0) by (nonlinear_arith)
                requires
                    w == t * q + r,
                    r == 0,
            ;
            vstd::arithmetic::div_mod::lemma_fundamental_div_mod_converse_mod(-w, t, -q, 0);
        } else {
            assert(-w == (-q - 1) * t + (t - r)) by (nonlinear_arith)
                requires
                    w == t * q + r,
            ;
            vstd::arithmetic::div_mod::lemma_fundamental_div_mod_converse_mod(-w, t, -q - 1, t - r);
        }
    }
}

/// Wrap counts around `Q` of raw phase coefficients, the corrections
/// `(−w · Q · f⁻¹) mod t` they call for, and the largest wrap count in size.
pub fn wrap_correction_coefficients(
    raw_coefficients: &Vec<WideInt>,
    q: &WideInt,
    plaintext_modulus: u64,
    factor_inv: u64,
) -> (r: (Vec<i64>, Vec<u64>, u64))
    requires
        q@ > 0,
        plaintext_modulus > 0,
        forall|k: int|
            0 <= k < raw_coefficients@.len() ==> i64::MIN <= centered_wrap(
                (#[trigger] raw_coefficients@[k])@,
                q@,
            ) <= i64::MAX,
    ensures
        ({
            let t = plaintext_modulus as int;
            let qf = ((q@ % t) * ((factor_inv as int) % t)) % t;
            &&& r.0@.len() == raw_coefficients@.len()
            &&& r.1@.len() == raw_coefficients@.len()
            &&& forall|k: int|
                0 <= k < raw_coefficients@.len() ==> #[trigger] r.0@[k] == centered_wrap(
                    raw_coefficients@[k]@,
                    q@,
                ) && r.1@[k] == (negated_residue(r.0@[k] as int, t) * qf) % t
            &&& forall|k: int| 0 <= k < raw_coefficients@.len() ==> int_abs(#[trigger] r.0@[k] as int) <= r.2
            &&& raw_coefficients@.len() == 0 ==> r.2 == 0
            &&& raw_coefficients@.len() > 0 ==> exists|k: int|
                0 <= k < raw_coefficients@.len() && r.2 == int_abs(#[trigger] r.0@[k] as int)
        }),
{
    let t = plaintext_modulus;
    let q_mod_t = bigint_mod_u64(q, t);
    let q_factor = crate::modarith::mul_mod(q_mod_t, factor_inv % t, t);
    let mut wrap_counts: Vec<i64> = Vec::new();
    let mut corrections: Vec<u64> = Vec::new();
    let mut max_abs: u64 = 0;
    let mut k: usize = 0;
    while k < raw_coefficients.len()
        invariant
            q@ > 0,
            t == plaintext_modulus,
            t > 0,
            q_factor == ((q@ % (t as int)) * ((factor_inv as int) % (t as int))) % (t as int),
            forall|kk: int|
                0 <= kk < raw_coefficients@.len() ==> i64::MIN <= centered_wrap(
                    (#[trigger] raw_coefficients@[kk])@,
                    q@,
                ) <= i64::MAX,
            k <= raw_coefficients@.len(),
            wrap_counts@.len() == k,
            corrections@.len() == k,
            forall|kk: int|
                0 <= kk < k ==> #[trigger] wrap_counts@[kk] == centered_wrap(raw_coefficients@[kk]@, q@)
                    && corrections@[kk] == (negated_residue(wrap_counts@[kk] as int, t as int)
                    * q_factor) % (t as int),
            forall|kk: int| 0 <= kk < k ==> int_abs(#[trigger] wrap_counts@[kk] as int) <= max_abs,
            k == 0 ==> max_abs == 0,
            k > 0 ==> exists|kk: int| 0 <= kk < k && max_abs == int_abs(#[trigger] wrap_counts@[kk] as int),
        decreases raw_coefficients@.len() - k,
    {
        let (_, wrap) = centered_residue_and_wrap(&raw_coefficients[k], q);
        let w = match wrap.to_i64() {
            Some(v) => v,
            None => 0,
        };
        let magnitude: u64 = if w < 0 {
            (0 - (w as i128)) as u64
        } else {
            w as u64
        };
        let ghost prev = max_abs;
        if magnitude > max_abs {
            max_abs = magnitude;
        }
        let reduced = magnitude % t;
        let signed: u64 = if w < 0 {
            reduced
        } else if reduced == 0 {
            0
        } else {
            t - reduced
        };
        proof {
            lemma_negated_residue(w as int, magnitude as int, t as int);
        }
        let correction = crate::modarith::mul_mod(signed, q_factor, t);
        let ghost before = wrap_counts@;
        wrap_counts.push(w);
        corrections.push(correction);
        proof {
            if max_abs == prev && k > 0 {
                let kk = choose|kk: int| 0 <= kk < k && prev == int_abs(#[trigger] before[kk] as int);
                assert(wrap_counts@[kk] == before[kk]);
                assert(max_abs == int_abs(wrap_counts@[kk] as int));
            } else {
                assert(max_abs == int_abs(wrap_counts@[k as int] as int));
            }
        }
        k += 1;
    }
    (wrap_counts, corrections, max_abs)
}

/// `Q mod t` for the chain product `Q = ∏ q_i`.
pub fn ciphertext_modulus_mod_plaintext(ciphertext_moduli: &Vec<u64>, plain_modulus: u64) -> (r: u64)
    requires
        plain_modulus > 0,
    ensures
        r == prefix_product(ciphertext_moduli@, ciphertext_moduli@.len() as int) % (plain_modulus as int),
{
    let q = moduli_product(ciphertext_moduli);
    bigint_mod_u64(&q, plain_modulus)
}

// ---------------------------------------------------------------------------
// Reduction audit
// ---------------------------------------------------------------------------

/// How a ciphertext's coefficient-wise reduction modulo `t` relates to its
/// true plaintext: the reduced components, the corrections, and the wraps
/// of the raw phase around `Q` that explain them.
#[derive(Debug)]
pub struct BgvBootstrapReductionAudit {
    pub raw_phase_coefficients: Vec<WideInt>,
    pub true_coefficients: Vec<u64>,
    pub component_reduced_coefficients: Vec<u64>,
    pub correction_coefficients: Vec<u64>,
    pub wrap_counts: Vec<i64>,
    pub wrap_correction_coefficients: Vec<u64>,
    pub nonzero_correction_count: usize,
    pub max_abs_wrap_count: u64,
    pub q_mod_plaintext: u64,
    pub factor_inverse: u64,
}

/// `s` with every coefficient multiplied by `f mod t`, modulo `t`.
pub open spec fn scaled_coefficients(s: Seq<u64>, f: int, t: int) -> Seq<u64> {
    Seq::new(s.len(), |k: int| ((s[k] * (f % t)) % t) as u64)
}

/// `(c1 · s + c0) mod t` coefficient-wise, over the degree of `c1`.
pub open spec fn reduced_component(c0: Seq<u64>, c1: Seq<u64>, secret: Seq<u64>, t: int, k: int) -> int {
    let nc = negacyclic_coeff(c1, secret, k, c1.len() as int) % t;
    if k < c0.len() {
        (nc + (c0[k] % (t as u64)) as int) % t
    } else {
        nc
    }
}

fn scale_coefficients(values: &Vec<u64>, scalar: u64, modulus: u64) -> (r: Vec<u64>)
    requires
        modulus > 0,
    ensures
        r@ == scaled_coefficients(values@, scalar as int, modulus as int),
{
    let factor = scalar % modulus;
    let mut out: Vec<u64> = Vec::new();
    let mut k: usize = 0;
    while k < values.len()
        invariant
            modulus > 0,
            factor == scalar % modulus,
            k <= values@.len(),
            out@.len() == k,
            forall|kk: int|
                0 <= kk < k ==> #[trigger] out@[kk] == scaled_coefficients(
                    values@,
                    scalar as int,
                    modulus as int,
                )[kk],
        decreases values@.len() - k,
    {
        out.push(crate::modarith::mul_mod(values[k], factor, modulus));
        k += 1;
    }
    proof {
        assert(out@ =~= scaled_coefficients(values@, scalar as int, modulus as int));
    }
    out
}

/// Audits the reduction of a two-component ciphertext with plaintext
/// factor `factor`: its components `c0`, `c1` and the secret `s` reduced
/// modulo `t`, its true (decrypted) coefficients and its raw phase over the
/// integers.  The components, scaled by the inverse factor, give
/// `c1 · s + c0 mod t`; the corrections are what turns that into the true
/// coefficients, and the wrap counts of the raw phase around `Q` explain
/// them.  Fails on a ciphertext of another size and on a factor with no
/// inverse modulo `t`.
#[verifier::rlimit(30)]
pub fn audit_bgv_bootstrap_reduction(
    component_count: usize,
    ciphertext_moduli: &Vec<u64>,
    plain_modulus: u64,
    factor: BgvPlaintextFactor,
    true_coefficients: Vec<u64>,
    raw_phase_coefficients: Vec<WideInt>,
    c0_coefficients: &Vec<u64>,
    c1_coefficients: &Vec<u64>,
    secret_coefficients: &Vec<u64>,
) -> (r: Result<BgvBootstrapReductionAudit, BgvLevelError>)
    requires
        plain_modulus > 0,
        forall|i: int| 0 <= i < ciphertext_moduli@.len() ==> #[trigger] ciphertext_moduli@[i] > 0,
        secret_coefficients@.len() <= c1_coefficients@.len(),
        c1_coefficients@.len() + secret_coefficients@.len() <= usize::MAX,
        forall|k: int|
            0 <= k < true_coefficients@.len() ==> #[trigger] true_coefficients@[k] + plain_modulus
                <= u64::MAX,
        forall|k: int|
            0 <= k < raw_phase_coefficients@.len() ==> i64::MIN <= centered_wrap(
                (#[trigger] raw_phase_coefficients@[k])@,
                prefix_product(ciphertext_moduli@, ciphertext_moduli@.len() as int),
            ) <= i64::MAX,
    ensures
        component_count != 2 ==> r == Err::<BgvBootstrapReductionAudit, BgvLevelError>(
            BgvLevelError::RecryptionCiphertextSize { actual: component_count },
        ),
        component_count == 2 && !has_mod_inverse(factor@ as int, plain_modulus as int) ==> r == Err::<
            BgvBootstrapReductionAudit,
            BgvLevelError,
        >(BgvLevelError::PlaintextFactorNotInvertible { factor: factor@, modulus: plain_modulus }),
        component_count == 2 && has_mod_inverse(factor@ as int, plain_modulus as int) ==> r is Ok && {
            let a = r->Ok_0;
            let t = plain_modulus as int;
            let q = prefix_product(ciphertext_moduli@, ciphertext_moduli@.len() as int);
            let finv = a.factor_inverse as int;
            let c0s = scaled_coefficients(c0_coefficients@, finv, t);
            let c1s = scaled_coefficients(c1_coefficients@, finv, t);
            let qf = ((q % t) * (finv % t)) % t;
            &&& is_mod_inverse(factor@ as int, finv, t)
            &&& a.raw_phase_coefficients@ == raw_phase_coefficients@
            &&& a.true_coefficients@ == true_coefficients@
            &&& a.component_reduced_coefficients@.len() == c1_coefficients@.len()
            &&& forall|k: int|
                0 <= k < c1_coefficients@.len() ==> #[trigger] a.component_reduced_coefficients@[k]
                    == reduced_component(c0s, c1s, secret_coefficients@, t, k)
            &&& a.correction_coefficients@.len() == (if true_coefficients@.len() < c1_coefficients@.len() {
                true_coefficients@.len()
            } else {
                c1_coefficients@.len()
            })
            &&& forall|k: int|
                0 <= k < a.correction_coefficients@.len() ==> #[trigger] a.correction_coefficients@[k]
                    == (true_coefficients@[k] + t - a.component_reduced_coefficients@[k]) % t
            &&& a.nonzero_correction_count == count_nonzero(
                a.correction_coefficients@,
                a.correction_coefficients@.len() as int,
            )
            &&& a.wrap_counts@.len() == raw_phase_coefficients@.len()
            &&& a.wrap_correction_coefficients@.len() == raw_phase_coefficients@.len()
            &&& forall|k: int|
                0 <= k < raw_phase_coefficients@.len() ==> #[trigger] a.wrap_counts@[k] == centered_wrap(
                    raw_phase_coefficients@[k]@,
                    q,
                ) && a.wrap_correction_coefficients@[k] == (negated_residue(a.wrap_counts@[k] as int, t)
                    * qf) % t
            &&& forall|k: int|
                0 <= k < raw_phase_coefficients@.len() ==> int_abs(#[trigger] a.wrap_counts@[k] as int)
                    <= a.max_abs_wrap_count
            &&& raw_phase_coefficients@.len() == 0 ==> a.max_abs_wrap_count == 0
            &&& raw_phase_coefficients@.len() > 0 ==> exists|k: int|
                0 <= k < raw_phase_coefficients@.len() && a.max_abs_wrap_count == int_abs(
                    #[trigger] a.wrap_counts@[k] as int,
                )
            &&& a.q_mod_plaintext == q % t
        },
{
    if component_count != 2 {
        return Err(BgvLevelError::RecryptionCiphertextSize { actual: component_count });
    }
    let t = plain_modulus;
    let factor_inverse = match factor.inverse_mod(t) {
        Ok(x) => x,
        Err(e) => {
            return Err(e);
        },
    };
    let q = moduli_product(ciphertext_moduli);
    proof {
        lemma_prefix_product_positive(ciphertext_moduli@, ciphertext_moduli@.len() as int);
    }
    let c0 = scale_coefficients(c0_coefficients, factor_inverse, t);
    let c1 = scale_coefficients(c1_coefficients, factor_inverse, t);
    proof {
        assert forall|i: int, j: int|
            0 <= i < c1@.len() && 0 <= j < secret_coefficients@.len() && i + j >= 2 * c1@.len() implies (
            #[trigger] c1@[i] * #[trigger] secret_coefficients@[j]) % (t as int) == 0 by {}
    }
    let mut component_reduced_coefficients = negacyclic_mul_mod(&c1, secret_coefficients, t);
    let ghost nc = component_reduced_coefficients@;
    add_coefficients_assign(&mut component_reduced_coefficients, &c0, t);
    proof {
        assert forall|kk: int| 0 <= kk < component_reduced_coefficients@.len() implies #[trigger] component_reduced_coefficients@[kk]
            < t by {
            vstd::arithmetic::div_mod::lemma_mod_bound(negacyclic_coeff(c1@, secret_coefficients@, kk, c1@.len() as int), t as int);
            if kk < c0@.len() {
                vstd::arithmetic::div_mod::lemma_mod_bound(nc[kk] + (c0@[kk] % t) as int, t as int);
            }
        }
    }
    let n = if true_coefficients.len() < component_reduced_coefficients.len() {
        true_coefficients.len()
    } else {
        component_reduced_coefficients.len()
    };
    let mut correction_coefficients: Vec<u64> = Vec::new();
    let mut nonzero_correction_count: usize = 0;
    let mut k: usize = 0;
    while k < n
        invariant
            t == plain_modulus,
            t > 0,
            n <= true_coefficients@.len(),
            n <= component_reduced_coefficients@.len(),
            forall|kk: int|
                0 <= kk < true_coefficients@.len() ==> #[trigger] true_coefficients@[kk] + plain_modulus
                    <= u64::MAX,
            k <= n,
            correction_coefficients@.len() == k,
            forall|kk: int|
                0 <= kk < k ==> #[trigger] correction_coefficients@[kk] == (true_coefficients@[kk] + t
                    - component_reduced_coefficients@[kk]) % (t as int),
            forall|kk: int|
                0 <= kk < component_reduced_coefficients@.len() ==> #[trigger] component_reduced_coefficients@[kk]
                    < t,
            nonzero_correction_count == count_nonzero(correction_coefficients@, k as int),
            nonzero_correction_count <= k,
        decreases n - k,
    {
        let reduced = component_reduced_coefficients[k];
        let c = (true_coefficients[k] + t - reduced) % t;
        let ghost before = correction_coefficients@;
        correction_coefficients.push(c);
        proof {
            assert(correction_coefficients@.take(k as int) == before);
            assert(count_nonzero(correction_coefficients@, k as int) == count_nonzero(before, k as int))
                by {
                lemma_count_nonzero_same(correction_coefficients@, before, k as int);
            }
        }
        if c != 0 {
            nonzero_correction_count += 1;
        }
        k += 1;
    }
    let (wrap_counts, wrap_correction_coefficients, max_abs_wrap_count) = wrap_correction_coefficients(
        &raw_phase_coefficients,
        &q,
        t,
        factor_inverse,
    );
    let q_mod_plaintext = bigint_mod_u64(&q, t);
    proof {
        assert forall|kk: int| 0 <= kk < c1_coefficients@.len() implies #[trigger] component_reduced_coefficients@[kk]
            == reduced_component(
            scaled_coefficients(c0_coefficients@, factor_inverse as int, t as int),
            scaled_coefficients(c1_coefficients@, factor_inverse as int, t as int),
            secret_coefficients@,
            t as int,
            kk,
        ) by {}
    }
    Ok(
        BgvBootstrapReductionAudit {
            raw_phase_coefficients,
            true_coefficients,
            component_reduced_coefficients,
            correction_coefficients,
            wrap_counts,
            wrap_correction_coefficients,
            nonzero_correction_count,
            max_abs_wrap_count,
            q_mod_plaintext,
            factor_inverse,
        },
    )
}

proof fn lemma_count_nonzero_same(a: Seq<u64>, b: Seq<u64>, n: int)
    requires
        0 <= n <= a.len(),
        n <= b.len(),
        forall|k: int| 0 <= k < n ==> a[k] == b[k],
    ensures
        count_nonzero(a, n) == count_nonzero(b, n),
    decreases n,
{
    if n > 0 {
        lemma_count_nonzero_same(a, b, n - 1);
    }
}

// ---------------------------------------------------------------------------
// Residue tuples
// ---------------------------------------------------------------------------

/// The wrap count of the raw phase with residues `residues`, `None` when no
/// interval holds it, or why it cannot be reconstructed.
pub open spec fn tuple_wrap_class(plan: BgvBootstrapCrtWrapReconstructionPlan, residues: Seq<u64>) -> Result<
    Option<i64>,
    BgvLevelError,
> {
    match coefficient_error(plan, residues) {
        Some(e) => Err(e),
        None => Ok(first_wrap_match(plan.wrap_interval_plan.intervals@, reconstructed(plan, residues), 0)),
    }
}

/// The wrap class of every residue tuple, in lexicographic order.
pub open spec fn plan_tuple_classes(plan: BgvBootstrapCrtWrapReconstructionPlan, count: int) -> Seq<
    Result<Option<i64>, BgvLevelError>,
> {
    Seq::new(
        count as nat,
        |i: int| tuple_wrap_class(plan, residue_tuple(plan.auxiliary_plain_moduli@, i)),
    )
}

/// For the raw phase with residues `residues`: its centered value modulo
/// the source ciphertext modulus `q`, reduced modulo `s`, and the raw phase
/// modulo the target modulus `u` (or why it cannot be reconstructed).
pub open spec fn tuple_phase_residue(
    plan: BgvBootstrapCrtWrapReconstructionPlan,
    residues: Seq<u64>,
    q: int,
    s: u64,
    u: u64,
) -> Result<(u64, u64), BgvLevelError> {
    match coefficient_error(plan, residues) {
        Some(e) => Err(e),
        None => {
            let raw = reconstructed(plan, residues);
            Ok(((centered(raw % q, q) % (s as int)) as u64, (raw % (u as int)) as u64))
        },
    }
}

/// The phase residues of every residue tuple, in lexicographic order.
pub open spec fn plan_tuple_phase_residues(
    plan: BgvBootstrapCrtWrapReconstructionPlan,
    count: int,
    q: int,
    s: u64,
    u: u64,
) -> Seq<Result<(u64, u64), BgvLevelError>> {
    Seq::new(
        count as nat,
        |i: int| tuple_phase_residue(plan, residue_tuple(plan.auxiliary_plain_moduli@, i), q, s, u),
    )
}

/// Reconstructs and classifies the raw phase of every residue tuple, in
/// lexicographic order.
pub fn crt_tuple_wrap_counts(plan: &BgvBootstrapCrtWrapReconstructionPlan, tuple_count: u64) -> (r: Vec<
    Result<Option<i64>, BgvLevelError>,
>)
    requires
        crt_plan_wf(*plan),
    ensures
        r@ == plan_tuple_classes(*plan, tuple_count as int),
{
    let mut out: Vec<Result<Option<i64>, BgvLevelError>> = Vec::new();
    let mut i: u64 = 0;
    while i < tuple_count
        invariant
            crt_plan_wf(*plan),
            i <= tuple_count,
            out@.len() == i,
            forall|k: int| 0 <= k < i ==> #[trigger] out@[k] == plan_tuple_classes(*plan, tuple_count as int)[k],
        decreases tuple_count - i,
    {
        let residues = same_field_crt_residue_tuple(&plan.auxiliary_plain_moduli, i);
        let class = match plan.reconstruct_centered_coefficient(&residues) {
            Ok(raw) => Ok(plan.wrap_interval_plan.classify(&raw)),
            Err(e) => Err(e),
        };
        out.push(class);
        i += 1;
    }
    proof {
        assert(out@ =~= plan_tuple_classes(*plan, tuple_count as int));
    }
    out
}

/// For every residue tuple, in lexicographic order: the centered source
/// phase modulo `s` and the raw phase modulo the target modulus `u`.
pub fn crt_tuple_phase_residues(
    plan: &BgvBootstrapCrtWrapReconstructionPlan,
    tuple_count: u64,
    source_ciphertext_moduli: &Vec<u64>,
    source_plain_modulus: u64,
    target_plain_modulus: u64,
) -> (r: Vec<Result<(u64, u64), BgvLevelError>>)
    requires
        crt_plan_wf(*plan),
        source_plain_modulus > 0,
        target_plain_modulus > 0,
        forall|i: int|
            0 <= i < source_ciphertext_moduli@.len() ==> #[trigger] source_ciphertext_moduli@[i] > 0,
    ensures
        r@ == plan_tuple_phase_residues(
            *plan,
            tuple_count as int,
            prefix_product(source_ciphertext_moduli@, source_ciphertext_moduli@.len() as int),
            source_plain_modulus,
            target_plain_modulus,
        ),
{
    let ghost q = prefix_product(source_ciphertext_moduli@, source_ciphertext_moduli@.len() as int);
    let source_q = moduli_product(source_ciphertext_moduli);
    proof {
        lemma_prefix_product_positive(source_ciphertext_moduli@, source_ciphertext_moduli@.len() as int);
    }
    let mut out: Vec<Result<(u64, u64), BgvLevelError>> = Vec::new();
    let mut i: u64 = 0;
    while i < tuple_count
        invariant
            crt_plan_wf(*plan),
            source_plain_modulus > 0,
            target_plain_modulus > 0,
            q == source_q@,
            q > 0,
            i <= tuple_count,
            out@.len() == i,
            forall|k: int|
                0 <= k < i ==> #[trigger] out@[k] == plan_tuple_phase_residues(
                    *plan,
                    tuple_count as int,
                    q,
                    source_plain_modulus,
                    target_plain_modulus,
                )[k],
        decreases tuple_count - i,
    {
        let residues = same_field_crt_residue_tuple(&plan.auxiliary_plain_moduli, i);
        let entry = match plan.reconstruct_centered_coefficient(&residues) {
            Ok(raw) => {
                let (centered_phase, _) = centered_residue_and_wrap(&raw, &source_q);
                Ok(
                    (
                        bigint_mod_u64(&centered_phase, source_plain_modulus),
                        bigint_mod_u64(&raw, target_plain_modulus),
                    ),
                )
            },
            Err(e) => Err(e),
        };
        out.push(entry);
        i += 1;
    }
    proof {
        assert(out@ =~= plan_tuple_phase_residues(
            *plan,
            tuple_count as int,
            q,
            source_plain_modulus,
            target_plain_modulus,
        ));
    }
    out
}

// ---------------------------------------------------------------------------
// Same-field classifiers of a CRT plan
// ---------------------------------------------------------------------------

/// The wrap-count classifier of a CRT wrap-reconstruction plan over a
/// classifier plaintext space (degree, modulus `t`): every residue tuple is
/// reconstructed and classified by the plan, and the classifier is built
/// from those classes.
pub fn bgv_bootstrap_same_field_crt_wrap_classifier(
    classifier_degree: usize,
    classifier_plain_modulus: u64,
    crt_plan: &BgvBootstrapCrtWrapReconstructionPlan,
) -> (r: Result<BgvBootstrapSameFieldCrtWrapClassifier, BgvLevelError>)
    requires
        classifier_plain_modulus > 0,
        crt_plan_wf(*crt_plan),
        tuple_count_ok(classifier_plain_modulus, crt_plan.auxiliary_plain_moduli@) ==> forall|i: int|
            0 <= i < crt_plan.auxiliary_plain_moduli@.len() ==> #[trigger] crt_plan.auxiliary_plain_moduli@[i]
                < usize::MAX,
    ensures
        crt_wrap_classifier_outcome(
            r,
            classifier_degree,
            classifier_plain_modulus,
            crt_plan.degree,
            crt_plan.auxiliary_plain_moduli@,
            crt_plan.max_abs_wrap_count,
            plan_tuple_classes(
                *crt_plan,
                prefix_product(
                    crt_plan.auxiliary_plain_moduli@,
                    crt_plan.auxiliary_plain_moduli@.len() as int,
                ),
            ),
        ),
{
    let classes = match same_field_crt_tuple_count(classifier_plain_modulus, &crt_plan.auxiliary_plain_moduli) {
        Ok(count) => crt_tuple_wrap_counts(crt_plan, count),
        Err(_) => Vec::new(),
    };
    same_field_crt_wrap_classifier_from_classes(
        classifier_degree,
        classifier_plain_modulus,
        crt_plan.degree,
        &crt_plan.auxiliary_plain_moduli,
        crt_plan.max_abs_wrap_count,
        &classes,
    )
}

/// The plaintext-modulus-switch correction classifier of a CRT plan: every
/// residue tuple is reconstructed by the plan, centered modulo the source
/// ciphertext modulus `Q` (product of `source_ciphertext_moduli`) and read
/// modulo `s` and the target modulus, and the classifier is built from
/// those residues.
pub fn bgv_bootstrap_same_field_plaintext_modulus_switch_correction_classifier(
    source_degree: usize,
    source_ciphertext_moduli: &Vec<u64>,
    source_plain_modulus: u64,
    source_factor: BgvPlaintextFactor,
    classifier_degree: usize,
    classifier_plain_modulus: u64,
    target_degree: usize,
    target_plain_modulus: u64,
    crt_plan: &BgvBootstrapCrtWrapReconstructionPlan,
) -> (r: Result<BgvBootstrapSameFieldPlaintextModulusSwitchCorrectionClassifier, BgvLevelError>)
    requires
        source_plain_modulus > 0,
        classifier_plain_modulus > 0,
        target_plain_modulus > 0,
        crt_plan_wf(*crt_plan),
        forall|i: int|
            0 <= i < source_ciphertext_moduli@.len() ==> #[trigger] source_ciphertext_moduli@[i] > 0,
        tuple_count_ok(classifier_plain_modulus, crt_plan.auxiliary_plain_moduli@) ==> forall|i: int|
            0 <= i < crt_plan.auxiliary_plain_moduli@.len() ==> #[trigger] crt_plan.auxiliary_plain_moduli@[i]
                < usize::MAX,
    ensures
        modulus_switch_classifier_outcome(
            r,
            source_degree,
            source_plain_modulus,
            source_factor,
            classifier_degree,
            classifier_plain_modulus,
            target_degree,
            target_plain_modulus,
            crt_plan.degree,
            crt_plan.auxiliary_plain_moduli@,
            plan_tuple_phase_residues(
                *crt_plan,
                prefix_product(
                    crt_plan.auxiliary_plain_moduli@,
                    crt_plan.auxiliary_plain_moduli@.len() as int,
                ),
                prefix_product(source_ciphertext_moduli@, source_ciphertext_moduli@.len() as int),
                source_plain_modulus,
                target_plain_modulus,
            ),
        ),
{
    let residues = match same_field_crt_tuple_count(classifier_plain_modulus, &crt_plan.auxiliary_plain_moduli) {
        Ok(count) => crt_tuple_phase_residues(
            crt_plan,
            count,
            source_ciphertext_moduli,
            source_plain_modulus,
            target_plain_modulus,
        ),
        Err(_) => Vec::new(),
    };
    same_field_plaintext_modulus_switch_correction_classifier_from_residues(
        source_degree,
        source_plain_modulus,
        source_factor,
        classifier_degree,
        classifier_plain_modulus,
        target_degree,
        target_plain_modulus,
        crt_plan.degree,
        &crt_plan.auxiliary_plain_moduli,
        &residues,
    )
}

/// Per coefficient of a raw phase given by its residues: the centered
/// phase modulo `q` reduced modulo `s`, and the raw phase modulo `u`; or
/// why the phase cannot be reconstructed.
pub open spec fn plan_phase_residue_result(
    plan: BgvBootstrapCrtWrapReconstructionPlan,
    residues_by_coefficient: Seq<Vec<u64>>,
    q: int,
    s: u64,
    u: u64,
) -> Result<Seq<(u64, u64)>, BgvLevelError> {
    if residues_by_coefficient.len() != plan.degree {
        Err(
            BgvLevelError::BootstrapCrtCoefficientCountMismatch {
                expected: plan.degree,
                actual: residues_by_coefficient.len() as usize,
            },
        )
    } else {
        match phase_error(plan, residues_by_coefficient, 0) {
            Some(e) => Err(e),
            None => Ok(
                Seq::new(
                    residues_by_coefficient.len(),
                    |k: int|
                        {
                            let raw = reconstructed(plan, residues_by_coefficient[k]@);
                            ((centered(raw % q, q) % (s as int)) as u64, (raw % (u as int)) as u64)
                        },
                ),
            ),
        }
    }
}

/// Audits the plaintext-modulus switch of a source ciphertext (degree,
/// ciphertext moduli with product `Q`, plaintext modulus `s`, plaintext
/// factor) to a target plaintext modulus `u`, from the CRT residues of its
/// raw phase: the plan reconstructs every coefficient, which is centered
/// modulo `Q` and compared to the raw phase modulo `u`.
pub fn audit_bgv_bootstrap_plaintext_modulus_switch_correction_from_crt_residues(
    source_degree: usize,
    source_ciphertext_moduli: &Vec<u64>,
    source_plain_modulus: u64,
    source_factor: BgvPlaintextFactor,
    target_degree: usize,
    target_plain_modulus: u64,
    crt_plan: &BgvBootstrapCrtWrapReconstructionPlan,
    residues_by_coefficient: &Vec<Vec<u64>>,
) -> (r: Result<BgvBootstrapPlaintextModulusSwitchCorrectionAudit, BgvLevelError>)
    requires
        source_plain_modulus > 0,
        target_plain_modulus > 0,
        crt_plan_wf(*crt_plan),
        forall|i: int|
            0 <= i < source_ciphertext_moduli@.len() ==> #[trigger] source_ciphertext_moduli@[i] > 0,
    ensures
        modulus_switch_audit_outcome(
            r,
            source_degree,
            source_plain_modulus,
            source_factor,
            target_degree,
            target_plain_modulus,
            crt_plan.degree,
            plan_phase_residue_result(
                *crt_plan,
                residues_by_coefficient@,
                prefix_product(source_ciphertext_moduli@, source_ciphertext_moduli@.len() as int),
                source_plain_modulus,
                target_plain_modulus,
            ),
        ),
{
    let ghost q = prefix_product(source_ciphertext_moduli@, source_ciphertext_moduli@.len() as int);
    let source_q = moduli_product(source_ciphertext_moduli);
    proof {
        lemma_prefix_product_positive(source_ciphertext_moduli@, source_ciphertext_moduli@.len() as int);
    }
    let phase_residues: Result<Vec<(u64, u64)>, BgvLevelError> = match crt_plan.reconstruct_centered_phase(
        residues_by_coefficient,
    ) {
        Ok(raw) => {
            let mut pairs: Vec<(u64, u64)> = Vec::new();
            let mut k: usize = 0;
            while k < raw.len()
                invariant
                    source_plain_modulus > 0,
                    target_plain_modulus > 0,
                    q == source_q@,
                    q > 0,
                    raw@.len() == residues_by_coefficient@.len(),
                    forall|kk: int|
                        0 <= kk < raw@.len() ==> (#[trigger] raw@[kk])@ == reconstructed(
                            *crt_plan,
                            residues_by_coefficient@[kk]@,
                        ),
                    k <= raw@.len(),
                    pairs@.len() == k,
                    forall|kk: int|
                        0 <= kk < k ==> #[trigger] pairs@[kk] == (
                            (centered(raw@[kk]@ % q, q) % (source_plain_modulus as int)) as u64,
                            (raw@[kk]@ % (target_plain_modulus as int)) as u64,
                        ),
                decreases raw@.len() - k,
            {
                let (centered_phase, _) = centered_residue_and_wrap(&raw[k], &source_q);
                pairs.push(
                    (
                        bigint_mod_u64(&centered_phase, source_plain_modulus),
                        bigint_mod_u64(&raw[k], target_plain_modulus),
                    ),
                );
                k += 1;
            }
            Ok(pairs)
        },
        Err(e) => Err(e),
    };
    proof {
        if phase_residues is Ok {
            {
                assert(phase_residues->Ok_0@ =~= plan_phase_residue_result(
                    *crt_plan,
                    residues_by_coefficient@,
                    q,
                    source_plain_modulus,
                    target_plain_modulus,
                )->Ok_0);
            }
        }
    }
    audit_bgv_bootstrap_plaintext_modulus_switch_correction_from_phase_residues(
        source_degree,
        source_plain_modulus,
        source_factor,
        target_degree,
        target_plain_modulus,
        crt_plan.degree,
        &phase_residues,
    )
}

} // verus!
