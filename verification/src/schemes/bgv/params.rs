//! BGV level errors and the modulus-switching tables derived from the
//! ciphertext modulus chain `q_0, …, q_{L-1}` and the plaintext modulus `t`.

use vstd::prelude::*;

use crate::modarith::{
    centered, centered_residue_mod_modulus, is_mod_inverse, has_mod_inverse, mod_inverse, mul_mod,
    lemma_mod_inverse_unique,
};

verus! {

/// Errors raised by the BGV level, key, slot and bootstrap logic.
#[allow(inconsistent_fields)]
#[derive(Clone, Copy, Debug, PartialEq, Eq, Structural)]
pub enum BgvLevelError {
    EmptyCiphertextModulus,
    TooManyCiphertextModuli { requested: usize, available: usize },
    CiphertextDegreeMismatch { expected: usize, actual: usize },
    CiphertextLimbMismatch { expected: usize, actual: usize },
    CiphertextLevelMismatch { left: usize, right: usize },
    CiphertextPlaintextModulusMismatch { expected: u64, actual: u64 },
    CiphertextModulusChainMismatch,
    EvaluationKeyLevelMismatch { expected: usize, actual: usize },
    PublicKeySizeMismatch { actual: usize },
    ProxyReencryptionCiphertextSize { actual: usize },
    RecryptionCiphertextSize { actual: usize },
    BootstrapCarryBoundTooLarge { bound: u64, modulus: u64 },
    BootstrapCarryInterpolationDenominatorNotInvertible { denominator: u64, modulus: u64 },
    BootstrapCrtPrimeSearchFailed { bits: u32, step: u64 },
    BootstrapCrtCoefficientCountMismatch { expected: usize, actual: usize },
    BootstrapCrtResidueCountMismatch { expected: usize, actual: usize },
    BootstrapCrtReconstructionOutOfRange { coefficient: usize },
    BootstrapCrtModulusProductTooSmall { product_bits: u64, required_bits: u64 },
    BootstrapSingleModulusClassifierCoverageTooSmall { modulus: u64, required: u64 },
    BootstrapClassifierLookupTooLarge { modulus: u64, max_points: u64 },
    BootstrapSameFieldCrtResidueModulusTooLarge { classifier_modulus: u64, residue_modulus: u64 },
    BootstrapSameFieldDecodeSourceModulusTooLarge { fusion_modulus: u64, source_modulus: u64 },
    BootstrapSameFieldCrtTupleCountTooLarge { tuple_count: u64, max_tuples: u64 },
    BootstrapFusionToSourceBridgeRequiresNoiseCorrection { fusion_modulus: u64, source_modulus: u64 },
    BootstrapFusionNoiseScaleOverflow { fusion_modulus: u64, source_modulus: u64 },
    BootstrapFusionErrorScaleNotPlaintextMultiple { error_scalar: u64, plain_modulus: u64 },
    MissingGaloisKey { index: u32 },
    EmptyMulManyInput,
    EmptyLinearCombinationInput,
    LinearCombinationLengthMismatch { ciphertexts: usize, plaintexts: usize },
    EmptyPolynomialEvaluation,
    EmptySlotLinearTransformMatrix,
    SlotLinearTransformRowCountMismatch { expected: usize, actual: usize },
    SlotLinearTransformColumnCountMismatch { row: usize, expected: usize, actual: usize },
    InvalidSlotMatrixDimensions { rows: usize, columns: usize, slots: usize },
    EmptySlotMergeInput,
    SlotRotationUnsupported { rotation: i32, slots: usize },
    SlotIndexOutOfRange { slot: usize, slots: usize },
    InvalidActiveSlotCount { requested: usize, available: usize },
    SlotMergeInputCountExceeded { requested: usize, available: usize },
    EmptyDiagonalTransform,
    PlaintextDegreeMismatch { expected: usize, actual: usize },
    PlaintextLimbMismatch { expected: usize, actual: usize },
    InvalidGaloisElement { element: u32, modulus: u64 },
    PlaintextFactorNotInvertible { factor: u64, modulus: u64 },
}

/// One modulus-switching step: dropping `q_{target}` from a chain of
/// `source_q_limbs = target_q_limbs + 1` moduli.
#[derive(Clone, Debug)]
pub struct BgvModSwitchStep {
    pub source_q_limbs: usize,
    pub target_q_limbs: usize,
    pub dropped_modulus: u64,
    pub t_inv_mod_dropped: u64,
    pub dropped_inv_mod_targets: Vec<u64>,
}

/// Precomputed modulus-switching constants for a whole chain.
#[derive(Clone, Debug)]
pub struct BgvModSwitchTables {
    pub q_limbs: usize,
    pub steps_by_source_limbs: Vec<BgvModSwitchStep>,
    pub factor_inv_by_target_limbs: Vec<u64>,
}

/// `∏_{k ≥ from} (q_k mod t)` reduced modulo `t` (the empty product is 1):
/// the scale a plaintext picks up when the moduli `q_from, …` are dropped.
pub open spec fn dropped_product(moduli: Seq<u64>, from: int, t: int) -> int
    decreases moduli.len() - from,
{
    if from >= moduli.len() || from < 0 {
        1
    } else {
        (dropped_product(moduli, from + 1, t) * ((moduli[from] as int) % t)) % t
    }
}

/// The chain admits all switching tables: `t` is invertible modulo every
/// dropped prime, every dropped prime is invertible modulo the primes kept
/// below it, and every dropped product is invertible modulo `t`.
pub open spec fn mod_switch_chain_ok(moduli: Seq<u64>, t: u64) -> bool {
    &&& t > 0
    &&& forall|j: int| 0 <= j < moduli.len() ==> moduli[j] > 0
    &&& forall|j: int| 1 <= j < moduli.len() ==> has_mod_inverse(
        (t % moduli[j]) as int,
        moduli[j] as int,
    )
    &&& forall|i: int, j: int|
        0 <= i < j < moduli.len() ==> has_mod_inverse(
            (moduli[j] % moduli[i]) as int,
            moduli[i] as int,
        )
    &&& forall|k: int| 0 <= k < moduli.len() ==> has_mod_inverse(
        dropped_product(moduli, k, t as int),
        t as int,
    )
}

/// Correctness of one switching step for the chain.
pub open spec fn step_ok(step: BgvModSwitchStep, moduli: Seq<u64>, t: u64, i: int) -> bool {
    &&& step.source_q_limbs == i + 2
    &&& step.target_q_limbs == i + 1
    &&& step.dropped_modulus == moduli[i + 1]
    &&& is_mod_inverse(
        (t % moduli[i + 1]) as int,
        step.t_inv_mod_dropped as int,
        moduli[i + 1] as int,
    )
    &&& step.dropped_inv_mod_targets@.len() == i + 1
    &&& forall|j: int|
        0 <= j <= i ==> is_mod_inverse(
            (moduli[i + 1] % moduli[j]) as int,
            #[trigger] step.dropped_inv_mod_targets@[j] as int,
            moduli[j] as int,
        )
}

/// Correctness of the whole table set for the chain.
pub open spec fn tables_ok(tables: BgvModSwitchTables, moduli: Seq<u64>, t: u64) -> bool {
    &&& tables.q_limbs == moduli.len()
    &&& tables.steps_by_source_limbs@.len() == if moduli.len() >= 2 {
        moduli.len() - 1
    } else {
        0
    }
    &&& forall|i: int|
        0 <= i < tables.steps_by_source_limbs@.len() ==> step_ok(
            #[trigger] tables.steps_by_source_limbs@[i],
            moduli,
            t,
            i,
        )
    &&& tables.factor_inv_by_target_limbs@.len() == moduli.len() + 1
    &&& tables.factor_inv_by_target_limbs@[moduli.len() as int] == 1
    &&& forall|k: int|
        0 <= k < moduli.len() ==> is_mod_inverse(
            dropped_product(moduli, k, t as int),
            #[trigger] tables.factor_inv_by_target_limbs@[k] as int,
            t as int,
        )
}

fn build_mod_switch_step(moduli: &Vec<u64>, t: u64, i: usize) -> (step: BgvModSwitchStep)
    requires
        mod_switch_chain_ok(moduli@, t),
        i + 1 < moduli.len(),
    ensures
        step_ok(step, moduli@, t, i as int),
{
    let target_q_limbs = i + 1;
    let dropped_modulus = moduli[target_q_limbs];
    let t_inv_mod_dropped = match mod_inverse(t % dropped_modulus, dropped_modulus) {
        Some(x) => x,
        None => {
            proof {
                assert(has_mod_inverse((t % moduli@[i + 1]) as int, moduli@[i + 1] as int));
            }
            0
        },
    };
    let mut dropped_inv_mod_targets: Vec<u64> = Vec::new();
    let mut j: usize = 0;
    while j < target_q_limbs
        invariant
            mod_switch_chain_ok(moduli@, t),
            i + 1 < moduli@.len(),
            target_q_limbs == i + 1,
            dropped_modulus == moduli@[i + 1],
            j <= target_q_limbs,
            dropped_inv_mod_targets@.len() == j,
            forall|jj: int|
                0 <= jj < j ==> is_mod_inverse(
                    (moduli@[i + 1] % moduli@[jj]) as int,
                    #[trigger] dropped_inv_mod_targets@[jj] as int,
                    moduli@[jj] as int,
                ),
        decreases target_q_limbs - j,
    {
        let qj = moduli[j];
        let inv = match mod_inverse(dropped_modulus % qj, qj) {
            Some(x) => x,
            None => {
                proof {
                    assert(has_mod_inverse(
                        (moduli@[i + 1] % moduli@[j as int]) as int,
                        moduli@[j as int] as int,
                    ));
                }
                0
            },
        };
        dropped_inv_mod_targets.push(inv);
        j += 1;
    }
    BgvModSwitchStep {
        source_q_limbs: target_q_limbs + 1,
        target_q_limbs,
        dropped_modulus,
        t_inv_mod_dropped,
        dropped_inv_mod_targets,
    }
}

impl BgvModSwitchTables {
    /// Builds every switching step and the inverse scale factor left on the
    /// plaintext after dropping down to each prefix of the chain.
    pub fn new(moduli: &Vec<u64>, plain_modulus: u64) -> (r: Self)
        requires
            mod_switch_chain_ok(moduli@, plain_modulus),
            moduli.len() < usize::MAX,
        ensures
            tables_ok(r, moduli@, plain_modulus),
    {
        let q_limbs = moduli.len();
        let mut steps_by_source_limbs: Vec<BgvModSwitchStep> = Vec::new();
        let mut i: usize = 0;
        let n_steps: usize = if q_limbs >= 2 {
            q_limbs - 1
        } else {
            0
        };
        while i < n_steps
            invariant
                mod_switch_chain_ok(moduli@, plain_modulus),
                q_limbs == moduli@.len(),
                n_steps == (if q_limbs >= 2 {
                    q_limbs - 1
                } else {
                    0
                }),
                i <= n_steps,
                steps_by_source_limbs@.len() == i,
                forall|ii: int|
                    0 <= ii < i ==> step_ok(
                        #[trigger] steps_by_source_limbs@[ii],
                        moduli@,
                        plain_modulus,
                        ii,
                    ),
            decreases n_steps - i,
        {
            let step = build_mod_switch_step(moduli, plain_modulus, i);
            steps_by_source_limbs.push(step);
            i += 1;
        }

        let mut factor_inv_by_target_limbs: Vec<u64> = Vec::new();
        let mut k: usize = 0;
        while k <= q_limbs
            invariant
                q_limbs == moduli@.len(),
                q_limbs < usize::MAX,
                k <= q_limbs + 1,
                factor_inv_by_target_limbs@.len() == k,
                forall|kk: int| 0 <= kk < k ==> #[trigger] factor_inv_by_target_limbs@[kk] == 1,
            decreases q_limbs + 1 - k,
        {
            factor_inv_by_target_limbs.push(1);
            k += 1;
        }

        let mut dropped_product_acc: u64 = 1;
        let mut target: usize = q_limbs;
        while target > 0
            invariant
                mod_switch_chain_ok(moduli@, plain_modulus),
                q_limbs == moduli@.len(),
                target <= q_limbs,
                factor_inv_by_target_limbs@.len() == q_limbs + 1,
                factor_inv_by_target_limbs@[q_limbs as int] == 1,
                dropped_product_acc as int == dropped_product(moduli@, target as int, plain_modulus as int),
                forall|kk: int|
                    target <= kk < q_limbs ==> is_mod_inverse(
                        dropped_product(moduli@, kk, plain_modulus as int),
                        #[trigger] factor_inv_by_target_limbs@[kk] as int,
                        plain_modulus as int,
                    ),
            decreases target,
        {
            target -= 1;
            dropped_product_acc = mul_mod(
                dropped_product_acc,
                moduli[target] % plain_modulus,
                plain_modulus,
            );
            let inv = match mod_inverse(dropped_product_acc, plain_modulus) {
                Some(x) => x,
                None => {
                    proof {
                        assert(has_mod_inverse(
                            dropped_product(moduli@, target as int, plain_modulus as int),
                            plain_modulus as int,
                        ));
                    }
                    0
                },
            };
            factor_inv_by_target_limbs.set(target, inv);
        }
        BgvModSwitchTables { q_limbs, steps_by_source_limbs, factor_inv_by_target_limbs }
    }

    /// The switching step that drops the top modulus of a `source_q_limbs`
    /// chain; fails unless `2 <= source_q_limbs <= q_limbs`.
    pub fn mod_switch_step_for_source_limbs(&self, source_q_limbs: usize) -> (r: Result<
        &BgvModSwitchStep,
        BgvLevelError,
    >)
        requires
            self.steps_by_source_limbs@.len() == (if self.q_limbs >= 2 {
                self.q_limbs - 1
            } else {
                0
            }),
        ensures
            source_q_limbs < 2 ==> r is Err && r->Err_0 == (BgvLevelError::TooManyCiphertextModuli {
                requested: (if source_q_limbs >= 1 {
                    source_q_limbs - 1
                } else {
                    0
                }) as usize,
                available: source_q_limbs,
            }),
            source_q_limbs >= 2 && source_q_limbs > self.q_limbs ==> r is Err && r->Err_0
                == (BgvLevelError::TooManyCiphertextModuli {
                requested: source_q_limbs,
                available: self.q_limbs,
            }),
            2 <= source_q_limbs <= self.q_limbs ==> r is Ok && *r->Ok_0
                == self.steps_by_source_limbs@[source_q_limbs - 2],
    {
        if source_q_limbs < 2 {
            return Err(
                BgvLevelError::TooManyCiphertextModuli {
                    requested: source_q_limbs.saturating_sub(1),
                    available: source_q_limbs,
                },
            );
        }
        if source_q_limbs > self.q_limbs {
            return Err(
                BgvLevelError::TooManyCiphertextModuli {
                    requested: source_q_limbs,
                    available: self.q_limbs,
                },
            );
        }
        Ok(&self.steps_by_source_limbs[source_q_limbs - 2])
    }

    /// Inverse of the scale picked up by the plaintext when the chain is cut
    /// down to `target_q_limbs` moduli.
    pub fn mod_switch_factor_inv_to_q_limbs(&self, target_q_limbs: usize) -> (r: Result<
        u64,
        BgvLevelError,
    >)
        requires
            self.factor_inv_by_target_limbs@.len() == self.q_limbs + 1,
        ensures
            target_q_limbs == 0 ==> r == Err::<u64, BgvLevelError>(
                BgvLevelError::EmptyCiphertextModulus,
            ),
            target_q_limbs > self.q_limbs ==> r == Err::<u64, BgvLevelError>(
                BgvLevelError::TooManyCiphertextModuli {
                    requested: target_q_limbs,
                    available: self.q_limbs,
                },
            ),
            0 < target_q_limbs <= self.q_limbs ==> r == Ok::<u64, BgvLevelError>(
                self.factor_inv_by_target_limbs@[target_q_limbs as int],
            ),
    {
        if target_q_limbs == 0 {
            return Err(BgvLevelError::EmptyCiphertextModulus);
        }
        if target_q_limbs > self.q_limbs {
            return Err(
                BgvLevelError::TooManyCiphertextModuli {
                    requested: target_q_limbs,
                    available: self.q_limbs,
                },
            );
        }
        Ok(self.factor_inv_by_target_limbs[target_q_limbs])
    }
}

/// Bit length of a modulus: `64 − leading_zeros(value)`.
pub fn modulus_bits(value: u64) -> (r: u16)
    ensures
        r <= 64,
        value == 0 ==> r == 0,
        value > 0 ==> vstd::arithmetic::power2::pow2((r - 1) as nat) <= value
            < vstd::arithmetic::power2::pow2(r as nat),
{
    let mut bits: u16 = 0;
    let mut v: u64 = value;
    proof {
        vstd::arithmetic::power2::lemma2_to64();
    }
    while v > 0
        invariant
            bits <= 64,
            v as int * vstd::arithmetic::power2::pow2(bits as nat) <= value,
            value < (v as int + 1) * vstd::arithmetic::power2::pow2(bits as nat),
            v < vstd::arithmetic::power2::pow2((64 - bits) as nat),
            v <= value,
            bits > 0 ==> vstd::arithmetic::power2::pow2((bits - 1) as nat) <= value,
        decreases v,
    {
        proof {
            vstd::arithmetic::power2::lemma_pow2_adds(bits as nat, 1);
            vstd::arithmetic::power2::lemma_pow2_pos(bits as nat);
            vstd::arithmetic::power2::lemma2_to64();
            let p = vstd::arithmetic::power2::pow2(bits as nat);
            let h = v / 2;
            assert(v == 2 * h + v % 2);
            assert(p <= value) by (nonlinear_arith)
                requires
                    v * p <= value,
                    v >= 1,
                    p > 0,
            ;
            assert(h * (2 * p) <= value) by (nonlinear_arith)
                requires
                    v * p <= value,
                    v == 2 * h + v % 2,
                    p > 0,
                    v % 2 >= 0,
            ;
            assert(value < (h + 1) * (2 * p)) by (nonlinear_arith)
                requires
                    value < (v + 1) * p,
                    v == 2 * h + v % 2,
                    p > 0,
                    v % 2 <= 1,
            ;
            if bits == 64 {
                assert(v < 1);
            }
            vstd::arithmetic::power2::lemma_pow2_adds((63 - bits) as nat, 1);
        }
        v = v / 2;
        bits = bits + 1;
    }
    proof {
        vstd::arithmetic::power2::lemma2_to64();
        assert(v == 0);
        let p = vstd::arithmetic::power2::pow2(bits as nat);
        assert((v as int + 1) * p == p) by (nonlinear_arith)
            requires
                v == 0,
        ;
        assert(value < p);
        if bits > 0 {
            vstd::arithmetic::power2::lemma_pow2_pos((bits - 1) as nat);
        }
        if bits == 0 {
            assert(vstd::arithmetic::power2::pow2(0) == 1);
            assert(value == 0);
        }
    }
    bits
}

/// Inverses in the tables are the only ones: any inverse of a dropped
/// product equals the tabulated factor.
pub proof fn lemma_factor_inverse_is_unique(
    tables: BgvModSwitchTables,
    moduli: Seq<u64>,
    t: u64,
    k: int,
    x: int,
)
    requires
        tables_ok(tables, moduli, t),
        0 <= k < moduli.len(),
        is_mod_inverse(dropped_product(moduli, k, t as int), x, t as int),
    ensures
        x == tables.factor_inv_by_target_limbs@[k] as int,
{
    lemma_mod_inverse_unique(
        dropped_product(moduli, k, t as int),
        x,
        tables.factor_inv_by_target_limbs@[k] as int,
        t as int,
    );
}

// ---------------------------------------------------------------------------
// Modulus switching of a polynomial
// ---------------------------------------------------------------------------

/// `−r · t⁻¹ mod q_L` for the residue `r` modulo the dropped prime `q_L`:
/// the multiple of `t` that clears that residue.
pub open spec fn mod_switch_correction(dropped_residue: u64, step: BgvModSwitchStep) -> int {
    let q = step.dropped_modulus as int;
    let neg = if dropped_residue == 0 {
        0
    } else {
        q - dropped_residue
    };
    (neg * (step.t_inv_mod_dropped as int)) % q
}

/// The switched residue modulo the kept prime `q`: the residue `r` plus
/// `t` times the centered correction, divided by `q_L` modulo `q`.
pub open spec fn mod_switch_residue(r: u64, q: u64, plain_modulus: u64, correction: int, dropped_modulus: u64, dropped_inv: u64) -> int {
    let cq = centered(correction, dropped_modulus as int) % (q as int);
    ((((r as int) + (plain_modulus as int) * cq) % (q as int)) * (dropped_inv as int)) % (q as int)
}

/// Switches a polynomial held as `source_q_limbs` residue limbs (each of
/// `degree` coefficients) down by one modulus: the last limb, modulo the
/// dropped prime `q_L`, is cleared by adding `t` times a centered
/// correction, and the kept limbs are divided by `q_L`.
pub fn mod_switch_poly_down_one(
    source_limbs: &Vec<Vec<u64>>,
    target_moduli: &Vec<u64>,
    degree: usize,
    plain_modulus: u64,
    step: &BgvModSwitchStep,
) -> (out: Vec<Vec<u64>>)
    requires
        source_limbs@.len() == step.source_q_limbs,
        target_moduli@.len() == step.target_q_limbs,
        step.source_q_limbs == step.target_q_limbs + 1,
        step.dropped_modulus > 0,
        step.dropped_inv_mod_targets@.len() == step.target_q_limbs,
        forall|i: int| 0 <= i < target_moduli@.len() ==> #[trigger] target_moduli@[i] > 0,
        forall|l: int| 0 <= l < source_limbs@.len() ==> (#[trigger] source_limbs@[l])@.len() == degree,
        forall|k: int|
            0 <= k < degree ==> #[trigger] source_limbs@[step.target_q_limbs as int]@[k]
                < step.dropped_modulus,
    ensures
        out@.len() == step.target_q_limbs,
        forall|i: int| 0 <= i < out@.len() ==> (#[trigger] out@[i])@.len() == degree,
        forall|i: int, k: int|
            0 <= i < step.target_q_limbs && 0 <= k < degree ==> (#[trigger] out@[i]@[k])
                == mod_switch_residue(
                source_limbs@[i]@[k],
                target_moduli@[i],
                plain_modulus,
                mod_switch_correction(source_limbs@[step.target_q_limbs as int]@[k], *step),
                step.dropped_modulus,
                step.dropped_inv_mod_targets@[i],
            ),
{
    let target_limbs = step.target_q_limbs;
    let ql = step.dropped_modulus;
    let dropped = &source_limbs[target_limbs];
    let mut corrections: Vec<u64> = Vec::new();
    let mut k: usize = 0;
    while k < degree
        invariant
            dropped@ == source_limbs@[target_limbs as int]@,
            dropped@.len() == degree,
            ql == step.dropped_modulus,
            ql > 0,
            forall|kk: int| 0 <= kk < degree ==> #[trigger] dropped@[kk] < ql,
            k <= degree,
            corrections@.len() == k,
            forall|kk: int|
                0 <= kk < k ==> #[trigger] corrections@[kk] == mod_switch_correction(
                    dropped@[kk],
                    *step,
                ),
        decreases degree - k,
    {
        let dropped_residue = dropped[k];
        let neg: u64 = if dropped_residue == 0 {
            0
        } else {
            ql - dropped_residue
        };
        let correction = mul_mod(neg, step.t_inv_mod_dropped, ql);
        corrections.push(correction);
        k += 1;
    }
    let mut out: Vec<Vec<u64>> = Vec::new();
    let mut i: usize = 0;
    while i < target_limbs
        invariant
            target_limbs == step.target_q_limbs,
            source_limbs@.len() == target_limbs + 1,
            target_moduli@.len() == target_limbs,
            step.dropped_inv_mod_targets@.len() == target_limbs,
            ql == step.dropped_modulus,
            ql > 0,
            forall|ii: int| 0 <= ii < target_moduli@.len() ==> #[trigger] target_moduli@[ii] > 0,
            forall|l: int| 0 <= l < source_limbs@.len() ==> (#[trigger] source_limbs@[l])@.len() == degree,
            corrections@.len() == degree,
            forall|kk: int|
                0 <= kk < degree ==> #[trigger] corrections@[kk] == mod_switch_correction(
                    source_limbs@[target_limbs as int]@[kk],
                    *step,
                ),
            i <= target_limbs,
            out@.len() == i,
            forall|ii: int| 0 <= ii < i ==> (#[trigger] out@[ii])@.len() == degree,
            forall|ii: int, kk: int|
                0 <= ii < i && 0 <= kk < degree ==> (#[trigger] out@[ii]@[kk]) == mod_switch_residue(
                    source_limbs@[ii]@[kk],
                    target_moduli@[ii],
                    plain_modulus,
                    corrections@[kk] as int,
                    ql,
                    step.dropped_inv_mod_targets@[ii],
                ),
        decreases target_limbs - i,
    {
        let q = target_moduli[i];
        let inv = step.dropped_inv_mod_targets[i];
        let limb = &source_limbs[i];
        let mut row: Vec<u64> = Vec::new();
        let mut k: usize = 0;
        while k < degree
            invariant
                q > 0,
                q == target_moduli@[i as int],
                inv == step.dropped_inv_mod_targets@[i as int],
                limb@ == source_limbs@[i as int]@,
                limb@.len() == degree,
                corrections@.len() == degree,
                ql > 0,
                forall|kk: int| 0 <= kk < degree ==> #[trigger] corrections@[kk] < ql,
                k <= degree,
                row@.len() == k,
                forall|kk: int|
                    0 <= kk < k ==> #[trigger] row@[kk] == mod_switch_residue(
                        limb@[kk],
                        q,
                        plain_modulus,
                        corrections@[kk] as int,
                        ql,
                        inv,
                    ),
            decreases degree - k,
        {
            let cq = centered_residue_mod_modulus(corrections[k], ql, q);
            proof {
                assert((plain_modulus as int) * (cq as int) <= u64::MAX * u64::MAX) by (nonlinear_arith)
                    requires
                        plain_modulus <= u64::MAX,
                        cq < q,
                        q <= u64::MAX,
                ;
            }
            let adjusted: u128 = ((limb[k] as u128) + (plain_modulus as u128) * (cq as u128)) % (
            q as u128);
            let v = mul_mod(adjusted as u64, inv, q);
            row.push(v);
            k += 1;
        }
        out.push(row);
        i += 1;
    }
    out
}


// ---------------------------------------------------------------------------
// Switching down several levels
// ---------------------------------------------------------------------------

/// The residue values of a polynomial's limbs.
pub open spec fn limb_values(limbs: Seq<Vec<u64>>) -> Seq<Seq<u64>> {
    limbs.map_values(|v: Vec<u64>| v@)
}

/// One switching step on limb values `v`: the top limb is dropped with the
/// table step for a chain of `|v|` moduli.
pub open spec fn switch_down_once(
    v: Seq<Seq<u64>>,
    moduli: Seq<u64>,
    t: u64,
    tables: BgvModSwitchTables,
    degree: int,
) -> Seq<Seq<u64>> {
    let step = tables.steps_by_source_limbs@[v.len() - 2];
    let target = step.target_q_limbs as int;
    Seq::new(
        target as nat,
        |i: int|
            Seq::new(
                degree as nat,
                |k: int|
                    mod_switch_residue(
                        v[i][k],
                        moduli[i],
                        t,
                        mod_switch_correction(v[target][k], step),
                        step.dropped_modulus,
                        step.dropped_inv_mod_targets@[i],
                    ) as u64,
            ),
    )
}

/// `rounds` switching steps on limb values.
pub open spec fn switch_down(
    v: Seq<Seq<u64>>,
    moduli: Seq<u64>,
    t: u64,
    tables: BgvModSwitchTables,
    degree: int,
    rounds: nat,
) -> Seq<Seq<u64>>
    decreases rounds,
{
    if rounds == 0 {
        v
    } else {
        switch_down(
            switch_down_once(v, moduli, t, tables, degree),
            moduli,
            t,
            tables,
            degree,
            (rounds - 1) as nat,
        )
    }
}

proof fn lemma_switch_down_succ(
    v: Seq<Seq<u64>>,
    moduli: Seq<u64>,
    t: u64,
    tables: BgvModSwitchTables,
    degree: int,
    r: nat,
)
    ensures
        switch_down(v, moduli, t, tables, degree, r + 1) == switch_down_once(
            switch_down(v, moduli, t, tables, degree, r),
            moduli,
            t,
            tables,
            degree,
        ),
    decreases r,
{
    assert(switch_down(v, moduli, t, tables, degree, r + 1) == switch_down(
        switch_down_once(v, moduli, t, tables, degree),
        moduli,
        t,
        tables,
        degree,
        r,
    ));
    if r > 0 {
        lemma_switch_down_succ(
            switch_down_once(v, moduli, t, tables, degree),
            moduli,
            t,
            tables,
            degree,
            (r - 1) as nat,
        );
    }
}

/// Limbs of `degree` residues, limb `l` reduced modulo `q_l`, for the first
/// `|limbs|` moduli of the chain.
pub open spec fn limbs_within(limbs: Seq<Vec<u64>>, moduli: Seq<u64>, degree: int) -> bool {
    &&& limbs.len() <= moduli.len()
    &&& forall|l: int| 0 <= l < limbs.len() ==> (#[trigger] limbs[l])@.len() == degree
    &&& forall|l: int, k: int| 0 <= l < limbs.len() && 0 <= k < degree ==> #[trigger] limbs[l]@[k] < moduli[l]
}

pub(crate) fn copy_limbs(limbs: &Vec<Vec<u64>>) -> (r: Vec<Vec<u64>>)
    ensures
        r@.len() == limbs@.len(),
        forall|l: int| 0 <= l < limbs@.len() ==> (#[trigger] r@[l])@ == limbs@[l]@,
{
    let mut out: Vec<Vec<u64>> = Vec::new();
    let mut l: usize = 0;
    while l < limbs.len()
        invariant
            l <= limbs@.len(),
            out@.len() == l,
            forall|ll: int| 0 <= ll < l ==> (#[trigger] out@[ll])@ == limbs@[ll]@,
        decreases limbs@.len() - l,
    {
        let mut limb: Vec<u64> = Vec::new();
        let mut k: usize = 0;
        while k < limbs[l].len()
            invariant
                l < limbs@.len(),
                k <= limbs@[l as int]@.len(),
                limb@ == limbs@[l as int]@.take(k as int),
            decreases limbs@[l as int]@.len() - k,
        {
            limb.push(limbs[l][k]);
            k += 1;
            proof {
                assert(limb@ =~= limbs@[l as int]@.take(k as int));
            }
        }
        proof {
            assert(limb@ =~= limbs@[l as int]@);
        }
        out.push(limb);
        l += 1;
    }
    out
}

pub(crate) fn moduli_prefix(moduli: &Vec<u64>, n: usize) -> (r: Vec<u64>)
    requires
        n <= moduli@.len(),
    ensures
        r@ == moduli@.take(n as int),
{
    let mut out: Vec<u64> = Vec::new();
    let mut i: usize = 0;
    while i < n
        invariant
            n <= moduli@.len(),
            i <= n,
            out@ == moduli@.take(i as int),
        decreases n - i,
    {
        out.push(moduli[i]);
        i += 1;
        proof {
            assert(out@ =~= moduli@.take(i as int));
        }
    }
    out
}

/// Switches a polynomial over the full chain, in coefficient form, down to
/// its first `q_limbs` moduli, one dropped prime at a time.
pub fn mod_switch_poly_to_q_limbs(
    limbs: &Vec<Vec<u64>>,
    moduli: &Vec<u64>,
    degree: usize,
    plain_modulus: u64,
    tables: &BgvModSwitchTables,
    q_limbs: usize,
) -> (r: Vec<Vec<u64>>)
    requires
        mod_switch_chain_ok(moduli@, plain_modulus),
        tables_ok(*tables, moduli@, plain_modulus),
        1 <= q_limbs <= moduli@.len(),
        limbs@.len() == moduli@.len(),
        limbs_within(limbs@, moduli@, degree as int),
    ensures
        r@.len() == q_limbs,
        limbs_within(r@, moduli@, degree as int),
        limb_values(r@) == switch_down(
            limb_values(limbs@),
            moduli@,
            plain_modulus,
            *tables,
            degree as int,
            (moduli@.len() - q_limbs) as nat,
        ),
{
    let t = plain_modulus;
    let mut current = copy_limbs(limbs);
    proof {
        assert(limb_values(current@) =~= limb_values(limbs@));
    }
    let mut cur: usize = moduli.len();
    while cur > q_limbs
        invariant
            mod_switch_chain_ok(moduli@, t),
            tables_ok(*tables, moduli@, t),
            t == plain_modulus,
            1 <= q_limbs <= cur <= moduli@.len(),
            current@.len() == cur,
            limbs_within(current@, moduli@, degree as int),
            limb_values(current@) == switch_down(
                limb_values(limbs@),
                moduli@,
                t,
                *tables,
                degree as int,
                (moduli@.len() - cur) as nat,
            ),
        decreases cur,
    {
        let step = &tables.steps_by_source_limbs[cur - 2];
        proof {
            assert(step_ok(*step, moduli@, t, cur - 2));
        }
        let target_moduli = moduli_prefix(moduli, cur - 1);
        let next = mod_switch_poly_down_one(&current, &target_moduli, degree, t, step);
        proof {
            let v = limb_values(current@);
            let once = switch_down_once(v, moduli@, t, *tables, degree as int);
            assert forall|l: int, k: int| 0 <= l < next@.len() && 0 <= k < degree implies #[trigger] next@[l]@[k]
                < moduli@[l] by {
                assert(target_moduli@[l] == moduli@[l]);
            }
            assert forall|l: int| 0 <= l < next@.len() implies (#[trigger] limb_values(next@)[l]) =~= once[l] by {
                assert(target_moduli@[l] == moduli@[l]);
            }
            assert(limb_values(next@) =~= once);
            lemma_switch_down_succ(
                limb_values(limbs@),
                moduli@,
                t,
                *tables,
                degree as int,
                (moduli@.len() - cur) as nat,
            );
            assert((moduli@.len() - cur + 1) as nat == (moduli@.len() - (cur - 1)) as nat);
        }
        current = next;
        cur = cur - 1;
    }
    current
}

proof fn lemma_dropped_product_split(moduli: Seq<u64>, k: int, n: int, t: int)
    requires
        t > 1,
        0 <= k <= n <= moduli.len(),
    ensures
        dropped_product(moduli, k, t) == (dropped_product(moduli.take(n), k, t) * dropped_product(
            moduli,
            n,
            t,
        )) % t,
    decreases n - k,
{
    let prefix = moduli.take(n);
    let d = dropped_product(moduli, n, t);
    assert(0 <= d < t) by {
        if n < moduli.len() {
            vstd::arithmetic::div_mod::lemma_mod_bound(
                dropped_product(moduli, n + 1, t) * ((moduli[n] as int) % t),
                t,
            );
        }
    }
    if k == n {
        assert(dropped_product(prefix, k, t) == 1);
        vstd::arithmetic::div_mod::lemma_small_mod(d as nat, t as nat);
    } else {
        lemma_dropped_product_split(moduli, k + 1, n, t);
        let a = dropped_product(prefix, k + 1, t);
        let m = (moduli[k] as int) % t;
        assert(prefix[k] == moduli[k]);
        // dp(full, k) = ((a · d) mod t · m) mod t = ((a · m) mod t · d) mod t
        vstd::arithmetic::div_mod::lemma_mul_mod_noop_left(a * d, m, t);
        vstd::arithmetic::div_mod::lemma_mul_mod_noop_left(a * m, d, t);
        assert((a * d) * m == (a * m) * d) by (nonlinear_arith);
    }
}

/// A prefix of a chain that admits all switching tables admits them too.
pub proof fn lemma_mod_switch_chain_prefix(moduli: Seq<u64>, t: u64, n: int)
    requires
        mod_switch_chain_ok(moduli, t),
        0 <= n <= moduli.len(),
        t > 1,
    ensures
        mod_switch_chain_ok(moduli.take(n), t),
{
    let prefix = moduli.take(n);
    assert forall|k: int| 0 <= k < prefix.len() implies has_mod_inverse(
        dropped_product(prefix, k, t as int),
        t as int,
    ) by {
        lemma_dropped_product_split(moduli, k, n, t as int);
        let a = dropped_product(prefix, k, t as int);
        let b = dropped_product(moduli, n, t as int);
        assert(has_mod_inverse(dropped_product(moduli, k, t as int), t as int));
        crate::schemes::bgv::crt::lemma_factor_of_unit(a, b, t as int);
        assert(0 <= a < t) by {
            vstd::arithmetic::div_mod::lemma_mod_bound(
                dropped_product(prefix, k + 1, t as int) * ((prefix[k] as int) % (t as int)),
                t as int,
            );
        }
        vstd::arithmetic::div_mod::lemma_small_mod(a as nat, t as nat);
    }
    assert forall|i: int, j: int| 0 <= i < j < prefix.len() implies has_mod_inverse(
        (prefix[j] % prefix[i]) as int,
        prefix[i] as int,
    ) by {
        assert(prefix[j] == moduli[j] && prefix[i] == moduli[i]);
    }
    assert forall|j: int| 1 <= j < prefix.len() implies has_mod_inverse(
        (t % prefix[j]) as int,
        prefix[j] as int,
    ) by {
        assert(prefix[j] == moduli[j]);
    }
}

/// Law: a switched residue is the residue of an exact quotient.  When the
/// integer `x` has residue `r` modulo a kept prime `q`, and `x + t · δ` (`δ`
/// the centered correction) is a multiple of the dropped prime `q_L`, the
/// switched residue is `((x + t · δ) / q_L) mod q`; and that quotient,
/// multiplied back by `q_L`, agrees with `x` modulo `t`, so the plaintext
/// only picks up the factor `q_L⁻¹`.
pub proof fn lemma_mod_switch_exact_division(
    x: int,
    r: u64,
    q: u64,
    plain_modulus: u64,
    correction: int,
    dropped_modulus: u64,
    dropped_inv: u64,
)
    requires
        q > 0,
        dropped_modulus > 0,
        plain_modulus > 0,
        x % (q as int) == (r as int) % (q as int),
        (x + (plain_modulus as int) * centered(correction, dropped_modulus as int)) % (dropped_modulus as int)
            == 0,
        is_mod_inverse((dropped_modulus % q) as int, dropped_inv as int, q as int),
    ensures
        ((x + (plain_modulus as int) * centered(correction, dropped_modulus as int)) / (
        dropped_modulus as int)) % (q as int) == mod_switch_residue(
            r,
            q,
            plain_modulus,
            correction,
            dropped_modulus,
            dropped_inv,
        ),
        (((x + (plain_modulus as int) * centered(correction, dropped_modulus as int)) / (
        dropped_modulus as int)) * (dropped_modulus as int)) % (plain_modulus as int) == x % (
        plain_modulus as int),
{
    let m = q as int;
    let ql = dropped_modulus as int;
    let t = plain_modulus as int;
    let inv = dropped_inv as int;
    let d = centered(correction, ql);
    let big = x + t * d;
    let y = big / ql;
    vstd::arithmetic::div_mod::lemma_fundamental_div_mod(big, ql);
    assert(big == ql * y);
    // q_L · inv ≡ 1 (mod q)
    vstd::arithmetic::div_mod::lemma_mul_mod_noop_left(ql, inv, m);
    // y ≡ y · (q_L · inv) = big · inv (mod q)
    vstd::arithmetic::div_mod::lemma_mul_mod_noop_right(y, ql * inv, m);
    vstd::arithmetic::div_mod::lemma_small_mod(1, m as nat);
    assert(y * 1 == y);
    assert(y * (ql * inv) == big * inv) by (nonlinear_arith)
        requires
            big == ql * y,
    ;
    vstd::arithmetic::div_mod::lemma_mul_mod_noop_left(big, inv, m);
    // big ≡ r + t · (δ mod q) (mod q)
    vstd::arithmetic::div_mod::lemma_mul_mod_noop_right(t, d, m);
    vstd::arithmetic::div_mod::lemma_add_mod_noop(x, t * d, m);
    vstd::arithmetic::div_mod::lemma_add_mod_noop(r as int, t * (d % m), m);
    let cq = d % m;
    assert(mod_switch_residue(r, q, plain_modulus, correction, dropped_modulus, dropped_inv) == ((((r as int)
        + t * cq) % m) * inv) % m);
    // y · q_L = x + t · δ ≡ x (mod t)
    vstd::arithmetic::div_mod::lemma_mod_multiples_vanish(d, x, t);
    assert(y * ql == big) by (nonlinear_arith)
        requires
            big == ql * y,
    ;
}

/// Law: the correction clears the dropped residue: `r + t · c` is a multiple
/// of the dropped prime `q_L`, for the centered correction `c`, whenever
/// `t⁻¹` is the inverse of `t` modulo `q_L` and `r < q_L`.
pub proof fn lemma_mod_switch_clears_dropped_residue(
    dropped_residue: u64,
    plain_modulus: u64,
    step: BgvModSwitchStep,
)
    requires
        step.dropped_modulus > 1,
        dropped_residue < step.dropped_modulus,
        is_mod_inverse(
            (plain_modulus % step.dropped_modulus) as int,
            step.t_inv_mod_dropped as int,
            step.dropped_modulus as int,
        ),
    ensures
        ((dropped_residue as int) + (plain_modulus as int) * centered(
            mod_switch_correction(dropped_residue, step),
            step.dropped_modulus as int,
        )) % (step.dropped_modulus as int) == 0,
{
    let q = step.dropped_modulus as int;
    let r = dropped_residue as int;
    let t = plain_modulus as int;
    let x = step.t_inv_mod_dropped as int;
    let neg = if dropped_residue == 0 {
        0
    } else {
        q - r
    };
    let c = mod_switch_correction(dropped_residue, step);
    let cc = centered(c, q);
    vstd::arithmetic::div_mod::lemma_fundamental_div_mod(neg * x, q);
    vstd::arithmetic::div_mod::lemma_fundamental_div_mod(t, q);
    vstd::arithmetic::div_mod::lemma_fundamental_div_mod((t % q) * x, q);
    let k1 = (neg * x) / q;
    let k2 = t / q;
    let k3 = ((t % q) * x) / q;
    let e = if c > q / 2 {
        1int
    } else {
        0int
    };
    assert(cc == c - e * q);
    assert(neg == q * (if dropped_residue == 0 { 0int } else { 1int }) - r);
    let w = (if dropped_residue == 0 { 0int } else { 1int });
    let j = k2 * x + k3;
    let m = t * w * x - t * k1 - t * e - r * j;
    assert(t * x == q * j + 1) by (nonlinear_arith)
        requires
            t == q * k2 + t % q,
            (t % q) * x == q * k3 + 1,
            j == k2 * x + k3,
    ;
    assert(t * (neg * x) == q * (t * w * x) - r * (t * x)) by (nonlinear_arith)
        requires
            neg == q * w - r,
    ;
    assert(r * (t * x) == q * (r * j) + r) by (nonlinear_arith)
        requires
            t * x == q * j + 1,
    ;
    assert(t * cc == t * (neg * x) - q * (t * k1) - q * (t * e)) by (nonlinear_arith)
        requires
            cc == c - e * q,
            c == neg * x - q * k1,
    ;
    assert(q * m == q * (t * w * x) - q * (t * k1) - q * (t * e) - q * (r * j)) by (nonlinear_arith)
        requires
            m == t * w * x - t * k1 - t * e - r * j,
    ;
    assert(r + t * cc == q * m);
    vstd::arithmetic::mul::lemma_mul_is_commutative(q, m);
    vstd::arithmetic::div_mod::lemma_mod_multiples_basic(m, q);
}

} // verus!
