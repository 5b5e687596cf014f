use num_bigint::{BigInt, Sign};
use silent_fhe::schemes::bgv::ciphertext::BgvPlaintextFactor;
use silent_fhe::schemes::bgv::crt::{
    bgv_bootstrap_crt_wrap_reconstruction_plan_from_auxiliary_moduli,
    bgv_bootstrap_same_field_crt_wrap_classifier,
    bgv_bootstrap_same_field_plaintext_modulus_switch_correction_classifier, crt_tuple_wrap_counts,
    bgv_bootstrap_phase_linearization_plan, bgv_bootstrap_wrap_interval_plan, bigint_mod_u64,
    centered_residue_and_wrap, max_abs_wrap_count_for_phase_bound, moduli_product,
    BgvBootstrapPhaseLinearizationPlan,
};
use silent_fhe::schemes::bgv::crt::{
    audit_bgv_bootstrap_reduction, ciphertext_modulus_mod_plaintext, negacyclic_mul_centered,
    raw_binary_phase_coefficients, wrap_correction_coefficients,
};
use silent_fhe::schemes::bgv::params::BgvLevelError;
use silent_fhe::wide::WideInt;

fn w(v: i64) -> WideInt {
    WideInt::from_i64(v)
}

fn big(x: &WideInt) -> BigInt {
    BigInt::from_slice(if x.negative { Sign::Minus } else { Sign::Plus }, &x.magnitude)
}

fn val(x: &WideInt) -> i64 {
    x.to_i64().unwrap()
}

fn sample_phase_plan() -> BgvBootstrapPhaseLinearizationPlan {
    bgv_bootstrap_phase_linearization_plan(2, &vec![w(1), w(-2)], &vec![w(3), w(4)]).unwrap()
}

#[test]
fn wide_integers_do_exact_arithmetic() {
    let a = WideInt::from_u64(u64::MAX);
    let b = a.times(&a).plus(&w(1));
    let expected = BigInt::from(u64::MAX) * BigInt::from(u64::MAX) + 1;
    assert_eq!(big(&b), expected);
    assert_eq!(big(&b.minus(&b)), BigInt::from(0));
    assert_eq!(val(&w(-7).div_floor(&w(2))), -4);
    assert_eq!(val(&w(-7).mod_floor(&w(2))), 1);
    assert_eq!(w(-7).abs().to_u64(), Some(7));
    assert_eq!(w(-7).to_u64(), None);
    assert_eq!(b.to_i64(), None);
    assert_eq!(w(255).bits(), 8);
    assert!(w(-3).lt(&w(2)));
    assert!(w(2).le(&w(2)));
    assert_eq!(val(&w(i64::MIN).copy()), i64::MIN);
    assert_eq!(val(&w(5).neg()), -5);
}

#[test]
fn residues_and_wraps_of_wide_values() {
    assert_eq!(bigint_mod_u64(&w(-7), 5), 3);
    let huge = w(1_000_000_007).times(&w(1_000_000_007)).times(&w(1_000_000_007));
    assert_eq!(bigint_mod_u64(&huge, 97), ((1_000_000_007u128 % 97).pow(3) % 97) as u64);
    let (c, k) = centered_residue_and_wrap(&w(10), &w(7));
    assert_eq!((val(&c), val(&k)), (3, 1));
    let (c, k) = centered_residue_and_wrap(&w(11), &w(7));
    assert_eq!((val(&c), val(&k)), (-3, 2));
    let (c, k) = centered_residue_and_wrap(&w(-10), &w(7));
    assert_eq!((val(&c), val(&k)), (-3, -1));
    assert_eq!(val(&moduli_product(&vec![3, 5, 7])), 105);
    assert_eq!(max_abs_wrap_count_for_phase_bound(&vec![7], 5, &w(25)), Ok(4));
    assert_eq!(max_abs_wrap_count_for_phase_bound(&vec![3, 5], 5, &w(100)), Ok(7));
}

#[test]
fn wrap_intervals_classify_by_wrap_count() {
    let plan = bgv_bootstrap_wrap_interval_plan(&vec![7], 5, 2).unwrap();
    assert_eq!(plan.intervals.len(), 5);
    assert_eq!(plan.intervals[0].wrap_count, -2);
    assert_eq!(val(&plan.intervals[0].lower_inclusive), -17);
    assert_eq!(val(&plan.intervals[0].upper_inclusive), -11);
    assert_eq!(val(&plan.intervals[4].upper_inclusive), 17);
    assert_eq!(plan.classify(&w(10)), Some(1));
    assert_eq!(plan.classify(&w(17)), Some(2));
    assert_eq!(plan.classify(&w(-3)), Some(0));
    assert_eq!(plan.classify(&w(18)), None);
    assert_eq!(plan.classify(&w(-18)), None);
    assert!(matches!(
        bgv_bootstrap_wrap_interval_plan(&vec![7], 5, u64::MAX),
        Err(BgvLevelError::BootstrapCarryBoundTooLarge { bound: u64::MAX, modulus: 5 })
    ));
}

#[test]
fn phase_linearization_expands_the_negacyclic_product() {
    let plan = sample_phase_plan();
    assert_eq!(plan.degree, 2);
    let c = &plan.coefficients;
    assert_eq!(val(&c[0].constant), 1);
    assert_eq!(val(&c[0].terms[0].multiplier), 3);
    assert_eq!(val(&c[0].terms[1].multiplier), -4);
    assert_eq!(val(&c[1].terms[0].multiplier), 4);
    assert_eq!(val(&c[1].terms[1].multiplier), 3);
    assert_eq!(val(&plan.max_abs_constant), 2);
    assert_eq!(val(&plan.max_abs_multiplier), 4);
    assert_eq!(val(&plan.ternary_secret_abs_phase_bound), 10);
    // s = 1 − X: c0 + c1·s = (1 − 2X) + (3 + 4X)(1 − X) = 8 − X mod X² + 1
    let phase = plan.evaluate_with_secret_coefficients(&vec![1, -1]).unwrap();
    assert_eq!(phase.iter().map(val).collect::<Vec<_>>(), vec![8, -1]);
    assert_eq!(plan.evaluate_mod_plaintext_with_secret_coefficients(&vec![1, -1], 5).unwrap(), vec![3, 4]);
    assert!(matches!(
        plan.evaluate_with_secret_coefficients(&vec![1]),
        Err(BgvLevelError::CiphertextDegreeMismatch { expected: 2, actual: 1 })
    ));
    assert!(matches!(
        bgv_bootstrap_phase_linearization_plan(3, &vec![w(1)], &vec![w(1)]),
        Err(BgvLevelError::RecryptionCiphertextSize { actual: 3 })
    ));
}

#[test]
fn crt_plan_reconstructs_raw_phases_and_their_wraps() {
    let phase_plan = sample_phase_plan();
    let plan = bgv_bootstrap_crt_wrap_reconstruction_plan_from_auxiliary_moduli(
        2,
        &vec![7],
        5,
        &phase_plan,
        vec![5, 7],
    )
    .unwrap();
    assert_eq!(val(&plan.modulus_product), 35);
    assert_eq!(plan.max_abs_wrap_count, 1);
    assert_eq!(val(&plan.reconstruct_centered_coefficient(&vec![3, 1]).unwrap()), 8);
    assert_eq!(val(&plan.reconstruct_centered_coefficient(&vec![1, 5]).unwrap()), -9);
    let residues = plan.residues_for_raw_phase(&vec![w(8), w(-9)]).unwrap();
    assert_eq!(residues, vec![vec![3, 1], vec![1, 5]]);
    let raw = plan.reconstruct_centered_phase(&residues).unwrap();
    assert_eq!(raw.iter().map(val).collect::<Vec<_>>(), vec![8, -9]);
    assert_eq!(plan.classify_wrap_counts_from_residues(&residues).unwrap(), vec![1, -1]);
    assert!(matches!(
        plan.reconstruct_centered_coefficient(&vec![3]),
        Err(BgvLevelError::BootstrapCrtResidueCountMismatch { expected: 2, actual: 1 })
    ));
    assert!(matches!(
        plan.residues_for_raw_phase(&vec![w(8)]),
        Err(BgvLevelError::BootstrapCrtCoefficientCountMismatch { expected: 2, actual: 1 })
    ));
    // a product too small for the phase bound 10
    assert!(matches!(
        bgv_bootstrap_crt_wrap_reconstruction_plan_from_auxiliary_moduli(2, &vec![7], 5, &phase_plan, vec![5]),
        Err(BgvLevelError::BootstrapCrtModulusProductTooSmall { product_bits: 3, required_bits: 5 })
    ));
    assert!(matches!(
        bgv_bootstrap_crt_wrap_reconstruction_plan_from_auxiliary_moduli(4, &vec![7], 5, &phase_plan, vec![5, 7]),
        Err(BgvLevelError::CiphertextDegreeMismatch { expected: 4, actual: 2 })
    ));
    // moduli sharing a factor: (24 / 4) mod 4 = 2 has no inverse
    let shared = bgv_bootstrap_crt_wrap_reconstruction_plan_from_auxiliary_moduli(
        2,
        &vec![7],
        5,
        &phase_plan,
        vec![4, 6],
    )
    .unwrap();
    assert!(matches!(
        shared.reconstruct_centered_coefficient(&vec![1, 1]),
        Err(BgvLevelError::BootstrapCarryInterpolationDenominatorNotInvertible { denominator: 2, modulus: 4 })
    ));
}

fn wide_bound_plan() -> silent_fhe::schemes::bgv::crt::BgvBootstrapCrtWrapReconstructionPlan {
    // phase bound 3 + 4·2 = 11 around Q = 7: wrap counts up to 2, phases up to 17
    let phase_plan =
        bgv_bootstrap_phase_linearization_plan(2, &vec![w(1), w(-3)], &vec![w(4), w(2)]).unwrap();
    assert_eq!(val(&phase_plan.ternary_secret_abs_phase_bound), 11);
    bgv_bootstrap_crt_wrap_reconstruction_plan_from_auxiliary_moduli(2, &vec![7], 11, &phase_plan, vec![5, 7])
        .unwrap()
}

#[test]
fn same_field_classifiers_of_a_crt_plan() {
    let plan = wide_bound_plan();
    assert_eq!(plan.max_abs_wrap_count, 2);
    let classes = crt_tuple_wrap_counts(&plan, 35);
    assert_eq!(classes[0], Ok(Some(0)));
    // (0, 1) ↦ 15 = 2·7 + 1
    assert_eq!(classes[1], Ok(Some(2)));
    let c = bgv_bootstrap_same_field_crt_wrap_classifier(2, 11, &plan).unwrap();
    assert_eq!(c.tuple_count, 35);
    assert_eq!(c.nonzero_terms.len(), 28);
    assert_eq!(c.nonzero_terms[0].residues, vec![0, 1]);
    assert_eq!((c.nonzero_terms[0].wrap_count, c.nonzero_terms[0].wrap_scalar), (2, 2));
    assert_eq!(c.nonzero_terms[6].residues, vec![1, 0]);
    assert_eq!((c.nonzero_terms[6].wrap_count, c.nonzero_terms[6].wrap_scalar), (-2, 9));
    let m = bgv_bootstrap_same_field_plaintext_modulus_switch_correction_classifier(
        2,
        &vec![7],
        3,
        BgvPlaintextFactor::one(),
        2,
        11,
        2,
        5,
        &plan,
    )
    .unwrap();
    assert_eq!(m.nonzero_terms.len(), 28);
    assert_eq!(m.nonzero_terms[0].residues, vec![0, 1]);
    assert_eq!(m.nonzero_terms[0].correction_scalar, 1);
    assert_eq!(m.nonzero_terms[4].residues, vec![1, 0]);
    assert_eq!(m.nonzero_terms[4].correction_scalar, 4);
    // with the phase bound 10 the wrap counts stop at 1 and the tuple
    // (0, 1) ↦ 15 falls outside every interval
    let narrow = bgv_bootstrap_crt_wrap_reconstruction_plan_from_auxiliary_moduli(
        2,
        &vec![7],
        11,
        &sample_phase_plan(),
        vec![5, 7],
    )
    .unwrap();
    assert!(matches!(
        bgv_bootstrap_same_field_crt_wrap_classifier(2, 11, &narrow),
        Err(BgvLevelError::BootstrapCrtReconstructionOutOfRange { coefficient: 0 })
    ));
}

#[test]
fn centered_negacyclic_product_and_raw_phase() {
    // (1 - 2X)(3 + 4X) = 3 - 2X - 8X^2 = 11 - 2X modulo X^2 + 1.
    let product = negacyclic_mul_centered(&vec![w(1), w(-2)], &vec![3, 4]);
    assert_eq!(product.iter().map(val).collect::<Vec<_>>(), vec![11, -2]);
    let phase = raw_binary_phase_coefficients(&vec![w(5), w(6)], &vec![w(1), w(-2)], &vec![3, 4]);
    assert_eq!(phase.iter().map(val).collect::<Vec<_>>(), vec![16, 4]);
    // A shorter c0 leaves the upper coefficients untouched.
    let phase = raw_binary_phase_coefficients(&vec![w(5)], &vec![w(1), w(-2)], &vec![3, 4]);
    assert_eq!(phase.iter().map(val).collect::<Vec<_>>(), vec![16, -2]);
}

#[test]
fn wrap_corrections_of_raw_phases() {
    let (wraps, corrections, max_abs) =
        wrap_correction_coefficients(&vec![w(16), w(-9), w(3)], &w(10), 7, 1);
    assert_eq!(wraps, vec![2, -1, 0]);
    // (-w) * (Q mod t) mod t with Q mod t = 3.
    assert_eq!(corrections, vec![1, 3, 0]);
    assert_eq!(max_abs, 2);
    let (wraps, corrections, max_abs) = wrap_correction_coefficients(&vec![], &w(10), 7, 1);
    assert!(wraps.is_empty() && corrections.is_empty());
    assert_eq!(max_abs, 0);
    assert_eq!(ciphertext_modulus_mod_plaintext(&vec![10, 3], 7), 2);
    assert_eq!(ciphertext_modulus_mod_plaintext(&vec![], 7), 1);
}

#[test]
fn reduction_audit_explains_corrections_by_wraps() {
    let factor = BgvPlaintextFactor::new(2, 7).unwrap();
    let audit = audit_bgv_bootstrap_reduction(
        2,
        &vec![10],
        7,
        factor,
        vec![3, 1],
        vec![w(16), w(-9)],
        &vec![1, 2],
        &vec![3, 5],
        &vec![1, 1],
    )
    .unwrap();
    assert_eq!(audit.factor_inverse, 4);
    assert_eq!(audit.component_reduced_coefficients, vec![3, 5]);
    assert_eq!(audit.correction_coefficients, vec![0, 3]);
    assert_eq!(audit.nonzero_correction_count, 1);
    assert_eq!(audit.wrap_counts, vec![2, -1]);
    assert_eq!(audit.wrap_correction_coefficients, vec![4, 5]);
    assert_eq!(audit.max_abs_wrap_count, 2);
    assert_eq!(audit.q_mod_plaintext, 3);
    assert_eq!(audit.true_coefficients, vec![3, 1]);
}

#[test]
fn reduction_audit_rejects_bad_inputs() {
    let factor = BgvPlaintextFactor::new(2, 7).unwrap();
    let size = audit_bgv_bootstrap_reduction(
        3,
        &vec![10],
        7,
        factor,
        vec![],
        vec![],
        &vec![],
        &vec![],
        &vec![],
    );
    assert_eq!(size.unwrap_err(), BgvLevelError::RecryptionCiphertextSize { actual: 3 });
    let not_invertible = audit_bgv_bootstrap_reduction(
        2,
        &vec![10],
        4,
        factor,
        vec![],
        vec![],
        &vec![],
        &vec![],
        &vec![],
    );
    assert_eq!(
        not_invertible.unwrap_err(),
        BgvLevelError::PlaintextFactorNotInvertible { factor: 2, modulus: 4 }
    );
}
