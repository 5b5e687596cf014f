use silent_fhe::schemes::bgv::ciphertext::BgvPlaintextFactor;
use silent_fhe::schemes::bgv::params::BgvLevelError;
use silent_fhe::wide::WideInt;
use silent_fhe::schemes::bgv::plans::{
    audit_bgv_bootstrap_fusion_to_source_noise_correction,
    audit_bgv_bootstrap_plaintext_modulus_switch_correction_from_phase_residues,
    bgv_bootstrap_circuit_readiness, bgv_bootstrap_fusion_plaintext_modulus_plan,
    bgv_bootstrap_fusion_prime_search_start, bgv_bootstrap_fusion_to_source_plaintext_bridge_plan,
    bgv_bootstrap_source_compatible_fusion_noise_scale_plan,
    ensure_same_plaintext_space, fusion_to_source_lift_scalar_mod_source, gcd,
    BgvBootstrapCircuitGap,
};

#[test]
fn gcd_by_euclid() {
    assert_eq!(gcd(12, 18), 6);
    assert_eq!(gcd(17, 5), 1);
    assert_eq!(gcd(0, 9), 9);
    assert_eq!(gcd(9, 0), 9);
}

#[test]
fn noise_scale_is_the_least_common_multiple() {
    let plan = bgv_bootstrap_source_compatible_fusion_noise_scale_plan(8, 6, 8, 4).unwrap();
    assert_eq!(plan.error_scalar, 12);
    assert!(!plan.uses_default_fusion_error_scalar);
    assert!(plan.bridges_without_noise_correction);
    let same = bgv_bootstrap_source_compatible_fusion_noise_scale_plan(8, 3, 8, 9).unwrap();
    assert_eq!(same.error_scalar, 9);
    assert!(same.uses_default_fusion_error_scalar);
    assert!(same.bridges_without_noise_correction);
    assert_eq!(
        bgv_bootstrap_source_compatible_fusion_noise_scale_plan(8, (1 << 63) + 1, 8, 1 << 63),
        Err(BgvLevelError::BootstrapFusionNoiseScaleOverflow {
            fusion_modulus: 1 << 63,
            source_modulus: (1 << 63) + 1
        })
    );
    assert_eq!(
        bgv_bootstrap_source_compatible_fusion_noise_scale_plan(8, 3, 16, 9),
        Err(BgvLevelError::CiphertextDegreeMismatch { expected: 8, actual: 16 })
    );
}

#[test]
fn fusion_to_source_bridge_plan() {
    let chain = vec![97u64, 193];
    let factor = BgvPlaintextFactor::new(2, 15).unwrap();
    let plan =
        bgv_bootstrap_fusion_to_source_plaintext_bridge_plan(8, 15, factor, &chain, 8, 5, &chain)
            .unwrap();
    assert!(plan.same_ciphertext_modulus_chain);
    assert!(plan.plaintext_noise_vanishes_mod_source);
    assert!(plan.plaintext_factor_compatible);
    assert!(plan.can_reinterpret_without_noise_correction);
    assert!(!plan.requires_noise_correction);

    let factor7 = BgvPlaintextFactor::new(2, 7).unwrap();
    let plan =
        bgv_bootstrap_fusion_to_source_plaintext_bridge_plan(8, 7, factor7, &chain, 8, 5, &chain)
            .unwrap();
    assert!(!plan.plaintext_noise_vanishes_mod_source);
    assert!(plan.requires_noise_correction);
    assert!(!plan.can_reinterpret_without_noise_correction);

    let other = vec![97u64, 257];
    let plan =
        bgv_bootstrap_fusion_to_source_plaintext_bridge_plan(8, 15, factor, &chain, 8, 5, &other)
            .unwrap();
    assert!(!plan.same_ciphertext_modulus_chain);
    assert!(!plan.requires_noise_correction);

    let factor5 = BgvPlaintextFactor::new(5, 7).unwrap();
    let plan =
        bgv_bootstrap_fusion_to_source_plaintext_bridge_plan(8, 15, factor5, &chain, 8, 5, &chain)
            .unwrap();
    assert!(!plan.plaintext_factor_compatible);

    assert_eq!(
        bgv_bootstrap_fusion_to_source_plaintext_bridge_plan(8, 15, factor, &chain, 4, 5, &chain),
        Err(BgvLevelError::CiphertextDegreeMismatch { expected: 8, actual: 4 })
    );
}

#[test]
fn fusion_plaintext_modulus_selection() {
    let keep = bgv_bootstrap_fusion_plaintext_modulus_plan(8, 257, &WideInt::from_u64(100), None).unwrap();
    assert_eq!(keep.required_lookup_points, 201);
    assert_eq!(keep.selected_fusion_plain_modulus, 257);
    assert!(keep.uses_source_plaintext_modulus);
    assert!(keep.plaintext_noise_vanishes_mod_source);
    assert!(!keep.requires_small_plaintext_correction);

    assert_eq!(bgv_bootstrap_fusion_prime_search_start(17, 201, 16), 202);
    assert_eq!(bgv_bootstrap_fusion_prime_search_start(500, 201, 16), 500);
    assert_eq!(bgv_bootstrap_fusion_prime_search_start(5, 3, 16), 17);
    let fresh = bgv_bootstrap_fusion_plaintext_modulus_plan(8, 17, &WideInt::from_u64(100), Some(257)).unwrap();
    assert_eq!(fresh.selected_fusion_plain_modulus, 257);
    assert!(!fresh.uses_source_plaintext_modulus);
    assert!(!fresh.plaintext_noise_vanishes_mod_source);
    assert!(fresh.requires_small_plaintext_correction);

    assert_eq!(
        bgv_bootstrap_fusion_plaintext_modulus_plan(8, 17, &WideInt::from_u64(100), None),
        Err(BgvLevelError::BootstrapCrtPrimeSearchFailed { bits: 0, step: 16 })
    );
    assert_eq!(
        bgv_bootstrap_fusion_plaintext_modulus_plan(8, 17, &WideInt::from_u64(2048), Some(257)),
        Err(BgvLevelError::BootstrapClassifierLookupTooLarge { modulus: 4097, max_points: 4096 })
    );
    assert_eq!(
        bgv_bootstrap_fusion_plaintext_modulus_plan(8, 17, &WideInt::from_u64(u64::MAX), Some(257)),
        Err(BgvLevelError::BootstrapClassifierLookupTooLarge {
            modulus: u64::MAX,
            max_points: 4096
        })
    );
    assert_eq!(
        bgv_bootstrap_fusion_plaintext_modulus_plan(8, 17, &WideInt::from_u64(100), Some(5000)),
        Err(BgvLevelError::BootstrapClassifierLookupTooLarge { modulus: 5000, max_points: 4096 })
    );
}

#[test]
fn plaintext_modulus_switch_audit() {
    let factor = BgvPlaintextFactor::new(2, 5).unwrap();
    let phases = Ok(vec![(2u64, 2u64), (4, 1), (0, 0)]);
    let audit = audit_bgv_bootstrap_plaintext_modulus_switch_correction_from_phase_residues(
        8, 5, factor, 8, 3, 8, &phases,
    )
    .unwrap();
    assert_eq!(audit.source_factor_inverse, 3);
    assert_eq!(audit.source_plaintext_coefficients, vec![1, 2, 0]);
    assert_eq!(audit.direct_target_coefficients, vec![2, 1, 0]);
    assert_eq!(audit.correction_coefficients, vec![2, 1, 0]);
    assert_eq!(audit.nonzero_correction_count, 2);

    let failed: Result<Vec<(u64, u64)>, BgvLevelError> =
        Err(BgvLevelError::BootstrapCrtCoefficientCountMismatch { expected: 8, actual: 3 });
    assert_eq!(
        audit_bgv_bootstrap_plaintext_modulus_switch_correction_from_phase_residues(
            8, 5, factor, 8, 3, 8, &failed,
        ),
        Err(BgvLevelError::BootstrapCrtCoefficientCountMismatch { expected: 8, actual: 3 })
    );
    assert_eq!(
        audit_bgv_bootstrap_plaintext_modulus_switch_correction_from_phase_residues(
            8, 5, factor, 4, 3, 8, &phases,
        ),
        Err(BgvLevelError::CiphertextDegreeMismatch { expected: 8, actual: 4 })
    );
    assert_eq!(
        audit_bgv_bootstrap_plaintext_modulus_switch_correction_from_phase_residues(
            8, 5, factor, 8, 3, 16, &phases,
        ),
        Err(BgvLevelError::CiphertextDegreeMismatch { expected: 8, actual: 16 })
    );
}

#[test]
fn fusion_to_source_noise_correction_audit() {
    let chain = vec![97u64, 193];
    let factor = BgvPlaintextFactor::new(2, 7).unwrap();
    let audit = audit_bgv_bootstrap_fusion_to_source_noise_correction(
        8,
        7,
        factor,
        &chain,
        8,
        3,
        &chain,
        &vec![3, 4, 5],
        &vec![1, 4, 0],
    )
    .unwrap();
    assert_eq!(audit.target_coefficients, vec![0, 1, 2]);
    assert_eq!(audit.direct_coefficients, vec![1, 4, 0]);
    assert_eq!(audit.correction_coefficients, vec![2, 0, 2]);
    assert_eq!(audit.nonzero_correction_count, 2);
    assert_eq!(audit.correction_plaintext(8, 3), Ok(vec![2, 0, 2, 0, 0, 0, 0, 0]));
    assert_eq!(
        audit.correction_plaintext(16, 3),
        Err(BgvLevelError::CiphertextDegreeMismatch { expected: 8, actual: 16 })
    );
    assert_eq!(
        audit.correction_plaintext(8, 5),
        Err(BgvLevelError::CiphertextPlaintextModulusMismatch { expected: 3, actual: 5 })
    );
    assert_eq!(
        audit_bgv_bootstrap_fusion_to_source_noise_correction(
            8, 7, factor, &chain, 8, 3, &vec![97, 257], &vec![], &vec![],
        ),
        Err(BgvLevelError::CiphertextModulusChainMismatch)
    );
    let factor3 = BgvPlaintextFactor::new(3, 7).unwrap();
    assert_eq!(
        audit_bgv_bootstrap_fusion_to_source_noise_correction(
            8, 7, factor3, &chain, 8, 3, &chain, &vec![], &vec![],
        ),
        Err(BgvLevelError::PlaintextFactorNotInvertible { factor: 0, modulus: 3 })
    );
}

#[test]
fn lift_scalar_combines_the_inverse_factors() {
    let fusion_factor = BgvPlaintextFactor::new(3, 7).unwrap();
    let correction = BgvPlaintextFactor::new(2, 7).unwrap();
    assert_eq!(fusion_to_source_lift_scalar_mod_source(7, fusion_factor, 5, correction), Ok(2));
    assert_eq!(
        fusion_to_source_lift_scalar_mod_source(10, fusion_factor, 5, correction),
        Err(BgvLevelError::PlaintextFactorNotInvertible { factor: 0, modulus: 5 })
    );
    let five = BgvPlaintextFactor::new(5, 7).unwrap();
    assert_eq!(
        fusion_to_source_lift_scalar_mod_source(7, fusion_factor, 5, five),
        Err(BgvLevelError::PlaintextFactorNotInvertible { factor: 0, modulus: 5 })
    );
}

#[test]
fn circuit_readiness_reports_the_missing_bridge() {
    let aux = vec![1125899906842597u64];
    let ready = bgv_bootstrap_circuit_readiness(2, 8, 17, 3, 8, 17, 8, 17, 4, 8, 40, 50, &aux, 2)
        .unwrap();
    assert_eq!(ready.source_degree, 8);
    assert_eq!(ready.source_q_limbs, 3);
    assert_eq!(ready.target_q_limbs, 4);
    assert_eq!(ready.phase_bound_bits, 40);
    assert_eq!(ready.crt_modulus_product_bits, 50);
    assert_eq!(ready.auxiliary_plain_moduli, aux);
    assert!(ready.corrected_recryption);
    assert!(!ready.homomorphic_fusion_to_source_plaintext_bridge);
    assert!(!ready.full_bootstrapping_circuit);
    assert_eq!(ready.gaps, vec![BgvBootstrapCircuitGap::HomomorphicFusionToSourcePlaintextBridge]);

    assert_eq!(
        bgv_bootstrap_circuit_readiness(3, 8, 17, 3, 8, 17, 8, 17, 4, 8, 40, 50, &aux, 2),
        Err(BgvLevelError::RecryptionCiphertextSize { actual: 3 })
    );
    assert_eq!(
        bgv_bootstrap_circuit_readiness(2, 8, 17, 3, 16, 17, 8, 17, 4, 8, 40, 50, &aux, 2),
        Err(BgvLevelError::CiphertextDegreeMismatch { expected: 16, actual: 8 })
    );
    assert_eq!(
        bgv_bootstrap_circuit_readiness(2, 8, 17, 3, 8, 19, 8, 17, 4, 8, 40, 50, &aux, 2),
        Err(BgvLevelError::CiphertextPlaintextModulusMismatch { expected: 19, actual: 17 })
    );
    assert_eq!(
        bgv_bootstrap_circuit_readiness(2, 8, 17, 3, 8, 17, 4, 17, 4, 8, 40, 50, &aux, 2),
        Err(BgvLevelError::CiphertextDegreeMismatch { expected: 8, actual: 4 })
    );
    assert_eq!(
        bgv_bootstrap_circuit_readiness(2, 8, 17, 3, 8, 17, 8, 23, 4, 8, 40, 50, &aux, 2),
        Err(BgvLevelError::CiphertextPlaintextModulusMismatch { expected: 17, actual: 23 })
    );
    assert_eq!(
        bgv_bootstrap_circuit_readiness(2, 8, 17, 3, 8, 17, 8, 17, 4, 16, 40, 50, &aux, 2),
        Err(BgvLevelError::CiphertextDegreeMismatch { expected: 8, actual: 16 })
    );
}

#[test]
fn plaintext_spaces_must_agree() {
    assert_eq!(ensure_same_plaintext_space(8, 17, 8, 17), Ok(()));
    assert_eq!(
        ensure_same_plaintext_space(8, 17, 16, 17),
        Err(BgvLevelError::CiphertextDegreeMismatch { expected: 8, actual: 16 })
    );
    assert_eq!(
        ensure_same_plaintext_space(8, 17, 8, 257),
        Err(BgvLevelError::CiphertextPlaintextModulusMismatch { expected: 17, actual: 257 })
    );
}
