use silent_fhe::polymod::evaluate_mod;
use silent_fhe::schemes::bgv::bootstrap::{
    bgv_bootstrap_carry_correction_polynomial, bgv_bootstrap_single_modulus_wrap_classifier_polynomial,
    interpolate_lagrange_mod, max_abs_wrap_count_for_small_phase_bound,
};
use silent_fhe::schemes::bgv::ciphertext::BgvPlaintextFactor;
use silent_fhe::schemes::bgv::decode_lift::{
    audit_bgv_bootstrap_same_field_decode_lift,
    bgv_bootstrap_same_field_decode_lift_correction_polynomial,
    bgv_bootstrap_same_field_decode_polynomial, evaluate_centered_lift_mod_source,
    BgvBootstrapSameFieldDecodePolynomial,
};
use silent_fhe::schemes::bgv::crt::{
    bgv_bootstrap_wrap_interval_plan, moduli_product, BgvBootstrapCrtWrapReconstructionPlan,
};
use silent_fhe::schemes::bgv::params::BgvLevelError;
use silent_fhe::wide::WideInt;
use silent_fhe::schemes::bgv::same_field::{
    bgv_bootstrap_same_field_crt_residue_bridge, same_field_crt_wrap_classifier_from_classes,
    same_field_plaintext_modulus_switch_correction_classifier_from_residues,
    same_field_crt_residue_tuple, same_field_crt_residue_tuples, same_field_crt_tuple_count,
    same_field_crt_wrap_terms, same_field_indicator_scalar_coefficients,
    same_field_plaintext_modulus_switch_correction_terms,
};

#[test]
fn interpolation_recovers_the_polynomial_through_the_nodes() {
    let points = vec![(0u64, 1u64), (1, 3), (2, 7)];
    assert_eq!(interpolate_lagrange_mod(&points, 11), Ok(vec![1, 1, 1]));
    // constant data is trimmed down to one coefficient
    let flat = vec![(0u64, 5u64), (1, 5), (2, 5), (3, 5)];
    assert_eq!(interpolate_lagrange_mod(&flat, 13), Ok(vec![5]));
    let coeffs = interpolate_lagrange_mod(&vec![(4, 9), (7, 2), (10, 0)], 17).unwrap();
    assert_eq!(evaluate_mod(&coeffs, 4, 17), 9);
    assert_eq!(evaluate_mod(&coeffs, 7, 17), 2);
    assert_eq!(evaluate_mod(&coeffs, 10, 17), 0);
}

#[test]
fn interpolation_keeps_one_coefficient_for_the_zero_polynomial() {
    let zeros = vec![(0u64, 0u64), (1, 0), (2, 0)];
    assert_eq!(interpolate_lagrange_mod(&zeros, 5), Ok(vec![0]));
    assert_eq!(interpolate_lagrange_mod(&vec![(3, 0)], 5), Ok(vec![0]));
    assert_eq!(interpolate_lagrange_mod(&Vec::new(), 5), Ok(Vec::new()));
}

#[test]
fn interpolation_over_a_prime_succeeds_on_distinct_nodes() {
    // every set of distinct nodes below 13 can be interpolated modulo 13
    let points: Vec<(u64, u64)> = (0..13u64).map(|x| (x, (x * x + 3) % 13)).collect();
    let coeffs = interpolate_lagrange_mod(&points, 13).unwrap();
    assert_eq!(coeffs, vec![3, 0, 1]);
    let sparse = vec![(12u64, 1u64), (5, 0), (9, 4), (0, 7)];
    let coeffs = interpolate_lagrange_mod(&sparse, 13).unwrap();
    for (x, y) in &sparse {
        assert_eq!(evaluate_mod(&coeffs, *x, 13), *y);
    }
}

#[test]
fn interpolation_rejects_non_invertible_denominators() {
    assert_eq!(
        interpolate_lagrange_mod(&vec![(0, 1), (2, 3)], 4),
        Err(BgvLevelError::BootstrapCarryInterpolationDenominatorNotInvertible {
            denominator: 2,
            modulus: 4
        })
    );
    assert_eq!(
        interpolate_lagrange_mod(&vec![(1, 2), (1, 3)], 7),
        Err(BgvLevelError::BootstrapCarryInterpolationDenominatorNotInvertible {
            denominator: 0,
            modulus: 7
        })
    );
}

#[test]
fn carry_polynomial_maps_each_wrap_count_to_its_correction() {
    let t = 17u64;
    let p = bgv_bootstrap_carry_correction_polynomial(t, 2, 5, 20).unwrap();
    assert_eq!(p.plain_modulus, 17);
    assert_eq!(p.max_abs_wrap_count, 2);
    assert_eq!(p.q_mod_plaintext, 5);
    assert_eq!(p.factor_inverse, 3);
    let q_factor = 15i64;
    for w in -2i64..=2 {
        let expected = ((-w).rem_euclid(17) * q_factor).rem_euclid(17) as u64;
        assert_eq!(p.evaluate_scalar(w), expected);
    }
}

#[test]
fn carry_polynomial_errors() {
    assert_eq!(
        bgv_bootstrap_carry_correction_polynomial(5, 3, 1, 1),
        Err(BgvLevelError::BootstrapCarryBoundTooLarge { bound: 3, modulus: 5 })
    );
    assert_eq!(
        bgv_bootstrap_carry_correction_polynomial(5, u64::MAX, 1, 1),
        Err(BgvLevelError::BootstrapCarryBoundTooLarge { bound: u64::MAX, modulus: 5 })
    );
    assert!(matches!(
        bgv_bootstrap_carry_correction_polynomial(16, 1, 3, 1),
        Err(BgvLevelError::BootstrapCarryInterpolationDenominatorNotInvertible { modulus: 16, .. })
    ));
}

#[test]
fn same_field_tuple_count_checks_moduli_and_limit() {
    assert_eq!(same_field_crt_tuple_count(7, &vec![2, 3]), Ok(6));
    assert_eq!(same_field_crt_tuple_count(7, &vec![]), Ok(1));
    assert_eq!(
        same_field_crt_tuple_count(7, &vec![2, 7]),
        Err(BgvLevelError::BootstrapSameFieldCrtResidueModulusTooLarge {
            classifier_modulus: 7,
            residue_modulus: 7
        })
    );
    assert_eq!(
        same_field_crt_tuple_count(100, &vec![64, 65]),
        Err(BgvLevelError::BootstrapSameFieldCrtTupleCountTooLarge {
            tuple_count: 4160,
            max_tuples: 4096
        })
    );
    assert_eq!(
        same_field_crt_tuple_count(u64::MAX, &vec![4096, 1 << 62]),
        Err(BgvLevelError::BootstrapSameFieldCrtTupleCountTooLarge {
            tuple_count: u64::MAX,
            max_tuples: 4096
        })
    );
}

#[test]
fn indicator_polynomials_select_their_residue() {
    let tables = same_field_indicator_scalar_coefficients(7, &vec![2, 3]).unwrap();
    assert_eq!(tables.len(), 2);
    assert_eq!(tables[0].len(), 2);
    assert_eq!(tables[1].len(), 3);
    for (m, &r) in [2u64, 3].iter().enumerate() {
        for a in 0..r {
            for x in 0..r {
                let v = evaluate_mod(&tables[m][a as usize], x, 7);
                assert_eq!(v, if x == a { 1 } else { 0 });
            }
        }
    }
    assert_eq!(
        same_field_indicator_scalar_coefficients(4, &vec![3]),
        Err(BgvLevelError::BootstrapCarryInterpolationDenominatorNotInvertible {
            denominator: 2,
            modulus: 4
        })
    );
}

#[test]
fn residue_tuples_enumerate_lexicographically() {
    assert_eq!(
        same_field_crt_residue_tuples(&vec![2, 3], 6),
        vec![vec![0, 0], vec![0, 1], vec![0, 2], vec![1, 0], vec![1, 1], vec![1, 2]]
    );
    assert_eq!(same_field_crt_residue_tuple(&vec![3, 4, 5], 59), vec![2, 3, 4]);
    assert_eq!(same_field_crt_residue_tuples(&vec![], 1), vec![Vec::<u64>::new()]);
}

#[test]
fn wrap_terms_keep_tuples_with_nonzero_wraps() {
    let classes = vec![Ok(Some(0)), Ok(Some(1)), Ok(Some(0)), Ok(Some(-1)), Ok(Some(0)), Ok(Some(0))];
    let terms = same_field_crt_wrap_terms(&vec![2, 3], &classes, 7).unwrap();
    assert_eq!(terms.len(), 2);
    assert_eq!(terms[0].residues, vec![0, 1]);
    assert_eq!(terms[0].wrap_count, 1);
    assert_eq!(terms[0].wrap_scalar, 1);
    assert_eq!(terms[1].residues, vec![1, 0]);
    assert_eq!(terms[1].wrap_count, -1);
    assert_eq!(terms[1].wrap_scalar, 6);

    let out_of_range = vec![Ok(Some(2)), Ok(Some(0)), Ok(None), Ok(Some(0)), Ok(Some(0)), Ok(Some(0))];
    assert_eq!(
        same_field_crt_wrap_terms(&vec![2, 3], &out_of_range, 7),
        Err(BgvLevelError::BootstrapCrtReconstructionOutOfRange { coefficient: 1 })
    );
    let failed = vec![
        Ok(Some(0)),
        Err(BgvLevelError::BootstrapCrtResidueCountMismatch { expected: 2, actual: 1 }),
    ];
    assert_eq!(
        same_field_crt_wrap_terms(&vec![2], &failed, 7),
        Err(BgvLevelError::BootstrapCrtResidueCountMismatch { expected: 2, actual: 1 })
    );
}

#[test]
fn wrap_classifier_collects_tables_and_terms() {
    let classes = vec![Ok(Some(0)), Ok(Some(1)), Ok(Some(0)), Ok(Some(-1)), Ok(Some(0)), Ok(Some(0))];
    let c = same_field_crt_wrap_classifier_from_classes(8, 7, 8, &vec![2, 3], 1, &classes).unwrap();
    assert_eq!(c.source_degree, 8);
    assert_eq!(c.classifier_plain_modulus, 7);
    assert_eq!(c.auxiliary_plain_moduli, vec![2, 3]);
    assert_eq!(c.max_abs_wrap_count, 1);
    assert_eq!(c.tuple_count, 6);
    assert_eq!(c.indicator_scalar_coefficients.len(), 2);
    assert_eq!(c.nonzero_terms.len(), 2);
    assert_eq!(
        same_field_crt_wrap_classifier_from_classes(8, 7, 16, &vec![2, 3], 1, &classes),
        Err(BgvLevelError::CiphertextDegreeMismatch { expected: 16, actual: 8 })
    );
    assert_eq!(
        same_field_crt_wrap_classifier_from_classes(8, 3, 8, &vec![2, 3], 1, &classes),
        Err(BgvLevelError::BootstrapSameFieldCrtResidueModulusTooLarge {
            classifier_modulus: 3,
            residue_modulus: 3
        })
    );
    assert!(matches!(
        same_field_crt_wrap_classifier_from_classes(8, 4, 8, &vec![3], 1, &vec![Ok(Some(0)); 3]),
        Err(BgvLevelError::BootstrapCarryInterpolationDenominatorNotInvertible { modulus: 4, .. })
    ));
}

#[test]
fn plaintext_modulus_switch_terms_and_classifier() {
    let phases = vec![Ok((0, 0)), Ok((1, 0)), Ok((2, 2)), Ok((4, 1)), Ok((3, 0)), Ok((0, 1))];
    let terms =
        same_field_plaintext_modulus_switch_correction_terms(&vec![2, 3], &phases, 5, 3, 3, 7)
            .unwrap();
    let got: Vec<(Vec<u64>, u64)> =
        terms.iter().map(|t| (t.residues.clone(), t.correction_scalar)).collect();
    assert_eq!(
        got,
        vec![(vec![0, 2], 2), (vec![1, 0], 1), (vec![1, 1], 1), (vec![1, 2], 2)]
    );

    let factor = BgvPlaintextFactor::new(2, 5).unwrap();
    let c = same_field_plaintext_modulus_switch_correction_classifier_from_residues(
        8,
        5,
        factor,
        8,
        7,
        8,
        3,
        8,
        &vec![2, 3],
        &phases,
    )
    .unwrap();
    assert_eq!(c.source_factor_inverse, 3);
    assert_eq!(c.tuple_count, 6);
    assert_eq!(c.target_plain_modulus, 3);
    assert_eq!(c.nonzero_terms, terms);

    assert_eq!(
        same_field_plaintext_modulus_switch_correction_classifier_from_residues(
            8, 5, factor, 8, 2, 8, 3, 8, &vec![], &vec![Ok((0, 0))],
        ),
        Err(BgvLevelError::BootstrapSameFieldDecodeSourceModulusTooLarge {
            fusion_modulus: 2,
            source_modulus: 3
        })
    );
    assert_eq!(
        same_field_plaintext_modulus_switch_correction_classifier_from_residues(
            8, 5, factor, 4, 7, 8, 3, 8, &vec![], &vec![Ok((0, 0))],
        ),
        Err(BgvLevelError::CiphertextDegreeMismatch { expected: 8, actual: 4 })
    );
    assert_eq!(
        same_field_plaintext_modulus_switch_correction_classifier_from_residues(
            8, 5, factor, 8, 7, 16, 3, 8, &vec![], &vec![Ok((0, 0))],
        ),
        Err(BgvLevelError::CiphertextDegreeMismatch { expected: 8, actual: 16 })
    );
    assert_eq!(
        same_field_plaintext_modulus_switch_correction_classifier_from_residues(
            8, 5, factor, 8, 7, 8, 3, 2, &vec![], &vec![Ok((0, 0))],
        ),
        Err(BgvLevelError::CiphertextDegreeMismatch { expected: 8, actual: 2 })
    );
    let unit_mod_7 = BgvPlaintextFactor::new(5, 7).unwrap();
    assert_eq!(
        same_field_plaintext_modulus_switch_correction_classifier_from_residues(
            8, 5, unit_mod_7, 8, 7, 8, 3, 8, &vec![], &vec![Ok((0, 0))],
        ),
        Err(BgvLevelError::PlaintextFactorNotInvertible { factor: 5, modulus: 5 })
    );
}

fn decode(f: u64, s: u64, coefficients: Vec<u64>) -> BgvBootstrapSameFieldDecodePolynomial {
    BgvBootstrapSameFieldDecodePolynomial {
        source_degree: 4,
        fusion_plain_modulus: f,
        source_plain_modulus: s,
        factor_inverse: 1,
        phase_bound_abs: 2,
        scalar_coefficients: coefficients,
    }
}

#[test]
fn decode_polynomial_decodes_covered_residues() {
    let factor = BgvPlaintextFactor::new(2, 3).unwrap();
    let d = bgv_bootstrap_same_field_decode_polynomial(4, 3, factor, &vec![97], 4, 7, &WideInt::from_u64(2)).unwrap();
    assert_eq!(d.factor_inverse, 2);
    assert_eq!(d.phase_bound_abs, 2);
    let expected = [0u64, 2, 1, 0, 0, 2, 1];
    for x in 0..7u64 {
        assert_eq!(d.evaluate_scalar(x), expected[x as usize]);
    }
    // a ciphertext modulus of 4 wraps the centered residue -2 onto 2
    let small = bgv_bootstrap_same_field_decode_polynomial(4, 3, factor, &vec![4], 4, 7, &WideInt::from_u64(2)).unwrap();
    assert_eq!(small.evaluate_scalar(5), 1);
    assert_eq!(small.evaluate_scalar(6), 1);
}

#[test]
fn decode_polynomial_errors() {
    let factor = BgvPlaintextFactor::new(2, 3).unwrap();
    assert_eq!(
        bgv_bootstrap_same_field_decode_polynomial(4, 3, factor, &vec![97], 8, 7, &WideInt::from_u64(2)),
        Err(BgvLevelError::CiphertextDegreeMismatch { expected: 4, actual: 8 })
    );
    assert_eq!(
        bgv_bootstrap_same_field_decode_polynomial(4, 3, factor, &vec![97], 4, 8192, &WideInt::from_u64(2)),
        Err(BgvLevelError::BootstrapClassifierLookupTooLarge { modulus: 8192, max_points: 4096 })
    );
    assert_eq!(
        bgv_bootstrap_same_field_decode_polynomial(4, 3, factor, &vec![97], 4, 2, &WideInt::from_u64(0)),
        Err(BgvLevelError::BootstrapSameFieldDecodeSourceModulusTooLarge {
            fusion_modulus: 2,
            source_modulus: 3
        })
    );
    assert_eq!(
        bgv_bootstrap_same_field_decode_polynomial(4, 3, factor, &vec![97], 4, 7, &WideInt::from_u64(3)),
        Err(BgvLevelError::BootstrapSingleModulusClassifierCoverageTooSmall {
            modulus: 7,
            required: 7
        })
    );
    assert_eq!(
        bgv_bootstrap_same_field_decode_polynomial(4, 3, factor, &vec![97], 4, 7, &WideInt::from_u64(u64::MAX)),
        Err(BgvLevelError::BootstrapSingleModulusClassifierCoverageTooSmall {
            modulus: 7,
            required: u64::MAX
        })
    );
    let three = BgvPlaintextFactor::new(3, 7).unwrap();
    assert_eq!(
        bgv_bootstrap_same_field_decode_polynomial(4, 3, three, &vec![97], 4, 7, &WideInt::from_u64(2)),
        Err(BgvLevelError::PlaintextFactorNotInvertible { factor: 3, modulus: 3 })
    );
    assert!(matches!(
        bgv_bootstrap_same_field_decode_polynomial(4, 3, factor, &vec![97], 4, 8, &WideInt::from_u64(2)),
        Err(BgvLevelError::BootstrapCarryInterpolationDenominatorNotInvertible { modulus: 8, .. })
    ));
}

#[test]
fn decode_lift_audit_lists_the_mismatching_residues() {
    // D(x) = x over Z/7, source modulus 3
    let d = decode(7, 3, vec![0u64, 1]);
    let audit = audit_bgv_bootstrap_same_field_decode_lift(&d);
    assert_eq!(audit.source_degree, 4);
    assert_eq!(audit.mismatch_count, 3);
    let residues: Vec<u64> = audit.mismatches.iter().map(|m| m.raw_phase_residue).collect();
    assert_eq!(residues, vec![4, 5, 6]);
    assert_eq!(audit.mismatches[0].target_mod_source, 1);
    assert_eq!(audit.mismatches[0].centered_lift_mod_source, 0);
    assert_eq!(audit.mismatches[2].target_mod_source, 0);
    assert_eq!(audit.mismatches[2].centered_lift_mod_source, 2);
    assert!(audit.mismatches.iter().all(|m| m.correction_mod_source == 1));
    assert_eq!(evaluate_centered_lift_mod_source(&d.scalar_coefficients, 6, 7, 3), 2);
    assert_eq!(d.evaluate_scalar_centered_lift_mod_source(6), 2);
    assert_eq!(d.evaluate_scalar(13), 6);
}

#[test]
fn decode_lift_correction_restores_the_target() {
    let d = decode(7, 3, vec![3u64, 5, 2]);
    let corr = bgv_bootstrap_same_field_decode_lift_correction_polynomial(&d).unwrap();
    assert_eq!(corr.source_degree, 4);
    assert_eq!(corr.fusion_plain_modulus, 7);
    for x in 0..7u64 {
        let target = d.evaluate_scalar(x) % 3;
        let lift = d.evaluate_scalar_centered_lift_mod_source(x);
        assert_eq!((lift + corr.evaluate_scalar(x)) % 3, target);
    }
    assert!(matches!(
        bgv_bootstrap_same_field_decode_lift_correction_polynomial(&decode(4, 3, vec![3, 5, 2])),
        Err(BgvLevelError::BootstrapCarryInterpolationDenominatorNotInvertible { modulus: 4, .. })
    ));
}

#[test]
fn crt_residue_bridge_reduces_covered_lifts() {
    let b = bgv_bootstrap_same_field_crt_residue_bridge(4, 7, &bridge_plan(4, 2, vec![2, 3])).unwrap();
    assert_eq!(b.source_degree, 4);
    assert_eq!(b.phase_bound_abs, 2);
    assert_eq!(b.auxiliary_plain_moduli, vec![2, 3]);
    let expected = [[0u64, 1, 0, 0, 0, 0, 1], [0, 1, 2, 0, 0, 1, 2]];
    for m in 0..2 {
        for x in 0..7u64 {
            assert_eq!(evaluate_mod(&b.residue_scalar_coefficients[m], x, 7), expected[m][x as usize]);
        }
    }
}

#[test]
fn crt_residue_bridge_errors() {
    assert_eq!(
        bgv_bootstrap_same_field_crt_residue_bridge(4, 7, &bridge_plan(8, 2, vec![2])),
        Err(BgvLevelError::CiphertextDegreeMismatch { expected: 8, actual: 4 })
    );
    assert_eq!(
        bgv_bootstrap_same_field_crt_residue_bridge(4, 5000, &bridge_plan(4, 2, vec![2])),
        Err(BgvLevelError::BootstrapClassifierLookupTooLarge { modulus: 5000, max_points: 4096 })
    );
    assert_eq!(
        bgv_bootstrap_same_field_crt_residue_bridge(4, 5, &bridge_plan(4, 2, vec![2])),
        Err(BgvLevelError::BootstrapSingleModulusClassifierCoverageTooSmall {
            modulus: 5,
            required: 5
        })
    );
    assert_eq!(
        bgv_bootstrap_same_field_crt_residue_bridge(4, 7, &bridge_plan(4, 2, vec![2, 7])),
        Err(BgvLevelError::BootstrapSameFieldCrtResidueModulusTooLarge {
            classifier_modulus: 7,
            residue_modulus: 7
        })
    );
    assert!(matches!(
        bgv_bootstrap_same_field_crt_residue_bridge(4, 8, &bridge_plan(4, 2, vec![3])),
        Err(BgvLevelError::BootstrapCarryInterpolationDenominatorNotInvertible { modulus: 8, .. })
    ));
}

#[test]
fn single_modulus_classifier_maps_residues_to_wrap_counts() {
    // a large ciphertext modulus never wraps a small phase
    let c = bgv_bootstrap_single_modulus_wrap_classifier_polynomial(4, &vec![97], 4, 7, &WideInt::from_u64(2)).unwrap();
    assert_eq!(c.max_abs_wrap_count, 0);
    assert_eq!(c.scalar_coefficients, vec![0]);
    // Q = 3 wraps the phases in [-4, 4]
    let c = bgv_bootstrap_single_modulus_wrap_classifier_polynomial(4, &vec![3], 4, 11, &WideInt::from_u64(4)).unwrap();
    assert_eq!(c.max_abs_wrap_count, 1);
    let expected = [0u64, 0, 1, 1, 1, 0, 0, 10, 10, 10, 0];
    for x in 0..11u64 {
        assert_eq!(c.evaluate_scalar(x), expected[x as usize]);
    }
}

#[test]
fn single_modulus_classifier_errors() {
    assert_eq!(
        bgv_bootstrap_single_modulus_wrap_classifier_polynomial(4, &vec![97], 8, 7, &WideInt::from_u64(2)),
        Err(BgvLevelError::CiphertextDegreeMismatch { expected: 4, actual: 8 })
    );
    assert_eq!(
        bgv_bootstrap_single_modulus_wrap_classifier_polynomial(4, &vec![97], 4, 5000, &WideInt::from_u64(2)),
        Err(BgvLevelError::BootstrapClassifierLookupTooLarge { modulus: 5000, max_points: 4096 })
    );
    assert_eq!(
        bgv_bootstrap_single_modulus_wrap_classifier_polynomial(4, &vec![97], 4, 9, &WideInt::from_u64(4)),
        Err(BgvLevelError::BootstrapSingleModulusClassifierCoverageTooSmall {
            modulus: 9,
            required: 9
        })
    );
    assert!(matches!(
        bgv_bootstrap_single_modulus_wrap_classifier_polynomial(4, &vec![3], 4, 8, &WideInt::from_u64(2)),
        Err(BgvLevelError::BootstrapCarryInterpolationDenominatorNotInvertible { modulus: 8, .. })
    ));
}

#[test]
fn wrap_bound_takes_the_larger_extreme() {
    // Q = 7: 10 = 7 + 3 and −10 = −7 − 3, so one wrap either way
    assert_eq!(max_abs_wrap_count_for_small_phase_bound(&vec![7], 10), 1);
    // 25 = 4·7 − 3 and −25 = −4·7 + 3
    assert_eq!(max_abs_wrap_count_for_small_phase_bound(&vec![7], 25), 4);
    // Q = 15: 100 = 7·15 − 5
    assert_eq!(max_abs_wrap_count_for_small_phase_bound(&vec![3, 5], 100), 7);
    assert_eq!(max_abs_wrap_count_for_small_phase_bound(&vec![97, 193], 0), 0);
}

fn bridge_plan(degree: usize, phase_bound: u64, aux: Vec<u64>) -> BgvBootstrapCrtWrapReconstructionPlan {
    let modulus_product = moduli_product(&aux);
    BgvBootstrapCrtWrapReconstructionPlan {
        degree,
        auxiliary_plain_moduli: aux,
        modulus_product,
        phase_bound: WideInt::from_u64(phase_bound),
        max_abs_wrap_count: 0,
        wrap_interval_plan: bgv_bootstrap_wrap_interval_plan(&vec![97], 7, 0).unwrap(),
    }
}

#[test]
fn phase_bounds_beyond_machine_words_are_refused() {
    let huge = WideInt::from_u64(1 << 40).times(&WideInt::from_u64(1 << 40));
    assert!(matches!(
        bgv_bootstrap_single_modulus_wrap_classifier_polynomial(4, &vec![97], 4, 7, &huge),
        Err(BgvLevelError::BootstrapSingleModulusClassifierCoverageTooSmall { modulus: 7, required: u64::MAX })
    ));
    let negative = WideInt::from_i64(-2);
    assert!(bgv_bootstrap_single_modulus_wrap_classifier_polynomial(4, &vec![97], 4, 7, &negative).is_ok());
}
