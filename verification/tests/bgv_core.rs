use silent_fhe::modarith::mul_mod;
use silent_fhe::schemes::bgv::ciphertext::{
    mod_switch_plaintext_factor, scale_plaintext_by_factor, BgvPlaintextFactor,
};
use silent_fhe::schemes::bgv::keys::{
    automorphism_source_slot, bgv_all_slot_linear_transform_elements,
    bgv_canonical_galois_element_for_params, bgv_diagonal_bsgs_assignments,
    bgv_diagonal_bsgs_galois_elements, bgv_ksw_levels, bgv_slot_rotation_assignments,
    bit_length_u128, build_diagonal_bsgs_groups, bsgs_unique_babies, normalized_bsgs_babies,
    bgv_slot_rotation_galois_elements,
    bgv_full_slot_sum_galois_elements, bgv_galois_element_modulus, bgv_inverse_galois_element,
    bgv_multiply_galois_elements, bsgs_default_baby_count, canonical_galois_element,
    is_identity_galois_element, normalize_slot_rotation, push_unique_non_identity,
    reverse_low_bits, trailing_zeros, validate_slot_linear_transform_matrix,
    validate_slot_matrix_dimensions,
};
use silent_fhe::schemes::bgv::params::{
    mod_switch_poly_down_one, modulus_bits, BgvLevelError, BgvModSwitchTables,
};
use silent_fhe::schemes::bgv::scheme::BgvScheme;
use silent_fhe::schemes::bgv::galois_map::{
    apply_galois_coeff, automorph_plaintext_coeff, ensure_plaintext_compatible, galois_image_limb,
};

#[test]
fn plaintext_factor_is_a_unit_residue() {
    let one = BgvPlaintextFactor::one();
    assert_eq!(one.value(), 1);
    let f = BgvPlaintextFactor::new(10, 7).unwrap();
    assert_eq!(f.value(), 3);
    assert_eq!(f.inverse_mod(7).unwrap(), 5);
    assert_eq!(
        BgvPlaintextFactor::new(6, 9),
        Err(BgvLevelError::PlaintextFactorNotInvertible { factor: 6, modulus: 9 })
    );
    let g = BgvPlaintextFactor::new(4, 7).unwrap();
    assert_eq!(f.mul_mod(g, 7).unwrap().value(), 5);
    assert_eq!(
        f.inverse_mod(3),
        Err(BgvLevelError::PlaintextFactorNotInvertible { factor: 3, modulus: 3 })
    );
}

#[test]
fn mod_switch_tables_invert_the_dropped_scales() {
    let moduli = vec![97u64, 193, 257];
    let t = 17u64;
    let tables = BgvModSwitchTables::new(&moduli, t);
    assert_eq!(tables.q_limbs, 3);
    assert_eq!(tables.steps_by_source_limbs.len(), 2);
    // dropped products modulo 17: 12·6·2 = 8, 6·2 = 12, 2
    assert_eq!(tables.mod_switch_factor_inv_to_q_limbs(1).unwrap(), 10);
    assert_eq!(tables.mod_switch_factor_inv_to_q_limbs(2).unwrap(), 9);
    assert_eq!(tables.mod_switch_factor_inv_to_q_limbs(3).unwrap(), 1);
    assert_eq!(tables.factor_inv_by_target_limbs[0], 15);
    assert_eq!(
        tables.mod_switch_factor_inv_to_q_limbs(0),
        Err(BgvLevelError::EmptyCiphertextModulus)
    );
    assert_eq!(
        tables.mod_switch_factor_inv_to_q_limbs(4),
        Err(BgvLevelError::TooManyCiphertextModuli { requested: 4, available: 3 })
    );
    let step = tables.mod_switch_step_for_source_limbs(2).unwrap();
    assert_eq!(step.source_q_limbs, 2);
    assert_eq!(step.target_q_limbs, 1);
    assert_eq!(step.dropped_modulus, 193);
    assert_eq!(step.t_inv_mod_dropped, 159);
    assert_eq!(step.dropped_inv_mod_targets, vec![96]);
    let step3 = tables.mod_switch_step_for_source_limbs(3).unwrap();
    assert_eq!(step3.dropped_modulus, 257);
    for (j, &q) in moduli[..2].iter().enumerate() {
        assert_eq!(mul_mod(257 % q, step3.dropped_inv_mod_targets[j], q), 1);
    }
    assert!(matches!(
        tables.mod_switch_step_for_source_limbs(1),
        Err(BgvLevelError::TooManyCiphertextModuli { requested: 0, available: 1 })
    ));
    assert!(matches!(
        tables.mod_switch_step_for_source_limbs(4),
        Err(BgvLevelError::TooManyCiphertextModuli { requested: 4, available: 3 })
    ));
}

#[test]
fn modulus_bit_lengths() {
    assert_eq!(modulus_bits(0), 0);
    assert_eq!(modulus_bits(1), 1);
    assert_eq!(modulus_bits(255), 8);
    assert_eq!(modulus_bits(256), 9);
    assert_eq!(modulus_bits(u64::MAX), 64);
}

#[test]
fn galois_elements_are_units_modulo_twice_the_degree() {
    assert_eq!(bgv_galois_element_modulus(8), 16);
    assert_eq!(bgv_canonical_galois_element_for_params(8, 0), Ok(1));
    assert_eq!(bgv_canonical_galois_element_for_params(8, 19), Ok(3));
    assert_eq!(
        bgv_canonical_galois_element_for_params(8, 6),
        Err(BgvLevelError::InvalidGaloisElement { element: 6, modulus: 16 })
    );
    assert_eq!(
        bgv_canonical_galois_element_for_params(8, 16),
        Err(BgvLevelError::InvalidGaloisElement { element: 16, modulus: 16 })
    );
    assert_eq!(bgv_inverse_galois_element(8, 3), Ok(11));
    assert_eq!(bgv_multiply_galois_elements(8, 3, 11), 1);
    assert_eq!(bgv_multiply_galois_elements(8, 5, 7), 3);
    assert!(is_identity_galois_element(0));
    assert!(is_identity_galois_element(1));
    assert!(!is_identity_galois_element(3));
    assert_eq!(canonical_galois_element(0), 1);
    assert_eq!(canonical_galois_element(9), 9);
}

#[test]
fn galois_element_lists() {
    assert_eq!(bgv_full_slot_sum_galois_elements(4), vec![3, 5, 7]);
    assert_eq!(bgv_full_slot_sum_galois_elements(1), Vec::<u32>::new());
    assert_eq!(bgv_all_slot_linear_transform_elements(3), vec![1, 3, 5]);
    let mut elements = vec![3u32];
    push_unique_non_identity(&mut elements, 1);
    push_unique_non_identity(&mut elements, 3);
    push_unique_non_identity(&mut elements, 5);
    assert_eq!(elements, vec![3, 5]);
}

#[test]
fn bit_helpers() {
    assert_eq!(reverse_low_bits(0b0011, 4), 0b1100);
    assert_eq!(reverse_low_bits(0b1011, 3), 0b110);
    assert_eq!(reverse_low_bits(5, 0), 0);
    assert_eq!(trailing_zeros(8), 3);
    assert_eq!(trailing_zeros(1), 0);
    assert_eq!(trailing_zeros(0), usize::BITS);
}

#[test]
fn slot_rotation_and_matrix_shapes() {
    assert_eq!(normalize_slot_rotation(-1, 8), Ok(7));
    assert_eq!(normalize_slot_rotation(17, 8), Ok(1));
    assert_eq!(
        normalize_slot_rotation(3, 0),
        Err(BgvLevelError::SlotRotationUnsupported { rotation: 3, slots: 0 })
    );
    assert_eq!(validate_slot_matrix_dimensions(16, 2, 4), Ok(8));
    assert_eq!(
        validate_slot_matrix_dimensions(16, 0, 4),
        Err(BgvLevelError::InvalidSlotMatrixDimensions { rows: 0, columns: 4, slots: 16 })
    );
    assert_eq!(
        validate_slot_matrix_dimensions(16, 5, 4),
        Err(BgvLevelError::InvalidSlotMatrixDimensions { rows: 5, columns: 4, slots: 16 })
    );
    assert_eq!(
        validate_slot_linear_transform_matrix(2, &vec![]),
        Err(BgvLevelError::EmptySlotLinearTransformMatrix)
    );
    assert_eq!(
        validate_slot_linear_transform_matrix(2, &vec![vec![1, 2]]),
        Err(BgvLevelError::SlotLinearTransformRowCountMismatch { expected: 2, actual: 1 })
    );
    assert_eq!(
        validate_slot_linear_transform_matrix(2, &vec![vec![1, 2], vec![3]]),
        Err(BgvLevelError::SlotLinearTransformColumnCountMismatch { row: 1, expected: 2, actual: 1 })
    );
    assert_eq!(validate_slot_linear_transform_matrix(2, &vec![vec![1, 2], vec![3, 4]]), Ok(()));
}

#[test]
fn baby_step_count_is_the_ceiling_square_root() {
    assert_eq!(bsgs_default_baby_count(0), 1);
    assert_eq!(bsgs_default_baby_count(1), 1);
    assert_eq!(bsgs_default_baby_count(9), 3);
    assert_eq!(bsgs_default_baby_count(10), 4);
}

#[test]
fn bgv_scheme_name() {
    assert_eq!(BgvScheme.name(), "BGV");
}

#[test]
fn mod_switch_divides_by_the_dropped_prime() {
    let moduli = vec![97u64, 193, 257];
    let tables = BgvModSwitchTables::new(&moduli, 17);
    let step = tables.mod_switch_step_for_source_limbs(3).unwrap();
    // coefficients 1000, 5 and 70000 in residue form
    let source = vec![vec![30u64, 5, 63], vec![35, 5, 134], vec![229, 5, 96]];
    let out = mod_switch_poly_down_one(&source, &vec![97, 193], 3, 17, step);
    // (x + 17·c) / 257 for the centered correction c: 7, −6 and 269
    assert_eq!(out, vec![vec![7, 91, 75], vec![7, 187, 76]]);
}

fn groups_of(degree: usize, rotation: i32) -> Vec<(u32, Vec<usize>)> {
    bgv_slot_rotation_assignments(degree, rotation)
        .unwrap()
        .into_iter()
        .map(|g| (g.galois_element, g.destination_slots))
        .collect()
}

#[test]
fn slot_rotation_assignments_group_destinations_by_element() {
    assert_eq!(groups_of(4, 1), vec![(7, vec![0, 2]), (5, vec![1, 3])]);
    assert_eq!(groups_of(4, 2), vec![(3, vec![0, 1, 2, 3])]);
    assert_eq!(groups_of(4, -1), groups_of(4, 3));
    assert_eq!(
        groups_of(8, 1),
        vec![(15, vec![0, 4]), (9, vec![1, 3, 5, 7]), (5, vec![2]), (13, vec![6])]
    );
    assert_eq!(
        groups_of(8, 2),
        vec![(7, vec![0, 1, 4, 5]), (13, vec![2, 3]), (5, vec![6, 7])]
    );
    assert!(groups_of(8, 0).is_empty());
    assert!(groups_of(8, 16).is_empty());
    assert_eq!(
        bgv_slot_rotation_assignments(0, 1).err(),
        Some(BgvLevelError::SlotRotationUnsupported { rotation: 1, slots: 0 })
    );
}

#[test]
fn slot_rotation_groups_move_each_source_into_place() {
    let degree = 16usize;
    for rotation in [1i32, 2, 3, -1, 5] {
        let shift = (rotation as i64).rem_euclid(degree as i64) as usize;
        let mut covered = vec![false; degree];
        for group in bgv_slot_rotation_assignments(degree, rotation).unwrap() {
            for &d in &group.destination_slots {
                assert!(!covered[d]);
                covered[d] = true;
                assert_eq!(
                    automorphism_source_slot(degree, group.galois_element as usize, d),
                    (d + degree - shift) % degree
                );
            }
        }
        assert!(covered.iter().all(|&c| c));
    }
}

#[test]
fn slot_rotation_galois_elements_are_distinct_and_skip_the_identity() {
    assert_eq!(bgv_slot_rotation_galois_elements(8, &vec![1, 2]).unwrap(), vec![15, 9, 5, 13, 7]);
    assert_eq!(bgv_slot_rotation_galois_elements(8, &vec![0, 8]).unwrap(), Vec::<u32>::new());
    assert_eq!(bgv_slot_rotation_galois_elements(8, &vec![]).unwrap(), Vec::<u32>::new());
    assert_eq!(
        bgv_slot_rotation_galois_elements(0, &vec![1]),
        Err(BgvLevelError::SlotRotationUnsupported { rotation: 1, slots: 0 })
    );
}

fn split(degree: usize, diagonals: Vec<u32>, babies: Vec<u32>) -> Vec<(usize, u32, u32, u32)> {
    bgv_diagonal_bsgs_assignments(degree, &diagonals, &babies)
        .unwrap()
        .into_iter()
        .map(|a| (a.diagonal_index, a.baby, a.giant, a.giant_inverse))
        .collect()
}

#[test]
fn bsgs_babies_start_with_the_identity() {
    assert_eq!(normalized_bsgs_babies(8, &vec![1, 3, 5, 7, 9, 11, 13, 15], &vec![]).unwrap(), vec![1, 3, 5]);
    assert_eq!(normalized_bsgs_babies(8, &vec![3, 3, 5], &vec![]).unwrap(), vec![1, 3]);
    assert_eq!(normalized_bsgs_babies(8, &vec![3], &vec![5, 21, 0]).unwrap(), vec![1, 5]);
    assert_eq!(
        normalized_bsgs_babies(8, &vec![3], &vec![2]),
        Err(BgvLevelError::InvalidGaloisElement { element: 2, modulus: 16 })
    );
}

#[test]
fn bsgs_assignments_split_each_diagonal() {
    assert_eq!(
        split(8, vec![1, 3, 5, 7, 9, 11, 13, 15], vec![]),
        vec![
            (0, 1, 1, 1),
            (1, 3, 1, 1),
            (2, 5, 1, 1),
            (3, 1, 7, 7),
            (4, 1, 9, 9),
            (5, 1, 11, 3),
            (6, 1, 13, 5),
            (7, 1, 15, 15),
        ]
    );
    assert_eq!(split(8, vec![3, 5, 7], vec![3]), vec![(0, 3, 1, 1), (1, 3, 7, 7), (2, 1, 7, 7)]);
    assert_eq!(split(4, vec![0, 3, 5, 7], vec![]), vec![(0, 1, 1, 1), (1, 3, 1, 1), (2, 1, 5, 5), (3, 1, 7, 7)]);
    let diagonals = vec![1u32, 5, 9, 13, 17, 21, 25, 29];
    for (i, baby, giant, giant_inverse) in split(16, diagonals.clone(), vec![]) {
        assert_eq!((baby as u64 * giant as u64) % 32, diagonals[i] as u64);
        assert_eq!((giant as u64 * giant_inverse as u64) % 32, 1);
    }
    assert_eq!(
        bgv_diagonal_bsgs_assignments(8, &vec![3, 4], &vec![]).err(),
        Some(BgvLevelError::InvalidGaloisElement { element: 4, modulus: 16 })
    );
}

#[test]
fn bsgs_galois_elements_are_distinct_and_skip_the_identity() {
    assert_eq!(
        bgv_diagonal_bsgs_galois_elements(8, &vec![1, 3, 5, 7, 9, 11, 13, 15], &vec![]).unwrap(),
        vec![3, 5, 7, 9, 11, 13, 15]
    );
    assert_eq!(bgv_diagonal_bsgs_galois_elements(8, &vec![3, 5, 7], &vec![3]).unwrap(), vec![3, 7]);
}

#[test]
fn mod_switched_factor_absorbs_the_dropped_scale() {
    let tables = BgvModSwitchTables::new(&vec![97u64, 193, 257], 17);
    let f = BgvPlaintextFactor::new(3, 17).unwrap();
    // 3 · 10 = 30 ≡ 13, 3 · 9 = 27 ≡ 10 (mod 17)
    assert_eq!(mod_switch_plaintext_factor(f, &tables, 17, 1).unwrap().value(), 13);
    assert_eq!(mod_switch_plaintext_factor(f, &tables, 17, 2).unwrap().value(), 10);
    assert_eq!(mod_switch_plaintext_factor(f, &tables, 17, 3).unwrap().value(), 3);
    assert_eq!(
        mod_switch_plaintext_factor(f, &tables, 17, 0),
        Err(BgvLevelError::EmptyCiphertextModulus)
    );
    assert_eq!(
        mod_switch_plaintext_factor(f, &tables, 17, 4),
        Err(BgvLevelError::TooManyCiphertextModuli { requested: 4, available: 3 })
    );
}

#[test]
fn key_switching_digit_count_follows_the_chain_size() {
    // 97 · 193 · 257 has 23 bits: ⌈23 / 8⌉ + 1
    assert_eq!(bgv_ksw_levels(&vec![97, 193, 257]), 4);
    // a chain past 128 bits counts the moduli's bits: 60 + 60 + 61
    assert_eq!(
        bgv_ksw_levels(&vec![(1u64 << 60) - 93, (1u64 << 60) - 173, (1u64 << 61) - 1]),
        24
    );
    assert_eq!(bgv_ksw_levels(&vec![]), 2);
    assert_eq!(bit_length_u128(0), 0);
    assert_eq!(bit_length_u128(1), 1);
    assert_eq!(bit_length_u128(u128::MAX), 128);
}

fn groups_summary(degree: usize, diagonals: Vec<u32>, babies: Vec<u32>) -> Vec<(u32, u32, Vec<(u32, usize)>)> {
    build_diagonal_bsgs_groups(degree, &diagonals, &babies)
        .unwrap()
        .into_iter()
        .map(|g| (g.giant, g.giant_inverse, g.terms.iter().map(|t| (t.baby, t.diagonal_index)).collect()))
        .collect()
}

#[test]
fn bsgs_groups_gather_diagonals_by_giant_step() {
    assert_eq!(
        groups_summary(8, vec![1, 3, 5, 7, 9, 11, 13, 15], vec![]),
        vec![
            (1, 1, vec![(1, 0), (3, 1), (5, 2)]),
            (7, 7, vec![(1, 3)]),
            (9, 9, vec![(1, 4)]),
            (11, 3, vec![(1, 5)]),
            (13, 5, vec![(1, 6)]),
            (15, 15, vec![(1, 7)]),
        ]
    );
    assert_eq!(
        groups_summary(8, vec![3, 5, 7], vec![3]),
        vec![(1, 1, vec![(3, 0)]), (7, 7, vec![(3, 1), (1, 2)])]
    );
    let groups = build_diagonal_bsgs_groups(8, &vec![3, 5, 7], &vec![3]).unwrap();
    assert_eq!(bsgs_unique_babies(&groups), vec![3, 1]);
    let groups = build_diagonal_bsgs_groups(8, &vec![1, 3, 5, 7, 9, 11, 13, 15], &vec![]).unwrap();
    assert_eq!(bsgs_unique_babies(&groups), vec![1, 3, 5]);
    assert_eq!(
        build_diagonal_bsgs_groups(8, &vec![3, 4], &vec![]).err(),
        Some(BgvLevelError::InvalidGaloisElement { element: 4, modulus: 16 })
    );
}

#[test]
fn coefficient_automorphism_permutes_with_signs() {
    // X ↦ X^3 modulo X^4 + 1: coefficient i goes to 3i mod 8
    let map = vec![0u64, 3, 6, 1];
    let p = vec![1u64, 2, 3, 4];
    assert_eq!(automorph_plaintext_coeff(&p, 1, 3, 4, 17, &map).unwrap(), vec![1, 4, 14, 2]);
    assert_eq!(automorph_plaintext_coeff(&p, 1, 1, 4, 17, &map).unwrap(), p);
    assert_eq!(automorph_plaintext_coeff(&p, 1, 0, 4, 17, &map).unwrap(), p);
    assert_eq!(
        automorph_plaintext_coeff(&p, 1, 2, 4, 17, &map),
        Err(BgvLevelError::InvalidGaloisElement { element: 2, modulus: 8 })
    );
    assert_eq!(
        automorph_plaintext_coeff(&vec![1, 2, 3], 1, 3, 4, 17, &map),
        Err(BgvLevelError::PlaintextDegreeMismatch { expected: 4, actual: 3 })
    );
    assert_eq!(
        automorph_plaintext_coeff(&p, 2, 3, 4, 17, &map),
        Err(BgvLevelError::PlaintextLimbMismatch { expected: 1, actual: 2 })
    );
    assert_eq!(ensure_plaintext_compatible(4, 4, 1), Ok(()));
}

#[test]
fn plaintext_scaling_multiplies_every_coefficient() {
    let f = BgvPlaintextFactor::new(3, 17).unwrap();
    assert_eq!(scale_plaintext_by_factor(&vec![1, 5, 16, 40], f, 17).unwrap(), vec![3, 15, 14, 1]);
    let one = BgvPlaintextFactor::one();
    assert_eq!(scale_plaintext_by_factor(&vec![1, 5, 40], one, 17).unwrap(), vec![1, 5, 40]);
    // 3 is not a unit modulo 9
    assert_eq!(
        scale_plaintext_by_factor(&vec![1], f, 9),
        Err(BgvLevelError::PlaintextFactorNotInvertible { factor: 3, modulus: 9 })
    );
}

#[test]
fn galois_coefficient_map_permutes_and_negates() {
    // X ↦ X^3 modulo X^4 + 1: source i goes to 3i mod 8
    let map = vec![0u64, 3, 6, 1];
    assert_eq!(galois_image_limb(&vec![0, 1, 0, 0], 17, 4, &map), vec![0, 0, 0, 1]);
    assert_eq!(galois_image_limb(&vec![1, 2, 3, 4], 17, 4, &map), vec![1, 4, 14, 2]);
    let poly = vec![vec![1u64, 2, 3, 4], vec![1u64, 2, 3, 4]];
    assert_eq!(
        apply_galois_coeff(&poly, &vec![17, 5], 4, &map),
        vec![vec![1, 4, 14, 2], vec![1, 4, 2, 2]]
    );
    assert_eq!(galois_image_limb(&vec![0, 0, 0, 0], 17, 4, &map), vec![0, 0, 0, 0]);
}
