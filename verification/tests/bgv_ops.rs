use silent_fhe::schemes::bgv::ciphertext::{validate_raw_ciphertext, BgvPolyShape, BgvRawCiphertextShape};
use silent_fhe::schemes::bgv::keys::{BgvDiagonalBsgsGroup, BgvDiagonalBsgsTerm};
use silent_fhe::schemes::bgv::ops::{
    add_fusion_encrypted_lift_to_raw, add_fusion_plaintext_lift_to_raw_c0, add_plain_to_c0, binary_linear_op,
    ensure_full_level_ciphertext, mod_switch_down, mod_switch_to_q_limbs, ensure_bsgs_galois_keys, ensure_same_bgv_level, ensure_same_bgv_modulus_chain,
    negate_poly_inplace, scale_poly_by_scalar, truncate_poly_q_prefix,
};
use silent_fhe::polymod::LinearOp;
use silent_fhe::schemes::bfv::ops::{add_ciphertexts, sub_ciphertexts};
use silent_fhe::schemes::bgv::params::{mod_switch_poly_to_q_limbs, BgvLevelError, BgvModSwitchTables};
use silent_fhe::schemes::bgv::plans::validate_phase_residue_recryption_input;

#[test]
fn plaintext_addition_and_its_undoing() {
    let moduli = vec![5, 7];
    let original = vec![vec![1, 4], vec![6, 0]];
    let mut c0 = original.clone();
    add_plain_to_c0(&mut c0, &vec![3, 8], &moduli, 2, 4, LinearOp::Add);
    assert_eq!(c0, vec![vec![4, 4], vec![2, 0]]);
    add_plain_to_c0(&mut c0, &vec![3, 8], &moduli, 2, 4, LinearOp::Sub);
    assert_eq!(c0, original);
    add_plain_to_c0(&mut c0, &vec![3, 1], &moduli, 2, 4, LinearOp::Sub);
    assert_eq!(c0, vec![vec![3, 3], vec![3, 6]]);
}

#[test]
fn negation_and_scaling_by_limb() {
    let moduli = vec![5, 7];
    let mut limbs = vec![vec![1, 0], vec![6, 3]];
    negate_poly_inplace(&mut limbs, &moduli, 2);
    assert_eq!(limbs, vec![vec![4, 0], vec![1, 4]]);
    negate_poly_inplace(&mut limbs, &moduli, 2);
    assert_eq!(limbs, vec![vec![1, 0], vec![6, 3]]);
    let mut limbs = vec![vec![1, 4], vec![6, 0]];
    scale_poly_by_scalar(&mut limbs, 3, &moduli, 2);
    assert_eq!(limbs, vec![vec![3, 2], vec![4, 0]]);
    // the scalar is reduced per limb first
    let mut limbs = vec![vec![1, 4], vec![6, 0]];
    scale_poly_by_scalar(&mut limbs, 10, &moduli, 2);
    assert_eq!(limbs, vec![vec![0, 0], vec![4, 0]]);
}

#[test]
fn truncation_keeps_the_leading_limbs() {
    let limbs = vec![vec![1, 2], vec![3, 4], vec![5, 6]];
    assert_eq!(truncate_poly_q_prefix(&limbs, 2), vec![vec![1, 2], vec![3, 4]]);
    assert_eq!(truncate_poly_q_prefix(&limbs, 0), Vec::<Vec<u64>>::new());
}

#[test]
fn level_and_chain_checks() {
    assert_eq!(ensure_same_bgv_level(2, 2), Ok(()));
    assert_eq!(
        ensure_same_bgv_level(2, 3),
        Err(BgvLevelError::CiphertextLevelMismatch { left: 2, right: 3 })
    );
    assert_eq!(ensure_same_bgv_modulus_chain(&vec![5, 7], &vec![5, 7]), Ok(()));
    assert_eq!(
        ensure_same_bgv_modulus_chain(&vec![5, 7], &vec![5]),
        Err(BgvLevelError::CiphertextLevelMismatch { left: 2, right: 1 })
    );
    assert_eq!(
        ensure_same_bgv_modulus_chain(&vec![5, 7], &vec![5, 11]),
        Err(BgvLevelError::CiphertextModulusChainMismatch)
    );
}

fn group(giant: u32, babies: &[u32]) -> BgvDiagonalBsgsGroup {
    BgvDiagonalBsgsGroup {
        giant,
        giant_inverse: giant,
        terms: babies
            .iter()
            .enumerate()
            .map(|(i, &baby)| BgvDiagonalBsgsTerm { baby, diagonal_index: i })
            .collect(),
    }
}

#[test]
fn bsgs_key_presence() {
    let groups = vec![group(1, &[1, 3, 5]), group(9, &[3])];
    assert_eq!(ensure_bsgs_galois_keys(&groups, &vec![3, 5, 9]), Ok(()));
    assert_eq!(
        ensure_bsgs_galois_keys(&groups, &vec![3, 9]),
        Err(BgvLevelError::MissingGaloisKey { index: 5 })
    );
    assert_eq!(
        ensure_bsgs_galois_keys(&groups, &vec![3, 5]),
        Err(BgvLevelError::MissingGaloisKey { index: 9 })
    );
    assert_eq!(ensure_bsgs_galois_keys(&vec![], &vec![]), Ok(()));
}

fn shape(ring_degree: usize, ring_limbs: usize, components: &[(usize, usize)]) -> BgvRawCiphertextShape {
    BgvRawCiphertextShape {
        ring_degree,
        ring_limbs,
        components: components
            .iter()
            .map(|&(degree, num_moduli)| BgvPolyShape { degree, num_moduli })
            .collect(),
    }
}

#[test]
fn raw_ciphertext_shapes() {
    assert_eq!(validate_raw_ciphertext(8, 2, &shape(8, 2, &[(8, 2), (8, 2)])), Ok(()));
    assert_eq!(
        validate_raw_ciphertext(8, 2, &shape(16, 3, &[])),
        Err(BgvLevelError::CiphertextDegreeMismatch { expected: 8, actual: 16 })
    );
    assert_eq!(
        validate_raw_ciphertext(8, 2, &shape(8, 3, &[])),
        Err(BgvLevelError::CiphertextLimbMismatch { expected: 2, actual: 3 })
    );
    assert_eq!(
        validate_raw_ciphertext(8, 2, &shape(8, 2, &[(8, 2), (8, 1), (4, 2)])),
        Err(BgvLevelError::CiphertextLimbMismatch { expected: 2, actual: 1 })
    );
    assert_eq!(
        validate_raw_ciphertext(8, 2, &shape(8, 2, &[(4, 1)])),
        Err(BgvLevelError::CiphertextDegreeMismatch { expected: 8, actual: 4 })
    );
}

#[test]
fn plaintext_fusion_lift_is_added_to_c0() {
    let moduli = vec![5, 7];
    let mut c0 = vec![vec![1, 2], vec![3, 4]];
    // f = 3, lambda = 4, correction [2]: adds 3 * 4 * 2 = 24 to the first coefficient
    add_fusion_plaintext_lift_to_raw_c0(&mut c0, &moduli, 2, 3, &vec![2], 4);
    assert_eq!(c0, vec![vec![0, 2], vec![6, 4]]);
}

#[test]
fn encrypted_fusion_lift_pads_and_adds() {
    let moduli = vec![5, 7];
    let raw = vec![vec![vec![1, 2], vec![3, 4]]];
    let lift = vec![vec![vec![1, 1], vec![1, 1]], vec![vec![2, 0], vec![0, 3]]];
    // the lift is scaled by 3 * 4 = 12 before it is added
    let out = add_fusion_encrypted_lift_to_raw(&raw, &lift, &moduli, 2, 3, 4);
    assert_eq!(out, vec![vec![vec![3, 4], vec![1, 2]], vec![vec![4, 0], vec![0, 1]]]);
    let unchanged = add_fusion_encrypted_lift_to_raw(&raw, &vec![], &moduli, 2, 3, 4);
    assert_eq!(unchanged, raw);
}

#[test]
fn phase_residue_recryption_inputs() {
    assert_eq!(
        validate_phase_residue_recryption_input(3, 8, 7, 8, 7, 8),
        Err(BgvLevelError::RecryptionCiphertextSize { actual: 3 })
    );
    assert_eq!(
        validate_phase_residue_recryption_input(2, 8, 7, 16, 7, 16),
        Err(BgvLevelError::CiphertextDegreeMismatch { expected: 16, actual: 8 })
    );
    assert_eq!(
        validate_phase_residue_recryption_input(2, 8, 5, 8, 7, 8),
        Err(BgvLevelError::CiphertextPlaintextModulusMismatch { expected: 7, actual: 5 })
    );
    assert_eq!(
        validate_phase_residue_recryption_input(2, 8, 7, 8, 7, 16),
        Err(BgvLevelError::CiphertextDegreeMismatch { expected: 8, actual: 16 })
    );
    assert_eq!(validate_phase_residue_recryption_input(2, 8, 7, 8, 7, 8), Ok(()));
}

fn switch_chain() -> (Vec<u64>, BgvModSwitchTables) {
    let moduli = vec![17, 13, 11];
    let tables = BgvModSwitchTables::new(&moduli, 3);
    (moduli, tables)
}

#[test]
fn polynomial_switches_down_level_by_level() {
    let (moduli, tables) = switch_chain();
    // coefficients 100 and -7 over 17 * 13 * 11
    let limbs = vec![vec![15, 10], vec![9, 6], vec![1, 4]];
    assert_eq!(mod_switch_poly_to_q_limbs(&limbs, &moduli, 2, 3, &tables, 3), limbs);
    // 100 + 3 * (-4) = 88 = 11 * 8
    assert_eq!(mod_switch_poly_to_q_limbs(&limbs, &moduli, 2, 3, &tables, 2), vec![vec![8, 15], vec![8, 11]]);
    // 8 + 3 * 6 = 26 = 13 * 2
    assert_eq!(mod_switch_poly_to_q_limbs(&limbs, &moduli, 2, 3, &tables, 1), vec![vec![2, 1]]);
    // the plaintext picks up the dropped primes: 2 * 13 * 11 = 286 = 100 (mod 3)
    assert_eq!((2 * 13 * 11) % 3, 100 % 3);
}

#[test]
fn ciphertext_switches_down_with_checks() {
    let (moduli, tables) = switch_chain();
    let ct = vec![
        vec![vec![15, 10], vec![9, 6], vec![1, 4]],
        vec![vec![5, 11], vec![5, 11], vec![5, 9]],
    ];
    assert_eq!(
        mod_switch_to_q_limbs(&ct, &moduli, 2, 3, &tables, 1),
        Ok(vec![vec![vec![2, 1]], vec![vec![1, 13]]])
    );
    assert_eq!(
        mod_switch_down(&ct, &moduli, 2, 3, &tables, 1),
        Ok(vec![vec![vec![8, 15], vec![8, 11]], vec![vec![1, 11], vec![1, 12]]])
    );
    assert_eq!(mod_switch_down(&ct, &moduli, 2, 3, &tables, 0), Ok(ct.clone()));
    assert_eq!(mod_switch_to_q_limbs(&ct, &moduli, 2, 3, &tables, 3), Ok(ct.clone()));
    assert_eq!(
        mod_switch_down(&ct, &moduli, 2, 3, &tables, 3),
        Err(BgvLevelError::TooManyCiphertextModuli { requested: 0, available: 3 })
    );
    assert_eq!(
        mod_switch_to_q_limbs(&ct, &moduli, 2, 3, &tables, 0),
        Err(BgvLevelError::EmptyCiphertextModulus)
    );
    assert_eq!(
        mod_switch_to_q_limbs(&ct, &moduli, 2, 3, &tables, 4),
        Err(BgvLevelError::TooManyCiphertextModuli { requested: 4, available: 3 })
    );
    let short = vec![vec![vec![15, 10], vec![9, 6]]];
    assert_eq!(
        mod_switch_to_q_limbs(&short, &moduli, 2, 3, &tables, 1),
        Err(BgvLevelError::CiphertextLimbMismatch { expected: 3, actual: 2 })
    );
    let ragged = vec![vec![vec![15, 10], vec![9], vec![1, 4]]];
    assert_eq!(
        mod_switch_to_q_limbs(&ragged, &moduli, 2, 3, &tables, 1),
        Err(BgvLevelError::CiphertextDegreeMismatch { expected: 2, actual: 1 })
    );
    assert_eq!(ensure_full_level_ciphertext(&ct, 2, 3), Ok(()));
}

#[test]
fn ciphertext_addition_and_subtraction() {
    let moduli = vec![5, 7];
    let c1 = vec![vec![vec![1, 4], vec![6, 0]], vec![vec![2, 2], vec![3, 3]]];
    let c2 = vec![vec![vec![4, 4], vec![2, 2]]];
    let sum = add_ciphertexts(&c1, &c2, &moduli, 2);
    assert_eq!(sum, vec![vec![vec![0, 3], vec![1, 2]], vec![vec![2, 2], vec![3, 3]]]);
    assert_eq!(sub_ciphertexts(&sum, &c2, &moduli, 2), c1);
    let difference = sub_ciphertexts(&c2, &c1, &moduli, 2);
    assert_eq!(difference, vec![vec![vec![3, 0], vec![3, 2]]]);
}

#[test]
fn bgv_linear_op_takes_the_larger_size() {
    let moduli = vec![5, 7];
    let c1 = vec![vec![vec![1, 4], vec![6, 0]]];
    let c2 = vec![vec![vec![4, 4], vec![2, 2]], vec![vec![1, 0], vec![0, 3]]];
    assert_eq!(
        binary_linear_op(&c1, &c2, &moduli, 2, LinearOp::Sub),
        vec![vec![vec![2, 0], vec![4, 5]], vec![vec![4, 0], vec![0, 4]]]
    );
    assert_eq!(
        binary_linear_op(&c1, &c2, &moduli, 2, LinearOp::Add),
        vec![vec![vec![0, 3], vec![1, 2]], vec![vec![1, 0], vec![0, 3]]]
    );
    assert_eq!(binary_linear_op(&c2, &c1, &moduli, 2, LinearOp::Add).len(), 2);
}
