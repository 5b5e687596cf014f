use silent_fhe::schemes::bgv::ciphertext::{BgvCiphertext, BgvPlaintextFactor};
use silent_fhe::schemes::bgv::ops::{
    add_bgv, add_plain_bgv, adjust_levels_depth_and_factors_bgv, align_bgv_levels,
    align_bgv_noise_scale_degree, drop_level_bgv, mod_switch_down_bgv, mod_switch_to_q_limbs_bgv, mul_bgv,
    mul_ciphertexts, mul_plain_bgv,
    scale_bgv_ciphertext_by_factor, set_bgv_noise_scale_degree, sub_bgv, sub_plain_bgv,
};
use silent_fhe::schemes::bgv::params::{BgvLevelError, BgvModSwitchTables};

fn chain() -> Vec<u64> {
    vec![17, 13, 11]
}

fn components() -> Vec<Vec<Vec<u64>>> {
    // c0 holds 100 and -7, c1 holds 5 and 2000, over 17 * 13 * 11
    vec![
        vec![vec![15, 10], vec![9, 6], vec![1, 4]],
        vec![vec![5, 11], vec![5, 11], vec![5, 9]],
    ]
}

fn ciphertext() -> BgvCiphertext {
    let moduli = chain();
    let tables = BgvModSwitchTables::new(&moduli, 3);
    BgvCiphertext::new(2, 3, moduli, tables, components()).unwrap()
}

fn with_factor(value: u64) -> BgvCiphertext {
    let moduli = chain();
    let tables = BgvModSwitchTables::new(&moduli, 3);
    let factor = BgvPlaintextFactor::new(value, 3).unwrap();
    BgvCiphertext::with_plaintext_factor(2, 3, moduli, tables, components(), factor).unwrap()
}

#[test]
fn ciphertexts_are_checked_on_construction() {
    let ct = ciphertext();
    assert_eq!(ct.int_factor.value(), 1);
    assert_eq!(ct.noise_scale_degree, 1);
    assert_eq!(ct.q_modulus_count(), 3);
    let moduli = chain();
    let short = vec![vec![vec![15, 10], vec![9, 6]]];
    assert_eq!(
        BgvCiphertext::new(2, 3, moduli.clone(), BgvModSwitchTables::new(&moduli, 3), short).unwrap_err(),
        BgvLevelError::CiphertextLimbMismatch { expected: 3, actual: 2 }
    );
    let ragged = vec![vec![vec![15, 10], vec![9], vec![1, 4]]];
    assert_eq!(
        BgvCiphertext::new(2, 3, moduli.clone(), BgvModSwitchTables::new(&moduli, 3), ragged).unwrap_err(),
        BgvLevelError::CiphertextDegreeMismatch { expected: 2, actual: 1 }
    );
    let zero_mod_three = BgvPlaintextFactor::new(6, 7).unwrap();
    assert_eq!(
        BgvCiphertext::with_metadata(
            2,
            3,
            moduli.clone(),
            BgvModSwitchTables::new(&moduli, 3),
            components(),
            zero_mod_three,
            1
        )
        .unwrap_err(),
        BgvLevelError::PlaintextFactorNotInvertible { factor: 6, modulus: 3 }
    );
}

#[test]
fn switching_down_updates_factor_and_noise() {
    let ct = ciphertext();
    let low = mod_switch_down_bgv(2, 3, &ct, 1).unwrap();
    assert_eq!(low.moduli, vec![17, 13]);
    assert_eq!(low.components, vec![vec![vec![8, 15], vec![8, 11]], vec![vec![1, 11], vec![1, 12]]]);
    // the dropped prime 11 = 2 (mod 3) leaves the inverse scale 2
    assert_eq!(low.int_factor.value(), 2);
    assert_eq!(low.noise_scale_degree, 0);
    let lowest = mod_switch_to_q_limbs_bgv(2, 3, &ct, 1).unwrap();
    assert_eq!(lowest.moduli, vec![17]);
    assert_eq!(lowest.components, vec![vec![vec![2, 1]], vec![vec![1, 13]]]);
    assert_eq!(lowest.int_factor.value(), 2);
    let same = mod_switch_down_bgv(2, 3, &ct, 0).unwrap();
    assert_eq!(same.components, ct.components);
    assert_eq!(
        mod_switch_to_q_limbs_bgv(4, 3, &ct, 1).unwrap_err(),
        BgvLevelError::CiphertextDegreeMismatch { expected: 4, actual: 2 }
    );
    assert_eq!(
        mod_switch_to_q_limbs_bgv(2, 5, &ct, 1).unwrap_err(),
        BgvLevelError::CiphertextPlaintextModulusMismatch { expected: 5, actual: 3 }
    );
    assert_eq!(mod_switch_to_q_limbs_bgv(2, 3, &ct, 0).unwrap_err(), BgvLevelError::EmptyCiphertextModulus);
    assert_eq!(
        mod_switch_to_q_limbs_bgv(2, 3, &ct, 4).unwrap_err(),
        BgvLevelError::TooManyCiphertextModuli { requested: 4, available: 3 }
    );
    assert_eq!(
        mod_switch_down_bgv(2, 3, &ct, 3).unwrap_err(),
        BgvLevelError::TooManyCiphertextModuli { requested: 0, available: 3 }
    );
}

#[test]
fn dropping_levels_keeps_the_low_residues() {
    let ct = ciphertext();
    let dropped = drop_level_bgv(2, 3, &ct, 1).unwrap();
    assert_eq!(dropped.moduli, vec![17, 13]);
    assert_eq!(dropped.components, vec![vec![vec![15, 10], vec![9, 6]], vec![vec![5, 11], vec![5, 11]]]);
    assert_eq!(dropped.int_factor.value(), 1);
    assert_eq!(dropped.noise_scale_degree, 1);
    assert_eq!(
        drop_level_bgv(2, 3, &ct, 3).unwrap_err(),
        BgvLevelError::TooManyCiphertextModuli { requested: 0, available: 3 }
    );
    assert_eq!(drop_level_bgv(2, 3, &ct, 0).unwrap().components, ct.components);
}

#[test]
fn plaintexts_are_added_to_the_first_component() {
    let ct = ciphertext();
    let sum = add_plain_bgv(2, 3, &ct, &vec![2, 1]).unwrap();
    assert_eq!(sum.components[0], vec![vec![0, 11], vec![11, 7], vec![3, 5]]);
    assert_eq!(sum.components[1], ct.components[1]);
    let back = sub_plain_bgv(2, 3, &sum, &vec![2, 1]).unwrap();
    assert_eq!(back.components, ct.components);
    assert_eq!(
        add_plain_bgv(8, 3, &ct, &vec![2, 1]).unwrap_err(),
        BgvLevelError::CiphertextDegreeMismatch { expected: 8, actual: 2 }
    );
}

#[test]
fn scaling_by_a_factor_raises_the_noise_degree() {
    let ct = ciphertext();
    let two = BgvPlaintextFactor::new(2, 3).unwrap();
    let scaled = scale_bgv_ciphertext_by_factor(&ct, two).unwrap();
    assert_eq!(scaled.int_factor.value(), 2);
    assert_eq!(scaled.noise_scale_degree, 2);
    assert_eq!(
        scaled.components,
        vec![vec![vec![13, 3], vec![5, 12], vec![2, 8]], vec![vec![10, 5], vec![10, 9], vec![10, 7]]]
    );
    let unchanged = scale_bgv_ciphertext_by_factor(&ct, BgvPlaintextFactor::one()).unwrap();
    assert_eq!(unchanged.components, ct.components);
    assert_eq!(unchanged.noise_scale_degree, 1);
    let raised = set_bgv_noise_scale_degree(ciphertext(), 5).unwrap();
    assert_eq!(raised.noise_scale_degree, 5);
    let (a, b) = align_bgv_noise_scale_degree(raised, ciphertext()).unwrap();
    assert_eq!((a.noise_scale_degree, b.noise_scale_degree), (5, 5));
}

#[test]
fn operands_are_brought_to_one_level_and_factor() {
    let ct = ciphertext();
    let low = mod_switch_down_bgv(2, 3, &ct, 1).unwrap();
    let (a, b) = align_bgv_levels(2, 3, &ct, &low).unwrap();
    assert_eq!(a.moduli, vec![17, 13]);
    assert_eq!(a.components, low.components);
    assert_eq!(b.components, low.components);
    let (a, b) = adjust_levels_depth_and_factors_bgv(2, 3, &ct, &with_factor(2)).unwrap();
    assert_eq!(a.int_factor, b.int_factor);
    assert_eq!(a.int_factor.value(), 2);
    assert_eq!((a.noise_scale_degree, b.noise_scale_degree), (2, 2));
    let other_moduli = vec![17, 19];
    let other = BgvCiphertext::new(
        2,
        3,
        other_moduli.clone(),
        BgvModSwitchTables::new(&other_moduli, 3),
        vec![vec![vec![1, 2], vec![3, 4]]],
    )
    .unwrap();
    assert_eq!(
        adjust_levels_depth_and_factors_bgv(2, 3, &ct, &other).unwrap_err(),
        BgvLevelError::CiphertextModulusChainMismatch
    );
}

#[test]
fn ciphertexts_add_and_subtract_after_adjustment() {
    let ct = ciphertext();
    // factors 1 and 2: the first is scaled by 2, the sum holds 3 times the residues
    let sum = add_bgv(2, 3, &ct, &with_factor(2)).unwrap();
    assert_eq!(sum.int_factor.value(), 2);
    assert_eq!(sum.noise_scale_degree, 2);
    assert_eq!(
        sum.components,
        vec![vec![vec![11, 13], vec![1, 5], vec![3, 1]], vec![vec![15, 16], vec![2, 7], vec![4, 5]]]
    );
    let low = mod_switch_down_bgv(2, 3, &ct, 1).unwrap();
    let doubled = add_bgv(2, 3, &ct, &low).unwrap();
    assert_eq!(doubled.moduli, vec![17, 13]);
    assert_eq!(doubled.components, vec![vec![vec![16, 13], vec![3, 9]], vec![vec![2, 5], vec![2, 11]]]);
    let zero = sub_bgv(2, 3, &ct, &ct).unwrap();
    assert!(zero.components.iter().all(|c| c.iter().all(|limb| limb.iter().all(|&x| x == 0))));
    assert_eq!(
        add_bgv(4, 3, &ct, &ct).unwrap_err(),
        BgvLevelError::CiphertextDegreeMismatch { expected: 4, actual: 2 }
    );
}

#[test]
fn plaintext_products_in_the_negacyclic_ring() {
    let ct = ciphertext();
    let same = mul_plain_bgv(2, 3, &ct, &vec![1, 0]).unwrap();
    assert_eq!(same.components, ct.components);
    // times X: (a + bX) X = -b + aX modulo X^2 + 1
    let shifted = mul_plain_bgv(2, 3, &ct, &vec![0, 1]).unwrap();
    assert_eq!(shifted.components[0], vec![vec![7, 15], vec![7, 9], vec![7, 1]]);
    // the plaintext is reduced modulo t = 3 first: 5 acts as 2
    let doubled = mul_plain_bgv(2, 3, &ct, &vec![5, 0]).unwrap();
    assert_eq!(doubled.components[0], vec![vec![13, 3], vec![5, 12], vec![2, 8]]);
    assert_eq!(doubled.int_factor.value(), 1);
    assert_eq!(
        mul_plain_bgv(2, 7, &ct, &vec![1, 0]).unwrap_err(),
        BgvLevelError::CiphertextPlaintextModulusMismatch { expected: 7, actual: 3 }
    );
}

#[test]
fn ciphertext_products_are_tensor_products() {
    let ct = ciphertext();
    let product = mul_bgv(2, 3, &ct, &ct).unwrap();
    assert_eq!(
        product.components,
        vec![
            vec![vec![6, 11], vec![6, 4], vec![7, 8]],
            vec![vec![15, 5], vec![10, 11], vec![4, 3]],
            vec![vec![6, 8], vec![8, 6], vec![10, 2]],
        ]
    );
    assert_eq!(product.noise_scale_degree, 2);
    assert_eq!(product.int_factor.value(), 1);
    let squared_factor = mul_bgv(2, 3, &with_factor(2), &with_factor(2)).unwrap();
    assert_eq!(squared_factor.int_factor.value(), 1);
    let raw = mul_ciphertexts(&ct.components, &vec![ct.components[0].clone()], &chain(), 2);
    assert_eq!(raw.len(), 2);
    assert_eq!(raw[0], product.components[0]);
}
