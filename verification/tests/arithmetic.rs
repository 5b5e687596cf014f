use silent_fhe::modarith::{
    add_mod, centered_residue_mod_modulus, centered_residue_mod_plaintext, mod_inverse, mul_mod,
    signed_digit_to_mod, signed_i64_to_mod, sub_mod,
};
use silent_fhe::polymod::{add_coefficients_assign, evaluate_mod, mul_by_linear, negacyclic_mul_mod};

#[test]
fn modular_add_sub_mul_reduce_into_range() {
    assert_eq!(add_mod(5, 9, 7), 0);
    assert_eq!(add_mod(u64::MAX, u64::MAX, 10), ((u64::MAX as u128 * 2) % 10) as u64);
    assert_eq!(sub_mod(2, 5, 7), 4);
    assert_eq!(sub_mod(12, 5, 7), 0);
    assert_eq!(
        mul_mod(u64::MAX, u64::MAX - 1, 1_000_000_007),
        ((u64::MAX as u128) * ((u64::MAX - 1) as u128) % 1_000_000_007) as u64
    );
}

#[test]
fn mod_inverse_exists_exactly_for_units() {
    assert_eq!(mod_inverse(3, 7), Some(5));
    assert_eq!(mod_inverse(10, 7), Some(5));
    assert_eq!(mod_inverse(4, 8), None);
    assert_eq!(mod_inverse(0, 5), None);
    assert_eq!(mod_inverse(0, 1), None);
    let q = 0xffff_ffff_0000_0001u64;
    let inv = mod_inverse(12345, q).unwrap();
    assert_eq!(mul_mod(12345, inv, q), 1);
}

#[test]
fn signed_values_map_to_canonical_residues() {
    assert_eq!(signed_i64_to_mod(-3, 7), 4);
    assert_eq!(signed_i64_to_mod(-14, 7), 0);
    assert_eq!(signed_i64_to_mod(9, 7), 2);
    assert_eq!(signed_i64_to_mod(i64::MIN, 10), 2);
    assert_eq!(signed_digit_to_mod(-1, 17), 16);
}

#[test]
fn centered_lifts_choose_the_short_representative() {
    assert_eq!(centered_residue_mod_plaintext(6, 7), -1);
    assert_eq!(centered_residue_mod_plaintext(3, 7), 3);
    assert_eq!(centered_residue_mod_plaintext(10, 7), 3);
    assert_eq!(centered_residue_mod_plaintext(4, 8), 4);
    assert_eq!(centered_residue_mod_plaintext(5, 8), -3);
    assert_eq!(centered_residue_mod_modulus(6, 7, 5), 4);
    assert_eq!(centered_residue_mod_modulus(2, 7, 5), 2);
}

#[test]
fn horner_evaluation_reduces_modulo() {
    assert_eq!(evaluate_mod(&vec![1, 2, 3], 2, 100), 17);
    assert_eq!(evaluate_mod(&vec![1, 2, 3], 2, 5), 2);
    assert_eq!(evaluate_mod(&vec![], 9, 5), 0);
}

#[test]
fn multiplying_by_a_linear_factor() {
    // (X + 5) · 1 over Z/7
    assert_eq!(mul_by_linear(&vec![1], 5, 7), vec![5, 1]);
    // (X + 6) · (2 + X) = 12 + 8X + X² over Z/7
    assert_eq!(mul_by_linear(&vec![2, 1], 6, 7), vec![5, 1, 1]);
}

#[test]
fn adding_coefficients_in_place() {
    let mut acc = vec![1, 2, 3];
    add_coefficients_assign(&mut acc, &vec![6, 13], 7);
    assert_eq!(acc, vec![0, 1, 3]);
}

#[test]
fn negacyclic_product_wraps_with_a_sign_flip() {
    assert_eq!(negacyclic_mul_mod(&vec![1, 2, 3], &vec![4, 5, 6], 97), vec![74, 92, 28]);
    // multiplying by X shifts up and negates the top coefficient
    assert_eq!(negacyclic_mul_mod(&vec![1, 2, 3, 4], &vec![0, 1], 17), vec![13, 1, 2, 3]);
    assert_eq!(negacyclic_mul_mod(&vec![5, 6], &vec![7], 11), vec![2, 9]);
    assert_eq!(negacyclic_mul_mod(&vec![1, 2, 3], &vec![4, 5, 6, 7], 97), vec![67, 78, 7]);
    assert_eq!(negacyclic_mul_mod(&vec![], &vec![4, 5], 97), Vec::<u64>::new());
}
