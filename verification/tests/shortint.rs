use silent_fhe::schemes::shortint::error::ShortintError;
use silent_fhe::schemes::shortint::scheme::ShortintScheme;
use silent_fhe::schemes::shortint::server_key::{
    add_noise_degree, bitand_table, bitnot_table, bitor_table, bitxor_table, bivariate_noise_degree,
    bivariate_table_output, bivariate_unpack, carry_is_empty, check_message_range, eq_table,
    ge_table, gt_table, is_bivariate_pbs_possible, le_table, lt_table, max_table,
    message_extract_noise_degree, message_extract_table, min_table, mul_table, ne_table,
    neg_scalar, nominal_noise_degree, scalar_mul_noise_degree, shortint_noise_bounds,
    unchecked_add_noise_degree, unchecked_bivariate_noise_degree,
    unchecked_scalar_mul_noise_degree,
};
use silent_fhe::schemes::shortint::types::{
    CiphertextNoiseDegree, Degree, MaxDegree, MaxNoiseLevel, NoiseLevel,
};

fn nd(degree: u64, noise: u64) -> CiphertextNoiseDegree {
    CiphertextNoiseDegree { degree: Degree::new(degree), noise: NoiseLevel::new(noise) }
}

fn same(a: CiphertextNoiseDegree, b: CiphertextNoiseDegree) -> bool {
    a.degree == b.degree && a.noise == b.noise
}

#[test]
fn degree_and_noise_saturate() {
    assert_eq!(Degree::new(3).saturating_add(Degree::new(4)).get(), 7);
    assert_eq!(Degree::new(u64::MAX).saturating_add(Degree::new(1)).get(), u64::MAX);
    assert_eq!(Degree::new(3).saturating_mul_scalar(5).get(), 15);
    assert_eq!(Degree::new(u64::MAX / 2 + 1).saturating_mul_scalar(2).get(), u64::MAX);
    assert_eq!(NoiseLevel::nominal().get(), 1);
    assert_eq!(NoiseLevel::new(2).saturating_add(NoiseLevel::new(3)).get(), 5);
    assert_eq!(NoiseLevel::new(u64::MAX).saturating_mul_scalar(3).get(), u64::MAX);
}

#[test]
fn bounds_from_message_and_carry_moduli() {
    assert_eq!(MaxDegree::from_msg_carry(4, 4).get(), 15);
    assert_eq!(MaxDegree::from_msg_carry(0, 4).get(), 0);
    assert_eq!(MaxNoiseLevel::from_msg_carry(4, 4).unwrap().get(), 5);
    assert_eq!(MaxNoiseLevel::from_msg_carry(1, 4), Err(ShortintError::MessageModulusTooSmall));
    assert_eq!(MaxDegree(15).validate(Degree(15)), Ok(()));
    assert_eq!(
        MaxDegree(15).validate(Degree(16)),
        Err(ShortintError::CarryFull { degree: Degree(16), max_degree: MaxDegree(15) })
    );
    assert_eq!(MaxNoiseLevel(5).validate(NoiseLevel(5)), Ok(()));
    assert_eq!(
        MaxNoiseLevel(5).validate(NoiseLevel(6)),
        Err(ShortintError::NoiseTooBig { noise: NoiseLevel(6), max_noise: MaxNoiseLevel(5) })
    );
    let (md, mn) = shortint_noise_bounds(4, 4).unwrap();
    assert_eq!((md.get(), mn.get()), (15, 5));
    assert!(matches!(shortint_noise_bounds(1, 4), Err(ShortintError::MessageModulusTooSmall)));
}

#[test]
fn carry_cleaning_metadata() {
    assert!(carry_is_empty(Degree(3), 4));
    assert!(!carry_is_empty(Degree(4), 4));
    let fresh = nominal_noise_degree(4);
    assert!(same(fresh, nd(3, 1)));
    assert!(same(message_extract_noise_degree(nd(3, 2), 4), nd(3, 2)));
    assert!(same(message_extract_noise_degree(nd(9, 4), 4), nd(3, 1)));
}

#[test]
fn unchecked_add_and_scalar_mul_metadata() {
    let md = MaxDegree(15);
    let mn = MaxNoiseLevel(5);
    assert!(same(unchecked_add_noise_degree(nd(3, 1), nd(3, 1), md, mn).unwrap(), nd(6, 2)));
    assert_eq!(
        unchecked_add_noise_degree(nd(9, 1), nd(9, 1), md, mn).unwrap_err(),
        ShortintError::CarryFull { degree: Degree(18), max_degree: md }
    );
    assert_eq!(
        unchecked_add_noise_degree(nd(3, 3), nd(3, 3), md, mn).unwrap_err(),
        ShortintError::NoiseTooBig { noise: NoiseLevel(6), max_noise: mn }
    );
    assert!(same(unchecked_scalar_mul_noise_degree(nd(9, 4), 0, md, mn).unwrap(), nd(0, 1)));
    assert!(same(unchecked_scalar_mul_noise_degree(nd(3, 1), 3, md, mn).unwrap(), nd(9, 3)));
}

#[test]
fn checked_operations_clean_carries() {
    let md = MaxDegree(15);
    let mn = MaxNoiseLevel(5);
    // both operands carry-full: cleaned to (3,1) each, sum (6,2), cleaned again
    assert!(same(add_noise_degree(nd(9, 3), nd(12, 4), 4, md, mn).unwrap(), nd(3, 1)));
    // sum that stays carry-free is kept
    assert!(same(add_noise_degree(nd(1, 1), nd(2, 1), 4, md, mn).unwrap(), nd(3, 2)));
    assert!(same(scalar_mul_noise_degree(nd(3, 1), 2, 4, md, mn).unwrap(), nd(3, 1)));
    assert_eq!(neg_scalar(4), Ok(3));
    assert_eq!(neg_scalar(1), Err(ShortintError::MessageModulusTooSmall));
    assert_eq!(check_message_range(3, 4), Ok(()));
    assert_eq!(check_message_range(4, 4), Err(ShortintError::MessageOutOfRange { message: 4, max: 3 }));
}

#[test]
fn bivariate_packing_metadata() {
    let md = MaxDegree(15);
    let mn = MaxNoiseLevel(5);
    assert_eq!(is_bivariate_pbs_possible(nd(3, 1), nd(3, 1), 4, md, mn), Ok(()));
    assert_eq!(
        is_bivariate_pbs_possible(nd(3, 1), nd(4, 1), 4, md, mn),
        Err(ShortintError::UnscaledScaledOverlap(Degree(4), 4))
    );
    assert_eq!(
        is_bivariate_pbs_possible(nd(3, 2), nd(3, 1), 4, md, mn),
        Err(ShortintError::NoiseTooBig { noise: NoiseLevel(9), max_noise: mn })
    );
    assert!(same(
        unchecked_bivariate_noise_degree(nd(3, 1), nd(3, 1), 4, 4, md, mn).unwrap(),
        nd(3, 1)
    ));
    assert!(matches!(
        unchecked_bivariate_noise_degree(nd(3, 1), nd(3, 1), 2, 4, md, mn),
        Err(ShortintError::BivariatePbsPrecondition(_))
    ));
    // operands that cannot be packed are cleaned first
    assert!(same(bivariate_noise_degree(nd(9, 1), nd(5, 1), 4, 4, md, mn).unwrap(), nd(3, 1)));
    assert!(matches!(
        bivariate_noise_degree(nd(3, 1), nd(3, 1), 8, 4, md, mn),
        Err(ShortintError::BivariatePbsPrecondition(_))
    ));
}

#[test]
fn bivariate_lookup_tables_on_two_bit_limbs() {
    // message modulus 4: the packed slot is left · 4 + right
    assert_eq!(bivariate_unpack(3 * 4 + 2, 4, 4), (3, 2));
    assert_eq!(gt_table(3, 2), 1);
    assert_eq!(gt_table(2, 3), 0);
    assert_eq!(eq_table(3, 3), 1);
    assert_eq!(eq_table(3, 2), 0);
    assert_eq!(max_table(3, 2), 3);
    assert_eq!(min_table(3, 2), 2);
    assert_eq!(lt_table(2, 3), 1);
    assert_eq!(ge_table(2, 2), 1);
    assert_eq!(le_table(3, 2), 0);
    assert_eq!(ne_table(3, 2), 1);
    assert_eq!(mul_table(1, 2, 4), 2);
    assert_eq!(mul_table(3, 3, 4), 1);
    assert_eq!(bitand_table(0, 0, 4), 0);
    assert_eq!(bitand_table(1, 0, 4), 0);
    assert_eq!(bitand_table(1, 1, 4), 1);
    assert_eq!(bitor_table(0, 0, 4), 0);
    assert_eq!(bitor_table(1, 0, 4), 1);
    assert_eq!(bitor_table(1, 1, 4), 1);
    assert_eq!(bitxor_table(1, 1), 0);
    assert_eq!(bitxor_table(1, 0), 1);
    assert_eq!(bitnot_table(0, 4), 1);
    assert_eq!(bitnot_table(1, 4), 0);
    assert_eq!(message_extract_table(7, 4), 3);
    assert_eq!(bivariate_table_output(19, 16), 3);
}

#[test]
fn shortint_scheme_name() {
    assert_eq!(ShortintScheme.name(), "TFHE-shortint");
}
