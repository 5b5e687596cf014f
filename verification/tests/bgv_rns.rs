use silent_fhe::schemes::bgv::ciphertext::BgvPlaintextFactor;
use silent_fhe::schemes::bgv::crt::moduli_product;
use silent_fhe::schemes::bgv::params::BgvLevelError;
use silent_fhe::schemes::bgv::crypto::{decode_bgv_phase, invariant_noise_estimate};
use silent_fhe::schemes::bgv::rns_big::{
    centered_coefficients, compose_centered, compose_residues, decompose_gadget_digits, plaintext_from_centered_coefficients, plaintext_from_centered_poly,
    take_balanced_digit_big,
};
use silent_fhe::wide::WideInt;

fn w(v: i64) -> WideInt {
    WideInt::from_i64(v)
}

fn val(x: &WideInt) -> i64 {
    x.to_i64().unwrap()
}

fn small_base() -> Vec<u64> {
    vec![5, 7]
}

#[test]
fn composition_inverts_residues() {
    let moduli = small_base();
    let q = moduli_product(&moduli);
    assert_eq!(val(&compose_residues(&vec![2, 3], &moduli, &q)), 17);
    assert_eq!(val(&compose_residues(&vec![4, 6], &moduli, &q)), 34);
    // residues are reduced first
    assert_eq!(val(&compose_residues(&vec![7, 10], &moduli, &q)), 17);
    for v in 0..35u64 {
        let residues = vec![v % 5, v % 7];
        assert_eq!(val(&compose_residues(&residues, &moduli, &q)), v as i64);
    }
}

#[test]
fn centered_composition() {
    let moduli = small_base();
    let q = moduli_product(&moduli);
    assert_eq!(val(&compose_centered(&vec![2, 3], &moduli, &q)), 17);
    assert_eq!(val(&compose_centered(&vec![3, 4], &moduli, &q)), -17);
    assert_eq!(val(&compose_centered(&vec![4, 6], &moduli, &q)), -1);
    let limbs = vec![vec![2, 4], vec![3, 6]];
    let coefficients = centered_coefficients(&limbs, &moduli, 2);
    assert_eq!(coefficients.iter().map(val).collect::<Vec<_>>(), vec![17, -1]);
}

#[test]
fn plaintexts_from_centered_values() {
    let moduli = small_base();
    let limbs = vec![vec![2, 4], vec![3, 6]];
    assert_eq!(plaintext_from_centered_poly(&limbs, &moduli, 2, 3), vec![2, 2]);
    assert_eq!(plaintext_from_centered_coefficients(&vec![w(17), w(-1)], 3, 3), vec![2, 2, 0]);
    assert_eq!(plaintext_from_centered_coefficients(&vec![w(17), w(-1)], 1, 3), vec![2]);
}

#[test]
fn decoding_divides_by_the_plaintext_factor() {
    let moduli = small_base();
    let limbs = vec![vec![2, 4], vec![3, 6]];
    assert_eq!(decode_bgv_phase(&moduli, 2, 3, 2, &limbs, BgvPlaintextFactor::one()).unwrap(), vec![2, 2]);
    let factor = BgvPlaintextFactor::new(2, 3).unwrap();
    assert_eq!(decode_bgv_phase(&moduli, 2, 3, 2, &limbs, factor).unwrap(), vec![1, 1]);
}

#[test]
fn decoding_recovers_a_noisy_message() {
    // phase = m + t * e with m = [1, 2], e = [2, -3], t = 3: [7, -7] modulo 35
    let moduli = small_base();
    let limbs = vec![vec![7 % 5, 28 % 5], vec![7 % 7, 28 % 7]];
    assert_eq!(decode_bgv_phase(&moduli, 2, 3, 2, &limbs, BgvPlaintextFactor::one()).unwrap(), vec![1, 2]);
    // with factor 2 the phase carries 2 * m: [2, 4] + 3 * [1, -3] = [5, -5]
    let limbs = vec![vec![0, 0], vec![5, 30 % 7]];
    let factor = BgvPlaintextFactor::new(2, 3).unwrap();
    assert_eq!(decode_bgv_phase(&moduli, 2, 3, 2, &limbs, factor).unwrap(), vec![1, 2]);
}

#[test]
fn decoding_rejects_mismatched_phases() {
    let moduli = small_base();
    let limbs = vec![vec![2, 4, 0], vec![3, 6, 0]];
    assert_eq!(
        decode_bgv_phase(&moduli, 2, 3, 3, &limbs, BgvPlaintextFactor::one()).unwrap_err(),
        BgvLevelError::CiphertextDegreeMismatch { expected: 2, actual: 3 }
    );
    assert_eq!(
        decode_bgv_phase(&moduli, 2, 3, 2, &vec![vec![2, 4]], BgvPlaintextFactor::one()).unwrap_err(),
        BgvLevelError::CiphertextLimbMismatch { expected: 2, actual: 1 }
    );
    let factor = BgvPlaintextFactor::new(2, 5).unwrap();
    assert_eq!(
        decode_bgv_phase(&moduli, 2, 4, 2, &vec![vec![2, 4], vec![3, 6]], factor).unwrap_err(),
        BgvLevelError::PlaintextFactorNotInvertible { factor: 2, modulus: 4 }
    );
}

#[test]
fn balanced_digits_are_taken_one_at_a_time() {
    let cases = [(300, 44, 1), (200, -56, 1), (-1, -1, 0), (128, 128, 0), (-128, 128, -1), (0, 0, 0)];
    for (value, digit, rest) in cases {
        let mut v = w(value);
        assert_eq!(take_balanced_digit_big(&mut v), digit);
        assert_eq!(val(&v), rest);
        assert_eq!(value, 256 * rest + digit);
    }
}

fn signed(residue: u64, modulus: u64) -> i64 {
    if residue > modulus / 2 {
        residue as i64 - modulus as i64
    } else {
        residue as i64
    }
}

#[test]
fn gadget_digits_over_the_rns_base() {
    let moduli = vec![65537, 65539];
    let limbs = vec![vec![300, 65337], vec![300, 65339]];
    let digits = decompose_gadget_digits(&limbs, &moduli, 2, 2);
    assert_eq!(digits, vec![vec![vec![44, 56], vec![44, 56]], vec![vec![1, 65536], vec![1, 65538]]]);
}

#[test]
fn gadget_of_ksw_size_recomposes_coefficients() {
    // |v| < 2^20 takes (20 + 7) / 8 + 1 = 4 digits
    let moduli = vec![65537, 65539];
    let value: i64 = (1 << 20) - 1;
    let negative: u64 = 65537 * 65539 - value as u64;
    let limbs = vec![vec![value as u64 % 65537, negative % 65537], vec![value as u64 % 65539, negative % 65539]];
    let digits = decompose_gadget_digits(&limbs, &moduli, 2, 4);
    assert_eq!(
        (0..4).map(|i| signed(digits[i][0][0], 65537)).collect::<Vec<_>>(),
        vec![-1, 0, 16, 0]
    );
    for (k, expected) in [(0usize, value), (1usize, -value)] {
        for (l, &q) in moduli.iter().enumerate() {
            let recomposed: i64 = (0..4).map(|i| signed(digits[i][l][k], q) << (8 * i)).sum();
            assert_eq!(recomposed, expected);
        }
    }
}

#[test]
fn noise_estimate_measures_the_scaled_error() {
    let moduli = small_base();
    // phase [7, -7] with t = 3: noises 7 - 1 = 6 and -7 - 2 = -9
    let limbs = vec![vec![2, 3], vec![0, 0]];
    let estimate = invariant_noise_estimate(&limbs, &moduli, 2, 3);
    assert_eq!(val(&estimate.max_noise), 9);
    assert_eq!(estimate.max_noise_bits(), 4);
    // Q / 2 = 17 has 5 bits
    assert_eq!(estimate.budget_bits, 1);
    let silent = invariant_noise_estimate(&vec![vec![0, 0], vec![0, 0]], &moduli, 2, 3);
    assert_eq!(val(&silent.max_noise), 0);
    assert_eq!(silent.budget_bits, 5);
    let saturated = invariant_noise_estimate(&vec![vec![2], vec![3]], &moduli, 1, 1);
    assert_eq!(val(&saturated.max_noise), 17);
    assert_eq!(saturated.budget_bits, 0);
}
