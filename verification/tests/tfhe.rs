use rand::rngs::StdRng;
use rand::SeedableRng;
use silent_fhe::schemes::tfhe::bootstrap::lookup_table_coefficients;
use silent_fhe::schemes::tfhe::encoding::{encoding_delta, padded_plaintext_modulus, TfhePlaintext};
use silent_fhe::schemes::tfhe::ops::{ensure_add_plain_shape, ensure_shape, mul_unsupported, TfheEvalError};
use silent_fhe::schemes::tfhe::params::total_message_modulus;
use silent_fhe::schemes::tfhe::sampling::{
    binary_from_word, bits_from_words, fill_binary, fill_uniform_mod, reduce_word, sample_binary,
    word_from_le_bytes, sample_tuniform, tuniform_from_raw,
};
use silent_fhe::schemes::tfhe::scheme::TfheScheme;

fn rng() -> StdRng {
    StdRng::from_seed([1u8; 32])
}

#[test]
fn binary_keys_are_zero_or_one() {
    let mut r = rng();
    let mut data = vec![0u64; 4096];
    fill_binary(&mut r, &mut data);
    for v in &data {
        assert!(*v == 0 || *v == 1);
    }
}

#[test]
fn uniform_mask_lives_in_modulus() {
    let mut r = rng();
    let mut data = vec![0u64; 1024];
    fill_uniform_mod(&mut r, 32, &mut data);
    let mask = (1u64 << 32) - 1;
    for v in &data {
        assert!(*v <= mask);
    }
}

#[test]
fn le_bytes_make_a_word() {
    assert_eq!(word_from_le_bytes([0x78, 0x56, 0x34, 0x12]), 0x1234_5678);
    assert_eq!(word_from_le_bytes([0xff, 0xff, 0xff, 0xff]), u32::MAX);
    assert_eq!(word_from_le_bytes([1, 0, 0, 0]), 1);
}

#[test]
fn bits_come_from_the_lowest_bit_up() {
    let words = vec![0b1011u32, 0x8000_0001u32];
    let bits = bits_from_words(&words, 35);
    assert_eq!(bits.len(), 35);
    assert_eq!(&bits[..5], &[1, 1, 0, 1, 0]);
    assert_eq!(bits[31], 0);
    assert_eq!(bits[32], 1);
    assert_eq!(bits[33], 0);
    assert_eq!(bits[34], 0);
    assert_eq!(bits_from_words(&words, 64)[63], 1);
    assert!(bits_from_words(&words, 0).is_empty());
}

#[test]
fn fill_binary_reads_one_le_word_per_32_slots() {
    let mut a = rng();
    let mut b = rng();
    let n = 70;
    let mut data = vec![7u64; n];
    fill_binary(&mut a, &mut data);
    let mut expected = Vec::new();
    for _ in 0..3 {
        let mut buf = [0u8; 4];
        rand::RngCore::fill_bytes(&mut b, &mut buf);
        let word = u32::from_le_bytes(buf);
        for k in 0..32 {
            expected.push(u64::from((word >> k) & 1));
        }
    }
    expected.truncate(n);
    assert_eq!(data, expected);
    // both generators have drawn the same number of words
    assert_eq!(rand::RngCore::next_u32(&mut a), rand::RngCore::next_u32(&mut b));
}

#[test]
fn reduce_word_keeps_low_bits() {
    assert_eq!(reduce_word(0x1234_5678_9abc_def0, 32), 0x9abc_def0);
    assert_eq!(reduce_word(0x1234_5678_9abc_def0, 64), 0x1234_5678_9abc_def0);
    assert_eq!(reduce_word(u64::MAX, 1), 1);
    assert_eq!(reduce_word(u64::MAX, 0), 0);
    assert_eq!(reduce_word(0xff, 4), 0xf);
}

#[test]
fn fill_uniform_mod_reduces_each_fresh_word() {
    let mut a = rng();
    let mut b = rng();
    let mut data = vec![0u64; 16];
    fill_uniform_mod(&mut a, 32, &mut data);
    for v in &data {
        let w = rand::RngCore::next_u64(&mut b);
        assert_eq!(*v, w & 0xffff_ffff);
    }
    let mut full = vec![0u64; 4];
    fill_uniform_mod(&mut a, 64, &mut full);
    for v in &full {
        assert_eq!(*v, rand::RngCore::next_u64(&mut b));
    }
}

#[test]
fn tuniform_within_bounds() {
    let mut r = rng();
    let bound_log2 = 5;
    let bound = 1i64 << bound_log2;
    for _ in 0..2048 {
        let s = sample_tuniform(&mut r, bound_log2, 64);
        // Interpret as signed two's complement.
        let signed = s as i64;
        assert!(signed > -bound && signed <= bound, "out of range: {}", signed);
    }
}

#[test]
fn tuniform_mapping_of_raw_words() {
    // bound 2^2 = 4: low 3 bits x give x + 1 for x < 4, x − 7 otherwise
    assert_eq!(tuniform_from_raw(0, 2, 64), 1);
    assert_eq!(tuniform_from_raw(3, 2, 64), 4);
    assert_eq!(tuniform_from_raw(4, 2, 64), (-3i64) as u64);
    assert_eq!(tuniform_from_raw(7, 2, 64), 0);
    assert_eq!(tuniform_from_raw(8 + 5, 2, 64), (-2i64) as u64);
    assert_eq!(tuniform_from_raw(4, 2, 32), (1u64 << 32) - 3);
    assert_eq!(tuniform_from_raw(6, 2, 32), (1u64 << 32) - 1);
}

#[test]
fn binary_samples_are_bits() {
    let mut r = rng();
    let mut ones = 0;
    for _ in 0..256 {
        let b = sample_binary(&mut r);
        assert!(b <= 1);
        ones += b;
    }
    assert!(ones > 0 && ones < 256);
}

#[test]
fn binary_from_word_takes_lowest_bit() {
    assert_eq!(binary_from_word(0), 0);
    assert_eq!(binary_from_word(1), 1);
    assert_eq!(binary_from_word(6), 0);
    assert_eq!(binary_from_word(0xffff_ffff), 1);
    assert_eq!(binary_from_word(0x8000_0000), 0);
}

#[test]
fn sample_binary_is_low_bit_of_next_word() {
    let mut a = rng();
    let mut b = rng();
    for _ in 0..64 {
        let word = rand::RngCore::next_u32(&mut a);
        assert_eq!(sample_binary(&mut b), u64::from(word & 1));
    }
}

#[test]
fn delta_matches_q_div_padded_plaintext() {
    let total = total_message_modulus(4, 4);
    assert_eq!(total, 16);
    let padded = padded_plaintext_modulus(total);
    assert_eq!(padded, 32);
    for log_q in [32u8, 64u8] {
        let padded_log = padded.trailing_zeros() as u8;
        let expected = 1u64 << (log_q - padded_log);
        assert_eq!(encoding_delta(log_q, padded), expected);
    }
    assert_eq!(encoding_delta(64, 1), 0);
    assert_eq!(total_message_modulus(u64::MAX, 2), u64::MAX);
}

#[test]
fn lookup_table_boxes_start_with_their_value() {
    // 4 boxes of 4 coefficients, half box 2
    let values = vec![10u64, 20, 30, 40];
    let coeffs = lookup_table_coefficients(16, &values);
    assert_eq!(coeffs.len(), 16);
    for m in 0..4 {
        assert_eq!(coeffs[m * 4], values[m]);
        assert_eq!(coeffs[m * 4 + 1], values[m]);
    }
    // the first half box is negated and rotated to the tail
    assert_eq!(coeffs[14], 10u64.wrapping_neg());
    assert_eq!(coeffs[15], 10u64.wrapping_neg());
    assert_eq!(coeffs[12], 40);
    assert_eq!(coeffs[13], 40);
    // 3 boxes of 5 coefficients in a table of 16: one zero tail slot
    let coeffs = lookup_table_coefficients(16, &vec![1, 2, 3]);
    assert_eq!(coeffs[0], 1);
    assert_eq!(coeffs[5], 2);
    assert_eq!(coeffs[10], 3);
    assert_eq!(coeffs[13], 0);
    assert_eq!(coeffs[14], 1u64.wrapping_neg());
}

#[test]
fn evaluator_shape_checks() {
    assert_eq!(ensure_shape(512, 64, 512, 64), Ok(()));
    assert_eq!(ensure_shape(511, 64, 512, 64), Err(TfheEvalError::ShapeMismatch));
    assert_eq!(ensure_shape(512, 32, 512, 64), Err(TfheEvalError::ShapeMismatch));
    let plain = TfhePlaintext::new(7, 64);
    assert_eq!(plain.value, 7);
    assert_eq!(ensure_add_plain_shape(512, 64, plain, 512, 64), Ok(()));
    assert_eq!(
        ensure_add_plain_shape(512, 64, TfhePlaintext::new(7, 32), 512, 64),
        Err(TfheEvalError::ShapeMismatch)
    );
    assert_eq!(mul_unsupported(), Err(TfheEvalError::CiphertextMulRequiresPbs));
}

// The toy preset's evaluator works on LWE dimension 512 with a 2^64 modulus.
#[test]
fn shape_errors_are_caught() {
    // a zero ciphertext of dimension 8 added to itself
    assert_eq!(ensure_shape(8, 64, 512, 64), Err(TfheEvalError::ShapeMismatch));
}

#[test]
fn mul_returns_pbs_required_error() {
    // zero ciphertexts of the evaluator's own shape
    assert_eq!(ensure_shape(512, 64, 512, 64), Ok(()));
    assert_eq!(mul_unsupported(), Err(TfheEvalError::CiphertextMulRequiresPbs));
}

#[test]
fn tfhe_scheme_name() {
    assert_eq!(TfheScheme.name(), "TFHE");
}
