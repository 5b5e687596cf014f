//! Scalar TFHE plaintexts and the encoding scale `Δ = q / 2T`.

use vstd::prelude::*;
use vstd::arithmetic::power2::pow2;
use vstd::std_specs::bits::u64_trailing_zeros;

verus! {

/// A scalar plaintext already scaled into `Z / 2^log_modulus`.
#[derive(Clone, Copy, Debug, PartialEq, Eq, Structural)]
pub struct TfhePlaintext {
    pub value: u64,
    pub log_modulus: u8,
}

impl TfhePlaintext {
    pub fn new(value: u64, log_modulus: u8) -> (r: Self)
        ensures
            r.value == value,
            r.log_modulus == log_modulus,
    {
        TfhePlaintext { value, log_modulus }
    }
}

/// The padded plaintext modulus `2T` of a total plaintext modulus `T`.
pub fn padded_plaintext_modulus(total_message_modulus: u64) -> (r: u64)
    requires
        2 * total_message_modulus <= u64::MAX,
    ensures
        r == 2 * total_message_modulus,
{
    total_message_modulus * 2
}

/// The encoding scale `Δ = 2^(log q − v)`, `v` the number of trailing zero
/// bits of the padded plaintext modulus; `0` when the exponent reaches 64.
pub fn encoding_delta(ciphertext_modulus_log: u8, padded_plaintext_modulus: u64) -> (r: u64)
    requires
        u64_trailing_zeros(padded_plaintext_modulus) <= ciphertext_modulus_log,
    ensures
        r == if ciphertext_modulus_log - u64_trailing_zeros(padded_plaintext_modulus) >= 64 {
            0
        } else {
            pow2((ciphertext_modulus_log - u64_trailing_zeros(padded_plaintext_modulus)) as nat)
        },
{
    let plain_log = padded_plaintext_modulus.trailing_zeros();
    let shift: u32 = ciphertext_modulus_log as u32 - plain_log;
    if shift >= 64 {
        0
    } else {
        let shift64 = shift as u64;
        proof {
            vstd::bits::lemma_u64_pow2_no_overflow(shift64 as nat);
            vstd::bits::lemma_u64_shl_is_mul(1, shift64);
        }
        1u64 << shift64
    }
}

} // verus!
