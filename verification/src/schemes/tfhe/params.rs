//! Derived TFHE parameter quantities.

use vstd::prelude::*;

verus! {

/// `message_modulus · carry_modulus`, the plaintext space before padding,
/// saturating at `u64::MAX`.
pub fn total_message_modulus(message_modulus: u64, carry_modulus: u64) -> (r: u64)
    ensures
        r == if message_modulus * carry_modulus > u64::MAX {
            u64::MAX as int
        } else {
            message_modulus * carry_modulus
        },
{
    match message_modulus.checked_mul(carry_modulus) {
        Some(v) => v,
        None => u64::MAX,
    }
}

} // verus!
