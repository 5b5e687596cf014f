//! Shape checks of the TFHE linear evaluator.

use vstd::prelude::*;

use crate::schemes::tfhe::encoding::TfhePlaintext;

verus! {

/// Errors produced by the TFHE linear evaluator.
#[derive(Clone, Copy, Debug, PartialEq, Eq, Structural)]
pub enum TfheEvalError {
    ShapeMismatch,
    CiphertextMulRequiresPbs,
}

/// Checks that a ciphertext of LWE dimension `ct_dimension` over `2^ct_log_modulus`
/// matches the evaluator's parameters.
pub fn ensure_shape(ct_dimension: usize, ct_log_modulus: u8, lwe_dimension: usize, log_modulus: u8) -> (r:
    Result<(), TfheEvalError>)
    ensures
        r is Ok <==> (ct_dimension == lwe_dimension && ct_log_modulus == log_modulus),
        r is Err ==> r->Err_0 == TfheEvalError::ShapeMismatch,
{
    if ct_dimension != lwe_dimension || ct_log_modulus != log_modulus {
        return Err(TfheEvalError::ShapeMismatch);
    }
    Ok(())
}

/// Checks a ciphertext and a plaintext before the plaintext is added: the
/// ciphertext must have the evaluator's shape and the plaintext its modulus.
pub fn ensure_add_plain_shape(
    ct_dimension: usize,
    ct_log_modulus: u8,
    plain: TfhePlaintext,
    lwe_dimension: usize,
    log_modulus: u8,
) -> (r: Result<(), TfheEvalError>)
    ensures
        r is Ok <==> (ct_dimension == lwe_dimension && ct_log_modulus == log_modulus
            && plain.log_modulus == log_modulus),
        r is Err ==> r->Err_0 == TfheEvalError::ShapeMismatch,
{
    ensure_shape(ct_dimension, ct_log_modulus, lwe_dimension, log_modulus)?;
    if plain.log_modulus != log_modulus {
        return Err(TfheEvalError::ShapeMismatch);
    }
    Ok(())
}

/// Ciphertext-ciphertext multiplication needs a programmable bootstrap; the
/// linear evaluator always refuses it.
pub fn mul_unsupported() -> (r: Result<(), TfheEvalError>)
    ensures
        r == Err::<(), TfheEvalError>(TfheEvalError::CiphertextMulRequiresPbs),
{
    Err(TfheEvalError::CiphertextMulRequiresPbs)
}

} // verus!
