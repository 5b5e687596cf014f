//! Errors returned by the shortint metadata checks and operations.

use vstd::prelude::*;

use super::types::{Degree, MaxDegree, MaxNoiseLevel, NoiseLevel};

verus! {

/// Shortint homomorphic operation or encoding error.
#[derive(Debug, PartialEq, Eq)]
pub enum ShortintError {
    /// Plaintext message out of range `[0, max]`.
    MessageOutOfRange { message: u64, max: u64 },
    /// TFHE parameters do not match the ciphertext.
    ParameterMismatch,
    /// Homomorphic carry capacity exceeded.
    CarryFull { degree: Degree, max_degree: MaxDegree },
    /// Noise budget exceeded after an operation.
    NoiseTooBig { noise: NoiseLevel, max_noise: MaxNoiseLevel },
    /// Bivariate PBS: the right-hand degree must be below the pack factor.
    UnscaledScaledOverlap(Degree, u64),
    /// `message_modulus` must be at least 2 for the noise/degree formulas.
    MessageModulusTooSmall,
    /// Bivariate PBS preconditions not met.
    BivariatePbsPrecondition(&'static str),
}

} // verus!
