//! Plaintext degree and noise budget tracking for short-block TFHE.

use vstd::prelude::*;

use super::error::ShortintError;

verus! {

/// `a + b`, clamped to `u64::MAX`.
pub open spec fn sat_add(a: u64, b: u64) -> u64 {
    if a + b > u64::MAX {
        u64::MAX
    } else {
        (a + b) as u64
    }
}

/// `a * b`, clamped to `u64::MAX`.
pub open spec fn sat_mul(a: u64, b: u64) -> u64 {
    if a * b > u64::MAX {
        u64::MAX
    } else {
        (a * b) as u64
    }
}

/// `a - b`, clamped to `0`.
pub open spec fn sat_sub(a: u64, b: u64) -> u64 {
    if a < b {
        0
    } else {
        (a - b) as u64
    }
}

/// Largest degree a ciphertext may carry before a carry-cleaning PBS:
/// `message_modulus · carry_modulus − 1` (saturating).
pub open spec fn max_degree_value(message_modulus: u64, carry_modulus: u64) -> u64 {
    sat_sub(sat_mul(message_modulus, carry_modulus), 1)
}

/// Largest noise level: `(carry · message − 1) / (message − 1)` (saturating
/// product and difference), for `message_modulus >= 2`.
pub open spec fn max_noise_value(message_modulus: u64, carry_modulus: u64) -> u64
    recommends
        message_modulus >= 2,
{
    (sat_sub(sat_mul(carry_modulus, message_modulus), 1) / ((message_modulus - 1) as u64)) as u64
}

/// Saturating `u64` product.
pub fn saturating_mul_u64(a: u64, b: u64) -> (r: u64)
    ensures
        r == sat_mul(a, b),
{
    match a.checked_mul(b) {
        Some(p) => p,
        None => u64::MAX,
    }
}

/// Worst-case plaintext magnitude tracked in unary / packed shortint form.
#[derive(Debug, Clone, Copy, PartialEq, Eq, Structural, PartialOrd, Ord, Hash)]
pub struct Degree(pub u64);

impl Degree {
    pub fn new(degree: u64) -> (r: Self)
        ensures
            r.0 == degree,
    {
        Degree(degree)
    }

    pub fn get(self) -> (r: u64)
        ensures
            r == self.0,
    {
        self.0
    }

    pub fn saturating_add(self, rhs: Self) -> (r: Self)
        ensures
            r.0 == sat_add(self.0, rhs.0),
    {
        Degree(self.0.saturating_add(rhs.0))
    }

    pub fn saturating_mul_scalar(self, scalar: u64) -> (r: Self)
        ensures
            r.0 == sat_mul(self.0, scalar),
    {
        Degree(saturating_mul_u64(self.0, scalar))
    }
}

/// PBS input noise level (additive budget model).
#[derive(Debug, Clone, Copy, PartialEq, Eq, Structural, PartialOrd, Ord, Hash)]
pub struct NoiseLevel(pub u64);

impl NoiseLevel {
    /// Noise level of a fresh encryption or of a PBS output (level 1).
    pub fn nominal() -> (r: Self)
        ensures
            r.0 == 1,
    {
        NoiseLevel(1)
    }

    pub fn new(level: u64) -> (r: Self)
        ensures
            r.0 == level,
    {
        NoiseLevel(level)
    }

    pub fn get(self) -> (r: u64)
        ensures
            r == self.0,
    {
        self.0
    }

    pub fn saturating_add(self, rhs: Self) -> (r: Self)
        ensures
            r.0 == sat_add(self.0, rhs.0),
    {
        NoiseLevel(self.0.saturating_add(rhs.0))
    }

    pub fn saturating_mul_scalar(self, scalar: u64) -> (r: Self)
        ensures
            r.0 == sat_mul(self.0, scalar),
    {
        NoiseLevel(saturating_mul_u64(self.0, scalar))
    }
}

/// Maximum degree before a carry-cleaning PBS (`message_modulus · carry_modulus − 1`).
#[derive(Debug, Clone, Copy, PartialEq, Eq, Structural, Hash)]
pub struct MaxDegree(pub u64);

impl MaxDegree {
    pub fn from_msg_carry(message_modulus: u64, carry_modulus: u64) -> (r: Self)
        ensures
            r.0 == max_degree_value(message_modulus, carry_modulus),
    {
        MaxDegree(saturating_mul_u64(message_modulus, carry_modulus).saturating_sub(1))
    }

    pub fn get(self) -> (r: u64)
        ensures
            r == self.0,
    {
        self.0
    }

    /// `Ok` exactly when `degree` fits under this bound; otherwise the
    /// carry-full error reporting both values.
    pub fn validate(self, degree: Degree) -> (r: Result<(), ShortintError>)
        ensures
            degree.0 <= self.0 ==> r == Ok::<(), ShortintError>(()),
            degree.0 > self.0 ==> r == Err::<(), ShortintError>(
                ShortintError::CarryFull { degree, max_degree: self },
            ),
    {
        if degree.get() > self.0 {
            Err(ShortintError::CarryFull { degree, max_degree: self })
        } else {
            Ok(())
        }
    }
}

/// Noise upper bound derived from `(carry·message − 1) / (message − 1)`.
#[derive(Debug, Clone, Copy, PartialEq, Eq, Structural, Hash)]
pub struct MaxNoiseLevel(pub u64);

impl MaxNoiseLevel {
    /// Fails with `MessageModulusTooSmall` exactly when `message_modulus < 2`.
    pub fn from_msg_carry(message_modulus: u64, carry_modulus: u64) -> (r: Result<Self, ShortintError>)
        ensures
            message_modulus < 2 ==> r == Err::<Self, ShortintError>(
                ShortintError::MessageModulusTooSmall,
            ),
            message_modulus >= 2 ==> r == Ok::<Self, ShortintError>(
                MaxNoiseLevel(max_noise_value(message_modulus, carry_modulus)),
            ),
    {
        if message_modulus < 2 {
            return Err(ShortintError::MessageModulusTooSmall);
        }
        let level = saturating_mul_u64(carry_modulus, message_modulus).saturating_sub(1) / (
        message_modulus - 1);
        Ok(MaxNoiseLevel(level))
    }

    pub fn get(self) -> (r: u64)
        ensures
            r == self.0,
    {
        self.0
    }

    /// `Ok` exactly when `noise` fits under this bound.
    pub fn validate(self, noise: NoiseLevel) -> (r: Result<(), ShortintError>)
        ensures
            noise.0 <= self.0 ==> r == Ok::<(), ShortintError>(()),
            noise.0 > self.0 ==> r == Err::<(), ShortintError>(
                ShortintError::NoiseTooBig { noise, max_noise: self },
            ),
    {
        if noise.get() > self.0 {
            Err(ShortintError::NoiseTooBig { noise, max_noise: self })
        } else {
            Ok(())
        }
    }
}

/// Joint noise/degree pair for precondition checks.
#[derive(Debug, Clone, Copy)]
pub struct CiphertextNoiseDegree {
    pub degree: Degree,
    pub noise: NoiseLevel,
}

} // verus!
