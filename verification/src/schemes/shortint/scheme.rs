//! Marker type of the shortint scheme.

use vstd::prelude::*;

verus! {

/// Shortint: small-integer arithmetic over TFHE parameters.
#[derive(Clone, Copy, Debug, Default)]
pub struct ShortintScheme;

impl ShortintScheme {
    /// Display name of the scheme.
    pub fn name(&self) -> (r: &'static str)
        ensures
            r@ == "TFHE-shortint"@,
    {
        "TFHE-shortint"
    }
}

} // verus!
