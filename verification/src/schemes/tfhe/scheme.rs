//! Marker type of the TFHE scheme.

use vstd::prelude::*;

verus! {

/// The TFHE scheme.
#[derive(Clone, Copy, Debug, Default)]
pub struct TfheScheme;

impl TfheScheme {
    /// Display name of the scheme.
    pub fn name(&self) -> (r: &'static str)
        ensures
            r@ == "TFHE"@,
    {
        "TFHE"
    }
}

} // verus!
