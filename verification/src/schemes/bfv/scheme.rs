//! Marker type of the BFV scheme.

use vstd::prelude::*;

verus! {

/// The BFV scheme.
pub struct BfvScheme;

impl BfvScheme {
    /// Display name of the scheme.
    pub fn name(&self) -> (r: &'static str)
        ensures
            r@ == "BFV"@,
    {
        "BFV"
    }
}

} // verus!
