//! Marker type of the BGV scheme.

use vstd::prelude::*;

verus! {

/// The BGV scheme.
#[derive(Clone, Debug, Default)]
pub struct BgvScheme;

impl BgvScheme {
    /// Display name of the scheme.
    pub fn name(&self) -> (r: &'static str)
        ensures
            r@ == "BGV"@,
    {
        "BGV"
    }
}

} // verus!
