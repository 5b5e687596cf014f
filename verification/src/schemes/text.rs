//! ASCII case-insensitive matching of configuration names.

use vstd::prelude::*;

verus! {

/// ASCII lower-case of one byte.
pub open spec fn ascii_lower(b: u8) -> u8 {
    if 65 <= b <= 90 {
        (b + 32) as u8
    } else {
        b
    }
}

/// `name` equals `word` up to ASCII case (`word` is lower-case).
pub open spec fn ascii_eq_ignore_case(name: Seq<u8>, word: Seq<u8>) -> bool {
    name.len() == word.len() && forall|i: int| 0 <= i < name.len() ==> ascii_lower(
        #[trigger] name[i],
    ) == word[i]
}

/// Whether `name` spells the lower-case `word` in any ASCII case.
pub fn matches_ignore_ascii_case(name: &[u8], word: &[u8]) -> (r: bool)
    ensures
        r == ascii_eq_ignore_case(name@, word@),
{
    if name.len() != word.len() {
        return false;
    }
    let mut i: usize = 0;
    while i < name.len()
        invariant
            name@.len() == word@.len(),
            i <= name@.len(),
            forall|k: int| 0 <= k < i ==> ascii_lower(#[trigger] name@[k]) == word@[k],
        decreases name@.len() - i,
    {
        let b = name[i];
        let lower: u8 = if 65 <= b && b <= 90 {
            b + 32
        } else {
            b
        };
        if lower != word[i] {
            return false;
        }
        i += 1;
    }
    true
}

} // verus!
