//! The ciphertext multiplication methods of BFV.

use vstd::prelude::*;

use crate::schemes::text::{ascii_eq_ignore_case, matches_ignore_ascii_case};

verus! {

/// Algorithm used for ciphertext-ciphertext multiplication.
#[derive(Clone, Copy, Debug, PartialEq, Eq, Structural)]
pub enum BfvMulMethod {
    Hps,
    HpsPoverq,
    HpsPoverqLeveled,
    Behz,
}

impl Default for BfvMulMethod {
    fn default() -> (r: Self)
        ensures
            r == BfvMulMethod::HpsPoverq,
    {
        BfvMulMethod::HpsPoverq
    }
}

/// The method an override name selects, if any: `behz`, `hps`,
/// `hpspoverq` / `hps_poverq`, or `hpspoverqleveled` / `hps_poverq_leveled`
/// / `hpspoverq_leveled`, in any ASCII case.
pub open spec fn spec_mul_method_named(name: Seq<u8>) -> Option<BfvMulMethod> {
    if ascii_eq_ignore_case(name, seq![98u8, 101, 104, 122]) {
        Some(BfvMulMethod::Behz)
    } else if ascii_eq_ignore_case(name, seq![104u8, 112, 115]) {
        Some(BfvMulMethod::Hps)
    } else if ascii_eq_ignore_case(name, seq![104u8, 112, 115, 112, 111, 118, 101, 114, 113])
        || ascii_eq_ignore_case(name, seq![104u8, 112, 115, 95, 112, 111, 118, 101, 114, 113]) {
        Some(BfvMulMethod::HpsPoverq)
    } else if ascii_eq_ignore_case(
        name,
        seq![104u8, 112, 115, 112, 111, 118, 101, 114, 113, 108, 101, 118, 101, 108, 101, 100],
    ) || ascii_eq_ignore_case(
        name,
        seq![104u8, 112, 115, 95, 112, 111, 118, 101, 114, 113, 95, 108, 101, 118, 101, 108, 101, 100],
    ) || ascii_eq_ignore_case(
        name,
        seq![104u8, 112, 115, 112, 111, 118, 101, 114, 113, 95, 108, 101, 118, 101, 108, 101, 100],
    ) {
        Some(BfvMulMethod::HpsPoverqLeveled)
    } else {
        None
    }
}

/// Resolves the multiplication method from an optional override name (as
/// read from the environment): a recognised name selects its method, and a
/// missing or unrecognised one keeps `configured`.
pub fn resolve_mul_method(override_name: Option<&[u8]>, configured: BfvMulMethod) -> (r: BfvMulMethod)
    ensures
        r == match override_name {
            Some(name) => match spec_mul_method_named(name@) {
                Some(m) => m,
                None => configured,
            },
            None => configured,
        },
{
    let name = match override_name {
        Some(n) => n,
        None => {
            return configured;
        },
    };
    let behz: [u8; 4] = [98, 101, 104, 122];
    let hps: [u8; 3] = [104, 112, 115];
    let hpspoverq: [u8; 9] = [104, 112, 115, 112, 111, 118, 101, 114, 113];
    let hps_poverq: [u8; 10] = [104, 112, 115, 95, 112, 111, 118, 101, 114, 113];
    let leveled_a: [u8; 16] = [104, 112, 115, 112, 111, 118, 101, 114, 113, 108, 101, 118, 101, 108, 101, 100];
    let leveled_b: [u8; 18] = [104, 112, 115, 95, 112, 111, 118, 101, 114, 113, 95, 108, 101, 118, 101, 108, 101, 100];
    let leveled_c: [u8; 17] = [104, 112, 115, 112, 111, 118, 101, 114, 113, 95, 108, 101, 118, 101, 108, 101, 100];
    proof {
        assert(behz@ =~= seq![98u8, 101, 104, 122]);
        assert(hps@ =~= seq![104u8, 112, 115]);
        assert(hpspoverq@ =~= seq![104u8, 112, 115, 112, 111, 118, 101, 114, 113]);
        assert(hps_poverq@ =~= seq![104u8, 112, 115, 95, 112, 111, 118, 101, 114, 113]);
        assert(leveled_a@ =~= seq![104u8, 112, 115, 112, 111, 118, 101, 114, 113, 108, 101, 118, 101, 108, 101, 100]);
        assert(leveled_b@ =~= seq![104u8, 112, 115, 95, 112, 111, 118, 101, 114, 113, 95, 108, 101, 118, 101, 108, 101, 100]);
        assert(leveled_c@ =~= seq![104u8, 112, 115, 112, 111, 118, 101, 114, 113, 95, 108, 101, 118, 101, 108, 101, 100]);
    }
    if matches_ignore_ascii_case(name, &behz) {
        BfvMulMethod::Behz
    } else if matches_ignore_ascii_case(name, &hps) {
        BfvMulMethod::Hps
    } else if matches_ignore_ascii_case(name, &hpspoverq) || matches_ignore_ascii_case(name, &hps_poverq) {
        BfvMulMethod::HpsPoverq
    } else if matches_ignore_ascii_case(name, &leveled_a) || matches_ignore_ascii_case(name, &leveled_b)
        || matches_ignore_ascii_case(name, &leveled_c) {
        BfvMulMethod::HpsPoverqLeveled
    } else {
        configured
    }
}

} // verus!
