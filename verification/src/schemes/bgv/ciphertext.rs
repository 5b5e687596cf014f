//! The plaintext scale factor carried by a BGV ciphertext: a residue that must
//! stay invertible modulo the plaintext modulus.

use vstd::prelude::*;

use crate::modarith::{has_mod_inverse, is_mod_inverse, mod_inverse, mul_mod};
use crate::polymod::components_reduced;
use crate::schemes::bgv::rns_big::rns_base;
use crate::schemes::bgv::ops::{
    components_within, ensure_full_level_ciphertext, full_level_error, lemma_full_level_is_reduced,
};
use crate::schemes::bgv::params::{mod_switch_chain_ok, tables_ok, BgvLevelError, BgvModSwitchTables};

verus! {

#[derive(Clone, Copy, Debug, PartialEq, Eq, Structural)]
pub struct BgvPlaintextFactor {
    value: u64,
}

impl View for BgvPlaintextFactor {
    type V = u64;

    closed spec fn view(&self) -> u64 {
        self.value
    }
}

impl BgvPlaintextFactor {
    /// The trivial factor 1.
    pub fn one() -> (r: Self)
        ensures
            r@ == 1,
    {
        BgvPlaintextFactor { value: 1 }
    }

    /// The factor `value mod plain_modulus`; fails exactly when that residue
    /// is not invertible modulo `plain_modulus`.
    pub fn new(value: u64, plain_modulus: u64) -> (r: Result<Self, BgvLevelError>)
        requires
            plain_modulus > 0,
        ensures
            has_mod_inverse((value % plain_modulus) as int, plain_modulus as int) ==> r is Ok
                && r->Ok_0@ == value % plain_modulus,
            !has_mod_inverse((value % plain_modulus) as int, plain_modulus as int) ==> r
                == Err::<Self, BgvLevelError>(
                BgvLevelError::PlaintextFactorNotInvertible {
                    factor: (value % plain_modulus) as u64,
                    modulus: plain_modulus,
                },
            ),
    {
        let value = value % plain_modulus;
        if mod_inverse(value, plain_modulus).is_none() {
            return Err(
                BgvLevelError::PlaintextFactorNotInvertible { factor: value, modulus: plain_modulus },
            );
        }
        Ok(BgvPlaintextFactor { value })
    }

    /// A factor is determined by its residue.
    pub proof fn lemma_view_determines(a: Self, b: Self)
        requires
            a@ == b@,
        ensures
            a == b,
    {
    }

    pub fn value(self) -> (r: u64)
        ensures
            r == self@,
    {
        self.value
    }

    /// Inverse of the factor modulo `plain_modulus`, or the not-invertible
    /// error.
    pub fn inverse_mod(self, plain_modulus: u64) -> (r: Result<u64, BgvLevelError>)
        ensures
            has_mod_inverse(self@ as int, plain_modulus as int) ==> r is Ok && is_mod_inverse(
                self@ as int,
                r->Ok_0 as int,
                plain_modulus as int,
            ),
            !has_mod_inverse(self@ as int, plain_modulus as int) ==> r == Err::<u64, BgvLevelError>(
                BgvLevelError::PlaintextFactorNotInvertible {
                    factor: self@,
                    modulus: plain_modulus,
                },
            ),
    {
        match mod_inverse(self.value, plain_modulus) {
            Some(x) => Ok(x),
            None => Err(
                BgvLevelError::PlaintextFactorNotInvertible {
                    factor: self.value,
                    modulus: plain_modulus,
                },
            ),
        }
    }

    /// Product of two factors modulo `plain_modulus`.
    pub fn mul_mod(self, rhs: Self, plain_modulus: u64) -> (r: Result<BgvPlaintextFactor, BgvLevelError>)
        requires
            plain_modulus > 0,
        ensures
            has_mod_inverse(((self@ * rhs@) % (plain_modulus as int)), plain_modulus as int) ==> r is Ok
                && r->Ok_0@ == (self@ * rhs@) % (plain_modulus as int),
            !has_mod_inverse(((self@ * rhs@) % (plain_modulus as int)), plain_modulus as int) ==> r
                == Err::<Self, BgvLevelError>(
                BgvLevelError::PlaintextFactorNotInvertible {
                    factor: ((self@ * rhs@) % (plain_modulus as int)) as u64,
                    modulus: plain_modulus,
                },
            ),
    {
        let value = mul_mod(self.value, rhs.value, plain_modulus);
        proof {
            vstd::arithmetic::div_mod::lemma_small_mod(value as nat, plain_modulus as nat);
        }
        BgvPlaintextFactor::new(value, plain_modulus)
    }
}

/// The plaintext factor after the chain is cut down to `target_limbs`
/// moduli: `factor` times the inverse of the scale picked up by the
/// dropped moduli, modulo `plain_modulus`.
pub fn mod_switch_plaintext_factor(
    factor: BgvPlaintextFactor,
    tables: &BgvModSwitchTables,
    plain_modulus: u64,
    target_limbs: usize,
) -> (r: Result<BgvPlaintextFactor, BgvLevelError>)
    requires
        plain_modulus > 0,
        tables.factor_inv_by_target_limbs@.len() == tables.q_limbs + 1,
    ensures
        target_limbs == 0 ==> r == Err::<BgvPlaintextFactor, BgvLevelError>(
            BgvLevelError::EmptyCiphertextModulus,
        ),
        target_limbs > tables.q_limbs ==> r == Err::<BgvPlaintextFactor, BgvLevelError>(
            BgvLevelError::TooManyCiphertextModuli {
                requested: target_limbs,
                available: tables.q_limbs,
            },
        ),
        0 < target_limbs <= tables.q_limbs ==> ({
            let t = plain_modulus as int;
            let inv = (tables.factor_inv_by_target_limbs@[target_limbs as int] as int) % t;
            let p = (factor@ * inv) % t;
            &&& !has_mod_inverse(inv, t) ==> r == Err::<BgvPlaintextFactor, BgvLevelError>(
                BgvLevelError::PlaintextFactorNotInvertible { factor: inv as u64, modulus: plain_modulus },
            )
            &&& has_mod_inverse(inv, t) && has_mod_inverse(p, t) ==> r is Ok && r->Ok_0@ == p
            &&& has_mod_inverse(inv, t) && !has_mod_inverse(p, t) ==> r == Err::<
                BgvPlaintextFactor,
                BgvLevelError,
            >(BgvLevelError::PlaintextFactorNotInvertible { factor: p as u64, modulus: plain_modulus })
        }),
{
    let dropped_factor_inv = match tables.mod_switch_factor_inv_to_q_limbs(target_limbs) {
        Ok(v) => v,
        Err(e) => {
            return Err(e);
        },
    };
    let scale = match BgvPlaintextFactor::new(dropped_factor_inv, plain_modulus) {
        Ok(f) => f,
        Err(e) => {
            return Err(e);
        },
    };
    factor.mul_mod(scale, plain_modulus)
}

/// Multiplies every coefficient of a plaintext by the factor modulo
/// `plain_modulus`; fails when the factor is not invertible, and leaves the
/// plaintext as it is for the factor 1.
pub fn scale_plaintext_by_factor(
    coefficients: &Vec<u64>,
    factor: BgvPlaintextFactor,
    plain_modulus: u64,
) -> (r: Result<Vec<u64>, BgvLevelError>)
    requires
        plain_modulus > 0,
    ensures
        !has_mod_inverse(factor@ as int, plain_modulus as int) ==> r == Err::<Vec<u64>, BgvLevelError>(
            BgvLevelError::PlaintextFactorNotInvertible { factor: factor@, modulus: plain_modulus },
        ),
        has_mod_inverse(factor@ as int, plain_modulus as int) ==> r is Ok && r->Ok_0@.len()
            == coefficients@.len() && forall|i: int|
            0 <= i < coefficients@.len() ==> #[trigger] r->Ok_0@[i] == (if factor@ == 1 {
                coefficients@[i] as int
            } else {
                (coefficients@[i] * (factor@ % plain_modulus)) % (plain_modulus as int)
            }),
{
    match factor.inverse_mod(plain_modulus) {
        Ok(_) => {},
        Err(e) => {
            return Err(e);
        },
    }
    let one = factor.value() == 1;
    let scalar = factor.value() % plain_modulus;
    let mut out: Vec<u64> = Vec::new();
    let mut i: usize = 0;
    while i < coefficients.len()
        invariant
            plain_modulus > 0,
            one == (factor@ == 1),
            scalar == factor@ % plain_modulus,
            i <= coefficients@.len(),
            out@.len() == i,
            forall|j: int|
                0 <= j < i ==> #[trigger] out@[j] == (if factor@ == 1 {
                    coefficients@[j] as int
                } else {
                    (coefficients@[j] * (factor@ % plain_modulus)) % (plain_modulus as int)
                }),
        decreases coefficients@.len() - i,
    {
        if one {
            out.push(coefficients[i]);
        } else {
            out.push(mul_mod(coefficients[i], scalar, plain_modulus));
        }
        i += 1;
    }
    Ok(out)
}

// ---------------------------------------------------------------------------
// Raw ciphertext shapes
// ---------------------------------------------------------------------------

/// The shape of one polynomial: its degree and its number of RNS limbs.
#[derive(Clone, Copy, Debug, PartialEq, Eq, Structural)]
pub struct BgvPolyShape {
    pub degree: usize,
    pub num_moduli: usize,
}

/// The shape of a raw ciphertext: the degree and limb count of the ring it
/// was made in, and the shape of each of its components.
#[derive(Clone, Debug)]
pub struct BgvRawCiphertextShape {
    pub ring_degree: usize,
    pub ring_limbs: usize,
    pub components: Vec<BgvPolyShape>,
}

/// The first component, from position `i` on, whose shape does not match,
/// as the error it is reported with.
pub open spec fn component_shape_error(
    expected_degree: usize,
    expected_limbs: usize,
    components: Seq<BgvPolyShape>,
    i: int,
) -> Option<BgvLevelError>
    decreases components.len() - i,
{
    if i < 0 || i >= components.len() {
        None
    } else if components[i].degree != expected_degree {
        Some(
            BgvLevelError::CiphertextDegreeMismatch {
                expected: expected_degree,
                actual: components[i].degree,
            },
        )
    } else if components[i].num_moduli != expected_limbs {
        Some(
            BgvLevelError::CiphertextLimbMismatch {
                expected: expected_limbs,
                actual: components[i].num_moduli,
            },
        )
    } else {
        component_shape_error(expected_degree, expected_limbs, components, i + 1)
    }
}

/// Why a raw ciphertext does not fit parameters of the given degree and
/// limb count, if it does not: its ring first, then its components in order.
pub open spec fn raw_ciphertext_error(
    expected_degree: usize,
    expected_limbs: usize,
    raw: BgvRawCiphertextShape,
) -> Option<BgvLevelError> {
    if raw.ring_degree != expected_degree {
        Some(
            BgvLevelError::CiphertextDegreeMismatch {
                expected: expected_degree,
                actual: raw.ring_degree,
            },
        )
    } else if raw.ring_limbs != expected_limbs {
        Some(
            BgvLevelError::CiphertextLimbMismatch { expected: expected_limbs, actual: raw.ring_limbs },
        )
    } else {
        component_shape_error(expected_degree, expected_limbs, raw.components@, 0)
    }
}

proof fn lemma_component_shape_error_prefix(
    expected_degree: usize,
    expected_limbs: usize,
    components: Seq<BgvPolyShape>,
    i: int,
    k: int,
)
    requires
        0 <= i <= k <= components.len(),
        forall|j: int|
            i <= j < k ==> (#[trigger] components[j]).degree == expected_degree
                && components[j].num_moduli == expected_limbs,
    ensures
        component_shape_error(expected_degree, expected_limbs, components, i) == component_shape_error(
            expected_degree,
            expected_limbs,
            components,
            k,
        ),
    decreases k - i,
{
    if i < k {
        lemma_component_shape_error_prefix(expected_degree, expected_limbs, components, i + 1, k);
    }
}

/// Checks that a raw ciphertext was made for parameters of degree
/// `expected_degree` over `expected_limbs` moduli, and reports the first
/// mismatch: of its ring, then of its components in order.
pub fn validate_raw_ciphertext(
    expected_degree: usize,
    expected_limbs: usize,
    raw: &BgvRawCiphertextShape,
) -> (r: Result<(), BgvLevelError>)
    ensures
        match raw_ciphertext_error(expected_degree, expected_limbs, *raw) {
            Some(e) => r == Err::<(), BgvLevelError>(e),
            None => r is Ok,
        },
{
    if raw.ring_degree != expected_degree {
        return Err(
            BgvLevelError::CiphertextDegreeMismatch { expected: expected_degree, actual: raw.ring_degree },
        );
    }
    if raw.ring_limbs != expected_limbs {
        return Err(
            BgvLevelError::CiphertextLimbMismatch { expected: expected_limbs, actual: raw.ring_limbs },
        );
    }
    let mut i: usize = 0;
    while i < raw.components.len()
        invariant
            raw.ring_degree == expected_degree,
            raw.ring_limbs == expected_limbs,
            i <= raw.components@.len(),
            forall|j: int|
                0 <= j < i ==> (#[trigger] raw.components@[j]).degree == expected_degree
                    && raw.components@[j].num_moduli == expected_limbs,
        decreases raw.components@.len() - i,
    {
        let shape = raw.components[i];
        if shape.degree != expected_degree {
            proof {
                lemma_component_shape_error_prefix(expected_degree, expected_limbs, raw.components@, 0, i as int);
            }
            return Err(
                BgvLevelError::CiphertextDegreeMismatch { expected: expected_degree, actual: shape.degree },
            );
        }
        if shape.num_moduli != expected_limbs {
            proof {
                lemma_component_shape_error_prefix(expected_degree, expected_limbs, raw.components@, 0, i as int);
            }
            return Err(
                BgvLevelError::CiphertextLimbMismatch { expected: expected_limbs, actual: shape.num_moduli },
            );
        }
        i += 1;
    }
    proof {
        lemma_component_shape_error_prefix(expected_degree, expected_limbs, raw.components@, 0, i as int);
    }
    Ok(())
}

// ---------------------------------------------------------------------------
// BGV ciphertexts
// ---------------------------------------------------------------------------

/// A modulus chain and plaintext modulus `t > 1` that admit all switching
/// tables and CRT composition.
pub open spec fn bgv_chain_ok(moduli: Seq<u64>, plain_modulus: u64) -> bool {
    &&& plain_modulus > 1
    &&& mod_switch_chain_ok(moduli, plain_modulus)
    &&& rns_base(moduli)
    &&& moduli.len() < usize::MAX
}

/// A BGV ciphertext in coefficient form: its components over the modulus
/// chain of its parameters (degree, plaintext modulus, chain and the
/// chain's switching tables), with the plaintext factor and the
/// noise-scale degree it carries.
#[derive(Debug)]
pub struct BgvCiphertext {
    pub components: Vec<Vec<Vec<u64>>>,
    pub degree: usize,
    pub plain_modulus: u64,
    pub moduli: Vec<u64>,
    pub tables: BgvModSwitchTables,
    pub int_factor: BgvPlaintextFactor,
    pub noise_scale_degree: usize,
}

impl BgvCiphertext {
    /// Every component is a reduced polynomial over the chain, and the
    /// factor is invertible modulo `t`.
    pub open spec fn wf(self) -> bool {
        &&& bgv_chain_ok(self.moduli@, self.plain_modulus)
        &&& tables_ok(self.tables, self.moduli@, self.plain_modulus)
        &&& components_reduced(self.components@, self.moduli@, self.degree as int)
        &&& has_mod_inverse(self.int_factor@ as int, self.plain_modulus as int)
    }

    /// A ciphertext with the given factor and noise-scale degree; fails on
    /// components that are not polynomials of the parameters, then on a
    /// factor with no inverse modulo `t`.
    pub fn with_metadata(
        degree: usize,
        plain_modulus: u64,
        moduli: Vec<u64>,
        tables: BgvModSwitchTables,
        components: Vec<Vec<Vec<u64>>>,
        int_factor: BgvPlaintextFactor,
        noise_scale_degree: usize,
    ) -> (r: Result<Self, BgvLevelError>)
        requires
            bgv_chain_ok(moduli@, plain_modulus),
            tables_ok(tables, moduli@, plain_modulus),
            components_within(components@, moduli@),
        ensures
            match full_level_error(components@, degree, moduli@.len() as usize, 0) {
                Some(e) => r == Err::<Self, BgvLevelError>(e),
                None => {
                    &&& !has_mod_inverse(int_factor@ as int, plain_modulus as int) ==> r == Err::<
                        Self,
                        BgvLevelError,
                    >(
                        BgvLevelError::PlaintextFactorNotInvertible {
                            factor: int_factor@,
                            modulus: plain_modulus,
                        },
                    )
                    &&& has_mod_inverse(int_factor@ as int, plain_modulus as int) ==> r is Ok && r->Ok_0.wf()
                        && r->Ok_0.components@ == components@ && r->Ok_0.degree == degree
                        && r->Ok_0.plain_modulus == plain_modulus && r->Ok_0.moduli@ == moduli@ && r->Ok_0.tables == tables
                        && r->Ok_0.int_factor == int_factor && r->Ok_0.noise_scale_degree
                        == noise_scale_degree
                },
            },
    {
        match ensure_full_level_ciphertext(&components, degree, moduli.len()) {
            Ok(()) => {},
            Err(e) => {
                return Err(e);
            },
        }
        match int_factor.inverse_mod(plain_modulus) {
            Ok(_) => {},
            Err(e) => {
                return Err(e);
            },
        }
        proof {
            lemma_full_level_is_reduced(components@, moduli@, degree);
        }
        Ok(BgvCiphertext { components, degree, plain_modulus, moduli, tables, int_factor, noise_scale_degree })
    }

    /// A ciphertext with plaintext factor `factor` and noise-scale degree 1.
    pub fn with_plaintext_factor(
        degree: usize,
        plain_modulus: u64,
        moduli: Vec<u64>,
        tables: BgvModSwitchTables,
        components: Vec<Vec<Vec<u64>>>,
        int_factor: BgvPlaintextFactor,
    ) -> (r: Result<Self, BgvLevelError>)
        requires
            bgv_chain_ok(moduli@, plain_modulus),
            tables_ok(tables, moduli@, plain_modulus),
            components_within(components@, moduli@),
        ensures
            match full_level_error(components@, degree, moduli@.len() as usize, 0) {
                Some(e) => r == Err::<Self, BgvLevelError>(e),
                None => {
                    &&& !has_mod_inverse(int_factor@ as int, plain_modulus as int) ==> r == Err::<
                        Self,
                        BgvLevelError,
                    >(
                        BgvLevelError::PlaintextFactorNotInvertible {
                            factor: int_factor@,
                            modulus: plain_modulus,
                        },
                    )
                    &&& has_mod_inverse(int_factor@ as int, plain_modulus as int) ==> r is Ok && r->Ok_0.wf()
                        && r->Ok_0.components@ == components@ && r->Ok_0.degree == degree
                        && r->Ok_0.plain_modulus == plain_modulus && r->Ok_0.moduli@ == moduli@ && r->Ok_0.tables == tables
                        && r->Ok_0.int_factor == int_factor && r->Ok_0.noise_scale_degree == 1
                },
            },
    {
        Self::with_metadata(degree, plain_modulus, moduli, tables, components, int_factor, 1)
    }

    /// A fresh ciphertext: plaintext factor 1 and noise-scale degree 1.
    pub fn new(
        degree: usize,
        plain_modulus: u64,
        moduli: Vec<u64>,
        tables: BgvModSwitchTables,
        components: Vec<Vec<Vec<u64>>>,
    ) -> (r: Result<Self, BgvLevelError>)
        requires
            bgv_chain_ok(moduli@, plain_modulus),
            tables_ok(tables, moduli@, plain_modulus),
            components_within(components@, moduli@),
        ensures
            match full_level_error(components@, degree, moduli@.len() as usize, 0) {
                Some(e) => r == Err::<Self, BgvLevelError>(e),
                None => r is Ok && r->Ok_0.wf() && r->Ok_0.components@ == components@ && r->Ok_0.degree
                    == degree && r->Ok_0.plain_modulus == plain_modulus && r->Ok_0.moduli@ == moduli@ && r->Ok_0.tables == tables
                    && r->Ok_0.int_factor@ == 1 && r->Ok_0.noise_scale_degree == 1,
            },
    {
        let one = BgvPlaintextFactor::one();
        proof {
            assert(is_mod_inverse(1, 1, plain_modulus as int)) by {
                vstd::arithmetic::div_mod::lemma_small_mod(1, plain_modulus as nat);
            }
        }
        Self::with_plaintext_factor(degree, plain_modulus, moduli, tables, components, one)
    }

    /// Number of moduli in the ciphertext's chain.
    pub fn q_modulus_count(&self) -> (r: usize)
        ensures
            r == self.moduli@.len(),
    {
        self.moduli.len()
    }
}

} // verus!
