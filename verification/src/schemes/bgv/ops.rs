//! Coefficient-wise operations on BGV polynomials held as RNS limbs, and the
//! compatibility checks made before two ciphertexts are combined.

use vstd::prelude::*;

use crate::modarith::{
    add_mod, has_mod_inverse, is_mod_inverse, lemma_unit_product, mul_mod, signed_residue, sub_mod,
};
use crate::schemes::bgv::ciphertext::{
    bgv_chain_ok, mod_switch_plaintext_factor, scale_plaintext_by_factor, BgvCiphertext, BgvPlaintextFactor,
};
use crate::polymod::{
    add_coefficients_assign, components_reduced, limbs_reduced, linear_residue, negacyclic_coeff,
    negacyclic_mul_mod, LinearOp,
};
use crate::schemes::bgv::keys::{vec_contains_u32, BgvDiagonalBsgsGroup, BgvDiagonalBsgsTerm};
use crate::schemes::bgv::keys::{bgv_ksw_levels, ksw_level_count};
use crate::schemes::bgv::rns_big::{
    centered_coefficient, decompose_gadget_digits, gadget_digit, lemma_rns_base_prefix, limbs_shaped, rns_base,
};
use crate::schemes::bgv::params::{
    copy_limbs, dropped_product, lemma_mod_switch_chain_prefix, limb_values, limbs_within, mod_switch_chain_ok,
    mod_switch_poly_to_q_limbs, moduli_prefix, switch_down, tables_ok, BgvLevelError, BgvModSwitchTables,
};

verus! {

// ---------------------------------------------------------------------------
// Limb-wise polynomial operations
// ---------------------------------------------------------------------------

/// Residue `c` of `c0` modulo `q` after the plaintext coefficient `p`
/// (taken modulo `t`) is added or subtracted.
pub open spec fn plain_op_residue(c: int, p: int, t: int, q: int, op: LinearOp) -> int {
    let v = (p % t) % q;
    match op {
        LinearOp::Add => (c + v) % q,
        LinearOp::Sub => (c - v) % q,
    }
}

/// Adds the plaintext (coefficients modulo `t`) to, or subtracts it from,
/// the component `c0` of a ciphertext in coefficient form, limb by limb.
pub fn add_plain_to_c0(
    c0: &mut Vec<Vec<u64>>,
    plaintext: &Vec<u64>,
    moduli: &Vec<u64>,
    degree: usize,
    plain_modulus: u64,
    op: LinearOp,
)
    requires
        limbs_reduced(old(c0)@, moduli@, degree as int),
        plaintext@.len() == degree,
        plain_modulus > 0,
    ensures
        limbs_reduced(final(c0)@, moduli@, degree as int),
        forall|l: int, k: int|
            0 <= l < moduli@.len() && 0 <= k < degree ==> #[trigger] final(c0)@[l]@[k] == plain_op_residue(
                old(c0)@[l]@[k] as int,
                plaintext@[k] as int,
                plain_modulus as int,
                moduli@[l] as int,
                op,
            ),
{
    let t = plain_modulus;
    let mut out: Vec<Vec<u64>> = Vec::new();
    let mut l: usize = 0;
    while l < moduli.len()
        invariant
            limbs_reduced(c0@, moduli@, degree as int),
            plaintext@.len() == degree,
            t == plain_modulus,
            t > 0,
            l <= moduli@.len(),
            out@.len() == l,
            forall|ll: int| 0 <= ll < l ==> (#[trigger] out@[ll])@.len() == degree,
            forall|ll: int, k: int|
                0 <= ll < l && 0 <= k < degree ==> #[trigger] out@[ll]@[k] == plain_op_residue(
                    c0@[ll]@[k] as int,
                    plaintext@[k] as int,
                    t as int,
                    moduli@[ll] as int,
                    op,
                ),
            forall|ll: int, k: int| 0 <= ll < l && 0 <= k < degree ==> #[trigger] out@[ll]@[k] < moduli@[ll],
        decreases moduli@.len() - l,
    {
        let q = moduli[l];
        let mut limb: Vec<u64> = Vec::new();
        let mut k: usize = 0;
        while k < degree
            invariant
                limbs_reduced(c0@, moduli@, degree as int),
                plaintext@.len() == degree,
                t == plain_modulus,
                t > 0,
                l < moduli@.len(),
                q == moduli@[l as int],
                q > 0,
                k <= degree,
                limb@.len() == k,
                forall|kk: int|
                    0 <= kk < k ==> #[trigger] limb@[kk] == plain_op_residue(
                        c0@[l as int]@[kk] as int,
                        plaintext@[kk] as int,
                        t as int,
                        q as int,
                        op,
                    ),
                forall|kk: int| 0 <= kk < k ==> #[trigger] limb@[kk] < q,
            decreases degree - k,
        {
            let value = (plaintext[k] % t) % q;
            let updated = match op {
                LinearOp::Add => add_mod(c0[l][k], value, q),
                LinearOp::Sub => sub_mod(c0[l][k], value, q),
            };
            limb.push(updated);
            k += 1;
        }
        out.push(limb);
        l += 1;
    }
    *c0 = out;
}

/// Negates a polynomial limb by limb: every residue `c` becomes `−c mod q`.
pub fn negate_poly_inplace(limbs: &mut Vec<Vec<u64>>, moduli: &Vec<u64>, degree: usize)
    requires
        limbs_reduced(old(limbs)@, moduli@, degree as int),
    ensures
        limbs_reduced(final(limbs)@, moduli@, degree as int),
        forall|l: int, k: int|
            0 <= l < moduli@.len() && 0 <= k < degree ==> #[trigger] final(limbs)@[l]@[k] == (-(old(
                limbs,
            )@[l]@[k] as int)) % (moduli@[l] as int),
{
    let mut out: Vec<Vec<u64>> = Vec::new();
    let mut l: usize = 0;
    while l < moduli.len()
        invariant
            limbs_reduced(limbs@, moduli@, degree as int),
            l <= moduli@.len(),
            out@.len() == l,
            forall|ll: int| 0 <= ll < l ==> (#[trigger] out@[ll])@.len() == degree,
            forall|ll: int, k: int|
                0 <= ll < l && 0 <= k < degree ==> #[trigger] out@[ll]@[k] == (-(limbs@[ll]@[k] as int)) % (
                moduli@[ll] as int),
            forall|ll: int, k: int| 0 <= ll < l && 0 <= k < degree ==> #[trigger] out@[ll]@[k] < moduli@[ll],
        decreases moduli@.len() - l,
    {
        let q = moduli[l];
        let mut limb: Vec<u64> = Vec::new();
        let mut k: usize = 0;
        while k < degree
            invariant
                limbs_reduced(limbs@, moduli@, degree as int),
                l < moduli@.len(),
                q == moduli@[l as int],
                q > 0,
                k <= degree,
                limb@.len() == k,
                forall|kk: int|
                    0 <= kk < k ==> #[trigger] limb@[kk] == (-(limbs@[l as int]@[kk] as int)) % (q as int),
                forall|kk: int| 0 <= kk < k ==> #[trigger] limb@[kk] < q,
            decreases degree - k,
        {
            limb.push(sub_mod(0, limbs[l][k], q));
            k += 1;
        }
        out.push(limb);
        l += 1;
    }
    *limbs = out;
}

/// Multiplies every residue of a polynomial by `scalar` modulo its limb's
/// modulus.
pub fn scale_poly_by_scalar(limbs: &mut Vec<Vec<u64>>, scalar: u64, moduli: &Vec<u64>, degree: usize)
    requires
        limbs_reduced(old(limbs)@, moduli@, degree as int),
    ensures
        limbs_reduced(final(limbs)@, moduli@, degree as int),
        forall|l: int, k: int|
            0 <= l < moduli@.len() && 0 <= k < degree ==> #[trigger] final(limbs)@[l]@[k] == (old(
                limbs,
            )@[l]@[k] * (scalar % moduli@[l])) % (moduli@[l] as int),
{
    let mut out: Vec<Vec<u64>> = Vec::new();
    let mut l: usize = 0;
    while l < moduli.len()
        invariant
            limbs_reduced(limbs@, moduli@, degree as int),
            l <= moduli@.len(),
            out@.len() == l,
            forall|ll: int| 0 <= ll < l ==> (#[trigger] out@[ll])@.len() == degree,
            forall|ll: int, k: int|
                0 <= ll < l && 0 <= k < degree ==> #[trigger] out@[ll]@[k] == (limbs@[ll]@[k] * (scalar
                    % moduli@[ll])) % (moduli@[ll] as int),
            forall|ll: int, k: int| 0 <= ll < l && 0 <= k < degree ==> #[trigger] out@[ll]@[k] < moduli@[ll],
        decreases moduli@.len() - l,
    {
        let q = moduli[l];
        let s = scalar % q;
        let mut limb: Vec<u64> = Vec::new();
        let mut k: usize = 0;
        while k < degree
            invariant
                limbs_reduced(limbs@, moduli@, degree as int),
                l < moduli@.len(),
                q == moduli@[l as int],
                q > 0,
                s == scalar % q,
                k <= degree,
                limb@.len() == k,
                forall|kk: int| 0 <= kk < k ==> #[trigger] limb@[kk] == (limbs@[l as int]@[kk] * s) % (q as int),
                forall|kk: int| 0 <= kk < k ==> #[trigger] limb@[kk] < q,
            decreases degree - k,
        {
            limb.push(mul_mod(limbs[l][k], s, q));
            k += 1;
        }
        out.push(limb);
        l += 1;
    }
    *limbs = out;
}

/// The first `q_limbs` limbs of a polynomial.
pub fn truncate_poly_q_prefix(limbs: &Vec<Vec<u64>>, q_limbs: usize) -> (r: Vec<Vec<u64>>)
    requires
        q_limbs <= limbs@.len(),
    ensures
        r@.len() == q_limbs,
        forall|l: int| 0 <= l < q_limbs ==> (#[trigger] r@[l])@ == limbs@[l]@,
{
    let mut out: Vec<Vec<u64>> = Vec::new();
    let mut l: usize = 0;
    while l < q_limbs
        invariant
            q_limbs <= limbs@.len(),
            l <= q_limbs,
            out@.len() == l,
            forall|ll: int| 0 <= ll < l ==> (#[trigger] out@[ll])@ == limbs@[ll]@,
        decreases q_limbs - l,
    {
        let limb = copy_limb(&limbs[l]);
        out.push(limb);
        l += 1;
    }
    out
}

fn copy_limb(limb: &Vec<u64>) -> (r: Vec<u64>)
    ensures
        r@ == limb@,
{
    let mut out: Vec<u64> = Vec::new();
    let mut k: usize = 0;
    while k < limb.len()
        invariant
            k <= limb@.len(),
            out@ == limb@.take(k as int),
        decreases limb@.len() - k,
    {
        out.push(limb[k]);
        k += 1;
        proof {
            assert(out@ =~= limb@.take(k as int));
        }
    }
    proof {
        assert(out@ =~= limb@);
    }
    out
}

/// Adding a plaintext and subtracting it again gives back every reduced
/// residue of `c0`, and so does subtracting it first.
pub proof fn lemma_plain_add_sub_undo(c: int, p: int, t: int, q: int)
    requires
        t > 0,
        q > 0,
        0 <= c < q,
    ensures
        plain_op_residue(plain_op_residue(c, p, t, q, LinearOp::Add), p, t, q, LinearOp::Sub) == c,
        plain_op_residue(plain_op_residue(c, p, t, q, LinearOp::Sub), p, t, q, LinearOp::Add) == c,
{
    let v = (p % t) % q;
    vstd::arithmetic::div_mod::lemma_mod_bound(p % t, q);
    vstd::arithmetic::div_mod::lemma_small_mod(v as nat, q as nat);
    vstd::arithmetic::div_mod::lemma_small_mod(c as nat, q as nat);
    vstd::arithmetic::div_mod::lemma_sub_mod_noop(c + v, v, q);
    vstd::arithmetic::div_mod::lemma_add_mod_noop(c - v, v, q);
}

/// Negating twice gives back every reduced residue.
pub proof fn lemma_negate_twice(c: int, q: int)
    requires
        q > 0,
        0 <= c < q,
    ensures
        (-((-c) % q)) % q == c,
{
    vstd::arithmetic::div_mod::lemma_fundamental_div_mod(-c, q);
    let d = (-c) / q;
    vstd::arithmetic::div_mod::lemma_mod_multiples_vanish(d, c, q);
    assert(-((-c) % q) == q * d + c) by (nonlinear_arith)
        requires
            -c == q * d + (-c) % q,
    ;
    vstd::arithmetic::div_mod::lemma_small_mod(c as nat, q as nat);
}

// ---------------------------------------------------------------------------
// Adding a fusion lift
// ---------------------------------------------------------------------------

/// Residue `c` modulo `q` after the fusion lift `f · λ · x` of a correction
/// coefficient `x` is added (`f` the fusion plaintext modulus, `λ` the lift
/// scalar).
pub open spec fn plaintext_lift_residue(c: int, x: int, f: int, lambda: int, q: int) -> int {
    (c + ((f % q) * (((lambda % q) * (x % q)) % q)) % q) % q
}

/// Adds the fusion lift of a plaintext correction to the component `c0` of a
/// ciphertext in coefficient form: `c0 += f · λ · correction` limb by limb
/// (correction coefficients past `c0`'s degree are ignored, and `c0`'s past
/// the correction's are kept).
pub fn add_fusion_plaintext_lift_to_raw_c0(
    c0: &mut Vec<Vec<u64>>,
    moduli: &Vec<u64>,
    degree: usize,
    fusion_plain_modulus: u64,
    correction: &Vec<u64>,
    lift_scalar_mod_source: u64,
)
    requires
        limbs_reduced(old(c0)@, moduli@, degree as int),
    ensures
        limbs_reduced(final(c0)@, moduli@, degree as int),
        forall|l: int, k: int|
            0 <= l < moduli@.len() && 0 <= k < degree ==> #[trigger] final(c0)@[l]@[k] == (if k
                < correction@.len() {
                plaintext_lift_residue(
                    old(c0)@[l]@[k] as int,
                    correction@[k] as int,
                    fusion_plain_modulus as int,
                    lift_scalar_mod_source as int,
                    moduli@[l] as int,
                )
            } else {
                old(c0)@[l]@[k] as int
            }),
{
    let mut out: Vec<Vec<u64>> = Vec::new();
    let mut l: usize = 0;
    while l < moduli.len()
        invariant
            limbs_reduced(c0@, moduli@, degree as int),
            l <= moduli@.len(),
            out@.len() == l,
            forall|ll: int| 0 <= ll < l ==> (#[trigger] out@[ll])@.len() == degree,
            forall|ll: int, k: int|
                0 <= ll < l && 0 <= k < degree ==> #[trigger] out@[ll]@[k] == (if k < correction@.len() {
                    plaintext_lift_residue(
                        c0@[ll]@[k] as int,
                        correction@[k] as int,
                        fusion_plain_modulus as int,
                        lift_scalar_mod_source as int,
                        moduli@[ll] as int,
                    )
                } else {
                    c0@[ll]@[k] as int
                }),
            forall|ll: int, k: int| 0 <= ll < l && 0 <= k < degree ==> #[trigger] out@[ll]@[k] < moduli@[ll],
        decreases moduli@.len() - l,
    {
        let q = moduli[l];
        let fusion_factor = fusion_plain_modulus % q;
        let lift_factor = lift_scalar_mod_source % q;
        let mut limb: Vec<u64> = Vec::new();
        let mut k: usize = 0;
        while k < degree
            invariant
                limbs_reduced(c0@, moduli@, degree as int),
                l < moduli@.len(),
                q == moduli@[l as int],
                q > 0,
                fusion_factor == fusion_plain_modulus % q,
                lift_factor == lift_scalar_mod_source % q,
                k <= degree,
                limb@.len() == k,
                forall|kk: int|
                    0 <= kk < k ==> #[trigger] limb@[kk] == (if kk < correction@.len() {
                        plaintext_lift_residue(
                            c0@[l as int]@[kk] as int,
                            correction@[kk] as int,
                            fusion_plain_modulus as int,
                            lift_scalar_mod_source as int,
                            q as int,
                        )
                    } else {
                        c0@[l as int]@[kk] as int
                    }),
                forall|kk: int| 0 <= kk < k ==> #[trigger] limb@[kk] < q,
            decreases degree - k,
        {
            let current = c0[l][k];
            if k < correction.len() {
                let lifted = mul_mod(fusion_factor, mul_mod(lift_factor, correction[k] % q, q), q);
                limb.push(add_mod(current, lifted, q));
            } else {
                limb.push(current);
            }
            k += 1;
        }
        out.push(limb);
        l += 1;
    }
    *c0 = out;
}

/// Residue `c` modulo `q` after `y · (f · λ mod q)` is added.
pub open spec fn encrypted_lift_residue(c: int, y: int, f: int, lambda: int, q: int) -> int {
    (c + (y * (((f % q) * (lambda % q)) % q)) % q) % q
}

/// Residue `[i][l][k]` of a ciphertext once an encrypted lift is added; a
/// component the ciphertext lacks counts as zero.
pub open spec fn with_encrypted_lift(
    raw: Seq<Vec<Vec<u64>>>,
    lift: Seq<Vec<Vec<u64>>>,
    moduli: Seq<u64>,
    f: int,
    lambda: int,
    i: int,
    l: int,
    k: int,
) -> int {
    let base = if i < raw.len() {
        raw[i]@[l]@[k] as int
    } else {
        0
    };
    if i < lift.len() {
        encrypted_lift_residue(base, lift[i]@[l]@[k] as int, f, lambda, moduli[l] as int)
    } else {
        base
    }
}

/// Adds the fusion lift `f · λ · E` of an encrypted correction `E` to a
/// ciphertext, both in coefficient form, component by component; the
/// ciphertext is first padded with zero components to the size of `E`.
pub fn add_fusion_encrypted_lift_to_raw(
    raw: &Vec<Vec<Vec<u64>>>,
    encrypted_lift: &Vec<Vec<Vec<u64>>>,
    moduli: &Vec<u64>,
    degree: usize,
    fusion_plain_modulus: u64,
    lift_scalar_mod_source: u64,
) -> (r: Vec<Vec<Vec<u64>>>)
    requires
        forall|l: int| 0 <= l < moduli@.len() ==> #[trigger] moduli@[l] > 0,
        components_reduced(raw@, moduli@, degree as int),
        components_reduced(encrypted_lift@, moduli@, degree as int),
    ensures
        r@.len() == (if raw@.len() < encrypted_lift@.len() {
            encrypted_lift@.len()
        } else {
            raw@.len()
        }),
        components_reduced(r@, moduli@, degree as int),
        forall|i: int, l: int, k: int|
            0 <= i < r@.len() && 0 <= l < moduli@.len() && 0 <= k < degree ==> #[trigger] r@[i]@[l]@[k]
                == with_encrypted_lift(
                raw@,
                encrypted_lift@,
                moduli@,
                fusion_plain_modulus as int,
                lift_scalar_mod_source as int,
                i,
                l,
                k,
            ),
{
    let count = if raw.len() < encrypted_lift.len() {
        encrypted_lift.len()
    } else {
        raw.len()
    };
    let mut out: Vec<Vec<Vec<u64>>> = Vec::new();
    let mut i: usize = 0;
    while i < count
        invariant
            forall|l: int| 0 <= l < moduli@.len() ==> #[trigger] moduli@[l] > 0,
            components_reduced(raw@, moduli@, degree as int),
            components_reduced(encrypted_lift@, moduli@, degree as int),
            count == (if raw@.len() < encrypted_lift@.len() {
                encrypted_lift@.len()
            } else {
                raw@.len()
            }),
            i <= count,
            out@.len() == i,
            components_reduced(out@, moduli@, degree as int),
            forall|ii: int, l: int, k: int|
                0 <= ii < i && 0 <= l < moduli@.len() && 0 <= k < degree ==> #[trigger] out@[ii]@[l]@[k]
                    == with_encrypted_lift(
                    raw@,
                    encrypted_lift@,
                    moduli@,
                    fusion_plain_modulus as int,
                    lift_scalar_mod_source as int,
                    ii,
                    l,
                    k,
                ),
        decreases count - i,
    {
        let mut component: Vec<Vec<u64>> = Vec::new();
        let mut l: usize = 0;
        while l < moduli.len()
            invariant
                forall|ll: int| 0 <= ll < moduli@.len() ==> #[trigger] moduli@[ll] > 0,
                components_reduced(raw@, moduli@, degree as int),
                components_reduced(encrypted_lift@, moduli@, degree as int),
                i < count,
                count <= raw@.len() || count <= encrypted_lift@.len(),
                i < raw@.len() || i < encrypted_lift@.len(),
                l <= moduli@.len(),
                component@.len() == l,
                forall|ll: int| 0 <= ll < l ==> (#[trigger] component@[ll])@.len() == degree,
                forall|ll: int, k: int|
                    0 <= ll < l && 0 <= k < degree ==> #[trigger] component@[ll]@[k] < moduli@[ll],
                forall|ll: int, k: int|
                    0 <= ll < l && 0 <= k < degree ==> #[trigger] component@[ll]@[k] == with_encrypted_lift(
                        raw@,
                        encrypted_lift@,
                        moduli@,
                        fusion_plain_modulus as int,
                        lift_scalar_mod_source as int,
                        i as int,
                        ll,
                        k,
                    ),
            decreases moduli@.len() - l,
        {
            let q = moduli[l];
            let scalar = mul_mod(fusion_plain_modulus % q, lift_scalar_mod_source % q, q);
            proof {
                if (i as int) < raw@.len() {
                    assert(limbs_reduced(raw@[i as int]@, moduli@, degree as int));
                }
                if (i as int) < encrypted_lift@.len() {
                    assert(limbs_reduced(encrypted_lift@[i as int]@, moduli@, degree as int));
                }
            }
            let mut limb: Vec<u64> = Vec::new();
            let mut k: usize = 0;
            while k < degree
                invariant
                    components_reduced(raw@, moduli@, degree as int),
                    components_reduced(encrypted_lift@, moduli@, degree as int),
                    i < raw@.len() || i < encrypted_lift@.len(),
                    l < moduli@.len(),
                    q == moduli@[l as int],
                    q > 0,
                    scalar == ((fusion_plain_modulus % q) * (lift_scalar_mod_source % q)) % (q as int),
                    (i as int) < raw@.len() ==> limbs_reduced(raw@[i as int]@, moduli@, degree as int),
                    (i as int) < encrypted_lift@.len() ==> limbs_reduced(
                        encrypted_lift@[i as int]@,
                        moduli@,
                        degree as int,
                    ),
                    k <= degree,
                    limb@.len() == k,
                    forall|kk: int| 0 <= kk < k ==> #[trigger] limb@[kk] < q,
                    forall|kk: int|
                        0 <= kk < k ==> #[trigger] limb@[kk] == with_encrypted_lift(
                            raw@,
                            encrypted_lift@,
                            moduli@,
                            fusion_plain_modulus as int,
                            lift_scalar_mod_source as int,
                            i as int,
                            l as int,
                            kk,
                        ),
                decreases degree - k,
            {
                let base: u64 = if i < raw.len() {
                    raw[i][l][k]
                } else {
                    0
                };
                if i < encrypted_lift.len() {
                    let lifted = mul_mod(encrypted_lift[i][l][k], scalar, q);
                    limb.push(add_mod(base, lifted, q));
                } else {
                    limb.push(base);
                }
                k += 1;
            }
            component.push(limb);
            l += 1;
        }
        proof {
            assert(limbs_reduced(component@, moduli@, degree as int));
        }
        let ghost before = out@;
        out.push(component);
        proof {
            assert forall|ii: int| 0 <= ii < out@.len() implies limbs_reduced(
                (#[trigger] out@[ii])@,
                moduli@,
                degree as int,
            ) by {
                if ii < i {
                    assert(out@[ii] == before[ii]);
                }
            }
        }
        i += 1;
    }
    out
}

// ---------------------------------------------------------------------------
// Switching a ciphertext down
// ---------------------------------------------------------------------------

/// Why one component is not a polynomial of the full level, if it is not:
/// its first limb of another degree, then its limb count.
pub open spec fn component_level_error(
    component: Seq<Vec<u64>>,
    degree: usize,
    expected_limbs: usize,
    l: int,
) -> Option<BgvLevelError>
    decreases component.len() - l,
{
    if l < 0 {
        None
    } else if l >= component.len() {
        if component.len() != expected_limbs {
            Some(
                BgvLevelError::CiphertextLimbMismatch {
                    expected: expected_limbs,
                    actual: component.len() as usize,
                },
            )
        } else {
            None
        }
    } else if component[l]@.len() != degree {
        Some(BgvLevelError::CiphertextDegreeMismatch { expected: degree, actual: component[l]@.len() as usize })
    } else {
        component_level_error(component, degree, expected_limbs, l + 1)
    }
}

/// Why a ciphertext is not at the full level, if it is not: its first
/// component that is not.
pub open spec fn full_level_error(
    components: Seq<Vec<Vec<u64>>>,
    degree: usize,
    expected_limbs: usize,
    i: int,
) -> Option<BgvLevelError>
    decreases components.len() - i,
{
    if i < 0 || i >= components.len() {
        None
    } else {
        match component_level_error(components[i]@, degree, expected_limbs, 0) {
            Some(e) => Some(e),
            None => full_level_error(components, degree, expected_limbs, i + 1),
        }
    }
}

pub(crate) proof fn lemma_component_level_prefix(
    component: Seq<Vec<u64>>,
    degree: usize,
    expected_limbs: usize,
    i: int,
    k: int,
)
    requires
        0 <= i <= k <= component.len(),
        forall|l: int| i <= l < k ==> (#[trigger] component[l])@.len() == degree,
    ensures
        component_level_error(component, degree, expected_limbs, i) == component_level_error(
            component,
            degree,
            expected_limbs,
            k,
        ),
    decreases k - i,
{
    if i < k {
        lemma_component_level_prefix(component, degree, expected_limbs, i + 1, k);
    }
}

pub(crate) proof fn lemma_full_level_prefix(
    components: Seq<Vec<Vec<u64>>>,
    degree: usize,
    expected_limbs: usize,
    i: int,
    k: int,
)
    requires
        0 <= i <= k <= components.len(),
        forall|j: int|
            i <= j < k ==> component_level_error((#[trigger] components[j])@, degree, expected_limbs, 0)
                is None,
    ensures
        full_level_error(components, degree, expected_limbs, i) == full_level_error(
            components,
            degree,
            expected_limbs,
            k,
        ),
    decreases k - i,
{
    if i < k {
        lemma_full_level_prefix(components, degree, expected_limbs, i + 1, k);
    }
}

pub(crate) proof fn lemma_component_level_ok(component: Seq<Vec<u64>>, degree: usize, expected_limbs: usize, l: int)
    requires
        0 <= l <= component.len(),
        component_level_error(component, degree, expected_limbs, l) is None,
    ensures
        component.len() == expected_limbs,
        forall|ll: int| l <= ll < component.len() ==> (#[trigger] component[ll])@.len() == degree,
    decreases component.len() - l,
{
    if l < component.len() {
        lemma_component_level_ok(component, degree, expected_limbs, l + 1);
    }
}

pub(crate) proof fn lemma_full_level_ok(components: Seq<Vec<Vec<u64>>>, degree: usize, expected_limbs: usize, i: int, j: int)
    requires
        0 <= i <= j < components.len(),
        full_level_error(components, degree, expected_limbs, i) is None,
    ensures
        component_level_error(components[j]@, degree, expected_limbs, 0) is None,
    decreases j - i,
{
    if i < j {
        lemma_full_level_ok(components, degree, expected_limbs, i + 1, j);
    }
}

/// Reduced components of `degree` over the whole chain pass the full-level
/// check.
pub(crate) proof fn lemma_reduced_is_full_level(components: Seq<Vec<Vec<u64>>>, moduli: Seq<u64>, degree: usize)
    requires
        components_reduced(components, moduli, degree as int),
        moduli.len() <= usize::MAX,
    ensures
        full_level_error(components, degree, moduli.len() as usize, 0) is None,
{
    assert forall|j: int| 0 <= j < components.len() implies component_level_error(
        (#[trigger] components[j])@,
        degree,
        moduli.len() as usize,
        0,
    ) is None by {
        assert(limbs_reduced(components[j]@, moduli, degree as int));
        lemma_component_level_prefix(components[j]@, degree, moduli.len() as usize, 0, components[j]@.len() as int);
    }
    lemma_full_level_prefix(components, degree, moduli.len() as usize, 0, components.len() as int);
}

/// Components that pass the full-level check, with reduced residues, are
/// reduced polynomials over the chain.
pub(crate) proof fn lemma_full_level_is_reduced(components: Seq<Vec<Vec<u64>>>, moduli: Seq<u64>, degree: usize)
    requires
        moduli.len() <= usize::MAX,
        full_level_error(components, degree, moduli.len() as usize, 0) is None,
        components_within(components, moduli),
        forall|l: int| 0 <= l < moduli.len() ==> #[trigger] moduli[l] > 0,
    ensures
        components_reduced(components, moduli, degree as int),
{
    assert forall|i: int| 0 <= i < components.len() implies limbs_reduced(
        (#[trigger] components[i])@,
        moduli,
        degree as int,
    ) by {
        lemma_full_level_ok(components, degree, moduli.len() as usize, 0, i);
        lemma_component_level_ok(components[i]@, degree, moduli.len() as usize, 0);
        assert forall|l: int, k: int|
            0 <= l < components[i]@.len() && 0 <= k < degree implies #[trigger] components[i]@[l]@[k] < moduli[l] by {
            assert(components[i]@[l]@.len() == degree);
        }
    }
}

/// Checks that every component of a ciphertext is a polynomial of `degree`
/// coefficients over `expected_limbs` moduli, and reports the first that is
/// not.
pub fn ensure_full_level_ciphertext(
    components: &Vec<Vec<Vec<u64>>>,
    degree: usize,
    expected_limbs: usize,
) -> (r: Result<(), BgvLevelError>)
    ensures
        match full_level_error(components@, degree, expected_limbs, 0) {
            Some(e) => r == Err::<(), BgvLevelError>(e),
            None => r is Ok,
        },
{
    let mut i: usize = 0;
    while i < components.len()
        invariant
            i <= components@.len(),
            forall|j: int|
                0 <= j < i ==> component_level_error((#[trigger] components@[j])@, degree, expected_limbs, 0)
                    is None,
        decreases components@.len() - i,
    {
        let component = &components[i];
        let mut l: usize = 0;
        while l < component.len()
            invariant
                i < components@.len(),
                *component == components@[i as int],
                forall|j: int|
                    0 <= j < i ==> component_level_error((#[trigger] components@[j])@, degree, expected_limbs, 0)
                        is None,
                l <= component@.len(),
                forall|ll: int| 0 <= ll < l ==> (#[trigger] component@[ll])@.len() == degree,
            decreases component@.len() - l,
        {
            if component[l].len() != degree {
                proof {
                    lemma_component_level_prefix(component@, degree, expected_limbs, 0, l as int);
                    lemma_full_level_prefix(components@, degree, expected_limbs, 0, i as int);
                }
                return Err(BgvLevelError::CiphertextDegreeMismatch { expected: degree, actual: component[l].len() });
            }
            l += 1;
        }
        proof {
            lemma_component_level_prefix(component@, degree, expected_limbs, 0, l as int);
        }
        if component.len() != expected_limbs {
            proof {
                lemma_full_level_prefix(components@, degree, expected_limbs, 0, i as int);
            }
            return Err(BgvLevelError::CiphertextLimbMismatch { expected: expected_limbs, actual: component.len() });
        }
        i += 1;
    }
    proof {
        lemma_full_level_prefix(components@, degree, expected_limbs, 0, i as int);
    }
    Ok(())
}

/// Residues of every component reduced modulo their limb's modulus.
pub open spec fn components_within(components: Seq<Vec<Vec<u64>>>, moduli: Seq<u64>) -> bool {
    forall|i: int, l: int, k: int|
        0 <= i < components.len() && 0 <= l < components[i]@.len() && l < moduli.len() && 0 <= k
            < components[i]@[l]@.len() ==> #[trigger] components[i]@[l]@[k] < moduli[l]
}

fn copy_components(components: &Vec<Vec<Vec<u64>>>) -> (r: Vec<Vec<Vec<u64>>>)
    ensures
        r@.len() == components@.len(),
        forall|i: int| 0 <= i < components@.len() ==> limb_values((#[trigger] r@[i])@) == limb_values(components@[i]@),
        forall|i: int| 0 <= i < components@.len() ==> (#[trigger] r@[i])@.len() == components@[i]@.len(),
{
    let mut out: Vec<Vec<Vec<u64>>> = Vec::new();
    let mut i: usize = 0;
    while i < components.len()
        invariant
            i <= components@.len(),
            out@.len() == i,
            forall|ii: int| 0 <= ii < i ==> limb_values((#[trigger] out@[ii])@) == limb_values(components@[ii]@),
            forall|ii: int| 0 <= ii < i ==> (#[trigger] out@[ii])@.len() == components@[ii]@.len(),
        decreases components@.len() - i,
    {
        let c = copy_limbs(&components[i]);
        proof {
            assert(limb_values(c@) =~= limb_values(components@[i as int]@));
        }
        out.push(c);
        i += 1;
    }
    out
}

/// Switches a ciphertext over the full chain, in coefficient form, down to
/// its first `q_limbs` moduli.  Fails on an empty or too long target chain,
/// and on a ciphertext that is not at the full level; a target of the full
/// chain leaves the ciphertext as it is.
pub fn mod_switch_to_q_limbs(
    components: &Vec<Vec<Vec<u64>>>,
    moduli: &Vec<u64>,
    degree: usize,
    plain_modulus: u64,
    tables: &BgvModSwitchTables,
    q_limbs: usize,
) -> (r: Result<Vec<Vec<Vec<u64>>>, BgvLevelError>)
    requires
        mod_switch_chain_ok(moduli@, plain_modulus),
        tables_ok(*tables, moduli@, plain_modulus),
        components_within(components@, moduli@),
    ensures
        q_limbs == 0 ==> r == Err::<Vec<Vec<Vec<u64>>>, BgvLevelError>(
            BgvLevelError::EmptyCiphertextModulus,
        ),
        q_limbs > moduli@.len() ==> r == Err::<Vec<Vec<Vec<u64>>>, BgvLevelError>(
            BgvLevelError::TooManyCiphertextModuli { requested: q_limbs, available: moduli@.len() as usize },
        ),
        1 <= q_limbs == moduli@.len() ==> r is Ok && r->Ok_0@.len() == components@.len() && forall|i: int|
            0 <= i < components@.len() ==> limb_values((#[trigger] r->Ok_0@[i])@) == limb_values(
                components@[i]@,
            ),
        1 <= q_limbs < moduli@.len() ==> match full_level_error(components@, degree, moduli@.len() as usize, 0) {
            Some(e) => r == Err::<Vec<Vec<Vec<u64>>>, BgvLevelError>(e),
            None => r is Ok && r->Ok_0@.len() == components@.len() && (forall|i: int|
                0 <= i < components@.len() ==> limb_values((#[trigger] r->Ok_0@[i])@) == switch_down(
                    limb_values(components@[i]@),
                    moduli@,
                    plain_modulus,
                    *tables,
                    degree as int,
                    (moduli@.len() - q_limbs) as nat,
                )) && forall|i: int|
                0 <= i < components@.len() ==> (#[trigger] r->Ok_0@[i])@.len() == q_limbs && limbs_within(
                    r->Ok_0@[i]@,
                    moduli@,
                    degree as int,
                ),
        },
{
    if q_limbs == 0 {
        return Err(BgvLevelError::EmptyCiphertextModulus);
    }
    let current = moduli.len();
    if q_limbs > current {
        return Err(BgvLevelError::TooManyCiphertextModuli { requested: q_limbs, available: current });
    }
    if q_limbs == current {
        return Ok(copy_components(components));
    }
    match ensure_full_level_ciphertext(components, degree, current) {
        Ok(()) => {},
        Err(e) => {
            return Err(e);
        },
    }
    let mut out: Vec<Vec<Vec<u64>>> = Vec::new();
    let mut i: usize = 0;
    while i < components.len()
        invariant
            mod_switch_chain_ok(moduli@, plain_modulus),
            tables_ok(*tables, moduli@, plain_modulus),
            components_within(components@, moduli@),
            1 <= q_limbs < moduli@.len(),
            current == moduli@.len(),
            full_level_error(components@, degree, current, 0) is None,
            i <= components@.len(),
            out@.len() == i,
            forall|ii: int|
                0 <= ii < i ==> limb_values((#[trigger] out@[ii])@) == switch_down(
                    limb_values(components@[ii]@),
                    moduli@,
                    plain_modulus,
                    *tables,
                    degree as int,
                    (moduli@.len() - q_limbs) as nat,
                ),
            forall|ii: int|
                0 <= ii < i ==> (#[trigger] out@[ii])@.len() == q_limbs && limbs_within(
                    out@[ii]@,
                    moduli@,
                    degree as int,
                ),
        decreases components@.len() - i,
    {
        proof {
            lemma_full_level_ok(components@, degree, current, 0, i as int);
            lemma_component_level_ok(components@[i as int]@, degree, current, 0);
            assert forall|l: int, k: int|
                0 <= l < components@[i as int]@.len() && 0 <= k < degree implies #[trigger] components@[i as int]@[l]@[k]
                < moduli@[l] by {
                assert(components@[i as int]@[l]@.len() == degree);
            }
        }
        let switched = mod_switch_poly_to_q_limbs(&components[i], moduli, degree, plain_modulus, tables, q_limbs);
        out.push(switched);
        i += 1;
    }
    Ok(out)
}

/// Switches a ciphertext down by `levels` moduli (none leaves it as it is;
/// all of them or more fails).
pub fn mod_switch_down(
    components: &Vec<Vec<Vec<u64>>>,
    moduli: &Vec<u64>,
    degree: usize,
    plain_modulus: u64,
    tables: &BgvModSwitchTables,
    levels: usize,
) -> (r: Result<Vec<Vec<Vec<u64>>>, BgvLevelError>)
    requires
        mod_switch_chain_ok(moduli@, plain_modulus),
        tables_ok(*tables, moduli@, plain_modulus),
        components_within(components@, moduli@),
    ensures
        levels == 0 ==> r is Ok && r->Ok_0@.len() == components@.len() && forall|i: int|
            0 <= i < components@.len() ==> limb_values((#[trigger] r->Ok_0@[i])@) == limb_values(
                components@[i]@,
            ),
        levels > 0 && levels >= moduli@.len() ==> r == Err::<Vec<Vec<Vec<u64>>>, BgvLevelError>(
            BgvLevelError::TooManyCiphertextModuli { requested: 0, available: moduli@.len() as usize },
        ),
        0 < levels < moduli@.len() ==> match full_level_error(components@, degree, moduli@.len() as usize, 0) {
            Some(e) => r == Err::<Vec<Vec<Vec<u64>>>, BgvLevelError>(e),
            None => r is Ok && r->Ok_0@.len() == components@.len() && forall|i: int|
                0 <= i < components@.len() ==> limb_values((#[trigger] r->Ok_0@[i])@) == switch_down(
                    limb_values(components@[i]@),
                    moduli@,
                    plain_modulus,
                    *tables,
                    degree as int,
                    levels as nat,
                ),
        },
{
    let current = moduli.len();
    if levels == 0 {
        return Ok(copy_components(components));
    }
    if levels >= current {
        return Err(BgvLevelError::TooManyCiphertextModuli { requested: current.saturating_sub(levels), available: current });
    }
    mod_switch_to_q_limbs(components, moduli, degree, plain_modulus, tables, current - levels)
}


// ---------------------------------------------------------------------------
// Adding and subtracting ciphertexts
// ---------------------------------------------------------------------------

/// Residue `[i][l][k]` of `c1 ± c2` when the two may differ in size: a
/// component only `c1` has is kept, and one only `c2` has is taken as it is
/// for a sum and negated for a difference.
pub open spec fn binary_residue(
    c1: Seq<Vec<Vec<u64>>>,
    c2: Seq<Vec<Vec<u64>>>,
    moduli: Seq<u64>,
    op: LinearOp,
    i: int,
    l: int,
    k: int,
) -> int {
    if i < c1.len() && i < c2.len() {
        linear_residue(c1[i]@[l]@[k] as int, c2[i]@[l]@[k] as int, moduli[l] as int, op)
    } else if i < c1.len() {
        c1[i]@[l]@[k] as int
    } else {
        match op {
            LinearOp::Add => c2[i]@[l]@[k] as int,
            LinearOp::Sub => (-(c2[i]@[l]@[k] as int)) % (moduli[l] as int),
        }
    }
}

/// `c1 ± c2` for BGV ciphertexts in coefficient form, component by
/// component, over as many components as the larger has.
pub fn binary_linear_op(
    c1: &Vec<Vec<Vec<u64>>>,
    c2: &Vec<Vec<Vec<u64>>>,
    moduli: &Vec<u64>,
    degree: usize,
    op: LinearOp,
) -> (r: Vec<Vec<Vec<u64>>>)
    requires
        components_reduced(c1@, moduli@, degree as int),
        components_reduced(c2@, moduli@, degree as int),
    ensures
        r@.len() == (if c1@.len() < c2@.len() {
            c2@.len()
        } else {
            c1@.len()
        }),
        components_reduced(r@, moduli@, degree as int),
        forall|i: int, l: int, k: int|
            0 <= i < r@.len() && 0 <= l < moduli@.len() && 0 <= k < degree ==> #[trigger] r@[i]@[l]@[k]
                == binary_residue(c1@, c2@, moduli@, op, i, l, k),
{
    let size = if c1.len() < c2.len() {
        c2.len()
    } else {
        c1.len()
    };
    let mut out: Vec<Vec<Vec<u64>>> = Vec::new();
    let mut i: usize = 0;
    while i < size
        invariant
            components_reduced(c1@, moduli@, degree as int),
            components_reduced(c2@, moduli@, degree as int),
            size == (if c1@.len() < c2@.len() {
                c2@.len()
            } else {
                c1@.len()
            }),
            i <= size,
            out@.len() == i,
            components_reduced(out@, moduli@, degree as int),
            forall|ii: int, l: int, k: int|
                0 <= ii < i && 0 <= l < moduli@.len() && 0 <= k < degree ==> #[trigger] out@[ii]@[l]@[k]
                    == binary_residue(c1@, c2@, moduli@, op, ii, l, k),
        decreases size - i,
    {
        proof {
            if (i as int) < c1@.len() {
                assert(limbs_reduced(c1@[i as int]@, moduli@, degree as int));
            }
            if (i as int) < c2@.len() {
                assert(limbs_reduced(c2@[i as int]@, moduli@, degree as int));
            }
        }
        let mut component: Vec<Vec<u64>> = Vec::new();
        let mut l: usize = 0;
        while l < moduli.len()
            invariant
                components_reduced(c1@, moduli@, degree as int),
                components_reduced(c2@, moduli@, degree as int),
                i < c1@.len() || i < c2@.len(),
                (i as int) < c1@.len() ==> limbs_reduced(c1@[i as int]@, moduli@, degree as int),
                (i as int) < c2@.len() ==> limbs_reduced(c2@[i as int]@, moduli@, degree as int),
                l <= moduli@.len(),
                component@.len() == l,
                forall|ll: int| 0 <= ll < l ==> (#[trigger] component@[ll])@.len() == degree,
                forall|ll: int, k: int|
                    0 <= ll < l && 0 <= k < degree ==> #[trigger] component@[ll]@[k] < moduli@[ll],
                forall|ll: int, k: int|
                    0 <= ll < l && 0 <= k < degree ==> #[trigger] component@[ll]@[k] == binary_residue(
                        c1@,
                        c2@,
                        moduli@,
                        op,
                        i as int,
                        ll,
                        k,
                    ),
            decreases moduli@.len() - l,
        {
            let q = moduli[l];
            let mut limb: Vec<u64> = Vec::new();
            let mut k: usize = 0;
            while k < degree
                invariant
                    i < c1@.len() || i < c2@.len(),
                    (i as int) < c1@.len() ==> limbs_reduced(c1@[i as int]@, moduli@, degree as int),
                    (i as int) < c2@.len() ==> limbs_reduced(c2@[i as int]@, moduli@, degree as int),
                    l < moduli@.len(),
                    q == moduli@[l as int],
                    q > 0,
                    k <= degree,
                    limb@.len() == k,
                    forall|kk: int| 0 <= kk < k ==> #[trigger] limb@[kk] < q,
                    forall|kk: int|
                        0 <= kk < k ==> #[trigger] limb@[kk] == binary_residue(
                            c1@,
                            c2@,
                            moduli@,
                            op,
                            i as int,
                            l as int,
                            kk,
                        ),
                decreases degree - k,
            {
                let v = if i < c1.len() && i < c2.len() {
                    match op {
                        LinearOp::Add => add_mod(c1[i][l][k], c2[i][l][k], q),
                        LinearOp::Sub => sub_mod(c1[i][l][k], c2[i][l][k], q),
                    }
                } else if i < c1.len() {
                    c1[i][l][k]
                } else {
                    match op {
                        LinearOp::Add => c2[i][l][k],
                        LinearOp::Sub => sub_mod(0, c2[i][l][k], q),
                    }
                };
                limb.push(v);
                k += 1;
            }
            component.push(limb);
            l += 1;
        }
        proof {
            assert(limbs_reduced(component@, moduli@, degree as int));
        }
        let ghost before = out@;
        out.push(component);
        proof {
            assert forall|ii: int| 0 <= ii < out@.len() implies limbs_reduced(
                (#[trigger] out@[ii])@,
                moduli@,
                degree as int,
            ) by {
                if ii < i {
                    assert(out@[ii] == before[ii]);
                }
            }
        }
        i += 1;
    }
    out
}

// ---------------------------------------------------------------------------
// BGV ciphertexts: factors and noise-scale degrees
// ---------------------------------------------------------------------------

/// The ciphertext was made for parameters of the evaluator's degree and
/// plaintext modulus.
pub fn ensure_compatible_bgv_operand(degree: usize, plain_modulus: u64, ct: &BgvCiphertext) -> (r: Result<
    (),
    BgvLevelError,
>)
    ensures
        ct.degree != degree ==> r == Err::<(), BgvLevelError>(
            BgvLevelError::CiphertextDegreeMismatch { expected: degree, actual: ct.degree },
        ),
        ct.degree == degree && ct.plain_modulus != plain_modulus ==> r == Err::<(), BgvLevelError>(
            BgvLevelError::CiphertextPlaintextModulusMismatch {
                expected: plain_modulus,
                actual: ct.plain_modulus,
            },
        ),
        ct.degree == degree && ct.plain_modulus == plain_modulus ==> r is Ok,
{
    if ct.degree != degree {
        return Err(BgvLevelError::CiphertextDegreeMismatch { expected: degree, actual: ct.degree });
    }
    if ct.plain_modulus != plain_modulus {
        return Err(
            BgvLevelError::CiphertextPlaintextModulusMismatch {
                expected: plain_modulus,
                actual: ct.plain_modulus,
            },
        );
    }
    Ok(())
}

/// Two component lists hold the same residues.
pub open spec fn same_components(a: Seq<Vec<Vec<u64>>>, b: Seq<Vec<Vec<u64>>>) -> bool {
    &&& a.len() == b.len()
    &&& forall|i: int| 0 <= i < a.len() ==> limb_values((#[trigger] a[i])@) == limb_values(b[i]@)
}

proof fn lemma_same_components_reduced(a: Seq<Vec<Vec<u64>>>, b: Seq<Vec<Vec<u64>>>, moduli: Seq<u64>, degree: int)
    requires
        same_components(a, b),
        components_reduced(b, moduli, degree),
    ensures
        components_reduced(a, moduli, degree),
{
    assert forall|i: int| 0 <= i < a.len() implies limbs_reduced((#[trigger] a[i])@, moduli, degree) by {
        assert(limbs_reduced(b[i]@, moduli, degree));
        assert(limb_values(a[i]@) == limb_values(b[i]@));
        assert forall|l: int| 0 <= l < a[i]@.len() implies (#[trigger] a[i]@[l])@ == b[i]@[l]@ by {
            assert(limb_values(a[i]@)[l] == a[i]@[l]@);
            assert(limb_values(b[i]@)[l] == b[i]@[l]@);
        }
        assert(a[i]@.len() == limb_values(a[i]@).len());
    }
}

/// Every residue of a ciphertext, scaled by `s` modulo its limb's modulus.
pub open spec fn scaled_components(a: Seq<Vec<Vec<u64>>>, b: Seq<Vec<Vec<u64>>>, moduli: Seq<u64>, s: u64, degree: int) -> bool {
    &&& a.len() == b.len()
    &&& forall|i: int, l: int, k: int|
        0 <= i < a.len() && 0 <= l < moduli.len() && 0 <= k < degree ==> #[trigger] a[i]@[l]@[k] == (b[i]@[l]@[k]
            * (s % moduli[l])) % (moduli[l] as int)
}

fn copy_moduli_and_tables(ct: &BgvCiphertext) -> (r: (Vec<u64>, BgvModSwitchTables))
    requires
        ct.wf(),
    ensures
        r.0@ == ct.moduli@,
        tables_ok(r.1, ct.moduli@, ct.plain_modulus),
{
    let moduli = moduli_prefix(&ct.moduli, ct.moduli.len());
    proof {
        assert(moduli@ =~= ct.moduli@);
    }
    let tables = BgvModSwitchTables::new(&moduli, ct.plain_modulus);
    (moduli, tables)
}

/// `r` is `ct` scaled by the plaintext factor `factor`.
pub open spec fn scaled_ciphertext(r: BgvCiphertext, ct: BgvCiphertext, factor: u64) -> bool {
    &&& r.wf()
    &&& r.int_factor@ == (ct.int_factor@ * factor) % (ct.plain_modulus as int)
    &&& r.degree == ct.degree
    &&& r.plain_modulus == ct.plain_modulus
    &&& r.moduli@ == ct.moduli@
    &&& if factor == 1 {
        same_components(r.components@, ct.components@) && r.noise_scale_degree == ct.noise_scale_degree
    } else {
        scaled_components(r.components@, ct.components@, ct.moduli@, factor, ct.degree as int)
            && r.noise_scale_degree == ct.noise_scale_degree + 1
    }
}

/// A ciphertext scaled by the plaintext factor `factor`: its factor becomes
/// the product with `factor` modulo `t` (failing when that has no inverse);
/// a factor of 1 leaves the residues and the noise-scale degree as they are,
/// any other scales every residue and raises the noise-scale degree by one.
pub fn scale_bgv_ciphertext_by_factor(ct: &BgvCiphertext, factor: BgvPlaintextFactor) -> (r: Result<
    BgvCiphertext,
    BgvLevelError,
>)
    requires
        ct.wf(),
        ct.noise_scale_degree < usize::MAX,
    ensures
        !has_mod_inverse((ct.int_factor@ * factor@) % (ct.plain_modulus as int), ct.plain_modulus as int) ==> r
            == Err::<BgvCiphertext, BgvLevelError>(
            BgvLevelError::PlaintextFactorNotInvertible {
                factor: ((ct.int_factor@ * factor@) % (ct.plain_modulus as int)) as u64,
                modulus: ct.plain_modulus,
            },
        ),
        has_mod_inverse((ct.int_factor@ * factor@) % (ct.plain_modulus as int), ct.plain_modulus as int) ==> r is Ok
            && scaled_ciphertext(r->Ok_0, *ct, factor@),
{
    let t = ct.plain_modulus;
    let int_factor = match ct.int_factor.mul_mod(factor, t) {
        Ok(f) => f,
        Err(e) => {
            return Err(e);
        },
    };
    let (moduli, tables) = copy_moduli_and_tables(ct);
    if factor.value() == 1 {
        let components = copy_components(&ct.components);
        proof {
            assert(same_components(components@, ct.components@));
            lemma_same_components_reduced(components@, ct.components@, ct.moduli@, ct.degree as int);
            lemma_reduced_is_full_level(components@, moduli@, ct.degree);
        }
        return BgvCiphertext::with_metadata(
            ct.degree,
            t,
            moduli,
            tables,
            components,
            int_factor,
            ct.noise_scale_degree,
        );
    }
    let mut components: Vec<Vec<Vec<u64>>> = Vec::new();
    let mut i: usize = 0;
    while i < ct.components.len()
        invariant
            ct.wf(),
            moduli@ == ct.moduli@,
            i <= ct.components@.len(),
            components@.len() == i,
            components_reduced(components@, ct.moduli@, ct.degree as int),
            forall|ii: int, l: int, k: int|
                0 <= ii < i && 0 <= l < ct.moduli@.len() && 0 <= k < ct.degree ==> #[trigger] components@[ii]@[l]@[k]
                    == (ct.components@[ii]@[l]@[k] * (factor@ % ct.moduli@[l])) % (ct.moduli@[l] as int),
        decreases ct.components@.len() - i,
    {
        proof {
            assert(limbs_reduced(ct.components@[i as int]@, ct.moduli@, ct.degree as int));
        }
        let mut limbs = copy_limbs(&ct.components[i]);
        proof {
            assert(limbs_reduced(limbs@, ct.moduli@, ct.degree as int)) by {
                assert forall|l: int| 0 <= l < limbs@.len() implies (#[trigger] limbs@[l])@ == ct.components@[i as int]@[l]@ by {}
            }
        }
        scale_poly_by_scalar(&mut limbs, factor.value(), &ct.moduli, ct.degree);
        let ghost before = components@;
        components.push(limbs);
        proof {
            assert forall|ii: int| 0 <= ii < components@.len() implies limbs_reduced(
                (#[trigger] components@[ii])@,
                ct.moduli@,
                ct.degree as int,
            ) by {
                if ii < i {
                    assert(components@[ii] == before[ii]);
                }
            }
        }
        i += 1;
    }
    proof {
        lemma_reduced_is_full_level(components@, moduli@, ct.degree);
    }
    BgvCiphertext::with_metadata(ct.degree, t, moduli, tables, components, int_factor, ct.noise_scale_degree + 1)
}

/// The ciphertext with its noise-scale degree set to `noise_scale_degree`.
pub fn set_bgv_noise_scale_degree(ct: BgvCiphertext, noise_scale_degree: usize) -> (r: Result<
    BgvCiphertext,
    BgvLevelError,
>)
    requires
        ct.wf(),
    ensures
        r is Ok && r->Ok_0.wf() && r->Ok_0.components@ == ct.components@ && r->Ok_0.degree == ct.degree
            && r->Ok_0.plain_modulus == ct.plain_modulus && r->Ok_0.moduli@ == ct.moduli@
            && r->Ok_0.int_factor == ct.int_factor && r->Ok_0.noise_scale_degree == noise_scale_degree,
{
    if ct.noise_scale_degree == noise_scale_degree {
        return Ok(ct);
    }
    proof {
        lemma_reduced_is_full_level(ct.components@, ct.moduli@, ct.degree);
    }
    BgvCiphertext::with_metadata(
        ct.degree,
        ct.plain_modulus,
        ct.moduli,
        ct.tables,
        ct.components,
        ct.int_factor,
        noise_scale_degree,
    )
}

/// Both ciphertexts raised to the larger of their noise-scale degrees.
pub fn align_bgv_noise_scale_degree(left: BgvCiphertext, right: BgvCiphertext) -> (r: Result<
    (BgvCiphertext, BgvCiphertext),
    BgvLevelError,
>)
    requires
        left.wf(),
        right.wf(),
    ensures
        ({
            let target = if left.noise_scale_degree < right.noise_scale_degree {
                right.noise_scale_degree
            } else {
                left.noise_scale_degree
            };
            &&& r is Ok
            &&& r->Ok_0.0.wf() && r->Ok_0.1.wf()
            &&& r->Ok_0.0.noise_scale_degree == target && r->Ok_0.1.noise_scale_degree == target
            &&& r->Ok_0.0.components@ == left.components@ && r->Ok_0.1.components@ == right.components@
            &&& r->Ok_0.0.moduli@ == left.moduli@ && r->Ok_0.1.moduli@ == right.moduli@
            &&& r->Ok_0.0.int_factor == left.int_factor && r->Ok_0.1.int_factor == right.int_factor
            &&& r->Ok_0.0.degree == left.degree && r->Ok_0.1.degree == right.degree
            &&& r->Ok_0.0.plain_modulus == left.plain_modulus && r->Ok_0.1.plain_modulus == right.plain_modulus
        }),
{
    let target = if left.noise_scale_degree < right.noise_scale_degree {
        right.noise_scale_degree
    } else {
        left.noise_scale_degree
    };
    let l = match set_bgv_noise_scale_degree(left, target) {
        Ok(c) => c,
        Err(e) => {
            return Err(e);
        },
    };
    let r = match set_bgv_noise_scale_degree(right, target) {
        Ok(c) => c,
        Err(e) => {
            return Err(e);
        },
    };
    Ok((l, r))
}

// ---------------------------------------------------------------------------
// BGV ciphertexts: levels
// ---------------------------------------------------------------------------

proof fn lemma_reduced_within(components: Seq<Vec<Vec<u64>>>, moduli: Seq<u64>, degree: int)
    requires
        components_reduced(components, moduli, degree),
    ensures
        components_within(components, moduli),
{
    assert forall|i: int, l: int, k: int|
        0 <= i < components.len() && 0 <= l < components[i]@.len() && l < moduli.len() && 0 <= k
            < components[i]@[l]@.len() implies #[trigger] components[i]@[l]@[k] < moduli[l] by {
        assert(limbs_reduced(components[i]@, moduli, degree));
    }
}

/// `n − levels`, or 0 when `levels` exceeds `n`.
pub open spec fn saturating_minus(n: int, levels: int) -> int {
    if n >= levels {
        n - levels
    } else {
        0
    }
}

/// `r` holds the same ciphertext as `ct`.
pub open spec fn copied_ciphertext(r: BgvCiphertext, ct: BgvCiphertext) -> bool {
    &&& r.wf()
    &&& same_components(r.components@, ct.components@)
    &&& r.degree == ct.degree
    &&& r.plain_modulus == ct.plain_modulus
    &&& r.moduli@ == ct.moduli@
    &&& r.int_factor == ct.int_factor
    &&& r.noise_scale_degree == ct.noise_scale_degree
}

/// `r` is `ct` switched down to the first `q_limbs` moduli of its chain
/// (`0 < q_limbs < |chain|`).
pub open spec fn switched_ciphertext(r: BgvCiphertext, ct: BgvCiphertext, q_limbs: int) -> bool {
    let n = ct.moduli@.len();
    &&& r.wf()
    &&& r.degree == ct.degree
    &&& r.plain_modulus == ct.plain_modulus
    &&& r.moduli@ == ct.moduli@.take(q_limbs)
    &&& r.int_factor@ == (ct.int_factor@ * ct.tables.factor_inv_by_target_limbs@[q_limbs])
        % (ct.plain_modulus as int)
    &&& r.noise_scale_degree == saturating_minus(ct.noise_scale_degree as int, n - q_limbs)
    &&& r.components@.len() == ct.components@.len()
    &&& forall|i: int|
        0 <= i < ct.components@.len() ==> limb_values((#[trigger] r.components@[i])@) == switch_down(
            limb_values(ct.components@[i]@),
            ct.moduli@,
            ct.plain_modulus,
            ct.tables,
            ct.degree as int,
            (n - q_limbs) as nat,
        )
}

/// Switches a BGV ciphertext down to the first `q_limbs` moduli of its
/// chain: its residues switch level by level, its plaintext factor is
/// multiplied by the inverse of the scale the dropped moduli leave, and its
/// noise-scale degree drops by the number of levels (not below 0).  Fails on
/// an operand of other parameters than the evaluator's, and on an empty or
/// too long target chain; a target of the whole chain leaves it as it is.
pub fn mod_switch_to_q_limbs_bgv(degree: usize, plain_modulus: u64, ct: &BgvCiphertext, q_limbs: usize) -> (r:
    Result<BgvCiphertext, BgvLevelError>)
    requires
        ct.wf(),
    ensures
        ct.degree != degree ==> r == Err::<BgvCiphertext, BgvLevelError>(
            BgvLevelError::CiphertextDegreeMismatch { expected: degree, actual: ct.degree },
        ),
        ct.degree == degree && ct.plain_modulus != plain_modulus ==> r == Err::<BgvCiphertext, BgvLevelError>(
            BgvLevelError::CiphertextPlaintextModulusMismatch {
                expected: plain_modulus,
                actual: ct.plain_modulus,
            },
        ),
        ct.degree == degree && ct.plain_modulus == plain_modulus ==> {
            let n = ct.moduli@.len();
            &&& q_limbs == n ==> r is Ok && copied_ciphertext(r->Ok_0, *ct)
            &&& q_limbs != n && q_limbs == 0 ==> r == Err::<BgvCiphertext, BgvLevelError>(
                BgvLevelError::EmptyCiphertextModulus,
            )
            &&& q_limbs > n ==> r == Err::<BgvCiphertext, BgvLevelError>(
                BgvLevelError::TooManyCiphertextModuli { requested: q_limbs, available: n as usize },
            )
            &&& 0 < q_limbs < n ==> r is Ok && switched_ciphertext(r->Ok_0, *ct, q_limbs as int)
        },
{
    match ensure_compatible_bgv_operand(degree, plain_modulus, ct) {
        Ok(()) => {},
        Err(e) => {
            return Err(e);
        },
    }
    let t = plain_modulus;
    let n = ct.moduli.len();
    if q_limbs == n {
        return Ok(copy_ciphertext(ct));
    }
    proof {
        lemma_reduced_within(ct.components@, ct.moduli@, ct.degree as int);
        lemma_reduced_is_full_level(ct.components@, ct.moduli@, ct.degree);
    }
    let raw = match mod_switch_to_q_limbs(&ct.components, &ct.moduli, ct.degree, t, &ct.tables, q_limbs) {
        Ok(c) => c,
        Err(e) => {
            return Err(e);
        },
    };
    proof {
        let inv = ct.tables.factor_inv_by_target_limbs@[q_limbs as int] as int;
        let dp = dropped_product(ct.moduli@, q_limbs as int, t as int);
        assert(is_mod_inverse(dp, inv, t as int));
        vstd::arithmetic::div_mod::lemma_small_mod(inv as nat, t as nat);
        vstd::arithmetic::div_mod::lemma_mod_bound(dp, t as int);
        vstd::arithmetic::div_mod::lemma_mul_mod_noop_right(inv, dp, t as int);
        assert(inv * dp == dp * inv) by (nonlinear_arith);
        assert(is_mod_inverse(inv, dp % (t as int), t as int));
        lemma_unit_product(ct.int_factor@ as int, inv, t as int);
    }
    let int_factor = match mod_switch_plaintext_factor(ct.int_factor, &ct.tables, t, q_limbs) {
        Ok(f) => f,
        Err(e) => {
            return Err(e);
        },
    };
    let levels = n - q_limbs;
    let noise_scale_degree = ct.noise_scale_degree.saturating_sub(levels);
    let moduli = moduli_prefix(&ct.moduli, q_limbs);
    proof {
        lemma_mod_switch_chain_prefix(ct.moduli@, t, q_limbs as int);
        lemma_rns_base_prefix(ct.moduli@, q_limbs as int);
    }
    let tables = BgvModSwitchTables::new(&moduli, t);
    proof {
        assert forall|i: int, l: int, k: int|
            0 <= i < raw@.len() && 0 <= l < raw@[i]@.len() && l < moduli@.len() && 0 <= k
                < raw@[i]@[l]@.len() implies #[trigger] raw@[i]@[l]@[k] < moduli@[l] by {
            assert(limbs_within(raw@[i]@, ct.moduli@, ct.degree as int));
        }
        assert forall|i: int| 0 <= i < raw@.len() implies limbs_reduced((#[trigger] raw@[i])@, moduli@, ct.degree as int) by {
            assert(limbs_within(raw@[i]@, ct.moduli@, ct.degree as int));
        }
        lemma_reduced_is_full_level(raw@, moduli@, ct.degree);
    }
    BgvCiphertext::with_metadata(ct.degree, t, moduli, tables, raw, int_factor, noise_scale_degree)
}

/// Switches a BGV ciphertext down by `levels` moduli: none leaves it as it
/// is, all of them or more fails, and otherwise it is switched to the
/// remaining prefix of its chain.
pub fn mod_switch_down_bgv(degree: usize, plain_modulus: u64, ct: &BgvCiphertext, levels: usize) -> (r: Result<
    BgvCiphertext,
    BgvLevelError,
>)
    requires
        ct.wf(),
    ensures
        levels == 0 ==> r is Ok && copied_ciphertext(r->Ok_0, *ct),
        levels > 0 && levels >= ct.moduli@.len() ==> r == Err::<BgvCiphertext, BgvLevelError>(
            BgvLevelError::TooManyCiphertextModuli { requested: 0, available: ct.moduli@.len() as usize },
        ),
        0 < levels < ct.moduli@.len() && ct.degree != degree ==> r == Err::<BgvCiphertext, BgvLevelError>(
            BgvLevelError::CiphertextDegreeMismatch { expected: degree, actual: ct.degree },
        ),
        0 < levels < ct.moduli@.len() && ct.degree == degree && ct.plain_modulus != plain_modulus ==> r
            == Err::<BgvCiphertext, BgvLevelError>(
            BgvLevelError::CiphertextPlaintextModulusMismatch {
                expected: plain_modulus,
                actual: ct.plain_modulus,
            },
        ),
        0 < levels < ct.moduli@.len() && ct.degree == degree && ct.plain_modulus == plain_modulus ==> r is Ok
            && switched_ciphertext(r->Ok_0, *ct, ct.moduli@.len() - levels),
{
    if levels == 0 {
        return Ok(copy_ciphertext(ct));
    }
    let n = ct.moduli.len();
    if levels >= n {
        return Err(BgvLevelError::TooManyCiphertextModuli { requested: n.saturating_sub(levels), available: n });
    }
    mod_switch_to_q_limbs_bgv(degree, plain_modulus, ct, n - levels)
}

fn copy_ciphertext(ct: &BgvCiphertext) -> (r: BgvCiphertext)
    requires
        ct.wf(),
    ensures
        copied_ciphertext(r, *ct),
{
    let (moduli, tables) = copy_moduli_and_tables(ct);
    let components = copy_components(&ct.components);
    proof {
        assert(same_components(components@, ct.components@));
        lemma_same_components_reduced(components@, ct.components@, ct.moduli@, ct.degree as int);
    }
    BgvCiphertext {
        components,
        degree: ct.degree,
        plain_modulus: ct.plain_modulus,
        moduli,
        tables,
        int_factor: ct.int_factor,
        noise_scale_degree: ct.noise_scale_degree,
    }
}

/// Brings a BGV ciphertext to the first `q_limbs` moduli of its own chain:
/// as it is at its own level, an error above it, and switched down below.
pub fn mod_switch_bgv_to_q_limbs(ct: &BgvCiphertext, q_limbs: usize) -> (r: Result<BgvCiphertext, BgvLevelError>)
    requires
        ct.wf(),
    ensures
        q_limbs == ct.moduli@.len() ==> r is Ok && copied_ciphertext(r->Ok_0, *ct),
        q_limbs > ct.moduli@.len() ==> r == Err::<BgvCiphertext, BgvLevelError>(
            BgvLevelError::TooManyCiphertextModuli { requested: q_limbs, available: ct.moduli@.len() as usize },
        ),
        q_limbs == 0 && ct.moduli@.len() > 0 ==> r == Err::<BgvCiphertext, BgvLevelError>(
            BgvLevelError::EmptyCiphertextModulus,
        ),
        0 < q_limbs < ct.moduli@.len() ==> r is Ok && switched_ciphertext(r->Ok_0, *ct, q_limbs as int),
{
    let n = ct.moduli.len();
    if q_limbs == n {
        return Ok(copy_ciphertext(ct));
    }
    if q_limbs > n {
        return Err(BgvLevelError::TooManyCiphertextModuli { requested: q_limbs, available: n });
    }
    mod_switch_to_q_limbs_bgv(ct.degree, ct.plain_modulus, ct, q_limbs)
}

/// `r` is `ct` cut down to the first `q_limbs` moduli of its chain, with
/// the same residues on them.
pub open spec fn dropped_ciphertext(r: BgvCiphertext, ct: BgvCiphertext, q_limbs: int) -> bool {
    &&& r.wf()
    &&& r.degree == ct.degree
    &&& r.plain_modulus == ct.plain_modulus
    &&& r.moduli@ == ct.moduli@.take(q_limbs)
    &&& r.int_factor == ct.int_factor
    &&& r.noise_scale_degree == ct.noise_scale_degree
    &&& r.components@.len() == ct.components@.len()
    &&& forall|i: int|
        0 <= i < ct.components@.len() ==> (#[trigger] r.components@[i])@.len() == q_limbs && forall|l: int|
            0 <= l < q_limbs ==> (#[trigger] r.components@[i]@[l])@ == ct.components@[i]@[l]@
}

/// Drops the top `levels` moduli of a BGV ciphertext's chain without
/// switching: its residues on the remaining moduli are kept as they are.
/// Fails on an operand of other parameters than the evaluator's and on
/// dropping all moduli or more; dropping none leaves it as it is.
pub fn drop_level_bgv(degree: usize, plain_modulus: u64, ct: &BgvCiphertext, levels: usize) -> (r: Result<
    BgvCiphertext,
    BgvLevelError,
>)
    requires
        ct.wf(),
    ensures
        ct.degree != degree ==> r == Err::<BgvCiphertext, BgvLevelError>(
            BgvLevelError::CiphertextDegreeMismatch { expected: degree, actual: ct.degree },
        ),
        ct.degree == degree && ct.plain_modulus != plain_modulus ==> r == Err::<BgvCiphertext, BgvLevelError>(
            BgvLevelError::CiphertextPlaintextModulusMismatch {
                expected: plain_modulus,
                actual: ct.plain_modulus,
            },
        ),
        ct.degree == degree && ct.plain_modulus == plain_modulus ==> {
            let n = ct.moduli@.len();
            &&& levels == 0 ==> r is Ok && copied_ciphertext(r->Ok_0, *ct)
            &&& levels > 0 && levels >= n ==> r == Err::<BgvCiphertext, BgvLevelError>(
                BgvLevelError::TooManyCiphertextModuli { requested: 0, available: n as usize },
            )
            &&& 0 < levels < n ==> r is Ok && dropped_ciphertext(r->Ok_0, *ct, n - levels)
        },
{
    match ensure_compatible_bgv_operand(degree, plain_modulus, ct) {
        Ok(()) => {},
        Err(e) => {
            return Err(e);
        },
    }
    if levels == 0 {
        return Ok(copy_ciphertext(ct));
    }
    let n = ct.moduli.len();
    if levels >= n {
        return Err(BgvLevelError::TooManyCiphertextModuli { requested: n.saturating_sub(levels), available: n });
    }
    let q_limbs = n - levels;
    proof {
        lemma_reduced_is_full_level(ct.components@, ct.moduli@, ct.degree);
    }
    match ensure_full_level_ciphertext(&ct.components, ct.degree, n) {
        Ok(()) => {},
        Err(e) => {
            return Err(e);
        },
    }
    let moduli = moduli_prefix(&ct.moduli, q_limbs);
    proof {
        lemma_mod_switch_chain_prefix(ct.moduli@, ct.plain_modulus, q_limbs as int);
        lemma_rns_base_prefix(ct.moduli@, q_limbs as int);
    }
    let tables = BgvModSwitchTables::new(&moduli, ct.plain_modulus);
    let mut components: Vec<Vec<Vec<u64>>> = Vec::new();
    let mut i: usize = 0;
    while i < ct.components.len()
        invariant
            ct.wf(),
            0 < q_limbs < n,
            n == ct.moduli@.len(),
            moduli@ == ct.moduli@.take(q_limbs as int),
            i <= ct.components@.len(),
            components@.len() == i,
            forall|ii: int|
                0 <= ii < i ==> (#[trigger] components@[ii])@.len() == q_limbs && forall|l: int|
                    0 <= l < q_limbs ==> (#[trigger] components@[ii]@[l])@ == ct.components@[ii]@[l]@,
        decreases ct.components@.len() - i,
    {
        proof {
            assert(limbs_reduced(ct.components@[i as int]@, ct.moduli@, ct.degree as int));
        }
        let truncated = truncate_poly_q_prefix(&ct.components[i], q_limbs);
        components.push(truncated);
        i += 1;
    }
    proof {
        assert forall|ii: int| 0 <= ii < components@.len() implies limbs_reduced(
            (#[trigger] components@[ii])@,
            moduli@,
            ct.degree as int,
        ) by {
            assert(limbs_reduced(ct.components@[ii]@, ct.moduli@, ct.degree as int));
            assert forall|l: int| 0 <= l < q_limbs implies (#[trigger] components@[ii]@[l])@ == ct.components@[ii]@[l]@ by {}
        }
        lemma_reduced_within(components@, moduli@, ct.degree as int);
        lemma_reduced_is_full_level(components@, moduli@, ct.degree);
    }
    BgvCiphertext::with_metadata(
        ct.degree,
        ct.plain_modulus,
        moduli,
        tables,
        components,
        ct.int_factor,
        ct.noise_scale_degree,
    )
}

/// Plaintext coefficient `p` as it is added to a ciphertext carrying factor
/// `f`: `p` itself for `f = 1`, else `p · f mod t`.
pub open spec fn factor_scaled(p: u64, f: u64, t: u64) -> int {
    if f == 1 {
        p as int
    } else {
        (p * (f % t)) % (t as int)
    }
}

/// `r` is `ct` with the plaintext `p` (scaled by the ciphertext's factor)
/// added to or subtracted from its first component.
pub open spec fn plain_combined_ciphertext(r: BgvCiphertext, ct: BgvCiphertext, p: Seq<u64>, op: LinearOp) -> bool {
    &&& r.wf()
    &&& r.degree == ct.degree
    &&& r.plain_modulus == ct.plain_modulus
    &&& r.moduli@ == ct.moduli@
    &&& r.int_factor == ct.int_factor
    &&& r.noise_scale_degree == ct.noise_scale_degree
    &&& r.components@.len() == ct.components@.len()
    &&& forall|l: int, k: int|
        0 <= l < ct.moduli@.len() && 0 <= k < ct.degree ==> #[trigger] r.components@[0]@[l]@[k] == plain_op_residue(
            ct.components@[0]@[l]@[k] as int,
            factor_scaled(p[k], ct.int_factor@, ct.plain_modulus),
            ct.plain_modulus as int,
            ct.moduli@[l] as int,
            op,
        )
    &&& forall|i: int| 1 <= i < ct.components@.len() ==> limb_values((#[trigger] r.components@[i])@) == limb_values(
        ct.components@[i]@,
    )
}

fn plain_op_bgv(degree: usize, plain_modulus: u64, ct: &BgvCiphertext, plaintext: &Vec<u64>, op: LinearOp) -> (r:
    Result<BgvCiphertext, BgvLevelError>)
    requires
        ct.wf(),
        ct.degree == degree && ct.plain_modulus == plain_modulus ==> ct.components@.len() >= 1
            && plaintext@.len() == degree,
    ensures
        ct.degree != degree ==> r == Err::<BgvCiphertext, BgvLevelError>(
            BgvLevelError::CiphertextDegreeMismatch { expected: degree, actual: ct.degree },
        ),
        ct.degree == degree && ct.plain_modulus != plain_modulus ==> r == Err::<BgvCiphertext, BgvLevelError>(
            BgvLevelError::CiphertextPlaintextModulusMismatch {
                expected: plain_modulus,
                actual: ct.plain_modulus,
            },
        ),
        ct.degree == degree && ct.plain_modulus == plain_modulus ==> r is Ok && plain_combined_ciphertext(
            r->Ok_0,
            *ct,
            plaintext@,
            op,
        ),
{
    match ensure_compatible_bgv_operand(degree, plain_modulus, ct) {
        Ok(()) => {},
        Err(e) => {
            return Err(e);
        },
    }
    let t = plain_modulus;
    let encoded = match scale_plaintext_by_factor(plaintext, ct.int_factor, t) {
        Ok(v) => v,
        Err(e) => {
            return Err(e);
        },
    };
    let (moduli, tables) = copy_moduli_and_tables(ct);
    proof {
        assert(limbs_reduced(ct.components@[0]@, ct.moduli@, ct.degree as int));
    }
    let mut c0 = copy_limbs(&ct.components[0]);
    proof {
        assert(limbs_reduced(c0@, ct.moduli@, ct.degree as int)) by {
            assert forall|l: int| 0 <= l < c0@.len() implies (#[trigger] c0@[l])@ == ct.components@[0]@[l]@ by {}
        }
    }
    let ghost c0_before = c0@;
    add_plain_to_c0(&mut c0, &encoded, &ct.moduli, ct.degree, t, op);
    let mut components: Vec<Vec<Vec<u64>>> = Vec::new();
    components.push(c0);
    let mut i: usize = 1;
    while i < ct.components.len()
        invariant
            ct.wf(),
            1 <= i <= ct.components@.len(),
            components@.len() == i,
            limbs_reduced(components@[0]@, ct.moduli@, ct.degree as int),
            forall|l: int, k: int|
                0 <= l < ct.moduli@.len() && 0 <= k < ct.degree ==> #[trigger] components@[0]@[l]@[k]
                    == plain_op_residue(
                    ct.components@[0]@[l]@[k] as int,
                    factor_scaled(plaintext@[k], ct.int_factor@, ct.plain_modulus),
                    ct.plain_modulus as int,
                    ct.moduli@[l] as int,
                    op,
                ),
            forall|ii: int| 1 <= ii < i ==> limb_values((#[trigger] components@[ii])@) == limb_values(ct.components@[ii]@),
            forall|ii: int| 1 <= ii < i ==> (#[trigger] components@[ii])@.len() == ct.components@[ii]@.len(),
        decreases ct.components@.len() - i,
    {
        let c = copy_limbs(&ct.components[i]);
        proof {
            assert(limb_values(c@) =~= limb_values(ct.components@[i as int]@));
        }
        components.push(c);
        i += 1;
    }
    proof {
        assert forall|ii: int| 0 <= ii < components@.len() implies limbs_reduced(
            (#[trigger] components@[ii])@,
            ct.moduli@,
            ct.degree as int,
        ) by {
            if ii >= 1 {
                assert(limbs_reduced(ct.components@[ii]@, ct.moduli@, ct.degree as int));
                assert forall|l: int| 0 <= l < components@[ii]@.len() implies (#[trigger] components@[ii]@[l])@
                    == ct.components@[ii]@[l]@ by {
                    assert(limb_values(components@[ii]@)[l] == components@[ii]@[l]@);
                }
            }
        }
        lemma_reduced_within(components@, moduli@, ct.degree as int);
        lemma_reduced_is_full_level(components@, moduli@, ct.degree);
    }
    BgvCiphertext::with_metadata(ct.degree, t, moduli, tables, components, ct.int_factor, ct.noise_scale_degree)
}

/// Adds a plaintext to a BGV ciphertext: the plaintext, scaled by the
/// ciphertext's factor, is added to its first component.  Fails on an
/// operand of other parameters than the evaluator's.
pub fn add_plain_bgv(degree: usize, plain_modulus: u64, ct: &BgvCiphertext, plaintext: &Vec<u64>) -> (r: Result<
    BgvCiphertext,
    BgvLevelError,
>)
    requires
        ct.wf(),
        ct.degree == degree && ct.plain_modulus == plain_modulus ==> ct.components@.len() >= 1
            && plaintext@.len() == degree,
    ensures
        ct.degree != degree ==> r == Err::<BgvCiphertext, BgvLevelError>(
            BgvLevelError::CiphertextDegreeMismatch { expected: degree, actual: ct.degree },
        ),
        ct.degree == degree && ct.plain_modulus != plain_modulus ==> r == Err::<BgvCiphertext, BgvLevelError>(
            BgvLevelError::CiphertextPlaintextModulusMismatch {
                expected: plain_modulus,
                actual: ct.plain_modulus,
            },
        ),
        ct.degree == degree && ct.plain_modulus == plain_modulus ==> r is Ok && plain_combined_ciphertext(
            r->Ok_0,
            *ct,
            plaintext@,
            LinearOp::Add,
        ),
{
    plain_op_bgv(degree, plain_modulus, ct, plaintext, LinearOp::Add)
}

/// Subtracts a plaintext from a BGV ciphertext: the plaintext, scaled by
/// the ciphertext's factor, is subtracted from its first component.  Fails
/// on an operand of other parameters than the evaluator's.
pub fn sub_plain_bgv(degree: usize, plain_modulus: u64, ct: &BgvCiphertext, plaintext: &Vec<u64>) -> (r: Result<
    BgvCiphertext,
    BgvLevelError,
>)
    requires
        ct.wf(),
        ct.degree == degree && ct.plain_modulus == plain_modulus ==> ct.components@.len() >= 1
            && plaintext@.len() == degree,
    ensures
        ct.degree != degree ==> r == Err::<BgvCiphertext, BgvLevelError>(
            BgvLevelError::CiphertextDegreeMismatch { expected: degree, actual: ct.degree },
        ),
        ct.degree == degree && ct.plain_modulus != plain_modulus ==> r == Err::<BgvCiphertext, BgvLevelError>(
            BgvLevelError::CiphertextPlaintextModulusMismatch {
                expected: plain_modulus,
                actual: ct.plain_modulus,
            },
        ),
        ct.degree == degree && ct.plain_modulus == plain_modulus ==> r is Ok && plain_combined_ciphertext(
            r->Ok_0,
            *ct,
            plaintext@,
            LinearOp::Sub,
        ),
{
    plain_op_bgv(degree, plain_modulus, ct, plaintext, LinearOp::Sub)
}

/// A plaintext lifted into the limb of modulus `q`: every coefficient taken
/// modulo `t`, then modulo `q`.
pub open spec fn lifted_plaintext(p: Seq<u64>, t: u64, q: u64) -> Seq<u64> {
    Seq::new(p.len(), |k: int| ((p[k] % t) % q) as u64)
}

fn lift_plaintext(plaintext: &Vec<u64>, t: u64, q: u64) -> (r: Vec<u64>)
    requires
        t > 0,
        q > 0,
    ensures
        r@ == lifted_plaintext(plaintext@, t, q),
{
    let mut out: Vec<u64> = Vec::new();
    let mut k: usize = 0;
    while k < plaintext.len()
        invariant
            t > 0,
            q > 0,
            k <= plaintext@.len(),
            out@ == lifted_plaintext(plaintext@, t, q).take(k as int),
        decreases plaintext@.len() - k,
    {
        out.push((plaintext[k] % t) % q);
        k += 1;
        proof {
            assert(out@ =~= lifted_plaintext(plaintext@, t, q).take(k as int));
        }
    }
    proof {
        assert(out@ =~= lifted_plaintext(plaintext@, t, q));
    }
    out
}

/// `r` is `ct` with every component multiplied by the plaintext `p` in the
/// ring `Z_q[X] / (X^N + 1)` of each limb.
pub open spec fn plain_multiplied_ciphertext(r: BgvCiphertext, ct: BgvCiphertext, p: Seq<u64>) -> bool {
    &&& r.wf()
    &&& r.degree == ct.degree
    &&& r.plain_modulus == ct.plain_modulus
    &&& r.moduli@ == ct.moduli@
    &&& r.int_factor == ct.int_factor
    &&& r.noise_scale_degree == ct.noise_scale_degree
    &&& r.components@.len() == ct.components@.len()
    &&& forall|i: int, l: int, k: int|
        0 <= i < ct.components@.len() && 0 <= l < ct.moduli@.len() && 0 <= k < ct.degree ==> #[trigger] r.components@[i]@[l]@[k]
            == negacyclic_coeff(
            ct.components@[i]@[l]@,
            lifted_plaintext(p, ct.plain_modulus, ct.moduli@[l]),
            k,
            ct.degree as int,
        ) % (ct.moduli@[l] as int)
}

/// Multiplies a BGV ciphertext by a plaintext: every component times the
/// plaintext (coefficients modulo `t`), limb by limb in the negacyclic ring.
/// Fails on an operand of other parameters than the evaluator's.
pub fn mul_plain_bgv(degree: usize, plain_modulus: u64, ct: &BgvCiphertext, plaintext: &Vec<u64>) -> (r: Result<
    BgvCiphertext,
    BgvLevelError,
>)
    requires
        ct.wf(),
        ct.degree == degree && ct.plain_modulus == plain_modulus ==> plaintext@.len() == degree,
        ct.degree <= usize::MAX / 2,
    ensures
        ct.degree != degree ==> r == Err::<BgvCiphertext, BgvLevelError>(
            BgvLevelError::CiphertextDegreeMismatch { expected: degree, actual: ct.degree },
        ),
        ct.degree == degree && ct.plain_modulus != plain_modulus ==> r == Err::<BgvCiphertext, BgvLevelError>(
            BgvLevelError::CiphertextPlaintextModulusMismatch {
                expected: plain_modulus,
                actual: ct.plain_modulus,
            },
        ),
        ct.degree == degree && ct.plain_modulus == plain_modulus ==> r is Ok && plain_multiplied_ciphertext(
            r->Ok_0,
            *ct,
            plaintext@,
        ),
{
    match ensure_compatible_bgv_operand(degree, plain_modulus, ct) {
        Ok(()) => {},
        Err(e) => {
            return Err(e);
        },
    }
    let t = plain_modulus;
    let mut components: Vec<Vec<Vec<u64>>> = Vec::new();
    let mut i: usize = 0;
    while i < ct.components.len()
        invariant
            ct.wf(),
            t == ct.plain_modulus,
            plaintext@.len() == ct.degree,
            ct.degree <= usize::MAX / 2,
            i <= ct.components@.len(),
            components@.len() == i,
            components_reduced(components@, ct.moduli@, ct.degree as int),
            forall|ii: int, l: int, k: int|
                0 <= ii < i && 0 <= l < ct.moduli@.len() && 0 <= k < ct.degree ==> #[trigger] components@[ii]@[l]@[k]
                    == negacyclic_coeff(
                    ct.components@[ii]@[l]@,
                    lifted_plaintext(plaintext@, t, ct.moduli@[l]),
                    k,
                    ct.degree as int,
                ) % (ct.moduli@[l] as int),
        decreases ct.components@.len() - i,
    {
        proof {
            assert(limbs_reduced(ct.components@[i as int]@, ct.moduli@, ct.degree as int));
        }
        let mut component: Vec<Vec<u64>> = Vec::new();
        let mut l: usize = 0;
        while l < ct.moduli.len()
            invariant
                ct.wf(),
                t == ct.plain_modulus,
                plaintext@.len() == ct.degree,
                ct.degree <= usize::MAX / 2,
                i < ct.components@.len(),
                limbs_reduced(ct.components@[i as int]@, ct.moduli@, ct.degree as int),
                l <= ct.moduli@.len(),
                component@.len() == l,
                forall|ll: int| 0 <= ll < l ==> (#[trigger] component@[ll])@.len() == ct.degree,
                forall|ll: int, k: int|
                    0 <= ll < l && 0 <= k < ct.degree ==> #[trigger] component@[ll]@[k] < ct.moduli@[ll],
                forall|ll: int, k: int|
                    0 <= ll < l && 0 <= k < ct.degree ==> #[trigger] component@[ll]@[k] == negacyclic_coeff(
                        ct.components@[i as int]@[ll]@,
                        lifted_plaintext(plaintext@, t, ct.moduli@[ll]),
                        k,
                        ct.degree as int,
                    ) % (ct.moduli@[ll] as int),
            decreases ct.moduli@.len() - l,
        {
            let q = ct.moduli[l];
            let lifted = lift_plaintext(plaintext, t, q);
            let limb = &ct.components[i][l];
            proof {
                assert(limb@.len() == ct.degree);
            }
            let product = negacyclic_mul_mod(limb, &lifted, q);
            proof {
                assert forall|k: int| 0 <= k < ct.degree implies #[trigger] product@[k] < q by {
                    vstd::arithmetic::div_mod::lemma_mod_bound(
                        negacyclic_coeff(limb@, lifted@, k, ct.degree as int),
                        q as int,
                    );
                }
            }
            component.push(product);
            l += 1;
        }
        proof {
            assert(limbs_reduced(component@, ct.moduli@, ct.degree as int));
        }
        let ghost before = components@;
        components.push(component);
        proof {
            assert forall|ii: int| 0 <= ii < components@.len() implies limbs_reduced(
                (#[trigger] components@[ii])@,
                ct.moduli@,
                ct.degree as int,
            ) by {
                if ii < i {
                    assert(components@[ii] == before[ii]);
                }
            }
        }
        i += 1;
    }
    let (moduli, tables) = copy_moduli_and_tables(ct);
    proof {
        lemma_reduced_within(components@, moduli@, ct.degree as int);
        lemma_reduced_is_full_level(components@, moduli@, ct.degree);
    }
    BgvCiphertext::with_metadata(ct.degree, t, moduli, tables, components, ct.int_factor, ct.noise_scale_degree)
}

// ---------------------------------------------------------------------------
// Multiplying ciphertexts
// ---------------------------------------------------------------------------

/// `Σ_{i < upto, 0 ≤ m − i < |c2|} c1_i · c2_{m−i}`, coefficient `k` of limb
/// `l`, over the integers (each product taken modulo `X^n + 1`).
pub open spec fn tensor_sum(
    c1: Seq<Vec<Vec<u64>>>,
    c2: Seq<Vec<Vec<u64>>>,
    m: int,
    l: int,
    k: int,
    n: int,
    upto: int,
) -> int
    decreases upto,
{
    if upto <= 0 {
        0
    } else {
        let i = upto - 1;
        tensor_sum(c1, c2, m, l, k, n, upto - 1) + if 0 <= m - i < c2.len() {
            negacyclic_coeff(c1[i]@[l]@, c2[m - i]@[l]@, k, n)
        } else {
            0
        }
    }
}

/// The tensor product of two ciphertexts in coefficient form: component `m`
/// is `Σ_{i + j = m} c1_i · c2_j`, products taken in the negacyclic ring of
/// each limb.
pub fn mul_ciphertexts(c1: &Vec<Vec<Vec<u64>>>, c2: &Vec<Vec<Vec<u64>>>, moduli: &Vec<u64>, degree: usize) -> (r: Vec<
    Vec<Vec<u64>>,
>)
    requires
        forall|l: int| 0 <= l < moduli@.len() ==> #[trigger] moduli@[l] > 0,
        components_reduced(c1@, moduli@, degree as int),
        components_reduced(c2@, moduli@, degree as int),
        1 <= c1@.len() + c2@.len() <= usize::MAX,
        degree <= usize::MAX / 2,
    ensures
        r@.len() == c1@.len() + c2@.len() - 1,
        components_reduced(r@, moduli@, degree as int),
        forall|m: int, l: int, k: int|
            0 <= m < r@.len() && 0 <= l < moduli@.len() && 0 <= k < degree ==> #[trigger] r@[m]@[l]@[k]
                == tensor_sum(c1@, c2@, m, l, k, degree as int, c1@.len() as int) % (moduli@[l] as int),
{
    let size = c1.len() + c2.len() - 1;
    let mut out: Vec<Vec<Vec<u64>>> = Vec::new();
    let mut m: usize = 0;
    while m < size
        invariant
            forall|l: int| 0 <= l < moduli@.len() ==> #[trigger] moduli@[l] > 0,
            components_reduced(c1@, moduli@, degree as int),
            components_reduced(c2@, moduli@, degree as int),
            size == c1@.len() + c2@.len() - 1,
            degree <= usize::MAX / 2,
            m <= size,
            out@.len() == m,
            components_reduced(out@, moduli@, degree as int),
            forall|mm: int, l: int, k: int|
                0 <= mm < m && 0 <= l < moduli@.len() && 0 <= k < degree ==> #[trigger] out@[mm]@[l]@[k]
                    == tensor_sum(c1@, c2@, mm, l, k, degree as int, c1@.len() as int) % (moduli@[l] as int),
        decreases size - m,
    {
        let mut component: Vec<Vec<u64>> = Vec::new();
        let mut l: usize = 0;
        while l < moduli.len()
            invariant
                forall|ll: int| 0 <= ll < moduli@.len() ==> #[trigger] moduli@[ll] > 0,
                components_reduced(c1@, moduli@, degree as int),
                components_reduced(c2@, moduli@, degree as int),
                degree <= usize::MAX / 2,
                l <= moduli@.len(),
                component@.len() == l,
                forall|ll: int| 0 <= ll < l ==> (#[trigger] component@[ll])@.len() == degree,
                forall|ll: int, k: int|
                    0 <= ll < l && 0 <= k < degree ==> #[trigger] component@[ll]@[k] < moduli@[ll],
                forall|ll: int, k: int|
                    0 <= ll < l && 0 <= k < degree ==> #[trigger] component@[ll]@[k] == tensor_sum(
                        c1@,
                        c2@,
                        m as int,
                        ll,
                        k,
                        degree as int,
                        c1@.len() as int,
                    ) % (moduli@[ll] as int),
            decreases moduli@.len() - l,
        {
            let q = moduli[l];
            let mut acc: Vec<u64> = Vec::new();
            let mut z: usize = 0;
            while z < degree
                invariant
                    z <= degree,
                    acc@.len() == z,
                    forall|k: int| 0 <= k < z ==> #[trigger] acc@[k] == 0,
                decreases degree - z,
            {
                acc.push(0);
                z += 1;
            }
            proof {
                vstd::arithmetic::div_mod::lemma_small_mod(0, q as nat);
            }
            let mut i: usize = 0;
            while i < c1.len()
                invariant
                    components_reduced(c1@, moduli@, degree as int),
                    components_reduced(c2@, moduli@, degree as int),
                    degree <= usize::MAX / 2,
                    l < moduli@.len(),
                    q == moduli@[l as int],
                    q > 0,
                    i <= c1@.len(),
                    acc@.len() == degree,
                    forall|k: int| 0 <= k < degree ==> #[trigger] acc@[k] < q,
                    forall|k: int|
                        0 <= k < degree ==> #[trigger] acc@[k] == tensor_sum(
                            c1@,
                            c2@,
                            m as int,
                            l as int,
                            k,
                            degree as int,
                            i as int,
                        ) % (q as int),
                decreases c1@.len() - i,
            {
                if m >= i && m - i < c2.len() {
                    let j = m - i;
                    proof {
                        assert(limbs_reduced(c1@[i as int]@, moduli@, degree as int));
                        assert(limbs_reduced(c2@[j as int]@, moduli@, degree as int));
                    }
                    let product = negacyclic_mul_mod(&c1[i][l], &c2[j][l], q);
                    let ghost before = acc@;
                    add_coefficients_assign(&mut acc, &product, q);
                    proof {
                        assert forall|k: int| 0 <= k < degree implies #[trigger] acc@[k] == tensor_sum(
                            c1@,
                            c2@,
                            m as int,
                            l as int,
                            k,
                            degree as int,
                            i + 1,
                        ) % (q as int) && acc@[k] < q by {
                            let prev = tensor_sum(c1@, c2@, m as int, l as int, k, degree as int, i as int);
                            let nc = negacyclic_coeff(c1@[i as int]@[l as int]@, c2@[j as int]@[l as int]@, k, degree as int);
                            vstd::arithmetic::div_mod::lemma_mod_bound(nc, q as int);
                            vstd::arithmetic::div_mod::lemma_small_mod((nc % (q as int)) as nat, q as nat);
                            vstd::arithmetic::div_mod::lemma_add_mod_noop(prev, nc, q as int);
                            vstd::arithmetic::div_mod::lemma_mod_bound(prev + nc, q as int);
                        }
                    }
                }
                i += 1;
            }
            component.push(acc);
            l += 1;
        }
        proof {
            assert(limbs_reduced(component@, moduli@, degree as int));
        }
        let ghost before = out@;
        out.push(component);
        proof {
            assert forall|mm: int| 0 <= mm < out@.len() implies limbs_reduced(
                (#[trigger] out@[mm])@,
                moduli@,
                degree as int,
            ) by {
                if mm < m {
                    assert(out@[mm] == before[mm]);
                }
            }
        }
        m += 1;
    }
    out
}

// ---------------------------------------------------------------------------
// Key switching
// ---------------------------------------------------------------------------

/// `Σ_{i < upto} d_i · k_i[c]`, coefficient `k` of limb `l`, over the
/// integers (each product taken modulo `X^n + 1`).
pub open spec fn keyswitch_sum(
    digits: Seq<Vec<Vec<u64>>>,
    key: Seq<Vec<Vec<Vec<u64>>>>,
    c: int,
    l: int,
    k: int,
    n: int,
    upto: int,
) -> int
    decreases upto,
{
    if upto <= 0 {
        0
    } else {
        keyswitch_sum(digits, key, c, l, k, n, upto - 1) + negacyclic_coeff(
            digits[upto - 1]@[l]@,
            key[upto - 1]@[c]@[l]@,
            k,
            n,
        )
    }
}

/// Key-switching key elements: ciphertexts of at least two components,
/// reduced polynomials over the chain.
pub open spec fn key_elements_ok(key: Seq<Vec<Vec<Vec<u64>>>>, moduli: Seq<u64>, degree: int) -> bool {
    forall|i: int|
        0 <= i < key.len() ==> (#[trigger] key[i])@.len() >= 2 && components_reduced(key[i]@, moduli, degree)
}

fn accumulate_key_products(
    digits: &Vec<Vec<Vec<u64>>>,
    key: &Vec<Vec<Vec<Vec<u64>>>>,
    c: usize,
    moduli: &Vec<u64>,
    degree: usize,
) -> (r: Vec<Vec<u64>>)
    requires
        c < 2,
        forall|l: int| 0 <= l < moduli@.len() ==> #[trigger] moduli@[l] > 0,
        components_reduced(digits@, moduli@, degree as int),
        key_elements_ok(key@, moduli@, degree as int),
        digits@.len() == key@.len(),
        degree <= usize::MAX / 2,
    ensures
        limbs_reduced(r@, moduli@, degree as int),
        forall|l: int, k: int|
            0 <= l < moduli@.len() && 0 <= k < degree ==> #[trigger] r@[l]@[k] == keyswitch_sum(
                digits@,
                key@,
                c as int,
                l,
                k,
                degree as int,
                digits@.len() as int,
            ) % (moduli@[l] as int),
{
    let mut out: Vec<Vec<u64>> = Vec::new();
    let mut l: usize = 0;
    while l < moduli.len()
        invariant
            c < 2,
            forall|ll: int| 0 <= ll < moduli@.len() ==> #[trigger] moduli@[ll] > 0,
            components_reduced(digits@, moduli@, degree as int),
            key_elements_ok(key@, moduli@, degree as int),
            digits@.len() == key@.len(),
            degree <= usize::MAX / 2,
            l <= moduli@.len(),
            out@.len() == l,
            forall|ll: int| 0 <= ll < l ==> (#[trigger] out@[ll])@.len() == degree,
            forall|ll: int, k: int| 0 <= ll < l && 0 <= k < degree ==> #[trigger] out@[ll]@[k] < moduli@[ll],
            forall|ll: int, k: int|
                0 <= ll < l && 0 <= k < degree ==> #[trigger] out@[ll]@[k] == keyswitch_sum(
                    digits@,
                    key@,
                    c as int,
                    ll,
                    k,
                    degree as int,
                    digits@.len() as int,
                ) % (moduli@[ll] as int),
        decreases moduli@.len() - l,
    {
        let q = moduli[l];
        let mut acc: Vec<u64> = Vec::new();
        let mut z: usize = 0;
        while z < degree
            invariant
                z <= degree,
                acc@.len() == z,
                forall|k: int| 0 <= k < z ==> #[trigger] acc@[k] == 0,
            decreases degree - z,
        {
            acc.push(0);
            z += 1;
        }
        proof {
            vstd::arithmetic::div_mod::lemma_small_mod(0, q as nat);
        }
        let mut i: usize = 0;
        while i < digits.len()
            invariant
                c < 2,
                components_reduced(digits@, moduli@, degree as int),
                key_elements_ok(key@, moduli@, degree as int),
                digits@.len() == key@.len(),
                degree <= usize::MAX / 2,
                l < moduli@.len(),
                q == moduli@[l as int],
                q > 0,
                i <= digits@.len(),
                acc@.len() == degree,
                forall|k: int| 0 <= k < degree ==> #[trigger] acc@[k] < q,
                forall|k: int|
                    0 <= k < degree ==> #[trigger] acc@[k] == keyswitch_sum(
                        digits@,
                        key@,
                        c as int,
                        l as int,
                        k,
                        degree as int,
                        i as int,
                    ) % (q as int),
            decreases digits@.len() - i,
        {
            proof {
                assert(limbs_reduced(digits@[i as int]@, moduli@, degree as int));
                assert(key@[i as int]@.len() >= 2 && components_reduced(key@[i as int]@, moduli@, degree as int));
                assert(limbs_reduced(key@[i as int]@[c as int]@, moduli@, degree as int));
            }
            let product = negacyclic_mul_mod(&digits[i][l], &key[i][c][l], q);
            add_coefficients_assign(&mut acc, &product, q);
            proof {
                assert forall|k: int| 0 <= k < degree implies #[trigger] acc@[k] == keyswitch_sum(
                    digits@,
                    key@,
                    c as int,
                    l as int,
                    k,
                    degree as int,
                    i + 1,
                ) % (q as int) && acc@[k] < q by {
                    let prev = keyswitch_sum(digits@, key@, c as int, l as int, k, degree as int, i as int);
                    let nc = negacyclic_coeff(
                        digits@[i as int]@[l as int]@,
                        key@[i as int]@[c as int]@[l as int]@,
                        k,
                        degree as int,
                    );
                    vstd::arithmetic::div_mod::lemma_mod_bound(nc, q as int);
                    vstd::arithmetic::div_mod::lemma_small_mod((nc % (q as int)) as nat, q as nat);
                    vstd::arithmetic::div_mod::lemma_add_mod_noop(prev, nc, q as int);
                    vstd::arithmetic::div_mod::lemma_mod_bound(prev + nc, q as int);
                }
            }
            i += 1;
        }
        out.push(acc);
        l += 1;
    }
    out
}

/// Switches the key of gadget digits: `(Σ d_i · k_i[0], Σ d_i · k_i[1])`,
/// products taken in the negacyclic ring of each limb, for as many digits
/// and key elements as the gadget of the chain has.
pub fn switch_key_gadget_from_digits(
    digits: &Vec<Vec<Vec<u64>>>,
    key: &Vec<Vec<Vec<Vec<u64>>>>,
    moduli: &Vec<u64>,
    degree: usize,
) -> (r: (Vec<Vec<u64>>, Vec<Vec<u64>>))
    requires
        forall|l: int| 0 <= l < moduli@.len() ==> #[trigger] moduli@[l] > 0,
        components_reduced(digits@, moduli@, degree as int),
        key_elements_ok(key@, moduli@, degree as int),
        key@.len() == ksw_level_count(moduli@),
        digits@.len() == ksw_level_count(moduli@),
        degree <= usize::MAX / 2,
    ensures
        limbs_reduced(r.0@, moduli@, degree as int),
        limbs_reduced(r.1@, moduli@, degree as int),
        forall|l: int, k: int|
            0 <= l < moduli@.len() && 0 <= k < degree ==> #[trigger] r.0@[l]@[k] == keyswitch_sum(
                digits@,
                key@,
                0,
                l,
                k,
                degree as int,
                digits@.len() as int,
            ) % (moduli@[l] as int) && r.1@[l]@[k] == keyswitch_sum(
                digits@,
                key@,
                1,
                l,
                k,
                degree as int,
                digits@.len() as int,
            ) % (moduli@[l] as int),
{
    let acc0 = accumulate_key_products(digits, key, 0, moduli, degree);
    let acc1 = accumulate_key_products(digits, key, 1, moduli, degree);
    (acc0, acc1)
}

/// `digits` are the balanced gadget digits of the polynomial `poly`, `levels`
/// of them, each written back over the RNS base.
pub open spec fn gadget_digits_of(
    digits: Seq<Vec<Vec<u64>>>,
    poly: Seq<Vec<u64>>,
    moduli: Seq<u64>,
    degree: int,
    levels: int,
) -> bool {
    &&& digits.len() == levels
    &&& forall|i: int| 0 <= i < levels ==> (#[trigger] digits[i])@.len() == moduli.len()
    &&& forall|i: int, l: int|
        0 <= i < levels && 0 <= l < moduli.len() ==> (#[trigger] digits[i]@[l])@.len() == degree
    &&& forall|i: int, l: int, k: int|
        0 <= i < levels && 0 <= l < moduli.len() && 0 <= k < degree ==> #[trigger] digits[i]@[l]@[k]
            == signed_residue(gadget_digit(centered_coefficient(moduli, poly, k), i as nat), moduli[l] as int)
}

/// Key switching of a polynomial: its balanced gadget digits, switched with
/// the key.
pub fn switch_key_gadget(
    poly: &Vec<Vec<u64>>,
    key: &Vec<Vec<Vec<Vec<u64>>>>,
    moduli: &Vec<u64>,
    degree: usize,
) -> (r: (Vec<Vec<u64>>, Vec<Vec<u64>>))
    requires
        rns_base(moduli@),
        limbs_reduced(poly@, moduli@, degree as int),
        key_elements_ok(key@, moduli@, degree as int),
        key@.len() == ksw_level_count(moduli@),
        degree <= usize::MAX / 2,
    ensures
        limbs_reduced(r.0@, moduli@, degree as int),
        limbs_reduced(r.1@, moduli@, degree as int),
        exists|digits: Seq<Vec<Vec<u64>>>|
            #[trigger] gadget_digits_of(digits, poly@, moduli@, degree as int, key@.len() as int) && forall|
                l: int,
                k: int,
            |
                0 <= l < moduli@.len() && 0 <= k < degree ==> #[trigger] r.0@[l]@[k] == keyswitch_sum(
                    digits,
                    key@,
                    0,
                    l,
                    k,
                    degree as int,
                    key@.len() as int,
                ) % (moduli@[l] as int) && r.1@[l]@[k] == keyswitch_sum(
                    digits,
                    key@,
                    1,
                    l,
                    k,
                    degree as int,
                    key@.len() as int,
                ) % (moduli@[l] as int),
{
    let digits = decompose_gadget_digits(poly, moduli, degree, key.len());
    proof {
        assert forall|i: int| 0 <= i < digits@.len() implies limbs_reduced((#[trigger] digits@[i])@, moduli@, degree as int) by {
            assert forall|l: int, k: int| 0 <= l < moduli@.len() && 0 <= k < degree implies #[trigger] digits@[i]@[l]@[k]
                < moduli@[l] by {
                vstd::arithmetic::div_mod::lemma_mod_bound(
                    gadget_digit(centered_coefficient(moduli@, poly@, k), i as nat),
                    moduli@[l] as int,
                );
            }
        }
        assert(gadget_digits_of(digits@, poly@, moduli@, degree as int, key@.len() as int));
    }
    switch_key_gadget_from_digits(&digits, key, moduli, degree)
}

fn add_limbs(a: &Vec<Vec<u64>>, b: &Vec<Vec<u64>>, moduli: &Vec<u64>, degree: usize) -> (r: Vec<Vec<u64>>)
    requires
        limbs_reduced(a@, moduli@, degree as int),
        limbs_reduced(b@, moduli@, degree as int),
    ensures
        limbs_reduced(r@, moduli@, degree as int),
        forall|l: int, k: int|
            0 <= l < moduli@.len() && 0 <= k < degree ==> #[trigger] r@[l]@[k] == (a@[l]@[k] + b@[l]@[k]) % (
            moduli@[l] as int),
{
    let mut out: Vec<Vec<u64>> = Vec::new();
    let mut l: usize = 0;
    while l < moduli.len()
        invariant
            limbs_reduced(a@, moduli@, degree as int),
            limbs_reduced(b@, moduli@, degree as int),
            l <= moduli@.len(),
            out@.len() == l,
            forall|ll: int| 0 <= ll < l ==> (#[trigger] out@[ll])@.len() == degree,
            forall|ll: int, k: int| 0 <= ll < l && 0 <= k < degree ==> #[trigger] out@[ll]@[k] < moduli@[ll],
            forall|ll: int, k: int|
                0 <= ll < l && 0 <= k < degree ==> #[trigger] out@[ll]@[k] == (a@[ll]@[k] + b@[ll]@[k]) % (
                moduli@[ll] as int),
        decreases moduli@.len() - l,
    {
        let q = moduli[l];
        let mut limb: Vec<u64> = Vec::new();
        let mut k: usize = 0;
        while k < degree
            invariant
                limbs_reduced(a@, moduli@, degree as int),
                limbs_reduced(b@, moduli@, degree as int),
                l < moduli@.len(),
                q == moduli@[l as int],
                q > 0,
                k <= degree,
                limb@.len() == k,
                forall|kk: int| 0 <= kk < k ==> #[trigger] limb@[kk] < q,
                forall|kk: int|
                    0 <= kk < k ==> #[trigger] limb@[kk] == (a@[l as int]@[kk] + b@[l as int]@[kk]) % (q as int),
            decreases degree - k,
        {
            limb.push(add_mod(a[l][k], b[l][k], q));
            k += 1;
        }
        out.push(limb);
        l += 1;
    }
    out
}

/// `r` is `c` relinearized with `key`: a three-component ciphertext loses
/// its last component, whose key switch is added to the first two; any
/// other is left as it is.
pub open spec fn relinearized(
    r: Seq<Vec<Vec<u64>>>,
    c: Seq<Vec<Vec<u64>>>,
    key: Seq<Vec<Vec<Vec<u64>>>>,
    moduli: Seq<u64>,
    degree: int,
) -> bool {
    if c.len() != 3 {
        same_components(r, c)
    } else {
        &&& r.len() == 2
        &&& exists|digits: Seq<Vec<Vec<u64>>>|
            #[trigger] gadget_digits_of(digits, c[2]@, moduli, degree, key.len() as int) && forall|l: int, k: int|
                0 <= l < moduli.len() && 0 <= k < degree ==> #[trigger] r[0]@[l]@[k] == (c[0]@[l]@[k] + keyswitch_sum(
                    digits,
                    key,
                    0,
                    l,
                    k,
                    degree,
                    key.len() as int,
                ) % (moduli[l] as int)) % (moduli[l] as int) && r[1]@[l]@[k] == (c[1]@[l]@[k] + keyswitch_sum(
                    digits,
                    key,
                    1,
                    l,
                    k,
                    degree,
                    key.len() as int,
                ) % (moduli[l] as int)) % (moduli[l] as int)
    }
}

/// Relinearizes a ciphertext in coefficient form: a three-component one
/// becomes `(c0 + ks_0(c2), c1 + ks_1(c2))`, key-switching its last
/// component; any other size is left as it is.
pub fn relinearize(
    components: &Vec<Vec<Vec<u64>>>,
    key: &Vec<Vec<Vec<Vec<u64>>>>,
    moduli: &Vec<u64>,
    degree: usize,
) -> (r: Vec<Vec<Vec<u64>>>)
    requires
        rns_base(moduli@),
        components_reduced(components@, moduli@, degree as int),
        components@.len() == 3 ==> key_elements_ok(key@, moduli@, degree as int) && key@.len() == ksw_level_count(
            moduli@,
        ),
        degree <= usize::MAX / 2,
    ensures
        components_reduced(r@, moduli@, degree as int),
        relinearized(r@, components@, key@, moduli@, degree as int),
{
    if components.len() != 3 {
        let out = copy_components(components);
        proof {
            assert(same_components(out@, components@));
            lemma_same_components_reduced(out@, components@, moduli@, degree as int);
        }
        return out;
    }
    proof {
        assert(limbs_reduced(components@[0]@, moduli@, degree as int));
        assert(limbs_reduced(components@[1]@, moduli@, degree as int));
        assert(limbs_reduced(components@[2]@, moduli@, degree as int));
    }
    let (sw0, sw1) = switch_key_gadget(&components[2], key, moduli, degree);
    let c0 = add_limbs(&components[0], &sw0, moduli, degree);
    let c1 = add_limbs(&components[1], &sw1, moduli, degree);
    let mut out: Vec<Vec<Vec<u64>>> = Vec::new();
    out.push(c0);
    out.push(c1);
    proof {
        assert forall|i: int| 0 <= i < out@.len() implies limbs_reduced((#[trigger] out@[i])@, moduli@, degree as int) by {}
    }
    out
}

// ---------------------------------------------------------------------------
// Relinearizing BGV ciphertexts
// ---------------------------------------------------------------------------

/// `child` is a prefix of the chain `parent`.
pub open spec fn is_prefix_chain(parent: Seq<u64>, child: Seq<u64>) -> bool {
    child.len() <= parent.len() && child == parent.take(child.len() as int)
}

/// Whether `child` is a prefix of the chain `parent`.
pub fn is_prefix_modulus_chain(parent: &Vec<u64>, child: &Vec<u64>) -> (r: bool)
    ensures
        r == is_prefix_chain(parent@, child@),
{
    if child.len() > parent.len() {
        return false;
    }
    let mut i: usize = 0;
    while i < child.len()
        invariant
            child@.len() <= parent@.len(),
            i <= child@.len(),
            forall|k: int| 0 <= k < i ==> child@[k] == parent@[k],
        decreases child@.len() - i,
    {
        if child[i] != parent[i] {
            proof {
                assert(child@[i as int] != parent@.take(child@.len() as int)[i as int]);
            }
            return false;
        }
        i += 1;
    }
    proof {
        assert(child@ =~= parent@.take(child@.len() as int));
    }
    true
}

/// Why a key of the evaluator's parameters (degree `degree`, chain
/// `eval_moduli`) cannot be brought to a ciphertext chain `ct_moduli`, if it
/// cannot: a chain that is not a prefix, too few key elements for the
/// chain's gadget, an empty chain, or a key element that is not at the
/// evaluator's level.
pub open spec fn key_level_error(
    degree: usize,
    eval_moduli: Seq<u64>,
    key: Seq<Vec<Vec<Vec<u64>>>>,
    ct_moduli: Seq<u64>,
) -> Option<BgvLevelError> {
    let expected = ksw_level_count(ct_moduli);
    if !is_prefix_chain(eval_moduli, ct_moduli) {
        Some(BgvLevelError::CiphertextModulusChainMismatch)
    } else if key.len() < expected {
        Some(BgvLevelError::EvaluationKeyLevelMismatch { expected: expected as usize, actual: key.len() as usize })
    } else if ct_moduli.len() == eval_moduli.len() {
        None
    } else if ct_moduli.len() == 0 {
        Some(BgvLevelError::EmptyCiphertextModulus)
    } else {
        first_key_level_error(key, degree, eval_moduli.len() as usize, 0, expected)
    }
}

/// The first key element, from `i` on and below `upto`, that is not a
/// ciphertext at the full level, as the error it is reported with.
pub open spec fn first_key_level_error(
    key: Seq<Vec<Vec<Vec<u64>>>>,
    degree: usize,
    expected_limbs: usize,
    i: int,
    upto: int,
) -> Option<BgvLevelError>
    decreases upto - i,
{
    if i < 0 || i >= upto || i >= key.len() {
        None
    } else {
        match full_level_error(key[i]@, degree, expected_limbs, 0) {
            Some(e) => Some(e),
            None => first_key_level_error(key, degree, expected_limbs, i + 1, upto),
        }
    }
}

/// The first key-level error from `i` below `upto` is the error of the
/// first key element there that is not at the full level, and there is
/// none exactly when every key element there is.
pub proof fn lemma_first_key_level_error_is_first(
    key: Seq<Vec<Vec<Vec<u64>>>>,
    degree: usize,
    expected_limbs: usize,
    i: int,
    upto: int,
)
    requires
        0 <= i,
        upto <= key.len(),
    ensures
        first_key_level_error(key, degree, expected_limbs, i, upto) is None <==> forall|j: int|
            i <= j < upto ==> (#[trigger] full_level_error(key[j]@, degree, expected_limbs, 0)) is None,
        first_key_level_error(key, degree, expected_limbs, i, upto) is Some ==> exists|j: int|
            i <= j < upto && #[trigger] full_level_error(key[j]@, degree, expected_limbs, 0)
                == first_key_level_error(key, degree, expected_limbs, i, upto) && forall|k: int|
                i <= k < j ==> (#[trigger] full_level_error(key[k]@, degree, expected_limbs, 0)) is None,
    decreases upto - i,
{
    if i < upto {
        lemma_first_key_level_error_is_first(key, degree, expected_limbs, i + 1, upto);
        if full_level_error(key[i]@, degree, expected_limbs, 0) is None {
            if first_key_level_error(key, degree, expected_limbs, i, upto) is Some {
                let j = choose|j: int|
                    i + 1 <= j < upto && #[trigger] full_level_error(key[j]@, degree, expected_limbs, 0)
                        == first_key_level_error(key, degree, expected_limbs, i + 1, upto) && forall|k: int|
                        i + 1 <= k < j ==> (#[trigger] full_level_error(key[k]@, degree, expected_limbs, 0)) is None;
                assert(i <= j);
            }
        }
    }
}

proof fn lemma_first_key_level_prefix(
    key: Seq<Vec<Vec<Vec<u64>>>>,
    degree: usize,
    expected_limbs: usize,
    i: int,
    k: int,
    upto: int,
)
    requires
        0 <= i <= k <= upto <= key.len(),
        forall|j: int| i <= j < k ==> full_level_error((#[trigger] key[j])@, degree, expected_limbs, 0) is None,
    ensures
        first_key_level_error(key, degree, expected_limbs, i, upto) == first_key_level_error(
            key,
            degree,
            expected_limbs,
            k,
            upto,
        ),
    decreases k - i,
{
    if i < k {
        lemma_first_key_level_prefix(key, degree, expected_limbs, i + 1, k, upto);
    }
}

/// `r` is the key brought to the chain `ct_moduli`: its first elements, as
/// many as the chain's gadget has, cut down to the chain's moduli.
pub open spec fn leveled_key(
    r: Seq<Vec<Vec<Vec<u64>>>>,
    key: Seq<Vec<Vec<Vec<u64>>>>,
    eval_moduli: Seq<u64>,
    ct_moduli: Seq<u64>,
) -> bool {
    &&& r.len() == ksw_level_count(ct_moduli)
    &&& forall|i: int|
        0 <= i < r.len() ==> if ct_moduli.len() == eval_moduli.len() {
            same_components((#[trigger] r[i])@, key[i]@)
        } else {
            &&& r[i]@.len() == key[i]@.len()
            &&& forall|j: int|
                0 <= j < r[i]@.len() ==> (#[trigger] r[i]@[j])@.len() == ct_moduli.len() && forall|l: int|
                    0 <= l < ct_moduli.len() ==> (#[trigger] r[i]@[j]@[l])@ == key[i]@[j]@[l]@
        }
}

/// Brings a key of the evaluator's parameters to the chain of a ciphertext
/// (a prefix of the evaluator's): its first elements, as many as that
/// chain's gadget has, each cut down to the chain's moduli.  Fails as
/// `key_level_error` says.
pub fn evaluation_key_for_params(
    degree: usize,
    eval_moduli: &Vec<u64>,
    key: &Vec<Vec<Vec<Vec<u64>>>>,
    ct_moduli: &Vec<u64>,
) -> (r: Result<Vec<Vec<Vec<Vec<u64>>>>, BgvLevelError>)
    requires
        ct_moduli@.len() <= 0x100_0000,
    ensures
        match key_level_error(degree, eval_moduli@, key@, ct_moduli@) {
            Some(e) => r == Err::<Vec<Vec<Vec<Vec<u64>>>>, BgvLevelError>(e),
            None => r is Ok && leveled_key(r->Ok_0@, key@, eval_moduli@, ct_moduli@),
        },
{
    if !is_prefix_modulus_chain(eval_moduli, ct_moduli) {
        return Err(BgvLevelError::CiphertextModulusChainMismatch);
    }
    let expected = bgv_ksw_levels(ct_moduli);
    if key.len() < expected {
        return Err(BgvLevelError::EvaluationKeyLevelMismatch { expected, actual: key.len() });
    }
    let q_limbs = ct_moduli.len();
    let full = eval_moduli.len() == q_limbs;
    if !full && q_limbs == 0 {
        return Err(BgvLevelError::EmptyCiphertextModulus);
    }
    let mut elements: Vec<Vec<Vec<Vec<u64>>>> = Vec::new();
    let mut i: usize = 0;
    while i < expected
        invariant
            eval_moduli@.len() <= usize::MAX,
            is_prefix_chain(eval_moduli@, ct_moduli@),
            expected == ksw_level_count(ct_moduli@),
            expected <= key@.len(),
            q_limbs == ct_moduli@.len(),
            full == (eval_moduli@.len() == q_limbs),
            !full ==> q_limbs > 0,
            i <= expected,
            elements@.len() == i,
            !full ==> forall|j: int|
                0 <= j < i ==> full_level_error((#[trigger] key@[j])@, degree, eval_moduli@.len() as usize, 0)
                    is None,
            forall|ii: int|
                0 <= ii < i ==> if full {
                    same_components((#[trigger] elements@[ii])@, key@[ii]@)
                } else {
                    &&& elements@[ii]@.len() == key@[ii]@.len()
                    &&& forall|j: int|
                        0 <= j < elements@[ii]@.len() ==> (#[trigger] elements@[ii]@[j])@.len() == q_limbs
                            && forall|l: int|
                            0 <= l < q_limbs ==> (#[trigger] elements@[ii]@[j]@[l])@ == key@[ii]@[j]@[l]@
                },
        decreases expected - i,
    {
        if full {
            let c = copy_components(&key[i]);
            proof {
                assert(same_components(c@, key@[i as int]@));
            }
            elements.push(c);
        } else {
            match ensure_full_level_ciphertext(&key[i], degree, eval_moduli.len()) {
                Ok(()) => {},
                Err(e) => {
                    proof {
                        lemma_first_key_level_prefix(key@, degree, eval_moduli@.len() as usize, 0, i as int, expected as int);
                    }
                    return Err(e);
                },
            }
            let mut truncated: Vec<Vec<Vec<u64>>> = Vec::new();
            let mut j: usize = 0;
            while j < key[i].len()
                invariant
                    eval_moduli@.len() <= usize::MAX,
                    i < expected,
                    expected <= key@.len(),
                    q_limbs == ct_moduli@.len(),
                    q_limbs < eval_moduli@.len(),
                    full_level_error(key@[i as int]@, degree, eval_moduli@.len() as usize, 0) is None,
                    j <= key@[i as int]@.len(),
                    truncated@.len() == j,
                    forall|jj: int|
                        0 <= jj < j ==> (#[trigger] truncated@[jj])@.len() == q_limbs && forall|l: int|
                            0 <= l < q_limbs ==> (#[trigger] truncated@[jj]@[l])@ == key@[i as int]@[jj]@[l]@,
                decreases key@[i as int]@.len() - j,
            {
                proof {
                    lemma_full_level_ok(key@[i as int]@, degree, eval_moduli@.len() as usize, 0, j as int);
                    lemma_component_level_ok(key@[i as int]@[j as int]@, degree, eval_moduli@.len() as usize, 0);
                }
                let t = truncate_poly_q_prefix(&key[i][j], q_limbs);
                truncated.push(t);
                j += 1;
            }
            elements.push(truncated);
        }
        i += 1;
    }
    proof {
        if !full {
            lemma_first_key_level_prefix(key@, degree, eval_moduli@.len() as usize, 0, expected as int, expected as int);
        }
    }
    Ok(elements)
}


// ---------------------------------------------------------------------------
// BGV ciphertexts: combining two
// ---------------------------------------------------------------------------

/// Why two ciphertexts cannot be brought to a common level, if they cannot:
/// an operand of other parameters than the evaluator's, an empty common
/// level, or chains that differ below it.
pub open spec fn level_alignment_error(degree: usize, plain_modulus: u64, c1: BgvCiphertext, c2: BgvCiphertext) -> Option<
    BgvLevelError,
> {
    let n1 = c1.moduli@.len();
    let n2 = c2.moduli@.len();
    let m = if n1 < n2 {
        n1
    } else {
        n2
    };
    if c1.degree != degree {
        Some(BgvLevelError::CiphertextDegreeMismatch { expected: degree, actual: c1.degree })
    } else if c1.plain_modulus != plain_modulus {
        Some(BgvLevelError::CiphertextPlaintextModulusMismatch { expected: plain_modulus, actual: c1.plain_modulus })
    } else if c2.degree != degree {
        Some(BgvLevelError::CiphertextDegreeMismatch { expected: degree, actual: c2.degree })
    } else if c2.plain_modulus != plain_modulus {
        Some(BgvLevelError::CiphertextPlaintextModulusMismatch { expected: plain_modulus, actual: c2.plain_modulus })
    } else if m == 0 && (n1 > 0 || n2 > 0) {
        Some(BgvLevelError::EmptyCiphertextModulus)
    } else if c1.moduli@.take(m as int) != c2.moduli@.take(m as int) {
        Some(BgvLevelError::CiphertextModulusChainMismatch)
    } else {
        None
    }
}

/// `r` is `ct` brought to the first `m` moduli of its chain.
pub open spec fn leveled_ciphertext(r: BgvCiphertext, ct: BgvCiphertext, m: int) -> bool {
    if m == ct.moduli@.len() {
        copied_ciphertext(r, ct)
    } else {
        switched_ciphertext(r, ct, m)
    }
}

/// The smaller level of two ciphertexts.
pub open spec fn common_level(c1: BgvCiphertext, c2: BgvCiphertext) -> int {
    if c1.moduli@.len() < c2.moduli@.len() {
        c1.moduli@.len() as int
    } else {
        c2.moduli@.len() as int
    }
}

/// Brings two BGV ciphertexts to their common level: the one above it is
/// switched down.  Fails as `level_alignment_error` says.
pub fn align_bgv_levels(degree: usize, plain_modulus: u64, c1: &BgvCiphertext, c2: &BgvCiphertext) -> (r: Result<
    (BgvCiphertext, BgvCiphertext),
    BgvLevelError,
>)
    requires
        c1.wf(),
        c2.wf(),
    ensures
        match level_alignment_error(degree, plain_modulus, *c1, *c2) {
            Some(e) => r == Err::<(BgvCiphertext, BgvCiphertext), BgvLevelError>(e),
            None => r is Ok && leveled_ciphertext(r->Ok_0.0, *c1, common_level(*c1, *c2)) && leveled_ciphertext(
                r->Ok_0.1,
                *c2,
                common_level(*c1, *c2),
            ) && r->Ok_0.0.moduli@ == r->Ok_0.1.moduli@,
        },
{
    match ensure_compatible_bgv_operand(degree, plain_modulus, c1) {
        Ok(()) => {},
        Err(e) => {
            return Err(e);
        },
    }
    match ensure_compatible_bgv_operand(degree, plain_modulus, c2) {
        Ok(()) => {},
        Err(e) => {
            return Err(e);
        },
    }
    let target = if c1.moduli.len() < c2.moduli.len() {
        c1.moduli.len()
    } else {
        c2.moduli.len()
    };
    let left = match mod_switch_bgv_to_q_limbs(c1, target) {
        Ok(c) => c,
        Err(e) => {
            return Err(e);
        },
    };
    let right = match mod_switch_bgv_to_q_limbs(c2, target) {
        Ok(c) => c,
        Err(e) => {
            return Err(e);
        },
    };
    proof {
        assert(c1.moduli@.take(c1.moduli@.len() as int) =~= c1.moduli@);
        assert(c2.moduli@.take(c2.moduli@.len() as int) =~= c2.moduli@);
    }
    match ensure_same_bgv_modulus_chain(&left.moduli, &right.moduli) {
        Ok(()) => {},
        Err(e) => {
            return Err(e);
        },
    }
    Ok((left, right))
}

/// `(s1, s2)` are the leveled `(l1, l2)` brought to one plaintext factor:
/// as they are when their factors agree, else each scaled by the other's.
pub open spec fn factors_matched(s1: BgvCiphertext, s2: BgvCiphertext, l1: BgvCiphertext, l2: BgvCiphertext) -> bool {
    if l1.int_factor == l2.int_factor {
        s1 == l1 && s2 == l2
    } else {
        scaled_ciphertext(s1, l1, l2.int_factor@) && scaled_ciphertext(s2, l2, l1.int_factor@)
    }
}

/// `(a, b)` are `(s1, s2)` raised to the larger of their noise-scale
/// degrees.
pub open spec fn noise_aligned(a: BgvCiphertext, b: BgvCiphertext, s1: BgvCiphertext, s2: BgvCiphertext) -> bool {
    let target = if s1.noise_scale_degree < s2.noise_scale_degree {
        s2.noise_scale_degree
    } else {
        s1.noise_scale_degree
    };
    &&& a.wf() && b.wf()
    &&& a.noise_scale_degree == target && b.noise_scale_degree == target
    &&& a.components@ == s1.components@ && b.components@ == s2.components@
    &&& a.moduli@ == s1.moduli@ && b.moduli@ == s2.moduli@
    &&& a.int_factor == s1.int_factor && b.int_factor == s2.int_factor
    &&& a.degree == s1.degree && b.degree == s2.degree
    &&& a.plain_modulus == s1.plain_modulus && b.plain_modulus == s2.plain_modulus
}

/// `(a, b)` are `(c1, c2)` brought to a common level, a common plaintext
/// factor and a common noise-scale degree.
pub open spec fn adjusted_pair(a: BgvCiphertext, b: BgvCiphertext, c1: BgvCiphertext, c2: BgvCiphertext) -> bool {
    exists|l1: BgvCiphertext, l2: BgvCiphertext, s1: BgvCiphertext, s2: BgvCiphertext|
        #![trigger leveled_ciphertext(l1, c1, common_level(c1, c2)), leveled_ciphertext(l2, c2, common_level(c1, c2)), factors_matched(s1, s2, l1, l2)]
        leveled_ciphertext(l1, c1, common_level(c1, c2)) && leveled_ciphertext(l2, c2, common_level(c1, c2))
            && l1.moduli@ == l2.moduli@ && factors_matched(s1, s2, l1, l2) && noise_aligned(a, b, s1, s2)
}

/// Brings two BGV ciphertexts to a common level, then to a common plaintext
/// factor (each scaled by the other's when they differ), then to a common
/// noise-scale degree; both come out with the same chain, factor and
/// noise-scale degree.  Fails as `level_alignment_error` says.
pub fn adjust_levels_depth_and_factors_bgv(
    degree: usize,
    plain_modulus: u64,
    c1: &BgvCiphertext,
    c2: &BgvCiphertext,
) -> (r: Result<(BgvCiphertext, BgvCiphertext), BgvLevelError>)
    requires
        c1.wf(),
        c2.wf(),
        c1.noise_scale_degree < usize::MAX,
        c2.noise_scale_degree < usize::MAX,
    ensures
        match level_alignment_error(degree, plain_modulus, *c1, *c2) {
            Some(e) => r == Err::<(BgvCiphertext, BgvCiphertext), BgvLevelError>(e),
            None => r is Ok && adjusted_pair(r->Ok_0.0, r->Ok_0.1, *c1, *c2) && r->Ok_0.0.moduli@
                == r->Ok_0.1.moduli@ && r->Ok_0.0.int_factor == r->Ok_0.1.int_factor
                && r->Ok_0.0.noise_scale_degree == r->Ok_0.1.noise_scale_degree,
        },
{
    let (l1, l2) = match align_bgv_levels(degree, plain_modulus, c1, c2) {
        Ok(p) => p,
        Err(e) => {
            return Err(e);
        },
    };
    let ghost g1 = l1;
    let ghost g2 = l2;
    let f1 = l1.int_factor;
    let f2 = l2.int_factor;
    let (s1, s2) = if f1 == f2 {
        (l1, l2)
    } else {
        let t = plain_modulus;
        proof {
            lemma_unit_product(f1@ as int, f2@ as int, t as int);
        }
        let _factor = match f1.mul_mod(f2, t) {
            Ok(f) => f,
            Err(e) => {
                return Err(e);
            },
        };
        proof {
            assert(f1@ * f2@ == f2@ * f1@) by (nonlinear_arith);
            assert(l1.noise_scale_degree <= c1.noise_scale_degree);
            assert(l2.noise_scale_degree <= c2.noise_scale_degree);
        }
        let left = match scale_bgv_ciphertext_by_factor(&l1, f2) {
            Ok(c) => c,
            Err(e) => {
                return Err(e);
            },
        };
        let right = match scale_bgv_ciphertext_by_factor(&l2, f1) {
            Ok(c) => c,
            Err(e) => {
                return Err(e);
            },
        };
        (left, right)
    };
    let ghost h1 = s1;
    let ghost h2 = s2;
    proof {
        assert(factors_matched(h1, h2, g1, g2));
        if !(f1 == f2) {
            assert(f1@ * f2@ == f2@ * f1@) by (nonlinear_arith);
            BgvPlaintextFactor::lemma_view_determines(s1.int_factor, s2.int_factor);
        }
    }
    let (a, b) = match align_bgv_noise_scale_degree(s1, s2) {
        Ok(p) => p,
        Err(e) => {
            return Err(e);
        },
    };
    proof {
        assert(noise_aligned(a, b, h1, h2));
        assert(leveled_ciphertext(g1, *c1, common_level(*c1, *c2)));
        assert(leveled_ciphertext(g2, *c2, common_level(*c1, *c2)));
        assert(adjusted_pair(a, b, *c1, *c2));
    }
    Ok((a, b))
}

/// `r` is `a ± b` for ciphertexts at one level, factor and noise-scale
/// degree.
pub open spec fn combined_ciphertext(r: BgvCiphertext, a: BgvCiphertext, b: BgvCiphertext, op: LinearOp) -> bool {
    &&& r.wf()
    &&& r.degree == a.degree
    &&& r.plain_modulus == a.plain_modulus
    &&& r.moduli@ == a.moduli@
    &&& r.int_factor == a.int_factor
    &&& r.noise_scale_degree == (if a.noise_scale_degree < b.noise_scale_degree {
        b.noise_scale_degree
    } else {
        a.noise_scale_degree
    })
    &&& r.components@.len() == (if a.components@.len() < b.components@.len() {
        b.components@.len()
    } else {
        a.components@.len()
    })
    &&& forall|i: int, l: int, k: int|
        0 <= i < r.components@.len() && 0 <= l < a.moduli@.len() && 0 <= k < a.degree ==> #[trigger] r.components@[i]@[l]@[k]
            == binary_residue(a.components@, b.components@, a.moduli@, op, i, l, k)
}

fn linear_op_bgv(degree: usize, plain_modulus: u64, c1: &BgvCiphertext, c2: &BgvCiphertext, op: LinearOp) -> (r:
    Result<BgvCiphertext, BgvLevelError>)
    requires
        c1.wf(),
        c2.wf(),
        c1.noise_scale_degree < usize::MAX,
        c2.noise_scale_degree < usize::MAX,
    ensures
        match level_alignment_error(degree, plain_modulus, *c1, *c2) {
            Some(e) => r == Err::<BgvCiphertext, BgvLevelError>(e),
            None => r is Ok && exists|a: BgvCiphertext, b: BgvCiphertext|
                #[trigger] adjusted_pair(a, b, *c1, *c2) && combined_ciphertext(r->Ok_0, a, b, op),
        },
{
    let (a, b) = match adjust_levels_depth_and_factors_bgv(degree, plain_modulus, c1, c2) {
        Ok(p) => p,
        Err(e) => {
            return Err(e);
        },
    };
    let ghost ga = a;
    let ghost gb = b;
    let raw = binary_linear_op(&a.components, &b.components, &a.moduli, a.degree, op);
    let noise_scale_degree = if a.noise_scale_degree < b.noise_scale_degree {
        b.noise_scale_degree
    } else {
        a.noise_scale_degree
    };
    let (moduli, tables) = copy_moduli_and_tables(&a);
    proof {
        lemma_reduced_within(raw@, moduli@, a.degree as int);
        lemma_reduced_is_full_level(raw@, moduli@, a.degree);
    }
    let r = BgvCiphertext::with_metadata(a.degree, a.plain_modulus, moduli, tables, raw, a.int_factor, noise_scale_degree);
    proof {
        if r is Ok {
            assert(combined_ciphertext(r->Ok_0, ga, gb, op));
            assert(adjusted_pair(ga, gb, *c1, *c2));
        }
    }
    r
}

/// Adds two BGV ciphertexts once they are brought to a common level,
/// plaintext factor and noise-scale degree.  Fails as
/// `level_alignment_error` says.
pub fn add_bgv(degree: usize, plain_modulus: u64, c1: &BgvCiphertext, c2: &BgvCiphertext) -> (r: Result<
    BgvCiphertext,
    BgvLevelError,
>)
    requires
        c1.wf(),
        c2.wf(),
        c1.noise_scale_degree < usize::MAX,
        c2.noise_scale_degree < usize::MAX,
    ensures
        match level_alignment_error(degree, plain_modulus, *c1, *c2) {
            Some(e) => r == Err::<BgvCiphertext, BgvLevelError>(e),
            None => r is Ok && exists|a: BgvCiphertext, b: BgvCiphertext|
                #[trigger] adjusted_pair(a, b, *c1, *c2) && combined_ciphertext(r->Ok_0, a, b, LinearOp::Add),
        },
{
    linear_op_bgv(degree, plain_modulus, c1, c2, LinearOp::Add)
}

/// Subtracts two BGV ciphertexts once they are brought to a common level,
/// plaintext factor and noise-scale degree.  Fails as
/// `level_alignment_error` says.
pub fn sub_bgv(degree: usize, plain_modulus: u64, c1: &BgvCiphertext, c2: &BgvCiphertext) -> (r: Result<
    BgvCiphertext,
    BgvLevelError,
>)
    requires
        c1.wf(),
        c2.wf(),
        c1.noise_scale_degree < usize::MAX,
        c2.noise_scale_degree < usize::MAX,
    ensures
        match level_alignment_error(degree, plain_modulus, *c1, *c2) {
            Some(e) => r == Err::<BgvCiphertext, BgvLevelError>(e),
            None => r is Ok && exists|a: BgvCiphertext, b: BgvCiphertext|
                #[trigger] adjusted_pair(a, b, *c1, *c2) && combined_ciphertext(r->Ok_0, a, b, LinearOp::Sub),
        },
{
    linear_op_bgv(degree, plain_modulus, c1, c2, LinearOp::Sub)
}

/// `r` is the tensor product of `a` and `b`, ciphertexts at one level, with
/// the product of their factors and the sum of their noise-scale degrees.
pub open spec fn multiplied_ciphertext(r: BgvCiphertext, a: BgvCiphertext, b: BgvCiphertext) -> bool {
    &&& r.wf()
    &&& r.degree == a.degree
    &&& r.plain_modulus == a.plain_modulus
    &&& r.moduli@ == a.moduli@
    &&& r.int_factor@ == (a.int_factor@ * b.int_factor@) % (a.plain_modulus as int)
    &&& r.noise_scale_degree == a.noise_scale_degree + b.noise_scale_degree
    &&& r.components@.len() == a.components@.len() + b.components@.len() - 1
    &&& forall|m: int, l: int, k: int|
        0 <= m < r.components@.len() && 0 <= l < a.moduli@.len() && 0 <= k < a.degree ==> #[trigger] r.components@[m]@[l]@[k]
            == tensor_sum(a.components@, b.components@, m, l, k, a.degree as int, a.components@.len() as int) % (
        a.moduli@[l] as int)
}

/// Multiplies two BGV ciphertexts once they are brought to a common level:
/// their tensor product, carrying the product of their factors and the sum
/// of their noise-scale degrees.  Fails as `level_alignment_error` says.
pub fn mul_bgv(degree: usize, plain_modulus: u64, c1: &BgvCiphertext, c2: &BgvCiphertext) -> (r: Result<
    BgvCiphertext,
    BgvLevelError,
>)
    requires
        c1.wf(),
        c2.wf(),
        1 <= c1.components@.len() + c2.components@.len() <= usize::MAX,
        c1.noise_scale_degree + c2.noise_scale_degree <= usize::MAX,
        c1.degree <= usize::MAX / 2,
    ensures
        match level_alignment_error(degree, plain_modulus, *c1, *c2) {
            Some(e) => r == Err::<BgvCiphertext, BgvLevelError>(e),
            None => r is Ok && exists|l1: BgvCiphertext, l2: BgvCiphertext|
                #![trigger leveled_ciphertext(l1, *c1, common_level(*c1, *c2)), leveled_ciphertext(l2, *c2, common_level(*c1, *c2))]
                leveled_ciphertext(l1, *c1, common_level(*c1, *c2)) && leveled_ciphertext(
                    l2,
                    *c2,
                    common_level(*c1, *c2),
                ) && l1.moduli@ == l2.moduli@ && multiplied_ciphertext(r->Ok_0, l1, l2),
        },
{
    let (l1, l2) = match align_bgv_levels(degree, plain_modulus, c1, c2) {
        Ok(p) => p,
        Err(e) => {
            return Err(e);
        },
    };
    let ghost g1 = l1;
    let ghost g2 = l2;
    let t = plain_modulus;
    proof {
        lemma_unit_product(l1.int_factor@ as int, l2.int_factor@ as int, t as int);
        assert(l1.noise_scale_degree <= c1.noise_scale_degree);
        assert(l2.noise_scale_degree <= c2.noise_scale_degree);
        assert(l1.components@.len() == c1.components@.len());
        assert(l2.components@.len() == c2.components@.len());
    }
    let raw = mul_ciphertexts(&l1.components, &l2.components, &l1.moduli, l1.degree);
    let factor = match l1.int_factor.mul_mod(l2.int_factor, t) {
        Ok(f) => f,
        Err(e) => {
            return Err(e);
        },
    };
    let noise_scale_degree = l1.noise_scale_degree + l2.noise_scale_degree;
    let (moduli, tables) = copy_moduli_and_tables(&l1);
    proof {
        lemma_reduced_within(raw@, moduli@, l1.degree as int);
        lemma_reduced_is_full_level(raw@, moduli@, l1.degree);
    }
    let r = BgvCiphertext::with_metadata(l1.degree, t, moduli, tables, raw, factor, noise_scale_degree);
    proof {
        if r is Ok {
            assert(multiplied_ciphertext(r->Ok_0, g1, g2));
        }
    }
    r
}

/// `r` is `ct` relinearized with the key `lk` at its level, with the same
/// parameters, factor and noise-scale degree.
pub open spec fn relinearized_ciphertext(r: BgvCiphertext, ct: BgvCiphertext, lk: Seq<Vec<Vec<Vec<u64>>>>) -> bool {
    &&& r.wf()
    &&& r.degree == ct.degree
    &&& r.plain_modulus == ct.plain_modulus
    &&& r.moduli@ == ct.moduli@
    &&& r.int_factor == ct.int_factor
    &&& r.noise_scale_degree == ct.noise_scale_degree
    &&& relinearized(r.components@, ct.components@, lk, ct.moduli@, ct.degree as int)
}

/// Relinearizes a BGV ciphertext with an evaluation key of the evaluator's
/// parameters, brought to the ciphertext's level first.  Fails on an operand
/// of other parameters than the evaluator's, then as `key_level_error`
/// says.
pub fn relinearize_bgv(
    degree: usize,
    plain_modulus: u64,
    eval_moduli: &Vec<u64>,
    ct: &BgvCiphertext,
    key: &Vec<Vec<Vec<Vec<u64>>>>,
) -> (r: Result<BgvCiphertext, BgvLevelError>)
    requires
        ct.wf(),
        ct.degree <= usize::MAX / 2,
        ct.moduli@.len() <= 0x100_0000,
        key_elements_ok(key@, eval_moduli@, degree as int),
    ensures
        ct.degree != degree ==> r == Err::<BgvCiphertext, BgvLevelError>(
            BgvLevelError::CiphertextDegreeMismatch { expected: degree, actual: ct.degree },
        ),
        ct.degree == degree && ct.plain_modulus != plain_modulus ==> r == Err::<BgvCiphertext, BgvLevelError>(
            BgvLevelError::CiphertextPlaintextModulusMismatch {
                expected: plain_modulus,
                actual: ct.plain_modulus,
            },
        ),
        ct.degree == degree && ct.plain_modulus == plain_modulus ==> match key_level_error(
            degree,
            eval_moduli@,
            key@,
            ct.moduli@,
        ) {
            Some(e) => r == Err::<BgvCiphertext, BgvLevelError>(e),
            None => r is Ok && exists|lk: Seq<Vec<Vec<Vec<u64>>>>|
                #[trigger] leveled_key(lk, key@, eval_moduli@, ct.moduli@) && relinearized_ciphertext(
                    r->Ok_0,
                    *ct,
                    lk,
                ),
        },
{
    match ensure_compatible_bgv_operand(degree, plain_modulus, ct) {
        Ok(()) => {},
        Err(e) => {
            return Err(e);
        },
    }
    let level_key = match evaluation_key_for_params(degree, eval_moduli, key, &ct.moduli) {
        Ok(k) => k,
        Err(e) => {
            return Err(e);
        },
    };
    proof {
        assert forall|i: int| 0 <= i < level_key@.len() implies (#[trigger] level_key@[i])@.len() >= 2
            && components_reduced(level_key@[i]@, ct.moduli@, degree as int) by {
            assert(key@[i]@.len() >= 2 && components_reduced(key@[i]@, eval_moduli@, degree as int));
            assert forall|j: int| 0 <= j < level_key@[i]@.len() implies limbs_reduced(
                (#[trigger] level_key@[i]@[j])@,
                ct.moduli@,
                degree as int,
            ) by {
                assert(limbs_reduced(key@[i]@[j]@, eval_moduli@, degree as int));
                if ct.moduli@.len() == eval_moduli@.len() {
                    assert(ct.moduli@ =~= eval_moduli@);
                    assert(limb_values(level_key@[i]@[j]@) == limb_values(key@[i]@[j]@));
                    assert forall|l: int| 0 <= l < level_key@[i]@[j]@.len() implies (#[trigger] level_key@[i]@[j]@[l])@
                        == key@[i]@[j]@[l]@ by {
                        assert(limb_values(level_key@[i]@[j]@)[l] == level_key@[i]@[j]@[l]@);
                        assert(limb_values(key@[i]@[j]@)[l] == key@[i]@[j]@[l]@);
                    }
                    assert(level_key@[i]@[j]@.len() == limb_values(level_key@[i]@[j]@).len());
                } else {
                    assert forall|l: int| 0 <= l < ct.moduli@.len() implies (#[trigger] level_key@[i]@[j]@[l])@
                        == key@[i]@[j]@[l]@ by {}
                    assert forall|l: int| 0 <= l < ct.moduli@.len() implies #[trigger] ct.moduli@[l] == eval_moduli@[l] by {
                        assert(ct.moduli@ == eval_moduli@.take(ct.moduli@.len() as int));
                    }
                }
            }
        }
    }
    let raw = relinearize(&ct.components, &level_key, &ct.moduli, ct.degree);
    let ghost lk = level_key@;
    let (moduli, tables) = copy_moduli_and_tables(ct);
    proof {
        lemma_reduced_within(raw@, moduli@, ct.degree as int);
        lemma_reduced_is_full_level(raw@, moduli@, ct.degree);
    }
    let r = BgvCiphertext::with_metadata(ct.degree, ct.plain_modulus, moduli, tables, raw, ct.int_factor, ct.noise_scale_degree);
    proof {
        if r is Ok {
            assert(relinearized_ciphertext(r->Ok_0, *ct, lk));
        }
    }
    r
}

/// Multiplies two BGV ciphertexts and relinearizes the product.  Fails as
/// `level_alignment_error` says, then as `key_level_error` says at the
/// common level.
pub fn mul_relinearized_bgv(
    degree: usize,
    plain_modulus: u64,
    eval_moduli: &Vec<u64>,
    c1: &BgvCiphertext,
    c2: &BgvCiphertext,
    key: &Vec<Vec<Vec<Vec<u64>>>>,
) -> (r: Result<BgvCiphertext, BgvLevelError>)
    requires
        c1.wf(),
        c2.wf(),
        1 <= c1.components@.len() + c2.components@.len() <= usize::MAX,
        c1.noise_scale_degree + c2.noise_scale_degree <= usize::MAX,
        c1.degree <= usize::MAX / 2,
        c1.moduli@.len() <= 0x100_0000,
        key_elements_ok(key@, eval_moduli@, degree as int),
    ensures
        match level_alignment_error(degree, plain_modulus, *c1, *c2) {
            Some(e) => r == Err::<BgvCiphertext, BgvLevelError>(e),
            None => match key_level_error(
                degree,
                eval_moduli@,
                key@,
                c1.moduli@.take(common_level(*c1, *c2)),
            ) {
                Some(e) => r == Err::<BgvCiphertext, BgvLevelError>(e),
                None => r is Ok && exists|l1: BgvCiphertext, l2: BgvCiphertext, p: BgvCiphertext, lk: Seq<Vec<Vec<Vec<u64>>>>|
                    #![trigger leveled_ciphertext(l1, *c1, common_level(*c1, *c2)), leveled_ciphertext(l2, *c2, common_level(*c1, *c2)), multiplied_ciphertext(p, l1, l2), leveled_key(lk, key@, eval_moduli@, p.moduli@)]
                    leveled_ciphertext(l1, *c1, common_level(*c1, *c2)) && leveled_ciphertext(
                        l2,
                        *c2,
                        common_level(*c1, *c2),
                    ) && l1.moduli@ == l2.moduli@ && multiplied_ciphertext(p, l1, l2) && leveled_key(
                        lk,
                        key@,
                        eval_moduli@,
                        p.moduli@,
                    ) && relinearized_ciphertext(r->Ok_0, p, lk),
            },
        },
{
    let product = match mul_bgv(degree, plain_modulus, c1, c2) {
        Ok(p) => p,
        Err(e) => {
            return Err(e);
        },
    };
    let ghost gp = product;
    proof {
        let m = common_level(*c1, *c2);
        let (l1, l2) = choose|l1: BgvCiphertext, l2: BgvCiphertext|
            leveled_ciphertext(l1, *c1, common_level(*c1, *c2)) && leveled_ciphertext(l2, *c2, common_level(*c1, *c2))
                && l1.moduli@ == l2.moduli@ && multiplied_ciphertext(gp, l1, l2);
        if m == c1.moduli@.len() {
            assert(c1.moduli@.take(m) =~= c1.moduli@);
        }
        assert(gp.moduli@ == c1.moduli@.take(m));
    }
    let r = relinearize_bgv(degree, plain_modulus, eval_moduli, &product, key);
    proof {
        if r is Ok {
            let (l1, l2) = choose|l1: BgvCiphertext, l2: BgvCiphertext|
                leveled_ciphertext(l1, *c1, common_level(*c1, *c2)) && leveled_ciphertext(l2, *c2, common_level(*c1, *c2))
                    && l1.moduli@ == l2.moduli@ && multiplied_ciphertext(gp, l1, l2);
            let lk = choose|lk: Seq<Vec<Vec<Vec<u64>>>>|
                #[trigger] leveled_key(lk, key@, eval_moduli@, gp.moduli@) && relinearized_ciphertext(r->Ok_0, gp, lk);
            assert(leveled_ciphertext(l1, *c1, common_level(*c1, *c2)));
            assert(leveled_ciphertext(l2, *c2, common_level(*c1, *c2)));
            assert(multiplied_ciphertext(gp, l1, l2));
            assert(leveled_key(lk, key@, eval_moduli@, gp.moduli@));
        }
    }
    r
}

// ---------------------------------------------------------------------------
// Compatibility checks
// ---------------------------------------------------------------------------

/// Two ciphertexts are at the same level: they have as many ciphertext
/// moduli.
pub fn ensure_same_bgv_level(left_q_limbs: usize, right_q_limbs: usize) -> (r: Result<(), BgvLevelError>)
    ensures
        left_q_limbs == right_q_limbs ==> r is Ok,
        left_q_limbs != right_q_limbs ==> r == Err::<(), BgvLevelError>(
            BgvLevelError::CiphertextLevelMismatch { left: left_q_limbs, right: right_q_limbs },
        ),
{
    if left_q_limbs != right_q_limbs {
        return Err(BgvLevelError::CiphertextLevelMismatch { left: left_q_limbs, right: right_q_limbs });
    }
    Ok(())
}

/// Two ciphertexts share their modulus chain: same level, then the same
/// moduli in the same order.
pub fn ensure_same_bgv_modulus_chain(left_moduli: &Vec<u64>, right_moduli: &Vec<u64>) -> (r: Result<
    (),
    BgvLevelError,
>)
    ensures
        left_moduli@.len() != right_moduli@.len() ==> r == Err::<(), BgvLevelError>(
            BgvLevelError::CiphertextLevelMismatch {
                left: left_moduli@.len() as usize,
                right: right_moduli@.len() as usize,
            },
        ),
        left_moduli@.len() == right_moduli@.len() && left_moduli@ != right_moduli@ ==> r == Err::<
            (),
            BgvLevelError,
        >(BgvLevelError::CiphertextModulusChainMismatch),
        left_moduli@ == right_moduli@ ==> r is Ok,
{
    match ensure_same_bgv_level(left_moduli.len(), right_moduli.len()) {
        Ok(()) => {},
        Err(e) => {
            return Err(e);
        },
    }
    let mut i: usize = 0;
    while i < left_moduli.len()
        invariant
            left_moduli@.len() == right_moduli@.len(),
            i <= left_moduli@.len(),
            forall|k: int| 0 <= k < i ==> left_moduli@[k] == right_moduli@[k],
        decreases left_moduli@.len() - i,
    {
        if left_moduli[i] != right_moduli[i] {
            return Err(BgvLevelError::CiphertextModulusChainMismatch);
        }
        i += 1;
    }
    proof {
        assert(left_moduli@ =~= right_moduli@);
    }
    Ok(())
}

/// A Galois element needs a key unless it is the identity `1`.
pub open spec fn key_present(element: u32, available: Seq<u32>) -> bool {
    element == 1 || available.contains(element)
}

/// The first baby step, from term `j` on, with no key.
pub open spec fn first_missing_baby(terms: Seq<BgvDiagonalBsgsTerm>, available: Seq<u32>, j: int) -> Option<
    u32,
>
    decreases terms.len() - j,
{
    if j < 0 || j >= terms.len() {
        None
    } else if !key_present(terms[j].baby, available) {
        Some(terms[j].baby)
    } else {
        first_missing_baby(terms, available, j + 1)
    }
}

/// The first missing baby from term `j` is the baby of the first term at or
/// after `j` with no key, and there is none exactly when every baby from `j`
/// on has a key.
pub proof fn lemma_first_missing_baby_is_first(terms: Seq<BgvDiagonalBsgsTerm>, available: Seq<u32>, j: int)
    requires
        0 <= j,
    ensures
        first_missing_baby(terms, available, j) is None <==> forall|k: int|
            j <= k < terms.len() ==> key_present(#[trigger] terms[k].baby, available),
        first_missing_baby(terms, available, j) is Some ==> exists|k: int|
            j <= k < terms.len() && !key_present(#[trigger] terms[k].baby, available)
                && first_missing_baby(terms, available, j) == Some(terms[k].baby) && forall|i: int|
                j <= i < k ==> key_present(#[trigger] terms[i].baby, available),
    decreases terms.len() - j,
{
    if j < terms.len() {
        lemma_first_missing_baby_is_first(terms, available, j + 1);
        if key_present(terms[j].baby, available) {
            if first_missing_baby(terms, available, j) is Some {
                let k = choose|k: int|
                    j + 1 <= k < terms.len() && !key_present(#[trigger] terms[k].baby, available)
                        && first_missing_baby(terms, available, j + 1) == Some(terms[k].baby)
                        && forall|i: int| j + 1 <= i < k ==> key_present(#[trigger] terms[i].baby, available);
                assert(j <= k);
            }
        }
    }
}

/// The first element, from group `g` on, with no key: each group's giant
/// step, then its baby steps in order.
pub open spec fn first_missing_bsgs_key(
    groups: Seq<BgvDiagonalBsgsGroup>,
    available: Seq<u32>,
    g: int,
) -> Option<u32>
    decreases groups.len() - g,
{
    if g < 0 || g >= groups.len() {
        None
    } else if !key_present(groups[g].giant, available) {
        Some(groups[g].giant)
    } else {
        match first_missing_baby(groups[g].terms@, available, 0) {
            Some(e) => Some(e),
            None => first_missing_bsgs_key(groups, available, g + 1),
        }
    }
}

proof fn lemma_first_missing_baby_prefix(terms: Seq<BgvDiagonalBsgsTerm>, available: Seq<u32>, i: int, k: int)
    requires
        0 <= i <= k <= terms.len(),
        forall|j: int| i <= j < k ==> key_present(#[trigger] terms[j].baby, available),
    ensures
        first_missing_baby(terms, available, i) == first_missing_baby(terms, available, k),
    decreases k - i,
{
    if i < k {
        lemma_first_missing_baby_prefix(terms, available, i + 1, k);
    }
}

proof fn lemma_first_missing_key_prefix(groups: Seq<BgvDiagonalBsgsGroup>, available: Seq<u32>, i: int, k: int)
    requires
        0 <= i <= k <= groups.len(),
        forall|g: int|
            i <= g < k ==> key_present((#[trigger] groups[g]).giant, available) && first_missing_baby(
                groups[g].terms@,
                available,
                0,
            ) is None,
    ensures
        first_missing_bsgs_key(groups, available, i) == first_missing_bsgs_key(groups, available, k),
    decreases k - i,
{
    if i < k {
        lemma_first_missing_key_prefix(groups, available, i + 1, k);
    }
}

/// Checks that a key is available for every giant and baby step of a
/// grouped baby-step giant-step transform, and reports the first one
/// missing.
pub fn ensure_bsgs_galois_keys(groups: &Vec<BgvDiagonalBsgsGroup>, available: &Vec<u32>) -> (r: Result<
    (),
    BgvLevelError,
>)
    ensures
        match first_missing_bsgs_key(groups@, available@, 0) {
            Some(e) => r == Err::<(), BgvLevelError>(BgvLevelError::MissingGaloisKey { index: e }),
            None => r is Ok,
        },
{
    let mut g: usize = 0;
    while g < groups.len()
        invariant
            g <= groups@.len(),
            forall|gg: int|
                0 <= gg < g ==> key_present((#[trigger] groups@[gg]).giant, available@)
                    && first_missing_baby(groups@[gg].terms@, available@, 0) is None,
        decreases groups@.len() - g,
    {
        let group = &groups[g];
        if group.giant != 1 && !vec_contains_u32(available, group.giant) {
            proof {
                lemma_first_missing_key_prefix(groups@, available@, 0, g as int);
            }
            return Err(BgvLevelError::MissingGaloisKey { index: group.giant });
        }
        let mut j: usize = 0;
        while j < group.terms.len()
            invariant
                g < groups@.len(),
                *group == groups@[g as int],
                key_present(group.giant, available@),
                forall|gg: int|
                    0 <= gg < g ==> key_present((#[trigger] groups@[gg]).giant, available@)
                        && first_missing_baby(groups@[gg].terms@, available@, 0) is None,
                j <= group.terms@.len(),
                forall|jj: int| 0 <= jj < j ==> key_present(#[trigger] group.terms@[jj].baby, available@),
            decreases group.terms@.len() - j,
        {
            let baby = group.terms[j].baby;
            if baby != 1 && !vec_contains_u32(available, baby) {
                proof {
                    lemma_first_missing_baby_prefix(group.terms@, available@, 0, j as int);
                    lemma_first_missing_key_prefix(groups@, available@, 0, g as int);
                }
                return Err(BgvLevelError::MissingGaloisKey { index: baby });
            }
            j += 1;
        }
        proof {
            lemma_first_missing_baby_prefix(group.terms@, available@, 0, j as int);
        }
        g += 1;
    }
    proof {
        lemma_first_missing_key_prefix(groups@, available@, 0, g as int);
    }
    Ok(())
}

} // verus!
