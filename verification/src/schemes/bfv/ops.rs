//! Adding and subtracting RLWE ciphertexts held in coefficient form over the
//! RNS base.

use vstd::prelude::*;

use crate::modarith::{add_mod, sub_mod};
use crate::polymod::{components_reduced, limbs_reduced, linear_residue, LinearOp};

verus! {

/// Residue `[i][l][k]` of `c1 ± c2`: components of `c1` past those of `c2`
/// are kept as they are.
pub open spec fn combined_residue(
    c1: Seq<Vec<Vec<u64>>>,
    c2: Seq<Vec<Vec<u64>>>,
    moduli: Seq<u64>,
    op: LinearOp,
    i: int,
    l: int,
    k: int,
) -> int {
    if i < c2.len() {
        linear_residue(c1[i]@[l]@[k] as int, c2[i]@[l]@[k] as int, moduli[l] as int, op)
    } else {
        c1[i]@[l]@[k] as int
    }
}

fn combine_ciphertexts(
    c1: &Vec<Vec<Vec<u64>>>,
    c2: &Vec<Vec<Vec<u64>>>,
    moduli: &Vec<u64>,
    degree: usize,
    op: LinearOp,
) -> (r: Vec<Vec<Vec<u64>>>)
    requires
        components_reduced(c1@, moduli@, degree as int),
        components_reduced(c2@, moduli@, degree as int),
    ensures
        r@.len() == c1@.len(),
        components_reduced(r@, moduli@, degree as int),
        forall|i: int, l: int, k: int|
            0 <= i < c1@.len() && 0 <= l < moduli@.len() && 0 <= k < degree ==> #[trigger] r@[i]@[l]@[k]
                == combined_residue(c1@, c2@, moduli@, op, i, l, k),
{
    let mut out: Vec<Vec<Vec<u64>>> = Vec::new();
    let mut i: usize = 0;
    while i < c1.len()
        invariant
            components_reduced(c1@, moduli@, degree as int),
            components_reduced(c2@, moduli@, degree as int),
            i <= c1@.len(),
            out@.len() == i,
            components_reduced(out@, moduli@, degree as int),
            forall|ii: int, l: int, k: int|
                0 <= ii < i && 0 <= l < moduli@.len() && 0 <= k < degree ==> #[trigger] out@[ii]@[l]@[k]
                    == combined_residue(c1@, c2@, moduli@, op, ii, l, k),
        decreases c1@.len() - i,
    {
        proof {
            assert(limbs_reduced(c1@[i as int]@, moduli@, degree as int));
            if (i as int) < c2@.len() {
                assert(limbs_reduced(c2@[i as int]@, moduli@, degree as int));
            }
        }
        let mut component: Vec<Vec<u64>> = Vec::new();
        let mut l: usize = 0;
        while l < moduli.len()
            invariant
                components_reduced(c1@, moduli@, degree as int),
                components_reduced(c2@, moduli@, degree as int),
                i < c1@.len(),
                limbs_reduced(c1@[i as int]@, moduli@, degree as int),
                (i as int) < c2@.len() ==> limbs_reduced(c2@[i as int]@, moduli@, degree as int),
                l <= moduli@.len(),
                component@.len() == l,
                forall|ll: int| 0 <= ll < l ==> (#[trigger] component@[ll])@.len() == degree,
                forall|ll: int, k: int|
                    0 <= ll < l && 0 <= k < degree ==> #[trigger] component@[ll]@[k] < moduli@[ll],
                forall|ll: int, k: int|
                    0 <= ll < l && 0 <= k < degree ==> #[trigger] component@[ll]@[k] == combined_residue(
                        c1@,
                        c2@,
                        moduli@,
                        op,
                        i as int,
                        ll,
                        k,
                    ),
            decreases moduli@.len() - l,
        {
            let q = moduli[l];
            let mut limb: Vec<u64> = Vec::new();
            let mut k: usize = 0;
            while k < degree
                invariant
                    i < c1@.len(),
                    limbs_reduced(c1@[i as int]@, moduli@, degree as int),
                    (i as int) < c2@.len() ==> limbs_reduced(c2@[i as int]@, moduli@, degree as int),
                    l < moduli@.len(),
                    q == moduli@[l as int],
                    q > 0,
                    k <= degree,
                    limb@.len() == k,
                    forall|kk: int| 0 <= kk < k ==> #[trigger] limb@[kk] < q,
                    forall|kk: int|
                        0 <= kk < k ==> #[trigger] limb@[kk] == combined_residue(
                            c1@,
                            c2@,
                            moduli@,
                            op,
                            i as int,
                            l as int,
                            kk,
                        ),
                decreases degree - k,
            {
                let a = c1[i][l][k];
                if i < c2.len() {
                    let b = c2[i][l][k];
                    let v = match op {
                        LinearOp::Add => add_mod(a, b, q),
                        LinearOp::Sub => sub_mod(a, b, q),
                    };
                    limb.push(v);
                } else {
                    limb.push(a);
                }
                k += 1;
            }
            component.push(limb);
            l += 1;
        }
        proof {
            assert(limbs_reduced(component@, moduli@, degree as int));
        }
        let ghost before = out@;
        out.push(component);
        proof {
            assert forall|ii: int| 0 <= ii < out@.len() implies limbs_reduced(
                (#[trigger] out@[ii])@,
                moduli@,
                degree as int,
            ) by {
                if ii < i {
                    assert(out@[ii] == before[ii]);
                }
            }
        }
        i += 1;
    }
    out
}

/// `c1 + c2` component by component, for ciphertexts in coefficient form;
/// the result has the size of `c1`, whose components past those of `c2`
/// are kept.
pub fn add_ciphertexts(c1: &Vec<Vec<Vec<u64>>>, c2: &Vec<Vec<Vec<u64>>>, moduli: &Vec<u64>, degree: usize) -> (r: Vec<
    Vec<Vec<u64>>,
>)
    requires
        components_reduced(c1@, moduli@, degree as int),
        components_reduced(c2@, moduli@, degree as int),
    ensures
        r@.len() == c1@.len(),
        components_reduced(r@, moduli@, degree as int),
        forall|i: int, l: int, k: int|
            0 <= i < c1@.len() && 0 <= l < moduli@.len() && 0 <= k < degree ==> #[trigger] r@[i]@[l]@[k]
                == combined_residue(c1@, c2@, moduli@, LinearOp::Add, i, l, k),
{
    combine_ciphertexts(c1, c2, moduli, degree, LinearOp::Add)
}

/// `c1 − c2` component by component, for ciphertexts in coefficient form;
/// the result has the size of `c1`, whose components past those of `c2`
/// are kept.
pub fn sub_ciphertexts(c1: &Vec<Vec<Vec<u64>>>, c2: &Vec<Vec<Vec<u64>>>, moduli: &Vec<u64>, degree: usize) -> (r: Vec<
    Vec<Vec<u64>>,
>)
    requires
        components_reduced(c1@, moduli@, degree as int),
        components_reduced(c2@, moduli@, degree as int),
    ensures
        r@.len() == c1@.len(),
        components_reduced(r@, moduli@, degree as int),
        forall|i: int, l: int, k: int|
            0 <= i < c1@.len() && 0 <= l < moduli@.len() && 0 <= k < degree ==> #[trigger] r@[i]@[l]@[k]
                == combined_residue(c1@, c2@, moduli@, LinearOp::Sub, i, l, k),
{
    combine_ciphertexts(c1, c2, moduli, degree, LinearOp::Sub)
}

/// Subtracting what was added gives back every reduced residue, and adding
/// is commutative.
pub proof fn lemma_ciphertext_add_sub_undo(a: int, b: int, q: int)
    requires
        q > 0,
        0 <= a < q,
        0 <= b < q,
    ensures
        linear_residue(linear_residue(a, b, q, LinearOp::Add), b, q, LinearOp::Sub) == a,
        linear_residue(linear_residue(a, b, q, LinearOp::Sub), b, q, LinearOp::Add) == a,
        linear_residue(a, b, q, LinearOp::Add) == linear_residue(b, a, q, LinearOp::Add),
{
    vstd::arithmetic::div_mod::lemma_small_mod(a as nat, q as nat);
    vstd::arithmetic::div_mod::lemma_small_mod(b as nat, q as nat);
    vstd::arithmetic::div_mod::lemma_sub_mod_noop(a + b, b, q);
    vstd::arithmetic::div_mod::lemma_add_mod_noop(a - b, b, q);
}

} // verus!
