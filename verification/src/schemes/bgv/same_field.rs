//! Same-field CRT classifiers of the BGV bootstrap.
//!
//! A coefficient of the raw decryption phase is known through its residues
//! modulo small auxiliary moduli `r_0, …, r_{k-1}`, all smaller than the
//! classifier plaintext modulus `t`.  For every auxiliary modulus the
//! classifier stores the indicator polynomials `χ_{m,a}` over `Z / t` with
//! `χ_{m,a}(x) = [x = a]` on `0 ≤ x < r_m`; a residue tuple `(a_0, …)` is then
//! selected by the product `∏ χ_{m,a_m}`.  The classifier lists the tuples
//! whose lookup value (a wrap count, or a plaintext-modulus-switch
//! correction) is non-zero, in lexicographic order.

use vstd::prelude::*;
use vstd::arithmetic::div_mod::{lemma_small_mod, lemma_mod_bound};

use crate::modarith::{
    centered, centered_residue_mod_plaintext, has_mod_inverse, is_mod_inverse, mul_mod,
    prefix_product, signed_i64_to_mod, signed_residue, sub_mod, is_prime, lemma_prime_unit,
};
use crate::polymod::{
    distinct_nodes_below, interpolation_possible, lagrange_denominator,
    lemma_prime_interpolation_possible, poly_value,
};
use crate::schemes::bgv::bootstrap::{interpolate_lagrange_mod, denominator_error, is_interpolant};
use crate::schemes::bgv::ciphertext::BgvPlaintextFactor;
use crate::schemes::bgv::crt::{crt_plan_wf, BgvBootstrapCrtWrapReconstructionPlan};
use crate::schemes::bgv::params::BgvLevelError;
use crate::wide::{int_abs, WideInt};

verus! {

/// Largest number of residue tuples a same-field classifier enumerates.
pub const MAX_SAME_FIELD_CRT_TUPLES: u64 = 4096;

// ---------------------------------------------------------------------------
// Tuple count
// ---------------------------------------------------------------------------

/// Outcome of validating the first `n` auxiliary moduli against the
/// classifier modulus `t`: each must be smaller than `t`, and the running
/// product must stay within `u64` and within the tuple limit.
pub open spec fn tuple_count_check(t: u64, aux: Seq<u64>, n: int) -> Result<u64, BgvLevelError>
    decreases n,
{
    if n <= 0 {
        Ok(1)
    } else {
        match tuple_count_check(t, aux, n - 1) {
            Err(e) => Err(e),
            Ok(count) => {
                let r = aux[n - 1];
                let next = count * r;
                if t <= r {
                    Err(
                        BgvLevelError::BootstrapSameFieldCrtResidueModulusTooLarge {
                            classifier_modulus: t,
                            residue_modulus: r,
                        },
                    )
                } else if next > u64::MAX {
                    Err(
                        BgvLevelError::BootstrapSameFieldCrtTupleCountTooLarge {
                            tuple_count: u64::MAX,
                            max_tuples: MAX_SAME_FIELD_CRT_TUPLES,
                        },
                    )
                } else if next > MAX_SAME_FIELD_CRT_TUPLES {
                    Err(
                        BgvLevelError::BootstrapSameFieldCrtTupleCountTooLarge {
                            tuple_count: next as u64,
                            max_tuples: MAX_SAME_FIELD_CRT_TUPLES,
                        },
                    )
                } else {
                    Ok(next as u64)
                }
            },
        }
    }
}

/// The auxiliary moduli admit a same-field classifier over `Z / t`.
pub open spec fn tuple_count_ok(t: u64, aux: Seq<u64>) -> bool {
    tuple_count_check(t, aux, aux.len() as int) is Ok
}

proof fn lemma_tuple_count_ok_prefix(t: u64, aux: Seq<u64>, n: int)
    requires
        0 <= n <= aux.len(),
        tuple_count_check(t, aux, n) is Ok,
    ensures
        tuple_count_check(t, aux, n)->Ok_0 == prefix_product(aux, n),
        prefix_product(aux, n) <= MAX_SAME_FIELD_CRT_TUPLES,
        forall|i: int| 0 <= i < n ==> #[trigger] aux[i] < t,
    decreases n,
{
    if n > 0 {
        lemma_tuple_count_ok_prefix(t, aux, n - 1);
    }
}

proof fn lemma_tuple_count_err_sticks(t: u64, aux: Seq<u64>, n: int, k: int)
    requires
        0 <= n <= k,
        tuple_count_check(t, aux, n) is Err,
    ensures
        tuple_count_check(t, aux, k) == tuple_count_check(t, aux, n),
    decreases k - n,
{
    if k > n {
        lemma_tuple_count_err_sticks(t, aux, n, k - 1);
    }
}

/// Number of residue tuples `∏ r_m`, after checking every auxiliary modulus
/// against the classifier modulus and the product against the tuple limit.
pub fn same_field_crt_tuple_count(classifier_plain_modulus: u64, auxiliary_plain_moduli: &Vec<u64>) -> (r:
    Result<u64, BgvLevelError>)
    ensures
        r == tuple_count_check(
            classifier_plain_modulus,
            auxiliary_plain_moduli@,
            auxiliary_plain_moduli@.len() as int,
        ),
        r is Ok ==> r->Ok_0 == prefix_product(
            auxiliary_plain_moduli@,
            auxiliary_plain_moduli@.len() as int,
        ) && r->Ok_0 <= MAX_SAME_FIELD_CRT_TUPLES && forall|i: int|
            0 <= i < auxiliary_plain_moduli@.len() ==> #[trigger] auxiliary_plain_moduli@[i]
                < classifier_plain_modulus,
{
    let t = classifier_plain_modulus;
    let ghost aux = auxiliary_plain_moduli@;
    let n = auxiliary_plain_moduli.len();
    let mut count: u64 = 1;
    let mut i: usize = 0;
    while i < n
        invariant
            n == aux.len(),
            aux == auxiliary_plain_moduli@,
            t == classifier_plain_modulus,
            i <= n,
            tuple_count_check(t, aux, i as int) == Ok::<u64, BgvLevelError>(count),
        decreases n - i,
    {
        let residue_modulus = auxiliary_plain_moduli[i];
        if t <= residue_modulus {
            proof {
                assert(tuple_count_check(t, aux, i + 1) == Err::<u64, BgvLevelError>(
                    BgvLevelError::BootstrapSameFieldCrtResidueModulusTooLarge {
                        classifier_modulus: t,
                        residue_modulus,
                    },
                ));
                lemma_tuple_count_err_sticks(t, aux, i + 1, n as int);
            }
            return Err(
                BgvLevelError::BootstrapSameFieldCrtResidueModulusTooLarge {
                    classifier_modulus: t,
                    residue_modulus,
                },
            );
        }
        match count.checked_mul(residue_modulus) {
            None => {
                proof {
                    lemma_tuple_count_err_sticks(t, aux, i + 1, n as int);
                }
                return Err(
                    BgvLevelError::BootstrapSameFieldCrtTupleCountTooLarge {
                        tuple_count: u64::MAX,
                        max_tuples: MAX_SAME_FIELD_CRT_TUPLES,
                    },
                );
            },
            Some(next) => {
                if next > MAX_SAME_FIELD_CRT_TUPLES {
                    proof {
                        assert(tuple_count_check(t, aux, i + 1) == Err::<u64, BgvLevelError>(
                            BgvLevelError::BootstrapSameFieldCrtTupleCountTooLarge {
                                tuple_count: next,
                                max_tuples: MAX_SAME_FIELD_CRT_TUPLES,
                            },
                        ));
                        lemma_tuple_count_err_sticks(t, aux, i + 1, n as int);
                    }
                    return Err(
                        BgvLevelError::BootstrapSameFieldCrtTupleCountTooLarge {
                            tuple_count: next,
                            max_tuples: MAX_SAME_FIELD_CRT_TUPLES,
                        },
                    );
                }
                count = next;
            },
        }
        i += 1;
    }
    proof {
        lemma_tuple_count_ok_prefix(t, aux, n as int);
    }
    Ok(count)
}


// ---------------------------------------------------------------------------
// Indicator polynomials
// ---------------------------------------------------------------------------

/// Nodes of the indicator of `target` among the residues `0 ≤ x < r`:
/// value `1 mod t` at `x = target` and `0` at every other residue.
pub open spec fn indicator_points(r: u64, target: int, t: u64) -> Seq<(u64, u64)> {
    Seq::new(
        r as nat,
        |x: int| (x as u64, if x == target { (1u64 % t) as u64 } else { 0u64 }),
    )
}

/// Every indicator of every auxiliary modulus can be interpolated over `Z / t`.
pub open spec fn indicator_tables_possible(t: u64, aux: Seq<u64>) -> bool {
    forall|m: int, a: int|
        0 <= m < aux.len() && 0 <= a < aux[m] ==> interpolation_possible(
            #[trigger] indicator_points(aux[m], a, t),
            t as int,
        )
}

/// `tables[m][a]` is the interpolated indicator of residue `a` modulo `r_m`.
pub open spec fn are_indicator_tables(tables: Seq<Vec<Vec<u64>>>, t: u64, aux: Seq<u64>) -> bool {
    &&& tables.len() == aux.len()
    &&& forall|m: int| 0 <= m < aux.len() ==> (#[trigger] tables[m])@.len() == aux[m]
    &&& forall|m: int, a: int|
        0 <= m < aux.len() && 0 <= a < aux[m] ==> is_interpolant(
            (#[trigger] tables[m]@[a])@,
            indicator_points(aux[m], a, t),
            t as int,
        )
}

fn indicator_point_vec(r: u64, target: u64, t: u64) -> (v: Vec<(u64, u64)>)
    requires
        t > 0,
        r < usize::MAX,
    ensures
        v@ == indicator_points(r, target as int, t),
{
    let n = r as usize;
    let mut v: Vec<(u64, u64)> = Vec::new();
    let mut x: usize = 0;
    while x < n
        invariant
            n == r,
            t > 0,
            x <= n,
            v@.len() == x,
            forall|j: int| 0 <= j < x ==> #[trigger] v@[j] == indicator_points(r, target as int, t)[j],
        decreases n - x,
    {
        let xv = x as u64;
        let y: u64 = if xv == target {
            1 % t
        } else {
            0
        };
        v.push((xv, y));
        x += 1;
    }
    assert(v@ =~= indicator_points(r, target as int, t));
    v
}

fn indicator_polynomials_for(r: u64, t: u64) -> (res: Result<Vec<Vec<u64>>, BgvLevelError>)
    requires
        t > 0,
        r < usize::MAX,
    ensures
        res is Ok <==> forall|a: int|
            0 <= a < r ==> interpolation_possible(#[trigger] indicator_points(r, a, t), t as int),
        res is Ok ==> res->Ok_0@.len() == r && forall|a: int|
            0 <= a < r ==> is_interpolant(
                (#[trigger] res->Ok_0@[a])@,
                indicator_points(r, a, t),
                t as int,
            ),
        res is Err ==> exists|a: int, i: int|
            0 <= a < r && 0 <= i < r && !has_mod_inverse(
                lagrange_denominator(indicator_points(r, a, t), i, t as int),
                t as int,
            ) && res->Err_0 == denominator_error(indicator_points(r, a, t), i, t),
{
    let mut polys: Vec<Vec<u64>> = Vec::new();
    let mut target: u64 = 0;
    while target < r
        invariant
            t > 0,
            r < usize::MAX,
            target <= r,
            polys@.len() == target,
            forall|a: int|
                0 <= a < target ==> interpolation_possible(
                    #[trigger] indicator_points(r, a, t),
                    t as int,
                ),
            forall|a: int|
                0 <= a < target ==> is_interpolant(
                    (#[trigger] polys@[a])@,
                    indicator_points(r, a, t),
                    t as int,
                ),
        decreases r - target,
    {
        let points = indicator_point_vec(r, target, t);
        match interpolate_lagrange_mod(&points, t) {
            Ok(c) => {
                polys.push(c);
            },
            Err(e) => {
                return Err(e);
            },
        }
        target += 1;
    }
    Ok(polys)
}

/// The indicator polynomials `χ_{m,a}` of every residue `a` of every
/// auxiliary modulus `r_m`, interpolated over `Z / t`.  Fails with the first
/// Lagrange denominator that is not invertible modulo `t`.
pub fn same_field_indicator_scalar_coefficients(
    classifier_plain_modulus: u64,
    auxiliary_plain_moduli: &Vec<u64>,
) -> (r: Result<Vec<Vec<Vec<u64>>>, BgvLevelError>)
    requires
        classifier_plain_modulus > 0,
        forall|i: int|
            0 <= i < auxiliary_plain_moduli@.len() ==> #[trigger] auxiliary_plain_moduli@[i]
                < usize::MAX,
    ensures
        r is Ok <==> indicator_tables_possible(classifier_plain_modulus, auxiliary_plain_moduli@),
        r is Ok ==> are_indicator_tables(
            r->Ok_0@,
            classifier_plain_modulus,
            auxiliary_plain_moduli@,
        ),
        r is Ok ==> forall|m: int, a: int, x: int|
            #![trigger poly_value(r->Ok_0@[m]@[a]@, x)]
            0 <= m < auxiliary_plain_moduli@.len() && 0 <= a < auxiliary_plain_moduli@[m] && 0 <= x
                < auxiliary_plain_moduli@[m] ==> poly_value(r->Ok_0@[m]@[a]@, x)
                % (classifier_plain_modulus as int) == if x == a {
                1int % (classifier_plain_modulus as int)
            } else {
                0
            },
        r is Err ==> exists|m: int, a: int, i: int|
            0 <= m < auxiliary_plain_moduli@.len() && 0 <= a < auxiliary_plain_moduli@[m] && 0 <= i
                < auxiliary_plain_moduli@[m] && !has_mod_inverse(
                lagrange_denominator(
                    indicator_points(auxiliary_plain_moduli@[m], a, classifier_plain_modulus),
                    i,
                    classifier_plain_modulus as int,
                ),
                classifier_plain_modulus as int,
            ) && r->Err_0 == denominator_error(
                indicator_points(auxiliary_plain_moduli@[m], a, classifier_plain_modulus),
                i,
                classifier_plain_modulus,
            ),
{
    let t = classifier_plain_modulus;
    let ghost aux = auxiliary_plain_moduli@;
    let n = auxiliary_plain_moduli.len();
    let mut tables: Vec<Vec<Vec<u64>>> = Vec::new();
    let mut m: usize = 0;
    while m < n
        invariant
            t == classifier_plain_modulus,
            t > 0,
            aux == auxiliary_plain_moduli@,
            n == aux.len(),
            forall|i: int| 0 <= i < aux.len() ==> #[trigger] aux[i] < usize::MAX,
            m <= n,
            tables@.len() == m,
            forall|mm: int, a: int|
                0 <= mm < m && 0 <= a < aux[mm] ==> interpolation_possible(
                    #[trigger] indicator_points(aux[mm], a, t),
                    t as int,
                ),
            forall|mm: int| 0 <= mm < m ==> (#[trigger] tables@[mm])@.len() == aux[mm],
            forall|mm: int, a: int|
                0 <= mm < m && 0 <= a < aux[mm] ==> is_interpolant(
                    (#[trigger] tables@[mm]@[a])@,
                    indicator_points(aux[mm], a, t),
                    t as int,
                ),
        decreases n - m,
    {
        let residue_modulus = auxiliary_plain_moduli[m];
        match indicator_polynomials_for(residue_modulus, t) {
            Ok(polys) => {
                tables.push(polys);
            },
            Err(e) => {
                return Err(e);
            },
        }
        m += 1;
    }
    proof {
        assert forall|mm: int, a: int, x: int|
            #![trigger poly_value(tables@[mm]@[a]@, x)]
            0 <= mm < aux.len() && 0 <= a < aux[mm] && 0 <= x < aux[mm] implies poly_value(
            tables@[mm]@[a]@,
            x,
        ) % (t as int) == if x == a {
            1int % (t as int)
        } else {
            0
        } by {
            let pts = indicator_points(aux[mm], a, t);
            assert(is_interpolant(tables@[mm]@[a]@, pts, t as int));
            assert(pts[x].0 as int == x);
            assert(poly_value(tables@[mm]@[a]@, pts[x].0 as int) % (t as int) == (pts[x].1 as int)
                % (t as int));
            lemma_mod_bound(1, t as int);
            lemma_small_mod((1u64 % t) as nat, t as nat);
            lemma_small_mod(0, t as nat);
        }
    }
    Ok(tables)
}

// ---------------------------------------------------------------------------
// Residue tuples
// ---------------------------------------------------------------------------

/// The residue tuple with index `i` in lexicographic order, the first
/// auxiliary modulus being the most significant digit.
pub open spec fn residue_tuple(aux: Seq<u64>, i: int) -> Seq<u64>
    decreases aux.len(),
{
    if aux.len() == 0 {
        Seq::empty()
    } else {
        residue_tuple(aux.drop_last(), i / (aux.last() as int)).push(
            (i % (aux.last() as int)) as u64,
        )
    }
}

proof fn lemma_product_positive(aux: Seq<u64>, n: int)
    requires
        0 <= n <= aux.len(),
        prefix_product(aux, n) > 0,
    ensures
        forall|i: int| 0 <= i < n ==> #[trigger] aux[i] > 0,
    decreases n,
{
    if n > 0 {
        let p = prefix_product(aux, n - 1);
        assert(p >= 0) by {
            lemma_product_nonneg(aux, n - 1);
        }
        assert(p > 0 && aux[n - 1] > 0) by (nonlinear_arith)
            requires
                p >= 0,
                aux[n - 1] >= 0,
                p * (aux[n - 1] as int) > 0,
        ;
        lemma_product_positive(aux, n - 1);
    }
}

proof fn lemma_product_nonneg(aux: Seq<u64>, n: int)
    ensures
        prefix_product(aux, n) >= 0,
    decreases n,
{
    if n > 0 {
        lemma_product_nonneg(aux, n - 1);
        let p = prefix_product(aux, n - 1);
        assert(p * (aux[n - 1] as int) >= 0) by (nonlinear_arith)
            requires
                p >= 0,
                aux[n - 1] >= 0,
        ;
    }
}

/// The residue tuple with lexicographic index `index`.
pub fn same_field_crt_residue_tuple(auxiliary_plain_moduli: &Vec<u64>, index: u64) -> (r: Vec<u64>)
    requires
        forall|i: int|
            0 <= i < auxiliary_plain_moduli@.len() ==> #[trigger] auxiliary_plain_moduli@[i] > 0,
    ensures
        r@ == residue_tuple(auxiliary_plain_moduli@, index as int),
{
    let ghost aux = auxiliary_plain_moduli@;
    let n = auxiliary_plain_moduli.len();
    let mut digits: Vec<u64> = Vec::new();
    let mut j: usize = 0;
    while j < n
        invariant
            j <= n,
            digits@.len() == j,
        decreases n - j,
    {
        digits.push(0);
        j += 1;
    }
    let mut rem: u64 = index;
    let mut k: usize = n;
    proof {
        assert(aux.subrange(0, n as int) =~= aux);
        assert(digits@.subrange(n as int, n as int) =~= Seq::<u64>::empty());
        assert(residue_tuple(aux, index as int) =~= residue_tuple(aux.subrange(0, n as int), rem as int)
            + digits@.subrange(n as int, n as int));
    }
    while k > 0
        invariant
            aux == auxiliary_plain_moduli@,
            n == aux.len(),
            forall|i: int| 0 <= i < aux.len() ==> #[trigger] aux[i] > 0,
            k <= n,
            digits@.len() == n,
            residue_tuple(aux, index as int) == residue_tuple(aux.subrange(0, k as int), rem as int)
                + digits@.subrange(k as int, n as int),
        decreases k,
    {
        let r = auxiliary_plain_moduli[k - 1];
        let d = rem % r;
        let ghost old_rem = rem;
        let ghost old_digits = digits@;
        digits.set(k - 1, d);
        rem = rem / r;
        proof {
            let pre = aux.subrange(0, k as int);
            assert(pre.drop_last() =~= aux.subrange(0, k - 1));
            assert(pre.last() == r);
            assert(residue_tuple(pre, old_rem as int) == residue_tuple(
                aux.subrange(0, k - 1),
                rem as int,
            ).push(d));
            assert(residue_tuple(aux.subrange(0, k - 1), rem as int).push(d) + old_digits.subrange(
                k as int,
                n as int,
            ) =~= residue_tuple(aux.subrange(0, k - 1), rem as int) + digits@.subrange(
                k - 1,
                n as int,
            ));
        }
        k -= 1;
    }
    proof {
        assert(aux.subrange(0, 0) =~= Seq::<u64>::empty());
        assert(digits@.subrange(0, n as int) =~= digits@);
        assert(residue_tuple(aux, index as int) =~= digits@);
    }
    digits
}

/// Every residue tuple, in lexicographic order.
pub fn same_field_crt_residue_tuples(auxiliary_plain_moduli: &Vec<u64>, tuple_count: u64) -> (r: Vec<
    Vec<u64>,
>)
    requires
        tuple_count == prefix_product(auxiliary_plain_moduli@, auxiliary_plain_moduli@.len() as int),
        tuple_count < usize::MAX,
    ensures
        r@.len() == tuple_count,
        forall|i: int|
            0 <= i < tuple_count ==> (#[trigger] r@[i])@ == residue_tuple(auxiliary_plain_moduli@, i),
{
    let mut tuples: Vec<Vec<u64>> = Vec::new();
    if tuple_count > 0 {
        proof {
            lemma_product_positive(
                auxiliary_plain_moduli@,
                auxiliary_plain_moduli@.len() as int,
            );
        }
    }
    let mut i: u64 = 0;
    while i < tuple_count
        invariant
            i <= tuple_count,
            tuple_count > 0 ==> forall|j: int|
                0 <= j < auxiliary_plain_moduli@.len() ==> #[trigger] auxiliary_plain_moduli@[j] > 0,
            tuples@.len() == i,
            forall|j: int|
                0 <= j < i ==> (#[trigger] tuples@[j])@ == residue_tuple(auxiliary_plain_moduli@, j),
        decreases tuple_count - i,
    {
        let tuple = same_field_crt_residue_tuple(auxiliary_plain_moduli, i);
        tuples.push(tuple);
        i += 1;
    }
    tuples
}

// ---------------------------------------------------------------------------
// Wrap-count classifier
// ---------------------------------------------------------------------------

/// A residue tuple whose reconstructed phase wraps around the ciphertext
/// modulus `wrap_count ≠ 0` times; `wrap_scalar` is `wrap_count mod t`.
#[derive(Clone, Debug, PartialEq, Eq)]
pub struct BgvBootstrapSameFieldCrtWrapTerm {
    pub residues: Vec<u64>,
    pub wrap_count: i64,
    pub wrap_scalar: u64,
}

/// Lookup tables that turn encrypted CRT residues of a raw phase coefficient
/// into its wrap count, evaluated in the classifier plaintext space `Z / t`.
#[derive(Clone, Debug, PartialEq, Eq)]
pub struct BgvBootstrapSameFieldCrtWrapClassifier {
    pub source_degree: usize,
    pub classifier_plain_modulus: u64,
    pub auxiliary_plain_moduli: Vec<u64>,
    pub max_abs_wrap_count: u64,
    pub tuple_count: u64,
    pub indicator_scalar_coefficients: Vec<Vec<Vec<u64>>>,
    pub nonzero_terms: Vec<BgvBootstrapSameFieldCrtWrapTerm>,
}

/// How the CRT plan classified one residue tuple: reconstruction failed
/// (`Err`), the reconstructed phase lies in no wrap interval (`Ok(None)`), or
/// it lies in the interval of the given wrap count.
pub open spec fn wrap_classified(c: Result<Option<i64>, BgvLevelError>) -> bool {
    c is Ok && c->Ok_0 is Some
}

/// Indices, among the first `n` tuples, of those with a non-zero wrap count.
pub open spec fn wrap_term_indices(classes: Seq<Result<Option<i64>, BgvLevelError>>, n: int) -> Seq<
    int,
>
    decreases n,
{
    if n <= 0 {
        Seq::empty()
    } else {
        let prev = wrap_term_indices(classes, n - 1);
        if wrap_classified(classes[n - 1]) && classes[n - 1]->Ok_0->Some_0 != 0 {
            prev.push(n - 1)
        } else {
            prev
        }
    }
}

/// A tuple carries a non-zero wrap count.
pub open spec fn has_wrap_term(classes: Seq<Result<Option<i64>, BgvLevelError>>, i: int) -> bool {
    wrap_classified(classes[i]) && classes[i]->Ok_0->Some_0 != 0
}

/// The wrap-term indices among the first `n` tuples are, in increasing
/// order, exactly the tuples with a non-zero wrap count.
pub proof fn lemma_wrap_term_indices_exact(classes: Seq<Result<Option<i64>, BgvLevelError>>, n: int)
    ensures
        forall|a: int, b: int|
            0 <= a < b < wrap_term_indices(classes, n).len() ==> #[trigger] wrap_term_indices(
                classes,
                n,
            )[a] < #[trigger] wrap_term_indices(classes, n)[b],
        forall|a: int|
            0 <= a < wrap_term_indices(classes, n).len() ==> 0 <= #[trigger] wrap_term_indices(
                classes,
                n,
            )[a] < n && has_wrap_term(classes, wrap_term_indices(classes, n)[a]),
        forall|i: int|
            0 <= i < n && #[trigger] has_wrap_term(classes, i) ==> wrap_term_indices(
                classes,
                n,
            ).contains(i),
    decreases n,
{
    if n > 0 {
        lemma_wrap_term_indices_exact(classes, n - 1);
        let prev = wrap_term_indices(classes, n - 1);
        let cur = wrap_term_indices(classes, n);
        if has_wrap_term(classes, n - 1) {
            assert(cur == prev.push(n - 1));
            assert forall|i: int| 0 <= i < n && #[trigger] has_wrap_term(classes, i) implies cur.contains(
                i,
            ) by {
                if i < n - 1 {
                    let a = choose|a: int| 0 <= a < prev.len() && prev[a] == i;
                    assert(cur[a] == i);
                } else {
                    assert(cur[prev.len() as int] == i);
                }
            }
        } else {
            assert(cur == prev);
        }
    }
}

/// The error reported for the first tuple `e` that was not classified: the
/// reconstruction error itself, or an out-of-range error carrying the number
/// of terms collected so far.
pub open spec fn wrap_class_error(classes: Seq<Result<Option<i64>, BgvLevelError>>, e: int) -> BgvLevelError {
    match classes[e] {
        Err(x) => x,
        Ok(_) => BgvLevelError::BootstrapCrtReconstructionOutOfRange {
            coefficient: wrap_term_indices(classes, e).len() as usize,
        },
    }
}

/// `terms` lists, in tuple order, every tuple with a non-zero wrap count.
pub open spec fn are_wrap_terms(
    terms: Seq<BgvBootstrapSameFieldCrtWrapTerm>,
    aux: Seq<u64>,
    classes: Seq<Result<Option<i64>, BgvLevelError>>,
    t: u64,
) -> bool {
    let idx = wrap_term_indices(classes, classes.len() as int);
    &&& terms.len() == idx.len()
    &&& forall|j: int|
        0 <= j < terms.len() ==> {
            &&& (#[trigger] terms[j]).residues@ == residue_tuple(aux, idx[j])
            &&& classes[idx[j]] == Ok::<Option<i64>, BgvLevelError>(Some(terms[j].wrap_count))
            &&& terms[j].wrap_count != 0
            &&& terms[j].wrap_scalar == signed_residue(terms[j].wrap_count as int, t as int)
        }
}

/// Outcome of collecting wrap terms from the tuple classifications.
pub open spec fn wrap_terms_result(
    r: Result<Vec<BgvBootstrapSameFieldCrtWrapTerm>, BgvLevelError>,
    aux: Seq<u64>,
    classes: Seq<Result<Option<i64>, BgvLevelError>>,
    t: u64,
) -> bool {
    &&& r is Ok <==> forall|i: int| 0 <= i < classes.len() ==> wrap_classified(#[trigger] classes[i])
    &&& r is Ok ==> are_wrap_terms(r->Ok_0@, aux, classes, t)
    &&& r is Err ==> exists|e: int|
        0 <= e < classes.len() && (forall|i: int|
            0 <= i < e ==> wrap_classified(#[trigger] classes[i])) && !wrap_classified(classes[e])
            && r->Err_0 == wrap_class_error(classes, e)
}

proof fn lemma_wrap_term_indices_bounded(classes: Seq<Result<Option<i64>, BgvLevelError>>, n: int)
    ensures
        wrap_term_indices(classes, n).len() <= if n < 0 { 0 } else { n },
        forall|j: int|
            0 <= j < wrap_term_indices(classes, n).len() ==> 0 <= #[trigger] wrap_term_indices(
                classes,
                n,
            )[j] < n,
    decreases n,
{
    if n > 0 {
        lemma_wrap_term_indices_bounded(classes, n - 1);
    }
}

/// Collects, in lexicographic tuple order, the tuples whose wrap count is
/// non-zero; `tuple_wrap_counts[i]` is the plan's classification of the tuple
/// with index `i`.
pub fn same_field_crt_wrap_terms(
    auxiliary_plain_moduli: &Vec<u64>,
    tuple_wrap_counts: &Vec<Result<Option<i64>, BgvLevelError>>,
    classifier_plain_modulus: u64,
) -> (r: Result<Vec<BgvBootstrapSameFieldCrtWrapTerm>, BgvLevelError>)
    requires
        classifier_plain_modulus > 0,
        tuple_wrap_counts@.len() == prefix_product(
            auxiliary_plain_moduli@,
            auxiliary_plain_moduli@.len() as int,
        ),
    ensures
        wrap_terms_result(
            r,
            auxiliary_plain_moduli@,
            tuple_wrap_counts@,
            classifier_plain_modulus,
        ),
{
    let ghost aux = auxiliary_plain_moduli@;
    let ghost classes = tuple_wrap_counts@;
    let t = classifier_plain_modulus;
    let n = tuple_wrap_counts.len();
    if n > 0 {
        proof {
            lemma_product_positive(aux, aux.len() as int);
        }
    }
    let mut terms: Vec<BgvBootstrapSameFieldCrtWrapTerm> = Vec::new();
    let mut i: usize = 0;
    while i < n
        invariant
            aux == auxiliary_plain_moduli@,
            classes == tuple_wrap_counts@,
            t == classifier_plain_modulus,
            t > 0,
            n == classes.len(),
            n > 0 ==> forall|k: int| 0 <= k < aux.len() ==> #[trigger] aux[k] > 0,
            i <= n,
            forall|k: int| 0 <= k < i ==> wrap_classified(#[trigger] classes[k]),
            terms@.len() == wrap_term_indices(classes, i as int).len(),
            forall|j: int|
                0 <= j < terms@.len() ==> {
                    let idx = wrap_term_indices(classes, i as int);
                    &&& (#[trigger] terms@[j]).residues@ == residue_tuple(aux, idx[j])
                    &&& classes[idx[j]] == Ok::<Option<i64>, BgvLevelError>(
                        Some(terms@[j].wrap_count),
                    )
                    &&& terms@[j].wrap_count != 0
                    &&& terms@[j].wrap_scalar == signed_residue(
                        terms@[j].wrap_count as int,
                        t as int,
                    )
                },
        decreases n - i,
    {
        proof {
            lemma_wrap_term_indices_bounded(classes, i as int);
        }
        match &tuple_wrap_counts[i] {
            Err(e) => {
                let err = *e;
                proof {
                    assert(!wrap_classified(classes[i as int]));
                    assert(err == wrap_class_error(classes, i as int));
                }
                return Err(err);
            },
            Ok(None) => {
                let err = BgvLevelError::BootstrapCrtReconstructionOutOfRange {
                    coefficient: terms.len(),
                };
                proof {
                    assert(!wrap_classified(classes[i as int]));
                    assert(err == wrap_class_error(classes, i as int));
                }
                return Err(err);
            },
            Ok(Some(w)) => {
                let wrap = *w;
                if wrap != 0 {
                    let residues = same_field_crt_residue_tuple(auxiliary_plain_moduli, i as u64);
                    let wrap_scalar = signed_i64_to_mod(wrap, t);
                    terms.push(BgvBootstrapSameFieldCrtWrapTerm { residues, wrap_count: wrap, wrap_scalar });
                    proof {
                        assert(wrap_term_indices(classes, i + 1) == wrap_term_indices(classes, i as int).push(
                            i as int,
                        ));
                    }
                }
            },
        }
        i += 1;
    }
    proof {
        assert(are_wrap_terms(terms@, aux, classes, t));
    }
    Ok(terms)
}

/// What `same_field_crt_wrap_classifier_from_classes` returns, stated over its inputs.
pub open spec fn crt_wrap_classifier_outcome(
    r: Result<BgvBootstrapSameFieldCrtWrapClassifier, BgvLevelError>,
    classifier_degree: usize,
    classifier_plain_modulus: u64,
    crt_degree: usize,
    auxiliary_plain_moduli: Seq<u64>,
    max_abs_wrap_count: u64,
    tuple_wrap_counts: Seq<Result<Option<i64>, BgvLevelError>>,
) -> bool {
    &&& (classifier_degree != crt_degree ==> r == Err::<
        BgvBootstrapSameFieldCrtWrapClassifier,
        BgvLevelError,
    >(BgvLevelError::CiphertextDegreeMismatch { expected: crt_degree, actual: classifier_degree }))
    &&& (classifier_degree == crt_degree && !tuple_count_ok(
        classifier_plain_modulus,
        auxiliary_plain_moduli,
    ) ==> r == Err::<BgvBootstrapSameFieldCrtWrapClassifier, BgvLevelError>(
        tuple_count_check(
            classifier_plain_modulus,
            auxiliary_plain_moduli,
            auxiliary_plain_moduli.len() as int,
        )->Err_0,
    ))
    &&& (classifier_degree == crt_degree && tuple_count_ok(
        classifier_plain_modulus,
        auxiliary_plain_moduli,
    ) && !indicator_tables_possible(classifier_plain_modulus, auxiliary_plain_moduli) ==> (r
        is Err && exists|m: int, a: int, i: int|
        0 <= m < auxiliary_plain_moduli.len() && 0 <= a < auxiliary_plain_moduli[m] && 0 <= i
            < auxiliary_plain_moduli[m] && !has_mod_inverse(
            lagrange_denominator(
                indicator_points(auxiliary_plain_moduli[m], a, classifier_plain_modulus),
                i,
                classifier_plain_modulus as int,
            ),
            classifier_plain_modulus as int,
        ) && r->Err_0 == denominator_error(
            indicator_points(auxiliary_plain_moduli[m], a, classifier_plain_modulus),
            i,
            classifier_plain_modulus,
        )))
    &&& (classifier_degree == crt_degree && tuple_count_ok(
        classifier_plain_modulus,
        auxiliary_plain_moduli,
    ) && indicator_tables_possible(classifier_plain_modulus, auxiliary_plain_moduli) ==> ({
        let terms_r = match r {
            Ok(c) => Ok::<Vec<BgvBootstrapSameFieldCrtWrapTerm>, BgvLevelError>(c.nonzero_terms),
            Err(e) => Err(e),
        };
        wrap_terms_result(
            terms_r,
            auxiliary_plain_moduli,
            tuple_wrap_counts,
            classifier_plain_modulus,
        )
    }))
    &&& (r is Ok ==> {
        let c = r->Ok_0;
        &&& c.source_degree == crt_degree
        &&& c.classifier_plain_modulus == classifier_plain_modulus
        &&& c.auxiliary_plain_moduli@ == auxiliary_plain_moduli
        &&& c.max_abs_wrap_count == max_abs_wrap_count
        &&& c.tuple_count == prefix_product(
            auxiliary_plain_moduli,
            auxiliary_plain_moduli.len() as int,
        )
        &&& are_indicator_tables(
            c.indicator_scalar_coefficients@,
            classifier_plain_modulus,
            auxiliary_plain_moduli,
        )
    })
}

/// The wrap-count classifier of a CRT wrap-reconstruction plan: validates the
/// auxiliary moduli against the classifier modulus `t`, interpolates every
/// residue indicator over `Z / t`, and lists the residue tuples with a
/// non-zero wrap count.  `tuple_wrap_counts[i]` is the plan's classification
/// of the residue tuple with lexicographic index `i`.
pub fn same_field_crt_wrap_classifier_from_classes(
    classifier_degree: usize,
    classifier_plain_modulus: u64,
    crt_degree: usize,
    auxiliary_plain_moduli: &Vec<u64>,
    max_abs_wrap_count: u64,
    tuple_wrap_counts: &Vec<Result<Option<i64>, BgvLevelError>>,
) -> (r: Result<BgvBootstrapSameFieldCrtWrapClassifier, BgvLevelError>)
    requires
        classifier_plain_modulus > 0,
        tuple_count_ok(classifier_plain_modulus, auxiliary_plain_moduli@) ==> {
            &&& tuple_wrap_counts@.len() == prefix_product(
                auxiliary_plain_moduli@,
                auxiliary_plain_moduli@.len() as int,
            )
            &&& forall|i: int|
                0 <= i < auxiliary_plain_moduli@.len() ==> #[trigger] auxiliary_plain_moduli@[i]
                    < usize::MAX
        },
    ensures
        crt_wrap_classifier_outcome(
            r,
            classifier_degree,
            classifier_plain_modulus,
            crt_degree,
            auxiliary_plain_moduli@,
            max_abs_wrap_count,
            tuple_wrap_counts@,
        ),
{
    if classifier_degree != crt_degree {
        return Err(
            BgvLevelError::CiphertextDegreeMismatch { expected: crt_degree, actual: classifier_degree },
        );
    }
    let tuple_count = match same_field_crt_tuple_count(classifier_plain_modulus, auxiliary_plain_moduli) {
        Ok(c) => c,
        Err(e) => {
            return Err(e);
        },
    };
    let indicator_scalar_coefficients = match same_field_indicator_scalar_coefficients(
        classifier_plain_modulus,
        auxiliary_plain_moduli,
    ) {
        Ok(tables) => tables,
        Err(e) => {
            return Err(e);
        },
    };
    let nonzero_terms = match same_field_crt_wrap_terms(
        auxiliary_plain_moduli,
        tuple_wrap_counts,
        classifier_plain_modulus,
    ) {
        Ok(terms) => terms,
        Err(e) => {
            return Err(e);
        },
    };
    Ok(
        BgvBootstrapSameFieldCrtWrapClassifier {
            source_degree: crt_degree,
            classifier_plain_modulus,
            auxiliary_plain_moduli: auxiliary_plain_moduli.clone(),
            max_abs_wrap_count,
            tuple_count,
            indicator_scalar_coefficients,
            nonzero_terms,
        },
    )
}

// ---------------------------------------------------------------------------
// Plaintext-modulus-switch correction classifier
// ---------------------------------------------------------------------------

/// A residue tuple whose plaintext-modulus switch needs the non-zero
/// correction `correction_scalar` (taken modulo the classifier modulus).
#[derive(Clone, Debug, PartialEq, Eq)]
pub struct BgvBootstrapSameFieldPlaintextModulusSwitchCorrectionTerm {
    pub residues: Vec<u64>,
    pub correction_scalar: u64,
}

/// Lookup tables that turn encrypted CRT residues of a raw phase coefficient
/// into the correction that moves its plaintext from modulus `s` to the
/// target modulus.
#[derive(Clone, Debug, PartialEq, Eq)]
pub struct BgvBootstrapSameFieldPlaintextModulusSwitchCorrectionClassifier {
    pub source_degree: usize,
    pub classifier_plain_modulus: u64,
    pub source_plain_modulus: u64,
    pub target_plain_modulus: u64,
    pub source_factor_inverse: u64,
    pub auxiliary_plain_moduli: Vec<u64>,
    pub tuple_count: u64,
    pub indicator_scalar_coefficients: Vec<Vec<Vec<u64>>>,
    pub nonzero_terms: Vec<BgvBootstrapSameFieldPlaintextModulusSwitchCorrectionTerm>,
}

/// Correction for one residue tuple, from the centered source phase taken
/// modulo `s` and the raw phase taken modulo the target modulus `u`:
/// `((phase · f⁻¹ mod s) mod u − raw) mod u`.
pub open spec fn switch_correction(phase_mod_source: u64, raw_mod_target: u64, s: u64, factor_inverse: u64, u: u64) -> int {
    (((((phase_mod_source as int) * (factor_inverse as int)) % (s as int)) % (u as int)) - (
    raw_mod_target as int)) % (u as int)
}

/// Indices, among the first `n` tuples, of those with a non-zero correction.
pub open spec fn correction_term_indices(
    phases: Seq<Result<(u64, u64), BgvLevelError>>,
    s: u64,
    factor_inverse: u64,
    u: u64,
    n: int,
) -> Seq<int>
    decreases n,
{
    if n <= 0 {
        Seq::empty()
    } else {
        let prev = correction_term_indices(phases, s, factor_inverse, u, n - 1);
        match phases[n - 1] {
            Ok(p) => if switch_correction(p.0, p.1, s, factor_inverse, u) != 0 {
                prev.push(n - 1)
            } else {
                prev
            },
            Err(_) => prev,
        }
    }
}

/// A reconstructed tuple whose plaintext-modulus switch needs a non-zero
/// correction.
pub open spec fn has_correction_term(
    phases: Seq<Result<(u64, u64), BgvLevelError>>,
    s: u64,
    factor_inverse: u64,
    u: u64,
    i: int,
) -> bool {
    phases[i] is Ok && switch_correction(phases[i]->Ok_0.0, phases[i]->Ok_0.1, s, factor_inverse, u) != 0
}

/// The correction-term indices among the first `n` tuples are, in
/// increasing order, exactly the reconstructed tuples with a non-zero
/// correction.
pub proof fn lemma_correction_term_indices_exact(
    phases: Seq<Result<(u64, u64), BgvLevelError>>,
    s: u64,
    f: u64,
    u: u64,
    n: int,
)
    ensures
        forall|a: int, b: int|
            0 <= a < b < correction_term_indices(phases, s, f, u, n).len() ==> #[trigger] correction_term_indices(
                phases,
                s,
                f,
                u,
                n,
            )[a] < #[trigger] correction_term_indices(phases, s, f, u, n)[b],
        forall|a: int|
            0 <= a < correction_term_indices(phases, s, f, u, n).len() ==> 0 <= #[trigger] correction_term_indices(
                phases,
                s,
                f,
                u,
                n,
            )[a] < n && has_correction_term(phases, s, f, u, correction_term_indices(phases, s, f, u, n)[a]),
        forall|i: int|
            0 <= i < n && #[trigger] has_correction_term(phases, s, f, u, i) ==> correction_term_indices(
                phases,
                s,
                f,
                u,
                n,
            ).contains(i),
    decreases n,
{
    if n > 0 {
        lemma_correction_term_indices_exact(phases, s, f, u, n - 1);
        let prev = correction_term_indices(phases, s, f, u, n - 1);
        let cur = correction_term_indices(phases, s, f, u, n);
        if has_correction_term(phases, s, f, u, n - 1) {
            assert(cur == prev.push(n - 1));
            assert forall|i: int| 0 <= i < n && #[trigger] has_correction_term(phases, s, f, u, i) implies cur.contains(
                i,
            ) by {
                if i < n - 1 {
                    let a = choose|a: int| 0 <= a < prev.len() && prev[a] == i;
                    assert(cur[a] == i);
                } else {
                    assert(cur[prev.len() as int] == i);
                }
            }
        } else {
            assert(cur == prev);
        }
    }
}

/// `terms` lists, in tuple order, every tuple with a non-zero correction.
pub open spec fn are_correction_terms(
    terms: Seq<BgvBootstrapSameFieldPlaintextModulusSwitchCorrectionTerm>,
    aux: Seq<u64>,
    phases: Seq<Result<(u64, u64), BgvLevelError>>,
    s: u64,
    factor_inverse: u64,
    u: u64,
    t: u64,
) -> bool {
    let idx = correction_term_indices(phases, s, factor_inverse, u, phases.len() as int);
    &&& terms.len() == idx.len()
    &&& forall|j: int|
        0 <= j < terms.len() ==> {
            let p = phases[idx[j]]->Ok_0;
            &&& (#[trigger] terms[j]).residues@ == residue_tuple(aux, idx[j])
            &&& terms[j].correction_scalar == switch_correction(p.0, p.1, s, factor_inverse, u) % (
            t as int)
        }
}

/// Outcome of collecting correction terms from the tuple phase residues.
pub open spec fn correction_terms_result(
    r: Result<Vec<BgvBootstrapSameFieldPlaintextModulusSwitchCorrectionTerm>, BgvLevelError>,
    aux: Seq<u64>,
    phases: Seq<Result<(u64, u64), BgvLevelError>>,
    s: u64,
    factor_inverse: u64,
    u: u64,
    t: u64,
) -> bool {
    &&& r is Ok <==> forall|i: int| 0 <= i < phases.len() ==> (#[trigger] phases[i]) is Ok
    &&& r is Ok ==> are_correction_terms(r->Ok_0@, aux, phases, s, factor_inverse, u, t)
    &&& r is Err ==> exists|e: int|
        0 <= e < phases.len() && (forall|i: int| 0 <= i < e ==> (#[trigger] phases[i]) is Ok)
            && phases[e] == Err::<(u64, u64), BgvLevelError>(r->Err_0)
}

proof fn lemma_correction_indices_bounded(
    phases: Seq<Result<(u64, u64), BgvLevelError>>,
    s: u64,
    f: u64,
    u: u64,
    n: int,
)
    ensures
        forall|j: int|
            0 <= j < correction_term_indices(phases, s, f, u, n).len() ==> 0
                <= #[trigger] correction_term_indices(phases, s, f, u, n)[j] < n,
    decreases n,
{
    if n > 0 {
        lemma_correction_indices_bounded(phases, s, f, u, n - 1);
        let prev = correction_term_indices(phases, s, f, u, n - 1);
        let cur = correction_term_indices(phases, s, f, u, n);
        assert(cur == prev || cur == prev.push(n - 1));
        if cur != prev {
            assert forall|j: int| 0 <= j < cur.len() implies 0 <= #[trigger] cur[j] < n by {
                if j < prev.len() {
                    assert(cur[j] == prev[j]);
                }
            }
        }
    }
}

/// Collects, in lexicographic tuple order, the tuples whose plaintext-modulus
/// switch needs a correction; `tuple_phase_residues[i]` holds, for the tuple
/// with index `i`, its centered source phase modulo `s` and its raw phase
/// modulo the target modulus (or the reconstruction error).
pub fn same_field_plaintext_modulus_switch_correction_terms(
    auxiliary_plain_moduli: &Vec<u64>,
    tuple_phase_residues: &Vec<Result<(u64, u64), BgvLevelError>>,
    source_plain_modulus: u64,
    source_factor_inverse: u64,
    target_plain_modulus: u64,
    classifier_plain_modulus: u64,
) -> (r: Result<Vec<BgvBootstrapSameFieldPlaintextModulusSwitchCorrectionTerm>, BgvLevelError>)
    requires
        source_plain_modulus > 0,
        target_plain_modulus > 0,
        classifier_plain_modulus > 0,
        tuple_phase_residues@.len() == prefix_product(
            auxiliary_plain_moduli@,
            auxiliary_plain_moduli@.len() as int,
        ),
    ensures
        correction_terms_result(
            r,
            auxiliary_plain_moduli@,
            tuple_phase_residues@,
            source_plain_modulus,
            source_factor_inverse,
            target_plain_modulus,
            classifier_plain_modulus,
        ),
{
    let ghost aux = auxiliary_plain_moduli@;
    let ghost phases = tuple_phase_residues@;
    let s = source_plain_modulus;
    let f = source_factor_inverse;
    let u = target_plain_modulus;
    let t = classifier_plain_modulus;
    let n = tuple_phase_residues.len();
    if n > 0 {
        proof {
            lemma_product_positive(aux, aux.len() as int);
        }
    }
    let mut terms: Vec<BgvBootstrapSameFieldPlaintextModulusSwitchCorrectionTerm> = Vec::new();
    let mut i: usize = 0;
    while i < n
        invariant
            aux == auxiliary_plain_moduli@,
            phases == tuple_phase_residues@,
            s == source_plain_modulus,
            f == source_factor_inverse,
            u == target_plain_modulus,
            t == classifier_plain_modulus,
            s > 0,
            u > 0,
            t > 0,
            n == phases.len(),
            n > 0 ==> forall|k: int| 0 <= k < aux.len() ==> #[trigger] aux[k] > 0,
            i <= n,
            forall|k: int| 0 <= k < i ==> (#[trigger] phases[k]) is Ok,
            terms@.len() == correction_term_indices(phases, s, f, u, i as int).len(),
            forall|j: int|
                0 <= j < terms@.len() ==> {
                    let idx = correction_term_indices(phases, s, f, u, i as int);
                    let p = phases[idx[j]]->Ok_0;
                    &&& (#[trigger] terms@[j]).residues@ == residue_tuple(aux, idx[j])
                    &&& terms@[j].correction_scalar == switch_correction(p.0, p.1, s, f, u) % (
                    t as int)
                },
        decreases n - i,
    {
        proof {
            lemma_correction_indices_bounded(phases, s, f, u, i as int);
        }
        match &tuple_phase_residues[i] {
            Err(e) => {
                let err = *e;
                return Err(err);
            },
            Ok(p) => {
                let phase_mod_source = p.0;
                let raw_mod_target = p.1;
                let source_plaintext = mul_mod(phase_mod_source, f, s) % u;
                let correction = sub_mod(source_plaintext, raw_mod_target, u);
                if correction != 0 {
                    let residues = same_field_crt_residue_tuple(auxiliary_plain_moduli, i as u64);
                    terms.push(
                        BgvBootstrapSameFieldPlaintextModulusSwitchCorrectionTerm {
                            residues,
                            correction_scalar: correction % t,
                        },
                    );
                    proof {
                        assert(correction_term_indices(phases, s, f, u, i + 1)
                            == correction_term_indices(phases, s, f, u, i as int).push(i as int));
                    }
                }
            },
        }
        i += 1;
    }
    proof {
        assert(are_correction_terms(terms@, aux, phases, s, f, u, t));
    }
    Ok(terms)
}

/// What `same_field_plaintext_modulus_switch_correction_classifier_from_residues` returns, stated over its inputs.
pub open spec fn modulus_switch_classifier_outcome(
    r: Result<BgvBootstrapSameFieldPlaintextModulusSwitchCorrectionClassifier, BgvLevelError>,
    source_degree: usize,
    source_plain_modulus: u64,
    source_factor: BgvPlaintextFactor,
    classifier_degree: usize,
    classifier_plain_modulus: u64,
    target_degree: usize,
    target_plain_modulus: u64,
    crt_degree: usize,
    auxiliary_plain_moduli: Seq<u64>,
    tuple_phase_residues: Seq<Result<(u64, u64), BgvLevelError>>,
) -> bool {
    &&& (source_degree != classifier_degree ==> r == Err::<
        BgvBootstrapSameFieldPlaintextModulusSwitchCorrectionClassifier,
        BgvLevelError,
    >(BgvLevelError::CiphertextDegreeMismatch { expected: source_degree, actual: classifier_degree }))
    &&& (source_degree == classifier_degree && source_degree != target_degree ==> r == Err::<
        BgvBootstrapSameFieldPlaintextModulusSwitchCorrectionClassifier,
        BgvLevelError,
    >(BgvLevelError::CiphertextDegreeMismatch { expected: source_degree, actual: target_degree }))
    &&& (source_degree == classifier_degree && source_degree == target_degree && source_degree
        != crt_degree ==> r == Err::<
        BgvBootstrapSameFieldPlaintextModulusSwitchCorrectionClassifier,
        BgvLevelError,
    >(BgvLevelError::CiphertextDegreeMismatch { expected: source_degree, actual: crt_degree }))
    &&& (source_degree == classifier_degree && source_degree == target_degree && source_degree
        == crt_degree && classifier_plain_modulus < target_plain_modulus ==> r == Err::<
        BgvBootstrapSameFieldPlaintextModulusSwitchCorrectionClassifier,
        BgvLevelError,
    >(
        BgvLevelError::BootstrapSameFieldDecodeSourceModulusTooLarge {
            fusion_modulus: classifier_plain_modulus,
            source_modulus: target_plain_modulus,
        },
    ))
    &&& (({
        let checks_pass = source_degree == classifier_degree && source_degree == target_degree
            && source_degree == crt_degree && classifier_plain_modulus >= target_plain_modulus;
        &&& checks_pass && !tuple_count_ok(classifier_plain_modulus, auxiliary_plain_moduli)
            ==> r == Err::<
            BgvBootstrapSameFieldPlaintextModulusSwitchCorrectionClassifier,
            BgvLevelError,
        >(
            tuple_count_check(
                classifier_plain_modulus,
                auxiliary_plain_moduli,
                auxiliary_plain_moduli.len() as int,
            )->Err_0,
        )
        &&& checks_pass && tuple_count_ok(classifier_plain_modulus, auxiliary_plain_moduli)
            && !indicator_tables_possible(classifier_plain_modulus, auxiliary_plain_moduli)
            ==> (r is Err && exists|m: int, a: int, i: int|
            0 <= m < auxiliary_plain_moduli.len() && 0 <= a < auxiliary_plain_moduli[m] && 0
                <= i < auxiliary_plain_moduli[m] && !has_mod_inverse(
                lagrange_denominator(
                    indicator_points(auxiliary_plain_moduli[m], a, classifier_plain_modulus),
                    i,
                    classifier_plain_modulus as int,
                ),
                classifier_plain_modulus as int,
            ) && r->Err_0 == denominator_error(
                indicator_points(auxiliary_plain_moduli[m], a, classifier_plain_modulus),
                i,
                classifier_plain_modulus,
            ))
        &&& checks_pass && tuple_count_ok(classifier_plain_modulus, auxiliary_plain_moduli)
            && indicator_tables_possible(classifier_plain_modulus, auxiliary_plain_moduli)
            && !has_mod_inverse(source_factor@ as int, source_plain_modulus as int) ==> r
            == Err::<
            BgvBootstrapSameFieldPlaintextModulusSwitchCorrectionClassifier,
            BgvLevelError,
        >(
            BgvLevelError::PlaintextFactorNotInvertible {
                factor: source_factor@,
                modulus: source_plain_modulus,
            },
        )
        &&& checks_pass && tuple_count_ok(classifier_plain_modulus, auxiliary_plain_moduli)
            && indicator_tables_possible(classifier_plain_modulus, auxiliary_plain_moduli)
            && has_mod_inverse(source_factor@ as int, source_plain_modulus as int) ==> exists|
            finv: u64,
        |
            is_mod_inverse(source_factor@ as int, finv as int, source_plain_modulus as int)
                && correction_terms_result(
                match r {
                    Ok(c) => Ok::<
                        Vec<BgvBootstrapSameFieldPlaintextModulusSwitchCorrectionTerm>,
                        BgvLevelError,
                    >(c.nonzero_terms),
                    Err(e) => Err(e),
                },
                auxiliary_plain_moduli,
                tuple_phase_residues,
                source_plain_modulus,
                finv,
                target_plain_modulus,
                classifier_plain_modulus,
            ) && (r is Ok ==> r->Ok_0.source_factor_inverse == finv)
    }))
    &&& (r is Ok ==> {
        let c = r->Ok_0;
        &&& c.source_degree == source_degree
        &&& c.classifier_plain_modulus == classifier_plain_modulus
        &&& c.source_plain_modulus == source_plain_modulus
        &&& c.target_plain_modulus == target_plain_modulus
        &&& is_mod_inverse(
            source_factor@ as int,
            c.source_factor_inverse as int,
            source_plain_modulus as int,
        )
        &&& c.auxiliary_plain_moduli@ == auxiliary_plain_moduli
        &&& c.tuple_count == prefix_product(
            auxiliary_plain_moduli,
            auxiliary_plain_moduli.len() as int,
        )
        &&& are_indicator_tables(
            c.indicator_scalar_coefficients@,
            classifier_plain_modulus,
            auxiliary_plain_moduli,
        )
    })
}

/// Over a prime classifier modulus `t` that is at least every auxiliary
/// modulus, every residue indicator can be interpolated.
pub proof fn lemma_prime_indicator_tables_possible(t: u64, aux: Seq<u64>)
    requires
        is_prime(t as int),
        forall|m: int| 0 <= m < aux.len() ==> #[trigger] aux[m] <= t,
    ensures
        indicator_tables_possible(t, aux),
{
    assert forall|m: int, a: int| 0 <= m < aux.len() && 0 <= a < aux[m] implies interpolation_possible(
        #[trigger] indicator_points(aux[m], a, t),
        t as int,
    ) by {
        let pts = indicator_points(aux[m], a, t);
        assert(distinct_nodes_below(pts, t as int));
        lemma_prime_interpolation_possible(pts, t as int);
    }
}

/// The modulus-switch correction classifier succeeds when its checks pass
/// and its arithmetic is possible: the four degrees agree, the classifier
/// modulus `t` covers the target modulus, the auxiliary moduli are valid
/// and at most `t`, `t` and the source modulus `s` are prime, the source
/// factor is not a multiple of `s`, and every residue tuple was
/// reconstructed.
pub proof fn lemma_modulus_switch_classifier_succeeds(
    r: Result<BgvBootstrapSameFieldPlaintextModulusSwitchCorrectionClassifier, BgvLevelError>,
    source_degree: usize,
    source_plain_modulus: u64,
    source_factor: BgvPlaintextFactor,
    classifier_plain_modulus: u64,
    target_plain_modulus: u64,
    auxiliary_plain_moduli: Seq<u64>,
    tuple_phase_residues: Seq<Result<(u64, u64), BgvLevelError>>,
)
    requires
        modulus_switch_classifier_outcome(
            r,
            source_degree,
            source_plain_modulus,
            source_factor,
            source_degree,
            classifier_plain_modulus,
            source_degree,
            target_plain_modulus,
            source_degree,
            auxiliary_plain_moduli,
            tuple_phase_residues,
        ),
        classifier_plain_modulus >= target_plain_modulus,
        tuple_count_ok(classifier_plain_modulus, auxiliary_plain_moduli),
        is_prime(classifier_plain_modulus as int),
        forall|m: int|
            0 <= m < auxiliary_plain_moduli.len() ==> #[trigger] auxiliary_plain_moduli[m]
                <= classifier_plain_modulus,
        is_prime(source_plain_modulus as int),
        (source_factor@ as int) % (source_plain_modulus as int) != 0,
        forall|i: int| 0 <= i < tuple_phase_residues.len() ==> (#[trigger] tuple_phase_residues[i]) is Ok,
    ensures
        r is Ok,
{
    lemma_prime_indicator_tables_possible(classifier_plain_modulus, auxiliary_plain_moduli);
    lemma_prime_unit(source_factor@ as int, source_plain_modulus as int);
}

/// The plaintext-modulus-switch correction classifier of a CRT plan: checks
/// that the source, classifier, target and plan degrees agree and that the
/// classifier modulus `t` covers the target modulus, validates the auxiliary
/// moduli, interpolates every residue indicator over `Z / t`, inverts the
/// source plaintext factor modulo `s`, and lists the residue tuples that
/// need a correction.
#[verifier::rlimit(30)]
pub fn same_field_plaintext_modulus_switch_correction_classifier_from_residues(
    source_degree: usize,
    source_plain_modulus: u64,
    source_factor: BgvPlaintextFactor,
    classifier_degree: usize,
    classifier_plain_modulus: u64,
    target_degree: usize,
    target_plain_modulus: u64,
    crt_degree: usize,
    auxiliary_plain_moduli: &Vec<u64>,
    tuple_phase_residues: &Vec<Result<(u64, u64), BgvLevelError>>,
) -> (r: Result<BgvBootstrapSameFieldPlaintextModulusSwitchCorrectionClassifier, BgvLevelError>)
    requires
        source_plain_modulus > 0,
        classifier_plain_modulus > 0,
        target_plain_modulus > 0,
        tuple_count_ok(classifier_plain_modulus, auxiliary_plain_moduli@) ==> {
            &&& tuple_phase_residues@.len() == prefix_product(
                auxiliary_plain_moduli@,
                auxiliary_plain_moduli@.len() as int,
            )
            &&& forall|i: int|
                0 <= i < auxiliary_plain_moduli@.len() ==> #[trigger] auxiliary_plain_moduli@[i]
                    < usize::MAX
        },
    ensures
        modulus_switch_classifier_outcome(
            r,
            source_degree,
            source_plain_modulus,
            source_factor,
            classifier_degree,
            classifier_plain_modulus,
            target_degree,
            target_plain_modulus,
            crt_degree,
            auxiliary_plain_moduli@,
            tuple_phase_residues@,
        ),
{
    if source_degree != classifier_degree {
        return Err(
            BgvLevelError::CiphertextDegreeMismatch { expected: source_degree, actual: classifier_degree },
        );
    }
    if source_degree != target_degree {
        return Err(
            BgvLevelError::CiphertextDegreeMismatch { expected: source_degree, actual: target_degree },
        );
    }
    if source_degree != crt_degree {
        return Err(
            BgvLevelError::CiphertextDegreeMismatch { expected: source_degree, actual: crt_degree },
        );
    }
    if classifier_plain_modulus < target_plain_modulus {
        return Err(
            BgvLevelError::BootstrapSameFieldDecodeSourceModulusTooLarge {
                fusion_modulus: classifier_plain_modulus,
                source_modulus: target_plain_modulus,
            },
        );
    }
    let tuple_count = match same_field_crt_tuple_count(classifier_plain_modulus, auxiliary_plain_moduli) {
        Ok(c) => c,
        Err(e) => {
            return Err(e);
        },
    };
    let indicator_scalar_coefficients = match same_field_indicator_scalar_coefficients(
        classifier_plain_modulus,
        auxiliary_plain_moduli,
    ) {
        Ok(tables) => tables,
        Err(e) => {
            return Err(e);
        },
    };
    let source_factor_inverse = match source_factor.inverse_mod(source_plain_modulus) {
        Ok(x) => x,
        Err(e) => {
            return Err(e);
        },
    };
    let nonzero_terms = match same_field_plaintext_modulus_switch_correction_terms(
        auxiliary_plain_moduli,
        tuple_phase_residues,
        source_plain_modulus,
        source_factor_inverse,
        target_plain_modulus,
        classifier_plain_modulus,
    ) {
        Ok(terms) => terms,
        Err(e) => {
            return Err(e);
        },
    };
    Ok(
        BgvBootstrapSameFieldPlaintextModulusSwitchCorrectionClassifier {
            source_degree,
            classifier_plain_modulus,
            source_plain_modulus,
            target_plain_modulus,
            source_factor_inverse,
            auxiliary_plain_moduli: auxiliary_plain_moduli.clone(),
            tuple_count,
            indicator_scalar_coefficients,
            nonzero_terms,
        },
    )
}

// ---------------------------------------------------------------------------
// CRT residue bridge
// ---------------------------------------------------------------------------

/// Largest fused plaintext modulus whose residue tables are interpolated.
pub const MAX_BRIDGE_LOOKUP_POINTS: u64 = 4096;

/// Lookup polynomials over `Z / f`, one per auxiliary modulus `r_m`, that
/// map a fused raw phase residue to the residue of its centered lift modulo
/// `r_m` (for lifts within the phase bound, `0` elsewhere).
#[derive(Clone, Debug, PartialEq, Eq)]
pub struct BgvBootstrapSameFieldCrtResidueBridge {
    pub source_degree: usize,
    pub fusion_plain_modulus: u64,
    pub phase_bound_abs: u64,
    pub auxiliary_plain_moduli: Vec<u64>,
    pub residue_scalar_coefficients: Vec<Vec<u64>>,
}

/// Nodes of the bridge polynomial for the auxiliary modulus `r`.
pub open spec fn residue_bridge_points(r: u64, f: u64, phase_bound_abs: u64) -> Seq<(u64, u64)> {
    Seq::new(
        f as nat,
        |x: int|
            {
                let c = centered(x, f as int);
                let reduced = if -(phase_bound_abs as int) <= c <= phase_bound_abs {
                    c % (r as int)
                } else {
                    0
                };
                (x as u64, (reduced % (f as int)) as u64)
            },
    )
}

/// The bridge table for modulus `r` can be built: `r < f` and its nodes
/// interpolate over `Z / f`.
pub open spec fn residue_bridge_ok(r: u64, f: u64, phase_bound_abs: u64) -> bool {
    r < f && interpolation_possible(residue_bridge_points(r, f, phase_bound_abs), f as int)
}

/// The error raised for the first auxiliary modulus whose table fails.
pub open spec fn residue_bridge_error(r: u64, f: u64, phase_bound_abs: u64, e: BgvLevelError) -> bool {
    if f <= r {
        e == BgvLevelError::BootstrapSameFieldCrtResidueModulusTooLarge {
            classifier_modulus: f,
            residue_modulus: r,
        }
    } else {
        exists|i: int|
            0 <= i < f && !has_mod_inverse(
                lagrange_denominator(residue_bridge_points(r, f, phase_bound_abs), i, f as int),
                f as int,
            ) && e == denominator_error(residue_bridge_points(r, f, phase_bound_abs), i, f)
    }
}

fn residue_bridge_table(r: u64, f: u64, phase_bound_abs: u64) -> (res: Result<Vec<u64>, BgvLevelError>)
    requires
        0 < r < f <= MAX_BRIDGE_LOOKUP_POINTS,
    ensures
        res is Ok <==> interpolation_possible(residue_bridge_points(r, f, phase_bound_abs), f as int),
        res is Ok ==> is_interpolant(
            res->Ok_0@,
            residue_bridge_points(r, f, phase_bound_abs),
            f as int,
        ),
        res is Err ==> residue_bridge_error(r, f, phase_bound_abs, res->Err_0),
{
    let ghost pts = residue_bridge_points(r, f, phase_bound_abs);
    let mut points: Vec<(u64, u64)> = Vec::new();
    let mut x: u64 = 0;
    while x < f
        invariant
            0 < r < f <= MAX_BRIDGE_LOOKUP_POINTS,
            pts == residue_bridge_points(r, f, phase_bound_abs),
            x <= f,
            points@.len() == x,
            forall|j: int| 0 <= j < x ==> #[trigger] points@[j] == pts[j],
        decreases f - x,
    {
        let c: i128 = centered_residue_mod_plaintext(x, f);
        proof {
            lemma_small_mod(x as nat, f as nat);
        }
        let reduced: u64 = if -(phase_bound_abs as i128) <= c && c <= phase_bound_abs as i128 {
            signed_i64_to_mod(c as i64, r)
        } else {
            0
        };
        points.push((x, reduced % f));
        x += 1;
    }
    proof {
        assert(points@ =~= pts);
    }
    interpolate_lagrange_mod(&points, f)
}

/// Builds the same-field CRT residue bridge for a fused plaintext space
/// (degree, modulus `f`) and a CRT plan (degree, phase bound `|phase| ≤ B`,
/// auxiliary moduli).
pub fn bgv_bootstrap_same_field_crt_residue_bridge(
    fusion_degree: usize,
    fusion_plain_modulus: u64,
    crt_plan: &BgvBootstrapCrtWrapReconstructionPlan,
) -> (r: Result<BgvBootstrapSameFieldCrtResidueBridge, BgvLevelError>)
    requires
        fusion_plain_modulus > 0,
        crt_plan_wf(*crt_plan),
    ensures
        ({
            let f = fusion_plain_modulus;
            let crt_degree = crt_plan.degree;
            let pb = int_abs(crt_plan.phase_bound@) as u64;
            let aux = crt_plan.auxiliary_plain_moduli@;
            let cov = 2 * int_abs(crt_plan.phase_bound@) + 1;
            &&& fusion_degree != crt_degree ==> r == Err::<
                BgvBootstrapSameFieldCrtResidueBridge,
                BgvLevelError,
            >(BgvLevelError::CiphertextDegreeMismatch { expected: crt_degree, actual: fusion_degree })
            &&& fusion_degree == crt_degree && f > MAX_BRIDGE_LOOKUP_POINTS ==> r == Err::<
                BgvBootstrapSameFieldCrtResidueBridge,
                BgvLevelError,
            >(
                BgvLevelError::BootstrapClassifierLookupTooLarge {
                    modulus: f,
                    max_points: MAX_BRIDGE_LOOKUP_POINTS,
                },
            )
            &&& fusion_degree == crt_degree && f <= MAX_BRIDGE_LOOKUP_POINTS && f <= cov ==> r
                == Err::<BgvBootstrapSameFieldCrtResidueBridge, BgvLevelError>(
                BgvLevelError::BootstrapSingleModulusClassifierCoverageTooSmall {
                    modulus: f,
                    required: if cov > u64::MAX {
                        u64::MAX
                    } else {
                        cov as u64
                    },
                },
            )
            &&& fusion_degree == crt_degree && f <= MAX_BRIDGE_LOOKUP_POINTS && f > cov ==> {
                &&& (r is Ok <==> forall|m: int|
                    0 <= m < aux.len() ==> residue_bridge_ok(#[trigger] aux[m], f, pb))
                &&& r is Ok ==> ({
                    let b = r->Ok_0;
                    &&& b.source_degree == crt_degree
                    &&& b.fusion_plain_modulus == f
                    &&& b.phase_bound_abs == pb
                    &&& b.auxiliary_plain_moduli@ == aux
                    &&& b.residue_scalar_coefficients@.len() == aux.len()
                    &&& forall|m: int|
                        0 <= m < aux.len() ==> is_interpolant(
                            (#[trigger] b.residue_scalar_coefficients@[m])@,
                            residue_bridge_points(aux[m], f, pb),
                            f as int,
                        )
                })
                &&& r is Err ==> exists|m: int|
                    0 <= m < aux.len() && (forall|mm: int|
                        0 <= mm < m ==> residue_bridge_ok(#[trigger] aux[mm], f, pb))
                        && residue_bridge_error(aux[m], f, pb, r->Err_0)
            }
        }),
{
    let crt_degree = crt_plan.degree;
    let auxiliary_plain_moduli = &crt_plan.auxiliary_plain_moduli;
    if fusion_degree != crt_degree {
        return Err(
            BgvLevelError::CiphertextDegreeMismatch { expected: crt_degree, actual: fusion_degree },
        );
    }
    let f = fusion_plain_modulus;
    if f > MAX_BRIDGE_LOOKUP_POINTS {
        return Err(
            BgvLevelError::BootstrapClassifierLookupTooLarge {
                modulus: f,
                max_points: MAX_BRIDGE_LOOKUP_POINTS,
            },
        );
    }
    let bound = crt_plan.phase_bound.abs();
    let required_wide = bound.times(&WideInt::from_u64(2)).plus(&WideInt::from_u64(1));
    if WideInt::from_u64(f).le(&required_wide) {
        let required = match required_wide.to_u64() {
            Some(v) => v,
            None => u64::MAX,
        };
        return Err(
            BgvLevelError::BootstrapSingleModulusClassifierCoverageTooSmall {
                modulus: f,
                required,
            },
        );
    }
    let crt_phase_bound_abs = match bound.to_u64() {
        Some(v) => v,
        None => 0,
    };
    let ghost aux = auxiliary_plain_moduli@;
    let pb = crt_phase_bound_abs;
    let n = auxiliary_plain_moduli.len();
    let mut tables: Vec<Vec<u64>> = Vec::new();
    let mut m: usize = 0;
    while m < n
        invariant
            aux == auxiliary_plain_moduli@,
            auxiliary_plain_moduli == &crt_plan.auxiliary_plain_moduli,
            crt_phase_bound_abs == int_abs(crt_plan.phase_bound@),
            crt_degree == crt_plan.degree,
            n == aux.len(),
            forall|i: int| 0 <= i < aux.len() ==> #[trigger] aux[i] > 0,
            0 < f <= MAX_BRIDGE_LOOKUP_POINTS,
            f == fusion_plain_modulus,
            fusion_degree == crt_degree,
            f > 2 * (crt_phase_bound_abs as int) + 1,
            pb == crt_phase_bound_abs,
            m <= n,
            tables@.len() == m,
            forall|mm: int| 0 <= mm < m ==> residue_bridge_ok(#[trigger] aux[mm], f, pb),
            forall|mm: int|
                0 <= mm < m ==> is_interpolant(
                    (#[trigger] tables@[mm])@,
                    residue_bridge_points(aux[mm], f, pb),
                    f as int,
                ),
        decreases n - m,
    {
        let residue_modulus = auxiliary_plain_moduli[m];
        if f <= residue_modulus {
            let err = BgvLevelError::BootstrapSameFieldCrtResidueModulusTooLarge {
                classifier_modulus: f,
                residue_modulus,
            };
            proof {
                assert(residue_bridge_error(aux[m as int], f, pb, err));
                assert(!residue_bridge_ok(aux[m as int], f, pb));
            }
            return Err(err);
        }
        match residue_bridge_table(residue_modulus, f, pb) {
            Ok(table) => {
                tables.push(table);
            },
            Err(e) => {
                proof {
                    assert(!residue_bridge_ok(aux[m as int], f, pb));
                }
                return Err(e);
            },
        }
        m += 1;
    }
    Ok(
        BgvBootstrapSameFieldCrtResidueBridge {
            source_degree: crt_degree,
            fusion_plain_modulus: f,
            phase_bound_abs: pb,
            auxiliary_plain_moduli: auxiliary_plain_moduli.clone(),
            residue_scalar_coefficients: tables,
        },
    )
}

} // verus!
