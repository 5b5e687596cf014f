//! Plaintext-side building blocks of BGV bootstrapping: Lagrange
//! interpolation of carry / classifier lookup polynomials over `Z / t`,
//! their scalar evaluation, negacyclic products, and the parameter plans
//! that decide how a fused plaintext space bridges back to the source one.

use vstd::prelude::*;
use vstd::arithmetic::div_mod::{
    lemma_add_mod_noop, lemma_mul_mod_noop_right, lemma_small_mod, lemma_mod_bound,
};

use crate::modarith::{
    add_mod, centered, centered_residue_mod_plaintext, centered_wrap, centered_wrap_product,
    has_mod_inverse, is_mod_inverse, mod_inverse, mul_mod, prefix_product, signed_residue,
    signed_i64_to_mod, sub_mod, lemma_mod_inverse_unique, is_prime,
};
use crate::polymod::{
    poly_value, lagrange_numerator, lagrange_denominator, lagrange_scale, lagrange_sum,
    interpolation_possible, is_trimmed, is_reduced, mul_by_linear, lemma_poly_value_linear,
    lemma_poly_value_push_zero, lemma_lagrange_sum_interpolates, lemma_mul_cong, lemma_add_cong,
    distinct_nodes_below, lemma_prime_interpolation_possible,
};
use crate::schemes::bgv::params::BgvLevelError;
use crate::wide::{int_abs, WideInt};

verus! {

/// Number of Lagrange numerator factors `(z − x_j)`, `j < upto`, `j ≠ i`.
pub open spec fn numerator_factor_count(i: int, upto: int) -> int {
    if i < upto {
        upto - 1
    } else {
        upto
    }
}

/// The error raised when the `i`-th Lagrange denominator is not invertible.
pub open spec fn denominator_error(points: Seq<(u64, u64)>, i: int, modulus: u64) -> BgvLevelError {
    BgvLevelError::BootstrapCarryInterpolationDenominatorNotInvertible {
        denominator: lagrange_denominator(points, i, modulus as int) as u64,
        modulus,
    }
}

proof fn lemma_mul_cong2(a: int, b: int, c: int, d: int, m: int)
    requires
        m > 0,
        a % m == b % m,
        c % m == d % m,
    ensures
        (a * c) % m == (b * d) % m,
{
    lemma_mul_cong(a, b, c, m);
    lemma_mul_mod_noop_right(b, c, m);
    lemma_mul_mod_noop_right(b, d, m);
}

/// Lagrange numerator `∏_{j ≠ i} (X − x_j)` and denominator
/// `∏_{j ≠ i} (x_i − x_j) mod m` for point `i`.
fn lagrange_basis(points: &Vec<(u64, u64)>, i: usize, modulus: u64) -> (r: (Vec<u64>, u64))
    requires
        modulus > 0,
        i < points@.len(),
        points@.len() + 1 <= usize::MAX,
    ensures
        r.0@.len() == points@.len(),
        is_reduced(r.0@, modulus as int),
        forall|z: int|
            #![trigger poly_value(r.0@, z)]
            poly_value(r.0@, z) % (modulus as int) == lagrange_numerator(
                points@,
                i as int,
                points@.len() as int,
                z,
            ) % (modulus as int),
        r.1 == lagrange_denominator(points@, i as int, modulus as int),
{
    let n = points.len();
    let ghost m = modulus as int;
    let x_i = points[i].0;
    let mut basis: Vec<u64> = Vec::new();
    basis.push(1 % modulus);
    let mut denominator: u64 = 1;
    proof {
        lemma_small_mod((1u64 % modulus) as nat, modulus as nat);
        assert forall|z: int| #![trigger poly_value(basis@, z)]
            poly_value(basis@, z) % m == lagrange_numerator(points@, i as int, 0, z) % m by {
            assert(basis@.drop_first() =~= Seq::<u64>::empty());
            assert(poly_value(basis@.drop_first(), z) == 0);
            assert(poly_value(basis@, z) == (1u64 % modulus) + z * 0);
            vstd::arithmetic::div_mod::lemma_mod_twice(1, m);
        }
    }
    let mut j: usize = 0;
    while j < n
        invariant
            modulus > 0,
            m == modulus as int,
            n == points@.len(),
            n + 1 <= usize::MAX,
            i < n,
            x_i == points@[i as int].0,
            j <= n,
            basis@.len() == numerator_factor_count(i as int, j as int) + 1,
            is_reduced(basis@, m),
            forall|z: int|
                #![trigger poly_value(basis@, z)]
                poly_value(basis@, z) % m == lagrange_numerator(points@, i as int, j as int, z) % m,
            (denominator as int) % m == lagrange_numerator(points@, i as int, j as int, x_i as int) % m,
            numerator_factor_count(i as int, j as int) > 0 ==> denominator < modulus,
            numerator_factor_count(i as int, j as int) == 0 ==> denominator == 1,
        decreases n - j,
    {
        if j != i {
            let x_j = points[j].0;
            let diff = sub_mod(x_i, x_j, modulus);
            let ghost old_den = denominator;
            denominator = mul_mod(denominator, diff, modulus);
            let neg_xj = sub_mod(0, x_j, modulus);
            let ghost old_basis = basis@;
            basis = mul_by_linear(&basis, neg_xj, modulus);
            proof {
                let zi = x_i as int;
                assert(lagrange_numerator(points@, i as int, j + 1, zi) == lagrange_numerator(
                    points@,
                    i as int,
                    j as int,
                    zi,
                ) * (zi - x_j));
                vstd::arithmetic::div_mod::lemma_mod_twice(zi - x_j, m);
                lemma_mul_cong2(
                    old_den as int,
                    lagrange_numerator(points@, i as int, j as int, zi),
                    diff as int,
                    zi - x_j,
                    m,
                );
                vstd::arithmetic::div_mod::lemma_mod_twice(old_den * diff, m);
                assert((denominator as int) % m == lagrange_numerator(
                    points@,
                    i as int,
                    j + 1,
                    zi,
                ) % m);
                assert forall|z: int| #![trigger poly_value(basis@, z)]
                    poly_value(basis@, z) % m == lagrange_numerator(points@, i as int, j + 1, z)
                        % m by {
                    assert(poly_value(basis@, z) % m == ((z + neg_xj) * poly_value(old_basis, z))
                        % m);
                    assert(poly_value(old_basis, z) % m == lagrange_numerator(
                        points@,
                        i as int,
                        j as int,
                        z,
                    ) % m);
                    vstd::arithmetic::div_mod::lemma_mod_twice(0 - x_j, m);
                    lemma_add_cong(z, z, neg_xj as int, 0 - x_j, m);
                    lemma_mul_cong2(
                        z + neg_xj,
                        z - x_j,
                        poly_value(old_basis, z),
                        lagrange_numerator(points@, i as int, j as int, z),
                        m,
                    );
                    assert((z - x_j) * lagrange_numerator(points@, i as int, j as int, z)
                        == lagrange_numerator(points@, i as int, j as int, z) * (z - x_j))
                        by (nonlinear_arith);
                }
            }
        } else {
            proof {
                assert(lagrange_numerator(points@, i as int, j + 1, x_i as int) == lagrange_numerator(
                    points@,
                    i as int,
                    j as int,
                    x_i as int,
                ));
                assert forall|z: int| #![trigger poly_value(basis@, z)]
                    poly_value(basis@, z) % m == lagrange_numerator(points@, i as int, j + 1, z)
                        % m by {
                    assert(lagrange_numerator(points@, i as int, j + 1, z) == lagrange_numerator(
                        points@,
                        i as int,
                        j as int,
                        z,
                    ));
                }
            }
        }
        j += 1;
    }
    proof {
        if n >= 2 {
            assert(numerator_factor_count(i as int, n as int) > 0);
            lemma_small_mod(denominator as nat, modulus as nat);
        }
    }
    (basis, denominator)
}

/// `c` is the trimmed, reduced interpolant of `points` over `Z / m`: it has
/// at most one coefficient per point, agrees with the Lagrange form
/// everywhere, and takes the prescribed value at every node.
pub open spec fn is_interpolant(c: Seq<u64>, points: Seq<(u64, u64)>, m: int) -> bool {
    &&& c.len() <= points.len()
    &&& is_trimmed(c)
    &&& is_reduced(c, m)
    &&& forall|z: int|
        #![trigger poly_value(c, z)]
        poly_value(c, z) % m == lagrange_sum(points, points.len() as int, z, m) % m
    &&& forall|k: int|
        0 <= k < points.len() ==> poly_value(c, #[trigger] points[k].0 as int) % m == (
        points[k].1 as int) % m
}

/// Coefficients of the polynomial of degree `< points.len()` through the
/// given points over `Z / modulus`, with trailing zero coefficients removed.
/// Fails with the first Lagrange denominator that is not invertible.
pub fn interpolate_lagrange_mod(points: &Vec<(u64, u64)>, modulus: u64) -> (r: Result<
    Vec<u64>,
    BgvLevelError,
>)
    requires
        modulus > 0,
        points@.len() + 1 <= usize::MAX,
    ensures
        r is Ok <==> interpolation_possible(points@, modulus as int),
        r is Ok ==> is_interpolant(r->Ok_0@, points@, modulus as int),
        r is Ok ==> (r->Ok_0@.len() >= 1 <==> points@.len() >= 1),
        is_prime(modulus as int) && distinct_nodes_below(points@, modulus as int) ==> r is Ok,
        r is Err ==> exists|i: int|
            0 <= i < points@.len() && (forall|ii: int|
                0 <= ii < i ==> has_mod_inverse(
                    #[trigger] lagrange_denominator(points@, ii, modulus as int),
                    modulus as int,
                )) && !has_mod_inverse(lagrange_denominator(points@, i, modulus as int), modulus as int)
                && r->Err_0 == denominator_error(points@, i, modulus),
{
    proof {
        if is_prime(modulus as int) && distinct_nodes_below(points@, modulus as int) {
            lemma_prime_interpolation_possible(points@, modulus as int);
        }
    }
    let n = points.len();
    let ghost m = modulus as int;
    let mut result: Vec<u64> = Vec::new();
    let mut k: usize = 0;
    while k < n
        invariant
            k <= n,
            result@.len() == k,
            forall|d: int| 0 <= d < k ==> #[trigger] result@[d] == 0,
        decreases n - k,
    {
        result.push(0);
        k += 1;
    }
    proof {
        lemma_small_mod(0, modulus as nat);
        assert forall|z: int| #![trigger poly_value(result@, z)]
            poly_value(result@, z) % m == lagrange_sum(points@, 0, z, m) % m by {
            lemma_poly_value_zeros(result@, z);
        }
    }
    let mut i: usize = 0;
    while i < n
        invariant
            modulus > 0,
            m == modulus as int,
            n == points@.len(),
            n + 1 <= usize::MAX,
            i <= n,
            is_prime(m) && distinct_nodes_below(points@, m) ==> interpolation_possible(points@, m),
            result@.len() == n,
            is_reduced(result@, m),
            forall|z: int|
                #![trigger poly_value(result@, z)]
                poly_value(result@, z) % m == lagrange_sum(points@, i as int, z, m) % m,
            forall|ii: int|
                0 <= ii < i ==> has_mod_inverse(
                    #[trigger] lagrange_denominator(points@, ii, m),
                    m,
                ),
        decreases n - i,
    {
        let (basis, denominator) = lagrange_basis(points, i, modulus);
        let inv_den = match mod_inverse(denominator, modulus) {
            Some(x) => x,
            None => {
                proof {
                    assert(!has_mod_inverse(lagrange_denominator(points@, i as int, m), m));
                    assert(denominator_error(points@, i as int, modulus)
                        == BgvLevelError::BootstrapCarryInterpolationDenominatorNotInvertible {
                        denominator,
                        modulus,
                    });
                }
                return Err(
                    BgvLevelError::BootstrapCarryInterpolationDenominatorNotInvertible {
                        denominator,
                        modulus,
                    },
                );
            },
        };
        let y_i = points[i].1;
        let scale = mul_mod(y_i, inv_den, modulus);
        proof {
            let d = lagrange_denominator(points@, i as int, m);
            assert(has_mod_inverse(d, m));
            let chosen = choose|x: int| is_mod_inverse(d, x, m);
            lemma_mod_inverse_unique(d, chosen, inv_den as int, m);
            assert(scale == lagrange_scale(points@, i as int, m));
        }
        let ghost old_result = result@;
        let mut d: usize = 0;
        while d < n
            invariant
                modulus > 0,
                m == modulus as int,
                n == points@.len(),
                basis@.len() == n,
                result@.len() == n,
                old_result.len() == n,
                d <= n,
                is_reduced(result@, m),
                forall|e: int|
                    0 <= e < n ==> #[trigger] result@[e] == (if e < d {
                        ((old_result[e] + (basis@[e] * scale) % m) % m) as u64
                    } else {
                        old_result[e]
                    }),
            decreases n - d,
        {
            let term = mul_mod(basis[d], scale, modulus);
            let v = add_mod(result[d], term, modulus);
            result.set(d, v);
            d += 1;
        }
        proof {
            assert forall|e: int| 0 <= e < n implies (#[trigger] result@[e] as int) % m == (
            old_result[e] + scale * basis@[e]) % m by {
                lemma_add_mod_noop(old_result[e] as int, basis@[e] * scale, m);
                lemma_small_mod(old_result[e] as nat, modulus as nat);
                vstd::arithmetic::div_mod::lemma_mod_twice(basis@[e] * scale, m);
                vstd::arithmetic::div_mod::lemma_mod_twice(old_result[e] + (basis@[e] * scale) % m, m);
                assert(basis@[e] * scale == scale * basis@[e]) by (nonlinear_arith);
            }
            assert forall|z: int| #![trigger poly_value(result@, z)]
                poly_value(result@, z) % m == lagrange_sum(points@, i + 1, z, m) % m by {
                lemma_poly_value_linear(result@, old_result, basis@, scale as int, z, m);
                let num = lagrange_numerator(points@, i as int, n as int, z);
                assert(poly_value(basis@, z) % m == num % m);
                vstd::arithmetic::div_mod::lemma_mod_twice(scale as int, m);
                lemma_mul_cong2(scale as int, scale as int, poly_value(basis@, z), num, m);
                lemma_add_cong(
                    poly_value(old_result, z),
                    lagrange_sum(points@, i as int, z, m),
                    scale * poly_value(basis@, z),
                    scale * num,
                    m,
                );
            }
        }
        i += 1;
    }
    // Drop trailing zero coefficients (keeping at least one).
    while result.len() > 1 && result[result.len() - 1] == 0
        invariant
            modulus > 0,
            m == modulus as int,
            result@.len() <= n,
            n >= 1 ==> result@.len() >= 1,
            n == 0 ==> result@.len() == 0,
            is_reduced(result@, m),
            forall|z: int|
                #![trigger poly_value(result@, z)]
                poly_value(result@, z) % m == lagrange_sum(points@, n as int, z, m) % m,
        decreases result@.len(),
    {
        let ghost before = result@;
        result.pop();
        proof {
            assert(before =~= result@.push(0));
            assert forall|z: int| #![trigger poly_value(result@, z)]
                poly_value(result@, z) % m == lagrange_sum(points@, n as int, z, m) % m by {
                lemma_poly_value_push_zero(result@, z);
                assert(poly_value(before, z) % m == lagrange_sum(points@, n as int, z, m) % m);
            }
        }
    }
    proof {
        assert forall|k: int| 0 <= k < points@.len() implies poly_value(
            result@,
            #[trigger] points@[k].0 as int,
        ) % m == (points@[k].1 as int) % m by {
            lemma_lagrange_sum_interpolates(points@, k, m);
            assert(poly_value(result@, points@[k].0 as int) % m == lagrange_sum(
                points@,
                n as int,
                points@[k].0 as int,
                m,
            ) % m);
        }
    }
    Ok(result)
}

proof fn lemma_poly_value_zeros(c: Seq<u64>, z: int)
    requires
        forall|d: int| 0 <= d < c.len() ==> #[trigger] c[d] == 0,
    ensures
        poly_value(c, z) == 0,
    decreases c.len(),
{
    if c.len() > 0 {
        assert forall|d: int| 0 <= d < c.drop_first().len() implies #[trigger] c.drop_first()[d]
            == 0 by {
            assert(c.drop_first()[d] == c[d + 1]);
        }
        lemma_poly_value_zeros(c.drop_first(), z);
        assert(z * 0 == 0) by (nonlinear_arith);
    }
}

} // verus!

verus! {

// ---------------------------------------------------------------------------
// Carry-correction polynomial
// ---------------------------------------------------------------------------

/// Lookup polynomial mapping a coefficient's wrap count `w ∈ [−B, B]` to the
/// plaintext correction `−w · Q · f⁻¹ mod t`.
#[derive(Clone, Debug, PartialEq, Eq)]
pub struct BgvBootstrapCarryPolynomial {
    pub plain_modulus: u64,
    pub max_abs_wrap_count: u64,
    pub q_mod_plaintext: u64,
    pub factor_inverse: u64,
    pub scalar_coefficients: Vec<u64>,
}

/// Interpolation node for wrap count `k − B`: `x = (k − B) mod t` and
/// `y = (−(k − B) mod t) · q_factor mod t`.
pub open spec fn carry_point(k: int, bound: int, t: int, q_factor: int) -> (u64, u64) {
    let w = k - bound;
    ((w % t) as u64, ((((-w) % t) * q_factor) % t) as u64)
}

/// The `2B + 1` interpolation nodes of the carry-correction polynomial.
pub open spec fn carry_points(bound: int, t: int, q_factor: int) -> Seq<(u64, u64)> {
    Seq::new((2 * bound + 1) as nat, |k: int| carry_point(k, bound, t, q_factor))
}

/// `Q · f⁻¹ mod t`, the per-wrap plaintext offset.
pub open spec fn carry_q_factor(q_mod_plaintext: u64, factor_inverse: u64, t: u64) -> int {
    (((q_mod_plaintext % t) as int) * ((factor_inverse % t) as int)) % (t as int)
}

/// Builds the polynomial over `Z / t` that maps every wrap count
/// `w ∈ [−B, B]` to `−w · Q · f⁻¹ mod t`.  Fails when `2B + 1` nodes do not
/// fit in `Z / t`, or when an interpolation denominator is not invertible.
pub fn bgv_bootstrap_carry_correction_polynomial(
    plain_modulus: u64,
    max_abs_wrap_count: u64,
    q_mod_plaintext: u64,
    factor_inverse: u64,
) -> (r: Result<BgvBootstrapCarryPolynomial, BgvLevelError>)
    requires
        plain_modulus > 0,
        2 * max_abs_wrap_count + 1 <= plain_modulus ==> 2 * max_abs_wrap_count + 2 <= usize::MAX,
    ensures
        2 * max_abs_wrap_count + 1 > plain_modulus ==> r == Err::<
            BgvBootstrapCarryPolynomial,
            BgvLevelError,
        >(
            BgvLevelError::BootstrapCarryBoundTooLarge {
                bound: max_abs_wrap_count,
                modulus: plain_modulus,
            },
        ),
        2 * max_abs_wrap_count + 1 <= plain_modulus ==> ({
            let qf = carry_q_factor(q_mod_plaintext, factor_inverse, plain_modulus);
            let pts = carry_points(max_abs_wrap_count as int, plain_modulus as int, qf);
            &&& (r is Ok <==> interpolation_possible(pts, plain_modulus as int))
            &&& r is Ok ==> {
                let p = r->Ok_0;
                &&& p.plain_modulus == plain_modulus
                &&& p.max_abs_wrap_count == max_abs_wrap_count
                &&& p.q_mod_plaintext == q_mod_plaintext % plain_modulus
                &&& p.factor_inverse == factor_inverse % plain_modulus
                &&& is_trimmed(p.scalar_coefficients@)
                &&& is_reduced(p.scalar_coefficients@, plain_modulus as int)
                &&& p.scalar_coefficients@.len() <= pts.len()
                &&& forall|z: int|
                    #![trigger poly_value(p.scalar_coefficients@, z)]
                    poly_value(p.scalar_coefficients@, z) % (plain_modulus as int) == lagrange_sum(
                        pts,
                        pts.len() as int,
                        z,
                        plain_modulus as int,
                    ) % (plain_modulus as int)
                &&& forall|w: int|
                    -(max_abs_wrap_count as int) <= w <= max_abs_wrap_count ==> poly_value(
                        p.scalar_coefficients@,
                        #[trigger] (w % (plain_modulus as int)),
                    ) % (plain_modulus as int) == (((-w) % (plain_modulus as int)) * qf) % (
                    plain_modulus as int)
            }
            &&& r is Err ==> exists|i: int|
                0 <= i < pts.len() && !has_mod_inverse(
                    lagrange_denominator(pts, i, plain_modulus as int),
                    plain_modulus as int,
                ) && r->Err_0 == denominator_error(pts, i, plain_modulus)
        }),
{
    let t = plain_modulus;
    let point_count = match max_abs_wrap_count.checked_mul(2) {
        Some(v) => v.checked_add(1),
        None => None,
    };
    let too_large = match point_count {
        Some(c) => c > t,
        None => true,
    };
    if too_large {
        return Err(
            BgvLevelError::BootstrapCarryBoundTooLarge { bound: max_abs_wrap_count, modulus: t },
        );
    }
    let q_factor = mul_mod(q_mod_plaintext % t, factor_inverse % t, t);
    let ghost qf = carry_q_factor(q_mod_plaintext, factor_inverse, plain_modulus);
    let ghost pts = carry_points(max_abs_wrap_count as int, t as int, qf);
    let count: usize = (2 * max_abs_wrap_count + 1) as usize;
    let bound: u64 = max_abs_wrap_count;
    let mut points: Vec<(u64, u64)> = Vec::new();
    let mut k: usize = 0;
    while k < count
        invariant
            t > 0,
            count == 2 * max_abs_wrap_count + 1,
            count <= t,
            bound == max_abs_wrap_count,
            2 * bound < 0x1_0000_0000_0000_0000,
            q_factor == qf,
            0 <= qf < t,
            pts == carry_points(max_abs_wrap_count as int, t as int, qf),
            k <= count,
            points@.len() == k,
            forall|kk: int| 0 <= kk < k ==> #[trigger] points@[kk] == pts[kk],
        decreases count - k,
    {
        let ku: u64 = k as u64;
        let wrap: i64 = if ku >= bound {
            (ku - bound) as i64
        } else {
            -((bound - ku) as i64)
        };
        assert(wrap == k - bound);
        let x = crate::modarith::signed_i64_to_mod(wrap, t);
        let neg = crate::modarith::signed_i64_to_mod(-wrap, t);
        let y = mul_mod(neg, q_factor, t);
        proof {
            assert(pts[k as int] == carry_point(k as int, max_abs_wrap_count as int, t as int, qf));
        }
        points.push((x, y));
        k += 1;
    }
    proof {
        assert(points@ =~= pts);
    }
    match interpolate_lagrange_mod(&points, t) {
        Ok(scalar_coefficients) => {
            proof {
                assert forall|w: int|
                    -(max_abs_wrap_count as int) <= w <= max_abs_wrap_count implies poly_value(
                    scalar_coefficients@,
                    #[trigger] (w % (t as int)),
                ) % (t as int) == (((-w) % (t as int)) * qf) % (t as int) by {
                    let kk = w + max_abs_wrap_count;
                    assert(pts[kk] == carry_point(kk, max_abs_wrap_count as int, t as int, qf));
                    assert(poly_value(scalar_coefficients@, pts[kk].0 as int) % (t as int) == (
                    pts[kk].1 as int) % (t as int));
                    lemma_mod_bound(w, t as int);
                    lemma_mod_bound(((-w) % (t as int)) * qf, t as int);
                    lemma_small_mod(pts[kk].1 as nat, t as nat);
                }
            }
            Ok(
                BgvBootstrapCarryPolynomial {
                    plain_modulus: t,
                    max_abs_wrap_count,
                    q_mod_plaintext: q_mod_plaintext % t,
                    factor_inverse: factor_inverse % t,
                    scalar_coefficients,
                },
            )
        },
        Err(e) => Err(e),
    }
}

impl BgvBootstrapCarryPolynomial {
    /// Value of the carry polynomial at `wrap_count mod t`.
    pub fn evaluate_scalar(&self, wrap_count: i64) -> (r: u64)
        requires
            self.plain_modulus > 0,
        ensures
            r == poly_value(
                self.scalar_coefficients@,
                (wrap_count as int) % (self.plain_modulus as int),
            ) % (self.plain_modulus as int),
    {
        let x = crate::modarith::signed_i64_to_mod(wrap_count, self.plain_modulus);
        crate::polymod::evaluate_mod(&self.scalar_coefficients, x, self.plain_modulus)
    }
}

/// Law: on every wrap count in `[−B, B]` the carry polynomial yields the
/// plaintext correction `−w · Q · f⁻¹ mod t`.
pub proof fn lemma_carry_polynomial_corrects_wraps(
    p: BgvBootstrapCarryPolynomial,
    q_mod_plaintext: u64,
    factor_inverse: u64,
    w: int,
)
    requires
        p.plain_modulus > 0,
        -(p.max_abs_wrap_count as int) <= w <= p.max_abs_wrap_count,
        forall|v: int|
            -(p.max_abs_wrap_count as int) <= v <= p.max_abs_wrap_count ==> poly_value(
                p.scalar_coefficients@,
                #[trigger] (v % (p.plain_modulus as int)),
            ) % (p.plain_modulus as int) == (((-v) % (p.plain_modulus as int)) * carry_q_factor(
                q_mod_plaintext,
                factor_inverse,
                p.plain_modulus,
            )) % (p.plain_modulus as int),
    ensures
        poly_value(p.scalar_coefficients@, w % (p.plain_modulus as int)) % (p.plain_modulus as int)
            == (((-w) % (p.plain_modulus as int)) * carry_q_factor(
            q_mod_plaintext,
            factor_inverse,
            p.plain_modulus,
        )) % (p.plain_modulus as int),
{
}

} // verus!

verus! {

// ---------------------------------------------------------------------------
// Single-modulus wrap classifier
// ---------------------------------------------------------------------------

/// Largest classifier plaintext modulus whose lookup table is interpolated.
pub const MAX_CLASSIFIER_LOOKUP_POINTS: u64 = 4096;

/// Lookup polynomial over `Z / f` mapping the residue of a raw phase
/// coefficient (within the phase bound) to its wrap count around the
/// ciphertext modulus `Q`.
#[derive(Clone, Debug, PartialEq, Eq)]
pub struct BgvBootstrapSingleModulusWrapClassifierPolynomial {
    pub source_degree: usize,
    pub classifier_plain_modulus: u64,
    pub phase_bound_abs: u64,
    pub max_abs_wrap_count: u64,
    pub scalar_coefficients: Vec<u64>,
}

/// `|x|`.
pub open spec fn abs_int(x: int) -> int {
    if x < 0 {
        -x
    } else {
        x
    }
}

/// Largest wrap count of a phase in `[−B, B]`: the larger of the wrap
/// counts of `±B` in absolute value.
pub open spec fn max_abs_wrap_for_bound(phase_bound_abs: u64, q: int) -> int {
    let a = abs_int(centered_wrap(phase_bound_abs as int, q));
    let b = abs_int(centered_wrap(-(phase_bound_abs as int), q));
    if a >= b {
        a
    } else {
        b
    }
}

/// Largest wrap count `|⌊p / Q⌉|` over the phases `p = ±B` (the extreme
/// phases within the bound `|p| ≤ B`), for `Q = ∏ q_i` and a bound small
/// enough for machine integers.
pub fn max_abs_wrap_count_for_small_phase_bound(moduli: &Vec<u64>, phase_bound_abs: u64) -> (r: u64)
    requires
        forall|i: int| 0 <= i < moduli@.len() ==> #[trigger] moduli@[i] > 0,
        phase_bound_abs <= 0x4000_0000_0000_0000,
    ensures
        r == max_abs_wrap_for_bound(phase_bound_abs, prefix_product(moduli@, moduli@.len() as int)),
{
    let pb = phase_bound_abs as i64;
    let positive_wrap = centered_wrap_product(pb, moduli);
    let negative_wrap = centered_wrap_product(-pb, moduli);
    let a: i64 = if positive_wrap < 0 {
        -positive_wrap
    } else {
        positive_wrap
    };
    let b: i64 = if negative_wrap < 0 {
        -negative_wrap
    } else {
        negative_wrap
    };
    let max_abs: i64 = if a >= b {
        a
    } else {
        b
    };
    max_abs as u64
}

/// The residue `x < f` lifts to a phase within the bound `B`.
pub open spec fn classifier_covers(x: int, f: u64, phase_bound_abs: u64) -> bool {
    abs_int(centered(x, f as int)) <= phase_bound_abs
}

/// A covered residue whose wrap count lies outside `[−W, W]`.
pub open spec fn classifier_out_of_range(x: int, f: u64, phase_bound_abs: u64, q: int) -> bool {
    classifier_covers(x, f, phase_bound_abs) && abs_int(centered_wrap(centered(x, f as int), q))
        > max_abs_wrap_for_bound(phase_bound_abs, q)
}

/// Nodes of the single-modulus classifier: covered residues map to their
/// wrap count modulo `f`, the others to `0`.
pub open spec fn classifier_points(f: u64, phase_bound_abs: u64, q: int) -> Seq<(u64, u64)> {
    Seq::new(
        f as nat,
        |x: int|
            (
                x as u64,
                if classifier_covers(x, f, phase_bound_abs) {
                    signed_residue(centered_wrap(centered(x, f as int), q), f as int) as u64
                } else {
                    0u64
                },
            ),
    )
}

/// Builds the single-modulus wrap classifier for a source ciphertext
/// (degree, ciphertext moduli with product `Q`) and a classifier plaintext
/// space (degree, modulus `f`) under the phase bound `|phase| ≤ B`.
#[verifier::rlimit(30)]
pub fn bgv_bootstrap_single_modulus_wrap_classifier_polynomial(
    source_degree: usize,
    source_ciphertext_moduli: &Vec<u64>,
    classifier_degree: usize,
    classifier_plain_modulus: u64,
    phase_bound: &WideInt,
) -> (r: Result<BgvBootstrapSingleModulusWrapClassifierPolynomial, BgvLevelError>)
    requires
        classifier_plain_modulus > 0,
        forall|i: int|
            0 <= i < source_ciphertext_moduli@.len() ==> #[trigger] source_ciphertext_moduli@[i]
                > 0,
    ensures
        ({
            let f = classifier_plain_modulus;
            let pb_int = int_abs(phase_bound@);
            let pb = pb_int as u64;
            let q = prefix_product(source_ciphertext_moduli@, source_ciphertext_moduli@.len() as int);
            let cov = 2 * pb_int + 1;
            let checks = source_degree == classifier_degree && f <= MAX_CLASSIFIER_LOOKUP_POINTS && f
                > cov;
            &&& source_degree != classifier_degree ==> r == Err::<
                BgvBootstrapSingleModulusWrapClassifierPolynomial,
                BgvLevelError,
            >(
                BgvLevelError::CiphertextDegreeMismatch {
                    expected: source_degree,
                    actual: classifier_degree,
                },
            )
            &&& source_degree == classifier_degree && f > MAX_CLASSIFIER_LOOKUP_POINTS ==> r == Err::<
                BgvBootstrapSingleModulusWrapClassifierPolynomial,
                BgvLevelError,
            >(
                BgvLevelError::BootstrapClassifierLookupTooLarge {
                    modulus: f,
                    max_points: MAX_CLASSIFIER_LOOKUP_POINTS,
                },
            )
            &&& source_degree == classifier_degree && f <= MAX_CLASSIFIER_LOOKUP_POINTS && f <= cov
                ==> r == Err::<BgvBootstrapSingleModulusWrapClassifierPolynomial, BgvLevelError>(
                BgvLevelError::BootstrapSingleModulusClassifierCoverageTooSmall {
                    modulus: f,
                    required: if cov > u64::MAX {
                        u64::MAX
                    } else {
                        cov as u64
                    },
                },
            )
            &&& checks ==> forall|x: int|
                0 <= x < f && classifier_out_of_range(x, f, pb, q) && (forall|y: int|
                    0 <= y < x ==> !classifier_out_of_range(y, f, pb, q)) ==> r == Err::<
                    BgvBootstrapSingleModulusWrapClassifierPolynomial,
                    BgvLevelError,
                >(BgvLevelError::BootstrapCrtReconstructionOutOfRange { coefficient: x as usize })
            &&& checks && (forall|x: int| 0 <= x < f ==> !classifier_out_of_range(x, f, pb, q))
                ==> {
                let pts = classifier_points(f, pb, q);
                &&& (r is Ok <==> interpolation_possible(pts, f as int))
                &&& r is Err ==> exists|i: int|
                    0 <= i < f && !has_mod_inverse(lagrange_denominator(pts, i, f as int), f as int)
                        && r->Err_0 == denominator_error(pts, i, f)
            }
            &&& r is Ok ==> ({
                let c = r->Ok_0;
                &&& c.source_degree == source_degree
                &&& c.classifier_plain_modulus == f
                &&& c.phase_bound_abs == pb
                &&& c.max_abs_wrap_count == max_abs_wrap_for_bound(pb, q)
                &&& is_interpolant(c.scalar_coefficients@, classifier_points(f, pb, q), f as int)
            })
        }),
{
    if source_degree != classifier_degree {
        return Err(
            BgvLevelError::CiphertextDegreeMismatch {
                expected: source_degree,
                actual: classifier_degree,
            },
        );
    }
    let f = classifier_plain_modulus;
    if f > MAX_CLASSIFIER_LOOKUP_POINTS {
        return Err(
            BgvLevelError::BootstrapClassifierLookupTooLarge {
                modulus: f,
                max_points: MAX_CLASSIFIER_LOOKUP_POINTS,
            },
        );
    }
    let bound = phase_bound.abs();
    let required_wide = bound.times(&WideInt::from_u64(2)).plus(&WideInt::from_u64(1));
    if WideInt::from_u64(f).le(&required_wide) {
        let required = match required_wide.to_u64() {
            Some(v) => v,
            None => u64::MAX,
        };
        return Err(
            BgvLevelError::BootstrapSingleModulusClassifierCoverageTooSmall {
                modulus: f,
                required,
            },
        );
    }
    let phase_bound_abs = match bound.to_u64() {
        Some(v) => v,
        None => 0,
    };
    let ghost q = prefix_product(source_ciphertext_moduli@, source_ciphertext_moduli@.len() as int);
    let pb = phase_bound_abs as i64;
    let max_abs = max_abs_wrap_count_for_small_phase_bound(source_ciphertext_moduli, phase_bound_abs);
    let ghost pts = classifier_points(f, phase_bound_abs, q);
    let mut points: Vec<(u64, u64)> = Vec::new();
    let mut x: u64 = 0;
    while x < f
        invariant
            f == classifier_plain_modulus,
            source_degree == classifier_degree,
            0 < f <= MAX_CLASSIFIER_LOOKUP_POINTS,
            f > 2 * (phase_bound_abs as int) + 1,
            pb == phase_bound_abs,
            phase_bound_abs == int_abs(phase_bound@),
            forall|i: int|
                0 <= i < source_ciphertext_moduli@.len() ==> #[trigger] source_ciphertext_moduli@[i]
                    > 0,
            q == prefix_product(source_ciphertext_moduli@, source_ciphertext_moduli@.len() as int),
            max_abs == max_abs_wrap_for_bound(phase_bound_abs, q),
            pts == classifier_points(f, phase_bound_abs, q),
            x <= f,
            points@.len() == x,
            forall|j: int| 0 <= j < x ==> #[trigger] points@[j] == pts[j],
            forall|j: int| 0 <= j < x ==> !classifier_out_of_range(j, f, phase_bound_abs, q),
        decreases f - x,
    {
        let c: i128 = centered_residue_mod_plaintext(x, f);
        proof {
            lemma_small_mod(x as nat, f as nat);
        }
        let covered = -(pb as i128) <= c && c <= pb as i128;
        let y: u64 = if covered {
            let w = centered_wrap_product(c as i64, source_ciphertext_moduli);
            let aw: i64 = if w < 0 {
                -w
            } else {
                w
            };
            if aw as u64 > max_abs {
                proof {
                    assert(classifier_out_of_range(x as int, f, phase_bound_abs, q));
                    assert forall|x2: int|
                        0 <= x2 < f && classifier_out_of_range(x2, f, phase_bound_abs, q) && (forall|
                            y: int,
                        | 0 <= y < x2 ==> !classifier_out_of_range(y, f, phase_bound_abs, q))
                        implies x2 == x by {
                        if x2 > x {
                            assert(!classifier_out_of_range(x as int, f, phase_bound_abs, q));
                        }
                    }
                }
                return Err(
                    BgvLevelError::BootstrapCrtReconstructionOutOfRange { coefficient: x as usize },
                );
            }
            signed_i64_to_mod(w, f)
        } else {
            0
        };
        points.push((x, y));
        x += 1;
    }
    proof {
        assert(points@ =~= pts);
    }
    match interpolate_lagrange_mod(&points, f) {
        Ok(scalar_coefficients) => Ok(
            BgvBootstrapSingleModulusWrapClassifierPolynomial {
                source_degree,
                classifier_plain_modulus: f,
                phase_bound_abs,
                max_abs_wrap_count: max_abs,
                scalar_coefficients,
            },
        ),
        Err(e) => Err(e),
    }
}

impl BgvBootstrapSingleModulusWrapClassifierPolynomial {
    /// Value of the classifier at `residue mod f`.
    pub fn evaluate_scalar(&self, residue: u64) -> (r: u64)
        requires
            self.classifier_plain_modulus > 0,
        ensures
            r == poly_value(
                self.scalar_coefficients@,
                (residue % self.classifier_plain_modulus) as int,
            ) % (self.classifier_plain_modulus as int),
    {
        crate::polymod::evaluate_mod(
            &self.scalar_coefficients,
            residue % self.classifier_plain_modulus,
            self.classifier_plain_modulus,
        )
    }
}

} // verus!
