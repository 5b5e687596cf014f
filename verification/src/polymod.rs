//! Polynomials over `Z / m` with `u64` coefficients (lowest degree first):
//! evaluation, coefficient-wise accumulation and Lagrange interpolation.

use vstd::prelude::*;
use vstd::arithmetic::div_mod::{
    lemma_add_mod_noop, lemma_mul_mod_noop_left, lemma_mul_mod_noop_right, lemma_small_mod,
    lemma_mod_bound, lemma_mul_mod_noop_general, lemma_sub_mod_noop,
};

use crate::modarith::{
    add_mod, has_mod_inverse, is_mod_inverse, is_prime, lemma_prime_unit, lemma_unit_product,
    mul_mod, sub_mod,
};

verus! {

// ---------------------------------------------------------------------------
// Specifications
// ---------------------------------------------------------------------------

/// Value of the polynomial `c[0] + c[1]·x + c[2]·x² + …` over the integers.
pub open spec fn poly_value(c: Seq<u64>, x: int) -> int
    decreases c.len(),
{
    if c.len() == 0 {
        0
    } else {
        c[0] + x * poly_value(c.drop_first(), x)
    }
}

/// `∏_{j < upto, j ≠ i} (z − x_j)`: the `i`-th Lagrange numerator at `z`.
pub open spec fn lagrange_numerator(points: Seq<(u64, u64)>, i: int, upto: int, z: int) -> int
    decreases upto,
{
    if upto <= 0 {
        1
    } else if upto - 1 == i {
        lagrange_numerator(points, i, upto - 1, z)
    } else {
        lagrange_numerator(points, i, upto - 1, z) * (z - points[upto - 1].0)
    }
}

/// The `i`-th Lagrange denominator as the interpolation computes it:
/// `∏_{j ≠ i} (x_i − x_j) mod m` (the empty product is `1`).
pub open spec fn lagrange_denominator(points: Seq<(u64, u64)>, i: int, m: int) -> int {
    if points.len() <= 1 {
        1
    } else {
        lagrange_numerator(points, i, points.len() as int, points[i].0 as int) % m
    }
}

/// The `i`-th Lagrange weight `y_i / d_i mod m` (when `d_i` is invertible).
pub open spec fn lagrange_scale(points: Seq<(u64, u64)>, i: int, m: int) -> int {
    let d = lagrange_denominator(points, i, m);
    let inv = choose|x: int| is_mod_inverse(d, x, m);
    ((points[i].1 as int) * inv) % m
}

/// `Σ_{i < upto} w_i · ∏_{j ≠ i} (z − x_j)`: the Lagrange form of the
/// interpolating polynomial restricted to the first `upto` points.
pub open spec fn lagrange_sum(points: Seq<(u64, u64)>, upto: int, z: int, m: int) -> int
    decreases upto,
{
    if upto <= 0 {
        0
    } else {
        lagrange_sum(points, upto - 1, z, m) + lagrange_scale(points, upto - 1, m)
            * lagrange_numerator(points, upto - 1, points.len() as int, z)
    }
}

/// Every Lagrange denominator is invertible modulo `m`.
pub open spec fn interpolation_possible(points: Seq<(u64, u64)>, m: int) -> bool {
    forall|i: int| 0 <= i < points.len() ==> has_mod_inverse(
        #[trigger] lagrange_denominator(points, i, m),
        m,
    )
}

/// No trailing zero coefficient beyond the constant term.
pub open spec fn is_trimmed(c: Seq<u64>) -> bool {
    c.len() <= 1 || c.last() != 0
}

/// All coefficients reduced modulo `m`.
pub open spec fn is_reduced(c: Seq<u64>, m: int) -> bool {
    forall|d: int| 0 <= d < c.len() ==> #[trigger] c[d] < m
}

// ---------------------------------------------------------------------------
// Lemmas
// ---------------------------------------------------------------------------

/// Appending a zero coefficient leaves the value unchanged.
pub proof fn lemma_poly_value_push_zero(c: Seq<u64>, x: int)
    ensures
        poly_value(c.push(0), x) == poly_value(c, x),
    decreases c.len(),
{
    if c.len() > 0 {
        assert(c.push(0).drop_first() =~= c.drop_first().push(0));
        lemma_poly_value_push_zero(c.drop_first(), x);
    } else {
        assert(c.push(0).drop_first() =~= Seq::<u64>::empty());
        assert(poly_value(Seq::<u64>::empty(), x) == 0);
        assert(poly_value(c.push(0), x) == 0 + x * 0);
    }
}

/// Prepending a zero coefficient multiplies the value by `x`.
pub proof fn lemma_poly_value_shift(c: Seq<u64>, x: int)
    ensures
        poly_value(seq![0u64] + c, x) == x * poly_value(c, x),
{
    assert((seq![0u64] + c).drop_first() =~= c);
}

/// Congruence of a linear combination: if `r ≡ a + s·b` coefficient-wise
/// (equal lengths), then `r(x) ≡ a(x) + s·b(x)` modulo `m`.
pub proof fn lemma_poly_value_linear(r: Seq<u64>, a: Seq<u64>, b: Seq<u64>, s: int, x: int, m: int)
    requires
        m > 0,
        r.len() == a.len(),
        r.len() == b.len(),
        forall|d: int| 0 <= d < r.len() ==> (#[trigger] r[d] as int) % m == (a[d] + s * b[d]) % m,
    ensures
        poly_value(r, x) % m == (poly_value(a, x) + s * poly_value(b, x)) % m,
    decreases r.len(),
{
    if r.len() > 0 {
        let r1 = r.drop_first();
        let a1 = a.drop_first();
        let b1 = b.drop_first();
        assert forall|d: int| 0 <= d < r1.len() implies (#[trigger] r1[d] as int) % m == (a1[d] + s
            * b1[d]) % m by {
            assert(r1[d] == r[d + 1]);
        }
        lemma_poly_value_linear(r1, a1, b1, s, x, m);
        let pr = poly_value(r1, x);
        let pa = poly_value(a1, x);
        let pb = poly_value(b1, x);
        // r0 + x·pr ≡ (a0 + s·b0) + x·(pa + s·pb)
        lemma_mul_mod_noop_right(x, pr, m);
        lemma_mul_mod_noop_right(x, pa + s * pb, m);
        assert((x * pr) % m == (x * (pa + s * pb)) % m);
        lemma_add_cong(r[0] as int, a[0] + s * b[0], x * pr, x * (pa + s * pb), m);
        assert((a[0] + s * b[0]) + x * (pa + s * pb) == (a[0] + x * pa) + s * (b[0] + x * pb))
            by (nonlinear_arith);
    }
}

/// `a ≡ b` and `c ≡ d` imply `a + c ≡ b + d` (mod `m`).
pub proof fn lemma_add_cong(a: int, b: int, c: int, d: int, m: int)
    requires
        m > 0,
        a % m == b % m,
        c % m == d % m,
    ensures
        (a + c) % m == (b + d) % m,
{
    lemma_add_mod_noop(a, c, m);
    lemma_add_mod_noop(b, d, m);
}

/// `a ≡ b` implies `a·c ≡ b·c` (mod `m`).
pub proof fn lemma_mul_cong(a: int, b: int, c: int, m: int)
    requires
        m > 0,
        a % m == b % m,
    ensures
        (a * c) % m == (b * c) % m,
{
    lemma_mul_mod_noop_left(a, c, m);
    lemma_mul_mod_noop_left(b, c, m);
}

/// A numerator containing the factor `(x_k − x_k)` vanishes at `x_k`.
proof fn lemma_numerator_vanishes(points: Seq<(u64, u64)>, i: int, k: int, upto: int)
    requires
        0 <= k < upto,
        i != k,
    ensures
        lagrange_numerator(points, i, upto, points[k].0 as int) == 0,
    decreases upto,
{
    if upto - 1 == k {
        let z = points[k].0 as int;
        assert(z - points[upto - 1].0 == 0);
        assert(lagrange_numerator(points, i, upto - 1, z) * 0 == 0) by (nonlinear_arith);
    } else {
        lemma_numerator_vanishes(points, i, k, upto - 1);
        let z = points[k].0 as int;
        if upto - 1 != i {
            assert(0 * (z - points[upto - 1].0) == 0) by (nonlinear_arith);
        }
    }
}

/// At a node `x_k` only the `k`-th Lagrange term survives.
proof fn lemma_lagrange_sum_at_node(points: Seq<(u64, u64)>, upto: int, k: int, m: int)
    requires
        0 <= upto <= points.len(),
        0 <= k < points.len(),
    ensures
        lagrange_sum(points, upto, points[k].0 as int, m) == (if k < upto {
            lagrange_scale(points, k, m) * lagrange_numerator(
                points,
                k,
                points.len() as int,
                points[k].0 as int,
            )
        } else {
            0
        }),
    decreases upto,
{
    if upto > 0 {
        lemma_lagrange_sum_at_node(points, upto - 1, k, m);
        if upto - 1 != k {
            lemma_numerator_vanishes(points, upto - 1, k, points.len() as int);
            let s = lagrange_scale(points, upto - 1, m);
            assert(s * 0 == 0) by (nonlinear_arith);
        }
    }
}

/// The Lagrange form takes the prescribed value `y_k` at every node.
pub proof fn lemma_lagrange_sum_interpolates(points: Seq<(u64, u64)>, k: int, m: int)
    requires
        m > 0,
        0 <= k < points.len(),
        interpolation_possible(points, m),
    ensures
        lagrange_sum(points, points.len() as int, points[k].0 as int, m) % m == (points[k].1 as int)
            % m,
{
    lemma_lagrange_sum_at_node(points, points.len() as int, k, m);
    let d = lagrange_denominator(points, k, m);
    assert(has_mod_inverse(d, m));
    let inv = choose|x: int| is_mod_inverse(d, x, m);
    assert(is_mod_inverse(d, inv, m));
    let num = lagrange_numerator(points, k, points.len() as int, points[k].0 as int);
    let y = points[k].1 as int;
    // num ≡ d (mod m)
    if points.len() <= 1 {
        assert(points.len() == 1);
        assert(num == 1) by {
            assert(lagrange_numerator(points, k, 0, points[k].0 as int) == 1);
        }
        assert(d == 1);
    } else {
        lemma_small_mod_int(d, m);
    }
    assert(num % m == d % m);
    // ((y·inv) mod m)·num ≡ y·inv·d ≡ y
    lemma_mul_mod_noop_left(y * inv, num, m);
    lemma_mul_cong(num, d, y * inv, m);
    assert((y * inv) * num == num * (y * inv)) by (nonlinear_arith);
    assert((y * inv) * d == d * (y * inv)) by (nonlinear_arith);
    assert(y * inv * d == y * (d * inv)) by (nonlinear_arith);
    lemma_mul_mod_noop_right(y, d * inv, m);
    lemma_small_mod(1, m as nat);
    assert(((d * inv) % m) == 1);
    assert((y * 1) % m == y % m);
}

proof fn lemma_small_mod_int(d: int, m: int)
    requires
        m > 0,
        0 <= d < m,
    ensures
        d % m == d,
{
    lemma_small_mod(d as nat, m as nat);
}

/// Invertibility modulo `m` depends only on the residue.
pub proof fn lemma_has_inverse_mod(a: int, m: int)
    requires
        m > 0,
    ensures
        has_mod_inverse(a, m) == has_mod_inverse(a % m, m),
{
    if has_mod_inverse(a, m) {
        let x = choose|x: int| is_mod_inverse(a, x, m);
        lemma_mul_mod_noop_left(a, x, m);
        assert(is_mod_inverse(a % m, x, m));
    }
    if has_mod_inverse(a % m, m) {
        let x = choose|x: int| #[trigger] is_mod_inverse(a % m, x, m);
        lemma_mul_mod_noop_left(a, x, m);
        assert(is_mod_inverse(a, x, m));
    }
}

/// The points' abscissas are pairwise distinct and below `m`.
pub open spec fn distinct_nodes_below(points: Seq<(u64, u64)>, m: int) -> bool {
    &&& forall|k: int| 0 <= k < points.len() ==> (#[trigger] points[k]).0 < m
    &&& forall|j: int, k: int|
        0 <= j < points.len() && 0 <= k < points.len() && j != k ==> (#[trigger] points[j]).0
            != (#[trigger] points[k]).0
}

proof fn lemma_partial_numerator_unit(points: Seq<(u64, u64)>, i: int, upto: int, p: int)
    requires
        is_prime(p),
        distinct_nodes_below(points, p),
        0 <= i < points.len(),
        0 <= upto <= points.len(),
    ensures
        has_mod_inverse(lagrange_numerator(points, i, upto, points[i].0 as int) % p, p),
    decreases upto,
{
    let xi = points[i].0 as int;
    let num = lagrange_numerator(points, i, upto, xi);
    if upto <= 0 {
        lemma_small_mod(1, p as nat);
        assert(is_mod_inverse(1, 1, p));
    } else if upto - 1 == i {
        lemma_partial_numerator_unit(points, i, upto - 1, p);
    } else {
        lemma_partial_numerator_unit(points, i, upto - 1, p);
        let prev = lagrange_numerator(points, i, upto - 1, xi);
        let xj = points[upto - 1].0 as int;
        let diff = xi - xj;
        assert(xi != xj);
        assert(diff % p != 0) by {
            if diff > 0 {
                lemma_small_mod(diff as nat, p as nat);
            } else {
                vstd::arithmetic::div_mod::lemma_mod_add_multiples_vanish(diff, p);
                lemma_small_mod((diff + p) as nat, p as nat);
            }
        }
        lemma_prime_unit(diff, p);
        lemma_unit_product(prev % p, diff, p);
        lemma_mul_mod_noop_left(prev, diff, p);
        assert(num == prev * diff);
    }
}

/// Over a prime modulus, points with pairwise distinct abscissas below the
/// modulus can always be interpolated: every Lagrange denominator is
/// invertible.
pub proof fn lemma_prime_interpolation_possible(points: Seq<(u64, u64)>, p: int)
    requires
        is_prime(p),
        distinct_nodes_below(points, p),
    ensures
        interpolation_possible(points, p),
{
    assert forall|i: int| 0 <= i < points.len() implies has_mod_inverse(
        #[trigger] lagrange_denominator(points, i, p),
        p,
    ) by {
        if points.len() <= 1 {
            lemma_small_mod(1, p as nat);
            assert(is_mod_inverse(1, 1, p));
        } else {
            lemma_partial_numerator_unit(points, i, points.len() as int, p);
        }
    }
}

// ---------------------------------------------------------------------------
// Executable operations
// ---------------------------------------------------------------------------

/// Horner evaluation of `coefficients` at `x` modulo `modulus`.
pub fn evaluate_mod(coefficients: &Vec<u64>, x: u64, modulus: u64) -> (r: u64)
    requires
        modulus > 0,
    ensures
        r == poly_value(coefficients@, x as int) % (modulus as int),
        r < modulus,
{
    let n = coefficients.len();
    let mut acc: u64 = 0;
    let mut i: usize = n;
    proof {
        assert(coefficients@.subrange(n as int, n as int) =~= Seq::<u64>::empty());
        lemma_small_mod(0, modulus as nat);
    }
    while i > 0
        invariant
            modulus > 0,
            n == coefficients@.len(),
            i <= n,
            acc < modulus,
            acc == poly_value(coefficients@.subrange(i as int, n as int), x as int) % (
            modulus as int),
        decreases i,
    {
        let c = coefficients[i - 1];
        let ghost tail = coefficients@.subrange(i as int, n as int);
        let ghost whole = coefficients@.subrange(i - 1, n as int);
        proof {
            assert(whole.drop_first() =~= tail);
            assert(whole[0] == c);
        }
        let prod = mul_mod(acc, x, modulus);
        proof {
            let m = modulus as int;
            let pt = poly_value(tail, x as int);
            lemma_mul_mod_noop_left(pt, x as int, m);
            assert(prod == (pt * x) % m);
            lemma_add_mod_noop(pt * x, c as int, m);
            lemma_small_mod(prod as nat, modulus as nat);
            lemma_small_mod((c % modulus) as nat, modulus as nat);
            assert((prod + c) % m == ((pt * x) % m + (c as int) % m) % m) by {
                lemma_add_mod_noop(prod as int, c as int, m);
            }
            assert(pt * x == x * pt) by (nonlinear_arith);
        }
        acc = add_mod(prod, c, modulus);
        i = i - 1;
    }
    proof {
        assert(coefficients@.subrange(0, n as int) =~= coefficients@);
    }
    acc
}

/// `accumulator[d] += addend[d] (mod m)` over the common length.
pub fn add_coefficients_assign(accumulator: &mut Vec<u64>, addend: &Vec<u64>, modulus: u64)
    requires
        modulus > 0,
    ensures
        final(accumulator)@.len() == old(accumulator)@.len(),
        forall|d: int|
            0 <= d < final(accumulator)@.len() ==> #[trigger] final(accumulator)@[d] == (if d
                < addend@.len() {
                ((old(accumulator)@[d] + (addend@[d] % modulus) as int) % (modulus as int)) as u64
            } else {
                old(accumulator)@[d]
            }),
{
    let n = if accumulator.len() < addend.len() {
        accumulator.len()
    } else {
        addend.len()
    };
    let ghost orig = accumulator@;
    let mut d: usize = 0;
    while d < n
        invariant
            modulus > 0,
            n <= accumulator@.len(),
            n <= addend@.len(),
            n == (if orig.len() < addend@.len() {
                orig.len()
            } else {
                addend@.len()
            }),
            accumulator@.len() == orig.len(),
            d <= n,
            forall|e: int|
                0 <= e < accumulator@.len() ==> #[trigger] accumulator@[e] == (if e < d {
                    ((orig[e] + (addend@[e] % modulus) as int) % (modulus as int)) as u64
                } else {
                    orig[e]
                }),
        decreases n - d,
    {
        let v = add_mod(accumulator[d], addend[d] % modulus, modulus);
        accumulator.set(d, v);
        d += 1;
    }
}

/// Multiplies `basis` by `(X − x_j)` modulo `m`, given `neg_xj = (−x_j) mod m`.
pub fn mul_by_linear(basis: &Vec<u64>, neg_xj: u64, modulus: u64) -> (next: Vec<u64>)
    requires
        modulus > 0,
        basis@.len() + 1 <= usize::MAX,
    ensures
        next@.len() == basis@.len() + 1,
        is_reduced(next@, modulus as int),
        forall|z: int|
            #![trigger poly_value(next@, z)]
            poly_value(next@, z) % (modulus as int) == ((z + neg_xj) * poly_value(basis@, z)) % (
            modulus as int),
{
    let len = basis.len();
    let ghost m = modulus as int;
    let mut next: Vec<u64> = Vec::new();
    let mut e: usize = 0;
    while e <= len
        invariant
            len == basis@.len(),
            len + 1 <= usize::MAX,
            e <= len + 1,
            next@.len() == e,
            forall|k: int| 0 <= k < e ==> #[trigger] next@[k] == 0,
        decreases len + 1 - e,
    {
        next.push(0);
        e += 1;
    }
    // shifted: (0, b_0, …, b_{L-1});  padded: (b_0, …, b_{L-1}, 0)
    let ghost shifted = seq![0u64] + basis@;
    let ghost padded = basis@.push(0);
    proof {
        lemma_small_mod(0, modulus as nat);
    }
    let mut d: usize = 0;
    while d < len
        invariant
            modulus > 0,
            m == modulus as int,
            len == basis@.len(),
            shifted == seq![0u64] + basis@,
            padded == basis@.push(0),
            next@.len() == len + 1,
            d <= len,
            forall|k: int|
                0 <= k < d ==> #[trigger] next@[k] == (shifted[k] + neg_xj * padded[k]) % m,
            next@[d as int] == (shifted[d as int] as int) % m,
            forall|k: int| d < k <= len ==> #[trigger] next@[k] == 0,
        decreases len - d,
    {
        let c = basis[d];
        let constant_term = mul_mod(c, neg_xj, modulus);
        let nd = add_mod(next[d], constant_term, modulus);
        proof {
            assert(padded[d as int] == c);
            assert(shifted[d + 1] == c);
            lemma_add_mod_noop(shifted[d as int] as int, (c * neg_xj) as int, m);
            lemma_small_mod((shifted[d as int] % modulus) as nat, modulus as nat);
            lemma_small_mod(constant_term as nat, modulus as nat);
            assert(nd == (shifted[d as int] + c * neg_xj) % m) by {
                lemma_add_mod_noop(next@[d as int] as int, constant_term as int, m);
                lemma_add_mod_noop(shifted[d as int] as int, c * neg_xj, m);
                lemma_mod_mod_int(shifted[d as int] as int, m);
                lemma_mod_mod_int(c * neg_xj, m);
            }
            assert(c * neg_xj == neg_xj * c) by (nonlinear_arith);
        }
        next.set(d, nd);
        let nd1 = add_mod(next[d + 1], c, modulus);
        proof {
            assert(next@[d + 1] == 0);
        }
        next.set(d + 1, nd1);
        d += 1;
    }
    proof {
        assert(padded[len as int] == 0);
        assert(next@[len as int] == (shifted[len as int] + neg_xj * padded[len as int]) % m);
        assert forall|k: int| 0 <= k < next@.len() implies (#[trigger] next@[k] as int) % m == (
        shifted[k] + neg_xj * padded[k]) % m by {
            lemma_mod_mod_int(shifted[k] + neg_xj * padded[k], m);
        }
        assert forall|k: int| 0 <= k < next@.len() implies #[trigger] next@[k] < modulus by {
            lemma_mod_bound(shifted[k] + neg_xj * padded[k], m);
        }
        assert forall|z: int|
            #![trigger poly_value(next@, z)]
            poly_value(next@, z) % m == ((z + neg_xj) * poly_value(basis@, z)) % m by {
            lemma_poly_value_linear(next@, shifted, padded, neg_xj as int, z, m);
            lemma_poly_value_shift(basis@, z);
            lemma_poly_value_push_zero(basis@, z);
            assert(z * poly_value(basis@, z) + neg_xj * poly_value(basis@, z) == (z + neg_xj)
                * poly_value(basis@, z)) by (nonlinear_arith);
        }
    }
    next
}

proof fn lemma_mod_mod_int(a: int, m: int)
    requires
        m > 0,
    ensures
        (a % m) % m == a % m,
{
    lemma_mod_bound(a, m);
    lemma_small_mod((a % m) as nat, m as nat);
}

// ---------------------------------------------------------------------------
// Negacyclic products
// ---------------------------------------------------------------------------

/// Contribution of `v = l_i · r_j` to coefficient `k` of a product modulo
/// `X^n + 1`: `+v` when `i + j = k`, `−v` when `i + j = k + n`
/// (as `X^n = −1`).
pub open spec fn negacyclic_term(n: int, k: int, i: int, j: int, v: int) -> int {
    if i + j == k {
        v
    } else if i + j == k + n {
        -v
    } else {
        0
    }
}

/// Contributions of `l_i · r_j`, `j < upto`, to coefficient `k`.
pub open spec fn negacyclic_row(l: Seq<u64>, r: Seq<u64>, k: int, i: int, upto: int) -> int
    decreases upto,
{
    if upto <= 0 {
        0
    } else {
        negacyclic_row(l, r, k, i, upto - 1) + negacyclic_term(
            l.len() as int,
            k,
            i,
            upto - 1,
            l[i] * r[upto - 1],
        )
    }
}

/// Coefficient `k` (over the integers) of `l · r mod (X^n + 1)`,
/// `n = |l|`, summed over the first `upto` coefficients of `l`.
pub open spec fn negacyclic_coeff(l: Seq<u64>, r: Seq<u64>, k: int, upto: int) -> int
    decreases upto,
{
    if upto <= 0 {
        0
    } else {
        negacyclic_coeff(l, r, k, upto - 1) + negacyclic_row(l, r, k, upto - 1, r.len() as int)
    }
}

/// The coefficients of the monomial `X^j` of degree below `n`.
pub open spec fn is_monomial(r: Seq<u64>, j: int) -> bool {
    forall|t: int| 0 <= t < r.len() ==> #[trigger] r[t] == (if t == j { 1u64 } else { 0u64 })
}

proof fn lemma_row_against_monomial(l: Seq<u64>, r: Seq<u64>, k: int, i: int, j: int, upto: int)
    requires
        is_monomial(r, j),
        0 <= j,
        0 <= upto <= r.len(),
    ensures
        negacyclic_row(l, r, k, i, upto) == if j < upto {
            negacyclic_term(l.len() as int, k, i, j, l[i] as int)
        } else {
            0
        },
    decreases upto,
{
    if upto > 0 {
        lemma_row_against_monomial(l, r, k, i, j, upto - 1);
        let t = upto - 1;
        let n = l.len() as int;
        if t == j {
            assert(r[t] == 1u64);
            assert(l[i] * r[t] == l[i] as int);
            assert(negacyclic_term(n, k, i, t, l[i] * r[t]) == negacyclic_term(n, k, i, j, l[i] as int));
        } else {
            assert(r[t] == 0u64);
            assert(l[i] * r[t] == 0);
            assert(negacyclic_term(n, k, i, t, l[i] * r[t]) == 0);
        }
        assert(negacyclic_row(l, r, k, i, upto) == negacyclic_row(l, r, k, i, t) + negacyclic_term(
            n,
            k,
            i,
            t,
            l[i] * r[t],
        ));
    }
}

proof fn lemma_coeff_against_monomial(l: Seq<u64>, r: Seq<u64>, k: int, j: int, upto: int)
    requires
        is_monomial(r, j),
        r.len() == l.len(),
        0 <= j < l.len(),
        0 <= k < l.len(),
        0 <= upto <= l.len(),
    ensures
        negacyclic_coeff(l, r, k, upto) == if 0 <= k - j < upto {
            l[k - j] as int
        } else if 0 <= k - j + l.len() < upto {
            -(l[k - j + l.len()] as int)
        } else {
            0
        },
    decreases upto,
{
    if upto > 0 {
        lemma_coeff_against_monomial(l, r, k, j, upto - 1);
        lemma_row_against_monomial(l, r, k, upto - 1, j, r.len() as int);
    }
}

/// Multiplying by the monomial `X^j` modulo `X^n + 1` shifts the
/// coefficients up by `j` and flips the sign of those that wrap past
/// `X^n`: coefficient `k` of `l · X^j` is `l[k − j]` when `k ≥ j`, and
/// `−l[k − j + n]` otherwise.  Since every polynomial is a sum of
/// monomials, this fixes the product.
pub proof fn lemma_negacyclic_monomial_shift(l: Seq<u64>, r: Seq<u64>, j: int, k: int)
    requires
        is_monomial(r, j),
        r.len() == l.len(),
        0 <= j < l.len(),
        0 <= k < l.len(),
    ensures
        negacyclic_coeff(l, r, k, l.len() as int) == if k >= j {
            l[k - j] as int
        } else {
            -(l[k - j + l.len()] as int)
        },
{
    lemma_coeff_against_monomial(l, r, k, j, l.len() as int);
}

/// `x ≡ A` and `p ≡ v` give `x + p ≡ A + v` and `x − p ≡ A − v` (mod `m`).
proof fn lemma_step_cong(x: int, a: int, p: int, v: int, m: int)
    requires
        m > 0,
        x == a % m,
        p == v % m,
    ensures
        (x + p) % m == (a + v) % m,
        (x - p) % m == (a - v) % m,
{
    lemma_add_mod_noop(a, v, m);
    lemma_sub_mod_noop(a, v, m);
}

/// `left · right mod (X^n + 1)` with coefficients reduced modulo `m`, where
/// `n = |left|`.
pub fn negacyclic_mul_mod(left: &Vec<u64>, right: &Vec<u64>, modulus: u64) -> (out: Vec<u64>)
    requires
        modulus > 0,
        left@.len() + right@.len() <= usize::MAX,
        forall|i: int, j: int|
            0 <= i < left@.len() && 0 <= j < right@.len() && i + j >= 2 * left@.len() ==> (
            #[trigger] left@[i] * #[trigger] right@[j]) % (modulus as int) == 0,
    ensures
        out@.len() == left@.len(),
        forall|k: int|
            0 <= k < out@.len() ==> #[trigger] out@[k] == negacyclic_coeff(
                left@,
                right@,
                k,
                left@.len() as int,
            ) % (modulus as int),
{
    let degree = left.len();
    let ghost m = modulus as int;
    let ghost n = degree as int;
    let mut out: Vec<u64> = Vec::new();
    let mut z: usize = 0;
    while z < degree
        invariant
            z <= degree,
            out@.len() == z,
            forall|k: int| 0 <= k < z ==> #[trigger] out@[k] == 0,
        decreases degree - z,
    {
        out.push(0);
        z += 1;
    }
    proof {
        lemma_small_mod(0, modulus as nat);
    }
    let mut i: usize = 0;
    while i < degree
        invariant
            modulus > 0,
            m == modulus as int,
            n == degree,
            degree == left@.len(),
            left@.len() + right@.len() <= usize::MAX,
            forall|a: int, b: int|
                0 <= a < left@.len() && 0 <= b < right@.len() && a + b >= 2 * left@.len() ==> (
                #[trigger] left@[a] * #[trigger] right@[b]) % (modulus as int) == 0,
            i <= degree,
            out@.len() == degree,
            forall|k: int|
                0 <= k < degree ==> #[trigger] out@[k] == negacyclic_coeff(left@, right@, k, i as int)
                    % m,
        decreases degree - i,
    {
        let mut j: usize = 0;
        while j < right.len()
            invariant
                modulus > 0,
                m == modulus as int,
                n == degree,
                degree == left@.len(),
                left@.len() + right@.len() <= usize::MAX,
                forall|a: int, b: int|
                    0 <= a < left@.len() && 0 <= b < right@.len() && a + b >= 2 * left@.len() ==> (
                    #[trigger] left@[a] * #[trigger] right@[b]) % (modulus as int) == 0,
                i < degree,
                j <= right@.len(),
                out@.len() == degree,
                forall|k: int|
                    0 <= k < degree ==> #[trigger] out@[k] == (negacyclic_coeff(
                        left@,
                        right@,
                        k,
                        i as int,
                    ) + negacyclic_row(left@, right@, k, i as int, j as int)) % m,
            decreases right@.len() - j,
        {
            let lhs = left[i];
            let rhs = right[j];
            let product = mul_mod(lhs % modulus, rhs % modulus, modulus);
            let ghost v = lhs * rhs;
            proof {
                lemma_mul_mod_noop_general(lhs as int, rhs as int, m);
                assert(product == v % m);
            }
            let index = i + j;
            let ghost before = out@;
            if index < degree {
                let nv = add_mod(out[index], product, modulus);
                out.set(index, nv);
            } else if product != 0 {
                let nv = sub_mod(out[index - degree], product, modulus);
                out.set(index - degree, nv);
            }
            proof {
                assert forall|k: int| 0 <= k < degree implies #[trigger] out@[k] == (negacyclic_coeff(
                    left@,
                    right@,
                    k,
                    i as int,
                ) + negacyclic_row(left@, right@, k, i as int, j + 1)) % m by {
                    let a = negacyclic_coeff(left@, right@, k, i as int) + negacyclic_row(
                        left@,
                        right@,
                        k,
                        i as int,
                        j as int,
                    );
                    assert(before[k] == a % m);
                    assert(negacyclic_row(left@, right@, k, i as int, j + 1) == negacyclic_row(
                        left@,
                        right@,
                        k,
                        i as int,
                        j as int,
                    ) + negacyclic_term(n, k, i as int, j as int, v));
                    lemma_step_cong(before[k] as int, a, product as int, v, m);
                    if index < degree {
                        if k != index {
                            assert(negacyclic_term(n, k, i as int, j as int, v) == 0);
                        }
                    } else if index < 2 * degree {
                        if k != index - degree {
                            assert(negacyclic_term(n, k, i as int, j as int, v) == 0);
                        } else if product == 0 {
                            lemma_small_mod(0, modulus as nat);
                            assert((before[k] as int - 0) % m == (before[k] as int) % m);
                            lemma_small_mod(before[k] as nat, modulus as nat);
                        }
                    } else {
                        assert(negacyclic_term(n, k, i as int, j as int, v) == 0);
                    }
                }
            }
            j += 1;
        }
        proof {
            assert forall|k: int| 0 <= k < degree implies #[trigger] out@[k] == negacyclic_coeff(
                left@,
                right@,
                k,
                i + 1,
            ) % m by {
                assert(negacyclic_coeff(left@, right@, k, i + 1) == negacyclic_coeff(
                    left@,
                    right@,
                    k,
                    i as int,
                ) + negacyclic_row(left@, right@, k, i as int, right@.len() as int));
            }
        }
        i += 1;
    }
    out
}

// ---------------------------------------------------------------------------
// Polynomials over an RNS base
// ---------------------------------------------------------------------------

/// Whether a polynomial is added or subtracted.
#[derive(Clone, Copy, Debug, PartialEq, Eq, Structural)]
pub enum LinearOp {
    Add,
    Sub,
}

/// Limbs of a polynomial over an RNS base, one per modulus, each of `degree` residues
/// reduced modulo its modulus.
pub open spec fn limbs_reduced(limbs: Seq<Vec<u64>>, moduli: Seq<u64>, degree: int) -> bool {
    &&& limbs.len() == moduli.len()
    &&& forall|l: int| 0 <= l < moduli.len() ==> #[trigger] moduli[l] > 0
    &&& forall|l: int| 0 <= l < limbs.len() ==> (#[trigger] limbs[l])@.len() == degree
    &&& forall|l: int, k: int|
        0 <= l < limbs.len() && 0 <= k < degree ==> #[trigger] limbs[l]@[k] < moduli[l]
}

/// Residue of `a ± b` modulo `q`.
pub open spec fn linear_residue(a: int, b: int, q: int, op: LinearOp) -> int {
    match op {
        LinearOp::Add => (a + b) % q,
        LinearOp::Sub => (a - b) % q,
    }
}

/// Components of a ciphertext in coefficient form, each a polynomial over
/// the RNS base with reduced residues.
pub open spec fn components_reduced(components: Seq<Vec<Vec<u64>>>, moduli: Seq<u64>, degree: int) -> bool {
    forall|i: int| 0 <= i < components.len() ==> limbs_reduced((#[trigger] components[i])@, moduli, degree)
}

} // verus!
