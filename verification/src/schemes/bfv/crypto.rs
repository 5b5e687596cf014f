//! The BFV plaintext scale `Δ = ⌊Q / t⌋`, held as its residues modulo the
//! ciphertext primes `q_i` of `Q = ∏ q_i`.

use vstd::prelude::*;
use vstd::arithmetic::div_mod::{
    lemma_fundamental_div_mod, lemma_mod_multiples_vanish, lemma_small_mod,
    lemma_mul_mod_noop_left, lemma_mul_mod_noop_right, lemma_mod_multiples_basic,
};

use crate::modarith::{has_mod_inverse, is_mod_inverse, mod_inverse, mul_mod, prefix_product};

verus! {

proof fn lemma_prefix_product_multiple(q: Seq<u64>, n: int, i: int)
    requires
        0 <= i < n <= q.len(),
        q[i] > 0,
    ensures
        prefix_product(q, n) % (q[i] as int) == 0,
    decreases n,
{
    let m = q[i] as int;
    if i == n - 1 {
        lemma_mod_multiples_basic(prefix_product(q, n - 1), m);
    } else {
        lemma_prefix_product_multiple(q, n - 1, i);
        let p = prefix_product(q, n - 1);
        lemma_fundamental_div_mod(p, m);
        let k = p / m;
        assert(p * (q[n - 1] as int) == (k * (q[n - 1] as int)) * m) by (nonlinear_arith)
            requires
                p == m * k + 0,
        ;
        lemma_mod_multiples_basic(k * (q[n - 1] as int), m);
    }
}

proof fn lemma_prefix_product_mod(q: Seq<u64>, n: int, t: int)
    requires
        0 < n <= q.len(),
        t > 0,
    ensures
        prefix_product(q, n) % t == ((prefix_product(q, n - 1) % t) * ((q[n - 1] as int) % t)) % t,
{
    let p = prefix_product(q, n - 1);
    lemma_mul_mod_noop_left(p, q[n - 1] as int, t);
    lemma_mul_mod_noop_right(p % t, q[n - 1] as int, t);
}

proof fn lemma_has_inverse_modulus_large(a: int, m: int)
    requires
        has_mod_inverse(a, m),
    ensures
        m > 1,
{
    let x = choose|x: int| is_mod_inverse(a, x, m);
    if m == 1 {
        assert(x == 0);
        assert(a * 0 == 0);
        lemma_small_mod(0, 1);
    }
}

/// `neg · t⁻¹ ≡ ⌊Q / t⌋ (mod m)` whenever `m | Q` and `neg ≡ −(Q mod t)`.
proof fn lemma_delta_residue(big_q: int, t: int, m: int, x: int, neg: int)
    requires
        t > 0,
        m > 1,
        big_q >= 0,
        neg >= 0,
        big_q % m == 0,
        is_mod_inverse(t % m, x, m),
        (neg + big_q % t) % m == 0,
    ensures
        (neg * x) % m == (big_q / t) % m,
{
    let r = big_q % t;
    let d = big_q / t;
    lemma_fundamental_div_mod(big_q, t);
    lemma_fundamental_div_mod(big_q, m);
    let kq = big_q / m;
    lemma_fundamental_div_mod(t, m);
    let a = t % m;
    lemma_fundamental_div_mod(a * x, m);
    let jj = (a * x) / m;
    lemma_fundamental_div_mod(neg + r, m);
    let h = (neg + r) / m;
    let j = (t / m) * x + jj;
    assert(t * x == m * j + 1) by (nonlinear_arith)
        requires
            t == m * (t / m) + a,
            a * x == m * jj + 1,
            j == (t / m) * x + jj,
    ;
    let w = h * x - kq * x + d * j;
    assert(neg * x == m * w + d) by (nonlinear_arith)
        requires
            neg + r == m * h + 0,
            big_q == t * d + r,
            big_q == m * kq + 0,
            t * x == m * j + 1,
            w == h * x - kq * x + d * j,
    ;
    lemma_mod_multiples_vanish(w, d, m);
}

/// The residues `Δ mod q_i` of the BFV plaintext scale `Δ = ⌊Q / t⌋`, with
/// `Q = ∏ q_i`, computed as `−(Q mod t) · t⁻¹ mod q_i`.
pub fn compute_delta(q_moduli: &Vec<u64>, plain_modulus: u64) -> (delta: Vec<u64>)
    requires
        plain_modulus > 0,
        forall|i: int|
            0 <= i < q_moduli@.len() ==> has_mod_inverse(
                (plain_modulus % #[trigger] q_moduli@[i]) as int,
                q_moduli@[i] as int,
            ),
    ensures
        delta@.len() == q_moduli@.len(),
        forall|i: int|
            0 <= i < q_moduli@.len() ==> #[trigger] delta@[i] == (prefix_product(
                q_moduli@,
                q_moduli@.len() as int,
            ) / (plain_modulus as int)) % (q_moduli@[i] as int),
{
    let t = plain_modulus;
    let ghost q = q_moduli@;
    let n = q_moduli.len();
    let mut q_mod_t: u64 = 1;
    let mut k: usize = 0;
    while k < n
        invariant
            t == plain_modulus,
            t > 0,
            q == q_moduli@,
            n == q.len(),
            k <= n,
            k == 0 ==> q_mod_t == 1,
            k > 0 ==> q_mod_t == prefix_product(q, k as int) % (t as int),
        decreases n - k,
    {
        let qi_mod_t = q_moduli[k] % t;
        let ghost old = q_mod_t;
        q_mod_t = mul_mod(q_mod_t, qi_mod_t, t);
        proof {
            lemma_prefix_product_mod(q, k + 1, t as int);
            if k == 0 {
                assert(prefix_product(q, 0) == 1);
                lemma_mul_mod_noop_left(1, qi_mod_t as int, t as int);
            }
        }
        k += 1;
    }
    let ghost big_q = prefix_product(q, n as int);
    proof {
        lemma_prefix_product_nonneg(q, n as int);
    }
    let mut delta: Vec<u64> = Vec::new();
    let mut i: usize = 0;
    while i < n
        invariant
            t == plain_modulus,
            t > 0,
            q == q_moduli@,
            n == q.len(),
            big_q == prefix_product(q, n as int),
            big_q >= 0,
            n > 0 ==> q_mod_t == big_q % (t as int),
            forall|j: int|
                0 <= j < q.len() ==> has_mod_inverse((t % #[trigger] q[j]) as int, q[j] as int),
            i <= n,
            delta@.len() == i,
            forall|j: int|
                0 <= j < i ==> #[trigger] delta@[j] == (big_q / (t as int)) % (q[j] as int),
        decreases n - i,
    {
        let qi = q_moduli[i];
        proof {
            lemma_has_inverse_modulus_large((t % qi) as int, qi as int);
        }
        let t_inv = match mod_inverse(t % qi, qi) {
            Some(x) => x,
            None => {
                proof {
                    assert(false);
                }
                0
            },
        };
        let neg_q_mod_t: u64 = if q_mod_t == 0 {
            0
        } else {
            qi - (q_mod_t % qi)
        };
        let delta_i = mul_mod(neg_q_mod_t, t_inv, qi);
        proof {
            lemma_prefix_product_multiple(q, n as int, i as int);
            let m = qi as int;
            if q_mod_t != 0 {
                lemma_fundamental_div_mod(q_mod_t as int, m);
                assert(neg_q_mod_t + q_mod_t == (1 + (q_mod_t as int) / m) * m) by (nonlinear_arith)
                    requires
                        neg_q_mod_t == m - (q_mod_t as int) % m,
                        q_mod_t as int == m * ((q_mod_t as int) / m) + (q_mod_t as int) % m,
                ;
                lemma_mod_multiples_basic(1 + (q_mod_t as int) / m, m);
            } else {
                lemma_small_mod(0, qi as nat);
                assert(big_q % (t as int) == 0);
            }
            assert((neg_q_mod_t + big_q % (t as int)) % m == 0);
            lemma_delta_residue(big_q, t as int, m, t_inv as int, neg_q_mod_t as int);
        }
        delta.push(delta_i);
        i += 1;
    }
    delta
}

proof fn lemma_prefix_product_nonneg(q: Seq<u64>, n: int)
    ensures
        prefix_product(q, n) >= 0,
    decreases n,
{
    if n > 0 {
        lemma_prefix_product_nonneg(q, n - 1);
        let p = prefix_product(q, n - 1);
        assert(p * (q[n - 1] as int) >= 0) by (nonlinear_arith)
            requires
                p >= 0,
                q[n - 1] >= 0,
        ;
    }
}

/// Law: each residue of `Δ` solves `Δ · t ≡ −(Q mod t) (mod q_i)`, the
/// identity `Q = Δ · t + (Q mod t)` read modulo `q_i`.
pub proof fn lemma_delta_scales_plaintext(q: Seq<u64>, t: u64, i: int)
    requires
        t > 0,
        0 <= i < q.len(),
        q[i] > 0,
    ensures
        ((((prefix_product(q, q.len() as int) / (t as int)) % (q[i] as int)) * (t as int)) + (
        prefix_product(q, q.len() as int) % (t as int))) % (q[i] as int) == 0,
{
    let big_q = prefix_product(q, q.len() as int);
    let m = q[i] as int;
    let d = big_q / (t as int);
    lemma_prefix_product_multiple(q, q.len() as int, i);
    lemma_fundamental_div_mod(big_q, t as int);
    lemma_fundamental_div_mod(d, m);
    lemma_fundamental_div_mod(big_q, m);
    let kq = big_q / m;
    let kd = d / m;
    assert((d % m) * (t as int) + big_q % (t as int) == m * (kq - kd * (t as int))) by (nonlinear_arith)
        requires
            big_q == (t as int) * d + big_q % (t as int),
            d == m * kd + d % m,
            big_q == m * kq + 0,
    ;
    lemma_mod_multiples_basic(kq - kd * (t as int), m);
}

} // verus!
