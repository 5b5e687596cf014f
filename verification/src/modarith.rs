//! Modular arithmetic on `u64` residues: the small number-theoretic kernel
//! (reduction, modular addition / subtraction / multiplication, modular
//! inverses, signed-to-residue conversions and centered lifts) that the BGV
//! and BFV code builds on.

use vstd::prelude::*;
use vstd::arithmetic::div_mod::*;

verus! {

// ---------------------------------------------------------------------------
// Specifications
// ---------------------------------------------------------------------------

/// `x` is the inverse of `a` modulo `m`, taken as the canonical residue.
pub open spec fn is_mod_inverse(a: int, x: int, m: int) -> bool {
    &&& 0 <= x < m
    &&& (a * x) % m == 1
}

/// `a` has an inverse modulo `m`.
pub open spec fn has_mod_inverse(a: int, m: int) -> bool {
    exists|x: int| is_mod_inverse(a, x, m)
}

/// The inverse of `a` modulo `m` (meaningful when it exists).
pub open spec fn mod_inverse_of(a: int, m: int) -> int {
    choose|x: int| is_mod_inverse(a, x, m)
}

/// Canonical residue in `[0, m)` of the signed integer `v`.
pub open spec fn signed_residue(v: int, m: int) -> int {
    v % m
}

/// Centered representative of the residue `r` modulo `m`: `r` itself when it
/// is at most `floor(m / 2)`, otherwise `r - m`.
pub open spec fn centered(r: int, m: int) -> int {
    if r > m / 2 {
        r - m
    } else {
        r
    }
}

/// `q_0 · q_1 ⋯ q_{n-1}`.
pub open spec fn prefix_product(q: Seq<u64>, n: int) -> int
    decreases n,
{
    if n <= 0 {
        1
    } else {
        prefix_product(q, n - 1) * (q[n - 1] as int)
    }
}

// ---------------------------------------------------------------------------
// Basic modular operations
// ---------------------------------------------------------------------------

/// `(a + b) mod m`.
pub fn add_mod(a: u64, b: u64, m: u64) -> (r: u64)
    requires
        m > 0,
    ensures
        r == (a + b) % (m as int),
        r < m,
{
    let s: u128 = a as u128 + b as u128;
    let r: u128 = s % (m as u128);
    r as u64
}

/// `(a - b) mod m`, the result taken in `[0, m)`.
pub fn sub_mod(a: u64, b: u64, m: u64) -> (r: u64)
    requires
        m > 0,
    ensures
        r == (a - b) % (m as int),
        r < m,
{
    let ar: u64 = a % m;
    let br: u64 = b % m;
    proof {
        lemma_sub_mod_noop(a as int, b as int, m as int);
        lemma_fundamental_div_mod(a as int, m as int);
        lemma_fundamental_div_mod(b as int, m as int);
    }
    if ar >= br {
        let r: u64 = ar - br;
        proof {
            lemma_small_mod(r as nat, m as nat);
        }
        r
    } else {
        let r: u64 = ar + (m - br);
        proof {
            lemma_small_mod(r as nat, m as nat);
            lemma_mod_add_multiples_vanish(ar - br, m as int);
        }
        r
    }
}

/// `(a * b) mod m`, computed through a 128-bit product.
pub fn mul_mod(a: u64, b: u64, m: u64) -> (r: u64)
    requires
        m > 0,
    ensures
        r == (a * b) % (m as int),
        r < m,
{
    proof {
        assert(a * b <= u64::MAX * u64::MAX) by (nonlinear_arith)
            requires
                a <= u64::MAX,
                b <= u64::MAX,
        ;
    }
    let p: u128 = (a as u128) * (b as u128);
    let r: u128 = p % (m as u128);
    r as u64
}

// ---------------------------------------------------------------------------
// Modular inverse (extended Euclid)
// ---------------------------------------------------------------------------

proof fn lemma_no_unit_multiple(g: int, y: int)
    requires
        g > 1,
    ensures
        g * y != 1,
{
    if y >= 1 {
        assert(g * y >= g) by (nonlinear_arith)
            requires
                g > 1,
                y >= 1,
        ;
    } else {
        assert(g * y <= 0) by (nonlinear_arith)
            requires
                g > 1,
                y <= 0,
        ;
    }
}

/// When `g > 1` divides both `m` and `a mod m`, `a` has no inverse modulo `m`.
proof fn lemma_common_divisor_blocks_inverse(a: int, m: int, g: int, u: int, v: int)
    requires
        m > 1,
        a >= 0,
        g > 1,
        m == u * g,
        a % m == v * g,
    ensures
        !has_mod_inverse(a, m),
{
    assert forall|x: int| !is_mod_inverse(a, x, m) by {
        if is_mod_inverse(a, x, m) {
            let j = a / m;
            let k = (a * x) / m;
            lemma_fundamental_div_mod(a, m);
            lemma_fundamental_div_mod(a * x, m);
            assert(a == m * j + v * g);
            assert(a * x == m * k + 1);
            assert(a * x == m * j * x + v * g * x) by (nonlinear_arith)
                requires
                    a == m * j + v * g,
            ;
            assert(m * j * x == g * (j * u * x)) by (nonlinear_arith)
                requires
                    m == u * g,
            ;
            assert(m * k == g * (k * u)) by (nonlinear_arith)
                requires
                    m == u * g,
            ;
            assert(v * g * x == g * (v * x)) by (nonlinear_arith);
            assert(g * (v * x + j * u * x - k * u) == g * (v * x) + g * (j * u * x) - g * (k * u))
                by (nonlinear_arith);
            lemma_no_unit_multiple(g, v * x + j * u * x - k * u);
        }
    }
}

/// Inverse of `a` modulo `m`, or `None` when `a` has none (in particular for
/// `m <= 1` and when `gcd(a, m) != 1`).
pub fn mod_inverse(a: u64, m: u64) -> (r: Option<u64>)
    ensures
        match r {
            Some(x) => is_mod_inverse(a as int, x as int, m as int),
            None => !has_mod_inverse(a as int, m as int),
        },
{
    if m <= 1 {
        proof {
            assert forall|x: int| !is_mod_inverse(a as int, x, m as int) by {
                if m == 1 && 0 <= x < 1 {
                    lemma_small_mod(0, 1);
                    assert(x == 0);
                    assert((a * x) % (m as int) == 0);
                }
            }
        }
        return None;
    }
    let a0: u64 = a % m;
    let mut r0: u64 = m;
    let mut r1: u64 = a0;
    let mut s0: u64 = 0;
    let mut s1: u64 = 1;
    // Ghost bookkeeping: r_i == s_i * a0 - k_i * m, and the original pair
    // (m, a0) is an integer combination of the current pair (r0, r1).
    let ghost mut k0: int = -1;
    let ghost mut k1: int = 0;
    let ghost mut u0: int = 1;
    let ghost mut u1: int = 0;
    let ghost mut v0: int = 0;
    let ghost mut v1: int = 1;
    proof {
        lemma_fundamental_div_mod(a as int, m as int);
    }
    while r1 != 0
        invariant
            m > 1,
            a0 == a % m,
            a0 < m,
            0 < r0 <= m,
            r1 < r0,
            s0 < m,
            s1 < m,
            s0 * a0 == r0 + k0 * m,
            s1 * a0 == r1 + k1 * m,
            m == u0 * r0 + u1 * r1,
            a0 == v0 * r0 + v1 * r1,
        decreases r1,
    {
        let q: u64 = r0 / r1;
        let r2: u64 = r0 % r1;
        let qs: u64 = mul_mod(q, s1, m);
        let s2: u64 = if s0 >= qs {
            s0 - qs
        } else {
            s0 + (m - qs)
        };
        proof {
            lemma_fundamental_div_mod(r0 as int, r1 as int);
            lemma_fundamental_div_mod((q * s1) as int, m as int);
            let t = (q * s1) / (m as int);
            let w: int = if s0 >= qs { 0 } else { 1 };
            assert(s2 == s0 - q * s1 + m * t + m * w);
            let k2 = k0 - q * k1 + (t + w) * a0;
            assert(s2 * a0 == r2 + k2 * m) by (nonlinear_arith)
                requires
                    s2 == s0 - q * s1 + m * t + m * w,
                    s0 * a0 == r0 + k0 * m,
                    s1 * a0 == r1 + k1 * m,
                    r0 == r1 * q + r2,
                    k2 == k0 - q * k1 + (t + w) * a0,
            ;
            let nu0 = u0 * q + u1;
            let nv0 = v0 * q + v1;
            assert(m == nu0 * r1 + u0 * r2) by (nonlinear_arith)
                requires
                    m == u0 * r0 + u1 * r1,
                    r0 == r1 * q + r2,
                    nu0 == u0 * q + u1,
            ;
            assert(a0 == nv0 * r1 + v0 * r2) by (nonlinear_arith)
                requires
                    a0 == v0 * r0 + v1 * r1,
                    r0 == r1 * q + r2,
                    nv0 == v0 * q + v1,
            ;
            k0 = k1;
            k1 = k2;
            u1 = u0;
            u0 = nu0;
            v1 = v0;
            v0 = nv0;
        }
        r0 = r1;
        r1 = r2;
        s0 = s1;
        s1 = s2;
    }
    if r0 == 1 {
        proof {
            let j = (a as int) / (m as int);
            assert(a == m * j + a0);
            assert(a * s0 == 1 + (k0 + j * s0) * m) by (nonlinear_arith)
                requires
                    a == m * j + a0,
                    s0 * a0 == 1 + k0 * m,
            ;
            lemma_mod_multiples_vanish(k0 + j * s0, 1, m as int);
            lemma_small_mod(1, m as nat);
        }
        Some(s0)
    } else {
        proof {
            lemma_common_divisor_blocks_inverse(a as int, m as int, r0 as int, u0, v0);
        }
        None
    }
}

// ---------------------------------------------------------------------------
// Signed values and centered lifts
// ---------------------------------------------------------------------------

/// Residue of the signed integer `value` modulo `modulus`.
pub fn signed_i64_to_mod(value: i64, modulus: u64) -> (r: u64)
    requires
        modulus > 0,
    ensures
        r == signed_residue(value as int, modulus as int),
        r < modulus,
{
    if value >= 0 {
        let r: u64 = (value as u64) % modulus;
        r
    } else {
        let abs: u64 = if value == i64::MIN {
            0x8000_0000_0000_0000u64
        } else {
            (-value) as u64
        };
        assert(abs == -value);
        let magnitude: u64 = abs % modulus;
        proof {
            lemma_fundamental_div_mod(-value as int, modulus as int);
        }
        if magnitude == 0 {
            proof {
                let q = (-value as int) / (modulus as int);
                assert(value == modulus * (-q) + 0) by (nonlinear_arith)
                    requires
                        -value == modulus * q + 0,
                ;
                lemma_mod_multiples_vanish(-q, 0, modulus as int);
                lemma_small_mod(0, modulus as nat);
            }
            0
        } else {
            let r: u64 = modulus - magnitude;
            proof {
                let q = (-value as int) / (modulus as int);
                assert(value == modulus * (-q - 1) + r) by (nonlinear_arith)
                    requires
                        -value == modulus * q + magnitude,
                        r == modulus - magnitude,
                ;
                lemma_mod_multiples_vanish(-q - 1, r as int, modulus as int);
                lemma_small_mod(r as nat, modulus as nat);
            }
            r
        }
    }
}

/// Residue of a signed gadget digit modulo `modulus`.
pub fn signed_digit_to_mod(digit: i64, modulus: u64) -> (r: u64)
    requires
        modulus > 0,
    ensures
        r == signed_residue(digit as int, modulus as int),
        r < modulus,
{
    signed_i64_to_mod(digit, modulus)
}

/// Re-reduces a residue modulo `source_modulus` into `target_modulus` through
/// its centered representative.
pub fn centered_residue_mod_modulus(residue: u64, source_modulus: u64, target_modulus: u64) -> (r: u64)
    requires
        target_modulus > 0,
        residue < source_modulus,
    ensures
        r == centered(residue as int, source_modulus as int) % (target_modulus as int),
        r < target_modulus,
{
    if residue > source_modulus / 2 {
        let abs: u64 = (source_modulus - residue) % target_modulus;
        proof {
            lemma_fundamental_div_mod((source_modulus - residue) as int, target_modulus as int);
        }
        if abs == 0 {
            proof {
                let q = ((source_modulus - residue) as int) / (target_modulus as int);
                assert(residue - source_modulus == target_modulus * (-q) + 0) by (nonlinear_arith)
                    requires
                        source_modulus - residue == target_modulus * q + 0,
                ;
                lemma_mod_multiples_vanish(-q, 0, target_modulus as int);
                lemma_small_mod(0, target_modulus as nat);
            }
            0
        } else {
            let r: u64 = target_modulus - abs;
            proof {
                let q = ((source_modulus - residue) as int) / (target_modulus as int);
                assert(residue - source_modulus == target_modulus * (-q - 1) + r) by (nonlinear_arith)
                    requires
                        source_modulus - residue == target_modulus * q + abs,
                        r == target_modulus - abs,
                ;
                lemma_mod_multiples_vanish(-q - 1, r as int, target_modulus as int);
                lemma_small_mod(r as nat, target_modulus as nat);
            }
            r
        }
    } else {
        residue % target_modulus
    }
}

/// Centered representative of `residue mod modulus` in `(-modulus/2, modulus/2]`.
pub fn centered_residue_mod_plaintext(residue: u64, modulus: u64) -> (r: i128)
    requires
        modulus > 0,
    ensures
        r == centered((residue % modulus) as int, modulus as int),
{
    let reduced: u64 = residue % modulus;
    let half: u64 = modulus >> 1;
    assert(half == modulus / 2) by (bit_vector)
        requires
            half == modulus >> 1,
    ;
    if reduced > half {
        reduced as i128 - modulus as i128
    } else {
        reduced as i128
    }
}


// ---------------------------------------------------------------------------
// Residues modulo a product of word-sized moduli
// ---------------------------------------------------------------------------

/// `min(∏ q_i, u64::MAX)` for nonzero moduli.
pub fn saturating_product(moduli: &Vec<u64>) -> (r: u64)
    requires
        forall|i: int| 0 <= i < moduli@.len() ==> #[trigger] moduli@[i] > 0,
    ensures
        prefix_product(moduli@, moduli@.len() as int) >= 1,
        r == if prefix_product(moduli@, moduli@.len() as int) >= u64::MAX {
            u64::MAX as int
        } else {
            prefix_product(moduli@, moduli@.len() as int)
        },
{
    let n = moduli.len();
    let mut p: u64 = 1;
    let mut k: usize = 0;
    while k < n
        invariant
            n == moduli@.len(),
            forall|i: int| 0 <= i < moduli@.len() ==> #[trigger] moduli@[i] > 0,
            k <= n,
            prefix_product(moduli@, k as int) >= 1,
            p == if prefix_product(moduli@, k as int) >= u64::MAX {
                u64::MAX as int
            } else {
                prefix_product(moduli@, k as int)
            },
        decreases n - k,
    {
        let m = moduli[k];
        let ghost prev = prefix_product(moduli@, k as int);
        proof {
            assert(prev * (m as int) >= prev) by (nonlinear_arith)
                requires
                    prev >= 1,
                    m >= 1,
            ;
        }
        p = match p.checked_mul(m) {
            Some(v) => v,
            None => u64::MAX,
        };
        proof {
            if prev >= u64::MAX {
                assert(p == u64::MAX) by (nonlinear_arith)
                    requires
                        p == (if u64::MAX * m > u64::MAX { u64::MAX as int } else { u64::MAX * m }),
                        m >= 1,
                ;
            }
        }
        k += 1;
    }
    p
}

/// Centered representative of `value` modulo `Q = ∏ q_i` (nonzero moduli),
/// in `(−Q/2, Q/2]`.
pub fn centered_mod_product(value: i64, moduli: &Vec<u64>) -> (r: i64)
    requires
        forall|i: int| 0 <= i < moduli@.len() ==> #[trigger] moduli@[i] > 0,
        -0x4000_0000_0000_0000 <= value <= 0x4000_0000_0000_0000,
    ensures
        r == centered(
            (value as int) % prefix_product(moduli@, moduli@.len() as int),
            prefix_product(moduli@, moduli@.len() as int),
        ),
{
    let q_sat = saturating_product(moduli);
    let ghost q = prefix_product(moduli@, moduli@.len() as int);
    let mag: u64 = if value >= 0 {
        value as u64
    } else {
        (-value) as u64
    };
    if q_sat > 2 * mag {
        proof {
            assert(q > 2 * mag);
            if value >= 0 {
                lemma_small_mod(value as nat, q as nat);
            } else {
                lemma_fundamental_div_mod_converse(value as int, q, -1, q + value);
            }
        }
        value
    } else {
        let qi: i128 = q_sat as i128;
        let v: i128 = value as i128;
        let rem: i128 = v % qi;
        let r0: i128 = if rem < 0 {
            rem + qi
        } else {
            rem
        };
        proof {
            assert(q == q_sat);
            assert(r0 == (value as int) % q) by {
                lemma_truncated_rem_euclid(value as int, q, rem as int);
            }
            lemma_mod_bound(value as int, q);
        }
        let half: i128 = qi / 2;
        if r0 > half {
            (r0 - qi) as i64
        } else {
            r0 as i64
        }
    }
}


/// Number of times `v` wraps around `q`: `(v − centered(v mod q)) / q`.
pub open spec fn centered_wrap(v: int, q: int) -> int {
    (v - centered(v % q, q)) / q
}

proof fn lemma_centered_of_small(v: int, q: int)
    requires
        q > 0,
        2 * v < q,
        -q < 2 * v,
    ensures
        centered(v % q, q) == v,
{
    if v >= 0 {
        lemma_small_mod(v as nat, q as nat);
    } else {
        lemma_fundamental_div_mod_converse(v, q, -1, q + v);
    }
}

pub proof fn lemma_centered_wrap_exact(v: int, q: int)
    requires
        q > 0,
    ensures
        v - centered(v % q, q) == q * centered_wrap(v, q),
        -(q / 2) <= centered(v % q, q) <= q / 2,
{
    lemma_fundamental_div_mod(v, q);
    lemma_mod_bound(v, q);
    let k = v / q + (if v % q > q / 2 { 1int } else { 0int });
    assert(v - centered(v % q, q) == q * k) by (nonlinear_arith)
        requires
            v == q * (v / q) + v % q,
            centered(v % q, q) == (if v % q > q / 2 { v % q - q } else { v % q }),
            k == v / q + (if v % q > q / 2 { 1int } else { 0int }),
    ;
    vstd::arithmetic::div_mod::lemma_div_multiples_vanish(k, q);
}

/// Wrap count of `value` around `Q = ∏ q_i` (nonzero moduli).
pub fn centered_wrap_product(value: i64, moduli: &Vec<u64>) -> (r: i64)
    requires
        forall|i: int| 0 <= i < moduli@.len() ==> #[trigger] moduli@[i] > 0,
        -0x4000_0000_0000_0000 <= value <= 0x4000_0000_0000_0000,
    ensures
        r == centered_wrap(value as int, prefix_product(moduli@, moduli@.len() as int)),
        -0x4000_0000_0000_0000 <= r <= 0x4000_0000_0000_0000,
{
    let ghost q = prefix_product(moduli@, moduli@.len() as int);
    let q_sat = saturating_product(moduli);
    let c = centered_mod_product(value, moduli);
    let mag: u64 = if value >= 0 {
        value as u64
    } else {
        (-value) as u64
    };
    proof {
        lemma_centered_wrap_exact(value as int, q);
    }
    if q_sat > 2 * mag {
        proof {
            lemma_centered_of_small(value as int, q);
            vstd::arithmetic::div_mod::lemma_div_multiples_vanish(0, q);
        }
        0
    } else {
        proof {
            assert(q == q_sat);
        }
        let d: i128 = value as i128 - c as i128;
        let ghost k = centered_wrap(value as int, q);
        proof {
            assert(d == q * k);
            if q == 1 {
                assert(q * k == k) by (nonlinear_arith)
                    requires
                        q == 1,
                ;
                assert(c == 0);
            } else {
                assert(-0x4000_0000_0000_0000 <= k <= 0x4000_0000_0000_0000) by (nonlinear_arith)
                    requires
                        d == q * k,
                        q >= 2,
                        -0x8000_0000_0000_0000 <= d <= 0x8000_0000_0000_0000,
                ;
            }
        }
        if d >= 0 {
            let w = ((d as u128) / (q_sat as u128)) as u64;
            proof {
                vstd::arithmetic::div_mod::lemma_div_multiples_vanish(k, q);
            }
            w as i64
        } else {
            let w = (((-d) as u128) / (q_sat as u128)) as u64;
            proof {
                assert(-d == q * (-k)) by (nonlinear_arith)
                    requires
                        d == q * k,
                ;
                vstd::arithmetic::div_mod::lemma_div_multiples_vanish(-k, q);
            }
            -(w as i64)
        }
    }
}

proof fn lemma_truncated_rem_euclid(v: int, s: int, m: int)
    requires
        s > 0,
        m == (if v >= 0 { v % s } else { -((-v) % s) }),
    ensures
        (if m < 0 { m + s } else { m }) == v % s,
{
    lemma_fundamental_div_mod(v, s);
    lemma_fundamental_div_mod(-v, s);
    lemma_mod_bound(v, s);
    lemma_mod_bound(-v, s);
    if v < 0 {
        let q = (-v) / s;
        let rr = (-v) % s;
        if rr == 0 {
            assert(v == s * (-q) + 0) by (nonlinear_arith)
                requires
                    -v == s * q + rr,
                    rr == 0,
            ;
            lemma_fundamental_div_mod_converse_mod(v, s, -q, 0);
        } else {
            assert(v == (-q - 1) * s + (s - rr)) by (nonlinear_arith)
                requires
                    -v == s * q + rr,
            ;
            lemma_fundamental_div_mod_converse_mod(v, s, -q - 1, s - rr);
        }
    }
}

// ---------------------------------------------------------------------------
// Laws
// ---------------------------------------------------------------------------

/// The product of two residues invertible modulo `m` is invertible too.
pub proof fn lemma_unit_product(a: int, b: int, m: int)
    requires
        has_mod_inverse(a, m),
        has_mod_inverse(b, m),
    ensures
        has_mod_inverse((a * b) % m, m),
{
    let x = choose|x: int| is_mod_inverse(a, x, m);
    let y = choose|y: int| is_mod_inverse(b, y, m);
    assert(m > 0);
    let z = (x * y) % m;
    lemma_mod_bound(x * y, m);
    lemma_mul_mod_noop_left(a * b, z, m);
    lemma_mul_mod_noop_right(a * b, x * y, m);
    assert((a * b) * (x * y) == (a * x) * (b * y)) by (nonlinear_arith);
    lemma_mul_mod_noop_left(a * x, b * y, m);
    lemma_mul_mod_noop_right(1, b * y, m);
    lemma_small_mod(1, m as nat);
    assert(1 * (b * y) == b * y);
    assert(is_mod_inverse((a * b) % m, z, m));
}


/// Greatest common divisor of two naturals, by Euclid's recursion.
pub open spec fn gcd(a: nat, b: nat) -> nat
    decreases b,
{
    if b == 0 {
        a
    } else {
        gcd(b, a % b)
    }
}

/// `p` is prime: greater than one, with no divisor strictly between one
/// and itself.
pub open spec fn is_prime(p: int) -> bool {
    &&& p > 1
    &&& forall|d: int| 1 < d < p ==> #[trigger] (p % d) != 0
}

/// Bezout's identity for Euclid's gcd: `gcd(a, b) == a·x + b·y` for some
/// integers, and the gcd divides both `a` and `b`.  Returns the witnesses
/// `(x, y, a / g, b / g)`.
pub proof fn lemma_gcd_bezout(a: nat, b: nat) -> (w: (int, int, int, int))
    ensures
        gcd(a, b) == a * w.0 + b * w.1,
        a == gcd(a, b) * w.2,
        b == gcd(a, b) * w.3,
    decreases b,
{
    if b == 0 {
        (1, 0, 1, 0)
    } else {
        let r = a % b;
        let q = a / b;
        lemma_fundamental_div_mod(a as int, b as int);
        let (x1, y1, ka1, kb1) = lemma_gcd_bezout(b, r);
        let g = gcd(a, b);
        assert(g == gcd(b, r));
        assert(g == a * y1 + b * (x1 - q * y1)) by (nonlinear_arith)
            requires
                g == b * x1 + r * y1,
                a == b * q + r,
        ;
        assert(a == g * (ka1 * q + kb1)) by (nonlinear_arith)
            requires
                b == g * ka1,
                r == g * kb1,
                a == b * q + r,
        ;
        (y1, x1 - q * y1, ka1 * q + kb1, ka1)
    }
}

/// A residue is invertible modulo `m > 1` exactly when it is coprime to
/// `m`: its gcd with `m` is one.
pub proof fn lemma_inverse_iff_coprime(a: int, m: int)
    requires
        m > 1,
    ensures
        has_mod_inverse(a, m) <==> gcd((a % m) as nat, m as nat) == 1,
{
    let a0 = a % m;
    lemma_mod_bound(a, m);
    let (x, y, ka, kb) = lemma_gcd_bezout(a0 as nat, m as nat);
    let g = gcd(a0 as nat, m as nat) as int;
    if g == 1 {
        // 1 == a0·x + m·y, so a0·x ≡ 1 (mod m), and so is a·x.
        let z = x % m;
        lemma_mod_bound(x, m);
        assert(a0 * x == 1 + (-y) * m) by (nonlinear_arith)
            requires
                1 == a0 * x + m * y,
        ;
        lemma_mod_multiples_vanish(-y, 1, m);
        lemma_small_mod(1, m as nat);
        assert((a0 * x) % m == 1);
        lemma_mul_mod_noop_right(a0, x, m);
        lemma_mul_mod_noop_left(a, z, m);
        assert(is_mod_inverse(a, z, m));
    }
    if has_mod_inverse(a, m) {
        let z = choose|z: int| is_mod_inverse(a, z, m);
        lemma_mul_mod_noop_left(a, z, m);
        let q = (a0 * z) / m;
        lemma_fundamental_div_mod(a0 * z, m);
        assert(a0 * z == m * q + 1);
        let c = ka * z - kb * q;
        assert(g * c == 1) by (nonlinear_arith)
            requires
                a0 == g * ka,
                m == g * kb,
                a0 * z == m * q + 1,
                c == ka * z - kb * q,
        ;
        assert(g == 1) by (nonlinear_arith)
            requires
                g * c == 1,
                g >= 0,
        ;
    }
}

/// Modulo a prime, every residue other than zero is invertible.
pub proof fn lemma_prime_unit(a: int, p: int)
    requires
        is_prime(p),
        a % p != 0,
    ensures
        has_mod_inverse(a, p),
{
    let a0 = a % p;
    lemma_mod_bound(a, p);
    let (x, y, ka, kb) = lemma_gcd_bezout(a0 as nat, p as nat);
    let g = gcd(a0 as nat, p as nat) as int;
    assert(g != 0) by {
        if g == 0 {
            assert(a0 == 0 * ka) by (nonlinear_arith)
                requires
                    a0 == g * ka,
                    g == 0,
            ;
        }
    }
    assert(ka >= 1) by (nonlinear_arith)
        requires
            a0 == g * ka,
            g > 0,
            a0 > 0,
    ;
    assert(g <= a0) by (nonlinear_arith)
        requires
            a0 == g * ka,
            g > 0,
            ka >= 1,
    ;
    assert(g == 1) by {
        if g > 1 {
            lemma_mod_multiples_basic(kb, g);
            assert(p % g == 0) by (nonlinear_arith)
                requires
                    p == g * kb,
                    (kb * g) % g == 0,
            ;
        }
    }
    lemma_inverse_iff_coprime(a, p);
}

/// A modular inverse is unique: two inverses of `a` modulo `m` coincide.
pub proof fn lemma_mod_inverse_unique(a: int, x: int, y: int, m: int)
    requires
        is_mod_inverse(a, x, m),
        is_mod_inverse(a, y, m),
    ensures
        x == y,
{
    // x == x * (a * y) == (x * a) * y == y  (mod m)
    let m0 = m;
    assert(m0 > 1) by {
        if m0 == 1 {
            lemma_small_mod(0, 1);
            assert((a * x) % 1 == 0);
        }
    }
    lemma_mul_mod_noop_right(x, a * y, m);
    lemma_mul_mod_noop_left(a * x, y, m);
    assert(x * (a * y) == (a * x) * y) by (nonlinear_arith);
    lemma_small_mod(1, m as nat);
    assert((x * 1) % m == (1 * y) % m);
    lemma_small_mod(x as nat, m as nat);
    lemma_small_mod(y as nat, m as nat);
}

/// The residue of a signed value is congruent to it: adding back the value's
/// negation gives a multiple of the modulus.
pub proof fn lemma_signed_residue_congruent(v: int, m: int)
    requires
        m > 0,
    ensures
        (signed_residue(v, m) - v) % m == 0,
        0 <= signed_residue(v, m) < m,
{
    lemma_fundamental_div_mod(v, m);
    lemma_mod_pos_bound_int(v, m);
    let q = v / m;
    assert(signed_residue(v, m) - v == m * (-q) + 0) by (nonlinear_arith)
        requires
            v == m * q + v % m,
            signed_residue(v, m) == v % m,
    ;
    lemma_mod_multiples_vanish(-q, 0, m);
    lemma_small_mod(0, m as nat);
}

proof fn lemma_mod_pos_bound_int(v: int, m: int)
    requires
        m > 0,
    ensures
        0 <= v % m < m,
{
    lemma_mod_bound(v, m);
}

} // verus!
