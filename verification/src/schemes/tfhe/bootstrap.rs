//! Layout of the programmable-bootstrapping lookup table.
//!
//! The test polynomial of size `N` holds `T` boxes of `⌊N / T⌋` equal
//! coefficients, box `m` carrying the encoded table value of message `m`.
//! The first half box is negated and the whole polynomial rotated left by a
//! half box, so that the negacyclic blind rotation lands a noisy phase in
//! the middle of its box.

use vstd::prelude::*;

verus! {

/// Two's-complement negation of a 64-bit word.
pub open spec fn word_neg(x: u64) -> u64 {
    if x == 0 {
        0
    } else {
        (u64::MAX - x + 1) as u64
    }
}

/// Coefficient `i` of the table before the half-box fix-up: box `⌊i / b⌋`
/// for `i < T · b`, zero in the tail (`b = ⌊N / T⌋`).
pub open spec fn lut_box_fill(values: Seq<u64>, n: int, i: int) -> u64 {
    let b = n / (values.len() as int);
    if i < (values.len() as int) * b {
        values[i / b]
    } else {
        0
    }
}

/// Coefficient `i` of the lookup-table polynomial: the box fill with its
/// first half box negated, rotated left by half a box.
pub open spec fn lut_coefficient(values: Seq<u64>, n: int, i: int) -> u64 {
    let h = (n / (values.len() as int)) / 2;
    let j = (i + h) % n;
    if j < h {
        word_neg(lut_box_fill(values, n, j))
    } else {
        lut_box_fill(values, n, j)
    }
}

/// Coefficients of the lookup-table polynomial of size `polynomial_size`
/// whose box `m` carries `box_values[m]`, the encoded table value of
/// message `m`.
pub fn lookup_table_coefficients(polynomial_size: usize, box_values: &Vec<u64>) -> (r: Vec<u64>)
    requires
        0 < box_values@.len() <= polynomial_size,
    ensures
        r@.len() == polynomial_size,
        forall|i: int|
            0 <= i < polynomial_size ==> #[trigger] r@[i] == lut_coefficient(
                box_values@,
                polynomial_size as int,
                i,
            ),
        forall|m: int|
            0 <= m < box_values@.len() ==> r@[m * ((polynomial_size as int) / (
            box_values@.len() as int))] == #[trigger] box_values@[m],
{
    let n = polynomial_size;
    let total = box_values.len();
    let box_size = n / total;
    let half_box = box_size / 2;
    let ghost v = box_values@;
    proof {
        assert(box_size >= 1) by (nonlinear_arith)
            requires
                0 < total <= n,
                box_size == n / total,
        ;
        assert(total * box_size <= n) by (nonlinear_arith)
            requires
                0 < total,
                box_size == n / total,
        ;
    }
    let filled_len = total * box_size;
    let mut raw: Vec<u64> = Vec::new();
    let mut i: usize = 0;
    while i < n
        invariant
            n == polynomial_size,
            total == v.len(),
            v == box_values@,
            0 < total <= n,
            box_size == (n as int) / (total as int),
            box_size >= 1,
            filled_len == total * box_size,
            filled_len <= n,
            i <= n,
            raw@.len() == i,
            forall|k: int| 0 <= k < i ==> #[trigger] raw@[k] == lut_box_fill(v, n as int, k),
        decreases n - i,
    {
        let value = if i < filled_len {
            proof {
                assert(i / box_size < total) by (nonlinear_arith)
                    requires
                        i < total * box_size,
                        box_size >= 1,
                ;
            }
            box_values[i / box_size]
        } else {
            0
        };
        raw.push(value);
        i += 1;
    }
    let mut out: Vec<u64> = Vec::new();
    let mut k: usize = 0;
    while k < n
        invariant
            n == polynomial_size,
            total == v.len(),
            v == box_values@,
            0 < total <= n,
            box_size == (n as int) / (total as int),
            box_size >= 1,
            half_box == box_size / 2,
            raw@.len() == n,
            forall|q: int| 0 <= q < n ==> #[trigger] raw@[q] == lut_box_fill(v, n as int, q),
            k <= n,
            out@.len() == k,
            forall|q: int| 0 <= q < k ==> #[trigger] out@[q] == lut_coefficient(v, n as int, q),
        decreases n - k,
    {
        let j = if k < n - half_box {
            k + half_box
        } else {
            k - (n - half_box)
        };
        proof {
            if k < n - half_box {
                vstd::arithmetic::div_mod::lemma_small_mod((k + half_box) as nat, n as nat);
            } else {
                vstd::arithmetic::div_mod::lemma_mod_sub_multiples_vanish((k + half_box) as int, n as int);
                vstd::arithmetic::div_mod::lemma_small_mod((k + half_box - n) as nat, n as nat);
            }
            assert(j == (k + half_box) % (n as int));
        }
        let x = raw[j];
        let coefficient = if j < half_box {
            if x == 0 {
                0
            } else {
                u64::MAX - x + 1
            }
        } else {
            x
        };
        out.push(coefficient);
        k += 1;
    }
    proof {
        assert forall|m: int| 0 <= m < v.len() implies out@[m * (box_size as int)] == #[trigger] v[m] by {
            let s = m * (box_size as int);
            assert(s + half_box < (v.len() as int) * box_size && 0 <= s) by (nonlinear_arith)
                requires
                    0 <= m < v.len(),
                    box_size >= 1,
                    half_box == box_size / 2,
                    s == m * box_size,
            ;
            assert(s + half_box < n);
            assert(s < n);
            vstd::arithmetic::div_mod::lemma_small_mod((s + half_box) as nat, n as nat);
            assert((s + half_box) / (box_size as int) == m) by (nonlinear_arith)
                requires
                    s == m * box_size,
                    box_size >= 1,
                    0 <= half_box < box_size,
            {
                vstd::arithmetic::div_mod::lemma_fundamental_div_mod_converse(
                    s + half_box,
                    box_size as int,
                    m,
                    half_box as int,
                );
            }
            assert(out@[s] == lut_coefficient(v, n as int, s));
        }
    }
    out
}

} // verus!
