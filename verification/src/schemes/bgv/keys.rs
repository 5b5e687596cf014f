//! Galois-element bookkeeping for BGV slot rotations and baby-step /
//! giant-step linear transforms over a power-of-two cyclotomic ring of
//! degree `N` (Galois group `(Z / 2N)^*`).

use vstd::prelude::*;
use vstd::arithmetic::power2::{pow2, lemma2_to64, lemma_pow2_pos, lemma_pow2_adds};

use std::collections::HashMap;

use crate::modarith::{has_mod_inverse, is_mod_inverse, mod_inverse, prefix_product};
use crate::schemes::bgv::params::BgvLevelError;
use crate::wide::bit_length;

verus! {

// ---------------------------------------------------------------------------
// Specifications
// ---------------------------------------------------------------------------

/// The low `bits` bits of `v`, in reverse order.
pub open spec fn rev_bits(v: nat, bits: nat) -> nat
    decreases bits,
{
    if bits == 0 {
        0
    } else {
        ((v % 2) * pow2((bits - 1) as nat) + rev_bits(v / 2, (bits - 1) as nat)) as nat
    }
}

/// Number of trailing zero bits of `n` as a `usize` (`usize::BITS` for 0).
pub open spec fn usize_trailing_zeros(n: nat) -> nat
    decreases n,
{
    if n == 0 {
        usize::BITS as nat
    } else if n % 2 == 1 {
        0
    } else {
        1 + usize_trailing_zeros(n / 2)
    }
}

/// For `n > 0` the trailing-zero count `z` is the exponent of two in `n`:
/// `2^z` divides `n` and leaves an odd quotient.
pub proof fn lemma_trailing_zeros_is_two_adic(n: nat)
    requires
        n > 0,
    ensures
        n % pow2(usize_trailing_zeros(n)) == 0,
        (n / pow2(usize_trailing_zeros(n))) % 2 == 1,
    decreases n,
{
    let z = usize_trailing_zeros(n);
    if n % 2 == 1 {
        assert(pow2(0) == 1) by {
            vstd::arithmetic::power2::lemma2_to64();
        }
    } else {
        let h = n / 2;
        assert(h > 0);
        lemma_trailing_zeros_is_two_adic(h);
        let zh = usize_trailing_zeros(h);
        assert(z == zh + 1);
        vstd::arithmetic::power2::lemma_pow2_unfold(z);
        lemma_pow2_pos(zh);
        let p = pow2(zh) as int;
        assert(pow2(z) == 2 * p);
        assert(n == 2 * h);
        vstd::arithmetic::div_mod::lemma_fundamental_div_mod(h as int, p);
        let q = (h as int) / p;
        assert(h == p * q);
        assert(n == (2 * p) * q) by (nonlinear_arith)
            requires
                n == 2 * h,
                h == p * q,
        ;
        vstd::arithmetic::div_mod::lemma_mod_multiples_basic(q, 2 * p);
        assert(q * (2 * p) == (2 * p) * q) by (nonlinear_arith);
        vstd::arithmetic::div_mod::lemma_div_multiples_vanish(q, 2 * p);
        assert((2 * p) * q == q * (2 * p)) by (nonlinear_arith);
    }
}

/// Order `2N` of the cyclotomic Galois group for ring degree `N`.
pub open spec fn galois_modulus(degree: usize) -> int {
    2 * degree
}

/// `rotation mod slots`, taken in `[0, slots)`.
pub open spec fn spec_normalized_rotation(rotation: i32, slots: usize) -> int {
    (rotation as int) % (slots as int)
}

/// `true` when `elements` lists each entry at most once.
pub open spec fn no_duplicates(elements: Seq<u32>) -> bool {
    forall|i: int, j: int| 0 <= i < j < elements.len() ==> elements[i] != elements[j]
}

/// Canonical Galois element for ring degree `degree` (0 denotes the identity).
pub open spec fn spec_canonical_galois_element(degree: usize, element: u32) -> Result<u32, BgvLevelError> {
    if element == 0 {
        Ok(1u32)
    } else {
        let modulus = galois_modulus(degree);
        let reduced = (element as int) % modulus;
        if reduced == 0 || !has_mod_inverse(reduced, modulus) {
            Err(BgvLevelError::InvalidGaloisElement { element, modulus: modulus as u64 })
        } else {
            Ok(reduced as u32)
        }
    }
}

// ---------------------------------------------------------------------------
// Bit helpers
// ---------------------------------------------------------------------------

proof fn lemma_usize_bits_pow2()
    ensures
        pow2(usize::BITS as nat) == usize::MAX + 1,
        usize::BITS == 32 || usize::BITS == 64,
{
    lemma2_to64();
    vstd::arithmetic::power2::lemma2_to64_rest();
}

proof fn lemma_rev_bits_bound(v: nat, bits: nat)
    ensures
        rev_bits(v, bits) < pow2(bits),
    decreases bits,
{
    lemma2_to64();
    if bits > 0 {
        lemma_rev_bits_bound(v / 2, (bits - 1) as nat);
        lemma_pow2_adds((bits - 1) as nat, 1);
        lemma_pow2_pos((bits - 1) as nat);
        let p = pow2((bits - 1) as nat);
        assert((v % 2) * p + rev_bits(v / 2, (bits - 1) as nat) < p * 2) by (nonlinear_arith)
            requires
                v % 2 <= 1,
                rev_bits(v / 2, (bits - 1) as nat) < p,
        ;
    }
}

/// The low `bits` bits of `value` in reverse order.
pub fn reverse_low_bits(value: usize, bits: u32) -> (r: usize)
    requires
        bits <= usize::BITS,
    ensures
        r == rev_bits(value as nat, bits as nat),
{
    proof {
        lemma_usize_bits_pow2();
        lemma2_to64();
        assert(rev_bits(value as nat, bits as nat) == 0 * pow2(bits as nat) + rev_bits(
            value as nat,
            bits as nat,
        ));
    }
    let mut result: usize = 0;
    let mut cur: usize = value;
    let mut k: u32 = 0;
    while k < bits
        invariant
            k <= bits <= usize::BITS,
            pow2(usize::BITS as nat) == usize::MAX + 1,
            result < pow2(k as nat),
            rev_bits(value as nat, bits as nat) == result * pow2((bits - k) as nat) + rev_bits(
                cur as nat,
                (bits - k) as nat,
            ),
        decreases bits - k,
    {
        proof {
            let rest = (bits - k - 1) as nat;
            lemma_pow2_adds(rest, 1);
            lemma_pow2_adds(k as nat, 1);
            lemma2_to64();
            lemma_pow2_pos(rest);
            let p = pow2(rest);
            assert(result * pow2((bits - k) as nat) + rev_bits(cur as nat, (bits - k) as nat) == (
            2 * result + cur % 2) * p + rev_bits((cur / 2) as nat, rest)) by (nonlinear_arith)
                requires
                    pow2((bits - k) as nat) == p * 2,
                    rev_bits(cur as nat, (bits - k) as nat) == (cur % 2) * p + rev_bits(
                        (cur / 2) as nat,
                        rest,
                    ),
            ;
            assert(2 * result + cur % 2 < pow2((k + 1) as nat)) by (nonlinear_arith)
                requires
                    result < pow2(k as nat),
                    pow2((k + 1) as nat) == pow2(k as nat) * 2,
                    cur % 2 <= 1,
            ;
            if k + 1 < usize::BITS {
                vstd::arithmetic::power2::lemma_pow2_strictly_increases(
                    (k + 1) as nat,
                    usize::BITS as nat,
                );
            }
        }
        result = 2 * result + cur % 2;
        cur = cur / 2;
        k = k + 1;
    }
    proof {
        lemma2_to64();
        assert(k == bits);
        assert(rev_bits(cur as nat, 0) == 0);
        assert(result * pow2(0) == result);
    }
    result
}

/// Number of trailing zero bits of `n` (`usize::BITS` when `n == 0`).
pub fn trailing_zeros(n: usize) -> (r: u32)
    ensures
        r == usize_trailing_zeros(n as nat),
        r <= usize::BITS,
{
    proof {
        lemma_usize_bits_pow2();
    }
    if n == 0 {
        return usize::BITS;
    }
    proof {
        lemma2_to64();
        assert(pow2(0) == 1);
        assert(n * pow2(0) == n);
        lemma_trailing_zeros_nonzero(n as nat);
    }
    let mut count: u32 = 0;
    let mut cur: usize = n;
    while cur % 2 == 0
        invariant
            cur > 0,
            count + usize_trailing_zeros(cur as nat) == usize_trailing_zeros(n as nat),
            cur * pow2(count as nat) == n,
            count < usize::BITS,
            pow2(usize::BITS as nat) == usize::MAX + 1,
        decreases cur,
    {
        proof {
            lemma_pow2_adds(count as nat, 1);
            lemma2_to64();
            let p = pow2(count as nat);
            assert((cur / 2) * pow2((count + 1) as nat) == n) by (nonlinear_arith)
                requires
                    cur * p == n,
                    cur % 2 == 0,
                    pow2((count + 1) as nat) == p * 2,
            ;
            if count + 1 >= usize::BITS {
                if usize::BITS < count + 1 {
                    vstd::arithmetic::power2::lemma_pow2_strictly_increases(
                        usize::BITS as nat,
                        (count + 1) as nat,
                    );
                }
                assert(cur / 2 >= 1);
                assert((cur / 2) * pow2((count + 1) as nat) >= pow2((count + 1) as nat))
                    by (nonlinear_arith)
                    requires
                        cur / 2 >= 1,
                        pow2((count + 1) as nat) > 0,
                ;
            }
        }
        cur = cur / 2;
        count = count + 1;
    }
    count
}

/// Slot read by `destination` under the automorphism `element` of the
/// degree-`degree` ring: bit-reversed index arithmetic on `degree + destination`.
pub open spec fn source_slot(degree: usize, element: int, destination: int) -> int {
    rev_bits(
        (((element * rev_bits(
            (degree + destination) as nat,
            usize_trailing_zeros(degree as nat) + 1,
        )) / 2) as usize & ((degree - 1) as usize)) as nat,
        usize_trailing_zeros(degree as nat),
    ) as int
}

/// Slot read by destination slot `destination` after applying the Galois
/// automorphism `element` on a ring of degree `degree`.
pub fn automorphism_source_slot(degree: usize, element: usize, destination: usize) -> (r: usize)
    requires
        degree > 0,
        degree + destination <= usize::MAX,
        element * rev_bits(
            (degree + destination) as nat,
            usize_trailing_zeros(degree as nat) + 1,
        ) <= usize::MAX,
    ensures
        r == source_slot(degree, element as int, destination as int),
{
    let log_n = trailing_zeros(degree);
    proof {
        if log_n == usize::BITS {
            // only zero has every bit clear
            lemma_trailing_zeros_nonzero(degree as nat);
        }
    }
    let reversed = reverse_low_bits(degree + destination, log_n + 1);
    let product = element * reversed;
    let index_raw = (product >> 1) & (degree - 1);
    assert(product >> 1 == product / 2) by (bit_vector);
    reverse_low_bits(index_raw, log_n)
}

proof fn lemma_trailing_zeros_nonzero(n: nat)
    requires
        n > 0,
        n <= usize::MAX,
    ensures
        usize_trailing_zeros(n) < usize::BITS,
{
    lemma_usize_bits_pow2();
    lemma_trailing_zeros_pow2(n);
    let t = usize_trailing_zeros(n);
    if t >= usize::BITS {
        if usize::BITS < t {
            vstd::arithmetic::power2::lemma_pow2_strictly_increases(usize::BITS as nat, t);
        }
    }
}

proof fn lemma_trailing_zeros_pow2(n: nat)
    requires
        n > 0,
    ensures
        pow2(usize_trailing_zeros(n)) <= n,
    decreases n,
{
    lemma2_to64();
    if n % 2 == 0 {
        lemma_trailing_zeros_pow2(n / 2);
        lemma_pow2_adds(usize_trailing_zeros(n / 2), 1);
    }
}

// ---------------------------------------------------------------------------
// Galois elements
// ---------------------------------------------------------------------------

/// `element` denotes the identity automorphism (0 and 1 both do).
pub fn is_identity_galois_element(element: u32) -> (r: bool)
    ensures
        r == (element == 0 || element == 1),
{
    element == 0 || element == 1
}

/// Maps both identity encodings to 1, leaving other elements unchanged.
pub fn canonical_galois_element(element: u32) -> (r: u32)
    ensures
        r == (if element == 0 || element == 1 { 1 } else { element }),
{
    if is_identity_galois_element(element) {
        1
    } else {
        element
    }
}

/// Order `2N` of the Galois group of the degree-`N` ring.
pub fn bgv_galois_element_modulus(degree: usize) -> (r: u64)
    requires
        2 * degree <= u64::MAX,
    ensures
        r == galois_modulus(degree),
{
    (degree as u64) * 2
}

/// Reduces a Galois element modulo `2N`, rejecting non-units; 0 denotes the
/// identity.
pub fn bgv_canonical_galois_element_for_params(degree: usize, element: u32) -> (r: Result<
    u32,
    BgvLevelError,
>)
    requires
        0 < degree,
        2 * degree <= u64::MAX,
    ensures
        r == spec_canonical_galois_element(degree, element),
{
    if element == 0 {
        return Ok(1);
    }
    let modulus = bgv_galois_element_modulus(degree);
    let reduced = (element as u64) % modulus;
    if reduced == 0 || mod_inverse(reduced, modulus).is_none() {
        return Err(BgvLevelError::InvalidGaloisElement { element, modulus });
    }
    Ok(reduced as u32)
}

/// Inverse of a Galois element in `(Z / 2N)^*`.
pub fn bgv_inverse_galois_element(degree: usize, element: u32) -> (r: Result<u32, BgvLevelError>)
    requires
        0 < degree,
        2 * degree <= u32::MAX,
    ensures
        spec_canonical_galois_element(degree, element) is Err ==> r
            == spec_canonical_galois_element(degree, element),
        spec_canonical_galois_element(degree, element) is Ok ==> r is Ok && is_mod_inverse(
            spec_canonical_galois_element(degree, element)->Ok_0 as int,
            r->Ok_0 as int,
            galois_modulus(degree),
        ),
{
    let canonical = match bgv_canonical_galois_element_for_params(degree, element) {
        Ok(e) => e,
        Err(e) => return Err(e),
    };
    let modulus = bgv_galois_element_modulus(degree);
    proof {
        if element == 0 {
            vstd::arithmetic::div_mod::lemma_small_mod(1, modulus as nat);
            assert(is_mod_inverse(1, 1, modulus as int));
        } else {
            vstd::arithmetic::div_mod::lemma_mod_bound(element as int, modulus as int);
            assert(canonical as int == (element as int) % (modulus as int));
            assert(has_mod_inverse(canonical as int, modulus as int));
        }
    }
    match mod_inverse(canonical as u64, modulus) {
        Some(inverse) => Ok(inverse as u32),
        None => Err(BgvLevelError::InvalidGaloisElement { element: canonical, modulus }),
    }
}

/// Product of two Galois elements modulo `2N`.
pub fn bgv_multiply_galois_elements(degree: usize, left: u32, right: u32) -> (r: u32)
    requires
        0 < degree,
        2 * degree <= u32::MAX,
    ensures
        r == (left * right) % galois_modulus(degree),
{
    let modulus = bgv_galois_element_modulus(degree);
    proof {
        assert(left * right <= u32::MAX * u32::MAX) by (nonlinear_arith)
            requires
                left <= u32::MAX,
                right <= u32::MAX,
        ;
    }
    ((left as u128 * right as u128) % (modulus as u128)) as u32
}

/// Appends `element` unless it is the identity (1) or already listed.
pub fn push_unique_non_identity(elements: &mut Vec<u32>, element: u32)
    ensures
        final(elements)@ == (if element != 1 && !old(elements)@.contains(element) {
            old(elements)@.push(element)
        } else {
            old(elements)@
        }),
{
    if element != 1 && !vec_contains_u32(elements, element) {
        elements.push(element);
    }
}

/// `true` when `value` occurs in `elements`.
pub fn vec_contains_u32(elements: &Vec<u32>, value: u32) -> (r: bool)
    ensures
        r == elements@.contains(value),
{
    let mut i: usize = 0;
    while i < elements.len()
        invariant
            i <= elements@.len(),
            forall|j: int| 0 <= j < i ==> elements@[j] != value,
        decreases elements@.len() - i,
    {
        if elements[i] == value {
            return true;
        }
        i += 1;
    }
    false
}

/// Every non-identity odd element `3, 5, …, 2N − 1` (used to sum all slots).
pub fn bgv_full_slot_sum_galois_elements(degree: usize) -> (r: Vec<u32>)
    requires
        2 * degree <= u32::MAX,
    ensures
        r@.len() == (if degree >= 2 {
            degree - 1
        } else {
            0
        }),
        forall|i: int| 0 <= i < r@.len() ==> r@[i] == 3 + 2 * i,
{
    let count: usize = if degree >= 2 {
        degree - 1
    } else {
        0
    };
    let mut out: Vec<u32> = Vec::new();
    let mut i: usize = 0;
    while i < count
        invariant
            2 * degree <= u32::MAX,
            count == (if degree >= 2 {
                degree - 1
            } else {
                0
            }),
            i <= count,
            out@.len() == i,
            forall|j: int| 0 <= j < out@.len() ==> out@[j] == 3 + 2 * j,
        decreases count - i,
    {
        out.push((3 + 2 * i) as u32);
        i += 1;
    }
    out
}

/// Every odd element `1, 3, …, 2N − 1` of the Galois group.
pub fn bgv_all_slot_linear_transform_elements(degree: usize) -> (r: Vec<u32>)
    requires
        2 * degree <= u32::MAX,
    ensures
        r@.len() == degree,
        forall|i: int| 0 <= i < r@.len() ==> r@[i] == 1 + 2 * i,
{
    let mut out: Vec<u32> = Vec::new();
    let mut i: usize = 0;
    while i < degree
        invariant
            2 * degree <= u32::MAX,
            i <= degree,
            out@.len() == i,
            forall|j: int| 0 <= j < out@.len() ==> out@[j] == 1 + 2 * j,
        decreases degree - i,
    {
        out.push((1 + 2 * i) as u32);
        i += 1;
    }
    out
}

/// `rotation mod slots` for a cyclic slot rotation; fails for zero slots.
pub fn normalize_slot_rotation(rotation: i32, slots: usize) -> (r: Result<usize, BgvLevelError>)
    requires
        slots <= i64::MAX,
    ensures
        slots == 0 ==> r == Err::<usize, BgvLevelError>(
            BgvLevelError::SlotRotationUnsupported { rotation, slots },
        ),
        slots > 0 ==> r == Ok::<usize, BgvLevelError>(
            spec_normalized_rotation(rotation, slots) as usize,
        ),
{
    if slots == 0 {
        return Err(BgvLevelError::SlotRotationUnsupported { rotation, slots });
    }
    let s = slots as i64;
    let v = rotation as i64;
    let m = v % s;
    let r: i64 = if m < 0 {
        m + s
    } else {
        m
    };
    proof {
        // Rust `%` truncates toward zero; shift negative remainders into range.
        assert(r == (rotation as int) % (slots as int)) by {
            lemma_truncated_rem_to_euclid(v as int, s as int, m as int);
        }
    }
    Ok(r as usize)
}

proof fn lemma_truncated_rem_to_euclid(v: int, s: int, m: int)
    requires
        s > 0,
        m == (if v >= 0 { v % s } else { -((-v) % s) }),
    ensures
        (if m < 0 { m + s } else { m }) == v % s,
{
    vstd::arithmetic::div_mod::lemma_fundamental_div_mod(v, s);
    vstd::arithmetic::div_mod::lemma_fundamental_div_mod(-v, s);
    vstd::arithmetic::div_mod::lemma_mod_bound(v, s);
    vstd::arithmetic::div_mod::lemma_mod_bound(-v, s);
    if v < 0 {
        let q = (-v) / s;
        let rr = (-v) % s;
        if rr == 0 {
            assert(v == s * (-q) + 0) by (nonlinear_arith)
                requires
                    -v == s * q + rr,
                    rr == 0,
            ;
            vstd::arithmetic::div_mod::lemma_fundamental_div_mod_converse_mod(v, s, -q, 0);
        } else {
            assert(v == (-q - 1) * s + (s - rr)) by (nonlinear_arith)
                requires
                    -v == s * q + rr,
            ;
            vstd::arithmetic::div_mod::lemma_fundamental_div_mod_converse_mod(v, s, -q - 1, s - rr);
        }
    }
}

/// Validates the shape of a packed `rows × columns` slot matrix and returns
/// its number of active slots.
pub fn validate_slot_matrix_dimensions(degree: usize, rows: usize, columns: usize) -> (r: Result<
    usize,
    BgvLevelError,
>)
    ensures
        (rows * columns > usize::MAX || rows == 0 || columns == 0 || rows * columns > degree) ==> r
            == Err::<usize, BgvLevelError>(
            BgvLevelError::InvalidSlotMatrixDimensions { rows, columns, slots: degree },
        ),
        !(rows * columns > usize::MAX || rows == 0 || columns == 0 || rows * columns > degree) ==> r
            == Ok::<usize, BgvLevelError>((rows * columns) as usize),
{
    let active_slots = match rows.checked_mul(columns) {
        Some(a) => a,
        None => {
            return Err(BgvLevelError::InvalidSlotMatrixDimensions { rows, columns, slots: degree });
        },
    };
    if rows == 0 || columns == 0 || active_slots > degree {
        return Err(BgvLevelError::InvalidSlotMatrixDimensions { rows, columns, slots: degree });
    }
    Ok(active_slots)
}

/// Validates that a slot linear-transform matrix is square of size `N`.
pub fn validate_slot_linear_transform_matrix(degree: usize, matrix: &Vec<Vec<u64>>) -> (r: Result<
    (),
    BgvLevelError,
>)
    ensures
        matrix@.len() == 0 ==> r == Err::<(), BgvLevelError>(
            BgvLevelError::EmptySlotLinearTransformMatrix,
        ),
        matrix@.len() != 0 && matrix@.len() != degree ==> r == Err::<(), BgvLevelError>(
            BgvLevelError::SlotLinearTransformRowCountMismatch {
                expected: degree,
                actual: matrix@.len() as usize,
            },
        ),
        matrix@.len() != 0 && matrix@.len() == degree ==> (r is Ok <==> forall|i: int|
            0 <= i < matrix@.len() ==> (#[trigger] matrix@[i])@.len() == degree),
        r is Err && matrix@.len() == degree && degree != 0 ==> exists|row: int|
            0 <= row < matrix@.len() && (forall|i: int| 0 <= i < row ==> (#[trigger] matrix@[i])@.len() == degree)
                && r == Err::<(), BgvLevelError>(
                BgvLevelError::SlotLinearTransformColumnCountMismatch {
                    row: row as usize,
                    expected: degree,
                    actual: matrix@[row]@.len() as usize,
                },
            ),
{
    if matrix.len() == 0 {
        return Err(BgvLevelError::EmptySlotLinearTransformMatrix);
    }
    if matrix.len() != degree {
        return Err(
            BgvLevelError::SlotLinearTransformRowCountMismatch {
                expected: degree,
                actual: matrix.len(),
            },
        );
    }
    let mut row_idx: usize = 0;
    while row_idx < matrix.len()
        invariant
            matrix@.len() == degree,
            row_idx <= matrix@.len(),
            forall|i: int| 0 <= i < row_idx ==> (#[trigger] matrix@[i])@.len() == degree,
        decreases matrix@.len() - row_idx,
    {
        if matrix[row_idx].len() != degree {
            return Err(
                BgvLevelError::SlotLinearTransformColumnCountMismatch {
                    row: row_idx,
                    expected: degree,
                    actual: matrix[row_idx].len(),
                },
            );
        }
        row_idx += 1;
    }
    Ok(())
}

/// The smallest `c' >= c` with `c' · c' >= t` (or `c' >= t`).
pub open spec fn baby_count_from(t: int, c: int) -> int
    decreases t - c,
{
    if c >= t || c * c >= t {
        c
    } else {
        baby_count_from(t, c + 1)
    }
}

/// Default baby-step count for `term_count` diagonals: the ceiling of the
/// square root of `max(term_count, 1)`.
pub open spec fn spec_bsgs_default_baby_count(term_count: int) -> int {
    baby_count_from(if term_count <= 0 { 1 } else { term_count }, 1)
}

/// Smallest `c >= 1` with `c · c >= max(term_count, 1)`: the default number
/// of baby steps for a baby-step / giant-step transform.
pub fn bsgs_default_baby_count(term_count: usize) -> (r: usize)
    ensures
        r == spec_bsgs_default_baby_count(term_count as int),
        r >= 1,
        r * r >= (if term_count == 0 { 1 } else { term_count }),
        r == 1 || (r - 1) * (r - 1) < (if term_count == 0 { 1 } else { term_count }),
{
    let term_count = if term_count == 0 {
        1
    } else {
        term_count
    };
    let mut count: usize = 1;
    loop
        invariant
            count >= 1,
            term_count >= 1,
            count <= term_count,
            baby_count_from(term_count as int, count as int) == baby_count_from(term_count as int, 1),
            count == 1 || (count - 1) * (count - 1) < term_count,
        ensures
            baby_count_from(term_count as int, count as int) == baby_count_from(term_count as int, 1),
            count >= 1,
            count * count >= term_count,
            count == 1 || (count - 1) * (count - 1) < term_count,
        decreases term_count - count,
    {
        let sq = match count.checked_mul(count) {
            Some(s) => s,
            None => usize::MAX,
        };
        if sq >= term_count {
            proof {
                if count * count <= usize::MAX {
                } else {
                    assert(count * count >= term_count);
                }
            }
            break;
        }
        proof {
            assert(count * count < term_count);
            assert(count <= count * count) by (nonlinear_arith)
                requires
                    count >= 1,
            ;
        }
        count += 1;
    }
    count
}

// ---------------------------------------------------------------------------
// Slot rotations
// ---------------------------------------------------------------------------

/// Destination slots that one Galois automorphism moves into place for a
/// slot rotation.
#[derive(Clone, Debug)]
pub struct BgvSlotRotationAssignment {
    pub galois_element: u32,
    pub destination_slots: Vec<usize>,
}

/// `element` is an odd Galois element below `2N` that brings the source
/// slot `(d − shift) mod N` to destination `d`.
pub open spec fn moves_rotation_slot(slots: usize, shift: int, d: int, element: int) -> bool {
    &&& 1 <= element < 2 * slots
    &&& element % 2 == 1
    &&& source_slot(slots, element, d) == (d + slots - shift) % (slots as int)
}

/// `element` is the smallest Galois element that serves destination `d`.
pub open spec fn first_rotation_element(slots: usize, shift: int, d: int, element: int) -> bool {
    &&& moves_rotation_slot(slots, shift, d, element)
    &&& forall|e: int| 1 <= e < element ==> !moves_rotation_slot(slots, shift, d, e)
}

/// Some Galois element serves destination `d`.
pub open spec fn rotation_slot_served(slots: usize, shift: int, d: int) -> bool {
    exists|e: int| moves_rotation_slot(slots, shift, d, e)
}

/// Destination `d` appears in some group.
pub open spec fn destination_listed(groups: Seq<BgvSlotRotationAssignment>, d: int) -> bool {
    exists|g: int, j: int|
        0 <= g < groups.len() && 0 <= j < groups[g].destination_slots@.len()
            && #[trigger] groups[g].destination_slots@[j] == d
}

/// Some group is led by `element`.
spec fn element_grouped(groups: Seq<BgvSlotRotationAssignment>, element: u32) -> bool {
    exists|g: int| 0 <= g < groups.len() && (#[trigger] groups[g]).galois_element == element
}

/// `groups` partitions the destinations `0..N` by the smallest element that
/// serves them: distinct elements, each group's destinations increasing,
/// groups ordered by their first destination.
pub open spec fn are_rotation_groups(groups: Seq<BgvSlotRotationAssignment>, slots: usize, shift: int) -> bool {
    &&& forall|g: int|
        0 <= g < groups.len() ==> (#[trigger] groups[g]).destination_slots@.len() > 0
    &&& forall|g: int, j: int|
        0 <= g < groups.len() && 0 <= j < groups[g].destination_slots@.len() ==> {
            let d = (#[trigger] groups[g].destination_slots@[j]) as int;
            &&& d < slots
            &&& first_rotation_element(slots, shift, d, groups[g].galois_element as int)
        }
    &&& forall|g: int, j: int, k: int|
        0 <= g < groups.len() && 0 <= j < k < groups[g].destination_slots@.len()
            ==> #[trigger] groups[g].destination_slots@[j]
            < #[trigger] groups[g].destination_slots@[k]
    &&& forall|d: int| 0 <= d < slots ==> #[trigger] destination_listed(groups, d)
    &&& forall|g: int, h: int|
        0 <= g < h < groups.len() ==> (#[trigger] groups[g]).galois_element
            != (#[trigger] groups[h]).galois_element
    &&& forall|g: int, h: int|
        0 <= g < h < groups.len() ==> (#[trigger] groups[g]).destination_slots@[0]
            < (#[trigger] groups[h]).destination_slots@[0]
}

proof fn lemma_rotation_product_fits(slots: usize, element: int, d: int)
    requires
        0 < slots,
        0 <= d < slots,
        0 <= element < 2 * slots,
        (2 * slots) * (2 * slots) <= usize::MAX,
    ensures
        element * rev_bits((slots + d) as nat, usize_trailing_zeros(slots as nat) + 1)
            <= usize::MAX,
{
    let b = usize_trailing_zeros(slots as nat);
    lemma_rev_bits_bound((slots + d) as nat, b + 1);
    lemma_trailing_zeros_pow2(slots as nat);
    lemma_pow2_adds(b, 1);
    lemma2_to64();
    let rv = rev_bits((slots + d) as nat, b + 1);
    assert(rv < 2 * slots);
    assert(element * rv <= (2 * slots) * (2 * slots)) by (nonlinear_arith)
        requires
            0 <= element < 2 * slots,
            0 <= rv < 2 * slots,
    ;
}

/// Smallest odd Galois element serving destination `d`, if any.
fn first_rotation_element_for(slots: usize, shift: usize, d: usize) -> (r: Option<u32>)
    requires
        0 < slots,
        shift < slots,
        d < slots,
        2 * slots <= u32::MAX,
        (2 * slots) * (2 * slots) <= usize::MAX,
    ensures
        r is Some ==> first_rotation_element(slots, shift as int, d as int, r->Some_0 as int),
        r is None ==> !rotation_slot_served(slots, shift as int, d as int),
{
    let order = slots * 2;
    let source = (d + slots - shift) % slots;
    let mut e: usize = 1;
    while e < order
        invariant
            0 < slots,
            order == 2 * slots,
            shift < slots,
            d < slots,
            (2 * slots) * (2 * slots) <= usize::MAX,
            2 * slots <= u32::MAX,
            source == (d + slots - shift) % (slots as int),
            1 <= e <= order + 1,
            e % 2 == 1,
            forall|x: int| 1 <= x < e ==> !moves_rotation_slot(slots, shift as int, d as int, x),
        decreases order + 1 - e,
    {
        proof {
            lemma_rotation_product_fits(slots, e as int, d as int);
        }
        if automorphism_source_slot(slots, e, d) == source {
            return Some(e as u32);
        }
        proof {
            assert(!moves_rotation_slot(slots, shift as int, d as int, (e + 1) as int));
        }
        e = e + 2;
    }
    proof {
        assert forall|x: int| !moves_rotation_slot(slots, shift as int, d as int, x) by {
            if 1 <= x < 2 * slots {
                assert(x < e);
            }
        }
    }
    None
}

/// Destinations `d < n` whose first element is `element`, in increasing order.
pub open spec fn rotation_group_destinations(elements: Seq<u32>, element: u32, n: int) -> Seq<usize>
    decreases n,
{
    if n <= 0 {
        Seq::empty()
    } else {
        let prev = rotation_group_destinations(elements, element, n - 1);
        if elements[n - 1] == element {
            prev.push((n - 1) as usize)
        } else {
            prev
        }
    }
}

proof fn lemma_group_destinations(elements: Seq<u32>, element: u32, n: int)
    requires
        0 <= n <= elements.len(),
        n <= usize::MAX,
    ensures
        ({
            let g = rotation_group_destinations(elements, element, n);
            &&& forall|j: int| 0 <= j < g.len() ==> 0 <= (#[trigger] g[j]) < n && elements[g[j] as int] == element
            &&& forall|j: int, k: int| 0 <= j < k < g.len() ==> #[trigger] g[j] < #[trigger] g[k]
            &&& forall|d: int| 0 <= d < n && elements[d] == element ==> exists|j: int| 0 <= j < g.len() && #[trigger] g[j] == d
        }),
    decreases n,
{
    if n > 0 {
        lemma_group_destinations(elements, element, n - 1);
        let prev = rotation_group_destinations(elements, element, n - 1);
        let g = rotation_group_destinations(elements, element, n);
        if elements[n - 1] == element {
            assert(g == prev.push((n - 1) as usize));
            assert forall|d: int| 0 <= d < n && elements[d] == element implies exists|j: int| 0 <= j < g.len() && #[trigger] g[j] == d by {
                if d == n - 1 {
                    assert(g[prev.len() as int] == d);
                } else {
                    let j = choose|j: int| 0 <= j < prev.len() && #[trigger] prev[j] == d;
                    assert(g[j] == d);
                }
            }
        }
    }
}

/// The serving element of every destination slot for a rotation of the `N`
/// slots by `rotation`: the smallest odd element below `2N` that moves the
/// destination's source slot into it.  Empty for a zero shift; fails for
/// zero slots and when some destination has no serving element.
pub fn slot_rotation_serving_elements(degree: usize, rotation: i32) -> (r: Result<
    Vec<u32>,
    BgvLevelError,
>)
    requires
        degree <= i64::MAX,
        (2 * degree) * (2 * degree) <= usize::MAX,
    ensures
        degree == 0 ==> r == Err::<Vec<u32>, BgvLevelError>(
            BgvLevelError::SlotRotationUnsupported { rotation, slots: degree },
        ),
        degree > 0 && spec_normalized_rotation(rotation, degree) == 0 ==> r is Ok && r->Ok_0@.len()
            == 0,
        degree > 0 && spec_normalized_rotation(rotation, degree) != 0 ==> ({
            let shift = spec_normalized_rotation(rotation, degree);
            let ok = 2 * degree <= u32::MAX && forall|d: int|
                0 <= d < degree ==> rotation_slot_served(degree, shift, d);
            &&& ok ==> r is Ok && r->Ok_0@.len() == degree && forall|d: int|
                0 <= d < degree ==> first_rotation_element(degree, shift, d, #[trigger] r->Ok_0@[d] as int)
            &&& !ok ==> r == Err::<Vec<u32>, BgvLevelError>(
                BgvLevelError::SlotRotationUnsupported { rotation, slots: degree },
            )
        }),
{
    let slots = degree;
    let shift = normalize_slot_rotation(rotation, slots)?;
    if shift == 0 {
        return Ok(Vec::new());
    }
    if slots > 0x7fff_ffff {
        return Err(BgvLevelError::SlotRotationUnsupported { rotation, slots });
    }
    let ghost sh = shift as int;
    let mut elements: Vec<u32> = Vec::new();
    let mut d: usize = 0;
    while d < slots
        invariant
            0 < shift < slots,
            slots == degree,
            sh == shift,
            shift == spec_normalized_rotation(rotation, slots),
            2 * slots <= u32::MAX,
            (2 * slots) * (2 * slots) <= usize::MAX,
            d <= slots,
            elements@.len() == d,
            forall|k: int|
                0 <= k < d ==> first_rotation_element(slots, sh, k, #[trigger] elements@[k] as int),
            forall|k: int| 0 <= k < d ==> rotation_slot_served(slots, sh, k),
        decreases slots - d,
    {
        match first_rotation_element_for(slots, shift, d) {
            Some(e) => {
                elements.push(e);
            },
            None => {
                return Err(BgvLevelError::SlotRotationUnsupported { rotation, slots });
            },
        }
        d += 1;
    }
    Ok(elements)
}

/// Galois automorphisms that together rotate the `N` slots by `rotation`:
/// each destination slot is served by the smallest odd element below `2N`
/// that moves its source slot into it, and destinations are grouped by that
/// element.  A zero shift needs no automorphism.
#[verifier::rlimit(40)]
pub fn bgv_slot_rotation_assignments(degree: usize, rotation: i32) -> (r: Result<
    Vec<BgvSlotRotationAssignment>,
    BgvLevelError,
>)
    requires
        degree <= i64::MAX,
        (2 * degree) * (2 * degree) <= usize::MAX,
    ensures
        degree == 0 ==> r == Err::<Vec<BgvSlotRotationAssignment>, BgvLevelError>(
            BgvLevelError::SlotRotationUnsupported { rotation, slots: degree },
        ),
        degree > 0 && spec_normalized_rotation(rotation, degree) == 0 ==> r is Ok && r->Ok_0@.len()
            == 0,
        degree > 0 && spec_normalized_rotation(rotation, degree) != 0 ==> ({
            let shift = spec_normalized_rotation(rotation, degree);
            let ok = 2 * degree <= u32::MAX && forall|d: int|
                0 <= d < degree ==> rotation_slot_served(degree, shift, d);
            &&& ok ==> r is Ok && are_rotation_groups(r->Ok_0@, degree, shift)
            &&& !ok ==> r == Err::<Vec<BgvSlotRotationAssignment>, BgvLevelError>(
                BgvLevelError::SlotRotationUnsupported { rotation, slots: degree },
            )
        }),
{
    let slots = degree;
    let elements = match slot_rotation_serving_elements(degree, rotation) {
        Ok(v) => v,
        Err(e) => {
            return Err(e);
        },
    };
    if elements.len() == 0 {
        return Ok(Vec::new());
    }
    let ghost sh = spec_normalized_rotation(rotation, degree);
    // distinct elements in order of first appearance, each with its destinations
    let mut groups: Vec<BgvSlotRotationAssignment> = Vec::new();
    let mut k: usize = 0;
    while k < slots
        invariant
            0 < sh < slots,
            slots == degree,
            elements@.len() == slots,
            forall|q: int|
                0 <= q < slots ==> first_rotation_element(slots, sh, q, #[trigger] elements@[q] as int),
            k <= slots,
            forall|g: int|
                0 <= g < groups@.len() ==> (#[trigger] groups@[g]).destination_slots@
                    == rotation_group_destinations(elements@, groups@[g].galois_element, slots as int),
            forall|g: int|
                0 <= g < groups@.len() ==> exists|q: int|
                    0 <= q < k && elements@[q] == (#[trigger] groups@[g]).galois_element,
            forall|q: int| 0 <= q < k ==> element_grouped(groups@, #[trigger] elements@[q]),
            forall|g: int, h: int|
                0 <= g < h < groups@.len() ==> (#[trigger] groups@[g]).galois_element
                    != (#[trigger] groups@[h]).galois_element,
            forall|g: int, h: int|
                0 <= g < h < groups@.len() ==> (#[trigger] groups@[g]).destination_slots@[0]
                    < (#[trigger] groups@[h]).destination_slots@[0],
            forall|g: int| 0 <= g < groups@.len() ==> (#[trigger] groups@[g]).destination_slots@[0] < k,
        decreases slots - k,
    {
        let e = elements[k];
        let mut seen = false;
        let mut g: usize = 0;
        while g < groups.len()
            invariant
                0 <= g <= groups@.len(),
                seen <==> exists|h: int| 0 <= h < g && (#[trigger] groups@[h]).galois_element == e,
            decreases groups@.len() - g,
        {
            if groups[g].galois_element == e {
                seen = true;
            }
            g += 1;
        }
        let ghost old_groups = groups@;
        if !seen {
            let mut dests: Vec<usize> = Vec::new();
            let mut q: usize = 0;
            while q < slots
                invariant
                    elements@.len() == slots,
                    q <= slots,
                    dests@ == rotation_group_destinations(elements@, e, q as int),
                decreases slots - q,
            {
                if elements[q] == e {
                    dests.push(q);
                }
                q += 1;
            }
            proof {
                lemma_group_destinations(elements@, e, slots as int);
                // k is the first destination of the new group
                assert forall|q2: int| 0 <= q2 < k implies elements@[q2] != e by {
                    if elements@[q2] == e {
                        let h = choose|h: int|
                            0 <= h < groups@.len() && (#[trigger] groups@[h]).galois_element
                                == elements@[q2];
                    }
                }
                let j0 = choose|j: int| 0 <= j < dests@.len() && #[trigger] dests@[j] == k;
                assert(dests@[0] == k) by {
                    if j0 > 0 {
                        assert(dests@[0] < dests@[j0]);
                    }
                }
            }
            groups.push(BgvSlotRotationAssignment { galois_element: e, destination_slots: dests });
            proof {
                assert forall|q: int| 0 <= q < k + 1 implies element_grouped(
                    groups@,
                    #[trigger] elements@[q],
                ) by {
                    if q == k {
                        assert(groups@[old_groups.len() as int].galois_element == e);
                    } else {
                        let h = choose|h: int|
                            0 <= h < old_groups.len() && (#[trigger] old_groups[h]).galois_element
                                == elements@[q];
                        assert(groups@[h] == old_groups[h]);
                    }
                }
            }
        }
        k += 1;
    }
    proof {
        let gs = groups@;
        assert forall|g: int, j: int|
            0 <= g < gs.len() && 0 <= j < gs[g].destination_slots@.len() implies ({
                let d = (#[trigger] gs[g].destination_slots@[j]) as int;
                &&& d < slots
                &&& first_rotation_element(slots, sh, d, gs[g].galois_element as int)
            }) by {
            lemma_group_destinations(elements@, gs[g].galois_element, slots as int);
        }
        assert forall|g: int, j: int, kk: int|
            0 <= g < gs.len() && 0 <= j < kk < gs[g].destination_slots@.len()
                implies #[trigger] gs[g].destination_slots@[j]
            < #[trigger] gs[g].destination_slots@[kk] by {
            lemma_group_destinations(elements@, gs[g].galois_element, slots as int);
        }
        assert forall|d: int| 0 <= d < slots implies #[trigger] destination_listed(gs, d) by {
            let g = choose|g: int| 0 <= g < gs.len() && (#[trigger] gs[g]).galois_element == elements@[d];
            lemma_group_destinations(elements@, gs[g].galois_element, slots as int);
            let j = choose|j: int| 0 <= j < gs[g].destination_slots@.len() && #[trigger] gs[g].destination_slots@[j] == d;
        }
        assert forall|g: int| 0 <= g < gs.len() implies (#[trigger] gs[g]).destination_slots@.len() > 0 by {
            let q = choose|q: int| 0 <= q < slots && elements@[q] == (#[trigger] gs[g]).galois_element;
            lemma_group_destinations(elements@, gs[g].galois_element, slots as int);
        }
    }
    Ok(groups)
}

/// Every destination of rotation `rotation` over `degree` slots has a
/// serving element (a zero shift needs none).
pub open spec fn rotation_supported(degree: usize, rotation: i32) -> bool {
    let shift = spec_normalized_rotation(rotation, degree);
    &&& degree > 0
    &&& shift != 0 ==> 2 * degree <= u32::MAX && forall|d: int|
        0 <= d < degree ==> rotation_slot_served(degree, shift, d)
}

proof fn lemma_first_rotation_element_unique(slots: usize, shift: int, d: int, a: int, b: int)
    requires
        first_rotation_element(slots, shift, d, a),
        first_rotation_element(slots, shift, d, b),
    ensures
        a == b,
{
    if a < b {
        assert(!moves_rotation_slot(slots, shift, d, a));
    } else if b < a {
        assert(!moves_rotation_slot(slots, shift, d, b));
    }
}

/// The serving element of destination `d` (meaningful when there is one).
pub open spec fn serving_element(slots: usize, shift: int, d: int) -> int {
    choose|e: int| first_rotation_element(slots, shift, d, e)
}

/// `acc` after `push_unique_non_identity` of the serving elements of the
/// first `d` destinations.
pub open spec fn push_serving_elements(acc: Seq<u32>, slots: usize, shift: int, d: int) -> Seq<u32>
    decreases d,
{
    if d <= 0 {
        acc
    } else {
        push_unique_spec(
            push_serving_elements(acc, slots, shift, d - 1),
            serving_element(slots, shift, d - 1) as u32,
        )
    }
}

/// The distinct non-identity Galois elements that the first `i` rotations
/// need, in order of first use: destination by destination, rotation by
/// rotation.
pub open spec fn rotation_galois_elements(degree: usize, rotations: Seq<i32>, i: int) -> Seq<u32>
    decreases i,
{
    if i <= 0 {
        Seq::empty()
    } else {
        let acc = rotation_galois_elements(degree, rotations, i - 1);
        let shift = spec_normalized_rotation(rotations[i - 1], degree);
        if shift == 0 {
            acc
        } else {
            push_serving_elements(acc, degree, shift, degree as int)
        }
    }
}

/// The distinct non-identity Galois elements that the slot rotations by
/// each of `rotations` need, in order of first use.  Fails with the first
/// rotation that cannot be served.
pub fn bgv_slot_rotation_galois_elements(degree: usize, rotations: &Vec<i32>) -> (r: Result<
    Vec<u32>,
    BgvLevelError,
>)
    requires
        degree <= i64::MAX,
        (2 * degree) * (2 * degree) <= usize::MAX,
    ensures
        r is Ok <==> forall|i: int| 0 <= i < rotations@.len() ==> rotation_supported(degree, #[trigger] rotations@[i]),
        r is Err ==> exists|i: int|
            0 <= i < rotations@.len() && !rotation_supported(degree, #[trigger] rotations@[i])
                && (forall|j: int| 0 <= j < i ==> rotation_supported(degree, #[trigger] rotations@[j]))
                && r == Err::<Vec<u32>, BgvLevelError>(
                BgvLevelError::SlotRotationUnsupported { rotation: rotations@[i], slots: degree },
            ),
        r is Ok ==> r->Ok_0@ == rotation_galois_elements(degree, rotations@, rotations@.len() as int),
        r is Ok ==> no_duplicates(r->Ok_0@) && !r->Ok_0@.contains(1u32),
{
    let mut elements: Vec<u32> = Vec::new();
    let mut i: usize = 0;
    while i < rotations.len()
        invariant
            degree <= i64::MAX,
            (2 * degree) * (2 * degree) <= usize::MAX,
            i <= rotations@.len(),
            forall|j: int| 0 <= j < i ==> rotation_supported(degree, #[trigger] rotations@[j]),
            elements@ == rotation_galois_elements(degree, rotations@, i as int),
            no_duplicates(elements@),
            !elements@.contains(1u32),
        decreases rotations@.len() - i,
    {
        let rotation = rotations[i];
        let serving = match slot_rotation_serving_elements(degree, rotation) {
            Ok(v) => v,
            Err(e) => {
                return Err(e);
            },
        };
        let ghost shift = spec_normalized_rotation(rotation, degree);
        let ghost acc = elements@;
        let mut d: usize = 0;
        while d < serving.len()
            invariant
                degree > 0,
                shift == spec_normalized_rotation(rotation, degree),
                shift == 0 ==> serving@.len() == 0,
                shift != 0 ==> serving@.len() == degree,
                forall|k: int|
                    0 <= k < serving@.len() ==> first_rotation_element(
                        degree,
                        shift,
                        k,
                        #[trigger] serving@[k] as int,
                    ),
                d <= serving@.len(),
                elements@ == push_serving_elements(acc, degree, shift, d as int),
                no_duplicates(elements@),
                !elements@.contains(1u32),
            decreases serving@.len() - d,
        {
            let e = serving[d];
            proof {
                let x = serving_element(degree, shift, d as int);
                assert(first_rotation_element(degree, shift, d as int, e as int));
                lemma_first_rotation_element_unique(degree, shift, d as int, e as int, x);
            }
            let ghost before = elements@;
            push_unique_non_identity(&mut elements, e);
            proof {
                if e != 1 && !before.contains(e) {
                    assert forall|p: int, q: int| 0 <= p < q < elements@.len() implies elements@[p]
                        != elements@[q] by {
                        if q == before.len() {
                            assert(before.contains(elements@[p]));
                        }
                    }
                    if elements@.contains(1u32) {
                        let k = choose|k: int| 0 <= k < elements@.len() && elements@[k] == 1u32;
                        if k < before.len() {
                            assert(before[k] == 1u32);
                        }
                    }
                }
            }
            d += 1;
        }
        proof {
            if shift == 0 {
                assert(elements@ == acc);
            }
        }
        i += 1;
    }
    Ok(elements)
}

// ---------------------------------------------------------------------------
// Baby-step / giant-step diagonal assignments
// ---------------------------------------------------------------------------

/// Baby/giant split of one diagonal `k = giant · baby` of a slot linear
/// transform.
#[derive(Clone, Copy, Debug, PartialEq, Eq)]
pub struct BgvDiagonalBsgsAssignment {
    pub diagonal_index: usize,
    pub baby: u32,
    pub giant: u32,
    pub giant_inverse: u32,
}

/// Greedy scan behind the baby-step list: from position `i` on, the
/// canonical form of each of `elements` is appended to `babies` unless
/// already present, and the scan stops as soon as `babies` holds `target`
/// entries (when a target is given).  The first element without a
/// canonical form ends the scan with its error.
pub open spec fn bsgs_babies_scan(
    degree: usize,
    elements: Seq<u32>,
    i: int,
    babies: Seq<u32>,
    target: Option<int>,
) -> Result<Seq<u32>, BgvLevelError>
    decreases elements.len() - i,
{
    if i < 0 || i >= elements.len() {
        Ok(babies)
    } else {
        match spec_canonical_galois_element(degree, elements[i]) {
            Err(e) => Err(e),
            Ok(c) => {
                let next = if babies.contains(c) {
                    babies
                } else {
                    babies.push(c)
                };
                let done = match target {
                    Some(t) => next.len() >= t,
                    None => false,
                };
                if done {
                    Ok(next)
                } else {
                    bsgs_babies_scan(degree, elements, i + 1, next, target)
                }
            },
        }
    }
}

/// The baby steps: the identity, then the canonical forms of the explicit
/// baby elements, or, when none are given, of the leading diagonal
/// elements until the default count is reached.
pub open spec fn spec_bsgs_babies(degree: usize, diagonals: Seq<u32>, babies: Seq<u32>) -> Result<
    Seq<u32>,
    BgvLevelError,
> {
    if babies.len() == 0 {
        bsgs_babies_scan(
            degree,
            diagonals,
            0,
            seq![1u32],
            Some(spec_bsgs_default_baby_count(diagonals.len() as int)),
        )
    } else {
        bsgs_babies_scan(degree, babies, 0, seq![1u32], None)
    }
}

/// Every entry is a unit in `[1, 2N)`.
pub open spec fn all_units(degree: usize, elements: Seq<u32>) -> bool {
    forall|i: int|
        0 <= i < elements.len() ==> 1 <= #[trigger] elements[i] < galois_modulus(degree)
            && has_mod_inverse(elements[i] as int, galois_modulus(degree))
}

proof fn lemma_canonical_is_unit(degree: usize, element: u32)
    requires
        0 < degree,
        2 * degree <= u32::MAX,
        spec_canonical_galois_element(degree, element) is Ok,
    ensures
        ({
            let c = spec_canonical_galois_element(degree, element)->Ok_0;
            &&& 1 <= c < galois_modulus(degree)
            &&& has_mod_inverse(c as int, galois_modulus(degree))
            &&& spec_canonical_galois_element(degree, c) == Ok::<u32, BgvLevelError>(c)
        }),
{
    let m = galois_modulus(degree);
    if element == 0 {
        vstd::arithmetic::div_mod::lemma_small_mod(1, m as nat);
        assert(is_mod_inverse(1, 1, m));
    } else {
        vstd::arithmetic::div_mod::lemma_mod_bound(element as int, m);
        let c = (element as int) % m;
        vstd::arithmetic::div_mod::lemma_small_mod(c as nat, m as nat);
    }
}

proof fn lemma_babies_scan_units(
    degree: usize,
    elements: Seq<u32>,
    i: int,
    babies: Seq<u32>,
    target: Option<int>,
)
    requires
        0 < degree,
        2 * degree <= u32::MAX,
        all_units(degree, babies),
    ensures
        bsgs_babies_scan(degree, elements, i, babies, target) is Ok ==> all_units(
            degree,
            bsgs_babies_scan(degree, elements, i, babies, target)->Ok_0,
        ),
    decreases elements.len() - i,
{
    if 0 <= i < elements.len() {
        if spec_canonical_galois_element(degree, elements[i]) is Ok {
            let c = spec_canonical_galois_element(degree, elements[i])->Ok_0;
            lemma_canonical_is_unit(degree, elements[i]);
            let next = if babies.contains(c) {
                babies
            } else {
                babies.push(c)
            };
            assert(all_units(degree, next));
            lemma_babies_scan_units(degree, elements, i + 1, next, target);
        }
    }
}

/// Baby-step elements for a baby-step / giant-step transform: the
/// identity first, then the canonical forms of `baby_galois_elements`
/// without repeats, or, when that list is empty, those of the leading
/// diagonal elements until the default baby count is reached.
pub fn normalized_bsgs_babies(
    degree: usize,
    diagonal_galois_elements: &Vec<u32>,
    baby_galois_elements: &Vec<u32>,
) -> (r: Result<Vec<u32>, BgvLevelError>)
    requires
        0 < degree,
        2 * degree <= u32::MAX,
    ensures
        match r {
            Ok(v) => spec_bsgs_babies(degree, diagonal_galois_elements@, baby_galois_elements@) == Ok::<
                Seq<u32>,
                BgvLevelError,
            >(v@),
            Err(e) => spec_bsgs_babies(degree, diagonal_galois_elements@, baby_galois_elements@)
                == Err::<Seq<u32>, BgvLevelError>(e),
        },
{
    let mut babies: Vec<u32> = Vec::new();
    babies.push(1);
    let empty = baby_galois_elements.len() == 0;
    let source = if empty {
        diagonal_galois_elements
    } else {
        baby_galois_elements
    };
    let target: Option<usize> = if empty {
        Some(bsgs_default_baby_count(diagonal_galois_elements.len()))
    } else {
        None
    };
    let ghost t: Option<int> = match target {
        Some(x) => Some(x as int),
        None => None,
    };
    proof {
        assert(babies@ == seq![1u32]);
    }
    let mut i: usize = 0;
    while i < source.len()
        invariant
            0 < degree,
            2 * degree <= u32::MAX,
            i <= source@.len(),
            t == (match target {
                Some(x) => Some(x as int),
                None => None,
            }),
            spec_bsgs_babies(degree, diagonal_galois_elements@, baby_galois_elements@)
                == bsgs_babies_scan(degree, source@, i as int, babies@, t),
        decreases source@.len() - i,
    {
        let c = match bgv_canonical_galois_element_for_params(degree, source[i]) {
            Ok(c) => c,
            Err(e) => {
                return Err(e);
            },
        };
        if !vec_contains_u32(&babies, c) {
            babies.push(c);
        }
        match target {
            Some(tt) => {
                if babies.len() >= tt {
                    return Ok(babies);
                }
            },
            None => {},
        }
        i += 1;
    }
    Ok(babies)
}

/// The inverse of a unit modulo `2N`.
pub open spec fn galois_inverse(degree: usize, element: int) -> int {
    choose|x: int| is_mod_inverse(element, x, galois_modulus(degree))
}

proof fn lemma_galois_inverse(degree: usize, element: int, x: int)
    requires
        is_mod_inverse(element, x, galois_modulus(degree)),
    ensures
        galois_inverse(degree, element) == x,
{
    let y = galois_inverse(degree, element);
    assert(is_mod_inverse(element, y, galois_modulus(degree)));
    crate::modarith::lemma_mod_inverse_unique(element, x, y, galois_modulus(degree));
}

/// How many of the products `c · b⁻¹ mod m`, `c` in `canonicals`, `b⁻¹` in
/// the first `n` of `inverses`, equal `giant`.
pub open spec fn giant_row_count(m: int, c: int, inverses: Seq<u32>, n: int, giant: int) -> nat
    decreases n,
{
    if n <= 0 {
        0
    } else {
        giant_row_count(m, c, inverses, n - 1, giant) + if (c * inverses[n - 1]) % m == giant {
            1nat
        } else {
            0nat
        }
    }
}

/// How many of the products `c · b⁻¹ mod m`, over the first `n` of
/// `canonicals` and all of `inverses`, equal `giant`: the score of a giant
/// step.
pub open spec fn giant_pair_count(
    m: int,
    canonicals: Seq<u32>,
    inverses: Seq<u32>,
    n: int,
    giant: int,
) -> nat
    decreases n,
{
    if n <= 0 {
        0
    } else {
        giant_pair_count(m, canonicals, inverses, n - 1, giant) + giant_row_count(
            m,
            canonicals[n - 1] as int,
            inverses,
            inverses.len() as int,
            giant,
        )
    }
}

/// Best `(baby, giant, score)` for canonical diagonal element `c` after
/// looking at the first `k` babies: a higher score wins; on a tie a giant
/// of 1 wins, and otherwise the smaller baby, unless the standing giant is
/// already 1.
pub open spec fn bsgs_choice(
    m: int,
    c: u32,
    babies: Seq<u32>,
    inverses: Seq<u32>,
    canonicals: Seq<u32>,
    k: int,
) -> (u32, u32, nat)
    decreases k,
{
    if k <= 0 {
        (1u32, c, 0nat)
    } else {
        let prev = bsgs_choice(m, c, babies, inverses, canonicals, k - 1);
        let giant = ((c * inverses[k - 1]) % m) as u32;
        let score = giant_pair_count(m, canonicals, inverses, canonicals.len() as int, giant as int);
        if score > prev.2 || (score == prev.2 && (giant == 1 || (prev.1 != 1 && babies[k - 1]
            < prev.0))) {
            (babies[k - 1], giant, score)
        } else {
            prev
        }
    }
}

/// The giant step that baby `j` leaves for canonical diagonal element `c`.
pub open spec fn bsgs_giant(m: int, c: u32, inverses: Seq<u32>, j: int) -> u32 {
    ((c * inverses[j]) % m) as u32
}

/// How many diagonal elements that giant step serves.
pub open spec fn bsgs_score(m: int, c: u32, inverses: Seq<u32>, canonicals: Seq<u32>, j: int) -> nat {
    giant_pair_count(m, canonicals, inverses, canonicals.len() as int, bsgs_giant(m, c, inverses, j) as int)
}

/// The baby-step / giant-step choice maximises the score: no baby among
/// the first `k` scores more, and the choice is either the default
/// `(1, c, 0)` or the split of one of those babies with its own score.
pub proof fn lemma_bsgs_choice_is_best(
    m: int,
    c: u32,
    babies: Seq<u32>,
    inverses: Seq<u32>,
    canonicals: Seq<u32>,
    k: int,
)
    ensures
        forall|j: int|
            0 <= j < k ==> #[trigger] bsgs_score(m, c, inverses, canonicals, j) <= bsgs_choice(
                m,
                c,
                babies,
                inverses,
                canonicals,
                k,
            ).2,
        bsgs_choice(m, c, babies, inverses, canonicals, k) == (1u32, c, 0nat) || exists|j: int|
            0 <= j < k && bsgs_choice(m, c, babies, inverses, canonicals, k) == (
                babies[j],
                bsgs_giant(m, c, inverses, j),
                #[trigger] bsgs_score(m, c, inverses, canonicals, j),
            ),
    decreases k,
{
    if k > 0 {
        lemma_bsgs_choice_is_best(m, c, babies, inverses, canonicals, k - 1);
        let prev = bsgs_choice(m, c, babies, inverses, canonicals, k - 1);
        let cur = bsgs_choice(m, c, babies, inverses, canonicals, k);
        assert(bsgs_score(m, c, inverses, canonicals, k - 1) <= cur.2);
        if cur == prev && prev != (1u32, c, 0nat) {
            let j = choose|j: int|
                0 <= j < k - 1 && prev == (
                    babies[j],
                    bsgs_giant(m, c, inverses, j),
                    #[trigger] bsgs_score(m, c, inverses, canonicals, j),
                );
            assert(0 <= j < k && cur == (
                babies[j],
                bsgs_giant(m, c, inverses, j),
                bsgs_score(m, c, inverses, canonicals, j),
            ));
        }
    }
}

/// Position of the first element without a canonical form, from `i` on.
pub open spec fn first_invalid_galois_element(degree: usize, elements: Seq<u32>, i: int) -> Option<
    BgvLevelError,
>
    decreases elements.len() - i,
{
    if i < 0 || i >= elements.len() {
        None
    } else {
        match spec_canonical_galois_element(degree, elements[i]) {
            Err(e) => Some(e),
            Ok(_) => first_invalid_galois_element(degree, elements, i + 1),
        }
    }
}

/// The first invalid element from `i` is the error of the first element at
/// or after `i` with no canonical form, and there is none exactly when every
/// element from `i` on has one.
pub proof fn lemma_first_invalid_galois_element_is_first(degree: usize, elements: Seq<u32>, i: int)
    requires
        0 <= i,
    ensures
        first_invalid_galois_element(degree, elements, i) is None <==> forall|j: int|
            i <= j < elements.len() ==> (#[trigger] spec_canonical_galois_element(degree, elements[j])) is Ok,
        first_invalid_galois_element(degree, elements, i) is Some ==> exists|j: int|
            i <= j < elements.len() && (#[trigger] spec_canonical_galois_element(degree, elements[j]))
                == Err::<u32, BgvLevelError>(first_invalid_galois_element(degree, elements, i)->Some_0)
                && forall|k: int|
                i <= k < j ==> (#[trigger] spec_canonical_galois_element(degree, elements[k])) is Ok,
    decreases elements.len() - i,
{
    if i < elements.len() {
        lemma_first_invalid_galois_element_is_first(degree, elements, i + 1);
        if spec_canonical_galois_element(degree, elements[i]) is Ok {
            if first_invalid_galois_element(degree, elements, i) is Some {
                let j = choose|j: int|
                    i + 1 <= j < elements.len() && (#[trigger] spec_canonical_galois_element(
                        degree,
                        elements[j],
                    )) == Err::<u32, BgvLevelError>(
                        first_invalid_galois_element(degree, elements, i + 1)->Some_0,
                    ) && forall|k: int|
                        i + 1 <= k < j ==> (#[trigger] spec_canonical_galois_element(degree, elements[k])) is Ok;
                assert(i <= j);
            }
        }
    }
}

/// Canonical forms of `elements` (meaningful when all exist).
pub open spec fn spec_canonicals(degree: usize, elements: Seq<u32>) -> Seq<u32> {
    Seq::new(elements.len(), |i: int| spec_canonical_galois_element(degree, elements[i])->Ok_0)
}

/// Inverses of `babies` modulo `2N`.
pub open spec fn spec_inverses(degree: usize, babies: Seq<u32>) -> Seq<u32> {
    Seq::new(babies.len(), |j: int| galois_inverse(degree, babies[j] as int) as u32)
}

/// `assignments` splits each diagonal element as the baby-step /
/// giant-step choice rule picks.
pub open spec fn are_bsgs_assignments(
    degree: usize,
    diagonals: Seq<u32>,
    babies: Seq<u32>,
    assignments: Seq<BgvDiagonalBsgsAssignment>,
) -> bool {
    let m = galois_modulus(degree);
    let cs = spec_canonicals(degree, diagonals);
    let invs = spec_inverses(degree, babies);
    &&& assignments.len() == diagonals.len()
    &&& forall|i: int|
        0 <= i < assignments.len() ==> {
            let ch = bsgs_choice(m, cs[i], babies, invs, cs, babies.len() as int);
            &&& (#[trigger] assignments[i]).diagonal_index == i
            &&& assignments[i].baby == ch.0
            &&& assignments[i].giant == ch.1
            &&& assignments[i].giant_inverse == galois_inverse(degree, ch.1 as int)
        }
}

proof fn lemma_unit_product(a: int, b: int, m: int)
    requires
        m > 1,
        has_mod_inverse(a, m),
        has_mod_inverse(b, m),
    ensures
        has_mod_inverse((a * b) % m, m),
        1 <= (a * b) % m < m,
{
    let x = choose|x: int| is_mod_inverse(a, x, m);
    let y = choose|y: int| is_mod_inverse(b, y, m);
    let p = (a * b) % m;
    let w = (x * y) % m;
    vstd::arithmetic::div_mod::lemma_mul_mod_noop_general(a * b, x * y, m);
    assert((a * b) * (x * y) == (a * x) * (b * y)) by (nonlinear_arith);
    vstd::arithmetic::div_mod::lemma_mul_mod_noop_general(a * x, b * y, m);
    vstd::arithmetic::div_mod::lemma_small_mod(1, m as nat);
    assert((p * w) % m == 1);
    vstd::arithmetic::div_mod::lemma_mod_bound(x * y, m);
    vstd::arithmetic::div_mod::lemma_mod_bound(a * b, m);
    assert(is_mod_inverse(p, w, m));
    if p == 0 {
        assert(p * w == 0) by (nonlinear_arith)
            requires
                p == 0,
        ;
        vstd::arithmetic::div_mod::lemma_small_mod(0, m as nat);
    }
}

proof fn lemma_unit_is_canonical(degree: usize, u: u32)
    requires
        0 < degree,
        1 <= u < galois_modulus(degree),
        has_mod_inverse(u as int, galois_modulus(degree)),
    ensures
        spec_canonical_galois_element(degree, u) == Ok::<u32, BgvLevelError>(u),
{
    vstd::arithmetic::div_mod::lemma_small_mod(u as nat, galois_modulus(degree) as nat);
}

proof fn lemma_row_count_bound(m: int, c: int, inverses: Seq<u32>, n: int, giant: int)
    requires
        0 <= n,
    ensures
        giant_row_count(m, c, inverses, n, giant) <= n,
    decreases n,
{
    if n > 0 {
        lemma_row_count_bound(m, c, inverses, n - 1, giant);
    }
}

proof fn lemma_pair_count_bound(m: int, canonicals: Seq<u32>, inverses: Seq<u32>, n: int, giant: int)
    requires
        0 <= n,
    ensures
        giant_pair_count(m, canonicals, inverses, n, giant) <= n * inverses.len(),
    decreases n,
{
    if n > 0 {
        lemma_pair_count_bound(m, canonicals, inverses, n - 1, giant);
        lemma_row_count_bound(m, canonicals[n - 1] as int, inverses, inverses.len() as int, giant);
        assert((n - 1) * inverses.len() + inverses.len() == n * inverses.len()) by (nonlinear_arith);
    }
}

proof fn lemma_babies_scan_len(
    degree: usize,
    elements: Seq<u32>,
    i: int,
    babies: Seq<u32>,
    target: Option<int>,
)
    requires
        0 <= i <= elements.len(),
    ensures
        bsgs_babies_scan(degree, elements, i, babies, target) is Ok ==> bsgs_babies_scan(
            degree,
            elements,
            i,
            babies,
            target,
        )->Ok_0.len() <= babies.len() + elements.len() - i,
    decreases elements.len() - i,
{
    if i < elements.len() {
        if spec_canonical_galois_element(degree, elements[i]) is Ok {
            let c = spec_canonical_galois_element(degree, elements[i])->Ok_0;
            let next = if babies.contains(c) {
                babies
            } else {
                babies.push(c)
            };
            lemma_babies_scan_len(degree, elements, i + 1, next, target);
        }
    }
}

/// Splits each diagonal element `k` of a slot linear transform as
/// `k = giant · baby` (mod `2N`) over the baby steps of
/// `normalized_bsgs_babies`: each giant's score counts the
/// (diagonal, baby) pairs that share it, and each diagonal takes the
/// baby with the best-scoring giant (ties: a giant of 1 first, then the
/// smaller baby).  Fails with the first Galois element that has no
/// canonical form.
#[verifier::rlimit(60)]
pub fn bgv_diagonal_bsgs_assignments(
    degree: usize,
    diagonal_galois_elements: &Vec<u32>,
    baby_galois_elements: &Vec<u32>,
) -> (r: Result<Vec<BgvDiagonalBsgsAssignment>, BgvLevelError>)
    requires
        0 < degree,
        2 * degree <= u32::MAX,
        diagonal_galois_elements@.len() * (diagonal_galois_elements@.len()
            + baby_galois_elements@.len() + 1) <= usize::MAX,
    ensures
        match spec_bsgs_babies(degree, diagonal_galois_elements@, baby_galois_elements@) {
            Err(e) => r == Err::<Vec<BgvDiagonalBsgsAssignment>, BgvLevelError>(e),
            Ok(babies) => match first_invalid_galois_element(degree, diagonal_galois_elements@, 0) {
                Some(e) => r == Err::<Vec<BgvDiagonalBsgsAssignment>, BgvLevelError>(e),
                None => r is Ok && are_bsgs_assignments(
                    degree,
                    diagonal_galois_elements@,
                    babies,
                    r->Ok_0@,
                ),
            },
        },
{
    let ghost m = galois_modulus(degree);
    let babies = match normalized_bsgs_babies(degree, diagonal_galois_elements, baby_galois_elements) {
        Ok(b) => b,
        Err(e) => {
            return Err(e);
        },
    };
    proof {
        assert(all_units(degree, seq![1u32])) by {
            vstd::arithmetic::div_mod::lemma_small_mod(1, m as nat);
            assert(is_mod_inverse(1, 1, m));
        }
        if baby_galois_elements@.len() == 0 {
            lemma_babies_scan_units(
                degree,
                diagonal_galois_elements@,
                0,
                seq![1u32],
                Some(spec_bsgs_default_baby_count(diagonal_galois_elements@.len() as int)),
            );
            lemma_babies_scan_len(
                degree,
                diagonal_galois_elements@,
                0,
                seq![1u32],
                Some(spec_bsgs_default_baby_count(diagonal_galois_elements@.len() as int)),
            );
        } else {
            lemma_babies_scan_units(degree, baby_galois_elements@, 0, seq![1u32], None);
            lemma_babies_scan_len(degree, baby_galois_elements@, 0, seq![1u32], None);
        }
    }
    let ghost invs = spec_inverses(degree, babies@);
    // inverses of the baby steps
    let mut inverses: Vec<u32> = Vec::new();
    let mut j: usize = 0;
    while j < babies.len()
        invariant
            0 < degree,
            2 * degree <= u32::MAX,
            m == galois_modulus(degree),
            all_units(degree, babies@),
            invs == spec_inverses(degree, babies@),
            j <= babies@.len(),
            inverses@.len() == j,
            forall|k: int| 0 <= k < j ==> #[trigger] inverses@[k] == invs[k],
            forall|k: int|
                0 <= k < j ==> is_mod_inverse(babies@[k] as int, #[trigger] inverses@[k] as int, m),
        decreases babies@.len() - j,
    {
        proof {
            lemma_unit_is_canonical(degree, babies@[j as int]);
        }
        let inv = match bgv_inverse_galois_element(degree, babies[j]) {
            Ok(x) => x,
            Err(e) => {
                return Err(e);
            },
        };
        proof {
            lemma_galois_inverse(degree, babies@[j as int] as int, inv as int);
        }
        inverses.push(inv);
        j += 1;
    }
    proof {
        assert(inverses@ == invs);
    }
    // canonical forms of the diagonal elements
    let ghost cs = spec_canonicals(degree, diagonal_galois_elements@);
    let mut canon: Vec<u32> = Vec::new();
    let mut i: usize = 0;
    while i < diagonal_galois_elements.len()
        invariant
            0 < degree,
            2 * degree <= u32::MAX,
            m == galois_modulus(degree),
            cs == spec_canonicals(degree, diagonal_galois_elements@),
            spec_bsgs_babies(degree, diagonal_galois_elements@, baby_galois_elements@) == Ok::<
                Seq<u32>,
                BgvLevelError,
            >(babies@),
            i <= diagonal_galois_elements@.len(),
            canon@.len() == i,
            forall|k: int| 0 <= k < i ==> #[trigger] canon@[k] == cs[k],
            forall|k: int|
                0 <= k < i ==> spec_canonical_galois_element(
                    degree,
                    #[trigger] diagonal_galois_elements@[k],
                ) is Ok,
            first_invalid_galois_element(degree, diagonal_galois_elements@, 0)
                == first_invalid_galois_element(degree, diagonal_galois_elements@, i as int),
        decreases diagonal_galois_elements@.len() - i,
    {
        let c = match bgv_canonical_galois_element_for_params(degree, diagonal_galois_elements[i]) {
            Ok(c) => c,
            Err(e) => {
                return Err(e);
            },
        };
        canon.push(c);
        i += 1;
    }
    proof {
        assert(canon@ == cs);
        assert forall|k: int| 0 <= k < cs.len() implies 1 <= #[trigger] cs[k] < m && has_mod_inverse(
            cs[k] as int,
            m,
        ) by {
            lemma_canonical_is_unit(degree, diagonal_galois_elements@[k]);
        }
    }
    let ghost n = cs.len() as int;
    proof {
        let dl = diagonal_galois_elements@.len() as int;
        let bl = baby_galois_elements@.len() as int;
        assert(invs.len() <= dl + bl + 1);
        assert(n * (invs.len() as int) <= dl * (dl + bl + 1)) by (nonlinear_arith)
            requires
                n == dl,
                0 <= invs.len() <= dl + bl + 1,
                0 <= dl,
        ;
    }
    // scores of the giant steps
    let mut scores: HashMap<u32, usize> = HashMap::new();
    let mut a: usize = 0;
    while a < canon.len()
        invariant
            0 < degree,
            2 * degree <= u32::MAX,
            m == galois_modulus(degree),
            canon@ == cs,
            inverses@ == invs,
            n == cs.len(),
            n * (invs.len() as int) <= usize::MAX,
            a <= n,
            forall|g: u32|
                #[trigger] scores@.contains_key(g) ==> scores@[g] == giant_pair_count(
                    m,
                    cs,
                    invs,
                    a as int,
                    g as int,
                ),
            forall|g: u32|
                !(#[trigger] scores@.contains_key(g)) ==> giant_pair_count(m, cs, invs, a as int, g as int)
                    == 0,
        decreases n - a,
    {
        let mut b: usize = 0;
        while b < inverses.len()
            invariant
                0 < degree,
                2 * degree <= u32::MAX,
                m == galois_modulus(degree),
                canon@ == cs,
                inverses@ == invs,
                n == cs.len(),
                n * (invs.len() as int) <= usize::MAX,
                a < n,
                b <= invs.len(),
                forall|g: u32|
                    #[trigger] scores@.contains_key(g) ==> scores@[g] == giant_pair_count(
                        m,
                        cs,
                        invs,
                        a as int,
                        g as int,
                    ) + giant_row_count(m, cs[a as int] as int, invs, b as int, g as int),
                forall|g: u32|
                    !(#[trigger] scores@.contains_key(g)) ==> giant_pair_count(
                        m,
                        cs,
                        invs,
                        a as int,
                        g as int,
                    ) + giant_row_count(m, cs[a as int] as int, invs, b as int, g as int) == 0,
            decreases invs.len() - b,
        {
            let giant = bgv_multiply_galois_elements(degree, canon[a], inverses[b]);
            let current: usize = match scores.get(&giant) {
                Some(v) => *v,
                None => 0,
            };
            proof {
                lemma_pair_count_bound(m, cs, invs, a as int, giant as int);
                lemma_row_count_bound(m, cs[a as int] as int, invs, b as int, giant as int);
                assert(a * invs.len() + b < n * invs.len()) by (nonlinear_arith)
                    requires
                        a < n,
                        b < invs.len(),
                ;
            }
            scores.insert(giant, current + 1);
            b += 1;
        }
        a += 1;
    }
    // pick the baby for each diagonal
    let mut out: Vec<BgvDiagonalBsgsAssignment> = Vec::new();
    let mut d: usize = 0;
    while d < canon.len()
        invariant
            0 < degree,
            2 * degree <= u32::MAX,
            m == galois_modulus(degree),
            canon@ == cs,
            inverses@ == invs,
            babies@.len() == invs.len(),
            all_units(degree, babies@),
            forall|k: int| 0 <= k < cs.len() ==> 1 <= #[trigger] cs[k] < m && has_mod_inverse(
                cs[k] as int,
                m,
            ),
            forall|k: int|
                0 <= k < invs.len() ==> is_mod_inverse(babies@[k] as int, #[trigger] invs[k] as int, m),
            n == cs.len(),
            forall|g: u32|
                #[trigger] scores@.contains_key(g) ==> scores@[g] == giant_pair_count(
                    m,
                    cs,
                    invs,
                    n,
                    g as int,
                ),
            forall|g: u32|
                !(#[trigger] scores@.contains_key(g)) ==> giant_pair_count(m, cs, invs, n, g as int)
                    == 0,
            d <= n,
            out@.len() == d,
            forall|i: int|
                0 <= i < d ==> {
                    let ch = bsgs_choice(m, cs[i], babies@, invs, cs, babies@.len() as int);
                    &&& (#[trigger] out@[i]).diagonal_index == i
                    &&& out@[i].baby == ch.0
                    &&& out@[i].giant == ch.1
                    &&& out@[i].giant_inverse == galois_inverse(degree, ch.1 as int)
                },
        decreases n - d,
    {
        let c = canon[d];
        let mut best_baby: u32 = 1;
        let mut best_giant: u32 = c;
        let mut best_score: usize = 0;
        let mut b: usize = 0;
        while b < babies.len()
            invariant
                0 < degree,
                2 * degree <= u32::MAX,
                m == galois_modulus(degree),
                canon@ == cs,
                inverses@ == invs,
                babies@.len() == invs.len(),
                d < n,
                n == cs.len(),
                c == cs[d as int],
                all_units(degree, babies@),
                1 <= c < m,
                has_mod_inverse(c as int, m),
                forall|k: int|
                    0 <= k < invs.len() ==> is_mod_inverse(babies@[k] as int, #[trigger] invs[k] as int, m),
                forall|g: u32|
                    #[trigger] scores@.contains_key(g) ==> scores@[g] == giant_pair_count(
                        m,
                        cs,
                        invs,
                        n,
                        g as int,
                    ),
                forall|g: u32|
                    !(#[trigger] scores@.contains_key(g)) ==> giant_pair_count(m, cs, invs, n, g as int)
                        == 0,
                b <= babies@.len(),
                (best_baby, best_giant, best_score as nat) == bsgs_choice(
                    m,
                    c,
                    babies@,
                    invs,
                    cs,
                    b as int,
                ),
                1 <= best_giant < m,
                has_mod_inverse(best_giant as int, m),
            decreases babies@.len() - b,
        {
            let giant = bgv_multiply_galois_elements(degree, c, inverses[b]);
            let score: usize = match scores.get(&giant) {
                Some(v) => *v,
                None => 0,
            };
            proof {
                let k = b as int;
                assert(has_mod_inverse(invs[k] as int, m)) by {
                    assert(1 <= babies@[k] < m);
                    vstd::arithmetic::mul::lemma_mul_is_commutative(babies@[k] as int, invs[k] as int);
                    assert(is_mod_inverse(invs[k] as int, babies@[k] as int, m));
                }
                lemma_unit_product(c as int, invs[k] as int, m);
            }
            if score > best_score || (score == best_score && (giant == 1 || (best_giant != 1
                && babies[b] < best_baby))) {
                best_baby = babies[b];
                best_giant = giant;
                best_score = score;
            }
            b += 1;
        }
        proof {
            lemma_unit_is_canonical(degree, best_giant);
        }
        let giant_inverse = match bgv_inverse_galois_element(degree, best_giant) {
            Ok(x) => x,
            Err(e) => {
                return Err(e);
            },
        };
        proof {
            lemma_galois_inverse(degree, best_giant as int, giant_inverse as int);
        }
        out.push(
            BgvDiagonalBsgsAssignment { diagonal_index: d, baby: best_baby, giant: best_giant, giant_inverse },
        );
        d += 1;
    }
    Ok(out)
}

proof fn lemma_bsgs_choice_recomposes(
    m: int,
    c: u32,
    babies: Seq<u32>,
    invs: Seq<u32>,
    cs: Seq<u32>,
    k: int,
)
    requires
        1 < m <= u32::MAX,
        1 <= c < m,
        has_mod_inverse(c as int, m),
        babies.len() == invs.len(),
        forall|j: int| 0 <= j < babies.len() ==> is_mod_inverse(babies[j] as int, #[trigger] invs[j] as int, m),
        forall|j: int| 0 <= j < babies.len() ==> 1 <= #[trigger] babies[j] < m,
        0 <= k <= babies.len(),
    ensures
        ({
            let ch = bsgs_choice(m, c, babies, invs, cs, k);
            &&& (ch.0 * ch.1) % m == c
            &&& 1 <= ch.1 < m
            &&& has_mod_inverse(ch.1 as int, m)
        }),
    decreases k,
{
    if k <= 0 {
        vstd::arithmetic::div_mod::lemma_small_mod(c as nat, m as nat);
    } else {
        lemma_bsgs_choice_recomposes(m, c, babies, invs, cs, k - 1);
        let b = babies[k - 1] as int;
        let inv = invs[k - 1] as int;
        let g = (c * inv) % m;
        vstd::arithmetic::div_mod::lemma_mod_bound(c * inv, m);
        assert(((c * inv) % m) as u32 == g);
        // b · (c · b⁻¹ mod m) ≡ c · (b · b⁻¹) ≡ c
        vstd::arithmetic::div_mod::lemma_mul_mod_noop_general(b, c * inv, m);
        assert(b * (c * inv) == c * (b * inv)) by (nonlinear_arith);
        vstd::arithmetic::div_mod::lemma_mul_mod_noop_general(c as int, b * inv, m);
        vstd::arithmetic::div_mod::lemma_small_mod(c as nat, m as nat);
        assert((b * g) % m == c);
        assert(has_mod_inverse(inv, m)) by {
            assert(b * inv == inv * b) by (nonlinear_arith);
            assert(is_mod_inverse(inv, b, m));
        }
        lemma_unit_product(c as int, inv, m);
    }
}

/// Every baby-step / giant-step assignment recomposes its diagonal: the
/// baby times the giant is the canonical diagonal element modulo `2N`, and
/// the recorded giant inverse is the giant's inverse.
pub proof fn lemma_bsgs_assignments_recompose(
    degree: usize,
    diagonals: Seq<u32>,
    baby_elements: Seq<u32>,
    babies: Seq<u32>,
    a: Seq<BgvDiagonalBsgsAssignment>,
)
    requires
        0 < degree,
        2 * degree <= u32::MAX,
        spec_bsgs_babies(degree, diagonals, baby_elements) == Ok::<Seq<u32>, BgvLevelError>(babies),
        first_invalid_galois_element(degree, diagonals, 0) is None,
        are_bsgs_assignments(degree, diagonals, babies, a),
    ensures
        forall|i: int|
            0 <= i < a.len() ==> ((#[trigger] a[i]).baby * a[i].giant) % galois_modulus(degree)
                == spec_canonical_galois_element(degree, diagonals[i])->Ok_0 && is_mod_inverse(
                a[i].giant as int,
                a[i].giant_inverse as int,
                galois_modulus(degree),
            ),
{
    let m = galois_modulus(degree);
    assert(all_units(degree, seq![1u32])) by {
        vstd::arithmetic::div_mod::lemma_small_mod(1, m as nat);
        assert(is_mod_inverse(1, 1, m));
    }
    if baby_elements.len() == 0 {
        lemma_babies_scan_units(
            degree,
            diagonals,
            0,
            seq![1u32],
            Some(spec_bsgs_default_baby_count(diagonals.len() as int)),
        );
    } else {
        lemma_babies_scan_units(degree, baby_elements, 0, seq![1u32], None);
    }
    let invs = spec_inverses(degree, babies);
    let cs = spec_canonicals(degree, diagonals);
    assert forall|j: int| 0 <= j < babies.len() implies is_mod_inverse(
        babies[j] as int,
        #[trigger] invs[j] as int,
        m,
    ) by {
        assert(has_mod_inverse(babies[j] as int, m));
        let x = choose|x: int| is_mod_inverse(babies[j] as int, x, m);
        lemma_galois_inverse(degree, babies[j] as int, x);
    }
    assert forall|i: int| 0 <= i < a.len() implies ((#[trigger] a[i]).baby * a[i].giant) % m
        == spec_canonical_galois_element(degree, diagonals[i])->Ok_0 && is_mod_inverse(
        a[i].giant as int,
        a[i].giant_inverse as int,
        m,
    ) by {
        lemma_first_invalid_none(degree, diagonals, 0, i);
        lemma_canonical_is_unit(degree, diagonals[i]);
        lemma_bsgs_choice_recomposes(m, cs[i], babies, invs, cs, babies.len() as int);
        let g = a[i].giant as int;
        let x = choose|x: int| is_mod_inverse(g, x, m);
        lemma_galois_inverse(degree, g, x);
    }
}

proof fn lemma_first_invalid_none(degree: usize, elements: Seq<u32>, i: int, k: int)
    requires
        0 <= i <= k < elements.len(),
        first_invalid_galois_element(degree, elements, i) is None,
    ensures
        spec_canonical_galois_element(degree, elements[k]) is Ok,
    decreases k - i,
{
    if i < k {
        lemma_first_invalid_none(degree, elements, i + 1, k);
    }
}

/// `elements` after `push_unique_non_identity` of each assignment's baby
/// and then its giant, for the first `k` assignments.
pub open spec fn bsgs_elements_after(assignments: Seq<BgvDiagonalBsgsAssignment>, k: int) -> Seq<u32>
    decreases k,
{
    if k <= 0 {
        Seq::empty()
    } else {
        let prev = bsgs_elements_after(assignments, k - 1);
        let with_baby = push_unique_spec(prev, assignments[k - 1].baby);
        push_unique_spec(with_baby, assignments[k - 1].giant)
    }
}

/// `elements` with `element` appended unless it is 1 or already present.
pub open spec fn push_unique_spec(elements: Seq<u32>, element: u32) -> Seq<u32> {
    if element != 1 && !elements.contains(element) {
        elements.push(element)
    } else {
        elements
    }
}

/// The distinct non-identity baby and giant elements of the diagonal
/// assignments, in order of first use.
pub fn bgv_diagonal_bsgs_galois_elements(
    degree: usize,
    diagonal_galois_elements: &Vec<u32>,
    baby_galois_elements: &Vec<u32>,
) -> (r: Result<Vec<u32>, BgvLevelError>)
    requires
        0 < degree,
        2 * degree <= u32::MAX,
        diagonal_galois_elements@.len() * (diagonal_galois_elements@.len()
            + baby_galois_elements@.len() + 1) <= usize::MAX,
    ensures
        match spec_bsgs_babies(degree, diagonal_galois_elements@, baby_galois_elements@) {
            Err(e) => r == Err::<Vec<u32>, BgvLevelError>(e),
            Ok(babies) => match first_invalid_galois_element(degree, diagonal_galois_elements@, 0) {
                Some(e) => r == Err::<Vec<u32>, BgvLevelError>(e),
                None => r is Ok && exists|a: Seq<BgvDiagonalBsgsAssignment>|
                    are_bsgs_assignments(degree, diagonal_galois_elements@, babies, a)
                        && r->Ok_0@ == #[trigger] bsgs_elements_after(a, a.len() as int),
            },
        },
{
    let assignments = match bgv_diagonal_bsgs_assignments(
        degree,
        diagonal_galois_elements,
        baby_galois_elements,
    ) {
        Ok(a) => a,
        Err(e) => {
            return Err(e);
        },
    };
    let mut elements: Vec<u32> = Vec::new();
    let mut k: usize = 0;
    while k < assignments.len()
        invariant
            k <= assignments@.len(),
            elements@ == bsgs_elements_after(assignments@, k as int),
        decreases assignments@.len() - k,
    {
        push_unique_non_identity(&mut elements, assignments[k].baby);
        push_unique_non_identity(&mut elements, assignments[k].giant);
        k += 1;
    }
    Ok(elements)
}

// ---------------------------------------------------------------------------
// Key-switching gadget size
// ---------------------------------------------------------------------------

/// Log of the key-switching gadget base `2^8`.
pub const BGV_KSW_BASE_LOG: usize = 8;

/// `q_0 · q_1 ⋯ q_{n-1}` as long as every partial product fits in 128 bits.
pub open spec fn checked_chain_product(q: Seq<u64>, n: int) -> Option<int>
    decreases n,
{
    if n <= 0 {
        Some(1)
    } else {
        match checked_chain_product(q, n - 1) {
            None => None,
            Some(p) => if p * q[n - 1] <= u128::MAX {
                Some(p * q[n - 1])
            } else {
                None
            },
        }
    }
}

/// The checked product of the first `n` moduli is their product exactly
/// when no partial product up to `n` exceeds `u128::MAX`, and there is none
/// as soon as one does.
pub proof fn lemma_checked_chain_product_exact(q: Seq<u64>, n: int)
    requires
        0 <= n <= q.len(),
    ensures
        checked_chain_product(q, n) is Some <==> forall|k: int|
            0 <= k <= n ==> #[trigger] prefix_product(q, k) <= u128::MAX,
        checked_chain_product(q, n) is Some ==> checked_chain_product(q, n)->Some_0 == prefix_product(q, n),
    decreases n,
{
    if n > 0 {
        lemma_checked_chain_product_exact(q, n - 1);
        if checked_chain_product(q, n) is Some {
            assert forall|k: int| 0 <= k <= n implies #[trigger] prefix_product(q, k) <= u128::MAX by {
                if k < n {
                }
            }
        }
        if forall|k: int| 0 <= k <= n ==> #[trigger] prefix_product(q, k) <= u128::MAX {
            assert(prefix_product(q, n) <= u128::MAX);
            assert forall|k: int| 0 <= k <= n - 1 implies #[trigger] prefix_product(q, k) <= u128::MAX by {
            }
        }
    } else {
        assert(prefix_product(q, 0) == 1);
    }
}

/// Sum of the bit lengths of the first `n` moduli.
pub open spec fn moduli_bit_sum(q: Seq<u64>, n: int) -> nat
    decreases n,
{
    if n <= 0 {
        0
    } else {
        moduli_bit_sum(q, n - 1) + bit_length(q[n - 1] as nat)
    }
}

proof fn lemma_bit_length_bound(v: nat, k: nat)
    requires
        v < pow2(k),
    ensures
        bit_length(v) <= k,
    decreases v,
{
    if v > 0 {
        if k == 0 {
            assert(pow2(0) == 1) by {
                vstd::arithmetic::power2::lemma2_to64();
            }
        } else {
            vstd::arithmetic::power2::lemma_pow2_adds((k - 1) as nat, 1);
            vstd::arithmetic::power2::lemma2_to64();
            lemma_bit_length_bound(v / 2, (k - 1) as nat);
        }
    }
}

/// Bit length of a 128-bit value.
pub fn bit_length_u128(value: u128) -> (r: usize)
    ensures
        r == bit_length(value as nat),
        r <= 128,
{
    proof {
        vstd::arithmetic::power2::lemma2_to64();
        vstd::arithmetic::power2::lemma_pow2_adds(64, 64);
        lemma_bit_length_bound(value as nat, 128);
    }
    let mut v = value;
    let mut bits: usize = 0;
    while v > 0
        invariant
            bits + bit_length(v as nat) == bit_length(value as nat),
            bit_length(value as nat) <= 128,
        decreases v,
    {
        v = v / 2;
        bits += 1;
    }
    bits
}

/// Number of base-`2^8` digits of the key-switching gadget for the chain
/// `q`: `⌈b / 8⌉ + 1`, where `b` is the bit length of the chain product when
/// it fits in 128 bits, and otherwise the sum of the moduli's bit lengths.
pub open spec fn ksw_level_count(q: Seq<u64>) -> int {
    ((match checked_chain_product(q, q.len() as int) {
        Some(p) => bit_length(p as nat),
        None => moduli_bit_sum(q, q.len() as int),
    } + 7) / 8 + 1) as int
}

/// Number of base-`2^8` digits of the key-switching gadget for the modulus
/// chain `moduli`: `⌈b / 8⌉ + 1`, where `b` is the bit length of the chain
/// product when it fits in 128 bits, and otherwise the sum of the moduli's
/// bit lengths.
pub fn bgv_ksw_levels(moduli: &Vec<u64>) -> (r: usize)
    requires
        moduli@.len() <= 0x100_0000,
    ensures
        r == ksw_level_count(moduli@),
{
    let mut product: Option<u128> = Some(1);
    let mut i: usize = 0;
    while i < moduli.len()
        invariant
            i <= moduli@.len(),
            match product {
                Some(p) => checked_chain_product(moduli@, i as int) == Some(p as int),
                None => checked_chain_product(moduli@, i as int) is None,
            },
        decreases moduli@.len() - i,
    {
        product = match product {
            Some(p) => p.checked_mul(moduli[i] as u128),
            None => None,
        };
        i += 1;
    }
    let q_bits: usize = match product {
        Some(q) => bit_length_u128(q),
        None => {
            let mut sum: usize = 0;
            let mut k: usize = 0;
            while k < moduli.len()
                invariant
                    k <= moduli@.len(),
                    moduli@.len() <= 0x100_0000,
                    sum == moduli_bit_sum(moduli@, k as int),
                    sum <= 128 * k,
                decreases moduli@.len() - k,
            {
                let b = bit_length_u128(moduli[k] as u128);
                sum = sum + b;
                k += 1;
            }
            sum
        },
    };
    (q_bits + 7) / BGV_KSW_BASE_LOG + 1
}

// ---------------------------------------------------------------------------
// Grouping diagonals by giant step
// ---------------------------------------------------------------------------

/// One diagonal inside a giant-step group: its baby step and its position
/// among the diagonals.
#[derive(Clone, Copy, Debug, PartialEq, Eq)]
pub struct BgvDiagonalBsgsTerm {
    pub baby: u32,
    pub diagonal_index: usize,
}

/// The diagonals that share one giant step.
#[derive(Clone, Debug)]
pub struct BgvDiagonalBsgsGroup {
    pub giant: u32,
    pub giant_inverse: u32,
    pub terms: Vec<BgvDiagonalBsgsTerm>,
}

/// Terms of the first `n` assignments whose giant is `giant`, in order.
pub open spec fn giant_terms(a: Seq<BgvDiagonalBsgsAssignment>, giant: u32, n: int) -> Seq<
    BgvDiagonalBsgsTerm,
>
    decreases n,
{
    if n <= 0 {
        Seq::empty()
    } else {
        let prev = giant_terms(a, giant, n - 1);
        if a[n - 1].giant == giant {
            prev.push(BgvDiagonalBsgsTerm { baby: a[n - 1].baby, diagonal_index: a[n - 1].diagonal_index })
        } else {
            prev
        }
    }
}

/// Position of the first assignment at or after `i` with giant `giant`
/// (`|a|` when there is none).
pub open spec fn first_giant_position(a: Seq<BgvDiagonalBsgsAssignment>, giant: u32, i: int) -> int
    decreases a.len() - i,
{
    if i < 0 || i >= a.len() {
        a.len() as int
    } else if a[i].giant == giant {
        i
    } else {
        first_giant_position(a, giant, i + 1)
    }
}

/// The giant position from `i` is the first index at or after `i` whose
/// assignment has that giant, or `|a|` when none does.
pub proof fn lemma_first_giant_position_is_first(a: Seq<BgvDiagonalBsgsAssignment>, giant: u32, i: int)
    requires
        0 <= i,
    ensures
        first_giant_position(a, giant, i) == a.len() || i <= first_giant_position(a, giant, i) < a.len(),
        first_giant_position(a, giant, i) < a.len() ==> a[first_giant_position(a, giant, i)].giant
            == giant,
        forall|j: int| i <= j < first_giant_position(a, giant, i) ==> (#[trigger] a[j]).giant != giant,
    decreases a.len() - i,
{
    if i < a.len() {
        lemma_first_giant_position_is_first(a, giant, i + 1);
    }
}

/// Some group has giant `giant`.
pub open spec fn giant_grouped(groups: Seq<BgvDiagonalBsgsGroup>, giant: u32) -> bool {
    exists|g: int| 0 <= g < groups.len() && (#[trigger] groups[g]).giant == giant
}

/// `groups` gathers the assignments by giant step, in order of first use:
/// each group holds, in order, every assignment with its giant, and takes
/// the giant inverse of the first of them.
pub open spec fn are_giant_groups(groups: Seq<BgvDiagonalBsgsGroup>, a: Seq<BgvDiagonalBsgsAssignment>) -> bool {
    &&& forall|g: int|
        0 <= g < groups.len() ==> {
            let p = first_giant_position(a, (#[trigger] groups[g]).giant, 0);
            &&& p < a.len()
            &&& groups[g].giant_inverse == a[p].giant_inverse
            &&& groups[g].terms@ == giant_terms(a, groups[g].giant, a.len() as int)
        }
    &&& forall|g: int, h: int|
        0 <= g < h < groups.len() ==> first_giant_position(a, (#[trigger] groups[g]).giant, 0)
            < first_giant_position(a, (#[trigger] groups[h]).giant, 0)
    &&& forall|i: int| 0 <= i < a.len() ==> giant_grouped(groups, (#[trigger] a[i]).giant)
}

proof fn lemma_first_giant_position(a: Seq<BgvDiagonalBsgsAssignment>, giant: u32, i: int, k: int)
    requires
        0 <= i <= k < a.len(),
        a[k].giant == giant,
        forall|q: int| i <= q < k ==> a[q].giant != giant,
    ensures
        first_giant_position(a, giant, i) == k,
    decreases k - i,
{
    if i < k {
        lemma_first_giant_position(a, giant, i + 1, k);
    }
}

proof fn lemma_first_giant_position_bounds(a: Seq<BgvDiagonalBsgsAssignment>, giant: u32, i: int)
    requires
        0 <= i <= a.len(),
    ensures
        i <= first_giant_position(a, giant, i) <= a.len(),
        first_giant_position(a, giant, i) < a.len() ==> a[first_giant_position(a, giant, i)].giant
            == giant,
        forall|q: int| i <= q < first_giant_position(a, giant, i) ==> a[q].giant != giant,
    decreases a.len() - i,
{
    if i < a.len() {
        lemma_first_giant_position_bounds(a, giant, i + 1);
    }
}

proof fn lemma_giant_terms_prefix(a: Seq<BgvDiagonalBsgsAssignment>, giant: u32, n: int)
    requires
        0 <= n <= a.len(),
        forall|q: int| 0 <= q < n ==> a[q].giant != giant,
    ensures
        giant_terms(a, giant, n) == Seq::<BgvDiagonalBsgsTerm>::empty(),
    decreases n,
{
    if n > 0 {
        lemma_giant_terms_prefix(a, giant, n - 1);
    }
}

/// Gathers baby-step / giant-step assignments by giant step, in order of
/// first use.
pub fn group_bsgs_assignments(assignments: &Vec<BgvDiagonalBsgsAssignment>) -> (groups: Vec<
    BgvDiagonalBsgsGroup,
>)
    ensures
        are_giant_groups(groups@, assignments@),
{
    let ghost a = assignments@;
    let mut groups: Vec<BgvDiagonalBsgsGroup> = Vec::new();
    let mut k: usize = 0;
    while k < assignments.len()
        invariant
            a == assignments@,
            k <= a.len(),
            forall|g: int|
                0 <= g < groups@.len() ==> {
                    let p = first_giant_position(a, (#[trigger] groups@[g]).giant, 0);
                    &&& p < k
                    &&& groups@[g].giant_inverse == a[p].giant_inverse
                    &&& groups@[g].terms@ == giant_terms(a, groups@[g].giant, k as int)
                },
            forall|g: int, h: int|
                0 <= g < h < groups@.len() ==> first_giant_position(a, (#[trigger] groups@[g]).giant, 0)
                    < first_giant_position(a, (#[trigger] groups@[h]).giant, 0),
            forall|i: int| 0 <= i < k ==> giant_grouped(groups@, (#[trigger] a[i]).giant),
        decreases a.len() - k,
    {
        let asg = assignments[k];
        let term = BgvDiagonalBsgsTerm { baby: asg.baby, diagonal_index: asg.diagonal_index };
        let mut found: usize = groups.len();
        let mut g: usize = 0;
        while g < groups.len()
            invariant
                g <= groups@.len(),
                found == groups@.len() || (found < g && groups@[found as int].giant == asg.giant),
                found == groups@.len() ==> forall|h: int| 0 <= h < g ==> (#[trigger] groups@[h]).giant != asg.giant,
            decreases groups@.len() - g,
        {
            if found == groups.len() && groups[g].giant == asg.giant {
                found = g;
            }
            g += 1;
        }
        let ghost before = groups@;
        proof {
            lemma_first_giant_position_bounds(a, asg.giant, 0);
        }
        if found < groups.len() {
            groups[found].terms.push(term);
            proof {
                assert forall|gg: int|
                    0 <= gg < groups@.len() implies {
                        let p = first_giant_position(a, (#[trigger] groups@[gg]).giant, 0);
                        &&& p < k + 1
                        &&& groups@[gg].giant_inverse == a[p].giant_inverse
                        &&& groups@[gg].terms@ == giant_terms(a, groups@[gg].giant, k + 1)
                    } by {
                    if gg != found {
                        assert(groups@[gg] == before[gg]);
                        if before[gg].giant == asg.giant {
                            assert(first_giant_position(a, before[gg].giant, 0) < first_giant_position(a, before[found as int].giant, 0) || first_giant_position(a, before[found as int].giant, 0) < first_giant_position(a, before[gg].giant, 0));
                        }
                    }
                }
                assert forall|i: int| 0 <= i < k + 1 implies giant_grouped(groups@, (#[trigger] a[i]).giant) by {
                    if i == k {
                        assert(groups@[found as int].giant == a[i].giant);
                    } else {
                        let h = choose|h: int| 0 <= h < before.len() && (#[trigger] before[h]).giant == a[i].giant;
                        assert(groups@[h].giant == before[h].giant);
                    }
                }
            }
        } else {
            let mut terms: Vec<BgvDiagonalBsgsTerm> = Vec::new();
            terms.push(term);
            groups.push(
                BgvDiagonalBsgsGroup { giant: asg.giant, giant_inverse: asg.giant_inverse, terms },
            );
            proof {
                // no earlier assignment used this giant
                assert forall|q: int| 0 <= q < k implies a[q].giant != asg.giant by {
                    if a[q].giant == asg.giant {
                        let h = choose|h: int| 0 <= h < before.len() && (#[trigger] before[h]).giant == a[q].giant;
                    }
                }
                lemma_first_giant_position(a, asg.giant, 0, k as int);
                lemma_giant_terms_prefix(a, asg.giant, k as int);
                assert(giant_terms(a, asg.giant, k + 1) == seq![term]);
                assert forall|i: int| 0 <= i < k + 1 implies giant_grouped(groups@, (#[trigger] a[i]).giant) by {
                    if i == k {
                        assert(groups@[before.len() as int].giant == a[i].giant);
                    } else {
                        let h = choose|h: int| 0 <= h < before.len() && (#[trigger] before[h]).giant == a[i].giant;
                        assert(groups@[h].giant == before[h].giant);
                    }
                }
            }
        }
        k += 1;
    }
    groups
}

/// The baby-step / giant-step groups of a diagonal transform: the
/// assignments of `bgv_diagonal_bsgs_assignments` gathered by giant step.
pub fn build_diagonal_bsgs_groups(
    degree: usize,
    diagonal_galois_elements: &Vec<u32>,
    baby_galois_elements: &Vec<u32>,
) -> (r: Result<Vec<BgvDiagonalBsgsGroup>, BgvLevelError>)
    requires
        0 < degree,
        2 * degree <= u32::MAX,
        diagonal_galois_elements@.len() * (diagonal_galois_elements@.len()
            + baby_galois_elements@.len() + 1) <= usize::MAX,
    ensures
        match spec_bsgs_babies(degree, diagonal_galois_elements@, baby_galois_elements@) {
            Err(e) => r == Err::<Vec<BgvDiagonalBsgsGroup>, BgvLevelError>(e),
            Ok(babies) => match first_invalid_galois_element(degree, diagonal_galois_elements@, 0) {
                Some(e) => r == Err::<Vec<BgvDiagonalBsgsGroup>, BgvLevelError>(e),
                None => r is Ok && exists|a: Seq<BgvDiagonalBsgsAssignment>|
                    are_bsgs_assignments(degree, diagonal_galois_elements@, babies, a)
                        && #[trigger] are_giant_groups(r->Ok_0@, a),
            },
        },
{
    let assignments = match bgv_diagonal_bsgs_assignments(
        degree,
        diagonal_galois_elements,
        baby_galois_elements,
    ) {
        Ok(a) => a,
        Err(e) => {
            return Err(e);
        },
    };
    let groups = group_bsgs_assignments(&assignments);
    proof {
        assert(are_giant_groups(groups@, assignments@));
        match spec_bsgs_babies(degree, diagonal_galois_elements@, baby_galois_elements@) {
            Err(e) => {},
            Ok(babies) => match first_invalid_galois_element(degree, diagonal_galois_elements@, 0) {
                Some(e) => {},
                None => {
                    assert(are_bsgs_assignments(degree, diagonal_galois_elements@, babies, assignments@));
                    let r: Result<Vec<BgvDiagonalBsgsGroup>, BgvLevelError> = Ok(groups);
                    assert(r->Ok_0@ == groups@);
                    assert(are_giant_groups(r->Ok_0@, assignments@));
                    assert(exists|a: Seq<BgvDiagonalBsgsAssignment>|
                        are_bsgs_assignments(degree, diagonal_galois_elements@, babies, a)
                            && #[trigger] are_giant_groups(r->Ok_0@, a));
                },
            },
        }
    }
    Ok(groups)
}

/// Distinct baby steps over all groups, in order of first use.
pub fn bsgs_unique_babies(groups: &Vec<BgvDiagonalBsgsGroup>) -> (r: Vec<u32>)
    ensures
        no_duplicates(r@),
        forall|x: u32|
            #![trigger r@.contains(x)]
            r@.contains(x) <==> exists|g: int, j: int|
                0 <= g < groups@.len() && 0 <= j < groups@[g].terms@.len()
                    && (#[trigger] groups@[g].terms@[j]).baby == x,
{
    let mut babies: Vec<u32> = Vec::new();
    let mut g: usize = 0;
    while g < groups.len()
        invariant
            g <= groups@.len(),
            no_duplicates(babies@),
            forall|x: u32|
                #![trigger babies@.contains(x)]
                babies@.contains(x) <==> exists|h: int, j: int|
                    0 <= h < g && 0 <= j < groups@[h].terms@.len()
                        && (#[trigger] groups@[h].terms@[j]).baby == x,
        decreases groups@.len() - g,
    {
        let mut j: usize = 0;
        while j < groups[g].terms.len()
            invariant
                g < groups@.len(),
                j <= groups@[g as int].terms@.len(),
                no_duplicates(babies@),
                forall|x: u32|
                    #![trigger babies@.contains(x)]
                    babies@.contains(x) <==> (exists|h: int, jj: int|
                        0 <= h < g && 0 <= jj < groups@[h].terms@.len()
                            && (#[trigger] groups@[h].terms@[jj]).baby == x) || exists|jj: int|
                        0 <= jj < j && (#[trigger] groups@[g as int].terms@[jj]).baby == x,
            decreases groups@[g as int].terms@.len() - j,
        {
            let b = groups[g].terms[j].baby;
            let ghost before = babies@;
            if !vec_contains_u32(&babies, b) {
                babies.push(b);
                proof {
                    assert forall|p: int, q: int| 0 <= p < q < babies@.len() implies babies@[p] != babies@[q] by {
                        if q == before.len() {
                            assert(before.contains(babies@[p]));
                        }
                    }
                }
            }
            proof {
                assert forall|x: u32|
                    #![trigger babies@.contains(x)]
                    babies@.contains(x) <==> (exists|h: int, jj: int|
                        0 <= h < g && 0 <= jj < groups@[h].terms@.len()
                            && (#[trigger] groups@[h].terms@[jj]).baby == x) || exists|jj: int|
                        0 <= jj < j + 1 && (#[trigger] groups@[g as int].terms@[jj]).baby == x by {
                    let was = before.contains(x);
                    if x == b {
                        assert(groups@[g as int].terms@[j as int].baby == x);
                        if !was {
                            assert(babies@[before.len() as int] == x);
                        }
                    } else {
                        if exists|jj: int| 0 <= jj < j + 1 && (#[trigger] groups@[g as int].terms@[jj]).baby == x {
                            let jj = choose|jj: int| 0 <= jj < j + 1 && (#[trigger] groups@[g as int].terms@[jj]).baby == x;
                            assert(jj < j);
                        }
                        if babies@.contains(x) {
                            let q = choose|q: int| 0 <= q < babies@.len() && babies@[q] == x;
                            assert(q < before.len());
                            assert(before[q] == x);
                        }
                        if was {
                            let q = choose|q: int| 0 <= q < before.len() && before[q] == x;
                            assert(babies@[q] == x);
                        }
                    }
                }
            }
            j += 1;
        }
        g += 1;
    }
    babies
}

} // verus!
