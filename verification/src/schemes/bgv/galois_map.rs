//! The coefficient Galois automorphism `X ↦ X^k` on a plaintext polynomial
//! modulo `X^N + 1`.  The automorphism is given as its coefficient map: a
//! table sending source position `i` to a destination in `[0, 2N)`, where a
//! destination `N + d` stands for position `d` with the sign flipped
//! (`X^N = −1`).

use vstd::prelude::*;

use crate::schemes::bgv::keys::{
    bgv_canonical_galois_element_for_params, spec_canonical_galois_element,
};
use crate::schemes::bgv::params::BgvLevelError;

verus! {

/// Coefficient `d` of the image under the coefficient map, after the first
/// `upto` sources are written: the last source sent to `d` (as-is) or to
/// `d + N` (negated modulo `m`) decides it; positions nothing reaches stay 0.
pub open spec fn galois_image_coeff(
    src: Seq<u64>,
    map: Seq<u64>,
    n: int,
    m: int,
    d: int,
    upto: int,
) -> int
    decreases upto,
{
    if upto <= 0 {
        0
    } else if map[upto - 1] == d {
        (src[upto - 1] as int) % m
    } else if map[upto - 1] == d + n {
        let c = (src[upto - 1] as int) % m;
        if c == 0 {
            0
        } else {
            m - c
        }
    } else {
        galois_image_coeff(src, map, n, m, d, upto - 1)
    }
}

/// The position `map[i] mod N` that source `i` lands on.
pub open spec fn map_position(map: Seq<u64>, i: int, n: int) -> int {
    (map[i] as int) % n
}

/// When the sources land on distinct positions, the image at the position
/// source `i` lands on is that source's coefficient, reduced modulo `m` and
/// negated when it lands past `N`; a position no source lands on stays 0.
pub proof fn lemma_galois_image_of_distinct_map(src: Seq<u64>, map: Seq<u64>, n: int, m: int, upto: int)
    requires
        n > 0,
        m > 0,
        0 <= upto <= map.len(),
        upto <= src.len(),
        forall|i: int| 0 <= i < upto ==> #[trigger] map[i] < 2 * n,
        forall|i: int, j: int|
            0 <= i < j < upto ==> #[trigger] map_position(map, i, n) != #[trigger] map_position(map, j, n),
    ensures
        forall|i: int|
            0 <= i < upto ==> galois_image_coeff(src, map, n, m, #[trigger] map_position(map, i, n), upto) == if map[i]
                < n {
                (src[i] as int) % m
            } else if (src[i] as int) % m == 0 {
                0
            } else {
                m - (src[i] as int) % m
            },
        forall|d: int|
            0 <= d < n && (forall|i: int| 0 <= i < upto ==> #[trigger] map_position(map, i, n) != d) ==> #[trigger] galois_image_coeff(
                src,
                map,
                n,
                m,
                d,
                upto,
            ) == 0,
    decreases upto,
{
    if upto > 0 {
        lemma_galois_image_of_distinct_map(src, map, n, m, upto - 1);
        let last = map[upto - 1];
        assert forall|i: int| 0 <= i < upto implies galois_image_coeff(
            src,
            map,
            n,
            m,
            #[trigger] map_position(map, i, n),
            upto,
        ) == if map[i] < n {
            (src[i] as int) % m
        } else if (src[i] as int) % m == 0 {
            0
        } else {
            m - (src[i] as int) % m
        } by {
            let d = map_position(map, i, n);
            if map[i] < n {
                vstd::arithmetic::div_mod::lemma_small_mod(map[i] as nat, n as nat);
            } else {
                vstd::arithmetic::div_mod::lemma_mod_sub_multiples_vanish(map[i] as int, n);
                vstd::arithmetic::div_mod::lemma_small_mod((map[i] - n) as nat, n as nat);
            }
            if last < n {
                vstd::arithmetic::div_mod::lemma_small_mod(last as nat, n as nat);
            } else {
                vstd::arithmetic::div_mod::lemma_mod_sub_multiples_vanish(last as int, n);
                vstd::arithmetic::div_mod::lemma_small_mod((last - n) as nat, n as nat);
            }
            if i < upto - 1 {
                assert(map_position(map, upto - 1, n) != d);
                assert(last != d && last != d + n);
            }
        }
        assert forall|d: int|
            0 <= d < n && (forall|i: int| 0 <= i < upto ==> #[trigger] map_position(map, i, n) != d) implies #[trigger] galois_image_coeff(
            src,
            map,
            n,
            m,
            d,
            upto,
        ) == 0 by {
            assert(map_position(map, upto - 1, n) != d);
            if last < n {
                vstd::arithmetic::div_mod::lemma_small_mod(last as nat, n as nat);
            } else {
                vstd::arithmetic::div_mod::lemma_mod_sub_multiples_vanish(last as int, n);
                vstd::arithmetic::div_mod::lemma_small_mod((last - n) as nat, n as nat);
            }
            assert(last != d && last != d + n);
            assert(forall|i: int| 0 <= i < upto - 1 ==> #[trigger] map_position(map, i, n) != d);
            assert(galois_image_coeff(src, map, n, m, d, upto) == galois_image_coeff(
                src,
                map,
                n,
                m,
                d,
                upto - 1,
            ));
        }
    }
}

/// Checks that a plaintext has `degree` coefficients and a single limb.
pub fn ensure_plaintext_compatible(degree: usize, plaintext_degree: usize, plaintext_limbs: usize) -> (r:
    Result<(), BgvLevelError>)
    ensures
        plaintext_degree != degree ==> r == Err::<(), BgvLevelError>(
            BgvLevelError::PlaintextDegreeMismatch { expected: degree, actual: plaintext_degree },
        ),
        plaintext_degree == degree && plaintext_limbs != 1 ==> r == Err::<(), BgvLevelError>(
            BgvLevelError::PlaintextLimbMismatch { expected: 1, actual: plaintext_limbs },
        ),
        plaintext_degree == degree && plaintext_limbs == 1 ==> r is Ok,
{
    if plaintext_degree != degree {
        return Err(BgvLevelError::PlaintextDegreeMismatch { expected: degree, actual: plaintext_degree });
    }
    if plaintext_limbs != 1 {
        return Err(BgvLevelError::PlaintextLimbMismatch { expected: 1, actual: plaintext_limbs });
    }
    Ok(())
}

/// Applies the Galois automorphism `element` to a single-limb plaintext
/// with coefficients `coefficients` modulo `plain_modulus`, through its
/// coefficient map `map` (the map of the canonical element).  The identity
/// leaves the plaintext as it is.
pub fn automorph_plaintext_coeff(
    coefficients: &Vec<u64>,
    plaintext_limbs: usize,
    element: u32,
    degree: usize,
    plain_modulus: u64,
    map: &Vec<u64>,
) -> (r: Result<Vec<u64>, BgvLevelError>)
    requires
        0 < degree,
        2 * degree <= usize::MAX,
        2 * degree <= u64::MAX,
        plain_modulus > 0,
        map@.len() >= degree,
        forall|i: int| 0 <= i < degree ==> #[trigger] map@[i] < 2 * degree,
    ensures
        coefficients@.len() != degree ==> r == Err::<Vec<u64>, BgvLevelError>(
            BgvLevelError::PlaintextDegreeMismatch { expected: degree, actual: coefficients@.len() as usize },
        ),
        coefficients@.len() == degree && plaintext_limbs != 1 ==> r == Err::<Vec<u64>, BgvLevelError>(
            BgvLevelError::PlaintextLimbMismatch { expected: 1, actual: plaintext_limbs },
        ),
        coefficients@.len() == degree && plaintext_limbs == 1 ==> match spec_canonical_galois_element(
            degree,
            element,
        ) {
            Err(e) => r == Err::<Vec<u64>, BgvLevelError>(e),
            Ok(k) => r is Ok && (k == 1 ==> r->Ok_0@ == coefficients@) && (k != 1 ==> {
                let out = r->Ok_0@;
                &&& out.len() == degree
                &&& forall|d: int|
                    0 <= d < degree ==> #[trigger] out[d] == galois_image_coeff(
                        coefficients@,
                        map@,
                        degree as int,
                        plain_modulus as int,
                        d,
                        degree as int,
                    )
            }),
        },
{
    match ensure_plaintext_compatible(degree, coefficients.len(), plaintext_limbs) {
        Ok(()) => {},
        Err(e) => {
            return Err(e);
        },
    }
    let element = match bgv_canonical_galois_element_for_params(degree, element) {
        Ok(k) => k,
        Err(e) => {
            return Err(e);
        },
    };
    if element == 1 {
        let mut same: Vec<u64> = Vec::new();
        let mut i: usize = 0;
        while i < coefficients.len()
            invariant
                i <= coefficients@.len(),
                same@ == coefficients@.take(i as int),
            decreases coefficients@.len() - i,
        {
            same.push(coefficients[i]);
            i += 1;
            proof {
                assert(coefficients@.take(i as int) == coefficients@.take(i - 1).push(
                    coefficients@[i - 1],
                ));
            }
        }
        proof {
            assert(coefficients@.take(coefficients@.len() as int) == coefficients@);
        }
        return Ok(same);
    }
    Ok(galois_image_limb(coefficients, plain_modulus, degree, map))
}

/// The image of one residue limb under the coefficient map `map`: source
/// coefficient `i` is written to `map[i]`, or negated modulo `modulus` to
/// `map[i] − N` when `map[i] ≥ N`.
pub fn galois_image_limb(coefficients: &Vec<u64>, modulus: u64, degree: usize, map: &Vec<u64>) -> (out:
    Vec<u64>)
    requires
        0 < degree,
        2 * degree <= usize::MAX,
        2 * degree <= u64::MAX,
        modulus > 0,
        coefficients@.len() == degree,
        map@.len() >= degree,
        forall|i: int| 0 <= i < degree ==> #[trigger] map@[i] < 2 * degree,
    ensures
        out@.len() == degree,
        forall|d: int|
            0 <= d < degree ==> #[trigger] out@[d] == galois_image_coeff(
                coefficients@,
                map@,
                degree as int,
                modulus as int,
                d,
                degree as int,
            ),
{
    let ghost n = degree as int;
    let ghost m = modulus as int;
    let mut out: Vec<u64> = Vec::new();
    let mut z: usize = 0;
    while z < degree
        invariant
            z <= degree,
            out@.len() == z,
            forall|k: int| 0 <= k < z ==> #[trigger] out@[k] == 0,
        decreases degree - z,
    {
        out.push(0);
        z += 1;
    }
    let mut i: usize = 0;
    while i < degree
        invariant
            0 < degree,
            2 * degree <= usize::MAX,
            n == degree,
            m == modulus,
            modulus > 0,
            coefficients@.len() == degree,
            map@.len() >= degree,
            forall|j: int| 0 <= j < degree ==> #[trigger] map@[j] < 2 * degree,
            i <= degree,
            out@.len() == degree,
            forall|d: int|
                0 <= d < degree ==> #[trigger] out@[d] == galois_image_coeff(
                    coefficients@,
                    map@,
                    n,
                    m,
                    d,
                    i as int,
                ),
        decreases degree - i,
    {
        let index = map[i] as usize;
        let coeff = coefficients[i] % modulus;
        let ghost before = out@;
        if index < degree {
            out.set(index, coeff);
        } else {
            let v = if coeff == 0 {
                0
            } else {
                modulus - coeff
            };
            out.set(index - degree, v);
        }
        proof {
            assert forall|d: int| 0 <= d < degree implies #[trigger] out@[d] == galois_image_coeff(
                coefficients@,
                map@,
                n,
                m,
                d,
                i + 1,
            ) by {
                assert(index == map@[i as int]);
                if index < degree {
                    if d != index {
                        assert(out@[d] == before[d]);
                    }
                } else {
                    if d != index - degree {
                        assert(out@[d] == before[d]);
                    }
                }
            }
        }
        i += 1;
    }
    out
}

/// Applies the Galois automorphism with coefficient map `map` to every
/// residue limb of a polynomial in coefficient form, limb `l` modulo
/// `moduli[l]`.
pub fn apply_galois_coeff(poly: &Vec<Vec<u64>>, moduli: &Vec<u64>, degree: usize, map: &Vec<u64>) -> (r:
    Vec<Vec<u64>>)
    requires
        0 < degree,
        2 * degree <= usize::MAX,
        2 * degree <= u64::MAX,
        poly@.len() == moduli@.len(),
        forall|l: int| 0 <= l < poly@.len() ==> (#[trigger] poly@[l])@.len() == degree,
        forall|l: int| 0 <= l < moduli@.len() ==> #[trigger] moduli@[l] > 0,
        map@.len() >= degree,
        forall|i: int| 0 <= i < degree ==> #[trigger] map@[i] < 2 * degree,
    ensures
        r@.len() == poly@.len(),
        forall|l: int| 0 <= l < r@.len() ==> (#[trigger] r@[l])@.len() == degree,
        forall|l: int, d: int|
            0 <= l < r@.len() && 0 <= d < degree ==> #[trigger] r@[l]@[d] == galois_image_coeff(
                poly@[l]@,
                map@,
                degree as int,
                moduli@[l] as int,
                d,
                degree as int,
            ),
{
    let mut r: Vec<Vec<u64>> = Vec::new();
    let mut l: usize = 0;
    while l < poly.len()
        invariant
            0 < degree,
            2 * degree <= usize::MAX,
            2 * degree <= u64::MAX,
            poly@.len() == moduli@.len(),
            forall|k: int| 0 <= k < poly@.len() ==> (#[trigger] poly@[k])@.len() == degree,
            forall|k: int| 0 <= k < moduli@.len() ==> #[trigger] moduli@[k] > 0,
            map@.len() >= degree,
            forall|i: int| 0 <= i < degree ==> #[trigger] map@[i] < 2 * degree,
            l <= poly@.len(),
            r@.len() == l,
            forall|k: int| 0 <= k < l ==> (#[trigger] r@[k])@.len() == degree,
            forall|k: int, d: int|
                0 <= k < l && 0 <= d < degree ==> #[trigger] r@[k]@[d] == galois_image_coeff(
                    poly@[k]@,
                    map@,
                    degree as int,
                    moduli@[k] as int,
                    d,
                    degree as int,
                ),
        decreases poly@.len() - l,
    {
        let limb = galois_image_limb(&poly[l], moduli[l], degree, map);
        r.push(limb);
        l += 1;
    }
    r
}

} // verus!
