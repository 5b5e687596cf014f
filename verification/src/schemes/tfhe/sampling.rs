//! Sampling for TFHE keys, masks and T-uniform noise, drawn from a seeded
//! ChaCha generator (`rand::rngs::StdRng`).

use vstd::prelude::*;
use vstd::arithmetic::power2::pow2;

use rand::rngs::StdRng;

verus! {

#[verifier::external_type_specification]
#[verifier::external_body]
pub struct ExStdRng(StdRng);

/// `RngCore::next_u32` of the generator: 32 fresh random bits.  Nothing is
/// stated of their value.
#[verifier::external_body]
fn next_u32(rng: &mut StdRng) -> u32 {
    rand::RngCore::next_u32(rng)
}

/// `RngCore::next_u64` of the generator: 64 fresh random bits.  Nothing is
/// stated of their value.
#[verifier::external_body]
fn next_u64(rng: &mut StdRng) -> u64 {
    rand::RngCore::next_u64(rng)
}

/// `RngCore::fill_bytes` on a four-byte buffer, which it fills with random
/// bytes.  Nothing is stated of their value.
#[verifier::external_body]
fn next_4_bytes(rng: &mut StdRng) -> [u8; 4] {
    let mut buf = [0u8; 4];
    rand::RngCore::fill_bytes(rng, &mut buf);
    buf
}

/// The lowest bit of a 32-bit word.
pub open spec fn low_bit(word: u32) -> int {
    (word as int) % 2
}

/// The binary value that a random 32-bit word stands for: its lowest bit.
pub fn binary_from_word(word: u32) -> (r: u64)
    ensures
        r == low_bit(word),
{
    let bit = word & 1;
    assert(bit == word % 2) by (bit_vector)
        requires
            bit == word & 1,
    ;
    bit as u64
}

/// A uniform binary value: the lowest bit of one fresh random word.  The
/// word is random, so only what holds of every draw is stated; what is done
/// with the word is `binary_from_word`.
pub fn sample_binary(rng: &mut StdRng) -> (r: u64)
    ensures
        r <= 1,
        exists|word: u32| r == #[trigger] low_bit(word),
{
    let x = next_u32(rng);
    let bit = binary_from_word(x);
    assert(bit == low_bit(x));
    bit
}

/// Bit `k` of a 32-bit word.
pub open spec fn word_bit(word: u32, k: u32) -> u32 {
    (word >> k) & 1
}

/// The first `n` bits of `words`, 32 per word, each word read from its
/// lowest bit up.
pub open spec fn bits_of_words(words: Seq<u32>, n: int) -> Seq<u64> {
    Seq::new(n as nat, |i: int| word_bit(words[i / 32], (i % 32) as u32) as u64)
}

/// The value of four bytes read little-endian.
pub open spec fn le_word(bytes: Seq<u8>) -> int {
    bytes[0] + 256 * bytes[1] + 65536 * bytes[2] + 16777216 * bytes[3]
}

proof fn lemma_word_bit_is_binary(word: u32, k: u32)
    ensures
        word_bit(word, k) <= 1,
{
    assert((word >> k) & 1 <= 1) by (bit_vector);
}

/// The 32-bit word that four bytes give read little-endian.
pub fn word_from_le_bytes(bytes: [u8; 4]) -> (w: u32)
    ensures
        w == le_word(bytes@),
{
    (bytes[0] as u32) + (bytes[1] as u32) * 256 + (bytes[2] as u32) * 65536 + (bytes[3] as u32)
        * 16777216
}

/// The first `n` bits of `words`, 32 per word, each word read from its
/// lowest bit up.
pub fn bits_from_words(words: &Vec<u32>, n: usize) -> (r: Vec<u64>)
    requires
        n <= 32 * words@.len(),
    ensures
        r@ == bits_of_words(words@, n as int),
{
    let mut r: Vec<u64> = Vec::new();
    let mut i: usize = 0;
    while i < n
        invariant
            n <= 32 * words@.len(),
            i <= n,
            r@ == bits_of_words(words@, i as int),
        decreases n - i,
    {
        assert(i / 32 < words@.len()) by (nonlinear_arith)
            requires
                i < n,
                n <= 32 * words@.len(),
        ;
        let word = words[i / 32];
        let k = (i % 32) as u32;
        let bit = (word >> k) & 1;
        r.push(bit as u64);
        proof {
            assert(r@ =~= bits_of_words(words@, i + 1));
        }
        i += 1;
    }
    r
}

/// Fills `dst` with independent uniform bits: one fresh random word (four
/// bytes read little-endian) per 32 slots, its bits used from the lowest
/// up.  The words are random, so what is stated is that the result is
/// `bits_of_words` of some words of that count; `bits_from_words` is the
/// exact map.
pub fn fill_binary(rng: &mut StdRng, dst: &mut Vec<u64>)
    ensures
        final(dst)@.len() == old(dst)@.len(),
        forall|i: int| 0 <= i < final(dst)@.len() ==> #[trigger] final(dst)@[i] <= 1,
        exists|words: Seq<u32>|
            words.len() == (old(dst)@.len() + 31) / 32 && final(dst)@ == #[trigger] bits_of_words(
                words,
                old(dst)@.len() as int,
            ),
{
    let n = dst.len();
    let count: usize = if n % 32 == 0 {
        n / 32
    } else {
        n / 32 + 1
    };
    let mut words: Vec<u32> = Vec::new();
    while words.len() < count
        invariant
            words@.len() <= count,
        decreases count - words@.len(),
    {
        let buf = next_4_bytes(rng);
        words.push(word_from_le_bytes(buf));
    }
    assert(count == (n + 31) / 32);
    assert(n <= 32 * words@.len());
    let bits = bits_from_words(&words, n);
    let mut i: usize = 0;
    while i < n
        invariant
            n == dst@.len(),
            n == old(dst)@.len(),
            bits@ == bits_of_words(words@, n as int),
            i <= n,
            forall|k: int| 0 <= k < i ==> #[trigger] dst@[k] == bits@[k],
        decreases n - i,
    {
        dst.set(i, bits[i]);
        i += 1;
    }
    proof {
        assert(dst@ =~= bits_of_words(words@, n as int));
        assert forall|i: int| 0 <= i < dst@.len() implies #[trigger] dst@[i] <= 1 by {
            lemma_word_bit_is_binary(words@[i / 32], (i % 32) as u32);
        }
    }
}

/// A random word reduced to the ciphertext modulus `2^log_modulus`: its
/// value modulo `2^log_modulus`, or the word itself for the full 64 bits.
pub open spec fn reduced_word(word: u64, log_modulus: u8) -> int {
    if log_modulus < 64 {
        (word as int) % (pow2(log_modulus as nat) as int)
    } else {
        word as int
    }
}

/// Each word of `words` reduced to the modulus `2^log_modulus`.
pub open spec fn reduced_words(words: Seq<u64>, log_modulus: u8) -> Seq<u64> {
    Seq::new(words.len(), |i: int| reduced_word(words[i], log_modulus) as u64)
}

/// Reduces a word to the ciphertext modulus `2^log_modulus` by masking its
/// low `log_modulus` bits.
pub fn reduce_word(word: u64, log_modulus: u8) -> (r: u64)
    requires
        log_modulus <= 64,
    ensures
        r == reduced_word(word, log_modulus),
        log_modulus < 64 ==> r < pow2(log_modulus as nat),
{
    if log_modulus < 64 {
        let shift = log_modulus as u64;
        proof {
            vstd::bits::lemma_u64_pow2_no_overflow(shift as nat);
            vstd::bits::lemma_u64_shl_is_mul(1, shift);
            vstd::arithmetic::power2::lemma_pow2_pos(shift as nat);
        }
        let mask: u64 = (1u64 << shift) - 1;
        let v = word & mask;
        proof {
            vstd::bits::lemma_u64_low_bits_mask_is_mod(word, shift as nat);
            assert(mask == vstd::bits::low_bits_mask(shift as nat) as u64);
        }
        v
    } else {
        word
    }
}

/// Fills `dst` with uniform words of the ciphertext modulus `2^log_modulus`:
/// one fresh random 64-bit word per slot, reduced by `reduce_word`.  The
/// words are random, so what is stated is that the result is
/// `reduced_words` of some words, one per slot.
pub fn fill_uniform_mod(rng: &mut StdRng, log_modulus: u8, dst: &mut Vec<u64>)
    requires
        log_modulus <= 64,
    ensures
        final(dst)@.len() == old(dst)@.len(),
        log_modulus < 64 ==> forall|i: int|
            0 <= i < final(dst)@.len() ==> (#[trigger] final(dst)@[i]) < pow2(log_modulus as nat),
        exists|words: Seq<u64>|
            words.len() == old(dst)@.len() && final(dst)@ == #[trigger] reduced_words(
                words,
                log_modulus,
            ),
{
    let n = dst.len();
    let ghost mut words: Seq<u64> = Seq::empty();
    let mut i: usize = 0;
    while i < n
        invariant
            log_modulus <= 64,
            n == dst@.len(),
            n == old(dst)@.len(),
            i <= n,
            words.len() == i,
            forall|k: int| 0 <= k < i ==> #[trigger] dst@[k] == reduced_word(words[k], log_modulus),
            log_modulus < 64 ==> forall|k: int|
                0 <= k < i ==> (#[trigger] dst@[k]) < pow2(log_modulus as nat),
        decreases n - i,
    {
        let x = next_u64(rng);
        let v = reduce_word(x, log_modulus);
        dst.set(i, v);
        proof {
            words = words.push(x);
        }
        i += 1;
    }
    proof {
        assert(dst@ =~= reduced_words(words, log_modulus));
    }
}

/// The T-uniform sample in `(−2^b, 2^b]` that the raw word `raw` encodes:
/// its low `b + 1` bits `x` give `x + 1` when `x < 2^b`, and
/// `x − 2^(b+1) + 1` otherwise.
pub open spec fn tuniform_value(raw: u64, bound_log2: u8) -> int {
    let x = (raw as int) % (pow2((bound_log2 + 1) as nat) as int);
    let bound = pow2(bound_log2 as nat) as int;
    if x < bound {
        x + 1
    } else {
        x - 2 * bound + 1
    }
}

/// Maps a raw random word to a T-uniform noise value with bound `2^b`,
/// represented modulo `2^log_modulus`.
pub fn tuniform_from_raw(raw: u64, bound_log2: u8, log_modulus: u8) -> (r: u64)
    requires
        bound_log2 < log_modulus <= 64,
        bound_log2 < 63,
    ensures
        r == tuniform_value(raw, bound_log2) % (pow2(log_modulus as nat) as int),
{
    let bits = bound_log2 as u64 + 1;
    let b = bound_log2 as u64;
    proof {
        vstd::bits::lemma_u64_pow2_no_overflow(bits as nat);
        vstd::bits::lemma_u64_shl_is_mul(1, bits);
        vstd::bits::lemma_u64_pow2_no_overflow(b as nat);
        vstd::bits::lemma_u64_shl_is_mul(1, b);
        vstd::arithmetic::power2::lemma_pow2_unfold(bits as nat);
        vstd::arithmetic::power2::lemma_pow2_pos(log_modulus as nat);
        vstd::arithmetic::power2::lemma_pow2_strictly_increases(b as nat, log_modulus as nat);
    }
    let span: u64 = 1u64 << bits;
    let bound: u64 = 1u64 << b;
    let x = raw % span;
    let ghost m = pow2(log_modulus as nat) as int;
    if x < bound {
        let r = x + 1;
        proof {
            vstd::arithmetic::div_mod::lemma_small_mod(r as nat, m as nat);
        }
        r
    } else {
        let magnitude = 2 * bound - 1 - x;
        if magnitude == 0 {
            proof {
                vstd::arithmetic::div_mod::lemma_small_mod(0, m as nat);
            }
            0
        } else {
            proof {
                vstd::arithmetic::div_mod::lemma_mod_add_multiples_vanish(-(magnitude as int), m);
                vstd::arithmetic::div_mod::lemma_small_mod((m - magnitude) as nat, m as nat);
            }
            if log_modulus == 64 {
                proof {
                    vstd::arithmetic::power2::lemma2_to64_rest();
                }
                (u64::MAX - magnitude) + 1
            } else {
                let lm = log_modulus as u64;
                proof {
                    vstd::bits::lemma_u64_pow2_no_overflow(lm as nat);
                    vstd::bits::lemma_u64_shl_is_mul(1, lm);
                }
                (1u64 << lm) - magnitude
            }
        }
    }
}

/// A T-uniform noise sample with bound `2^b`, modulo `2^log_modulus`.
pub fn sample_tuniform(rng: &mut StdRng, bound_log2: u8, log_modulus: u8) -> (r: u64)
    requires
        bound_log2 < log_modulus <= 64,
        bound_log2 < 63,
    ensures
        exists|raw: u64| r == tuniform_value(raw, bound_log2) % (pow2(log_modulus as nat) as int),
{
    let raw = next_u64(rng);
    tuniform_from_raw(raw, bound_log2, log_modulus)
}

/// Law: a T-uniform value lies in `(−2^b, 2^b]`.
pub proof fn lemma_tuniform_within_bounds(raw: u64, bound_log2: u8)
    requires
        bound_log2 < 63,
    ensures
        -(pow2(bound_log2 as nat) as int) < tuniform_value(raw, bound_log2) <= pow2(
            bound_log2 as nat,
        ),
{
    vstd::arithmetic::power2::lemma_pow2_unfold((bound_log2 + 1) as nat);
    vstd::arithmetic::power2::lemma_pow2_pos(bound_log2 as nat);
    vstd::arithmetic::div_mod::lemma_mod_bound(
        raw as int,
        pow2((bound_log2 + 1) as nat) as int,
    );
}

} // verus!
