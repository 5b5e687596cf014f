use silent_fhe::schemes::bgv::ciphertext::BgvCiphertext;
use silent_fhe::schemes::bgv::keys::bgv_ksw_levels;
use silent_fhe::schemes::bgv::ops::{
    evaluation_key_for_params, mod_switch_down_bgv, mul_bgv, mul_relinearized_bgv, relinearize,
    relinearize_bgv, switch_key_gadget_from_digits,
};
use silent_fhe::schemes::bgv::params::{BgvLevelError, BgvModSwitchTables};

fn chain() -> Vec<u64> {
    vec![17, 13, 11]
}

fn ciphertext() -> BgvCiphertext {
    let moduli = chain();
    let tables = BgvModSwitchTables::new(&moduli, 3);
    let components = vec![
        vec![vec![15, 10], vec![9, 6], vec![1, 4]],
        vec![vec![5, 11], vec![5, 11], vec![5, 9]],
    ];
    BgvCiphertext::new(2, 3, moduli, tables, components).unwrap()
}

/// `a · b` modulo `X^2 + 1` and `q`.
fn negmul(a: &[u64], b: &[u64], q: u64) -> Vec<u64> {
    let q = q as i128;
    let (a0, a1, b0, b1) = (a[0] as i128, a[1] as i128, b[0] as i128, b[1] as i128);
    let c0 = (a0 * b0 - a1 * b1).rem_euclid(q);
    let c1 = (a0 * b1 + a1 * b0).rem_euclid(q);
    vec![c0 as u64, c1 as u64]
}

fn add(a: &[u64], b: &[u64], q: u64) -> Vec<u64> {
    a.iter().zip(b).map(|(x, y)| (x + y) % q).collect()
}

/// The secret `1 − X` in the limb of `q`.
fn secret(q: u64) -> Vec<u64> {
    vec![1, q - 1]
}

/// A relinearization key without noise: element `i` is
/// `(−a_i · s + 256^i · s², a_i)`.
fn relinearization_key(moduli: &[u64], levels: usize) -> Vec<Vec<Vec<Vec<u64>>>> {
    (0..levels)
        .map(|i| {
            let mut b = Vec::new();
            let mut a = Vec::new();
            for &q in moduli {
                let s = secret(q);
                let s2 = negmul(&s, &s, q);
                let ai = vec![(i as u64 + 1) % q, (2 * i as u64 + 3) % q];
                let gadget = (0..i).fold(1u64, |acc, _| acc * 256 % q);
                let minus_as: Vec<u64> = negmul(&ai, &s, q).iter().map(|x| (q - x) % q).collect();
                let scaled: Vec<u64> = s2.iter().map(|x| x * gadget % q).collect();
                b.push(add(&minus_as, &scaled, q));
                a.push(ai);
            }
            vec![b, a]
        })
        .collect()
}

/// `c0 + c1 · s + c2 · s² + ...` limb by limb.
fn phase(components: &[Vec<Vec<u64>>], moduli: &[u64]) -> Vec<Vec<u64>> {
    moduli
        .iter()
        .enumerate()
        .map(|(l, &q)| {
            let s = secret(q);
            let mut power = vec![1, 0];
            let mut acc = vec![0, 0];
            for c in components {
                acc = add(&acc, &negmul(&c[l], &power, q), q);
                power = negmul(&power, &s, q);
            }
            acc
        })
        .collect()
}

#[test]
fn relinearization_keeps_the_phase() {
    let moduli = chain();
    let levels = bgv_ksw_levels(&moduli);
    assert_eq!(levels, 3);
    let key = relinearization_key(&moduli, levels);
    let ct = ciphertext();
    let product = mul_bgv(2, 3, &ct, &ct).unwrap();
    assert_eq!(product.components.len(), 3);
    let relinearized = relinearize(&product.components, &key, &moduli, 2);
    assert_eq!(relinearized.len(), 2);
    assert_eq!(phase(&relinearized, &moduli), phase(&product.components, &moduli));
    // a two-component ciphertext is left as it is
    assert_eq!(relinearize(&ct.components, &key, &moduli, 2), ct.components);
}

#[test]
fn relinearization_at_a_lower_level() {
    let moduli = chain();
    let key = relinearization_key(&moduli, 3);
    let low = mod_switch_down_bgv(2, 3, &ciphertext(), 1).unwrap();
    let product = mul_bgv(2, 3, &low, &low).unwrap();
    let relinearized = relinearize_bgv(2, 3, &moduli, &product, &key).unwrap();
    assert_eq!(relinearized.moduli, vec![17, 13]);
    assert_eq!(relinearized.components.len(), 2);
    assert_eq!(phase(&relinearized.components, &relinearized.moduli), phase(&product.components, &product.moduli));
    assert_eq!(relinearized.int_factor, product.int_factor);
    let level_key = evaluation_key_for_params(2, &moduli, &key, &vec![17, 13]).unwrap();
    assert_eq!(level_key.len(), 2);
    assert_eq!(level_key[1][0], vec![key[1][0][0].clone(), key[1][0][1].clone()]);
    let fused = mul_relinearized_bgv(2, 3, &moduli, &ciphertext(), &low, &key).unwrap();
    assert_eq!(fused.components.len(), 2);
    let direct = mul_bgv(2, 3, &ciphertext(), &low).unwrap();
    assert_eq!(phase(&fused.components, &fused.moduli), phase(&direct.components, &direct.moduli));
}

#[test]
fn evaluation_keys_are_checked() {
    let moduli = chain();
    let key = relinearization_key(&moduli, 3);
    assert_eq!(
        evaluation_key_for_params(2, &moduli, &key, &vec![17, 19]),
        Err(BgvLevelError::CiphertextModulusChainMismatch)
    );
    assert_eq!(
        evaluation_key_for_params(2, &moduli, &key[..2].to_vec(), &moduli),
        Err(BgvLevelError::EvaluationKeyLevelMismatch { expected: 3, actual: 2 })
    );
    let mut short = key.clone();
    short[0][1].pop();
    assert_eq!(
        evaluation_key_for_params(2, &moduli, &short, &vec![17, 13]),
        Err(BgvLevelError::CiphertextLimbMismatch { expected: 3, actual: 2 })
    );
    let product = mul_bgv(2, 3, &ciphertext(), &ciphertext()).unwrap();
    assert_eq!(
        relinearize_bgv(2, 3, &moduli, &product, &key[..2].to_vec()).unwrap_err(),
        BgvLevelError::EvaluationKeyLevelMismatch { expected: 3, actual: 2 }
    );
}

#[test]
fn switched_key_sums_digit_products() {
    let moduli = chain();
    let key = relinearization_key(&moduli, 3);
    let one = vec![vec![1, 0], vec![1, 0], vec![1, 0]];
    let zero = vec![vec![0, 0], vec![0, 0], vec![0, 0]];
    // digits (1, 0, 0) pick the first key element
    let (a0, a1) = switch_key_gadget_from_digits(&vec![one, zero.clone(), zero], &key, &moduli, 2);
    assert_eq!(a0, key[0][0]);
    assert_eq!(a1, key[0][1]);
}
