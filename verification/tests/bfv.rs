use silent_fhe::schemes::bfv::crypto::compute_delta;
use silent_fhe::schemes::bfv::params::{resolve_mul_method, BfvMulMethod};
use silent_fhe::schemes::bfv::scheme::BfvScheme;

#[test]
fn delta_residues_match_floor_q_over_t() {
    let q = vec![97u64, 193, 257];
    let t = 17u64;
    let big_q: u128 = 97 * 193 * 257;
    let delta = big_q / t as u128;
    let got = compute_delta(&q, t);
    let expected: Vec<u64> = q.iter().map(|&qi| (delta % qi as u128) as u64).collect();
    assert_eq!(got, expected);
    for (i, &qi) in q.iter().enumerate() {
        // Δ·t + (Q mod t) ≡ 0 (mod q_i)
        let lhs = (got[i] as u128 * t as u128 + big_q % t as u128) % qi as u128;
        assert_eq!(lhs, 0);
    }
}

#[test]
fn delta_with_large_word_primes() {
    let q = vec![0xffff_ffff_0000_0001u64, 0x7fff_ffff_e000_0001];
    let t = 65537u64;
    let got = compute_delta(&q, t);
    for (i, &qi) in q.iter().enumerate() {
        let qi = qi as u128;
        let other = q[1 - i] as u128;
        // Q = q_i · other; (Δ·t + Q mod t) ≡ 0 (mod q_i) with Q mod t = (q_i mod t)(other mod t) mod t
        let q_mod_t = ((qi % t as u128) * (other % t as u128)) % t as u128;
        assert_eq!((got[i] as u128 * t as u128 + q_mod_t) % qi, 0);
    }
    assert_eq!(compute_delta(&vec![], 17), Vec::<u64>::new());
}

#[test]
fn multiplication_method_default_and_overrides() {
    assert_eq!(BfvMulMethod::default(), BfvMulMethod::HpsPoverq);
    let configured = BfvMulMethod::Hps;
    assert_eq!(resolve_mul_method(None, configured), BfvMulMethod::Hps);
    assert_eq!(resolve_mul_method(Some(b"BEHZ".as_slice()), configured), BfvMulMethod::Behz);
    assert_eq!(resolve_mul_method(Some(b"hps".as_slice()), BfvMulMethod::Behz), BfvMulMethod::Hps);
    assert_eq!(resolve_mul_method(Some(b"Hps_PoverQ".as_slice()), configured), BfvMulMethod::HpsPoverq);
    assert_eq!(resolve_mul_method(Some(b"hpspoverq".as_slice()), configured), BfvMulMethod::HpsPoverq);
    assert_eq!(
        resolve_mul_method(Some(b"hps_poverq_leveled".as_slice()), configured),
        BfvMulMethod::HpsPoverqLeveled
    );
    assert_eq!(
        resolve_mul_method(Some(b"HPSPOVERQLEVELED".as_slice()), configured),
        BfvMulMethod::HpsPoverqLeveled
    );
    assert_eq!(
        resolve_mul_method(Some(b"hpspoverq_leveled".as_slice()), configured),
        BfvMulMethod::HpsPoverqLeveled
    );
    assert_eq!(resolve_mul_method(Some(b"karatsuba".as_slice()), configured), BfvMulMethod::Hps);
    assert_eq!(resolve_mul_method(Some(b"".as_slice()), BfvMulMethod::Behz), BfvMulMethod::Behz);
}

#[test]
fn bfv_scheme_name() {
    assert_eq!(BfvScheme.name(), "BFV");
}
