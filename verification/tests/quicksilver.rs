use mozzarella::quicksilver::{prover_check_multiply, verifier_check_multiply};
use mozzarella::ring::r64::R64;
use mozzarella::vole::spvole::{stage_5_computation_helper, BatchedVerifier};
use rand::rngs::StdRng;
use rand::{Rng, SeedableRng};

fn r(rng: &mut StdRng) -> R64 {
    R64(rng.gen())
}

#[allow(clippy::type_complexity)]
fn triples_and_keys(
    rng: &mut StdRng,
    delta: R64,
    n: usize,
) -> (Vec<((R64, R64), (R64, R64), (R64, R64))>, Vec<(R64, R64, R64)>) {
    let mut triples = Vec::new();
    let mut keys = Vec::new();
    for _ in 0..n {
        let (wa, wb) = (r(rng), r(rng));
        let wg = wa * wb;
        let (ka, kb, kg) = (r(rng), r(rng), r(rng));
        triples.push(((wa, ka + wa * delta), (wb, kb + wb * delta), (wg, kg + wg * delta)));
        keys.push((ka, kb, kg));
    }
    (triples, keys)
}

#[test]
fn multiplication_check_accepts_correct_triples() {
    let mut rng = StdRng::seed_from_u64(7);
    let delta = r(&mut rng);
    let (triples, keys) = triples_and_keys(&mut rng, delta, 20);
    let chis: Vec<R64> = (0..20).map(|_| r(&mut rng)).collect();
    let (a1, b) = (r(&mut rng), r(&mut rng));
    let a0 = b + a1 * delta;
    let (u, v) = prover_check_multiply(&chis, &triples, (a1, a0));
    assert!(verifier_check_multiply(&chis, &keys, delta, b, u, v));
}

#[test]
fn multiplication_check_rejects_a_wrong_product() {
    let mut rng = StdRng::seed_from_u64(8);
    let delta = r(&mut rng);
    let (mut triples, keys) = triples_and_keys(&mut rng, delta, 5);
    let t = triples[2];
    let wg = t.2 .0 + R64(1);
    triples[2] = (t.0, t.1, (wg, keys[2].2 + wg * delta));
    let chis: Vec<R64> = vec![R64(1); 5];
    let (a1, b) = (r(&mut rng), r(&mut rng));
    let a0 = b + a1 * delta;
    let (u, v) = prover_check_multiply(&chis, &triples, (a1, a0));
    assert!(!verifier_check_multiply(&chis, &keys, delta, b, u, v));
}

#[test]
fn multiplication_check_single_triple_values() {
    // chi = 3, m_alpha = 5, m_beta = 7, w_alpha = 2, w_beta = 4, m_gamma = 6
    let triples = vec![((R64(2), R64(5)), (R64(4), R64(7)), (R64(8), R64(6)))];
    let chis = vec![R64(3)];
    let (u, v) = prover_check_multiply(&chis, &triples, (R64(10), R64(100)));
    assert_eq!(u, R64(3 * 35 + 100));
    assert_eq!(v, R64(3 * (4 * 5 + 2 * 7 - 6) + 10));
}

#[test]
fn spvole_stage_5_fixes_alpha_and_sums_the_chosen_entries() {
    let mut out_w = vec![R64(10), R64(20), R64(999), R64(40)];
    let chi = vec![true, false, true, true];
    let (x_star, vp) = stage_5_computation_helper(&mut out_w, (R64(3), R64(5)), 2, R64(1000), R64(100), &chi, R64(50));
    // entry 2 becomes delta - d - (10 + 20 + 40)
    assert_eq!(out_w, vec![R64(10), R64(20), R64(830), R64(40)]);
    assert_eq!(x_star, R64(47));
    assert_eq!(vp, R64(10 + 830 + 40 - 5));
    let chi2 = vec![true, false, false, true];
    let (x_star2, _) = stage_5_computation_helper(&mut out_w, (R64(3), R64(5)), 2, R64(1000), R64(100), &chi2, R64(50));
    assert_eq!(x_star2, R64(0u64.wrapping_sub(3)));
}

#[test]
fn spvole_verifier_stage_5_sums_the_chosen_entries() {
    let out_v = vec![R64(10), R64(20), R64(30), R64(u64::MAX)];
    let chi = vec![true, false, true, true];
    let mut vv = R64(12345);
    BatchedVerifier::stage_5_computation_helper(4, &out_v, &chi, &mut vv);
    assert_eq!(vv, R64(39));
    let none = vec![false; 4];
    BatchedVerifier::stage_5_computation_helper(4, &out_v, &none, &mut vv);
    assert_eq!(vv, R64(0));
}

#[test]
fn spvole_honest_run_passes_the_check() {
    let mut rng = StdRng::seed_from_u64(11);
    let n = 16;
    for alpha in [0usize, 5, 15] {
        for chi_alpha in [false, true] {
            let delta = r(&mut rng);
            let v: Vec<R64> = (0..n).map(|_| r(&mut rng)).collect();
            // base VOLEs: c = a delta + b and z = x delta + y*
            let (a, b) = (r(&mut rng), r(&mut rng));
            let c = a * delta + b;
            let (x, y_star) = (r(&mut rng), r(&mut rng));
            let z = x * delta + y_star;
            let beta = r(&mut rng);
            // the verifier's d = gamma - sum v, with gamma = b - delta (beta - a)
            let gamma = b - delta * (beta - a);
            let d = gamma - v.iter().fold(R64(0), |s, &t| s + t);
            // the prover's GGM outputs agree with v away from alpha
            let mut w = v.clone();
            w[alpha] = r(&mut rng);
            let mut chi: Vec<bool> = (0..n).map(|_| rng.gen()).collect();
            chi[alpha] = chi_alpha;
            let (x_star, vp) = stage_5_computation_helper(&mut w, (x, z), alpha, c, d, &chi, beta);
            let mut vv = R64(0);
            BatchedVerifier::stage_5_computation_helper(n, &v, &chi, &mut vv);
            assert_eq!(vp, vv - (y_star - delta * x_star));
            assert_eq!(w[alpha], v[alpha] + beta * delta);
        }
    }
}
