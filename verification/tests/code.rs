use mozzarella::ring::r64::R64;
use mozzarella::ring::z2r_wide::Z2rU192;
use mozzarella::uint::U192;
use mozzarella::vole::cache::GenCache;
use mozzarella::vole::code::{accept_row, sort_column, LLCode};
use mozzarella::vole::extension::extend_outputs;
use rand::rngs::StdRng;
use rand::{Rng, SeedableRng};

fn random_code(rng: &mut StdRng, rows: usize, columns: usize, d: usize) -> Vec<(usize, R64)> {
    let mut entries = Vec::new();
    for _ in 0..columns {
        let mut col: Vec<(usize, R64)> = Vec::new();
        while col.len() < d {
            let r = rng.gen_range(0, rows);
            if col.iter().all(|&(x, _)| x != r) {
                col.push((r, R64(0)));
            }
        }
        for e in col.iter_mut() {
            e.1 = R64(rng.gen());
        }
        col.sort_by_key(|x| x.0);
        entries.extend(col);
    }
    entries
}

#[test]
fn code_rejects_bad_entries() {
    let entries = vec![(0usize, R64(1)), (3, R64(2))];
    assert!(LLCode::from_entries(3, 1, 2, entries.clone()).is_none());
    assert!(LLCode::from_entries(4, 1, 2, entries.clone()).is_some());
    assert!(LLCode::from_entries(4, 2, 2, entries.clone()).is_none());
    assert!(LLCode::from_entries(4, 1, 0, entries).is_none());
}

#[test]
fn code_mul_small() {
    // columns: [(0, 2), (2, 3)] and [(1, 5), (2, 7)]
    let code = LLCode::from_entries(3, 2, 2, vec![(0, R64(2)), (2, R64(3)), (1, R64(5)), (2, R64(7))]).unwrap();
    let v = vec![R64(1), R64(10), R64(100)];
    assert_eq!(code.mul(&v), vec![R64(302), R64(750)]);
    let a = vec![R64(1), R64(u64::MAX)];
    assert_eq!(code.mul_add(&v, &a), vec![R64(303), R64(749)]);
}

#[test]
fn code_keeps_correlation_r64() {
    let mut rng = StdRng::seed_from_u64(1);
    let rows = 64;
    let columns = 200;
    let d = 10;
    let code = LLCode::from_entries(rows, columns, d, random_code(&mut rng, rows, columns, d)).unwrap();
    let delta = R64(rng.gen());
    let (mut p, mut v) = GenCache::new_with_size(&mut rng, delta, rows + columns);
    let (e, c) = p.get(columns);
    let (u, w) = p.get(rows);
    let all_v = v.get(rows + columns);
    let (bv, b) = (all_v[..rows].to_vec(), all_v[rows..].to_vec());
    let x = code.mul_add(&u, &e);
    let z = code.mul_add(&w, &c);
    let y = code.mul_add(&bv, &b);
    for j in 0..columns {
        assert_eq!(z[j], x[j] * delta + y[j]);
    }
    let xu = code.mul(&u);
    let zw = code.mul(&w);
    let yv = code.mul(&bv);
    for j in 0..columns {
        assert_eq!(zw[j], xu[j] * delta + yv[j]);
    }
}

#[test]
fn code_mul_z2ru192() {
    let one = Z2rU192::<144>::from(U192::one());
    let big = Z2rU192::<144>::from(U192([u64::MAX, u64::MAX, u64::MAX]));
    let code = LLCode::from_entries(2, 1, 2, vec![(0, one), (1, big)]).unwrap();
    let v = vec![Z2rU192::<144>::from(U192::from(5u128)), Z2rU192::<144>::from(U192::from(3u128))];
    // 5 + (2^192 - 1) * 3 = 2 modulo 2^144
    assert_eq!(code.mul(&v), vec![Z2rU192::<144>::from(U192::from(2u128))]);
}

#[test]
fn accept_row_rejects_repeated_rows() {
    let mut col = [(7usize, R64(1)), (3, R64(2)), (0, R64(3)), (0, R64(4))];
    assert_eq!(accept_row(&mut col, 2, 3), 2);
    assert_eq!(col[2], (0, R64(3)));
    assert_eq!(accept_row(&mut col, 2, 5), 3);
    assert_eq!(col[2], (5, R64(3)));
    assert_eq!(accept_row(&mut col, 3, 7), 3);
    assert_eq!(accept_row(&mut col, 3, 1), 4);
    assert_eq!(col, [(7, R64(1)), (3, R64(2)), (5, R64(3)), (1, R64(4))]);
}

#[test]
fn sort_column_orders_rows_and_keeps_coefficients() {
    let mut col = [(7usize, R64(1)), (3, R64(2)), (5, R64(3)), (1, R64(4))];
    sort_column(&mut col);
    assert_eq!(col, [(1, R64(4)), (3, R64(2)), (5, R64(3)), (7, R64(1))]);
    let mut single = [(4usize, R64(9))];
    sort_column(&mut single);
    assert_eq!(single, [(4, R64(9))]);
}

#[test]
fn sort_column_keeps_the_order_of_equal_rows() {
    let mut col = [(4usize, R64(1)), (2, R64(2)), (4, R64(3)), (2, R64(4)), (0, R64(5)), (4, R64(6))];
    sort_column(&mut col);
    assert_eq!(col, [(0, R64(5)), (2, R64(2)), (2, R64(4)), (4, R64(1)), (4, R64(3)), (4, R64(6))]);
}

#[test]
fn extend_outputs_adds_the_noise_at_the_points() {
    // columns: [(0, 2), (2, 3)], [(1, 5), (2, 7)], [(0, 1), (1, 1)], [(2, 1), (1, 2)]
    let code = LLCode::from_entries(
        3,
        4,
        2,
        vec![(0, R64(2)), (2, R64(3)), (1, R64(5)), (2, R64(7)), (0, R64(1)), (1, R64(1)), (2, R64(1)), (1, R64(2))],
    )
    .unwrap();
    let u = vec![R64(1), R64(10), R64(100)];
    let w = vec![R64(2), R64(20), R64(200)];
    let e = vec![R64(1000), R64(2000), R64(3000), R64(4000)];
    let c = vec![R64(7), R64(8), R64(9), R64(u64::MAX)];
    // two single-point VOLEs of length 2: points 0 * 2 + 1 and 1 * 2 + 0
    let (x, z) = extend_outputs(&code, &u, &w, &[1, 0], 2, &e, &c);
    assert_eq!(x, vec![R64(302), R64(750 + 2000), R64(11 + 3000), R64(120)]);
    assert_eq!(z, vec![R64(604 + 7), R64(1500 + 8), R64(22 + 9), R64(239)]);
}

#[test]
fn extension_keeps_the_correlation() {
    let mut rng = StdRng::seed_from_u64(7);
    let rows = 32;
    let s = 8;
    let t = 5;
    let columns = s * t;
    let d = 6;
    let code = LLCode::from_entries(rows, columns, d, random_code(&mut rng, rows, columns, d)).unwrap();
    let delta = R64(rng.gen());
    let (mut p, mut vc) = GenCache::new_with_size(&mut rng, delta, rows);
    let (u, w) = p.get(rows);
    let v = vc.get(rows);
    let alphas: Vec<usize> = (0..t).map(|_| rng.gen_range(0, s)).collect();
    let mut e = vec![R64(0); columns];
    let mut b = vec![R64(0); columns];
    let mut c = vec![R64(0); columns];
    for j in 0..columns {
        b[j] = R64(rng.gen());
        c[j] = b[j];
    }
    for (i, &a) in alphas.iter().enumerate() {
        let j = i * s + a;
        e[j] = R64(rng.gen());
        c[j] = e[j] * delta + b[j];
    }
    let (x, z) = extend_outputs(&code, &u, &w, &alphas, s, &e, &c);
    let y = code.mul_add(&v, &b);
    for j in 0..columns {
        assert_eq!(z[j], x[j] * delta + y[j]);
    }
}
