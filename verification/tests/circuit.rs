use mozzarella::circuit::Builder;
use rand::Rng;

const PRIMES: [u16; 8] = [3, 5, 7, 11, 13, 17, 19, 23];

fn gen_prime<R: Rng>(rng: &mut R) -> u16 {
    PRIMES[rng.gen_range(0, PRIMES.len())]
}

fn gen_modulus<R: Rng>(rng: &mut R) -> u16 {
    rng.gen_range(2, 114)
}

fn u128_to_bits(x: u128, n: usize) -> Vec<u16> {
    (0..n).map(|i| ((x >> i) & 1) as u16).collect()
}

fn u128_from_bits(bits: &[u16]) -> u128 {
    let mut x = 0u128;
    for (i, &b) in bits.iter().enumerate() {
        x |= (b as u128) << i;
    }
    x
}

fn padded_base_q(x: u128, q: u16, n: usize) -> Vec<u16> {
    let mut ds = Vec::with_capacity(n);
    let mut x = x;
    for _ in 0..n {
        ds.push((x % q as u128) as u16);
        x /= q as u128;
    }
    ds
}

fn from_base_q(ds: &[u16], q: u16) -> u128 {
    let mut x = 0u128;
    for &d in ds.iter().rev() {
        x = x * q as u128 + d as u128;
    }
    x
}

#[test]
fn and_gate_fan_n() {
    let mut rng = rand::thread_rng();
    let mut b = Builder::new();
    let mut inps = Vec::new();
    let n = 2 + (rng.gen::<u8>() % 200) as usize;
    for _ in 0..n {
        inps.push(b.input(2));
    }
    let z = b.and_many(&inps);
    b.output(z);
    let c = b.finish();

    for _ in 0..16 {
        let mut inps: Vec<u16> = Vec::new();
        for _ in 0..n {
            inps.push(rng.gen::<bool>() as u16);
        }
        let res = inps.iter().fold(1, |acc, &x| x & acc);
        assert_eq!(c.eval(&inps)[0], res);
    }
}

#[test]
fn or_gate_fan_n() {
    let mut rng = rand::thread_rng();
    let mut b = Builder::new();
    let mut inps = Vec::new();
    let n = 2 + (rng.gen::<u8>() % 200) as usize;
    for _ in 0..n {
        inps.push(b.input(2));
    }
    let z = b.or_many(&inps);
    b.output(z);
    let c = b.finish();

    for _ in 0..16 {
        let mut inps: Vec<u16> = Vec::new();
        for _ in 0..n {
            inps.push(rng.gen::<bool>() as u16);
        }
        let res = inps.iter().fold(0, |acc, &x| x | acc);
        let out = c.eval(&inps)[0];
        assert_eq!(out, res, "{:?}", inps);
    }
}

#[test]
fn half_gate() {
    let mut rng = rand::thread_rng();
    let mut b = Builder::new();
    let q = gen_prime(&mut rng);
    let x = b.input(q);
    let y = b.input(q);
    let z = b.half_gate(x, y);
    b.output(z);
    let c = b.finish();
    for _ in 0..16 {
        let x = rng.gen::<u16>() % q;
        let y = rng.gen::<u16>() % q;
        assert_eq!(c.eval(&vec![x, y])[0], x * y % q);
    }
}

#[test]
fn mod_change() {
    let mut rng = rand::thread_rng();
    let mut b = Builder::new();
    let p = gen_prime(&mut rng);
    let q = gen_prime(&mut rng);
    let x = b.input(p);
    let y = b.mod_change(x, q);
    let z = b.mod_change(y, p);
    b.output(z);
    let c = b.finish();
    for _ in 0..16 {
        let x = rng.gen::<u16>() % p;
        assert_eq!(c.eval(&vec![x])[0], x % q);
    }
}

#[test]
fn binary_addition() {
    let mut b = Builder::new();
    let xs = b.inputs(128, 2);
    let ys = b.inputs(128, 2);
    let (zs, c) = b.addition(&xs, &ys);
    b.outputs(&zs);
    b.output(c);
    let c = b.finish();
    let mut rng = rand::thread_rng();
    for _ in 0..16 {
        let x = rng.gen::<u128>();
        let y = rng.gen::<u128>();
        let mut bits = u128_to_bits(x, 128);
        bits.extend(u128_to_bits(y, 128).iter());
        let res = c.eval(&bits);
        let (z, carry) = x.overflowing_add(y);
        assert_eq!(u128_from_bits(&res[0..128]), z);
        assert_eq!(res[128], carry as u16);
    }
}

#[test]
fn binary_addition_no_carry() {
    let mut b = Builder::new();
    let xs = b.inputs(128, 2);
    let ys = b.inputs(128, 2);
    let zs = b.addition_no_carry(&xs, &ys);
    b.outputs(&zs);
    let c = b.finish();
    let mut rng = rand::thread_rng();
    for _ in 0..16 {
        let x = rng.gen::<u128>();
        let y = rng.gen::<u128>();
        let mut bits = u128_to_bits(x, 128);
        bits.extend(u128_to_bits(y, 128).iter());
        let res = c.eval(&bits);
        let (z, _carry) = x.overflowing_add(y);
        assert_eq!(u128_from_bits(&res[0..128]), z);
    }
}

#[test]
fn binary_subtraction() {
    let mut b = Builder::new();
    let xs = b.inputs(128, 2);
    let ys = b.inputs(128, 2);
    let (zs, c) = b.binary_subtraction(&xs, &ys);
    b.outputs(&zs);
    b.output(c);
    let (circ, consts) = b.finish_full();
    let mut rng = rand::thread_rng();
    for _ in 0..16 {
        let x = rng.gen::<u128>();
        let y = rng.gen::<u128>();
        let mut bits = u128_to_bits(x, 128);
        bits.extend(u128_to_bits(y, 128).iter());
        let res = circ.eval_full(&bits, &consts);
        let (z, carry) = x.overflowing_sub(y);
        assert_eq!(u128_from_bits(&res[0..128]), z);
        assert_eq!(res[128], carry as u16);
    }
}

#[test]
fn add_many_mod_change() {
    let mut b = Builder::new();
    let n = 113;
    let args = b.inputs(n, 2);
    let wires: Vec<_> = args.iter().map(|&x| b.mod_change(x, n as u16 + 1)).collect();
    let s = b.add_many(&wires);
    b.output(s);
    let c = &b.finish();

    let mut rng = rand::thread_rng();
    for _ in 0..64 {
        let inps: Vec<u16> = (0..c.ninputs()).map(|i| rng.gen::<u16>() % c.input_mod(i)).collect();
        let s: u16 = inps.iter().sum();
        assert_eq!(c.eval(&inps)[0], s);
    }
}

#[test]
fn base_q_addition_no_carry() {
    let mut b = Builder::new();
    let mut rng = rand::thread_rng();

    let q = gen_modulus(&mut rng);
    let n = 16;
    let xs = b.inputs(n, q);
    let ys = b.inputs(n, q);
    let zs = b.addition_no_carry(&xs, &ys);
    b.outputs(&zs);
    let c = b.finish();

    // test maximum overflow
    let big_q = (q as u128).pow(n as u32);
    let x = big_q - 1;
    let y = big_q - 1;
    let mut ds = padded_base_q(x, q, n);
    ds.extend(padded_base_q(y, q, n).iter());
    let res = c.eval(&ds);
    let (z, _carry) = x.overflowing_add(y);
    assert_eq!(from_base_q(&res, q), z % big_q);

    // test random values
    for _ in 0..64 {
        let x = rng.gen::<u128>() % big_q;
        let y = rng.gen::<u128>() % big_q;
        let mut ds = padded_base_q(x, q, n);
        ds.extend(padded_base_q(y, q, n).iter());
        let res = c.eval(&ds);
        let (z, _carry) = x.overflowing_add(y);
        assert_eq!(from_base_q(&res, q), z % big_q);
    }
}

#[test]
fn constants() {
    let mut b = Builder::new();
    let mut rng = rand::thread_rng();

    let q = gen_modulus(&mut rng);
    let c = rng.gen::<u16>() % q;

    let x = b.input(q);
    let y = b.constant(c, q);
    let z = b.add(x, y);
    b.output(z);

    let circ = b.finish();

    for _ in 0..64 {
        let x = rng.gen::<u16>() % q;
        let z = circ.eval_full(&[x], &[c]);
        assert_eq!(z[0], (x + c) % q);
    }
}

#[test]
fn constant_is_created_once() {
    let mut b = Builder::new();
    let x = b.constant(3, 5);
    let y = b.constant(3, 5);
    let z = b.constant(4, 5);
    assert_eq!(x, y);
    assert_ne!(x, z);
    assert_eq!(b.borrow_consts(), &[3u16, 4u16][..]);
    assert_eq!(b.borrow_circ().gates.len(), 2);
}

#[test]
fn sub_and_cmul_evaluate() {
    let mut b = Builder::new();
    let x = b.input(7);
    let y = b.input(7);
    let d = b.sub(x, y);
    let e = b.cmul(x, 3);
    b.outputs(&[d, e]);
    assert_eq!(b.modulus(d), 7);
    let c = b.finish();
    assert_eq!(c.ninputs(), 2);
    assert_eq!(c.input_mod(1), 7);
    assert_eq!(c.eval(&[2, 5]), vec![4, 6]);
}

#[test]
fn yao_and_negate_evaluate() {
    let mut b = Builder::new();
    let x = b.input(2);
    let y = b.input(3);
    let z = b.yao(x, y, 4, vec![vec![0, 1, 2], vec![3, 2, 1]]);
    let n = b.negate(x);
    let t = b.xor(x, n);
    let a = b.and(x, n);
    b.outputs(&[z, n, t, a]);
    let c = b.finish();
    assert_eq!(c.eval(&[1, 2]), vec![1, 0, 1, 0]);
    assert_eq!(c.eval(&[0, 1]), vec![1, 1, 1, 0]);
}

#[test]
fn twos_complement_of_one_bit_gives_two_wires() {
    let mut b = Builder::new();
    let x = b.input(2);
    let zs = b.twos_complement(&[x]);
    assert_eq!(zs.len(), 2);
    b.outputs(&zs);
    let (c, consts) = b.finish_full();
    // the sum bit of not(x) + 1 is x; the plain sum not(x) + 1 + carry is 1 modulo 2
    assert_eq!(c.eval_full(&[1], &consts), vec![1, 1]);
    assert_eq!(c.eval_full(&[0], &consts), vec![0, 1]);
}

#[test]
fn twos_complement_of_small_numbers() {
    let mut b = Builder::new();
    let xs = b.inputs(8, 2);
    let zs = b.twos_complement(&xs);
    b.outputs(&zs);
    let (circ, consts) = b.finish_full();
    for x in [0u128, 1, 2, 5, 127, 128, 255] {
        let res = circ.eval_full(&u128_to_bits(x, 8), &consts);
        assert_eq!(u128_from_bits(&res), (256 - x) % 256);
    }
}

#[test]
fn binary_subtraction_small_values() {
    let mut b = Builder::new();
    let xs = b.inputs(4, 2);
    let ys = b.inputs(4, 2);
    let (zs, c) = b.binary_subtraction(&xs, &ys);
    b.outputs(&zs);
    b.output(c);
    let (circ, consts) = b.finish_full();
    let cases: [(u128, u128, u128, u16); 5] = [(9, 4, 5, 0), (4, 9, 11, 1), (7, 7, 0, 0), (0, 1, 15, 1), (6, 0, 6, 0)];
    for (x, y, z, borrow) in cases {
        let mut bits = u128_to_bits(x, 4);
        bits.extend(u128_to_bits(y, 4).iter());
        let res = circ.eval_full(&bits, &consts);
        assert_eq!(u128_from_bits(&res[0..4]), z);
        assert_eq!(res[4], borrow);
    }
}

#[test]
fn binary_subtraction_of_zero_reports_no_borrow() {
    let mut b = Builder::new();
    let xs = b.inputs(128, 2);
    let ys = b.inputs(128, 2);
    let (zs, c) = b.binary_subtraction(&xs, &ys);
    b.outputs(&zs);
    b.output(c);
    let (circ, consts) = b.finish_full();
    for x in [0u128, 1, 0xdead_beef, u128::MAX] {
        let mut bits = u128_to_bits(x, 128);
        bits.extend(u128_to_bits(0, 128).iter());
        let res = circ.eval_full(&bits, &consts);
        let (z, carry) = x.overflowing_sub(0);
        assert_eq!(u128_from_bits(&res[0..128]), z);
        assert_eq!(res[128], carry as u16);
    }
}

#[test]
fn constant_cache_survives_other_constants() {
    let mut b = Builder::new();
    let r1 = b.constant(1, 2);
    let r2 = b.constant(0, 2);
    let r3 = b.constant(1, 2);
    let r4 = b.constant(1, 3);
    assert_eq!((r1, r2, r3, r4), (0, 1, 0, 2));
    assert_eq!(b.borrow_consts(), &[1u16, 0, 1][..]);
    assert_eq!(b.borrow_circ().moduli, vec![2, 2, 3]);
}

#[test]
fn inputs_get_consecutive_wires_and_their_modulus() {
    let mut b = Builder::new();
    b.input(2);
    let rs = b.inputs(2, 7);
    b.constant(3, 5);
    b.input(11);
    assert_eq!(rs, vec![1, 2]);
    let c = b.finish();
    assert_eq!(c.ninputs(), 4);
    assert_eq!(c.input_mod(0), 2);
    assert_eq!(c.input_mod(1), 7);
    assert_eq!(c.input_mod(2), 7);
    assert_eq!(c.input_mod(3), 11);
    assert_eq!(c.moduli, vec![2, 7, 7, 5, 11]);
}
