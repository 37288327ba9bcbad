use mozzarella::wire::Wire;
use rand::Rng;

fn gen_modulus<R: Rng>(rng: &mut R) -> u16 {
    rng.gen_range(2, 114)
}

fn digits_per_u128(q: u16) -> usize {
    (128.0 / (q as f64).log2()).ceil() as usize
}

fn rand_wire<R: Rng>(rng: &mut R, q: u16) -> Wire {
    if q == 2 {
        Wire::Mod2 { val: rng.gen::<u128>() }
    } else {
        let n = digits_per_u128(q);
        Wire::ModN { q, ds: (0..n).map(|_| rng.gen::<u16>() % q).collect() }
    }
}

fn zero(q: u16) -> Wire {
    Wire::zero(q, digits_per_u128(q))
}

#[test]
fn negation() {
    let rng = &mut rand::thread_rng();
    for _ in 0..1000 {
        let q = gen_modulus(rng);
        let x = rand_wire(rng, q);
        let xneg = x.negate();
        if q == 2 {
            assert!(x != xneg);
        }
        let y = xneg.negate();
        assert_eq!(x, y);
    }
}

#[test]
fn zero_has_zero_digits() {
    let mut rng = rand::thread_rng();
    for _ in 0..1000 {
        let q = 3 + (rng.gen::<u16>() % 110);
        let z = zero(q);
        let ds = z.digits();
        assert_eq!(ds, vec![0; ds.len()], "q={}", q);
    }
}

#[test]
fn subzero() {
    let mut rng = rand::thread_rng();
    for _ in 0..1000 {
        let q = gen_modulus(&mut rng);
        let x = rand_wire(&mut rng, q);
        let z = zero(q);
        assert_eq!(x.minus(&x), z);
    }
}

#[test]
fn pluszero() {
    let mut rng = rand::thread_rng();
    for _ in 0..1000 {
        let q = gen_modulus(&mut rng);
        let x = rand_wire(&mut rng, q);
        assert_eq!(x.plus(&zero(q)), x);
    }
}

#[test]
fn arithmetic() {
    let mut rng = rand::thread_rng();
    for _ in 0..1024 {
        let q = gen_modulus(&mut rng);
        let x = rand_wire(&mut rng, q);
        let y = rand_wire(&mut rng, q);
        assert_eq!(x.cmul(0), zero(q));
        assert_eq!(x.cmul(q), zero(q));
        assert_eq!(x.plus(&x), x.cmul(2));
        assert_eq!(x.plus(&x).plus(&x), x.cmul(3));
        assert_eq!(x.negate().negate(), x);
        if q == 2 {
            assert_eq!(x.plus(&y), x.minus(&y));
        } else {
            assert_eq!(x.plus(&x.negate()), zero(q), "q={}", q);
            assert_eq!(x.minus(&y), x.plus(&y.negate()));
        }
    }
}

#[test]
fn ndigits_correct() {
    let mut rng = rand::thread_rng();
    for _ in 0..1024 {
        let q = gen_modulus(&mut rng);
        let x = rand_wire(&mut rng, q);
        let expected = if q == 2 { 128 } else { digits_per_u128(q) };
        assert_eq!(x.digits().len(), expected);
    }
}

#[test]
fn binary_wire_digits_and_color() {
    let w = Wire::Mod2 { val: 0b1011 };
    let ds = w.digits();
    assert_eq!(ds.len(), 128);
    assert_eq!(&ds[0..5], &[1, 1, 0, 1, 0]);
    assert_eq!(w.color(), 1);
    assert_eq!(w.modulus(), 2);
    assert_eq!(w.negate(), Wire::Mod2 { val: !0b1011u128 });
}

#[test]
fn digit_wire_operations() {
    let x = Wire::ModN { q: 5, ds: vec![1, 4, 0] };
    let y = Wire::ModN { q: 5, ds: vec![3, 3, 2] };
    assert_eq!(x.color(), 1);
    assert_eq!(x.modulus(), 5);
    assert_eq!(x.plus(&y), Wire::ModN { q: 5, ds: vec![4, 2, 2] });
    assert_eq!(x.negate(), Wire::ModN { q: 5, ds: vec![4, 1, 0] });
    assert_eq!(x.minus(&y), Wire::ModN { q: 5, ds: vec![3, 1, 3] });
    assert_eq!(x.cmul(3), Wire::ModN { q: 5, ds: vec![3, 2, 0] });
    assert_eq!(Wire::zero(2, 7), Wire::Mod2 { val: 0 });
}
