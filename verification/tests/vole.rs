use mozzarella::prc::PseudorandomCode;
use mozzarella::ring::r64::R64;
use mozzarella::ring::z2r::Z2r;
use mozzarella::ring::Ring;
use mozzarella::vole::biased::BiasedGen;
use mozzarella::vole::cache::{CachedProver, CachedVerifier, GenCache};
use mozzarella::vole::ggm;
use mozzarella::vole::reg_vole_required;
use mozzarella::vole::utils::{prg2, unpack_bits};
use rand::rngs::StdRng;
use rand::SeedableRng;

#[test]
fn required_voles() {
    assert_eq!(reg_vole_required(400, 1), 402);
    assert_eq!(reg_vole_required(589_760, 1_319), 592_398);
}

#[test]
fn prover_cache_get_takes_from_the_end() {
    let mut c = CachedProver::init(vec![1u64, 2, 3, 4], vec![5u64, 6, 7, 8]);
    assert_eq!(c.capacity(), 4);
    let (u, w) = c.get(3);
    assert_eq!(u, vec![2, 3, 4]);
    assert_eq!(w, vec![6, 7, 8]);
    assert_eq!(c.capacity(), 1);
    assert_eq!(c.pop(), (1, 5));
    assert_eq!(c.capacity(), 0);
    c.append(vec![9, 10], vec![11, 12]);
    assert_eq!(c.pop(), (10, 12));
    assert_eq!(c.capacity(), 1);
}

#[test]
fn verifier_cache_get_copies_the_front() {
    let mut c = CachedVerifier::init(vec![1u64, 2, 3]);
    assert_eq!(c.get(2), vec![1, 2]);
    assert_eq!(c.capacity(), 3);
    assert_eq!(c.pop(), 3);
    c.append(vec![7]);
    assert_eq!(c.capacity(), 3);
    assert_eq!(c.pop(), 7);
}

#[test]
fn gen_cache_is_correlated_r64() {
    let mut rng = StdRng::seed_from_u64(42);
    let delta = R64(0x1234_5678_9abc_def0);
    let (mut p, mut v) = GenCache::new_with_size(&mut rng, delta, 50);
    assert_eq!(p.capacity(), 50);
    assert_eq!(v.capacity(), 50);
    for _ in 0..50 {
        let (u, w) = p.pop();
        let b = v.pop();
        assert_eq!(w, u * delta + b);
    }
}

#[test]
fn gen_cache_new_is_correlated_z2r() {
    let mut rng = StdRng::seed_from_u64(7);
    let delta = Z2r::<104>::from(0xdead_beef_u128 << 70);
    let (mut p, mut v) = GenCache::new::<Z2r<104>, 5, 3>(&mut rng, delta);
    assert_eq!(p.capacity(), 11);
    assert_eq!(v.capacity(), 11);
    for _ in 0..11 {
        let (u, w) = p.pop();
        let b = v.pop();
        assert!(w.ring_eq(&u.ring_mul(delta).ring_add(b)));
        assert_eq!(w, u * delta + b);
    }
}

#[test]
fn biased_gen_sequence() {
    let mut g = BiasedGen::new(3 | (5u128 << 64), 10);
    assert_eq!(g.next(), 3);
    assert_eq!(g.next(), 9);
    assert_eq!(g.next(), 7);
    assert_eq!(g.next(), 1);
}

#[test]
fn biased_gen_wraps() {
    let x = 0xffff_ffff_ffff_fffdu64;
    let mut g = BiasedGen::new(x as u128, u64::MAX);
    assert_eq!(g.next(), x % u64::MAX);
    assert_eq!(g.next(), x.wrapping_mul(x) % u64::MAX);
}

#[test]
fn prg2_adds_the_seed() {
    assert_eq!(prg2(5, 7), (5, 12));
    assert_eq!(prg2(u128::MAX, 2), (u128::MAX, 1));
}

#[test]
fn unpack_bits_most_significant_first() {
    assert_eq!(unpack_bits::<4>(0b1011), [true, false, true, true]);
    assert_eq!(unpack_bits::<3>(1), [false, false, true]);
    assert_eq!(unpack_bits::<1>(0), [false]);
}

#[test]
fn ggm_parties_and_code() {
    let _r = ggm::Receiver::init();
    let _s = ggm::Sender::init();
    let _c = PseudorandomCode::new(1, 2, 3, 4);
}
