use mozzarella::ring::z2r::Z2r;
use mozzarella::ring::z2r_wide::Z2rU192;
use mozzarella::ring::Ring;
use mozzarella::uint::U192;
use rand::rngs::OsRng;
use rand::Rng;

type R104 = Z2r<104>;
type R144_192 = Z2rU192<144>;

const MOD_104: u128 = 1 << 104;
const MOD_144_192: U192 = U192([0x0000000000000000, 0x0000000000000000, 0x10000]);

#[test]
fn test_z2ru128_constants() {
    assert_eq!(R104::default(), R104::from(0u128));
    assert_eq!(R104::zero(), R104::from(0u128));
    assert_eq!(R104::one(), R104::from(1u128));
}

#[test]
fn test_z2ru128_add() {
    let a: u128 = OsRng.gen_range(0, MOD_104);
    let b: u128 = OsRng.gen_range(0, MOD_104);
    let c = a.wrapping_add(b);
    let z_a = R104::from(a);
    let z_b = R104::from(b);
    let z_c = R104::from(c);
    assert_eq!(z_a + z_b, z_c);
}

#[test]
fn test_z2ru128_add_assign() {
    let a: u128 = OsRng.gen_range(0, MOD_104);
    let b: u128 = OsRng.gen_range(0, MOD_104);
    let c = a.wrapping_add(b);
    let mut z_a = R104::from(a);
    let z_b = R104::from(b);
    z_a += z_b;
    let z_c = R104::from(c);
    assert_eq!(z_a, z_c);
}

#[test]
fn test_z2ru128_sub() {
    let a: u128 = OsRng.gen_range(0, MOD_104);
    let b: u128 = OsRng.gen_range(0, MOD_104);
    let c = a.wrapping_sub(b);
    let z_a = R104::from(a);
    let z_b = R104::from(b);
    let z_c = R104::from(c);
    assert_eq!(z_a - z_b, z_c);
}

#[test]
fn test_z2ru128_sub_assign() {
    let a: u128 = OsRng.gen_range(0, MOD_104);
    let b: u128 = OsRng.gen_range(0, MOD_104);
    let c = a.wrapping_sub(b);
    let mut z_a = R104::from(a);
    let z_b = R104::from(b);
    z_a -= z_b;
    let z_c = R104::from(c);
    assert_eq!(z_a, z_c);
}

#[test]
fn test_z2ru128_mul() {
    let a: u128 = OsRng.gen_range(0, MOD_104);
    let b: u128 = OsRng.gen_range(0, MOD_104);
    let c = a.wrapping_mul(b);
    let z_a = R104::from(a);
    let z_b = R104::from(b);
    let z_c = R104::from(c);
    assert_eq!(z_a * z_b, z_c);
}

#[test]
fn test_z2ru128_mul_assign() {
    let a: u128 = OsRng.gen_range(0, MOD_104);
    let b: u128 = OsRng.gen_range(0, MOD_104);
    let c = a.wrapping_mul(b);
    let mut z_a = R104::from(a);
    let z_b = R104::from(b);
    z_a *= z_b;
    let z_c = R104::from(c);
    assert_eq!(z_a, z_c);
}

#[test]
fn test_z2ru128_neg() {
    let a: u128 = OsRng.gen_range(0, MOD_104);
    let b = a.wrapping_neg();
    let z_a = R104::from(a);
    let z_b = R104::from(b);
    assert_eq!(-z_a, z_b);
}

#[test]
fn test_z2ru128_sum() {
    let bs: [u128; 32] = OsRng.gen();
    let mut z_bs = [R104::default(); 32];
    for i in 0..32 {
        z_bs[i] = R104::from(bs[i]);
    }
    let sum_bs = {
        let mut s = 0u128;
        for b in bs {
            s = s.wrapping_add(b);
        }
        s
    };
    let sum_z_bs: R104 = R104::sum(&z_bs);
    assert_eq!(sum_z_bs, R104::from(sum_bs));
}

#[test]
fn test_z2ru128_eq() {
    let a: u128 = OsRng.gen_range(0, MOD_104);
    let b = a + MOD_104;
    let z_a = R104::from(a);
    let z_b = R104::from(b);
    assert_eq!(z_a, z_b);
}

#[test]
fn test_z2ru128_reduce() {
    let a: u128 = OsRng.gen_range(0, MOD_104);
    let b = a + MOD_104;
    let z_a = R104::from(a);
    let z_b = R104::from(b);
    assert!(z_a.is_reduced());
    assert!(z_b.reduce().is_reduced());
    assert!(z_b.reduce() == z_a);
}

#[test]
fn test_z2ru128_reduce_to() {
    let a: u128 = OsRng.gen_range(0, MOD_104);
    let b = a % (1 << 40);
    let z_a = R104::from(a);
    let z_b = R104::from(b);
    assert_eq!(z_a.reduce_to::<40>(), z_b);
    assert!(z_a.reduce_to::<40>().is_reduced_to::<40>());
    assert!(z_b.is_reduced_to::<40>());
}

#[test]
fn test_z2ru192_constants() {
    assert_eq!(MOD_144_192, U192::one() << 144u32);
    assert_eq!(R144_192::bit_mask().0[0], 0xffffffffffffffff);
    assert_eq!(R144_192::bit_mask().0[1], 0xffffffffffffffff);
    assert_eq!(R144_192::bit_mask().0[2], 0x000000000000ffff);
    assert_eq!(R144_192::default(), R144_192::from(U192::zero()));
    assert_eq!(R144_192::zero(), R144_192::from(U192::zero()));
    assert_eq!(R144_192::one(), R144_192::from(U192::one()));
}

#[test]
fn test_z2ru192_add() {
    let a = U192([0x0322514fafb44d65, 0x02d477448c5a3aff, 0x3d532b96a2634c54]);
    let b = U192([0x9720cfadd82d0932, 0x5ec1fdbbbb0c144a, 0xddd475bf0f773b7f]);
    let c = U192([0x9a4320fd87e15697, 0x6196750047664f49, 0x1b27a155b1da87d3]);
    assert_eq!(a + b, c);
    let z_a = R144_192::from(a);
    let z_b = R144_192::from(b);
    let z_c = R144_192::from(c);
    assert_eq!(z_a + z_b, z_c);
}

#[test]
fn test_z2ru192_add_assign() {
    let a = U192([0x0322514fafb44d65, 0x02d477448c5a3aff, 0x3d532b96a2634c54]);
    let b = U192([0x9720cfadd82d0932, 0x5ec1fdbbbb0c144a, 0xddd475bf0f773b7f]);
    let c = U192([0x9a4320fd87e15697, 0x6196750047664f49, 0x1b27a155b1da87d3]);
    let mut z_a = R144_192::from(a);
    let z_b = R144_192::from(b);
    z_a += z_b;
    let z_c = R144_192::from(c);
    assert_eq!(z_a, z_c);
}

#[test]
fn test_z2ru192_sub() {
    let a = U192([0x0322514fafb44d65, 0x02d477448c5a3aff, 0x3d532b96a2634c54]);
    let b = U192([0x9720cfadd82d0932, 0x5ec1fdbbbb0c144a, 0xddd475bf0f773b7f]);
    let c = U192([0x6c0181a1d7874433, 0xa4127988d14e26b4, 0x5f7eb5d792ec10d4]);
    let d = U192([0x93fe7e5e2878bbcd, 0x5bed86772eb1d94b, 0xa0814a286d13ef2b]);
    assert_eq!(a - b, c);
    assert_eq!(b - a, d);
    let z_a = R144_192::from(a);
    let z_b = R144_192::from(b);
    let z_c = R144_192::from(c);
    let z_d = R144_192::from(d);
    assert_eq!(z_a - z_b, z_c);
    assert_eq!(z_b - z_a, z_d);
}

#[test]
fn test_z2ru192_sub_assign() {
    let a = U192([0x0322514fafb44d65, 0x02d477448c5a3aff, 0x3d532b96a2634c54]);
    let b = U192([0x9720cfadd82d0932, 0x5ec1fdbbbb0c144a, 0xddd475bf0f773b7f]);
    let c = U192([0x6c0181a1d7874433, 0xa4127988d14e26b4, 0x5f7eb5d792ec10d4]);
    let d = U192([0x93fe7e5e2878bbcd, 0x5bed86772eb1d94b, 0xa0814a286d13ef2b]);
    let z_a = R144_192::from(a);
    let z_b = R144_192::from(b);
    let mut z_x = z_a;
    z_x -= z_b;
    let mut z_y = z_b;
    z_y -= z_a;
    let z_c = R144_192::from(c);
    let z_d = R144_192::from(d);
    assert_eq!(z_x, z_c);
    assert_eq!(z_y, z_d);
}

#[test]
fn test_z2ru192_mul() {
    let a = U192([0x0322514fafb44d65, 0x02d477448c5a3aff, 0x3d532b96a2634c54]);
    let b = U192([0x9720cfadd82d0932, 0x5ec1fdbbbb0c144a, 0xddd475bf0f773b7f]);
    let c = U192([0x1fdeaafd7ab0aaba, 0x00423b9a6f9af3dd, 0x62fd92e49acb19a6]);
    assert_eq!(a * b, c);
    let z_a = R144_192::from(a);
    let z_b = R144_192::from(b);
    let z_c = R144_192::from(c);
    assert_eq!(z_a * z_b, z_c);
}

#[test]
fn test_z2ru192_mul_assign() {
    let a = U192([0x0322514fafb44d65, 0x02d477448c5a3aff, 0x3d532b96a2634c54]);
    let b = U192([0x9720cfadd82d0932, 0x5ec1fdbbbb0c144a, 0xddd475bf0f773b7f]);
    let c = U192([0x1fdeaafd7ab0aaba, 0x00423b9a6f9af3dd, 0x62fd92e49acb19a6]);
    let mut z_a = R144_192::from(a);
    let z_b = R144_192::from(b);
    z_a *= z_b;
    let z_c = R144_192::from(c);
    assert_eq!(z_a, z_c);
}

#[test]
fn test_z2ru192_neg() {
    let a = U192([0x0322514fafb44d65, 0x02d477448c5a3aff, 0x3d532b96a2634c54]);
    let b = U192([0xfcddaeb0504bb29b, 0xfd2b88bb73a5c500, 0xc2acd4695d9cb3ab]);
    assert_eq!(b, U192::zero() - a);
    let z_a = R144_192::from(a);
    let z_b = R144_192::from(b);
    assert_eq!(1u128.overflowing_neg().0, 0u128.overflowing_sub(1u128).0);
    assert_eq!(-z_a, z_b);
    assert_eq!(-R144_192::zero(), R144_192::zero());
    assert_eq!(-R144_192::one(), R144_192::zero() - R144_192::one());
}

#[test]
fn test_z2ru192_sum() {
    let mut bs = [U192::zero(); 32];
    let mut z_bs = [R144_192::default(); 32];
    for i in 0..32 {
        bs[i] = U192(OsRng.gen::<[u64; 3]>());
        z_bs[i] = R144_192::from(bs[i]);
    }
    let sum_bs = {
        let mut s = U192::zero();
        for b in bs {
            s = s + b;
        }
        s
    };
    let sum_z_bs: R144_192 = R144_192::sum(&z_bs);
    assert_eq!(sum_z_bs, R144_192::from(sum_bs));
}

#[test]
fn test_z2ru192_eq() {
    let a = U192([0x0322514fafb44d65, 0x02d477448c5a3aff, 0x3d532b96a2634c54]);
    let b = U192([0x0322514fafb44d65, 0x02d477448c5a3aff, 0x0000000000004c54]);
    let c = U192([0x0322514fafb44d65, 0x02d477448c5a3aff, 0x0000000000014c54]);
    let d = U192([0x0322514fafb44d65, 0x02d477448c5a3aff, 0xffffffffffff4c54]);
    let x = U192([0x0322514fafb44d66, 0x02d477448c5a3aff, 0x3d532b96a2634c54]);
    let y = U192([0x0322514fafb44d64, 0x02d477448c5a3aff, 0x3d532b96a2634c54]);
    let z_a = R144_192::from(a);
    let z_b = R144_192::from(b);
    let z_c = R144_192::from(c);
    let z_d = R144_192::from(d);
    let z_x = R144_192::from(x);
    let z_y = R144_192::from(y);
    assert_eq!(z_a, z_b);
    assert_eq!(z_a, z_c);
    assert_eq!(z_a, z_d);
    assert_ne!(z_a, z_x);
    assert_ne!(z_a, z_y);
}

#[test]
fn test_z2ru192_reduce() {
    let a = U192([0x0322514fafb44d65, 0x02d477448c5a3aff, 0x3d532b96a2634c54]);
    let b = U192([0x0322514fafb44d65, 0x02d477448c5a3aff, 0x0000000000004c54]);
    let c = U192([0x0322514fafb44d65, 0x02d477448c5a3aff, 0x0000000000014c54]);
    let d = U192([0x0322514fafb44d65, 0x02d477448c5a3aff, 0xffffffffffff4c54]);
    assert!(b < MOD_144_192);
    let z_a = R144_192::from(a);
    let z_b = R144_192::from(b);
    let z_c = R144_192::from(c);
    let z_d = R144_192::from(d);
    assert!(!z_a.is_reduced());
    assert!(z_b.is_reduced());
    assert!(!z_c.is_reduced());
    assert!(!z_d.is_reduced());
    assert!(z_a.reduce().is_reduced());
    assert!(z_b.reduce().is_reduced());
    assert!(z_c.reduce().is_reduced());
    assert!(z_d.reduce().is_reduced());
}

#[test]
fn test_z2ru192_reduce_to() {
    let a: U192 = U192(OsRng.gen::<[u64; 3]>());
    // `a` modulo 2^80
    let b = U192([a.0[0], a.0[1] & 0xffff, 0]);
    let z_a = R144_192::from(a);
    let z_b = R144_192::from(b);
    assert_eq!(z_a.reduce_to::<80>(), z_b);
    assert!(z_a.reduce_to::<80>().is_reduced_to::<80>());
    assert!(z_b.is_reduced_to::<80>());
}

#[test]
fn ring_laws_on_concrete_values() {
    let a = R104::from(0x0123_4567_89ab_cdef_fedc_ba98_7654_3210u128);
    let b = R104::from(0xffff_0000_ffff_0000_ffff_0000_ffff_0000u128);
    assert_eq!(a.ring_sub(b).ring_add(b), a);
    assert!(a.ring_add(a.ring_neg()).is_zero());
    assert_eq!(a.ring_neg(), R104::zero().ring_sub(a));
    assert!(a.reduce().is_reduced());
    assert_eq!(a.reduce(), a);
    let c = R144_192::from(U192([0x0322514fafb44d65, 0x02d477448c5a3aff, 0x3d532b96a2634c54]));
    let d = R144_192::from(U192([0x9720cfadd82d0932, 0x5ec1fdbbbb0c144a, 0xddd475bf0f773b7f]));
    assert_eq!(c.ring_sub(d).ring_add(d), c);
    assert!(c.ring_add(c.ring_neg()).is_zero());
    assert_eq!(c.ring_neg(), R144_192::zero().ring_sub(c));
    assert!(c.reduce().is_reduced());
    assert_eq!(c.reduce(), c);
}
