use mozzarella::ring::z2r_wide::Z2rU256;
use mozzarella::ring::Ring;
use primitive_types::U256;
use rand::rngs::OsRng;
use rand::Rng;

type R144_256 = Z2rU256<144>;

fn u256(hex: &str) -> U256 {
    U256::from_str_radix(hex, 16).unwrap()
}

fn mod_144_256() -> U256 {
    u256("1000000000000000000000000000000000000")
}

const A: &str = "b980672899a0532f3d532b96a2634c5402d477448c5a3aff0322514fafb44d65";
const B: &str = "e07122b2558224a7ddd475bf0f773b7f5ec1fdbbbb0c144a9720cfadd82d0932";

#[test]
fn test_z2ru256_constants() {
    assert_eq!(mod_144_256(), U256::one() << 144);
    assert_eq!(R144_256::bit_mask()[0], 0xffffffffffffffff);
    assert_eq!(R144_256::bit_mask()[1], 0xffffffffffffffff);
    assert_eq!(R144_256::bit_mask()[2], 0x000000000000ffff);
    assert_eq!(R144_256::bit_mask()[3], 0x0000000000000000);
    assert_eq!(U256(R144_256::bit_mask()), u256("ffffffffffffffffffffffffffffffffffff"));
    assert_eq!(R144_256::default(), R144_256::from(u256("0").0));
    assert_eq!(R144_256::zero(), R144_256::from(u256("0").0));
    assert_eq!(R144_256::one(), R144_256::from(u256("1").0));
    assert_eq!(R144_256::zero(), R144_256::from(U256::zero().0));
    assert_eq!(R144_256::one(), R144_256::from(U256::one().0));
}

#[test]
fn test_z2ru256_add() {
    let a = u256(A);
    let b = u256(B);
    let c = u256("99f189daef2277d71b27a155b1da87d36196750047664f499a4320fd87e15697");
    assert_eq!(a.overflowing_add(b).0, c);
    let z_a = R144_256::from(a.0);
    let z_b = R144_256::from(b.0);
    let z_c = R144_256::from(c.0);
    assert_eq!(z_a + z_b, z_c);
}

#[test]
fn test_z2ru256_add_assign() {
    let a = u256(A);
    let b = u256(B);
    let c = u256("99f189daef2277d71b27a155b1da87d36196750047664f499a4320fd87e15697");
    let mut z_a = R144_256::from(a.0);
    let z_b = R144_256::from(b.0);
    z_a += z_b;
    let z_c = R144_256::from(c.0);
    assert_eq!(z_a, z_c);
}

#[test]
fn test_z2ru256_sub() {
    let a = u256(A);
    let b = u256(B);
    let c = u256("d90f4476441e2e875f7eb5d792ec10d4a4127988d14e26b46c0181a1d7874433");
    let d = u256("26f0bb89bbe1d178a0814a286d13ef2b5bed86772eb1d94b93fe7e5e2878bbcd");
    assert_eq!(a.overflowing_sub(b).0, c);
    assert_eq!(b.overflowing_sub(a).0, d);
    let z_a = R144_256::from(a.0);
    let z_b = R144_256::from(b.0);
    let z_c = R144_256::from(c.0);
    let z_d = R144_256::from(d.0);
    assert_eq!(z_a - z_b, z_c);
    assert_eq!(z_b - z_a, z_d);
}

#[test]
fn test_z2ru256_sub_assign() {
    let a = u256(A);
    let b = u256(B);
    let c = u256("d90f4476441e2e875f7eb5d792ec10d4a4127988d14e26b46c0181a1d7874433");
    let d = u256("26f0bb89bbe1d178a0814a286d13ef2b5bed86772eb1d94b93fe7e5e2878bbcd");
    let z_a = R144_256::from(a.0);
    let z_b = R144_256::from(b.0);
    let mut z_x = z_a;
    z_x -= z_b;
    let mut z_y = z_b;
    z_y -= z_a;
    let z_c = R144_256::from(c.0);
    let z_d = R144_256::from(d.0);
    assert_eq!(z_x, z_c);
    assert_eq!(z_y, z_d);
}

#[test]
fn test_z2ru256_mul() {
    let a = u256(A);
    let b = u256(B);
    let c = u256("5b9f4854a39e331662fd92e49acb19a600423b9a6f9af3dd1fdeaafd7ab0aaba");
    assert_eq!(a.overflowing_mul(b).0, c);
    let z_a = R144_256::from(a.0);
    let z_b = R144_256::from(b.0);
    let z_c = R144_256::from(c.0);
    assert_eq!(z_a * z_b, z_c);
}

#[test]
fn test_z2ru256_mul_assign() {
    let a = u256(A);
    let b = u256(B);
    let c = u256("5b9f4854a39e331662fd92e49acb19a600423b9a6f9af3dd1fdeaafd7ab0aaba");
    let mut z_a = R144_256::from(a.0);
    let z_b = R144_256::from(b.0);
    z_a *= z_b;
    let z_c = R144_256::from(c.0);
    assert_eq!(z_a, z_c);
}

#[test]
fn test_z2ru256_neg() {
    let a = u256(A);
    let b = u256("467f98d7665facd0c2acd4695d9cb3abfd2b88bb73a5c500fcddaeb0504bb29b");
    assert_eq!(b, U256::zero().overflowing_sub(a).0);
    let z_a = R144_256::from(a.0);
    let z_b = R144_256::from(b.0);
    assert_eq!(1u128.overflowing_neg().0, 0u128.overflowing_sub(1u128).0);
    assert_eq!(-z_a, z_b);
    assert_eq!(-R144_256::zero(), R144_256::zero());
    assert_eq!(-R144_256::one(), R144_256::zero() - R144_256::one());
}

#[test]
fn test_z2ru256_sum() {
    let mut bs = [U256::zero(); 32];
    let mut z_bs = [R144_256::default(); 32];
    for i in 0..32 {
        bs[i] = U256(OsRng.gen::<[u64; 4]>());
        z_bs[i] = R144_256::from(bs[i].0);
    }
    let sum_bs = {
        let mut s = U256::zero();
        for b in bs {
            s = s.overflowing_add(b).0;
        }
        s
    };
    let sum_z_bs: R144_256 = R144_256::sum(&z_bs);
    assert_eq!(sum_z_bs, R144_256::from(sum_bs.0));
}

#[test]
fn test_z2ru256_eq() {
    let a = u256(A);
    let b = u256("00000000000000000000000000004c5402d477448c5a3aff0322514fafb44d65");
    let c = u256("00000000000000000000000000014c5402d477448c5a3aff0322514fafb44d65");
    let d = u256("ffffffffffffffffffffffffffff4c5402d477448c5a3aff0322514fafb44d65");
    let x = u256("b980672899a0532f3d532b96a2634c5402d477448c5a3aff0322514fafb44d66");
    let y = u256("b980672899a0532f3d532b96a2634c5402d477448c5a3aff0322514fafb44d64");
    let z_a = R144_256::from(a.0);
    let z_b = R144_256::from(b.0);
    let z_c = R144_256::from(c.0);
    let z_d = R144_256::from(d.0);
    let z_x = R144_256::from(x.0);
    let z_y = R144_256::from(y.0);
    assert_eq!(z_a, z_b);
    assert_eq!(z_a, z_c);
    assert_eq!(z_a, z_d);
    assert_ne!(z_a, z_x);
    assert_ne!(z_a, z_y);
}

#[test]
fn test_z2ru256_reduce() {
    let a = u256(A);
    let b = u256("00000000000000000000000000004c5402d477448c5a3aff0322514fafb44d65");
    let c = u256("00000000000000000000000000014c5402d477448c5a3aff0322514fafb44d65");
    let d = u256("ffffffffffffffffffffffffffff4c5402d477448c5a3aff0322514fafb44d65");
    assert!(b < mod_144_256());
    let z_a = R144_256::from(a.0);
    let z_b = R144_256::from(b.0);
    let z_c = R144_256::from(c.0);
    let z_d = R144_256::from(d.0);
    assert!(!z_a.is_reduced());
    assert!(z_b.is_reduced());
    assert!(!z_c.is_reduced());
    assert!(!z_d.is_reduced());
    assert!(z_a.reduce().is_reduced());
    assert!(z_b.reduce().is_reduced());
    assert!(z_c.reduce().is_reduced());
    assert!(z_d.reduce().is_reduced());
}

#[test]
fn test_z2ru256_reduce_to() {
    let a: U256 = U256(OsRng.gen::<[u64; 4]>());
    let b = a % (1u128 << 80);
    let z_a = R144_256::from(a.0);
    let z_b = R144_256::from(b.0);
    assert_eq!(z_a.reduce_to::<80>(), z_b);
    assert!(z_a.reduce_to::<80>().is_reduced_to::<80>());
    assert!(z_b.is_reduced_to::<80>());
}

#[test]
fn z2ru256_reduce_keeps_low_bits() {
    let a = u256(A);
    let reduced = R144_256::from(a.0).reduce();
    assert_eq!(reduced, R144_256::from(a.0));
    let low = a % mod_144_256();
    assert_eq!(reduced.reduce_to_64(), low.0[0]);
    assert!(R144_256::from(low.0).is_reduced());
}
