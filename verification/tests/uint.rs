use mozzarella::uint::{U192, U256};

#[test]
fn u192_add() {
    let a = U192([0x0322514fafb44d65, 0x02d477448c5a3aff, 0x3d532b96a2634c54]);
    let b = U192([0x9720cfadd82d0932, 0x5ec1fdbbbb0c144a, 0xddd475bf0f773b7f]);
    let c = U192([0x9a4320fd87e15697, 0x6196750047664f49, 0x1b27a155b1da87d3]);
    assert_eq!(a + b, c);
}

#[test]
fn u192_sub() {
    let a = U192([0x0322514fafb44d65, 0x02d477448c5a3aff, 0x3d532b96a2634c54]);
    let b = U192([0x9720cfadd82d0932, 0x5ec1fdbbbb0c144a, 0xddd475bf0f773b7f]);
    let c = U192([0x6c0181a1d7874433, 0xa4127988d14e26b4, 0x5f7eb5d792ec10d4]);
    let d = U192([0x93fe7e5e2878bbcd, 0x5bed86772eb1d94b, 0xa0814a286d13ef2b]);
    assert_eq!(a - b, c);
    assert_eq!(b - a, d);
}

#[test]
fn u192_neg() {
    let a = U192([0x0322514fafb44d65, 0x02d477448c5a3aff, 0x3d532b96a2634c54]);
    let b = U192([0xfcddaeb0504bb29b, 0xfd2b88bb73a5c500, 0xc2acd4695d9cb3ab]);
    assert_eq!(-a, b);
    assert_eq!(-U256::zero(), U256::zero());
    assert_eq!(-U256::one(), U256::max_value());
}

#[test]
fn u192_mul() {
    let a = U192([0x0322514fafb44d65, 0x02d477448c5a3aff, 0x3d532b96a2634c54]);
    let b = U192([0x9720cfadd82d0932, 0x5ec1fdbbbb0c144a, 0xddd475bf0f773b7f]);
    let c = U192([0x1fdeaafd7ab0aaba, 0x00423b9a6f9af3dd, 0x62fd92e49acb19a6]);
    assert_eq!(a * b, c);
}

#[test]
fn u192_not() {
    let a = U192([0x0322514fafb44d65, 0x02d477448c5a3aff, 0x3d532b96a2634c54]);
    let c = U192([0xfcddaeb0504bb29a, 0xfd2b88bb73a5c500, 0xc2acd4695d9cb3ab]);
    assert_eq!(!a, c);
}

#[test]
fn u192_bit_and() {
    let a = U192([0x0322514fafb44d65, 0x02d477448c5a3aff, 0x3d532b96a2634c54]);
    let b = U192([0x9720cfadd82d0932, 0x5ec1fdbbbb0c144a, 0xddd475bf0f773b7f]);
    let c = U192([0x0320410d88240920, 0x02c075008808104a, 0x1d50219602630854]);
    assert_eq!(a & b, c);
}

#[test]
fn u192_shl() {
    let a = U192([0x0322514fafb44d65, 0x02d477448c5a3aff, 0x3d532b96a2634c54]);
    let c = U192([0xd135940000000000, 0x68ebfc0c89453ebe, 0x8d31500b51dd1231]);
    let d = U192([0x0000000000000000, 0x22514fafb44d6500, 0xd477448c5a3aff03]);
    let e = U192([0x0000000000000000, 0x0000000000000000, 0x8a7d7da26b280000]);
    let n_c = 42usize;
    let n_d = 72usize;
    let n_e = 147usize;
    assert_eq!(a << n_c, c);
    assert_eq!(a << n_d, d);
    assert_eq!(a << n_e, e);
}

#[test]
fn u256_add() {
    let a = U256([
        0x0322514fafb44d65,
        0x02d477448c5a3aff,
        0x3d532b96a2634c54,
        0xb980672899a0532f,
    ]);
    let b = U256([
        0x9720cfadd82d0932,
        0x5ec1fdbbbb0c144a,
        0xddd475bf0f773b7f,
        0xe07122b2558224a7,
    ]);
    let c = U256([
        0x9a4320fd87e15697,
        0x6196750047664f49,
        0x1b27a155b1da87d3,
        0x99f189daef2277d7,
    ]);
    assert_eq!(a + b, c);
}

#[test]
fn u256_sub() {
    let a = U256([
        0x0322514fafb44d65,
        0x02d477448c5a3aff,
        0x3d532b96a2634c54,
        0xb980672899a0532f,
    ]);
    let b = U256([
        0x9720cfadd82d0932,
        0x5ec1fdbbbb0c144a,
        0xddd475bf0f773b7f,
        0xe07122b2558224a7,
    ]);
    let c = U256([
        0x6c0181a1d7874433,
        0xa4127988d14e26b4,
        0x5f7eb5d792ec10d4,
        0xd90f4476441e2e87,
    ]);
    let d = U256([
        0x93fe7e5e2878bbcd,
        0x5bed86772eb1d94b,
        0xa0814a286d13ef2b,
        0x26f0bb89bbe1d178,
    ]);
    assert_eq!(a - b, c);
    assert_eq!(b - a, d);
}

#[test]
fn u256_neg() {
    let a = U256([
        0x0322514fafb44d65,
        0x02d477448c5a3aff,
        0x3d532b96a2634c54,
        0xb980672899a0532f,
    ]);
    let b = U256([
        0xfcddaeb0504bb29b,
        0xfd2b88bb73a5c500,
        0xc2acd4695d9cb3ab,
        0x467f98d7665facd0,
    ]);
    assert_eq!(-a, b);
    assert_eq!(-U256::zero(), U256::zero());
    assert_eq!(-U256::one(), U256::max_value());
}

#[test]
fn u256_mul() {
    let a = U256([
        0x0322514fafb44d65,
        0x02d477448c5a3aff,
        0x3d532b96a2634c54,
        0xb980672899a0532f,
    ]);
    let b = U256([
        0x9720cfadd82d0932,
        0x5ec1fdbbbb0c144a,
        0xddd475bf0f773b7f,
        0xe07122b2558224a7,
    ]);
    let c = U256([
        0x1fdeaafd7ab0aaba,
        0x00423b9a6f9af3dd,
        0x62fd92e49acb19a6,
        0x5b9f4854a39e3316,
    ]);
    assert_eq!(a * b, c);
}

#[test]
fn u256_not() {
    let a = U256([
        0x0322514fafb44d65,
        0x02d477448c5a3aff,
        0x3d532b96a2634c54,
        0xb980672899a0532f,
    ]);
    let c = U256([
        0xfcddaeb0504bb29a,
        0xfd2b88bb73a5c500,
        0xc2acd4695d9cb3ab,
        0x467f98d7665facd0,
    ]);
    assert_eq!(!a, c);
}

#[test]
fn u256_bit_and() {
    let a = U256([
        0x0322514fafb44d65,
        0x02d477448c5a3aff,
        0x3d532b96a2634c54,
        0xb980672899a0532f,
    ]);
    let b = U256([
        0x9720cfadd82d0932,
        0x5ec1fdbbbb0c144a,
        0xddd475bf0f773b7f,
        0xe07122b2558224a7,
    ]);
    let c = U256([
        0x0320410d88240920,
        0x02c075008808104a,
        0x1d50219602630854,
        0xa000222011800027,
    ]);
    assert_eq!(a & b, c);
}

#[test]
fn u256_shl() {
    let a = U256([
        0x0322514fafb44d65,
        0x02d477448c5a3aff,
        0x3d532b96a2634c54,
        0xb980672899a0532f,
    ]);
    let c = U256([
        0xd135940000000000,
        0x68ebfc0c89453ebe,
        0x8d31500b51dd1231,
        0x814cbcf54cae5a89,
    ]);
    let d = U256([
        0x0000000000000000,
        0x22514fafb44d6500,
        0xd477448c5a3aff03,
        0x532b96a2634c5402,
    ]);
    let e = U256([
        0x0000000000000000,
        0x0000000000000000,
        0x8a7d7da26b280000,
        0xba2462d1d7f81912,
    ]);
    let f = U256([
        0x0000000000000000,
        0x0000000000000000,
        0x0000000000000000,
        0x22514fafb44d6500,
    ]);
    let n_c = 42usize;
    let n_d = 72usize;
    let n_e = 147usize;
    let n_f = 200usize;
    assert_eq!(a << n_c, c);
    assert_eq!(a << n_d, d);
    assert_eq!(a << n_e, e);
    assert_eq!(a << n_f, f);
}
