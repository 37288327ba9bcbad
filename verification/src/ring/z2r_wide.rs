//! The rings `Z/2^k` for bit lengths above 128, represented by 192-bit
//! (`Z2rU192`) and 256-bit (`Z2rU256`) integers.
use vstd::prelude::*;
use core::ops::Not;
use vstd::arithmetic::div_mod::{
    lemma_fundamental_div_mod, lemma_fundamental_div_mod_converse, lemma_mod_breakdown,
    lemma_mod_multiples_basic, lemma_mod_multiples_vanish, lemma_small_mod,
};
use vstd::arithmetic::mul::{lemma_mul_is_associative, lemma_mul_is_commutative};
use vstd::arithmetic::power2::{
    lemma2_to64, lemma2_to64_rest, lemma_pow2_adds, lemma_pow2_pos, lemma_pow2_strictly_increases,
    pow2,
};
use vstd::bits::{lemma_u64_low_bits_mask_is_mod, lemma_u64_pow2_no_overflow, lemma_u64_shl_is_mul};
use crate::bits128::lemma_mod_of_mod_multiple;
use crate::ring::{residue, sum_residues, Ring};
use crate::uint::{modulus192, modulus256, radix2, u192_from_value, u256_from_value, U192};

verus! {

/// Limb `i` of the mask of the low `b` bits: all ones for limbs below bit `b`,
/// `2^(b - 64 i) - 1` for the limb that holds bit `b`, and zero above.
pub open spec fn limb_mask(b: int, i: int) -> u64 {
    if b >= 64 * (i + 1) {
        0xffff_ffff_ffff_ffff
    } else if b <= 64 * i {
        0
    } else {
        (pow2((b - 64 * i) as nat) - 1) as u64
    }
}

/// The number of bits of a limb that the mask of the low `b` bits keeps in limb `i`.
pub open spec fn limb_bits(b: int, i: int) -> nat {
    if b >= 64 * (i + 1) {
        64
    } else if b <= 64 * i {
        0
    } else {
        (b - 64 * i) as nat
    }
}

/// `min(b, w)` for bit counts.
pub open spec fn clamp_bits(b: nat, w: nat) -> nat {
    if b < w {
        b
    } else {
        w
    }
}

/// `2^n - 1` for `0 < n < 64`.
fn low_ones(n: usize) -> (r: u64)
    requires
        0 < n < 64,
    ensures
        r == pow2(n as nat) - 1,
{
    proof {
        lemma_u64_pow2_no_overflow(n as nat);
        lemma_u64_shl_is_mul(1, n as u64);
        lemma_pow2_pos(n as nat);
    }
    (1u64 << (n as u64)).wrapping_sub(1)
}

/// The limbs of `2^b - 1` (all ones when `b >= 192`).
pub fn compute_bit_mask_192(bit_length: usize) -> (r: [u64; 3])
    ensures
        forall|i: int| 0 <= i < 3 ==> r[i] == limb_mask(bit_length as int, i),
{
    [
        if bit_length >= 64 {
            0xffffffffffffffffu64
        } else if bit_length == 0 {
            0
        } else {
            low_ones(bit_length)
        },
        if bit_length >= 128 {
            0xffffffffffffffffu64
        } else if bit_length <= 64 {
            0
        } else {
            low_ones(bit_length - 64)
        },
        if bit_length >= 192 {
            0xffffffffffffffffu64
        } else if bit_length <= 128 {
            0
        } else {
            low_ones(bit_length - 128)
        },
    ]
}

/// The limbs of `2^b - 1` (all ones when `b >= 256`).
pub fn compute_bit_mask_256(bit_length: usize) -> (r: [u64; 4])
    ensures
        forall|i: int| 0 <= i < 4 ==> r[i] == limb_mask(bit_length as int, i),
{
    [
        if bit_length >= 64 {
            0xffffffffffffffffu64
        } else if bit_length == 0 {
            0
        } else {
            low_ones(bit_length)
        },
        if bit_length >= 128 {
            0xffffffffffffffffu64
        } else if bit_length <= 64 {
            0
        } else {
            low_ones(bit_length - 64)
        },
        if bit_length >= 192 {
            0xffffffffffffffffu64
        } else if bit_length <= 128 {
            0
        } else {
            low_ones(bit_length - 128)
        },
        if bit_length >= 256 {
            0xffffffffffffffffu64
        } else if bit_length <= 192 {
            0
        } else {
            low_ones(bit_length - 192)
        },
    ]
}

/// Masking one limb: AND with the limb mask keeps the limb modulo `2^c`, and the
/// bits outside the mask are all clear exactly when the limb is below `2^c`.
proof fn lemma_limb_and_mask(x: u64, b: int, i: int)
    ensures
        x & limb_mask(b, i) == x as int % pow2(limb_bits(b, i)) as int,
        (x & !limb_mask(b, i) == 0) == (x < pow2(limb_bits(b, i))),
        pow2(limb_bits(b, i)) <= 0x1_0000_0000_0000_0000,
        pow2(limb_bits(b, i)) > 0,
{
    lemma2_to64();
    lemma2_to64_rest();
    let c = limb_bits(b, i);
    lemma_pow2_pos(c);
    if b >= 64 * (i + 1) {
        assert(x & 0xffff_ffff_ffff_ffffu64 == x) by (bit_vector);
        assert(x & !0xffff_ffff_ffff_ffffu64 == 0) by (bit_vector);
        lemma_small_mod(x as nat, pow2(64));
    } else if b <= 64 * i {
        assert(x & 0u64 == 0) by (bit_vector);
        assert(x & !0u64 == x) by (bit_vector);
    } else {
        lemma_u64_pow2_no_overflow(c);
        lemma_u64_low_bits_mask_is_mod(x, c);
        lemma_u64_shl_is_mul(1, c as u64);
        let p = 1u64 << (c as u64);
        let cc = c as u64;
        assert(x & !((p - 1) as u64) == 0 <==> x < p) by (bit_vector)
            requires
                p == 1u64 << cc,
                cc < 64,
        ;
    }
}

/// `2^b` for `b = 64 q + c` with `c <= 64`.
proof fn lemma_pow2_split(q: nat, c: nat)
    requires
        q <= 3,
        c <= 64,
    ensures
        q == 0 ==> pow2(64 * q + c) == pow2(c),
        q == 1 ==> pow2(64 * q + c) == 0x1_0000_0000_0000_0000 * pow2(c),
        q == 2 ==> pow2(64 * q + c) == radix2() * pow2(c),
        q == 3 ==> pow2(64 * q + c) == modulus192() * pow2(c),
        pow2(c) as int * pow2((64 - c) as nat) as int == 0x1_0000_0000_0000_0000,
        pow2(192) == modulus192(),
        pow2(256) == modulus256(),
{
    lemma2_to64_rest();
    lemma_pow2_adds(64, 64);
    lemma_pow2_adds(128, 64);
    lemma_pow2_adds(192, 64);
    lemma_pow2_adds(64 * q, c);
    lemma_pow2_adds(c, (64 - c) as nat);
}

/// `x % (base * p)` for `x = low + base * (digit + rad * rest)` with `low < base` and
/// `p` dividing the radix: only `digit % p` survives above `low`.
proof fn lemma_mod_at_digit(low: int, base: int, digit: int, rest: int, p: int, rad: int, c: int)
    requires
        0 <= low < base,
        0 <= digit,
        0 <= rest,
        p > 0,
        c > 0,
        rad == p * c,
    ensures
        (low + base * (digit + rad * rest)) % (base * p) == low + base * (digit % p),
        (low + base * (digit + rad * rest) < base * p) == (digit + rad * rest < p),
{
    let x = low + base * (digit + rad * rest);
    let y = digit + rad * rest;
    assert(0 <= rad * rest) by (nonlinear_arith)
        requires
            rad >= 0,
            rest >= 0,
    ;
    lemma_fundamental_div_mod_converse(x, base, y, low);
    lemma_mul_is_commutative(y, base);
    lemma_mod_breakdown(x, base, p);
    lemma_mul_is_associative(p, c, rest);
    lemma_mod_multiples_vanish(c * rest, digit, p);
    assert(x < base * p <==> y < p) by (nonlinear_arith)
        requires
            x == low + base * y,
            0 <= low < base,
    ;
}

/// A `U192` masked to its low `b` bits holds its value modulo `2^b`, and the
/// bits above `b` are all clear exactly when the value is below `2^b`.
proof fn lemma_u192_mask(x: U192, m: U192, b: int)
    requires
        0 <= b,
        forall|i: int| 0 <= i < 3 ==> m.0[i] == limb_mask(b, i),
    ensures
        U192([x.0[0] & m.0[0], x.0[1] & m.0[1], x.0[2] & m.0[2]]).value() == x.value() % pow2(
            clamp_bits(b as nat, 192),
        ) as int,
        (U192([x.0[0] & !m.0[0], x.0[1] & !m.0[1], x.0[2] & !m.0[2]]).value() == 0) == (x.value()
            < pow2(clamp_bits(b as nat, 192))),
{
    let u = x.0;
    lemma_limb_and_mask(u[0], b, 0);
    lemma_limb_and_mask(u[1], b, 1);
    lemma_limb_and_mask(u[2], b, 2);
    let rad = 0x1_0000_0000_0000_0000int;
    let masked = U192([u[0] & m.0[0], u[1] & m.0[1], u[2] & m.0[2]]);
    lemma_pow2_split(3, 0);
    lemma2_to64();
    lemma2_to64_rest();
    assert(x.value() == u[0] + rad * (u[1] + rad * u[2]));
    if b >= 192 {
        lemma_small_mod(u[0] as nat, rad as nat);
        lemma_small_mod(u[1] as nat, rad as nat);
        lemma_small_mod(u[2] as nat, rad as nat);
        assert(masked.value() == x.value());
        lemma_small_mod(x.value() as nat, pow2(192));
    } else {
        let q = (b / 64) as nat;
        let c = (b % 64) as nat;
        assert(clamp_bits(b as nat, 192) == 64 * q + c);
        lemma_pow2_split(q, c);
        lemma_pow2_pos(c);
        lemma_pow2_pos((64 - c) as nat);
        let p = pow2(c) as int;
        let co = pow2((64 - c) as nat) as int;
        if q == 0 {
            assert(limb_bits(b, 0) == c);
            assert(limb_bits(b, 1) == 0);
            assert(limb_bits(b, 2) == 0);
            assert(masked.value() == u[0] as int % p);
            lemma_mod_at_digit(0, 1, u[0] as int, u[1] + u[2] * rad, p, rad, co);
        } else if q == 1 {
            assert(limb_bits(b, 0) == 64);
            assert(limb_bits(b, 1) == c);
            assert(limb_bits(b, 2) == 0);
            lemma_small_mod(u[0] as nat, rad as nat);
            assert(masked.value() == u[0] + rad * (u[1] as int % p));
            lemma_mod_at_digit(u[0] as int, rad, u[1] as int, u[2] as int, p, rad, co);
        } else {
            assert(limb_bits(b, 0) == 64);
            assert(limb_bits(b, 1) == 64);
            assert(limb_bits(b, 2) == c);
            lemma_small_mod(u[0] as nat, rad as nat);
            lemma_small_mod(u[1] as nat, rad as nat);
            assert(masked.value() == u[0] + u[1] * rad + radix2() * (u[2] as int % p));
            assert(x.value() == u[0] + u[1] * rad + radix2() * (u[2] + rad * 0));
            lemma_mod_at_digit(u[0] + u[1] * rad, radix2(), u[2] as int, 0, p, rad, co);
        }
    }
}

/// An element of `Z/2^BIT_LENGTH`, for a bit length of at most 192.
#[derive(Copy, Clone, Debug)]
pub struct Z2rU192<const BIT_LENGTH: usize>(U192);

impl<const BIT_LENGTH: usize> Z2rU192<BIT_LENGTH> {
    /// The bit length `k` of the ring.
    pub fn bit_length() -> (r: usize)
        ensures
            r == BIT_LENGTH,
    {
        BIT_LENGTH
    }

    /// Number of bytes needed to hold an element.
    pub fn byte_length() -> (r: usize)
        requires
            BIT_LENGTH + 7 <= usize::MAX,
        ensures
            r == (BIT_LENGTH + 7) / 8,
    {
        (BIT_LENGTH + 7) / 8
    }

    /// The mask of the low `k` bits, `2^k - 1` (all bits when `k >= 192`).
    pub fn bit_mask() -> (r: U192)
        ensures
            forall|i: int| 0 <= i < 3 ==> r.0[i] == limb_mask(BIT_LENGTH as int, i),
    {
        U192(compute_bit_mask_192(BIT_LENGTH))
    }

    /// Sum of all elements.
    pub fn sum(slice: &[Self]) -> (r: Self)
        ensures
            residue(r) == sum_residues(slice@) % Self::modulus(),
    {
        crate::ring::ring_sum(slice)
    }

    /// The representative masked to its low `bits` bits.
    fn masked(x: U192, bits: usize) -> (r: U192)
        ensures
            r.value() == x.value() % pow2(clamp_bits(bits as nat, 192)) as int,
    {
        let m = U192(compute_bit_mask_192(bits));
        proof {
            lemma_u192_mask(x, m, bits as int);
        }
        x & m
    }

    /// Whether the representative has no bits at or above position `bits`.
    fn fits(x: U192, bits: usize) -> (r: bool)
        ensures
            r == (x.value() < pow2(clamp_bits(bits as nat, 192))),
    {
        let m = U192(compute_bit_mask_192(bits));
        proof {
            lemma_u192_mask(x, m, bits as int);
        }
        (x & m.not()).is_zero()
    }
}

/// Facts tying the modulus of a `Z2rU192` to 2^192.
proof fn lemma_modulus192_facts(b: nat)
    ensures
        pow2(clamp_bits(b, 192)) > 0,
        pow2(192) == modulus192(),
        modulus192() % pow2(clamp_bits(b, 192)) as int == 0,
{
    let c = clamp_bits(b, 192);
    lemma_pow2_split(3, 0);
    lemma_pow2_pos(c);
    lemma_pow2_adds(c, (192 - c) as nat);
    lemma_mod_multiples_basic(pow2((192 - c) as nat) as int, pow2(c) as int);
    lemma_mul_is_commutative(pow2(c) as int, pow2((192 - c) as nat) as int);
}

impl<const BIT_LENGTH: usize> Ring for Z2rU192<BIT_LENGTH> {
    open spec fn modulus() -> int {
        pow2(clamp_bits(BIT_LENGTH as nat, 192)) as int
    }

    open spec fn repr_bits() -> nat {
        192
    }

    closed spec fn raw(self) -> int {
        self.0.value()
    }

    proof fn lemma_ring_facts(self) {
        lemma_modulus192_facts(BIT_LENGTH as nat);
        if clamp_bits(BIT_LENGTH as nat, 192) < 192 {
            lemma_pow2_strictly_increases(clamp_bits(BIT_LENGTH as nat, 192), 192);
        }
    }

    fn zero() -> (r: Self) {
        Z2rU192(U192::zero())
    }

    fn one() -> (r: Self) {
        Z2rU192(U192::one())
    }

    fn ring_add(self, rhs: Self) -> (r: Self) {
        proof {
            lemma_modulus192_facts(BIT_LENGTH as nat);
            lemma_mod_of_mod_multiple(self.0.value() + rhs.0.value(), Self::modulus(), modulus192());
        }
        Z2rU192(self.0 + rhs.0)
    }

    fn ring_sub(self, rhs: Self) -> (r: Self) {
        proof {
            let m = Self::modulus();
            lemma_modulus192_facts(BIT_LENGTH as nat);
            let d = self.0.value() - rhs.0.value();
            lemma_mod_of_mod_multiple(d + modulus192(), m, modulus192());
            lemma_fundamental_div_mod(modulus192(), m);
            lemma_mod_multiples_vanish(modulus192() / m, d, m);
        }
        Z2rU192(self.0 - rhs.0)
    }

    fn ring_mul(self, rhs: Self) -> (r: Self) {
        proof {
            lemma_modulus192_facts(BIT_LENGTH as nat);
            lemma_mod_of_mod_multiple(self.0.value() * rhs.0.value(), Self::modulus(), modulus192());
        }
        Z2rU192(self.0 * rhs.0)
    }

    fn ring_neg(self) -> (r: Self) {
        proof {
            let m = Self::modulus();
            lemma_modulus192_facts(BIT_LENGTH as nat);
            let d = 0 - self.0.value();
            lemma_mod_of_mod_multiple(d + modulus192(), m, modulus192());
            lemma_fundamental_div_mod(modulus192(), m);
            lemma_mod_multiples_vanish(modulus192() / m, d, m);
        }
        Z2rU192(U192::zero() - self.0)
    }

    fn ring_eq(&self, other: &Self) -> (r: bool) {
        Self::masked(self.0, BIT_LENGTH) == Self::masked(other.0, BIT_LENGTH)
    }

    fn is_zero(&self) -> (r: bool) {
        proof {
            lemma_modulus192_facts(BIT_LENGTH as nat);
            lemma_small_mod(0, Self::modulus() as nat);
        }
        self.ring_eq(&Self::zero())
    }

    fn is_one(&self) -> (r: bool) {
        self.ring_eq(&Self::one())
    }

    fn reduce(&self) -> (r: Self) {
        Z2rU192(Self::masked(self.0, BIT_LENGTH))
    }

    fn is_reduced(&self) -> (r: bool) {
        Self::fits(self.0, BIT_LENGTH)
    }

    fn reduce_to<const BITS: usize>(&self) -> (r: Self) {
        Z2rU192(Self::masked(self.0, BITS))
    }

    fn is_reduced_to<const BITS: usize>(&self) -> (r: bool) {
        Self::fits(self.0, BITS)
    }

    fn reduce_to_32(&self) -> (r: u32) {
        let x = self.0.0[0];
        assert((x & 0xffffffff) == x % 0x1_0000_0000) by (bit_vector);
        proof {
            lemma_fundamental_div_mod_converse(
                self.0.value(),
                0x1_0000_0000,
                (self.0.value() - x % 0x1_0000_0000) / 0x1_0000_0000,
                x as int % 0x1_0000_0000,
            );
        }
        (x & 0xffffffff) as u32
    }

    fn reduce_to_64(&self) -> (r: u64) {
        proof {
            lemma_fundamental_div_mod_converse(
                self.0.value(),
                0x1_0000_0000_0000_0000,
                self.0.0[1] + self.0.0[2] * 0x1_0000_0000_0000_0000int,
                self.0.0[0] as int,
            );
        }
        self.0.0[0]
    }

    fn sample(rng: &mut rand::rngs::StdRng) -> Self {
        let q0 = crate::random::random_u64(rng);
        let q1 = crate::random::random_u64(rng);
        let q2 = crate::random::random_u64(rng);
        Z2rU192(U192([q0, q1, q2]))
    }
}

impl<const BIT_LENGTH: usize> Z2rU192<BIT_LENGTH> {
    /// The representative.
    pub closed spec fn repr(self) -> U192 {
        self.0
    }

    /// `raw` is the value of the representative.
    pub proof fn lemma_repr(self)
        ensures
            self.raw() == self.repr().value(),
    {
    }
}

impl<const BIT_LENGTH: usize> Default for Z2rU192<BIT_LENGTH> {
    fn default() -> (r: Self)
        ensures
            r.raw() == 0,
    {
        Z2rU192(U192::zero())
    }
}

impl<const BIT_LENGTH: usize> From<U192> for Z2rU192<BIT_LENGTH> {
    fn from(x: U192) -> (r: Self)
        ensures
            r.raw() == x.value(),
            r.repr() == x,
    {
        Z2rU192(x)
    }
}

impl<const BIT_LENGTH: usize> vstd::std_specs::convert::FromSpecImpl<U192> for Z2rU192<BIT_LENGTH> {
    open spec fn obeys_from_spec() -> bool {
        true
    }

    closed spec fn from_spec(v: U192) -> Self {
        Z2rU192(v)
    }
}

impl<const BIT_LENGTH: usize> PartialEq for Z2rU192<BIT_LENGTH> {
    /// Two values are equal when they stand for the same ring element.
    fn eq(&self, other: &Self) -> (r: bool) {
        self.ring_eq(other)
    }
}

impl<const BIT_LENGTH: usize> vstd::std_specs::cmp::PartialEqSpecImpl for Z2rU192<BIT_LENGTH> {
    open spec fn obeys_eq_spec() -> bool {
        true
    }

    open spec fn eq_spec(&self, other: &Self) -> bool {
        self.repr().value() % pow2(clamp_bits(BIT_LENGTH as nat, 192)) as int
            == other.repr().value() % pow2(clamp_bits(BIT_LENGTH as nat, 192)) as int
    }
}

impl<const BIT_LENGTH: usize> Eq for Z2rU192<BIT_LENGTH> {}


impl<const BIT_LENGTH: usize> core::ops::Add<Self> for Z2rU192<BIT_LENGTH> {
    type Output = Self;

    /// Wrapping add of the representatives, modulo 2^192.
    fn add(self, rhs: Self) -> (r: Self)
        ensures
            r.raw() == (self.raw() + rhs.raw()) % modulus192(),
    {
        Z2rU192(self.0 + rhs.0)
    }
}

impl<const BIT_LENGTH: usize> vstd::std_specs::ops::AddSpecImpl<Self> for Z2rU192<BIT_LENGTH> {
    open spec fn obeys_add_spec() -> bool {
        false
    }

    open spec fn add_req(self, rhs: Self) -> bool {
        true
    }

    closed spec fn add_spec(self, rhs: Self) -> Self {
        Z2rU192(u192_from_value(self.0.value() + rhs.0.value()))
    }
}

impl<const BIT_LENGTH: usize> core::ops::AddAssign<Self> for Z2rU192<BIT_LENGTH> {
    fn add_assign(&mut self, rhs: Self)
        ensures
            final(self).raw() == (old(self).raw() + rhs.raw()) % modulus192(),
    {
        *self = *self + rhs;
    }
}

impl<const BIT_LENGTH: usize> core::ops::Sub<Self> for Z2rU192<BIT_LENGTH> {
    type Output = Self;

    /// Wrapping subtraction of the representatives, modulo 2^192.
    fn sub(self, rhs: Self) -> (r: Self)
        ensures
            r.raw() == (self.raw() + modulus192() - rhs.raw()) % modulus192(),
    {
        Z2rU192(self.0 - rhs.0)
    }
}

impl<const BIT_LENGTH: usize> vstd::std_specs::ops::SubSpecImpl<Self> for Z2rU192<BIT_LENGTH> {
    open spec fn obeys_sub_spec() -> bool {
        false
    }

    open spec fn sub_req(self, rhs: Self) -> bool {
        true
    }

    closed spec fn sub_spec(self, rhs: Self) -> Self {
        Z2rU192(u192_from_value(self.0.value() + modulus192() - rhs.0.value()))
    }
}

impl<const BIT_LENGTH: usize> core::ops::SubAssign<Self> for Z2rU192<BIT_LENGTH> {
    fn sub_assign(&mut self, rhs: Self)
        ensures
            final(self).raw() == (old(self).raw() + modulus192() - rhs.raw()) % modulus192(),
    {
        *self = *self - rhs;
    }
}

impl<const BIT_LENGTH: usize> core::ops::Mul<Self> for Z2rU192<BIT_LENGTH> {
    type Output = Self;

    /// Wrapping multiplication of the representatives, modulo 2^192.
    fn mul(self, rhs: Self) -> (r: Self)
        ensures
            r.raw() == (self.raw() * rhs.raw()) % modulus192(),
    {
        Z2rU192(self.0 * rhs.0)
    }
}

impl<const BIT_LENGTH: usize> vstd::std_specs::ops::MulSpecImpl<Self> for Z2rU192<BIT_LENGTH> {
    open spec fn obeys_mul_spec() -> bool {
        false
    }

    open spec fn mul_req(self, rhs: Self) -> bool {
        true
    }

    closed spec fn mul_spec(self, rhs: Self) -> Self {
        Z2rU192(u192_from_value(self.0.value() * rhs.0.value()))
    }
}

impl<const BIT_LENGTH: usize> core::ops::MulAssign<Self> for Z2rU192<BIT_LENGTH> {
    fn mul_assign(&mut self, rhs: Self)
        ensures
            final(self).raw() == (old(self).raw() * rhs.raw()) % modulus192(),
    {
        *self = *self * rhs;
    }
}

impl<const BIT_LENGTH: usize> core::ops::Neg for Z2rU192<BIT_LENGTH> {
    type Output = Self;

    /// Negation of the representative, computed as `0 - x` modulo 2^192.
    fn neg(self) -> (r: Self)
        ensures
            r.raw() == (modulus192() - self.raw()) % modulus192(),
    {
        Z2rU192(U192::zero() - self.0)
    }
}

impl<const BIT_LENGTH: usize> vstd::std_specs::ops::NegSpecImpl for Z2rU192<BIT_LENGTH> {
    open spec fn obeys_neg_spec() -> bool {
        false
    }

    open spec fn neg_req(self) -> bool {
        true
    }

    closed spec fn neg_spec(self) -> Self {
        Z2rU192(u192_from_value(modulus192() - self.0.value()))
    }
}

/// The integer that four little-endian 64-bit limbs stand for.
pub open spec fn limbs256(l: [u64; 4]) -> int {
    l[0] + l[1] * 0x1_0000_0000_0000_0000int + l[2] * 0x1_0000_0000_0000_0000_0000_0000_0000_0000int
        + l[3] * 0x1_0000_0000_0000_0000_0000_0000_0000_0000_0000_0000_0000_0000int
}

/// The limbs of the integer `n` modulo 2^256.
pub open spec fn limbs256_from_value(n: int) -> [u64; 4] {
    u256_from_value(n).0
}

/// `primitive_types::U256::overflowing_add` without its overflow flag: the
/// sum modulo 2^256.
#[verifier::external_body]
fn u256_wrapping_add(a: [u64; 4], b: [u64; 4]) -> (r: [u64; 4])
    ensures
        limbs256(r) == (limbs256(a) + limbs256(b)) % modulus256(),
{
    let (s, _) = primitive_types::U256(a).overflowing_add(primitive_types::U256(b));
    s.0
}

/// `primitive_types::U256::overflowing_sub` without its underflow flag: the
/// difference modulo 2^256.
#[verifier::external_body]
fn u256_wrapping_sub(a: [u64; 4], b: [u64; 4]) -> (r: [u64; 4])
    ensures
        limbs256(r) == (limbs256(a) + modulus256() - limbs256(b)) % modulus256(),
{
    let (d, _) = primitive_types::U256(a).overflowing_sub(primitive_types::U256(b));
    d.0
}

/// `primitive_types::U256::overflowing_mul` without its overflow flag: the
/// low 256 bits of the product, i.e. the product modulo 2^256.
#[verifier::external_body]
fn u256_wrapping_mul(a: [u64; 4], b: [u64; 4]) -> (r: [u64; 4])
    ensures
        limbs256(r) == (limbs256(a) * limbs256(b)) % modulus256(),
{
    let (p, _) = primitive_types::U256(a).overflowing_mul(primitive_types::U256(b));
    p.0
}

/// Four limbs masked to the low `b` bits hold their value modulo `2^b`, and
/// the bits above `b` are all clear exactly when the value is below `2^b`.
proof fn lemma_u256_mask(u: [u64; 4], m: [u64; 4], b: int)
    requires
        0 <= b,
        forall|i: int| 0 <= i < 4 ==> m[i] == limb_mask(b, i),
    ensures
        limbs256([u[0] & m[0], u[1] & m[1], u[2] & m[2], u[3] & m[3]]) == limbs256(u) % pow2(
            clamp_bits(b as nat, 256),
        ) as int,
        (limbs256([u[0] & !m[0], u[1] & !m[1], u[2] & !m[2], u[3] & !m[3]]) == 0) == (limbs256(u)
            < pow2(clamp_bits(b as nat, 256))),
{
    lemma_limb_and_mask(u[0], b, 0);
    lemma_limb_and_mask(u[1], b, 1);
    lemma_limb_and_mask(u[2], b, 2);
    lemma_limb_and_mask(u[3], b, 3);
    let rad = 0x1_0000_0000_0000_0000int;
    let masked = [u[0] & m[0], u[1] & m[1], u[2] & m[2], u[3] & m[3]];
    lemma_pow2_split(3, 0);
    lemma_pow2_split(3, 64);
    lemma2_to64();
    lemma2_to64_rest();
    assert(limbs256(u) == u[0] + rad * (u[1] + rad * (u[2] + rad * u[3])));
    if b >= 256 {
        lemma_small_mod(u[0] as nat, rad as nat);
        lemma_small_mod(u[1] as nat, rad as nat);
        lemma_small_mod(u[2] as nat, rad as nat);
        lemma_small_mod(u[3] as nat, rad as nat);
        assert(limbs256(masked) == limbs256(u));
        lemma_small_mod(limbs256(u) as nat, pow2(256));
    } else {
        let q = (b / 64) as nat;
        let c = (b % 64) as nat;
        assert(clamp_bits(b as nat, 256) == 64 * q + c);
        lemma_pow2_split(q, c);
        lemma_pow2_pos(c);
        lemma_pow2_pos((64 - c) as nat);
        let p = pow2(c) as int;
        let co = pow2((64 - c) as nat) as int;
        if q == 0 {
            assert(limb_bits(b, 0) == c);
            assert(limb_bits(b, 1) == 0);
            assert(limb_bits(b, 2) == 0);
            assert(limb_bits(b, 3) == 0);
            assert(limbs256(masked) == u[0] as int % p);
            lemma_mod_at_digit(0, 1, u[0] as int, u[1] + rad * (u[2] + rad * u[3]), p, rad, co);
        } else if q == 1 {
            assert(limb_bits(b, 0) == 64);
            assert(limb_bits(b, 1) == c);
            assert(limb_bits(b, 2) == 0);
            assert(limb_bits(b, 3) == 0);
            lemma_small_mod(u[0] as nat, rad as nat);
            assert(limbs256(masked) == u[0] + rad * (u[1] as int % p));
            lemma_mod_at_digit(u[0] as int, rad, u[1] as int, u[2] + rad * u[3], p, rad, co);
        } else if q == 2 {
            assert(limb_bits(b, 0) == 64);
            assert(limb_bits(b, 1) == 64);
            assert(limb_bits(b, 2) == c);
            assert(limb_bits(b, 3) == 0);
            lemma_small_mod(u[0] as nat, rad as nat);
            lemma_small_mod(u[1] as nat, rad as nat);
            assert(limbs256(masked) == u[0] + u[1] * rad + radix2() * (u[2] as int % p));
            assert(limbs256(u) == u[0] + u[1] * rad + radix2() * (u[2] + rad * u[3]));
            lemma_mod_at_digit(u[0] + u[1] * rad, radix2(), u[2] as int, u[3] as int, p, rad, co);
        } else {
            assert(limb_bits(b, 0) == 64);
            assert(limb_bits(b, 1) == 64);
            assert(limb_bits(b, 2) == 64);
            assert(limb_bits(b, 3) == c);
            lemma_small_mod(u[0] as nat, rad as nat);
            lemma_small_mod(u[1] as nat, rad as nat);
            lemma_small_mod(u[2] as nat, rad as nat);
            assert(limbs256(masked) == u[0] + u[1] * rad + u[2] * radix2() + modulus192() * (u[3] as int
                % p));
            assert(limbs256(u) == u[0] + u[1] * rad + u[2] * radix2() + modulus192() * (u[3] + rad * 0));
            lemma_mod_at_digit(
                u[0] + u[1] * rad + u[2] * radix2(),
                modulus192(),
                u[3] as int,
                0,
                p,
                rad,
                co,
            );
        }
    }
}

/// Facts tying the modulus of a `Z2rU256` to 2^256.
proof fn lemma_modulus256_facts(b: nat)
    ensures
        pow2(clamp_bits(b, 256)) > 0,
        pow2(256) == modulus256(),
        modulus256() % pow2(clamp_bits(b, 256)) as int == 0,
{
    let c = clamp_bits(b, 256);
    lemma_pow2_split(3, 0);
    lemma_pow2_pos(c);
    lemma_pow2_adds(c, (256 - c) as nat);
    lemma_mod_multiples_basic(pow2((256 - c) as nat) as int, pow2(c) as int);
    lemma_mul_is_commutative(pow2(c) as int, pow2((256 - c) as nat) as int);
}

/// An element of `Z/2^BIT_LENGTH`, for a bit length of at most 256, stored as
/// the four little-endian limbs of a 256-bit representative.
#[derive(Copy, Clone, Debug)]
pub struct Z2rU256<const BIT_LENGTH: usize>([u64; 4]);

impl<const BIT_LENGTH: usize> Z2rU256<BIT_LENGTH> {
    /// The bit length `k` of the ring.
    pub fn bit_length() -> (r: usize)
        ensures
            r == BIT_LENGTH,
    {
        BIT_LENGTH
    }

    /// Number of bytes needed to hold an element.
    pub fn byte_length() -> (r: usize)
        requires
            BIT_LENGTH + 7 <= usize::MAX,
        ensures
            r == (BIT_LENGTH + 7) / 8,
    {
        (BIT_LENGTH + 7) / 8
    }

    /// The limbs of the mask of the low `k` bits, `2^k - 1` (all bits when
    /// `k >= 256`).
    pub fn bit_mask() -> (r: [u64; 4])
        ensures
            forall|i: int| 0 <= i < 4 ==> r[i] == limb_mask(BIT_LENGTH as int, i),
    {
        compute_bit_mask_256(BIT_LENGTH)
    }

    /// Sum of all elements.
    pub fn sum(slice: &[Self]) -> (r: Self)
        ensures
            residue(r) == sum_residues(slice@) % Self::modulus(),
    {
        crate::ring::ring_sum(slice)
    }

    /// The limbs masked to their low `bits` bits.
    fn masked(x: [u64; 4], bits: usize) -> (r: [u64; 4])
        ensures
            limbs256(r) == limbs256(x) % pow2(clamp_bits(bits as nat, 256)) as int,
    {
        let m = compute_bit_mask_256(bits);
        proof {
            lemma_u256_mask(x, m, bits as int);
        }
        [x[0] & m[0], x[1] & m[1], x[2] & m[2], x[3] & m[3]]
    }

    /// Whether the limbs have no bits at or above position `bits`.
    fn fits(x: [u64; 4], bits: usize) -> (r: bool)
        ensures
            r == (limbs256(x) < pow2(clamp_bits(bits as nat, 256))),
    {
        let m = compute_bit_mask_256(bits);
        proof {
            lemma_u256_mask(x, m, bits as int);
        }
        let h0 = x[0] & !m[0];
        let h1 = x[1] & !m[1];
        let h2 = x[2] & !m[2];
        let h3 = x[3] & !m[3];
        h0 == 0 && h1 == 0 && h2 == 0 && h3 == 0
    }

    /// Limb-wise equality of two representatives.
    fn same_limbs(a: [u64; 4], b: [u64; 4]) -> (r: bool)
        ensures
            r == (limbs256(a) == limbs256(b)),
    {
        a[0] == b[0] && a[1] == b[1] && a[2] == b[2] && a[3] == b[3]
    }
}

impl<const BIT_LENGTH: usize> Ring for Z2rU256<BIT_LENGTH> {
    open spec fn modulus() -> int {
        pow2(clamp_bits(BIT_LENGTH as nat, 256)) as int
    }

    open spec fn repr_bits() -> nat {
        256
    }

    closed spec fn raw(self) -> int {
        limbs256(self.0)
    }

    proof fn lemma_ring_facts(self) {
        lemma_modulus256_facts(BIT_LENGTH as nat);
        if clamp_bits(BIT_LENGTH as nat, 256) < 256 {
            lemma_pow2_strictly_increases(clamp_bits(BIT_LENGTH as nat, 256), 256);
        }
    }

    fn zero() -> (r: Self) {
        Z2rU256([0, 0, 0, 0])
    }

    fn one() -> (r: Self) {
        Z2rU256([1, 0, 0, 0])
    }

    fn ring_add(self, rhs: Self) -> (r: Self) {
        proof {
            lemma_modulus256_facts(BIT_LENGTH as nat);
            lemma_mod_of_mod_multiple(limbs256(self.0) + limbs256(rhs.0), Self::modulus(), modulus256());
        }
        Z2rU256(u256_wrapping_add(self.0, rhs.0))
    }

    fn ring_sub(self, rhs: Self) -> (r: Self) {
        proof {
            let m = Self::modulus();
            lemma_modulus256_facts(BIT_LENGTH as nat);
            let d = limbs256(self.0) - limbs256(rhs.0);
            lemma_mod_of_mod_multiple(d + modulus256(), m, modulus256());
            lemma_fundamental_div_mod(modulus256(), m);
            lemma_mod_multiples_vanish(modulus256() / m, d, m);
        }
        Z2rU256(u256_wrapping_sub(self.0, rhs.0))
    }

    fn ring_mul(self, rhs: Self) -> (r: Self) {
        proof {
            lemma_modulus256_facts(BIT_LENGTH as nat);
            lemma_mod_of_mod_multiple(limbs256(self.0) * limbs256(rhs.0), Self::modulus(), modulus256());
        }
        Z2rU256(u256_wrapping_mul(self.0, rhs.0))
    }

    fn ring_neg(self) -> (r: Self) {
        proof {
            let m = Self::modulus();
            lemma_modulus256_facts(BIT_LENGTH as nat);
            let d = 0 - limbs256(self.0);
            lemma_mod_of_mod_multiple(d + modulus256(), m, modulus256());
            lemma_fundamental_div_mod(modulus256(), m);
            lemma_mod_multiples_vanish(modulus256() / m, d, m);
        }
        Z2rU256(u256_wrapping_sub([0, 0, 0, 0], self.0))
    }

    fn ring_eq(&self, other: &Self) -> (r: bool) {
        Self::same_limbs(Self::masked(self.0, BIT_LENGTH), Self::masked(other.0, BIT_LENGTH))
    }

    fn is_zero(&self) -> (r: bool) {
        proof {
            lemma_modulus256_facts(BIT_LENGTH as nat);
            lemma_small_mod(0, Self::modulus() as nat);
        }
        self.ring_eq(&Self::zero())
    }

    fn is_one(&self) -> (r: bool) {
        self.ring_eq(&Self::one())
    }

    fn reduce(&self) -> (r: Self) {
        Z2rU256(Self::masked(self.0, BIT_LENGTH))
    }

    fn is_reduced(&self) -> (r: bool) {
        Self::fits(self.0, BIT_LENGTH)
    }

    fn reduce_to<const BITS: usize>(&self) -> (r: Self) {
        Z2rU256(Self::masked(self.0, BITS))
    }

    fn is_reduced_to<const BITS: usize>(&self) -> (r: bool) {
        Self::fits(self.0, BITS)
    }

    fn reduce_to_32(&self) -> (r: u32) {
        let x = self.0[0];
        assert((x & 0xffffffff) == x % 0x1_0000_0000) by (bit_vector);
        proof {
            lemma_fundamental_div_mod_converse(
                limbs256(self.0),
                0x1_0000_0000,
                (limbs256(self.0) - x % 0x1_0000_0000) / 0x1_0000_0000,
                x as int % 0x1_0000_0000,
            );
        }
        (x & 0xffffffff) as u32
    }

    fn reduce_to_64(&self) -> (r: u64) {
        proof {
            lemma_fundamental_div_mod_converse(
                limbs256(self.0),
                0x1_0000_0000_0000_0000,
                self.0[1] + self.0[2] * 0x1_0000_0000_0000_0000int + self.0[3]
                    * 0x1_0000_0000_0000_0000_0000_0000_0000_0000int,
                self.0[0] as int,
            );
        }
        self.0[0]
    }

    fn sample(rng: &mut rand::rngs::StdRng) -> Self {
        let q0 = crate::random::random_u64(rng);
        let q1 = crate::random::random_u64(rng);
        let q2 = crate::random::random_u64(rng);
        let q3 = crate::random::random_u64(rng);
        Z2rU256([q0, q1, q2, q3])
    }
}

impl<const BIT_LENGTH: usize> Z2rU256<BIT_LENGTH> {
    /// The limbs of the representative.
    pub closed spec fn repr(self) -> [u64; 4] {
        self.0
    }

    /// `raw` is the value of the limbs of the representative.
    pub proof fn lemma_repr(self)
        ensures
            self.raw() == limbs256(self.repr()),
    {
    }
}

impl<const BIT_LENGTH: usize> Default for Z2rU256<BIT_LENGTH> {
    fn default() -> (r: Self)
        ensures
            r.raw() == 0,
    {
        Z2rU256([0, 0, 0, 0])
    }
}

impl<const BIT_LENGTH: usize> From<[u64; 4]> for Z2rU256<BIT_LENGTH> {
    /// The element whose representative has the given little-endian limbs.
    fn from(x: [u64; 4]) -> (r: Self)
        ensures
            r.raw() == limbs256(x),
            r.repr() == x,
    {
        Z2rU256(x)
    }
}

impl<const BIT_LENGTH: usize> vstd::std_specs::convert::FromSpecImpl<[u64; 4]> for Z2rU256<BIT_LENGTH> {
    open spec fn obeys_from_spec() -> bool {
        true
    }

    closed spec fn from_spec(v: [u64; 4]) -> Self {
        Z2rU256(v)
    }
}

impl<const BIT_LENGTH: usize> PartialEq for Z2rU256<BIT_LENGTH> {
    /// Two values are equal when they stand for the same ring element.
    fn eq(&self, other: &Self) -> (r: bool) {
        self.ring_eq(other)
    }
}

impl<const BIT_LENGTH: usize> vstd::std_specs::cmp::PartialEqSpecImpl for Z2rU256<BIT_LENGTH> {
    open spec fn obeys_eq_spec() -> bool {
        true
    }

    open spec fn eq_spec(&self, other: &Self) -> bool {
        limbs256(self.repr()) % pow2(clamp_bits(BIT_LENGTH as nat, 256)) as int == limbs256(other.repr())
            % pow2(clamp_bits(BIT_LENGTH as nat, 256)) as int
    }
}

impl<const BIT_LENGTH: usize> Eq for Z2rU256<BIT_LENGTH> {}

impl<const BIT_LENGTH: usize> core::ops::Add<Self> for Z2rU256<BIT_LENGTH> {
    type Output = Self;

    /// Wrapping add of the representatives, modulo 2^256.
    fn add(self, rhs: Self) -> (r: Self)
        ensures
            r.raw() == (self.raw() + rhs.raw()) % modulus256(),
    {
        Z2rU256(u256_wrapping_add(self.0, rhs.0))
    }
}

impl<const BIT_LENGTH: usize> vstd::std_specs::ops::AddSpecImpl<Self> for Z2rU256<BIT_LENGTH> {
    open spec fn obeys_add_spec() -> bool {
        false
    }

    open spec fn add_req(self, rhs: Self) -> bool {
        true
    }

    closed spec fn add_spec(self, rhs: Self) -> Self {
        Z2rU256(limbs256_from_value(limbs256(self.0) + limbs256(rhs.0)))
    }
}

impl<const BIT_LENGTH: usize> core::ops::AddAssign<Self> for Z2rU256<BIT_LENGTH> {
    fn add_assign(&mut self, rhs: Self)
        ensures
            final(self).raw() == (old(self).raw() + rhs.raw()) % modulus256(),
    {
        *self = *self + rhs;
    }
}

impl<const BIT_LENGTH: usize> core::ops::Sub<Self> for Z2rU256<BIT_LENGTH> {
    type Output = Self;

    /// Wrapping subtraction of the representatives, modulo 2^256.
    fn sub(self, rhs: Self) -> (r: Self)
        ensures
            r.raw() == (self.raw() + modulus256() - rhs.raw()) % modulus256(),
    {
        Z2rU256(u256_wrapping_sub(self.0, rhs.0))
    }
}

impl<const BIT_LENGTH: usize> vstd::std_specs::ops::SubSpecImpl<Self> for Z2rU256<BIT_LENGTH> {
    open spec fn obeys_sub_spec() -> bool {
        false
    }

    open spec fn sub_req(self, rhs: Self) -> bool {
        true
    }

    closed spec fn sub_spec(self, rhs: Self) -> Self {
        Z2rU256(limbs256_from_value(limbs256(self.0) + modulus256() - limbs256(rhs.0)))
    }
}

impl<const BIT_LENGTH: usize> core::ops::SubAssign<Self> for Z2rU256<BIT_LENGTH> {
    fn sub_assign(&mut self, rhs: Self)
        ensures
            final(self).raw() == (old(self).raw() + modulus256() - rhs.raw()) % modulus256(),
    {
        *self = *self - rhs;
    }
}

impl<const BIT_LENGTH: usize> core::ops::Mul<Self> for Z2rU256<BIT_LENGTH> {
    type Output = Self;

    /// Wrapping multiplication of the representatives, modulo 2^256.
    fn mul(self, rhs: Self) -> (r: Self)
        ensures
            r.raw() == (self.raw() * rhs.raw()) % modulus256(),
    {
        Z2rU256(u256_wrapping_mul(self.0, rhs.0))
    }
}

impl<const BIT_LENGTH: usize> vstd::std_specs::ops::MulSpecImpl<Self> for Z2rU256<BIT_LENGTH> {
    open spec fn obeys_mul_spec() -> bool {
        false
    }

    open spec fn mul_req(self, rhs: Self) -> bool {
        true
    }

    closed spec fn mul_spec(self, rhs: Self) -> Self {
        Z2rU256(limbs256_from_value(limbs256(self.0) * limbs256(rhs.0)))
    }
}

impl<const BIT_LENGTH: usize> core::ops::MulAssign<Self> for Z2rU256<BIT_LENGTH> {
    fn mul_assign(&mut self, rhs: Self)
        ensures
            final(self).raw() == (old(self).raw() * rhs.raw()) % modulus256(),
    {
        *self = *self * rhs;
    }
}

impl<const BIT_LENGTH: usize> core::ops::Neg for Z2rU256<BIT_LENGTH> {
    type Output = Self;

    /// Negation of the representative, computed as `0 - x` modulo 2^256.
    fn neg(self) -> (r: Self)
        ensures
            r.raw() == (modulus256() - self.raw()) % modulus256(),
    {
        Z2rU256(u256_wrapping_sub([0, 0, 0, 0], self.0))
    }
}

impl<const BIT_LENGTH: usize> vstd::std_specs::ops::NegSpecImpl for Z2rU256<BIT_LENGTH> {
    open spec fn obeys_neg_spec() -> bool {
        false
    }

    open spec fn neg_req(self) -> bool {
        true
    }

    closed spec fn neg_spec(self) -> Self {
        Z2rU256(limbs256_from_value(modulus256() - limbs256(self.0)))
    }
}

} // verus!
