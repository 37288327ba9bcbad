//! Fixed-width unsigned integers of 192 and 256 bits, stored as little-endian
//! 64-bit limbs.  All arithmetic wraps around modulo 2^192 resp. 2^256.
use vstd::prelude::*;
use vstd::arithmetic::div_mod::{
    lemma_add_mod_noop, lemma_fundamental_div_mod_converse, lemma_mod_multiples_basic, lemma_small_mod,
};
use vstd::arithmetic::power2::{lemma2_to64, lemma2_to64_rest, lemma_pow2_adds, lemma_pow2_pos, pow2};
use vstd::arithmetic::mul::{lemma_mul_is_associative, lemma_mul_is_commutative};
use crate::limb::{adc, lemma_shl_limb, mac, radix, sbb, split};

verus! {

/// 2^128.
pub open spec fn radix2() -> int {
    0x1_0000_0000_0000_0000_0000_0000_0000_0000int
}

/// 2^192, the modulus of `U192`.
pub open spec fn modulus192() -> int {
    0x1_0000_0000_0000_0000_0000_0000_0000_0000_0000_0000_0000_0000int
}

/// 2^256, the modulus of `U256`.
pub open spec fn modulus256() -> int {
    0x1_0000_0000_0000_0000_0000_0000_0000_0000_0000_0000_0000_0000_0000_0000_0000_0000int
}

/// A 192-bit unsigned integer; limb 0 is the least significant one.
#[derive(Debug, Copy, Clone)]
pub struct U192(pub [u64; 3]);

/// A 256-bit unsigned integer; limb 0 is the least significant one.
#[derive(Debug, Copy, Clone)]
pub struct U256(pub [u64; 4]);

impl U192 {
    /// The integer 0.
    pub fn zero() -> (r: Self)
        ensures
            r.value() == 0,
    {
        U192([0, 0, 0])
    }

    /// The integer 1.
    pub fn one() -> (r: Self)
        ensures
            r.value() == 1,
    {
        U192([1, 0, 0])
    }

    /// The smallest value, 0.
    pub fn min_value() -> (r: Self)
        ensures
            r.value() == 0,
    {
        U192([0, 0, 0])
    }

    /// The largest value, 2^192 - 1.
    pub fn max_value() -> (r: Self)
        ensures
            r.value() == modulus192() - 1,
    {
        U192([0xffffffffffffffff, 0xffffffffffffffff, 0xffffffffffffffff])
    }

    /// The integer that the limbs stand for.
    pub open spec fn value(self) -> int {
        self.0[0] + self.0[1] * 0x1_0000_0000_0000_0000int + self.0[2]
            * 0x1_0000_0000_0000_0000_0000_0000_0000_0000int
    }

    pub fn is_zero(&self) -> (r: bool)
        ensures
            r == (self.value() == 0),
    {
        *self == Self::zero()
    }

    pub fn is_one(&self) -> (r: bool)
        ensures
            r == (self.value() == 1),
    {
        *self == Self::one()
    }

    /// Sum of all elements, modulo 2^192.
    pub fn sum(slice: &[Self]) -> (r: Self)
        ensures
            r.value() == sum_values192(slice@) % modulus192(),
    {
        let mut s = Self::zero();
        let mut i: usize = 0;
        while i < slice.len()
            invariant
                i <= slice.len(),
                s.value() == sum_values192(slice@.take(i as int)) % modulus192(),
            decreases slice.len() - i,
        {
            proof {
                assert(slice@.take(i + 1).drop_last() == slice@.take(i as int));
                lemma_add_mod_noop(
                    sum_values192(slice@.take(i as int)),
                    slice@[i as int].value(),
                    modulus192(),
                );
                lemma_small_mod(slice@[i as int].value() as nat, modulus192() as nat);
            }
            s = s + slice[i];
            i += 1;
        }
        assert(slice@.take(slice.len() as int) == slice@);
        s
    }
}

/// The `U192` whose value is `n` modulo 2^192.
pub open spec fn u192_from_value(n: int) -> U192 {
    U192(
        [
            (n % 0x1_0000_0000_0000_0000) as u64,
            (n / 0x1_0000_0000_0000_0000 % 0x1_0000_0000_0000_0000) as u64,
            (n / 0x1_0000_0000_0000_0000_0000_0000_0000_0000int % 0x1_0000_0000_0000_0000) as u64,
        ],
    )
}

/// A three-digit number in radix `r` times a single digit.
proof fn lemma_digits3_times(u0: int, u1: int, u2: int, v: int, r: int)
    by (nonlinear_arith)
    ensures
        (u0 + u1 * r + u2 * (r * r)) * v == u0 * v + (u1 * v) * r + (u2 * v) * (r * r),
{
}

/// A number times a three-digit number in radix `r`.
proof fn lemma_times_digits3(a: int, v0: int, v1: int, v2: int, r: int)
    by (nonlinear_arith)
    ensures
        a * (v0 + v1 * r + v2 * (r * r)) == a * v0 + (a * v1) * r + (a * v2) * (r * r),
{
}

/// `r` is `a` shifted left by `n` bits: `a * 2^n` modulo 2^192, except for shifts by
/// exactly 0 or 64 bits, where neighbouring limbs are ORed together.
pub open spec fn is_shl192(a: U192, n: u32, r: U192) -> bool {
    &&& n % 64 != 0 || n >= 128 ==> r.value() == (a.value() * pow2(n as nat)) % modulus192()
    &&& n == 0 ==> r.0[0] == a.0[0] && r.0[1] == a.0[1] | a.0[0] && r.0[2] == a.0[2] | a.0[1]
    &&& n == 64 ==> r.0[0] == 0 && r.0[1] == a.0[0] && r.0[2] == a.0[1] | a.0[0]
}

/// The complement of a word is its distance to the largest word.
proof fn lemma_not_limb(x: u64)
    ensures
        !x == 0xffff_ffff_ffff_ffff - x,
{
    assert(!x + x == 0xffff_ffff_ffff_ffff) by (bit_vector);
}

/// Bits shifted into a word from below do not overlap the word shifted left.
proof fn lemma_or_is_add(a: u64, b: u64, k: u32)
    requires
        0 < k < 64,
    ensures
        (a << k) | (b >> ((64 - k) as u32)) == (a << k) + (b >> ((64 - k) as u32)),
{
    assert((a << k) | (b >> ((64 - k) as u32)) == (a << k) + (b >> ((64 - k) as u32)))
        by (bit_vector)
        requires
            0 < k < 64,
    ;
}

/// Shifting by zero bits keeps a word.
proof fn lemma_shl_zero(x: u64)
    ensures
        x << 0u32 == x,
{
    assert(x << 0u32 == x) by (bit_vector);
}

/// Shifting right by zero bits keeps a word.
proof fn lemma_shr_zero(x: u64)
    ensures
        x >> 0u32 == x,
{
    assert(x >> 0u32 == x) by (bit_vector);
}

/// `2^(64 j + k)` splits into `2^(64 j)` and `2^k`.
proof fn lemma_pow2_limbs(j: nat, k: nat)
    requires
        j <= 4,
    ensures
        j == 0 ==> pow2(k) == pow2(64 * j + k),
        j == 1 ==> pow2(k) * radix() == pow2(64 * j + k),
        j == 2 ==> pow2(k) * radix2() == pow2(64 * j + k),
        j == 3 ==> pow2(k) * modulus192() == pow2(64 * j + k),
        j == 4 ==> pow2(k) * modulus256() == pow2(64 * j + k),
{
    lemma2_to64_rest();
    lemma_pow2_adds(64, 64);
    lemma_pow2_adds(128, 64);
    lemma_pow2_adds(192, 64);
    lemma_pow2_adds(64 * j, k);
    lemma_mul_is_commutative(pow2(64 * j) as int, pow2(k) as int);
}

/// A four-digit number in radix `r` times a single digit.
proof fn lemma_digits4_times(u0: int, u1: int, u2: int, u3: int, v: int, r: int)
    by (nonlinear_arith)
    ensures
        (u0 + u1 * r + u2 * (r * r) + u3 * (r * r * r)) * v == u0 * v + (u1 * v) * r + (u2 * v) * (
        r * r) + (u3 * v) * (r * r * r),
{
}

/// A number times a four-digit number in radix `r`.
proof fn lemma_times_digits4(a: int, v0: int, v1: int, v2: int, v3: int, r: int)
    by (nonlinear_arith)
    ensures
        a * (v0 + v1 * r + v2 * (r * r) + v3 * (r * r * r)) == a * v0 + (a * v1) * r + (a * v2) * (
        r * r) + (a * v3) * (r * r * r),
{
}

/// Sum of the integer values of a sequence of `U192`s.
pub open spec fn sum_values192(s: Seq<U192>) -> int
    decreases s.len(),
{
    if s.len() == 0 {
        0
    } else {
        sum_values192(s.drop_last()) + s.last().value()
    }
}

impl PartialEq for U192 {
    fn eq(&self, other: &Self) -> (r: bool) {
        self.0[0] == other.0[0] && self.0[1] == other.0[1] && self.0[2] == other.0[2]
    }
}

impl vstd::std_specs::cmp::PartialEqSpecImpl for U192 {
    open spec fn obeys_eq_spec() -> bool {
        true
    }

    open spec fn eq_spec(&self, other: &Self) -> bool {
        self.0[0] == other.0[0] && self.0[1] == other.0[1] && self.0[2] == other.0[2]
    }
}

impl Eq for U192 {}

impl PartialOrd for U192 {
    /// Orders by the integer value, comparing the most significant limbs first.
    fn partial_cmp(&self, other: &Self) -> (r: Option<core::cmp::Ordering>) {
        let (u, v) = (&self.0, &other.0);
        if u[2] != v[2] {
            if u[2] < v[2] {
                Some(core::cmp::Ordering::Less)
            } else {
                Some(core::cmp::Ordering::Greater)
            }
        } else if u[1] != v[1] {
            if u[1] < v[1] {
                Some(core::cmp::Ordering::Less)
            } else {
                Some(core::cmp::Ordering::Greater)
            }
        } else if u[0] < v[0] {
            Some(core::cmp::Ordering::Less)
        } else if u[0] > v[0] {
            Some(core::cmp::Ordering::Greater)
        } else {
            Some(core::cmp::Ordering::Equal)
        }
    }
}

impl vstd::std_specs::cmp::PartialOrdSpecImpl for U192 {
    open spec fn obeys_partial_cmp_spec() -> bool {
        true
    }

    open spec fn partial_cmp_spec(&self, other: &Self) -> Option<core::cmp::Ordering> {
        if self.value() < other.value() {
            Some(core::cmp::Ordering::Less)
        } else if self.value() > other.value() {
            Some(core::cmp::Ordering::Greater)
        } else {
            Some(core::cmp::Ordering::Equal)
        }
    }
}

impl From<u128> for U192 {
    fn from(x: u128) -> (r: Self)
        ensures
            r.value() == x,
    {
        let (lo, hi) = split(x);
        U192([lo, hi, 0])
    }
}

impl vstd::std_specs::convert::FromSpecImpl<u128> for U192 {
    open spec fn obeys_from_spec() -> bool {
        false
    }

    open spec fn from_spec(v: u128) -> U192 {
        u192_from_value(v as int)
    }
}

impl core::ops::Add<U192> for U192 {
    type Output = Self;

    fn add(self, other: Self) -> (r: Self)
        ensures
            r.value() == (self.value() + other.value()) % modulus192(),
    {
        let u = &self.0;
        let v = &other.0;
        let (w0, c0) = adc(u[0], v[0], false);
        let (w1, c1) = adc(u[1], v[1], c0);
        let (w2, c2) = adc(u[2], v[2], c1);
        let r = U192([w0, w1, w2]);
        proof {
            let k: int = if c2 { 1 } else { 0 };
            assert(self.value() + other.value() == k * modulus192() + r.value());
            lemma_fundamental_div_mod_converse(
                self.value() + other.value() ,
                modulus192(),
                k,
                r.value(),
            );
        }
        r
    }
}

impl vstd::std_specs::ops::AddSpecImpl<U192> for U192 {
    open spec fn obeys_add_spec() -> bool {
        false
    }

    open spec fn add_req(self, rhs: U192) -> bool {
        true
    }

    open spec fn add_spec(self, rhs: U192) -> U192 {
        u192_from_value(self.value() + rhs.value())
    }
}


impl core::ops::Add<u64> for U192 {
    type Output = Self;

    fn add(self, other: u64) -> (r: Self)
        ensures
            r.value() == (self.value() + other) % modulus192(),
    {
        let u = &self.0;
        let (w0, o0) = adc(u[0], other, false);
        let (w1, o1) = adc(u[1], 0, o0);
        let (w2, o2) = adc(u[2], 0, o1);
        let r = U192([w0, w1, w2]);
        proof {
            let k: int = if o2 { 1 } else { 0 };
            assert(self.value() + other == k * modulus192() + r.value());
            lemma_fundamental_div_mod_converse(
                self.value() + other ,
                modulus192(),
                k,
                r.value(),
            );
        }
        r
    }
}

impl vstd::std_specs::ops::AddSpecImpl<u64> for U192 {
    open spec fn obeys_add_spec() -> bool {
        false
    }

    open spec fn add_req(self, rhs: u64) -> bool {
        true
    }

    open spec fn add_spec(self, rhs: u64) -> U192 {
        u192_from_value(self.value() + rhs)
    }
}

impl core::ops::AddAssign<U192> for U192 {
    fn add_assign(&mut self, other: Self)
        ensures
            final(self).value() == (old(self).value() + other.value()) % modulus192(),
    {
        *self = *self + other;
    }
}

impl core::ops::Sub<U192> for U192 {
    type Output = Self;

    fn sub(self, other: Self) -> (r: Self)
        ensures
            r.value() == (self.value() + modulus192() - other.value()) % modulus192(),
    {
        let u = &self.0;
        let v = &other.0;
        let (w0, b0) = sbb(u[0], v[0], false);
        let (w1, b1) = sbb(u[1], v[1], b0);
        let (w2, b2) = sbb(u[2], v[2], b1);
        let r = U192([w0, w1, w2]);
        proof {
            let k: int = if b2 { 0 } else { 1 };
            assert(self.value() + modulus192() - other.value() == k * modulus192() + r.value());
            lemma_fundamental_div_mod_converse(
                self.value() + modulus192() - other.value(),
                modulus192() as int,
                k,
                r.value(),
            );
        }
        r
    }
}

impl vstd::std_specs::ops::SubSpecImpl<U192> for U192 {
    open spec fn obeys_sub_spec() -> bool {
        false
    }

    open spec fn sub_req(self, rhs: U192) -> bool {
        true
    }

    open spec fn sub_spec(self, rhs: U192) -> U192 {
        u192_from_value(self.value() + modulus192() - rhs.value())
    }
}

impl core::ops::SubAssign<U192> for U192 {
    fn sub_assign(&mut self, other: Self)
        ensures
            final(self).value() == (old(self).value() + modulus192() - other.value())
                % modulus192(),
    {
        *self = *self - other;
    }
}

impl core::ops::Neg for U192 {
    type Output = Self;

    fn neg(self) -> (r: Self)
        ensures
            r.value() == (modulus192() - self.value()) % modulus192(),
    {
        Self::zero() - self
    }
}

impl vstd::std_specs::ops::NegSpecImpl for U192 {
    open spec fn obeys_neg_spec() -> bool {
        false
    }

    open spec fn neg_req(self) -> bool {
        true
    }

    open spec fn neg_spec(self) -> U192 {
        u192_from_value(modulus192() - self.value())
    }
}

impl core::ops::Mul<U192> for U192 {
    type Output = Self;

    fn mul(self, other: Self) -> (r: Self)
        ensures
            r.value() == (self.value() * other.value()) % modulus192(),
    {
        let u = &self.0;
        let v = &other.0;
        // schoolbook multiplication; each row is shifted by one limb, and the
        // carries that leave the lowest three limbs are dropped
        let (w0, c) = mac(0, u[0], v[0], 0);
        let (w1, c) = mac(0, u[1], v[0], c);
        let (w2, c00) = mac(0, u[2], v[0], c);
        let (w1, c) = mac(w1, u[0], v[1], 0);
        let (w2, c) = mac(w2, u[1], v[1], c);
        let (w3, c11) = mac(0, u[2], v[1], c);
        let (w2, c) = mac(w2, u[0], v[2], 0);
        let (w3, c) = mac(w3, u[1], v[2], c);
        let (w4, c22) = mac(0, u[2], v[2], c);
        let r = U192([w0, w1, w2]);
        proof {
            let a = self.value();
            let b = other.value();
            let (u0, u1, u2) = (u[0] as int, u[1] as int, u[2] as int);
            let (v0, v1, v2) = (v[0] as int, v[1] as int, v[2] as int);
            let rad = 0x1_0000_0000_0000_0000int;
            lemma_times_digits3(a, v0, v1, v2, rad);
            lemma_digits3_times(u0, u1, u2, v0, rad);
            lemma_digits3_times(u0, u1, u2, v1, rad);
            lemma_digits3_times(u0, u1, u2, v2, rad);
            let k = w3 + w4 * rad + c00 + c11 * rad + c22 * rad * rad;
            assert(a * b == k * modulus192() + r.value());
            lemma_fundamental_div_mod_converse(a * b, modulus192(), k, r.value());
        }
        r
    }
}

impl vstd::std_specs::ops::MulSpecImpl<U192> for U192 {
    open spec fn obeys_mul_spec() -> bool {
        false
    }

    open spec fn mul_req(self, rhs: U192) -> bool {
        true
    }

    open spec fn mul_spec(self, rhs: U192) -> U192 {
        u192_from_value(self.value() * rhs.value())
    }
}

impl core::ops::MulAssign<U192> for U192 {
    fn mul_assign(&mut self, other: Self)
        ensures
            final(self).value() == (old(self).value() * other.value()) % modulus192(),
    {
        *self = *self * other;
    }
}


impl vstd::std_specs::ops::ShlSpecImpl<u32> for U192 {
    open spec fn obeys_shl_spec() -> bool {
        false
    }

    open spec fn shl_req(self, rhs: u32) -> bool {
        true
    }

    open spec fn shl_spec(self, rhs: u32) -> U192 {
        u192_from_value(self.value() * pow2(rhs as nat))
    }
}

impl core::ops::Shl<u32> for U192 {
    type Output = Self;

    /// Shifts left by `other` bits.  For a shift by exactly 0 or 64 bits the bits
    /// that would come from the next lower limb are taken unshifted (the right
    /// shift by 64 wraps to a shift by 0), so those two shifts OR neighbouring limbs.
    fn shl(self, other: u32) -> (r: Self)
        ensures
            is_shl192(self, other, r),
    {
        let u = &self.0;
        let ghost a = self.value();
        proof {
            lemma_pow2_pos(other as nat);
        }
        if other >= 192 {
            proof {
                lemma_pow2_limbs(3, (other - 192) as nat);
                lemma_mod_multiples_basic(a * pow2((other - 192) as nat), modulus192());
                lemma_mul_is_associative(a, pow2((other - 192) as nat) as int, modulus192());
            }
            Self::zero()
        } else if other >= 128 {
            let r = Self([0, 0, u[0].wrapping_shl(other - 128)]);
            proof {
                let k = (other - 128) as u32;
                let p = pow2(k as nat) as int;
                lemma_pow2_limbs(2, k as nat);
                lemma_mul_is_associative(a, p, radix2());
                lemma_digits3_times(u[0] as int, u[1] as int, u[2] as int, p, radix() as int);
                let h: int = if k == 0 {
                    0
                } else {
                    lemma_shl_limb(u[0], k);
                    (u[0] >> ((64 - k) as u32)) as int
                };
                lemma_shl_zero(u[0]);
                lemma2_to64();
                lemma2_to64_rest();
                assert(a * p * radix2() == r.value() + (h + p * u[1] + p * u[2] * radix())
                    * modulus192()) by {
                    lemma_mul_is_commutative(p, u[1] as int);
                    lemma_mul_is_commutative(p, u[2] as int);
                    lemma_mul_is_commutative(p, u[0] as int);
                }
                lemma_fundamental_div_mod_converse(
                    a * pow2(other as nat),
                    modulus192(),
                    h + p * u[1] + p * u[2] * radix(),
                    r.value(),
                );
            }
            r
        } else if other >= 64 {
            let r = Self(
                [
                    0u64,
                    u[0].wrapping_shl(other - 64),
                    u[1].wrapping_shl(other - 64) | u[0].wrapping_shr(128 - other),
                ],
            );
            proof {
                let k = (other - 64) as u32;
                if k == 0 {
                    lemma_shl_zero(u[0]);
                    lemma_shl_zero(u[1]);
                    lemma_shr_zero(u[0]);
                } else {
                    let p = pow2(k as nat) as int;
                    lemma_pow2_limbs(1, k as nat);
                    lemma_mul_is_associative(a, p, radix() as int);
                    lemma_digits3_times(u[0] as int, u[1] as int, u[2] as int, p, radix() as int);
                    lemma_shl_limb(u[0], k);
                    lemma_shl_limb(u[1], k);
                    lemma_or_is_add(u[1], u[0], k);
                    let h1 = (u[1] >> ((64 - k) as u32)) as int;
                    lemma2_to64_rest();
                    assert(a * p * radix() == r.value() + (h1 + p * u[2]) * modulus192()) by {
                        lemma_mul_is_commutative(p, u[1] as int);
                        lemma_mul_is_commutative(p, u[2] as int);
                        lemma_mul_is_commutative(p, u[0] as int);
                    }
                    lemma_fundamental_div_mod_converse(
                        a * pow2(other as nat),
                        modulus192(),
                        h1 + p * u[2],
                        r.value(),
                    );
                }
            }
            r
        } else {
            let r = Self(
                [
                    u[0].wrapping_shl(other),
                    u[1].wrapping_shl(other) | u[0].wrapping_shr(64 - other),
                    u[2].wrapping_shl(other) | u[1].wrapping_shr(64 - other),
                ],
            );
            proof {
                let k = other;
                if k == 0 {
                    lemma_shl_zero(u[0]);
                    lemma_shl_zero(u[1]);
                    lemma_shl_zero(u[2]);
                    lemma_shr_zero(u[0]);
                    lemma_shr_zero(u[1]);
                } else {
                    let p = pow2(k as nat) as int;
                    lemma_digits3_times(u[0] as int, u[1] as int, u[2] as int, p, radix() as int);
                    lemma_shl_limb(u[0], k);
                    lemma_shl_limb(u[1], k);
                    lemma_shl_limb(u[2], k);
                    lemma_or_is_add(u[1], u[0], k);
                    lemma_or_is_add(u[2], u[1], k);
                    let h2 = (u[2] >> ((64 - k) as u32)) as int;
                    assert(a * p == r.value() + h2 * modulus192()) by {
                        lemma_mul_is_commutative(p, u[1] as int);
                        lemma_mul_is_commutative(p, u[2] as int);
                        lemma_mul_is_commutative(p, u[0] as int);
                    }
                    lemma_fundamental_div_mod_converse(a * p, modulus192(), h2, r.value());
                }
            }
            r
        }
    }
}


impl core::ops::Shl<usize> for U192 {
    type Output = Self;

    /// Shifts left by `other` bits, taken as a `u32`.
    fn shl(self, other: usize) -> (r: Self)
        ensures
            is_shl192(self, other as u32, r),
    {
        self << other as u32
    }
}

impl vstd::std_specs::ops::ShlSpecImpl<usize> for U192 {
    open spec fn obeys_shl_spec() -> bool {
        false
    }

    open spec fn shl_req(self, rhs: usize) -> bool {
        true
    }

    open spec fn shl_spec(self, rhs: usize) -> U192 {
        u192_from_value(self.value() * pow2(rhs as u32 as nat))
    }
}

impl core::ops::ShlAssign<u32> for U192 {
    fn shl_assign(&mut self, other: u32)
        ensures
            is_shl192(*old(self), other, *final(self)),
    {
        *self = *self << other;
    }
}

impl core::ops::ShlAssign<usize> for U192 {
    fn shl_assign(&mut self, other: usize)
        ensures
            is_shl192(*old(self), other as u32, *final(self)),
    {
        *self = *self << other as u32;
    }
}

impl core::ops::Mul<u64> for U192 {
    type Output = Self;

    fn mul(self, other: u64) -> (r: Self)
        ensures
            r.value() == (self.value() * other) % modulus192(),
    {
        let u = &self.0;
        let (w0, c) = mac(0, u[0], other, 0);
        let (w1, c) = mac(0, u[1], other, c);
        let (w2, c) = mac(0, u[2], other, c);
        let r = U192([w0, w1, w2]);
        proof {
            let rad = 0x1_0000_0000_0000_0000int;
            lemma_digits3_times(u[0] as int, u[1] as int, u[2] as int, other as int, rad);
            assert(self.value() * other == c * modulus192() + r.value());
            lemma_fundamental_div_mod_converse(
                self.value() * other,
                modulus192(),
                c as int,
                r.value(),
            );
        }
        r
    }
}

impl vstd::std_specs::ops::MulSpecImpl<u64> for U192 {
    open spec fn obeys_mul_spec() -> bool {
        false
    }

    open spec fn mul_req(self, rhs: u64) -> bool {
        true
    }

    open spec fn mul_spec(self, rhs: u64) -> U192 {
        u192_from_value(self.value() * rhs)
    }
}

impl core::ops::Not for U192 {
    type Output = Self;

    fn not(self) -> (r: Self)
        ensures
            r.value() == modulus192() - 1 - self.value(),
            forall|i: int| 0 <= i < 3 ==> r.0[i] == !self.0[i],
    {
        let u = &self.0;
        let r = Self([!u[0], !u[1], !u[2]]);
        proof {
            lemma_not_limb(u[0]);
            lemma_not_limb(u[1]);
            lemma_not_limb(u[2]);
        }
        r
    }
}

impl vstd::std_specs::ops::NotSpecImpl for U192 {
    open spec fn obeys_not_spec() -> bool {
        false
    }

    open spec fn not_req(self) -> bool {
        true
    }

    open spec fn not_spec(self) -> U192 {
        u192_from_value(modulus192() - 1 - self.value())
    }
}

impl core::ops::BitAnd<U192> for U192 {
    type Output = Self;

    fn bitand(self, other: Self) -> (r: Self)
        ensures
            forall|i: int| 0 <= i < 3 ==> r.0[i] == self.0[i] & other.0[i],
    {
        let u = &self.0;
        let v = &other.0;
        Self([u[0] & v[0], u[1] & v[1], u[2] & v[2]])
    }
}

impl vstd::std_specs::ops::BitAndSpecImpl<U192> for U192 {
    open spec fn obeys_bitand_spec() -> bool {
        true
    }

    open spec fn bitand_req(self, rhs: U192) -> bool {
        true
    }

    open spec fn bitand_spec(self, rhs: U192) -> U192 {
        U192([self.0[0] & rhs.0[0], self.0[1] & rhs.0[1], self.0[2] & rhs.0[2]])
    }
}

impl core::ops::BitAndAssign<U192> for U192 {
    fn bitand_assign(&mut self, other: Self)
        ensures
            forall|i: int| 0 <= i < 3 ==> final(self).0[i] == old(self).0[i] & other.0[i],
    {
        *self = *self & other;
    }
}


impl U256 {
    /// The integer that the limbs stand for.
    pub open spec fn value(self) -> int {
        self.0[0] + self.0[1] * 0x1_0000_0000_0000_0000int + self.0[2]
            * 0x1_0000_0000_0000_0000_0000_0000_0000_0000int + self.0[3]
            * 0x1_0000_0000_0000_0000_0000_0000_0000_0000_0000_0000_0000_0000int
    }

    /// The integer 0.
    pub fn zero() -> (r: Self)
        ensures
            r.value() == 0,
    {
        U256([0, 0, 0, 0])
    }

    /// The integer 1.
    pub fn one() -> (r: Self)
        ensures
            r.value() == 1,
    {
        U256([1, 0, 0, 0])
    }

    /// The smallest value, 0.
    pub fn min_value() -> (r: Self)
        ensures
            r.value() == 0,
    {
        U256([0, 0, 0, 0])
    }

    /// The largest value, 2^256 - 1.
    pub fn max_value() -> (r: Self)
        ensures
            r.value() == modulus256() - 1,
    {
        U256([0xffffffffffffffff, 0xffffffffffffffff, 0xffffffffffffffff, 0xffffffffffffffff])
    }

    pub fn is_zero(&self) -> (r: bool)
        ensures
            r == (self.value() == 0),
    {
        *self == Self::zero()
    }

    pub fn is_one(&self) -> (r: bool)
        ensures
            r == (self.value() == 1),
    {
        *self == Self::one()
    }

    /// Sum of all elements, modulo 2^256.
    pub fn sum(slice: &[Self]) -> (r: Self)
        ensures
            r.value() == sum_values256(slice@) % modulus256(),
    {
        let mut s = Self::zero();
        let mut i: usize = 0;
        while i < slice.len()
            invariant
                i <= slice.len(),
                s.value() == sum_values256(slice@.take(i as int)) % modulus256(),
            decreases slice.len() - i,
        {
            proof {
                assert(slice@.take(i + 1).drop_last() == slice@.take(i as int));
                lemma_add_mod_noop(
                    sum_values256(slice@.take(i as int)),
                    slice@[i as int].value(),
                    modulus256(),
                );
                lemma_small_mod(slice@[i as int].value() as nat, modulus256() as nat);
            }
            s = s + slice[i];
            i += 1;
        }
        assert(slice@.take(slice.len() as int) == slice@);
        s
    }
}

/// The `U256` whose value is `n` modulo 2^256.
pub open spec fn u256_from_value(n: int) -> U256 {
    U256(
        [
            (n % 0x1_0000_0000_0000_0000) as u64,
            (n / 0x1_0000_0000_0000_0000 % 0x1_0000_0000_0000_0000) as u64,
            (n / 0x1_0000_0000_0000_0000_0000_0000_0000_0000int % 0x1_0000_0000_0000_0000) as u64,
            (n / 0x1_0000_0000_0000_0000_0000_0000_0000_0000_0000_0000_0000_0000int
                % 0x1_0000_0000_0000_0000) as u64,
        ],
    )
}

/// Sum of the integer values of a sequence of `U256`s.
pub open spec fn sum_values256(s: Seq<U256>) -> int
    decreases s.len(),
{
    if s.len() == 0 {
        0
    } else {
        sum_values256(s.drop_last()) + s.last().value()
    }
}

/// `r` is `a` shifted left by `n` bits: `a * 2^n` modulo 2^256, except for shifts by
/// exactly 0, 64 or 128 bits, where neighbouring limbs are ORed together.
pub open spec fn is_shl256(a: U256, n: u32, r: U256) -> bool {
    &&& n % 64 != 0 || n >= 192 ==> r.value() == (a.value() * pow2(n as nat)) % modulus256()
    &&& n == 0 ==> r.0[0] == a.0[0] && r.0[1] == a.0[1] | a.0[0] && r.0[2] == a.0[2] | a.0[1]
        && r.0[3] == a.0[3] | a.0[2]
    &&& n == 64 ==> r.0[0] == 0 && r.0[1] == a.0[0] && r.0[2] == a.0[1] | a.0[0] && r.0[3]
        == a.0[2] | a.0[1]
    &&& n == 128 ==> r.0[0] == 0 && r.0[1] == 0 && r.0[2] == a.0[0] && r.0[3] == a.0[1]
        | a.0[0]
}

impl PartialEq for U256 {
    fn eq(&self, other: &Self) -> (r: bool) {
        self.0[0] == other.0[0] && self.0[1] == other.0[1] && self.0[2] == other.0[2] && self.0[3]
            == other.0[3]
    }
}

impl vstd::std_specs::cmp::PartialEqSpecImpl for U256 {
    open spec fn obeys_eq_spec() -> bool {
        true
    }

    open spec fn eq_spec(&self, other: &Self) -> bool {
        self.0[0] == other.0[0] && self.0[1] == other.0[1] && self.0[2] == other.0[2] && self.0[3]
            == other.0[3]
    }
}

impl Eq for U256 {}

impl From<u128> for U256 {
    fn from(x: u128) -> (r: Self)
        ensures
            r.value() == x,
    {
        let (lo, hi) = split(x);
        U256([lo, hi, 0, 0])
    }
}

impl vstd::std_specs::convert::FromSpecImpl<u128> for U256 {
    open spec fn obeys_from_spec() -> bool {
        false
    }

    open spec fn from_spec(v: u128) -> U256 {
        u256_from_value(v as int)
    }
}

impl From<(u128, u128)> for U256 {
    /// Builds the integer `x.0 + x.1 * 2^128`.
    fn from(x: (u128, u128)) -> (r: Self)
        ensures
            r.value() == x.0 + x.1 * radix2(),
    {
        let (x0, x1) = x;
        let (l0, h0) = split(x0);
        let (l1, h1) = split(x1);
        U256([l0, h0, l1, h1])
    }
}

impl vstd::std_specs::convert::FromSpecImpl<(u128, u128)> for U256 {
    open spec fn obeys_from_spec() -> bool {
        false
    }

    open spec fn from_spec(v: (u128, u128)) -> U256 {
        u256_from_value(v.0 + v.1 * radix2())
    }
}

impl core::ops::Add<U256> for U256 {
    type Output = Self;

    fn add(self, other: Self) -> (r: Self)
        ensures
            r.value() == (self.value() + other.value()) % modulus256(),
    {
        let u = &self.0;
        let v = &other.0;
        let (w0, c0) = adc(u[0], v[0], false);
        let (w1, c1) = adc(u[1], v[1], c0);
        let (w2, c2) = adc(u[2], v[2], c1);
        let (w3, c3) = adc(u[3], v[3], c2);
        let r = U256([w0, w1, w2, w3]);
        proof {
            let k: int = if c3 { 1 } else { 0 };
            assert(self.value() + other.value() == k * modulus256() + r.value());
            lemma_fundamental_div_mod_converse(
                self.value() + other.value(),
                modulus256(),
                k,
                r.value(),
            );
        }
        r
    }
}

impl vstd::std_specs::ops::AddSpecImpl<U256> for U256 {
    open spec fn obeys_add_spec() -> bool {
        false
    }

    open spec fn add_req(self, rhs: U256) -> bool {
        true
    }

    open spec fn add_spec(self, rhs: U256) -> U256 {
        u256_from_value(self.value() + rhs.value())
    }
}

impl core::ops::Add<u64> for U256 {
    type Output = Self;

    fn add(self, other: u64) -> (r: Self)
        ensures
            r.value() == (self.value() + other) % modulus256(),
    {
        let u = &self.0;
        let (w0, o0) = adc(u[0], other, false);
        let (w1, o1) = adc(u[1], 0, o0);
        let (w2, o2) = adc(u[2], 0, o1);
        let (w3, o3) = adc(u[3], 0, o2);
        let r = U256([w0, w1, w2, w3]);
        proof {
            let k: int = if o3 { 1 } else { 0 };
            assert(self.value() + other == k * modulus256() + r.value());
            lemma_fundamental_div_mod_converse(
                self.value() + other,
                modulus256(),
                k,
                r.value(),
            );
        }
        r
    }
}

impl vstd::std_specs::ops::AddSpecImpl<u64> for U256 {
    open spec fn obeys_add_spec() -> bool {
        false
    }

    open spec fn add_req(self, rhs: u64) -> bool {
        true
    }

    open spec fn add_spec(self, rhs: u64) -> U256 {
        u256_from_value(self.value() + rhs)
    }
}

impl core::ops::AddAssign<U256> for U256 {
    fn add_assign(&mut self, other: Self)
        ensures
            final(self).value() == (old(self).value() + other.value()) % modulus256(),
    {
        *self = *self + other;
    }
}

impl core::ops::Sub<U256> for U256 {
    type Output = Self;

    fn sub(self, other: Self) -> (r: Self)
        ensures
            r.value() == (self.value() + modulus256() - other.value()) % modulus256(),
    {
        let u = &self.0;
        let v = &other.0;
        let (w0, b0) = sbb(u[0], v[0], false);
        let (w1, b1) = sbb(u[1], v[1], b0);
        let (w2, b2) = sbb(u[2], v[2], b1);
        let (w3, b3) = sbb(u[3], v[3], b2);
        let r = U256([w0, w1, w2, w3]);
        proof {
            let k: int = if b3 { 0 } else { 1 };
            assert(self.value() + modulus256() - other.value() == k * modulus256() + r.value());
            lemma_fundamental_div_mod_converse(
                self.value() + modulus256() - other.value(),
                modulus256(),
                k,
                r.value(),
            );
        }
        r
    }
}

impl vstd::std_specs::ops::SubSpecImpl<U256> for U256 {
    open spec fn obeys_sub_spec() -> bool {
        false
    }

    open spec fn sub_req(self, rhs: U256) -> bool {
        true
    }

    open spec fn sub_spec(self, rhs: U256) -> U256 {
        u256_from_value(self.value() + modulus256() - rhs.value())
    }
}

impl core::ops::SubAssign<U256> for U256 {
    fn sub_assign(&mut self, other: Self)
        ensures
            final(self).value() == (old(self).value() + modulus256() - other.value())
                % modulus256(),
    {
        *self = *self - other;
    }
}

impl core::ops::Neg for U256 {
    type Output = Self;

    fn neg(self) -> (r: Self)
        ensures
            r.value() == (modulus256() - self.value()) % modulus256(),
    {
        Self::zero() - self
    }
}

impl vstd::std_specs::ops::NegSpecImpl for U256 {
    open spec fn obeys_neg_spec() -> bool {
        false
    }

    open spec fn neg_req(self) -> bool {
        true
    }

    open spec fn neg_spec(self) -> U256 {
        u256_from_value(modulus256() - self.value())
    }
}

impl core::ops::Mul<U256> for U256 {
    type Output = Self;

    fn mul(self, other: Self) -> (r: Self)
        ensures
            r.value() == (self.value() * other.value()) % modulus256(),
    {
        let u = &self.0;
        let v = &other.0;
        // schoolbook multiplication; each row is shifted by one limb, and the
        // carries that leave the lowest four limbs are dropped
        let (w0, c) = mac(0, u[0], v[0], 0);
        let (w1, c) = mac(0, u[1], v[0], c);
        let (w2, c) = mac(0, u[2], v[0], c);
        let (w3, c03) = mac(0, u[3], v[0], c);
        let (w1, c) = mac(w1, u[0], v[1], 0);
        let (w2, c) = mac(w2, u[1], v[1], c);
        let (w3, c) = mac(w3, u[2], v[1], c);
        let (w4, c13) = mac(0, u[3], v[1], c);
        let (w2, c) = mac(w2, u[0], v[2], 0);
        let (w3, c) = mac(w3, u[1], v[2], c);
        let (w4, c) = mac(w4, u[2], v[2], c);
        let (w5, c23) = mac(0, u[3], v[2], c);
        let (w3, c) = mac(w3, u[0], v[3], 0);
        let (w4, c) = mac(w4, u[1], v[3], c);
        let (w5, c) = mac(w5, u[2], v[3], c);
        let (w6, c33) = mac(0, u[3], v[3], c);
        let r = U256([w0, w1, w2, w3]);
        proof {
            let a = self.value();
            let b = other.value();
            let (u0, u1, u2, u3) = (u[0] as int, u[1] as int, u[2] as int, u[3] as int);
            let (v0, v1, v2, v3) = (v[0] as int, v[1] as int, v[2] as int, v[3] as int);
            let rad = 0x1_0000_0000_0000_0000int;
            lemma_times_digits4(a, v0, v1, v2, v3, rad);
            lemma_digits4_times(u0, u1, u2, u3, v0, rad);
            lemma_digits4_times(u0, u1, u2, u3, v1, rad);
            lemma_digits4_times(u0, u1, u2, u3, v2, rad);
            lemma_digits4_times(u0, u1, u2, u3, v3, rad);
            let k = w4 + w5 * rad + w6 * rad * rad + c03 + c13 * rad + c23 * rad * rad + c33 * rad
                * rad * rad;
            assert(a * b == k * modulus256() + r.value());
            lemma_fundamental_div_mod_converse(a * b, modulus256(), k, r.value());
        }
        r
    }
}

impl vstd::std_specs::ops::MulSpecImpl<U256> for U256 {
    open spec fn obeys_mul_spec() -> bool {
        false
    }

    open spec fn mul_req(self, rhs: U256) -> bool {
        true
    }

    open spec fn mul_spec(self, rhs: U256) -> U256 {
        u256_from_value(self.value() * rhs.value())
    }
}

impl core::ops::MulAssign<U256> for U256 {
    fn mul_assign(&mut self, other: Self)
        ensures
            final(self).value() == (old(self).value() * other.value()) % modulus256(),
    {
        *self = *self * other;
    }
}

impl core::ops::Mul<u64> for U256 {
    type Output = Self;

    fn mul(self, other: u64) -> (r: Self)
        ensures
            r.value() == (self.value() * other) % modulus256(),
    {
        let u = &self.0;
        let (w0, c) = mac(0, u[0], other, 0);
        let (w1, c) = mac(0, u[1], other, c);
        let (w2, c) = mac(0, u[2], other, c);
        let (w3, c) = mac(0, u[3], other, c);
        let r = U256([w0, w1, w2, w3]);
        proof {
            let rad = 0x1_0000_0000_0000_0000int;
            lemma_digits4_times(u[0] as int, u[1] as int, u[2] as int, u[3] as int, other as int, rad);
            assert(self.value() * other == c * modulus256() + r.value());
            lemma_fundamental_div_mod_converse(
                self.value() * other,
                modulus256(),
                c as int,
                r.value(),
            );
        }
        r
    }
}

impl vstd::std_specs::ops::MulSpecImpl<u64> for U256 {
    open spec fn obeys_mul_spec() -> bool {
        false
    }

    open spec fn mul_req(self, rhs: u64) -> bool {
        true
    }

    open spec fn mul_spec(self, rhs: u64) -> U256 {
        u256_from_value(self.value() * rhs)
    }
}

impl core::ops::Not for U256 {
    type Output = Self;

    fn not(self) -> (r: Self)
        ensures
            r.value() == modulus256() - 1 - self.value(),
            forall|i: int| 0 <= i < 4 ==> r.0[i] == !self.0[i],
    {
        let u = &self.0;
        let r = Self([!u[0], !u[1], !u[2], !u[3]]);
        proof {
            lemma_not_limb(u[0]);
            lemma_not_limb(u[1]);
            lemma_not_limb(u[2]);
            lemma_not_limb(u[3]);
        }
        r
    }
}

impl vstd::std_specs::ops::NotSpecImpl for U256 {
    open spec fn obeys_not_spec() -> bool {
        false
    }

    open spec fn not_req(self) -> bool {
        true
    }

    open spec fn not_spec(self) -> U256 {
        u256_from_value(modulus256() - 1 - self.value())
    }
}

impl core::ops::BitAnd<U256> for U256 {
    type Output = Self;

    fn bitand(self, other: Self) -> (r: Self)
        ensures
            forall|i: int| 0 <= i < 4 ==> r.0[i] == self.0[i] & other.0[i],
    {
        let u = &self.0;
        let v = &other.0;
        Self([u[0] & v[0], u[1] & v[1], u[2] & v[2], u[3] & v[3]])
    }
}

impl vstd::std_specs::ops::BitAndSpecImpl<U256> for U256 {
    open spec fn obeys_bitand_spec() -> bool {
        true
    }

    open spec fn bitand_req(self, rhs: U256) -> bool {
        true
    }

    open spec fn bitand_spec(self, rhs: U256) -> U256 {
        U256(
            [
                self.0[0] & rhs.0[0],
                self.0[1] & rhs.0[1],
                self.0[2] & rhs.0[2],
                self.0[3] & rhs.0[3],
            ],
        )
    }
}

impl core::ops::BitAndAssign<U256> for U256 {
    fn bitand_assign(&mut self, other: Self)
        ensures
            forall|i: int| 0 <= i < 4 ==> final(self).0[i] == old(self).0[i] & other.0[i],
    {
        *self = *self & other;
    }
}

impl vstd::std_specs::ops::ShlSpecImpl<u32> for U256 {
    open spec fn obeys_shl_spec() -> bool {
        false
    }

    open spec fn shl_req(self, rhs: u32) -> bool {
        true
    }

    open spec fn shl_spec(self, rhs: u32) -> U256 {
        u256_from_value(self.value() * pow2(rhs as nat))
    }
}

impl core::ops::Shl<u32> for U256 {
    type Output = Self;

    /// Shifts left by `other` bits.  For a shift by exactly 0, 64 or 128 bits the
    /// bits that would come from the next lower limb are taken unshifted (the right
    /// shift by 64 wraps to a shift by 0), so those shifts OR neighbouring limbs.
    fn shl(self, other: u32) -> (r: Self)
        ensures
            is_shl256(self, other, r),
    {
        let u = &self.0;
        if other >= 256 {
            proof {
                lemma_pow2_limbs(4, (other - 256) as nat);
                lemma_mod_multiples_basic(self.value() * pow2((other - 256) as nat), modulus256());
                lemma_mul_is_associative(
                    self.value(),
                    pow2((other - 256) as nat) as int,
                    modulus256(),
                );
            }
            Self::zero()
        } else if other >= 192 {
            let r = Self([0u64, 0u64, 0u64, u[0].wrapping_shl(other - 192)]);
            proof {
                lemma_shl256_from_limb3(self, r, (other - 192) as u32);
            }
            r
        } else if other >= 128 {
            let r = Self(
                [
                    0u64,
                    0u64,
                    u[0].wrapping_shl(other - 128),
                    u[1].wrapping_shl(other - 128) | u[0].wrapping_shr(192 - other),
                ],
            );
            proof {
                lemma_shl256_from_limb2(self, r, (other - 128) as u32);
            }
            r
        } else if other >= 64 {
            let r = Self(
                [
                    0u64,
                    u[0].wrapping_shl(other - 64),
                    u[1].wrapping_shl(other - 64) | u[0].wrapping_shr(128 - other),
                    u[2].wrapping_shl(other - 64) | u[1].wrapping_shr(128 - other),
                ],
            );
            proof {
                lemma_shl256_from_limb1(self, r, (other - 64) as u32);
            }
            r
        } else {
            let r = Self(
                [
                    u[0].wrapping_shl(other),
                    u[1].wrapping_shl(other) | u[0].wrapping_shr(64 - other),
                    u[2].wrapping_shl(other) | u[1].wrapping_shr(64 - other),
                    u[3].wrapping_shl(other) | u[2].wrapping_shr(64 - other),
                ],
            );
            proof {
                lemma_shl256_from_limb0(self, r, other);
            }
            r
        }
    }
}

/// Reassembles `x * 2^k` from the per-limb pieces of a left shift.
proof fn lemma_reassemble4(
    xp: int,
    p0: int,
    p1: int,
    p2: int,
    p3: int,
    l0: int,
    l1: int,
    l2: int,
    l3: int,
    h0: int,
    h1: int,
    h2: int,
    h3: int,
)
    requires
        xp == p0 + p1 * 0x1_0000_0000_0000_0000int + p2 * 0x1_0000_0000_0000_0000_0000_0000_0000_0000int
            + p3 * 0x1_0000_0000_0000_0000_0000_0000_0000_0000_0000_0000_0000_0000int,
        l0 + h0 * 0x1_0000_0000_0000_0000int == p0,
        l1 + h1 * 0x1_0000_0000_0000_0000int == p1,
        l2 + h2 * 0x1_0000_0000_0000_0000int == p2,
        l3 + h3 * 0x1_0000_0000_0000_0000int == p3,
    ensures
        xp == l0 + (l1 + h0) * 0x1_0000_0000_0000_0000int + (l2 + h1)
            * 0x1_0000_0000_0000_0000_0000_0000_0000_0000int + (l3 + h2)
            * 0x1_0000_0000_0000_0000_0000_0000_0000_0000_0000_0000_0000_0000int + h3
            * 0x1_0000_0000_0000_0000_0000_0000_0000_0000_0000_0000_0000_0000_0000_0000_0000_0000int,
{
}

/// The pieces of a left shift of a `U256` by `0 < k < 64` bits: the limbs shifted
/// left, `l`, and the bits that leave them, `h`, add up to `a * 2^k`.
proof fn lemma_shl256_pieces(a: U256, k: u32)
    requires
        0 < k < 64,
    ensures
        ({
            let u = a.0;
            let s = (64 - k) as u32;
            &&& a.value() * pow2(k as nat) == (u[0] << k) + ((u[1] << k) + (u[0] >> s))
                * 0x1_0000_0000_0000_0000int + ((u[2] << k) + (u[1] >> s))
                * 0x1_0000_0000_0000_0000_0000_0000_0000_0000int + ((u[3] << k) + (u[2] >> s))
                * 0x1_0000_0000_0000_0000_0000_0000_0000_0000_0000_0000_0000_0000int + (u[3] >> s)
                * 0x1_0000_0000_0000_0000_0000_0000_0000_0000_0000_0000_0000_0000_0000_0000_0000_0000int
            &&& (u[1] << k) | (u[0] >> s) == (u[1] << k) + (u[0] >> s)
            &&& (u[2] << k) | (u[1] >> s) == (u[2] << k) + (u[1] >> s)
            &&& (u[3] << k) | (u[2] >> s) == (u[3] << k) + (u[2] >> s)
            &&& (64 - k) % 64 == 64 - k
        }),
{
    let u = a.0;
    let rad = 0x1_0000_0000_0000_0000int;
    let p = pow2(k as nat) as int;
    let s = (64 - k) as u32;
    lemma_digits4_times(u[0] as int, u[1] as int, u[2] as int, u[3] as int, p, rad);
    lemma_mul_is_commutative(p, u[0] as int);
    lemma_mul_is_commutative(p, u[1] as int);
    lemma_mul_is_commutative(p, u[2] as int);
    lemma_mul_is_commutative(p, u[3] as int);
    lemma_shl_limb(u[0], k);
    lemma_shl_limb(u[1], k);
    lemma_shl_limb(u[2], k);
    lemma_shl_limb(u[3], k);
    lemma_or_is_add(u[1], u[0], k);
    lemma_or_is_add(u[2], u[1], k);
    lemma_or_is_add(u[3], u[2], k);
    lemma_reassemble4(
        a.value() * p,
        u[0] * p,
        u[1] * p,
        u[2] * p,
        u[3] * p,
        (u[0] << k) as int,
        (u[1] << k) as int,
        (u[2] << k) as int,
        (u[3] << k) as int,
        (u[0] >> s) as int,
        (u[1] >> s) as int,
        (u[2] >> s) as int,
        (u[3] >> s) as int,
    );
}

/// A shift by `192 + k` bits keeps only the lowest limb, moved to the top.
proof fn lemma_shl256_from_limb3(a: U256, r: U256, k: u32)
    requires
        k < 64,
        r.0[0] == 0 && r.0[1] == 0 && r.0[2] == 0,
        r.0[3] == a.0[0] << k,
    ensures
        is_shl256(a, (192 + k) as u32, r),
{
    let u = a.0;
    let p = pow2(k as nat) as int;
    let rad = 0x1_0000_0000_0000_0000int;
    lemma2_to64();
    lemma_pow2_limbs(3, k as nat);
    lemma_mul_is_associative(a.value(), p, modulus192());
    if k == 0 {
        lemma_shl_zero(u[0]);
        let q = u[1] + u[2] * rad + u[3] * rad * rad;
        assert(a.value() * modulus192() == r.value() + q * modulus256());
        lemma_fundamental_div_mod_converse(a.value() * pow2(192), modulus256(), q, r.value());
    } else {
        lemma_shl256_pieces(a, k);
        let s = (64 - k) as u32;
        let q = (u[1] << k) + (u[0] >> s) + ((u[2] << k) + (u[1] >> s)) * rad + ((u[3] << k) + (
        u[2] >> s)) * rad * rad + (u[3] >> s) * rad * rad * rad;
        assert(a.value() * p * modulus192() == r.value() + q * modulus256());
        lemma_fundamental_div_mod_converse(
            a.value() * pow2((192 + k) as nat),
            modulus256(),
            q,
            r.value(),
        );
    }
}

/// A shift by `128 + k` bits moves the lowest two limbs to the top.
proof fn lemma_shl256_from_limb2(a: U256, r: U256, k: u32)
    requires
        k < 64,
        r.0[0] == 0 && r.0[1] == 0,
        r.0[2] == a.0[0] << k,
        r.0[3] == (a.0[1] << k) | (a.0[0] >> ((64 - k) % 64) as u32),
    ensures
        is_shl256(a, (128 + k) as u32, r),
{
    let u = a.0;
    if k == 0 {
        lemma_shl_zero(u[0]);
        lemma_shl_zero(u[1]);
        lemma_shr_zero(u[0]);
    } else {
        let p = pow2(k as nat) as int;
        let rad = 0x1_0000_0000_0000_0000int;
        lemma_pow2_limbs(2, k as nat);
        lemma_mul_is_associative(a.value(), p, radix2());
        lemma_shl256_pieces(a, k);
        let s = (64 - k) as u32;
        let q = (u[2] << k) + (u[1] >> s) + ((u[3] << k) + (u[2] >> s)) * rad + (u[3] >> s) * rad
            * rad;
        assert(a.value() * p * radix2() == r.value() + q * modulus256());
        lemma_fundamental_div_mod_converse(
            a.value() * pow2((128 + k) as nat),
            modulus256(),
            q,
            r.value(),
        );
    }
}

/// A shift by `64 + k` bits moves the lowest three limbs up by one.
proof fn lemma_shl256_from_limb1(a: U256, r: U256, k: u32)
    requires
        k < 64,
        r.0[0] == 0,
        r.0[1] == a.0[0] << k,
        r.0[2] == (a.0[1] << k) | (a.0[0] >> ((64 - k) % 64) as u32),
        r.0[3] == (a.0[2] << k) | (a.0[1] >> ((64 - k) % 64) as u32),
    ensures
        is_shl256(a, (64 + k) as u32, r),
{
    let u = a.0;
    if k == 0 {
        lemma_shl_zero(u[0]);
        lemma_shl_zero(u[1]);
        lemma_shl_zero(u[2]);
        lemma_shr_zero(u[0]);
        lemma_shr_zero(u[1]);
    } else {
        let p = pow2(k as nat) as int;
        let rad = 0x1_0000_0000_0000_0000int;
        lemma_pow2_limbs(1, k as nat);
        lemma_mul_is_associative(a.value(), p, rad);
        lemma_shl256_pieces(a, k);
        let s = (64 - k) as u32;
        let q = (u[3] << k) + (u[2] >> s) + (u[3] >> s) * rad;
        assert(a.value() * p * rad == r.value() + q * modulus256());
        lemma_fundamental_div_mod_converse(
            a.value() * pow2((64 + k) as nat),
            modulus256(),
            q,
            r.value(),
        );
    }
}

/// A shift by `k < 64` bits.
proof fn lemma_shl256_from_limb0(a: U256, r: U256, k: u32)
    requires
        k < 64,
        r.0[0] == a.0[0] << k,
        r.0[1] == (a.0[1] << k) | (a.0[0] >> ((64 - k) % 64) as u32),
        r.0[2] == (a.0[2] << k) | (a.0[1] >> ((64 - k) % 64) as u32),
        r.0[3] == (a.0[3] << k) | (a.0[2] >> ((64 - k) % 64) as u32),
    ensures
        is_shl256(a, k, r),
{
    let u = a.0;
    if k == 0 {
        lemma_shl_zero(u[0]);
        lemma_shl_zero(u[1]);
        lemma_shl_zero(u[2]);
        lemma_shl_zero(u[3]);
        lemma_shr_zero(u[0]);
        lemma_shr_zero(u[1]);
        lemma_shr_zero(u[2]);
    } else {
        lemma_shl256_pieces(a, k);
        let h3 = (a.0[3] >> ((64 - k) as u32)) as int;
        assert(a.value() * pow2(k as nat) == r.value() + h3 * modulus256());
        lemma_fundamental_div_mod_converse(
            a.value() * pow2(k as nat),
            modulus256(),
            h3,
            r.value(),
        );
    }
}

impl core::ops::Shl<usize> for U256 {
    type Output = Self;

    /// Shifts left by `other` bits, taken as a `u32`.
    fn shl(self, other: usize) -> (r: Self)
        ensures
            is_shl256(self, other as u32, r),
    {
        self << other as u32
    }
}

impl vstd::std_specs::ops::ShlSpecImpl<usize> for U256 {
    open spec fn obeys_shl_spec() -> bool {
        false
    }

    open spec fn shl_req(self, rhs: usize) -> bool {
        true
    }

    open spec fn shl_spec(self, rhs: usize) -> U256 {
        u256_from_value(self.value() * pow2(rhs as u32 as nat))
    }
}

impl core::ops::ShlAssign<u32> for U256 {
    fn shl_assign(&mut self, other: u32)
        ensures
            is_shl256(*old(self), other, *final(self)),
    {
        *self = *self << other;
    }
}

impl core::ops::ShlAssign<usize> for U256 {
    fn shl_assign(&mut self, other: usize)
        ensures
            is_shl256(*old(self), other as u32, *final(self)),
    {
        *self = *self << other as u32;
    }
}

} // verus!
