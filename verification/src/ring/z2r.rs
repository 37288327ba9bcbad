//! The rings `Z/2^k` for a bit length `k`, represented by a 128-bit word
//! (`Z2r`), a 192-bit integer (`Z2rU192`) or a 256-bit integer (`Z2rU256`).
//! Arithmetic wraps around the width of the representation; since `2^k`
//! divides that width, the results are correct modulo `2^k`.
use vstd::prelude::*;
use vstd::arithmetic::div_mod::{
    lemma_add_mod_noop, lemma_mod_multiples_basic, lemma_mul_mod_noop, lemma_small_mod,
    lemma_sub_mod_noop,
};
use vstd::arithmetic::power2::{lemma_pow2_adds, lemma_pow2_pos, lemma_pow2_strictly_increases, pow2};
use crate::bits128::{lemma_mod_of_mod_multiple, lemma_u128_mask_is_mod, lemma_u128_pow2};
use crate::ring::{lemma_wrap, residue, sum_residues, Ring};

verus! {

/// 2^128.
pub open spec fn modulus128() -> int {
    0x1_0000_0000_0000_0000_0000_0000_0000_0000int
}

/// The number of bits that a `Z2r` with bit length `k` computes with.
pub open spec fn z2r_bits(k: nat) -> nat {
    if k < 128 {
        k
    } else {
        128
    }
}

/// An element of `Z/2^BIT_LENGTH`, for a bit length of at most 128.
#[derive(Copy, Clone, Debug)]
pub struct Z2r<const BIT_LENGTH: usize>(u128);

/// `2^128` is a multiple of `2^b` for `b <= 128`, and `2^128` itself is `modulus128()`.
proof fn lemma_pow2_divides_128(b: nat)
    requires
        b <= 128,
    ensures
        pow2(128) == modulus128(),
        pow2(128) as int % pow2(b) as int == 0,
        pow2(b) > 0,
{
    lemma_pow2_pos(b);
    vstd::arithmetic::power2::lemma2_to64_rest();
    lemma_pow2_adds(64, 64);
    lemma_pow2_adds(b, (128 - b) as nat);
    lemma_mod_multiples_basic(pow2((128 - b) as nat) as int, pow2(b) as int);
    vstd::arithmetic::mul::lemma_mul_is_commutative(pow2(b) as int, pow2((128 - b) as nat) as int);
}

impl<const BIT_LENGTH: usize> Z2r<BIT_LENGTH> {
    /// The bit length `k` of the ring.
    pub fn bit_length() -> (r: usize)
        ensures
            r == BIT_LENGTH,
    {
        BIT_LENGTH
    }

    /// Number of bytes needed to hold an element.
    pub fn byte_length() -> (r: usize)
        requires
            BIT_LENGTH + 7 <= usize::MAX,
        ensures
            r == (BIT_LENGTH + 7) / 8,
    {
        (BIT_LENGTH + 7) / 8
    }

    /// The mask of the low `k` bits, `2^k - 1` (all bits when `k >= 128`).
    pub fn bit_mask() -> (r: u128)
        ensures
            r == pow2(z2r_bits(BIT_LENGTH as nat)) - 1,
    {
        proof {
            lemma_pow2_divides_128(z2r_bits(BIT_LENGTH as nat));
        }
        if BIT_LENGTH >= 128 {
            0xffff_ffff_ffff_ffff_ffff_ffff_ffff_ffff
        } else {
            let k = BIT_LENGTH as u128;
            proof {
                lemma_u128_pow2(k);
            }
            (1u128 << k) - 1
        }
    }

    /// Keeps the low `k` bits of a word.
    fn mask_low(x: u128) -> (r: u128)
        ensures
            r == x as int % pow2(z2r_bits(BIT_LENGTH as nat)) as int,
    {
        proof {
            lemma_pow2_divides_128(z2r_bits(BIT_LENGTH as nat));
        }
        if BIT_LENGTH >= 128 {
            proof {
                lemma_small_mod(x as nat, pow2(128));
            }
            x
        } else {
            let k = BIT_LENGTH as u128;
            proof {
                lemma_u128_pow2(k);
                lemma_u128_mask_is_mod(x, k);
            }
            x & ((1u128 << k) - 1)
        }
    }

    /// Sum of all elements.
    pub fn sum(slice: &[Self]) -> (r: Self)
        ensures
            residue(r) == sum_residues(slice@) % Self::modulus(),
    {
        crate::ring::ring_sum(slice)
    }
}

impl<const BIT_LENGTH: usize> Ring for Z2r<BIT_LENGTH> {
    open spec fn modulus() -> int {
        pow2(z2r_bits(BIT_LENGTH as nat)) as int
    }

    open spec fn repr_bits() -> nat {
        128
    }

    closed spec fn raw(self) -> int {
        self.0 as int
    }

    proof fn lemma_ring_facts(self) {
        lemma_pow2_divides_128(z2r_bits(BIT_LENGTH as nat));
        if z2r_bits(BIT_LENGTH as nat) < 128 {
            lemma_pow2_strictly_increases(z2r_bits(BIT_LENGTH as nat), 128);
        }
    }

    fn zero() -> (r: Self) {
        Z2r(0)
    }

    fn one() -> (r: Self) {
        Z2r(1)
    }

    fn ring_add(self, rhs: Self) -> (r: Self) {
        let r = Z2r(self.0.wrapping_add(rhs.0));
        proof {
            let m = Self::modulus();
            lemma_pow2_divides_128(z2r_bits(BIT_LENGTH as nat));
            lemma_wrap(self.0 + rhs.0, r.0 as int, modulus128());
            lemma_mod_of_mod_multiple(self.0 + rhs.0, m, modulus128());
        }
        r
    }

    fn ring_sub(self, rhs: Self) -> (r: Self) {
        let r = Z2r(self.0.wrapping_sub(rhs.0));
        proof {
            let m = Self::modulus();
            lemma_pow2_divides_128(z2r_bits(BIT_LENGTH as nat));
            lemma_wrap(self.0 - rhs.0, r.0 as int, modulus128());
            lemma_mod_of_mod_multiple(self.0 - rhs.0, m, modulus128());
        }
        r
    }

    fn ring_mul(self, rhs: Self) -> (r: Self) {
        let r = Z2r(self.0.wrapping_mul(rhs.0));
        proof {
            let m = Self::modulus();
            lemma_pow2_divides_128(z2r_bits(BIT_LENGTH as nat));
            lemma_mod_of_mod_multiple(self.0 * rhs.0, m, modulus128());
        }
        r
    }

    fn ring_neg(self) -> (r: Self) {
        let r = Z2r(0u128.wrapping_sub(self.0));
        proof {
            let m = Self::modulus();
            lemma_pow2_divides_128(z2r_bits(BIT_LENGTH as nat));
            lemma_wrap(0 - self.0, r.0 as int, modulus128());
            lemma_mod_of_mod_multiple(0 - self.0, m, modulus128());
        }
        r
    }

    fn ring_eq(&self, other: &Self) -> (r: bool) {
        Self::mask_low(self.0) == Self::mask_low(other.0)
    }

    fn is_zero(&self) -> (r: bool) {
        proof {
            lemma_pow2_divides_128(z2r_bits(BIT_LENGTH as nat));
            lemma_small_mod(0, Self::modulus() as nat);
        }
        self.ring_eq(&Self::zero())
    }

    fn is_one(&self) -> (r: bool) {
        self.ring_eq(&Self::one())
    }

    fn reduce(&self) -> (r: Self) {
        Z2r(Self::mask_low(self.0))
    }

    fn is_reduced(&self) -> (r: bool) {
        proof {
            lemma_pow2_divides_128(z2r_bits(BIT_LENGTH as nat));
        }
        let mask = Self::bit_mask();
        let x = self.0;
        proof {
            if BIT_LENGTH >= 128 {
                assert(x & !0xffff_ffff_ffff_ffff_ffff_ffff_ffff_ffffu128 == 0) by (bit_vector);
            } else {
                let k = BIT_LENGTH as u128;
                lemma_u128_pow2(k);
                lemma_u128_mask_is_mod(x, k);
                assert(x & !mask == !mask & x) by (bit_vector);
            }
        }
        x & !mask == 0
    }

    fn reduce_to<const BITS: usize>(&self) -> (r: Self) {
        let k = BITS as u128;
        proof {
            lemma_u128_pow2(k);
            lemma_pow2_pos(k as nat);
            lemma_u128_mask_is_mod(self.0, k);
        }
        Z2r(self.0 & ((1u128 << k) - 1))
    }

    fn is_reduced_to<const BITS: usize>(&self) -> (r: bool) {
        let k = BITS as u128;
        let x = self.0;
        proof {
            lemma_u128_pow2(k);
            lemma_pow2_pos(k as nat);
            lemma_u128_mask_is_mod(x, k);
            let mask = ((1u128 << k) - 1) as u128;
            assert(x & !mask == !mask & x) by (bit_vector);
        }
        x & !((1u128 << k) - 1) == 0
    }

    fn reduce_to_32(&self) -> (r: u32) {
        let x = self.0;
        assert((x & 0xffffffff) == x % 0x1_0000_0000) by (bit_vector);
        (x & 0xffffffff) as u32
    }

    fn reduce_to_64(&self) -> (r: u64) {
        let x = self.0;
        assert((x & 0xffffffffffffffff) == x % 0x1_0000_0000_0000_0000) by (bit_vector);
        (x & 0xffffffffffffffff) as u64
    }

    fn sample(rng: &mut rand::rngs::StdRng) -> Self {
        Z2r(crate::random::random_u128(rng))
    }
}

impl<const BIT_LENGTH: usize> Z2r<BIT_LENGTH> {
    /// The raw representative as a word.
    pub closed spec fn word(self) -> u128 {
        self.0
    }

    /// The representative as a word is what `raw` speaks of.
    pub proof fn lemma_word(self)
        ensures
            self.raw() == self.word(),
    {
    }
}

impl<const BIT_LENGTH: usize> Default for Z2r<BIT_LENGTH> {
    fn default() -> (r: Self)
        ensures
            r.raw() == 0,
    {
        Z2r(0)
    }
}

impl<const BIT_LENGTH: usize> From<u128> for Z2r<BIT_LENGTH> {
    fn from(x: u128) -> (r: Self)
        ensures
            r.raw() == x,
    {
        Z2r(x)
    }
}

impl<const BIT_LENGTH: usize> vstd::std_specs::convert::FromSpecImpl<u128> for Z2r<BIT_LENGTH> {
    open spec fn obeys_from_spec() -> bool {
        true
    }

    closed spec fn from_spec(v: u128) -> Self {
        Z2r(v)
    }
}

impl<const BIT_LENGTH: usize> PartialEq for Z2r<BIT_LENGTH> {
    /// Two values are equal when they stand for the same ring element.
    fn eq(&self, other: &Self) -> (r: bool) {
        self.reduce().0 == other.reduce().0
    }
}

impl<const BIT_LENGTH: usize> vstd::std_specs::cmp::PartialEqSpecImpl for Z2r<BIT_LENGTH> {
    open spec fn obeys_eq_spec() -> bool {
        true
    }

    open spec fn eq_spec(&self, other: &Self) -> bool {
        residue(*self) == residue(*other)
    }
}

impl<const BIT_LENGTH: usize> Eq for Z2r<BIT_LENGTH> {}


impl<const BIT_LENGTH: usize> core::ops::Add<Self> for Z2r<BIT_LENGTH> {
    type Output = Self;

    /// Wrapping add of the representatives.
    fn add(self, rhs: Self) -> (r: Self)
        ensures
            r.raw() == (self.raw() + rhs.raw()) % modulus128(),
    {
        let r = Z2r(self.0.wrapping_add(rhs.0));
        proof {
            lemma_wrap(self.0 + rhs.0, r.0 as int, modulus128());
        }
        r
    }
}

impl<const BIT_LENGTH: usize> vstd::std_specs::ops::AddSpecImpl<Self> for Z2r<BIT_LENGTH> {
    open spec fn obeys_add_spec() -> bool {
        false
    }

    open spec fn add_req(self, rhs: Self) -> bool {
        true
    }

    closed spec fn add_spec(self, rhs: Self) -> Self {
        Z2r(((self.0 + rhs.0) % modulus128()) as u128)
    }
}

impl<const BIT_LENGTH: usize> core::ops::AddAssign<Self> for Z2r<BIT_LENGTH> {
    fn add_assign(&mut self, rhs: Self)
        ensures
            final(self).raw() == (old(self).raw() + rhs.raw()) % modulus128(),
    {
        *self = *self + rhs;
    }
}

impl<const BIT_LENGTH: usize> core::ops::Sub<Self> for Z2r<BIT_LENGTH> {
    type Output = Self;

    /// Wrapping sub of the representatives.
    fn sub(self, rhs: Self) -> (r: Self)
        ensures
            r.raw() == (self.raw() - rhs.raw()) % modulus128(),
    {
        let r = Z2r(self.0.wrapping_sub(rhs.0));
        proof {
            lemma_wrap(self.0 - rhs.0, r.0 as int, modulus128());
        }
        r
    }
}

impl<const BIT_LENGTH: usize> vstd::std_specs::ops::SubSpecImpl<Self> for Z2r<BIT_LENGTH> {
    open spec fn obeys_sub_spec() -> bool {
        false
    }

    open spec fn sub_req(self, rhs: Self) -> bool {
        true
    }

    closed spec fn sub_spec(self, rhs: Self) -> Self {
        Z2r(((self.0 - rhs.0) % modulus128()) as u128)
    }
}

impl<const BIT_LENGTH: usize> core::ops::SubAssign<Self> for Z2r<BIT_LENGTH> {
    fn sub_assign(&mut self, rhs: Self)
        ensures
            final(self).raw() == (old(self).raw() - rhs.raw()) % modulus128(),
    {
        *self = *self - rhs;
    }
}

impl<const BIT_LENGTH: usize> core::ops::Mul<Self> for Z2r<BIT_LENGTH> {
    type Output = Self;

    /// Wrapping mul of the representatives.
    fn mul(self, rhs: Self) -> (r: Self)
        ensures
            r.raw() == (self.raw() * rhs.raw()) % modulus128(),
    {
        let r = Z2r(self.0.wrapping_mul(rhs.0));
        r
    }
}

impl<const BIT_LENGTH: usize> vstd::std_specs::ops::MulSpecImpl<Self> for Z2r<BIT_LENGTH> {
    open spec fn obeys_mul_spec() -> bool {
        false
    }

    open spec fn mul_req(self, rhs: Self) -> bool {
        true
    }

    closed spec fn mul_spec(self, rhs: Self) -> Self {
        Z2r(((self.0 * rhs.0) % modulus128()) as u128)
    }
}

impl<const BIT_LENGTH: usize> core::ops::MulAssign<Self> for Z2r<BIT_LENGTH> {
    fn mul_assign(&mut self, rhs: Self)
        ensures
            final(self).raw() == (old(self).raw() * rhs.raw()) % modulus128(),
    {
        *self = *self * rhs;
    }
}

impl<const BIT_LENGTH: usize> core::ops::Neg for Z2r<BIT_LENGTH> {
    type Output = Self;

    /// Wrapping negation of the representative.
    fn neg(self) -> (r: Self)
        ensures
            r.raw() == (-self.raw()) % modulus128(),
    {
        let r = Z2r(0u128.wrapping_sub(self.0));
        proof {
            lemma_wrap(0 - self.0, r.0 as int, modulus128());
        }
        r
    }
}

impl<const BIT_LENGTH: usize> vstd::std_specs::ops::NegSpecImpl for Z2r<BIT_LENGTH> {
    open spec fn obeys_neg_spec() -> bool {
        false
    }

    open spec fn neg_req(self) -> bool {
        true
    }

    closed spec fn neg_spec(self) -> Self {
        Z2r(((-self.0) % modulus128()) as u128)
    }
}

} // verus!
