//! The ring `Z/2^64`, represented by a `u64`.
use vstd::prelude::*;
use vstd::arithmetic::div_mod::{lemma_fundamental_div_mod_converse, lemma_small_mod};
use vstd::arithmetic::power2::{lemma2_to64, lemma2_to64_rest, lemma_pow2_pos, pow2};
use vstd::bits::{lemma_u64_low_bits_mask_is_mod, lemma_u64_pow2_no_overflow, lemma_u64_shl_is_mul};
use crate::ring::{residue, sum_residues, Ring};

verus! {

/// 2^64.
pub open spec fn modulus64() -> int {
    0x1_0000_0000_0000_0000
}

/// An element of `Z/2^64`; every `u64` is a canonical representative.
#[derive(Clone, Copy, Debug, Hash, PartialEq, Eq, PartialOrd, Ord, Structural)]
pub struct R64(pub u64);

/// Reduces a 128-bit accumulator modulo 2^64.
fn reduce(k: u128) -> (r: u64)
    ensures
        r == k % 0x1_0000_0000_0000_0000,
{
    let m: u128 = 1 << 64;
    assert(m == 0x1_0000_0000_0000_0000) by (bit_vector)
        requires
            m == 1u128 << 64u128,
    ;
    (k % m) as u64
}

/// `x mod 2^64` for an integer that fits in a double word.
proof fn lemma_wrap64(x: int, r: int)
    requires
        0 <= r < modulus64(),
        x == r || x == r + modulus64() || x == r - modulus64(),
    ensures
        r == x % modulus64(),
{
    if x == r {
        lemma_fundamental_div_mod_converse(x, modulus64(), 0, r);
    } else if x == r + modulus64() {
        lemma_fundamental_div_mod_converse(x, modulus64(), 1, r);
    } else {
        lemma_fundamental_div_mod_converse(x, modulus64(), -1, r);
    }
}

impl R64 {
    /// Number of bits of the ring.
    pub fn bit_length() -> (r: usize)
        ensures
            r == 64,
    {
        64
    }

    /// Number of bytes needed to hold an element.
    pub fn byte_length() -> (r: usize)
        ensures
            r == 8,
    {
        8
    }
}

impl Ring for R64 {
    open spec fn modulus() -> int {
        modulus64()
    }

    open spec fn repr_bits() -> nat {
        64
    }

    open spec fn raw(self) -> int {
        self.0 as int
    }

    proof fn lemma_ring_facts(self) {
        lemma2_to64_rest();
        assert(pow2(64) as int % modulus64() == 0) by {
            lemma_fundamental_div_mod_converse(modulus64(), modulus64(), 1, 0);
        }
    }

    fn zero() -> (r: Self) {
        R64(0)
    }

    fn one() -> (r: Self) {
        R64(1)
    }

    fn ring_add(self, rhs: Self) -> (r: Self) {
        let r = R64(self.0.wrapping_add(rhs.0));
        proof {
            lemma_small_mod(self.0 as nat, modulus64() as nat);
            lemma_small_mod(rhs.0 as nat, modulus64() as nat);
            lemma_small_mod(r.0 as nat, modulus64() as nat);
            lemma_wrap64(self.0 + rhs.0, r.0 as int);
        }
        r
    }

    fn ring_sub(self, rhs: Self) -> (r: Self) {
        let r = R64(self.0.wrapping_sub(rhs.0));
        proof {
            lemma_small_mod(self.0 as nat, modulus64() as nat);
            lemma_small_mod(rhs.0 as nat, modulus64() as nat);
            lemma_small_mod(r.0 as nat, modulus64() as nat);
            lemma_wrap64(self.0 - rhs.0, r.0 as int);
        }
        r
    }

    fn ring_mul(self, rhs: Self) -> (r: Self) {
        let r = R64(self.0.wrapping_mul(rhs.0));
        proof {
            lemma_small_mod(self.0 as nat, modulus64() as nat);
            lemma_small_mod(rhs.0 as nat, modulus64() as nat);
            lemma_small_mod(r.0 as nat, modulus64() as nat);
        }
        r
    }

    fn ring_neg(self) -> (r: Self) {
        let r = R64(0u64.wrapping_sub(self.0));
        proof {
            lemma_small_mod(self.0 as nat, modulus64() as nat);
            lemma_small_mod(r.0 as nat, modulus64() as nat);
            lemma_wrap64(-self.0, r.0 as int);
        }
        r
    }

    fn ring_eq(&self, other: &Self) -> (r: bool) {
        proof {
            lemma_small_mod(self.0 as nat, modulus64() as nat);
            lemma_small_mod(other.0 as nat, modulus64() as nat);
        }
        self.0 == other.0
    }

    fn is_zero(&self) -> (r: bool) {
        proof {
            lemma_small_mod(self.0 as nat, modulus64() as nat);
        }
        self.0 == 0
    }

    fn is_one(&self) -> (r: bool) {
        proof {
            lemma_small_mod(self.0 as nat, modulus64() as nat);
        }
        self.0 == 1
    }

    fn reduce(&self) -> (r: Self) {
        proof {
            lemma_small_mod(self.0 as nat, modulus64() as nat);
        }
        *self
    }

    fn is_reduced(&self) -> (r: bool) {
        true
    }

    fn reduce_to<const BITS: usize>(&self) -> (r: Self) {
        proof {
            lemma_u64_pow2_no_overflow(BITS as nat);
            lemma_u64_shl_is_mul(1, BITS as u64);
            lemma_u64_low_bits_mask_is_mod(self.0, BITS as nat);
        }
        let mask: u64 = (1u64 << BITS) - 1;
        R64(self.0 & mask)
    }

    fn is_reduced_to<const BITS: usize>(&self) -> (r: bool) {
        proof {
            lemma_u64_pow2_no_overflow(BITS as nat);
            lemma_u64_shl_is_mul(1, BITS as u64);
        }
        let mask: u64 = !((1u64 << BITS) - 1);
        let r = self.0 & mask == 0;
        proof {
            let p = 1u64 << BITS;
            let x = self.0;
            let b = BITS as u64;
            assert(p == 1u64 << b);
            assert((x & !((p - 1) as u64)) == 0 <==> x < p) by (bit_vector)
                requires
                    p == 1u64 << b,
                    b < 64,
            ;
        }
        r
    }

    fn reduce_to_32(&self) -> (r: u32) {
        let x = self.0;
        assert((x & 0xffffffff) == x % 0x1_0000_0000) by (bit_vector);
        (x & 0xffffffff) as u32
    }

    fn reduce_to_64(&self) -> (r: u64) {
        proof {
            lemma_small_mod(self.0 as nat, modulus64() as nat);
        }
        self.0
    }

    fn sample(rng: &mut rand::rngs::StdRng) -> Self {
        R64(crate::random::random_u64(rng))
    }

}

impl R64 {
    /// Sum of all elements, accumulated without overflow and reduced once.
    pub fn sum(slice: &[Self]) -> (r: Self)
        ensures
            residue(r) == sum_residues(slice@) % modulus64(),
    {
        let mut out: u128 = 0;
        let mut i: usize = 0;
        while i < slice.len()
            invariant
                i <= slice.len(),
                out == sum_residues(slice@.take(i as int)),
                out <= i * 0xffff_ffff_ffff_ffffint,
            decreases slice.len() - i,
        {
            proof {
                assert(slice@.take(i + 1).drop_last() == slice@.take(i as int));
                lemma_small_mod(slice@[i as int].0 as nat, modulus64() as nat);
            }
            out += slice[i].0 as u128;
            i += 1;
        }
        assert(slice@.take(slice.len() as int) == slice@);
        let r = R64(reduce(out));
        proof {
            lemma_small_mod(r.0 as nat, modulus64() as nat);
        }
        r
    }
}

impl Default for R64 {
    fn default() -> (r: Self)
        ensures
            r.0 == 0,
    {
        R64(0)
    }
}

impl From<u64> for R64 {
    fn from(inp: u64) -> (r: Self)
        ensures
            r.0 == inp,
    {
        R64(inp)
    }
}

impl vstd::std_specs::convert::FromSpecImpl<u64> for R64 {
    open spec fn obeys_from_spec() -> bool {
        true
    }

    open spec fn from_spec(v: u64) -> R64 {
        R64(v)
    }
}

impl From<R64> for u64 {
    fn from(r: R64) -> (x: u64)
        ensures
            x == r.0,
    {
        r.0
    }
}

impl vstd::std_specs::convert::FromSpecImpl<R64> for u64 {
    open spec fn obeys_from_spec() -> bool {
        true
    }

    open spec fn from_spec(v: R64) -> u64 {
        v.0
    }
}


impl core::ops::Add<R64> for R64 {
    type Output = R64;

    fn add(self, rhs: Self) -> (r: Self)
        ensures
            r.0 == (self.0 + rhs.0) % modulus64(),
    {
        let r = self.ring_add(rhs);
        proof {
            lemma_small_mod(self.0 as nat, modulus64() as nat);
            lemma_small_mod(rhs.0 as nat, modulus64() as nat);
            lemma_small_mod(r.0 as nat, modulus64() as nat);
        }
        r
    }
}

impl vstd::std_specs::ops::AddSpecImpl<R64> for R64 {
    open spec fn obeys_add_spec() -> bool {
        true
    }

    open spec fn add_req(self, rhs: R64) -> bool {
        true
    }

    open spec fn add_spec(self, rhs: R64) -> R64 {
        R64(((self.0 + rhs.0) % modulus64()) as u64)
    }
}

impl core::ops::AddAssign<R64> for R64 {
    fn add_assign(&mut self, rhs: Self)
        ensures
            final(self).0 == (old(self).0 + rhs.0) % modulus64(),
    {
        *self = *self + rhs;
    }
}

impl core::ops::Sub<R64> for R64 {
    type Output = R64;

    fn sub(self, rhs: Self) -> (r: Self)
        ensures
            r.0 == (self.0 - rhs.0) % modulus64(),
    {
        let r = self.ring_sub(rhs);
        proof {
            lemma_small_mod(self.0 as nat, modulus64() as nat);
            lemma_small_mod(rhs.0 as nat, modulus64() as nat);
            lemma_small_mod(r.0 as nat, modulus64() as nat);
        }
        r
    }
}

impl vstd::std_specs::ops::SubSpecImpl<R64> for R64 {
    open spec fn obeys_sub_spec() -> bool {
        true
    }

    open spec fn sub_req(self, rhs: R64) -> bool {
        true
    }

    open spec fn sub_spec(self, rhs: R64) -> R64 {
        R64(((self.0 - rhs.0) % modulus64()) as u64)
    }
}

impl core::ops::SubAssign<R64> for R64 {
    fn sub_assign(&mut self, rhs: Self)
        ensures
            final(self).0 == (old(self).0 - rhs.0) % modulus64(),
    {
        *self = *self - rhs;
    }
}

impl core::ops::Mul<R64> for R64 {
    type Output = R64;

    fn mul(self, rhs: Self) -> (r: Self)
        ensures
            r.0 == (self.0 * rhs.0) % modulus64(),
    {
        let r = self.ring_mul(rhs);
        proof {
            lemma_small_mod(self.0 as nat, modulus64() as nat);
            lemma_small_mod(rhs.0 as nat, modulus64() as nat);
            lemma_small_mod(r.0 as nat, modulus64() as nat);
        }
        r
    }
}

impl vstd::std_specs::ops::MulSpecImpl<R64> for R64 {
    open spec fn obeys_mul_spec() -> bool {
        true
    }

    open spec fn mul_req(self, rhs: R64) -> bool {
        true
    }

    open spec fn mul_spec(self, rhs: R64) -> R64 {
        R64(((self.0 * rhs.0) % modulus64()) as u64)
    }
}

impl core::ops::MulAssign<R64> for R64 {
    fn mul_assign(&mut self, rhs: Self)
        ensures
            final(self).0 == (old(self).0 * rhs.0) % modulus64(),
    {
        *self = *self * rhs;
    }
}

impl core::ops::Add<u64> for R64 {
    type Output = R64;

    fn add(self, rhs: u64) -> (r: Self)
        ensures
            r.0 == (self.0 + rhs) % modulus64(),
    {
        R64(self.0) + R64(rhs)
    }
}

impl vstd::std_specs::ops::AddSpecImpl<u64> for R64 {
    open spec fn obeys_add_spec() -> bool {
        true
    }

    open spec fn add_req(self, rhs: u64) -> bool {
        true
    }

    open spec fn add_spec(self, rhs: u64) -> R64 {
        R64(((self.0 + rhs) % modulus64()) as u64)
    }
}

impl core::ops::Mul<u64> for R64 {
    type Output = R64;

    fn mul(self, rhs: u64) -> (r: Self)
        ensures
            r.0 == (self.0 * rhs) % modulus64(),
    {
        R64(self.0) * R64(rhs)
    }
}

impl vstd::std_specs::ops::MulSpecImpl<u64> for R64 {
    open spec fn obeys_mul_spec() -> bool {
        true
    }

    open spec fn mul_req(self, rhs: u64) -> bool {
        true
    }

    open spec fn mul_spec(self, rhs: u64) -> R64 {
        R64(((self.0 * rhs) % modulus64()) as u64)
    }
}

impl core::ops::Neg for R64 {
    type Output = R64;

    fn neg(self) -> (r: Self)
        ensures
            r.0 == (-self.0) % modulus64(),
    {
        let r = self.ring_neg();
        proof {
            lemma_small_mod(self.0 as nat, modulus64() as nat);
            lemma_small_mod(r.0 as nat, modulus64() as nat);
        }
        r
    }
}

impl vstd::std_specs::ops::NegSpecImpl for R64 {
    open spec fn obeys_neg_spec() -> bool {
        true
    }

    open spec fn neg_req(self) -> bool {
        true
    }

    open spec fn neg_spec(self) -> R64 {
        R64(((-self.0) % modulus64()) as u64)
    }
}

} // verus!
