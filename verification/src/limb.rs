//! Single-limb primitives shared by the multi-limb integers: add with carry,
//! subtract with borrow and multiply-accumulate on 64-bit words.
use vstd::prelude::*;
use vstd::arithmetic::div_mod::{lemma_fundamental_div_mod, lemma_mod_bound, lemma_mod_multiples_basic};
use vstd::arithmetic::mul::{
    lemma_mul_inequality, lemma_mul_is_associative, lemma_mul_is_commutative,
    lemma_mul_is_distributive_add_other_way, lemma_mul_strict_inequality,
};
use vstd::arithmetic::power2::{lemma2_to64, lemma2_to64_rest, lemma_pow2_adds, lemma_pow2_pos, pow2};
use vstd::bits::{lemma_u64_pow2_no_overflow, lemma_u64_shl_is_mul, lemma_u64_shr_is_div};

verus! {

/// 2^64, the radix of one limb.
pub open spec fn radix() -> nat {
    0x1_0000_0000_0000_0000
}

/// `a + b` on 64-bit words, together with the overflow flag.
pub fn overflowing_add_u64(a: u64, b: u64) -> (r: (u64, bool))
    ensures
        r.0 + (if r.1 { radix() } else { 0 }) == a + b,
{
    let s = a.wrapping_add(b);
    (s, s < a)
}

/// `a - b` on 64-bit words, together with the borrow flag.
pub fn overflowing_sub_u64(a: u64, b: u64) -> (r: (u64, bool))
    ensures
        r.0 - (if r.1 { radix() } else { 0 }) == a - b,
{
    let s = a.wrapping_sub(b);
    (s, a < b)
}

/// Adds two words and an incoming carry; returns the low word and the outgoing carry.
pub fn adc(a: u64, b: u64, carry: bool) -> (r: (u64, bool))
    ensures
        r.0 + (if r.1 { radix() } else { 0 }) == a + b + (if carry { 1int } else { 0 }),
{
    let (tmp, o1) = overflowing_add_u64(a, b);
    let (tmp, o2) = overflowing_add_u64(tmp, if carry { 1u64 } else { 0u64 });
    (tmp, o1 || o2)
}

/// Subtracts a word and an incoming borrow; returns the low word and the outgoing borrow.
pub fn sbb(a: u64, b: u64, borrow: bool) -> (r: (u64, bool))
    ensures
        r.0 - (if r.1 { radix() } else { 0 }) == a - b - (if borrow { 1int } else { 0 }),
{
    let (tmp, o1) = overflowing_sub_u64(a, b);
    let (tmp, o2) = overflowing_sub_u64(tmp, if borrow { 1u64 } else { 0u64 });
    (tmp, o1 || o2)
}

/// Splits a double word into its low and high word.
pub fn split(x: u128) -> (r: (u64, u64))
    ensures
        r.0 + r.1 * radix() == x,
{
    let lo = x & 0xffffffffffffffff;
    let hi = x >> 64;
    assert((x & 0xffffffffffffffff) == x % 0x1_0000_0000_0000_0000) by (bit_vector);
    assert(x >> 64 == x / 0x1_0000_0000_0000_0000) by (bit_vector);
    (lo as u64, hi as u64)
}

/// Multiply-accumulate: `w + a * b + carry`, as a low word and a carry word.
pub fn mac(w: u64, a: u64, b: u64, carry: u64) -> (r: (u64, u64))
    ensures
        r.0 + r.1 * radix() == w + a * b + carry,
{
    assert(a * b <= 0xffff_ffff_ffff_fffe_0000_0000_0000_0001) by (nonlinear_arith)
        requires
            a <= 0xffff_ffff_ffff_ffff,
            b <= 0xffff_ffff_ffff_ffff,
    ;
    let (lo, hi) = split(a as u128 * b as u128);
    let (tmp, o1) = overflowing_add_u64(w, lo);
    let (tmp, o2) = overflowing_add_u64(tmp, carry);
    // the whole sum is below 2^128, so the carry word cannot overflow
    assert(hi + (if o1 { 1int } else { 0 }) + (if o2 { 1int } else { 0 }) <= 0xffff_ffff_ffff_ffff);
    (tmp, hi + o1 as u64 + o2 as u64)
}


/// Shifting a word left by `k` bits (0 < k < 64): the shifted word together with
/// the bits that leave it, which land in the next word, make `x * 2^k`.
pub proof fn lemma_shl_limb(x: u64, k: u32)
    requires
        0 < k < 64,
    ensures
        (x << k) + (x >> ((64 - k) as u32)) * radix() == x * pow2(k as nat),
        x >> ((64 - k) as u32) < pow2(k as nat),
        (x << k) as int % pow2(k as nat) as int == 0,
{
    let kk = k as u64;
    let s = (64 - k) as u64;
    let h = x >> s;
    lemma2_to64();
    lemma2_to64_rest();
    lemma_pow2_pos(s as nat);
    lemma_pow2_pos(k as nat);
    lemma_pow2_adds(s as nat, k as nat);
    lemma_u64_pow2_no_overflow(s as nat);
    assert(pow2(s as nat) * pow2(k as nat) == radix());
    // the high part is x / 2^(64-k)
    lemma_u64_shr_is_div(x, s);
    assert(x >> ((64 - k) as u32) == h) by (bit_vector)
        requires
            s == 64 - k,
            0 < k < 64,
            h == x >> s,
    ;
    lemma_fundamental_div_mod(x as int, pow2(s as nat) as int);
    lemma_mul_is_commutative(pow2(s as nat) as int, h as int);
    let l = (x - h * pow2(s as nat)) as u64;
    // (x >> s) << s is h * 2^(64-k), so l holds the low bits of x
    lemma_mul_inequality(h as int, h as int, pow2(s as nat) as int);
    lemma_u64_shl_is_mul(h, s);
    assert(x << k == ((x - ((x >> s) << s)) as u64) << kk) by (bit_vector)
        requires
            s == 64 - k,
            kk == k,
            0 < k < 64,
    ;
    assert(x << k == l << kk);
    lemma_mod_bound(x as int, pow2(s as nat) as int);
    lemma_mul_strict_inequality(l as int, pow2(s as nat) as int, pow2(k as nat) as int);
    lemma_mul_is_commutative(l as int, pow2(k as nat) as int);
    lemma_mul_is_commutative(pow2(s as nat) as int, pow2(k as nat) as int);
    lemma_u64_shl_is_mul(l, kk);
    // x * 2^k = (h * 2^(64-k) + l) * 2^k = h * 2^64 + l * 2^k
    lemma_mul_is_distributive_add_other_way(pow2(k as nat) as int, h * pow2(s as nat), l as int);
    lemma_mul_is_associative(h as int, pow2(s as nat) as int, pow2(k as nat) as int);
    // h < 2^k because x < 2^64
    assert(h < pow2(k as nat)) by {
        if h >= pow2(k as nat) {
            lemma_mul_inequality(pow2(k as nat) as int, h as int, pow2(s as nat) as int);
        }
    }
    // the low k bits of a left shift are zero
    assert((x << k) as int % pow2(k as nat) as int == 0) by {
        lemma_mod_multiples_basic(l as int, pow2(k as nat) as int);
    }
}

} // verus!
