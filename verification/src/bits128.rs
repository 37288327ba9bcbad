//! Facts about shifts and masks on 128-bit words.
use vstd::prelude::*;
use vstd::arithmetic::div_mod::{lemma_fundamental_div_mod, lemma_mod_mod};
use vstd::arithmetic::mul::{lemma_mul_inequality, lemma_mul_is_commutative};
use vstd::arithmetic::power2::{lemma2_to64, lemma_pow2_adds, lemma_pow2_pos, pow2};
use vstd::bits::lemma_u128_shr_is_div;

verus! {

/// Shifting left by `k` bits multiplies by `2^k` as long as nothing is shifted out.
pub proof fn lemma_u128_shl_is_mul(x: u128, k: u128)
    requires
        k < 128,
        x * pow2(k as nat) <= u128::MAX,
    ensures
        x << k == x * pow2(k as nat),
    decreases k,
{
    lemma2_to64();
    if k == 0 {
        assert(x << 0u128 == x) by (bit_vector);
        vstd::arithmetic::mul::lemma_mul_basics(x as int);
    } else {
        let j = (k - 1) as u128;
        lemma_pow2_adds(j as nat, 1);
        lemma_pow2_pos(j as nat);
        lemma_mul_inequality(pow2(j as nat) as int, pow2(k as nat) as int, x as int);
        lemma_mul_is_commutative(x as int, pow2(j as nat) as int);
        lemma_mul_is_commutative(x as int, pow2(k as nat) as int);
        lemma_u128_shl_is_mul(x, j);
        assert(x << k == ((x << j) * 2) as u128) by (bit_vector)
            requires
                j + 1 == k,
                k < 128,
        ;
        vstd::arithmetic::mul::lemma_mul_is_associative(x as int, pow2(j as nat) as int, 2);
        assert(pow2(k as nat) == pow2(j as nat) * 2);
        assert((x << j) * 2 == x * pow2(k as nat));
    }
}

/// `1 << k` is `2^k`.
pub proof fn lemma_u128_pow2(k: u128)
    requires
        k < 128,
    ensures
        1u128 << k == pow2(k as nat),
        pow2(k as nat) <= u128::MAX,
{
    lemma_pow2_pos(k as nat);
    if k < 127 {
        vstd::arithmetic::power2::lemma_pow2_strictly_increases(k as nat, 127);
    }
    assert(pow2(127) == 0x8000_0000_0000_0000_0000_0000_0000_0000) by {
        lemma2_to64();
        lemma_pow2_adds(64, 63);
        vstd::arithmetic::power2::lemma2_to64_rest();
    }
    lemma_u128_shl_is_mul(1, k);
}

/// Masking with `2^k - 1` keeps the residue modulo `2^k`.
pub proof fn lemma_u128_mask_is_mod(x: u128, k: u128)
    requires
        k < 128,
    ensures
        x & (((1u128 << k) - 1) as u128) == x as int % pow2(k as nat) as int,
        !(((1u128 << k) - 1) as u128) & x == 0 <==> x < pow2(k as nat),
{
    lemma_u128_pow2(k);
    lemma_pow2_pos(k as nat);
    lemma_u128_shr_is_div(x, k);
    let q = x >> k;
    lemma_fundamental_div_mod(x as int, pow2(k as nat) as int);
    lemma_mul_is_commutative(pow2(k as nat) as int, q as int);
    assert(q * pow2(k as nat) <= x);
    lemma_u128_shl_is_mul(q, k);
    assert(((1u128 << k) - 1) as u128 == !(0xffff_ffff_ffff_ffff_ffff_ffff_ffff_ffffu128 << k))
        by (bit_vector)
        requires
            k < 128,
    ;
    let hi_mask = 0xffff_ffff_ffff_ffff_ffff_ffff_ffff_ffffu128 << k;
    assert((x >> k) << k == x & hi_mask) by (bit_vector)
        requires
            k < 128,
            hi_mask == 0xffff_ffff_ffff_ffff_ffff_ffff_ffff_ffffu128 << k,
    ;
    assert((x & hi_mask) + (x & !hi_mask) == x) by (bit_vector);
    assert(!(((1u128 << k) - 1) as u128) & x == 0 <==> x < (1u128 << k)) by (bit_vector)
        requires
            k < 128,
    ;
}

/// Reducing modulo a multiple of `m` and then modulo `m` is reducing modulo `m`.
pub proof fn lemma_mod_of_mod_multiple(x: int, m: int, big: int)
    requires
        m > 0,
        big > 0,
        big % m == 0,
    ensures
        (x % big) % m == x % m,
{
    lemma_fundamental_div_mod(big, m);
    let n = big / m;
    assert(big == m * n);
    assert(n > 0) by (nonlinear_arith)
        requires
            big == m * n,
            m > 0,
            big > 0,
    ;
    lemma_mod_mod(x, m, n);
}

} // verus!
