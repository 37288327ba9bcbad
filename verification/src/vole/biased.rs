//! The biased generator of the single-point VOLE: a multiplicative
//! congruential sequence reduced to a range.
use vstd::prelude::*;
use vstd::arithmetic::power::pow;

verus! {

/// A generator with multiplier `x`, state `s` and range `limit`: each output
/// is `s mod limit`, after which `s` becomes `s * x` (wrapping).
pub struct BiasedGen {
    x: u64,
    s: u64,
    limit: u64,
}

impl View for BiasedGen {
    type V = (u64, u64, u64);

    /// The multiplier, the state and the range.
    closed spec fn view(&self) -> (u64, u64, u64) {
        (self.x, self.s, self.limit)
    }
}

/// The state after `n` outputs from the seed `x`: `x^(n+1)` modulo 2^64.
pub open spec fn biased_state(x: u64, n: nat) -> int {
    pow(x as int, n + 1) % 0x1_0000_0000_0000_0000
}

impl BiasedGen {
    /// A generator seeded with the low 64 bits of `seed`, which serve both as
    /// multiplier and as initial state.
    pub fn new(seed: u128, limit: u64) -> (r: BiasedGen)
        ensures
            r@.0 == seed as u64,
            r@.1 == seed as u64,
            r@.2 == limit,
    {
        BiasedGen { x: seed as u64, s: seed as u64, limit }
    }

    /// The next output, `s mod limit`; the state moves on to `s * x`.
    pub fn next(&mut self) -> (r: u64)
        requires
            old(self)@.2 > 0,
        ensures
            r == old(self)@.1 % old(self)@.2,
            r < old(self)@.2,
            final(self)@.0 == old(self)@.0,
            final(self)@.2 == old(self)@.2,
            final(self)@.1 == (old(self)@.1 * old(self)@.0) % 0x1_0000_0000_0000_0000,
    {
        let out = self.s % self.limit;
        self.s = self.s.wrapping_mul(self.x);
        out
    }
}

/// A fresh generator is in state `biased_state(x, 0)`, and each output moves
/// state `biased_state(x, n)` on to `biased_state(x, n + 1)`; so the `n`-th
/// output (counting from 0) is `x^(n+1) mod 2^64 mod limit`.
pub proof fn lemma_biased_state(x: u64, s: u64, n: nat)
    requires
        s == biased_state(x, n),
    ensures
        biased_state(x, 0) == x,
        (s * x) % 0x1_0000_0000_0000_0000 == biased_state(x, n + 1),
{
    let m = 0x1_0000_0000_0000_0000int;
    vstd::arithmetic::power::lemma_pow1(x as int);
    vstd::arithmetic::div_mod::lemma_small_mod(x as nat, m as nat);
    vstd::arithmetic::power::lemma_pow_adds(x as int, n + 1, 1);
    vstd::arithmetic::div_mod::lemma_mul_mod_noop_left(pow(x as int, n + 1), x as int, m);
}

} // verus!
