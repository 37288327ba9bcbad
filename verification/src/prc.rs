//! The pseudorandom code of the OPRF: four AES keys, one per 128-bit part of
//! a codeword.
use vstd::prelude::*;

verus! {

/// A pseudorandom code given by the keys of its four ciphers.
pub struct PseudorandomCode {
    key1: u128,
    key2: u128,
    key3: u128,
    key4: u128,
}

impl View for PseudorandomCode {
    type V = (u128, u128, u128, u128);

    /// The four cipher keys, in order.
    closed spec fn view(&self) -> (u128, u128, u128, u128) {
        (self.key1, self.key2, self.key3, self.key4)
    }
}

impl PseudorandomCode {
    /// The code whose ciphers are keyed with `k1`, `k2`, `k3` and `k4`.
    pub fn new(k1: u128, k2: u128, k3: u128, k4: u128) -> (r: Self)
        ensures
            r@ == (k1, k2, k3, k4),
    {
        Self { key1: k1, key2: k2, key3: k3, key4: k4 }
    }
}

} // verus!
