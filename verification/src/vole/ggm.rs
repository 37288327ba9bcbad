//! The parties of the GGM-tree puncturable PRF.
use vstd::prelude::*;

verus! {

/// The receiver of the GGM tree; it expands seeds with the correlation-robust
/// hash keyed by `hash_key`.
pub struct Receiver {
    hash_key: u128,
}

impl View for Receiver {
    type V = u128;

    /// The key of the hash.
    closed spec fn view(&self) -> u128 {
        self.hash_key
    }
}

impl Receiver {
    /// A receiver whose hash has the all-zero key.
    pub fn init() -> (r: Self)
        ensures
            r@ == 0,
    {
        Self { hash_key: 0 }
    }
}

/// The sender of the GGM tree; it expands seeds with the correlation-robust
/// hash keyed by `hash_key`.
pub struct Sender {
    hash_key: u128,
}

impl View for Sender {
    type V = u128;

    /// The key of the hash.
    closed spec fn view(&self) -> u128 {
        self.hash_key
    }
}

impl Sender {
    /// A sender whose hash has the all-zero key.
    pub fn init() -> (r: Self)
        ensures
            r@ == 0,
    {
        Self { hash_key: 0 }
    }
}

} // verus!
