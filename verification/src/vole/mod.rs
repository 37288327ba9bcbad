//! VOLE extension over rings `Z/2^k`: caches of base correlations and the
//! helpers of the extension protocol.
use vstd::prelude::*;

pub mod biased;
pub mod cache;
pub mod code;
pub mod extension;
pub mod generator;
pub mod ggm;
pub mod spvole;
pub mod utils;

verus! {

/// Number of base VOLEs that one iteration of the extension consumes: `k + 2t`.
pub fn reg_vole_required(k: usize, t: usize) -> (r: usize)
    requires
        k + 2 * t <= usize::MAX,
    ensures
        r == k + 2 * t,
{
    k + (t * 2)
}

} // verus!
