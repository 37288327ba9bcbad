//! The generator of base single-point VOLEs.
use vstd::prelude::*;
use crate::ring::r64::R64;

verus! {

/// The verifier's side of the base generator, over `R64`.
pub struct Generator {
    delta: R64,
}

impl View for Generator {
    type V = R64;

    /// The verifier's secret `delta`.
    closed spec fn view(&self) -> R64 {
        self.delta
    }
}

impl Generator {
    /// Sets the verifier's secret `delta`.
    pub fn init_verifier(&mut self, delta: R64)
        ensures
            final(self)@ == delta,
    {
        self.delta = delta;
    }
}

} // verus!
