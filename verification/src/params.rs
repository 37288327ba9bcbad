//! Parameters of the LPN-based VOLE extension and of its benchmarks: the
//! party to run, the ring, the network endpoint, and the LPN dimensions.
use vstd::prelude::*;

verus! {

/// Which side of the protocol to run.
#[derive(Debug, Clone, Copy, PartialEq, Eq, Structural)]
pub enum Party {
    Prover,
    Verifier,
    Both,
}

impl Party {
    /// The party's name.
    pub fn name(&self) -> (r: &'static str)
        ensures
            r@ == party_name(*self),
    {
        match self {
            Party::Prover => "Prover",
            Party::Verifier => "Verifier",
            Party::Both => "Both",
        }
    }
}

/// The name of a party.
pub open spec fn party_name(p: Party) -> Seq<char> {
    match p {
        Party::Prover => "Prover"@,
        Party::Verifier => "Verifier"@,
        Party::Both => "Both"@,
    }
}

/// Where to listen for, or connect to, the other party.
#[derive(Debug, Clone)]
pub struct NetworkOptions {
    pub listen: bool,
    pub host: String,
    pub port: u16,
    pub connect_timeout_seconds: usize,
}

/// The ring `Z/2^k` to compute over, by its bit length `k`.
#[derive(Debug, Clone, Copy, PartialEq, Eq, Structural)]
pub enum RingParameter {
    R64,
    R72,
    R78,
    R104,
    R110,
    R112,
    R118,
    R119,
    R144,
    R150,
    R151,
    R196,
    R203,
    R224,
    R231,
}

/// The name under which a ring parameter is reported.  `R78` is reported as
/// "R72".
pub open spec fn ring_parameter_name(p: RingParameter) -> Seq<char> {
    match p {
        RingParameter::R64 => "R64"@,
        RingParameter::R72 => "R72"@,
        RingParameter::R78 => "R72"@,
        RingParameter::R104 => "R104"@,
        RingParameter::R110 => "R110"@,
        RingParameter::R112 => "R112"@,
        RingParameter::R118 => "R118"@,
        RingParameter::R119 => "R119"@,
        RingParameter::R144 => "R144"@,
        RingParameter::R150 => "R150"@,
        RingParameter::R151 => "R151"@,
        RingParameter::R196 => "R196"@,
        RingParameter::R203 => "R203"@,
        RingParameter::R224 => "R224"@,
        RingParameter::R231 => "R231"@,
    }
}

impl RingParameter {
    /// The name under which the ring parameter is reported.
    pub fn name(&self) -> (r: &'static str)
        ensures
            r@ == ring_parameter_name(*self),
    {
        match self {
            RingParameter::R64 => "R64",
            RingParameter::R72 => "R72",
            RingParameter::R78 => "R72",
            RingParameter::R104 => "R104",
            RingParameter::R110 => "R110",
            RingParameter::R112 => "R112",
            RingParameter::R118 => "R118",
            RingParameter::R119 => "R119",
            RingParameter::R144 => "R144",
            RingParameter::R150 => "R150",
            RingParameter::R151 => "R151",
            RingParameter::R196 => "R196",
            RingParameter::R203 => "R203",
            RingParameter::R224 => "R224",
            RingParameter::R231 => "R231",
        }
    }
}

/// The dimensions of the LPN problem behind the VOLE extension: `K` base
/// VOLEs, `N` extended VOLEs and `T` noise coordinates, one in each of `T`
/// blocks of length `M = ceil(N / T)`.
#[derive(Debug, Copy, Clone, PartialEq, Eq, Structural)]
pub struct LpnParameters {
    pub base_vole_size: usize,
    pub extension_size: usize,
    pub num_noise_coordinates: usize,
}

/// `ceil(n / t)` for `n >= 1` and `t >= 1`, as the extension computes it.
pub open spec fn block_size(n: int, t: int) -> int {
    1 + (n - 1) / t
}

impl LpnParameters {
    /// All dimensions are positive and `T` divides `N`.
    pub open spec fn valid(&self) -> bool {
        &&& self.base_vole_size > 0
        &&& self.extension_size > 0
        &&& self.num_noise_coordinates > 0
        &&& self.extension_size % self.num_noise_coordinates == 0
    }

    /// Rounds `N` up to the next multiple of `T`.
    pub fn recompute_extension_size(&mut self)
        requires
            old(self).num_noise_coordinates > 0,
            old(self).extension_size >= 1,
            block_size(old(self).extension_size as int, old(self).num_noise_coordinates as int)
                * old(self).num_noise_coordinates <= usize::MAX,
        ensures
            final(self).base_vole_size == old(self).base_vole_size,
            final(self).num_noise_coordinates == old(self).num_noise_coordinates,
            final(self).extension_size == block_size(
                old(self).extension_size as int,
                old(self).num_noise_coordinates as int,
            ) * old(self).num_noise_coordinates,
            final(self).extension_size % final(self).num_noise_coordinates == 0,
            old(self).extension_size <= final(self).extension_size,
            final(self).extension_size < old(self).extension_size + old(self).num_noise_coordinates,
    {
        let t = self.num_noise_coordinates;
        let n = self.extension_size;
        // ceil(extension_size / num_noise_coordinates)
        let block_size = 1 + (self.extension_size - 1) / self.num_noise_coordinates;
        proof {
            lemma_block_size_bounds(n as int, t as int);
        }
        self.extension_size = block_size * self.num_noise_coordinates;
    }

    /// The block length `M = ceil(N / T)`.
    pub fn get_block_size(&self) -> (r: usize)
        requires
            self.num_noise_coordinates > 0,
            self.extension_size >= 1,
        ensures
            r == block_size(self.extension_size as int, self.num_noise_coordinates as int),
    {
        1 + (self.extension_size - 1) / self.num_noise_coordinates
    }

    /// The number of base VOLEs that one extension consumes, `K + 2T`.
    pub fn get_required_cache_size(&self) -> (r: usize)
        requires
            self.base_vole_size + 2 * self.num_noise_coordinates <= usize::MAX,
        ensures
            r == self.base_vole_size + 2 * self.num_noise_coordinates,
    {
        self.base_vole_size + 2 * self.num_noise_coordinates
    }

    /// The number of VOLEs that one extension yields beyond those it keeps
    /// for the next one, `N - (K + 2T)`.
    pub fn get_vole_output_size(&self) -> (r: usize)
        requires
            self.base_vole_size + 2 * self.num_noise_coordinates <= usize::MAX,
            self.extension_size >= self.base_vole_size + 2 * self.num_noise_coordinates,
        ensures
            r == self.extension_size - (self.base_vole_size + 2 * self.num_noise_coordinates),
    {
        self.extension_size - self.get_required_cache_size()
    }

    /// Whether the parameters are usable: all positive, and `T` divides `N`.
    pub fn validate(&self) -> (r: bool)
        ensures
            r == self.valid(),
    {
        self.base_vole_size > 0 && self.extension_size > 0 && self.num_noise_coordinates > 0
            && self.extension_size % self.num_noise_coordinates == 0
    }
}

/// `ceil(n / t) * t` is the least multiple of `t` that is at least `n`.
pub proof fn lemma_block_size_bounds(n: int, t: int)
    requires
        n >= 1,
        t >= 1,
    ensures
        block_size(n, t) >= 1,
        n <= block_size(n, t) * t,
        block_size(n, t) * t < n + t,
        (block_size(n, t) * t) % t == 0,
{
    let q = (n - 1) / t;
    let r = (n - 1) % t;
    assert(n - 1 == q * t + r) by (nonlinear_arith)
        requires
            q == (n - 1) / t,
            r == (n - 1) % t,
            t >= 1,
    ;
    assert(0 <= r < t);
    assert(q >= 0) by (nonlinear_arith)
        requires
            q == (n - 1) / t,
            n >= 1,
            t >= 1,
    ;
    assert((q + 1) * t == q * t + t) by (nonlinear_arith);
    vstd::arithmetic::div_mod::lemma_mod_multiples_basic(q + 1, t);
}

/// Rounding `N` up to a multiple of `T` yields parameters that `validate`
/// accepts, whenever `K` is positive.
pub proof fn lemma_recomputed_parameters_validate(p: LpnParameters, q: LpnParameters)
    requires
        p.base_vole_size > 0,
        p.num_noise_coordinates > 0,
        p.extension_size >= 1,
        q.base_vole_size == p.base_vole_size,
        q.num_noise_coordinates == p.num_noise_coordinates,
        q.extension_size == block_size(p.extension_size as int, p.num_noise_coordinates as int)
            * p.num_noise_coordinates,
    ensures
        q.valid(),
        q.extension_size >= p.extension_size,
{
    lemma_block_size_bounds(p.extension_size as int, p.num_noise_coordinates as int);
}

} // verus!
