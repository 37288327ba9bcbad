//! Arithmetic circuits over mixed moduli, the low-level circuit description
//! used for garbling: input and constant wires, addition, subtraction and
//! scalar multiplication modulo the wire's modulus, projection gates given by
//! a truth table, binary Yao gates and half gates (multiplication).
use vstd::prelude::*;
use vstd::arithmetic::power2::{lemma2_to64, lemma_pow2_unfold, pow2};
use std::collections::HashMap;

verus! {

/// Index of a wire in a circuit; wire `z` is driven by gate `z`.
pub type Ref = usize;

/// Identifier of an input, a constant, or a ciphertext-producing gate.
pub type Id = usize;

/// A circuit: gate `z` drives wire `z`, whose modulus is `moduli[z]`.
#[derive(Debug)]
pub struct Circuit {
    pub gates: Vec<Gate>,
    pub moduli: Vec<u16>,
    pub input_refs: Vec<Ref>,
    pub output_refs: Vec<Ref>,
}

/// Kinds of gates.
#[derive(Debug)]
pub enum Gate {
    /// The input with the given id.
    Input { id: Id },
    /// The constant with the given id.
    Const { id: Id },
    /// `x + y` modulo the wire modulus.
    Add { xref: Ref, yref: Ref },
    /// `x - y` modulo the wire modulus.
    Sub { xref: Ref, yref: Ref },
    /// `c * x` modulo the wire modulus.
    Cmul { xref: Ref, c: u16 },
    /// Projection: `tt[x]`; `id` numbers it among ciphertext gates.
    Proj { xref: Ref, tt: Vec<u16>, id: Id },
    /// Binary gate given by its table: `tt[x][y]`.
    Yao { xref: Ref, yref: Ref, tt: Vec<Vec<u16>>, id: Id },
    /// `x * y` modulo the wire modulus.
    HalfGate { xref: Ref, yref: Ref, id: Id },
}

/// The value of wire `x` in a partially filled table of values: wires that have
/// not been computed yet read as 0.
pub open spec fn read(vals: Seq<u16>, x: int) -> u16 {
    if 0 <= x < vals.len() {
        vals[x]
    } else {
        0
    }
}

/// The value a gate computes from the inputs, the constants and the values of
/// the wires before it.
pub open spec fn gate_value(g: Gate, q: u16, inputs: Seq<u16>, consts: Seq<u16>, vals: Seq<u16>) -> u16 {
    match g {
        Gate::Input { id } => inputs[id as int],
        Gate::Const { id } => consts[id as int],
        Gate::Add { xref, yref } => ((read(vals, xref as int) + read(vals, yref as int)) % (
        q as int)) as u16,
        Gate::Sub { xref, yref } => ((read(vals, xref as int) + q - read(vals, yref as int)) % (
        q as int)) as u16,
        Gate::Cmul { xref, c } => ((read(vals, xref as int) * c) % (q as int)) as u16,
        Gate::Proj { xref, tt, .. } => tt@[read(vals, xref as int) as int],
        Gate::Yao { xref, yref, tt, .. } => tt@[read(vals, xref as int) as int]@[read(
            vals,
            yref as int,
        ) as int],
        Gate::HalfGate { xref, yref, .. } => ((read(vals, xref as int) * read(vals, yref as int))
            % (q as int)) as u16,
    }
}

/// Whether evaluating a gate stays within bounds and free of overflow: the ids
/// and references are in range, the modulus of an arithmetic gate is nonzero,
/// the 16-bit arithmetic does not overflow, and table lookups are in range.
/// `n` is the number of gates of the circuit.
pub open spec fn gate_ok(g: Gate, q: u16, n: int, inputs: Seq<u16>, consts: Seq<u16>, vals: Seq<u16>) -> bool {
    match g {
        Gate::Input { id } => id < inputs.len(),
        Gate::Const { id } => id < consts.len(),
        Gate::Add { xref, yref } => xref < n && yref < n && q > 0 && read(vals, xref as int) + read(
            vals,
            yref as int,
        ) <= u16::MAX,
        Gate::Sub { xref, yref } => xref < n && yref < n && q > 0 && read(vals, xref as int) + q
            <= u16::MAX && read(vals, yref as int) <= read(vals, xref as int) + q,
        Gate::Cmul { xref, c } => xref < n && q > 0 && read(vals, xref as int) * c <= u16::MAX,
        Gate::Proj { xref, tt, .. } => xref < n && read(vals, xref as int) < tt.len(),
        Gate::Yao { xref, yref, tt, .. } => xref < n && yref < n && read(vals, xref as int)
            < tt.len() && read(vals, yref as int) < tt@[read(vals, xref as int) as int].len(),
        Gate::HalfGate { xref, yref, .. } => xref < n && yref < n && q > 0 && read(
            vals,
            xref as int,
        ) * read(vals, yref as int) <= u16::MAX,
    }
}

/// The values of the first `k` wires, each gate evaluated in order.
pub open spec fn gate_values(
    gates: Seq<Gate>,
    moduli: Seq<u16>,
    inputs: Seq<u16>,
    consts: Seq<u16>,
    k: nat,
) -> Seq<u16>
    decreases k,
{
    if k == 0 {
        seq![]
    } else {
        let prev = gate_values(gates, moduli, inputs, consts, (k - 1) as nat);
        prev.push(gate_value(gates[k - 1], moduli[k - 1], inputs, consts, prev))
    }
}

/// `gate_values` has one value per wire.
pub proof fn lemma_gate_values_len(
    gates: Seq<Gate>,
    moduli: Seq<u16>,
    inputs: Seq<u16>,
    consts: Seq<u16>,
    k: nat,
)
    ensures
        gate_values(gates, moduli, inputs, consts, k).len() == k,
    decreases k,
{
    if k > 0 {
        lemma_gate_values_len(gates, moduli, inputs, consts, (k - 1) as nat);
    }
}

/// The values of the first `k` wires depend on the first `k` gates and moduli only.
pub proof fn lemma_gate_values_prefix(
    gates1: Seq<Gate>,
    moduli1: Seq<u16>,
    gates2: Seq<Gate>,
    moduli2: Seq<u16>,
    inputs: Seq<u16>,
    consts: Seq<u16>,
    k: nat,
)
    requires
        k <= gates1.len(),
        k <= gates2.len(),
        k <= moduli1.len(),
        k <= moduli2.len(),
        gates1.take(k as int) == gates2.take(k as int),
        moduli1.take(k as int) == moduli2.take(k as int),
    ensures
        gate_values(gates1, moduli1, inputs, consts, k) == gate_values(
            gates2,
            moduli2,
            inputs,
            consts,
            k,
        ),
    decreases k,
{
    if k > 0 {
        assert(gates1.take(k - 1) == gates2.take(k - 1)) by {
            assert(gates1.take(k - 1) == gates1.take(k as int).take(k - 1));
            assert(gates2.take(k - 1) == gates2.take(k as int).take(k - 1));
        }
        assert(moduli1.take(k - 1) == moduli2.take(k - 1)) by {
            assert(moduli1.take(k - 1) == moduli1.take(k as int).take(k - 1));
            assert(moduli2.take(k - 1) == moduli2.take(k as int).take(k - 1));
        }
        assert(gates1[k - 1] == gates1.take(k as int)[k - 1]);
        assert(gates2[k - 1] == gates2.take(k as int)[k - 1]);
        assert(moduli1[k - 1] == moduli1.take(k as int)[k - 1]);
        assert(moduli2[k - 1] == moduli2.take(k as int)[k - 1]);
        lemma_gate_values_prefix(gates1, moduli1, gates2, moduli2, inputs, consts, (k - 1) as nat);
    }
}

/// The values of the first `j` wires are a prefix of those of the first `k`.
pub proof fn lemma_gate_values_take(
    gates: Seq<Gate>,
    moduli: Seq<u16>,
    inputs: Seq<u16>,
    consts: Seq<u16>,
    j: nat,
    k: nat,
)
    requires
        j <= k,
    ensures
        gate_values(gates, moduli, inputs, consts, k).take(j as int) == gate_values(
            gates,
            moduli,
            inputs,
            consts,
            j,
        ),
    decreases k,
{
    lemma_gate_values_len(gates, moduli, inputs, consts, k);
    lemma_gate_values_len(gates, moduli, inputs, consts, j);
    if j < k {
        lemma_gate_values_take(gates, moduli, inputs, consts, j, (k - 1) as nat);
        lemma_gate_values_len(gates, moduli, inputs, consts, (k - 1) as nat);
        let prev = gate_values(gates, moduli, inputs, consts, (k - 1) as nat);
        assert(gate_values(gates, moduli, inputs, consts, k).take(j as int) == prev.take(j as int));
    } else {
        assert(gate_values(gates, moduli, inputs, consts, k).take(j as int) == gate_values(
            gates,
            moduli,
            inputs,
            consts,
            k,
        ));
    }
}

impl Circuit {
    /// The value of every wire on the given inputs and constants.
    pub open spec fn values(&self, inputs: Seq<u16>, consts: Seq<u16>) -> Seq<u16> {
        gate_values(self.gates@, self.moduli@, inputs, consts, self.gates.len() as nat)
    }

    /// Whether the circuit can be evaluated on the given inputs and constants
    /// without an out-of-range index or a 16-bit overflow.
    pub open spec fn evaluable(&self, inputs: Seq<u16>, consts: Seq<u16>) -> bool {
        &&& inputs.len() == self.input_refs.len()
        &&& self.moduli.len() >= self.gates.len()
        &&& forall|i: int|
            0 <= i < self.output_refs.len() ==> #[trigger] self.output_refs[i] < self.gates.len()
        &&& forall|z: int|
            0 <= z < self.gates.len() ==> gate_ok(
                #[trigger] self.gates@[z],
                self.moduli@[z],
                self.gates.len() as int,
                inputs,
                consts,
                gate_values(self.gates@, self.moduli@, inputs, consts, z as nat),
            )
    }

    /// The values of the output wires.
    pub open spec fn outputs(&self, inputs: Seq<u16>, consts: Seq<u16>) -> Seq<u16> {
        self.output_refs@.map_values(|o: Ref| self.values(inputs, consts)[o as int])
    }

    /// Evaluates a circuit that has no constants.
    pub fn eval(&self, inputs: &[u16]) -> (r: Vec<u16>)
        requires
            self.evaluable(inputs@, seq![]),
        ensures
            r@ == self.outputs(inputs@, seq![]),
    {
        let no_consts: Vec<u16> = Vec::new();
        self.eval_full(inputs, no_consts.as_slice())
    }

    /// Evaluates the circuit on the inputs and the values of its constants.
    pub fn eval_full(&self, inputs: &[u16], consts: &[u16]) -> (r: Vec<u16>)
        requires
            self.evaluable(inputs@, consts@),
        ensures
            r@ == self.outputs(inputs@, consts@),
    {
        let n = self.gates.len();
        let ghost gs = self.gates@;
        let ghost ms = self.moduli@;
        let mut cache: Vec<u16> = vec![0; n];
        let mut zref: usize = 0;
        while zref < n
            invariant
                n == self.gates.len(),
                gs == self.gates@,
                ms == self.moduli@,
                self.evaluable(inputs@, consts@),
                cache.len() == n,
                zref <= n,
                forall|j: int|
                    0 <= j < zref ==> cache@[j] == #[trigger] gate_values(
                        gs,
                        ms,
                        inputs@,
                        consts@,
                        zref as nat,
                    )[j],
                forall|j: int| zref <= j < n ==> cache@[j] == 0,
            decreases n - zref,
        {
            let ghost prev = gate_values(gs, ms, inputs@, consts@, zref as nat);
            proof {
                lemma_gate_values_len(gs, ms, inputs@, consts@, zref as nat);
                assert(gate_ok(gs[zref as int], ms[zref as int], n as int, inputs@, consts@, prev));
                assert(forall|x: int| 0 <= x < n ==> cache@[x] == read(prev, x));
            }
            let q = self.moduli[zref];
            let val: u16 = match &self.gates[zref] {
                Gate::Input { id } => inputs[*id],
                Gate::Const { id } => consts[*id],
                Gate::Add { xref, yref } => (cache[*xref] + cache[*yref]) % q,
                Gate::Sub { xref, yref } => (cache[*xref] + q - cache[*yref]) % q,
                Gate::Cmul { xref, c } => cache[*xref] * *c % q,
                Gate::Proj { xref, tt, .. } => tt[cache[*xref] as usize],
                Gate::Yao { xref, yref, tt, .. } => tt[cache[*xref] as usize][cache[*yref] as usize],
                Gate::HalfGate { xref, yref, .. } => cache[*xref] * cache[*yref] % q,
            };
            assert(val == gate_value(gs[zref as int], ms[zref as int], inputs@, consts@, prev));
            cache.set(zref, val);
            zref += 1;
            proof {
                lemma_gate_values_len(gs, ms, inputs@, consts@, zref as nat);
            }
        }
        let mut out: Vec<u16> = Vec::new();
        let mut i: usize = 0;
        while i < self.output_refs.len()
            invariant
                n == self.gates.len(),
                gs == self.gates@,
                ms == self.moduli@,
                self.evaluable(inputs@, consts@),
                cache.len() == n,
                forall|j: int|
                    0 <= j < n ==> cache@[j] == #[trigger] self.values(inputs@, consts@)[j],
                i <= self.output_refs.len(),
                out@ == self.output_refs@.take(i as int).map_values(
                    |o: Ref| self.values(inputs@, consts@)[o as int],
                ),
            decreases self.output_refs.len() - i,
        {
            let o = self.output_refs[i];
            assert(self.output_refs[i as int] < n);
            out.push(cache[o]);
            i += 1;
            assert(self.output_refs@.take(i as int) == self.output_refs@.take(i - 1).push(o));
        }
        assert(self.output_refs@.take(i as int) == self.output_refs@);
        out
    }

    /// The number of inputs.
    pub fn ninputs(&self) -> (r: usize)
        ensures
            r == self.input_refs.len(),
    {
        self.input_refs.len()
    }

    /// The modulus of input `id`.
    pub fn input_mod(&self, id: Id) -> (r: u16)
        requires
            id < self.input_refs.len(),
            self.input_refs[id as int] < self.moduli.len(),
        ensures
            r == self.moduli[self.input_refs[id as int] as int],
    {
        let r = self.input_refs[id];
        self.moduli[r]
    }
}


/// Gate `g` at wire `z`, of modulus `q`, reads only earlier wires and, when
/// every earlier wire holds a value below its modulus, evaluates without an
/// out-of-range index or a 16-bit overflow to a value below `q`.  `moduli`
/// and `input_refs` are those of its circuit, `consts` its constants.
pub open spec fn gate_safe(
    g: Gate,
    q: u16,
    z: int,
    moduli: Seq<u16>,
    input_refs: Seq<Ref>,
    consts: Seq<u16>,
) -> bool {
    match g {
        Gate::Input { id } => id < input_refs.len() && input_refs[id as int] == z,
        Gate::Const { id } => id < consts.len() && consts[id as int] < q,
        Gate::Add { xref, yref } => xref < z && yref < z && q > 0 && moduli[xref as int]
            + moduli[yref as int] <= u16::MAX + 2,
        Gate::Sub { xref, yref } => xref < z && yref < z && q > 0 && moduli[xref as int] + q
            <= u16::MAX + 1 && moduli[yref as int] <= q + 1,
        Gate::Cmul { xref, c } => xref < z && q > 0 && (moduli[xref as int] - 1) * c <= u16::MAX,
        Gate::Proj { xref, tt, .. } => xref < z && moduli[xref as int] <= tt.len() && forall|i: int|
            0 <= i < tt.len() ==> #[trigger] tt@[i] < q,
        Gate::Yao { xref, yref, tt, .. } => xref < z && yref < z && moduli[xref as int] <= tt.len()
            && forall|i: int|
            0 <= i < tt.len() ==> moduli[yref as int] <= #[trigger] tt@[i].len() && forall|j: int|
                0 <= j < tt@[i].len() ==> #[trigger] tt@[i]@[j] < q,
        Gate::HalfGate { xref, yref, .. } => xref < z && yref < z && q > 0 && (moduli[xref as int] - 1)
            * (moduli[yref as int] - 1) <= u16::MAX,
    }
}

/// Every gate of `c` is safe (see `gate_safe`) with the constants `consts`,
/// and the outputs are wires of `c`.
pub open spec fn circuit_safe(c: Circuit, consts: Seq<u16>) -> bool {
    &&& c.moduli.len() == c.gates.len()
    &&& forall|i: int| 0 <= i < c.output_refs.len() ==> #[trigger] c.output_refs[i] < c.gates.len()
    &&& forall|z: int|
        0 <= z < c.gates.len() ==> gate_safe(
            #[trigger] c.gates@[z],
            c.moduli@[z],
            z,
            c.moduli@,
            c.input_refs@,
            consts,
        )
}

/// One input per input wire, each below the modulus of its wire.
pub open spec fn inputs_in_range(c: Circuit, inputs: Seq<u16>) -> bool {
    &&& inputs.len() == c.input_refs.len()
    &&& forall|i: int|
        0 <= i < inputs.len() ==> #[trigger] inputs[i] < c.moduli@[c.input_refs@[i] as int]
}

/// The first `n` wires of a safe circuit hold values below their moduli and
/// their gates evaluate without error.
proof fn lemma_safe_prefix(c: Circuit, k: Seq<u16>, inputs: Seq<u16>, consts: Seq<u16>, n: nat)
    requires
        circuit_safe(c, k),
        k.is_prefix_of(consts),
        inputs_in_range(c, inputs),
        n <= c.gates.len(),
    ensures
        forall|z: int|
            0 <= z < n ==> #[trigger] gate_values(c.gates@, c.moduli@, inputs, consts, n)[z]
                < c.moduli@[z],
        forall|z: int|
            0 <= z < n ==> gate_ok(
                #[trigger] c.gates@[z],
                c.moduli@[z],
                c.gates.len() as int,
                inputs,
                consts,
                gate_values(c.gates@, c.moduli@, inputs, consts, z as nat),
            ),
    decreases n,
{
    if n > 0 {
        let m = (n - 1) as nat;
        lemma_safe_prefix(c, k, inputs, consts, m);
        lemma_gate_values_len(c.gates@, c.moduli@, inputs, consts, m);
        let vals = gate_values(c.gates@, c.moduli@, inputs, consts, m);
        let g = c.gates@[m as int];
        let q = c.moduli@[m as int];
        let mo = c.moduli@;
        assert(gate_safe(g, q, m as int, mo, c.input_refs@, k));
        let v = gate_value(g, q, inputs, consts, vals);
        assert(gate_values(c.gates@, c.moduli@, inputs, consts, n) == vals.push(v));
        match g {
            Gate::Input { id } => {
                assert(inputs[id as int] < mo[c.input_refs@[id as int] as int]);
            },
            Gate::Const { id } => {
                assert(k[id as int] == consts.subrange(0, k.len() as int)[id as int]);
            },
            Gate::Add { xref, yref } => {
                assert(vals[xref as int] < mo[xref as int]);
                assert(vals[yref as int] < mo[yref as int]);
            },
            Gate::Sub { xref, yref } => {
                assert(vals[xref as int] < mo[xref as int]);
                assert(vals[yref as int] < mo[yref as int]);
            },
            Gate::Cmul { xref, c: cc } => {
                let a = vals[xref as int] as int;
                let mx = mo[xref as int] as int;
                assert(a < mx);
                assert(a * cc <= (mx - 1) * cc) by (nonlinear_arith)
                    requires
                        0 <= a <= mx - 1,
                        cc >= 0,
                ;
            },
            Gate::Proj { xref, tt, .. } => {
                assert(vals[xref as int] < mo[xref as int]);
                assert(tt@[vals[xref as int] as int] < q);
            },
            Gate::Yao { xref, yref, tt, .. } => {
                let a = vals[xref as int] as int;
                let b = vals[yref as int] as int;
                assert(a < mo[xref as int]);
                assert(b < mo[yref as int]);
                assert(mo[yref as int] <= tt@[a].len());
                assert(tt@[a]@[b] < q);
            },
            Gate::HalfGate { xref, yref, .. } => {
                let a = vals[xref as int] as int;
                let b = vals[yref as int] as int;
                let mx = mo[xref as int] as int;
                let my = mo[yref as int] as int;
                assert(a < mx);
                assert(b < my);
                assert(a * b <= (mx - 1) * (my - 1)) by (nonlinear_arith)
                    requires
                        0 <= a <= mx - 1,
                        0 <= b <= my - 1,
                ;
            },
        }
        assert forall|z: int| 0 <= z < n implies #[trigger] gate_values(
            c.gates@,
            c.moduli@,
            inputs,
            consts,
            n,
        )[z] < c.moduli@[z] by {
            if z < m {
                assert(gate_values(c.gates@, c.moduli@, inputs, consts, n)[z] == vals[z]);
            }
        }
    }
}

/// A safe circuit can be evaluated on inputs below their moduli, with
/// constants that begin with those it was built with, and every wire then
/// holds a value below its modulus.
pub proof fn lemma_safe_evaluable(c: Circuit, k: Seq<u16>, inputs: Seq<u16>, consts: Seq<u16>)
    requires
        circuit_safe(c, k),
        k.is_prefix_of(consts),
        inputs_in_range(c, inputs),
    ensures
        c.evaluable(inputs, consts),
        forall|z: int| 0 <= z < c.gates.len() ==> #[trigger] c.values(inputs, consts)[z] < c.moduli@[z],
{
    lemma_safe_prefix(c, k, inputs, consts, c.gates.len() as nat);
}

/// Appending a safe gate to a safe circuit keeps it safe.
pub proof fn lemma_safe_append(c1: Circuit, k1: Seq<u16>, c2: Circuit, k2: Seq<u16>, g: Gate, q: u16)
    requires
        circuit_safe(c1, k1),
        appends_gate(c1, c2, g, q),
        c1.input_refs@.is_prefix_of(c2.input_refs@),
        k1.is_prefix_of(k2),
        gate_safe(g, q, c1.gates.len() as int, c2.moduli@, c2.input_refs@, k2),
    ensures
        circuit_safe(c2, k2),
{
    let n1 = c1.gates.len() as int;
    assert forall|z: int| 0 <= z < c2.gates.len() implies gate_safe(
        #[trigger] c2.gates@[z],
        c2.moduli@[z],
        z,
        c2.moduli@,
        c2.input_refs@,
        k2,
    ) by {
        if z < n1 {
            assert(c2.gates@[z] == c1.gates@[z]);
            assert(c2.moduli@[z] == c1.moduli@[z]);
            assert(gate_safe(c1.gates@[z], c1.moduli@[z], z, c1.moduli@, c1.input_refs@, k1));
            assert(forall|x: int| 0 <= x < n1 ==> c2.moduli@[x] == c1.moduli@[x]);
            assert(forall|i: int| 0 <= i < c1.input_refs.len() ==> c2.input_refs@[i] == c1.input_refs@[i]);
            assert(forall|i: int| 0 <= i < k1.len() ==> k2[i] == k1[i]);
        } else {
            assert(z == n1);
        }
    }
}

/// Adding gates to a circuit leaves the values of its wires unchanged.
pub proof fn lemma_values_grow(c1: Circuit, c2: Circuit, inputs: Seq<u16>, consts: Seq<u16>)
    requires
        c1.gates@.is_prefix_of(c2.gates@),
        c1.moduli@.is_prefix_of(c2.moduli@),
        c1.moduli.len() == c1.gates.len(),
    ensures
        c1.values(inputs, consts).len() == c1.gates.len(),
        c2.values(inputs, consts).len() == c2.gates.len(),
        forall|x: int|
            0 <= x < c1.gates.len() ==> #[trigger] c2.values(inputs, consts)[x] == c1.values(
                inputs,
                consts,
            )[x],
{
    let n1 = c1.gates.len() as nat;
    let n2 = c2.gates.len() as nat;
    lemma_gate_values_len(c1.gates@, c1.moduli@, inputs, consts, n1);
    lemma_gate_values_len(c2.gates@, c2.moduli@, inputs, consts, n2);
    assert(c1.gates@.take(n1 as int) == c2.gates@.take(n1 as int));
    assert(c1.moduli@.take(n1 as int) == c2.moduli@.take(n1 as int));
    lemma_gate_values_prefix(c1.gates@, c1.moduli@, c2.gates@, c2.moduli@, inputs, consts, n1);
    lemma_gate_values_take(c2.gates@, c2.moduli@, inputs, consts, n1, n2);
    assert forall|x: int| 0 <= x < n1 implies #[trigger] c2.values(inputs, consts)[x] == c1.values(
        inputs,
        consts,
    )[x] by {
        assert(c2.values(inputs, consts).take(n1 as int)[x] == c2.values(inputs, consts)[x]);
    }
}

/// The value of wire `w` is what its gate computes from the wires before it.
pub proof fn lemma_value_at(c: Circuit, w: int, inputs: Seq<u16>, consts: Seq<u16>)
    requires
        0 <= w < c.gates.len(),
    ensures
        c.values(inputs, consts)[w] == gate_value(
            c.gates[w],
            c.moduli[w],
            inputs,
            consts,
            c.values(inputs, consts).take(w),
        ),
        c.values(inputs, consts).len() == c.gates.len(),
{
    let n = c.gates.len() as nat;
    lemma_gate_values_len(c.gates@, c.moduli@, inputs, consts, n);
    lemma_gate_values_take(c.gates@, c.moduli@, inputs, consts, (w + 1) as nat, n);
    lemma_gate_values_take(c.gates@, c.moduli@, inputs, consts, w as nat, n);
    let vals = c.values(inputs, consts);
    assert(vals.take(w + 1)[w] == vals[w]);
}

/// A residue differs from its number by a multiple of the modulus.
proof fn lemma_mod_minus_self(a: int, q: int)
    requires
        q > 0,
    ensures
        0 <= a % q < q,
        (a % q - a) % q == 0,
{
    vstd::arithmetic::div_mod::lemma_fundamental_div_mod(a, q);
    let k = a / q;
    assert(a % q - a == (-k) * q) by (nonlinear_arith)
        requires
            a == q * k + a % q,
    ;
    vstd::arithmetic::div_mod::lemma_mod_multiples_basic(-k, q);
}

/// The law of circuit evaluation, wire by wire, with the wires evaluated in
/// order and a wire not yet evaluated reading as 0: the value of an input
/// wire is its input, that of a constant wire its constant; an addition,
/// subtraction, constant multiplication or half gate of modulus `q > 0`
/// yields the value below `q` that is congruent modulo `q` to the sum,
/// difference or product of the values of its arguments; a projection or Yao
/// gate yields the entry of its table at the values of its arguments.
pub proof fn lemma_wire_value(c: Circuit, z: int, inputs: Seq<u16>, consts: Seq<u16>)
    requires
        0 <= z < c.gates.len(),
    ensures
        c.values(inputs, consts).len() == c.gates.len(),
        ({
            let v = c.values(inputs, consts);
            let q = c.moduli[z] as int;
            let arg = |x: usize| if (x as int) < z { v[x as int] as int } else { 0int };
            match c.gates[z] {
                Gate::Input { id } => v[z] == inputs[id as int],
                Gate::Const { id } => v[z] == consts[id as int],
                Gate::Add { xref, yref } => q > 0 ==> v[z] < q && (v[z] - (arg(xref) + arg(yref))) % q
                    == 0,
                Gate::Sub { xref, yref } => q > 0 ==> v[z] < q && (v[z] - (arg(xref) - arg(yref))) % q
                    == 0,
                Gate::Cmul { xref, c: k } => q > 0 ==> v[z] < q && (v[z] - arg(xref) * k) % q == 0,
                Gate::Proj { xref, tt, .. } => v[z] == tt@[arg(xref)],
                Gate::Yao { xref, yref, tt, .. } => v[z] == tt@[arg(xref)]@[arg(yref)],
                Gate::HalfGate { xref, yref, .. } => q > 0 ==> v[z] < q && (v[z] - arg(xref) * arg(
                    yref,
                )) % q == 0,
            }
        }),
{
    lemma_value_at(c, z, inputs, consts);
    let v = c.values(inputs, consts);
    let pre = v.take(z);
    let q = c.moduli[z] as int;
    let arg = |x: usize| if (x as int) < z { v[x as int] as int } else { 0int };
    assert forall|x: usize| #[trigger] read(pre, x as int) == arg(x) by {
        if (x as int) < z {
            assert(pre[x as int] == v[x as int]);
        }
    }
    match c.gates[z] {
        Gate::Add { xref, yref } => {
            if q > 0 {
                assert(read(pre, xref as int) == arg(xref));
                assert(read(pre, yref as int) == arg(yref));
                lemma_mod_minus_self(arg(xref) + arg(yref), q);
            }
        },
        Gate::Sub { xref, yref } => {
            if q > 0 {
                assert(read(pre, xref as int) == arg(xref));
                assert(read(pre, yref as int) == arg(yref));
                let a = arg(xref) + q - arg(yref);
                lemma_mod_minus_self(a, q);
                let t = a % q - a;
                assert(v[z] - (arg(xref) - arg(yref)) == q + t);
                vstd::arithmetic::div_mod::lemma_mod_add_multiples_vanish(t, q);
            }
        },
        Gate::Cmul { xref, c: k } => {
            if q > 0 {
                assert(read(pre, xref as int) == arg(xref));
                lemma_mod_minus_self(arg(xref) * k, q);
            }
        },
        Gate::Proj { xref, tt, .. } => {
            assert(read(pre, xref as int) == arg(xref));
        },
        Gate::Yao { xref, yref, tt, .. } => {
            assert(read(pre, xref as int) == arg(xref));
            assert(read(pre, yref as int) == arg(yref));
        },
        Gate::HalfGate { xref, yref, .. } => {
            if q > 0 {
                assert(read(pre, xref as int) == arg(xref));
                assert(read(pre, yref as int) == arg(yref));
                lemma_mod_minus_self(arg(xref) * arg(yref), q);
            }
        },
        _ => {},
    }
}

/// The outputs of a circuit are the values of its output wires, in order.
pub proof fn lemma_outputs_are_output_wires(c: Circuit, inputs: Seq<u16>, consts: Seq<u16>)
    ensures
        c.outputs(inputs, consts).len() == c.output_refs.len(),
        forall|i: int|
            0 <= i < c.output_refs.len() ==> #[trigger] c.outputs(inputs, consts)[i] == c.values(
                inputs,
                consts,
            )[c.output_refs[i] as int],
{
}

/// Appending a gate leaves the values of the earlier wires unchanged and
/// gives the new wire the value its gate computes from them.
pub proof fn lemma_values_append(
    c1: Circuit,
    c2: Circuit,
    g: Gate,
    q: u16,
    inputs: Seq<u16>,
    consts: Seq<u16>,
)
    requires
        appends_gate(c1, c2, g, q),
        c1.moduli.len() == c1.gates.len(),
    ensures
        c2.values(inputs, consts) == c1.values(inputs, consts).push(
            gate_value(g, q, inputs, consts, c1.values(inputs, consts)),
        ),
{
    let n1 = c1.gates.len() as nat;
    assert(c1.gates@ == c2.gates@.take(n1 as int));
    assert(c1.moduli@ == c2.moduli@.take(n1 as int));
    assert(c1.gates@.take(n1 as int) == c2.gates@.take(n1 as int));
    assert(c1.moduli@.take(n1 as int) == c2.moduli@.take(n1 as int));
    lemma_gate_values_prefix(c1.gates@, c1.moduli@, c2.gates@, c2.moduli@, inputs, consts, n1);
    assert(c2.gates@[n1 as int] == g);
    assert(c2.moduli@[n1 as int] == q);
}

/// `sum_{i < n} vals[refs[i]]`: the sum of the values of the first `n` wires
/// of `refs`.
pub open spec fn sum_wires(vals: Seq<u16>, refs: Seq<Ref>, n: nat) -> int
    decreases n,
{
    if n == 0 {
        0
    } else {
        sum_wires(vals, refs, (n - 1) as nat) + vals[refs[n - 1] as int]
    }
}

/// The wires `refs` all carry a bit.
pub open spec fn all_bits(vals: Seq<u16>, refs: Seq<Ref>) -> bool {
    forall|i: int| 0 <= i < refs.len() ==> #[trigger] vals[refs[i] as int] <= 1
}

/// The conjunction of the bits on the wires `refs`.
pub open spec fn and_of(vals: Seq<u16>, refs: Seq<Ref>) -> u16 {
    if forall|i: int| 0 <= i < refs.len() ==> #[trigger] vals[refs[i] as int] == 1 {
        1
    } else {
        0
    }
}

/// The disjunction of the bits on the wires `refs`.
pub open spec fn or_of(vals: Seq<u16>, refs: Seq<Ref>) -> u16 {
    if forall|i: int| 0 <= i < refs.len() ==> #[trigger] vals[refs[i] as int] == 0 {
        0
    } else {
        1
    }
}

/// A sum of `n` bits is at most `n`; it is `n` exactly when all bits are
/// set, and 0 exactly when none is.
proof fn lemma_sum_bits(vals: Seq<u16>, refs: Seq<Ref>, n: nat)
    requires
        n <= refs.len(),
        forall|i: int| 0 <= i < n ==> #[trigger] vals[refs[i] as int] <= 1,
    ensures
        0 <= sum_wires(vals, refs, n) <= n,
        (sum_wires(vals, refs, n) == n) == (forall|i: int| 0 <= i < n ==> #[trigger] vals[refs[i] as int] == 1),
        (sum_wires(vals, refs, n) == 0) == (forall|i: int| 0 <= i < n ==> #[trigger] vals[refs[i] as int] == 0),
    decreases n,
{
    if n > 0 {
        lemma_sum_bits(vals, refs, (n - 1) as nat);
        if sum_wires(vals, refs, n) == n {
            assert forall|i: int| 0 <= i < n implies #[trigger] vals[refs[i] as int] == 1 by {
                if i < n - 1 {
                    assert(sum_wires(vals, refs, (n - 1) as nat) == n - 1);
                }
            }
        }
        if sum_wires(vals, refs, n) == 0 {
            assert forall|i: int| 0 <= i < n implies #[trigger] vals[refs[i] as int] == 0 by {
                if i < n - 1 {
                    assert(sum_wires(vals, refs, (n - 1) as nat) == 0);
                }
            }
        }
        if forall|i: int| 0 <= i < n ==> #[trigger] vals[refs[i] as int] == 1 {
            assert(vals[refs[n - 1] as int] == 1);
        }
        if forall|i: int| 0 <= i < n ==> #[trigger] vals[refs[i] as int] == 0 {
            assert(vals[refs[n - 1] as int] == 0);
        }
    }
}

/// Reducing the first summand first does not change a sum modulo `q`.
proof fn lemma_mod_add_left(s: int, v: int, q: int)
    requires
        q > 0,
    ensures
        ((s % q) + v) % q == (s + v) % q,
{
    vstd::arithmetic::div_mod::lemma_add_mod_noop(s, v, q);
    vstd::arithmetic::div_mod::lemma_add_mod_noop(s % q, v, q);
    vstd::arithmetic::div_mod::lemma_mod_twice(s, q);
}

/// The key under which the constant `val` of modulus `q` is remembered.
pub open spec fn const_key(val: u16, q: u16) -> u32 {
    (val as int * 0x10000 + q as int) as u32
}

fn make_const_key(val: u16, q: u16) -> (r: u32)
    ensures
        r == const_key(val, q),
        r == val as int * 0x10000 + q as int,
{
    (val as u32) * 0x10000 + (q as u32)
}

/// Distinct (value, modulus) pairs have distinct keys.
proof fn lemma_const_key_injective(v1: u16, q1: u16, v2: u16, q2: u16)
    requires
        const_key(v1, q1) == const_key(v2, q2),
    ensures
        v1 == v2,
        q1 == q2,
{
    assert(v1 as int * 0x10000 + q1 as int <= u32::MAX);
    assert(v2 as int * 0x10000 + q2 as int <= u32::MAX);
}

/// The table `x -> x mod to` for `x < from`.
pub open spec fn mod_table(from: u16, to: u16) -> Seq<u16> {
    Seq::new(from as nat, |x: int| (x % to as int) as u16)
}

/// Circuit `later` is `earlier` with a projection of wire `xref` through the
/// table `tt` onto a wire of modulus `q` appended, as ciphertext gate `id`.
pub open spec fn appends_proj(earlier: Circuit, later: Circuit, xref: Ref, tt: Seq<u16>, id: nat, q: u16) -> bool {
    &&& later.gates.len() == earlier.gates.len() + 1
    &&& later.gates@.drop_last() == earlier.gates@
    &&& later.gates@.last() matches Gate::Proj { xref: x, tt: t, id: i } && x == xref && t@ == tt
        && i == id
    &&& later.moduli@ == earlier.moduli@.push(q)
    &&& later.input_refs@ == earlier.input_refs@
    &&& later.output_refs@ == earlier.output_refs@
}

/// `grows` is transitive.
pub proof fn lemma_grows_trans(
    a: Circuit,
    ka: Seq<u16>,
    b: Circuit,
    kb: Seq<u16>,
    c: Circuit,
    kc: Seq<u16>,
)
    requires
        grows(a, ka, b, kb),
        grows(b, kb, c, kc),
    ensures
        grows(a, ka, c, kc),
{
    assert(a.gates@ == c.gates@.take(a.gates.len() as int)) by {
        assert(a.gates@ == b.gates@.take(a.gates.len() as int));
        assert(b.gates@ == c.gates@.take(b.gates.len() as int));
        assert(c.gates@.take(b.gates.len() as int).take(a.gates.len() as int) == c.gates@.take(a.gates.len() as int));
    }
    assert(a.moduli@ == c.moduli@.take(a.moduli.len() as int)) by {
        assert(a.moduli@ == b.moduli@.take(a.moduli.len() as int));
        assert(b.moduli@ == c.moduli@.take(b.moduli.len() as int));
        assert(c.moduli@.take(b.moduli.len() as int).take(a.moduli.len() as int) == c.moduli@.take(a.moduli.len() as int));
    }
    assert(ka == kc.take(ka.len() as int)) by {
        assert(ka == kb.take(ka.len() as int));
        assert(kb == kc.take(kb.len() as int));
        assert(kc.take(kb.len() as int).take(ka.len() as int) == kc.take(ka.len() as int));
    }
}

/// The wires of a circuit keep their gates and moduli as it grows.
pub proof fn lemma_grows_index(a: Circuit, ka: Seq<u16>, b: Circuit, kb: Seq<u16>, x: int)
    requires
        grows(a, ka, b, kb),
    ensures
        0 <= x < a.moduli.len() ==> b.moduli[x] == a.moduli[x],
        0 <= x < a.gates.len() ==> b.gates[x] == a.gates[x],
        a.gates.len() <= b.gates.len(),
        a.moduli.len() <= b.moduli.len(),
{
    if 0 <= x < a.moduli.len() {
        assert(b.moduli@.subrange(0, a.moduli.len() as int)[x] == b.moduli@[x]);
    }
    if 0 <= x < a.gates.len() {
        assert(b.gates@.subrange(0, a.gates.len() as int)[x] == b.gates@[x]);
    }
}

/// Appending a gate grows a circuit.
pub proof fn lemma_appends_grows(a: Circuit, b: Circuit, g: Gate, q: u16, k: Seq<u16>)
    requires
        appends(a, b, g, q),
    ensures
        grows(a, k, b, k),
{
    assert(a.gates@ == b.gates@.take(a.gates.len() as int));
    assert(a.moduli@ == b.moduli@.take(a.moduli.len() as int));
    assert(k == k.take(k.len() as int));
}

/// Appending a projection grows a circuit.
pub proof fn lemma_appends_proj_grows(a: Circuit, b: Circuit, x: Ref, tt: Seq<u16>, id: nat, q: u16, k: Seq<u16>)
    requires
        appends_proj(a, b, x, tt, id, q),
    ensures
        grows(a, k, b, k),
        appends(a, b, b.gates@.last(), q),
{
    assert(b.gates@ == b.gates@.drop_last().push(b.gates@.last()));
    lemma_appends_grows(a, b, b.gates@.last(), q, k);
}

/// Growing and then appending a gate still grows.
pub proof fn lemma_grows_append(c0: Circuit, k: Seq<u16>, before: Circuit, after: Circuit, q: u16)
    requires
        grows(c0, k, before, k),
        appends(before, after, after.gates@.last(), q),
    ensures
        grows(c0, k, after, k),
{
    lemma_appends_grows(before, after, after.gates@.last(), q, k);
    lemma_grows_trans(c0, k, before, k, after, k);
}

/// Digits of modulus `q` can be added by `adder` into a circuit that stays
/// safe: they are bits, or `4 q` fits 16 bits with room for two more.
pub open spec fn adder_safe(q: u16) -> bool {
    q == 2 || (0 < q && 4 * q <= u16::MAX + 2)
}

/// Whether `adder` can add two digits of modulus `q`, with a carry in when
/// `has_carry`, producing a carry out of modulus `cm` without an overflow or a
/// table entry out of range.
pub open spec fn adder_ok(q: u16, has_carry: bool, cm: u16) -> bool {
    if q == 2 {
        cm > 0
    } else {
        let qp: int = if has_carry {
            2 * q
        } else {
            2 * q - 1
        };
        &&& 2 * q <= u16::MAX
        &&& qp >= 0
        &&& (qp > q ==> cm > 1)
        &&& (qp > 0 ==> cm > 0)
    }
}

/// Where the carry out of digit `i` goes: to digit `i + 1`, or, for the last
/// digit, out of the adder with the modulus of that digit.
pub open spec fn carry_index(i: int, n: int) -> int {
    if i + 1 < n {
        i + 1
    } else {
        i
    }
}

/// The law of a digit adder for digits of modulus `q >= 2`: for digits `x`
/// and `y` below `q` and a carry in of 0 or 1, the sum digit `s` is below `q`,
/// the carry out `c` is a bit, and `s + q c = x + y + carry in`.  `v` holds the
/// values before the adder was built, `w` those after.
pub open spec fn adder_correct(
    v: Seq<u16>,
    w: Seq<u16>,
    q: u16,
    x: Ref,
    y: Ref,
    opt_c: Option<Ref>,
    r: (Ref, Ref),
) -> bool {
    let cin: int = match opt_c {
        Some(c) => v[c as int] as int,
        None => 0,
    };
    (q >= 2 && v[x as int] < q && v[y as int] < q && 0 <= cin <= 1) ==> {
        &&& w[r.0 as int] < q
        &&& w[r.1 as int] <= 1
        &&& w[r.0 as int] + q * w[r.1 as int] == v[x as int] + v[y as int] + cin
    }
}

/// The full adder of xor and and gates on bits.
proof fn lemma_full_adder_bits(x: int, y: int, c: int)
    by (nonlinear_arith)
    requires
        0 <= x <= 1,
        0 <= y <= 1,
        0 <= c <= 1,
    ensures
        ({
            let z1 = (x + y) % 2;
            let z2 = (z1 + c) % 2;
            let z3 = (x + c) % 2;
            let z4 = (z1 * z3) % 2;
            let carry = (z4 + x) % 2;
            &&& 0 <= z2 <= 1
            &&& 0 <= carry <= 1
            &&& z2 + 2 * carry == x + y + c
        }),
{
}

/// The binary digit adder with a carry in: five gates `z1 = x + y`,
/// `z2 = z1 + c`, `z3 = x + c`, `z4 = z1 z3` and `carry = z4 + x`, all modulo 2.
proof fn lemma_adder_binary_carry(
    c0: Circuit,
    s1: Circuit,
    s2: Circuit,
    s3: Circuit,
    s4: Circuit,
    s5: Circuit,
    g4: Gate,
    x: Ref,
    y: Ref,
    c: Ref,
    z2: Ref,
    carry: Ref,
)
    requires
        z2 == s1.gates.len(),
        carry == s4.gates.len(),
        c0.moduli.len() == c0.gates.len(),
        x < c0.gates.len(),
        y < c0.gates.len(),
        c < c0.gates.len(),
        appends(c0, s1, Gate::Add { xref: x, yref: y }, 2),
        appends(s1, s2, Gate::Add { xref: c0.gates.len() as usize, yref: c }, 2),
        appends(s2, s3, Gate::Add { xref: x, yref: c }, 2),
        appends(s3, s4, g4, 2),
        g4 matches Gate::HalfGate { xref, yref, .. } && xref == c0.gates.len() && yref == s2.gates.len(),
        appends(s4, s5, Gate::Add { xref: s3.gates.len() as usize, yref: x }, 2),
    ensures
        forall|inputs: Seq<u16>, consts: Seq<u16>|
            #[trigger] adder_correct(
                c0.values(inputs, consts),
                s5.values(inputs, consts),
                2,
                x,
                y,
                Some(c),
                (z2, carry),
            ),
        forall|inputs: Seq<u16>, consts: Seq<u16>|
            #[trigger] s5.values(inputs, consts).len() == s5.gates.len(),
{
    assert forall|inputs: Seq<u16>, consts: Seq<u16>|
        #[trigger] adder_correct(
            c0.values(inputs, consts),
            s5.values(inputs, consts),
            2,
            x,
            y,
            Some(c),
            (z2, carry),
        ) by {
        let v0 = c0.values(inputs, consts);
        lemma_values_grow(c0, c0, inputs, consts);
        lemma_values_append(c0, s1, Gate::Add { xref: x, yref: y }, 2, inputs, consts);
        lemma_values_append(s1, s2, Gate::Add { xref: c0.gates.len() as usize, yref: c }, 2, inputs, consts);
        lemma_values_append(s2, s3, Gate::Add { xref: x, yref: c }, 2, inputs, consts);
        lemma_values_append(s3, s4, g4, 2, inputs, consts);
        lemma_values_append(s4, s5, Gate::Add { xref: s3.gates.len() as usize, yref: x }, 2, inputs, consts);
        let v1 = s1.values(inputs, consts);
        let v2 = s2.values(inputs, consts);
        let v3 = s3.values(inputs, consts);
        let v4 = s4.values(inputs, consts);
        let v5 = s5.values(inputs, consts);
        let n = c0.gates.len() as int;
        if v0[x as int] <= 1 && v0[y as int] <= 1 && v0[c as int] <= 1 {
            let vx = v0[x as int] as int;
            let vy = v0[y as int] as int;
            let vc = v0[c as int] as int;
            assert(v1[n] == (vx + vy) % 2);
            assert(v2[n + 1] == ((v1[n] + vc) % 2));
            assert(v3[n + 2] == ((vx + vc) % 2));
            assert(v4[n + 3] == ((v3[n] * v3[n + 2]) % 2));
            assert(v5[n + 4] == ((v4[n + 3] + vx) % 2));
            assert(v5[n + 1] == v2[n + 1]);
            lemma_full_adder_bits(vx, vy, vc);
        }
    }
    assert forall|inputs: Seq<u16>, consts: Seq<u16>|
        #[trigger] s5.values(inputs, consts).len() == s5.gates.len() by {
        lemma_values_grow(s5, s5, inputs, consts);
    }
}

/// The binary digit adder without a carry in: `z = x + y` and
/// `carry = x y`, both modulo 2.
proof fn lemma_adder_binary_plain(
    c0: Circuit,
    s1: Circuit,
    s2: Circuit,
    g2: Gate,
    x: Ref,
    y: Ref,
    z: Ref,
    carry: Ref,
)
    requires
        z == c0.gates.len(),
        carry == s1.gates.len(),
        c0.moduli.len() == c0.gates.len(),
        x < c0.gates.len(),
        y < c0.gates.len(),
        appends(c0, s1, Gate::Add { xref: x, yref: y }, 2),
        appends(s1, s2, g2, 2),
        g2 matches Gate::HalfGate { xref, yref, .. } && xref == x && yref == y,
    ensures
        forall|inputs: Seq<u16>, consts: Seq<u16>|
            #[trigger] adder_correct(
                c0.values(inputs, consts),
                s2.values(inputs, consts),
                2,
                x,
                y,
                None,
                (z, carry),
            ),
{
    assert forall|inputs: Seq<u16>, consts: Seq<u16>|
        #[trigger] adder_correct(
            c0.values(inputs, consts),
            s2.values(inputs, consts),
            2,
            x,
            y,
            None,
            (z, carry),
        ) by {
        let v0 = c0.values(inputs, consts);
        lemma_values_grow(c0, c0, inputs, consts);
        lemma_values_append(c0, s1, Gate::Add { xref: x, yref: y }, 2, inputs, consts);
        lemma_values_append(s1, s2, g2, 2, inputs, consts);
        let n = c0.gates.len() as int;
        if v0[x as int] <= 1 && v0[y as int] <= 1 {
            let vx = v0[x as int] as int;
            let vy = v0[y as int] as int;
            assert(s2.values(inputs, consts)[n] == (vx + vy) % 2);
            assert(s2.values(inputs, consts)[n + 1] == (vx * vy) % 2);
            assert((vx + vy) % 2 + 2 * ((vx * vy) % 2) == vx + vy) by (nonlinear_arith)
                requires
                    0 <= vx <= 1,
                    0 <= vy <= 1,
            ;
        }
    }
}

/// Carrying the carry bit of a binary digit adder over to another modulus of
/// at least 2 keeps the adder's law.
proof fn lemma_adder_carry_moved(
    c0: Circuit,
    s5: Circuit,
    cf: Circuit,
    x: Ref,
    y: Ref,
    opt_c: Option<Ref>,
    z: Ref,
    carry4: Ref,
    carry: Ref,
    cm: u16,
)
    requires
        cm >= 2,
        s5.moduli.len() == s5.gates.len(),
        c0.moduli.len() == c0.gates.len(),
        c0.gates@.is_prefix_of(s5.gates@),
        c0.moduli@.is_prefix_of(s5.moduli@),
        s5.gates@.is_prefix_of(cf.gates@),
        s5.moduli@.is_prefix_of(cf.moduli@),
        z < s5.gates.len(),
        carry4 < s5.gates.len(),
        s5.moduli[carry4 as int] == 2,
        forall|inputs: Seq<u16>, consts: Seq<u16>|
            #[trigger] adder_correct(
                c0.values(inputs, consts),
                s5.values(inputs, consts),
                2,
                x,
                y,
                opt_c,
                (z, carry4),
            ),
        forall|inputs: Seq<u16>, consts: Seq<u16>|
            s5.values(inputs, consts)[carry4 as int] < s5.moduli[carry4 as int]
                ==> #[trigger] cf.values(inputs, consts)[carry as int] == s5.values(inputs, consts)[carry4 as int] % cm,
    ensures
        forall|inputs: Seq<u16>, consts: Seq<u16>|
            #[trigger] adder_correct(
                c0.values(inputs, consts),
                cf.values(inputs, consts),
                2,
                x,
                y,
                opt_c,
                (z, carry),
            ),
{
    assert forall|inputs: Seq<u16>, consts: Seq<u16>|
        #[trigger] adder_correct(
            c0.values(inputs, consts),
            cf.values(inputs, consts),
            2,
            x,
            y,
            opt_c,
            (z, carry),
        ) by {
        let v0 = c0.values(inputs, consts);
        let v5 = s5.values(inputs, consts);
        assert(adder_correct(v0, v5, 2, x, y, opt_c, (z, carry4)));
        lemma_values_grow(s5, cf, inputs, consts);
        let cin: int = match opt_c {
            Some(c) => v0[c as int] as int,
            None => 0,
        };
        if v0[x as int] < 2 && v0[y as int] < 2 && 0 <= cin <= 1 {
            assert(cf.values(inputs, consts)[carry as int] == v5[carry4 as int] % cm);
            vstd::arithmetic::div_mod::lemma_small_mod(v5[carry4 as int] as nat, cm as nat);
        }
    }
}

/// `prod_{k < i} q_k` for the digit moduli `q_k = moduli[xs[k]]`: the weight
/// of digit `i` in a mixed-radix number.
pub open spec fn radix_weight(moduli: Seq<u16>, xs: Seq<Ref>, i: nat) -> int
    decreases i,
{
    if i == 0 {
        1
    } else {
        radix_weight(moduli, xs, (i - 1) as nat) * moduli[xs[i - 1] as int]
    }
}

/// `sum_{k < n} vals[refs[k]] * radix_weight(k)`: the number whose first `n`
/// digits are the values of the wires `refs`, with the digit moduli of `xs`.
pub open spec fn digits_value(
    vals: Seq<u16>,
    refs: Seq<Ref>,
    moduli: Seq<u16>,
    xs: Seq<Ref>,
    n: nat,
) -> int
    decreases n,
{
    if n == 0 {
        0
    } else {
        digits_value(vals, refs, moduli, xs, (n - 1) as nat) + vals[refs[n - 1] as int]
            * radix_weight(moduli, xs, (n - 1) as nat)
    }
}

/// The first `n` digits of `xs` and `ys` have a modulus of at least 2 and
/// values below it.
pub open spec fn digits_in_range(
    vals: Seq<u16>,
    moduli: Seq<u16>,
    xs: Seq<Ref>,
    ys: Seq<Ref>,
    n: nat,
) -> bool {
    forall|k: int|
        0 <= k < n ==> 2 <= #[trigger] moduli[xs[k] as int] && vals[xs[k] as int] < moduli[xs[k] as int]
            && vals[ys[k] as int] < moduli[xs[k] as int]
}

/// The law of ripple-carry addition after `i` digits: the sum digits `bs` and
/// the carry `c` (a bit) stand for the sum of the numbers with digits `xs` and
/// `ys`, and each sum digit is below its modulus.  `v0` holds the values of
/// the wires of the addends, `v` those of the sum.
pub open spec fn addition_partial(
    v0: Seq<u16>,
    v: Seq<u16>,
    moduli: Seq<u16>,
    xs: Seq<Ref>,
    ys: Seq<Ref>,
    bs: Seq<Ref>,
    c: Ref,
    i: nat,
) -> bool {
    &&& digits_value(v, bs, moduli, xs, i) + v[c as int] * radix_weight(moduli, xs, i)
        == digits_value(v0, xs, moduli, xs, i) + digits_value(v0, ys, moduli, xs, i)
    &&& v[c as int] <= 1
    &&& forall|k: int| 0 <= k < i ==> #[trigger] v[bs[k] as int] < moduli[xs[k] as int]
}

/// A single digit has its own value.
proof fn lemma_digits_value_one(vals: Seq<u16>, refs: Seq<Ref>, moduli: Seq<u16>, xs: Seq<Ref>)
    ensures
        digits_value(vals, refs, moduli, xs, 1) == vals[refs[0] as int],
{
    assert(digits_value(vals, refs, moduli, xs, 0) == 0);
    assert(radix_weight(moduli, xs, 0) == 1);
    let d = vals[refs[0] as int] as int;
    assert(d * 1 == d) by (nonlinear_arith);
}

/// `digits_value` depends on the values of the digit wires only.
proof fn lemma_digits_value_congruent(
    v1: Seq<u16>,
    v2: Seq<u16>,
    refs1: Seq<Ref>,
    refs2: Seq<Ref>,
    moduli: Seq<u16>,
    xs: Seq<Ref>,
    n: nat,
)
    requires
        forall|k: int| 0 <= k < n ==> v1[#[trigger] refs1[k] as int] == v2[refs2[k] as int],
    ensures
        digits_value(v1, refs1, moduli, xs, n) == digits_value(v2, refs2, moduli, xs, n),
    decreases n,
{
    if n > 0 {
        lemma_digits_value_congruent(v1, v2, refs1, refs2, moduli, xs, (n - 1) as nat);
        assert(v1[refs1[n - 1] as int] == v2[refs2[n - 1] as int]);
    }
}

/// The first digit of ripple-carry addition satisfies its law.
proof fn lemma_addition_first(
    v0: Seq<u16>,
    vn: Seq<u16>,
    moduli: Seq<u16>,
    xs: Seq<Ref>,
    ys: Seq<Ref>,
    z: Ref,
    c2: Ref,
)
    requires
        xs.len() >= 1,
        ys.len() >= 1,
        vn[z as int] < moduli[xs[0] as int],
        vn[c2 as int] <= 1,
        vn[z as int] + moduli[xs[0] as int] * vn[c2 as int] == v0[xs[0] as int] + v0[ys[0] as int],
    ensures
        addition_partial(v0, vn, moduli, xs, ys, seq![z], c2, 1),
{
    assert(radix_weight(moduli, xs, 0) == 1);
    assert(radix_weight(moduli, xs, 1) == moduli[xs[0] as int]);
    assert(seq![z][0] == z);
    assert(digits_value(vn, seq![z], moduli, xs, 0) == 0);
    assert(digits_value(v0, xs, moduli, xs, 0) == 0);
    assert(digits_value(v0, ys, moduli, xs, 0) == 0);
    assert(vn[c2 as int] * moduli[xs[0] as int] == moduli[xs[0] as int] * vn[c2 as int]) by (nonlinear_arith);
}

/// One more digit of ripple-carry addition keeps its law.
proof fn lemma_addition_step(
    v0: Seq<u16>,
    vc: Seq<u16>,
    vn: Seq<u16>,
    moduli: Seq<u16>,
    xs: Seq<Ref>,
    ys: Seq<Ref>,
    bs: Seq<Ref>,
    c: Ref,
    z: Ref,
    c2: Ref,
    i: nat,
)
    requires
        i < xs.len(),
        i < ys.len(),
        bs.len() == i,
        addition_partial(v0, vc, moduli, xs, ys, bs, c, i),
        forall|k: int| 0 <= k < i ==> #[trigger] vn[bs[k] as int] == vc[bs[k] as int],
        vc[xs[i as int] as int] == v0[xs[i as int] as int],
        vc[ys[i as int] as int] == v0[ys[i as int] as int],
        vn[z as int] < moduli[xs[i as int] as int],
        vn[c2 as int] <= 1,
        vn[z as int] + moduli[xs[i as int] as int] * vn[c2 as int] == vc[xs[i as int] as int]
            + vc[ys[i as int] as int] + vc[c as int],
    ensures
        addition_partial(v0, vn, moduli, xs, ys, bs.push(z), c2, i + 1),
{
    let bs2 = bs.push(z);
    assert forall|k: int| 0 <= k < i implies vn[#[trigger] bs2[k] as int] == vc[bs[k] as int] by {
        assert(bs2[k] == bs[k]);
    }
    lemma_digits_value_congruent(vn, vc, bs2, bs, moduli, xs, i);
    let w = radix_weight(moduli, xs, i);
    let q = moduli[xs[i as int] as int] as int;
    let dz = vn[z as int] as int;
    let dc = vn[c2 as int] as int;
    let cin = vc[c as int] as int;
    let x = v0[xs[i as int] as int] as int;
    let y = v0[ys[i as int] as int] as int;
    assert(bs2[i as int] == z);
    assert(radix_weight(moduli, xs, i + 1) == w * q);
    assert(dz * w + dc * (w * q) == x * w + y * w + cin * w) by (nonlinear_arith)
        requires
            dz + q * dc == x + y + cin,
    ;
    assert forall|k: int| 0 <= k < i + 1 implies #[trigger] vn[bs2[k] as int] < moduli[xs[k] as int] by {
        if k < i {
            assert(bs2[k] == bs[k]);
            assert(vc[bs[k] as int] < moduli[xs[k] as int]);
        }
    }
    assert(digits_value(vn, bs2, moduli, xs, i + 1) + dc * radix_weight(moduli, xs, i + 1)
        == digits_value(vc, bs, moduli, xs, i) + dz * w + dc * (w * q));
}

/// A number whose digits are below their moduli (of at least 1) is below the
/// weight of the next digit, which is positive.
proof fn lemma_digits_value_bound(v: Seq<u16>, refs: Seq<Ref>, moduli: Seq<u16>, xs: Seq<Ref>, i: nat)
    requires
        forall|k: int| 0 <= k < i ==> #[trigger] v[refs[k] as int] < moduli[xs[k] as int],
    ensures
        0 <= digits_value(v, refs, moduli, xs, i) < radix_weight(moduli, xs, i),
        radix_weight(moduli, xs, i) >= 1,
    decreases i,
{
    if i > 0 {
        lemma_digits_value_bound(v, refs, moduli, xs, (i - 1) as nat);
        let w = radix_weight(moduli, xs, (i - 1) as nat);
        let d = v[refs[i - 1] as int] as int;
        let q = moduli[xs[i - 1] as int] as int;
        let a = digits_value(v, refs, moduli, xs, (i - 1) as nat);
        assert(d < q);
        assert(a + d * w < w * q) by (nonlinear_arith)
            requires
                0 <= a < w,
                0 <= d < q,
                w >= 1,
        ;
        assert(w * q >= 1) by (nonlinear_arith)
            requires
                w >= 1,
                q >= 1,
        ;
        assert(0 <= d * w) by (nonlinear_arith)
            requires
                0 <= d,
                w >= 1,
        ;
    }
}

/// The last digit of addition without a carry out: the sum digits stand for
/// the sum of the addends modulo the product of the digit moduli.
proof fn lemma_addition_last(
    v0: Seq<u16>,
    vc: Seq<u16>,
    vn: Seq<u16>,
    moduli: Seq<u16>,
    xs: Seq<Ref>,
    ys: Seq<Ref>,
    bs: Seq<Ref>,
    c: Ref,
    z: Ref,
    n: nat,
)
    requires
        1 <= n <= xs.len(),
        n <= ys.len(),
        bs.len() == n - 1,
        addition_partial(v0, vc, moduli, xs, ys, bs, c, (n - 1) as nat),
        forall|k: int| 0 <= k < n - 1 ==> #[trigger] vn[bs[k] as int] == vc[bs[k] as int],
        vc[xs[n - 1] as int] == v0[xs[n - 1] as int],
        vc[ys[n - 1] as int] == v0[ys[n - 1] as int],
        2 <= moduli[xs[n - 1] as int],
        vn[z as int] == (vc[xs[n - 1] as int] + vc[ys[n - 1] as int] + vc[c as int]) % (moduli[xs[n
            - 1] as int] as int),
    ensures
        digits_value(vn, bs.push(z), moduli, xs, n) == (digits_value(v0, xs, moduli, xs, n)
            + digits_value(v0, ys, moduli, xs, n)) % radix_weight(moduli, xs, n),
{
    let m = (n - 1) as nat;
    let bs2 = bs.push(z);
    assert forall|k: int| 0 <= k < m implies vn[#[trigger] bs2[k] as int] == vc[bs[k] as int] by {
        assert(bs2[k] == bs[k]);
    }
    lemma_digits_value_congruent(vn, vc, bs2, bs, moduli, xs, m);
    lemma_digits_value_bound(vc, bs, moduli, xs, m);
    let a = digits_value(vc, bs, moduli, xs, m);
    let w = radix_weight(moduli, xs, m);
    let q = moduli[xs[n - 1] as int] as int;
    let x = v0[xs[n - 1] as int] as int;
    let y = v0[ys[n - 1] as int] as int;
    let cin = vc[c as int] as int;
    let t = x + y + cin;
    let sdig = t % q;
    let quo = t / q;
    vstd::arithmetic::div_mod::lemma_fundamental_div_mod(t, q);
    assert(bs2[m as int] == z);
    assert(vn[z as int] == sdig);
    assert(0 <= sdig < q);
    assert(radix_weight(moduli, xs, n) == w * q);
    assert(a + sdig * w < w * q) by (nonlinear_arith)
        requires
            0 <= a < w,
            0 <= sdig < q,
            w >= 1,
    ;
    assert(0 <= a + sdig * w) by (nonlinear_arith)
        requires
            0 <= a,
            0 <= sdig,
            w >= 1,
    ;
    assert(a + t * w == a + sdig * w + quo * (w * q)) by (nonlinear_arith)
        requires
            t == q * quo + sdig,
    ;
    vstd::arithmetic::div_mod::lemma_fundamental_div_mod_converse(a + t * w, w * q, quo, a + sdig * w);
    assert(digits_value(v0, xs, moduli, xs, n) + digits_value(v0, ys, moduli, xs, n)
        == digits_value(v0, xs, moduli, xs, m) + digits_value(v0, ys, moduli, xs, m) + (x + y) * w) by {
        assert((x + y) * w == x * w + y * w) by (nonlinear_arith);
    }
    assert(a + cin * w + (x + y) * w == a + t * w) by (nonlinear_arith)
        requires
            t == x + y + cin,
    ;
}

/// `sum_{k < n} vals[refs[k]] * 2^k`: the number whose first `n` bits, least
/// significant first, are the values of the wires `refs`.
pub open spec fn bits_value(vals: Seq<u16>, refs: Seq<Ref>, n: nat) -> int
    decreases n,
{
    if n == 0 {
        0
    } else {
        bits_value(vals, refs, (n - 1) as nat) + vals[refs[n - 1] as int] * pow2((n - 1) as nat)
    }
}

/// With binary digits, the radix weight of `n` digits is `2^n` and
/// `digits_value` is `bits_value`.
proof fn lemma_binary_digits(vals: Seq<u16>, refs: Seq<Ref>, moduli: Seq<u16>, xs: Seq<Ref>, n: nat)
    requires
        forall|k: int| 0 <= k < n ==> moduli[#[trigger] xs[k] as int] == 2,
    ensures
        radix_weight(moduli, xs, n) == pow2(n),
        digits_value(vals, refs, moduli, xs, n) == bits_value(vals, refs, n),
    decreases n,
{
    lemma2_to64();
    if n > 0 {
        let m = (n - 1) as nat;
        lemma_binary_digits(vals, refs, moduli, xs, m);
        lemma_pow2_unfold(n);
        assert(moduli[xs[m as int] as int] == 2);
        assert(radix_weight(moduli, xs, n) == pow2(m) * 2);
    }
}

/// `bits_value` depends on the values of the bit wires only.
proof fn lemma_bits_value_congruent(v1: Seq<u16>, refs1: Seq<Ref>, v2: Seq<u16>, refs2: Seq<Ref>, n: nat)
    requires
        forall|k: int| 0 <= k < n ==> v1[#[trigger] refs1[k] as int] == v2[refs2[k] as int],
    ensures
        bits_value(v1, refs1, n) == bits_value(v2, refs2, n),
    decreases n,
{
    if n > 0 {
        lemma_bits_value_congruent(v1, refs1, v2, refs2, (n - 1) as nat);
        assert(v1[refs1[n - 1] as int] == v2[refs2[n - 1] as int]);
    }
}

/// `n` bits stand for a number below `2^n`.
proof fn lemma_bits_value_bound(v: Seq<u16>, refs: Seq<Ref>, n: nat)
    requires
        forall|k: int| 0 <= k < n ==> v[#[trigger] refs[k] as int] <= 1,
    ensures
        0 <= bits_value(v, refs, n) < pow2(n),
    decreases n,
{
    lemma2_to64();
    if n > 0 {
        let m = (n - 1) as nat;
        lemma_bits_value_bound(v, refs, m);
        lemma_pow2_unfold(n);
        let b = v[refs[m as int] as int] as int;
        let p = pow2(m) as int;
        assert(0 <= b <= 1);
        assert(0 <= b * p <= p) by (nonlinear_arith)
            requires
                0 <= b <= 1,
                p >= 0,
        ;
    }
}

/// Complementing each of `n` bits takes their number `b` to `2^n - 1 - b`.
proof fn lemma_bits_complement(v0: Seq<u16>, xs: Seq<Ref>, v1: Seq<u16>, ys: Seq<Ref>, n: nat)
    requires
        forall|k: int| 0 <= k < n ==> v0[#[trigger] xs[k] as int] <= 1 && v1[ys[k] as int] == 1 - v0[xs[k] as int],
    ensures
        bits_value(v1, ys, n) == pow2(n) - 1 - bits_value(v0, xs, n),
    decreases n,
{
    lemma2_to64();
    if n > 0 {
        let m = (n - 1) as nat;
        lemma_bits_complement(v0, xs, v1, ys, m);
        lemma_pow2_unfold(n);
        let b = v0[xs[m as int] as int] as int;
        assert(b <= 1);
        assert(v1[ys[m as int] as int] == 1 - b);
        let p = pow2(m) as int;
        assert((1 - b) * p == p - b * p) by (nonlinear_arith);
    }
}

/// Bits with a 1 first and 0s after it stand for 1.
proof fn lemma_bits_one(v: Seq<u16>, refs: Seq<Ref>, n: nat)
    requires
        n >= 1,
        v[refs[0] as int] == 1,
        forall|k: int| 1 <= k < n ==> v[#[trigger] refs[k] as int] == 0,
    ensures
        bits_value(v, refs, n) == 1,
    decreases n,
{
    lemma2_to64();
    if n == 1 {
        assert(bits_value(v, refs, 0) == 0);
    } else {
        let m = (n - 1) as nat;
        lemma_bits_one(v, refs, m);
        assert(v[refs[m as int] as int] == 0);
        assert(0 * pow2(m) == 0);
    }
}

/// A constant wire stays one as its circuit grows.
proof fn lemma_const_wire_grows(c: Circuit, k: Seq<u16>, c2: Circuit, k2: Seq<u16>, r: int, val: u16, q: u16)
    requires
        is_const_wire(c, k, r, val, q),
        grows(c, k, c2, k2),
    ensures
        is_const_wire(c2, k2, r, val, q),
{
    lemma_grows_index(c, k, c2, k2, r);
    if let Gate::Const { id } = c.gates[r] {
        assert(k2.subrange(0, k.len() as int)[id as int] == k2[id as int]);
    }
}

/// A constant wire carries its value whenever the constants the circuit is
/// evaluated with begin with those it was built with.
proof fn lemma_const_wire_value(c: Circuit, k: Seq<u16>, r: int, val: u16, q: u16, inputs: Seq<u16>, consts: Seq<u16>)
    requires
        is_const_wire(c, k, r, val, q),
        k.is_prefix_of(consts),
    ensures
        c.values(inputs, consts)[r] == val,
{
    lemma_value_at(c, r, inputs, consts);
    if let Gate::Const { id } = c.gates[r] {
        assert(consts.subrange(0, k.len() as int)[id as int] == consts[id as int]);
    }
}

/// Wire `w` of `c` negates bit wire `x`: a projection through the table `[1, 0]`.
pub open spec fn is_negation_wire(c: Circuit, w: int, x: Ref) -> bool {
    &&& 0 <= w < c.gates.len()
    &&& c.gates[w] matches Gate::Proj { xref, tt, .. } && xref == x && tt@ == seq![1u16, 0u16]
}

/// A negation wire of an earlier bit wire carries the complement of that bit.
proof fn lemma_negation_wire_value(c: Circuit, w: int, x: Ref, inputs: Seq<u16>, consts: Seq<u16>)
    requires
        is_negation_wire(c, w, x),
        x < w,
        c.values(inputs, consts)[x as int] <= 1,
    ensures
        c.values(inputs, consts)[w] == 1 - c.values(inputs, consts)[x as int],
{
    lemma_value_at(c, w, inputs, consts);
    let vals = c.values(inputs, consts);
    assert(vals.take(w)[x as int] == vals[x as int]);
}

/// The bit that binary subtraction of `y` from `x` reports: 1 exactly when
/// `y` exceeds `x`.
pub open spec fn borrow_bit(x: int, y: int) -> u16 {
    if x < y {
        1
    } else {
        0
    }
}

/// `n` bits stand for 0 exactly when all of them are 0.
proof fn lemma_bits_value_zero(v: Seq<u16>, refs: Seq<Ref>, n: nat)
    requires
        forall|k: int| 0 <= k < n ==> v[#[trigger] refs[k] as int] <= 1,
    ensures
        (bits_value(v, refs, n) == 0) == (forall|k: int| 0 <= k < n ==> v[#[trigger] refs[k] as int] == 0),
    decreases n,
{
    if n > 0 {
        let m = (n - 1) as nat;
        lemma_bits_value_zero(v, refs, m);
        lemma_bits_value_bound(v, refs, m);
        vstd::arithmetic::power2::lemma_pow2_pos(m);
        let b = v[refs[m as int] as int] as int;
        let p = pow2(m) as int;
        assert(b <= 1);
        assert(b * p == 0 <==> b == 0) by (nonlinear_arith)
            requires
                0 <= b <= 1,
                p > 0,
        ;
        assert(b * p >= 0) by (nonlinear_arith)
            requires
                0 <= b <= 1,
                p > 0,
        ;
        if bits_value(v, refs, n) == 0 {
            assert forall|k: int| 0 <= k < n implies v[#[trigger] refs[k] as int] == 0 by {
                if k < m {
                    assert(bits_value(v, refs, m) == 0);
                }
            }
        }
    }
}

/// The arithmetic of subtraction by adding the two's complement `t` of `y`:
/// the sum `x + t` splits into the low bits `z` and the carry `cv`.
proof fn lemma_subtraction_arith(x: int, y: int, p: int, t: int, z: int, cv: int)
    requires
        p >= 1,
        0 <= x < p,
        0 <= y < p,
        t == (p - y) % p,
        0 <= z < p,
        0 <= cv <= 1,
        z + cv * p == x + t,
    ensures
        z == (x - y) % p,
        1 - cv == (if x < y || y == 0 {
            1int
        } else {
            0int
        }),
{
    if y == 0 {
        vstd::arithmetic::div_mod::lemma_fundamental_div_mod_converse(p, p, 1, 0);
        assert(t == 0);
        if cv == 1 {
            assert(z == x - p);
        }
        assert(cv == 0);
        vstd::arithmetic::div_mod::lemma_fundamental_div_mod_converse(x, p, 0, x);
    } else {
        vstd::arithmetic::div_mod::lemma_fundamental_div_mod_converse(p - y, p, 0, p - y);
        assert(t == p - y);
        if x >= y {
            if cv == 0 {
                assert(z == x - y + p);
            }
            assert(cv == 1);
            vstd::arithmetic::div_mod::lemma_fundamental_div_mod_converse(x - y, p, 0, x - y);
        } else {
            if cv == 1 {
                assert(z == x - y);
            }
            assert(cv == 0);
            vstd::arithmetic::div_mod::lemma_fundamental_div_mod_converse(x - y, p, -1, x - y + p);
        }
    }
}

/// A circuit grows into itself.
pub proof fn lemma_grows_refl(a: Circuit, k: Seq<u16>)
    ensures
        grows(a, k, a, k),
{
    assert(a.gates@ == a.gates@.take(a.gates.len() as int));
    assert(a.moduli@ == a.moduli@.take(a.moduli.len() as int));
    assert(k == k.take(k.len() as int));
}


/// A well-formed builder has one modulus per gate, and input `i` is the input
/// gate of wire `input_refs[i]`.
pub proof fn lemma_builder_lengths(b: Builder)
    requires
        b.wf(),
    ensures
        b.circuit().moduli.len() == b.circuit().gates.len(),
        b.circuit().input_refs.len() <= b.circuit().gates.len(),
        forall|i: int|
            0 <= i < b.circuit().input_refs.len() ==> #[trigger] b.circuit().input_refs[i]
                < b.circuit().gates.len() && b.circuit().gates[b.circuit().input_refs[i] as int]
                == (Gate::Input { id: i as usize }),
{
}

/// A builder for circuits: it hands out wire references, numbers inputs,
/// constants and ciphertext gates, and creates each constant only once.
pub struct Builder {
    next_ref: Ref,
    next_input_id: Id,
    next_ciphertext_id: Id,
    const_vals: Vec<u16>,
    const_map: HashMap<u32, Ref>,
    pub circ: Circuit,
}

/// Circuit `later`, with constant values `later_consts`, holds all gates,
/// moduli and constants of `earlier` and possibly more after them, with the
/// same inputs and outputs.
pub open spec fn grows(
    earlier: Circuit,
    earlier_consts: Seq<u16>,
    later: Circuit,
    later_consts: Seq<u16>,
) -> bool {
    &&& earlier.gates@.is_prefix_of(later.gates@)
    &&& earlier.moduli@.is_prefix_of(later.moduli@)
    &&& later.input_refs@ == earlier.input_refs@
    &&& later.output_refs@ == earlier.output_refs@
    &&& earlier_consts.is_prefix_of(later_consts)
}

/// Circuit `later` is `earlier` with gate `g` of modulus `q` appended;
/// its inputs may differ.
pub open spec fn appends_gate(earlier: Circuit, later: Circuit, g: Gate, q: u16) -> bool {
    &&& later.gates@ == earlier.gates@.push(g)
    &&& later.moduli@ == earlier.moduli@.push(q)
    &&& later.output_refs@ == earlier.output_refs@
}

/// Circuit `later` is `earlier` with gate `g` of modulus `q` appended.
pub open spec fn appends(earlier: Circuit, later: Circuit, g: Gate, q: u16) -> bool {
    &&& appends_gate(earlier, later, g, q)
    &&& later.input_refs@ == earlier.input_refs@
}

/// Whether wire `r` of `c` is the constant `val` of modulus `q`, with the
/// values of the constants given by `consts`.
pub open spec fn is_const_wire(c: Circuit, consts: Seq<u16>, r: int, val: u16, q: u16) -> bool {
    &&& 0 <= r < c.gates.len()
    &&& r < c.moduli.len()
    &&& c.moduli[r] == q
    &&& c.gates[r] matches Gate::Const { id } && id < consts.len() && consts[id as int] == val
}

impl Builder {
    /// The circuit built so far.
    pub closed spec fn circuit(&self) -> Circuit {
        self.circ
    }

    /// The values of the constants created so far, by constant id.
    pub closed spec fn consts(&self) -> Seq<u16> {
        self.const_vals@
    }

    /// The number of ciphertext-producing gates (projections, Yao gates and
    /// half gates) created so far; the next one gets this number as its id.
    pub closed spec fn num_ciphertexts(&self) -> nat {
        self.next_ciphertext_id as nat
    }

    /// The wire already made for the constant `val` of modulus `q`, if any.
    pub closed spec fn cached_const(&self, val: u16, q: u16) -> Option<Ref> {
        if self.const_map@.contains_key(const_key(val, q)) {
            Some(self.const_map@[const_key(val, q)])
        } else {
            None
        }
    }

    /// The builder's invariant: one modulus per gate, inputs numbered in order
    /// with `input_refs[i]` the wire of input `i`, every constant gate naming
    /// a stored constant, and the table of constants pointing at constant
    /// wires of the recorded value and modulus.
    pub closed spec fn wf(&self) -> bool {
        let g = self.circ.gates@;
        &&& g.len() == self.next_ref
        &&& self.circ.moduli.len() == self.next_ref
        &&& self.next_input_id == self.circ.input_refs.len()
        &&& self.next_input_id <= self.next_ref
        &&& self.next_ciphertext_id <= self.next_ref
        &&& forall|i: int|
            0 <= i < self.circ.input_refs.len() ==> #[trigger] self.circ.input_refs[i]
                < self.next_ref && g[self.circ.input_refs[i] as int] == (Gate::Input {
                id: i as usize,
            })
        &&& forall|z: int|
            0 <= z < g.len() && #[trigger] g[z] is Input ==> g[z]->Input_id
                < self.circ.input_refs.len() && self.circ.input_refs[g[z]->Input_id as int] == z
        &&& forall|z: int|
            0 <= z < g.len() && #[trigger] g[z] is Const ==> g[z]->Const_id < self.const_vals.len()
        &&& forall|k: u32|
            #[trigger] self.const_map@.contains_key(k) ==> exists|val: u16, q: u16|
                k == const_key(val, q) && is_const_wire(
                    self.circ,
                    self.const_vals@,
                    self.const_map@[k] as int,
                    val,
                    q,
                )
    }

    /// An empty builder.
    pub fn new() -> (r: Self)
        ensures
            r.wf(),
            r.circuit().gates@ == Seq::<Gate>::empty(),
            r.circuit().moduli@ == Seq::<u16>::empty(),
            r.circuit().input_refs@ == Seq::<Ref>::empty(),
            r.circuit().output_refs@ == Seq::<Ref>::empty(),
            r.consts() == Seq::<u16>::empty(),
            r.num_ciphertexts() == 0,
            circuit_safe(r.circuit(), r.consts()),
    {
        let c = Circuit {
            gates: Vec::new(),
            input_refs: Vec::new(),
            output_refs: Vec::new(),
            moduli: Vec::new(),
        };
        let r = Builder {
            next_ref: 0,
            next_input_id: 0,
            next_ciphertext_id: 0,
            const_vals: Vec::new(),
            const_map: HashMap::new(),
            circ: c,
        };
        assert(r.const_map@ == Map::<u32, Ref>::empty());
        r
    }

    /// The circuit built so far.
    pub fn finish(self) -> (r: Circuit)
        ensures
            r == self.circuit(),
    {
        self.circ
    }

    /// The circuit built so far and the values of its constants.
    pub fn finish_full(self) -> (r: (Circuit, Vec<u16>))
        ensures
            r.0 == self.circuit(),
            r.1@ == self.consts(),
    {
        (self.circ, self.const_vals)
    }

    /// The circuit built so far.
    pub fn borrow_circ(&self) -> (r: &Circuit)
        ensures
            *r == self.circuit(),
    {
        &self.circ
    }

    /// The values of the constants created so far.
    pub fn borrow_consts(&self) -> (r: &[u16])
        ensures
            r@ == self.consts(),
    {
        self.const_vals.as_slice()
    }

    /// The modulus of wire `x`.
    pub fn modulus(&self, x: Ref) -> (r: u16)
        requires
            x < self.circuit().moduli.len(),
        ensures
            r == self.circuit().moduli[x as int],
    {
        self.circ.moduli[x]
    }

    /// Appending a safe gate, with the inputs and constants kept, keeps the
    /// circuit safe.
    proof fn lemma_safe_step(old_b: Builder, new_b: Builder, g: Gate, q: u16)
        requires
            circuit_safe(old_b.circ, old_b.const_vals@),
            new_b.circ.gates@ == old_b.circ.gates@.push(g),
            new_b.circ.moduli@ == old_b.circ.moduli@.push(q),
            new_b.circ.input_refs == old_b.circ.input_refs,
            new_b.circ.output_refs == old_b.circ.output_refs,
            new_b.const_vals == old_b.const_vals,
            gate_safe(
                g,
                q,
                old_b.circ.gates.len() as int,
                new_b.circ.moduli@,
                new_b.circ.input_refs@,
                new_b.const_vals@,
            ),
        ensures
            circuit_safe(new_b.circ, new_b.const_vals@),
    {
        let k = old_b.const_vals@;
        assert(k.subrange(0, k.len() as int) =~= k);
        let ir = old_b.circ.input_refs@;
        assert(ir.subrange(0, ir.len() as int) =~= ir);
        lemma_safe_append(old_b.circ, k, new_b.circ, k, g, q);
    }

    /// Appending a gate that is neither an input nor a constant keeps the invariant.
    proof fn lemma_wf_append(old_b: Builder, new_b: Builder, g: Gate, q: u16)
        requires
            old_b.wf(),
            !(g is Input),
            !(g is Const),
            new_b.circ.gates@ == old_b.circ.gates@.push(g),
            new_b.circ.moduli@ == old_b.circ.moduli@.push(q),
            new_b.circ.input_refs == old_b.circ.input_refs,
            new_b.next_ref == old_b.next_ref + 1,
            new_b.next_input_id == old_b.next_input_id,
            new_b.next_ciphertext_id <= old_b.next_ciphertext_id + 1,
            new_b.const_vals == old_b.const_vals,
            new_b.const_map == old_b.const_map,
        ensures
            new_b.wf(),
    {
        let g1 = new_b.circ.gates@;
        assert forall|z: int| 0 <= z < g1.len() && #[trigger] g1[z] is Input implies g1[z]->Input_id
            < new_b.circ.input_refs.len() && new_b.circ.input_refs[g1[z]->Input_id as int] == z by {
            assert(z < old_b.circ.gates.len());
            assert(g1[z] == old_b.circ.gates@[z]);
        }
        assert forall|z: int| 0 <= z < g1.len() && #[trigger] g1[z] is Const implies g1[z]->Const_id
            < new_b.const_vals.len() by {
            assert(z < old_b.circ.gates.len());
            assert(g1[z] == old_b.circ.gates@[z]);
        }
        assert forall|k: u32| #[trigger] new_b.const_map@.contains_key(k) implies exists|
            val: u16,
            q: u16,
        |
            k == const_key(val, q) && is_const_wire(
                new_b.circ,
                new_b.const_vals@,
                new_b.const_map@[k] as int,
                val,
                q,
            ) by {
            let (val, q) = choose|val: u16, q: u16|
                k == const_key(val, q) && is_const_wire(
                    old_b.circ,
                    old_b.const_vals@,
                    old_b.const_map@[k] as int,
                    val,
                    q,
                );
            let r = old_b.const_map@[k] as int;
            assert(g1[r] == old_b.circ.gates@[r]);
            assert(new_b.circ.moduli@[r] == old_b.circ.moduli@[r]);
            assert(is_const_wire(new_b.circ, new_b.const_vals@, r, val, q));
        }
    }

    /// Adds an input of the given modulus.
    pub fn input(&mut self, modulus: u16) -> (r: Ref)
        requires
            old(self).wf(),
            old(self).circuit().gates.len() < usize::MAX,
        ensures
            final(self).wf(),
            r == old(self).circuit().gates.len(),
            appends_gate(
                old(self).circuit(),
                final(self).circuit(),
                Gate::Input { id: old(self).circuit().input_refs.len() },
                modulus,
            ),
            final(self).circuit().input_refs@ == old(self).circuit().input_refs@.push(r),
            final(self).consts() == old(self).consts(),
            final(self).num_ciphertexts() == old(self).num_ciphertexts(),
            circuit_safe(old(self).circuit(), old(self).consts()) ==> circuit_safe(final(self).circuit(), final(self).consts()),
    {
        let ghost old_b = *self;
        let id = self.get_next_input_id();
        let gate = Gate::Input { id };
        let r = self.gate(gate, modulus);
        self.circ.input_refs.push(r);
        proof {
            let g1 = self.circ.gates@;
            assert forall|i: int| 0 <= i < self.circ.input_refs.len() implies #[trigger] self.circ.input_refs[i]
                < self.next_ref && g1[self.circ.input_refs[i] as int] == (Gate::Input {
                id: i as usize,
            }) by {
                if i < old_b.circ.input_refs.len() {
                    assert(self.circ.input_refs[i] == old_b.circ.input_refs[i]);
                }
            }
            assert forall|z: int| 0 <= z < g1.len() && #[trigger] g1[z] is Input implies g1[z]->Input_id
                < self.circ.input_refs.len() && self.circ.input_refs[g1[z]->Input_id as int] == z by {
                if z < old_b.circ.gates.len() {
                    assert(g1[z] == old_b.circ.gates@[z]);
                }
            }
            assert forall|z: int| 0 <= z < g1.len() && #[trigger] g1[z] is Const implies g1[z]->Const_id
                < self.const_vals.len() by {
                assert(z < old_b.circ.gates.len());
                assert(g1[z] == old_b.circ.gates@[z]);
            }
            assert forall|k: u32| #[trigger] self.const_map@.contains_key(k) implies exists|
                val: u16,
                q: u16,
            |
                k == const_key(val, q) && is_const_wire(
                    self.circ,
                    self.const_vals@,
                    self.const_map@[k] as int,
                    val,
                    q,
                ) by {
                let (val, q) = choose|val: u16, q: u16|
                    k == const_key(val, q) && is_const_wire(
                        old_b.circ,
                        old_b.const_vals@,
                        old_b.const_map@[k] as int,
                        val,
                        q,
                    );
                let rr = old_b.const_map@[k] as int;
                assert(g1[rr] == old_b.circ.gates@[rr]);
                assert(self.circ.moduli@[rr] == old_b.circ.moduli@[rr]);
                assert(is_const_wire(self.circ, self.const_vals@, rr, val, q));
            }
            if circuit_safe(old_b.circ, old_b.const_vals@) {
                let k = old_b.const_vals@;
                assert(k.subrange(0, k.len() as int) =~= k);
                assert(old_b.circ.input_refs@.is_prefix_of(self.circ.input_refs@)) by {
                    assert(self.circ.input_refs@.subrange(0, old_b.circ.input_refs.len() as int)
                        =~= old_b.circ.input_refs@);
                }
                lemma_safe_append(old_b.circ, k, self.circ, k, Gate::Input { id }, modulus);
            }
        }
        r
    }

    /// Adds `n` inputs of the given modulus.
    pub fn inputs(&mut self, n: usize, modulus: u16) -> (r: Vec<Ref>)
        requires
            old(self).wf(),
            old(self).circuit().gates.len() + n <= usize::MAX,
        ensures
            final(self).wf(),
            r.len() == n,
            forall|i: int| 0 <= i < n ==> r[i] == old(self).circuit().gates.len() + i,
            final(self).circuit().gates.len() == old(self).circuit().gates.len() + n,
            old(self).circuit().gates@.is_prefix_of(final(self).circuit().gates@),
            old(self).circuit().moduli@.is_prefix_of(final(self).circuit().moduli@),
            forall|i: int|
                0 <= i < n ==> final(self).circuit().gates[#[trigger] r[i] as int] == (Gate::Input {
                    id: (old(self).circuit().input_refs.len() + i) as usize,
                }) && final(self).circuit().moduli[r[i] as int] == modulus,
            final(self).circuit().input_refs@ == old(self).circuit().input_refs@ + r@,
            final(self).circuit().output_refs@ == old(self).circuit().output_refs@,
            final(self).circuit().moduli@ == old(self).circuit().moduli@ + Seq::new(n as nat, |k: int| modulus),
            final(self).consts() == old(self).consts(),
            final(self).num_ciphertexts() == old(self).num_ciphertexts(),
            circuit_safe(old(self).circuit(), old(self).consts()) ==> circuit_safe(final(self).circuit(), final(self).consts()),
    {
        let ghost old_c = self.circuit();
        let mut r: Vec<Ref> = Vec::new();
        let mut i: usize = 0;
        while i < n
            invariant
                self.wf(),
                i <= n,
                old_c.gates.len() + n <= usize::MAX,
                r.len() == i,
                forall|j: int| 0 <= j < i ==> r[j] == old_c.gates.len() + j,
                self.circuit().gates.len() == old_c.gates.len() + i,
                old_c.gates@.is_prefix_of(self.circuit().gates@),
                old_c.moduli@.is_prefix_of(self.circuit().moduli@),
                forall|j: int|
                    0 <= j < i ==> self.circuit().gates[#[trigger] r[j] as int] == (Gate::Input {
                        id: (old_c.input_refs.len() + j) as usize,
                    }) && self.circuit().moduli[r[j] as int] == modulus,
                self.circuit().input_refs@ == old_c.input_refs@ + r@,
                self.circuit().output_refs@ == old_c.output_refs@,
                self.circuit().moduli@ == old_c.moduli@ + Seq::new(i as nat, |k: int| modulus),
                circuit_safe(old_c, old(self).consts()) ==> circuit_safe(self.circuit(), self.consts()),
                self.consts() == old(self).consts(),
                self.num_ciphertexts() == old(self).num_ciphertexts(),
            decreases n - i,
        {
            let ghost before = self.circuit();
            let x = self.input(modulus);
            r.push(x);
            i += 1;
            proof {
                assert(before.gates@.is_prefix_of(self.circuit().gates@));
                assert(before.moduli@.is_prefix_of(self.circuit().moduli@));
                assert forall|j: int| 0 <= j < i implies self.circuit().gates[#[trigger] r[j] as int]
                    == (Gate::Input { id: (old_c.input_refs.len() + j) as usize })
                    && self.circuit().moduli[r[j] as int] == modulus by {
                    if j < i - 1 {
                        assert(self.circuit().gates[r[j] as int] == before.gates[r[j] as int]);
                        assert(self.circuit().moduli[r[j] as int] == before.moduli[r[j] as int]);
                    }
                }
                assert(self.circuit().input_refs@ == old_c.input_refs@ + r@);
                assert(self.circuit().moduli@ == old_c.moduli@ + Seq::new(i as nat, |k: int| modulus));
            }
        }
        r
    }

    /// The wire of the constant `val` with modulus `q`, creating it the first
    /// time that this pair is asked for.
    pub fn constant(&mut self, val: u16, q: u16) -> (r: Ref)
        requires
            old(self).wf(),
            old(self).circuit().gates.len() < usize::MAX,
        ensures
            final(self).wf(),
            grows(old(self).circuit(), old(self).consts(), final(self).circuit(), final(self).consts()),
            final(self).circuit().gates.len() <= old(self).circuit().gates.len() + 1,
            final(self).consts().len() <= old(self).consts().len() + 1,
            final(self).num_ciphertexts() == old(self).num_ciphertexts(),
            is_const_wire(final(self).circuit(), final(self).consts(), r as int, val, q),
            final(self).cached_const(val, q) == Some(r),
            forall|v2: u16, q2: u16|
                !(v2 == val && q2 == q) ==> #[trigger] final(self).cached_const(v2, q2) == old(
                    self,
                ).cached_const(v2, q2),
            old(self).cached_const(val, q) matches Some(w) ==> r == w && final(self).circuit()
                == old(self).circuit() && final(self).consts() == old(self).consts(),
            old(self).cached_const(val, q) is None ==> r == old(self).circuit().gates.len()
                && final(self).consts() == old(self).consts().push(val) && appends(
                old(self).circuit(),
                final(self).circuit(),
                Gate::Const { id: old(self).consts().len() as usize },
                q,
            ),
            circuit_safe(old(self).circuit(), old(self).consts()) && val < q ==> circuit_safe(final(self).circuit(), final(self).consts()),
    {
        broadcast use vstd::std_specs::hash::group_hash_axioms;
        let ghost old_b = *self;
        let key = make_const_key(val, q);
        let found: Option<Ref> = match self.const_map.get(&key) {
            Some(r) => Some(*r),
            None => None,
        };
        match found {
            Some(r) => {
                proof {
                    let (v2, q2) = choose|v2: u16, q2: u16|
                        key == const_key(v2, q2) && is_const_wire(
                            self.circ,
                            self.const_vals@,
                            self.const_map@[key] as int,
                            v2,
                            q2,
                        );
                    lemma_const_key_injective(val, q, v2, q2);
                    assert(self.consts().is_prefix_of(self.consts()));
                    assert(self.circ.gates@.is_prefix_of(self.circ.gates@));
                    assert(self.circ.moduli@.is_prefix_of(self.circ.moduli@));
                }
                r
            },
            None => {
                let id = self.const_vals.len();
                self.const_vals.push(val);
                let gate = Gate::Const { id };
                let r = self.gate(gate, q);
                self.const_map.insert(key, r);
                proof {
                    let g1 = self.circ.gates@;
                    assert(old_b.const_vals@.is_prefix_of(self.const_vals@));
                    assert(old_b.circ.gates@.is_prefix_of(g1));
                    assert(old_b.circ.moduli@.is_prefix_of(self.circ.moduli@));
                    assert forall|z: int| 0 <= z < g1.len() && #[trigger] g1[z] is Input implies g1[z]->Input_id
                        < self.circ.input_refs.len() && self.circ.input_refs[g1[z]->Input_id as int] == z by {
                        assert(z < old_b.circ.gates.len());
                        assert(g1[z] == old_b.circ.gates@[z]);
                    }
                    assert forall|z: int| 0 <= z < g1.len() && #[trigger] g1[z] is Const implies g1[z]->Const_id
                        < self.const_vals.len() by {
                        if z < old_b.circ.gates.len() {
                            assert(g1[z] == old_b.circ.gates@[z]);
                        }
                    }
                    assert(is_const_wire(self.circ, self.const_vals@, r as int, val, q));
                    if circuit_safe(old_b.circ, old_b.const_vals@) && val < q {
                        let ir = old_b.circ.input_refs@;
                        assert(ir.subrange(0, ir.len() as int) =~= ir);
                        lemma_safe_append(old_b.circ, old_b.const_vals@, self.circ, self.const_vals@, Gate::Const { id }, q);
                    }
                    assert forall|v2: u16, q2: u16| !(v2 == val && q2 == q) implies #[trigger] self.cached_const(
                        v2,
                        q2,
                    ) == old_b.cached_const(v2, q2) by {
                        if const_key(v2, q2) == key {
                            lemma_const_key_injective(val, q, v2, q2);
                        }
                    }
                    assert forall|k: u32| #[trigger] self.const_map@.contains_key(k) implies exists|
                        v2: u16,
                        q2: u16,
                    |
                        k == const_key(v2, q2) && is_const_wire(
                            self.circ,
                            self.const_vals@,
                            self.const_map@[k] as int,
                            v2,
                            q2,
                        ) by {
                        if k == key {
                            assert(is_const_wire(self.circ, self.const_vals@, self.const_map@[k] as int, val, q));
                        } else {
                            assert(old_b.const_map@.contains_key(k));
                            let (v2, q2) = choose|v2: u16, q2: u16|
                                k == const_key(v2, q2) && is_const_wire(
                                    old_b.circ,
                                    old_b.const_vals@,
                                    old_b.const_map@[k] as int,
                                    v2,
                                    q2,
                                );
                            let rr = old_b.const_map@[k] as int;
                            assert(g1[rr] == old_b.circ.gates@[rr]);
                            assert(self.circ.moduli@[rr] == old_b.circ.moduli@[rr]);
                            assert(is_const_wire(self.circ, self.const_vals@, rr, v2, q2));
                        }
                    }
                }
                r
            },
        }
    }

    /// Marks wire `xref` as the next output.
    pub fn output(&mut self, xref: Ref)
        requires
            old(self).wf(),
        ensures
            final(self).wf(),
            final(self).circuit().gates == old(self).circuit().gates,
            final(self).circuit().moduli == old(self).circuit().moduli,
            final(self).circuit().input_refs == old(self).circuit().input_refs,
            final(self).circuit().output_refs@ == old(self).circuit().output_refs@.push(xref),
            final(self).consts() == old(self).consts(),
            final(self).num_ciphertexts() == old(self).num_ciphertexts(),
            circuit_safe(old(self).circuit(), old(self).consts()) && xref < old(self).circuit().gates.len() ==> circuit_safe(final(self).circuit(), final(self).consts()),
    {
        let ghost c0 = self.circuit();
        self.circ.output_refs.push(xref);
        proof {
            if circuit_safe(c0, self.consts()) && xref < c0.gates.len() {
                assert forall|i: int| 0 <= i < self.circ.output_refs.len() implies #[trigger] self.circ.output_refs[i]
                    < self.circ.gates.len() by {
                    if i < c0.output_refs.len() {
                        assert(self.circ.output_refs[i] == c0.output_refs[i]);
                    }
                }
                assert forall|z: int| 0 <= z < self.circ.gates.len() implies gate_safe(
                    #[trigger] self.circ.gates@[z],
                    self.circ.moduli@[z],
                    z,
                    self.circ.moduli@,
                    self.circ.input_refs@,
                    self.consts(),
                ) by {
                    assert(gate_safe(c0.gates@[z], c0.moduli@[z], z, c0.moduli@, c0.input_refs@, self.consts()));
                }
            }
        }
    }

    /// Marks the wires `xs`, in order, as the next outputs.
    pub fn outputs(&mut self, xs: &[Ref])
        requires
            old(self).wf(),
        ensures
            final(self).wf(),
            final(self).circuit().gates == old(self).circuit().gates,
            final(self).circuit().moduli == old(self).circuit().moduli,
            final(self).circuit().input_refs == old(self).circuit().input_refs,
            final(self).circuit().output_refs@ == old(self).circuit().output_refs@ + xs@,
            final(self).consts() == old(self).consts(),
            final(self).num_ciphertexts() == old(self).num_ciphertexts(),
            circuit_safe(old(self).circuit(), old(self).consts()) && (forall|i: int| 0 <= i < xs.len() ==> #[trigger] xs[i] < old(self).circuit().gates.len()) ==> circuit_safe(final(self).circuit(), final(self).consts()),
    {
        let mut i: usize = 0;
        while i < xs.len()
            invariant
                self.wf(),
                i <= xs.len(),
                self.circuit().gates == old(self).circuit().gates,
                self.circuit().moduli == old(self).circuit().moduli,
                self.circuit().input_refs == old(self).circuit().input_refs,
                self.circuit().output_refs@ == old(self).circuit().output_refs@ + xs@.take(i as int),
                circuit_safe(old(self).circuit(), old(self).consts()) && (forall|j: int|
                    0 <= j < xs.len() ==> #[trigger] xs[j] < old(self).circuit().gates.len())
                    ==> circuit_safe(self.circuit(), self.consts()),
                self.consts() == old(self).consts(),
                self.num_ciphertexts() == old(self).num_ciphertexts(),
            decreases xs.len() - i,
        {
            self.output(xs[i]);
            i += 1;
            assert(xs@.take(i as int) == xs@.take(i - 1).push(xs@[i - 1]));
        }
        assert(xs@.take(i as int) == xs@);
    }

    /// The wire `x + y`; both wires must exist and share their modulus.
    pub fn add(&mut self, xref: Ref, yref: Ref) -> (r: Ref)
        requires
            old(self).wf(),
            old(self).circuit().gates.len() < usize::MAX,
            xref < old(self).circuit().gates.len(),
            yref < old(self).circuit().gates.len(),
            old(self).circuit().moduli[xref as int] == old(self).circuit().moduli[yref as int],
        ensures
            final(self).wf(),
            r == old(self).circuit().gates.len(),
            appends(
                old(self).circuit(),
                final(self).circuit(),
                Gate::Add { xref, yref },
                old(self).circuit().moduli[xref as int],
            ),
            final(self).consts() == old(self).consts(),
            final(self).num_ciphertexts() == old(self).num_ciphertexts(),
            circuit_safe(old(self).circuit(), old(self).consts()) && 0 < old(self).circuit().moduli[xref as int] && old(self).circuit().moduli[xref as int]
                + old(self).circuit().moduli[yref as int] <= u16::MAX + 2 ==> circuit_safe(final(self).circuit(), final(self).consts()),
    {
        let ghost old_b = *self;
        let xmod = self.circ.moduli[xref];
        let ymod = self.circ.moduli[yref];
        let gate = Gate::Add { xref, yref };
        let r = self.gate(gate, xmod);
        proof {
            Self::lemma_wf_append(old_b, *self, Gate::Add { xref, yref }, xmod);
            if circuit_safe(old_b.circ, old_b.const_vals@) && 0 < xmod && xmod + ymod <= u16::MAX + 2 {
                Self::lemma_safe_step(old_b, *self, Gate::Add { xref, yref }, xmod);
            }
        }
        r
    }

    /// The wire `x - y`; both wires must exist and share their modulus.
    pub fn sub(&mut self, xref: Ref, yref: Ref) -> (r: Ref)
        requires
            old(self).wf(),
            old(self).circuit().gates.len() < usize::MAX,
            xref < old(self).circuit().gates.len(),
            yref < old(self).circuit().gates.len(),
            old(self).circuit().moduli[xref as int] == old(self).circuit().moduli[yref as int],
        ensures
            final(self).wf(),
            r == old(self).circuit().gates.len(),
            appends(
                old(self).circuit(),
                final(self).circuit(),
                Gate::Sub { xref, yref },
                old(self).circuit().moduli[xref as int],
            ),
            final(self).consts() == old(self).consts(),
            final(self).num_ciphertexts() == old(self).num_ciphertexts(),
            circuit_safe(old(self).circuit(), old(self).consts()) && 0 < old(self).circuit().moduli[xref as int] && 2 * old(self).circuit().moduli[xref as int]
                <= u16::MAX + 1 ==> circuit_safe(final(self).circuit(), final(self).consts()),
    {
        let ghost old_b = *self;
        let xmod = self.circ.moduli[xref];
        let ymod = self.circ.moduli[yref];
        let gate = Gate::Sub { xref, yref };
        let r = self.gate(gate, xmod);
        proof {
            Self::lemma_wf_append(old_b, *self, Gate::Sub { xref, yref }, xmod);
            if circuit_safe(old_b.circ, old_b.const_vals@) && 0 < xmod && 2 * xmod <= u16::MAX + 1 {
                Self::lemma_safe_step(old_b, *self, Gate::Sub { xref, yref }, xmod);
            }
        }
        r
    }

    /// The wire `c * x`.
    pub fn cmul(&mut self, xref: Ref, c: u16) -> (r: Ref)
        requires
            old(self).wf(),
            old(self).circuit().gates.len() < usize::MAX,
            xref < old(self).circuit().gates.len(),
        ensures
            final(self).wf(),
            r == old(self).circuit().gates.len(),
            appends(
                old(self).circuit(),
                final(self).circuit(),
                Gate::Cmul { xref, c },
                old(self).circuit().moduli[xref as int],
            ),
            final(self).consts() == old(self).consts(),
            final(self).num_ciphertexts() == old(self).num_ciphertexts(),
            circuit_safe(old(self).circuit(), old(self).consts()) && 0 < old(self).circuit().moduli[xref as int] && (old(self).circuit().moduli[xref as int] - 1) * c
                <= u16::MAX ==> circuit_safe(final(self).circuit(), final(self).consts()),
    {
        let ghost old_b = *self;
        let modulus = self.circ.moduli[xref];
        let r = self.gate(Gate::Cmul { xref, c }, modulus);
        proof {
            Self::lemma_wf_append(old_b, *self, Gate::Cmul { xref, c }, modulus);
            if circuit_safe(old_b.circ, old_b.const_vals@) && 0 < modulus && (modulus - 1) * c <= u16::MAX {
                Self::lemma_safe_step(old_b, *self, Gate::Cmul { xref, c }, modulus);
            }
        }
        r
    }

    /// The projection `tt[x]` onto a wire of modulus `output_modulus`; the
    /// table has one entry per value of `x`, each below `output_modulus`.
    pub fn proj(&mut self, xref: Ref, output_modulus: u16, tt: Vec<u16>) -> (r: Ref)
        requires
            old(self).wf(),
            old(self).circuit().gates.len() < usize::MAX,
            xref < old(self).circuit().gates.len(),
            tt.len() == old(self).circuit().moduli[xref as int],
            forall|i: int| 0 <= i < tt.len() ==> tt[i] < output_modulus,
        ensures
            final(self).wf(),
            r == old(self).circuit().gates.len(),
            appends(
                old(self).circuit(),
                final(self).circuit(),
                Gate::Proj { xref, tt, id: old(self).num_ciphertexts() as usize },
                output_modulus,
            ),
            final(self).consts() == old(self).consts(),
            final(self).num_ciphertexts() == old(self).num_ciphertexts() + 1,
            circuit_safe(old(self).circuit(), old(self).consts()) ==> circuit_safe(final(self).circuit(), final(self).consts()),
    {
        let ghost old_b = *self;
        let q = output_modulus;
        let gate = Gate::Proj { xref, tt, id: self.get_next_ciphertext_id() };
        let ghost g = gate;
        let r = self.gate(gate, q);
        proof {
            Self::lemma_wf_append(old_b, *self, g, q);
            if circuit_safe(old_b.circ, old_b.const_vals@) {
                Self::lemma_safe_step(old_b, *self, g, q);
            }
        }
        r
    }

    /// The binary gate `tt[x][y]` onto a wire of modulus `output_modulus`;
    /// every entry of the table is below `output_modulus`.
    pub fn yao(&mut self, xref: Ref, yref: Ref, output_modulus: u16, tt: Vec<Vec<u16>>) -> (r: Ref)
        requires
            old(self).wf(),
            old(self).circuit().gates.len() < usize::MAX,
            forall|i: int, j: int|
                0 <= i < tt.len() && 0 <= j < tt[i].len() ==> #[trigger] tt[i][j] < output_modulus,
        ensures
            final(self).wf(),
            r == old(self).circuit().gates.len(),
            appends(
                old(self).circuit(),
                final(self).circuit(),
                Gate::Yao { xref, yref, tt, id: old(self).num_ciphertexts() as usize },
                output_modulus,
            ),
            final(self).consts() == old(self).consts(),
            final(self).num_ciphertexts() == old(self).num_ciphertexts() + 1,
            circuit_safe(old(self).circuit(), old(self).consts()) && xref < old(self).circuit().gates.len()
                && yref < old(self).circuit().gates.len() && old(self).circuit().moduli[xref as int] <= tt.len() && (forall|i: int|
                0 <= i < tt.len() ==> old(self).circuit().moduli[yref as int] <= #[trigger] tt[i].len())
                ==> circuit_safe(final(self).circuit(), final(self).consts()),
    {
        let ghost old_b = *self;
        let gate = Gate::Yao { xref, yref, tt, id: self.get_next_ciphertext_id() };
        let ghost g = gate;
        let r = self.gate(gate, output_modulus);
        proof {
            Self::lemma_wf_append(old_b, *self, g, output_modulus);
            if circuit_safe(old_b.circ, old_b.const_vals@) && xref < old_b.circ.gates.len() && yref < old_b.circ.gates.len()
                && old_b.circ.moduli[xref as int] <= g->Yao_tt.len()
                && (forall|i: int| 0 <= i < g->Yao_tt.len() ==> old_b.circ.moduli[yref as int] <= #[trigger] g->Yao_tt@[i].len()) {
                let t = g->Yao_tt;
                assert forall|i: int| 0 <= i < t.len() implies old_b.circ.moduli[yref as int] <= #[trigger] t@[i].len()
                    && forall|j: int| 0 <= j < t@[i].len() ==> #[trigger] t@[i]@[j] < output_modulus by {
                    assert forall|j: int| 0 <= j < t@[i].len() implies #[trigger] t@[i]@[j] < output_modulus by {
                        assert(t[i][j] < output_modulus);
                    }
                }
                Self::lemma_safe_step(old_b, *self, g, output_modulus);
            }
        }
        r
    }

    /// The product `x * y` of two wires of the same modulus.
    pub fn half_gate(&mut self, xref: Ref, yref: Ref) -> (r: Ref)
        requires
            old(self).wf(),
            old(self).circuit().gates.len() < usize::MAX,
            xref < old(self).circuit().gates.len(),
            yref < old(self).circuit().gates.len(),
            old(self).circuit().moduli[xref as int] == old(self).circuit().moduli[yref as int],
        ensures
            final(self).wf(),
            r == old(self).circuit().gates.len(),
            appends(
                old(self).circuit(),
                final(self).circuit(),
                Gate::HalfGate { xref, yref, id: old(self).num_ciphertexts() as usize },
                old(self).circuit().moduli[xref as int],
            ),
            final(self).consts() == old(self).consts(),
            final(self).num_ciphertexts() == old(self).num_ciphertexts() + 1,
            circuit_safe(old(self).circuit(), old(self).consts()) && 0 < old(self).circuit().moduli[xref as int] && (old(self).circuit().moduli[xref as int] - 1) * (
            old(self).circuit().moduli[xref as int] - 1) <= u16::MAX ==> circuit_safe(final(self).circuit(), final(self).consts()),
    {
        let ghost old_b = *self;
        let gate = Gate::HalfGate { xref, yref, id: self.get_next_ciphertext_id() };
        let ghost g = gate;
        let q = self.circ.moduli[xref];
        let r = self.gate(gate, q);
        proof {
            Self::lemma_wf_append(old_b, *self, g, q);
            if circuit_safe(old_b.circ, old_b.const_vals@) && 0 < q && (q - 1) * (q - 1) <= u16::MAX {
                Self::lemma_safe_step(old_b, *self, g, q);
            }
        }
        r
    }

    /// The exclusive or of two bits: their sum modulo 2.
    pub fn xor(&mut self, x: Ref, y: Ref) -> (r: Ref)
        requires
            old(self).wf(),
            old(self).circuit().gates.len() < usize::MAX,
            x < old(self).circuit().gates.len(),
            y < old(self).circuit().gates.len(),
            old(self).circuit().moduli[x as int] == 2,
            old(self).circuit().moduli[y as int] == 2,
        ensures
            final(self).wf(),
            r == old(self).circuit().gates.len(),
            appends(old(self).circuit(), final(self).circuit(), Gate::Add { xref: x, yref: y }, 2),
            final(self).consts() == old(self).consts(),
            final(self).num_ciphertexts() == old(self).num_ciphertexts(),
            circuit_safe(old(self).circuit(), old(self).consts()) ==> circuit_safe(final(self).circuit(), final(self).consts()),
    {
        self.add(x, y)
    }

    /// The conjunction of two bits: their product modulo 2.
    pub fn and(&mut self, x: Ref, y: Ref) -> (r: Ref)
        requires
            old(self).wf(),
            old(self).circuit().gates.len() < usize::MAX,
            x < old(self).circuit().gates.len(),
            y < old(self).circuit().gates.len(),
            old(self).circuit().moduli[x as int] == 2,
            old(self).circuit().moduli[y as int] == 2,
        ensures
            final(self).wf(),
            r == old(self).circuit().gates.len(),
            appends(
                old(self).circuit(),
                final(self).circuit(),
                Gate::HalfGate { xref: x, yref: y, id: old(self).num_ciphertexts() as usize },
                2,
            ),
            final(self).consts() == old(self).consts(),
            final(self).num_ciphertexts() == old(self).num_ciphertexts() + 1,
            circuit_safe(old(self).circuit(), old(self).consts()) ==> circuit_safe(final(self).circuit(), final(self).consts()),
    {
        self.half_gate(x, y)
    }

    /// The sum of the wires `args`, all of the modulus of `args[0]`, built as
    /// a chain of additions.
    pub fn add_many(&mut self, args: &[Ref]) -> (r: Ref)
        requires
            old(self).wf(),
            args.len() > 1,
            old(self).circuit().gates.len() + args.len() - 1 <= usize::MAX,
            forall|i: int| 0 <= i < args.len() ==> #[trigger] args[i] < old(self).circuit().gates.len(),
            forall|i: int|
                0 <= i < args.len() ==> old(self).circuit().moduli[#[trigger] args[i] as int]
                    == old(self).circuit().moduli[args[0] as int],
        ensures
            final(self).wf(),
            grows(old(self).circuit(), old(self).consts(), final(self).circuit(), final(self).consts()),
            final(self).consts() == old(self).consts(),
            final(self).num_ciphertexts() == old(self).num_ciphertexts(),
            final(self).circuit().gates.len() == old(self).circuit().gates.len() + args.len() - 1,
            r == final(self).circuit().gates.len() - 1,
            final(self).circuit().moduli[r as int] == old(self).circuit().moduli[args[0] as int],
            forall|inputs: Seq<u16>, consts: Seq<u16>|
                old(self).circuit().moduli[args[0] as int] > 0
                    ==> #[trigger] final(self).circuit().values(inputs, consts)[r as int] == sum_wires(
                    old(self).circuit().values(inputs, consts),
                    args@,
                    args@.len(),
                ) % (old(self).circuit().moduli[args[0] as int] as int),
            circuit_safe(old(self).circuit(), old(self).consts()) && 0 < old(self).circuit().moduli[args[0] as int] && 2 * old(self).circuit().moduli[args[0] as int]
                <= u16::MAX + 2 ==> circuit_safe(final(self).circuit(), final(self).consts()),
    {
        let ghost c0 = self.circuit();
        let ghost q = c0.moduli[args[0] as int];
        proof {
            lemma_builder_lengths(*self);
        }
        let mut z = args[0];
        let mut i: usize = 1;
        proof {
            lemma_grows_refl(c0, self.consts());
        }
        while i < args.len()
            invariant
                self.wf(),
                1 <= i <= args.len(),
                c0 == old(self).circuit(),
                c0.moduli.len() == c0.gates.len(),
                q == c0.moduli[args[0] as int],
                c0.gates.len() + args.len() - 1 <= usize::MAX,
                forall|j: int| 0 <= j < args.len() ==> #[trigger] args[j] < c0.gates.len(),
                forall|j: int| 0 <= j < args.len() ==> c0.moduli[#[trigger] args[j] as int] == q,
                grows(c0, old(self).consts(), self.circuit(), self.consts()),
                self.consts() == old(self).consts(),
                self.num_ciphertexts() == old(self).num_ciphertexts(),
                self.circuit().gates.len() == c0.gates.len() + i - 1,
                z < self.circuit().gates.len(),
                self.circuit().moduli[z as int] == q,
                i > 1 ==> z == self.circuit().gates.len() - 1,
                i == 1 ==> z == args[0],
                circuit_safe(c0, old(self).consts()) && 0 < q && 2 * q <= u16::MAX + 2 ==> circuit_safe(
                    self.circuit(),
                    self.consts(),
                ),
                forall|inputs: Seq<u16>, consts: Seq<u16>|
                    q > 0 && i > 1 ==> #[trigger] self.circuit().values(inputs, consts)[z as int]
                        == sum_wires(c0.values(inputs, consts), args@, i as nat) % (q as int),
            decreases args.len() - i,
        {
            let ghost before = self.circuit();
            let ghost zprev = z;
            let x = args[i];
            proof {
                lemma_grows_index(c0, old(self).consts(), self.circuit(), self.consts(), x as int);
            }
            z = self.add(z, x);
            proof {
                lemma_appends_grows(before, self.circuit(), Gate::Add { xref: zprev, yref: x }, q, self.consts());
                lemma_grows_trans(c0, old(self).consts(), before, self.consts(), self.circuit(), self.consts());
                lemma_builder_lengths(*self);
                assert forall|inputs: Seq<u16>, consts: Seq<u16>| q > 0 implies #[trigger] self.circuit().values(
                    inputs,
                    consts,
                )[z as int] == sum_wires(c0.values(inputs, consts), args@, (i + 1) as nat) % (
                q as int) by {
                    let vb = before.values(inputs, consts);
                    let v0 = c0.values(inputs, consts);
                    lemma_values_append(before, self.circuit(), Gate::Add { xref: zprev, yref: x }, q, inputs, consts);
                    lemma_values_grow(c0, before, inputs, consts);
                    assert(vb[x as int] == v0[args[i as int] as int]);
                    assert(self.circuit().values(inputs, consts)[z as int] == ((vb[zprev as int] + vb[x as int]) % (q as int)) as u16);
                    if i == 1 {
                        assert(vb[zprev as int] == v0[args[0] as int]);
                        assert(sum_wires(v0, args@, 0) == 0);
                        assert(sum_wires(v0, args@, 1) == v0[args[0] as int]);
                    } else {
                        lemma_mod_add_left(sum_wires(v0, args@, i as nat), v0[args[i as int] as int] as int, q as int);
                    }
                }
            }
            i += 1;
        }
        z
    }

    /// Wire `xref` carried over to modulus `to_modulus` by the projection
    /// `x -> x mod to_modulus`, or `xref` itself if it has that modulus already.
    pub fn mod_change(&mut self, xref: Ref, to_modulus: u16) -> (r: Ref)
        requires
            old(self).wf(),
            old(self).circuit().gates.len() < usize::MAX,
            xref < old(self).circuit().gates.len(),
            to_modulus > 0 || old(self).circuit().moduli[xref as int] == 0,
        ensures
            final(self).wf(),
            final(self).consts() == old(self).consts(),
            grows(old(self).circuit(), old(self).consts(), final(self).circuit(), final(self).consts()),
            r < final(self).circuit().gates.len(),
            final(self).circuit().moduli[r as int] == to_modulus,
            final(self).circuit().gates.len() <= old(self).circuit().gates.len() + 1,
            old(self).circuit().moduli[xref as int] == to_modulus ==> {
                &&& r == xref
                &&& final(self).circuit() == old(self).circuit()
                &&& final(self).num_ciphertexts() == old(self).num_ciphertexts()
            },
            old(self).circuit().moduli[xref as int] != to_modulus ==> {
                &&& r == old(self).circuit().gates.len()
                &&& appends_proj(
                    old(self).circuit(),
                    final(self).circuit(),
                    xref,
                    mod_table(old(self).circuit().moduli[xref as int], to_modulus),
                    old(self).num_ciphertexts(),
                    to_modulus,
                )
                &&& final(self).num_ciphertexts() == old(self).num_ciphertexts() + 1
            },
            forall|inputs: Seq<u16>, consts: Seq<u16>|
                old(self).circuit().values(inputs, consts)[xref as int]
                    < old(self).circuit().moduli[xref as int]
                    ==> #[trigger] final(self).circuit().values(inputs, consts)[r as int]
                    == old(self).circuit().values(inputs, consts)[xref as int] % to_modulus,
            circuit_safe(old(self).circuit(), old(self).consts()) ==> circuit_safe(final(self).circuit(), final(self).consts()),
    {
        let ghost c0 = self.circuit();
        proof {
            lemma_builder_lengths(*self);
        }
        let from_modulus = self.circ.moduli[xref];
        if from_modulus == to_modulus {
            proof {
                lemma_grows_refl(self.circuit(), self.consts());
                assert forall|inputs: Seq<u16>, consts: Seq<u16>|
                    c0.values(inputs, consts)[xref as int] < c0.moduli[xref as int]
                    implies #[trigger] self.circuit().values(inputs, consts)[xref as int]
                    == c0.values(inputs, consts)[xref as int] % to_modulus by {
                    vstd::arithmetic::div_mod::lemma_small_mod(
                        c0.values(inputs, consts)[xref as int] as nat,
                        to_modulus as nat,
                    );
                }
            }
            return xref;
        }
        let mut tab: Vec<u16> = Vec::new();
        let mut x: u16 = 0;
        while x < from_modulus
            invariant
                x <= from_modulus,
                to_modulus > 0 || from_modulus == 0,
                tab@ == mod_table(from_modulus, to_modulus).take(x as int),
            decreases from_modulus - x,
        {
            tab.push(x % to_modulus);
            x += 1;
            assert(tab@ == mod_table(from_modulus, to_modulus).take(x as int));
        }
        assert(tab@ == mod_table(from_modulus, to_modulus));
        let ghost tab0 = tab@;
        let r = self.proj(xref, to_modulus, tab);
        assert(self.circuit().gates@.drop_last() == c0.gates@);
        proof {
            lemma_appends_grows(c0, self.circuit(), self.circuit().gates@.last(), to_modulus, self.consts());
            assert forall|inputs: Seq<u16>, consts: Seq<u16>|
                c0.values(inputs, consts)[xref as int] < c0.moduli[xref as int]
                implies #[trigger] self.circuit().values(inputs, consts)[r as int]
                == c0.values(inputs, consts)[xref as int] % to_modulus by {
                lemma_values_append(c0, self.circuit(), self.circuit().gates@.last(), to_modulus, inputs, consts);
                lemma_values_grow(c0, c0, inputs, consts);
                let v = c0.values(inputs, consts)[xref as int];
                assert(read(c0.values(inputs, consts), xref as int) == v);
                assert(tab0[v as int] == (v % to_modulus) as u16);
            }
        }
        r
    }

    /// The negation `1 - x` of a bit.
    pub fn negate(&mut self, x: Ref) -> (r: Ref)
        requires
            old(self).wf(),
            old(self).circuit().gates.len() < usize::MAX,
            x < old(self).circuit().gates.len(),
            old(self).circuit().moduli[x as int] == 2,
        ensures
            final(self).wf(),
            r == old(self).circuit().gates.len(),
            appends_proj(old(self).circuit(), final(self).circuit(), x, seq![1u16, 0u16], old(self).num_ciphertexts(), 2),
            final(self).consts() == old(self).consts(),
            final(self).num_ciphertexts() == old(self).num_ciphertexts() + 1,
            forall|inputs: Seq<u16>, consts: Seq<u16>|
                old(self).circuit().values(inputs, consts)[x as int] <= 1
                    ==> #[trigger] final(self).circuit().values(inputs, consts)[r as int]
                    == 1 - old(self).circuit().values(inputs, consts)[x as int],
            circuit_safe(old(self).circuit(), old(self).consts()) ==> circuit_safe(final(self).circuit(), final(self).consts()),
    {
        let ghost c0 = self.circuit();
        proof {
            lemma_builder_lengths(*self);
        }
        let tt: Vec<u16> = vec![1, 0];
        assert(tt@ == seq![1u16, 0u16]);
        let r = self.proj(x, 2, tt);
        assert(self.circuit().gates@.drop_last() == c0.gates@);
        proof {
            assert forall|inputs: Seq<u16>, consts: Seq<u16>|
                c0.values(inputs, consts)[x as int] <= 1
                implies #[trigger] self.circuit().values(inputs, consts)[r as int]
                == 1 - c0.values(inputs, consts)[x as int] by {
                lemma_values_append(c0, self.circuit(), self.circuit().gates@.last(), 2, inputs, consts);
                lemma_values_grow(c0, c0, inputs, consts);
                assert(read(c0.values(inputs, consts), x as int) == c0.values(inputs, consts)[x as int]);
            }
        }
        r
    }

    /// The conjunction of `b` bits already carried over to modulus `b + 1`:
    /// their sum is projected to 1 if it is `b`, to 0 otherwise.
    pub fn _and_many(&mut self, args: &[Ref]) -> (r: Ref)
        requires
            old(self).wf(),
            2 <= args.len(),
            args.len() + 1 <= u16::MAX,
            old(self).circuit().gates.len() + args.len() <= usize::MAX,
            forall|i: int| 0 <= i < args.len() ==> #[trigger] args[i] < old(self).circuit().gates.len(),
            forall|i: int|
                0 <= i < args.len() ==> old(self).circuit().moduli[#[trigger] args[i] as int]
                    == args.len() + 1,
        ensures
            final(self).wf(),
            grows(old(self).circuit(), old(self).consts(), final(self).circuit(), final(self).consts()),
            final(self).consts() == old(self).consts(),
            final(self).circuit().gates.len() == old(self).circuit().gates.len() + args.len(),
            r == final(self).circuit().gates.len() - 1,
            final(self).circuit().moduli[r as int] == 2,
            forall|inputs: Seq<u16>, consts: Seq<u16>|
                all_bits(old(self).circuit().values(inputs, consts), args@)
                    ==> #[trigger] final(self).circuit().values(inputs, consts)[r as int] == and_of(
                    old(self).circuit().values(inputs, consts),
                    args@,
                ),
            circuit_safe(old(self).circuit(), old(self).consts()) && 2 * args.len() <= u16::MAX ==> circuit_safe(final(self).circuit(), final(self).consts()),
    {
        let ghost c0 = self.circuit();
        proof {
            lemma_builder_lengths(*self);
        }
        let b = args.len();
        let z = self.add_many(args);
        let ghost c1 = self.circuit();
        proof {
            lemma_builder_lengths(*self);
        }
        let mut tab: Vec<u16> = vec![0; b + 1];
        tab.set(b, 1);
        assert forall|i: int| 0 <= i < tab.len() implies tab[i] < 2 by {
            if i != b {
                assert(tab[i] == 0);
            }
        }
        let ghost tab0 = tab@;
        let ghost ct = self.num_ciphertexts();
        let r = self.proj(z, 2, tab);
        proof {
            lemma_appends_grows(c1, self.circuit(), self.circuit().gates@.last(), 2, self.consts());
            lemma_grows_trans(old(self).circuit(), old(self).consts(), c1, self.consts(), self.circuit(), self.consts());
            lemma_builder_lengths(*self);
            assert forall|inputs: Seq<u16>, consts: Seq<u16>|
                all_bits(c0.values(inputs, consts), args@) implies #[trigger] self.circuit().values(
                inputs,
                consts,
            )[r as int] == and_of(c0.values(inputs, consts), args@) by {
                let v0 = c0.values(inputs, consts);
                let v1 = c1.values(inputs, consts);
                let g = Gate::Proj { xref: z, tt: self.circuit().gates@.last()->Proj_tt, id: ct as usize };
                lemma_values_append(c1, self.circuit(), self.circuit().gates@.last(), 2, inputs, consts);
                lemma_values_grow(c0, c1, inputs, consts);
                lemma_sum_bits(v0, args@, b as nat);
                let sum = sum_wires(v0, args@, b as nat);
                vstd::arithmetic::div_mod::lemma_small_mod(sum as nat, (b + 1) as nat);
                assert(v1[z as int] == sum % ((b + 1) as int));
                let last = self.circuit().gates@.last();
                assert(last is Proj);
                assert(last->Proj_xref == z);
                assert(last->Proj_tt@ == tab0);
                assert(z < v1.len());
                assert(read(v1, z as int) == v1[z as int]);
                assert(self.circuit().values(inputs, consts)[r as int] == tab0[v1[z as int] as int]);
                if forall|i: int| 0 <= i < b ==> #[trigger] v0[args@[i] as int] == 1 {
                    assert(sum == b);
                } else {
                    assert(sum != b);
                }
            }
        }
        r
    }

    /// The conjunction of bits: each is carried over to modulus `b + 1`, for
    /// `b` the number of bits, and the results are combined by `_and_many`.
    pub fn and_many(&mut self, args: &[Ref]) -> (r: Ref)
        requires
            old(self).wf(),
            2 <= args.len(),
            args.len() + 1 <= u16::MAX,
            old(self).circuit().gates.len() + 2 * args.len() <= usize::MAX,
            forall|i: int| 0 <= i < args.len() ==> #[trigger] args[i] < old(self).circuit().gates.len(),
            forall|i: int| 0 <= i < args.len() ==> old(self).circuit().moduli[#[trigger] args[i] as int] == 2,
        ensures
            final(self).wf(),
            grows(old(self).circuit(), old(self).consts(), final(self).circuit(), final(self).consts()),
            final(self).consts() == old(self).consts(),
            final(self).circuit().gates.len() == old(self).circuit().gates.len() + 2 * args.len(),
            r == final(self).circuit().gates.len() - 1,
            final(self).circuit().moduli[r as int] == 2,
            forall|inputs: Seq<u16>, consts: Seq<u16>|
                all_bits(old(self).circuit().values(inputs, consts), args@)
                    ==> #[trigger] final(self).circuit().values(inputs, consts)[r as int] == and_of(
                    old(self).circuit().values(inputs, consts),
                    args@,
                ),
            circuit_safe(old(self).circuit(), old(self).consts()) && 2 * args.len() <= u16::MAX ==> circuit_safe(final(self).circuit(), final(self).consts()),
    {
        let ghost c0 = self.circuit();
        proof {
            lemma_builder_lengths(*self);
            lemma_grows_refl(c0, self.consts());
        }
        let b = args.len() as u16;
        let mut wires: Vec<Ref> = Vec::new();
        let mut i: usize = 0;
        while i < args.len()
            invariant
                self.wf(),
                i <= args.len(),
                b == args.len(),
                2 <= args.len(),
                args.len() + 1 <= u16::MAX,
                c0 == old(self).circuit(),
                c0.moduli.len() == c0.gates.len(),
                c0.gates.len() + 2 * args.len() <= usize::MAX,
                forall|j: int| 0 <= j < args.len() ==> #[trigger] args[j] < c0.gates.len(),
                forall|j: int| 0 <= j < args.len() ==> c0.moduli[#[trigger] args[j] as int] == 2,
                grows(c0, old(self).consts(), self.circuit(), self.consts()),
                self.consts() == old(self).consts(),
                circuit_safe(c0, old(self).consts()) ==> circuit_safe(self.circuit(), self.consts()),
                self.circuit().gates.len() == c0.gates.len() + i,
                wires.len() == i,
                forall|j: int| 0 <= j < i ==> #[trigger] wires[j] < self.circuit().gates.len()
                    && self.circuit().moduli[wires[j] as int] == b + 1,
                forall|j: int|
                    0 <= j < i ==> {
                        &&& wires@[j] == c0.gates.len() + j
                        &&& #[trigger] self.circuit().gates@[wires@[j] as int] matches Gate::Proj {
                            xref,
                            tt,
                            ..
                        } && xref == args@[j] && tt@ == mod_table(2, (b + 1) as u16)
                    },
            decreases args.len() - i,
        {
            let ghost before = self.circuit();
            let x = args[i];
            proof {
                lemma_grows_index(c0, old(self).consts(), self.circuit(), self.consts(), x as int);
            }
            let ghost ct = self.num_ciphertexts();
            let w = self.mod_change(x, b + 1);
            wires.push(w);
            proof {
                lemma_appends_proj_grows(before, self.circuit(), x, mod_table(2, (b + 1) as u16), ct, (b + 1) as u16, self.consts());
                lemma_grows_trans(c0, old(self).consts(), before, self.consts(), self.circuit(), self.consts());
                assert forall|j: int| 0 <= j < i + 1 implies #[trigger] wires[j] < self.circuit().gates.len()
                    && self.circuit().moduli[wires[j] as int] == b + 1 by {
                    if j < i {
                        lemma_grows_index(before, self.consts(), self.circuit(), self.consts(), wires[j] as int);
                    }
                }
                assert forall|j: int| 0 <= j < i + 1 implies {
                    &&& wires@[j] == c0.gates.len() + j
                    &&& #[trigger] self.circuit().gates@[wires@[j] as int] matches Gate::Proj {
                        xref,
                        tt,
                        ..
                    } && xref == args@[j] && tt@ == mod_table(2, (b + 1) as u16)
                } by {
                    if j < i {
                        lemma_grows_index(before, self.consts(), self.circuit(), self.consts(), wires[j] as int);
                    } else {
                        assert(self.circuit().gates@[wires@[j] as int] == self.circuit().gates@.last());
                    }
                }
            }
            i += 1;
        }
        let ghost c1 = self.circuit();
        proof {
            lemma_builder_lengths(*self);
        }
        let r = self._and_many(wires.as_slice());
        proof {
            lemma_grows_trans(c0, old(self).consts(), c1, self.consts(), self.circuit(), self.consts());
            assert forall|inputs: Seq<u16>, consts: Seq<u16>|
                all_bits(c0.values(inputs, consts), args@) implies #[trigger] self.circuit().values(
                inputs,
                consts,
            )[r as int] == and_of(c0.values(inputs, consts), args@) by {
                let v0 = c0.values(inputs, consts);
                let v1 = c1.values(inputs, consts);
                lemma_values_grow(c0, c1, inputs, consts);
                assert forall|j: int| 0 <= j < b implies #[trigger] v1[wires@[j] as int] == v0[args@[j] as int] by {
                    let w = wires@[j] as int;
                    lemma_value_at(c1, w, inputs, consts);
                    assert(args@[j] < c0.gates.len());
                    assert(v1.take(w)[args@[j] as int] == v1[args@[j] as int]);
                    assert(v0[args@[j] as int] <= 1);
                    vstd::arithmetic::div_mod::lemma_small_mod(v0[args@[j] as int] as nat, (b + 1) as nat);
                }
                assert(all_bits(v1, wires@));
                if forall|j: int| 0 <= j < b ==> #[trigger] v0[args@[j] as int] == 1 {
                    assert forall|j: int| 0 <= j < b implies #[trigger] v1[wires@[j] as int] == 1 by {}
                } else {
                    let j = choose|j: int| 0 <= j < b && v0[args@[j] as int] != 1;
                    assert(v1[wires@[j] as int] != 1);
                }
            }
        }
        r
    }

    /// The disjunction of bits: each is projected to modulus `b + 1`, for `b`
    /// the number of bits, and their sum is projected to 0 if it is 0, to 1
    /// otherwise.
    pub fn or_many(&mut self, args: &[Ref]) -> (r: Ref)
        requires
            old(self).wf(),
            2 <= args.len(),
            args.len() + 1 <= u16::MAX,
            old(self).circuit().gates.len() + 2 * args.len() <= usize::MAX,
            forall|i: int| 0 <= i < args.len() ==> #[trigger] args[i] < old(self).circuit().gates.len(),
            forall|i: int| 0 <= i < args.len() ==> old(self).circuit().moduli[#[trigger] args[i] as int] == 2,
        ensures
            final(self).wf(),
            grows(old(self).circuit(), old(self).consts(), final(self).circuit(), final(self).consts()),
            final(self).consts() == old(self).consts(),
            final(self).circuit().gates.len() == old(self).circuit().gates.len() + 2 * args.len(),
            r == final(self).circuit().gates.len() - 1,
            final(self).circuit().moduli[r as int] == 2,
            forall|inputs: Seq<u16>, consts: Seq<u16>|
                all_bits(old(self).circuit().values(inputs, consts), args@)
                    ==> #[trigger] final(self).circuit().values(inputs, consts)[r as int] == or_of(
                    old(self).circuit().values(inputs, consts),
                    args@,
                ),
            circuit_safe(old(self).circuit(), old(self).consts()) && 2 * args.len() <= u16::MAX ==> circuit_safe(final(self).circuit(), final(self).consts()),
    {
        let ghost c0 = self.circuit();
        proof {
            lemma_builder_lengths(*self);
            lemma_grows_refl(c0, self.consts());
        }
        let b = args.len();
        let mut wires: Vec<Ref> = Vec::new();
        let mut i: usize = 0;
        while i < args.len()
            invariant
                self.wf(),
                i <= args.len(),
                b == args.len(),
                2 <= args.len(),
                args.len() + 1 <= u16::MAX,
                c0 == old(self).circuit(),
                c0.moduli.len() == c0.gates.len(),
                c0.gates.len() + 2 * args.len() <= usize::MAX,
                forall|j: int| 0 <= j < args.len() ==> #[trigger] args[j] < c0.gates.len(),
                forall|j: int| 0 <= j < args.len() ==> c0.moduli[#[trigger] args[j] as int] == 2,
                grows(c0, old(self).consts(), self.circuit(), self.consts()),
                self.consts() == old(self).consts(),
                circuit_safe(c0, old(self).consts()) ==> circuit_safe(self.circuit(), self.consts()),
                self.circuit().gates.len() == c0.gates.len() + i,
                wires.len() == i,
                forall|j: int| 0 <= j < i ==> #[trigger] wires[j] < self.circuit().gates.len()
                    && self.circuit().moduli[wires[j] as int] == b + 1,
                forall|j: int|
                    0 <= j < i ==> {
                        &&& wires@[j] == c0.gates.len() + j
                        &&& #[trigger] self.circuit().gates@[wires@[j] as int] matches Gate::Proj {
                            xref,
                            tt,
                            ..
                        } && xref == args@[j] && tt@ == seq![0u16, 1u16]
                    },
            decreases args.len() - i,
        {
            let ghost before = self.circuit();
            let x = args[i];
            proof {
                lemma_grows_index(c0, old(self).consts(), self.circuit(), self.consts(), x as int);
            }
            let tt: Vec<u16> = vec![0, 1];
            assert(tt@ == seq![0u16, 1u16]);
            let w = self.proj(x, b as u16 + 1, tt);
            wires.push(w);
            proof {
                assert forall|j: int| 0 <= j < i + 1 implies {
                    &&& wires@[j] == c0.gates.len() + j
                    &&& #[trigger] self.circuit().gates@[wires@[j] as int] matches Gate::Proj {
                        xref,
                        tt,
                        ..
                    } && xref == args@[j] && tt@ == seq![0u16, 1u16]
                } by {
                    if j < i {
                        assert(self.circuit().gates@[wires@[j] as int] == before.gates@[wires@[j] as int]);
                    } else {
                        assert(self.circuit().gates@[wires@[j] as int] == self.circuit().gates@.last());
                    }
                }
                lemma_appends_grows(before, self.circuit(), self.circuit().gates@.last(), (b + 1) as u16, self.consts());
                lemma_grows_trans(c0, old(self).consts(), before, self.consts(), self.circuit(), self.consts());
                assert forall|j: int| 0 <= j < i + 1 implies #[trigger] wires[j] < self.circuit().gates.len()
                    && self.circuit().moduli[wires[j] as int] == b + 1 by {
                    if j < i {
                        lemma_grows_index(before, self.consts(), self.circuit(), self.consts(), wires[j] as int);
                    }
                }
            }
            i += 1;
        }
        let ghost c1 = self.circuit();
        proof {
            lemma_builder_lengths(*self);
        }
        let z = self.add_many(wires.as_slice());
        let ghost c2 = self.circuit();
        proof {
            lemma_builder_lengths(*self);
        }
        let mut tab: Vec<u16> = vec![1; b + 1];
        tab.set(0, 0);
        assert forall|j: int| 0 <= j < tab.len() implies tab[j] < 2 by {
            if j != 0 {
                assert(tab[j] == 1);
            }
        }
        let ghost tab0 = tab@;
        let r = self.proj(z, 2, tab);
        proof {
            lemma_appends_grows(c2, self.circuit(), self.circuit().gates@.last(), 2, self.consts());
            lemma_grows_trans(c0, old(self).consts(), c1, self.consts(), c2, self.consts());
            lemma_grows_trans(c0, old(self).consts(), c2, self.consts(), self.circuit(), self.consts());
            assert forall|inputs: Seq<u16>, consts: Seq<u16>|
                all_bits(c0.values(inputs, consts), args@) implies #[trigger] self.circuit().values(
                inputs,
                consts,
            )[r as int] == or_of(c0.values(inputs, consts), args@) by {
                let v0 = c0.values(inputs, consts);
                let v1 = c1.values(inputs, consts);
                let v2 = c2.values(inputs, consts);
                lemma_values_grow(c0, c1, inputs, consts);
                lemma_values_grow(c1, c2, inputs, consts);
                assert forall|j: int| 0 <= j < b implies #[trigger] v1[wires@[j] as int] == v0[args@[j] as int] by {
                    let w = wires@[j] as int;
                    lemma_value_at(c1, w, inputs, consts);
                    assert(args@[j] < c0.gates.len());
                    assert(v1.take(w)[args@[j] as int] == v1[args@[j] as int]);
                    assert(v0[args@[j] as int] <= 1);
                }
                lemma_sum_bits(v1, wires@, b as nat);
                let sum = sum_wires(v1, wires@, b as nat);
                vstd::arithmetic::div_mod::lemma_small_mod(sum as nat, (b + 1) as nat);
                assert(v2[z as int] == sum % ((b + 1) as int));
                lemma_values_append(c2, self.circuit(), self.circuit().gates@.last(), 2, inputs, consts);
                let last = self.circuit().gates@.last();
                assert(last->Proj_tt@ == tab0);
                assert(read(v2, z as int) == v2[z as int]);
                if forall|j: int| 0 <= j < b ==> #[trigger] v0[args@[j] as int] == 0 {
                    assert forall|j: int| 0 <= j < b implies #[trigger] v1[wires@[j] as int] == 0 by {}
                    assert(sum == 0);
                } else {
                    let j = choose|j: int| 0 <= j < b && v0[args@[j] as int] != 0;
                    assert(v1[wires@[j] as int] != 0);
                    assert(sum != 0);
                    assert(tab0[sum] == 1);
                }
            }
        }
        r
    }

    /// Adds two digits `x` and `y` of the same modulus `q`, and the carry
    /// `opt_c` (of modulus `q`) when there is one.  Returns the sum digit and
    /// the carry out, a bit of modulus `carry_modulus`.  Bits are added with a
    /// full-adder of xor and and gates; other digits by projecting their sum,
    /// computed modulo `2q` (or `2q - 1` without a carry in), to the carry.
    #[verifier::rlimit(50)]
    #[verifier::spinoff_prover]
    fn adder(&mut self, x: Ref, y: Ref, opt_c: Option<Ref>, carry_modulus: u16) -> (r: (Ref, Ref))
        requires
            old(self).wf(),
            old(self).circuit().gates.len() + 8 <= usize::MAX,
            x < old(self).circuit().gates.len(),
            y < old(self).circuit().gates.len(),
            old(self).circuit().moduli[x as int] == old(self).circuit().moduli[y as int],
            opt_c matches Some(c) ==> c < old(self).circuit().gates.len()
                && old(self).circuit().moduli[c as int] == old(self).circuit().moduli[x as int],
            adder_ok(old(self).circuit().moduli[x as int], opt_c is Some, carry_modulus),
        ensures
            final(self).wf(),
            grows(old(self).circuit(), old(self).consts(), final(self).circuit(), final(self).consts()),
            final(self).consts() == old(self).consts(),
            final(self).circuit().gates.len() <= old(self).circuit().gates.len() + 8,
            r.0 < final(self).circuit().gates.len(),
            r.1 < final(self).circuit().gates.len(),
            final(self).circuit().moduli[r.0 as int] == old(self).circuit().moduli[x as int],
            final(self).circuit().moduli[r.1 as int] == carry_modulus,
            carry_modulus >= 2 ==> forall|inputs: Seq<u16>, consts: Seq<u16>|
                #[trigger] adder_correct(
                    old(self).circuit().values(inputs, consts),
                    final(self).circuit().values(inputs, consts),
                    old(self).circuit().moduli[x as int],
                    x,
                    y,
                    opt_c,
                    r,
                ),
            circuit_safe(old(self).circuit(), old(self).consts()) && (old(self).circuit().moduli[x as int] == 2 || (0 < old(self).circuit().moduli[x as int]
                && 4 * old(self).circuit().moduli[x as int] <= u16::MAX + 2)) ==> circuit_safe(final(self).circuit(), final(self).consts()),
    {
        let ghost c0 = self.circuit();
        let ghost k = self.consts();
        proof {
            lemma_builder_lengths(*self);
            lemma_grows_refl(c0, k);
        }
        let q = self.modulus(x);
        if q == 2 {
            match opt_c {
                Some(c) => {
                    let ghost s0 = self.circuit();
                    let z1 = self.xor(x, y);
                    proof { lemma_grows_append(c0, k, s0, self.circuit(), 2); }
                    let ghost s1 = self.circuit();
                    let z2 = self.xor(z1, c);
                    proof { lemma_grows_append(c0, k, s1, self.circuit(), 2); }
                    let ghost s2 = self.circuit();
                    let z3 = self.xor(x, c);
                    proof { lemma_grows_append(c0, k, s2, self.circuit(), 2); }
                    let ghost s3 = self.circuit();
                    let z4 = self.and(z1, z3);
                    proof { lemma_grows_append(c0, k, s3, self.circuit(), 2); }
                    let ghost s4 = self.circuit();
                    let mut carry = self.xor(z4, x);
                    proof { lemma_grows_append(c0, k, s4, self.circuit(), 2); }
                    let ghost s5 = self.circuit();
                    let ghost carry4 = carry;
                    proof {
                        lemma_adder_binary_carry(s0, s1, s2, s3, s4, s5, s4.gates@.last(), x, y, c, z2, carry4);
                    }
                    if carry_modulus != 2 {
                        carry = self.mod_change(carry, carry_modulus);
                        proof {
                            lemma_grows_trans(c0, k, s5, k, self.circuit(), k);
                            lemma_builder_lengths(*self);
                            if carry_modulus >= 2 {
                                lemma_adder_carry_moved(c0, s5, self.circuit(), x, y, opt_c, z2, carry4, carry, carry_modulus);
                            }
                        }
                    }
                    (z2, carry)
                },
                None => {
                    let ghost s0 = self.circuit();
                    let z = self.xor(x, y);
                    proof { lemma_grows_append(c0, k, s0, self.circuit(), 2); }
                    let ghost s1 = self.circuit();
                    let mut carry = self.and(x, y);
                    proof { lemma_grows_append(c0, k, s1, self.circuit(), 2); }
                    let ghost s2 = self.circuit();
                    let ghost carry1 = carry;
                    proof {
                        lemma_adder_binary_plain(s0, s1, s2, s2.gates@.last(), x, y, z, carry1);
                    }
                    if carry_modulus != 2 {
                        carry = self.mod_change(carry, carry_modulus);
                        proof {
                            lemma_grows_trans(c0, k, s2, k, self.circuit(), k);
                            lemma_builder_lengths(*self);
                            if carry_modulus >= 2 {
                                lemma_adder_carry_moved(c0, s2, self.circuit(), x, y, opt_c, z, carry1, carry, carry_modulus);
                            }
                        }
                    }
                    (z, carry)
                },
            }
        } else {
            let ghost s0 = self.circuit();
            let (sum, qp) = match opt_c {
                Some(c) => {
                    let three: [Ref; 3] = [x, y, c];
                    assert(three@ == seq![x, y, c]);
                    let s = self.add_many(&three);
                    (s, 2 * q)
                },
                None => {
                    let s = self.add(x, y);
                    proof { lemma_appends_grows(s0, self.circuit(), self.circuit().gates@.last(), q, k); }
                    (s, 2 * q - 1)
                },
            };
            proof { lemma_grows_trans(c0, k, s0, k, self.circuit(), k); }
            let ghost s1 = self.circuit();
            let xp = self.mod_change(x, qp);
            proof { lemma_grows_trans(c0, k, s1, k, self.circuit(), k); }
            let ghost s2 = self.circuit();
            let yp = self.mod_change(y, qp);
            proof {
                lemma_grows_trans(c0, k, s2, k, self.circuit(), k);
                lemma_grows_index(s2, k, self.circuit(), k, xp as int);
            }
            let ghost s3 = self.circuit();
            let ghost mut s3c = self.circuit();
            let ghost mut cpg: Ref = 0;
            let zp = match opt_c {
                Some(c) => {
                    let cp = self.mod_change(c, qp);
                    proof {
                        lemma_grows_index(s3, k, self.circuit(), k, xp as int);
                        lemma_grows_index(s3, k, self.circuit(), k, yp as int);
                        s3c = self.circuit();
                        cpg = cp;
                    }
                    let ghost s4 = self.circuit();
                    let three: [Ref; 3] = [xp, yp, cp];
                    assert(three@ == seq![xp, yp, cp]);
                    let z = self.add_many(&three);
                    proof { lemma_grows_trans(s3, k, s4, k, self.circuit(), k); }
                    z
                },
                None => {
                    let z = self.add(xp, yp);
                    proof { lemma_appends_grows(s3, self.circuit(), self.circuit().gates@.last(), qp, k); }
                    z
                },
            };
            proof {
                lemma_grows_trans(c0, k, s3, k, self.circuit(), k);
            }
            let mut tt: Vec<u16> = Vec::new();
            let mut v: u16 = 0;
            while v < qp
                invariant
                    v <= qp,
                    tt.len() == v,
                    forall|j: int| 0 <= j < v ==> #[trigger] tt[j] == (if j >= q { 1u16 } else { 0u16 }),
                decreases qp - v,
            {
                tt.push(if v >= q { 1 } else { 0 });
                v += 1;
            }
            let ghost s5 = self.circuit();
            let ghost tt0 = tt@;
            assert(forall|j: int| 0 <= j < qp ==> #[trigger] tt0[j] == (if j >= q { 1u16 } else { 0u16 }));
            let carry = self.proj(zp, carry_modulus, tt);
            proof {
                lemma_grows_append(c0, k, s5, self.circuit(), carry_modulus);
                lemma_grows_index(s1, k, self.circuit(), k, sum as int);
                lemma_builder_lengths(*self);
                assert forall|inputs: Seq<u16>, consts: Seq<u16>|
                    #[trigger] adder_correct(
                        c0.values(inputs, consts),
                        self.circuit().values(inputs, consts),
                        q,
                        x,
                        y,
                        opt_c,
                        (sum, carry),
                    ) by {
                    let v0 = c0.values(inputs, consts);
                    let v1 = s1.values(inputs, consts);
                    let v2 = s2.values(inputs, consts);
                    let v3 = s3.values(inputs, consts);
                    let v3c = s3c.values(inputs, consts);
                    let v5 = s5.values(inputs, consts);
                    let vf = self.circuit().values(inputs, consts);
                    let cin: int = match opt_c {
                        Some(c) => v0[c as int] as int,
                        None => 0,
                    };
                    if q >= 2 && v0[x as int] < q && v0[y as int] < q && 0 <= cin <= 1 {
                        lemma_values_grow(c0, s1, inputs, consts);
                        lemma_values_grow(s1, s2, inputs, consts);
                        lemma_values_grow(s2, s3, inputs, consts);
                        lemma_values_grow(s3, s5, inputs, consts);
                        lemma_values_grow(s5, self.circuit(), inputs, consts);
                        let vx = v0[x as int] as int;
                        let vy = v0[y as int] as int;
                        let total = vx + vy + cin;
                        // the sum digit
                        match opt_c {
                            Some(c) => {
                                reveal_with_fuel(sum_wires, 4);
                                assert(v1[sum as int] == total % (q as int));
                            },
                            None => {
                                lemma_values_append(s0, s1, Gate::Add { xref: x, yref: y }, q, inputs, consts);
                                assert(v1[sum as int] == total % (q as int));
                            },
                        }
                        // the operands carried over to modulus qp
                        vstd::arithmetic::div_mod::lemma_small_mod(vx as nat, qp as nat);
                        vstd::arithmetic::div_mod::lemma_small_mod(vy as nat, qp as nat);
                        assert(v2[xp as int] == vx);
                        assert(v3[yp as int] == vy);
                        // their sum, below qp
                        vstd::arithmetic::div_mod::lemma_small_mod(total as nat, qp as nat);
                        match opt_c {
                            Some(c) => {
                                lemma_values_grow(s3, s3c, inputs, consts);
                                lemma_values_grow(s3c, s5, inputs, consts);
                                vstd::arithmetic::div_mod::lemma_small_mod(cin as nat, qp as nat);
                                assert(v3c[cpg as int] == cin);
                                reveal_with_fuel(sum_wires, 4);
                                assert(v5[zp as int] == total);
                            },
                            None => {
                                lemma_values_append(s3, s5, Gate::Add { xref: xp, yref: yp }, qp, inputs, consts);
                                assert(v5[zp as int] == total);
                            },
                        }
                        // the carry
                        lemma_values_append(s5, self.circuit(), self.circuit().gates@.last(), carry_modulus, inputs, consts);
                        assert(read(v5, zp as int) == total);
                        assert(vf[carry as int] == tt0[total]);
                        assert(total < qp);
                        assert(tt0[total] == (if total >= q { 1u16 } else { 0u16 }));
                        assert(vf[sum as int] == total % (q as int));
                        if total >= q {
                            vstd::arithmetic::div_mod::lemma_fundamental_div_mod_converse(total, q as int, 1, total - q);
                            assert(vf[carry as int] == 1);
                            assert(q * vf[carry as int] == q) by (nonlinear_arith)
                                requires vf[carry as int] == 1;
                        } else {
                            vstd::arithmetic::div_mod::lemma_small_mod(total as nat, q as nat);
                            assert(vf[carry as int] == 0);
                            assert(q * vf[carry as int] == 0) by (nonlinear_arith)
                                requires vf[carry as int] == 0;
                        }
                        assert(vf[sum as int] + q * vf[carry as int] == total);
                    }
                }
            }
            (sum, carry)
        }
    }

    /// Adds the numbers with digits `xs` and `ys` (least significant first;
    /// digit `i` of both has the same modulus): returns the digits of the sum
    /// and the final carry.
    #[verifier::rlimit(50)]
    #[verifier::spinoff_prover]
    pub fn addition(&mut self, xs: &[Ref], ys: &[Ref]) -> (r: (Vec<Ref>, Ref))
        requires
            old(self).wf(),
            xs.len() == ys.len(),
            xs.len() >= 2,
            old(self).circuit().gates.len() + 8 * xs.len() <= usize::MAX,
            forall|i: int| 0 <= i < xs.len() ==> #[trigger] xs[i] < old(self).circuit().gates.len(),
            forall|i: int| 0 <= i < ys.len() ==> #[trigger] ys[i] < old(self).circuit().gates.len(),
            forall|i: int|
                0 <= i < xs.len() ==> old(self).circuit().moduli[#[trigger] xs[i] as int]
                    == old(self).circuit().moduli[ys[i] as int],
            forall|i: int|
                0 <= i < xs.len() ==> adder_ok(
                    old(self).circuit().moduli[#[trigger] xs[i] as int],
                    i > 0,
                    old(self).circuit().moduli[xs[carry_index(i, xs.len() as int)] as int],
                ),
        ensures
            final(self).wf(),
            grows(old(self).circuit(), old(self).consts(), final(self).circuit(), final(self).consts()),
            final(self).consts() == old(self).consts(),
            final(self).circuit().gates.len() <= old(self).circuit().gates.len() + 8 * xs.len(),
            r.0.len() == xs.len(),
            forall|i: int|
                0 <= i < xs.len() ==> #[trigger] r.0[i] < final(self).circuit().gates.len()
                    && final(self).circuit().moduli[r.0[i] as int] == old(self).circuit().moduli[xs[i] as int],
            r.1 < final(self).circuit().gates.len(),
            final(self).circuit().moduli[r.1 as int] == old(self).circuit().moduli[xs[xs.len() - 1] as int],
            forall|inputs: Seq<u16>, consts: Seq<u16>|
                digits_in_range(
                    old(self).circuit().values(inputs, consts),
                    old(self).circuit().moduli@,
                    xs@,
                    ys@,
                    xs.len() as nat,
                ) ==> #[trigger] addition_partial(
                    old(self).circuit().values(inputs, consts),
                    final(self).circuit().values(inputs, consts),
                    old(self).circuit().moduli@,
                    xs@,
                    ys@,
                    r.0@,
                    r.1,
                    xs.len() as nat,
                ),
            circuit_safe(old(self).circuit(), old(self).consts()) && (forall|i: int| 0 <= i < xs.len() ==> adder_safe(#[trigger] old(self).circuit().moduli[xs[i] as int]))
                ==> circuit_safe(final(self).circuit(), final(self).consts()),
    {
        let ghost c0 = self.circuit();
        let ghost k = self.consts();
        let n = xs.len();
        proof {
            lemma_builder_lengths(*self);
            lemma_grows_refl(c0, k);
        }
        let cmod = self.modulus(xs[1]);
        assert(carry_index(0, n as int) == 1);
        let (z0, c0_) = self.adder(xs[0], ys[0], None, cmod);
        let mut z = z0;
        let mut c = c0_;
        let mut bs: Vec<Ref> = vec![z];
        proof {
            lemma_builder_lengths(*self);
            assert(bs@ == seq![z0]);
            assert forall|inputs: Seq<u16>, consts: Seq<u16>|
                digits_in_range(c0.values(inputs, consts), c0.moduli@, xs@, ys@, n as nat)
                implies #[trigger] addition_partial(
                c0.values(inputs, consts),
                self.circuit().values(inputs, consts),
                c0.moduli@,
                xs@,
                ys@,
                bs@,
                c,
                1,
            ) by {
                let v0 = c0.values(inputs, consts);
                let v1 = self.circuit().values(inputs, consts);
                assert(2 <= c0.moduli[xs@[0] as int]);
                assert(2 <= c0.moduli[xs@[1] as int]);
                assert(adder_correct(v0, v1, c0.moduli[xs[0] as int], xs[0], ys[0], None, (z0, c0_)));
                lemma_addition_first(v0, v1, c0.moduli@, xs@, ys@, z0, c0_);
            }
        }
        let mut i: usize = 1;
        while i < n
            invariant
                self.wf(),
                n == xs.len(),
                n == ys.len(),
                1 <= i <= n,
                c0 == old(self).circuit(),
                k == old(self).consts(),
                c0.moduli.len() == c0.gates.len(),
                c0.gates.len() + 8 * n <= usize::MAX,
                forall|j: int| 0 <= j < n ==> #[trigger] xs[j] < c0.gates.len(),
                forall|j: int| 0 <= j < n ==> #[trigger] ys[j] < c0.gates.len(),
                forall|j: int| 0 <= j < n ==> c0.moduli[#[trigger] xs[j] as int] == c0.moduli[ys[j] as int],
                forall|j: int|
                    0 <= j < n ==> adder_ok(
                        c0.moduli[#[trigger] xs[j] as int],
                        j > 0,
                        c0.moduli[xs[carry_index(j, n as int)] as int],
                    ),
                circuit_safe(c0, k) && (forall|j: int| 0 <= j < n ==> adder_safe(#[trigger] c0.moduli[xs[j] as int]))
                    ==> circuit_safe(self.circuit(), self.consts()),
                grows(c0, k, self.circuit(), self.consts()),
                self.consts() == k,
                self.circuit().gates.len() <= c0.gates.len() + 8 * i,
                bs.len() == i,
                forall|j: int|
                    0 <= j < i ==> #[trigger] bs[j] < self.circuit().gates.len()
                        && self.circuit().moduli[bs[j] as int] == c0.moduli[xs[j] as int],
                c < self.circuit().gates.len(),
                self.circuit().moduli[c as int] == c0.moduli[xs[carry_index(i - 1, n as int)] as int],
                forall|inputs: Seq<u16>, consts: Seq<u16>|
                    digits_in_range(c0.values(inputs, consts), c0.moduli@, xs@, ys@, n as nat)
                        ==> #[trigger] addition_partial(
                        c0.values(inputs, consts),
                        self.circuit().values(inputs, consts),
                        c0.moduli@,
                        xs@,
                        ys@,
                        bs@,
                        c,
                        i as nat,
                    ),
            decreases n - i,
        {
            let ghost before = self.circuit();
            let ghost bs_old = bs@;
            let ghost c_old = c;
            let next = if i + 1 < n { xs[i + 1] } else { xs[i] };
            proof {
                lemma_grows_index(c0, k, before, k, xs[i as int] as int);
                lemma_grows_index(c0, k, before, k, ys[i as int] as int);
                lemma_grows_index(c0, k, before, k, next as int);
                assert(carry_index(i - 1, n as int) == i);
            }
            let cmod = self.modulus(next);
            let res = self.adder(xs[i], ys[i], Some(c), cmod);
            z = res.0;
            c = res.1;
            bs.push(z);
            proof {
                lemma_grows_trans(c0, k, before, k, self.circuit(), k);
                assert forall|j: int| 0 <= j < i + 1 implies #[trigger] bs[j] < self.circuit().gates.len()
                    && self.circuit().moduli[bs[j] as int] == c0.moduli[xs[j] as int] by {
                    if j < i {
                        lemma_grows_index(before, k, self.circuit(), k, bs[j] as int);
                    }
                }
            }
            i += 1;
            proof {
                lemma_builder_lengths(*self);
                let ghost iold = (i - 1) as usize;
                assert forall|inputs: Seq<u16>, consts: Seq<u16>|
                    digits_in_range(c0.values(inputs, consts), c0.moduli@, xs@, ys@, n as nat)
                    implies #[trigger] addition_partial(
                    c0.values(inputs, consts),
                    self.circuit().values(inputs, consts),
                    c0.moduli@,
                    xs@,
                    ys@,
                    bs@,
                    c,
                    i as nat,
                ) by {
                    let v0 = c0.values(inputs, consts);
                    let vc = before.values(inputs, consts);
                    let vn = self.circuit().values(inputs, consts);
                    assert(addition_partial(v0, vc, c0.moduli@, xs@, ys@, bs_old, c_old, iold as nat));
                    lemma_values_grow(c0, before, inputs, consts);
                    lemma_values_grow(before, self.circuit(), inputs, consts);
                    assert(2 <= c0.moduli[xs@[iold as int] as int]);
                    assert(2 <= c0.moduli[next as int]);
                    assert(adder_correct(vc, vn, before.moduli[xs[iold as int] as int], xs[iold as int], ys[iold as int], Some(c_old), (z, c)));
                    assert forall|kk: int| 0 <= kk < iold implies #[trigger] vn[bs_old[kk] as int] == vc[bs_old[kk] as int] by {
                        assert(bs_old[kk] == bs@[kk]);
                    }
                    lemma_addition_step(v0, vc, vn, c0.moduli@, xs@, ys@, bs_old, c_old, z, c, iold as nat);
                }
            }
        }
        (bs, c)
    }

    /// Adds the numbers with digits `xs` and `ys` modulo the product of the
    /// digit moduli: like `addition`, but the last digit is a plain sum and no
    /// carry leaves it.
    #[verifier::rlimit(50)]
    #[verifier::spinoff_prover]
    pub fn addition_no_carry(&mut self, xs: &[Ref], ys: &[Ref]) -> (r: Vec<Ref>)
        requires
            old(self).wf(),
            xs.len() == ys.len(),
            xs.len() >= 1,
            old(self).circuit().gates.len() + 8 * xs.len() + 2 <= usize::MAX,
            forall|i: int| 0 <= i < xs.len() ==> #[trigger] xs[i] < old(self).circuit().gates.len(),
            forall|i: int| 0 <= i < ys.len() ==> #[trigger] ys[i] < old(self).circuit().gates.len(),
            forall|i: int|
                0 <= i < xs.len() ==> old(self).circuit().moduli[#[trigger] xs[i] as int]
                    == old(self).circuit().moduli[ys[i] as int],
            forall|i: int|
                0 <= i < xs.len() && (i == 0 || i < xs.len() - 1) ==> adder_ok(
                    old(self).circuit().moduli[#[trigger] xs[i] as int],
                    i > 0,
                    old(self).circuit().moduli[xs[carry_index(i, xs.len() as int)] as int],
                ),
        ensures
            final(self).wf(),
            grows(old(self).circuit(), old(self).consts(), final(self).circuit(), final(self).consts()),
            final(self).consts() == old(self).consts(),
            final(self).circuit().gates.len() <= old(self).circuit().gates.len() + 8 * xs.len() + 2,
            r.len() == (if xs.len() == 1 {
                2
            } else {
                xs.len()
            }),
            forall|i: int|
                0 <= i < r.len() ==> #[trigger] r[i] < final(self).circuit().gates.len()
                    && final(self).circuit().moduli[r[i] as int] == old(self).circuit().moduli[xs[
                    if i < xs.len() {
                        i
                    } else {
                        xs.len() - 1
                    }] as int],
            forall|inputs: Seq<u16>, consts: Seq<u16>|
                digits_in_range(
                    old(self).circuit().values(inputs, consts),
                    old(self).circuit().moduli@,
                    xs@,
                    ys@,
                    xs.len() as nat,
                ) ==> #[trigger] digits_value(
                    final(self).circuit().values(inputs, consts),
                    r@,
                    old(self).circuit().moduli@,
                    xs@,
                    xs.len() as nat,
                ) == (digits_value(
                    old(self).circuit().values(inputs, consts),
                    xs@,
                    old(self).circuit().moduli@,
                    xs@,
                    xs.len() as nat,
                ) + digits_value(
                    old(self).circuit().values(inputs, consts),
                    ys@,
                    old(self).circuit().moduli@,
                    xs@,
                    xs.len() as nat,
                )) % radix_weight(old(self).circuit().moduli@, xs@, xs.len() as nat),
            forall|inputs: Seq<u16>, consts: Seq<u16>, j: int|
                digits_in_range(
                    old(self).circuit().values(inputs, consts),
                    old(self).circuit().moduli@,
                    xs@,
                    ys@,
                    xs.len() as nat,
                ) && 0 <= j < r.len() ==> #[trigger] final(self).circuit().values(inputs, consts)[r[j] as int]
                    < old(self).circuit().moduli[xs[
                    if j < xs.len() {
                        j
                    } else {
                        xs.len() - 1
                    }] as int],
            circuit_safe(old(self).circuit(), old(self).consts()) && (forall|i: int| 0 <= i < xs.len() ==> adder_safe(#[trigger] old(self).circuit().moduli[xs[i] as int]))
                ==> circuit_safe(final(self).circuit(), final(self).consts()),
    {
        let ghost c0 = self.circuit();
        let ghost k = self.consts();
        let n = xs.len();
        proof {
            lemma_builder_lengths(*self);
            lemma_grows_refl(c0, k);
        }
        let first_carry = if 1 < n { xs[1] } else { xs[0] };
        let cmod = self.modulus(first_carry);
        let (z0, c0_) = self.adder(xs[0], ys[0], None, cmod);
        let mut z = z0;
        let mut c = c0_;
        let mut bs: Vec<Ref> = vec![z];
        let ghost c1 = self.circuit();
        proof {
            lemma_builder_lengths(*self);
            assert(bs@ == seq![z0]);
            assert forall|inputs: Seq<u16>, consts: Seq<u16>|
                digits_in_range(c0.values(inputs, consts), c0.moduli@, xs@, ys@, n as nat)
                implies #[trigger] addition_partial(
                c0.values(inputs, consts),
                self.circuit().values(inputs, consts),
                c0.moduli@,
                xs@,
                ys@,
                bs@,
                c,
                1,
            ) by {
                let v0 = c0.values(inputs, consts);
                let v1 = self.circuit().values(inputs, consts);
                assert(2 <= c0.moduli[xs@[0] as int]);
                assert(2 <= c0.moduli[first_carry as int]);
                assert(adder_correct(v0, v1, c0.moduli[xs[0] as int], xs[0], ys[0], None, (z0, c0_)));
                lemma_addition_first(v0, v1, c0.moduli@, xs@, ys@, z0, c0_);
            }
        }
        let mut i: usize = 1;
        while i < n - 1
            invariant
                self.wf(),
                n == xs.len(),
                n == ys.len(),
                n >= 1,
                1 <= i <= n,
                i <= n - 1 || n == 1,
                c0 == old(self).circuit(),
                k == old(self).consts(),
                c0.moduli.len() == c0.gates.len(),
                c0.gates.len() + 8 * n + 2 <= usize::MAX,
                forall|j: int| 0 <= j < n ==> #[trigger] xs[j] < c0.gates.len(),
                forall|j: int| 0 <= j < n ==> #[trigger] ys[j] < c0.gates.len(),
                forall|j: int| 0 <= j < n ==> c0.moduli[#[trigger] xs[j] as int] == c0.moduli[ys[j] as int],
                forall|j: int|
                    0 <= j < n && (j == 0 || j < n - 1) ==> adder_ok(
                        c0.moduli[#[trigger] xs[j] as int],
                        j > 0,
                        c0.moduli[xs[carry_index(j, n as int)] as int],
                    ),
                circuit_safe(c0, k) && (forall|j: int| 0 <= j < n ==> adder_safe(#[trigger] c0.moduli[xs[j] as int]))
                    ==> circuit_safe(self.circuit(), self.consts()),
                grows(c0, k, self.circuit(), self.consts()),
                self.consts() == k,
                self.circuit().gates.len() <= c0.gates.len() + 8 * i,
                bs.len() == i,
                forall|j: int|
                    0 <= j < i ==> #[trigger] bs[j] < self.circuit().gates.len()
                        && self.circuit().moduli[bs[j] as int] == c0.moduli[xs[j] as int],
                c < self.circuit().gates.len(),
                self.circuit().moduli[c as int] == c0.moduli[xs[carry_index(i - 1, n as int)] as int],
                forall|inputs: Seq<u16>, consts: Seq<u16>|
                    digits_in_range(c0.values(inputs, consts), c0.moduli@, xs@, ys@, n as nat)
                        ==> #[trigger] addition_partial(
                        c0.values(inputs, consts),
                        self.circuit().values(inputs, consts),
                        c0.moduli@,
                        xs@,
                        ys@,
                        bs@,
                        c,
                        i as nat,
                    ),
                n == 1 ==> self.circuit() == c1 && bs@ == seq![z0],
            decreases n - i,
        {
            let ghost before = self.circuit();
            let ghost bs_old = bs@;
            let ghost c_old = c;
            let next = if i + 1 < n { xs[i + 1] } else { xs[i] };
            proof {
                lemma_grows_index(c0, k, before, k, xs[i as int] as int);
                lemma_grows_index(c0, k, before, k, ys[i as int] as int);
                lemma_grows_index(c0, k, before, k, next as int);
                assert(carry_index(i - 1, n as int) == i);
            }
            let cmod = self.modulus(next);
            let res = self.adder(xs[i], ys[i], Some(c), cmod);
            z = res.0;
            c = res.1;
            bs.push(z);
            proof {
                lemma_grows_trans(c0, k, before, k, self.circuit(), k);
                assert forall|j: int| 0 <= j < i + 1 implies #[trigger] bs[j] < self.circuit().gates.len()
                    && self.circuit().moduli[bs[j] as int] == c0.moduli[xs[j] as int] by {
                    if j < i {
                        lemma_grows_index(before, k, self.circuit(), k, bs[j] as int);
                    }
                }
            }
            i += 1;
            proof {
                lemma_builder_lengths(*self);
                let ghost iold = (i - 1) as usize;
                assert forall|inputs: Seq<u16>, consts: Seq<u16>|
                    digits_in_range(c0.values(inputs, consts), c0.moduli@, xs@, ys@, n as nat)
                    implies #[trigger] addition_partial(
                    c0.values(inputs, consts),
                    self.circuit().values(inputs, consts),
                    c0.moduli@,
                    xs@,
                    ys@,
                    bs@,
                    c,
                    i as nat,
                ) by {
                    let v0 = c0.values(inputs, consts);
                    let vc = before.values(inputs, consts);
                    let vn = self.circuit().values(inputs, consts);
                    assert(addition_partial(v0, vc, c0.moduli@, xs@, ys@, bs_old, c_old, iold as nat));
                    lemma_values_grow(c0, before, inputs, consts);
                    lemma_values_grow(before, self.circuit(), inputs, consts);
                    assert(2 <= c0.moduli[xs@[iold as int] as int]);
                    assert(2 <= c0.moduli[next as int]);
                    assert(adder_correct(vc, vn, before.moduli[xs[iold as int] as int], xs[iold as int], ys[iold as int], Some(c_old), (z, c)));
                    assert forall|kk: int| 0 <= kk < iold implies #[trigger] vn[bs_old[kk] as int] == vc[bs_old[kk] as int] by {
                        assert(bs_old[kk] == bs@[kk]);
                    }
                    lemma_addition_step(v0, vc, vn, c0.moduli@, xs@, ys@, bs_old, c_old, z, c, iold as nat);
                }
            }
        }
        let ghost before = self.circuit();
        let ghost bs_old = bs@;
        let last_x = xs[n - 1];
        let last_y = ys[n - 1];
        proof {
            lemma_grows_index(c0, k, before, k, last_x as int);
            lemma_grows_index(c0, k, before, k, last_y as int);
            assert(carry_index(i - 1, n as int) == n - 1);
        }
        let three: [Ref; 3] = [last_x, last_y, c];
        assert(three@ == seq![last_x, last_y, c]);
        assert(before.moduli[last_x as int] == c0.moduli[xs[n - 1] as int]);
        assert(before.moduli[last_y as int] == c0.moduli[xs[n - 1] as int]);
        z = self.add_many(&three);
        bs.push(z);
        proof {
            lemma_grows_trans(c0, k, before, k, self.circuit(), k);
            assert forall|j: int| 0 <= j < bs.len() implies #[trigger] bs[j] < self.circuit().gates.len()
                && self.circuit().moduli[bs[j] as int] == c0.moduli[xs[
                if j < n {
                    j
                } else {
                    n - 1
                }] as int] by {
                if j < bs.len() - 1 {
                    lemma_grows_index(before, k, self.circuit(), k, bs[j] as int);
                }
            }
            lemma_builder_lengths(*self);
            let q = c0.moduli[xs@[n - 1] as int];
            assert forall|inputs: Seq<u16>, consts: Seq<u16>|
                digits_in_range(c0.values(inputs, consts), c0.moduli@, xs@, ys@, n as nat)
                implies #[trigger] digits_value(
                self.circuit().values(inputs, consts),
                bs@,
                c0.moduli@,
                xs@,
                n as nat,
            ) == (digits_value(c0.values(inputs, consts), xs@, c0.moduli@, xs@, n as nat)
                + digits_value(c0.values(inputs, consts), ys@, c0.moduli@, xs@, n as nat))
                % radix_weight(c0.moduli@, xs@, n as nat) by {
                let v0 = c0.values(inputs, consts);
                let vc = before.values(inputs, consts);
                let vn = self.circuit().values(inputs, consts);
                assert(addition_partial(v0, vc, c0.moduli@, xs@, ys@, bs_old, c, i as nat));
                lemma_values_grow(c0, before, inputs, consts);
                lemma_values_grow(before, self.circuit(), inputs, consts);
                assert(2 <= q);
                if n == 1 {
                    let x0 = v0[xs@[0] as int] as int;
                    let y0 = v0[ys@[0] as int] as int;
                    assert(bs@[0] == z0);
                    assert(vn[z0 as int] == vc[z0 as int]);
                    reveal_with_fuel(radix_weight, 2);
                    reveal_with_fuel(digits_value, 2);
                    assert(radix_weight(c0.moduli@, xs@, 0) == 1);
                    assert(radix_weight(c0.moduli@, xs@, 1) == q);
                    assert(bs_old == seq![z0]);
                    assert(bs_old[0] == z0);
                    lemma_digits_value_one(vc, bs_old, c0.moduli@, xs@);
                    lemma_digits_value_one(v0, xs@, c0.moduli@, xs@);
                    lemma_digits_value_one(v0, ys@, c0.moduli@, xs@);
                    lemma_digits_value_one(vn, bs@, c0.moduli@, xs@);
                    assert(digits_value(vc, bs_old, c0.moduli@, xs@, 0) == 0);
                    assert(digits_value(v0, xs@, c0.moduli@, xs@, 0) == 0);
                    assert(digits_value(v0, ys@, c0.moduli@, xs@, 0) == 0);
                    assert(vc[z0 as int] + vc[c as int] * q == x0 + y0);
                    vstd::arithmetic::div_mod::lemma_fundamental_div_mod_converse(
                        x0 + y0,
                        q as int,
                        vc[c as int] as int,
                        vc[z0 as int] as int,
                    );
                } else {
                    reveal_with_fuel(sum_wires, 4);
                    assert(vn[z as int] == (vc[last_x as int] + vc[last_y as int] + vc[c as int]) % (q as int));
                    assert forall|kk: int| 0 <= kk < n - 1 implies #[trigger] vn[bs_old[kk] as int] == vc[bs_old[kk] as int] by {}
                    assert(i == n - 1);
                    assert(bs@ == bs_old.push(z));
                    assert(vc[last_x as int] == v0[xs@[n - 1] as int]);
                    assert(vc[last_y as int] == v0[ys@[n - 1] as int]);
                    lemma_addition_last(v0, vc, vn, c0.moduli@, xs@, ys@, bs_old, c, z, n as nat);
                }
            }
            assert forall|inputs: Seq<u16>, consts: Seq<u16>, j: int|
                digits_in_range(c0.values(inputs, consts), c0.moduli@, xs@, ys@, n as nat) && 0 <= j < bs.len()
                implies #[trigger] self.circuit().values(inputs, consts)[bs@[j] as int] < c0.moduli[xs@[
                if j < n {
                    j
                } else {
                    n - 1
                }] as int] by {
                let v0 = c0.values(inputs, consts);
                let vc = before.values(inputs, consts);
                let vn = self.circuit().values(inputs, consts);
                assert(addition_partial(v0, vc, c0.moduli@, xs@, ys@, bs_old, c, i as nat));
                lemma_values_grow(before, self.circuit(), inputs, consts);
                assert(2 <= q);
                reveal_with_fuel(sum_wires, 4);
                assert(vn[z as int] == (vc[last_x as int] + vc[last_y as int] + vc[c as int]) % (q as int));
                if j < bs_old.len() {
                    assert(bs@[j] == bs_old[j]);
                    assert(vc[bs_old[j] as int] < c0.moduli[xs@[j] as int]);
                } else {
                    assert(bs@[j] == z);
                }
            }
        }
        bs
    }

    /// The two's complement of the bits `xs` (least significant first): the
    /// negated bits plus one, without a carry out.
    pub fn twos_complement(&mut self, xs: &[Ref]) -> (r: Vec<Ref>)
        requires
            old(self).wf(),
            xs.len() >= 1,
            old(self).circuit().gates.len() + 9 * xs.len() + 4 <= usize::MAX,
            forall|i: int| 0 <= i < xs.len() ==> #[trigger] xs[i] < old(self).circuit().gates.len(),
            forall|i: int| 0 <= i < xs.len() ==> old(self).circuit().moduli[#[trigger] xs[i] as int] == 2,
        ensures
            final(self).wf(),
            grows(old(self).circuit(), old(self).consts(), final(self).circuit(), final(self).consts()),
            final(self).circuit().gates.len() <= old(self).circuit().gates.len() + 9 * xs.len() + 4,
            r.len() == (if xs.len() == 1 {
                2
            } else {
                xs.len()
            }),
            forall|i: int|
                0 <= i < r.len() ==> #[trigger] r[i] < final(self).circuit().gates.len()
                    && final(self).circuit().moduli[r[i] as int] == 2,
            forall|inputs: Seq<u16>, consts: Seq<u16>|
                final(self).consts().is_prefix_of(consts) && all_bits(old(self).circuit().values(inputs, consts), xs@)
                    ==> #[trigger] bits_value(final(self).circuit().values(inputs, consts), r@, xs.len() as nat)
                    == (pow2(xs.len() as nat) - bits_value(old(self).circuit().values(inputs, consts), xs@, xs.len() as nat))
                    % (pow2(xs.len() as nat) as int),
            forall|inputs: Seq<u16>, consts: Seq<u16>|
                final(self).consts().is_prefix_of(consts) && all_bits(old(self).circuit().values(inputs, consts), xs@)
                    ==> #[trigger] all_bits(final(self).circuit().values(inputs, consts), r@),
            circuit_safe(old(self).circuit(), old(self).consts()) ==> circuit_safe(final(self).circuit(), final(self).consts()),
    {
        let ghost c0 = self.circuit();
        let ghost k0 = self.consts();
        let n = xs.len();
        proof {
            lemma_builder_lengths(*self);
            lemma_grows_refl(c0, k0);
        }
        let mut not_xs: Vec<Ref> = Vec::new();
        let mut i: usize = 0;
        while i < n
            invariant
                self.wf(),
                n == xs.len(),
                i <= n,
                c0 == old(self).circuit(),
                k0 == old(self).consts(),
                c0.moduli.len() == c0.gates.len(),
                c0.gates.len() + 9 * n + 4 <= usize::MAX,
                forall|j: int| 0 <= j < n ==> #[trigger] xs[j] < c0.gates.len(),
                forall|j: int| 0 <= j < n ==> c0.moduli[#[trigger] xs[j] as int] == 2,
                circuit_safe(c0, k0) ==> circuit_safe(self.circuit(), self.consts()),
                grows(c0, k0, self.circuit(), self.consts()),
                self.consts() == k0,
                self.circuit().gates.len() == c0.gates.len() + i,
                not_xs.len() == i,
                forall|j: int|
                    0 <= j < i ==> #[trigger] not_xs[j] < self.circuit().gates.len()
                        && self.circuit().moduli[not_xs[j] as int] == 2,
                forall|j: int|
                    0 <= j < i ==> c0.gates.len() <= #[trigger] not_xs[j] && is_negation_wire(
                        self.circuit(),
                        not_xs[j] as int,
                        xs[j],
                    ),
            decreases n - i,
        {
            let ghost before = self.circuit();
            let ghost ct = self.num_ciphertexts();
            proof {
                lemma_grows_index(c0, k0, before, k0, xs[i as int] as int);
            }
            let w = self.negate(xs[i]);
            not_xs.push(w);
            proof {
                lemma_appends_proj_grows(before, self.circuit(), xs[i as int], seq![1u16, 0u16], ct, 2, k0);
                lemma_grows_trans(c0, k0, before, k0, self.circuit(), k0);
                assert(self.circuit().gates@[w as int] == self.circuit().gates@.last());
                assert forall|j: int| 0 <= j < i + 1 implies #[trigger] not_xs[j] < self.circuit().gates.len()
                    && self.circuit().moduli[not_xs[j] as int] == 2 by {
                    if j < i {
                        lemma_grows_index(before, k0, self.circuit(), k0, not_xs[j] as int);
                    }
                }
                assert forall|j: int| 0 <= j < i + 1 implies c0.gates.len() <= #[trigger] not_xs[j]
                    && is_negation_wire(self.circuit(), not_xs[j] as int, xs[j]) by {
                    if j < i {
                        lemma_grows_index(before, k0, self.circuit(), k0, not_xs[j] as int);
                    }
                }
            }
            i += 1;
        }
        let ghost c1 = self.circuit();
        let ghost k1 = self.consts();
        let zero = self.constant(0, 2);
        let ghost c2 = self.circuit();
        let ghost k2 = self.consts();
        let mut const1: Vec<Ref> = vec![zero; n];
        let one = self.constant(1, 2);
        proof {
            lemma_grows_trans(c0, k0, c1, k1, c2, k2);
            lemma_grows_trans(c0, k0, c2, k2, self.circuit(), self.consts());
            lemma_grows_index(c2, k2, self.circuit(), self.consts(), zero as int);
            assert forall|j: int| 0 <= j < n implies #[trigger] not_xs[j] < self.circuit().gates.len()
                && self.circuit().moduli[not_xs[j] as int] == 2 by {
                lemma_grows_index(c1, k1, c2, k2, not_xs[j] as int);
                lemma_grows_index(c2, k2, self.circuit(), self.consts(), not_xs[j] as int);
            }
        }
        const1.set(0, one);
        assert forall|j: int| 0 <= j < n implies #[trigger] const1[j] < self.circuit().gates.len()
            && self.circuit().moduli[const1[j] as int] == 2 by {
            if j != 0 {
                assert(const1[j] == zero);
            }
        }
        let ghost c3 = self.circuit();
        let ghost k3 = self.consts();
        proof {
            lemma_const_wire_grows(c2, k2, c3, k3, zero as int, 0, 2);
            assert forall|j: int| 0 <= j < n implies c0.gates.len() <= #[trigger] not_xs@[j]
                && is_negation_wire(c3, not_xs@[j] as int, xs@[j]) by {
                lemma_grows_index(c1, k1, c2, k2, not_xs@[j] as int);
                lemma_grows_index(c2, k2, c3, k3, not_xs@[j] as int);
            }
        }
        let r = self.addition_no_carry(not_xs.as_slice(), const1.as_slice());
        proof {
            lemma_grows_trans(c0, k0, c3, k3, self.circuit(), self.consts());
            assert forall|inputs: Seq<u16>, consts: Seq<u16>|
                self.consts().is_prefix_of(consts) && all_bits(c0.values(inputs, consts), xs@)
                implies digits_in_range(c3.values(inputs, consts), c3.moduli@, not_xs@, const1@, n as nat)
                && bits_value(c3.values(inputs, consts), not_xs@, n as nat) == pow2(n as nat) - 1 - bits_value(
                c0.values(inputs, consts),
                xs@,
                n as nat,
            ) && bits_value(c3.values(inputs, consts), const1@, n as nat) == 1 by {
                let v0 = c0.values(inputs, consts);
                let v3 = c3.values(inputs, consts);
                lemma_values_grow(c0, c3, inputs, consts);
                lemma_const_wire_value(c3, k3, one as int, 1, 2, inputs, consts);
                lemma_const_wire_value(c3, k3, zero as int, 0, 2, inputs, consts);
                assert forall|j: int| 0 <= j < n implies v0[#[trigger] xs@[j] as int] <= 1 && v3[not_xs@[j] as int]
                    == 1 - v0[xs@[j] as int] by {
                    assert(c0.gates.len() <= not_xs@[j]);
                    assert(is_negation_wire(c3, not_xs@[j] as int, xs@[j]));
                    assert(v3[xs@[j] as int] == v0[xs@[j] as int]);
                    lemma_negation_wire_value(c3, not_xs@[j] as int, xs@[j], inputs, consts);
                }
                lemma_bits_complement(v0, xs@, v3, not_xs@, n as nat);
                assert forall|j: int| 1 <= j < n implies v3[#[trigger] const1@[j] as int] == 0 by {
                    assert(const1@[j] == zero);
                }
                lemma_bits_one(v3, const1@, n as nat);
                assert forall|j: int| 0 <= j < n implies 2 <= #[trigger] c3.moduli[not_xs@[j] as int]
                    && v3[not_xs@[j] as int] < c3.moduli[not_xs@[j] as int] && v3[const1@[j] as int]
                    < c3.moduli[not_xs@[j] as int] by {
                    assert(v0[xs@[j] as int] <= 1);
                    if j > 0 {
                        assert(const1@[j] == zero);
                    }
                }
            }
            assert forall|inputs: Seq<u16>, consts: Seq<u16>|
                self.consts().is_prefix_of(consts) && all_bits(c0.values(inputs, consts), xs@)
                implies #[trigger] bits_value(self.circuit().values(inputs, consts), r@, n as nat) == (pow2(
                n as nat,
            ) - bits_value(c0.values(inputs, consts), xs@, n as nat)) % (pow2(n as nat) as int) by {
                let v3 = c3.values(inputs, consts);
                let vf = self.circuit().values(inputs, consts);
                assert(digits_in_range(v3, c3.moduli@, not_xs@, const1@, n as nat));
                lemma_binary_digits(vf, r@, c3.moduli@, not_xs@, n as nat);
                lemma_binary_digits(v3, not_xs@, c3.moduli@, not_xs@, n as nat);
                lemma_binary_digits(v3, const1@, c3.moduli@, not_xs@, n as nat);
            }
            assert forall|inputs: Seq<u16>, consts: Seq<u16>|
                self.consts().is_prefix_of(consts) && all_bits(c0.values(inputs, consts), xs@)
                implies #[trigger] all_bits(self.circuit().values(inputs, consts), r@) by {
                let v3 = c3.values(inputs, consts);
                let vf = self.circuit().values(inputs, consts);
                assert(digits_in_range(v3, c3.moduli@, not_xs@, const1@, n as nat));
                assert forall|j: int| 0 <= j < r.len() implies #[trigger] vf[r@[j] as int] <= 1 by {
                    let m = if j < n { j } else { n - 1 };
                    assert(c3.moduli[not_xs@[m] as int] == 2);
                    assert(vf[r@[j] as int] < c3.moduli[not_xs@[m] as int]);
                }
            }
        }
        r
    }

    /// A wire that carries 1 exactly when one of the bits `ys` is set: the
    /// bits ORed together one after the other, `a | b` being built as
    /// `(a ^ b) ^ (a & b)`.
    fn any_bit(&mut self, ys: &[Ref]) -> (r: Ref)
        requires
            old(self).wf(),
            ys.len() >= 1,
            old(self).circuit().gates.len() + 3 * ys.len() <= usize::MAX,
            forall|i: int| 0 <= i < ys.len() ==> #[trigger] ys[i] < old(self).circuit().gates.len(),
            forall|i: int| 0 <= i < ys.len() ==> old(self).circuit().moduli[#[trigger] ys[i] as int] == 2,
        ensures
            final(self).wf(),
            grows(old(self).circuit(), old(self).consts(), final(self).circuit(), final(self).consts()),
            final(self).consts() == old(self).consts(),
            final(self).circuit().gates.len() <= old(self).circuit().gates.len() + 3 * ys.len(),
            r < final(self).circuit().gates.len(),
            final(self).circuit().moduli[r as int] == 2,
            forall|inputs: Seq<u16>, consts: Seq<u16>|
                all_bits(old(self).circuit().values(inputs, consts), ys@)
                    ==> #[trigger] final(self).circuit().values(inputs, consts)[r as int] == or_of(
                    old(self).circuit().values(inputs, consts),
                    ys@,
                ),
            circuit_safe(old(self).circuit(), old(self).consts()) ==> circuit_safe(final(self).circuit(), final(self).consts()),
    {
        let ghost c0 = self.circuit();
        let ghost k0 = self.consts();
        let n = ys.len();
        proof {
            lemma_builder_lengths(*self);
            lemma_grows_refl(c0, k0);
            assert forall|inputs: Seq<u16>, consts: Seq<u16>|
                all_bits(c0.values(inputs, consts), ys@)
                implies #[trigger] self.circuit().values(inputs, consts)[ys@[0] as int] == or_of(
                c0.values(inputs, consts),
                ys@.take(1),
            ) by {
                let v0 = c0.values(inputs, consts);
                assert(ys@.take(1)[0] == ys@[0]);
                assert(v0[ys@[0] as int] <= 1);
            }
        }
        let mut nz = ys[0];
        let mut i: usize = 1;
        while i < n
            invariant
                self.wf(),
                n == ys.len(),
                1 <= i <= n,
                c0 == old(self).circuit(),
                k0 == old(self).consts(),
                c0.moduli.len() == c0.gates.len(),
                c0.gates.len() + 3 * n <= usize::MAX,
                forall|j: int| 0 <= j < n ==> #[trigger] ys[j] < c0.gates.len(),
                forall|j: int| 0 <= j < n ==> c0.moduli[#[trigger] ys[j] as int] == 2,
                circuit_safe(c0, k0) ==> circuit_safe(self.circuit(), self.consts()),
                grows(c0, k0, self.circuit(), self.consts()),
                self.consts() == k0,
                self.circuit().gates.len() <= c0.gates.len() + 3 * (i - 1),
                nz < self.circuit().gates.len(),
                self.circuit().moduli[nz as int] == 2,
                forall|inputs: Seq<u16>, consts: Seq<u16>|
                    all_bits(c0.values(inputs, consts), ys@) ==> #[trigger] self.circuit().values(
                        inputs,
                        consts,
                    )[nz as int] == or_of(c0.values(inputs, consts), ys@.take(i as int)),
            decreases n - i,
        {
            let ghost before = self.circuit();
            let ghost nz0 = nz;
            let y = ys[i];
            proof {
                lemma_grows_index(c0, k0, before, k0, y as int);
            }
            let x1 = self.xor(nz, y);
            let ghost ca = self.circuit();
            let a1 = self.and(nz, y);
            let ghost cb = self.circuit();
            nz = self.xor(x1, a1);
            proof {
                lemma_builder_lengths(*self);
                lemma_appends_grows(before, ca, ca.gates@.last(), 2, k0);
                lemma_appends_grows(ca, cb, cb.gates@.last(), 2, k0);
                lemma_appends_grows(cb, self.circuit(), self.circuit().gates@.last(), 2, k0);
                lemma_grows_trans(c0, k0, before, k0, ca, k0);
                lemma_grows_trans(c0, k0, ca, k0, cb, k0);
                lemma_grows_trans(c0, k0, cb, k0, self.circuit(), k0);
                assert forall|inputs: Seq<u16>, consts: Seq<u16>|
                    all_bits(c0.values(inputs, consts), ys@)
                    implies #[trigger] self.circuit().values(inputs, consts)[nz as int] == or_of(
                    c0.values(inputs, consts),
                    ys@.take(i + 1),
                ) by {
                    let v0 = c0.values(inputs, consts);
                    let v = before.values(inputs, consts);
                    lemma_values_grow(c0, before, inputs, consts);
                    lemma_values_append(before, ca, ca.gates@.last(), 2, inputs, consts);
                    lemma_values_append(ca, cb, cb.gates@.last(), 2, inputs, consts);
                    lemma_values_append(cb, self.circuit(), self.circuit().gates@.last(), 2, inputs, consts);
                    let a = v[nz0 as int];
                    let b = v[y as int];
                    assert(b == v0[ys@[i as int] as int]);
                    assert(b <= 1);
                    assert(a == or_of(v0, ys@.take(i as int)));
                    let vc = self.circuit().values(inputs, consts);
                    assert(vc[nz as int] == (((a + b) % 2) as u16 + ((a * b) % 2) as u16) % 2);
                    assert((((a + b) % 2) as u16 + ((a * b) % 2) as u16) % 2 == (if a == 0 && b == 0 {
                        0int
                    } else {
                        1int
                    })) by (nonlinear_arith)
                        requires
                            a <= 1,
                            b <= 1,
                    ;
                    let t1 = ys@.take(i as int);
                    let t2 = ys@.take(i + 1);
                    assert forall|k: int| 0 <= k < i implies #[trigger] t2[k] == t1[k] by {}
                    assert(t2[i as int] == ys@[i as int]);
                    if a == 0 && b == 0 {
                        assert forall|k: int| 0 <= k < t2.len() implies #[trigger] v0[t2[k] as int] == 0 by {
                            if k < i {
                                assert(v0[t1[k] as int] == 0);
                            }
                        }
                    } else if a != 0 {
                        let k = choose|k: int| 0 <= k < t1.len() && #[trigger] v0[t1[k] as int] != 0;
                        assert(v0[t2[k] as int] != 0);
                    } else {
                        assert(v0[t2[i as int] as int] != 0);
                    }
                }
            }
            i += 1;
        }
        proof {
            assert(ys@.take(n as int) == ys@);
        }
        nz
    }

    /// Subtracts the numbers with bits `xs` and `ys` (least significant
    /// first) modulo `2^n`: adds the two's complement of `ys` to `xs`; the
    /// returned borrow bit, set when `ys` exceeds `xs`, is the negated carry
    /// of that addition, cleared when `ys` is 0 (whose two's complement is 0
    /// and leaves no carry).
    pub fn binary_subtraction(&mut self, xs: &[Ref], ys: &[Ref]) -> (r: (Vec<Ref>, Ref))
        requires
            old(self).wf(),
            xs.len() == ys.len(),
            xs.len() >= 2,
            old(self).circuit().gates.len() + 20 * xs.len() + 6 <= usize::MAX,
            forall|i: int| 0 <= i < xs.len() ==> #[trigger] xs[i] < old(self).circuit().gates.len(),
            forall|i: int| 0 <= i < ys.len() ==> #[trigger] ys[i] < old(self).circuit().gates.len(),
            forall|i: int| 0 <= i < xs.len() ==> old(self).circuit().moduli[#[trigger] xs[i] as int] == 2,
            forall|i: int| 0 <= i < ys.len() ==> old(self).circuit().moduli[#[trigger] ys[i] as int] == 2,
        ensures
            final(self).wf(),
            grows(old(self).circuit(), old(self).consts(), final(self).circuit(), final(self).consts()),
            final(self).circuit().gates.len() <= old(self).circuit().gates.len() + 20 * xs.len() + 6,
            r.0.len() == xs.len(),
            forall|i: int|
                0 <= i < xs.len() ==> #[trigger] r.0[i] < final(self).circuit().gates.len()
                    && final(self).circuit().moduli[r.0[i] as int] == 2,
            r.1 < final(self).circuit().gates.len(),
            final(self).circuit().moduli[r.1 as int] == 2,
            forall|inputs: Seq<u16>, consts: Seq<u16>|
                final(self).consts().is_prefix_of(consts) && all_bits(old(self).circuit().values(inputs, consts), xs@)
                    && all_bits(old(self).circuit().values(inputs, consts), ys@)
                    ==> #[trigger] bits_value(final(self).circuit().values(inputs, consts), r.0@, xs.len() as nat)
                    == (bits_value(old(self).circuit().values(inputs, consts), xs@, xs.len() as nat)
                    - bits_value(old(self).circuit().values(inputs, consts), ys@, xs.len() as nat))
                    % (pow2(xs.len() as nat) as int),
            forall|inputs: Seq<u16>, consts: Seq<u16>|
                final(self).consts().is_prefix_of(consts) && all_bits(old(self).circuit().values(inputs, consts), xs@)
                    && all_bits(old(self).circuit().values(inputs, consts), ys@)
                    ==> #[trigger] final(self).circuit().values(inputs, consts)[r.1 as int] == borrow_bit(
                    bits_value(old(self).circuit().values(inputs, consts), xs@, xs.len() as nat),
                    bits_value(old(self).circuit().values(inputs, consts), ys@, xs.len() as nat),
                ),
            circuit_safe(old(self).circuit(), old(self).consts()) ==> circuit_safe(final(self).circuit(), final(self).consts()),
    {
        let ghost c0 = self.circuit();
        let ghost k0 = self.consts();
        proof {
            lemma_builder_lengths(*self);
        }
        let neg_ys = self.twos_complement(ys);
        let ghost c1 = self.circuit();
        let ghost k1 = self.consts();
        proof {
            assert forall|i: int| 0 <= i < xs.len() implies #[trigger] xs[i] < c1.gates.len()
                && c1.moduli[xs[i] as int] == 2 by {
                lemma_grows_index(c0, k0, c1, k1, xs[i] as int);
            }
        }
        let (zs, c) = self.addition(xs, neg_ys.as_slice());
        let ghost c2 = self.circuit();
        let ghost k2 = self.consts();
        let ghost ct = self.num_ciphertexts();
        let nc = self.negate(c);
        let ghost c3 = self.circuit();
        let ghost k3 = self.consts();
        let n = xs.len();
        proof {
            lemma_appends_proj_grows(c2, c3, c, seq![1u16, 0u16], ct, 2, k2);
            lemma_grows_trans(c0, k0, c1, k1, c2, k2);
            lemma_grows_trans(c0, k0, c2, k2, c3, k3);
            assert forall|i: int| 0 <= i < n implies #[trigger] ys[i] < c3.gates.len()
                && c3.moduli[ys[i] as int] == 2 by {
                lemma_grows_index(c0, k0, c3, k3, ys[i] as int);
            }
            assert forall|inputs: Seq<u16>, consts: Seq<u16>|
                k3.is_prefix_of(consts) && all_bits(c0.values(inputs, consts), xs@) && all_bits(
                    c0.values(inputs, consts),
                    ys@,
                ) implies bits_value(c3.values(inputs, consts), zs@, n as nat) == (bits_value(
                c0.values(inputs, consts),
                xs@,
                n as nat,
            ) - bits_value(c0.values(inputs, consts), ys@, n as nat)) % (pow2(n as nat) as int)
                && c3.values(inputs, consts)[nc as int] == (if bits_value(c0.values(inputs, consts), xs@, n as nat)
                < bits_value(c0.values(inputs, consts), ys@, n as nat) || bits_value(
                c0.values(inputs, consts),
                ys@,
                n as nat,
            ) == 0 {
                1int
            } else {
                0int
            }) by {
                let nn = n as nat;
                let v0 = c0.values(inputs, consts);
                let v1 = c1.values(inputs, consts);
                let v2 = c2.values(inputs, consts);
                let v3 = c3.values(inputs, consts);
                let p = pow2(nn) as int;
                let dx = bits_value(v0, xs@, nn);
                let dy = bits_value(v0, ys@, nn);
                assert(all_bits(v1, neg_ys@));
                let t = bits_value(v1, neg_ys@, nn);
                assert(t == (p - dy) % p);
                lemma_values_grow(c0, c1, inputs, consts);
                lemma_values_grow(c2, c3, inputs, consts);
                assert forall|j: int| 0 <= j < nn implies 2 <= #[trigger] c1.moduli[xs@[j] as int]
                    && v1[xs@[j] as int] < c1.moduli[xs@[j] as int] && v1[neg_ys@[j] as int]
                    < c1.moduli[xs@[j] as int] by {
                    lemma_grows_index(c0, k0, c1, k1, xs@[j] as int);
                    assert(v0[xs@[j] as int] <= 1);
                    assert(v1[neg_ys@[j] as int] <= 1);
                }
                assert(addition_partial(v1, v2, c1.moduli@, xs@, neg_ys@, zs@, c, nn));
                assert forall|j: int| 0 <= j < nn implies c1.moduli[#[trigger] xs@[j] as int] == 2 by {
                    lemma_grows_index(c0, k0, c1, k1, xs@[j] as int);
                }
                lemma_binary_digits(v2, zs@, c1.moduli@, xs@, nn);
                lemma_binary_digits(v1, xs@, c1.moduli@, xs@, nn);
                lemma_binary_digits(v1, neg_ys@, c1.moduli@, xs@, nn);
                let z = bits_value(v2, zs@, nn);
                let cv = v2[c as int] as int;
                assert(z + cv * p == bits_value(v1, xs@, nn) + t);
                assert forall|j: int| 0 <= j < nn implies v1[#[trigger] xs@[j] as int] == v0[xs@[j] as int] by {}
                lemma_bits_value_congruent(v1, xs@, v0, xs@, nn);
                assert forall|j: int| 0 <= j < nn implies v3[#[trigger] zs@[j] as int] == v2[zs@[j] as int] by {}
                lemma_bits_value_congruent(v3, zs@, v2, zs@, nn);
                assert forall|j: int| 0 <= j < nn implies v2[#[trigger] zs@[j] as int] <= 1 by {
                    assert(v2[zs@[j] as int] < c1.moduli[xs@[j] as int]);
                }
                lemma_bits_value_bound(v2, zs@, nn);
                lemma_bits_value_bound(v0, xs@, nn);
                lemma_bits_value_bound(v0, ys@, nn);
                lemma_negation_wire_value(c3, nc as int, c, inputs, consts);
                lemma_subtraction_arith(dx, dy, p, t, z, cv);
            }
        }
        let nz = self.any_bit(ys);
        let ghost c4 = self.circuit();
        let ghost ct4 = self.num_ciphertexts();
        proof {
            lemma_grows_index(c3, k3, c4, k3, nc as int);
        }
        let borrow = self.and(nc, nz);
        proof {
            let nn = n as nat;
            lemma_appends_grows(c4, self.circuit(), self.circuit().gates@.last(), 2, k3);
            lemma_grows_trans(c0, k0, c3, k3, c4, k3);
            lemma_grows_trans(c0, k0, c4, k3, self.circuit(), k3);
            assert forall|i: int| 0 <= i < n implies #[trigger] zs[i] < self.circuit().gates.len()
                && self.circuit().moduli[zs[i] as int] == 2 by {
                lemma_grows_index(c2, k2, c3, k3, zs[i] as int);
                lemma_grows_index(c3, k3, self.circuit(), k3, zs[i] as int);
            }
            assert forall|inputs: Seq<u16>, consts: Seq<u16>|
                self.consts().is_prefix_of(consts) && all_bits(c0.values(inputs, consts), xs@) && all_bits(
                    c0.values(inputs, consts),
                    ys@,
                ) implies bits_value(self.circuit().values(inputs, consts), zs@, nn) == (bits_value(
                c0.values(inputs, consts),
                xs@,
                nn,
            ) - bits_value(c0.values(inputs, consts), ys@, nn)) % (pow2(nn) as int)
                && self.circuit().values(inputs, consts)[borrow as int] == borrow_bit(
                bits_value(c0.values(inputs, consts), xs@, nn),
                bits_value(c0.values(inputs, consts), ys@, nn),
            ) by {
                let v0 = c0.values(inputs, consts);
                let v3 = c3.values(inputs, consts);
                let v4 = c4.values(inputs, consts);
                let vf = self.circuit().values(inputs, consts);
                let dx = bits_value(v0, xs@, nn);
                let dy = bits_value(v0, ys@, nn);
                lemma_values_grow(c0, c3, inputs, consts);
                lemma_values_grow(c3, c4, inputs, consts);
                lemma_values_append(c4, self.circuit(), self.circuit().gates@.last(), 2, inputs, consts);
                assert forall|j: int| 0 <= j < nn implies vf[#[trigger] zs@[j] as int] == v3[zs@[j] as int] by {
                    lemma_grows_index(c2, k2, c3, k3, zs@[j] as int);
                }
                lemma_bits_value_congruent(vf, zs@, v3, zs@, nn);
                assert(k3.is_prefix_of(consts));
                assert(bits_value(v3, zs@, nn) == (dx - dy) % (pow2(nn) as int));
                assert(v3[nc as int] == (if dx < dy || dy == 0 {
                    1int
                } else {
                    0int
                }));
                assert forall|j: int| 0 <= j < ys@.len() implies #[trigger] v3[ys@[j] as int] <= 1 && v3[ys@[j] as int]
                    == v0[ys@[j] as int] by {
                    assert(v0[ys@[j] as int] <= 1);
                }
                assert(all_bits(v3, ys@));
                assert(v4[nz as int] == or_of(v3, ys@));
                lemma_bits_value_zero(v0, ys@, nn);
                let nzv = v4[nz as int] as int;
                if dy == 0 {
                    assert forall|j: int| 0 <= j < ys@.len() implies #[trigger] v3[ys@[j] as int] == 0 by {}
                    assert(nzv == 0);
                } else {
                    let j = choose|j: int| 0 <= j < nn && #[trigger] v0[ys@[j] as int] != 0;
                    assert(v3[ys@[j] as int] != 0);
                    assert(nzv == 1);
                }
                let ncv = v4[nc as int] as int;
                assert(ncv == v3[nc as int]);
                assert(vf[borrow as int] == ((ncv * nzv) % 2) as u16);
                assert((ncv * nzv) % 2 == (if ncv == 1 && nzv == 1 {
                    1int
                } else {
                    0int
                })) by (nonlinear_arith)
                    requires
                        0 <= ncv <= 1,
                        0 <= nzv <= 1,
                ;
                lemma_bits_value_bound(v0, xs@, nn);
                assert(vf[borrow as int] == borrow_bit(dx, dy));
                assert(bits_value(vf, zs@, nn) == (dx - dy) % (pow2(nn) as int));
            }
            assert forall|inputs: Seq<u16>, consts: Seq<u16>|
                self.consts().is_prefix_of(consts) && all_bits(c0.values(inputs, consts), xs@) && all_bits(
                    c0.values(inputs, consts),
                    ys@,
                ) implies #[trigger] bits_value(self.circuit().values(inputs, consts), zs@, nn) == (bits_value(
                c0.values(inputs, consts),
                xs@,
                nn,
            ) - bits_value(c0.values(inputs, consts), ys@, nn)) % (pow2(nn) as int) by {}
            assert forall|inputs: Seq<u16>, consts: Seq<u16>|
                self.consts().is_prefix_of(consts) && all_bits(c0.values(inputs, consts), xs@) && all_bits(
                    c0.values(inputs, consts),
                    ys@,
                ) implies #[trigger] self.circuit().values(inputs, consts)[borrow as int] == borrow_bit(
                bits_value(c0.values(inputs, consts), xs@, nn),
                bits_value(c0.values(inputs, consts), ys@, nn),
            ) by {}
        }
        (zs, borrow)
    }

    fn get_next_input_id(&mut self) -> (r: Id)
        requires
            old(self).next_input_id < usize::MAX,
        ensures
            r == old(self).next_input_id,
            final(self).next_input_id == r + 1,
            final(self).next_ref == old(self).next_ref,
            final(self).next_ciphertext_id == old(self).next_ciphertext_id,
            final(self).const_vals == old(self).const_vals,
            final(self).const_map == old(self).const_map,
            final(self).circ == old(self).circ,
    {
        let id = self.next_input_id;
        self.next_input_id += 1;
        id
    }

    fn get_next_ciphertext_id(&mut self) -> (r: Id)
        requires
            old(self).next_ciphertext_id < usize::MAX,
        ensures
            r == old(self).next_ciphertext_id,
            final(self).next_ciphertext_id == r + 1,
            final(self).next_ref == old(self).next_ref,
            final(self).next_input_id == old(self).next_input_id,
            final(self).const_vals == old(self).const_vals,
            final(self).const_map == old(self).const_map,
            final(self).circ == old(self).circ,
    {
        let id = self.next_ciphertext_id;
        self.next_ciphertext_id += 1;
        id
    }

    fn get_next_ref(&mut self) -> (r: Ref)
        requires
            old(self).next_ref < usize::MAX,
        ensures
            r == old(self).next_ref,
            final(self).next_ref == r + 1,
            final(self).next_input_id == old(self).next_input_id,
            final(self).next_ciphertext_id == old(self).next_ciphertext_id,
            final(self).const_vals == old(self).const_vals,
            final(self).const_map == old(self).const_map,
            final(self).circ == old(self).circ,
    {
        let x = self.next_ref;
        self.next_ref += 1;
        x
    }

    /// Appends a gate driving a new wire of the given modulus.
    fn gate(&mut self, gate: Gate, modulus: u16) -> (r: Ref)
        requires
            old(self).circ.gates.len() == old(self).next_ref,
            old(self).circ.moduli.len() == old(self).next_ref,
        ensures
            r == old(self).next_ref,
            final(self).next_ref == r + 1,
            final(self).circ.gates@ == old(self).circ.gates@.push(gate),
            final(self).circ.moduli@ == old(self).circ.moduli@.push(modulus),
            final(self).circ.input_refs == old(self).circ.input_refs,
            final(self).circ.output_refs == old(self).circ.output_refs,
            final(self).next_input_id == old(self).next_input_id,
            final(self).next_ciphertext_id == old(self).next_ciphertext_id,
            final(self).const_vals == old(self).const_vals,
            final(self).const_map == old(self).const_map,
    {
        self.circ.gates.push(gate);
        self.circ.moduli.push(modulus);
        // the number of gates is a `usize`, so the next reference fits one
        let count = self.circ.gates.len();
        assert(count == self.next_ref + 1);
        self.get_next_ref()
    }
}

} // verus!
