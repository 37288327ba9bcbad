# mozzarella

Verified building blocks of the Mozzarella VOLE protocol over rings
`Z/2^k` and of the garbled-circuit toolkit it ships with, written in Verus.

Layout of `src/`:

- `limb`, `bits128`, `uint`: 64-bit limb arithmetic and the 192- and 256-bit
  unsigned integers, with every operation specified over its integer value.
- `ring`: the `Ring` trait and the rings `R64`, `Z2r<k>` (128-bit
  representatives), `Z2rU192<k>` and `Z2rU256<k>`, each operation specified
  modulo `2^k`, with the ring laws that follow.
- `circuit`: circuits of mixed-modulus wires, their evaluation, and the
  `Builder` with its gadgets (sums, AND/OR fans, mixed-radix ripple-carry
  addition, two's complement and binary subtraction), each specified by the
  values its wires take.
- `wire`: garbled wire labels and their digit-wise arithmetic.
- `params`: LPN parameter sets and their validation.
- `vole`: VOLE caches and their correlation invariant, the local linear code
  and the law that multiplying by it keeps VOLE correlations, the prover's
  extension step and the law that its outputs stay correlated with the
  verifier's, the biased generator of single-point positions, both parties'
  stage-5 values of the single-point VOLE with the law that an honest run
  passes the check, and helpers of the GGM trees.
- `quicksilver`: both sides of the QuickSilver multiplication check, with
  the challenges handed in.
- `prc`, `tools`, `random`: the pseudorandom code keys, benchmark metadata,
  and the draws from `rand` the library makes.

`app/` holds the command-line benchmark around the library: options, system
information, random code generation and JSON output.

The networked parts of the protocols are not here: the GGM tree expansion,
the remaining single-point VOLE stages, the VOLE extension parties and the
QuickSilver prover and verifier objects call an AES-based hash, an AES
random generator and a communication channel between each step, none of
which this project contains.  What lies between those calls and is plain
ring arithmetic (the multiplication check, the stage-5 values, the code
multiplication and the extension step, the caches) stands in `src/` with its contract.

Circuits built with the `Builder` carry `circuit_safe` whenever their
gadgets' moduli leave room for 16-bit arithmetic; `lemma_safe_evaluable`
then shows that such a circuit can be evaluated with `Circuit::eval` on any
inputs below their moduli.
