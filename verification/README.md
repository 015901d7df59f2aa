# my_snark

A distributed SNARK for R1CS with linear-time provers, over the BN254 scalar
field. The library in `src/` is verified with Verus; `app/` holds the
protocol's plumbing (network, transcript, polynomial commitments).

## Layout

- `src/field.rs` – field elements as canonical limbs; arithmetic by `ark_bn254::Fr`.
- `src/arith.rs` – next power of two, integer square root, base-`s` digits.
- `src/csr.rs` – the constraint matrices in compressed-row form and the walk
  over their entries.
- `src/index.rs` – the distributed R1CS index: global, per sub-prover, and
  the steps of the networked builder; the law that both agree.
- `src/data_parallel.rs` – constraint systems made of identical blocks: the
  laws that each sub-prover's own index and frequency counts are those of
  the global builder.
- `src/nevals.rs` – lookup frequencies of the index.
- `src/lookup.rs` – the lookup identity: a weight summed over the index
  entries equals the frequency-weighted sum over the values.
- `src/poly.rs` – univariate polynomials, radix-2 domains, Lagrange basis.
- `src/index_polys.rs` – the index polynomials and selectors.
- `src/prover.rs` – the prover's evaluations and target polynomials.
- `src/snark.rs` – the proof object, the prover's message pieces and the
  verifier's evaluation check.
- `src/gadgets.rs`, `src/circuits.rs` – vector/matrix helpers, example
  instances, the benchmark circuit.
