# groth16

A Groth16 zk-SNARK over BN254, written in Verus. The library in `src/` states
and proves what each step computes, with the field and curve arithmetic of
arkworks (`ark-ff`, `ark-ec`, `ark-bn254`, `ark-std`) behind small trusted
wrappers:

- `field.rs` — the scalar field as canonical limbs, its operations, random
  nonzero elements; `field_lemmas.rs` — laws of the field operations.
- `poly.rs` — polynomials: normalisation, evaluation, sum, difference,
  scaling, product, long division; `poly_lemmas.rs` — evaluation laws.
- `roots.rs` — inverses in a prime field and the zero polynomial as the only
  one with more distinct roots than coefficients.
- `r1cs.rs` — linear combinations and rank-1 constraint systems.
- `qap.rs` — Lagrange interpolation and the reduction to a quadratic
  arithmetic program, the prover's quotient, and the laws that it
  characterises the witnesses and that a witness satisfies the system exactly
  when the vanishing polynomial divides `A·B - C`. That law, and the one that
  interpolation over `1, ..., m` is well defined for every `m` below the
  scalar order, take as premise that the BN254 scalar order is prime, which
  ark-ff's `PrimeField` for `Fr` stands for and which is not proved here.
- `curve.rs` — points of G1 and G2, the pairing target group, and the curve
  operations, each a wrapper around arkworks with a named result.
- `setup.rs`, `prover.rs`, `verify.rs` — trusted setup, prover, verifier.
- `completeness.rs` — the law that an honest proof passes the verifier's
  pairing check, stated under the group laws of `G1` and `G2` and the
  bilinearity of the pairing, written as predicates over the curve
  operations' names.

`app/main.rs` runs the example circuit `x⁵ + 3x³ + 2x² + x + 7 = y`.
