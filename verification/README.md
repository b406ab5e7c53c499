# ark_plonk

A verified fragment of a PLONK-style proving system over the scalar field of
BLS12-381, written in Verus. Field, curve and FFT arithmetic is delegated to
the `ark_*` crates and the Fiat-Shamir transcript to `merlin`, behind small
trusted wrappers whose contracts state what those crates compute; everything
built on top of them is proved.

Layout:

- `src/field.rs`: field elements, their byte and bit encodings, batch
  inversion.
- `src/domain.rs`: evaluation domains, FFTs, dense polynomials.
- `src/dft.rs`: the transform undoes the inverse transform, and the
  barycentric formula gives the interpolating polynomial's value.
- `src/commitment.rs`: KZG commitments as compressed G1 points.
- `src/permutation.rs`: the copy-constraint permutation, the sigma
  permutations and their encodings, the grand product.
- `src/grand_product.rs`: two further ways of computing the grand product,
  proved equal to the first wherever the denominator factors are invertible;
  both functions establish that themselves through the inverses they take,
  so their results are stated as the grand product itself.
- `src/cosets.rs`: distinct wire slots have distinct encodings (the cosets
  `H`, `K1 H`, `K2 H`, `K3 H` are disjoint).
- `src/copy_argument.rs`: the grand product returns to one when the copy
  constraints hold.
- `src/constraint_system.rs`, `src/range.rs`: the composer and the range gate.
- `src/curve_addition.rs`: the twisted Edwards addition gate.
- `src/proof_system.rs`: proof evaluations, the verifier's quotient
  computations, the byte encoding of a proof.
- `src/transcript.rs`: the transcript wrapper.
- `tests/`: tests against concrete values and against the `ark_*` crates.
- `app/`: random field elements and conversions to and from `ark_bls12_381`
  types.

The range gate adds `num_bits / 4` gates: rows of four base-4 digits, one
more row, the equality gate, then gates with every selector zero. For 2 to
14 bits and for 18 the rows and the equality gate alone need more,
`ceil(num_bits / 8) + 2`, and that is what it adds.

The crate has no proof verifier: verifying a proof, computing the
linearisation commitment and aggregating the opening proofs need a verifier
key, the linearisation terms of every gate kind and a linear-combination
helper, none of which the crate defines.
