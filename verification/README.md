# mipp

A multi inner-pairing-product argument over BLS12-377, verified with Verus.

A prover holds points `a` of the first source group, scalars `y` and keys `h` of the second source
group. It folds the three vectors in half, round after round, under challenges drawn from a
transcript, until one element of each is left. From these and from the messages of the rounds a
verifier checks the inner product of `a` and `y` and the pairing product of `a` and `h` at once.
The keys are folded by a multilinear polynomial of the challenges, which the verifier can evaluate
by itself; a polynomial commitment ties the last key to it.

## Layout

- `src/algebra.rs`, `src/scalar.rs`, `src/groups.rs`: numbers, the scalar field, the two source groups
  and the target field. A point is known by the multiple of its group's generator that it is.
- `src/folding.rs`: folding vectors, and inner products of points and scalars.
- `src/polynomial.rs`, `src/tensor.rs`: the polynomial of the challenges, and folding as an inner
  product with its evaluations.
- `src/transcript.rs`, `src/protocol.rs`: transcripts, and what prover and verifier say to them.
- `src/mipp.rs`: the prover and the verifier.
- `src/poseidon_transcript.rs`: a transcript made of a Poseidon sponge.
- `src/laws.rs`: what holds of the argument as a whole, completeness above all.
- `app/`: the argument on the types of arkworks, with serialization and the polynomial commitment.

The arithmetic of fields, curves and pairings, the serialization of their elements and the Poseidon
permutation come from arkworks. What is taken on trust of them stands above each function that
calls them.
