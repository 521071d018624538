# jolt_goldilocks

The protocols of a zero-knowledge virtual machine prover as a verified library: executable provers
and verifiers whose behaviour is stated in contracts over mathematical models and proved with Verus.

- `field`, `goldilocks`: the ring laws that every protocol is generic over, and the Goldilocks field.
- `framework`: multilinear polynomials, formulas, the sumcheck protocol and its batched and
  claim-driven forms, transcripts, recorded openings.
- `r1cs`: sparse constraint matrices, the uniform key of a trace, the variables of one cycle.
- `zkvm`: Spartan, memory and register checking, one-hot reads, claim reductions, booleanity, range
  checks, the logup-GKR argument, instruction lookups, the bytecode, and the drivers that run them
  over one transcript.

A prover's contract gives the messages it sends and the claims it records, a verifier's contract
gives its verdict on every transcript. The `law_` proof functions state what relates the two:
completeness of every stage up to the whole proof, the identities behind the sums, and refusal: where
one proof is accepted, another with a changed opening, seed or round element is answered by the error
of the check that reads it, unless the weight of the opening in that check cancels the change. An
error of a stage is carried unchanged to the verdict on the whole.

What a commitment scheme has to open is handed to the caller as a list of points and values.
The lookup tables themselves are not part of the library: their prefix, suffix and table values are
arguments. The laws of the instruction read check hold for every family of tables whose entries these
values decompose.
