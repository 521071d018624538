//! Verified building blocks of a zero-knowledge virtual machine prover over a prime field:
//! sumcheck instances, memory and register checking, Spartan, logup-GKR and lookup arguments.

pub mod field;
pub mod framework;
pub mod goldilocks;
pub mod r1cs;
pub mod zkvm;
