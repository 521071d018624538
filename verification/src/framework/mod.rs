//! The protocol framework: sums and polynomials over a field, the transcript, the opening
//! accumulator and the sumcheck protocol itself.

pub mod accumulator;
pub mod batching;
pub mod bits;
pub mod folding;
pub mod formula;
pub mod gruen;
pub mod poly;
pub mod stage8;
pub mod sumcheck;
pub mod sums;
pub mod transcript;
pub mod univariate;
