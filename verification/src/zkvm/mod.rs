//! The protocols of the virtual machine prover.

pub mod accept_laws;
pub mod access;
pub mod booleanity;
pub mod bytecode;
pub mod claim_laws;
pub mod claim_reductions;
pub mod constraint_laws;
pub mod cycle_laws;
pub mod driver;
pub mod e2e;
pub mod instruction_lookups;
pub mod logup;
pub mod memory;
pub mod r1cs_witness;
pub mod ram;
pub mod range_check;
pub mod read_raf_stage;
pub mod real_trace;
pub mod registers;
pub mod shout_read_raf;
pub mod spartan;
pub mod trace;
