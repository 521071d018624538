//! Register-file checking.

pub mod read_write_checking;
pub mod stage;
pub mod val_evaluation;
pub mod witness;
