//! RAM checking.

pub mod output_check;
pub mod ra_virtual;
pub mod raf_evaluation;
pub mod read_write_checking;
pub mod stage;
pub mod val_check;
pub mod witness;
