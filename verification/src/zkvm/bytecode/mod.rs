//! Checking the reads of the bytecode.

pub mod read_raf_checking;
pub mod value_laws;

pub use read_raf_checking::bytecode_read_raf_params;
pub use crate::zkvm::shout_read_raf::{OneHotReadRaf, OneHotReadRafParams, ReadRafStage};
