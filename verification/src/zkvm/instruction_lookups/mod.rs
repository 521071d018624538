//! Instruction lookups.

pub mod address_phase;
pub mod address_reduction;
pub mod index_bits;
pub mod lookup_groups;
pub mod lookup_laws;
pub mod operand_poly;
pub mod read_raf_checking;
pub mod read_raf_sumcheck;
pub mod table_values;
pub mod trace;

pub use crate::zkvm::shout_read_raf::{OneHotReadRaf, OneHotReadRafParams, ReadRafStage};
pub use operand_poly::{OperandPolynomial, OperandSide};
pub use read_raf_checking::instruction_read_raf_params;
