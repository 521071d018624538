//! Spartan: satisfaction of the uniform constraint system.

pub mod inner;
pub mod instruction_input;
pub mod outer;
pub mod shift;
pub mod stage;
