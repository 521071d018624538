//! Rank-one constraint systems that repeat the same constraints in every cycle.

pub mod key;
pub mod layout;
pub mod matrices;
