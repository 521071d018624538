//! Sumchecks that reduce several opening claims to one point.

pub mod hamming_weight;
pub mod increments;
pub mod instruction_lookups;
pub mod ram_ra;
pub mod registers;
