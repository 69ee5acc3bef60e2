//! Generators of delays and intervals.

pub mod constant;
pub mod interface;
