//! Oracles that answer from tables.

pub mod predicate;
