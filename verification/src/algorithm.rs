//! The simulation engines.

pub mod relation;
pub mod simulation;
pub mod hyper_simulation;
pub mod bounded;
pub mod trace;
pub mod cluster_simulation;
