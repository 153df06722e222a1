//! Simulation relations between directed labeled graphs and between
//! hypergraphs, with the graph model they are computed on.

use vstd::prelude::*;

pub mod algorithm;
pub mod graph;
pub mod utils;

verus! {

/// Sum of two unsigned integers.
pub fn add(left: u64, right: u64) -> (sum: u64)
    requires
        left + right <= u64::MAX,
    ensures
        sum == left + right,
{
    left + right
}

} // verus!
