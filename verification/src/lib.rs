use vstd::prelude::*;

pub mod arith;
pub mod generators;
pub mod graph;
pub mod path_cover;
pub mod paths;
pub mod potential;
pub mod projection;
pub mod queue;
pub mod scaling;
pub mod scc;
pub mod sssp;

verus! {

} // verus!
