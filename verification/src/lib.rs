//! Configuration and execution engine for a suite of mesh-network graph
//! algorithms: selective activation through a bitfield, per-algorithm
//! parameter bags with type-checked retrieval, and a dispatcher that runs
//! the enabled algorithms against a graph snapshot and collects one
//! outcome per enabled kind.

pub mod algos;
pub mod config;
pub mod dispatch;
pub mod graph;
pub mod params;

use vstd::prelude::*;

verus! {

} // verus!
