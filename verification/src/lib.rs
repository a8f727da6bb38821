//! An in-memory approximate nearest-neighbour index built on a hierarchical
//! navigable small world (HNSW) graph.
//!
//! The index stores fixed-width integer vectors, assigns each a dense id, and
//! maintains one proximity graph per level.  Queries descend the hierarchy
//! greedily and finish with a beam search on the base level.  Distances are
//! supplied by an implementation of [`metric::Metric`].

pub mod candidates;
pub mod hnsw;
pub mod level;
pub mod metric;
pub mod rng;

use vstd::prelude::*;

verus! {

/// The degree cap for levels above the base: `round(1.5 * connections)`,
/// computed exactly in integer arithmetic.
pub open spec fn spec_max_connections(connections: nat) -> nat {
    (3 * connections + 1) / 2
}

/// The degree cap for the base level: `2 * connections`.
pub open spec fn spec_max_connections_0(connections: nat) -> nat {
    2 * connections
}

} // verus!
