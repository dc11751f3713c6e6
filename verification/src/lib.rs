//! An undirected, unweighted graph keyed by string node names, with
//! verified construction invariants and a verified unweighted
//! shortest-path search.

pub mod graph;
pub mod builder;
pub mod parse;
pub mod search;

use vstd::prelude::*;

verus! {

/// Errors reported by graph queries.
#[derive(Clone, Copy, Debug, PartialEq, Eq, Structural)]
pub enum GraphError {
    /// A query or edge referenced a node name that was never registered.
    UnknownNode,
    /// A query line did not hold exactly two tokens.
    MalformedQuery,
}

} // verus!
