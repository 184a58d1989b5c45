//! The failures that the graph operations report.

use vstd::prelude::*;

verus! {

/// Why an operation on a graph or on a search tree was refused.
#[derive(Clone, Copy, Debug, PartialEq, Eq, Structural)]
pub enum GraphError {
    /// An edge names a vertex that was never registered in the graph.
    InvalidNode,
    /// A search was started from a vertex that is not in the graph.
    UnknownSource,
    /// A query names a vertex that the search never reached.
    UnreachableNode,
}

} // verus!
