pub mod codec;
pub mod generator;
pub mod graphs;
pub mod matrix;

pub use codec::load_graph;
pub use generator::{generate_graph, is_symmetric, mark_row, zero_one};
pub use graphs::{
    Edge, EdgeIdV, EdgeIdentifier, EdgeV, Graph, GraphV, IdV, Node, NodeIdentifier, NodeLike,
    NodeLikeV, NodeV,
};
pub use matrix::AdjMatrix;

use vstd::prelude::*;

verus! {

/// Distinguishes the two failure modes of persistence: the byte
/// sink or source could not be used, or the persisted text did not
/// decode to a graph.
#[derive(Clone, Copy, PartialEq, Eq, Structural, Debug)]
pub enum GraphError {
    IOFailure,
    DecodeFailure,
}

} // verus!
