//! A fixed-capacity graph arena addressed by generational handles, and a
//! rooted tree built on it.
//!
//! Nodes live in numbered slots. A handle pairs a slot index with the
//! generation the slot had when the handle was issued, so a handle to a removed
//! node is told apart from a handle to the node that later took its slot.

pub mod forest;
pub mod graph;
pub mod handle;
pub mod laws;
pub mod model;
pub mod shape;
pub mod store;
pub mod tree;

pub use graph::Graph;
pub use handle::{Edge, GraphError, NodeHandle, EDGE_CAPACITY, NODE_CAPACITY};
pub use tree::Tree;

