//! An in-memory directed-graph container with breadth-first traversal and
//! Dijkstra shortest-path search.
//!
//! Nodes hold caller-chosen payloads and are addressed by dense integer
//! identifiers assigned in insertion order. Edges are directed, carry a
//! payload, and live in their source node's adjacency list.

pub mod container;
pub mod shortest;
pub mod traversal;

pub use crate::container::Edge;
pub use crate::container::Graph;
pub use crate::container::NodeIdentifier;
pub use crate::shortest::ShortestPathResult;
