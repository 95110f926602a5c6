//! A directed graph kept in an arena, with a topological ordering query.
//!
//! Nodes live in the graph's own storage and are named by [`NodeRef`] handles.
//! Edges may be repeated and may loop back to their source. Sorting consumes
//! the graph and yields either an order that respects every edge or `None`
//! when the graph has a directed cycle.

pub mod graph;
mod kahn;
pub mod model;
pub mod node;
pub mod proofs;

pub use graph::DirectedGraph;
pub use node::remove_item;
pub use node::Node;
pub use node::NodeRef;
