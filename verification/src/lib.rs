//! A directed-graph container: node registration under caller-chosen keys,
//! edge insertion, cycle detection with a witness cycle, and reachability
//! traversal.
//!
//! The crate is layered: [`graph_core`] owns the structure over dense integer
//! identifiers, [`keyed`] translates between arbitrary caller keys and those
//! identifiers, and [`usize_graph`] is the integer-keyed specialization.
//! [`model`] holds the mathematical graph model that all contracts speak of.

pub mod errors;
pub mod graph_core;
pub mod keyed;
pub mod model;
pub mod usize_graph;

pub use errors::GraphError;
pub use graph_core::GraphCore;
pub use graph_core::Node;
pub use graph_core::NodeID;
pub use keyed::Graph;
pub use usize_graph::UsizeGraph;
