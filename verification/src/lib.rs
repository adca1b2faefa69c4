//! A signal-flow graph engine.
//!
//! Nodes are wired together through producer and consumer ports and ticked in
//! topological order. An edge that would close a cycle is replaced by a pair
//! of feedback nodes that hands the value over with a delay of one tick.

pub mod edge_set;
pub mod error;
pub mod feedback;
pub mod graph;
pub mod internal;
pub mod node;
pub mod nodes;
pub mod signal;
pub mod signal_node;
pub mod sort;
pub mod structure;

pub use node::{Node, NodeIndex, NodeWrapper};
