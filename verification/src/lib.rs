//! Typed provenance graphs and the evidence that supports them: integrity, traversal,
//! cycles, paths, export escaping and evidence classification, each with a contract.

pub mod digest;
pub mod error;
pub mod evidence;
pub mod export;
pub mod graph;
pub mod order;
pub mod text;
