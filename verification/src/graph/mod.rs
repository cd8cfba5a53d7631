//! Typed dependency and provenance graphs: integrity, traversal, cycles and paths.

pub mod errors;
pub mod nodes;
pub mod edges;
pub mod topology;
pub mod traversal;
pub mod paths;
pub mod graph;
pub mod integrity;
pub mod cycles;
pub mod document;
