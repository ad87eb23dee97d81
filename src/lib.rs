//! A directed acyclic graph of dependencies between nodes, with cycle
//! rejection at insertion, transitive queries in both directions and
//! topological layering.
pub mod adjacency;
pub mod graph;
pub mod layering;
pub mod reach;

pub use graph::{AcyclicDependencyGraph, DependencyError};
