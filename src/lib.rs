//! Finds the types and traits that a package's public API shows but that no
//! downstream user can import.
pub mod cli_args;
pub mod ids;
pub mod item_graph;
pub mod labels;
pub mod laws;
pub mod linkers;
pub mod model;
pub mod resolve;
pub mod semantics;
