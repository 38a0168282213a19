//! Turns a version-constraint solver's selection into a dependency graph of
//! pinned packages, and renders that graph as a deterministic, reproducible
//! requirements lock file.

pub mod display;
pub mod dist;
pub mod graph_store;
pub mod laws;
pub mod lex;
pub mod resolution;
pub mod solver;
pub mod tables;
pub mod version;
