//! Symmetric clock-tree topology synthesis.
//!
//! Given the locations of a set of clock sinks, the library plans a sequence
//! of branch factors, partitions the sinks into an angularly ordered
//! multi-way hierarchy, builds the merge tree bottom-up inside an index-based
//! arena, and assigns buffers to whole tree levels.
pub mod error;
pub mod geometry;
pub mod merge;
pub mod model;
pub mod node;
pub mod route;
pub mod stage;
pub mod text;
