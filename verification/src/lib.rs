//! Mirrors a source tree into a target tree, expanding single-level include
//! directives, and decides what to rebuild when files change.

pub mod path;
pub mod text;
pub mod expand;
pub mod graph;
pub mod sync;
pub mod watch;
