//! Reconstruction and analysis of taint data-flow graphs from
//! taint-tracking instrumentation logs.
//!
//! The crate ingests a log line by line, builds one graph node per
//! accepted operation, classifies each node's taint, records sink
//! nodes, and extracts source-to-sink traces by a backward search.

pub mod bytes;
pub mod cli;
pub mod graph;
pub mod meta;
pub mod parse;
pub mod tgnode;
pub mod vartable;

pub use cli::Options;
pub use graph::Graph;
pub use tgnode::Taint;
pub use tgnode::TgEdge;
pub use tgnode::TgNode;
pub use vartable::VarTable;
