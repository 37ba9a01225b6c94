//! Middle and back end of a compiler for a node-graph language.
//!
//! `mir` holds the graph model, `pass` the rewriting that moves dynamically
//! instanced clusters of nodes into surfaces of their own, and `codegen` the
//! lowering of a surface into its construct, update and destruct procedures.

pub mod codegen;
pub mod mir;
pub mod pass;
pub mod text;
