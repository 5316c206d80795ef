//! Typst code generation helpers.

pub mod tree_emit;
pub mod tree_graph;
