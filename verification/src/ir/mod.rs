//! Intermediate representation: the contract between parsers and codegen.

pub mod activity;
pub mod common;
pub mod cuca;
pub mod flowchart;
pub mod state;
pub mod tree;
