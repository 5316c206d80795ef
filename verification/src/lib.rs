//! Diagram model, Typst emission helpers and the integer core of the
//! layered graph layout: a ranked DAG, a Fenwick tree for crossing
//! counting, the `java.util.Random` stream used for tie breaking, and
//! the option enums of the layered algorithm.

pub mod codegen;
pub mod diagnostics;
pub mod ir;
pub mod layout;
pub mod text;
