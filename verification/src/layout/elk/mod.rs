//! The integer core of the layered (Sugiyama) layout engine.

pub mod adapter;
pub mod alg;
