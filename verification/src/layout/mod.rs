//! Graph layout.

pub mod elk;
pub mod dag;
