//! Shared IR types used across more than one diagram family.

use vstd::prelude::*;

verus! {

/// Top-level layout flow. `left to right direction` flips the layered
/// orientation; everything else (`top to bottom`, default) keeps top to
/// bottom.
#[derive(Copy, Clone, Debug, PartialEq, Eq, Structural)]
pub enum LayoutDirection {
    TopToBottom,
    LeftToRight,
}

impl Default for LayoutDirection {
    fn default() -> (r: Self)
        ensures
            r == LayoutDirection::TopToBottom,
    {
        LayoutDirection::TopToBottom
    }
}

#[derive(Clone, Debug)]
pub struct Skinparam {
    pub key: String,
    pub value: String,
    pub line: usize,
}

#[derive(Copy, Clone, Debug, PartialEq, Eq, Structural)]
pub enum NotePosition {
    Over,
    LeftOf,
    RightOf,
}

#[derive(Copy, Clone, Debug, PartialEq, Eq, Structural)]
pub enum LineStyle {
    Solid,
    Dashed,
    Dotted,
}

#[derive(Copy, Clone, Debug, PartialEq, Eq, Structural)]
pub enum Direction {
    Up,
    Down,
    Left,
    Right,
}

} // verus!
