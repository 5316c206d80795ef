//! WBS and mind-map diagrams: a rooted [`TreeNode`] tree.

use vstd::prelude::*;

verus! {

/// Work-breakdown-structure diagram (`@startwbs`): a single rooted tree
/// of [`TreeNode`]s. Mind maps reuse [`TreeNode`]; they differ only in
/// the active [`NodeSide`] values and the painter entry point.
#[derive(Debug)]
pub struct WbsDiagram {
    pub name: Option<String>,
    pub title: Option<String>,
    pub root: TreeNode,
}

/// Mind-map diagram (`@startmindmap`). `roots` holds one tree per depth-1
/// node of the block, stacked vertically in the render (always at least
/// one). `direction` mirrors the `top to bottom direction` directive.
#[derive(Debug)]
pub struct MindMapDiagram {
    pub name: Option<String>,
    pub title: Option<String>,
    pub roots: Vec<TreeNode>,
    pub direction: MapDirection,
}

#[derive(Copy, Clone, Debug, PartialEq, Eq, Structural)]
pub enum MapDirection {
    LeftToRight,
    TopToBottom,
}

impl Default for MapDirection {
    fn default() -> (r: Self)
        ensures
            r == MapDirection::LeftToRight,
    {
        MapDirection::LeftToRight
    }
}

#[derive(Debug)]
pub struct TreeNode {
    /// One entry per source line; multi-line labels keep their split.
    pub label: Vec<String>,
    /// `Default` for plain `*+-` markers; WBS also accepts `<` / `>`.
    pub side: NodeSide,
    pub shape: NodeShape,
    /// Raw `[#color]` spec, such as `"#FF0000"` or `"#red"`.
    pub fill: Option<String>,
    /// Optional `(code)` or `as code` alias.
    pub id: Option<String>,
    /// 1-based source line of the marker that introduced this node.
    pub line: usize,
    pub children: Vec<TreeNode>,
}

#[derive(Copy, Clone, Debug, PartialEq, Eq, Structural)]
pub enum NodeSide {
    Default,
    Left,
    Right,
}

#[derive(Copy, Clone, Debug, PartialEq, Eq, Structural)]
pub enum NodeShape {
    /// Default filled rounded box.
    Box,
    /// The `_` modifier: bare text, no border, no fill.
    Line,
    /// `_` without a label: the node is removed completely and its
    /// children hang off a trunk from where it would have been.
    Phantom,
}

} // verus!
