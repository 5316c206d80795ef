//! Flowchart semantics, independent of the input language and layout engine.

use vstd::prelude::*;
use crate::ir::common::{LayoutDirection, LineStyle};

verus! {

#[derive(Clone, Debug)]
pub struct FlowchartDiagram {
    pub nodes: Vec<FlowNode>,
    pub edges: Vec<FlowEdge>,
    pub subgraphs: Vec<FlowSubgraph>,
    pub direction: LayoutDirection,
    pub reverse_rank: bool,
}

impl Default for FlowchartDiagram {
    fn default() -> (r: Self)
        ensures
            r.nodes@.len() == 0,
            r.edges@.len() == 0,
            r.subgraphs@.len() == 0,
            r.direction == LayoutDirection::TopToBottom,
            !r.reverse_rank,
    {
        FlowchartDiagram {
            nodes: Vec::new(),
            edges: Vec::new(),
            subgraphs: Vec::new(),
            direction: LayoutDirection::default(),
            reverse_rank: false,
        }
    }
}

#[derive(Clone, Debug)]
pub struct FlowNode {
    pub id: String,
    pub label: String,
    pub shape: FlowShape,
    pub line: usize,
}

#[derive(Clone, Debug)]
pub struct FlowEdge {
    pub from: String,
    pub to: String,
    pub arrow: bool,
    pub style: LineStyle,
    pub label: Option<String>,
    pub line: usize,
}

#[derive(Clone, Debug)]
pub struct FlowSubgraph {
    pub id: String,
    pub label: String,
    pub nodes: Vec<String>,
    pub children: Vec<usize>,
    pub line: usize,
}

#[derive(Copy, Clone, Debug, PartialEq, Eq, Structural)]
pub enum FlowShape {
    Rect,
    Rounded,
    Stadium,
    Diamond,
    Circle,
    Cylinder,
    Asymmetric,
}

} // verus!
