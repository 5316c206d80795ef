//! Nodes of the network-simplex rank assignment.

use vstd::prelude::*;

verus! {

/// A node of the network-simplex graph.
#[derive(Debug, Clone, Default)]
pub struct NNode {
    /// Caller-visible scratch id.
    pub id: usize,
    /// What this node stands for: the layered node index, if any.
    pub origin: Option<usize>,
    pub layer: i32,
    pub(crate) internal_id: usize,
    pub(crate) tree_node: bool,
    pub(crate) outgoing_edges: Vec<usize>,
    pub(crate) incoming_edges: Vec<usize>,
    pub(crate) unknown_cutvalues: Vec<usize>,
}

} // verus!
