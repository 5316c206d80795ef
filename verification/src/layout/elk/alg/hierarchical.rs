//! The nesting of graphs in a compound layout run, and what such a run
//! hands to the exporter.

use vstd::prelude::*;
use std::collections::HashMap;
use crate::layout::elk::alg::graph::{LEdgeId, LGraphArena, LGraphId, LNodeId};

verus! {

/// Everything the exporter needs from a compound layout run beyond the
/// arena itself.
pub struct CompoundLayoutResult {
    /// Original cross-hierarchy edge to the graph whose coordinate frame
    /// its restored bend points live in.
    pub reference_graphs: HashMap<LEdgeId, LGraphId>,
}

/// The node whose nested graph holds node `x`, if any.
pub open spec fn parent_of(a: &LGraphArena, x: usize) -> Option<usize> {
    if x < a.nodes@.len() && a.nodes@[x as int].graph.0 < a.graphs@.len() {
        match a.graphs@[a.nodes@[x as int].graph.0 as int].parent_node {
            Some(p) => Some(p.0),
            None => None,
        }
    } else {
        None
    }
}

/// The ancestor of node `x` `k + 1` levels up, if any.
pub open spec fn ancestor(a: &LGraphArena, x: usize, k: nat) -> Option<usize>
    decreases k,
{
    if k == 0 {
        parent_of(a, x)
    } else {
        match ancestor(a, x, (k - 1) as nat) {
            Some(p) => parent_of(a, p),
            None => None,
        }
    }
}

/// The chain of ancestors of `x` ends after `k` of them, each an
/// existing node in an existing graph, and `x` too lies in one.
pub open spec fn ancestry_ends_at(a: &LGraphArena, x: usize, k: nat) -> bool {
    &&& x < a.nodes@.len()
    &&& a.nodes@[x as int].graph.0 < a.graphs@.len()
    &&& forall|j: nat| j < k ==> (#[trigger] ancestor(a, x, j) matches Some(p) && p < a.nodes@.len() && a.nodes@[p as int].graph.0
        < a.graphs@.len())
    &&& ancestor(a, x, k) is None
}

/// Whether `ancestor` is among the nodes whose nested graphs hold `node`,
/// directly or further up.
pub fn is_descendant(arena: &LGraphArena, node: LNodeId, ancestor_node: LNodeId) -> (r: bool)
    requires
        exists|k: nat| ancestry_ends_at(arena, node.0, k),
    ensures
        r == exists|j: nat| #[trigger] ancestor(arena, node.0, j) == Some(ancestor_node.0),
{
    let ghost k = choose|k: nat| ancestry_ends_at(arena, node.0, k);
    let ghost mut j: nat = 0;
    let mut g = arena.nodes[node.0].graph;
    loop
        invariant
            ancestry_ends_at(arena, node.0, k),
            j <= k,
            g.0 < arena.graphs@.len(),
            match arena.graphs@[g.0 as int].parent_node {
                Some(p) => ancestor(arena, node.0, j) == Some(p.0),
                None => ancestor(arena, node.0, j) is None,
            },
            forall|i: nat| i < j ==> #[trigger] ancestor(arena, node.0, i) != Some(ancestor_node.0),
        decreases k - j,
    {
        proof {
            if j == 0 {
                assert(ancestor(arena, node.0, 0) == parent_of(arena, node.0));
            }
        }
        let parent = match arena.graphs[g.0].parent_node {
            Some(p) => p,
            None => {
                proof {
                    assert forall|i: nat| #[trigger] ancestor(arena, node.0, i) != Some(ancestor_node.0) by {
                        if i > j {
                            lemma_ancestor_none(arena, node.0, j, i);
                        }
                    }
                }
                return false;
            },
        };
        if parent.0 == ancestor_node.0 {
            return true;
        }
        proof {
            if j == k {
                assert(ancestor(arena, node.0, k) is None);
            }
            assert(j < k);
            assert(ancestor(arena, node.0, j) == Some(parent.0));
            assert(parent.0 < arena.nodes@.len() && arena.nodes@[parent.0 as int].graph.0 < arena.graphs@.len());
            assert(ancestor(arena, node.0, j + 1) == parent_of(arena, parent.0));
        }
        g = arena.nodes[parent.0].graph;
        proof {
            j = j + 1;
        }
    }
}

/// Once the chain of ancestors has ended, it stays ended.
proof fn lemma_ancestor_none(a: &LGraphArena, x: usize, j: nat, i: nat)
    requires
        ancestor(a, x, j) is None,
        j <= i,
    ensures
        ancestor(a, x, i) is None,
    decreases i - j,
{
    if j < i {
        lemma_ancestor_none(a, x, j, (i - 1) as nat);
    }
}

} // verus!
