//! Neighbourhood queries of the treatment of high-degree nodes: how many
//! edges a node has, and whether the edges on one side of a node all
//! lead to the same neighbour.

use vstd::prelude::*;
use crate::layout::elk::alg::graph::{gather, gather_both, LEdgeId, LGraphArena, LNodeId};
use crate::layout::elk::alg::p1_cycles::{source_node, target_node};

verus! {

/// Which edges of a node are followed.
#[derive(Debug, Clone, Copy, PartialEq, Eq, Structural)]
pub enum Dir {
    Incoming,
    Outgoing,
}

/// The edges of node `x` in direction `dir`, port by port.
pub open spec fn edges_in(a: &LGraphArena, x: int, dir: Dir) -> Seq<usize> {
    match dir {
        Dir::Incoming => gather(a.in_lists(), a.port_lists()[x]),
        Dir::Outgoing => gather(a.out_lists(), a.port_lists()[x]),
    }
}

/// The node at the other end of edge `e`, seen from node `x`: its target
/// when `x` is its source, else its source.
pub open spec fn far(a: &LGraphArena, e: usize, x: usize) -> Option<usize> {
    if source_node(a, e) == Some(x) {
        target_node(a, e)
    } else {
        source_node(a, e)
    }
}

/// Edge `e` has a source node, and a target node too where `x` is its
/// source.
pub open spec fn far_known(a: &LGraphArena, e: usize, x: usize) -> bool {
    &&& e < a.edges@.len()
    &&& source_node(a, e) is Some
    &&& source_node(a, e) == Some(x) ==> target_node(a, e) is Some
}

/// The number of edges at the ports of `node`, each counted at each of
/// its ends there.
pub fn degree(arena: &LGraphArena, node: LNodeId) -> (r: usize)
    requires
        arena.wf(),
        node.0 < arena.nodes@.len(),
    ensures
        r == gather_both(arena.in_lists(), arena.out_lists(), arena.port_lists()[node.0 as int]).len(),
{
    let edges = arena.node_connected_edges(node);
    edges.len()
}

/// Whether `node` has at least `threshold` edges.
pub fn is_high_degree_node(arena: &LGraphArena, node: LNodeId, threshold: i32) -> (r: bool)
    requires
        arena.wf(),
        node.0 < arena.nodes@.len(),
        gather_both(arena.in_lists(), arena.out_lists(), arena.port_lists()[node.0 as int]).len() <= i32::MAX,
    ensures
        r == (gather_both(arena.in_lists(), arena.out_lists(), arena.port_lists()[node.0 as int]).len() >= threshold),
{
    degree(arena, node) as i32 >= threshold
}

/// The edges of `node` in direction `dir`.
pub fn edges_of(arena: &LGraphArena, node: LNodeId, dir: Dir) -> (r: Vec<LEdgeId>)
    requires
        arena.wf(),
        node.0 < arena.nodes@.len(),
    ensures
        r@.map_values(|e: LEdgeId| e.0) == edges_in(arena, node.0 as int, dir),
{
    match dir {
        Dir::Incoming => arena.node_incoming_edges(node),
        Dir::Outgoing => arena.node_outgoing_edges(node),
    }
}

/// The node at the other end of `edge`, seen from `node`.
pub fn other(arena: &LGraphArena, edge: LEdgeId, node: LNodeId) -> (r: LNodeId)
    requires
        arena.wf(),
        far_known(arena, edge.0, node.0),
    ensures
        far(arena, edge.0, node.0) == Some(r.0),
{
    let src = arena.edge_source_node(edge).unwrap();
    if src.0 == node.0 {
        arena.edge_target_node(edge).unwrap()
    } else {
        src
    }
}

/// Whether all edges of `node` in direction `dir` lead to one and the
/// same neighbour (as they do where there are none).
pub fn has_single_connection(arena: &LGraphArena, node: LNodeId, dir: Dir) -> (r: bool)
    requires
        arena.wf(),
        node.0 < arena.nodes@.len(),
        forall|k: int|
            0 <= k < edges_in(arena, node.0 as int, dir).len() ==> far_known(
                arena,
                #[trigger] edges_in(arena, node.0 as int, dir)[k],
                node.0,
            ),
    ensures
        r == forall|i: int, j: int|
            0 <= i < edges_in(arena, node.0 as int, dir).len() && 0 <= j < edges_in(arena, node.0 as int, dir).len()
                ==> #[trigger] far(arena, edges_in(arena, node.0 as int, dir)[i], node.0) == #[trigger] far(
                arena,
                edges_in(arena, node.0 as int, dir)[j],
                node.0,
            ),
{
    let ghost es = edges_in(arena, node.0 as int, dir);
    let edges = edges_of(arena, node, dir);
    let mut connection: Option<LNodeId> = None;
    let mut i: usize = 0;
    while i < edges.len()
        invariant
            arena.wf(),
            es == edges_in(arena, node.0 as int, dir),
            edges@.map_values(|e: LEdgeId| e.0) == es,
            forall|k: int| 0 <= k < es.len() ==> far_known(arena, #[trigger] es[k], node.0),
            i <= edges@.len(),
            connection is None <==> i == 0,
            connection matches Some(c) ==> forall|k: int| 0 <= k < i ==> #[trigger] far(arena, es[k], node.0) == Some(c.0),
        decreases edges@.len() - i,
    {
        let e = edges[i];
        proof {
            assert(es[i as int] == e.0);
        }
        let o = other(arena, e, node);
        match connection {
            None => {
                connection = Some(o);
            },
            Some(c) => {
                if c.0 != o.0 {
                    proof {
                        assert(far(arena, es[0], node.0) == Some(c.0));
                        assert(far(arena, es[i as int], node.0) == Some(o.0));
                    }
                    return false;
                }
            },
        }
        i += 1;
    }
    proof {
        if let Some(c) = connection {
            assert forall|x: int, y: int| 0 <= x < es.len() && 0 <= y < es.len() implies #[trigger] far(arena, es[x], node.0)
                == #[trigger] far(arena, es[y], node.0) by {
                assert(far(arena, es[x], node.0) == Some(c.0));
                assert(far(arena, es[y], node.0) == Some(c.0));
            }
        }
    }
    true
}

} // verus!
