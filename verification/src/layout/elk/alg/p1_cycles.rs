//! Phase 1 of the layered algorithm: greedy cycle breaking after Eades,
//! Lin and Smyth.
//!
//! Every node of one graph gets a distinct mark: sinks are peeled off the
//! right end, sources off the left end, and when only cycles remain the
//! node with the largest outflow (outgoing minus incoming edge weight)
//! moves left, ties broken by the graph's random generator. Every edge
//! that points from a higher to a lower mark is then reversed in place, so
//! that, self-loops aside, every edge of the graph points to a higher
//! mark: the graph is acyclic.

use vstd::prelude::*;
use std::collections::VecDeque;
use crate::layout::elk::alg::graph::{gather, gather_both, in_sync, node_index, LEdge, LEdgeId, LGraphArena, LGraphId, LNode, LNodeId, LPortId};
use crate::layout::elk::alg::random::{
    java_int_pow2, java_int_returns, java_int_search, java_is_pow2, java_modulus, java_step, wrap_count, JavaRandom,
};

verus! {

/// The weight cycle breaking gives an edge: its priority plus one when the
/// priority is positive, one otherwise.
pub open spec fn edge_weight(a: &LGraphArena, e: usize) -> int {
    let p = a.edges@[e as int].props.priority;
    if p > 0 {
        p + 1
    } else {
        1
    }
}

/// The total weight of the edges of `s` that `keep` selects.
pub open spec fn weight_sum(a: &LGraphArena, s: Seq<usize>, keep: spec_fn(usize) -> bool) -> int
    decreases s.len(),
{
    if s.len() == 0 {
        0
    } else {
        weight_sum(a, s.drop_last(), keep) + if keep(s.last()) {
            edge_weight(a, s.last())
        } else {
            0
        }
    }
}

/// The node at the source end of an edge.
pub open spec fn source_node(a: &LGraphArena, e: usize) -> Option<usize> {
    a.node_of(a.sources()[e as int])
}

/// The node at the target end of an edge.
pub open spec fn target_node(a: &LGraphArena, e: usize) -> Option<usize> {
    a.node_of(a.targets()[e as int])
}

/// The incoming edges of node `x`, port by port.
pub open spec fn incoming(a: &LGraphArena, x: usize) -> Seq<usize> {
    gather(a.in_lists(), a.port_lists()[x as int])
}

/// The outgoing edges of node `x`, port by port.
pub open spec fn outgoing(a: &LGraphArena, x: usize) -> Seq<usize> {
    gather(a.out_lists(), a.port_lists()[x as int])
}

/// The weight of the edges into `x` that are neither self-loops nor dead.
pub open spec fn in_weight(a: &LGraphArena, x: usize, dead: spec_fn(usize) -> bool) -> int {
    weight_sum(a, incoming(a, x), |e: usize| !dead(e) && source_node(a, e) != Some(x))
}

/// The weight of the edges out of `x` that are neither self-loops nor dead.
pub open spec fn out_weight(a: &LGraphArena, x: usize, dead: spec_fn(usize) -> bool) -> int {
    weight_sum(a, outgoing(a, x), |e: usize| !dead(e) && target_node(a, e) != Some(x))
}

/// No edge is dead.
pub open spec fn none_dead() -> spec_fn(usize) -> bool {
    |e: usize| false
}

/// An edge with an end at one of `nodes` runs between two ports of nodes
/// of `nodes`, neither of them a collector port of a hypernode.
pub open spec fn edge_closed(a: &LGraphArena, nodes: Seq<usize>, e: int) -> bool {
    &&& a.sources()[e] is Some
    &&& a.targets()[e] is Some
    &&& source_node(a, e as usize) is Some
    &&& target_node(a, e as usize) is Some
    &&& nodes.contains(source_node(a, e as usize)->0)
    &&& nodes.contains(target_node(a, e as usize)->0)
    &&& !a.ports@[a.sources()[e]->0 as int].output_collect
    &&& !a.ports@[a.targets()[e]->0 as int].input_collect
}

/// Whether edge `e` has an end at one of `nodes`.
pub open spec fn touches(a: &LGraphArena, nodes: Seq<usize>, e: int) -> bool {
    (source_node(a, e as usize) matches Some(x) && nodes.contains(x)) || (target_node(a, e as usize) matches Some(
        y,
    ) && nodes.contains(y))
}

/// The nodes of one graph, as cycle breaking needs them: listed once each,
/// every edge at one of them runs between two of them, and the edge
/// weights at each node fit an `i32`.
pub open spec fn cycle_input(a: &LGraphArena, nodes: Seq<usize>) -> bool {
    &&& a.wf()
    &&& nodes.no_duplicates()
    &&& nodes.len() < i32::MAX
    &&& forall|k: int| 0 <= k < nodes.len() ==> #[trigger] nodes[k] < a.nodes@.len()
    &&& forall|e: int| 0 <= e < a.edges@.len() && #[trigger] touches(a, nodes, e) ==> edge_closed(a, nodes, e)
    &&& forall|k: int|
        0 <= k < nodes.len() ==> in_weight(a, #[trigger] nodes[k], none_dead()) <= i32::MAX && out_weight(
            a,
            nodes[k],
            none_dead(),
        ) <= i32::MAX
}

/// The scratch id of each node of `nodes` is its position there.
pub open spec fn ids_are_positions(a: &LGraphArena, nodes: Seq<usize>) -> bool {
    forall|k: int| 0 <= k < nodes.len() ==> #[trigger] a.nodes@[nodes[k] as int].id == k
}

// ---------------------------------------------------------------------
// Sums of edge weights.

/// Edge weights are positive.
pub proof fn lemma_weight_positive(a: &LGraphArena, e: usize)
    ensures
        edge_weight(a, e) >= 1,
{
}

/// A weight sum is at least zero and at least the weight of any edge it
/// keeps.
pub proof fn lemma_weight_sum_bounds(a: &LGraphArena, s: Seq<usize>, keep: spec_fn(usize) -> bool, j: int)
    ensures
        weight_sum(a, s, keep) >= 0,
        0 <= j < s.len() && keep(s[j]) ==> weight_sum(a, s, keep) >= edge_weight(a, s[j]),
    decreases s.len(),
{
    if s.len() > 0 {
        lemma_weight_sum_bounds(a, s.drop_last(), keep, j);
        lemma_weight_positive(a, s.last());
    }
}

/// A weight sum over a prefix is at most the whole sum.
pub proof fn lemma_weight_sum_prefix(a: &LGraphArena, s: Seq<usize>, keep: spec_fn(usize) -> bool, j: int)
    requires
        0 <= j <= s.len(),
    ensures
        weight_sum(a, s.subrange(0, j), keep) <= weight_sum(a, s, keep),
    decreases s.len(),
{
    if j < s.len() {
        assert(s.drop_last().subrange(0, j) =~= s.subrange(0, j));
        lemma_weight_sum_prefix(a, s.drop_last(), keep, j);
        lemma_weight_positive(a, s.last());
    } else {
        assert(s.subrange(0, j) =~= s);
    }
}

/// Sums whose selections agree on the sequence are equal.
pub proof fn lemma_weight_sum_congruent(
    a: &LGraphArena,
    s: Seq<usize>,
    keep1: spec_fn(usize) -> bool,
    keep2: spec_fn(usize) -> bool,
)
    requires
        forall|i: int| 0 <= i < s.len() ==> keep1(#[trigger] s[i]) == keep2(s[i]),
    ensures
        weight_sum(a, s, keep1) == weight_sum(a, s, keep2),
    decreases s.len(),
{
    if s.len() > 0 {
        lemma_weight_sum_congruent(a, s.drop_last(), keep1, keep2);
        assert(keep1(s[s.len() - 1]) == keep2(s[s.len() - 1]));
    }
}

/// Dropping one kept edge from the selection of a sequence without
/// repetitions lowers the sum by its weight, if the sequence holds it.
pub proof fn lemma_weight_sum_drop(
    a: &LGraphArena,
    s: Seq<usize>,
    keep1: spec_fn(usize) -> bool,
    keep2: spec_fn(usize) -> bool,
    e0: usize,
)
    requires
        s.no_duplicates(),
        keep1(e0),
        forall|i: int| 0 <= i < s.len() ==> keep2(#[trigger] s[i]) == (keep1(s[i]) && s[i] != e0),
    ensures
        weight_sum(a, s, keep2) == weight_sum(a, s, keep1) - if s.contains(e0) {
            edge_weight(a, e0)
        } else {
            0
        },
    decreases s.len(),
{
    if s.len() > 0 {
        let t = s.drop_last();
        assert forall|i: int| 0 <= i < t.len() implies keep2(#[trigger] t[i]) == (keep1(t[i]) && t[i] != e0) by {
            assert(t[i] == s[i]);
        }
        lemma_weight_sum_drop(a, t, keep1, keep2, e0);
        assert(keep2(s[s.len() - 1]) == (keep1(s[s.len() - 1]) && s[s.len() - 1] != e0));
        if s.last() == e0 {
            assert(!t.contains(e0)) by {
                if t.contains(e0) {
                    let i = choose|i: int| 0 <= i < t.len() && t[i] == e0;
                    assert(s[i] == s[s.len() - 1]);
                }
            }
            assert(s.contains(e0)) by {
                assert(s[s.len() - 1] == e0);
            }
        } else {
            assert(s.contains(e0) == t.contains(e0)) by {
                if s.contains(e0) {
                    let i = choose|i: int| 0 <= i < s.len() && s[i] == e0;
                    assert(t[i] == e0);
                }
                if t.contains(e0) {
                    let i = choose|i: int| 0 <= i < t.len() && t[i] == e0;
                    assert(s[i] == e0);
                }
            }
        }
    }
}

// ---------------------------------------------------------------------
// Edge lists of a node.

/// An edge lies in the gathered lists of some ports exactly when it lies
/// in the list of one of them.
pub proof fn lemma_gather_contains(lists: Seq<Seq<usize>>, ports: Seq<usize>, e: usize)
    ensures
        gather(lists, ports).contains(e) <==> exists|i: int|
            0 <= i < ports.len() && #[trigger] lists[ports[i] as int].contains(e),
    decreases ports.len(),
{
    if ports.len() > 0 {
        let t = ports.drop_last();
        lemma_gather_contains(lists, t, e);
        vstd::seq_lib::lemma_seq_concat_contains_all_elements(gather(lists, t), lists[ports.last() as int], e);
        if gather(lists, ports).contains(e) {
            if lists[ports.last() as int].contains(e) {
                assert(lists[ports[ports.len() - 1] as int].contains(e));
            } else {
                let i = choose|i: int| 0 <= i < t.len() && #[trigger] lists[t[i] as int].contains(e);
                assert(ports[i] == t[i]);
            }
        }
        if exists|i: int| 0 <= i < ports.len() && #[trigger] lists[ports[i] as int].contains(e) {
            let i = choose|i: int| 0 <= i < ports.len() && #[trigger] lists[ports[i] as int].contains(e);
            if i < t.len() {
                assert(t[i] == ports[i]);
            }
        }
    }
}

/// Every edge in the gathered lists of valid ports is a valid edge.
pub proof fn lemma_gather_bounded(ends: Seq<Option<usize>>, lists: Seq<Seq<usize>>, ports: Seq<usize>, j: int)
    requires
        in_sync(ends, lists),
        forall|i: int| 0 <= i < ports.len() ==> #[trigger] ports[i] < lists.len(),
        0 <= j < gather(lists, ports).len(),
    ensures
        gather(lists, ports)[j] < ends.len(),
        ends[gather(lists, ports)[j] as int] matches Some(p) && ports.contains(p),
{
    let g = gather(lists, ports);
    assert(g.contains(g[j]));
    lemma_gather_contains(lists, ports, g[j]);
    let i = choose|i: int| 0 <= i < ports.len() && #[trigger] lists[ports[i] as int].contains(g[j]);
    let k = choose|k: int| 0 <= k < lists[ports[i] as int].len() && lists[ports[i] as int][k] == g[j];
    assert(lists[ports[i] as int][k] < ends.len());
}

/// The gathered lists of distinct ports repeat no edge.
pub proof fn lemma_gather_no_duplicates(ends: Seq<Option<usize>>, lists: Seq<Seq<usize>>, ports: Seq<usize>)
    requires
        in_sync(ends, lists),
        ports.no_duplicates(),
        forall|i: int| 0 <= i < ports.len() ==> #[trigger] ports[i] < lists.len(),
    ensures
        gather(lists, ports).no_duplicates(),
    decreases ports.len(),
{
    if ports.len() > 0 {
        let t = ports.drop_last();
        let last = ports.last();
        assert forall|i: int| 0 <= i < t.len() implies #[trigger] t[i] < lists.len() by {
            assert(t[i] == ports[i]);
        }
        assert(t.no_duplicates()) by {
            assert forall|i: int, j: int| 0 <= i < t.len() && 0 <= j < t.len() && i != j implies t[i] != t[j] by {
                assert(t[i] == ports[i] && t[j] == ports[j]);
            }
        }
        lemma_gather_no_duplicates(ends, lists, t);
        let g = gather(lists, t);
        let l = lists[last as int];
        assert(ports[ports.len() - 1] < lists.len());
        assert forall|i: int, j: int| 0 <= i < g.len() && 0 <= j < l.len() implies g[i] != l[j] by {
            lemma_gather_bounded(ends, lists, t, i);
            let p = ends[g[i] as int]->0;
            let k = choose|k: int| 0 <= k < t.len() && t[k] == p;
            assert(ends[l[j] as int] == Some(last));
            if g[i] == l[j] {
                assert(ports[k] == ports[ports.len() - 1]);
            }
        }
        vstd::seq_lib::lemma_no_dup_in_concat(g, l);
    }
}

/// The ports of a node are valid, distinct ports it owns.
pub proof fn lemma_port_list(a: &LGraphArena, x: usize)
    requires
        a.wf(),
        x < a.nodes@.len(),
    ensures
        a.port_lists()[x as int].no_duplicates(),
        forall|i: int|
            0 <= i < a.port_lists()[x as int].len() ==> #[trigger] a.port_lists()[x as int][i] < a.ports@.len()
                && a.owners()[a.port_lists()[x as int][i] as int] == Some(x),
{
}

/// An edge is among the incoming edges of `x` exactly when its target port
/// belongs to `x`.
pub proof fn lemma_incoming_member(a: &LGraphArena, x: usize, e: usize)
    requires
        a.wf(),
        x < a.nodes@.len(),
    ensures
        incoming(a, x).contains(e) <==> (e < a.edges@.len() && target_node(a, e) == Some(x)),
        incoming(a, x).no_duplicates(),
{
    let ports = a.port_lists()[x as int];
    lemma_port_list(a, x);
    lemma_gather_contains(a.in_lists(), ports, e);
    lemma_gather_no_duplicates(a.targets(), a.in_lists(), ports);
    if incoming(a, x).contains(e) {
        let i = choose|i: int| 0 <= i < ports.len() && #[trigger] a.in_lists()[ports[i] as int].contains(e);
        let k = choose|k: int| 0 <= k < a.in_lists()[ports[i] as int].len() && a.in_lists()[ports[i] as int][k] == e;
        assert(a.in_lists()[ports[i] as int][k] < a.targets().len());
    }
    if e < a.edges@.len() && target_node(a, e) == Some(x) {
        let t = a.targets()[e as int]->0;
        assert(a.targets()[e as int] is Some);
        assert(a.port_lists()[x as int].contains(t));
        let i = choose|i: int| 0 <= i < ports.len() && ports[i] == t;
        assert(a.in_lists()[ports[i] as int].contains(e));
    }
}

/// An edge is among the outgoing edges of `x` exactly when its source
/// port belongs to `x`.
pub proof fn lemma_outgoing_member(a: &LGraphArena, x: usize, e: usize)
    requires
        a.wf(),
        x < a.nodes@.len(),
    ensures
        outgoing(a, x).contains(e) <==> (e < a.edges@.len() && source_node(a, e) == Some(x)),
        outgoing(a, x).no_duplicates(),
{
    let ports = a.port_lists()[x as int];
    lemma_port_list(a, x);
    lemma_gather_contains(a.out_lists(), ports, e);
    lemma_gather_no_duplicates(a.sources(), a.out_lists(), ports);
    if outgoing(a, x).contains(e) {
        let i = choose|i: int| 0 <= i < ports.len() && #[trigger] a.out_lists()[ports[i] as int].contains(e);
        let k = choose|k: int| 0 <= k < a.out_lists()[ports[i] as int].len() && a.out_lists()[ports[i] as int][k] == e;
        assert(a.out_lists()[ports[i] as int][k] < a.sources().len());
    }
    if e < a.edges@.len() && source_node(a, e) == Some(x) {
        let t = a.sources()[e as int]->0;
        assert(a.sources()[e as int] is Some);
        assert(a.port_lists()[x as int].contains(t));
        let i = choose|i: int| 0 <= i < ports.len() && ports[i] == t;
        assert(a.out_lists()[ports[i] as int].contains(e));
    }
}

/// `dead` with one more edge.
pub open spec fn with_dead(dead: spec_fn(usize) -> bool, e: usize) -> spec_fn(usize) -> bool {
    |f: usize| dead(f) || f == e
}

/// Killing edge `e` lowers the in- and out-weight of a node by its weight
/// where the edge was counted, and changes nothing else.
pub proof fn lemma_kill_edge(a: &LGraphArena, dead: spec_fn(usize) -> bool, e: usize, y: usize)
    requires
        a.wf(),
        y < a.nodes@.len(),
    ensures
        in_weight(a, y, with_dead(dead, e)) == in_weight(a, y, dead) - if e < a.edges@.len() && target_node(a, e)
            == Some(y) && source_node(a, e) != Some(y) && !dead(e) {
            edge_weight(a, e)
        } else {
            0
        },
        out_weight(a, y, with_dead(dead, e)) == out_weight(a, y, dead) - if e < a.edges@.len() && source_node(a, e)
            == Some(y) && target_node(a, e) != Some(y) && !dead(e) {
            edge_weight(a, e)
        } else {
            0
        },
{
    lemma_incoming_member(a, y, e);
    lemma_outgoing_member(a, y, e);
    let d2 = with_dead(dead, e);
    let ki1 = |f: usize| !dead(f) && source_node(a, f) != Some(y);
    let ki2 = |f: usize| !d2(f) && source_node(a, f) != Some(y);
    let ko1 = |f: usize| !dead(f) && target_node(a, f) != Some(y);
    let ko2 = |f: usize| !d2(f) && target_node(a, f) != Some(y);
    let si = incoming(a, y);
    let so = outgoing(a, y);
    if ki1(e) {
        lemma_weight_sum_drop(a, si, ki1, ki2, e);
    } else {
        lemma_weight_sum_congruent(a, si, ki1, ki2);
    }
    if ko1(e) {
        lemma_weight_sum_drop(a, so, ko1, ko2, e);
    } else {
        lemma_weight_sum_congruent(a, so, ko1, ko2);
    }
    assert(in_weight(a, y, d2) == weight_sum(a, si, ki2));
    assert(in_weight(a, y, dead) == weight_sum(a, si, ki1));
    assert(out_weight(a, y, d2) == weight_sum(a, so, ko2));
    assert(out_weight(a, y, dead) == weight_sum(a, so, ko1));
}

// ---------------------------------------------------------------------
// The state of the marking loop.

/// Whether node `y` of `nodes` has its mark.
pub open spec fn is_marked(a: &LGraphArena, nodes: Seq<usize>, mark: Seq<i32>, y: usize) -> bool {
    nodes.contains(y) && mark[a.nodes@[y as int].id as int] != 0
}

/// Whether an edge end lies at a marked node other than `except`.
pub open spec fn end_dead(
    a: &LGraphArena,
    nodes: Seq<usize>,
    mark: Seq<i32>,
    except: Option<usize>,
    end: Option<usize>,
) -> bool {
    match end {
        Some(y) => Some(y) != except && is_marked(a, nodes, mark, y),
        None => false,
    }
}

/// The edges with an end at a marked node other than `except`.
pub open spec fn dead_edges(a: &LGraphArena, nodes: Seq<usize>, mark: Seq<i32>, except: Option<usize>) -> spec_fn(
    usize,
) -> bool {
    |e: usize| end_dead(a, nodes, mark, except, source_node(a, e)) || end_dead(a, nodes, mark, except, target_node(a, e))
}

/// Each unmarked node's degrees are the weights of its live edges.
pub open spec fn degrees_inv(
    a: &LGraphArena,
    nodes: Seq<usize>,
    mark: Seq<i32>,
    indeg: Seq<i32>,
    outdeg: Seq<i32>,
    dead: spec_fn(usize) -> bool,
) -> bool {
    &&& mark.len() == nodes.len()
    &&& indeg.len() == nodes.len()
    &&& outdeg.len() == nodes.len()
    &&& forall|k: int|
        0 <= k < nodes.len() && #[trigger] mark[k] == 0 ==> indeg[k] == in_weight(a, nodes[k], dead) && outdeg[k]
            == out_weight(a, nodes[k], dead)
}

/// The two queues hold distinct unmarked nodes, sources with no incoming
/// and sinks with no outgoing weight left, and an unmarked node is queued
/// exactly when one of its degrees is zero.
pub open spec fn queues_inv(
    a: &LGraphArena,
    nodes: Seq<usize>,
    mark: Seq<i32>,
    indeg: Seq<i32>,
    outdeg: Seq<i32>,
    srcs: Seq<LNodeId>,
    sinks: Seq<LNodeId>,
) -> bool {
    &&& srcs.no_duplicates()
    &&& sinks.no_duplicates()
    &&& forall|i: int, j: int| 0 <= i < srcs.len() && 0 <= j < sinks.len() ==> srcs[i] != sinks[j]
    &&& forall|i: int| 0 <= i < srcs.len() ==> !#[trigger] is_marked_or_foreign(a, nodes, mark, srcs[i].0)
    &&& forall|i: int| 0 <= i < sinks.len() ==> !#[trigger] is_marked_or_foreign(a, nodes, mark, sinks[i].0)
    &&& forall|i: int| 0 <= i < srcs.len() ==> indeg[a.nodes@[#[trigger] srcs[i].0 as int].id as int] == 0
    &&& forall|i: int| 0 <= i < sinks.len() ==> outdeg[a.nodes@[#[trigger] sinks[i].0 as int].id as int] == 0
    &&& forall|k: int|
        0 <= k < nodes.len() && #[trigger] mark[k] == 0 ==> ((srcs.contains(LNodeId(nodes[k])) || sinks.contains(
            LNodeId(nodes[k]),
        )) <==> (indeg[k] == 0 || outdeg[k] == 0))
}

/// Whether `y` is not an unmarked node of `nodes`.
pub open spec fn is_marked_or_foreign(a: &LGraphArena, nodes: Seq<usize>, mark: Seq<i32>, y: usize) -> bool {
    !nodes.contains(y) || mark[a.nodes@[y as int].id as int] != 0
}

/// A node of `nodes` sits at the position its id names.
pub proof fn lemma_position(a: &LGraphArena, nodes: Seq<usize>, y: usize)
    requires
        ids_are_positions(a, nodes),
        nodes.contains(y),
    ensures
        a.nodes@[y as int].id < nodes.len(),
        nodes[a.nodes@[y as int].id as int] == y,
{
    let k = choose|k: int| 0 <= k < nodes.len() && nodes[k] == y;
    assert(a.nodes@[nodes[k] as int].id == k);
}

// ---------------------------------------------------------------------
// The marking, step by step.

/// What the marking reads of a graph: the owner of each port, the ports
/// at the ends of each edge, the edge lists of each port, the port list of
/// each node and the priority of each edge.
pub struct CycleView {
    pub owners: Seq<Option<usize>>,
    pub sources: Seq<Option<usize>>,
    pub targets: Seq<Option<usize>>,
    pub ins: Seq<Seq<usize>>,
    pub outs: Seq<Seq<usize>>,
    pub ports: Seq<Seq<usize>>,
    pub priority: Seq<i32>,
}

/// The part of an arena that the marking reads.
pub open spec fn cycle_view(a: &LGraphArena) -> CycleView {
    CycleView {
        owners: a.owners(),
        sources: a.sources(),
        targets: a.targets(),
        ins: a.in_lists(),
        outs: a.out_lists(),
        ports: a.port_lists(),
        priority: a.edges@.map_values(|e: LEdge| e.props.priority),
    }
}

/// The node owning the port at one end of an edge.
pub open spec fn view_end(g: CycleView, p: Option<usize>) -> Option<usize> {
    match p {
        Some(q) => g.owners[q as int],
        None => None,
    }
}

/// The edges of node `x`: port by port, the incoming then the outgoing
/// ones.
pub open spec fn edges_at(g: CycleView, x: usize) -> Seq<usize> {
    gather_both(g.ins, g.outs, g.ports[x as int])
}

/// The degrees of the nodes, by position, and the two queues.
pub struct Queues {
    pub indeg: Seq<i32>,
    pub outdeg: Seq<i32>,
    pub sources: Seq<LNodeId>,
    pub sinks: Seq<LNodeId>,
}

/// Packs degrees and queues.
pub open spec fn queues_of(indeg: Seq<i32>, outdeg: Seq<i32>, sources: Seq<LNodeId>, sinks: Seq<LNodeId>) -> Queues {
    Queues { indeg, outdeg, sources, sinks }
}

/// Takes edge `e` of the just-marked `node` out of the degree of its far
/// end, when that end is another node and still unmarked: the edge's
/// weight comes off the far end's in-degree when the edge leaves `node`,
/// off its out-degree when it enters `node`. The far end joins the back of
/// the sources (sinks) once that degree is down to zero while the other
/// one is still positive.
pub open spec fn relax(g: CycleView, ns: Seq<usize>, node: usize, e: usize, mark: Seq<i32>, q: Queues) -> Queues {
    let s = view_end(g, g.sources[e as int]);
    let t = view_end(g, g.targets[e as int]);
    let p = g.priority[e as int];
    let w: int = if p < 0 {
        1
    } else {
        p + 1
    };
    if s == Some(node) && t is Some && t != Some(node) && mark[ns.index_of(t->0)] == 0 {
        let k = ns.index_of(t->0);
        let v = (q.indeg[k] - w) as i32;
        queues_of(
            q.indeg.update(k, v),
            q.outdeg,
            if v <= 0 && q.outdeg[k] > 0 {
                q.sources.push(LNodeId(t->0))
            } else {
                q.sources
            },
            q.sinks,
        )
    } else if t == Some(node) && s is Some && s != Some(node) && mark[ns.index_of(s->0)] == 0 {
        let k = ns.index_of(s->0);
        let v = (q.outdeg[k] - w) as i32;
        queues_of(
            q.indeg,
            q.outdeg.update(k, v),
            q.sources,
            if v <= 0 && q.indeg[k] > 0 {
                q.sinks.push(LNodeId(s->0))
            } else {
                q.sinks
            },
        )
    } else {
        q
    }
}

/// `relax` applied to the edges of `es`, in order.
pub open spec fn relax_all(g: CycleView, ns: Seq<usize>, node: usize, es: Seq<usize>, mark: Seq<i32>, q: Queues) -> Queues
    decreases es.len(),
{
    if es.len() == 0 {
        q
    } else {
        relax(g, ns, node, es.last(), mark, relax_all(g, ns, node, es.drop_last(), mark, q))
    }
}

/// Relaxing one more edge.
pub proof fn lemma_relax_all_push(g: CycleView, ns: Seq<usize>, node: usize, es: Seq<usize>, e: usize, mark: Seq<i32>, q: Queues)
    ensures
        relax_all(g, ns, node, es.push(e), mark, q) == relax(g, ns, node, e, mark, relax_all(g, ns, node, es, mark, q)),
{
    assert(es.push(e).drop_last() =~= es);
}

/// Lowers the degree of the far end of one edge at a removed node, as the
/// removal takes the edge out of that end's count, and queues the far end
/// once one of its degrees drops to zero.
fn relax_edge(
    a: &LGraphArena,
    Ghost(nodes): Ghost<Seq<usize>>,
    node: LNodeId,
    port: LPortId,
    edge: LEdgeId,
    mark: &Vec<i32>,
    indeg: &mut Vec<i32>,
    outdeg: &mut Vec<i32>,
    sources: &mut VecDeque<LNodeId>,
    sinks: &mut VecDeque<LNodeId>,
    Ghost(dead): Ghost<spec_fn(usize) -> bool>,
)
    requires
        cycle_input(a, nodes),
        ids_are_positions(a, nodes),
        nodes.contains(node.0),
        is_marked(a, nodes, mark@, node.0),
        port.0 < a.ports@.len(),
        a.owners()[port.0 as int] == Some(node.0),
        a.in_lists()[port.0 as int].contains(edge.0) || a.out_lists()[port.0 as int].contains(edge.0),
        forall|y: usize|
            y != node.0 && (source_node(a, edge.0) == Some(y) || target_node(a, edge.0) == Some(y))
                && !#[trigger] is_marked_or_foreign(a, nodes, mark@, y) ==> !dead(edge.0),
        degrees_inv(a, nodes, mark@, old(indeg)@, old(outdeg)@, dead),
        queues_inv(a, nodes, mark@, old(indeg)@, old(outdeg)@, old(sources)@, old(sinks)@),
    ensures
        degrees_inv(a, nodes, mark@, final(indeg)@, final(outdeg)@, with_dead(dead, edge.0)),
        queues_inv(a, nodes, mark@, final(indeg)@, final(outdeg)@, final(sources)@, final(sinks)@),
        in_weight(a, node.0, dead) == 0 ==> final(sinks)@ == old(sinks)@ && in_weight(a, node.0, with_dead(dead, edge.0))
            == 0,
        out_weight(a, node.0, dead) == 0 ==> final(sources)@ == old(sources)@ && out_weight(
            a,
            node.0,
            with_dead(dead, edge.0),
        ) == 0,
        queues_of(final(indeg)@, final(outdeg)@, final(sources)@, final(sinks)@) == relax(
            cycle_view(a),
            nodes,
            node.0,
            edge.0,
            mark@,
            queues_of(old(indeg)@, old(outdeg)@, old(sources)@, old(sinks)@),
        ),
{
    let ghost e = edge.0;
    let ghost n = nodes.len();
    let ghost d2 = with_dead(dead, e);
    proof {
        let k = choose|k: int| 0 <= k < nodes.len() && nodes[k] == node.0;
        assert(node.0 < a.nodes@.len());
        lemma_kill_edge(a, dead, e, node.0);
        lemma_weight_sum_bounds(a, incoming(a, node.0), |f: usize| !d2(f) && source_node(a, f) != Some(node.0), 0);
        lemma_weight_sum_bounds(a, outgoing(a, node.0), |f: usize| !d2(f) && target_node(a, f) != Some(node.0), 0);
    }
    proof {
        if a.in_lists()[port.0 as int].contains(e) {
            let k = choose|k: int| 0 <= k < a.in_lists()[port.0 as int].len() && a.in_lists()[port.0 as int][k] == e;
            assert(a.in_lists()[port.0 as int][k] < a.targets().len());
            assert(a.targets()[e as int] == Some(port.0));
            assert(touches(a, nodes, e as int));
        } else {
            let k = choose|k: int| 0 <= k < a.out_lists()[port.0 as int].len() && a.out_lists()[port.0 as int][k] == e;
            assert(a.out_lists()[port.0 as int][k] < a.sources().len());
            assert(a.sources()[e as int] == Some(port.0));
            assert(touches(a, nodes, e as int));
        }
        assert(edge_closed(a, nodes, e as int));
    }
    let src = a.edges[edge.0].source.unwrap();
    let tgt = a.edges[edge.0].target.unwrap();
    let connected = if src == port {
        tgt
    } else {
        src
    };
    proof {
        assert(a.sources()[e as int] == Some(src.0));
        assert(a.targets()[e as int] == Some(tgt.0));
        assert(src.0 < a.ports@.len() && tgt.0 < a.ports@.len());
        if src != port {
            assert(a.targets()[e as int] == Some(port.0)) by {
                if !a.in_lists()[port.0 as int].contains(e) {
                    let k = choose|k: int|
                        0 <= k < a.out_lists()[port.0 as int].len() && a.out_lists()[port.0 as int][k] == e;
                    assert(a.sources()[a.out_lists()[port.0 as int][k] as int] == Some(port.0));
                } else {
                    let k = choose|k: int|
                        0 <= k < a.in_lists()[port.0 as int].len() && a.in_lists()[port.0 as int][k] == e;
                    assert(a.targets()[a.in_lists()[port.0 as int][k] as int] == Some(port.0));
                }
            }
        }
    }
    let endpoint = a.ports[connected.0].owner.unwrap();
    proof {
        assert(a.owners()[connected.0 as int] == Some(endpoint.0));
        if src == port {
            assert(source_node(a, e) == Some(node.0));
            assert(target_node(a, e) == Some(endpoint.0));
        } else {
            assert(target_node(a, e) == Some(node.0));
            assert(source_node(a, e) == Some(endpoint.0));
        }
    }
    if endpoint == node {
        proof {
            assert forall|k: int| 0 <= k < n && #[trigger] mark@[k] == 0 implies indeg@[k] == in_weight(
                a,
                nodes[k],
                d2,
            ) && outdeg@[k] == out_weight(a, nodes[k], d2) by {
                lemma_kill_edge(a, dead, e, nodes[k]);
                lemma_position(a, nodes, node.0);
            }
            assert(source_node(a, e) == view_end(cycle_view(a), cycle_view(a).sources[e as int]));
            assert(target_node(a, e) == view_end(cycle_view(a), cycle_view(a).targets[e as int]));
            assert(indeg@ == old(indeg)@ && outdeg@ == old(outdeg)@ && sources@ == old(sources)@ && sinks@ == old(sinks)@);
        }
        return;
    }
    let mut priority = a.edges[edge.0].props.priority;
    if priority < 0 {
        priority = 0;
    }
    proof {
        lemma_position(a, nodes, endpoint.0);
        lemma_position(a, nodes, node.0);
        assert(priority + 1 == edge_weight(a, e));
    }
    let index = a.nodes[endpoint.0].id;
    if mark[index] == 0 {
        proof {
            assert(!is_marked_or_foreign(a, nodes, mark@, endpoint.0));
            assert(!dead(e));
        }
        if tgt == connected {
            proof {
                assert(src == port);
                lemma_outgoing_member(a, node.0, e);
                let jm = choose|jm: int| 0 <= jm < outgoing(a, node.0).len() && outgoing(a, node.0)[jm] == e;
                lemma_weight_sum_bounds(
                    a,
                    outgoing(a, node.0),
                    |f: usize| !dead(f) && target_node(a, f) != Some(node.0),
                    jm,
                );
                assert(out_weight(a, node.0, dead) > 0);
                lemma_incoming_member(a, endpoint.0, e);
                let j = choose|j: int| 0 <= j < incoming(a, endpoint.0).len() && incoming(a, endpoint.0)[j] == e;
                lemma_weight_sum_bounds(
                    a,
                    incoming(a, endpoint.0),
                    |f: usize| !dead(f) && source_node(a, f) != Some(endpoint.0),
                    j,
                );
                assert(indeg@[index as int] == in_weight(a, endpoint.0, dead));
                lemma_weight_sum_bounds(
                    a,
                    outgoing(a, endpoint.0),
                    |f: usize| !dead(f) && target_node(a, f) != Some(endpoint.0),
                    0,
                );
                assert(outdeg@[index as int] == out_weight(a, endpoint.0, dead));
            }
            let v = indeg[index] - (priority + 1);
            indeg.set(index, v);
            proof {
                assert(v >= 0);
                assert(LNodeId(endpoint.0) == endpoint);
                assert(nodes[index as int] == endpoint.0);
                assert((old(sources)@.contains(endpoint) || old(sinks)@.contains(endpoint)) <==> (old(indeg)@[
                    index as int] == 0 || old(outdeg)@[index as int] == 0));
            }
            if v <= 0 && outdeg[index] > 0 {
                sources.push_back(endpoint);
                proof {
                    assert(sources@[sources@.len() - 1] == endpoint);
                    assert(sources@.contains(endpoint));
                }
            }
            proof {
                assert forall|i: int| 0 <= i < sources@.len() implies indeg@[a.nodes@[#[trigger] sources@[i].0 as int].id as int] == 0 by {
                    if i < old(sources)@.len() {
                        assert(sources@[i] == old(sources)@[i]);
                        assert(!is_marked_or_foreign(a, nodes, mark@, old(sources)@[i].0));
                        assert(old(indeg)@[a.nodes@[old(sources)@[i].0 as int].id as int] == 0);
                        lemma_position(a, nodes, old(sources)@[i].0);
                    }
                }
                assert forall|i: int| 0 <= i < sinks@.len() implies outdeg@[a.nodes@[#[trigger] sinks@[i].0 as int].id as int] == 0 by {
                    assert(old(outdeg)@[a.nodes@[old(sinks)@[i].0 as int].id as int] == 0);
                }
            }
            proof {
                assert(old(sources)@.contains(endpoint) ==> sources@.contains(endpoint)) by {
                    if old(sources)@.contains(endpoint) {
                        let i = choose|i: int| 0 <= i < old(sources)@.len() && old(sources)@[i] == endpoint;
                        assert(sources@[i] == old(sources)@[i]);
                    }
                }
                if sources@ != old(sources)@ {
                    assert(sources@[sources@.len() - 1] == endpoint);
                }
                assert(LNodeId(endpoint.0) == endpoint);
                assert(nodes[index as int] == endpoint.0);
                assert(mark@[index as int] == 0);
                assert((old(sources)@.contains(LNodeId(nodes[index as int])) || old(sinks)@.contains(
                    LNodeId(nodes[index as int]),
                )) <==> (old(indeg)@[index as int] == 0 || old(outdeg)@[index as int] == 0));
                assert(old(indeg)@[index as int] == indeg@[index as int] + edge_weight(a, e));
                assert((sources@.contains(endpoint) || sinks@.contains(endpoint)) <==> (indeg@[index as int] == 0
                    || outdeg@[index as int] == 0));
            }
        } else {
            proof {
                lemma_incoming_member(a, node.0, e);
                let jm = choose|jm: int| 0 <= jm < incoming(a, node.0).len() && incoming(a, node.0)[jm] == e;
                lemma_weight_sum_bounds(
                    a,
                    incoming(a, node.0),
                    |f: usize| !dead(f) && source_node(a, f) != Some(node.0),
                    jm,
                );
                assert(in_weight(a, node.0, dead) > 0);
                lemma_outgoing_member(a, endpoint.0, e);
                let j = choose|j: int| 0 <= j < outgoing(a, endpoint.0).len() && outgoing(a, endpoint.0)[j] == e;
                lemma_weight_sum_bounds(
                    a,
                    outgoing(a, endpoint.0),
                    |f: usize| !dead(f) && target_node(a, f) != Some(endpoint.0),
                    j,
                );
                assert(outdeg@[index as int] == out_weight(a, endpoint.0, dead));
                lemma_weight_sum_bounds(
                    a,
                    incoming(a, endpoint.0),
                    |f: usize| !dead(f) && source_node(a, f) != Some(endpoint.0),
                    0,
                );
                assert(indeg@[index as int] == in_weight(a, endpoint.0, dead));
            }
            let v = outdeg[index] - (priority + 1);
            outdeg.set(index, v);
            proof {
                assert(v >= 0);
                assert(LNodeId(endpoint.0) == endpoint);
                assert(nodes[index as int] == endpoint.0);
                assert((old(sources)@.contains(endpoint) || old(sinks)@.contains(endpoint)) <==> (old(indeg)@[
                    index as int] == 0 || old(outdeg)@[index as int] == 0));
            }
            if v <= 0 && indeg[index] > 0 {
                sinks.push_back(endpoint);
                proof {
                    assert(sinks@[sinks@.len() - 1] == endpoint);
                    assert(sinks@.contains(endpoint));
                }
            }
            proof {
                assert forall|i: int| 0 <= i < sinks@.len() implies outdeg@[a.nodes@[#[trigger] sinks@[i].0 as int].id as int] == 0 by {
                    if i < old(sinks)@.len() {
                        assert(sinks@[i] == old(sinks)@[i]);
                        assert(!is_marked_or_foreign(a, nodes, mark@, old(sinks)@[i].0));
                        assert(old(outdeg)@[a.nodes@[old(sinks)@[i].0 as int].id as int] == 0);
                        lemma_position(a, nodes, old(sinks)@[i].0);
                    }
                }
                assert forall|i: int| 0 <= i < sources@.len() implies indeg@[a.nodes@[#[trigger] sources@[i].0 as int].id as int] == 0 by {
                    assert(old(indeg)@[a.nodes@[old(sources)@[i].0 as int].id as int] == 0);
                }
            }
            proof {
                assert(old(sinks)@.contains(endpoint) ==> sinks@.contains(endpoint)) by {
                    if old(sinks)@.contains(endpoint) {
                        let i = choose|i: int| 0 <= i < old(sinks)@.len() && old(sinks)@[i] == endpoint;
                        assert(sinks@[i] == old(sinks)@[i]);
                    }
                }
                if sinks@ != old(sinks)@ {
                    assert(sinks@[sinks@.len() - 1] == endpoint);
                }
                assert(LNodeId(endpoint.0) == endpoint);
                assert(nodes[index as int] == endpoint.0);
                assert(mark@[index as int] == 0);
                assert((old(sources)@.contains(LNodeId(nodes[index as int])) || old(sinks)@.contains(
                    LNodeId(nodes[index as int]),
                )) <==> (old(indeg)@[index as int] == 0 || old(outdeg)@[index as int] == 0));
                assert(old(outdeg)@[index as int] == outdeg@[index as int] + edge_weight(a, e));
                assert((sources@.contains(endpoint) || sinks@.contains(endpoint)) <==> (indeg@[index as int] == 0
                    || outdeg@[index as int] == 0));
            }
        }
        proof {
            assert forall|k: int| 0 <= k < n && #[trigger] mark@[k] == 0 implies indeg@[k] == in_weight(
                a,
                nodes[k],
                d2,
            ) && outdeg@[k] == out_weight(a, nodes[k], d2) by {
                lemma_kill_edge(a, dead, e, nodes[k]);
                if k != index {
                    assert(nodes[k] != endpoint.0);
                    assert(nodes[k] != node.0);
                }
            }
            assert forall|i: int| 0 <= i < sources@.len() implies !#[trigger] is_marked_or_foreign(
                a,
                nodes,
                mark@,
                sources@[i].0,
            ) by {
                if i < old(sources)@.len() {
                    assert(sources@[i] == old(sources)@[i]);
                    assert(!is_marked_or_foreign(a, nodes, mark@, old(sources)@[i].0));
                } else {
                    assert(sources@[i] == endpoint);
                    assert(nodes.contains(endpoint.0));
                    assert(mark@[a.nodes@[endpoint.0 as int].id as int] == 0);
                }
            }
            assert forall|i: int| 0 <= i < sinks@.len() implies !#[trigger] is_marked_or_foreign(
                a,
                nodes,
                mark@,
                sinks@[i].0,
            ) by {
                if i < old(sinks)@.len() {
                    assert(sinks@[i] == old(sinks)@[i]);
                    assert(!is_marked_or_foreign(a, nodes, mark@, old(sinks)@[i].0));
                } else {
                    assert(sinks@[i] == endpoint);
                    assert(nodes.contains(endpoint.0));
                    assert(mark@[a.nodes@[endpoint.0 as int].id as int] == 0);
                }
            }
            assert forall|k: int| 0 <= k < n && #[trigger] mark@[k] == 0 implies ((sources@.contains(
                LNodeId(nodes[k]),
            ) || sinks@.contains(LNodeId(nodes[k]))) <==> (indeg@[k] == 0 || outdeg@[k] == 0)) by {
                assert(old(sources)@.contains(LNodeId(nodes[k])) ==> sources@.contains(LNodeId(nodes[k]))) by {
                    if old(sources)@.contains(LNodeId(nodes[k])) {
                        let i = choose|i: int| 0 <= i < old(sources)@.len() && old(sources)@[i] == LNodeId(nodes[k]);
                        assert(sources@[i] == old(sources)@[i]);
                    }
                }
                assert(old(sinks)@.contains(LNodeId(nodes[k])) ==> sinks@.contains(LNodeId(nodes[k]))) by {
                    if old(sinks)@.contains(LNodeId(nodes[k])) {
                        let i = choose|i: int| 0 <= i < old(sinks)@.len() && old(sinks)@[i] == LNodeId(nodes[k]);
                        assert(sinks@[i] == old(sinks)@[i]);
                    }
                }
                if sources@.contains(LNodeId(nodes[k])) && sources@ != old(sources)@ {
                    let i = choose|i: int| 0 <= i < sources@.len() && sources@[i] == LNodeId(nodes[k]);
                    if i < old(sources)@.len() {
                        assert(old(sources)@[i] == sources@[i]);
                    }
                }
                if sinks@.contains(LNodeId(nodes[k])) && sinks@ != old(sinks)@ {
                    let i = choose|i: int| 0 <= i < sinks@.len() && sinks@[i] == LNodeId(nodes[k]);
                    if i < old(sinks)@.len() {
                        assert(old(sinks)@[i] == sinks@[i]);
                    }
                }
                if k == index {
                    assert(nodes[k] == endpoint.0);
                } else {
                    assert(nodes[k] != endpoint.0);
                }
            }
            if sources@ != old(sources)@ {
                assert(!old(sources)@.contains(endpoint));
                assert(!old(sinks)@.contains(endpoint));
                assert forall|i: int, j: int| 0 <= i < sources@.len() && 0 <= j < sources@.len() && i != j
                    implies sources@[i] != sources@[j] by {
                    if i < old(sources)@.len() && j < old(sources)@.len() {
                    } else if i < old(sources)@.len() {
                        assert(old(sources)@.contains(sources@[i]));
                    } else {
                        assert(old(sources)@.contains(sources@[j]));
                    }
                }
                assert forall|i: int, j: int| 0 <= i < sources@.len() && 0 <= j < sinks@.len() implies sources@[i]
                    != sinks@[j] by {
                    if i == old(sources)@.len() {
                        assert(old(sinks)@.contains(sinks@[j]));
                    }
                }
            }
            if sinks@ != old(sinks)@ {
                assert(!old(sources)@.contains(endpoint));
                assert(!old(sinks)@.contains(endpoint));
                assert forall|i: int, j: int| 0 <= i < sinks@.len() && 0 <= j < sinks@.len() && i != j implies sinks@[i]
                    != sinks@[j] by {
                    if i < old(sinks)@.len() && j < old(sinks)@.len() {
                    } else if i < old(sinks)@.len() {
                        assert(old(sinks)@.contains(sinks@[i]));
                    } else {
                        assert(old(sinks)@.contains(sinks@[j]));
                    }
                }
                assert forall|i: int, j: int| 0 <= i < sources@.len() && 0 <= j < sinks@.len() implies sources@[i]
                    != sinks@[j] by {
                    if j == old(sinks)@.len() {
                        assert(old(sources)@.contains(sources@[i]));
                    }
                }
            }
        }
    } else {
        proof {
            assert forall|k: int| 0 <= k < n && #[trigger] mark@[k] == 0 implies indeg@[k] == in_weight(
                a,
                nodes[k],
                d2,
            ) && outdeg@[k] == out_weight(a, nodes[k], d2) by {
                lemma_kill_edge(a, dead, e, nodes[k]);
                assert(nodes[k] != endpoint.0);
                assert(nodes[k] != node.0);
            }
        }
    }
    proof {
        lemma_index_of_id(a, nodes, endpoint.0);
        assert(source_node(a, e) == view_end(cycle_view(a), cycle_view(a).sources[e as int]));
        assert(target_node(a, e) == view_end(cycle_view(a), cycle_view(a).targets[e as int]));
        assert(cycle_view(a).priority[e as int] == a.edges@[e as int].props.priority);
    }
}

/// Whether an edge is in the incoming or the outgoing list of port `p`.
pub open spec fn at_port(ins: Seq<Seq<usize>>, outs: Seq<Seq<usize>>, p: usize, e: usize) -> bool {
    ins[p as int].contains(e) || outs[p as int].contains(e)
}

/// An edge lies in the gathered incoming and outgoing lists of some ports
/// exactly when it lies in one list of one of them.
pub proof fn lemma_gather_both_contains(ins: Seq<Seq<usize>>, outs: Seq<Seq<usize>>, ports: Seq<usize>, e: usize)
    ensures
        gather_both(ins, outs, ports).contains(e) <==> exists|i: int|
            0 <= i < ports.len() && #[trigger] at_port(ins, outs, ports[i], e),
    decreases ports.len(),
{
    if ports.len() > 0 {
        let t = ports.drop_last();
        let l = ports.last();
        let g = gather_both(ins, outs, t);
        lemma_gather_both_contains(ins, outs, t, e);
        vstd::seq_lib::lemma_seq_concat_contains_all_elements(g + ins[l as int], outs[l as int], e);
        vstd::seq_lib::lemma_seq_concat_contains_all_elements(g, ins[l as int], e);
        assert(gather_both(ins, outs, ports) == g + ins[l as int] + outs[l as int]);
        if g.contains(e) {
            let i = choose|i: int| 0 <= i < t.len() && #[trigger] at_port(ins, outs, t[i], e);
            assert(t[i] == ports[i]);
            assert(at_port(ins, outs, ports[i], e));
        }
        if at_port(ins, outs, l, e) {
            assert(at_port(ins, outs, ports[ports.len() - 1], e));
        }
        if exists|i: int| 0 <= i < ports.len() && #[trigger] at_port(ins, outs, ports[i], e) {
            let i = choose|i: int| 0 <= i < ports.len() && #[trigger] at_port(ins, outs, ports[i], e);
            if i < t.len() {
                assert(t[i] == ports[i]);
                assert(at_port(ins, outs, t[i], e));
            } else {
                assert(ports[i] == l);
            }
        }
    }
}

/// Degrees agree with any death predicate that agrees on the valid edges.
pub proof fn lemma_degrees_congruent(
    a: &LGraphArena,
    nodes: Seq<usize>,
    mark: Seq<i32>,
    indeg: Seq<i32>,
    outdeg: Seq<i32>,
    d1: spec_fn(usize) -> bool,
    d2: spec_fn(usize) -> bool,
)
    requires
        cycle_input(a, nodes),
        degrees_inv(a, nodes, mark, indeg, outdeg, d1),
        forall|e: usize| e < a.edges@.len() ==> #[trigger] d1(e) == d2(e),
    ensures
        degrees_inv(a, nodes, mark, indeg, outdeg, d2),
{
    assert forall|k: int| 0 <= k < nodes.len() && #[trigger] mark[k] == 0 implies indeg[k] == in_weight(
        a,
        nodes[k],
        d2,
    ) && outdeg[k] == out_weight(a, nodes[k], d2) by {
        let x = nodes[k];
        assert(x < a.nodes@.len());
        let si = incoming(a, x);
        let so = outgoing(a, x);
        assert forall|i: int| 0 <= i < si.len() implies (|f: usize| !d1(f) && source_node(a, f) != Some(x))(
            #[trigger] si[i],
        ) == (|f: usize| !d2(f) && source_node(a, f) != Some(x))(si[i]) by {
            assert(si.contains(si[i]));
            lemma_incoming_member(a, x, si[i]);
        }
        assert forall|i: int| 0 <= i < so.len() implies (|f: usize| !d1(f) && target_node(a, f) != Some(x))(
            #[trigger] so[i],
        ) == (|f: usize| !d2(f) && target_node(a, f) != Some(x))(so[i]) by {
            assert(so.contains(so[i]));
            lemma_outgoing_member(a, x, so[i]);
        }
        lemma_weight_sum_congruent(
            a,
            si,
            |f: usize| !d1(f) && source_node(a, f) != Some(x),
            |f: usize| !d2(f) && source_node(a, f) != Some(x),
        );
        lemma_weight_sum_congruent(
            a,
            so,
            |f: usize| !d1(f) && target_node(a, f) != Some(x),
            |f: usize| !d2(f) && target_node(a, f) != Some(x),
        );
    }
}

/// The dead edges while the edges at `ports[..i]` of a removed node have
/// been handled.
pub open spec fn handled_upto(
    a: &LGraphArena,
    base: spec_fn(usize) -> bool,
    ports: Seq<usize>,
    i: int,
) -> spec_fn(usize) -> bool {
    |e: usize| base(e) || gather_both(a.in_lists(), a.out_lists(), ports.subrange(0, i)).contains(e)
}

/// ... and the first `j` incoming edges of `ports[i]`.
pub open spec fn handled_in(
    a: &LGraphArena,
    base: spec_fn(usize) -> bool,
    ports: Seq<usize>,
    i: int,
    j: int,
) -> spec_fn(usize) -> bool {
    |e: usize| handled_upto(a, base, ports, i)(e) || a.in_lists()[ports[i] as int].subrange(0, j).contains(e)
}

/// ... and every incoming and the first `j` outgoing edges of `ports[i]`.
pub open spec fn handled_out(
    a: &LGraphArena,
    base: spec_fn(usize) -> bool,
    ports: Seq<usize>,
    i: int,
    j: int,
) -> spec_fn(usize) -> bool {
    |e: usize|
        handled_upto(a, base, ports, i)(e) || a.in_lists()[ports[i] as int].contains(e) || a.out_lists()[
            ports[i] as int].subrange(0, j).contains(e)
}

/// A prefix one longer holds one more element.
pub proof fn lemma_prefix_step(s: Seq<usize>, j: int, e: usize)
    requires
        0 <= j < s.len(),
    ensures
        s.subrange(0, j + 1).contains(e) <==> (s.subrange(0, j).contains(e) || e == s[j]),
{
    let t = s.subrange(0, j + 1);
    let u = s.subrange(0, j);
    if t.contains(e) {
        let k = choose|k: int| 0 <= k < t.len() && t[k] == e;
        if k < j {
            assert(u[k] == e);
        }
    }
    if u.contains(e) {
        let k = choose|k: int| 0 <= k < u.len() && u[k] == e;
        assert(t[k] == e);
    }
    if e == s[j] {
        assert(t[j] == e);
    }
}

/// An edge in the list of port `p` names `p` at that end.
pub proof fn lemma_list_end(ends: Seq<Option<usize>>, lists: Seq<Seq<usize>>, p: usize, e: usize)
    requires
        in_sync(ends, lists),
        p < lists.len(),
        lists[p as int].contains(e),
    ensures
        e < ends.len(),
        ends[e as int] == Some(p),
{
    let k = choose|k: int| 0 <= k < lists[p as int].len() && lists[p as int][k] == e;
    assert(lists[p as int][k] < ends.len());
}

/// Once every port of `node` is handled, the dead edges are those with an
/// end at a marked node, `node` included.
pub proof fn lemma_handled_all(a: &LGraphArena, nodes: Seq<usize>, mark: Seq<i32>, node: usize, e: usize)
    requires
        cycle_input(a, nodes),
        ids_are_positions(a, nodes),
        nodes.contains(node),
        is_marked(a, nodes, mark, node),
        e < a.edges@.len(),
    ensures
        handled_upto(
            a,
            dead_edges(a, nodes, mark, Some(node)),
            a.port_lists()[node as int],
            a.port_lists()[node as int].len() as int,
        )(e) == dead_edges(a, nodes, mark, None)(e),
{
    let ps = a.port_lists()[node as int];
    lemma_position(a, nodes, node);
    lemma_port_list(a, node);
    assert(ps.subrange(0, ps.len() as int) =~= ps);
    lemma_gather_both_contains(a.in_lists(), a.out_lists(), ps, e);
    let here = source_node(a, e) == Some(node) || target_node(a, e) == Some(node);
    if gather_both(a.in_lists(), a.out_lists(), ps).contains(e) {
        let i = choose|i: int| 0 <= i < ps.len() && #[trigger] at_port(a.in_lists(), a.out_lists(), ps[i], e);
        if a.in_lists()[ps[i] as int].contains(e) {
            lemma_list_end(a.targets(), a.in_lists(), ps[i], e);
        } else {
            lemma_list_end(a.sources(), a.out_lists(), ps[i], e);
        }
        assert(here);
    }
    if target_node(a, e) == Some(node) {
        let t = a.targets()[e as int]->0;
        assert(ps.contains(t));
        let i = choose|i: int| 0 <= i < ps.len() && ps[i] == t;
        assert(at_port(a.in_lists(), a.out_lists(), ps[i], e));
    }
    if source_node(a, e) == Some(node) {
        let t = a.sources()[e as int]->0;
        assert(ps.contains(t));
        let i = choose|i: int| 0 <= i < ps.len() && ps[i] == t;
        assert(at_port(a.in_lists(), a.out_lists(), ps[i], e));
    }
}

/// Takes the edges of a just-marked node out of
/// the degrees of its unmarked neighbours, port by port, incoming edges
/// before outgoing ones, and queues every neighbour one of whose degrees
/// drops to zero.
fn update_neighbors(
    a: &LGraphArena,
    Ghost(nodes): Ghost<Seq<usize>>,
    node: LNodeId,
    mark: &Vec<i32>,
    indeg: &mut Vec<i32>,
    outdeg: &mut Vec<i32>,
    sources: &mut VecDeque<LNodeId>,
    sinks: &mut VecDeque<LNodeId>,
)
    requires
        cycle_input(a, nodes),
        ids_are_positions(a, nodes),
        nodes.contains(node.0),
        is_marked(a, nodes, mark@, node.0),
        degrees_inv(a, nodes, mark@, old(indeg)@, old(outdeg)@, dead_edges(a, nodes, mark@, Some(node.0))),
        queues_inv(a, nodes, mark@, old(indeg)@, old(outdeg)@, old(sources)@, old(sinks)@),
    ensures
        degrees_inv(a, nodes, mark@, final(indeg)@, final(outdeg)@, dead_edges(a, nodes, mark@, None)),
        queues_inv(a, nodes, mark@, final(indeg)@, final(outdeg)@, final(sources)@, final(sinks)@),
        in_weight(a, node.0, dead_edges(a, nodes, mark@, Some(node.0))) == 0 ==> final(sinks)@ == old(sinks)@,
        out_weight(a, node.0, dead_edges(a, nodes, mark@, Some(node.0))) == 0 ==> final(sources)@ == old(sources)@,
        queues_of(final(indeg)@, final(outdeg)@, final(sources)@, final(sinks)@) == relax_all(
            cycle_view(a),
            nodes,
            node.0,
            edges_at(cycle_view(a), node.0),
            mark@,
            queues_of(old(indeg)@, old(outdeg)@, old(sources)@, old(sinks)@),
        ),
{
    let ghost g = cycle_view(a);
    let ghost q0 = queues_of(indeg@, outdeg@, sources@, sinks@);
    let ghost base = dead_edges(a, nodes, mark@, Some(node.0));
    let ghost in0 = in_weight(a, node.0, base) == 0;
    let ghost out0 = out_weight(a, node.0, base) == 0;
    let ghost sinks0 = sinks@;
    let ghost sources0 = sources@;
    let ghost ps = a.port_lists()[node.0 as int];
    proof {
        lemma_position(a, nodes, node.0);
        lemma_port_list(a, node.0);
        assert(gather_both(a.in_lists(), a.out_lists(), ps.subrange(0, 0)) =~= Seq::<usize>::empty());
        assert(handled_upto(a, base, ps, 0) =~= base);
    }
    let ports = &a.nodes[node.0].ports;
    let mut i: usize = 0;
    while i < ports.len()
        invariant
            cycle_input(a, nodes),
            ids_are_positions(a, nodes),
            nodes.contains(node.0),
            is_marked(a, nodes, mark@, node.0),
            node.0 < a.nodes@.len(),
            ps == a.port_lists()[node.0 as int],
            ports@.map_values(|p: LPortId| p.0) == ps,
            ps.no_duplicates(),
            forall|k: int| 0 <= k < ps.len() ==> #[trigger] ps[k] < a.ports@.len() && a.owners()[ps[k] as int] == Some(node.0),
            i <= ports@.len(),
            base == dead_edges(a, nodes, mark@, Some(node.0)),
            degrees_inv(a, nodes, mark@, indeg@, outdeg@, handled_upto(a, base, ps, i as int)),
            in0 ==> sinks@ == sinks0 && in_weight(a, node.0, handled_upto(a, base, ps, i as int)) == 0,
            out0 ==> sources@ == sources0 && out_weight(a, node.0, handled_upto(a, base, ps, i as int)) == 0,
            queues_inv(a, nodes, mark@, indeg@, outdeg@, sources@, sinks@),
            g == cycle_view(a),
            queues_of(indeg@, outdeg@, sources@, sinks@) == relax_all(
                g,
                nodes,
                node.0,
                gather_both(a.in_lists(), a.out_lists(), ps.subrange(0, i as int)),
                mark@,
                q0,
            ),
        decreases ports@.len() - i,
    {
        let port = ports[i];
        let ghost pi = i as int;
        proof {
            assert(ps[pi] == port.0);
            assert(handled_in(a, base, ps, pi, 0) =~= handled_upto(a, base, ps, pi));
            assert(gather_both(a.in_lists(), a.out_lists(), ps.subrange(0, pi)) + a.in_lists()[port.0 as int].subrange(0, 0)
                =~= gather_both(a.in_lists(), a.out_lists(), ps.subrange(0, pi)));
        }
        let ins = &a.ports[port.0].incoming_edges;
        let mut j: usize = 0;
        while j < ins.len()
            invariant
                cycle_input(a, nodes),
                ids_are_positions(a, nodes),
                nodes.contains(node.0),
                is_marked(a, nodes, mark@, node.0),
                node.0 < a.nodes@.len(),
                ps == a.port_lists()[node.0 as int],
                ps.no_duplicates(),
                forall|k: int| 0 <= k < ps.len() ==> #[trigger] ps[k] < a.ports@.len() && a.owners()[ps[k] as int] == Some(node.0),
                0 <= pi < ps.len(),
                ps[pi] == port.0,
                ins@.map_values(|e: LEdgeId| e.0) == a.in_lists()[port.0 as int],
                j <= ins@.len(),
                base == dead_edges(a, nodes, mark@, Some(node.0)),
                degrees_inv(a, nodes, mark@, indeg@, outdeg@, handled_in(a, base, ps, pi, j as int)),
                in0 ==> sinks@ == sinks0 && in_weight(a, node.0, handled_in(a, base, ps, pi, j as int)) == 0,
                out0 ==> sources@ == sources0 && out_weight(a, node.0, handled_in(a, base, ps, pi, j as int)) == 0,
                queues_inv(a, nodes, mark@, indeg@, outdeg@, sources@, sinks@),
                g == cycle_view(a),
                queues_of(indeg@, outdeg@, sources@, sinks@) == relax_all(
                    g,
                    nodes,
                    node.0,
                    gather_both(a.in_lists(), a.out_lists(), ps.subrange(0, pi)) + a.in_lists()[port.0 as int].subrange(0, j as int),
                    mark@,
                    q0,
                ),
            decreases ins@.len() - j,
        {
            let edge = ins[j];
            let ghost dead = handled_in(a, base, ps, pi, j as int);
            proof {
                let l = a.in_lists()[port.0 as int];
                assert(l[j as int] == edge.0);
                assert(l.contains(edge.0));
                lemma_list_end(a.targets(), a.in_lists(), port.0, edge.0);
                assert forall|y: usize|
                    y != node.0 && (source_node(a, edge.0) == Some(y) || target_node(a, edge.0) == Some(y))
                        && !#[trigger] is_marked_or_foreign(a, nodes, mark@, y) implies !dead(edge.0) by {
                    assert(target_node(a, edge.0) == Some(node.0));
                    assert(!base(edge.0));
                    lemma_gather_both_contains(a.in_lists(), a.out_lists(), ps.subrange(0, pi), edge.0);
                    if gather_both(a.in_lists(), a.out_lists(), ps.subrange(0, pi)).contains(edge.0) {
                        let i2 = choose|i2: int|
                            0 <= i2 < ps.subrange(0, pi).len() && #[trigger] at_port(
                                a.in_lists(),
                                a.out_lists(),
                                ps.subrange(0, pi)[i2],
                                edge.0,
                            );
                        let q = ps[i2];
                        assert(ps.subrange(0, pi)[i2] == q);
                        assert(i2 < pi);
                        assert(ps[i2] != ps[pi]);
                        assert(a.owners()[q as int] == Some(node.0));
                        if a.in_lists()[q as int].contains(edge.0) {
                            lemma_list_end(a.targets(), a.in_lists(), q, edge.0);
                        } else {
                            lemma_list_end(a.sources(), a.out_lists(), q, edge.0);
                        }
                        assert(false);
                    }
                    assert(l.no_duplicates());
                    if l.subrange(0, j as int).contains(edge.0) {
                        let k = choose|k: int| 0 <= k < j && l.subrange(0, j as int)[k] == edge.0;
                        assert(l[k] == l[j as int]);
                        assert(false);
                    }
                }
            }
            let ghost qb = queues_of(indeg@, outdeg@, sources@, sinks@);
            relax_edge(a, Ghost(nodes), node, port, edge, mark, indeg, outdeg, sources, sinks, Ghost(dead));
            proof {
                let l = a.in_lists()[port.0 as int];
                let pre = gather_both(a.in_lists(), a.out_lists(), ps.subrange(0, pi));
                lemma_relax_all_push(g, nodes, node.0, pre + l.subrange(0, j as int), edge.0, mark@, q0);
                assert((pre + l.subrange(0, j as int)).push(edge.0) =~= pre + l.subrange(0, j + 1));
                let l1 = l.subrange(0, j + 1);
                assert forall|f: usize| #[trigger] l1.contains(f) || true implies with_dead(dead, edge.0)(f) == handled_in(a, base, ps, pi, j + 1)(f) by {
                    lemma_prefix_step(l, j as int, f);
                }
                assert(with_dead(dead, edge.0) =~= handled_in(a, base, ps, pi, j + 1));
            }
            j += 1;
        }
        proof {
            let l = a.in_lists()[port.0 as int];
            assert(l.subrange(0, l.len() as int) =~= l);
            assert(handled_out(a, base, ps, pi, 0) =~= handled_in(a, base, ps, pi, l.len() as int));
            let pre = gather_both(a.in_lists(), a.out_lists(), ps.subrange(0, pi));
            assert(pre + l + a.out_lists()[port.0 as int].subrange(0, 0) =~= pre + l.subrange(0, l.len() as int));
        }
        let outs = &a.ports[port.0].outgoing_edges;
        let mut j: usize = 0;
        while j < outs.len()
            invariant
                cycle_input(a, nodes),
                ids_are_positions(a, nodes),
                nodes.contains(node.0),
                is_marked(a, nodes, mark@, node.0),
                node.0 < a.nodes@.len(),
                ps == a.port_lists()[node.0 as int],
                ps.no_duplicates(),
                forall|k: int| 0 <= k < ps.len() ==> #[trigger] ps[k] < a.ports@.len() && a.owners()[ps[k] as int] == Some(node.0),
                0 <= pi < ps.len(),
                ps[pi] == port.0,
                outs@.map_values(|e: LEdgeId| e.0) == a.out_lists()[port.0 as int],
                j <= outs@.len(),
                base == dead_edges(a, nodes, mark@, Some(node.0)),
                degrees_inv(a, nodes, mark@, indeg@, outdeg@, handled_out(a, base, ps, pi, j as int)),
                in0 ==> sinks@ == sinks0 && in_weight(a, node.0, handled_out(a, base, ps, pi, j as int)) == 0,
                out0 ==> sources@ == sources0 && out_weight(a, node.0, handled_out(a, base, ps, pi, j as int)) == 0,
                queues_inv(a, nodes, mark@, indeg@, outdeg@, sources@, sinks@),
                g == cycle_view(a),
                queues_of(indeg@, outdeg@, sources@, sinks@) == relax_all(
                    g,
                    nodes,
                    node.0,
                    gather_both(a.in_lists(), a.out_lists(), ps.subrange(0, pi)) + a.in_lists()[port.0 as int]
                        + a.out_lists()[port.0 as int].subrange(0, j as int),
                    mark@,
                    q0,
                ),
            decreases outs@.len() - j,
        {
            let edge = outs[j];
            let ghost dead = handled_out(a, base, ps, pi, j as int);
            proof {
                let l = a.out_lists()[port.0 as int];
                assert(l[j as int] == edge.0);
                assert(l.contains(edge.0));
                lemma_list_end(a.sources(), a.out_lists(), port.0, edge.0);
                assert forall|y: usize|
                    y != node.0 && (source_node(a, edge.0) == Some(y) || target_node(a, edge.0) == Some(y))
                        && !#[trigger] is_marked_or_foreign(a, nodes, mark@, y) implies !dead(edge.0) by {
                    assert(source_node(a, edge.0) == Some(node.0));
                    assert(!base(edge.0));
                    lemma_gather_both_contains(a.in_lists(), a.out_lists(), ps.subrange(0, pi), edge.0);
                    if gather_both(a.in_lists(), a.out_lists(), ps.subrange(0, pi)).contains(edge.0) {
                        let i2 = choose|i2: int|
                            0 <= i2 < ps.subrange(0, pi).len() && #[trigger] at_port(
                                a.in_lists(),
                                a.out_lists(),
                                ps.subrange(0, pi)[i2],
                                edge.0,
                            );
                        let q = ps[i2];
                        assert(ps.subrange(0, pi)[i2] == q);
                        assert(i2 < pi);
                        assert(ps[i2] != ps[pi]);
                        assert(a.owners()[q as int] == Some(node.0));
                        if a.in_lists()[q as int].contains(edge.0) {
                            lemma_list_end(a.targets(), a.in_lists(), q, edge.0);
                        } else {
                            lemma_list_end(a.sources(), a.out_lists(), q, edge.0);
                        }
                        assert(false);
                    }
                    if a.in_lists()[port.0 as int].contains(edge.0) {
                        lemma_list_end(a.targets(), a.in_lists(), port.0, edge.0);
                    }
                    assert(l.no_duplicates());
                    if l.subrange(0, j as int).contains(edge.0) {
                        let k = choose|k: int| 0 <= k < j && l.subrange(0, j as int)[k] == edge.0;
                        assert(l[k] == l[j as int]);
                        assert(false);
                    }
                }
            }
            relax_edge(a, Ghost(nodes), node, port, edge, mark, indeg, outdeg, sources, sinks, Ghost(dead));
            proof {
                let l = a.out_lists()[port.0 as int];
                let pre = gather_both(a.in_lists(), a.out_lists(), ps.subrange(0, pi)) + a.in_lists()[port.0 as int];
                lemma_relax_all_push(g, nodes, node.0, pre + l.subrange(0, j as int), edge.0, mark@, q0);
                assert((pre + l.subrange(0, j as int)).push(edge.0) =~= pre + l.subrange(0, j + 1));
                let l1 = l.subrange(0, j + 1);
                assert forall|f: usize| #[trigger] l1.contains(f) || true implies with_dead(dead, edge.0)(f) == handled_out(a, base, ps, pi, j + 1)(f) by {
                    lemma_prefix_step(l, j as int, f);
                }
                assert(with_dead(dead, edge.0) =~= handled_out(a, base, ps, pi, j + 1));
            }
            j += 1;
        }
        proof {
            let l = a.out_lists()[port.0 as int];
            assert(l.subrange(0, l.len() as int) =~= l);
            let pre = ps.subrange(0, pi);
            let pre1 = ps.subrange(0, pi + 1);
            assert(pre1.drop_last() =~= pre);
            assert(pre1.last() == port.0);
            let g = gather_both(a.in_lists(), a.out_lists(), pre);
            assert(gather_both(a.in_lists(), a.out_lists(), pre1) == g + a.in_lists()[port.0 as int] + l);
            let whole = g + a.in_lists()[port.0 as int] + l;
            assert forall|f: usize| #[trigger] whole.contains(f) || true implies handled_out(a, base, ps, pi, l.len() as int)(f) == handled_upto(a, base, ps, pi + 1)(f) by {
                vstd::seq_lib::lemma_seq_concat_contains_all_elements(g + a.in_lists()[port.0 as int], l, f);
                vstd::seq_lib::lemma_seq_concat_contains_all_elements(g, a.in_lists()[port.0 as int], f);
            }
            assert(handled_out(a, base, ps, pi, l.len() as int) =~= handled_upto(a, base, ps, pi + 1));
            assert(g + a.in_lists()[port.0 as int] + l.subrange(0, l.len() as int) == whole);
        }
        i += 1;
    }
    proof {
        assert forall|e: usize| e < a.edges@.len() implies #[trigger] handled_upto(a, base, ps, ps.len() as int)(e)
            == dead_edges(a, nodes, mark@, None)(e) by {
            lemma_handled_all(a, nodes, mark@, node.0, e);
        }
        lemma_degrees_congruent(
            a,
            nodes,
            mark@,
            indeg@,
            outdeg@,
            handled_upto(a, base, ps, ps.len() as int),
            dead_edges(a, nodes, mark@, None),
        );
        assert(ps.subrange(0, ps.len() as int) =~= ps);
    }
}

// ---------------------------------------------------------------------
// Marks.

/// How many entries of `mark` are still zero.
pub open spec fn unmarked_count(mark: Seq<i32>) -> nat
    decreases mark.len(),
{
    if mark.len() == 0 {
        0
    } else {
        unmarked_count(mark.drop_last()) + if mark.last() == 0 {
            1nat
        } else {
            0
        }
    }
}

/// The marks handed out so far are distinct, positive ones below
/// `next_left` and negative ones above `next_right`, and together with the
/// unmarked nodes they account for all `n` nodes.
pub open spec fn marks_inv(mark: Seq<i32>, next_left: i32, next_right: i32, unprocessed: nat, n: nat) -> bool {
    &&& mark.len() == n
    &&& 1 <= next_left
    &&& next_right <= -1
    &&& (next_left - 1) + (-1 - next_right) + unprocessed == n
    &&& unmarked_count(mark) == unprocessed
    &&& forall|k: int|
        0 <= k < mark.len() ==> #[trigger] mark[k] == 0 || (1 <= mark[k] < next_left) || (next_right < mark[k] <= -1)
    &&& forall|k: int, l: int| 0 <= k < mark.len() && 0 <= l < mark.len() && k != l && mark[k] != 0 ==> #[trigger] mark[k] != #[trigger] mark[l]
}

/// Giving an unmarked entry a mark leaves one unmarked entry fewer.
pub proof fn lemma_unmarked_count_update(mark: Seq<i32>, k: int, v: i32)
    requires
        0 <= k < mark.len(),
        mark[k] == 0,
        v != 0,
    ensures
        unmarked_count(mark.update(k, v)) + 1 == unmarked_count(mark),
    decreases mark.len(),
{
    let m2 = mark.update(k, v);
    if k == mark.len() - 1 {
        assert(m2.drop_last() =~= mark.drop_last());
    } else {
        assert(m2.drop_last() =~= mark.drop_last().update(k, v));
        lemma_unmarked_count_update(mark.drop_last(), k, v);
    }
}

/// An unmarked entry exists exactly when the count is positive.
pub proof fn lemma_unmarked_count_positive(mark: Seq<i32>)
    ensures
        unmarked_count(mark) > 0 <==> exists|k: int| 0 <= k < mark.len() && mark[k] == 0,
    decreases mark.len(),
{
    if mark.len() > 0 {
        let t = mark.drop_last();
        lemma_unmarked_count_positive(t);
        if exists|k: int| 0 <= k < t.len() && t[k] == 0 {
            let k = choose|k: int| 0 <= k < t.len() && t[k] == 0;
            assert(mark[k] == 0);
        }
        if exists|k: int| 0 <= k < mark.len() && mark[k] == 0 {
            let k = choose|k: int| 0 <= k < mark.len() && mark[k] == 0;
            if k < t.len() {
                assert(t[k] == 0);
            }
        }
    }
}

/// A sequence of zeros counts every entry.
pub proof fn lemma_unmarked_count_zeros(mark: Seq<i32>)
    requires
        forall|k: int| 0 <= k < mark.len() ==> mark[k] == 0,
    ensures
        unmarked_count(mark) == mark.len(),
    decreases mark.len(),
{
    if mark.len() > 0 {
        lemma_unmarked_count_zeros(mark.drop_last());
    }
}

/// Marking `node` keeps the degrees and queues consistent, with `node`'s
/// own edges still counted at their far ends until its neighbours are
/// updated.
pub proof fn lemma_mark_node(
    a: &LGraphArena,
    nodes: Seq<usize>,
    mark: Seq<i32>,
    v: i32,
    indeg: Seq<i32>,
    outdeg: Seq<i32>,
    srcs: Seq<LNodeId>,
    sinks: Seq<LNodeId>,
    srcs2: Seq<LNodeId>,
    sinks2: Seq<LNodeId>,
    node: usize,
)
    requires
        cycle_input(a, nodes),
        ids_are_positions(a, nodes),
        nodes.contains(node),
        mark[a.nodes@[node as int].id as int] == 0,
        v != 0,
        degrees_inv(a, nodes, mark, indeg, outdeg, dead_edges(a, nodes, mark, None)),
        queues_inv(a, nodes, mark, indeg, outdeg, srcs, sinks),
        srcs2 == srcs || (srcs.len() > 0 && srcs[0] == LNodeId(node) && srcs2 == srcs.subrange(1, srcs.len() as int)),
        sinks2 == sinks || (sinks.len() > 0 && sinks[0] == LNodeId(node) && sinks2 == sinks.subrange(
            1,
            sinks.len() as int,
        )),
        !srcs2.contains(LNodeId(node)),
        !sinks2.contains(LNodeId(node)),
    ensures
        degrees_inv(
            a,
            nodes,
            mark.update(a.nodes@[node as int].id as int, v),
            indeg,
            outdeg,
            dead_edges(a, nodes, mark.update(a.nodes@[node as int].id as int, v), Some(node)),
        ),
        queues_inv(a, nodes, mark.update(a.nodes@[node as int].id as int, v), indeg, outdeg, srcs2, sinks2),
        is_marked(a, nodes, mark.update(a.nodes@[node as int].id as int, v), node),
        in_weight(a, node, dead_edges(a, nodes, mark.update(a.nodes@[node as int].id as int, v), Some(node)))
            == indeg[a.nodes@[node as int].id as int],
        out_weight(a, node, dead_edges(a, nodes, mark.update(a.nodes@[node as int].id as int, v), Some(node)))
            == outdeg[a.nodes@[node as int].id as int],
{
    let idx = a.nodes@[node as int].id as int;
    let m2 = mark.update(idx, v);
    lemma_position(a, nodes, node);
    assert forall|y: usize| nodes.contains(y) && y != node implies #[trigger] a.nodes@[y as int].id != idx by {
        lemma_position(a, nodes, y);
    }
    let d1 = dead_edges(a, nodes, mark, None);
    let d2 = dead_edges(a, nodes, m2, Some(node));
    assert forall|e: usize| #[trigger] d2(e) == d1(e) by {
        if let Some(y) = source_node(a, e) {
            if nodes.contains(y) && y != node {
                assert(a.nodes@[y as int].id != idx);
            }
        }
        if let Some(y) = target_node(a, e) {
            if nodes.contains(y) && y != node {
                assert(a.nodes@[y as int].id != idx);
            }
        }
    }
    assert(d2 =~= d1);
    assert forall|k: int| 0 <= k < nodes.len() && #[trigger] m2[k] == 0 implies indeg[k] == in_weight(
        a,
        nodes[k],
        d2,
    ) && outdeg[k] == out_weight(a, nodes[k], d2) by {
        assert(mark[k] == 0);
    }
    assert(mark[idx] == 0);
    assert(nodes[idx] == node);
    assert forall|i: int| 0 <= i < srcs2.len() implies !#[trigger] is_marked_or_foreign(a, nodes, m2, srcs2[i].0) by {
        let j = if srcs2 == srcs { i } else { i + 1 };
        assert(srcs2[i] == srcs[j]);
        assert(!is_marked_or_foreign(a, nodes, mark, srcs[j].0));
        if srcs2[i].0 == node {
            assert(srcs2.contains(LNodeId(node)));
        }
    }
    assert forall|i: int| 0 <= i < sinks2.len() implies !#[trigger] is_marked_or_foreign(a, nodes, m2, sinks2[i].0) by {
        let j = if sinks2 == sinks { i } else { i + 1 };
        assert(sinks2[i] == sinks[j]);
        assert(!is_marked_or_foreign(a, nodes, mark, sinks[j].0));
        if sinks2[i].0 == node {
            assert(sinks2.contains(LNodeId(node)));
        }
    }
    assert forall|i: int| 0 <= i < srcs2.len() implies indeg[a.nodes@[#[trigger] srcs2[i].0 as int].id as int] == 0 by {
        let j = if srcs2 == srcs { i } else { i + 1 };
        assert(srcs2[i] == srcs[j]);
    }
    assert forall|i: int| 0 <= i < sinks2.len() implies outdeg[a.nodes@[#[trigger] sinks2[i].0 as int].id as int] == 0 by {
        let j = if sinks2 == sinks { i } else { i + 1 };
        assert(sinks2[i] == sinks[j]);
    }
    assert forall|i: int, j: int| 0 <= i < srcs2.len() && 0 <= j < sinks2.len() implies srcs2[i] != sinks2[j] by {
        let i1 = if srcs2 == srcs { i } else { i + 1 };
        let j1 = if sinks2 == sinks { j } else { j + 1 };
        assert(srcs2[i] == srcs[i1]);
        assert(sinks2[j] == sinks[j1]);
    }
    assert(srcs2.no_duplicates()) by {
        if srcs2 != srcs {
            assert forall|i: int, j: int| 0 <= i < srcs2.len() && 0 <= j < srcs2.len() && i != j implies srcs2[i] != srcs2[j] by {
                assert(srcs2[i] == srcs[i + 1] && srcs2[j] == srcs[j + 1]);
            }
        }
    }
    assert(sinks2.no_duplicates()) by {
        if sinks2 != sinks {
            assert forall|i: int, j: int| 0 <= i < sinks2.len() && 0 <= j < sinks2.len() && i != j implies sinks2[i] != sinks2[j] by {
                assert(sinks2[i] == sinks[i + 1] && sinks2[j] == sinks[j + 1]);
            }
        }
    }
    assert forall|k: int| 0 <= k < nodes.len() && #[trigger] m2[k] == 0 implies ((srcs2.contains(LNodeId(nodes[k])) || sinks2.contains(
        LNodeId(nodes[k]),
    )) <==> (indeg[k] == 0 || outdeg[k] == 0)) by {
        assert(mark[k] == 0);
        assert(k != idx);
        assert(nodes[k] != node);
        let x = LNodeId(nodes[k]);
        if srcs.contains(x) {
            let i = choose|i: int| 0 <= i < srcs.len() && srcs[i] == x;
            if srcs2 != srcs {
                assert(i != 0);
                assert(srcs2[i - 1] == x);
            }
        }
        if srcs2.contains(x) {
            let i = choose|i: int| 0 <= i < srcs2.len() && srcs2[i] == x;
            if srcs2 != srcs {
                assert(srcs[i + 1] == x);
            }
        }
        if sinks.contains(x) {
            let i = choose|i: int| 0 <= i < sinks.len() && sinks[i] == x;
            if sinks2 != sinks {
                assert(i != 0);
                assert(sinks2[i - 1] == x);
            }
        }
        if sinks2.contains(x) {
            let i = choose|i: int| 0 <= i < sinks2.len() && sinks2[i] == x;
            if sinks2 != sinks {
                assert(sinks[i + 1] == x);
            }
        }
    }
    assert(m2[idx] != 0);
}

/// The incoming weight of `node`, self-loops left out.
fn initial_in_weight(a: &LGraphArena, node: LNodeId) -> (r: i32)
    requires
        a.wf(),
        node.0 < a.nodes@.len(),
        in_weight(a, node.0, none_dead()) <= i32::MAX,
    ensures
        r == in_weight(a, node.0, none_dead()),
{
    let edges = a.node_incoming_edges(node);
    let ghost s = incoming(a, node.0);
    let ghost keep = |f: usize| !none_dead()(f) && source_node(a, f) != Some(node.0);
    proof {
        lemma_weight_sum_congruent(a, s, keep, |f: usize| !none_dead()(f) && source_node(a, f) != Some(node.0));
        assert(weight_sum(a, s, keep) == in_weight(a, node.0, none_dead()));
    }
    let mut total: i32 = 0;
    let mut j: usize = 0;
    while j < edges.len()
        invariant
            a.wf(),
            node.0 < a.nodes@.len(),
            weight_sum(a, s, keep) == in_weight(a, node.0, none_dead()),
            in_weight(a, node.0, none_dead()) <= i32::MAX,
            edges@.map_values(|e: LEdgeId| e.0) == s,
            s == incoming(a, node.0),
            j <= edges@.len(),
            total == weight_sum(a, s.subrange(0, j as int), keep),
            forall|f: usize| #[trigger] keep(f) == (!none_dead()(f) && source_node(a, f) != Some(node.0)),
        decreases edges@.len() - j,
    {
        let edge = edges[j];
        proof {
            assert(s[j as int] == edge.0);
            assert(s.contains(edge.0));
            lemma_incoming_member(a, node.0, edge.0);
            assert(s.subrange(0, j + 1).drop_last() =~= s.subrange(0, j as int));
            lemma_weight_sum_prefix(a, s, keep, j + 1);
        }
        let end = a.edge_source_node(edge);
        let is_self = match end {
            Some(m) => m.0 == node.0,
            None => false,
        };
        proof {
            assert(node_index(end) == source_node(a, edge.0));
            assert(!none_dead()(edge.0));
            assert(is_self == (source_node(a, edge.0) == Some(node.0)));
            assert(keep(edge.0) == !is_self);
            assert(s.subrange(0, j + 1).last() == edge.0);
            assert(weight_sum(a, s.subrange(0, j + 1), keep) == total + if !is_self {
                edge_weight(a, edge.0)
            } else {
                0
            });
            lemma_weight_positive(a, edge.0);
            lemma_weight_sum_bounds(a, s.subrange(0, j as int), keep, 0);
        }
        if !is_self {
            let priority = a.edges[edge.0].props.priority;
            let w = if priority > 0 {
                priority + 1
            } else {
                1
            };
            total = total + w;
        }
        j += 1;
    }
    proof {
        assert(s.subrange(0, s.len() as int) =~= s);
    }
    total
}

/// The outgoing weight of `node`, self-loops left out.
fn initial_out_weight(a: &LGraphArena, node: LNodeId) -> (r: i32)
    requires
        a.wf(),
        node.0 < a.nodes@.len(),
        out_weight(a, node.0, none_dead()) <= i32::MAX,
    ensures
        r == out_weight(a, node.0, none_dead()),
{
    let edges = a.node_outgoing_edges(node);
    let ghost s = outgoing(a, node.0);
    let ghost keep = |f: usize| !none_dead()(f) && target_node(a, f) != Some(node.0);
    proof {
        lemma_weight_sum_congruent(a, s, keep, |f: usize| !none_dead()(f) && target_node(a, f) != Some(node.0));
        assert(weight_sum(a, s, keep) == out_weight(a, node.0, none_dead()));
    }
    let mut total: i32 = 0;
    let mut j: usize = 0;
    while j < edges.len()
        invariant
            a.wf(),
            node.0 < a.nodes@.len(),
            weight_sum(a, s, keep) == out_weight(a, node.0, none_dead()),
            out_weight(a, node.0, none_dead()) <= i32::MAX,
            edges@.map_values(|e: LEdgeId| e.0) == s,
            s == outgoing(a, node.0),
            j <= edges@.len(),
            total == weight_sum(a, s.subrange(0, j as int), keep),
            forall|f: usize| #[trigger] keep(f) == (!none_dead()(f) && target_node(a, f) != Some(node.0)),
        decreases edges@.len() - j,
    {
        let edge = edges[j];
        proof {
            assert(s[j as int] == edge.0);
            assert(s.contains(edge.0));
            lemma_outgoing_member(a, node.0, edge.0);
            assert(s.subrange(0, j + 1).drop_last() =~= s.subrange(0, j as int));
            lemma_weight_sum_prefix(a, s, keep, j + 1);
        }
        let end = a.edge_target_node(edge);
        let is_self = match end {
            Some(m) => m.0 == node.0,
            None => false,
        };
        proof {
            assert(node_index(end) == target_node(a, edge.0));
            assert(!none_dead()(edge.0));
            assert(is_self == (target_node(a, edge.0) == Some(node.0)));
            assert(keep(edge.0) == !is_self);
            assert(s.subrange(0, j + 1).last() == edge.0);
            assert(weight_sum(a, s.subrange(0, j + 1), keep) == total + if !is_self {
                edge_weight(a, edge.0)
            } else {
                0
            });
            lemma_weight_positive(a, edge.0);
            lemma_weight_sum_bounds(a, s.subrange(0, j as int), keep, 0);
        }
        if !is_self {
            let priority = a.edges[edge.0].props.priority;
            let w = if priority > 0 {
                priority + 1
            } else {
                1
            };
            total = total + w;
        }
        j += 1;
    }
    proof {
        assert(s.subrange(0, s.len() as int) =~= s);
    }
    total
}

/// The node indices of a node list.
pub open spec fn node_ids(nodes: Seq<LNodeId>) -> Seq<usize> {
    nodes.map_values(|n: LNodeId| n.0)
}

/// `rank` orders the nodes so that every edge at one of `nodes` but a
/// self-loop runs from a lower to a higher rank.
pub open spec fn ranked_by(a: &LGraphArena, nodes: Seq<usize>, rank: spec_fn(usize) -> int) -> bool {
    forall|e: int|
        0 <= e < a.edges@.len() && #[trigger] touches(a, nodes, e) && source_node(a, e as usize) != target_node(a, e as usize)
            ==> rank(source_node(a, e as usize)->0) < rank(target_node(a, e as usize)->0)
}

/// The edges at the nodes of `nodes`, self-loops aside, form no cycle:
/// some ranking of the nodes has them all run forward.
pub open spec fn acyclic_input(a: &LGraphArena, nodes: Seq<usize>) -> bool {
    exists|rank: spec_fn(usize) -> int| #[trigger] ranked_by(a, nodes, rank)
}

/// Acyclicity depends on the edges' ends alone.
pub proof fn lemma_acyclic_same_ends(a: &LGraphArena, b: &LGraphArena, nodes: Seq<usize>)
    requires
        acyclic_input(a, nodes),
        a.sources() == b.sources(),
        a.targets() == b.targets(),
        a.owners() == b.owners(),
        a.edges@.len() == b.edges@.len(),
    ensures
        acyclic_input(b, nodes),
{
    let rank = choose|rank: spec_fn(usize) -> int| #[trigger] ranked_by(a, nodes, rank);
    assert forall|e: int|
        0 <= e < b.edges@.len() && #[trigger] touches(b, nodes, e) && source_node(b, e as usize) != target_node(b, e as usize)
            implies rank(source_node(b, e as usize)->0) < rank(target_node(b, e as usize)->0) by {
        assert(touches(a, nodes, e));
    }
    assert(ranked_by(b, nodes, rank));
}

/// A weight sum that is not zero keeps some edge.
pub proof fn lemma_weight_sum_kept(a: &LGraphArena, s: Seq<usize>, keep: spec_fn(usize) -> bool)
    requires
        weight_sum(a, s, keep) != 0,
    ensures
        exists|i: int| 0 <= i < s.len() && #[trigger] keep(s[i]),
    decreases s.len(),
{
    if keep(s.last()) {
        assert(keep(s[s.len() - 1]));
    } else {
        lemma_weight_sum_kept(a, s.drop_last(), keep);
        let i = choose|i: int| 0 <= i < s.drop_last().len() && #[trigger] keep(s.drop_last()[i]);
        assert(keep(s[i]));
    }
}

/// Among the unmarked positions below `n` there is one of least rank.
pub proof fn lemma_least_rank(mark: Seq<i32>, rank: Seq<int>, n: int)
    requires
        0 < n <= mark.len(),
        n <= rank.len(),
        exists|l: int| 0 <= l < n && mark[l] == 0,
    ensures
        exists|k: int|
            0 <= k < n && mark[k] == 0 && forall|l: int| 0 <= l < n && mark[l] == 0 ==> rank[k] <= #[trigger] rank[l],
    decreases n,
{
    if exists|l: int| 0 <= l < n - 1 && mark[l] == 0 {
        lemma_least_rank(mark, rank, n - 1);
        let k = choose|k: int|
            0 <= k < n - 1 && mark[k] == 0 && forall|l: int| 0 <= l < n - 1 && mark[l] == 0 ==> rank[k] <= #[trigger] rank[l];
        if mark[n - 1] == 0 && rank[n - 1] < rank[k] {
            assert forall|l: int| 0 <= l < n && mark[l] == 0 implies rank[n - 1] <= #[trigger] rank[l] by {
                if l < n - 1 {
                    assert(rank[k] <= rank[l]);
                }
            }
        } else {
            assert forall|l: int| 0 <= l < n && mark[l] == 0 implies rank[k] <= #[trigger] rank[l] by {}
        }
    } else {
        assert(mark[n - 1] == 0);
        assert forall|l: int| 0 <= l < n && mark[l] == 0 implies rank[n - 1] <= #[trigger] rank[l] by {
            assert(l == n - 1);
        }
    }
}

/// On acyclic input the marking never runs out of sources and sinks
/// while a node is unmarked: the unmarked node of least rank has no live
/// incoming edge, so its in-degree is zero and it is queued.
pub proof fn lemma_no_stall(
    a: &LGraphArena,
    nodes: Seq<usize>,
    mark: Seq<i32>,
    indeg: Seq<i32>,
    outdeg: Seq<i32>,
    srcs: Seq<LNodeId>,
    sinks: Seq<LNodeId>,
)
    requires
        cycle_input(a, nodes),
        ids_are_positions(a, nodes),
        acyclic_input(a, nodes),
        degrees_inv(a, nodes, mark, indeg, outdeg, dead_edges(a, nodes, mark, None)),
        queues_inv(a, nodes, mark, indeg, outdeg, srcs, sinks),
        exists|l: int| 0 <= l < mark.len() && mark[l] == 0,
    ensures
        srcs.len() > 0 || sinks.len() > 0,
{
    if srcs.len() == 0 && sinks.len() == 0 {
        let rank_of = choose|rank: spec_fn(usize) -> int| #[trigger] ranked_by(a, nodes, rank);
        let rank = Seq::new(nodes.len(), |k: int| rank_of(nodes[k]));
        lemma_least_rank(mark, rank, mark.len() as int);
        let k = choose|k: int|
            0 <= k < mark.len() as int && mark[k] == 0 && forall|l: int| 0 <= l < mark.len() as int && mark[l] == 0 ==> rank[k]
                <= #[trigger] rank[l];
        let x = nodes[k];
        assert(!(srcs.contains(LNodeId(x)) || sinks.contains(LNodeId(x))));
        assert(indeg[k] != 0);
        let dead = dead_edges(a, nodes, mark, None);
        let keep = |e: usize| !dead(e) && source_node(a, e) != Some(x);
        assert(indeg[k] == in_weight(a, x, dead));
        lemma_weight_sum_kept(a, incoming(a, x), keep);
        let i = choose|i: int| 0 <= i < incoming(a, x).len() && #[trigger] keep(incoming(a, x)[i]);
        let f = incoming(a, x)[i];
        assert(incoming(a, x).contains(f));
        lemma_incoming_member(a, x, f);
        assert(touches(a, nodes, f as int)) by {
            assert(nodes.contains(x));
        }
        assert(edge_closed(a, nodes, f as int));
        let y = source_node(a, f)->0;
        assert(nodes.contains(y));
        lemma_position(a, nodes, y);
        assert(nodes.contains(x));
        lemma_position(a, nodes, x);
        let j = a.nodes@[y as int].id as int;
        assert(!end_dead(a, nodes, mark, None, source_node(a, f)));
        assert(mark[j] == 0);
        assert(a.nodes@[x as int].id == k);
        assert(nodes[j] == y);
        assert(rank_of(y) < rank_of(x));
        assert(rank[j] < rank[k]);
        assert(rank[k] <= rank[j]);
    }
}

/// Where a mark ends up once the marking is done: right-hand marks, which
/// count down from -1, become the highest ranks.
pub open spec fn final_rank(m: i32, n: nat) -> int {
    if m < 0 {
        m + n + 1
    } else {
        m as int
    }
}

/// Every edge at one of `nodes` but a self-loop is forward as far as the
/// marks handed out so far tell: between two marked nodes it runs to a
/// higher final rank, from a marked node to an unmarked one it leaves a
/// left-hand mark, and from an unmarked node to a marked one it enters a
/// right-hand mark.
pub open spec fn forward_so_far(a: &LGraphArena, nodes: Seq<usize>, mark: Seq<i32>) -> bool {
    forall|e: int|
        0 <= e < a.edges@.len() && #[trigger] touches(a, nodes, e) && source_node(a, e as usize) != target_node(a, e as usize)
            ==> {
            let u = a.nodes@[source_node(a, e as usize)->0 as int].id as int;
            let v = a.nodes@[target_node(a, e as usize)->0 as int].id as int;
            &&& mark[u] != 0 && mark[v] != 0 ==> final_rank(mark[u], mark.len()) < final_rank(mark[v], mark.len())
            &&& mark[u] != 0 && mark[v] == 0 ==> mark[u] > 0
            &&& mark[u] == 0 && mark[v] != 0 ==> mark[v] < 0
        }
}

/// With no degree left on one side, every edge of `x` on that side but a
/// self-loop has its far end marked.
pub proof fn lemma_far_ends_marked(
    a: &LGraphArena,
    nodes: Seq<usize>,
    mark: Seq<i32>,
    indeg: Seq<i32>,
    outdeg: Seq<i32>,
    k: int,
)
    requires
        cycle_input(a, nodes),
        ids_are_positions(a, nodes),
        degrees_inv(a, nodes, mark, indeg, outdeg, dead_edges(a, nodes, mark, None)),
        0 <= k < nodes.len(),
        mark[k] == 0,
    ensures
        outdeg[k] == 0 ==> forall|e: int|
            0 <= e < a.edges@.len() && #[trigger] touches(a, nodes, e) && source_node(a, e as usize) == Some(nodes[k])
                && target_node(a, e as usize) != Some(nodes[k]) ==> mark[a.nodes@[target_node(a, e as usize)->0 as int].id as int]
                != 0,
        indeg[k] == 0 ==> forall|e: int|
            0 <= e < a.edges@.len() && #[trigger] touches(a, nodes, e) && target_node(a, e as usize) == Some(nodes[k])
                && source_node(a, e as usize) != Some(nodes[k]) ==> mark[a.nodes@[source_node(a, e as usize)->0 as int].id as int]
                != 0,
{
    let x = nodes[k];
    let dead = dead_edges(a, nodes, mark, None);
    assert(a.nodes@[x as int].id == k);
    if outdeg[k] == 0 {
        assert forall|e: int|
            0 <= e < a.edges@.len() && #[trigger] touches(a, nodes, e) && source_node(a, e as usize) == Some(x) && target_node(
                a,
                e as usize,
            ) != Some(x) implies mark[a.nodes@[target_node(a, e as usize)->0 as int].id as int] != 0 by {
            let f = e as usize;
            lemma_outgoing_member(a, x, f);
            assert(outgoing(a, x).contains(f));
            let j = choose|j: int| 0 <= j < outgoing(a, x).len() && outgoing(a, x)[j] == f;
            lemma_weight_sum_bounds(a, outgoing(a, x), |g: usize| !dead(g) && target_node(a, g) != Some(x), j);
            assert(edge_closed(a, nodes, e));
            lemma_weight_positive(a, f);
            assert(dead(f));
            assert(!end_dead(a, nodes, mark, None, source_node(a, f)));
            let y = target_node(a, f)->0;
            lemma_position(a, nodes, y);
        }
    }
    if indeg[k] == 0 {
        assert forall|e: int|
            0 <= e < a.edges@.len() && #[trigger] touches(a, nodes, e) && target_node(a, e as usize) == Some(x) && source_node(
                a,
                e as usize,
            ) != Some(x) implies mark[a.nodes@[source_node(a, e as usize)->0 as int].id as int] != 0 by {
            let f = e as usize;
            lemma_incoming_member(a, x, f);
            assert(incoming(a, x).contains(f));
            let j = choose|j: int| 0 <= j < incoming(a, x).len() && incoming(a, x)[j] == f;
            lemma_weight_sum_bounds(a, incoming(a, x), |g: usize| !dead(g) && source_node(a, g) != Some(x), j);
            assert(edge_closed(a, nodes, e));
            lemma_weight_positive(a, f);
            assert(dead(f));
            assert(!end_dead(a, nodes, mark, None, target_node(a, f)));
            let y = source_node(a, f)->0;
            lemma_position(a, nodes, y);
        }
    }
}

/// Marking node `nodes[k]` keeps every edge forward: on the right when
/// its outgoing edges all lead to marked nodes, on the left when its
/// incoming edges all come from marked nodes.
pub proof fn lemma_forward_step(
    a: &LGraphArena,
    nodes: Seq<usize>,
    mark: Seq<i32>,
    next_left: i32,
    next_right: i32,
    unprocessed: nat,
    k: int,
    right: bool,
)
    requires
        cycle_input(a, nodes),
        ids_are_positions(a, nodes),
        forward_so_far(a, nodes, mark),
        marks_inv(mark, next_left, next_right, unprocessed, nodes.len()),
        unprocessed >= 1,
        0 <= k < nodes.len(),
        mark[k] == 0,
        right ==> forall|e: int|
            0 <= e < a.edges@.len() && #[trigger] touches(a, nodes, e) && source_node(a, e as usize) == Some(nodes[k])
                && target_node(a, e as usize) != Some(nodes[k]) ==> mark[a.nodes@[target_node(a, e as usize)->0 as int].id as int]
                != 0,
        !right ==> forall|e: int|
            0 <= e < a.edges@.len() && #[trigger] touches(a, nodes, e) && target_node(a, e as usize) == Some(nodes[k])
                && source_node(a, e as usize) != Some(nodes[k]) ==> mark[a.nodes@[source_node(a, e as usize)->0 as int].id as int]
                != 0,
    ensures
        forward_so_far(a, nodes, mark.update(k, if right { next_right } else { next_left })),
{
    let v0 = if right { next_right } else { next_left };
    let m2 = mark.update(k, v0);
    let n = nodes.len();
    let x = nodes[k];
    assert(a.nodes@[x as int].id == k);
    assert forall|e: int|
        0 <= e < a.edges@.len() && #[trigger] touches(a, nodes, e) && source_node(a, e as usize) != target_node(a, e as usize)
            implies {
            let u = a.nodes@[source_node(a, e as usize)->0 as int].id as int;
            let v = a.nodes@[target_node(a, e as usize)->0 as int].id as int;
            &&& m2[u] != 0 && m2[v] != 0 ==> final_rank(m2[u], m2.len()) < final_rank(m2[v], m2.len())
            &&& m2[u] != 0 && m2[v] == 0 ==> m2[u] > 0
            &&& m2[u] == 0 && m2[v] != 0 ==> m2[v] < 0
        } by {
        assert(edge_closed(a, nodes, e));
        let sx = source_node(a, e as usize)->0;
        let tx = target_node(a, e as usize)->0;
        lemma_position(a, nodes, sx);
        lemma_position(a, nodes, tx);
        let u = a.nodes@[sx as int].id as int;
        let v = a.nodes@[tx as int].id as int;
        assert(u != v);
        assert(mark[u] == 0 || (1 <= mark[u] < next_left) || (next_right < mark[u] <= -1));
        assert(mark[v] == 0 || (1 <= mark[v] < next_left) || (next_right < mark[v] <= -1));
    }
}

/// The state of the marking between two of its steps: the marks by
/// position in the node list (zero where a node has none yet), degrees and
/// queues, the next marks to hand out on the left and on the right,
/// whether sinks are being taken, and the generator's state and draw
/// count.
pub struct Greedy {
    pub mark: Seq<i32>,
    pub q: Queues,
    pub next_left: i32,
    pub next_right: i32,
    pub on_sinks: bool,
    pub seed: u64,
    pub draws: u64,
}

/// Packs a state of the marking.
pub open spec fn greedy_of(
    mark: Seq<i32>,
    q: Queues,
    next_left: i32,
    next_right: i32,
    on_sinks: bool,
    seed: u64,
    draws: u64,
) -> Greedy {
    Greedy { mark, q, next_left, next_right, on_sinks, seed, draws }
}

/// A bounded draw of the generator from state `seed` after `draws` draws:
/// the number drawn, the generator's next state and its draw count.
pub open spec fn next_int_draw(seed: u64, draws: u64, bound: i32) -> (i32, u64, u64) {
    if java_is_pow2(bound) {
        (java_int_pow2(seed, bound), java_step(seed), draws.wrapping_add(1))
    } else {
        let found = java_int_search(seed, bound, java_modulus());
        (found.unwrap().0, found.unwrap().1, wrap_count(draws, found.unwrap().2))
    }
}

/// Among the first `k` nodes, the largest outflow (out-degree minus
/// in-degree) of an unmarked node, and the unmarked nodes with that
/// outflow in list order.
pub open spec fn max_scan(ns: Seq<usize>, mark: Seq<i32>, indeg: Seq<i32>, outdeg: Seq<i32>, k: nat) -> (i32, Seq<LNodeId>)
    decreases k,
{
    if k == 0 {
        (i32::MIN, Seq::empty())
    } else {
        let prev = max_scan(ns, mark, indeg, outdeg, (k - 1) as nat);
        let j = k - 1;
        let o = (outdeg[j] - indeg[j]) as i32;
        if mark[j] != 0 || o < prev.0 {
            prev
        } else if o > prev.0 {
            (o, seq![LNodeId(ns[j])])
        } else {
            (prev.0, prev.1.push(LNodeId(ns[j])))
        }
    }
}

/// One step of the marking. With every node marked nothing changes.
/// While sinks are being taken, the first queued sink takes the next mark
/// on the right; with no sink left, sources are taken instead. The first
/// queued source takes the next mark on the left; with no source left
/// either, a node of largest outflow, drawn at random among the ties,
/// takes the next mark on the left and sinks are taken again. A marked
/// node's edges are then relaxed.
pub open spec fn greedy_step(g: CycleView, ns: Seq<usize>, s: Greedy) -> Greedy {
    if unmarked_count(s.mark) == 0 {
        s
    } else if s.on_sinks {
        if s.q.sinks.len() > 0 {
            let x = s.q.sinks[0].0;
            let mark = s.mark.update(ns.index_of(x), s.next_right);
            let q = queues_of(s.q.indeg, s.q.outdeg, s.q.sources, s.q.sinks.subrange(1, s.q.sinks.len() as int));
            greedy_of(
                mark,
                relax_all(g, ns, x, edges_at(g, x), mark, q),
                s.next_left,
                (s.next_right - 1) as i32,
                true,
                s.seed,
                s.draws,
            )
        } else {
            greedy_of(s.mark, s.q, s.next_left, s.next_right, false, s.seed, s.draws)
        }
    } else if s.q.sources.len() > 0 {
        let x = s.q.sources[0].0;
        let mark = s.mark.update(ns.index_of(x), s.next_left);
        let q = queues_of(s.q.indeg, s.q.outdeg, s.q.sources.subrange(1, s.q.sources.len() as int), s.q.sinks);
        greedy_of(
            mark,
            relax_all(g, ns, x, edges_at(g, x), mark, q),
            (s.next_left + 1) as i32,
            s.next_right,
            false,
            s.seed,
            s.draws,
        )
    } else {
        let ties = max_scan(ns, s.mark, s.q.indeg, s.q.outdeg, ns.len()).1;
        let d = next_int_draw(s.seed, s.draws, ties.len() as i32);
        let x = ties[d.0 as int].0;
        let mark = s.mark.update(ns.index_of(x), s.next_left);
        greedy_of(
            mark,
            relax_all(g, ns, x, edges_at(g, x), mark, s.q),
            (s.next_left + 1) as i32,
            s.next_right,
            true,
            d.1,
            d.2,
        )
    }
}

/// The marking after `t` steps from `s`.
pub open spec fn greedy_run(g: CycleView, ns: Seq<usize>, s: Greedy, t: nat) -> Greedy
    decreases t,
{
    if t == 0 {
        s
    } else {
        greedy_step(g, ns, greedy_run(g, ns, s, (t - 1) as nat))
    }
}

/// The queues the marking starts with, over the first `k` nodes: in list
/// order, the nodes without outgoing weight are sinks, the others without
/// incoming weight sources.
pub open spec fn start_queues(ns: Seq<usize>, indeg: Seq<i32>, outdeg: Seq<i32>, k: nat) -> (Seq<LNodeId>, Seq<LNodeId>)
    decreases k,
{
    if k == 0 {
        (Seq::empty(), Seq::empty())
    } else {
        let prev = start_queues(ns, indeg, outdeg, (k - 1) as nat);
        let j = k - 1;
        if outdeg[j] == 0 {
            (prev.0, prev.1.push(LNodeId(ns[j])))
        } else if indeg[j] == 0 {
            (prev.0.push(LNodeId(ns[j])), prev.1)
        } else {
            prev
        }
    }
}

/// The state the marking of `ns` starts in, with the generator in state
/// `seed` after `draws` draws: no marks, every node's degrees its whole
/// incoming and outgoing weight.
pub open spec fn greedy_start(a: &LGraphArena, ns: Seq<usize>, seed: u64, draws: u64) -> Greedy {
    let indeg = Seq::new(ns.len(), |k: int| in_weight(a, ns[k], none_dead()) as i32);
    let outdeg = Seq::new(ns.len(), |k: int| out_weight(a, ns[k], none_dead()) as i32);
    let qs = start_queues(ns, indeg, outdeg, ns.len());
    greedy_of(Seq::new(ns.len(), |k: int| 0i32), queues_of(indeg, outdeg, qs.0, qs.1), 1i32, -1i32, true, seed, draws)
}

/// The state the marking ends in, once every node has its mark.
pub open spec fn greedy_end(a: &LGraphArena, ns: Seq<usize>, seed: u64, draws: u64) -> Greedy {
    let g = cycle_view(a);
    let s0 = greedy_start(a, ns, seed, draws);
    greedy_run(g, ns, s0, choose|t: nat| unmarked_count(#[trigger] greedy_run(g, ns, s0, t).mark) == 0)
}

/// Marks counted down from -1 on the right moved above `1..=n`.
pub open spec fn shifted(mark: Seq<i32>) -> Seq<i32> {
    Seq::new(mark.len(), |k: int| if mark[k] < 0 { (mark[k] + mark.len() + 1) as i32 } else { mark[k] })
}

/// The ranking the greedy marking gives the nodes of `ns`, the generator
/// being in state `seed` after `draws` draws.
pub open spec fn greedy_ranking(a: &LGraphArena, ns: Seq<usize>, seed: u64, draws: u64) -> Seq<i32> {
    shifted(greedy_end(a, ns, seed, draws).mark)
}

/// Once every node is marked, further steps change nothing.
pub proof fn lemma_run_settles(g: CycleView, ns: Seq<usize>, s: Greedy, t: nat, u: nat)
    requires
        t <= u,
        unmarked_count(greedy_run(g, ns, s, t).mark) == 0,
    ensures
        greedy_run(g, ns, s, u) == greedy_run(g, ns, s, t),
    decreases u - t,
{
    if u > t {
        lemma_run_settles(g, ns, s, t, (u - 1) as nat);
    }
}

/// A run that has marked every node has reached the end state.
pub proof fn lemma_end_reached(a: &LGraphArena, ns: Seq<usize>, seed: u64, draws: u64, t: nat)
    requires
        unmarked_count(greedy_run(cycle_view(a), ns, greedy_start(a, ns, seed, draws), t).mark) == 0,
    ensures
        greedy_end(a, ns, seed, draws) == greedy_run(cycle_view(a), ns, greedy_start(a, ns, seed, draws), t),
{
    let g = cycle_view(a);
    let s0 = greedy_start(a, ns, seed, draws);
    let c = choose|t: nat| unmarked_count(#[trigger] greedy_run(g, ns, s0, t).mark) == 0;
    assert(unmarked_count(greedy_run(g, ns, s0, c).mark) == 0);
    if c <= t {
        lemma_run_settles(g, ns, s0, c, t);
    } else {
        lemma_run_settles(g, ns, s0, t, c);
    }
}

/// A bounded draw of the generator returns for every state and every
/// bound up to `n`.
pub open spec fn draws_return(n: int) -> bool {
    forall|s: u64, b: i32| 0 < b <= n ==> #[trigger] java_int_returns(s, b)
}

/// The greedy marking: gives every node of
/// `nodes` a distinct mark in `1..=n`. Sinks take the highest free marks,
/// sources the lowest, and when neither is left a node of largest outflow,
/// picked at random among the ties, takes the lowest free mark. The loop
/// takes the steps of `greedy_step` one by one, so the marks are
/// `greedy_ranking` and the generator ends where the marking leaves it.
fn greedy_marks(a: &LGraphArena, nodes: &Vec<LNodeId>, random: &mut JavaRandom) -> (mark: Vec<i32>)
    requires
        cycle_input(a, node_ids(nodes@)),
        ids_are_positions(a, node_ids(nodes@)),
        draws_return(nodes@.len() as int),
    ensures
        acyclic_input(a, node_ids(nodes@)) ==> *final(random) == *old(random),
        acyclic_input(a, node_ids(nodes@)) ==> forall|e: int|
            0 <= e < a.edges@.len() && #[trigger] touches(a, node_ids(nodes@), e) && source_node(a, e as usize) != target_node(
                a,
                e as usize,
            ) ==> mark@[a.nodes@[source_node(a, e as usize)->0 as int].id as int] < mark@[a.nodes@[target_node(
                a,
                e as usize,
            )->0 as int].id as int],
        mark@.len() == nodes@.len(),
        forall|k: int| 0 <= k < nodes@.len() ==> 1 <= #[trigger] mark@[k] <= nodes@.len(),
        forall|k: int, l: int| 0 <= k < nodes@.len() && 0 <= l < nodes@.len() && k != l ==> #[trigger] mark@[k] != #[trigger] mark@[l],
        mark@ == greedy_ranking(a, node_ids(nodes@), old(random).state(), old(random).draw_count()),
        final(random).state() == greedy_end(a, node_ids(nodes@), old(random).state(), old(random).draw_count()).seed,
        final(random).draw_count() == greedy_end(a, node_ids(nodes@), old(random).state(), old(random).draw_count()).draws,
{
    let ghost ns = node_ids(nodes@);
    let ghost r0 = *random;
    let n = nodes.len();
    let mut indeg: Vec<i32> = Vec::new();
    let mut outdeg: Vec<i32> = Vec::new();
    let mut mark: Vec<i32> = Vec::new();
    let mut sources: VecDeque<LNodeId> = VecDeque::new();
    let mut sinks: VecDeque<LNodeId> = VecDeque::new();
    let ghost in0 = Seq::new(ns.len(), |k: int| in_weight(a, ns[k], none_dead()) as i32);
    let ghost out0 = Seq::new(ns.len(), |k: int| out_weight(a, ns[k], none_dead()) as i32);
    let mut k: usize = 0;
    while k < n
        invariant
            n == nodes@.len(),
            ns == node_ids(nodes@),
            cycle_input(a, ns),
            ids_are_positions(a, ns),
            in0 == Seq::new(ns.len(), |k: int| in_weight(a, ns[k], none_dead()) as i32),
            out0 == Seq::new(ns.len(), |k: int| out_weight(a, ns[k], none_dead()) as i32),
            (sources@, sinks@) == start_queues(ns, in0, out0, k as nat),
            k <= n,
            indeg@.len() == k,
            outdeg@.len() == k,
            mark@.len() == k,
            forall|l: int| 0 <= l < k ==> #[trigger] mark@[l] == 0,
            forall|l: int|
                0 <= l < k ==> #[trigger] indeg@[l] == in_weight(a, ns[l], none_dead()) && outdeg@[l] == out_weight(
                    a,
                    ns[l],
                    none_dead(),
                ),
            sources@.no_duplicates(),
            sinks@.no_duplicates(),
            forall|i: int, j: int| 0 <= i < sources@.len() && 0 <= j < sinks@.len() ==> sources@[i] != sinks@[j],
            forall|i: int|
                0 <= i < sources@.len() ==> ns.contains(#[trigger] sources@[i].0) && a.nodes@[sources@[i].0 as int].id < k
                    && indeg@[a.nodes@[sources@[i].0 as int].id as int] == 0,
            forall|i: int|
                0 <= i < sinks@.len() ==> ns.contains(#[trigger] sinks@[i].0) && a.nodes@[sinks@[i].0 as int].id < k
                    && outdeg@[a.nodes@[sinks@[i].0 as int].id as int] == 0,
            forall|l: int|
                0 <= l < k ==> ((sources@.contains(LNodeId(#[trigger] ns[l])) || sinks@.contains(LNodeId(ns[l]))) <==> (
                indeg@[l] == 0 || outdeg@[l] == 0)),
        decreases n - k,
    {
        let node = nodes[k];
        proof {
            assert(ns[k as int] == node.0);
            assert(a.nodes@[node.0 as int].id == k);
        }
        let in_w = initial_in_weight(a, node);
        let out_w = initial_out_weight(a, node);
        indeg.push(in_w);
        outdeg.push(out_w);
        mark.push(0);
        let ghost srcs0 = sources@;
        let ghost sinks0 = sinks@;
        if out_w == 0 {
            sinks.push_back(node);
        } else if in_w == 0 {
            sources.push_back(node);
        }
        proof {
            assert(in0[k as int] == in_w && out0[k as int] == out_w);
            assert(LNodeId(ns[k as int]) == node);
            let x = LNodeId(node.0);
            assert(x == node);
            assert(!srcs0.contains(node) && !sinks0.contains(node)) by {
                if srcs0.contains(node) {
                    let i = choose|i: int| 0 <= i < srcs0.len() && srcs0[i] == node;
                    assert(a.nodes@[srcs0[i].0 as int].id < k);
                }
                if sinks0.contains(node) {
                    let i = choose|i: int| 0 <= i < sinks0.len() && sinks0[i] == node;
                    assert(a.nodes@[sinks0[i].0 as int].id < k);
                }
            }
            assert forall|i: int| 0 <= i < sources@.len() implies ns.contains(#[trigger] sources@[i].0) && a.nodes@[
                sources@[i].0 as int].id < k + 1 && indeg@[a.nodes@[sources@[i].0 as int].id as int] == 0 by {
                if i < srcs0.len() {
                    assert(sources@[i] == srcs0[i]);
                } else {
                    assert(sources@[i] == node);
                    assert(ns[k as int] == node.0);
                }
            }
            assert forall|i: int| 0 <= i < sinks@.len() implies ns.contains(#[trigger] sinks@[i].0) && a.nodes@[
                sinks@[i].0 as int].id < k + 1 && outdeg@[a.nodes@[sinks@[i].0 as int].id as int] == 0 by {
                if i < sinks0.len() {
                    assert(sinks@[i] == sinks0[i]);
                } else {
                    assert(sinks@[i] == node);
                    assert(ns[k as int] == node.0);
                }
            }
            assert forall|i: int, j: int| 0 <= i < sources@.len() && 0 <= j < sinks@.len() implies sources@[i]
                != sinks@[j] by {
                if i < srcs0.len() && j < sinks0.len() {
                    assert(sources@[i] == srcs0[i] && sinks@[j] == sinks0[j]);
                } else if i < srcs0.len() {
                    assert(sources@[i] == srcs0[i]);
                    assert(srcs0.contains(srcs0[i]));
                } else {
                    assert(sinks@[j] == sinks0[j]);
                    assert(sinks0.contains(sinks0[j]));
                }
            }
            assert(sources@.no_duplicates()) by {
                assert forall|i: int, j: int| 0 <= i < sources@.len() && 0 <= j < sources@.len() && i != j implies sources@[i]
                    != sources@[j] by {
                    if i < srcs0.len() && j < srcs0.len() {
                    } else if i < srcs0.len() {
                        assert(srcs0.contains(sources@[i]));
                    } else {
                        assert(srcs0.contains(sources@[j]));
                    }
                }
            }
            assert(sinks@.no_duplicates()) by {
                assert forall|i: int, j: int| 0 <= i < sinks@.len() && 0 <= j < sinks@.len() && i != j implies sinks@[i]
                    != sinks@[j] by {
                    if i < sinks0.len() && j < sinks0.len() {
                    } else if i < sinks0.len() {
                        assert(sinks0.contains(sinks@[i]));
                    } else {
                        assert(sinks0.contains(sinks@[j]));
                    }
                }
            }
            assert forall|l: int| 0 <= l < k + 1 implies ((sources@.contains(LNodeId(#[trigger] ns[l]))
                || sinks@.contains(LNodeId(ns[l]))) <==> (indeg@[l] == 0 || outdeg@[l] == 0)) by {
                let y = LNodeId(ns[l]);
                if srcs0.contains(y) {
                    let i = choose|i: int| 0 <= i < srcs0.len() && srcs0[i] == y;
                    assert(sources@[i] == y);
                }
                if sinks0.contains(y) {
                    let i = choose|i: int| 0 <= i < sinks0.len() && sinks0[i] == y;
                    assert(sinks@[i] == y);
                }
                if sources@.contains(y) {
                    let i = choose|i: int| 0 <= i < sources@.len() && sources@[i] == y;
                    if i < srcs0.len() {
                        assert(srcs0[i] == y);
                    }
                }
                if sinks@.contains(y) {
                    let i = choose|i: int| 0 <= i < sinks@.len() && sinks@[i] == y;
                    if i < sinks0.len() {
                        assert(sinks0[i] == y);
                    }
                }
                if l < k {
                    assert(ns[l] != node.0);
                } else {
                    assert(y == node);
                    if out_w == 0 {
                        assert(sinks@[sinks@.len() - 1] == node);
                    } else if in_w == 0 {
                        assert(sources@[sources@.len() - 1] == node);
                    }
                }
            }
        }
        k += 1;
    }
    proof {
        let d = dead_edges(a, ns, mark@, None);
        assert forall|e: usize| #[trigger] d(e) == none_dead()(e) by {
            if let Some(y) = source_node(a, e) {
                if ns.contains(y) {
                    lemma_position(a, ns, y);
                }
            }
            if let Some(y) = target_node(a, e) {
                if ns.contains(y) {
                    lemma_position(a, ns, y);
                }
            }
        }
        assert(d =~= none_dead());
        assert forall|i: int| 0 <= i < sources@.len() implies !#[trigger] is_marked_or_foreign(a, ns, mark@, sources@[i].0) by {
            assert(ns.contains(sources@[i].0));
        }
        assert forall|i: int| 0 <= i < sinks@.len() implies !#[trigger] is_marked_or_foreign(a, ns, mark@, sinks@[i].0) by {
            assert(ns.contains(sinks@[i].0));
        }
        lemma_unmarked_count_zeros(mark@);
        assert forall|e: int|
            0 <= e < a.edges@.len() && #[trigger] touches(a, ns, e) && source_node(a, e as usize) != target_node(a, e as usize)
                implies {
                let u = a.nodes@[source_node(a, e as usize)->0 as int].id as int;
                let v = a.nodes@[target_node(a, e as usize)->0 as int].id as int;
                &&& mark@[u] != 0 && mark@[v] != 0 ==> final_rank(mark@[u], mark@.len()) < final_rank(mark@[v], mark@.len())
                &&& mark@[u] != 0 && mark@[v] == 0 ==> mark@[u] > 0
                &&& mark@[u] == 0 && mark@[v] != 0 ==> mark@[v] < 0
            } by {
            assert(edge_closed(a, ns, e));
            lemma_position(a, ns, source_node(a, e as usize)->0);
            lemma_position(a, ns, target_node(a, e as usize)->0);
        }
        assert(forward_so_far(a, ns, mark@));
    }
    let mut unprocessed: usize = n;
    let mut next_right: i32 = -1;
    let mut next_left: i32 = 1;
    let mut max_nodes: Vec<LNodeId> = Vec::new();
    let mut on_sinks: bool = true;
    let ghost g = cycle_view(a);
    let ghost s0 = greedy_start(a, ns, r0.state(), r0.draw_count());
    let ghost mut t: nat = 0;
    proof {
        assert(mark@ =~= Seq::new(ns.len(), |k: int| 0i32));
        assert(indeg@ =~= in0);
        assert(outdeg@ =~= out0);
    }
    while unprocessed > 0
        invariant
            n == nodes@.len(),
            ns == node_ids(nodes@),
            cycle_input(a, ns),
            ids_are_positions(a, ns),
            draws_return(n as int),
            degrees_inv(a, ns, mark@, indeg@, outdeg@, dead_edges(a, ns, mark@, None)),
            queues_inv(a, ns, mark@, indeg@, outdeg@, sources@, sinks@),
            marks_inv(mark@, next_left, next_right, unprocessed as nat, n as nat),
            acyclic_input(a, ns) ==> *random == r0,
            acyclic_input(a, ns) ==> forward_so_far(a, ns, mark@),
            !on_sinks ==> sinks@.len() == 0,
            g == cycle_view(a),
            s0 == greedy_start(a, ns, r0.state(), r0.draw_count()),
            greedy_run(g, ns, s0, t) == greedy_of(
                mark@,
                queues_of(indeg@, outdeg@, sources@, sinks@),
                next_left,
                next_right,
                on_sinks,
                random.state(),
                random.draw_count(),
            ),
        decreases unprocessed, if on_sinks {
            1int
        } else {
            0int
        },
    {
        let ghost st = greedy_run(g, ns, s0, t);
        proof {
            assert(unmarked_count(st.mark) != 0);
        }
        if on_sinks {
            if sinks.len() > 0 {
            let ghost srcs0 = sources@;
            let ghost sinks0 = sinks@;
            let ghost mark0 = mark@;
            let sink = sinks.pop_front().unwrap();
            proof {
                assert(sinks0[0] == sink);
                assert(!is_marked_or_foreign(a, ns, mark@, sink.0));
                lemma_position(a, ns, sink.0);
                assert(!srcs0.contains(sink)) by {
                    if srcs0.contains(sink) {
                        let i = choose|i: int| 0 <= i < srcs0.len() && srcs0[i] == sink;
                        assert(srcs0[i] != sinks0[0]);
                    }
                }
                assert(!sinks@.contains(sink)) by {
                    if sinks@.contains(sink) {
                        let i = choose|i: int| 0 <= i < sinks@.len() && sinks@[i] == sink;
                        assert(sinks0[i + 1] == sinks0[0]);
                    }
                }
                assert(LNodeId(sink.0) == sink);
                lemma_unmarked_count_positive(mark0);
            }
            let idx = a.nodes[sink.0].id;
            proof {
                if acyclic_input(a, ns) {
                    assert(outdeg@[idx as int] == 0);
                    lemma_far_ends_marked(a, ns, mark0, indeg@, outdeg@, idx as int);
                    lemma_forward_step(a, ns, mark0, next_left, next_right, unprocessed as nat, idx as int, true);
                }
            }
            mark.set(idx, next_right);
            proof {
                lemma_mark_node(a, ns, mark0, next_right, indeg@, outdeg@, srcs0, sinks0, sources@, sinks@, sink.0);
                lemma_unmarked_count_update(mark0, idx as int, next_right);
                assert forall|k2: int, l: int|
                    0 <= k2 < mark@.len() && 0 <= l < mark@.len() && k2 != l && mark@[k2] != 0 implies #[trigger] mark@[k2]
                    != #[trigger] mark@[l] by {
                    if k2 != idx && l != idx {
                        assert(mark0[k2] != mark0[l]);
                    } else if k2 == idx {
                        assert(mark@[l] == mark0[l]);
                    } else {
                        assert(mark@[k2] == mark0[k2]);
                    }
                }
            }
            next_right = next_right - 1;
            update_neighbors(a, Ghost(ns), sink, &mark, &mut indeg, &mut outdeg, &mut sources, &mut sinks);
            unprocessed = unprocessed - 1;
                proof {
                    lemma_index_of_id(a, ns, sink.0);
                    assert(greedy_run(g, ns, s0, t + 1) == greedy_step(g, ns, st));
                    t = t + 1;
                }
            } else {
                on_sinks = false;
                proof {
                    assert(greedy_run(g, ns, s0, t + 1) == greedy_step(g, ns, st));
                    t = t + 1;
                }
            }
        } else if sources.len() > 0 {
            let ghost srcs0 = sources@;
            let ghost sinks0 = sinks@;
            let ghost mark0 = mark@;
            let source = sources.pop_front().unwrap();
            proof {
                assert(srcs0[0] == source);
                assert(!is_marked_or_foreign(a, ns, mark@, source.0));
                lemma_position(a, ns, source.0);
                assert(!sources@.contains(source)) by {
                    if sources@.contains(source) {
                        let i = choose|i: int| 0 <= i < sources@.len() && sources@[i] == source;
                        assert(srcs0[i + 1] == srcs0[0]);
                    }
                }
                assert(LNodeId(source.0) == source);
                lemma_unmarked_count_positive(mark0);
                assert(indeg@[a.nodes@[srcs0[0].0 as int].id as int] == 0);
            }
            let idx = a.nodes[source.0].id;
            proof {
                if acyclic_input(a, ns) {
                    assert(indeg@[idx as int] == 0);
                    lemma_far_ends_marked(a, ns, mark0, indeg@, outdeg@, idx as int);
                    lemma_forward_step(a, ns, mark0, next_left, next_right, unprocessed as nat, idx as int, false);
                }
            }
            mark.set(idx, next_left);
            proof {
                lemma_mark_node(a, ns, mark0, next_left, indeg@, outdeg@, srcs0, sinks0, sources@, sinks@, source.0);
                lemma_unmarked_count_update(mark0, idx as int, next_left);
                assert forall|k2: int, l: int|
                    0 <= k2 < mark@.len() && 0 <= l < mark@.len() && k2 != l && mark@[k2] != 0 implies #[trigger] mark@[k2]
                    != #[trigger] mark@[l] by {
                    if k2 != idx && l != idx {
                        assert(mark0[k2] != mark0[l]);
                    } else if k2 == idx {
                        assert(mark@[l] == mark0[l]);
                    } else {
                        assert(mark@[k2] == mark0[k2]);
                    }
                }
            }
            next_left = next_left + 1;
            update_neighbors(a, Ghost(ns), source, &mark, &mut indeg, &mut outdeg, &mut sources, &mut sinks);
            unprocessed = unprocessed - 1;
            proof {
                lemma_index_of_id(a, ns, source.0);
                assert(greedy_run(g, ns, s0, t + 1) == greedy_step(g, ns, st));
                t = t + 1;
            }
        } else {
            proof {
                if acyclic_input(a, ns) {
                    lemma_unmarked_count_positive(mark@);
                    lemma_no_stall(a, ns, mark@, indeg@, outdeg@, sources@, sinks@);
                }
            }
            let mut max_outflow: i32 = i32::MIN;
            max_nodes.clear();
            let mut k: usize = 0;
            while k < n
                invariant
                    n == nodes@.len(),
                    ns == node_ids(nodes@),
                    cycle_input(a, ns),
                    ids_are_positions(a, ns),
                    degrees_inv(a, ns, mark@, indeg@, outdeg@, dead_edges(a, ns, mark@, None)),
                    k <= n,
                    max_nodes@.len() <= k,
                    forall|i: int| 0 <= i < max_nodes@.len() ==> !#[trigger] is_marked_or_foreign(a, ns, mark@, max_nodes@[i].0),
                    (exists|l: int| 0 <= l < k && mark@[l] == 0) ==> max_nodes@.len() > 0,
                    max_nodes@.len() == 0 ==> max_outflow == i32::MIN,
                    (max_outflow, max_nodes@) == max_scan(ns, mark@, indeg@, outdeg@, k as nat),
                decreases n - k,
            {
                let node = nodes[k];
                proof {
                    assert(ns[k as int] == node.0);
                    assert(ns.contains(node.0));
                }
                let index = a.nodes[node.0].id;
                if mark[index] == 0 {
                    proof {
                        assert(index == k);
                        lemma_weight_sum_bounds(
                            a,
                            incoming(a, node.0),
                            |f: usize| !dead_edges(a, ns, mark@, None)(f) && source_node(a, f) != Some(node.0),
                            0,
                        );
                        lemma_weight_sum_bounds(
                            a,
                            outgoing(a, node.0),
                            |f: usize| !dead_edges(a, ns, mark@, None)(f) && target_node(a, f) != Some(node.0),
                            0,
                        );
                    }
                    let outflow = outdeg[index] - indeg[index];
                    if outflow >= max_outflow {
                        let ghost before_push = max_nodes@;
                        if outflow > max_outflow {
                            max_nodes.clear();
                            max_outflow = outflow;
                        }
                        max_nodes.push(node);
                        proof {
                            assert(LNodeId(ns[k as int]) == node);
                            if outflow > max_scan(ns, mark@, indeg@, outdeg@, k as nat).0 {
                                assert(max_nodes@ =~= seq![node]);
                            } else {
                                assert(max_nodes@ =~= before_push.push(node));
                            }
                        }
                    }
                }
                proof {
                    if exists|l: int| 0 <= l < k + 1 && mark@[l] == 0 {
                        let l = choose|l: int| 0 <= l < k + 1 && mark@[l] == 0;
                        if l < k {
                            assert(exists|l2: int| 0 <= l2 < k && mark@[l2] == 0);
                        }
                    }
                }
                k += 1;
            }
            proof {
                lemma_unmarked_count_positive(mark@);
            }
            let ghost ties = max_nodes@;
            let pick = random.next_int(max_nodes.len() as i32);
            proof {
                assert(ties == max_scan(ns, st.mark, st.q.indeg, st.q.outdeg, ns.len()).1);
                if java_is_pow2(ties.len() as i32) {
                } else {
                }
                assert((pick, random.state(), random.draw_count()) == next_int_draw(st.seed, st.draws, ties.len() as i32));
            }
            let max_node = max_nodes[pick as usize];
            let ghost srcs0 = sources@;
            let ghost sinks0 = sinks@;
            let ghost mark0 = mark@;
            proof {
                assert(!is_marked_or_foreign(a, ns, mark@, max_node.0));
                lemma_position(a, ns, max_node.0);
                assert(LNodeId(max_node.0) == max_node);
                lemma_unmarked_count_positive(mark0);
            }
            let idx = a.nodes[max_node.0].id;
            mark.set(idx, next_left);
            proof {
                lemma_mark_node(a, ns, mark0, next_left, indeg@, outdeg@, srcs0, sinks0, sources@, sinks@, max_node.0);
                lemma_unmarked_count_update(mark0, idx as int, next_left);
                assert forall|k2: int, l: int|
                    0 <= k2 < mark@.len() && 0 <= l < mark@.len() && k2 != l && mark@[k2] != 0 implies #[trigger] mark@[k2]
                    != #[trigger] mark@[l] by {
                    if k2 != idx && l != idx {
                        assert(mark0[k2] != mark0[l]);
                    } else if k2 == idx {
                        assert(mark@[l] == mark0[l]);
                    } else {
                        assert(mark@[k2] == mark0[k2]);
                    }
                }
            }
            next_left = next_left + 1;
            update_neighbors(a, Ghost(ns), max_node, &mark, &mut indeg, &mut outdeg, &mut sources, &mut sinks);
            unprocessed = unprocessed - 1;
            on_sinks = true;
            proof {
                lemma_index_of_id(a, ns, max_node.0);
                assert(greedy_run(g, ns, s0, t + 1) == greedy_step(g, ns, st));
                t = t + 1;
            }
        }
    }
    proof {
        lemma_end_reached(a, ns, r0.state(), r0.draw_count(), t);
    }
    let ghost before = mark@;
    proof {
        lemma_unmarked_count_positive(mark@);
    }
    let shift_base = (n + 1) as i32;
    let mut k: usize = 0;
    while k < n
        invariant
            n == nodes@.len(),
            mark@.len() == n,
            before.len() == n,
            k <= n,
            shift_base == n + 1,
            marks_inv(before, next_left, next_right, 0, n as nat),
            forall|l: int| 0 <= l < n ==> #[trigger] before[l] != 0,
            forall|l: int| 0 <= l < k ==> #[trigger] mark@[l] == if before[l] < 0 {
                before[l] + n + 1
            } else {
                before[l] as int
            },
            forall|l: int| k <= l < n ==> #[trigger] mark@[l] == before[l],
            acyclic_input(a, ns) ==> forward_so_far(a, ns, before),
            ns == node_ids(nodes@),
            cycle_input(a, ns),
            ids_are_positions(a, ns),
        decreases n - k,
    {
        if mark[k] < 0 {
            let m = mark[k] + shift_base;
            mark.set(k, m);
        }
        k += 1;
    }
    proof {
        assert forall|l: int| 0 <= l < n implies 1 <= #[trigger] mark@[l] <= n by {
            assert(before[l] != 0);
        }
        assert forall|l1: int, l2: int| 0 <= l1 < n && 0 <= l2 < n && l1 != l2 implies #[trigger] mark@[l1]
            != #[trigger] mark@[l2] by {
            assert(before[l1] != 0 && before[l2] != 0);
            assert(before[l1] != before[l2]);
        }
        assert(mark@ =~= shifted(before));
        if acyclic_input(a, ns) {
            assert forall|e: int|
                0 <= e < a.edges@.len() && #[trigger] touches(a, ns, e) && source_node(a, e as usize) != target_node(
                    a,
                    e as usize,
                ) implies mark@[a.nodes@[source_node(a, e as usize)->0 as int].id as int] < mark@[a.nodes@[target_node(
                a,
                e as usize,
            )->0 as int].id as int] by {
                assert(edge_closed(a, ns, e));
                lemma_position(a, ns, source_node(a, e as usize)->0);
                lemma_position(a, ns, target_node(a, e as usize)->0);
                let u = a.nodes@[source_node(a, e as usize)->0 as int].id as int;
                let v = a.nodes@[target_node(a, e as usize)->0 as int].id as int;
                assert(before[u] != 0 && before[v] != 0);
            }
        }
    }
    mark
}

// ---------------------------------------------------------------------
// Reversal.

/// Edge `e` has an end at one of `nodes` and points from a higher to a
/// lower mark.
pub open spec fn points_back(a: &LGraphArena, nodes: Seq<usize>, mark: Seq<i32>, e: int) -> bool {
    &&& 0 <= e < a.edges@.len()
    &&& touches(a, nodes, e)
    &&& mark[a.nodes@[source_node(a, e as usize)->0 as int].id as int] > mark[a.nodes@[target_node(
        a,
        e as usize,
    )->0 as int].id as int]
}

/// The ends of every edge once the edges of `rev` are reversed: `ends`
/// for the others, `other` for those.
pub open spec fn flipped_ends(ends: Seq<Option<usize>>, other: Seq<Option<usize>>, rev: Seq<usize>) -> Seq<
    Option<usize>,
> {
    Seq::new(ends.len(), |e: int| if rev.contains(e as usize) { other[e] } else { ends[e] })
}

/// Whether the reversal pass, at port `i` of the `k`-th node, has already
/// looked at edge `e`.
pub open spec fn handled_port(a0: &LGraphArena, k: int, ps: Seq<usize>, i: int, e: int) -> bool {
    let x = source_node(a0, e as usize)->0;
    let id = a0.nodes@[x as int].id as int;
    id < k || (id == k && ps.subrange(0, i).contains(a0.sources()[e]->0))
}

/// The same, `j` edges into the outgoing list `c` of that port.
pub open spec fn handled_edge(a0: &LGraphArena, k: int, ps: Seq<usize>, i: int, c: Seq<usize>, j: int, e: int) -> bool {
    handled_port(a0, k, ps, i, e) || (a0.nodes@[source_node(a0, e as usize)->0 as int].id as int == k
        && a0.sources()[e]->0 == ps[i] && c.subrange(0, j).contains(e as usize))
}

/// A copy of a vector of plain values.
pub(crate) fn copy_vec<T: Copy>(v: &Vec<T>) -> (r: Vec<T>)
    ensures
        r@ == v@,
{
    let mut r: Vec<T> = Vec::new();
    let mut i: usize = 0;
    while i < v.len()
        invariant
            i <= v@.len(),
            r@ == v@.subrange(0, i as int),
        decreases v@.len() - i,
    {
        r.push(v[i]);
        i += 1;
        proof {
            assert(r@ =~= v@.subrange(0, i as int));
        }
    }
    proof {
        assert(v@.subrange(0, v@.len() as int) =~= v@);
    }
    r
}

/// The edge indices of an edge list.
pub open spec fn edge_ids(edges: Seq<LEdgeId>) -> Seq<usize> {
    edges.map_values(|e: LEdgeId| e.0)
}

/// `a` is `a0` with exactly the edges of `rev` reversed: their ends
/// swapped and their reversed flag flipped; nodes, ports and graphs are as
/// they were.
pub open spec fn reversed_from(a: &LGraphArena, a0: &LGraphArena, rev: Seq<usize>) -> bool {
    &&& a.wf()
    &&& a.nodes == a0.nodes
    &&& a.graphs == a0.graphs
    &&& a.owners() == a0.owners()
    &&& a.collect_flags() == a0.collect_flags()
    &&& a.edges@.len() == a0.edges@.len()
    &&& a.ports@.len() == a0.ports@.len()
    &&& forall|i: int| 0 <= i < rev.len() ==> #[trigger] rev[i] < a0.edges@.len()
    &&& a.sources() == flipped_ends(a0.sources(), a0.targets(), rev)
    &&& a.targets() == flipped_ends(a0.targets(), a0.sources(), rev)
    &&& forall|e: int|
        0 <= e < a.edges@.len() ==> #[trigger] a.edges@[e].props.reversed == (a0.edges@[e].props.reversed != rev.contains(
            e as usize,
        ))
    &&& forall|e: int| 0 <= e < a.edges@.len() ==> #[trigger] a.edges@[e].props.priority == a0.edges@[e].props.priority
}

/// Reverses, node by node in list order, port by port and along each
/// outgoing list, every edge whose source has a higher mark than its
/// target, and returns the reversed edges in that order.
fn reverse_backward_edges(arena: &mut LGraphArena, nodes: &Vec<LNodeId>, mark: &Vec<i32>) -> (reversed: Vec<LEdgeId>)
    requires
        cycle_input(&*old(arena), node_ids(nodes@)),
        ids_are_positions(&*old(arena), node_ids(nodes@)),
        mark@.len() == nodes@.len(),
    ensures
        reversed_from(&*final(arena), &*old(arena), edge_ids(reversed@)),
        edge_ids(reversed@).no_duplicates(),
        reversed@.len() == 0 ==> *final(arena) == *old(arena),
        forall|e: int|
            0 <= e < old(arena).edges@.len() ==> (edge_ids(reversed@).contains(e as usize) <==> #[trigger] points_back(
                &*old(arena),
                node_ids(nodes@),
                mark@,
                e,
            )),
{
    let ghost a0 = *arena;
    let ghost ns = node_ids(nodes@);
    let ghost m = mark@;
    let n = nodes.len();
    let mut reversed: Vec<LEdgeId> = Vec::new();
    proof {
        assert(edge_ids(reversed@) =~= Seq::<usize>::empty());
        assert(arena.sources() =~= flipped_ends(a0.sources(), a0.targets(), Seq::empty()));
        assert(arena.targets() =~= flipped_ends(a0.targets(), a0.sources(), Seq::empty()));
    }
    let mut k: usize = 0;
    while k < n
        invariant
                reversed@.len() == 0 ==> *arena == a0,
            n == nodes@.len(),
            ns == node_ids(nodes@),
            m == mark@,
            m.len() == n,
            cycle_input(&a0, ns),
            ids_are_positions(&a0, ns),
            reversed_from(&*arena, &a0, edge_ids(reversed@)),
            edge_ids(reversed@).no_duplicates(),
            forall|t: int| 0 <= t < reversed@.len() ==> points_back(&a0, ns, m, #[trigger] reversed@[t].0 as int),
            k <= n,
            forall|e: int|
                #[trigger] points_back(&a0, ns, m, e) && a0.nodes@[source_node(&a0, e as usize)->0 as int].id < k
                    ==> edge_ids(reversed@).contains(e as usize),
            forall|t: int|
                0 <= t < reversed@.len() ==> a0.nodes@[source_node(&a0, #[trigger] reversed@[t].0)->0 as int].id < k,
        decreases n - k,
    {
        let node = nodes[k];
        proof {
            assert(ns[k as int] == node.0);
            assert(node.0 < a0.nodes@.len());
        }
        let node_index = arena.nodes[node.0].id;
        let ports = copy_vec(&arena.nodes[node.0].ports);
        let ghost ps = a0.port_lists()[node.0 as int];
        proof {
            assert(ns[k as int] == node.0);
            assert(node_index == k);
            lemma_port_list(&a0, node.0);
            assert(ports@.map_values(|p: LPortId| p.0) == ps);
            assert forall|e: int| #[trigger] points_back(&a0, ns, m, e) && handled_port(&a0, k as int, ps, 0, e) implies edge_ids(
                reversed@,
            ).contains(e as usize) by {
                assert(ps.subrange(0, 0) =~= Seq::<usize>::empty());
            }
            assert forall|t: int| 0 <= t < reversed@.len() implies handled_port(&a0, k as int, ps, 0, #[trigger] reversed@[t].0 as int) by {
            }
        }
        let mut i: usize = 0;
        while i < ports.len()
            invariant
                reversed@.len() == 0 ==> *arena == a0,
                n == nodes@.len(),
                ns == node_ids(nodes@),
                m == mark@,
                m.len() == n,
                cycle_input(&a0, ns),
                ids_are_positions(&a0, ns),
                reversed_from(&*arena, &a0, edge_ids(reversed@)),
                edge_ids(reversed@).no_duplicates(),
                forall|t: int| 0 <= t < reversed@.len() ==> points_back(&a0, ns, m, #[trigger] reversed@[t].0 as int),
                k < n,
                ns[k as int] == node.0,
                node_index == k,
                ps == a0.port_lists()[node.0 as int],
                ports@.map_values(|p: LPortId| p.0) == ps,
                ps.no_duplicates(),
                forall|q: int| 0 <= q < ps.len() ==> #[trigger] ps[q] < a0.ports@.len() && a0.owners()[ps[q] as int] == Some(node.0),
                i <= ps.len(),
                forall|e: int|
                    #[trigger] points_back(&a0, ns, m, e) && handled_port(&a0, k as int, ps, i as int, e)
                        ==> edge_ids(reversed@).contains(e as usize),
                forall|t: int|
                    0 <= t < reversed@.len() ==> handled_port(&a0, k as int, ps, i as int, #[trigger] reversed@[t].0 as int),
            decreases ps.len() - i,
        {
            let port = ports[i];
            proof {
                assert(ps[i as int] == port.0);
                assert(port.0 < a0.ports@.len());
            }
            let outs = copy_vec(&arena.ports[port.0].outgoing_edges);
            let ghost c = edge_ids(outs@);
            let ghost rev_snap = edge_ids(reversed@);
            let ghost pi = i as int;
            proof {
                assert(ps[pi] == port.0);
                assert(c == arena.out_lists()[port.0 as int]);
                assert(c.no_duplicates());
                assert forall|jj: int| 0 <= jj < c.len() implies #[trigger] c[jj] < a0.edges@.len() && ((rev_snap.contains(c[jj])
                    && a0.targets()[c[jj] as int] == Some(ps[pi])) || (!rev_snap.contains(c[jj]) && a0.sources()[c[jj] as int]
                    == Some(ps[pi]))) by {
                    assert(arena.out_lists()[port.0 as int][jj] < arena.sources().len());
                    assert(arena.sources()[c[jj] as int] == Some(port.0));
                }
                assert forall|e: int| #[trigger] points_back(&a0, ns, m, e) && a0.sources()[e] == Some(ps[pi]) implies c.contains(
                    e as usize,
                ) by {
                    assert(source_node(&a0, e as usize) == Some(node.0));
                    if rev_snap.contains(e as usize) {
                        let t = choose|t: int| 0 <= t < rev_snap.len() && rev_snap[t] == e as usize;
                        assert(reversed@[t].0 == e as usize);
                        assert(handled_port(&a0, k as int, ps, pi, e));
                        let q = choose|q: int| 0 <= q < pi && ps.subrange(0, pi)[q] == ps[pi];
                        assert(ps[q] == ps[pi]);
                    }
                    assert(arena.sources()[e] == Some(port.0));
                }
                assert forall|e: int| #[trigger] points_back(&a0, ns, m, e) && handled_edge(&a0, k as int, ps, pi, c, 0, e) implies edge_ids(
                    reversed@,
                ).contains(e as usize) by {
                    assert(c.subrange(0, 0) =~= Seq::<usize>::empty());
                }
                assert forall|t: int| 0 <= t < reversed@.len() implies handled_edge(&a0, k as int, ps, pi, c, 0, #[trigger] reversed@[t].0 as int) by {
                }
            }
            let mut j: usize = 0;
            while j < outs.len()
                invariant
                reversed@.len() == 0 ==> *arena == a0,
                    n == nodes@.len(),
                    ns == node_ids(nodes@),
                    m == mark@,
                    m.len() == n,
                    cycle_input(&a0, ns),
                    ids_are_positions(&a0, ns),
                    reversed_from(&*arena, &a0, edge_ids(reversed@)),
                    edge_ids(reversed@).no_duplicates(),
                    forall|t: int| 0 <= t < reversed@.len() ==> points_back(&a0, ns, m, #[trigger] reversed@[t].0 as int),
                    k < n,
                    ns[k as int] == node.0,
                    node_index == k,
                    ps == a0.port_lists()[node.0 as int],
                    ps.no_duplicates(),
                    forall|q: int| 0 <= q < ps.len() ==> #[trigger] ps[q] < a0.ports@.len() && a0.owners()[ps[q] as int] == Some(node.0),
                    0 <= pi < ps.len(),
                    ps[pi] == port.0,
                    c == edge_ids(outs@),
                    c.no_duplicates(),
                    j <= c.len(),
                    rev_snap.len() <= reversed@.len(),
                    edge_ids(reversed@).subrange(0, rev_snap.len() as int) == rev_snap,
                    forall|jj: int|
                        0 <= jj < c.len() ==> #[trigger] c[jj] < a0.edges@.len() && ((rev_snap.contains(c[jj]) && a0.targets()[c[jj] as int]
                            == Some(ps[pi])) || (!rev_snap.contains(c[jj]) && a0.sources()[c[jj] as int] == Some(ps[pi]))),
                    forall|e: int|
                        #[trigger] points_back(&a0, ns, m, e) && handled_edge(&a0, k as int, ps, pi, c, j as int, e)
                            ==> edge_ids(reversed@).contains(e as usize),
                    forall|t: int|
                        0 <= t < reversed@.len() ==> handled_edge(&a0, k as int, ps, pi, c, j as int, #[trigger] reversed@[t].0 as int),
                decreases c.len() - j,
            {
                let edge = outs[j];
                let ghost e = edge.0;
                let ghost rev = edge_ids(reversed@);
                proof {
                    assert(c[j as int] == e);
                    assert(e < a0.edges@.len());
                    if rev_snap.contains(e) {
                        let t = choose|t: int| 0 <= t < rev_snap.len() && rev_snap[t] == e;
                        assert(rev[t] == e);
                        assert(rev.contains(e));
                        assert(a0.targets()[e as int] == Some(port.0));
                        assert(target_node(&a0, e) == Some(node.0));
                        assert(points_back(&a0, ns, m, reversed@[t].0 as int));
                        assert(touches(&a0, ns, e as int));
                    } else {
                        assert(a0.sources()[e as int] == Some(port.0));
                        assert(source_node(&a0, e) == Some(node.0));
                        assert(touches(&a0, ns, e as int));
                        if rev.contains(e) {
                            let t = choose|t: int| 0 <= t < rev.len() && rev[t] == e;
                            assert(reversed@[t].0 == e);
                            assert(handled_edge(&a0, k as int, ps, pi, c, j as int, e as int));
                            if ps.subrange(0, pi).contains(port.0) {
                                let q = choose|q: int| 0 <= q < pi && ps.subrange(0, pi)[q] == port.0;
                                assert(ps[q] == ps[pi]);
                            }
                            if c.subrange(0, j as int).contains(e) {
                                let q = choose|q: int| 0 <= q < j && c.subrange(0, j as int)[q] == e;
                                assert(c[q] == c[j as int]);
                            }
                            assert(false);
                        }
                    }
                    assert(edge_closed(&a0, ns, e as int));
                    lemma_position(&a0, ns, source_node(&a0, e)->0);
                    lemma_position(&a0, ns, target_node(&a0, e)->0);
                }
                let target_node = arena.edge_target_node(edge).unwrap();
                let target_ix = arena.nodes[target_node.0].id;
                proof {
                    lemma_position(&a0, ns, target_node.0);
                    let c1 = c.subrange(0, j + 1);
                    assert forall|f: usize| #[trigger] c1.contains(f) <==> (c.subrange(0, j as int).contains(f) || f == e) by {
                        lemma_prefix_step(c, j as int, f);
                    }
                }
                if mark[node_index] > mark[target_ix] {
                    proof {
                        assert(!rev.contains(e));
                        assert(points_back(&a0, ns, m, e as int));
                        assert(arena.collect_flags()[a0.targets()[e as int]->0 as int] == a0.collect_flags()[a0.targets()[e as int]->0 as int]);
                        assert(arena.collect_flags()[port.0 as int] == a0.collect_flags()[port.0 as int]);
                        assert(arena.sources()[e as int] == Some(port.0));
                        assert(arena.targets()[e as int] == a0.targets()[e as int]);
                        assert(LPortId(port.0) == port);
                        assert(arena.edges@[e as int].source == Some(port));
                        assert(arena.edges@[e as int].target == Some(LPortId(a0.targets()[e as int]->0)));
                    }
                    let ghost pre = *arena;
                    arena.edge_reverse(edge, true);
                    reversed.push(edge);
                    proof {
                        let rev2 = edge_ids(reversed@);
                        assert(arena.sources() == pre.sources().update(e as int, pre.targets()[e as int]));
                        assert(arena.targets() == pre.targets().update(e as int, pre.sources()[e as int]));
                        assert(rev2 =~= rev.push(e));
                        assert forall|f: usize| #[trigger] rev2.contains(f) <==> (rev.contains(f) || f == e) by {
                            if rev2.contains(f) {
                                let t = choose|t: int| 0 <= t < rev2.len() && rev2[t] == f;
                                if t < rev.len() {
                                    assert(rev[t] == f);
                                }
                            }
                            if rev.contains(f) {
                                let t = choose|t: int| 0 <= t < rev.len() && rev[t] == f;
                                assert(rev2[t] == f);
                            }
                            if f == e {
                                assert(rev2[rev.len() as int] == f);
                            }
                        }
                        assert(pre.targets() == flipped_ends(a0.targets(), a0.sources(), rev));
                        assert(pre.sources() == flipped_ends(a0.sources(), a0.targets(), rev));
                        assert(a0.sources().len() == a0.targets().len());
                        assert(a0.edges@.len() == a0.edges.len());
                        assert forall|x: int| 0 <= x < arena.sources().len() implies #[trigger] arena.sources()[x]
                            == flipped_ends(a0.sources(), a0.targets(), rev2)[x] by {
                            assert(x as usize as int == x);
                            assert(rev2.contains(x as usize) <==> (rev.contains(x as usize) || x as usize == e));
                            if x == e as int {
                                assert(pre.targets()[x] == a0.targets()[x]);
                            } else {
                                assert(arena.sources()[x] == pre.sources()[x]);
                            }
                        }
                        assert forall|x: int| 0 <= x < arena.targets().len() implies #[trigger] arena.targets()[x]
                            == flipped_ends(a0.targets(), a0.sources(), rev2)[x] by {
                            assert(x as usize as int == x);
                            assert(rev2.contains(x as usize) <==> (rev.contains(x as usize) || x as usize == e));
                            if x == e as int {
                                assert(pre.sources()[x] == a0.sources()[x]);
                            } else {
                                assert(arena.targets()[x] == pre.targets()[x]);
                            }
                        }
                        assert(arena.sources() =~= flipped_ends(a0.sources(), a0.targets(), rev2));
                        assert(arena.targets() =~= flipped_ends(a0.targets(), a0.sources(), rev2));
                        assert forall|x: int| 0 <= x < arena.edges@.len() implies #[trigger] arena.edges@[x].props.reversed
                            == (a0.edges@[x].props.reversed != rev2.contains(x as usize)) by {
                            assert(rev2.contains(x as usize) <==> (rev.contains(x as usize) || x as usize == e));
                        }
                        assert(rev2.no_duplicates());
                        assert(rev2.subrange(0, rev_snap.len() as int) =~= rev_snap);
                    }
                }
                proof {
                    let rev2 = edge_ids(reversed@);
                    assert forall|e2: int| #[trigger] points_back(&a0, ns, m, e2) && handled_edge(&a0, k as int, ps, pi, c, j + 1, e2)
                        implies rev2.contains(e2 as usize) by {
                        if !handled_edge(&a0, k as int, ps, pi, c, j as int, e2) {
                            assert(e2 as usize == e);
                            if rev.contains(e) {
                                let t = choose|t: int| 0 <= t < rev.len() && rev[t] == e;
                                assert(rev2[t] == e);
                            }
                        } else {
                            assert(rev.contains(e2 as usize));
                            let t = choose|t: int| 0 <= t < rev.len() && rev[t] == e2 as usize;
                            assert(rev2[t] == e2 as usize);
                        }
                    }
                    assert forall|t: int| 0 <= t < reversed@.len() implies handled_edge(&a0, k as int, ps, pi, c, j + 1, #[trigger] reversed@[t].0 as int) by {
                        if t < rev.len() {
                            assert(reversed@[t].0 == rev[t]);
                        }
                    }
                }
                j += 1;
            }
            proof {
                assert(c.subrange(0, c.len() as int) =~= c);
                assert forall|e2: int| #[trigger] points_back(&a0, ns, m, e2) && handled_port(&a0, k as int, ps, pi + 1, e2)
                    implies edge_ids(reversed@).contains(e2 as usize) by {
                    lemma_prefix_step(ps, pi, a0.sources()[e2]->0);
                    if !handled_port(&a0, k as int, ps, pi, e2) {
                        assert(a0.sources()[e2] is Some);
                        assert(a0.sources()[e2] == Some(ps[pi]));
                        assert(c.contains(e2 as usize));
                        assert(handled_edge(&a0, k as int, ps, pi, c, c.len() as int, e2));
                    }
                }
                assert forall|t: int| 0 <= t < reversed@.len() implies handled_port(&a0, k as int, ps, pi + 1, #[trigger] reversed@[t].0 as int) by {
                    let e2 = reversed@[t].0 as int;
                    lemma_prefix_step(ps, pi, a0.sources()[e2]->0);
                    assert(handled_edge(&a0, k as int, ps, pi, c, c.len() as int, e2));
                }
            }
            i += 1;
        }
        proof {
            assert(ps.subrange(0, ps.len() as int) =~= ps);
            assert forall|e2: int| #[trigger] points_back(&a0, ns, m, e2) && a0.nodes@[source_node(&a0, e2 as usize)->0 as int].id
                < k + 1 implies edge_ids(reversed@).contains(e2 as usize) by {
                let x = source_node(&a0, e2 as usize)->0;
                if a0.nodes@[x as int].id == k {
                    assert(edge_closed(&a0, ns, e2));
                    lemma_position(&a0, ns, x);
                    assert(x == node.0);
                    let s2 = a0.sources()[e2]->0;
                    assert(a0.owners()[s2 as int] == Some(node.0));
                    assert(ps.contains(s2));
                    assert(handled_port(&a0, k as int, ps, ps.len() as int, e2));
                }
            }
        }
        k += 1;
    }
    proof {
        assert forall|e: int| 0 <= e < a0.edges@.len() implies (edge_ids(reversed@).contains(e as usize) <==> #[trigger] points_back(
            &a0,
            ns,
            m,
            e,
        )) by {
            if points_back(&a0, ns, m, e) {
                assert(edge_closed(&a0, ns, e));
                lemma_position(&a0, ns, source_node(&a0, e as usize)->0);
            }
            if edge_ids(reversed@).contains(e as usize) {
                let t = choose|t: int| 0 <= t < reversed@.len() && edge_ids(reversed@)[t] == e as usize;
                assert(points_back(&a0, ns, m, reversed@[t].0 as int));
            }
        }
    }
    reversed
}

// ---------------------------------------------------------------------
// The whole phase.

/// `b` is `a` with, at most, other scratch ids on its nodes.
pub open spec fn same_but_ids(a: &LGraphArena, b: &LGraphArena) -> bool {
    &&& a.graphs == b.graphs
    &&& a.ports == b.ports
    &&& a.edges == b.edges
    &&& a.labels == b.labels
    &&& a.nodes@.len() == b.nodes@.len()
    &&& forall|x: int|
        0 <= x < a.nodes@.len() ==> {
            &&& (#[trigger] a.nodes@[x]).graph == b.nodes@[x].graph
            &&& a.nodes@[x].layer == b.nodes@[x].layer
            &&& a.nodes@[x].node_type == b.nodes@[x].node_type
            &&& a.nodes@[x].ports == b.nodes@[x].ports
            &&& a.nodes@[x].labels == b.nodes@[x].labels
            &&& a.nodes@[x].nested_graph == b.nodes@[x].nested_graph
            &&& a.nodes@[x].props == b.nodes@[x].props
        }
}

/// Weight sums agree on arenas with the same edges.
pub proof fn lemma_weight_sum_arenas(
    a: &LGraphArena,
    b: &LGraphArena,
    s: Seq<usize>,
    keep1: spec_fn(usize) -> bool,
    keep2: spec_fn(usize) -> bool,
)
    requires
        a.edges == b.edges,
        forall|i: int| 0 <= i < s.len() ==> keep1(#[trigger] s[i]) == keep2(s[i]),
    ensures
        weight_sum(a, s, keep1) == weight_sum(b, s, keep2),
    decreases s.len(),
{
    if s.len() > 0 {
        lemma_weight_sum_arenas(a, b, s.drop_last(), keep1, keep2);
        assert(keep1(s[s.len() - 1]) == keep2(s[s.len() - 1]));
    }
}

/// Changing scratch ids keeps an arena valid and the input of cycle
/// breaking what it was.
pub proof fn lemma_ids_keep_input(a: &LGraphArena, b: &LGraphArena, nodes: Seq<usize>)
    requires
        same_but_ids(a, b),
        cycle_input(a, nodes),
    ensures
        cycle_input(b, nodes),
        a.sources() == b.sources(),
        a.targets() == b.targets(),
        a.owners() == b.owners(),
        a.port_lists() == b.port_lists(),
        a.graph_of() == b.graph_of(),
        a.layer_of() == b.layer_of(),
        a.collect_flags() == b.collect_flags(),
{
    assert(a.port_lists() =~= b.port_lists());
    assert(a.graph_of() =~= b.graph_of());
    assert(a.layer_of() =~= b.layer_of());
    assert forall|k: int| 0 <= k < nodes.len() implies in_weight(b, #[trigger] nodes[k], none_dead()) <= i32::MAX
        && out_weight(b, nodes[k], none_dead()) <= i32::MAX by {
        let x = nodes[k];
        lemma_weight_sum_arenas(
            a,
            b,
            incoming(a, x),
            |f: usize| !none_dead()(f) && source_node(a, f) != Some(x),
            |f: usize| !none_dead()(f) && source_node(b, f) != Some(x),
        );
        lemma_weight_sum_arenas(
            a,
            b,
            outgoing(a, x),
            |f: usize| !none_dead()(f) && target_node(a, f) != Some(x),
            |f: usize| !none_dead()(f) && target_node(b, f) != Some(x),
        );
    }
    assert forall|e: int| 0 <= e < b.edges@.len() && #[trigger] touches(b, nodes, e) implies edge_closed(b, nodes, e) by {
        assert(touches(a, nodes, e));
    }
}

/// Changing scratch ids changes nothing of the marking.
pub proof fn lemma_ids_keep_marking(a: &LGraphArena, b: &LGraphArena, ns: Seq<usize>, seed: u64, draws: u64)
    requires
        same_but_ids(a, b),
        cycle_input(a, ns),
    ensures
        greedy_end(a, ns, seed, draws) == greedy_end(b, ns, seed, draws),
        greedy_ranking(a, ns, seed, draws) == greedy_ranking(b, ns, seed, draws),
{
    lemma_ids_keep_input(a, b, ns);
    assert(a.in_lists() =~= b.in_lists());
    assert(a.out_lists() =~= b.out_lists());
    assert(cycle_view(a) == cycle_view(b));
    assert forall|k: int| 0 <= k < ns.len() implies in_weight(a, #[trigger] ns[k], none_dead()) == in_weight(
        b,
        ns[k],
        none_dead(),
    ) && out_weight(a, ns[k], none_dead()) == out_weight(b, ns[k], none_dead()) by {
        let x = ns[k];
        assert(incoming(a, x) == incoming(b, x));
        assert(outgoing(a, x) == outgoing(b, x));
        lemma_weight_sum_arenas(
            a,
            b,
            incoming(a, x),
            |f: usize| !none_dead()(f) && source_node(a, f) != Some(x),
            |f: usize| !none_dead()(f) && source_node(b, f) != Some(x),
        );
        lemma_weight_sum_arenas(
            a,
            b,
            outgoing(a, x),
            |f: usize| !none_dead()(f) && target_node(a, f) != Some(x),
            |f: usize| !none_dead()(f) && target_node(b, f) != Some(x),
        );
    }
    assert(Seq::new(ns.len(), |k: int| in_weight(a, ns[k], none_dead()) as i32) =~= Seq::new(
        ns.len(),
        |k: int| in_weight(b, ns[k], none_dead()) as i32,
    ));
    assert(Seq::new(ns.len(), |k: int| out_weight(a, ns[k], none_dead()) as i32) =~= Seq::new(
        ns.len(),
        |k: int| out_weight(b, ns[k], none_dead()) as i32,
    ));
    assert(greedy_start(a, ns, seed, draws) == greedy_start(b, ns, seed, draws));
}

/// The position of a node in a list without repetitions is its id when
/// ids are positions.
pub proof fn lemma_index_of_id(a: &LGraphArena, nodes: Seq<usize>, x: usize)
    requires
        ids_are_positions(a, nodes),
        nodes.no_duplicates(),
        nodes.contains(x),
    ensures
        nodes.index_of(x) == a.nodes@[x as int].id,
{
    lemma_position(a, nodes, x);
    let i = nodes.index_of(x);
    assert(nodes[i] == x);
}

/// `mark` gives `n` nodes the distinct marks `1..=n`.
pub open spec fn is_ranking(mark: Seq<i32>, n: nat) -> bool {
    &&& mark.len() == n
    &&& forall|k: int| 0 <= k < n ==> 1 <= #[trigger] mark[k] <= n
    &&& forall|k: int, l: int| 0 <= k < n && 0 <= l < n && k != l ==> #[trigger] mark[k] != #[trigger] mark[l]
}

/// The mark of node `x`: the entry of `mark` at its position in `nodes`.
pub open spec fn mark_of(nodes: Seq<usize>, mark: Seq<i32>, x: usize) -> i32 {
    mark[nodes.index_of(x)]
}

/// Edge `e` has an end at one of `nodes` and runs from a higher to a lower
/// mark.
pub open spec fn runs_backward(a: &LGraphArena, nodes: Seq<usize>, mark: Seq<i32>, e: int) -> bool {
    &&& touches(a, nodes, e)
    &&& mark_of(nodes, mark, source_node(a, e as usize)->0) > mark_of(nodes, mark, target_node(a, e as usize)->0)
}

/// Edge `e` runs from a lower to a higher mark.
pub open spec fn runs_forward(a: &LGraphArena, nodes: Seq<usize>, mark: Seq<i32>, e: int) -> bool {
    mark_of(nodes, mark, source_node(a, e as usize)->0) < mark_of(nodes, mark, target_node(a, e as usize)->0)
}

/// Breaks the cycles of one graph by
/// reversing edges.
///
/// The nodes' scratch ids become their positions in the graph's layerless
/// node list. The greedy marking (`greedy_ranking`, which fixes the ties
/// drawn from the generator too) then ranks the nodes, and every edge that
/// runs from a higher to a lower rank is reversed; the reversed edges are
/// returned, each once. Afterwards every edge of the graph but a
/// self-loop runs from a lower to a higher rank, so the graph is acyclic.
/// Where the graph had no cycle to begin with, no edge is reversed and the
/// generator is not drawn from.
#[verifier::rlimit(60)]
pub fn break_cycles(arena: &mut LGraphArena, graph: LGraphId, random: &mut JavaRandom) -> (reversed: Vec<LEdgeId>)
    requires
        graph.0 < old(arena).graphs@.len(),
        cycle_input(&*old(arena), old(arena).layerless_lists()[graph.0 as int]),
        draws_return(old(arena).layerless_lists()[graph.0 as int].len() as int),
    ensures
        acyclic_input(&*old(arena), old(arena).layerless_lists()[graph.0 as int]) ==> *final(random) == *old(random),
        forall|i: int| 0 <= i < reversed@.len() ==> #[trigger] reversed@[i].0 < old(arena).edges@.len(),
        acyclic_input(&*old(arena), old(arena).layerless_lists()[graph.0 as int]) ==> {
            &&& reversed@.len() == 0
            &&& final(arena).sources() == old(arena).sources()
            &&& final(arena).targets() == old(arena).targets()
        },
        final(arena).wf(),
        final(arena).graphs == old(arena).graphs,
        final(arena).owners() == old(arena).owners(),
        final(arena).port_lists() == old(arena).port_lists(),
        final(arena).graph_of() == old(arena).graph_of(),
        final(arena).layer_of() == old(arena).layer_of(),
        final(arena).collect_flags() == old(arena).collect_flags(),
        final(arena).edges@.len() == old(arena).edges@.len(),
        ids_are_positions(&*final(arena), old(arena).layerless_lists()[graph.0 as int]),
        final(arena).sources() == flipped_ends(old(arena).sources(), old(arena).targets(), edge_ids(reversed@)),
        final(arena).targets() == flipped_ends(old(arena).targets(), old(arena).sources(), edge_ids(reversed@)),
        forall|e: int|
            0 <= e < final(arena).edges@.len() ==> #[trigger] final(arena).edges@[e].props.reversed == (old(
                arena,
            ).edges@[e].props.reversed != edge_ids(reversed@).contains(e as usize)),
        forall|e: int|
            0 <= e < final(arena).edges@.len() ==> #[trigger] final(arena).edges@[e].props.priority == old(
                arena,
            ).edges@[e].props.priority,
        edge_ids(reversed@).no_duplicates(),
        is_ranking(
            greedy_ranking(
                &*old(arena),
                old(arena).layerless_lists()[graph.0 as int],
                old(random).state(),
                old(random).draw_count(),
            ),
            old(arena).layerless_lists()[graph.0 as int].len(),
        ),
        forall|e: int|
            0 <= e < old(arena).edges@.len() ==> (edge_ids(reversed@).contains(e as usize) <==> runs_backward(
                &*old(arena),
                old(arena).layerless_lists()[graph.0 as int],
                greedy_ranking(
                    &*old(arena),
                    old(arena).layerless_lists()[graph.0 as int],
                    old(random).state(),
                    old(random).draw_count(),
                ),
                e,
            )),
        forall|e: int|
            0 <= e < old(arena).edges@.len() && touches(&*final(arena), old(arena).layerless_lists()[graph.0 as int], e)
                && source_node(&*final(arena), e as usize) != target_node(&*final(arena), e as usize) ==> runs_forward(
                &*final(arena),
                old(arena).layerless_lists()[graph.0 as int],
                greedy_ranking(
                    &*old(arena),
                    old(arena).layerless_lists()[graph.0 as int],
                    old(random).state(),
                    old(random).draw_count(),
                ),
                e,
            ),
        final(random).state() == greedy_end(
            &*old(arena),
            old(arena).layerless_lists()[graph.0 as int],
            old(random).state(),
            old(random).draw_count(),
        ).seed,
        final(random).draw_count() == greedy_end(
            &*old(arena),
            old(arena).layerless_lists()[graph.0 as int],
            old(random).state(),
            old(random).draw_count(),
        ).draws,
        acyclic_input(&*old(arena), old(arena).layerless_lists()[graph.0 as int]) ==> same_but_ids(&*old(arena), &*final(arena)),
        forall|x: int|
            0 <= x < final(arena).nodes@.len() ==> #[trigger] final(arena).nodes@[x] == (LNode {
                id: final(arena).nodes@[x].id,
                ..old(arena).nodes@[x]
            }),
        final(arena).nodes@.len() == old(arena).nodes@.len(),
{
    let ghost a_start = *arena;
    let ghost ns = a_start.layerless_lists()[graph.0 as int];
    let nodes = copy_vec(&arena.graphs[graph.0].layerless_nodes);
    proof {
        assert(node_ids(nodes@) == ns);
    }
    let mut k: usize = 0;
    while k < nodes.len()
        invariant
            ns == node_ids(nodes@),
            ns == a_start.layerless_lists()[graph.0 as int],
            cycle_input(&a_start, ns),
            same_but_ids(&a_start, &*arena),
            k <= nodes@.len(),
            forall|l: int| 0 <= l < k ==> #[trigger] arena.nodes@[ns[l] as int].id == l,
        decreases nodes@.len() - k,
    {
        let x = nodes[k].0;
        proof {
            assert(ns[k as int] == x);
            assert(x < a_start.nodes@.len());
        }
        arena.nodes[x].id = k;
        proof {
            assert forall|l: int| 0 <= l < k + 1 implies #[trigger] arena.nodes@[ns[l] as int].id == l by {
                if l < k {
                    assert(ns[l] != ns[k as int]);
                }
            }
        }
        k += 1;
    }
    proof {
        lemma_ids_keep_input(&a_start, &*arena, ns);
    }
    let ghost a_mid = *arena;
    proof {
        if acyclic_input(&a_start, ns) {
            assert(a_mid.sources() =~= a_start.sources());
            assert(a_mid.targets() =~= a_start.targets());
            assert(a_mid.owners() =~= a_start.owners());
            lemma_acyclic_same_ends(&a_start, &a_mid, ns);
        }
    }
    proof {
        lemma_ids_keep_marking(&a_start, &a_mid, ns, random.state(), random.draw_count());
    }
    let mark = greedy_marks(&*arena, &nodes, random);
    let reversed = reverse_backward_edges(arena, &nodes, &mark);
    proof {
        let m = mark@;
        let rev = edge_ids(reversed@);
        let n = ns.len();
        assert(is_ranking(m, n));
        assert forall|x: usize| ns.contains(x) implies #[trigger] ns.index_of(x) == a_mid.nodes@[x as int].id by {
            lemma_index_of_id(&a_mid, ns, x);
        }
        assert forall|e: int| 0 <= e < a_start.edges@.len() implies (rev.contains(e as usize) <==> runs_backward(
            &a_start,
            ns,
            m,
            e,
        )) by {
            assert(points_back(&a_mid, ns, m, e) == runs_backward(&a_start, ns, m, e)) by {
                assert(touches(&a_mid, ns, e) == touches(&a_start, ns, e));
                if touches(&a_start, ns, e) {
                    assert(edge_closed(&a_start, ns, e));
                    assert(ns.index_of(source_node(&a_start, e as usize)->0) == a_mid.nodes@[source_node(&a_mid, e as usize)->0 as int].id);
                    assert(ns.index_of(target_node(&a_start, e as usize)->0) == a_mid.nodes@[target_node(&a_mid, e as usize)->0 as int].id);
                }
            }
        }
        assert forall|e: int|
            0 <= e < a_start.edges@.len() && touches(&*arena, ns, e) && source_node(&*arena, e as usize) != target_node(
                &*arena,
                e as usize,
            ) implies runs_forward(&*arena, ns, m, e) by {
            let s0 = source_node(&a_start, e as usize);
            let t0 = target_node(&a_start, e as usize);
            if rev.contains(e as usize) {
                assert(arena.sources()[e] == a_start.targets()[e]);
                assert(arena.targets()[e] == a_start.sources()[e]);
                assert(runs_backward(&a_start, ns, m, e));
            } else {
                assert(arena.sources()[e] == a_start.sources()[e]);
                assert(arena.targets()[e] == a_start.targets()[e]);
                assert(touches(&a_start, ns, e));
                assert(edge_closed(&a_start, ns, e));
                assert(!runs_backward(&a_start, ns, m, e));
                lemma_position(&a_mid, ns, s0->0);
                lemma_position(&a_mid, ns, t0->0);
                assert(ns.index_of(s0->0) != ns.index_of(t0->0));
            }
        }
    }
    proof {
        if acyclic_input(&a_start, ns) {
            let m = mark@;
            let rev = edge_ids(reversed@);
            assert(acyclic_input(&a_mid, ns));
            assert forall|e: int| 0 <= e < a_start.edges@.len() implies !#[trigger] rev.contains(e as usize) by {
                assert(rev.contains(e as usize) == points_back(&a_mid, ns, m, e));
                if touches(&a_mid, ns, e) && source_node(&a_mid, e as usize) != target_node(&a_mid, e as usize) {
                    assert(m[a_mid.nodes@[source_node(&a_mid, e as usize)->0 as int].id as int] < m[a_mid.nodes@[target_node(
                        &a_mid,
                        e as usize,
                    )->0 as int].id as int]);
                }
            }
            assert(arena.sources() =~= a_start.sources());
            assert(arena.targets() =~= a_start.targets());
            if reversed@.len() > 0 {
                assert(rev[0] < a_mid.edges@.len());
                let e0 = rev[0] as int;
                assert(e0 as usize == rev[0]);
                assert(rev.contains(rev[0]));
                assert(!rev.contains(e0 as usize));
            }
        }
        assert forall|i: int| 0 <= i < reversed@.len() implies #[trigger] reversed@[i].0 < a_start.edges@.len() by {
            assert(edge_ids(reversed@)[i] == reversed@[i].0);
        }
    }
    proof {
        assert(same_but_ids(&a_start, &a_mid));
        assert(arena.nodes == a_mid.nodes);
        assert forall|x: int| 0 <= x < arena.nodes@.len() implies #[trigger] arena.nodes@[x] == (LNode {
            id: arena.nodes@[x].id,
            ..a_start.nodes@[x]
        }) by {
            assert(a_mid.nodes@[x].graph == a_start.nodes@[x].graph);
        }
        if acyclic_input(&a_start, ns) {
            assert(*arena == a_mid);
        }
    }
    reversed
}

} // verus!
