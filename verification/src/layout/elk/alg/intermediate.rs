//! Intermediate processors of the layered algorithm that work on the
//! graph structure: port ordering helpers and the restoring of reversed
//! edges.

use vstd::prelude::*;
use crate::layout::elk::alg::graph::{in_sync, layer_ends, port_index, LEdgeId, LGraphArena, LGraphId, LNode, LNodeId, LPort, LPortId};
use crate::layout::elk::alg::options::{NodeProps, PortConstraints, PortSide};
use crate::layout::elk::alg::p1_cycles::{copy_vec, flipped_ends, lemma_port_list, reversed_from, source_node};

verus! {

/// `ports` with the range `[low, high)` reversed in place.
pub open spec fn reversed_range(ports: Seq<LPortId>, low: int, high: int) -> Seq<LPortId> {
    Seq::new(ports.len(), |k: int| if low <= k < high { ports[low + high - 1 - k] } else { ports[k] })
}

/// Reverses the ports in `[low_idx, high_idx)`. Ranges of at most two
/// ports are left as they are.
pub fn reverse_range(ports: &mut Vec<LPortId>, low_idx: usize, high_idx: usize)
    requires
        low_idx + 2 <= usize::MAX,
        high_idx > low_idx + 2 ==> high_idx <= old(ports)@.len(),
    ensures
        high_idx <= low_idx + 2 ==> final(ports)@ == old(ports)@,
        high_idx > low_idx + 2 ==> final(ports)@ == reversed_range(old(ports)@, low_idx as int, high_idx as int),
{
    if high_idx <= low_idx + 2 {
        return;
    }
    let ghost orig = ports@;
    let n = (high_idx - low_idx) / 2;
    let mut i: usize = 0;
    while i < n
        invariant
            orig.len() == ports@.len(),
            low_idx + 2 < high_idx <= orig.len(),
            n == (high_idx - low_idx) / 2,
            i <= n,
            forall|k: int|
                0 <= k < orig.len() ==> #[trigger] ports@[k] == if (low_idx <= k < low_idx + i) || (high_idx - i <= k
                    < high_idx) {
                    orig[low_idx + high_idx - 1 - k]
                } else {
                    orig[k]
                },
        decreases n - i,
    {
        let a = low_idx + i;
        let b = high_idx - i - 1;
        let pa = ports[a];
        let pb = ports[b];
        ports.set(a, pb);
        ports.set(b, pa);
        i += 1;
    }
    proof {
        assert(ports@ =~= reversed_range(orig, low_idx as int, high_idx as int));
    }
}

/// Reversing the same range twice gives back the original order.
pub proof fn lemma_reverse_range_twice(ports: Seq<LPortId>, low: int, high: int)
    requires
        0 <= low <= high <= ports.len(),
    ensures
        reversed_range(reversed_range(ports, low, high), low, high) == ports,
{
    assert(reversed_range(reversed_range(ports, low, high), low, high) =~= ports);
}

/// Whether edge `e` is flagged as reversed and starts at a node placed in
/// a layer of graph `g`.
pub open spec fn restorable(a: &LGraphArena, g: usize, e: int) -> bool {
    &&& 0 <= e < a.edges@.len()
    &&& a.edges@[e].props.reversed
    &&& source_node(a, e as usize) matches Some(x) && a.graph_of()[x as int] == g && a.layer_of()[x as int] is Some
}

/// The layer of the source node of edge `e`.
pub open spec fn source_layer(a: &LGraphArena, e: int) -> int {
    a.layer_of()[source_node(a, e as usize)->0 as int]->0 as int
}

/// The position of the source node of edge `e` within its layer of graph
/// `g`.
pub open spec fn source_slot(a: &LGraphArena, g: usize, e: int) -> int {
    a.layer_lists()[g as int][source_layer(a, e)].index_of(source_node(a, e as usize)->0)
}

/// Whether the restoring pass, at port `i` of the `k`-th node of layer
/// `li`, has already looked at the outgoing list holding edge `e`.
pub open spec fn restore_visited(a0: &LGraphArena, g: usize, li: int, k: int, ps: Seq<usize>, i: int, e: int) -> bool {
    let l = source_layer(a0, e);
    let q = source_slot(a0, g, e);
    l < li || (l == li && 0 <= q < k) || (l == li && q == k && ps.subrange(0, i).contains(a0.sources()[e]->0))
}

/// The same, `j` edges into the outgoing list `c` of that port.
pub open spec fn restore_visited_edge(
    a0: &LGraphArena,
    g: usize,
    li: int,
    k: int,
    ps: Seq<usize>,
    i: int,
    c: Seq<usize>,
    j: int,
    e: int,
) -> bool {
    restore_visited(a0, g, li, k, ps, i, e) || (source_layer(a0, e) == li && source_slot(a0, g, e) == k
        && a0.sources()[e]->0 == ps[i] && c.subrange(0, j).contains(e as usize))
}

/// The state of the restoring pass: `a` is `a0` with the edges of `rev`,
/// each restorable in `a0`, reversed once.
pub open spec fn restoring(a: &LGraphArena, a0: &LGraphArena, g: usize, rev: Seq<usize>) -> bool {
    &&& a0.wf()
    &&& g < a0.graphs@.len()
    &&& reversed_from(a, a0, rev)
    &&& rev.no_duplicates()
    &&& forall|t: int| 0 <= t < rev.len() ==> #[trigger] restorable(a0, g, rev[t] as int)
}

/// An index below the number of edges survives the round trip through
/// `usize`.
proof fn lemma_edge_index(a: &LGraphArena, e: int)
    requires
        0 <= e < a.edges@.len(),
    ensures
        e as usize as int == e,
{
    assert(a.edges@.len() == a.edges.len());
}

/// A node listed in layer `l` of graph `g` sits at its own position there.
proof fn lemma_layer_slot(a: &LGraphArena, g: usize, l: int, k: int)
    requires
        a.wf(),
        g < a.graphs@.len(),
        0 <= l < a.layer_lists()[g as int].len(),
        0 <= k < a.layer_lists()[g as int][l].len(),
    ensures
        a.layer_lists()[g as int][l][k] < a.nodes@.len(),
        a.graph_of()[a.layer_lists()[g as int][l][k] as int] == g,
        a.layer_of()[a.layer_lists()[g as int][l][k] as int] == Some(l as usize),
        a.layer_lists()[g as int][l].index_of(a.layer_lists()[g as int][l][k]) == k,
{
    let lists = a.layer_lists()[g as int];
    let ends = crate::layout::elk::alg::graph::layer_ends(a.graph_of(), a.layer_of(), g as int);
    assert(crate::layout::elk::alg::graph::in_sync(ends, lists));
    let x = lists[l][k];
    assert(x < ends.len() && ends[x as int] == Some(l as usize));
    assert(lists[l].no_duplicates());
    let i = lists[l].index_of(x);
    assert(lists[l].contains(x));
    assert(lists[l][i] == x);
}

/// A node of graph `g` with a layer is listed in that layer.
proof fn lemma_layer_listed(a: &LGraphArena, g: usize, x: usize)
    requires
        a.wf(),
        g < a.graphs@.len(),
        x < a.nodes@.len(),
        a.graph_of()[x as int] == g,
        a.layer_of()[x as int] is Some,
    ensures
        a.layer_of()[x as int]->0 < a.layer_lists()[g as int].len(),
        a.layer_lists()[g as int][a.layer_of()[x as int]->0 as int].contains(x),
        0 <= a.layer_lists()[g as int][a.layer_of()[x as int]->0 as int].index_of(x) < a.layer_lists()[g as int][a.layer_of()[x as int]->0 as int].len(),
        a.layer_lists()[g as int][a.layer_of()[x as int]->0 as int][a.layer_lists()[g as int][a.layer_of()[x as int]->0 as int].index_of(x)] == x,
{
    let lists = a.layer_lists()[g as int];
    let ends = crate::layout::elk::alg::graph::layer_ends(a.graph_of(), a.layer_of(), g as int);
    assert(crate::layout::elk::alg::graph::in_sync(ends, lists));
    assert(ends[x as int] == a.layer_of()[x as int]);
}

/// Walks the layers of `graph` in order, the
/// nodes of each layer, their ports and each port's outgoing edges, and
/// reverses back every edge flagged as reversed. Exactly the flagged edges
/// that start at a layered node of the graph are reversed, once each, and
/// lose their flag.
pub fn reversed_edge_restorer(arena: &mut LGraphArena, graph: LGraphId)
    requires
        old(arena).wf(),
        graph.0 < old(arena).graphs@.len(),
    ensures
        final(arena).wf(),
        final(arena).nodes == old(arena).nodes,
        final(arena).graphs == old(arena).graphs,
        final(arena).owners() == old(arena).owners(),
        final(arena).collect_flags() == old(arena).collect_flags(),
        final(arena).edges@.len() == old(arena).edges@.len(),
        final(arena).ports@.len() == old(arena).ports@.len(),
        final(arena).sources() == Seq::new(
            old(arena).sources().len(),
            |e: int| if restorable(&*old(arena), graph.0, e) { old(arena).targets()[e] } else { old(arena).sources()[e] },
        ),
        final(arena).targets() == Seq::new(
            old(arena).targets().len(),
            |e: int| if restorable(&*old(arena), graph.0, e) { old(arena).sources()[e] } else { old(arena).targets()[e] },
        ),
        forall|e: int|
            0 <= e < final(arena).edges@.len() ==> #[trigger] final(arena).edges@[e].props.reversed == (old(
                arena,
            ).edges@[e].props.reversed && !restorable(&*old(arena), graph.0, e)),
        forall|e: int|
            0 <= e < final(arena).edges@.len() ==> #[trigger] final(arena).edges@[e].props.priority == old(
                arena,
            ).edges@[e].props.priority,
{
    let ghost a0 = *arena;
    let ghost g = graph.0;
    let ghost mut rev: Seq<usize> = Seq::empty();
    proof {
        assert(arena.sources() =~= flipped_ends(a0.sources(), a0.targets(), rev));
        assert(arena.targets() =~= flipped_ends(a0.targets(), a0.sources(), rev));
    }
    let layer_count = arena.graphs[graph.0].layers.len();
    let mut li: usize = 0;
    while li < layer_count
        invariant
            g == graph.0,
            restoring(&*arena, &a0, g, rev),
            layer_count == a0.layer_lists()[g as int].len(),
            li <= layer_count,
            forall|e: int| #[trigger] restorable(&a0, g, e) && source_layer(&a0, e) < li ==> rev.contains(e as usize),
            forall|t: int| 0 <= t < rev.len() ==> source_layer(&a0, #[trigger] rev[t] as int) < li,
        decreases layer_count - li,
    {
        let nodes = copy_vec(&arena.graphs[graph.0].layers[li].nodes);
        let ghost lay = a0.layer_lists()[g as int][li as int];
        proof {
            assert(nodes@.map_values(|n: LNodeId| n.0) == lay);
        }
        let mut k: usize = 0;
        while k < nodes.len()
            invariant
                g == graph.0,
                restoring(&*arena, &a0, g, rev),
                layer_count == a0.layer_lists()[g as int].len(),
                li < layer_count,
                lay == a0.layer_lists()[g as int][li as int],
                nodes@.map_values(|n: LNodeId| n.0) == lay,
                k <= lay.len(),
                forall|e: int|
                    #[trigger] restorable(&a0, g, e) && (source_layer(&a0, e) < li || (source_layer(&a0, e) == li
                        && 0 <= source_slot(&a0, g, e) < k)) ==> rev.contains(e as usize),
                forall|t: int|
                    0 <= t < rev.len() ==> source_layer(&a0, #[trigger] rev[t] as int) < li || (source_layer(&a0, rev[t] as int)
                        == li && 0 <= source_slot(&a0, g, rev[t] as int) < k),
            decreases lay.len() - k,
        {
            let node = nodes[k];
            proof {
                assert(lay[k as int] == node.0);
                lemma_layer_slot(&a0, g, li as int, k as int);
            }
            let ports = copy_vec(&arena.nodes[node.0].ports);
            let ghost ps = a0.port_lists()[node.0 as int];
            proof {
                assert(ports@.map_values(|p: LPortId| p.0) == ps);
                assert(ps.subrange(0, 0) =~= Seq::<usize>::empty());
                crate::layout::elk::alg::p1_cycles::lemma_port_list(&a0, node.0);
            }
            let mut i: usize = 0;
            while i < ports.len()
                invariant
                    g == graph.0,
                    restoring(&*arena, &a0, g, rev),
                    layer_count == a0.layer_lists()[g as int].len(),
                    li < layer_count,
                    lay == a0.layer_lists()[g as int][li as int],
                    k < lay.len(),
                    lay[k as int] == node.0,
                    node.0 < a0.nodes@.len(),
                    a0.graph_of()[node.0 as int] == g,
                    a0.layer_of()[node.0 as int] == Some(li),
                    lay.index_of(node.0) == k,
                    ps == a0.port_lists()[node.0 as int],
                    ports@.map_values(|p: LPortId| p.0) == ps,
                    ps.no_duplicates(),
                    forall|q: int| 0 <= q < ps.len() ==> #[trigger] ps[q] < a0.ports@.len() && a0.owners()[ps[q] as int] == Some(node.0),
                    i <= ps.len(),
                    forall|e: int|
                        #[trigger] restorable(&a0, g, e) && restore_visited(&a0, g, li as int, k as int, ps, i as int, e)
                            ==> rev.contains(e as usize),
                    forall|t: int|
                        0 <= t < rev.len() ==> restore_visited(&a0, g, li as int, k as int, ps, i as int, #[trigger] rev[t] as int),
                decreases ps.len() - i,
            {
                let port = ports[i];
                let ghost pi = i as int;
                proof {
                    assert(ps[pi] == port.0);
                    assert(port.0 < a0.ports@.len());
                    assert(a0.owners()[port.0 as int] == Some(node.0));
                }
                let outs = copy_vec(&arena.ports[port.0].outgoing_edges);
                let ghost c = outs@.map_values(|e: LEdgeId| e.0);
                let ghost rev_snap = rev;
                proof {
                    assert(c == arena.out_lists()[port.0 as int]);
                    assert forall|jj: int| 0 <= jj < c.len() implies #[trigger] c[jj] < a0.edges@.len() && ((rev_snap.contains(c[jj])
                        && a0.targets()[c[jj] as int] == Some(port.0)) || (!rev_snap.contains(c[jj]) && a0.sources()[c[jj] as int]
                        == Some(port.0))) by {
                        assert(arena.out_lists()[port.0 as int][jj] < arena.sources().len());
                        assert(arena.sources()[c[jj] as int] == Some(port.0));
                    }
                    assert forall|e: int| #[trigger] restorable(&a0, g, e) && a0.sources()[e] == Some(port.0) implies c.contains(
                        e as usize,
                    ) by {
                        lemma_edge_index(&a0, e);
                        assert(source_node(&a0, e as usize) == Some(node.0));
                        if rev_snap.contains(e as usize) {
                            let t = choose|t: int| 0 <= t < rev_snap.len() && rev_snap[t] == e as usize;
                            assert(restore_visited(&a0, g, li as int, k as int, ps, pi, rev_snap[t] as int));
                            let q = choose|q: int| 0 <= q < pi && ps.subrange(0, pi)[q] == port.0;
                            assert(ps[q] == ps[pi]);
                        }
                        assert(arena.sources()[e] == Some(port.0));
                    }
                    assert(c.subrange(0, 0) =~= Seq::<usize>::empty());
                }
                let mut j: usize = 0;
                while j < outs.len()
                    invariant
                        g == graph.0,
                        restoring(&*arena, &a0, g, rev),
                        li < layer_count,
                        lay == a0.layer_lists()[g as int][li as int],
                        k < lay.len(),
                        lay[k as int] == node.0,
                        node.0 < a0.nodes@.len(),
                        a0.graph_of()[node.0 as int] == g,
                        a0.layer_of()[node.0 as int] == Some(li),
                        lay.index_of(node.0) == k,
                        ps == a0.port_lists()[node.0 as int],
                        ps.no_duplicates(),
                        0 <= pi < ps.len(),
                        ps[pi] == port.0,
                        a0.owners()[port.0 as int] == Some(node.0),
                        c == outs@.map_values(|e: LEdgeId| e.0),
                        c.no_duplicates(),
                        j <= c.len(),
                        rev_snap.len() <= rev.len(),
                        rev.subrange(0, rev_snap.len() as int) == rev_snap,
                        forall|jj: int|
                            0 <= jj < c.len() ==> #[trigger] c[jj] < a0.edges@.len() && ((rev_snap.contains(c[jj]) && a0.targets()[
                                c[jj] as int] == Some(port.0)) || (!rev_snap.contains(c[jj]) && a0.sources()[c[jj] as int]
                                == Some(port.0))),
                        forall|e: int|
                            #[trigger] restorable(&a0, g, e) && restore_visited_edge(&a0, g, li as int, k as int, ps, pi, c, j as int, e)
                                ==> rev.contains(e as usize),
                        forall|t: int|
                            0 <= t < rev.len() ==> restore_visited_edge(&a0, g, li as int, k as int, ps, pi, c, j as int, #[trigger] rev[t] as int),
                    decreases c.len() - j,
                {
                    let edge = outs[j];
                    let ghost e = edge.0;
                    proof {
                        assert(c[j as int] == e);
                        if rev_snap.contains(e) {
                            let t = choose|t: int| 0 <= t < rev_snap.len() && rev_snap[t] == e;
                            assert(rev[t] == e);
                            assert(rev.contains(e));
                            assert(restorable(&a0, g, rev[t] as int));
                        } else if rev.contains(e) {
                            let t = choose|t: int| 0 <= t < rev.len() && rev[t] == e;
                            assert(source_node(&a0, e) == Some(node.0));
                            assert(restore_visited_edge(&a0, g, li as int, k as int, ps, pi, c, j as int, rev[t] as int));
                            if ps.subrange(0, pi).contains(port.0) {
                                let q = choose|q: int| 0 <= q < pi && ps.subrange(0, pi)[q] == port.0;
                                assert(ps[q] == ps[pi]);
                            }
                            if c.subrange(0, j as int).contains(e) {
                                let q = choose|q: int| 0 <= q < j && c.subrange(0, j as int)[q] == e;
                                assert(c[q] == c[j as int]);
                            }
                            assert(false);
                        } else {
                            assert(source_node(&a0, e) == Some(node.0));
                        }
                        let c1 = c.subrange(0, j + 1);
                        assert forall|f: usize| #[trigger] c1.contains(f) <==> (c.subrange(0, j as int).contains(f) || f == e) by {
                            crate::layout::elk::alg::p1_cycles::lemma_prefix_step(c, j as int, f);
                        }
                    }
                    let ghost rev0 = rev;
                    if arena.edges[edge.0].props.reversed {
                        let ghost pre = *arena;
                        arena.edge_reverse(edge, false);
                        proof {
                            assert(!rev0.contains(e));
                            assert(restorable(&a0, g, e as int));
                            rev = rev.push(e);
                            assert forall|f: usize| #[trigger] rev.contains(f) <==> (rev0.contains(f) || f == e) by {
                                if rev.contains(f) {
                                    let t = choose|t: int| 0 <= t < rev.len() && rev[t] == f;
                                    if t < rev0.len() {
                                        assert(rev0[t] == f);
                                    }
                                }
                                if rev0.contains(f) {
                                    let t = choose|t: int| 0 <= t < rev0.len() && rev0[t] == f;
                                    assert(rev[t] == f);
                                }
                                if f == e {
                                    assert(rev[rev0.len() as int] == f);
                                }
                            }
                            assert(pre.targets() == flipped_ends(a0.targets(), a0.sources(), rev0));
                            assert(pre.sources() == flipped_ends(a0.sources(), a0.targets(), rev0));
                            assert(a0.sources().len() == a0.targets().len());
                            assert(a0.edges@.len() == a0.edges.len());
                            assert forall|x: int| 0 <= x < arena.sources().len() implies #[trigger] arena.sources()[x]
                                == flipped_ends(a0.sources(), a0.targets(), rev)[x] by {
                                assert(x as usize as int == x);
                                assert(rev.contains(x as usize) <==> (rev0.contains(x as usize) || x as usize == e));
                                if x == e as int {
                                    assert(pre.targets()[x] == a0.targets()[x]);
                                } else {
                                    assert(arena.sources()[x] == pre.sources()[x]);
                                }
                            }
                            assert forall|x: int| 0 <= x < arena.targets().len() implies #[trigger] arena.targets()[x]
                                == flipped_ends(a0.targets(), a0.sources(), rev)[x] by {
                                assert(x as usize as int == x);
                                assert(rev.contains(x as usize) <==> (rev0.contains(x as usize) || x as usize == e));
                                if x == e as int {
                                    assert(pre.sources()[x] == a0.sources()[x]);
                                } else {
                                    assert(arena.targets()[x] == pre.targets()[x]);
                                }
                            }
                            assert(arena.sources() =~= flipped_ends(a0.sources(), a0.targets(), rev));
                            assert(arena.targets() =~= flipped_ends(a0.targets(), a0.sources(), rev));
                            assert forall|x: int| 0 <= x < arena.edges@.len() implies #[trigger] arena.edges@[x].props.reversed
                                == (a0.edges@[x].props.reversed != rev.contains(x as usize)) by {
                                assert(rev.contains(x as usize) <==> (rev0.contains(x as usize) || x as usize == e));
                            }
                            assert(rev.no_duplicates());
                            assert(rev.subrange(0, rev_snap.len() as int) =~= rev_snap);
                        }
                    } else {
                        proof {
                            if !rev0.contains(e) {
                                assert(!restorable(&a0, g, e as int));
                            }
                        }
                    }
                    proof {
                        assert forall|e2: int| #[trigger] restorable(&a0, g, e2) && restore_visited_edge(&a0, g, li as int, k as int, ps, pi, c, j + 1, e2)
                            implies rev.contains(e2 as usize) by {
                            lemma_edge_index(&a0, e2);
                            if !restore_visited_edge(&a0, g, li as int, k as int, ps, pi, c, j as int, e2) {
                                assert(e2 as usize == e);
                                if rev0.contains(e) {
                                    let t = choose|t: int| 0 <= t < rev0.len() && rev0[t] == e;
                                    assert(rev[t] == e);
                                }
                            } else {
                                assert(rev0.contains(e2 as usize));
                                let t = choose|t: int| 0 <= t < rev0.len() && rev0[t] == e2 as usize;
                                assert(rev[t] == e2 as usize);
                            }
                        }
                        assert forall|t: int| 0 <= t < rev.len() implies restore_visited_edge(&a0, g, li as int, k as int, ps, pi, c, j + 1, #[trigger] rev[t] as int) by {
                            if t < rev0.len() {
                                assert(rev[t] == rev0[t]);
                            }
                        }
                    }
                    j += 1;
                }
                proof {
                    assert(c.subrange(0, c.len() as int) =~= c);
                    assert forall|e2: int| #[trigger] restorable(&a0, g, e2) && restore_visited(&a0, g, li as int, k as int, ps, pi + 1, e2)
                        implies rev.contains(e2 as usize) by {
                        lemma_edge_index(&a0, e2);
                        crate::layout::elk::alg::p1_cycles::lemma_prefix_step(ps, pi, a0.sources()[e2]->0);
                        if !restore_visited(&a0, g, li as int, k as int, ps, pi, e2) {
                            assert(a0.sources()[e2] == Some(port.0));
                            assert(c.contains(e2 as usize));
                            assert(restore_visited_edge(&a0, g, li as int, k as int, ps, pi, c, c.len() as int, e2));
                        }
                    }
                    assert forall|t: int| 0 <= t < rev.len() implies restore_visited(&a0, g, li as int, k as int, ps, pi + 1, #[trigger] rev[t] as int) by {
                        let e2 = rev[t] as int;
                        crate::layout::elk::alg::p1_cycles::lemma_prefix_step(ps, pi, a0.sources()[e2]->0);
                        assert(restore_visited_edge(&a0, g, li as int, k as int, ps, pi, c, c.len() as int, e2));
                    }
                }
                i += 1;
            }
            proof {
                assert(ps.subrange(0, ps.len() as int) =~= ps);
                assert forall|e2: int| #[trigger] restorable(&a0, g, e2) && (source_layer(&a0, e2) < li || (source_layer(&a0, e2) == li
                    && 0 <= source_slot(&a0, g, e2) < k + 1)) implies rev.contains(e2 as usize) by {
                    lemma_edge_index(&a0, e2);
                    if source_layer(&a0, e2) == li && source_slot(&a0, g, e2) == k {
                        let x = source_node(&a0, e2 as usize)->0;
                        lemma_layer_listed(&a0, g, x);
                        assert(a0.layer_of()[x as int]->0 == li);
                        assert(lay.index_of(x) == k);
                        assert(lay[k as int] == x);
                        assert(x == node.0);
                        let s2 = a0.sources()[e2]->0;
                        assert(a0.owners()[s2 as int] == Some(node.0));
                        assert(ps.contains(s2));
                        assert(restore_visited(&a0, g, li as int, k as int, ps, ps.len() as int, e2));
                    }
                }
                assert forall|t: int| 0 <= t < rev.len() implies source_layer(&a0, #[trigger] rev[t] as int) < li || (source_layer(&a0, rev[t] as int)
                    == li && 0 <= source_slot(&a0, g, rev[t] as int) < k + 1) by {
                    assert(restore_visited(&a0, g, li as int, k as int, ps, ps.len() as int, rev[t] as int));
                }
            }
            k += 1;
        }
        proof {
            assert forall|e2: int| #[trigger] restorable(&a0, g, e2) && source_layer(&a0, e2) < li + 1 implies rev.contains(e2 as usize) by {
                lemma_edge_index(&a0, e2);
                if source_layer(&a0, e2) == li {
                    let x = source_node(&a0, e2 as usize)->0;
                    lemma_layer_listed(&a0, g, x);
                }
            }
        }
        li += 1;
    }
    proof {
        assert forall|e2: int| 0 <= e2 < a0.edges@.len() implies (rev.contains(e2 as usize) <==> #[trigger] restorable(&a0, g, e2)) by {
            lemma_edge_index(&a0, e2);
            if restorable(&a0, g, e2) {
                let x = source_node(&a0, e2 as usize)->0;
                lemma_layer_listed(&a0, g, x);
            }
            if rev.contains(e2 as usize) {
                let t = choose|t: int| 0 <= t < rev.len() && rev[t] == e2 as usize;
                assert(restorable(&a0, g, rev[t] as int));
            }
        }
        assert forall|e: int| 0 <= e < arena.edges@.len() implies #[trigger] arena.edges@[e].props.reversed == (
            a0.edges@[e].props.reversed && !restorable(&a0, g, e)) by {
            assert(rev.contains(e as usize) <==> restorable(&a0, g, e));
        }
        assert(arena.sources() =~= Seq::new(
            a0.sources().len(),
            |e: int| if restorable(&a0, g, e) { a0.targets()[e] } else { a0.sources()[e] },
        ));
        assert(arena.targets() =~= Seq::new(
            a0.targets().len(),
            |e: int| if restorable(&a0, g, e) { a0.sources()[e] } else { a0.targets()[e] },
        ));
    }
}

/// Restoring after cycle breaking gives every edge back its ends and its
/// flag: when no edge was flagged before, the reversed edges `rev` all
/// start at layered nodes of `g` once reversed, and `a2` is what the
/// restorer makes of `a1`, then `a2` has the ends and flags of `a0`.
pub proof fn lemma_restorer_undoes_reversal(a0: &LGraphArena, a1: &LGraphArena, a2: &LGraphArena, g: usize, rev: Seq<usize>)
    requires
        a0.sources().len() == a0.targets().len(),
        a0.sources().len() == a0.edges@.len(),
        a1.edges@.len() == a0.edges@.len(),
        a1.sources() == flipped_ends(a0.sources(), a0.targets(), rev),
        a1.targets() == flipped_ends(a0.targets(), a0.sources(), rev),
        forall|e: int|
            0 <= e < a0.edges@.len() ==> #[trigger] a1.edges@[e].props.reversed == (a0.edges@[e].props.reversed
                != rev.contains(e as usize)),
        forall|e: int| 0 <= e < a0.edges@.len() ==> !#[trigger] a0.edges@[e].props.reversed,
        forall|e: int|
            0 <= e < a0.edges@.len() && #[trigger] rev.contains(e as usize) ==> (source_node(a1, e as usize) matches Some(
                x,
            ) && a1.graph_of()[x as int] == g && a1.layer_of()[x as int] is Some),
        a2.sources() == Seq::new(
            a1.sources().len(),
            |e: int| if restorable(a1, g, e) { a1.targets()[e] } else { a1.sources()[e] },
        ),
        a2.targets() == Seq::new(
            a1.targets().len(),
            |e: int| if restorable(a1, g, e) { a1.sources()[e] } else { a1.targets()[e] },
        ),
        forall|e: int|
            0 <= e < a1.edges@.len() ==> #[trigger] a2.edges@[e].props.reversed == (a1.edges@[e].props.reversed
                && !restorable(a1, g, e)),
    ensures
        a2.sources() == a0.sources(),
        a2.targets() == a0.targets(),
        forall|e: int| 0 <= e < a0.edges@.len() ==> #[trigger] a2.edges@[e].props.reversed == a0.edges@[e].props.reversed,
{
    assert forall|e: int| 0 <= e < a0.edges@.len() implies #[trigger] restorable(a1, g, e) == rev.contains(e as usize) by {
        assert(a1.edges@[e].props.reversed == (a0.edges@[e].props.reversed != rev.contains(e as usize)));
        assert(!a0.edges@[e].props.reversed);
    }
    assert(a2.sources() =~= a0.sources());
    assert(a2.targets() =~= a0.targets());
    assert forall|e: int| 0 <= e < a0.edges@.len() implies #[trigger] a2.edges@[e].props.reversed == a0.edges@[e].props.reversed by {
        assert(restorable(a1, g, e) == rev.contains(e as usize));
        assert(!a0.edges@[e].props.reversed);
    }
}

// ---------------------------------------------------------------------
// Swapping two dummy nodes.

/// The first of `ports` on side `side`.
pub open spec fn first_on_side(a: &LGraphArena, ports: Seq<usize>, side: PortSide) -> Option<usize>
    decreases ports.len(),
{
    if ports.len() == 0 {
        None
    } else if a.ports@[ports[0] as int].side == side {
        Some(ports[0])
    } else {
        first_on_side(a, ports.subrange(1, ports.len() as int), side)
    }
}

/// The port `first_on_side` finds is one of `ports`, on that side.
pub proof fn lemma_first_on_side(a: &LGraphArena, ports: Seq<usize>, side: PortSide)
    ensures
        first_on_side(a, ports, side) matches Some(p) ==> ports.contains(p) && a.ports@[p as int].side == side,
    decreases ports.len(),
{
    if ports.len() > 0 && a.ports@[ports[0] as int].side != side {
        let t = ports.subrange(1, ports.len() as int);
        lemma_first_on_side(a, t, side);
        if let Some(p) = first_on_side(a, t, side) {
            let k = choose|k: int| 0 <= k < t.len() && t[k] == p;
            assert(ports[k + 1] == p);
        }
    } else if ports.len() > 0 {
        assert(ports[0] == ports[0]);
    }
}

/// The first port of a node on `side`.
pub(crate) fn find_port_on_side(a: &LGraphArena, node: LNodeId, side: PortSide) -> (r: Option<LPortId>)
    requires
        a.wf(),
        node.0 < a.nodes@.len(),
    ensures
        port_index(r) == first_on_side(a, a.port_lists()[node.0 as int], side),
{
    let ports = &a.nodes[node.0].ports;
    let ghost ps = a.port_lists()[node.0 as int];
    proof {
        crate::layout::elk::alg::p1_cycles::lemma_port_list(a, node.0);
        assert(ps.subrange(0, ps.len() as int) =~= ps);
    }
    let mut i: usize = 0;
    while i < ports.len()
        invariant
            a.wf(),
            node.0 < a.nodes@.len(),
            ps == a.port_lists()[node.0 as int],
            ports@.map_values(|p: LPortId| p.0) == ps,
            forall|q: int| 0 <= q < ps.len() ==> #[trigger] ps[q] < a.ports@.len(),
            i <= ps.len(),
            first_on_side(a, ps, side) == first_on_side(a, ps.subrange(i as int, ps.len() as int), side),
        decreases ps.len() - i,
    {
        let p = ports[i];
        proof {
            assert(ps[i as int] == p.0);
            let t = ps.subrange(i as int, ps.len() as int);
            assert(t[0] == p.0);
            assert(t.subrange(1, t.len() as int) =~= ps.subrange(i + 1, ps.len() as int));
        }
        if a.ports[p.0].side == side {
            return Some(p);
        }
        i += 1;
    }
    proof {
        assert(ps.subrange(i as int, ps.len() as int) =~= Seq::<usize>::empty());
    }
    None
}

/// Where `node` sits in a list that
/// holds it.
pub(crate) fn position_of(nodes: &Vec<LNodeId>, node: LNodeId) -> (r: usize)
    requires
        nodes@.contains(node),
    ensures
        r < nodes@.len(),
        nodes@[r as int] == node,
        forall|k: int| 0 <= k < r ==> nodes@[k] != node,
{
    let mut i: usize = 0;
    while i < nodes.len()
        invariant
            nodes@.contains(node),
            i <= nodes@.len(),
            forall|k: int| 0 <= k < i ==> nodes@[k] != node,
        decreases nodes@.len() - i,
    {
        if nodes[i] == node {
            return i;
        }
        i += 1;
    }
    proof {
        let k = choose|k: int| 0 <= k < nodes@.len() && nodes@[k] == node;
        assert(false);
    }
    0
}

/// In a list without repetitions, removing the value at `j` removes
/// index `j`.
pub proof fn lemma_remove_value_at(s: Seq<usize>, j: int)
    requires
        s.no_duplicates(),
        0 <= j < s.len(),
    ensures
        s.remove_value(s[j]) == s.remove(j),
{
    s.index_of_first_ensures(s[j]);
    let i = s.index_of_first(s[j])->0;
    assert(s[i] == s[j]);
}

/// Taking a node out of its place and putting another there replaces it.
pub proof fn lemma_replace_in_list(s: Seq<usize>, j: int, x: usize)
    requires
        s.no_duplicates(),
        0 <= j < s.len(),
    ensures
        s.remove_value(s[j]).insert(j, x) == s.update(j, x),
{
    lemma_remove_value_at(s, j);
    assert(s.remove(j).insert(j, x) =~= s.update(j, x));
}

/// Putting `x` before the `j`-th element and then taking that element out
/// replaces it with `x`.
pub proof fn lemma_insert_then_remove(s: Seq<usize>, j: int, x: usize)
    requires
        s.no_duplicates(),
        0 <= j < s.len(),
        !s.contains(x),
    ensures
        s.insert(j, x).remove_value(s[j]) == s.update(j, x),
{
    let t = s.insert(j, x);
    assert(t[j + 1] == s[j]);
    assert(t.no_duplicates()) by {
        assert forall|a: int, b: int| 0 <= a < t.len() && 0 <= b < t.len() && a != b implies t[a] != t[b] by {
            if a == j {
                if b < j {
                    assert(t[b] == s[b]);
                } else {
                    assert(t[b] == s[b - 1]);
                }
            } else if b == j {
                if a < j {
                    assert(t[a] == s[a]);
                } else {
                    assert(t[a] == s[a - 1]);
                }
            } else {
                let a1 = if a < j { a } else { a - 1 };
                let b1 = if b < j { b } else { b - 1 };
                assert(t[a] == s[a1] && t[b] == s[b1]);
            }
        }
    }
    lemma_remove_value_at(t, j + 1);
    assert(t.remove(j + 1) =~= s.update(j, x));
}

/// The ends of every edge once `moved` were given the end `to`.
pub open spec fn redirected(ends: Seq<Option<usize>>, moved: Seq<usize>, to: usize) -> Seq<Option<usize>> {
    Seq::new(ends.len(), |e: int| if moved.contains(e as usize) { Some(to) } else { ends[e] })
}

/// Sets the target of each of `edges`, which lead the incoming list of
/// port `from`, to port `to`, in order: the list of `from` keeps the rest,
/// `to` gains the edges at its end.
fn move_targets_to(arena: &mut LGraphArena, edges: &Vec<LEdgeId>, from: LPortId, to: LPortId, Ghost(rest): Ghost<Seq<usize>>)
    requires
        old(arena).wf(),
        from.0 < old(arena).ports@.len(),
        to.0 < old(arena).ports@.len(),
        from != to,
        old(arena).in_lists()[from.0 as int] == edges@.map_values(|e: LEdgeId| e.0) + rest,
    ensures
        final(arena).wf(),
        final(arena).in_lists() == old(arena).in_lists().update(from.0 as int, rest).update(
            to.0 as int,
            old(arena).in_lists()[to.0 as int] + edges@.map_values(|e: LEdgeId| e.0),
        ),
        final(arena).targets() == redirected(old(arena).targets(), edges@.map_values(|e: LEdgeId| e.0), to.0),
        final(arena).sources() == old(arena).sources(),
        final(arena).out_lists() == old(arena).out_lists(),
        final(arena).owners() == old(arena).owners(),
        final(arena).nodes == old(arena).nodes,
        final(arena).graphs == old(arena).graphs,
        final(arena).labels == old(arena).labels,
        final(arena).edges@.len() == old(arena).edges@.len(),
        final(arena).ports@.len() == old(arena).ports@.len(),
        forall|k: int| 0 <= k < old(arena).edges@.len() ==> #[trigger] final(arena).edges@[k].props == old(arena).edges@[k].props,
        forall|p: int| 0 <= p < old(arena).ports@.len() ==> #[trigger] final(arena).ports@[p].side == old(arena).ports@[p].side,
{
    let ghost a0 = *arena;
    let ghost s = edges@.map_values(|e: LEdgeId| e.0);
    let ghost lf = a0.in_lists()[from.0 as int];
    proof {
        assert(lf.no_duplicates());
        assert(s.subrange(0, s.len() as int) + rest =~= lf);
        assert(a0.in_lists()[to.0 as int] + s.subrange(0, 0) =~= a0.in_lists()[to.0 as int]);
        assert(arena.in_lists() =~= a0.in_lists().update(from.0 as int, s.subrange(0, s.len() as int) + rest).update(
            to.0 as int,
            a0.in_lists()[to.0 as int] + s.subrange(0, 0),
        ));
        assert(arena.targets() =~= redirected(a0.targets(), s.subrange(0, 0), to.0));
    }
    let mut j: usize = 0;
    while j < edges.len()
        invariant
            a0.wf(),
            from.0 < a0.ports@.len(),
            to.0 < a0.ports@.len(),
            from != to,
            s == edges@.map_values(|e: LEdgeId| e.0),
            lf == a0.in_lists()[from.0 as int],
            lf == s + rest,
            lf.no_duplicates(),
            j <= s.len(),
            arena.wf(),
            arena.in_lists() == a0.in_lists().update(from.0 as int, s.subrange(j as int, s.len() as int) + rest).update(
                to.0 as int,
                a0.in_lists()[to.0 as int] + s.subrange(0, j as int),
            ),
            arena.targets() == redirected(a0.targets(), s.subrange(0, j as int), to.0),
            arena.sources() == a0.sources(),
            arena.out_lists() == a0.out_lists(),
            arena.owners() == a0.owners(),
            arena.nodes == a0.nodes,
            arena.graphs == a0.graphs,
            arena.labels == a0.labels,
            arena.edges@.len() == a0.edges@.len(),
            arena.ports@.len() == a0.ports@.len(),
            forall|k: int| 0 <= k < a0.edges@.len() ==> #[trigger] arena.edges@[k].props == a0.edges@[k].props,
            forall|p: int| 0 <= p < a0.ports@.len() ==> #[trigger] arena.ports@[p].side == a0.ports@[p].side,
        decreases s.len() - j,
    {
        let edge = edges[j];
        let ghost e = edge.0;
        let ghost cur = s.subrange(j as int, s.len() as int) + rest;
        proof {
            assert(s[j as int] == e);
            assert(lf[j as int] == e);
            assert(lf.contains(e));
            crate::layout::elk::alg::p1_cycles::lemma_list_end(a0.targets(), a0.in_lists(), from.0, e);
            assert(!s.subrange(0, j as int).contains(e)) by {
                if s.subrange(0, j as int).contains(e) {
                    let k = choose|k: int| 0 <= k < j && s.subrange(0, j as int)[k] == e;
                    assert(s.subrange(0, j as int)[k] == s[k]);
                    assert(lf[k] == s[k]);
                    assert(lf[k] == lf[j as int]);
                }
            }
            assert(arena.targets()[e as int] == Some(from.0));
            assert(cur =~= lf.subrange(j as int, lf.len() as int));
            assert(cur.no_duplicates()) by {
                assert forall|x: int, y: int| 0 <= x < cur.len() && 0 <= y < cur.len() && x != y implies cur[x] != cur[y] by {
                    assert(cur[x] == lf[x + j] && cur[y] == lf[y + j]);
                    assert(lf[x + j] != lf[y + j]);
                }
            }
            assert(cur[0] == e);
            lemma_remove_value_at(cur, 0);
            assert(cur.remove(0) =~= s.subrange(j + 1, s.len() as int) + rest);
        }
        let ghost pre = *arena;
        arena.edge_set_target(edge, Some(to));
        proof {
            let s1 = s.subrange(0, j + 1);
            let lt = a0.in_lists()[to.0 as int];
            assert(pre.in_lists()[from.0 as int] == cur);
            assert(pre.in_lists()[to.0 as int] == lt + s.subrange(0, j as int));
            let base = pre.in_lists().update(from.0 as int, cur.remove_value(e));
            assert(arena.in_lists() == base.update(to.0 as int, base[to.0 as int].insert(base[to.0 as int].len() as int, e)));
            assert(base[to.0 as int].insert(base[to.0 as int].len() as int, e) =~= lt + s1);
            assert(arena.targets() == pre.targets().update(e as int, Some(to.0)));
            assert forall|x: int| 0 <= x < arena.targets().len() implies #[trigger] arena.targets()[x] == redirected(
                a0.targets(),
                s1,
                to.0,
            )[x] by {
                assert(x < a0.edges@.len());
                lemma_edge_index(&a0, x);
            }
            assert(s1 =~= s.subrange(0, j as int).push(e));
            assert forall|f: usize| #[trigger] s1.contains(f) <==> (s.subrange(0, j as int).contains(f) || f == e) by {
                crate::layout::elk::alg::p1_cycles::lemma_prefix_step(s, j as int, f);
            }
            assert(arena.targets() =~= redirected(a0.targets(), s1, to.0));
            assert(a0.in_lists()[to.0 as int] + s1 =~= (a0.in_lists()[to.0 as int] + s.subrange(0, j as int)).push(e));
            assert(arena.in_lists() =~= a0.in_lists().update(from.0 as int, s.subrange(j + 1, s.len() as int) + rest).update(
                to.0 as int,
                a0.in_lists()[to.0 as int] + s1,
            ));
        }
        j += 1;
    }
    proof {
        assert(s.subrange(0, s.len() as int) =~= s);
        assert(s.subrange(s.len() as int, s.len() as int) + rest =~= rest);
    }
}


/// Sets the source of each of `edges`, which lead the outgoing list of
/// port `from`, to port `to`, in order: the list of `from` keeps the rest,
/// `to` gains the edges at its end.
fn move_sources_to(arena: &mut LGraphArena, edges: &Vec<LEdgeId>, from: LPortId, to: LPortId, Ghost(rest): Ghost<Seq<usize>>)
    requires
        old(arena).wf(),
        from.0 < old(arena).ports@.len(),
        to.0 < old(arena).ports@.len(),
        from != to,
        old(arena).out_lists()[from.0 as int] == edges@.map_values(|e: LEdgeId| e.0) + rest,
    ensures
        final(arena).wf(),
        final(arena).out_lists() == old(arena).out_lists().update(from.0 as int, rest).update(
            to.0 as int,
            old(arena).out_lists()[to.0 as int] + edges@.map_values(|e: LEdgeId| e.0),
        ),
        final(arena).sources() == redirected(old(arena).sources(), edges@.map_values(|e: LEdgeId| e.0), to.0),
        final(arena).targets() == old(arena).targets(),
        final(arena).in_lists() == old(arena).in_lists(),
        final(arena).owners() == old(arena).owners(),
        final(arena).nodes == old(arena).nodes,
        final(arena).graphs == old(arena).graphs,
        final(arena).labels == old(arena).labels,
        final(arena).edges@.len() == old(arena).edges@.len(),
        final(arena).ports@.len() == old(arena).ports@.len(),
        forall|k: int| 0 <= k < old(arena).edges@.len() ==> #[trigger] final(arena).edges@[k].props == old(arena).edges@[k].props,
        forall|p: int| 0 <= p < old(arena).ports@.len() ==> #[trigger] final(arena).ports@[p].side == old(arena).ports@[p].side,
{
    let ghost a0 = *arena;
    let ghost s = edges@.map_values(|e: LEdgeId| e.0);
    let ghost lf = a0.out_lists()[from.0 as int];
    proof {
        assert(lf.no_duplicates());
        assert(s.subrange(0, s.len() as int) + rest =~= lf);
        assert(a0.out_lists()[to.0 as int] + s.subrange(0, 0) =~= a0.out_lists()[to.0 as int]);
        assert(arena.out_lists() =~= a0.out_lists().update(from.0 as int, s.subrange(0, s.len() as int) + rest).update(
            to.0 as int,
            a0.out_lists()[to.0 as int] + s.subrange(0, 0),
        ));
        assert(arena.sources() =~= redirected(a0.sources(), s.subrange(0, 0), to.0));
    }
    let mut j: usize = 0;
    while j < edges.len()
        invariant
            a0.wf(),
            from.0 < a0.ports@.len(),
            to.0 < a0.ports@.len(),
            from != to,
            s == edges@.map_values(|e: LEdgeId| e.0),
            lf == a0.out_lists()[from.0 as int],
            lf == s + rest,
            lf.no_duplicates(),
            j <= s.len(),
            arena.wf(),
            arena.out_lists() == a0.out_lists().update(from.0 as int, s.subrange(j as int, s.len() as int) + rest).update(
                to.0 as int,
                a0.out_lists()[to.0 as int] + s.subrange(0, j as int),
            ),
            arena.sources() == redirected(a0.sources(), s.subrange(0, j as int), to.0),
            arena.targets() == a0.targets(),
            arena.in_lists() == a0.in_lists(),
            arena.owners() == a0.owners(),
            arena.nodes == a0.nodes,
            arena.graphs == a0.graphs,
            arena.labels == a0.labels,
            arena.edges@.len() == a0.edges@.len(),
            arena.ports@.len() == a0.ports@.len(),
            forall|k: int| 0 <= k < a0.edges@.len() ==> #[trigger] arena.edges@[k].props == a0.edges@[k].props,
            forall|p: int| 0 <= p < a0.ports@.len() ==> #[trigger] arena.ports@[p].side == a0.ports@[p].side,
        decreases s.len() - j,
    {
        let edge = edges[j];
        let ghost e = edge.0;
        let ghost cur = s.subrange(j as int, s.len() as int) + rest;
        proof {
            assert(s[j as int] == e);
            assert(lf[j as int] == e);
            assert(lf.contains(e));
            crate::layout::elk::alg::p1_cycles::lemma_list_end(a0.sources(), a0.out_lists(), from.0, e);
            assert(!s.subrange(0, j as int).contains(e)) by {
                if s.subrange(0, j as int).contains(e) {
                    let k = choose|k: int| 0 <= k < j && s.subrange(0, j as int)[k] == e;
                    assert(s.subrange(0, j as int)[k] == s[k]);
                    assert(lf[k] == s[k]);
                    assert(lf[k] == lf[j as int]);
                }
            }
            assert(arena.sources()[e as int] == Some(from.0));
            assert(cur =~= lf.subrange(j as int, lf.len() as int));
            assert(cur.no_duplicates()) by {
                assert forall|x: int, y: int| 0 <= x < cur.len() && 0 <= y < cur.len() && x != y implies cur[x] != cur[y] by {
                    assert(cur[x] == lf[x + j] && cur[y] == lf[y + j]);
                    assert(lf[x + j] != lf[y + j]);
                }
            }
            assert(cur[0] == e);
            lemma_remove_value_at(cur, 0);
            assert(cur.remove(0) =~= s.subrange(j + 1, s.len() as int) + rest);
        }
        let ghost pre = *arena;
        arena.edge_set_source(edge, Some(to));
        proof {
            let s1 = s.subrange(0, j + 1);
            let lt = a0.out_lists()[to.0 as int];
            assert(pre.out_lists()[from.0 as int] == cur);
            assert(pre.out_lists()[to.0 as int] == lt + s.subrange(0, j as int));
            let base = pre.out_lists().update(from.0 as int, cur.remove_value(e));
            assert(arena.out_lists() == base.update(to.0 as int, base[to.0 as int].insert(base[to.0 as int].len() as int, e)));
            assert(base[to.0 as int].insert(base[to.0 as int].len() as int, e) =~= lt + s1);
            assert(arena.sources() == pre.sources().update(e as int, Some(to.0)));
            assert forall|x: int| 0 <= x < arena.sources().len() implies #[trigger] arena.sources()[x] == redirected(
                a0.sources(),
                s1,
                to.0,
            )[x] by {
                assert(x < a0.edges@.len());
                lemma_edge_index(&a0, x);
            }
            assert(s1 =~= s.subrange(0, j as int).push(e));
            assert forall|f: usize| #[trigger] s1.contains(f) <==> (s.subrange(0, j as int).contains(f) || f == e) by {
                crate::layout::elk::alg::p1_cycles::lemma_prefix_step(s, j as int, f);
            }
            assert(arena.sources() =~= redirected(a0.sources(), s1, to.0));
            assert(a0.out_lists()[to.0 as int] + s1 =~= (a0.out_lists()[to.0 as int] + s.subrange(0, j as int)).push(e));
            assert(arena.out_lists() =~= a0.out_lists().update(from.0 as int, s.subrange(j + 1, s.len() as int) + rest).update(
                to.0 as int,
                a0.out_lists()[to.0 as int] + s1,
            ));
        }
        j += 1;
    }
    proof {
        assert(s.subrange(0, s.len() as int) =~= s);
        assert(s.subrange(s.len() as int, s.len() as int) + rest =~= rest);
    }
}
/// An edge end on port `p` goes to port `q` and the other way round.
pub open spec fn swapped_end(end: Option<usize>, p: usize, q: usize) -> Option<usize> {
    if end == Some(p) {
        Some(q)
    } else if end == Some(q) {
        Some(p)
    } else {
        end
    }
}

/// Two nodes of graph `g` in different layers, each with a west and an
/// east port.
pub open spec fn swappable(a: &LGraphArena, g: usize, d1: usize, d2: usize) -> bool {
    &&& a.wf()
    &&& g < a.graphs@.len()
    &&& d1 < a.nodes@.len()
    &&& d2 < a.nodes@.len()
    &&& d1 != d2
    &&& a.graph_of()[d1 as int] == g
    &&& a.graph_of()[d2 as int] == g
    &&& a.layer_of()[d1 as int] is Some
    &&& a.layer_of()[d2 as int] is Some
    &&& a.layer_of()[d1 as int] != a.layer_of()[d2 as int]
    &&& first_on_side(a, a.port_lists()[d1 as int], PortSide::West) is Some
    &&& first_on_side(a, a.port_lists()[d1 as int], PortSide::East) is Some
    &&& first_on_side(a, a.port_lists()[d2 as int], PortSide::West) is Some
    &&& first_on_side(a, a.port_lists()[d2 as int], PortSide::East) is Some
}

/// The layers of a graph with `d1` (in layer `l1`) and `d2` (in layer
/// `l2`) trading places.
pub open spec fn traded_places(lists: Seq<Seq<usize>>, l1: int, l2: int, d1: usize, d2: usize) -> Seq<Seq<usize>> {
    lists.update(l1, lists[l1].update(lists[l1].index_of(d1), d2)).update(
        l2,
        lists[l2].update(lists[l2].index_of(d2), d1),
    )
}

/// `b` is `a` with nodes `d1` and `d2` of graph `g` swapped: each takes
/// the other's place in the layers, and the edges at the west port and
/// at the east port of one move, in their order, to the same port of the
/// other.
pub open spec fn nodes_swapped(a: &LGraphArena, b: &LGraphArena, g: usize, d1: usize, d2: usize) -> bool {
    let l1 = a.layer_of()[d1 as int]->0;
    let l2 = a.layer_of()[d2 as int]->0;
    let in1 = first_on_side(a, a.port_lists()[d1 as int], PortSide::West)->0;
    let out1 = first_on_side(a, a.port_lists()[d1 as int], PortSide::East)->0;
    let in2 = first_on_side(a, a.port_lists()[d2 as int], PortSide::West)->0;
    let out2 = first_on_side(a, a.port_lists()[d2 as int], PortSide::East)->0;
    &&& b.wf()
    &&& b.layer_of() == a.layer_of().update(d1 as int, Some(l2)).update(d2 as int, Some(l1))
    &&& b.layer_lists() == a.layer_lists().update(
        g as int,
        traded_places(a.layer_lists()[g as int], l1 as int, l2 as int, d1, d2),
    )
    &&& b.in_lists() == a.in_lists().update(in1 as int, a.in_lists()[in2 as int]).update(
        in2 as int,
        a.in_lists()[in1 as int],
    )
    &&& b.out_lists() == a.out_lists().update(out1 as int, a.out_lists()[out2 as int]).update(
        out2 as int,
        a.out_lists()[out1 as int],
    )
    &&& b.targets() == Seq::new(a.targets().len(), |e: int| swapped_end(a.targets()[e], in1, in2))
    &&& b.sources() == Seq::new(a.sources().len(), |e: int| swapped_end(a.sources()[e], out1, out2))
    &&& b.owners() == a.owners()
    &&& b.port_lists() == a.port_lists()
    &&& b.graph_of() == a.graph_of()
    &&& b.layerless_lists() == a.layerless_lists()
    &&& b.edges@.len() == a.edges@.len()
    &&& forall|k: int| 0 <= k < a.edges@.len() ==> #[trigger] b.edges@[k].props == a.edges@[k].props
    &&& b.nodes@.len() == a.nodes@.len()
    &&& forall|k: int|
        0 <= k < a.nodes@.len() ==> #[trigger] b.nodes@[k].node_type == a.nodes@[k].node_type && b.nodes@[k].props
            == a.nodes@[k].props
    &&& b.ports@.len() == a.ports@.len()
    &&& forall|p: int| 0 <= p < a.ports@.len() ==> #[trigger] b.ports@[p].side == a.ports@[p].side
}

/// The two nodes exchange their
/// places in the layers, and each takes over the edges of the other's
/// west and east port.
pub fn swap_nodes(arena: &mut LGraphArena, graph: LGraphId, dummy1: LNodeId, dummy2: LNodeId)
    requires
        swappable(&*old(arena), graph.0, dummy1.0, dummy2.0),
    ensures
        nodes_swapped(&*old(arena), &*final(arena), graph.0, dummy1.0, dummy2.0),
{
    let ghost a0 = *arena;
    let ghost g = graph.0;
    proof {
        lemma_layer_listed(&a0, g, dummy1.0);
        lemma_layer_listed(&a0, g, dummy2.0);
        lemma_first_on_side(&a0, a0.port_lists()[dummy1.0 as int], PortSide::West);
        lemma_first_on_side(&a0, a0.port_lists()[dummy1.0 as int], PortSide::East);
        lemma_first_on_side(&a0, a0.port_lists()[dummy2.0 as int], PortSide::West);
        lemma_first_on_side(&a0, a0.port_lists()[dummy2.0 as int], PortSide::East);
        crate::layout::elk::alg::p1_cycles::lemma_port_list(&a0, dummy1.0);
        crate::layout::elk::alg::p1_cycles::lemma_port_list(&a0, dummy2.0);
    }
    let layer1 = arena.nodes[dummy1.0].layer.unwrap();
    let layer2 = arena.nodes[dummy2.0].layer.unwrap();
    let ghost lists = a0.layer_lists()[g as int];
    let ghost list1 = lists[layer1 as int];
    let ghost list2 = lists[layer2 as int];
    proof {
        assert(arena.graphs@[g as int].layers@[layer1 as int].nodes@.map_values(|n: LNodeId| n.0) == list1);
        assert(arena.graphs@[g as int].layers@[layer2 as int].nodes@.map_values(|n: LNodeId| n.0) == list2);
        let k1 = list1.index_of(dummy1.0);
        assert(arena.graphs@[g as int].layers@[layer1 as int].nodes@[k1] == dummy1);
        let k2 = list2.index_of(dummy2.0);
        assert(arena.graphs@[g as int].layers@[layer2 as int].nodes@[k2] == dummy2);
    }
    let pos1 = position_of(&arena.graphs[graph.0].layers[layer1].nodes, dummy1);
    let pos2 = position_of(&arena.graphs[graph.0].layers[layer2].nodes, dummy2);
    proof {
        let ends = crate::layout::elk::alg::graph::layer_ends(a0.graph_of(), a0.layer_of(), g as int);
        assert(crate::layout::elk::alg::graph::in_sync(ends, lists));
        assert(list1.no_duplicates() && list2.no_duplicates());
        assert(list1[pos1 as int] == dummy1.0);
        assert(list2[pos2 as int] == dummy2.0);
        assert(list1[list1.index_of(dummy1.0)] == dummy1.0);
        assert(list2[list2.index_of(dummy2.0)] == dummy2.0);
        assert(pos1 as int == list1.index_of(dummy1.0));
        assert(pos2 as int == list2.index_of(dummy2.0));
        assert(!list2.contains(dummy1.0)) by {
            if list2.contains(dummy1.0) {
                let k = choose|k: int| 0 <= k < list2.len() && list2[k] == dummy1.0;
                assert(ends[list2[k] as int] == Some(layer2));
            }
        }
    }
    let input1 = find_port_on_side(arena, dummy1, PortSide::West).unwrap();
    let output1 = find_port_on_side(arena, dummy1, PortSide::East).unwrap();
    let input2 = find_port_on_side(arena, dummy2, PortSide::West).unwrap();
    let output2 = find_port_on_side(arena, dummy2, PortSide::East).unwrap();
    proof {
        assert(input1.0 < a0.ports@.len() && output1.0 < a0.ports@.len());
        assert(input2.0 < a0.ports@.len() && output2.0 < a0.ports@.len());
        assert(a0.owners()[input1.0 as int] == Some(dummy1.0));
        assert(a0.owners()[input2.0 as int] == Some(dummy2.0));
        assert(a0.owners()[output1.0 as int] == Some(dummy1.0));
        assert(a0.owners()[output2.0 as int] == Some(dummy2.0));
        assert(input1 != input2 && output1 != output2);
        assert(input1 != output1 && input2 != output2);
    }
    let incoming1 = copy_vec(&arena.ports[input1.0].incoming_edges);
    let outgoing1 = copy_vec(&arena.ports[output1.0].outgoing_edges);
    let incoming2 = copy_vec(&arena.ports[input2.0].incoming_edges);
    let outgoing2 = copy_vec(&arena.ports[output2.0].outgoing_edges);
    let ghost s_in1 = a0.in_lists()[input1.0 as int];
    let ghost s_out1 = a0.out_lists()[output1.0 as int];
    let ghost s_in2 = a0.in_lists()[input2.0 as int];
    let ghost s_out2 = a0.out_lists()[output2.0 as int];
    proof {
        assert(incoming1@.map_values(|e: LEdgeId| e.0) == s_in1);
        assert(outgoing1@.map_values(|e: LEdgeId| e.0) == s_out1);
        assert(incoming2@.map_values(|e: LEdgeId| e.0) == s_in2);
        assert(outgoing2@.map_values(|e: LEdgeId| e.0) == s_out2);
        assert(s_in2 + Seq::<usize>::empty() =~= s_in2);
        assert(s_out2 + Seq::<usize>::empty() =~= s_out2);
    }
    arena.node_set_layer_at_index(graph, dummy1, layer2, pos2);
    move_targets_to(arena, &incoming2, input2, input1, Ghost(Seq::empty()));
    move_sources_to(arena, &outgoing2, output2, output1, Ghost(Seq::empty()));
    let ghost a1 = *arena;
    proof {
        assert(a1.in_lists()[input1.0 as int] == s_in1 + s_in2);
        assert(a1.out_lists()[output1.0 as int] == s_out1 + s_out2);
        assert(a1.layer_of()[dummy2.0 as int] == Some(layer2));
        assert(a1.layer_lists()[g as int][layer1 as int] == list1.remove_value(dummy1.0));
        lemma_remove_value_at(list1, pos1 as int);
        assert(list1.remove_value(dummy1.0).len() == list1.len() - 1);
    }
    arena.node_set_layer_at_index(graph, dummy2, layer1, pos1);
    move_targets_to(arena, &incoming1, input1, input2, Ghost(s_in2));
    move_sources_to(arena, &outgoing1, output1, output2, Ghost(s_out2));
    proof {
        lemma_replace_in_list(list1, pos1 as int, dummy2.0);
        lemma_insert_then_remove(list2, pos2 as int, dummy1.0);
        assert(arena.layer_lists()[g as int] =~= traded_places(lists, layer1 as int, layer2 as int, dummy1.0, dummy2.0));
        assert(arena.layer_lists() =~= a0.layer_lists().update(
            g as int,
            traded_places(lists, layer1 as int, layer2 as int, dummy1.0, dummy2.0),
        ));
        assert(Seq::<usize>::empty() + s_in1 =~= s_in1);
        assert(Seq::<usize>::empty() + s_out1 =~= s_out1);
        assert(arena.in_lists() =~= a0.in_lists().update(input1.0 as int, s_in2).update(input2.0 as int, s_in1));
        assert(arena.out_lists() =~= a0.out_lists().update(output1.0 as int, s_out2).update(output2.0 as int, s_out1));
        assert forall|e: int| 0 <= e < a0.targets().len() implies #[trigger] arena.targets()[e] == swapped_end(
            a0.targets()[e],
            input1.0,
            input2.0,
        ) by {
            lemma_edge_index(&a0, e);
            if a0.targets()[e] == Some(input1.0) {
                assert(s_in1.contains(e as usize));
            }
            if a0.targets()[e] == Some(input2.0) {
                assert(s_in2.contains(e as usize));
            }
            if s_in1.contains(e as usize) {
                crate::layout::elk::alg::p1_cycles::lemma_list_end(a0.targets(), a0.in_lists(), input1.0, e as usize);
            }
            if s_in2.contains(e as usize) {
                crate::layout::elk::alg::p1_cycles::lemma_list_end(a0.targets(), a0.in_lists(), input2.0, e as usize);
            }
        }
        assert forall|e: int| 0 <= e < a0.sources().len() implies #[trigger] arena.sources()[e] == swapped_end(
            a0.sources()[e],
            output1.0,
            output2.0,
        ) by {
            lemma_edge_index(&a0, e);
            if a0.sources()[e] == Some(output1.0) {
                assert(s_out1.contains(e as usize));
            }
            if a0.sources()[e] == Some(output2.0) {
                assert(s_out2.contains(e as usize));
            }
            if s_out1.contains(e as usize) {
                crate::layout::elk::alg::p1_cycles::lemma_list_end(a0.sources(), a0.out_lists(), output1.0, e as usize);
            }
            if s_out2.contains(e as usize) {
                crate::layout::elk::alg::p1_cycles::lemma_list_end(a0.sources(), a0.out_lists(), output2.0, e as usize);
            }
        }
        assert(arena.targets() =~= Seq::new(a0.targets().len(), |e: int| swapped_end(a0.targets()[e], input1.0, input2.0)));
        assert(arena.sources() =~= Seq::new(a0.sources().len(), |e: int| swapped_end(a0.sources()[e], output1.0, output2.0)));
    }
}

// ---------------------------------------------------------------------
// Side ranges of a port list.

/// The ordinal of a side: undefined, north, east, south, west.
pub open spec fn side_number(s: PortSide) -> int {
    match s {
        PortSide::Undefined => 0,
        PortSide::North => 1,
        PortSide::East => 2,
        PortSide::South => 3,
        PortSide::West => 4,
    }
}

/// A side in the rightward frame: north counts as west, south as east.
pub open spec fn rightward_side(s: PortSide) -> PortSide {
    match s {
        PortSide::North => PortSide::West,
        PortSide::South => PortSide::East,
        _ => s,
    }
}

/// The rightward side ordinal of each of `ports`.
pub open spec fn side_ranks(a: &LGraphArena, ports: Seq<LPortId>) -> Seq<int> {
    Seq::new(ports.len(), |k: int| side_number(rightward_side(a.ports@[ports[k].0 as int].side)))
}

/// The first index from `i` on, below the last, whose rank reaches `lb`;
/// the last index if there is none.
pub open spec fn first_reaching(ranks: Seq<int>, lb: int, i: int) -> int
    decreases ranks.len() - i,
{
    if i >= ranks.len() - 1 {
        ranks.len() - 1
    } else if ranks[i] >= lb {
        i
    } else {
        first_reaching(ranks, lb, i + 1)
    }
}

/// The range `findPortSideRange` gives for `side`: its low end is the
/// first port whose rank reaches the side's ordinal (the last port if
/// none does); its high end is the last port when the rank at the low
/// end stays below the next ordinal, else the low end itself.
pub open spec fn side_range(a: &LGraphArena, ports: Seq<LPortId>, side: PortSide) -> (int, int) {
    if ports.len() == 0 {
        (0, 0)
    } else {
        let ranks = side_ranks(a, ports);
        let low = first_reaching(ranks, side_number(side), 0);
        (low, if ranks[low] < side_number(side) + 1 { ports.len() - 1 } else { low })
    }
}

/// `ports` with `[low, high)` reversed when it spans more than two ports.
pub open spec fn reversed_if_long(ports: Seq<LPortId>, low: int, high: int) -> Seq<LPortId> {
    if high <= low + 2 {
        ports
    } else {
        reversed_range(ports, low, high)
    }
}

/// `first_reaching` is an index of the sequence, at or after `i`.
pub proof fn lemma_first_reaching(ranks: Seq<int>, lb: int, i: int)
    requires
        0 <= i,
        ranks.len() > 0,
    ensures
        0 <= first_reaching(ranks, lb, i) < ranks.len(),
        i < ranks.len() ==> i <= first_reaching(ranks, lb, i),
    decreases ranks.len() - i,
{
    if i < ranks.len() - 1 && ranks[i] < lb {
        lemma_first_reaching(ranks, lb, i + 1);
    }
}

/// The side of a port in the rightward frame.
fn normalized_side(a: &LGraphArena, port: LPortId) -> (r: PortSide)
    requires
        port.0 < a.ports@.len(),
    ensures
        r == rightward_side(a.ports@[port.0 as int].side),
{
    match a.ports[port.0].side {
        PortSide::North => PortSide::West,
        PortSide::South => PortSide::East,
        s => s,
    }
}

/// The ordinal of a side.
fn side_ordinal_of(side: PortSide) -> (r: i32)
    ensures
        r == side_number(side),
{
    match side {
        PortSide::Undefined => 0,
        PortSide::North => 1,
        PortSide::East => 2,
        PortSide::South => 3,
        PortSide::West => 4,
    }
}

/// The ordinal of a port's side in the rightward frame.
fn side_ordinal(a: &LGraphArena, port: LPortId) -> (r: i32)
    requires
        port.0 < a.ports@.len(),
    ensures
        r == side_number(rightward_side(a.ports@[port.0 as int].side)),
{
    side_ordinal_of(normalized_side(a, port))
}

/// The range of the ports on `side` in a list sorted by side; the
/// second loop keeps reading the port at the low end.
pub fn find_port_side_range(a: &LGraphArena, ports: &Vec<LPortId>, side: PortSide) -> (r: (usize, usize))
    requires
        forall|k: int| 0 <= k < ports@.len() ==> #[trigger] ports@[k].0 < a.ports@.len(),
    ensures
        r.0 as int == side_range(a, ports@, side).0,
        r.1 as int == side_range(a, ports@, side).1,
{
    if ports.len() == 0 {
        return (0, 0);
    }
    let ghost ranks = side_ranks(a, ports@);
    let lb = side_ordinal_of(side);
    let hb = lb + 1;
    let mut current_side = side_ordinal(a, ports[0]);
    let mut low_idx: usize = 0;
    while low_idx < ports.len() - 1 && current_side < lb
        invariant
            ports@.len() > 0,
            forall|k: int| 0 <= k < ports@.len() ==> #[trigger] ports@[k].0 < a.ports@.len(),
            ranks == side_ranks(a, ports@),
            lb == side_number(side),
            low_idx < ports@.len(),
            current_side == ranks[low_idx as int],
            first_reaching(ranks, lb as int, 0) == first_reaching(ranks, lb as int, low_idx as int),
        decreases ports@.len() - low_idx,
    {
        low_idx += 1;
        current_side = side_ordinal(a, ports[low_idx]);
    }
    proof {
        assert(first_reaching(ranks, lb as int, low_idx as int) == low_idx);
    }
    let mut high_idx = low_idx;
    while high_idx < ports.len() - 1 && current_side < hb
        invariant
            ports@.len() > 0,
            forall|k: int| 0 <= k < ports@.len() ==> #[trigger] ports@[k].0 < a.ports@.len(),
            low_idx <= high_idx < ports@.len(),
            current_side == ranks[low_idx as int],
            ranks == side_ranks(a, ports@),
            current_side >= hb ==> high_idx == low_idx,
        decreases ports@.len() - high_idx,
    {
        high_idx += 1;
        current_side = side_ordinal(a, ports[low_idx]);
    }
    (low_idx, high_idx)
}

/// Reverses the south
/// range, then the west range of the result, each only where it spans
/// more than two ports.
pub fn reverse_west_and_south_side(a: &LGraphArena, ports: &mut Vec<LPortId>)
    requires
        old(ports)@.len() + 2 <= usize::MAX,
        forall|k: int| 0 <= k < old(ports)@.len() ==> #[trigger] old(ports)@[k].0 < a.ports@.len(),
    ensures
        old(ports)@.len() <= 1 ==> final(ports)@ == old(ports)@,
        old(ports)@.len() > 1 ==> {
            let south = side_range(a, old(ports)@, PortSide::South);
            let once = reversed_if_long(old(ports)@, south.0, south.1);
            let west = side_range(a, once, PortSide::West);
            final(ports)@ == reversed_if_long(once, west.0, west.1)
        },
{
    if ports.len() <= 1 {
        return;
    }
    let (s_lo, s_hi) = find_port_side_range(a, ports, PortSide::South);
    proof {
        lemma_first_reaching(side_ranks(a, ports@), side_number(PortSide::South), 0);
    }
    reverse_range(ports, s_lo, s_hi);
    proof {
        assert forall|k: int| 0 <= k < ports@.len() implies #[trigger] ports@[k].0 < a.ports@.len() by {
            if s_hi > s_lo + 2 {
                let lo = s_lo as int;
                let hi = s_hi as int;
                if lo <= k < hi {
                    assert(ports@[k] == old(ports)@[lo + hi - 1 - k]);
                }
            }
        }
    }
    let (w_lo, w_hi) = find_port_side_range(a, ports, PortSide::West);
    proof {
        lemma_first_reaching(side_ranks(a, ports@), side_number(PortSide::West), 0);
    }
    reverse_range(ports, w_lo, w_hi);
}


/// A node with the port constraints `c` has the sides of its ports fixed.
pub open spec fn side_fixed(c: PortConstraints) -> bool {
    !(c is Undefined || c is Free)
}

/// Node `x` lies in a layer of graph `g`.
pub open spec fn placed(a: &LGraphArena, g: int, x: int) -> bool {
    a.graph_of()[x] == g && a.layer_of()[x] is Some
}

/// The side the flow of port `p` puts it on: that of the parent node's
/// port its dummy stands for, else east when more edges leave it than
/// arrive, else west.
pub open spec fn flow_side(a: &LGraphArena, p: int) -> PortSide {
    match a.ports@[p].port_dummy {
        Some(d) => a.nodes@[d.0 as int].props.ext_port_side,
        None => if a.in_lists()[p].len() < a.out_lists()[p].len() {
            PortSide::East
        } else {
            PortSide::West
        },
    }
}

/// Port `p` of a node with the port constraints `c` once its side is
/// settled: a defined side stays where sides are fixed, any other side
/// becomes the flow side.
pub open spec fn settled_port(a: &LGraphArena, c: PortConstraints, p: int) -> LPort {
    if side_fixed(c) && a.ports@[p].side != PortSide::Undefined {
        a.ports@[p]
    } else {
        LPort { side: flow_side(a, p), ..a.ports@[p] }
    }
}

/// Node `n` once the sides of its ports are settled: they are fixed.
pub open spec fn settled_node(n: LNode) -> LNode {
    if side_fixed(n.props.port_constraints) {
        n
    } else {
        LNode { props: NodeProps { port_constraints: PortConstraints::FixedSide, ..n.props }, ..n }
    }
}

/// The sides of the ports of node `x` can be settled: each port's dummy
/// is a node, and its edge counts fit in an `i32`.
pub open spec fn sides_settleable(a: &LGraphArena, x: int) -> bool {
    forall|k: int|
        0 <= k < a.port_lists()[x].len() ==> {
            let p = #[trigger] a.port_lists()[x][k];
            &&& (a.ports@[p as int].port_dummy matches Some(d) ==> d.0 < a.nodes@.len())
            &&& a.in_lists()[p as int].len() <= i32::MAX
            &&& a.out_lists()[p as int].len() <= i32::MAX
        }
}

/// Puts `port` on the side its flow asks for.
fn set_port_side(arena: &mut LGraphArena, port: LPortId)
    requires
        old(arena).wf(),
        port.0 < old(arena).ports@.len(),
        old(arena).ports@[port.0 as int].port_dummy matches Some(d) ==> d.0 < old(arena).nodes@.len(),
        old(arena).in_lists()[port.0 as int].len() <= i32::MAX,
        old(arena).out_lists()[port.0 as int].len() <= i32::MAX,
    ensures
        final(arena).wf(),
        final(arena).ports@ == old(arena).ports@.update(
            port.0 as int,
            LPort { side: flow_side(old(arena), port.0 as int), ..old(arena).ports@[port.0 as int] },
        ),
        final(arena).nodes == old(arena).nodes,
        final(arena).edges == old(arena).edges,
        final(arena).graphs == old(arena).graphs,
        final(arena).labels == old(arena).labels,
{
    let ghost a0 = *arena;
    let side = match arena.ports[port.0].port_dummy {
        Some(d) => arena.nodes[d.0].props.ext_port_side,
        None => {
            let net_flow = arena.ports[port.0].incoming_edges.len() as i32 - arena.ports[port.0].outgoing_edges.len() as i32;
            if net_flow < 0 {
                PortSide::East
            } else {
                PortSide::West
            }
        },
    };
    arena.port_set_side(port, side);
    proof {
        assert(arena.ports@ =~= a0.ports@.update(
            port.0 as int,
            LPort { side: flow_side(&a0, port.0 as int), ..a0.ports@[port.0 as int] },
        ));
    }
}

/// Settles the sides of the ports of `node`: where the node fixes its
/// port sides only ports without a side get one, else every port gets
/// the side of its flow and the sides become fixed.
fn process_node_port_sides(arena: &mut LGraphArena, node: LNodeId)
    requires
        old(arena).wf(),
        node.0 < old(arena).nodes@.len(),
        sides_settleable(old(arena), node.0 as int),
    ensures
        final(arena).wf(),
        final(arena).nodes@ == old(arena).nodes@.update(node.0 as int, settled_node(old(arena).nodes@[node.0 as int])),
        final(arena).ports@.len() == old(arena).ports@.len(),
        forall|p: int|
            0 <= p < old(arena).ports@.len() ==> #[trigger] final(arena).ports@[p] == if old(arena).owners()[p] == Some(
                node.0,
            ) {
                settled_port(old(arena), old(arena).nodes@[node.0 as int].props.port_constraints, p)
            } else {
                old(arena).ports@[p]
            },
        final(arena).in_lists() == old(arena).in_lists(),
        final(arena).out_lists() == old(arena).out_lists(),
        final(arena).owners() == old(arena).owners(),
        final(arena).edges == old(arena).edges,
        final(arena).graphs == old(arena).graphs,
        final(arena).labels == old(arena).labels,
{
    let ghost a0 = *arena;
    let ghost x = node.0 as int;
    let ghost c0 = a0.nodes@[x].props.port_constraints;
    let ghost pl = a0.port_lists()[x];
    let n_ports = arena.ports.len();
    let ports = copy_vec(&arena.nodes[node.0].ports);
    let fixed = arena.nodes[node.0].props.port_constraints.is_side_fixed();
    proof {
        assert(ports@.map_values(|q: LPortId| q.0) == pl);
        lemma_port_list(&a0, node.0);
    }
    let mut k: usize = 0;
    while k < ports.len()
        invariant
            a0.wf(),
            arena.wf(),
            x < a0.nodes@.len(),
            sides_settleable(&a0, x),
            ports@.map_values(|q: LPortId| q.0) == pl,
            pl == a0.port_lists()[x],
            pl.no_duplicates(),
            forall|i: int| 0 <= i < pl.len() ==> #[trigger] pl[i] < a0.ports@.len() && a0.owners()[pl[i] as int] == Some(node.0),
            n_ports == a0.ports@.len(),
            fixed == side_fixed(c0),
            c0 == a0.nodes@[x].props.port_constraints,
            k <= ports@.len(),
            arena.nodes == a0.nodes,
            arena.edges == a0.edges,
            arena.graphs == a0.graphs,
            arena.labels == a0.labels,
            arena.ports@.len() == a0.ports@.len(),
            arena.in_lists() == a0.in_lists(),
            arena.out_lists() == a0.out_lists(),
            arena.owners() == a0.owners(),
            forall|p: int|
                0 <= p < a0.ports@.len() ==> #[trigger] arena.ports@[p] == if pl.take(k as int).contains(p as usize) {
                    settled_port(&a0, c0, p)
                } else {
                    a0.ports@[p]
                },
        decreases ports@.len() - k,
    {
        let port = ports[k];
        let ghost p = port.0 as int;
        let ghost before = *arena;
        proof {
            assert(pl[k as int] == port.0);
            assert(pl[k as int] < a0.ports@.len());
            assert(!pl.take(k as int).contains(port.0)) by {
                if pl.take(k as int).contains(port.0) {
                    let q = choose|q: int| 0 <= q < k && pl.take(k as int)[q] == port.0;
                    assert(pl[q] == pl[k as int]);
                }
            }
            assert(arena.ports@[p] == a0.ports@[p]);
            assert(flow_side(&before, p) == flow_side(&a0, p));
        }
        if fixed {
            if arena.ports[port.0].side == PortSide::Undefined {
                set_port_side(arena, port);
            }
        } else {
            set_port_side(arena, port);
        }
        k += 1;
        proof {
            assert(pl.take(k as int) =~= pl.take(k - 1).push(port.0));
            assert(arena.in_lists() =~= a0.in_lists());
            assert(arena.out_lists() =~= a0.out_lists());
            assert(arena.owners() =~= a0.owners());
            assert forall|q: int| 0 <= q < a0.ports@.len() implies #[trigger] arena.ports@[q] == if pl.take(k as int).contains(q as usize) {
                settled_port(&a0, c0, q)
            } else {
                a0.ports@[q]
            } by {
                assert(before.ports@[q] == if pl.take(k - 1).contains(q as usize) {
                    settled_port(&a0, c0, q)
                } else {
                    a0.ports@[q]
                });
                if q == p {
                    assert(pl.take(k as int)[k - 1] == port.0);
                } else {
                    assert(arena.ports@[q] == before.ports@[q]);
                    let cur = pl.take(k as int);
                    let pre = pl.take(k - 1);
                    assert(cur.contains(q as usize) == pre.contains(q as usize)) by {
                        if cur.contains(q as usize) {
                            let t = choose|t: int| 0 <= t < cur.len() && cur[t] == q as usize;
                            assert(pre[t] == q as usize);
                        }
                        if pre.contains(q as usize) {
                            let t = choose|t: int| 0 <= t < pre.len() && pre[t] == q as usize;
                            assert(cur[t] == q as usize);
                        }
                    }
                }
            }
        }
    }
    if !fixed {
        arena.nodes[node.0].props.port_constraints = PortConstraints::FixedSide;
    }
    proof {
        assert(pl.take(ports@.len() as int) =~= pl);
        assert(arena.nodes@ =~= a0.nodes@.update(x, settled_node(a0.nodes@[x])));
        assert(arena.port_lists() =~= a0.port_lists());
        assert(arena.graph_of() =~= a0.graph_of());
        assert(arena.layer_of() =~= a0.layer_of());
        assert(arena.in_lists() =~= a0.in_lists());
        assert(arena.out_lists() =~= a0.out_lists());
        assert(arena.owners() =~= a0.owners());
        assert forall|p: int| 0 <= p < a0.ports@.len() implies pl.contains(p as usize) == (a0.owners()[p] == Some(node.0)) by {
            if pl.contains(p as usize) {
                let t = choose|t: int| 0 <= t < pl.len() && pl[t] == p as usize;
                assert(pl[t] < a0.ports@.len());
            }
            if a0.owners()[p] == Some(node.0) {
                assert(a0.owners()[p] is Some);
                assert(a0.port_lists()[x].contains(p as usize));
            }
        }
    }
}


/// Node `x` of graph `g` is handled once the nodes of the layers before
/// `li` and the first `j` nodes of layer `li` are.
pub open spec fn handled_upto(a: &LGraphArena, g: int, li: int, j: int, x: int) -> bool {
    &&& placed(a, g, x)
    &&& (a.layer_of()[x]->0 < li || (a.layer_of()[x]->0 == li && a.layer_lists()[g][li].take(j).contains(x as usize)))
}

/// `b` is `a` with the sides of the ports of every node in the layers of
/// graph `g` settled: those nodes settled, their ports settled according
/// to the nodes' port constraints in `a`, all else as it was.
pub open spec fn sides_settled(a: &LGraphArena, b: &LGraphArena, g: int) -> bool {
    &&& b.nodes@.len() == a.nodes@.len()
    &&& forall|x: int|
        0 <= x < a.nodes@.len() ==> #[trigger] b.nodes@[x] == if placed(a, g, x) {
            settled_node(a.nodes@[x])
        } else {
            a.nodes@[x]
        }
    &&& b.ports@.len() == a.ports@.len()
    &&& forall|p: int|
        0 <= p < a.ports@.len() ==> #[trigger] b.ports@[p] == match a.owners()[p] {
            Some(x) => if placed(a, g, x as int) {
                settled_port(a, a.nodes@[x as int].props.port_constraints, p)
            } else {
                a.ports@[p]
            },
            None => a.ports@[p],
        }
    &&& b.edges == a.edges
    &&& b.graphs == a.graphs
    &&& b.labels == a.labels
}

/// Settling the port sides of a graph a second time changes nothing: the
/// nodes have fixed sides and each port keeps the side it got.
pub proof fn lemma_port_sides_settle_once(a: &LGraphArena, b: &LGraphArena, c: &LGraphArena, g: int)
    requires
        a.wf(),
        b.wf(),
        sides_settled(a, b, g),
        sides_settled(b, c, g),
        forall|x: int| 0 <= x < a.nodes@.len() && #[trigger] placed(a, g, x) ==> sides_settleable(a, x),
        a.ports@.len() <= usize::MAX,
    ensures
        c.nodes@ == b.nodes@,
        c.ports@ == b.ports@,
{
    assert(b.graph_of() =~= a.graph_of());
    assert(b.layer_of() =~= a.layer_of());
    assert(b.owners() =~= a.owners());
    assert(b.in_lists() =~= a.in_lists());
    assert(b.out_lists() =~= a.out_lists());
    assert forall|x: int| 0 <= x < b.nodes@.len() implies #[trigger] c.nodes@[x] == b.nodes@[x] by {
        assert(placed(b, g, x) == placed(a, g, x));
    }
    assert forall|p: int| 0 <= p < b.ports@.len() implies #[trigger] c.ports@[p] == b.ports@[p] by {
        if let Some(x) = a.owners()[p] {
            assert(x < a.nodes@.len());
            assert(placed(b, g, x as int) == placed(a, g, x as int));
            if placed(a, g, x as int) {
                assert(side_fixed(b.nodes@[x as int].props.port_constraints));
                let fa = flow_side(a, p);
                assert(flow_side(b, p) == fa) by {
                    if let Some(d) = a.ports@[p].port_dummy {
                        assert(sides_settleable(a, x as int));
                        crate::layout::elk::alg::p1_cycles::lemma_port_list(a, x);
                        assert(a.port_lists()[x as int].contains(p as usize));
                        let k = choose|k: int| 0 <= k < a.port_lists()[x as int].len() && a.port_lists()[x as int][k] == p as usize;
                        assert(a.port_lists()[x as int][k] == p as usize);
                        assert(d.0 < a.nodes@.len());
                        assert(b.nodes@[d.0 as int].props.ext_port_side == a.nodes@[d.0 as int].props.ext_port_side);
                    }
                }
            }
        }
    }
    assert(c.nodes@ =~= b.nodes@);
    assert(c.ports@ =~= b.ports@);
}

/// Settles the sides of the ports of every node in the layers of
/// `graph`, layer by layer and in layer order: a node that fixes its port
/// sides gives a side only to its ports that have none, any other node
/// gives each port the side of its flow and then fixes its sides.
pub fn port_side_processor(arena: &mut LGraphArena, graph: LGraphId)
    requires
        old(arena).wf(),
        graph.0 < old(arena).graphs@.len(),
        forall|x: int|
            0 <= x < old(arena).nodes@.len() && #[trigger] placed(old(arena), graph.0 as int, x) ==> sides_settleable(
                old(arena),
                x,
            ),
    ensures
        final(arena).wf(),
        sides_settled(old(arena), final(arena), graph.0 as int),
{
    let ghost a0 = *arena;
    let ghost g = graph.0 as int;
    let ghost ll = a0.layer_lists()[g];
    let layer_count = arena.graphs[graph.0].layers.len();
    let n_nodes = arena.nodes.len();
    let n_ports = arena.ports.len();
    proof {
        assert(in_sync(layer_ends(a0.graph_of(), a0.layer_of(), g), ll));
    }
    let mut li: usize = 0;
    while li < layer_count
        invariant
            a0.wf(),
            arena.wf(),
            0 <= g < a0.graphs@.len(),
            g == graph.0,
            ll == a0.layer_lists()[g],
            in_sync(layer_ends(a0.graph_of(), a0.layer_of(), g), ll),
            layer_count == ll.len(),
            n_nodes == a0.nodes@.len(),
            n_ports == a0.ports@.len(),
            li <= layer_count,
            forall|x: int| 0 <= x < a0.nodes@.len() && #[trigger] placed(&a0, g, x) ==> sides_settleable(&a0, x),
            arena.edges == a0.edges,
            arena.graphs == a0.graphs,
            arena.labels == a0.labels,
            arena.nodes@.len() == a0.nodes@.len(),
            arena.ports@.len() == a0.ports@.len(),
            arena.in_lists() == a0.in_lists(),
            arena.out_lists() == a0.out_lists(),
            arena.owners() == a0.owners(),
            arena.port_lists() == a0.port_lists(),
            forall|x: int|
                0 <= x < a0.nodes@.len() ==> #[trigger] arena.nodes@[x] == if handled_upto(&a0, g, li as int, 0, x) {
                    settled_node(a0.nodes@[x])
                } else {
                    a0.nodes@[x]
                },
            forall|p: int|
                0 <= p < a0.ports@.len() ==> #[trigger] arena.ports@[p] == match a0.owners()[p] {
                    Some(x) => if handled_upto(&a0, g, li as int, 0, x as int) {
                        settled_port(&a0, a0.nodes@[x as int].props.port_constraints, p)
                    } else {
                        a0.ports@[p]
                    },
                    None => a0.ports@[p],
                },
        decreases layer_count - li,
    {
        let nodes = copy_vec(&arena.graphs[graph.0].layers[li].nodes);
        let ghost lay = ll[li as int];
        proof {
            assert(nodes@.map_values(|n: LNodeId| n.0) == lay);
            assert(lay.no_duplicates());
        }
        let mut j: usize = 0;
        while j < nodes.len()
            invariant
                a0.wf(),
                arena.wf(),
                0 <= g < a0.graphs@.len(),
                g == graph.0,
                ll == a0.layer_lists()[g],
                in_sync(layer_ends(a0.graph_of(), a0.layer_of(), g), ll),
                layer_count == ll.len(),
                li < layer_count,
                lay == ll[li as int],
                lay.no_duplicates(),
                n_nodes == a0.nodes@.len(),
                n_ports == a0.ports@.len(),
                nodes@.map_values(|n: LNodeId| n.0) == lay,
                j <= nodes@.len(),
                forall|x: int| 0 <= x < a0.nodes@.len() && #[trigger] placed(&a0, g, x) ==> sides_settleable(&a0, x),
                arena.edges == a0.edges,
                arena.graphs == a0.graphs,
                arena.labels == a0.labels,
                arena.nodes@.len() == a0.nodes@.len(),
                arena.ports@.len() == a0.ports@.len(),
                arena.in_lists() == a0.in_lists(),
                arena.out_lists() == a0.out_lists(),
                arena.owners() == a0.owners(),
                arena.port_lists() == a0.port_lists(),
                forall|x: int|
                    0 <= x < a0.nodes@.len() ==> #[trigger] arena.nodes@[x] == if handled_upto(&a0, g, li as int, j as int, x) {
                        settled_node(a0.nodes@[x])
                    } else {
                        a0.nodes@[x]
                    },
                forall|p: int|
                    0 <= p < a0.ports@.len() ==> #[trigger] arena.ports@[p] == match a0.owners()[p] {
                        Some(x) => if handled_upto(&a0, g, li as int, j as int, x as int) {
                            settled_port(&a0, a0.nodes@[x as int].props.port_constraints, p)
                        } else {
                            a0.ports@[p]
                        },
                        None => a0.ports@[p],
                    },
            decreases nodes@.len() - j,
        {
            let node = nodes[j];
            let ghost x = node.0 as int;
            let ghost cur = *arena;
            proof {
                assert(lay[j as int] == node.0);
                assert(node.0 < a0.nodes@.len());
                assert(layer_ends(a0.graph_of(), a0.layer_of(), g)[x] == Some(li));
                assert(placed(&a0, g, x));
                assert(!lay.take(j as int).contains(node.0)) by {
                    if lay.take(j as int).contains(node.0) {
                        let q = choose|q: int| 0 <= q < j && lay.take(j as int)[q] == node.0;
                        assert(lay[q] == lay[j as int]);
                    }
                }
                assert(!handled_upto(&a0, g, li as int, j as int, x));
                assert(arena.nodes@[x] == a0.nodes@[x]);
                assert(sides_settleable(&a0, x));
                assert forall|k: int| 0 <= k < cur.port_lists()[x].len() implies {
                    let p = #[trigger] cur.port_lists()[x][k];
                    &&& (cur.ports@[p as int].port_dummy matches Some(d) ==> d.0 < cur.nodes@.len())
                    &&& cur.in_lists()[p as int].len() <= i32::MAX
                    &&& cur.out_lists()[p as int].len() <= i32::MAX
                } by {
                    let p = a0.port_lists()[x][k];
                    assert(p < a0.ports@.len() && a0.owners()[p as int] == Some(node.0));
                    assert(cur.ports@[p as int] == a0.ports@[p as int]);
                }
            }
            process_node_port_sides(arena, node);
            j += 1;
            proof {
                let take_now = lay.take(j as int);
                let take_before = lay.take(j - 1);
                assert(take_now =~= take_before.push(node.0));
                assert forall|y: int| 0 <= y < a0.nodes@.len() implies #[trigger] handled_upto(&a0, g, li as int, j as int, y) == (
                handled_upto(&a0, g, li as int, j - 1, y) || y == x) by {
                    if y == x {
                        assert(take_now[j - 1] == node.0);
                    } else {
                        if take_now.contains(y as usize) {
                            let t = choose|t: int| 0 <= t < take_now.len() && take_now[t] == y as usize;
                            assert(take_before[t] == y as usize);
                        }
                        if take_before.contains(y as usize) {
                            let t = choose|t: int| 0 <= t < take_before.len() && take_before[t] == y as usize;
                            assert(take_now[t] == y as usize);
                        }
                    }
                }
                assert(arena.port_lists() =~= a0.port_lists());
                assert forall|y: int| 0 <= y < a0.nodes@.len() implies #[trigger] arena.nodes@[y] == if handled_upto(&a0, g, li as int, j as int, y) {
                    settled_node(a0.nodes@[y])
                } else {
                    a0.nodes@[y]
                } by {
                    assert(handled_upto(&a0, g, li as int, j as int, y) == (handled_upto(&a0, g, li as int, j - 1, y) || y == x));
                    if y != x {
                        assert(arena.nodes@[y] == cur.nodes@[y]);
                    }
                }
                assert forall|p: int| 0 <= p < a0.ports@.len() implies #[trigger] arena.ports@[p] == match a0.owners()[p] {
                    Some(z) => if handled_upto(&a0, g, li as int, j as int, z as int) {
                        settled_port(&a0, a0.nodes@[z as int].props.port_constraints, p)
                    } else {
                        a0.ports@[p]
                    },
                    None => a0.ports@[p],
                } by {
                    if a0.owners()[p] == Some(node.0) {
                        assert(handled_upto(&a0, g, li as int, j as int, x));
                        assert(!handled_upto(&a0, g, li as int, j - 1, x));
                        assert(cur.ports@[p] == a0.ports@[p]);
                        assert(cur.nodes@[x] == a0.nodes@[x]);
                        match a0.ports@[p].port_dummy {
                            Some(d) => {
                                assert(placed(&a0, g, x));
                                assert(sides_settleable(&a0, x));
                                assert(a0.port_lists()[x].contains(p as usize));
                                let t = choose|t: int| 0 <= t < a0.port_lists()[x].len() && a0.port_lists()[x][t] == p as usize;
                                assert(a0.port_lists()[x][t] == p as usize);
                                assert(d.0 < a0.nodes@.len());
                                assert(cur.nodes@[d.0 as int].props.ext_port_side == a0.nodes@[d.0 as int].props.ext_port_side);
                            },
                            None => {},
                        }
                        assert(flow_side(&cur, p) == flow_side(&a0, p));
                    } else {
                        assert(arena.ports@[p] == cur.ports@[p]);
                        match a0.owners()[p] {
                            Some(z) => {
                                assert(handled_upto(&a0, g, li as int, j as int, z as int) == handled_upto(&a0, g, li as int, j - 1, z as int));
                            },
                            None => {},
                        }
                    }
                }
            }
        }
        li += 1;
        proof {
            assert(lay.take(nodes@.len() as int) =~= lay);
            assert forall|y: int| 0 <= y < a0.nodes@.len() implies #[trigger] handled_upto(&a0, g, li as int, 0, y) == handled_upto(
                &a0,
                g,
                li - 1,
                nodes@.len() as int,
                y,
            ) by {
                assert(lay.take(0) =~= Seq::<usize>::empty());
                if placed(&a0, g, y) && a0.layer_of()[y]->0 == li - 1 {
                    assert(layer_ends(a0.graph_of(), a0.layer_of(), g)[y] == Some((li - 1) as usize));
                    assert(lay.contains(y as usize));
                }
            }
        }
    }
    proof {
        assert forall|y: int| 0 <= y < a0.nodes@.len() implies #[trigger] handled_upto(&a0, g, li as int, 0, y) == placed(&a0, g, y) by {
            if placed(&a0, g, y) {
                assert(layer_ends(a0.graph_of(), a0.layer_of(), g)[y] is Some);
            }
        }
        assert forall|p: int| 0 <= p < a0.ports@.len() implies (#[trigger] a0.owners()[p] matches Some(z) ==> z < a0.nodes@.len()) by {
            if a0.owners()[p] is Some {
            }
        }
    }
}

} // verus!
