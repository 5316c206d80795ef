//! The connected components that the network simplex layering lays out
//! one after the other.

use vstd::prelude::*;
use std::collections::VecDeque;
use crate::layout::elk::alg::graph::{LGraphArena, LNodeId, LPortId, LEdgeId};
use crate::layout::elk::alg::p1_cycles::{source_node, target_node, lemma_list_end, lemma_port_list};

verus! {

/// Edge `e` runs between nodes `x` and `y`, in either direction.
pub open spec fn joins(a: &LGraphArena, e: usize, x: usize, y: usize) -> bool {
    (source_node(a, e) == Some(x) && target_node(a, e) == Some(y)) || (target_node(a, e) == Some(x) && source_node(
        a,
        e,
    ) == Some(y))
}

/// Nodes `x` and `y` are the two ends of some edge.
pub open spec fn adjacent(a: &LGraphArena, x: usize, y: usize) -> bool {
    exists|e: usize| e < a.edges@.len() && #[trigger] joins(a, e, x, y)
}

/// `p` is a walk from `x` to `y` along edges, through nodes that `inside`
/// marks and `outside` does not.
pub open spec fn walk_between(a: &LGraphArena, inside: Seq<bool>, outside: Seq<bool>, p: Seq<usize>, x: usize, y: usize) -> bool {
    &&& p.len() >= 1
    &&& p[0] == x
    &&& p[p.len() - 1] == y
    &&& forall|k: int| 0 <= k < p.len() ==> #[trigger] p[k] < inside.len() && inside[p[k] as int] && !outside[p[k] as int]
    &&& forall|k: int| 0 <= k < p.len() - 1 ==> adjacent(a, #[trigger] p[k], p[k + 1])
}

/// Every edge with an end at a node that `set` marks has both ends at
/// ports of nodes.
pub open spec fn ends_owned(a: &LGraphArena, set: Seq<bool>) -> bool {
    forall|e: int|
        0 <= e < a.edges@.len() && ((#[trigger] source_node(a, e as usize) matches Some(x) && x < set.len() && set[x as int])
            || (target_node(a, e as usize) matches Some(y) && y < set.len() && set[y as int])) ==> source_node(
            a,
            e as usize,
        ) is Some && target_node(a, e as usize) is Some
}

/// Both ends of every edge at node `y` are ports of nodes.
pub open spec fn owned_at(a: &LGraphArena, y: usize) -> bool {
    forall|e: int|
        0 <= e < a.edges@.len() && (#[trigger] source_node(a, e as usize) == Some(y) || target_node(a, e as usize) == Some(
            y,
        )) ==> source_node(a, e as usize) is Some && target_node(a, e as usize) is Some
}

/// No entry set, for `n` entries.
pub open spec fn none_of(n: nat) -> Seq<bool> {
    Seq::new(n, |k: int| false)
}

/// Both ends of every edge are ports of nodes at each node that a walk
/// through nodes of `set` reaches from `x`.
pub open spec fn owned_from(a: &LGraphArena, set: Seq<bool>, x: usize) -> bool {
    forall|y: usize, p: Seq<usize>| #[trigger] walk_between(a, set, none_of(set.len()), p, x, y) ==> owned_at(a, y)
}

/// The start of the walks is reached too.
pub proof fn lemma_owned_here(a: &LGraphArena, set: Seq<bool>, x: usize)
    requires
        owned_from(a, set, x),
        x < set.len(),
        set[x as int],
    ensures
        owned_at(a, x),
{
    assert(walk_between(a, set, none_of(set.len()), seq![x], x, x));
}

/// What a walk reaches from a neighbour in `set`, a walk reaches from `x`.
pub proof fn lemma_owned_step(a: &LGraphArena, set: Seq<bool>, x: usize, z: usize, e: usize)
    requires
        owned_from(a, set, x),
        x < set.len(),
        set[x as int],
        z < set.len(),
        set[z as int],
        e < a.edges@.len(),
        joins(a, e, x, z),
    ensures
        owned_from(a, set, z),
{
    assert forall|y: usize, p: Seq<usize>| #[trigger] walk_between(a, set, none_of(set.len()), p, z, y) implies owned_at(a, y) by {
        let q = seq![x] + p;
        assert forall|k: int| 0 <= k < q.len() implies #[trigger] q[k] < set.len() && set[q[k] as int] && !none_of(set.len())[q[k] as int] by {
            if k > 0 {
                assert(q[k] == p[k - 1]);
            }
        }
        assert forall|k: int| 0 <= k < q.len() - 1 implies adjacent(a, #[trigger] q[k], q[k + 1]) by {
            if k > 0 {
                assert(q[k] == p[k - 1] && q[k + 1] == p[k]);
                assert(adjacent(a, p[k - 1], p[k]));
            } else {
                assert(q[1] == p[0]);
                assert(joins(a, e, x, z));
            }
        }
        assert(q[q.len() - 1] == p[p.len() - 1]);
        assert(walk_between(a, set, none_of(set.len()), q, x, y));
    }
}

/// Where every node of `set` has its edges' ends at ports of nodes, so
/// does every node reached through `set`.
pub proof fn lemma_owned_everywhere(a: &LGraphArena, set: Seq<bool>, x: usize)
    requires
        ends_owned(a, set),
    ensures
        owned_from(a, set, x),
{
    assert forall|y: usize, p: Seq<usize>| #[trigger] walk_between(a, set, none_of(set.len()), p, x, y) implies owned_at(a, y) by {
        assert(p[p.len() - 1] < set.len() && set[p[p.len() - 1] as int]);
        assert forall|e: int|
            0 <= e < a.edges@.len() && (#[trigger] source_node(a, e as usize) == Some(y) || target_node(a, e as usize) == Some(y))
                implies source_node(a, e as usize) is Some && target_node(a, e as usize) is Some by {
            assert((source_node(a, e as usize) matches Some(u) && u < set.len() && set[u as int]) || (target_node(a, e as usize) matches Some(w) && w < set.len() && set[w as int]));
        }
    }
}

/// How many entries of `v` are unset.
pub open spec fn unset_count(v: Seq<bool>) -> nat
    decreases v.len(),
{
    if v.len() == 0 {
        0
    } else {
        unset_count(v.drop_last()) + if !v.last() {
            1nat
        } else {
            0
        }
    }
}

/// Setting an unset entry leaves one unset entry fewer.
pub proof fn lemma_unset_count_set(v: Seq<bool>, k: int)
    requires
        0 <= k < v.len(),
        !v[k],
    ensures
        unset_count(v.update(k, true)) + 1 == unset_count(v),
    decreases v.len(),
{
    let w = v.update(k, true);
    if k == v.len() - 1 {
        assert(w.drop_last() =~= v.drop_last());
    } else {
        assert(w.drop_last() =~= v.drop_last().update(k, true));
        lemma_unset_count_set(v.drop_last(), k);
    }
}

/// Setting entries never adds unset ones.
pub proof fn lemma_unset_count_monotone(v: Seq<bool>, w: Seq<bool>)
    requires
        v.len() == w.len(),
        forall|k: int| 0 <= k < v.len() && #[trigger] v[k] ==> w[k],
    ensures
        unset_count(w) <= unset_count(v),
    decreases v.len(),
{
    if v.len() > 0 {
        lemma_unset_count_monotone(v.drop_last(), w.drop_last());
    }
}

/// The node indices of a node list.
pub open spec fn ids(nodes: Seq<LNodeId>) -> Seq<usize> {
    nodes.map_values(|n: LNodeId| n.0)
}

/// Whether `v` has every entry of `u` set, and perhaps more.
pub open spec fn grows(u: Seq<bool>, v: Seq<bool>) -> bool {
    &&& u.len() == v.len()
    &&& forall|k: int| 0 <= k < u.len() && #[trigger] u[k] ==> v[k]
}

/// The node at the far end of edge `e`, seen from port `p`.
pub open spec fn far_node(a: &LGraphArena, e: usize, p: usize) -> Option<usize> {
    if a.sources()[e as int] == Some(p) {
        target_node(a, e)
    } else {
        source_node(a, e)
    }
}

/// Setting more entries leaves fewer unset, and strictly fewer once an
/// unset entry gets set.
pub proof fn lemma_unset_count_grows(u: Seq<bool>, v: Seq<bool>, k: int)
    requires
        grows(u, v),
        0 <= k < u.len(),
        !u[k],
        v[k],
    ensures
        unset_count(v) < unset_count(u),
{
    lemma_unset_count_set(u, k);
    lemma_unset_count_monotone(u.update(k, true), v);
}

/// A walk stays a walk when more nodes count as inside.
pub proof fn lemma_walk_grows(
    a: &LGraphArena,
    v1: Seq<bool>,
    v2: Seq<bool>,
    outside: Seq<bool>,
    p: Seq<usize>,
    x: usize,
    y: usize,
)
    requires
        walk_between(a, v1, outside, p, x, y),
        grows(v1, v2),
    ensures
        walk_between(a, v2, outside, p, x, y),
{
    assert forall|k: int| 0 <= k < p.len() implies #[trigger] p[k] < v2.len() && v2[p[k] as int] && !outside[p[k] as int] by {
        assert(v1[p[k] as int]);
    }
}

/// An edge at a port of node `x` joins `x` with the node at its far end.
pub proof fn lemma_far_end(a: &LGraphArena, x: usize, p: usize, e: usize)
    requires
        a.wf(),
        p < a.ports@.len(),
        a.owners()[p as int] == Some(x),
        a.in_lists()[p as int].contains(e) || a.out_lists()[p as int].contains(e),
        source_node(a, e) is Some,
        target_node(a, e) is Some,
    ensures
        e < a.edges@.len(),
        far_node(a, e, p) matches Some(z) && joins(a, e, x, z),
{
    if a.in_lists()[p as int].contains(e) {
        lemma_list_end(a.targets(), a.in_lists(), p, e);
    } else {
        lemma_list_end(a.sources(), a.out_lists(), p, e);
    }
}

/// What a depth-first search from `node` has established so far, with
/// `v0` and `o0` the visited marks and the output it started from: it
/// visited `node` first and only nodes of `set` after it, listed each
/// newly visited node once in the output, reached each of them from
/// `node` through newly visited nodes, and visited every node of `set`
/// next to one of them other than `node`.
pub open spec fn dfs_frame(
    a: &LGraphArena,
    node: usize,
    set: Seq<bool>,
    v0: Seq<bool>,
    o0: Seq<LNodeId>,
    v: Seq<bool>,
    o: Seq<LNodeId>,
) -> bool {
    let part = ids(o.subrange(o0.len() as int, o.len() as int));
    &&& grows(v0, v)
    &&& node < v.len()
    &&& v[node as int]
    &&& !v0[node as int]
    &&& forall|k: usize| k < v.len() && #[trigger] v[k as int] && !v0[k as int] ==> k == node || set[k as int]
    &&& o0.len() <= o.len()
    &&& o.subrange(0, o0.len() as int) == o0
    &&& part.no_duplicates()
    &&& part.len() >= 1
    &&& part[0] == node
    &&& forall|i: int| 0 <= i < part.len() ==> #[trigger] part[i] < v.len()
    &&& forall|k: usize| k < v.len() ==> (#[trigger] v[k as int] && !v0[k as int] <==> part.contains(k))
    &&& forall|y: usize, z: usize|
        y < v.len() && #[trigger] v[y as int] && !v0[y as int] && y != node && z < v.len() && set[z as int] && #[trigger] adjacent(
            a,
            y,
            z,
        ) ==> v[z as int]
    &&& forall|y: usize| y < v.len() && #[trigger] v[y as int] && !v0[y as int] ==> exists|p: Seq<usize>| #[trigger] walk_between(a, v, v0, p, node, y)
}

/// The far end of edge `e` at port `p` is visited if it belongs to `set`.
pub open spec fn far_end_done(a: &LGraphArena, set: Seq<bool>, v: Seq<bool>, e: usize, p: usize) -> bool {
    match far_node(a, e, p) {
        Some(z) => z < set.len() && set[z as int] ==> v[z as int],
        None => true,
    }
}

/// A search from `node` that went on with a search from its neighbour `z`
/// still has the properties of a search from `node`.
pub proof fn lemma_frame_extend(
    a: &LGraphArena,
    node: usize,
    set: Seq<bool>,
    v0: Seq<bool>,
    o0: Seq<LNodeId>,
    v1: Seq<bool>,
    o1: Seq<LNodeId>,
    z: usize,
    e: usize,
    v2: Seq<bool>,
    o2: Seq<LNodeId>,
)
    requires
        dfs_frame(a, node, set, v0, o0, v1, o1),
        dfs_frame(a, z, set, v1, o1, v2, o2),
        forall|w: usize| w < v2.len() && set[w as int] && #[trigger] adjacent(a, z, w) ==> v2[w as int],
        z < set.len(),
        set.len() == v0.len(),
        set[z as int],
        e < a.edges@.len(),
        joins(a, e, node, z),
    ensures
        dfs_frame(a, node, set, v0, o0, v2, o2),
{
    let part1 = ids(o1.subrange(o0.len() as int, o1.len() as int));
    let part_z = ids(o2.subrange(o1.len() as int, o2.len() as int));
    let part2 = ids(o2.subrange(o0.len() as int, o2.len() as int));
    assert(o2.subrange(0, o1.len() as int) == o1);
    assert(o2.subrange(0, o0.len() as int) =~= o2.subrange(0, o1.len() as int).subrange(0, o0.len() as int));
    assert(o2.subrange(o0.len() as int, o2.len() as int) =~= o1.subrange(o0.len() as int, o1.len() as int) + o2.subrange(
        o1.len() as int,
        o2.len() as int,
    ));
    assert(part2 =~= part1 + part_z);
    assert forall|x: int, y: int| 0 <= x < part1.len() && 0 <= y < part_z.len() implies part1[x] != part_z[y] by {
        let kx = part1[x];
        let ky = part_z[y];
        assert(part1.contains(kx));
        assert(part_z.contains(ky));
        assert(kx < v1.len() && ky < v2.len());
        if kx == ky {
            assert(v1[kx as int]);
            assert(!v1[ky as int]);
        }
    }
    vstd::seq_lib::lemma_no_dup_in_concat(part1, part_z);
    assert(grows(v0, v2));
    assert forall|i: int| 0 <= i < part2.len() implies #[trigger] part2[i] < v2.len() by {
        if i < part1.len() {
            assert(part2[i] == part1[i]);
        } else {
            assert(part2[i] == part_z[i - part1.len()]);
        }
    }
    assert forall|k: usize| k < v2.len() implies (#[trigger] v2[k as int] && !v0[k as int] <==> part2.contains(k)) by {
        vstd::seq_lib::lemma_seq_concat_contains_all_elements(part1, part_z, k);
        assert(v1[k as int] && !v0[k as int] <==> part1.contains(k));
        assert(v2[k as int] && !v1[k as int] <==> part_z.contains(k));
        if v0[k as int] {
            assert(v1[k as int]);
        }
        if v1[k as int] {
            assert(v2[k as int]);
        }
    }
    assert(adjacent(a, node, z)) by {
        assert(joins(a, e, node, z));
    }
    assert forall|y: usize, w: usize|
        y < v2.len() && #[trigger] v2[y as int] && !v0[y as int] && y != node && w < v2.len() && set[w as int] && #[trigger] adjacent(
            a,
            y,
            w,
        ) implies v2[w as int] by {
        if v1[y as int] {
            assert(v1[w as int]);
        }
    }
    assert forall|y: usize| y < v2.len() && #[trigger] v2[y as int] && !v0[y as int] implies exists|p: Seq<usize>| #[trigger] walk_between(a, v2, v0, p, node, y) by {
        if v1[y as int] {
            let p = choose|p: Seq<usize>| #[trigger] walk_between(a, v1, v0, p, node, y);
            lemma_walk_grows(a, v1, v2, v0, p, node, y);
        } else {
            let p = choose|p: Seq<usize>| #[trigger] walk_between(a, v2, v1, p, z, y);
            let q = seq![node] + p;
            assert forall|k: int| 0 <= k < q.len() implies #[trigger] q[k] < v2.len() && v2[q[k] as int] && !v0[q[k] as int] by {
                if k > 0 {
                    assert(q[k] == p[k - 1]);
                    assert(!v1[p[k - 1] as int]);
                }
            }
            assert forall|k: int| 0 <= k < q.len() - 1 implies adjacent(a, #[trigger] q[k], q[k + 1]) by {
                if k > 0 {
                    assert(q[k] == p[k - 1] && q[k + 1] == p[k]);
                    assert(adjacent(a, p[k - 1], p[k]));
                } else {
                    assert(q[1] == p[0]);
                }
            }
            assert(q[q.len() - 1] == p[p.len() - 1]);
            assert(walk_between(a, v2, v0, q, node, y));
        }
    }
}


/// Every node of `set` next to node `x` is visited.
pub open spec fn closed_at(a: &LGraphArena, x: usize, set: Seq<bool>, v: Seq<bool>) -> bool {
    forall|w: usize| w < v.len() && w < set.len() && set[w as int] && #[trigger] adjacent(a, x, w) ==> v[w as int]
}

/// Every edge at port `p` has its far end visited if that end is in `set`.
pub open spec fn port_done(a: &LGraphArena, set: Seq<bool>, v: Seq<bool>, p: usize) -> bool {
    &&& forall|k: int|
        0 <= k < a.in_lists()[p as int].len() ==> #[trigger] far_end_done(a, set, v, a.in_lists()[p as int][k], p)
    &&& forall|k: int|
        0 <= k < a.out_lists()[p as int].len() ==> #[trigger] far_end_done(a, set, v, a.out_lists()[p as int][k], p)
}

/// Visiting more nodes keeps a far end visited.
pub proof fn lemma_far_end_done_grows(a: &LGraphArena, set: Seq<bool>, v1: Seq<bool>, v2: Seq<bool>, e: usize, p: usize)
    requires
        far_end_done(a, set, v1, e, p),
        grows(v1, v2),
        set.len() == v1.len(),
    ensures
        far_end_done(a, set, v2, e, p),
{
    if let Some(z) = far_node(a, e, p) {
        if z < set.len() && set[z as int] {
            assert(v1[z as int]);
        }
    }
}

/// Visiting more nodes keeps a port done.
pub proof fn lemma_port_done_grows(a: &LGraphArena, set: Seq<bool>, v1: Seq<bool>, v2: Seq<bool>, p: usize)
    requires
        port_done(a, set, v1, p),
        grows(v1, v2),
        set.len() == v1.len(),
    ensures
        port_done(a, set, v2, p),
{
    assert forall|k: int| 0 <= k < a.in_lists()[p as int].len() implies #[trigger] far_end_done(
        a,
        set,
        v2,
        a.in_lists()[p as int][k],
        p,
    ) by {
        lemma_far_end_done_grows(a, set, v1, v2, a.in_lists()[p as int][k], p);
    }
    assert forall|k: int| 0 <= k < a.out_lists()[p as int].len() implies #[trigger] far_end_done(
        a,
        set,
        v2,
        a.out_lists()[p as int][k],
        p,
    ) by {
        lemma_far_end_done_grows(a, set, v1, v2, a.out_lists()[p as int][k], p);
    }
}

/// Once every port of `x` is done, every node of `set` next to `x` is
/// visited.
pub proof fn lemma_node_closed(a: &LGraphArena, x: usize, set: Seq<bool>, v: Seq<bool>)
    requires
        a.wf(),
        x < a.nodes@.len(),
        set.len() == v.len(),
        v.len() == a.nodes@.len(),
        x < v.len() && v[x as int],
        forall|q: int| 0 <= q < a.port_lists()[x as int].len() ==> #[trigger] port_done(a, set, v, a.port_lists()[x as int][q]),
    ensures
        closed_at(a, x, set, v),
{
    assert forall|w: usize| w < v.len() && w < set.len() && set[w as int] && #[trigger] adjacent(a, x, w) implies v[w as int] by {
        let e = choose|e: usize| e < a.edges@.len() && #[trigger] joins(a, e, x, w);
        if source_node(a, e) == Some(x) && target_node(a, e) == Some(w) {
            let p = a.sources()[e as int]->0;
            assert(a.sources()[e as int] is Some);
            assert(a.owners()[p as int] == Some(x));
            assert(a.port_lists()[x as int].contains(p));
            let q = choose|q: int| 0 <= q < a.port_lists()[x as int].len() && a.port_lists()[x as int][q] == p;
            assert(port_done(a, set, v, a.port_lists()[x as int][q]));
            assert(a.out_lists()[p as int].contains(e));
            let k = choose|k: int| 0 <= k < a.out_lists()[p as int].len() && a.out_lists()[p as int][k] == e;
            assert(far_end_done(a, set, v, a.out_lists()[p as int][k], p));
        } else {
            let p = a.targets()[e as int]->0;
            assert(a.targets()[e as int] is Some);
            assert(a.owners()[p as int] == Some(x));
            assert(a.port_lists()[x as int].contains(p));
            let q = choose|q: int| 0 <= q < a.port_lists()[x as int].len() && a.port_lists()[x as int][q] == p;
            assert(port_done(a, set, v, a.port_lists()[x as int][q]));
            assert(a.in_lists()[p as int].contains(e));
            let k = choose|k: int| 0 <= k < a.in_lists()[p as int].len() && a.in_lists()[p as int][k] == e;
            assert(far_end_done(a, set, v, a.in_lists()[p as int][k], p));
        }
    }
}

/// Follows edge `edge` from port `port` of `node`, and searches on from the
/// node at its far end if that node is in `node_set` and not visited yet.
fn visit_far_end(
    a: &LGraphArena,
    node: LNodeId,
    port: LPortId,
    edge: LEdgeId,
    node_set: &Vec<bool>,
    visited: &mut Vec<bool>,
    out: &mut Vec<LNodeId>,
)
    requires
        a.wf(),
        node.0 < a.nodes@.len(),
        node_set@.len() == a.nodes@.len(),
        old(visited)@.len() == a.nodes@.len(),
        node_set@[node.0 as int],
        owned_from(a, node_set@, node.0),
        port.0 < a.ports@.len(),
        a.owners()[port.0 as int] == Some(node.0),
        a.in_lists()[port.0 as int].contains(edge.0) || a.out_lists()[port.0 as int].contains(edge.0),
    ensures
        grows(old(visited)@, final(visited)@),
        edge.0 < a.edges@.len(),
        far_end_done(a, node_set@, final(visited)@, edge.0, port.0),
        (final(visited)@ == old(visited)@ && final(out)@ == old(out)@) || exists|z: usize|
            #[trigger] joins(a, edge.0, node.0, z) && z < a.nodes@.len() && node_set@[z as int] && dfs_frame(
                a,
                z,
                node_set@,
                old(visited)@,
                old(out)@,
                final(visited)@,
                final(out)@,
            ) && closed_at(a, z, node_set@, final(visited)@),
    decreases unset_count(old(visited)@), 1int,
{
    proof {
        lemma_owned_here(a, node_set@, node.0);
        if a.in_lists()[port.0 as int].contains(edge.0) {
            lemma_list_end(a.targets(), a.in_lists(), port.0, edge.0);
            assert(target_node(a, edge.0) == Some(node.0));
        } else {
            lemma_list_end(a.sources(), a.out_lists(), port.0, edge.0);
            assert(source_node(a, edge.0) == Some(node.0));
        }
        assert(source_node(a, edge.0) is Some && target_node(a, edge.0) is Some);
        lemma_far_end(a, node.0, port.0, edge.0);
    }
    let src = a.edges[edge.0].source.unwrap();
    let tgt = a.edges[edge.0].target.unwrap();
    let opposite_port = if src.0 == port.0 {
        tgt
    } else {
        src
    };
    let opposite = a.ports[opposite_port.0].owner.unwrap();
    proof {
        assert(far_node(a, edge.0, port.0) == Some(opposite.0));
    }
    if node_set[opposite.0] && !visited[opposite.0] {
        proof {
            lemma_owned_step(a, node_set@, node.0, opposite.0, edge.0);
        }
        dfs(a, opposite, node_set, visited, out);
    }
}

/// Visits `node` and then, depth first along the edges at its ports (per
/// port the incoming before the outgoing ones), every unvisited node of
/// `node_set` at their far ends, appending each node to `out` when it is
/// reached.
pub fn dfs(a: &LGraphArena, node: LNodeId, node_set: &Vec<bool>, visited: &mut Vec<bool>, out: &mut Vec<LNodeId>)
    requires
        a.wf(),
        node.0 < a.nodes@.len(),
        node_set@.len() == a.nodes@.len(),
        old(visited)@.len() == a.nodes@.len(),
        node_set@[node.0 as int],
        !old(visited)@[node.0 as int],
        owned_from(a, node_set@, node.0),
    ensures
        dfs_frame(a, node.0, node_set@, old(visited)@, old(out)@, final(visited)@, final(out)@),
        closed_at(a, node.0, node_set@, final(visited)@),
    decreases unset_count(old(visited)@), 0int,
{
    let ghost v0 = visited@;
    let ghost o0 = out@;
    let ghost set = node_set@;
    visited.set(node.0, true);
    out.push(node);
    proof {
        let part = ids(out@.subrange(o0.len() as int, out@.len() as int));
        assert(out@.subrange(o0.len() as int, out@.len() as int) =~= seq![node]);
        assert(part =~= seq![node.0]);
        assert(out@.subrange(0, o0.len() as int) =~= o0);
        assert forall|k: usize| k < visited@.len() implies (#[trigger] visited@[k as int] && !v0[k as int] <==> part.contains(k)) by {
            if k == node.0 {
                assert(part[0] == k);
            }
        }
        assert forall|y: usize| y < visited@.len() && #[trigger] visited@[y as int] && !v0[y as int] implies exists|p: Seq<usize>| #[trigger] walk_between(a, visited@, v0, p, node.0, y) by {
            assert(walk_between(a, visited@, v0, seq![node.0], node.0, y));
        }
        assert(dfs_frame(a, node.0, set, v0, o0, visited@, out@));
    }
    let ports = &a.nodes[node.0].ports;
    let ghost ps = a.port_lists()[node.0 as int];
    proof {
        lemma_port_list(a, node.0);
        assert(ports@.map_values(|p: LPortId| p.0) == ps);
    }
    let mut i: usize = 0;
    while i < ports.len()
        invariant
            a.wf(),
            node.0 < a.nodes@.len(),
            set == node_set@,
            set.len() == a.nodes@.len(),
            v0.len() == a.nodes@.len(),
            v0 == old(visited)@,
            set[node.0 as int],
            !v0[node.0 as int],
            owned_from(a, set, node.0),
            ports@.map_values(|p: LPortId| p.0) == ps,
            ps == a.port_lists()[node.0 as int],
            i <= ports.len(),
            dfs_frame(a, node.0, set, v0, o0, visited@, out@),
            forall|q: int| 0 <= q < i ==> #[trigger] port_done(a, set, visited@, ps[q]),
        decreases ports.len() - i,
    {
        let port = ports[i];
        proof {
            assert(ps[i as int] == port.0);
        }
        let n_in = a.ports[port.0].incoming_edges.len();
        let ghost ins = a.in_lists()[port.0 as int];
        let mut j: usize = 0;
        while j < n_in
            invariant
                a.wf(),
                node.0 < a.nodes@.len(),
                set == node_set@,
                set.len() == a.nodes@.len(),
                v0.len() == a.nodes@.len(),
                v0 == old(visited)@,
                set[node.0 as int],
                !v0[node.0 as int],
                owned_from(a, set, node.0),
                ps == a.port_lists()[node.0 as int],
                i < ps.len(),
                ps[i as int] == port.0,
                port.0 < a.ports@.len(),
                a.owners()[port.0 as int] == Some(node.0),
                ins == a.in_lists()[port.0 as int],
                n_in == ins.len(),
                j <= n_in,
                dfs_frame(a, node.0, set, v0, o0, visited@, out@),
                forall|q: int| 0 <= q < i ==> #[trigger] port_done(a, set, visited@, ps[q]),
                forall|k: int| 0 <= k < j ==> #[trigger] far_end_done(a, set, visited@, ins[k], port.0),
            decreases n_in - j,
        {
            let edge = a.ports[port.0].incoming_edges[j];
            let ghost v1 = visited@;
            let ghost o1 = out@;
            proof {
                assert(ins[j as int] == edge.0);
                lemma_unset_count_grows(v0, v1, node.0 as int);
            }
            visit_far_end(a, node, port, edge, node_set, visited, out);
            proof {
                if !(visited@ == v1 && out@ == o1) {
                    let z = choose|z: usize|
                        #[trigger] joins(a, edge.0, node.0, z) && z < a.nodes@.len() && set[z as int] && dfs_frame(
                            a,
                            z,
                            set,
                            v1,
                            o1,
                            visited@,
                            out@,
                        ) && closed_at(a, z, set, visited@);
                    lemma_frame_extend(a, node.0, set, v0, o0, v1, o1, z, edge.0, visited@, out@);
                }
                assert forall|q: int| 0 <= q < i implies #[trigger] port_done(a, set, visited@, ps[q]) by {
                    lemma_port_done_grows(a, set, v1, visited@, ps[q]);
                }
                assert forall|k: int| 0 <= k < j + 1 implies #[trigger] far_end_done(a, set, visited@, ins[k], port.0) by {
                    if k < j {
                        lemma_far_end_done_grows(a, set, v1, visited@, ins[k], port.0);
                    }
                }
            }
            j += 1;
        }
        let n_out = a.ports[port.0].outgoing_edges.len();
        let ghost outs = a.out_lists()[port.0 as int];
        let mut j: usize = 0;
        while j < n_out
            invariant
                a.wf(),
                node.0 < a.nodes@.len(),
                set == node_set@,
                set.len() == a.nodes@.len(),
                v0.len() == a.nodes@.len(),
                v0 == old(visited)@,
                set[node.0 as int],
                !v0[node.0 as int],
                owned_from(a, set, node.0),
                ps == a.port_lists()[node.0 as int],
                i < ps.len(),
                ps[i as int] == port.0,
                port.0 < a.ports@.len(),
                a.owners()[port.0 as int] == Some(node.0),
                ins == a.in_lists()[port.0 as int],
                outs == a.out_lists()[port.0 as int],
                n_out == outs.len(),
                j <= n_out,
                dfs_frame(a, node.0, set, v0, o0, visited@, out@),
                forall|q: int| 0 <= q < i ==> #[trigger] port_done(a, set, visited@, ps[q]),
                forall|k: int| 0 <= k < ins.len() ==> #[trigger] far_end_done(a, set, visited@, ins[k], port.0),
                forall|k: int| 0 <= k < j ==> #[trigger] far_end_done(a, set, visited@, outs[k], port.0),
            decreases n_out - j,
        {
            let edge = a.ports[port.0].outgoing_edges[j];
            let ghost v1 = visited@;
            let ghost o1 = out@;
            proof {
                assert(outs[j as int] == edge.0);
                lemma_unset_count_grows(v0, v1, node.0 as int);
            }
            visit_far_end(a, node, port, edge, node_set, visited, out);
            proof {
                if !(visited@ == v1 && out@ == o1) {
                    let z = choose|z: usize|
                        #[trigger] joins(a, edge.0, node.0, z) && z < a.nodes@.len() && set[z as int] && dfs_frame(
                            a,
                            z,
                            set,
                            v1,
                            o1,
                            visited@,
                            out@,
                        ) && closed_at(a, z, set, visited@);
                    lemma_frame_extend(a, node.0, set, v0, o0, v1, o1, z, edge.0, visited@, out@);
                }
                assert forall|q: int| 0 <= q < i implies #[trigger] port_done(a, set, visited@, ps[q]) by {
                    lemma_port_done_grows(a, set, v1, visited@, ps[q]);
                }
                assert forall|k: int| 0 <= k < ins.len() implies #[trigger] far_end_done(a, set, visited@, ins[k], port.0) by {
                    lemma_far_end_done_grows(a, set, v1, visited@, ins[k], port.0);
                }
                assert forall|k: int| 0 <= k < j + 1 implies #[trigger] far_end_done(a, set, visited@, outs[k], port.0) by {
                    if k < j {
                        lemma_far_end_done_grows(a, set, v1, visited@, outs[k], port.0);
                    }
                }
            }
            j += 1;
        }
        proof {
            assert(port_done(a, set, visited@, ps[i as int]));
        }
        i += 1;
    }
    proof {
        lemma_node_closed(a, node.0, set, visited@);
    }
}


/// The marks of the nodes `s` among `n` nodes.
pub open spec fn set_of(s: Seq<usize>, n: nat) -> Seq<bool> {
    Seq::new(n, |k: int| s.contains(k as usize))
}

/// Node `k` lies in one of the components `cs`.
pub open spec fn in_some(cs: Seq<Seq<usize>>, k: usize) -> bool {
    exists|j: int| 0 <= j < cs.len() && #[trigger] cs[j].contains(k)
}

/// `p` is a walk from `x` to `y` along edges, through nodes of `c`.
pub open spec fn walk_in(a: &LGraphArena, c: Seq<usize>, p: Seq<usize>, x: usize, y: usize) -> bool {
    &&& p.len() >= 1
    &&& p[0] == x
    &&& p[p.len() - 1] == y
    &&& forall|k: int| 0 <= k < p.len() ==> c.contains(#[trigger] p[k])
    &&& forall|k: int| 0 <= k < p.len() - 1 ==> adjacent(a, #[trigger] p[k], p[k + 1])
}

/// `cs` are connected components of the nodes `s`, found in the order of
/// `s`: each is nonempty, without repetition, disjoint from the others,
/// made of nodes of `s`, holds every node of `s` next to one of its nodes,
/// reaches each of its nodes from its first one along its own nodes, and
/// starts with the first node of `s` that no earlier component holds.
pub open spec fn components_found(a: &LGraphArena, s: Seq<usize>, cs: Seq<Seq<usize>>) -> bool {
    &&& forall|j: int| 0 <= j < cs.len() ==> #[trigger] cs[j].len() >= 1 && cs[j].no_duplicates()
    &&& forall|j1: int, j2: int, k: usize|
        0 <= j1 < cs.len() && 0 <= j2 < cs.len() && j1 != j2 && #[trigger] cs[j1].contains(k) ==> !#[trigger] cs[j2].contains(k)
    &&& forall|j: int, i: int| 0 <= j < cs.len() && 0 <= i < cs[j].len() ==> s.contains(#[trigger] cs[j][i])
    &&& forall|j: int, y: usize, w: usize|
        0 <= j < cs.len() && #[trigger] cs[j].contains(y) && s.contains(w) && #[trigger] adjacent(a, y, w) ==> cs[j].contains(w)
    &&& forall|j: int, y: usize|
        0 <= j < cs.len() && #[trigger] cs[j].contains(y) ==> exists|p: Seq<usize>| #[trigger] walk_in(a, cs[j], p, cs[j][0], y)
    &&& forall|j: int| 0 <= j < cs.len() ==> #[trigger] first_free(s, cs.take(j), cs[j][0])
}

/// `x` is the first node of `s` that none of the components `earlier`
/// holds.
pub open spec fn first_free(s: Seq<usize>, earlier: Seq<Seq<usize>>, x: usize) -> bool {
    exists|i: int| 0 <= i < s.len() && #[trigger] s[i] == x && forall|i2: int| 0 <= i2 < i ==> in_some(earlier, #[trigger] s[i2])
}

/// The components in the order they are kept: each newly found one goes
/// in front when it is larger than the front one, else at the back.
pub open spec fn arranged(found: Seq<Seq<usize>>) -> Seq<Seq<usize>>
    decreases found.len(),
{
    if found.len() == 0 {
        Seq::empty()
    } else {
        let r = arranged(found.drop_last());
        let c = found.last();
        if r.len() == 0 || r[0].len() < c.len() {
            seq![c] + r
        } else {
            r.push(c)
        }
    }
}

/// The node indices of each component.
pub open spec fn component_ids(cs: Seq<Vec<LNodeId>>) -> Seq<Seq<usize>> {
    cs.map_values(|c: Vec<LNodeId>| ids(c@))
}

/// Adjacency does not depend on the direction.
pub proof fn lemma_adjacent_symmetric(a: &LGraphArena, x: usize, y: usize)
    requires
        adjacent(a, x, y),
    ensures
        adjacent(a, y, x),
{
    let e = choose|e: usize| e < a.edges@.len() && #[trigger] joins(a, e, x, y);
    assert(joins(a, e, y, x));
}

/// A walk through newly visited nodes is a walk through the nodes that
/// list them.
pub proof fn lemma_walk_in(a: &LGraphArena, v: Seq<bool>, v0: Seq<bool>, part: Seq<usize>, p: Seq<usize>, x: usize, y: usize)
    requires
        walk_between(a, v, v0, p, x, y),
        forall|k: usize| k < v.len() ==> (#[trigger] v[k as int] && !v0[k as int] <==> part.contains(k)),
    ensures
        walk_in(a, part, p, x, y),
{
    assert forall|k: int| 0 <= k < p.len() implies part.contains(#[trigger] p[k]) by {
        assert(p[k] < v.len() && v[p[k] as int] && !v0[p[k] as int]);
    }
}

/// A search from the first unvisited node of `s` adds one more component.
pub proof fn lemma_add_component(
    a: &LGraphArena,
    s: Seq<usize>,
    cs: Seq<Seq<usize>>,
    vb: Seq<bool>,
    va: Seq<bool>,
    o: Seq<LNodeId>,
    i: int,
)
    requires
        components_found(a, s, cs),
        vb.len() == a.nodes@.len(),
        forall|k: int| 0 <= k < s.len() ==> #[trigger] s[k] < a.nodes@.len(),
        forall|k: usize| k < vb.len() ==> (#[trigger] vb[k as int] <==> in_some(cs, k)),
        0 <= i < s.len(),
        forall|i2: int| 0 <= i2 < i ==> in_some(cs, #[trigger] s[i2]),
        !vb[s[i] as int],
        dfs_frame(a, s[i], set_of(s, a.nodes@.len()), vb, Seq::empty(), va, o),
        closed_at(a, s[i], set_of(s, a.nodes@.len()), va),
    ensures
        components_found(a, s, cs.push(ids(o))),
        va.len() == vb.len(),
        forall|k: usize| k < va.len() ==> (#[trigger] va[k as int] <==> in_some(cs.push(ids(o)), k)),
        forall|i2: int| 0 <= i2 <= i ==> in_some(cs.push(ids(o)), #[trigger] s[i2]),
{
    let n = a.nodes@.len();
    let set = set_of(s, n);
    let node = s[i];
    let part = ids(o);
    let ncs = cs.push(part);
    assert(o.subrange(0, o.len() as int) =~= o);
    assert(ncs.last() == part);
    assert forall|k: usize| #[trigger] in_some(ncs, k) <==> in_some(cs, k) || part.contains(k) by {
        if in_some(cs, k) {
            let j = choose|j: int| 0 <= j < cs.len() && #[trigger] cs[j].contains(k);
            assert(ncs[j] == cs[j]);
        }
        if part.contains(k) {
            assert(ncs[cs.len() as int] == part);
        }
        if in_some(ncs, k) {
            let j = choose|j: int| 0 <= j < ncs.len() && #[trigger] ncs[j].contains(k);
            if j < cs.len() {
                assert(ncs[j] == cs[j]);
            }
        }
    }
    // nodes of `part` are nodes of `s` that no earlier component holds
    assert forall|k: usize| part.contains(k) implies k < n && s.contains(k) && !in_some(cs, k) by {
        let t = choose|t: int| 0 <= t < part.len() && part[t] == k;
        assert(part[t] < va.len());
        assert(va[k as int] && !vb[k as int]);
        if k != node {
            assert(set[k as int]);
        }
    }
    assert forall|j: int| 0 <= j < ncs.len() implies #[trigger] ncs[j].len() >= 1 && ncs[j].no_duplicates() by {
        if j < cs.len() {
            assert(ncs[j] == cs[j]);
        }
    }
    assert forall|j1: int, j2: int, k: usize|
        0 <= j1 < ncs.len() && 0 <= j2 < ncs.len() && j1 != j2 && #[trigger] ncs[j1].contains(k) implies !#[trigger] ncs[j2].contains(k) by {
        if j1 < cs.len() && j2 < cs.len() {
            assert(ncs[j1] == cs[j1] && ncs[j2] == cs[j2]);
        } else if j1 < cs.len() {
            assert(ncs[j1] == cs[j1]);
            if ncs[j2].contains(k) {
                assert(in_some(cs, k));
            }
        } else {
            assert(ncs[j2] == cs[j2]);
            if ncs[j2].contains(k) {
                assert(in_some(cs, k));
            }
        }
    }
    assert forall|j: int, t: int| 0 <= j < ncs.len() && 0 <= t < ncs[j].len() implies s.contains(#[trigger] ncs[j][t]) by {
        if j < cs.len() {
            assert(ncs[j] == cs[j]);
        } else {
            assert(part.contains(part[t]));
        }
    }
    assert forall|j: int, y: usize, w: usize|
        0 <= j < ncs.len() && #[trigger] ncs[j].contains(y) && s.contains(w) && #[trigger] adjacent(a, y, w) implies ncs[j].contains(w) by {
        if j < cs.len() {
            assert(ncs[j] == cs[j]);
        } else {
            assert(part.contains(y));
            assert(y < n && va[y as int] && !vb[y as int]);
            let t = choose|t: int| 0 <= t < s.len() && s[t] == w;
            assert(w < n);
            assert(set[w as int]);
            if y == node {
                assert(va[w as int]);
            } else {
                assert(va[w as int]);
            }
            if vb[w as int] {
                assert(in_some(cs, w));
                let j2 = choose|j2: int| 0 <= j2 < cs.len() && #[trigger] cs[j2].contains(w);
                lemma_adjacent_symmetric(a, y, w);
                assert(s.contains(y));
                assert(cs[j2].contains(y));
                assert(in_some(cs, y));
            }
            assert(part.contains(w));
        }
    }
    assert forall|j: int, y: usize| 0 <= j < ncs.len() && #[trigger] ncs[j].contains(y) implies exists|p: Seq<usize>| #[trigger] walk_in(a, ncs[j], p, ncs[j][0], y) by {
        if j < cs.len() {
            assert(ncs[j] == cs[j]);
        } else {
            assert(part.contains(y));
            assert(y < va.len() && va[y as int] && !vb[y as int]);
            let p = choose|p: Seq<usize>| #[trigger] walk_between(a, va, vb, p, node, y);
            lemma_walk_in(a, va, vb, part, p, node, y);
            assert(walk_in(a, ncs[j], p, ncs[j][0], y));
        }
    }
    assert forall|j: int| 0 <= j < ncs.len() implies #[trigger] first_free(s, ncs.take(j), ncs[j][0]) by {
        if j < cs.len() {
            assert(ncs[j] == cs[j]);
            assert(ncs.take(j) =~= cs.take(j));
            assert(first_free(s, cs.take(j), cs[j][0]));
        } else {
            assert(ncs.take(j) =~= cs);
            assert(s[i] == ncs[j][0]);
        }
    }
    assert forall|k: usize| k < va.len() implies (#[trigger] va[k as int] <==> in_some(ncs, k)) by {
        assert(in_some(ncs, k) <==> in_some(cs, k) || part.contains(k));
        assert(va[k as int] && !vb[k as int] <==> part.contains(k));
        if vb[k as int] {
            assert(va[k as int]);
        }
    }
    assert forall|i2: int| 0 <= i2 <= i implies in_some(ncs, #[trigger] s[i2]) by {
        assert(in_some(ncs, s[i2]) <==> in_some(cs, s[i2]) || part.contains(s[i2]));
        if i2 == i {
            assert(part[0] == node);
            assert(part.contains(node));
        }
    }
}

/// Splits the nodes `the_nodes` into connected components, searching
/// depth first from each node that no earlier component holds, in the
/// order of `the_nodes`; a new component goes in front of the list when
/// it is larger than the current first one, and at its back otherwise.
pub fn connected_components(a: &LGraphArena, the_nodes: &Vec<LNodeId>) -> (r: Vec<Vec<LNodeId>>)
    requires
        a.wf(),
        forall|i: int| 0 <= i < the_nodes@.len() ==> #[trigger] the_nodes@[i].0 < a.nodes@.len(),
        ends_owned(a, set_of(ids(the_nodes@), a.nodes@.len())),
    ensures
        exists|cs: Seq<Seq<usize>>|
            #[trigger] components_found(a, ids(the_nodes@), cs) && (forall|k: usize| ids(the_nodes@).contains(k) ==> in_some(cs, k))
                && component_ids(r@) == arranged(cs),
{
    let ghost s = ids(the_nodes@);
    let ghost n = a.nodes@.len();
    let n_nodes = a.nodes.len();
    let mut node_set: Vec<bool> = Vec::new();
    let mut visited: Vec<bool> = Vec::new();
    let mut k: usize = 0;
    while k < n_nodes
        invariant
            n_nodes == n,
            k <= n_nodes,
            node_set@ == Seq::new(k as nat, |t: int| false),
            visited@ == Seq::new(k as nat, |t: int| false),
        decreases n_nodes - k,
    {
        node_set.push(false);
        visited.push(false);
        k += 1;
        proof {
            assert(node_set@ =~= Seq::new(k as nat, |t: int| false));
            assert(visited@ =~= Seq::new(k as nat, |t: int| false));
        }
    }
    let mut t: usize = 0;
    while t < the_nodes.len()
        invariant
            n_nodes == n,
            n == a.nodes@.len(),
            s == ids(the_nodes@),
            forall|i: int| 0 <= i < the_nodes@.len() ==> #[trigger] the_nodes@[i].0 < a.nodes@.len(),
            t <= the_nodes@.len(),
            node_set@ == set_of(s.take(t as int), n),
        decreases the_nodes@.len() - t,
    {
        let x = the_nodes[t].0;
        node_set.set(x, true);
        t += 1;
        proof {
            assert(s[t - 1] == x);
            let before = s.take(t - 1);
            assert(s.take(t as int) =~= before.push(x));
            assert forall|k: int| 0 <= k < n implies node_set@[k] == set_of(s.take(t as int), n)[k] by {
                assert(before.push(x).contains(k as usize) <==> before.contains(k as usize) || k as usize == x) by {
                    if before.contains(k as usize) {
                        let q = choose|q: int| 0 <= q < before.len() && before[q] == k as usize;
                        assert(before.push(x)[q] == k as usize);
                    }
                    if k as usize == x {
                        assert(before.push(x)[before.len() as int] == x);
                    }
                    if before.push(x).contains(k as usize) {
                        let q = choose|q: int| 0 <= q < before.len() + 1 && before.push(x)[q] == k as usize;
                        if q < before.len() {
                            assert(before[q] == k as usize);
                        }
                    }
                }
            }
            assert(node_set@ =~= set_of(s.take(t as int), n));
        }
    }
    proof {
        assert(s.take(the_nodes@.len() as int) =~= s);
        assert forall|k: int| 0 <= k < s.len() implies #[trigger] s[k] < n by {
            assert(s[k] == the_nodes@[k].0);
        }
    }
    let mut components: VecDeque<Vec<LNodeId>> = VecDeque::new();
    let ghost mut cs: Seq<Seq<usize>> = Seq::empty();
    let mut i: usize = 0;
    while i < the_nodes.len()
        invariant
            a.wf(),
            n == a.nodes@.len(),
            s == ids(the_nodes@),
            forall|k: int| 0 <= k < s.len() ==> #[trigger] s[k] < n,
            node_set@ == set_of(s, n),
            ends_owned(a, set_of(s, n)),
            visited@.len() == n,
            i <= the_nodes@.len(),
            components_found(a, s, cs),
            forall|k: usize| k < visited@.len() ==> (#[trigger] visited@[k as int] <==> in_some(cs, k)),
            forall|i2: int| 0 <= i2 < i ==> in_some(cs, #[trigger] s[i2]),
            component_ids(components@) == arranged(cs),
        decreases the_nodes@.len() - i,
    {
        let node = the_nodes[i];
        proof {
            assert(s[i as int] == node.0);
        }
        if !visited[node.0] {
            let mut component: Vec<LNodeId> = Vec::new();
            let ghost vb = visited@;
            proof {
                assert(node_set@[node.0 as int]) by {
                    assert(s.contains(node.0));
                }
            }
            proof {
                lemma_owned_everywhere(a, node_set@, node.0);
            }
            dfs(a, node, &node_set, &mut visited, &mut component);
            proof {
                lemma_add_component(a, s, cs, vb, visited@, component@, i as int);
            }
            let ghost old_cs = cs;
            proof {
                cs = cs.push(ids(component@));
                assert(cs.drop_last() =~= old_cs);
            }
            if components.len() == 0 || components[0].len() < component.len() {
                components.push_front(component);
                proof {
                    assert(component_ids(components@) =~= arranged(cs));
                }
            } else {
                components.push_back(component);
                proof {
                    assert(component_ids(components@) =~= arranged(cs));
                }
            }
        } else {
            proof {
                assert(in_some(cs, s[i as int]));
            }
        }
        i += 1;
    }
    let mut r: Vec<Vec<LNodeId>> = Vec::new();
    let ghost all = components@;
    while components.len() > 0
        invariant
            all == r@ + components@,
        decreases components@.len(),
    {
        let c = components.pop_front().unwrap();
        r.push(c);
        proof {
            assert(all =~= r@ + components@);
        }
    }
    proof {
        assert(r@ =~= all);
        assert forall|k: usize| s.contains(k) implies in_some(cs, k) by {
            let t = choose|t: int| 0 <= t < s.len() && s[t] == k;
            assert(in_some(cs, s[t]));
        }
        assert(components_found(a, s, cs));
    }
    r
}

} // verus!
