//! Graph queries of the Brandes-Köpf node placer: in-layer edges, the
//! inner segments of long edges, and the edge between two nodes.

use vstd::prelude::*;
use crate::layout::elk::alg::graph::{gather, gather_both, LEdgeId, LGraphArena, LGraphId, LNodeId, NodeType};
use crate::layout::elk::alg::p1_cycles::{at_port, lemma_gather_both_contains, lemma_port_list, source_node, target_node};

verus! {

/// Whether `e` connects two nodes of the same layer (or two nodes of no
/// layer).
pub fn is_in_layer_edge(arena: &LGraphArena, e: LEdgeId) -> (r: bool)
    requires
        arena.wf(),
        e.0 < arena.edges@.len(),
        source_node(arena, e.0) is Some,
        target_node(arena, e.0) is Some,
    ensures
        r == (arena.layer_of()[source_node(arena, e.0)->0 as int] == arena.layer_of()[target_node(arena, e.0)->0 as int]),
{
    let s = arena.edge_source_node(e).unwrap();
    let t = arena.edge_target_node(e).unwrap();
    match (arena.nodes[s.0].layer, arena.nodes[t.0].layer) {
        (Some(ls), Some(lt)) => ls == lt,
        (None, None) => true,
        _ => false,
    }
}

/// Node `node` is a long-edge dummy in layer `layer1` with an incoming edge
/// from a long-edge dummy in layer `layer2`: the edge is an inner segment
/// of a long edge.
pub open spec fn inner_segment_at(a: &LGraphArena, node: int, layer1: usize, layer2: usize) -> bool {
    let ins = gather(a.in_lists(), a.port_lists()[node]);
    &&& a.nodes@[node].node_type == NodeType::LongEdge
    &&& exists|k: int|
        0 <= k < ins.len() && #[trigger] a.nodes@[source_node(a, ins[k])->0 as int].node_type == NodeType::LongEdge
            && a.layer_of()[source_node(a, ins[k])->0 as int] == Some(layer2) && a.layer_of()[node] == Some(layer1)
}

/// Whether `node` has an incoming inner segment of a long edge between
/// layers `layer2` and `layer1`.
pub fn incident_to_inner_segment(arena: &LGraphArena, node: LNodeId, layer1: usize, layer2: usize) -> (r: bool)
    requires
        arena.wf(),
        node.0 < arena.nodes@.len(),
        arena.nodes@[node.0 as int].node_type == NodeType::LongEdge ==> forall|k: int|
            0 <= k < gather(arena.in_lists(), arena.port_lists()[node.0 as int]).len() ==> source_node(
                arena,
                #[trigger] gather(arena.in_lists(), arena.port_lists()[node.0 as int])[k],
            ) is Some,
    ensures
        r == inner_segment_at(arena, node.0 as int, layer1, layer2),
{
    if arena.nodes[node.0].node_type != NodeType::LongEdge {
        return false;
    }
    let ghost ins = gather(arena.in_lists(), arena.port_lists()[node.0 as int]);
    let edges = arena.node_incoming_edges(node);
    let mut i: usize = 0;
    while i < edges.len()
        invariant
            arena.wf(),
            node.0 < arena.nodes@.len(),
            arena.nodes@[node.0 as int].node_type == NodeType::LongEdge,
            ins == gather(arena.in_lists(), arena.port_lists()[node.0 as int]),
            edges@.map_values(|e: LEdgeId| e.0) == ins,
            forall|k: int| 0 <= k < ins.len() ==> source_node(arena, #[trigger] ins[k]) is Some,
            i <= edges@.len(),
            forall|k: int|
                0 <= k < i ==> !(#[trigger] arena.nodes@[source_node(arena, ins[k])->0 as int].node_type == NodeType::LongEdge
                    && arena.layer_of()[source_node(arena, ins[k])->0 as int] == Some(layer2) && arena.layer_of()[node.0 as int]
                    == Some(layer1)),
        decreases edges@.len() - i,
    {
        let e = edges[i];
        proof {
            assert(ins[i as int] == e.0);
            assert(e.0 < arena.edges@.len()) by {
                crate::layout::elk::alg::p1_cycles::lemma_incoming_member(arena, node.0, e.0);
                assert(ins.contains(e.0));
            }
        }
        let s = arena.edge_source_node(e).unwrap();
        proof {
            assert(s.0 < arena.nodes@.len()) by {
                let p = arena.sources()[e.0 as int]->0;
            }
        }
        let same_layers = match (arena.nodes[s.0].layer, arena.nodes[node.0].layer) {
            (Some(l2), Some(l1)) => l2 == layer2 && l1 == layer1,
            _ => false,
        };
        if arena.nodes[s.0].node_type == NodeType::LongEdge && same_layers {
            proof {
                assert(arena.nodes@[source_node(arena, ins[i as int])->0 as int].node_type == NodeType::LongEdge);
            }
            return true;
        }
        i += 1;
    }
    false
}

/// The first edge at a port of `source`, per port its incoming then its
/// outgoing edges, that has `target` at one of its ends.
pub open spec fn first_edge_to(a: &LGraphArena, es: Seq<usize>, target: usize) -> Option<usize>
    decreases es.len(),
{
    if es.len() == 0 {
        None
    } else if target_node(a, es[0]) == Some(target) || source_node(a, es[0]) == Some(target) {
        Some(es[0])
    } else {
        first_edge_to(a, es.subrange(1, es.len() as int), target)
    }
}

/// Every edge of `es` before the first one that ends at `target` (and that
/// one too) has both its ends at nodes.
pub open spec fn ends_known_upto(a: &LGraphArena, es: Seq<usize>, target: usize) -> bool
    decreases es.len(),
{
    es.len() > 0 ==> source_node(a, es[0]) is Some && target_node(a, es[0]) is Some && (target_node(a, es[0]) == Some(target)
        || source_node(a, es[0]) == Some(target) || ends_known_upto(a, es.subrange(1, es.len() as int), target))
}

/// The edge between `source` and `target`: the first edge at the ports of
/// `source` that has `target` at one of its ends.
pub fn get_edge(arena: &LGraphArena, source: LNodeId, target: LNodeId) -> (r: Option<LEdgeId>)
    requires
        arena.wf(),
        source.0 < arena.nodes@.len(),
        ends_known_upto(
            arena,
            gather_both(arena.in_lists(), arena.out_lists(), arena.port_lists()[source.0 as int]),
            target.0,
        ),
    ensures
        match r {
            Some(e) => first_edge_to(
                arena,
                gather_both(arena.in_lists(), arena.out_lists(), arena.port_lists()[source.0 as int]),
                target.0,
            ) == Some(e.0),
            None => first_edge_to(
                arena,
                gather_both(arena.in_lists(), arena.out_lists(), arena.port_lists()[source.0 as int]),
                target.0,
            ) is None,
        },
{
    let ghost es = gather_both(arena.in_lists(), arena.out_lists(), arena.port_lists()[source.0 as int]);
    let edges = arena.node_connected_edges(source);
    proof {
        assert(es.subrange(0, es.len() as int) =~= es);
    }
    let mut i: usize = 0;
    while i < edges.len()
        invariant
            arena.wf(),
            source.0 < arena.nodes@.len(),
            es == gather_both(arena.in_lists(), arena.out_lists(), arena.port_lists()[source.0 as int]),
            edges@.map_values(|e: LEdgeId| e.0) == es,
            i <= es.len(),
            first_edge_to(arena, es, target.0) == first_edge_to(arena, es.subrange(i as int, es.len() as int), target.0),
            ends_known_upto(arena, es.subrange(i as int, es.len() as int), target.0),
        decreases es.len() - i,
    {
        let e = edges[i];
        let ghost rest = es.subrange(i as int, es.len() as int);
        proof {
            assert(rest[0] == e.0);
            assert(rest.subrange(1, rest.len() as int) =~= es.subrange(i + 1, es.len() as int));
            assert(e.0 < arena.edges@.len()) by {
                assert(es.contains(e.0)) by {
                    assert(es[i as int] == e.0);
                }
                lemma_gather_both_contains(arena.in_lists(), arena.out_lists(), arena.port_lists()[source.0 as int], e.0);
                lemma_port_list(arena, source.0);
                let q = choose|q: int|
                    0 <= q < arena.port_lists()[source.0 as int].len() && #[trigger] at_port(
                        arena.in_lists(),
                        arena.out_lists(),
                        arena.port_lists()[source.0 as int][q],
                        e.0,
                    );
                let p = arena.port_lists()[source.0 as int][q];
                if arena.in_lists()[p as int].contains(e.0) {
                    let k = choose|k: int| 0 <= k < arena.in_lists()[p as int].len() && arena.in_lists()[p as int][k] == e.0;
                    assert(arena.in_lists()[p as int][k] < arena.targets().len());
                } else {
                    let k = choose|k: int| 0 <= k < arena.out_lists()[p as int].len() && arena.out_lists()[p as int][k] == e.0;
                    assert(arena.out_lists()[p as int][k] < arena.sources().len());
                }
            }
        }
        let t = arena.edge_target_node(e).unwrap();
        let s = arena.edge_source_node(e).unwrap();
        if t.0 == target.0 || s.0 == target.0 {
            proof {
                assert(target_node(arena, e.0) == Some(t.0));
                assert(source_node(arena, e.0) == Some(s.0));
                assert(first_edge_to(arena, rest, target.0) == Some(rest[0]));
            }
            return Some(e);
        }
        i += 1;
    }
    proof {
        assert(es.subrange(i as int, es.len() as int) =~= Seq::<usize>::empty());
    }
    None
}


// ---------------------------------------------------------------------
// Vertical alignment.

/// The neighbours of the nodes of one layered graph, by node id (the
/// nodes' scratch ids): each node's position in its layer, and its left
/// (previous-layer) and right (next-layer) neighbours with the edges that
/// connect them, ordered by the neighbours' positions.
pub struct Neighborhood {
    pub node_index: Vec<usize>,
    pub left_neighbors: Vec<Vec<(LNodeId, LEdgeId)>>,
    pub right_neighbors: Vec<Vec<(LNodeId, LEdgeId)>>,
}

/// The blocks of one Brandes-Köpf layout, by node id: the root of each
/// node's block, the next node of its block (the root for the last
/// node), and whether the block of each root holds long-edge dummies
/// only.
pub struct BkAlignment {
    pub root: Vec<LNodeId>,
    pub align: Vec<LNodeId>,
    pub od: Vec<bool>,
}

/// The scratch id of node `x`.
pub open spec fn gid(a: &LGraphArena, x: LNodeId) -> int {
    a.nodes@[x.0 as int].id as int
}

/// Node `x` exists and its id is below `n`.
pub open spec fn known(a: &LGraphArena, n: nat, x: LNodeId) -> bool {
    x.0 < a.nodes@.len() && gid(a, x) < n
}

/// The nodes of layer `l` of graph `g`, in order.
pub open spec fn layer_nodes(a: &LGraphArena, g: int, l: int) -> Seq<LNodeId> {
    a.graphs@[g].layers@[l].nodes@
}

impl Neighborhood {
    /// The number of node ids.
    pub open spec fn node_count(&self) -> nat {
        self.node_index@.len()
    }

    /// The neighbours of the node with id `i`, on the right or the left.
    pub open spec fn neighbors(&self, right: bool, i: int) -> Seq<(LNodeId, LEdgeId)> {
        if right {
            self.right_neighbors@[i]@
        } else {
            self.left_neighbors@[i]@
        }
    }

    /// Fits graph `g` of `a`: one list of each kind per id, positions below
    /// the number of ids, and every node of a layer of `g` and every
    /// neighbour a node with an id below that number.
    pub open spec fn wf_for(&self, a: &LGraphArena, g: int) -> bool {
        &&& 0 <= g < a.graphs@.len()
        &&& self.fits(a)
        &&& forall|l: int, k: int|
            0 <= l < a.graphs@[g].layers@.len() && 0 <= k < layer_nodes(a, g, l).len() ==> known(
                a,
                self.node_count(),
                #[trigger] layer_nodes(a, g, l)[k],
            )
    }

    /// One list of each kind per id, positions below the number of ids, and
    /// every neighbour a node with an id below that number.
    pub open spec fn fits(&self, a: &LGraphArena) -> bool {
        &&& self.node_count() <= i64::MAX
        &&& self.left_neighbors@.len() == self.node_count()
        &&& self.right_neighbors@.len() == self.node_count()
        &&& forall|i: int| 0 <= i < self.node_count() ==> #[trigger] self.node_index@[i] < self.node_count()
        &&& forall|i: int, k: int|
            0 <= i < self.node_count() && 0 <= k < self.left_neighbors@[i]@.len() ==> known(
                a,
                self.node_count(),
                (#[trigger] self.left_neighbors@[i]@[k]).0,
            )
        &&& forall|i: int, k: int|
            0 <= i < self.node_count() && 0 <= k < self.right_neighbors@[i]@.len() ==> known(
                a,
                self.node_count(),
                (#[trigger] self.right_neighbors@[i]@[k]).0,
            )
    }
}

/// The blocks while the alignment runs, with the position of the last
/// aligned neighbour in the layer being handled.
pub struct AlignState {
    pub root: Seq<LNodeId>,
    pub align: Seq<LNodeId>,
    pub od: Seq<bool>,
    pub r: int,
}

/// Every entry of `s` is a node with an id below `n`.
pub open spec fn all_known(a: &LGraphArena, n: nat, s: Seq<LNodeId>) -> bool {
    forall|i: int| 0 <= i < s.len() ==> known(a, n, #[trigger] s[i])
}

/// Each node of `vs` in turn starts a block of its own.
pub open spec fn init_nodes(a: &LGraphArena, vs: Seq<LNodeId>, root: Seq<LNodeId>, align: Seq<LNodeId>) -> (Seq<LNodeId>, Seq<LNodeId>)
    decreases vs.len(),
{
    if vs.len() == 0 {
        (root, align)
    } else {
        let p = init_nodes(a, vs.drop_last(), root, align);
        let v = vs.last();
        (p.0.update(gid(a, v), v), p.1.update(gid(a, v), v))
    }
}

/// The nodes of the first `l` layers of graph `g`, layer by layer, each
/// start a block of their own.
pub open spec fn init_layers(a: &LGraphArena, g: int, l: nat, root: Seq<LNodeId>, align: Seq<LNodeId>) -> (Seq<LNodeId>, Seq<LNodeId>)
    decreases l,
{
    if l == 0 {
        (root, align)
    } else {
        let p = init_layers(a, g, (l - 1) as nat, root, align);
        init_nodes(a, layer_nodes(a, g, l - 1), p.0, p.1)
    }
}

/// Tries to align node `v` with its `m`-th neighbour: where `v` still ends
/// its block, the connecting edge is not marked and the neighbour lies
/// beyond the last aligned one (above it when aligning upwards), the
/// neighbour's block takes `v` in, and the block stays all long-edge
/// dummies only if `v` is one.
pub open spec fn try_align(
    a: &LGraphArena,
    ni: &Neighborhood,
    h_left: bool,
    v_up: bool,
    marked: Seq<LEdgeId>,
    v: LNodeId,
    m: int,
    s: AlignState,
) -> AlignState {
    let vid = gid(a, v);
    let (u, e) = ni.neighbors(h_left, vid)[m];
    let ui = ni.node_index@[gid(a, u)] as int;
    if s.align[vid] == v && !marked.contains(e) && (if v_up {
        s.r > ui
    } else {
        s.r < ui
    }) {
        let umid = gid(a, u);
        let rootv = s.root[umid];
        let rid = gid(a, rootv);
        AlignState {
            root: s.root.update(vid, rootv),
            align: s.align.update(umid, v).update(vid, rootv),
            od: s.od.update(rid, s.od[rid] && a.nodes@[v.0 as int].node_type == NodeType::LongEdge),
            r: ui,
        }
    } else {
        s
    }
}

/// Aligns node `v` with its median neighbours: with `d` neighbours, those
/// at `(d + 1) / 2 - 1` and `d / 2` (one when `d` is odd), lower first, or
/// upper first when aligning upwards.
pub open spec fn align_node(
    a: &LGraphArena,
    ni: &Neighborhood,
    h_left: bool,
    v_up: bool,
    marked: Seq<LEdgeId>,
    v: LNodeId,
    s: AlignState,
) -> AlignState {
    let d = ni.neighbors(h_left, gid(a, v)).len() as int;
    let low = (d - 1) / 2;
    let high = d / 2;
    if d == 0 {
        s
    } else if v_up {
        let s1 = try_align(a, ni, h_left, v_up, marked, v, high, s);
        if low < high {
            try_align(a, ni, h_left, v_up, marked, v, low, s1)
        } else {
            s1
        }
    } else {
        let s1 = try_align(a, ni, h_left, v_up, marked, v, low, s);
        if low < high {
            try_align(a, ni, h_left, v_up, marked, v, high, s1)
        } else {
            s1
        }
    }
}

/// Aligns the nodes of `vs` in turn.
pub open spec fn align_nodes(
    a: &LGraphArena,
    ni: &Neighborhood,
    h_left: bool,
    v_up: bool,
    marked: Seq<LEdgeId>,
    vs: Seq<LNodeId>,
    s: AlignState,
) -> AlignState
    decreases vs.len(),
{
    if vs.len() == 0 {
        s
    } else {
        align_node(a, ni, h_left, v_up, marked, vs.last(), align_nodes(a, ni, h_left, v_up, marked, vs.drop_last(), s))
    }
}

/// The layer handled `t`-th: from the last one when aligning leftwards.
pub open spec fn layer_at(count: int, h_left: bool, t: int) -> int {
    if h_left {
        count - 1 - t
    } else {
        t
    }
}

/// The nodes of a layer in the order they are aligned: bottom-up when
/// aligning upwards.
pub open spec fn sweep_order(vs: Seq<LNodeId>, v_up: bool) -> Seq<LNodeId> {
    if v_up {
        vs.reverse()
    } else {
        vs
    }
}

/// Aligns the layers handled first, `t` of them, each from a fresh last
/// position (-1, or the largest `i64` when aligning upwards).
pub open spec fn align_layers(
    a: &LGraphArena,
    g: int,
    ni: &Neighborhood,
    h_left: bool,
    v_up: bool,
    marked: Seq<LEdgeId>,
    t: nat,
    s: AlignState,
) -> AlignState
    decreases t,
{
    if t == 0 {
        s
    } else {
        let prev = align_layers(a, g, ni, h_left, v_up, marked, (t - 1) as nat, s);
        let li = layer_at(a.graphs@[g].layers@.len() as int, h_left, t - 1);
        let start = AlignState { r: if v_up { i64::MAX as int } else { -1 }, ..prev };
        align_nodes(a, ni, h_left, v_up, marked, sweep_order(layer_nodes(a, g, li), v_up), start)
    }
}

/// The blocks vertical alignment makes of graph `g`, starting from the
/// given root, align and flag arrays.
pub open spec fn bk_aligned(
    a: &LGraphArena,
    g: int,
    ni: &Neighborhood,
    v_up: bool,
    h_left: bool,
    marked: Seq<LEdgeId>,
    root: Seq<LNodeId>,
    align: Seq<LNodeId>,
    od: Seq<bool>,
) -> (Seq<LNodeId>, Seq<LNodeId>, Seq<bool>) {
    let count = a.graphs@[g].layers@.len();
    let init = init_layers(a, g, count, root, align);
    let s = align_layers(a, g, ni, h_left, v_up, marked, count, AlignState { root: init.0, align: init.1, od, r: 0 });
    (s.root, s.align, s.od)
}

/// Every edge towards the side aligned to is marked.
pub open spec fn all_marked(ni: &Neighborhood, h_left: bool, marked: Seq<LEdgeId>) -> bool {
    forall|i: int, m: int| 0 <= m < ni.neighbors(h_left, i).len() ==> marked.contains(#[trigger] ni.neighbors(h_left, i)[m].1)
}

proof fn lemma_align_nodes_all_marked(
    a: &LGraphArena,
    ni: &Neighborhood,
    h_left: bool,
    v_up: bool,
    marked: Seq<LEdgeId>,
    vs: Seq<LNodeId>,
    s: AlignState,
)
    requires
        all_marked(ni, h_left, marked),
    ensures
        align_nodes(a, ni, h_left, v_up, marked, vs, s) == s,
    decreases vs.len(),
{
    if vs.len() > 0 {
        lemma_align_nodes_all_marked(a, ni, h_left, v_up, marked, vs.drop_last(), s);
        let v = vs.last();
        let d = ni.neighbors(h_left, gid(a, v)).len() as int;
        if d > 0 {
            assert(marked.contains(ni.neighbors(h_left, gid(a, v))[(d - 1) / 2].1));
            assert(marked.contains(ni.neighbors(h_left, gid(a, v))[d / 2].1));
        }
    }
}

proof fn lemma_align_layers_all_marked(
    a: &LGraphArena,
    g: int,
    ni: &Neighborhood,
    h_left: bool,
    v_up: bool,
    marked: Seq<LEdgeId>,
    t: nat,
    s: AlignState,
)
    requires
        all_marked(ni, h_left, marked),
    ensures
        align_layers(a, g, ni, h_left, v_up, marked, t, s).root == s.root,
        align_layers(a, g, ni, h_left, v_up, marked, t, s).align == s.align,
        align_layers(a, g, ni, h_left, v_up, marked, t, s).od == s.od,
    decreases t,
{
    if t > 0 {
        lemma_align_layers_all_marked(a, g, ni, h_left, v_up, marked, (t - 1) as nat, s);
        let prev = align_layers(a, g, ni, h_left, v_up, marked, (t - 1) as nat, s);
        let li = layer_at(a.graphs@[g].layers@.len() as int, h_left, t - 1);
        let start = AlignState { r: if v_up { i64::MAX as int } else { -1 }, ..prev };
        lemma_align_nodes_all_marked(a, ni, h_left, v_up, marked, sweep_order(layer_nodes(a, g, li), v_up), start);
    }
}

/// Marked edges are never used to align: when every edge towards the side
/// aligned to is marked, each node stays a block of its own, and the
/// arrays are those of the first step, where every node of a layer starts
/// its own block.
pub proof fn lemma_marking_all_edges_aligns_nothing(
    a: &LGraphArena,
    g: int,
    ni: &Neighborhood,
    v_up: bool,
    h_left: bool,
    marked: Seq<LEdgeId>,
    root: Seq<LNodeId>,
    align: Seq<LNodeId>,
    od: Seq<bool>,
)
    requires
        all_marked(ni, h_left, marked),
    ensures
        bk_aligned(a, g, ni, v_up, h_left, marked, root, align, od) == (
            init_layers(a, g, a.graphs@[g].layers@.len(), root, align).0,
            init_layers(a, g, a.graphs@[g].layers@.len(), root, align).1,
            od,
        ),
{
    let count = a.graphs@[g].layers@.len();
    let init = init_layers(a, g, count, root, align);
    lemma_align_layers_all_marked(
        a,
        g,
        ni,
        h_left,
        v_up,
        marked,
        count,
        AlignState { root: init.0, align: init.1, od, r: 0 },
    );
}

/// `m` is a median position among `d` neighbours: `(d - 1) / 2` or `d / 2`.
pub open spec fn is_median(d: int, m: int) -> bool {
    d > 0 && (m == (d - 1) / 2 || m == d / 2)
}

/// Every node id whose root differs from `root0` has a median neighbour
/// joined by an edge that is not marked.
pub open spec fn joined_unmarked(
    ni: &Neighborhood,
    h_left: bool,
    marked: Seq<LEdgeId>,
    root0: Seq<LNodeId>,
    root: Seq<LNodeId>,
) -> bool {
    &&& root.len() == root0.len()
    &&& forall|i: int|
        0 <= i < root.len() && root[i] != root0[i] ==> exists|m: int|
            is_median(ni.neighbors(h_left, i).len() as int, m) && !marked.contains(#[trigger] ni.neighbors(h_left, i)[m].1)
}

proof fn lemma_try_align_unmarked(
    a: &LGraphArena,
    ni: &Neighborhood,
    h_left: bool,
    v_up: bool,
    marked: Seq<LEdgeId>,
    v: LNodeId,
    m: int,
    s: AlignState,
    root0: Seq<LNodeId>,
)
    requires
        is_median(ni.neighbors(h_left, gid(a, v)).len() as int, m),
        0 <= gid(a, v) < s.root.len(),
        joined_unmarked(ni, h_left, marked, root0, s.root),
    ensures
        joined_unmarked(ni, h_left, marked, root0, try_align(a, ni, h_left, v_up, marked, v, m, s).root),
{
    let t = try_align(a, ni, h_left, v_up, marked, v, m, s);
    let vid = gid(a, v);
    let (u, e) = ni.neighbors(h_left, vid)[m];
    let ui = ni.node_index@[gid(a, u)] as int;
    let fires = s.align[vid] == v && !marked.contains(e) && (if v_up {
        s.r > ui
    } else {
        s.r < ui
    });
    assert(t.root.len() == s.root.len());
    assert forall|i: int| 0 <= i < t.root.len() && t.root[i] != root0[i] implies exists|m2: int|
        is_median(ni.neighbors(h_left, i).len() as int, m2) && !marked.contains(#[trigger] ni.neighbors(h_left, i)[m2].1) by {
        if fires && i == vid {
            assert(!marked.contains(ni.neighbors(h_left, i)[m].1));
        } else {
            assert(t.root[i] == s.root[i]);
            assert(s.root[i] != root0[i]);
        }
    }
}

proof fn lemma_align_nodes_unmarked(
    a: &LGraphArena,
    ni: &Neighborhood,
    h_left: bool,
    v_up: bool,
    marked: Seq<LEdgeId>,
    vs: Seq<LNodeId>,
    s: AlignState,
    root0: Seq<LNodeId>,
)
    requires
        joined_unmarked(ni, h_left, marked, root0, s.root),
        forall|i: int| 0 <= i < vs.len() ==> 0 <= gid(a, #[trigger] vs[i]) < s.root.len(),
    ensures
        joined_unmarked(ni, h_left, marked, root0, align_nodes(a, ni, h_left, v_up, marked, vs, s).root),
    decreases vs.len(),
{
    if vs.len() > 0 {
        assert forall|i: int| 0 <= i < vs.drop_last().len() implies 0 <= gid(a, #[trigger] vs.drop_last()[i]) < s.root.len() by {
            assert(vs.drop_last()[i] == vs[i]);
        }
        assert(vs.last() == vs[vs.len() - 1]);
        lemma_align_nodes_unmarked(a, ni, h_left, v_up, marked, vs.drop_last(), s, root0);
        let p = align_nodes(a, ni, h_left, v_up, marked, vs.drop_last(), s);
        let v = vs.last();
        let d = ni.neighbors(h_left, gid(a, v)).len() as int;
        let low = (d - 1) / 2;
        let high = d / 2;
        if d > 0 {
            if v_up {
                lemma_try_align_unmarked(a, ni, h_left, v_up, marked, v, high, p, root0);
                let s1 = try_align(a, ni, h_left, v_up, marked, v, high, p);
                lemma_try_align_unmarked(a, ni, h_left, v_up, marked, v, low, s1, root0);
            } else {
                lemma_try_align_unmarked(a, ni, h_left, v_up, marked, v, low, p, root0);
                let s1 = try_align(a, ni, h_left, v_up, marked, v, low, p);
                lemma_try_align_unmarked(a, ni, h_left, v_up, marked, v, high, s1, root0);
            }
        }
    }
}

proof fn lemma_align_layers_unmarked(
    a: &LGraphArena,
    g: int,
    ni: &Neighborhood,
    h_left: bool,
    v_up: bool,
    marked: Seq<LEdgeId>,
    t: nat,
    s: AlignState,
)
    requires
        ni.wf_for(a, g),
        s.root.len() == ni.node_count(),
        t <= a.graphs@[g].layers@.len(),
    ensures
        joined_unmarked(ni, h_left, marked, s.root, align_layers(a, g, ni, h_left, v_up, marked, t, s).root),
    decreases t,
{
    if t == 0 {
        assert(joined_unmarked(ni, h_left, marked, s.root, s.root));
    } else {
        lemma_align_layers_unmarked(a, g, ni, h_left, v_up, marked, (t - 1) as nat, s);
        let prev = align_layers(a, g, ni, h_left, v_up, marked, (t - 1) as nat, s);
        let count = a.graphs@[g].layers@.len() as int;
        let li = layer_at(count, h_left, t - 1);
        let start = AlignState { r: if v_up { i64::MAX as int } else { -1 }, ..prev };
        let vs = layer_nodes(a, g, li);
        let order = sweep_order(vs, v_up);
        assert forall|i: int| 0 <= i < order.len() implies 0 <= gid(a, #[trigger] order[i]) < start.root.len() by {
            if v_up {
                assert(order[i] == vs[vs.len() - 1 - i]);
                assert(known(a, ni.node_count(), vs[vs.len() - 1 - i]));
            } else {
                assert(known(a, ni.node_count(), vs[i]));
            }
        }
        lemma_align_nodes_unmarked(a, ni, h_left, v_up, marked, order, start, s.root);
    }
}

proof fn lemma_init_nodes_len(a: &LGraphArena, n: nat, vs: Seq<LNodeId>, root: Seq<LNodeId>, align: Seq<LNodeId>)
    requires
        root.len() == n,
        forall|i: int| 0 <= i < vs.len() ==> known(a, n, #[trigger] vs[i]),
    ensures
        init_nodes(a, vs, root, align).0.len() == n,
    decreases vs.len(),
{
    if vs.len() > 0 {
        assert forall|i: int| 0 <= i < vs.drop_last().len() implies known(a, n, #[trigger] vs.drop_last()[i]) by {
            assert(vs.drop_last()[i] == vs[i]);
        }
        assert(known(a, n, vs[vs.len() - 1]));
        lemma_init_nodes_len(a, n, vs.drop_last(), root, align);
    }
}

proof fn lemma_init_layers_len(a: &LGraphArena, g: int, ni: &Neighborhood, l: nat, root: Seq<LNodeId>, align: Seq<LNodeId>)
    requires
        ni.wf_for(a, g),
        root.len() == ni.node_count(),
        l <= a.graphs@[g].layers@.len(),
    ensures
        init_layers(a, g, l, root, align).0.len() == ni.node_count(),
    decreases l,
{
    if l > 0 {
        lemma_init_layers_len(a, g, ni, (l - 1) as nat, root, align);
        let p = init_layers(a, g, (l - 1) as nat, root, align);
        let vs = layer_nodes(a, g, l - 1);
        assert forall|i: int| 0 <= i < vs.len() implies known(a, ni.node_count(), #[trigger] vs[i]) by {
            assert(known(a, ni.node_count(), layer_nodes(a, g, l - 1)[i]));
        }
        lemma_init_nodes_len(a, ni.node_count(), vs, p.0, p.1);
    }
}

/// Marked edges are never used to align, and blocks grow only through
/// median neighbours: every node whose block root differs, after the
/// alignment, from the one it started with (itself, once every node of a
/// layer starts its own block) has a median neighbour, at `(d - 1) / 2`
/// or `d / 2` among its `d` neighbours on the side aligned to, joined by
/// an edge that is not marked.
pub proof fn lemma_blocks_grow_over_unmarked_medians(
    a: &LGraphArena,
    g: int,
    ni: &Neighborhood,
    v_up: bool,
    h_left: bool,
    marked: Seq<LEdgeId>,
    root: Seq<LNodeId>,
    align: Seq<LNodeId>,
    od: Seq<bool>,
)
    requires
        ni.wf_for(a, g),
        root.len() == ni.node_count(),
        align.len() == ni.node_count(),
    ensures
        joined_unmarked(
            ni,
            h_left,
            marked,
            init_layers(a, g, a.graphs@[g].layers@.len(), root, align).0,
            bk_aligned(a, g, ni, v_up, h_left, marked, root, align, od).0,
        ),
{
    let count = a.graphs@[g].layers@.len();
    let init = init_layers(a, g, count, root, align);
    lemma_init_layers_len(a, g, ni, count, root, align);
    lemma_align_layers_unmarked(a, g, ni, h_left, v_up, marked, count, AlignState { root: init.0, align: init.1, od, r: 0 });
}

/// No node of `all` has the id `x`.
pub open spec fn not_an_id(a: &LGraphArena, all: Seq<LNodeId>, x: int) -> bool {
    forall|k: int| 0 <= k < all.len() ==> gid(a, #[trigger] all[k]) != x
}

/// What aligning the layer `all` (in sweep order) from state `s0` needs:
/// the nodes have distinct ids below the number of ids, their neighbours
/// on the side aligned to lie outside the layer, and an entry of `align`
/// holds a node of the layer only at that node's own id.
pub open spec fn sweepable_layer(a: &LGraphArena, ni: &Neighborhood, h_left: bool, all: Seq<LNodeId>, s0: AlignState) -> bool {
    &&& ni.fits(a)
    &&& s0.align.len() == ni.node_count()
    &&& s0.root.len() == ni.node_count()
    &&& forall|k: int| 0 <= k < all.len() ==> known(a, ni.node_count(), #[trigger] all[k])
    &&& forall|k1: int, k2: int|
        0 <= k1 < all.len() && 0 <= k2 < all.len() && k1 != k2 ==> gid(a, #[trigger] all[k1]) != gid(a, #[trigger] all[k2])
    &&& forall|k: int, m: int|
        0 <= k < all.len() && 0 <= m < ni.neighbors(h_left, gid(a, all[k])).len() ==> not_an_id(
            a,
            all,
            gid(a, (#[trigger] ni.neighbors(h_left, gid(a, all[k]))[m]).0),
        )
    &&& forall|x: int, k: int|
        #![trigger s0.align[x], all[k]]
        0 <= x < ni.node_count() && 0 <= k < all.len() && s0.align[x] == all[k] ==> gid(a, all[k]) == x
}

/// Outside the layer, no entry of `align` holds a node of `all` from
/// position `k` on.
pub open spec fn unwritten_from(a: &LGraphArena, ni: &Neighborhood, all: Seq<LNodeId>, s: AlignState, k: int) -> bool {
    forall|x: int, j: int|
        #![trigger s.align[x], all[j]]
        0 <= x < ni.node_count() && not_an_id(a, all, x) && k <= j < all.len() ==> s.align[x] != all[j]
}

/// Outside the layer, every entry of `align` holding one of the first `k`
/// nodes of `all` is at a position not beyond the last aligned one.
pub open spec fn written_behind(a: &LGraphArena, ni: &Neighborhood, v_up: bool, all: Seq<LNodeId>, s: AlignState, k: int) -> bool {
    forall|x: int, i: int|
        #![trigger s.align[x], all[i]]
        0 <= x < ni.node_count() && not_an_id(a, all, x) && 0 <= i < k && s.align[x] == all[i] ==> if v_up {
            ni.node_index@[x] >= s.r
        } else {
            ni.node_index@[x] <= s.r
        }
}

/// Outside the layer, the entries of `align` holding the first `k` nodes
/// of `all` are in their order: a node aligned later has its neighbour
/// further down (further up when aligning upwards).
pub open spec fn uncrossed(a: &LGraphArena, ni: &Neighborhood, v_up: bool, all: Seq<LNodeId>, s: AlignState, k: int) -> bool {
    forall|x: int, y: int, i: int, j: int|
        #![trigger s.align[x], s.align[y], all[i], all[j]]
        0 <= x < ni.node_count() && 0 <= y < ni.node_count() && not_an_id(a, all, x) && not_an_id(a, all, y) && 0 <= i < j
            < k && s.align[x] == all[i] && s.align[y] == all[j] ==> if v_up {
            ni.node_index@[x] > ni.node_index@[y]
        } else {
            ni.node_index@[x] < ni.node_index@[y]
        }
}

/// Each of the first `k` nodes of `all` whose root differs from the one
/// in `s0` sits in the `align` entry of a median neighbour, joined by an
/// edge that is not marked.
pub open spec fn joined_median(
    a: &LGraphArena,
    ni: &Neighborhood,
    h_left: bool,
    marked: Seq<LEdgeId>,
    all: Seq<LNodeId>,
    s0: AlignState,
    s: AlignState,
    k: int,
) -> bool {
    forall|i: int|
        0 <= i < k && s.root[gid(a, #[trigger] all[i])] != s0.root[gid(a, all[i])] ==> exists|m: int|
            #![trigger ni.neighbors(h_left, gid(a, all[i]))[m]]
            is_median(ni.neighbors(h_left, gid(a, all[i])).len() as int, m) && !marked.contains(
                ni.neighbors(h_left, gid(a, all[i]))[m].1,
            ) && s.align[gid(a, ni.neighbors(h_left, gid(a, all[i]))[m].0)] == all[i]
}

/// The nodes of `all` from position `k` on keep their roots from `s0`.
pub open spec fn roots_kept_from(a: &LGraphArena, all: Seq<LNodeId>, s0: AlignState, s: AlignState, k: int) -> bool {
    forall|i: int| k <= i < all.len() ==> s.root[gid(a, #[trigger] all[i])] == s0.root[gid(a, all[i])]
}

proof fn lemma_try_align_uncrossed(
    a: &LGraphArena,
    ni: &Neighborhood,
    h_left: bool,
    v_up: bool,
    marked: Seq<LEdgeId>,
    all: Seq<LNodeId>,
    s0: AlignState,
    k: int,
    m: int,
    t: AlignState,
)
    requires
        sweepable_layer(a, ni, h_left, all, s0),
        0 <= k < all.len(),
        is_median(ni.neighbors(h_left, gid(a, all[k])).len() as int, m),
        t.align.len() == ni.node_count(),
        t.root.len() == ni.node_count(),
        unwritten_from(a, ni, all, t, k + 1),
        written_behind(a, ni, v_up, all, t, k + 1),
        uncrossed(a, ni, v_up, all, t, k + 1),
        joined_median(a, ni, h_left, marked, all, s0, t, k + 1),
        roots_kept_from(a, all, s0, t, k + 1),
    ensures
        ({
            let t2 = try_align(a, ni, h_left, v_up, marked, all[k], m, t);
            &&& t2.align.len() == ni.node_count()
            &&& t2.root.len() == ni.node_count()
            &&& unwritten_from(a, ni, all, t2, k + 1)
            &&& written_behind(a, ni, v_up, all, t2, k + 1)
            &&& uncrossed(a, ni, v_up, all, t2, k + 1)
            &&& joined_median(a, ni, h_left, marked, all, s0, t2, k + 1)
            &&& roots_kept_from(a, all, s0, t2, k + 1)
        }),
{
    let v = all[k];
    let t2 = try_align(a, ni, h_left, v_up, marked, v, m, t);
    let vid = gid(a, v);
    assert(known(a, ni.node_count(), all[k]));
    let (u, e) = ni.neighbors(h_left, vid)[m];
    let ui = ni.node_index@[gid(a, u)] as int;
    let fires = t.align[vid] == v && !marked.contains(e) && (if v_up {
        t.r > ui
    } else {
        t.r < ui
    });
    if fires {
        let umid = gid(a, u);
        assert(not_an_id(a, all, umid));
        assert(known(a, ni.node_count(), u)) by {
            if h_left {
                assert(known(a, ni.node_count(), ni.right_neighbors@[vid]@[m].0));
            } else {
                assert(known(a, ni.node_count(), ni.left_neighbors@[vid]@[m].0));
            }
        }
        assert(umid != vid);
        assert forall|x: int| 0 <= x < ni.node_count() && not_an_id(a, all, x) implies t2.align[x] == (if x == umid {
            v
        } else {
            t.align[x]
        }) by {
            assert(gid(a, all[k]) != x);
        }
        assert forall|x: int, j: int|
            #![trigger t2.align[x], all[j]]
            0 <= x < ni.node_count() && not_an_id(a, all, x) && k + 1 <= j < all.len() implies t2.align[x] != all[j] by {
            if x == umid {
                assert(gid(a, all[j]) != gid(a, all[k]));
            } else {
                assert(t.align[x] != all[j]);
            }
        }
        assert forall|x: int, i: int|
            #![trigger t2.align[x], all[i]]
            0 <= x < ni.node_count() && not_an_id(a, all, x) && 0 <= i < k + 1 && t2.align[x] == all[i] implies if v_up {
            ni.node_index@[x] >= t2.r
        } else {
            ni.node_index@[x] <= t2.r
        } by {
            if x != umid {
                assert(t.align[x] == all[i]);
            }
        }
        assert forall|x: int, y: int, i: int, j: int|
            #![trigger t2.align[x], t2.align[y], all[i], all[j]]
            0 <= x < ni.node_count() && 0 <= y < ni.node_count() && not_an_id(a, all, x) && not_an_id(a, all, y) && 0 <= i
                < j < k + 1 && t2.align[x] == all[i] && t2.align[y] == all[j] implies if v_up {
            ni.node_index@[x] > ni.node_index@[y]
        } else {
            ni.node_index@[x] < ni.node_index@[y]
        } by {
            if x == umid {
                assert(gid(a, all[i]) != gid(a, all[k]));
            } else if y == umid {
                if j != k {
                    assert(gid(a, all[j]) != gid(a, all[k]));
                }
                assert(t.align[x] == all[i]);
            } else {
                assert(t.align[x] == all[i] && t.align[y] == all[j]);
            }
        }
        assert forall|i: int| k + 1 <= i < all.len() implies t2.root[gid(a, #[trigger] all[i])] == s0.root[gid(a, all[i])] by {
            assert(gid(a, all[i]) != gid(a, all[k]));
            assert(known(a, ni.node_count(), all[i]));
        }
        assert forall|i: int|
            0 <= i < k + 1 && t2.root[gid(a, #[trigger] all[i])] != s0.root[gid(a, all[i])] implies exists|m2: int|
            #![trigger ni.neighbors(h_left, gid(a, all[i]))[m2]]
            is_median(ni.neighbors(h_left, gid(a, all[i])).len() as int, m2) && !marked.contains(
                ni.neighbors(h_left, gid(a, all[i]))[m2].1,
            ) && t2.align[gid(a, ni.neighbors(h_left, gid(a, all[i]))[m2].0)] == all[i] by {
            if i == k {
                assert(ni.neighbors(h_left, gid(a, all[i]))[m] == (u, e));
                assert(t2.align[umid] == all[k]);
            } else {
                assert(known(a, ni.node_count(), all[i]));
                assert(gid(a, all[i]) != gid(a, all[k]));
                assert(t.root[gid(a, all[i])] == t2.root[gid(a, all[i])]);
                let m2 = choose|m2: int|
                    #![trigger ni.neighbors(h_left, gid(a, all[i]))[m2]]
                    is_median(ni.neighbors(h_left, gid(a, all[i])).len() as int, m2) && !marked.contains(
                        ni.neighbors(h_left, gid(a, all[i]))[m2].1,
                    ) && t.align[gid(a, ni.neighbors(h_left, gid(a, all[i]))[m2].0)] == all[i];
                let x2 = gid(a, ni.neighbors(h_left, gid(a, all[i]))[m2].0);
                assert(not_an_id(a, all, x2));
                assert(known(a, ni.node_count(), ni.neighbors(h_left, gid(a, all[i]))[m2].0)) by {
                    if h_left {
                        assert(known(a, ni.node_count(), ni.right_neighbors@[gid(a, all[i])]@[m2].0));
                    } else {
                        assert(known(a, ni.node_count(), ni.left_neighbors@[gid(a, all[i])]@[m2].0));
                    }
                }
                assert(t.align[x2] == all[i]);
                assert(x2 != umid);
                assert(t2.align[x2] == all[i]);
            }
        }
    }
}

proof fn lemma_layer_uncrossed(
    a: &LGraphArena,
    ni: &Neighborhood,
    h_left: bool,
    v_up: bool,
    marked: Seq<LEdgeId>,
    all: Seq<LNodeId>,
    s0: AlignState,
    k: int,
)
    requires
        sweepable_layer(a, ni, h_left, all, s0),
        0 <= k <= all.len(),
    ensures
        ({
            let s = align_nodes(a, ni, h_left, v_up, marked, all.take(k), s0);
            &&& s.align.len() == ni.node_count()
            &&& s.root.len() == ni.node_count()
            &&& unwritten_from(a, ni, all, s, k)
            &&& written_behind(a, ni, v_up, all, s, k)
            &&& uncrossed(a, ni, v_up, all, s, k)
            &&& joined_median(a, ni, h_left, marked, all, s0, s, k)
            &&& roots_kept_from(a, all, s0, s, k)
        }),
    decreases k,
{
    if k == 0 {
        assert(all.take(0) =~= Seq::<LNodeId>::empty());
        assert forall|x: int, j: int|
            #![trigger s0.align[x], all[j]]
            0 <= x < ni.node_count() && not_an_id(a, all, x) && 0 <= j < all.len() implies s0.align[x] != all[j] by {
            if s0.align[x] == all[j] {
                assert(gid(a, all[j]) == x);
            }
        }
    } else {
        lemma_layer_uncrossed(a, ni, h_left, v_up, marked, all, s0, k - 1);
        let t = align_nodes(a, ni, h_left, v_up, marked, all.take(k - 1), s0);
        assert(all.take(k).drop_last() =~= all.take(k - 1));
        assert(all.take(k).last() == all[k - 1]);
        let v = all[k - 1];
        assert forall|x: int, i: int|
            #![trigger t.align[x], all[i]]
            0 <= x < ni.node_count() && not_an_id(a, all, x) && 0 <= i < k && t.align[x] == all[i] implies if v_up {
            ni.node_index@[x] >= t.r
        } else {
            ni.node_index@[x] <= t.r
        } by {
            if i == k - 1 {
                assert(t.align[x] != all[k - 1]);
            }
        }
        assert forall|x: int, y: int, i: int, j: int|
            #![trigger t.align[x], t.align[y], all[i], all[j]]
            0 <= x < ni.node_count() && 0 <= y < ni.node_count() && not_an_id(a, all, x) && not_an_id(a, all, y) && 0 <= i
                < j < k && t.align[x] == all[i] && t.align[y] == all[j] implies if v_up {
            ni.node_index@[x] > ni.node_index@[y]
        } else {
            ni.node_index@[x] < ni.node_index@[y]
        } by {
            if j == k - 1 {
                assert(t.align[y] != all[k - 1]);
            }
        }
        assert forall|i: int|
            0 <= i < k && t.root[gid(a, #[trigger] all[i])] != s0.root[gid(a, all[i])] implies exists|m2: int|
            #![trigger ni.neighbors(h_left, gid(a, all[i]))[m2]]
            is_median(ni.neighbors(h_left, gid(a, all[i])).len() as int, m2) && !marked.contains(
                ni.neighbors(h_left, gid(a, all[i]))[m2].1,
            ) && t.align[gid(a, ni.neighbors(h_left, gid(a, all[i]))[m2].0)] == all[i] by {
            if i == k - 1 {
                assert(t.root[gid(a, all[k - 1])] == s0.root[gid(a, all[k - 1])]);
            }
        }
        let d = ni.neighbors(h_left, gid(a, v)).len() as int;
        let low = (d - 1) / 2;
        let high = d / 2;
        if d > 0 {
            if v_up {
                lemma_try_align_uncrossed(a, ni, h_left, v_up, marked, all, s0, k - 1, high, t);
                let s1 = try_align(a, ni, h_left, v_up, marked, v, high, t);
                if low < high {
                    lemma_try_align_uncrossed(a, ni, h_left, v_up, marked, all, s0, k - 1, low, s1);
                }
            } else {
                lemma_try_align_uncrossed(a, ni, h_left, v_up, marked, all, s0, k - 1, low, t);
                let s1 = try_align(a, ni, h_left, v_up, marked, v, low, t);
                if low < high {
                    lemma_try_align_uncrossed(a, ni, h_left, v_up, marked, all, s0, k - 1, high, s1);
                }
            }
        }
    }
}

/// Aligned blocks never cross. Aligning the nodes of a layer in sweep
/// order (`all`), each node that joins a block puts itself in the `align`
/// entry of the neighbour it joins; for nodes `all[i]` before `all[j]` in
/// the sweep that joined neighbours with ids `x` and `y`, the neighbour
/// of the earlier node lies strictly above the other in the neighbouring
/// layer (strictly below when aligning upwards). So two nodes above one
/// another in a layer are never joined to neighbours in the opposite
/// order. And each node whose root changed joined a median neighbour over
/// an edge that is not marked, and sits in that neighbour's `align` entry.
pub proof fn lemma_aligned_blocks_do_not_cross(
    a: &LGraphArena,
    ni: &Neighborhood,
    h_left: bool,
    v_up: bool,
    marked: Seq<LEdgeId>,
    all: Seq<LNodeId>,
    s0: AlignState,
)
    requires
        sweepable_layer(a, ni, h_left, all, s0),
    ensures
        forall|x: int, y: int, i: int, j: int|
            #![trigger align_nodes(a, ni, h_left, v_up, marked, all, s0).align[x], align_nodes(a, ni, h_left, v_up, marked, all, s0).align[y], all[i], all[j]]
            0 <= x < ni.node_count() && 0 <= y < ni.node_count() && not_an_id(a, all, x) && not_an_id(a, all, y) && 0 <= i
                < j < all.len() && align_nodes(a, ni, h_left, v_up, marked, all, s0).align[x] == all[i] && align_nodes(
                a,
                ni,
                h_left,
                v_up,
                marked,
                all,
                s0,
            ).align[y] == all[j] ==> if v_up {
                ni.node_index@[x] > ni.node_index@[y]
            } else {
                ni.node_index@[x] < ni.node_index@[y]
            },
        joined_median(a, ni, h_left, marked, all, s0, align_nodes(a, ni, h_left, v_up, marked, all, s0), all.len() as int),
{
    lemma_layer_uncrossed(a, ni, h_left, v_up, marked, all, s0, all.len() as int);
    assert(all.take(all.len() as int) =~= all);
}

/// Whether `e` is in `marked`.
fn edge_marked(marked: &Vec<LEdgeId>, e: LEdgeId) -> (r: bool)
    ensures
        r == marked@.contains(e),
{
    let mut i: usize = 0;
    while i < marked.len()
        invariant
            i <= marked@.len(),
            forall|k: int| 0 <= k < i ==> marked@[k] != e,
        decreases marked@.len() - i,
    {
        if marked[i] == e {
            proof {
                assert(marked@[i as int] == e);
            }
            return true;
        }
        i += 1;
    }
    false
}

/// The state of `bal` and `r` as an alignment state.
pub open spec fn state_of(bal: &BkAlignment, r: i64) -> AlignState {
    AlignState { root: bal.root@, align: bal.align@, od: bal.od@, r: r as int }
}

/// The blocks are as wide as the ids, and hold nodes with ids.
pub open spec fn blocks_fit(a: &LGraphArena, n: nat, bal: &BkAlignment) -> bool {
    &&& bal.root@.len() == n
    &&& bal.align@.len() == n
    &&& bal.od@.len() == n
    &&& all_known(a, n, bal.root@)
    &&& all_known(a, n, bal.align@)
}

/// One try of `try_align`.
fn try_align_at(
    arena: &LGraphArena,
    ni: &Neighborhood,
    h_left: bool,
    v_up: bool,
    marked: &Vec<LEdgeId>,
    v: LNodeId,
    m: usize,
    bal: &mut BkAlignment,
    r: &mut i64,
)
    requires
        ni.fits(arena),
        known(arena, ni.node_count(), v),
        m < ni.neighbors(h_left, gid(arena, v)).len(),
        blocks_fit(arena, ni.node_count(), old(bal)),
    ensures
        blocks_fit(arena, ni.node_count(), final(bal)),
        state_of(final(bal), *final(r)) == try_align(arena, ni, h_left, v_up, marked@, v, m as int, state_of(old(bal), *old(r))),
{
    let ghost n = ni.node_count();
    let vid = arena.nodes[v.0].id;
    let (u, e) = if h_left {
        ni.right_neighbors[vid][m]
    } else {
        ni.left_neighbors[vid][m]
    };
    proof {
        assert(known(arena, n, ni.neighbors(h_left, vid as int)[m as int].0));
    }
    let umid = arena.nodes[u.0].id;
    let ui = ni.node_index[umid] as i64;
    if bal.align[vid] == v && !edge_marked(marked, e) && (if v_up {
        *r > ui
    } else {
        *r < ui
    }) {
        let rootv = bal.root[umid];
        proof {
            assert(known(arena, n, bal.root@[umid as int]));
        }
        let rid = arena.nodes[rootv.0].id;
        bal.align.set(umid, v);
        bal.root.set(vid, rootv);
        bal.align.set(vid, rootv);
        let flag = bal.od[rid] && arena.nodes[v.0].node_type == NodeType::LongEdge;
        bal.od.set(rid, flag);
        *r = ui;
        proof {
            assert forall|i: int| 0 <= i < bal.root@.len() implies known(arena, n, #[trigger] bal.root@[i]) by {
                if i != vid {
                    assert(bal.root@[i] == old(bal).root@[i]);
                }
            }
            assert forall|i: int| 0 <= i < bal.align@.len() implies known(arena, n, #[trigger] bal.align@[i]) by {
                if i != vid && i != umid {
                    assert(bal.align@[i] == old(bal).align@[i]);
                }
            }
        }
    }
}

/// Brandes-Köpf vertical alignment of graph `graph`: every node of a
/// layer first forms a block of its own; then, layer by layer (from the
/// last one when `h_left`) and within each layer node by node (from the
/// bottom when `v_up`), each node joins the block of a median neighbour
/// in the layer handled before (right neighbours when `h_left`, left ones
/// otherwise) when the connecting edge is not marked and the neighbour
/// lies beyond the last one aligned in that layer, so that blocks do not
/// cross.
pub fn vertical_alignment(
    arena: &LGraphArena,
    graph: LGraphId,
    ni: &Neighborhood,
    v_up: bool,
    h_left: bool,
    marked: &Vec<LEdgeId>,
    bal: &mut BkAlignment,
)
    requires
        arena.wf(),
        ni.wf_for(arena, graph.0 as int),
        blocks_fit(arena, ni.node_count(), old(bal)),
    ensures
        blocks_fit(arena, ni.node_count(), final(bal)),
        (final(bal).root@, final(bal).align@, final(bal).od@) == bk_aligned(
            arena,
            graph.0 as int,
            ni,
            v_up,
            h_left,
            marked@,
            old(bal).root@,
            old(bal).align@,
            old(bal).od@,
        ),
{
    let ghost g = graph.0 as int;
    let ghost n = ni.node_count();
    let count = arena.graphs[graph.0].layers.len();
    let mut l: usize = 0;
    while l < count
        invariant
            ni.wf_for(arena, g),
            n == ni.node_count(),
            g == graph.0,
            count == arena.graphs@[g].layers@.len(),
            l <= count,
            blocks_fit(arena, n, bal),
            bal.od@ == old(bal).od@,
            (bal.root@, bal.align@) == init_layers(arena, g, l as nat, old(bal).root@, old(bal).align@),
        decreases count - l,
    {
        let nodes = &arena.graphs[graph.0].layers[l].nodes;
        let ghost r0 = bal.root@;
        let ghost a0 = bal.align@;
        let mut k: usize = 0;
        while k < nodes.len()
            invariant
                ni.wf_for(arena, g),
                n == ni.node_count(),
                g == graph.0,
                l < count,
                count == arena.graphs@[g].layers@.len(),
                nodes@ == layer_nodes(arena, g, l as int),
                k <= nodes@.len(),
                blocks_fit(arena, n, bal),
                bal.od@ == old(bal).od@,
                (bal.root@, bal.align@) == init_nodes(arena, nodes@.take(k as int), r0, a0),
            decreases nodes@.len() - k,
        {
            let v = nodes[k];
            proof {
                assert(known(arena, n, layer_nodes(arena, g, l as int)[k as int]));
            }
            let id = arena.nodes[v.0].id;
            let ghost rb = bal.root@;
            let ghost ab = bal.align@;
            bal.root.set(id, v);
            bal.align.set(id, v);
            proof {
                assert(nodes@.take(k + 1).drop_last() =~= nodes@.take(k as int));
                assert forall|i: int| 0 <= i < bal.root@.len() implies known(arena, n, #[trigger] bal.root@[i]) by {
                    if i != id {
                        assert(bal.root@[i] == rb[i]);
                    }
                }
                assert forall|i: int| 0 <= i < bal.align@.len() implies known(arena, n, #[trigger] bal.align@[i]) by {
                    if i != id {
                        assert(bal.align@[i] == ab[i]);
                    }
                }
            }
            k += 1;
        }
        proof {
            assert(nodes@.take(nodes@.len() as int) =~= nodes@);
        }
        l += 1;
    }
    let ghost init = AlignState { root: bal.root@, align: bal.align@, od: bal.od@, r: 0 };
    let mut t: usize = 0;
    while t < count
        invariant
            ni.wf_for(arena, g),
            n == ni.node_count(),
            g == graph.0,
            count == arena.graphs@[g].layers@.len(),
            t <= count,
            blocks_fit(arena, n, bal),
            (bal.root@, bal.align@, bal.od@) == ({
                let s = align_layers(arena, g, ni, h_left, v_up, marked@, t as nat, init);
                (s.root, s.align, s.od)
            }),
        decreases count - t,
    {
        let li = if h_left {
            count - 1 - t
        } else {
            t
        };
        let nodes = &arena.graphs[graph.0].layers[li].nodes;
        let len = nodes.len();
        let mut r: i64 = if v_up {
            i64::MAX
        } else {
            -1
        };
        let ghost vs = sweep_order(nodes@, v_up);
        let ghost start = state_of(bal, r);
        proof {
            assert(li == layer_at(count as int, h_left, t as int));
            let prev = align_layers(arena, g, ni, h_left, v_up, marked@, t as nat, init);
            assert(start == AlignState { r: if v_up { i64::MAX as int } else { -1 }, ..prev });
        }
        let mut j: usize = 0;
        while j < len
            invariant
                ni.wf_for(arena, g),
                n == ni.node_count(),
                g == graph.0,
                count == arena.graphs@[g].layers@.len(),
                li < count,
                nodes@ == layer_nodes(arena, g, li as int),
                len == nodes@.len(),
                vs == sweep_order(nodes@, v_up),
                j <= len,
                blocks_fit(arena, n, bal),
                state_of(bal, r) == align_nodes(arena, ni, h_left, v_up, marked@, vs.take(j as int), start),
            decreases len - j,
        {
            let v = if v_up {
                nodes[len - 1 - j]
            } else {
                nodes[j]
            };
            proof {
                assert(vs[j as int] == v);
                assert(known(arena, n, layer_nodes(arena, g, li as int)[if v_up { len - 1 - j } else { j as int }]));
                assert(vs.take(j + 1).drop_last() =~= vs.take(j as int));
                assert(vs.take(j + 1).last() == v);
            }
            let vid = arena.nodes[v.0].id;
            let d = if h_left {
                ni.right_neighbors[vid].len()
            } else {
                ni.left_neighbors[vid].len()
            };
            if d > 0 {
                let low = (d - 1) / 2;
                let high = d / 2;
                if v_up {
                    try_align_at(arena, ni, h_left, v_up, marked, v, high, bal, &mut r);
                    if low < high {
                        try_align_at(arena, ni, h_left, v_up, marked, v, low, bal, &mut r);
                    }
                } else {
                    try_align_at(arena, ni, h_left, v_up, marked, v, low, bal, &mut r);
                    if low < high {
                        try_align_at(arena, ni, h_left, v_up, marked, v, high, bal, &mut r);
                    }
                }
            }
            j += 1;
        }
        proof {
            assert(vs.take(len as int) =~= vs);
        }
        t += 1;
    }
}


// ---------------------------------------------------------------------
// Conflict marking.

/// Marks the edges from node `v` to its left neighbours whose positions lie
/// outside `k0..=k1`, appending them to `marked` in neighbour order.
pub open spec fn mark_outside(
    a: &LGraphArena,
    ni: &Neighborhood,
    ns: Seq<(LNodeId, LEdgeId)>,
    k0: int,
    k1: int,
    marked: Seq<LEdgeId>,
) -> Seq<LEdgeId>
    decreases ns.len(),
{
    if ns.len() == 0 {
        marked
    } else {
        let m = mark_outside(a, ni, ns.drop_last(), k0, k1, marked);
        let (u, e) = ns.last();
        let k = ni.node_index@[gid(a, u)] as int;
        if k < k0 || k > k1 {
            m.push(e)
        } else {
            m
        }
    }
}

/// Marks, for the nodes at positions `from..to` of `layer` (layer `li + 1`)
/// that end no inner segment from layer `li`, their edges to left
/// neighbours outside `k0..=k1`.
pub open spec fn mark_range(
    a: &LGraphArena,
    ni: &Neighborhood,
    layer: Seq<LNodeId>,
    li: int,
    from: int,
    to: int,
    k0: int,
    k1: int,
    marked: Seq<LEdgeId>,
) -> Seq<LEdgeId>
    decreases to - from,
{
    if to <= from {
        marked
    } else {
        let m = mark_range(a, ni, layer, li, from, to - 1, k0, k1, marked);
        let v = layer[to - 1];
        if inner_segment_at(a, v.0 as int, (li + 1) as usize, li as usize) {
            m
        } else {
            mark_outside(a, ni, ni.left_neighbors@[gid(a, v)]@, k0, k1, m)
        }
    }
}

/// The scan of layer `li + 1` against layer `li` (of `prev_size` nodes)
/// after its first `t` nodes: the marked edges, the position bounding the
/// last inner segment, and the next node to mark from.
pub open spec fn conflict_scan(
    a: &LGraphArena,
    ni: &Neighborhood,
    layer: Seq<LNodeId>,
    li: int,
    prev_size: int,
    t: nat,
    marked: Seq<LEdgeId>,
) -> (Seq<LEdgeId>, int, int)
    decreases t,
{
    if t == 0 {
        (marked, 0, 0)
    } else {
        let s = conflict_scan(a, ni, layer, li, prev_size, (t - 1) as nat, marked);
        let l1 = t - 1;
        let v = layer[l1];
        let inner = inner_segment_at(a, v.0 as int, (li + 1) as usize, li as usize);
        if l1 == layer.len() - 1 || inner {
            let k1 = if inner {
                ni.node_index@[gid(a, ni.left_neighbors@[gid(a, v)]@[0].0)] as int
            } else {
                prev_size - 1
            };
            (mark_range(a, ni, layer, li, s.2, l1 + 1, s.1, k1, s.0), k1, l1 + 1)
        } else {
            s
        }
    }
}

/// The edges marked over layers `2..t + 1` of graph `g`: type-1
/// conflicts, edges that cross an inner segment of a long edge.
pub open spec fn conflicts_upto(a: &LGraphArena, g: int, ni: &Neighborhood, t: nat) -> Seq<LEdgeId>
    decreases t,
{
    if t <= 1 {
        Seq::empty()
    } else {
        let i = t - 1;
        conflict_scan(
            a,
            ni,
            layer_nodes(a, g, i + 1),
            i,
            layer_nodes(a, g, i).len() as int,
            layer_nodes(a, g, i + 1).len(),
            conflicts_upto(a, g, ni, (t - 1) as nat),
        ).0
    }
}

/// The edges Brandes-Köpf marks in graph `g`: none with fewer than three
/// layers.
pub open spec fn bk_conflicts(a: &LGraphArena, g: int, ni: &Neighborhood) -> Seq<LEdgeId> {
    let count = a.graphs@[g].layers@.len();
    if count < 3 {
        Seq::empty()
    } else {
        conflicts_upto(a, g, ni, (count - 1) as nat)
    }
}

/// What conflict marking reads of graph `g` is there: every incoming edge
/// of a long-edge dummy in a layer has a source, and every node ending an
/// inner segment has a left neighbour.
pub open spec fn conflicts_readable(a: &LGraphArena, g: int, ni: &Neighborhood) -> bool {
    forall|l: int, k: int|
        0 <= l < a.graphs@[g].layers@.len() && 0 <= k < layer_nodes(a, g, l).len() ==> {
            let v = (#[trigger] layer_nodes(a, g, l)[k]);
            &&& a.nodes@[v.0 as int].node_type == NodeType::LongEdge ==> forall|j: int|
                0 <= j < gather(a.in_lists(), a.port_lists()[v.0 as int]).len() ==> source_node(
                    a,
                    #[trigger] gather(a.in_lists(), a.port_lists()[v.0 as int])[j],
                ) is Some
            &&& l > 0 && inner_segment_at(a, v.0 as int, l as usize, (l - 1) as usize) ==> ni.left_neighbors@[gid(a, v)]@.len() > 0
        }
}

/// Marks the type-1 conflicts of graph `graph` (`bk_conflicts`): scanning
/// each layer from the third on against the one before it, the edges of
/// nodes that end no inner segment of a long edge and that cross the
/// nearest inner segments around them. The result may list an edge more
/// than once; only membership matters.
pub fn mark_conflicts(arena: &LGraphArena, graph: LGraphId, ni: &Neighborhood) -> (marked: Vec<LEdgeId>)
    requires
        arena.wf(),
        ni.wf_for(arena, graph.0 as int),
        conflicts_readable(arena, graph.0 as int, ni),
    ensures
        marked@ == bk_conflicts(arena, graph.0 as int, ni),
{
    let ghost g = graph.0 as int;
    let ghost n = ni.node_count();
    let count = arena.graphs[graph.0].layers.len();
    let mut marked: Vec<LEdgeId> = Vec::new();
    if count < 3 {
        return marked;
    }
    let mut i: usize = 1;
    while i < count - 1
        invariant
            arena.wf(),
            ni.wf_for(arena, g),
            n == ni.node_count(),
            conflicts_readable(arena, g, ni),
            g == graph.0,
            count == arena.graphs@[g].layers@.len(),
            count >= 3,
            1 <= i <= count - 1,
            marked@ == conflicts_upto(arena, g, ni, i as nat),
        decreases count - i,
    {
        let current = &arena.graphs[graph.0].layers[i + 1].nodes;
        let prev_size = arena.graphs[graph.0].layers[i].nodes.len();
        let ghost m0 = marked@;
        let ghost cur = current@;
        let mut k0: i128 = 0;
        let mut l: usize = 0;
        let mut l1: usize = 0;
        while l1 < current.len()
            invariant
                arena.wf(),
                ni.wf_for(arena, g),
                n == ni.node_count(),
                conflicts_readable(arena, g, ni),
                g == graph.0,
                count == arena.graphs@[g].layers@.len(),
                1 <= i < count - 1,
                cur == current@,
                cur == layer_nodes(arena, g, i + 1),
                prev_size == layer_nodes(arena, g, i as int).len(),
                l1 <= cur.len(),
                l <= l1,
                (marked@, k0 as int, l as int) == conflict_scan(arena, ni, cur, i as int, prev_size as int, l1 as nat, m0),
            decreases cur.len() - l1,
        {
            let v = current[l1];
            proof {
                assert(layer_nodes(arena, g, i + 1)[l1 as int] == v);
                assert(known(arena, n, v));
            }
            let inner = incident_to_inner_segment(arena, v, i + 1, i);
            let ghost s = conflict_scan(arena, ni, cur, i as int, prev_size as int, l1 as nat, m0);
            if l1 == current.len() - 1 || inner {
                let mut k1: i128 = prev_size as i128 - 1;
                if inner {
                    proof {
                        assert(ni.left_neighbors@[gid(arena, v)]@.len() > 0);
                    }
                    let vid = arena.nodes[v.0].id;
                    let ln = ni.left_neighbors[vid][0].0;
                    proof {
                        assert(known(arena, n, ni.left_neighbors@[vid as int]@[0].0));
                    }
                    k1 = ni.node_index[arena.nodes[ln.0].id] as i128;
                }
                let ghost l_from = l;
                let ghost m1 = marked@;
                while l <= l1
                    invariant
                        arena.wf(),
                        ni.wf_for(arena, g),
                        n == ni.node_count(),
                        conflicts_readable(arena, g, ni),
                        g == graph.0,
                        count == arena.graphs@[g].layers@.len(),
                        1 <= i < count - 1,
                        cur == current@,
                        cur == layer_nodes(arena, g, i + 1),
                        l1 < cur.len(),
                        cur.len() <= usize::MAX,
                        l_from <= l <= l1 + 1,
                        marked@ == mark_range(arena, ni, cur, i as int, l_from as int, l as int, k0 as int, k1 as int, m1),
                    decreases l1 + 1 - l,
                {
                    let vl = current[l];
                    proof {
                        assert(layer_nodes(arena, g, i + 1)[l as int] == vl);
                        assert(known(arena, n, vl));
                    }
                    if !incident_to_inner_segment(arena, vl, i + 1, i) {
                        let vlid = arena.nodes[vl.0].id;
                        let nbrs = &ni.left_neighbors[vlid];
                        let ghost m2 = marked@;
                        let mut j: usize = 0;
                        while j < nbrs.len()
                            invariant
                                ni.wf_for(arena, g),
                                n == ni.node_count(),
                                vlid < n,
                                nbrs@ == ni.left_neighbors@[vlid as int]@,
                                j <= nbrs@.len(),
                                marked@ == mark_outside(arena, ni, nbrs@.take(j as int), k0 as int, k1 as int, m2),
                            decreases nbrs@.len() - j,
                        {
                            let (upper, edge) = nbrs[j];
                            proof {
                                assert(known(arena, n, ni.left_neighbors@[vlid as int]@[j as int].0));
                                assert(nbrs@.take(j + 1).drop_last() =~= nbrs@.take(j as int));
                                assert(nbrs@.take(j + 1).last() == (upper, edge));
                            }
                            let k = ni.node_index[arena.nodes[upper.0].id] as i128;
                            if k < k0 || k > k1 {
                                marked.push(edge);
                            }
                            j += 1;
                        }
                        proof {
                            assert(nbrs@.take(nbrs@.len() as int) =~= nbrs@);
                        }
                    }
                    l += 1;
                }
                k0 = k1;
            }
            l1 += 1;
        }
        proof {
            assert(cur.len() == layer_nodes(arena, g, i + 1).len());
        }
        i += 1;
    }
    marked
}

} // verus!
