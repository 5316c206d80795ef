//! Setting up the layer sweep of crossing minimization over the nesting
//! tree: whether a graph is swept bottom-up (on its own, before its
//! parent) or swept into from its parent, and the walk that numbers the
//! graphs, nodes and ports and draws each graph's port distributor.

use vstd::prelude::*;
use crate::layout::elk::alg::graph::{gather, in_sync, layer_ends, LEdgeId, LGraph, LGraphArena, LGraphId, LNode, LNodeId, LPort, NodeType};
use crate::layout::elk::alg::options::OrderingStrategy;
use crate::layout::elk::alg::options::{PortConstraints, PortSide};
use crate::layout::elk::alg::p1_cycles::{copy_vec, target_node};
use crate::layout::elk::alg::random::{java_boolean, java_long, java_step, JavaRandom};

verus! {

/// The side a port acts on in the rightward frame: north as west (input),
/// south as east (output).
pub open spec fn normalized_side(side: PortSide) -> PortSide {
    match side {
        PortSide::North => PortSide::West,
        PortSide::South => PortSide::East,
        s => s,
    }
}

/// `normalized_side`.
pub fn rightward(side: PortSide) -> (r: PortSide)
    ensures
        r == normalized_side(side),
{
    match side {
        PortSide::North => PortSide::West,
        PortSide::South => PortSide::East,
        s => s,
    }
}

/// The nodes of layer `l` of graph `g`, in order.
pub open spec fn nodes_of_layer(a: &LGraphArena, g: int, l: int) -> Seq<LNodeId> {
    a.graphs@[g].layers@[l].nodes@
}

/// How many of the ports `ps` act on `side`.
pub open spec fn side_count(a: &LGraphArena, ps: Seq<usize>, side: PortSide) -> nat
    decreases ps.len(),
{
    if ps.len() == 0 {
        0
    } else {
        side_count(a, ps.drop_last(), side) + if normalized_side(a.ports@[ps.last() as int].side) == side {
            1nat
        } else {
            0
        }
    }
}

/// No port of node `x` acting on `side` has an edge.
pub open spec fn no_side_ports(a: &LGraphArena, x: int, side: PortSide) -> bool {
    let ps = a.port_lists()[x];
    forall|k: int|
        #![trigger ps[k]]
        0 <= k < ps.len() && normalized_side(a.ports@[ps[k] as int].side) == side ==> (a.in_lists()[ps[k] as int].len() == 0
            && a.out_lists()[ps[k] as int].len() == 0)
}

/// External-port dummy `x` stands for a port acting on the east side.
pub open spec fn eastern_dummy(a: &LGraphArena, x: int) -> bool {
    match a.nodes@[x].props.origin_port {
        Some(p) => normalized_side(a.ports@[p.0 as int].side) == PortSide::East,
        None => false,
    }
}

/// What the walk along the edges knows of a node: the paths that reach it,
/// and whether they start at an external port or at a node without
/// connected inputs (each counted once per path).
#[derive(Clone, Copy)]
pub struct PathInfo {
    pub connected: i32,
    pub hierarchical: i32,
    pub random: i32,
}

/// The path counts while the walk runs: per node, and the paths that end
/// at a random or at a hierarchical node so far.
pub struct PathState {
    pub info: Seq<PathInfo>,
    pub to_random: i64,
    pub to_hierarchical: i64,
}

/// Passes what node `x` knows (`cur`) along the edges `es` to their
/// targets: each edge adds a path to the counts `cur` stands for.
pub open spec fn spread(a: &LGraphArena, cur: PathInfo, es: Seq<usize>, st: PathState) -> PathState
    decreases es.len(),
{
    if es.len() == 0 {
        st
    } else {
        let s = spread(a, cur, es.drop_last(), st);
        let t = target_node(a, es.last())->0 as int;
        let it = s.info[t];
        PathState {
            info: s.info.update(
                t,
                PathInfo {
                    connected: it.connected.wrapping_add(cur.connected).wrapping_add(1),
                    hierarchical: it.hierarchical.wrapping_add(cur.hierarchical),
                    random: it.random.wrapping_add(cur.random),
                },
            ),
            to_random: s.to_random.wrapping_add(cur.random as i64),
            to_hierarchical: s.to_hierarchical.wrapping_add(cur.hierarchical as i64),
        }
    }
}

/// Visits node `x`: an external-port dummy starts hierarchical paths (and
/// ends the paths reaching it as hierarchical ones when it stands for an
/// east port), a node without connected west ports starts random paths,
/// and one without connected east ports ends the paths reaching it as
/// random ones; then its counts pass along its outgoing edges.
pub open spec fn visit(a: &LGraphArena, x: int, st: PathState) -> PathState {
    let i0 = st.info[x];
    let st1 = if a.nodes@[x].node_type == NodeType::ExternalPort {
        PathState {
            info: st.info.update(x, PathInfo { hierarchical: 1, ..i0 }),
            to_random: st.to_random,
            to_hierarchical: if eastern_dummy(a, x) {
                st.to_hierarchical.wrapping_add(i0.connected as i64)
            } else {
                st.to_hierarchical
            },
        }
    } else if no_side_ports(a, x, PortSide::West) {
        PathState { info: st.info.update(x, PathInfo { random: 1, ..i0 }), to_random: st.to_random, to_hierarchical: st.to_hierarchical }
    } else if no_side_ports(a, x, PortSide::East) {
        PathState { info: st.info, to_random: st.to_random.wrapping_add(i0.connected as i64), to_hierarchical: st.to_hierarchical }
    } else {
        st
    };
    spread(a, st1.info[x], gather(a.out_lists(), a.port_lists()[x]), st1)
}

/// Visits the nodes of `vs` in turn.
pub open spec fn visit_nodes(a: &LGraphArena, vs: Seq<LNodeId>, st: PathState) -> PathState
    decreases vs.len(),
{
    if vs.len() == 0 {
        st
    } else {
        visit(a, vs.last().0 as int, visit_nodes(a, vs.drop_last(), st))
    }
}

/// Visits the nodes of the first `l` layers of graph `g`, layer by layer.
pub open spec fn visit_layers(a: &LGraphArena, g: int, l: nat, st: PathState) -> PathState
    decreases l,
{
    if l == 0 {
        st
    } else {
        visit_nodes(a, nodes_of_layer(a, g, l - 1), visit_layers(a, g, (l - 1) as nat, st))
    }
}

/// The path counts of graph `g`.
pub open spec fn path_counts(a: &LGraphArena, g: int) -> PathState {
    visit_layers(
        a,
        g,
        a.graphs@[g].layers@.len(),
        PathState {
            info: Seq::new(a.nodes@.len(), |i: int| PathInfo { connected: 0, hierarchical: 0, random: 0 }),
            to_random: 0,
            to_hierarchical: 0,
        },
    )
}

/// The share of random paths among all paths, less the share of
/// hierarchical ones, is at least a tenth (or there are no paths).
pub open spec fn favours_bottom_up(to_random: i64, to_hierarchical: i64) -> bool {
    let all = to_random.wrapping_add(to_hierarchical);
    ||| all == 0
    ||| all > 0 && 10 * (to_random - to_hierarchical) >= all
    ||| all < 0 && 10 * (to_random - to_hierarchical) <= all
}

/// Whether graph `g` is swept bottom-up: the root graph, a graph whose
/// parent node has a fixed port order or fewer than two ports acting on
/// each of the east and the west side, and otherwise (unless the
/// barycenters are deterministic) a graph whose paths mostly start at
/// nodes without inputs rather than at external ports.
pub open spec fn bottom_up(a: &LGraphArena, g: int, bary_deterministic: bool) -> bool {
    match a.graphs@[g].parent_node {
        None => true,
        Some(p) => {
            let pc = a.nodes@[p.0 as int].props.port_constraints;
            if pc is FixedOrder || pc is FixedRatio || pc is FixedPos {
                true
            } else if side_count(a, a.port_lists()[p.0 as int], PortSide::East) < 2 && side_count(
                a,
                a.port_lists()[p.0 as int],
                PortSide::West,
            ) < 2 {
                true
            } else if bary_deterministic {
                false
            } else {
                favours_bottom_up(path_counts(a, g).to_random, path_counts(a, g).to_hierarchical)
            }
        },
    }
}

/// `side_count` counts the ports of `ps` that act on `side`.
pub proof fn lemma_side_count_counts(a: &LGraphArena, ps: Seq<usize>, side: PortSide)
    ensures
        side_count(a, ps, side) == ps.filter(|q: usize| normalized_side(a.ports@[q as int].side) == side).len(),
    decreases ps.len(),
{
    reveal(Seq::filter);
    if ps.len() > 0 {
        lemma_side_count_counts(a, ps.drop_last(), side);
    }
}

/// When to sweep a nested graph bottom-up, counting the parent node's
/// ports by the side they act on. Its parent node's port order
/// being free: with fewer than two ports acting on the east side and fewer
/// than two on the west side, always; with at least two on either side,
/// exactly when the barycenters are not deterministic and the paths
/// favour it (`favours_bottom_up` of the path counts); a fixed port order,
/// or no parent node at all, always sweeps bottom-up.
pub proof fn lemma_bottom_up_decision(a: &LGraphArena, g: int, bary_deterministic: bool)
    ensures
        a.graphs@[g].parent_node is None ==> bottom_up(a, g, bary_deterministic),
        a.graphs@[g].parent_node matches Some(p) ==> {
            let pc = a.nodes@[p.0 as int].props.port_constraints;
            let ps = a.port_lists()[p.0 as int];
            let east = ps.filter(|q: usize| normalized_side(a.ports@[q as int].side) == PortSide::East).len();
            let west = ps.filter(|q: usize| normalized_side(a.ports@[q as int].side) == PortSide::West).len();
            let fixed = pc is FixedOrder || pc is FixedRatio || pc is FixedPos;
            &&& fixed ==> bottom_up(a, g, bary_deterministic)
            &&& !fixed && east < 2 && west < 2 ==> bottom_up(a, g, bary_deterministic)
            &&& !fixed && (east >= 2 || west >= 2) ==> (bottom_up(a, g, bary_deterministic) == (!bary_deterministic
                && favours_bottom_up(path_counts(a, g).to_random, path_counts(a, g).to_hierarchical)))
        },
{
    if let Some(p) = a.graphs@[g].parent_node {
        lemma_side_count_counts(a, a.port_lists()[p.0 as int], PortSide::East);
        lemma_side_count_counts(a, a.port_lists()[p.0 as int], PortSide::West);
    }
}

/// What deciding the sweep of graph `g` reads: its layers hold nodes,
/// every outgoing edge of them has a target, every external-port dummy's
/// port exists, and so does the graph's parent node.
pub open spec fn sweep_input(a: &LGraphArena, g: int) -> bool {
    &&& 0 <= g < a.graphs@.len()
    &&& a.graphs@[g].parent_node matches Some(p) ==> p.0 < a.nodes@.len()
    &&& forall|l: int, k: int|
        0 <= l < a.graphs@[g].layers@.len() && 0 <= k < nodes_of_layer(a, g, l).len() ==> {
            let x = (#[trigger] nodes_of_layer(a, g, l)[k]).0 as int;
            &&& x < a.nodes@.len()
            &&& forall|j: int|
                0 <= j < gather(a.out_lists(), a.port_lists()[x]).len() ==> target_node(
                    a,
                    #[trigger] gather(a.out_lists(), a.port_lists()[x])[j],
                ) is Some
            &&& a.nodes@[x].props.origin_port matches Some(q) ==> q.0 < a.ports@.len()
        }
}

/// How many ports of `node` act on `side`.
fn port_side_count(arena: &LGraphArena, node: LNodeId, side: PortSide) -> (r: usize)
    requires
        arena.wf(),
        node.0 < arena.nodes@.len(),
    ensures
        r == side_count(arena, arena.port_lists()[node.0 as int], side),
{
    let ports = &arena.nodes[node.0].ports;
    let ghost ps = arena.port_lists()[node.0 as int];
    let mut count: usize = 0;
    let mut i: usize = 0;
    while i < ports.len()
        invariant
            arena.wf(),
            node.0 < arena.nodes@.len(),
            ps == arena.port_lists()[node.0 as int],
            ports@.map_values(|p: crate::layout::elk::alg::graph::LPortId| p.0) == ps,
            i <= ports@.len(),
            count == side_count(arena, ps.take(i as int), side),
            count <= i,
        decreases ports@.len() - i,
    {
        let p = ports[i];
        proof {
            assert(ps.take(i + 1).drop_last() =~= ps.take(i as int));
            assert(ps[i as int] == p.0);
            crate::layout::elk::alg::p1_cycles::lemma_port_list(arena, node.0);
        }
        if rightward(arena.ports[p.0].side) == side {
            count += 1;
        }
        i += 1;
    }
    proof {
        assert(ps.take(ps.len() as int) =~= ps);
    }
    count
}

/// Whether no port of `node` acting on `side` has an edge.
fn has_no_side_ports(arena: &LGraphArena, node: LNodeId, side: PortSide) -> (r: bool)
    requires
        arena.wf(),
        node.0 < arena.nodes@.len(),
    ensures
        r == no_side_ports(arena, node.0 as int, side),
{
    let ports = &arena.nodes[node.0].ports;
    let ghost ps = arena.port_lists()[node.0 as int];
    let mut i: usize = 0;
    proof {
        crate::layout::elk::alg::p1_cycles::lemma_port_list(arena, node.0);
    }
    while i < ports.len()
        invariant
            arena.wf(),
            node.0 < arena.nodes@.len(),
            ps == arena.port_lists()[node.0 as int],
            ports@.map_values(|p: crate::layout::elk::alg::graph::LPortId| p.0) == ps,
            forall|k: int| 0 <= k < ps.len() ==> #[trigger] ps[k] < arena.ports@.len(),
            i <= ports@.len(),
            forall|k: int|
                #![trigger ps[k]]
                0 <= k < i && normalized_side(arena.ports@[ps[k] as int].side) == side ==> (arena.in_lists()[ps[k] as int].len()
                    == 0 && arena.out_lists()[ps[k] as int].len() == 0),
        decreases ports@.len() - i,
    {
        let p = ports[i];
        proof {
            assert(ps[i as int] == p.0);
        }
        if rightward(arena.ports[p.0].side) == side && (arena.ports[p.0].incoming_edges.len() > 0
            || arena.ports[p.0].outgoing_edges.len() > 0) {
            proof {
                assert(arena.out_lists()[ps[i as int] as int].len() == arena.ports@[p.0 as int].outgoing_edges@.len());
            }
            return false;
        }
        proof {
            assert(arena.in_lists()[p.0 as int].len() == arena.ports@[p.0 as int].incoming_edges@.len());
            assert(arena.out_lists()[p.0 as int].len() == arena.ports@[p.0 as int].outgoing_edges@.len());
            assert(normalized_side(arena.ports@[ps[i as int] as int].side) == side ==> arena.in_lists()[ps[i as int] as int].len()
                == 0 && arena.out_lists()[ps[i as int] as int].len() == 0);
        }
        i += 1;
    }
    true
}

/// Whether external-port dummy `node` stands for a port acting on the east
/// side.
fn is_eastern_dummy(arena: &LGraphArena, node: LNodeId) -> (r: bool)
    requires
        node.0 < arena.nodes@.len(),
        arena.nodes@[node.0 as int].props.origin_port matches Some(q) ==> q.0 < arena.ports@.len(),
    ensures
        r == eastern_dummy(arena, node.0 as int),
{
    match arena.nodes[node.0].props.origin_port {
        Some(p) => rightward(arena.ports[p.0].side) == PortSide::East,
        None => false,
    }
}

/// `visit` of node `x`.
fn visit_node(arena: &LGraphArena, x: LNodeId, info: &mut Vec<PathInfo>, to_random: &mut i64, to_hierarchical: &mut i64)
    requires
        arena.wf(),
        x.0 < arena.nodes@.len(),
        old(info)@.len() == arena.nodes@.len(),
        forall|j: int|
            0 <= j < gather(arena.out_lists(), arena.port_lists()[x.0 as int]).len() ==> target_node(
                arena,
                #[trigger] gather(arena.out_lists(), arena.port_lists()[x.0 as int])[j],
            ) is Some,
        arena.nodes@[x.0 as int].props.origin_port matches Some(q) ==> q.0 < arena.ports@.len(),
    ensures
        final(info)@.len() == arena.nodes@.len(),
        (PathState { info: final(info)@, to_random: *final(to_random), to_hierarchical: *final(to_hierarchical) }) == visit(
            arena,
            x.0 as int,
            PathState { info: old(info)@, to_random: *old(to_random), to_hierarchical: *old(to_hierarchical) },
        ),
{
    let ghost st0 = PathState { info: info@, to_random: *to_random, to_hierarchical: *to_hierarchical };
    let i0 = info[x.0];
    if arena.nodes[x.0].node_type == NodeType::ExternalPort {
        info.set(x.0, PathInfo { connected: i0.connected, hierarchical: 1, random: i0.random });
        if is_eastern_dummy(arena, x) {
            *to_hierarchical = to_hierarchical.wrapping_add(i0.connected as i64);
        }
    } else if has_no_side_ports(arena, x, PortSide::West) {
        info.set(x.0, PathInfo { connected: i0.connected, hierarchical: i0.hierarchical, random: 1 });
    } else if has_no_side_ports(arena, x, PortSide::East) {
        *to_random = to_random.wrapping_add(i0.connected as i64);
    }
    let ghost st1 = PathState { info: info@, to_random: *to_random, to_hierarchical: *to_hierarchical };
    let cur = info[x.0];
    let es = arena.node_outgoing_edges(x);
    let ghost gs = gather(arena.out_lists(), arena.port_lists()[x.0 as int]);
    let mut j: usize = 0;
    while j < es.len()
        invariant
            arena.wf(),
            x.0 < arena.nodes@.len(),
            es@.map_values(|e: LEdgeId| e.0) == gs,
            gs == gather(arena.out_lists(), arena.port_lists()[x.0 as int]),
            forall|k: int| 0 <= k < gs.len() ==> target_node(arena, #[trigger] gs[k]) is Some,
            j <= es@.len(),
            info@.len() == arena.nodes@.len(),
            (PathState { info: info@, to_random: *to_random, to_hierarchical: *to_hierarchical }) == spread(
                arena,
                cur,
                gs.take(j as int),
                st1,
            ),
        decreases es@.len() - j,
    {
        let e = es[j];
        proof {
            assert(gs[j as int] == e.0);
            assert(gs.take(j + 1).drop_last() =~= gs.take(j as int));
            assert(target_node(arena, gs[j as int]) is Some);
            crate::layout::elk::alg::p1_cycles::lemma_port_list(arena, x.0);
            crate::layout::elk::alg::p1_cycles::lemma_gather_bounded(
                arena.sources(),
                arena.out_lists(),
                arena.port_lists()[x.0 as int],
                j as int,
            );
        }
        let t = arena.edge_target_node(e).unwrap();
        proof {
            let q = arena.targets()[e.0 as int]->0;
            assert(q < arena.in_lists().len());
            assert(arena.owners()[q as int] == Some(t.0));
            assert(t.0 < arena.port_lists().len());
        }
        let it = info[t.0];
        info.set(
            t.0,
            PathInfo {
                connected: it.connected.wrapping_add(cur.connected).wrapping_add(1),
                hierarchical: it.hierarchical.wrapping_add(cur.hierarchical),
                random: it.random.wrapping_add(cur.random),
            },
        );
        *to_random = to_random.wrapping_add(cur.random as i64);
        *to_hierarchical = to_hierarchical.wrapping_add(cur.hierarchical as i64);
        j += 1;
    }
    proof {
        assert(gs.take(gs.len() as int) =~= gs);
    }
}


/// Whether graph `graph` is swept bottom-up (`bottom_up`). The share
/// test is made on exact integers; the counts wrap as 32- and 64-bit
/// integers do.
pub fn use_bottom_up(arena: &LGraphArena, graph: LGraphId, bary_deterministic: bool) -> (r: bool)
    requires
        arena.wf(),
        sweep_input(arena, graph.0 as int),
    ensures
        r == bottom_up(arena, graph.0 as int, bary_deterministic),
{
    let ghost g = graph.0 as int;
    let parent = match arena.graphs[graph.0].parent_node {
        None => {
            return true;
        },
        Some(p) => p,
    };
    if arena.nodes[parent.0].props.port_constraints.is_order_fixed() {
        return true;
    }
    if port_side_count(arena, parent, PortSide::East) < 2 && port_side_count(arena, parent, PortSide::West) < 2 {
        return true;
    }
    if bary_deterministic {
        return false;
    }
    let mut info: Vec<PathInfo> = Vec::new();
    let mut k: usize = 0;
    while k < arena.nodes.len()
        invariant
            k <= arena.nodes@.len(),
            info@ == Seq::new(k as nat, |i: int| PathInfo { connected: 0, hierarchical: 0, random: 0 }),
        decreases arena.nodes@.len() - k,
    {
        info.push(PathInfo { connected: 0, hierarchical: 0, random: 0 });
        proof {
            assert(info@ =~= Seq::new((k + 1) as nat, |i: int| PathInfo { connected: 0, hierarchical: 0, random: 0 }));
        }
        k += 1;
    }
    let mut to_random: i64 = 0;
    let mut to_hierarchical: i64 = 0;
    let ghost st0 = PathState { info: info@, to_random: 0, to_hierarchical: 0 };
    let count = arena.graphs[graph.0].layers.len();
    let mut l: usize = 0;
    while l < count
        invariant
            arena.wf(),
            sweep_input(arena, g),
            g == graph.0,
            count == arena.graphs@[g].layers@.len(),
            l <= count,
            info@.len() == arena.nodes@.len(),
            (PathState { info: info@, to_random, to_hierarchical }) == visit_layers(arena, g, l as nat, st0),
        decreases count - l,
    {
        let nodes = &arena.graphs[graph.0].layers[l].nodes;
        let ghost before = PathState { info: info@, to_random, to_hierarchical };
        let mut j: usize = 0;
        while j < nodes.len()
            invariant
                arena.wf(),
                sweep_input(arena, g),
                g == graph.0,
                l < count,
                count == arena.graphs@[g].layers@.len(),
                nodes@ == nodes_of_layer(arena, g, l as int),
                j <= nodes@.len(),
                info@.len() == arena.nodes@.len(),
                (PathState { info: info@, to_random, to_hierarchical }) == visit_nodes(arena, nodes@.take(j as int), before),
            decreases nodes@.len() - j,
        {
            let x = nodes[j];
            proof {
                assert(nodes_of_layer(arena, g, l as int)[j as int] == x);
                assert(nodes@.take(j + 1).drop_last() =~= nodes@.take(j as int));
            }
            visit_node(arena, x, &mut info, &mut to_random, &mut to_hierarchical);
            j += 1;
        }
        proof {
            assert(nodes@.take(nodes@.len() as int) =~= nodes@);
        }
        l += 1;
    }
    proof {
        assert(st0.info =~= Seq::new(arena.nodes@.len(), |i: int| PathInfo { connected: 0, hierarchical: 0, random: 0 }));
    }
    let all = to_random.wrapping_add(to_hierarchical);
    if all == 0 {
        return true;
    }
    let diff = to_random as i128 - to_hierarchical as i128;
    if all > 0 {
        10 * diff >= all as i128
    } else {
        10 * diff <= all as i128
    }
}


// ---------------------------------------------------------------------
// The walk of the nesting tree.

/// The graphs nested in the nodes of `vs`, in order.
pub open spec fn nested_in(a: &LGraphArena, vs: Seq<LNodeId>) -> Seq<LGraphId>
    decreases vs.len(),
{
    if vs.len() == 0 {
        Seq::empty()
    } else {
        nested_in(a, vs.drop_last()) + match a.nodes@[vs.last().0 as int].nested_graph {
            Some(h) => seq![h],
            None => Seq::empty(),
        }
    }
}

/// The graphs nested in the nodes of the first `l` layers of graph `g`.
pub open spec fn nested_in_layers(a: &LGraphArena, g: int, l: nat) -> Seq<LGraphId>
    decreases l,
{
    if l == 0 {
        Seq::empty()
    } else {
        nested_in_layers(a, g, (l - 1) as nat) + nested_in(a, nodes_of_layer(a, g, l - 1))
    }
}

/// The graphs nested in the nodes of graph `g`, layer by layer.
pub open spec fn children_of(a: &LGraphArena, g: int) -> Seq<LGraphId> {
    nested_in_layers(a, g, a.graphs@[g].layers@.len())
}

/// The breadth-first walk of the nesting tree from `root` once `i` graphs
/// are visited: each visited graph appends the graphs nested in it.
pub open spec fn walk(a: &LGraphArena, root: LGraphId, i: nat) -> Seq<LGraphId>
    decreases i,
{
    if i == 0 {
        seq![root]
    } else {
        let q = walk(a, root, (i - 1) as nat);
        if i - 1 < q.len() {
            q + children_of(a, q[i - 1].0 as int)
        } else {
            q
        }
    }
}

/// The graphs of the nesting tree under `root`, in breadth-first order.
pub open spec fn walk_order(a: &LGraphArena, root: LGraphId) -> Seq<LGraphId> {
    walk(a, root, a.graphs@.len())
}

/// The nesting tree under `root` is finite and a tree: the walk visits
/// each graph once and ends within as many steps as there are graphs, and
/// every graph it meets can be decided on.
pub open spec fn nesting_ok(a: &LGraphArena, root: LGraphId) -> bool {
    let q = walk_order(a, root);
    &&& q.len() <= a.graphs@.len()
    &&& q.no_duplicates()
    &&& forall|i: int| 0 <= i < q.len() ==> sweep_input(a, #[trigger] q[i].0 as int)
    &&& forall|i: int|
        0 <= i < q.len() ==> ports_in_layers(a, #[trigger] q[i].0 as int, a.graphs@[q[i].0 as int].layers@.len()) <= usize::MAX
}

/// An earlier state of the walk is a prefix of a later one.
pub proof fn lemma_walk_prefix(a: &LGraphArena, root: LGraphId, i: nat, j: nat)
    requires
        i <= j,
    ensures
        walk(a, root, i).len() <= walk(a, root, j).len(),
        forall|k: int| 0 <= k < walk(a, root, i).len() ==> #[trigger] walk(a, root, j)[k] == walk(a, root, i)[k],
    decreases j - i,
{
    if i < j {
        lemma_walk_prefix(a, root, i, (j - 1) as nat);
    }
}

/// The index of the generator entry of graph `h`.
pub open spec fn generator_of(cr: Seq<(LGraphId, JavaRandom)>, h: LGraphId) -> int {
    choose|k: int| 0 <= k < cr.len() && cr[k].0 == h
}

/// Every graph of the walk but the root has its own generator, and no graph
/// has two.
pub open spec fn generators_ok(cr: Seq<(LGraphId, JavaRandom)>, q: Seq<LGraphId>) -> bool {
    &&& forall|k: int, l: int| 0 <= k < cr.len() && 0 <= l < cr.len() && k != l ==> #[trigger] cr[k].0 != #[trigger] cr[l].0
    &&& forall|i: int| 1 <= i < q.len() ==> exists|k: int| 0 <= k < cr.len() && cr[k].0 == #[trigger] q[i]
}

/// The sweep graphs that go bottom-up among the first `i` of `q`, latest
/// first.
pub open spec fn bottom_up_list(a: &LGraphArena, q: Seq<LGraphId>, i: nat) -> Seq<usize>
    decreases i,
{
    if i == 0 {
        Seq::empty()
    } else {
        let prev = bottom_up_list(a, q, (i - 1) as nat);
        if bottom_up(a, q[i - 1].0 as int, false) {
            seq![(i - 1) as usize] + prev
        } else {
            prev
        }
    }
}

/// The graphs of the walk `q` after the root and before position `i`.
pub open spec fn walked_nested(q: Seq<LGraphId>, i: int) -> Seq<LGraphId> {
    if i <= 1 {
        Seq::empty()
    } else {
        q.subrange(1, i)
    }
}

/// What the layer sweep keeps of one graph of the nesting tree: the graph,
/// its node order by layer, the port distributor drawn for it (relative to
/// the nodes or to the layer), its parent node, the sweep positions of the
/// graphs nested in it, whether its parent sweeps into it, whether it has
/// external ports and whether it considers the model order.
pub struct SweepGraph {
    pub lgraph: LGraphId,
    pub order: Vec<Vec<LNodeId>>,
    pub node_relative: bool,
    pub parent_node: Option<LNodeId>,
    pub child_graph_ids: Vec<usize>,
    pub dont_sweep_into: bool,
    pub has_external_ports: bool,
    pub consider_model_order: bool,
}

/// The sweep graph made for the `i`-th graph of the walk `q` of `a`, with
/// `drawn` as its port distributor draw and `first_child` as the sweep
/// position of the first graph nested in it.
pub open spec fn sweep_graph_ok(a: &LGraphArena, sg: SweepGraph, q: Seq<LGraphId>, i: int, drawn: bool, first_child: int) -> bool {
    let g = q[i].0 as int;
    &&& sg.lgraph == q[i]
    &&& sg.order@.len() == a.graphs@[g].layers@.len()
    &&& forall|l: int| 0 <= l < sg.order@.len() ==> (#[trigger] sg.order@[l])@ == nodes_of_layer(a, g, l)
    &&& sg.node_relative == drawn
    &&& sg.parent_node == a.graphs@[g].parent_node
    &&& sg.child_graph_ids@ == Seq::new(children_of(a, g).len(), |k: int| (first_child + k) as usize)
    &&& sg.dont_sweep_into == bottom_up(a, g, false)
    &&& sg.has_external_ports == a.graphs@[g].props.graph_properties.external_ports
    &&& sg.consider_model_order == !(a.graphs@[g].props.consider_model_order is NoOrdering)
}


/// The port distributor draw the `i`-th graph of the walk `q` gets: the
/// root draws from the shared generator after the run seed (two steps from
/// `seed`), every other graph from its own generator in `cr`.
pub open spec fn drawn_for(seed: u64, cr: Seq<(LGraphId, JavaRandom)>, q: Seq<LGraphId>, i: int) -> bool {
    if i == 0 {
        java_boolean(java_step(java_step(seed)))
    } else {
        java_boolean(cr[generator_of(cr, q[i])].1.state())
    }
}

/// The node lists of the layers of graph `g`.
fn layer_orders(arena: &LGraphArena, g: LGraphId) -> (r: Vec<Vec<LNodeId>>)
    requires
        g.0 < arena.graphs@.len(),
    ensures
        r@.len() == arena.graphs@[g.0 as int].layers@.len(),
        forall|l: int| 0 <= l < r@.len() ==> (#[trigger] r@[l])@ == nodes_of_layer(arena, g.0 as int, l),
{
    let mut r: Vec<Vec<LNodeId>> = Vec::new();
    let mut l: usize = 0;
    while l < arena.graphs[g.0].layers.len()
        invariant
            g.0 < arena.graphs@.len(),
            l <= arena.graphs@[g.0 as int].layers@.len(),
            r@.len() == l,
            forall|k: int| 0 <= k < l ==> (#[trigger] r@[k])@ == nodes_of_layer(arena, g.0 as int, k),
        decreases arena.graphs@[g.0 as int].layers@.len() - l,
    {
        let nodes = copy_vec(&arena.graphs[g.0].layers[l].nodes);
        r.push(nodes);
        l += 1;
    }
    r
}

/// Appends to `queue` the graphs nested in the nodes of graph `g`, layer
/// by layer, and returns their positions in `queue`.
fn collect_children(arena: &LGraphArena, g: LGraphId, queue: &mut Vec<LGraphId>) -> (ids: Vec<usize>)
    requires
        sweep_input(arena, g.0 as int),
    ensures
        final(queue)@ == old(queue)@ + children_of(arena, g.0 as int),
        ids@ == Seq::new(children_of(arena, g.0 as int).len(), |k: int| (old(queue)@.len() + k) as usize),
{
    let ghost gi = g.0 as int;
    let ghost q0 = queue@;
    let mut ids: Vec<usize> = Vec::new();
    let count = arena.graphs[g.0].layers.len();
    let mut l: usize = 0;
    while l < count
        invariant
            sweep_input(arena, gi),
            gi == g.0,
            count == arena.graphs@[gi].layers@.len(),
            l <= count,
            queue@ == q0 + nested_in_layers(arena, gi, l as nat),
            ids@ == Seq::new(nested_in_layers(arena, gi, l as nat).len(), |k: int| (q0.len() + k) as usize),
        decreases count - l,
    {
        let nodes = &arena.graphs[g.0].layers[l].nodes;
        let ghost before = nested_in_layers(arena, gi, l as nat);
        let mut j: usize = 0;
        while j < nodes.len()
            invariant
                sweep_input(arena, gi),
                gi == g.0,
                l < count,
                count == arena.graphs@[gi].layers@.len(),
                nodes@ == nodes_of_layer(arena, gi, l as int),
                before == nested_in_layers(arena, gi, l as nat),
                j <= nodes@.len(),
                queue@ == q0 + before + nested_in(arena, nodes@.take(j as int)),
                ids@ == Seq::new((before + nested_in(arena, nodes@.take(j as int))).len(), |k: int| (q0.len() + k) as usize),
            decreases nodes@.len() - j,
        {
            let x = nodes[j];
            proof {
                assert(nodes_of_layer(arena, gi, l as int)[j as int] == x);
                assert(nodes@.take(j + 1).drop_last() =~= nodes@.take(j as int));
                assert(nodes@.take(j + 1).last() == x);
            }
            match arena.nodes[x.0].nested_graph {
                Some(h) => {
                    let ghost qb = queue@;
                    let ghost ib = ids@;
                    ids.push(queue.len());
                    queue.push(h);
                    proof {
                        assert(queue@ =~= q0 + before + nested_in(arena, nodes@.take(j + 1)));
                        assert(ids@ =~= Seq::new(
                            (before + nested_in(arena, nodes@.take(j + 1))).len(),
                            |k: int| (q0.len() + k) as usize,
                        ));
                    }
                },
                None => {
                    proof {
                        assert(nested_in(arena, nodes@.take(j + 1)) =~= nested_in(arena, nodes@.take(j as int)));
                    }
                },
            }
            j += 1;
        }
        proof {
            assert(nodes@.take(nodes@.len() as int) =~= nodes@);
            assert(q0 + before + nested_in(arena, nodes@) =~= q0 + nested_in_layers(arena, gi, (l + 1) as nat));
        }
        l += 1;
    }
    ids
}

/// The entry of `cr` for graph `h`.
fn find_generator(cr: &Vec<(LGraphId, JavaRandom)>, h: LGraphId) -> (k: usize)
    requires
        exists|k: int| 0 <= k < cr@.len() && cr@[k].0 == h,
    ensures
        k < cr@.len(),
        cr@[k as int].0 == h,
{
    let mut k: usize = 0;
    while k < cr.len()
        invariant
            k <= cr@.len(),
            forall|j: int| 0 <= j < k ==> cr@[j].0 != h,
            exists|k: int| 0 <= k < cr@.len() && cr@[k].0 == h,
        decreases cr@.len() - k,
    {
        if cr[k].0 == h {
            return k;
        }
        k += 1;
    }
    proof {
        let w = choose|w: int| 0 <= w < cr@.len() && cr@[w].0 == h;
        assert(cr@[w].0 != h);
    }
    0
}


// ---------------------------------------------------------------------
// Numbering.

/// The ports of the nodes of `vs`, counted.
pub open spec fn ports_in_nodes(a: &LGraphArena, vs: Seq<LNodeId>) -> nat
    decreases vs.len(),
{
    if vs.len() == 0 {
        0
    } else {
        ports_in_nodes(a, vs.drop_last()) + a.port_lists()[vs.last().0 as int].len()
    }
}

/// The ports of the nodes of the first `l` layers of graph `g`, counted.
pub open spec fn ports_in_layers(a: &LGraphArena, g: int, l: nat) -> nat
    decreases l,
{
    if l == 0 {
        0
    } else {
        ports_in_layers(a, g, (l - 1) as nat) + ports_in_nodes(a, nodes_of_layer(a, g, l - 1))
    }
}

/// The number the first port of the `k`-th node of layer `l` of graph `g`
/// gets: the ports of the nodes before it, layer by layer.
pub open spec fn first_port_number(a: &LGraphArena, g: int, l: int, k: int) -> nat {
    ports_in_layers(a, g, l as nat) + ports_in_nodes(a, nodes_of_layer(a, g, l).take(k))
}

/// `(l, k)` is a position in a layer of graph `g`.
pub open spec fn is_slot(a: &LGraphArena, g: int, l: int, k: int) -> bool {
    0 <= l < a.graphs@[g].layers@.len() && 0 <= k < nodes_of_layer(a, g, l).len()
}

/// The node at position `k` of layer `l` of graph `g`.
pub open spec fn slot_node(a: &LGraphArena, g: int, l: int, k: int) -> int {
    nodes_of_layer(a, g, l)[k].0 as int
}

/// The `m`-th port of the node at position `k` of layer `l` of graph `g`.
pub open spec fn slot_port(a: &LGraphArena, g: int, l: int, k: int, m: int) -> int {
    a.port_lists()[slot_node(a, g, l, k)][m] as int
}

/// In `b`, the nodes of the layers of graph `g` of `a` have their positions
/// in their layers as ids, and their ports are numbered densely, layer by
/// layer, node by node, in port order.
pub open spec fn graph_numbered(a: &LGraphArena, b: &LGraphArena, g: int) -> bool {
    &&& forall|l: int, k: int| #[trigger] is_slot(a, g, l, k) ==> b.nodes@[slot_node(a, g, l, k)].id == k
    &&& forall|l: int, k: int, m: int|
        is_slot(a, g, l, k) && 0 <= m < a.port_lists()[slot_node(a, g, l, k)].len() ==> b.ports@[#[trigger] slot_port(
            a,
            g,
            l,
            k,
            m,
        )].id == first_port_number(a, g, l, k) + m
}

/// `b` is `a` but for the ids of graphs, nodes and ports.
pub open spec fn only_ids_changed(a: &LGraphArena, b: &LGraphArena) -> bool {
    &&& b.graphs@.len() == a.graphs@.len()
    &&& b.nodes@.len() == a.nodes@.len()
    &&& b.ports@.len() == a.ports@.len()
    &&& b.edges == a.edges
    &&& b.labels == a.labels
    &&& forall|h: int| 0 <= h < a.graphs@.len() ==> #[trigger] b.graphs@[h] == (LGraph { id: b.graphs@[h].id, ..a.graphs@[h] })
    &&& forall|x: int| 0 <= x < a.nodes@.len() ==> #[trigger] b.nodes@[x] == (LNode { id: b.nodes@[x].id, ..a.nodes@[x] })
    &&& forall|p: int| 0 <= p < a.ports@.len() ==> #[trigger] b.ports@[p] == (LPort { id: b.ports@[p].id, ..a.ports@[p] })
}

/// `b` is `a` with each graph of `q` given its position in `q` as its id
/// and its nodes and ports numbered (`graph_numbered`); nothing else
/// changes.
pub open spec fn numbered(a: &LGraphArena, b: &LGraphArena, q: Seq<LGraphId>) -> bool {
    &&& only_ids_changed(a, b)
    &&& forall|i: int| 0 <= i < q.len() ==> #[trigger] b.graphs@[q[i].0 as int].id == i && graph_numbered(a, b, q[i].0 as int)
}

/// Only ids changing keeps what the arena's relations are.
pub proof fn lemma_ids_keep_relations(a: &LGraphArena, b: &LGraphArena)
    requires
        only_ids_changed(a, b),
    ensures
        b.sources() == a.sources(),
        b.targets() == a.targets(),
        b.owners() == a.owners(),
        b.in_lists() == a.in_lists(),
        b.out_lists() == a.out_lists(),
        b.port_lists() == a.port_lists(),
        b.graph_of() == a.graph_of(),
        b.layer_of() == a.layer_of(),
        b.layer_lists() == a.layer_lists(),
        b.layerless_lists() == a.layerless_lists(),
        b.collect_flags() == a.collect_flags(),
        b.edge_label_lists() == a.edge_label_lists(),
        a.wf() ==> b.wf(),
{
    assert(b.owners() =~= a.owners()) by {
        assert forall|p: int| 0 <= p < a.ports@.len() implies b.owners()[p] == a.owners()[p] by {
            assert(b.ports@[p] == (LPort { id: b.ports@[p].id, ..a.ports@[p] }));
        }
    }
    assert(b.in_lists() =~= a.in_lists()) by {
        assert forall|p: int| 0 <= p < a.ports@.len() implies b.in_lists()[p] == a.in_lists()[p] by {
            assert(b.ports@[p] == (LPort { id: b.ports@[p].id, ..a.ports@[p] }));
        }
    }
    assert(b.out_lists() =~= a.out_lists()) by {
        assert forall|p: int| 0 <= p < a.ports@.len() implies b.out_lists()[p] == a.out_lists()[p] by {
            assert(b.ports@[p] == (LPort { id: b.ports@[p].id, ..a.ports@[p] }));
        }
    }
    assert(b.collect_flags() =~= a.collect_flags()) by {
        assert forall|p: int| 0 <= p < a.ports@.len() implies b.collect_flags()[p] == a.collect_flags()[p] by {
            assert(b.ports@[p] == (LPort { id: b.ports@[p].id, ..a.ports@[p] }));
        }
    }
    assert(b.port_lists() =~= a.port_lists()) by {
        assert forall|x: int| 0 <= x < a.nodes@.len() implies b.port_lists()[x] == a.port_lists()[x] by {
            assert(b.nodes@[x] == (LNode { id: b.nodes@[x].id, ..a.nodes@[x] }));
        }
    }
    assert(b.graph_of() =~= a.graph_of()) by {
        assert forall|x: int| 0 <= x < a.nodes@.len() implies b.graph_of()[x] == a.graph_of()[x] by {
            assert(b.nodes@[x] == (LNode { id: b.nodes@[x].id, ..a.nodes@[x] }));
        }
    }
    assert(b.layer_of() =~= a.layer_of()) by {
        assert forall|x: int| 0 <= x < a.nodes@.len() implies b.layer_of()[x] == a.layer_of()[x] by {
            assert(b.nodes@[x] == (LNode { id: b.nodes@[x].id, ..a.nodes@[x] }));
        }
    }
    assert(b.layer_lists() =~= a.layer_lists()) by {
        assert forall|h: int| 0 <= h < a.graphs@.len() implies b.layer_lists()[h] == a.layer_lists()[h] by {
            assert(b.graphs@[h] == (LGraph { id: b.graphs@[h].id, ..a.graphs@[h] }));
        }
    }
    assert(b.layerless_lists() =~= a.layerless_lists()) by {
        assert forall|h: int| 0 <= h < a.graphs@.len() implies b.layerless_lists()[h] == a.layerless_lists()[h] by {
            assert(b.graphs@[h] == (LGraph { id: b.graphs@[h].id, ..a.graphs@[h] }));
        }
    }
    assert(b.sources() =~= a.sources());
    assert(b.targets() =~= a.targets());
    assert(b.edge_label_lists() =~= a.edge_label_lists());
}

/// The node at a position in a layer of graph `g` lies in that layer of
/// `g`, and no other position holds it.
pub proof fn lemma_slot(a: &LGraphArena, g: int, l: int, k: int)
    requires
        a.wf(),
        0 <= g < a.graphs@.len(),
        is_slot(a, g, l, k),
    ensures
        0 <= slot_node(a, g, l, k) < a.nodes@.len(),
        a.graph_of()[slot_node(a, g, l, k)] == g,
        a.layer_of()[slot_node(a, g, l, k)] == Some(l as usize),
        forall|k2: int| #[trigger] is_slot(a, g, l, k2) && k2 != k ==> slot_node(a, g, l, k2) != slot_node(a, g, l, k),
{
    let lists = a.layer_lists()[g];
    assert(in_sync(layer_ends(a.graph_of(), a.layer_of(), g), lists));
    assert(lists[l][k] == slot_node(a, g, l, k));
    assert(lists[l].no_duplicates());
    assert forall|k2: int| #[trigger] is_slot(a, g, l, k2) && k2 != k implies slot_node(a, g, l, k2) != slot_node(a, g, l, k) by {
        assert(lists[l][k2] == slot_node(a, g, l, k2));
    }
}

/// Counting the ports of one more node.
pub proof fn lemma_ports_in_nodes_push(a: &LGraphArena, vs: Seq<LNodeId>, j: int)
    requires
        0 <= j < vs.len(),
    ensures
        ports_in_nodes(a, vs.take(j + 1)) == ports_in_nodes(a, vs.take(j)) + a.port_lists()[vs[j].0 as int].len(),
{
    assert(vs.take(j + 1).drop_last() =~= vs.take(j));
}

/// Port counts over prefixes grow towards the count of the whole graph.
pub proof fn lemma_ports_below_total(a: &LGraphArena, g: int, l: int, k: int)
    requires
        0 <= l < a.graphs@[g].layers@.len(),
        0 <= k <= nodes_of_layer(a, g, l).len(),
    ensures
        first_port_number(a, g, l, k) <= ports_in_layers(a, g, a.graphs@[g].layers@.len()),
    decreases a.graphs@[g].layers@.len() - l, nodes_of_layer(a, g, l).len() - k,
{
    let vs = nodes_of_layer(a, g, l);
    if k < vs.len() {
        lemma_ports_in_nodes_push(a, vs, k);
        lemma_ports_below_total(a, g, l, k + 1);
    } else {
        assert(vs.take(k) =~= vs);
        if l + 1 < a.graphs@[g].layers@.len() {
            assert(nodes_of_layer(a, g, l + 1).take(0) =~= Seq::<LNodeId>::empty());
            lemma_ports_below_total(a, g, l + 1, 0);
        } else {
            assert(ports_in_layers(a, g, (l + 1) as nat) == ports_in_layers(a, g, l as nat) + ports_in_nodes(a, vs));
        }
    }
}


/// Distinct positions in the layers of graph `g` hold distinct nodes.
pub proof fn lemma_distinct_slots(a: &LGraphArena, g: int, l1: int, k1: int, l2: int, k2: int)
    requires
        a.wf(),
        a.graphs@[g].layers@.len() <= usize::MAX,
        0 <= g < a.graphs@.len(),
        is_slot(a, g, l1, k1),
        is_slot(a, g, l2, k2),
        l1 != l2 || k1 != k2,
    ensures
        slot_node(a, g, l1, k1) != slot_node(a, g, l2, k2),
{
    lemma_slot(a, g, l1, k1);
    lemma_slot(a, g, l2, k2);
    if l1 == l2 {
        assert(is_slot(a, g, l1, k2));
    } else {
        assert(a.layer_of()[slot_node(a, g, l1, k1)] != a.layer_of()[slot_node(a, g, l2, k2)]);
    }
}

/// The ports of the nodes of graph `g`'s layers are ports of those nodes,
/// and distinct for distinct positions.
pub proof fn lemma_distinct_slot_ports(a: &LGraphArena, g: int, l1: int, k1: int, m1: int, l2: int, k2: int, m2: int)
    requires
        a.wf(),
        a.graphs@[g].layers@.len() <= usize::MAX,
        0 <= g < a.graphs@.len(),
        is_slot(a, g, l1, k1),
        is_slot(a, g, l2, k2),
        0 <= m1 < a.port_lists()[slot_node(a, g, l1, k1)].len(),
        0 <= m2 < a.port_lists()[slot_node(a, g, l2, k2)].len(),
        l1 != l2 || k1 != k2 || m1 != m2,
    ensures
        slot_port(a, g, l1, k1, m1) != slot_port(a, g, l2, k2, m2),
        0 <= slot_port(a, g, l1, k1, m1) < a.ports@.len(),
{
    lemma_slot(a, g, l1, k1);
    lemma_slot(a, g, l2, k2);
    let x1 = slot_node(a, g, l1, k1);
    let x2 = slot_node(a, g, l2, k2);
    assert(a.owners()[slot_port(a, g, l1, k1, m1)] == Some(x1 as usize));
    assert(a.owners()[slot_port(a, g, l2, k2, m2)] == Some(x2 as usize));
    if x1 == x2 {
        if l1 != l2 || k1 != k2 {
            lemma_distinct_slots(a, g, l1, k1, l2, k2);
        }
        assert(a.port_lists()[x1].no_duplicates());
        assert(a.port_lists()[x1][m1] != a.port_lists()[x1][m2]);
    } else {
        assert(a.owners()[slot_port(a, g, l1, k1, m1)] != a.owners()[slot_port(a, g, l2, k2, m2)]);
    }
}

/// Whether position `(l2, k2)` comes before `(l, k)`, layer by layer.
pub open spec fn before_slot(l2: int, k2: int, l: int, k: int) -> bool {
    l2 < l || (l2 == l && k2 < k)
}

/// The nodes at positions before `(l, k)` have their positions as ids in
/// `b`, and their ports, and the first `m` ports of the node at `(l, k)`,
/// their numbers.
pub open spec fn numbered_upto(a: &LGraphArena, b: &LGraphArena, g: int, l: int, k: int, m: int) -> bool {
    &&& forall|l2: int, k2: int|
        #[trigger] is_slot(a, g, l2, k2) && before_slot(l2, k2, l, k) ==> b.nodes@[slot_node(a, g, l2, k2)].id == k2
    &&& forall|l2: int, k2: int, m2: int|
        is_slot(a, g, l2, k2) && 0 <= m2 < a.port_lists()[slot_node(a, g, l2, k2)].len() && (before_slot(l2, k2, l, k) || (l2
            == l && k2 == k && m2 < m)) ==> b.ports@[#[trigger] slot_port(a, g, l2, k2, m2)].id == first_port_number(a, g, l2, k2)
            + m2
}

/// Nodes outside the layers of graph `g` of `a`, and ports of such nodes,
/// keep in `after` the ids they have in `before`.
pub open spec fn kept_outside(a: &LGraphArena, before: &LGraphArena, after: &LGraphArena, g: int) -> bool {
    &&& forall|x: int|
        0 <= x < a.nodes@.len() && !(a.graph_of()[x] == g && a.layer_of()[x] is Some) ==> #[trigger] after.nodes@[x].id
            == before.nodes@[x].id
    &&& forall|p: int|
        0 <= p < a.ports@.len() && !(a.owners()[p] matches Some(x) && a.graph_of()[x as int] == g && a.layer_of()[x as int] is Some)
            ==> #[trigger] after.ports@[p].id == before.ports@[p].id
}

/// Numbers graph `g`: each node of its layers gets its position in its
/// layer as id, and the ports of those nodes get consecutive ids from zero,
/// layer by layer, node by node, in port order.
fn number_graph(arena: &mut LGraphArena, Ghost(base): Ghost<LGraphArena>, g: LGraphId)
    requires
        base.wf(),
        only_ids_changed(&base, &*old(arena)),
        g.0 < base.graphs@.len(),
        ports_in_layers(&base, g.0 as int, base.graphs@[g.0 as int].layers@.len()) <= usize::MAX,
    ensures
        only_ids_changed(&base, &*final(arena)),
        forall|h: int| 0 <= h < base.graphs@.len() ==> #[trigger] final(arena).graphs@[h].id == old(arena).graphs@[h].id,
        graph_numbered(&base, &*final(arena), g.0 as int),
        kept_outside(&base, &*old(arena), &*final(arena), g.0 as int),
{
    let ghost a0 = base;
    let ghost start = *arena;
    proof {
        assert(arena.graphs@[g.0 as int] == (LGraph { id: arena.graphs@[g.0 as int].id, ..a0.graphs@[g.0 as int] }));
    }
    let ghost gi = g.0 as int;
    let count = arena.graphs[g.0].layers.len();
    let mut counter: usize = 0;
    let mut l: usize = 0;
    while l < count
        invariant
            a0.wf(),
            gi == g.0,
            0 <= gi < a0.graphs@.len(),
            count == a0.graphs@[gi].layers@.len(),
            ports_in_layers(&a0, gi, count as nat) <= usize::MAX,
            only_ids_changed(&a0, &*arena),
            arena.graphs == start.graphs,
            only_ids_changed(&a0, &start),
            l <= count,
            counter == ports_in_layers(&a0, gi, l as nat),
            numbered_upto(&a0, &*arena, gi, l as int, 0, 0),
            kept_outside(&a0, &start, &*arena, gi),
        decreases count - l,
    {
        let nodes = copy_vec(&arena.graphs[g.0].layers[l].nodes);
        proof {
            assert(start.graphs@[gi] == (LGraph { id: start.graphs@[gi].id, ..a0.graphs@[gi] }));
            assert(nodes@ == nodes_of_layer(&a0, gi, l as int));
            assert(nodes@.take(0) =~= Seq::<LNodeId>::empty());
        }
        let mut k: usize = 0;
        while k < nodes.len()
            invariant
                a0.wf(),
                gi == g.0,
                0 <= gi < a0.graphs@.len(),
                count == a0.graphs@[gi].layers@.len(),
                ports_in_layers(&a0, gi, count as nat) <= usize::MAX,
                only_ids_changed(&a0, &*arena),
                arena.graphs == start.graphs,
            only_ids_changed(&a0, &start),
                l < count,
                nodes@ == nodes_of_layer(&a0, gi, l as int),
                k <= nodes@.len(),
                counter == first_port_number(&a0, gi, l as int, k as int),
                numbered_upto(&a0, &*arena, gi, l as int, k as int, 0),
                kept_outside(&a0, &start, &*arena, gi),
            decreases nodes@.len() - k,
        {
            let x = nodes[k];
            proof {
                assert(is_slot(&a0, gi, l as int, k as int));
                lemma_slot(&a0, gi, l as int, k as int);
                assert(x.0 as int == slot_node(&a0, gi, l as int, k as int));
            }
            let ghost pre = *arena;
            arena.nodes[x.0].id = k;
            proof {
                assert(arena.nodes@.len() == pre.nodes@.len());
                assert(arena.nodes@ == pre.nodes@.update(x.0 as int, LNode { id: k, ..pre.nodes@[x.0 as int] }));
                assert forall|l2: int, k2: int|
                    #[trigger] is_slot(&a0, gi, l2, k2) && before_slot(l2, k2, l as int, k as int) implies arena.nodes@[slot_node(
                    &a0,
                    gi,
                    l2,
                    k2,
                )].id == k2 by {
                    assert(count <= usize::MAX);
                    lemma_slot(&a0, gi, l2, k2);
                    lemma_distinct_slots(&a0, gi, l2, k2, l as int, k as int);
                    assert(slot_node(&a0, gi, l2, k2) != x.0 as int);
                    assert(pre.nodes@[slot_node(&a0, gi, l2, k2)].id == k2);
                    assert(arena.nodes@[slot_node(&a0, gi, l2, k2)] == pre.nodes@[slot_node(&a0, gi, l2, k2)]);
                }
                assert forall|p: int| 0 <= p < a0.ports@.len() implies #[trigger] arena.ports@[p] == (LPort {
                    id: arena.ports@[p].id,
                    ..a0.ports@[p]
                }) by {}
                assert forall|x2: int| 0 <= x2 < a0.nodes@.len() && !(a0.graph_of()[x2] == gi && a0.layer_of()[x2] is Some) implies #[trigger] arena.nodes@[x2].id
                    == start.nodes@[x2].id by {
                    assert(x2 != x.0);
                }
            }
            let ports = copy_vec(&arena.nodes[x.0].ports);
            proof {
                lemma_ids_keep_relations(&a0, &*arena);
                assert(ports@.map_values(|p: crate::layout::elk::alg::graph::LPortId| p.0) == a0.port_lists()[x.0 as int]);
                assert(k < nodes@.len());
                lemma_ports_below_total(&a0, gi, l as int, k as int + 1);
                lemma_ports_in_nodes_push(&a0, nodes@, k as int);
            }
            let ghost plist = a0.port_lists()[x.0 as int];
            let mut m: usize = 0;
            while m < ports.len()
                invariant
                    a0.wf(),
                    gi == g.0,
                    0 <= gi < a0.graphs@.len(),
                    count == a0.graphs@[gi].layers@.len(),
                    only_ids_changed(&a0, &*arena),
                    arena.graphs == start.graphs,
            only_ids_changed(&a0, &start),
                    l < count,
                    nodes@ == nodes_of_layer(&a0, gi, l as int),
                    k < nodes@.len(),
                    x.0 as int == slot_node(&a0, gi, l as int, k as int),
                    is_slot(&a0, gi, l as int, k as int),
                    plist == a0.port_lists()[x.0 as int],
                    ports@.map_values(|p: crate::layout::elk::alg::graph::LPortId| p.0) == plist,
                    m <= ports@.len(),
                    counter == first_port_number(&a0, gi, l as int, k as int) + m,
                    first_port_number(&a0, gi, l as int, k as int) + plist.len() <= usize::MAX,
                    arena.nodes@[x.0 as int].id == k,
                    numbered_upto(&a0, &*arena, gi, l as int, k as int, m as int),
                    kept_outside(&a0, &start, &*arena, gi),
                decreases ports@.len() - m,
            {
                let p = ports[m];
                proof {
                    assert(plist[m as int] == p.0);
                    assert(p.0 as int == slot_port(&a0, gi, l as int, k as int, m as int));
                    lemma_slot(&a0, gi, l as int, k as int);
                    assert(a0.owners()[p.0 as int] == Some(x.0));
                }
                let ghost pre = *arena;
                arena.ports[p.0].id = counter;
                proof {
                    assert forall|l2: int, k2: int, m2: int|
                        is_slot(&a0, gi, l2, k2) && 0 <= m2 < a0.port_lists()[slot_node(&a0, gi, l2, k2)].len() && (before_slot(
                            l2,
                            k2,
                            l as int,
                            k as int,
                        ) || (l2 == l && k2 == k && m2 < m + 1)) implies arena.ports@[#[trigger] slot_port(&a0, gi, l2, k2, m2)].id
                        == first_port_number(&a0, gi, l2, k2) + m2 by {
                        if !(l2 == l && k2 == k && m2 == m) {
                            lemma_distinct_slot_ports(&a0, gi, l2, k2, m2, l as int, k as int, m as int);
                            assert(pre.ports@[slot_port(&a0, gi, l2, k2, m2)].id == first_port_number(&a0, gi, l2, k2) + m2);
                        }
                    }
                    assert forall|l2: int, k2: int|
                        #[trigger] is_slot(&a0, gi, l2, k2) && before_slot(l2, k2, l as int, k as int) implies arena.nodes@[slot_node(
                        &a0,
                        gi,
                        l2,
                        k2,
                    )].id == k2 by {}
                    assert forall|q: int|
                        0 <= q < a0.ports@.len() && !(a0.owners()[q] matches Some(y) && a0.graph_of()[y as int] == gi && a0.layer_of()[
                            y as int] is Some) implies #[trigger] arena.ports@[q].id == start.ports@[q].id by {
                        assert(q != p.0);
                    }
                }
                counter = counter + 1;
                m += 1;
            }
            proof {
                assert(ports@.len() == plist.len());
                assert(counter == first_port_number(&a0, gi, l as int, k as int + 1));
                assert forall|l2: int, k2: int|
                    #[trigger] is_slot(&a0, gi, l2, k2) && before_slot(l2, k2, l as int, k as int + 1) implies arena.nodes@[slot_node(
                    &a0,
                    gi,
                    l2,
                    k2,
                )].id == k2 by {}
            }
            k += 1;
        }
        proof {
            assert(nodes@.take(nodes@.len() as int) =~= nodes@);
            assert(counter == ports_in_layers(&a0, gi, (l + 1) as nat));
            assert forall|l2: int, k2: int|
                #[trigger] is_slot(&a0, gi, l2, k2) && before_slot(l2, k2, l as int + 1, 0) implies arena.nodes@[slot_node(
                &a0,
                gi,
                l2,
                k2,
            )].id == k2 by {
                if l2 == l {
                    assert(before_slot(l2, k2, l as int, nodes@.len() as int));
                }
            }
            assert forall|l2: int, k2: int, m2: int|
                is_slot(&a0, gi, l2, k2) && 0 <= m2 < a0.port_lists()[slot_node(&a0, gi, l2, k2)].len() && (before_slot(
                    l2,
                    k2,
                    l as int + 1,
                    0,
                ) || (l2 == l + 1 && k2 == 0 && m2 < 0)) implies arena.ports@[#[trigger] slot_port(&a0, gi, l2, k2, m2)].id
                == first_port_number(&a0, gi, l2, k2) + m2 by {
                if l2 == l {
                    assert(before_slot(l2, k2, l as int, nodes@.len() as int));
                }
            }
        }
        l += 1;
    }
    proof {
        assert forall|l2: int, k2: int| #[trigger] is_slot(&a0, gi, l2, k2) implies arena.nodes@[slot_node(&a0, gi, l2, k2)].id == k2 by {
            assert(before_slot(l2, k2, count as int, 0));
        }
        assert forall|l2: int, k2: int, m2: int|
            is_slot(&a0, gi, l2, k2) && 0 <= m2 < a0.port_lists()[slot_node(&a0, gi, l2, k2)].len() implies arena.ports@[#[trigger] slot_port(
            &a0,
            gi,
            l2,
            k2,
            m2,
        )].id == first_port_number(&a0, gi, l2, k2) + m2 by {
            assert(before_slot(l2, k2, count as int, 0));
        }
    }
}


/// Numbers the graphs of `queue`: each gets its position in `queue` as id,
/// and its nodes and ports are numbered (`number_graph`).
fn number_sweep_graphs(arena: &mut LGraphArena, queue: &Vec<LGraphId>)
    requires
        old(arena).wf(),
        queue@.no_duplicates(),
        forall|i: int|
            0 <= i < queue@.len() ==> (#[trigger] queue@[i]).0 < old(arena).graphs@.len() && ports_in_layers(
                &*old(arena),
                queue@[i].0 as int,
                old(arena).graphs@[queue@[i].0 as int].layers@.len(),
            ) <= usize::MAX,
    ensures
        numbered(&*old(arena), &*final(arena), queue@),
{
    let ghost a0 = *arena;
    let ghost q = queue@;
    let mut i: usize = 0;
    while i < queue.len()
        invariant
            a0.wf(),
            q == queue@,
            q.no_duplicates(),
            forall|j: int|
                0 <= j < q.len() ==> (#[trigger] q[j]).0 < a0.graphs@.len() && ports_in_layers(
                    &a0,
                    q[j].0 as int,
                    a0.graphs@[q[j].0 as int].layers@.len(),
                ) <= usize::MAX,
            i <= q.len(),
            only_ids_changed(&a0, &*arena),
            forall|j: int| 0 <= j < i ==> #[trigger] arena.graphs@[q[j].0 as int].id == j && graph_numbered(&a0, &*arena, q[j].0 as int),
        decreases q.len() - i,
    {
        let g = queue[i];
        proof {
            assert(q[i as int] == g);
        }
        let ghost pre = *arena;
        arena.graphs[g.0].id = i;
        let ghost mid = *arena;
        proof {
            assert forall|h: int| 0 <= h < a0.graphs@.len() implies #[trigger] mid.graphs@[h] == (LGraph {
                id: mid.graphs@[h].id,
                ..a0.graphs@[h]
            }) by {
                assert(pre.graphs@[h] == (LGraph { id: pre.graphs@[h].id, ..a0.graphs@[h] }));
            }
            assert forall|j: int| 0 <= j < i implies #[trigger] mid.graphs@[q[j].0 as int].id == j && graph_numbered(
                &a0,
                &mid,
                q[j].0 as int,
            ) by {
                assert(q[j] != q[i as int]);
                assert(pre.graphs@[q[j].0 as int].id == j);
                assert(graph_numbered(&a0, &pre, q[j].0 as int));
                assert(mid.nodes == pre.nodes && mid.ports == pre.ports);
            }
        }
        number_graph(arena, Ghost(a0), g);
        proof {
            let g2 = g.0 as int;
            assert forall|j: int| 0 <= j < i + 1 implies #[trigger] arena.graphs@[q[j].0 as int].id == j && graph_numbered(
                &a0,
                &*arena,
                q[j].0 as int,
            ) by {
                if j < i {
                    let h = q[j].0 as int;
                    assert(q[j] != q[i as int]);
                    assert(mid.graphs@[h].id == j);
                    assert(graph_numbered(&a0, &mid, h));
                    assert forall|l: int, k: int| #[trigger] is_slot(&a0, h, l, k) implies arena.nodes@[slot_node(&a0, h, l, k)].id
                        == k by {
                        lemma_slot(&a0, h, l, k);
                        assert(mid.nodes@[slot_node(&a0, h, l, k)].id == k);
                    }
                    assert forall|l: int, k: int, m: int|
                        is_slot(&a0, h, l, k) && 0 <= m < a0.port_lists()[slot_node(&a0, h, l, k)].len() implies arena.ports@[#[trigger] slot_port(
                        &a0,
                        h,
                        l,
                        k,
                        m,
                    )].id == first_port_number(&a0, h, l, k) + m by {
                        lemma_slot(&a0, h, l, k);
                        let x = slot_node(&a0, h, l, k);
                        assert(a0.owners()[slot_port(&a0, h, l, k, m)] == Some(x as usize));
                        assert(mid.ports@[slot_port(&a0, h, l, k, m)].id == first_port_number(&a0, h, l, k) + m);
                    }
                }
            }
        }
        i += 1;
    }
}

/// Once the walk has no graph left to visit, it stays as it is.
pub proof fn lemma_walk_settles(a: &LGraphArena, root: LGraphId, i: nat, j: nat)
    requires
        i <= j,
        walk(a, root, i).len() <= i,
    ensures
        walk(a, root, j) == walk(a, root, i),
    decreases j - i,
{
    if i < j {
        lemma_walk_settles(a, root, i, (j - 1) as nat);
    }
}

/// Sets up the layer sweep of crossing minimization for the nesting tree
/// under `root`. Draws the run seed from `random`; then walks the tree
/// breadth-first and, for each graph in turn, records its node order,
/// draws its port distributor (the root from `random`, every other graph
/// from its own generator in `child_randoms`), appends the graphs nested
/// in it to the walk, and decides whether it is swept bottom-up; those
/// graphs are listed latest first. Finally each graph gets its position
/// in the walk as its id (`number_sweep_graphs`). Returns the sweep
/// graphs, the bottom-up list and the run seed.
pub fn initialize_sweep(
    arena: &mut LGraphArena,
    root: LGraphId,
    random: &mut JavaRandom,
    child_randoms: &mut Vec<(LGraphId, JavaRandom)>,
) -> (r: (Vec<SweepGraph>, Vec<usize>, i64))
    requires
        old(arena).wf(),
        nesting_ok(&*old(arena), root),
        generators_ok(old(child_randoms)@, walk_order(&*old(arena), root)),
    ensures
        r.2 == java_long(old(random).state()),
        r.0@.len() == walk_order(&*old(arena), root).len(),
        forall|i: int|
            0 <= i < r.0@.len() ==> sweep_graph_ok(
                &*old(arena),
                #[trigger] r.0@[i],
                walk_order(&*old(arena), root),
                i,
                drawn_for(old(random).state(), old(child_randoms)@, walk_order(&*old(arena), root), i),
                walk(&*old(arena), root, i as nat).len() as int,
            ),
        r.1@ == bottom_up_list(&*old(arena), walk_order(&*old(arena), root), walk_order(&*old(arena), root).len()),
        final(random).state() == java_step(java_step(java_step(old(random).state()))),
        final(child_randoms)@.len() == old(child_randoms)@.len(),
        forall|k: int|
            0 <= k < old(child_randoms)@.len() ==> {
                &&& (#[trigger] final(child_randoms)@[k]).0 == old(child_randoms)@[k].0
                &&& walked_nested(walk_order(&*old(arena), root), walk_order(&*old(arena), root).len() as int).contains(
                    old(child_randoms)@[k].0,
                ) ==> final(child_randoms)@[k].1.state() == java_step(old(child_randoms)@[k].1.state())
                &&& !walked_nested(walk_order(&*old(arena), root), walk_order(&*old(arena), root).len() as int).contains(
                    old(child_randoms)@[k].0,
                ) ==> final(child_randoms)@[k].1 == old(child_randoms)@[k].1
            },
        numbered(&*old(arena), &*final(arena), walk_order(&*old(arena), root)),
{
    let ghost a0 = *arena;
    let ghost q = walk_order(&a0, root);
    let ghost n = a0.graphs@.len();
    let ghost s0 = random.state();
    let ghost cr0 = child_randoms@;
    let run_seed = random.next_long();
    let mut queue: Vec<LGraphId> = Vec::new();
    queue.push(root);
    let mut graphs: Vec<SweepGraph> = Vec::new();
    let mut to_sweep: Vec<usize> = Vec::new();
    let mut i: usize = 0;
    proof {
        assert(queue@ =~= walk(&a0, root, 0));
        lemma_walk_prefix(&a0, root, 0, n);
    }
    while i < queue.len()
        invariant
            *arena == a0,
            a0.wf(),
            n == a0.graphs@.len(),
            q == walk_order(&a0, root),
            nesting_ok(&a0, root),
            generators_ok(cr0, q),
            i <= n,
            i <= queue@.len(),
            queue@ == walk(&a0, root, i as nat),
            graphs@.len() == i,
            forall|j: int|
                0 <= j < i ==> sweep_graph_ok(
                    &a0,
                    #[trigger] graphs@[j],
                    q,
                    j,
                    drawn_for(s0, cr0, q, j),
                    walk(&a0, root, j as nat).len() as int,
                ),
            to_sweep@ == bottom_up_list(&a0, q, i as nat),
            i == 0 ==> random.state() == java_step(java_step(s0)),
            i > 0 ==> random.state() == java_step(java_step(java_step(s0))),
            child_randoms@.len() == cr0.len(),
            forall|k: int|
                0 <= k < cr0.len() ==> {
                    &&& (#[trigger] child_randoms@[k]).0 == cr0[k].0
                    &&& walked_nested(q, i as int).contains(cr0[k].0) ==> child_randoms@[k].1.state() == java_step(cr0[k].1.state())
                    &&& !walked_nested(q, i as int).contains(cr0[k].0) ==> child_randoms@[k].1 == cr0[k].1
                },
        decreases n - i,
    {
        proof {
            lemma_walk_prefix(&a0, root, i as nat, n);
        }
        let g = queue[i];
        proof {
            assert(g == q[i as int]);
            assert(sweep_input(&a0, q[i as int].0 as int));
        }
        let order = layer_orders(&*arena, g);
        let ghost cr_before = child_randoms@;
        let node_relative = if i == 0 {
            proof {
                assert(walked_nested(q, 1) =~= Seq::<LGraphId>::empty());
            }
            random.next_boolean()
        } else {
            proof {
                assert(exists|k: int| 0 <= k < cr0.len() && cr0[k].0 == q[i as int]);
                let k = choose|k: int| 0 <= k < cr0.len() && cr0[k].0 == q[i as int];
                assert(child_randoms@[k].0 == g);
            }
            let k = find_generator(child_randoms, g);
            let ghost before = child_randoms@;
            let mut entry = child_randoms.remove(k);
            let b = entry.1.next_boolean();
            child_randoms.insert(k, entry);
            proof {
                assert(child_randoms@ =~= before.update(k as int, entry));
                let kk = generator_of(cr0, q[i as int]);
                assert(cr0[k as int].0 == g);
                assert(kk == k as int) by {
                    if kk != k as int {
                        assert(cr0[kk].0 != cr0[k as int].0);
                    }
                }
                assert(!walked_nested(q, i as int).contains(g)) by {
                    if walked_nested(q, i as int).contains(g) {
                        let w = choose|w: int| 0 <= w < walked_nested(q, i as int).len() && walked_nested(q, i as int)[w] == g;
                        assert(q[w + 1] == q[i as int]);
                        assert(w + 1 != i);
                    }
                }
                assert(before[k as int].1 == cr0[k as int].1);
                assert(walked_nested(q, i + 1) =~= walked_nested(q, i as int).push(q[i as int]));
                assert forall|k2: int|
                    0 <= k2 < cr0.len() implies {
                        &&& (#[trigger] child_randoms@[k2]).0 == cr0[k2].0
                        &&& walked_nested(q, i + 1).contains(cr0[k2].0) ==> child_randoms@[k2].1.state() == java_step(
                            cr0[k2].1.state(),
                        )
                        &&& !walked_nested(q, i + 1).contains(cr0[k2].0) ==> child_randoms@[k2].1 == cr0[k2].1
                    } by {
                    let wn1 = walked_nested(q, i + 1);
                    let wn0 = walked_nested(q, i as int);
                    if k2 != k as int {
                        assert(cr0[k2].0 != cr0[k as int].0);
                        assert(child_randoms@[k2] == before[k2]);
                        if wn1.contains(cr0[k2].0) {
                            let w = choose|w: int| 0 <= w < wn1.len() && wn1[w] == cr0[k2].0;
                            if w < wn0.len() {
                                assert(wn0[w] == cr0[k2].0);
                                assert(wn0.contains(cr0[k2].0));
                            }
                        }
                        if wn0.contains(cr0[k2].0) {
                            let w = choose|w: int| 0 <= w < wn0.len() && wn0[w] == cr0[k2].0;
                            assert(wn1[w] == cr0[k2].0);
                        }
                    } else {
                        assert(wn1[wn0.len() as int] == g);
                    }
                }
            }
            b
        };
        let ghost first = queue@.len();
        let child_ids = collect_children(&*arena, g, &mut queue);
        let dont = use_bottom_up(&*arena, g, false);
        let sg = SweepGraph {
            lgraph: g,
            order,
            node_relative,
            parent_node: arena.graphs[g.0].parent_node,
            child_graph_ids: child_ids,
            dont_sweep_into: dont,
            has_external_ports: arena.graphs[g.0].props.graph_properties.external_ports,
            consider_model_order: !matches!(arena.graphs[g.0].props.consider_model_order, OrderingStrategy::NoOrdering),
        };
        graphs.push(sg);
        if dont {
            to_sweep.insert(0, i);
        }
        proof {
            assert(queue@ == walk(&a0, root, (i + 1) as nat));
            assert(sweep_graph_ok(&a0, sg, q, i as int, drawn_for(s0, cr0, q, i as int), first as int));
            assert forall|j: int|
                0 <= j < i + 1 implies sweep_graph_ok(
                    &a0,
                    #[trigger] graphs@[j],
                    q,
                    j,
                    drawn_for(s0, cr0, q, j),
                    walk(&a0, root, j as nat).len() as int,
                ) by {
                if j == i {
                    assert(graphs@[j] == sg);
                }
            }
            if dont {
                assert(to_sweep@ =~= seq![i] + bottom_up_list(&a0, q, i as nat));
            }
        }
        i += 1;
    }
    proof {
        lemma_walk_prefix(&a0, root, i as nat, n);
        assert(queue@ =~= q) by {
            if (i as nat) < n {
                lemma_walk_settles(&a0, root, i as nat, n);
            }
        }
        assert(i == q.len());
    }
    number_sweep_graphs(arena, &queue);
    (graphs, to_sweep, run_seed)
}

} // verus!
