//! Reordering a graph's nodes into the order in which a depth-first
//! search discovers them, before the graph's cycles are broken.

use vstd::prelude::*;
use crate::layout::elk::alg::graph::{LGraphArena, LGraphId, LNodeId};
use crate::layout::elk::alg::options::GraphProps;
use crate::layout::elk::alg::p1_cycles::{copy_vec, same_but_ids, source_node, target_node};
use crate::layout::elk::alg::p2_layers::{
    adjacent,
    closed_at,
    dfs,
    dfs_frame,
    ids,
    joins,
    none_of,
    owned_at,
    owned_from,
    walk_between,
};

verus! {

/// Whether the components of a graph with the options `p` are laid out
/// one by one: separation must be on, and the graph must either leave
/// its port order free or have no external ports.
pub open spec fn separates(p: GraphProps) -> bool {
    p.separate_connected_components && (!(p.port_constraints is FixedOrder || p.port_constraints is FixedRatio
        || p.port_constraints is FixedPos) || !p.graph_properties.external_ports)
}

/// The nodes a search through the graph with the node list `nodes` may
/// enter: those of the list, and the others whose id is 0.
pub open spec fn open_nodes(a: &LGraphArena, nodes: Seq<usize>) -> Seq<bool> {
    Seq::new(a.nodes@.len(), |k: int| nodes.contains(k as usize) || a.nodes@[k].id == 0)
}

/// A walk through nodes that `open` marks leads from `x` to `y`.
pub open spec fn reaches(a: &LGraphArena, open: Seq<bool>, x: usize, y: usize) -> bool {
    exists|p: Seq<usize>| #[trigger] walk_between(a, open, none_of(open.len()), p, x, y)
}

/// The node list `nodes` forms one component: walks through open nodes
/// lead from its first node to each of its nodes, and every node they
/// reach has its edges' ends at ports of nodes.
pub open spec fn one_component(a: &LGraphArena, nodes: Seq<usize>) -> bool {
    nodes.len() > 0 ==> {
        let open = open_nodes(a, nodes);
        &&& owned_from(a, open, nodes[0])
        &&& forall|i: int| 0 <= i < nodes.len() ==> reaches(a, open, nodes[0], #[trigger] nodes[i])
    }
}

/// Arenas with the same ports and edges link the same nodes.
pub proof fn lemma_same_links(a: &LGraphArena, b: &LGraphArena)
    requires
        a.ports == b.ports,
        a.edges == b.edges,
    ensures
        forall|e: usize, x: usize, y: usize| #[trigger] joins(a, e, x, y) == joins(b, e, x, y),
        forall|x: usize, y: usize| #[trigger] adjacent(a, x, y) == adjacent(b, x, y),
        forall|inside: Seq<bool>, outside: Seq<bool>, p: Seq<usize>, x: usize, y: usize|
            #[trigger] walk_between(a, inside, outside, p, x, y) == walk_between(b, inside, outside, p, x, y),
        forall|y: usize| #[trigger] owned_at(a, y) == owned_at(b, y),
        forall|set: Seq<bool>, x: usize| #[trigger] owned_from(a, set, x) == owned_from(b, set, x),
{
    assert forall|e: usize| #[trigger] source_node(a, e) == source_node(b, e) && target_node(a, e) == target_node(b, e) by {
    }
    assert forall|e: usize, x: usize, y: usize| #[trigger] joins(a, e, x, y) == joins(b, e, x, y) by {
        assert(source_node(a, e) == source_node(b, e) && target_node(a, e) == target_node(b, e));
    }
    assert forall|x: usize, y: usize| #[trigger] adjacent(a, x, y) == adjacent(b, x, y) by {
        if adjacent(a, x, y) {
            let e = choose|e: usize| e < a.edges@.len() && #[trigger] joins(a, e, x, y);
            assert(joins(b, e, x, y));
        }
        if adjacent(b, x, y) {
            let e = choose|e: usize| e < b.edges@.len() && #[trigger] joins(b, e, x, y);
            assert(joins(a, e, x, y));
        }
    }
    assert forall|inside: Seq<bool>, outside: Seq<bool>, p: Seq<usize>, x: usize, y: usize|
        #[trigger] walk_between(a, inside, outside, p, x, y) == walk_between(b, inside, outside, p, x, y) by {
        assert forall|k: int| 0 <= k < p.len() - 1 implies adjacent(a, #[trigger] p[k], p[k + 1]) == adjacent(b, p[k], p[k + 1]) by {
        }
    }
    assert forall|y: usize| #[trigger] owned_at(a, y) == owned_at(b, y) by {
        if owned_at(a, y) {
            assert forall|e: int|
                0 <= e < b.edges@.len() && (#[trigger] source_node(b, e as usize) == Some(y) || target_node(b, e as usize)
                    == Some(y)) implies source_node(b, e as usize) is Some && target_node(b, e as usize) is Some by {
                assert(source_node(a, e as usize) == source_node(b, e as usize));
                assert(target_node(a, e as usize) == target_node(b, e as usize));
            }
        }
        if owned_at(b, y) {
            assert forall|e: int|
                0 <= e < a.edges@.len() && (#[trigger] source_node(a, e as usize) == Some(y) || target_node(a, e as usize)
                    == Some(y)) implies source_node(a, e as usize) is Some && target_node(a, e as usize) is Some by {
                assert(source_node(a, e as usize) == source_node(b, e as usize));
                assert(target_node(a, e as usize) == target_node(b, e as usize));
            }
        }
    }
    assert forall|set: Seq<bool>, x: usize| #[trigger] owned_from(a, set, x) == owned_from(b, set, x) by {
        if owned_from(a, set, x) {
            assert forall|y: usize, p: Seq<usize>| #[trigger] walk_between(b, set, none_of(set.len()), p, x, y) implies owned_at(
                b,
                y,
            ) by {
                assert(walk_between(a, set, none_of(set.len()), p, x, y));
                assert(owned_at(a, y) == owned_at(b, y));
            }
        }
        if owned_from(b, set, x) {
            assert forall|y: usize, p: Seq<usize>| #[trigger] walk_between(a, set, none_of(set.len()), p, x, y) implies owned_at(
                a,
                y,
            ) by {
                assert(walk_between(b, set, none_of(set.len()), p, x, y));
                assert(owned_at(a, y) == owned_at(b, y));
            }
        }
    }
}


/// Arenas that differ in node ids only are equally well formed.
pub proof fn lemma_ids_keep_wf(a: &LGraphArena, b: &LGraphArena)
    requires
        same_but_ids(a, b),
        a.wf(),
    ensures
        b.wf(),
        a.port_lists() == b.port_lists(),
        a.graph_of() == b.graph_of(),
        a.layer_of() == b.layer_of(),
        a.layerless_lists() == b.layerless_lists(),
        a.layer_lists() == b.layer_lists(),
{
    assert(a.port_lists() =~= b.port_lists());
    assert(a.graph_of() =~= b.graph_of());
    assert(a.layer_of() =~= b.layer_of());
}

/// A search through `set` from `node` that started with nothing visited
/// visits every node that a walk through `set` reaches from `node`.
pub proof fn lemma_walk_visited(
    a: &LGraphArena,
    node: usize,
    set: Seq<bool>,
    o0: Seq<LNodeId>,
    v: Seq<bool>,
    o: Seq<LNodeId>,
    p: Seq<usize>,
    y: usize,
    k: int,
)
    requires
        dfs_frame(a, node, set, none_of(set.len()), o0, v, o),
        closed_at(a, node, set, v),
        walk_between(a, set, none_of(set.len()), p, node, y),
        0 <= k < p.len(),
    ensures
        v[p[k] as int],
    decreases k,
{
    if k > 0 {
        lemma_walk_visited(a, node, set, o0, v, o, p, y, k - 1);
        let x = p[k - 1];
        let z = p[k];
        assert(adjacent(a, x, z));
        assert(z < set.len() && set[z as int]);
        assert(x < set.len() && set[x as int]);
        if x != node {
            assert(v[x as int] && !none_of(set.len())[x as int]);
        }
    }
}

/// What a split of graph `g` leaves: the node list of `g` is the
/// component of its first node, without repetition and starting with
/// that node; the ids of those nodes are 1, those of the rest of the list
/// 0, all others as before; nothing else changed.
pub open spec fn split_done(a: &LGraphArena, b: &LGraphArena, g: int) -> bool {
    let ns = a.layerless_lists()[g];
    let open = open_nodes(a, ns);
    let c = b.layerless_lists()[g];
    &&& c.len() >= 1
    &&& c[0] == ns[0]
    &&& c.no_duplicates()
    &&& forall|x: usize| #[trigger] c.contains(x) <==> x < a.nodes@.len() && reaches(a, open, ns[0], x)
    &&& b.layerless_lists() == a.layerless_lists().update(g, c)
    &&& b.ports == a.ports
    &&& b.edges == a.edges
    &&& b.labels == a.labels
    &&& b.graphs@.len() == a.graphs@.len()
    &&& forall|i: int|
        0 <= i < a.graphs@.len() ==> {
            &&& (#[trigger] b.graphs@[i]).layers == a.graphs@[i].layers
            &&& b.graphs@[i].props == a.graphs@[i].props
            &&& b.graphs@[i].parent_node == a.graphs@[i].parent_node
            &&& b.graphs@[i].id == a.graphs@[i].id
        }
    &&& b.nodes@.len() == a.nodes@.len()
    &&& forall|x: int|
        0 <= x < a.nodes@.len() ==> {
            &&& (#[trigger] b.nodes@[x]).id == if c.contains(x as usize) {
                1
            } else if ns.contains(x as usize) {
                0
            } else {
                a.nodes@[x].id
            }
            &&& b.nodes@[x].graph == a.nodes@[x].graph
            &&& b.nodes@[x].layer == a.nodes@[x].layer
            &&& b.nodes@[x].node_type == a.nodes@[x].node_type
            &&& b.nodes@[x].ports == a.nodes@[x].ports
            &&& b.nodes@[x].labels == a.nodes@[x].labels
            &&& b.nodes@[x].nested_graph == a.nodes@[x].nested_graph
            &&& b.nodes@[x].props == a.nodes@[x].props
        }
}

/// Splits graph `graph` into its connected components. Where its options
/// separate them and it has nodes, its node list becomes the nodes that
/// a depth-first search from its first node discovers, walking along the
/// edges of each port (incoming before outgoing) into nodes of the list
/// and nodes whose id is 0, and marking each discovered node with id 1.
/// Returns the graphs to lay out: `graph` itself.
pub fn split(arena: &mut LGraphArena, graph: LGraphId) -> (r: Vec<LGraphId>)
    requires
        old(arena).wf(),
        graph.0 < old(arena).graphs@.len(),
        separates(old(arena).graphs@[graph.0 as int].props) ==> one_component(
            old(arena),
            old(arena).layerless_lists()[graph.0 as int],
        ),
    ensures
        r@ == seq![graph],
        final(arena).wf(),
        !separates(old(arena).graphs@[graph.0 as int].props) || old(arena).layerless_lists()[graph.0 as int].len() == 0
            ==> *final(arena) == *old(arena),
        separates(old(arena).graphs@[graph.0 as int].props) && old(arena).layerless_lists()[graph.0 as int].len() > 0
            ==> split_done(old(arena), final(arena), graph.0 as int),
{
    let ghost a0 = *arena;
    let ghost ns = a0.layerless_lists()[graph.0 as int];
    let ghost n = a0.nodes@.len();
    let separate = arena.graphs[graph.0].props.separate_connected_components;
    let ext_ports = arena.graphs[graph.0].props.graph_properties.external_ports;
    let compatible = !arena.graphs[graph.0].props.port_constraints.is_order_fixed();
    if !(separate && (compatible || !ext_ports)) {
        return vec![graph];
    }
    let nodes = copy_vec(&arena.graphs[graph.0].layerless_nodes);
    proof {
        assert(ids(nodes@) =~= ns);
    }
    if nodes.len() == 0 {
        return vec![graph];
    }
    let mut k: usize = 0;
    while k < nodes.len()
        invariant
            ns == ids(nodes@),
            ns == a0.layerless_lists()[graph.0 as int],
            graph.0 < a0.graphs@.len(),
            a0.wf(),
            n == a0.nodes@.len(),
            same_but_ids(&a0, &*arena),
            k <= nodes@.len(),
            forall|x: usize| x < n ==> #[trigger] arena.nodes@[x as int].id == if ns.take(k as int).contains(x) {
                0
            } else {
                a0.nodes@[x as int].id
            },
        decreases nodes@.len() - k,
    {
        let x = nodes[k].0;
        proof {
            assert(ns[k as int] == x);
            assert(a0.layerless_lists()[graph.0 as int][k as int] < a0.nodes@.len());
        }
        let ghost prev = arena.nodes@;
        arena.nodes[x].id = 0;
        k += 1;
        proof {
            assert(arena.nodes@[x as int].id == 0);
            assert(ns.take(k as int) =~= ns.take(k - 1).push(x));
            assert forall|y: usize| y < n implies #[trigger] arena.nodes@[y as int].id == if ns.take(k as int).contains(y) {
                0
            } else {
                a0.nodes@[y as int].id
            } by {
                let before = ns.take(k - 1);
                assert(prev[y as int].id == if before.contains(y) {
                    0
                } else {
                    a0.nodes@[y as int].id
                });
                if before.contains(y) {
                    let q = choose|q: int| 0 <= q < before.len() && before[q] == y;
                    assert(ns.take(k as int)[q] == y);
                }
                if ns.take(k as int).contains(y) && y != x {
                    let q = choose|q: int| 0 <= q < k && ns.take(k as int)[q] == y;
                    assert(before[q] == y);
                }
                if y == x {
                    assert(ns.take(k as int)[k - 1] == x);
                } else {
                    assert(arena.nodes@[y as int] == prev[y as int]);
                    assert(ns.take(k as int).contains(y) == before.contains(y));
                }
            }
        }
    }
    let ghost a1 = *arena;
    proof {
        assert(ns.take(nodes@.len() as int) =~= ns);
        lemma_ids_keep_wf(&a0, &a1);
        lemma_same_links(&a0, &a1);
    }
    let n_nodes = arena.nodes.len();
    let mut node_set: Vec<bool> = Vec::new();
    let mut visited: Vec<bool> = Vec::new();
    let mut t: usize = 0;
    while t < n_nodes
        invariant
            n_nodes == n,
            a1 == *arena,
            a1.nodes@.len() == n,
            t <= n_nodes,
            node_set@ == Seq::new(t as nat, |q: int| a1.nodes@[q].id == 0),
            visited@ == Seq::new(t as nat, |q: int| false),
        decreases n_nodes - t,
    {
        node_set.push(arena.nodes[t].id == 0);
        visited.push(false);
        t += 1;
        proof {
            assert(node_set@ =~= Seq::new(t as nat, |q: int| a1.nodes@[q].id == 0));
            assert(visited@ =~= Seq::new(t as nat, |q: int| false));
        }
    }
    let ghost open = open_nodes(&a0, ns);
    proof {
        assert(node_set@ =~= open);
        assert(visited@ =~= none_of(n));
        assert(ns[0] == nodes@[0].0);
        assert(ns.contains(ns[0]));
        assert(owned_from(&a1, open, ns[0]));
    }
    let mut component: Vec<LNodeId> = Vec::new();
    dfs(&*arena, nodes[0], &node_set, &mut visited, &mut component);
    let ghost part = ids(component@);
    proof {
        let v = visited@;
        let v0 = none_of(n);
        assert(component@.subrange(0, component@.len() as int) =~= component@);
        assert(dfs_frame(&a1, ns[0], open, v0, Seq::empty(), v, component@));
        assert forall|x: usize| #[trigger] part.contains(x) <==> x < n && reaches(&a0, open, ns[0], x) by {
            if part.contains(x) {
                assert(x < v.len() && v[x as int] && !v0[x as int]);
                let p = choose|p: Seq<usize>| #[trigger] walk_between(&a1, v, v0, p, ns[0], x);
                assert forall|q: int| 0 <= q < p.len() implies #[trigger] p[q] < open.len() && open[p[q] as int] && !v0[p[q] as int] by {
                    assert(p[q] < v.len() && v[p[q] as int] && !v0[p[q] as int]);
                }
                assert(walk_between(&a1, open, v0, p, ns[0], x));
                assert(walk_between(&a0, open, v0, p, ns[0], x));
            }
            if x < n && reaches(&a0, open, ns[0], x) {
                let p = choose|p: Seq<usize>| #[trigger] walk_between(&a0, open, none_of(open.len()), p, ns[0], x);
                assert(walk_between(&a1, open, none_of(open.len()), p, ns[0], x));
                lemma_walk_visited(&a1, ns[0], open, Seq::empty(), v, component@, p, x, p.len() - 1);
            }
        }
        assert forall|i: int| 0 <= i < ns.len() implies #[trigger] part.contains(ns[i]) by {
            assert(reaches(&a0, open, ns[0], ns[i]));
            assert(ns[i] < n);
        }
    }
    let mut j: usize = 0;
    while j < component.len()
        invariant
            a0.wf(),
            n == a0.nodes@.len(),
            same_but_ids(&a0, &*arena),
            part == ids(component@),
            part.no_duplicates(),
            forall|q: int| 0 <= q < part.len() ==> #[trigger] part[q] < n,
            j <= component@.len(),
            forall|x: usize| x < n ==> #[trigger] arena.nodes@[x as int].id == if part.take(j as int).contains(x) {
                1
            } else {
                a1.nodes@[x as int].id
            },
        decreases component@.len() - j,
    {
        let x = component[j].0;
        proof {
            assert(part[j as int] == x);
        }
        let ghost prev = arena.nodes@;
        arena.nodes[x].id = 1;
        j += 1;
        proof {
            assert(arena.nodes@[x as int].id == 1);
            assert forall|y: usize| y < n implies #[trigger] arena.nodes@[y as int].id == if part.take(j as int).contains(y) {
                1
            } else {
                a1.nodes@[y as int].id
            } by {
                let before = part.take(j - 1);
                assert(part.take(j as int) =~= before.push(x));
                assert(prev[y as int].id == if before.contains(y) {
                    1
                } else {
                    a1.nodes@[y as int].id
                });
                if before.contains(y) {
                    let q = choose|q: int| 0 <= q < before.len() && before[q] == y;
                    assert(part.take(j as int)[q] == y);
                }
                if part.take(j as int).contains(y) && y != x {
                    let q = choose|q: int| 0 <= q < j && part.take(j as int)[q] == y;
                    assert(before[q] == y);
                }
                if y == x {
                    assert(part.take(j as int)[j - 1] == x);
                } else {
                    assert(arena.nodes@[y as int] == prev[y as int]);
                    assert(part.take(j as int).contains(y) == before.contains(y));
                }
            }
        }
    }
    let ghost a2 = *arena;
    proof {
        assert(part.take(component@.len() as int) =~= part);
        lemma_ids_keep_wf(&a0, &a2);
    }
    arena.graphs[graph.0].layerless_nodes = component;
    proof {
        let b = *arena;
        assert(b.layerless_lists() =~= a0.layerless_lists().update(graph.0 as int, part));
        assert(b.layer_lists() =~= a2.layer_lists());
        assert(b.graph_of() =~= a2.graph_of());
        assert(b.layer_of() =~= a2.layer_of());
        assert(b.port_lists() =~= a2.port_lists());
        assert forall|i: int, q: int| 0 <= i < b.layerless_lists().len() && 0 <= q < b.layerless_lists()[i].len() implies #[trigger] b.layerless_lists()[i][q]
            < b.nodes@.len() by {
            if i != graph.0 {
                assert(b.layerless_lists()[i] == a0.layerless_lists()[i]);
            }
        }
        assert(b.wf());
        assert(part[0] == ns[0]);
        assert(split_done(&a0, &b, graph.0 as int));
    }
    vec![graph]
}

} // verus!
