//! The layered algorithm's graph model: one arena owns every graph,
//! node, port, edge and label of a layout run, and elements refer to each
//! other by typed indices. The relationship-maintaining setters
//! (`port_set_node`, `edge_set_source`, `edge_set_target`,
//! `node_set_layer`, …) keep both sides of each relationship in sync: a
//! port's owner lists the port, an edge's source port lists the edge as
//! outgoing, its target port as incoming, and a node's layer lists the
//! node.
//!
//! This arena holds the structure and the integer properties of the
//! elements; coordinates and sizes are kept by the geometry stages.

use vstd::prelude::*;
use crate::layout::elk::alg::options::{default_node_props, EdgeLabelPlacement, EdgeProps, GraphProps, LabelProps, NodeProps, PortSide};

verus! {

/// Index of a graph in the arena.
#[derive(Debug, Clone, Copy, Default, PartialEq, Eq, Hash, PartialOrd, Ord, Structural)]
pub struct LGraphId(pub usize);

/// Index of a node in the arena.
#[derive(Debug, Clone, Copy, Default, PartialEq, Eq, Hash, PartialOrd, Ord, Structural)]
pub struct LNodeId(pub usize);

/// Index of a port in the arena.
#[derive(Debug, Clone, Copy, Default, PartialEq, Eq, Hash, PartialOrd, Ord, Structural)]
pub struct LPortId(pub usize);

/// Index of an edge in the arena.
#[derive(Debug, Clone, Copy, Default, PartialEq, Eq, Hash, PartialOrd, Ord, Structural)]
pub struct LEdgeId(pub usize);

/// Index of a label in the arena.
#[derive(Debug, Clone, Copy, Default, PartialEq, Eq, Hash, PartialOrd, Ord, Structural)]
pub struct LLabelId(pub usize);

/// What a node of the layered graph stands for.
#[derive(Debug, Clone, Copy, PartialEq, Eq, Structural)]
pub enum NodeType {
    Normal,
    LongEdge,
    ExternalPort,
    NorthSouthPort,
    Label,
    BreakingPoint,
    Placeholder,
    NonshiftingPlaceholder,
}

impl Default for NodeType {
    fn default() -> (r: Self)
        ensures
            r == NodeType::Normal,
    {
        NodeType::Normal
    }
}

/// `ends[e]` is the index of the element `e` points to, and `lists[p]`
/// lists, without repetition, exactly the elements pointing to `p`.
pub open spec fn in_sync(ends: Seq<Option<usize>>, lists: Seq<Seq<usize>>) -> bool {
    &&& forall|e: int|
        0 <= e < ends.len() && #[trigger] ends[e] is Some ==> ends[e]->0 < lists.len()
            && lists[ends[e]->0 as int].contains(e as usize)
    &&& forall|p: int, k: int|
        0 <= p < lists.len() && 0 <= k < lists[p].len() ==> #[trigger] lists[p][k] < ends.len()
            && ends[lists[p][k] as int] == Some(p as usize)
    &&& forall|p: int| 0 <= p < lists.len() ==> #[trigger] lists[p].no_duplicates()
}

/// The layer of each node of graph `g` (nodes of other graphs have none).
pub open spec fn layer_ends(graph_of: Seq<usize>, layer_of: Seq<Option<usize>>, g: int) -> Seq<Option<usize>> {
    Seq::new(layer_of.len(), |n: int| if graph_of[n] == g { layer_of[n] } else { None })
}

/// Every node lies in an existing graph; in each graph, a node with a
/// layer is listed in that layer, and every listed node has that layer,
/// once.
pub open spec fn layers_in_sync(graph_of: Seq<usize>, layer_of: Seq<Option<usize>>, lists: Seq<Seq<Seq<usize>>>) -> bool {
    &&& graph_of.len() == layer_of.len()
    &&& forall|n: int| 0 <= n < graph_of.len() ==> #[trigger] graph_of[n] < lists.len()
    &&& forall|g: int| 0 <= g < lists.len() ==> in_sync(#[trigger] layer_ends(graph_of, layer_of, g), lists[g])
}

/// Every index in `lists` is below `bound`.
pub open spec fn all_below(lists: Seq<Seq<usize>>, bound: nat) -> bool {
    forall|i: int, k: int| 0 <= i < lists.len() && 0 <= k < lists[i].len() ==> #[trigger] lists[i][k] < bound
}

/// The index an optional port reference points to.
pub open spec fn port_index(p: Option<LPortId>) -> Option<usize> {
    match p {
        Some(q) => Some(q.0),
        None => None,
    }
}

/// The index an optional node reference points to.
pub open spec fn node_index(n: Option<LNodeId>) -> Option<usize> {
    match n {
        Some(m) => Some(m.0),
        None => None,
    }
}

/// A layer: its nodes in in-layer order.
#[derive(Debug, Clone)]
pub struct Layer {
    pub id: usize,
    pub nodes: Vec<LNodeId>,
}

/// A graph of the nesting tree. `layers` only fills after the layering
/// phase; until then nodes live in `layerless_nodes`.
#[derive(Debug, Clone)]
pub struct LGraph {
    /// Scratch field algorithms use freely.
    pub id: usize,
    pub layerless_nodes: Vec<LNodeId>,
    pub layers: Vec<Layer>,
    pub parent_node: Option<LNodeId>,
    pub props: GraphProps,
}

/// A node; its port order is meaningful (clockwise once sides are fixed).
#[derive(Debug, Clone)]
pub struct LNode {
    /// Scratch field algorithms use freely.
    pub id: usize,
    pub graph: LGraphId,
    /// Index into the owning graph's `layers` (None until layered).
    pub layer: Option<usize>,
    pub node_type: NodeType,
    pub ports: Vec<LPortId>,
    pub labels: Vec<LLabelId>,
    pub nested_graph: Option<LGraphId>,
    pub props: NodeProps,
}

/// A port.
#[derive(Debug, Clone)]
pub struct LPort {
    /// Scratch field algorithms use freely.
    pub id: usize,
    pub owner: Option<LNodeId>,
    pub side: PortSide,
    pub labels: Vec<LLabelId>,
    pub incoming_edges: Vec<LEdgeId>,
    pub outgoing_edges: Vec<LEdgeId>,
    /// Collector ports of hypernodes, which edge reversal does not handle.
    pub input_collect: bool,
    pub output_collect: bool,
    /// The external-port dummy standing for this port inside the node's
    /// nested graph.
    pub port_dummy: Option<LNodeId>,
    /// For an output port, the real node its long edge ends at, recorded
    /// while the ports are sorted by model order.
    pub long_edge_target_node: Option<LNodeId>,
}

/// An edge between two ports.
#[derive(Debug, Clone)]
pub struct LEdge {
    /// Scratch field algorithms use freely.
    pub id: usize,
    pub source: Option<LPortId>,
    pub target: Option<LPortId>,
    pub labels: Vec<LLabelId>,
    pub props: EdgeProps,
}

/// A label.
#[derive(Debug, Clone)]
pub struct LLabel {
    /// Scratch field algorithms use freely.
    pub id: usize,
    pub text: String,
    pub props: LabelProps,
}

/// Owns every element of every graph in one layout run; the whole
/// nested-graph tree shares it, since compound processing moves edges and
/// ports across graph boundaries.
#[derive(Debug, Clone)]
pub struct LGraphArena {
    pub graphs: Vec<LGraph>,
    pub nodes: Vec<LNode>,
    pub ports: Vec<LPort>,
    pub edges: Vec<LEdge>,
    pub labels: Vec<LLabel>,
}

impl LGraphArena {
    /// The source port of each edge.
    pub open spec fn sources(&self) -> Seq<Option<usize>> {
        self.edges@.map_values(|e: LEdge| port_index(e.source))
    }

    /// The target port of each edge.
    pub open spec fn targets(&self) -> Seq<Option<usize>> {
        self.edges@.map_values(|e: LEdge| port_index(e.target))
    }

    /// The outgoing edges of each port, in order.
    pub open spec fn out_lists(&self) -> Seq<Seq<usize>> {
        self.ports@.map_values(|p: LPort| p.outgoing_edges@.map_values(|e: LEdgeId| e.0))
    }

    /// The incoming edges of each port, in order.
    pub open spec fn in_lists(&self) -> Seq<Seq<usize>> {
        self.ports@.map_values(|p: LPort| p.incoming_edges@.map_values(|e: LEdgeId| e.0))
    }

    /// The node owning each port.
    pub open spec fn owners(&self) -> Seq<Option<usize>> {
        self.ports@.map_values(|p: LPort| node_index(p.owner))
    }

    /// The hypernode collector flags (input, output) of each port.
    pub open spec fn collect_flags(&self) -> Seq<(bool, bool)> {
        self.ports@.map_values(|p: LPort| (p.input_collect, p.output_collect))
    }

    /// The ports of each node, in order.
    pub open spec fn port_lists(&self) -> Seq<Seq<usize>> {
        self.nodes@.map_values(|n: LNode| n.ports@.map_values(|p: LPortId| p.0))
    }

    /// The graph of each node.
    pub open spec fn graph_of(&self) -> Seq<usize> {
        self.nodes@.map_values(|n: LNode| n.graph.0)
    }

    /// The layer of each node.
    pub open spec fn layer_of(&self) -> Seq<Option<usize>> {
        self.nodes@.map_values(|n: LNode| n.layer)
    }

    /// For each graph, the nodes of each of its layers, in order.
    pub open spec fn layer_lists(&self) -> Seq<Seq<Seq<usize>>> {
        self.graphs@.map_values(|g: LGraph| g.layers@.map_values(|l: Layer| l.nodes@.map_values(|n: LNodeId| n.0)))
    }

    /// The labels of each edge.
    pub open spec fn edge_label_lists(&self) -> Seq<Seq<usize>> {
        self.edges@.map_values(|e: LEdge| e.labels@.map_values(|l: LLabelId| l.0))
    }

    /// The layerless nodes of each graph.
    pub open spec fn layerless_lists(&self) -> Seq<Seq<usize>> {
        self.graphs@.map_values(|g: LGraph| g.layerless_nodes@.map_values(|n: LNodeId| n.0))
    }

    /// Both sides of every relationship agree, and every reference names
    /// an existing element.
    pub open spec fn wf(&self) -> bool {
        &&& in_sync(self.sources(), self.out_lists())
        &&& in_sync(self.targets(), self.in_lists())
        &&& in_sync(self.owners(), self.port_lists())
        &&& self.out_lists().len() == self.in_lists().len()
        &&& self.owners().len() == self.out_lists().len()
        &&& self.sources().len() == self.targets().len()
        &&& self.port_lists().len() == self.nodes@.len()
        &&& layers_in_sync(self.graph_of(), self.layer_of(), self.layer_lists())
        &&& all_below(self.edge_label_lists(), self.labels@.len())
        &&& all_below(self.layerless_lists(), self.nodes@.len())
    }
}

impl Default for LGraphArena {
    fn default() -> (r: Self)
        ensures
            r.wf(),
            r.graphs@.len() == 0,
            r.nodes@.len() == 0,
            r.ports@.len() == 0,
            r.edges@.len() == 0,
            r.labels@.len() == 0,
    {
        let r = LGraphArena {
            graphs: Vec::new(),
            nodes: Vec::new(),
            ports: Vec::new(),
            edges: Vec::new(),
            labels: Vec::new(),
        };
        proof {
            assert(r.sources() =~= Seq::empty());
            assert(r.targets() =~= Seq::empty());
            assert(r.out_lists() =~= Seq::empty());
            assert(r.in_lists() =~= Seq::empty());
            assert(r.owners() =~= Seq::empty());
            assert(r.port_lists() =~= Seq::empty());
            assert(r.graph_of() =~= Seq::empty());
            assert(r.layer_of() =~= Seq::empty());
            assert(r.layer_lists() =~= Seq::empty());
            assert(r.edge_label_lists() =~= Seq::empty());
            assert(r.layerless_lists() =~= Seq::empty());
        }
        r
    }
}

/// `lists` after the element `e` moved from the list of `from` to
/// position `at` of the list of `to` (either may be absent).
pub open spec fn moved(lists: Seq<Seq<usize>>, from: Option<usize>, e: usize, to: Option<usize>, at: int) -> Seq<Seq<usize>> {
    let base = match from {
        Some(q) => lists.update(q as int, lists[q as int].remove_value(e)),
        None => lists,
    };
    match to {
        Some(p) => base.update(p as int, base[p as int].insert(at, e)),
        None => base,
    }
}

/// `lists` after `e` moved from the list of `from` to the end of the list
/// of `to`.
pub open spec fn moved_to_end(lists: Seq<Seq<usize>>, from: Option<usize>, e: usize, to: Option<usize>) -> Seq<Seq<usize>> {
    let base = match from {
        Some(q) => lists.update(q as int, lists[q as int].remove_value(e)),
        None => lists,
    };
    match to {
        Some(p) => moved(lists, from, e, to, base[p as int].len() as int),
        None => base,
    }
}

proof fn lemma_remove_unique(s: Seq<usize>, e: usize)
    requires
        s.no_duplicates(),
    ensures
        s.remove_value(e).no_duplicates(),
        !s.remove_value(e).contains(e),
        forall|y: usize| y != e ==> (s.remove_value(e).contains(y) <==> s.contains(y)),
        forall|k: int| 0 <= k < s.remove_value(e).len() ==> s.contains(#[trigger] s.remove_value(e)[k]),
{
    s.index_of_first_ensures(e);
    match s.index_of_first(e) {
        Some(i) => {
            let r = s.remove(i);
            assert(r == s.remove_value(e));
            assert forall|k: int| 0 <= k < r.len() implies s.contains(#[trigger] r[k]) by {
                if k < i {
                    assert(r[k] == s[k]);
                } else {
                    assert(r[k] == s[k + 1]);
                }
            }
            assert forall|y: usize| y != e && s.contains(y) implies r.contains(y) by {
                let k = choose|k: int| 0 <= k < s.len() && s[k] == y;
                if k < i {
                    assert(r[k] == y);
                } else {
                    assert(k != i);
                    assert(r[k - 1] == y);
                }
            }
            assert forall|a: int, b: int| 0 <= a < r.len() && 0 <= b < r.len() && a != b implies r[a] != r[b] by {
                let sa = if a < i { a } else { a + 1 };
                let sb = if b < i { b } else { b + 1 };
                assert(r[a] == s[sa]);
                assert(r[b] == s[sb]);
            }
            if r.contains(e) {
                let k = choose|k: int| 0 <= k < r.len() && r[k] == e;
                let sk = if k < i { k } else { k + 1 };
                assert(s[sk] == e);
                assert(sk != i);
            }
        },
        None => {},
    }
}

proof fn lemma_insert_fresh(s: Seq<usize>, at: int, e: usize)
    requires
        s.no_duplicates(),
        !s.contains(e),
        0 <= at <= s.len(),
    ensures
        s.insert(at, e).no_duplicates(),
        forall|y: usize| s.insert(at, e).contains(y) <==> (s.contains(y) || y == e),
{
    let r = s.insert(at, e);
    assert(r[at] == e);
    assert forall|y: usize| r.contains(y) implies (s.contains(y) || y == e) by {
        let k = choose|k: int| 0 <= k < r.len() && r[k] == y;
        if k < at {
            assert(r[k] == s[k]);
        } else if k > at {
            assert(r[k] == s[k - 1]);
        }
    }
    assert forall|y: usize| s.contains(y) implies r.contains(y) by {
        let k = choose|k: int| 0 <= k < s.len() && s[k] == y;
        if k < at {
            assert(r[k] == y);
        } else {
            assert(r[k + 1] == y);
        }
    }
    assert forall|a: int, b: int| 0 <= a < r.len() && 0 <= b < r.len() && a != b implies r[a] != r[b] by {
        if a != at && b != at {
            let sa = if a < at { a } else { a - 1 };
            let sb = if b < at { b } else { b - 1 };
            assert(r[a] == s[sa]);
            assert(r[b] == s[sb]);
        } else if a == at {
            let sb = if b < at { b } else { b - 1 };
            assert(r[b] == s[sb]);
        } else {
            let sa = if a < at { a } else { a - 1 };
            assert(r[a] == s[sa]);
        }
    }
}

/// Re-pointing one element keeps the two sides in sync when the lists
/// are updated by [`moved`].
pub proof fn lemma_move_keeps_sync(ends: Seq<Option<usize>>, lists: Seq<Seq<usize>>, e: usize, to: Option<usize>, at: int)
    requires
        in_sync(ends, lists),
        lists.len() <= usize::MAX,
        ends.len() <= usize::MAX,
        e < ends.len(),
        to matches Some(p) ==> p < lists.len(),
        to matches Some(p) ==> 0 <= at <= (match ends[e as int] {
            Some(q) => if q == p {
                lists[q as int].remove_value(e)
            } else {
                lists[p as int]
            },
            None => lists[p as int],
        }).len(),
    ensures
        in_sync(ends.update(e as int, to), moved(lists, ends[e as int], e, to, at)),
{
    let from = ends[e as int];
    let e2 = ends.update(e as int, to);
    let base = match from {
        Some(q) => lists.update(q as int, lists[q as int].remove_value(e)),
        None => lists,
    };
    let l2 = moved(lists, from, e, to, at);
    assert forall|p: int| 0 <= p < lists.len() implies #[trigger] base[p].no_duplicates() && !base[p].contains(e)
        && (forall|y: usize| y != e ==> (base[p].contains(y) <==> lists[p].contains(y))) by {
        if from is Some && from->0 == p {
            assert(base[p] == lists[p].remove_value(e));
            lemma_remove_unique(lists[p], e);
        } else {
            assert(base[p] == lists[p]);
            if lists[p].contains(e) {
                let k = choose|k: int| 0 <= k < lists[p].len() && lists[p][k] == e;
                assert(ends[lists[p][k] as int] == Some(p as usize));
                assert(false);
            }
        }
    }
    assert forall|p: int| 0 <= p < lists.len() implies #[trigger] l2[p].no_duplicates() && (forall|y: usize|
        (l2[p].contains(y) <==> ((y != e && lists[p].contains(y)) || (y == e && to == Some(p as usize))))) by {
        assert(base[p].no_duplicates());
        if to is Some && to->0 == p {
            assert(l2[p] == base[p].insert(at, e));
            lemma_insert_fresh(base[p], at, e);
        } else {
            assert(l2[p] == base[p]);
        }
    }
    assert forall|x: int| 0 <= x < e2.len() && #[trigger] e2[x] is Some implies e2[x]->0 < l2.len() && l2[e2[x]->0 as int].contains(
        x as usize,
    ) by {
        if x != e {
            assert(lists[ends[x]->0 as int].contains(x as usize));
            assert(l2[ends[x]->0 as int].no_duplicates());
        } else {
            assert(l2[to->0 as int].no_duplicates());
        }
    }
    assert forall|p: int, k: int| 0 <= p < l2.len() && 0 <= k < l2[p].len() implies #[trigger] l2[p][k] < e2.len()
        && e2[l2[p][k] as int] == Some(p as usize) by {
        let y = l2[p][k];
        assert(l2[p].no_duplicates());
        assert(l2[p].contains(y));
        if y != e {
            assert(lists[p].contains(y));
            let j = choose|j: int| 0 <= j < lists[p].len() && lists[p][j] == y;
            assert(ends[lists[p][j] as int] == Some(p as usize));
        }
    }
}

/// Removes the first `x` from `v`.
fn remove_edge_id(v: &mut Vec<LEdgeId>, x: LEdgeId)
    ensures
        final(v)@.map_values(|e: LEdgeId| e.0) == old(v)@.map_values(|e: LEdgeId| e.0).remove_value(x.0),
{
    let ghost m = v@.map_values(|e: LEdgeId| e.0);
    let mut i: usize = 0;
    while i < v.len()
        invariant
            i <= v@.len(),
            v@ == old(v)@,
            m == v@.map_values(|e: LEdgeId| e.0),
            forall|k: int| 0 <= k < i ==> m[k] != x.0,
        decreases v@.len() - i,
    {
        if v[i].0 == x.0 {
            proof {
                assert(m[i as int] == x.0);
                m.index_of_first_ensures(x.0);
                assert(m.index_of_first(x.0) == Some(i as int));
            }
            v.remove(i);
            proof {
                assert(v@.map_values(|e: LEdgeId| e.0) =~= m.remove(i as int));
            }
            return;
        }
        i += 1;
    }
    proof {
        m.index_of_first_ensures(x.0);
        assert(!m.contains(x.0));
    }
}

impl LGraphArena {
    /// Sets the source port of an edge, moving the edge from the old
    /// source's outgoing list to the end of the new one's.
    pub fn edge_set_source(&mut self, edge: LEdgeId, source: Option<LPortId>)
        requires
            old(self).wf(),
            edge.0 < old(self).edges@.len(),
            source matches Some(p) ==> p.0 < old(self).ports@.len(),
        ensures
            final(self).collect_flags() == old(self).collect_flags(),
            final(self).wf(),
            final(self).sources() == old(self).sources().update(edge.0 as int, port_index(source)),
            final(self).out_lists() == moved_to_end(
                old(self).out_lists(),
                old(self).sources()[edge.0 as int],
                edge.0,
                port_index(source),
            ),
            final(self).targets() == old(self).targets(),
            final(self).in_lists() == old(self).in_lists(),
            final(self).owners() == old(self).owners(),
            final(self).edge_label_lists() == old(self).edge_label_lists(),
            final(self).nodes == old(self).nodes,
            final(self).graphs == old(self).graphs,
            final(self).labels == old(self).labels,
            final(self).edges@.len() == old(self).edges@.len(),
            final(self).ports@.len() == old(self).ports@.len(),
            forall|k: int| 0 <= k < old(self).edges@.len() ==> #[trigger] final(self).edges@[k].props == old(self).edges@[k].props,
            forall|k: int|
                0 <= k < old(self).ports@.len() ==> #[trigger] final(self).ports@[k] == (LPort {
                    incoming_edges: final(self).ports@[k].incoming_edges,
                    outgoing_edges: final(self).ports@[k].outgoing_edges,
                    ..old(self).ports@[k]
                }),
            forall|k: int|
                0 <= k < old(self).edges@.len() && k != edge.0 ==> #[trigger] final(self).edges@[k] == old(self).edges@[k],
            final(self).edges@[edge.0 as int] == (LEdge { source: source, ..old(self).edges@[edge.0 as int] }),
    {
        let _ = self.ports.len();
        let _ = self.edges.len();
        let ghost a = *self;
        let ghost from = a.sources()[edge.0 as int];
        let ghost to = port_index(source);
        let ghost outs = a.out_lists();
        let ghost base = match from {
            Some(q) => outs.update(q as int, outs[q as int].remove_value(edge.0)),
            None => outs,
        };
        if let Some(old_p) = self.edges[edge.0].source {
            remove_edge_id(&mut self.ports[old_p.0].outgoing_edges, edge);
        }
        proof {
            assert(self.out_lists() =~= base);
        }
        self.edges[edge.0].source = source;
        proof {
            assert(self.out_lists() =~= base);
        }
        if let Some(new_p) = source {
            let ghost before = self.ports@[new_p.0 as int].outgoing_edges@;
            self.ports[new_p.0].outgoing_edges.push(edge);
            proof {
                assert(self.ports@[new_p.0 as int].outgoing_edges@ == before.push(edge));
                assert(self.ports@[new_p.0 as int].outgoing_edges@.map_values(|e: LEdgeId| e.0) =~= base[new_p.0 as int].push(edge.0));
                assert(self.out_lists() =~= base.update(new_p.0 as int, base[new_p.0 as int].push(edge.0)));
            }
        }
        proof {
            assert(self.sources() =~= a.sources().update(edge.0 as int, to));
            assert(self.targets() =~= a.targets());
            assert(self.in_lists() =~= a.in_lists());
            assert(self.owners() =~= a.owners());
            assert(self.edge_label_lists() =~= a.edge_label_lists());
            match to {
                Some(p) => {
                    assert(base[p as int].insert(base[p as int].len() as int, edge.0) =~= base[p as int].push(edge.0));
                    assert(self.out_lists() =~= moved(outs, from, edge.0, to, base[p as int].len() as int));
                    lemma_move_keeps_sync(a.sources(), outs, edge.0, to, base[p as int].len() as int);
                },
                None => {
                    assert(self.out_lists() =~= base);
                    lemma_move_keeps_sync(a.sources(), outs, edge.0, to, 0);
                },
            }
        }
    }
}

impl LGraphArena {
    /// Sets the target port of an edge, moving the edge from the old
    /// target's incoming list to position `at` of the new one's.
    fn set_target_at(&mut self, edge: LEdgeId, target: Option<LPortId>, at: usize)
        requires
            old(self).wf(),
            edge.0 < old(self).edges@.len(),
            target matches Some(p) ==> p.0 < old(self).ports@.len(),
            target matches Some(p) ==> at <= (match old(self).targets()[edge.0 as int] {
                Some(q) => if q == p.0 {
                    old(self).in_lists()[q as int].remove_value(edge.0)
                } else {
                    old(self).in_lists()[p.0 as int]
                },
                None => old(self).in_lists()[p.0 as int],
            }).len(),
        ensures
            final(self).collect_flags() == old(self).collect_flags(),
            final(self).wf(),
            final(self).targets() == old(self).targets().update(edge.0 as int, port_index(target)),
            final(self).in_lists() == moved(
                old(self).in_lists(),
                old(self).targets()[edge.0 as int],
                edge.0,
                port_index(target),
                at as int,
            ),
            final(self).sources() == old(self).sources(),
            final(self).out_lists() == old(self).out_lists(),
            final(self).owners() == old(self).owners(),
            final(self).edge_label_lists() == old(self).edge_label_lists(),
            final(self).nodes == old(self).nodes,
            final(self).graphs == old(self).graphs,
            final(self).labels == old(self).labels,
            final(self).edges@.len() == old(self).edges@.len(),
            final(self).ports@.len() == old(self).ports@.len(),
            forall|k: int| 0 <= k < old(self).edges@.len() ==> #[trigger] final(self).edges@[k].props == old(self).edges@[k].props,
            forall|k: int|
                0 <= k < old(self).ports@.len() ==> #[trigger] final(self).ports@[k] == (LPort {
                    incoming_edges: final(self).ports@[k].incoming_edges,
                    outgoing_edges: final(self).ports@[k].outgoing_edges,
                    ..old(self).ports@[k]
                }),
            forall|k: int|
                0 <= k < old(self).edges@.len() && k != edge.0 ==> #[trigger] final(self).edges@[k] == old(self).edges@[k],
            final(self).edges@[edge.0 as int] == (LEdge { target: target, ..old(self).edges@[edge.0 as int] }),
    {
        let _ = self.ports.len();
        let _ = self.edges.len();
        let ghost a = *self;
        let ghost from = a.targets()[edge.0 as int];
        let ghost to = port_index(target);
        let ghost ins = a.in_lists();
        let ghost base = match from {
            Some(q) => ins.update(q as int, ins[q as int].remove_value(edge.0)),
            None => ins,
        };
        if let Some(old_p) = self.edges[edge.0].target {
            remove_edge_id(&mut self.ports[old_p.0].incoming_edges, edge);
        }
        proof {
            assert(self.in_lists() =~= base);
        }
        self.edges[edge.0].target = target;
        proof {
            assert(self.in_lists() =~= base);
        }
        if let Some(new_p) = target {
            let ghost before = self.ports@[new_p.0 as int].incoming_edges@;
            proof {
                assert(before.map_values(|e: LEdgeId| e.0) == base[new_p.0 as int]);
            }
            self.ports[new_p.0].incoming_edges.insert(at, edge);
            proof {
                assert(self.ports@[new_p.0 as int].incoming_edges@.map_values(|e: LEdgeId| e.0) =~= base[new_p.0 as int].insert(
                    at as int,
                    edge.0,
                ));
                assert(self.in_lists() =~= base.update(new_p.0 as int, base[new_p.0 as int].insert(at as int, edge.0)));
            }
        }
        proof {
            assert(self.targets() =~= a.targets().update(edge.0 as int, to));
            assert(self.sources() =~= a.sources());
            assert(self.out_lists() =~= a.out_lists());
            assert(self.owners() =~= a.owners());
            assert(self.edge_label_lists() =~= a.edge_label_lists());
            assert(self.in_lists() =~= moved(ins, from, edge.0, to, at as int));
            lemma_move_keeps_sync(a.targets(), ins, edge.0, to, at as int);
        }
    }

    /// Sets the target port of an edge, moving the edge from the old
    /// target's incoming list to the end of the new one's.
    pub fn edge_set_target(&mut self, edge: LEdgeId, target: Option<LPortId>)
        requires
            old(self).wf(),
            edge.0 < old(self).edges@.len(),
            target matches Some(p) ==> p.0 < old(self).ports@.len(),
        ensures
            final(self).collect_flags() == old(self).collect_flags(),
            final(self).wf(),
            final(self).targets() == old(self).targets().update(edge.0 as int, port_index(target)),
            final(self).in_lists() == moved_to_end(
                old(self).in_lists(),
                old(self).targets()[edge.0 as int],
                edge.0,
                port_index(target),
            ),
            final(self).sources() == old(self).sources(),
            final(self).out_lists() == old(self).out_lists(),
            final(self).owners() == old(self).owners(),
            final(self).edge_label_lists() == old(self).edge_label_lists(),
            final(self).nodes == old(self).nodes,
            final(self).graphs == old(self).graphs,
            final(self).labels == old(self).labels,
            final(self).edges@.len() == old(self).edges@.len(),
            final(self).ports@.len() == old(self).ports@.len(),
            forall|k: int| 0 <= k < old(self).edges@.len() ==> #[trigger] final(self).edges@[k].props == old(self).edges@[k].props,
            forall|k: int|
                0 <= k < old(self).ports@.len() ==> #[trigger] final(self).ports@[k] == (LPort {
                    incoming_edges: final(self).ports@[k].incoming_edges,
                    outgoing_edges: final(self).ports@[k].outgoing_edges,
                    ..old(self).ports@[k]
                }),
            forall|k: int|
                0 <= k < old(self).edges@.len() && k != edge.0 ==> #[trigger] final(self).edges@[k] == old(self).edges@[k],
            final(self).edges@[edge.0 as int] == (LEdge { target: target, ..old(self).edges@[edge.0 as int] }),
    {
        let ghost ins = self.in_lists();
        let ghost from = self.targets()[edge.0 as int];
        let mut at: usize = 0;
        if let Some(new_p) = target {
            let n = self.ports[new_p.0].incoming_edges.len();
            let already = match self.edges[edge.0].target {
                Some(q) => q.0 == new_p.0,
                None => false,
            };
            at = if already { n - 1 } else { n };
            proof {
                if already {
                    assert(ins[new_p.0 as int].contains(edge.0));
                    lemma_remove_unique(ins[new_p.0 as int], edge.0);
                    ins[new_p.0 as int].index_of_first_ensures(edge.0);
                }
            }
        }
        self.set_target_at(edge, target, at);
    }

    /// Sets the target port of an edge, inserting the edge at `index` of
    /// the new target's incoming list (after taking it out of the old
    /// one's).
    pub fn edge_set_target_at_index(&mut self, edge: LEdgeId, target: LPortId, index: usize)
        requires
            old(self).wf(),
            edge.0 < old(self).edges@.len(),
            target.0 < old(self).ports@.len(),
            index <= (match old(self).targets()[edge.0 as int] {
                Some(q) => if q == target.0 {
                    old(self).in_lists()[q as int].remove_value(edge.0)
                } else {
                    old(self).in_lists()[target.0 as int]
                },
                None => old(self).in_lists()[target.0 as int],
            }).len(),
        ensures
            final(self).wf(),
            final(self).targets() == old(self).targets().update(edge.0 as int, Some(target.0)),
            final(self).in_lists() == moved(
                old(self).in_lists(),
                old(self).targets()[edge.0 as int],
                edge.0,
                Some(target.0),
                index as int,
            ),
            final(self).sources() == old(self).sources(),
            final(self).out_lists() == old(self).out_lists(),
            final(self).owners() == old(self).owners(),
            final(self).nodes == old(self).nodes,
            final(self).graphs == old(self).graphs,
            final(self).labels == old(self).labels,
            final(self).edges@[edge.0 as int] == (LEdge { target: Some(target), ..old(self).edges@[edge.0 as int] }),
            final(self).edges@.len() == old(self).edges@.len(),
            forall|k: int|
                0 <= k < old(self).edges@.len() && k != edge.0 ==> #[trigger] final(self).edges@[k] == old(self).edges@[k],
            final(self).ports@.len() == old(self).ports@.len(),
            forall|k: int|
                0 <= k < old(self).ports@.len() ==> #[trigger] final(self).ports@[k] == (LPort {
                    incoming_edges: final(self).ports@[k].incoming_edges,
                    outgoing_edges: final(self).ports@[k].outgoing_edges,
                    ..old(self).ports@[k]
                }),
            final(self).edge_label_lists() == old(self).edge_label_lists(),
    {
        self.set_target_at(edge, Some(target), index);
    }
}

/// Head and tail swap when an edge is reversed; centered labels stay.
pub open spec fn swapped_placement(p: EdgeLabelPlacement) -> EdgeLabelPlacement {
    match p {
        EdgeLabelPlacement::Tail => EdgeLabelPlacement::Head,
        EdgeLabelPlacement::Head => EdgeLabelPlacement::Tail,
        EdgeLabelPlacement::Center => EdgeLabelPlacement::Center,
    }
}

/// How many times `x` occurs in `s`.
pub open spec fn count_of(s: Seq<usize>, x: usize) -> nat
    decreases s.len(),
{
    if s.len() == 0 {
        0
    } else {
        count_of(s.drop_last(), x) + if s.last() == x { 1nat } else { 0 }
    }
}

/// `p` swapped once for every time its label occurs in the list.
pub open spec fn placement_after(p: EdgeLabelPlacement, times: nat) -> EdgeLabelPlacement {
    if times % 2 == 1 {
        swapped_placement(p)
    } else {
        p
    }
}

/// `a` and `b` agree on everything but the placement.
pub open spec fn same_but_placement(a: LLabel, b: LLabel) -> bool {
    &&& a.id == b.id
    &&& a.text == b.text
    &&& a.props.node_placement == b.props.node_placement
    &&& a.props.inline == b.props.inline
    &&& a.props.original_label_edge == b.props.original_label_edge
}

/// `b` is `a` with edge `e` reversed: its ends swapped and its reversed
/// flag flipped.
pub open spec fn reversed_once(a: &LGraphArena, b: &LGraphArena, e: usize) -> bool {
    &&& b.sources() == a.sources().update(e as int, a.targets()[e as int])
    &&& b.targets() == a.targets().update(e as int, a.sources()[e as int])
    &&& b.edges@.len() == a.edges@.len()
    &&& forall|k: int|
        0 <= k < a.edges@.len() ==> #[trigger] b.edges@[k].props.reversed == if k == e {
            !a.edges@[k].props.reversed
        } else {
            a.edges@[k].props.reversed
        }
}

/// Reversing an edge twice gives every edge back its ends and its flag.
pub proof fn lemma_reverse_twice(a: &LGraphArena, b: &LGraphArena, c: &LGraphArena, e: usize)
    requires
        e < a.edges@.len(),
        a.sources().len() == a.targets().len(),
        a.sources().len() == a.edges@.len(),
        reversed_once(a, b, e),
        reversed_once(b, c, e),
    ensures
        c.sources() == a.sources(),
        c.targets() == a.targets(),
        forall|k: int| 0 <= k < a.edges@.len() ==> #[trigger] c.edges@[k].props.reversed == a.edges@[k].props.reversed,
{
    assert(c.sources() =~= a.sources());
    assert(c.targets() =~= a.targets());
    assert forall|k: int| 0 <= k < a.edges@.len() implies #[trigger] c.edges@[k].props.reversed == a.edges@[k].props.reversed by {
        assert(b.edges@[k].props.reversed == if k == e { !a.edges@[k].props.reversed } else { a.edges@[k].props.reversed });
    }
}

/// Swapping the placement twice gives it back.
pub proof fn lemma_swap_placement_twice(p: EdgeLabelPlacement)
    ensures
        swapped_placement(swapped_placement(p)) == p,
{
}

impl LGraphArena {
    /// The placement of each label.
    pub open spec fn placements(&self) -> Seq<EdgeLabelPlacement> {
        self.labels@.map_values(|l: LLabel| l.props.placement)
    }

    /// Reverses an edge: swaps its endpoints (the edge moves to the end of
    /// its new source's outgoing and new target's incoming list), swaps the
    /// head and tail placement of its labels, and flips its reversed flag.
    /// Collector ports of hypernodes are not handled when `adapt_ports` is
    /// set.
    pub fn edge_reverse(&mut self, edge: LEdgeId, adapt_ports: bool)
        requires
            old(self).wf(),
            edge.0 < old(self).edges@.len(),
            adapt_ports ==> !(old(self).edges@[edge.0 as int].target matches Some(t) && old(self).ports@[t.0 as int].input_collect),
            adapt_ports ==> !(old(self).edges@[edge.0 as int].source matches Some(s) && old(self).ports@[s.0 as int].output_collect),
        ensures
            reversed_once(&*old(self), &*final(self), edge.0),
            final(self).collect_flags() == old(self).collect_flags(),
            final(self).wf(),
            final(self).sources() == old(self).sources().update(edge.0 as int, old(self).targets()[edge.0 as int]),
            final(self).targets() == old(self).targets().update(edge.0 as int, old(self).sources()[edge.0 as int]),
            final(self).out_lists() == moved_to_end(
                moved_to_end(old(self).out_lists(), old(self).sources()[edge.0 as int], edge.0, None),
                None,
                edge.0,
                old(self).targets()[edge.0 as int],
            ),
            final(self).in_lists() == moved_to_end(
                moved_to_end(old(self).in_lists(), old(self).targets()[edge.0 as int], edge.0, None),
                None,
                edge.0,
                old(self).sources()[edge.0 as int],
            ),
            final(self).edges@[edge.0 as int].props.reversed == !old(self).edges@[edge.0 as int].props.reversed,
            final(self).edges@[edge.0 as int].props.priority == old(self).edges@[edge.0 as int].props.priority,
            final(self).edges@[edge.0 as int].props.model_order == old(self).edges@[edge.0 as int].props.model_order,
            forall|k: int| 0 <= k < old(self).edges@.len() && k != edge.0 ==> #[trigger] final(self).edges@[k].props
                == old(self).edges@[k].props,
            final(self).placements().len() == old(self).placements().len(),
            forall|l: int| 0 <= l < old(self).placements().len() ==> #[trigger] final(self).placements()[l] == placement_after(
                old(self).placements()[l],
                count_of(old(self).edge_label_lists()[edge.0 as int], l as usize),
            ),
            final(self).owners() == old(self).owners(),
            final(self).edge_label_lists() == old(self).edge_label_lists(),
            final(self).nodes == old(self).nodes,
            final(self).graphs == old(self).graphs,
            final(self).edges@.len() == old(self).edges@.len(),
            final(self).ports@.len() == old(self).ports@.len(),
    {
        let _ = self.labels.len();
        let old_source = self.edges[edge.0].source;
        let old_target = self.edges[edge.0].target;
        self.edge_set_source(edge, None);
        self.edge_set_target(edge, None);
        self.edge_set_source(edge, old_target);
        self.edge_set_target(edge, old_source);
        let ghost mid = *self;
        let ghost list = self.edge_label_lists()[edge.0 as int];
        let n = self.edges[edge.0].labels.len();
        let mut i: usize = 0;
        while i < n
            invariant
                mid.wf(),
                self.wf(),
                edge.0 < self.edges@.len(),
                n == list.len(),
                list == self.edge_label_lists()[edge.0 as int],
                i <= n,
                self.graphs == mid.graphs,
                self.nodes == mid.nodes,
                self.ports == mid.ports,
                self.edges == mid.edges,
                self.labels@.len() == mid.labels@.len(),
                mid.labels@.len() <= usize::MAX,
                forall|l: int| 0 <= l < mid.labels@.len() ==> #[trigger] same_but_placement(self.labels@[l], mid.labels@[l]),
                forall|l: int| 0 <= l < mid.labels@.len() ==> #[trigger] self.placements()[l] == placement_after(
                    mid.placements()[l],
                    count_of(list.subrange(0, i as int), l as usize),
                ),
            decreases n - i,
        {
            let label = self.edges[edge.0].labels[i];
            proof {
                assert(list[i as int] == label.0);
                assert(label.0 < self.labels@.len());
            }
            let current = self.labels[label.0].props.placement;
            let next = match current {
                EdgeLabelPlacement::Tail => EdgeLabelPlacement::Head,
                EdgeLabelPlacement::Head => EdgeLabelPlacement::Tail,
                EdgeLabelPlacement::Center => EdgeLabelPlacement::Center,
            };
            let ghost before = self.labels@;
            let ghost before_place = self.placements();
            self.labels[label.0].props.placement = next;
            proof {
                assert(self.labels@[label.0 as int].text == before[label.0 as int].text);
                assert(self.labels@[label.0 as int].id == before[label.0 as int].id);
                assert(self.labels@[label.0 as int].props.node_placement == before[label.0 as int].props.node_placement);
                assert(self.labels@[label.0 as int].props.inline == before[label.0 as int].props.inline);
                assert(self.labels@[label.0 as int].props.original_label_edge == before[label.0 as int].props.original_label_edge);
                assert forall|l: int| 0 <= l < mid.labels@.len() implies #[trigger] same_but_placement(self.labels@[l], mid.labels@[l]) by {
                    assert(same_but_placement(before[l], mid.labels@[l]));
                    if l != label.0 {
                        assert(self.labels@[l] == before[l]);
                    }
                }
                let t = list.subrange(0, i + 1);
                assert(t.drop_last() =~= list.subrange(0, i as int));
                assert(t.last() == label.0);
                assert forall|l: int| 0 <= l < mid.labels@.len() implies #[trigger] self.placements()[l] == placement_after(
                    mid.placements()[l],
                    count_of(list.subrange(0, i + 1), l as usize),
                ) by {
                    let x = l as usize;
                    let c = count_of(list.subrange(0, i as int), x);
                    assert(count_of(t, x) == count_of(t.drop_last(), x) + if t.last() == x { 1nat } else { 0nat });
                    assert(before_place[l] == placement_after(mid.placements()[l], c));
                    if l == label.0 {
                        lemma_swap_placement_twice(mid.placements()[l]);
                        assert(self.placements()[l] == swapped_placement(before_place[l]));
                        assert(count_of(t, x) == c + 1);
                    } else {
                        assert(self.labels@[l] == before[l]);
                        assert(self.placements()[l] == before_place[l]);
                        assert(count_of(t, x) == c);
                    }
                }
            }
            i += 1;
        }
        let ghost pl = self.placements();
        let reversed = self.edges[edge.0].props.reversed;
        self.edges[edge.0].props.reversed = !reversed;
        proof {
            assert(self.placements() =~= pl);
            assert(list.subrange(0, n as int) =~= list);
            assert(mid.placements() == old(self).placements());
            assert(list == old(self).edge_label_lists()[edge.0 as int]);
            assert forall|l: int| 0 <= l < old(self).placements().len() implies #[trigger] self.placements()[l] == placement_after(
                old(self).placements()[l],
                count_of(old(self).edge_label_lists()[edge.0 as int], l as usize),
            ) by {
                assert(pl[l] == placement_after(mid.placements()[l], count_of(list.subrange(0, n as int), l as usize)));
            }
            assert(self.sources() =~= mid.sources());
            assert(self.targets() =~= mid.targets());
            assert(self.edge_label_lists() =~= mid.edge_label_lists());
            assert(self.placements().len() == mid.placements().len());
            assert forall|k: int| 0 <= k < old(self).edges@.len() implies #[trigger] self.edges@[k].props.reversed == if k
                == edge.0 {
                !old(self).edges@[k].props.reversed
            } else {
                old(self).edges@[k].props.reversed
            } by {
                if k != edge.0 {
                    assert(self.edges@[k] == mid.edges@[k]);
                }
            }
            assert(self.sources() == old(self).sources().update(edge.0 as int, old(self).targets()[edge.0 as int]));
            assert(self.targets() == old(self).targets().update(edge.0 as int, old(self).sources()[edge.0 as int]));
            assert(self.edges@.len() == old(self).edges@.len());
        }
    }
}

/// A new element that points nowhere keeps the two sides in sync.
pub proof fn lemma_sync_new_end(ends: Seq<Option<usize>>, lists: Seq<Seq<usize>>)
    requires
        in_sync(ends, lists),
    ensures
        in_sync(ends.push(None), lists),
{
    let e2 = ends.push(None);
    assert forall|p: int, k: int| 0 <= p < lists.len() && 0 <= k < lists[p].len() implies #[trigger] lists[p][k]
        < e2.len() && e2[lists[p][k] as int] == Some(p as usize) by {
        assert(ends[lists[p][k] as int] == Some(p as usize));
    }
}

/// A new element that nothing points to keeps the two sides in sync.
pub proof fn lemma_sync_new_list(ends: Seq<Option<usize>>, lists: Seq<Seq<usize>>)
    requires
        in_sync(ends, lists),
    ensures
        in_sync(ends, lists.push(Seq::empty())),
{
    let l2 = lists.push(Seq::empty());
    assert forall|e: int| 0 <= e < ends.len() && #[trigger] ends[e] is Some implies ends[e]->0 < l2.len() && l2[ends[e]->0 as int].contains(
        e as usize,
    ) by {
        assert(l2[ends[e]->0 as int] == lists[ends[e]->0 as int]);
    }
    assert forall|p: int, k: int| 0 <= p < l2.len() && 0 <= k < l2[p].len() implies #[trigger] l2[p][k] < ends.len()
        && ends[l2[p][k] as int] == Some(p as usize) by {
        assert(l2[p] == lists[p]);
    }
    assert forall|p: int| 0 <= p < l2.len() implies #[trigger] l2[p].no_duplicates() by {
        if p < lists.len() {
            assert(l2[p] == lists[p]);
        }
    }
}

/// Extending every list bound keeps the lists below it.
proof fn lemma_all_below_grow(lists: Seq<Seq<usize>>, a: nat, b: nat)
    requires
        all_below(lists, a),
        a <= b,
    ensures
        all_below(lists, b),
{
}

/// Removes the first `x` from `v`.
fn remove_port_id(v: &mut Vec<LPortId>, x: LPortId)
    ensures
        final(v)@.map_values(|p: LPortId| p.0) == old(v)@.map_values(|p: LPortId| p.0).remove_value(x.0),
{
    let ghost m = v@.map_values(|p: LPortId| p.0);
    let mut i: usize = 0;
    while i < v.len()
        invariant
            i <= v@.len(),
            v@ == old(v)@,
            m == v@.map_values(|p: LPortId| p.0),
            forall|k: int| 0 <= k < i ==> m[k] != x.0,
        decreases v@.len() - i,
    {
        if v[i].0 == x.0 {
            proof {
                assert(m[i as int] == x.0);
                m.index_of_first_ensures(x.0);
                assert(m.index_of_first(x.0) == Some(i as int));
            }
            v.remove(i);
            proof {
                assert(v@.map_values(|p: LPortId| p.0) =~= m.remove(i as int));
            }
            return;
        }
        i += 1;
    }
    proof {
        m.index_of_first_ensures(x.0);
        assert(!m.contains(x.0));
    }
}

impl LGraphArena {
    /// Adds an empty graph.
    pub fn new_graph(&mut self) -> (r: LGraphId)
        requires
            old(self).wf(),
        ensures
            final(self).wf(),
            r.0 == old(self).graphs@.len(),
            final(self).graphs@.len() == old(self).graphs@.len() + 1,
            final(self).layer_lists() == old(self).layer_lists().push(Seq::empty()),
            final(self).layerless_lists() == old(self).layerless_lists().push(Seq::empty()),
            final(self).graphs@[r.0 as int].props == GraphProps::spec_default(),
            final(self).nodes == old(self).nodes,
            final(self).ports == old(self).ports,
            final(self).edges == old(self).edges,
            final(self).labels == old(self).labels,
    {
        let ghost a = *self;
        self.graphs.push(
            LGraph {
                id: 0,
                layerless_nodes: Vec::new(),
                layers: Vec::new(),
                parent_node: None,
                props: GraphProps::default(),
            },
        );
        proof {
            let last = a.graphs@.len() as int;
            assert(self.layer_lists()[last] =~= Seq::<Seq<usize>>::empty());
            assert(self.layerless_lists()[last] =~= Seq::<usize>::empty());
            assert(self.layer_lists() =~= a.layer_lists().push(Seq::empty()));
            assert(self.layerless_lists() =~= a.layerless_lists().push(Seq::empty()));
            let gl = self.layer_lists();
            assert forall|n: int| 0 <= n < self.graph_of().len() implies #[trigger] self.graph_of()[n] < gl.len() by {
                assert(a.graph_of()[n] < a.layer_lists().len());
            }
            assert forall|g: int| 0 <= g < gl.len() implies in_sync(#[trigger] layer_ends(self.graph_of(), self.layer_of(), g), gl[g]) by {
                if g < last {
                    assert(gl[g] == a.layer_lists()[g]);
                    assert(in_sync(layer_ends(a.graph_of(), a.layer_of(), g), a.layer_lists()[g]));
                } else {
                    let ends = layer_ends(self.graph_of(), self.layer_of(), g);
                    assert forall|n: int| 0 <= n < ends.len() implies #[trigger] ends[n] is None by {
                        assert(a.graph_of()[n] < a.layer_lists().len());
                    }
                }
            }
            assert forall|i: int, k: int| 0 <= i < self.layerless_lists().len() && 0 <= k < self.layerless_lists()[i].len() implies #[trigger] self.layerless_lists()[i][k]
                < self.nodes@.len() by {
                assert(self.layerless_lists()[i] == a.layerless_lists()[i]);
            }
        }
        LGraphId(self.graphs.len() - 1)
    }
}

impl LGraphArena {
    /// Sets the owner of a port, moving the port from the old owner's port
    /// list to the end of the new one's.
    pub fn port_set_node(&mut self, port: LPortId, node: Option<LNodeId>)
        requires
            old(self).wf(),
            port.0 < old(self).ports@.len(),
            node matches Some(n) ==> n.0 < old(self).nodes@.len(),
        ensures
            final(self).wf(),
            final(self).owners() == old(self).owners().update(port.0 as int, node_index(node)),
            final(self).port_lists() == moved_to_end(
                old(self).port_lists(),
                old(self).owners()[port.0 as int],
                port.0,
                node_index(node),
            ),
            final(self).sources() == old(self).sources(),
            final(self).targets() == old(self).targets(),
            final(self).out_lists() == old(self).out_lists(),
            final(self).in_lists() == old(self).in_lists(),
            final(self).graph_of() == old(self).graph_of(),
            final(self).layer_of() == old(self).layer_of(),
            final(self).graphs == old(self).graphs,
            final(self).edges == old(self).edges,
            final(self).labels == old(self).labels,
            final(self).nodes@.len() == old(self).nodes@.len(),
            final(self).ports@.len() == old(self).ports@.len(),
            forall|k: int| 0 <= k < old(self).ports@.len() ==> #[trigger] final(self).ports@[k].side == old(self).ports@[k].side,
            forall|k: int|
                0 <= k < old(self).ports@.len() && k != port.0 ==> #[trigger] final(self).ports@[k] == old(self).ports@[k],
            final(self).ports@[port.0 as int] == (LPort { owner: node, ..old(self).ports@[port.0 as int] }),
            forall|x: int|
                0 <= x < old(self).nodes@.len() ==> #[trigger] final(self).nodes@[x] == (LNode {
                    ports: final(self).nodes@[x].ports,
                    ..old(self).nodes@[x]
                }),
    {
        let _ = self.ports.len();
        let _ = self.nodes.len();
        let ghost a = *self;
        let ghost from = a.owners()[port.0 as int];
        let ghost to = node_index(node);
        let ghost lists = a.port_lists();
        let ghost base = match from {
            Some(q) => lists.update(q as int, lists[q as int].remove_value(port.0)),
            None => lists,
        };
        if let Some(old_n) = self.ports[port.0].owner {
            remove_port_id(&mut self.nodes[old_n.0].ports, port);
        }
        proof {
            assert(self.port_lists() =~= base);
        }
        self.ports[port.0].owner = node;
        proof {
            assert(self.port_lists() =~= base);
        }
        if let Some(new_n) = node {
            let ghost before = self.nodes@[new_n.0 as int].ports@;
            self.nodes[new_n.0].ports.push(port);
            proof {
                assert(self.nodes@[new_n.0 as int].ports@ == before.push(port));
                assert(self.nodes@[new_n.0 as int].ports@.map_values(|p: LPortId| p.0) =~= base[new_n.0 as int].push(port.0));
                assert(self.port_lists() =~= base.update(new_n.0 as int, base[new_n.0 as int].push(port.0)));
            }
        }
        proof {
            assert(self.owners() =~= a.owners().update(port.0 as int, to));
            assert(self.sources() =~= a.sources());
            assert(self.targets() =~= a.targets());
            assert(self.out_lists() =~= a.out_lists());
            assert(self.in_lists() =~= a.in_lists());
            assert(self.graph_of() =~= a.graph_of());
            assert(self.layer_of() =~= a.layer_of());
            assert(self.edge_label_lists() =~= a.edge_label_lists());
            assert(self.layerless_lists() =~= a.layerless_lists());
            assert(self.layer_lists() =~= a.layer_lists());
            match to {
                Some(p) => {
                    assert(base[p as int].insert(base[p as int].len() as int, port.0) =~= base[p as int].push(port.0));
                    assert(self.port_lists() =~= moved(lists, from, port.0, to, base[p as int].len() as int));
                    lemma_move_keeps_sync(a.owners(), lists, port.0, to, base[p as int].len() as int);
                },
                None => {
                    assert(self.port_lists() =~= base);
                    lemma_move_keeps_sync(a.owners(), lists, port.0, to, 0);
                },
            }
        }
    }

    /// Sets the side of a port.
    pub fn port_set_side(&mut self, port: LPortId, side: PortSide)
        requires
            old(self).wf(),
            port.0 < old(self).ports@.len(),
        ensures
            final(self).wf(),
            final(self).ports@[port.0 as int].side == side,
            final(self).ports@[port.0 as int] == (LPort { side: side, ..old(self).ports@[port.0 as int] }),
            forall|k: int| 0 <= k < old(self).ports@.len() && k != port.0 ==> #[trigger] final(self).ports@[k] == old(self).ports@[k],
            final(self).ports@[port.0 as int].owner == old(self).ports@[port.0 as int].owner,
            final(self).ports@[port.0 as int].incoming_edges == old(self).ports@[port.0 as int].incoming_edges,
            final(self).ports@[port.0 as int].outgoing_edges == old(self).ports@[port.0 as int].outgoing_edges,
            final(self).ports@.len() == old(self).ports@.len(),
            final(self).nodes == old(self).nodes,
            final(self).edges == old(self).edges,
            final(self).graphs == old(self).graphs,
            final(self).labels == old(self).labels,
    {
        let ghost a = *self;
        self.ports[port.0].side = side;
        proof {
            assert(self.owners() =~= a.owners());
            assert(self.out_lists() =~= a.out_lists());
            assert(self.in_lists() =~= a.in_lists());
        }
    }

    /// Adds a node to `graph`, as a layerless node.
    pub fn new_node(&mut self, graph: LGraphId) -> (r: LNodeId)
        requires
            old(self).wf(),
            graph.0 < old(self).graphs@.len(),
        ensures
            final(self).wf(),
            r.0 == old(self).nodes@.len(),
            final(self).graph_of() == old(self).graph_of().push(graph.0),
            final(self).layer_of() == old(self).layer_of().push(None),
            final(self).port_lists() == old(self).port_lists().push(Seq::empty()),
            final(self).layerless_lists() == old(self).layerless_lists().update(
                graph.0 as int,
                old(self).layerless_lists()[graph.0 as int].push(r.0),
            ),
            final(self).layer_lists() == old(self).layer_lists(),
            final(self).graphs@.len() == old(self).graphs@.len(),
            forall|i: int| 0 <= i < old(self).graphs@.len() ==> (#[trigger] final(self).graphs@[i]).props == old(self).graphs@[i].props,
            final(self).nodes@ == old(self).nodes@.push(final(self).nodes@[r.0 as int]),
            final(self).nodes@[r.0 as int].id == 0,
            final(self).nodes@[r.0 as int].node_type == NodeType::Normal,
            final(self).nodes@[r.0 as int].nested_graph is None,
            final(self).nodes@[r.0 as int].labels@.len() == 0,
            default_node_props(final(self).nodes@[r.0 as int].props),
            final(self).ports == old(self).ports,
            final(self).edges == old(self).edges,
            final(self).labels == old(self).labels,
    {
        let _ = self.nodes.len();
        let ghost a = *self;
        self.nodes.push(
            LNode {
                id: 0,
                graph,
                layer: None,
                node_type: NodeType::Normal,
                ports: Vec::new(),
                labels: Vec::new(),
                nested_graph: None,
                props: NodeProps::default(),
            },
        );
        let id = LNodeId(self.nodes.len() - 1);
        let ghost before = self.graphs@[graph.0 as int].layerless_nodes@;
        self.graphs[graph.0].layerless_nodes.push(id);
        proof {
            assert(self.graphs@[graph.0 as int].layerless_nodes@ == before.push(id));
            assert(self.layerless_lists()[graph.0 as int] =~= a.layerless_lists()[graph.0 as int].push(id.0));
            let last = a.nodes@.len() as int;
            assert(self.port_lists()[last] =~= Seq::<usize>::empty());
            assert(self.port_lists() =~= a.port_lists().push(Seq::empty()));
            assert(self.graph_of() =~= a.graph_of().push(graph.0));
            assert(self.layer_of() =~= a.layer_of().push(None));
            assert(self.layer_lists() =~= a.layer_lists());
            assert(self.layerless_lists() =~= a.layerless_lists().update(
                graph.0 as int,
                a.layerless_lists()[graph.0 as int].push(id.0),
            ));
            lemma_sync_new_list(a.owners(), a.port_lists());
            assert forall|g: int| 0 <= g < self.layer_lists().len() implies in_sync(
                #[trigger] layer_ends(self.graph_of(), self.layer_of(), g),
                self.layer_lists()[g],
            ) by {
                assert(in_sync(layer_ends(a.graph_of(), a.layer_of(), g), a.layer_lists()[g]));
                lemma_sync_new_end(layer_ends(a.graph_of(), a.layer_of(), g), a.layer_lists()[g]);
                assert(layer_ends(self.graph_of(), self.layer_of(), g) =~= layer_ends(a.graph_of(), a.layer_of(), g).push(None));
            }
            assert forall|n: int| 0 <= n < self.graph_of().len() implies #[trigger] self.graph_of()[n] < self.layer_lists().len() by {
                if n < last {
                    assert(a.graph_of()[n] < a.layer_lists().len());
                }
            }
            let ll = self.layerless_lists();
            assert forall|i: int, k: int| 0 <= i < ll.len() && 0 <= k < ll[i].len() implies #[trigger] ll[i][k] < self.nodes@.len() by {
                if i == graph.0 && k == ll[i].len() - 1 {
                } else {
                    assert(ll[i][k] == a.layerless_lists()[i][k]);
                }
            }
        }
        id
    }

    /// Adds a port to `node`, at the end of its port list.
    pub fn new_port(&mut self, node: LNodeId) -> (r: LPortId)
        requires
            old(self).wf(),
            node.0 < old(self).nodes@.len(),
        ensures
            final(self).wf(),
            r.0 == old(self).ports@.len(),
            final(self).owners() == old(self).owners().push(Some(node.0)),
            final(self).port_lists() == old(self).port_lists().update(
                node.0 as int,
                old(self).port_lists()[node.0 as int].push(r.0),
            ),
            final(self).out_lists() == old(self).out_lists().push(Seq::empty()),
            final(self).in_lists() == old(self).in_lists().push(Seq::empty()),
            final(self).sources() == old(self).sources(),
            final(self).targets() == old(self).targets(),
            final(self).graph_of() == old(self).graph_of(),
            final(self).layer_of() == old(self).layer_of(),
            final(self).graphs == old(self).graphs,
            final(self).edges == old(self).edges,
            final(self).labels == old(self).labels,
            final(self).nodes@.len() == old(self).nodes@.len(),
            final(self).ports@[r.0 as int].side == PortSide::Undefined,
            final(self).ports@[r.0 as int].port_dummy is None,
            !final(self).ports@[r.0 as int].input_collect,
            !final(self).ports@[r.0 as int].output_collect,
            final(self).ports@[r.0 as int].labels@.len() == 0,
            forall|k: int| 0 <= k < old(self).ports@.len() ==> #[trigger] final(self).ports@[k] == old(self).ports@[k],
            forall|x: int|
                0 <= x < old(self).nodes@.len() ==> #[trigger] final(self).nodes@[x] == (LNode {
                    ports: final(self).nodes@[x].ports,
                    ..old(self).nodes@[x]
                }),
    {
        let _ = self.ports.len();
        let ghost a = *self;
        self.ports.push(
            LPort {
                id: 0,
                owner: None,
                side: PortSide::Undefined,
                labels: Vec::new(),
                incoming_edges: Vec::new(),
                outgoing_edges: Vec::new(),
                input_collect: false,
                output_collect: false,
                port_dummy: None,
                long_edge_target_node: None,
            },
        );
        let id = LPortId(self.ports.len() - 1);
        proof {
            let last = a.ports@.len() as int;
            assert(self.out_lists()[last] =~= Seq::<usize>::empty());
            assert(self.in_lists()[last] =~= Seq::<usize>::empty());
            assert(self.out_lists() =~= a.out_lists().push(Seq::empty()));
            assert(self.in_lists() =~= a.in_lists().push(Seq::empty()));
            assert(self.owners() =~= a.owners().push(None));
            assert(self.sources() =~= a.sources());
            assert(self.targets() =~= a.targets());
            assert(self.port_lists() =~= a.port_lists());
            assert(self.graph_of() =~= a.graph_of());
            assert(self.layer_of() =~= a.layer_of());
            assert(self.layer_lists() =~= a.layer_lists());
            assert(self.layerless_lists() =~= a.layerless_lists());
            assert(self.edge_label_lists() =~= a.edge_label_lists());
            lemma_sync_new_list(a.sources(), a.out_lists());
            lemma_sync_new_list(a.targets(), a.in_lists());
            lemma_sync_new_end(a.owners(), a.port_lists());
        }
        self.port_set_node(id, Some(node));
        proof {
            let mid_lists = a.port_lists();
            assert(mid_lists[node.0 as int].insert(mid_lists[node.0 as int].len() as int, id.0) =~= mid_lists[node.0 as int].push(id.0));
            assert(a.owners().push(None).update(id.0 as int, Some(node.0)) =~= a.owners().push(Some(node.0)));
        }
        id
    }

    /// Adds an edge with neither source nor target.
    pub fn new_edge(&mut self) -> (r: LEdgeId)
        requires
            old(self).wf(),
        ensures
            final(self).wf(),
            r.0 == old(self).edges@.len(),
            final(self).sources() == old(self).sources().push(None),
            final(self).targets() == old(self).targets().push(None),
            final(self).edge_label_lists() == old(self).edge_label_lists().push(Seq::empty()),
            final(self).edges@[r.0 as int].props == EdgeProps::spec_default(),
            forall|k: int| 0 <= k < old(self).edges@.len() ==> #[trigger] final(self).edges@[k] == old(self).edges@[k],
            final(self).ports == old(self).ports,
            final(self).nodes == old(self).nodes,
            final(self).graphs == old(self).graphs,
            final(self).labels == old(self).labels,
    {
        let _ = self.edges.len();
        let ghost a = *self;
        self.edges.push(
            LEdge { id: 0, source: None, target: None, labels: Vec::new(), props: EdgeProps::default() },
        );
        proof {
            let last = a.edges@.len() as int;
            assert(self.edge_label_lists()[last] =~= Seq::<usize>::empty());
            assert(self.edge_label_lists() =~= a.edge_label_lists().push(Seq::empty()));
            assert(self.sources() =~= a.sources().push(None));
            assert(self.targets() =~= a.targets().push(None));
            assert(self.out_lists() =~= a.out_lists());
            assert(self.in_lists() =~= a.in_lists());
            lemma_sync_new_end(a.sources(), a.out_lists());
            lemma_sync_new_end(a.targets(), a.in_lists());
            let el = self.edge_label_lists();
            assert forall|i: int, k: int| 0 <= i < el.len() && 0 <= k < el[i].len() implies #[trigger] el[i][k] < self.labels@.len() by {
                assert(el[i] == a.edge_label_lists()[i]);
            }
        }
        LEdgeId(self.edges.len() - 1)
    }

    /// Adds a label with the given text.
    pub fn new_label(&mut self, text: String) -> (r: LLabelId)
        requires
            old(self).wf(),
        ensures
            final(self).wf(),
            r.0 == old(self).labels@.len(),
            final(self).labels@ == old(self).labels@.push(final(self).labels@[r.0 as int]),
            final(self).labels@[r.0 as int].text == text,
            final(self).labels@[r.0 as int].props.placement == EdgeLabelPlacement::Center,
            final(self).ports == old(self).ports,
            final(self).nodes == old(self).nodes,
            final(self).graphs == old(self).graphs,
            final(self).edges == old(self).edges,
    {
        let _ = self.labels.len();
        self.labels.push(LLabel { id: 0, text, props: LabelProps::default() });
        LLabelId(self.labels.len() - 1)
    }
}

/// Removes the first `x` from `v`.
fn remove_node_id(v: &mut Vec<LNodeId>, x: LNodeId)
    ensures
        final(v)@.map_values(|n: LNodeId| n.0) == old(v)@.map_values(|n: LNodeId| n.0).remove_value(x.0),
{
    let ghost m = v@.map_values(|n: LNodeId| n.0);
    let mut i: usize = 0;
    while i < v.len()
        invariant
            i <= v@.len(),
            v@ == old(v)@,
            m == v@.map_values(|n: LNodeId| n.0),
            forall|k: int| 0 <= k < i ==> m[k] != x.0,
        decreases v@.len() - i,
    {
        if v[i].0 == x.0 {
            proof {
                assert(m[i as int] == x.0);
                m.index_of_first_ensures(x.0);
                assert(m.index_of_first(x.0) == Some(i as int));
            }
            v.remove(i);
            proof {
                assert(v@.map_values(|n: LNodeId| n.0) =~= m.remove(i as int));
            }
            return;
        }
        i += 1;
    }
    proof {
        m.index_of_first_ensures(x.0);
        assert(!m.contains(x.0));
    }
}

impl LGraphArena {
    fn set_layer_at(&mut self, graph: LGraphId, node: LNodeId, layer_idx: Option<usize>, at: usize)
        requires
            old(self).wf(),
            node.0 < old(self).nodes@.len(),
            graph.0 == old(self).graph_of()[node.0 as int],
            layer_idx matches Some(l) ==> l < old(self).layer_lists()[graph.0 as int].len(),
            layer_idx matches Some(l) ==> at <= (match old(self).layer_of()[node.0 as int] {
                Some(q) => if q == l {
                    old(self).layer_lists()[graph.0 as int][q as int].remove_value(node.0)
                } else {
                    old(self).layer_lists()[graph.0 as int][l as int]
                },
                None => old(self).layer_lists()[graph.0 as int][l as int],
            }).len(),
        ensures
            final(self).wf(),
            final(self).layer_of() == old(self).layer_of().update(node.0 as int, layer_idx),
            final(self).layer_lists() == old(self).layer_lists().update(
                graph.0 as int,
                moved(
                    old(self).layer_lists()[graph.0 as int],
                    old(self).layer_of()[node.0 as int],
                    node.0,
                    layer_idx,
                    at as int,
                ),
            ),
            final(self).graph_of() == old(self).graph_of(),
            final(self).port_lists() == old(self).port_lists(),
            final(self).layerless_lists() == old(self).layerless_lists(),
            final(self).nodes@.len() == old(self).nodes@.len(),
            final(self).graphs@.len() == old(self).graphs@.len(),
            final(self).ports == old(self).ports,
            final(self).edges == old(self).edges,
            forall|x: int|
                0 <= x < old(self).nodes@.len() ==> #[trigger] final(self).nodes@[x] == (LNode {
                    layer: final(self).nodes@[x].layer,
                    ..old(self).nodes@[x]
                }),
            forall|i: int|
                0 <= i < old(self).graphs@.len() ==> #[trigger] final(self).graphs@[i] == (LGraph {
                    layers: final(self).graphs@[i].layers,
                    ..old(self).graphs@[i]
                }),
            final(self).labels == old(self).labels,
    {
        let _ = self.nodes.len();
        let _ = self.graphs[graph.0].layers.len();
        let ghost a = *self;
        let ghost g = graph.0 as int;
        let ghost from = a.layer_of()[node.0 as int];
        let ghost lists = a.layer_lists()[g];
        let ghost base = match from {
            Some(q) => lists.update(q as int, lists[q as int].remove_value(node.0)),
            None => lists,
        };
        proof {
            assert(in_sync(layer_ends(a.graph_of(), a.layer_of(), g), lists));
            assert(layer_ends(a.graph_of(), a.layer_of(), g)[node.0 as int] == from);
        }
        if let Some(old_l) = self.nodes[node.0].layer {
            remove_node_id(&mut self.graphs[graph.0].layers[old_l].nodes, node);
        }
        proof {
            assert(self.layer_lists()[g] =~= base);
            assert(self.layer_lists() =~= a.layer_lists().update(g, base));
        }
        self.nodes[node.0].layer = layer_idx;
        if let Some(new_l) = layer_idx {
            let ghost before = self.graphs@[g].layers@[new_l as int].nodes@;
            self.graphs[graph.0].layers[new_l].nodes.insert(at, node);
            proof {
                assert(self.graphs@[g].layers@[new_l as int].nodes@ == before.insert(at as int, node));
                assert(self.layer_lists()[g][new_l as int] =~= base[new_l as int].insert(at as int, node.0));
                assert(self.layer_lists()[g] =~= base.update(new_l as int, base[new_l as int].insert(at as int, node.0)));
            }
        }
        proof {
            let ends = layer_ends(a.graph_of(), a.layer_of(), g);
            assert(self.layer_lists()[g] =~= moved(lists, from, node.0, layer_idx, at as int));
            assert(self.layer_lists() =~= a.layer_lists().update(g, moved(lists, from, node.0, layer_idx, at as int)));
            assert(self.layer_of() =~= a.layer_of().update(node.0 as int, layer_idx));
            assert(self.graph_of() =~= a.graph_of());
            assert(self.port_lists() =~= a.port_lists());
            assert(self.layerless_lists() =~= a.layerless_lists());
            lemma_move_keeps_sync(ends, lists, node.0, layer_idx, at as int);
            assert forall|h: int| 0 <= h < self.layer_lists().len() implies in_sync(
                #[trigger] layer_ends(self.graph_of(), self.layer_of(), h),
                self.layer_lists()[h],
            ) by {
                if h == g {
                    assert(layer_ends(self.graph_of(), self.layer_of(), h) =~= ends.update(node.0 as int, layer_idx));
                } else {
                    assert(layer_ends(self.graph_of(), self.layer_of(), h) =~= layer_ends(a.graph_of(), a.layer_of(), h));
                    assert(in_sync(layer_ends(a.graph_of(), a.layer_of(), h), a.layer_lists()[h]));
                }
            }
        }
    }

    /// Moves a node to the end of layer `layer_idx` of its graph (or out
    /// of every layer for `None`).
    pub fn node_set_layer(&mut self, graph: LGraphId, node: LNodeId, layer_idx: Option<usize>)
        requires
            old(self).wf(),
            node.0 < old(self).nodes@.len(),
            graph.0 == old(self).graph_of()[node.0 as int],
            layer_idx matches Some(l) ==> l < old(self).layer_lists()[graph.0 as int].len(),
        ensures
            final(self).wf(),
            final(self).layer_of() == old(self).layer_of().update(node.0 as int, layer_idx),
            final(self).layer_lists() == old(self).layer_lists().update(
                graph.0 as int,
                moved_to_end(old(self).layer_lists()[graph.0 as int], old(self).layer_of()[node.0 as int], node.0, layer_idx),
            ),
            final(self).graph_of() == old(self).graph_of(),
            final(self).port_lists() == old(self).port_lists(),
            final(self).layerless_lists() == old(self).layerless_lists(),
            final(self).nodes@.len() == old(self).nodes@.len(),
            final(self).graphs@.len() == old(self).graphs@.len(),
            final(self).ports == old(self).ports,
            final(self).edges == old(self).edges,
            forall|x: int|
                0 <= x < old(self).nodes@.len() ==> #[trigger] final(self).nodes@[x] == (LNode {
                    layer: final(self).nodes@[x].layer,
                    ..old(self).nodes@[x]
                }),
            forall|i: int|
                0 <= i < old(self).graphs@.len() ==> #[trigger] final(self).graphs@[i] == (LGraph {
                    layers: final(self).graphs@[i].layers,
                    ..old(self).graphs@[i]
                }),
            final(self).labels == old(self).labels,
    {
        let ghost lists = self.layer_lists()[graph.0 as int];
        let ghost from = self.layer_of()[node.0 as int];
        let mut at: usize = 0;
        if let Some(new_l) = layer_idx {
            let n = self.graphs[graph.0].layers[new_l].nodes.len();
            let already = match self.nodes[node.0].layer {
                Some(q) => q == new_l,
                None => false,
            };
            proof {
                assert(n == lists[new_l as int].len());
                assert(in_sync(layer_ends(self.graph_of(), self.layer_of(), graph.0 as int), lists));
                assert(layer_ends(self.graph_of(), self.layer_of(), graph.0 as int)[node.0 as int] == from);
                if already {
                    assert(lists[new_l as int].contains(node.0));
                    lemma_remove_unique(lists[new_l as int], node.0);
                    lists[new_l as int].index_of_first_ensures(node.0);
                }
            }
            at = if already { n - 1 } else { n };
        }
        self.set_layer_at(graph, node, layer_idx, at);
    }

    /// Moves a node to position `index` of layer `layer_idx` of its graph.
    pub fn node_set_layer_at_index(&mut self, graph: LGraphId, node: LNodeId, layer_idx: usize, index: usize)
        requires
            old(self).wf(),
            node.0 < old(self).nodes@.len(),
            graph.0 == old(self).graph_of()[node.0 as int],
            layer_idx < old(self).layer_lists()[graph.0 as int].len(),
            index <= (match old(self).layer_of()[node.0 as int] {
                Some(q) => if q == layer_idx {
                    old(self).layer_lists()[graph.0 as int][q as int].remove_value(node.0)
                } else {
                    old(self).layer_lists()[graph.0 as int][layer_idx as int]
                },
                None => old(self).layer_lists()[graph.0 as int][layer_idx as int],
            }).len(),
        ensures
            final(self).wf(),
            final(self).layer_of() == old(self).layer_of().update(node.0 as int, Some(layer_idx)),
            final(self).layer_lists() == old(self).layer_lists().update(
                graph.0 as int,
                moved(
                    old(self).layer_lists()[graph.0 as int],
                    old(self).layer_of()[node.0 as int],
                    node.0,
                    Some(layer_idx),
                    index as int,
                ),
            ),
            final(self).graph_of() == old(self).graph_of(),
            final(self).ports == old(self).ports,
            final(self).edges == old(self).edges,
            final(self).labels == old(self).labels,
            final(self).port_lists() == old(self).port_lists(),
            final(self).layerless_lists() == old(self).layerless_lists(),
            final(self).nodes@.len() == old(self).nodes@.len(),
            final(self).graphs@.len() == old(self).graphs@.len(),
            forall|x: int|
                0 <= x < old(self).nodes@.len() ==> #[trigger] final(self).nodes@[x] == (LNode {
                    layer: final(self).nodes@[x].layer,
                    ..old(self).nodes@[x]
                }),
    {
        self.set_layer_at(graph, node, Some(layer_idx), index);
    }
}

/// A layer index after an empty layer was inserted at `at`.
pub open spec fn shifted(o: Option<usize>, at: int) -> Option<usize> {
    match o {
        Some(l) => if l >= at {
            Some((l + 1) as usize)
        } else {
            Some(l)
        },
        None => None,
    }
}

/// Inserting an empty list at `at` and shifting every reference at or
/// beyond it keeps the two sides in sync.
pub proof fn lemma_sync_insert_list(ends: Seq<Option<usize>>, lists: Seq<Seq<usize>>, at: int)
    requires
        in_sync(ends, lists),
        0 <= at <= lists.len(),
        lists.len() < usize::MAX,
        ends.len() <= usize::MAX,
    ensures
        in_sync(ends.map_values(|o: Option<usize>| shifted(o, at)), lists.insert(at, Seq::empty())),
{
    let e2 = ends.map_values(|o: Option<usize>| shifted(o, at));
    let l2 = lists.insert(at, Seq::<usize>::empty());
    assert forall|e: int| 0 <= e < e2.len() && #[trigger] e2[e] is Some implies e2[e]->0 < l2.len() && l2[e2[e]->0 as int].contains(
        e as usize,
    ) by {
        assert(ends[e] is Some);
        let l = ends[e]->0;
        assert(lists[l as int].contains(e as usize));
        if l >= at {
            assert(l2[l + 1] == lists[l as int]);
        } else {
            assert(l2[l as int] == lists[l as int]);
        }
    }
    assert forall|p: int, k: int| 0 <= p < l2.len() && 0 <= k < l2[p].len() implies #[trigger] l2[p][k] < e2.len()
        && e2[l2[p][k] as int] == Some(p as usize) by {
        if p < at {
            assert(l2[p] == lists[p]);
            assert(ends[lists[p][k] as int] == Some(p as usize));
        } else if p > at {
            assert(l2[p] == lists[p - 1]);
            assert(ends[lists[p - 1][k] as int] == Some((p - 1) as usize));
        } else {
            assert(l2[p].len() == 0);
        }
    }
    assert forall|p: int| 0 <= p < l2.len() implies #[trigger] l2[p].no_duplicates() by {
        if p < at {
            assert(l2[p] == lists[p]);
        } else if p > at {
            assert(l2[p] == lists[p - 1]);
        } else {
            assert(l2[p] =~= Seq::<usize>::empty());
        }
    }
}

impl LGraphArena {
    /// Inserts an empty layer at `at` into `graph`, shifting the stored
    /// layer of every node in the layers after it.
    pub fn insert_layer(&mut self, graph: LGraphId, at: usize)
        requires
            old(self).wf(),
            graph.0 < old(self).graphs@.len(),
            at <= old(self).layer_lists()[graph.0 as int].len(),
            old(self).layer_lists()[graph.0 as int].len() < usize::MAX,
        ensures
            final(self).wf(),
            final(self).layer_lists() == old(self).layer_lists().update(
                graph.0 as int,
                old(self).layer_lists()[graph.0 as int].insert(at as int, Seq::empty()),
            ),
            final(self).layer_of() == Seq::new(
                old(self).layer_of().len(),
                |n: int| if old(self).graph_of()[n] == graph.0 {
                    shifted(old(self).layer_of()[n], at as int)
                } else {
                    old(self).layer_of()[n]
                },
            ),
            final(self).graph_of() == old(self).graph_of(),
            final(self).port_lists() == old(self).port_lists(),
            final(self).layerless_lists() == old(self).layerless_lists(),
            final(self).nodes@.len() == old(self).nodes@.len(),
            final(self).graphs@.len() == old(self).graphs@.len(),
            final(self).ports == old(self).ports,
            final(self).edges == old(self).edges,
            final(self).labels == old(self).labels,
    {
        let _ = self.nodes.len();
        let ghost a = *self;
        let ghost g = graph.0 as int;
        let ghost target = Seq::new(
            a.layer_of().len(),
            |n: int| if a.graph_of()[n] == graph.0 { shifted(a.layer_of()[n], at as int) } else { a.layer_of()[n] },
        );
        let ghost before = self.graphs@[g].layers@;
        let fresh = Layer { id: 0, nodes: Vec::new() };
        let ghost fv = fresh;
        self.graphs[graph.0].layers.insert(at, fresh);
        proof {
            assert(self.graphs@[g].layers@ == before.insert(at as int, fv));
            assert(fv.nodes@.len() == 0);
            assert(self.layer_lists()[g][at as int] =~= Seq::<usize>::empty());
            assert(self.layer_lists()[g] =~= a.layer_lists()[g].insert(at as int, Seq::empty()));
            assert(self.layer_lists() =~= a.layer_lists().update(g, a.layer_lists()[g].insert(at as int, Seq::empty())));
        }
        let ghost mid = *self;
        let mut n: usize = 0;
        while n < self.nodes.len()
            invariant
                n <= self.nodes@.len(),
                self.nodes@.len() == a.nodes@.len(),
                a.nodes@.len() <= usize::MAX,
                self.graphs == mid.graphs,
                self.ports == mid.ports,
                self.edges == mid.edges,
                self.labels == mid.labels,
                a.wf(),
                g == graph.0,
                graph.0 < a.graphs@.len(),
                a.layer_lists()[g].len() < usize::MAX,
                target == Seq::new(
                    a.layer_of().len(),
                    |k: int| if a.graph_of()[k] == graph.0 { shifted(a.layer_of()[k], at as int) } else { a.layer_of()[k] },
                ),
                forall|k: int| 0 <= k < self.nodes@.len() ==> (#[trigger] self.nodes@[k]).graph == a.nodes@[k].graph
                    && self.nodes@[k].ports == a.nodes@[k].ports && self.nodes@[k].layer == (if k < n {
                    target[k]
                } else {
                    a.nodes@[k].layer
                }),
            decreases self.nodes@.len() - n,
        {
            let ghost prev = self.nodes@;
            if self.nodes[n].graph.0 == graph.0 {
                if let Some(l) = self.nodes[n].layer {
                    if l >= at {
                        proof {
                            assert(a.layer_of()[n as int] == Some(l));
                            assert(in_sync(layer_ends(a.graph_of(), a.layer_of(), g), a.layer_lists()[g]));
                            assert(layer_ends(a.graph_of(), a.layer_of(), g)[n as int] == Some(l));
                        }
                        self.nodes[n].layer = Some(l + 1);
                    }
                }
            }
            proof {
                assert(a.layer_of()[n as int] == a.nodes@[n as int].layer);
                assert(a.graph_of()[n as int] == a.nodes@[n as int].graph.0);
                assert forall|k: int| 0 <= k < self.nodes@.len() implies (#[trigger] self.nodes@[k]).graph == a.nodes@[k].graph
                    && self.nodes@[k].ports == a.nodes@[k].ports && self.nodes@[k].layer == (if k < n + 1 {
                    target[k]
                } else {
                    a.nodes@[k].layer
                }) by {
                    if k != n {
                        assert(self.nodes@[k] == prev[k]);
                        assert(prev[k].graph == a.nodes@[k].graph);
                    } else {
                        assert(prev[k].graph == a.nodes@[k].graph);
                        assert(prev[k].layer == a.nodes@[k].layer);
                    }
                }
            }
            n += 1;
        }
        proof {
            assert forall|k: int| 0 <= k < self.nodes@.len() implies #[trigger] self.layer_of()[k] == target[k]
                && self.graph_of()[k] == a.graph_of()[k] && self.port_lists()[k] == a.port_lists()[k] by {
                assert(self.nodes@[k].layer == target[k]);
            }
            assert(self.layer_of() =~= target);
            assert(self.graph_of() =~= a.graph_of());
            assert(self.port_lists() =~= a.port_lists());
            assert(self.layer_lists() =~= mid.layer_lists());
            assert(self.layerless_lists() =~= a.layerless_lists());
            assert(self.owners() =~= a.owners());
            let ends = layer_ends(a.graph_of(), a.layer_of(), g);
            lemma_sync_insert_list(ends, a.layer_lists()[g], at as int);
            assert forall|h: int| 0 <= h < self.layer_lists().len() implies in_sync(
                #[trigger] layer_ends(self.graph_of(), self.layer_of(), h),
                self.layer_lists()[h],
            ) by {
                if h == g {
                    assert(layer_ends(self.graph_of(), self.layer_of(), h) =~= ends.map_values(
                        |o: Option<usize>| shifted(o, at as int),
                    ));
                } else {
                    assert(layer_ends(self.graph_of(), self.layer_of(), h) =~= layer_ends(a.graph_of(), a.layer_of(), h));
                    assert(in_sync(layer_ends(a.graph_of(), a.layer_of(), h), a.layer_lists()[h]));
                }
            }
            assert forall|k: int| 0 <= k < self.graph_of().len() implies #[trigger] self.graph_of()[k] < self.layer_lists().len() by {
                assert(a.graph_of()[k] < a.layer_lists().len());
            }
        }
    }
}

/// Number of non-empty lists before position `l`.
pub open spec fn nonempty_before(lists: Seq<Seq<usize>>, l: int) -> nat
    decreases l,
{
    if l <= 0 {
        0
    } else {
        nonempty_before(lists, l - 1) + if lists[l - 1].len() > 0 { 1nat } else { 0 }
    }
}

/// The non-empty lists among the first `m`, in order.
pub open spec fn kept_upto(lists: Seq<Seq<usize>>, m: int) -> Seq<Seq<usize>>
    decreases m,
{
    if m <= 0 {
        Seq::empty()
    } else if lists[m - 1].len() > 0 {
        kept_upto(lists, m - 1).push(lists[m - 1])
    } else {
        kept_upto(lists, m - 1)
    }
}

/// A layer index after the empty layers were removed.
pub open spec fn compacted(lists: Seq<Seq<usize>>, o: Option<usize>) -> Option<usize> {
    match o {
        Some(l) => Some(nonempty_before(lists, l as int) as usize),
        None => None,
    }
}

proof fn lemma_kept_upto(lists: Seq<Seq<usize>>, m: int)
    requires
        0 <= m <= lists.len(),
    ensures
        kept_upto(lists, m).len() == nonempty_before(lists, m),
        nonempty_before(lists, m) <= m,
        forall|l: int| 0 <= l < m && lists[l].len() > 0 ==> #[trigger] nonempty_before(lists, l) < nonempty_before(lists, m),
        forall|l: int| 0 <= l < m && lists[l].len() > 0 ==> #[trigger] kept_upto(lists, m)[nonempty_before(lists, l) as int] == lists[l],
    decreases m,
{
    if m > 0 {
        lemma_kept_upto(lists, m - 1);
        assert forall|l: int| 0 <= l < m && lists[l].len() > 0 implies #[trigger] nonempty_before(lists, l) < nonempty_before(lists, m) by {
            if l < m - 1 {
                assert(nonempty_before(lists, l) < nonempty_before(lists, m - 1));
            }
        }
        assert forall|l: int| 0 <= l < m && lists[l].len() > 0 implies #[trigger] kept_upto(lists, m)[nonempty_before(lists, l) as int] == lists[l] by {
            if l < m - 1 {
                assert(kept_upto(lists, m - 1)[nonempty_before(lists, l) as int] == lists[l]);
                assert(nonempty_before(lists, l) < nonempty_before(lists, m - 1));
            }
        }
    }
}

/// The list that became entry `j` of the compacted lists.
proof fn lemma_kept_origin(lists: Seq<Seq<usize>>, m: int, j: int) -> (l: int)
    requires
        0 <= m <= lists.len(),
        0 <= j < kept_upto(lists, m).len(),
    ensures
        0 <= l < m,
        lists[l].len() > 0,
        nonempty_before(lists, l) == j,
        kept_upto(lists, m)[j] == lists[l],
    decreases m,
{
    lemma_kept_upto(lists, m - 1);
    if j < kept_upto(lists, m - 1).len() {
        let l = lemma_kept_origin(lists, m - 1, j);
        assert(kept_upto(lists, m)[j] == kept_upto(lists, m - 1)[j]);
        l
    } else {
        assert(lists[m - 1].len() > 0);
        m - 1
    }
}

/// Dropping the empty lists and renumbering every reference keeps the two
/// sides in sync.
pub proof fn lemma_sync_compact(ends: Seq<Option<usize>>, lists: Seq<Seq<usize>>)
    requires
        in_sync(ends, lists),
        ends.len() <= usize::MAX,
        lists.len() <= usize::MAX,
    ensures
        in_sync(ends.map_values(|o: Option<usize>| compacted(lists, o)), kept_upto(lists, lists.len() as int)),
{
    let n = lists.len() as int;
    let e2 = ends.map_values(|o: Option<usize>| compacted(lists, o));
    let k = kept_upto(lists, n);
    lemma_kept_upto(lists, n);
    assert forall|e: int| 0 <= e < e2.len() && #[trigger] e2[e] is Some implies e2[e]->0 < k.len() && k[e2[e]->0 as int].contains(
        e as usize,
    ) by {
        let l = ends[e]->0 as int;
        assert(lists[l].contains(e as usize));
        assert(lists[l].len() > 0);
        assert(nonempty_before(lists, l) < nonempty_before(lists, n));
        assert(kept_upto(lists, n)[nonempty_before(lists, l) as int] == lists[l]);
        assert((nonempty_before(lists, l) as usize) as int == nonempty_before(lists, l));
        assert(e2[e] == Some(nonempty_before(lists, l) as usize));
    }
    assert forall|p: int, q: int| 0 <= p < k.len() && 0 <= q < k[p].len() implies #[trigger] k[p][q] < e2.len()
        && e2[k[p][q] as int] == Some(p as usize) by {
        let l = lemma_kept_origin(lists, n, p);
        assert(ends[lists[l][q] as int] == Some(l as usize));
    }
    assert forall|p: int| 0 <= p < k.len() implies #[trigger] k[p].no_duplicates() by {
        let l = lemma_kept_origin(lists, n, p);
        assert(lists[l].no_duplicates());
    }
}

fn copy_node_ids(v: &Vec<LNodeId>) -> (r: Vec<LNodeId>)
    ensures
        r@ == v@,
{
    let mut r: Vec<LNodeId> = Vec::new();
    let mut i: usize = 0;
    while i < v.len()
        invariant
            i <= v@.len(),
            r@ == v@.subrange(0, i as int),
        decreases v@.len() - i,
    {
        r.push(v[i]);
        i += 1;
        proof {
            assert(r@ =~= v@.subrange(0, i as int));
        }
    }
    proof {
        assert(v@.subrange(0, v@.len() as int) =~= v@);
    }
    r
}

impl LGraphArena {
    /// Removes the empty layers of `graph`, renumbering the stored layer of
    /// every node of the graph.
    pub fn remove_empty_layers(&mut self, graph: LGraphId)
        requires
            old(self).wf(),
            graph.0 < old(self).graphs@.len(),
        ensures
            final(self).wf(),
            final(self).layer_lists() == old(self).layer_lists().update(
                graph.0 as int,
                kept_upto(old(self).layer_lists()[graph.0 as int], old(self).layer_lists()[graph.0 as int].len() as int),
            ),
            final(self).layer_of() == Seq::new(
                old(self).layer_of().len(),
                |n: int| if old(self).graph_of()[n] == graph.0 {
                    compacted(old(self).layer_lists()[graph.0 as int], old(self).layer_of()[n])
                } else {
                    old(self).layer_of()[n]
                },
            ),
            final(self).graph_of() == old(self).graph_of(),
            final(self).port_lists() == old(self).port_lists(),
            final(self).layerless_lists() == old(self).layerless_lists(),
            final(self).nodes@.len() == old(self).nodes@.len(),
            final(self).graphs@.len() == old(self).graphs@.len(),
            final(self).ports == old(self).ports,
            final(self).edges == old(self).edges,
            final(self).labels == old(self).labels,
    {
        let _ = self.nodes.len();
        let ghost a = *self;
        let ghost g = graph.0 as int;
        let ghost lists = a.layer_lists()[g];
        let count = self.graphs[graph.0].layers.len();
        let mut new_index: Vec<usize> = Vec::new();
        let mut kept: Vec<Layer> = Vec::new();
        let mut next: usize = 0;
        let mut i: usize = 0;
        proof {
            lemma_kept_upto(lists, count as int);
        }
        while i < count
            invariant
                *self == a,
                g == graph.0,
                graph.0 < a.graphs@.len(),
                lists == a.layer_lists()[g],
                count == lists.len(),
                i <= count,
                next == nonempty_before(lists, i as int),
                new_index@.len() == i,
                forall|l: int| 0 <= l < i ==> #[trigger] new_index@[l] == nonempty_before(lists, l),
                kept@.map_values(|x: Layer| x.nodes@.map_values(|n: LNodeId| n.0)) == kept_upto(lists, i as int),
                nonempty_before(lists, i as int) <= i,
            decreases count - i,
        {
            new_index.push(next);
            let ghost before = kept@;
            if self.graphs[graph.0].layers[i].nodes.len() > 0 {
                let nodes = copy_node_ids(&self.graphs[graph.0].layers[i].nodes);
                let id = self.graphs[graph.0].layers[i].id;
                kept.push(Layer { id, nodes });
                next += 1;
                proof {
                    assert(kept@.map_values(|x: Layer| x.nodes@.map_values(|n: LNodeId| n.0)) =~= kept_upto(lists, i + 1));
                }
            }
            i += 1;
        }
        std::mem::swap(&mut self.graphs[graph.0].layers, &mut kept);
        proof {
            assert(self.layer_lists()[g] =~= kept_upto(lists, count as int));
            assert(self.layer_lists() =~= a.layer_lists().update(g, kept_upto(lists, count as int)));
        }
        let ghost mid = *self;
        let ghost target = Seq::new(
            a.layer_of().len(),
            |k: int| if a.graph_of()[k] == graph.0 { compacted(lists, a.layer_of()[k]) } else { a.layer_of()[k] },
        );
        let mut n: usize = 0;
        while n < self.nodes.len()
            invariant
                n <= self.nodes@.len(),
                self.nodes@.len() == a.nodes@.len(),
                a.nodes@.len() <= usize::MAX,
                self.graphs == mid.graphs,
                self.ports == mid.ports,
                self.edges == mid.edges,
                self.labels == mid.labels,
                a.wf(),
                g == graph.0,
                graph.0 < a.graphs@.len(),
                lists == a.layer_lists()[g],
                new_index@.len() == lists.len(),
                forall|l: int| 0 <= l < lists.len() ==> #[trigger] new_index@[l] == nonempty_before(lists, l),
                target == Seq::new(
                    a.layer_of().len(),
                    |k: int| if a.graph_of()[k] == graph.0 { compacted(lists, a.layer_of()[k]) } else { a.layer_of()[k] },
                ),
                forall|k: int| 0 <= k < self.nodes@.len() ==> (#[trigger] self.nodes@[k]).graph == a.nodes@[k].graph
                    && self.nodes@[k].ports == a.nodes@[k].ports && self.nodes@[k].layer == (if k < n {
                    target[k]
                } else {
                    a.nodes@[k].layer
                }),
            decreases self.nodes@.len() - n,
        {
            let ghost prev = self.nodes@;
            proof {
                assert(a.layer_of()[n as int] == a.nodes@[n as int].layer);
                assert(a.graph_of()[n as int] == a.nodes@[n as int].graph.0);
                assert(prev[n as int].layer == a.nodes@[n as int].layer);
            }
            if self.nodes[n].graph.0 == graph.0 {
                if let Some(l) = self.nodes[n].layer {
                    proof {
                        assert(in_sync(layer_ends(a.graph_of(), a.layer_of(), g), a.layer_lists()[g]));
                        assert(layer_ends(a.graph_of(), a.layer_of(), g)[n as int] == Some(l));
                    }
                    self.nodes[n].layer = Some(new_index[l]);
                }
            }
            proof {
                assert forall|k: int| 0 <= k < self.nodes@.len() implies (#[trigger] self.nodes@[k]).graph == a.nodes@[k].graph
                    && self.nodes@[k].ports == a.nodes@[k].ports && self.nodes@[k].layer == (if k < n + 1 {
                    target[k]
                } else {
                    a.nodes@[k].layer
                }) by {
                    if k != n {
                        assert(self.nodes@[k] == prev[k]);
                        assert(prev[k].graph == a.nodes@[k].graph);
                    } else {
                        assert(prev[k].graph == a.nodes@[k].graph);
                    }
                }
            }
            n += 1;
        }
        proof {
            assert forall|k: int| 0 <= k < self.nodes@.len() implies #[trigger] self.layer_of()[k] == target[k]
                && self.graph_of()[k] == a.graph_of()[k] && self.port_lists()[k] == a.port_lists()[k] by {
                assert(self.nodes@[k].layer == target[k]);
            }
            assert(self.layer_of() =~= target);
            assert(self.graph_of() =~= a.graph_of());
            assert(self.port_lists() =~= a.port_lists());
            assert(self.layer_lists() =~= mid.layer_lists());
            assert(self.layerless_lists() =~= a.layerless_lists());
            assert(self.owners() =~= a.owners());
            let ends = layer_ends(a.graph_of(), a.layer_of(), g);
            lemma_sync_compact(ends, lists);
            assert forall|h: int| 0 <= h < self.layer_lists().len() implies in_sync(
                #[trigger] layer_ends(self.graph_of(), self.layer_of(), h),
                self.layer_lists()[h],
            ) by {
                if h == g {
                    assert(layer_ends(self.graph_of(), self.layer_of(), h) =~= ends.map_values(
                        |o: Option<usize>| compacted(lists, o),
                    ));
                } else {
                    assert(layer_ends(self.graph_of(), self.layer_of(), h) =~= layer_ends(a.graph_of(), a.layer_of(), h));
                    assert(in_sync(layer_ends(a.graph_of(), a.layer_of(), h), a.layer_lists()[h]));
                }
            }
            assert forall|k: int| 0 <= k < self.graph_of().len() implies #[trigger] self.graph_of()[k] < self.layer_lists().len() by {
                assert(a.graph_of()[k] < a.layer_lists().len());
            }
        }
    }
}

/// The lists of the given ports, one after the other.
pub open spec fn gather(lists: Seq<Seq<usize>>, ports: Seq<usize>) -> Seq<usize>
    decreases ports.len(),
{
    if ports.len() == 0 {
        Seq::empty()
    } else {
        gather(lists, ports.drop_last()) + lists[ports.last() as int]
    }
}

/// For each of the given ports, its incoming then its outgoing edges.
pub open spec fn gather_both(ins: Seq<Seq<usize>>, outs: Seq<Seq<usize>>, ports: Seq<usize>) -> Seq<usize>
    decreases ports.len(),
{
    if ports.len() == 0 {
        Seq::empty()
    } else {
        gather_both(ins, outs, ports.drop_last()) + ins[ports.last() as int] + outs[ports.last() as int]
    }
}

fn append_edge_ids(out: &mut Vec<LEdgeId>, v: &Vec<LEdgeId>)
    ensures
        final(out)@.map_values(|e: LEdgeId| e.0) == old(out)@.map_values(|e: LEdgeId| e.0) + v@.map_values(|e: LEdgeId| e.0),
{
    let ghost start = out@;
    let mut i: usize = 0;
    while i < v.len()
        invariant
            i <= v@.len(),
            out@.len() == start.len() + i,
            forall|j: int| 0 <= j < start.len() ==> #[trigger] out@[j] == start[j],
            forall|j: int| 0 <= j < i ==> out@[start.len() + j] == #[trigger] v@[j],
        decreases v@.len() - i,
    {
        out.push(v[i]);
        i += 1;
    }
    proof {
        let a = out@.map_values(|e: LEdgeId| e.0);
        let b = start.map_values(|e: LEdgeId| e.0) + v@.map_values(|e: LEdgeId| e.0);
        assert forall|j: int| 0 <= j < a.len() implies a[j] == b[j] by {
            if j < start.len() {
                assert(out@[j] == start[j]);
            } else {
                assert(out@[start.len() + (j - start.len())] == v@[j - start.len()]);
            }
        }
        assert(a =~= b);
    }
}

impl LGraphArena {
    /// The node owning the port an optional reference points to.
    pub open spec fn node_of(&self, p: Option<usize>) -> Option<usize> {
        match p {
            Some(q) => self.owners()[q as int],
            None => None,
        }
    }

    /// Whether an edge connects two ports of the same node.
    pub fn edge_is_self_loop(&self, edge: LEdgeId) -> (r: bool)
        requires
            self.wf(),
            edge.0 < self.edges@.len(),
        ensures
            r == (self.sources()[edge.0 as int] is Some && self.targets()[edge.0 as int] is Some && self.node_of(
                self.sources()[edge.0 as int],
            ) is Some && self.node_of(self.sources()[edge.0 as int]) == self.node_of(self.targets()[edge.0 as int])),
    {
        match (self.edges[edge.0].source, self.edges[edge.0].target) {
            (Some(s), Some(t)) => {
                proof {
                    assert(self.sources()[edge.0 as int] == Some(s.0));
                    assert(self.targets()[edge.0 as int] == Some(t.0));
                }
                let sn = self.ports[s.0].owner;
                let tn = self.ports[t.0].owner;
                match (sn, tn) {
                    (Some(a), Some(b)) => a.0 == b.0,
                    _ => false,
                }
            },
            _ => false,
        }
    }

    /// The node of an edge's source port.
    pub fn edge_source_node(&self, edge: LEdgeId) -> (r: Option<LNodeId>)
        requires
            self.wf(),
            edge.0 < self.edges@.len(),
        ensures
            node_index(r) == self.node_of(self.sources()[edge.0 as int]),
    {
        match self.edges[edge.0].source {
            Some(p) => {
                proof {
                    assert(self.sources()[edge.0 as int] == Some(p.0));
                }
                self.ports[p.0].owner
            },
            None => None,
        }
    }

    /// The node of an edge's target port.
    pub fn edge_target_node(&self, edge: LEdgeId) -> (r: Option<LNodeId>)
        requires
            self.wf(),
            edge.0 < self.edges@.len(),
        ensures
            node_index(r) == self.node_of(self.targets()[edge.0 as int]),
    {
        match self.edges[edge.0].target {
            Some(p) => {
                proof {
                    assert(self.targets()[edge.0 as int] == Some(p.0));
                }
                self.ports[p.0].owner
            },
            None => None,
        }
    }

    /// Every edge at any port of `node`: per port, in port order, its
    /// incoming then its outgoing edges.
    pub fn node_connected_edges(&self, node: LNodeId) -> (r: Vec<LEdgeId>)
        requires
            self.wf(),
            node.0 < self.nodes@.len(),
        ensures
            r@.map_values(|e: LEdgeId| e.0) == gather_both(self.in_lists(), self.out_lists(), self.port_lists()[node.0 as int]),
    {
        let ports = &self.nodes[node.0].ports;
        let ghost pl = self.port_lists()[node.0 as int];
        let mut out: Vec<LEdgeId> = Vec::new();
        let mut i: usize = 0;
        proof {
            assert(out@.map_values(|e: LEdgeId| e.0) =~= gather_both(self.in_lists(), self.out_lists(), pl.subrange(0, 0)));
        }
        while i < ports.len()
            invariant
                self.wf(),
                node.0 < self.nodes@.len(),
                pl == self.port_lists()[node.0 as int],
                pl == ports@.map_values(|p: LPortId| p.0),
                i <= ports@.len(),
                out@.map_values(|e: LEdgeId| e.0) == gather_both(self.in_lists(), self.out_lists(), pl.subrange(0, i as int)),
            decreases ports@.len() - i,
        {
            let p = ports[i];
            proof {
                assert(pl[i as int] == p.0);
                assert(p.0 < self.ports@.len());
            }
            append_edge_ids(&mut out, &self.ports[p.0].incoming_edges);
            append_edge_ids(&mut out, &self.ports[p.0].outgoing_edges);
            proof {
                let t = pl.subrange(0, i + 1);
                assert(t.drop_last() =~= pl.subrange(0, i as int));
                assert(t.last() == p.0);
            }
            i += 1;
        }
        proof {
            assert(pl.subrange(0, pl.len() as int) =~= pl);
        }
        out
    }

    /// The outgoing edges of every port of `node`, in port order.
    pub fn node_outgoing_edges(&self, node: LNodeId) -> (r: Vec<LEdgeId>)
        requires
            self.wf(),
            node.0 < self.nodes@.len(),
        ensures
            r@.map_values(|e: LEdgeId| e.0) == gather(self.out_lists(), self.port_lists()[node.0 as int]),
    {
        let ports = &self.nodes[node.0].ports;
        let ghost pl = self.port_lists()[node.0 as int];
        let mut out: Vec<LEdgeId> = Vec::new();
        let mut i: usize = 0;
        proof {
            assert(out@.map_values(|e: LEdgeId| e.0) =~= gather(self.out_lists(), pl.subrange(0, 0)));
        }
        while i < ports.len()
            invariant
                self.wf(),
                node.0 < self.nodes@.len(),
                pl == self.port_lists()[node.0 as int],
                pl == ports@.map_values(|p: LPortId| p.0),
                i <= ports@.len(),
                out@.map_values(|e: LEdgeId| e.0) == gather(self.out_lists(), pl.subrange(0, i as int)),
            decreases ports@.len() - i,
        {
            let p = ports[i];
            proof {
                assert(pl[i as int] == p.0);
                assert(p.0 < self.ports@.len());
            }
            append_edge_ids(&mut out, &self.ports[p.0].outgoing_edges);
            proof {
                let t = pl.subrange(0, i + 1);
                assert(t.drop_last() =~= pl.subrange(0, i as int));
                assert(t.last() == p.0);
            }
            i += 1;
        }
        proof {
            assert(pl.subrange(0, pl.len() as int) =~= pl);
        }
        out
    }

    /// The incoming edges of every port of `node`, in port order.
    pub fn node_incoming_edges(&self, node: LNodeId) -> (r: Vec<LEdgeId>)
        requires
            self.wf(),
            node.0 < self.nodes@.len(),
        ensures
            r@.map_values(|e: LEdgeId| e.0) == gather(self.in_lists(), self.port_lists()[node.0 as int]),
    {
        let ports = &self.nodes[node.0].ports;
        let ghost pl = self.port_lists()[node.0 as int];
        let mut out: Vec<LEdgeId> = Vec::new();
        let mut i: usize = 0;
        proof {
            assert(out@.map_values(|e: LEdgeId| e.0) =~= gather(self.in_lists(), pl.subrange(0, 0)));
        }
        while i < ports.len()
            invariant
                self.wf(),
                node.0 < self.nodes@.len(),
                pl == self.port_lists()[node.0 as int],
                pl == ports@.map_values(|p: LPortId| p.0),
                i <= ports@.len(),
                out@.map_values(|e: LEdgeId| e.0) == gather(self.in_lists(), pl.subrange(0, i as int)),
            decreases ports@.len() - i,
        {
            let p = ports[i];
            proof {
                assert(pl[i as int] == p.0);
                assert(p.0 < self.ports@.len());
            }
            append_edge_ids(&mut out, &self.ports[p.0].incoming_edges);
            proof {
                let t = pl.subrange(0, i + 1);
                assert(t.drop_last() =~= pl.subrange(0, i as int));
                assert(t.last() == p.0);
            }
            i += 1;
        }
        proof {
            assert(pl.subrange(0, pl.len() as int) =~= pl);
        }
        out
    }
}

} // verus!
