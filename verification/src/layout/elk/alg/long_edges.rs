//! Splitting edges that span more than one layer into chains of long-edge
//! dummy nodes, one per layer crossed.

use vstd::prelude::*;
use crate::layout::elk::alg::graph::{in_sync, layer_ends, moved, moved_to_end, port_index, LEdge, LEdgeId, LGraphArena, LGraphId, LLabelId, LNode, LNodeId, LPort, LPortId, NodeType};
use crate::layout::elk::alg::options::{default_node_props, EdgeProps, NodeProps, PortConstraints, PortSide};
use crate::layout::elk::alg::p1_cycles::{copy_vec, lemma_port_list, source_node, target_node};
use crate::layout::elk::alg::intermediate::{find_port_on_side, first_on_side, lemma_first_on_side, lemma_replace_in_list, lemma_remove_value_at, placed};

verus! {

/// A copy of the edge properties `p`.
pub fn copy_edge_props(p: &EdgeProps) -> (r: EdgeProps)
    ensures
        r == *p,
{
    let origin = match &p.origin {
        Some(s) => Some(s.clone()),
        None => None,
    };
    EdgeProps {
        origin,
        reversed: p.reversed,
        priority: p.priority,
        model_order: p.model_order,
        original_opposite_port: p.original_opposite_port,
    }
}

/// The properties of dummy `d` once it carries the ends of the long edge
/// it is part of: taken over from a long-edge or label dummy at the
/// source `s` of its incoming edge, else from a label dummy at the target
/// `t` of its outgoing edge, else the source port of the incoming edge
/// and the target port of the outgoing edge.
pub open spec fn dummy_props(a: &LGraphArena, d: int, s: int, t: int, in_edge: int, out_edge: int) -> NodeProps {
    let sp = a.nodes@[s].props;
    let tp = a.nodes@[t].props;
    let dp = a.nodes@[d].props;
    if a.nodes@[s].node_type == NodeType::LongEdge {
        NodeProps {
            long_edge_source: sp.long_edge_source,
            long_edge_target: sp.long_edge_target,
            long_edge_has_label_dummies: sp.long_edge_has_label_dummies,
            ..dp
        }
    } else if a.nodes@[s].node_type == NodeType::Label {
        NodeProps {
            long_edge_source: sp.long_edge_source,
            long_edge_target: sp.long_edge_target,
            long_edge_has_label_dummies: true,
            ..dp
        }
    } else if a.nodes@[t].node_type == NodeType::Label {
        NodeProps {
            long_edge_source: tp.long_edge_source,
            long_edge_target: tp.long_edge_target,
            long_edge_has_label_dummies: true,
            ..dp
        }
    } else {
        NodeProps { long_edge_source: a.edges@[in_edge].source, long_edge_target: a.edges@[out_edge].target, ..dp }
    }
}

/// Records on `dummy_node` the real ends of the long edge it is part of,
/// given its incoming edge `in_edge` and outgoing edge `out_edge`.
fn set_dummy_node_properties(arena: &mut LGraphArena, dummy_node: LNodeId, in_edge: LEdgeId, out_edge: LEdgeId)
    requires
        old(arena).wf(),
        dummy_node.0 < old(arena).nodes@.len(),
        in_edge.0 < old(arena).edges@.len(),
        out_edge.0 < old(arena).edges@.len(),
        source_node(old(arena), in_edge.0) is Some,
        target_node(old(arena), out_edge.0) is Some,
    ensures
        final(arena).wf(),
        final(arena).nodes@ == old(arena).nodes@.update(
            dummy_node.0 as int,
            LNode {
                props: dummy_props(
                    old(arena),
                    dummy_node.0 as int,
                    source_node(old(arena), in_edge.0)->0 as int,
                    target_node(old(arena), out_edge.0)->0 as int,
                    in_edge.0 as int,
                    out_edge.0 as int,
                ),
                ..old(arena).nodes@[dummy_node.0 as int]
            },
        ),
        final(arena).ports == old(arena).ports,
        final(arena).edges == old(arena).edges,
        final(arena).graphs == old(arena).graphs,
        final(arena).labels == old(arena).labels,
{
    let ghost a0 = *arena;
    let in_source_node = arena.edge_source_node(in_edge).unwrap();
    let out_target_node = arena.edge_target_node(out_edge).unwrap();
    let d = dummy_node.0;
    let s = in_source_node.0;
    let t = out_target_node.0;
    proof {
        assert(s < a0.nodes@.len() && t < a0.nodes@.len());
    }
    if arena.nodes[s].node_type == NodeType::LongEdge {
        arena.nodes[d].props.long_edge_source = arena.nodes[s].props.long_edge_source;
        arena.nodes[d].props.long_edge_target = arena.nodes[s].props.long_edge_target;
        arena.nodes[d].props.long_edge_has_label_dummies = arena.nodes[s].props.long_edge_has_label_dummies;
    } else if arena.nodes[s].node_type == NodeType::Label {
        arena.nodes[d].props.long_edge_source = arena.nodes[s].props.long_edge_source;
        arena.nodes[d].props.long_edge_target = arena.nodes[s].props.long_edge_target;
        arena.nodes[d].props.long_edge_has_label_dummies = true;
    } else if arena.nodes[t].node_type == NodeType::Label {
        arena.nodes[d].props.long_edge_source = arena.nodes[t].props.long_edge_source;
        arena.nodes[d].props.long_edge_target = arena.nodes[t].props.long_edge_target;
        arena.nodes[d].props.long_edge_has_label_dummies = true;
    } else {
        arena.nodes[d].props.long_edge_source = arena.edges[in_edge.0].source;
        arena.nodes[d].props.long_edge_target = arena.edges[out_edge.0].target;
    }
    proof {
        assert(arena.nodes@ =~= a0.nodes@.update(
            d as int,
            LNode { props: dummy_props(&a0, d as int, s as int, t as int, in_edge.0 as int, out_edge.0 as int), ..a0.nodes@[d as int] },
        ));
        assert(arena.port_lists() =~= a0.port_lists());
        assert(arena.graph_of() =~= a0.graph_of());
        assert(arena.layer_of() =~= a0.layer_of());
    }
}


/// Adds a long-edge dummy for splitting `edge_to_split` to layer
/// `target_layer` of `graph`, with fixed port positions and no place in
/// the graph's node list.
fn create_dummy_node(arena: &mut LGraphArena, graph: LGraphId, target_layer: usize, edge_to_split: LEdgeId) -> (r: LNodeId)
    requires
        old(arena).wf(),
        graph.0 < old(arena).graphs@.len(),
        target_layer < old(arena).layer_lists()[graph.0 as int].len(),
    ensures
        final(arena).wf(),
        r.0 == old(arena).nodes@.len(),
        final(arena).graph_of() == old(arena).graph_of().push(graph.0),
        final(arena).layer_of() == old(arena).layer_of().push(Some(target_layer)),
        final(arena).port_lists() == old(arena).port_lists().push(Seq::empty()),
        final(arena).layer_lists() == old(arena).layer_lists().update(
            graph.0 as int,
            old(arena).layer_lists()[graph.0 as int].update(
                target_layer as int,
                old(arena).layer_lists()[graph.0 as int][target_layer as int].push(r.0),
            ),
        ),
        final(arena).layerless_lists() == old(arena).layerless_lists(),
        final(arena).nodes@.len() == old(arena).nodes@.len() + 1,
        forall|x: int| 0 <= x < old(arena).nodes@.len() ==> #[trigger] final(arena).nodes@[x] == old(arena).nodes@[x],
        final(arena).nodes@[r.0 as int].node_type == NodeType::LongEdge,
        final(arena).nodes@[r.0 as int].props == (NodeProps {
            origin_edge: Some(edge_to_split),
            port_constraints: PortConstraints::FixedPos,
            ..final(arena).nodes@[r.0 as int].props
        }),
        default_node_props(
            NodeProps {
                origin_edge: None,
                port_constraints: PortConstraints::Undefined,
                ..final(arena).nodes@[r.0 as int].props
            },
        ),
        final(arena).graphs@.len() == old(arena).graphs@.len(),
        forall|i: int| 0 <= i < old(arena).graphs@.len() ==> (#[trigger] final(arena).graphs@[i]).props == old(arena).graphs@[i].props,
        final(arena).ports == old(arena).ports,
        final(arena).edges == old(arena).edges,
        final(arena).labels == old(arena).labels,
{
    let ghost a0 = *arena;
    let dummy = arena.new_node(graph);
    let ghost a1 = *arena;
    let ghost before = arena.graphs@[graph.0 as int].layerless_nodes@;
    arena.graphs[graph.0].layerless_nodes.pop();
    proof {
        let g = graph.0 as int;
        assert(before.len() > 0) by {
            assert(a1.layerless_lists()[g].len() == a0.layerless_lists()[g].len() + 1);
        }
        assert(arena.graphs@[g].layerless_nodes@ == before.drop_last());
        assert(a1.layerless_lists()[g] == a0.layerless_lists()[g].push(dummy.0));
        assert(before.map_values(|n: LNodeId| n.0) == a1.layerless_lists()[g]);
        assert(arena.layerless_lists()[g] == before.drop_last().map_values(|n: LNodeId| n.0));
        assert forall|k: int| 0 <= k < a0.layerless_lists()[g].len() implies arena.layerless_lists()[g][k] == a0.layerless_lists()[g][k] by {
            assert(arena.layerless_lists()[g][k] == before[k].0);
            assert(a1.layerless_lists()[g][k] == before[k].0);
        }
        assert(arena.layerless_lists()[g] =~= a0.layerless_lists()[g]);
        assert forall|i: int| 0 <= i < a0.graphs@.len() && i != g implies arena.layerless_lists()[i] == a0.layerless_lists()[i] by {
            assert(arena.graphs@[i] == a1.graphs@[i]);
            assert(a1.layerless_lists()[i] == a0.layerless_lists()[i]);
            assert(arena.layerless_lists()[i] == arena.graphs@[i].layerless_nodes@.map_values(|n: LNodeId| n.0));
            assert(a1.layerless_lists()[i] == a1.graphs@[i].layerless_nodes@.map_values(|n: LNodeId| n.0));
        }
        assert(arena.layerless_lists() =~= a0.layerless_lists());
        assert(arena.layer_lists() =~= a1.layer_lists());
        assert(arena.graph_of() =~= a1.graph_of());
        assert(arena.layer_of() =~= a1.layer_of());
        assert(arena.port_lists() =~= a1.port_lists());
    }
    arena.nodes[dummy.0].node_type = NodeType::LongEdge;
    arena.nodes[dummy.0].props.origin_edge = Some(edge_to_split);
    arena.nodes[dummy.0].props.port_constraints = PortConstraints::FixedPos;
    proof {
        assert(arena.graph_of() =~= a1.graph_of());
        assert(arena.layer_of() =~= a1.layer_of());
        assert(arena.port_lists() =~= a1.port_lists());
        assert(arena.layer_lists() =~= a1.layer_lists());
        assert(arena.layerless_lists() =~= a0.layerless_lists());
        assert(a0.layer_lists()[graph.0 as int][target_layer as int].insert(
            a0.layer_lists()[graph.0 as int][target_layer as int].len() as int,
            dummy.0,
        ) =~= a0.layer_lists()[graph.0 as int][target_layer as int].push(dummy.0));
    }
    let ghost a2 = *arena;
    arena.node_set_layer(graph, dummy, Some(target_layer));
    proof {
        assert(arena.layer_of() =~= a0.layer_of().push(Some(target_layer)));
        assert forall|x: int| 0 <= x < a0.nodes@.len() implies #[trigger] arena.nodes@[x] == a0.nodes@[x] by {
            assert(a2.nodes@[x] == a0.nodes@[x]);
            assert(arena.layer_of()[x] == a0.layer_of()[x]);
        }
    }
    dummy
}


/// The incoming-edge lists after `edge`, which ended at port `t`, was
/// split by a dummy whose input port is `din` (followed by its output
/// port): `edge` now ends at `din`, and the new edge `e_new` at `t`.
pub open spec fn split_in_lists(ins: Seq<Seq<usize>>, t: usize, edge: usize, e_new: usize) -> Seq<Seq<usize>> {
    ins.update(t as int, ins[t as int].remove_value(edge).push(e_new)).push(seq![edge]).push(Seq::empty())
}

/// What splitting `edge` at dummy `d` with the new edge `r` leaves: the
/// dummy gains a west input port and an east output port, `edge` ends at
/// the input port, `r` (with the properties of `edge`) leads from the
/// output port to the old target, at the end of that port's list, and
/// the dummy records the real ends of the long edge.
pub open spec fn edge_split(a: &LGraphArena, b: &LGraphArena, edge: usize, d: usize, r: usize) -> bool {
    &&& r == a.edges@.len()
    &&& b.owners() == a.owners().push(Some(d)).push(Some(d))
    &&& b.port_lists() == a.port_lists().update(
        d as int,
        a.port_lists()[d as int].push(a.ports@.len() as usize).push((a.ports@.len() + 1) as usize),
    )
    &&& b.ports@.len() == a.ports@.len() + 2
    &&& b.ports@[a.ports@.len() as int].side == PortSide::West
    &&& b.ports@[a.ports@.len() + 1int].side == PortSide::East
    &&& forall|k: int| 0 <= k < a.ports@.len() ==> (#[trigger] b.ports@[k]).side == a.ports@[k].side
    &&& b.sources() == a.sources().push(Some((a.ports@.len() + 1) as usize))
    &&& b.targets() == a.targets().update(edge as int, Some(a.ports@.len() as usize)).push(a.targets()[edge as int])
    &&& b.out_lists() == a.out_lists().push(Seq::empty()).push(seq![r])
    &&& b.in_lists() == split_in_lists(a.in_lists(), a.targets()[edge as int]->0, edge, r)
    &&& b.edges@.len() == a.edges@.len() + 1
    &&& b.edges@[r as int].props == a.edges@[edge as int].props
    &&& forall|k: int| 0 <= k < a.edges@.len() ==> (#[trigger] b.edges@[k]).props == a.edges@[k].props
    &&& b.edge_label_lists() == a.edge_label_lists().push(Seq::empty())
    &&& b.graph_of() == a.graph_of()
    &&& b.layer_of() == a.layer_of()
    &&& b.layer_lists() == a.layer_lists()
    &&& b.layerless_lists() == a.layerless_lists()
    &&& b.nodes@.len() == a.nodes@.len()
    &&& forall|x: int|
        0 <= x < a.nodes@.len() && x != d ==> #[trigger] b.nodes@[x] == (LNode { ports: b.nodes@[x].ports, ..a.nodes@[x] })
    &&& b.nodes@[d as int] == (LNode {
        ports: b.nodes@[d as int].ports,
        props: dummy_props(
            a,
            d as int,
            source_node(a, edge)->0 as int,
            target_node(a, edge)->0 as int,
            edge as int,
            edge as int,
        ),
        ..a.nodes@[d as int]
    })
    &&& b.graphs == a.graphs
    &&& b.labels == a.labels
}

/// Splits `edge` at `dummy_node`: gives the dummy a west input port and an
/// east output port, lets `edge` end at the input port, adds an edge with
/// the same properties from the output port to the old target, and records
/// the long edge's real ends on the dummy. Returns the new edge.
pub fn split_edge(arena: &mut LGraphArena, edge: LEdgeId, dummy_node: LNodeId) -> (r: LEdgeId)
    requires
        old(arena).wf(),
        edge.0 < old(arena).edges@.len(),
        dummy_node.0 < old(arena).nodes@.len(),
        source_node(old(arena), edge.0) is Some,
        target_node(old(arena), edge.0) is Some,
    ensures
        final(arena).wf(),
        edge_split(old(arena), final(arena), edge.0, dummy_node.0, r.0),
{
    let ghost a0 = *arena;
    let ghost pn = a0.ports@.len();
    let ghost en = a0.edges@.len();
    let ghost t = a0.targets()[edge.0 as int]->0;
    let ghost d = dummy_node.0 as int;
    let old_edge_target = arena.edges[edge.0].target.unwrap();
    proof {
        assert(old_edge_target.0 == t);
        assert(t < pn);
    }
    let dummy_input = arena.new_port(dummy_node);
    let ghost b1 = *arena;
    arena.port_set_side(dummy_input, PortSide::West);
    proof {
        assert(arena.owners() =~= b1.owners());
        assert(arena.in_lists() =~= b1.in_lists());
        assert(arena.out_lists() =~= b1.out_lists());
    }
    let dummy_output = arena.new_port(dummy_node);
    let ghost b2 = *arena;
    arena.port_set_side(dummy_output, PortSide::East);
    proof {
        assert(arena.owners() =~= b2.owners());
        assert(arena.in_lists() =~= b2.in_lists());
        assert(arena.out_lists() =~= b2.out_lists());
    }
    let ghost a1 = *arena;
    proof {
        assert(b1.port_lists() == a0.port_lists().update(d, a0.port_lists()[d].push(pn as usize)));
        assert(a1.port_lists() =~= b2.port_lists());
        assert(a1.port_lists() =~= a0.port_lists().update(d, a0.port_lists()[d].push(pn as usize).push((pn + 1) as usize)));
        assert(a1.owners() =~= a0.owners().push(Some(dummy_node.0)).push(Some(dummy_node.0)));
        assert(a1.in_lists() =~= a0.in_lists().push(Seq::empty()).push(Seq::empty()));
        assert(a1.out_lists() =~= a0.out_lists().push(Seq::empty()).push(Seq::empty()));
    }
    arena.edge_set_target(edge, Some(dummy_input));
    let ghost a2 = *arena;
    proof {
        let base = a1.in_lists().update(t as int, a1.in_lists()[t as int].remove_value(edge.0));
        assert(base[pn as int] =~= Seq::<usize>::empty());
        assert(base[pn as int].insert(0, edge.0) =~= seq![edge.0]);
        assert(a2.in_lists() =~= a0.in_lists().update(t as int, a0.in_lists()[t as int].remove_value(edge.0)).push(seq![edge.0]).push(
            Seq::empty(),
        ));
    }
    let dummy_edge = arena.new_edge();
    let props = copy_edge_props(&arena.edges[edge.0].props);
    arena.edges[dummy_edge.0].props = props;
    proof {
        assert(arena.sources() =~= a2.sources().push(None));
        assert(arena.targets() =~= a2.targets().push(None));
        assert(arena.edge_label_lists() =~= a2.edge_label_lists().push(Seq::empty()));
    }
    let ghost a3 = *arena;
    proof {
        assert(a3.out_lists() =~= a1.out_lists());
        assert(a3.in_lists() =~= a2.in_lists());
    }
    arena.edge_set_source(dummy_edge, Some(dummy_output));
    let ghost a35 = *arena;
    proof {
        assert(a3.out_lists()[pn + 1int] =~= Seq::<usize>::empty());
        assert(a3.out_lists()[pn + 1int].insert(0, dummy_edge.0) =~= seq![dummy_edge.0]);
        assert(a35.out_lists() =~= a0.out_lists().push(Seq::empty()).push(seq![dummy_edge.0]));
    }
    arena.edge_set_target(dummy_edge, Some(old_edge_target));
    let ghost a4 = *arena;
    proof {
        let l = a35.in_lists()[t as int];
        assert(l.insert(l.len() as int, dummy_edge.0) =~= l.push(dummy_edge.0));
        assert(a4.in_lists() =~= split_in_lists(a0.in_lists(), t, edge.0, dummy_edge.0));
        assert(source_node(&a4, edge.0) == source_node(&a0, edge.0));
        assert(a4.targets()[dummy_edge.0 as int] == Some(t));
        assert(target_node(&a4, dummy_edge.0) == target_node(&a0, edge.0));
    }
    set_dummy_node_properties(arena, dummy_node, edge, dummy_edge);
    proof {
        let s = source_node(&a0, edge.0)->0 as int;
        let tn = target_node(&a0, edge.0)->0 as int;
        assert(a4.edges@[edge.0 as int].source == a0.edges@[edge.0 as int].source);
        assert(a4.edges@[dummy_edge.0 as int].target == a0.edges@[edge.0 as int].target);
        assert(a4.nodes@[s].node_type == a0.nodes@[s].node_type && a4.nodes@[s].props == a0.nodes@[s].props);
        assert(a4.nodes@[tn].node_type == a0.nodes@[tn].node_type && a4.nodes@[tn].props == a0.nodes@[tn].props);
        assert(a4.nodes@[d].props == a0.nodes@[d].props);
        assert(dummy_props(&a4, d, s, tn, edge.0 as int, dummy_edge.0 as int) == dummy_props(&a0, d, s, tn, edge.0 as int, edge.0 as int));
        assert(arena.sources() =~= a0.sources().push(Some((pn + 1) as usize)));
        assert(arena.targets() =~= a0.targets().update(edge.0 as int, Some(pn as usize)).push(a0.targets()[edge.0 as int]));
        assert(arena.out_lists() =~= a0.out_lists().push(Seq::empty()).push(seq![dummy_edge.0]));
        assert(arena.in_lists() =~= split_in_lists(a0.in_lists(), t, edge.0, dummy_edge.0));
        assert(a4.port_lists() =~= a1.port_lists());
        assert(arena.port_lists() =~= a4.port_lists());
        let b = *arena;
        let dd = dummy_node.0;
        assert(b.owners() == a0.owners().push(Some(dd)).push(Some(dd)));
        assert(b.ports@.len() == a0.ports@.len() + 2);
        assert(b.ports@[a0.ports@.len() as int].side == PortSide::West);
        assert(b.ports@[a0.ports@.len() + 1int].side == PortSide::East);
        assert(b.edges@.len() == a0.edges@.len() + 1);
        assert(b.edges@[dummy_edge.0 as int].props == a0.edges@[edge.0 as int].props);
        assert(b.edge_label_lists() == a0.edge_label_lists().push(Seq::empty()));
        assert(b.graph_of() == a0.graph_of());
        assert(b.layer_of() == a0.layer_of());
        assert(b.layer_lists() == a0.layer_lists());
        assert(b.layerless_lists() == a0.layerless_lists());
        assert(b.nodes@.len() == a0.nodes@.len());
        assert(b.graphs == a0.graphs);
        assert(b.labels == a0.labels);
    }
    dummy_edge
}


/// `b` is `a` with some edges split by long-edge dummies that were added
/// to layer `l` of graph `g`: the old nodes, their ports and the ports'
/// outgoing edges are as they were, new nodes lie in that layer, new
/// ports belong to new nodes, old edges keep their sources, new edges
/// start at new ports, and the layers only grew at the end of layer `l`.
pub open spec fn grown(a: &LGraphArena, b: &LGraphArena, g: int, l: int) -> bool {
    &&& b.wf()
    &&& a.nodes@.len() <= b.nodes@.len()
    &&& forall|x: int|
        0 <= x < a.nodes@.len() ==> (#[trigger] b.nodes@[x]) == (LNode { ports: b.nodes@[x].ports, ..a.nodes@[x] })
    &&& forall|x: int| 0 <= x < a.nodes@.len() ==> #[trigger] b.port_lists()[x] == a.port_lists()[x]
    &&& forall|x: int|
        a.nodes@.len() <= x < b.nodes@.len() ==> #[trigger] b.graph_of()[x] == g && b.layer_of()[x] == Some(l as usize)
    &&& forall|x: int| a.nodes@.len() <= x < b.nodes@.len() ==> (#[trigger] b.nodes@[x]).node_type == NodeType::LongEdge
    &&& a.ports@.len() <= b.ports@.len()
    &&& forall|p: int| 0 <= p < a.ports@.len() ==> #[trigger] b.owners()[p] == a.owners()[p] && b.out_lists()[p] == a.out_lists()[p]
    &&& forall|p: int| a.ports@.len() <= p < b.ports@.len() ==> (#[trigger] b.owners()[p] matches Some(x) && a.nodes@.len() <= x)
    &&& a.edges@.len() <= b.edges@.len()
    &&& forall|e: int| 0 <= e < a.edges@.len() ==> #[trigger] b.sources()[e] == a.sources()[e]
    &&& forall|e: int| a.edges@.len() <= e < b.edges@.len() ==> (#[trigger] b.sources()[e] matches Some(p) && a.ports@.len() <= p)
    &&& b.graphs@.len() == a.graphs@.len()
    &&& b.layerless_lists() == a.layerless_lists()
    &&& forall|h: int| 0 <= h < a.graphs@.len() ==> #[trigger] b.layer_lists()[h].len() == a.layer_lists()[h].len()
    &&& forall|h: int, k: int|
        0 <= h < a.graphs@.len() && 0 <= k < a.layer_lists()[h].len() && !(h == g && k == l) ==> #[trigger] b.layer_lists()[h][k]
            == a.layer_lists()[h][k]
    &&& a.layer_lists()[g][l].len() <= b.layer_lists()[g][l].len()
    &&& b.layer_lists()[g][l].take(a.layer_lists()[g][l].len() as int) == a.layer_lists()[g][l]
    &&& b.labels == a.labels
}

/// Growing twice is growing.
pub proof fn lemma_grown_trans(a: &LGraphArena, b: &LGraphArena, c: &LGraphArena, g: int, l: int)
    requires
        grown(a, b, g, l),
        grown(b, c, g, l),
        0 <= g < a.graphs@.len(),
        0 <= l < a.layer_lists()[g].len(),
    ensures
        grown(a, c, g, l),
{
    assert forall|x: int| 0 <= x < a.nodes@.len() implies (#[trigger] c.nodes@[x]) == (LNode { ports: c.nodes@[x].ports, ..a.nodes@[x] }) by {
        assert(c.nodes@[x] == (LNode { ports: c.nodes@[x].ports, ..b.nodes@[x] }));
        assert(b.nodes@[x] == (LNode { ports: b.nodes@[x].ports, ..a.nodes@[x] }));
    }
    assert forall|x: int| 0 <= x < a.nodes@.len() implies #[trigger] c.port_lists()[x] == a.port_lists()[x] by {
        assert(c.port_lists()[x] == b.port_lists()[x]);
    }
    assert forall|x: int| a.nodes@.len() <= x < c.nodes@.len() implies #[trigger] c.graph_of()[x] == g && c.layer_of()[x] == Some(l as usize) by {
        if x < b.nodes@.len() {
            assert(c.nodes@[x] == (LNode { ports: c.nodes@[x].ports, ..b.nodes@[x] }));
            assert(a.nodes@.len() <= x < b.nodes@.len());
            assert(b.graph_of()[x] == g);
            assert(b.layer_of()[x] == Some(l as usize));
            assert(c.graph_of()[x] == b.graph_of()[x]);
            assert(c.layer_of()[x] == b.layer_of()[x]);
        }
    }
    assert forall|x: int| a.nodes@.len() <= x < c.nodes@.len() implies (#[trigger] c.nodes@[x]).node_type == NodeType::LongEdge by {
        if x < b.nodes@.len() {
            assert(c.nodes@[x] == (LNode { ports: c.nodes@[x].ports, ..b.nodes@[x] }));
            assert(b.nodes@[x].node_type == NodeType::LongEdge);
        }
    }
    assert forall|p: int| 0 <= p < a.ports@.len() implies #[trigger] c.owners()[p] == a.owners()[p] && c.out_lists()[p] == a.out_lists()[p] by {
        assert(c.owners()[p] == b.owners()[p] && c.out_lists()[p] == b.out_lists()[p]);
    }
    assert forall|p: int| a.ports@.len() <= p < c.ports@.len() implies (#[trigger] c.owners()[p] matches Some(x) && a.nodes@.len() <= x) by {
        if p < b.ports@.len() {
            assert(c.owners()[p] == b.owners()[p]);
        }
    }
    assert forall|e: int| 0 <= e < a.edges@.len() implies #[trigger] c.sources()[e] == a.sources()[e] by {
        assert(c.sources()[e] == b.sources()[e]);
    }
    assert forall|e: int| a.edges@.len() <= e < c.edges@.len() implies (#[trigger] c.sources()[e] matches Some(p) && a.ports@.len() <= p) by {
        if e < b.edges@.len() {
            assert(c.sources()[e] == b.sources()[e]);
        }
    }
    assert forall|h: int| 0 <= h < a.graphs@.len() implies #[trigger] c.layer_lists()[h].len() == a.layer_lists()[h].len() by {
        assert(c.layer_lists()[h].len() == b.layer_lists()[h].len());
    }
    assert forall|h: int, k: int|
        0 <= h < a.graphs@.len() && 0 <= k < a.layer_lists()[h].len() && !(h == g && k == l) implies #[trigger] c.layer_lists()[h][k]
            == a.layer_lists()[h][k] by {
        assert(b.layer_lists()[h].len() == a.layer_lists()[h].len());
        assert(c.layer_lists()[h][k] == b.layer_lists()[h][k]);
    }
    let la = a.layer_lists()[g][l];
    let lb = b.layer_lists()[g][l];
    let lc = c.layer_lists()[g][l];
    assert(b.layer_lists()[g].len() == a.layer_lists()[g].len());
    assert(lc.take(la.len() as int) =~= lc.take(lb.len() as int).take(la.len() as int));
}


/// Edge `e` starts at a node in a layer of graph `g`.
pub open spec fn from_placed(a: &LGraphArena, g: int, e: usize) -> bool {
    source_node(a, e) is Some && placed(a, g, source_node(a, e)->0 as int)
}

/// The layer of the source node of edge `e`.
pub open spec fn source_layer_of(a: &LGraphArena, e: usize) -> int {
    a.layer_of()[source_node(a, e)->0 as int]->0 as int
}

/// The layer of the target node of edge `e`.
pub open spec fn target_layer_of(a: &LGraphArena, e: usize) -> int {
    a.layer_of()[target_node(a, e)->0 as int]->0 as int
}

/// Every edge from a node in a layer of graph `g` ends at a node in a
/// layer.
pub open spec fn targets_layered(a: &LGraphArena, g: int) -> bool {
    forall|e: usize|
        e < a.edges@.len() && #[trigger] from_placed(a, g, e) ==> target_node(a, e) is Some && a.layer_of()[target_node(
            a,
            e,
        )->0 as int] is Some
}

/// Every edge from a node in a layer of graph `g` ends at a node in the
/// same or a later layer of `g`.
pub open spec fn forward(a: &LGraphArena, g: int) -> bool {
    forall|e: usize|
        e < a.edges@.len() && #[trigger] from_placed(a, g, e) ==> target_node(a, e) is Some && placed(
            a,
            g,
            target_node(a, e)->0 as int,
        ) && target_layer_of(a, e) >= source_layer_of(a, e)
}

/// Edge `e`, where it starts at a node in a layer of graph `g`, ends at a
/// node in the same or the next layer.
pub open spec fn proper_edge(a: &LGraphArena, g: int, e: usize) -> bool {
    from_placed(a, g, e) ==> target_node(a, e) is Some && a.layer_of()[target_node(a, e)->0 as int] is Some && (
    target_layer_of(a, e) == source_layer_of(a, e) || target_layer_of(a, e) == source_layer_of(a, e) + 1)
}

/// No node in a layer of graph `g` is a long-edge or a label dummy.
pub open spec fn plain_layers(a: &LGraphArena, g: int) -> bool {
    forall|x: int|
        0 <= x < a.nodes@.len() && #[trigger] placed(a, g, x) ==> a.nodes@[x].node_type != NodeType::LongEdge
            && a.nodes@[x].node_type != NodeType::Label
}

/// Node `d` of `b` was added since `a`, lies in layer `l` and records `s`
/// and `t` as the real ends of its long edge.
pub open spec fn chain_dummy(a: &LGraphArena, b: &LGraphArena, d: int, l: int, s: Option<LPortId>, t: Option<LPortId>) -> bool {
    &&& a.nodes@.len() <= d < b.nodes@.len()
    &&& b.layer_of()[d] == Some(l as usize)
    &&& b.nodes@[d].props.long_edge_source == s
    &&& b.nodes@[d].props.long_edge_target == t
}

/// Edge `f` of `b`, added since `a`, leads from a dummy either to the real
/// target the dummy records or to another dummy added since `a`, in the
/// next layer, recording the same real ends.
pub open spec fn chain_link(a: &LGraphArena, b: &LGraphArena, f: usize) -> bool {
    let d0 = source_node(b, f)->0 as int;
    let p = b.nodes@[d0].props;
    ||| b.edges@[f as int].target == p.long_edge_target
    ||| target_node(b, f) is Some && chain_dummy(
        a,
        b,
        target_node(b, f)->0 as int,
        b.layer_of()[d0]->0 + 1,
        p.long_edge_source,
        p.long_edge_target,
    )
}

/// Where the edges of `a` from layers of `g` run forward and no node in
/// those layers is a dummy: every such edge of `a` either still has its
/// target or leads to a dummy in the layer after its source that records
/// the edge's source and target ports, and every edge added since `a` is
/// a link of such a chain.
pub open spec fn chained(a: &LGraphArena, b: &LGraphArena, g: int) -> bool {
    forward(a, g) && plain_layers(a, g) ==> {
        &&& forall|e: usize|
            e < a.edges@.len() && #[trigger] from_placed(a, g, e) ==> (b.targets()[e as int] == a.targets()[e as int] || (
            target_node(b, e) is Some && chain_dummy(
                a,
                b,
                target_node(b, e)->0 as int,
                source_layer_of(a, e) + 1,
                a.edges@[e as int].source,
                a.edges@[e as int].target,
            )))
        &&& forall|f: usize| a.edges@.len() <= f < b.edges@.len() ==> #[trigger] chain_link(a, b, f)
    }
}

/// Nothing split yet leaves nothing to chain.
pub proof fn lemma_chained_refl(a: &LGraphArena, g: int)
    ensures
        chained(a, a, g),
{
}

/// Port ends with the same index are the same.
pub proof fn lemma_port_index_injective(x: Option<LPortId>, y: Option<LPortId>)
    requires
        port_index(x) == port_index(y),
    ensures
        x == y,
{
    match (x, y) {
        (Some(p), Some(q)) => {
            assert(p == LPortId(p.0));
            assert(q == LPortId(q.0));
        },
        _ => {},
    }
}

/// An old edge whose target stayed keeps its ends, and so whether it is
/// proper.
pub proof fn lemma_old_edge_kept(a: &LGraphArena, b: &LGraphArena, g: int, l: int, e: usize)
    requires
        a.wf(),
        grown(a, b, g, l),
        e < a.edges@.len(),
        b.targets()[e as int] == a.targets()[e as int],
    ensures
        source_node(b, e) == source_node(a, e),
        target_node(b, e) == target_node(a, e),
        from_placed(b, g, e) == from_placed(a, g, e),
        source_node(a, e) is Some ==> source_layer_of(b, e) == source_layer_of(a, e),
        target_node(a, e) is Some ==> target_layer_of(b, e) == target_layer_of(a, e) && b.layer_of()[target_node(a, e)->0 as int]
            == a.layer_of()[target_node(a, e)->0 as int] && b.graph_of()[target_node(a, e)->0 as int] == a.graph_of()[target_node(
            a,
            e,
        )->0 as int],
        proper_edge(b, g, e) == proper_edge(a, g, e),
{
    if let Some(p) = a.sources()[e as int] {
        assert(p < a.ports@.len());
        assert(b.owners()[p as int] == a.owners()[p as int]);
        if let Some(x) = a.owners()[p as int] {
            assert(x < a.nodes@.len());
            assert(b.nodes@[x as int] == (LNode { ports: b.nodes@[x as int].ports, ..a.nodes@[x as int] }));
        }
    }
    if let Some(q) = a.targets()[e as int] {
        assert(q < a.ports@.len());
        assert(b.owners()[q as int] == a.owners()[q as int]);
        if let Some(y) = a.owners()[q as int] {
            assert(y < a.nodes@.len());
            assert(b.nodes@[y as int] == (LNode { ports: b.nodes@[y as int].ports, ..a.nodes@[y as int] }));
        }
    }
}


/// Splits `edge`, which starts in layer `next_layer - 1` of `graph` and
/// ends in neither that layer nor the next, by a new long-edge dummy in
/// layer `next_layer`.
fn split_long_edge(arena: &mut LGraphArena, Ghost(orig): Ghost<LGraphArena>, graph: LGraphId, next_layer: usize, edge: LEdgeId)
    requires
        orig.wf(),
        grown_layers(&orig, old(arena), graph.0 as int),
        chained(&orig, old(arena), graph.0 as int),
        old(arena).wf(),
        graph.0 < old(arena).graphs@.len(),
        1 <= next_layer < old(arena).layer_lists()[graph.0 as int].len(),
        edge.0 < old(arena).edges@.len(),
        from_placed(old(arena), graph.0 as int, edge.0),
        source_layer_of(old(arena), edge.0) == next_layer - 1,
        targets_layered(old(arena), graph.0 as int),
        target_layer_of(old(arena), edge.0) != next_layer - 1,
        target_layer_of(old(arena), edge.0) != next_layer,
    ensures
        grown(old(arena), final(arena), graph.0 as int, next_layer as int),
        forall|f: int|
            0 <= f < old(arena).edges@.len() && f != edge.0 ==> #[trigger] final(arena).targets()[f] == old(arena).targets()[f],
        proper_edge(final(arena), graph.0 as int, edge.0),
        targets_layered(final(arena), graph.0 as int),
        forward(old(arena), graph.0 as int) ==> forward(final(arena), graph.0 as int),
        grown_layers(&orig, final(arena), graph.0 as int),
        chained(&orig, final(arena), graph.0 as int),
{
    let ghost a0 = *arena;
    let ghost g = graph.0 as int;
    let ghost l = next_layer as int;
    let ghost e = edge.0;
    proof {
        assert(target_node(&a0, e) is Some);
    }
    let dummy = create_dummy_node(arena, graph, next_layer, edge);
    let ghost a1 = *arena;
    proof {
        assert(a1.sources() =~= a0.sources());
        assert(a1.targets() =~= a0.targets());
        assert(a1.owners() =~= a0.owners());
        assert(source_node(&a1, e) == source_node(&a0, e));
        assert(target_node(&a1, e) == target_node(&a0, e));
    }
    let new_edge = split_edge(arena, edge, dummy);
    let ghost a2 = *arena;
    proof {
        let d = dummy.0 as int;
        let pn = a0.ports@.len() as int;
        let en = a0.edges@.len() as int;
        let t = a0.targets()[e as int]->0;
        let sx = source_node(&a0, e)->0 as int;
        let ty = target_node(&a0, e)->0 as int;
        assert(d == a0.nodes@.len());
        // the old nodes are untouched
        assert forall|x: int| 0 <= x < a0.nodes@.len() implies (#[trigger] a2.nodes@[x]) == (LNode {
            ports: a2.nodes@[x].ports,
            ..a0.nodes@[x]
        }) by {
            assert(a1.nodes@[x] == a0.nodes@[x]);
        }
        assert forall|x: int| 0 <= x < a0.nodes@.len() implies #[trigger] a2.port_lists()[x] == a0.port_lists()[x] by {
            assert(a1.port_lists()[x] == a0.port_lists()[x]);
        }
        assert(a2.graph_of()[d] == g && a2.layer_of()[d] == Some(next_layer));
        assert(a2.nodes@[d].node_type == NodeType::LongEdge);
        assert forall|p: int| 0 <= p < a0.ports@.len() implies #[trigger] a2.owners()[p] == a0.owners()[p] && a2.out_lists()[p]
            == a0.out_lists()[p] by {
            assert(a1.out_lists() =~= a0.out_lists());
        }
        assert forall|p: int| a0.ports@.len() <= p < a2.ports@.len() implies (#[trigger] a2.owners()[p] matches Some(x) && a0.nodes@.len()
            <= x) by {
        }
        assert forall|f: int| 0 <= f < a0.edges@.len() implies #[trigger] a2.sources()[f] == a0.sources()[f] by {
        }
        assert forall|f: int| a0.edges@.len() <= f < a2.edges@.len() implies (#[trigger] a2.sources()[f] matches Some(p) && a0.ports@.len()
            <= p) by {
        }
        let ll0 = a0.layer_lists()[g];
        assert forall|h: int| 0 <= h < a0.graphs@.len() implies #[trigger] a2.layer_lists()[h].len() == a0.layer_lists()[h].len() by {
        }
        assert forall|h: int, k: int|
            0 <= h < a0.graphs@.len() && 0 <= k < a0.layer_lists()[h].len() && !(h == g && k == l) implies #[trigger] a2.layer_lists()[h][k]
                == a0.layer_lists()[h][k] by {
        }
        assert(a2.layer_lists()[g][l].take(ll0[l].len() as int) =~= ll0[l]);
        assert(grown(&a0, &a2, g, l));
        // the ends of the split edge and of the new edge
        assert(a2.targets()[e as int] == Some(pn as usize));
        assert(a2.owners()[pn] == Some(dummy.0));
        assert(target_node(&a2, e) == Some(dummy.0));
        assert(source_node(&a2, e) == source_node(&a0, e));
        assert(a2.nodes@[sx] == (LNode { ports: a2.nodes@[sx].ports, ..a0.nodes@[sx] }));
        assert(a2.layer_of()[sx] == a0.layer_of()[sx] && a2.graph_of()[sx] == a0.graph_of()[sx]);
        assert(proper_edge(&a2, g, e));
        assert(a2.sources()[en] == Some((pn + 1) as usize));
        assert(a2.owners()[pn + 1] == Some(dummy.0));
        assert(source_node(&a2, new_edge.0) == Some(dummy.0));
        assert(a2.targets()[en] == Some(t));
        assert(a2.owners()[t as int] == a0.owners()[t as int]);
        assert(target_node(&a2, new_edge.0) == target_node(&a0, e));
        assert(a2.nodes@[ty] == (LNode { ports: a2.nodes@[ty].ports, ..a0.nodes@[ty] }));
        assert(a2.layer_of()[ty] == a0.layer_of()[ty] && a2.graph_of()[ty] == a0.graph_of()[ty]);
        assert forall|f: usize| f < a2.edges@.len() && #[trigger] from_placed(&a2, g, f) implies target_node(&a2, f) is Some
            && a2.layer_of()[target_node(&a2, f)->0 as int] is Some by {
            if f < a0.edges@.len() && f != e {
                lemma_old_edge_kept(&a0, &a2, g, l, f);
                assert(from_placed(&a0, g, f));
            }
        }
        if forward(&a0, g) {
            assert(from_placed(&a0, g, e));
            assert forall|f: usize| f < a2.edges@.len() && #[trigger] from_placed(&a2, g, f) implies target_node(&a2, f) is Some
                && placed(&a2, g, target_node(&a2, f)->0 as int) && target_layer_of(&a2, f) >= source_layer_of(&a2, f) by {
                if f < a0.edges@.len() && f != e {
                    lemma_old_edge_kept(&a0, &a2, g, l, f);
                    assert(from_placed(&a0, g, f));
                }
            }
        }
    }
    proof {
        let a2 = *arena;
        let d = dummy.0 as int;
        let r = new_edge.0;
        lemma_grown_layers(&a0, &a2, g, l);
        lemma_grown_layers_trans(&orig, &a0, &a2, g);
        if forward(&orig, g) && plain_layers(&orig, g) {
            assert(orig.nodes@.len() <= d);
            let sx = source_node(&a0, e)->0 as int;
            let ty = target_node(&a0, e)->0 as int;
            assert(a1.nodes@[sx] == a0.nodes@[sx]);
            assert(a1.edges@[e as int] == a0.edges@[e as int]);
            lemma_port_index_injective(a2.edges@[r as int].target, a0.edges@[e as int].target);
            if e < orig.edges@.len() {
                assert(a0.sources()[e as int] == orig.sources()[e as int]);
                lemma_port_index_injective(a0.edges@[e as int].source, orig.edges@[e as int].source);
                assert(sx < orig.nodes@.len());
                assert(a0.nodes@[sx] == (LNode { ports: a0.nodes@[sx].ports, ..orig.nodes@[sx] }));
                assert(placed(&orig, g, sx));
                assert(from_placed(&orig, g, e));
                assert(a0.targets()[e as int] == orig.targets()[e as int]) by {
                    if a0.targets()[e as int] != orig.targets()[e as int] {
                        assert(target_layer_of(&a0, e) == next_layer);
                    }
                }
                lemma_port_index_injective(a0.edges@[e as int].target, orig.edges@[e as int].target);
                assert(target_node(&a0, e) == target_node(&orig, e));
                assert(ty < orig.nodes@.len());
                assert(placed(&orig, g, ty));
                assert(a0.nodes@[ty] == (LNode { ports: a0.nodes@[ty].ports, ..orig.nodes@[ty] }));
                assert(a1.nodes@[ty] == a0.nodes@[ty]);
                assert(source_layer_of(&orig, e) == next_layer - 1);
            } else {
                assert(chain_link(&orig, &a0, e));
                assert(a0.sources()[e as int] matches Some(p) && orig.ports@.len() <= p);
                assert(orig.nodes@.len() <= sx);
                assert(a0.nodes@[sx].node_type == NodeType::LongEdge);
                assert(a0.edges@[e as int].target == a0.nodes@[sx].props.long_edge_target) by {
                    if a0.edges@[e as int].target != a0.nodes@[sx].props.long_edge_target {
                        assert(target_layer_of(&a0, e) == next_layer);
                    }
                }
            }
            assert forall|e2: usize| e2 < orig.edges@.len() && #[trigger] from_placed(&orig, g, e2) implies (a2.targets()[e2 as int]
                == orig.targets()[e2 as int] || (target_node(&a2, e2) is Some && chain_dummy(
                &orig,
                &a2,
                target_node(&a2, e2)->0 as int,
                source_layer_of(&orig, e2) + 1,
                orig.edges@[e2 as int].source,
                orig.edges@[e2 as int].target,
            ))) by {
                if e2 != e && a0.targets()[e2 as int] != orig.targets()[e2 as int] {
                    assert(a2.targets()[e2 as int] == a0.targets()[e2 as int]);
                    let td = target_node(&a0, e2)->0 as int;
                    assert(a0.targets()[e2 as int] matches Some(p) && p < a0.ports@.len());
                    assert(target_node(&a2, e2) == target_node(&a0, e2));
                    assert(a2.nodes@[td] == (LNode { ports: a2.nodes@[td].ports, ..a0.nodes@[td] }));
                    assert(a2.layer_of()[td] == a0.layer_of()[td]);
                }
            }
            assert forall|f2: usize| orig.edges@.len() <= f2 < a2.edges@.len() implies #[trigger] chain_link(&orig, &a2, f2) by {
                if f2 == r {
                    assert(source_node(&a2, r) == Some(dummy.0));
                } else if f2 == e {
                    assert(chain_link(&orig, &a0, e));
                    assert(source_node(&a2, e) == source_node(&a0, e));
                    assert(a2.nodes@[sx] == (LNode { ports: a2.nodes@[sx].ports, ..a0.nodes@[sx] }));
                    assert(a2.layer_of()[sx] == a0.layer_of()[sx]);
                    assert(target_node(&a2, e) == Some(dummy.0));
                } else {
                    assert(chain_link(&orig, &a0, f2));
                    assert(a2.targets()[f2 as int] == a0.targets()[f2 as int]);
                    assert(a2.sources()[f2 as int] == a0.sources()[f2 as int]);
                    lemma_port_index_injective(a2.edges@[f2 as int].target, a0.edges@[f2 as int].target);
                    let d0 = source_node(&a0, f2)->0 as int;
                    assert(a0.sources()[f2 as int] matches Some(p) && p < a0.ports@.len());
                    assert(source_node(&a2, f2) == source_node(&a0, f2));
                    assert(a2.nodes@[d0] == (LNode { ports: a2.nodes@[d0].ports, ..a0.nodes@[d0] }));
                    assert(a2.layer_of()[d0] == a0.layer_of()[d0]);
                    if a0.edges@[f2 as int].target != a0.nodes@[d0].props.long_edge_target {
                        let td = target_node(&a0, f2)->0 as int;
                        assert(a0.targets()[f2 as int] matches Some(p) && p < a0.ports@.len());
                        assert(target_node(&a2, f2) == target_node(&a0, f2));
                        assert(a2.nodes@[td] == (LNode { ports: a2.nodes@[td].ports, ..a0.nodes@[td] }));
                        assert(a2.layer_of()[td] == a0.layer_of()[td]);
                    }
                }
            }
        }
    }
}


/// Nothing split yet is growing too.
pub proof fn lemma_grown_refl(a: &LGraphArena, g: int, l: int)
    requires
        a.wf(),
        0 <= g < a.graphs@.len(),
        0 <= l < a.layer_lists()[g].len(),
    ensures
        grown(a, a, g, l),
{
    assert(a.layer_lists()[g][l].take(a.layer_lists()[g][l].len() as int) =~= a.layer_lists()[g][l]);
    assert forall|x: int| 0 <= x < a.nodes@.len() implies (#[trigger] a.nodes@[x]) == (LNode { ports: a.nodes@[x].ports, ..a.nodes@[x] }) by {
    }
}

/// Splits each outgoing edge of `port`, a port of a node in layer `li` of
/// `graph`, that ends neither in that layer nor in the next.
fn split_port_edges(arena: &mut LGraphArena, Ghost(orig): Ghost<LGraphArena>, graph: LGraphId, li: usize, port: LPortId)
    requires
        orig.wf(),
        grown_layers(&orig, old(arena), graph.0 as int),
        chained(&orig, old(arena), graph.0 as int),
        old(arena).wf(),
        graph.0 < old(arena).graphs@.len(),
        li + 1 < old(arena).layer_lists()[graph.0 as int].len(),
        li < usize::MAX,
        port.0 < old(arena).ports@.len(),
        old(arena).owners()[port.0 as int] is Some,
        placed(old(arena), graph.0 as int, old(arena).owners()[port.0 as int]->0 as int),
        old(arena).layer_of()[old(arena).owners()[port.0 as int]->0 as int] == Some(li),
        targets_layered(old(arena), graph.0 as int),
    ensures
        grown(old(arena), final(arena), graph.0 as int, li + 1),
        targets_layered(final(arena), graph.0 as int),
        forward(old(arena), graph.0 as int) ==> forward(final(arena), graph.0 as int),
        forall|f: int|
            0 <= f < old(arena).edges@.len() && old(arena).sources()[f] != Some(port.0) ==> #[trigger] final(arena).targets()[f]
                == old(arena).targets()[f],
        forall|f: usize|
            f < final(arena).edges@.len() && #[trigger] final(arena).sources()[f as int] == Some(port.0) ==> proper_edge(
                final(arena),
                graph.0 as int,
                f,
            ),
        forall|f: usize|
            f < old(arena).edges@.len() && #[trigger] proper_edge(old(arena), graph.0 as int, f) ==> final(arena).targets()[f as int]
                == old(arena).targets()[f as int],
        grown_layers(&orig, final(arena), graph.0 as int),
        chained(&orig, final(arena), graph.0 as int),
{
    let ghost a0 = *arena;
    let ghost g = graph.0 as int;
    let ghost l = li as int + 1;
    let ghost es = a0.out_lists()[port.0 as int];
    let edges = copy_vec(&arena.ports[port.0].outgoing_edges);
    proof {
        assert(edges@.map_values(|e: LEdgeId| e.0) == es);
        lemma_grown_refl(&a0, g, l);
        assert(es.no_duplicates());
    }
    let mut i: usize = 0;
    while i < edges.len()
        invariant
            a0.wf(),
            0 <= g < a0.graphs@.len(),
            g == graph.0,
            l == li + 1,
            li < usize::MAX,
            l < a0.layer_lists()[g].len(),
            port.0 < a0.ports@.len(),
            a0.owners()[port.0 as int] is Some,
            placed(&a0, g, a0.owners()[port.0 as int]->0 as int),
            a0.layer_of()[a0.owners()[port.0 as int]->0 as int] == Some(li),
            es == a0.out_lists()[port.0 as int],
            es.no_duplicates(),
            edges@.map_values(|e: LEdgeId| e.0) == es,
            i <= edges@.len(),
            grown(&a0, &*arena, g, l),
            targets_layered(&*arena, g),
            forward(&a0, g) ==> forward(&*arena, g),
            forall|f: int|
                0 <= f < a0.edges@.len() && a0.sources()[f] != Some(port.0) ==> #[trigger] arena.targets()[f] == a0.targets()[f],
            forall|k: int| 0 <= k < es.len() && k >= i ==> #[trigger] arena.targets()[es[k] as int] == a0.targets()[es[k] as int],
            forall|k: int| 0 <= k < i ==> proper_edge(&*arena, g, #[trigger] es[k]),
            forall|f: usize|
                f < a0.edges@.len() && #[trigger] proper_edge(&a0, g, f) ==> arena.targets()[f as int] == a0.targets()[f as int],
            orig.wf(),
            grown_layers(&orig, &*arena, g),
            chained(&orig, &*arena, g),
        decreases edges@.len() - i,
    {
        let edge = edges[i];
        let ghost cur = *arena;
        proof {
            assert(es[i as int] == edge.0);
            assert(edge.0 < a0.edges@.len() && a0.sources()[edge.0 as int] == Some(port.0));
            assert(cur.sources()[edge.0 as int] == Some(port.0));
            assert(cur.owners()[port.0 as int] == a0.owners()[port.0 as int]);
            let x = a0.owners()[port.0 as int]->0 as int;
            assert(cur.nodes@[x] == (LNode { ports: cur.nodes@[x].ports, ..a0.nodes@[x] }));
            assert(from_placed(&cur, g, edge.0));
            assert(source_layer_of(&cur, edge.0) == li);
        }
        let target_node = arena.edge_target_node(edge).unwrap();
        let target_layer = arena.nodes[target_node.0].layer.unwrap();
        if target_layer != li && target_layer != li + 1 {
            proof {
                assert(cur.targets()[edge.0 as int] == a0.targets()[edge.0 as int]);
                lemma_old_edge_kept(&a0, &cur, g, l, edge.0);
                assert(!proper_edge(&a0, g, edge.0));
            }
            split_long_edge(arena, Ghost(orig), graph, li + 1, edge);
            proof {
                lemma_grown_trans(&a0, &cur, &*arena, g, l);
            }
        }
        i += 1;
        proof {
            let nxt = *arena;
            assert(proper_edge(&nxt, g, edge.0));
            assert forall|k: int| 0 <= k < i implies proper_edge(&nxt, g, #[trigger] es[k]) by {
                if k < i - 1 {
                    assert(es[k] != edge.0);
                    if target_layer != li && target_layer != li + 1 {
                        lemma_old_edge_kept(&cur, &nxt, g, l, es[k]);
                    }
                }
            }
            assert forall|k: int| 0 <= k < es.len() && k >= i implies #[trigger] nxt.targets()[es[k] as int] == a0.targets()[es[k] as int] by {
                assert(es[k] != edge.0);
                assert(es[k] < a0.edges@.len());
            }
        }
    }
    proof {
        let b = *arena;
        assert forall|f: usize| f < b.edges@.len() && #[trigger] b.sources()[f as int] == Some(port.0) implies proper_edge(&b, g, f) by {
            if f < a0.edges@.len() {
                assert(a0.sources()[f as int] == Some(port.0));
                assert(es.contains(f));
                let k = choose|k: int| 0 <= k < es.len() && es[k] == f;
                assert(proper_edge(&b, g, es[k]));
            } else {
                assert(b.sources()[f as int] matches Some(p) && a0.ports@.len() <= p);
            }
        }
    }
}


/// `b` is `a` with some edges split by long-edge dummies that were added
/// to the layers of graph `g`: the old nodes, their ports and the ports'
/// outgoing edges are as they were, new nodes are long-edge dummies in
/// layers of `g`, new ports belong to new nodes, old edges keep their
/// sources, new edges start at new ports, and no layer was added.
pub open spec fn grown_layers(a: &LGraphArena, b: &LGraphArena, g: int) -> bool {
    &&& b.wf()
    &&& a.nodes@.len() <= b.nodes@.len()
    &&& forall|x: int|
        0 <= x < a.nodes@.len() ==> (#[trigger] b.nodes@[x]) == (LNode { ports: b.nodes@[x].ports, ..a.nodes@[x] })
    &&& forall|x: int| 0 <= x < a.nodes@.len() ==> #[trigger] b.port_lists()[x] == a.port_lists()[x]
    &&& forall|x: int| a.nodes@.len() <= x < b.nodes@.len() ==> #[trigger] b.graph_of()[x] == g && b.layer_of()[x] is Some
    &&& forall|x: int| a.nodes@.len() <= x < b.nodes@.len() ==> (#[trigger] b.nodes@[x]).node_type == NodeType::LongEdge
    &&& a.ports@.len() <= b.ports@.len()
    &&& forall|p: int| 0 <= p < a.ports@.len() ==> #[trigger] b.owners()[p] == a.owners()[p] && b.out_lists()[p] == a.out_lists()[p]
    &&& forall|p: int| a.ports@.len() <= p < b.ports@.len() ==> (#[trigger] b.owners()[p] matches Some(x) && a.nodes@.len() <= x)
    &&& a.edges@.len() <= b.edges@.len()
    &&& forall|e: int| 0 <= e < a.edges@.len() ==> #[trigger] b.sources()[e] == a.sources()[e]
    &&& forall|e: int| a.edges@.len() <= e < b.edges@.len() ==> (#[trigger] b.sources()[e] matches Some(p) && a.ports@.len() <= p)
    &&& b.graphs@.len() == a.graphs@.len()
    &&& b.layerless_lists() == a.layerless_lists()
    &&& forall|h: int| 0 <= h < a.graphs@.len() ==> #[trigger] b.layer_lists()[h].len() == a.layer_lists()[h].len()
    &&& b.labels == a.labels
}

/// Growing one layer is growing the layers.
pub proof fn lemma_grown_layers(a: &LGraphArena, b: &LGraphArena, g: int, l: int)
    requires
        grown(a, b, g, l),
    ensures
        grown_layers(a, b, g),
{
}

/// Growing the layers twice is growing them.
pub proof fn lemma_grown_layers_trans(a: &LGraphArena, b: &LGraphArena, c: &LGraphArena, g: int)
    requires
        grown_layers(a, b, g),
        grown_layers(b, c, g),
    ensures
        grown_layers(a, c, g),
{
    assert forall|x: int| 0 <= x < a.nodes@.len() implies (#[trigger] c.nodes@[x]) == (LNode { ports: c.nodes@[x].ports, ..a.nodes@[x] }) by {
        assert(c.nodes@[x] == (LNode { ports: c.nodes@[x].ports, ..b.nodes@[x] }));
        assert(b.nodes@[x] == (LNode { ports: b.nodes@[x].ports, ..a.nodes@[x] }));
    }
    assert forall|x: int| 0 <= x < a.nodes@.len() implies #[trigger] c.port_lists()[x] == a.port_lists()[x] by {
        assert(c.port_lists()[x] == b.port_lists()[x]);
    }
    assert forall|x: int| a.nodes@.len() <= x < c.nodes@.len() implies #[trigger] c.graph_of()[x] == g && c.layer_of()[x] is Some by {
        if x < b.nodes@.len() {
            assert(c.nodes@[x] == (LNode { ports: c.nodes@[x].ports, ..b.nodes@[x] }));
            assert(b.graph_of()[x] == g);
            assert(b.layer_of()[x] is Some);
            assert(c.graph_of()[x] == b.graph_of()[x]);
            assert(c.layer_of()[x] == b.layer_of()[x]);
        }
    }
    assert forall|x: int| a.nodes@.len() <= x < c.nodes@.len() implies (#[trigger] c.nodes@[x]).node_type == NodeType::LongEdge by {
        if x < b.nodes@.len() {
            assert(c.nodes@[x] == (LNode { ports: c.nodes@[x].ports, ..b.nodes@[x] }));
            assert(b.nodes@[x].node_type == NodeType::LongEdge);
        }
    }
    assert forall|p: int| 0 <= p < a.ports@.len() implies #[trigger] c.owners()[p] == a.owners()[p] && c.out_lists()[p] == a.out_lists()[p] by {
        assert(c.owners()[p] == b.owners()[p] && c.out_lists()[p] == b.out_lists()[p]);
    }
    assert forall|p: int| a.ports@.len() <= p < c.ports@.len() implies (#[trigger] c.owners()[p] matches Some(x) && a.nodes@.len() <= x) by {
        if p < b.ports@.len() {
            assert(c.owners()[p] == b.owners()[p]);
        }
    }
    assert forall|e: int| 0 <= e < a.edges@.len() implies #[trigger] c.sources()[e] == a.sources()[e] by {
        assert(c.sources()[e] == b.sources()[e]);
    }
    assert forall|e: int| a.edges@.len() <= e < c.edges@.len() implies (#[trigger] c.sources()[e] matches Some(p) && a.ports@.len() <= p) by {
        if e < b.edges@.len() {
            assert(c.sources()[e] == b.sources()[e]);
        }
    }
    assert forall|h: int| 0 <= h < a.graphs@.len() implies #[trigger] c.layer_lists()[h].len() == a.layer_lists()[h].len() by {
        assert(c.layer_lists()[h].len() == b.layer_lists()[h].len());
    }
}

/// An old edge whose target stayed keeps its ends, and so whether it is
/// proper, as the layers grow.
pub proof fn lemma_old_edge_kept_layers(a: &LGraphArena, b: &LGraphArena, g: int, e: usize)
    requires
        a.wf(),
        grown_layers(a, b, g),
        e < a.edges@.len(),
        b.targets()[e as int] == a.targets()[e as int],
    ensures
        source_node(b, e) == source_node(a, e),
        target_node(b, e) == target_node(a, e),
        from_placed(b, g, e) == from_placed(a, g, e),
        source_node(a, e) is Some ==> source_layer_of(b, e) == source_layer_of(a, e),
        target_node(a, e) is Some ==> target_layer_of(b, e) == target_layer_of(a, e),
        proper_edge(b, g, e) == proper_edge(a, g, e),
{
    if let Some(p) = a.sources()[e as int] {
        assert(p < a.ports@.len());
        assert(b.owners()[p as int] == a.owners()[p as int]);
        if let Some(x) = a.owners()[p as int] {
            assert(x < a.nodes@.len());
            assert(b.nodes@[x as int] == (LNode { ports: b.nodes@[x as int].ports, ..a.nodes@[x as int] }));
        }
    }
    if let Some(q) = a.targets()[e as int] {
        assert(q < a.ports@.len());
        assert(b.owners()[q as int] == a.owners()[q as int]);
        if let Some(y) = a.owners()[q as int] {
            assert(y < a.nodes@.len());
            assert(b.nodes@[y as int] == (LNode { ports: b.nodes@[y as int].ports, ..a.nodes@[y as int] }));
        }
    }
}


/// Splits each edge out of `node`, a node in layer `li` of `graph`, that
/// ends neither in that layer nor in the next, port by port.
fn split_node_edges(arena: &mut LGraphArena, Ghost(orig): Ghost<LGraphArena>, graph: LGraphId, li: usize, node: LNodeId)
    requires
        orig.wf(),
        grown_layers(&orig, old(arena), graph.0 as int),
        chained(&orig, old(arena), graph.0 as int),
        old(arena).wf(),
        graph.0 < old(arena).graphs@.len(),
        li + 1 < old(arena).layer_lists()[graph.0 as int].len(),
        li < usize::MAX,
        node.0 < old(arena).nodes@.len(),
        placed(old(arena), graph.0 as int, node.0 as int),
        old(arena).layer_of()[node.0 as int] == Some(li),
        targets_layered(old(arena), graph.0 as int),
    ensures
        grown(old(arena), final(arena), graph.0 as int, li + 1),
        targets_layered(final(arena), graph.0 as int),
        forward(old(arena), graph.0 as int) ==> forward(final(arena), graph.0 as int),
        forall|f: usize|
            f < old(arena).edges@.len() && source_node(old(arena), f) != Some(node.0) ==> #[trigger] final(arena).targets()[f as int]
                == old(arena).targets()[f as int],
        forall|f: usize|
            f < final(arena).edges@.len() && #[trigger] source_node(final(arena), f) == Some(node.0) ==> proper_edge(
                final(arena),
                graph.0 as int,
                f,
            ),
        forall|f: usize|
            f < old(arena).edges@.len() && #[trigger] proper_edge(old(arena), graph.0 as int, f) ==> final(arena).targets()[f as int]
                == old(arena).targets()[f as int],
        grown_layers(&orig, final(arena), graph.0 as int),
        chained(&orig, final(arena), graph.0 as int),
{
    let ghost a0 = *arena;
    let ghost g = graph.0 as int;
    let ghost l = li as int + 1;
    let ghost ps = a0.port_lists()[node.0 as int];
    let ports = copy_vec(&arena.nodes[node.0].ports);
    proof {
        assert(ports@.map_values(|p: LPortId| p.0) == ps);
        lemma_grown_refl(&a0, g, l);
        lemma_port_list(&a0, node.0);
    }
    let mut k: usize = 0;
    while k < ports.len()
        invariant
            a0.wf(),
            0 <= g < a0.graphs@.len(),
            g == graph.0,
            l == li + 1,
            li < usize::MAX,
            l < a0.layer_lists()[g].len(),
            node.0 < a0.nodes@.len(),
            placed(&a0, g, node.0 as int),
            a0.layer_of()[node.0 as int] == Some(li),
            ps == a0.port_lists()[node.0 as int],
            ps.no_duplicates(),
            forall|i: int| 0 <= i < ps.len() ==> #[trigger] ps[i] < a0.ports@.len() && a0.owners()[ps[i] as int] == Some(node.0),
            ports@.map_values(|p: LPortId| p.0) == ps,
            k <= ports@.len(),
            grown(&a0, &*arena, g, l),
            targets_layered(&*arena, g),
            forward(&a0, g) ==> forward(&*arena, g),
            forall|f: usize|
                f < a0.edges@.len() && !(a0.sources()[f as int] matches Some(p) && ps.take(k as int).contains(p)) ==> #[trigger] arena.targets()[f as int]
                    == a0.targets()[f as int],
            forall|f: usize|
                f < arena.edges@.len() && (#[trigger] arena.sources()[f as int] matches Some(p) && ps.take(k as int).contains(p))
                    ==> proper_edge(&*arena, g, f),
            forall|f: usize|
                f < a0.edges@.len() && #[trigger] proper_edge(&a0, g, f) ==> arena.targets()[f as int] == a0.targets()[f as int],
            orig.wf(),
            grown_layers(&orig, &*arena, g),
            chained(&orig, &*arena, g),
        decreases ports@.len() - k,
    {
        let port = ports[k];
        let ghost cur = *arena;
        proof {
            assert(ps[k as int] == port.0);
            assert(cur.owners()[port.0 as int] == a0.owners()[port.0 as int]);
            assert(cur.nodes@[node.0 as int] == (LNode { ports: cur.nodes@[node.0 as int].ports, ..a0.nodes@[node.0 as int] }));
        }
        split_port_edges(arena, Ghost(orig), graph, li, port);
        k += 1;
        proof {
            let nxt = *arena;
            lemma_grown_trans(&a0, &cur, &nxt, g, l);
            let now = ps.take(k as int);
            let before = ps.take(k - 1);
            assert(now =~= before.push(port.0));
            assert forall|p: usize| now.contains(p) == (before.contains(p) || p == port.0) by {
                if now.contains(p) {
                    let t = choose|t: int| 0 <= t < now.len() && now[t] == p;
                    if t < k - 1 {
                        assert(before[t] == p);
                    }
                }
                if before.contains(p) {
                    let t = choose|t: int| 0 <= t < before.len() && before[t] == p;
                    assert(now[t] == p);
                }
                if p == port.0 {
                    assert(now[k - 1] == p);
                }
            }
            assert forall|f: usize|
                f < a0.edges@.len() && !(a0.sources()[f as int] matches Some(p) && now.contains(p)) implies #[trigger] nxt.targets()[f as int]
                    == a0.targets()[f as int] by {
                assert(cur.sources()[f as int] == a0.sources()[f as int]);
            }
            assert forall|f: usize| f < a0.edges@.len() && #[trigger] proper_edge(&a0, g, f) implies nxt.targets()[f as int]
                == a0.targets()[f as int] by {
                assert(cur.targets()[f as int] == a0.targets()[f as int]);
                lemma_old_edge_kept(&a0, &cur, g, l, f);
                assert(proper_edge(&cur, g, f));
            }
            assert forall|f: usize|
                f < nxt.edges@.len() && (#[trigger] nxt.sources()[f as int] matches Some(p) && now.contains(p)) implies proper_edge(&nxt, g, f) by {
                let p = nxt.sources()[f as int]->0;
                if p != port.0 {
                    assert(before.contains(p));
                    if f < cur.edges@.len() {
                        assert(cur.sources()[f as int] == nxt.sources()[f as int]);
                        assert(cur.sources()[f as int] != Some(port.0));
                        assert(nxt.targets()[f as int] == cur.targets()[f as int]);
                        lemma_old_edge_kept(&cur, &nxt, g, l, f);
                    } else {
                        assert(nxt.sources()[f as int] matches Some(q) && cur.ports@.len() <= q);
                        assert(p < a0.ports@.len());
                    }
                }
            }
        }
    }
    proof {
        let b = *arena;
        assert(ps.take(ports@.len() as int) =~= ps);
        assert forall|f: usize|
            f < a0.edges@.len() && source_node(&a0, f) != Some(node.0) implies #[trigger] b.targets()[f as int] == a0.targets()[f as int] by {
            if let Some(p) = a0.sources()[f as int] {
                if ps.contains(p) {
                    let t = choose|t: int| 0 <= t < ps.len() && ps[t] == p;
                    assert(a0.owners()[ps[t] as int] == Some(node.0));
                }
            }
        }
        assert forall|f: usize| f < b.edges@.len() && #[trigger] source_node(&b, f) == Some(node.0) implies proper_edge(&b, g, f) by {
            let p = b.sources()[f as int]->0;
            assert(b.owners()[p as int] == Some(node.0));
            if p < a0.ports@.len() {
                assert(a0.owners()[p as int] == Some(node.0));
                assert(a0.port_lists()[node.0 as int].contains(p));
            } else {
                assert(b.owners()[p as int] matches Some(x) && a0.nodes@.len() <= x);
            }
        }
    }
}


/// Nothing split yet is growing the layers too.
pub proof fn lemma_grown_layers_refl(a: &LGraphArena, g: int)
    requires
        a.wf(),
    ensures
        grown_layers(a, a, g),
{
    assert forall|x: int| 0 <= x < a.nodes@.len() implies (#[trigger] a.nodes@[x]) == (LNode { ports: a.nodes@[x].ports, ..a.nodes@[x] }) by {
    }
}

/// A node in a layer of graph `g` lies in one of its layers.
pub proof fn lemma_layer_bound(a: &LGraphArena, g: int, x: int)
    requires
        a.wf(),
        0 <= g < a.graphs@.len(),
        0 <= x < a.nodes@.len(),
        placed(a, g, x),
    ensures
        a.layer_of()[x]->0 < a.layer_lists()[g].len(),
        a.layer_lists()[g][a.layer_of()[x]->0 as int].contains(x as usize),
{
    assert(in_sync(layer_ends(a.graph_of(), a.layer_of(), g), a.layer_lists()[g]));
    assert(layer_ends(a.graph_of(), a.layer_of(), g)[x] == a.layer_of()[x]);
}

/// Splits, layer by layer, every edge that starts at a node in a layer of
/// `graph` other than the last and ends neither in that layer nor in the
/// next: a long-edge dummy in the next layer takes over its end, and a new
/// edge leads from the dummy to the old end. Graphs of at most two layers
/// are left as they are. Where the edges run forward and no node in the
/// layers is a dummy yet, each long edge becomes a chain: it leads to a
/// dummy in the layer after its source that records the edge's source and
/// target ports, and each new edge leads from such a dummy to the target
/// port it records or to the next dummy of the chain, one layer further,
/// recording the same ports.
pub fn long_edge_splitter(arena: &mut LGraphArena, graph: LGraphId)
    requires
        old(arena).wf(),
        graph.0 < old(arena).graphs@.len(),
        targets_layered(old(arena), graph.0 as int),
    ensures
        grown_layers(old(arena), final(arena), graph.0 as int),
        targets_layered(final(arena), graph.0 as int),
        old(arena).layer_lists()[graph.0 as int].len() <= 2 ==> *final(arena) == *old(arena),
        forall|f: usize|
            f < old(arena).edges@.len() && #[trigger] proper_edge(old(arena), graph.0 as int, f) ==> final(arena).targets()[f as int]
                == old(arena).targets()[f as int],
        forward(old(arena), graph.0 as int) ==> forward(final(arena), graph.0 as int),
        forward(old(arena), graph.0 as int) ==> forall|f: usize|
            f < final(arena).edges@.len() ==> #[trigger] proper_edge(final(arena), graph.0 as int, f),
        chained(old(arena), final(arena), graph.0 as int),
        forward(old(arena), graph.0 as int) && plain_layers(old(arena), graph.0 as int) ==> forall|e: usize|
            e < old(arena).edges@.len() && from_placed(old(arena), graph.0 as int, e) && !#[trigger] proper_edge(
                old(arena),
                graph.0 as int,
                e,
            ) ==> target_node(final(arena), e) is Some && chain_dummy(
                old(arena),
                final(arena),
                target_node(final(arena), e)->0 as int,
                source_layer_of(old(arena), e) + 1,
                old(arena).edges@[e as int].source,
                old(arena).edges@[e as int].target,
            ),
{
    let ghost a0 = *arena;
    let ghost g = graph.0 as int;
    let layer_count = arena.graphs[graph.0].layers.len();
    proof {
        assert(layer_count == a0.layer_lists()[g].len());
    }
    if layer_count <= 2 {
        proof {
            if forward(&a0, g) {
                assert forall|f: usize| f < a0.edges@.len() implies #[trigger] proper_edge(&a0, g, f) by {
                    if from_placed(&a0, g, f) {
                        let x = source_node(&a0, f)->0 as int;
                        lemma_layer_bound(&a0, g, x);
                        let y = target_node(&a0, f)->0 as int;
                        lemma_layer_bound(&a0, g, y);
                    }
                }
            }
            lemma_grown_layers_refl(&a0, g);
            lemma_chained_refl(&a0, g);
        }
        return;
    }
    proof {
        lemma_chained_refl(&a0, g);
    }
    let mut li: usize = 0;
    while li < layer_count - 1
        invariant
            a0.wf(),
            0 <= g < a0.graphs@.len(),
            g == graph.0,
            layer_count == a0.layer_lists()[g].len(),
            layer_count > 2,
            li <= layer_count - 1,
            grown_layers(&a0, &*arena, g),
            targets_layered(&*arena, g),
            forward(&a0, g) ==> forward(&*arena, g),
            forall|f: usize|
                f < a0.edges@.len() && #[trigger] proper_edge(&a0, g, f) ==> arena.targets()[f as int] == a0.targets()[f as int],
            forall|f: usize|
                f < arena.edges@.len() && #[trigger] from_placed(&*arena, g, f) && source_layer_of(&*arena, f) < li ==> proper_edge(
                    &*arena,
                    g,
                    f,
                ),
            chained(&a0, &*arena, g),
        decreases layer_count - 1 - li,
    {
        let ghost start = *arena;
        proof {
            assert(start.layer_lists()[g].len() == start.graphs@[g].layers@.len());
        }
        let nodes = copy_vec(&arena.graphs[graph.0].layers[li].nodes);
        let ghost ns = start.layer_lists()[g][li as int];
        proof {
            assert(nodes@.map_values(|n: LNodeId| n.0) == ns);
            assert(start.layer_lists()[g].len() == layer_count);
            assert(in_sync(layer_ends(start.graph_of(), start.layer_of(), g), start.layer_lists()[g]));
            assert(ns.no_duplicates());
            lemma_grown_refl(&start, g, li + 1);
        }
        let mut j: usize = 0;
        while j < nodes.len()
            invariant
                a0.wf(),
                start.wf(),
                0 <= g < a0.graphs@.len(),
                g == graph.0,
                layer_count == a0.layer_lists()[g].len(),
                layer_count == start.layer_lists()[g].len(),
                layer_count > 2,
                li < layer_count - 1,
                grown_layers(&a0, &start, g),
                ns == start.layer_lists()[g][li as int],
                ns.no_duplicates(),
                in_sync(layer_ends(start.graph_of(), start.layer_of(), g), start.layer_lists()[g]),
                nodes@.map_values(|n: LNodeId| n.0) == ns,
                j <= nodes@.len(),
                grown(&start, &*arena, g, li + 1),
                targets_layered(&*arena, g),
                forward(&a0, g) ==> forward(&*arena, g),
                forall|f: usize|
                    f < a0.edges@.len() && #[trigger] proper_edge(&a0, g, f) ==> arena.targets()[f as int] == a0.targets()[f as int],
                forall|f: usize|
                    f < arena.edges@.len() && #[trigger] from_placed(&*arena, g, f) && source_layer_of(&*arena, f) < li
                        ==> proper_edge(&*arena, g, f),
                forall|f: usize|
                    f < arena.edges@.len() && (#[trigger] source_node(&*arena, f) matches Some(x) && ns.take(j as int).contains(x))
                        ==> proper_edge(&*arena, g, f),
                grown_layers(&a0, &*arena, g),
                chained(&a0, &*arena, g),
            decreases nodes@.len() - j,
        {
            let node = nodes[j];
            let ghost cur = *arena;
            proof {
                assert(ns[j as int] == node.0);
                assert(node.0 < start.nodes@.len());
                assert(layer_ends(start.graph_of(), start.layer_of(), g)[node.0 as int] == Some(li));
                assert(cur.nodes@[node.0 as int] == (LNode { ports: cur.nodes@[node.0 as int].ports, ..start.nodes@[node.0 as int] }));
                assert(placed(&cur, g, node.0 as int));
            }
            split_node_edges(arena, Ghost(a0), graph, li, node);
            j += 1;
            proof {
                let nxt = *arena;
                lemma_grown_trans(&start, &cur, &nxt, g, li + 1);
                lemma_grown_layers(&cur, &nxt, g, li + 1);
                let now = ns.take(j as int);
                let before = ns.take(j - 1);
                assert(now =~= before.push(node.0));
                assert forall|f: usize| f < a0.edges@.len() && #[trigger] proper_edge(&a0, g, f) implies nxt.targets()[f as int]
                    == a0.targets()[f as int] by {
                    lemma_old_edge_kept_layers(&a0, &cur, g, f);
                }
                assert forall|f: usize|
                    f < nxt.edges@.len() && #[trigger] from_placed(&nxt, g, f) && source_layer_of(&nxt, f) < li implies proper_edge(
                        &nxt,
                        g,
                        f,
                    ) by {
                    if f < cur.edges@.len() {
                        assert(nxt.sources()[f as int] == cur.sources()[f as int]);
                        let p = cur.sources()[f as int]->0;
                        assert(nxt.owners()[p as int] == cur.owners()[p as int]);
                        let x = cur.owners()[p as int]->0 as int;
                        assert(nxt.nodes@[x] == (LNode { ports: nxt.nodes@[x].ports, ..cur.nodes@[x] }));
                        assert(source_node(&cur, f) != Some(node.0));
                        lemma_old_edge_kept(&cur, &nxt, g, li + 1, f);
                    } else {
                        let p = nxt.sources()[f as int]->0;
                        assert(cur.ports@.len() <= p);
                        assert(nxt.owners()[p as int] matches Some(x) && cur.nodes@.len() <= x);
                    }
                }
                assert forall|f: usize|
                    f < nxt.edges@.len() && (#[trigger] source_node(&nxt, f) matches Some(x) && now.contains(x)) implies proper_edge(
                        &nxt,
                        g,
                        f,
                    ) by {
                    let x = source_node(&nxt, f)->0;
                    if x == node.0 {
                    } else {
                        assert(before.contains(x)) by {
                            let t = choose|t: int| 0 <= t < now.len() && now[t] == x;
                            assert(before[t] == x);
                        }
                        if f < cur.edges@.len() {
                            assert(nxt.sources()[f as int] == cur.sources()[f as int]);
                            let p = cur.sources()[f as int]->0;
                            assert(nxt.owners()[p as int] == cur.owners()[p as int]);
                            lemma_old_edge_kept(&cur, &nxt, g, li + 1, f);
                        } else {
                            let p = nxt.sources()[f as int]->0;
                            assert(nxt.owners()[p as int] matches Some(z) && cur.nodes@.len() <= z);
                            let t = choose|t: int| 0 <= t < before.len() && before[t] == x;
                            assert(ns[t] < start.nodes@.len());
                        }
                    }
                }
            }
        }
        li += 1;
        proof {
            let b = *arena;
            lemma_grown_layers(&start, &b, g, li as int);
            lemma_grown_layers_trans(&a0, &start, &b, g);
            assert(ns.take(nodes@.len() as int) =~= ns);
            assert forall|f: usize| f < b.edges@.len() && #[trigger] from_placed(&b, g, f) && source_layer_of(&b, f) < li implies proper_edge(
                &b,
                g,
                f,
            ) by {
                if source_layer_of(&b, f) == li - 1 {
                    let x = source_node(&b, f)->0 as int;
                    lemma_layer_bound(&b, g, x);
                    assert(b.layer_lists()[g][li - 1] == start.layer_lists()[g][li - 1]);
                    assert(ns.contains(x as usize));
                }
            }
        }
    }
    proof {
        let b = *arena;
        if forward(&a0, g) {
            assert forall|f: usize| f < b.edges@.len() implies #[trigger] proper_edge(&b, g, f) by {
                if from_placed(&b, g, f) && source_layer_of(&b, f) >= li {
                    let y = target_node(&b, f)->0 as int;
                    lemma_layer_bound(&b, g, y);
                }
            }
            if plain_layers(&a0, g) {
                assert forall|e: usize| e < a0.edges@.len() && from_placed(&a0, g, e) && !#[trigger] proper_edge(&a0, g, e)
                    implies target_node(&b, e) is Some && chain_dummy(
                    &a0,
                    &b,
                    target_node(&b, e)->0 as int,
                    source_layer_of(&a0, e) + 1,
                    a0.edges@[e as int].source,
                    a0.edges@[e as int].target,
                ) by {
                    if b.targets()[e as int] == a0.targets()[e as int] {
                        lemma_old_edge_kept_layers(&a0, &b, g, e);
                        assert(proper_edge(&b, g, e));
                    }
                }
            }
        }
    }
}


/// `l` with each edge of `from` replaced by the edge at the same position
/// of `to`.
pub open spec fn replaced(l: Seq<usize>, from: Seq<usize>, to: Seq<usize>) -> Seq<usize> {
    l.map_values(|x: usize| if from.contains(x) { to[from.index_of(x)] } else { x })
}

/// The dummy whose first west port is `w` and first east port is `e` can
/// be joined: it has both, no fewer edges leave `e` than arrive at `w`,
/// and each edge leaving `e` that gets dropped ends at a port other than
/// `w`.
pub open spec fn joinable(a: &LGraphArena, w: usize, e: usize) -> bool {
    let ws = a.in_lists()[w as int];
    let os = a.out_lists()[e as int];
    &&& ws.len() <= os.len()
    &&& forall|k: int| 0 <= k < ws.len() ==> #[trigger] a.targets()[os[k] as int] is Some && a.targets()[os[k] as int] != Some(w)
}

/// `b` is `a` after the first `k` edges arriving at port `w` took over the
/// ends of the first `k` edges leaving port `e`, in pairs: each surviving
/// edge ends where its partner ended, in its place in that port's list,
/// and carries its partner's labels after its own; each dropped edge is
/// detached from both ends and has no labels left.
pub open spec fn joined(a: &LGraphArena, b: &LGraphArena, w: usize, e: usize, k: int) -> bool {
    let ws = a.in_lists()[w as int];
    let os = a.out_lists()[e as int];
    let dropped = os.take(k);
    let kept = ws.take(k);
    &&& b.wf()
    &&& b.edges@.len() == a.edges@.len()
    &&& b.ports@.len() == a.ports@.len()
    &&& forall|f: int|
        0 <= f < a.edges@.len() ==> #[trigger] b.sources()[f] == if dropped.contains(f as usize) {
            None
        } else {
            a.sources()[f]
        }
    &&& forall|f: int|
        0 <= f < a.edges@.len() ==> #[trigger] b.targets()[f] == if dropped.contains(f as usize) {
            None
        } else if kept.contains(f as usize) {
            a.targets()[os[ws.index_of(f as usize)] as int]
        } else {
            a.targets()[f]
        }
    &&& forall|p: int|
        0 <= p < a.ports@.len() ==> #[trigger] b.in_lists()[p] == if p == w {
            ws.skip(k)
        } else {
            replaced(a.in_lists()[p], dropped, kept)
        }
    &&& b.out_lists() == a.out_lists().update(e as int, os.skip(k))
    &&& forall|f: int|
        0 <= f < a.edges@.len() ==> #[trigger] b.edge_label_lists()[f] == if dropped.contains(f as usize) {
            Seq::empty()
        } else if kept.contains(f as usize) {
            a.edge_label_lists()[f] + a.edge_label_lists()[os[ws.index_of(f as usize)] as int]
        } else {
            a.edge_label_lists()[f]
        }
    &&& forall|f: int| 0 <= f < a.edges@.len() ==> (#[trigger] b.edges@[f]).props == a.edges@[f].props
    &&& forall|p: int|
        0 <= p < a.ports@.len() ==> #[trigger] b.ports@[p] == (LPort {
            incoming_edges: b.ports@[p].incoming_edges,
            outgoing_edges: b.ports@[p].outgoing_edges,
            ..a.ports@[p]
        })
    &&& b.owners() == a.owners()
    &&& b.nodes == a.nodes
    &&& b.graphs == a.graphs
    &&& b.labels == a.labels
}


/// In a sequence without repetitions, an element's index is its position.
pub proof fn lemma_index_of_unique(s: Seq<usize>, j: int)
    requires
        s.no_duplicates(),
        0 <= j < s.len(),
    ensures
        s.index_of(s[j]) == j,
{
    assert(s.contains(s[j]));
    let i = s.index_of(s[j]);
    assert(s[i] == s[j]);
}

/// A prefix of a sequence without repetitions has none.
pub proof fn lemma_take_no_duplicates(s: Seq<usize>, k: int)
    requires
        s.no_duplicates(),
        0 <= k <= s.len(),
    ensures
        s.take(k).no_duplicates(),
{
    let t = s.take(k);
    assert forall|i: int, j: int| 0 <= i < t.len() && 0 <= j < t.len() && i != j implies t[i] != t[j] by {
        assert(t[i] == s[i] && t[j] == s[j]);
    }
}

/// One more element taken: the prefix grows by it.
pub proof fn lemma_take_one_more(s: Seq<usize>, k: int, x: usize)
    requires
        0 <= k < s.len(),
    ensures
        s.take(k + 1) == s.take(k).push(s[k]),
        s.take(k + 1).contains(x) == (s.take(k).contains(x) || x == s[k]),
{
    let longer = s.take(k + 1);
    let shorter = s.take(k);
    assert(longer =~= shorter.push(s[k]));
    if longer.contains(x) {
        let i = choose|i: int| 0 <= i < longer.len() && longer[i] == x;
        if i < k {
            assert(shorter[i] == x);
        }
    }
    if shorter.contains(x) {
        let i = choose|i: int| 0 <= i < shorter.len() && shorter[i] == x;
        assert(longer[i] == x);
    }
    if x == s[k] {
        assert(longer[k] == x);
    }
}

/// Where `x` sits in `edges`, a list that holds it.
fn edge_position(edges: &Vec<LEdgeId>, x: LEdgeId) -> (r: usize)
    requires
        edges@.map_values(|f: LEdgeId| f.0).contains(x.0),
    ensures
        r < edges@.len(),
        edges@[r as int].0 == x.0,
        forall|k: int| 0 <= k < r ==> edges@[k].0 != x.0,
{
    let ghost ids = edges@.map_values(|f: LEdgeId| f.0);
    let mut i: usize = 0;
    while i < edges.len()
        invariant
            ids == edges@.map_values(|f: LEdgeId| f.0),
            ids.contains(x.0),
            i <= edges@.len(),
            forall|k: int| 0 <= k < i ==> edges@[k].0 != x.0,
        decreases edges@.len() - i,
    {
        if edges[i].0 == x.0 {
            return i;
        }
        i += 1;
    }
    proof {
        let k = choose|k: int| 0 <= k < ids.len() && ids[k] == x.0;
        assert(edges@[k].0 == x.0);
    }
    0
}


/// Joins the edges around the long-edge dummy `dummy`: in pairs, the
/// first edge arriving at its first west port takes over the end of the
/// first edge leaving its first east port, in that edge's place in the
/// target port's list, together with its labels, and the dropped edge is
/// detached; as many times as edges arrive at the west port.
#[verifier::rlimit(80)]
pub fn join_at(arena: &mut LGraphArena, dummy: LNodeId)
    requires
        old(arena).wf(),
        dummy.0 < old(arena).nodes@.len(),
        first_on_side(old(arena), old(arena).port_lists()[dummy.0 as int], PortSide::West) is Some,
        first_on_side(old(arena), old(arena).port_lists()[dummy.0 as int], PortSide::East) is Some,
        joinable(
            old(arena),
            first_on_side(old(arena), old(arena).port_lists()[dummy.0 as int], PortSide::West)->0,
            first_on_side(old(arena), old(arena).port_lists()[dummy.0 as int], PortSide::East)->0,
        ),
    ensures
        joined(
            old(arena),
            final(arena),
            first_on_side(old(arena), old(arena).port_lists()[dummy.0 as int], PortSide::West)->0,
            first_on_side(old(arena), old(arena).port_lists()[dummy.0 as int], PortSide::East)->0,
            old(arena).in_lists()[first_on_side(old(arena), old(arena).port_lists()[dummy.0 as int], PortSide::West)->0 as int].len()
                as int,
        ),
{
    let ghost a0 = *arena;
    let west = find_port_on_side(arena, dummy, PortSide::West).unwrap();
    let east = find_port_on_side(arena, dummy, PortSide::East).unwrap();
    let ghost w = west.0;
    let ghost e = east.0;
    let ghost ws = a0.in_lists()[w as int];
    let ghost os = a0.out_lists()[e as int];
    proof {
        lemma_first_on_side(&a0, a0.port_lists()[dummy.0 as int], PortSide::West);
        lemma_first_on_side(&a0, a0.port_lists()[dummy.0 as int], PortSide::East);
        crate::layout::elk::alg::p1_cycles::lemma_port_list(&a0, dummy.0);
        let pl = a0.port_lists()[dummy.0 as int];
        let iw = choose|i: int| 0 <= i < pl.len() && pl[i] == w;
        let ie = choose|i: int| 0 <= i < pl.len() && pl[i] == e;
        assert(pl[iw] < a0.ports@.len() && pl[ie] < a0.ports@.len());
        assert(w != e);
        assert(ws.no_duplicates() && os.no_duplicates());
        assert(ws.take(0) =~= Seq::<usize>::empty());
        assert(os.take(0) =~= Seq::<usize>::empty());
        assert(ws.skip(0) =~= ws);
        assert(os.skip(0) =~= os);
        assert forall|p: int| 0 <= p < a0.ports@.len() && p != w implies #[trigger] a0.in_lists()[p] == replaced(
            a0.in_lists()[p],
            os.take(0),
            ws.take(0),
        ) by {
            assert(a0.in_lists()[p] =~= replaced(a0.in_lists()[p], os.take(0), ws.take(0)));
        }
        assert(a0.out_lists() =~= a0.out_lists().update(e as int, os.skip(0)));
        assert forall|p: int| 0 <= p < a0.ports@.len() implies #[trigger] a0.ports@[p] == (LPort {
            incoming_edges: a0.ports@[p].incoming_edges,
            outgoing_edges: a0.ports@[p].outgoing_edges,
            ..a0.ports@[p]
        }) by {
        }
        assert(joined(&a0, &a0, w, e, 0));
    }
    let n_edges = arena.edges.len();
    let n_ports = arena.ports.len();
    let mut edge_count = arena.ports[west.0].incoming_edges.len();
    let ghost n = edge_count as int;
    while edge_count > 0
        invariant
            a0.wf(),
            w < a0.ports@.len(),
            e < a0.ports@.len(),
            w != e,
            west.0 == w,
            east.0 == e,
            ws == a0.in_lists()[w as int],
            os == a0.out_lists()[e as int],
            n == ws.len(),
            joinable(&a0, w, e),
            n_edges == a0.edges@.len(),
            n_ports == a0.ports@.len(),
            0 <= edge_count <= n,
            joined(&a0, &*arena, w, e, n - edge_count),
        decreases edge_count,
    {
        edge_count -= 1;
        let ghost k = n - edge_count - 1;
        let ghost cur = *arena;
        proof {
            assert(cur.in_lists()[w as int] == ws.skip(k));
            assert(cur.out_lists()[e as int] == os.skip(k));
            assert(ws.skip(k)[0] == ws[k]);
            assert(os.skip(k)[0] == os[k]);
        }
        let surviving = arena.ports[west.0].incoming_edges[0];
        let dropped = arena.ports[east.0].outgoing_edges[0];
        proof {
            assert(surviving.0 == ws[k]);
            assert(dropped.0 == os[k]);
            assert(!os.take(k).contains(os[k])) by {
                if os.take(k).contains(os[k]) {
                    let i = choose|i: int| 0 <= i < os.take(k).len() && os.take(k)[i] == os[k];
                    assert(os[i] == os[k]);
                }
            }
            assert(a0.targets()[ws[k] as int] == Some(w)) by {
                assert(ws[k] < a0.edges@.len());
            }
            assert(!ws.take(k).contains(os[k])) by {
                if ws.take(k).contains(os[k]) {
                    let i = choose|i: int| 0 <= i < ws.take(k).len() && ws.take(k)[i] == os[k];
                    assert(a0.targets()[ws[i] as int] == Some(w));
                }
            }
            assert(os[k] < a0.edges@.len());
            assert(cur.targets()[os[k] as int] == a0.targets()[os[k] as int]);
        }
        let dropped_target = arena.edges[dropped.0].target.unwrap();
        let ghost t = dropped_target.0;
        proof {
            assert(a0.targets()[os[k] as int] == Some(t));
            assert(t != w);
            assert(t < a0.ports@.len());
            assert(a0.in_lists()[t as int].contains(os[k]));
            let i0 = choose|i: int| 0 <= i < a0.in_lists()[t as int].len() && a0.in_lists()[t as int][i] == os[k];
            assert(cur.in_lists()[t as int] == replaced(a0.in_lists()[t as int], os.take(k), ws.take(k)));
            assert(cur.in_lists()[t as int][i0] == os[k]);
            assert(cur.in_lists()[t as int].contains(os[k]));
        }
        let idx = edge_position(&arena.ports[dropped_target.0].incoming_edges, dropped);
        proof {
            assert(cur.in_lists()[t as int][idx as int] == os[k]);
            assert(cur.in_lists()[t as int].no_duplicates());
        }
        arena.edge_set_source(dropped, None);
        let ghost m1 = *arena;
        arena.edge_set_target(dropped, None);
        let ghost m2 = *arena;
        proof {
            assert(m2.targets()[ws[k] as int] == cur.targets()[ws[k] as int]);
            assert(!os.take(k).contains(ws[k]));
            assert(!ws.take(k).contains(ws[k])) by {
                if ws.take(k).contains(ws[k]) {
                    let i = choose|i: int| 0 <= i < ws.take(k).len() && ws.take(k)[i] == ws[k];
                    assert(ws[i] == ws[k]);
                }
            }
            assert(cur.targets()[ws[k] as int] == Some(w));
            lemma_remove_value_at(cur.in_lists()[t as int], idx as int);
        }
        arena.edge_set_target_at_index(surviving, dropped_target, idx);
        let ghost m3 = *arena;
        let dropped_labels = copy_vec(&arena.edges[dropped.0].labels);
        arena.edges[dropped.0].labels = Vec::new();
        let mut i: usize = 0;
        while i < dropped_labels.len()
            invariant
                m3.wf(),
                surviving.0 < m3.edges@.len(),
                dropped.0 < m3.edges@.len(),
                surviving.0 != dropped.0,
                dropped_labels@ == m3.edges@[dropped.0 as int].labels@,
                arena.edges@.len() == m3.edges@.len(),
                i <= dropped_labels@.len(),
                arena.edges@[surviving.0 as int].labels@ == m3.edges@[surviving.0 as int].labels@ + dropped_labels@.take(i as int),
                arena.edges@[dropped.0 as int].labels@.len() == 0,
                forall|f: int|
                    0 <= f < m3.edges@.len() && f != surviving.0 ==> (#[trigger] arena.edges@[f]) == if f == dropped.0 {
                        LEdge { labels: arena.edges@[f].labels, ..m3.edges@[f] }
                    } else {
                        m3.edges@[f]
                    },
                forall|f: int| 0 <= f < m3.edges@.len() && f == surviving.0 ==> (#[trigger] arena.edges@[f]) == (LEdge {
                    labels: arena.edges@[f].labels,
                    ..m3.edges@[f]
                }),
                arena.ports == m3.ports,
                arena.nodes == m3.nodes,
                arena.graphs == m3.graphs,
                arena.labels == m3.labels,
            decreases dropped_labels@.len() - i,
        {
            let l = dropped_labels[i];
            arena.edges[surviving.0].labels.push(l);
            i += 1;
            proof {
                assert(dropped_labels@.take(i as int) =~= dropped_labels@.take(i - 1).push(l));
            }
        }
        proof {
            let nx = *arena;
            assert(dropped_labels@.take(dropped_labels@.len() as int) =~= dropped_labels@);
            let kk = k + 1;
            lemma_take_one_more(os, k, 0);
            lemma_take_one_more(ws, k, 0);
            assert(nx.sources() =~= m3.sources());
            assert(nx.targets() =~= m3.targets());
            assert(nx.in_lists() =~= m3.in_lists());
            assert(nx.out_lists() =~= m3.out_lists());
            assert(nx.owners() =~= m3.owners());
            assert(nx.port_lists() =~= m3.port_lists());
            assert(nx.graph_of() =~= m3.graph_of());
            assert(nx.layer_of() =~= m3.layer_of());
            assert(nx.layer_lists() =~= m3.layer_lists());
            assert(nx.layerless_lists() =~= m3.layerless_lists());
            assert forall|f: int| 0 <= f < a0.edges@.len() implies #[trigger] nx.sources()[f] == if os.take(kk).contains(f as usize) {
                None
            } else {
                a0.sources()[f]
            } by {
                lemma_take_one_more(os, k, f as usize);
            }
            assert forall|f: int| 0 <= f < a0.edges@.len() implies #[trigger] nx.targets()[f] == if os.take(kk).contains(f as usize) {
                None
            } else if ws.take(kk).contains(f as usize) {
                a0.targets()[os[ws.index_of(f as usize)] as int]
            } else {
                a0.targets()[f]
            } by {
                lemma_take_one_more(os, k, f as usize);
                lemma_take_one_more(ws, k, f as usize);
                if f == ws[k] {
                    lemma_index_of_unique(ws, k);
                }
            }
            assert(nx.in_lists()[w as int] =~= ws.skip(kk)) by {
                lemma_remove_value_at(ws.skip(k), 0);
                assert(ws.skip(k).remove(0) =~= ws.skip(kk));
            }
            assert forall|p: int| 0 <= p < a0.ports@.len() && p != w implies #[trigger] nx.in_lists()[p] == replaced(
                a0.in_lists()[p],
                os.take(kk),
                ws.take(kk),
            ) by {
                let from0 = os.take(k);
                let to0 = ws.take(k);
                let from1 = os.take(kk);
                let to1 = ws.take(kk);
                assert forall|x: usize| from0.contains(x) implies from1.index_of(x) == from0.index_of(x) && to1[from1.index_of(x)] == to0[
                    from0.index_of(x)] by {
                    let j = choose|j: int| 0 <= j < from0.len() && from0[j] == x;
                    assert(os[j] == x);
                    lemma_take_no_duplicates(os, k);
                    lemma_take_no_duplicates(os, kk);
                    lemma_index_of_unique(os.take(k), j);
                    lemma_index_of_unique(os.take(kk), j);
                }
                if p == t {
                    assert(a0.in_lists()[p].no_duplicates());
                    assert(a0.in_lists()[p][idx as int] == os[k]) by {
                        let x = a0.in_lists()[p][idx as int];
                        if from0.contains(x) {
                            let j = choose|j: int| 0 <= j < from0.len() && from0[j] == x;
                            lemma_take_no_duplicates(os, k);
                            lemma_index_of_unique(from0, j);
                            assert(to0[j] == ws[j]);
                            assert(ws.take(k).contains(ws[j])) by {
                                assert(ws.take(k)[j] == ws[j]);
                            }
                        }
                    }
                    assert(os.take(kk).index_of(os[k]) == k) by {
                        lemma_take_no_duplicates(os, kk);
                        lemma_index_of_unique(os.take(kk), k);
                    }
                    assert forall|q: int| 0 <= q < a0.in_lists()[p].len() implies #[trigger] nx.in_lists()[p][q] == replaced(
                        a0.in_lists()[p],
                        from1,
                        to1,
                    )[q] by {
                        lemma_take_one_more(os, k, a0.in_lists()[p][q]);
                        if q == idx {
                            assert(a0.in_lists()[p][q] == os[k]);
                        } else {
                            assert(a0.in_lists()[p][q] != os[k]);
                        }
                    }
                    assert(nx.in_lists()[p] =~= replaced(a0.in_lists()[p], from1, to1));
                } else {
                    assert forall|q: int| 0 <= q < a0.in_lists()[p].len() implies a0.in_lists()[p][q] != os[k] by {
                        if a0.in_lists()[p][q] == os[k] {
                            assert(a0.targets()[os[k] as int] == Some(p as usize));
                        }
                    }
                    assert forall|q: int| 0 <= q < a0.in_lists()[p].len() implies #[trigger] replaced(a0.in_lists()[p], from1, to1)[q]
                        == replaced(a0.in_lists()[p], from0, to0)[q] by {
                        lemma_take_one_more(os, k, a0.in_lists()[p][q]);
                    }
                    assert(replaced(a0.in_lists()[p], from1, to1) =~= replaced(a0.in_lists()[p], from0, to0));
                }
            }
            assert(nx.out_lists() =~= a0.out_lists().update(e as int, os.skip(kk))) by {
                lemma_remove_value_at(os.skip(k), 0);
                assert(os.skip(k).remove(0) =~= os.skip(kk));
            }
            assert forall|f: int| 0 <= f < a0.edges@.len() implies #[trigger] nx.edge_label_lists()[f] == if os.take(kk).contains(
                f as usize,
            ) {
                Seq::empty()
            } else if ws.take(kk).contains(f as usize) {
                a0.edge_label_lists()[f] + a0.edge_label_lists()[os[ws.index_of(f as usize)] as int]
            } else {
                a0.edge_label_lists()[f]
            } by {
                lemma_take_one_more(os, k, f as usize);
                lemma_take_one_more(ws, k, f as usize);
                assert(m3.edge_label_lists() == cur.edge_label_lists());
                assert(cur.edge_label_lists()[f] == cur.edge_label_lists()[f]);
                if f == ws[k] {
                    lemma_index_of_unique(ws, k);
                    assert(cur.edge_label_lists()[ws[k] as int] == a0.edge_label_lists()[ws[k] as int]);
                    assert(cur.edge_label_lists()[os[k] as int] == a0.edge_label_lists()[os[k] as int]);
                    assert(nx.edges@[f].labels@ == m3.edges@[f].labels@ + m3.edges@[dropped.0 as int].labels@);
                    assert(nx.edge_label_lists()[f] =~= cur.edge_label_lists()[f] + cur.edge_label_lists()[os[k] as int]);
                } else if f == os[k] {
                    assert(nx.edge_label_lists()[f] =~= Seq::<usize>::empty());
                } else {
                    assert(nx.edges@[f] == m3.edges@[f]);
                    assert(nx.edge_label_lists()[f] == m3.edge_label_lists()[f]);
                }
            }
            let el = nx.edge_label_lists();
            assert forall|i: int, q: int| 0 <= i < el.len() && 0 <= q < el[i].len() implies #[trigger] el[i][q] < nx.labels@.len() by {
                if i == surviving.0 {
                    if q < m3.edge_label_lists()[i].len() {
                        assert(el[i][q] == m3.edge_label_lists()[i][q]);
                    } else {
                        assert(el[i][q] == m3.edge_label_lists()[dropped.0 as int][q - m3.edge_label_lists()[i].len()]);
                    }
                } else {
                    assert(el[i] == m3.edge_label_lists()[i]);
                }
            }
            assert(nx.wf());
            assert(joined(&a0, &nx, w, e, kk));
        }
    }
}


/// Which port `first_on_side` finds depends on the ports' sides alone.
pub proof fn lemma_first_on_side_sides(a: &LGraphArena, b: &LGraphArena, ports: Seq<usize>, side: PortSide)
    requires
        forall|k: int| 0 <= k < ports.len() ==> ports[k] < a.ports@.len() && ports[k] < b.ports@.len() && (#[trigger] b.ports@[
            ports[k] as int]).side == a.ports@[ports[k] as int].side,
    ensures
        first_on_side(b, ports, side) == first_on_side(a, ports, side),
    decreases ports.len(),
{
    if ports.len() > 0 {
        assert(b.ports@[ports[0] as int].side == a.ports@[ports[0] as int].side);
        let t = ports.subrange(1, ports.len() as int);
        assert forall|k: int| 0 <= k < t.len() implies t[k] < a.ports@.len() && t[k] < b.ports@.len() && (#[trigger] b.ports@[
            t[k] as int]).side == a.ports@[t[k] as int].side by {
            assert(t[k] == ports[k + 1]);
            assert(b.ports@[ports[k + 1] as int].side == a.ports@[ports[k + 1] as int].side);
        }
        lemma_first_on_side_sides(a, b, t, side);
    }
}

/// The first west port of node `x`.
pub open spec fn west_of(a: &LGraphArena, x: int) -> usize {
    first_on_side(a, a.port_lists()[x], PortSide::West)->0
}

/// The first east port of node `x`.
pub open spec fn east_of(a: &LGraphArena, x: int) -> usize {
    first_on_side(a, a.port_lists()[x], PortSide::East)->0
}

/// The long-edge dummy `x` in a layer of graph `g` can be joined: it has
/// a west and an east port, no fewer edges leave the east port than
/// arrive at the west one, and every edge leaving the east port ends at a
/// node in the next layer of `g`.
pub open spec fn dummy_joinable(a: &LGraphArena, g: int, x: int) -> bool {
    let e = east_of(a, x);
    &&& first_on_side(a, a.port_lists()[x], PortSide::West) is Some
    &&& first_on_side(a, a.port_lists()[x], PortSide::East) is Some
    &&& a.in_lists()[west_of(a, x) as int].len() <= a.out_lists()[e as int].len()
    &&& forall|k: int|
        0 <= k < a.out_lists()[e as int].len() ==> #[trigger] target_node(a, a.out_lists()[e as int][k]) is Some && placed(
            a,
            g,
            target_node(a, a.out_lists()[e as int][k])->0 as int,
        ) && a.layer_of()[target_node(a, a.out_lists()[e as int][k])->0 as int]->0 == a.layer_of()[x]->0 + 1
}


/// The ports of dummy `x` in `b` are as in `a` for joining: as many edges
/// arrive at its west port, the same edges leave its east port, and they
/// end where they did.
pub open spec fn untouched(a: &LGraphArena, b: &LGraphArena, x: int) -> bool {
    let w = west_of(a, x);
    let e = east_of(a, x);
    &&& b.in_lists()[w as int].len() == a.in_lists()[w as int].len()
    &&& b.out_lists()[e as int] == a.out_lists()[e as int]
    &&& forall|k: int|
        0 <= k < a.out_lists()[e as int].len() ==> #[trigger] b.targets()[a.out_lists()[e as int][k] as int] == a.targets()[a.out_lists()[
            e as int][k] as int]
}

/// Dummy `x` in `b` is joined as it was to be in `a`: nothing arrives at
/// its west port, and only the surplus edges still leave its east port.
pub open spec fn joined_dummy(a: &LGraphArena, b: &LGraphArena, x: int) -> bool {
    let w = west_of(a, x);
    let e = east_of(a, x);
    &&& b.in_lists()[w as int] == Seq::<usize>::empty()
    &&& b.out_lists()[e as int] == a.out_lists()[e as int].skip(a.in_lists()[w as int].len() as int)
}

/// A long-edge dummy of a layer of graph `g` is handled once the layers
/// before `li` and the first `j` nodes of layer `li` are.
pub open spec fn dummy_done(a: &LGraphArena, g: int, li: int, ns: Seq<usize>, j: int, x: int) -> bool {
    &&& placed(a, g, x)
    &&& a.nodes@[x].node_type == NodeType::LongEdge
    &&& (a.layer_of()[x]->0 < li || (a.layer_of()[x]->0 == li && ns.take(j).contains(x as usize)))
}

/// The first west and east ports of a dummy that has both are two of its
/// own ports.
pub proof fn lemma_dummy_ports(a: &LGraphArena, x: int)
    requires
        a.wf(),
        0 <= x < a.nodes@.len(),
        first_on_side(a, a.port_lists()[x], PortSide::West) is Some,
        first_on_side(a, a.port_lists()[x], PortSide::East) is Some,
    ensures
        west_of(a, x) < a.ports@.len(),
        east_of(a, x) < a.ports@.len(),
        a.owners()[west_of(a, x) as int] == Some(x as usize),
        a.owners()[east_of(a, x) as int] == Some(x as usize),
        a.ports@[west_of(a, x) as int].side == PortSide::West,
        a.ports@[east_of(a, x) as int].side == PortSide::East,
        west_of(a, x) != east_of(a, x),
{
    let pl = a.port_lists()[x];
    crate::layout::elk::alg::p1_cycles::lemma_port_list(a, x as usize);
    lemma_first_on_side(a, pl, PortSide::West);
    lemma_first_on_side(a, pl, PortSide::East);
    let qw = choose|q: int| 0 <= q < pl.len() && pl[q] == west_of(a, x);
    let qe = choose|q: int| 0 <= q < pl.len() && pl[q] == east_of(a, x);
    assert(pl[qw] < a.ports@.len() && pl[qe] < a.ports@.len());
}

/// Joining dummy `d` leaves every other dummy's ports as they were for
/// joining, or as joined.
pub proof fn lemma_join_others(a0: &LGraphArena, cur: &LGraphArena, mid: &LGraphArena, g: int, d: int, x: int)
    requires
        a0.wf(),
        cur.wf(),
        0 <= d < a0.nodes@.len(),
        0 <= x < a0.nodes@.len(),
        x != d,
        a0.nodes@.len() <= usize::MAX,
        cur.owners() == a0.owners(),
        cur.ports@.len() == a0.ports@.len(),
        cur.edges@.len() == a0.edges@.len(),
        dummy_joinable(a0, g, d),
        dummy_joinable(a0, g, x),
        untouched(a0, cur, d),
        joined(cur, mid, west_of(a0, d), east_of(a0, d), cur.in_lists()[west_of(a0, d) as int].len() as int),
        untouched(a0, cur, x) && a0.layer_of()[x]->0 >= a0.layer_of()[d]->0 || joined_dummy(a0, cur, x),
    ensures
        untouched(a0, cur, x) && a0.layer_of()[x]->0 >= a0.layer_of()[d]->0 ==> untouched(a0, mid, x),
        joined_dummy(a0, cur, x) ==> joined_dummy(a0, mid, x),
{
    lemma_dummy_ports(a0, d);
    lemma_dummy_ports(a0, x);
    let wd = west_of(a0, d);
    let ed = east_of(a0, d);
    let wx = west_of(a0, x);
    let ex = east_of(a0, x);
    let n = cur.in_lists()[wd as int].len() as int;
    let os = cur.out_lists()[ed as int];
    let ws = cur.in_lists()[wd as int];
    assert(wx != wd && wx != ed && ex != wd && ex != ed);
    assert(mid.in_lists()[wx as int] == replaced(cur.in_lists()[wx as int], os.take(n), ws.take(n)));
    assert(mid.out_lists()[ex as int] == cur.out_lists()[ex as int]);
    if joined_dummy(a0, cur, x) {
        assert(mid.in_lists()[wx as int] =~= Seq::<usize>::empty());
    }
    if untouched(a0, cur, x) && a0.layer_of()[x]->0 >= a0.layer_of()[d]->0 {
        let ox = a0.out_lists()[ex as int];
        assert forall|k: int| 0 <= k < ox.len() implies #[trigger] mid.targets()[ox[k] as int] == a0.targets()[ox[k] as int] by {
            let f = ox[k];
            assert(f < a0.edges@.len() && a0.sources()[f as int] == Some(ex));
            assert(cur.targets()[f as int] == a0.targets()[f as int]);
            assert(!os.take(n).contains(f)) by {
                if os.take(n).contains(f) {
                    let i = choose|i: int| 0 <= i < os.take(n).len() && os.take(n)[i] == f;
                    assert(os[i] == a0.out_lists()[ed as int][i]);
                    assert(a0.sources()[f as int] == Some(ed));
                }
            }
            assert(!ws.take(n).contains(f)) by {
                if ws.take(n).contains(f) {
                    let i = choose|i: int| 0 <= i < ws.take(n).len() && ws.take(n)[i] == f;
                    assert(ws[i] == f);
                    assert(cur.targets()[f as int] == Some(wd));
                    let y = target_node(a0, f)->0 as int;
                    assert(a0.layer_of()[y]->0 == a0.layer_of()[x]->0 + 1);
                    assert(y == d);
                }
            }
        }
    }
}

/// Joins, layer by layer, the edges around every long-edge dummy in a
/// layer of `graph`, and takes the dummy out of its layer.
pub fn long_edge_joiner(arena: &mut LGraphArena, graph: LGraphId)
    requires
        old(arena).wf(),
        graph.0 < old(arena).graphs@.len(),
        forall|x: int|
            0 <= x < old(arena).nodes@.len() && #[trigger] placed(old(arena), graph.0 as int, x) && old(arena).nodes@[x].node_type
                == NodeType::LongEdge ==> dummy_joinable(old(arena), graph.0 as int, x),
    ensures
        final(arena).wf(),
        final(arena).nodes@.len() == old(arena).nodes@.len(),
        forall|x: int|
            0 <= x < old(arena).nodes@.len() ==> #[trigger] final(arena).nodes@[x] == (LNode {
                layer: if placed(old(arena), graph.0 as int, x) && old(arena).nodes@[x].node_type == NodeType::LongEdge {
                    None
                } else {
                    old(arena).nodes@[x].layer
                },
                ..old(arena).nodes@[x]
            }),
        forall|x: int|
            0 <= x < old(arena).nodes@.len() && #[trigger] placed(old(arena), graph.0 as int, x) && old(arena).nodes@[x].node_type
                == NodeType::LongEdge ==> joined_dummy(old(arena), final(arena), x),
        final(arena).owners() == old(arena).owners(),
        final(arena).edges@.len() == old(arena).edges@.len(),
        final(arena).graphs@.len() == old(arena).graphs@.len(),
        final(arena).labels == old(arena).labels,
{
    let ghost a0 = *arena;
    let ghost g = graph.0 as int;
    let layer_count = arena.graphs[graph.0].layers.len();
    let n_nodes = arena.nodes.len();
    let ghost count = layer_count as int;
    proof {
        assert(layer_count == a0.layer_lists()[g].len());
        assert(in_sync(layer_ends(a0.graph_of(), a0.layer_of(), g), a0.layer_lists()[g]));
    }
    let mut li: usize = 0;
    while li < layer_count
        invariant
            a0.wf(),
            arena.wf(),
            0 <= g < a0.graphs@.len(),
            g == graph.0,
            count == a0.layer_lists()[g].len(),
            layer_count == count,
            n_nodes == a0.nodes@.len(),
            in_sync(layer_ends(a0.graph_of(), a0.layer_of(), g), a0.layer_lists()[g]),
            li <= layer_count,
            forall|x: int|
                0 <= x < a0.nodes@.len() && #[trigger] placed(&a0, g, x) && a0.nodes@[x].node_type == NodeType::LongEdge
                    ==> dummy_joinable(&a0, g, x),
            arena.nodes@.len() == a0.nodes@.len(),
            arena.graph_of() == a0.graph_of(),
            arena.port_lists() == a0.port_lists(),
            forall|x: int|
                0 <= x < a0.nodes@.len() ==> #[trigger] arena.nodes@[x] == (LNode {
                    layer: if dummy_done(&a0, g, li as int, Seq::empty(), 0, x) {
                        None
                    } else {
                        a0.nodes@[x].layer
                    },
                    ..a0.nodes@[x]
                }),
            arena.ports@.len() == a0.ports@.len(),
            arena.owners() == a0.owners(),
            forall|p: int| 0 <= p < a0.ports@.len() ==> (#[trigger] arena.ports@[p]).side == a0.ports@[p].side,
            arena.edges@.len() == a0.edges@.len(),
            arena.graphs@.len() == a0.graphs@.len(),
            arena.layer_lists()[g].len() == count,
            forall|l: int| li <= l < count ==> #[trigger] arena.layer_lists()[g][l] == a0.layer_lists()[g][l],
            arena.labels == a0.labels,
            forall|x: int|
                0 <= x < a0.nodes@.len() && #[trigger] placed(&a0, g, x) && a0.nodes@[x].node_type == NodeType::LongEdge
                    && !dummy_done(&a0, g, li as int, Seq::empty(), 0, x) ==> untouched(&a0, &*arena, x),
            forall|x: int|
                0 <= x < a0.nodes@.len() && #[trigger] dummy_done(&a0, g, li as int, Seq::empty(), 0, x) ==> joined_dummy(
                    &a0,
                    &*arena,
                    x,
                ),
        decreases layer_count - li,
    {
        let ghost start = *arena;
        proof {
            assert(start.layer_lists()[g].len() == start.graphs@[g].layers@.len());
        }
        let nodes = copy_vec(&arena.graphs[graph.0].layers[li].nodes);
        let ghost ns = a0.layer_lists()[g][li as int];
        proof {
            assert(start.layer_lists()[g][li as int] == a0.layer_lists()[g][li as int]);
            assert(nodes@.map_values(|n: LNodeId| n.0) == start.layer_lists()[g][li as int]);
            assert(nodes@.map_values(|n: LNodeId| n.0) == ns);
            assert(ns.no_duplicates());
            assert(ns.take(0) =~= Seq::<usize>::empty());
            assert forall|x: int| 0 <= x < a0.nodes@.len() implies #[trigger] dummy_done(&a0, g, li as int, ns, 0, x) == dummy_done(
                &a0,
                g,
                li as int,
                Seq::empty(),
                0,
                x,
            ) by {
            }
        }
        let mut j: usize = 0;
        while j < nodes.len()
            invariant
                a0.wf(),
                arena.wf(),
                0 <= g < a0.graphs@.len(),
                g == graph.0,
                count == a0.layer_lists()[g].len(),
                layer_count == count,
                n_nodes == a0.nodes@.len(),
                in_sync(layer_ends(a0.graph_of(), a0.layer_of(), g), a0.layer_lists()[g]),
                li < layer_count,
                ns == a0.layer_lists()[g][li as int],
                ns.no_duplicates(),
                nodes@.map_values(|n: LNodeId| n.0) == ns,
                j <= nodes@.len(),
                forall|x: int|
                    0 <= x < a0.nodes@.len() && #[trigger] placed(&a0, g, x) && a0.nodes@[x].node_type == NodeType::LongEdge
                        ==> dummy_joinable(&a0, g, x),
                arena.nodes@.len() == a0.nodes@.len(),
                arena.graph_of() == a0.graph_of(),
                arena.port_lists() == a0.port_lists(),
                forall|x: int|
                    0 <= x < a0.nodes@.len() ==> #[trigger] arena.nodes@[x] == (LNode {
                        layer: if dummy_done(&a0, g, li as int, ns, j as int, x) {
                            None
                        } else {
                            a0.nodes@[x].layer
                        },
                        ..a0.nodes@[x]
                    }),
                arena.ports@.len() == a0.ports@.len(),
                arena.owners() == a0.owners(),
                forall|p: int| 0 <= p < a0.ports@.len() ==> (#[trigger] arena.ports@[p]).side == a0.ports@[p].side,
                arena.edges@.len() == a0.edges@.len(),
                arena.graphs@.len() == a0.graphs@.len(),
                arena.layer_lists()[g].len() == count,
                forall|l: int| li < l < count ==> #[trigger] arena.layer_lists()[g][l] == a0.layer_lists()[g][l],
                arena.labels == a0.labels,
                forall|x: int|
                    0 <= x < a0.nodes@.len() && #[trigger] placed(&a0, g, x) && a0.nodes@[x].node_type == NodeType::LongEdge
                        && !dummy_done(&a0, g, li as int, ns, j as int, x) ==> untouched(&a0, &*arena, x),
                forall|x: int|
                    0 <= x < a0.nodes@.len() && #[trigger] dummy_done(&a0, g, li as int, ns, j as int, x) ==> joined_dummy(
                        &a0,
                        &*arena,
                        x,
                    ),
            decreases nodes@.len() - j,
        {
            let node = nodes[j];
            let ghost cur = *arena;
            let ghost d = node.0 as int;
            proof {
                assert(ns[j as int] == node.0);
                assert(node.0 < a0.nodes@.len());
                assert(layer_ends(a0.graph_of(), a0.layer_of(), g)[d] == Some(li));
                assert(placed(&a0, g, d));
                assert(!ns.take(j as int).contains(node.0)) by {
                    if ns.take(j as int).contains(node.0) {
                        let q = choose|q: int| 0 <= q < ns.take(j as int).len() && ns.take(j as int)[q] == node.0;
                        assert(ns[q] == ns[j as int]);
                    }
                }
                assert(!dummy_done(&a0, g, li as int, ns, j as int, d));
                assert(cur.nodes@[d].node_type == a0.nodes@[d].node_type);
            }
            if arena.nodes[node.0].node_type == NodeType::LongEdge {
                proof {
                    let pl = a0.port_lists()[d];
                    assert(dummy_joinable(&a0, g, d));
                    crate::layout::elk::alg::p1_cycles::lemma_port_list(&a0, node.0);
                    assert forall|k: int| 0 <= k < pl.len() implies pl[k] < a0.ports@.len() && pl[k] < cur.ports@.len() && (#[trigger] cur.ports@[
                        pl[k] as int]).side == a0.ports@[pl[k] as int].side by {
                    }
                    lemma_first_on_side_sides(&a0, &cur, pl, PortSide::West);
                    lemma_first_on_side_sides(&a0, &cur, pl, PortSide::East);
                    lemma_first_on_side(&a0, pl, PortSide::West);
                    let w = west_of(&a0, d);
                    let e = east_of(&a0, d);
                    assert(untouched(&a0, &cur, d));
                    assert(a0.owners()[w as int] == Some(node.0)) by {
                        let q = choose|q: int| 0 <= q < pl.len() && pl[q] == w;
                    }
                    assert forall|k: int| 0 <= k < cur.in_lists()[w as int].len() implies #[trigger] cur.targets()[cur.out_lists()[
                        e as int][k] as int] is Some && cur.targets()[cur.out_lists()[e as int][k] as int] != Some(w) by {
                        let f = a0.out_lists()[e as int][k];
                        assert(cur.targets()[f as int] == a0.targets()[f as int]);
                        assert(target_node(&a0, f) is Some);
                        let y = target_node(&a0, f)->0 as int;
                        assert(a0.layer_of()[y]->0 == li + 1);
                        if a0.targets()[f as int] == Some(w) {
                            assert(y == d);
                        }
                    }
                    assert(joinable(&cur, w, e));
                }
                join_at(arena, node);
                let ghost mid = *arena;
                arena.node_set_layer(graph, node, None);
                proof {
                    let nx = *arena;
                    let w = west_of(&a0, d);
                    let e = east_of(&a0, d);
                    assert(joined(&cur, &mid, w, e, cur.in_lists()[w as int].len() as int));
                    assert(nx.in_lists() == mid.in_lists());
                    assert(nx.out_lists() == mid.out_lists());
                    assert(nx.targets() == mid.targets());
                    assert(nx.owners() =~= a0.owners());
                    assert(nx.port_lists() =~= a0.port_lists());
                    assert(nx.graph_of() =~= a0.graph_of());
                    let now = ns.take(j + 1);
                    lemma_take_one_more(ns, j as int, 0);
                    assert forall|x: int| 0 <= x < a0.nodes@.len() implies #[trigger] dummy_done(&a0, g, li as int, ns, j + 1, x)
                        == (dummy_done(&a0, g, li as int, ns, j as int, x) || x == d) by {
                        lemma_take_one_more(ns, j as int, x as usize);
                    }
                    assert forall|x: int| 0 <= x < a0.nodes@.len() implies #[trigger] nx.nodes@[x] == (LNode {
                        layer: if dummy_done(&a0, g, li as int, ns, j + 1, x) {
                            None
                        } else {
                            a0.nodes@[x].layer
                        },
                        ..a0.nodes@[x]
                    }) by {
                        assert(nx.nodes@[x] == (LNode { layer: nx.nodes@[x].layer, ..mid.nodes@[x] }));
                        assert(nx.layer_of()[x] == nx.nodes@[x].layer);
                    }
                    assert forall|p: int| 0 <= p < a0.ports@.len() implies (#[trigger] nx.ports@[p]).side == a0.ports@[p].side by {
                        assert(mid.ports@[p] == (LPort {
                            incoming_edges: mid.ports@[p].incoming_edges,
                            outgoing_edges: mid.ports@[p].outgoing_edges,
                            ..cur.ports@[p]
                        }));
                    }
                    assert forall|l: int| li < l < count implies #[trigger] nx.layer_lists()[g][l] == a0.layer_lists()[g][l] by {
                        assert(mid.layer_lists() == cur.layer_lists());
                    }
                    assert forall|x: int|
                        0 <= x < a0.nodes@.len() && #[trigger] placed(&a0, g, x) && a0.nodes@[x].node_type == NodeType::LongEdge
                            && !dummy_done(&a0, g, li as int, ns, j + 1, x) implies untouched(&a0, &nx, x) by {
                        assert(x != d);
                        assert(untouched(&a0, &cur, x));
                        assert(dummy_joinable(&a0, g, x));
                        if a0.layer_of()[x]->0 < li {
                        }
                        lemma_join_others(&a0, &cur, &mid, g, d, x);
                    }
                    assert forall|x: int|
                        0 <= x < a0.nodes@.len() && #[trigger] dummy_done(&a0, g, li as int, ns, j + 1, x) implies joined_dummy(
                            &a0,
                            &nx,
                            x,
                        ) by {
                        if x == d {
                            let ws = cur.in_lists()[w as int];
                            assert(mid.in_lists()[w as int] == ws.skip(ws.len() as int));
                            assert(ws.skip(ws.len() as int) =~= Seq::<usize>::empty());
                            lemma_dummy_ports(&a0, d);
                        } else {
                            assert(dummy_joinable(&a0, g, x));
                            lemma_join_others(&a0, &cur, &mid, g, d, x);
                        }
                    }
                }
            } else {
                proof {
                    lemma_take_one_more(ns, j as int, 0);
                    assert forall|x: int| 0 <= x < a0.nodes@.len() implies #[trigger] dummy_done(&a0, g, li as int, ns, j + 1, x)
                        == dummy_done(&a0, g, li as int, ns, j as int, x) by {
                        lemma_take_one_more(ns, j as int, x as usize);
                    }
                }
            }
            j += 1;
        }
        li += 1;
        proof {
            assert(ns.take(nodes@.len() as int) =~= ns);
            assert forall|x: int| 0 <= x < a0.nodes@.len() implies #[trigger] dummy_done(&a0, g, li as int, Seq::empty(), 0, x)
                == dummy_done(&a0, g, li - 1, ns, nodes@.len() as int, x) by {
                if placed(&a0, g, x) && a0.layer_of()[x]->0 == li - 1 {
                    assert(layer_ends(a0.graph_of(), a0.layer_of(), g)[x] == Some((li - 1) as usize));
                    assert(ns.contains(x as usize));
                }
            }
        }
    }
    proof {
        assert forall|x: int| 0 <= x < a0.nodes@.len() implies #[trigger] dummy_done(&a0, g, li as int, Seq::empty(), 0, x) == (
        placed(&a0, g, x) && a0.nodes@[x].node_type == NodeType::LongEdge) by {
            if placed(&a0, g, x) {
                assert(layer_ends(a0.graph_of(), a0.layer_of(), g)[x] is Some);
            }
        }
    }
}


/// Joining a dummy that had no ports right after splitting an edge at it
/// undoes the split: the dummy's first west and east ports are the two it
/// got, it can be joined, and afterwards the edge keeps its source and
/// labels and ends at its old target again (now at the end of that port's
/// list), while the edge the split added is detached.
pub proof fn lemma_join_undoes_split(a: &LGraphArena, b: &LGraphArena, c: &LGraphArena, edge: usize, d: usize, r: usize)
    requires
        a.wf(),
        b.wf(),
        edge < a.edges@.len(),
        d < a.nodes@.len(),
        a.port_lists()[d as int].len() == 0,
        a.targets()[edge as int] is Some,
        edge_split(a, b, edge, d, r),
        joined(b, c, west_of(b, d as int), east_of(b, d as int), b.in_lists()[west_of(b, d as int) as int].len() as int),
    ensures
        first_on_side(b, b.port_lists()[d as int], PortSide::West) == Some(a.ports@.len() as usize),
        first_on_side(b, b.port_lists()[d as int], PortSide::East) == Some((a.ports@.len() + 1) as usize),
        joinable(b, west_of(b, d as int), east_of(b, d as int)),
        c.sources()[edge as int] == a.sources()[edge as int],
        c.targets()[edge as int] == a.targets()[edge as int],
        c.sources()[r as int] is None,
        c.targets()[r as int] is None,
        c.edge_label_lists()[edge as int] == a.edge_label_lists()[edge as int],
        c.in_lists()[a.targets()[edge as int]->0 as int] == a.in_lists()[a.targets()[edge as int]->0 as int].remove_value(edge).push(
            edge,
        ),
{
    let pn = a.ports@.len();
    let t = a.targets()[edge as int]->0;
    let pl = b.port_lists()[d as int];
    assert(pl =~= seq![pn as usize, (pn + 1) as usize]);
    assert(pl.subrange(1, pl.len() as int) =~= seq![(pn + 1) as usize]);
    assert(first_on_side(b, pl, PortSide::West) == Some(pn as usize));
    assert(first_on_side(b, pl.subrange(1, pl.len() as int), PortSide::East) == Some((pn + 1) as usize));
    assert(first_on_side(b, pl, PortSide::East) == Some((pn + 1) as usize));
    let w = pn as usize;
    let e = (pn + 1) as usize;
    assert(t < pn);
    let ws = b.in_lists()[w as int];
    let os = b.out_lists()[e as int];
    assert(ws =~= seq![edge]);
    assert(os =~= seq![r]);
    assert(b.targets()[r as int] == Some(t));
    assert(joinable(b, w, e));
    assert(ws.take(1) =~= seq![edge]);
    assert(os.take(1) =~= seq![r]);
    assert(seq![r][0] == r);
    assert(seq![r].contains(r));
    assert(seq![edge][0] == edge);
    assert(seq![edge].contains(edge));
    assert(!seq![r].contains(edge));
    lemma_index_of_unique(ws, 0);
    assert(c.targets()[edge as int] == b.targets()[r as int]);
    assert(c.edge_label_lists()[edge as int] =~= a.edge_label_lists()[edge as int]);
    let old_list = a.in_lists()[t as int];
    let rest = old_list.remove_value(edge);
    assert(old_list.no_duplicates());
    assert(b.in_lists()[t as int] == rest.push(r));
    assert forall|q: int| 0 <= q < rest.len() implies rest[q] != r && rest[q] != edge by {
        assert(old_list.contains(rest[q])) by {
            old_list.index_of_first_ensures(edge);
        }
        let k = choose|k: int| 0 <= k < old_list.len() && old_list[k] == rest[q];
        assert(old_list[k] < a.edges@.len());
        if rest[q] == edge {
            old_list.index_of_first_ensures(edge);
            let i = old_list.index_of_first(edge)->0;
            assert(rest == old_list.remove(i));
            if q < i {
                assert(rest[q] == old_list[q]);
            } else {
                assert(rest[q] == old_list[q + 1]);
            }
        }
    }
    assert forall|q: int| 0 <= q < rest.len() + 1 implies #[trigger] c.in_lists()[t as int][q] == rest.push(edge)[q] by {
        let x = rest.push(r)[q];
        if q < rest.len() {
            assert(x == rest[q]);
            assert(!seq![r].contains(x));
        } else {
            lemma_index_of_unique(seq![r], 0);
        }
    }
    assert(c.in_lists()[t as int] =~= rest.push(edge));
}

} // verus!
