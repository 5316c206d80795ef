//! Moving the label dummy of each long edge into the median layer the
//! edge spans. A label dummy sits in a chain of long-edge dummies; it
//! trades places with the chain member in the lower median of the
//! layers the chain covers, and every long-edge dummy that then precedes
//! it is marked as lying before the label.

use vstd::prelude::*;
use crate::layout::elk::alg::graph::{LGraphArena, LGraphId, LNode, LNodeId, NodeType};
use crate::layout::elk::alg::high_degree::{edges_in, edges_of, Dir};
use crate::layout::elk::alg::intermediate::{nodes_swapped, swap_nodes, swappable};
use crate::layout::elk::alg::options::NodeProps;
use crate::layout::elk::alg::p1_cycles::{lemma_incoming_member, lemma_outgoing_member, source_node, target_node};

verus! {

/// The node at the far end of the first edge of `x` in direction `dir`.
pub open spec fn next_on_chain(a: &LGraphArena, x: usize, dir: Dir) -> Option<usize> {
    let es = edges_in(a, x as int, dir);
    if es.len() == 0 {
        None
    } else if dir == Dir::Incoming {
        source_node(a, es[0])
    } else {
        target_node(a, es[0])
    }
}

/// The node reached from `x` after `k` steps of `next_on_chain`.
pub open spec fn walk(a: &LGraphArena, x: usize, dir: Dir, k: nat) -> Option<usize>
    decreases k,
{
    if k == 0 {
        Some(x)
    } else {
        match walk(a, x, dir, (k - 1) as nat) {
            Some(y) => if y < a.nodes@.len() {
                next_on_chain(a, y, dir)
            } else {
                None
            },
            None => None,
        }
    }
}

/// Node `x` exists and is a long-edge dummy.
pub open spec fn is_long_edge(a: &LGraphArena, x: usize) -> bool {
    x < a.nodes@.len() && a.nodes@[x as int].node_type == NodeType::LongEdge
}

/// Walking from `x` in direction `dir` passes `k - 1` long-edge dummies
/// and then reaches a node of another kind.
pub open spec fn chain_ends_at(a: &LGraphArena, x: usize, dir: Dir, k: nat) -> bool {
    &&& 1 <= k
    &&& forall|j: nat| 1 <= j < k ==> #[trigger] walk(a, x, dir, j) is Some && is_long_edge(a, walk(a, x, dir, j)->0)
    &&& walk(a, x, dir, k) is Some
    &&& walk(a, x, dir, k)->0 < a.nodes@.len()
    &&& !is_long_edge(a, walk(a, x, dir, k)->0)
}

/// Walking from `x` in direction `dir` leaves the long-edge dummies after
/// finitely many steps.
pub open spec fn chain_ends(a: &LGraphArena, x: usize, dir: Dir) -> bool {
    exists|k: nat| chain_ends_at(a, x, dir, k)
}

/// A walk leaves the long-edge dummies after one number of steps only.
pub proof fn lemma_chain_end_unique(a: &LGraphArena, x: usize, dir: Dir, k1: nat, k2: nat)
    requires
        chain_ends_at(a, x, dir, k1),
        chain_ends_at(a, x, dir, k2),
    ensures
        k1 == k2,
{
    if k1 < k2 {
        assert(walk(a, x, dir, k1) is Some && is_long_edge(a, walk(a, x, dir, k1)->0));
    } else if k2 < k1 {
        assert(walk(a, x, dir, k2) is Some && is_long_edge(a, walk(a, x, dir, k2)->0));
    }
}

/// The long-edge dummies met walking from `node` in direction `dir`, in
/// the order they are met, up to the first node of another kind.
pub fn chain(arena: &LGraphArena, node: LNodeId, dir: Dir) -> (r: Vec<LNodeId>)
    requires
        arena.wf(),
        node.0 < arena.nodes@.len(),
        chain_ends(arena, node.0, dir),
    ensures
        chain_ends_at(arena, node.0, dir, (r.len() + 1) as nat),
        forall|i: int| 0 <= i < r.len() ==> Some(#[trigger] r@[i].0) == walk(arena, node.0, dir, (i + 1) as nat),
{
    let ghost k = choose|k: nat| chain_ends_at(arena, node.0, dir, k);
    let mut r: Vec<LNodeId> = Vec::new();
    let mut cur = node;
    loop
        invariant
            arena.wf(),
            node.0 < arena.nodes@.len(),
            chain_ends_at(arena, node.0, dir, k),
            r.len() + 1 <= k,
            walk(arena, node.0, dir, r.len() as nat) == Some(cur.0),
            cur.0 < arena.nodes@.len(),
            forall|i: int| 0 <= i < r.len() ==> Some(#[trigger] r@[i].0) == walk(arena, node.0, dir, (i + 1) as nat),
        decreases k - r.len(),
    {
        let ghost j = (r.len() + 1) as nat;
        proof {
            if j < k {
                assert(walk(arena, node.0, dir, j) is Some);
            }
            assert(walk(arena, node.0, dir, j) == next_on_chain(arena, cur.0, dir));
            assert(edges_in(arena, cur.0 as int, dir).len() > 0);
            let e = edges_in(arena, cur.0 as int, dir)[0];
            assert(edges_in(arena, cur.0 as int, dir).contains(e));
            lemma_incoming_member(arena, cur.0, e);
            lemma_outgoing_member(arena, cur.0, e);
        }
        let edges = edges_of(arena, cur, dir);
        proof {
            assert(edges@[0].0 == edges_in(arena, cur.0 as int, dir)[0]);
        }
        let e = edges[0];
        let nxt = match dir {
            Dir::Incoming => arena.edge_source_node(e).unwrap(),
            Dir::Outgoing => arena.edge_target_node(e).unwrap(),
        };
        proof {
            assert(walk(arena, node.0, dir, j) == Some(nxt.0));
            if j < k {
                assert(is_long_edge(arena, walk(arena, node.0, dir, j)->0));
            }
        }
        if arena.nodes[nxt.0].node_type == NodeType::LongEdge {
            proof {
                assert(j != k);
            }
            r.push(nxt);
            cur = nxt;
        } else {
            proof {
                if j < k {
                    assert(is_long_edge(arena, walk(arena, node.0, dir, j)->0));
                }
            }
            return r;
        }
    }
}

/// Whether node `x` exists and is a label dummy.
pub open spec fn is_label(a: &LGraphArena, x: usize) -> bool {
    x < a.nodes@.len() && a.nodes@[x as int].node_type == NodeType::Label
}

/// The label dummies of `s`, in order.
pub open spec fn labels_of(a: &LGraphArena, s: Seq<usize>) -> Seq<usize>
    decreases s.len(),
{
    if s.len() == 0 {
        Seq::empty()
    } else if is_label(a, s.last()) {
        labels_of(a, s.drop_last()).push(s.last())
    } else {
        labels_of(a, s.drop_last())
    }
}

/// The label dummies of the layers `lists`, layer by layer.
pub open spec fn labels_in(a: &LGraphArena, lists: Seq<Seq<usize>>) -> Seq<usize>
    decreases lists.len(),
{
    if lists.len() == 0 {
        Seq::empty()
    } else {
        labels_in(a, lists.drop_last()) + labels_of(a, lists.last())
    }
}

/// The label dummies of graph `g`, layer by layer and in layer order.
pub open spec fn label_dummies(a: &LGraphArena, g: int) -> Seq<usize> {
    labels_in(a, a.layer_lists()[g])
}

/// The chains around label dummy `x` end in both directions, and the
/// outermost long-edge dummy on each side has a layer.
pub open spec fn collectible(a: &LGraphArena, x: usize) -> bool {
    &&& chain_ends(a, x, Dir::Incoming)
    &&& chain_ends(a, x, Dir::Outgoing)
    &&& forall|k: nat|
        #[trigger] chain_ends_at(a, x, Dir::Incoming, k) && k > 1 ==> a.layer_of()[walk(a, x, Dir::Incoming, (k - 1) as nat)->0 as int] is Some
    &&& forall|k: nat|
        #[trigger] chain_ends_at(a, x, Dir::Outgoing, k) && k > 1 ==> a.layer_of()[walk(a, x, Dir::Outgoing, (k - 1) as nat)->0 as int] is Some
}

/// A label dummy with the long-edge dummies of its edge before it
/// (`left`, source side first) and after it (`right`), and the layers of
/// the outermost of them.
pub struct LabelDummyInfo {
    pub label_dummy: LNodeId,
    pub left: Vec<LNodeId>,
    pub right: Vec<LNodeId>,
    pub leftmost_layer: usize,
    pub rightmost_layer: usize,
}

/// `info` describes label dummy `x` of `a`.
pub open spec fn info_of(a: &LGraphArena, x: usize, info: LabelDummyInfo) -> bool {
    let nl = info.left@.len();
    let nr = info.right@.len();
    &&& info.label_dummy.0 == x
    &&& chain_ends_at(a, x, Dir::Incoming, (nl + 1) as nat)
    &&& chain_ends_at(a, x, Dir::Outgoing, (nr + 1) as nat)
    &&& forall|i: int| 0 <= i < nl ==> Some(#[trigger] info.left@[i].0) == walk(a, x, Dir::Incoming, (nl - i) as nat)
    &&& forall|i: int| 0 <= i < nr ==> Some(#[trigger] info.right@[i].0) == walk(a, x, Dir::Outgoing, (i + 1) as nat)
    &&& Some(info.leftmost_layer) == a.layer_of()[(if nl > 0 { info.left@[0].0 } else { x }) as int]
    &&& Some(info.rightmost_layer) == a.layer_of()[(if nr > 0 { info.right@[nr - 1].0 } else { x }) as int]
}

/// The description of label dummy `node`.
pub fn label_dummy_info(arena: &LGraphArena, node: LNodeId) -> (r: LabelDummyInfo)
    requires
        arena.wf(),
        node.0 < arena.nodes@.len(),
        arena.layer_of()[node.0 as int] is Some,
        collectible(arena, node.0),
    ensures
        info_of(arena, node.0, r),
{
    let back = chain(arena, node, Dir::Incoming);
    let mut left: Vec<LNodeId> = Vec::new();
    let mut j = back.len();
    while j > 0
        invariant
            j <= back@.len(),
            left@.len() == back@.len() - j,
            forall|i: int| 0 <= i < left@.len() ==> #[trigger] left@[i] == back@[back@.len() - 1 - i],
        decreases j,
    {
        j -= 1;
        left.push(back[j]);
    }
    let right = chain(arena, node, Dir::Outgoing);
    proof {
        assert forall|i: int| 0 <= i < left@.len() implies Some(#[trigger] left@[i].0) == walk(
            arena,
            node.0,
            Dir::Incoming,
            (left@.len() - i) as nat,
        ) by {
            assert(left@[i] == back@[back@.len() - 1 - i]);
        }
        assert(chain_ends_at(arena, node.0, Dir::Incoming, (back@.len() + 1) as nat));
        assert(chain_ends_at(arena, node.0, Dir::Outgoing, (right@.len() + 1) as nat));
        if left@.len() > 0 {
            assert(left@[0] == back@[back@.len() - 1]);
            assert(Some(back@[back@.len() - 1].0) == walk(arena, node.0, Dir::Incoming, back@.len() as nat));
            assert(arena.layer_of()[left@[0].0 as int] is Some);
        }
        if right@.len() > 0 {
            assert(Some(right@[right@.len() - 1].0) == walk(arena, node.0, Dir::Outgoing, right@.len() as nat));
            assert(arena.layer_of()[right@[right@.len() - 1].0 as int] is Some);
        }
    }
    let leftmost_layer = if left.len() > 0 {
        arena.nodes[left[0].0].layer.unwrap()
    } else {
        arena.nodes[node.0].layer.unwrap()
    };
    let rightmost_layer = if right.len() > 0 {
        arena.nodes[right[right.len() - 1].0].layer.unwrap()
    } else {
        arena.nodes[node.0].layer.unwrap()
    };
    LabelDummyInfo { label_dummy: node, left, right, leftmost_layer, rightmost_layer }
}

/// Every label dummy in a layer of graph `g` can be described.
pub open spec fn all_collectible(a: &LGraphArena, g: int) -> bool {
    forall|l: int, k: int|
        0 <= l < a.layer_lists()[g].len() && 0 <= k < a.layer_lists()[g][l].len() && is_label(
            a,
            #[trigger] a.layer_lists()[g][l][k],
        ) ==> collectible(a, a.layer_lists()[g][l][k])
}

/// `infos` describes, in order, the label dummies of graph `g`.
pub open spec fn infos_of(a: &LGraphArena, g: int, infos: Seq<LabelDummyInfo>) -> bool {
    &&& infos.len() == label_dummies(a, g).len()
    &&& forall|i: int| 0 <= i < infos.len() ==> info_of(a, label_dummies(a, g)[i], #[trigger] infos[i])
}

/// The description of each label dummy of `graph`, layer by layer and
/// in layer order.
pub fn label_dummy_infos(arena: &LGraphArena, graph: LGraphId) -> (r: Vec<LabelDummyInfo>)
    requires
        arena.wf(),
        graph.0 < arena.graphs@.len(),
        all_collectible(arena, graph.0 as int),
    ensures
        infos_of(arena, graph.0 as int, r@),
{
    let ghost g = graph.0 as int;
    let ghost lists = arena.layer_lists()[g];
    let mut infos: Vec<LabelDummyInfo> = Vec::new();
    let n_layers = arena.graphs[graph.0].layers.len();
    let mut li: usize = 0;
    proof {
        assert(lists.take(0) =~= Seq::<Seq<usize>>::empty());
    }
    while li < n_layers
        invariant
            arena.wf(),
            g == graph.0,
            graph.0 < arena.graphs@.len(),
            all_collectible(arena, g),
            lists == arena.layer_lists()[g],
            n_layers == lists.len(),
            li <= n_layers,
            infos@.len() == labels_in(arena, lists.take(li as int)).len(),
            forall|i: int| 0 <= i < infos@.len() ==> info_of(arena, labels_in(arena, lists.take(li as int))[i], #[trigger] infos@[i]),
        decreases n_layers - li,
    {
        let ghost before = labels_in(arena, lists.take(li as int));
        let ghost layer = lists[li as int];
        let n = arena.graphs[graph.0].layers[li].nodes.len();
        proof {
            assert(n == layer.len());
            assert(layer.take(0) =~= Seq::<usize>::empty());
        }
        let mut ni: usize = 0;
        while ni < n
            invariant
                arena.wf(),
                g == graph.0,
                graph.0 < arena.graphs@.len(),
                all_collectible(arena, g),
                lists == arena.layer_lists()[g],
                n_layers == lists.len(),
                li < n_layers,
                layer == lists[li as int],
                n == layer.len(),
                ni <= n,
                infos@.len() == (before + labels_of(arena, layer.take(ni as int))).len(),
                forall|i: int|
                    0 <= i < infos@.len() ==> info_of(arena, (before + labels_of(arena, layer.take(ni as int)))[i], #[trigger] infos@[i]),
            decreases n - ni,
        {
            let node = arena.graphs[graph.0].layers[li].nodes[ni];
            proof {
                assert(node.0 == layer[ni as int]);
                let ends = crate::layout::elk::alg::graph::layer_ends(arena.graph_of(), arena.layer_of(), g);
                assert(crate::layout::elk::alg::graph::in_sync(ends, lists));
                assert(ends[layer[ni as int] as int] == Some(li));
                assert(layer.take(ni as int + 1).drop_last() =~= layer.take(ni as int));
                assert(layer.take(ni as int + 1).last() == node.0);
            }
            if arena.nodes[node.0].node_type == NodeType::Label {
                proof {
                    assert(is_label(arena, lists[li as int][ni as int]));
                    assert(collectible(arena, node.0));
                }
                let info = label_dummy_info(arena, node);
                let ghost old_infos = infos@;
                infos.push(info);
                proof {
                    assert((before + labels_of(arena, layer.take(ni as int + 1))) =~= (before + labels_of(
                        arena,
                        layer.take(ni as int),
                    )).push(node.0));
                    assert forall|i: int| 0 <= i < infos@.len() implies info_of(
                        arena,
                        (before + labels_of(arena, layer.take(ni as int + 1)))[i],
                        #[trigger] infos@[i],
                    ) by {
                        if i < old_infos.len() {
                            assert(infos@[i] == old_infos[i]);
                        }
                    }
                }
            } else {
                proof {
                    assert(!is_label(arena, node.0));
                    assert(labels_of(arena, layer.take(ni as int + 1)) == labels_of(arena, layer.take(ni as int)));
                }
            }
            ni += 1;
        }
        proof {
            assert(layer.take(n as int) =~= layer);
            assert(lists.take(li as int + 1).drop_last() =~= lists.take(li as int));
            assert(lists.take(li as int + 1).last() == layer);
            assert(labels_in(arena, lists.take(li as int + 1)) == before + labels_of(arena, layer));
        }
        li += 1;
    }
    proof {
        assert(lists.take(n_layers as int) =~= lists);
    }
    infos
}

/// The chain of `info`: the long-edge dummies before the label dummy,
/// the label dummy, and the long-edge dummies after it.
pub open spec fn chain_of(info: LabelDummyInfo) -> Seq<usize> {
    info.left@.map_values(|n: LNodeId| n.0).push(info.label_dummy.0) + info.right@.map_values(|n: LNodeId| n.0)
}

/// The position, in the chain of `info`, of the lower median of the
/// layers the chain spans.
pub open spec fn median_index(info: LabelDummyInfo) -> int {
    (info.rightmost_layer - info.leftmost_layer) / 2
}

/// The chain member the label dummy of `info` trades places with; none
/// where the label dummy already lies in the median layer.
pub open spec fn partner(info: LabelDummyInfo) -> Option<usize> {
    if median_index(info) == info.left@.len() {
        None
    } else {
        Some(chain_of(info)[median_index(info)])
    }
}

/// Node `n` marked as a long-edge dummy lying before a label dummy.
pub open spec fn marked(n: LNode) -> LNode {
    LNode { props: NodeProps { long_edge_before_label_dummy: true, ..n.props }, ..n }
}

/// Node `n` is one of the first `k - 1` nodes met walking from `x`
/// against the edges.
pub open spec fn before_on_chain(a: &LGraphArena, x: usize, k: nat, n: int) -> bool {
    exists|j: nat| 1 <= j < k && #[trigger] walk(a, x, Dir::Incoming, j) == Some(n as usize)
}

/// `b` is `a` with each long-edge dummy met walking from label dummy `x`
/// against the edges marked, up to the first node of another kind.
pub open spec fn predecessors_marked(a: &LGraphArena, b: &LGraphArena, x: usize) -> bool {
    exists|k: nat|
        {
            &&& #[trigger] chain_ends_at(a, x, Dir::Incoming, k)
            &&& b.graphs == a.graphs
            &&& b.ports == a.ports
            &&& b.edges == a.edges
            &&& b.labels == a.labels
            &&& b.nodes@.len() == a.nodes@.len()
            &&& forall|n: int|
                0 <= n < a.nodes@.len() ==> #[trigger] b.nodes@[n] == if before_on_chain(a, x, k, n) {
                    marked(a.nodes@[n])
                } else {
                    a.nodes@[n]
                }
        }
}

/// One step of the switch, for the label dummy of `info`: it trades
/// places with its partner, if it has one, and then the long-edge dummies
/// before it are marked.
pub open spec fn switched(a: &LGraphArena, b: &LGraphArena, g: usize, info: LabelDummyInfo) -> bool {
    match partner(info) {
        Some(o) => exists|mid: LGraphArena|
            nodes_swapped(a, &mid, g, info.label_dummy.0, o) && #[trigger] predecessors_marked(&mid, b, info.label_dummy.0),
        None => predecessors_marked(a, b, info.label_dummy.0),
    }
}

/// `b` is what the first `n` steps of the switch make of `a`: there are
/// states from `a` to `b`, each obtained from the one before by a step.
pub open spec fn ran(a: LGraphArena, b: LGraphArena, g: usize, infos: Seq<LabelDummyInfo>, n: nat) -> bool {
    exists|states: Seq<LGraphArena>|
        {
            &&& #[trigger] states.len() == n + 1
            &&& states[0] == a
            &&& states[n as int] == b
            &&& forall|j: int| 0 <= j < n ==> switched(&#[trigger] states[j], &states[j + 1], g, infos[j])
        }
}

/// The step for `info` can be taken in `a`: the span of its layers is
/// ordered, its median lies on its chain, the label dummy and its
/// partner can trade places, and afterwards the walk back from the label
/// dummy leaves the long-edge dummies.
pub open spec fn step_ok(a: &LGraphArena, g: usize, info: LabelDummyInfo) -> bool {
    &&& a.wf()
    &&& g < a.graphs@.len()
    &&& info.leftmost_layer <= info.rightmost_layer
    &&& median_index(info) < chain_of(info).len()
    &&& match partner(info) {
        Some(o) => swappable(a, g, info.label_dummy.0, o) && forall|mid: LGraphArena|
            #[trigger] nodes_swapped(a, &mid, g, info.label_dummy.0, o) ==> chain_ends(&mid, info.label_dummy.0, Dir::Incoming),
        None => info.label_dummy.0 < a.nodes@.len() && chain_ends(a, info.label_dummy.0, Dir::Incoming),
    }
}

/// Each step of the switch of graph `g` of `a` can be taken in the state
/// the steps before it lead to.
pub open spec fn switchable(a: &LGraphArena, g: usize) -> bool {
    forall|infos: Seq<LabelDummyInfo>, i: nat, cur: LGraphArena|
        infos_of(a, g as int, infos) && i < infos.len() && #[trigger] ran(*a, cur, g, infos, i) ==> step_ok(&cur, g, infos[i as int])
}

/// Marks the long-edge dummies met walking from label dummy `x` against
/// the edges.
fn mark_predecessors(arena: &mut LGraphArena, x: LNodeId)
    requires
        old(arena).wf(),
        x.0 < old(arena).nodes@.len(),
        chain_ends(&*old(arena), x.0, Dir::Incoming),
    ensures
        final(arena).wf(),
        predecessors_marked(&*old(arena), &*final(arena), x.0),
{
    let ghost a0 = *arena;
    let preds = chain(arena, x, Dir::Incoming);
    let ghost k = (preds@.len() + 1) as nat;
    let mut j: usize = 0;
    while j < preds.len()
        invariant
            a0.wf(),
            chain_ends_at(&a0, x.0, Dir::Incoming, k),
            k == preds@.len() + 1,
            forall|i: int| 0 <= i < preds@.len() ==> Some(#[trigger] preds@[i].0) == walk(&a0, x.0, Dir::Incoming, (i + 1) as nat),
            j <= preds@.len(),
            arena.graphs == a0.graphs,
            arena.ports == a0.ports,
            arena.edges == a0.edges,
            arena.labels == a0.labels,
            arena.nodes@.len() == a0.nodes@.len(),
            forall|n: int|
                0 <= n < a0.nodes@.len() ==> #[trigger] arena.nodes@[n] == if exists|i: int|
                    0 <= i < j && #[trigger] preds@[i].0 == n as usize {
                    marked(a0.nodes@[n])
                } else {
                    a0.nodes@[n]
                },
        decreases preds@.len() - j,
    {
        let p = preds[j];
        proof {
            assert(walk(&a0, x.0, Dir::Incoming, (j + 1) as nat) is Some && is_long_edge(
                &a0,
                walk(&a0, x.0, Dir::Incoming, (j + 1) as nat)->0,
            ));
            assert(p.0 < a0.nodes@.len());
        }
        let ghost before = arena.nodes@;
        arena.nodes[p.0].props.long_edge_before_label_dummy = true;
        proof {
            assert forall|n: int| 0 <= n < a0.nodes@.len() implies #[trigger] arena.nodes@[n] == if exists|i: int|
                0 <= i < j + 1 && #[trigger] preds@[i].0 == n as usize {
                marked(a0.nodes@[n])
            } else {
                a0.nodes@[n]
            } by {
                if n == p.0 {
                    assert(preds@[j as int].0 == n as usize);
                } else {
                    assert(a0.nodes@.len() == a0.nodes.len());
                    assert(n as usize as int == n);
                    assert(arena.nodes@[n] == before[n]);
                    if exists|i: int| 0 <= i < j + 1 && #[trigger] preds@[i].0 == n as usize {
                        let i = choose|i: int| 0 <= i < j + 1 && #[trigger] preds@[i].0 == n as usize;
                        assert(i != j);
                    }
                }
            }
        }
        j += 1;
    }
    proof {
        assert(arena.layer_of() =~= a0.layer_of());
        assert(arena.graph_of() =~= a0.graph_of());
        assert(arena.port_lists() =~= a0.port_lists());
        assert(arena.layer_lists() =~= a0.layer_lists());
        assert(arena.layerless_lists() =~= a0.layerless_lists());
        assert forall|n: int| 0 <= n < a0.nodes@.len() implies #[trigger] arena.nodes@[n] == if before_on_chain(&a0, x.0, k, n) {
            marked(a0.nodes@[n])
        } else {
            a0.nodes@[n]
        } by {
            if before_on_chain(&a0, x.0, k, n) {
                let jj = choose|jj: nat| 1 <= jj < k && #[trigger] walk(&a0, x.0, Dir::Incoming, jj) == Some(n as usize);
                assert(preds@[jj - 1].0 == n as usize);
            }
            if exists|i: int| 0 <= i < preds@.len() && #[trigger] preds@[i].0 == n as usize {
                let i = choose|i: int| 0 <= i < preds@.len() && #[trigger] preds@[i].0 == n as usize;
                assert(walk(&a0, x.0, Dir::Incoming, (i + 1) as nat) == Some(n as usize));
                assert(before_on_chain(&a0, x.0, k, n));
            }
        }
        assert(chain_ends_at(&a0, x.0, Dir::Incoming, k));
    }
}

/// Doing nothing is a run of no steps.
proof fn lemma_ran_start(a: LGraphArena, g: usize, infos: Seq<LabelDummyInfo>)
    ensures
        ran(a, a, g, infos, 0),
{
    let states = seq![a];
    assert(states.len() == 0 + 1);
}

/// One more step extends a run.
proof fn lemma_ran_step(a: LGraphArena, mid: LGraphArena, b: LGraphArena, g: usize, infos: Seq<LabelDummyInfo>, n: nat)
    requires
        ran(a, mid, g, infos, n),
        switched(&mid, &b, g, infos[n as int]),
    ensures
        ran(a, b, g, infos, n + 1),
{
    let states = choose|states: Seq<LGraphArena>|
        {
            &&& #[trigger] states.len() == n + 1
            &&& states[0] == a
            &&& states[n as int] == mid
            &&& forall|j: int| 0 <= j < n ==> switched(&#[trigger] states[j], &states[j + 1], g, infos[j])
        };
    let more = states.push(b);
    assert(more.len() == (n + 1) + 1);
    assert forall|j: int| 0 <= j < n + 1 implies switched(&#[trigger] more[j], &more[j + 1], g, infos[j]) by {
        if j < n {
            assert(more[j] == states[j] && more[j + 1] == states[j + 1]);
        } else {
            assert(more[j] == mid && more[j + 1] == b);
        }
    }
}

/// Moves each label dummy of `graph` into the lower median layer of the
/// chain of long-edge dummies it sits in, trading places with the chain
/// member there, and marks the long-edge dummies that then precede it.
/// The label dummies are described first, layer by layer and in layer
/// order, and then handled in that order.
pub fn label_dummy_switcher(arena: &mut LGraphArena, graph: LGraphId)
    requires
        old(arena).wf(),
        graph.0 < old(arena).graphs@.len(),
        all_collectible(&*old(arena), graph.0 as int),
        switchable(&*old(arena), graph.0),
    ensures
        exists|infos: Seq<LabelDummyInfo>|
            infos_of(&*old(arena), graph.0 as int, infos) && #[trigger] ran(
                *old(arena),
                *final(arena),
                graph.0,
                infos,
                infos.len(),
            ),
{
    let ghost a0 = *arena;
    let ghost g = graph.0;
    let infos = label_dummy_infos(arena, graph);
    let mut i: usize = 0;
    proof {
        lemma_ran_start(a0, g, infos@);
    }
    while i < infos.len()
        invariant
            g == graph.0,
            infos_of(&a0, g as int, infos@),
            switchable(&a0, g),
            i <= infos@.len(),
            ran(a0, *arena, g, infos@, i as nat),
        decreases infos@.len() - i,
    {
        let ghost cur = *arena;
        proof {
            assert(step_ok(&cur, g, infos@[i as int]));
        }
        let info = &infos[i];
        let x = info.label_dummy;
        let nl = info.left.len();
        let m = (info.rightmost_layer - info.leftmost_layer) / 2;
        proof {
            assert(m as int == median_index(*info));
            assert(chain_of(*info).len() == nl + 1 + info.right@.len());
        }
        if m != nl {
            let other = if m < nl {
                info.left[m]
            } else {
                info.right[m - nl - 1]
            };
            proof {
                assert(chain_of(*info)[m as int] == other.0);
                assert(partner(*info) == Some(other.0));
            }
            swap_nodes(arena, graph, x, other);
            let ghost mid = *arena;
            proof {
                assert(nodes_swapped(&cur, &mid, g, x.0, other.0));
                assert(chain_ends(&mid, x.0, Dir::Incoming));
            }
            mark_predecessors(arena, x);
            proof {
                assert(predecessors_marked(&mid, &*arena, x.0));
                assert(switched(&cur, &*arena, g, *info));
            }
        } else {
            proof {
                assert(partner(*info) is None);
            }
            mark_predecessors(arena, x);
            proof {
                assert(switched(&cur, &*arena, g, *info));
            }
        }
        proof {
            assert(infos@[i as int] == *info);
            lemma_ran_step(a0, cur, *arena, g, infos@, i as nat);
        }
        i += 1;
    }
}

} // verus!
