//! The comparators that establish a model-order-respecting initial order
//! of the nodes in a layer and of the ports of a node.
//!
//! Each comparator remembers the decisions it has made as a strict order:
//! `bigger_than[x]` holds what `x` was ordered after, `smaller_than[x]`
//! what `x` was ordered before. Recording a new decision closes both
//! relations transitively, so later comparisons stay consistent with
//! earlier ones. Elements are keyed by their arena index.

use vstd::prelude::*;
use std::collections::{HashMap, HashSet};
use crate::layout::elk::alg::graph::{LGraphArena, LGraphId, LNodeId, LPortId};
use crate::layout::elk::alg::options::{rightward_side, OrderingStrategy, PortSide};

verus! {

broadcast use vstd::std_specs::hash::group_hash_axioms;

/// A model order, or -1 for an element that has none.
pub fn model_order_or(mo: Option<i32>) -> (r: i32)
    ensures
        r == match mo {
            Some(v) => v as int,
            None => -1,
        },
{
    match mo {
        Some(v) => v,
        None => -1,
    }
}

/// An order relation as a map from each element to a set of elements.
pub open spec fn relation_view(m: HashMap<usize, HashSet<usize>>) -> Map<usize, Set<usize>> {
    m@.map_values(|s: HashSet<usize>| s@)
}

/// The elements related to `k` (none when `k` has no entry).
pub open spec fn related(m: Map<usize, Set<usize>>, k: usize) -> Set<usize> {
    if m.dom().contains(k) {
        m[k]
    } else {
        Set::empty()
    }
}

/// `m` with every element of `vals` added to the entry of every key in
/// `keys`.
pub open spec fn add_all(m: Map<usize, Set<usize>>, keys: Set<usize>, vals: Set<usize>) -> Map<usize, Set<usize>> {
    Map::new(
        |k: usize| m.dom().contains(k) || keys.contains(k),
        |k: usize| if keys.contains(k) { related(m, k).union(vals) } else { m[k] },
    )
}

/// The `bigger_than` relation after recording `bigger > smaller`: every
/// element at or above `bigger` becomes bigger than every element at or
/// below `smaller`.
pub open spec fn recorded_bigger(
    b: Map<usize, Set<usize>>,
    s: Map<usize, Set<usize>>,
    bigger: usize,
    smaller: usize,
) -> Map<usize, Set<usize>> {
    add_all(b, related(s, bigger).insert(bigger), related(b, smaller).insert(smaller))
}

/// The `smaller_than` relation after recording `bigger > smaller`.
pub open spec fn recorded_smaller(
    b: Map<usize, Set<usize>>,
    s: Map<usize, Set<usize>>,
    bigger: usize,
    smaller: usize,
) -> Map<usize, Set<usize>> {
    add_all(s, related(b, smaller).insert(smaller), related(s, bigger).insert(bigger))
}

/// `s` lists exactly the elements of `b`, inverted.
pub open spec fn mirrored(b: Map<usize, Set<usize>>, s: Map<usize, Set<usize>>) -> bool {
    forall|x: usize, y: usize| #[trigger] related(b, x).contains(y) <==> #[trigger] related(s, y).contains(x)
}

/// The relation is transitive.
pub open spec fn transitive(b: Map<usize, Set<usize>>) -> bool {
    forall|x: usize, y: usize, z: usize|
        #[trigger] related(b, x).contains(y) && #[trigger] related(b, y).contains(z) ==> related(b, x).contains(z)
}

proof fn lemma_related_add_all(m: Map<usize, Set<usize>>, keys: Set<usize>, vals: Set<usize>, k: usize)
    ensures
        related(add_all(m, keys, vals), k) == if keys.contains(k) {
            related(m, k).union(vals)
        } else {
            related(m, k)
        },
{
    let a = add_all(m, keys, vals);
    if keys.contains(k) {
        assert(a.dom().contains(k));
    } else if m.dom().contains(k) {
        assert(a.dom().contains(k));
    } else {
        assert(!a.dom().contains(k));
    }
}

/// Recording a decision keeps the two relations each other's inverse and
/// transitive, and records the decision itself.
pub proof fn lemma_record_keeps_closure(
    b: Map<usize, Set<usize>>,
    s: Map<usize, Set<usize>>,
    bigger: usize,
    smaller: usize,
)
    requires
        mirrored(b, s),
        transitive(b),
    ensures
        mirrored(recorded_bigger(b, s, bigger, smaller), recorded_smaller(b, s, bigger, smaller)),
        transitive(recorded_bigger(b, s, bigger, smaller)),
        related(recorded_bigger(b, s, bigger, smaller), bigger).contains(smaller),
        related(recorded_smaller(b, s, bigger, smaller), smaller).contains(bigger),
{
    let keys = related(s, bigger).insert(bigger);
    let vals = related(b, smaller).insert(smaller);
    let b2 = recorded_bigger(b, s, bigger, smaller);
    let s2 = recorded_smaller(b, s, bigger, smaller);
    assert forall|x: usize| #[trigger] related(b2, x) == if keys.contains(x) {
        related(b, x).union(vals)
    } else {
        related(b, x)
    } by {
        lemma_related_add_all(b, keys, vals, x);
    }
    assert forall|y: usize| #[trigger] related(s2, y) == if vals.contains(y) {
        related(s, y).union(keys)
    } else {
        related(s, y)
    } by {
        lemma_related_add_all(s, vals, keys, y);
    }
    assert forall|x: usize, y: usize| #[trigger] related(b2, x).contains(y) <==> #[trigger] related(s2, y).contains(x) by {
        assert(related(b, x).contains(y) <==> related(s, y).contains(x));
    }
    assert forall|x: usize, y: usize, z: usize|
        #[trigger] related(b2, x).contains(y) && #[trigger] related(b2, y).contains(z) implies related(b2, x).contains(z) by {
        assert(related(b, x).contains(y) <==> related(s, y).contains(x));
        assert(related(b, y).contains(z) <==> related(s, z).contains(y));
        assert(related(b, bigger).contains(y) <==> related(s, y).contains(bigger));
        assert(related(b, y).contains(bigger) <==> related(s, bigger).contains(y));
        if related(b, x).contains(y) && related(b, y).contains(z) {
        } else if keys.contains(x) && vals.contains(y) && related(b, y).contains(z) {
            if y != smaller {
                assert(related(b, smaller).contains(y));
            }
        } else if related(b, x).contains(y) && keys.contains(y) && vals.contains(z) {
            if y == bigger {
                assert(related(s, bigger).contains(x));
            } else {
                assert(related(s, bigger).contains(y));
                assert(related(b, y).contains(bigger));
                assert(related(b, x).contains(bigger));
                assert(related(s, bigger).contains(x));
            }
        }
    }
}

/// The elements related to `k`, in no particular order.
fn related_elems(m: &HashMap<usize, HashSet<usize>>, k: usize) -> (r: Vec<usize>)
    ensures
        r@.to_set() == related(relation_view(*m), k),
{
    match m.get(&k) {
        Some(set) => {
            let mut r: Vec<usize> = Vec::new();
            for x in it: set.iter()
                invariant
                    r@ == it.seq().unref().take(it.index()),
                    it.seq().unref().take(it.seq().len() as int) == it.seq().unref(),
                    it.seq().unref().to_set() == set@,
            {
                r.push(*x);
            }
            proof {
                assert(relation_view(*m).dom().contains(k));
                assert(related(relation_view(*m), k) == set@);
            }
            r
        },
        None => {
            let r: Vec<usize> = Vec::new();
            proof {
                assert(r@.to_set() =~= Set::<usize>::empty());
            }
            r
        },
    }
}

/// Adds `v` to the entry of `k`.
fn relate(m: &mut HashMap<usize, HashSet<usize>>, k: usize, v: usize)
    ensures
        relation_view(*final(m)) == relation_view(*old(m)).insert(k, related(relation_view(*old(m)), k).insert(v)),
{
    let ghost before = relation_view(*m);
    let mut set = match m.remove(&k) {
        Some(s) => s,
        None => HashSet::new(),
    };
    proof {
        assert(set@ == related(before, k));
    }
    set.insert(v);
    m.insert(k, set);
    proof {
        assert(relation_view(*m) =~= before.insert(k, related(before, k).insert(v)));
    }
}

/// Adds every element of `vals` to the entries of every key in `keys`.
fn relate_all(m: &mut HashMap<usize, HashSet<usize>>, keys: &Vec<usize>, vals: &Vec<usize>)
    requires
        vals@.len() > 0,
    ensures
        relation_view(*final(m)) == add_all(relation_view(*old(m)), keys@.to_set(), vals@.to_set()),
{
    let ghost m0 = relation_view(*m);
    let ghost vs = vals@.to_set();
    let mut i: usize = 0;
    proof {
        assert(add_all(m0, keys@.subrange(0, 0).to_set(), vs) =~= m0);
    }
    while i < keys.len()
        invariant
            vals@.len() > 0,
            vs == vals@.to_set(),
            i <= keys@.len(),
            relation_view(*m) == add_all(m0, keys@.subrange(0, i as int).to_set(), vs),
        decreases keys@.len() - i,
    {
        let k = keys[i];
        let ghost before = relation_view(*m);
        let mut j: usize = 0;
        while j < vals.len()
            invariant
                vals@.len() > 0,
                j <= vals@.len(),
                j == 0 ==> relation_view(*m) == before,
                j > 0 ==> relation_view(*m) == before.insert(k, related(before, k).union(vals@.subrange(0, j as int).to_set())),
            decreases vals@.len() - j,
        {
            let ghost mid = relation_view(*m);
            relate(m, k, vals[j]);
            proof {
                let t = vals@.subrange(0, j + 1);
                assert(t =~= vals@.subrange(0, j as int).push(vals@[j as int]));
                vals@.subrange(0, j as int).lemma_push_to_set_commute(vals@[j as int]);
                if j == 0 {
                    assert(vals@.subrange(0, 0).to_set() =~= Set::<usize>::empty());
                    assert(related(before, k).insert(vals@[0]) =~= related(before, k).union(
                        vals@.subrange(0, 1).to_set(),
                    ));
                } else {
                    assert(related(mid, k) == related(before, k).union(vals@.subrange(0, j as int).to_set()));
                    assert(related(mid, k).insert(vals@[j as int]) =~= related(before, k).union(
                        vals@.subrange(0, j + 1).to_set(),
                    ));
                }
                assert(relation_view(*m) =~= before.insert(
                    k,
                    related(before, k).union(vals@.subrange(0, j + 1).to_set()),
                ));
            }
            j += 1;
        }
        proof {
            assert(vals@.subrange(0, vals@.len() as int) =~= vals@);
            let t = keys@.subrange(0, i + 1);
            assert(t =~= keys@.subrange(0, i as int).push(k));
            keys@.subrange(0, i as int).lemma_push_to_set_commute(k);
            let kd = keys@.subrange(0, i as int).to_set();
            lemma_related_add_all(m0, kd, vs, k);
            assert(relation_view(*m) =~= add_all(m0, kd.insert(k), vs)) by {
                assert forall|x: usize| #[trigger] relation_view(*m).dom().contains(x) == add_all(m0, kd.insert(k), vs).dom().contains(x) by {}
                assert forall|x: usize| relation_view(*m).dom().contains(x) implies #[trigger] relation_view(*m)[x] =~= add_all(m0, kd.insert(k), vs)[x] by {
                    lemma_related_add_all(m0, kd, vs, x);
                }
            }
        }
        i += 1;
    }
    proof {
        assert(keys@.subrange(0, keys@.len() as int) =~= keys@);
    }
}

/// Records `bigger > smaller` in both relations and closes them
/// transitively.
fn record(
    bigger_than: &mut HashMap<usize, HashSet<usize>>,
    smaller_than: &mut HashMap<usize, HashSet<usize>>,
    bigger: usize,
    smaller: usize,
)
    ensures
        relation_view(*final(bigger_than)) == recorded_bigger(
            relation_view(*old(bigger_than)),
            relation_view(*old(smaller_than)),
            bigger,
            smaller,
        ),
        relation_view(*final(smaller_than)) == recorded_smaller(
            relation_view(*old(bigger_than)),
            relation_view(*old(smaller_than)),
            bigger,
            smaller,
        ),
{
    let ghost b0 = relation_view(*bigger_than);
    let ghost s0 = relation_view(*smaller_than);
    let mut smaller_bigger_than = related_elems(bigger_than, smaller);
    let mut bigger_smaller_than = related_elems(smaller_than, bigger);
    let ghost sbt0 = smaller_bigger_than@;
    let ghost bst0 = bigger_smaller_than@;
    smaller_bigger_than.push(smaller);
    bigger_smaller_than.push(bigger);
    proof {
        sbt0.lemma_push_to_set_commute(smaller);
        bst0.lemma_push_to_set_commute(bigger);
        assert(smaller_bigger_than@.to_set() == related(b0, smaller).insert(smaller));
        assert(bigger_smaller_than@.to_set() == related(s0, bigger).insert(bigger));
    }
    relate_all(bigger_than, &bigger_smaller_than, &smaller_bigger_than);
    relate_all(smaller_than, &smaller_bigger_than, &bigger_smaller_than);
}

/// Whether `v` is related to `k`.
fn related_contains(m: &HashMap<usize, HashSet<usize>>, k: usize, v: usize) -> (r: bool)
    ensures
        r == related(relation_view(*m), k).contains(v),
{
    match m.get(&k) {
        Some(set) => {
            proof {
                assert(relation_view(*m).dom().contains(k));
            }
            set.contains(&v)
        },
        None => false,
    }
}

/// The first incoming edge of port `p`, if any.
pub open spec fn first_in_edge(a: &LGraphArena, p: usize) -> Option<usize> {
    if a.in_lists()[p as int].len() > 0 {
        Some(a.in_lists()[p as int][0])
    } else {
        None
    }
}

/// The first incoming edge at port `p` comes from a node in the layer just
/// before `node_layer`.
pub open spec fn from_previous_layer(a: &LGraphArena, p: usize, node_layer: usize) -> bool {
    match first_in_edge(a, p) {
        Some(e) => node_layer > 0 && a.node_of(a.sources()[e as int]) is Some && a.layer_of()[a.node_of(
            a.sources()[e as int],
        )->0 as int] == Some((node_layer - 1) as usize),
        None => false,
    }
}

/// The source port of the first incoming edge, among `ports` in order,
/// whose source lies in the layer just before `node_layer`.
pub open spec fn previous_layer_source(a: &LGraphArena, ports: Seq<usize>, node_layer: usize) -> Option<usize>
    decreases ports.len(),
{
    if ports.len() == 0 {
        None
    } else if from_previous_layer(a, ports[0], node_layer) {
        a.sources()[first_in_edge(a, ports[0])->0 as int]
    } else {
        previous_layer_source(a, ports.drop_first(), node_layer)
    }
}

/// The model order of the first incoming edge among `ports`, in order
/// (-1 where that edge has none), or `i32::MAX` where no port has one.
pub open spec fn connected_edge_order(a: &LGraphArena, ports: Seq<usize>) -> int
    decreases ports.len(),
{
    if ports.len() == 0 {
        i32::MAX as int
    } else {
        match first_in_edge(a, ports[0]) {
            Some(e) => match a.edges@[e as int].props.model_order {
                Some(v) => v as int,
                None => -1,
            },
            None => connected_edge_order(a, ports.drop_first()),
        }
    }
}

/// Which of two ports comes first in `ports`: -1 for `x`, 1 for `y`, 0
/// when neither is there.
pub open spec fn first_port(ports: Seq<usize>, x: usize, y: usize) -> int
    decreases ports.len(),
{
    if ports.len() == 0 {
        0
    } else if ports[0] == x {
        -1
    } else if ports[0] == y {
        1
    } else {
        first_port(ports.drop_first(), x, y)
    }
}

/// The first incoming edges at the ports of node `n` have source ports
/// owned by nodes.
pub open spec fn sources_known(a: &LGraphArena, n: usize) -> bool {
    forall|i: int|
        0 <= i < a.port_lists()[n as int].len() && #[trigger] first_in_edge(a, a.port_lists()[n as int][i]) is Some
            ==> a.node_of(a.sources()[first_in_edge(a, a.port_lists()[n as int][i])->0 as int]) is Some
}

/// The node comparator's decision on `n1` and `n2` where no recorded
/// decision settles them: the result, and which node is recorded as the
/// bigger and which as the smaller. Nodes are compared by their
/// connections into the previous layer where the strategy prefers edges
/// or one of them has no model order, else by model order; a node
/// without model order comes first.
pub open spec fn node_decision(
    a: &LGraphArena,
    prev: Seq<LNodeId>,
    strategy: OrderingStrategy,
    n1: usize,
    n2: usize,
) -> (int, usize, usize) {
    let mo1 = a.nodes@[n1 as int].props.model_order;
    let mo2 = a.nodes@[n2 as int].props.model_order;
    let after = (1int, n1, n2);
    let before = (-1int, n2, n1);
    let by_order = if mo1 is Some && mo2 is Some {
        if mo1->0 > mo2->0 {
            after
        } else {
            before
        }
    } else {
        before
    };
    if strategy == OrderingStrategy::PreferEdges || mo1 is None || mo2 is None {
        let s1 = previous_layer_source(a, a.port_lists()[n1 as int], a.layer_of()[n1 as int]->0);
        let s2 = previous_layer_source(a, a.port_lists()[n2 as int], a.layer_of()[n2 as int]->0);
        if s1 is Some && s2 is Some {
            let o1 = a.owners()[s1->0 as int]->0;
            let o2 = a.owners()[s2->0 as int]->0;
            let fp = first_port(a.port_lists()[o1 as int], s1->0, s2->0);
            let fl = first_of(prev, LNodeId(o1), LNodeId(o2));
            if o1 == o2 && fp != 0 {
                if fp < 0 {
                    before
                } else {
                    after
                }
            } else if fl < 0 {
                before
            } else if fl > 0 {
                after
            } else {
                by_order
            }
        } else if (s1 is Some) != (s2 is Some) && (mo1 is None || mo2 is None) {
            if connected_edge_order(a, a.port_lists()[n1 as int]) > connected_edge_order(a, a.port_lists()[n2 as int]) {
                after
            } else {
                before
            }
        } else {
            by_order
        }
    } else {
        by_order
    }
}

/// The source port of the first incoming edge of a port of `n` that comes
/// from the layer just before `n`'s.
fn previous_layer_source_of(a: &LGraphArena, n: LNodeId) -> (r: Option<LPortId>)
    requires
        a.wf(),
        n.0 < a.nodes@.len(),
        a.layer_of()[n.0 as int] is Some,
        sources_known(a, n.0),
    ensures
        crate::layout::elk::alg::graph::port_index(r) == previous_layer_source(
            a,
            a.port_lists()[n.0 as int],
            a.layer_of()[n.0 as int]->0,
        ),
        r matches Some(q) ==> q.0 < a.ports@.len() && a.owners()[q.0 as int] is Some,
{
    let node_layer = a.nodes[n.0].layer.unwrap();
    let ghost ports = a.port_lists()[n.0 as int];
    proof {
        crate::layout::elk::alg::p1_cycles::lemma_port_list(a, n.0);
        assert(ports.subrange(0, ports.len() as int) =~= ports);
    }
    let len = a.nodes[n.0].ports.len();
    let mut i: usize = 0;
    while i < len
        invariant
            a.wf(),
            n.0 < a.nodes@.len(),
            sources_known(a, n.0),
            ports == a.port_lists()[n.0 as int],
            len == ports.len(),
            node_layer == a.layer_of()[n.0 as int]->0,
            i <= len,
            forall|k: int| 0 <= k < ports.len() ==> #[trigger] ports[k] < a.ports@.len(),
            previous_layer_source(a, ports, node_layer) == previous_layer_source(
                a,
                ports.subrange(i as int, len as int),
                node_layer,
            ),
        decreases len - i,
    {
        let p = a.nodes[n.0].ports[i];
        let ghost rest = ports.subrange(i as int, len as int);
        proof {
            assert(p.0 == ports[i as int]);
            assert(rest[0] == p.0);
            assert(rest.drop_first() =~= ports.subrange(i + 1, len as int));
        }
        if a.ports[p.0].incoming_edges.len() > 0 {
            let e = a.ports[p.0].incoming_edges[0];
            proof {
                assert(e.0 == a.in_lists()[p.0 as int][0]);
                assert(first_in_edge(a, ports[i as int]) is Some);
                assert(a.in_lists()[p.0 as int].contains(e.0));
                assert(e.0 < a.edges@.len());
            }
            let src = a.edges[e.0].source.unwrap();
            proof {
                assert(a.sources()[e.0 as int] == Some(src.0));
                assert(src.0 < a.ports@.len());
            }
            let src_node = a.ports[src.0].owner.unwrap();
            proof {
                assert(a.owners()[src.0 as int] == Some(src_node.0));
                assert(src_node.0 < a.nodes@.len());
            }
            if node_layer > 0 && a.nodes[src_node.0].layer == Some(node_layer - 1) {
                return Some(src);
            }
        }
        i += 1;
    }
    proof {
        assert(ports.subrange(len as int, len as int) =~= Seq::<usize>::empty());
    }
    None
}

/// The model order of the first incoming edge among the ports of `n`, -1
/// where it has none, `i32::MAX` where no port has an incoming edge.
fn connected_edge_order_of(a: &LGraphArena, n: LNodeId) -> (r: i32)
    requires
        a.wf(),
        n.0 < a.nodes@.len(),
    ensures
        r == connected_edge_order(a, a.port_lists()[n.0 as int]),
{
    let ghost ports = a.port_lists()[n.0 as int];
    proof {
        crate::layout::elk::alg::p1_cycles::lemma_port_list(a, n.0);
        assert(ports.subrange(0, ports.len() as int) =~= ports);
    }
    let len = a.nodes[n.0].ports.len();
    let mut i: usize = 0;
    while i < len
        invariant
            a.wf(),
            n.0 < a.nodes@.len(),
            ports == a.port_lists()[n.0 as int],
            len == ports.len(),
            i <= len,
            forall|k: int| 0 <= k < ports.len() ==> #[trigger] ports[k] < a.ports@.len(),
            connected_edge_order(a, ports) == connected_edge_order(a, ports.subrange(i as int, len as int)),
        decreases len - i,
    {
        let p = a.nodes[n.0].ports[i];
        let ghost rest = ports.subrange(i as int, len as int);
        proof {
            assert(p.0 == ports[i as int]);
            assert(rest[0] == p.0);
            assert(rest.drop_first() =~= ports.subrange(i + 1, len as int));
        }
        if a.ports[p.0].incoming_edges.len() > 0 {
            let e = a.ports[p.0].incoming_edges[0];
            proof {
                assert(e.0 == a.in_lists()[p.0 as int][0]);
                assert(a.in_lists()[p.0 as int].contains(e.0));
                assert(e.0 < a.edges@.len());
            }
            return model_order_or(a.edges[e.0].props.model_order);
        }
        i += 1;
    }
    i32::MAX
}

/// Which of ports `x` and `y` comes first among the ports of node `o`.
fn first_port_of(a: &LGraphArena, o: LNodeId, x: LPortId, y: LPortId) -> (r: i32)
    requires
        o.0 < a.nodes@.len(),
        a.wf(),
    ensures
        r == first_port(a.port_lists()[o.0 as int], x.0, y.0),
{
    let ghost ports = a.port_lists()[o.0 as int];
    proof {
        assert(ports.subrange(0, ports.len() as int) =~= ports);
    }
    let len = a.nodes[o.0].ports.len();
    let mut i: usize = 0;
    while i < len
        invariant
            o.0 < a.nodes@.len(),
            ports == a.port_lists()[o.0 as int],
            len == ports.len(),
            i <= len,
            first_port(ports, x.0, y.0) == first_port(ports.subrange(i as int, len as int), x.0, y.0),
        decreases len - i,
    {
        let p = a.nodes[o.0].ports[i];
        let ghost rest = ports.subrange(i as int, len as int);
        proof {
            assert(p.0 == ports[i as int]);
            assert(rest[0] == p.0);
            assert(rest.drop_first() =~= ports.subrange(i + 1, len as int));
        }
        if p.0 == x.0 {
            return -1;
        } else if p.0 == y.0 {
            return 1;
        }
        i += 1;
    }
    0
}

/// Orders the nodes of a layer by model order, falling back on their
/// connections into the previous layer.
pub struct ModelOrderNodeComparator {
    graph: LGraphId,
    previous_layer: Vec<LNodeId>,
    ordering_strategy: OrderingStrategy,
    bigger_than: HashMap<usize, HashSet<usize>>,
    smaller_than: HashMap<usize, HashSet<usize>>,
    before_ports: bool,
}

impl ModelOrderNodeComparator {
    /// For each node (by index), the nodes it was ordered after.
    pub closed spec fn bigger(&self) -> Map<usize, Set<usize>> {
        relation_view(self.bigger_than)
    }

    /// For each node (by index), the nodes it was ordered before.
    pub closed spec fn smaller(&self) -> Map<usize, Set<usize>> {
        relation_view(self.smaller_than)
    }

    /// The layer before the one being sorted.
    pub closed spec fn reference_layer(&self) -> Seq<LNodeId> {
        self.previous_layer@
    }

    /// A comparator with no decision recorded yet.
    pub fn new(
        graph: LGraphId,
        previous_layer: Vec<LNodeId>,
        ordering_strategy: OrderingStrategy,
        before_ports: bool,
    ) -> (r: Self)
        ensures
            r.bigger() == Map::<usize, Set<usize>>::empty(),
            r.smaller() == Map::<usize, Set<usize>>::empty(),
            r.reference_layer() == previous_layer@,
    {
        let r = ModelOrderNodeComparator {
            graph,
            previous_layer,
            ordering_strategy,
            bigger_than: HashMap::new(),
            smaller_than: HashMap::new(),
            before_ports,
        };
        proof {
            assert(r.bigger() =~= Map::<usize, Set<usize>>::empty());
            assert(r.smaller() =~= Map::<usize, Set<usize>>::empty());
        }
        r
    }

    /// Forgets every recorded decision.
    pub fn clear_transitive_ordering(&mut self)
        ensures
            final(self).bigger() == Map::<usize, Set<usize>>::empty(),
            final(self).smaller() == Map::<usize, Set<usize>>::empty(),
            final(self).reference_layer() == old(self).reference_layer(),
    {
        self.bigger_than.clear();
        self.smaller_than.clear();
        proof {
            assert(self.bigger() =~= Map::<usize, Set<usize>>::empty());
            assert(self.smaller() =~= Map::<usize, Set<usize>>::empty());
        }
    }

    /// Records that `bigger` is ordered after `smaller`, with everything
    /// that follows by transitivity.
    pub fn update(&mut self, bigger: LNodeId, smaller: LNodeId)
        ensures
            final(self).bigger() == recorded_bigger(old(self).bigger(), old(self).smaller(), bigger.0, smaller.0),
            final(self).smaller() == recorded_smaller(old(self).bigger(), old(self).smaller(), bigger.0, smaller.0),
            final(self).reference_layer() == old(self).reference_layer(),
            final(self).strategy() == old(self).strategy(),
    {
        record(&mut self.bigger_than, &mut self.smaller_than, bigger.0, smaller.0);
    }

    /// The strategy the comparator orders by.
    pub closed spec fn strategy(&self) -> OrderingStrategy {
        self.ordering_strategy
    }

    /// Which of two nodes comes first in the previous layer: -1 for `o1`,
    /// 1 for `o2`, 0 when neither is in it.
    fn reference_first(&self, o1: LNodeId, o2: LNodeId) -> (r: i32)
        ensures
            r == first_of(self.reference_layer(), o1, o2),
    {
        let mut i: usize = 0;
        proof {
            assert(self.previous_layer@.subrange(0, self.previous_layer@.len() as int) =~= self.previous_layer@);
        }
        while i < self.previous_layer.len()
            invariant
                i <= self.previous_layer@.len(),
                first_of(self.previous_layer@, o1, o2) == first_of(
                    self.previous_layer@.subrange(i as int, self.previous_layer@.len() as int),
                    o1,
                    o2,
                ),
            decreases self.previous_layer@.len() - i,
        {
            let node = self.previous_layer[i];
            let ghost rest = self.previous_layer@.subrange(i as int, self.previous_layer@.len() as int);
            proof {
                assert(rest[0] == node);
                assert(rest.drop_first() =~= self.previous_layer@.subrange(i + 1, self.previous_layer@.len() as int));
            }
            if node == o1 {
                return -1;
            } else if node == o2 {
                return 1;
            }
            i += 1;
        }
        0
    }

    /// Compares two nodes of the layer being sorted: 1 when `n1` goes
    /// after `n2`, -1 when before. A decision already recorded (directly
    /// or by transitivity) is returned as it is; otherwise the decision of
    /// `node_decision` is made and recorded.
    pub fn compare(&mut self, arena: &LGraphArena, n1: LNodeId, n2: LNodeId) -> (r: i32)
        requires
            arena.wf(),
            n1.0 < arena.nodes@.len(),
            n2.0 < arena.nodes@.len(),
            (old(self).strategy() == OrderingStrategy::PreferEdges || arena.nodes@[n1.0 as int].props.model_order is None
                || arena.nodes@[n2.0 as int].props.model_order is None) ==> {
                &&& arena.layer_of()[n1.0 as int] is Some
                &&& arena.layer_of()[n2.0 as int] is Some
                &&& sources_known(arena, n1.0)
                &&& sources_known(arena, n2.0)
            },
        ensures
            final(self).reference_layer() == old(self).reference_layer(),
            final(self).strategy() == old(self).strategy(),
            if related(old(self).bigger(), n1.0).contains(n2.0) {
                r == 1 && final(self).bigger() == old(self).bigger() && final(self).smaller() == old(self).smaller()
            } else if related(old(self).bigger(), n2.0).contains(n1.0) || related(old(self).smaller(), n1.0).contains(n2.0) {
                r == -1 && final(self).bigger() == old(self).bigger() && final(self).smaller() == old(self).smaller()
            } else {
                let d = node_decision(arena, old(self).reference_layer(), old(self).strategy(), n1.0, n2.0);
                &&& r == d.0
                &&& final(self).bigger() == recorded_bigger(old(self).bigger(), old(self).smaller(), d.1, d.2)
                &&& final(self).smaller() == recorded_smaller(old(self).bigger(), old(self).smaller(), d.1, d.2)
            },
    {
        if related_contains(&self.bigger_than, n1.0, n2.0) {
            return 1;
        }
        if related_contains(&self.bigger_than, n2.0, n1.0) {
            return -1;
        }
        if related_contains(&self.smaller_than, n1.0, n2.0) {
            return -1;
        }
        let mo1 = arena.nodes[n1.0].props.model_order;
        let mo2 = arena.nodes[n2.0].props.model_order;
        let n1_mo = mo1.is_some();
        let n2_mo = mo2.is_some();
        let prefer_edges = match self.ordering_strategy {
            OrderingStrategy::PreferEdges => true,
            _ => false,
        };
        if prefer_edges || !n1_mo || !n2_mo {
            let p1_src = previous_layer_source_of(arena, n1);
            let p2_src = previous_layer_source_of(arena, n2);
            match (p1_src, p2_src) {
                (Some(p1s), Some(p2s)) => {
                    let p1_node = arena.ports[p1s.0].owner.unwrap();
                    let p2_node = arena.ports[p2s.0].owner.unwrap();
                    if p1_node.0 == p2_node.0 {
                        let fp = first_port_of(arena, p1_node, p1s, p2s);
                        if fp < 0 {
                            self.update(n2, n1);
                            return -1;
                        } else if fp > 0 {
                            self.update(n1, n2);
                            return 1;
                        }
                    }
                    let fl = self.reference_first(LNodeId(p1_node.0), LNodeId(p2_node.0));
                    if fl < 0 {
                        self.update(n2, n1);
                        return -1;
                    } else if fl > 0 {
                        self.update(n1, n2);
                        return 1;
                    }
                },
                (Some(_), None) | (None, Some(_)) => {
                    if !n1_mo || !n2_mo {
                        let n1e = connected_edge_order_of(arena, n1);
                        let n2e = connected_edge_order_of(arena, n2);
                        if n1e > n2e {
                            self.update(n1, n2);
                            return 1;
                        } else {
                            self.update(n2, n1);
                            return -1;
                        }
                    }
                },
                (None, None) => {},
            }
        }
        if n1_mo && n2_mo {
            let o1 = model_order_or(mo1);
            let o2 = model_order_or(mo2);
            if o1 > o2 {
                self.update(n1, n2);
                1
            } else {
                self.update(n2, n1);
                -1
            }
        } else {
            self.update(n2, n1);
            -1
        }
    }
}

/// Where two nodes first appear in a layer: -1 when `first` comes first,
/// 1 when `second` does, 0 when neither is there.
pub open spec fn first_of(layer: Seq<LNodeId>, first: LNodeId, second: LNodeId) -> int
    decreases layer.len(),
{
    if layer.len() == 0 {
        0
    } else if layer[0] == first {
        -1
    } else if layer[0] == second {
        1
    } else {
        first_of(layer.drop_first(), first, second)
    }
}

/// The rank of a side in the order ports are sorted by side.
pub open spec fn side_rank(s: PortSide) -> int {
    match s {
        PortSide::Undefined => 0,
        PortSide::North => 1,
        PortSide::East => 2,
        PortSide::South => 3,
        PortSide::West => 4,
    }
}

fn side_rank_of(s: PortSide) -> (r: i32)
    ensures
        r == side_rank(s),
{
    match s {
        PortSide::Undefined => 0,
        PortSide::North => 1,
        PortSide::East => 2,
        PortSide::South => 3,
        PortSide::West => 4,
    }
}

/// A decision of the port comparator: the result, the ports passed to the
/// recording step as bigger and smaller, and the direction the recording
/// takes (a negative one records the reverse).
pub struct PortDecision {
    pub result: int,
    pub bigger: usize,
    pub smaller: usize,
    pub direction: int,
}

/// Port `p` has incoming edges.
pub open spec fn has_in(a: &LGraphArena, p: usize) -> bool {
    a.in_lists()[p as int].len() > 0
}

/// Port `p` has outgoing edges.
pub open spec fn has_out(a: &LGraphArena, p: usize) -> bool {
    a.out_lists()[p as int].len() > 0
}

/// The model order of the first outgoing edge of port `p`, 0 where it has
/// none.
pub open spec fn out_order(a: &LGraphArena, p: usize) -> int {
    match a.edges@[a.out_lists()[p as int][0] as int].props.model_order {
        Some(v) => v as int,
        None => 0,
    }
}

/// The order a port's outgoing edges are ranked by: the least model order
/// recorded for its real target node, where there is one, else its own.
pub open spec fn target_rank(a: &LGraphArena, tmo: Map<usize, i32>, p: usize) -> int {
    match a.ports@[p as int].long_edge_target_node {
        Some(t) => if tmo.dom().contains(t.0) {
            tmo[t.0] as int
        } else {
            out_order(a, p)
        },
        None => out_order(a, p),
    }
}

/// The port comparator's decision on `p1` and `p2` where no recorded
/// decision settles them: ports on different sides go by side; ports with
/// incoming edges go by where their sources lie (on one node by port
/// order, else by the previous layer); ports with outgoing edges go by the
/// model order of their edges, bundled by real target node; a port with
/// incoming edges goes after one with outgoing edges.
pub open spec fn port_decision(a: &LGraphArena, prev: Seq<LNodeId>, tmo: Map<usize, i32>, p1: usize, p2: usize) -> PortDecision {
    let s1 = rightward_side(a.ports@[p1 as int].side);
    let s2 = rightward_side(a.ports@[p2 as int].side);
    if s1 != s2 {
        let res = side_rank(s1) - side_rank(s2);
        if res > 0 {
            PortDecision { result: res, bigger: p1, smaller: p2, direction: 1 }
        } else {
            PortDecision { result: res, bigger: p2, smaller: p1, direction: 1 }
        }
    } else {
        let rev1: int = if has_in(a, p1) && has_in(a, p2) && (s1 == PortSide::West || s1 == PortSide::North || s1
            == PortSide::South) {
            -1
        } else {
            1
        };
        let src1 = a.sources()[a.in_lists()[p1 as int][0] as int]->0;
        let src2 = a.sources()[a.in_lists()[p2 as int][0] as int]->0;
        let o1 = a.owners()[src1 as int]->0;
        let o2 = a.owners()[src2 as int]->0;
        let fp = first_port(a.port_lists()[o1 as int], src1, src2);
        let fl = first_of(prev, LNodeId(o1), LNodeId(o2));
        if has_in(a, p1) && has_in(a, p2) && o1 == o2 && fp != 0 {
            if fp < 0 {
                PortDecision { result: -rev1, bigger: p2, smaller: p1, direction: rev1 }
            } else {
                PortDecision { result: rev1, bigger: p1, smaller: p2, direction: rev1 }
            }
        } else if has_in(a, p1) && has_in(a, p2) && fl != 0 {
            if fl > 0 {
                PortDecision { result: rev1, bigger: p1, smaller: p2, direction: rev1 }
            } else {
                PortDecision { result: -rev1, bigger: p2, smaller: p1, direction: rev1 }
            }
        } else if has_out(a, p1) && has_out(a, p2) {
            let rev2 = if s1 == PortSide::West || s1 == PortSide::South {
                -rev1
            } else {
                rev1
            };
            let t1 = a.ports@[p1 as int].long_edge_target_node;
            let t2 = a.ports@[p2 as int].long_edge_target_node;
            let (r1, r2) = if t1 is Some && t1 == t2 {
                (out_order(a, p1), out_order(a, p2))
            } else {
                (target_rank(a, tmo, p1), target_rank(a, tmo, p2))
            };
            if r1 > r2 {
                PortDecision { result: rev2, bigger: p1, smaller: p2, direction: rev2 }
            } else {
                PortDecision { result: -rev2, bigger: p2, smaller: p1, direction: rev2 }
            }
        } else if has_in(a, p1) && has_out(a, p2) {
            PortDecision { result: 1, bigger: p1, smaller: p2, direction: rev1 }
        } else if has_out(a, p1) && has_in(a, p2) {
            PortDecision { result: -1, bigger: p2, smaller: p1, direction: rev1 }
        } else {
            PortDecision { result: -rev1, bigger: p2, smaller: p1, direction: rev1 }
        }
    }
}

/// The pair a decision records as (bigger, smaller).
pub open spec fn recorded_pair(d: PortDecision) -> (usize, usize) {
    if d.direction < 0 {
        (d.smaller, d.bigger)
    } else {
        (d.bigger, d.smaller)
    }
}

/// The first incoming edges of ports `p1` and `p2` have source ports
/// owned by nodes.
pub open spec fn in_sources_known(a: &LGraphArena, p: usize) -> bool {
    has_in(a, p) ==> a.node_of(a.sources()[a.in_lists()[p as int][0] as int]) is Some
}

/// A side in the rightward frame: north acts as west, south as east.
fn rightward(s: PortSide) -> (r: PortSide)
    ensures
        r == rightward_side(s),
{
    match s {
        PortSide::North => PortSide::West,
        PortSide::South => PortSide::East,
        _ => s,
    }
}

/// The model order of the first outgoing edge of `p`, 0 where it has none.
fn out_order_of(a: &LGraphArena, p: LPortId) -> (r: i32)
    requires
        a.wf(),
        p.0 < a.ports@.len(),
        has_out(a, p.0),
    ensures
        r == out_order(a, p.0),
{
    let e = a.ports[p.0].outgoing_edges[0];
    proof {
        assert(e.0 == a.out_lists()[p.0 as int][0]);
        assert(a.out_lists()[p.0 as int].contains(e.0));
    }
    match a.edges[e.0].props.model_order {
        Some(v) => v,
        None => 0,
    }
}

/// Orders the ports of a node by side, then by the nodes and model order
/// of the edges they connect to.
pub struct ModelOrderPortComparator {
    graph: LGraphId,
    previous_layer: Vec<LNodeId>,
    strategy: OrderingStrategy,
    target_node_model_order: HashMap<usize, i32>,
    bigger_than: HashMap<usize, HashSet<usize>>,
    smaller_than: HashMap<usize, HashSet<usize>>,
}

impl ModelOrderPortComparator {
    /// For each port (by index), the ports it was ordered after.
    pub closed spec fn bigger(&self) -> Map<usize, Set<usize>> {
        relation_view(self.bigger_than)
    }

    /// For each port (by index), the ports it was ordered before.
    pub closed spec fn smaller(&self) -> Map<usize, Set<usize>> {
        relation_view(self.smaller_than)
    }

    /// The layer before the one whose ports are sorted.
    pub closed spec fn reference_layer(&self) -> Seq<LNodeId> {
        self.previous_layer@
    }

    /// A comparator with no decision recorded yet. `target_node_model_order`
    /// maps a target node (by index) to the least model order of the edges
    /// reaching it.
    pub fn new(
        graph: LGraphId,
        previous_layer: Vec<LNodeId>,
        strategy: OrderingStrategy,
        target_node_model_order: HashMap<usize, i32>,
    ) -> (r: Self)
        ensures
            r.bigger() == Map::<usize, Set<usize>>::empty(),
            r.smaller() == Map::<usize, Set<usize>>::empty(),
            r.reference_layer() == previous_layer@,
    {
        let r = ModelOrderPortComparator {
            graph,
            previous_layer,
            strategy,
            target_node_model_order,
            bigger_than: HashMap::new(),
            smaller_than: HashMap::new(),
        };
        proof {
            assert(r.bigger() =~= Map::<usize, Set<usize>>::empty());
            assert(r.smaller() =~= Map::<usize, Set<usize>>::empty());
        }
        r
    }

    /// Forgets every recorded decision.
    pub fn clear_transitive_ordering(&mut self)
        ensures
            final(self).bigger() == Map::<usize, Set<usize>>::empty(),
            final(self).smaller() == Map::<usize, Set<usize>>::empty(),
            final(self).reference_layer() == old(self).reference_layer(),
    {
        self.bigger_than.clear();
        self.smaller_than.clear();
        proof {
            assert(self.bigger() =~= Map::<usize, Set<usize>>::empty());
            assert(self.smaller() =~= Map::<usize, Set<usize>>::empty());
        }
    }

    /// Which of two nodes comes first in the previous layer: -1 for
    /// `p1_node`, 1 for `p2_node`, 0 when neither is in it.
    pub fn check_reference_layer(&self, p1_node: LNodeId, p2_node: LNodeId) -> (r: i32)
        ensures
            r == first_of(self.reference_layer(), p1_node, p2_node),
    {
        let mut i: usize = 0;
        proof {
            assert(self.previous_layer@.subrange(0, self.previous_layer@.len() as int) =~= self.previous_layer@);
        }
        while i < self.previous_layer.len()
            invariant
                i <= self.previous_layer@.len(),
                first_of(self.previous_layer@, p1_node, p2_node) == first_of(
                    self.previous_layer@.subrange(i as int, self.previous_layer@.len() as int),
                    p1_node,
                    p2_node,
                ),
            decreases self.previous_layer@.len() - i,
        {
            let node = self.previous_layer[i];
            let ghost rest = self.previous_layer@.subrange(i as int, self.previous_layer@.len() as int);
            proof {
                assert(rest[0] == node);
                assert(rest.drop_first() =~= self.previous_layer@.subrange(i + 1, self.previous_layer@.len() as int));
            }
            if node == p1_node {
                return -1;
            } else if node == p2_node {
                return 1;
            }
            i += 1;
        }
        0
    }

    /// Records the decision that `bigger_ori` comes after `smaller_ori`,
    /// or the reverse when `reverse_order` is negative, with everything
    /// that follows by transitivity.
    pub fn update(&mut self, bigger_ori: LPortId, smaller_ori: LPortId, reverse_order: i32)
        ensures
            ({
                let (bigger, smaller) = if reverse_order < 0 {
                    (smaller_ori.0, bigger_ori.0)
                } else {
                    (bigger_ori.0, smaller_ori.0)
                };
                &&& final(self).bigger() == recorded_bigger(old(self).bigger(), old(self).smaller(), bigger, smaller)
                &&& final(self).smaller() == recorded_smaller(old(self).bigger(), old(self).smaller(), bigger, smaller)
            }),
            final(self).reference_layer() == old(self).reference_layer(),
            final(self).target_orders() == old(self).target_orders(),
    {
        let (bigger, smaller) = if reverse_order < 0 {
            (smaller_ori, bigger_ori)
        } else {
            (bigger_ori, smaller_ori)
        };
        record(&mut self.bigger_than, &mut self.smaller_than, bigger.0, smaller.0);
    }

    /// For each target node (by index), the least model order of the
    /// edges reaching it.
    pub closed spec fn target_orders(&self) -> Map<usize, i32> {
        self.target_node_model_order@
    }

    /// The rank the outgoing edges of port `p` are ordered by.
    fn target_rank_of(&self, a: &LGraphArena, p: LPortId) -> (r: i32)
        requires
            a.wf(),
            p.0 < a.ports@.len(),
            has_out(a, p.0),
        ensures
            r == target_rank(a, self.target_orders(), p.0),
    {
        let own = out_order_of(a, p);
        match a.ports[p.0].long_edge_target_node {
            Some(t) => match self.target_node_model_order.get(&t.0) {
                Some(mo) => *mo,
                None => own,
            },
            None => own,
        }
    }

    /// Compares two ports of a node: positive when `p1` goes after `p2`,
    /// negative when before. A decision already recorded (directly or by
    /// transitivity) is returned as 1 or -1; otherwise the decision of
    /// `port_decision` is made and recorded.
    pub fn compare(&mut self, arena: &LGraphArena, p1: LPortId, p2: LPortId) -> (r: i32)
        requires
            arena.wf(),
            p1.0 < arena.ports@.len(),
            p2.0 < arena.ports@.len(),
            in_sources_known(arena, p1.0),
            in_sources_known(arena, p2.0),
        ensures
            final(self).reference_layer() == old(self).reference_layer(),
            final(self).target_orders() == old(self).target_orders(),
            if related(old(self).bigger(), p1.0).contains(p2.0) {
                r == 1 && final(self).bigger() == old(self).bigger() && final(self).smaller() == old(self).smaller()
            } else if related(old(self).bigger(), p2.0).contains(p1.0) || related(old(self).smaller(), p1.0).contains(p2.0) {
                r == -1 && final(self).bigger() == old(self).bigger() && final(self).smaller() == old(self).smaller()
            } else {
                let d = port_decision(arena, old(self).reference_layer(), old(self).target_orders(), p1.0, p2.0);
                let pair = recorded_pair(d);
                &&& r == d.result
                &&& final(self).bigger() == recorded_bigger(old(self).bigger(), old(self).smaller(), pair.0, pair.1)
                &&& final(self).smaller() == recorded_smaller(old(self).bigger(), old(self).smaller(), pair.0, pair.1)
            },
    {
        if related_contains(&self.bigger_than, p1.0, p2.0) {
            return 1;
        }
        if related_contains(&self.bigger_than, p2.0, p1.0) {
            return -1;
        }
        if related_contains(&self.smaller_than, p1.0, p2.0) {
            return -1;
        }
        let s1 = rightward(arena.ports[p1.0].side);
        let s2 = rightward(arena.ports[p2.0].side);
        if s1 != s2 {
            let result = side_rank_of(s1) - side_rank_of(s2);
            if result > 0 {
                self.update(p1, p2, 1);
            } else {
                self.update(p2, p1, 1);
            }
            return result;
        }
        let mut reverse_order: i32 = 1;
        let in1 = arena.ports[p1.0].incoming_edges.len() > 0;
        let in2 = arena.ports[p2.0].incoming_edges.len() > 0;
        let out1 = arena.ports[p1.0].outgoing_edges.len() > 0;
        let out2 = arena.ports[p2.0].outgoing_edges.len() > 0;
        if in1 && in2 {
            if s1 == PortSide::West || s1 == PortSide::North || s1 == PortSide::South {
                reverse_order = -reverse_order;
            }
            let e1 = arena.ports[p1.0].incoming_edges[0];
            let e2 = arena.ports[p2.0].incoming_edges[0];
            proof {
                assert(e1.0 == arena.in_lists()[p1.0 as int][0]);
                assert(e2.0 == arena.in_lists()[p2.0 as int][0]);
                assert(arena.in_lists()[p1.0 as int].contains(e1.0));
                assert(arena.in_lists()[p2.0 as int].contains(e2.0));
            }
            let src1 = arena.edges[e1.0].source.unwrap();
            let src2 = arena.edges[e2.0].source.unwrap();
            proof {
                assert(arena.sources()[e1.0 as int] == Some(src1.0));
                assert(arena.sources()[e2.0 as int] == Some(src2.0));
            }
            let o1 = arena.ports[src1.0].owner.unwrap();
            let o2 = arena.ports[src2.0].owner.unwrap();
            proof {
                assert(arena.owners()[src1.0 as int] == Some(o1.0));
                assert(arena.owners()[src2.0 as int] == Some(o2.0));
            }
            if o1.0 == o2.0 {
                let fp = first_port_of(arena, o1, src1, src2);
                if fp < 0 {
                    self.update(p2, p1, reverse_order);
                    return -reverse_order;
                } else if fp > 0 {
                    self.update(p1, p2, reverse_order);
                    return reverse_order;
                }
            }
            let in_prev = self.check_reference_layer(LNodeId(o1.0), LNodeId(o2.0));
            if in_prev != 0 {
                if in_prev > 0 {
                    self.update(p1, p2, reverse_order);
                    return reverse_order;
                } else {
                    self.update(p2, p1, reverse_order);
                    return -reverse_order;
                }
            }
        }
        if out1 && out2 {
            if s1 == PortSide::West || s1 == PortSide::South {
                reverse_order = -reverse_order;
            }
            let t1 = arena.ports[p1.0].long_edge_target_node;
            let t2 = arena.ports[p2.0].long_edge_target_node;
            let same_target = match (t1, t2) {
                (Some(x), Some(y)) => x.0 == y.0,
                _ => false,
            };
            let (r1, r2) = if same_target {
                (out_order_of(arena, p1), out_order_of(arena, p2))
            } else {
                (self.target_rank_of(arena, p1), self.target_rank_of(arena, p2))
            };
            if r1 > r2 {
                self.update(p1, p2, reverse_order);
                return reverse_order;
            } else {
                self.update(p2, p1, reverse_order);
                return -reverse_order;
            }
        }
        if in1 && out2 {
            self.update(p1, p2, reverse_order);
            1
        } else if out1 && in2 {
            self.update(p2, p1, reverse_order);
            -1
        } else {
            self.update(p2, p1, reverse_order);
            -reverse_order
        }
    }
}

} // verus!
