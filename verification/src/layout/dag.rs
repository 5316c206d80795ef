//! Ranked DAG. Stores node successors/predecessors plus a per-node "rank"
//! (row in the eventual layout). Rank is mutable — the optimizer passes
//! reorder rows and re-rank nodes to minimize edge crossings.

use vstd::prelude::*;

verus! {

broadcast use vstd::seq_lib::group_to_multiset_ensures;

/// Index of a node of a [`DAG`].
#[derive(Copy, Clone, Default, PartialEq, Eq, PartialOrd, Ord, Hash, Debug, Structural)]
pub struct NodeHandle {
    idx: usize,
}

impl View for NodeHandle {
    type V = usize;

    closed spec fn view(&self) -> usize {
        self.idx
    }
}

/// The handle of node `i`.
pub open spec fn handle(i: usize) -> NodeHandle {
    NodeHandle::spec_new(i)
}

impl NodeHandle {
    pub closed spec fn spec_new(x: usize) -> NodeHandle {
        NodeHandle { idx: x }
    }

    pub broadcast proof fn lemma_handle_view(x: usize)
        ensures
            (#[trigger] NodeHandle::spec_new(x))@ == x,
    {
    }

    pub broadcast proof fn lemma_handle_ext(h: NodeHandle)
        ensures
            #[trigger] NodeHandle::spec_new(h@) == h,
    {
    }

    pub fn new(x: usize) -> (r: Self)
        ensures
            r == handle(x),
            r@ == x,
    {
        NodeHandle { idx: x }
    }

    pub fn get_index(&self) -> (r: usize)
        ensures
            r == self@,
    {
        self.idx
    }
}

impl From<usize> for NodeHandle {
    fn from(idx: usize) -> (r: Self) {
        NodeHandle { idx }
    }
}

impl vstd::std_specs::convert::FromSpecImpl<usize> for NodeHandle {
    open spec fn obeys_from_spec() -> bool {
        true
    }

    open spec fn from_spec(idx: usize) -> NodeHandle {
        handle(idx)
    }
}

#[derive(Debug)]
struct Node {
    successors: Vec<NodeHandle>,
    predecessors: Vec<NodeHandle>,
}

impl Node {
    fn new() -> (r: Self)
        ensures
            r.successors@.len() == 0,
            r.predecessors@.len() == 0,
    {
        Node { successors: Vec::new(), predecessors: Vec::new() }
    }
}

pub type RankType = Vec<Vec<NodeHandle>>;

/// Adding an edge `u -> v` and then removing one `u -> v` edge leaves the
/// successor list of `u` with the same edges, counted with repetition, and
/// the removal finds the edge.
pub proof fn lemma_add_then_remove_edge(succ: Seq<NodeHandle>, to: NodeHandle)
    ensures
        succ.push(to).contains(to),
        succ.push(to).remove_value(to).to_multiset() == succ.to_multiset(),
{
    let s = succ.push(to);
    assert(s[s.len() - 1] == to);
    let i = s.index_of_first(to);
    s.index_of_first_ensures(to);
    let j = i.unwrap();
    vstd::seq_lib::to_multiset_remove(s, j);
    vstd::seq_lib::to_multiset_build(succ, to);
}

/// Walks the handles `0 .. len` of a graph in order.
#[derive(Debug)]
pub struct NodeIterator {
    curr: usize,
    last: usize,
}

impl NodeIterator {
    #[verifier::type_invariant]
    spec fn inv(self) -> bool {
        self.curr <= self.last
    }

    /// Index of the next handle to hand out.
    pub closed spec fn position(&self) -> usize {
        self.curr
    }

    /// One past the last handle.
    pub closed spec fn end(&self) -> usize {
        self.last
    }

    /// The next handle, or `None` once the end is reached.
    pub fn next(&mut self) -> (r: Option<NodeHandle>)
        ensures
            old(self).position() == old(self).end() ==> r is None && *final(self) == *old(self),
            old(self).position() != old(self).end() ==> {
                &&& r == Some(handle(old(self).position()))
                &&& final(self).position() == old(self).position() + 1
                &&& final(self).end() == old(self).end()
            },
    {
        if self.curr == self.last {
            return None;
        }
        proof { use_type_invariant(&*self); }
        let item = NodeHandle::new(self.curr);
        self.curr += 1;
        Some(item)
    }
}

/// Number of occurrences of `x` in `s`.
pub open spec fn occurrences(s: Seq<NodeHandle>, x: NodeHandle) -> nat {
    s.to_multiset().count(x)
}

/// `rows` extended with empty rows until there are at least `count`.
pub open spec fn pad_rows(rows: Seq<Seq<NodeHandle>>, count: nat) -> Seq<Seq<NodeHandle>> {
    if count <= rows.len() {
        rows
    } else {
        rows + Seq::new((count - rows.len()) as nat, |i: int| Seq::<NodeHandle>::empty())
    }
}

/// `rows` with `h` appended to row `level` (missing rows added empty).
pub open spec fn add_to_row(rows: Seq<Seq<NodeHandle>>, level: int, h: NodeHandle) -> Seq<
    Seq<NodeHandle>,
> {
    let padded = pad_rows(rows, (level + 1) as nat);
    padded.update(level, padded[level].push(h))
}

/// Position of the first `x` in `v`.
fn position_of(v: &Vec<NodeHandle>, x: NodeHandle) -> (r: Option<usize>)
    ensures
        r matches Some(i) ==> i < v@.len() && v@[i as int] == x && forall|j: int|
            0 <= j < i ==> v@[j] != x,
        r is None ==> !v@.contains(x),
        r matches Some(i) ==> v@.index_of_first(x) == Some(i as int),
        r is None ==> v@.index_of_first(x) is None,
{
    let mut i: usize = 0;
    while i < v.len()
        invariant
            i <= v@.len(),
            forall|j: int| 0 <= j < i ==> v@[j] != x,
        decreases v@.len() - i,
    {
        if v[i] == x {
            proof {
                v@.index_of_first_ensures(x);
                let k = v@.index_of_first(x).unwrap();
                assert(k == i as int);
            }
            return Some(i);
        }
        i += 1;
    }
    proof {
        v@.index_of_first_ensures(x);
    }
    None
}

/// Number of `false` entries.
pub open spec fn count_false(s: Seq<bool>) -> nat
    decreases s.len(),
{
    if s.len() == 0 {
        0
    } else {
        count_false(s.drop_last()) + if s.last() { 0nat } else { 1nat }
    }
}

proof fn lemma_count_false_mono(a: Seq<bool>, b: Seq<bool>)
    requires
        a.len() == b.len(),
        forall|i: int| 0 <= i < a.len() && a[i] ==> b[i],
    ensures
        count_false(b) <= count_false(a),
        (exists|i: int| 0 <= i < a.len() && b[i] && !a[i]) ==> count_false(b) < count_false(a),
    decreases a.len(),
{
    if a.len() > 0 {
        lemma_count_false_mono(a.drop_last(), b.drop_last());
        if exists|i: int| 0 <= i < a.len() && b[i] && !a[i] {
            let i = choose|i: int| 0 <= i < a.len() && b[i] && !a[i];
            if i < a.len() - 1 {
                assert(b.drop_last()[i] && !a.drop_last()[i]);
            }
        }
    }
}

/// How many of the nodes `0 .. k` occur in `ord`.
spec fn count_present(ord: Seq<NodeHandle>, k: nat) -> nat
    decreases k,
{
    if k == 0 {
        0
    } else {
        count_present(ord, (k - 1) as nat) + if ord.contains(handle((k - 1) as usize)) {
            1nat
        } else {
            0nat
        }
    }
}

proof fn lemma_count_present_push(ord: Seq<NodeHandle>, c: NodeHandle, k: nat)
    requires
        !ord.contains(c),
        k <= usize::MAX + 1,
    ensures
        count_present(ord.push(c), k) == count_present(ord, k) + if c@ < k { 1nat } else { 0nat },
    decreases k,
{
    if k > 0 {
        lemma_count_present_push(ord, c, (k - 1) as nat);
        let h = handle((k - 1) as usize);
        assert(ord.push(c).contains(h) == (ord.contains(h) || h == c)) by {
            if ord.push(c).contains(h) {
                let i = choose|i: int| 0 <= i < ord.push(c).len() && ord.push(c)[i] == h;
                if i < ord.len() {
                    assert(ord[i] == h);
                }
            }
            if ord.contains(h) {
                let i = choose|i: int| 0 <= i < ord.len() && ord[i] == h;
                assert(ord.push(c)[i] == h);
            }
            if h == c {
                assert(ord.push(c)[ord.len() as int] == h);
            }
        }
        if h == c {
            assert(c@ == k - 1);
        } else {
            assert(c@ != k - 1) by {
                if c@ == k - 1 {
                    NodeHandle::lemma_handle_ext(c);
                }
            }
        }
    }
}

proof fn lemma_count_present_zero(ord: Seq<NodeHandle>, k: nat)
    requires
        ord.len() == 0,
    ensures
        count_present(ord, k) == 0,
    decreases k,
{
    if k > 0 {
        lemma_count_present_zero(ord, (k - 1) as nat);
    }
}

proof fn lemma_count_present_all(ord: Seq<NodeHandle>, k: nat)
    requires
        k <= usize::MAX + 1,
        forall|x: usize| x < k ==> #[trigger] ord.contains(handle(x)),
    ensures
        count_present(ord, k) == k,
    decreases k,
{
    if k > 0 {
        lemma_count_present_all(ord, (k - 1) as nat);
        assert(ord.contains(handle((k - 1) as usize)));
    }
}

/// `rows` after taking the first `node` out of row `from_level` and adding
/// empty rows up to `new_level`.
pub open spec fn rows_without(rows: Seq<Seq<NodeHandle>>, node: NodeHandle, from_level: int, new_level: int) -> Seq<
    Seq<NodeHandle>,
> {
    pad_rows(rows.update(from_level, rows[from_level].remove_value(node)), (new_level + 1) as nat)
}

/// `rows` with `node` moved from row `from_level` to row `new_level`:
/// inserted just before the first `marker` there, or appended.
pub open spec fn rows_moved(
    rows: Seq<Seq<NodeHandle>>,
    node: NodeHandle,
    from_level: int,
    new_level: int,
    marker: Option<NodeHandle>,
) -> Seq<Seq<NodeHandle>> {
    let r = rows_without(rows, node, from_level, new_level);
    match marker {
        Some(m) => r.update(new_level, r[new_level].insert(r[new_level].index_of_first(m).unwrap(), node)),
        None => r.update(new_level, r[new_level].push(node)),
    }
}

/// Total number of entries of the first `k` rows.
pub open spec fn rows_size(rows: Seq<Seq<NodeHandle>>, k: nat) -> nat
    decreases k,
{
    if k == 0 {
        0
    } else {
        rows_size(rows, (k - 1) as nat) + rows[k - 1].len()
    }
}

proof fn lemma_rows_size_mono(rows: Seq<Seq<NodeHandle>>, a: nat, b: nat)
    requires
        a <= b,
    ensures
        rows_size(rows, a) <= rows_size(rows, b),
    decreases b,
{
    if a < b {
        lemma_rows_size_mono(rows, a, (b - 1) as nat);
    }
}

#[derive(Debug)]
pub struct DAG {
    nodes: Vec<Node>,
    ranks: RankType,
    levels: Vec<usize>,
}

impl DAG {
    /// Number of nodes.
    pub closed spec fn node_count(&self) -> nat {
        self.nodes@.len()
    }

    /// Successor list of node `u`, in insertion order (an edge added
    /// twice appears twice).
    pub closed spec fn succ(&self, u: int) -> Seq<NodeHandle> {
        self.nodes@[u].successors@
    }

    /// Predecessor list of node `u`, in insertion order.
    pub closed spec fn pred(&self, u: int) -> Seq<NodeHandle> {
        self.nodes@[u].predecessors@
    }

    /// The rank (layer) recorded for every node.
    pub closed spec fn levels_of(&self) -> Seq<usize> {
        self.levels@
    }

    /// The rows of the layering, each listing the nodes in that rank.
    pub closed spec fn rows(&self) -> Seq<Seq<NodeHandle>> {
        self.ranks@.map_values(|r: Vec<NodeHandle>| r@)
    }

    /// Is there an edge `u -> v`?
    pub open spec fn has_edge(&self, u: int, v: int) -> bool {
        &&& 0 <= u < self.node_count()
        &&& exists|k: int| 0 <= k < self.succ(u).len() && #[trigger] self.succ(u)[k]@ == v
    }

    /// How many times the edge `u -> v` was added and not removed.
    pub open spec fn edge_count(&self, u: int, v: usize) -> nat {
        occurrences(self.succ(u), handle(v))
    }

    /// Structural invariant: one level per node, every stored handle names a
    /// node, and the predecessor lists mirror the successor lists.
    pub open spec fn wf(&self) -> bool {
        &&& self.levels_of().len() == self.node_count()
        &&& forall|u: int, k: int|
            0 <= u < self.node_count() && 0 <= k < self.succ(u).len() ==> #[trigger] self.succ(
                u,
            )[k]@ < self.node_count()
        &&& forall|u: int, k: int|
            0 <= u < self.node_count() && 0 <= k < self.pred(u).len() ==> #[trigger] self.pred(
                u,
            )[k]@ < self.node_count()
        &&& forall|u: usize, v: usize|
            u < self.node_count() && v < self.node_count() ==> #[trigger] occurrences(
                self.succ(u as int),
                handle(v),
            ) == #[trigger] occurrences(self.pred(v as int), handle(u))
    }

    /// `p` is a walk of one or more nodes along edges.
    pub open spec fn is_path(&self, p: Seq<int>) -> bool {
        &&& p.len() >= 1
        &&& forall|i: int| 0 <= i < p.len() - 1 ==> #[trigger] self.has_edge(p[i], p[i + 1])
    }

    /// `v` can be reached from `u` by following edges (every node reaches
    /// itself).
    pub open spec fn reachable(&self, u: int, v: int) -> bool {
        ||| u == v
        ||| exists|p: Seq<int>| #[trigger] self.is_path(p) && p[0] == u && p.last() == v
    }

    proof fn lemma_reach_step(&self, u: int, s: int, v: int)
        requires
            self.has_edge(u, s),
            self.reachable(s, v),
        ensures
            self.reachable(u, v),
    {
        if s == v {
            let p = seq![u, v];
            assert(self.is_path(p));
        } else {
            let q = choose|p: Seq<int>| #[trigger] self.is_path(p) && p[0] == s && p.last() == v;
            let p = seq![u] + q;
            assert forall|i: int| 0 <= i < p.len() - 1 implies #[trigger] self.has_edge(p[i], p[i + 1]) by {
                if i > 0 {
                    assert(p[i] == q[i - 1]);
                    assert(p[i + 1] == q[i]);
                    assert(self.has_edge(q[i - 1], q[(i - 1) + 1]));
                }
            }
            assert(self.is_path(p));
        }
    }

    /// A set of nodes that contains `p[0]` and every successor of each of
    /// its members contains the whole walk `p`.
    proof fn lemma_closed_contains_path(&self, vis: Seq<bool>, p: Seq<int>)
        requires
            self.wf(),
            vis.len() == self.node_count(),
            self.is_path(p),
            0 <= p[0] < vis.len(),
            vis[p[0]],
            forall|x: int, k: int|
                0 <= x < vis.len() && vis[x] && 0 <= k < self.succ(x).len() ==> vis[#[trigger] self.succ(x)[k]@ as int],
        ensures
            0 <= p.last() < vis.len(),
            vis[p.last()],
        decreases p.len(),
    {
        if p.len() > 1 {
            let q = p.drop_last();
            assert forall|i: int| 0 <= i < q.len() - 1 implies #[trigger] self.has_edge(q[i], q[i + 1]) by {
                assert(self.has_edge(p[i], p[i + 1]));
            }
            self.lemma_closed_contains_path(vis, q);
            let a = q.last();
            let i = p.len() - 2;
            assert(self.has_edge(p[i], p[i + 1]));
            let k = choose|k: int| 0 <= k < self.succ(a).len() && #[trigger] self.succ(a)[k]@ == p.last();
            assert(vis[self.succ(a)[k]@ as int]);
        }
    }

    /// No edge `u -> v` between distinct nodes lies on a cycle (self-loops
    /// are allowed).
    pub open spec fn acyclic(&self) -> bool {
        forall|u: int, v: int| #[trigger] self.has_edge(u, v) && u != v ==> !self.reachable(v, u)
    }

    proof fn lemma_reach_trans_edge(&self, a: int, b: int, s: int)
        requires
            self.reachable(a, b),
            self.has_edge(b, s),
        ensures
            self.reachable(a, s),
    {
        if a == b {
            let p = seq![a, s];
            assert(self.is_path(p));
        } else {
            let q = choose|p: Seq<int>| #[trigger] self.is_path(p) && p[0] == a && p.last() == b;
            let p = q.push(s);
            assert forall|i: int| 0 <= i < p.len() - 1 implies #[trigger] self.has_edge(p[i], p[i + 1]) by {
                if i < q.len() - 1 {
                    assert(p[i] == q[i]);
                    assert(p[i + 1] == q[i + 1]);
                } else {
                    assert(p[i] == b);
                }
            }
            assert(self.is_path(p));
        }
    }

    /// Invariant of the depth-first worklist of `topological_sort`:
    /// `w` holds pending visits (`false`) and post-visit markers (`true`),
    /// `vis` the visited flags and `ord` the finished nodes in finishing
    /// order.
    spec fn topo_inv(&self, w: Seq<(NodeHandle, bool)>, vis: Seq<bool>, ord: Seq<NodeHandle>) -> bool {
        &&& self.wf()
        &&& self.node_count() <= usize::MAX
        &&& vis.len() == self.node_count()
        &&& forall|i: int| 0 <= i < w.len() ==> (#[trigger] w[i]).0@ < self.node_count()
        &&& forall|a: int| 0 <= a < ord.len() ==> (#[trigger] ord[a])@ < self.node_count() && vis[ord[a]@ as int]
        &&& ord.no_duplicates()
        &&& ord.len() == count_present(ord, self.node_count())
        &&& forall|i: int| 0 <= i < w.len() && (#[trigger] w[i]).1 ==> vis[w[i].0@ as int] && !ord.contains(w[i].0)
        &&& forall|i: int, j: int|
            0 <= i < w.len() && 0 <= j < w.len() && (#[trigger] w[i]).1 && (#[trigger] w[j]).1 && w[i].0 == w[j].0 ==> i == j
        &&& forall|x: usize|
            x < self.node_count() && #[trigger] vis[x as int] && !ord.contains(handle(x)) ==> exists|i: int|
                0 <= i < w.len() && #[trigger] w[i] == (handle(x), true)
        &&& forall|x: usize|
            x < self.node_count() ==> #[trigger] vis[x as int] || exists|i: int|
                0 <= i < w.len() && #[trigger] w[i] == (handle(x), false)
        &&& self.acyclic() ==> forall|i: int, j: int|
            0 <= i < j < w.len() && (#[trigger] w[i]).1 ==> self.reachable(w[i].0@ as int, (#[trigger] w[j]).0@ as int)
        &&& self.acyclic() ==> forall|i: int, k: int|
            0 <= i < w.len() && (#[trigger] w[i]).1 && 0 <= k < self.succ(w[i].0@ as int).len()
                && self.succ(w[i].0@ as int)[k] != w[i].0 ==> ord.contains(#[trigger] self.succ(w[i].0@ as int)[k])
                || exists|j: int| i < j < w.len() && (#[trigger] w[j]).0 == self.succ(w[i].0@ as int)[k]
        &&& self.acyclic() ==> forall|a: int, k: int|
            0 <= a < ord.len() && 0 <= k < self.succ((#[trigger] ord[a])@ as int).len()
                && self.succ(ord[a]@ as int)[k] != ord[a] ==> ord.contains(#[trigger] self.succ(ord[a]@ as int)[k])
        &&& self.acyclic() ==> forall|a: int, b: int|
            0 <= a < b < ord.len() ==> !self.has_edge((#[trigger] ord[a])@ as int, (#[trigger] ord[b])@ as int)
    }

    proof fn lemma_topo_post(&self, w: Seq<(NodeHandle, bool)>, vis: Seq<bool>, ord: Seq<NodeHandle>)
        requires
            self.topo_inv(w, vis, ord),
            w.len() > 0,
            w.last().1,
        ensures
            self.topo_inv(w.drop_last(), vis, ord.push(w.last().0)),
    {
        let t = w.len() - 1;
        let c = w[t].0;
        let w2 = w.drop_last();
        let ord2 = ord.push(c);
        assert(!ord.contains(c));
        lemma_count_present_push(ord, c, self.node_count());
        assert(ord2.no_duplicates()) by {
            assert forall|a: int, b: int| 0 <= a < ord2.len() && 0 <= b < ord2.len() && a != b implies ord2[a] != ord2[b] by {
                if a < ord.len() && b < ord.len() {
                } else if a == ord.len() {
                    assert(ord2[b] == ord[b]);
                } else {
                    assert(ord2[a] == ord[a]);
                }
            }
        }
        assert forall|i: int| 0 <= i < w2.len() && (#[trigger] w2[i]).1 implies vis[w2[i].0@ as int] && !ord2.contains(w2[i].0) by {
            assert(w2[i] == w[i]);
            assert(w[i].0 != c) by {
                if w[i].0 == c {
                    assert(w[t].1);
                }
            }
            if ord2.contains(w2[i].0) {
                let a = choose|a: int| 0 <= a < ord2.len() && ord2[a] == w2[i].0;
                if a < ord.len() {
                    assert(ord.contains(w[i].0));
                }
            }
        }
        assert forall|x: usize|
            x < self.node_count() && #[trigger] vis[x as int] && !ord2.contains(handle(x)) implies exists|i: int|
                0 <= i < w2.len() && #[trigger] w2[i] == (handle(x), true) by {
            assert(!ord.contains(handle(x))) by {
                if ord.contains(handle(x)) {
                    let a = choose|a: int| 0 <= a < ord.len() && ord[a] == handle(x);
                    assert(ord2[a] == handle(x));
                }
            }
            let i = choose|i: int| 0 <= i < w.len() && #[trigger] w[i] == (handle(x), true);
            if i == t {
                assert(ord2[ord.len() as int] == handle(x));
            }
            assert(w2[i] == w[i]);
        }
        assert forall|x: usize| x < self.node_count() implies #[trigger] vis[x as int] || exists|i: int|
            0 <= i < w2.len() && #[trigger] w2[i] == (handle(x), false) by {
            if !vis[x as int] {
                let i = choose|i: int| 0 <= i < w.len() && #[trigger] w[i] == (handle(x), false);
                assert(w2[i] == w[i]);
            }
        }
        assert forall|a: int| 0 <= a < ord2.len() implies (#[trigger] ord2[a])@ < self.node_count() && vis[ord2[a]@ as int] by {
            if a < ord.len() {
                assert(ord2[a] == ord[a]);
            }
        }
        if self.acyclic() {
            assert forall|i: int, j: int|
                0 <= i < j < w2.len() && (#[trigger] w2[i]).1 implies self.reachable(w2[i].0@ as int, (#[trigger] w2[j]).0@ as int) by {
                assert(w2[i] == w[i] && w2[j] == w[j]);
                assert(w[i].1);
                assert(self.reachable(w[i].0@ as int, w[j].0@ as int));
            }
            assert forall|i: int, k: int|
                0 <= i < w2.len() && (#[trigger] w2[i]).1 && 0 <= k < self.succ(w2[i].0@ as int).len()
                    && self.succ(w2[i].0@ as int)[k] != w2[i].0 implies ord2.contains(#[trigger] self.succ(w2[i].0@ as int)[k])
                    || exists|j: int| i < j < w2.len() && (#[trigger] w2[j]).0 == self.succ(w2[i].0@ as int)[k] by {
                assert(w2[i] == w[i]);
                let sk = self.succ(w[i].0@ as int)[k];
                if ord.contains(sk) {
                    let a = choose|a: int| 0 <= a < ord.len() && ord[a] == sk;
                    assert(ord2[a] == sk);
                } else {
                    assert(w[i].1);
                    let j = choose|j: int| i < j < w.len() && (#[trigger] w[j]).0 == sk;
                    if j == t {
                        assert(ord2[ord.len() as int] == sk);
                    } else {
                        assert(w2[j] == w[j]);
                    }
                }
            }
            assert forall|a: int, k: int|
                0 <= a < ord2.len() && 0 <= k < self.succ((#[trigger] ord2[a])@ as int).len()
                    && self.succ(ord2[a]@ as int)[k] != ord2[a] implies ord2.contains(#[trigger] self.succ(ord2[a]@ as int)[k]) by {
                let sk = self.succ(ord2[a]@ as int)[k];
                if a < ord.len() {
                    assert(ord2[a] == ord[a]);
                    assert(ord.contains(sk));
                } else {
                    assert(ord2[a] == c);
                    assert(w[t].1);
                    assert(self.succ(w[t].0@ as int)[k] == sk);
                    assert(ord.contains(sk) || exists|j: int| t < j < w.len() && (#[trigger] w[j]).0 == sk);
                }
                let b = choose|b: int| 0 <= b < ord.len() && ord[b] == sk;
                assert(ord2[b] == sk);
            }
            assert forall|a: int, b: int|
                0 <= a < b < ord2.len() implies !self.has_edge((#[trigger] ord2[a])@ as int, (#[trigger] ord2[b])@ as int) by {
                if b < ord.len() {
                    assert(ord2[a] == ord[a] && ord2[b] == ord[b]);
                } else {
                    assert(ord2[a] == ord[a]);
                    assert(ord2[b] == c);
                    if self.has_edge(ord[a]@ as int, c@ as int) {
                        let u = ord[a];
                        let k = choose|k: int| 0 <= k < self.succ(u@ as int).len() && #[trigger] self.succ(u@ as int)[k]@ == c@;
                        assert(self.succ(u@ as int)[k] == c);
                        assert(u != c);
                        assert(ord.contains(self.succ(u@ as int)[k]));
                    }
                }
            }
        }
    }

    proof fn lemma_topo_skip(&self, w: Seq<(NodeHandle, bool)>, vis: Seq<bool>, ord: Seq<NodeHandle>)
        requires
            self.topo_inv(w, vis, ord),
            w.len() > 0,
            !w.last().1,
            vis[w.last().0@ as int],
        ensures
            self.topo_inv(w.drop_last(), vis, ord),
    {
        let t = w.len() - 1;
        let c = w[t].0;
        let w2 = w.drop_last();
        assert forall|i: int| 0 <= i < w2.len() && (#[trigger] w2[i]).1 implies vis[w2[i].0@ as int] && !ord.contains(w2[i].0) by {
            assert(w2[i] == w[i]);
        }
        assert forall|i: int, j: int|
            0 <= i < w2.len() && 0 <= j < w2.len() && (#[trigger] w2[i]).1 && (#[trigger] w2[j]).1 && w2[i].0 == w2[j].0 implies i == j by {
            assert(w2[i] == w[i] && w2[j] == w[j]);
        }
        assert forall|x: usize|
            x < self.node_count() && #[trigger] vis[x as int] && !ord.contains(handle(x)) implies exists|i: int|
                0 <= i < w2.len() && #[trigger] w2[i] == (handle(x), true) by {
            let i = choose|i: int| 0 <= i < w.len() && #[trigger] w[i] == (handle(x), true);
            assert(w2[i] == w[i]);
        }
        assert forall|x: usize| x < self.node_count() implies #[trigger] vis[x as int] || exists|i: int|
            0 <= i < w2.len() && #[trigger] w2[i] == (handle(x), false) by {
            if !vis[x as int] {
                let i = choose|i: int| 0 <= i < w.len() && #[trigger] w[i] == (handle(x), false);
                assert(i != t);
                assert(w2[i] == w[i]);
            }
        }
        assert forall|i: int| 0 <= i < w2.len() implies (#[trigger] w2[i]).0@ < self.node_count() by {
            assert(w2[i] == w[i]);
        }
        if self.acyclic() {
            assert forall|i: int, j: int|
                0 <= i < j < w2.len() && (#[trigger] w2[i]).1 implies self.reachable(w2[i].0@ as int, (#[trigger] w2[j]).0@ as int) by {
                assert(w2[i] == w[i] && w2[j] == w[j]);
                assert(w[i].1);
                assert(self.reachable(w[i].0@ as int, w[j].0@ as int));
            }
            assert forall|i: int, k: int|
                0 <= i < w2.len() && (#[trigger] w2[i]).1 && 0 <= k < self.succ(w2[i].0@ as int).len()
                    && self.succ(w2[i].0@ as int)[k] != w2[i].0 implies ord.contains(#[trigger] self.succ(w2[i].0@ as int)[k])
                    || exists|j: int| i < j < w2.len() && (#[trigger] w2[j]).0 == self.succ(w2[i].0@ as int)[k] by {
                assert(w2[i] == w[i]);
                let y = w[i].0;
                let sk = self.succ(y@ as int)[k];
                assert(w[i].1);
                if !ord.contains(sk) {
                    let j = choose|j: int| i < j < w.len() && (#[trigger] w[j]).0 == sk;
                    if j == t {
                        // `sk == c` is visited but not finished: it has a post marker
                        assert(sk@ < self.node_count());
                        assert(vis[sk@ as int]);
                        assert(handle(sk@) == sk);
                        let m = choose|m: int| 0 <= m < w.len() && #[trigger] w[m] == (handle(sk@), true);
                        assert(m != t);
                        assert(m != i);
                        if m < i {
                            assert(w[m].1);
                            assert(self.reachable(w[m].0@ as int, w[i].0@ as int));
                            assert(self.has_edge(y@ as int, sk@ as int)) by {
                                assert(self.succ(y@ as int)[k]@ == sk@);
                            }
                            assert(y@ != sk@);
                            assert(false);
                        } else {
                            assert(w2[m] == w[m]);
                        }
                    } else {
                        assert(w2[j] == w[j]);
                    }
                }
            }
        }
    }

    proof fn lemma_topo_expand(
        &self,
        w: Seq<(NodeHandle, bool)>,
        vis: Seq<bool>,
        ord: Seq<NodeHandle>,
        c: NodeHandle,
    )
        requires
            self.topo_inv(w, vis, ord),
            w.len() > 0,
            w.last() == (c, false),
            !vis[c@ as int],
        ensures
            self.topo_inv(
                w.drop_last().push((c, true)) + self.succ(c@ as int).map_values(|h: NodeHandle| (h, false)),
                vis.update(c@ as int, true),
                ord,
            ),
    {
        let t = w.len() - 1;
        let sc = self.succ(c@ as int);
        let tail = sc.map_values(|h: NodeHandle| (h, false));
        let w2 = w.drop_last().push((c, true)) + tail;
        let vis2 = vis.update(c@ as int, true);
        assert(w2.len() == w.len() + sc.len());
        assert(w2[t] == (c, true));
        assert forall|i: int| 0 <= i < t implies #[trigger] w2[i] == w[i] by {}
        assert forall|j: int| t < j < w2.len() implies #[trigger] w2[j] == (sc[j - t - 1], false) by {}
        assert(!ord.contains(c)) by {
            if ord.contains(c) {
                let a = choose|a: int| 0 <= a < ord.len() && ord[a] == c;
                assert(vis[ord[a]@ as int]);
            }
        }
        assert forall|i: int| 0 <= i < w2.len() implies (#[trigger] w2[i]).0@ < self.node_count() by {
            if i < t {
                assert(w[i].0@ < self.node_count());
            } else if i > t {
                assert(sc[i - t - 1]@ < self.node_count());
            }
        }
        assert forall|a: int| 0 <= a < ord.len() implies (#[trigger] ord[a])@ < self.node_count() && vis2[ord[a]@ as int] by {}
        assert forall|i: int| 0 <= i < w2.len() && (#[trigger] w2[i]).1 implies vis2[w2[i].0@ as int] && !ord.contains(w2[i].0) by {
            if i < t {
                assert(w[i].1);
            }
        }
        assert forall|i: int, j: int|
            0 <= i < w2.len() && 0 <= j < w2.len() && (#[trigger] w2[i]).1 && (#[trigger] w2[j]).1 && w2[i].0 == w2[j].0 implies i == j by {
            if i < t && j < t {
                assert(w[i].1 && w[j].1);
            } else if i < t && j == t {
                assert(w[i].1);
                assert(vis[w[i].0@ as int]);
            } else if j < t && i == t {
                assert(w[j].1);
                assert(vis[w[j].0@ as int]);
            }
        }
        assert forall|x: usize|
            x < self.node_count() && #[trigger] vis2[x as int] && !ord.contains(handle(x)) implies exists|i: int|
                0 <= i < w2.len() && #[trigger] w2[i] == (handle(x), true) by {
            if x == c@ {
                assert(handle(x) == c);
                assert(w2[t] == (handle(x), true));
            } else {
                assert(vis[x as int]);
                let i = choose|i: int| 0 <= i < w.len() && #[trigger] w[i] == (handle(x), true);
                assert(i != t);
                assert(w2[i] == w[i]);
            }
        }
        assert forall|x: usize| x < self.node_count() implies #[trigger] vis2[x as int] || exists|i: int|
            0 <= i < w2.len() && #[trigger] w2[i] == (handle(x), false) by {
            if !vis2[x as int] {
                assert(!vis[x as int]);
                let i = choose|i: int| 0 <= i < w.len() && #[trigger] w[i] == (handle(x), false);
                if i == t {
                    assert(handle(x) == c);
                }
                assert(w2[i] == w[i]);
            }
        }
        if self.acyclic() {
            assert forall|i: int, j: int|
                0 <= i < j < w2.len() && (#[trigger] w2[i]).1 implies self.reachable(w2[i].0@ as int, (#[trigger] w2[j]).0@ as int) by {
                if j < t {
                    assert(w[i].1);
                    assert(self.reachable(w[i].0@ as int, w[j].0@ as int));
                } else if j == t {
                    assert(w[i].1);
                    assert(self.reachable(w[i].0@ as int, w[t].0@ as int));
                } else {
                    let s = sc[j - t - 1];
                    assert(self.has_edge(c@ as int, s@ as int)) by {
                        assert(self.succ(c@ as int)[j - t - 1]@ == s@);
                    }
                    if i < t {
                        assert(w[i].1);
                        assert(self.reachable(w[i].0@ as int, w[t].0@ as int));
                        self.lemma_reach_trans_edge(w[i].0@ as int, c@ as int, s@ as int);
                    } else {
                        assert(i == t);
                        self.lemma_reach_trans_edge(c@ as int, c@ as int, s@ as int);
                    }
                }
            }
            assert forall|i: int, k: int|
                0 <= i < w2.len() && (#[trigger] w2[i]).1 && 0 <= k < self.succ(w2[i].0@ as int).len()
                    && self.succ(w2[i].0@ as int)[k] != w2[i].0 implies ord.contains(#[trigger] self.succ(w2[i].0@ as int)[k])
                    || exists|j: int| i < j < w2.len() && (#[trigger] w2[j]).0 == self.succ(w2[i].0@ as int)[k] by {
                if i < t {
                    assert(w[i].1);
                    let sk = self.succ(w[i].0@ as int)[k];
                    if !ord.contains(sk) {
                        let j = choose|j: int| i < j < w.len() && (#[trigger] w[j]).0 == sk;
                        if j < t {
                            assert(w2[j] == w[j]);
                        } else {
                            assert(w2[t].0 == sk);
                        }
                    }
                } else {
                    assert(i == t);
                    let jj = t + 1 + k;
                    assert(w2[jj] == (sc[k], false));
                }
            }
        }
    }

    /// Total of `1 + out-degree` over the unvisited nodes among `0 .. k`.
    spec fn unvisited_weight(&self, vis: Seq<bool>, k: nat) -> nat
        decreases k,
    {
        if k == 0 {
            0
        } else {
            self.unvisited_weight(vis, (k - 1) as nat) + if vis[k - 1] {
                0nat
            } else {
                1 + self.succ(k - 1).len()
            }
        }
    }

    proof fn lemma_unvisited_weight_mark(&self, vis: Seq<bool>, c: int, k: nat)
        requires
            0 <= c < vis.len(),
            k <= vis.len(),
            !vis[c],
        ensures
            c < k ==> self.unvisited_weight(vis, k) == self.unvisited_weight(vis.update(c, true), k) + 1
                + self.succ(c).len(),
            c >= k ==> self.unvisited_weight(vis, k) == self.unvisited_weight(vis.update(c, true), k),
        decreases k,
    {
        if k > 0 {
            self.lemma_unvisited_weight_mark(vis, c, (k - 1) as nat);
        }
    }

    /// Reverse-postorder of an iterative depth-first search that starts
    /// from every node in index order: every node once, and for a graph
    /// without cycles (self-loops aside) every edge points forward.
    fn topological_sort(&self) -> (r: Vec<NodeHandle>)
        requires
            self.wf(),
        ensures
            forall|i: int| 0 <= i < r@.len() ==> (#[trigger] r@[i])@ < self.node_count(),
            r@.no_duplicates(),
            forall|x: usize| x < self.node_count() ==> #[trigger] r@.contains(handle(x)),
            r@.len() == self.node_count(),
            self.acyclic() ==> forall|i: int, j: int|
                0 <= i < j < r@.len() ==> !self.has_edge((#[trigger] r@[j])@ as int, (#[trigger] r@[i])@ as int),
    {
        let n = self.nodes.len();
        let mut order: Vec<NodeHandle> = Vec::new();
        let mut visited = vec![false; n];
        let mut worklist: Vec<(NodeHandle, bool)> = Vec::new();
        let mut i: usize = 0;
        while i < n
            invariant
                i <= n,
                n == self.node_count(),
                worklist@ == Seq::new(i as nat, |j: int| (handle(j as usize), false)),
            decreases n - i,
        {
            worklist.push((NodeHandle::new(i), false));
            i += 1;
            proof {
                assert(worklist@ =~= Seq::new(i as nat, |j: int| (handle(j as usize), false)));
            }
        }
        proof {
            assert forall|x: usize| x < self.node_count() implies #[trigger] visited@[x as int] || exists|i: int|
                0 <= i < worklist@.len() && #[trigger] worklist@[i] == (handle(x), false) by {
                assert(worklist@[x as int] == (handle(x), false));
            }
            assert(count_present(order@, 0) == 0);
            assert forall|k: nat| k <= self.node_count() implies count_present(order@, k) == 0 by {
                lemma_count_present_zero(order@, k);
            }
            assert(self.topo_inv(worklist@, visited@, order@));
        }
        while worklist.len() > 0
            invariant
                self.topo_inv(worklist@, visited@, order@),
                n == self.node_count(),
            decreases worklist@.len() + self.unvisited_weight(visited@, n as nat),
        {
            let ghost w = worklist@;
            let entry = worklist.pop();
            let (current, post) = match entry {
                Some(e) => e,
                None => {
                    return Vec::new();
                },
            };
            assert(w.drop_last() =~= worklist@);
            if post {
                proof { self.lemma_topo_post(w, visited@, order@); }
                order.push(current);
                continue;
            }
            if visited[current.idx] {
                proof { self.lemma_topo_skip(w, visited@, order@); }
                continue;
            }
            let ghost vis0 = visited@;
            proof {
                self.lemma_unvisited_weight_mark(vis0, current@ as int, n as nat);
            }
            visited.set(current.idx, true);
            worklist.push((current, true));
            let ghost base = worklist@;
            let succs = &self.nodes[current.idx].successors;
            let mut k: usize = 0;
            while k < succs.len()
                invariant
                    k <= succs@.len(),
                    succs@ == self.succ(current@ as int),
                    worklist@ == base + succs@.subrange(0, k as int).map_values(|h: NodeHandle| (h, false)),
                decreases succs@.len() - k,
            {
                worklist.push((succs[k], false));
                k += 1;
                proof {
                    assert(worklist@ =~= base + succs@.subrange(0, k as int).map_values(|h: NodeHandle| (h, false)));
                }
            }
            proof {
                assert(succs@.subrange(0, k as int) =~= succs@);
                assert(base =~= w.drop_last().push((current, true)));
                self.lemma_topo_expand(w, vis0, order@, current);
            }
        }
        let ghost ord = order@;
        assert(worklist@ =~= Seq::<(NodeHandle, bool)>::empty());
        proof {
            assert forall|x: usize| x < self.node_count() implies #[trigger] ord.contains(handle(x)) by {
                if !ord.contains(handle(x)) {
                    assert(visited@[x as int] || exists|i: int| 0 <= i < worklist@.len() && #[trigger] worklist@[i] == (handle(x), false));
                    assert(exists|i: int| 0 <= i < worklist@.len() && #[trigger] worklist@[i] == (handle(x), true));
                }
            }
            lemma_count_present_all(ord, self.node_count());
        }
        let len = order.len();
        let mut result: Vec<NodeHandle> = Vec::new();
        let mut j: usize = len;
        while j > 0
            invariant
                j <= len,
                len == ord.len(),
                order@ == ord,
                result@ == Seq::new((len - j) as nat, |a: int| ord[len - 1 - a]),
                self.topo_inv(Seq::empty(), visited@, ord),
                forall|x: usize| x < self.node_count() ==> #[trigger] ord.contains(handle(x)),
            decreases j,
        {
            j -= 1;
            result.push(order[j]);
            proof {
                assert(result@ =~= Seq::new((len - j) as nat, |a: int| ord[len - 1 - a]));
            }
        }
        proof {
            let r = result@;
            assert forall|i: int| 0 <= i < r.len() implies (#[trigger] r[i])@ < self.node_count() by {
                assert(r[i] == ord[len - 1 - i]);
            }
            assert forall|a: int, b: int| 0 <= a < r.len() && 0 <= b < r.len() && a != b implies r[a] != r[b] by {
                assert(r[a] == ord[len - 1 - a] && r[b] == ord[len - 1 - b]);
            }
            assert forall|x: usize| x < self.node_count() implies #[trigger] r.contains(handle(x)) by {
                assert(ord.contains(handle(x)));
                let a = choose|a: int| 0 <= a < ord.len() && ord[a] == handle(x);
                assert(r[len - 1 - a] == ord[a]);
            }
            if self.acyclic() {
                assert forall|i: int, j: int| 0 <= i < j < r.len() implies !self.has_edge((#[trigger] r[j])@ as int, (#[trigger] r[i])@ as int) by {
                    assert(r[j] == ord[len - 1 - j] && r[i] == ord[len - 1 - i]);
                    assert(!self.has_edge(ord[len - 1 - j]@ as int, ord[len - 1 - i]@ as int));
                }
            }
        }
        result
    }

    /// `lv` is the longest-path layering: every edge between distinct nodes
    /// climbs at least one rank, and a node above rank 0 sits exactly one
    /// rank above some predecessor.
    pub open spec fn longest_path_layering(&self, lv: Seq<usize>) -> bool {
        &&& lv.len() == self.node_count()
        &&& forall|u: int, v: int| #[trigger] self.has_edge(u, v) && u != v ==> lv[v] >= lv[u] + 1
        &&& forall|v: int|
            0 <= v < lv.len() && lv[v] != 0 ==> exists|u: int|
                #[trigger] self.has_edge(u, v) && u != v && lv[v] == lv[u] + 1
    }

    /// Levels via single-source longest-path: each successor is at least
    /// one above its predecessor's level.
    fn compute_levels(&self, order: &Vec<NodeHandle>) -> (r: Vec<usize>)
        requires
            self.wf(),
            order@.len() == self.node_count(),
            forall|i: int| 0 <= i < order@.len() ==> (#[trigger] order@[i])@ < self.node_count(),
            order@.no_duplicates(),
            forall|x: usize| x < self.node_count() ==> #[trigger] order@.contains(handle(x)),
            self.acyclic() ==> forall|i: int, j: int|
                0 <= i < j < order@.len() ==> !self.has_edge((#[trigger] order@[j])@ as int, (#[trigger] order@[i])@ as int),
        ensures
            r@.len() == self.node_count(),
            forall|x: int| 0 <= x < r@.len() ==> #[trigger] r@[x] <= self.node_count(),
            self.acyclic() ==> self.longest_path_layering(r@),
    {
        let n = self.nodes.len();
        let mut levels: Vec<usize> = Vec::new();
        let mut i: usize = 0;
        while i < n
            invariant
                i <= n,
                levels@ == Seq::new(i as nat, |j: int| 0usize),
            decreases n - i,
        {
            levels.push(0);
            i += 1;
            proof {
                assert(levels@ =~= Seq::new(i as nat, |j: int| 0usize));
            }
        }
        let mut p: usize = 0;
        while p < order.len()
            invariant
                self.wf(),
                n == self.node_count(),
                order@.len() == n,
                forall|i: int| 0 <= i < order@.len() ==> (#[trigger] order@[i])@ < n,
                order@.no_duplicates(),
                forall|x: usize| x < self.node_count() ==> #[trigger] order@.contains(handle(x)),
                self.acyclic() ==> forall|i: int, j: int|
                    0 <= i < j < order@.len() ==> !self.has_edge((#[trigger] order@[j])@ as int, (#[trigger] order@[i])@ as int),
                p <= n,
                levels@.len() == n,
                forall|x: int| 0 <= x < n ==> #[trigger] levels@[x] <= p,
                self.acyclic() ==> forall|a: int, k: int|
                    0 <= a < p && 0 <= k < self.succ((#[trigger] order@[a])@ as int).len()
                        && self.succ(order@[a]@ as int)[k] != order@[a] ==> levels@[(#[trigger] self.succ(order@[a]@ as int)[k])@ as int]
                        >= levels@[order@[a]@ as int] + 1,
                self.acyclic() ==> forall|v: int|
                    0 <= v < n && #[trigger] levels@[v] != 0 ==> exists|a: int|
                        0 <= a < p && self.has_edge((#[trigger] order@[a])@ as int, v) && order@[a]@ != v
                            && levels@[v] == levels@[order@[a]@ as int] + 1,
            decreases n - p,
        {
            let src = order[p];
            let ghost lv0 = levels@;
            let ghost lsrc = levels@[src@ as int];
            let succs = &self.nodes[src.idx].successors;
            let mut k: usize = 0;
            while k < succs.len()
                invariant
                    self.wf(),
                    n == self.node_count(),
                    order@.len() == n,
                    forall|i: int| 0 <= i < order@.len() ==> (#[trigger] order@[i])@ < n,
                    order@.no_duplicates(),
                    self.acyclic() ==> forall|i: int, j: int|
                        0 <= i < j < order@.len() ==> !self.has_edge((#[trigger] order@[j])@ as int, (#[trigger] order@[i])@ as int),
                    p < n,
                    src == order@[p as int],
                    succs@ == self.succ(src@ as int),
                    k <= succs@.len(),
                    levels@.len() == n,
                    lv0.len() == n,
                    levels@[src@ as int] == lsrc,
                    lsrc <= p,
                    forall|x: int| 0 <= x < n ==> #[trigger] levels@[x] <= p + 1,
                    forall|x: int| 0 <= x < n ==> #[trigger] levels@[x] >= lv0[x],
                    forall|j: int| 0 <= j < k && #[trigger] succs@[j] != src ==> levels@[succs@[j]@ as int] >= lsrc + 1,
                    forall|x: int|
                        0 <= x < n ==> #[trigger] levels@[x] == lv0[x] || (self.has_edge(src@ as int, x) && src@ != x
                            && levels@[x] == lsrc + 1),
                    self.acyclic() ==> forall|a: int| 0 <= a < p ==> levels@[(#[trigger] order@[a])@ as int] == lv0[order@[a]@ as int],
                decreases succs@.len() - k,
            {
                let dest = succs[k];
                assert(self.succ(src@ as int)[k as int]@ < n);
                if src.idx != dest.idx {
                    let cand = levels[src.idx] + 1;
                    if cand > levels[dest.idx] {
                        proof {
                            assert(self.has_edge(src@ as int, dest@ as int)) by {
                                assert(self.succ(src@ as int)[k as int]@ == dest@);
                            }
                            if self.acyclic() {
                                assert forall|a: int| 0 <= a < p implies order@[a] != dest by {
                                    if order@[a] == dest {
                                        assert(!self.has_edge(order@[p as int]@ as int, order@[a]@ as int));
                                    }
                                }
                            }
                        }
                        levels.set(dest.idx, cand);
                        proof {
                            if self.acyclic() {
                                assert forall|a: int| 0 <= a < p implies levels@[(#[trigger] order@[a])@ as int] == lv0[order@[a]@ as int] by {
                                    assert(order@[a] != dest);
                                    assert(order@[a]@ != dest@);
                                }
                            }
                        }
                    }
                }
                proof {
                    assert(succs@[k as int] == dest);
                    if src != dest {
                        assert(src@ != dest@);
                    }
                }
                k += 1;
            }
            proof {
                if self.acyclic() {
                    let pp = (p + 1) as int;
                    assert forall|a: int, kk: int|
                        0 <= a < pp && 0 <= kk < self.succ((#[trigger] order@[a])@ as int).len()
                            && self.succ(order@[a]@ as int)[kk] != order@[a] implies levels@[(#[trigger] self.succ(order@[a]@ as int)[kk])@ as int]
                            >= levels@[order@[a]@ as int] + 1 by {
                        if a < p {
                            let d = self.succ(order@[a]@ as int)[kk];
                            assert(lv0[d@ as int] >= lv0[order@[a]@ as int] + 1);
                        } else {
                            assert(order@[a] == src);
                            assert(succs@[kk] != src);
                        }
                    }
                    assert forall|v: int|
                        0 <= v < n && #[trigger] levels@[v] != 0 implies exists|a: int|
                            0 <= a < pp && self.has_edge((#[trigger] order@[a])@ as int, v) && order@[a]@ != v
                                && levels@[v] == levels@[order@[a]@ as int] + 1 by {
                        if levels@[v] == lv0[v] {
                            let a = choose|a: int|
                                0 <= a < p && self.has_edge((#[trigger] order@[a])@ as int, v) && order@[a]@ != v
                                    && lv0[v] == lv0[order@[a]@ as int] + 1;
                            assert(levels@[order@[a]@ as int] == lv0[order@[a]@ as int]);
                        } else {
                            assert(order@[p as int] == src);
                        }
                    }
                }
            }
            p += 1;
        }
        proof {
            if self.acyclic() {
                assert forall|u: int, v: int| #[trigger] self.has_edge(u, v) && u != v implies levels@[v] >= levels@[u] + 1 by {
                    let kk = choose|kk: int| 0 <= kk < self.succ(u).len() && #[trigger] self.succ(u)[kk]@ == v;
                    let hu = handle(u as usize);
                    assert(order@.contains(hu));
                    let a = choose|a: int| 0 <= a < order@.len() && order@[a] == hu;
                    assert(self.succ(order@[a]@ as int)[kk] != order@[a]);
                }
                assert forall|v: int|
                    0 <= v < levels@.len() && levels@[v] != 0 implies exists|u: int|
                        #[trigger] self.has_edge(u, v) && u != v && levels@[v] == levels@[u] + 1 by {
                    let a = choose|a: int|
                        0 <= a < n && self.has_edge((#[trigger] order@[a])@ as int, v) && order@[a]@ != v
                            && levels@[v] == levels@[order@[a]@ as int] + 1;
                    let u = order@[a]@ as int;
                    assert(self.has_edge(u, v));
                }
            }
        }
        levels
    }

    /// `rows` is the layering `lv` written out row by row: each node of
    /// `0 .. count` appears in row `lv[node]`, every row lists only nodes of
    /// its rank in increasing order, and the last row is not empty.
    pub open spec fn rows_match(rows: Seq<Seq<NodeHandle>>, lv: Seq<usize>, count: nat) -> bool {
        &&& forall|l: int, j: int|
            0 <= l < rows.len() && 0 <= j < rows[l].len() ==> (#[trigger] rows[l][j])@ < count && lv[rows[l][j]@ as int] == l
        &&& forall|l: int, j1: int, j2: int|
            0 <= l < rows.len() && 0 <= j1 < j2 < rows[l].len() ==> (#[trigger] rows[l][j1])@ < (#[trigger] rows[l][j2])@
        &&& forall|x: usize| #![trigger lv[x as int]] x < count ==> lv[x as int] < rows.len() && rows[lv[x as int] as int].contains(handle(x))
        &&& count == 0 ==> rows.len() == 0
        &&& count > 0 ==> exists|x: int| 0 <= x < count && #[trigger] lv[x] == rows.len() - 1
    }

    proof fn lemma_rows_match_add(rows: Seq<Seq<NodeHandle>>, lv: Seq<usize>, i: usize)
        requires
            Self::rows_match(rows, lv, i as nat),
            i < lv.len(),
        ensures
            Self::rows_match(add_to_row(rows, lv[i as int] as int, handle(i)), lv, (i + 1) as nat),
    {
        let l0 = lv[i as int] as int;
        let h = handle(i);
        let padded = pad_rows(rows, (l0 + 1) as nat);
        let r2 = add_to_row(rows, l0, h);
        assert(h@ == i);
        assert forall|l: int| 0 <= l < padded.len() implies #[trigger] padded[l] == if l < rows.len() { rows[l] } else { Seq::<NodeHandle>::empty() } by {}
        assert forall|l: int, j: int|
            0 <= l < r2.len() && 0 <= j < r2[l].len() implies (#[trigger] r2[l][j])@ < i + 1 && lv[r2[l][j]@ as int] == l by {
            if l == l0 && j == r2[l].len() - 1 {
            } else {
                assert(r2[l][j] == rows[l][j]);
            }
        }
        assert forall|l: int, j1: int, j2: int|
            0 <= l < r2.len() && 0 <= j1 < j2 < r2[l].len() implies (#[trigger] r2[l][j1])@ < (#[trigger] r2[l][j2])@ by {
            assert(r2[l][j1] == rows[l][j1]);
            if l == l0 && j2 == r2[l].len() - 1 {
            } else {
                assert(r2[l][j2] == rows[l][j2]);
            }
        }
        assert(r2.len() >= rows.len() && r2.len() > l0);
        assert forall|x: usize| x < i + 1 implies #[trigger] lv[x as int] < r2.len() by {
            if x < i {
                assert(lv[x as int] < rows.len() && rows[lv[x as int] as int].contains(handle(x)));
            }
        }
        assert forall|x: usize| x < i + 1 implies lv[x as int] < r2.len() && #[trigger] r2[lv[x as int] as int].contains(handle(x)) by {
            if x == i {
                assert(r2[l0][r2[l0].len() - 1] == h);
            } else {
                let lx = lv[x as int] as int;
                assert(rows[lx].contains(handle(x)));
                let j = choose|j: int| 0 <= j < rows[lx].len() && rows[lx][j] == handle(x);
                assert(r2[lx][j] == rows[lx][j]);
            }
        }
        assert(r2.len() > 0);
        if l0 + 1 > rows.len() {
            assert(r2.len() == l0 + 1);
            assert(lv[i as int] == r2.len() - 1);
            assert(exists|x: int| 0 <= x < i + 1 && #[trigger] lv[x] == r2.len() - 1);
        } else {
            assert(r2.len() == rows.len());
            assert(exists|x: int| 0 <= x < i + 1 && #[trigger] lv[x] == r2.len() - 1);
            if i > 0 {
                let x = choose|x: int| 0 <= x < i && #[trigger] lv[x] == rows.len() - 1;
                assert(lv[x] == r2.len() - 1);
            } else {
                assert(false);
            }
        }
        assert((i + 1) as nat > 0);
        assert(((i + 1) as nat == 0) ==> r2.len() == 0);
        assert(exists|x: int| 0 <= x < (i + 1) as nat && #[trigger] lv[x] == r2.len() - 1);
    }

    /// Recompute every node's rank as its longest-path layer (ranks follow
    /// a topological order) and rebuild the rows from scratch: row `l`
    /// lists the nodes of rank `l` in increasing index order.
    pub fn recompute_node_ranks(&mut self)
        requires
            old(self).wf(),
            old(self).node_count() > 0,
            old(self).node_count() < usize::MAX,
        ensures
            final(self).wf(),
            final(self).node_count() == old(self).node_count(),
            forall|u: int| #[trigger] final(self).succ(u) == old(self).succ(u),
            forall|u: int| #[trigger] final(self).pred(u) == old(self).pred(u),
            old(self).acyclic() ==> final(self).longest_path_layering(final(self).levels_of()),
            Self::rows_match(final(self).rows(), final(self).levels_of(), final(self).node_count()),
    {
        let order = self.topological_sort();
        let levels = self.compute_levels(&order);
        let ghost nodes0 = self.nodes@;
        self.ranks.clear();
        proof {
            assert(self.rows() =~= Seq::<Seq<NodeHandle>>::empty());
        }
        let mut i: usize = 0;
        while i < levels.len()
            invariant
                levels@.len() == self.node_count(),
                self.nodes@ == nodes0,
                self.levels@.len() == levels@.len(),
                forall|x: int| 0 <= x < i ==> #[trigger] self.levels@[x] == levels@[x],
                forall|x: int| 0 <= x < levels@.len() ==> #[trigger] levels@[x] <= self.node_count(),
                self.node_count() < usize::MAX,
                i <= levels@.len(),
                Self::rows_match(self.rows(), levels@, i as nat),
            decreases levels@.len() - i,
        {
            let ghost before = self.rows();
            proof {
                Self::lemma_rows_match_add(before, levels@, i);
            }
            self.add_element_to_rank(NodeHandle::new(i), levels[i]);
            i += 1;
        }
        proof {
            assert(self.levels@ =~= levels@);
            Self::lemma_wf_same_nodes(*old(self), *self);
            if old(self).acyclic() {
                assert forall|u: int, v: int| #[trigger] self.has_edge(u, v) <==> old(self).has_edge(u, v) by {
                    assert(self.succ(u) == old(self).succ(u));
                }
                assert(old(self).longest_path_layering(levels@));
                assert(self.levels_of() == levels@);
                assert(self.node_count() == old(self).node_count());
                assert forall|u: int, v: int| #[trigger] self.has_edge(u, v) && u != v implies levels@[v] >= levels@[u] + 1 by {
                    assert(old(self).has_edge(u, v));
                }
                assert forall|v: int|
                    0 <= v < levels@.len() && levels@[v] != 0 implies exists|u: int|
                        #[trigger] self.has_edge(u, v) && u != v && levels@[v] == levels@[u] + 1 by {
                    let u = choose|u: int| #[trigger] old(self).has_edge(u, v) && u != v && levels@[v] == levels@[u] + 1;
                    assert(self.has_edge(u, v));
                }
            }
        }
    }

    pub fn new() -> (r: Self)
        ensures
            r.wf(),
            r.node_count() == 0,
            r.rows().len() == 0,
    {
        DAG { nodes: Vec::new(), ranks: Vec::new(), levels: Vec::new() }
    }

    /// Iterator over all node handles, in index order.
    pub fn iter(&self) -> (r: NodeIterator)
        ensures
            r.position() == 0,
            r.end() == self.node_count(),
    {
        NodeIterator { curr: 0, last: self.nodes.len() }
    }

    pub fn len(&self) -> (r: usize)
        ensures
            r == self.node_count(),
    {
        self.nodes.len()
    }

    pub fn is_empty(&self) -> (r: bool)
        ensures
            r == (self.node_count() == 0),
    {
        self.nodes.len() == 0
    }


    /// Remove one `from -> to` edge (its first occurrence on each side).
    /// Returns true if there was an edge to remove.
    pub fn remove_edge(&mut self, from: NodeHandle, to: NodeHandle) -> (r: bool)
        requires
            old(self).wf(),
            from@ < old(self).node_count(),
            to@ < old(self).node_count(),
        ensures
            final(self).wf(),
            r == old(self).succ(from@ as int).contains(to),
            r == old(self).pred(to@ as int).contains(from),
            final(self).node_count() == old(self).node_count(),
            final(self).succ(from@ as int) == old(self).succ(from@ as int).remove_value(to),
            final(self).pred(to@ as int) == old(self).pred(to@ as int).remove_value(from),
            forall|u: int| 0 <= u < old(self).node_count() && u != from@ ==> #[trigger] final(self).succ(u) == old(self).succ(u),
            forall|u: int| 0 <= u < old(self).node_count() && u != to@ ==> #[trigger] final(self).pred(u) == old(self).pred(u),
            final(self).levels_of() == old(self).levels_of(),
            final(self).rows() == old(self).rows(),
    {
        let ghost old_self = *self;
        proof {
            NodeHandle::lemma_handle_ext(to);
            NodeHandle::lemma_handle_ext(from);
            assert(occurrences(old_self.succ(from@ as int), handle(to@)) == occurrences(old_self.pred(to@ as int), handle(from@)));
        }
        let ps = position_of(&self.nodes[from.idx].successors, to);
        let removed_succ = match ps {
            Some(p) => {
                proof {
                    let q = old_self.succ(from@ as int).index_of_first(to);
                    assert(q == Some(p as int));
                }
                self.nodes[from.idx].successors.remove(p);
                true
            },
            None => false,
        };
        let pp = position_of(&self.nodes[to.idx].predecessors, from);
        let removed_pred = match pp {
            Some(p) => {
                proof {
                    let q = old_self.pred(to@ as int).index_of_first(from);
                    assert(q == Some(p as int));
                }
                self.nodes[to.idx].predecessors.remove(p);
                true
            },
            None => false,
        };
        proof {
            assert(removed_succ == removed_pred);
            assert forall|u: usize, v: usize|
                u < self.node_count() && v < self.node_count() implies #[trigger] occurrences(
                self.succ(u as int),
                handle(v),
            ) == #[trigger] occurrences(self.pred(v as int), handle(u)) by {
                assert(occurrences(old_self.succ(u as int), handle(v)) == occurrences(old_self.pred(v as int), handle(u)));
            }
            assert forall|u: int, k: int|
                0 <= u < self.node_count() && 0 <= k < self.succ(u).len() implies #[trigger] self.succ(u)[k]@ < self.node_count() by {
                if u == from@ && removed_succ {
                    let p = ps.unwrap() as int;
                    if k < p {
                        assert(self.succ(u)[k] == old_self.succ(u)[k]);
                    } else {
                        assert(self.succ(u)[k] == old_self.succ(u)[k + 1]);
                    }
                } else {
                    assert(self.succ(u)[k] == old_self.succ(u)[k]);
                }
            }
            assert forall|u: int, k: int|
                0 <= u < self.node_count() && 0 <= k < self.pred(u).len() implies #[trigger] self.pred(u)[k]@ < self.node_count() by {
                if u == to@ && removed_pred {
                    let p = pp.unwrap() as int;
                    if k < p {
                        assert(self.pred(u)[k] == old_self.pred(u)[k]);
                    } else {
                        assert(self.pred(u)[k] == old_self.pred(u)[k + 1]);
                    }
                } else {
                    assert(self.pred(u)[k] == old_self.pred(u)[k]);
                }
            }
            assert(self.rows() =~= old_self.rows());
        }
        removed_pred
    }

    /// Add a node with no edges; it is placed at the end of rank 0.
    pub fn new_node(&mut self) -> (r: NodeHandle)
        requires
            old(self).wf(),
        ensures
            final(self).wf(),
            r@ == old(self).node_count(),
            final(self).node_count() == old(self).node_count() + 1,
            final(self).succ(r@ as int).len() == 0,
            final(self).pred(r@ as int).len() == 0,
            forall|u: int| 0 <= u < old(self).node_count() ==> #[trigger] final(self).succ(u) == old(self).succ(u),
            forall|u: int| 0 <= u < old(self).node_count() ==> #[trigger] final(self).pred(u) == old(self).pred(u),
            final(self).levels_of() == old(self).levels_of().push(0),
            final(self).rows() == add_to_row(old(self).rows(), 0, r),
    {
        let ghost old_self = *self;
        self.nodes.push(Node::new());
        self.levels.push(0);
        let node = NodeHandle::new(self.nodes.len() - 1);
        proof {
            assert forall|u: usize, v: usize|
                u < self.node_count() && v < self.node_count() implies #[trigger] occurrences(
                self.succ(u as int),
                handle(v),
            ) == #[trigger] occurrences(self.pred(v as int), handle(u)) by {
                if u < old_self.node_count() && v < old_self.node_count() {
                    assert(occurrences(old_self.succ(u as int), handle(v)) == occurrences(old_self.pred(v as int), handle(u)));
                } else {
                    if u == old_self.node_count() {
                        assert(self.succ(u as int) =~= Seq::<NodeHandle>::empty());
                    } else {
                        assert(!old_self.succ(u as int).contains(handle(v)));
                    }
                    if v == old_self.node_count() {
                        assert(self.pred(v as int) =~= Seq::<NodeHandle>::empty());
                    } else {
                        assert(!old_self.pred(v as int).contains(handle(u)));
                    }
                }
            }
            assert forall|u: int, k: int|
                0 <= u < self.node_count() && 0 <= k < self.succ(u).len() implies #[trigger] self.succ(u)[k]@ < self.node_count() by {
                assert(self.succ(u)[k] == old_self.succ(u)[k]);
            }
            assert forall|u: int, k: int|
                0 <= u < self.node_count() && 0 <= k < self.pred(u).len() implies #[trigger] self.pred(u)[k]@ < self.node_count() by {
                assert(self.pred(u)[k] == old_self.pred(u)[k]);
            }
        }
        let ghost mid = *self;
        self.add_element_to_rank(node, 0);
        proof {
            Self::lemma_wf_same_nodes(mid, *self);
        }
        node
    }

    /// Well-formedness depends on the edges and the number of levels only:
    /// editing the rows keeps it.
    pub proof fn lemma_wf_same_edges(a: Self, b: Self)
        requires
            a.wf(),
            b.node_count() == a.node_count(),
            forall|u: int| #[trigger] b.succ(u) == a.succ(u),
            forall|u: int| #[trigger] b.pred(u) == a.pred(u),
            b.levels_of().len() == a.levels_of().len(),
        ensures
            b.wf(),
    {
        assert forall|u: usize, v: usize|
            u < b.node_count() && v < b.node_count() implies #[trigger] occurrences(
            b.succ(u as int),
            handle(v),
        ) == #[trigger] occurrences(b.pred(v as int), handle(u)) by {
            assert(occurrences(a.succ(u as int), handle(v)) == occurrences(a.pred(v as int), handle(u)));
        }
        assert forall|u: int, k: int|
            0 <= u < b.node_count() && 0 <= k < b.succ(u).len() implies #[trigger] b.succ(u)[k]@ < b.node_count() by {
            assert(b.succ(u)[k] == a.succ(u)[k]);
        }
        assert forall|u: int, k: int|
            0 <= u < b.node_count() && 0 <= k < b.pred(u).len() implies #[trigger] b.pred(u)[k]@ < b.node_count() by {
            assert(b.pred(u)[k] == a.pred(u)[k]);
        }
    }

    proof fn lemma_wf_same_nodes(a: Self, b: Self)
        requires
            a.wf(),
            a.nodes@ == b.nodes@,
            a.levels@.len() == b.levels@.len(),
        ensures
            b.wf(),
            forall|u: int| #[trigger] b.succ(u) == a.succ(u),
            forall|u: int| #[trigger] b.pred(u) == a.pred(u),
    {
        assert forall|u: usize, v: usize|
            u < b.node_count() && v < b.node_count() implies #[trigger] occurrences(
            b.succ(u as int),
            handle(v),
        ) == #[trigger] occurrences(b.pred(v as int), handle(u)) by {
            assert(occurrences(a.succ(u as int), handle(v)) == occurrences(a.pred(v as int), handle(u)));
        }
        assert forall|u: int, k: int|
            0 <= u < b.node_count() && 0 <= k < b.succ(u).len() implies #[trigger] b.succ(u)[k]@ < b.node_count() by {
            assert(b.succ(u)[k] == a.succ(u)[k]);
        }
        assert forall|u: int, k: int|
            0 <= u < b.node_count() && 0 <= k < b.pred(u).len() implies #[trigger] b.pred(u)[k]@ < b.node_count() by {
            assert(b.pred(u)[k] == a.pred(u)[k]);
        }
    }

    /// Put `elem` at the end of row `level` (creating empty rows as needed)
    /// and record `level` as its rank.
    fn add_element_to_rank(&mut self, elem: NodeHandle, level: usize)
        requires
            elem@ < old(self).levels_of().len(),
            level < usize::MAX,
        ensures
            final(self).nodes@ == old(self).nodes@,
            final(self).levels_of() == old(self).levels_of().update(elem@ as int, level),
            final(self).rows() == add_to_row(old(self).rows(), level as int, elem),
    {
        let ghost old_rows = self.rows();
        while self.ranks.len() < level + 1
            invariant
                level < usize::MAX,
                self.rows() == pad_rows(old_rows, self.ranks@.len() as nat),
                self.nodes@ == old(self).nodes@,
                self.levels@ == old(self).levels@,
                self.ranks@.len() <= if old_rows.len() > level + 1 { old_rows.len() } else { (level + 1) as nat },
                self.ranks@.len() >= old_rows.len(),
            decreases level + 1 - self.ranks@.len(),
        {
            let ghost before = self.rows();
            self.ranks.push(Vec::new());
            proof {
                assert(self.rows() =~= before.push(Seq::<NodeHandle>::empty()));
                assert(pad_rows(old_rows, self.ranks@.len() as nat) =~= pad_rows(old_rows, (self.ranks@.len() - 1) as nat).push(Seq::<NodeHandle>::empty()));
            }
        }
        let ghost padded = self.rows();
        proof {
            assert(padded == pad_rows(old_rows, (level + 1) as nat));
        }
        self.ranks[level].push(elem);
        self.levels.set(elem.idx, level);
        proof {
            assert(self.rows() =~= add_to_row(old_rows, level as int, elem));
        }
    }

    /// The successor list of `from`.
    pub fn successors(&self, from: NodeHandle) -> (r: &Vec<NodeHandle>)
        requires
            from@ < self.node_count(),
        ensures
            r@ == self.succ(from@ as int),
    {
        &self.nodes[from.idx].successors
    }

    /// The predecessor list of `from`.
    pub fn predecessors(&self, from: NodeHandle) -> (r: &Vec<NodeHandle>)
        requires
            from@ < self.node_count(),
        ensures
            r@ == self.pred(from@ as int),
    {
        &self.nodes[from.idx].predecessors
    }

    /// The only predecessor of `from`, if it has exactly one.
    pub fn single_pred(&self, from: NodeHandle) -> (r: Option<NodeHandle>)
        requires
            from@ < self.node_count(),
        ensures
            r == (if self.pred(from@ as int).len() == 1 {
                Some(self.pred(from@ as int)[0])
            } else {
                None
            }),
    {
        let p = &self.nodes[from.idx].predecessors;
        if p.len() == 1 {
            Some(p[0])
        } else {
            None
        }
    }

    /// The only successor of `from`, if it has exactly one.
    pub fn single_succ(&self, from: NodeHandle) -> (r: Option<NodeHandle>)
        requires
            from@ < self.node_count(),
        ensures
            r == (if self.succ(from@ as int).len() == 1 {
                Some(self.succ(from@ as int)[0])
            } else {
                None
            }),
    {
        let p = &self.nodes[from.idx].successors;
        if p.len() == 1 {
            Some(p[0])
        } else {
            None
        }
    }

    /// Number of rows of the layering.
    pub fn num_levels(&self) -> (r: usize)
        ensures
            r == self.rows().len(),
    {
        self.ranks.len()
    }

    /// Row `level` of the layering, for editing.
    pub fn row_mut(&mut self, level: usize) -> (r: &mut Vec<NodeHandle>)
        requires
            level < old(self).rows().len(),
        ensures
            r@ == old(self).rows()[level as int],
            final(self).rows() == old(self).rows().update(level as int, final(r)@),
            final(self).node_count() == old(self).node_count(),
            forall|u: int| #[trigger] final(self).succ(u) == old(self).succ(u),
            forall|u: int| #[trigger] final(self).pred(u) == old(self).pred(u),
            final(self).levels_of() == old(self).levels_of(),
    {
        &mut self.ranks[level]
    }

    /// Row `level` of the layering.
    pub fn row(&self, level: usize) -> (r: &Vec<NodeHandle>)
        requires
            level < self.rows().len(),
        ensures
            r@ == self.rows()[level as int],
    {
        &self.ranks[level]
    }

    /// All rows of the layering.
    pub fn ranks(&self) -> (r: &RankType)
        ensures
            r@.map_values(|v: Vec<NodeHandle>| v@) == self.rows(),
    {
        &self.ranks
    }

    /// All rows of the layering, for editing.
    pub fn ranks_mut(&mut self) -> (r: &mut RankType)
        ensures
            r@.map_values(|v: Vec<NodeHandle>| v@) == old(self).rows(),
            final(self).rows() == final(r)@.map_values(|v: Vec<NodeHandle>| v@),
            final(self).node_count() == old(self).node_count(),
            forall|u: int| #[trigger] final(self).succ(u) == old(self).succ(u),
            forall|u: int| #[trigger] final(self).pred(u) == old(self).pred(u),
            final(self).levels_of() == old(self).levels_of(),
    {
        &mut self.ranks
    }

    /// The rank recorded for `node`.
    pub fn level(&self, node: NodeHandle) -> (r: usize)
        requires
            node@ < self.levels_of().len(),
        ensures
            r == self.levels_of()[node@ as int],
    {
        self.levels[node.get_index()]
    }

    /// Depth-first search for `to` from `from`, skipping (and marking)
    /// visited nodes.
    fn is_reachable_inner(&self, from: NodeHandle, to: NodeHandle, visited: &mut Vec<bool>) -> (r: bool)
        requires
            self.wf(),
            from@ < self.node_count(),
            old(visited)@.len() == self.node_count(),
            to@ < self.node_count() ==> !old(visited)@[to@ as int],
        ensures
            final(visited)@.len() == self.node_count(),
            forall|i: int| 0 <= i < old(visited)@.len() && old(visited)@[i] ==> final(visited)@[i],
            to@ < self.node_count() ==> !final(visited)@[to@ as int],
            r ==> self.reachable(from@ as int, to@ as int),
            !r ==> final(visited)@[from@ as int],
            !r ==> forall|x: int, k: int|
                0 <= x < self.node_count() && final(visited)@[x] && !old(visited)@[x] && 0 <= k
                    < self.succ(x).len() ==> final(visited)@[#[trigger] self.succ(x)[k]@ as int],
        decreases count_false(old(visited)@),
    {
        if from == to {
            return true;
        }
        if visited[from.idx] {
            return false;
        }
        let ghost v0 = visited@;
        visited.set(from.idx, true);
        proof {
            lemma_count_false_mono(v0, visited@);
        }
        let succs = &self.nodes[from.idx].successors;
        let mut k: usize = 0;
        while k < succs.len()
            invariant
                self.wf(),
                from@ < self.node_count(),
                succs@ == self.succ(from@ as int),
                k <= succs@.len(),
                visited@.len() == self.node_count(),
                v0.len() == self.node_count(),
                v0 == old(visited)@,
                !v0[from@ as int],
                visited@[from@ as int],
                forall|i: int| 0 <= i < v0.len() && v0[i] ==> visited@[i],
                to@ < self.node_count() ==> !visited@[to@ as int],
                count_false(visited@) < count_false(v0),
                forall|j: int| 0 <= j < k ==> visited@[#[trigger] succs@[j]@ as int],
                forall|x: int, kk: int|
                    0 <= x < self.node_count() && visited@[x] && !v0[x] && x != from@ && 0 <= kk
                        < self.succ(x).len() ==> visited@[#[trigger] self.succ(x)[kk]@ as int],
            decreases succs@.len() - k,
        {
            let dest = succs[k];
            let ghost vb = visited@;
            assert(dest@ < self.node_count());
            if self.is_reachable_inner(dest, to, visited) {
                proof {
                    assert(self.has_edge(from@ as int, dest@ as int)) by {
                        assert(self.succ(from@ as int)[k as int]@ == dest@);
                    }
                    self.lemma_reach_step(from@ as int, dest@ as int, to@ as int);
                }
                return true;
            }
            proof {
                lemma_count_false_mono(vb, visited@);
                assert forall|x: int, kk: int|
                    0 <= x < self.node_count() && visited@[x] && !v0[x] && x != from@ && 0 <= kk
                        < self.succ(x).len() implies visited@[#[trigger] self.succ(x)[kk]@ as int] by {
                    if vb[x] {
                        assert(vb[self.succ(x)[kk]@ as int]);
                    }
                }
            }
            k += 1;
        }
        false
    }

    /// Whether `to` can be reached from `from` along edges.
    pub fn is_reachable(&self, from: NodeHandle, to: NodeHandle) -> (r: bool)
        requires
            self.wf(),
            from == to || from@ < self.node_count(),
        ensures
            r == self.reachable(from@ as int, to@ as int),
    {
        if from == to {
            return true;
        }
        let mut visited = vec![false; self.nodes.len()];
        let ghost v0 = visited@;
        let r = self.is_reachable_inner(from, to, &mut visited);
        proof {
            if !r && self.reachable(from@ as int, to@ as int) {
                let p = choose|p: Seq<int>| #[trigger] self.is_path(p) && p[0] == from@ && p.last() == to@;
                assert forall|x: int, k: int|
                    0 <= x < visited@.len() && visited@[x] && 0 <= k < self.succ(x).len() implies visited@[#[trigger] self.succ(x)[k]@ as int] by {
                    assert(!v0[x]);
                }
                self.lemma_closed_contains_path(visited@, p);
                if p.len() > 1 {
                    let i = p.len() - 2;
                    assert(self.has_edge(p[i], p[i + 1]));
                }
            }
        }
        r
    }

    /// Move `node` to `new_level`; if `insert_before` is set, insert it
    /// just before that marker, otherwise append.
    pub fn update_node_rank_level(&mut self, node: NodeHandle, new_level: usize, insert_before: Option<NodeHandle>)
        requires
            old(self).wf(),
            node@ < old(self).node_count(),
            old(self).levels_of()[node@ as int] < old(self).rows().len(),
            old(self).rows()[old(self).levels_of()[node@ as int] as int].contains(node),
            new_level < usize::MAX,
            insert_before matches Some(m) ==> rows_without(
                old(self).rows(),
                node,
                old(self).levels_of()[node@ as int] as int,
                new_level as int,
            )[new_level as int].contains(m),
        ensures
            final(self).wf(),
            final(self).node_count() == old(self).node_count(),
            forall|u: int| #[trigger] final(self).succ(u) == old(self).succ(u),
            forall|u: int| #[trigger] final(self).pred(u) == old(self).pred(u),
            final(self).levels_of() == old(self).levels_of().update(node@ as int, new_level),
            final(self).rows() == rows_moved(
                old(self).rows(),
                node,
                old(self).levels_of()[node@ as int] as int,
                new_level as int,
                insert_before,
            ),
    {
        let ghost rows0 = self.rows();
        let curr_level = self.level(node);
        let found = position_of(&self.ranks[curr_level], node);
        let idx = match found {
            Some(i) => i,
            None => {
                proof {
                    assert(false);
                }
                return;
            },
        };
        self.ranks[curr_level].remove(idx);
        let ghost r1 = rows0.update(curr_level as int, rows0[curr_level as int].remove_value(node));
        proof {
            assert(self.rows() =~= r1);
        }
        while self.ranks.len() < new_level + 1
            invariant
                new_level < usize::MAX,
                self.rows() == pad_rows(r1, self.ranks@.len() as nat),
                self.nodes@ == old(self).nodes@,
                self.levels@ == old(self).levels@,
                self.ranks@.len() <= if r1.len() > new_level + 1 { r1.len() } else { (new_level + 1) as nat },
                self.ranks@.len() >= r1.len(),
            decreases new_level + 1 - self.ranks@.len(),
        {
            let ghost before = self.rows();
            self.ranks.push(Vec::new());
            proof {
                assert(self.rows() =~= before.push(Seq::<NodeHandle>::empty()));
                assert(pad_rows(r1, self.ranks@.len() as nat) =~= pad_rows(r1, (self.ranks@.len() - 1) as nat).push(Seq::<NodeHandle>::empty()));
            }
        }
        let ghost r2 = self.rows();
        proof {
            assert(r2 == rows_without(rows0, node, curr_level as int, new_level as int));
        }
        match insert_before {
            Some(marker) => {
                let pos = match position_of(&self.ranks[new_level], marker) {
                    Some(p) => p,
                    None => {
                        proof {
                            assert(false);
                        }
                        return;
                    },
                };
                self.ranks[new_level].insert(pos, node);
            },
            None => {
                self.ranks[new_level].push(node);
            },
        }
        self.levels.set(node.idx, new_level);
        proof {
            assert(self.rows() =~= rows_moved(rows0, node, curr_level as int, new_level as int, insert_before));
            Self::lemma_wf_same_nodes(*old(self), *self);
        }
    }

    /// Checks the graph: the nodes' successors exist, no edge between
    /// distinct nodes lies on a cycle, and the rows hold as many entries
    /// as there are nodes. Graphs that fail the check are not accepted.
    pub fn verify(&self)
        requires
            self.wf(),
            self.acyclic(),
            rows_size(self.rows(), self.rows().len()) == self.node_count(),
    {
        let ok = self.is_consistent();
        proof {
            assert(ok);
        }
    }

    /// Whether no edge between distinct nodes lies on a cycle and the
    /// rows hold as many entries as there are nodes.
    pub fn is_consistent(&self) -> (r: bool)
        requires
            self.wf(),
        ensures
            r == (self.acyclic() && rows_size(self.rows(), self.rows().len()) == self.node_count()),
    {
        let n = self.nodes.len();
        let mut i: usize = 0;
        while i < n
            invariant
                self.wf(),
                n == self.node_count(),
                i <= n,
                forall|u: int, v: int| 0 <= u < i && #[trigger] self.has_edge(u, v) && u != v ==> !self.reachable(v, u),
            decreases n - i,
        {
            let from = NodeHandle::new(i);
            let succs = &self.nodes[i].successors;
            let mut k: usize = 0;
            while k < succs.len()
                invariant
                    self.wf(),
                    n == self.node_count(),
                    i < n,
                    from@ == i,
                    succs@ == self.succ(i as int),
                    k <= succs@.len(),
                    forall|u: int, v: int| 0 <= u < i && #[trigger] self.has_edge(u, v) && u != v ==> !self.reachable(v, u),
                    forall|j: int| 0 <= j < k && (#[trigger] succs@[j])@ != i ==> !self.reachable(succs@[j]@ as int, i as int),
                decreases succs@.len() - k,
            {
                let dest = succs[k];
                proof {
                    assert(self.succ(i as int)[k as int]@ < n);
                }
                if self.is_reachable(dest, from) && from != dest {
                    proof {
                        assert(self.has_edge(i as int, dest@ as int)) by {
                            assert(self.succ(i as int)[k as int]@ == dest@);
                        }
                        assert(from@ != dest@);
                    }
                    return false;
                }
                proof {
                    if dest@ != i {
                        assert(from != dest);
                    }
                }
                k += 1;
            }
            proof {
                assert forall|u: int, v: int| 0 <= u < i + 1 && #[trigger] self.has_edge(u, v) && u != v implies !self.reachable(v, u) by {
                    if u == i {
                        let kk = choose|kk: int| 0 <= kk < self.succ(u).len() && #[trigger] self.succ(u)[kk]@ == v;
                        assert(succs@[kk]@ == v);
                    }
                }
            }
            i += 1;
        }
        let ghost rows = self.rows();
        let mut total: usize = 0;
        let mut l: usize = 0;
        while l < self.ranks.len()
            invariant
                rows == self.rows(),
                l <= rows.len(),
                total == rows_size(rows, l as nat),
                total <= n,
                n == self.node_count(),
            decreases rows.len() - l,
        {
            let len = self.ranks[l].len();
            if len > n - total {
                proof {
                    lemma_rows_size_mono(rows, (l + 1) as nat, rows.len());
                }
                return false;
            }
            total += len;
            l += 1;
        }
        total == n
    }

    /// Add the edge `from -> to` (kept even if it is already present).
    pub fn add_edge(&mut self, from: NodeHandle, to: NodeHandle)
        requires
            old(self).wf(),
            from@ < old(self).node_count(),
            to@ < old(self).node_count(),
        ensures
            final(self).wf(),
            final(self).node_count() == old(self).node_count(),
            final(self).succ(from@ as int) == old(self).succ(from@ as int).push(to),
            final(self).pred(to@ as int) == old(self).pred(to@ as int).push(from),
            forall|u: int| 0 <= u < old(self).node_count() && u != from@ ==> #[trigger] final(self).succ(u) == old(self).succ(u),
            forall|u: int| 0 <= u < old(self).node_count() && u != to@ ==> #[trigger] final(self).pred(u) == old(self).pred(u),
            final(self).levels_of() == old(self).levels_of(),
            final(self).rows() == old(self).rows(),
    {
        let ghost old_self = *self;
        self.nodes[from.idx].successors.push(to);
        self.nodes[to.idx].predecessors.push(from);
        proof {
            assert forall|u: usize, v: usize|
                u < self.node_count() && v < self.node_count() implies #[trigger] occurrences(
                self.succ(u as int),
                handle(v),
            ) == #[trigger] occurrences(self.pred(v as int), handle(u)) by {
                NodeHandle::lemma_handle_ext(to);
                NodeHandle::lemma_handle_ext(from);
                assert(occurrences(old_self.succ(u as int), handle(v)) == occurrences(old_self.pred(v as int), handle(u)));
            }
            assert forall|u: int, k: int|
                0 <= u < self.node_count() && 0 <= k < self.succ(u).len() implies #[trigger] self.succ(u)[k]@ < self.node_count() by {
                if u == from@ && k == self.succ(u).len() - 1 {
                } else {
                    assert(self.succ(u)[k] == old_self.succ(u)[k]);
                }
            }
            assert forall|u: int, k: int|
                0 <= u < self.node_count() && 0 <= k < self.pred(u).len() implies #[trigger] self.pred(u)[k]@ < self.node_count() by {
                if u == to@ && k == self.pred(u).len() - 1 {
                } else {
                    assert(self.pred(u)[k] == old_self.pred(u)[k]);
                }
            }
            assert(self.rows() =~= old_self.rows());
        }
    }
}

impl Default for DAG {
    fn default() -> (r: Self)
        ensures
            r.wf(),
            r.node_count() == 0,
            r.rows().len() == 0,
    {
        Self::new()
    }
}

} // verus!
