//! Counting edge crossings by sweeping port endpoints through a Fenwick
//! tree.
//!
//! The ports taking part are numbered by position along a
//! counter-clockwise walk (between two layers: down the left layer's east
//! side, then up the right layer's west side). Every edge then becomes a
//! chord between two positions, and two chords cross exactly when their
//! endpoints interleave. The sweep visits the positions in order; at each
//! position the tree holds, by end position, the chords that started
//! earlier and are still open, so `rank(end)` counts the open chords that
//! a new chord crosses.

use vstd::prelude::*;
use crate::layout::elk::alg::graph::{LGraphArena, LNodeId, LPortId};
use crate::layout::elk::alg::options::PortSide;
use crate::layout::elk::alg::p1_cycles::{lemma_port_list, source_node, target_node};
use crate::layout::elk::alg::p4nodes::bk::is_in_layer_edge;
use crate::layout::elk::alg::p3order::layer_sweep::{normalized_side, rightward};
use crate::layout::elk::alg::p3order::binary_indexed_tree::{
    BinaryIndexedTree, lemma_rank_after_add, lemma_rank_monotone, nonneg, prefix,
};

verus! {

/// How many times `x` occurs in `s`.
pub open spec fn occ(s: Seq<usize>, x: int) -> int
    decreases s.len(),
{
    if s.len() == 0 {
        0
    } else {
        occ(s.drop_last(), x) + if s.last() == x { 1int } else { 0 }
    }
}

/// Chords that start at a position before `c` and end at `x`, when `x`
/// lies after their start. `ends[p]` lists the far ends of the edges at
/// position `p`.
pub open spec fn open_at(ends: Seq<Seq<usize>>, c: int, x: int) -> int
    decreases c,
{
    if c <= 0 {
        0
    } else {
        open_at(ends, c - 1, x) + if x > c - 1 { occ(ends[c - 1], x) } else { 0 }
    }
}

/// The chords open at position `c` (started before it, ending after it),
/// counted by end position.
pub open spec fn open_seq(ends: Seq<Seq<usize>>, c: int) -> Seq<int> {
    Seq::new(ends.len(), |x: int| if x > c { open_at(ends, c, x) } else { 0 })
}

/// The open chords at `c` that a chord from `c` to `e` crosses: those
/// ending strictly between `c` and `e`.
pub open spec fn crossed_by(ends: Seq<Seq<usize>>, c: int, e: int) -> int {
    prefix(open_seq(ends, c), e)
}

/// Crossings of the first `k` edges at position `c` with the chords open
/// there (an edge counts from its lower end only).
pub open spec fn port_crossings(ends: Seq<Seq<usize>>, c: int, k: int) -> int
    decreases k,
{
    if k <= 0 {
        0
    } else {
        port_crossings(ends, c, k - 1) + if ends[c][k - 1] > c {
            crossed_by(ends, c, ends[c][k - 1] as int)
        } else {
            0
        }
    }
}

/// Number of interleaving chord pairs whose later-starting chord starts
/// before position `p`.
pub open spec fn sweep_crossings(ends: Seq<Seq<usize>>, p: int) -> int
    decreases p,
{
    if p <= 0 {
        0
    } else {
        sweep_crossings(ends, p - 1) + port_crossings(ends, p - 1, ends[p - 1].len() as int)
    }
}

/// Number of edge ends at the positions before `p`.
pub open spec fn ends_before(ends: Seq<Seq<usize>>, p: int) -> int
    decreases p,
{
    if p <= 0 {
        0
    } else {
        ends_before(ends, p - 1) + ends[p - 1].len()
    }
}

/// Every far end names a position.
pub open spec fn ends_in_range(ends: Seq<Seq<usize>>) -> bool {
    forall|p: int, k: int| 0 <= p < ends.len() && 0 <= k < ends[p].len() ==> #[trigger] ends[p][k] < ends.len()
}

/// The elements of `s` greater than `c`, in order.
pub open spec fn above(s: Seq<usize>, c: int) -> Seq<usize>
    decreases s.len(),
{
    if s.len() == 0 {
        s
    } else if s.last() > c {
        above(s.drop_last(), c).push(s.last())
    } else {
        above(s.drop_last(), c)
    }
}

proof fn lemma_occ_above(s: Seq<usize>, c: int, x: int)
    ensures
        occ(above(s, c), x) == if x > c { occ(s, x) } else { 0 },
    decreases s.len(),
{
    if s.len() > 0 {
        lemma_occ_above(s.drop_last(), c, x);
        if s.last() > c {
            assert(above(s, c).drop_last() =~= above(s.drop_last(), c));
        }
    }
}

proof fn lemma_occ_nonneg(s: Seq<usize>, x: int)
    ensures
        occ(s, x) >= 0,
    decreases s.len(),
{
    if s.len() > 0 {
        lemma_occ_nonneg(s.drop_last(), x);
    }
}

proof fn lemma_open_nonneg(ends: Seq<Seq<usize>>, c: int, x: int)
    ensures
        open_at(ends, c, x) >= 0,
    decreases c,
{
    if c > 0 {
        lemma_open_nonneg(ends, c - 1, x);
        lemma_occ_nonneg(ends[c - 1], x);
    }
}

proof fn lemma_crossed_nonneg(ends: Seq<Seq<usize>>, c: int, e: int)
    requires
        0 <= e <= ends.len(),
    ensures
        crossed_by(ends, c, e) >= 0,
{
    let s = open_seq(ends, c);
    assert forall|k: int| 0 <= k < s.len() implies s[k] >= 0 by {
        lemma_open_nonneg(ends, c, k);
    }
    lemma_rank_monotone(s, 0, e);
}

proof fn lemma_port_mono(ends: Seq<Seq<usize>>, c: int, k: int)
    requires
        0 <= c < ends.len(),
        ends_in_range(ends),
        0 <= k <= ends[c].len(),
    ensures
        0 <= port_crossings(ends, c, k) <= port_crossings(ends, c, ends[c].len() as int),
    decreases ends[c].len() - k,
{
    if k < ends[c].len() {
        lemma_port_mono(ends, c, k + 1);
        if ends[c][k] > c {
            lemma_crossed_nonneg(ends, c, ends[c][k] as int);
        }
    }
    if k > 0 {
        lemma_port_nonneg(ends, c, k);
    }
}

proof fn lemma_port_nonneg(ends: Seq<Seq<usize>>, c: int, k: int)
    requires
        0 <= c < ends.len(),
        ends_in_range(ends),
        0 <= k <= ends[c].len(),
    ensures
        port_crossings(ends, c, k) >= 0,
    decreases k,
{
    if k > 0 {
        lemma_port_nonneg(ends, c, k - 1);
        if ends[c][k - 1] > c {
            lemma_crossed_nonneg(ends, c, ends[c][k - 1] as int);
        }
    }
}

proof fn lemma_sweep_mono(ends: Seq<Seq<usize>>, p: int, q: int)
    requires
        ends_in_range(ends),
        0 <= p <= q <= ends.len(),
    ensures
        0 <= sweep_crossings(ends, p) <= sweep_crossings(ends, q),
    decreases q,
{
    if p < q {
        lemma_sweep_mono(ends, p, q - 1);
        lemma_port_nonneg(ends, q - 1, ends[q - 1].len() as int);
    } else {
        lemma_sweep_nonneg(ends, p);
    }
}

proof fn lemma_sweep_nonneg(ends: Seq<Seq<usize>>, p: int)
    requires
        ends_in_range(ends),
        0 <= p <= ends.len(),
    ensures
        sweep_crossings(ends, p) >= 0,
    decreases p,
{
    if p > 0 {
        lemma_sweep_nonneg(ends, p - 1);
        lemma_port_nonneg(ends, p - 1, ends[p - 1].len() as int);
    }
}

proof fn lemma_above_bound(s: Seq<usize>, c: int, n: int)
    requires
        forall|k: int| 0 <= k < s.len() ==> #[trigger] s[k] < n,
    ensures
        above(s, c).len() <= s.len(),
        forall|i: int| 0 <= i < above(s, c).len() ==> #[trigger] above(s, c)[i] < n,
    decreases s.len(),
{
    if s.len() > 0 {
        let t = s.drop_last();
        assert forall|k: int| 0 <= k < t.len() implies #[trigger] t[k] < n by {
            assert(t[k] == s[k]);
        }
        lemma_above_bound(t, c, n);
        assert(s.last() == s[s.len() - 1]);
    }
}

proof fn lemma_ends_before_mono(ends: Seq<Seq<usize>>, p: int, q: int)
    requires
        0 <= p <= q <= ends.len(),
    ensures
        ends_before(ends, p) <= ends_before(ends, q),
    decreases q,
{
    if p < q {
        lemma_ends_before_mono(ends, p, q - 1);
    }
}

/// The far ends of the edges at each position, as a sequence of
/// sequences.
pub open spec fn ends_view(ends: &Vec<Vec<usize>>) -> Seq<Seq<usize>> {
    ends@.map_values(|v: Vec<usize>| v@)
}

/// The tree's counts when the sweep arrives at position `c`: the chords
/// started before `c` that end at or after it, by end position.
pub open spec fn arriving(ends: Seq<Seq<usize>>, c: int) -> Seq<int> {
    Seq::new(ends.len(), |x: int| if x >= c { open_at(ends, c, x) } else { 0 })
}

/// Number of chords open at position `c`.
pub open spec fn open_count(ends: Seq<Seq<usize>>, c: int) -> int {
    prefix(open_seq(ends, c), ends.len() as int)
}

/// Crossings counted at position `c`, from the tree holding the chords
/// open there: each edge reaching further crosses the open chords that end
/// before its far end. Afterwards the tree holds the counts for `c + 1`.
fn sweep_position(tree: &mut BinaryIndexedTree, ends: &Vec<Vec<usize>>, c: usize) -> (r: i32)
    requires
        ends@.len() < usize::MAX / 8,
        ends_in_range(ends_view(ends)),
        c < ends@.len(),
        old(tree).wf(),
        old(tree)@ == open_seq(ends_view(ends), c as int),
        old(tree).total() + ends@[c as int]@.len() <= i32::MAX,
        port_crossings(ends_view(ends), c as int, ends@[c as int]@.len() as int) <= i32::MAX,
    ensures
        final(tree).wf(),
        final(tree)@ == arriving(ends_view(ends), c + 1),
        final(tree).total() <= old(tree).total() + ends@[c as int]@.len(),
        r == port_crossings(ends_view(ends), c as int, ends@[c as int]@.len() as int),
{
    let ghost ev = ends_view(ends);
    let n = ends.len();
    let ghost start_total = tree.total();
    let row = &ends[c];
    proof {
        assert(row@ == ev[c as int]);
    }
    let mut crossings: i32 = 0;
    let mut stack: Vec<usize> = Vec::new();
    let mut k: usize = 0;
    while k < row.len()
        invariant
            n == ends@.len(),
            ev == ends_view(ends),
            ev.len() == n,
            ends_in_range(ev),
            c < n,
            row@ == ev[c as int],
            k <= row@.len(),
            tree.wf(),
            tree@ == open_seq(ev, c as int),
            tree.total() == start_total,
            stack@ == above(ev[c as int].subrange(0, k as int), c as int),
            crossings == port_crossings(ev, c as int, k as int),
            port_crossings(ev, c as int, ev[c as int].len() as int) <= i32::MAX,
        decreases row@.len() - k,
    {
        let e = row[k];
        proof {
            assert(ev[c as int][k as int] == e);
            lemma_port_mono(ev, c as int, k as int + 1);
            lemma_port_nonneg(ev, c as int, k as int);
            assert(e < n);
            lemma_crossed_nonneg(ev, c as int, e as int);
            let t = ev[c as int].subrange(0, k + 1);
            assert(t.drop_last() =~= ev[c as int].subrange(0, k as int));
            assert(t.last() == e);
        }
        if e > c {
            assert(port_crossings(ev, c as int, k + 1) == port_crossings(ev, c as int, k as int) + crossed_by(
                ev,
                c as int,
                e as int,
            ));
            let below = tree.rank(e);
            crossings = crossings + below;
            stack.push(e);
        }
        k += 1;
    }
    proof {
        assert(ev[c as int].subrange(0, row@.len() as int) =~= ev[c as int]);
    }
    let ghost pushed = stack@;
    let ghost base = tree@;
    proof {
        assert(pushed.subrange(0, pushed.len() as int) =~= pushed);
        assert forall|k: int| 0 <= k < ev[c as int].len() implies #[trigger] ev[c as int][k] < n by {}
        lemma_above_bound(ev[c as int], c as int, n as int);
    }
    while stack.len() > 0
        invariant
            n == ends@.len(),
            ev.len() == n,
            c < n,
            tree.wf(),
            tree@.len() == n,
            pushed == above(ev[c as int], c as int),
            stack@ == pushed.subrange(0, stack@.len() as int),
            stack@.len() <= pushed.len(),
            forall|i: int| 0 <= i < pushed.len() ==> #[trigger] pushed[i] < n,
            forall|x: int| 0 <= x < n ==> #[trigger] tree@[x] == base[x] + occ(pushed, x) - occ(stack@, x),
            tree.total() <= start_total + pushed.len() - stack@.len(),
            start_total + ev[c as int].len() <= i32::MAX,
            pushed.len() <= ev[c as int].len(),
        decreases stack@.len(),
    {
        let e = stack.pop().unwrap();
        let ghost before = tree@;
        tree.add(e);
        proof {
            let m: int = stack@.len() as int;
            let t = pushed.subrange(0, m + 1);
            assert(t.drop_last() =~= pushed.subrange(0, m as int));
            lemma_rank_after_add(before, e as int, n as int);
        }
    }
    proof {
        assert(pushed.subrange(0, 0) =~= Seq::<usize>::empty());
        assert forall|x: int| 0 <= x < n implies #[trigger] tree@[x] == arriving(ev, c + 1)[x] by {
            lemma_occ_above(ev[c as int], c as int, x);
        }
        assert(tree@ =~= arriving(ev, c + 1));
    }
    crossings
}

/// Drops the chords ending at `c` from the tree; returns how many chords
/// stay open.
fn arrive(tree: &mut BinaryIndexedTree, ends: &Vec<Vec<usize>>, c: usize) -> (open: i32)
    requires
        c < ends@.len(),
        old(tree).wf(),
        old(tree)@ == arriving(ends_view(ends), c as int),
    ensures
        final(tree).wf(),
        final(tree)@ == open_seq(ends_view(ends), c as int),
        final(tree).total() <= old(tree).total(),
        open == open_count(ends_view(ends), c as int),
        open >= 0,
{
    let ghost ev = ends_view(ends);
    let ghost before = tree@;
    proof {
        assert forall|x: int| 0 <= x < before.len() implies before[x] >= 0 by {
            lemma_open_nonneg(ev, c as int, x);
        }
        crate::layout::elk::alg::p3order::binary_indexed_tree::lemma_rank_after_remove_all(
            before,
            c as int,
            before.len() as int,
        );
        lemma_open_nonneg(ev, c as int, c as int);
    }
    tree.remove_all(c);
    proof {
        assert(tree@ =~= open_seq(ev, c as int));
        tree.lemma_wf_counts();
    }
    tree.size()
}

proof fn lemma_arriving_start(ends: Seq<Seq<usize>>)
    ensures
        arriving(ends, 0) == Seq::new(ends.len(), |_k: int| 0int),
{
    assert(arriving(ends, 0) =~= Seq::new(ends.len(), |_k: int| 0int));
}

/// Number of crossings between chords: at each position, in order, every
/// edge whose far end lies further on crosses the chords that are open
/// there and end before it. That is the number of pairs of interleaving
/// chords (`interleaving_pairs`).
pub fn count_crossings_on_ports(ends: &Vec<Vec<usize>>) -> (r: i32)
    requires
        ends@.len() < usize::MAX / 8,
        ends_in_range(ends_view(ends)),
        ends_before(ends_view(ends), ends@.len() as int) < i32::MAX,
        sweep_crossings(ends_view(ends), ends@.len() as int) <= i32::MAX,
    ensures
        r == sweep_crossings(ends_view(ends), ends@.len() as int),
        r == interleaving_pairs(ends_view(ends), ends@.len() as int),
{
    let ghost ev = ends_view(ends);
    let n = ends.len();
    let mut tree = BinaryIndexedTree::new(n);
    let mut crossings: i32 = 0;
    let mut c: usize = 0;
    proof {
        lemma_arriving_start(ev);
    }
    while c < n
        invariant
            n == ends@.len(),
            ev == ends_view(ends),
            ev.len() == n,
            n < usize::MAX / 8,
            ends_in_range(ev),
            ends_before(ev, n as int) < i32::MAX,
            sweep_crossings(ev, n as int) <= i32::MAX,
            c <= n,
            tree.wf(),
            tree@ == arriving(ev, c as int),
            tree.total() <= ends_before(ev, c as int),
            crossings == sweep_crossings(ev, c as int),
        decreases n - c,
    {
        arrive(&mut tree, ends, c);
        proof {
            lemma_sweep_mono(ev, c as int + 1, n as int);
            lemma_sweep_nonneg(ev, c as int);
            lemma_ends_before_mono(ev, c as int + 1, n as int);
        }
        let here = sweep_position(&mut tree, ends, c);
        crossings = crossings + here;
        c += 1;
    }
    proof {
        lemma_sweep_counts_interleaving_pairs(ev, n as int);
    }
    crossings
}

/// Crossings among edges inside one layer side, plus, for every edge that
/// leaves the layer, the in-layer chords open at its port.
pub open spec fn in_layer_crossings(ends: Seq<Seq<usize>>, between: Seq<i32>, p: int) -> int
    decreases p,
{
    if p <= 0 {
        0
    } else {
        in_layer_crossings(ends, between, p - 1) + port_crossings(ends, p - 1, ends[p - 1].len() as int)
            + open_count(ends, p - 1) * between[p - 1]
    }
}

proof fn lemma_open_count_nonneg(ends: Seq<Seq<usize>>, c: int)
    ensures
        open_count(ends, c) >= 0,
{
    let s = open_seq(ends, c);
    assert forall|k: int| 0 <= k < s.len() implies s[k] >= 0 by {
        lemma_open_nonneg(ends, c, k);
    }
    lemma_rank_monotone(s, 0, s.len() as int);
}

proof fn lemma_in_layer_mono(ends: Seq<Seq<usize>>, between: Seq<i32>, p: int, q: int)
    requires
        ends_in_range(ends),
        between.len() == ends.len(),
        forall|i: int| 0 <= i < between.len() ==> #[trigger] between[i] >= 0,
        0 <= p <= q <= ends.len(),
    ensures
        0 <= in_layer_crossings(ends, between, p) <= in_layer_crossings(ends, between, q),
    decreases q,
{
    if p < q {
        lemma_in_layer_mono(ends, between, p, q - 1);
        lemma_port_nonneg(ends, q - 1, ends[q - 1].len() as int);
        lemma_open_count_nonneg(ends, q - 1);
        let o = open_count(ends, q - 1);
        let b = between[q - 1] as int;
        assert(o * b >= 0) by (nonlinear_arith)
            requires
                o >= 0,
                b >= 0,
        ;
    } else {
        lemma_in_layer_nonneg(ends, between, p);
    }
}

proof fn lemma_in_layer_nonneg(ends: Seq<Seq<usize>>, between: Seq<i32>, p: int)
    requires
        ends_in_range(ends),
        between.len() == ends.len(),
        forall|i: int| 0 <= i < between.len() ==> #[trigger] between[i] >= 0,
        0 <= p <= ends.len(),
    ensures
        in_layer_crossings(ends, between, p) >= 0,
    decreases p,
{
    if p > 0 {
        lemma_in_layer_nonneg(ends, between, p - 1);
        lemma_port_nonneg(ends, p - 1, ends[p - 1].len() as int);
        lemma_open_count_nonneg(ends, p - 1);
        let o = open_count(ends, p - 1);
        let b = between[p - 1] as int;
        assert(o * b >= 0) by (nonlinear_arith)
            requires
                o >= 0,
                b >= 0,
        ;
    }
}

/// Number of crossings inside one side of a layer: `ends` lists, per
/// position, the far ends of the edges that stay in the layer, and
/// `between` how many of the port's edges leave it. An in-layer edge
/// crosses the open chords it straddles; an edge leaving the layer crosses
/// every chord open at its port.
pub fn count_in_layer_crossings_on_ports(ends: &Vec<Vec<usize>>, between: &Vec<i32>) -> (r: i32)
    requires
        ends@.len() < usize::MAX / 8,
        between@.len() == ends@.len(),
        forall|i: int| 0 <= i < between@.len() ==> #[trigger] between@[i] >= 0,
        ends_in_range(ends_view(ends)),
        ends_before(ends_view(ends), ends@.len() as int) < i32::MAX,
        in_layer_crossings(ends_view(ends), between@, ends@.len() as int) <= i32::MAX,
    ensures
        r == in_layer_crossings(ends_view(ends), between@, ends@.len() as int),
{
    let ghost ev = ends_view(ends);
    let n = ends.len();
    let mut tree = BinaryIndexedTree::new(n);
    let mut crossings: i32 = 0;
    let mut c: usize = 0;
    proof {
        lemma_arriving_start(ev);
    }
    while c < n
        invariant
            n == ends@.len(),
            ev == ends_view(ends),
            ev.len() == n,
            between@.len() == n,
            forall|i: int| 0 <= i < between@.len() ==> #[trigger] between@[i] >= 0,
            n < usize::MAX / 8,
            ends_in_range(ev),
            ends_before(ev, n as int) < i32::MAX,
            in_layer_crossings(ev, between@, n as int) <= i32::MAX,
            c <= n,
            tree.wf(),
            tree@ == arriving(ev, c as int),
            tree.total() <= ends_before(ev, c as int),
            crossings == in_layer_crossings(ev, between@, c as int),
        decreases n - c,
    {
        let open = arrive(&mut tree, ends, c);
        proof {
            lemma_in_layer_mono(ev, between@, c as int + 1, n as int);
            lemma_in_layer_mono(ev, between@, c as int, c as int);
            lemma_port_nonneg(ev, c as int, ev[c as int].len() as int);
            lemma_ends_before_mono(ev, c as int + 1, n as int);
            let o = open as int;
            let b = between@[c as int] as int;
            assert(o * b >= 0) by (nonlinear_arith)
                requires
                    o >= 0,
                    b >= 0,
            ;
        }
        let leaving = open * between[c];
        let here = sweep_position(&mut tree, ends, c);
        crossings = crossings + here + leaving;
        c += 1;
    }
    crossings
}


// ---------------------------------------------------------------------
// What the sweep counts.

/// How many elements of `s` lie strictly between `lo` and `hi`.
pub open spec fn count_between(s: Seq<usize>, lo: int, hi: int) -> int
    decreases s.len(),
{
    if s.len() == 0 {
        0
    } else {
        count_between(s.drop_last(), lo, hi) + if lo < s.last() < hi {
            1int
        } else {
            0
        }
    }
}

/// Chords that start at the first `m` positions and end strictly between
/// `lo` and `hi`.
pub open spec fn chords_between(ends: Seq<Seq<usize>>, m: int, lo: int, hi: int) -> int
    decreases m,
{
    if m <= 0 {
        0
    } else {
        chords_between(ends, m - 1, lo, hi) + count_between(ends[m - 1], lo, hi)
    }
}

/// Pairs of interleaving chords among those that start at position `c`
/// (its first `k` edges) and those that start before it: a chord from `c`
/// to `e` and a chord from `c1 < c` to `e1` interleave when `c < e1 < e`.
pub open spec fn pairs_at(ends: Seq<Seq<usize>>, c: int, k: int) -> int
    decreases k,
{
    if k <= 0 {
        0
    } else {
        pairs_at(ends, c, k - 1) + if ends[c][k - 1] > c {
            chords_between(ends, c, c, ends[c][k - 1] as int)
        } else {
            0
        }
    }
}

/// Number of pairs of interleaving chords (`c1 < c < e1 < e`) whose later
/// chord starts before position `p`: the crossings of the drawing.
pub open spec fn interleaving_pairs(ends: Seq<Seq<usize>>, p: int) -> int
    decreases p,
{
    if p <= 0 {
        0
    } else {
        interleaving_pairs(ends, p - 1) + pairs_at(ends, p - 1, ends[p - 1].len() as int)
    }
}

/// Occurrences of `x` among the ends at the first `m` positions.
pub open spec fn occ_sum(ends: Seq<Seq<usize>>, m: int, x: int) -> int
    decreases m,
{
    if m <= 0 {
        0
    } else {
        occ_sum(ends, m - 1, x) + occ(ends[m - 1], x)
    }
}

/// Widening the range by its upper end adds that end's occurrences.
proof fn lemma_count_between_step(s: Seq<usize>, lo: int, hi: int)
    ensures
        count_between(s, lo, hi + 1) == count_between(s, lo, hi) + if hi > lo {
            occ(s, hi)
        } else {
            0
        },
    decreases s.len(),
{
    if s.len() > 0 {
        lemma_count_between_step(s.drop_last(), lo, hi);
    }
}

/// The same, summed over the chords of the first `m` positions.
proof fn lemma_chords_between_step(ends: Seq<Seq<usize>>, m: int, lo: int, hi: int)
    ensures
        chords_between(ends, m, lo, hi + 1) == chords_between(ends, m, lo, hi) + if hi > lo {
            occ_sum(ends, m, hi)
        } else {
            0
        },
    decreases m,
{
    if m > 0 {
        lemma_chords_between_step(ends, m - 1, lo, hi);
        lemma_count_between_step(ends[m - 1], lo, hi);
    }
}

/// Past all starts, the chords open at an end are all its occurrences.
proof fn lemma_open_at_all(ends: Seq<Seq<usize>>, m: int, x: int)
    requires
        x >= m,
    ensures
        open_at(ends, m, x) == occ_sum(ends, m, x),
    decreases m,
{
    if m > 0 {
        lemma_open_at_all(ends, m - 1, x);
    }
}

/// The open chords a chord from `c` crosses before `h` are the chords
/// from earlier positions ending strictly between `c` and `h`.
proof fn lemma_crossed_prefix(ends: Seq<Seq<usize>>, c: int, h: int)
    requires
        0 <= c,
        0 <= h <= ends.len(),
    ensures
        prefix(open_seq(ends, c), h) == chords_between(ends, c, c, h),
    decreases h,
{
    if h == 0 {
        lemma_chords_between_zero(ends, c, c);
    } else {
        lemma_crossed_prefix(ends, c, h - 1);
        lemma_chords_between_step(ends, c, c, h - 1);
        if h - 1 > c {
            lemma_open_at_all(ends, c, h - 1);
        }
    }
}

/// No chord ends strictly between `lo` and a bound at most `lo + 1`.
proof fn lemma_chords_between_zero(ends: Seq<Seq<usize>>, m: int, lo: int)
    requires
        0 <= lo,
    ensures
        chords_between(ends, m, lo, 0) == 0,
    decreases m,
{
    if m > 0 {
        lemma_chords_between_zero(ends, m - 1, lo);
        lemma_count_between_zero(ends[m - 1], lo);
    }
}

/// No element lies strictly between `lo >= 0` and `0`.
proof fn lemma_count_between_zero(s: Seq<usize>, lo: int)
    requires
        0 <= lo,
    ensures
        count_between(s, lo, 0) == 0,
    decreases s.len(),
{
    if s.len() > 0 {
        lemma_count_between_zero(s.drop_last(), lo);
    }
}

/// The sweep counts exactly the pairs of interleaving chords: at every
/// prefix of positions, `sweep_crossings` is `interleaving_pairs`.
pub proof fn lemma_sweep_counts_interleaving_pairs(ends: Seq<Seq<usize>>, p: int)
    requires
        ends_in_range(ends),
        0 <= p <= ends.len(),
    ensures
        sweep_crossings(ends, p) == interleaving_pairs(ends, p),
    decreases p,
{
    if p > 0 {
        lemma_sweep_counts_interleaving_pairs(ends, p - 1);
        lemma_port_pairs(ends, p - 1, ends[p - 1].len() as int);
    }
}

/// At one position, the sweep counts the pairs its chords form with the
/// earlier ones.
proof fn lemma_port_pairs(ends: Seq<Seq<usize>>, c: int, k: int)
    requires
        ends_in_range(ends),
        0 <= c < ends.len(),
        0 <= k <= ends[c].len(),
    ensures
        port_crossings(ends, c, k) == pairs_at(ends, c, k),
    decreases k,
{
    if k > 0 {
        lemma_port_pairs(ends, c, k - 1);
        let e = ends[c][k - 1];
        if e > c {
            assert(e < ends.len());
            lemma_crossed_prefix(ends, c, e as int);
        }
    }
}

proof fn lemma_count_between_none(s: Seq<usize>, lo: int, hi: int)
    ensures
        count_between(s, lo, hi) >= 0,
        count_between(s, lo, hi) == 0 <==> forall|k: int| 0 <= k < s.len() ==> !(lo < #[trigger] s[k] < hi),
    decreases s.len(),
{
    if s.len() > 0 {
        let t = s.drop_last();
        lemma_count_between_none(t, lo, hi);
        assert forall|k: int| 0 <= k < t.len() implies t[k] == s[k] by {}
        if count_between(s, lo, hi) == 0 {
            assert forall|k: int| 0 <= k < s.len() implies !(lo < #[trigger] s[k] < hi) by {
                if k < t.len() {
                    assert(t[k] == s[k]);
                }
            }
        } else {
            if count_between(t, lo, hi) == 0 {
                assert(lo < s[s.len() - 1] < hi);
            } else {
                let k = choose|k: int| 0 <= k < t.len() && lo < #[trigger] t[k] < hi;
                assert(s[k] == t[k]);
            }
        }
    }
}

proof fn lemma_chords_between_zero_iff(ends: Seq<Seq<usize>>, m: int, lo: int, hi: int)
    requires
        0 <= m <= ends.len(),
    ensures
        chords_between(ends, m, lo, hi) >= 0,
        chords_between(ends, m, lo, hi) == 0 <==> forall|c: int, k: int|
            0 <= c < m && 0 <= k < ends[c].len() ==> !(lo < #[trigger] ends[c][k] < hi),
    decreases m,
{
    if m > 0 {
        lemma_chords_between_zero_iff(ends, m - 1, lo, hi);
        lemma_count_between_none(ends[m - 1], lo, hi);
        if chords_between(ends, m, lo, hi) != 0 {
            if chords_between(ends, m - 1, lo, hi) != 0 {
                let (c, k) = choose|c: int, k: int| 0 <= c < m - 1 && 0 <= k < ends[c].len() && lo < #[trigger] ends[c][k] < hi;
                assert(lo < ends[c][k] < hi);
            } else {
                let k = choose|k: int| 0 <= k < ends[m - 1].len() && lo < #[trigger] ends[m - 1][k] < hi;
                assert(lo < ends[m - 1][k] < hi);
            }
        }
    }
}

proof fn lemma_pairs_at_zero(ends: Seq<Seq<usize>>, c: int, k: int)
    requires
        0 <= c < ends.len(),
        0 <= k <= ends[c].len(),
    ensures
        pairs_at(ends, c, k) >= 0,
        pairs_at(ends, c, k) == 0 <==> forall|c1: int, k1: int, k2: int|
            #![trigger ends[c1][k1], ends[c][k2]]
            0 <= c1 < c && 0 <= k1 < ends[c1].len() && 0 <= k2 < k ==> !(c < ends[c1][k1] < ends[c][k2]),
    decreases k,
{
    if k > 0 {
        lemma_pairs_at_zero(ends, c, k - 1);
        let e = ends[c][k - 1] as int;
        lemma_chords_between_zero_iff(ends, c, c, e);
        if pairs_at(ends, c, k) == 0 {
            assert forall|c1: int, k1: int, k2: int|
                #![trigger ends[c1][k1], ends[c][k2]]
                0 <= c1 < c && 0 <= k1 < ends[c1].len() && 0 <= k2 < k implies !(c < ends[c1][k1] < ends[c][k2]) by {
                if k2 == k - 1 && e > c {
                    assert(!(c < ends[c1][k1] < e));
                }
            }
        } else {
            if pairs_at(ends, c, k - 1) != 0 {
                let (c1, k1, k2) = choose|c1: int, k1: int, k2: int|
                    #![trigger ends[c1][k1], ends[c][k2]]
                    0 <= c1 < c && 0 <= k1 < ends[c1].len() && 0 <= k2 < k - 1 && c < ends[c1][k1] < ends[c][k2];
                assert(c < ends[c1][k1] < ends[c][k2]);
            } else {
                assert(e > c);
                let (c1, k1) = choose|c1: int, k1: int| 0 <= c1 < c && 0 <= k1 < ends[c1].len() && c < #[trigger] ends[c1][k1] < e;
                assert(c < ends[c1][k1] < ends[c][k - 1]);
            }
        }
    }
}

/// Crossings are counted exactly when chords interleave: the count of
/// pairs of interleaving chords over the first `p` positions is never
/// negative, and it is zero exactly when no chord from `c1` to `e1` and
/// chord from `c2` to `e2` there have `c1 < c2 < e1 < e2`. So chords that
/// only nest or follow one another cross nowhere, and a single
/// interleaving pair makes the count positive.
pub proof fn lemma_no_crossing_exactly_without_interleaving(ends: Seq<Seq<usize>>, p: int)
    requires
        0 <= p <= ends.len(),
    ensures
        interleaving_pairs(ends, p) >= 0,
        interleaving_pairs(ends, p) == 0 <==> forall|c1: int, k1: int, c2: int, k2: int|
            #![trigger ends[c1][k1], ends[c2][k2]]
            0 <= c1 < c2 < p && 0 <= k1 < ends[c1].len() && 0 <= k2 < ends[c2].len() ==> !(c2 < ends[c1][k1] < ends[c2][k2]),
    decreases p,
{
    if p > 0 {
        lemma_no_crossing_exactly_without_interleaving(ends, p - 1);
        let c = p - 1;
        lemma_pairs_at_zero(ends, c, ends[c].len() as int);
        if interleaving_pairs(ends, p) == 0 {
            assert forall|c1: int, k1: int, c2: int, k2: int|
                #![trigger ends[c1][k1], ends[c2][k2]]
                0 <= c1 < c2 < p && 0 <= k1 < ends[c1].len() && 0 <= k2 < ends[c2].len() implies !(c2 < ends[c1][k1]
                < ends[c2][k2]) by {
                if c2 == c {
                    assert(!(c < ends[c1][k1] < ends[c][k2]));
                }
            }
        } else {
            if interleaving_pairs(ends, p - 1) != 0 {
                let (c1, k1, c2, k2) = choose|c1: int, k1: int, c2: int, k2: int|
                    #![trigger ends[c1][k1], ends[c2][k2]]
                    0 <= c1 < c2 < p - 1 && 0 <= k1 < ends[c1].len() && 0 <= k2 < ends[c2].len() && c2 < ends[c1][k1]
                        < ends[c2][k2];
                assert(c2 < ends[c1][k1] < ends[c2][k2]);
            } else {
                let (c1, k1, k2) = choose|c1: int, k1: int, k2: int|
                    #![trigger ends[c1][k1], ends[c][k2]]
                    0 <= c1 < c && 0 <= k1 < ends[c1].len() && 0 <= k2 < ends[c].len() && c < ends[c1][k1] < ends[c][k2];
                assert(c < ends[c1][k1] < ends[c][k2]);
            }
        }
    }
}

// ---------------------------------------------------------------------
// Counting on a graph.

/// The ports of `ps` that act on `side`, in order.
pub open spec fn ports_on(a: &LGraphArena, ps: Seq<LPortId>, side: PortSide) -> Seq<LPortId>
    decreases ps.len(),
{
    if ps.len() == 0 {
        Seq::empty()
    } else {
        let r = ports_on(a, ps.drop_last(), side);
        if normalized_side(a.ports@[ps.last().0 as int].side) == side {
            r.push(ps.last())
        } else {
            r
        }
    }
}

/// The ports of node `x` on `side` in the order a counter-clockwise walk
/// meets them: east ports bottom-up when walking up, west ports bottom-up
/// when walking down.
pub open spec fn walk_ports(a: &LGraphArena, x: LNodeId, side: PortSide, top_down: bool) -> Seq<LPortId> {
    let s = ports_on(a, a.nodes@[x.0 as int].ports@, side);
    if (side == PortSide::East && !top_down) || (side == PortSide::West && top_down) {
        s.reverse()
    } else {
        s
    }
}

/// The walk ports of the nodes of `vs`, node after node.
pub open spec fn walk_all(a: &LGraphArena, vs: Seq<LNodeId>, side: PortSide, top_down: bool) -> Seq<LPortId>
    decreases vs.len(),
{
    if vs.len() == 0 {
        Seq::empty()
    } else {
        walk_all(a, vs.drop_last(), side, top_down) + walk_ports(a, vs.last(), side, top_down)
    }
}

/// The nodes of `nodes` in walking order: bottom-up unless walking down.
pub open spec fn walk_order_of(nodes: Seq<LNodeId>, top_down: bool) -> Seq<LNodeId> {
    if top_down {
        nodes
    } else {
        nodes.reverse()
    }
}

/// Positions `start`, `start + 1`, ... given to the ports of `ps` in turn.
pub open spec fn assign_positions(pos: Seq<i32>, ps: Seq<LPortId>, start: int) -> Seq<i32>
    decreases ps.len(),
{
    if ps.len() == 0 {
        pos
    } else {
        assign_positions(pos, ps.drop_last(), start).update(ps.last().0 as int, (start + ps.len() - 1) as i32)
    }
}

/// The port at the other end of edge `e` than port `p`.
pub open spec fn other_end(a: &LGraphArena, e: usize, p: LPortId) -> LPortId {
    if a.edges@[e as int].source == Some(p) {
        a.edges@[e as int].target->0
    } else {
        a.edges@[e as int].source->0
    }
}

/// The edges at port `p`: incoming, then outgoing.
pub open spec fn connected(a: &LGraphArena, p: LPortId) -> Seq<usize> {
    a.in_lists()[p.0 as int] + a.out_lists()[p.0 as int]
}

/// The far ends of the edges at the port at position `c`, by position; an
/// end not after `c` counts as `c` (it starts no chord).
pub open spec fn far_ends(a: &LGraphArena, pos: Seq<i32>, p: LPortId, c: int) -> Seq<usize> {
    Seq::new(
        connected(a, p).len(),
        |k: int|
            {
                let v = pos[other_end(a, connected(a, p)[k], p).0 as int];
                if v > c {
                    v as usize
                } else {
                    c as usize
                }
            },
    )
}

/// The chords of the walk `ps` under positions `pos`.
pub open spec fn chords(a: &LGraphArena, pos: Seq<i32>, ps: Seq<LPortId>) -> Seq<Seq<usize>> {
    Seq::new(ps.len(), |c: int| far_ends(a, pos, ps[c], c))
}

/// A crossing counter over an arena, with a scratch array of port positions
/// (by port index) that each walk fills.
pub struct CrossingsCounter<'a> {
    pub arena: &'a LGraphArena,
    pub port_positions: Vec<i32>,
}

/// Every element of `ps` is one of the ports of `x`, and none repeats.
pub proof fn lemma_ports_on(a: &LGraphArena, x: LNodeId, ps: Seq<LPortId>, side: PortSide)
    requires
        ps.no_duplicates(),
    ensures
        ports_on(a, ps, side).no_duplicates(),
        forall|i: int| 0 <= i < ports_on(a, ps, side).len() ==> ps.contains(#[trigger] ports_on(a, ps, side)[i]),
    decreases ps.len(),
{
    if ps.len() > 0 {
        let init = ps.drop_last();
        assert(init.no_duplicates()) by {
            assert forall|i: int, j: int| 0 <= i < init.len() && 0 <= j < init.len() && i != j implies init[i] != init[j] by {
                assert(init[i] == ps[i] && init[j] == ps[j]);
            }
        }
        lemma_ports_on(a, x, init, side);
        let r = ports_on(a, init, side);
        assert forall|i: int| 0 <= i < r.len() implies ps.contains(#[trigger] r[i]) by {
            let j = choose|j: int| 0 <= j < init.len() && init[j] == r[i];
            assert(ps[j] == r[i]);
        }
        assert(!r.contains(ps.last())) by {
            if r.contains(ps.last()) {
                let i = choose|i: int| 0 <= i < r.len() && r[i] == ps.last();
                assert(init.contains(r[i]));
                let j = choose|j: int| 0 <= j < init.len() && init[j] == r[i];
                assert(ps[j] == ps[ps.len() - 1]);
            }
        }
    }
}

/// The walk ports of one node are distinct ports of that node.
pub proof fn lemma_walk_ports(a: &LGraphArena, x: LNodeId, side: PortSide, top_down: bool)
    requires
        a.wf(),
        x.0 < a.nodes@.len(),
    ensures
        walk_ports(a, x, side, top_down).no_duplicates(),
        forall|i: int|
            0 <= i < walk_ports(a, x, side, top_down).len() ==> (#[trigger] walk_ports(a, x, side, top_down)[i]).0 < a.ports@.len()
                && a.owners()[walk_ports(a, x, side, top_down)[i].0 as int] == Some(x.0),
{
    let ps = a.nodes@[x.0 as int].ports@;
    lemma_port_list(a, x.0);
    assert(a.port_lists()[x.0 as int] == ps.map_values(|p: LPortId| p.0));
    assert(ps.no_duplicates()) by {
        assert forall|i: int, j: int| 0 <= i < ps.len() && 0 <= j < ps.len() && i != j implies ps[i] != ps[j] by {
            assert(a.port_lists()[x.0 as int][i] == ps[i].0);
            assert(a.port_lists()[x.0 as int][j] == ps[j].0);
        }
    }
    lemma_ports_on(a, x, ps, side);
    let s = ports_on(a, ps, side);
    assert forall|i: int| 0 <= i < s.len() implies (#[trigger] s[i]).0 < a.ports@.len() && a.owners()[s[i].0 as int] == Some(x.0) by {
        let j = choose|j: int| 0 <= j < ps.len() && ps[j] == s[i];
        assert(a.port_lists()[x.0 as int][j] == ps[j].0);
    }
    if (side == PortSide::East && !top_down) || (side == PortSide::West && top_down) {
        let r = s.reverse();
        assert forall|i: int| 0 <= i < r.len() implies (#[trigger] r[i]).0 < a.ports@.len() && a.owners()[r[i].0 as int] == Some(x.0) by {
            assert(r[i] == s[s.len() - 1 - i]);
        }
        assert(r.no_duplicates()) by {
            assert forall|i: int, j: int| 0 <= i < r.len() && 0 <= j < r.len() && i != j implies r[i] != r[j] by {
                assert(r[i] == s[s.len() - 1 - i]);
                assert(r[j] == s[s.len() - 1 - j]);
            }
        }
    }
}

/// The walk ports of distinct nodes are distinct, each owned by a node of
/// the walk.
pub proof fn lemma_walk_all(a: &LGraphArena, vs: Seq<LNodeId>, side: PortSide, top_down: bool)
    requires
        a.wf(),
        vs.no_duplicates(),
        forall|i: int| 0 <= i < vs.len() ==> (#[trigger] vs[i]).0 < a.nodes@.len(),
    ensures
        walk_all(a, vs, side, top_down).no_duplicates(),
        forall|i: int|
            0 <= i < walk_all(a, vs, side, top_down).len() ==> (#[trigger] walk_all(a, vs, side, top_down)[i]).0 < a.ports@.len()
                && (a.owners()[walk_all(a, vs, side, top_down)[i].0 as int] matches Some(y) && vs.contains(LNodeId(y))),
    decreases vs.len(),
{
    if vs.len() > 0 {
        let init = vs.drop_last();
        let x = vs.last();
        assert(init.no_duplicates()) by {
            assert forall|i: int, j: int| 0 <= i < init.len() && 0 <= j < init.len() && i != j implies init[i] != init[j] by {
                assert(init[i] == vs[i] && init[j] == vs[j]);
            }
        }
        assert forall|i: int| 0 <= i < init.len() implies (#[trigger] init[i]).0 < a.nodes@.len() by {
            assert(init[i] == vs[i]);
        }
        lemma_walk_all(a, init, side, top_down);
        lemma_walk_ports(a, x, side, top_down);
        let w0 = walk_all(a, init, side, top_down);
        let w1 = walk_ports(a, x, side, top_down);
        let w = w0 + w1;
        assert(!init.contains(x)) by {
            if init.contains(x) {
                let j = choose|j: int| 0 <= j < init.len() && init[j] == x;
                assert(vs[j] == vs[vs.len() - 1]);
            }
        }
        assert forall|i: int| 0 <= i < w.len() implies (#[trigger] w[i]).0 < a.ports@.len() && (a.owners()[w[i].0 as int] matches Some(
            y,
        ) && vs.contains(LNodeId(y))) by {
            if i < w0.len() {
                assert(w[i] == w0[i]);
                let y = a.owners()[w0[i].0 as int]->0;
                let j = choose|j: int| 0 <= j < init.len() && init[j] == LNodeId(y);
                assert(vs[j] == LNodeId(y));
            } else {
                assert(w[i] == w1[i - w0.len()]);
                assert(LNodeId(x.0) == x);
                assert(vs[vs.len() - 1] == x);
            }
        }
        assert(w.no_duplicates()) by {
            assert forall|i: int, j: int| 0 <= i < w.len() && 0 <= j < w.len() && i != j implies w[i] != w[j] by {
                if i < w0.len() && j < w0.len() {
                    assert(w[i] == w0[i] && w[j] == w0[j]);
                } else if i >= w0.len() && j >= w0.len() {
                    assert(w[i] == w1[i - w0.len()] && w[j] == w1[j - w0.len()]);
                } else if i < w0.len() {
                    assert(w[i] == w0[i] && w[j] == w1[j - w0.len()]);
                    let y = a.owners()[w0[i].0 as int]->0;
                    if w[i] == w[j] {
                        assert(y == x.0);
                        assert(LNodeId(y) == x);
                    }
                } else {
                    assert(w[j] == w0[j] && w[i] == w1[i - w0.len()]);
                    let y = a.owners()[w0[j].0 as int]->0;
                    if w[i] == w[j] {
                        assert(y == x.0);
                        assert(LNodeId(y) == x);
                    }
                }
            }
        }
        assert(walk_all(a, vs, side, top_down) == w);
    }
}

/// Distinct ports given positions in turn keep them.
pub proof fn lemma_assign_positions(pos: Seq<i32>, ps: Seq<LPortId>, start: int, c: int)
    requires
        ps.no_duplicates(),
        0 <= c < ps.len(),
        forall|i: int| 0 <= i < ps.len() ==> (#[trigger] ps[i]).0 < pos.len(),
        0 <= start,
        start + ps.len() <= i32::MAX,
    ensures
        assign_positions(pos, ps, start)[ps[c].0 as int] == start + c,
        assign_positions(pos, ps, start).len() == pos.len(),
    decreases ps.len(),
{
    let init = ps.drop_last();
    assert(init.no_duplicates()) by {
        assert forall|i: int, j: int| 0 <= i < init.len() && 0 <= j < init.len() && i != j implies init[i] != init[j] by {
            assert(init[i] == ps[i] && init[j] == ps[j]);
        }
    }
    assert forall|i: int| 0 <= i < init.len() implies (#[trigger] init[i]).0 < pos.len() by {
        assert(init[i] == ps[i]);
    }
    lemma_assign_len(pos, init, start);
    if c < ps.len() - 1 {
        lemma_assign_positions(pos, init, start, c);
        assert(ps[c] != ps[ps.len() - 1]);
    }
}

/// Giving positions keeps the length.
pub proof fn lemma_assign_len(pos: Seq<i32>, ps: Seq<LPortId>, start: int)
    requires
        forall|i: int| 0 <= i < ps.len() ==> (#[trigger] ps[i]).0 < pos.len(),
    ensures
        assign_positions(pos, ps, start).len() == pos.len(),
    decreases ps.len(),
{
    if ps.len() > 0 {
        let init = ps.drop_last();
        assert forall|i: int| 0 <= i < init.len() implies (#[trigger] init[i]).0 < pos.len() by {
            assert(init[i] == ps[i]);
        }
        lemma_assign_len(pos, init, start);
    }
}

/// Giving positions leaves the ports not in `ps` alone.
pub proof fn lemma_assign_others(pos: Seq<i32>, ps: Seq<LPortId>, start: int, q: int)
    requires
        forall|i: int| 0 <= i < ps.len() ==> (#[trigger] ps[i]).0 < pos.len(),
        0 <= q < pos.len(),
        forall|i: int| 0 <= i < ps.len() ==> (#[trigger] ps[i]).0 != q,
    ensures
        assign_positions(pos, ps, start)[q] == pos[q],
    decreases ps.len(),
{
    if ps.len() > 0 {
        let init = ps.drop_last();
        assert forall|i: int| 0 <= i < init.len() implies (#[trigger] init[i]).0 != q by {
            assert(init[i] == ps[i]);
        }
        assert forall|i: int| 0 <= i < init.len() implies (#[trigger] init[i]).0 < pos.len() by {
            assert(init[i] == ps[i]);
        }
        lemma_assign_others(pos, init, start, q);
        lemma_assign_len(pos, init, start);
        assert(ps[ps.len() - 1].0 != q);
    }
}

/// A prefix of the nodes walks a prefix of the ports.
pub proof fn lemma_walk_all_prefix(a: &LGraphArena, vs: Seq<LNodeId>, side: PortSide, top_down: bool, k: int)
    requires
        0 <= k <= vs.len(),
    ensures
        walk_all(a, vs.take(k), side, top_down).len() <= walk_all(a, vs, side, top_down).len(),
    decreases vs.len(),
{
    if k < vs.len() {
        lemma_walk_all_prefix(a, vs.drop_last(), side, top_down, k);
        assert(vs.drop_last().take(k) =~= vs.take(k));
    } else {
        assert(vs.take(k) =~= vs);
    }
}

/// The ports a walk between two layers meets, in order: down the east side
/// of the left layer, then up the west side of the right one.
pub open spec fn layer_walk(a: &LGraphArena, left: Seq<LNodeId>, right: Seq<LNodeId>) -> Seq<LPortId> {
    walk_all(a, left, PortSide::East, true) + walk_all(a, right.reverse(), PortSide::West, false)
}

/// The port positions after the walk between two layers.
pub open spec fn layer_positions(a: &LGraphArena, pos: Seq<i32>, left: Seq<LNodeId>, right: Seq<LNodeId>) -> Seq<i32> {
    let wl = walk_all(a, left, PortSide::East, true);
    assign_positions(
        assign_positions(pos, wl, 0),
        walk_all(a, right.reverse(), PortSide::West, false),
        wl.len() as int,
    )
}

/// Filtering a longer prefix of `ps` extends the filtered shorter one.
proof fn lemma_ports_on_grows(a: &LGraphArena, ps: Seq<LPortId>, side: PortSide, j: int, l: int)
    requires
        0 <= j <= l <= ps.len(),
    ensures
        ports_on(a, ps.take(j), side).len() <= ports_on(a, ps.take(l), side).len(),
        forall|c: int|
            0 <= c < ports_on(a, ps.take(j), side).len() ==> #[trigger] ports_on(a, ps.take(l), side)[c] == ports_on(
                a,
                ps.take(j),
                side,
            )[c],
    decreases l - j,
{
    if j < l {
        lemma_ports_on_grows(a, ps, side, j, l - 1);
        assert(ps.take(l).drop_last() =~= ps.take(l - 1));
    }
}

/// The `k`-th port of `ps`, acting on `side`, stands in the filtered
/// sequence after the ports of `side` before it.
proof fn lemma_ports_on_at(a: &LGraphArena, ps: Seq<LPortId>, side: PortSide, k: int)
    requires
        0 <= k < ps.len(),
        normalized_side(a.ports@[ps[k].0 as int].side) == side,
    ensures
        ports_on(a, ps.take(k), side).len() < ports_on(a, ps, side).len(),
        ports_on(a, ps, side)[ports_on(a, ps.take(k), side).len() as int] == ps[k],
        ports_on(a, ps.take(k + 1), side).len() == ports_on(a, ps.take(k), side).len() + 1,
{
    assert(ps.take(k + 1).drop_last() =~= ps.take(k));
    assert(ps.take(k + 1).last() == ps[k]);
    lemma_ports_on_grows(a, ps, side, k + 1, ps.len() as int);
    assert(ps.take(ps.len() as int) =~= ps);
}

/// Walking a longer prefix of `vs` extends the walk of a shorter one.
proof fn lemma_walk_all_grows(a: &LGraphArena, vs: Seq<LNodeId>, side: PortSide, top_down: bool, j: int, l: int)
    requires
        0 <= j <= l <= vs.len(),
    ensures
        walk_all(a, vs.take(j), side, top_down).len() <= walk_all(a, vs.take(l), side, top_down).len(),
        forall|c: int|
            0 <= c < walk_all(a, vs.take(j), side, top_down).len() ==> #[trigger] walk_all(a, vs.take(l), side, top_down)[c]
                == walk_all(a, vs.take(j), side, top_down)[c],
    decreases l - j,
{
    if j < l {
        lemma_walk_all_grows(a, vs, side, top_down, j, l - 1);
        assert(vs.take(l).drop_last() =~= vs.take(l - 1));
    }
}

/// Where the walk keeps each node's port order, the `k`-th port of node
/// `vs[i]`, acting on `side`, is met at position `c`: after the ports of
/// the nodes before it and those of its own ports before it.
proof fn lemma_walk_meets(a: &LGraphArena, vs: Seq<LNodeId>, side: PortSide, top_down: bool, i: int, k: int) -> (c: int)
    requires
        !((side == PortSide::East && !top_down) || (side == PortSide::West && top_down)),
        0 <= i < vs.len(),
        0 <= k < a.nodes@[vs[i].0 as int].ports@.len(),
        normalized_side(a.ports@[a.nodes@[vs[i].0 as int].ports@[k].0 as int].side) == side,
    ensures
        c == walk_all(a, vs.take(i), side, top_down).len() + ports_on(a, a.nodes@[vs[i].0 as int].ports@.take(k), side).len(),
        c < walk_all(a, vs.take(i + 1), side, top_down).len(),
        walk_all(a, vs.take(i + 1), side, top_down).len() <= walk_all(a, vs, side, top_down).len(),
        walk_all(a, vs, side, top_down)[c] == a.nodes@[vs[i].0 as int].ports@[k],
{
    let ps = a.nodes@[vs[i].0 as int].ports@;
    lemma_ports_on_at(a, ps, side, k);
    assert(vs.take(i + 1).drop_last() =~= vs.take(i));
    assert(vs.take(i + 1).last() == vs[i]);
    let w0 = walk_all(a, vs.take(i), side, top_down);
    let c: int = (w0.len() + ports_on(a, ps.take(k), side).len()) as int;
    assert(walk_all(a, vs.take(i + 1), side, top_down)[c] == ps[k]);
    lemma_walk_all_grows(a, vs, side, top_down, i + 1, vs.len() as int);
    assert(vs.take(vs.len() as int) =~= vs);
    c
}

/// The ports of the walk between two layers get their places in it as
/// positions.
proof fn lemma_layer_position_at(a: &LGraphArena, pos: Seq<i32>, left: Seq<LNodeId>, right: Seq<LNodeId>, c: int)
    requires
        a.wf(),
        pos.len() == a.ports@.len(),
        (left + right).no_duplicates(),
        forall|i: int| 0 <= i < (left + right).len() ==> (#[trigger] (left + right)[i]).0 < a.nodes@.len(),
        layer_walk(a, left, right).len() < i32::MAX,
        0 <= c < layer_walk(a, left, right).len(),
    ensures
        layer_positions(a, pos, left, right)[layer_walk(a, left, right)[c].0 as int] == c,
{
    let all = left + right;
    let wl = walk_all(a, left, PortSide::East, true);
    let wr = walk_all(a, right.reverse(), PortSide::West, false);
    assert forall|i: int| 0 <= i < left.len() implies (#[trigger] left[i]).0 < a.nodes@.len() by {
        assert(all[i] == left[i]);
    }
    assert(left.no_duplicates()) by {
        assert forall|i: int, j: int| 0 <= i < left.len() && 0 <= j < left.len() && i != j implies left[i] != left[j] by {
            assert(all[i] == left[i] && all[j] == left[j]);
        }
    }
    assert forall|i: int| 0 <= i < right.reverse().len() implies (#[trigger] right.reverse()[i]).0 < a.nodes@.len() by {
        assert(right.reverse()[i] == right[right.len() - 1 - i]);
        assert(all[left.len() + right.len() - 1 - i] == right[right.len() - 1 - i]);
    }
    assert(right.reverse().no_duplicates()) by {
        assert forall|i: int, j: int| 0 <= i < right.len() && 0 <= j < right.len() && i != j implies right.reverse()[i]
            != right.reverse()[j] by {
            assert(all[left.len() + right.len() - 1 - i] == right[right.len() - 1 - i]);
            assert(all[left.len() + right.len() - 1 - j] == right[right.len() - 1 - j]);
        }
    }
    lemma_walk_all(a, left, PortSide::East, true);
    lemma_walk_all(a, right.reverse(), PortSide::West, false);
    let p = layer_walk(a, left, right)[c];
    let pos1 = assign_positions(pos, wl, 0);
    lemma_assign_len(pos, wl, 0);
    if c < wl.len() {
        assert(wl[c] == p);
        lemma_assign_positions(pos, wl, 0, c);
        assert forall|i: int| 0 <= i < wr.len() implies (#[trigger] wr[i]).0 != p.0 by {
            let y1 = a.owners()[p.0 as int]->0;
            let y2 = a.owners()[wr[i].0 as int]->0;
            if wr[i].0 == p.0 {
                let j1 = choose|j: int| 0 <= j < left.len() && left[j] == LNodeId(y1);
                let j2 = choose|j: int| 0 <= j < right.reverse().len() && right.reverse()[j] == LNodeId(y2);
                assert(right.reverse()[j2] == right[right.len() - 1 - j2]);
                assert(all[j1] == left[j1]);
                assert(all[left.len() + right.len() - 1 - j2] == right[right.len() - 1 - j2]);
            }
        }
        lemma_assign_others(pos1, wr, wl.len() as int, p.0 as int);
    } else {
        assert(wr[c - wl.len()] == p);
        assert forall|i: int| 0 <= i < wr.len() implies (#[trigger] wr[i]).0 < pos1.len() by {}
        lemma_assign_positions(pos1, wr, wl.len() as int, c - wl.len());
    }
}

/// The `k`-th port of node `x`.
pub open spec fn port_of(a: &LGraphArena, x: LNodeId, k: int) -> LPortId {
    a.nodes@[x.0 as int].ports@[k]
}

/// Port `p` acts on `side`.
pub open spec fn acts_on(a: &LGraphArena, p: LPortId, side: PortSide) -> bool {
    normalized_side(a.ports@[p.0 as int].side) == side
}

/// The walk between two layers numbers the ports in their geometric
/// order, going round counter-clockwise: down the east side of the left
/// layer, its nodes top to bottom and each node's east ports in port
/// order (top to bottom), then up the west side of the right layer, its
/// nodes bottom to top and each node's west ports in port order (west
/// ports are listed clockwise, from the bottom). So every east port of the
/// left layer comes before every west port of the right one, and of two
/// west ports of different nodes, the upper node's comes later.
pub proof fn lemma_walk_positions_go_round_the_layers(
    a: &LGraphArena,
    pos: Seq<i32>,
    left: Seq<LNodeId>,
    right: Seq<LNodeId>,
    i1: int,
    k1: int,
    i2: int,
    k2: int,
)
    requires
        a.wf(),
        pos.len() == a.ports@.len(),
        (left + right).no_duplicates(),
        forall|i: int| 0 <= i < (left + right).len() ==> (#[trigger] (left + right)[i]).0 < a.nodes@.len(),
        layer_walk(a, left, right).len() < i32::MAX,
    ensures
        0 <= i1 <= i2 < left.len() && 0 <= k1 < a.nodes@[left[i1].0 as int].ports@.len() && 0 <= k2 < a.nodes@[left[
            i2
        ].0 as int].ports@.len() && (i1 < i2 || k1 < k2) && acts_on(a, port_of(a, left[i1], k1), PortSide::East) && acts_on(
            a,
            port_of(a, left[i2], k2),
            PortSide::East,
        ) ==> layer_positions(a, pos, left, right)[port_of(a, left[i1], k1).0 as int] < layer_positions(
            a,
            pos,
            left,
            right,
        )[port_of(a, left[i2], k2).0 as int],
        0 <= i1 < i2 < right.len() && 0 <= k1 < a.nodes@[right[i1].0 as int].ports@.len() && 0 <= k2 < a.nodes@[right[
            i2
        ].0 as int].ports@.len() && acts_on(a, port_of(a, right[i1], k1), PortSide::West) && acts_on(
            a,
            port_of(a, right[i2], k2),
            PortSide::West,
        ) ==> layer_positions(a, pos, left, right)[port_of(a, right[i1], k1).0 as int] > layer_positions(
            a,
            pos,
            left,
            right,
        )[port_of(a, right[i2], k2).0 as int],
        0 <= i1 < right.len() && 0 <= k1 < k2 < a.nodes@[right[i1].0 as int].ports@.len() && acts_on(
            a,
            port_of(a, right[i1], k1),
            PortSide::West,
        ) && acts_on(a, port_of(a, right[i1], k2), PortSide::West) ==> layer_positions(a, pos, left, right)[port_of(
            a,
            right[i1],
            k1,
        ).0 as int] < layer_positions(a, pos, left, right)[port_of(a, right[i1], k2).0 as int],
        0 <= i1 < left.len() && 0 <= i2 < right.len() && 0 <= k1 < a.nodes@[left[i1].0 as int].ports@.len() && 0 <= k2
            < a.nodes@[right[i2].0 as int].ports@.len() && acts_on(a, port_of(a, left[i1], k1), PortSide::East) && acts_on(
            a,
            port_of(a, right[i2], k2),
            PortSide::West,
        ) ==> layer_positions(a, pos, left, right)[port_of(a, left[i1], k1).0 as int] < layer_positions(
            a,
            pos,
            left,
            right,
        )[port_of(a, right[i2], k2).0 as int],
{
    let w = layer_walk(a, left, right);
    let wl = walk_all(a, left, PortSide::East, true);
    let rv = right.reverse();
    let wr = walk_all(a, rv, PortSide::West, false);
    let pp = layer_positions(a, pos, left, right);
    if 0 <= i1 <= i2 < left.len() && 0 <= k1 < a.nodes@[left[i1].0 as int].ports@.len() && 0 <= k2 < a.nodes@[left[
        i2
    ].0 as int].ports@.len() && (i1 < i2 || k1 < k2) && acts_on(a, port_of(a, left[i1], k1), PortSide::East) && acts_on(
        a,
        port_of(a, left[i2], k2),
        PortSide::East,
    ) {
        let c1 = lemma_walk_meets(a, left, PortSide::East, true, i1, k1);
        let c2 = lemma_walk_meets(a, left, PortSide::East, true, i2, k2);
        if i1 < i2 {
            lemma_walk_all_grows(a, left, PortSide::East, true, i1 + 1, i2);
        } else {
            let ps = a.nodes@[left[i1].0 as int].ports@;
            lemma_ports_on_at(a, ps, PortSide::East, k1);
            lemma_ports_on_grows(a, ps, PortSide::East, k1 + 1, k2);
        }
        assert(w[c1] == wl[c1] && w[c2] == wl[c2]);
        lemma_layer_position_at(a, pos, left, right, c1);
        lemma_layer_position_at(a, pos, left, right, c2);
    }
    if 0 <= i1 < right.len() && 0 <= i2 < right.len() {
        assert(rv[right.len() - 1 - i1] == right[i1]);
        assert(rv[right.len() - 1 - i2] == right[i2]);
    }
    if 0 <= i1 < i2 < right.len() && 0 <= k1 < a.nodes@[right[i1].0 as int].ports@.len() && 0 <= k2 < a.nodes@[right[
        i2
    ].0 as int].ports@.len() && acts_on(a, port_of(a, right[i1], k1), PortSide::West) && acts_on(
        a,
        port_of(a, right[i2], k2),
        PortSide::West,
    ) {
        let j1 = right.len() - 1 - i1;
        let j2 = right.len() - 1 - i2;
        let c1 = lemma_walk_meets(a, rv, PortSide::West, false, j1, k1);
        let c2 = lemma_walk_meets(a, rv, PortSide::West, false, j2, k2);
        lemma_walk_all_grows(a, rv, PortSide::West, false, j2 + 1, j1);
        assert(w[wl.len() + c1] == wr[c1] && w[wl.len() + c2] == wr[c2]);
        lemma_layer_position_at(a, pos, left, right, wl.len() + c1);
        lemma_layer_position_at(a, pos, left, right, wl.len() + c2);
    }
    if 0 <= i1 < right.len() && 0 <= k1 < k2 < a.nodes@[right[i1].0 as int].ports@.len() && acts_on(
        a,
        port_of(a, right[i1], k1),
        PortSide::West,
    ) && acts_on(a, port_of(a, right[i1], k2), PortSide::West) {
        let j1 = right.len() - 1 - i1;
        let c1 = lemma_walk_meets(a, rv, PortSide::West, false, j1, k1);
        let c2 = lemma_walk_meets(a, rv, PortSide::West, false, j1, k2);
        let ps = a.nodes@[right[i1].0 as int].ports@;
        lemma_ports_on_at(a, ps, PortSide::West, k1);
        lemma_ports_on_grows(a, ps, PortSide::West, k1 + 1, k2);
        assert(w[wl.len() + c1] == wr[c1] && w[wl.len() + c2] == wr[c2]);
        lemma_layer_position_at(a, pos, left, right, wl.len() + c1);
        lemma_layer_position_at(a, pos, left, right, wl.len() + c2);
    }
    if 0 <= i1 < left.len() && 0 <= i2 < right.len() && 0 <= k1 < a.nodes@[left[i1].0 as int].ports@.len() && 0 <= k2
        < a.nodes@[right[i2].0 as int].ports@.len() && acts_on(a, port_of(a, left[i1], k1), PortSide::East) && acts_on(
        a,
        port_of(a, right[i2], k2),
        PortSide::West,
    ) {
        let c1 = lemma_walk_meets(a, left, PortSide::East, true, i1, k1);
        let c2 = lemma_walk_meets(a, rv, PortSide::West, false, right.len() - 1 - i2, k2);
        assert(w[c1] == wl[c1] && w[wl.len() + c2] == wr[c2]);
        lemma_layer_position_at(a, pos, left, right, c1);
        lemma_layer_position_at(a, pos, left, right, wl.len() + c2);
    }
}

/// Every edge at a port of the walk `ps` has both ends.
pub open spec fn edges_have_ends(a: &LGraphArena, ps: Seq<LPortId>) -> bool {
    forall|c: int, k: int|
        0 <= c < ps.len() && 0 <= k < connected(a, ps[c]).len() ==> a.edges@[#[trigger] connected(a, ps[c])[k] as int].source
            is Some && a.edges@[connected(a, ps[c])[k] as int].target is Some
}

/// Both ends of edge `e` are ports of nodes.
pub open spec fn edge_has_nodes(a: &LGraphArena, e: usize) -> bool {
    &&& e < a.edges@.len()
    &&& a.edges@[e as int].source is Some
    &&& a.edges@[e as int].target is Some
    &&& source_node(a, e) is Some
    &&& target_node(a, e) is Some
}

/// Every edge at a port of the walk `ps` joins two nodes.
pub open spec fn walk_has_nodes(a: &LGraphArena, ps: Seq<LPortId>) -> bool {
    forall|c: int, k: int|
        0 <= c < ps.len() && 0 <= k < connected(a, ps[c]).len() ==> edge_has_nodes(a, #[trigger] connected(a, ps[c])[k])
}

/// Edge `e` joins two nodes of one layer.
pub open spec fn joins_layer(a: &LGraphArena, e: usize) -> bool {
    a.layer_of()[source_node(a, e)->0 as int] == a.layer_of()[target_node(a, e)->0 as int]
}

/// The far ends of the in-layer edges at the port at position `c`, by
/// position; an end not after `c`, or an edge leaving the layer, counts as
/// `c` (it starts no chord).
pub open spec fn side_ends(a: &LGraphArena, pos: Seq<i32>, p: LPortId, c: int) -> Seq<usize> {
    Seq::new(
        connected(a, p).len(),
        |k: int|
            {
                let e = connected(a, p)[k];
                let v = pos[other_end(a, e, p).0 as int];
                if joins_layer(a, e) && v > c {
                    v as usize
                } else {
                    c as usize
                }
            },
    )
}

/// How many of the edges `es` leave the layer.
pub open spec fn leaving_count(a: &LGraphArena, es: Seq<usize>) -> int
    decreases es.len(),
{
    if es.len() == 0 {
        0
    } else {
        leaving_count(a, es.drop_last()) + if joins_layer(a, es.last()) {
            0int
        } else {
            1int
        }
    }
}

/// The in-layer chords of a walk along one side of a layer.
pub open spec fn side_chords(a: &LGraphArena, pos: Seq<i32>, ps: Seq<LPortId>) -> Seq<Seq<usize>> {
    Seq::new(ps.len(), |c: int| side_ends(a, pos, ps[c], c))
}

/// How many edges leave the layer at each port of the walk.
pub open spec fn side_leaving(a: &LGraphArena, ps: Seq<LPortId>) -> Seq<i32> {
    Seq::new(ps.len(), |c: int| leaving_count(a, connected(a, ps[c])) as i32)
}

proof fn lemma_leaving_nonneg(a: &LGraphArena, es: Seq<usize>)
    ensures
        0 <= leaving_count(a, es) <= es.len(),
    decreases es.len(),
{
    if es.len() > 0 {
        lemma_leaving_nonneg(a, es.drop_last());
    }
}

proof fn lemma_ends_len_bound(ends: Seq<Seq<usize>>, c: int, n: int)
    requires
        0 <= c < n <= ends.len(),
    ensures
        ends[c].len() <= ends_before(ends, n),
        ends_before(ends, c) >= 0,
    decreases n,
{
    lemma_ends_before_mono(ends, c + 1, n);
    lemma_ends_before_mono(ends, 0, c);
}

impl<'a> CrossingsCounter<'a> {
    /// A counter over `arena`, with `port_positions` (one entry per port)
    /// as scratch.
    pub fn new(arena: &'a LGraphArena, port_positions: Vec<i32>) -> (r: Self)
        ensures
            r.arena == arena,
            r.port_positions@ == port_positions@,
    {
        CrossingsCounter { arena, port_positions }
    }

    /// The ports of `node` on `side` in walking order (`walk_ports`).
    fn get_ports(&self, node: LNodeId, side: PortSide, top_down: bool) -> (r: Vec<LPortId>)
        requires
            self.arena.wf(),
            node.0 < self.arena.nodes@.len(),
        ensures
            r@ == walk_ports(self.arena, node, side, top_down),
    {
        let ports = &self.arena.nodes[node.0].ports;
        proof {
            lemma_port_list(self.arena, node.0);
            assert(self.arena.port_lists()[node.0 as int] == ports@.map_values(|p: LPortId| p.0));
            assert forall|k: int| 0 <= k < ports@.len() implies (#[trigger] ports@[k]).0 < self.arena.ports@.len() by {
                assert(self.arena.port_lists()[node.0 as int][k] == ports@[k].0);
            }
        }
        let mut s: Vec<LPortId> = Vec::new();
        let mut i: usize = 0;
        while i < ports.len()
            invariant
                self.arena.wf(),
                node.0 < self.arena.nodes@.len(),
                ports@ == self.arena.nodes@[node.0 as int].ports@,
                forall|k: int| 0 <= k < ports@.len() ==> (#[trigger] ports@[k]).0 < self.arena.ports@.len(),
                i <= ports@.len(),
                s@ == ports_on(self.arena, ports@.take(i as int), side),
            decreases ports@.len() - i,
        {
            let p = ports[i];
            proof {
                assert(ports@.take(i + 1).drop_last() =~= ports@.take(i as int));
                assert(ports@.take(i + 1).last() == p);
            }
            if rightward(self.arena.ports[p.0].side) == side {
                s.push(p);
            }
            i += 1;
        }
        proof {
            assert(ports@.take(ports@.len() as int) =~= ports@);
        }
        if (side == PortSide::East && !top_down) || (side == PortSide::West && top_down) {
            let mut r: Vec<LPortId> = Vec::new();
            let mut j: usize = s.len();
            while j > 0
                invariant
                    j <= s@.len(),
                    r@ == Seq::new((s@.len() - j) as nat, |k: int| s@[s@.len() - 1 - k]),
                decreases j,
            {
                j -= 1;
                r.push(s[j]);
                proof {
                    assert(r@ =~= Seq::new((s@.len() - j) as nat, |k: int| s@[s@.len() - 1 - k]));
                }
            }
            proof {
                assert(r@ =~= s@.reverse());
            }
            r
        } else {
            s
        }
    }

    /// Gives the ports of `nodes` on `side`, in walking order, the positions
    /// after those already in `ports`, and appends them to `ports`.
    fn init_positions(&mut self, nodes: &[LNodeId], ports: &mut Vec<LPortId>, side: PortSide, top_down: bool)
        requires
            old(self).arena.wf(),
            old(self).port_positions@.len() == old(self).arena.ports@.len(),
            forall|i: int| 0 <= i < nodes@.len() ==> (#[trigger] nodes@[i]).0 < old(self).arena.nodes@.len(),
            old(ports)@.len() + walk_all(old(self).arena, walk_order_of(nodes@, top_down), side, top_down).len() <= i32::MAX,
        ensures
            final(self).arena == old(self).arena,
            final(self).port_positions@.len() == old(self).port_positions@.len(),
            final(ports)@ == old(ports)@ + walk_all(old(self).arena, walk_order_of(nodes@, top_down), side, top_down),
            final(self).port_positions@ == assign_positions(
                old(self).port_positions@,
                walk_all(old(self).arena, walk_order_of(nodes@, top_down), side, top_down),
                old(ports)@.len() as int,
            ),
    {
        let ghost a = self.arena;
        let ghost order = walk_order_of(nodes@, top_down);
        let ghost p0 = ports@;
        let ghost pos0 = self.port_positions@;
        let mut num: i32 = ports.len() as i32;
        let n = nodes.len();
        let mut t: usize = 0;
        proof {
            assert(order.take(0) =~= Seq::<LNodeId>::empty());
            lemma_walk_all_prefix(a, order, side, top_down, 0);
        }
        while t < n
            invariant
                self.arena == a,
                a.wf(),
                n == nodes@.len(),
                order == walk_order_of(nodes@, top_down),
                order.len() == n,
                forall|i: int| 0 <= i < nodes@.len() ==> (#[trigger] nodes@[i]).0 < a.nodes@.len(),
                p0.len() + walk_all(a, order, side, top_down).len() <= i32::MAX,
                self.port_positions@.len() == a.ports@.len(),
                t <= n,
                ports@ == p0 + walk_all(a, order.take(t as int), side, top_down),
                self.port_positions@ == assign_positions(pos0, walk_all(a, order.take(t as int), side, top_down), p0.len() as int),
                num == ports@.len(),
            decreases n - t,
        {
            let idx = if top_down {
                t
            } else {
                n - 1 - t
            };
            let node = nodes[idx];
            proof {
                assert(order[t as int] == node);
                assert(order.take(t + 1).drop_last() =~= order.take(t as int));
                assert(order.take(t + 1).last() == node);
                lemma_walk_all_prefix(a, order, side, top_down, t + 1);
                lemma_walk_ports(a, node, side, top_down);
            }
            let np = self.get_ports(node, side, top_down);
            let ghost w0 = walk_all(a, order.take(t as int), side, top_down);
            let mut m: usize = 0;
            while m < np.len()
                invariant
                    self.arena == a,
                    a.wf(),
                    np@ == walk_ports(a, node, side, top_down),
                    forall|i: int| 0 <= i < np@.len() ==> (#[trigger] np@[i]).0 < a.ports@.len(),
                    p0.len() + w0.len() + np@.len() <= i32::MAX,
                    self.port_positions@.len() == a.ports@.len(),
                    m <= np@.len(),
                    ports@ == p0 + w0 + np@.take(m as int),
                    self.port_positions@ == assign_positions(pos0, w0 + np@.take(m as int), p0.len() as int),
                    num == ports@.len(),
                decreases np@.len() - m,
            {
                let p = np[m];
                proof {
                    assert((w0 + np@.take(m + 1)).drop_last() =~= w0 + np@.take(m as int));
                    assert((w0 + np@.take(m + 1)).last() == p);
                    assert(np@.take(m + 1) =~= np@.take(m as int).push(p));
                }
                self.port_positions.set(p.0, num);
                ports.push(p);
                num = num + 1;
                m += 1;
                proof {
                    assert(ports@ =~= p0 + w0 + np@.take(m as int));
                }
            }
            proof {
                assert(np@.take(np@.len() as int) =~= np@);
                assert(w0 + np@ == walk_all(a, order.take(t + 1), side, top_down));
            }
            t += 1;
        }
        proof {
            assert(order.take(n as int) =~= order);
        }
    }

    /// Number of crossings between two layers: the ports are numbered along
    /// the counter-clockwise walk (`layer_walk`), each edge becomes a chord
    /// between the positions of its ends, and the interleaving chords are
    /// counted (`count_crossings_on_ports`).
    pub fn count_crossings_between_layers(&mut self, left: &[LNodeId], right: &[LNodeId]) -> (r: i32)
        requires
            old(self).arena.wf(),
            old(self).port_positions@.len() == old(self).arena.ports@.len(),
            (left@ + right@).no_duplicates(),
            forall|i: int| 0 <= i < (left@ + right@).len() ==> (#[trigger] (left@ + right@)[i]).0 < old(self).arena.nodes@.len(),
            layer_walk(old(self).arena, left@, right@).len() < i32::MAX,
            layer_walk(old(self).arena, left@, right@).len() < usize::MAX / 8,
            edges_have_ends(old(self).arena, layer_walk(old(self).arena, left@, right@)),
            ends_in_range(
                chords(
                    old(self).arena,
                    layer_positions(old(self).arena, old(self).port_positions@, left@, right@),
                    layer_walk(old(self).arena, left@, right@),
                ),
            ),
            ends_before(
                chords(
                    old(self).arena,
                    layer_positions(old(self).arena, old(self).port_positions@, left@, right@),
                    layer_walk(old(self).arena, left@, right@),
                ),
                layer_walk(old(self).arena, left@, right@).len() as int,
            ) < i32::MAX,
            sweep_crossings(
                chords(
                    old(self).arena,
                    layer_positions(old(self).arena, old(self).port_positions@, left@, right@),
                    layer_walk(old(self).arena, left@, right@),
                ),
                layer_walk(old(self).arena, left@, right@).len() as int,
            ) <= i32::MAX,
        ensures
            final(self).arena == old(self).arena,
            final(self).port_positions@ == layer_positions(old(self).arena, old(self).port_positions@, left@, right@),
            r == sweep_crossings(
                chords(
                    old(self).arena,
                    layer_positions(old(self).arena, old(self).port_positions@, left@, right@),
                    layer_walk(old(self).arena, left@, right@),
                ),
                layer_walk(old(self).arena, left@, right@).len() as int,
            ),
            r == interleaving_pairs(
                chords(
                    old(self).arena,
                    layer_positions(old(self).arena, old(self).port_positions@, left@, right@),
                    layer_walk(old(self).arena, left@, right@),
                ),
                layer_walk(old(self).arena, left@, right@).len() as int,
            ),
    {
        let ghost a = self.arena;
        let ghost all = left@ + right@;
        let ghost wl = walk_all(a, left@, PortSide::East, true);
        let ghost wr = walk_all(a, right@.reverse(), PortSide::West, false);
        proof {
            assert forall|i: int| 0 <= i < left@.len() implies (#[trigger] left@[i]).0 < a.nodes@.len() by {
                assert(all[i] == left@[i]);
            }
            assert(left@.no_duplicates()) by {
                assert forall|i: int, j: int| 0 <= i < left@.len() && 0 <= j < left@.len() && i != j implies left@[i] != left@[j] by {
                    assert(all[i] == left@[i] && all[j] == left@[j]);
                }
            }
            assert forall|i: int| 0 <= i < right@.len() implies (#[trigger] right@[i]).0 < a.nodes@.len() by {
                assert(all[left@.len() + i] == right@[i]);
            }
            assert forall|i: int| 0 <= i < right@.reverse().len() implies (#[trigger] right@.reverse()[i]).0 < a.nodes@.len() by {
                assert(right@.reverse()[i] == right@[right@.len() - 1 - i]);
            }
        }
        let mut ports: Vec<LPortId> = Vec::new();
        self.init_positions(left, &mut ports, PortSide::East, true);
        self.init_positions(right, &mut ports, PortSide::West, false);
        let ghost walk = layer_walk(a, left@, right@);
        let ghost pos = self.port_positions@;
        proof {
            assert(ports@ =~= walk);
            lemma_walk_all(a, left@, PortSide::East, true);
            assert(right@.reverse().no_duplicates()) by {
                assert forall|i: int, j: int| 0 <= i < right@.len() && 0 <= j < right@.len() && i != j implies right@.reverse()[i]
                    != right@.reverse()[j] by {
                    assert(all[left@.len() + right@.len() - 1 - i] == right@[right@.len() - 1 - i]);
                    assert(all[left@.len() + right@.len() - 1 - j] == right@[right@.len() - 1 - j]);
                }
            }
            lemma_walk_all(a, right@.reverse(), PortSide::West, false);
            lemma_assign_len(self.port_positions@, wr, wl.len() as int);
        }
        let n = ports.len();
        let mut ends: Vec<Vec<usize>> = Vec::new();
        let mut c: usize = 0;
        while c < n
            invariant
                self.arena == a,
                a.wf(),
                ports@ == walk,
                n == walk.len(),
                n < i32::MAX,
                n < usize::MAX / 8,
                pos == self.port_positions@,
                pos.len() == a.ports@.len(),
                walk == wl + wr,
                wl.no_duplicates(),
                wr.no_duplicates(),
                forall|i: int| 0 <= i < wl.len() ==> (#[trigger] wl[i]).0 < a.ports@.len() && (a.owners()[wl[i].0 as int] matches Some(
                    y,
                ) && left@.contains(LNodeId(y))),
                forall|i: int| 0 <= i < wr.len() ==> (#[trigger] wr[i]).0 < a.ports@.len() && (a.owners()[wr[i].0 as int] matches Some(
                    y,
                ) && right@.reverse().contains(LNodeId(y))),
                all == left@ + right@,
                all.no_duplicates(),
                pos == assign_positions(assign_positions(old(self).port_positions@, wl, 0), wr, wl.len() as int),
                old(self).port_positions@.len() == a.ports@.len(),
                edges_have_ends(a, walk),
                c <= n,
                ends@.len() == c,
                forall|k: int| 0 <= k < c ==> (#[trigger] ends@[k])@ == far_ends(a, pos, walk[k], k),
            decreases n - c,
        {
            let p = ports[c];
            proof {
                assert(walk[c as int] == p);
                let pos1 = assign_positions(old(self).port_positions@, wl, 0);
                lemma_assign_len(old(self).port_positions@, wl, 0);
                if (c as int) < wl.len() {
                    assert(wl[c as int] == p);
                    lemma_assign_positions(old(self).port_positions@, wl, 0, c as int);
                    assert forall|i: int| 0 <= i < wr.len() implies (#[trigger] wr[i]).0 != p.0 by {
                        let y1 = a.owners()[p.0 as int]->0;
                        let y2 = a.owners()[wr[i].0 as int]->0;
                        if wr[i].0 == p.0 {
                            let j1 = choose|j: int| 0 <= j < left@.len() && left@[j] == LNodeId(y1);
                            let j2 = choose|j: int| 0 <= j < right@.reverse().len() && right@.reverse()[j] == LNodeId(y2);
                            assert(right@.reverse()[j2] == right@[right@.len() - 1 - j2]);
                            assert(all[j1] == left@[j1]);
                            assert(all[left@.len() + right@.len() - 1 - j2] == right@[right@.len() - 1 - j2]);
                        }
                    }
                    lemma_assign_others(pos1, wr, wl.len() as int, p.0 as int);
                } else {
                    assert(wr[c - wl.len()] == p);
                    assert forall|i: int| 0 <= i < wr.len() implies (#[trigger] wr[i]).0 < pos1.len() by {}
                    lemma_assign_positions(pos1, wr, wl.len() as int, c - wl.len());
                }
                assert(pos[p.0 as int] == c);
            }
            let pc = self.port_positions[p.0];
            let ins = &self.arena.ports[p.0].incoming_edges;
            let outs = &self.arena.ports[p.0].outgoing_edges;
            let ghost conn = connected(a, p);
            let mut fe: Vec<usize> = Vec::new();
            let mut k: usize = 0;
            while k < ins.len()
                invariant
                    self.arena == a,
                    a.wf(),
                    p.0 < a.ports@.len(),
                    pos == self.port_positions@,
                    pos.len() == a.ports@.len(),
                    pc == c,
                    ins@ == a.ports@[p.0 as int].incoming_edges@,
                    conn == connected(a, p),
                    forall|k2: int| 0 <= k2 < conn.len() ==> a.edges@[#[trigger] conn[k2] as int].source is Some && a.edges@[conn[k2] as int].target is Some,
                    k <= ins@.len(),
                    fe@ == far_ends(a, pos, p, c as int).take(k as int),
                decreases ins@.len() - k,
            {
                let e = ins[k];
                proof {
                    assert(conn[k as int] == e.0);
                    assert(a.in_lists()[p.0 as int][k as int] == e.0);
                    assert(e.0 < a.edges@.len());
                    assert(a.edges@[e.0 as int].source is Some && a.edges@[e.0 as int].target is Some);
                    let o = other_end(a, e.0, p);
                    assert(a.sources()[e.0 as int] is Some && a.targets()[e.0 as int] is Some);
                    assert(o.0 < a.ports@.len());
                }
                let edge = &self.arena.edges[e.0];
                let other = if edge.source == Some(p) {
                    edge.target.unwrap()
                } else {
                    edge.source.unwrap()
                };
                let v = self.port_positions[other.0];
                let end = if v > pc {
                    v as usize
                } else {
                    c
                };
                fe.push(end);
                k += 1;
                proof {
                    assert(fe@ =~= far_ends(a, pos, p, c as int).take(k as int));
                }
            }
            let mut k2: usize = 0;
            while k2 < outs.len()
                invariant
                    self.arena == a,
                    a.wf(),
                    p.0 < a.ports@.len(),
                    pos == self.port_positions@,
                    pos.len() == a.ports@.len(),
                    pc == c,
                    ins@ == a.ports@[p.0 as int].incoming_edges@,
                    outs@ == a.ports@[p.0 as int].outgoing_edges@,
                    conn == connected(a, p),
                    forall|k3: int| 0 <= k3 < conn.len() ==> a.edges@[#[trigger] conn[k3] as int].source is Some && a.edges@[conn[k3] as int].target is Some,
                    k2 <= outs@.len(),
                    fe@ == far_ends(a, pos, p, c as int).take(ins@.len() + k2),
                decreases outs@.len() - k2,
            {
                let e = outs[k2];
                proof {
                    assert(conn[ins@.len() + k2] == e.0);
                    assert(a.out_lists()[p.0 as int][k2 as int] == e.0);
                    assert(e.0 < a.edges@.len());
                    assert(a.edges@[e.0 as int].source is Some && a.edges@[e.0 as int].target is Some);
                    assert(a.sources()[e.0 as int] is Some && a.targets()[e.0 as int] is Some);
                }
                let edge = &self.arena.edges[e.0];
                let other = if edge.source == Some(p) {
                    edge.target.unwrap()
                } else {
                    edge.source.unwrap()
                };
                let v = self.port_positions[other.0];
                let end = if v > pc {
                    v as usize
                } else {
                    c
                };
                fe.push(end);
                k2 += 1;
                proof {
                    assert(fe@ =~= far_ends(a, pos, p, c as int).take(ins@.len() + k2));
                }
            }
            proof {
                assert(fe@ =~= far_ends(a, pos, p, c as int));
            }
            ends.push(fe);
            c += 1;
        }
        proof {
            assert(ends_view(&ends) =~= chords(a, pos, walk));
        }
        count_crossings_on_ports(&ends)
    }

    /// The far ends of the in-layer edges at port `p` (at position `c`),
    /// and how many of its edges leave the layer.
    fn side_ends_at(&self, p: LPortId, c: usize) -> (r: (Vec<usize>, i32))
        requires
            self.arena.wf(),
            p.0 < self.arena.ports@.len(),
            self.port_positions@.len() == self.arena.ports@.len(),
            connected(self.arena, p).len() < i32::MAX,
            c < i32::MAX,
            forall|k: int|
                0 <= k < connected(self.arena, p).len() ==> edge_has_nodes(self.arena, #[trigger] connected(self.arena, p)[k]),
        ensures
            r.0@ == side_ends(self.arena, self.port_positions@, p, c as int),
            r.1 == leaving_count(self.arena, connected(self.arena, p)),
    {
        let ghost a = self.arena;
        let ghost pos = self.port_positions@;
        let ghost conn = connected(a, p);
        let ins = &self.arena.ports[p.0].incoming_edges;
        let outs = &self.arena.ports[p.0].outgoing_edges;
        let total = ins.len() + outs.len();
        let mut fe: Vec<usize> = Vec::new();
        let mut leaving: i32 = 0;
        let mut k: usize = 0;
        while k < total
            invariant
                self.arena == a,
                a.wf(),
                p.0 < a.ports@.len(),
                pos == self.port_positions@,
                pos.len() == a.ports@.len(),
                ins@ == a.ports@[p.0 as int].incoming_edges@,
                outs@ == a.ports@[p.0 as int].outgoing_edges@,
                conn == connected(a, p),
                total == conn.len(),
                total < i32::MAX,
                c < i32::MAX,
                forall|k3: int| 0 <= k3 < conn.len() ==> edge_has_nodes(a, #[trigger] conn[k3]),
                k <= total,
                fe@ == side_ends(a, pos, p, c as int).take(k as int),
                leaving == leaving_count(a, conn.take(k as int)),
                leaving <= k,
            decreases total - k,
        {
            let e = if k < ins.len() {
                ins[k]
            } else {
                outs[k - ins.len()]
            };
            proof {
                if (k as int) < ins@.len() {
                    assert(a.in_lists()[p.0 as int][k as int] == e.0);
                } else {
                    assert(a.out_lists()[p.0 as int][k - ins@.len()] == e.0);
                }
                assert(conn[k as int] == e.0);
                assert(edge_has_nodes(a, conn[k as int]));
                assert(conn.take(k + 1).drop_last() =~= conn.take(k as int));
                assert(conn.take(k + 1).last() == e.0);
            }
            let edge = &self.arena.edges[e.0];
            let other = if edge.source == Some(p) {
                edge.target.unwrap()
            } else {
                edge.source.unwrap()
            };
            let v = self.port_positions[other.0];
            let inside = is_in_layer_edge(self.arena, e);
            let end = if inside && v as i64 > c as i64 {
                v as usize
            } else {
                c
            };
            if !inside {
                leaving = leaving + 1;
            }
            proof {
                assert(other == other_end(a, e.0, p));
                assert(end == side_ends(a, pos, p, c as int)[k as int]);
            }
            fe.push(end);
            k += 1;
            proof {
                assert(fe@ =~= side_ends(a, pos, p, c as int).take(k as int));
            }
        }
        proof {
            assert(fe@ =~= side_ends(a, pos, p, c as int));
            assert(conn.take(total as int) =~= conn);
        }
        (fe, leaving)
    }

    /// Number of crossings inside one side of a layer: the ports of `nodes`
    /// on `side` are numbered top-down (`walk_all`), each edge that stays
    /// in the layer becomes a chord between the positions of its ends, and
    /// each edge leaving the layer crosses the chords open at its port
    /// (`count_in_layer_crossings_on_ports`).
    pub fn count_in_layer_crossings_on_side(&mut self, nodes: &[LNodeId], side: PortSide) -> (r: i32)
        requires
            old(self).arena.wf(),
            old(self).port_positions@.len() == old(self).arena.ports@.len(),
            nodes@.no_duplicates(),
            forall|i: int| 0 <= i < nodes@.len() ==> (#[trigger] nodes@[i]).0 < old(self).arena.nodes@.len(),
            walk_all(old(self).arena, nodes@, side, true).len() < i32::MAX,
            walk_all(old(self).arena, nodes@, side, true).len() < usize::MAX / 8,
            walk_has_nodes(old(self).arena, walk_all(old(self).arena, nodes@, side, true)),
            ends_in_range(
                side_chords(
                    old(self).arena,
                    assign_positions(old(self).port_positions@, walk_all(old(self).arena, nodes@, side, true), 0),
                    walk_all(old(self).arena, nodes@, side, true),
                ),
            ),
            ends_before(
                side_chords(
                    old(self).arena,
                    assign_positions(old(self).port_positions@, walk_all(old(self).arena, nodes@, side, true), 0),
                    walk_all(old(self).arena, nodes@, side, true),
                ),
                walk_all(old(self).arena, nodes@, side, true).len() as int,
            ) < i32::MAX,
            in_layer_crossings(
                side_chords(
                    old(self).arena,
                    assign_positions(old(self).port_positions@, walk_all(old(self).arena, nodes@, side, true), 0),
                    walk_all(old(self).arena, nodes@, side, true),
                ),
                side_leaving(old(self).arena, walk_all(old(self).arena, nodes@, side, true)),
                walk_all(old(self).arena, nodes@, side, true).len() as int,
            ) <= i32::MAX,
        ensures
            final(self).arena == old(self).arena,
            final(self).port_positions@ == assign_positions(
                old(self).port_positions@,
                walk_all(old(self).arena, nodes@, side, true),
                0,
            ),
            r == in_layer_crossings(
                side_chords(
                    old(self).arena,
                    assign_positions(old(self).port_positions@, walk_all(old(self).arena, nodes@, side, true), 0),
                    walk_all(old(self).arena, nodes@, side, true),
                ),
                side_leaving(old(self).arena, walk_all(old(self).arena, nodes@, side, true)),
                walk_all(old(self).arena, nodes@, side, true).len() as int,
            ),
    {
        let ghost a = self.arena;
        let ghost walk = walk_all(a, nodes@, side, true);
        let mut ports: Vec<LPortId> = Vec::new();
        proof {
            assert(walk_order_of(nodes@, true) == nodes@);
        }
        self.init_positions(nodes, &mut ports, side, true);
        let ghost pos = self.port_positions@;
        let ghost ch = side_chords(a, pos, walk);
        proof {
            assert(ports@ =~= walk);
            lemma_walk_all(a, nodes@, side, true);
        }
        let n = ports.len();
        let mut ends: Vec<Vec<usize>> = Vec::new();
        let mut between: Vec<i32> = Vec::new();
        let mut c: usize = 0;
        while c < n
            invariant
                self.arena == a,
                a.wf(),
                ports@ == walk,
                n == walk.len(),
                n < i32::MAX,
                pos == self.port_positions@,
                pos.len() == a.ports@.len(),
                ch == side_chords(a, pos, walk),
                forall|i: int| 0 <= i < walk.len() ==> (#[trigger] walk[i]).0 < a.ports@.len(),
                walk_has_nodes(a, walk),
                ends_before(ch, n as int) < i32::MAX,
                c <= n,
                ends@.len() == c,
                between@.len() == c,
                forall|k: int| 0 <= k < c ==> (#[trigger] ends@[k])@ == side_ends(a, pos, walk[k], k),
                forall|k: int| 0 <= k < c ==> #[trigger] between@[k] == side_leaving(a, walk)[k],
                forall|k: int| 0 <= k < c ==> #[trigger] between@[k] >= 0,
            decreases n - c,
        {
            let p = ports[c];
            proof {
                assert(walk[c as int] == p);
                lemma_ends_len_bound(ch, c as int, n as int);
                assert(ch[c as int].len() == connected(a, p).len());
                assert forall|k: int| 0 <= k < connected(a, p).len() implies edge_has_nodes(a, #[trigger] connected(a, p)[k]) by {
                    assert(edge_has_nodes(a, connected(a, walk[c as int])[k]));
                }
                lemma_leaving_nonneg(a, connected(a, p));
            }
            let (fe, lv) = self.side_ends_at(p, c);
            ends.push(fe);
            between.push(lv);
            c += 1;
        }
        proof {
            assert(ends_view(&ends) =~= ch);
            assert(between@ =~= side_leaving(a, walk));
        }
        count_in_layer_crossings_on_ports(&ends, &between)
    }
}

} // verus!
