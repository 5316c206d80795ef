//! Choosing the side of its edge that each label dummy's labels go on.
//! The dummies of a layer come in runs of consecutive label and
//! long-edge dummies; a lone label dummy at the top of a layer goes
//! above its edge, one at the bottom below, two dummies side by side go
//! one above and one below, and otherwise each group of dummies of the
//! same edge does so when it has two members, and takes the layout's
//! default side when not.

use vstd::prelude::*;
use crate::layout::elk::alg::graph::{LGraphArena, LGraphId, LNode, LNodeId, NodeType};
use crate::layout::elk::alg::label_dummies::is_label;
use crate::layout::elk::alg::options::{Direction, LabelSide, NodeProps};
use crate::layout::elk::alg::p1_cycles::lemma_port_list;

verus! {

/// The start of the block of `s` that position `i` lies in, where
/// neighbours `x`, `y` share a block when `same(x, y)`.
pub open spec fn block_start(s: Seq<usize>, same: spec_fn(usize, usize) -> bool, i: int) -> int
    decreases i,
{
    if i > 0 && same(s[i - 1], s[i]) {
        block_start(s, same, i - 1)
    } else {
        i
    }
}

/// One past the end of the block of `s` that position `i` lies in.
pub open spec fn block_end(s: Seq<usize>, same: spec_fn(usize, usize) -> bool, i: int) -> int
    decreases s.len() - i,
{
    if 0 <= i && i + 1 < s.len() && same(s[i], s[i + 1]) {
        block_end(s, same, i + 1)
    } else {
        i + 1
    }
}

/// Where positions `qs` up to `e` of `s` form a maximal block, each of
/// them has that block.
pub proof fn lemma_block(s: Seq<usize>, same: spec_fn(usize, usize) -> bool, qs: int, e: int, p: int)
    requires
        0 <= qs <= p < e <= s.len(),
        forall|k: int| qs <= k < e - 1 ==> #[trigger] same(s[k], s[k + 1]),
        qs == 0 || !same(s[qs - 1], s[qs]),
        e == s.len() || !same(s[e - 1], s[e]),
    ensures
        block_start(s, same, p) == qs,
        block_end(s, same, p) == e,
{
    lemma_block_start(s, same, qs, e, p);
    lemma_block_end(s, same, qs, e, p);
}

proof fn lemma_block_start(s: Seq<usize>, same: spec_fn(usize, usize) -> bool, qs: int, e: int, p: int)
    requires
        0 <= qs <= p < e <= s.len(),
        forall|k: int| qs <= k < e - 1 ==> #[trigger] same(s[k], s[k + 1]),
        qs == 0 || !same(s[qs - 1], s[qs]),
    ensures
        block_start(s, same, p) == qs,
    decreases p - qs,
{
    if p > qs {
        assert(same(s[p - 1], s[p - 1 + 1]));
        lemma_block_start(s, same, qs, e, p - 1);
    }
}

proof fn lemma_block_end(s: Seq<usize>, same: spec_fn(usize, usize) -> bool, qs: int, e: int, p: int)
    requires
        0 <= qs <= p < e <= s.len(),
        forall|k: int| qs <= k < e - 1 ==> #[trigger] same(s[k], s[k + 1]),
        e == s.len() || !same(s[e - 1], s[e]),
    ensures
        block_end(s, same, p) == e,
    decreases e - p,
{
    if p + 1 < e {
        assert(same(s[p], s[p + 1]));
        lemma_block_end(s, same, qs, e, p + 1);
    }
}

/// Node `x` exists and is a label or long-edge dummy.
pub open spec fn is_dummy(a: &LGraphArena, x: usize) -> bool {
    x < a.nodes@.len() && (a.nodes@[x as int].node_type == NodeType::Label || a.nodes@[x as int].node_type
        == NodeType::LongEdge)
}

/// Neighbours in a layer that lie in one run: both are dummies.
pub open spec fn both_dummies(a: LGraphArena) -> spec_fn(usize, usize) -> bool {
    |x: usize, y: usize| is_dummy(&a, x) && is_dummy(&a, y)
}

/// The node owning port `p`, if any.
pub open spec fn end_owner(a: &LGraphArena, p: Option<crate::layout::elk::alg::graph::LPortId>) -> Option<usize> {
    match p {
        Some(q) => a.owners()[q.0 as int],
        None => None,
    }
}

/// The nodes at the ends of the long edge dummy `x` belongs to.
pub open spec fn edge_key(a: &LGraphArena, x: usize) -> (Option<usize>, Option<usize>) {
    if x < a.nodes@.len() {
        (end_owner(a, a.nodes@[x as int].props.long_edge_source), end_owner(a, a.nodes@[x as int].props.long_edge_target))
    } else {
        (None, None)
    }
}

/// Neighbours in a run that lie in one group: they belong to long edges
/// between the same nodes.
pub open spec fn same_edge(a: LGraphArena) -> spec_fn(usize, usize) -> bool {
    |x: usize, y: usize| edge_key(&a, x) == edge_key(&a, y)
}

/// The number of label dummies in `r`.
pub open spec fn label_count(a: &LGraphArena, r: Seq<usize>) -> nat
    decreases r.len(),
{
    if r.len() == 0 {
        0
    } else {
        label_count(a, r.drop_last()) + if is_label(a, r.last()) {
            1nat
        } else {
            0nat
        }
    }
}

/// The side the dummy at position `j` of run `r` is given; none where it
/// is left as it is. `top` and `bottom` say whether the run starts and
/// ends its layer.
pub open spec fn chosen_side(
    a: &LGraphArena,
    r: Seq<usize>,
    top: bool,
    bottom: bool,
    default_side: LabelSide,
    j: int,
) -> Option<LabelSide> {
    let n = r.len();
    if top && (!bottom || n > 1) && label_count(a, r) == 1 && is_label(a, r[0]) {
        if j == 0 {
            Some(LabelSide::Above)
        } else {
            None
        }
    } else if bottom && (!top || n > 1) && label_count(a, r) == 1 && is_label(a, r[n - 1]) {
        if j == n - 1 {
            Some(LabelSide::Below)
        } else {
            None
        }
    } else if n == 2 {
        if j == 0 {
            Some(LabelSide::Above)
        } else {
            Some(LabelSide::Below)
        }
    } else {
        Some(group_side(a, r, default_side, j))
    }
}

/// The side the dummy at position `j` of run `r` takes from its group of
/// dummies of the same long edge: above and below where the group has two
/// members, the default side otherwise.
pub open spec fn group_side(a: &LGraphArena, r: Seq<usize>, default_side: LabelSide, j: int) -> LabelSide {
    let ss = block_start(r, same_edge(*a), j);
    let se = block_end(r, same_edge(*a), j);
    if se - ss == 2 {
        if j == ss {
            LabelSide::Above
        } else {
            LabelSide::Below
        }
    } else {
        default_side
    }
}

/// All labels that label dummy `x` stands for are inline labels.
pub open spec fn inline_label(a: &LGraphArena, x: usize) -> bool {
    forall|k: int|
        0 <= k < a.nodes@[x as int].props.represented_labels@.len() ==> #[trigger] a.labels@[a.nodes@[x as int].props.represented_labels@[k].0 as int].props.inline
}

/// The side label dummy `x` takes when given `side`: inline labels stay
/// on their edge.
pub open spec fn effective_side(a: &LGraphArena, x: usize, side: LabelSide) -> LabelSide {
    if inline_label(a, x) {
        LabelSide::Inline
    } else {
        side
    }
}

/// Node `n` with its labels' side set to `side`.
pub open spec fn with_side(n: LNode, side: LabelSide) -> LNode {
    LNode { props: NodeProps { label_side: side, ..n.props }, ..n }
}

/// The labels a label dummy stands for exist.
pub open spec fn labels_known(a: &LGraphArena, x: usize) -> bool {
    forall|k: int|
        0 <= k < a.nodes@[x as int].props.represented_labels@.len() ==> #[trigger] a.nodes@[x as int].props.represented_labels@[k].0
            < a.labels@.len()
}

/// Whether label dummy `node` stands only for inline labels.
fn is_inline_edge_label(arena: &LGraphArena, node: LNodeId) -> (r: bool)
    requires
        is_label(arena, node.0),
        labels_known(arena, node.0),
    ensures
        r == inline_label(arena, node.0),
{
    let n = arena.nodes[node.0].props.represented_labels.len();
    let mut k: usize = 0;
    while k < n
        invariant
            is_label(arena, node.0),
            labels_known(arena, node.0),
            n == arena.nodes@[node.0 as int].props.represented_labels@.len(),
            k <= n,
            forall|i: int|
                0 <= i < k ==> #[trigger] arena.labels@[arena.nodes@[node.0 as int].props.represented_labels@[i].0 as int].props.inline,
        decreases n - k,
    {
        let l = arena.nodes[node.0].props.represented_labels[k];
        proof {
            assert(l.0 < arena.labels@.len());
        }
        if !arena.labels[l.0].props.inline {
            return false;
        }
        k += 1;
    }
    true
}

/// Sets the side of label dummy `x` (inline labels stay on their edge);
/// any other node is left as it is.
fn apply_label_side(arena: &mut LGraphArena, x: LNodeId, side: LabelSide)
    requires
        x.0 < old(arena).nodes@.len(),
        is_label(&*old(arena), x.0) ==> labels_known(&*old(arena), x.0),
    ensures
        final(arena).nodes@ == if is_label(&*old(arena), x.0) {
            old(arena).nodes@.update(
                x.0 as int,
                with_side(old(arena).nodes@[x.0 as int], effective_side(&*old(arena), x.0, side)),
            )
        } else {
            old(arena).nodes@
        },
        final(arena).graphs == old(arena).graphs,
        final(arena).ports == old(arena).ports,
        final(arena).edges == old(arena).edges,
        final(arena).labels == old(arena).labels,
{
    if arena.nodes[x.0].node_type != NodeType::Label {
        return;
    }
    let effective = if is_inline_edge_label(arena, x) {
        LabelSide::Inline
    } else {
        side
    };
    arena.nodes[x.0].props.label_side = effective;
}

/// The ports at the ends of the long edge of dummy `x` exist.
pub open spec fn ends_known(a: &LGraphArena, x: usize) -> bool {
    &&& a.nodes@[x as int].props.long_edge_source matches Some(p) ==> p.0 < a.ports@.len()
    &&& a.nodes@[x as int].props.long_edge_target matches Some(p) ==> p.0 < a.ports@.len()
}

/// The nodes of run `r` can be handled: they exist, occur once, and the
/// ports and labels they refer to exist.
pub open spec fn run_ok(a: &LGraphArena, r: Seq<usize>) -> bool {
    &&& r.no_duplicates()
    &&& forall|k: int| 0 <= k < r.len() ==> #[trigger] r[k] < a.nodes@.len()
    &&& forall|k: int| 0 <= k < r.len() ==> ends_known(a, #[trigger] r[k])
    &&& forall|k: int| 0 <= k < r.len() && is_label(a, #[trigger] r[k]) ==> labels_known(a, r[k])
}

/// The long-edge end nodes of dummy `x`.
fn edge_key_of(arena: &LGraphArena, x: LNodeId) -> (r: (Option<usize>, Option<usize>))
    requires
        x.0 < arena.nodes@.len(),
        ends_known(arena, x.0),
    ensures
        r == edge_key(arena, x.0),
{
    let s = match arena.nodes[x.0].props.long_edge_source {
        Some(p) => match arena.ports[p.0].owner {
            Some(o) => Some(o.0),
            None => None,
        },
        None => None,
    };
    let t = match arena.nodes[x.0].props.long_edge_target {
        Some(p) => match arena.ports[p.0].owner {
            Some(o) => Some(o.0),
            None => None,
        },
        None => None,
    };
    (s, t)
}

/// Whether two optional indices are equal.
fn same_index(x: Option<usize>, y: Option<usize>) -> (r: bool)
    ensures
        r == (x == y),
{
    match (x, y) {
        (Some(i), Some(j)) => i == j,
        (None, None) => true,
        _ => false,
    }
}

/// Gives the dummies of the group at positions `lo` up to `hi` of `run`
/// their sides: above and below where the group has two members, the
/// default side otherwise.
fn apply_group(arena: &mut LGraphArena, run: &Vec<LNodeId>, lo: usize, hi: usize, default_side: LabelSide, Ghost(r): Ghost<Seq<usize>>)
    requires
        r == run@.map_values(|n: LNodeId| n.0),
        run_ok(&*old(arena), r),
        lo < hi <= r.len(),
    ensures
        final(arena).graphs == old(arena).graphs,
        final(arena).ports == old(arena).ports,
        final(arena).edges == old(arena).edges,
        final(arena).labels == old(arena).labels,
        final(arena).nodes@.len() == old(arena).nodes@.len(),
        forall|n: int|
            0 <= n < old(arena).nodes@.len() ==> #[trigger] final(arena).nodes@[n] == if is_label(&*old(arena), n as usize)
                && r.contains(n as usize) && lo <= r.index_of(n as usize) < hi {
                with_side(
                    old(arena).nodes@[n],
                    effective_side(
                        &*old(arena),
                        n as usize,
                        if hi - lo == 2 {
                            if r.index_of(n as usize) == lo {
                                LabelSide::Above
                            } else {
                                LabelSide::Below
                            }
                        } else {
                            default_side
                        },
                    ),
                )
            } else {
                old(arena).nodes@[n]
            },
{
    let ghost a0 = *arena;
    let ghost side_of = |k: int|
        if hi - lo == 2 {
            if k == lo {
                LabelSide::Above
            } else {
                LabelSide::Below
            }
        } else {
            default_side
        };
    let mut k = lo;
    while k < hi
        invariant
            r == run@.map_values(|n: LNodeId| n.0),
            run_ok(&a0, r),
            lo <= k <= hi,
            hi <= r.len(),
            side_of == (|k: int|
                if hi - lo == 2 {
                    if k == lo {
                        LabelSide::Above
                    } else {
                        LabelSide::Below
                    }
                } else {
                    default_side
                }),
            arena.graphs == a0.graphs,
            arena.ports == a0.ports,
            arena.edges == a0.edges,
            arena.labels == a0.labels,
            arena.nodes@.len() == a0.nodes@.len(),
            forall|n: int|
                0 <= n < a0.nodes@.len() ==> #[trigger] arena.nodes@[n] == if is_label(&a0, n as usize) && r.contains(n as usize)
                    && lo <= r.index_of(n as usize) < k {
                    with_side(a0.nodes@[n], effective_side(&a0, n as usize, side_of(r.index_of(n as usize))))
                } else {
                    a0.nodes@[n]
                },
        decreases hi - k,
    {
        let x = run[k];
        let side = if hi - lo == 2 {
            if k == lo {
                LabelSide::Above
            } else {
                LabelSide::Below
            }
        } else {
            default_side
        };
        let ghost before = *arena;
        proof {
            assert(r[k as int] == x.0);
            assert(x.0 < a0.nodes@.len());
            assert(before.nodes@[x.0 as int] == a0.nodes@[x.0 as int]) by {
                assert(a0.nodes@.len() == a0.nodes.len());
                assert(x.0 as int as usize == x.0);
                r.index_of_first_ensures(x.0);
                assert(r.contains(x.0));
                assert(r.index_of(x.0) == k) by {
                    assert(r[r.index_of(x.0)] == x.0);
                }
            }
            if is_label(&before, x.0) {
                assert(labels_known(&a0, r[k as int]));
            }
        }
        apply_label_side(arena, x, side);
        proof {
            assert forall|n: int| 0 <= n < a0.nodes@.len() implies #[trigger] arena.nodes@[n] == if is_label(&a0, n as usize)
                && r.contains(n as usize) && lo <= r.index_of(n as usize) < k + 1 {
                with_side(a0.nodes@[n], effective_side(&a0, n as usize, side_of(r.index_of(n as usize))))
            } else {
                a0.nodes@[n]
            } by {
                assert(a0.nodes@.len() == a0.nodes.len());
                assert(n as usize as int == n);
                if n == x.0 {
                    r.index_of_first_ensures(x.0);
                    assert(r.contains(x.0));
                    assert(r.index_of(x.0) == k) by {
                        assert(r[r.index_of(x.0)] == x.0);
                    }
                    assert(inline_label(&before, x.0) == inline_label(&a0, x.0));
                } else {
                    assert(arena.nodes@[n] == before.nodes@[n]);
                    if r.contains(n as usize) {
                        r.index_of_first_ensures(n as usize);
                        assert(r.index_of(n as usize) != k) by {
                            assert(r[r.index_of(n as usize)] == n as usize);
                        }
                    }
                }
            }
        }
        k += 1;
    }
}

/// Node `n` of `a` after the label dummies of `r` at positions below
/// `upto` took the side of their group.
#[verifier::opaque]
pub open spec fn grouped_upto(a: &LGraphArena, r: Seq<usize>, default_side: LabelSide, upto: int, n: int) -> LNode {
    if is_label(a, n as usize) && r.contains(n as usize) && r.index_of(n as usize) < upto {
        with_side(a.nodes@[n], effective_side(a, n as usize, group_side(a, r, default_side, r.index_of(n as usize))))
    } else {
        a.nodes@[n]
    }
}

/// After the group at positions `ss` up to `j` of run `r` took its sides,
/// all label dummies before `j` have the side of their group.
proof fn lemma_group_done(
    a0: &LGraphArena,
    before: &LGraphArena,
    after: &LGraphArena,
    r: Seq<usize>,
    default_side: LabelSide,
    ss: int,
    j: int,
)
    requires
        run_ok(a0, r),
        0 <= ss < j <= r.len(),
        forall|k: int| ss <= k < j - 1 ==> #[trigger] same_edge(*a0)(r[k], r[k + 1]),
        ss == 0 || !same_edge(*a0)(r[ss - 1], r[ss]),
        j == r.len() || !same_edge(*a0)(r[j - 1], r[j]),
        before.labels == a0.labels,
        before.nodes@.len() == a0.nodes@.len(),
        forall|n: int| 0 <= n < a0.nodes@.len() ==> #[trigger] before.nodes@[n] == grouped_upto(a0, r, default_side, ss, n),
        after.nodes@.len() == before.nodes@.len(),
        forall|n: int|
            0 <= n < before.nodes@.len() ==> #[trigger] after.nodes@[n] == if is_label(before, n as usize) && r.contains(
                n as usize,
            ) && ss <= r.index_of(n as usize) < j {
                with_side(
                    before.nodes@[n],
                    effective_side(
                        before,
                        n as usize,
                        if j - ss == 2 {
                            if r.index_of(n as usize) == ss {
                                LabelSide::Above
                            } else {
                                LabelSide::Below
                            }
                        } else {
                            default_side
                        },
                    ),
                )
            } else {
                before.nodes@[n]
            },
    ensures
        forall|n: int| 0 <= n < a0.nodes@.len() ==> #[trigger] after.nodes@[n] == grouped_upto(a0, r, default_side, j, n),
{
    reveal(grouped_upto);
    assert forall|n: int| 0 <= n < a0.nodes@.len() implies #[trigger] after.nodes@[n] == grouped_upto(a0, r, default_side, j, n) by {
        assert(a0.nodes@.len() == a0.nodes.len());
        assert(n as usize as int == n);
        assert(before.nodes@[n] == grouped_upto(a0, r, default_side, ss, n));
        if r.contains(n as usize) {
            r.index_of_first_ensures(n as usize);
        }
        assert(before.nodes@[n].node_type == a0.nodes@[n].node_type);
        assert(is_label(before, n as usize) == is_label(a0, n as usize));
        if is_label(a0, n as usize) && r.contains(n as usize) && ss <= r.index_of(n as usize) < j {
            let p = r.index_of(n as usize);
            lemma_block(r, same_edge(*a0), ss, j, p);
            assert(before.nodes@[n] == a0.nodes@[n]);
            assert(inline_label(before, n as usize) == inline_label(a0, n as usize));
        }
    }
}

/// Before any group took its sides, every node is as it was.
proof fn lemma_grouped_none(a0: &LGraphArena, r: Seq<usize>, default_side: LabelSide)
    ensures
        forall|n: int| 0 <= n < a0.nodes@.len() ==> #[trigger] grouped_upto(a0, r, default_side, 0, n) == a0.nodes@[n],
{
    reveal(grouped_upto);
    assert forall|n: int| 0 <= n < a0.nodes@.len() implies #[trigger] grouped_upto(a0, r, default_side, 0, n) == a0.nodes@[n] by {
        if r.contains(n as usize) {
            r.index_of_first_ensures(n as usize);
        }
    }
}

/// Giving label dummies sides keeps a run manageable.
proof fn lemma_run_ok_kept(a0: &LGraphArena, cur: &LGraphArena, r: Seq<usize>, default_side: LabelSide, upto: int)
    requires
        run_ok(a0, r),
        cur.labels == a0.labels,
        cur.ports == a0.ports,
        cur.nodes@.len() == a0.nodes@.len(),
        forall|n: int| 0 <= n < a0.nodes@.len() ==> #[trigger] cur.nodes@[n] == grouped_upto(a0, r, default_side, upto, n),
    ensures
        run_ok(cur, r),
{
    reveal(grouped_upto);
    assert forall|k: int| 0 <= k < r.len() implies ends_known(cur, #[trigger] r[k]) by {
        assert(cur.nodes@[r[k] as int] == grouped_upto(a0, r, default_side, upto, r[k] as int));
        assert(ends_known(a0, r[k]));
    }
    assert forall|k: int| 0 <= k < r.len() && is_label(cur, #[trigger] r[k]) implies labels_known(cur, r[k]) by {
        assert(cur.nodes@[r[k] as int] == grouped_upto(a0, r, default_side, upto, r[k] as int));
        assert(is_label(a0, r[k]));
        assert(labels_known(a0, r[k]));
    }
}

/// A dummy at or after position `upto` of run `r` has not been given its
/// side yet.
proof fn lemma_not_yet_grouped(a0: &LGraphArena, r: Seq<usize>, default_side: LabelSide, upto: int, p: int)
    requires
        run_ok(a0, r),
        upto <= p < r.len(),
        0 <= p,
    ensures
        grouped_upto(a0, r, default_side, upto, r[p] as int) == a0.nodes@[r[p] as int],
{
    reveal(grouped_upto);
    assert(a0.nodes@.len() == a0.nodes.len());
    assert(r[p] < a0.nodes@.len());
    assert((r[p] as int) as usize == r[p]);
    r.index_of_first_ensures(r[p]);
    assert(r.index_of(r[p]) == p) by {
        assert(r.contains(r[p]));
        assert(r[r.index_of(r[p])] == r[p]);
    }
}

/// Gives each label dummy of `run` the side of its group of dummies of
/// the same long edge.
#[verifier::rlimit(30)]
fn apply_groups(arena: &mut LGraphArena, run: &Vec<LNodeId>, default_side: LabelSide, Ghost(r): Ghost<Seq<usize>>)
    requires
        r == run@.map_values(|n: LNodeId| n.0),
        run_ok(&*old(arena), r),
        r.len() > 0,
    ensures
        final(arena).graphs == old(arena).graphs,
        final(arena).ports == old(arena).ports,
        final(arena).edges == old(arena).edges,
        final(arena).labels == old(arena).labels,
        final(arena).nodes@.len() == old(arena).nodes@.len(),
        forall|n: int|
            0 <= n < old(arena).nodes@.len() ==> #[trigger] final(arena).nodes@[n] == grouped_upto(
                &*old(arena),
                r,
                default_side,
                r.len() as int,
                n,
            ),
{
    let ghost a0 = *arena;
    let len = run.len();
    proof {
        assert(r[0] == run@[0].0);
        assert(r[0] < a0.nodes@.len() && ends_known(&a0, r[0]));
    }
    let mut ss: usize = 0;
    let mut key = edge_key_of(arena, run[0]);
    let mut j: usize = 1;
    proof {
        lemma_grouped_none(&a0, r, default_side);
    }
    while j < len
        invariant
            r == run@.map_values(|n: LNodeId| n.0),
            run_ok(&a0, r),
            len == r.len(),
            0 <= ss < j <= len,
            key == edge_key(&a0, r[ss as int]),
            ss == 0 || !same_edge(a0)(r[ss - 1], r[ss as int]),
            forall|k: int| ss <= k < j ==> #[trigger] edge_key(&a0, r[k]) == key,
            arena.graphs == a0.graphs,
            arena.ports == a0.ports,
            arena.edges == a0.edges,
            arena.labels == a0.labels,
            arena.nodes@.len() == a0.nodes@.len(),
            forall|n: int| 0 <= n < a0.nodes@.len() ==> #[trigger] arena.nodes@[n] == grouped_upto(&a0, r, default_side, ss as int, n),
        decreases len - j,
    {
        let x = run[j];
        proof {
            assert(r[j as int] == x.0);
            assert(x.0 < a0.nodes@.len() && ends_known(&a0, x.0));
            assert(a0.nodes@.len() == a0.nodes.len());
            assert(arena.nodes@[x.0 as int] == grouped_upto(&a0, r, default_side, ss as int, x.0 as int));
            lemma_not_yet_grouped(&a0, r, default_side, ss as int, j as int);
            assert(arena.nodes@[x.0 as int] == a0.nodes@[x.0 as int]);
        }
        let kj = edge_key_of(arena, x);
        if !(same_index(kj.0, key.0) && same_index(kj.1, key.1)) {
            proof {
                assert(edge_key(&a0, r[j as int]) != key);
                assert(edge_key(&a0, r[j - 1]) == key);
                assert(!same_edge(a0)(r[j - 1], r[j as int]));
                assert forall|k: int| ss <= k < j - 1 implies #[trigger] same_edge(a0)(r[k], r[k + 1]) by {
                    assert(edge_key(&a0, r[k]) == key);
                    assert(edge_key(&a0, r[k + 1]) == key);
                }
            }
            let ghost before = *arena;
            proof {
                lemma_run_ok_kept(&a0, &before, r, default_side, ss as int);
            }
            apply_group(arena, run, ss, j, default_side, Ghost(r));
            proof {
                lemma_group_done(&a0, &before, &*arena, r, default_side, ss as int, j as int);
            }
            ss = j;
            key = kj;
        }
        j += 1;
    }
    proof {
        assert forall|k: int| ss <= k < len - 1 implies #[trigger] same_edge(a0)(r[k], r[k + 1]) by {
            assert(edge_key(&a0, r[k]) == key);
            assert(edge_key(&a0, r[k + 1]) == key);
        }
    }
    let ghost before = *arena;
    proof {
        lemma_run_ok_kept(&a0, &before, r, default_side, ss as int);
    }
    apply_group(arena, run, ss, len, default_side, Ghost(r));
    proof {
        lemma_group_done(&a0, &before, &*arena, r, default_side, ss as int, len as int);
    }
}

/// Node `n` of `a` after the label dummies of run `r` took the sides
/// `chosen_side` gives them.
pub open spec fn run_sided(a: &LGraphArena, r: Seq<usize>, top: bool, bottom: bool, default_side: LabelSide, n: int) -> LNode {
    if is_label(a, n as usize) && r.contains(n as usize) {
        match chosen_side(a, r, top, bottom, default_side, r.index_of(n as usize)) {
            Some(sd) => with_side(a.nodes@[n], effective_side(a, n as usize, sd)),
            None => a.nodes@[n],
        }
    } else {
        a.nodes@[n]
    }
}

/// A node of run `r` at position `p` has index `p`.
proof fn lemma_index_in_run(a: &LGraphArena, r: Seq<usize>, p: int)
    requires
        run_ok(a, r),
        0 <= p < r.len(),
    ensures
        r.contains(r[p]),
        r.index_of(r[p]) == p,
        (r[p] as int) as usize == r[p],
        r[p] < a.nodes@.len(),
{
    assert(a.nodes@.len() == a.nodes.len());
    assert(r[p] < a.nodes@.len());
    r.index_of_first_ensures(r[p]);
    assert(r.contains(r[p]));
    assert(r[r.index_of(r[p])] == r[p]);
}

/// Gives the label dummies of the run `run` of consecutive dummies of a
/// layer their sides; `top` and `bottom` say whether the run starts and
/// ends its layer.
fn smart_run(
    arena: &mut LGraphArena,
    run: &Vec<LNodeId>,
    label_dummy_count: usize,
    top: bool,
    bottom: bool,
    default_side: LabelSide,
    Ghost(r): Ghost<Seq<usize>>,
)
    requires
        r == run@.map_values(|n: LNodeId| n.0),
        run_ok(&*old(arena), r),
        r.len() > 0,
        label_dummy_count == label_count(&*old(arena), r),
    ensures
        final(arena).graphs == old(arena).graphs,
        final(arena).ports == old(arena).ports,
        final(arena).edges == old(arena).edges,
        final(arena).labels == old(arena).labels,
        final(arena).nodes@.len() == old(arena).nodes@.len(),
        forall|n: int|
            0 <= n < old(arena).nodes@.len() ==> #[trigger] final(arena).nodes@[n] == run_sided(
                &*old(arena),
                r,
                top,
                bottom,
                default_side,
                n,
            ),
{
    let ghost a0 = *arena;
    let len = run.len();
    let front = run[0];
    let back = run[len - 1];
    proof {
        assert(r[0] == front.0 && r[len - 1] == back.0);
        lemma_index_in_run(&a0, r, 0);
        lemma_index_in_run(&a0, r, len - 1);
        assert(a0.nodes@.len() == a0.nodes.len());
    }
    if top && (!bottom || len > 1) && label_dummy_count == 1 && arena.nodes[front.0].node_type == NodeType::Label {
        proof {
            assert(labels_known(&a0, r[0]));
        }
        apply_label_side(arena, front, LabelSide::Above);
        proof {
            assert forall|n: int| 0 <= n < a0.nodes@.len() implies #[trigger] arena.nodes@[n] == run_sided(
                &a0,
                r,
                top,
                bottom,
                default_side,
                n,
            ) by {
                assert(n as usize as int == n);
            }
        }
    } else if bottom && (!top || len > 1) && label_dummy_count == 1 && arena.nodes[back.0].node_type == NodeType::Label {
        proof {
            assert(labels_known(&a0, r[len - 1]));
        }
        apply_label_side(arena, back, LabelSide::Below);
        proof {
            assert forall|n: int| 0 <= n < a0.nodes@.len() implies #[trigger] arena.nodes@[n] == run_sided(
                &a0,
                r,
                top,
                bottom,
                default_side,
                n,
            ) by {
                assert(n as usize as int == n);
            }
        }
    } else if len == 2 {
        let first = run[0];
        let second = run[1];
        proof {
            lemma_index_in_run(&a0, r, 1);
            assert(r[1] == second.0);
            if is_label(&a0, r[0]) {
                assert(labels_known(&a0, r[0]));
            }
            if is_label(&a0, r[1]) {
                assert(labels_known(&a0, r[1]));
            }
        }
        apply_label_side(arena, first, LabelSide::Above);
        let ghost mid = *arena;
        proof {
            assert(is_label(&mid, second.0) == is_label(&a0, second.0));
            assert(mid.nodes@[second.0 as int] == a0.nodes@[second.0 as int]);
        }
        apply_label_side(arena, second, LabelSide::Below);
        proof {
            assert(inline_label(&mid, second.0) == inline_label(&a0, second.0));
            assert forall|n: int| 0 <= n < a0.nodes@.len() implies #[trigger] arena.nodes@[n] == run_sided(
                &a0,
                r,
                top,
                bottom,
                default_side,
                n,
            ) by {
                assert(n as usize as int == n);
                if r.contains(n as usize) {
                    let p = r.index_of(n as usize);
                    r.index_of_first_ensures(n as usize);
                    assert(r[p] == n as usize);
                }
            }
        }
    } else {
        apply_groups(arena, run, default_side, Ghost(r));
        proof {
            reveal(grouped_upto);
            assert forall|n: int| 0 <= n < a0.nodes@.len() implies #[trigger] arena.nodes@[n] == run_sided(
                &a0,
                r,
                top,
                bottom,
                default_side,
                n,
            ) by {
                assert(arena.nodes@[n] == grouped_upto(&a0, r, default_side, len as int, n));
                if r.contains(n as usize) {
                    r.index_of_first_ensures(n as usize);
                }
            }
        }
    }
}

/// `a` and `b` agree on everything the choice of sides reads.
#[verifier::opaque]
pub open spec fn same_shape(a: &LGraphArena, b: &LGraphArena) -> bool {
    &&& a.nodes@.len() == b.nodes@.len()
    &&& a.ports == b.ports
    &&& a.labels == b.labels
    &&& forall|n: int|
        0 <= n < a.nodes@.len() ==> {
            &&& #[trigger] a.nodes@[n].node_type == b.nodes@[n].node_type
            &&& a.nodes@[n].props.long_edge_source == b.nodes@[n].props.long_edge_source
            &&& a.nodes@[n].props.long_edge_target == b.nodes@[n].props.long_edge_target
            &&& a.nodes@[n].props.represented_labels@ == b.nodes@[n].props.represented_labels@
        }
}

/// Label counts agree between arenas of the same shape.
proof fn lemma_label_count_shape(a: &LGraphArena, b: &LGraphArena, r: Seq<usize>)
    requires
        same_shape(a, b),
    ensures
        label_count(a, r) == label_count(b, r),
    decreases r.len(),
{
    reveal(same_shape);
    if r.len() > 0 {
        lemma_label_count_shape(a, b, r.drop_last());
        if r.last() < a.nodes@.len() {
            assert(a.nodes@[r.last() as int].node_type == b.nodes@[r.last() as int].node_type);
        }
    }
}

/// Arenas of the same shape give a run the same sides.
proof fn lemma_run_sided_shape(
    a: &LGraphArena,
    b: &LGraphArena,
    r: Seq<usize>,
    top: bool,
    bottom: bool,
    default_side: LabelSide,
    n: int,
)
    requires
        same_shape(a, b),
        0 <= n < a.nodes@.len(),
        b.nodes@[n] == a.nodes@[n],
    ensures
        run_sided(b, r, top, bottom, default_side, n) == run_sided(a, r, top, bottom, default_side, n),
{
    reveal(same_shape);
    lemma_label_count_shape(a, b, r);
    assert forall|x: usize| x < a.nodes@.len() implies #[trigger] is_label(a, x) == is_label(b, x) by {
        assert(a.nodes@[x as int].node_type == b.nodes@[x as int].node_type);
    }
    assert forall|x: usize, y: usize| #[trigger] same_edge(*a)(x, y) == same_edge(*b)(x, y) by {
        if x < a.nodes@.len() {
            assert(a.nodes@[x as int].node_type == b.nodes@[x as int].node_type);
        }
        if y < a.nodes@.len() {
            assert(a.nodes@[y as int].node_type == b.nodes@[y as int].node_type);
        }
        assert(a.owners() == b.owners());
    }
    assert(same_edge(*a) == same_edge(*b));
    assert(a.nodes@.len() == a.nodes.len());
    assert(n as usize as int == n);
    assert(a.nodes@[n].props.represented_labels@ == b.nodes@[n].props.represented_labels@);
    assert(inline_label(a, n as usize) == inline_label(b, n as usize));
    if r.len() > 0 {
        assert(is_label(a, r[0]) == is_label(b, r[0])) by {
            if r[0] < a.nodes@.len() {
                assert(a.nodes@[r[0] as int].node_type == b.nodes@[r[0] as int].node_type);
            }
        }
        assert(is_label(a, r[r.len() - 1]) == is_label(b, r[r.len() - 1])) by {
            if r[r.len() - 1] < a.nodes@.len() {
                assert(a.nodes@[r[r.len() - 1] as int].node_type == b.nodes@[r[r.len() - 1] as int].node_type);
            }
        }
    }
}

/// The side label dummies take where no rule places them: above their
/// edge in a vertical layout, below it otherwise.
pub open spec fn default_side_of(a: &LGraphArena, g: int) -> LabelSide {
    match a.graphs@[g].props.direction {
        Direction::Up | Direction::Down => LabelSide::Above,
        _ => LabelSide::Below,
    }
}

/// Node `n` once the sides of graph `g` were chosen: a label dummy takes
/// the side that `chosen_side` gives it in the run of dummies of its
/// layer it lies in.
#[verifier::opaque]
pub open spec fn selected(a: &LGraphArena, g: int, n: int) -> LNode {
    if a.graph_of()[n] == g && a.layer_of()[n] is Some && is_dummy(a, n as usize) {
        let s = a.layer_lists()[g][a.layer_of()[n]->0 as int];
        let i = s.index_of(n as usize);
        let rs = block_start(s, both_dummies(*a), i);
        let re = block_end(s, both_dummies(*a), i);
        run_sided(a, s.subrange(rs, re), rs == 0, re == s.len(), default_side_of(a, g), n)
    } else {
        a.nodes@[n]
    }
}

/// The run of dummies around node `n` in its layer of graph `g`, and
/// whether that run starts and whether it ends the layer.
pub open spec fn run_around(a: &LGraphArena, g: int, n: int) -> (Seq<usize>, bool, bool) {
    let s = a.layer_lists()[g][a.layer_of()[n]->0 as int];
    let i = s.index_of(n as usize);
    let rs = block_start(s, both_dummies(*a), i);
    let re = block_end(s, both_dummies(*a), i);
    (s.subrange(rs, re), rs == 0, re == s.len())
}

/// A rule of its run places label dummy `x` of run `r`: the run holds a
/// single label dummy that starts (or ends) it at the top (or bottom) of
/// the layer, the run has two members, or the dummies of the edge of `x`
/// in the run are two.
pub open spec fn placed_by_run(a: &LGraphArena, r: Seq<usize>, top: bool, bottom: bool, x: usize) -> bool {
    let j = r.index_of(x);
    ||| top && (!bottom || r.len() > 1) && label_count(a, r) == 1 && is_label(a, r[0])
    ||| bottom && (!top || r.len() > 1) && label_count(a, r) == 1 && is_label(a, r[r.len() - 1])
    ||| r.len() == 2
    ||| block_end(r, same_edge(*a), j) - block_start(r, same_edge(*a), j) == 2
}

proof fn lemma_block_around(s: Seq<usize>, same: spec_fn(usize, usize) -> bool, i: int)
    requires
        0 <= i < s.len(),
    ensures
        0 <= block_start(s, same, i) <= i,
        i < block_end(s, same, i) <= s.len(),
    decreases s.len() - i,
{
    lemma_block_start_le(s, same, i);
    if i + 1 < s.len() && same(s[i], s[i + 1]) {
        lemma_block_around(s, same, i + 1);
    }
}

proof fn lemma_block_start_le(s: Seq<usize>, same: spec_fn(usize, usize) -> bool, i: int)
    requires
        0 <= i,
    ensures
        0 <= block_start(s, same, i) <= i,
    decreases i,
{
    if i > 0 && same(s[i - 1], s[i]) {
        lemma_block_start_le(s, same, i - 1);
    }
}

/// A label dummy that no rule of its run places, and whose labels are not
/// inline, takes the side of the layout: above its edge in a vertical
/// layout (direction up or down), below it in a horizontal one.
pub proof fn lemma_unplaced_labels_take_the_layout_side(a: &LGraphArena, g: int, n: int)
    requires
        a.wf(),
        0 <= g < a.graphs@.len(),
        0 <= n < a.nodes@.len(),
        a.graph_of()[n] == g,
        a.layer_of()[n] is Some,
        is_label(a, n as usize),
        !inline_label(a, n as usize),
        !placed_by_run(a, run_around(a, g, n).0, run_around(a, g, n).1, run_around(a, g, n).2, n as usize),
    ensures
        selected(a, g, n).props.label_side == if a.graphs@[g].props.direction is Up || a.graphs@[g].props.direction is Down {
            LabelSide::Above
        } else {
            LabelSide::Below
        },
{
    reveal(selected);
    lemma_listed_index(a, g, n);
    let s = a.layer_lists()[g][a.layer_of()[n]->0 as int];
    let i = s.index_of(n as usize);
    lemma_block_around(s, both_dummies(*a), i);
    let rs = block_start(s, both_dummies(*a), i);
    let re = block_end(s, both_dummies(*a), i);
    let r = s.subrange(rs, re);
    assert(r[i - rs] == n as usize);
    assert(r.contains(n as usize));
}

/// The rules of a run, for a label dummy whose labels are not inline, at
/// position `j` of its run `r` of dummies: a run holding a single label
/// dummy, which starts the run at the top of the layer, puts it above its
/// edge; failing that, one that ends the run at the bottom of the layer
/// puts it below; failing both, in a run of two dummies the upper goes
/// above and the lower below; otherwise, where the dummies of its edge in
/// the run are two, the upper of them goes above and the lower below.
pub proof fn lemma_run_rules_place_labels(a: &LGraphArena, g: int, n: int)
    requires
        a.wf(),
        0 <= g < a.graphs@.len(),
        0 <= n < a.nodes@.len(),
        a.graph_of()[n] == g,
        a.layer_of()[n] is Some,
        is_label(a, n as usize),
        !inline_label(a, n as usize),
    ensures
        ({
            let (r, top, bottom) = run_around(a, g, n);
            let j = r.index_of(n as usize);
            let side = selected(a, g, n).props.label_side;
            let lone_top = top && (!bottom || r.len() > 1) && label_count(a, r) == 1 && is_label(a, r[0]);
            let lone_bottom = bottom && (!top || r.len() > 1) && label_count(a, r) == 1 && is_label(a, r[r.len() - 1]);
            let gs = block_start(r, same_edge(*a), j);
            let ge = block_end(r, same_edge(*a), j);
            &&& lone_top && j == 0 ==> side == LabelSide::Above
            &&& !lone_top && lone_bottom && j == r.len() - 1 ==> side == LabelSide::Below
            &&& !lone_top && !lone_bottom && r.len() == 2 ==> side == if j == 0 {
                LabelSide::Above
            } else {
                LabelSide::Below
            }
            &&& !lone_top && !lone_bottom && r.len() != 2 && ge - gs == 2 ==> side == if j == gs {
                LabelSide::Above
            } else {
                LabelSide::Below
            }
        }),
{
    reveal(selected);
    lemma_listed_index(a, g, n);
    let s = a.layer_lists()[g][a.layer_of()[n]->0 as int];
    let i = s.index_of(n as usize);
    lemma_block_around(s, both_dummies(*a), i);
    let rs = block_start(s, both_dummies(*a), i);
    let re = block_end(s, both_dummies(*a), i);
    let r = s.subrange(rs, re);
    assert(r[i - rs] == n as usize);
    assert(r.contains(n as usize));
}

/// The dummies in the layers of graph `g` refer only to ports and labels
/// that exist.
pub open spec fn sides_selectable(a: &LGraphArena, g: int) -> bool {
    forall|l: int, k: int|
        0 <= l < a.layer_lists()[g].len() && 0 <= k < a.layer_lists()[g][l].len() && is_dummy(
            a,
            #[trigger] a.layer_lists()[g][l][k],
        ) ==> ends_known(a, a.layer_lists()[g][l][k]) && (is_label(a, a.layer_lists()[g][l][k]) ==> labels_known(
            a,
            a.layer_lists()[g][l][k],
        ))
}

/// Node `n` of graph `g` lies in a layer before `li`, or in layer `li`
/// before position `qs`.
#[verifier::opaque]
pub open spec fn handled(a: &LGraphArena, g: int, li: int, qs: int, n: int) -> bool {
    &&& a.graph_of()[n] == g
    &&& a.layer_of()[n] is Some
    &&& (a.layer_of()[n]->0 < li || (a.layer_of()[n]->0 == li && a.layer_lists()[g][li].index_of(n as usize) < qs))
}

/// A node of graph `g` with a layer is listed in that layer, once.
proof fn lemma_listed_index(a: &LGraphArena, g: int, n: int)
    requires
        a.wf(),
        0 <= g < a.graphs@.len(),
        0 <= n < a.nodes@.len(),
        a.graph_of()[n] == g,
        a.layer_of()[n] is Some,
    ensures
        a.layer_of()[n]->0 < a.layer_lists()[g].len(),
        a.layer_lists()[g][a.layer_of()[n]->0 as int].contains(n as usize),
        0 <= a.layer_lists()[g][a.layer_of()[n]->0 as int].index_of(n as usize),
        a.layer_lists()[g][a.layer_of()[n]->0 as int][a.layer_lists()[g][a.layer_of()[n]->0 as int].index_of(n as usize)]
            == n as usize,
        (n as usize) as int == n,
        ((a.layer_of()[n]->0) as int) as usize == a.layer_of()[n]->0,
{
    assert(a.nodes@.len() == a.nodes.len());
    let ends = crate::layout::elk::alg::graph::layer_ends(a.graph_of(), a.layer_of(), g);
    assert(crate::layout::elk::alg::graph::in_sync(ends, a.layer_lists()[g]));
    assert(ends[n] == a.layer_of()[n]);
    assert(ends[n] is Some);
    let s = a.layer_lists()[g][a.layer_of()[n]->0 as int];
    assert(s.contains(n as usize));
    s.index_of_first_ensures(n as usize);
}

/// The node at position `i` of layer `l` of graph `g` lies in that layer
/// of that graph, at that position only.
proof fn lemma_layer_member(a: &LGraphArena, g: int, l: int, i: int)
    requires
        a.wf(),
        0 <= g < a.graphs@.len(),
        0 <= l < a.layer_lists()[g].len(),
        0 <= i < a.layer_lists()[g][l].len(),
    ensures
        a.layer_lists()[g][l][i] < a.nodes@.len(),
        a.graph_of()[a.layer_lists()[g][l][i] as int] == g,
        a.layer_of()[a.layer_lists()[g][l][i] as int] == Some(l as usize),
        a.layer_lists()[g][l].index_of(a.layer_lists()[g][l][i]) == i,
        a.layer_lists()[g][l].no_duplicates(),
        (l as usize) as int == l,
{
    assert(a.graphs@[g].layers@.len() == a.graphs@[g].layers.len());
    let s = a.layer_lists()[g][l];
    let ends = crate::layout::elk::alg::graph::layer_ends(a.graph_of(), a.layer_of(), g);
    assert(crate::layout::elk::alg::graph::in_sync(ends, a.layer_lists()[g]));
    assert(ends[s[i] as int] == Some(l as usize));
    assert(s.no_duplicates());
    s.index_of_first_ensures(s[i]);
    assert(s.contains(s[i]));
    assert(s[s.index_of(s[i])] == s[i]);
}

/// The nodes of layer `li` at positions `qs` up to `e` form a run that
/// can be handled in `cur`.
proof fn lemma_run_in_layer(a0: &LGraphArena, cur: &LGraphArena, g: int, li: int, qs: int, e: int)
    requires
        a0.wf(),
        0 <= g < a0.graphs@.len(),
        sides_selectable(a0, g),
        0 <= li < a0.layer_lists()[g].len(),
        0 <= qs < e <= a0.layer_lists()[g][li].len(),
        forall|k: int| qs <= k < e ==> is_dummy(a0, #[trigger] a0.layer_lists()[g][li][k]),
        same_shape(a0, cur),
    ensures
        run_ok(cur, a0.layer_lists()[g][li].subrange(qs, e)),
        label_count(cur, a0.layer_lists()[g][li].subrange(qs, e)) == label_count(a0, a0.layer_lists()[g][li].subrange(qs, e)),
{
    reveal(same_shape);
    let s = a0.layer_lists()[g][li];
    let r = s.subrange(qs, e);
    lemma_label_count_shape(a0, cur, r);
    assert(s.no_duplicates()) by {
        lemma_layer_member(a0, g, li, qs);
    }
    assert forall|k: int| 0 <= k < r.len() implies #[trigger] r[k] < cur.nodes@.len() && ends_known(cur, r[k]) && (is_label(
        cur,
        r[k],
    ) ==> labels_known(cur, r[k])) by {
        assert(r[k] == s[k + qs]);
        assert(is_dummy(a0, s[k + qs]));
        assert(ends_known(a0, s[k + qs]));
        let x = r[k] as int;
        assert(a0.nodes@[x].node_type == cur.nodes@[x].node_type);
        if is_label(cur, r[k]) {
            assert(labels_known(a0, s[k + qs]));
        }
    }
    assert(r.no_duplicates()) by {
        assert forall|x: int, y: int| 0 <= x < r.len() && 0 <= y < r.len() && x != y implies r[x] != r[y] by {
            assert(r[x] == s[x + qs] && r[y] == s[y + qs]);
        }
    }
}

/// Node `n` of `a` or `n` with a side: the same shape.
pub open spec fn same_node_shape(m: LNode, n: LNode) -> bool {
    &&& m.node_type == n.node_type
    &&& m.props.long_edge_source == n.props.long_edge_source
    &&& m.props.long_edge_target == n.props.long_edge_target
    &&& m.props.represented_labels@ == n.props.represented_labels@
}

/// The premises shared by the steps that finish a run.
pub open spec fn run_frame(a0: &LGraphArena, before: &LGraphArena, after: &LGraphArena, g: int, li: int, qs: int, e: int, default_side: LabelSide) -> bool {
    &&& a0.wf()
    &&& 0 <= g < a0.graphs@.len()
    &&& default_side == default_side_of(a0, g)
    &&& 0 <= li < a0.layer_lists()[g].len()
    &&& 0 <= qs < e <= a0.layer_lists()[g][li].len()
    &&& (forall|k: int| qs <= k < e ==> is_dummy(a0, #[trigger] a0.layer_lists()[g][li][k]))
    &&& (qs == 0 || !is_dummy(a0, a0.layer_lists()[g][li][qs - 1]))
    &&& (e == a0.layer_lists()[g][li].len() || !is_dummy(a0, a0.layer_lists()[g][li][e]))
    &&& same_shape(a0, before)
    &&& before.nodes@.len() == a0.nodes@.len()
    &&& (forall|n: int|
        0 <= n < a0.nodes@.len() ==> #[trigger] before.nodes@[n] == (if handled(a0, g, li, qs, n) {
            selected(a0, g, n)
        } else {
            a0.nodes@[n]
        }))
    &&& after.nodes@.len() == before.nodes@.len()
    &&& after.ports == before.ports
    &&& after.labels == before.labels
    &&& (forall|n: int|
        0 <= n < before.nodes@.len() ==> #[trigger] after.nodes@[n] == run_sided(
            before,
            a0.layer_lists()[g][li].subrange(qs, e),
            qs == 0,
            e == a0.layer_lists()[g][li].len(),
            default_side,
            n,
        ))
}

/// A node of the run that took its sides now has its selected side.
#[verifier::rlimit(40)]
proof fn lemma_run_node_in(
    a0: &LGraphArena,
    before: &LGraphArena,
    after: &LGraphArena,
    g: int,
    li: int,
    qs: int,
    e: int,
    default_side: LabelSide,
    p: int,
)
    requires
        run_frame(a0, before, after, g, li, qs, e, default_side),
        qs <= p < e,
    ensures
        after.nodes@[a0.layer_lists()[g][li][p] as int] == selected(a0, g, a0.layer_lists()[g][li][p] as int),
        handled(a0, g, li, e, a0.layer_lists()[g][li][p] as int),
        !handled(a0, g, li, qs, a0.layer_lists()[g][li][p] as int),
        same_node_shape(a0.nodes@[a0.layer_lists()[g][li][p] as int], after.nodes@[a0.layer_lists()[g][li][p] as int]),
{
    let s = a0.layer_lists()[g][li];
    let r = s.subrange(qs, e);
    let top = qs == 0;
    let bottom = e == s.len();
    let n = s[p] as int;
    assert(a0.nodes@.len() == a0.nodes.len());
    lemma_layer_member(a0, g, li, p);
    assert(n as usize as int == n);
    reveal(handled);
    assert(!handled(a0, g, li, qs, n));
    assert(handled(a0, g, li, e, n));
    assert(before.nodes@[n] == a0.nodes@[n]);
    lemma_run_sided_shape(a0, before, r, top, bottom, default_side, n);
    assert forall|k: int| qs <= k < e - 1 implies #[trigger] both_dummies(*a0)(s[k], s[k + 1]) by {
        assert(is_dummy(a0, s[k]));
        assert(is_dummy(a0, s[k + 1]));
    }
    lemma_block(s, both_dummies(*a0), qs, e, p);
    reveal(selected);
    assert(selected(a0, g, n) == run_sided(a0, r, top, bottom, default_side_of(a0, g), n));
    assert(after.nodes@[n] == run_sided(a0, r, top, bottom, default_side, n));
    if is_label(a0, n as usize) && r.contains(n as usize) {
        match chosen_side(a0, r, top, bottom, default_side, r.index_of(n as usize)) {
            Some(sd) => {},
            None => {},
        }
    }
}

/// A node outside the run that took its sides is as it was.
#[verifier::rlimit(40)]
proof fn lemma_run_node_out(
    a0: &LGraphArena,
    before: &LGraphArena,
    after: &LGraphArena,
    g: int,
    li: int,
    qs: int,
    e: int,
    default_side: LabelSide,
    n: int,
)
    requires
        run_frame(a0, before, after, g, li, qs, e, default_side),
        0 <= n < a0.nodes@.len(),
        !a0.layer_lists()[g][li].subrange(qs, e).contains(n as usize),
    ensures
        after.nodes@[n] == (if handled(a0, g, li, e, n) {
            selected(a0, g, n)
        } else {
            a0.nodes@[n]
        }),
        same_node_shape(a0.nodes@[n], after.nodes@[n]),
{
    let s = a0.layer_lists()[g][li];
    let r = s.subrange(qs, e);
    assert(a0.nodes@.len() == a0.nodes.len());
    assert(n as usize as int == n);
    assert(after.nodes@[n] == before.nodes@[n]);
    reveal(handled);
    if a0.graph_of()[n] == g && a0.layer_of()[n] is Some && a0.layer_of()[n]->0 == li {
        lemma_listed_index(a0, g, n);
        let p = s.index_of(n as usize);
        assert(s[p] == n as usize);
        if qs <= p < e {
            assert(r[p - qs] == s[p]);
            assert(r.contains(n as usize));
        }
    }
    assert(handled(a0, g, li, e, n) == handled(a0, g, li, qs, n));
    if handled(a0, g, li, qs, n) {
        lemma_selected_shape(a0, g, n);
    }
}

/// The selected node has the shape of the original.
proof fn lemma_selected_shape(a0: &LGraphArena, g: int, n: int)
    ensures
        same_node_shape(a0.nodes@[n], selected(a0, g, n)),
{
    reveal(selected);
    if a0.graph_of()[n] == g && a0.layer_of()[n] is Some && is_dummy(a0, n as usize) {
        let sl = a0.layer_lists()[g][a0.layer_of()[n]->0 as int];
        let i = sl.index_of(n as usize);
        let rs = block_start(sl, both_dummies(*a0), i);
        let re = block_end(sl, both_dummies(*a0), i);
        let rr = sl.subrange(rs, re);
        if is_label(a0, n as usize) && rr.contains(n as usize) {
            match chosen_side(a0, rr, rs == 0, re == sl.len(), default_side_of(a0, g), rr.index_of(n as usize)) {
                Some(sd) => {},
                None => {},
            }
        }
    }
}

/// After the run at positions `qs` up to `e` of layer `li` took its
/// sides, every node of the layer before `e` is handled.
proof fn lemma_run_done(
    a0: &LGraphArena,
    before: &LGraphArena,
    after: &LGraphArena,
    g: int,
    li: int,
    qs: int,
    e: int,
    default_side: LabelSide,
)
    requires
        run_frame(a0, before, after, g, li, qs, e, default_side),
    ensures
        same_shape(a0, after),
        forall|n: int|
            0 <= n < a0.nodes@.len() ==> #[trigger] after.nodes@[n] == (if handled(a0, g, li, e, n) {
                selected(a0, g, n)
            } else {
                a0.nodes@[n]
            }),
{
    reveal(same_shape);
    let s = a0.layer_lists()[g][li];
    let r = s.subrange(qs, e);
    assert forall|n: int| 0 <= n < a0.nodes@.len() implies #[trigger] after.nodes@[n] == (if handled(a0, g, li, e, n) {
        selected(a0, g, n)
    } else {
        a0.nodes@[n]
    }) && same_node_shape(a0.nodes@[n], after.nodes@[n]) by {
        if r.contains(n as usize) {
            let j = choose|j: int| 0 <= j < r.len() && r[j] == n as usize;
            assert(a0.nodes@.len() == a0.nodes.len());
            assert(n as usize as int == n);
            assert(s[j + qs] == n as usize);
            lemma_run_node_in(a0, before, after, g, li, qs, e, default_side, j + qs);
        } else {
            lemma_run_node_out(a0, before, after, g, li, qs, e, default_side, n);
        }
    }
}

/// Skipping a node that is no dummy leaves it as it was, and handled.
proof fn lemma_skip_plain(a0: &LGraphArena, cur: &LGraphArena, g: int, li: int, i: int)
    requires
        a0.wf(),
        0 <= g < a0.graphs@.len(),
        0 <= li < a0.layer_lists()[g].len(),
        0 <= i < a0.layer_lists()[g][li].len(),
        !is_dummy(a0, a0.layer_lists()[g][li][i]),
        cur.nodes@.len() == a0.nodes@.len(),
        forall|n: int|
            0 <= n < a0.nodes@.len() ==> #[trigger] cur.nodes@[n] == (if handled(a0, g, li, i, n) {
                selected(a0, g, n)
            } else {
                a0.nodes@[n]
            }),
    ensures
        forall|n: int|
            0 <= n < a0.nodes@.len() ==> #[trigger] cur.nodes@[n] == (if handled(a0, g, li, i + 1, n) {
                selected(a0, g, n)
            } else {
                a0.nodes@[n]
            }),
{
    let s = a0.layer_lists()[g][li];
    lemma_layer_member(a0, g, li, i);
    reveal(handled);
    reveal(selected);
    assert forall|n: int| 0 <= n < a0.nodes@.len() implies #[trigger] cur.nodes@[n] == (if handled(a0, g, li, i + 1, n) {
        selected(a0, g, n)
    } else {
        a0.nodes@[n]
    }) by {
        if n == s[i] as int {
            assert(selected(a0, g, n) == a0.nodes@[n]);
        }
    }
}

/// Once every position of layer `li` is handled, so is the layer.
proof fn lemma_layer_done(a0: &LGraphArena, cur: &LGraphArena, g: int, li: int)
    requires
        a0.wf(),
        0 <= g < a0.graphs@.len(),
        0 <= li < a0.layer_lists()[g].len(),
        cur.nodes@.len() == a0.nodes@.len(),
        forall|n: int|
            0 <= n < a0.nodes@.len() ==> #[trigger] cur.nodes@[n] == (if handled(a0, g, li, a0.layer_lists()[g][li].len() as int, n) {
                selected(a0, g, n)
            } else {
                a0.nodes@[n]
            }),
    ensures
        forall|n: int|
            0 <= n < a0.nodes@.len() ==> #[trigger] cur.nodes@[n] == (if handled(a0, g, li + 1, 0, n) {
                selected(a0, g, n)
            } else {
                a0.nodes@[n]
            }),
{
    reveal(handled);
    assert forall|n: int| 0 <= n < a0.nodes@.len() implies #[trigger] cur.nodes@[n] == (if handled(a0, g, li + 1, 0, n) {
        selected(a0, g, n)
    } else {
        a0.nodes@[n]
    }) by {
        if a0.graph_of()[n] == g && a0.layer_of()[n] is Some {
            lemma_listed_index(a0, g, n);
            let sl = a0.layer_lists()[g][a0.layer_of()[n]->0 as int];
            sl.index_of_first_ensures(n as usize);
        }
    }
}

/// A run of layer `s` from `qs` grows by the node at `i`.
proof fn lemma_run_grows(a0: &LGraphArena, s: Seq<usize>, qs: int, i: int)
    requires
        0 <= qs <= i < s.len(),
    ensures
        s.subrange(qs, i + 1) == s.subrange(qs, i).push(s[i]),
        label_count(a0, s.subrange(qs, i + 1)) == label_count(a0, s.subrange(qs, i)) + if is_label(a0, s[i]) {
            1nat
        } else {
            0nat
        },
        label_count(a0, s.subrange(qs, i)) <= i - qs,
{
    assert(s.subrange(qs, i + 1) =~= s.subrange(qs, i).push(s[i]));
    assert(s.subrange(qs, i + 1).drop_last() =~= s.subrange(qs, i));
    lemma_label_count_le(a0, s.subrange(qs, i));
}

/// A run has no more label dummies than members.
proof fn lemma_label_count_le(a: &LGraphArena, r: Seq<usize>)
    ensures
        label_count(a, r) <= r.len(),
    decreases r.len(),
{
    if r.len() > 0 {
        lemma_label_count_le(a, r.drop_last());
    }
}

/// Chooses the side of its edge for the labels of each label dummy of
/// `graph`, layer by layer (see the module documentation).
#[verifier::rlimit(100)]
pub fn label_side_selector(arena: &mut LGraphArena, graph: LGraphId)
    requires
        old(arena).wf(),
        graph.0 < old(arena).graphs@.len(),
        sides_selectable(&*old(arena), graph.0 as int),
    ensures
        final(arena).graphs == old(arena).graphs,
        final(arena).ports == old(arena).ports,
        final(arena).edges == old(arena).edges,
        final(arena).labels == old(arena).labels,
        final(arena).nodes@.len() == old(arena).nodes@.len(),
        forall|n: int|
            0 <= n < old(arena).nodes@.len() ==> #[trigger] final(arena).nodes@[n] == selected(&*old(arena), graph.0 as int, n),
{
    let ghost a0 = *arena;
    let ghost g = graph.0 as int;
    let vertical = match arena.graphs[graph.0].props.direction {
        Direction::Up | Direction::Down => true,
        _ => false,
    };
    let default_side = if vertical {
        LabelSide::Above
    } else {
        LabelSide::Below
    };
    let n_layers = arena.graphs[graph.0].layers.len();
    let mut li: usize = 0;
    proof {
        reveal(same_shape);
        assert(same_shape(&a0, &a0));
        reveal(handled);
        assert forall|n: int| 0 <= n < a0.nodes@.len() implies #[trigger] arena.nodes@[n] == (if handled(&a0, g, 0, 0, n) {
            selected(&a0, g, n)
        } else {
            a0.nodes@[n]
        }) by {
            if a0.graph_of()[n] == g && a0.layer_of()[n] is Some && a0.layer_of()[n]->0 == 0 {
                lemma_listed_index(&a0, g, n);
            }
        }
    }
    while li < n_layers
        invariant
            a0.wf(),
            g == graph.0,
            g < a0.graphs@.len(),
            sides_selectable(&a0, g),
            default_side == default_side_of(&a0, g),
            n_layers == a0.layer_lists()[g].len(),
            li <= n_layers,
            same_shape(&a0, &*arena),
            arena.graphs == a0.graphs,
            arena.ports == a0.ports,
            arena.edges == a0.edges,
            arena.labels == a0.labels,
            arena.nodes@.len() == a0.nodes@.len(),
            forall|n: int|
                0 <= n < a0.nodes@.len() ==> #[trigger] arena.nodes@[n] == (if handled(&a0, g, li as int, 0, n) {
                    selected(&a0, g, n)
                } else {
                    a0.nodes@[n]
                }),
        decreases n_layers - li,
    {
        let ghost s = a0.layer_lists()[g][li as int];
        let len = arena.graphs[graph.0].layers[li].nodes.len();
        let mut top = true;
        let mut count: usize = 0;
        let mut run: Vec<LNodeId> = Vec::new();
        let ghost mut qs: int = 0;
        let mut i: usize = 0;
        proof {
            assert(len == s.len());
            assert(s.subrange(0, 0) =~= Seq::<usize>::empty());
        }
        while i < len
            invariant
                a0.wf(),
                g == graph.0,
                g < a0.graphs@.len(),
                sides_selectable(&a0, g),
                default_side == default_side_of(&a0, g),
                n_layers == a0.layer_lists()[g].len(),
                li < n_layers,
                s == a0.layer_lists()[g][li as int],
                len == s.len(),
                0 <= qs <= i <= len,
                run@.map_values(|n: LNodeId| n.0) == s.subrange(qs, i as int),
                forall|k: int| qs <= k < i ==> is_dummy(&a0, #[trigger] s[k]),
                qs == 0 || !is_dummy(&a0, s[qs - 1]),
                top == (qs == 0),
                count == label_count(&a0, s.subrange(qs, i as int)),
                same_shape(&a0, &*arena),
                arena.graphs == a0.graphs,
                arena.ports == a0.ports,
                arena.edges == a0.edges,
                arena.labels == a0.labels,
                arena.nodes@.len() == a0.nodes@.len(),
                forall|n: int|
                    0 <= n < a0.nodes@.len() ==> #[trigger] arena.nodes@[n] == (if handled(&a0, g, li as int, qs, n) {
                        selected(&a0, g, n)
                    } else {
                        a0.nodes@[n]
                    }),
            decreases len - i,
        {
            let node = arena.graphs[graph.0].layers[li].nodes[i];
            proof {
                assert(node.0 == s[i as int]);
                lemma_layer_member(&a0, g, li as int, i as int);
                lemma_run_grows(&a0, s, qs, i as int);
                assert(arena.nodes@[node.0 as int].node_type == a0.nodes@[node.0 as int].node_type) by {
                    reveal(same_shape);
                }
            }
            if arena.nodes[node.0].node_type == NodeType::Label {
                count += 1;
                run.push(node);
            } else if arena.nodes[node.0].node_type == NodeType::LongEdge {
                run.push(node);
            } else {
                proof {
                    assert(!is_dummy(&a0, s[i as int]));
                }
                if run.len() > 0 {
                    let ghost before = *arena;
                    proof {
                        lemma_run_in_layer(&a0, &before, g, li as int, qs, i as int);
                    }
                    smart_run(arena, &run, count, top, false, default_side, Ghost(s.subrange(qs, i as int)));
                    proof {
                        lemma_run_done(&a0, &before, &*arena, g, li as int, qs, i as int, default_side);
                        qs = i as int;
                    }
                } else {
                    proof {
                        assert(s.subrange(qs, i as int).len() == 0);
                    }
                }
                run = Vec::new();
                top = false;
                count = 0;
                proof {
                    lemma_skip_plain(&a0, &*arena, g, li as int, i as int);
                    qs = i + 1;
                    assert(s.subrange(qs, qs) =~= Seq::<usize>::empty());
                }
            }
            i += 1;
        }
        if run.len() > 0 {
            let ghost before = *arena;
            proof {
                lemma_run_in_layer(&a0, &before, g, li as int, qs, len as int);
            }
            smart_run(arena, &run, count, top, true, default_side, Ghost(s.subrange(qs, len as int)));
            proof {
                lemma_run_done(&a0, &before, &*arena, g, li as int, qs, len as int, default_side);
            }
        } else {
            proof {
                assert(qs == len);
            }
        }
        proof {
            lemma_layer_done(&a0, &*arena, g, li as int);
        }
        li += 1;
    }
    proof {
        reveal(handled);
        reveal(selected);
        assert forall|n: int| 0 <= n < a0.nodes@.len() implies #[trigger] arena.nodes@[n] == selected(&a0, g, n) by {
            if a0.graph_of()[n] == g && a0.layer_of()[n] is Some {
                lemma_listed_index(&a0, g, n);
            }
        }
    }
}

} // verus!
