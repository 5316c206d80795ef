//! Node identity and the measuring probes of tree diagrams.
//!
//! A node is identified by its pre-order index over the IR tree (root 0,
//! then each child subtree in source order). Probe IDs are
//! `tn-<diagram>-<node>`; the per-diagram `te-<diagram>` probe reports the
//! resolved size of `1em`.

use vstd::prelude::*;
use crate::codegen::tree_emit::{emit_node_call, node_call};
use crate::ir::tree::TreeNode;
use crate::text::{decimal, push_decimal};

verus! {

/// The nodes of the tree under `n`, in pre-order.
pub open spec fn preorder(n: TreeNode) -> Seq<TreeNode>
    decreases n,
{
    seq![n] + preorder_all(n.children@)
}

/// The pre-order nodes of each tree of `s`, one tree after the other.
pub open spec fn preorder_all(s: Seq<TreeNode>) -> Seq<TreeNode>
    decreases s,
{
    if s.len() == 0 {
        Seq::empty()
    } else {
        preorder_all(s.drop_last()) + preorder(s.last())
    }
}

/// The nodes a sequence of references points to.
pub open spec fn derefs(v: Seq<&TreeNode>) -> Seq<TreeNode> {
    v.map_values(|r: &TreeNode| *r)
}

/// Probe ID of node `node_idx` of diagram `diagram_idx`.
pub open spec fn node_id_text(diagram_idx: usize, node_idx: usize) -> Seq<char> {
    "tn-"@ + decimal(diagram_idx as nat) + "-"@ + decimal(node_idx as nat)
}

/// Probe ID of the `1em` probe of diagram `diagram_idx`.
pub open spec fn em_id_text(diagram_idx: usize) -> Seq<char> {
    "te-"@ + decimal(diagram_idx as nat)
}

/// Stable per-node probe ID for the measure protocol.
pub fn tree_node_id(diagram_idx: usize, node_idx: usize) -> (r: String)
    ensures
        r@ == node_id_text(diagram_idx, node_idx),
{
    let mut out = String::new();
    out.append("tn-");
    push_decimal(&mut out, diagram_idx);
    out.append("-");
    push_decimal(&mut out, node_idx);
    proof {
        assert(Seq::<char>::empty() + "tn-"@ =~= "tn-"@);
    }
    out
}

/// Per-diagram probe ID reporting the resolved `1em`.
pub fn tree_em_id(diagram_idx: usize) -> (r: String)
    ensures
        r@ == em_id_text(diagram_idx),
{
    let mut out = String::new();
    out.append("te-");
    push_decimal(&mut out, diagram_idx);
    proof {
        assert(Seq::<char>::empty() + "te-"@ =~= "te-"@);
    }
    out
}

fn walk<'a>(n: &'a TreeNode, flat: &mut Vec<&'a TreeNode>)
    ensures
        derefs(final(flat)@) == derefs(old(flat)@) + preorder(*n),
    decreases n,
{
    let ghost start = derefs(flat@);
    flat.push(n);
    proof {
        assert(derefs(flat@) =~= start + seq![*n]);
        assert(n.children@.subrange(0, 0) =~= Seq::<TreeNode>::empty());
        assert(start + seq![*n] + Seq::<TreeNode>::empty() =~= start + seq![*n]);
    }
    let mut i: usize = 0;
    while i < n.children.len()
        invariant
            i <= n.children@.len(),
            derefs(flat@) == start + seq![*n] + preorder_all(n.children@.subrange(0, i as int)),
        decreases n.children@.len() - i,
    {
        let c = &n.children[i];
        proof {
            assert(decreases_to!(*n => n.children));
            assert(decreases_to!(n.children => n.children@));
            assert(decreases_to!(n.children@ => n.children@[i as int]));
        }
        walk(c, flat);
        proof {
            let t = n.children@.subrange(0, i + 1);
            assert(t.drop_last() =~= n.children@.subrange(0, i as int));
            assert(t.last() == *c);
        }
        i += 1;
        proof {
            assert(derefs(flat@) =~= start + seq![*n] + preorder_all(n.children@.subrange(0, i as int)));
        }
    }
    proof {
        assert(n.children@.subrange(0, n.children@.len() as int) =~= n.children@);
        assert(start + seq![*n] + preorder_all(n.children@) =~= start + preorder(*n));
    }
}

/// Pre-order flattening: the ID to node contract shared by probes,
/// layout input and emission.
pub fn flatten(root: &TreeNode) -> (r: Vec<&TreeNode>)
    ensures
        derefs(r@) == preorder(*root),
{
    let mut flat: Vec<&TreeNode> = Vec::new();
    proof {
        assert(derefs(flat@) =~= Seq::<TreeNode>::empty());
    }
    walk(root, &mut flat);
    proof {
        assert(Seq::<TreeNode>::empty() + preorder(*root) =~= preorder(*root));
    }
    flat
}

/// The probe line of each node of `nodes`, numbered from 0.
pub open spec fn probe_lines(nodes: Seq<TreeNode>, diagram_idx: usize) -> Seq<char>
    decreases nodes.len(),
{
    if nodes.len() == 0 {
        Seq::empty()
    } else {
        probe_lines(nodes.drop_last(), diagram_idx) + "#tree-probe(id: \""@ + node_id_text(
            diagram_idx,
            (nodes.len() - 1) as usize,
        ) + "\", "@ + node_call(nodes.last()) + ")\n"@
    }
}

/// The `1em` probe line of a diagram.
pub open spec fn em_probe_line(diagram_idx: usize) -> Seq<char> {
    "#tree-em-probe(id: \""@ + em_id_text(diagram_idx) + "\")\n"@
}

/// Emit the measuring probes for every node of `root`'s tree, after the
/// `1em` probe, and record their IDs in the same order.
pub fn collect_probes(root: &TreeNode, diagram_idx: usize, out: &mut String, expected_ids: &mut Vec<String>)
    requires
        preorder(*root).len() <= usize::MAX,
    ensures
        final(out)@ == old(out)@ + em_probe_line(diagram_idx) + probe_lines(preorder(*root), diagram_idx),
        final(expected_ids)@.len() == old(expected_ids)@.len() + 1 + preorder(*root).len(),
        forall|k: int| 0 <= k < old(expected_ids)@.len() ==> #[trigger] final(expected_ids)@[k] == old(expected_ids)@[k],
        final(expected_ids)@[old(expected_ids)@.len() as int]@ == em_id_text(diagram_idx),
        forall|k: int|
            0 <= k < preorder(*root).len() ==> #[trigger] final(expected_ids)@[old(expected_ids)@.len() + 1 + k]@
                == node_id_text(diagram_idx, k as usize),
{
    let ghost out0 = out@;
    let ghost ids0 = expected_ids@;
    let em_id = tree_em_id(diagram_idx);
    out.append("#tree-em-probe(id: \"");
    out.append(em_id.as_str());
    out.append("\")\n");
    expected_ids.push(em_id);
    let ghost out1 = out@;
    proof {
        assert(out1 =~= out0 + em_probe_line(diagram_idx));
    }
    let flat = flatten(root);
    let ghost pre = preorder(*root);
    let mut i: usize = 0;
    proof {
        assert(pre.subrange(0, 0) =~= Seq::<TreeNode>::empty());
        assert(out1 + Seq::<char>::empty() =~= out1);
    }
    while i < flat.len()
        invariant
            derefs(flat@) == pre,
            i <= flat@.len(),
            out@ == out1 + probe_lines(pre.subrange(0, i as int), diagram_idx),
            expected_ids@.len() == ids0.len() + 1 + i,
            forall|k: int| 0 <= k < ids0.len() ==> #[trigger] expected_ids@[k] == ids0[k],
            expected_ids@[ids0.len() as int]@ == em_id_text(diagram_idx),
            forall|k: int| 0 <= k < i ==> #[trigger] expected_ids@[ids0.len() + 1 + k]@ == node_id_text(diagram_idx, k as usize),
        decreases flat@.len() - i,
    {
        let id = tree_node_id(diagram_idx, i);
        out.append("#tree-probe(id: \"");
        out.append(id.as_str());
        out.append("\", ");
        emit_node_call(out, flat[i]);
        out.append(")\n");
        expected_ids.push(id);
        proof {
            let t = pre.subrange(0, i + 1);
            assert(t.drop_last() =~= pre.subrange(0, i as int));
            assert(t.last() == pre[i as int]);
            assert(*flat@[i as int] == pre[i as int]);
        }
        i += 1;
        proof {
            assert(out@ =~= out1 + probe_lines(pre.subrange(0, i as int), diagram_idx));
        }
    }
    proof {
        assert(pre.subrange(0, pre.len() as int) =~= pre);
        assert(out@ =~= out0 + em_probe_line(diagram_idx) + probe_lines(pre, diagram_idx));
    }
}

} // verus!
