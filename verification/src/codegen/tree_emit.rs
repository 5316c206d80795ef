//! Per-node Typst emission shared by WBS and mind-map codegen: the
//! `node[…]` / `node(fill: …)[…]` / `node(shape: "underline")[…]` /
//! `node(shape: "plain")[…]` calls used
//! as probe bodies and layout node bodies, the title block, and the
//! translation of color specs.
//!
//! Color specs are lowered only when they are hexadecimal (`#RGB` or
//! `#RRGGBB`); any other form degrades to the painter's default fill so
//! nothing Typst would reject is emitted. Text is escaped for Typst
//! markup by a backslash before every character that starts markup
//! anywhere in a line.

use vstd::prelude::*;
use crate::ir::tree::{NodeShape, TreeNode};
use crate::text::push_char;

verus! {

/// Characters that start Typst markup anywhere in a line.
pub open spec fn is_markup_char(c: char) -> bool {
    c == '\\' || c == '#' || c == '*' || c == '_' || c == '`' || c == '$' || c == '<' || c == '>'
        || c == '@' || c == '[' || c == ']'
}

/// `s` with a backslash before every markup character.
pub open spec fn escaped(s: Seq<char>) -> Seq<char>
    decreases s.len(),
{
    if s.len() == 0 {
        Seq::empty()
    } else if is_markup_char(s.last()) {
        escaped(s.drop_last()).push('\\').push(s.last())
    } else {
        escaped(s.drop_last()).push(s.last())
    }
}

fn is_markup_char_exec(c: char) -> (r: bool)
    ensures
        r == is_markup_char(c),
{
    c == '\\' || c == '#' || c == '*' || c == '_' || c == '`' || c == '$' || c == '<' || c == '>' || c
        == '@' || c == '[' || c == ']'
}

/// Appends `s` escaped for Typst markup.
pub fn push_escaped(out: &mut String, s: &str)
    ensures
        final(out)@ == old(out)@ + escaped(s@),
{
    let n = s.unicode_len();
    let mut i: usize = 0;
    let ghost start = out@;
    proof {
        assert(s@.subrange(0, 0) =~= Seq::<char>::empty());
        assert(start + Seq::<char>::empty() =~= start);
    }
    while i < n
        invariant
            n == s@.len(),
            i <= n,
            out@ == start + escaped(s@.subrange(0, i as int)),
        decreases n - i,
    {
        let c = s.get_char(i);
        if is_markup_char_exec(c) {
            push_char(out, '\\');
        }
        push_char(out, c);
        proof {
            let t = s@.subrange(0, i + 1);
            assert(t.drop_last() =~= s@.subrange(0, i as int));
            assert(t.last() == c);
        }
        i += 1;
        proof {
            assert(out@ =~= start + escaped(s@.subrange(0, i as int)));
        }
    }
    proof {
        assert(s@.subrange(0, n as int) =~= s@);
    }
}

/// A hexadecimal digit.
pub open spec fn is_hex_digit(c: char) -> bool {
    ('0' <= c <= '9') || ('a' <= c <= 'f') || ('A' <= c <= 'F')
}

/// `#RGB` or `#RRGGBB`.
pub open spec fn is_hex_color(s: Seq<char>) -> bool {
    &&& (s.len() == 4 || s.len() == 7)
    &&& s[0] == '#'
    &&& forall|i: int| 1 <= i < s.len() ==> is_hex_digit(#[trigger] s[i])
}

/// The Typst color expression for a color spec, when it can be lowered.
pub open spec fn color_text(spec: Seq<char>) -> Option<Seq<char>> {
    if is_hex_color(spec) {
        Some("rgb(\""@ + spec + "\")"@)
    } else {
        None
    }
}

/// Translate a color spec to a Typst color expression; `None` for forms
/// that can't be lowered, so the caller falls back to the painter's
/// default fill.
pub fn typst_color(spec: &str) -> (r: Option<String>)
    ensures
        r matches Some(t) ==> color_text(spec@) == Some(t@),
        r is None ==> color_text(spec@) is None,
{
    let n = spec.unicode_len();
    if n != 4 && n != 7 {
        return None;
    }
    if spec.get_char(0) != '#' {
        return None;
    }
    let mut i: usize = 1;
    while i < n
        invariant
            n == spec@.len(),
            1 <= i <= n,
            forall|k: int| 1 <= k < i ==> is_hex_digit(#[trigger] spec@[k]),
        decreases n - i,
    {
        let c = spec.get_char(i);
        if !(('0' <= c && c <= '9') || ('a' <= c && c <= 'f') || ('A' <= c && c <= 'F')) {
            return None;
        }
        i += 1;
    }
    let mut out = String::new();
    out.append("rgb(\"");
    out.append(spec);
    out.append("\")");
    proof {
        assert(Seq::<char>::empty() + "rgb(\""@ =~= "rgb(\""@);
    }
    Some(out)
}

/// The node is drawn without a box.
pub open spec fn is_boxless(n: TreeNode) -> bool {
    n.shape == NodeShape::Line || n.shape == NodeShape::Phantom
}

/// The fill argument of a node call: boxless nodes ignore their color.
pub open spec fn fill_arg(n: TreeNode) -> Option<Seq<char>> {
    if is_boxless(n) {
        None
    } else {
        match n.fill {
            Some(f) => color_text(f@),
            None => None,
        }
    }
}

/// The callee and arguments of a node call.
pub open spec fn node_head(n: TreeNode) -> Seq<char> {
    if n.shape == NodeShape::Line {
        "node(shape: \"underline\")"@
    } else if is_boxless(n) {
        "node(shape: \"plain\")"@
    } else {
        match fill_arg(n) {
            Some(f) => "node(fill: "@ + f + ")"@,
            None => "node"@,
        }
    }
}

/// The lines of a node's body: its label, else its non-empty id, else a
/// single space.
pub open spec fn body_lines(n: TreeNode) -> Seq<Seq<char>> {
    if n.label@.len() == 0 {
        match n.id {
            Some(id) => if id@.len() > 0 {
                seq![id@]
            } else {
                seq![" "@]
            },
            None => seq![" "@],
        }
    } else {
        n.label@.map_values(|l: String| l@)
    }
}

/// Escaped lines joined by Typst's hard line break (`\` and a newline).
pub open spec fn joined_lines(lines: Seq<Seq<char>>) -> Seq<char>
    decreases lines.len(),
{
    if lines.len() == 0 {
        Seq::empty()
    } else if lines.len() == 1 {
        escaped(lines[0])
    } else {
        joined_lines(lines.drop_last()) + " \\\n"@ + escaped(lines.last())
    }
}

/// The full node call: head, then the body in square brackets.
pub open spec fn node_call(n: TreeNode) -> Seq<char> {
    node_head(n) + "["@ + joined_lines(body_lines(n)) + "]"@
}

/// Emit `node[…]`, `node(fill: …)[…]`, `node(shape: "underline")[…]` (a
/// line node) or `node(shape: "plain")[…]` (a phantom) for a single node.
pub fn emit_node_call(out: &mut String, node: &TreeNode)
    ensures
        final(out)@ == old(out)@ + node_call(*node),
{
    let ghost start = out@;
    let boxless = matches!(node.shape, NodeShape::Line | NodeShape::Phantom);
    let fill = if boxless {
        None
    } else {
        match &node.fill {
            Some(f) => typst_color(f.as_str()),
            None => None,
        }
    };
    match fill {
        Some(f) => {
            out.append("node(fill: ");
            out.append(f.as_str());
            out.append(")");
        },
        None => {
            if matches!(node.shape, NodeShape::Line) {
                out.append("node(shape: \"underline\")");
            } else if boxless {
                out.append("node(shape: \"plain\")");
            } else {
                out.append("node");
            }
        },
    }
    proof {
        assert(out@ =~= start + node_head(*node));
    }
    out.append("[");
    emit_label_body(out, node);
    out.append("]");
    proof {
        assert(out@ =~= start + node_call(*node));
    }
}

fn emit_label_body(out: &mut String, node: &TreeNode)
    ensures
        final(out)@ == old(out)@ + joined_lines(body_lines(*node)),
{
    let ghost start = out@;
    if node.label.len() == 0 {
        match &node.id {
            Some(id) => {
                if !id.as_str().is_empty() {
                    push_escaped(out, id.as_str());
                } else {
                    push_escaped(out, " ");
                }
            },
            None => push_escaped(out, " "),
        }
        proof {
            assert(joined_lines(body_lines(*node)) == escaped(body_lines(*node)[0]));
        }
        return;
    }
    let ghost lines = body_lines(*node);
    let mut i: usize = 0;
    while i < node.label.len()
        invariant
            0 < node.label@.len(),
            lines == node.label@.map_values(|l: String| l@),
            i <= node.label@.len(),
            out@ == start + joined_lines(lines.subrange(0, i as int)),
        decreases node.label@.len() - i,
    {
        let ghost before = out@;
        if i > 0 {
            out.append(" \\\n");
        }
        push_escaped(out, node.label[i].as_str());
        proof {
            let t = lines.subrange(0, i + 1);
            assert(t.drop_last() =~= lines.subrange(0, i as int));
            assert(t.last() == node.label@[i as int]@);
            if i == 0 {
                assert(lines.subrange(0, 0) =~= Seq::<Seq<char>>::empty());
                assert(start + Seq::<char>::empty() =~= start);
            }
        }
        i += 1;
        proof {
            assert(out@ =~= start + joined_lines(lines.subrange(0, i as int)));
        }
    }
    proof {
        assert(lines.subrange(0, node.label@.len() as int) =~= lines);
    }
}

/// The title block: `#align(center)[*title*]` and a blank line.
pub open spec fn title_block(title: Seq<char>) -> Seq<char> {
    "#align(center)[*"@ + escaped(title) + "*]\n\n"@
}

/// Emit a `#align(center)[*<title>*]` block followed by a blank line.
pub fn emit_title(out: &mut String, title: &str)
    ensures
        final(out)@ == old(out)@ + title_block(title@),
{
    let ghost start = out@;
    out.append("#align(center)[*");
    push_escaped(out, title);
    out.append("*]\n\n");
    proof {
        assert(out@ =~= start + title_block(title@));
    }
}

} // verus!
