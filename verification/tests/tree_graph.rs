use typstuml::codegen::tree_emit::{emit_node_call, emit_title, typst_color};
use typstuml::codegen::tree_graph::{collect_probes, flatten, tree_em_id, tree_node_id};
use typstuml::ir::tree::{NodeShape, NodeSide, TreeNode};

fn n(label: &str, children: Vec<TreeNode>) -> TreeNode {
    TreeNode {
        label: vec![label.to_string()],
        side: NodeSide::Default,
        shape: NodeShape::Box,
        fill: None,
        id: None,
        line: 0,
        children,
    }
}

#[test]
fn flatten_is_preorder() {
    let root = n("R", vec![n("A", vec![n("A1", vec![])]), n("B", vec![])]);
    let flat = flatten(&root);
    let labels: Vec<&str> = flat.iter().map(|t| t.label[0].as_str()).collect();
    assert_eq!(labels, vec!["R", "A", "A1", "B"]);
}

#[test]
fn probes_cover_every_node_plus_em() {
    let root = n("R", vec![n("A", vec![]), n("B", vec![])]);
    let mut out = String::new();
    let mut ids = Vec::new();
    collect_probes(&root, 2, &mut out, &mut ids);
    assert_eq!(ids, vec!["te-2", "tn-2-0", "tn-2-1", "tn-2-2"]);
    assert!(out.contains("#tree-em-probe(id: \"te-2\")"));
    assert!(out.contains("#tree-probe(id: \"tn-2-1\", node[A])"));
}

#[test]
fn probe_output_is_exact() {
    let root = n("R", vec![n("A", vec![])]);
    let mut out = String::from("x");
    let mut ids = vec!["old".to_string()];
    collect_probes(&root, 10, &mut out, &mut ids);
    assert_eq!(
        out,
        "x#tree-em-probe(id: \"te-10\")\n#tree-probe(id: \"tn-10-0\", node[R])\n#tree-probe(id: \"tn-10-1\", node[A])\n"
    );
    assert_eq!(ids, vec!["old", "te-10", "tn-10-0", "tn-10-1"]);
}

#[test]
fn probe_ids_are_decimal() {
    assert_eq!(tree_node_id(0, 0), "tn-0-0");
    assert_eq!(tree_node_id(12, 305), "tn-12-305");
    assert_eq!(tree_em_id(7), "te-7");
}

#[test]
fn fill_and_plain_node_calls() {
    let mut colored = n("C", vec![]);
    colored.fill = Some("#FF0000".into());
    let mut out = String::new();
    emit_node_call(&mut out, &colored);
    assert_eq!(out, "node(fill: rgb(\"#FF0000\"))[C]");

    let mut lined = n("L", vec![]);
    lined.shape = NodeShape::Line;
    lined.fill = Some("#00FF00".into());
    let mut out = String::new();
    emit_node_call(&mut out, &lined);
    assert_eq!(out, "node(shape: \"underline\")[L]");

    let mut phantom = n("P", vec![]);
    phantom.shape = NodeShape::Phantom;
    let mut out = String::new();
    emit_node_call(&mut out, &phantom);
    assert_eq!(out, "node(shape: \"plain\")[P]");
}

#[test]
fn multi_line_labels_and_escaping() {
    let mut node = n("a*b", vec![]);
    node.label.push("#x [y]".to_string());
    let mut out = String::new();
    emit_node_call(&mut out, &node);
    assert_eq!(out, "node[a\\*b \\\n\\#x \\[y\\]]");
}

#[test]
fn empty_label_falls_back_to_id_then_space() {
    let mut node = n("", vec![]);
    node.label.clear();
    node.id = Some("code_1".to_string());
    let mut out = String::new();
    emit_node_call(&mut out, &node);
    assert_eq!(out, "node[code\\_1]");

    node.id = Some(String::new());
    let mut out = String::new();
    emit_node_call(&mut out, &node);
    assert_eq!(out, "node[ ]");

    node.id = None;
    let mut out = String::new();
    emit_node_call(&mut out, &node);
    assert_eq!(out, "node[ ]");
}

#[test]
fn unknown_color_forms_degrade_to_default_fill() {
    assert_eq!(typst_color("#abc"), Some("rgb(\"#abc\")".to_string()));
    assert_eq!(typst_color("#12AB9f"), Some("rgb(\"#12AB9f\")".to_string()));
    assert_eq!(typst_color("#12AB9"), None);
    assert_eq!(typst_color("#GGGGGG"), None);
    assert_eq!(typst_color("FF0000"), None);
    let mut node = n("N", vec![]);
    node.fill = Some("#zz".into());
    let mut out = String::new();
    emit_node_call(&mut out, &node);
    assert_eq!(out, "node[N]");
}

#[test]
fn title_block() {
    let mut out = String::new();
    emit_title(&mut out, "Org");
    assert_eq!(out, "#align(center)[*Org*]\n\n");
    let mut out = String::new();
    emit_title(&mut out, "a_b");
    assert_eq!(out, "#align(center)[*a\\_b*]\n\n");
}
