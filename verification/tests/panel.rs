use grafdag::document::{Document, Edge, EdgeId, Layer, LayerId, Node, NodeId};
use grafdag::editor::Editor;
use grafdag::widget::Mode;

fn id(s: &str) -> NodeId {
    return NodeId(s.to_string());
}

fn lid(s: &str) -> LayerId {
    return LayerId(s.to_string());
}

fn editor() -> Editor {
    let mut d = Document::default();
    d.layers.push(Layer { id: lid("l1"), name: "one".into(), active: true });
    d.nodes.push(Node { id: id("a"), text: "A".into(), layers: vec![lid("l1")], parents: vec![] });
    d.nodes.push(Node { id: id("b"), text: "B".into(), layers: vec![], parents: vec![id("a")] });
    d.nodes.push(Node { id: id("c"), text: "C".into(), layers: vec![], parents: vec![] });
    d.edges.push(Edge { id: EdgeId("e1".into()), text: "".into(), source: id("a"), dest: id("b"), layer: None });
    return Editor::new(d);
}

#[test]
fn layer_edits() {
    let mut ed = editor();
    ed.set_layer_active(&lid("l1"), false, 1);
    assert!(!ed.doc.layers[0].active);
    ed.set_layer_active(&lid("missing"), false, 2);
    assert_eq!(ed.history.undo.len(), 1);
    ed.toggle_selected_layer(&lid("l1"), 3);
    assert_eq!(ed.doc.selected_layer, Some(lid("l1")));
    ed.toggle_selected_layer(&lid("l1"), 4);
    assert_eq!(ed.doc.selected_layer, None);
    // Names are trimmed; blank names add nothing.
    ed.add_layer("  two \n", 5);
    assert_eq!(ed.doc.layers.len(), 2);
    assert_eq!((ed.doc.layers[1].id.clone(), ed.doc.layers[1].name.clone()), (lid("l2"), "two".to_string()));
    ed.add_layer("   ", 6);
    assert_eq!(ed.doc.layers.len(), 2);
    // Any Unicode white space goes from both ends, but not from inside.
    ed.add_layer("\u{3000}\u{a0}big  one\u{2028}\t", 6);
    assert_eq!(ed.doc.layers.len(), 3);
    assert_eq!(ed.doc.layers[2].name, "big  one");
    ed.undo(6);
    ed.add_layer("\u{85}\u{200a}", 6);
    assert_eq!(ed.doc.layers.len(), 2);
    ed.delete_layer(&lid("l1"), 7);
    assert_eq!(ed.doc.layers.len(), 1);
    assert!(ed.doc.nodes[0].layers.is_empty());
}

#[test]
fn text_edits_coalesce() {
    let mut ed = editor();
    ed.set_node_text(&id("a"), "Ab".into(), 1000);
    ed.set_node_text(&id("a"), "Abc".into(), 1100);
    assert_eq!(ed.doc.nodes[0].text, "Abc");
    // Quick successive typing is one undo level.
    assert_eq!(ed.history.undo.len(), 1);
    ed.set_node_text(&id("a"), "Abc".into(), 1150);
    assert_eq!(ed.history.undo.len(), 1);
    assert!(ed.undo(2000));
    assert_eq!(ed.doc.nodes[0].text, "A");
    ed.set_edge_text(&EdgeId("e1".into()), "label".into(), 3000);
    assert_eq!(ed.doc.edges[0].text, "label");
    ed.set_edge_layer(&EdgeId("e1".into()), "l1".into(), 4000);
    assert_eq!(ed.doc.edges[0].layer, Some(lid("l1")));
    ed.set_edge_layer(&EdgeId("e1".into()), "".into(), 5000);
    assert_eq!(ed.doc.edges[0].layer, None);
}

#[test]
fn node_layers_and_parents() {
    let mut ed = editor();
    ed.set_node_layer(&id("b"), &lid("l1"), true, 1);
    assert_eq!(ed.doc.nodes[1].layers, vec![lid("l1")]);
    ed.set_node_layer(&id("a"), &lid("l1"), false, 2);
    assert!(ed.doc.nodes[0].layers.is_empty());
    assert_eq!(ed.parent_candidates(&id("b")), vec![id("c")]);
    assert_eq!(ed.parent_candidates(&id("c")), vec![id("a"), id("b")]);
    ed.add_parent(&id("b"), "c".into(), 3);
    assert_eq!(ed.doc.nodes[1].parents, vec![id("a"), id("c")]);
    ed.add_parent(&id("b"), "".into(), 4);
    ed.remove_parent(&id("b"), &id("a"), 5);
    assert_eq!(ed.doc.nodes[1].parents, vec![id("c")]);
}

#[test]
fn panel_deletes_close_the_editor() {
    let mut ed = editor();
    ed.selection.mode = Mode::EditEdge(EdgeId("e1".into()));
    ed.reverse_edge(&EdgeId("e1".into()), 1);
    assert_eq!(ed.doc.edges[0].source, id("b"));
    ed.delete_edge(&EdgeId("e1".into()), 2);
    assert!(ed.doc.edges.is_empty());
    assert_eq!(ed.selection.mode, Mode::Layers);
    ed.selection.mode = Mode::EditNode(id("c"));
    ed.delete_node(&id("c"), 3);
    assert_eq!(ed.doc.nodes.len(), 2);
    assert_eq!(ed.selection.mode, Mode::Layers);
}
