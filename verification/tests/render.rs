use grafdag::document::{Document, Edge, EdgeId, Layer, LayerId, Node, NodeId};
use grafdag::render::{edge_active, highlight, is_secondary, layer_color_index, node_active, LAYER_COLORS};

fn doc_with_layers(n: usize) -> Document {
    let mut doc = Document::default();
    for i in 0..n {
        doc.layers.push(Layer { id: LayerId(format!("l{}", i)), name: format!("L{}", i), active: true });
    }
    return doc;
}

#[test]
fn nothing_secondary_without_selection() {
    let doc = doc_with_layers(2);
    assert!(!is_secondary(&doc, &[LayerId("l0".into())]));
    assert!(!is_secondary(&doc, &[]));
}

#[test]
fn secondary_outside_selected_layer() {
    let mut doc = doc_with_layers(2);
    doc.selected_layer = Some(LayerId("l0".into()));
    assert!(!is_secondary(&doc, &[LayerId("l0".into())]));
    assert!(is_secondary(&doc, &[LayerId("l1".into())]));
    assert!(!is_secondary(&doc, &[LayerId("l1".into()), LayerId("l0".into())]));
    // Things in no layer are never faded.
    assert!(!is_secondary(&doc, &[]));
    // An inactive selected layer fades nothing.
    doc.layers[0].active = false;
    assert!(!is_secondary(&doc, &[LayerId("l1".into())]));
    // A selected layer that doesn't exist fades nothing.
    doc.selected_layer = Some(LayerId("zz".into()));
    assert!(!is_secondary(&doc, &[LayerId("l1".into())]));
}

#[test]
fn layer_colours_cycle() {
    let doc = doc_with_layers(10);
    assert_eq!(LAYER_COLORS, 8);
    assert_eq!(layer_color_index(&doc, &LayerId("l0".into())), Some(0));
    assert_eq!(layer_color_index(&doc, &LayerId("l3".into())), Some(3));
    assert_eq!(layer_color_index(&doc, &LayerId("l8".into())), Some(0));
    assert_eq!(layer_color_index(&doc, &LayerId("l9".into())), Some(1));
    assert_eq!(layer_color_index(&doc, &LayerId("nope".into())), None);
}

fn id(s: &str) -> NodeId {
    return NodeId(s.to_string());
}

fn eid(s: &str) -> EdgeId {
    return EdgeId(s.to_string());
}

fn chain() -> Document {
    let mut doc = Document::default();
    for n in ["a", "b", "c", "d"] {
        doc.nodes.push(Node { id: id(n), text: n.to_string(), layers: vec![], parents: vec![] });
    }
    for (e, s, d) in [("e1", "a", "b"), ("e2", "b", "c"), ("e3", "c", "d")] {
        doc.edges.push(Edge { id: eid(e), text: "".into(), source: id(s), dest: id(d), layer: None });
    }
    return doc;
}

#[test]
fn pair_highlights_its_paths() {
    let doc = chain();
    let h = highlight(&doc, &Some(id("a")), &Some(id("c")), &None, &None, &None);
    assert!(h.spreading.is_empty());
    assert_eq!(h.connecting, vec![eid("e1"), eid("e2")]);
    assert!(node_active(&h, &id("b")));
    assert!(!node_active(&h, &id("d")));
    assert!(edge_active(&h, &None, &doc.edges[1]));
    assert!(!edge_active(&h, &None, &doc.edges[2]));
}

#[test]
fn lone_and_hovered_nodes_spread() {
    let doc = chain();
    let h = highlight(&doc, &None, &Some(id("b")), &Some(id("d")), &Some(eid("e1")), &None);
    assert_eq!(h.spreading, vec![id("d"), id("b")]);
    // The hovered link's ends are active too.
    assert!(node_active(&h, &id("a")));
    assert!(!node_active(&h, &id("c")));
    // Links at spreading nodes, and the hovered link, are active.
    assert!(edge_active(&h, &Some(eid("e1")), &doc.edges[0]));
    assert!(edge_active(&h, &Some(eid("e1")), &doc.edges[2]));
    assert!(edge_active(&h, &None, &doc.edges[1]));
}
