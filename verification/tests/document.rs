use grafdag::document::{default_true, Document, Edge, EdgeId, Layer, LayerId, Node, NodeId};
use grafdag::ids::{first_free_id, numbered_string};

fn node(id: &str) -> Node {
    return Node { id: NodeId(id.to_string()), text: id.to_string(), layers: vec![], parents: vec![] };
}

fn edge(id: &str, source: &str, dest: &str) -> Edge {
    return Edge {
        id: EdgeId(id.to_string()),
        text: "".to_string(),
        source: NodeId(source.to_string()),
        dest: NodeId(dest.to_string()),
        layer: None,
    };
}

fn layer(id: &str, active: bool) -> Layer {
    return Layer { id: LayerId(id.to_string()), name: id.to_string(), active: active };
}

fn sample() -> Document {
    let mut doc = Document::default();
    doc.layers.push(layer("l1", true));
    doc.layers.push(layer("l2", false));
    doc.nodes.push(node("a"));
    doc.nodes.push(node("b"));
    doc.nodes.push(node("c"));
    doc.edges.push(edge("e1", "a", "b"));
    doc.edges.push(edge("e2", "b", "a"));
    doc.edges.push(edge("e3", "b", "c"));
    return doc;
}

#[test]
fn defaults() {
    assert!(default_true());
    let doc = Document::default();
    assert!(doc.layers.is_empty() && doc.nodes.is_empty() && doc.edges.is_empty());
    assert_eq!(doc.selected_layer, None);
}

#[test]
fn lookups() {
    let mut doc = sample();
    assert_eq!(doc.node(&NodeId("b".into())).map(|n| n.text.clone()), Some("b".to_string()));
    assert!(doc.node(&NodeId("z".into())).is_none());
    assert_eq!(doc.edge(&EdgeId("e3".into())).map(|e| e.dest.clone()), Some(NodeId("c".into())));
    assert!(doc.edge(&EdgeId("e9".into())).is_none());
    assert_eq!(doc.layer(&LayerId("l2".into())).map(|l| l.active), Some(false));
    assert!(doc.layer(&LayerId("l9".into())).is_none());
    doc.node_mut(&NodeId("c".into())).unwrap().text = "changed".into();
    assert_eq!(doc.nodes[2].text, "changed");
    doc.edge_mut(&EdgeId("e1".into())).unwrap().text = "x".into();
    assert_eq!(doc.edges[0].text, "x");
    doc.layer_mut(&LayerId("l2".into())).unwrap().active = true;
    assert!(doc.layers[1].active);
    assert!(doc.node_mut(&NodeId("z".into())).is_none());
    assert_eq!(doc.node_index(&NodeId("c".into())), Some(2));
    assert_eq!(doc.edge_index(&EdgeId("e2".into())), Some(1));
    assert_eq!(doc.layer_index(&LayerId("l9".into())), None);
    assert!(doc.has_node(&NodeId("a".into())));
    assert!(!doc.has_layer(&LayerId("a".into())));
}

#[test]
fn edges_between_either_direction() {
    let doc = sample();
    let ids: Vec<String> =
        doc.edges_between(&NodeId("a".into()), &NodeId("b".into())).iter().map(|e| e.id.0.clone()).collect();
    assert_eq!(ids, vec!["e1".to_string(), "e2".to_string()]);
    assert!(doc.edges_between(&NodeId("a".into()), &NodeId("c".into())).is_empty());
}

#[test]
fn new_ids_skip_used_numbers() {
    let mut doc = Document::default();
    assert_eq!(doc.new_node_id(), NodeId("n1".into()));
    assert_eq!(doc.new_edge_id(), EdgeId("e1".into()));
    assert_eq!(doc.new_layer_id(), LayerId("l1".into()));
    doc.nodes.push(node("n1"));
    doc.nodes.push(node("n3"));
    // Counting starts after the number of nodes.
    assert_eq!(doc.new_node_id(), NodeId("n4".into()));
    doc.nodes.push(node("x"));
    assert_eq!(doc.new_node_id(), NodeId("n4".into()));
    let doc = sample();
    assert_eq!(doc.new_edge_id(), EdgeId("e4".into()));
    assert_eq!(doc.new_layer_id(), LayerId("l3".into()));
}

#[test]
fn numbering() {
    assert_eq!(numbered_string("n", 0), "n0");
    assert_eq!(numbered_string("e", 1205), "e1205");
    assert_eq!(numbered_string("node-", 42), "node-42");
    assert_eq!(numbered_string("", 7), "7");
    let used = vec!["a3".to_string(), "a4".to_string(), "b5".to_string()];
    assert_eq!(first_free_id(&used, "a"), "a5");
    assert_eq!(first_free_id(&used, "b"), "b4");
    assert_eq!(first_free_id(&vec![], "q"), "q1");
}

#[test]
fn visibility() {
    let mut doc = sample();
    assert!(doc.layer_active(&LayerId("l1".into())));
    assert!(!doc.layer_active(&LayerId("l2".into())));
    assert!(!doc.layer_active(&LayerId("zz".into())));
    let mut a = node("a");
    assert!(doc.node_visible(&a));
    a.layers = vec![LayerId("l2".into())];
    assert!(!doc.node_visible(&a));
    a.layers.push(LayerId("l1".into()));
    assert!(doc.node_visible(&a));
    doc.nodes[0].layers = vec![LayerId("l2".into())];
    assert!(!doc.edge_visible(&doc.edges[0].clone()));
    assert!(doc.edge_visible(&doc.edges[2].clone()));
    let mut e = edge("e9", "b", "c");
    e.layer = Some(LayerId("l2".into()));
    assert!(!doc.edge_visible(&e));
    e.layer = Some(LayerId("l1".into()));
    assert!(doc.edge_visible(&e));
    let dangling = edge("e8", "b", "zz");
    assert!(!doc.edge_visible(&dangling));
}

#[test]
fn sanitize_drops_dangling_references() {
    let mut doc = sample();
    assert!(!doc.sanitize());
    doc.edges.push(edge("e4", "a", "gone"));
    let mut e = edge("e5", "a", "c");
    e.layer = Some(LayerId("gone".into()));
    doc.edges.push(e);
    doc.nodes[1].parents = vec![NodeId("b".into()), NodeId("a".into()), NodeId("gone".into())];
    doc.nodes[2].layers = vec![LayerId("gone".into()), LayerId("l2".into())];
    doc.selected_layer = Some(LayerId("gone".into()));
    assert!(doc.sanitize());
    assert_eq!(doc.edges.len(), 4);
    assert_eq!(doc.edges[3].id.0, "e5");
    assert_eq!(doc.edges[3].layer, None);
    assert_eq!(doc.nodes[1].parents, vec![NodeId("a".into())]);
    assert_eq!(doc.nodes[2].layers, vec![LayerId("l2".into())]);
    assert_eq!(doc.selected_layer, None);
    // A second pass finds nothing left to do.
    let before = doc.clone();
    assert!(!doc.sanitize());
    assert_eq!(doc, before);
}
