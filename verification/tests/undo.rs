use grafdag::document::{Document, Edge, EdgeId, Layer, LayerId, Node, NodeId};
use grafdag::undo::{apply_action, delete_layer_actions, delete_node_actions, Action, CoalesceKey, History};

fn node(id: &str) -> Node {
    return Node {
        id: NodeId(id.to_string()),
        text: id.to_string(),
        layers: vec![],
        parents: vec![],
    };
}

fn edge(id: &str, source: &str, dest: &str) -> Edge {
    return Edge {
        id: EdgeId(id.to_string()),
        text: "".to_string(),
        source: NodeId(source.to_string()),
        dest: NodeId(dest.to_string()),
        layer: None,
    };
}

fn layer(id: &str) -> Layer {
    return Layer {
        id: LayerId(id.to_string()),
        name: id.to_string(),
        active: true,
    };
}

#[test]
fn undo_redo_roundtrip() {
    let mut doc = Document::default();
    let mut h = History::default();
    h.commit(&mut doc, vec![Action::NodeCreate { node: node("a"), index: None }], 0, None);
    h.commit(&mut doc, vec![Action::NodeCreate { node: node("b"), index: None }], 1000, None);
    let e = Edge {
        id: EdgeId("e".into()),
        text: "".into(),
        source: NodeId("a".into()),
        dest: NodeId("b".into()),
        layer: None,
    };
    h.commit(&mut doc, vec![Action::EdgeCreate { edge: e, index: None }], 2000, None);
    let full = doc.clone();
    let actions = delete_node_actions(&doc, &NodeId("a".into()));
    h.commit(&mut doc, actions, 3000, None);
    assert_eq!(doc.nodes.len(), 1);
    assert_eq!(doc.edges.len(), 0);
    assert!(h.undo(&mut doc, 4000));
    assert_eq!(doc, full);
    assert_eq!(doc.nodes[0].id.0, "a");
    assert!(h.redo(&mut doc, 5000));
    assert_eq!(doc.nodes.len(), 1);
    assert!(h.undo(&mut doc, 6000));
    assert!(h.undo(&mut doc, 6000));
    assert_eq!(doc.edges.len(), 0);
    assert_eq!(doc.nodes.len(), 2);
}

#[test]
fn coalesce() {
    let mut doc = Document::default();
    let mut h = History::default();
    h.commit(&mut doc, vec![Action::NodeCreate { node: node("a"), index: None }], 0, None);
    let key = CoalesceKey {
        target: "a".into(),
        field: "text".into(),
    };
    for (i, t) in ["x", "xy", "xyz"].iter().enumerate() {
        let mut n = doc.node(&NodeId("a".into())).unwrap().clone();
        n.text = t.to_string();
        h.commit(&mut doc, vec![Action::NodeModify(n)], 1000 + i as u64 * 50, Some(key.clone()));
    }
    assert_eq!(h.undo.len(), 2);
    h.undo(&mut doc, 2000);
    assert_eq!(doc.node(&NodeId("a".into())).unwrap().text, "a");
    h.redo(&mut doc, 2000);
    assert_eq!(doc.node(&NodeId("a".into())).unwrap().text, "xyz");
}

#[test]
fn coalesce_window_slides_and_ends() {
    let mut doc = Document::default();
    let mut h = History::default();
    h.commit(&mut doc, vec![Action::NodeCreate { node: node("a"), index: None }], 0, None);
    let key = CoalesceKey { target: "a".into(), field: "text".into() };
    let mut n = node("a");
    n.text = "x".into();
    h.commit(&mut doc, vec![Action::NodeModify(n.clone())], 1000, Some(key.clone()));
    n.text = "xy".into();
    // Within the window the edit joins the level and moves the window on.
    h.commit(&mut doc, vec![Action::NodeModify(n.clone())], 1199, Some(key.clone()));
    assert_eq!(h.undo.len(), 2);
    assert_eq!(h.undo[1].time_ms, 1199);
    n.text = "xyz".into();
    // A full window later a new level starts.
    h.commit(&mut doc, vec![Action::NodeModify(n.clone())], 1399, Some(key.clone()));
    assert_eq!(h.undo.len(), 3);
    let other = CoalesceKey { target: "a".into(), field: "name".into() };
    n.text = "w".into();
    h.commit(&mut doc, vec![Action::NodeModify(n)], 1400, Some(other));
    assert_eq!(h.undo.len(), 4);
    assert!(h.undo(&mut doc, 1500));
    assert_eq!(doc.nodes[0].text, "xyz");
    assert!(h.undo(&mut doc, 1500));
    assert_eq!(doc.nodes[0].text, "xy");
}

#[test]
fn commit_clears_redo() {
    let mut doc = Document::default();
    let mut h = History::default();
    assert!(!h.can_undo());
    assert!(!h.can_redo());
    assert!(!h.undo(&mut doc, 0));
    assert!(!h.redo(&mut doc, 0));
    h.commit(&mut doc, vec![Action::NodeCreate { node: node("a"), index: None }], 0, None);
    assert!(h.can_undo());
    assert!(h.undo(&mut doc, 10));
    assert!(h.can_redo());
    assert_eq!(doc.nodes.len(), 0);
    h.commit(&mut doc, vec![Action::NodeCreate { node: node("b"), index: None }], 20, None);
    assert!(!h.can_redo());
    assert_eq!(doc.nodes.len(), 1);
    assert_eq!(doc.nodes[0].id.0, "b");
}

#[test]
fn empty_commit_records_nothing() {
    let mut doc = Document::default();
    let mut h = History::default();
    h.commit(&mut doc, vec![], 0, None);
    assert!(!h.can_undo());
}

#[test]
fn apply_returns_inverse() {
    let mut doc = Document::default();
    let inv = apply_action(&mut doc, Action::NodeCreate { node: node("a"), index: None });
    assert_eq!(inv, Some(Action::NodeDelete(NodeId("a".into()))));
    assert_eq!(doc.nodes.len(), 1);
    // Deleting a missing node does nothing.
    assert_eq!(apply_action(&mut doc, Action::NodeDelete(NodeId("zz".into()))), None);
    let before = doc.clone();
    let mut changed = node("a");
    changed.text = "new".into();
    let inv = apply_action(&mut doc, Action::NodeModify(changed)).unwrap();
    assert_eq!(doc.nodes[0].text, "new");
    apply_action(&mut doc, inv);
    assert_eq!(doc, before);
    let inv = apply_action(&mut doc, Action::SelectLayer(Some(LayerId("l".into())))).unwrap();
    assert_eq!(inv, Action::SelectLayer(None));
    assert_eq!(doc.selected_layer, Some(LayerId("l".into())));
}

#[test]
fn apply_inserts_at_index() {
    let mut doc = Document::default();
    apply_action(&mut doc, Action::NodeCreate { node: node("a"), index: None });
    apply_action(&mut doc, Action::NodeCreate { node: node("b"), index: None });
    let inv = apply_action(&mut doc, Action::NodeDelete(NodeId("a".into()))).unwrap();
    assert_eq!(inv, Action::NodeCreate { node: node("a"), index: Some(0) });
    apply_action(&mut doc, inv);
    assert_eq!(doc.nodes[0].id.0, "a");
    assert_eq!(doc.nodes[1].id.0, "b");
    // An index past the end appends.
    apply_action(&mut doc, Action::NodeCreate { node: node("c"), index: Some(99) });
    assert_eq!(doc.nodes[2].id.0, "c");
}

#[test]
fn delete_node_actions_drop_edges_and_parents() {
    let mut doc = Document::default();
    doc.nodes.push(node("a"));
    let mut b = node("b");
    b.parents = vec![NodeId("a".into()), NodeId("x".into())];
    doc.nodes.push(b);
    doc.edges.push(edge("e1", "a", "b"));
    doc.edges.push(edge("e2", "b", "b"));
    let actions = delete_node_actions(&doc, &NodeId("a".into()));
    let mut b2 = node("b");
    b2.parents = vec![NodeId("x".into())];
    assert_eq!(
        actions,
        vec![
            Action::EdgeDelete(EdgeId("e1".into())),
            Action::NodeModify(b2),
            Action::NodeDelete(NodeId("a".into())),
        ]
    );
    let before = doc.clone();
    let mut h = History::default();
    h.commit(&mut doc, actions, 0, None);
    assert_eq!(doc.nodes.len(), 1);
    assert_eq!(doc.edges.len(), 1);
    assert!(h.undo(&mut doc, 1));
    assert_eq!(doc, before);
}

#[test]
fn delete_layer_actions_clear_references() {
    let mut doc = Document::default();
    doc.layers.push(layer("l1"));
    doc.layers.push(layer("l2"));
    doc.selected_layer = Some(LayerId("l1".into()));
    let mut a = node("a");
    a.layers = vec![LayerId("l1".into()), LayerId("l2".into())];
    doc.nodes.push(a);
    doc.nodes.push(node("b"));
    let mut e = edge("e", "a", "b");
    e.layer = Some(LayerId("l1".into()));
    doc.edges.push(e);
    let actions = delete_layer_actions(&doc, &LayerId("l1".into()));
    assert_eq!(actions.len(), 4);
    assert_eq!(actions[1], Action::EdgeModify(edge("e", "a", "b")));
    assert_eq!(actions[2], Action::SelectLayer(None));
    assert_eq!(actions[3], Action::LayerDelete(LayerId("l1".into())));
    let before = doc.clone();
    let mut h = History::default();
    h.commit(&mut doc, actions, 0, None);
    assert_eq!(doc.layers.len(), 1);
    assert_eq!(doc.selected_layer, None);
    assert_eq!(doc.nodes[0].layers, vec![LayerId("l2".into())]);
    assert_eq!(doc.edges[0].layer, None);
    assert!(h.undo(&mut doc, 1));
    assert_eq!(doc, before);
}

#[test]
fn inverse_of_inverse_gives_the_action_back() {
    let mut doc = Document::default();
    apply_action(&mut doc, Action::NodeCreate { node: node("a"), index: None });
    apply_action(&mut doc, Action::EdgeCreate { edge: edge("e", "a", "a"), index: None });
    let mut changed = node("a");
    changed.text = "new".into();
    let actions = vec![
        Action::NodeCreate { node: node("b"), index: Some(0) },
        Action::NodeModify(changed),
        Action::EdgeDelete(EdgeId("e".into())),
        Action::LayerCreate { layer: layer("l"), index: Some(0) },
        Action::SelectLayer(Some(LayerId("l".into()))),
        Action::NodeDelete(NodeId("a".into())),
    ];
    for a in actions {
        let inv = apply_action(&mut doc, a.clone()).unwrap();
        let mut other = doc.clone();
        assert_eq!(apply_action(&mut other, inv), Some(a));
    }
}

#[test]
fn deletions_one_action_at_a_time() {
    let mut doc = Document::default();
    doc.layers.push(layer("l1"));
    doc.selected_layer = Some(LayerId("l1".into()));
    let mut a = node("a");
    a.layers = vec![LayerId("l1".into())];
    doc.nodes.push(a);
    let mut b = node("b");
    b.parents = vec![NodeId("a".into()), NodeId("c".into())];
    doc.nodes.push(b);
    doc.nodes.push(node("c"));
    let mut e1 = edge("e1", "a", "b");
    e1.layer = Some(LayerId("l1".into()));
    doc.edges.push(e1);
    doc.edges.push(edge("e2", "b", "c"));
    doc.edges.push(edge("e3", "c", "a"));
    // Deleting a node: it goes with its links and the references to it.
    let mut d = doc.clone();
    for act in delete_node_actions(&doc, &NodeId("a".into())) {
        apply_action(&mut d, act);
    }
    let ids: Vec<&str> = d.nodes.iter().map(|n| n.id.0.as_str()).collect();
    assert_eq!(ids, vec!["b", "c"]);
    assert_eq!(d.nodes[0].parents, vec![NodeId("c".into())]);
    let eids: Vec<&str> = d.edges.iter().map(|e| e.id.0.as_str()).collect();
    assert_eq!(eids, vec!["e2"]);
    assert_eq!(d.layers, doc.layers);
    assert_eq!(d.selected_layer, doc.selected_layer);
    // Deleting a layer: it goes with every reference to it, nothing else.
    let mut d = doc.clone();
    for act in delete_layer_actions(&doc, &LayerId("l1".into())) {
        apply_action(&mut d, act);
    }
    assert!(d.layers.is_empty());
    assert_eq!(d.selected_layer, None);
    assert!(d.nodes[0].layers.is_empty());
    assert_eq!(d.nodes[1], doc.nodes[1]);
    assert_eq!(d.edges[0].layer, None);
    assert_eq!(d.edges[0].source, doc.edges[0].source);
    assert_eq!(d.edges.len(), 3);
}
