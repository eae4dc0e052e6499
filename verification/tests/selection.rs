use grafdag::document::{Document, Edge, EdgeId, Layer, LayerId, Node, NodeId};
use grafdag::paths::connecting;
use grafdag::selection::{
    anchor_node, click_extend, click_select, connecting_edge_from, connecting_edges, edge_touches, flip_selection,
    inward_direction, mode_after, normalize_selection, pick_recent, recency, synced_edge, touch_recent,
    Selection, RECENT_CAP,
};
use grafdag::widget::{Mode, SearchTarget};

fn id(s: &str) -> NodeId {
    return NodeId(s.to_string());
}

fn eid(s: &str) -> EdgeId {
    return EdgeId(s.to_string());
}

fn graph() -> Document {
    let mut doc = Document::default();
    for n in ["a", "b", "c", "d", "x"] {
        doc.nodes.push(Node { id: id(n), text: n.to_string(), layers: vec![], parents: vec![] });
    }
    for (e, s, d) in [("e1", "a", "b"), ("e2", "b", "c"), ("e3", "a", "c"), ("e4", "c", "d")] {
        doc.edges.push(Edge { id: eid(e), text: "".into(), source: id(s), dest: id(d), layer: None });
    }
    return doc;
}

#[test]
fn links_on_paths_between() {
    let doc = graph();
    let (edges, nodes) = connecting(&doc, &id("a"), &id("c"));
    assert_eq!(edges, vec![eid("e1"), eid("e2"), eid("e3")]);
    assert_eq!(nodes, vec![id("a"), id("b"), id("c")]);
    // Either order of the ends finds the same paths.
    assert_eq!(connecting(&doc, &id("c"), &id("a")), (edges.clone(), nodes.clone()));
    let (edges, nodes) = connecting(&doc, &id("b"), &id("d"));
    assert_eq!(edges, vec![eid("e2"), eid("e4")]);
    assert_eq!(nodes, vec![id("b"), id("c"), id("d")]);
    // Unconnected nodes have no path.
    assert_eq!(connecting(&doc, &id("a"), &id("x")), (vec![], vec![]));
    assert_eq!(connecting_edges(&doc, &id("d"), &id("a")).len(), 4);
}

#[test]
fn hidden_links_break_paths() {
    let mut doc = graph();
    doc.layers.push(Layer { id: LayerId("off".into()), name: "off".into(), active: false });
    doc.edges[1].layer = Some(LayerId("off".into()));
    let (edges, _) = connecting(&doc, &id("a"), &id("c"));
    assert_eq!(edges, vec![eid("e3")]);
    assert!(connecting(&doc, &id("b"), &id("c")).0.is_empty());
}

#[test]
fn link_for_a_pair() {
    let doc = graph();
    assert_eq!(connecting_edge_from(&doc, &id("a"), &id("c")), Some(eid("e3")));
    assert_eq!(connecting_edge_from(&doc, &id("c"), &id("a")), Some(eid("e3")));
    assert_eq!(connecting_edge_from(&doc, &id("a"), &id("d")), Some(eid("e1")));
    assert_eq!(connecting_edge_from(&doc, &id("d"), &id("a")), Some(eid("e4")));
    assert_eq!(connecting_edge_from(&doc, &id("a"), &id("x")), None);
    assert!(edge_touches(&doc, &eid("e2"), &id("c")));
    assert!(!edge_touches(&doc, &eid("e2"), &id("a")));
    assert!(!edge_touches(&doc, &eid("zz"), &id("a")));
}

#[test]
fn selection_direction() {
    let doc = graph();
    assert!(inward_direction(&doc, &Some(id("c")), &Some(id("a"))));
    assert!(!inward_direction(&doc, &Some(id("a")), &Some(id("c"))));
    assert!(!inward_direction(&doc, &None, &Some(id("a"))));
}

#[test]
fn kept_link_follows_selection() {
    let doc = graph();
    let a = Some(id("a"));
    let c = Some(id("c"));
    assert_eq!(synced_edge(&doc, &a, &c, &Some(eid("e1"))), Some(eid("e1")));
    assert_eq!(synced_edge(&doc, &a, &c, &Some(eid("e2"))), Some(eid("e3")));
    assert_eq!(synced_edge(&doc, &a, &c, &None), Some(eid("e3")));
    assert_eq!(synced_edge(&doc, &None, &c, &Some(eid("e1"))), None);
}

#[test]
fn selection_invariant() {
    assert_eq!(normalize_selection(Some(id("a")), None), (None, Some(id("a"))));
    assert_eq!(normalize_selection(Some(id("a")), Some(id("a"))), (None, Some(id("a"))));
    assert_eq!(normalize_selection(Some(id("a")), Some(id("b"))), (Some(id("a")), Some(id("b"))));
    assert_eq!(normalize_selection(None, Some(id("b"))), (None, Some(id("b"))));
    assert_eq!(normalize_selection(None, None), (None, None));
    assert_eq!(anchor_node(&Some(id("a")), &Some(id("b"))), Some(id("a")));
    assert_eq!(anchor_node(&None, &Some(id("b"))), Some(id("b")));
    assert_eq!(anchor_node(&None, &None), None);
}

#[test]
fn clicks() {
    let a = Some(id("a"));
    let b = Some(id("b"));
    assert_eq!(click_select(&None, &a, &id("a")), (None, None));
    assert_eq!(click_select(&b, &a, &id("a")), (None, Some(id("a"))));
    assert_eq!(click_select(&None, &None, &id("a")), (None, Some(id("a"))));
    assert_eq!(click_extend(&None, &a, &id("b")), (Some(id("a")), Some(id("b"))));
    assert_eq!(click_extend(&a, &b, &id("b")), (None, Some(id("a"))));
    assert_eq!(click_extend(&a, &b, &id("c")), (Some(id("a")), Some(id("c"))));
    assert_eq!(click_extend(&None, &None, &id("c")), (None, Some(id("c"))));
    assert_eq!(click_extend(&None, &a, &id("a")), (None, None));
}

#[test]
fn editors_close_with_their_subject() {
    let a = Some(id("a"));
    assert_eq!(mode_after(Mode::EditNode(id("a")), &None, &a, &None), Mode::EditNode(id("a")));
    assert_eq!(mode_after(Mode::EditNode(id("b")), &None, &a, &None), Mode::Layers);
    assert_eq!(mode_after(Mode::EditEdge(eid("e1")), &None, &a, &Some(eid("e1"))), Mode::EditEdge(eid("e1")));
    assert_eq!(mode_after(Mode::EditEdge(eid("e1")), &None, &a, &None), Mode::Layers);
    assert_eq!(
        mode_after(Mode::Search(SearchTarget::Extend), &None, &None, &None),
        Mode::Search(SearchTarget::Extend)
    );
}

#[test]
fn recent_history() {
    let mut recent = vec![];
    touch_recent(&mut recent, &id("a"));
    touch_recent(&mut recent, &id("b"));
    touch_recent(&mut recent, &id("a"));
    assert_eq!(recent, vec![id("b"), id("a")]);
    assert_eq!(recency(&recent, &id("a")), 2);
    assert_eq!(recency(&recent, &id("b")), 1);
    assert_eq!(recency(&recent, &id("z")), 0);
    assert_eq!(pick_recent(&recent, &[id("b"), id("a"), id("z")]), Some(id("a")));
    assert_eq!(pick_recent(&recent, &[id("z"), id("y")]), Some(id("z")));
    assert_eq!(pick_recent(&recent, &[]), None);
}

#[test]
fn recent_history_is_capped() {
    let mut recent = vec![];
    for i in 0..(RECENT_CAP + 1) {
        touch_recent(&mut recent, &id(&format!("n{}", i)));
    }
    assert_eq!(recent.len(), RECENT_CAP);
    assert_eq!(recent[0], id("n1"));
    assert_eq!(recency(&recent, &id(&format!("n{}", RECENT_CAP))), RECENT_CAP);
    assert_eq!(recency(&recent, &id("n0")), 0);
}

#[test]
fn flips() {
    let doc = graph();
    // The selected link leads from the anchor to another node: that node and
    // the anchor become the pair, swapped.
    assert_eq!(
        flip_selection(&doc, &Some(id("a")), &Some(id("d")), &Some(eid("e1"))),
        (Some(id("b")), Some(id("a")), Some(eid("e1")))
    );
    // The link already leads to the primary: the pair is swapped.
    assert_eq!(
        flip_selection(&doc, &Some(id("a")), &Some(id("b")), &Some(eid("e1"))),
        (Some(id("b")), Some(id("a")), Some(eid("e1")))
    );
    // A link that misses the anchor is replaced by the one the pair stands for.
    assert_eq!(
        flip_selection(&doc, &Some(id("a")), &Some(id("c")), &Some(eid("e4"))),
        (Some(id("c")), Some(id("a")), Some(eid("e3")))
    );
    // A lone primary stays.
    assert_eq!(flip_selection(&doc, &None, &Some(id("c")), &None), (None, Some(id("c")), None));
}

#[test]
fn selection_state() {
    let doc = graph();
    let mut sel = Selection::new();
    sel.select_only(&doc, id("a"));
    assert_eq!((sel.start.clone(), sel.end.clone(), sel.edge.clone()), (None, Some(id("a")), None));
    sel.extend_selection(&doc, id("c"));
    assert_eq!((sel.start.clone(), sel.end.clone(), sel.edge.clone()), (Some(id("a")), Some(id("c")), Some(eid("e3"))));
    assert_eq!(sel.recent, vec![id("a"), id("c")]);
    assert_eq!(sel.focus_node(), Some(id("c")));
    assert_eq!(sel.anchor_node(), Some(id("a")));
    // Dropping the primary promotes the anchor.
    sel.set_end(&doc, None);
    assert_eq!((sel.start.clone(), sel.end.clone(), sel.edge.clone()), (None, Some(id("a")), None));
    // Selecting a link selects its ends.
    sel.set_edge(&doc, &eid("e2"));
    assert_eq!((sel.start.clone(), sel.end.clone(), sel.edge.clone()), (Some(id("b")), Some(id("c")), Some(eid("e2"))));
    sel.set_edge(&doc, &eid("nope"));
    assert_eq!(sel.edge, Some(eid("e2")));
    // An editor closes when its node leaves the selection.
    sel.mode = Mode::EditNode(id("b"));
    sel.set_start(&doc, Some(id("c")));
    assert_eq!(sel.mode, Mode::Layers);
}

#[test]
fn selection_editor_and_clicks() {
    let doc = graph();
    let mut sel = Selection::new();
    sel.set_selection(&doc, Some(id("b")), Some(id("c")));
    sel.mode = Mode::EditNode(id("b"));
    sel.set_selection(&doc, None, Some(id("d")));
    assert_eq!(sel.mode, Mode::Layers);
    // Clicking the lone primary deselects it; clicking again selects it.
    sel.click_select(&doc, &id("d"));
    assert_eq!((sel.start.clone(), sel.end.clone()), (None, None));
    sel.click_select(&doc, &id("d"));
    assert_eq!((sel.start.clone(), sel.end.clone()), (None, Some(id("d"))));
    sel.click_extend(&doc, &id("c"));
    assert_eq!((sel.start.clone(), sel.end.clone(), sel.edge.clone()), (Some(id("d")), Some(id("c")), Some(eid("e4"))));
    sel.click_extend(&doc, &id("c"));
    assert_eq!((sel.start.clone(), sel.end.clone()), (None, Some(id("d"))));
    sel.clear_selection(&doc);
    assert_eq!(sel.focus_node(), None);
    assert_eq!(sel.recent, vec![id("b"), id("c"), id("d")]);
}

#[test]
fn selection_after_document_change() {
    let mut doc = graph();
    let mut sel = Selection::new();
    sel.set_selection(&doc, Some(id("b")), Some(id("c")));
    sel.mode = Mode::EditEdge(eid("e2"));
    doc.nodes.retain(|n| n.id != id("c"));
    doc.edges.retain(|e| e.id != eid("e2") && e.id != eid("e3") && e.id != eid("e4"));
    sel.after_change(&doc);
    assert_eq!((sel.start.clone(), sel.end.clone(), sel.edge.clone()), (None, Some(id("b")), None));
    assert_eq!(sel.mode, Mode::Layers);
}
