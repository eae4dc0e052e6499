use grafdag::document::{Document, Edge, EdgeId, Layer, LayerId, Node, NodeId};
use grafdag::editor::Editor;
use grafdag::widget::{Dir, Mode, SearchTarget};

fn id(s: &str) -> NodeId {
    return NodeId(s.to_string());
}

fn eid(s: &str) -> EdgeId {
    return EdgeId(s.to_string());
}

fn doc() -> Document {
    let mut d = Document::default();
    d.nodes.push(Node { id: id("a"), text: "Apple".into(), layers: vec![], parents: vec![] });
    d.nodes.push(Node { id: id("b"), text: "Banana".into(), layers: vec![], parents: vec![] });
    d.edges.push(Edge { id: eid("e1"), text: "".into(), source: id("a"), dest: id("b"), layer: None });
    d.edges.push(Edge { id: eid("bad"), text: "".into(), source: id("a"), dest: id("zz"), layer: None });
    return d;
}

fn pair(ed: &Editor) -> (Option<NodeId>, Option<NodeId>, Option<EdgeId>) {
    return (ed.selection.start.clone(), ed.selection.end.clone(), ed.selection.edge.clone());
}

#[test]
fn editing_through_the_history() {
    let mut ed = Editor::new(doc());
    // The dangling link is dropped on load.
    assert_eq!(ed.doc.edges.len(), 1);
    ed.selection.set_selection(&ed.doc, Some(id("b")), Some(id("a")));
    assert_eq!(pair(&ed), (Some(id("b")), Some(id("a")), Some(eid("e1"))));
    ed.cmd_link(10);
    assert_eq!(ed.doc.edges.len(), 2);
    assert_eq!((ed.doc.edges[1].id.clone(), ed.doc.edges[1].source.clone()), (eid("e2"), id("b")));
    // Linking again changes nothing and records nothing.
    ed.cmd_link(11);
    assert_eq!(ed.doc.edges.len(), 2);
    assert_eq!(ed.history.undo.len(), 1);
    assert!(ed.undo(20));
    assert_eq!(ed.doc.edges.len(), 1);
    assert!(ed.redo(30));
    assert_eq!(ed.doc.edges.len(), 2);
    assert!(!ed.redo(40));
    // Turning the selected link around.
    ed.cmd_reverse(50);
    assert_eq!((ed.doc.edges[0].source.clone(), ed.doc.edges[0].dest.clone()), (id("b"), id("a")));
    // Deleting it: the selection moves to the other link between the pair.
    ed.cmd_unlink(60);
    assert_eq!(ed.doc.edges.len(), 1);
    assert_eq!(pair(&ed), (Some(id("b")), Some(id("a")), Some(eid("e2"))));
    // Deleting the primary node promotes the anchor.
    ed.cmd_delete(70);
    assert_eq!(ed.doc.nodes.len(), 1);
    assert!(ed.doc.edges.is_empty());
    assert_eq!(pair(&ed), (None, Some(id("b")), None));
    // Undoing the deletion brings the node and its link back.
    assert!(ed.undo(80));
    assert_eq!(ed.doc.nodes.len(), 2);
    assert_eq!(ed.doc.edges.len(), 1);
}

#[test]
fn creating_nodes() {
    let mut ed = Editor::new(doc());
    ed.cmd_new_island(5);
    assert_eq!(ed.doc.nodes.len(), 3);
    assert_eq!(ed.doc.nodes[2].id, id("n3"));
    assert_eq!(pair(&ed), (None, Some(id("n3")), None));
    assert_eq!(ed.selection.mode, Mode::EditNode(id("n3")));
    ed.selection.select_only(&ed.doc, id("a"));
    ed.cmd_new_next(500);
    assert_eq!(ed.doc.nodes[3].id, id("n4"));
    assert_eq!((ed.doc.edges[1].source.clone(), ed.doc.edges[1].dest.clone()), (id("a"), id("n4")));
    assert_eq!(pair(&ed), (Some(id("a")), Some(id("n4")), Some(ed.doc.edges[1].id.clone())));
    ed.cmd_edit_start();
    assert_eq!(ed.selection.mode, Mode::EditNode(id("a")));
    ed.cmd_edit();
    assert_eq!(ed.selection.mode, Mode::EditNode(id("n4")));
    ed.cmd_edit_link();
    assert_eq!(ed.selection.mode, Mode::EditEdge(ed.doc.edges[1].id.clone()));
}

#[test]
fn flipping() {
    let mut ed = Editor::new(doc());
    ed.selection.set_selection(&ed.doc, Some(id("a")), Some(id("b")));
    ed.cmd_flip();
    assert_eq!(pair(&ed), (Some(id("b")), Some(id("a")), Some(eid("e1"))));
    assert_eq!(ed.selection.recent, vec![id("b"), id("a")]);
}

#[test]
fn searching() {
    let mut ed = Editor::new(doc());
    let shown = vec![id("a"), id("b")];
    ed.cmd_search(SearchTarget::Replace);
    assert_eq!(ed.selection.mode, Mode::Search(SearchTarget::Replace));
    ed.cmd_search_query("AN".to_string());
    ed.cmd_search_move(&shown, 1);
    // Only "Banana" holds "an": moving wraps around to it.
    assert_eq!(ed.search_index, 0);
    ed.cmd_search_query("".to_string());
    ed.cmd_search_move(&shown, -1);
    assert_eq!(ed.search_index, 1);
    ed.cmd_search_accept(&shown);
    assert_eq!(pair(&ed), (None, Some(id("b")), None));
    assert_eq!(ed.selection.mode, Mode::Layers);
    ed.cmd_search(SearchTarget::Extend);
    ed.cmd_search_query("app".to_string());
    ed.cmd_search_accept(&shown);
    assert_eq!(pair(&ed), (Some(id("b")), Some(id("a")), Some(eid("e1"))));
}

#[test]
fn activating_a_nodes_layer() {
    let mut d = doc();
    d.layers.push(Layer { id: LayerId("l1".into()), name: "one".into(), active: true });
    d.layers.push(Layer { id: LayerId("l2".into()), name: "two".into(), active: true });
    d.nodes[0].layers = vec![LayerId("l2".into()), LayerId("l1".into())];
    let mut ed = Editor::new(d);
    ed.activate_node_layer(&id("a"), 1);
    assert_eq!(ed.doc.selected_layer, Some(LayerId("l2".into())));
    // Already in the selected layer, in no layer, or missing: nothing.
    ed.activate_node_layer(&id("a"), 2);
    ed.activate_node_layer(&id("b"), 3);
    ed.activate_node_layer(&id("zz"), 4);
    assert_eq!(ed.history.undo.len(), 1);
    assert!(ed.undo(5));
    assert_eq!(ed.doc.selected_layer, None);
}

#[test]
fn islands_and_siblings() {
    let mut d = doc();
    d.nodes.push(Node { id: id("c"), text: "C".into(), layers: vec![], parents: vec![] });
    d.edges.push(Edge { id: eid("e2"), text: "".into(), source: id("a"), dest: id("c"), layer: None });
    let mut ed = Editor::new(d);
    let roots = vec![Some(id("a")), Some(id("c"))];
    ed.cmd_island(&roots, None, true);
    assert_eq!(pair(&ed), (None, Some(id("a")), None));
    ed.cmd_island(&roots, Some(0), false);
    assert_eq!(pair(&ed), (None, Some(id("c")), None));
    ed.cmd_island(&[], Some(0), true);
    assert_eq!(pair(&ed), (None, Some(id("c")), None));
    // Siblings: the links on one side of the anchor a.
    ed.selection.set_selection(&ed.doc, Some(id("a")), Some(id("b")));
    assert_eq!(ed.selection.edge, Some(eid("e1")));
    let side = vec![(eid("e1"), id("b")), (eid("e2"), id("c"))];
    ed.cmd_sibling(&side, Dir::Next);
    assert_eq!(pair(&ed), (Some(id("a")), Some(id("c")), Some(eid("e2"))));
    ed.cmd_sibling(&side, Dir::Next);
    assert_eq!(pair(&ed), (Some(id("a")), Some(id("b")), Some(eid("e1"))));
    ed.cmd_sibling(&side, Dir::Prev);
    assert_eq!(pair(&ed), (Some(id("a")), Some(id("c")), Some(eid("e2"))));
    // A list without the selected link changes nothing.
    ed.cmd_sibling(&[(eid("e1"), id("b"))], Dir::Next);
    assert_eq!(pair(&ed), (Some(id("a")), Some(id("c")), Some(eid("e2"))));
}

#[test]
fn stepping_and_cycling() {
    let mut d = doc();
    d.nodes.push(Node { id: id("c"), text: "C".into(), layers: vec![], parents: vec![] });
    d.edges.push(Edge { id: eid("e2"), text: "".into(), source: id("a"), dest: id("c"), layer: None });
    let mut ed = Editor::new(d);
    // With nothing selected, the first shown node is selected.
    assert_eq!(ed.ensure_focus(Some(id("a"))), Some(id("a")));
    assert_eq!(pair(&ed), (None, Some(id("a")), None));
    assert_eq!(ed.ensure_focus(Some(id("b"))), Some(id("a")));
    // Stepping on from a picks the most recently selected of its next nodes.
    ed.selection.select_only(&ed.doc, id("c"));
    ed.selection.select_only(&ed.doc, id("b"));
    ed.selection.select_only(&ed.doc, id("a"));
    ed.step_to(&[id("b"), id("c"), id("a")]);
    assert_eq!(pair(&ed), (Some(id("a")), Some(id("b")), Some(eid("e1"))));
    // Cycling moves the primary among the anchor's next nodes.
    ed.cycle_relative(&[id("b"), id("c")]);
    assert_eq!(pair(&ed), (Some(id("a")), Some(id("c")), Some(eid("e2"))));
    ed.cycle_relative(&[id("b"), id("c")]);
    assert_eq!(pair(&ed), (Some(id("a")), Some(id("b")), Some(eid("e1"))));
    // No candidates leaves the anchor alone.
    ed.cycle_relative(&[]);
    assert_eq!(pair(&ed), (None, Some(id("a")), None));
    // Nothing to step to from a node with no candidates: it stays alone.
    ed.step_to(&[]);
    assert_eq!(pair(&ed), (None, Some(id("a")), None));
}

#[test]
fn previews_and_siblings() {
    let mut ed = Editor::new(doc());
    let shown = vec![id("a"), id("b")];
    ed.cmd_search_hover(&shown, &id("b"), true);
    assert_eq!(ed.peek, Some(id("b")));
    // Leaving the previewed row previews the current result.
    ed.cmd_search_hover(&shown, &id("b"), false);
    assert_eq!(ed.peek, Some(id("a")));
    ed.cmd_search_hover(&shown, &id("b"), false);
    assert_eq!(ed.peek, Some(id("a")));
    // A sibling of b hangs off its most recent previous node.
    ed.selection.select_only(&ed.doc, id("b"));
    assert_eq!(ed.sibling_source(&[id("a")]), Some(id("a")));
    assert_eq!(ed.sibling_source(&[]), None);
    ed.cmd_new_sibling(&[id("a")], 10);
    assert_eq!(ed.doc.nodes[2].id, id("n3"));
    assert_eq!((ed.doc.edges[1].source.clone(), ed.doc.edges[1].dest.clone()), (id("a"), id("n3")));
    assert_eq!(pair(&ed).0, Some(id("a")));
    assert_eq!(pair(&ed).1, Some(id("n3")));
    assert_eq!(ed.selection.mode, Mode::EditNode(id("n3")));
    // With an anchor, the sibling hangs off the anchor.
    assert_eq!(ed.sibling_source(&[id("b")]), Some(id("a")));
}

#[test]
fn entering_and_leaving_containers() {
    let mut d = Document::default();
    d.nodes.push(Node { id: id("g"), text: "Group".into(), layers: vec![], parents: vec![] });
    d.nodes.push(Node { id: id("x"), text: "X".into(), layers: vec![], parents: vec![id("g")] });
    d.nodes.push(Node { id: id("y"), text: "Y".into(), layers: vec![], parents: vec![id("g"), id("h")] });
    d.nodes.push(Node { id: id("h"), text: "H".into(), layers: vec![], parents: vec![] });
    d.nodes.push(Node { id: id("z"), text: "Z".into(), layers: vec![], parents: vec![id("z"), id("gone")] });
    let mut ed = Editor::new(d);
    let shown = vec![id("h"), id("g"), id("x"), id("y"), id("z")];
    // A node's containers are its visible parents other than itself.
    assert_eq!(ed.parent_nodes(&id("y")), vec![id("g"), id("h")]);
    assert_eq!(ed.parent_nodes(&id("x")), vec![id("g")]);
    assert_eq!(ed.parent_nodes(&id("z")), Vec::<NodeId>::new());
    assert_eq!(ed.parent_nodes(&id("nope")), Vec::<NodeId>::new());
    // A hidden parent stands for the parents it is seen through.
    let mut d = Document::default();
    d.layers.push(Layer { id: LayerId("L".into()), name: "L".into(), active: false });
    d.nodes.push(Node { id: id("g"), text: "G".into(), layers: vec![], parents: vec![] });
    d.nodes.push(Node { id: id("m"), text: "M".into(), layers: vec![LayerId("L".into())], parents: vec![id("g"), id("k")] });
    d.nodes.push(Node { id: id("k"), text: "K".into(), layers: vec![], parents: vec![] });
    d.nodes.push(Node { id: id("c"), text: "C".into(), layers: vec![], parents: vec![id("m"), id("k")] });
    let hidden = Editor::new(d);
    assert_eq!(hidden.parent_nodes(&id("c")), vec![id("g"), id("k"), id("k")]);
    assert_eq!(hidden.child_nodes(&[id("g"), id("k"), id("c")], &id("g")), vec![id("c")]);
    assert_eq!(ed.child_nodes(&shown, &id("g")), vec![id("x"), id("y")]);
    assert_eq!(ed.child_nodes(&shown, &id("h")), vec![id("y")]);
    assert_eq!(ed.child_nodes(&shown, &id("x")), Vec::<NodeId>::new());
    // With nothing selected, entering does nothing and leaving keeps nothing.
    ed.cmd_enter(&shown);
    assert_eq!(pair(&ed), (None, None, None));
    ed.cmd_exit();
    assert_eq!(pair(&ed), (None, None, None));
    // Entering picks the first child when none was selected before.
    ed.selection.select_only(&ed.doc, id("g"));
    ed.cmd_enter(&shown);
    assert_eq!(pair(&ed), (None, Some(id("x")), None));
    // Otherwise the most recently selected child.
    ed.selection.select_only(&ed.doc, id("y"));
    ed.selection.select_only(&ed.doc, id("g"));
    ed.cmd_enter(&shown);
    assert_eq!(pair(&ed), (None, Some(id("y")), None));
    // Leaving goes to the most recently selected container.
    ed.selection.select_only(&ed.doc, id("h"));
    ed.selection.select_only(&ed.doc, id("y"));
    ed.cmd_exit();
    assert_eq!(pair(&ed), (None, Some(id("h")), None));
    // Nothing inside: entering does nothing.
    ed.selection.select_only(&ed.doc, id("x"));
    ed.cmd_enter(&shown);
    assert_eq!(pair(&ed), (None, Some(id("x")), None));
    // Without a container the anchor goes, then the selection.
    ed.selection.set_selection(&ed.doc, Some(id("x")), Some(id("g")));
    assert_eq!(pair(&ed), (Some(id("x")), Some(id("g")), None));
    ed.cmd_exit();
    assert_eq!(pair(&ed), (None, Some(id("g")), None));
    ed.cmd_exit();
    assert_eq!(pair(&ed), (None, None, None));
    // Escape leaves an editor first, and from the layers leaves the node.
    ed.selection.select_only(&ed.doc, id("x"));
    ed.selection.mode = Mode::EditNode(id("x"));
    ed.cmd_escape();
    assert_eq!(ed.selection.mode, Mode::Layers);
    assert_eq!(pair(&ed), (None, Some(id("x")), None));
    ed.cmd_escape();
    assert_eq!(pair(&ed), (None, Some(id("g")), None));
    assert_eq!(ed.selection.mode, Mode::Layers);
}
