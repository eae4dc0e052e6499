use grafdag::document::{Document, Edge, EdgeId, Layer, LayerId, Node, NodeId};
use grafdag::nesting::{layout_graph, placements, primary_parents, visible_node_ids};

fn id(s: &str) -> NodeId {
    return NodeId(s.to_string());
}

fn node(n: &str, parents: &[&str], layers: &[&str]) -> Node {
    return Node {
        id: id(n),
        text: n.to_string(),
        layers: layers.iter().map(|l| LayerId(l.to_string())).collect(),
        parents: parents.iter().map(|p| id(p)).collect(),
    };
}

fn edge(e: &str, s: &str, d: &str) -> Edge {
    return Edge { id: EdgeId(e.to_string()), text: "".into(), source: id(s), dest: id(d), layer: None };
}

fn doc() -> Document {
    let mut doc = Document::default();
    doc.layers.push(Layer { id: LayerId("off".into()), name: "off".into(), active: false });
    doc.layers.push(Layer { id: LayerId("on".into()), name: "on".into(), active: true });
    doc.nodes.push(node("a", &[], &[]));
    doc.nodes.push(node("b", &["a"], &[]));
    doc.nodes.push(node("c", &["a", "b", "x"], &[]));
    doc.nodes.push(node("d", &["d"], &["on"]));
    doc.nodes.push(node("e", &["f"], &[]));
    doc.nodes.push(node("f", &["e"], &[]));
    doc.nodes.push(node("x", &[], &["off"]));
    doc.edges.push(edge("e1", "a", "c"));
    doc.edges.push(edge("e2", "c", "d"));
    doc.edges.push(edge("e3", "a", "x"));
    return doc;
}

#[test]
fn containers_break_cycles() {
    let doc = doc();
    assert_eq!(visible_node_ids(&doc), vec![id("a"), id("b"), id("c"), id("d"), id("e"), id("f")]);
    let (ids, parents) = primary_parents(&doc);
    assert_eq!(ids, visible_node_ids(&doc));
    // A node is never its own container; of the cycle e -> f -> e, the node
    // checked first leaves it.
    assert_eq!(parents, vec![None, Some(id("a")), Some(id("a")), None, None, Some(id("e"))]);
}

#[test]
fn extra_copies_in_other_containers() {
    let doc = doc();
    let plans = placements(&doc);
    let summary: Vec<(String, Option<String>, Option<usize>, bool)> = plans
        .iter()
        .map(|p| (p.id.node.0.clone(), p.id.container.as_ref().map(|c| c.0.clone()), p.parent, p.is_ghost))
        .collect();
    assert_eq!(
        summary,
        vec![
            ("a".to_string(), None, None, false),
            ("b".to_string(), Some("a".to_string()), Some(0), false),
            ("c".to_string(), Some("a".to_string()), Some(0), false),
            ("d".to_string(), None, None, false),
            ("e".to_string(), None, None, false),
            ("f".to_string(), Some("e".to_string()), Some(4), false),
            // c is drawn again in b; its hidden parent x gets no copy.
            ("c".to_string(), Some("b".to_string()), Some(1), true),
            // e left its cycle but is still drawn in its parent f.
            ("e".to_string(), Some("f".to_string()), Some(5), true),
        ]
    );
}

#[test]
fn link_copies_reach_extra_copies() {
    let mut doc = doc();
    let (_, links) = layout_graph(&doc);
    let summary: Vec<(String, usize, usize, bool)> =
        links.iter().map(|l| (l.edge.0.clone(), l.source, l.dest, l.emphasized)).collect();
    // e3 leads to a hidden node and has no copy.
    assert_eq!(
        summary,
        vec![
            ("e1".to_string(), 0, 2, false),
            ("e1".to_string(), 0, 6, false),
            ("e2".to_string(), 2, 3, false),
            ("e2".to_string(), 6, 3, false),
        ]
    );
    // With an active layer selected, links touching it are emphasized.
    doc.selected_layer = Some(LayerId("on".into()));
    let (_, links) = layout_graph(&doc);
    let marks: Vec<bool> = links.iter().map(|l| l.emphasized).collect();
    assert_eq!(marks, vec![false, false, true, true]);
    // A hidden selected layer emphasizes nothing.
    doc.selected_layer = Some(LayerId("off".into()));
    let (_, links) = layout_graph(&doc);
    assert!(links.iter().all(|l| !l.emphasized));
}

#[test]
fn hidden_nodes_and_extra_copies() {
    let mut doc = Document::default();
    doc.layers.push(Layer { id: LayerId("L".into()), name: "L".into(), active: false });
    doc.nodes.push(node("p", &[], &[]));
    doc.nodes.push(node("q", &[], &[]));
    doc.nodes.push(node("a", &["p", "q"], &[]));
    doc.nodes.push(node("hidden", &[], &["L"]));
    doc.edges.push(edge("e1", "a", "p"));
    doc.edges.push(edge("e2", "hidden", "a"));
    let (plans, instances) = layout_graph(&doc);
    // A node in an inactive layer is not drawn.
    assert!(plans.iter().all(|p| p.id.node != id("hidden")));
    // A node with two parents is drawn in both: once as itself, once as an extra copy.
    let a: Vec<_> = plans.iter().filter(|p| p.id.node == id("a")).collect();
    assert_eq!(a.len(), 2);
    assert_eq!(a.iter().filter(|p| p.is_ghost).count(), 1);
    assert_eq!(a[0].id.container, Some(id("p")));
    assert_eq!(a[1].id.container, Some(id("q")));
    // The link is drawn from each copy; the link to the hidden node is not.
    assert_eq!(instances.iter().filter(|i| i.edge.0 == "e1").count(), 2);
    assert_eq!(instances.iter().filter(|i| i.edge.0 == "e2").count(), 0);
}

#[test]
fn containers_seen_through_hidden_parents() {
    let mut doc = Document::default();
    doc.layers.push(Layer { id: LayerId("L".into()), name: "L".into(), active: false });
    doc.nodes.push(node("g", &[], &[]));
    doc.nodes.push(node("mid", &["g"], &["L"]));
    doc.nodes.push(node("a", &["mid"], &[]));
    doc.nodes.push(node("b", &["mid"], &[]));
    let plans = placements(&doc);
    // The hidden container is not drawn; what it held is drawn in its container.
    assert!(plans.iter().all(|p| p.id.node != id("mid")));
    assert!(plans.iter().all(|p| !p.is_ghost));
    assert_eq!(plans.len(), 3);
    for n in ["a", "b"] {
        let p = plans.iter().find(|p| p.id.node == id(n)).unwrap();
        assert_eq!(p.id.container, Some(id("g")));
        assert_eq!(p.parent, Some(0));
    }
    // A hidden parent that leads back to the node itself gives no container.
    let mut doc = Document::default();
    doc.layers.push(Layer { id: LayerId("L".into()), name: "L".into(), active: false });
    doc.nodes.push(node("a", &["h"], &[]));
    doc.nodes.push(node("h", &["a", "h"], &["L"]));
    let plans = placements(&doc);
    assert_eq!(plans.len(), 1);
    assert_eq!(plans[0].id.container, None);
}
