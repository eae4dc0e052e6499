use grafdag::commands::{
    create_actions, cycle_next, cyclic_step, island_target, link_actions, reverse_actions, search_index_after,
};
use grafdag::document::{Document, Edge, EdgeId, Layer, LayerId, Node, NodeId};
use grafdag::undo::Action;

fn id(s: &str) -> NodeId {
    return NodeId(s.to_string());
}

fn doc() -> Document {
    let mut d = Document::default();
    d.layers.push(Layer { id: LayerId("l1".into()), name: "one".into(), active: true });
    let mut a = Node { id: id("a"), text: "a".into(), layers: vec![], parents: vec![id("g")] };
    a.layers.push(LayerId("l1".into()));
    d.nodes.push(a);
    d.nodes.push(Node { id: id("b"), text: "b".into(), layers: vec![], parents: vec![] });
    d.edges.push(Edge { id: EdgeId("e1".into()), text: "t".into(), source: id("a"), dest: id("b"), layer: None });
    return d;
}

#[test]
fn linking() {
    let mut d = doc();
    assert!(link_actions(&d, &id("a"), &id("b")).is_empty());
    assert!(link_actions(&d, &id("a"), &id("a")).is_empty());
    d.selected_layer = Some(LayerId("l1".into()));
    let acts = link_actions(&d, &id("b"), &id("a"));
    assert_eq!(
        acts,
        vec![Action::EdgeCreate {
            edge: Edge {
                id: EdgeId("e2".into()),
                text: "".into(),
                source: id("b"),
                dest: id("a"),
                layer: Some(LayerId("l1".into())),
            },
            index: None,
        }]
    );
}

#[test]
fn reversing() {
    let d = doc();
    assert_eq!(
        reverse_actions(&d, &EdgeId("e1".into())),
        vec![Action::EdgeModify(Edge {
            id: EdgeId("e1".into()),
            text: "t".into(),
            source: id("b"),
            dest: id("a"),
            layer: None,
        })]
    );
    assert!(reverse_actions(&d, &EdgeId("nope".into())).is_empty());
}

#[test]
fn creating() {
    let mut d = doc();
    let (new_id, acts) = create_actions(&d, &None, &id(""), false);
    assert_eq!(new_id, id("n3"));
    assert_eq!(
        acts,
        vec![Action::NodeCreate {
            node: Node { id: id("n3"), text: "".into(), layers: vec![], parents: vec![] },
            index: None,
        }]
    );
    d.selected_layer = Some(LayerId("l1".into()));
    let (new_id, acts) = create_actions(&d, &Some(id("a")), &id("a"), true);
    assert_eq!(new_id, id("n3"));
    assert_eq!(acts.len(), 2);
    assert_eq!(
        acts[0],
        Action::NodeCreate {
            node: Node { id: id("n3"), text: "".into(), layers: vec![LayerId("l1".into())], parents: vec![id("g")] },
            index: None,
        }
    );
    assert_eq!(
        acts[1],
        Action::EdgeCreate {
            edge: Edge {
                id: EdgeId("e2".into()),
                text: "".into(),
                source: id("n3"),
                dest: id("a"),
                layer: Some(LayerId("l1".into())),
            },
            index: None,
        }
    );
    let (_, acts) = create_actions(&d, &Some(id("b")), &id("b"), false);
    match &acts[1] {
        Action::EdgeCreate { edge, .. } => {
            assert_eq!(edge.source, id("b"));
            assert_eq!(edge.dest, id("n3"));
        },
        other => panic!("unexpected {:?}", other),
    }
}

#[test]
fn cycling() {
    assert_eq!(cyclic_step(0, 3, true), 1);
    assert_eq!(cyclic_step(2, 3, true), 0);
    assert_eq!(cyclic_step(0, 3, false), 2);
    assert_eq!(cyclic_step(1, 3, false), 0);
    assert_eq!(island_target(None, 4, true), 0);
    assert_eq!(island_target(Some(3), 4, true), 0);
    assert_eq!(island_target(Some(0), 4, false), 3);
    let list = vec![id("x"), id("y"), id("z")];
    assert_eq!(cycle_next(&list, &None), Some(id("x")));
    assert_eq!(cycle_next(&list, &Some(id("y"))), Some(id("z")));
    assert_eq!(cycle_next(&list, &Some(id("z"))), Some(id("x")));
    assert_eq!(cycle_next(&list, &Some(id("q"))), Some(id("x")));
    assert_eq!(cycle_next(&[], &Some(id("q"))), None);
}

#[test]
fn search_moves_wrap() {
    assert_eq!(search_index_after(0, 0, 1), None);
    assert_eq!(search_index_after(5, 4, 1), Some(0));
    assert_eq!(search_index_after(5, 0, -1), Some(4));
    assert_eq!(search_index_after(5, 2, -12), Some(0));
    assert_eq!(search_index_after(5, 2, -13), Some(4));
    assert_eq!(search_index_after(3, 1, 7), Some(2));
}
