use grafdag::document::NodeId;
use grafdag::layout::PlacementId;
use grafdag::widget::{Dir, Mode, SearchTarget};

#[test]
fn modes_compare_by_value() {
    assert_eq!(Mode::EditNode(NodeId("a".into())), Mode::EditNode(NodeId("a".into())));
    assert_ne!(Mode::EditNode(NodeId("a".into())), Mode::EditNode(NodeId("b".into())));
    assert_ne!(Mode::Search(SearchTarget::Replace), Mode::Search(SearchTarget::Extend));
    assert_ne!(Dir::Next, Dir::Prev);
    assert_eq!(Mode::Layers.clone(), Mode::Layers);
}

#[test]
fn placements_order_by_node_then_container() {
    let top = PlacementId { node: NodeId("a".into()), container: None };
    let inside = PlacementId { node: NodeId("a".into()), container: Some(NodeId("g".into())) };
    assert!(top < inside);
    assert_ne!(top, inside);
    assert_eq!(inside.clone(), inside);
}
