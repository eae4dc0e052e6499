//! Undo/redo. A change to the document is expressed as a list of `Action`s
//! applied atomically as one "level". Applying an action returns the inverse
//! action; the inverses are stored in the undo stack. Undoing a level applies
//! its stored actions and pushes the resulting inverses onto the redo stack
//! (and vice versa).
use vstd::prelude::*;
use vstd::std_specs::cmp::PartialEqSpecImpl;
use crate::document::{
    clone_node_ids, layer_ids_view, node_ids_view,
    clone_opt_layer, edge_pos, edges_view, layer_pos, layers_view, node_pos, nodes_view, opt_layer_view,
    DocView, Document, Edge, EdgeId, EdgeView, Layer, LayerId, LayerView, Node, NodeId, NodeView,
};

verus! {

/// A single change to a document.
#[derive(Debug)]
pub enum Action {
    NodeCreate { node: Node, index: Option<usize> },
    NodeDelete(NodeId),
    /// Replace the node with the same id.
    NodeModify(Node),
    EdgeCreate { edge: Edge, index: Option<usize> },
    EdgeDelete(EdgeId),
    EdgeModify(Edge),
    LayerCreate { layer: Layer, index: Option<usize> },
    LayerDelete(LayerId),
    LayerModify(Layer),
    SelectLayer(Option<LayerId>),
}

pub enum ActionView {
    NodeCreate { node: NodeView, index: Option<nat> },
    NodeDelete(Seq<char>),
    NodeModify(NodeView),
    EdgeCreate { edge: EdgeView, index: Option<nat> },
    EdgeDelete(Seq<char>),
    EdgeModify(EdgeView),
    LayerCreate { layer: LayerView, index: Option<nat> },
    LayerDelete(Seq<char>),
    LayerModify(LayerView),
    SelectLayer(Option<Seq<char>>),
}

pub open spec fn index_view(i: Option<usize>) -> Option<nat> {
    match i {
        Some(k) => Some(k as nat),
        None => None,
    }
}

impl View for Action {
    type V = ActionView;

    open spec fn view(&self) -> ActionView {
        match self {
            Action::NodeCreate { node, index } => ActionView::NodeCreate {
                node: node@,
                index: index_view(*index),
            },
            Action::NodeDelete(id) => ActionView::NodeDelete(id@),
            Action::NodeModify(node) => ActionView::NodeModify(node@),
            Action::EdgeCreate { edge, index } => ActionView::EdgeCreate {
                edge: edge@,
                index: index_view(*index),
            },
            Action::EdgeDelete(id) => ActionView::EdgeDelete(id@),
            Action::EdgeModify(edge) => ActionView::EdgeModify(edge@),
            Action::LayerCreate { layer, index } => ActionView::LayerCreate {
                layer: layer@,
                index: index_view(*index),
            },
            Action::LayerDelete(id) => ActionView::LayerDelete(id@),
            Action::LayerModify(layer) => ActionView::LayerModify(layer@),
            Action::SelectLayer(l) => ActionView::SelectLayer(opt_layer_view(*l)),
        }
    }
}

pub open spec fn opt_action_view(a: Option<Action>) -> Option<ActionView> {
    match a {
        Some(x) => Some(x@),
        None => None,
    }
}

pub open spec fn actions_view(v: Seq<Action>) -> Seq<ActionView> {
    v.map_values(|a: Action| a@)
}

impl Clone for Action {
    fn clone(&self) -> (r: Self)
        ensures
            r@ == self@,
    {
        match self {
            Action::NodeCreate { node, index } => Action::NodeCreate {
                node: node.clone(),
                index: *index,
            },
            Action::NodeDelete(id) => Action::NodeDelete(id.clone()),
            Action::NodeModify(node) => Action::NodeModify(node.clone()),
            Action::EdgeCreate { edge, index } => Action::EdgeCreate {
                edge: edge.clone(),
                index: *index,
            },
            Action::EdgeDelete(id) => Action::EdgeDelete(id.clone()),
            Action::EdgeModify(edge) => Action::EdgeModify(edge.clone()),
            Action::LayerCreate { layer, index } => Action::LayerCreate {
                layer: layer.clone(),
                index: *index,
            },
            Action::LayerDelete(id) => Action::LayerDelete(id.clone()),
            Action::LayerModify(layer) => Action::LayerModify(layer.clone()),
            Action::SelectLayer(l) => Action::SelectLayer(clone_opt_layer(l)),
        }
    }
}

impl PartialEq for Action {
    fn eq(&self, other: &Self) -> (r: bool) {
        match (self, other) {
            (
                Action::NodeCreate { node: a, index: i },
                Action::NodeCreate { node: b, index: j },
            ) => *a == *b && *i == *j,
            (Action::NodeDelete(a), Action::NodeDelete(b)) => *a == *b,
            (Action::NodeModify(a), Action::NodeModify(b)) => *a == *b,
            (
                Action::EdgeCreate { edge: a, index: i },
                Action::EdgeCreate { edge: b, index: j },
            ) => *a == *b && *i == *j,
            (Action::EdgeDelete(a), Action::EdgeDelete(b)) => *a == *b,
            (Action::EdgeModify(a), Action::EdgeModify(b)) => *a == *b,
            (
                Action::LayerCreate { layer: a, index: i },
                Action::LayerCreate { layer: b, index: j },
            ) => *a == *b && *i == *j,
            (Action::LayerDelete(a), Action::LayerDelete(b)) => *a == *b,
            (Action::LayerModify(a), Action::LayerModify(b)) => *a == *b,
            (Action::SelectLayer(a), Action::SelectLayer(b)) => match (a, b) {
                (Some(x), Some(y)) => *x == *y,
                (None, None) => true,
                _ => false,
            },
            _ => false,
        }
    }
}

impl PartialEqSpecImpl for Action {
    open spec fn obeys_eq_spec() -> bool {
        true
    }

    open spec fn eq_spec(&self, other: &Self) -> bool {
        self@ == other@
    }
}

/// Where a create action inserts: at the requested index, clamped to the
/// end of the list, or at the end when no index is given.
pub open spec fn insert_at(index: Option<nat>, len: nat) -> int {
    match index {
        Some(i) => if i < len {
            i as int
        } else {
            len as int
        },
        None => len as int,
    }
}

/// The document after the action, and the inverse action (none when the
/// action names an id that doesn't exist, in which case the document is left
/// as it is).
pub open spec fn spec_apply(d: DocView, a: ActionView) -> (DocView, Option<ActionView>) {
    match a {
        ActionView::NodeCreate { node, index } => (
            DocView { nodes: d.nodes.insert(insert_at(index, d.nodes.len()), node), ..d },
            Some(ActionView::NodeDelete(node.id)),
        ),
        ActionView::NodeDelete(id) => {
            let p = node_pos(d, id);
            if p < 0 {
                (d, None)
            } else {
                (
                    DocView { nodes: d.nodes.remove(p), ..d },
                    Some(ActionView::NodeCreate { node: d.nodes[p], index: Some(p as nat) }),
                )
            }
        },
        ActionView::NodeModify(node) => {
            let p = node_pos(d, node.id);
            if p < 0 {
                (d, None)
            } else {
                (
                    DocView { nodes: d.nodes.update(p, node), ..d },
                    Some(ActionView::NodeModify(d.nodes[p])),
                )
            }
        },
        ActionView::EdgeCreate { edge, index } => (
            DocView { edges: d.edges.insert(insert_at(index, d.edges.len()), edge), ..d },
            Some(ActionView::EdgeDelete(edge.id)),
        ),
        ActionView::EdgeDelete(id) => {
            let p = edge_pos(d, id);
            if p < 0 {
                (d, None)
            } else {
                (
                    DocView { edges: d.edges.remove(p), ..d },
                    Some(ActionView::EdgeCreate { edge: d.edges[p], index: Some(p as nat) }),
                )
            }
        },
        ActionView::EdgeModify(edge) => {
            let p = edge_pos(d, edge.id);
            if p < 0 {
                (d, None)
            } else {
                (
                    DocView { edges: d.edges.update(p, edge), ..d },
                    Some(ActionView::EdgeModify(d.edges[p])),
                )
            }
        },
        ActionView::LayerCreate { layer, index } => (
            DocView { layers: d.layers.insert(insert_at(index, d.layers.len()), layer), ..d },
            Some(ActionView::LayerDelete(layer.id)),
        ),
        ActionView::LayerDelete(id) => {
            let p = layer_pos(d, id);
            if p < 0 {
                (d, None)
            } else {
                (
                    DocView { layers: d.layers.remove(p), ..d },
                    Some(ActionView::LayerCreate { layer: d.layers[p], index: Some(p as nat) }),
                )
            }
        },
        ActionView::LayerModify(layer) => {
            let p = layer_pos(d, layer.id);
            if p < 0 {
                (d, None)
            } else {
                (
                    DocView { layers: d.layers.update(p, layer), ..d },
                    Some(ActionView::LayerModify(d.layers[p])),
                )
            }
        },
        ActionView::SelectLayer(l) => (
            DocView { selected_layer: l, ..d },
            Some(ActionView::SelectLayer(d.selected_layer)),
        ),
    }
}

proof fn lemma_nodes_insert(v: Seq<Node>, i: int, x: Node)
    requires
        0 <= i <= v.len(),
    ensures
        nodes_view(v.insert(i, x)) == nodes_view(v).insert(i, x@),
{
    assert(nodes_view(v.insert(i, x)) =~= nodes_view(v).insert(i, x@));
}

proof fn lemma_nodes_remove(v: Seq<Node>, i: int)
    requires
        0 <= i < v.len(),
    ensures
        nodes_view(v.remove(i)) == nodes_view(v).remove(i),
{
    assert(nodes_view(v.remove(i)) =~= nodes_view(v).remove(i));
}

proof fn lemma_nodes_update(v: Seq<Node>, i: int, x: Node)
    requires
        0 <= i < v.len(),
    ensures
        nodes_view(v.update(i, x)) == nodes_view(v).update(i, x@),
{
    assert(nodes_view(v.update(i, x)) =~= nodes_view(v).update(i, x@));
}

proof fn lemma_edges_insert(v: Seq<Edge>, i: int, x: Edge)
    requires
        0 <= i <= v.len(),
    ensures
        edges_view(v.insert(i, x)) == edges_view(v).insert(i, x@),
{
    assert(edges_view(v.insert(i, x)) =~= edges_view(v).insert(i, x@));
}

proof fn lemma_edges_remove(v: Seq<Edge>, i: int)
    requires
        0 <= i < v.len(),
    ensures
        edges_view(v.remove(i)) == edges_view(v).remove(i),
{
    assert(edges_view(v.remove(i)) =~= edges_view(v).remove(i));
}

proof fn lemma_edges_update(v: Seq<Edge>, i: int, x: Edge)
    requires
        0 <= i < v.len(),
    ensures
        edges_view(v.update(i, x)) == edges_view(v).update(i, x@),
{
    assert(edges_view(v.update(i, x)) =~= edges_view(v).update(i, x@));
}

proof fn lemma_layers_insert(v: Seq<Layer>, i: int, x: Layer)
    requires
        0 <= i <= v.len(),
    ensures
        layers_view(v.insert(i, x)) == layers_view(v).insert(i, x@),
{
    assert(layers_view(v.insert(i, x)) =~= layers_view(v).insert(i, x@));
}

proof fn lemma_layers_remove(v: Seq<Layer>, i: int)
    requires
        0 <= i < v.len(),
    ensures
        layers_view(v.remove(i)) == layers_view(v).remove(i),
{
    assert(layers_view(v.remove(i)) =~= layers_view(v).remove(i));
}

proof fn lemma_layers_update(v: Seq<Layer>, i: int, x: Layer)
    requires
        0 <= i < v.len(),
    ensures
        layers_view(v.update(i, x)) == layers_view(v).update(i, x@),
{
    assert(layers_view(v.update(i, x)) =~= layers_view(v).update(i, x@));
}

/// Apply an action to the document, returning the inverse action. Actions that
/// don't apply (missing ids) are no-ops returning no inverse.
pub fn apply_action(doc: &mut Document, action: Action) -> (r: Option<Action>)
    ensures
        (final(doc)@, opt_action_view(r)) == spec_apply(old(doc)@, action@),
{
    broadcast use crate::document::lemma_index_of;

    match action {
        Action::NodeCreate { node, index } => {
            let id = node.id.clone();
            let len = doc.nodes.len();
            let index = match index {
                Some(i) => if i < len {
                    i
                } else {
                    len
                },
                None => len,
            };
            proof {
                lemma_nodes_insert(doc.nodes@, index as int, node);
            }
            doc.nodes.insert(index, node);
            Some(Action::NodeDelete(id))
        },
        Action::NodeDelete(id) => {
            match doc.node_index(&id) {
                Some(index) => {
                    proof {
                        lemma_nodes_remove(doc.nodes@, index as int);
                    }
                    let node = doc.nodes.remove(index);
                    Some(Action::NodeCreate { node: node, index: Some(index) })
                },
                None => None,
            }
        },
        Action::NodeModify(node) => {
            let id = node.id.clone();
            match doc.node_mut(&id) {
                Some(slot) => {
                    let mut prev = node;
                    std::mem::swap(slot, &mut prev);
                    proof {
                        lemma_nodes_update(old(doc).nodes@, node_pos(old(doc)@, id@), *slot);
                    }
                    Some(Action::NodeModify(prev))
                },
                None => None,
            }
        },
        Action::EdgeCreate { edge, index } => {
            let id = edge.id.clone();
            let len = doc.edges.len();
            let index = match index {
                Some(i) => if i < len {
                    i
                } else {
                    len
                },
                None => len,
            };
            proof {
                lemma_edges_insert(doc.edges@, index as int, edge);
            }
            doc.edges.insert(index, edge);
            Some(Action::EdgeDelete(id))
        },
        Action::EdgeDelete(id) => {
            match doc.edge_index(&id) {
                Some(index) => {
                    proof {
                        lemma_edges_remove(doc.edges@, index as int);
                    }
                    let edge = doc.edges.remove(index);
                    Some(Action::EdgeCreate { edge: edge, index: Some(index) })
                },
                None => None,
            }
        },
        Action::EdgeModify(edge) => {
            let id = edge.id.clone();
            match doc.edge_mut(&id) {
                Some(slot) => {
                    let mut prev = edge;
                    std::mem::swap(slot, &mut prev);
                    proof {
                        lemma_edges_update(old(doc).edges@, edge_pos(old(doc)@, id@), *slot);
                    }
                    Some(Action::EdgeModify(prev))
                },
                None => None,
            }
        },
        Action::LayerCreate { layer, index } => {
            let id = layer.id.clone();
            let len = doc.layers.len();
            let index = match index {
                Some(i) => if i < len {
                    i
                } else {
                    len
                },
                None => len,
            };
            proof {
                lemma_layers_insert(doc.layers@, index as int, layer);
            }
            doc.layers.insert(index, layer);
            Some(Action::LayerDelete(id))
        },
        Action::LayerDelete(id) => {
            match doc.layer_index(&id) {
                Some(index) => {
                    proof {
                        lemma_layers_remove(doc.layers@, index as int);
                    }
                    let layer = doc.layers.remove(index);
                    Some(Action::LayerCreate { layer: layer, index: Some(index) })
                },
                None => None,
            }
        },
        Action::LayerModify(layer) => {
            let id = layer.id.clone();
            match doc.layer_mut(&id) {
                Some(slot) => {
                    let mut prev = layer;
                    std::mem::swap(slot, &mut prev);
                    proof {
                        lemma_layers_update(old(doc).layers@, layer_pos(old(doc)@, id@), *slot);
                    }
                    Some(Action::LayerModify(prev))
                },
                None => None,
            }
        },
        Action::SelectLayer(layer) => {
            let mut prev = layer;
            std::mem::swap(&mut doc.selected_layer, &mut prev);
            Some(Action::SelectLayer(prev))
        },
    }
}

/// An action is undone exactly by its inverse unless it creates an item
/// behind an existing item with the same id (the inverse deletes the first
/// item with that id).
pub open spec fn invertible(d: DocView, a: ActionView) -> bool {
    match a {
        ActionView::NodeCreate { node, index } => forall|j: int|
            0 <= j < insert_at(index, d.nodes.len()) ==> #[trigger] d.nodes[j].id != node.id,
        ActionView::EdgeCreate { edge, index } => forall|j: int|
            0 <= j < insert_at(index, d.edges.len()) ==> #[trigger] d.edges[j].id != edge.id,
        ActionView::LayerCreate { layer, index } => forall|j: int|
            0 <= j < insert_at(index, d.layers.len()) ==> #[trigger] d.layers[j].id != layer.id,
        _ => true,
    }
}

proof fn lemma_inverse_restores_node(d: DocView, a: ActionView)
    requires
        invertible(d, a),
        a is NodeCreate || a is NodeDelete || a is NodeModify,
    ensures
        spec_apply(d, a).1 is None ==> spec_apply(d, a).0 == d,
        spec_apply(d, a).1 matches Some(inv) ==> spec_apply(spec_apply(d, a).0, inv).0 == d
            && invertible(spec_apply(d, a).0, inv) && spec_apply(spec_apply(d, a).0, inv).1 is Some,
{
    broadcast use crate::document::lemma_index_of;

    let d2 = spec_apply(d, a).0;
    match a {
        ActionView::NodeCreate { node, index } => {
            let k = insert_at(index, d.nodes.len());
            let ids = crate::document::node_ids(d2.nodes);
            assert forall|j: int| 0 <= j < k implies ids[j] != node.id by {
                assert(d2.nodes[j] == d.nodes[j]);
            }
            crate::document::lemma_index_of_unique(ids, node.id, k);
            assert(d2.nodes.remove(k) =~= d.nodes);
            assert(spec_apply(d2, ActionView::NodeDelete(node.id)).0 =~= d);
        },
        ActionView::NodeDelete(id) => {
            let p = node_pos(d, id);
            if p >= 0 {
                let ids = crate::document::node_ids(d.nodes);
                assert(ids[p] == id);
                assert(d2.nodes.insert(p, d.nodes[p]) =~= d.nodes);
                assert forall|j: int| 0 <= j < p implies #[trigger] d2.nodes[j].id != d.nodes[p].id by {
                    assert(ids[j] != id);
                }
            }
        },
        ActionView::NodeModify(node) => {
            let p = node_pos(d, node.id);
            if p >= 0 {
                let ids = crate::document::node_ids(d.nodes);
                let ids2 = crate::document::node_ids(d2.nodes);
                assert(ids[p] == node.id);
                assert forall|j: int| 0 <= j < p implies ids2[j] != node.id by {
                    assert(ids[j] != node.id);
                }
                crate::document::lemma_index_of_unique(ids2, node.id, p);
                assert(d2.nodes.update(p, d.nodes[p]) =~= d.nodes);
                assert(spec_apply(d2, ActionView::NodeModify(d.nodes[p])).0 =~= d);
            }
        },
        _ => {},
    }
}

proof fn lemma_inverse_restores_edge(d: DocView, a: ActionView)
    requires
        invertible(d, a),
        a is EdgeCreate || a is EdgeDelete || a is EdgeModify,
    ensures
        spec_apply(d, a).1 is None ==> spec_apply(d, a).0 == d,
        spec_apply(d, a).1 matches Some(inv) ==> spec_apply(spec_apply(d, a).0, inv).0 == d
            && invertible(spec_apply(d, a).0, inv) && spec_apply(spec_apply(d, a).0, inv).1 is Some,
{
    broadcast use crate::document::lemma_index_of;

    let d2 = spec_apply(d, a).0;
    match a {
        ActionView::EdgeCreate { edge, index } => {
            let k = insert_at(index, d.edges.len());
            let ids = crate::document::edge_ids(d2.edges);
            assert forall|j: int| 0 <= j < k implies ids[j] != edge.id by {
                assert(d2.edges[j] == d.edges[j]);
            }
            crate::document::lemma_index_of_unique(ids, edge.id, k);
            assert(d2.edges.remove(k) =~= d.edges);
            assert(spec_apply(d2, ActionView::EdgeDelete(edge.id)).0 =~= d);
        },
        ActionView::EdgeDelete(id) => {
            let p = edge_pos(d, id);
            if p >= 0 {
                let ids = crate::document::edge_ids(d.edges);
                assert(ids[p] == id);
                assert(d2.edges.insert(p, d.edges[p]) =~= d.edges);
                assert forall|j: int| 0 <= j < p implies #[trigger] d2.edges[j].id != d.edges[p].id by {
                    assert(ids[j] != id);
                }
            }
        },
        ActionView::EdgeModify(edge) => {
            let p = edge_pos(d, edge.id);
            if p >= 0 {
                let ids = crate::document::edge_ids(d.edges);
                let ids2 = crate::document::edge_ids(d2.edges);
                assert(ids[p] == edge.id);
                assert forall|j: int| 0 <= j < p implies ids2[j] != edge.id by {
                    assert(ids[j] != edge.id);
                }
                crate::document::lemma_index_of_unique(ids2, edge.id, p);
                assert(d2.edges.update(p, d.edges[p]) =~= d.edges);
                assert(spec_apply(d2, ActionView::EdgeModify(d.edges[p])).0 =~= d);
            }
        },
        _ => {},
    }
}

proof fn lemma_inverse_restores_layer(d: DocView, a: ActionView)
    requires
        invertible(d, a),
        a is LayerCreate || a is LayerDelete || a is LayerModify,
    ensures
        spec_apply(d, a).1 is None ==> spec_apply(d, a).0 == d,
        spec_apply(d, a).1 matches Some(inv) ==> spec_apply(spec_apply(d, a).0, inv).0 == d
            && invertible(spec_apply(d, a).0, inv) && spec_apply(spec_apply(d, a).0, inv).1 is Some,
{
    broadcast use crate::document::lemma_index_of;

    let d2 = spec_apply(d, a).0;
    match a {
        ActionView::LayerCreate { layer, index } => {
            let k = insert_at(index, d.layers.len());
            let ids = crate::document::layer_ids(d2.layers);
            assert forall|j: int| 0 <= j < k implies ids[j] != layer.id by {
                assert(d2.layers[j] == d.layers[j]);
            }
            crate::document::lemma_index_of_unique(ids, layer.id, k);
            assert(d2.layers.remove(k) =~= d.layers);
            assert(spec_apply(d2, ActionView::LayerDelete(layer.id)).0 =~= d);
        },
        ActionView::LayerDelete(id) => {
            let p = layer_pos(d, id);
            if p >= 0 {
                let ids = crate::document::layer_ids(d.layers);
                assert(ids[p] == id);
                assert(d2.layers.insert(p, d.layers[p]) =~= d.layers);
                assert forall|j: int| 0 <= j < p implies #[trigger] d2.layers[j].id != d.layers[p].id by {
                    assert(ids[j] != id);
                }
            }
        },
        ActionView::LayerModify(layer) => {
            let p = layer_pos(d, layer.id);
            if p >= 0 {
                let ids = crate::document::layer_ids(d.layers);
                let ids2 = crate::document::layer_ids(d2.layers);
                assert(ids[p] == layer.id);
                assert forall|j: int| 0 <= j < p implies ids2[j] != layer.id by {
                    assert(ids[j] != layer.id);
                }
                crate::document::lemma_index_of_unique(ids2, layer.id, p);
                assert(d2.layers.update(p, d.layers[p]) =~= d.layers);
                assert(spec_apply(d2, ActionView::LayerModify(d.layers[p])).0 =~= d);
            }
        },
        _ => {},
    }
}

/// Applying the inverse of an invertible action gives back the document it
/// was applied to, and the inverse is invertible in turn.
pub proof fn lemma_inverse_restores(d: DocView, a: ActionView)
    requires
        invertible(d, a),
    ensures
        spec_apply(d, a).1 is None ==> spec_apply(d, a).0 == d,
        spec_apply(d, a).1 matches Some(inv) ==> spec_apply(spec_apply(d, a).0, inv).0 == d
            && invertible(spec_apply(d, a).0, inv) && spec_apply(spec_apply(d, a).0, inv).1 is Some,
{
    match a {
        ActionView::SelectLayer(l) => {
            let d2 = spec_apply(d, a).0;
            assert(spec_apply(d2, ActionView::SelectLayer(d.selected_layer)).0 =~= d);
        },
        ActionView::NodeCreate { .. } | ActionView::NodeDelete(_) | ActionView::NodeModify(_) => {
            lemma_inverse_restores_node(d, a);
        },
        ActionView::EdgeCreate { .. } | ActionView::EdgeDelete(_) | ActionView::EdgeModify(_) => {
            lemma_inverse_restores_edge(d, a);
        },
        _ => {
            lemma_inverse_restores_layer(d, a);
        },
    }
}

/// Applies the actions in order: the resulting document, and the inverses of
/// the actions that applied, in application order.
pub open spec fn spec_run(d: DocView, acts: Seq<ActionView>) -> (DocView, Seq<ActionView>)
    decreases acts.len(),
{
    if acts.len() == 0 {
        (d, Seq::empty())
    } else {
        let (d1, invs) = spec_run(d, acts.drop_last());
        let (d2, o) = spec_apply(d1, acts.last());
        (
            d2,
            match o {
                Some(i) => invs.push(i),
                None => invs,
            },
        )
    }
}

/// Every action in the list is invertible in the document it is applied to.
pub open spec fn run_invertible(d: DocView, acts: Seq<ActionView>) -> bool
    decreases acts.len(),
{
    acts.len() == 0 || (run_invertible(d, acts.drop_last()) && invertible(
        spec_run(d, acts.drop_last()).0,
        acts.last(),
    ))
}

/// The actions that undo a run: its inverses, last applied first.
pub open spec fn undo_actions(d: DocView, acts: Seq<ActionView>) -> Seq<ActionView> {
    spec_run(d, acts).1.reverse()
}

/// Running two lists one after the other is running their concatenation.
pub proof fn lemma_run_concat(d: DocView, x: Seq<ActionView>, y: Seq<ActionView>)
    ensures
        spec_run(d, x + y).0 == spec_run(spec_run(d, x).0, y).0,
        spec_run(d, x + y).1 == spec_run(d, x).1 + spec_run(spec_run(d, x).0, y).1,
        run_invertible(d, x + y) == (run_invertible(d, x) && run_invertible(spec_run(d, x).0, y)),
    decreases y.len(),
{
    if y.len() == 0 {
        assert(x + y =~= x);
        assert(spec_run(d, x).1 + Seq::<ActionView>::empty() =~= spec_run(d, x).1);
    } else {
        lemma_run_concat(d, x, y.drop_last());
        assert((x + y).drop_last() =~= x + y.drop_last());
        assert((x + y).last() == y.last());
        let d1 = spec_run(d, x).0;
        let (d2, o) = spec_apply(spec_run(d1, y.drop_last()).0, y.last());
        match o {
            Some(i) => {
                assert(spec_run(d, x).1 + spec_run(d1, y.drop_last()).1.push(i) =~= (spec_run(d, x).1
                    + spec_run(d1, y.drop_last()).1).push(i));
            },
            None => {},
        }
    }
}

/// Undoing a run of invertible actions gives back the document the run
/// started from, and the undoing actions are themselves invertible, so that
/// undoing them in turn brings back the document the run produced.
pub proof fn lemma_undo_run(d: DocView, acts: Seq<ActionView>)
    requires
        run_invertible(d, acts),
    ensures
        run_invertible(spec_run(d, acts).0, undo_actions(d, acts)),
        spec_run(spec_run(d, acts).0, undo_actions(d, acts)).0 == d,
    decreases acts.len(),
{
    if acts.len() > 0 {
        let p = acts.drop_last();
        let a = acts.last();
        lemma_undo_run(d, p);
        let (d1, invp) = spec_run(d, p);
        lemma_inverse_restores(d1, a);
        let (d2, o) = spec_apply(d1, a);
        match o {
            Some(i) => {
                let rp = invp.reverse();
                assert(invp.push(i).reverse() =~= seq![i] + rp);
                lemma_run_concat(d2, seq![i], rp);
                assert(seq![i].drop_last() =~= Seq::<ActionView>::empty());
                assert(seq![i].last() == i);
                assert(spec_run(d2, Seq::<ActionView>::empty()).0 == d2);
                assert(run_invertible(d2, Seq::<ActionView>::empty()));
                assert(spec_run(d2, seq![i]).0 == d1);
                assert(run_invertible(d2, seq![i]));
            },
            None => {},
        }
    }
}

/// The undoing actions of a run of invertible actions, applied to the
/// document the run produced, give back the starting document; and the
/// actions that undo those give back the produced document again.
pub proof fn lemma_undo_redo_run(d: DocView, acts: Seq<ActionView>)
    requires
        run_invertible(d, acts),
    ensures
        ({
            let d2 = spec_run(d, acts).0;
            let u = undo_actions(d, acts);
            &&& spec_run(d2, u).0 == d
            &&& run_invertible(d, undo_actions(d2, u))
            &&& spec_run(d, undo_actions(d2, u)).0 == d2
        }),
{
    lemma_undo_run(d, acts);
    let d2 = spec_run(d, acts).0;
    let u = undo_actions(d, acts);
    lemma_undo_run(d2, u);
}

/// Changes to the same target of the same kind within this window (in
/// milliseconds) are coalesced into one undo level (e.g. typing).
pub const COALESCE_MS: u64 = 200;

/// Identifies the kind of modification, for coalescing successive edits (e.g.
/// typing into the same text field).
#[derive(Debug)]
pub struct CoalesceKey {
    pub target: String,
    pub field: String,
}

impl View for CoalesceKey {
    type V = (Seq<char>, Seq<char>);

    open spec fn view(&self) -> (Seq<char>, Seq<char>) {
        (self.target@, self.field@)
    }
}

impl Clone for CoalesceKey {
    fn clone(&self) -> (r: Self)
        ensures
            r == *self,
    {
        CoalesceKey { target: self.target.clone(), field: self.field.clone() }
    }
}

impl PartialEq for CoalesceKey {
    fn eq(&self, other: &Self) -> (r: bool) {
        self.target == other.target && self.field == other.field
    }
}

impl PartialEqSpecImpl for CoalesceKey {
    open spec fn obeys_eq_spec() -> bool {
        true
    }

    open spec fn eq_spec(&self, other: &Self) -> bool {
        self@ == other@
    }
}

impl Eq for CoalesceKey {

}

pub open spec fn key_view(k: Option<CoalesceKey>) -> Option<(Seq<char>, Seq<char>)> {
    match k {
        Some(x) => Some(x@),
        None => None,
    }
}

/// One undo (or redo) step.
#[derive(Debug)]
pub struct Level {
    /// Actions to apply to revert (or redo) this level, in application order.
    pub actions: Vec<Action>,
    /// When the level was recorded, in milliseconds.
    pub time_ms: u64,
    pub key: Option<CoalesceKey>,
}

pub struct LevelView {
    pub actions: Seq<ActionView>,
    pub time_ms: u64,
    pub key: Option<(Seq<char>, Seq<char>)>,
}

impl View for Level {
    type V = LevelView;

    open spec fn view(&self) -> LevelView {
        LevelView { actions: actions_view(self.actions@), time_ms: self.time_ms, key: key_view(self.key) }
    }
}

/// The undo and redo stacks, most recent level last.
#[derive(Debug)]
pub struct History {
    pub undo: Vec<Level>,
    pub redo: Vec<Level>,
}

pub struct HistoryView {
    pub undo: Seq<LevelView>,
    pub redo: Seq<LevelView>,
}

pub open spec fn levels_view(v: Seq<Level>) -> Seq<LevelView> {
    v.map_values(|l: Level| l@)
}

impl View for History {
    type V = HistoryView;

    open spec fn view(&self) -> HistoryView {
        HistoryView { undo: levels_view(self.undo@), redo: levels_view(self.redo@) }
    }
}

impl Default for History {
    fn default() -> (r: Self)
        ensures
            r@.undo.len() == 0,
            r@.redo.len() == 0,
    {
        History { undo: Vec::new(), redo: Vec::new() }
    }
}

/// A commit with this key at this time is folded into the top undo level:
/// the top level has the same key and was recorded less than the coalescing
/// window ago.
pub open spec fn coalesces(h: HistoryView, now_ms: u64, key: Option<(Seq<char>, Seq<char>)>) -> bool {
    &&& key is Some
    &&& h.undo.len() > 0
    &&& h.undo.last().key == key
    &&& (now_ms as int) - (h.undo.last().time_ms as int) < COALESCE_MS as int
}

/// The history and document after committing the actions.
pub open spec fn spec_commit(
    h: HistoryView,
    d: DocView,
    acts: Seq<ActionView>,
    now_ms: u64,
    key: Option<(Seq<char>, Seq<char>)>,
) -> (HistoryView, DocView) {
    let (d2, invs) = spec_run(d, acts);
    let undo = if coalesces(h, now_ms, key) {
        h.undo.update(h.undo.len() - 1, LevelView { time_ms: now_ms, ..h.undo.last() })
    } else if invs.len() == 0 {
        h.undo
    } else {
        h.undo.push(LevelView { actions: invs.reverse(), time_ms: now_ms, key: key })
    };
    (HistoryView { undo: undo, redo: Seq::empty() }, d2)
}

/// Applying a level: the document it produces, and the level that reverts
/// it (recorded now, never coalesced with).
pub open spec fn spec_apply_level(d: DocView, l: LevelView, now_ms: u64) -> (DocView, LevelView) {
    let (d2, invs) = spec_run(d, l.actions);
    (d2, LevelView { actions: invs.reverse(), time_ms: now_ms, key: None })
}

/// The history and document after an undo, and whether there was anything
/// to undo.
pub open spec fn spec_undo(h: HistoryView, d: DocView, now_ms: u64) -> (HistoryView, DocView, bool) {
    if h.undo.len() == 0 {
        (h, d, false)
    } else {
        let (d2, inv) = spec_apply_level(d, h.undo.last(), now_ms);
        (HistoryView { undo: h.undo.drop_last(), redo: h.redo.push(inv) }, d2, true)
    }
}

/// The history and document after a redo, and whether there was anything
/// to redo.
pub open spec fn spec_redo(h: HistoryView, d: DocView, now_ms: u64) -> (HistoryView, DocView, bool) {
    if h.redo.len() == 0 {
        (h, d, false)
    } else {
        let (d2, inv) = spec_apply_level(d, h.redo.last(), now_ms);
        (HistoryView { undo: h.undo.push(inv), redo: h.redo.drop_last() }, d2, true)
    }
}

proof fn lemma_view_push<A: View>(s: Seq<A>, x: A)
    ensures
        s.push(x).map_values(|a: A| a@) == s.map_values(|a: A| a@).push(x@),
{
    assert(s.push(x).map_values(|a: A| a@) =~= s.map_values(|a: A| a@).push(x@));
}

/// Applies the actions in order, returning the inverses of those that
/// applied, in application order.
fn run_actions(doc: &mut Document, actions: &Vec<Action>) -> (r: Vec<Action>)
    ensures
        (final(doc)@, actions_view(r@)) == spec_run(old(doc)@, actions_view(actions@)),
{
    let ghost d0 = doc@;
    let ghost acts = actions_view(actions@);
    let mut invs: Vec<Action> = Vec::new();
    assert(acts.take(0) =~= Seq::<ActionView>::empty());
    for i in 0..actions.len()
        invariant
            acts == actions_view(actions@),
            acts.len() == actions.len(),
            (doc@, actions_view(invs@)) == spec_run(d0, acts.take(i as int)),
    {
        let a = actions[i].clone();
        assert(acts.take(i + 1).drop_last() =~= acts.take(i as int));
        assert(acts.take(i + 1).last() == a@);
        match apply_action(doc, a) {
            Some(inv) => {
                proof {
                    lemma_view_push(invs@, inv);
                }
                invs.push(inv);
            },
            None => {},
        }
    }
    assert(acts.take(actions.len() as int) =~= acts);
    invs
}

/// The actions in reverse order.
fn reversed(v: Vec<Action>) -> (r: Vec<Action>)
    ensures
        actions_view(r@) == actions_view(v@).reverse(),
{
    let ghost orig = actions_view(v@);
    let mut v = v;
    let mut r: Vec<Action> = Vec::new();
    while v.len() > 0
        invariant
            orig.len() == v.len() + r.len(),
            forall|k: int| 0 <= k < v.len() ==> #[trigger] v@[k]@ == orig[k],
            forall|k: int| 0 <= k < r.len() ==> #[trigger] r@[k]@ == orig[orig.len() - 1 - k],
        decreases v.len(),
    {
        let x = v.pop().unwrap();
        r.push(x);
    }
    assert(actions_view(r@) =~= orig.reverse());
    r
}

impl History {
    /// Apply a change (a list of actions, atomically) and record it. `key`
    /// enables coalescing with the previous level if it has the same key and
    /// happened recently.
    pub fn commit(&mut self, doc: &mut Document, actions: Vec<Action>, now_ms: u64, key: Option<CoalesceKey>)
        ensures
            (final(self)@, final(doc)@) == spec_commit(
                old(self)@,
                old(doc)@,
                actions_view(actions@),
                now_ms,
                key_view(key),
            ),
    {
        let ghost h0 = self@;
        let invs = run_actions(doc, &actions);
        let inverses = reversed(invs);
        self.redo.clear();
        if let Some(k) = &key {
            let n = self.undo.len();
            if n > 0 {
                let same_key = match &self.undo[n - 1].key {
                    Some(top_key) => *top_key == *k,
                    None => false,
                };
                let top_time = self.undo[n - 1].time_ms;
                assert(h0.undo.last() == self.undo@[n - 1]@);
                assert(same_key == (h0.undo.last().key == key_view(key)));
                if same_key && (now_ms < top_time || now_ms - top_time < COALESCE_MS) {
                    // The top level already restores the state before both edits; drop the new
                    // inverse and extend the window.
                    let ghost before = self.undo@;
                    let mut top = self.undo.pop().unwrap();
                    top.time_ms = now_ms;
                    self.undo.push(top);
                    assert(levels_view(self.undo@) =~= levels_view(before).update(
                        n - 1,
                        LevelView { time_ms: now_ms, ..levels_view(before).last() },
                    ));
                    assert(levels_view(self.redo@) =~= Seq::<LevelView>::empty());
                    return;
                }
            }
        }
        assert(!coalesces(h0, now_ms, key_view(key)));
        let ghost expected = spec_commit(h0, old(doc)@, actions_view(actions@), now_ms, key_view(key));
        assert(expected.1 == doc@);
        assert(actions_view(inverses@).len() == actions_view(invs@).len());
        if inverses.len() == 0 {
            assert(levels_view(self.redo@) =~= Seq::<LevelView>::empty());
            assert(levels_view(self.undo@) == h0.undo);
            assert(expected.0.undo == h0.undo);
            assert(self@ =~= expected.0);
            return;
        }
        let level = Level { actions: inverses, time_ms: now_ms, key: key };
        proof {
            lemma_view_push(self.undo@, level);
        }
        self.undo.push(level);
        assert(levels_view(self.redo@) =~= Seq::<LevelView>::empty());
    }

    pub fn can_undo(&self) -> (r: bool)
        ensures
            r == (self@.undo.len() > 0),
    {
        self.undo.len() > 0
    }

    pub fn can_redo(&self) -> (r: bool)
        ensures
            r == (self@.redo.len() > 0),
    {
        self.redo.len() > 0
    }

    /// Revert the most recent undo level, moving its inverse onto the redo
    /// stack. Returns false when there is nothing to undo.
    pub fn undo(&mut self, doc: &mut Document, now_ms: u64) -> (r: bool)
        ensures
            (final(self)@, final(doc)@, r) == spec_undo(old(self)@, old(doc)@, now_ms),
    {
        let ghost before = self.undo@;
        match self.undo.pop() {
            None => false,
            Some(level) => {
                assert(levels_view(self.undo@) =~= levels_view(before).drop_last());
                let inverse = Self::apply_level(doc, level, now_ms);
                proof {
                    lemma_view_push(self.redo@, inverse);
                }
                self.redo.push(inverse);
                true
            },
        }
    }

    /// Re-apply the most recently undone level, moving its inverse onto the
    /// undo stack. Returns false when there is nothing to redo.
    pub fn redo(&mut self, doc: &mut Document, now_ms: u64) -> (r: bool)
        ensures
            (final(self)@, final(doc)@, r) == spec_redo(old(self)@, old(doc)@, now_ms),
    {
        let ghost before = self.redo@;
        match self.redo.pop() {
            None => false,
            Some(level) => {
                assert(levels_view(self.redo@) =~= levels_view(before).drop_last());
                let inverse = Self::apply_level(doc, level, now_ms);
                proof {
                    lemma_view_push(self.undo@, inverse);
                }
                self.undo.push(inverse);
                true
            },
        }
    }

    fn apply_level(doc: &mut Document, level: Level, now_ms: u64) -> (r: Level)
        ensures
            (final(doc)@, r@) == spec_apply_level(old(doc)@, level@, now_ms),
    {
        let invs = run_actions(doc, &level.actions);
        let inverses = reversed(invs);
        // Applied levels are never coalesced with
        Level { actions: inverses, time_ms: now_ms, key: None }
    }
}

/// Undoing right after a commit of invertible actions (one that recorded a
/// new level rather than being coalesced) restores the document from before
/// the commit and the undo stack from before it; redoing then restores the
/// document the commit produced, with the level back on the undo stack and
/// nothing left to redo.
pub proof fn lemma_commit_undo_redo(
    h: HistoryView,
    d: DocView,
    acts: Seq<ActionView>,
    now_ms: u64,
    key: Option<(Seq<char>, Seq<char>)>,
    t1: u64,
    t2: u64,
)
    requires
        run_invertible(d, acts),
        !coalesces(h, now_ms, key),
        spec_run(d, acts).1.len() > 0,
    ensures
        ({
            let (h1, d1) = spec_commit(h, d, acts, now_ms, key);
            let (h2, d2, undone) = spec_undo(h1, d1, t1);
            let (h3, d3, redone) = spec_redo(h2, d2, t2);
            &&& h1.undo.len() == h.undo.len() + 1
            &&& h1.redo.len() == 0
            &&& undone
            &&& d2 == d
            &&& h2.undo == h.undo
            &&& h2.redo.len() == 1
            &&& redone
            &&& d3 == d1
            &&& h3.undo.len() == h.undo.len() + 1
            &&& h3.undo.drop_last() == h.undo
            &&& h3.redo.len() == 0
        }),
{
    lemma_undo_redo_run(d, acts);
    let (h1, d1) = spec_commit(h, d, acts, now_ms, key);
    assert(h1.undo.last().actions == undo_actions(d, acts));
    assert(h1.undo.drop_last() =~= h.undo);
    let (h2, d2, undone) = spec_undo(h1, d1, t1);
    assert(h2.redo =~= seq![h2.redo.last()]);
    let (h3, d3, redone) = spec_redo(h2, d2, t2);
    assert(h3.undo.drop_last() =~= h.undo);
    assert(h3.redo =~= Seq::<LevelView>::empty());
}

/// Undoing a level whose actions are invertible in the current document and
/// then redoing gives back the document, the undo stack up to the redone
/// level's time and key, and the redo stack.
pub proof fn lemma_undo_then_redo(h: HistoryView, d: DocView, t1: u64, t2: u64)
    requires
        h.undo.len() > 0,
        run_invertible(d, h.undo.last().actions),
    ensures
        ({
            let (h2, d2, undone) = spec_undo(h, d, t1);
            let (h3, d3, redone) = spec_redo(h2, d2, t2);
            &&& undone
            &&& redone
            &&& d3 == d
            &&& h3.undo.len() == h.undo.len()
            &&& h3.undo.drop_last() == h.undo.drop_last()
            &&& h3.redo == h.redo
        }),
{
    let acts = h.undo.last().actions;
    lemma_undo_run(d, acts);
    let (h2, d2, undone) = spec_undo(h, d, t1);
    let (h3, d3, redone) = spec_redo(h2, d2, t2);
    assert(h3.undo.drop_last() =~= h.undo.drop_last());
    assert(h3.redo =~= h.redo);
}

/// Redoing a level whose actions are invertible in the current document and
/// then undoing gives back the document, the redo stack up to the undone
/// level's time and key, and the undo stack.
pub proof fn lemma_redo_then_undo(h: HistoryView, d: DocView, t1: u64, t2: u64)
    requires
        h.redo.len() > 0,
        run_invertible(d, h.redo.last().actions),
    ensures
        ({
            let (h2, d2, redone) = spec_redo(h, d, t1);
            let (h3, d3, undone) = spec_undo(h2, d2, t2);
            &&& redone
            &&& undone
            &&& d3 == d
            &&& h3.redo.len() == h.redo.len()
            &&& h3.redo.drop_last() == h.redo.drop_last()
            &&& h3.undo == h.undo
        }),
{
    let acts = h.redo.last().actions;
    lemma_undo_run(d, acts);
    let (h2, d2, redone) = spec_redo(h, d, t1);
    let (h3, d3, undone) = spec_undo(h2, d2, t2);
    assert(h3.redo.drop_last() =~= h.redo.drop_last());
    assert(h3.undo =~= h.undo);
}

/// A commit folded into the top level (same key, within the window) adds no
/// level: every level keeps its actions and key, and only the top level's
/// time moves to the commit's time.
pub proof fn lemma_coalesced_commit(
    h: HistoryView,
    d: DocView,
    acts: Seq<ActionView>,
    now_ms: u64,
    key: Option<(Seq<char>, Seq<char>)>,
)
    requires
        coalesces(h, now_ms, key),
    ensures
        ({
            let (h1, d1) = spec_commit(h, d, acts, now_ms, key);
            &&& h1.undo.len() == h.undo.len()
            &&& forall|i: int|
                0 <= i < h.undo.len() ==> (#[trigger] h1.undo[i]).actions == h.undo[i].actions
                    && h1.undo[i].key == h.undo[i].key
            &&& h1.undo.last().time_ms == now_ms
            &&& h1.redo.len() == 0
        }),
{
}

/// The action creates an item.
pub open spec fn is_create(a: ActionView) -> bool {
    a is NodeCreate || a is EdgeCreate || a is LayerCreate
}

/// A list of actions that creates nothing is invertible in any document.
pub proof fn lemma_no_creates_invertible(d: DocView, acts: Seq<ActionView>)
    requires
        forall|i: int| 0 <= i < acts.len() ==> !is_create(#[trigger] acts[i]),
    ensures
        run_invertible(d, acts),
    decreases acts.len(),
{
    if acts.len() > 0 {
        assert forall|i: int| 0 <= i < acts.drop_last().len() implies !is_create(
            #[trigger] acts.drop_last()[i],
        ) by {
            assert(acts.drop_last()[i] == acts[i]);
        }
        lemma_no_creates_invertible(d, acts.drop_last());
        assert(!is_create(acts[acts.len() - 1]));
    }
}

pub open spec fn touches(id: Seq<char>) -> spec_fn(EdgeView) -> bool {
    |e: EdgeView| e.source == id || e.dest == id
}

pub open spec fn delete_edge_action() -> spec_fn(EdgeView) -> ActionView {
    |e: EdgeView| ActionView::EdgeDelete(e.id)
}

pub open spec fn has_parent(id: Seq<char>) -> spec_fn(NodeView) -> bool {
    |n: NodeView| n.parents.contains(id)
}

pub open spec fn other_than(id: Seq<char>) -> spec_fn(Seq<char>) -> bool {
    |x: Seq<char>| x != id
}

pub open spec fn drop_parent_action(id: Seq<char>) -> spec_fn(NodeView) -> ActionView {
    |n: NodeView| ActionView::NodeModify(NodeView { parents: n.parents.filter(other_than(id)), ..n })
}

/// The actions that delete a node along with everything that refers to it:
/// deleting each edge touching it (in document order), dropping it from the
/// parents of each node that lists it, then deleting the node.
pub open spec fn spec_delete_node_actions(d: DocView, id: Seq<char>) -> Seq<ActionView> {
    d.edges.filter(touches(id)).map_values(delete_edge_action()) + d.nodes.filter(
        has_parent(id),
    ).map_values(drop_parent_action(id)) + seq![ActionView::NodeDelete(id)]
}

pub open spec fn has_layer(id: Seq<char>) -> spec_fn(NodeView) -> bool {
    |n: NodeView| n.layers.contains(id)
}

pub open spec fn drop_layer_action(id: Seq<char>) -> spec_fn(NodeView) -> ActionView {
    |n: NodeView| ActionView::NodeModify(NodeView { layers: n.layers.filter(other_than(id)), ..n })
}

pub open spec fn in_layer(id: Seq<char>) -> spec_fn(EdgeView) -> bool {
    |e: EdgeView| e.layer == Some(id)
}

pub open spec fn clear_layer_action() -> spec_fn(EdgeView) -> ActionView {
    |e: EdgeView| ActionView::EdgeModify(EdgeView { layer: None, ..e })
}

/// The actions that delete a layer along with all references to it: dropping
/// it from each node in it, clearing it from each edge in it, deselecting it
/// if it's selected, then deleting the layer.
pub open spec fn spec_delete_layer_actions(d: DocView, id: Seq<char>) -> Seq<ActionView> {
    d.nodes.filter(has_layer(id)).map_values(drop_layer_action(id)) + d.edges.filter(
        in_layer(id),
    ).map_values(clear_layer_action()) + (if d.selected_layer == Some(id) {
        seq![ActionView::SelectLayer(None)]
    } else {
        Seq::empty()
    }) + seq![ActionView::LayerDelete(id)]
}

pub(crate) fn contains_node_id(v: &Vec<NodeId>, id: &NodeId) -> (r: bool)
    ensures
        r == node_ids_view(v@).contains(id@),
{
    for i in 0..v.len()
        invariant
            forall|j: int| 0 <= j < i ==> v@[j]@ != id@,
    {
        if v[i] == *id {
            assert(node_ids_view(v@)[i as int] == id@);
            return true;
        }
    }
    assert forall|j: int| 0 <= j < node_ids_view(v@).len() implies node_ids_view(v@)[j] != id@ by {
        assert(node_ids_view(v@)[j] == v@[j]@);
    }
    false
}

pub(crate) fn contains_layer_id(v: &Vec<LayerId>, id: &LayerId) -> (r: bool)
    ensures
        r == layer_ids_view(v@).contains(id@),
{
    for i in 0..v.len()
        invariant
            forall|j: int| 0 <= j < i ==> v@[j]@ != id@,
    {
        if v[i] == *id {
            assert(layer_ids_view(v@)[i as int] == id@);
            return true;
        }
    }
    assert forall|j: int| 0 <= j < layer_ids_view(v@).len() implies layer_ids_view(v@)[j] != id@ by {
        assert(layer_ids_view(v@)[j] == v@[j]@);
    }
    false
}

pub(crate) fn without_node_id(v: &Vec<NodeId>, id: &NodeId) -> (r: Vec<NodeId>)
    ensures
        node_ids_view(r@) == node_ids_view(v@).filter(other_than(id@)),
{
    let ghost s = node_ids_view(v@);
    let ghost pred = other_than(id@);
    let mut r: Vec<NodeId> = Vec::new();
    for i in 0..v.len()
        invariant
            s == node_ids_view(v@),
            s.len() == v.len(),
            pred == other_than(id@),
            node_ids_view(r@) == s.take(i as int).filter(pred),
    {
        proof {
            assert(s[i as int] == v@[i as int]@);
            assert(s.take(i + 1) =~= s.take(i as int).push(s[i as int]));
            s.take(i as int).lemma_filter_push(s[i as int], pred);
        }
        if v[i] != *id {
            let c = v[i].clone();
            proof {
                lemma_view_push(r@, c);
            }
            r.push(c);
        }
    }
    assert(s.take(v.len() as int) =~= s);
    r
}

pub(crate) fn without_layer_id(v: &Vec<LayerId>, id: &LayerId) -> (r: Vec<LayerId>)
    ensures
        layer_ids_view(r@) == layer_ids_view(v@).filter(other_than(id@)),
{
    let ghost s = layer_ids_view(v@);
    let ghost pred = other_than(id@);
    let mut r: Vec<LayerId> = Vec::new();
    for i in 0..v.len()
        invariant
            s == layer_ids_view(v@),
            s.len() == v.len(),
            pred == other_than(id@),
            layer_ids_view(r@) == s.take(i as int).filter(pred),
    {
        proof {
            assert(s[i as int] == v@[i as int]@);
            assert(s.take(i + 1) =~= s.take(i as int).push(s[i as int]));
            s.take(i as int).lemma_filter_push(s[i as int], pred);
        }
        if v[i] != *id {
            let c = v[i].clone();
            proof {
                lemma_view_push(r@, c);
            }
            r.push(c);
        }
    }
    assert(s.take(v.len() as int) =~= s);
    r
}

/// Build the actions for deleting a node along with everything that refers to
/// it (edges, parent references).
pub fn delete_node_actions(doc: &Document, id: &NodeId) -> (r: Vec<Action>)
    ensures
        actions_view(r@) == spec_delete_node_actions(doc@, id@),
{
    let ghost d = doc@;
    let ghost tf = touches(id@);
    let ghost ef = delete_edge_action();
    let mut out: Vec<Action> = Vec::new();
    for i in 0..doc.edges.len()
        invariant
            d == doc@,
            tf == touches(id@),
            ef == delete_edge_action(),
            actions_view(out@) == d.edges.take(i as int).filter(tf).map_values(ef),
    {
        let e = &doc.edges[i];
        proof {
            assert(d.edges[i as int] == e@);
            assert(d.edges.take(i + 1) =~= d.edges.take(i as int).push(d.edges[i as int]));
            d.edges.take(i as int).lemma_filter_push(d.edges[i as int], tf);
        }
        if e.source == *id || e.dest == *id {
            let a = Action::EdgeDelete(e.id.clone());
            proof {
                lemma_view_push(out@, a);
                assert(d.edges.take(i as int).filter(tf).push(e@).map_values(ef) =~= d.edges.take(
                    i as int,
                ).filter(tf).map_values(ef).push(ef(e@)));
            }
            out.push(a);
        }
    }
    assert(d.edges.take(doc.edges.len() as int) =~= d.edges);
    let ghost part1 = actions_view(out@);
    let ghost hp = has_parent(id@);
    let ghost mf = drop_parent_action(id@);
    assert(d.nodes.take(0).filter(hp).map_values(mf) =~= Seq::<ActionView>::empty()) by {
        reveal(Seq::filter);
    }
    assert(part1 + Seq::<ActionView>::empty() =~= part1);
    for i in 0..doc.nodes.len()
        invariant
            d == doc@,
            hp == has_parent(id@),
            mf == drop_parent_action(id@),
            actions_view(out@) == part1 + d.nodes.take(i as int).filter(hp).map_values(mf),
    {
        let n = &doc.nodes[i];
        proof {
            assert(d.nodes[i as int] == n@);
            assert(d.nodes.take(i + 1) =~= d.nodes.take(i as int).push(d.nodes[i as int]));
            d.nodes.take(i as int).lemma_filter_push(d.nodes[i as int], hp);
        }
        if contains_node_id(&n.parents, id) {
            let m = Node {
                id: n.id.clone(),
                text: n.text.clone(),
                layers: crate::document::clone_layer_ids(&n.layers),
                parents: without_node_id(&n.parents, id),
            };
            let a = Action::NodeModify(m);
            assert(a@ == mf(n@));
            proof {
                lemma_view_push(out@, a);
                let prev = d.nodes.take(i as int).filter(hp);
                assert(prev.push(n@).map_values(mf) =~= prev.map_values(mf).push(mf(n@)));
                assert(part1 + prev.map_values(mf).push(mf(n@)) =~= (part1 + prev.map_values(mf)).push(
                    mf(n@),
                ));
            }
            out.push(a);
        }
    }
    assert(d.nodes.take(doc.nodes.len() as int) =~= d.nodes);
    let a = Action::NodeDelete(id.clone());
    proof {
        lemma_view_push(out@, a);
    }
    out.push(a);
    assert(actions_view(out@) =~= spec_delete_node_actions(d, id@));
    out
}

/// Build the actions for deleting a layer along with all references to it.
pub fn delete_layer_actions(doc: &Document, id: &LayerId) -> (r: Vec<Action>)
    ensures
        actions_view(r@) == spec_delete_layer_actions(doc@, id@),
{
    let ghost d = doc@;
    let ghost hl = has_layer(id@);
    let ghost mf = drop_layer_action(id@);
    let mut out: Vec<Action> = Vec::new();
    for i in 0..doc.nodes.len()
        invariant
            d == doc@,
            hl == has_layer(id@),
            mf == drop_layer_action(id@),
            actions_view(out@) == d.nodes.take(i as int).filter(hl).map_values(mf),
    {
        let n = &doc.nodes[i];
        proof {
            assert(d.nodes[i as int] == n@);
            assert(d.nodes.take(i + 1) =~= d.nodes.take(i as int).push(d.nodes[i as int]));
            d.nodes.take(i as int).lemma_filter_push(d.nodes[i as int], hl);
        }
        if contains_layer_id(&n.layers, id) {
            let m = Node {
                id: n.id.clone(),
                text: n.text.clone(),
                layers: without_layer_id(&n.layers, id),
                parents: clone_node_ids(&n.parents),
            };
            let a = Action::NodeModify(m);
            assert(a@ == mf(n@));
            proof {
                lemma_view_push(out@, a);
                let prev = d.nodes.take(i as int).filter(hl);
                assert(prev.push(n@).map_values(mf) =~= prev.map_values(mf).push(mf(n@)));
            }
            out.push(a);
        }
    }
    assert(d.nodes.take(doc.nodes.len() as int) =~= d.nodes);
    let ghost part1 = actions_view(out@);
    let ghost il = in_layer(id@);
    let ghost cf = clear_layer_action();
    assert(d.edges.take(0).filter(il).map_values(cf) =~= Seq::<ActionView>::empty()) by {
        reveal(Seq::filter);
    }
    assert(part1 + Seq::<ActionView>::empty() =~= part1);
    for i in 0..doc.edges.len()
        invariant
            d == doc@,
            il == in_layer(id@),
            cf == clear_layer_action(),
            actions_view(out@) == part1 + d.edges.take(i as int).filter(il).map_values(cf),
    {
        let e = &doc.edges[i];
        proof {
            assert(d.edges[i as int] == e@);
            assert(d.edges.take(i + 1) =~= d.edges.take(i as int).push(d.edges[i as int]));
            d.edges.take(i as int).lemma_filter_push(d.edges[i as int], il);
        }
        let in_it = match &e.layer {
            Some(l) => *l == *id,
            None => false,
        };
        if in_it {
            let mut c = e.clone();
            c.layer = None;
            let a = Action::EdgeModify(c);
            assert(a@ == cf(e@));
            proof {
                lemma_view_push(out@, a);
                let prev = d.edges.take(i as int).filter(il);
                assert(prev.push(e@).map_values(cf) =~= prev.map_values(cf).push(cf(e@)));
                assert(part1 + prev.map_values(cf).push(cf(e@)) =~= (part1 + prev.map_values(cf)).push(
                    cf(e@),
                ));
            }
            out.push(a);
        }
    }
    assert(d.edges.take(doc.edges.len() as int) =~= d.edges);
    let ghost part2 = actions_view(out@);
    let selected = match &doc.selected_layer {
        Some(l) => *l == *id,
        None => false,
    };
    if selected {
        let a = Action::SelectLayer(None);
        proof {
            lemma_view_push(out@, a);
        }
        out.push(a);
    }
    let a = Action::LayerDelete(id.clone());
    proof {
        lemma_view_push(out@, a);
    }
    out.push(a);
    assert(actions_view(out@) =~= spec_delete_layer_actions(d, id@));
    out
}

/// The actions that delete a node with its references are invertible in the
/// document they were built from, so committing them can always be undone.
pub proof fn lemma_delete_node_actions_invertible(d: DocView, id: Seq<char>)
    ensures
        run_invertible(d, spec_delete_node_actions(d, id)),
{
    let acts = spec_delete_node_actions(d, id);
    assert forall|i: int| 0 <= i < acts.len() implies !is_create(#[trigger] acts[i]) by {
        let a1 = d.edges.filter(touches(id)).map_values(delete_edge_action());
        let a2 = d.nodes.filter(has_parent(id)).map_values(drop_parent_action(id));
        if i < a1.len() {
        } else if i < a1.len() + a2.len() {
        } else {
        }
    }
    lemma_no_creates_invertible(d, acts);
}

/// The actions that delete a layer with its references are invertible in
/// the document they were built from, so committing them can always be
/// undone.
pub proof fn lemma_delete_layer_actions_invertible(d: DocView, id: Seq<char>)
    ensures
        run_invertible(d, spec_delete_layer_actions(d, id)),
{
    let acts = spec_delete_layer_actions(d, id);
    assert forall|i: int| 0 <= i < acts.len() implies !is_create(#[trigger] acts[i]) by {
        let a1 = d.nodes.filter(has_layer(id)).map_values(drop_layer_action(id));
        let a2 = d.edges.filter(in_layer(id)).map_values(clear_layer_action());
        if i < a1.len() {
        } else if i < a1.len() + a2.len() {
        } else {
        }
    }
    lemma_no_creates_invertible(d, acts);
}

/// An action whose inverse, inverted again, is the action itself: any
/// deletion, change or layer selection, and a creation at an index within
/// its list of an id that list doesn't hold yet.
pub open spec fn reinvertible(d: DocView, a: ActionView) -> bool {
    match a {
        ActionView::NodeCreate { node, index } => index matches Some(i) && i <= d.nodes.len()
            && !crate::document::node_ids(d.nodes).contains(node.id),
        ActionView::EdgeCreate { edge, index } => index matches Some(i) && i <= d.edges.len()
            && !crate::document::edge_ids(d.edges).contains(edge.id),
        ActionView::LayerCreate { layer, index } => index matches Some(i) && i <= d.layers.len()
            && !crate::document::layer_ids(d.layers).contains(layer.id),
        _ => true,
    }
}

/// The inverse of an action's inverse is the action itself: applying the
/// inverse to the document the action produced gives the action back as
/// its own inverse.
pub proof fn lemma_inverse_of_inverse(d: DocView, a: ActionView)
    requires
        reinvertible(d, a),
    ensures
        spec_apply(d, a).1 matches Some(inv) ==> spec_apply(spec_apply(d, a).0, inv).1 == Some(a),
{
    broadcast use crate::document::lemma_index_of;

    let d2 = spec_apply(d, a).0;
    match a {
        ActionView::NodeCreate { node, index } => {
            let k = insert_at(index, d.nodes.len());
            let ids = crate::document::node_ids(d2.nodes);
            assert forall|j: int| 0 <= j < k implies ids[j] != node.id by {
                assert(d2.nodes[j] == d.nodes[j]);
                assert(crate::document::node_ids(d.nodes)[j] == d.nodes[j].id);
            }
            crate::document::lemma_index_of_unique(ids, node.id, k);
        },
        ActionView::EdgeCreate { edge, index } => {
            let k = insert_at(index, d.edges.len());
            let ids = crate::document::edge_ids(d2.edges);
            assert forall|j: int| 0 <= j < k implies ids[j] != edge.id by {
                assert(d2.edges[j] == d.edges[j]);
                assert(crate::document::edge_ids(d.edges)[j] == d.edges[j].id);
            }
            crate::document::lemma_index_of_unique(ids, edge.id, k);
        },
        ActionView::LayerCreate { layer, index } => {
            let k = insert_at(index, d.layers.len());
            let ids = crate::document::layer_ids(d2.layers);
            assert forall|j: int| 0 <= j < k implies ids[j] != layer.id by {
                assert(d2.layers[j] == d.layers[j]);
                assert(crate::document::layer_ids(d.layers)[j] == d.layers[j].id);
            }
            crate::document::lemma_index_of_unique(ids, layer.id, k);
        },
        ActionView::NodeDelete(id) => {
            let p = node_pos(d, id);
            if p >= 0 {
                assert(crate::document::node_ids(d.nodes)[p] == id);
            }
        },
        ActionView::EdgeDelete(id) => {
            let p = edge_pos(d, id);
            if p >= 0 {
                assert(crate::document::edge_ids(d.edges)[p] == id);
            }
        },
        ActionView::LayerDelete(id) => {
            let p = layer_pos(d, id);
            if p >= 0 {
                assert(crate::document::layer_ids(d.layers)[p] == id);
            }
        },
        ActionView::NodeModify(node) => {
            let p = node_pos(d, node.id);
            if p >= 0 {
                let ids = crate::document::node_ids(d.nodes);
                let ids2 = crate::document::node_ids(d2.nodes);
                assert(ids[p] == node.id);
                assert forall|j: int| 0 <= j < p implies ids2[j] != node.id by {
                    assert(ids[j] != node.id);
                }
                crate::document::lemma_index_of_unique(ids2, node.id, p);
            }
        },
        ActionView::EdgeModify(edge) => {
            let p = edge_pos(d, edge.id);
            if p >= 0 {
                let ids = crate::document::edge_ids(d.edges);
                let ids2 = crate::document::edge_ids(d2.edges);
                assert(ids[p] == edge.id);
                assert forall|j: int| 0 <= j < p implies ids2[j] != edge.id by {
                    assert(ids[j] != edge.id);
                }
                crate::document::lemma_index_of_unique(ids2, edge.id, p);
            }
        },
        ActionView::LayerModify(layer) => {
            let p = layer_pos(d, layer.id);
            if p >= 0 {
                let ids = crate::document::layer_ids(d.layers);
                let ids2 = crate::document::layer_ids(d2.layers);
                assert(ids[p] == layer.id);
                assert forall|j: int| 0 <= j < p implies ids2[j] != layer.id by {
                    assert(ids[j] != layer.id);
                }
                crate::document::lemma_index_of_unique(ids2, layer.id, p);
            }
        },
        ActionView::SelectLayer(_) => {},
    }
}

} // verus!
