//! What running the deletion actions leaves of a document whose ids are
//! unique: the deleted item is gone, the references to it are dropped, and
//! everything else stays as it was.
use crate::document::{
    edge_ids, edge_pos, layer_ids, layer_pos, lemma_index_of, lemma_index_of_unique, node_ids, node_pos, DocView,
    EdgeView, LayerView, NodeView,
};
use crate::undo::{
    clear_layer_action, delete_edge_action, drop_layer_action, drop_parent_action, has_layer, has_parent,
    in_layer, lemma_run_concat, other_than, spec_apply, spec_delete_layer_actions, spec_delete_node_actions,
    spec_run, touches, ActionView,
};
use vstd::prelude::*;

verus! {

/// No id occurs twice.
pub open spec fn unique_ids(ids: Seq<Seq<char>>) -> bool {
    forall|i: int, j: int| 0 <= i < j < ids.len() ==> ids[i] != ids[j]
}

/// A link that doesn't touch node `id`.
pub open spec fn misses(id: Seq<char>) -> spec_fn(EdgeView) -> bool {
    |e: EdgeView| !touches(id)(e)
}

/// A node other than `id`.
pub open spec fn node_other_than(id: Seq<char>) -> spec_fn(NodeView) -> bool {
    |n: NodeView| n.id != id
}

/// A layer other than `id`.
pub open spec fn layer_other_than(id: Seq<char>) -> spec_fn(LayerView) -> bool {
    |l: LayerView| l.id != id
}

/// The node without `id` among its parents.
pub open spec fn strip_parent(id: Seq<char>) -> spec_fn(NodeView) -> NodeView {
    |n: NodeView| NodeView { parents: n.parents.filter(other_than(id)), ..n }
}

/// The node without `id` among its layers.
pub open spec fn strip_layer(id: Seq<char>) -> spec_fn(NodeView) -> NodeView {
    |n: NodeView| NodeView { layers: n.layers.filter(other_than(id)), ..n }
}

/// The link out of layer `id` when it is in it.
pub open spec fn unlayer(id: Seq<char>) -> spec_fn(EdgeView) -> EdgeView {
    |e: EdgeView| if e.layer == Some(id) {
        EdgeView { layer: None, ..e }
    } else {
        e
    }
}

spec fn negate(p: spec_fn(EdgeView) -> bool) -> spec_fn(EdgeView) -> bool {
    |e: EdgeView| !p(e)
}

spec fn modify_node(f: spec_fn(NodeView) -> NodeView) -> spec_fn(NodeView) -> ActionView {
    |n: NodeView| ActionView::NodeModify(f(n))
}

spec fn modify_edge(f: spec_fn(EdgeView) -> EdgeView) -> spec_fn(EdgeView) -> ActionView {
    |e: EdgeView| ActionView::EdgeModify(f(e))
}

spec fn pick_node(p: spec_fn(NodeView) -> bool, f: spec_fn(NodeView) -> NodeView) -> spec_fn(NodeView) -> NodeView {
    |n: NodeView| if p(n) {
        f(n)
    } else {
        n
    }
}

spec fn pick_edge(p: spec_fn(EdgeView) -> bool, f: spec_fn(EdgeView) -> EdgeView) -> spec_fn(EdgeView) -> EdgeView {
    |e: EdgeView| if p(e) {
        f(e)
    } else {
        e
    }
}

proof fn lemma_run_push(d: DocView, acts: Seq<ActionView>, a: ActionView)
    ensures
        spec_run(d, acts.push(a)).0 == spec_apply(spec_run(d, acts).0, a).0,
{
    assert(acts.push(a).drop_last() =~= acts);
}

proof fn lemma_run_empty(d: DocView)
    ensures
        spec_run(d, Seq::<ActionView>::empty()).0 == d,
{
}

proof fn lemma_filter_empty<A>(p: spec_fn(A) -> bool)
    ensures
        Seq::<A>::empty().filter(p) == Seq::<A>::empty(),
{
    reveal(Seq::filter);
    assert(Seq::<A>::empty().filter(p) =~= Seq::<A>::empty());
}

/// Deleting, by id and in order, the links of the first `k` that `p`
/// picks leaves the other links in place.
proof fn lemma_delete_edges(d: DocView, p: spec_fn(EdgeView) -> bool, k: nat)
    requires
        k <= d.edges.len(),
        unique_ids(edge_ids(d.edges)),
    ensures
        spec_run(d, d.edges.take(k as int).filter(p).map_values(delete_edge_action())).0 == (DocView {
            edges: d.edges.take(k as int).filter(negate(p)) + d.edges.skip(k as int),
            ..d
        }),
    decreases k,
{
    let ids = edge_ids(d.edges);
    if k == 0 {
        lemma_filter_empty(p);
        lemma_filter_empty(negate(p));
        assert(d.edges.take(0) =~= Seq::<EdgeView>::empty());
        assert(Seq::<EdgeView>::empty().map_values(delete_edge_action()) =~= Seq::<ActionView>::empty());
        assert(Seq::<EdgeView>::empty() + d.edges.skip(0) =~= d.edges);
        assert((DocView { edges: d.edges, ..d }) == d);
    } else {
        let j = (k - 1) as int;
        lemma_delete_edges(d, p, (k - 1) as nat);
        let e = d.edges[j];
        let pre = d.edges.take(j);
        assert(d.edges.take(k as int) =~= pre.push(e));
        pre.lemma_filter_push(e, p);
        pre.lemma_filter_push(e, negate(p));
        let acts = pre.filter(p).map_values(delete_edge_action());
        let f = pre.filter(negate(p));
        let cur = DocView { edges: f + d.edges.skip(j), ..d };
        assert(d.edges.skip(j) =~= seq![e] + d.edges.skip(k as int));
        if p(e) {
            assert(pre.filter(p).push(e).map_values(delete_edge_action()) =~= acts.push(ActionView::EdgeDelete(e.id)));
            lemma_run_push(d, acts, ActionView::EdgeDelete(e.id));
            let cids = edge_ids(cur.edges);
            assert(cur.edges[f.len() as int] == e);
            assert forall|q: int| 0 <= q < f.len() implies cids[q] != e.id by {
                assert(f.contains(f[q]));
                pre.lemma_filter_contains_rev(negate(p), f[q]);
                let r = choose|r: int| 0 <= r < pre.len() && pre[r] == f[q];
                assert(ids[r] == d.edges[r].id && ids[j] == e.id);
                assert(cur.edges[q] == f[q]);
            }
            lemma_index_of_unique(cids, e.id, f.len() as int);
            assert(cur.edges.remove(f.len() as int) =~= f + d.edges.skip(k as int));
        } else {
            assert((f + d.edges.skip(j)) =~= f.push(e) + d.edges.skip(k as int));
        }
    }
}

/// Changing, by id and in order, the nodes of the first `k` that `p`
/// picks into `f` of them changes exactly those nodes.
proof fn lemma_modify_nodes(d: DocView, p: spec_fn(NodeView) -> bool, f: spec_fn(NodeView) -> NodeView, k: nat)
    requires
        k <= d.nodes.len(),
        unique_ids(node_ids(d.nodes)),
        forall|n: NodeView| #[trigger] f(n).id == n.id,
    ensures
        spec_run(d, d.nodes.take(k as int).filter(p).map_values(modify_node(f))).0 == (DocView {
            nodes: d.nodes.take(k as int).map_values(pick_node(p, f)) + d.nodes.skip(k as int),
            ..d
        }),
    decreases k,
{
    let ids = node_ids(d.nodes);
    if k == 0 {
        lemma_filter_empty(p);
        assert(d.nodes.take(0) =~= Seq::<NodeView>::empty());
        assert(Seq::<NodeView>::empty().map_values(modify_node(f)) =~= Seq::<ActionView>::empty());
        assert(Seq::<NodeView>::empty().map_values(pick_node(p, f)) + d.nodes.skip(0) =~= d.nodes);
        assert((DocView { nodes: d.nodes, ..d }) == d);
    } else {
        let j = (k - 1) as int;
        lemma_modify_nodes(d, p, f, (k - 1) as nat);
        let n = d.nodes[j];
        let pre = d.nodes.take(j);
        assert(d.nodes.take(k as int) =~= pre.push(n));
        pre.lemma_filter_push(n, p);
        let acts = pre.filter(p).map_values(modify_node(f));
        let done = pre.map_values(pick_node(p, f));
        let cur = DocView { nodes: done + d.nodes.skip(j), ..d };
        assert(d.nodes.skip(j) =~= seq![n] + d.nodes.skip(k as int));
        assert(pre.push(n).map_values(pick_node(p, f)) =~= done.push(pick_node(p, f)(n)));
        if p(n) {
            assert(pre.filter(p).push(n).map_values(modify_node(f)) =~= acts.push(ActionView::NodeModify(f(n))));
            lemma_run_push(d, acts, ActionView::NodeModify(f(n)));
            let cids = node_ids(cur.nodes);
            assert(cur.nodes[j] == n);
            assert forall|q: int| 0 <= q < j implies cids[q] != n.id by {
                assert(cur.nodes[q] == pick_node(p, f)(d.nodes[q]));
                assert(ids[q] == d.nodes[q].id && ids[j] == n.id);
            }
            assert(f(n).id == n.id);
            lemma_index_of_unique(cids, n.id, j);
            assert(cur.nodes.update(j, f(n)) =~= done.push(f(n)) + d.nodes.skip(k as int));
        } else {
            assert((done + d.nodes.skip(j)) =~= done.push(n) + d.nodes.skip(k as int));
        }
    }
}

/// Changing, by id and in order, the links of the first `k` that `p`
/// picks into `f` of them changes exactly those links.
proof fn lemma_modify_edges(d: DocView, p: spec_fn(EdgeView) -> bool, f: spec_fn(EdgeView) -> EdgeView, k: nat)
    requires
        k <= d.edges.len(),
        unique_ids(edge_ids(d.edges)),
        forall|e: EdgeView| #[trigger] f(e).id == e.id,
    ensures
        spec_run(d, d.edges.take(k as int).filter(p).map_values(modify_edge(f))).0 == (DocView {
            edges: d.edges.take(k as int).map_values(pick_edge(p, f)) + d.edges.skip(k as int),
            ..d
        }),
    decreases k,
{
    let ids = edge_ids(d.edges);
    if k == 0 {
        lemma_filter_empty(p);
        assert(d.edges.take(0) =~= Seq::<EdgeView>::empty());
        assert(Seq::<EdgeView>::empty().map_values(modify_edge(f)) =~= Seq::<ActionView>::empty());
        assert(Seq::<EdgeView>::empty().map_values(pick_edge(p, f)) + d.edges.skip(0) =~= d.edges);
        assert((DocView { edges: d.edges, ..d }) == d);
    } else {
        let j = (k - 1) as int;
        lemma_modify_edges(d, p, f, (k - 1) as nat);
        let e = d.edges[j];
        let pre = d.edges.take(j);
        assert(d.edges.take(k as int) =~= pre.push(e));
        pre.lemma_filter_push(e, p);
        let acts = pre.filter(p).map_values(modify_edge(f));
        let done = pre.map_values(pick_edge(p, f));
        let cur = DocView { edges: done + d.edges.skip(j), ..d };
        assert(d.edges.skip(j) =~= seq![e] + d.edges.skip(k as int));
        assert(pre.push(e).map_values(pick_edge(p, f)) =~= done.push(pick_edge(p, f)(e)));
        if p(e) {
            assert(pre.filter(p).push(e).map_values(modify_edge(f)) =~= acts.push(ActionView::EdgeModify(f(e))));
            lemma_run_push(d, acts, ActionView::EdgeModify(f(e)));
            let cids = edge_ids(cur.edges);
            assert(cur.edges[j] == e);
            assert forall|q: int| 0 <= q < j implies cids[q] != e.id by {
                assert(cur.edges[q] == pick_edge(p, f)(d.edges[q]));
                assert(ids[q] == d.edges[q].id && ids[j] == e.id);
            }
            assert(f(e).id == e.id);
            lemma_index_of_unique(cids, e.id, j);
            assert(cur.edges.update(j, f(e)) =~= done.push(f(e)) + d.edges.skip(k as int));
        } else {
            assert((done + d.edges.skip(j)) =~= done.push(e) + d.edges.skip(k as int));
        }
    }
}

/// Filtering out the one element that fails is removing it.
proof fn lemma_filter_remove<A>(s: Seq<A>, pred: spec_fn(A) -> bool, p: int)
    requires
        0 <= p < s.len(),
        !pred(s[p]),
        forall|q: int| 0 <= q < s.len() && q != p ==> pred(#[trigger] s[q]),
    ensures
        s.filter(pred) == s.remove(p),
{
    let a = s.take(p);
    let b = s.skip(p + 1);
    assert(s =~= a + seq![s[p]] + b);
    Seq::filter_distributes_over_add(a + seq![s[p]], b, pred);
    Seq::filter_distributes_over_add(a, seq![s[p]], pred);
    assert forall|q: int| 0 <= q < a.len() implies pred(#[trigger] a[q]) by {
        assert(a[q] == s[q]);
    }
    assert forall|q: int| 0 <= q < b.len() implies pred(#[trigger] b[q]) by {
        assert(b[q] == s[q + p + 1]);
    }
    crate::document::lemma_filter_all(a, pred);
    crate::document::lemma_filter_all(b, pred);
    assert(seq![s[p]] =~= Seq::<A>::empty().push(s[p]));
    Seq::<A>::empty().lemma_filter_push(s[p], pred);
    lemma_filter_empty(pred);
    assert(s.remove(p) =~= a + b);
    assert(a + Seq::<A>::empty() + b =~= a + b);
}

/// With `id` nowhere in `s`, dropping it changes nothing.
proof fn lemma_drop_absent(s: Seq<Seq<char>>, id: Seq<char>)
    requires
        !s.contains(id),
    ensures
        s.filter(other_than(id)) == s,
{
    assert forall|q: int| 0 <= q < s.len() implies other_than(id)(#[trigger] s[q]) by {
        if s[q] == id {
            assert(s.contains(id));
        }
    }
    crate::document::lemma_filter_all(s, other_than(id));
}

/// With `id` dropped, it is no longer there.
proof fn lemma_dropped(s: Seq<Seq<char>>, id: Seq<char>)
    ensures
        !s.filter(other_than(id)).contains(id),
{
    if s.filter(other_than(id)).contains(id) {
        let q = choose|q: int| 0 <= q < s.filter(other_than(id)).len() && s.filter(other_than(id))[q] == id;
        s.lemma_filter_pred(other_than(id), q);
    }
}

proof fn lemma_run_single(d: DocView, a: ActionView)
    ensures
        spec_run(d, seq![a]).0 == spec_apply(d, a).0,
{
    assert(seq![a] =~= Seq::<ActionView>::empty().push(a));
    lemma_run_push(d, Seq::<ActionView>::empty(), a);
}

/// Running the actions that delete node `id` leaves the document without
/// the node and the links touching it, with `id` dropped from every node's
/// parents, and everything else as it was.
pub proof fn lemma_delete_node_leaves(d: DocView, id: Seq<char>)
    requires
        unique_ids(node_ids(d.nodes)),
        unique_ids(edge_ids(d.edges)),
    ensures
        spec_run(d, spec_delete_node_actions(d, id)).0 == (DocView {
            nodes: d.nodes.filter(node_other_than(id)).map_values(strip_parent(id)),
            edges: d.edges.filter(misses(id)),
            ..d
        }),
        node_pos(spec_run(d, spec_delete_node_actions(d, id)).0, id) < 0,
        forall|i: int|
            0 <= i < spec_run(d, spec_delete_node_actions(d, id)).0.edges.len() ==> !touches(id)(
                #[trigger] spec_run(d, spec_delete_node_actions(d, id)).0.edges[i],
            ),
        forall|i: int|
            0 <= i < spec_run(d, spec_delete_node_actions(d, id)).0.nodes.len() ==> !(
            #[trigger] spec_run(d, spec_delete_node_actions(d, id)).0.nodes[i]).parents.contains(id),
{
    let ne = d.edges.len();
    let nn = d.nodes.len();
    let a = d.edges.filter(touches(id)).map_values(delete_edge_action());
    let b = d.nodes.filter(has_parent(id)).map_values(drop_parent_action(id));
    let c = seq![ActionView::NodeDelete(id)];
    assert(d.edges.take(ne as int) =~= d.edges);
    assert(d.nodes.take(nn as int) =~= d.nodes);
    lemma_delete_edges(d, touches(id), ne);
    assert(negate(touches(id)) =~= misses(id));
    assert(d.edges.skip(ne as int) =~= Seq::<EdgeView>::empty());
    let d1 = DocView { edges: d.edges.filter(misses(id)), ..d };
    assert(d.edges.filter(misses(id)) + Seq::<EdgeView>::empty() =~= d.edges.filter(misses(id)));
    assert(spec_run(d, a).0 == d1);
    assert(drop_parent_action(id) =~= modify_node(strip_parent(id)));
    lemma_modify_nodes(d1, has_parent(id), strip_parent(id), nn);
    let stripped = d.nodes.map_values(strip_parent(id));
    assert(d.nodes.map_values(pick_node(has_parent(id), strip_parent(id))) =~= stripped) by {
        assert forall|q: int| 0 <= q < nn implies #[trigger] pick_node(has_parent(id), strip_parent(id))(d.nodes[q])
            == strip_parent(id)(d.nodes[q]) by {
            if !d.nodes[q].parents.contains(id) {
                lemma_drop_absent(d.nodes[q].parents, id);
                assert(strip_parent(id)(d.nodes[q]) =~= d.nodes[q]);
            }
        }
    }
    assert(d.nodes.skip(nn as int) =~= Seq::<NodeView>::empty());
    assert(stripped + Seq::<NodeView>::empty() =~= stripped);
    let d2 = DocView { nodes: stripped, ..d1 };
    assert(spec_run(d1, b).0 == d2);
    lemma_run_concat(d, a, b);
    lemma_run_concat(d, a + b, c);
    lemma_run_single(d2, ActionView::NodeDelete(id));
    let r = DocView { nodes: d.nodes.filter(node_other_than(id)).map_values(strip_parent(id)), ..d1 };
    assert(node_ids(stripped) =~= node_ids(d.nodes));
    lemma_index_of(node_ids(d.nodes), id);
    let p = node_pos(d, id);
    assert(node_pos(d2, id) == p);
    if p >= 0 {
        assert(node_ids(d.nodes)[p] == id);
        assert forall|q: int| 0 <= q < nn && q != p implies node_other_than(id)(#[trigger] d.nodes[q]) by {
            assert(node_ids(d.nodes)[q] == d.nodes[q].id);
            if q < p {
                assert(node_ids(d.nodes)[q] != node_ids(d.nodes)[p]);
            } else {
                assert(node_ids(d.nodes)[p] != node_ids(d.nodes)[q]);
            }
        }
        lemma_filter_remove(d.nodes, node_other_than(id), p);
        assert(d.nodes.remove(p).map_values(strip_parent(id)) =~= stripped.remove(p));
        assert(spec_apply(d2, ActionView::NodeDelete(id)).0 == r);
    } else {
        assert forall|q: int| 0 <= q < nn implies node_other_than(id)(#[trigger] d.nodes[q]) by {
            assert(node_ids(d.nodes)[q] == d.nodes[q].id);
        }
        crate::document::lemma_filter_all(d.nodes, node_other_than(id));
        assert(spec_apply(d2, ActionView::NodeDelete(id)).0 == r);
    }
    assert(spec_delete_node_actions(d, id) == a + b + c);
    let kept = d.nodes.filter(node_other_than(id));
    let rids = node_ids(r.nodes);
    assert forall|q: int| 0 <= q < rids.len() implies rids[q] != id by {
        assert(rids.len() == r.nodes.len() && r.nodes.len() == kept.len());
        assert(rids[q] == r.nodes[q].id);
        assert(r.nodes[q] == strip_parent(id)(kept[q]));
        d.nodes.lemma_filter_pred(node_other_than(id), q);
    }
    lemma_index_of(rids, id);
    assert forall|i: int| 0 <= i < r.edges.len() implies !touches(id)(#[trigger] r.edges[i]) by {
        d.edges.lemma_filter_pred(misses(id), i);
    }
    assert forall|i: int| 0 <= i < r.nodes.len() implies !(#[trigger] r.nodes[i]).parents.contains(id) by {
        lemma_dropped(kept[i].parents, id);
    }
}

/// Running the actions that delete layer `id` leaves the document without
/// the layer, with `id` dropped from every node's layers, every link in it
/// moved to no layer, and no longer selected; everything else stays as it
/// was.
pub proof fn lemma_delete_layer_leaves(d: DocView, id: Seq<char>)
    requires
        unique_ids(node_ids(d.nodes)),
        unique_ids(edge_ids(d.edges)),
        unique_ids(layer_ids(d.layers)),
    ensures
        spec_run(d, spec_delete_layer_actions(d, id)).0 == (DocView {
            layers: d.layers.filter(layer_other_than(id)),
            selected_layer: if d.selected_layer == Some(id) {
                None
            } else {
                d.selected_layer
            },
            nodes: d.nodes.map_values(strip_layer(id)),
            edges: d.edges.map_values(unlayer(id)),
        }),
        layer_pos(spec_run(d, spec_delete_layer_actions(d, id)).0, id) < 0,
        spec_run(d, spec_delete_layer_actions(d, id)).0.selected_layer != Some(id),
        forall|i: int|
            0 <= i < spec_run(d, spec_delete_layer_actions(d, id)).0.nodes.len() ==> !(
            #[trigger] spec_run(d, spec_delete_layer_actions(d, id)).0.nodes[i]).layers.contains(id),
        forall|i: int|
            0 <= i < spec_run(d, spec_delete_layer_actions(d, id)).0.edges.len() ==> (
            #[trigger] spec_run(d, spec_delete_layer_actions(d, id)).0.edges[i]).layer != Some(id),
{
    let ne = d.edges.len();
    let nn = d.nodes.len();
    let nl = d.layers.len();
    let a = d.nodes.filter(has_layer(id)).map_values(drop_layer_action(id));
    let b = d.edges.filter(in_layer(id)).map_values(clear_layer_action());
    let c = if d.selected_layer == Some(id) {
        seq![ActionView::SelectLayer(None)]
    } else {
        Seq::<ActionView>::empty()
    };
    let e = seq![ActionView::LayerDelete(id)];
    assert(d.edges.take(ne as int) =~= d.edges);
    assert(d.nodes.take(nn as int) =~= d.nodes);
    assert(d.edges.skip(ne as int) =~= Seq::<EdgeView>::empty());
    assert(d.nodes.skip(nn as int) =~= Seq::<NodeView>::empty());
    assert(drop_layer_action(id) =~= modify_node(strip_layer(id)));
    lemma_modify_nodes(d, has_layer(id), strip_layer(id), nn);
    let stripped = d.nodes.map_values(strip_layer(id));
    assert(d.nodes.map_values(pick_node(has_layer(id), strip_layer(id))) =~= stripped) by {
        assert forall|q: int| 0 <= q < nn implies #[trigger] pick_node(has_layer(id), strip_layer(id))(d.nodes[q])
            == strip_layer(id)(d.nodes[q]) by {
            if !d.nodes[q].layers.contains(id) {
                lemma_drop_absent(d.nodes[q].layers, id);
                assert(strip_layer(id)(d.nodes[q]) =~= d.nodes[q]);
            }
        }
    }
    assert(stripped + Seq::<NodeView>::empty() =~= stripped);
    let d1 = DocView { nodes: stripped, ..d };
    assert(spec_run(d, a).0 == d1);
    let clear = |x: EdgeView| EdgeView { layer: None, ..x };
    assert(clear_layer_action() =~= modify_edge(clear));
    lemma_modify_edges(d1, in_layer(id), clear, ne);
    assert(pick_edge(in_layer(id), clear) =~= unlayer(id));
    let unl = d.edges.map_values(unlayer(id));
    assert(unl + Seq::<EdgeView>::empty() =~= unl);
    let d2 = DocView { edges: unl, ..d1 };
    assert(spec_run(d1, b).0 == d2);
    let sel = if d.selected_layer == Some(id) {
        None
    } else {
        d.selected_layer
    };
    let d3 = DocView { selected_layer: sel, ..d2 };
    if d.selected_layer == Some(id) {
        lemma_run_single(d2, ActionView::SelectLayer(None));
    } else {
        lemma_run_empty(d2);
    }
    assert(spec_run(d2, c).0 == d3);
    lemma_run_concat(d, a, b);
    lemma_run_concat(d, a + b, c);
    lemma_run_concat(d, a + b + c, e);
    lemma_run_single(d3, ActionView::LayerDelete(id));
    let r = DocView { layers: d.layers.filter(layer_other_than(id)), ..d3 };
    lemma_index_of(layer_ids(d.layers), id);
    let p = layer_pos(d, id);
    assert(layer_pos(d3, id) == p);
    if p >= 0 {
        assert(layer_ids(d.layers)[p] == id);
        assert forall|q: int| 0 <= q < nl && q != p implies layer_other_than(id)(#[trigger] d.layers[q]) by {
            assert(layer_ids(d.layers)[q] == d.layers[q].id);
            if q < p {
                assert(layer_ids(d.layers)[q] != layer_ids(d.layers)[p]);
            } else {
                assert(layer_ids(d.layers)[p] != layer_ids(d.layers)[q]);
            }
        }
        lemma_filter_remove(d.layers, layer_other_than(id), p);
        assert(spec_apply(d3, ActionView::LayerDelete(id)).0 == r);
    } else {
        assert forall|q: int| 0 <= q < nl implies layer_other_than(id)(#[trigger] d.layers[q]) by {
            assert(layer_ids(d.layers)[q] == d.layers[q].id);
        }
        crate::document::lemma_filter_all(d.layers, layer_other_than(id));
        assert(spec_apply(d3, ActionView::LayerDelete(id)).0 == r);
    }
    assert(spec_delete_layer_actions(d, id) == a + b + c + e);
    let rids = layer_ids(r.layers);
    assert forall|q: int| 0 <= q < rids.len() implies rids[q] != id by {
        d.layers.lemma_filter_pred(layer_other_than(id), q);
    }
    lemma_index_of(rids, id);
    assert forall|i: int| 0 <= i < r.nodes.len() implies !(#[trigger] r.nodes[i]).layers.contains(id) by {
        lemma_dropped(d.nodes[i].layers, id);
    }
}

} // verus!
