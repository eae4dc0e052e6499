//! What the editor's commands change: the actions that link two nodes,
//! turn a link around and create a node, and where the commands that cycle
//! through a list move to.
use crate::document::{
    clone_node_ids, edge_ids, edge_pos, index_of, node_ids, node_ids_view, node_pos, opt_layer_view, DocView,
    Document, Edge, EdgeId, EdgeView, LayerId, Node, NodeId, NodeView,
};
use crate::ids::first_free_numbered;
use crate::undo::{actions_view, Action, ActionView};
use vstd::prelude::*;

verus! {

/// A link `e` the editor would add from `source` to `dest`: a fresh link
/// id, no text, and the selected layer.
pub open spec fn new_link(d: DocView, source: Seq<char>, dest: Seq<char>, e: EdgeView) -> bool {
    &&& first_free_numbered(edge_ids(d.edges), 'e', e.id)
    &&& e.text.len() == 0
    &&& e.source == source
    &&& e.dest == dest
    &&& e.layer == d.selected_layer
}

/// Some link already leads from `source` to `dest`.
pub open spec fn linked(d: DocView, source: Seq<char>, dest: Seq<char>) -> bool {
    exists|i: int| 0 <= i < d.edges.len() && d.edges[i].source == source && d.edges[i].dest == dest
}

/// The selected layer, if any.
fn selected_layer(doc: &Document) -> (r: Option<LayerId>)
    ensures
        opt_layer_view(r) == doc@.selected_layer,
{
    match &doc.selected_layer {
        Some(l) => Some(l.clone()),
        None => None,
    }
}

/// The actions that link `start` to `end`: none when they are the same
/// node or already linked that way, else the creation of a fresh link.
pub fn link_actions(doc: &Document, start: &NodeId, end: &NodeId) -> (r: Vec<Action>)
    ensures
        if start@ == end@ || linked(doc@, start@, end@) {
            r@.len() == 0
        } else {
            &&& r@.len() == 1
            &&& r@[0]@ matches ActionView::EdgeCreate { edge, index } && index is None && new_link(
                doc@,
                start@,
                end@,
                edge,
            )
        },
{
    if *start == *end {
        return Vec::new();
    }
    for i in 0..doc.edges.len()
        invariant
            forall|j: int| 0 <= j < i ==> !(doc@.edges[j].source == start@ && doc@.edges[j].dest == end@),
    {
        let x = &doc.edges[i];
        assert(doc@.edges[i as int] == x@);
        if x.source == *start && x.dest == *end {
            return Vec::new();
        }
    }
    let edge = Edge {
        id: doc.new_edge_id(),
        text: String::new(),
        source: start.clone(),
        dest: end.clone(),
        layer: selected_layer(doc),
    };
    let mut r: Vec<Action> = Vec::new();
    r.push(Action::EdgeCreate { edge: edge, index: None });
    r
}


/// The actions that turn the link `edge` around: a change of the link
/// with its ends swapped, or none when no link has that id.
pub fn reverse_actions(doc: &Document, edge: &EdgeId) -> (r: Vec<Action>)
    ensures
        actions_view(r@) == if edge_pos(doc@, edge@) >= 0 {
            let e = doc@.edges[edge_pos(doc@, edge@)];
            seq![ActionView::EdgeModify(EdgeView { source: e.dest, dest: e.source, ..e })]
        } else {
            Seq::empty()
        },
{
    let mut r: Vec<Action> = Vec::new();
    match doc.edge(edge) {
        Some(e) => {
            let x = Edge {
                id: e.id.clone(),
                text: e.text.clone(),
                source: e.dest.clone(),
                dest: e.source.clone(),
                layer: crate::document::clone_opt_layer(&e.layer),
            };
            r.push(Action::EdgeModify(x));
            assert(actions_view(r@) =~= seq![r@[0]@]);
        },
        None => {
            assert(actions_view(r@) =~= Seq::<ActionView>::empty());
        },
    }
    r
}

/// A node `n` the editor would create next to `reference`: a fresh node id,
/// no text, the selected layer as its only layer (none if no layer is
/// selected), and the parents of `reference` (none if it doesn't exist).
pub open spec fn new_node(d: DocView, reference: Seq<char>, n: NodeView) -> bool {
    &&& first_free_numbered(node_ids(d.nodes), 'n', n.id)
    &&& n.text.len() == 0
    &&& n.layers == match d.selected_layer {
        Some(l) => seq![l],
        None => Seq::<Seq<char>>::empty(),
    }
    &&& n.parents == if node_pos(d, reference) >= 0 {
        d.nodes[node_pos(d, reference)].parents
    } else {
        Seq::<Seq<char>>::empty()
    }
}

/// `acts` create a node with id `id` next to `reference`, linked to `from`
/// when there is one (towards `from` when `inward`, else away from it).
pub open spec fn creates(
    d: DocView,
    from: Option<Seq<char>>,
    reference: Seq<char>,
    inward: bool,
    id: Seq<char>,
    acts: Seq<ActionView>,
) -> bool {
    &&& acts.len() == if from is Some {
        2int
    } else {
        1int
    }
    &&& acts[0] matches ActionView::NodeCreate { node, index } && index is None && node.id == id && new_node(
        d,
        reference,
        node,
    )
    &&& from matches Some(f) ==> acts[1] matches ActionView::EdgeCreate { edge, index } && index is None
        && new_link(
        d,
        if inward {
            id
        } else {
            f
        },
        if inward {
            f
        } else {
            id
        },
        edge,
    )
}

/// The actions that create a node next to `reference`, linked to `from`
/// when there is one (towards `from` when `inward`, else away from it),
/// and the new node's id.
pub fn create_actions(doc: &Document, from: &Option<NodeId>, reference: &NodeId, inward: bool) -> (r: (
    NodeId,
    Vec<Action>,
))
    ensures
        creates(doc@, crate::selection::opt_id(*from), reference@, inward, r.0@, actions_view(r.1@)),
{
    let id = doc.new_node_id();
    let mut layers: Vec<LayerId> = Vec::new();
    if let Some(l) = &doc.selected_layer {
        layers.push(l.clone());
    }
    assert(crate::document::layer_ids_view(layers@) =~= match doc@.selected_layer {
        Some(l) => seq![l],
        None => Seq::<Seq<char>>::empty(),
    });
    let parents = match doc.node(reference) {
        Some(n) => clone_node_ids(&n.parents),
        None => Vec::new(),
    };
    assert(node_ids_view(parents@) =~= if node_pos(doc@, reference@) >= 0 {
        doc@.nodes[node_pos(doc@, reference@)].parents
    } else {
        Seq::<Seq<char>>::empty()
    });
    let node = Node { id: id.clone(), text: String::new(), layers: layers, parents: parents };
    let mut actions: Vec<Action> = Vec::new();
    actions.push(Action::NodeCreate { node: node, index: None });
    if let Some(f) = from {
        let (source, dest) = if inward {
            (id.clone(), f.clone())
        } else {
            (f.clone(), id.clone())
        };
        let edge = Edge {
            id: doc.new_edge_id(),
            text: String::new(),
            source: source,
            dest: dest,
            layer: selected_layer(doc),
        };
        actions.push(Action::EdgeCreate { edge: edge, index: None });
    }
    (id, actions)
}

/// One step along a cycle of `n` positions, forward or back.
pub open spec fn spec_cyclic_step(i: int, n: int, forward: bool) -> int {
    if forward {
        (i + 1) % n
    } else {
        (i + n - 1) % n
    }
}

/// The position one step from `i` along a cycle of `n` positions.
pub fn cyclic_step(i: usize, n: usize, forward: bool) -> (r: usize)
    requires
        i < n,
    ensures
        r == spec_cyclic_step(i as int, n as int, forward),
        r < n,
{
    if forward {
        (i + 1) % n
    } else if i == 0 {
        assert((0 + n - 1) % (n as int) == n - 1) by (nonlinear_arith)
            requires
                n > 0,
        ;
        n - 1
    } else {
        assert((i + n - 1) % (n as int) == i - 1) by (nonlinear_arith)
            requires
                0 < i < n,
        ;
        i - 1
    }
}

/// The island to move to among `n`: the first when none is current, else
/// the next or previous one, cyclically.
pub fn island_target(current: Option<usize>, n: usize, forward: bool) -> (r: usize)
    requires
        n > 0,
        current matches Some(i) ==> i < n,
    ensures
        r == match current {
            None => 0,
            Some(i) => spec_cyclic_step(i as int, n as int, forward),
        },
        r < n,
{
    match current {
        None => 0,
        Some(i) => cyclic_step(i, n, forward),
    }
}

/// The node after `current` in `ids`, cyclically: the first one when
/// there is no current node or it isn't in the list; none for an empty
/// list.
pub open spec fn spec_cycle_next(ids: Seq<Seq<char>>, current: Option<Seq<char>>) -> Option<Seq<char>> {
    if ids.len() == 0 {
        None
    } else {
        Some(
            match current {
                Some(c) => if index_of(ids, c) >= 0 {
                    ids[spec_cyclic_step(index_of(ids, c), ids.len() as int, true)]
                } else {
                    ids[0]
                },
                None => ids[0],
            },
        )
    }
}

/// The node after `current` in `list`, cyclically: the first one when
/// there is no current node or it isn't in the list; none for an empty
/// list.
pub fn cycle_next(list: &[NodeId], current: &Option<NodeId>) -> (r: Option<NodeId>)
    ensures
        crate::selection::opt_id(r) == spec_cycle_next(node_ids_view(list@), crate::selection::opt_id(*current)),
{
    let ghost ids = node_ids_view(list@);
    if list.len() == 0 {
        return None;
    }
    assert(ids[0] == list@[0]@);
    let c = match current {
        Some(c) => c,
        None => {
            return Some(list[0].clone());
        },
    };
    proof {
        crate::document::lemma_index_of(ids, c@);
    }
    for i in 0..list.len()
        invariant
            ids == node_ids_view(list@),
            list@.len() > 0,
            *current == Some(*c),
            forall|j: int| 0 <= j < i ==> ids[j] != c@,
    {
        assert(ids[i as int] == list@[i as int]@);
        if list[i] == *c {
            proof {
                crate::document::lemma_index_of_unique(ids, c@, i as int);
            }
            let j = cyclic_step(i, list.len(), true);
            assert(ids.len() == list@.len());
            assert(ids[j as int] == list@[j as int]@);
            return Some(list[j].clone());
        }
    }
    proof {
        if index_of(ids, c@) >= 0 {
            assert(ids[index_of(ids, c@)] == c@);
        }
    }
    Some(list[0].clone())
}


/// The search result to show after moving `delta` places from `index`
/// among `n` results, wrapping around at either end; none when there are
/// no results.
pub fn search_index_after(n: usize, index: usize, delta: i64) -> (r: Option<usize>)
    requires
        n <= i64::MAX,
        index <= i64::MAX,
        i64::MIN <= index + delta <= i64::MAX,
    ensures
        r == if n == 0 {
            None::<usize>
        } else {
            Some(((index + delta) % (n as int)) as usize)
        },
{
    if n == 0 {
        return None;
    }
    let total: i128 = index as i128 + delta as i128;
    let m: u128 = n as u128;
    if total >= 0 {
        let r = (total as u128) % m;
        return Some(r as usize);
    }
    let a: u128 = ((0 - total) as u128) % m;
    let r: u128 = if a == 0 {
        0
    } else {
        m - a
    };
    proof {
        let t = total as int;
        let mi = m as int;
        let k = (-t) / mi;
        vstd::arithmetic::div_mod::lemma_fundamental_div_mod(-t, mi);
        assert(-t == mi * k + a as int);
        if a == 0 {
            assert(t == (-k) * mi + 0) by (nonlinear_arith)
                requires
                    -t == mi * k,
            ;
            vstd::arithmetic::div_mod::lemma_fundamental_div_mod_converse(t, mi, -k, 0);
        } else {
            assert(t == (-k - 1) * mi + (mi - a)) by (nonlinear_arith)
                requires
                    -t == mi * k + a,
            ;
            vstd::arithmetic::div_mod::lemma_fundamental_div_mod_converse(t, mi, -k - 1, mi - a);
        }
    }
    Some(r as usize)
}

} // verus!
