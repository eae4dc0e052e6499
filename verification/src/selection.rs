//! The selection: an optional anchor node and a primary node, the link
//! chosen between them, the editor mode they leave open, and the history of
//! recently selected nodes.
use crate::document::{
    edge_ids, edge_pos, index_of, joins, node_ids_view, node_pos, DocView, Document, EdgeId, EdgeView, NodeId,
};
use crate::paths::{connecting, edge_id_views, spec_connecting};
use crate::widget::{Mode, ModeView};
use vstd::prelude::*;

verus! {

pub open spec fn opt_id(o: Option<NodeId>) -> Option<Seq<char>> {
    match o {
        Some(n) => Some(n@),
        None => None,
    }
}

/// Either nothing is selected, or a primary (end) node, optionally with an
/// anchor (start) node that differs from it.
pub open spec fn selection_ok(start: Option<Seq<char>>, end: Option<Seq<char>>) -> bool {
    start is Some ==> end is Some && start != end
}

/// A lone anchor becomes the primary; an anchor equal to the primary is
/// dropped; anything else stays.
pub open spec fn spec_normalize(start: Option<Seq<char>>, end: Option<Seq<char>>) -> (
    Option<Seq<char>>,
    Option<Seq<char>>,
) {
    match start {
        Some(s) => match end {
            None => (None, Some(s)),
            Some(e) => if s == e {
                (None, Some(e))
            } else {
                (start, end)
            },
        },
        None => (start, end),
    }
}

/// The selection that asking for anchor `start` and primary `end` leaves.
pub fn normalize_selection(start: Option<NodeId>, end: Option<NodeId>) -> (r: (Option<NodeId>, Option<NodeId>))
    ensures
        (opt_id(r.0), opt_id(r.1)) == spec_normalize(opt_id(start), opt_id(end)),
{
    match start {
        Some(s) => match end {
            None => (None, Some(s)),
            Some(e) => {
                if s == e {
                    (None, Some(e))
                } else {
                    (Some(s), Some(e))
                }
            },
        },
        None => (None, end),
    }
}

/// Whatever is asked for, the selection left satisfies the selection
/// invariant.
pub proof fn lemma_normalize_ok(start: Option<Seq<char>>, end: Option<Seq<char>>)
    ensures
        selection_ok(spec_normalize(start, end).0, spec_normalize(start, end).1),
{
}

/// A selection that already satisfies the invariant is left as it is, so
/// normalizing twice is normalizing once.
pub proof fn lemma_normalize_keeps_valid(start: Option<Seq<char>>, end: Option<Seq<char>>)
    ensures
        selection_ok(start, end) ==> spec_normalize(start, end) == (start, end),
        spec_normalize(spec_normalize(start, end).0, spec_normalize(start, end).1) == spec_normalize(start, end),
{
}

/// The node the primary is measured against: the anchor, else the primary.
pub fn anchor_node(start: &Option<NodeId>, end: &Option<NodeId>) -> (r: Option<NodeId>)
    ensures
        opt_id(r) == if start is Some {
            opt_id(*start)
        } else {
            opt_id(*end)
        },
{
    match start {
        Some(s) => Some(s.clone()),
        None => match end {
            Some(e) => Some(e.clone()),
            None => None,
        },
    }
}

/// Primary click on `id`: it becomes the whole selection, or is deselected
/// if it already is.
pub fn click_select(start: &Option<NodeId>, end: &Option<NodeId>, id: &NodeId) -> (r: (
    Option<NodeId>,
    Option<NodeId>,
))
    ensures
        (opt_id(r.0), opt_id(r.1)) == if opt_id(*end) == Some(id@) && start is None {
            (None::<Seq<char>>, None::<Seq<char>>)
        } else {
            (None, Some(id@))
        },
{
    let lone = match end {
        Some(e) => *e == *id && start.is_none(),
        None => false,
    };
    if lone {
        (None, None)
    } else {
        normalize_selection(None, Some(id.clone()))
    }
}

/// Secondary click on `id`: it becomes the primary with the previous
/// selection behind it as the anchor; clicking the primary again drops it,
/// promoting the anchor.
pub fn click_extend(start: &Option<NodeId>, end: &Option<NodeId>, id: &NodeId) -> (r: (
    Option<NodeId>,
    Option<NodeId>,
))
    ensures
        (opt_id(r.0), opt_id(r.1)) == if opt_id(*end) == Some(id@) {
            spec_normalize(opt_id(*start), None)
        } else {
            spec_normalize(
                if start is Some {
                    opt_id(*start)
                } else {
                    opt_id(*end)
                },
                Some(id@),
            )
        },
{
    let again = match end {
        Some(e) => *e == *id,
        None => false,
    };
    if again {
        let s = match start {
            Some(s) => Some(s.clone()),
            None => None,
        };
        normalize_selection(s, None)
    } else {
        normalize_selection(anchor_node(start, end), Some(id.clone()))
    }
}


/// How many recently selected nodes are remembered.
pub const RECENT_CAP: usize = 200;

pub open spec fn other_than(x: Seq<char>) -> spec_fn(Seq<char>) -> bool {
    |y: Seq<char>| y != x
}

/// The history after selecting `x`: `x` moves to the end (most recent),
/// and the oldest entry goes once the history holds more than the cap.
pub open spec fn spec_touch(r: Seq<Seq<char>>, x: Seq<char>) -> Seq<Seq<char>> {
    let t = r.filter(other_than(x)).push(x);
    if t.len() > RECENT_CAP {
        t.subrange(1, t.len() as int)
    } else {
        t
    }
}

/// How recently `x` was selected: its position in the history counted
/// from one, or zero when it isn't there.
pub open spec fn spec_recency(r: Seq<Seq<char>>, x: Seq<char>) -> int {
    index_of(r, x) + 1
}

/// Records that `id` was selected.
pub fn touch_recent(recent: &mut Vec<NodeId>, id: &NodeId)
    ensures
        node_ids_view(final(recent)@) == spec_touch(node_ids_view(old(recent)@), id@),
{
    let ghost r0 = node_ids_view(recent@);
    let ghost pred = other_than(id@);
    let mut kept: Vec<NodeId> = Vec::new();
    for i in 0..recent.len()
        invariant
            r0 == node_ids_view(recent@),
            pred == other_than(id@),
            node_ids_view(kept@) == r0.take(i as int).filter(pred),
    {
        let x = &recent[i];
        proof {
            assert(r0[i as int] == x@);
            assert(r0.take(i + 1) =~= r0.take(i as int).push(r0[i as int]));
            r0.take(i as int).lemma_filter_push(r0[i as int], pred);
        }
        if *x != *id {
            let ghost k0 = node_ids_view(kept@);
            kept.push(x.clone());
            assert(node_ids_view(kept@) =~= k0.push(x@));
        }
    }
    assert(r0.take(recent.len() as int) =~= r0);
    let ghost k1 = node_ids_view(kept@);
    kept.push(id.clone());
    assert(node_ids_view(kept@) =~= k1.push(id@));
    if kept.len() > RECENT_CAP {
        let ghost k2 = node_ids_view(kept@);
        kept.remove(0);
        assert(node_ids_view(kept@) =~= k2.subrange(1, k2.len() as int));
    }
    *recent = kept;
}

/// How recently `id` was selected (higher is more recent, zero is never).
pub fn recency(recent: &Vec<NodeId>, id: &NodeId) -> (r: usize)
    ensures
        r == spec_recency(node_ids_view(recent@), id@),
{
    let ghost rv = node_ids_view(recent@);
    proof {
        crate::document::lemma_index_of(rv, id@);
    }
    for i in 0..recent.len()
        invariant
            rv == node_ids_view(recent@),
            forall|j: int| 0 <= j < i ==> rv[j] != id@,
    {
        assert(rv[i as int] == recent@[i as int]@);
        if recent[i] == *id {
            proof {
                crate::document::lemma_index_of_unique(rv, id@, i as int);
            }
            return i + 1;
        }
    }
    proof {
        crate::document::lemma_index_of(rv, id@);
        if index_of(rv, id@) >= 0 {
            assert(rv[index_of(rv, id@)] == id@);
        }
    }
    0
}

/// Of `candidates`, the one selected most recently, the earliest of them
/// on a tie; none when there are no candidates.
pub fn pick_recent(recent: &Vec<NodeId>, candidates: &[NodeId]) -> (r: Option<NodeId>)
    ensures
        ({
            let rv = node_ids_view(recent@);
            match r {
                None => candidates@.len() == 0,
                Some(c) => exists|k: int|
                    0 <= k < candidates@.len() && c@ == candidates@[k]@ && (forall|j: int|
                        0 <= j < k ==> spec_recency(rv, #[trigger] candidates@[j]@) < spec_recency(rv, candidates@[k]@))
                        && (forall|j: int|
                        0 <= j < candidates@.len() ==> spec_recency(rv, #[trigger] candidates@[j]@) <= spec_recency(
                            rv,
                            candidates@[k]@,
                        )),
            }
        }),
{
    let ghost rv = node_ids_view(recent@);
    if candidates.len() == 0 {
        return None;
    }
    let mut best: usize = 0;
    let mut best_r: usize = recency(recent, &candidates[0]);
    for i in 1..candidates.len()
        invariant
            rv == node_ids_view(recent@),
            best < i <= candidates@.len(),
            best_r == spec_recency(rv, candidates@[best as int]@),
            forall|j: int| 0 <= j < best ==> spec_recency(rv, #[trigger] candidates@[j]@) < best_r,
            forall|j: int| 0 <= j < i ==> spec_recency(rv, #[trigger] candidates@[j]@) <= best_r,
    {
        let r = recency(recent, &candidates[i]);
        if r > best_r {
            best = i;
            best_r = r;
        }
    }
    Some(candidates[best].clone())
}

/// Selecting a node makes it the most recent one remembered.
pub proof fn lemma_touch_most_recent(r: Seq<Seq<char>>, x: Seq<char>, y: Seq<char>)
    requires
        y != x,
        spec_touch(r, x).contains(y),
    ensures
        0 < spec_recency(spec_touch(r, x), y) < spec_recency(spec_touch(r, x), x),
        spec_recency(spec_touch(r, x), x) == spec_touch(r, x).len(),
{
    let f = r.filter(other_than(x));
    let t = spec_touch(r, x);
    crate::document::lemma_index_of(t, x);
    crate::document::lemma_index_of(t, y);
    assert(!f.contains(x)) by {
        if f.contains(x) {
            let i = choose|i: int| 0 <= i < f.len() && f[i] == x;
            r.lemma_filter_contains_rev(other_than(x), x);
        }
    }
    assert(t[t.len() - 1] == x);
    assert forall|j: int| 0 <= j < t.len() - 1 implies t[j] != x by {
        if f.push(x).len() > RECENT_CAP {
            assert(t[j] == f.push(x)[j + 1]);
            assert(f.push(x)[j + 1] == f[j + 1]);
            assert(f.contains(f[j + 1]));
        } else {
            assert(t[j] == f[j]);
            assert(f.contains(f[j]));
        }
    }
    crate::document::lemma_index_of_unique(t, x, t.len() - 1);
    let i = choose|i: int| 0 <= i < t.len() && t[i] == y;
    assert(index_of(t, y) >= 0);
}


pub open spec fn opt_edge_id(o: Option<EdgeId>) -> Option<Seq<char>> {
    match o {
        Some(e) => Some(e@),
        None => None,
    }
}

/// The link with id `edge` exists and has `node` at one of its ends.
pub open spec fn spec_edge_touches(d: DocView, edge: Seq<char>, node: Seq<char>) -> bool {
    edge_pos(d, edge) >= 0 && (d.edges[edge_pos(d, edge)].source == node || d.edges[edge_pos(d, edge)].dest == node)
}

/// Whether the link with id `edge` exists and has `node` at an end.
pub fn edge_touches(doc: &Document, edge: &EdgeId, node: &NodeId) -> (r: bool)
    ensures
        r == spec_edge_touches(doc@, edge@, node@),
{
    match doc.edge(edge) {
        Some(e) => e.source == *node || e.dest == *node,
        None => false,
    }
}

/// The ids of the visible links on a path between the two nodes.
pub fn connecting_edges(doc: &Document, start: &NodeId, end: &NodeId) -> (r: Vec<EdgeId>)
    ensures
        edge_id_views(r@) == spec_connecting(doc@, start@, end@).0,
{
    connecting(doc, start, end).0
}

/// The first of `ids` naming a link that touches `node`.
pub open spec fn first_touching(d: DocView, ids: Seq<Seq<char>>, node: Seq<char>) -> Option<Seq<char>>
    decreases ids.len(),
{
    if ids.len() == 0 {
        None
    } else {
        let f = first_touching(d, ids.drop_last(), node);
        if f is Some {
            f
        } else if spec_edge_touches(d, ids.last(), node) {
            Some(ids.last())
        } else {
            None
        }
    }
}

proof fn lemma_first_touching_prefix(d: DocView, ids: Seq<Seq<char>>, node: Seq<char>, i: int)
    requires
        0 <= i <= ids.len(),
        first_touching(d, ids.take(i), node) is Some,
    ensures
        first_touching(d, ids, node) == first_touching(d, ids.take(i), node),
    decreases ids.len() - i,
{
    if i < ids.len() {
        assert(ids.take(i + 1).drop_last() =~= ids.take(i));
        lemma_first_touching_prefix(d, ids, node, i + 1);
    } else {
        assert(ids.take(i) =~= ids);
    }
}

/// The link the selection between `start` and `end` stands for: a link
/// joining the two directly (either way, the first in the document), else
/// the first visible link on a path between them that touches `start`.
pub open spec fn spec_connecting_edge_from(d: DocView, start: Seq<char>, end: Seq<char>) -> Option<Seq<char>> {
    let direct = d.edges.filter(|e: EdgeView| joins(e, start, end));
    if direct.len() > 0 {
        Some(direct[0].id)
    } else {
        first_touching(d, spec_connecting(d, start, end).0, start)
    }
}

/// The link between `start` and `end` the selection stands for.
pub fn connecting_edge_from(doc: &Document, start: &NodeId, end: &NodeId) -> (r: Option<EdgeId>)
    ensures
        opt_edge_id(r) == spec_connecting_edge_from(doc@, start@, end@),
{
    let direct = doc.edges_between(start, end);
    if direct.len() > 0 {
        proof {
            assert(direct@[0]@ == doc@.edges.filter(|e: EdgeView| joins(e, start@, end@))[0]);
        }
        return Some(direct[0].id.clone());
    }
    proof {
        assert(doc@.edges.filter(|e: EdgeView| joins(e, start@, end@)).len() == 0);
    }
    let ids = connecting_edges(doc, start, end);
    let ghost iv = edge_id_views(ids@);
    for i in 0..ids.len()
        invariant
            iv == edge_id_views(ids@),
            iv == spec_connecting(doc@, start@, end@).0,
            first_touching(doc@, iv.take(i as int), start@) is None,
            doc@.edges.filter(|e: EdgeView| joins(e, start@, end@)).len() == 0,
    {
        assert(iv[i as int] == ids@[i as int]@);
        assert(iv.take(i + 1).drop_last() =~= iv.take(i as int));
        assert(iv.take(i + 1).last() == iv[i as int]);
        if edge_touches(doc, &ids[i], start) {
            proof {
                assert(first_touching(doc@, iv.take(i + 1), start@) == Some(iv[i as int]));
                lemma_first_touching_prefix(doc@, iv, start@, i + 1);
            }
            return Some(ids[i].clone());
        }
    }
    assert(iv.take(ids.len() as int) =~= iv);
    None
}

/// The selection runs against the links: some link leads from the primary
/// back to the anchor and none from the anchor to the primary.
pub open spec fn spec_inward(d: DocView, start: Seq<char>, end: Seq<char>) -> bool {
    &&& exists|i: int| 0 <= i < d.edges.len() && d.edges[i].source == end && d.edges[i].dest == start
    &&& !exists|i: int| 0 <= i < d.edges.len() && d.edges[i].source == start && d.edges[i].dest == end
}

/// Whether the selection from `start` to `end` runs against the links.
pub fn inward_direction(doc: &Document, start: &Option<NodeId>, end: &Option<NodeId>) -> (r: bool)
    ensures
        r == match (opt_id(*start), opt_id(*end)) {
            (Some(s), Some(e)) => spec_inward(doc@, s, e),
            _ => false,
        },
{
    let (s, e) = match (start, end) {
        (Some(s), Some(e)) => (s, e),
        _ => {
            return false;
        },
    };
    let mut forward = false;
    let mut backward = false;
    for i in 0..doc.edges.len()
        invariant
            forward == exists|j: int| 0 <= j < i && doc@.edges[j].source == s@ && doc@.edges[j].dest == e@,
            backward == exists|j: int| 0 <= j < i && doc@.edges[j].source == e@ && doc@.edges[j].dest == s@,
    {
        let x = &doc.edges[i];
        assert(doc@.edges[i as int] == x@);
        if x.source == *s && x.dest == *e {
            forward = true;
        }
        if x.source == *e && x.dest == *s {
            backward = true;
        }
    }
    backward && !forward
}

/// The link to keep selected: none unless both an anchor and a primary are
/// selected; the current one if it touches the anchor and lies on a path
/// between the two; else the link the pair stands for.
pub open spec fn spec_synced_edge(
    d: DocView,
    start: Option<Seq<char>>,
    end: Option<Seq<char>>,
    current: Option<Seq<char>>,
) -> Option<Seq<char>> {
    match (start, end) {
        (Some(s), Some(e)) => if current matches Some(c) && spec_edge_touches(d, c, s) && spec_connecting(
            d,
            s,
            e,
        ).0.contains(c) {
            current
        } else {
            spec_connecting_edge_from(d, s, e)
        },
        _ => None,
    }
}

/// The selected link once the selected nodes are `start` and `end`.
pub fn synced_edge(doc: &Document, start: &Option<NodeId>, end: &Option<NodeId>, current: &Option<EdgeId>) -> (r:
    Option<EdgeId>)
    ensures
        opt_edge_id(r) == spec_synced_edge(doc@, opt_id(*start), opt_id(*end), opt_edge_id(*current)),
{
    let (s, e) = match (start, end) {
        (Some(s), Some(e)) => (s, e),
        _ => {
            return None;
        },
    };
    if let Some(c) = current {
        if edge_touches(doc, c, s) {
            let ids = connecting_edges(doc, s, e);
            let mut found = false;
            for i in 0..ids.len()
                invariant
                    found == exists|j: int| 0 <= j < i && ids@[j]@ == c@,
            {
                if ids[i] == *c {
                    found = true;
                }
            }
            proof {
                let iv = edge_id_views(ids@);
                if found {
                    let j = choose|j: int| 0 <= j < ids@.len() && ids@[j]@ == c@;
                    assert(iv[j] == c@);
                } else {
                    assert forall|j: int| 0 <= j < iv.len() implies iv[j] != c@ by {
                        assert(iv[j] == ids@[j]@);
                    }
                }
            }
            if found {
                return Some(c.clone());
            }
        }
    }
    connecting_edge_from(doc, s, e)
}

/// The mode once the selection is `start`, `end` and link `edge`: an
/// editor whose subject is no longer selected closes; other modes stay.
pub open spec fn spec_mode_after(
    mode: ModeView,
    start: Option<Seq<char>>,
    end: Option<Seq<char>>,
    edge: Option<Seq<char>>,
) -> ModeView {
    match mode {
        ModeView::EditNode(id) => if start != Some(id) && end != Some(id) {
            ModeView::Layers
        } else {
            mode
        },
        ModeView::EditEdge(id) => if edge != Some(id) {
            ModeView::Layers
        } else {
            mode
        },
        _ => mode,
    }
}

/// An editor stays open exactly while what it edits is still selected: a
/// node's editor while the node is the anchor or the primary, a link's
/// editor while it is the selected link; a closed editor leaves the
/// layers, and any other mode is kept.
pub proof fn lemma_editor_stays_while_selected(
    mode: ModeView,
    start: Option<Seq<char>>,
    end: Option<Seq<char>>,
    edge: Option<Seq<char>>,
)
    ensures
        mode matches ModeView::EditNode(id) ==> (spec_mode_after(mode, start, end, edge) == mode <==> (start
            == Some(id) || end == Some(id))),
        mode matches ModeView::EditEdge(id) ==> (spec_mode_after(mode, start, end, edge) == mode <==> edge
            == Some(id)),
        spec_mode_after(mode, start, end, edge) == mode || spec_mode_after(mode, start, end, edge)
            == ModeView::Layers,
        !(mode is EditNode) && !(mode is EditEdge) ==> spec_mode_after(mode, start, end, edge) == mode,
{
}

/// The mode once the selection changed.
pub fn mode_after(mode: Mode, start: &Option<NodeId>, end: &Option<NodeId>, edge: &Option<EdgeId>) -> (r: Mode)
    ensures
        r@ == spec_mode_after(mode@, opt_id(*start), opt_id(*end), opt_edge_id(*edge)),
{
    let close = match &mode {
        Mode::EditNode(id) => {
            let at_start = match start {
                Some(s) => *s == *id,
                None => false,
            };
            let at_end = match end {
                Some(e) => *e == *id,
                None => false,
            };
            !at_start && !at_end
        },
        Mode::EditEdge(id) => match edge {
            Some(e) => *e != *id,
            None => true,
        },
        _ => false,
    };
    if close {
        Mode::Layers
    } else {
        mode
    }
}

/// The node at the other end of link `edge` from `node`: its destination
/// when `node` is its source, else its source when `node` is its destination.
pub open spec fn spec_other_end(d: DocView, edge: Seq<char>, node: Seq<char>) -> Option<Seq<char>> {
    let i = edge_pos(d, edge);
    if i < 0 {
        None
    } else if d.edges[i].source == node {
        Some(d.edges[i].dest)
    } else if d.edges[i].dest == node {
        Some(d.edges[i].source)
    } else {
        None
    }
}

/// The selection a flip starts from: where the selected link touches the
/// anchor and leads to a node other than the primary, anchor and that node;
/// else the selection as it is.
pub open spec fn spec_flip_base(
    d: DocView,
    start: Option<Seq<char>>,
    end: Option<Seq<char>>,
    edge: Option<Seq<char>>,
) -> (Option<Seq<char>>, Option<Seq<char>>) {
    match (start, edge) {
        (Some(s), Some(e)) => match spec_other_end(d, e, s) {
            Some(o) => if end == Some(o) {
                (start, end)
            } else {
                spec_normalize(Some(s), Some(o))
            },
            None => (start, end),
        },
        _ => (start, end),
    }
}

/// The selection after a flip: anchor and primary of the base trade places
/// and the link is synced to them; with no pair to swap, the base stays and
/// so does the link.
pub open spec fn spec_flip(
    d: DocView,
    start: Option<Seq<char>>,
    end: Option<Seq<char>>,
    edge: Option<Seq<char>>,
) -> (Option<Seq<char>>, Option<Seq<char>>, Option<Seq<char>>) {
    let base = spec_flip_base(d, start, end, edge);
    match base {
        (Some(a), Some(b)) => {
            let f = spec_normalize(Some(b), Some(a));
            (f.0, f.1, spec_synced_edge(d, f.0, f.1, edge))
        },
        _ => (base.0, base.1, edge),
    }
}

/// The anchor, primary and link after flipping the selection.
pub fn flip_selection(doc: &Document, start: &Option<NodeId>, end: &Option<NodeId>, edge: &Option<EdgeId>) -> (r: (
    Option<NodeId>,
    Option<NodeId>,
    Option<EdgeId>,
))
    ensures
        (opt_id(r.0), opt_id(r.1), opt_edge_id(r.2)) == spec_flip(
            doc@,
            opt_id(*start),
            opt_id(*end),
            opt_edge_id(*edge),
        ),
{
    let mut base: (Option<NodeId>, Option<NodeId>) = (start.clone(), end.clone());
    if let (Some(s), Some(eid)) = (start, edge) {
        if let Some(e) = doc.edge(eid) {
            let other = if e.source == *s {
                Some(e.dest.clone())
            } else if e.dest == *s {
                Some(e.source.clone())
            } else {
                None
            };
            if let Some(o) = other {
                let same = match end {
                    Some(x) => *x == o,
                    None => false,
                };
                if !same {
                    base = normalize_selection(Some(s.clone()), Some(o));
                }
            }
        }
    }
    match base {
        (Some(a), Some(b)) => {
            let f = normalize_selection(Some(b), Some(a));
            let synced = synced_edge(doc, &f.0, &f.1, edge);
            (f.0, f.1, synced)
        },
        (a, b) => (a, b, edge.clone()),
    }
}

/// What is selected: an optional anchor (`start`) and a primary (`end`)
/// node, the link between them, the editor mode, and the history of
/// selected nodes, most recent last.
pub struct Selection {
    pub start: Option<NodeId>,
    pub end: Option<NodeId>,
    pub edge: Option<EdgeId>,
    pub mode: Mode,
    pub recent: Vec<NodeId>,
}

pub struct SelectionView {
    pub start: Option<Seq<char>>,
    pub end: Option<Seq<char>>,
    pub edge: Option<Seq<char>>,
    pub mode: ModeView,
    pub recent: Seq<Seq<char>>,
}

impl View for Selection {
    type V = SelectionView;

    open spec fn view(&self) -> SelectionView {
        SelectionView {
            start: opt_id(self.start),
            end: opt_id(self.end),
            edge: opt_edge_id(self.edge),
            mode: self.mode@,
            recent: node_ids_view(self.recent@),
        }
    }
}

pub open spec fn touch_opt(r: Seq<Seq<char>>, x: Option<Seq<char>>) -> Seq<Seq<char>> {
    match x {
        Some(y) => spec_touch(r, y),
        None => r,
    }
}

/// The selection after asking for anchor `start` and primary `end`: the
/// pair normalized, both remembered as selected (the primary last), the
/// link synced to the pair and an editor whose subject left closed.
pub open spec fn spec_set_selection(
    d: DocView,
    v: SelectionView,
    start: Option<Seq<char>>,
    end: Option<Seq<char>>,
) -> SelectionView {
    let (s, e) = spec_normalize(start, end);
    let edge = spec_synced_edge(d, s, e, v.edge);
    SelectionView {
        start: s,
        end: e,
        edge,
        mode: spec_mode_after(v.mode, s, e, edge),
        recent: touch_opt(touch_opt(v.recent, s), e),
    }
}

/// The node if it still exists in the document.
pub open spec fn still_there(d: DocView, o: Option<Seq<char>>) -> Option<Seq<char>> {
    match o {
        Some(n) => if node_pos(d, n) >= 0 {
            o
        } else {
            None
        },
        None => None,
    }
}

/// The selection once the document changed: nodes that no longer exist
/// are dropped (a lost primary promotes the anchor), an editor whose node
/// or link no longer exists closes, and the link is synced.
pub open spec fn spec_after_change(d: DocView, v: SelectionView) -> SelectionView {
    let mode = match v.mode {
        ModeView::EditNode(n) => if node_pos(d, n) < 0 {
            ModeView::Layers
        } else {
            v.mode
        },
        ModeView::EditEdge(x) => if edge_pos(d, x) < 0 {
            ModeView::Layers
        } else {
            v.mode
        },
        _ => v.mode,
    };
    spec_set_selection(d, SelectionView { mode, ..v }, still_there(d, v.start), still_there(d, v.end))
}

fn clone_opt_node(o: &Option<NodeId>) -> (r: Option<NodeId>)
    ensures
        opt_id(r) == opt_id(*o),
{
    match o {
        Some(n) => Some(n.clone()),
        None => None,
    }
}

fn node_still_there(doc: &Document, o: &Option<NodeId>) -> (r: Option<NodeId>)
    ensures
        opt_id(r) == still_there(doc@, opt_id(*o)),
{
    match o {
        Some(n) => if doc.node(n).is_some() {
            Some(n.clone())
        } else {
            None
        },
        None => None,
    }
}

impl Selection {
    /// Nothing selected, nothing remembered, the layers panel open.
    pub fn new() -> (r: Selection)
        ensures
            r@ == (SelectionView {
                start: None,
                end: None,
                edge: None,
                mode: ModeView::Layers,
                recent: Seq::<Seq<char>>::empty(),
            }),
    {
        let r = Selection { start: None, end: None, edge: None, mode: Mode::Layers, recent: Vec::new() };
        assert(node_ids_view(r.recent@) =~= Seq::<Seq<char>>::empty());
        r
    }

    /// The primary selected node: what the view follows and what the
    /// single-node commands act on.
    pub fn focus_node(&self) -> (r: Option<NodeId>)
        ensures
            opt_id(r) == self@.end,
    {
        clone_opt_node(&self.end)
    }

    /// The node the primary is measured against: the anchor, else the
    /// primary.
    pub fn anchor_node(&self) -> (r: Option<NodeId>)
        ensures
            opt_id(r) == if self@.start is Some {
                self@.start
            } else {
                self@.end
            },
    {
        anchor_node(&self.start, &self.end)
    }

    /// Keeps the link consistent with the selected nodes and closes an
    /// editor whose subject is no longer selected.
    pub fn sync_edge(&mut self, doc: &Document)
        ensures
            final(self)@ == (SelectionView {
                edge: spec_synced_edge(doc@, old(self)@.start, old(self)@.end, old(self)@.edge),
                mode: spec_mode_after(
                    old(self)@.mode,
                    old(self)@.start,
                    old(self)@.end,
                    spec_synced_edge(doc@, old(self)@.start, old(self)@.end, old(self)@.edge),
                ),
                ..old(self)@
            }),
    {
        let edge = synced_edge(doc, &self.start, &self.end, &self.edge);
        let mut mode = Mode::Layers;
        std::mem::swap(&mut mode, &mut self.mode);
        self.mode = mode_after(mode, &self.start, &self.end, &edge);
        self.edge = edge;
    }

    /// Sets both selected nodes at once: the only way the selection
    /// changes, so that either nothing is selected or there is a primary,
    /// with at most a distinct anchor before it.
    pub fn set_selection(&mut self, doc: &Document, start: Option<NodeId>, end: Option<NodeId>)
        ensures
            final(self)@ == spec_set_selection(doc@, old(self)@, opt_id(start), opt_id(end)),
    {
        let (s, e) = normalize_selection(start, end);
        if let Some(x) = &s {
            touch_recent(&mut self.recent, x);
        }
        if let Some(x) = &e {
            touch_recent(&mut self.recent, x);
        }
        self.start = s;
        self.end = e;
        self.sync_edge(doc);
    }

    /// Sets the anchor, keeping the primary.
    pub fn set_start(&mut self, doc: &Document, id: Option<NodeId>)
        ensures
            final(self)@ == spec_set_selection(doc@, old(self)@, opt_id(id), old(self)@.end),
    {
        let end = clone_opt_node(&self.end);
        self.set_selection(doc, id, end);
    }

    /// Sets the primary, keeping the anchor.
    pub fn set_end(&mut self, doc: &Document, id: Option<NodeId>)
        ensures
            final(self)@ == spec_set_selection(doc@, old(self)@, old(self)@.start, opt_id(id)),
    {
        let start = clone_opt_node(&self.start);
        self.set_selection(doc, start, id);
    }

    /// Selects one node, with no anchor.
    pub fn select_only(&mut self, doc: &Document, id: NodeId)
        ensures
            final(self)@ == spec_set_selection(doc@, old(self)@, None, Some(id@)),
    {
        self.set_selection(doc, None, Some(id));
    }

    /// Selects nothing.
    pub fn clear_selection(&mut self, doc: &Document)
        ensures
            final(self)@ == spec_set_selection(doc@, old(self)@, None, None),
    {
        self.set_selection(doc, None, None);
    }

    /// Makes `id` the primary, with the current selection behind it as the
    /// anchor.
    pub fn extend_selection(&mut self, doc: &Document, id: NodeId)
        ensures
            final(self)@ == spec_set_selection(
                doc@,
                old(self)@,
                if old(self)@.start is Some {
                    old(self)@.start
                } else {
                    old(self)@.end
                },
                Some(id@),
            ),
    {
        let a = self.anchor_node();
        self.set_selection(doc, a, Some(id));
    }

    /// Selects link `id`: its source becomes the anchor and its dest the
    /// primary; nothing changes when there is no such link.
    pub fn set_edge(&mut self, doc: &Document, id: &EdgeId)
        ensures
            edge_pos(doc@, id@) < 0 ==> final(self)@ == old(self)@,
            edge_pos(doc@, id@) >= 0 ==> {
                let e = doc@.edges[edge_pos(doc@, id@)];
                let v = spec_set_selection(doc@, old(self)@, Some(e.source), Some(e.dest));
                final(self)@ == (SelectionView {
                    edge: Some(id@),
                    mode: spec_mode_after(v.mode, v.start, v.end, Some(id@)),
                    ..v
                })
            },
    {
        let (source, dest) = match doc.edge(id) {
            Some(e) => (e.source.clone(), e.dest.clone()),
            None => {
                return;
            },
        };
        self.set_selection(doc, Some(source), Some(dest));
        let edge = Some(id.clone());
        let mut mode = Mode::Layers;
        std::mem::swap(&mut mode, &mut self.mode);
        self.mode = mode_after(mode, &self.start, &self.end, &edge);
        self.edge = edge;
    }

    /// Primary click on `id`: it becomes the whole selection, or is
    /// deselected if it already is.
    pub fn click_select(&mut self, doc: &Document, id: &NodeId)
        ensures
            final(self)@ == if old(self)@.end == Some(id@) && old(self)@.start is None {
                spec_set_selection(doc@, old(self)@, None, None)
            } else {
                spec_set_selection(doc@, old(self)@, None, Some(id@))
            },
    {
        let lone = match &self.end {
            Some(e) => *e == *id && self.start.is_none(),
            None => false,
        };
        if lone {
            self.clear_selection(doc);
        } else {
            self.select_only(doc, id.clone());
        }
    }

    /// Secondary click on `id`: it becomes the primary with the previous
    /// selection behind it as the anchor; clicking the primary again drops
    /// it, promoting the anchor.
    pub fn click_extend(&mut self, doc: &Document, id: &NodeId)
        ensures
            final(self)@ == if old(self)@.end == Some(id@) {
                spec_set_selection(doc@, old(self)@, old(self)@.start, None)
            } else {
                spec_set_selection(
                    doc@,
                    old(self)@,
                    if old(self)@.start is Some {
                        old(self)@.start
                    } else {
                        old(self)@.end
                    },
                    Some(id@),
                )
            },
    {
        let again = match &self.end {
            Some(e) => *e == *id,
            None => false,
        };
        if again {
            self.set_end(doc, None);
        } else {
            self.extend_selection(doc, id.clone());
        }
    }

    /// Brings the selection up to date after the document changed.
    pub fn after_change(&mut self, doc: &Document)
        ensures
            final(self)@ == spec_after_change(doc@, old(self)@),
    {
        let start = node_still_there(doc, &self.start);
        let end = node_still_there(doc, &self.end);
        let mut mode = Mode::Layers;
        std::mem::swap(&mut mode, &mut self.mode);
        let gone = match &mode {
            Mode::EditNode(n) => doc.node(n).is_none(),
            Mode::EditEdge(x) => doc.edge(x).is_none(),
            _ => false,
        };
        self.mode = if gone {
            Mode::Layers
        } else {
            mode
        };
        self.set_selection(doc, start, end);
    }
}

/// Selecting `x` makes it the last, and only, entry for `x` in the history.
proof fn lemma_touch_last(r: Seq<Seq<char>>, x: Seq<char>)
    ensures
        spec_recency(spec_touch(r, x), x) == spec_touch(r, x).len(),
        spec_touch(r, x).len() > 0,
{
    let f = r.filter(other_than(x));
    let t = spec_touch(r, x);
    assert(!f.contains(x)) by {
        if f.contains(x) {
            r.lemma_filter_contains_rev(other_than(x), x);
            let i = choose|i: int| 0 <= i < f.len() && f[i] == x;
            r.lemma_filter_pred(other_than(x), i);
        }
    }
    assert(t[t.len() - 1] == x);
    assert forall|j: int| 0 <= j < t.len() - 1 implies t[j] != x by {
        if f.push(x).len() > RECENT_CAP {
            assert(t[j] == f[j + 1]);
            assert(f.contains(f[j + 1]));
        } else {
            assert(t[j] == f[j]);
            assert(f.contains(f[j]));
        }
    }
    crate::document::lemma_index_of_unique(t, x, t.len() - 1);
}

/// A link of the document is found by its id.
proof fn lemma_edge_found(d: DocView, i: int)
    requires
        0 <= i < d.edges.len(),
    ensures
        edge_pos(d, d.edges[i].id) >= 0,
{
    crate::document::lemma_index_of(edge_ids(d.edges), d.edges[i].id);
    assert(edge_ids(d.edges)[i] == d.edges[i].id);
}

proof fn lemma_first_touching_exists(d: DocView, ids: Seq<Seq<char>>, node: Seq<char>)
    ensures
        first_touching(d, ids, node) matches Some(x) ==> edge_pos(d, x) >= 0,
    decreases ids.len(),
{
    if ids.len() > 0 {
        lemma_first_touching_exists(d, ids.drop_last(), node);
    }
}

/// The link kept selected is always a link of the document.
pub proof fn lemma_synced_edge_exists(
    d: DocView,
    start: Option<Seq<char>>,
    end: Option<Seq<char>>,
    current: Option<Seq<char>>,
)
    ensures
        spec_synced_edge(d, start, end, current) matches Some(x) ==> edge_pos(d, x) >= 0,
{
    if let (Some(s), Some(e)) = (start, end) {
        let direct = d.edges.filter(|x: EdgeView| joins(x, s, e));
        if direct.len() > 0 {
            d.edges.lemma_filter_contains_rev(|x: EdgeView| joins(x, s, e), direct[0]);
            let i = choose|i: int| 0 <= i < d.edges.len() && d.edges[i] == direct[0];
            lemma_edge_found(d, i);
        }
        lemma_first_touching_exists(d, spec_connecting(d, s, e).0, s);
    }
}

/// Setting the selection always leaves a valid one: nothing, or a primary
/// with at most a distinct anchor; the primary is then the most recently
/// selected node, and the selected link is a link of the document.
pub proof fn lemma_set_selection_valid(d: DocView, v: SelectionView, start: Option<Seq<char>>, end: Option<Seq<char>>)
    ensures
        selection_ok(spec_set_selection(d, v, start, end).start, spec_set_selection(d, v, start, end).end),
        spec_set_selection(d, v, start, end).end matches Some(e) ==> spec_recency(
            spec_set_selection(d, v, start, end).recent,
            e,
        ) == spec_set_selection(d, v, start, end).recent.len(),
        spec_set_selection(d, v, start, end).edge matches Some(x) ==> edge_pos(d, x) >= 0,
{
    lemma_normalize_ok(start, end);
    let (s, e) = spec_normalize(start, end);
    if let Some(y) = e {
        lemma_touch_last(touch_opt(v.recent, s), y);
    }
    lemma_synced_edge_exists(d, s, e, v.edge);
}

/// After the document changes, every selected node and the selected link
/// exist in it.
pub proof fn lemma_after_change_exists(d: DocView, v: SelectionView)
    ensures
        spec_after_change(d, v).start matches Some(n) ==> node_pos(d, n) >= 0,
        spec_after_change(d, v).end matches Some(n) ==> node_pos(d, n) >= 0,
        spec_after_change(d, v).edge matches Some(x) ==> edge_pos(d, x) >= 0,
{
    let s = still_there(d, v.start);
    let e = still_there(d, v.end);
    lemma_synced_edge_exists(d, spec_normalize(s, e).0, spec_normalize(s, e).1, v.edge);
}

} // verus!
