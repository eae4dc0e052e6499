//! How document state colours the drawing: which items are de-emphasised
//! and which palette entry a layer uses.
use vstd::prelude::*;
use crate::document::{
    edge_pos, layer_ids_view, layer_pos, node_ids_view, spec_edge_visible, spec_layer_active, DocView, Document,
    Edge, EdgeId, LayerId, NodeId,
};
use crate::paths::{connecting, edge_id_views, spec_connecting};
use crate::selection::{opt_edge_id, opt_id};

verus! {

/// Number of distinct layer colours; layers cycle through them in order.
pub const LAYER_COLORS: usize = 8;

/// The selected layer when it is active.
pub open spec fn active_selection(d: DocView) -> Option<Seq<char>> {
    match d.selected_layer {
        Some(l) => if spec_layer_active(d, l) {
            Some(l)
        } else {
            None
        },
        None => None,
    }
}

/// Something in some layers is drawn faded when an active layer is
/// selected and the thing is in layers, none of which is the selected one.
pub open spec fn spec_is_secondary(d: DocView, layers: Seq<Seq<char>>) -> bool {
    match active_selection(d) {
        Some(sel) => layers.len() > 0 && !layers.contains(sel),
        None => false,
    }
}

pub fn is_secondary(doc: &Document, layers: &[LayerId]) -> (r: bool)
    ensures
        r == spec_is_secondary(doc@, layer_ids_view(layers@)),
{
    let selected = match &doc.selected_layer {
        Some(l) => if doc.layer_active(l) {
            l
        } else {
            return false;
        },
        None => {
            return false;
        },
    };
    assert(active_selection(doc@) == Some(selected@));
    if layers.len() == 0 {
        assert(layer_ids_view(layers@).len() == 0);
        return false;
    }
    for i in 0..layers.len()
        invariant
            active_selection(doc@) == Some(selected@),
            layers.len() > 0,
            forall|j: int| 0 <= j < i ==> layers@[j]@ != selected@,
    {
        if layers[i] == *selected {
            assert(layer_ids_view(layers@)[i as int] == selected@);
            assert(layer_ids_view(layers@).contains(selected@));
            return false;
        }
    }
    assert forall|j: int| 0 <= j < layer_ids_view(layers@).len() implies layer_ids_view(layers@)[j]
        != selected@ by {
        assert(layer_ids_view(layers@)[j] == layers@[j]@);
    }
    true
}

/// The palette entry of a layer: its position in the document, cycling
/// through the colours; none for a layer that doesn't exist.
pub fn layer_color_index(doc: &Document, layer: &LayerId) -> (r: Option<usize>)
    ensures
        match r {
            Some(i) => layer_pos(doc@, layer@) >= 0 && i as int == layer_pos(doc@, layer@)
                % LAYER_COLORS as int,
            None => layer_pos(doc@, layer@) < 0,
        },
{
    match doc.layer_index(layer) {
        Some(i) => Some(i % LAYER_COLORS),
        None => None,
    }
}

pub open spec fn opt_seq(o: Option<Seq<char>>) -> Seq<Seq<char>> {
    match o {
        Some(x) => seq![x],
        None => seq![],
    }
}

/// What the current selection and pointer highlight: the nodes whose links
/// light up (`spreading`), the nodes drawn active, and the links on the
/// paths between the selected pair.
pub struct Highlight {
    pub spreading: Vec<NodeId>,
    pub active: Vec<NodeId>,
    pub connecting: Vec<EdgeId>,
}

/// The nodes whose links light up: the hovered node, the previewed search
/// result, and the primary node when it is selected alone.
pub open spec fn spec_spreading(
    start: Option<Seq<char>>,
    end: Option<Seq<char>>,
    hover: Option<Seq<char>>,
    peek: Option<Seq<char>>,
) -> Seq<Seq<char>> {
    opt_seq(hover) + opt_seq(peek) + if start is None {
        opt_seq(end)
    } else {
        seq![]
    }
}

/// The paths between the selected pair: their links and nodes.
pub open spec fn spec_walk(d: DocView, start: Option<Seq<char>>, end: Option<Seq<char>>) -> (
    Seq<Seq<char>>,
    Seq<Seq<char>>,
) {
    match (start, end) {
        (Some(s), Some(e)) => spec_connecting(d, s, e),
        _ => (seq![], seq![]),
    }
}

/// The ends of the hovered link, when it is a visible link.
pub open spec fn hovered_ends(d: DocView, hover_edge: Option<Seq<char>>) -> Seq<Seq<char>> {
    match hover_edge {
        Some(h) => if edge_pos(d, h) >= 0 && spec_edge_visible(d, d.edges[edge_pos(d, h)]) {
            seq![d.edges[edge_pos(d, h)].source, d.edges[edge_pos(d, h)].dest]
        } else {
            seq![]
        },
        None => seq![],
    }
}

/// The nodes drawn active: the spreading ones, the selected pair, the nodes
/// on the paths between the pair, and the ends of the hovered link.
pub open spec fn spec_active(
    d: DocView,
    start: Option<Seq<char>>,
    end: Option<Seq<char>>,
    hover: Option<Seq<char>>,
    hover_edge: Option<Seq<char>>,
    peek: Option<Seq<char>>,
) -> Seq<Seq<char>> {
    spec_spreading(start, end, hover, peek) + opt_seq(start) + opt_seq(end) + spec_walk(d, start, end).1
        + hovered_ends(d, hover_edge)
}

/// What lights up: the hovered node and the previewed search result always
/// spread their links, and so does the primary node when it is selected
/// alone; every spreading node, the selected pair and the nodes on the
/// paths between it are drawn active, and nothing else spreads.
pub proof fn lemma_highlight_covers(
    d: DocView,
    start: Option<Seq<char>>,
    end: Option<Seq<char>>,
    hover: Option<Seq<char>>,
    hover_edge: Option<Seq<char>>,
    peek: Option<Seq<char>>,
)
    ensures
        peek matches Some(p) ==> spec_spreading(start, end, hover, peek).contains(p) && spec_active(
            d,
            start,
            end,
            hover,
            hover_edge,
            peek,
        ).contains(p),
        hover matches Some(h) ==> spec_spreading(start, end, hover, peek).contains(h) && spec_active(
            d,
            start,
            end,
            hover,
            hover_edge,
            peek,
        ).contains(h),
        start is None ==> (end matches Some(e) ==> spec_spreading(start, end, hover, peek).contains(e)),
        start matches Some(s) ==> spec_active(d, start, end, hover, hover_edge, peek).contains(s),
        end matches Some(e) ==> spec_active(d, start, end, hover, hover_edge, peek).contains(e),
        forall|x: Seq<char>|
            #[trigger] spec_spreading(start, end, hover, peek).contains(x) ==> spec_active(
                d,
                start,
                end,
                hover,
                hover_edge,
                peek,
            ).contains(x),
        forall|x: Seq<char>|
            #[trigger] spec_spreading(start, end, hover, peek).contains(x) ==> hover == Some(x) || peek == Some(x)
                || (start is None && end == Some(x)),
        forall|i: int|
            0 <= i < spec_walk(d, start, end).1.len() ==> spec_active(d, start, end, hover, hover_edge, peek).contains(
                #[trigger] spec_walk(d, start, end).1[i],
            ),
        hover_edge matches Some(h) ==> (edge_pos(d, h) >= 0 && spec_edge_visible(d, d.edges[edge_pos(d, h)])
            ==> spec_active(d, start, end, hover, hover_edge, peek).contains(d.edges[edge_pos(d, h)].source)
            && spec_active(d, start, end, hover, hover_edge, peek).contains(d.edges[edge_pos(d, h)].dest)),
{
    let sp = spec_spreading(start, end, hover, peek);
    let ac = spec_active(d, start, end, hover, hover_edge, peek);
    let rest = opt_seq(start) + opt_seq(end) + spec_walk(d, start, end).1 + hovered_ends(d, hover_edge);
    assert(ac =~= sp + rest);
    assert forall|x: Seq<char>| #[trigger] sp.contains(x) implies ac.contains(x) by {
        let i = choose|i: int| 0 <= i < sp.len() && sp[i] == x;
        assert(ac[i] == x);
    }
    let tail = if start is None {
        opt_seq(end)
    } else {
        seq![]
    };
    assert(sp =~= opt_seq(hover) + opt_seq(peek) + tail);
    if let Some(p) = peek {
        let i = opt_seq(hover).len() as int;
        assert(sp[i] == p);
        assert(sp.contains(p));
    }
    if let Some(h) = hover {
        assert(sp[0] == h);
        assert(sp.contains(h));
    }
    if start is None {
        if let Some(e) = end {
            let i = (opt_seq(hover).len() + opt_seq(peek).len()) as int;
            assert(sp[i] == e);
        }
    }
    let w = spec_walk(d, start, end).1;
    let o2 = (sp.len() + opt_seq(start).len() + opt_seq(end).len()) as int;
    assert forall|i: int| 0 <= i < w.len() implies ac.contains(#[trigger] w[i]) by {
        assert(ac[o2 + i] == w[i]);
    }
    if let Some(h) = hover_edge {
        if edge_pos(d, h) >= 0 && spec_edge_visible(d, d.edges[edge_pos(d, h)]) {
            let o3 = o2 + w.len();
            assert(ac[o3] == d.edges[edge_pos(d, h)].source);
            assert(ac[o3 + 1] == d.edges[edge_pos(d, h)].dest);
        }
    }
    let o = sp.len() as int;
    if let Some(s) = start {
        assert(ac[o] == s);
    }
    if let Some(e) = end {
        let i = o + opt_seq(start).len();
        assert(ac[i] == e);
    }
}

fn push_opt(v: &mut Vec<NodeId>, o: &Option<NodeId>)
    ensures
        node_ids_view(final(v)@) == node_ids_view(old(v)@) + opt_seq(opt_id(*o)),
{
    let ghost before = node_ids_view(v@);
    if let Some(x) = o {
        v.push(x.clone());
        assert(node_ids_view(v@) =~= before + seq![x@]);
    } else {
        assert(node_ids_view(v@) =~= before + Seq::<Seq<char>>::empty());
    }
}

/// What the selection (`start`, `end`), the hovered node and link and the
/// previewed search result highlight.
pub fn highlight(
    doc: &Document,
    start: &Option<NodeId>,
    end: &Option<NodeId>,
    hover: &Option<NodeId>,
    hover_edge: &Option<EdgeId>,
    peek: &Option<NodeId>,
) -> (r: Highlight)
    ensures
        node_ids_view(r.spreading@) == spec_spreading(opt_id(*start), opt_id(*end), opt_id(*hover), opt_id(*peek)),
        node_ids_view(r.active@) == spec_active(
            doc@,
            opt_id(*start),
            opt_id(*end),
            opt_id(*hover),
            opt_edge_id(*hover_edge),
            opt_id(*peek),
        ),
        edge_id_views(r.connecting@) == spec_walk(doc@, opt_id(*start), opt_id(*end)).0,
{
    let (links, walk) = match (start, end) {
        (Some(s), Some(e)) => connecting(doc, s, e),
        _ => {
            let a: Vec<EdgeId> = Vec::new();
            let b: Vec<NodeId> = Vec::new();
            assert(edge_id_views(a@) =~= Seq::<Seq<char>>::empty());
            assert(node_ids_view(b@) =~= Seq::<Seq<char>>::empty());
            (a, b)
        },
    };
    let mut spreading: Vec<NodeId> = Vec::new();
    assert(node_ids_view(spreading@) =~= Seq::<Seq<char>>::empty());
    push_opt(&mut spreading, hover);
    push_opt(&mut spreading, peek);
    if start.is_none() {
        push_opt(&mut spreading, end);
    } else {
        assert(node_ids_view(spreading@) =~= node_ids_view(spreading@) + Seq::<Seq<char>>::empty());
    }
    let mut active: Vec<NodeId> = Vec::new();
    let ghost sp = node_ids_view(spreading@);
    for i in 0..spreading.len()
        invariant
            sp == node_ids_view(spreading@),
            node_ids_view(active@) == sp.take(i as int),
    {
        let ghost before = node_ids_view(active@);
        active.push(spreading[i].clone());
        assert(node_ids_view(active@) =~= before.push(spreading@[i as int]@));
        assert(sp.take(i + 1) =~= sp.take(i as int).push(sp[i as int]));
    }
    assert(sp.take(spreading.len() as int) =~= sp);
    push_opt(&mut active, start);
    push_opt(&mut active, end);
    let ghost a0 = node_ids_view(active@);
    let ghost wv = node_ids_view(walk@);
    for i in 0..walk.len()
        invariant
            wv == node_ids_view(walk@),
            node_ids_view(active@) == a0 + wv.take(i as int),
    {
        let ghost before = node_ids_view(active@);
        active.push(walk[i].clone());
        assert(node_ids_view(active@) =~= before.push(walk@[i as int]@));
        assert(wv.take(i + 1) =~= wv.take(i as int).push(wv[i as int]));
        assert(a0 + wv.take(i + 1) =~= (a0 + wv.take(i as int)).push(wv[i as int]));
    }
    assert(wv.take(walk.len() as int) =~= wv);
    let ghost a1 = node_ids_view(active@);
    let mut ends_added = false;
    if let Some(h) = hover_edge {
        if let Some(e) = doc.edge(h) {
            if doc.edge_visible(e) {
                active.push(e.source.clone());
                active.push(e.dest.clone());
                ends_added = true;
                assert(node_ids_view(active@) =~= a1 + seq![e@.source, e@.dest]);
            }
        }
    }
    if !ends_added {
        assert(node_ids_view(active@) =~= a1 + Seq::<Seq<char>>::empty());
    }
    Highlight { spreading, active, connecting: links }
}

/// Whether a node is drawn active.
pub fn node_active(h: &Highlight, id: &NodeId) -> (r: bool)
    ensures
        r == node_ids_view(h.active@).contains(id@),
{
    crate::undo::contains_node_id(&h.active, id)
}

/// Whether a drawn copy of link `e` is active: one of its ends spreads, it
/// lies on a path between the selected pair, or it is the hovered link.
pub fn edge_active(h: &Highlight, hover_edge: &Option<EdgeId>, e: &Edge) -> (r: bool)
    ensures
        r == (node_ids_view(h.spreading@).contains(e@.source) || node_ids_view(h.spreading@).contains(e@.dest)
            || edge_id_views(h.connecting@).contains(e@.id) || opt_edge_id(*hover_edge) == Some(e@.id)),
{
    if crate::undo::contains_node_id(&h.spreading, &e.source) || crate::undo::contains_node_id(
        &h.spreading,
        &e.dest,
    ) {
        return true;
    }
    let ghost cv = edge_id_views(h.connecting@);
    for i in 0..h.connecting.len()
        invariant
            cv == edge_id_views(h.connecting@),
            forall|j: int| 0 <= j < i ==> cv[j] != e@.id,
    {
        assert(cv[i as int] == h.connecting@[i as int]@);
        if h.connecting[i] == e.id {
            return true;
        }
    }
    match hover_edge {
        Some(x) => *x == e.id,
        None => false,
    }
}

} // verus!
