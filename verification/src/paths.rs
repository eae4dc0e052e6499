//! Paths between two nodes over the visible links: what is reachable
//! from a node, and which links lie on a path from one node to another.
use crate::document::{
    edge_ids, edge_refs_view, node_ids_view, spec_edge_visible, DocView, Document, Edge, EdgeId, EdgeView, NodeId,
};
use crate::undo::contains_node_id;
use vstd::prelude::*;

verus! {

/// The end of `e` a search along (`fwd`) or against its direction leaves
/// from.
pub open spec fn near(e: EdgeView, fwd: bool) -> Seq<char> {
    if fwd {
        e.source
    } else {
        e.dest
    }
}

/// The end of `e` a search along (`fwd`) or against its direction arrives
/// at.
pub open spec fn far(e: EdgeView, fwd: bool) -> Seq<char> {
    if fwd {
        e.dest
    } else {
        e.source
    }
}

/// `s` holds the far end of every link whose near end it holds.
pub open spec fn follow_closed(es: Seq<EdgeView>, fwd: bool, s: Set<Seq<char>>) -> bool {
    forall|k: int| 0 <= k < es.len() && s.contains(near(#[trigger] es[k], fwd)) ==> s.contains(far(es[k], fwd))
}

/// `x` can be reached from `from` over the links, along their direction
/// (`fwd`) or against it: every set that holds `from` and is closed under
/// following links holds `x`.
pub open spec fn reaches(es: Seq<EdgeView>, fwd: bool, from: Seq<char>, x: Seq<char>) -> bool {
    forall|s: Set<Seq<char>>| #[trigger] follow_closed(es, fwd, s) && s.contains(from) ==> s.contains(x)
}

proof fn lemma_reaches_step(es: Seq<EdgeView>, fwd: bool, from: Seq<char>, k: int)
    requires
        0 <= k < es.len(),
        reaches(es, fwd, from, near(es[k], fwd)),
    ensures
        reaches(es, fwd, from, far(es[k], fwd)),
{
    assert forall|s: Set<Seq<char>>| #[trigger] follow_closed(es, fwd, s) && s.contains(from) implies s.contains(
        far(es[k], fwd),
    ) by {
        assert(s.contains(near(es[k], fwd)));
    }
}

proof fn lemma_seen_bound(sv: Seq<Seq<char>>, univ: Seq<Seq<char>>)
    requires
        sv.no_duplicates(),
        forall|i: int| 0 <= i < sv.len() ==> univ.contains(#[trigger] sv[i]),
    ensures
        sv.len() <= univ.to_set().len(),
{
    sv.unique_seq_to_set();
    assert(sv.to_set().subset_of(univ.to_set()));
    vstd::seq_lib::seq_to_set_is_finite(univ);
    vstd::set_lib::lemma_len_subset(sv.to_set(), univ.to_set());
}

/// Everything reachable from `from` over the links `es`, along their
/// direction (`fwd`) or against it, `from` first, each once.
fn reach(es: &Vec<&Edge>, from: &NodeId, fwd: bool) -> (seen: Vec<NodeId>)
    ensures
        node_ids_view(seen@).no_duplicates(),
        node_ids_view(seen@).len() > 0 && node_ids_view(seen@)[0] == from@,
        forall|x: Seq<char>| #[trigger] node_ids_view(seen@).contains(x) <==> reaches(edge_refs_view(es@), fwd, from@, x),
{
    let ghost ev = edge_refs_view(es@);
    let ghost univ = seq![from@] + ev.map_values(|e: EdgeView| far(e, fwd));
    let mut seen: Vec<NodeId> = Vec::new();
    seen.push(from.clone());
    let mut queue: Vec<NodeId> = Vec::new();
    queue.push(from.clone());
    proof {
        assert(univ[0] == from@);
        assert(node_ids_view(seen@) =~= seq![from@]);
        assert(node_ids_view(queue@) =~= seq![from@]);
        assert forall|s: Set<Seq<char>>| #[trigger] follow_closed(ev, fwd, s) && s.contains(from@) implies s.contains(
            from@,
        ) by {}
        lemma_seen_bound(node_ids_view(seen@), univ);
    }
    while queue.len() > 0
        invariant
            ev == edge_refs_view(es@),
            univ == seq![from@] + ev.map_values(|e: EdgeView| far(e, fwd)),
            node_ids_view(seen@).no_duplicates(),
            node_ids_view(queue@).no_duplicates(),
            node_ids_view(seen@).len() > 0 && node_ids_view(seen@)[0] == from@,
            forall|i: int| 0 <= i < seen@.len() ==> reaches(ev, fwd, from@, #[trigger] node_ids_view(seen@)[i]),
            forall|i: int| 0 <= i < seen@.len() ==> univ.contains(#[trigger] node_ids_view(seen@)[i]),
            forall|i: int| 0 <= i < queue@.len() ==> node_ids_view(seen@).contains(#[trigger] node_ids_view(queue@)[i]),
            forall|k: int|
                0 <= k < ev.len() && node_ids_view(seen@).contains(near(#[trigger] ev[k], fwd))
                    && !node_ids_view(queue@).contains(near(ev[k], fwd)) ==> node_ids_view(seen@).contains(
                    far(ev[k], fwd),
                ),
            seen@.len() <= univ.to_set().len(),
        decreases 2 * univ.to_set().len() - 2 * seen@.len() + queue@.len(),
    {
        let ghost m0 = 2 * univ.to_set().len() - 2 * seen@.len() + queue@.len();
        let ghost q0 = node_ids_view(queue@);
        let here = queue.pop().unwrap();
        proof {
            assert(q0 == node_ids_view(queue@).push(here@));
            assert(q0[q0.len() - 1] == here@);
            assert(node_ids_view(seen@).contains(here@));
            assert forall|i: int| 0 <= i < queue@.len() implies node_ids_view(queue@)[i] != here@ by {
                assert(q0[i] == node_ids_view(queue@)[i]);
            }
            assert(node_ids_view(queue@) =~= q0.drop_last());
            assert forall|i: int| 0 <= i < queue@.len() implies node_ids_view(seen@).contains(
                #[trigger] node_ids_view(queue@)[i],
            ) by {
                assert(q0[i] == node_ids_view(queue@)[i]);
            }
            assert forall|k: int|
                0 <= k < ev.len() && node_ids_view(seen@).contains(near(#[trigger] ev[k], fwd))
                    && !node_ids_view(queue@).contains(near(ev[k], fwd)) && near(ev[k], fwd) != here@
                    implies node_ids_view(seen@).contains(far(ev[k], fwd)) by {
                if q0.contains(near(ev[k], fwd)) {
                    let i = choose|i: int| 0 <= i < q0.len() && q0[i] == near(ev[k], fwd);
                    assert(i != q0.len() - 1);
                    assert(node_ids_view(queue@)[i] == near(ev[k], fwd));
                }
            }
        }
        let mut j: usize = 0;
        while j < es.len()
            invariant
                ev == edge_refs_view(es@),
                univ == seq![from@] + ev.map_values(|e: EdgeView| far(e, fwd)),
                j <= es.len(),
                node_ids_view(seen@).no_duplicates(),
                node_ids_view(queue@).no_duplicates(),
                node_ids_view(seen@).len() > 0 && node_ids_view(seen@)[0] == from@,
                forall|i: int| 0 <= i < seen@.len() ==> reaches(ev, fwd, from@, #[trigger] node_ids_view(seen@)[i]),
                forall|i: int| 0 <= i < seen@.len() ==> univ.contains(#[trigger] node_ids_view(seen@)[i]),
                forall|i: int| 0 <= i < queue@.len() ==> node_ids_view(seen@).contains(#[trigger] node_ids_view(queue@)[i]),
                node_ids_view(seen@).contains(here@),
                !node_ids_view(queue@).contains(here@),
                forall|k: int|
                    0 <= k < ev.len() && node_ids_view(seen@).contains(near(#[trigger] ev[k], fwd))
                        && !node_ids_view(queue@).contains(near(ev[k], fwd)) && near(ev[k], fwd) != here@
                        ==> node_ids_view(seen@).contains(far(ev[k], fwd)),
                forall|k: int|
                    0 <= k < j && near(#[trigger] ev[k], fwd) == here@ ==> node_ids_view(seen@).contains(far(ev[k], fwd)),
                seen@.len() <= univ.to_set().len(),
                2 * univ.to_set().len() - 2 * seen@.len() + queue@.len() < m0,
            decreases es.len() - j,
        {
            let e = es[j];
            assert(ev[j as int] == e@);
            let (near_id, far_id) = if fwd {
                (&e.source, &e.dest)
            } else {
                (&e.dest, &e.source)
            };
            assert(near_id@ == near(e@, fwd) && far_id@ == far(e@, fwd));
            if *near_id == here && !contains_node_id(&seen, far_id) {
                let ghost s0 = node_ids_view(seen@);
                let ghost qq = node_ids_view(queue@);
                proof {
                    lemma_reaches_step(ev, fwd, from@, j as int);
                    assert(univ[j + 1] == far(ev[j as int], fwd));
                    assert forall|i: int| 0 <= i < queue@.len() implies qq[i] != far_id@ by {
                        assert(s0.contains(qq[i]));
                    }
                }
                seen.push(far_id.clone());
                queue.push(far_id.clone());
                proof {
                    assert(node_ids_view(seen@) =~= s0.push(far_id@));
                    assert(node_ids_view(queue@) =~= qq.push(far_id@));
                    assert forall|x: Seq<char>| s0.contains(x) implies node_ids_view(seen@).contains(x) by {
                        let i = choose|i: int| 0 <= i < s0.len() && s0[i] == x;
                        assert(node_ids_view(seen@)[i] == x);
                    }
                    assert forall|x: Seq<char>| qq.contains(x) implies node_ids_view(queue@).contains(x) by {
                        let i = choose|i: int| 0 <= i < qq.len() && qq[i] == x;
                        assert(node_ids_view(queue@)[i] == x);
                    }
                    assert(node_ids_view(seen@)[s0.len() as int] == far_id@);
                    assert(node_ids_view(queue@)[qq.len() as int] == far_id@);
                    assert forall|k: int|
                        0 <= k < ev.len() && node_ids_view(seen@).contains(near(#[trigger] ev[k], fwd))
                            && !node_ids_view(queue@).contains(near(ev[k], fwd)) && near(ev[k], fwd) != here@
                            implies node_ids_view(seen@).contains(far(ev[k], fwd)) by {
                        if near(ev[k], fwd) != far_id@ {
                            let i = choose|i: int| 0 <= i < node_ids_view(seen@).len() && node_ids_view(seen@)[i]
                                == near(ev[k], fwd);
                            assert(s0.contains(near(ev[k], fwd))) by {
                                assert(s0[i] == near(ev[k], fwd));
                            }
                        }
                    }
                    lemma_seen_bound(node_ids_view(seen@), univ);
                }
            }
            j = j + 1;
        }
    }
    proof {
        let sv = node_ids_view(seen@);
        let s = sv.to_set();
        assert(follow_closed(ev, fwd, s));
        assert(s.contains(from@)) by {
            assert(sv[0] == from@);
        }
        assert forall|x: Seq<char>| #[trigger] sv.contains(x) <==> reaches(ev, fwd, from@, x) by {
            if reaches(ev, fwd, from@, x) {
                assert(s.contains(x));
            }
            if sv.contains(x) {
                let i = choose|i: int| 0 <= i < sv.len() && sv[i] == x;
            }
        }
    }
    seen
}


pub open spec fn visible_in(d: DocView) -> spec_fn(EdgeView) -> bool {
    |e: EdgeView| spec_edge_visible(d, e)
}

/// The visible links of the document, in order.
fn visible_edges(doc: &Document) -> (r: Vec<&Edge>)
    ensures
        edge_refs_view(r@) == doc@.edges.filter(visible_in(doc@)),
{
    let ghost d = doc@;
    let ghost vis = visible_in(doc@);
    let mut out: Vec<&Edge> = Vec::new();
    for i in 0..doc.edges.len()
        invariant
            d == doc@,
            vis == visible_in(doc@),
            edge_refs_view(out@) == d.edges.take(i as int).filter(vis),
    {
        let e = &doc.edges[i];
        proof {
            assert(d.edges[i as int] == e@);
            assert(d.edges.take(i + 1) =~= d.edges.take(i as int).push(d.edges[i as int]));
            d.edges.take(i as int).lemma_filter_push(d.edges[i as int], vis);
        }
        if doc.edge_visible(e) {
            let ghost before = edge_refs_view(out@);
            out.push(e);
            assert(edge_refs_view(out@) =~= before.push(e@));
        }
    }
    assert(d.edges.take(doc.edges.len() as int) =~= d.edges);
    out
}

/// Links of `es` that lie on a path from `up` to `down`: `up` reaches their
/// source and their dest reaches `down`; none when `up` doesn't reach
/// `down`.
pub open spec fn on_paths(es: Seq<EdgeView>, up: Seq<char>, down: Seq<char>) -> Seq<EdgeView> {
    if reaches(es, true, up, down) {
        es.filter(on_path(es, up, down))
    } else {
        Seq::empty()
    }
}

pub open spec fn on_path(es: Seq<EdgeView>, up: Seq<char>, down: Seq<char>) -> spec_fn(EdgeView) -> bool {
    |e: EdgeView| reaches(es, true, up, e.source) && reaches(es, false, down, e.dest)
}

pub open spec fn edge_id_views(v: Seq<EdgeId>) -> Seq<Seq<char>> {
    v.map_values(|x: EdgeId| x@)
}

/// The links of `s` whose id no earlier one has.
pub open spec fn first_by_id(s: Seq<EdgeView>) -> Seq<EdgeView>
    decreases s.len(),
{
    if s.len() == 0 {
        Seq::empty()
    } else {
        let f = first_by_id(s.drop_last());
        if edge_ids(f).contains(s.last().id) {
            f
        } else {
            f.push(s.last())
        }
    }
}

/// `v` with `x` added at the end unless it is there already.
pub open spec fn add_once(v: Seq<Seq<char>>, x: Seq<char>) -> Seq<Seq<char>> {
    if v.contains(x) {
        v
    } else {
        v.push(x)
    }
}

/// The ends of the links, source then dest, each once, in order of first
/// appearance.
pub open spec fn ends_once(s: Seq<EdgeView>) -> Seq<Seq<char>>
    decreases s.len(),
{
    if s.len() == 0 {
        Seq::empty()
    } else {
        add_once(add_once(ends_once(s.drop_last()), s.last().source), s.last().dest)
    }
}

/// The visible links on a path between `start` and `end` in either
/// direction, each once in document order (paths from `start` first), and
/// the nodes they join in order of first appearance.
pub open spec fn spec_connecting(d: DocView, start: Seq<char>, end: Seq<char>) -> (Seq<Seq<char>>, Seq<Seq<char>>) {
    let es = d.edges.filter(visible_in(d));
    let picked = first_by_id(on_paths(es, start, end) + on_paths(es, end, start));
    (edge_ids(picked), ends_once(picked))
}

fn contains_edge_id(v: &Vec<EdgeId>, id: &EdgeId) -> (r: bool)
    ensures
        r == edge_id_views(v@).contains(id@),
{
    for i in 0..v.len()
        invariant
            forall|j: int| 0 <= j < i ==> v@[j]@ != id@,
    {
        if v[i] == *id {
            assert(edge_id_views(v@)[i as int] == id@);
            return true;
        }
    }
    assert forall|j: int| 0 <= j < v@.len() implies #[trigger] edge_id_views(v@)[j] != id@ by {
        assert(edge_id_views(v@)[j] == v@[j]@);
    }
    false
}

fn push_once(v: &mut Vec<NodeId>, x: &NodeId)
    ensures
        node_ids_view(final(v)@) == add_once(node_ids_view(old(v)@), x@),
{
    if !contains_node_id(v, x) {
        let ghost before = node_ids_view(v@);
        v.push(x.clone());
        assert(node_ids_view(v@) =~= before.push(x@));
    }
}

/// Adds the links of `es` on a path from `up` to `down` to the picked ones.
fn add_paths(
    es: &Vec<&Edge>,
    up: &NodeId,
    down: &NodeId,
    out: &mut Vec<EdgeId>,
    nodes: &mut Vec<NodeId>,
    Ghost(acc): Ghost<Seq<EdgeView>>,
)
    requires
        edge_id_views(old(out)@) == edge_ids(first_by_id(acc)),
        node_ids_view(old(nodes)@) == ends_once(first_by_id(acc)),
    ensures
        edge_id_views(final(out)@) == edge_ids(
            first_by_id(acc + on_paths(edge_refs_view(es@), up@, down@)),
        ),
        node_ids_view(final(nodes)@) == ends_once(first_by_id(acc + on_paths(edge_refs_view(es@), up@, down@))),
{
    let ghost ev = edge_refs_view(es@);
    let after = reach(es, up, true);
    if !contains_node_id(&after, down) {
        assert(on_paths(ev, up@, down@) =~= Seq::<EdgeView>::empty());
        assert(acc + Seq::<EdgeView>::empty() =~= acc);
        return;
    }
    let before = reach(es, down, false);
    let ghost pred = on_path(ev, up@, down@);
    assert(acc + ev.take(0).filter(pred) =~= acc) by {
        reveal(Seq::filter);
    }
    for j in 0..es.len()
        invariant
            ev == edge_refs_view(es@),
            pred == on_path(ev, up@, down@),
            forall|x: Seq<char>| #[trigger] node_ids_view(after@).contains(x) <==> reaches(ev, true, up@, x),
            forall|x: Seq<char>| #[trigger] node_ids_view(before@).contains(x) <==> reaches(ev, false, down@, x),
            edge_id_views(out@) == edge_ids(first_by_id(acc + ev.take(j as int).filter(pred))),
            node_ids_view(nodes@) == ends_once(first_by_id(acc + ev.take(j as int).filter(pred))),
    {
        let e = es[j];
        let ghost a0 = acc + ev.take(j as int).filter(pred);
        proof {
            assert(ev[j as int] == e@);
            assert(ev.take(j + 1) =~= ev.take(j as int).push(ev[j as int]));
            ev.take(j as int).lemma_filter_push(ev[j as int], pred);
        }
        if contains_node_id(&after, &e.source) && contains_node_id(&before, &e.dest) {
            assert(acc + ev.take(j + 1).filter(pred) =~= a0.push(e@));
            assert(a0.push(e@).drop_last() =~= a0);
            if !contains_edge_id(out, &e.id) {
                let ghost o0 = edge_id_views(out@);
                out.push(e.id.clone());
                assert(edge_id_views(out@) =~= o0.push(e@.id));
                assert(edge_ids(first_by_id(a0).push(e@)) =~= edge_ids(first_by_id(a0)).push(e@.id));
                push_once(nodes, &e.source);
                push_once(nodes, &e.dest);
                assert(first_by_id(a0).push(e@).drop_last() =~= first_by_id(a0));
            }
        } else {
            assert(acc + ev.take(j + 1).filter(pred) =~= a0);
        }
    }
    assert(ev.take(es.len() as int) =~= ev);
}

/// The visible links on a path between `start` and `end` in either
/// direction (paths from `start` first), each once in document order, and
/// the nodes they join in order of first appearance.
pub fn connecting(doc: &Document, start: &NodeId, end: &NodeId) -> (r: (Vec<EdgeId>, Vec<NodeId>))
    ensures
        (edge_id_views(r.0@), node_ids_view(r.1@)) == spec_connecting(doc@, start@, end@),
{
    let edges = visible_edges(doc);
    let mut out: Vec<EdgeId> = Vec::new();
    let mut nodes: Vec<NodeId> = Vec::new();
    let ghost ev = edge_refs_view(edges@);
    assert(edge_id_views(out@) =~= Seq::<Seq<char>>::empty());
    assert(node_ids_view(nodes@) =~= Seq::<Seq<char>>::empty());
    let ghost acc0: Seq<EdgeView> = Seq::empty();
    assert(first_by_id(acc0) =~= Seq::<EdgeView>::empty());
    assert(edge_ids(first_by_id(acc0)) =~= Seq::<Seq<char>>::empty());
    assert(ends_once(first_by_id(acc0)) =~= Seq::<Seq<char>>::empty());
    add_paths(&edges, start, end, &mut out, &mut nodes, Ghost(acc0));
    let ghost acc1 = acc0 + on_paths(ev, start@, end@);
    add_paths(&edges, end, start, &mut out, &mut nodes, Ghost(acc1));
    assert(acc0 + on_paths(ev, start@, end@) =~= on_paths(ev, start@, end@));
    (out, nodes)
}

} // verus!
