//! How nodes nest for layout: the container each visible node is laid out
//! in, the extra copies drawn in its other containers, and the instances of
//! the visible links between those copies.
use crate::document::{
    lemma_index_of, node_ids, node_ids_view, node_pos, spec_edge_visible, spec_layer_active,
    spec_node_visible, DocView, Document, Edge, EdgeId, EdgeView, LayerId, NodeId, NodeView,
};
use crate::ancestry::{lemma_up_first, opt_int, settles, up};
use crate::layout::PlacementId;
use crate::selection::opt_id;
use crate::undo::{contains_layer_id, contains_node_id};
use vstd::prelude::*;

verus! {

/// The ids of the visible nodes, in document order.
pub open spec fn visible_ids(d: DocView) -> Seq<Seq<char>> {
    d.nodes.filter(visible_node(d)).map_values(|n: NodeView| n.id)
}

/// A visible node.
pub open spec fn visible_node(d: DocView) -> spec_fn(NodeView) -> bool {
    |n: NodeView| spec_node_visible(d, n)
}

/// A node other than `id`.
pub open spec fn not_itself(id: Seq<char>) -> spec_fn(Seq<char>) -> bool {
    |p: Seq<char>| p != id
}

/// What parent `p` is seen as from below: itself when it is among `vis`,
/// else the parents it is seen through, looking at most `fuel` hidden
/// parents up.
pub open spec fn seen_through(d: DocView, vis: Seq<Seq<char>>, p: Seq<char>, fuel: nat) -> Seq<Seq<char>>
    decreases fuel, 0nat,
{
    if vis.contains(p) {
        seq![p]
    } else if fuel == 0 || node_pos(d, p) < 0 {
        seq![]
    } else {
        seen_list(d, vis, d.nodes[node_pos(d, p)].parents, (fuel - 1) as nat)
    }
}

/// What each of the parents `ps` is seen as from below, in order.
pub open spec fn seen_list(d: DocView, vis: Seq<Seq<char>>, ps: Seq<Seq<char>>, fuel: nat) -> Seq<Seq<char>>
    decreases fuel, ps.len(),
{
    if ps.len() == 0 {
        seq![]
    } else {
        seen_list(d, vis, ps.drop_last(), fuel) + seen_through(d, vis, ps.last(), fuel)
    }
}

/// The visible parents of node `id` other than itself: its parents, as the
/// first node with that id lists them, among `vis`, each parent not among
/// `vis` replaced by the parents it is seen through, so that a node is seen
/// in the containers of a hidden parent. A chain of hidden parents is
/// followed at most as many steps as the document has nodes, which only
/// cuts a chain that comes round on itself.
pub open spec fn candidate_parents(d: DocView, vis: Seq<Seq<char>>, id: Seq<char>) -> Seq<Seq<char>> {
    if node_pos(d, id) < 0 {
        seq![]
    } else {
        seen_list(d, vis, d.nodes[node_pos(d, id)].parents, d.nodes.len()).filter(not_itself(id))
    }
}

/// What a parent is seen as is among `vis`.
proof fn lemma_seen_through_in(d: DocView, vis: Seq<Seq<char>>, p: Seq<char>, fuel: nat, i: int)
    requires
        0 <= i < seen_through(d, vis, p, fuel).len(),
    ensures
        vis.contains(seen_through(d, vis, p, fuel)[i]),
    decreases fuel, 0nat,
{
    if !vis.contains(p) && fuel > 0 && node_pos(d, p) >= 0 {
        lemma_seen_list_in(d, vis, d.nodes[node_pos(d, p)].parents, (fuel - 1) as nat, i);
    }
}

/// What parents are seen as is among `vis`.
proof fn lemma_seen_list_in(d: DocView, vis: Seq<Seq<char>>, ps: Seq<Seq<char>>, fuel: nat, i: int)
    requires
        0 <= i < seen_list(d, vis, ps, fuel).len(),
    ensures
        vis.contains(seen_list(d, vis, ps, fuel)[i]),
    decreases fuel, ps.len(),
{
    if ps.len() > 0 {
        let a = seen_list(d, vis, ps.drop_last(), fuel);
        if i < a.len() {
            lemma_seen_list_in(d, vis, ps.drop_last(), fuel, i);
        } else {
            lemma_seen_through_in(d, vis, ps.last(), fuel, i - a.len());
        }
    }
}

/// Each candidate parent of a node is among `vis` and is not the node.
proof fn lemma_candidate(d: DocView, vis: Seq<Seq<char>>, id: Seq<char>, i: int)
    requires
        0 <= i < candidate_parents(d, vis, id).len(),
    ensures
        vis.contains(candidate_parents(d, vis, id)[i]),
        candidate_parents(d, vis, id)[i] != id,
{
    let all = seen_list(d, vis, d.nodes[node_pos(d, id)].parents, d.nodes.len());
    all.lemma_filter_pred(not_itself(id), i);
    assert(all.filter(not_itself(id))[i] == candidate_parents(d, vis, id)[i]);
    assert(all.filter(not_itself(id)).contains(candidate_parents(d, vis, id)[i]));
    all.lemma_filter_contains_rev(not_itself(id), candidate_parents(d, vis, id)[i]);
    let j = choose|j: int| 0 <= j < all.len() && all[j] == candidate_parents(d, vis, id)[i];
    lemma_seen_list_in(d, vis, d.nodes[node_pos(d, id)].parents, d.nodes.len(), j);
}

/// The first visible parent of node `id` other than itself, if any.
pub open spec fn first_visible_parent(d: DocView, vis: Seq<Seq<char>>, id: Seq<char>) -> Option<Seq<char>> {
    let c = candidate_parents(d, vis, id);
    if c.len() > 0 {
        Some(c[0])
    } else {
        None
    }
}

/// Where following `m` from `x` for `k` steps leads, if the chain goes on
/// that far.
pub open spec fn follow(m: spec_fn(Seq<char>) -> Option<Seq<char>>, x: Seq<char>, k: nat) -> Option<
    Seq<char>,
>
    decreases k,
{
    if k == 0 {
        Some(x)
    } else {
        match follow(m, x, (k - 1) as nat) {
            Some(y) => m(y),
            None => None,
        }
    }
}

/// Following `m` from `x` never comes to an end.
pub open spec fn endless(m: spec_fn(Seq<char>) -> Option<Seq<char>>, x: Seq<char>) -> bool {
    forall|k: nat| #[trigger] follow(m, x, k) is Some
}

/// The parent of each node once the first `n` visible nodes have been
/// checked in turn: a node whose chain of parents never ends loses its
/// parent.
pub open spec fn parents_after(d: DocView, vis: Seq<Seq<char>>, n: nat) -> spec_fn(Seq<char>) -> Option<
    Seq<char>,
>
    decreases n,
{
    if n == 0 {
        |x: Seq<char>| first_visible_parent(d, vis, x)
    } else {
        let m = parents_after(d, vis, (n - 1) as nat);
        let x = vis[n - 1];
        if endless(m, x) {
            |y: Seq<char>|
                if y == x {
                    None
                } else {
                    m(y)
                }
        } else {
            m
        }
    }
}

/// The container a visible node is laid out in: its first visible parent
/// other than itself, unless the visible nodes before it, or itself, had a
/// chain of such parents that never ends and so were moved out.
pub open spec fn primary_parent(d: DocView, x: Seq<char>) -> Option<Seq<char>> {
    primary_map(d)(x)
}

/// The container of every node, as `primary_parent` gives it.
pub open spec fn primary_map(d: DocView) -> spec_fn(Seq<char>) -> Option<Seq<char>> {
    parents_after(d, visible_ids(d), visible_ids(d).len())
}

/// Following `m` for `a + t` steps is following it for `a` steps and then
/// for `t` more.
proof fn lemma_follow_add(m: spec_fn(Seq<char>) -> Option<Seq<char>>, x: Seq<char>, a: nat, t: nat)
    requires
        follow(m, x, a) is Some,
    ensures
        follow(m, x, a + t) == follow(m, follow(m, x, a)->0, t),
    decreases t,
{
    if t > 0 {
        lemma_follow_add(m, x, a, (t - 1) as nat);
        assert(follow(m, x, (a + t) as nat) == match follow(m, x, (a + t - 1) as nat) {
            Some(y) => m(y),
            None => None,
        });
    }
}

/// A chain that comes back to where it was never ends.
proof fn lemma_repeat_endless(m: spec_fn(Seq<char>) -> Option<Seq<char>>, x: Seq<char>, i: nat, j: nat, k: nat)
    requires
        i < j,
        forall|t: nat| t <= j ==> #[trigger] follow(m, x, t) is Some,
        follow(m, x, i) == follow(m, x, j),
    ensures
        follow(m, x, k) is Some,
    decreases k,
{
    if k > j {
        let back = (k - (j - i)) as nat;
        lemma_repeat_endless(m, x, i, j, back);
        lemma_follow_add(m, x, j, (k - j) as nat);
        lemma_follow_add(m, x, i, (k - j) as nat);
        assert(back == i + (k - j));
    } else {
        assert(follow(m, x, k) is Some);
    }
}

/// The first position of `x` among `ids`.
fn position_of(ids: &Vec<NodeId>, x: &NodeId) -> (r: usize)
    requires
        node_ids_view(ids@).contains(x@),
    ensures
        r < ids.len(),
        ids@[r as int]@ == x@,
{
    let ghost k = choose|k: int| 0 <= k < node_ids_view(ids@).len() && node_ids_view(ids@)[k] == x@;
    for i in 0..ids.len()
        invariant
            0 <= k < ids@.len(),
            ids@[k]@ == x@,
            forall|j: int| 0 <= j < i ==> ids@[j]@ != x@,
    {
        if ids[i] == *x {
            return i;
        }
    }
    assert(ids@[k]@ == x@);
    0
}

/// Whether following the parents `par` (the parent of `ids[i]` is `par[i]`)
/// from `start` never comes to an end.
fn chain_endless(ids: &Vec<NodeId>, par: &Vec<Option<NodeId>>, start: &NodeId, Ghost(m): Ghost<
    spec_fn(Seq<char>) -> Option<Seq<char>>,
>) -> (r: bool)
    requires
        ids.len() == par.len(),
        node_ids_view(ids@).contains(start@),
        forall|i: int| 0 <= i < ids.len() ==> #[trigger] opt_id(par@[i]) == m(ids@[i]@),
        forall|i: int|
            0 <= i < ids.len() && par@[i] is Some ==> node_ids_view(ids@).contains(
                #[trigger] par@[i]->0@,
            ),
    ensures
        r == endless(m, start@),
{
    let mut seen: Vec<NodeId> = Vec::new();
    seen.push(start.clone());
    let mut at: NodeId = start.clone();
    let ghost mut k: nat = 0;
    loop
        invariant
            ids.len() == par.len(),
            forall|i: int| 0 <= i < ids.len() ==> #[trigger] opt_id(par@[i]) == m(ids@[i]@),
            forall|i: int|
                0 <= i < ids.len() && par@[i] is Some ==> node_ids_view(ids@).contains(
                    #[trigger] par@[i]->0@,
                ),
            seen@.len() == k + 1,
            forall|t: nat| t <= k ==> #[trigger] follow(m, start@, t) == Some(seen@[t as int]@),
            at@ == seen@[k as int]@,
            forall|a: int, b: int| 0 <= a < b < seen@.len() ==> seen@[a]@ != seen@[b]@,
            forall|a: int| 0 <= a < seen@.len() ==> node_ids_view(ids@).contains(#[trigger] seen@[a]@),
        decreases ids.len() - seen.len(),
    {
        let i = position_of(ids, &at);
        assert(follow(m, start@, k) == Some(seen@[k as int]@));
        assert(follow(m, start@, k + 1) == m(at@));
        assert(opt_id(par@[i as int]) == m(at@));
        match &par[i] {
            None => {
                assert(follow(m, start@, k + 1) is None);
                return false;
            },
            Some(p) => {
                let again = contains_node_id(&seen, p);
                if again {
                    proof {
                        let a0 = choose|a: int| 0 <= a < node_ids_view(seen@).len() && node_ids_view(seen@)[a] == p@;
                        assert(node_ids_view(seen@)[a0] == seen@[a0]@);
                        let a = a0 as nat;
                        assert(follow(m, start@, a) == Some(seen@[a0]@));
                        assert(follow(m, start@, a) == follow(m, start@, k + 1));
                        assert forall|t: nat| t <= k + 1 implies #[trigger] follow(m, start@, t) is Some by {
                            if t <= k {
                                assert(follow(m, start@, t) == Some(seen@[t as int]@));
                            }
                        }
                        assert forall|t: nat| #[trigger] follow(m, start@, t) is Some by {
                            lemma_repeat_endless(m, start@, a, k + 1, t);
                        }
                    }
                    return true;
                }
                proof {
                    assert forall|a: int| 0 <= a < seen@.len() implies seen@[a]@ != p@ by {
                        assert(node_ids_view(seen@)[a] == seen@[a]@);
                    }
                    let sv = seen@.map_values(|n: NodeId| n@).push(p@);
                    assert forall|a: int, b: int| 0 <= a < b < sv.len() implies sv[a] != sv[b] by {
                        if b < seen@.len() {
                            assert(sv[a] == seen@[a]@ && sv[b] == seen@[b]@);
                        } else {
                            assert(sv[a] == seen@[a]@);
                        }
                    }
                    assert(sv.no_duplicates());
                    sv.unique_seq_to_set();
                    let all = node_ids_view(ids@);
                    assert forall|v: Seq<char>| sv.to_set().contains(v) implies all.to_set().contains(v) by {
                        let a = choose|a: int| 0 <= a < sv.len() && sv[a] == v;
                        if a < seen@.len() {
                            assert(sv[a] == seen@[a]@);
                        }
                    }
                    vstd::set_lib::lemma_len_subset(sv.to_set(), all.to_set());
                    all.lemma_cardinality_of_set();
                }
                seen.push(p.clone());
                at = p.clone();
                proof {
                    k = k + 1;
                }
            },
        }
    }
}

/// Appends what parent `p` is seen as from below, `vis` being the visible
/// ids.
fn push_seen(doc: &Document, vis: &Vec<NodeId>, p: &NodeId, fuel: usize, out: &mut Vec<NodeId>)
    ensures
        node_ids_view(final(out)@) == node_ids_view(old(out)@) + seen_through(
            doc@,
            node_ids_view(vis@),
            p@,
            fuel as nat,
        ),
    decreases fuel,
{
    let ghost d = doc@;
    let ghost vv = node_ids_view(vis@);
    let ghost start = node_ids_view(out@);
    if contains_node_id(vis, p) {
        out.push(p.clone());
        assert(node_ids_view(out@) =~= start + seq![p@]);
        return;
    }
    if fuel == 0 {
        assert(node_ids_view(out@) =~= start + Seq::<Seq<char>>::empty());
        return;
    }
    let n = match doc.node(p) {
        Some(n) => n,
        None => {
            assert(node_ids_view(out@) =~= start + Seq::<Seq<char>>::empty());
            return;
        },
    };
    let ghost ps = n@.parents;
    let ghost f = (fuel - 1) as nat;
    assert(seen_list(d, vv, ps.take(0), f) =~= Seq::<Seq<char>>::empty());
    assert(node_ids_view(out@) =~= start + Seq::<Seq<char>>::empty());
    for k in 0..n.parents.len()
        invariant
            d == doc@,
            vv == node_ids_view(vis@),
            ps == n@.parents,
            ps == node_ids_view(n.parents@),
            f == fuel - 1,
            fuel > 0,
            node_ids_view(out@) == start + seen_list(d, vv, ps.take(k as int), f),
    {
        proof {
            assert(ps[k as int] == n.parents@[k as int]@);
            assert(ps.take(k + 1).drop_last() =~= ps.take(k as int));
            assert(ps.take(k + 1).last() == ps[k as int]);
        }
        let ghost before = node_ids_view(out@);
        push_seen(doc, vis, &n.parents[k], fuel - 1, out);
        assert(node_ids_view(out@) =~= start + seen_list(d, vv, ps.take(k + 1), f));
    }
    assert(ps.take(n.parents.len() as int) =~= ps);
}

/// The visible parents of `id` other than itself, `vis` being the visible
/// ids.
fn parents_seen(doc: &Document, vis: &Vec<NodeId>, id: &NodeId) -> (r: Vec<NodeId>)
    ensures
        node_ids_view(r@) == candidate_parents(doc@, node_ids_view(vis@), id@),
{
    let ghost d = doc@;
    let ghost vv = node_ids_view(vis@);
    let n = match doc.node(id) {
        Some(n) => n,
        None => {
            return Vec::new();
        },
    };
    let ghost ps = n@.parents;
    let fuel = doc.nodes.len();
    let mut all: Vec<NodeId> = Vec::new();
    assert(seen_list(d, vv, ps.take(0), fuel as nat) =~= Seq::<Seq<char>>::empty());
    for k in 0..n.parents.len()
        invariant
            d == doc@,
            vv == node_ids_view(vis@),
            ps == n@.parents,
            ps == node_ids_view(n.parents@),
            fuel == d.nodes.len(),
            node_ids_view(all@) == seen_list(d, vv, ps.take(k as int), fuel as nat),
    {
        proof {
            assert(ps[k as int] == n.parents@[k as int]@);
            assert(ps.take(k + 1).drop_last() =~= ps.take(k as int));
            assert(ps.take(k + 1).last() == ps[k as int]);
        }
        push_seen(doc, vis, &n.parents[k], fuel, &mut all);
    }
    assert(ps.take(n.parents.len() as int) =~= ps);
    let ghost av = node_ids_view(all@);
    let ghost keep = not_itself(id@);
    let mut out: Vec<NodeId> = Vec::new();
    for i in 0..all.len()
        invariant
            av == node_ids_view(all@),
            keep == not_itself(id@),
            node_ids_view(out@) == av.take(i as int).filter(keep),
    {
        proof {
            assert(av[i as int] == all@[i as int]@);
            assert(av.take(i + 1) =~= av.take(i as int).push(av[i as int]));
            av.take(i as int).lemma_filter_push(av[i as int], keep);
        }
        if all[i] != *id {
            let ghost before = node_ids_view(out@);
            out.push(all[i].clone());
            assert(node_ids_view(out@) =~= before.push(av[i as int]));
        }
    }
    assert(av.take(all.len() as int) =~= av);
    out
}

/// The first visible parent of `id` other than itself, `vis` being the
/// visible ids.
fn first_parent(doc: &Document, vis: &Vec<NodeId>, id: &NodeId) -> (r: Option<NodeId>)
    ensures
        opt_id(r) == first_visible_parent(doc@, node_ids_view(vis@), id@),
        r is Some ==> node_ids_view(vis@).contains(r->0@),
{
    let c = parents_seen(doc, vis, id);
    if c.len() == 0 {
        return None;
    }
    proof {
        lemma_candidate(doc@, node_ids_view(vis@), id@, 0);
        assert(node_ids_view(c@)[0] == c@[0]@);
    }
    Some(c[0].clone())
}

/// The containers node `id` is drawn in: its visible parents other than
/// itself, in the order the node lists them, a hidden parent standing for
/// the parents it is seen through.
pub fn visible_parents(doc: &Document, id: &NodeId) -> (r: Vec<NodeId>)
    ensures
        node_ids_view(r@) == candidate_parents(doc@, visible_ids(doc@), id@),
{
    let vis = visible_node_ids(doc);
    parents_seen(doc, &vis, id)
}

/// The ids of the visible nodes, in document order.
pub fn visible_node_ids(doc: &Document) -> (r: Vec<NodeId>)
    ensures
        node_ids_view(r@) == visible_ids(doc@),
{
    let ghost d = doc@;
    let ghost f = visible_node(d);
    let mut out: Vec<NodeId> = Vec::new();
    for i in 0..doc.nodes.len()
        invariant
            d == doc@,
            f == visible_node(d),
            node_ids_view(out@) == d.nodes.take(i as int).filter(f).map_values(|n: NodeView| n.id),
    {
        let n = &doc.nodes[i];
        proof {
            assert(d.nodes[i as int] == n@);
            assert(d.nodes.take(i + 1) =~= d.nodes.take(i as int).push(d.nodes[i as int]));
            d.nodes.take(i as int).lemma_filter_push(d.nodes[i as int], f);
        }
        if doc.node_visible(n) {
            let ghost before = node_ids_view(out@);
            out.push(n.id.clone());
            assert(node_ids_view(out@) =~= before.push(n@.id));
            assert(d.nodes.take(i as int).filter(f).push(n@).map_values(|n: NodeView| n.id) =~= d.nodes.take(
                i as int,
            ).filter(f).map_values(|n: NodeView| n.id).push(n@.id));
        }
    }
    assert(d.nodes.take(doc.nodes.len() as int) =~= d.nodes);
    out
}

/// The visible nodes, in document order, each with the container it is laid
/// out in.
pub fn primary_parents(doc: &Document) -> (r: (Vec<NodeId>, Vec<Option<NodeId>>))
    ensures
        node_ids_view(r.0@) == visible_ids(doc@),
        r.1.len() == r.0.len(),
        forall|i: int| 0 <= i < r.0.len() ==> #[trigger] opt_id(r.1@[i]) == primary_parent(doc@, r.0@[i]@),
{
    let ids = visible_node_ids(doc);
    let ghost vv = node_ids_view(ids@);
    let mut par: Vec<Option<NodeId>> = Vec::new();
    for i in 0..ids.len()
        invariant
            vv == node_ids_view(ids@),
            par.len() == i,
            forall|j: int| 0 <= j < i ==> #[trigger] opt_id(par@[j]) == first_visible_parent(doc@, vv, ids@[j]@),
            forall|j: int| 0 <= j < i && par@[j] is Some ==> vv.contains(#[trigger] par@[j]->0@),
    {
        let p = first_parent(doc, &ids, &ids[i]);
        par.push(p);
    }
    assert(parents_after(doc@, vv, 0) == (|x: Seq<char>| first_visible_parent(doc@, vv, x)));
    for i in 0..ids.len()
        invariant
            vv == node_ids_view(ids@),
            vv.len() == ids.len(),
            par.len() == ids.len(),
            forall|j: int| 0 <= j < ids.len() ==> #[trigger] opt_id(par@[j]) == parents_after(doc@, vv, i as nat)(ids@[j]@),
            forall|j: int| 0 <= j < ids.len() && par@[j] is Some ==> vv.contains(#[trigger] par@[j]->0@),
    {
        let ghost m = parents_after(doc@, vv, i as nat);
        assert(vv[i as int] == ids@[i as int]@);
        assert(vv.contains(ids@[i as int]@));
        if chain_endless(&ids, &par, &ids[i], Ghost(m)) {
            let ghost x = ids@[i as int]@;
            let ghost m2 = parents_after(doc@, vv, (i + 1) as nat);
            for j in 0..ids.len()
                invariant
                    i < ids.len(),
                    x == ids@[i as int]@,
                    par.len() == ids.len(),
                    forall|t: int| 0 <= t < j ==> #[trigger] opt_id(par@[t]) == m2(ids@[t]@),
                    forall|t: int| j <= t < ids.len() ==> #[trigger] opt_id(par@[t]) == m(ids@[t]@),
                    forall|t: int| 0 <= t < ids.len() && par@[t] is Some ==> vv.contains(#[trigger] par@[t]->0@),
                    m2 == (|y: Seq<char>| if y == x { None } else { m(y) }),
            {
                if ids[j] == ids[i] {
                    par.set(j, None);
                }
            }
        } else {
            assert(parents_after(doc@, vv, (i + 1) as nat) == m);
        }
    }
    (ids, par)
}

/// Taking parents away (`m2` keeps or drops each parent of `m1`) keeps a
/// chain that ends from becoming endless.
proof fn lemma_fewer_parents_end(
    m1: spec_fn(Seq<char>) -> Option<Seq<char>>,
    m2: spec_fn(Seq<char>) -> Option<Seq<char>>,
    x: Seq<char>,
    k: nat,
)
    requires
        forall|y: Seq<char>| #[trigger] m2(y) == m1(y) || m2(y) is None,
        follow(m1, x, k) is None,
    ensures
        follow(m2, x, k) is None,
{
    assert forall|t: nat| #[trigger] follow(m2, x, t) is None || follow(m2, x, t) == follow(m1, x, t) by {
        lemma_fewer_parents_step(m1, m2, x, t);
    }
    assert(follow(m2, x, k) is None || follow(m2, x, k) == follow(m1, x, k));
}

proof fn lemma_fewer_parents_step(
    m1: spec_fn(Seq<char>) -> Option<Seq<char>>,
    m2: spec_fn(Seq<char>) -> Option<Seq<char>>,
    x: Seq<char>,
    t: nat,
)
    requires
        forall|y: Seq<char>| #[trigger] m2(y) == m1(y) || m2(y) is None,
    ensures
        follow(m2, x, t) is None || follow(m2, x, t) == follow(m1, x, t),
    decreases t,
{
    if t > 0 {
        lemma_fewer_parents_step(m1, m2, x, (t - 1) as nat);
        if let Some(y) = follow(m2, x, (t - 1) as nat) {
            assert(m2(y) == m1(y) || m2(y) is None);
        }
    }
}

/// Each step of the check keeps or drops each parent.
proof fn lemma_parents_after_shrink(d: DocView, vis: Seq<Seq<char>>, n1: nat, n2: nat)
    requires
        n1 <= n2 <= vis.len(),
    ensures
        forall|y: Seq<char>|
            #[trigger] parents_after(d, vis, n2)(y) == parents_after(d, vis, n1)(y) || parents_after(
                d,
                vis,
                n2,
            )(y) is None,
    decreases n2 - n1,
{
    if n1 < n2 {
        lemma_parents_after_shrink(d, vis, n1, (n2 - 1) as nat);
        assert forall|y: Seq<char>|
            #[trigger] parents_after(d, vis, n2)(y) == parents_after(d, vis, n1)(y) || parents_after(
                d,
                vis,
                n2,
            )(y) is None by {
            assert(parents_after(d, vis, (n2 - 1) as nat)(y) == parents_after(d, vis, n1)(y)
                || parents_after(d, vis, (n2 - 1) as nat)(y) is None);
        }
    }
}

/// Every node's parent under the check is its first visible parent or none.
proof fn lemma_parents_after_first(d: DocView, vis: Seq<Seq<char>>, n: nat, y: Seq<char>)
    requires
        n <= vis.len(),
    ensures
        parents_after(d, vis, n)(y) is None || parents_after(d, vis, n)(y) == first_visible_parent(d, vis, y),
{
    lemma_parents_after_shrink(d, vis, 0, n);
    assert(parents_after(d, vis, 0)(y) == first_visible_parent(d, vis, y));
}

/// A node is laid out in its first visible parent other than itself, or at
/// the top level.
pub proof fn lemma_primary_is_first_parent(d: DocView, x: Seq<char>)
    ensures
        primary_parent(d, x) is None || primary_parent(d, x) == first_visible_parent(d, visible_ids(d), x),
        primary_parent(d, x) matches Some(p) ==> p != x && visible_ids(d).contains(p),
{
    lemma_parents_after_first(d, visible_ids(d), visible_ids(d).len(), x);
    let c = candidate_parents(d, visible_ids(d), x);
    if c.len() > 0 {
        lemma_candidate(d, visible_ids(d), x, 0);
    }
}

/// Containers nest without cycles: following the containers from any node
/// reaches the top level.
pub proof fn lemma_nesting_acyclic(d: DocView, x: Seq<char>)
    ensures
        exists|k: nat| #[trigger] follow(primary_map(d), x, k) is None,
{
    let vis = visible_ids(d);
    let n = vis.len();
    let mf = primary_map(d);
    assert forall|i: int| 0 <= i < n implies !endless(mf, #[trigger] vis[i]) by {
        let mi = parents_after(d, vis, i as nat);
        let m1 = parents_after(d, vis, (i + 1) as nat);
        let k: nat = if endless(mi, vis[i]) {
            assert(follow(m1, vis[i], 0) == Some(vis[i]));
            assert(follow(m1, vis[i], 1) == m1(vis[i]));
            1
        } else {
            assert(m1 == mi);
            choose|k: nat| !(#[trigger] follow(mi, vis[i], k) is Some)
        };
        assert(follow(m1, vis[i], k) is None);
        lemma_parents_after_shrink(d, vis, (i + 1) as nat, n);
        lemma_fewer_parents_end(m1, mf, vis[i], k);
    }
    if vis.contains(x) {
        let i = choose|i: int| 0 <= i < n && vis[i] == x;
        assert(!endless(mf, vis[i]));
        let k = choose|k: nat| !(#[trigger] follow(mf, x, k) is Some);
        assert(follow(mf, x, k) is None);
    } else {
        lemma_primary_is_first_parent(d, x);
        match mf(x) {
            None => {
                assert(follow(mf, x, 0) == Some(x));
                assert(follow(mf, x, 1) is None);
            },
            Some(p) => {
                let i = choose|i: int| 0 <= i < n && vis[i] == p;
                assert(!endless(mf, vis[i]));
                let k = choose|k: nat| !(#[trigger] follow(mf, p, k) is Some);
                assert(follow(mf, x, 0) == Some(x));
                assert(follow(mf, x, 1) == Some(p));
                lemma_follow_add(mf, x, 1, k);
                assert(follow(mf, x, 1 + k) is None);
            },
        }
    }
}

/// Position of the last occurrence of `k` in `ids`, or -1 if there is none.
pub open spec fn last_index(ids: Seq<Seq<char>>, k: Seq<char>) -> int
    decreases ids.len(),
{
    if ids.len() == 0 {
        -1
    } else if ids.last() == k {
        ids.len() - 1
    } else {
        last_index(ids.drop_last(), k)
    }
}

proof fn lemma_last_index(ids: Seq<Seq<char>>, k: Seq<char>)
    ensures
        -1 <= last_index(ids, k) < ids.len(),
        last_index(ids, k) >= 0 ==> ids[last_index(ids, k)] == k,
        ids.contains(k) ==> last_index(ids, k) >= 0,
    decreases ids.len(),
{
    if ids.len() > 0 {
        lemma_last_index(ids.drop_last(), k);
        if ids.contains(k) && ids.last() != k {
            let j = choose|j: int| 0 <= j < ids.len() && ids[j] == k;
            assert(ids.drop_last()[j] == k);
        }
    }
}

/// The last position of `x` among `ids`.
fn last_position_of(ids: &Vec<NodeId>, x: &NodeId) -> (r: usize)
    requires
        node_ids_view(ids@).contains(x@),
    ensures
        r as int == last_index(node_ids_view(ids@), x@),
{
    let ghost v = node_ids_view(ids@);
    proof {
        lemma_last_index(v, x@);
    }
    let mut found: usize = 0;
    for i in 0..ids.len()
        invariant
            v == node_ids_view(ids@),
            last_index(v, x@) >= 0,
            last_index(v.take(i as int), x@) >= 0 ==> found as int == last_index(v.take(i as int), x@),
    {
        assert(v.take(i + 1).drop_last() =~= v.take(i as int));
        assert(v.take(i + 1).last() == ids@[i as int]@);
        if ids[i] == *x {
            found = i;
        }
    }
    assert(v.take(ids.len() as int) =~= v);
    found
}

/// One copy of a node to lay out: the node and the container it is laid out
/// in, the position of that container's own first copy, and whether this is
/// an extra copy drawn in a container other than the node's own.
pub struct Plan {
    pub id: PlacementId,
    pub parent: Option<usize>,
    pub is_ghost: bool,
}

pub struct PlanView {
    pub node: Seq<char>,
    pub container: Option<Seq<char>>,
    pub parent: Option<int>,
    pub is_ghost: bool,
}

impl View for Plan {
    type V = PlanView;

    open spec fn view(&self) -> PlanView {
        PlanView {
            node: self.id.node@,
            container: opt_id(self.id.container),
            parent: match self.parent {
                Some(j) => Some(j as int),
                None => None,
            },
            is_ghost: self.is_ghost,
        }
    }
}

pub open spec fn plans_view(v: Seq<Plan>) -> Seq<PlanView> {
    v.map_values(|p: Plan| p@)
}

/// The first copies: each visible node in its own container, whose first
/// copy is the last one of that container's id.
pub open spec fn own_plans(d: DocView) -> Seq<PlanView> {
    let vis = visible_ids(d);
    Seq::new(
        vis.len(),
        |i: int|
            PlanView {
                node: vis[i],
                container: primary_parent(d, vis[i]),
                parent: match primary_parent(d, vis[i]) {
                    Some(p) => Some(last_index(vis, p)),
                    None => None,
                },
                is_ghost: false,
            },
    )
}

/// `s` without repeats, each element kept where it first occurs.
pub open spec fn distinct_firsts(s: Seq<Seq<char>>) -> Seq<Seq<char>>
    decreases s.len(),
{
    if s.len() == 0 {
        seq![]
    } else {
        let r = distinct_firsts(s.drop_last());
        if r.contains(s.last()) {
            r
        } else {
            r.push(s.last())
        }
    }
}

/// The containers, other than its own, that a visible node is drawn in too:
/// its other visible parents, each once.
pub open spec fn extra_containers(d: DocView, id: Seq<char>) -> Seq<Seq<char>> {
    distinct_firsts(candidate_parents(d, visible_ids(d), id).filter(not_primary(d, id)))
}

/// A container other than the one node `id` is laid out in.
pub open spec fn not_primary(d: DocView, id: Seq<char>) -> spec_fn(Seq<char>) -> bool {
    |p: Seq<char>| primary_parent(d, id) != Some(p)
}

/// The extra copies of node `id` drawn in its other containers.
pub open spec fn extra_plans_of(d: DocView, id: Seq<char>) -> Seq<PlanView> {
    extra_containers(d, id).map_values(extra_plan(d, id))
}

/// The extra copy of node `id` drawn in container `p`.
pub open spec fn extra_plan(d: DocView, id: Seq<char>) -> spec_fn(Seq<char>) -> PlanView {
    |p: Seq<char>|
        PlanView {
            node: id,
            container: Some(p),
            parent: Some(last_index(visible_ids(d), p)),
            is_ghost: true,
        }
}

/// The extra copies of the first `n` visible nodes, in order.
pub open spec fn extra_plans(d: DocView, n: nat) -> Seq<PlanView>
    decreases n,
{
    if n == 0 {
        seq![]
    } else {
        extra_plans(d, (n - 1) as nat) + extra_plans_of(d, visible_ids(d)[n - 1])
    }
}

/// Every copy to lay out: the first copies of the visible nodes, then their
/// extra copies.
pub open spec fn spec_placements(d: DocView) -> Seq<PlanView> {
    own_plans(d) + extra_plans(d, visible_ids(d).len())
}


fn same_as(o: &Option<NodeId>, x: &NodeId) -> (r: bool)
    ensures
        r == (opt_id(*o) == Some(x@)),
{
    match o {
        Some(y) => *y == *x,
        None => false,
    }
}

/// Appends the extra copies of visible node `id`, laid out in `primary`.
fn push_extra_plans(doc: &Document, ids: &Vec<NodeId>, primary: &Option<NodeId>, id: &NodeId, out: &mut Vec<Plan>)
    requires
        node_ids_view(ids@) == visible_ids(doc@),
        opt_id(*primary) == primary_parent(doc@, id@),
    ensures
        plans_view(final(out)@) == plans_view(old(out)@) + extra_plans_of(doc@, id@),
{
    let ghost d = doc@;
    let ghost vv = node_ids_view(ids@);
    let ghost g = not_primary(d, id@);
    let ghost mk = extra_plan(d, id@);
    let ghost start = plans_view(out@);
    let cands = parents_seen(doc, ids, id);
    let ghost cv = node_ids_view(cands@);
    let mut seen: Vec<NodeId> = Vec::new();
    assert(cv.take(0).filter(g) =~= seq![]) by {
        reveal(Seq::filter);
    }
    assert(plans_view(out@) =~= start + node_ids_view(seen@).map_values(mk));
    for k in 0..cands.len()
        invariant
            d == doc@,
            vv == node_ids_view(ids@),
            vv == visible_ids(d),
            g == not_primary(d, id@),
            mk == extra_plan(d, id@),
            cv == node_ids_view(cands@),
            cv == candidate_parents(d, vv, id@),
            opt_id(*primary) == primary_parent(d, id@),
            node_ids_view(seen@) == distinct_firsts(cv.take(k as int).filter(g)),
            plans_view(out@) == start + node_ids_view(seen@).map_values(mk),
    {
        let p = &cands[k];
        let ghost before = cv.take(k as int).filter(g);
        proof {
            assert(cv[k as int] == p@);
            assert(cv.take(k + 1) =~= cv.take(k as int).push(p@));
            cv.take(k as int).lemma_filter_push(p@, g);
            lemma_candidate(d, vv, id@, k as int);
        }
        if !same_as(primary, p) {
            assert(cv.take(k + 1).filter(g) == before.push(p@));
            assert(before.push(p@).drop_last() =~= before);
            if !contains_node_id(&seen, p) {
                let ghost sv = node_ids_view(seen@);
                let ghost ov = plans_view(out@);
                seen.push(p.clone());
                out.push(
                    Plan {
                        id: PlacementId { node: id.clone(), container: Some(p.clone()) },
                        parent: Some(last_position_of(ids, p)),
                        is_ghost: true,
                    },
                );
                assert(node_ids_view(seen@) =~= sv.push(p@));
                assert(plans_view(out@) =~= ov.push(mk(p@)));
                assert(sv.push(p@).map_values(mk) =~= sv.map_values(mk).push(mk(p@)));
            }
        } else {
            assert(cv.take(k + 1).filter(g) == before);
        }
    }
    assert(cv.take(cands.len() as int) =~= cv);
}

/// Every copy of a node to lay out: first each visible node in the
/// container it is laid out in, then its extra copies in its other visible
/// parents.
pub fn placements(doc: &Document) -> (r: Vec<Plan>)
    ensures
        plans_view(r@) == spec_placements(doc@),
{
    let (ids, par) = primary_parents(doc);
    let ghost vv = node_ids_view(ids@);
    let ghost own = own_plans(doc@);
    let mut out: Vec<Plan> = Vec::new();
    for i in 0..ids.len()
        invariant
            vv == node_ids_view(ids@),
            vv == visible_ids(doc@),
            own == own_plans(doc@),
            par.len() == ids.len(),
            forall|j: int| 0 <= j < ids.len() ==> #[trigger] opt_id(par@[j]) == primary_parent(doc@, ids@[j]@),
            plans_view(out@) == own.take(i as int),
    {
        assert(vv[i as int] == ids@[i as int]@);
        assert(opt_id(par@[i as int]) == primary_parent(doc@, ids@[i as int]@));
        let parent = match &par[i] {
            Some(p) => {
                proof {
                    lemma_primary_is_first_parent(doc@, ids@[i as int]@);
                }
                Some(last_position_of(&ids, p))
            },
            None => None,
        };
        let ghost ov = plans_view(out@);
        out.push(Plan { id: PlacementId { node: ids[i].clone(), container: par[i].clone() }, parent, is_ghost: false });
        assert(plans_view(out@) =~= ov.push(own[i as int]));
        assert(own.take(i + 1) =~= own.take(i as int).push(own[i as int]));
    }
    assert(own.take(ids.len() as int) =~= own);
    assert(extra_plans(doc@, 0) =~= seq![]);
    for i in 0..ids.len()
        invariant
            vv == node_ids_view(ids@),
            vv == visible_ids(doc@),
            own == own_plans(doc@),
            par.len() == ids.len(),
            forall|j: int| 0 <= j < ids.len() ==> #[trigger] opt_id(par@[j]) == primary_parent(doc@, ids@[j]@),
            plans_view(out@) == own + extra_plans(doc@, i as nat),
    {
        assert(vv[i as int] == ids@[i as int]@);
        assert(opt_id(par@[i as int]) == primary_parent(doc@, ids@[i as int]@));
        push_extra_plans(doc, &ids, &par[i], &ids[i], &mut out);
        assert(own + extra_plans(doc@, (i + 1) as nat) =~= own + extra_plans(doc@, i as nat) + extra_plans_of(
            doc@,
            vv[i as int],
        ));
    }
    out
}

/// Whether a visible link is drawn emphasized: an active layer is selected,
/// and the link is in it or one of its end nodes is (as the last node with
/// that node's id lists its layers).
pub open spec fn emphasized(d: DocView, e: EdgeView) -> bool {
    match d.selected_layer {
        Some(l) => spec_layer_active(d, l) && (e.layer == Some(l) || d.nodes[last_index(
            node_ids(d.nodes),
            e.source,
        )].layers.contains(l) || d.nodes[last_index(node_ids(d.nodes), e.dest)].layers.contains(l)),
        None => false,
    }
}

/// One copy of a link between two copies of nodes, by their positions
/// among the placements.
pub struct Instance {
    pub edge: EdgeId,
    pub source: usize,
    pub dest: usize,
    pub emphasized: bool,
}

pub struct InstanceView {
    pub edge: Seq<char>,
    pub source: int,
    pub dest: int,
    pub emphasized: bool,
}

impl View for Instance {
    type V = InstanceView;

    open spec fn view(&self) -> InstanceView {
        InstanceView {
            edge: self.edge@,
            source: self.source as int,
            dest: self.dest as int,
            emphasized: self.emphasized,
        }
    }
}

pub open spec fn instances_view(v: Seq<Instance>) -> Seq<InstanceView> {
    v.map_values(|x: Instance| x@)
}

/// The copies of link `e` that the first `n` placements add: for each extra
/// copy, in order, one from it when it is a copy of the source and one to it
/// when it is a copy of the dest (`s` and `t` being the first copies of the
/// ends, `w` the emphasis).
pub open spec fn extra_instances(plans: Seq<PlanView>, e: EdgeView, s: int, t: int, w: bool, n: nat) -> Seq<
    InstanceView,
>
    decreases n,
{
    if n == 0 {
        seq![]
    } else {
        let prev = extra_instances(plans, e, s, t, w, (n - 1) as nat);
        let p = plans[n - 1];
        if !p.is_ghost {
            prev
        } else {
            let a = if p.node == e.source {
                prev.push(InstanceView { edge: e.id, source: n - 1, dest: t, emphasized: w })
            } else {
                prev
            };
            if p.node == e.dest {
                a.push(InstanceView { edge: e.id, source: s, dest: n - 1, emphasized: w })
            } else {
                a
            }
        }
    }
}

/// The copies of visible link `e`: between the first copies of its ends,
/// then those the extra copies of its ends add.
pub open spec fn instances_of(d: DocView, plans: Seq<PlanView>, e: EdgeView) -> Seq<InstanceView> {
    let vis = visible_ids(d);
    let s = last_index(vis, e.source);
    let t = last_index(vis, e.dest);
    let w = emphasized(d, e);
    seq![InstanceView { edge: e.id, source: s, dest: t, emphasized: w }] + extra_instances(
        plans,
        e,
        s,
        t,
        w,
        plans.len(),
    )
}

/// The copies of the visible links among the first `n` links, in order.
pub open spec fn spec_instances(d: DocView, plans: Seq<PlanView>, n: nat) -> Seq<InstanceView>
    decreases n,
{
    if n == 0 {
        seq![]
    } else {
        let prev = spec_instances(d, plans, (n - 1) as nat);
        let e = d.edges[n - 1];
        if spec_edge_visible(d, e) {
            prev + instances_of(d, plans, e)
        } else {
            prev
        }
    }
}

/// The visible nodes are those of the visible ids.
proof fn lemma_visible_has(d: DocView, i: int)
    requires
        0 <= i < d.nodes.len(),
        spec_node_visible(d, d.nodes[i]),
    ensures
        visible_ids(d).contains(d.nodes[i].id),
{
    let f = visible_node(d);
    d.nodes.lemma_filter_contains(f, i);
    let fl = d.nodes.filter(f);
    let j = choose|j: int| 0 <= j < fl.len() && fl[j] == d.nodes[i];
    assert(visible_ids(d)[j] == d.nodes[i].id);
}

/// Both ends of a visible link are visible.
proof fn lemma_visible_edge_ends(d: DocView, e: EdgeView)
    requires
        spec_edge_visible(d, e),
    ensures
        visible_ids(d).contains(e.source),
        visible_ids(d).contains(e.dest),
        node_ids(d.nodes).contains(e.source),
        node_ids(d.nodes).contains(e.dest),
{
    lemma_index_of(node_ids(d.nodes), e.source);
    lemma_index_of(node_ids(d.nodes), e.dest);
    assert(node_ids(d.nodes)[node_pos(d, e.source)] == d.nodes[node_pos(d, e.source)].id);
    assert(node_ids(d.nodes)[node_pos(d, e.dest)] == d.nodes[node_pos(d, e.dest)].id);
    lemma_visible_has(d, node_pos(d, e.source));
    lemma_visible_has(d, node_pos(d, e.dest));
}

/// The position of the last node with the id.
fn last_node_index(doc: &Document, id: &NodeId) -> (r: usize)
    requires
        node_ids(doc@.nodes).contains(id@),
    ensures
        r as int == last_index(node_ids(doc@.nodes), id@),
        r < doc.nodes.len(),
{
    let ghost v = node_ids(doc@.nodes);
    proof {
        lemma_last_index(v, id@);
    }
    let mut found: usize = 0;
    for i in 0..doc.nodes.len()
        invariant
            v == node_ids(doc@.nodes),
            v.len() == doc.nodes.len(),
            last_index(v, id@) >= 0,
            last_index(v, id@) < v.len(),
            found < doc.nodes.len() || doc.nodes.len() == 0,
            last_index(v.take(i as int), id@) >= 0 ==> found as int == last_index(v.take(i as int), id@),
    {
        assert(v.take(i + 1).drop_last() =~= v.take(i as int));
        assert(v.take(i + 1).last() == doc.nodes@[i as int]@.id);
        if doc.nodes[i].id == *id {
            found = i;
        }
    }
    assert(v.take(doc.nodes.len() as int) =~= v);
    found
}

fn layer_is(o: &Option<LayerId>, l: &LayerId) -> (r: bool)
    ensures
        r == (match o {
            Some(x) => x@ == l@,
            None => false,
        }),
{
    match o {
        Some(x) => *x == *l,
        None => false,
    }
}

/// Whether visible link `e` is drawn emphasized.
fn is_emphasized(doc: &Document, e: &Edge) -> (r: bool)
    requires
        spec_edge_visible(doc@, e@),
    ensures
        r == emphasized(doc@, e@),
{
    proof {
        lemma_visible_edge_ends(doc@, e@);
    }
    match &doc.selected_layer {
        None => false,
        Some(l) => {
            if !doc.layer_active(l) {
                return false;
            }
            if layer_is(&e.layer, l) {
                return true;
            }
            let s = last_node_index(doc, &e.source);
            assert(doc@.nodes[s as int] == doc.nodes@[s as int]@);
            if contains_layer_id(&doc.nodes[s].layers, l) {
                return true;
            }
            let t = last_node_index(doc, &e.dest);
            assert(doc@.nodes[t as int] == doc.nodes@[t as int]@);
            contains_layer_id(&doc.nodes[t].layers, l)
        },
    }
}

/// Appends the copies of visible link `e` between the placements `plans`.
fn push_instances(doc: &Document, ids: &Vec<NodeId>, plans: &Vec<Plan>, e: &Edge, out: &mut Vec<Instance>)
    requires
        node_ids_view(ids@) == visible_ids(doc@),
        spec_edge_visible(doc@, e@),
    ensures
        instances_view(final(out)@) == instances_view(old(out)@) + instances_of(doc@, plans_view(plans@), e@),
{
    let ghost pv = plans_view(plans@);
    proof {
        lemma_visible_edge_ends(doc@, e@);
    }
    let s = last_position_of(ids, &e.source);
    let t = last_position_of(ids, &e.dest);
    let w = is_emphasized(doc, e);
    let ghost start = instances_view(out@);
    out.push(Instance { edge: e.id.clone(), source: s, dest: t, emphasized: w });
    let ghost first = seq![InstanceView { edge: e@.id, source: s as int, dest: t as int, emphasized: w }];
    assert(instances_view(out@) =~= start + first + extra_instances(pv, e@, s as int, t as int, w, 0));
    for j in 0..plans.len()
        invariant
            pv == plans_view(plans@),
            instances_view(out@) == start + first + extra_instances(pv, e@, s as int, t as int, w, j as nat),
    {
        let p = &plans[j];
        assert(pv[j as int] == p@);
        if p.is_ghost {
            let ghost o0 = instances_view(out@);
            if p.id.node == e.source {
                out.push(Instance { edge: e.id.clone(), source: j, dest: t, emphasized: w });
            }
            let ghost o1 = instances_view(out@);
            if p.id.node == e.dest {
                out.push(Instance { edge: e.id.clone(), source: s, dest: j, emphasized: w });
            }
            proof {
                let a = extra_instances(pv, e@, s as int, t as int, w, j as nat);
                let x = InstanceView { edge: e@.id, source: j as int, dest: t as int, emphasized: w };
                let y = InstanceView { edge: e@.id, source: s as int, dest: j as int, emphasized: w };
                if p@.node == e@.source {
                    assert(o1 =~= o0.push(x));
                } else {
                    assert(o1 == o0);
                }
                if p@.node == e@.dest {
                    assert(instances_view(out@) =~= o1.push(y));
                } else {
                    assert(instances_view(out@) == o1);
                }
                assert(start + first + (if p@.node == e@.source { a.push(x) } else { a }) =~= if p@.node
                    == e@.source {
                    (start + first + a).push(x)
                } else {
                    start + first + a
                });
                let b = if p@.node == e@.source { a.push(x) } else { a };
                assert(start + first + (if p@.node == e@.dest { b.push(y) } else { b }) =~= if p@.node
                    == e@.dest {
                    (start + first + b).push(y)
                } else {
                    start + first + b
                });
            }
        }
    }
    assert(start + first + extra_instances(pv, e@, s as int, t as int, w, pv.len()) =~= start + instances_of(doc@, pv, e@));
}

/// The copies of the nodes to lay out and the copies of the visible links
/// between them: each visible link joins the first copies of its ends, and
/// again each extra copy of one of its ends to the first copy of the other.
pub fn layout_graph(doc: &Document) -> (r: (Vec<Plan>, Vec<Instance>))
    ensures
        plans_view(r.0@) == spec_placements(doc@),
        instances_view(r.1@) == spec_instances(doc@, spec_placements(doc@), doc@.edges.len()),
{
    let plans = placements(doc);
    let ids = visible_node_ids(doc);
    let ghost pv = plans_view(plans@);
    let mut out: Vec<Instance> = Vec::new();
    for i in 0..doc.edges.len()
        invariant
            pv == plans_view(plans@),
            pv == spec_placements(doc@),
            node_ids_view(ids@) == visible_ids(doc@),
            instances_view(out@) == spec_instances(doc@, pv, i as nat),
    {
        let e = &doc.edges[i];
        assert(doc@.edges[i as int] == e@);
        if doc.edge_visible(e) {
            push_instances(doc, &ids, &plans, e, &mut out);
        }
    }
    (plans, out)
}

proof fn lemma_distinct_firsts_within(s: Seq<Seq<char>>, x: Seq<char>)
    requires
        distinct_firsts(s).contains(x),
    ensures
        s.contains(x),
    decreases s.len(),
{
    if s.len() > 0 {
        let r = distinct_firsts(s.drop_last());
        if r.contains(x) {
            lemma_distinct_firsts_within(s.drop_last(), x);
            let j = choose|j: int| 0 <= j < s.drop_last().len() && s.drop_last()[j] == x;
            assert(s[j] == x);
        } else {
            assert(s[s.len() - 1] == x);
        }
    }
}

/// An extra container of a node is a visible node other than itself and
/// other than its own container.
proof fn lemma_extra_container(d: DocView, id: Seq<char>, p: Seq<char>)
    requires
        extra_containers(d, id).contains(p),
    ensures
        visible_ids(d).contains(p),
        p != id,
        primary_parent(d, id) != Some(p),
{
    let vis = visible_ids(d);
    let c = candidate_parents(d, vis, id);
    lemma_distinct_firsts_within(c.filter(not_primary(d, id)), p);
    c.lemma_filter_contains_rev(not_primary(d, id), p);
    let j = choose|j: int| 0 <= j < c.filter(not_primary(d, id)).len() && c.filter(not_primary(d, id))[j] == p;
    c.lemma_filter_pred(not_primary(d, id), j);
    let i = choose|i: int| 0 <= i < c.len() && c[i] == p;
    lemma_candidate(d, vis, id, i);
}

/// The extra plans of the first `n` visible nodes are copies of those nodes
/// in their extra containers, each pointing at its container's first copy.
proof fn lemma_extra_plans_shape(d: DocView, n: nat, k: int)
    requires
        n <= visible_ids(d).len(),
        0 <= k < extra_plans(d, n).len(),
    ensures
        extra_plans(d, n)[k].is_ghost,
        extra_plans(d, n)[k].container matches Some(p) && extra_plans(d, n)[k].parent == Some(
            last_index(visible_ids(d), p),
        ) && visible_ids(d).contains(p) && p != extra_plans(d, n)[k].node && visible_ids(d).contains(
            extra_plans(d, n)[k].node,
        ) && primary_parent(d, extra_plans(d, n)[k].node) != Some(p),
    decreases n,
{
    let prev = extra_plans(d, (n - 1) as nat);
    let id = visible_ids(d)[n - 1];
    if k < prev.len() {
        lemma_extra_plans_shape(d, (n - 1) as nat, k);
        assert(extra_plans(d, n)[k] == prev[k]);
    } else {
        let ec = extra_containers(d, id);
        let j = k - prev.len();
        assert(extra_plans(d, n)[k] == extra_plan(d, id)(ec[j]));
        lemma_extra_container(d, id, ec[j]);
        assert(visible_ids(d).contains(id)) by {
            assert(visible_ids(d)[n - 1] == id);
        }
    }
}

/// Only visible nodes are drawn: every copy is of a visible node; a first
/// copy sits in the node's own container, and an extra copy in another of
/// its visible parents, never in the node itself.
pub proof fn lemma_copies_of_visible(d: DocView, i: int)
    requires
        0 <= i < spec_placements(d).len(),
    ensures
        visible_ids(d).contains(spec_placements(d)[i].node),
        !spec_placements(d)[i].is_ghost ==> spec_placements(d)[i].container == primary_parent(
            d,
            spec_placements(d)[i].node,
        ),
        spec_placements(d)[i].is_ghost ==> (spec_placements(d)[i].container matches Some(p) && {
            &&& visible_ids(d).contains(p)
            &&& p != spec_placements(d)[i].node
            &&& primary_parent(d, spec_placements(d)[i].node) != Some(p)
        }),
{
    let vis = visible_ids(d);
    let own = own_plans(d);
    if i < own.len() {
        assert(spec_placements(d)[i] == own[i]);
        assert(vis.contains(vis[i]));
    } else {
        lemma_extra_plans_shape(d, vis.len(), i - own.len());
        assert(spec_placements(d)[i] == extra_plans(d, vis.len())[i - own.len()]);
    }
}

/// Every visible node is drawn, with a first copy of its own, and a node
/// that is not visible is not drawn at all.
pub proof fn lemma_visible_drawn(d: DocView, x: Seq<char>)
    ensures
        visible_ids(d).contains(x) ==> exists|i: int|
            0 <= i < spec_placements(d).len() && #[trigger] spec_placements(d)[i].node == x
                && !spec_placements(d)[i].is_ghost,
        !visible_ids(d).contains(x) ==> forall|i: int|
            0 <= i < spec_placements(d).len() ==> #[trigger] spec_placements(d)[i].node != x,
{
    if visible_ids(d).contains(x) {
        lemma_own_copy(d, x);
        let j = last_index(visible_ids(d), x);
        assert(spec_placements(d)[j].node == x && !spec_placements(d)[j].is_ghost);
    } else {
        assert forall|i: int| 0 <= i < spec_placements(d).len() implies #[trigger] spec_placements(d)[i].node != x by {
            lemma_copies_of_visible(d, i);
        }
    }
}

/// Every copy's parent is the first copy of its container: a copy in a
/// container points at a copy of that container laid out in its own
/// container, and a copy at the top level points at nothing.
pub proof fn lemma_plan_parents(d: DocView, i: int)
    requires
        0 <= i < spec_placements(d).len(),
    ensures
        spec_placements(d)[i].parent matches Some(j) ==> {
            &&& j < spec_placements(d).len()
            &&& !spec_placements(d)[j as int].is_ghost
            &&& Some(spec_placements(d)[j as int].node) == spec_placements(d)[i].container
        },
        spec_placements(d)[i].parent is None <==> spec_placements(d)[i].container is None,
{
    let vis = visible_ids(d);
    let all = spec_placements(d);
    let own = own_plans(d);
    if i < own.len() {
        lemma_primary_is_first_parent(d, vis[i]);
        if let Some(p) = primary_parent(d, vis[i]) {
            lemma_last_index(vis, p);
            let j = last_index(vis, p);
            assert(all[j] == own[j]);
        }
    } else {
        lemma_extra_plans_shape(d, vis.len(), i - own.len());
        let x = extra_plans(d, vis.len())[i - own.len()];
        assert(all[i] == x);
        let p = x.container->0;
        lemma_last_index(vis, p);
        let j = last_index(vis, p);
        assert(all[j] == own[j]);
    }
}

/// Whether `x` is a copy of link `e` between copies, among `plans`, of its
/// source and of its dest.
pub open spec fn joins_copies(plans: Seq<PlanView>, e: EdgeView, x: InstanceView) -> bool {
    &&& x.edge == e.id
    &&& 0 <= x.source < plans.len()
    &&& 0 <= x.dest < plans.len()
    &&& plans[x.source].node == e.source
    &&& plans[x.dest].node == e.dest
}

proof fn lemma_extra_instances_join(plans: Seq<PlanView>, e: EdgeView, s: int, t: int, w: bool, n: nat, k: int)
    requires
        n <= plans.len(),
        0 <= s < plans.len(),
        0 <= t < plans.len(),
        plans[s].node == e.source,
        plans[t].node == e.dest,
        0 <= k < extra_instances(plans, e, s, t, w, n).len(),
    ensures
        joins_copies(plans, e, extra_instances(plans, e, s, t, w, n)[k]),
    decreases n,
{
    let prev = extra_instances(plans, e, s, t, w, (n - 1) as nat);
    if k < prev.len() {
        lemma_extra_instances_join(plans, e, s, t, w, (n - 1) as nat, k);
        let p = plans[n - 1];
        let a = if p.node == e.source {
            prev.push(InstanceView { edge: e.id, source: n - 1, dest: t, emphasized: w })
        } else {
            prev
        };
        assert(a[k] == prev[k]);
    }
}

/// The first copy of a visible node is the last first copy with its id.
proof fn lemma_own_copy(d: DocView, x: Seq<char>)
    requires
        visible_ids(d).contains(x),
    ensures
        0 <= last_index(visible_ids(d), x) < spec_placements(d).len(),
        spec_placements(d)[last_index(visible_ids(d), x)].node == x,
        !spec_placements(d)[last_index(visible_ids(d), x)].is_ghost,
{
    let vis = visible_ids(d);
    lemma_last_index(vis, x);
    let j = last_index(vis, x);
    assert(spec_placements(d)[j] == own_plans(d)[j]);
}

/// The extra copies of a link all carry the link's id and its emphasis.
proof fn lemma_extra_instances_marked(plans: Seq<PlanView>, e: EdgeView, s: int, t: int, w: bool, n: nat, k: int)
    requires
        n <= plans.len(),
        0 <= k < extra_instances(plans, e, s, t, w, n).len(),
    ensures
        extra_instances(plans, e, s, t, w, n)[k].edge == e.id,
        extra_instances(plans, e, s, t, w, n)[k].emphasized == w,
    decreases n,
{
    let prev = extra_instances(plans, e, s, t, w, (n - 1) as nat);
    if k < prev.len() {
        lemma_extra_instances_marked(plans, e, s, t, w, (n - 1) as nat, k);
        let p = plans[n - 1];
        let a = if p.node == e.source {
            prev.push(InstanceView { edge: e.id, source: n - 1, dest: t, emphasized: w })
        } else {
            prev
        };
        assert(a[k] == prev[k]);
    }
}

/// How the copies of links are weighted: with no layer selected, or the
/// selected layer inactive, no copy is emphasized; with an active layer
/// selected, every copy of a link that lies in that layer, or whose source
/// or dest node (the last node with its id) is in it, is emphasized.
pub proof fn lemma_selected_layer_emphasized(d: DocView, n: nat, k: int)
    requires
        n <= d.edges.len(),
        0 <= k < spec_instances(d, spec_placements(d), n).len(),
    ensures
        exists|i: int|
            #![trigger d.edges[i]]
            {
                let x = spec_instances(d, spec_placements(d), n)[k];
                let e = d.edges[i];
                &&& 0 <= i < n
                &&& e.id == x.edge
                &&& spec_edge_visible(d, e)
                &&& d.selected_layer is None ==> !x.emphasized
                &&& (d.selected_layer matches Some(l) && !spec_layer_active(d, l)) ==> !x.emphasized
                &&& (d.selected_layer matches Some(l) && spec_layer_active(d, l) && e.layer == Some(l)) ==> x.emphasized
                &&& (d.selected_layer matches Some(l) && spec_layer_active(d, l) && d.nodes[last_index(
                    node_ids(d.nodes),
                    e.source,
                )].layers.contains(l)) ==> x.emphasized
                &&& (d.selected_layer matches Some(l) && spec_layer_active(d, l) && d.nodes[last_index(
                    node_ids(d.nodes),
                    e.dest,
                )].layers.contains(l)) ==> x.emphasized
            },
    decreases n,
{
    let pl = spec_placements(d);
    let prev = spec_instances(d, pl, (n - 1) as nat);
    let e = d.edges[n - 1];
    let all = spec_instances(d, pl, n);
    if k < prev.len() {
        lemma_selected_layer_emphasized(d, (n - 1) as nat, k);
        if spec_edge_visible(d, e) {
            assert(all[k] == prev[k]);
        }
        assert(all[k] == prev[k]);
    } else {
        assert(spec_edge_visible(d, e));
        let vis = visible_ids(d);
        let s = last_index(vis, e.source);
        let t = last_index(vis, e.dest);
        let j = k - prev.len();
        let mine = instances_of(d, pl, e);
        assert(all[k] == mine[j]);
        if j > 0 {
            lemma_extra_instances_marked(pl, e, s, t, emphasized(d, e), pl.len(), j - 1);
        }
        assert(all[k].edge == e.id && all[k].emphasized == emphasized(d, e));
        assert(d.edges[n - 1].id == all[k].edge);
    }
}

/// Every copy of a link joins a copy of the link's source to a copy of its
/// dest, and the link is visible.
pub proof fn lemma_instances_join_ends(d: DocView, n: nat, k: int)
    requires
        n <= d.edges.len(),
        0 <= k < spec_instances(d, spec_placements(d), n).len(),
    ensures
        exists|i: int|
            0 <= i < n && spec_edge_visible(d, d.edges[i]) && joins_copies(
                spec_placements(d),
                d.edges[i],
                #[trigger] spec_instances(d, spec_placements(d), n)[k],
            ),
    decreases n,
{
    let pl = spec_placements(d);
    let prev = spec_instances(d, pl, (n - 1) as nat);
    let e = d.edges[n - 1];
    let all = spec_instances(d, pl, n);
    if k < prev.len() {
        lemma_instances_join_ends(d, (n - 1) as nat, k);
        let i = choose|i: int|
            0 <= i < n - 1 && spec_edge_visible(d, d.edges[i]) && joins_copies(
                pl,
                d.edges[i],
                #[trigger] spec_instances(d, pl, (n - 1) as nat)[k],
            );
        if spec_edge_visible(d, e) {
            assert(all[k] == prev[k]);
        }
        assert(joins_copies(pl, d.edges[i], all[k]));
    } else {
        assert(spec_edge_visible(d, e));
        lemma_visible_edge_ends(d, e);
        lemma_own_copy(d, e.source);
        lemma_own_copy(d, e.dest);
        let vis = visible_ids(d);
        let s = last_index(vis, e.source);
        let t = last_index(vis, e.dest);
        let j = k - prev.len();
        let mine = instances_of(d, pl, e);
        assert(all[k] == mine[j]);
        if j > 0 {
            lemma_extra_instances_join(pl, e, s, t, emphasized(d, e), pl.len(), j - 1);
        }
        assert(joins_copies(pl, d.edges[n - 1], all[k]));
    }
}

/// `par` lists the copy each of the copies to lay out is laid out in.
pub open spec fn parents_of_placements(par: Seq<Option<usize>>, d: DocView) -> bool {
    &&& par.len() == spec_placements(d).len()
    &&& forall|i: int| 0 <= i < par.len() ==> #[trigger] opt_int(par[i]) == spec_placements(d)[i].parent
}

pub open spec fn first_copy(vis: Seq<Seq<char>>, o: Option<Seq<char>>) -> Option<int> {
    match o {
        Some(y) => Some(last_index(vis, y)),
        None => None,
    }
}

/// Going up from the first copy of visible node `x` passes the first copies
/// of the containers that following the containers from `x` passes.
proof fn lemma_up_own(d: DocView, par: Seq<Option<usize>>, j: int, k: nat)
    requires
        parents_of_placements(par, d),
        0 <= j < visible_ids(d).len(),
        k >= 1,
    ensures
        up(par, j, k) == first_copy(visible_ids(d), follow(primary_map(d), visible_ids(d)[j], k)),
        follow(primary_map(d), visible_ids(d)[j], k) matches Some(y) ==> visible_ids(d).contains(y),
    decreases k,
{
    let vis = visible_ids(d);
    let pl = spec_placements(d);
    let x = vis[j];
    let pm = primary_map(d);
    assert(pl[j] == own_plans(d)[j]);
    assert(up(par, j, 0) == Some(j));
    assert(follow(pm, x, 0) == Some(x));
    if k == 1 {
        assert(opt_int(par[j]) == pl[j].parent);
        lemma_primary_is_first_parent(d, x);
    } else {
        lemma_up_own(d, par, j, (k - 1) as nat);
        match follow(pm, x, (k - 1) as nat) {
            Some(y) => {
                lemma_last_index(vis, y);
                let q = last_index(vis, y);
                assert(pl[q] == own_plans(d)[q]);
                assert(opt_int(par[q]) == pl[q].parent);
                lemma_primary_is_first_parent(d, y);
            },
            None => {},
        }
    }
}

/// Going up from any copy to lay out reaches the top level.
pub proof fn lemma_placements_settle(d: DocView, par: Seq<Option<usize>>, i: int)
    requires
        parents_of_placements(par, d),
        0 <= i < par.len(),
    ensures
        settles(par, i),
{
    let vis = visible_ids(d);
    let pl = spec_placements(d);
    if i < vis.len() {
        lemma_settles_own(d, par, i);
    } else {
        lemma_plan_parents(d, i);
        lemma_extra_plans_shape(d, vis.len(), i - vis.len());
        assert(pl[i] == extra_plans(d, vis.len())[i - vis.len()]);
        let j = pl[i].parent->0;
        assert(opt_int(par[i]) == pl[i].parent);
        if j >= vis.len() {
            lemma_extra_plans_shape(d, vis.len(), j - vis.len());
            assert(pl[j] == extra_plans(d, vis.len())[j - vis.len()]);
        }
        lemma_settles_own(d, par, j);
        let k = choose|k: nat| #[trigger] up(par, j, k) is None;
        lemma_up_first(par, i, k);
        assert(up(par, i, k + 1) is None);
    }
}

proof fn lemma_settles_own(d: DocView, par: Seq<Option<usize>>, j: int)
    requires
        parents_of_placements(par, d),
        0 <= j < visible_ids(d).len(),
    ensures
        settles(par, j),
{
    let vis = visible_ids(d);
    let x = vis[j];
    lemma_nesting_acyclic(d, x);
    let k = choose|k: nat| #[trigger] follow(primary_map(d), x, k) is None;
    assert(follow(primary_map(d), x, 0) == Some(x));
    lemma_up_own(d, par, j, k);
    assert(up(par, j, k) is None);
}

} // verus!
