//! Searching the document: which of the shown nodes a query finds.
use crate::document::{node_pos, DocView, Document, NodeId};
use crate::server::{chars_of, matches_at};
use vstd::prelude::*;

verus! {

/// What `str::to_lowercase` makes of a string.
pub uninterp spec fn lowercase_of(s: Seq<char>) -> Seq<char>;

/// `str::to_lowercase`: the lowercase equivalent of `s`, by the Unicode
/// tables of the standard library. Its result is named, not described.
#[verifier::external_body]
fn lowercase(s: &String) -> (r: String)
    ensures
        r@ == lowercase_of(s@),
{
    s.to_lowercase()
}

/// Whether `pat` occurs in `s` as a run of consecutive characters.
pub open spec fn occurs_in(pat: Seq<char>, s: Seq<char>) -> bool {
    exists|i: int| 0 <= i && i + pat.len() <= s.len() && #[trigger] s.subrange(i, i + pat.len()) == pat
}

/// Whether `pat` occurs in `s`.
fn contains_chars(s: &Vec<char>, pat: &Vec<char>) -> (r: bool)
    ensures
        r == occurs_in(pat@, s@),
{
    for i in 0..s.len()
        invariant
            forall|k: int| 0 <= k < i && k + pat@.len() <= s@.len() ==> #[trigger] s@.subrange(k, k + pat@.len()) != pat@,
    {
        if matches_at(s, i, pat) {
            assert(s@.skip(i as int).take(pat@.len() as int) =~= s@.subrange(i as int, i + pat@.len()));
            return true;
        }
        proof {
            if i + pat@.len() <= s@.len() {
                assert(s@.skip(i as int).take(pat@.len() as int) =~= s@.subrange(i as int, i + pat@.len()));
            }
        }
    }
    let at_end = matches_at(s, s.len(), pat);
    proof {
        if at_end {
            assert(s@.subrange(s@.len() as int, (s@.len() + pat@.len()) as int) =~= pat@);
        }
        if !at_end {
            assert forall|k: int| 0 <= k && k + pat@.len() <= s@.len() implies #[trigger] s@.subrange(
                k,
                k + pat@.len(),
            ) != pat@ by {
                if k == s@.len() {
                    assert(s@.skip(k).take(0) =~= pat@);
                }
            }
        }
    }
    at_end
}

/// Whether the lowercased query `q` finds a node whose lowercased text is
/// `text` and whose lowercased id is `id`: an empty query finds every node,
/// else the query occurs in the text or in the id.
pub open spec fn query_hits(q: Seq<char>, text: Seq<char>, id: Seq<char>) -> bool {
    q.len() == 0 || occurs_in(q, text) || occurs_in(q, id)
}

/// Whether the lowercased query `q` finds a node with id `id` and text
/// `text`, case aside.
pub open spec fn found_by(q: Seq<char>, id: Seq<char>, text: Seq<char>) -> bool {
    query_hits(q, lowercase_of(text), lowercase_of(id))
}

/// Whether the lowercased query finds a node, given its lowercased text and
/// its lowercased id.
pub fn hits(query: &str, text: &str, id: &str) -> (r: bool)
    ensures
        r == query_hits(query@, text@, id@),
{
    let qc = chars_of(query);
    if qc.len() == 0 {
        return true;
    }
    let tc = chars_of(text);
    if contains_chars(&tc, &qc) {
        return true;
    }
    let ic = chars_of(id);
    contains_chars(&ic, &qc)
}

/// The nodes of `shown` that exist in the document and are found by the
/// lowercased query `q`, in the order of `shown`, each with its text.
pub open spec fn spec_search(d: DocView, shown: Seq<Seq<char>>, q: Seq<char>) -> Seq<(Seq<char>, Seq<char>)>
    decreases shown.len(),
{
    if shown.len() == 0 {
        seq![]
    } else {
        let before = spec_search(d, shown.drop_last(), q);
        let id = shown.last();
        let i = node_pos(d, id);
        if i >= 0 && found_by(q, d.nodes[i].id, d.nodes[i].text) {
            before.push((id, d.nodes[i].text))
        } else {
            before
        }
    }
}

pub open spec fn hits_view(v: Seq<(NodeId, String)>) -> Seq<(Seq<char>, Seq<char>)> {
    v.map_values(|h: (NodeId, String)| (h.0@, h.1@))
}

pub open spec fn ids_view(v: Seq<NodeId>) -> Seq<Seq<char>> {
    v.map_values(|n: NodeId| n@)
}

/// The nodes among `shown` (the shown nodes, in reading order) that `query`
/// finds, case aside, each with its text.
pub fn search_results(doc: &Document, shown: &[NodeId], query: &String) -> (r: Vec<(NodeId, String)>)
    ensures
        hits_view(r@) == spec_search(doc@, ids_view(shown@), lowercase_of(query@)),
{
    let q = lowercase(query);
    let mut out: Vec<(NodeId, String)> = Vec::new();
    let ghost sv = ids_view(shown@);
    for k in 0..shown.len()
        invariant
            sv == ids_view(shown@),
            q@ == lowercase_of(query@),
            hits_view(out@) == spec_search(doc@, sv.take(k as int), q@),
    {
        assert(sv.take(k + 1).drop_last() =~= sv.take(k as int));
        assert(sv.take(k + 1).last() == shown@[k as int]@);
        let id = &shown[k];
        if let Some(n) = doc.node(id) {
            let text = lowercase(&n.text);
            let nid = lowercase(&n.id.0);
            if hits(q.as_str(), text.as_str(), nid.as_str()) {
                let ghost before = out@;
                out.push((id.clone(), n.text.clone()));
                assert(hits_view(out@) =~= hits_view(before).push((id@, n.text@)));
            }
        }
    }
    assert(sv.take(shown@.len() as int) =~= sv);
    out
}

/// The node the search's `index`-th result names, if there is one.
pub fn search_current(doc: &Document, shown: &[NodeId], query: &String, index: usize) -> (r: Option<NodeId>)
    ensures
        match r {
            Some(n) => index < spec_search(doc@, ids_view(shown@), lowercase_of(query@)).len() && n@ == spec_search(
                doc@,
                ids_view(shown@),
                lowercase_of(query@),
            )[index as int].0,
            None => index >= spec_search(doc@, ids_view(shown@), lowercase_of(query@)).len(),
        },
{
    let results = search_results(doc, shown, query);
    if index < results.len() {
        assert(hits_view(results@)[index as int] == (results@[index as int].0@, results@[index as int].1@));
        Some(results[index].0.clone())
    } else {
        None
    }
}

/// What a search finds, case aside: every shown node that exists and whose
/// id or text contains the lowercased query once lowercased (every shown
/// node that exists, for an empty query) is found, with its text; and
/// everything found is such a node.
pub proof fn lemma_search_finds(d: DocView, shown: Seq<Seq<char>>, q: Seq<char>)
    ensures
        forall|i: int|
            0 <= i < shown.len() && node_pos(d, #[trigger] shown[i]) >= 0 && (q.len() == 0 || occurs_in(
                q,
                lowercase_of(shown[i]),
            ) || occurs_in(q, lowercase_of(d.nodes[node_pos(d, shown[i])].text))) ==> spec_search(
                d,
                shown,
                q,
            ).contains((shown[i], d.nodes[node_pos(d, shown[i])].text)),
        forall|j: int|
            0 <= j < spec_search(d, shown, q).len() ==> {
                let (x, t) = #[trigger] spec_search(d, shown, q)[j];
                &&& shown.contains(x)
                &&& node_pos(d, x) >= 0
                &&& t == d.nodes[node_pos(d, x)].text
                &&& (q.len() == 0 || occurs_in(q, lowercase_of(x)) || occurs_in(q, lowercase_of(t)))
            },
    decreases shown.len(),
{
    if shown.len() > 0 {
        let before = spec_search(d, shown.drop_last(), q);
        let r = spec_search(d, shown, q);
        let x = shown.last();
        lemma_search_finds(d, shown.drop_last(), q);
        crate::document::lemma_index_of(crate::document::node_ids(d.nodes), x);
        let p = node_pos(d, x);
        if p >= 0 {
            assert(crate::document::node_ids(d.nodes)[p] == d.nodes[p].id);
            assert(d.nodes[p].id == x);
        }
        assert forall|i: int|
            0 <= i < shown.len() && node_pos(d, #[trigger] shown[i]) >= 0 && (q.len() == 0 || occurs_in(
                q,
                lowercase_of(shown[i]),
            ) || occurs_in(q, lowercase_of(d.nodes[node_pos(d, shown[i])].text))) implies r.contains(
            (shown[i], d.nodes[node_pos(d, shown[i])].text),
        ) by {
            if i < shown.len() - 1 {
                assert(shown.drop_last()[i] == shown[i]);
                let w = (shown[i], d.nodes[node_pos(d, shown[i])].text);
                assert(before.contains(w));
                let k = choose|k: int| 0 <= k < before.len() && before[k] == w;
                assert(r[k] == w);
            } else {
                assert(shown[i] == x);
                assert(r[r.len() - 1] == (x, d.nodes[p].text));
            }
        }
        assert forall|j: int| 0 <= j < r.len() implies {
            let (y, t) = #[trigger] r[j];
            &&& shown.contains(y)
            &&& node_pos(d, y) >= 0
            &&& t == d.nodes[node_pos(d, y)].text
            &&& (q.len() == 0 || occurs_in(q, lowercase_of(y)) || occurs_in(q, lowercase_of(t)))
        } by {
            if j < before.len() {
                assert(r[j] == before[j]);
                let y = before[j].0;
                assert(shown.drop_last().contains(y));
                let a = choose|a: int| 0 <= a < shown.drop_last().len() && shown.drop_last()[a] == y;
                assert(shown[a] == y);
            } else {
                assert(r[j] == (x, d.nodes[p].text));
                assert(shown[shown.len() - 1] == x);
            }
        }
    }
}

/// The search finds at most the shown nodes.
pub proof fn lemma_search_len(d: DocView, shown: Seq<Seq<char>>, q: Seq<char>)
    ensures
        spec_search(d, shown, q).len() <= shown.len(),
    decreases shown.len(),
{
    if shown.len() > 0 {
        lemma_search_len(d, shown.drop_last(), q);
    }
}

} // verus!
