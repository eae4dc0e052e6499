//! Assigning nodes to ranks: nodes are grouped into islands (connected
//! components), cycles are broken, and each node is ranked by the longest
//! path reaching it, with sources pulled down next to their successors.
use vstd::prelude::*;

verus! {

/// The result of ranking `n` nodes.
#[derive(Clone, Debug)]
pub struct Ranking {
    /// The island of each node.
    pub island: Vec<usize>,
    /// The members of each island, in ascending order.
    pub islands: Vec<Vec<usize>>,
    /// The number of ranks each island spans.
    pub n_ranks: Vec<usize>,
    /// The rank of each node within its island.
    pub rank: Vec<usize>,
}

/// All edge ends name one of the `n` nodes.
pub open spec fn edges_in_range(n: int, edges: Seq<(usize, usize)>) -> bool {
    forall|k: int| 0 <= k < edges.len() ==> (#[trigger] edges[k]).0 < n && edges[k].1 < n
}

/// Union-find well-formedness: `root` gives the representative each node's
/// parent chain ends at, and `lvl` strictly decreases along parent links.
spec fn uf_ok(uf: Seq<usize>, root: Seq<int>, lvl: Seq<nat>, n: int) -> bool {
    &&& uf.len() == n
    &&& root.len() == n
    &&& lvl.len() == n
    &&& forall|i: int| 0 <= i < n ==> #[trigger] uf[i] < n
    &&& forall|i: int| 0 <= i < n ==> 0 <= #[trigger] root[i] < n
    &&& forall|i: int| 0 <= i < n ==> root[#[trigger] root[i]] == root[i]
    &&& forall|i: int| 0 <= i < n ==> uf[#[trigger] root[i]] == root[i]
    &&& forall|i: int|
        0 <= i < n && #[trigger] uf[i] != i ==> root[uf[i] as int] == root[i] && lvl[uf[i] as int]
            < lvl[i]
    &&& forall|i: int| 0 <= i < n && #[trigger] uf[i] == i ==> root[i] == i
}

/// Follows parent links to the representative, halving the path on the way.
fn find(uf: &mut Vec<usize>, i: usize, Ghost(root): Ghost<Seq<int>>, Ghost(lvl): Ghost<Seq<nat>>) -> (r:
    usize)
    requires
        uf_ok(old(uf)@, root, lvl, old(uf)@.len() as int),
        i < old(uf)@.len(),
    ensures
        uf_ok(final(uf)@, root, lvl, old(uf)@.len() as int),
        r as int == root[i as int],
{
    let ghost n = uf@.len() as int;
    let mut i = i;
    let ghost i0 = i as int;
    while uf[i] != i
        invariant
            uf_ok(uf@, root, lvl, n),
            i < n,
            root[i as int] == root[i0],
        decreases lvl[i as int],
    {
        let p = uf[i];
        let g = uf[p];
        uf.set(i, g);
        i = g;
    }
    i
}

/// `s` holds both ends of every edge or neither.
pub open spec fn link_closed(edges: Seq<(usize, usize)>, s: Set<int>) -> bool {
    forall|k: int|
        0 <= k < edges.len() ==> (s.contains((#[trigger] edges[k]).0 as int) <==> s.contains(edges[k].1 as int))
}

/// `a` and `b` are joined by a chain of edges: every set that holds both
/// ends of each edge or neither, and holds `a`, holds `b`.
pub open spec fn joined(edges: Seq<(usize, usize)>, a: int, b: int) -> bool {
    forall|s: Set<int>| #[trigger] link_closed(edges, s) && s.contains(a) ==> s.contains(b)
}

proof fn lemma_joined_sym(edges: Seq<(usize, usize)>, a: int, b: int)
    requires
        joined(edges, a, b),
    ensures
        joined(edges, b, a),
{
    assert forall|s: Set<int>| #[trigger] link_closed(edges, s) && s.contains(b) implies s.contains(a) by {
        let c = s.complement();
        assert(link_closed(edges, c));
        if !s.contains(a) {
            assert(c.contains(a));
            assert(c.contains(b));
        }
    }
}

proof fn lemma_joined_trans(edges: Seq<(usize, usize)>, a: int, b: int, c: int)
    requires
        joined(edges, a, b),
        joined(edges, b, c),
    ensures
        joined(edges, a, c),
{
}

proof fn lemma_joined_edge(edges: Seq<(usize, usize)>, k: int)
    requires
        0 <= k < edges.len(),
    ensures
        joined(edges, edges[k].0 as int, edges[k].1 as int),
{
    assert forall|s: Set<int>| #[trigger] link_closed(edges, s) && s.contains(edges[k].0 as int) implies s.contains(
        edges[k].1 as int,
    ) by {
        assert(edges[k] == edges[k]);
    }
}

/// Joining over the first `k` edges stays joining over the first `k + 1`.
proof fn lemma_joined_more(edges: Seq<(usize, usize)>, k: int, a: int, b: int)
    requires
        0 <= k < edges.len(),
        joined(edges.take(k), a, b),
    ensures
        joined(edges.take(k + 1), a, b),
{
    assert forall|s: Set<int>| #[trigger] link_closed(edges.take(k + 1), s) && s.contains(a) implies s.contains(b) by {
        assert forall|j: int| 0 <= j < k implies (s.contains((#[trigger] edges.take(k)[j]).0 as int) <==> s.contains(
            edges.take(k)[j].1 as int,
        )) by {
            assert(edges.take(k)[j] == edges.take(k + 1)[j]);
        }
        assert(link_closed(edges.take(k), s));
    }
}

/// The representative of each node after joining the ends of every edge:
/// each representative represents itself, and the ends of each edge share
/// their representative.
fn representatives(n: usize, edges: &[(usize, usize)]) -> (rep: Vec<usize>)
    requires
        edges_in_range(n as int, edges@),
    ensures
        rep@.len() == n,
        forall|i: int| 0 <= i < n ==> #[trigger] rep@[i] < n && rep@[rep@[i] as int] == rep@[i],
        forall|k: int|
            0 <= k < edges@.len() ==> rep@[(#[trigger] edges@[k]).0 as int] == rep@[edges@[k].1 as int],
        forall|i: int, j: int|
            0 <= i < n && 0 <= j < n && #[trigger] rep@[i] == #[trigger] rep@[j] ==> joined(edges@, i, j),
{
    let mut uf: Vec<usize> = Vec::new();
    for i in 0..n
        invariant
            uf@.len() == i,
            forall|j: int| 0 <= j < i ==> uf@[j] == j,
    {
        uf.push(i);
    }
    let ghost mut root: Seq<int> = Seq::new(n as nat, |i: int| i);
    let ghost mut lvl: Seq<nat> = Seq::new(n as nat, |i: int| 0nat);
    for k in 0..edges.len()
        invariant
            uf_ok(uf@, root, lvl, n as int),
            edges_in_range(n as int, edges@),
            forall|j: int|
                0 <= j < k ==> root[(#[trigger] edges@[j]).0 as int] == root[edges@[j].1 as int],
            forall|x: int| 0 <= x < n ==> joined(edges@.take(k as int), x, #[trigger] root[x]),
    {
        let ghost root0 = root;
        let (a, b) = edges[k];
        proof {
            assert forall|x: int| 0 <= x < n implies joined(edges@.take(k + 1), x, #[trigger] root0[x]) by {
                lemma_joined_more(edges@, k as int, x, root0[x]);
            }
        }
        if a != b {
            let ra = find(&mut uf, a, Ghost(root), Ghost(lvl));
            let rb = find(&mut uf, b, Ghost(root), Ghost(lvl));
            if ra != rb {
                let ghost old_root = root;
                let ghost old_lvl = lvl;
                proof {
                    root = Seq::new(
                        n as nat,
                        |x: int| if old_root[x] == ra as int {
                            rb as int
                        } else {
                            old_root[x]
                        },
                    );
                    lvl = Seq::new(
                        n as nat,
                        |x: int| if old_root[x] == ra as int {
                            old_lvl[x] + old_lvl[rb as int] + 1
                        } else {
                            old_lvl[x]
                        },
                    );
                }
                uf.set(ra, rb);
                assert(uf_ok(uf@, root, lvl, n as int)) by {
                    assert forall|i: int| 0 <= i < n implies root[#[trigger] root[i]] == root[i] by {
                        if old_root[i] == ra as int {
                            assert(old_root[rb as int] == rb as int);
                        } else {
                            assert(old_root[old_root[i]] == old_root[i]);
                        }
                    }
                    assert forall|i: int| 0 <= i < n implies uf@[#[trigger] root[i]] == root[i] by {
                        if old_root[i] == ra as int {
                            assert(old_root[rb as int] == rb as int);
                        } else {
                            assert(old_root[old_root[i]] == old_root[i]);
                        }
                    }
                    assert forall|i: int| 0 <= i < n && #[trigger] uf@[i] != i implies root[uf@[i] as int]
                        == root[i] && lvl[uf@[i] as int] < lvl[i] by {
                        if i == ra as int {
                            assert(old_root[rb as int] == rb as int);
                        }
                    }
                }
                proof {
                    let es = edges@.take(k + 1);
                    assert(es[k as int] == edges@[k as int]);
                    lemma_joined_edge(es, k as int);
                    lemma_joined_sym(es, a as int, ra as int);
                    lemma_joined_trans(es, ra as int, a as int, b as int);
                    lemma_joined_trans(es, ra as int, b as int, rb as int);
                    assert forall|x: int| 0 <= x < n implies joined(es, x, #[trigger] root[x]) by {
                        if old_root[x] == ra as int {
                            lemma_joined_trans(es, x, ra as int, rb as int);
                        }
                    }
                }
            }
        }
    }
    let mut rep: Vec<usize> = Vec::new();
    for i in 0..n
        invariant
            uf_ok(uf@, root, lvl, n as int),
            rep@.len() == i,
            forall|j: int| 0 <= j < i ==> rep@[j] as int == root[j],
            forall|j: int|
                0 <= j < edges@.len() ==> root[(#[trigger] edges@[j]).0 as int] == root[edges@[j].1 as int],
            edges_in_range(n as int, edges@),
    {
        let r = find(&mut uf, i, Ghost(root), Ghost(lvl));
        rep.push(r);
    }
    assert forall|i: int| 0 <= i < n implies #[trigger] rep@[i] < n && rep@[rep@[i] as int] == rep@[i] by {
        assert(root[root[i]] == root[i]);
    }
    assert forall|k: int| 0 <= k < edges@.len() implies rep@[(#[trigger] edges@[k]).0 as int]
        == rep@[edges@[k].1 as int] by {
        assert(root[edges@[k].0 as int] == root[edges@[k].1 as int]);
    }
    assert(edges@.take(edges@.len() as int) =~= edges@);
    assert forall|i: int, j: int|
        0 <= i < n && 0 <= j < n && #[trigger] rep@[i] == #[trigger] rep@[j] implies joined(edges@, i, j) by {
        assert(joined(edges@, i, root[i]));
        assert(joined(edges@, j, root[j]));
        lemma_joined_sym(edges@, j, root[j]);
        lemma_joined_trans(edges@, i, root[i], j);
    }
    rep
}

/// The members of each island are node indices below `n` in strictly
/// ascending order, and no island is empty.
pub open spec fn islands_well_formed(islands: Seq<Seq<usize>>, n: int) -> bool {
    &&& forall|k: int| 0 <= k < islands.len() ==> (#[trigger] islands[k]).len() > 0
    &&& forall|k: int, p: int|
        0 <= k < islands.len() && 0 <= p < islands[k].len() ==> #[trigger] islands[k][p] < n
    &&& forall|k: int, p: int, q: int|
        0 <= k < islands.len() && 0 <= p < q < islands[k].len() ==> #[trigger] islands[k][p]
            < #[trigger] islands[k][q]
}

/// `which` names the island of every node, and the islands hold exactly the
/// nodes that `which` puts in them.
pub open spec fn islands_partition(islands: Seq<Seq<usize>>, which: Seq<usize>, n: int) -> bool {
    &&& which.len() == n
    &&& forall|i: int| 0 <= i < n ==> #[trigger] which[i] < islands.len() && islands[which[i] as int].contains(
        i as usize,
    )
    &&& forall|k: int, p: int|
        0 <= k < islands.len() && 0 <= p < islands[k].len() ==> which[#[trigger] islands[k][p] as int]
            == k
}

pub open spec fn vecs_view(v: Seq<Vec<usize>>) -> Seq<Seq<usize>> {
    v.map_values(|m: Vec<usize>| m@)
}

/// Groups the nodes by representative, islands ordered by their first
/// member, and gives the island of each node.
fn group_by_representative(n: usize, rep: &Vec<usize>) -> (r: (Vec<Vec<usize>>, Vec<usize>))
    requires
        rep@.len() == n,
        forall|i: int| 0 <= i < n ==> #[trigger] rep@[i] < n,
    ensures
        islands_well_formed(vecs_view(r.0@), n as int),
        islands_partition(vecs_view(r.0@), r.1@, n as int),
        forall|i: int, j: int|
            0 <= i < n && 0 <= j < n ==> (r.1@[i] == r.1@[j]) == (rep@[i] == rep@[j]),
{
    let mut island_of_root: Vec<Option<usize>> = Vec::new();
    for i in 0..n
        invariant
            island_of_root@.len() == i,
            forall|j: int| 0 <= j < i ==> island_of_root@[j] is None,
    {
        island_of_root.push(None);
    }
    let mut islands: Vec<Vec<usize>> = Vec::new();
    let mut which: Vec<usize> = Vec::new();
    let ghost mut posn: Seq<int> = Seq::empty();
    for i in 0..n
        invariant
            rep@.len() == n,
            forall|j: int| 0 <= j < n ==> #[trigger] rep@[j] < n,
            island_of_root@.len() == n,
            which@.len() == i,
            posn.len() == i,
            forall|r: int|
                0 <= r < n ==> (#[trigger] island_of_root@[r] matches Some(x) ==> x < islands@.len()
                    && islands@[x as int]@.len() > 0 && rep@[islands@[x as int]@[0] as int] == r),
            forall|x: int|
                0 <= x < islands@.len() ==> (#[trigger] islands@[x])@.len() > 0
                    && island_of_root@[rep@[islands@[x]@[0] as int] as int] == Some(x as usize),
            forall|x: int, p: int|
                0 <= x < islands@.len() && 0 <= p < islands@[x]@.len() ==> #[trigger] islands@[x]@[p]
                    < i && which@[islands@[x]@[p] as int] == x && rep@[islands@[x]@[p] as int]
                    == rep@[islands@[x]@[0] as int],
            forall|x: int, p: int, q: int|
                0 <= x < islands@.len() && 0 <= p < q < islands@[x]@.len() ==> #[trigger] islands@[x]@[p]
                    < #[trigger] islands@[x]@[q],
            forall|j: int|
                0 <= j < i ==> #[trigger] which@[j] < islands@.len() && 0 <= posn[j]
                    < islands@[which@[j] as int]@.len() && islands@[which@[j] as int]@[posn[j]] == j
                    && island_of_root@[rep@[j] as int] == Some(which@[j]),
    {
        let r = rep[i];
        let x = match island_of_root[r] {
            Some(x) => x,
            None => {
                let x = islands.len();
                island_of_root.set(r, Some(x));
                islands.push(Vec::new());
                x
            },
        };
        let ghost before = islands@;
        let ghost p = islands@[x as int]@.len() as int;
        islands[x].push(i);
        proof {
            posn = posn.push(p);
        }
        which.push(x);
        assert forall|j: int| 0 <= j < i implies islands@[which@[j] as int]@[posn[j]] == j by {
            if which@[j] == x {
                assert(islands@[x as int]@[posn[j]] == before[x as int]@[posn[j]]);
            }
        }
    }
    assert forall|i: int| 0 <= i < n implies #[trigger] which@[i] < vecs_view(islands@).len()
        && vecs_view(islands@)[which@[i] as int].contains(i as usize) by {
        assert(vecs_view(islands@)[which@[i] as int][posn[i]] == i);
    }
    assert forall|i: int, j: int| 0 <= i < n && 0 <= j < n implies (which@[i] == which@[j]) == (rep@[i]
        == rep@[j]) by {
        if which@[i] == which@[j] {
            let x = which@[i] as int;
            assert(islands@[x]@[posn[i]] == i);
            assert(islands@[x]@[posn[j]] == j);
        }
    }
    (islands, which)
}

/// The smallest ordering key among the members, starting from the largest
/// key.
pub open spec fn min_key(members: Seq<usize>, order: Seq<u64>) -> u64
    decreases members.len(),
{
    if members.len() == 0 {
        u64::MAX
    } else {
        let m = min_key(members.drop_last(), order);
        let v = order[members.last() as int];
        if v < m {
            v
        } else {
            m
        }
    }
}

/// Island `a` comes before island `b`: it has a smaller key, or the same
/// key and a smaller first member.
pub open spec fn island_before(a: Seq<usize>, b: Seq<usize>, order: Seq<u64>) -> bool {
    min_key(a, order) < min_key(b, order) || (min_key(a, order) == min_key(b, order) && a[0] < b[0])
}

/// `r` holds the islands of `s` in the order `perm` picks them, each once.
pub open spec fn reorders(r: Seq<Seq<usize>>, s: Seq<Seq<usize>>, perm: Seq<usize>) -> bool {
    &&& perm.len() == s.len()
    &&& r.len() == s.len()
    &&& forall|k: int| 0 <= k < perm.len() ==> #[trigger] perm[k] < s.len() && r[k] == s[perm[k] as int]
    &&& forall|k: int, l: int| 0 <= k < l < perm.len() ==> #[trigger] perm[k] != #[trigger] perm[l]
    &&& forall|j: int| 0 <= j < s.len() ==> #[trigger] picks(perm, j)
}

/// Some entry of `perm` is `j`.
pub open spec fn picks(perm: Seq<usize>, j: int) -> bool {
    exists|k: int| 0 <= k < perm.len() && perm[k] == j
}

spec fn idx_before(keys: Seq<u64>, firsts: Seq<usize>, x: usize, y: usize) -> bool {
    keys[x as int] < keys[y as int] || (keys[x as int] == keys[y as int] && firsts[x as int]
        < firsts[y as int])
}

fn island_key(members: &Vec<usize>, order: &[u64]) -> (r: u64)
    requires
        forall|p: int| 0 <= p < members@.len() ==> #[trigger] members@[p] < order@.len(),
    ensures
        r == min_key(members@, order@),
{
    let mut m: u64 = u64::MAX;
    for p in 0..members.len()
        invariant
            forall|q: int| 0 <= q < members@.len() ==> #[trigger] members@[q] < order@.len(),
            m == min_key(members@.take(p as int), order@),
    {
        assert(members@.take(p + 1).drop_last() =~= members@.take(p as int));
        let v = order[members[p]];
        if v < m {
            m = v;
        }
    }
    assert(members@.take(members@.len() as int) =~= members@);
    m
}

/// The islands sorted by key, then by first member.
fn sort_islands(islands: &Vec<Vec<usize>>, order: &[u64], Ghost(n): Ghost<int>) -> (r: Vec<Vec<usize>>)
    requires
        islands_well_formed(vecs_view(islands@), n),
        n <= order@.len(),
        forall|x: int, y: int|
            0 <= x < islands@.len() && 0 <= y < islands@.len() && x != y ==> islands@[x]@[0]
                != islands@[y]@[0],
    ensures
        r@.len() == islands@.len(),
        forall|k: int, l: int|
            0 <= k < l < r@.len() ==> island_before(#[trigger] r@[k]@, #[trigger] r@[l]@, order@),
        exists|perm: Seq<usize>| #[trigger] reorders(vecs_view(r@), vecs_view(islands@), perm),
{
    let m = islands.len();
    let mut keys: Vec<u64> = Vec::new();
    let mut firsts: Vec<usize> = Vec::new();
    for x in 0..m
        invariant
            m == islands@.len(),
            islands_well_formed(vecs_view(islands@), n),
            n <= order@.len(),
            keys@.len() == x,
            firsts@.len() == x,
            forall|y: int| 0 <= y < x ==> #[trigger] keys@[y] == min_key(islands@[y]@, order@),
            forall|y: int| 0 <= y < x ==> #[trigger] firsts@[y] == islands@[y]@[0],
    {
        assert forall|p: int| 0 <= p < islands@[x as int]@.len() implies #[trigger] islands@[x as int]@[p]
            < order@.len() by {
            assert(vecs_view(islands@)[x as int][p] < n);
        }
        let key = island_key(&islands[x], order);
        let ghost fprev = firsts@;
        keys.push(key);
        assert(vecs_view(islands@)[x as int].len() > 0);
        let first = islands[x][0];
        firsts.push(first);
        assert(keys@[x as int] == min_key(islands@[x as int]@, order@));
        assert(firsts@[x as int] == islands@[x as int]@[0]);
        assert forall|y: int| 0 <= y <= x implies #[trigger] firsts@[y] == islands@[y]@[0] by {
            if y < x {
                assert(firsts@[y] == fprev[y]);
            }
        }
    }
    assert forall|x: int, y: int| 0 <= x < m && 0 <= y < m && x != y implies firsts@[x] != firsts@[y] by {
        assert(firsts@[x] == islands@[x]@[0]);
        assert(firsts@[y] == islands@[y]@[0]);
    }
    let mut perm: Vec<usize> = Vec::new();
    for x in 0..m
        invariant
            perm@.len() == x,
            forall|y: int| 0 <= y < x ==> perm@[y] == y,
    {
        perm.push(x);
    }
    let ghost mut inv: Seq<int> = Seq::new(m as nat, |j: int| j);
    for i in 0..m
        invariant
            m == islands@.len(),
            keys@.len() == m,
            firsts@.len() == m,
            forall|x: int, y: int| 0 <= x < m && 0 <= y < m && x != y ==> firsts@[x] != firsts@[y],
            perm@.len() == m,
            forall|k: int| 0 <= k < m ==> #[trigger] perm@[k] < m,
            forall|k: int, l: int| 0 <= k < l < m ==> #[trigger] perm@[k] != #[trigger] perm@[l],
            forall|k: int, l: int|
                0 <= k < l < m && k < i ==> idx_before(keys@, firsts@, #[trigger] perm@[k], #[trigger] perm@[l]),
            inv.len() == m,
            forall|j: int| 0 <= j < m ==> 0 <= #[trigger] inv[j] < m && perm@[inv[j]] == j,
    {
        let mut best = i;
        for j in i + 1..m
            invariant
                i <= best < m,
                i + 1 <= j <= m,
                m == perm@.len(),
                keys@.len() == m,
                firsts@.len() == m,
                forall|k: int| 0 <= k < m ==> #[trigger] perm@[k] < m,
                forall|x: int, y: int| 0 <= x < m && 0 <= y < m && x != y ==> firsts@[x] != firsts@[y],
                forall|k: int, l: int| 0 <= k < l < m ==> #[trigger] perm@[k] != #[trigger] perm@[l],
                forall|l: int|
                    i <= l < j && l != best ==> idx_before(keys@, firsts@, perm@[best as int], #[trigger] perm@[l]),
        {
            let a = perm[j];
            let b = perm[best];
            if keys[a] < keys[b] || (keys[a] == keys[b] && firsts[a] < firsts[b]) {
                best = j;
            }
        }
        let a = perm[i];
        let b = perm[best];
        let ghost p0 = perm@;
        perm.set(i, b);
        perm.set(best, a);
        proof {
            let i0 = inv;
            inv = inv.update(a as int, best as int).update(b as int, i as int);
            assert forall|j: int| 0 <= j < m implies 0 <= #[trigger] inv[j] < m && perm@[inv[j]] == j by {
                if j != a as int && j != b as int {
                    assert(p0[i0[j]] == j);
                    assert(i0[j] != i as int && i0[j] != best as int);
                }
            }
        }
    }
    let mut r: Vec<Vec<usize>> = Vec::new();
    for k in 0..m
        invariant
            m == islands@.len(),
            perm@.len() == m,
            forall|q: int| 0 <= q < m ==> #[trigger] perm@[q] < m,
            r@.len() == k,
            forall|q: int| 0 <= q < k ==> #[trigger] r@[q]@ == islands@[perm@[q] as int]@,
    {
        let c = islands[perm[k]].clone();
        assert(c@ =~= islands@[perm@[k as int] as int]@);
        r.push(c);
    }
    assert forall|k: int, l: int| 0 <= k < l < r@.len() implies island_before(
        #[trigger] r@[k]@,
        #[trigger] r@[l]@,
        order@,
    ) by {
        assert(idx_before(keys@, firsts@, perm@[k], perm@[l]));
    }
    assert forall|j: int| 0 <= j < m implies #[trigger] picks(perm@, j) by {
        assert(perm@[inv[j]] == j);
    }
    assert(reorders(vecs_view(r@), vecs_view(islands@), perm@));
    r
}

/// Work left in a depth-first search: the unexplored out-edges of every
/// node plus one for every node not yet finished.
spec fn work_left(lens: Seq<int>, done: Seq<int>, colors: Seq<u8>, k: int) -> int
    decreases k,
{
    if k <= 0 {
        0
    } else {
        work_left(lens, done, colors, k - 1) + (lens[k - 1] - done[k - 1]) + if colors[k - 1] == 2 {
            0int
        } else {
            1int
        }
    }
}

proof fn lemma_work_left_nonneg(lens: Seq<int>, done: Seq<int>, colors: Seq<u8>, k: int)
    requires
        k <= lens.len(),
        k <= done.len(),
        forall|i: int| 0 <= i < k ==> done[i] <= lens[i],
    ensures
        work_left(lens, done, colors, k) >= 0,
    decreases k,
{
    if k > 0 {
        lemma_work_left_nonneg(lens, done, colors, k - 1);
    }
}

proof fn lemma_work_left_update(
    lens: Seq<int>,
    done: Seq<int>,
    colors: Seq<u8>,
    done2: Seq<int>,
    colors2: Seq<u8>,
    v: int,
    k: int,
)
    requires
        forall|i: int| 0 <= i < k && i != v ==> done2[i] == done[i] && colors2[i] == colors[i],
    ensures
        work_left(lens, done2, colors2, k) - work_left(lens, done, colors, k) == if 0 <= v < k {
            (done[v] - done2[v]) + (if colors2[v] == 2 {
                0int
            } else {
                1int
            }) - (if colors[v] == 2 {
                0int
            } else {
                1int
            })
        } else {
            0
        },
    decreases k,
{
    if k > 0 {
        lemma_work_left_update(lens, done, colors, done2, colors2, v, k - 1);
    }
}


/// Edge `e` joins two different nodes.
pub open spec fn is_link(edges: Seq<(usize, usize)>, e: int) -> bool {
    edges[e].0 != edges[e].1
}

/// The indices below `k`.
pub open spec fn indices(k: int) -> Seq<usize> {
    Seq::new(k as nat, |e: int| e as usize)
}

/// An edge that leaves `u` for another node.
pub open spec fn leaves(edges: Seq<(usize, usize)>, u: usize) -> spec_fn(usize) -> bool {
    |e: usize| is_link(edges, e as int) && edges[e as int].0 == u
}

/// The edges that leave `u` for another node, ascending.
pub open spec fn link_out(edges: Seq<(usize, usize)>, u: usize) -> Seq<usize> {
    indices(edges.len() as int).filter(leaves(edges, u))
}

/// Some edge enters `v` from another node.
pub open spec fn has_in_link(edges: Seq<(usize, usize)>, v: int) -> bool {
    exists|e: int| 0 <= e < edges.len() && is_link(edges, e) && edges[e].1 == v
}

pub open spec fn no_in_link(edges: Seq<(usize, usize)>) -> spec_fn(usize) -> bool {
    |v: usize| !has_in_link(edges, v as int)
}

pub open spec fn some_in_link(edges: Seq<(usize, usize)>) -> spec_fn(usize) -> bool {
    |v: usize| has_in_link(edges, v as int)
}

/// Where the depth-first search starts: the nodes no edge enters, then the
/// others, each group ascending.
pub open spec fn spec_starts(edges: Seq<(usize, usize)>, n: int) -> Seq<usize> {
    indices(n).filter(no_in_link(edges)) + indices(n).filter(some_in_link(edges))
}

/// The state of the depth-first search: how many starts were taken, each
/// node's colour (unseen, on the stack, finished), the stack of nodes with
/// how many of their out-edges were taken, and which edges were turned
/// around.
pub struct DfsState {
    pub k: int,
    pub colors: Seq<u8>,
    pub stack: Seq<(usize, usize)>,
    pub rev: Seq<bool>,
}

/// One step of the depth-first search: with an empty stack, take the next
/// start (pushing it when unseen); else finish the top node when its
/// out-edges are all taken, or take its next out-edge: push an unseen
/// target, turn the edge around when the target is on the stack.
pub open spec fn dfs_step(edges: Seq<(usize, usize)>, starts: Seq<usize>, s: DfsState) -> DfsState {
    if s.stack.len() == 0 {
        if s.k >= starts.len() {
            s
        } else {
            let v = starts[s.k];
            if s.colors[v as int] != 0 {
                DfsState { k: s.k + 1, ..s }
            } else {
                DfsState { k: s.k + 1, colors: s.colors.update(v as int, 1), stack: seq![(v, 0usize)], rev: s.rev }
            }
        }
    } else {
        let node = s.stack.last().0;
        let ci = s.stack.last().1;
        let out = link_out(edges, node);
        if ci >= out.len() {
            DfsState { colors: s.colors.update(node as int, 2), stack: s.stack.drop_last(), ..s }
        } else {
            let st1 = s.stack.update(s.stack.len() - 1, (node, (ci + 1) as usize));
            let e = out[ci as int];
            let child = edges[e as int].1;
            if s.colors[child as int] == 0 {
                DfsState { colors: s.colors.update(child as int, 1), stack: st1.push((child, 0usize)), ..s }
            } else if s.colors[child as int] == 1 {
                DfsState { stack: st1, rev: s.rev.update(e as int, true), ..s }
            } else {
                DfsState { stack: st1, ..s }
            }
        }
    }
}

/// The depth-first search after `t` steps.
pub open spec fn dfs_run(edges: Seq<(usize, usize)>, starts: Seq<usize>, n: nat, t: nat) -> DfsState
    decreases t,
{
    if t == 0 {
        DfsState {
            k: 0,
            colors: Seq::new(n, |v: int| 0u8),
            stack: seq![],
            rev: Seq::new(edges.len(), |e: int| false),
        }
    } else {
        dfs_step(edges, starts, dfs_run(edges, starts, n, (t - 1) as nat))
    }
}

/// The search has taken every start and emptied its stack.
pub open spec fn dfs_done(starts: Seq<usize>, s: DfsState) -> bool {
    s.stack.len() == 0 && s.k >= starts.len()
}

/// Which edges the finished depth-first search turned around.
pub open spec fn dfs_flips(edges: Seq<(usize, usize)>, starts: Seq<usize>, n: nat) -> Seq<bool> {
    dfs_run(edges, starts, n, choose|t: nat| dfs_done(starts, #[trigger] dfs_run(edges, starts, n, t))).rev
}

/// A finished search stays finished.
proof fn lemma_dfs_stays(edges: Seq<(usize, usize)>, starts: Seq<usize>, n: nat, t: nat, t2: nat)
    requires
        t <= t2,
        dfs_done(starts, dfs_run(edges, starts, n, t)),
    ensures
        dfs_run(edges, starts, n, t2) == dfs_run(edges, starts, n, t),
    decreases t2 - t,
{
    if t < t2 {
        lemma_dfs_stays(edges, starts, n, t, (t2 - 1) as nat);
    }
}

/// The flips are those of the search at any step where it is finished.
proof fn lemma_dfs_flips(edges: Seq<(usize, usize)>, starts: Seq<usize>, n: nat, t: nat)
    requires
        dfs_done(starts, dfs_run(edges, starts, n, t)),
    ensures
        dfs_flips(edges, starts, n) == dfs_run(edges, starts, n, t).rev,
{
    let c = choose|c: nat| dfs_done(starts, #[trigger] dfs_run(edges, starts, n, c));
    if c <= t {
        lemma_dfs_stays(edges, starts, n, c, t);
    } else {
        lemma_dfs_stays(edges, starts, n, t, c);
    }
}

/// `out[u]` lists, in ascending order, the indices of the edges that leave
/// `u` for another node; `at[e]` is where each such edge stands in it.
spec fn out_ok(out: Seq<Seq<usize>>, at: Seq<int>, edges: Seq<(usize, usize)>, n: int) -> bool {
    &&& out.len() == n
    &&& at.len() == edges.len()
    &&& forall|u: int, j: int|
        0 <= u < n && 0 <= j < out[u].len() ==> #[trigger] out[u][j] < edges.len() && edges[out[u][j] as int].0
            == u && is_link(edges, out[u][j] as int)
    &&& forall|u: int, j: int, l: int|
        0 <= u < n && 0 <= j < l < out[u].len() ==> #[trigger] out[u][j] < #[trigger] out[u][l]
    &&& forall|e: int|
        0 <= e < edges.len() && is_link(edges, e) ==> 0 <= #[trigger] at[e] < out[edges[e].0 as int].len()
            && out[edges[e].0 as int][at[e]] == e
}

/// The out-edge lists, and for every node the number of edges that enter it
/// from another node.
fn out_edges(n: usize, edges: &[(usize, usize)]) -> (r: (Vec<Vec<usize>>, Vec<usize>, Ghost<Seq<int>>))
    requires
        edges_in_range(n as int, edges@),
    ensures
        out_ok(vecs_view(r.0@), r.2@, edges@, n as int),
        r.1@.len() == n,
        forall|u: int| 0 <= u < n ==> #[trigger] vecs_view(r.0@)[u] == link_out(edges@, u as usize),
        forall|v: int| 0 <= v < n ==> (#[trigger] r.1@[v] > 0) == has_in_link(edges@, v),
{
    let mut out: Vec<Vec<usize>> = Vec::new();
    let mut in_degree: Vec<usize> = Vec::new();
    for i in 0..n
        invariant
            out@.len() == i,
            in_degree@.len() == i,
            forall|u: int| 0 <= u < i ==> (#[trigger] out@[u])@.len() == 0,
            forall|u: int| 0 <= u < i ==> #[trigger] in_degree@[u] == 0,
    {
        out.push(Vec::new());
        in_degree.push(0);
    }
    let ghost mut at: Seq<int> = Seq::new(edges@.len(), |e: int| 0);
    assert forall|u: int| 0 <= u < n implies #[trigger] out@[u]@ == indices(0).filter(leaves(edges@, u as usize)) by {
        assert(indices(0).filter(leaves(edges@, u as usize)) =~= Seq::<usize>::empty()) by {
            reveal(Seq::filter);
        }
    }
    for k in 0..edges.len()
        invariant
            edges_in_range(n as int, edges@),
            out@.len() == n,
            in_degree@.len() == n,
            at.len() == edges@.len(),
            forall|u: int| 0 <= u < n ==> #[trigger] out@[u]@ == indices(k as int).filter(leaves(edges@, u as usize)),
            forall|v: int|
                0 <= v < n ==> (#[trigger] in_degree@[v] > 0) == (exists|e: int|
                    0 <= e < k && is_link(edges@, e) && edges@[e].1 == v),
            forall|u: int| 0 <= u < n ==> #[trigger] in_degree@[u] <= k,
            forall|u: int, j: int|
                0 <= u < n && 0 <= j < out@[u]@.len() ==> #[trigger] out@[u]@[j] < k && edges@[out@[u]@[j] as int].0
                    == u && is_link(edges@, out@[u]@[j] as int),
            forall|u: int, j: int, l: int|
                0 <= u < n && 0 <= j < l < out@[u]@.len() ==> #[trigger] out@[u]@[j] < #[trigger] out@[u]@[l],
            forall|e: int|
                0 <= e < k && is_link(edges@, e) ==> 0 <= #[trigger] at[e] < out@[edges@[e].0 as int]@.len()
                    && out@[edges@[e].0 as int]@[at[e]] == e,
    {
        let (a, b) = edges[k];
        assert(edges@[k as int].0 < n && edges@[k as int].1 < n);
        let ghost out0 = out@;
        let ghost deg0 = in_degree@;
        proof {
            assert(indices(k + 1) =~= indices(k as int).push(k as usize));
            assert forall|u: int| 0 <= u < n implies #[trigger] indices(k + 1).filter(leaves(edges@, u as usize)) == if leaves(
                edges@,
                u as usize,
            )(k as usize) {
                indices(k as int).filter(leaves(edges@, u as usize)).push(k as usize)
            } else {
                indices(k as int).filter(leaves(edges@, u as usize))
            } by {
                indices(k as int).lemma_filter_push(k as usize, leaves(edges@, u as usize));
            }
        }
        if a != b {
            let ghost before = out@;
            proof {
                at = at.update(k as int, out@[a as int]@.len() as int);
            }
            out[a].push(k);
            let d = in_degree[b];
            in_degree.set(b, d + 1);
            assert forall|u: int, j: int|
                0 <= u < n && 0 <= j < out@[u]@.len() implies #[trigger] out@[u]@[j] < k + 1
                    && edges@[out@[u]@[j] as int].0 == u && is_link(edges@, out@[u]@[j] as int) by {
                if u != a as int || j < before[u]@.len() {
                    assert(out@[u]@[j] == before[u]@[j]);
                }
            }
            assert forall|u: int, j: int, l: int|
                0 <= u < n && 0 <= j < l < out@[u]@.len() implies #[trigger] out@[u]@[j]
                    < #[trigger] out@[u]@[l] by {
                assert(out@[u]@[j] == before[u]@[j]);
                if u != a as int || l < before[u]@.len() {
                    assert(out@[u]@[l] == before[u]@[l]);
                }
            }
            assert forall|e: int|
                0 <= e < k + 1 && is_link(edges@, e) implies 0 <= #[trigger] at[e] < out@[edges@[e].0 as int]@.len()
                    && out@[edges@[e].0 as int]@[at[e]] == e by {
                if e < k {
                    let u = edges@[e].0 as int;
                    assert(out@[u]@[at[e]] == before[u]@[at[e]]);
                }
            }
        }
        proof {
            assert forall|u: int| 0 <= u < n implies #[trigger] out@[u]@ == indices(k + 1).filter(
                leaves(edges@, u as usize),
            ) by {
                if a != b && u == a as int {
                    assert(out@[u]@ =~= out0[u]@.push(k as usize));
                } else {
                    assert(out@[u] == out0[u]);
                }
            }
            assert forall|v: int| 0 <= v < n implies (#[trigger] in_degree@[v] > 0) == (exists|e: int|
                0 <= e < k + 1 && is_link(edges@, e) && edges@[e].1 == v) by {
                if a != b && v == b as int {
                    assert(is_link(edges@, k as int) && edges@[k as int].1 == v);
                } else {
                    assert(in_degree@[v] == deg0[v]);
                    if exists|e: int| 0 <= e < k + 1 && is_link(edges@, e) && edges@[e].1 == v {
                        let e = choose|e: int| 0 <= e < k + 1 && is_link(edges@, e) && edges@[e].1 == v;
                        assert(e != k);
                    }
                }
            }
        }
    }
    assert forall|u: int| 0 <= u < n implies #[trigger] vecs_view(out@)[u] == link_out(edges@, u as usize) by {
        assert(vecs_view(out@)[u] == out@[u]@);
    }
    (out, in_degree, Ghost(at))
}


proof fn lemma_push_contains(s: Seq<usize>, x: usize, y: usize)
    requires
        s.contains(y),
    ensures
        s.push(x).contains(y),
{
    let k = choose|k: int| 0 <= k < s.len() && s[k] == y;
    assert(s.push(x)[k] == y);
}

/// Nodes no edge enters first, then the others, each group ascending.
fn start_order(in_degree: &Vec<usize>, Ghost(edges): Ghost<Seq<(usize, usize)>>) -> (r: Vec<usize>)
    requires
        forall|v: int| 0 <= v < in_degree@.len() ==> (#[trigger] in_degree@[v] > 0) == has_in_link(edges, v),
    ensures
        forall|k: int| 0 <= k < r@.len() ==> #[trigger] r@[k] < in_degree@.len(),
        forall|v: int| 0 <= v < in_degree@.len() ==> #[trigger] r@.contains(v as usize),
        r@ == spec_starts(edges, in_degree@.len() as int),
{
    let n = in_degree.len();
    let mut r: Vec<usize> = Vec::new();
    let ghost f = no_in_link(edges);
    let ghost g = some_in_link(edges);
    assert(indices(0).filter(f) =~= Seq::<usize>::empty()) by {
        reveal(Seq::filter);
    }
    for v in 0..n
        invariant
            n == in_degree@.len(),
            f == no_in_link(edges),
            forall|w: int| 0 <= w < n ==> (#[trigger] in_degree@[w] > 0) == has_in_link(edges, w),
            r@ == indices(v as int).filter(f),
    {
        proof {
            assert(indices(v + 1) =~= indices(v as int).push(v));
            indices(v as int).lemma_filter_push(v, f);
        }
        if in_degree[v] == 0 {
            r.push(v);
        }
    }
    let ghost first = r@;
    assert(indices(0).filter(g) =~= Seq::<usize>::empty()) by {
        reveal(Seq::filter);
    }
    assert(first + indices(0).filter(g) =~= first);
    for v in 0..n
        invariant
            n == in_degree@.len(),
            g == some_in_link(edges),
            forall|w: int| 0 <= w < n ==> (#[trigger] in_degree@[w] > 0) == has_in_link(edges, w),
            r@ == first + indices(v as int).filter(g),
    {
        proof {
            assert(indices(v + 1) =~= indices(v as int).push(v));
            indices(v as int).lemma_filter_push(v, g);
        }
        if in_degree[v] != 0 {
            let ghost before = r@;
            r.push(v);
            assert(r@ =~= first + indices(v as int).filter(g).push(v));
        }
    }
    assert(first == indices(n as int).filter(f));
    proof {
        let all = r@;
        assert forall|k: int| 0 <= k < all.len() implies #[trigger] all[k] < n by {
            let x = indices(n as int).filter(f);
            let y = indices(n as int).filter(g);
            if k < x.len() {
                indices(n as int).lemma_filter_contains_rev(f, x[k]);
            } else {
                assert(y.contains(y[k - x.len()]));
                indices(n as int).lemma_filter_contains_rev(g, y[k - x.len()]);
            }
        }
        assert forall|w: int| 0 <= w < n implies #[trigger] all.contains(w as usize) by {
            assert(indices(n as int)[w] == w as usize);
            if has_in_link(edges, w) {
                indices(n as int).lemma_filter_contains(g, w);
                let y = indices(n as int).filter(g);
                let j = choose|j: int| 0 <= j < y.len() && y[j] == w as usize;
                assert(all[first.len() + j] == w as usize);
            } else {
                indices(n as int).lemma_filter_contains(f, w);
                let j = choose|j: int| 0 <= j < first.len() && first[j] == w as usize;
                assert(all[j] == w as usize);
            }
        }
    }
    r
}

pub open spec fn lens_view(out: Seq<Vec<usize>>) -> Seq<int> {
    out.map_values(|o: Vec<usize>| o@.len() as int)
}

/// What a reversed edge from `u` to `v` promises while the search runs:
/// `v` was on the stack below `u` when it was seen, so it stays there or
/// finishes after `u`.
spec fn back_fact(colors: Seq<u8>, pos: Seq<int>, fin: Seq<int>, u: int, v: int) -> bool {
    &&& colors[u] != 0
    &&& colors[u] == 1 ==> colors[v] == 1 && pos[v] < pos[u]
    &&& colors[u] == 2 ==> colors[v] == 1 || (colors[v] == 2 && fin[v] > fin[u])
}

/// What an explored edge from `u` to `v` that is not reversed promises:
/// `v` is finished before `u`, or sits above it on the stack.
spec fn forward_fact(colors: Seq<u8>, pos: Seq<int>, fin: Seq<int>, u: int, v: int) -> bool {
    &&& colors[v] != 0
    &&& colors[u] == 1 ==> colors[v] == 2 || (colors[v] == 1 && pos[v] > pos[u])
    &&& colors[u] == 2 ==> colors[v] == 2 && fin[v] < fin[u]
}

/// Depth-first search state: the colours (0 unvisited, 1 on the stack,
/// 2 finished), the stack of nodes with the number of their out-edges
/// explored (`done`), stack positions, finish times below `t`, and the
/// reversal flag of every edge.
spec fn dfs_ok(
    out: Seq<Seq<usize>>,
    edges: Seq<(usize, usize)>,
    colors: Seq<u8>,
    stack: Seq<(usize, usize)>,
    rev: Seq<bool>,
    done: Seq<int>,
    pos: Seq<int>,
    fin: Seq<int>,
    t: int,
    n: int,
) -> bool {
    &&& out.len() == n
    &&& t >= 0
    &&& colors.len() == n
    &&& done.len() == n
    &&& pos.len() == n
    &&& fin.len() == n
    &&& rev.len() == edges.len()
    &&& forall|u: int, j: int|
        0 <= u < n && 0 <= j < out[u].len() ==> #[trigger] out[u][j] < edges.len() && edges[out[u][j] as int].0
            == u && is_link(edges, out[u][j] as int)
    &&& forall|v: int| 0 <= v < n ==> #[trigger] colors[v] <= 2
    &&& forall|k: int|
        0 <= k < stack.len() ==> (#[trigger] stack[k]).0 < n && colors[stack[k].0 as int] == 1
            && pos[stack[k].0 as int] == k && stack[k].1 as int == done[stack[k].0 as int]
    &&& forall|v: int|
        0 <= v < n && #[trigger] colors[v] == 1 ==> 0 <= pos[v] < stack.len() && stack[pos[v]].0 == v
    &&& forall|v: int| 0 <= v < n ==> 0 <= #[trigger] done[v] <= out[v].len()
    &&& forall|v: int| 0 <= v < n && #[trigger] colors[v] == 0 ==> done[v] == 0
    &&& forall|v: int|
        0 <= v < n && #[trigger] colors[v] == 2 ==> done[v] == out[v].len() && 0 <= fin[v] < t
    &&& forall|e: int|
        0 <= e < edges.len() && #[trigger] rev[e] ==> back_fact(
            colors,
            pos,
            fin,
            edges[e].0 as int,
            edges[e].1 as int,
        )
    &&& forall|u: int, j: int|
        0 <= u < n && 0 <= j < done[u] ==> {
            let e = #[trigger] out[u][j] as int;
            !rev[e] ==> forward_fact(colors, pos, fin, u, edges[e].1 as int)
        }
    &&& forall|u: int, j: int|
        0 <= u < n && 0 <= j < done[u] ==> colors[edges[#[trigger] out[u][j] as int].1 as int] != 0
}


/// Pushing an unvisited node onto an empty stack keeps the search state.
proof fn lemma_dfs_start(
    out: Seq<Seq<usize>>,
    edges: Seq<(usize, usize)>,
    colors: Seq<u8>,
    rev: Seq<bool>,
    done: Seq<int>,
    pos: Seq<int>,
    fin: Seq<int>,
    t: int,
    n: int,
    s: usize,
)
    requires
        dfs_ok(out, edges, colors, Seq::empty(), rev, done, pos, fin, t, n),
        edges_in_range(n, edges),
        0 <= s < n,
        colors[s as int] == 0,
    ensures
        dfs_ok(out, edges, colors.update(s as int, 1), seq![(s, 0usize)], rev, done, pos.update(s as int, 0), fin, t, n),
{
    let colors2 = colors.update(s as int, 1);
    let pos2 = pos.update(s as int, 0);
    let stack2 = seq![(s, 0usize)];
    assert forall|v: int| 0 <= v < n && #[trigger] colors2[v] == 1 implies 0 <= pos2[v] < stack2.len()
        && stack2[pos2[v]].0 == v by {
        if v != s as int {
            assert(colors[v] == 1);
        }
    }
    assert forall|e: int| 0 <= e < edges.len() && #[trigger] rev[e] implies back_fact(
        colors2,
        pos2,
        fin,
        edges[e].0 as int,
        edges[e].1 as int,
    ) by {
        let u = edges[e].0 as int;
        let v = edges[e].1 as int;
        assert(back_fact(colors, pos, fin, u, v));
        if colors[u] == 1 {
            assert(0 <= pos[u] < 0);
        }
    }
    assert forall|u: int, j: int| 0 <= u < n && 0 <= j < done[u] implies {
        let e = #[trigger] out[u][j] as int;
        !rev[e] ==> forward_fact(colors2, pos2, fin, u, edges[e].1 as int)
    } by {
        let e = out[u][j] as int;
        if colors[u] == 1 {
            assert(0 <= pos[u] < 0);
        }
        assert(colors[edges[e].1 as int] != 0);
    }
    assert forall|u: int, j: int| 0 <= u < n && 0 <= j < done[u] implies colors2[edges[
        #[trigger] out[u][j] as int
    ].1 as int] != 0 by {
        assert(colors[edges[out[u][j] as int].1 as int] != 0);
    }
}

/// Finishing the node on top of the stack once all its out-edges are
/// explored keeps the search state.
#[verifier::spinoff_prover]
proof fn lemma_dfs_finish(
    out: Seq<Seq<usize>>,
    edges: Seq<(usize, usize)>,
    colors: Seq<u8>,
    stack: Seq<(usize, usize)>,
    rev: Seq<bool>,
    done: Seq<int>,
    pos: Seq<int>,
    fin: Seq<int>,
    t: int,
    n: int,
)
    requires
        dfs_ok(out, edges, colors, stack, rev, done, pos, fin, t, n),
        edges_in_range(n, edges),
        stack.len() > 0,
        stack.last().1 >= out[stack.last().0 as int].len(),
    ensures
        dfs_ok(
            out,
            edges,
            colors.update(stack.last().0 as int, 2),
            stack.drop_last(),
            rev,
            done,
            pos,
            fin.update(stack.last().0 as int, t),
            t + 1,
            n,
        ),
{
    let top = stack.len() - 1;
    let x = stack.last().0 as int;
    assert(stack[top] == stack.last());
    let colors2 = colors.update(x, 2);
    let stack2 = stack.drop_last();
    let fin2 = fin.update(x, t);
    assert forall|k: int| 0 <= k < stack2.len() implies (#[trigger] stack2[k]).0 < n && colors2[stack2[k].0 as int]
        == 1 && pos[stack2[k].0 as int] == k && stack2[k].1 as int == done[stack2[k].0 as int] by {
        assert(stack2[k] == stack[k]);
    }
    assert forall|v: int| 0 <= v < n && #[trigger] colors2[v] == 1 implies 0 <= pos[v] < stack2.len()
        && stack2[pos[v]].0 == v by {
        assert(colors[v] == 1);
        if pos[v] == top {
            assert(stack[top].0 == v);
        }
        assert(stack2[pos[v]] == stack[pos[v]]);
    }
    assert forall|v: int| 0 <= v < n && #[trigger] colors2[v] == 2 implies done[v] == out[v].len() && 0
        <= fin2[v] < t + 1 by {
        if v != x {
            assert(colors[v] == 2);
        } else {
            assert(stack[top].1 as int == done[stack[top].0 as int]);
            assert(0 <= done[x] <= out[x].len());
        }
    }
    assert forall|e: int| 0 <= e < edges.len() && #[trigger] rev[e] implies back_fact(
        colors2,
        pos,
        fin2,
        edges[e].0 as int,
        edges[e].1 as int,
    ) by {
        let u = edges[e].0 as int;
        let v = edges[e].1 as int;
        assert(back_fact(colors, pos, fin, u, v));
        if v == x && colors[u] == 1 {
            assert(0 <= pos[u] < stack.len());
        }
        if u == x {
            assert(0 <= pos[v] < stack.len() && stack[pos[v]].0 == v);
        }
    }
    assert forall|u: int, j: int| 0 <= u < n && 0 <= j < done[u] implies {
        let e = #[trigger] out[u][j] as int;
        !rev[e] ==> forward_fact(colors2, pos, fin2, u, edges[e].1 as int)
    } by {
        let e = out[u][j] as int;
        let v = edges[e].1 as int;
        if !rev[e] {
            assert(forward_fact(colors, pos, fin, u, v));
            if u == x && colors[v] == 1 {
                assert(0 <= pos[v] < stack.len());
            }
            if v == x {
                assert(0 <= pos[v] < stack.len());
            }
        }
    }
    assert forall|u: int, j: int| 0 <= u < n && 0 <= j < done[u] implies colors2[edges[
        #[trigger] out[u][j] as int
    ].1 as int] != 0 by {
        assert(colors[edges[out[u][j] as int].1 as int] != 0);
    }
}


/// Exploring the next out-edge of the node on top of the stack keeps the
/// search state: an unvisited target is pushed, a target on the stack marks
/// the edge reversed, a finished target changes nothing.
#[verifier::spinoff_prover]
proof fn lemma_dfs_explore(
    out: Seq<Seq<usize>>,
    edges: Seq<(usize, usize)>,
    colors: Seq<u8>,
    stack: Seq<(usize, usize)>,
    rev: Seq<bool>,
    done: Seq<int>,
    pos: Seq<int>,
    fin: Seq<int>,
    t: int,
    n: int,
)
    requires
        dfs_ok(out, edges, colors, stack, rev, done, pos, fin, t, n),
        edges_in_range(n, edges),
        stack.len() > 0,
        stack.last().1 < out[stack.last().0 as int].len(),
        stack.last().1 < usize::MAX,
    ensures
        ({
            let top = stack.len() - 1;
            let x = stack.last().0 as int;
            let c = stack.last().1 as int;
            let e = out[x][c] as int;
            let v = edges[e].1 as int;
            let stack1 = stack.update(top, (stack.last().0, (c + 1) as usize));
            let done1 = done.update(x, c + 1);
            &&& 0 <= v < n
            &&& colors[v] == 0 ==> dfs_ok(
                out,
                edges,
                colors.update(v, 1),
                stack1.push((v as usize, 0usize)),
                rev,
                done1,
                pos.update(v, stack.len() as int),
                fin,
                t,
                n,
            )
            &&& colors[v] == 1 ==> dfs_ok(out, edges, colors, stack1, rev.update(e, true), done1, pos, fin, t, n)
            &&& colors[v] == 2 ==> dfs_ok(out, edges, colors, stack1, rev, done1, pos, fin, t, n)
        }),
{
    let top = stack.len() - 1;
    assert(stack[top] == stack.last());
    let x = stack.last().0 as int;
    let c = stack.last().1 as int;
    assert(0 <= x < n && colors[x] == 1 && pos[x] == top && done[x] == c);
    let e = out[x][c] as int;
    let v = edges[e].1 as int;
    assert(0 <= e < edges.len() && edges[e].0 == x && is_link(edges, e));
    assert(0 <= v < n);
    let stack1 = stack.update(top, (stack.last().0, (c + 1) as usize));
    let done1 = done.update(x, c + 1);
    assert(0 <= done[x] <= out[x].len());
    // facts shared by the three cases
    assert forall|k: int| 0 <= k < stack.len() implies (#[trigger] stack1[k]).0 == stack[k].0 && (k != top
        ==> stack1[k] == stack[k]) by {}
    assert forall|k: int| 0 <= k < stack.len() && k != top implies (#[trigger] stack[k]).0 != x by {
        assert(pos[stack[k].0 as int] == k);
    }
    if colors[v] == 0 {
        let colors2 = colors.update(v, 1);
        let pos2 = pos.update(v, stack.len() as int);
        let stack2 = stack1.push((v as usize, 0usize));
        assert(v != x);
        if rev[e] {
            assert(back_fact(colors, pos, fin, x, v));
        }
        assert forall|k: int| 0 <= k < stack2.len() implies (#[trigger] stack2[k]).0 < n && colors2[stack2[k].0 as int]
            == 1 && pos2[stack2[k].0 as int] == k && stack2[k].1 as int == done1[stack2[k].0 as int] by {
            if k < stack.len() {
                assert(stack2[k] == stack1[k]);
                assert(stack[k].0 < n && colors[stack[k].0 as int] == 1);
            } else {
                assert(done[v] == 0);
            }
        }
        assert forall|w: int| 0 <= w < n && #[trigger] colors2[w] == 1 implies 0 <= pos2[w] < stack2.len()
            && stack2[pos2[w]].0 == w by {
            if w != v {
                assert(colors[w] == 1);
                assert(stack2[pos[w]] == stack1[pos[w]]);
            }
        }
        assert forall|w: int| 0 <= w < n implies 0 <= #[trigger] done1[w] <= out[w].len() by {
            assert(0 <= done[w] <= out[w].len());
        }
        assert forall|w: int| 0 <= w < n && #[trigger] colors2[w] == 0 implies done1[w] == 0 by {
            assert(colors[w] == 0);
        }
        assert forall|w: int| 0 <= w < n && #[trigger] colors2[w] == 2 implies done1[w] == out[w].len() && 0
            <= fin[w] < t by {
            assert(colors[w] == 2);
        }
        assert forall|f: int| 0 <= f < edges.len() && #[trigger] rev[f] implies back_fact(
            colors2,
            pos2,
            fin,
            edges[f].0 as int,
            edges[f].1 as int,
        ) by {
            let a = edges[f].0 as int;
            let b = edges[f].1 as int;
            assert(back_fact(colors, pos, fin, a, b));
        }
        assert forall|u: int, j: int| 0 <= u < n && 0 <= j < done1[u] implies {
            let f = #[trigger] out[u][j] as int;
            !rev[f] ==> forward_fact(colors2, pos2, fin, u, edges[f].1 as int)
        } by {
            let f = out[u][j] as int;
            let b = edges[f].1 as int;
            if !(u == x && j == c) {
                assert(colors[b] != 0);
                if !rev[f] {
                    assert(forward_fact(colors, pos, fin, u, b));
                }
            }
        }
        assert forall|u: int, j: int| 0 <= u < n && 0 <= j < done1[u] implies colors2[edges[
            #[trigger] out[u][j] as int
        ].1 as int] != 0 by {
            if !(u == x && j == c) {
                assert(colors[edges[out[u][j] as int].1 as int] != 0);
            }
        }
        assert(dfs_ok(out, edges, colors2, stack2, rev, done1, pos2, fin, t, n));
    } else if colors[v] == 1 {
        let rev2 = rev.update(e, true);
        assert(0 <= pos[v] < stack.len() && stack[pos[v]].0 == v);
        assert(pos[v] < pos[x]);
        assert forall|k: int| 0 <= k < stack1.len() implies (#[trigger] stack1[k]).0 < n && colors[stack1[k].0 as int]
            == 1 && pos[stack1[k].0 as int] == k && stack1[k].1 as int == done1[stack1[k].0 as int] by {
            assert(stack[k].0 < n);
        }
        assert forall|w: int| 0 <= w < n && #[trigger] colors[w] == 1 implies 0 <= pos[w] < stack1.len()
            && stack1[pos[w]].0 == w by {}
        assert forall|w: int| 0 <= w < n implies 0 <= #[trigger] done1[w] <= out[w].len() by {
            assert(0 <= done[w] <= out[w].len());
        }
        assert forall|w: int| 0 <= w < n && #[trigger] colors[w] == 2 implies done1[w] == out[w].len() && 0
            <= fin[w] < t by {}
        assert forall|f: int| 0 <= f < edges.len() && #[trigger] rev2[f] implies back_fact(
            colors,
            pos,
            fin,
            edges[f].0 as int,
            edges[f].1 as int,
        ) by {
            if f != e {
                assert(rev[f]);
            }
        }
        assert forall|u: int, j: int| 0 <= u < n && 0 <= j < done1[u] implies {
            let f = #[trigger] out[u][j] as int;
            !rev2[f] ==> forward_fact(colors, pos, fin, u, edges[f].1 as int)
        } by {
            let f = out[u][j] as int;
            if !(u == x && j == c) && f != e {
                if !rev[f] {
                    assert(forward_fact(colors, pos, fin, u, edges[f].1 as int));
                }
            }
        }
        assert forall|u: int, j: int| 0 <= u < n && 0 <= j < done1[u] implies colors[edges[
            #[trigger] out[u][j] as int
        ].1 as int] != 0 by {
            if !(u == x && j == c) {
                assert(colors[edges[out[u][j] as int].1 as int] != 0);
            }
        }
        assert(dfs_ok(out, edges, colors, stack1, rev2, done1, pos, fin, t, n));
    } else {
        assert(colors[v] == 2);
        if rev[e] {
            assert(back_fact(colors, pos, fin, x, v));
        }
        assert forall|k: int| 0 <= k < stack1.len() implies (#[trigger] stack1[k]).0 < n && colors[stack1[k].0 as int]
            == 1 && pos[stack1[k].0 as int] == k && stack1[k].1 as int == done1[stack1[k].0 as int] by {
            assert(stack[k].0 < n);
        }
        assert forall|w: int| 0 <= w < n && #[trigger] colors[w] == 1 implies 0 <= pos[w] < stack1.len()
            && stack1[pos[w]].0 == w by {}
        assert forall|w: int| 0 <= w < n implies 0 <= #[trigger] done1[w] <= out[w].len() by {
            assert(0 <= done[w] <= out[w].len());
        }
        assert forall|w: int| 0 <= w < n && #[trigger] colors[w] == 2 implies done1[w] == out[w].len() && 0
            <= fin[w] < t by {}
        assert forall|u: int, j: int| 0 <= u < n && 0 <= j < done1[u] implies {
            let f = #[trigger] out[u][j] as int;
            !rev[f] ==> forward_fact(colors, pos, fin, u, edges[f].1 as int)
        } by {
            let f = out[u][j] as int;
            if !(u == x && j == c) {
                if !rev[f] {
                    assert(forward_fact(colors, pos, fin, u, edges[f].1 as int));
                }
            }
        }
        assert forall|u: int, j: int| 0 <= u < n && 0 <= j < done1[u] implies colors[edges[
            #[trigger] out[u][j] as int
        ].1 as int] != 0 by {
            if !(u == x && j == c) {
                assert(colors[edges[out[u][j] as int].1 as int] != 0);
            }
        }
        assert(dfs_ok(out, edges, colors, stack1, rev, done1, pos, fin, t, n));
    }
}


/// Depth-first search from each start in turn along out-edges; an edge that
/// leads to a node still on the stack is marked reversed. Along with the
/// flags come finish times below a bound: an edge not reversed leads to a
/// node finished before its source, a reversed one to a node finished
/// after it.
fn reversed_edges(
    n: usize,
    edges: &[(usize, usize)],
    out: &Vec<Vec<usize>>,
    starts: &Vec<usize>,
    Ghost(at): Ghost<Seq<int>>,
) -> (r: (Vec<bool>, Ghost<Seq<int>>, Ghost<int>))
    requires
        edges_in_range(n as int, edges@),
        out_ok(vecs_view(out@), at, edges@, n as int),
        forall|k: int| 0 <= k < starts@.len() ==> #[trigger] starts@[k] < n,
        forall|v: int| 0 <= v < n ==> #[trigger] starts@.contains(v as usize),
        forall|u: int| 0 <= u < n ==> #[trigger] vecs_view(out@)[u] == link_out(edges@, u as usize),
    ensures
        r.0@ == dfs_flips(edges@, starts@, n as nat),
        r.0@.len() == edges@.len(),
        r.1@.len() == n,
        r.2@ >= 0,
        forall|v: int| 0 <= v < n ==> 0 <= #[trigger] r.1@[v] < r.2@,
        forall|e: int|
            0 <= e < edges@.len() && is_link(edges@, e) ==> if #[trigger] r.0@[e] {
                r.1@[edges@[e].1 as int] > r.1@[edges@[e].0 as int]
            } else {
                r.1@[edges@[e].1 as int] < r.1@[edges@[e].0 as int]
            },
{
    let m = edges.len();
    let mut colors: Vec<u8> = Vec::new();
    for i in 0..n
        invariant
            colors@.len() == i,
            forall|v: int| 0 <= v < i ==> #[trigger] colors@[v] == 0,
    {
        colors.push(0);
    }
    let mut rev: Vec<bool> = Vec::new();
    for i in 0..m
        invariant
            rev@.len() == i,
            forall|e: int| 0 <= e < i ==> !(#[trigger] rev@[e]),
    {
        rev.push(false);
    }
    let ghost outv = vecs_view(out@);
    let ghost lens = lens_view(out@);
    let ghost mut done: Seq<int> = Seq::new(n as nat, |v: int| 0);
    let ghost mut pos: Seq<int> = Seq::new(n as nat, |v: int| 0);
    let ghost mut fin: Seq<int> = Seq::new(n as nat, |v: int| 0);
    let ghost mut t: int = 0;
    let mut stack: Vec<(usize, usize)> = Vec::new();
    assert(dfs_ok(outv, edges@, colors@, stack@, rev@, done, pos, fin, t, n as int));
    let ghost mut steps: nat = 0;
    assert(colors@ =~= Seq::new(n as nat, |v: int| 0u8));
    assert(rev@ =~= Seq::new(edges@.len(), |e: int| false));
    assert(stack@ =~= Seq::<(usize, usize)>::empty());
    assert(dfs_run(edges@, starts@, n as nat, 0) == (DfsState { k: 0, colors: colors@, stack: stack@, rev: rev@ }));
    for k in 0..starts.len()
        invariant
            dfs_run(edges@, starts@, n as nat, steps) == (DfsState {
                k: k as int,
                colors: colors@,
                stack: stack@,
                rev: rev@,
            }),
            forall|u: int| 0 <= u < n ==> #[trigger] outv[u] == link_out(edges@, u as usize),
            edges_in_range(n as int, edges@),
            outv == vecs_view(out@),
            lens == lens_view(out@),
            out_ok(outv, at, edges@, n as int),
            forall|q: int| 0 <= q < starts@.len() ==> #[trigger] starts@[q] < n,
            stack@.len() == 0,
            dfs_ok(outv, edges@, colors@, stack@, rev@, done, pos, fin, t, n as int),
            forall|q: int| 0 <= q < k ==> colors@[#[trigger] starts@[q] as int] == 2,
    {
        let start = starts[k];
        if colors[start] == 0 {
            proof {
                assert(stack@ == Seq::<(usize, usize)>::empty());
                lemma_dfs_start(outv, edges@, colors@, rev@, done, pos, fin, t, n as int, start);
            }
            colors.set(start, 1);
            proof {
                pos = pos.update(start as int, 0);
            }
            stack.push((start, 0));
            assert(stack@ == seq![(start, 0usize)]);
            proof {
                steps = steps + 1;
            }
            while stack.len() > 0
                invariant
                    dfs_run(edges@, starts@, n as nat, steps) == (DfsState {
                        k: k + 1,
                        colors: colors@,
                        stack: stack@,
                        rev: rev@,
                    }),
                    forall|u: int| 0 <= u < n ==> #[trigger] outv[u] == link_out(edges@, u as usize),
                    edges_in_range(n as int, edges@),
                    outv == vecs_view(out@),
                    lens == lens_view(out@),
                    out_ok(outv, at, edges@, n as int),
                    dfs_ok(outv, edges@, colors@, stack@, rev@, done, pos, fin, t, n as int),
                    forall|q: int| 0 <= q < starts@.len() ==> #[trigger] starts@[q] < n,
                    forall|q: int| 0 <= q < k ==> colors@[#[trigger] starts@[q] as int] == 2,
                    start < n,
                    k < starts@.len(),
                    colors@[start as int] != 0,
                decreases work_left(lens, done, colors@, n as int),
            {
                proof {
                    lemma_work_left_nonneg(lens, done, colors@, n as int);
                }
                let top = stack.len() - 1;
                let (node, child_i) = stack[top];
                assert(stack@[top as int] == stack@.last());
                assert(node < n && done[node as int] == child_i);
                if child_i >= out[node].len() {
                    let ghost c0 = colors@;
                    let ghost f0 = fin;
                    proof {
                        lemma_dfs_finish(outv, edges@, colors@, stack@, rev@, done, pos, fin, t, n as int);
                    }
                    let ghost s0 = stack@;
                    colors.set(node, 2);
                    let _ = stack.pop();
                    proof {
                        assert(outv[node as int] == link_out(edges@, node));
                        assert(stack@ =~= s0.drop_last());
                        steps = steps + 1;
                        fin = fin.update(node as int, t);
                        t = t + 1;
                        lemma_work_left_update(lens, done, c0, done, colors@, node as int, n as int);
                        assert(work_left(lens, done, colors@, n as int) < work_left(lens, done, c0, n as int));
                        lemma_work_left_nonneg(lens, done, colors@, n as int);
                    }
                } else {
                    let ghost c0 = colors@;
                    let ghost d0 = done;
                    proof {
                        lemma_dfs_explore(outv, edges@, colors@, stack@, rev@, done, pos, fin, t, n as int);
                    }
                    let ghost s0 = stack@;
                    let ghost r0 = rev@;
                    stack.set(top, (node, child_i + 1));
                    proof {
                        done = done.update(node as int, child_i + 1);
                    }
                    let e = out[node][child_i];
                    let child = edges[e].1;
                    let c = colors[child];
                    proof {
                        assert(outv[node as int] == link_out(edges@, node));
                        assert(link_out(edges@, node)[child_i as int] == e);
                        assert(stack@ == s0.update(s0.len() - 1, (node, (child_i + 1) as usize)));
                    }
                    if c == 0 {
                        colors.set(child, 1);
                        proof {
                            pos = pos.update(child as int, stack@.len() as int);
                        }
                        stack.push((child, 0));
                    } else if c == 1 {
                        rev.set(e, true);
                    }
                    proof {
                        steps = steps + 1;
                    }
                    proof {
                        lemma_work_left_update(lens, d0, c0, done, c0, node as int, n as int);
                        if c == 0 {
                            lemma_work_left_update(lens, done, c0, done, colors@, child as int, n as int);
                        }
                        assert(work_left(lens, done, colors@, n as int) < work_left(lens, d0, c0, n as int));
                        lemma_work_left_nonneg(lens, done, colors@, n as int);
                    }
                }
            }
        } else {
            proof {
                steps = steps + 1;
            }
        }
        assert(colors@[start as int] == 2);
    }
    proof {
        lemma_dfs_flips(edges@, starts@, n as nat, steps);
    }
    assert forall|v: int| 0 <= v < n implies #[trigger] colors@[v] == 2 by {
        assert(starts@.contains(v as usize));
        let q = choose|q: int| 0 <= q < starts@.len() && starts@[q] == v as usize;
        assert(colors@[starts@[q] as int] == 2);
    }
    assert forall|v: int| 0 <= v < n implies 0 <= #[trigger] fin[v] < t by {
        assert(colors@[v] == 2);
    }
    assert forall|e: int| 0 <= e < edges@.len() && is_link(edges@, e) implies if #[trigger] rev@[e] {
        fin[edges@[e].1 as int] > fin[edges@[e].0 as int]
    } else {
        fin[edges@[e].1 as int] < fin[edges@[e].0 as int]
    } by {
        let u = edges@[e].0 as int;
        let v = edges@[e].1 as int;
        assert(0 <= u < n && 0 <= v < n);
        assert(colors@[u] == 2 && colors@[v] == 2);
        assert(done[u] == outv[u].len());
        let j = at[e];
        assert(outv[u][j] == e);
        if rev@[e] {
            assert(back_fact(colors@, pos, fin, u, v));
        } else {
            assert(forward_fact(colors@, pos, fin, u, v));
        }
    }
    (rev, Ghost(fin), Ghost(t))
}


/// How often `x` occurs in `s`.
pub open spec fn occ(s: Seq<usize>, x: usize) -> nat
    decreases s.len(),
{
    if s.len() == 0 {
        0
    } else {
        occ(s.drop_last(), x) + if s.last() == x {
            1nat
        } else {
            0nat
        }
    }
}

/// How many entries of `s` name a node not yet marked in `marked`.
spec fn unmarked(s: Seq<usize>, marked: Seq<bool>) -> nat
    decreases s.len(),
{
    if s.len() == 0 {
        0
    } else {
        unmarked(s.drop_last(), marked) + if marked[s.last() as int] {
            0nat
        } else {
            1nat
        }
    }
}

/// How many of the first `k` nodes are marked.
spec fn count_marked(marked: Seq<bool>, k: int) -> nat
    decreases k,
{
    if k <= 0 {
        0
    } else {
        count_marked(marked, k - 1) + if marked[k - 1] {
            1nat
        } else {
            0nat
        }
    }
}

proof fn lemma_occ_push(s: Seq<usize>, a: usize, x: usize)
    ensures
        occ(s.push(a), x) == occ(s, x) + if a == x {
            1nat
        } else {
            0nat
        },
{
    assert(s.push(a).drop_last() =~= s);
}

proof fn lemma_occ_take(s: Seq<usize>, p: int, x: usize)
    requires
        0 <= p < s.len(),
    ensures
        occ(s.take(p + 1), x) == occ(s.take(p), x) + if s[p] == x {
            1nat
        } else {
            0nat
        },
{
    assert(s.take(p + 1).drop_last() =~= s.take(p));
}

proof fn lemma_occ_take_le(s: Seq<usize>, p: int, x: usize)
    requires
        0 <= p <= s.len(),
    ensures
        occ(s.take(p), x) <= occ(s, x),
    decreases s.len() - p,
{
    if p < s.len() {
        lemma_occ_take(s, p, x);
        lemma_occ_take_le(s, p + 1, x);
    } else {
        assert(s.take(p) =~= s);
    }
}

/// `x` occurs in `s` exactly when its count is positive.
proof fn lemma_occ_pos(s: Seq<usize>, x: usize)
    ensures
        occ(s, x) > 0 <==> exists|q: int| 0 <= q < s.len() && s[q] == x,
    decreases s.len(),
{
    if s.len() > 0 {
        lemma_occ_pos(s.drop_last(), x);
        if exists|q: int| 0 <= q < s.len() && s[q] == x {
            let q = choose|q: int| 0 <= q < s.len() && s[q] == x;
            if q < s.len() - 1 {
                assert(s.drop_last()[q] == x);
            }
        }
        if exists|q: int| 0 <= q < s.len() - 1 && s.drop_last()[q] == x {
            let q = choose|q: int| 0 <= q < s.len() - 1 && s.drop_last()[q] == x;
            assert(s[q] == x);
        }
    }
}

/// Marking an unmarked node `x` lowers the unmarked count of `s` by the
/// occurrences of `x`.
proof fn lemma_unmarked_mark(s: Seq<usize>, marked: Seq<bool>, x: usize)
    requires
        x < marked.len(),
        !marked[x as int],
        forall|q: int| 0 <= q < s.len() ==> #[trigger] s[q] < marked.len(),
    ensures
        unmarked(s, marked.update(x as int, true)) + occ(s, x) == unmarked(s, marked),
    decreases s.len(),
{
    if s.len() > 0 {
        assert forall|q: int| 0 <= q < s.len() - 1 implies #[trigger] s.drop_last()[q] < marked.len() by {
            assert(s[q] < marked.len());
        }
        lemma_unmarked_mark(s.drop_last(), marked, x);
        assert(s[s.len() - 1] < marked.len());
    }
}

/// No entry is unmarked exactly when the unmarked count is zero.
proof fn lemma_unmarked_zero(s: Seq<usize>, marked: Seq<bool>)
    ensures
        unmarked(s, marked) == 0 <==> forall|q: int| 0 <= q < s.len() ==> marked[#[trigger] s[q] as int],
    decreases s.len(),
{
    if s.len() > 0 {
        lemma_unmarked_zero(s.drop_last(), marked);
        if unmarked(s, marked) == 0 {
            assert forall|q: int| 0 <= q < s.len() implies marked[#[trigger] s[q] as int] by {
                if q < s.len() - 1 {
                    assert(s.drop_last()[q] == s[q]);
                }
            }
        }
        if forall|q: int| 0 <= q < s.len() ==> marked[#[trigger] s[q] as int] {
            assert forall|q: int| 0 <= q < s.len() - 1 implies marked[#[trigger] s.drop_last()[q] as int] by {
                assert(s[q] == s.drop_last()[q]);
            }
            assert(marked[s[s.len() - 1] as int]);
        }
    }
}

proof fn lemma_count_mark(marked: Seq<bool>, x: int, k: int)
    requires
        0 <= x < marked.len(),
        !marked[x],
        k <= marked.len(),
    ensures
        count_marked(marked.update(x, true), k) == count_marked(marked, k) + if 0 <= x < k {
            1nat
        } else {
            0nat
        },
    decreases k,
{
    if k > 0 {
        lemma_count_mark(marked, x, k - 1);
    }
}

proof fn lemma_count_le(marked: Seq<bool>, k: int)
    requires
        k >= 0,
    ensures
        count_marked(marked, k) <= k,
    decreases k,
{
    if k > 0 {
        lemma_count_le(marked, k - 1);
    }
}


proof fn lemma_unmarked_none(s: Seq<usize>, marked: Seq<bool>)
    requires
        forall|q: int| 0 <= q < s.len() ==> !marked[#[trigger] s[q] as int],
    ensures
        unmarked(s, marked) == s.len(),
    decreases s.len(),
{
    if s.len() > 0 {
        assert forall|q: int| 0 <= q < s.len() - 1 implies !marked[#[trigger] s.drop_last()[q] as int] by {
            assert(s[q] == s.drop_last()[q]);
        }
        lemma_unmarked_none(s.drop_last(), marked);
        assert(!marked[s[s.len() - 1] as int]);
    }
}

/// While every unmarked node has an unmarked predecessor with a later
/// finish time, no unmarked node finishes at `bound - d` or later; so when
/// finish times lie in `[0, bound)`, no node is left unmarked.
proof fn lemma_unmarked_finish(
    din: Seq<Seq<usize>>,
    marked: Seq<bool>,
    fin: Seq<int>,
    bound: int,
    n: int,
    d: int,
)
    requires
        din.len() == n,
        marked.len() == n,
        fin.len() == n,
        forall|v: int| 0 <= v < n ==> 0 <= #[trigger] fin[v] < bound,
        forall|y: int, q: int|
            0 <= y < n && 0 <= q < din[y].len() ==> #[trigger] din[y][q] < n && fin[din[y][q] as int] > fin[y],
        forall|y: int| 0 <= y < n && !marked[y] ==> unmarked(#[trigger] din[y], marked) > 0,
        0 <= d,
    ensures
        forall|y: int| 0 <= y < n && !marked[y] ==> #[trigger] fin[y] < bound - d,
    decreases d,
{
    if d > 0 {
        lemma_unmarked_finish(din, marked, fin, bound, n, d - 1);
        assert forall|y: int| 0 <= y < n && !marked[y] implies #[trigger] fin[y] < bound - d by {
            assert(unmarked(din[y], marked) > 0);
            lemma_unmarked_zero(din[y], marked);
            let q = choose|q: int| 0 <= q < din[y].len() && !marked[#[trigger] din[y][q] as int];
            let z = din[y][q] as int;
            assert(fin[z] > fin[y]);
            assert(fin[z] < bound - (d - 1));
        }
    }
}


/// The oriented graph: `dout[x]` lists the successors of `x`, `din[y]` the
/// predecessors of `y`, each edge once in each; every edge leads from a
/// later finish time to an earlier one, and finish times lie in
/// `[0, bound)`.
spec fn dag_ok(dout: Seq<Seq<usize>>, din: Seq<Seq<usize>>, fin: Seq<int>, bound: int, n: int) -> bool {
    &&& dout.len() == n
    &&& din.len() == n
    &&& fin.len() == n
    &&& forall|x: int, p: int|
        0 <= x < n && 0 <= p < dout[x].len() ==> #[trigger] dout[x][p] < n && fin[x] > fin[dout[x][p] as int]
    &&& forall|y: int, q: int|
        0 <= y < n && 0 <= q < din[y].len() ==> #[trigger] din[y][q] < n && fin[din[y][q] as int] > fin[y]
    &&& forall|x: int, y: int|
        0 <= x < n && 0 <= y < n ==> occ(#[trigger] dout[x], y as usize) == occ(#[trigger] din[y], x as usize)
    &&& forall|v: int| 0 <= v < n ==> 0 <= #[trigger] fin[v] < bound
    &&& bound >= 0
}

/// Layering state: `remaining[y]` counts the unmarked predecessors of `y`;
/// every rank is one more than that of a marked predecessor, or zero, and
/// at least one more than that of each marked predecessor; ranks stay
/// below the number of marked nodes.
#[verifier::opaque]
spec fn kahn_core(
    din: Seq<Seq<usize>>,
    rank: Seq<usize>,
    remaining: Seq<usize>,
    marked: Seq<bool>,
    nmarked: int,
    n: int,
) -> bool {
    &&& rank.len() == n
    &&& remaining.len() == n
    &&& marked.len() == n
    &&& forall|y: int| 0 <= y < n ==> #[trigger] remaining[y] == unmarked(din[y], marked)
    &&& forall|y: int| 0 <= y < n && #[trigger] marked[y] ==> remaining[y] == 0
    &&& forall|y: int, q: int|
        0 <= y < n && 0 <= q < din[y].len() && marked[#[trigger] din[y][q] as int] ==> rank[y] >= rank[din[y][q] as int]
            + 1
    &&& forall|y: int|
        0 <= y < n ==> #[trigger] rank[y] == 0 || exists|q: int|
            0 <= q < din[y].len() && marked[din[y][q] as int] && rank[y] == rank[din[y][q] as int] + 1
    &&& forall|y: int|
        0 <= y < n ==> if marked[y] {
            #[trigger] rank[y] + 1 <= nmarked
        } else {
            rank[y] <= nmarked
        }
    &&& nmarked == count_marked(marked, n)
}

/// The queue holds, once each, unmarked nodes with no unmarked predecessor
/// left.
spec fn queue_ok(queue: Seq<usize>, remaining: Seq<usize>, marked: Seq<bool>, n: int) -> bool {
    &&& forall|i: int|
        0 <= i < queue.len() ==> #[trigger] queue[i] < n && !marked[queue[i] as int] && remaining[queue[i] as int]
            == 0
    &&& forall|i: int, j: int| 0 <= i < j < queue.len() ==> #[trigger] queue[i] != #[trigger] queue[j]
}

spec fn kahn_ok(
    din: Seq<Seq<usize>>,
    rank: Seq<usize>,
    remaining: Seq<usize>,
    queue: Seq<usize>,
    marked: Seq<bool>,
    nmarked: int,
    n: int,
) -> bool {
    &&& rank.len() == n
    &&& remaining.len() == n
    &&& marked.len() == n
    &&& 0 <= nmarked <= n
    &&& kahn_core(din, rank, remaining, marked, nmarked, n)
    &&& queue_ok(queue, remaining, marked, n)
}

/// Every unmarked node other than `skip` with no unmarked predecessor left
/// is queued.
spec fn queue_full(queue: Seq<usize>, remaining: Seq<usize>, marked: Seq<bool>, n: int, skip: int) -> bool {
    forall|y: int|
        0 <= y < n && y != skip && !marked[y] && remaining[y] == 0 ==> #[trigger] queue.contains(y as usize)
}



/// The fixed part of the relaxation state of `x`.
#[verifier::opaque]
spec fn relax_base(
    dout: Seq<Seq<usize>>,
    x: int,
    rx: int,
    marked: Seq<bool>,
    nmarked: int,
    rank: Seq<usize>,
    remaining: Seq<usize>,
    p: int,
    n: int,
) -> bool {
    &&& 0 <= x < n
    &&& n <= usize::MAX
    &&& 0 <= p <= dout[x].len()
    &&& rank.len() == n
    &&& remaining.len() == n
    &&& marked.len() == n
    &&& !marked[x]
    &&& rank[x] == rx
    &&& 0 <= rx <= nmarked
    &&& nmarked + 1 <= n
    &&& nmarked == count_marked(marked, n)
    &&& remaining[x] == 0
    &&& occ(dout[x], x as usize) == 0
    &&& forall|y: int| 0 <= y < n && #[trigger] marked[y] ==> occ(dout[x], y as usize) == 0
}

/// Predecessor counts after the first `p` successors of `x` were handled.
#[verifier::opaque]
spec fn relax_counts(
    dout: Seq<Seq<usize>>,
    din: Seq<Seq<usize>>,
    x: int,
    marked: Seq<bool>,
    remaining: Seq<usize>,
    p: int,
    n: int,
) -> bool {
    &&& forall|y: int|
        0 <= y < n ==> #[trigger] remaining[y] + occ(dout[x].take(p), y as usize) == unmarked(din[y], marked)
    &&& forall|y: int| 0 <= y < n && #[trigger] marked[y] ==> remaining[y] == 0
}

/// The queue while `x` is being relaxed.
#[verifier::opaque]
spec fn relax_queue(x: int, marked: Seq<bool>, remaining: Seq<usize>, queue: Seq<usize>, n: int) -> bool {
    &&& forall|i: int|
        0 <= i < queue.len() ==> #[trigger] queue[i] < n && !marked[queue[i] as int] && queue[i] != x
            && remaining[queue[i] as int] == 0
    &&& forall|i: int, j: int| 0 <= i < j < queue.len() ==> #[trigger] queue[i] != #[trigger] queue[j]
    &&& queue_full(queue, remaining, marked, n, x)
}

/// The ranks after the first `p` successors of `x` were handled.
#[verifier::opaque]
spec fn relax_ranks(
    dout: Seq<Seq<usize>>,
    din: Seq<Seq<usize>>,
    x: int,
    rx: int,
    marked: Seq<bool>,
    nmarked: int,
    rank: Seq<usize>,
    p: int,
    n: int,
) -> bool {
    &&& forall|y: int, q: int|
        0 <= y < n && 0 <= q < din[y].len() && marked[#[trigger] din[y][q] as int] ==> rank[y] >= rank[din[y][q] as int]
            + 1
    &&& forall|y: int| 0 <= y < n && occ(dout[x].take(p), y as usize) > 0 ==> #[trigger] rank[y] >= rx + 1
    &&& forall|y: int|
        0 <= y < n ==> #[trigger] rank[y] == 0 || exists|q: int|
            0 <= q < din[y].len() && marked.update(x, true)[din[y][q] as int] && rank[y] == rank[din[y][q] as int]
                + 1
    &&& forall|y: int|
        0 <= y < n ==> if marked[y] {
            #[trigger] rank[y] + 1 <= nmarked
        } else {
            rank[y] <= nmarked + 1
        }
}

spec fn relax_ok(
    dout: Seq<Seq<usize>>,
    din: Seq<Seq<usize>>,
    x: int,
    rx: int,
    marked: Seq<bool>,
    nmarked: int,
    rank: Seq<usize>,
    remaining: Seq<usize>,
    queue: Seq<usize>,
    p: int,
    n: int,
) -> bool {
    &&& relax_base(dout, x, rx, marked, nmarked, rank, remaining, p, n)
    &&& relax_counts(dout, din, x, marked, remaining, p, n)
    &&& relax_queue(x, marked, remaining, queue, n)
    &&& relax_ranks(dout, din, x, rx, marked, nmarked, rank, p, n)
}

#[verifier::rlimit(100)]
#[verifier::spinoff_prover]
proof fn lemma_relax_start(
    dout: Seq<Seq<usize>>,
    din: Seq<Seq<usize>>,
    fin: Seq<int>,
    bound: int,
    n: int,
    x: int,
    marked: Seq<bool>,
    nmarked: int,
    rank: Seq<usize>,
    remaining: Seq<usize>,
    queue: Seq<usize>,
)
    requires
        dag_ok(dout, din, fin, bound, n),
        0 <= x < n,
        kahn_ok(din, rank, remaining, queue, marked, nmarked, n),
        queue_full(queue, remaining, marked, n, x),
        !marked[x],
        remaining[x] == 0,
        !queue.contains(x as usize),
        n <= usize::MAX,
    ensures
        relax_ok(dout, din, x, rank[x] as int, marked, nmarked, rank, remaining, queue, 0, n),
{
    reveal(relax_base);
    reveal(relax_counts);
    reveal(relax_queue);
    reveal(relax_ranks);
    reveal(kahn_core);
    let marked2 = marked.update(x, true);
    lemma_count_mark(marked, x, n);
    lemma_count_le(marked2, n);
    assert forall|y: int| 0 <= y < n && #[trigger] marked[y] implies occ(dout[x], y as usize) == 0 by {
        assert(forall|q: int| 0 <= q < din[y].len() ==> #[trigger] din[y][q] < n);
        lemma_unmarked_mark(din[y], marked, x as usize);
        assert(occ(dout[x], y as usize) == occ(din[y], x as usize));
    }
    assert(occ(dout[x], x as usize) == 0) by {
        lemma_occ_pos(dout[x], x as usize);
        if occ(dout[x], x as usize) > 0 {
            let p = choose|p: int| 0 <= p < dout[x].len() && dout[x][p] == x as usize;
            assert(fin[x] > fin[dout[x][p] as int]);
        }
    }
    assert(dout[x].take(0) =~= Seq::<usize>::empty());
    assert forall|i: int|
        0 <= i < queue.len() implies #[trigger] queue[i] < n && !marked[queue[i] as int] && queue[i] != x
        && remaining[queue[i] as int] == 0 by {
        if queue[i] == x as usize {
            assert(queue.contains(x as usize));
        }
    }
    assert forall|y: int|
        0 <= y < n implies #[trigger] rank[y] == 0 || exists|q: int|
        0 <= q < din[y].len() && marked2[din[y][q] as int] && rank[y] == rank[din[y][q] as int] + 1 by {
        if rank[y] != 0 {
            let q = choose|q: int|
                0 <= q < din[y].len() && marked[din[y][q] as int] && rank[y] == rank[din[y][q] as int] + 1;
            assert(din[y][q] < n);
            assert(marked2[din[y][q] as int]);
        }
    }
}

/// What the next successor `y` of `x` is: another unmarked node with a
/// predecessor left to count, and `x` among its predecessors.
proof fn lemma_relax_succ(
    dout: Seq<Seq<usize>>,
    din: Seq<Seq<usize>>,
    fin: Seq<int>,
    bound: int,
    n: int,
    x: int,
    rx: int,
    marked: Seq<bool>,
    nmarked: int,
    rank: Seq<usize>,
    remaining: Seq<usize>,
    p: int,
)
    requires
        dag_ok(dout, din, fin, bound, n),
        relax_base(dout, x, rx, marked, nmarked, rank, remaining, p, n),
        relax_counts(dout, din, x, marked, remaining, p, n),
        p < dout[x].len(),
    ensures
        ({
            let y = dout[x][p] as int;
            &&& 0 <= y < n
            &&& y != x
            &&& !marked[y]
            &&& remaining[y] >= 1
            &&& rx + 1 <= usize::MAX
            &&& exists|q: int| 0 <= q < din[y].len() && din[y][q] == x as usize
        }),
{
    reveal(relax_base);
    reveal(relax_counts);
    let succ = dout[x];
    let y = succ[p] as int;
    lemma_occ_take(succ, p, y as usize);
    lemma_occ_take_le(succ, p + 1, y as usize);
    assert(y < n);
    assert(occ(dout[x], y as usize) == occ(din[y], x as usize));
    assert(forall|q: int| 0 <= q < din[y].len() ==> #[trigger] din[y][q] < n);
    lemma_unmarked_mark(din[y], marked, x as usize);
    lemma_occ_pos(din[y], x as usize);
    lemma_occ_pos(dout[x], x as usize);
    assert(remaining[y] + occ(succ.take(p), y as usize) == unmarked(din[y], marked));
}

#[verifier::spinoff_prover]
proof fn lemma_relax_step(
    dout: Seq<Seq<usize>>,
    din: Seq<Seq<usize>>,
    fin: Seq<int>,
    bound: int,
    n: int,
    x: int,
    rx: int,
    marked: Seq<bool>,
    nmarked: int,
    rank: Seq<usize>,
    remaining: Seq<usize>,
    queue: Seq<usize>,
    p: int,
)
    requires
        dag_ok(dout, din, fin, bound, n),
        relax_ok(dout, din, x, rx, marked, nmarked, rank, remaining, queue, p, n),
        p < dout[x].len(),
    ensures
        ({
            let y = dout[x][p] as int;
            let rank2 = if rank[y] < rx + 1 {
                rank.update(y, (rx + 1) as usize)
            } else {
                rank
            };
            let remaining2 = remaining.update(y, (remaining[y] - 1) as usize);
            let queue2 = if remaining[y] - 1 == 0 {
                queue.push(y as usize)
            } else {
                queue
            };
            &&& 0 <= y < n
            &&& y != x
            &&& rank.len() == n
            &&& remaining.len() == n
            &&& remaining[y] >= 1
            &&& rx + 1 <= usize::MAX
            &&& relax_ok(dout, din, x, rx, marked, nmarked, rank2, remaining2, queue2, p + 1, n)
        }),
{
    lemma_relax_succ(dout, din, fin, bound, n, x, rx, marked, nmarked, rank, remaining, p);
    let succ = dout[x];
    let y = succ[p] as int;
    let rank2 = if rank[y] < rx + 1 {
        rank.update(y, (rx + 1) as usize)
    } else {
        rank
    };
    let remaining2 = remaining.update(y, (remaining[y] - 1) as usize);
    let queue2 = if remaining[y] - 1 == 0 {
        queue.push(y as usize)
    } else {
        queue
    };
    assert(relax_base(dout, x, rx, marked, nmarked, rank2, remaining2, p + 1, n)) by {
        reveal(relax_base);
    }
    assert(relax_counts(dout, din, x, marked, remaining2, p + 1, n)) by {
        reveal(relax_counts);
        reveal(relax_base);
        assert forall|z: int| 0 <= z < n implies #[trigger] remaining2[z] + occ(succ.take(p + 1), z as usize)
            == unmarked(din[z], marked) by {
            lemma_occ_take(succ, p, z as usize);
        }
    }
    reveal(relax_base);
    lemma_relax_step_queue(x, marked, remaining, queue, y, n);
    lemma_relax_step_ranks(dout, din, fin, bound, n, x, rx, marked, nmarked, rank, p);
}

#[verifier::spinoff_prover]
proof fn lemma_relax_step_queue(
    x: int,
    marked: Seq<bool>,
    remaining: Seq<usize>,
    queue: Seq<usize>,
    y: int,
    n: int,
)
    requires
        relax_queue(x, marked, remaining, queue, n),
        remaining.len() == n,
        marked.len() == n,
        0 <= y < n,
        y != x,
        !marked[y],
        remaining[y] >= 1,
        n <= usize::MAX,
    ensures
        ({
            let remaining2 = remaining.update(y, (remaining[y] - 1) as usize);
            let queue2 = if remaining[y] - 1 == 0 {
                queue.push(y as usize)
            } else {
                queue
            };
            relax_queue(x, marked, remaining2, queue2, n)
        }),
{
    reveal(relax_queue);
    let remaining2 = remaining.update(y, (remaining[y] - 1) as usize);
    let queue2 = if remaining[y] - 1 == 0 {
        queue.push(y as usize)
    } else {
        queue
    };
    if remaining[y] - 1 == 0 {
        assert forall|i: int| 0 <= i < queue.len() implies queue[i] != y as usize by {
            assert(remaining[queue[i] as int] == 0);
        }
    }
    assert forall|i: int|
        0 <= i < queue2.len() implies #[trigger] queue2[i] < n && !marked[queue2[i] as int] && queue2[i] != x
        && remaining2[queue2[i] as int] == 0 by {
        if i < queue.len() {
            assert(queue2[i] == queue[i]);
        }
    }
    assert forall|i: int, j: int| 0 <= i < j < queue2.len() implies #[trigger] queue2[i] != #[trigger] queue2[j] by {
        if j < queue.len() {
            assert(queue2[i] == queue[i] && queue2[j] == queue[j]);
        } else {
            assert(queue2[i] == queue[i]);
        }
    }
    assert forall|z: int| 0 <= z < n && z != x && !marked[z] && remaining2[z] == 0 implies #[trigger] queue2.contains(
        z as usize,
    ) by {
        if z != y {
            assert(queue.contains(z as usize));
            let i = choose|i: int| 0 <= i < queue.len() && queue[i] == z as usize;
            assert(queue2[i] == z as usize);
        } else {
            assert(queue2[queue2.len() - 1] == y as usize);
        }
    }
}

#[verifier::rlimit(80)]
#[verifier::spinoff_prover]
proof fn lemma_relax_step_ranks(
    dout: Seq<Seq<usize>>,
    din: Seq<Seq<usize>>,
    fin: Seq<int>,
    bound: int,
    n: int,
    x: int,
    rx: int,
    marked: Seq<bool>,
    nmarked: int,
    rank: Seq<usize>,
    p: int,
)
    requires
        din.len() == n,
        forall|z: int, q: int| 0 <= z < n && 0 <= q < din[z].len() ==> #[trigger] din[z][q] < n,
        0 <= dout[x][p] < n,
        relax_ranks(dout, din, x, rx, marked, nmarked, rank, p, n),
        rank.len() == n,
        marked.len() == n,
        0 <= x < n,
        0 <= p < dout[x].len(),
        0 <= rx <= nmarked,
        rank[x] == rx,
        n <= usize::MAX,
        ({
            let y = dout[x][p] as int;
            &&& y != x
            &&& !marked[y]
            &&& rx + 1 <= usize::MAX
            &&& exists|q: int| 0 <= q < din[y].len() && din[y][q] == x as usize
        }),
    ensures
        ({
            let y = dout[x][p] as int;
            let rank2 = if rank[y] < rx + 1 {
                rank.update(y, (rx + 1) as usize)
            } else {
                rank
            };
            relax_ranks(dout, din, x, rx, marked, nmarked, rank2, p + 1, n)
        }),
{
    reveal(relax_ranks);
    let succ = dout[x];
    let y = succ[p] as int;
    assert(0 <= y < n);
    let rank2 = if rank[y] < rx + 1 {
        rank.update(y, (rx + 1) as usize)
    } else {
        rank
    };
    let marked2 = marked.update(x, true);
    assert forall|z: int, q: int|
        0 <= z < n && 0 <= q < din[z].len() && marked[#[trigger] din[z][q] as int] implies rank2[z]
        >= rank2[din[z][q] as int] + 1 by {
        assert(rank[z] >= rank[din[z][q] as int] + 1);
        assert(din[z][q] < n);
    }
    assert forall|z: int| 0 <= z < n && occ(succ.take(p + 1), z as usize) > 0 implies #[trigger] rank2[z]
        >= rx + 1 by {
        lemma_occ_take(succ, p, z as usize);
    }
    assert forall|z: int| 0 <= z < n implies #[trigger] rank2[z] == 0 || exists|q: int|
        0 <= q < din[z].len() && marked2[din[z][q] as int] && rank2[z] == rank2[din[z][q] as int] + 1 by {
        if z == y && rank2[z] != rank[z] {
            let q = choose|q: int| 0 <= q < din[z].len() && din[z][q] == x as usize;
            assert(marked2[din[z][q] as int]);
        } else if rank[z] != 0 {
            let q = choose|q: int|
                0 <= q < din[z].len() && marked2[din[z][q] as int] && rank[z] == rank[din[z][q] as int] + 1;
            assert(din[z][q] < n);
            if din[z][q] != x as usize {
                assert(marked[din[z][q] as int]);
            }
            assert(rank2[din[z][q] as int] == rank[din[z][q] as int]);
        }
    }
    assert forall|z: int|
        0 <= z < n implies if marked[z] {
        #[trigger] rank2[z] + 1 <= nmarked
    } else {
        rank2[z] <= nmarked + 1
    } by {}
}

#[verifier::rlimit(80)]
#[verifier::spinoff_prover]
proof fn lemma_relax_finish(
    dout: Seq<Seq<usize>>,
    din: Seq<Seq<usize>>,
    fin: Seq<int>,
    bound: int,
    n: int,
    x: int,
    rx: int,
    marked: Seq<bool>,
    nmarked: int,
    rank: Seq<usize>,
    remaining: Seq<usize>,
    queue: Seq<usize>,
)
    requires
        dag_ok(dout, din, fin, bound, n),
        relax_ok(dout, din, x, rx, marked, nmarked, rank, remaining, queue, dout[x].len() as int, n),
    ensures
        kahn_ok(din, rank, remaining, queue, marked.update(x, true), nmarked + 1, n),
        queue_full(queue, remaining, marked.update(x, true), n, -1),
{
    let succ = dout[x];
    let marked2 = marked.update(x, true);
    assert(kahn_core(din, rank, remaining, marked2, nmarked + 1, n)) by {
        reveal(relax_base);
        reveal(relax_counts);
        reveal(relax_ranks);
        reveal(kahn_core);
        lemma_count_mark(marked, x, n);
        assert(succ.take(succ.len() as int) =~= succ);
        assert forall|y: int| 0 <= y < n implies #[trigger] remaining[y] == unmarked(din[y], marked2) by {
            assert(forall|q: int| 0 <= q < din[y].len() ==> #[trigger] din[y][q] < n);
            lemma_unmarked_mark(din[y], marked, x as usize);
        }
        assert forall|y: int, q: int|
            0 <= y < n && 0 <= q < din[y].len() && marked2[#[trigger] din[y][q] as int] implies rank[y]
            >= rank[din[y][q] as int] + 1 by {
            if din[y][q] == x as usize {
                lemma_occ_pos(din[y], x as usize);
                assert(occ(dout[x], y as usize) == occ(din[y], x as usize));
            } else {
                assert(din[y][q] < n);
                assert(marked[din[y][q] as int]);
            }
        }
        assert forall|y: int| 0 <= y < n && #[trigger] marked2[y] implies remaining[y] == 0 by {}
        assert forall|y: int|
            0 <= y < n implies if marked2[y] {
            #[trigger] rank[y] + 1 <= nmarked + 1
        } else {
            rank[y] <= nmarked + 1
        } by {}
    }
    assert(queue_ok(queue, remaining, marked2, n) && queue_full(queue, remaining, marked2, n, -1)) by {
        reveal(relax_base);
        reveal(relax_queue);
        assert forall|i: int|
            0 <= i < queue.len() implies #[trigger] queue[i] < n && !marked2[queue[i] as int]
            && remaining[queue[i] as int] == 0 by {}
        assert forall|y: int|
            0 <= y < n && y != -1 && !marked2[y] && remaining[y] == 0 implies #[trigger] queue.contains(
            y as usize,
        ) by {}
    }
    assert(rank.len() == n && remaining.len() == n && marked2.len() == n && 0 <= nmarked + 1 <= n) by {
        reveal(relax_base);
        lemma_count_mark(marked, x, n);
        lemma_count_le(marked2, n);
    }
}

/// A node with no predecessors has rank zero; any other node has rank one
/// more than one of its predecessors.
pub open spec fn tight(rank: Seq<usize>, preds: Seq<usize>, r: int) -> bool {
    if preds.len() == 0 {
        r == 0
    } else {
        exists|q: int| 0 <= q < preds.len() && r == rank[preds[q] as int] + 1
    }
}

/// Ranks the nodes of an acyclic graph by the longest path that reaches
/// them: nodes are taken smallest first from those whose predecessors are
/// all done, and each raises its successors to at least one more than its
/// own rank.
fn longest_paths(
    n: usize,
    dag_out: &Vec<Vec<usize>>,
    dag_in: &Vec<Vec<usize>>,
    Ghost(fin): Ghost<Seq<int>>,
    Ghost(bound): Ghost<int>,
) -> (rank: Vec<usize>)
    requires
        dag_ok(vecs_view(dag_out@), vecs_view(dag_in@), fin, bound, n as int),
    ensures
        rank@.len() == n,
        forall|y: int, q: int|
            0 <= y < n && 0 <= q < dag_in@[y]@.len() ==> rank@[y] >= rank@[#[trigger] dag_in@[y]@[q] as int] + 1,
        forall|y: int| 0 <= y < n ==> #[trigger] tight(rank@, dag_in@[y]@, rank@[y] as int),
        forall|y: int| 0 <= y < n ==> #[trigger] rank@[y] < n,
{
    let ghost dout = vecs_view(dag_out@);
    let ghost din = vecs_view(dag_in@);
    let ghost mut marked: Seq<bool> = Seq::new(n as nat, |v: int| false);
    let mut rank: Vec<usize> = Vec::new();
    let mut remaining: Vec<usize> = Vec::new();
    for i in 0..n
        invariant
            din == vecs_view(dag_in@),
            dag_ok(dout, din, fin, bound, n as int),
            marked == Seq::new(n as nat, |v: int| false),
            rank@.len() == i,
            remaining@.len() == i,
            forall|j: int| 0 <= j < i ==> #[trigger] rank@[j] == 0,
            forall|j: int| 0 <= j < i ==> #[trigger] remaining@[j] == unmarked(din[j], marked),
    {
        rank.push(0);
        let d = dag_in[i].len();
        proof {
            assert(forall|q: int| 0 <= q < din[i as int].len() ==> #[trigger] din[i as int][q] < n);
            lemma_unmarked_none(din[i as int], marked);
        }
        remaining.push(d);
    }
    let mut queue: Vec<usize> = Vec::new();
    for i in 0..n
        invariant
            remaining@.len() == n,
            forall|k: int| 0 <= k < queue@.len() ==> #[trigger] queue@[k] < i && remaining@[queue@[k] as int] == 0,
            forall|k: int, l: int| 0 <= k < l < queue@.len() ==> #[trigger] queue@[k] < #[trigger] queue@[l],
            forall|y: int| 0 <= y < i && remaining@[y] == 0 ==> #[trigger] queue@.contains(y as usize),
    {
        if remaining[i] == 0 {
            let ghost q0 = queue@;
            queue.push(i);
            assert forall|y: int| 0 <= y < i + 1 && remaining@[y] == 0 implies #[trigger] queue@.contains(y as usize) by {
                if y < i {
                    lemma_push_contains(q0, i, y as usize);
                } else {
                    assert(queue@[queue@.len() - 1] == i);
                }
            }
        }
    }
    let ghost mut nmarked: int = 0;
    assert(kahn_ok(din, rank@, remaining@, queue@, marked, nmarked, n as int)) by {
        reveal(kahn_core);
        assert forall|k: int| 0 <= k < n implies count_marked(marked, k) == 0 by {
            lemma_count_zero(marked, k);
        }
        lemma_count_zero(marked, n as int);
    }
    while queue.len() > 0
        invariant
            dag_ok(dout, din, fin, bound, n as int),
            dout == vecs_view(dag_out@),
            din == vecs_view(dag_in@),
            kahn_ok(din, rank@, remaining@, queue@, marked, nmarked, n as int),
            queue_full(queue@, remaining@, marked, n as int, -1),
        decreases n - nmarked,
    {
        let mut best: usize = 0;
        for j in 1..queue.len()
            invariant
                best < queue@.len(),
        {
            if queue[j] < queue[best] {
                best = j;
            }
        }
        let ghost q0 = queue@;
        let x = queue.remove(best);
        proof {
            lemma_queue_take(din, rank@, remaining@, q0, best as int, marked, nmarked, n as int);
            assert(queue@ == q0.remove(best as int));
            lemma_relax_start(dout, din, fin, bound, n as int, x as int, marked, nmarked, rank@, remaining@, queue@);
        }
        let ghost rx = rank@[x as int] as int;
        let succ = &dag_out[x];
        let rx_exec = rank[x];
        for p in 0..succ.len()
            invariant
                dag_ok(dout, din, fin, bound, n as int),
                succ@ == dout[x as int],
                x < n,
                rx == rx_exec,
                relax_ok(dout, din, x as int, rx, marked, nmarked, rank@, remaining@, queue@, p as int, n as int),
        {
            let y = succ[p];
            proof {
                lemma_relax_step(dout, din, fin, bound, n as int, x as int, rx, marked, nmarked, rank@, remaining@, queue@, p as int);
            }
            if rank[y] < rx_exec + 1 {
                rank.set(y, rx_exec + 1);
            }
            let r = remaining[y];
            remaining.set(y, r - 1);
            if r - 1 == 0 {
                queue.push(y);
            }
        }
        proof {
            lemma_relax_finish(dout, din, fin, bound, n as int, x as int, rx, marked, nmarked, rank@, remaining@, queue@);
            lemma_count_mark(marked, x as int, n as int);
            marked = marked.update(x as int, true);
            nmarked = nmarked + 1;
            lemma_count_le(marked, n as int);
        }
    }
    proof {
        reveal(kahn_core);
        assert forall|y: int| 0 <= y < n && !marked[y] implies unmarked(#[trigger] din[y], marked) > 0 by {
            if remaining@[y] == 0 {
                assert(queue@.contains(y as usize));
            }
        }
        lemma_unmarked_finish(din, marked, fin, bound, n as int, bound);
        assert forall|y: int| 0 <= y < n implies #[trigger] marked[y] by {
            if !marked[y] {
                assert(fin[y] < 0);
            }
        }
        lemma_count_le(marked, n as int);
    }
    assert forall|y: int| 0 <= y < n implies #[trigger] tight(rank@, dag_in@[y]@, rank@[y] as int) by {
        reveal(kahn_core);
        assert(din[y] == dag_in@[y]@);
        if rank@[y] != 0 {
            let q = choose|q: int|
                0 <= q < din[y].len() && marked[din[y][q] as int] && rank@[y] == rank@[din[y][q] as int] + 1;
            assert(rank@[y] == rank@[dag_in@[y]@[q] as int] + 1);
        } else if dag_in@[y]@.len() > 0 {
            assert(din[y][0] < n);
            assert(marked[din[y][0] as int]);
            assert(rank@[y] >= rank@[din[y][0] as int] + 1);
        }
    }
    assert forall|y: int, q: int|
        0 <= y < n && 0 <= q < dag_in@[y]@.len() implies rank@[y] >= rank@[#[trigger] dag_in@[y]@[q] as int] + 1 by {
        reveal(kahn_core);
        assert(din[y] == dag_in@[y]@);
        assert(din[y][q] < n);
        assert(marked[din[y][q] as int]);
    }
    assert forall|y: int| 0 <= y < n implies #[trigger] rank@[y] < n by {
        reveal(kahn_core);
        assert(marked[y]);
    }
    rank
}

proof fn lemma_count_zero(marked: Seq<bool>, k: int)
    requires
        k <= marked.len(),
        forall|v: int| 0 <= v < marked.len() ==> !marked[v],
    ensures
        count_marked(marked, k) == 0,
    decreases k,
{
    if k > 0 {
        lemma_count_zero(marked, k - 1);
    }
}


/// Taking one node out of the queue leaves a queue without it that still
/// holds every other ready node.
#[verifier::spinoff_prover]
proof fn lemma_queue_take(
    din: Seq<Seq<usize>>,
    rank: Seq<usize>,
    remaining: Seq<usize>,
    q0: Seq<usize>,
    best: int,
    marked: Seq<bool>,
    nmarked: int,
    n: int,
)
    requires
        kahn_ok(din, rank, remaining, q0, marked, nmarked, n),
        queue_full(q0, remaining, marked, n, -1),
        0 <= best < q0.len(),
        n <= usize::MAX,
    ensures
        ({
            let x = q0[best] as int;
            let q1 = q0.remove(best);
            &&& 0 <= x < n
            &&& !marked[x]
            &&& remaining[x] == 0
            &&& !q1.contains(x as usize)
            &&& kahn_ok(din, rank, remaining, q1, marked, nmarked, n)
            &&& queue_full(q1, remaining, marked, n, x)
        }),
{
    let x = q0[best];
    let q1 = q0.remove(best);
    assert forall|i: int| 0 <= i < q1.len() implies q1[i] != x by {
        if i < best {
            assert(q1[i] == q0[i]);
        } else {
            assert(q1[i] == q0[i + 1]);
        }
    }
    assert forall|i: int| 0 <= i < q1.len() implies #[trigger] q1[i] < n && !marked[q1[i] as int] && remaining[q1[i] as int]
        == 0 by {
        if i < best {
            assert(q1[i] == q0[i]);
        } else {
            assert(q1[i] == q0[i + 1]);
        }
    }
    assert forall|i: int, j: int| 0 <= i < j < q1.len() implies #[trigger] q1[i] != #[trigger] q1[j] by {
        let a = if i < best {
            i
        } else {
            i + 1
        };
        let b = if j < best {
            j
        } else {
            j + 1
        };
        assert(q1[i] == q0[a] && q1[j] == q0[b]);
    }
    assert forall|y: int| 0 <= y < n && y != x && !marked[y] && remaining[y] == 0 implies #[trigger] q1.contains(
        y as usize,
    ) by {
        assert(q0.contains(y as usize));
        let k = choose|k: int| 0 <= k < q0.len() && q0[k] == y as usize;
        if k < best {
            assert(q1[k] == y as usize);
        } else {
            assert(k != best);
            assert(q1[k - 1] == y as usize);
        }
    }
}


/// Where link `e` starts once `flip` has turned the flipped links around.
pub open spec fn tail(edges: Seq<(usize, usize)>, flip: Seq<bool>, e: int) -> int {
    if flip[e] {
        edges[e].1 as int
    } else {
        edges[e].0 as int
    }
}

/// Where link `e` ends once `flip` has turned the flipped links around.
pub open spec fn head(edges: Seq<(usize, usize)>, flip: Seq<bool>, e: int) -> int {
    if flip[e] {
        edges[e].0 as int
    } else {
        edges[e].1 as int
    }
}

/// Some link ends at `y`.
pub open spec fn has_in(edges: Seq<(usize, usize)>, flip: Seq<bool>, y: int) -> bool {
    exists|e: int| 0 <= e < edges.len() && is_link(edges, e) && #[trigger] head(edges, flip, e) == y
}

/// Some link starts at `x`.
pub open spec fn has_out(edges: Seq<(usize, usize)>, flip: Seq<bool>, x: int) -> bool {
    exists|e: int| 0 <= e < edges.len() && is_link(edges, e) && #[trigger] tail(edges, flip, e) == x
}


/// After the first `k` edges, each entry of `dout[x]` is the head of a
/// link that starts at `x`.
#[verifier::opaque]
spec fn out_members(edges: Seq<(usize, usize)>, flip: Seq<bool>, dout: Seq<Seq<usize>>, k: int, n: int) -> bool {
    forall|x: int, p: int|
        0 <= x < n && 0 <= p < dout[x].len() ==> #[trigger] dout[x][p] < n && exists|e: int|
            0 <= e < k && is_link(edges, e) && tail(edges, flip, e) == x && head(edges, flip, e) == dout[x][p]
}

/// After the first `k` edges, each entry of `din[y]` is the tail of a link
/// that ends at `y`.
#[verifier::opaque]
spec fn in_members(edges: Seq<(usize, usize)>, flip: Seq<bool>, din: Seq<Seq<usize>>, k: int, n: int) -> bool {
    forall|y: int, q: int|
        0 <= y < n && 0 <= q < din[y].len() ==> #[trigger] din[y][q] < n && exists|e: int|
            0 <= e < k && is_link(edges, e) && head(edges, flip, e) == y && tail(edges, flip, e) == din[y][q]
}

/// Each of the first `k` links has its head among the successors of its
/// tail.
#[verifier::opaque]
spec fn out_cover(edges: Seq<(usize, usize)>, flip: Seq<bool>, dout: Seq<Seq<usize>>, k: int) -> bool {
    forall|e: int|
        0 <= e < k && is_link(edges, e) ==> exists|p: int|
            0 <= p < dout[tail(edges, flip, e)].len() && #[trigger] dout[tail(edges, flip, e)][p] == head(
                edges,
                flip,
                e,
            )
}

/// Each of the first `k` links has its tail among the predecessors of its
/// head.
#[verifier::opaque]
spec fn in_cover(edges: Seq<(usize, usize)>, flip: Seq<bool>, din: Seq<Seq<usize>>, k: int) -> bool {
    forall|e: int|
        0 <= e < k && is_link(edges, e) ==> exists|q: int|
            0 <= q < din[head(edges, flip, e)].len() && #[trigger] din[head(edges, flip, e)][q] == tail(
                edges,
                flip,
                e,
            )
}

/// Each node occurs as often among the successors of `x` as `x` among its
/// predecessors.
#[verifier::opaque]
spec fn occ_match(dout: Seq<Seq<usize>>, din: Seq<Seq<usize>>, n: int) -> bool {
    forall|x: int, y: int|
        0 <= x < n && 0 <= y < n ==> occ(#[trigger] dout[x], y as usize) == occ(#[trigger] din[y], x as usize)
}

/// The lists built from the first `k` edges.
spec fn lists_upto(
    edges: Seq<(usize, usize)>,
    flip: Seq<bool>,
    dout: Seq<Seq<usize>>,
    din: Seq<Seq<usize>>,
    k: int,
    n: int,
) -> bool {
    &&& dout.len() == n
    &&& din.len() == n
    &&& out_members(edges, flip, dout, k, n)
    &&& in_members(edges, flip, din, k, n)
    &&& out_cover(edges, flip, dout, k)
    &&& in_cover(edges, flip, din, k)
    &&& occ_match(dout, din, n)
}

spec fn lists_match(
    edges: Seq<(usize, usize)>,
    flip: Seq<bool>,
    dout: Seq<Seq<usize>>,
    din: Seq<Seq<usize>>,
    n: int,
) -> bool {
    lists_upto(edges, flip, dout, din, edges.len() as int, n)
}

proof fn lemma_lists_step(
    edges: Seq<(usize, usize)>,
    flip: Seq<bool>,
    dout: Seq<Seq<usize>>,
    din: Seq<Seq<usize>>,
    k: int,
    n: int,
)
    requires
        lists_upto(edges, flip, dout, din, k, n),
        edges_in_range(n, edges),
        flip.len() == edges.len(),
        0 <= k < edges.len(),
        n <= usize::MAX,
    ensures
        ({
            let a = tail(edges, flip, k);
            let b = head(edges, flip, k);
            &&& 0 <= a < n
            &&& 0 <= b < n
            &&& dout.len() == n
            &&& din.len() == n
            &&& is_link(edges, k) ==> lists_upto(
                edges,
                flip,
                dout.update(a, dout[a].push(b as usize)),
                din.update(b, din[b].push(a as usize)),
                k + 1,
                n,
            )
            &&& !is_link(edges, k) ==> lists_upto(edges, flip, dout, din, k + 1, n)
        }),
{
    let a = tail(edges, flip, k);
    let b = head(edges, flip, k);
    assert(edges[k].0 < n && edges[k].1 < n);
    let o2 = if is_link(edges, k) {
        dout.update(a, dout[a].push(b as usize))
    } else {
        dout
    };
    let i2 = if is_link(edges, k) {
        din.update(b, din[b].push(a as usize))
    } else {
        din
    };
    lemma_out_members_step(edges, flip, dout, k, n);
    lemma_in_members_step(edges, flip, din, k, n);
    assert(out_cover(edges, flip, o2, k + 1)) by {
        reveal(out_cover);
        assert forall|e: int| 0 <= e < k + 1 && is_link(edges, e) implies exists|p: int|
            0 <= p < o2[tail(edges, flip, e)].len() && #[trigger] o2[tail(edges, flip, e)][p] == head(edges, flip, e) by {
            let x = tail(edges, flip, e);
            assert(0 <= x < n) by {
                assert(edges[e].0 < n && edges[e].1 < n);
            }
            if e == k {
                assert(o2[x][dout[x].len() as int] == b);
            } else {
                let p = choose|p: int| 0 <= p < dout[x].len() && #[trigger] dout[x][p] == head(edges, flip, e);
                assert(o2[x][p] == dout[x][p]);
            }
        }
    }
    assert(in_cover(edges, flip, i2, k + 1)) by {
        reveal(in_cover);
        assert forall|e: int| 0 <= e < k + 1 && is_link(edges, e) implies exists|q: int|
            0 <= q < i2[head(edges, flip, e)].len() && #[trigger] i2[head(edges, flip, e)][q] == tail(edges, flip, e) by {
            let y = head(edges, flip, e);
            assert(0 <= y < n) by {
                assert(edges[e].0 < n && edges[e].1 < n);
            }
            if e == k {
                assert(i2[y][din[y].len() as int] == a);
            } else {
                let q = choose|q: int| 0 <= q < din[y].len() && #[trigger] din[y][q] == tail(edges, flip, e);
                assert(i2[y][q] == din[y][q]);
            }
        }
    }
    assert(occ_match(o2, i2, n)) by {
        reveal(occ_match);
        assert forall|x: int, y: int| 0 <= x < n && 0 <= y < n implies occ(#[trigger] o2[x], y as usize) == occ(
            #[trigger] i2[y],
            x as usize,
        ) by {
            assert(occ(dout[x], y as usize) == occ(din[y], x as usize));
            lemma_occ_push(dout[a], b as usize, y as usize);
            lemma_occ_push(din[b], a as usize, x as usize);
        }
    }
}

#[verifier::spinoff_prover]
proof fn lemma_out_members_step(edges: Seq<(usize, usize)>, flip: Seq<bool>, dout: Seq<Seq<usize>>, k: int, n: int)
    requires
        out_members(edges, flip, dout, k, n),
        dout.len() == n,
        edges_in_range(n, edges),
        flip.len() == edges.len(),
        0 <= k < edges.len(),
        n <= usize::MAX,
    ensures
        out_members(
            edges,
            flip,
            if is_link(edges, k) {
                dout.update(tail(edges, flip, k), dout[tail(edges, flip, k)].push(head(edges, flip, k) as usize))
            } else {
                dout
            },
            k + 1,
            n,
        ),
{
    reveal(out_members);
    let a = tail(edges, flip, k);
    let b = head(edges, flip, k);
    assert(edges[k].0 < n && edges[k].1 < n);
    let o2 = if is_link(edges, k) {
        dout.update(a, dout[a].push(b as usize))
    } else {
        dout
    };
    assert forall|x: int, p: int| 0 <= x < n && 0 <= p < o2[x].len() implies #[trigger] o2[x][p] < n && exists|e: int|
        0 <= e < k + 1 && is_link(edges, e) && tail(edges, flip, e) == x && head(edges, flip, e) == o2[x][p] by {
        if is_link(edges, k) && x == a && p == dout[x].len() {
            assert(o2[x][p] == b);
            assert(0 <= k < k + 1 && is_link(edges, k) && tail(edges, flip, k) == x && head(edges, flip, k) == o2[x][p]);
        } else {
            assert(o2[x][p] == dout[x][p]);
            let e = choose|e: int|
                0 <= e < k && is_link(edges, e) && tail(edges, flip, e) == x && head(edges, flip, e) == dout[x][p];
            assert(0 <= e < k + 1 && is_link(edges, e) && tail(edges, flip, e) == x && head(edges, flip, e) == o2[x][p]);
        }
    }
}

#[verifier::spinoff_prover]
proof fn lemma_in_members_step(edges: Seq<(usize, usize)>, flip: Seq<bool>, din: Seq<Seq<usize>>, k: int, n: int)
    requires
        in_members(edges, flip, din, k, n),
        din.len() == n,
        edges_in_range(n, edges),
        flip.len() == edges.len(),
        0 <= k < edges.len(),
        n <= usize::MAX,
    ensures
        in_members(
            edges,
            flip,
            if is_link(edges, k) {
                din.update(head(edges, flip, k), din[head(edges, flip, k)].push(tail(edges, flip, k) as usize))
            } else {
                din
            },
            k + 1,
            n,
        ),
{
    reveal(in_members);
    let a = tail(edges, flip, k);
    let b = head(edges, flip, k);
    assert(edges[k].0 < n && edges[k].1 < n);
    let i2 = if is_link(edges, k) {
        din.update(b, din[b].push(a as usize))
    } else {
        din
    };
    assert forall|y: int, q: int| 0 <= y < n && 0 <= q < i2[y].len() implies #[trigger] i2[y][q] < n && exists|e: int|
        0 <= e < k + 1 && is_link(edges, e) && head(edges, flip, e) == y && tail(edges, flip, e) == i2[y][q] by {
        if is_link(edges, k) && y == b && q == din[y].len() {
            assert(i2[y][q] == a);
            assert(0 <= k < k + 1 && is_link(edges, k) && head(edges, flip, k) == y && tail(edges, flip, k) == i2[y][q]);
        } else {
            assert(i2[y][q] == din[y][q]);
            let e = choose|e: int|
                0 <= e < k && is_link(edges, e) && head(edges, flip, e) == y && tail(edges, flip, e) == din[y][q];
            assert(0 <= e < k + 1 && is_link(edges, e) && head(edges, flip, e) == y && tail(edges, flip, e) == i2[y][q]);
        }
    }
}

/// The successor and predecessor lists of the links, turned around where
/// `flip` says so.
fn orient(n: usize, edges: &[(usize, usize)], flip: &Vec<bool>) -> (r: (Vec<Vec<usize>>, Vec<Vec<usize>>))
    requires
        edges_in_range(n as int, edges@),
        flip@.len() == edges@.len(),
    ensures
        lists_match(edges@, flip@, vecs_view(r.0@), vecs_view(r.1@), n as int),
{
    let mut dag_out: Vec<Vec<usize>> = Vec::new();
    let mut dag_in: Vec<Vec<usize>> = Vec::new();
    for i in 0..n
        invariant
            dag_out@.len() == i,
            dag_in@.len() == i,
            forall|u: int| 0 <= u < i ==> (#[trigger] dag_out@[u])@.len() == 0,
            forall|u: int| 0 <= u < i ==> (#[trigger] dag_in@[u])@.len() == 0,
    {
        dag_out.push(Vec::new());
        dag_in.push(Vec::new());
    }
    assert(lists_upto(edges@, flip@, vecs_view(dag_out@), vecs_view(dag_in@), 0, n as int)) by {
        reveal(out_members);
        reveal(in_members);
        reveal(out_cover);
        reveal(in_cover);
        reveal(occ_match);
        assert forall|x: int, y: int| 0 <= x < n && 0 <= y < n implies occ(
            #[trigger] vecs_view(dag_out@)[x],
            y as usize,
        ) == occ(#[trigger] vecs_view(dag_in@)[y], x as usize) by {
            assert(vecs_view(dag_out@)[x].len() == 0);
            assert(vecs_view(dag_in@)[y].len() == 0);
        }
    }
    for k in 0..edges.len()
        invariant
            edges_in_range(n as int, edges@),
            flip@.len() == edges@.len(),
            lists_upto(edges@, flip@, vecs_view(dag_out@), vecs_view(dag_in@), k as int, n as int),
    {
        proof {
            lemma_lists_step(edges@, flip@, vecs_view(dag_out@), vecs_view(dag_in@), k as int, n as int);
        }
        let (u, v) = edges[k];
        if u != v {
            let (a, b) = if flip[k] {
                (v, u)
            } else {
                (u, v)
            };
            let ghost o0 = vecs_view(dag_out@);
            let ghost i0 = vecs_view(dag_in@);
            dag_out[a].push(b);
            dag_in[b].push(a);
            assert(vecs_view(dag_out@) =~= o0.update(a as int, o0[a as int].push(b)));
            assert(vecs_view(dag_in@) =~= i0.update(b as int, i0[b as int].push(a)));
        }
    }
    (dag_out, dag_in)
}


/// Node `v` stands in some island.
pub open spec fn in_some(islands: Seq<Seq<usize>>, v: int) -> bool {
    exists|k: int, p: int| 0 <= k < islands.len() && 0 <= p < islands[k].len() && islands[k][p] == v
}

/// Every node below `n` stands in exactly one island.
pub open spec fn covers_once(islands: Seq<Seq<usize>>, n: int) -> bool {
    &&& forall|v: int| 0 <= v < n ==> #[trigger] in_some(islands, v)
    &&& forall|k: int, l: int, p: int, q: int|
        0 <= k < islands.len() && 0 <= l < islands.len() && 0 <= p < islands[k].len() && 0 <= q < islands[l].len()
            && #[trigger] islands[k][p] == #[trigger] islands[l][q] ==> k == l
}

/// Reordered islands of a partition still partition the nodes, and each
/// member of a reordered island belongs to the island it was taken from.
proof fn lemma_reordered_partition(
    s: Seq<Seq<usize>>,
    which: Seq<usize>,
    r: Seq<Seq<usize>>,
    perm: Seq<usize>,
    n: int,
)
    requires
        islands_well_formed(s, n),
        islands_partition(s, which, n),
        reorders(r, s, perm),
        n <= usize::MAX,
    ensures
        islands_well_formed(r, n),
        covers_once(r, n),
        forall|k: int, p: int| 0 <= k < r.len() && 0 <= p < r[k].len() ==> which[#[trigger] r[k][p] as int] == perm[k],
{
    assert forall|k: int| 0 <= k < r.len() implies (#[trigger] r[k]).len() > 0 by {
        assert(r[k] == s[perm[k] as int]);
    }
    assert forall|k: int, p: int| 0 <= k < r.len() && 0 <= p < r[k].len() implies #[trigger] r[k][p] < n by {
        assert(r[k] == s[perm[k] as int]);
    }
    assert forall|k: int, p: int, q: int|
        0 <= k < r.len() && 0 <= p < q < r[k].len() implies #[trigger] r[k][p] < #[trigger] r[k][q] by {
        assert(r[k] == s[perm[k] as int]);
    }
    assert forall|k: int, p: int| 0 <= k < r.len() && 0 <= p < r[k].len() implies which[#[trigger] r[k][p] as int]
        == perm[k] by {
        assert(r[k] == s[perm[k] as int]);
        assert(s[perm[k] as int][p] == r[k][p]);
    }
    assert forall|v: int| 0 <= v < n implies #[trigger] in_some(r, v) by {
        let j = which[v] as int;
        assert(s[j].contains(v as usize));
        let p = choose|p: int| 0 <= p < s[j].len() && s[j][p] == v as usize;
        assert(picks(perm, j));
        let k = choose|k: int| 0 <= k < perm.len() && perm[k] == j;
        assert(r[k] == s[j]);
        assert(r[k][p] == v);
    }
    assert forall|k: int, l: int, p: int, q: int|
        0 <= k < r.len() && 0 <= l < r.len() && 0 <= p < r[k].len() && 0 <= q < r[l].len() && #[trigger] r[k][p]
            == #[trigger] r[l][q] implies k == l by {
        assert(which[r[k][p] as int] == perm[k]);
        assert(which[r[l][q] as int] == perm[l]);
        if k < l {
            assert(perm[k] != perm[l]);
        } else if l < k {
            assert(perm[l] != perm[k]);
        }
    }
}

/// The island of each node.
fn assign_islands(n: usize, islands: &Vec<Vec<usize>>) -> (island: Vec<usize>)
    requires
        islands_well_formed(vecs_view(islands@), n as int),
        covers_once(vecs_view(islands@), n as int),
    ensures
        islands_partition(vecs_view(islands@), island@, n as int),
{
    let ghost iv = vecs_view(islands@);
    let mut island: Vec<usize> = Vec::new();
    for i in 0..n
        invariant
            island@.len() == i,
    {
        island.push(0);
    }
    for k in 0..islands.len()
        invariant
            iv == vecs_view(islands@),
            islands_well_formed(iv, n as int),
            covers_once(iv, n as int),
            island@.len() == n,
            forall|l: int, p: int| 0 <= l < k && 0 <= p < iv[l].len() ==> island@[#[trigger] iv[l][p] as int] == l,
    {
        let ms = &islands[k];
        assert(ms@ == iv[k as int]);
        for p in 0..ms.len()
            invariant
                iv == vecs_view(islands@),
                ms@ == iv[k as int],
                k < iv.len(),
                islands_well_formed(iv, n as int),
                covers_once(iv, n as int),
                island@.len() == n,
                forall|l: int, q: int| 0 <= l < k && 0 <= q < iv[l].len() ==> island@[#[trigger] iv[l][q] as int] == l,
                forall|q: int| 0 <= q < p ==> island@[#[trigger] iv[k as int][q] as int] == k,
        {
            let v = ms[p];
            assert(v < n);
            island.set(v, k);
            assert forall|l: int, q: int| 0 <= l < k && 0 <= q < iv[l].len() implies island@[#[trigger] iv[l][q] as int]
                == l by {
                if iv[l][q] == v {
                    assert(iv[l][q] == iv[k as int][p as int]);
                }
            }
            assert forall|q: int| 0 <= q < p + 1 implies island@[#[trigger] iv[k as int][q] as int] == k by {
                if q < p {
                    assert(iv[k as int][q] != v);
                }
            }
        }
    }
    assert forall|v: int| 0 <= v < n implies #[trigger] island@[v] < iv.len() && iv[island@[v] as int].contains(v as usize) by {
        assert(in_some(iv, v));
        let (k, p) = choose|k: int, p: int| 0 <= k < iv.len() && 0 <= p < iv[k].len() && iv[k][p] == v;
        assert(island@[iv[k][p] as int] == k);
    }
    island
}


/// Some member of `ms` has rank `r`.
pub open spec fn has_rank(rank: Seq<usize>, ms: Seq<usize>, r: int) -> bool {
    exists|p: int| 0 <= p < ms.len() && rank[ms[p] as int] == r
}

/// Rank `r` of node `v` with successors `succs` and predecessors `preds`
/// under ranks `pre`: once handled (below `upto`), a node with successors but no predecessors sits one
/// below its lowest successor; any other node keeps its rank `pv`.
#[verifier::opaque]
pub open spec fn pulled_ok(
    succs: Seq<usize>,
    preds: Seq<usize>,
    pre: Seq<usize>,
    r: int,
    pv: int,
    v: int,
    upto: int,
) -> bool {
    if v < upto && preds.len() == 0 && succs.len() > 0 {
        &&& forall|p: int| 0 <= p < succs.len() ==> r + 1 <= pre[#[trigger] succs[p] as int]
        &&& exists|p: int| 0 <= p < succs.len() && r + 1 == pre[#[trigger] succs[p] as int]
    } else {
        r == pv
    }
}

/// Moves each node that has successors but no predecessors to one rank
/// below its lowest successor.
fn pull_sources(n: usize, dag_out: &Vec<Vec<usize>>, dag_in: &Vec<Vec<usize>>, rank: &mut Vec<usize>)
    requires
        old(rank)@.len() == n,
        dag_out@.len() == n,
        dag_in@.len() == n,
        forall|x: int, p: int|
            0 <= x < n && 0 <= p < dag_out@[x]@.len() ==> #[trigger] dag_out@[x]@[p] < n && dag_in@[dag_out@[x]@[p] as int]@.len()
                > 0 && old(rank)@[dag_out@[x]@[p] as int] >= 1,
        forall|v: int| 0 <= v < n ==> #[trigger] old(rank)@[v] < n,
    ensures
        final(rank)@.len() == n,
        forall|v: int|
            0 <= v < n ==> #[trigger] pulled_ok(
                dag_out@[v]@,
                dag_in@[v]@,
                old(rank)@,
                final(rank)@[v] as int,
                old(rank)@[v] as int,
                v,
                n as int,
            ),
        forall|v: int| 0 <= v < n ==> #[trigger] final(rank)@[v] < n,
{
    let ghost pre = rank@;
    proof {
        reveal(pulled_ok);
    }
    let mut node: usize = 0;
    while node < n
        invariant
            node <= n,
            pre.len() == n,
            rank@.len() == n,
            dag_out@.len() == n,
            dag_in@.len() == n,
            forall|x: int, p: int|
                0 <= x < n && 0 <= p < dag_out@[x]@.len() ==> #[trigger] dag_out@[x]@[p] < n && dag_in@[dag_out@[x]@[p] as int]@.len()
                    > 0 && pre[dag_out@[x]@[p] as int] >= 1,
            forall|v: int| 0 <= v < n ==> #[trigger] pre[v] < n,
            forall|v: int|
                0 <= v < n ==> #[trigger] pulled_ok(
                    dag_out@[v]@,
                    dag_in@[v]@,
                    pre,
                    rank@[v] as int,
                    pre[v] as int,
                    v,
                    node as int,
                ),
            forall|v: int| 0 <= v < n ==> #[trigger] rank@[v] < n,
        decreases n - node,
    {
        let ghost r0 = rank@;
        if dag_in[node].len() == 0 && dag_out[node].len() > 0 {
            let succ = &dag_out[node];
            let first = succ[0];
            assert(dag_in@[first as int]@.len() > 0);
            reveal(pulled_ok);
            assert forall|q: int| 0 <= q < succ@.len() implies #[trigger] succ@[q] < n && rank@[succ@[q] as int]
                == pre[succ@[q] as int] by {
                assert(dag_out@[node as int]@[q] < n && dag_in@[dag_out@[node as int]@[q] as int]@.len() > 0);
                assert(pulled_ok(
                    dag_out@[succ@[q] as int]@,
                    dag_in@[succ@[q] as int]@,
                    pre,
                    rank@[succ@[q] as int] as int,
                    pre[succ@[q] as int] as int,
                    succ@[q] as int,
                    node as int,
                ));
            }
            let mut m = rank[first];
            for p in 1..succ.len()
                invariant
                    node < n,
                    pre.len() == n,
                    dag_out@.len() == n,
                    succ@ == dag_out@[node as int]@,
                    succ@.len() > 0,
                    rank@.len() == n,
                    forall|q: int| 0 <= q < succ@.len() ==> #[trigger] succ@[q] < n && rank@[succ@[q] as int] == pre[succ@[q] as int],
                    forall|q: int| 0 <= q < p ==> m <= pre[#[trigger] succ@[q] as int],
                    exists|q: int| 0 <= q < p && m == pre[#[trigger] succ@[q] as int],
            {
                let s2 = succ[p];
                if rank[s2] < m {
                    m = rank[s2];
                }
            }
            assert(m >= 1) by {
                let q = choose|q: int| 0 <= q < succ@.len() && m == pre[#[trigger] succ@[q] as int];
            }
            rank.set(node, m - 1);
            assert forall|v: int| 0 <= v < n implies #[trigger] rank@[v] < n by {
                if v == node as int {
                    let q = choose|q: int| 0 <= q < succ@.len() && m == pre[#[trigger] succ@[q] as int];
                } else {
                    assert(r0[v] < n);
                }
            }
            assert forall|v: int| 0 <= v < n implies #[trigger] pulled_ok(
                dag_out@[v]@,
                dag_in@[v]@,
                pre,
                rank@[v] as int,
                pre[v] as int,
                v,
                node + 1,
            ) by {
                if v != node as int {
                    assert(pulled_ok(dag_out@[v]@, dag_in@[v]@, pre, r0[v] as int, pre[v] as int, v, node as int));
                } else {
                    let q = choose|q: int| 0 <= q < succ@.len() && m == pre[#[trigger] succ@[q] as int];
                    assert(rank@[v] + 1 == pre[dag_out@[v]@[q] as int]);
                }
            }
        } else {
            reveal(pulled_ok);
            assert forall|v: int| 0 <= v < n implies #[trigger] pulled_ok(
                dag_out@[v]@,
                dag_in@[v]@,
                pre,
                rank@[v] as int,
                pre[v] as int,
                v,
                node + 1,
            ) by {
                assert(pulled_ok(dag_out@[v]@, dag_in@[v]@, pre, r0[v] as int, pre[v] as int, v, node as int));
            }
        }
        node = node + 1;
    }
}

/// Shifts the ranks of each island down so that its lowest is zero, and
/// gives the number of ranks each island spans.
fn normalize(n: usize, islands: &Vec<Vec<usize>>, island: &Vec<usize>, rank: &mut Vec<usize>) -> (n_ranks: Vec<usize>)
    requires
        islands_well_formed(vecs_view(islands@), n as int),
        islands_partition(vecs_view(islands@), island@, n as int),
        old(rank)@.len() == n,
        forall|v: int| 0 <= v < n ==> #[trigger] old(rank)@[v] < n,
    ensures
        final(rank)@.len() == n,
        n_ranks@.len() == islands@.len(),
        forall|v: int, w: int|
            0 <= v < n && 0 <= w < n && island@[v] == island@[w] ==> old(rank)@[v] - final(rank)@[v] == old(rank)@[w]
                - final(rank)@[w],
        forall|k: int| 0 <= k < islands@.len() ==> #[trigger] has_rank(final(rank)@, islands@[k]@, 0),
        forall|k: int, p: int|
            0 <= k < islands@.len() && 0 <= p < islands@[k]@.len() ==> final(rank)@[#[trigger] islands@[k]@[p] as int]
                < n_ranks@[k],
        forall|k: int| 0 <= k < islands@.len() ==> #[trigger] has_rank(final(rank)@, islands@[k]@, n_ranks@[k] - 1),
{
    let ghost pre = rank@;
    let ghost iv = vecs_view(islands@);
    let ghost mut lo: Seq<int> = Seq::empty();
    let mut n_ranks: Vec<usize> = Vec::new();
    for k in 0..islands.len()
        invariant
            iv == vecs_view(islands@),
            islands_well_formed(iv, n as int),
            islands_partition(iv, island@, n as int),
            pre.len() == n,
            rank@.len() == n,
            forall|v: int| 0 <= v < n ==> #[trigger] pre[v] < n,
            lo.len() == k,
            n_ranks@.len() == k,
            forall|v: int|
                0 <= v < n ==> if island@[v] < k {
                    #[trigger] rank@[v] == pre[v] - lo[island@[v] as int]
                } else {
                    rank@[v] == pre[v] as int
                },
            forall|v: int| 0 <= v < n ==> #[trigger] rank@[v] < n,
            forall|l: int| 0 <= l < k ==> #[trigger] has_rank(rank@, iv[l], 0),
            forall|l: int, p: int| 0 <= l < k && 0 <= p < iv[l].len() ==> rank@[#[trigger] iv[l][p] as int] < n_ranks@[l],
            forall|l: int| 0 <= l < k ==> #[trigger] has_rank(rank@, iv[l], n_ranks@[l] - 1),
    {
        let ms = &islands[k];
        let ghost r_start = rank@;
        assert(ms@ == iv[k as int]);
        assert forall|p: int| 0 <= p < ms@.len() implies #[trigger] island@[ms@[p] as int] == k && ms@[p] < n by {
            assert(iv[k as int][p] < n);
        }
        assert forall|q: int| 0 <= q < ms@.len() implies #[trigger] ms@[q] < n && rank@[ms@[q] as int]
            == pre[ms@[q] as int] by {
            assert(island@[ms@[q] as int] == k);
        }
        let mut mn = rank[ms[0]];
        for p in 1..ms.len()
            invariant
                ms@ == iv[k as int],
                ms@.len() > 0,
                rank@.len() == n,
                forall|q: int| 0 <= q < ms@.len() ==> #[trigger] ms@[q] < n && rank@[ms@[q] as int] == pre[ms@[q] as int],
                forall|q: int| 0 <= q < p ==> mn <= pre[#[trigger] ms@[q] as int],
                exists|q: int| 0 <= q < p && mn == pre[#[trigger] ms@[q] as int],
        {
            let v = ms[p];
            if rank[v] < mn {
                mn = rank[v];
            }
        }
        let ghost r0 = rank@;
        for p in 0..ms.len()
            invariant
                ms@ == iv[k as int],
                islands_well_formed(iv, n as int),
                k < iv.len(),
                rank@.len() == n,
                forall|q: int| 0 <= q < ms@.len() ==> #[trigger] ms@[q] < n && r0[ms@[q] as int] == pre[ms@[q] as int],
                forall|q: int| 0 <= q < ms@.len() ==> mn <= pre[#[trigger] ms@[q] as int],
                forall|v: int| 0 <= v < n && !ms@.contains(v as usize) ==> #[trigger] rank@[v] == r0[v],
                forall|q: int| 0 <= q < ms@.len() ==> #[trigger] rank@[ms@[q] as int] == if q < p {
                    pre[ms@[q] as int] - mn
                } else {
                    pre[ms@[q] as int] as int
                },
        {
            let v = ms[p];
            let r = rank[v];
            rank.set(v, r - mn);
            assert forall|q: int| 0 <= q < ms@.len() && q != p implies ms@[q] != v by {
                if q < p {
                    assert(iv[k as int][q] < iv[k as int][p as int]);
                } else {
                    assert(iv[k as int][p as int] < iv[k as int][q]);
                }
            }
            assert forall|w: int| 0 <= w < n && !ms@.contains(w as usize) implies #[trigger] rank@[w] == r0[w] by {
                if w == v as int {
                    assert(ms@[p as int] == v);
                }
            }
        }
        let mut mx = rank[ms[0]];
        for p in 1..ms.len()
            invariant
                ms@.len() > 0,
                rank@.len() == n,
                forall|q: int| 0 <= q < ms@.len() ==> #[trigger] ms@[q] < n,
                forall|q: int| 0 <= q < ms@.len() ==> #[trigger] rank@[ms@[q] as int] < n,
                mx < n,
                forall|q: int| 0 <= q < p ==> rank@[#[trigger] ms@[q] as int] <= mx,
                exists|q: int| 0 <= q < p && rank@[#[trigger] ms@[q] as int] == mx,
        {
            let v = ms[p];
            if rank[v] > mx {
                mx = rank[v];
            }
        }
        let ghost nr0 = n_ranks@;
        n_ranks.push(mx + 1);
        proof {
            let q0 = choose|q: int| 0 <= q < ms@.len() && mn == pre[#[trigger] ms@[q] as int];
            let lo0 = lo;
            lo = lo.push(mn as int);
            assert(rank@[ms@[q0] as int] == 0);
            assert(has_rank(rank@, iv[k as int], 0));
            let q1 = choose|q: int| 0 <= q < ms@.len() && rank@[#[trigger] ms@[q] as int] == mx;
            assert(has_rank(rank@, iv[k as int], n_ranks@[k as int] - 1));
            assert forall|l: int, p: int| 0 <= l < k && 0 <= p < iv[l].len() implies rank@[#[trigger] iv[l][p] as int]
                == r_start[iv[l][p] as int] by {
                assert(island@[iv[l][p] as int] == l);
                if ms@.contains(iv[l][p]) {
                    let q = choose|q: int| 0 <= q < ms@.len() && ms@[q] == iv[l][p];
                    assert(island@[ms@[q] as int] == k);
                }
            }
            assert forall|l: int| 0 <= l < k + 1 implies #[trigger] has_rank(rank@, iv[l], 0) by {
                if l < k {
                    assert(has_rank(r_start, iv[l], 0));
                    let p = choose|p: int| 0 <= p < iv[l].len() && r_start[iv[l][p] as int] == 0;
                    assert(rank@[iv[l][p] as int] == r_start[iv[l][p] as int]);
                }
            }
            assert forall|l: int| 0 <= l < k + 1 implies #[trigger] has_rank(rank@, iv[l], n_ranks@[l] - 1) by {
                if l < k {
                    assert(n_ranks@[l] == nr0[l]);
                    assert(has_rank(r_start, iv[l], nr0[l] - 1));
                    let p = choose|p: int| 0 <= p < iv[l].len() && r_start[iv[l][p] as int] == nr0[l] - 1;
                    assert(rank@[iv[l][p] as int] == r_start[iv[l][p] as int]);
                }
            }
            assert forall|l: int, p: int| 0 <= l < k + 1 && 0 <= p < iv[l].len() implies rank@[#[trigger] iv[l][p] as int]
                < n_ranks@[l] by {
                if l < k {
                    assert(n_ranks@[l] == nr0[l]);
                    assert(r_start[iv[l][p] as int] < nr0[l]);
                } else {
                    assert(ms@[p] == iv[l][p]);
                }
            }
            assert forall|v: int|
                0 <= v < n implies if island@[v] < k + 1 {
                #[trigger] rank@[v] == pre[v] - lo[island@[v] as int]
            } else {
                rank@[v] == pre[v] as int
            } by {
                if island@[v] == k {
                    assert(iv[k as int].contains(v as usize));
                    let q = choose|q: int| 0 <= q < ms@.len() && ms@[q] == v as usize;
                    assert(rank@[ms@[q] as int] == pre[ms@[q] as int] - mn);
                } else {
                    if ms@.contains(v as usize) {
                        let q = choose|q: int| 0 <= q < ms@.len() && ms@[q] == v as usize;
                        assert(island@[ms@[q] as int] == k);
                    }
                    assert(rank@[v] == r_start[v]);
                    if island@[v] < k {
                        assert(lo[island@[v] as int] == lo0[island@[v] as int]);
                    }
                }
            }
        }
    }
    proof {
        assert forall|v: int, w: int|
            0 <= v < n && 0 <= w < n && island@[v] == island@[w] implies pre[v] - rank@[v] == pre[w] - rank@[w] by {
            assert(island@[v] < iv.len());
        }
        assert forall|k: int| 0 <= k < islands@.len() implies #[trigger] has_rank(rank@, islands@[k]@, 0) by {
            assert(iv[k] == islands@[k]@);
        }
        assert forall|k: int| 0 <= k < islands@.len() implies #[trigger] has_rank(rank@, islands@[k]@, n_ranks@[k] - 1) by {
            assert(iv[k] == islands@[k]@);
        }
        assert forall|k: int, p: int|
            0 <= k < islands@.len() && 0 <= p < islands@[k]@.len() implies rank@[#[trigger] islands@[k]@[p] as int]
            < n_ranks@[k] by {
            assert(iv[k] == islands@[k]@);
            assert(rank@[iv[k][p] as int] < n_ranks@[k]);
        }
    }
    n_ranks
}


/// `pre` ranks every node by the longest path of links that reaches it,
/// with the links oriented by `flip`: a link raises its head at least one
/// above its tail, a node that some link enters sits exactly one above one
/// of its predecessors, and any other node has rank zero.
pub open spec fn longest_path_ranks(edges: Seq<(usize, usize)>, flip: Seq<bool>, pre: Seq<usize>, n: int) -> bool {
    &&& pre.len() == n
    &&& forall|e: int|
        0 <= e < edges.len() && is_link(edges, e) ==> pre[#[trigger] head(edges, flip, e)] >= pre[tail(edges, flip, e)] + 1
    &&& forall|y: int|
        0 <= y < n ==> if has_in(edges, flip, y) {
            exists|e: int|
                0 <= e < edges.len() && is_link(edges, e) && head(edges, flip, e) == y && #[trigger] pre[y] == pre[tail(
                    edges,
                    flip,
                    e,
                )] + 1
        } else {
            #[trigger] pre[y] == 0
        }
}

/// `pulled` moves each node that links leave but none enter to one rank
/// below its lowest successor under `pre`, and keeps every other rank.
pub open spec fn sources_pulled(
    edges: Seq<(usize, usize)>,
    flip: Seq<bool>,
    pre: Seq<usize>,
    pulled: Seq<usize>,
    n: int,
) -> bool {
    &&& pulled.len() == n
    &&& forall|v: int|
        0 <= v < n ==> if !has_in(edges, flip, v) && has_out(edges, flip, v) {
            &&& forall|e: int|
                0 <= e < edges.len() && is_link(edges, e) && tail(edges, flip, e) == v ==> pulled[v] + 1 <= pre[#[trigger] head(
                    edges,
                    flip,
                    e,
                )]
            &&& exists|e: int|
                0 <= e < edges.len() && is_link(edges, e) && tail(edges, flip, e) == v && pulled[v] + 1 == pre[#[trigger] head(
                    edges,
                    flip,
                    e,
                )]
        } else {
            #[trigger] pulled[v] == pre[v]
        }
}

/// The ranks of each island are those of `pulled` moved down by one amount
/// per island, so that the lowest is zero; `n_ranks` counts the ranks each
/// island spans.
pub open spec fn shifted_to_zero(
    pulled: Seq<usize>,
    rank: Seq<usize>,
    islands: Seq<Seq<usize>>,
    island: Seq<usize>,
    n_ranks: Seq<usize>,
    n: int,
) -> bool {
    &&& rank.len() == n
    &&& n_ranks.len() == islands.len()
    &&& forall|v: int, w: int|
        0 <= v < n && 0 <= w < n && island[v] == island[w] ==> pulled[v] - #[trigger] rank[v] == pulled[w]
            - #[trigger] rank[w]
    &&& forall|k: int| 0 <= k < islands.len() ==> #[trigger] has_rank(rank, islands[k], 0)
    &&& forall|k: int, p: int|
        0 <= k < islands.len() && 0 <= p < islands[k].len() ==> rank[#[trigger] islands[k][p] as int] < n_ranks[k]
    &&& forall|k: int| 0 <= k < islands.len() ==> #[trigger] has_rank(rank, islands[k], n_ranks[k] - 1)
}

/// The ranks come about from links oriented by `flip` (one flag per edge):
/// longest-path ranks `pre`, sources pulled down to `pulled`, and each
/// island shifted to start at zero.
pub open spec fn ranks_explained(
    edges: Seq<(usize, usize)>,
    flip: Seq<bool>,
    pre: Seq<usize>,
    pulled: Seq<usize>,
    rank: Seq<usize>,
    islands: Seq<Seq<usize>>,
    island: Seq<usize>,
    n_ranks: Seq<usize>,
    n: int,
) -> bool {
    &&& flip.len() == edges.len()
    &&& longest_path_ranks(edges, flip, pre, n)
    &&& sources_pulled(edges, flip, pre, pulled, n)
    &&& shifted_to_zero(pulled, rank, islands, island, n_ranks, n)
}

/// The layering over the lists is the longest-path ranking over the links.
proof fn lemma_longest_over_links(
    edges: Seq<(usize, usize)>,
    flip: Seq<bool>,
    dout: Seq<Seq<usize>>,
    din: Seq<Seq<usize>>,
    pre: Seq<usize>,
    n: int,
)
    requires
        lists_match(edges, flip, dout, din, n),
        edges_in_range(n, edges),
        flip.len() == edges.len(),
        pre.len() == n,
        forall|y: int, q: int| 0 <= y < n && 0 <= q < din[y].len() ==> pre[y] >= pre[#[trigger] din[y][q] as int] + 1,
        forall|y: int| 0 <= y < n ==> #[trigger] tight(pre, din[y], pre[y] as int),
    ensures
        longest_path_ranks(edges, flip, pre, n),
        forall|y: int| 0 <= y < n ==> (din[y].len() > 0 <==> #[trigger] has_in(edges, flip, y)),
{
    reveal(in_members);
    reveal(in_cover);
    assert forall|e: int| 0 <= e < edges.len() && is_link(edges, e) implies pre[#[trigger] head(edges, flip, e)]
        >= pre[tail(edges, flip, e)] + 1 by {
        assert(edges[e].0 < n && edges[e].1 < n);
        let y = head(edges, flip, e);
        let q = choose|q: int| 0 <= q < din[y].len() && #[trigger] din[y][q] == tail(edges, flip, e);
        assert(pre[y] >= pre[din[y][q] as int] + 1);
    }
    assert forall|y: int| 0 <= y < n implies (din[y].len() > 0 <==> #[trigger] has_in(edges, flip, y)) by {
        if din[y].len() > 0 {
            assert(din[y][0] < n);
            let e = choose|e: int|
                0 <= e < edges.len() && is_link(edges, e) && head(edges, flip, e) == y && tail(edges, flip, e) == din[y][0];
        }
        if has_in(edges, flip, y) {
            let e = choose|e: int| 0 <= e < edges.len() && is_link(edges, e) && #[trigger] head(edges, flip, e) == y;
            let q = choose|q: int| 0 <= q < din[head(edges, flip, e)].len() && #[trigger] din[head(edges, flip, e)][q] == tail(
                edges,
                flip,
                e,
            );
        }
    }
    assert forall|y: int| 0 <= y < n implies if has_in(edges, flip, y) {
        exists|e: int|
            0 <= e < edges.len() && is_link(edges, e) && head(edges, flip, e) == y && #[trigger] pre[y] == pre[tail(
                edges,
                flip,
                e,
            )] + 1
    } else {
        #[trigger] pre[y] == 0
    } by {
        assert(tight(pre, din[y], pre[y] as int));
        assert(din[y].len() > 0 <==> has_in(edges, flip, y));
        if din[y].len() > 0 {
            let q = choose|q: int| 0 <= q < din[y].len() && pre[y] == pre[din[y][q] as int] + 1;
            assert(din[y][q] < n);
            let e = choose|e: int|
                0 <= e < edges.len() && is_link(edges, e) && head(edges, flip, e) == y && tail(edges, flip, e) == din[y][q];
            assert(pre[y] == pre[tail(edges, flip, e)] + 1);
        }
    }
}

/// Pulling sources down over the lists is pulling them down over the links.
proof fn lemma_pulled_over_links(
    edges: Seq<(usize, usize)>,
    flip: Seq<bool>,
    dout: Seq<Seq<usize>>,
    din: Seq<Seq<usize>>,
    pre: Seq<usize>,
    pulled: Seq<usize>,
    n: int,
)
    requires
        lists_match(edges, flip, dout, din, n),
        edges_in_range(n, edges),
        flip.len() == edges.len(),
        pre.len() == n,
        pulled.len() == n,
        forall|y: int| 0 <= y < n ==> (din[y].len() > 0 <==> #[trigger] has_in(edges, flip, y)),
        forall|v: int|
            0 <= v < n ==> #[trigger] pulled_ok(dout[v], din[v], pre, pulled[v] as int, pre[v] as int, v, n),
    ensures
        sources_pulled(edges, flip, pre, pulled, n),
{
    reveal(out_members);
    reveal(out_cover);
    reveal(pulled_ok);
    assert forall|v: int| 0 <= v < n implies (dout[v].len() > 0 <==> #[trigger] has_out(edges, flip, v)) by {
        if dout[v].len() > 0 {
            assert(dout[v][0] < n);
            let e = choose|e: int|
                0 <= e < edges.len() && is_link(edges, e) && tail(edges, flip, e) == v && head(edges, flip, e) == dout[v][0];
        }
        if has_out(edges, flip, v) {
            let e = choose|e: int| 0 <= e < edges.len() && is_link(edges, e) && #[trigger] tail(edges, flip, e) == v;
            let p = choose|p: int| 0 <= p < dout[tail(edges, flip, e)].len() && #[trigger] dout[tail(edges, flip, e)][p] == head(
                edges,
                flip,
                e,
            );
        }
    }
    assert forall|v: int| 0 <= v < n implies if !has_in(edges, flip, v) && has_out(edges, flip, v) {
        &&& forall|e: int|
            0 <= e < edges.len() && is_link(edges, e) && tail(edges, flip, e) == v ==> pulled[v] + 1 <= pre[#[trigger] head(
                edges,
                flip,
                e,
            )]
        &&& exists|e: int|
            0 <= e < edges.len() && is_link(edges, e) && tail(edges, flip, e) == v && pulled[v] + 1 == pre[#[trigger] head(
                edges,
                flip,
                e,
            )]
    } else {
        #[trigger] pulled[v] == pre[v]
    } by {
        assert(din[v].len() > 0 <==> has_in(edges, flip, v));
        assert(dout[v].len() > 0 <==> has_out(edges, flip, v));
        assert(pulled_ok(dout[v], din[v], pre, pulled[v] as int, pre[v] as int, v, n));
        if !has_in(edges, flip, v) && has_out(edges, flip, v) {
            assert forall|e: int|
                0 <= e < edges.len() && is_link(edges, e) && tail(edges, flip, e) == v implies pulled[v] + 1 <= pre[#[trigger] head(
                edges,
                flip,
                e,
            )] by {
                let p = choose|p: int| 0 <= p < dout[tail(edges, flip, e)].len() && #[trigger] dout[tail(edges, flip, e)][p]
                    == head(edges, flip, e);
                assert(pulled[v] + 1 <= pre[dout[v][p] as int]);
            }
            let p = choose|p: int| 0 <= p < dout[v].len() && pulled[v] + 1 == pre[#[trigger] dout[v][p] as int];
            assert(dout[v][p] < n);
            let e = choose|e: int|
                0 <= e < edges.len() && is_link(edges, e) && tail(edges, flip, e) == v && head(edges, flip, e) == dout[v][p];
            assert(pulled[v] + 1 == pre[head(edges, flip, e)]);
        }
    }
}


/// Ranks `n` nodes joined by `edges` (self-loops ignored). Nodes fall into
/// islands, the connected groups, ordered by their smallest key in
/// `prev_order` and then by first member; each island's ranks come from a
/// depth-first search (started from the nodes no edge enters, then from the
/// others, each ascending, following out-edges in order) that turns around
/// the edges leading back onto its stack, longest paths over the result,
/// nodes with successors but no predecessors pulled down next to their
/// successors, and a shift that makes the island's lowest rank zero.
pub fn rank(n: usize, edges: &[(usize, usize)], prev_order: &[u64]) -> (r: Ranking)
    requires
        edges_in_range(n as int, edges@),
        n <= prev_order@.len(),
    ensures
        islands_well_formed(vecs_view(r.islands@), n as int),
        islands_partition(vecs_view(r.islands@), r.island@, n as int),
        forall|k: int, l: int|
            0 <= k < l < r.islands@.len() ==> island_before(
                #[trigger] r.islands@[k]@,
                #[trigger] r.islands@[l]@,
                prev_order@,
            ),
        forall|k: int|
            0 <= k < edges@.len() ==> r.island@[(#[trigger] edges@[k]).0 as int] == r.island@[edges@[k].1 as int],
        forall|a: int, b: int|
            0 <= a < n && 0 <= b < n && #[trigger] r.island@[a] == #[trigger] r.island@[b] ==> joined(edges@, a, b),
        r.rank@.len() == n,
        r.n_ranks@.len() == r.islands@.len(),
        exists|flip: Seq<bool>, pre: Seq<usize>, pulled: Seq<usize>|
            #[trigger] ranks_explained(
                edges@,
                flip,
                pre,
                pulled,
                r.rank@,
                vecs_view(r.islands@),
                r.island@,
                r.n_ranks@,
                n as int,
            ) && flip == dfs_flips(edges@, spec_starts(edges@, n as int), n as nat),
{
    let rep = representatives(n, edges);
    let (groups, which) = group_by_representative(n, &rep);
    let ghost gv = vecs_view(groups@);
    assert forall|x: int, y: int|
        0 <= x < groups@.len() && 0 <= y < groups@.len() && x != y implies groups@[x]@[0] != groups@[y]@[0] by {
        assert(gv[x].len() > 0 && gv[y].len() > 0);
        assert(which@[gv[x][0] as int] == x);
        assert(which@[gv[y][0] as int] == y);
    }
    let islands = sort_islands(&groups, prev_order, Ghost(n as int));
    let ghost iv = vecs_view(islands@);
    let ghost perm = choose|perm: Seq<usize>| #[trigger] reorders(iv, gv, perm);
    proof {
        lemma_reordered_partition(gv, which@, iv, perm, n as int);
    }
    let island = assign_islands(n, &islands);
    proof {
        assert forall|k: int| 0 <= k < edges@.len() implies island@[(#[trigger] edges@[k]).0 as int]
            == island@[edges@[k].1 as int] by {
            let a = edges@[k].0 as int;
            let b = edges@[k].1 as int;
            assert(which@[a] == which@[b]);
            let ka = island@[a] as int;
            let kb = island@[b] as int;
            assert(iv[ka].contains(a as usize));
            assert(iv[kb].contains(b as usize));
            let pa = choose|p: int| 0 <= p < iv[ka].len() && iv[ka][p] == a as usize;
            let pb = choose|p: int| 0 <= p < iv[kb].len() && iv[kb][p] == b as usize;
            assert(which@[iv[ka][pa] as int] == perm[ka]);
            assert(which@[iv[kb][pb] as int] == perm[kb]);
            if ka < kb {
                assert(perm[ka] != perm[kb]);
            } else if kb < ka {
                assert(perm[kb] != perm[ka]);
            }
        }
    }
    proof {
        assert forall|a: int, b: int|
            0 <= a < n && 0 <= b < n && #[trigger] island@[a] == #[trigger] island@[b] implies joined(edges@, a, b) by {
            let k = island@[a] as int;
            assert(iv[k].contains(a as usize));
            assert(iv[k].contains(b as usize));
            let pa = choose|p: int| 0 <= p < iv[k].len() && iv[k][p] == a as usize;
            let pb = choose|p: int| 0 <= p < iv[k].len() && iv[k][p] == b as usize;
            assert(which@[iv[k][pa] as int] == perm[k]);
            assert(which@[iv[k][pb] as int] == perm[k]);
            assert(rep@[a] == rep@[b]);
        }
    }
    let (out, in_degree, Ghost(at)) = out_edges(n, edges);
    let starts = start_order(&in_degree, Ghost(edges@));
    let (flip, Ghost(fin), Ghost(bound)) = reversed_edges(n, edges, &out, &starts, Ghost(at));
    let (dag_out, dag_in) = orient(n, edges, &flip);
    let ghost dout = vecs_view(dag_out@);
    let ghost din = vecs_view(dag_in@);
    proof {
        reveal(out_members);
        reveal(in_members);
        reveal(occ_match);
        assert forall|x: int, p: int| 0 <= x < n && 0 <= p < dout[x].len() implies #[trigger] dout[x][p] < n
            && fin[x] > fin[dout[x][p] as int] by {
            let e = choose|e: int|
                0 <= e < edges@.len() && is_link(edges@, e) && tail(edges@, flip@, e) == x && head(edges@, flip@, e)
                    == dout[x][p];
            assert(flip@[e] || !flip@[e]);
        }
        assert forall|y: int, q: int| 0 <= y < n && 0 <= q < din[y].len() implies #[trigger] din[y][q] < n
            && fin[din[y][q] as int] > fin[y] by {
            let e = choose|e: int|
                0 <= e < edges@.len() && is_link(edges@, e) && head(edges@, flip@, e) == y && tail(edges@, flip@, e)
                    == din[y][q];
            assert(flip@[e] || !flip@[e]);
        }
        assert(dag_ok(dout, din, fin, bound, n as int));
    }
    let mut ranks = longest_paths(n, &dag_out, &dag_in, Ghost(fin), Ghost(bound));
    let ghost pre = ranks@;
    proof {
        lemma_longest_over_links(edges@, flip@, dout, din, pre, n as int);
        reveal(occ_match);
        assert forall|x: int, p: int|
            0 <= x < n && 0 <= p < dag_out@[x]@.len() implies #[trigger] dag_out@[x]@[p] < n && dag_in@[dag_out@[x]@[p] as int]@.len()
            > 0 && pre[dag_out@[x]@[p] as int] >= 1 by {
            let y = dout[x][p];
            assert(y < n);
            lemma_occ_pos(dout[x], y);
            assert(occ(dout[x], y) == occ(din[y as int], x as usize));
            lemma_occ_pos(din[y as int], x as usize);
            let q = choose|q: int| 0 <= q < din[y as int].len() && din[y as int][q] == x as usize;
            assert(pre[y as int] >= pre[din[y as int][q] as int] + 1);
        }
    }
    pull_sources(n, &dag_out, &dag_in, &mut ranks);
    let ghost pulled = ranks@;
    proof {
        lemma_pulled_over_links(edges@, flip@, dout, din, pre, pulled, n as int);
    }
    let n_ranks = normalize(n, &islands, &island, &mut ranks);
    proof {
        assert(shifted_to_zero(pulled, ranks@, iv, island@, n_ranks@, n as int));
        assert(ranks_explained(edges@, flip@, pre, pulled, ranks@, iv, island@, n_ranks@, n as int));
    }
    let r = Ranking { island, islands, n_ranks, rank: ranks };
    assert(ranks_explained(edges@, flip@, pre, pulled, r.rank@, vecs_view(r.islands@), r.island@, r.n_ranks@, n as int));
    assert(flip@ == dfs_flips(edges@, spec_starts(edges@, n as int), n as nat));
    r
}

} // verus!
