//! Walking up the copies to lay out: each copy names the copy it is laid out
//! in, and a link between copies is seen from a container through the
//! ancestors of its ends that sit directly in it.
use vstd::prelude::*;

verus! {

/// `o` as a mathematical integer.
pub open spec fn opt_int(o: Option<usize>) -> Option<int> {
    match o {
        Some(i) => Some(i as int),
        None => None,
    }
}

/// Where going up `k` times from copy `pl` leads, `par[i]` being the copy
/// that copy `i` is laid out in; none once the top is passed.
pub open spec fn up(par: Seq<Option<usize>>, pl: int, k: nat) -> Option<int>
    decreases k,
{
    if k == 0 {
        Some(pl)
    } else {
        match up(par, pl, (k - 1) as nat) {
            Some(q) => if 0 <= q < par.len() {
                opt_int(par[q])
            } else {
                None
            },
            None => None,
        }
    }
}

/// Going up from copy `pl` passes the top after finitely many steps.
pub open spec fn settles(par: Seq<Option<usize>>, pl: int) -> bool {
    exists|k: nat| #[trigger] up(par, pl, k) is None
}

/// The ancestor of copy `pl` (itself included) laid out directly in `c`,
/// looking at most `fuel` steps up.
pub open spec fn ancestor_within(par: Seq<Option<usize>>, pl: int, c: Option<int>, fuel: nat) -> Option<int>
    decreases fuel,
{
    if fuel == 0 || !(0 <= pl < par.len()) {
        None
    } else if opt_int(par[pl]) == c {
        Some(pl)
    } else {
        match par[pl] {
            Some(q) => ancestor_within(par, q as int, c, (fuel - 1) as nat),
            None => None,
        }
    }
}

/// The ancestor of copy `pl` (itself included) laid out directly in `c`: the
/// top ancestor when `c` is none, else none when the walk up never meets
/// `c`.
pub open spec fn ancestor(par: Seq<Option<usize>>, pl: int, c: Option<int>) -> Option<int> {
    ancestor_within(par, pl, c, choose|k: nat| #[trigger] up(par, pl, k) is None)
}

/// Going up `a + 1` steps is going up one step and then `a` more.
pub proof fn lemma_up_first(par: Seq<Option<usize>>, pl: int, a: nat)
    requires
        0 <= pl < par.len(),
        par[pl] is Some,
    ensures
        up(par, pl, a + 1) == up(par, par[pl]->0 as int, a),
    decreases a,
{
    if a > 0 {
        lemma_up_first(par, pl, (a - 1) as nat);
    } else {
        assert(up(par, pl, 0) == Some(pl));
    }
}

/// Looking further up than the walk goes changes nothing.
proof fn lemma_ancestor_fuel(par: Seq<Option<usize>>, pl: int, c: Option<int>, f1: nat, f2: nat)
    requires
        up(par, pl, f1) is None,
        up(par, pl, f2) is None,
    ensures
        ancestor_within(par, pl, c, f1) == ancestor_within(par, pl, c, f2),
    decreases f1 + f2,
{
    assert(up(par, pl, 0) == Some(pl));
    if f1 > 0 && f2 > 0 && 0 <= pl < par.len() && opt_int(par[pl]) != c {
        if let Some(q) = par[pl] {
            lemma_up_first(par, pl, (f1 - 1) as nat);
            lemma_up_first(par, pl, (f2 - 1) as nat);
            lemma_ancestor_fuel(par, q as int, c, (f1 - 1) as nat, (f2 - 1) as nat);
        }
    }
    if f1 == 0 || f2 == 0 {
        assert(f1 == 0 && f2 == 0);
    }
}

/// Going up `a` steps and then `t` more is going up `a + t` steps.
proof fn lemma_up_add(par: Seq<Option<usize>>, pl: int, a: nat, t: nat)
    requires
        up(par, pl, a) is Some,
    ensures
        up(par, pl, a + t) == up(par, up(par, pl, a)->0, t),
    decreases t,
{
    if t > 0 {
        lemma_up_add(par, pl, a, (t - 1) as nat);
        assert(up(par, pl, (a + t) as nat) == match up(par, pl, (a + t - 1) as nat) {
            Some(q) => if 0 <= q < par.len() {
                opt_int(par[q])
            } else {
                None
            },
            None => None,
        });
    }
}

/// A walk up that comes back to a copy it passed goes on forever.
proof fn lemma_up_repeat(par: Seq<Option<usize>>, pl: int, i: nat, j: nat, k: nat)
    requires
        i < j,
        forall|t: nat| t <= j ==> #[trigger] up(par, pl, t) is Some,
        up(par, pl, i) == up(par, pl, j),
    ensures
        up(par, pl, k) is Some,
    decreases k,
{
    if k > j {
        let back = (k - (j - i)) as nat;
        lemma_up_repeat(par, pl, i, j, back);
        lemma_up_add(par, pl, j, (k - j) as nat);
        lemma_up_add(par, pl, i, (k - j) as nat);
        assert(back == i + (k - j));
    } else {
        assert(up(par, pl, k) is Some);
    }
}

/// Whether going up from copy `pl` passes the top after finitely many
/// steps, rather than coming round forever.
pub fn settles_from(par: &[Option<usize>], pl: usize) -> (r: bool)
    ensures
        r == settles(par@, pl as int),
{
    let n = par.len();
    let mut seen: Vec<bool> = Vec::new();
    for i in 0..n
        invariant
            seen.len() == i,
            forall|j: int| 0 <= j < i ==> !seen@[j],
    {
        seen.push(false);
    }
    let mut at: usize = pl;
    let ghost mut steps: nat = 0;
    let ghost mut visited: Set<int> = Set::empty();
    assert(up(par@, pl as int, 0) == Some(pl as int));
    loop
        invariant
            n == par.len(),
            seen.len() == n,
            steps <= n,
            up(par@, pl as int, steps) == Some(at as int),
            forall|t: nat| t <= steps ==> #[trigger] up(par@, pl as int, t) is Some,
            visited.finite(),
            visited.len() == steps,
            forall|q: int| visited.contains(q) ==> 0 <= q < n,
            forall|q: int| 0 <= q < n ==> (seen@[q] <==> visited.contains(q)),
            forall|q: int|
                visited.contains(q) ==> exists|t: nat| t < steps && #[trigger] up(par@, pl as int, t) == Some(q),
        decreases n - steps,
    {
        if at >= n {
            assert(up(par@, pl as int, steps + 1) is None);
            return true;
        }
        if seen[at] {
            proof {
                assert(visited.contains(at as int));
                let t = choose|t: nat| t < steps && #[trigger] up(par@, pl as int, t) == Some(at as int);
                assert forall|k: nat| #[trigger] up(par@, pl as int, k) is Some by {
                    lemma_up_repeat(par@, pl as int, t, steps, k);
                }
            }
            return false;
        }
        match par[at] {
            None => {
                assert(up(par@, pl as int, steps + 1) is None);
                return true;
            },
            Some(q) => {
                proof {
                    assert(up(par@, pl as int, steps + 1) == Some(q as int));
                    let old_steps = steps;
                    assert forall|x: int| visited.contains(x) implies exists|t: nat|
                        t < old_steps + 1 && #[trigger] up(par@, pl as int, t) == Some(x) by {
                        let t = choose|t: nat| t < old_steps && #[trigger] up(par@, pl as int, t) == Some(x);
                        assert(t < old_steps + 1);
                    }
                    visited = visited.insert(at as int);
                    steps = steps + 1;
                    assert(up(par@, pl as int, old_steps) == Some(at as int));
                    assert forall|t: nat| t <= steps implies #[trigger] up(par@, pl as int, t) is Some by {
                        if t < steps {
                            assert(t <= old_steps);
                        }
                    }
                    vstd::set_lib::lemma_int_range(0, n as int);
                    assert(visited.subset_of(vstd::set_lib::set_int_range(0, n as int)));
                    vstd::set_lib::lemma_len_subset(visited, vstd::set_lib::set_int_range(0, n as int));
                }
                seen.set(at, true);
                at = q;
            },
        }
    }
}

/// The ancestor of copy `pl` laid out directly in container copy
/// `container` (the top level when none).
pub fn ancestor_in(par: &[Option<usize>], pl: usize, container: Option<usize>) -> (r: Option<usize>)
    requires
        pl < par.len(),
        settles(par@, pl as int),
    ensures
        opt_int(r) == ancestor(par@, pl as int, opt_int(container)),
        r matches Some(a) ==> a < par.len() && par@[a as int] == container,
{
    let ghost k0 = choose|k: nat| #[trigger] up(par@, pl as int, k) is None;
    let ghost c = opt_int(container);
    let mut at: usize = pl;
    let ghost mut steps: nat = 0;
    assert(up(par@, pl as int, 0) == Some(pl as int));
    loop
        invariant
            c == opt_int(container),
            up(par@, pl as int, k0) is None,
            up(par@, pl as int, steps) == Some(at as int),
            steps <= k0,
            ancestor(par@, pl as int, c) == ancestor_within(par@, at as int, c, (k0 - steps) as nat),
        decreases k0 - steps,
    {
        if at >= par.len() {
            assert(up(par@, pl as int, steps + 1) is None);
            assert(ancestor_within(par@, at as int, c, (k0 - steps) as nat) is None);
            return None;
        }
        assert(steps < k0);
        let ghost fuel = (k0 - steps) as nat;
        assert(fuel > 0);
        let parent = par[at];
        let same = match (parent, container) {
            (Some(x), Some(y)) => x == y,
            (None, None) => true,
            _ => false,
        };
        if same {
            assert(opt_int(par@[at as int]) == c);
            assert(ancestor_within(par@, at as int, c, fuel) == Some(at as int));
            return Some(at);
        }
        assert(opt_int(par@[at as int]) != c);
        match parent {
            None => {
                assert(ancestor_within(par@, at as int, c, fuel) is None);
                assert(ancestor(par@, pl as int, opt_int(container)) is None);
                return None;
            },
            Some(q) => {
                assert(up(par@, pl as int, steps + 1) == Some(q as int));
                at = q;
                proof {
                    steps = steps + 1;
                }
            },
        }
    }
}

/// The copies laid out directly in `c`, among the first `n`, in order.
pub open spec fn members(par: Seq<Option<usize>>, c: Option<usize>, n: nat) -> Seq<usize>
    decreases n,
{
    if n == 0 {
        seq![]
    } else if par[n - 1] == c {
        members(par, c, (n - 1) as nat).push((n - 1) as usize)
    } else {
        members(par, c, (n - 1) as nat)
    }
}

/// The copies laid out directly in container copy `container` (the top
/// level when none), in order.
pub fn members_of(par: &[Option<usize>], container: Option<usize>) -> (r: Vec<usize>)
    ensures
        r@ == members(par@, container, par@.len()),
{
    let mut out: Vec<usize> = Vec::new();
    for i in 0..par.len()
        invariant
            out@ == members(par@, container, i as nat),
    {
        let same = match (par[i], container) {
            (Some(x), Some(y)) => x == y,
            (None, None) => true,
            _ => false,
        };
        if same {
            out.push(i);
        }
    }
    out
}

/// How the copies of links among the first `n` are seen from container `c`
/// (`ends[i]` being the copies joined by link copy `i`): as joining two
/// different members (link copy, source member, dest member); as a loop on a
/// member that joins that very member to itself (link copy, member); or as
/// passing through a member that holds both ends (link copy, member).
pub open spec fn seen_from(par: Seq<Option<usize>>, ends: Seq<(usize, usize)>, c: Option<int>, n: nat) -> (
    Seq<(int, int, int)>,
    Seq<(int, int)>,
    Seq<(int, int)>,
)
    decreases n,
{
    if n == 0 {
        (seq![], seq![], seq![])
    } else {
        let prev = seen_from(par, ends, c, (n - 1) as nat);
        let i = n - 1;
        let e = ends[i];
        match (ancestor(par, e.0 as int, c), ancestor(par, e.1 as int, c)) {
            (Some(a), Some(b)) => if a != b {
                (prev.0.push((i, a, b)), prev.1, prev.2)
            } else if e.0 == a && e.1 == b {
                (prev.0, prev.1.push((i, a)), prev.2)
            } else {
                (prev.0, prev.1, prev.2.push((i, a)))
            },
            _ => prev,
        }
    }
}

pub open spec fn triples_view(v: Seq<(usize, usize, usize)>) -> Seq<(int, int, int)> {
    v.map_values(|t: (usize, usize, usize)| (t.0 as int, t.1 as int, t.2 as int))
}

pub open spec fn pairs_view(v: Seq<(usize, usize)>) -> Seq<(int, int)> {
    v.map_values(|t: (usize, usize)| (t.0 as int, t.1 as int))
}

/// The link copies as seen from container copy `container`: those joining
/// two of its members, the loops on a member, and those passing through a
/// member.
pub fn links_within(par: &[Option<usize>], ends: &[(usize, usize)], container: Option<usize>) -> (r: (
    Vec<(usize, usize, usize)>,
    Vec<(usize, usize)>,
    Vec<(usize, usize)>,
))
    requires
        forall|i: int|
            0 <= i < ends.len() ==> #[trigger] ends@[i].0 < par.len() && ends@[i].1 < par.len() && settles(
                par@,
                ends@[i].0 as int,
            ) && settles(par@, ends@[i].1 as int),
    ensures
        (triples_view(r.0@), pairs_view(r.1@), pairs_view(r.2@)) == seen_from(
            par@,
            ends@,
            opt_int(container),
            ends@.len(),
        ),
{
    let mut internal: Vec<(usize, usize, usize)> = Vec::new();
    let mut loops: Vec<(usize, usize)> = Vec::new();
    let mut through: Vec<(usize, usize)> = Vec::new();
    for i in 0..ends.len()
        invariant
            forall|j: int|
                0 <= j < ends.len() ==> #[trigger] ends@[j].0 < par.len() && ends@[j].1 < par.len() && settles(
                    par@,
                    ends@[j].0 as int,
                ) && settles(par@, ends@[j].1 as int),
            (triples_view(internal@), pairs_view(loops@), pairs_view(through@)) == seen_from(
                par@,
                ends@,
                opt_int(container),
                i as nat,
            ),
    {
        let (es, ed) = ends[i];
        assert(ends@[i as int].0 < par.len());
        let a = ancestor_in(par, es, container);
        let b = ancestor_in(par, ed, container);
        let ghost t0 = triples_view(internal@);
        let ghost l0 = pairs_view(loops@);
        let ghost p0 = pairs_view(through@);
        match (a, b) {
            (Some(a), Some(b)) => {
                if a != b {
                    internal.push((i, a, b));
                    assert(triples_view(internal@) =~= t0.push((i as int, a as int, b as int)));
                } else if es == a && ed == b {
                    loops.push((i, a));
                    assert(pairs_view(loops@) =~= l0.push((i as int, a as int)));
                } else {
                    through.push((i, a));
                    assert(pairs_view(through@) =~= p0.push((i as int, a as int)));
                }
            },
            _ => {},
        }
    }
    (internal, loops, through)
}

} // verus!
