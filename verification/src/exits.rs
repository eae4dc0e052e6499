//! Where links leave the members of a container: the exits handed down to
//! the copies inside a member container, and how many ports each member
//! needs on each side.
use crate::ancestry::{ancestor, ancestor_in, opt_int, settles};
use crate::layout::Side;
use vstd::prelude::*;

verus! {

/// A link copy leaving the container it is handed to: the link copy, the
/// member of that container it leaves from, the side it leaves on, whether
/// it goes out (from its source) or comes in, and whether it loops back to
/// the container itself.
#[derive(Clone, Copy, Debug, PartialEq, Eq, Structural)]
pub struct Exit {
    pub inst: usize,
    pub member: usize,
    pub side: Side,
    pub outgoing: bool,
    pub to_self: bool,
}

/// Some copy is laid out in copy `pl`.
pub open spec fn is_container(par: Seq<Option<usize>>, pl: int) -> bool {
    exists|j: int| 0 <= j < par.len() && #[trigger] opt_int(par[j]) == Some(pl)
}

/// The sides a link leaves its source and enters its dest on: after and
/// before when the source ranks first, else before and after.
pub open spec fn link_sides(source_first: bool) -> (Side, Side) {
    if source_first {
        (Side::After, Side::Before)
    } else {
        (Side::Before, Side::After)
    }
}

/// The exit of link copy `inst` from member container `m`, towards copy
/// `endpoint` inside it, if `m` is a container and holds `endpoint`.
pub open spec fn exit_into(
    par: Seq<Option<usize>>,
    m: int,
    endpoint: int,
    inst: usize,
    side: Side,
    outgoing: bool,
    to_self: bool,
) -> Option<(usize, Exit)> {
    if !is_container(par, m) {
        None
    } else {
        match ancestor(par, endpoint, Some(m)) {
            Some(a) => Some(
                (m as usize, Exit { inst, member: a as usize, side, outgoing, to_self: to_self }),
            ),
            None => None,
        }
    }
}

pub open spec fn push_some(s: Seq<(usize, Exit)>, o: Option<(usize, Exit)>) -> Seq<(usize, Exit)> {
    match o {
        Some(x) => s.push(x),
        None => s,
    }
}

/// The exits that the first `n` links between members hand down to their
/// ends' member containers: the source's first, then the dest's.
pub open spec fn internal_exits(
    par: Seq<Option<usize>>,
    ends: Seq<(usize, usize)>,
    internal: Seq<(usize, usize, usize)>,
    source_first: Seq<bool>,
    n: nat,
) -> Seq<(usize, Exit)>
    decreases n,
{
    if n == 0 {
        seq![]
    } else {
        let prev = internal_exits(par, ends, internal, source_first, (n - 1) as nat);
        let (inst, s, d) = internal[n - 1];
        let (ss, ds) = link_sides(source_first[n - 1]);
        let a = push_some(prev, exit_into(par, s as int, ends[inst as int].0 as int, inst, ss, true, false));
        push_some(a, exit_into(par, d as int, ends[inst as int].1 as int, inst, ds, false, false))
    }
}

/// The exits that the first `n` exits of the container hand down to their
/// member when it is a container.
pub open spec fn passed_exits(par: Seq<Option<usize>>, ends: Seq<(usize, usize)>, exits: Seq<Exit>, n: nat) -> Seq<
    (usize, Exit),
>
    decreases n,
{
    if n == 0 {
        seq![]
    } else {
        let prev = passed_exits(par, ends, exits, (n - 1) as nat);
        let x = exits[n - 1];
        let e = ends[x.inst as int];
        let endpoint = if x.outgoing {
            e.0
        } else {
            e.1
        };
        push_some(prev, exit_into(par, x.member as int, endpoint as int, x.inst, x.side, x.outgoing, false))
    }
}

/// The exits that the first `n` link copies passing through a member hand
/// down to it when the link leaves or enters the member itself: towards its
/// other end inside, on side `self_side`.
pub open spec fn self_exits(
    par: Seq<Option<usize>>,
    ends: Seq<(usize, usize)>,
    through: Seq<(usize, usize)>,
    self_side: Side,
    n: nat,
) -> Seq<(usize, Exit)>
    decreases n,
{
    if n == 0 {
        seq![]
    } else {
        let prev = self_exits(par, ends, through, self_side, (n - 1) as nat);
        let (i, m) = through[n - 1];
        let e = ends[i as int];
        if e.0 == m {
            push_some(prev, exit_into(par, m as int, e.1 as int, i, self_side, false, true))
        } else if e.1 == m {
            push_some(prev, exit_into(par, m as int, e.0 as int, i, self_side, true, true))
        } else {
            prev
        }
    }
}

/// Whether some copy is laid out in copy `pl`.
fn holds_copies(par: &[Option<usize>], pl: usize) -> (r: bool)
    ensures
        r == is_container(par@, pl as int),
{
    for j in 0..par.len()
        invariant
            forall|k: int| 0 <= k < j ==> #[trigger] opt_int(par@[k]) != Some(pl as int),
    {
        if let Some(q) = par[j] {
            if q == pl {
                assert(opt_int(par@[j as int]) == Some(pl as int));
                return true;
            }
        }
    }
    false
}

fn exit_towards(
    par: &[Option<usize>],
    m: usize,
    endpoint: usize,
    inst: usize,
    side: Side,
    outgoing: bool,
    to_self: bool,
    out: &mut Vec<(usize, Exit)>,
)
    requires
        endpoint < par.len(),
        settles(par@, endpoint as int),
    ensures
        final(out)@ == push_some(old(out)@, exit_into(par@, m as int, endpoint as int, inst, side, outgoing, to_self)),
        placed_in(par@, old(out)@) ==> placed_in(par@, final(out)@),
{
    if holds_copies(par, m) {
        if let Some(a) = ancestor_in(par, endpoint, Some(m)) {
            out.push((m, Exit { inst, member: a, side, outgoing, to_self }));
        }
    }
}

/// Each exit's member is laid out directly in the member container it goes
/// to.
pub open spec fn placed_in(par: Seq<Option<usize>>, xs: Seq<(usize, Exit)>) -> bool {
    forall|k: int|
        0 <= k < xs.len() ==> (#[trigger] xs[k]).1.member < par.len() && par[xs[k].1.member as int] == Some(
            xs[k].0,
        )
}

/// Every link copy's ends are copies whose walk up reaches the top.
pub open spec fn ends_settle(par: Seq<Option<usize>>, ends: Seq<(usize, usize)>) -> bool {
    forall|i: int|
        0 <= i < ends.len() ==> #[trigger] ends[i].0 < par.len() && ends[i].1 < par.len() && settles(
            par,
            ends[i].0 as int,
        ) && settles(par, ends[i].1 as int)
}

/// The exits handed down to the member containers of a container, each
/// with the member it goes to, in the order: those of the links between
/// members (`source_first` telling, for each, whether its source ranks
/// before its dest), those of the container's own `exits`, and those of
/// the links passing through a member.
pub fn child_exits(
    par: &[Option<usize>],
    ends: &[(usize, usize)],
    internal: &[(usize, usize, usize)],
    source_first: &[bool],
    exits: &[Exit],
    through: &[(usize, usize)],
    self_side: Side,
) -> (r: Vec<(usize, Exit)>)
    requires
        ends_settle(par@, ends@),
        source_first.len() == internal.len(),
        forall|i: int| 0 <= i < internal.len() ==> (#[trigger] internal@[i]).0 < ends.len(),
        forall|i: int| 0 <= i < exits.len() ==> (#[trigger] exits@[i]).inst < ends.len(),
        forall|i: int| 0 <= i < through.len() ==> (#[trigger] through@[i]).0 < ends.len(),
    ensures
        r@ == internal_exits(par@, ends@, internal@, source_first@, internal@.len()) + passed_exits(
            par@,
            ends@,
            exits@,
            exits@.len(),
        ) + self_exits(par@, ends@, through@, self_side, through@.len()),
        placed_in(par@, r@),
{
    let mut out: Vec<(usize, Exit)> = Vec::new();
    for k in 0..internal.len()
        invariant
            ends_settle(par@, ends@),
            source_first.len() == internal.len(),
            forall|i: int| 0 <= i < internal.len() ==> (#[trigger] internal@[i]).0 < ends.len(),
            out@ == internal_exits(par@, ends@, internal@, source_first@, k as nat),
            placed_in(par@, out@),
    {
        let (inst, s, d) = internal[k];
        assert(internal@[k as int].0 < ends.len());
        let (ss, ds) = if source_first[k] {
            (Side::After, Side::Before)
        } else {
            (Side::Before, Side::After)
        };
        let (es, ed) = ends[inst];
        exit_towards(par, s, es, inst, ss, true, false, &mut out);
        exit_towards(par, d, ed, inst, ds, false, false, &mut out);
    }
    let ghost a = out@;
    assert(out@ == a + passed_exits(par@, ends@, exits@, 0));
    for k in 0..exits.len()
        invariant
            ends_settle(par@, ends@),
            forall|i: int| 0 <= i < exits.len() ==> (#[trigger] exits@[i]).inst < ends.len(),
            out@ == a + passed_exits(par@, ends@, exits@, k as nat),
            placed_in(par@, out@),
    {
        let x = exits[k];
        assert(exits@[k as int].inst < ends.len());
        let (es, ed) = ends[x.inst];
        let endpoint = if x.outgoing {
            es
        } else {
            ed
        };
        let ghost before = out@;
        exit_towards(par, x.member, endpoint, x.inst, x.side, x.outgoing, false, &mut out);
        proof {
            let o = exit_into(par@, x.member as int, endpoint as int, x.inst, x.side, x.outgoing, false);
            let p = passed_exits(par@, ends@, exits@, k as nat);
            assert(a + push_some(p, o) =~= push_some(a + p, o));
        }
    }
    let ghost b = out@;
    assert(out@ == b + self_exits(par@, ends@, through@, self_side, 0));
    for k in 0..through.len()
        invariant
            ends_settle(par@, ends@),
            forall|i: int| 0 <= i < through.len() ==> (#[trigger] through@[i]).0 < ends.len(),
            out@ == b + self_exits(par@, ends@, through@, self_side, k as nat),
            placed_in(par@, out@),
    {
        let (i, m) = through[k];
        assert(through@[k as int].0 < ends.len());
        let (es, ed) = ends[i];
        let ghost p = self_exits(par@, ends@, through@, self_side, k as nat);
        if es == m {
            exit_towards(par, m, ed, i, self_side, false, true, &mut out);
            proof {
                let o = exit_into(par@, m as int, ed as int, i, self_side, false, true);
                assert(b + push_some(p, o) =~= push_some(b + p, o));
            }
        } else if ed == m {
            exit_towards(par, m, es, i, self_side, true, true, &mut out);
            proof {
                let o = exit_into(par@, m as int, es as int, i, self_side, true, true);
                assert(b + push_some(p, o) =~= push_some(b + p, o));
            }
        }
    }
    out
}

/// How many ends of the first `n` links between members sit on side `side`
/// of member `m`.
pub open spec fn internal_ports(
    internal: Seq<(usize, usize, usize)>,
    source_first: Seq<bool>,
    m: usize,
    side: Side,
    n: nat,
) -> nat
    decreases n,
{
    if n == 0 {
        0
    } else {
        let (_, s, d) = internal[n - 1];
        let (ss, ds) = link_sides(source_first[n - 1]);
        internal_ports(internal, source_first, m, side, (n - 1) as nat) + (if s == m && ss == side {
            1nat
        } else {
            0nat
        }) + (if d == m && ds == side {
            1nat
        } else {
            0nat
        })
    }
}

/// How many of the first `n` exits leave member `m` on side `side`.
pub open spec fn exit_ports(exits: Seq<Exit>, m: usize, side: Side, n: nat) -> nat
    decreases n,
{
    if n == 0 {
        0
    } else {
        exit_ports(exits, m, side, (n - 1) as nat) + if exits[n - 1].member == m && exits[n - 1].side == side {
            1nat
        } else {
            0nat
        }
    }
}

/// How many of the first `n` loops are on member `m`: each needs a port on
/// either side.
pub open spec fn loop_ports(loops: Seq<(usize, usize)>, m: usize, n: nat) -> nat
    decreases n,
{
    if n == 0 {
        0
    } else {
        loop_ports(loops, m, (n - 1) as nat) + if loops[n - 1].1 == m {
            1nat
        } else {
            0nat
        }
    }
}

/// How many ports member `m` needs on side `side`.
pub open spec fn ports_on(
    internal: Seq<(usize, usize, usize)>,
    source_first: Seq<bool>,
    exits: Seq<Exit>,
    loops: Seq<(usize, usize)>,
    m: usize,
    side: Side,
) -> nat {
    internal_ports(internal, source_first, m, side, internal.len()) + exit_ports(exits, m, side, exits.len())
        + loop_ports(loops, m, loops.len())
}

/// How many ports member `m` needs on its busier side.
pub open spec fn port_demand(
    internal: Seq<(usize, usize, usize)>,
    source_first: Seq<bool>,
    exits: Seq<Exit>,
    loops: Seq<(usize, usize)>,
    m: usize,
) -> nat {
    let b = ports_on(internal, source_first, exits, loops, m, Side::Before);
    let a = ports_on(internal, source_first, exits, loops, m, Side::After);
    if b >= a {
        b
    } else {
        a
    }
}

proof fn lemma_internal_ports_bound(
    internal: Seq<(usize, usize, usize)>,
    source_first: Seq<bool>,
    m: usize,
    side: Side,
    n: nat,
)
    ensures
        internal_ports(internal, source_first, m, side, n) <= 2 * n,
    decreases n,
{
    if n > 0 {
        lemma_internal_ports_bound(internal, source_first, m, side, (n - 1) as nat);
    }
}

proof fn lemma_exit_ports_bound(exits: Seq<Exit>, m: usize, side: Side, n: nat)
    ensures
        exit_ports(exits, m, side, n) <= n,
    decreases n,
{
    if n > 0 {
        lemma_exit_ports_bound(exits, m, side, (n - 1) as nat);
    }
}

proof fn lemma_loop_ports_bound(loops: Seq<(usize, usize)>, m: usize, n: nat)
    ensures
        loop_ports(loops, m, n) <= n,
    decreases n,
{
    if n > 0 {
        lemma_loop_ports_bound(loops, m, (n - 1) as nat);
    }
}

/// How many ports each of `members` needs on its busier side, counting the
/// ends of the links between members, the container's exits, and two for
/// each loop.
pub fn port_demands(
    members: &[usize],
    internal: &[(usize, usize, usize)],
    source_first: &[bool],
    exits: &[Exit],
    loops: &[(usize, usize)],
) -> (r: Vec<usize>)
    requires
        source_first.len() == internal.len(),
        2 * internal.len() + exits.len() + loops.len() <= usize::MAX,
    ensures
        r.len() == members.len(),
        forall|i: int|
            0 <= i < members.len() ==> #[trigger] r@[i] as nat == port_demand(
                internal@,
                source_first@,
                exits@,
                loops@,
                members@[i],
            ),
{
    let mut out: Vec<usize> = Vec::new();
    for k in 0..members.len()
        invariant
            source_first.len() == internal.len(),
            2 * internal.len() + exits.len() + loops.len() <= usize::MAX,
            out.len() == k,
            forall|i: int|
                0 <= i < k ==> #[trigger] out@[i] as nat == port_demand(
                    internal@,
                    source_first@,
                    exits@,
                    loops@,
                    members@[i],
                ),
    {
        let m = members[k];
        let mut before: usize = 0;
        let mut after: usize = 0;
        for j in 0..internal.len()
            invariant
                source_first.len() == internal.len(),
                2 * internal.len() + exits.len() + loops.len() <= usize::MAX,
                before as nat == internal_ports(internal@, source_first@, m, Side::Before, j as nat),
                after as nat == internal_ports(internal@, source_first@, m, Side::After, j as nat),
        {
            proof {
                lemma_internal_ports_bound(internal@, source_first@, m, Side::Before, (j + 1) as nat);
                lemma_internal_ports_bound(internal@, source_first@, m, Side::After, (j + 1) as nat);
            }
            let (_, s, d) = internal[j];
            if source_first[j] {
                if s == m {
                    after = after + 1;
                }
                if d == m {
                    before = before + 1;
                }
            } else {
                if s == m {
                    before = before + 1;
                }
                if d == m {
                    after = after + 1;
                }
            }
        }
        proof {
            lemma_internal_ports_bound(internal@, source_first@, m, Side::Before, internal@.len());
            lemma_internal_ports_bound(internal@, source_first@, m, Side::After, internal@.len());
        }
        let ghost bi = before as nat;
        let ghost ai = after as nat;
        for j in 0..exits.len()
            invariant
                2 * internal.len() + exits.len() + loops.len() <= usize::MAX,
                bi <= 2 * internal.len(),
                ai <= 2 * internal.len(),
                before as nat == bi + exit_ports(exits@, m, Side::Before, j as nat),
                after as nat == ai + exit_ports(exits@, m, Side::After, j as nat),
        {
            proof {
                lemma_exit_ports_bound(exits@, m, Side::Before, (j + 1) as nat);
                lemma_exit_ports_bound(exits@, m, Side::After, (j + 1) as nat);
            }
            let x = exits[j];
            if x.member == m {
                match x.side {
                    Side::Before => {
                        before = before + 1;
                    },
                    Side::After => {
                        after = after + 1;
                    },
                }
            }
        }
        proof {
            lemma_exit_ports_bound(exits@, m, Side::Before, exits@.len());
            lemma_exit_ports_bound(exits@, m, Side::After, exits@.len());
        }
        let ghost be = before as nat;
        let ghost ae = after as nat;
        for j in 0..loops.len()
            invariant
                2 * internal.len() + exits.len() + loops.len() <= usize::MAX,
                be <= 2 * internal.len() + exits.len(),
                ae <= 2 * internal.len() + exits.len(),
                before as nat == be + loop_ports(loops@, m, j as nat),
                after as nat == ae + loop_ports(loops@, m, j as nat),
        {
            proof {
                lemma_loop_ports_bound(loops@, m, (j + 1) as nat);
            }
            if loops[j].1 == m {
                before = before + 1;
                after = after + 1;
            }
        }
        out.push(if before >= after {
            before
        } else {
            after
        });
    }
    out
}

} // verus!
