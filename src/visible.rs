//! Visibility: which elements carry a surviving value, and the successor
//! relation from each valued element to the next valued one, skipping runs of
//! blank elements.
use vstd::prelude::*;
use crate::bag::{distinct_views, insert_unique, view_set, Fact};
use crate::chain::{collapse, functional, horizon, links_of, settled, walk};
use crate::node::{AssignOp, InsertEdge, Link, NodeId};
use crate::tree::{find_link, next_elem, next_links};

verus! {

/// What an assignment holds: operation, element, value.
pub type AssignView = (NodeId, NodeId, Seq<char>);

/// `v` is a value of `e` whose assignment has not been removed.
pub open spec fn current_value(rem: Set<NodeId>, asg: Set<AssignView>, e: NodeId, v: Seq<char>) -> bool {
    exists|op: NodeId| #[trigger] asg.contains((op, e, v)) && !rem.contains(op)
}

pub open spec fn has_value(rem: Set<NodeId>, asg: Set<AssignView>, e: NodeId) -> bool {
    exists|v: Seq<char>| current_value(rem, asg, e, v)
}

/// Successor pointers that leave a blank element.
pub open spec fn blank_links(
    ins: Set<InsertEdge>,
    bound: nat,
    rem: Set<NodeId>,
    asg: Set<AssignView>,
) -> Set<Link> {
    Set::new(|l: Link| next_links(ins, bound).contains(l) && !has_value(rem, asg, l.from))
}

/// The first element at or after `x` that is not a blank element with a successor.
pub open spec fn run_end(
    ins: Set<InsertEdge>,
    bound: nat,
    rem: Set<NodeId>,
    asg: Set<AssignView>,
    x: NodeId,
) -> NodeId {
    walk(blank_links(ins, bound, rem, asg), x, horizon(bound))
}

/// `b` is the next valued element after the valued element `a`: the pattern
/// value (blank)* value.
pub open spec fn next_visible(
    ins: Set<InsertEdge>,
    bound: nat,
    rem: Set<NodeId>,
    asg: Set<AssignView>,
    a: NodeId,
    b: NodeId,
) -> bool {
    &&& has_value(rem, asg, a)
    &&& has_value(rem, asg, b)
    &&& exists|x: NodeId| #[trigger] next_elem(ins, bound, a, x) && run_end(ins, bound, rem, asg, x) == b
}

/// One observed step of the visible sequence: `prev` is followed by `next`,
/// whose content is `value`.
#[derive(Clone, Debug)]
pub struct Emitted {
    pub prev: NodeId,
    pub next: NodeId,
    pub value: String,
}

impl View for Emitted {
    type V = (NodeId, NodeId, Seq<char>);

    open spec fn view(&self) -> (NodeId, NodeId, Seq<char>) {
        (self.prev, self.next, self.value@)
    }
}

impl Fact for Emitted {
    fn same(&self, other: &Self) -> (r: bool) {
        self.prev == other.prev && self.next == other.next && self.value == other.value
    }

    fn duplicate(&self) -> (r: Self) {
        Emitted { prev: self.prev, next: self.next, value: self.value.clone() }
    }
}

/// The emitted steps: each visible successor with each of its current values.
pub open spec fn emitted(
    ins: Set<InsertEdge>,
    bound: nat,
    rem: Set<NodeId>,
    asg: Set<AssignView>,
) -> Set<(NodeId, NodeId, Seq<char>)> {
    Set::new(|t: (NodeId, NodeId, Seq<char>)|
        next_visible(ins, bound, rem, asg, t.0, t.1) && current_value(rem, asg, t.1, t.2))
}

/// Whether `x` is among `s`.
fn contains_id(s: &Vec<NodeId>, x: NodeId) -> (r: bool)
    ensures
        r == view_set(s@).contains(x),
{
    let mut i: usize = 0;
    while i < s.len()
        invariant
            i <= s@.len(),
            forall|k: int| 0 <= k < i ==> s@[k] != x,
        decreases s@.len() - i,
    {
        if s[i] == x {
            proof {
                assert(s@[i as int]@ == x);
            }
            return true;
        }
        i = i + 1;
    }
    proof {
        assert forall|k: int| 0 <= k < s@.len() implies s@[k]@ != x by {
            assert(s@[k] != x);
        }
    }
    false
}

/// The assignments whose operation has not been removed.
pub fn surviving(asg: &Vec<AssignOp>, rem: &Vec<NodeId>) -> (r: Vec<AssignOp>)
    ensures
        forall|e: NodeId, v: Seq<char>|
            #![trigger current_value(view_set(rem@), view_set(asg@), e, v)]
            current_value(view_set(rem@), view_set(asg@), e, v) <==> exists|k: int|
                0 <= k < r@.len() && r@[k].elem == e && r@[k].value@ == v,
{
    let ghost rs = view_set(rem@);
    let ghost asgs = view_set(asg@);
    let mut r: Vec<AssignOp> = Vec::new();
    let mut i: usize = 0;
    while i < asg.len()
        invariant
            i <= asg@.len(),
            rs == view_set(rem@),
            asgs == view_set(asg@),
            forall|k: int| 0 <= k < r@.len() ==> current_value(rs, asgs, #[trigger] r@[k].elem, r@[k].value@),
            forall|k: int| 0 <= k < i && !rs.contains(#[trigger] asg@[k].op) ==> exists|m: int|
                0 <= m < r@.len() && r@[m]@ == asg@[k]@,
        decreases asg@.len() - i,
    {
        let a = &asg[i];
        proof {
            assert(asgs.contains(asg@[i as int]@));
        }
        if !contains_id(rem, a.op) {
            let ghost old_r = r@;
            r.push(a.duplicate());
            proof {
                assert(r@[old_r.len() as int]@ == asg@[i as int]@);
                assert forall|k: int| 0 <= k < i + 1 && !rs.contains(#[trigger] asg@[k].op) implies exists|m: int|
                    0 <= m < r@.len() && r@[m]@ == asg@[k]@ by {
                    if k < i {
                        let m = choose|m: int| 0 <= m < old_r.len() && old_r[m]@ == asg@[k]@;
                        assert(r@[m] == old_r[m]);
                    } else {
                        assert(r@[old_r.len() as int]@ == asg@[k]@);
                    }
                }
                assert forall|k: int| 0 <= k < r@.len() implies current_value(rs, asgs, #[trigger] r@[k].elem, r@[k].value@) by {
                    if k < old_r.len() {
                        assert(r@[k] == old_r[k]);
                    } else {
                        assert(asgs.contains((asg@[i as int].op, r@[k].elem, r@[k].value@)));
                    }
                }
            }
        }
        i = i + 1;
    }
    proof {
        assert forall|e: NodeId, v: Seq<char>|
            current_value(rs, asgs, e, v) implies exists|k: int| 0 <= k < r@.len() && r@[k].elem == e && r@[k].value@ == v by {
            let op = choose|op: NodeId| #[trigger] asgs.contains((op, e, v)) && !rs.contains(op);
            let k = choose|k: int| 0 <= k < asg@.len() && asg@[k]@ == (op, e, v);
            assert(!rs.contains(asg@[k].op));
            let m = choose|m: int| 0 <= m < r@.len() && r@[m]@ == asg@[k]@;
            assert(r@[m].elem == e && r@[m].value@ == v);
        }
    }
    r
}

/// Whether `e` has a surviving value.
fn valued(cur: &Vec<AssignOp>, e: NodeId) -> (r: bool)
    ensures
        r == exists|k: int| 0 <= k < cur@.len() && #[trigger] cur@[k].elem == e,
{
    let mut i: usize = 0;
    while i < cur.len()
        invariant
            i <= cur@.len(),
            forall|k: int| 0 <= k < i ==> (#[trigger] cur@[k]).elem != e,
        decreases cur@.len() - i,
    {
        if cur[i].elem == e {
            return true;
        }
        i = i + 1;
    }
    false
}

/// `e` carries one of the values in `cur`.
pub open spec fn valued_in(cur: Seq<AssignOp>, e: NodeId) -> bool {
    exists|k: int| 0 <= k < cur.len() && #[trigger] cur[k].elem == e
}

/// The pointers of `next` that leave an element without a value in `cur`.
pub open spec fn blank_of(next: Seq<Link>, cur: Seq<AssignOp>) -> Set<Link> {
    Set::new(|l: Link| links_of(next).contains(l) && !valued_in(cur, l.from))
}

/// The steps from each valued element over its run of blank successors to the
/// next valued element, with each value of the latter.
pub open spec fn steps_of(next: Seq<Link>, cur: Seq<AssignOp>, bound: nat) -> Set<(NodeId, NodeId, Seq<char>)> {
    Set::new(|t: (NodeId, NodeId, Seq<char>)| {
        &&& valued_in(cur, t.0)
        &&& exists|x: NodeId| #[trigger] links_of(next).contains(Link { from: t.0, to: x })
            && walk(blank_of(next, cur), x, horizon(bound)) == t.1
        &&& exists|k: int| 0 <= k < cur.len() && #[trigger] cur[k].elem == t.1 && cur[k].value@ == t.2
    })
}

pub fn blank_pointers(next: &Vec<Link>, cur: &Vec<AssignOp>) -> (r: Vec<Link>)
    ensures
        links_of(r@) == blank_of(next@, cur@),
{
    let mut r: Vec<Link> = Vec::new();
    let mut i: usize = 0;
    while i < next.len()
        invariant
            i <= next@.len(),
            forall|k: int| 0 <= k < r@.len() ==> links_of(next@).contains(#[trigger] r@[k]) && !valued_in(cur@, r@[k].from),
            forall|k: int| 0 <= k < i && !valued_in(cur@, #[trigger] next@[k].from) ==> links_of(r@).contains(next@[k]),
        decreases next@.len() - i,
    {
        let l = next[i];
        proof {
            assert(links_of(next@).contains(next@[i as int]));
        }
        if !valued(cur, l.from) {
            let ghost old_r = r@;
            r.push(l);
            proof {
                assert(r@[old_r.len() as int] == l);
                assert forall|k: int| 0 <= k < i + 1 && !valued_in(cur@, #[trigger] next@[k].from) implies links_of(r@).contains(next@[k]) by {
                    if k < i {
                        let m = choose|m: int| 0 <= m < old_r.len() && old_r[m] == next@[k];
                        assert(r@[m] == old_r[m]);
                    } else {
                        assert(r@[old_r.len() as int] == next@[k]);
                    }
                }
                assert forall|k: int| 0 <= k < r@.len() implies links_of(next@).contains(#[trigger] r@[k]) && !valued_in(cur@, r@[k].from) by {
                    if k < old_r.len() {
                        assert(r@[k] == old_r[k]);
                    }
                }
            }
        }
        i = i + 1;
    }
    proof {
        let target = Set::new(|l: Link| links_of(next@).contains(l) && !valued_in(cur@, l.from));
        assert forall|l: Link| links_of(r@).contains(l) <==> target.contains(l) by {
            if links_of(r@).contains(l) {
                let k = choose|k: int| 0 <= k < r@.len() && r@[k] == l;
                assert(links_of(next@).contains(r@[k]) && !valued_in(cur@, r@[k].from));
            }
            if target.contains(l) {
                let k = choose|k: int| 0 <= k < next@.len() && next@[k] == l;
                assert(!valued_in(cur@, next@[k].from));
            }
        }
        assert(links_of(r@) =~= target);
    }
    r
}

/// The visible steps for the successor relation `next` and the surviving
/// assignments `cur`; nothing where a run of blank elements does not end
/// within the horizon of `bound`.
pub fn visible_steps(next: &Vec<Link>, cur: &Vec<AssignOp>, bound: usize) -> (r: Option<Vec<Emitted>>)
    requires
        functional(links_of(next@)),
        bound <= usize::MAX / 2,
    ensures
        r is Some <==> settled(blank_of(next@, cur@), bound as nat),
        r matches Some(v) ==> distinct_views(v@) && view_set(v@) == steps_of(next@, cur@, bound as nat),
{
    let ghost h = horizon(bound as nat);
    let blank = blank_pointers(next, cur);
    let ghost bset = blank_of(next@, cur@);
    proof {
        assert forall|l1: Link, l2: Link|
            #[trigger] bset.contains(l1) && #[trigger] bset.contains(l2) && l1.from == l2.from implies l1 == l2 by {
            assert(links_of(next@).contains(l1) && links_of(next@).contains(l2));
        }
    }
    let ends = match collapse(&blank, bound) {
        Some(c) => c.links,
        None => {
            return None;
        },
    };
    let mut out: Vec<Emitted> = Vec::new();
    let mut i: usize = 0;
    while i < next.len()
        invariant
            i <= next@.len(),
            h == horizon(bound as nat),
            bset == blank_of(next@, cur@),
            links_of(blank@) == bset,
            ends@.len() == blank@.len(),
            forall|k: int| 0 <= k < blank@.len() ==> #[trigger] ends@[k] == (Link {
                from: blank@[k].from,
                to: walk(bset, blank@[k].from, h),
            }),
            distinct_views(out@),
            forall|t: (NodeId, NodeId, Seq<char>)| #[trigger] view_set(out@).contains(t) ==> steps_of(next@, cur@, bound as nat).contains(t),
            forall|k: int, m: int| 0 <= k < i && 0 <= m < cur@.len() && valued_in(cur@, (#[trigger] next@[k]).from)
                && (#[trigger] cur@[m]).elem == walk(bset, next@[k].to, h)
                ==> view_set(out@).contains((next@[k].from, cur@[m].elem, cur@[m].value@)),
        decreases next@.len() - i,
    {
        let l = next[i];
        if valued(cur, l.from) {
            let b = match find_link(&ends, l.to) {
                Some(j) => ends[j].to,
                None => {
                    proof {
                        assert forall|m: Link| bset.contains(m) implies m.from != l.to by {
                            let k = choose|k: int| 0 <= k < blank@.len() && blank@[k] == m;
                            assert(ends@[k].from == m.from);
                        }
                        crate::chain::lemma_walk_terminal(bset, l.to, h);
                    }
                    l.to
                },
            };
            proof {
                assert(b == walk(bset, l.to, h));
                assert(links_of(next@).contains(next@[i as int]));
            }
            let mut j: usize = 0;
            while j < cur.len()
                invariant
                    i < next@.len(),
                    l == next@[i as int],
                    valued_in(cur@, l.from),
                    b == walk(bset, l.to, h),
                    h == horizon(bound as nat),
                    bset == blank_of(next@, cur@),
                    j <= cur@.len(),
                    distinct_views(out@),
                    forall|t: (NodeId, NodeId, Seq<char>)| #[trigger] view_set(out@).contains(t) ==> steps_of(next@, cur@, bound as nat).contains(t),
                    forall|k: int, m: int| 0 <= k < i && 0 <= m < cur@.len() && valued_in(cur@, (#[trigger] next@[k]).from)
                        && (#[trigger] cur@[m]).elem == walk(bset, next@[k].to, h)
                        ==> view_set(out@).contains((next@[k].from, cur@[m].elem, cur@[m].value@)),
                    forall|m: int| 0 <= m < j && (#[trigger] cur@[m]).elem == b
                        ==> view_set(out@).contains((l.from, cur@[m].elem, cur@[m].value@)),
                decreases cur@.len() - j,
            {
                if cur[j].elem == b {
                    let em = Emitted { prev: l.from, next: b, value: cur[j].value.clone() };
                    proof {
                        assert(links_of(next@).contains(Link { from: l.from, to: l.to }));
                        assert(steps_of(next@, cur@, bound as nat).contains(em@));
                    }
                    insert_unique(&mut out, em);
                }
                j = j + 1;
            }
        }
        i = i + 1;
    }
    proof {
        let target = steps_of(next@, cur@, bound as nat);
        assert forall|t: (NodeId, NodeId, Seq<char>)| target.contains(t) implies #[trigger] view_set(out@).contains(t) by {
            let x = choose|x: NodeId| #[trigger] links_of(next@).contains(Link { from: t.0, to: x })
                && walk(bset, x, h) == t.1;
            let k = choose|k: int| 0 <= k < next@.len() && next@[k] == Link { from: t.0, to: x };
            let m = choose|m: int| 0 <= m < cur@.len() && #[trigger] cur@[m].elem == t.1 && cur@[m].value@ == t.2;
            assert(valued_in(cur@, next@[k].from));
            assert(cur@[m].elem == walk(bset, next@[k].to, h));
        }
        assert(view_set(out@) =~= target);
    }
    Some(out)
}

} // verus!
