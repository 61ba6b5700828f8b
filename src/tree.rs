//! The structural view of the insert forest: children, sibling order,
//! first and last children, and the pre-order successor of every node.
//!
//! Children of one parent are ranked by identifier, largest first: the first
//! child of a parent is its largest child, and the next sibling of a child is
//! the largest sibling below it.
use vstd::prelude::*;
use crate::bag::view_set;
use crate::chain::{collapse, functional, has_pred, horizon, injective, lemma_walks_meet, links_of, settled, walk};
use crate::node::{id_lt, InsertEdge, Link, NodeId};

verus! {

pub open spec fn child_of(ins: Set<InsertEdge>, c: NodeId, p: NodeId) -> bool {
    ins.contains(InsertEdge { child: c, parent: p })
}

pub open spec fn has_child(ins: Set<InsertEdge>, p: NodeId) -> bool {
    exists|c: NodeId| child_of(ins, c, p)
}

/// No node was created under two parents.
pub open spec fn unique_parents(ins: Set<InsertEdge>) -> bool {
    forall|c: NodeId, p: NodeId, q: NodeId|
        #[trigger] child_of(ins, c, p) && #[trigger] child_of(ins, c, q) ==> p == q
}

/// `a` is the child of `p` ranked just below its sibling `b`.
pub open spec fn sibling_of(ins: Set<InsertEdge>, p: NodeId, b: NodeId, a: NodeId) -> bool {
    &&& child_of(ins, b, p)
    &&& child_of(ins, a, p)
    &&& id_lt(a, b)
    &&& forall|c: NodeId| #[trigger] child_of(ins, c, p) && id_lt(a, c) ==> !id_lt(c, b)
}

/// `a` follows `b` among the children of their parent.
pub open spec fn next_sibling(ins: Set<InsertEdge>, b: NodeId, a: NodeId) -> bool {
    exists|p: NodeId| sibling_of(ins, p, b, a)
}

/// `c` is the largest child of `p`.
pub open spec fn first_child(ins: Set<InsertEdge>, p: NodeId, c: NodeId) -> bool {
    child_of(ins, c, p) && forall|d: NodeId| #[trigger] child_of(ins, d, p) ==> !id_lt(c, d)
}

/// `c` is the smallest child of `p`.
pub open spec fn last_child(ins: Set<InsertEdge>, p: NodeId, c: NodeId) -> bool {
    child_of(ins, c, p) && forall|d: NodeId| #[trigger] child_of(ins, d, p) ==> !id_lt(d, c)
}

/// Pointers from each child to its parent.
pub open spec fn parent_links(ins: Set<InsertEdge>) -> Set<Link> {
    Set::new(|l: Link| child_of(ins, l.from, l.to))
}

/// Pointers from each last child to its parent.
pub open spec fn climb_links(ins: Set<InsertEdge>) -> Set<Link> {
    Set::new(|l: Link| last_child(ins, l.to, l.from))
}

/// The end of the run of last-child pointers above `a`: the nearest ancestor
/// that is not a last child itself.
pub open spec fn ancestor(ins: Set<InsertEdge>, bound: nat, a: NodeId) -> NodeId {
    walk(climb_links(ins), a, horizon(bound))
}

/// `b` follows `a` in pre-order: `b` is the first child of `a`; or `a` is a
/// leaf and `b` its next sibling; or `a` is a leaf and a last child, and `b`
/// is the next sibling of its nearest ancestor that has one.
pub open spec fn next_elem(ins: Set<InsertEdge>, bound: nat, a: NodeId, b: NodeId) -> bool {
    ||| first_child(ins, a, b)
    ||| !has_child(ins, a) && next_sibling(ins, a, b)
    ||| {
        &&& !has_child(ins, a)
        &&& exists|p: NodeId| last_child(ins, p, a)
        &&& has_child(ins, ancestor(ins, bound, a))
        &&& next_sibling(ins, ancestor(ins, bound, a), b)
    }
}

/// The pre-order successor relation.
pub open spec fn next_links(ins: Set<InsertEdge>, bound: nat) -> Set<Link> {
    Set::new(|l: Link| next_elem(ins, bound, l.from, l.to))
}

/// Whether `p` has a child.
pub fn has_children(ins: &Vec<InsertEdge>, p: NodeId) -> (r: bool)
    ensures
        r == has_child(view_set(ins@), p),
{
    let mut i: usize = 0;
    while i < ins.len()
        invariant
            i <= ins@.len(),
            forall|k: int| 0 <= k < i ==> (#[trigger] ins@[k]).parent != p,
        decreases ins@.len() - i,
    {
        if ins[i].parent == p {
            proof {
                assert(child_of(view_set(ins@), ins@[i as int].child, p));
            }
            return true;
        }
        i = i + 1;
    }
    proof {
        assert forall|c: NodeId| !child_of(view_set(ins@), c, p) by {
            if child_of(view_set(ins@), c, p) {
                let k = choose|k: int| 0 <= k < ins@.len() && ins@[k]@ == InsertEdge { child: c, parent: p };
                assert(ins@[k].parent == p);
            }
        }
    }
    false
}

/// The parent of `c`, if it has one.
pub fn parent_of(ins: &Vec<InsertEdge>, c: NodeId) -> (r: Option<NodeId>)
    ensures
        match r {
            Some(p) => child_of(view_set(ins@), c, p),
            None => forall|p: NodeId| !child_of(view_set(ins@), c, p),
        },
{
    let mut i: usize = 0;
    while i < ins.len()
        invariant
            i <= ins@.len(),
            forall|k: int| 0 <= k < i ==> (#[trigger] ins@[k]).child != c,
        decreases ins@.len() - i,
    {
        if ins[i].child == c {
            proof {
                assert(ins@[i as int]@ == InsertEdge { child: c, parent: ins@[i as int].parent });
            }
            return Some(ins[i].parent);
        }
        i = i + 1;
    }
    proof {
        assert forall|p: NodeId| !child_of(view_set(ins@), c, p) by {
            if child_of(view_set(ins@), c, p) {
                let k = choose|k: int| 0 <= k < ins@.len() && ins@[k]@ == InsertEdge { child: c, parent: p };
                assert(ins@[k].child == c);
            }
        }
    }
    None
}

/// Whether no node has two parents.
pub fn check_unique_parents(ins: &Vec<InsertEdge>) -> (r: bool)
    ensures
        r == unique_parents(view_set(ins@)),
{
    let mut i: usize = 0;
    while i < ins.len()
        invariant
            i <= ins@.len(),
            forall|k: int, m: int| 0 <= k < i && 0 <= m < ins@.len() && (#[trigger] ins@[k]).child == (#[trigger] ins@[m]).child
                ==> ins@[k].parent == ins@[m].parent,
        decreases ins@.len() - i,
    {
        let mut j: usize = 0;
        while j < ins.len()
            invariant
                i < ins@.len(),
                j <= ins@.len(),
                forall|m: int| 0 <= m < j && ins@[i as int].child == (#[trigger] ins@[m]).child
                    ==> ins@[i as int].parent == ins@[m].parent,
            decreases ins@.len() - j,
        {
            if ins[i].child == ins[j].child && ins[i].parent != ins[j].parent {
                proof {
                    let c = ins@[i as int].child;
                    assert(child_of(view_set(ins@), c, ins@[i as int].parent));
                    assert(child_of(view_set(ins@), c, ins@[j as int].parent));
                }
                return false;
            }
            j = j + 1;
        }
        i = i + 1;
    }
    proof {
        assert forall|c: NodeId, p: NodeId, q: NodeId|
            #[trigger] child_of(view_set(ins@), c, p) && #[trigger] child_of(view_set(ins@), c, q) implies p == q by {
            let k = choose|k: int| 0 <= k < ins@.len() && ins@[k]@ == InsertEdge { child: c, parent: p };
            let m = choose|m: int| 0 <= m < ins@.len() && ins@[m]@ == InsertEdge { child: c, parent: q };
            assert(ins@[k].child == ins@[m].child);
        }
    }
    true
}

/// The child of `p` ranked just below `b`, if any.
pub fn sibling_below(ins: &Vec<InsertEdge>, p: NodeId, b: NodeId) -> (r: Option<NodeId>)
    ensures
        match r {
            Some(a) => {
                &&& child_of(view_set(ins@), a, p)
                &&& id_lt(a, b)
                &&& forall|c: NodeId| #[trigger] child_of(view_set(ins@), c, p) && id_lt(a, c) ==> !id_lt(c, b)
            },
            None => forall|c: NodeId| #[trigger] child_of(view_set(ins@), c, p) ==> !id_lt(c, b),
        },
{
    let mut best: Option<NodeId> = None;
    let mut i: usize = 0;
    while i < ins.len()
        invariant
            i <= ins@.len(),
            match best {
                Some(a) => {
                    &&& child_of(view_set(ins@), a, p)
                    &&& id_lt(a, b)
                    &&& forall|k: int| 0 <= k < i && (#[trigger] ins@[k]).parent == p && id_lt(a, ins@[k].child)
                        ==> !id_lt(ins@[k].child, b)
                },
                None => forall|k: int| 0 <= k < i && (#[trigger] ins@[k]).parent == p ==> !id_lt(ins@[k].child, b),
            },
        decreases ins@.len() - i,
    {
        let e = ins[i];
        if e.parent == p && e.child.less_than(&b) {
            proof {
                assert(ins@[i as int]@ == InsertEdge { child: e.child, parent: p });
            }
            match best {
                Some(a) => {
                    if a.less_than(&e.child) {
                        best = Some(e.child);
                    }
                },
                None => {
                    best = Some(e.child);
                },
            }
        }
        i = i + 1;
    }
    proof {
        assert forall|c: NodeId| #[trigger] child_of(view_set(ins@), c, p) implies (match best {
            Some(a) => id_lt(a, c) ==> !id_lt(c, b),
            None => !id_lt(c, b),
        }) by {
            let k = choose|k: int| 0 <= k < ins@.len() && ins@[k]@ == InsertEdge { child: c, parent: p };
            assert(ins@[k].parent == p);
        }
    }
    best
}

/// Whether `c` is ranked above every other child of `p`.
pub fn is_top_child(ins: &Vec<InsertEdge>, p: NodeId, c: NodeId) -> (r: bool)
    ensures
        r == forall|d: NodeId| #[trigger] child_of(view_set(ins@), d, p) ==> !id_lt(c, d),
{
    let mut i: usize = 0;
    while i < ins.len()
        invariant
            i <= ins@.len(),
            forall|k: int| 0 <= k < i && (#[trigger] ins@[k]).parent == p ==> !id_lt(c, ins@[k].child),
        decreases ins@.len() - i,
    {
        if ins[i].parent == p && c.less_than(&ins[i].child) {
            proof {
                assert(child_of(view_set(ins@), ins@[i as int].child, p));
            }
            return false;
        }
        i = i + 1;
    }
    proof {
        assert forall|d: NodeId| #[trigger] child_of(view_set(ins@), d, p) implies !id_lt(c, d) by {
            let k = choose|k: int| 0 <= k < ins@.len() && ins@[k]@ == InsertEdge { child: d, parent: p };
            assert(ins@[k].parent == p);
        }
    }
    true
}

/// The pointers from each last child to its parent.
pub fn climb_pointers(ins: &Vec<InsertEdge>) -> (r: Vec<Link>)
    ensures
        links_of(r@) == climb_links(view_set(ins@)),
{
    let ghost set = view_set(ins@);
    let mut r: Vec<Link> = Vec::new();
    let mut i: usize = 0;
    while i < ins.len()
        invariant
            i <= ins@.len(),
            set == view_set(ins@),
            forall|l: Link| #[trigger] links_of(r@).contains(l) ==> climb_links(set).contains(l),
            forall|k: int| 0 <= k < i && #[trigger] last_child(set, ins@[k].parent, ins@[k].child)
                ==> links_of(r@).contains(Link { from: ins@[k].child, to: ins@[k].parent }),
        decreases ins@.len() - i,
    {
        let e = ins[i];
        let ghost old_r = r@;
        proof {
            assert(ins@[i as int]@ == InsertEdge { child: e.child, parent: e.parent });
        }
        if sibling_below(ins, e.parent, e.child).is_none() {
            r.push(Link { from: e.child, to: e.parent });
            proof {
                assert(r@[old_r.len() as int] == Link { from: e.child, to: e.parent });
                assert forall|l: Link| links_of(old_r).contains(l) implies #[trigger] links_of(r@).contains(l) by {
                    let k = choose|k: int| 0 <= k < old_r.len() && old_r[k] == l;
                    assert(r@[k] == l);
                }
                assert forall|l: Link| #[trigger] links_of(r@).contains(l) implies climb_links(set).contains(l) by {
                    let k = choose|k: int| 0 <= k < r@.len() && r@[k] == l;
                    if k < old_r.len() {
                        assert(links_of(old_r).contains(old_r[k]));
                    }
                }
            }
        } else {
            proof {
                assert(!last_child(set, e.parent, e.child));
            }
        }
        i = i + 1;
    }
    proof {
        assert forall|l: Link| climb_links(set).contains(l) implies #[trigger] links_of(r@).contains(l) by {
            let k = choose|k: int| 0 <= k < ins@.len() && ins@[k]@ == InsertEdge { child: l.from, parent: l.to };
            assert(last_child(set, ins@[k].parent, ins@[k].child));
        }
        assert(links_of(r@) =~= climb_links(set));
    }
    r
}

/// The pointers from each child to its parent.
pub fn parent_pointers(ins: &Vec<InsertEdge>) -> (r: Vec<Link>)
    ensures
        links_of(r@) == parent_links(view_set(ins@)),
        unique_parents(view_set(ins@)) ==> functional(links_of(r@)),
{
    let mut r: Vec<Link> = Vec::new();
    let mut i: usize = 0;
    while i < ins.len()
        invariant
            i <= ins@.len(),
            r@.len() == i,
            forall|k: int| 0 <= k < i ==> #[trigger] r@[k] == (Link { from: ins@[k].child, to: ins@[k].parent }),
        decreases ins@.len() - i,
    {
        r.push(Link { from: ins[i].child, to: ins[i].parent });
        i = i + 1;
    }
    proof {
        let set = view_set(ins@);
        assert forall|l: Link| links_of(r@).contains(l) <==> parent_links(set).contains(l) by {
            if links_of(r@).contains(l) {
                let k = choose|k: int| 0 <= k < r@.len() && r@[k] == l;
                assert(ins@[k]@ == InsertEdge { child: l.from, parent: l.to });
            }
            if parent_links(set).contains(l) {
                let k = choose|k: int| 0 <= k < ins@.len() && ins@[k]@ == InsertEdge { child: l.from, parent: l.to };
                assert(r@[k] == l);
            }
        }
        assert(links_of(r@) =~= parent_links(set));
        if unique_parents(set) {
            assert forall|l1: Link, l2: Link|
                #[trigger] links_of(r@).contains(l1) && #[trigger] links_of(r@).contains(l2) && l1.from == l2.from implies l1 == l2 by {
                assert(child_of(set, l1.from, l1.to) && child_of(set, l1.from, l2.to));
            }
        }
    }
    r
}

/// With one parent per node, a node is the last child of at most one parent.
pub proof fn lemma_climb_functional(ins: Set<InsertEdge>)
    requires
        unique_parents(ins),
    ensures
        functional(climb_links(ins)),
{
    assert forall|l1: Link, l2: Link|
        #[trigger] climb_links(ins).contains(l1) && #[trigger] climb_links(ins).contains(l2) && l1.from == l2.from implies l1 == l2 by {
        assert(child_of(ins, l1.from, l1.to));
        assert(child_of(ins, l1.from, l2.to));
    }
}

proof fn lemma_sibling_unique(ins: Set<InsertEdge>, b: NodeId, a1: NodeId, a2: NodeId)
    requires
        unique_parents(ins),
        next_sibling(ins, b, a1),
        next_sibling(ins, b, a2),
    ensures
        a1 == a2,
{
    let pa = choose|p: NodeId| sibling_of(ins, p, b, a1);
    let pb = choose|p: NodeId| sibling_of(ins, p, b, a2);
    assert(child_of(ins, b, pa) && child_of(ins, b, pb));
    assert(child_of(ins, a1, pa) && child_of(ins, a2, pa));
}

/// With one parent per node, every node has at most one pre-order successor.
pub proof fn lemma_next_functional(ins: Set<InsertEdge>, bound: nat)
    requires
        unique_parents(ins),
    ensures
        functional(next_links(ins, bound)),
{
    assert forall|l1: Link, l2: Link|
        #[trigger] next_links(ins, bound).contains(l1) && #[trigger] next_links(ins, bound).contains(l2) && l1.from == l2.from
        implies l1 == l2 by {
        let a = l1.from;
        if has_child(ins, a) {
            assert(first_child(ins, a, l1.to) && first_child(ins, a, l2.to));
            assert(child_of(ins, l1.to, a) && child_of(ins, l2.to, a));
        } else {
            let y = ancestor(ins, bound, a);
            if next_sibling(ins, a, l1.to) && next_sibling(ins, a, l2.to) {
                lemma_sibling_unique(ins, a, l1.to, l2.to);
            } else if next_sibling(ins, y, l1.to) && next_sibling(ins, y, l2.to) {
                lemma_sibling_unique(ins, y, l1.to, l2.to);
            } else {
                let p = choose|p: NodeId| last_child(ins, p, a);
                if next_sibling(ins, a, l1.to) {
                    let q = choose|q: NodeId| sibling_of(ins, q, a, l1.to);
                    assert(child_of(ins, a, p) && child_of(ins, a, q));
                    assert(child_of(ins, l1.to, p));
                } else {
                    let q = choose|q: NodeId| sibling_of(ins, q, a, l2.to);
                    assert(child_of(ins, a, p) && child_of(ins, a, q));
                    assert(child_of(ins, l2.to, p));
                }
            }
        }
    }
}

/// The sibling ranked just above `a` is unique.
proof fn lemma_prev_sibling_unique(ins: Set<InsertEdge>, b1: NodeId, b2: NodeId, a: NodeId)
    requires
        unique_parents(ins),
        next_sibling(ins, b1, a),
        next_sibling(ins, b2, a),
    ensures
        b1 == b2,
{
    let pa = choose|p: NodeId| sibling_of(ins, p, b1, a);
    let pb = choose|p: NodeId| sibling_of(ins, p, b2, a);
    assert(child_of(ins, a, pa) && child_of(ins, a, pb));
    assert(child_of(ins, b1, pa) && child_of(ins, b2, pa));
}

/// With one parent per node, every node has at most one pre-order predecessor.
pub proof fn lemma_next_injective(ins: Set<InsertEdge>, bound: nat)
    requires
        unique_parents(ins),
    ensures
        injective(next_links(ins, bound)),
{
    let cl = climb_links(ins);
    assert forall|l1: Link, l2: Link| #[trigger] cl.contains(l1) && #[trigger] cl.contains(l2) && l1.to == l2.to implies l1 == l2 by {
        assert(child_of(ins, l1.from, l1.to) && child_of(ins, l2.from, l1.to));
    }
    assert forall|l1: Link, l2: Link|
        #[trigger] next_links(ins, bound).contains(l1) && #[trigger] next_links(ins, bound).contains(l2) && l1.to == l2.to
        implies l1 == l2 by {
        let b = l1.to;
        let a1 = l1.from;
        let a2 = l2.from;
        if first_child(ins, a1, b) || first_child(ins, a2, b) {
            let (fa, other) = if first_child(ins, a1, b) { (a1, a2) } else { (a2, a1) };
            if !first_child(ins, other, b) {
                let z = if next_sibling(ins, other, b) { other } else { ancestor(ins, bound, other) };
                assert(next_sibling(ins, z, b));
                let q = choose|q: NodeId| sibling_of(ins, q, z, b);
                assert(child_of(ins, b, q) && child_of(ins, b, fa));
                assert(child_of(ins, z, fa));
            } else {
                assert(child_of(ins, b, a1) && child_of(ins, b, a2));
            }
        } else {
            let y1 = ancestor(ins, bound, a1);
            let y2 = ancestor(ins, bound, a2);
            if next_sibling(ins, a1, b) && next_sibling(ins, a2, b) {
                lemma_prev_sibling_unique(ins, a1, a2, b);
            } else if next_sibling(ins, a1, b) {
                lemma_prev_sibling_unique(ins, a1, y2, b);
            } else if next_sibling(ins, a2, b) {
                lemma_prev_sibling_unique(ins, y1, a2, b);
            } else {
                lemma_prev_sibling_unique(ins, y1, y2, b);
                assert(!has_pred(cl, a1)) by {
                    if has_pred(cl, a1) {
                        let l = choose|l: Link| cl.contains(l) && l.to == a1;
                        assert(child_of(ins, l.from, a1));
                    }
                }
                assert(!has_pred(cl, a2)) by {
                    if has_pred(cl, a2) {
                        let l = choose|l: Link| cl.contains(l) && l.to == a2;
                        assert(child_of(ins, l.from, a2));
                    }
                }
                lemma_walks_meet(cl, a1, a2, horizon(bound), horizon(bound));
            }
        }
    }
}

/// The index of the pointer leaving `a`, if any.
pub(crate) fn find_link(e: &Vec<Link>, a: NodeId) -> (r: Option<usize>)
    ensures
        match r {
            Some(j) => j < e@.len() && e@[j as int].from == a,
            None => forall|k: int| 0 <= k < e@.len() ==> (#[trigger] e@[k]).from != a,
        },
{
    let mut j: usize = 0;
    while j < e.len()
        invariant
            j <= e@.len(),
            forall|k: int| 0 <= k < j ==> (#[trigger] e@[k]).from != a,
        decreases e@.len() - j,
    {
        if e[j].from == a {
            return Some(j);
        }
        j = j + 1;
    }
    None
}

/// The pre-order successor relation of the forest, or nothing where a run of
/// last-child pointers does not end within the horizon of `bound`.
pub fn next_elements(ins: &Vec<InsertEdge>, bound: usize) -> (r: Option<Vec<Link>>)
    requires
        unique_parents(view_set(ins@)),
        bound <= usize::MAX / 2,
    ensures
        r is Some <==> settled(climb_links(view_set(ins@)), bound as nat),
        r matches Some(v) ==> links_of(v@) == next_links(view_set(ins@), bound as nat),
{
    let ghost set = view_set(ins@);
    let ghost n = bound as nat;
    let climb = climb_pointers(ins);
    proof {
        lemma_climb_functional(set);
    }
    let tops = match collapse(&climb, bound) {
        Some(c) => c.links,
        None => {
            return None;
        },
    };
    let mut r: Vec<Link> = Vec::new();
    let mut i: usize = 0;
    while i < ins.len()
        invariant
            i <= ins@.len(),
            set == view_set(ins@),
            n == bound as nat,
            unique_parents(set),
            links_of(climb@) == climb_links(set),
            tops@.len() == climb@.len(),
            forall|k: int| 0 <= k < climb@.len() ==> #[trigger] tops@[k] == (Link {
                from: climb@[k].from,
                to: walk(links_of(climb@), climb@[k].from, horizon(n)),
            }),
            forall|l: Link| #[trigger] links_of(r@).contains(l) ==> next_links(set, n).contains(l),
            forall|k: int| 0 <= k < i && #[trigger] first_child(set, ins@[k].parent, ins@[k].child)
                ==> links_of(r@).contains(Link { from: ins@[k].parent, to: ins@[k].child }),
            forall|k: int, b: NodeId| 0 <= k < i && !has_child(set, ins@[k].child) && #[trigger] next_elem(set, n, ins@[k].child, b)
                ==> #[trigger] links_of(r@).contains(Link { from: ins@[k].child, to: b }),
        decreases ins@.len() - i,
    {
        let e = ins[i];
        let c = e.child;
        let p = e.parent;
        proof {
            assert(ins@[i as int]@ == InsertEdge { child: c, parent: p });
            assert(child_of(set, c, p));
        }
        let ghost r0 = r@;
        if is_top_child(ins, p, c) {
            r.push(Link { from: p, to: c });
            proof {
                lemma_push_links(r0, Link { from: p, to: c });
            }
        }
        let ghost r1 = r@;
        proof {
            assert(links_of(r0).subset_of(links_of(r1)));
        }
        if !has_children(ins, c) {
            match sibling_below(ins, p, c) {
                Some(a) => {
                    proof {
                        assert(sibling_of(set, p, c, a));
                        assert forall|b: NodeId| next_elem(set, n, c, b) implies b == a by {
                            if next_sibling(set, c, b) {
                                lemma_sibling_unique(set, c, a, b);
                            } else {
                                let q = choose|q: NodeId| last_child(set, q, c);
                                assert(child_of(set, c, q));
                                assert(child_of(set, a, p));
                            }
                        }
                    }
                    r.push(Link { from: c, to: a });
                    proof {
                        lemma_push_links(r1, Link { from: c, to: a });
                    }
                },
                None => {
                    proof {
                        assert(last_child(set, p, c));
                        assert(climb_links(set).contains(Link { from: c, to: p }));
                        let j = choose|j: int| 0 <= j < climb@.len() && climb@[j] == Link { from: c, to: p };
                        assert(tops@[j].from == c);
                        assert forall|b: NodeId| !next_sibling(set, c, b) by {
                            if next_sibling(set, c, b) {
                                let q = choose|q: NodeId| sibling_of(set, q, c, b);
                                assert(child_of(set, c, q));
                                assert(child_of(set, b, p));
                            }
                        }
                    }
                    match find_link(&tops, c) {
                        Some(j) => {
                            let y = tops[j].to;
                            proof {
                                assert(climb@[j as int].from == c);
                                assert(y == ancestor(set, n, c));
                            }
                            if has_children(ins, y) {
                                match parent_of(ins, y) {
                                    Some(q) => {
                                        match sibling_below(ins, q, y) {
                                            Some(b) => {
                                                proof {
                                                    assert(sibling_of(set, q, y, b));
                                                    assert forall|b2: NodeId| next_elem(set, n, c, b2) implies b2 == b by {
                                                        lemma_sibling_unique(set, y, b, b2);
                                                    }
                                                }
                                                r.push(Link { from: c, to: b });
                                                proof {
                                                    lemma_push_links(r1, Link { from: c, to: b });
                                                }
                                            },
                                            None => {
                                                proof {
                                                    assert forall|b2: NodeId| !next_sibling(set, y, b2) by {
                                                        if next_sibling(set, y, b2) {
                                                            let q2 = choose|q2: NodeId| sibling_of(set, q2, y, b2);
                                                            assert(child_of(set, y, q2));
                                                            assert(child_of(set, y, q));
                                                        }
                                                    }
                                                }
                                            },
                                        }
                                    },
                                    None => {
                                        proof {
                                            assert forall|b2: NodeId| !next_sibling(set, y, b2) by {
                                                if next_sibling(set, y, b2) {
                                                    let q2 = choose|q2: NodeId| sibling_of(set, q2, y, b2);
                                                    assert(child_of(set, y, q2));
                                                }
                                            }
                                        }
                                    },
                                }
                            }
                        },
                        None => {},
                    }
                },
            }
        }
        i = i + 1;
    }
    proof {
        assert forall|l: Link| next_links(set, n).contains(l) implies #[trigger] links_of(r@).contains(l) by {
            if has_child(set, l.from) {
                assert(first_child(set, l.from, l.to));
                let k = choose|k: int| 0 <= k < ins@.len() && ins@[k]@ == InsertEdge { child: l.to, parent: l.from };
                assert(first_child(set, ins@[k].parent, ins@[k].child));
            } else {
                let p = if next_sibling(set, l.from, l.to) {
                    choose|p: NodeId| sibling_of(set, p, l.from, l.to)
                } else {
                    choose|p: NodeId| last_child(set, p, l.from)
                };
                assert(child_of(set, l.from, p));
                let k = choose|k: int| 0 <= k < ins@.len() && ins@[k]@ == InsertEdge { child: l.from, parent: p };
                assert(ins@[k].child == l.from);
                assert(next_elem(set, n, ins@[k].child, l.to));
            }
        }
        assert(links_of(r@) =~= next_links(set, n));
    }
    Some(r)
}

proof fn lemma_push_links(old_r: Seq<Link>, x: Link)
    ensures
        links_of(old_r.push(x)).contains(x),
        forall|l: Link| #[trigger] links_of(old_r.push(x)).contains(l) <==> (links_of(old_r).contains(l) || l == x),
{
    let r = old_r.push(x);
    assert(r[old_r.len() as int] == x);
    assert forall|l: Link| #[trigger] links_of(r).contains(l) <==> (links_of(old_r).contains(l) || l == x) by {
        if links_of(old_r).contains(l) {
            let k = choose|k: int| 0 <= k < old_r.len() && old_r[k] == l;
            assert(r[k] == l);
        }
        if links_of(r).contains(l) && l != x {
            let k = choose|k: int| 0 <= k < r.len() && r[k] == l;
            assert(old_r[k] == l);
        }
    }
}

} // verus!
