//! Path compression: every pointer of a functional pointer relation is
//! raced to the end of its chain by repeated doubling.
use vstd::prelude::*;
use crate::node::{Link, NodeId};

verus! {

/// The pointers held in a sequence, as a relation.
pub open spec fn links_of(e: Seq<Link>) -> Set<Link> {
    Set::new(|l: Link| exists|i: int| 0 <= i < e.len() && e[i] == l)
}

/// Each node is the source of at most one pointer.
pub open spec fn functional(s: Set<Link>) -> bool {
    forall|l1: Link, l2: Link|
        #[trigger] s.contains(l1) && #[trigger] s.contains(l2) && l1.from == l2.from ==> l1 == l2
}

/// Each node is the target of at most one pointer.
pub open spec fn injective(s: Set<Link>) -> bool {
    forall|l1: Link, l2: Link|
        #[trigger] s.contains(l1) && #[trigger] s.contains(l2) && l1.to == l2.to ==> l1 == l2
}

/// Some pointer ends at `a`.
pub open spec fn has_pred(s: Set<Link>, a: NodeId) -> bool {
    exists|l: Link| s.contains(l) && l.to == a
}

/// The pointer leaving `a`, if any.
pub open spec fn step(s: Set<Link>, a: NodeId) -> Option<NodeId> {
    if exists|l: Link| s.contains(l) && l.from == a {
        Some((choose|l: Link| s.contains(l) && l.from == a).to)
    } else {
        None
    }
}

/// The node reached from `a` after following at most `k` pointers.
pub open spec fn walk(s: Set<Link>, a: NodeId, k: nat) -> NodeId
    decreases k,
{
    if k == 0 {
        a
    } else {
        match step(s, a) {
            Some(b) => walk(s, b, (k - 1) as nat),
            None => a,
        }
    }
}

/// The number of pointers followed from `a` within at most `k` steps.
pub open spec fn hops(s: Set<Link>, a: NodeId, k: nat) -> nat
    decreases k,
{
    if k == 0 {
        0
    } else {
        match step(s, a) {
            Some(b) => 1 + hops(s, b, (k - 1) as nat),
            None => 0,
        }
    }
}

/// `a` is the end of its chain.
pub open spec fn terminal(s: Set<Link>, a: NodeId) -> bool {
    step(s, a) is None
}

pub open spec fn pow2(k: nat) -> nat
    decreases k,
{
    if k == 0 {
        1
    } else {
        2 * pow2((k - 1) as nat)
    }
}

/// The smallest `p * 2^j` that reaches `n`.
pub open spec fn horizon_from(n: nat, p: nat) -> nat
    decreases (if p >= n { 0 } else { n - p }),
{
    if p >= n || p == 0 {
        p
    } else {
        horizon_from(n, 2 * p)
    }
}

/// The smallest power of two that is at least `n`.
pub open spec fn horizon(n: nat) -> nat {
    horizon_from(n, 1)
}

/// Every pointer of `s` ends its chain within `k` steps.
pub open spec fn settled_within(s: Set<Link>, k: nat) -> bool {
    forall|l: Link| #[trigger] s.contains(l) ==> terminal(s, walk(s, l.from, k))
}

/// Every chain of `s` ends within the smallest power of two not below `bound` steps.
pub open spec fn settled(s: Set<Link>, bound: nat) -> bool {
    settled_within(s, horizon(bound))
}

/// The outcome of compressing a pointer relation.
pub struct Collapsed {
    /// One pointer per input pointer, from the same source to the end of its chain.
    pub links: Vec<Link>,
    /// For each input pointer, the number of pointers on the chain from its source.
    pub lengths: Vec<usize>,
    /// The number of doubling rounds that were needed.
    pub rounds: usize,
}

pub proof fn lemma_walk_terminal(s: Set<Link>, a: NodeId, k: nat)
    requires
        terminal(s, a),
    ensures
        walk(s, a, k) == a,
{
}

pub proof fn lemma_walk_add(s: Set<Link>, a: NodeId, m: nat, k: nat)
    ensures
        walk(s, a, m + k) == walk(s, walk(s, a, m), k),
    decreases m,
{
    if m > 0 {
        match step(s, a) {
            Some(b) => {
                lemma_walk_add(s, b, (m - 1) as nat, k);
                assert((m + k - 1) as nat == (m - 1) as nat + k);
            },
            None => {
                lemma_walk_terminal(s, a, k);
            },
        }
    }
}

pub proof fn lemma_hops_add(s: Set<Link>, a: NodeId, m: nat, k: nat)
    ensures
        hops(s, a, m + k) == hops(s, a, m) + hops(s, walk(s, a, m), k),
        hops(s, a, m) <= m,
    decreases m,
{
    if m > 0 {
        match step(s, a) {
            Some(b) => {
                lemma_hops_add(s, b, (m - 1) as nat, k);
                assert((m + k - 1) as nat == (m - 1) as nat + k);
            },
            None => {
                if k > 0 {
                    assert(hops(s, a, k) == 0);
                }
            },
        }
    } else {
        assert(walk(s, a, 0) == a);
    }
}

proof fn lemma_walk_past_terminal(s: Set<Link>, a: NodeId, m: nat, k: nat)
    requires
        m <= k,
        terminal(s, walk(s, a, m)),
    ensures
        walk(s, a, k) == walk(s, a, m),
        hops(s, a, k) == hops(s, a, m),
{
    lemma_hops_add(s, a, m, (k - m) as nat);
    if k - m > 0 {
        assert(hops(s, walk(s, a, m), (k - m) as nat) == 0);
    }
    lemma_walk_add(s, a, m, (k - m) as nat);
    lemma_walk_terminal(s, walk(s, a, m), (k - m) as nat);
}

proof fn lemma_step_at(e: Seq<Link>, j: int)
    requires
        functional(links_of(e)),
        0 <= j < e.len(),
    ensures
        step(links_of(e), e[j].from) == Some(e[j].to),
{
    let a = e[j].from;
    assert(links_of(e).contains(e[j]));
    let l = choose|l: Link| links_of(e).contains(l) && l.from == a;
    assert(l == e[j]);
}

proof fn lemma_horizon(n: nat, p: nat)
    requires
        p > 0,
    ensures
        horizon_from(n, p) >= n,
        horizon_from(n, p) >= p,
    decreases (if p >= n { 0 } else { n - p }),
{
    if p < n {
        lemma_horizon(n, 2 * p);
    }
}

proof fn lemma_pow2_monotone(j: nat, k: nat)
    requires
        j <= k,
    ensures
        pow2(j) <= pow2(k),
    decreases k,
{
    if j < k {
        lemma_pow2_monotone(j, (k - 1) as nat);
    }
}

proof fn lemma_step_link(s: Set<Link>, a: NodeId)
    requires
        step(s, a) is Some,
    ensures
        s.contains(Link { from: a, to: step(s, a)->Some_0 }),
{
    let l = choose|l: Link| s.contains(l) && l.from == a;
    assert(l == Link { from: a, to: l.to });
}

/// In a relation where every node has at most one pointer in and one out,
/// two chains that start at nodes no pointer reaches and meet, start at the
/// same node.
pub proof fn lemma_walks_meet(s: Set<Link>, a1: NodeId, a2: NodeId, k1: nat, k2: nat)
    requires
        injective(s),
        !has_pred(s, a1),
        !has_pred(s, a2),
        walk(s, a1, k1) == walk(s, a2, k2),
    ensures
        a1 == a2,
    decreases k1 + k2,
{
    if k1 == 0 && k2 == 0 {
    } else if k1 > 0 && terminal(s, walk(s, a1, (k1 - 1) as nat)) {
        lemma_walk_add(s, a1, (k1 - 1) as nat, 1);
        assert((k1 - 1) as nat + 1 == k1);
        lemma_walks_meet(s, a1, a2, (k1 - 1) as nat, k2);
    } else if k2 > 0 && terminal(s, walk(s, a2, (k2 - 1) as nat)) {
        lemma_walk_add(s, a2, (k2 - 1) as nat, 1);
        assert((k2 - 1) as nat + 1 == k2);
        lemma_walks_meet(s, a1, a2, k1, (k2 - 1) as nat);
    } else if k1 > 0 && k2 > 0 {
        let w1 = walk(s, a1, (k1 - 1) as nat);
        let w2 = walk(s, a2, (k2 - 1) as nat);
        lemma_walk_add(s, a1, (k1 - 1) as nat, 1);
        lemma_walk_add(s, a2, (k2 - 1) as nat, 1);
        assert((k1 - 1) as nat + 1 == k1);
        assert((k2 - 1) as nat + 1 == k2);
        lemma_step_link(s, w1);
        lemma_step_link(s, w2);
        assert(walk(s, step(s, w1)->Some_0, 0) == step(s, w1)->Some_0);
        assert(walk(s, step(s, w2)->Some_0, 0) == step(s, w2)->Some_0);
        assert(s.contains(Link { from: w1, to: walk(s, a1, k1) }));
        assert(s.contains(Link { from: w2, to: walk(s, a2, k2) }));
        lemma_walks_meet(s, a1, a2, (k1 - 1) as nat, (k2 - 1) as nat);
    } else if k1 > 0 {
        let w1 = walk(s, a1, (k1 - 1) as nat);
        lemma_walk_add(s, a1, (k1 - 1) as nat, 1);
        assert((k1 - 1) as nat + 1 == k1);
        lemma_step_link(s, w1);
        assert(walk(s, step(s, w1)->Some_0, 0) == step(s, w1)->Some_0);
        assert(s.contains(Link { from: w1, to: a2 }));
    } else {
        let w2 = walk(s, a2, (k2 - 1) as nat);
        lemma_walk_add(s, a2, (k2 - 1) as nat, 1);
        assert((k2 - 1) as nat + 1 == k2);
        lemma_step_link(s, w2);
        assert(walk(s, step(s, w2)->Some_0, 0) == step(s, w2)->Some_0);
        assert(s.contains(Link { from: w2, to: a1 }));
    }
}

/// Chains that end within `j` steps also end within any `k >= j` steps.
pub proof fn lemma_settled_monotone(s: Set<Link>, j: nat, k: nat)
    requires
        j <= k,
        settled_within(s, j),
    ensures
        settled_within(s, k),
{
    assert forall|l: Link| #[trigger] s.contains(l) implies terminal(s, walk(s, l.from, k)) by {
        lemma_walk_past_terminal(s, l.from, j, k);
    }
}

/// The index of the pointer leaving `a`, if any.
fn find_source(e: &Vec<Link>, a: NodeId) -> (r: Option<usize>)
    requires
        functional(links_of(e@)),
    ensures
        match r {
            Some(j) => j < e@.len() && e@[j as int].from == a && step(links_of(e@), a) == Some(e@[j as int].to),
            None => step(links_of(e@), a) is None,
        },
{
    let mut j: usize = 0;
    while j < e.len()
        invariant
            j <= e@.len(),
            functional(links_of(e@)),
            forall|k: int| 0 <= k < j ==> e@[k].from != a,
        decreases e@.len() - j,
    {
        if e[j].from == a {
            proof {
                lemma_step_at(e@, j as int);
            }
            return Some(j);
        }
        j = j + 1;
    }
    None
}

/// Whether every node in `cur` is the end of its chain.
fn all_terminal(e: &Vec<Link>, cur: &Vec<NodeId>) -> (r: bool)
    requires
        functional(links_of(e@)),
    ensures
        r == forall|i: int| 0 <= i < cur@.len() ==> terminal(links_of(e@), #[trigger] cur@[i]),
{
    let mut i: usize = 0;
    while i < cur.len()
        invariant
            i <= cur@.len(),
            functional(links_of(e@)),
            forall|k: int| 0 <= k < i ==> terminal(links_of(e@), #[trigger] cur@[k]),
        decreases cur@.len() - i,
    {
        if find_source(e, cur[i]).is_some() {
            return false;
        }
        i = i + 1;
    }
    true
}

/// Races every pointer of `e` to the end of its chain. Each round replaces the
/// target `b` of a pointer by the target of `b`'s own pointer, doubling the
/// distance covered, until no pointer can advance any more. Rounds stop at the
/// first power of two that is at least `bound`; if some chain is still open
/// then, it is cyclic (or longer than `bound`) and nothing is returned. The
/// number of rounds is the least `k` for which every chain ends within `2^k`
/// steps, and the length of every chain is tracked alongside its end.
pub fn collapse(e: &Vec<Link>, bound: usize) -> (r: Option<Collapsed>)
    requires
        functional(links_of(e@)),
        bound <= usize::MAX / 2,
    ensures
        r is Some <==> settled(links_of(e@), bound as nat),
        r matches Some(c) ==> {
            &&& c.links@.len() == e@.len()
            &&& forall|i: int| 0 <= i < e@.len() ==> #[trigger] c.links@[i] == (Link {
                from: e@[i].from,
                to: walk(links_of(e@), e@[i].from, horizon(bound as nat)),
            })
            &&& c.lengths@.len() == e@.len()
            &&& forall|i: int| 0 <= i < e@.len() ==> #[trigger] c.lengths@[i] == hops(links_of(e@), e@[i].from, horizon(bound as nat))
            &&& settled_within(links_of(e@), pow2(c.rounds as nat))
            &&& c.rounds == 0 || !settled_within(links_of(e@), pow2((c.rounds - 1) as nat))
            &&& forall|k: nat| #[trigger] settled_within(links_of(e@), pow2(k)) ==> c.rounds <= k
        },
{
    let n = e.len();
    let mut cur: Vec<NodeId> = Vec::new();
    let mut lens: Vec<usize> = Vec::new();
    let mut i: usize = 0;
    while i < n
        invariant
            n == e@.len(),
            functional(links_of(e@)),
            i <= n,
            cur@.len() == i,
            lens@.len() == i,
            forall|k: int| 0 <= k < i ==> #[trigger] cur@[k] == walk(links_of(e@), e@[k].from, 1),
            forall|k: int| 0 <= k < i ==> #[trigger] lens@[k] == hops(links_of(e@), e@[k].from, 1),
        decreases n - i,
    {
        let a = e[i].from;
        proof {
            lemma_step_at(e@, i as int);
            assert(walk(links_of(e@), e@[i as int].to, 0) == e@[i as int].to);
            assert(hops(links_of(e@), e@[i as int].to, 0) == 0);
            assert(hops(links_of(e@), e@[i as int].from, 1) == 1);
        }
        cur.push(e[i].to);
        lens.push(1);
        i = i + 1;
    }
    let mut reach: usize = 1;
    let mut rounds: usize = 0;
    proof {
        lemma_horizon(bound as nat, 1);
    }
    while !all_terminal(e, &cur) && reach < bound
        invariant
            n == e@.len(),
            functional(links_of(e@)),
            bound <= usize::MAX / 2,
            reach as nat == pow2(rounds as nat),
            1 <= reach <= horizon(bound as nat),
            horizon_from(bound as nat, reach as nat) == horizon(bound as nat),
            rounds <= reach,
            cur@.len() == n,
            forall|k: int| 0 <= k < n ==> #[trigger] cur@[k] == walk(links_of(e@), e@[k].from, reach as nat),
            lens@.len() == n,
            forall|k: int| 0 <= k < n ==> #[trigger] lens@[k] == hops(links_of(e@), e@[k].from, reach as nat),
            rounds == 0 || !settled_within(links_of(e@), pow2((rounds - 1) as nat)),
        decreases horizon(bound as nat) - reach,
    {
        proof {
            let k = choose|k: int| 0 <= k < cur@.len() && !terminal(links_of(e@), #[trigger] cur@[k]);
            assert(!terminal(links_of(e@), walk(links_of(e@), e@[k].from, pow2(rounds as nat))));
            assert(links_of(e@).contains(e@[k]));
            assert(!settled_within(links_of(e@), pow2(rounds as nat)));
        }
        let mut next: Vec<NodeId> = Vec::new();
        let mut next_lens: Vec<usize> = Vec::new();
        let mut i: usize = 0;
        while i < n
            invariant
                n == e@.len(),
                functional(links_of(e@)),
                i <= n,
                cur@.len() == n,
                next@.len() == i,
                next_lens@.len() == i,
                reach < bound,
                bound <= usize::MAX / 2,
                forall|k: int| 0 <= k < n ==> #[trigger] cur@[k] == walk(links_of(e@), e@[k].from, reach as nat),
                forall|k: int| 0 <= k < i ==> #[trigger] next@[k] == walk(links_of(e@), e@[k].from, 2 * reach as nat),
                lens@.len() == n,
                forall|k: int| 0 <= k < n ==> #[trigger] lens@[k] == hops(links_of(e@), e@[k].from, reach as nat),
                forall|k: int| 0 <= k < i ==> #[trigger] next_lens@[k] == hops(links_of(e@), e@[k].from, 2 * reach as nat),
            decreases n - i,
        {
            let b = cur[i];
            proof {
                lemma_walk_add(links_of(e@), e@[i as int].from, reach as nat, reach as nat);
                lemma_hops_add(links_of(e@), e@[i as int].from, reach as nat, reach as nat);
            }
            match find_source(e, b) {
                Some(j) => {
                    proof {
                        lemma_hops_add(links_of(e@), e@[j as int].from, reach as nat, 0);
                    }
                    next.push(cur[j]);
                    next_lens.push(lens[i] + lens[j]);
                },
                None => {
                    proof {
                        lemma_walk_terminal(links_of(e@), b, reach as nat);
                        if reach > 0 {
                            assert(hops(links_of(e@), b, reach as nat) == 0);
                        }
                    }
                    next.push(b);
                    next_lens.push(lens[i]);
                },
            }
            i = i + 1;
        }
        cur = next;
        lens = next_lens;
        proof {
            lemma_horizon(bound as nat, 2 * reach as nat);
            assert(pow2((rounds + 1) as nat) == 2 * pow2(rounds as nat));
            assert(horizon_from(bound as nat, reach as nat) == horizon_from(bound as nat, 2 * reach as nat));
        }
        reach = reach * 2;
        rounds = rounds + 1;
    }
    let fin = all_terminal(e, &cur);
    proof {
        if fin {
            assert forall|k: int| 0 <= k < n implies walk(links_of(e@), e@[k].from, horizon(bound as nat))
                == walk(links_of(e@), e@[k].from, reach as nat) && terminal(links_of(e@), #[trigger] walk(links_of(e@), e@[k].from, horizon(bound as nat))) by {
                assert(terminal(links_of(e@), cur@[k]));
                lemma_walk_past_terminal(links_of(e@), e@[k].from, reach as nat, horizon(bound as nat));
            }
            assert forall|k: int| 0 <= k < n implies #[trigger] lens@[k] == hops(links_of(e@), e@[k].from, horizon(bound as nat)) by {
                assert(terminal(links_of(e@), cur@[k]));
                lemma_walk_past_terminal(links_of(e@), e@[k].from, reach as nat, horizon(bound as nat));
            }
            assert forall|l: Link| #[trigger] links_of(e@).contains(l) implies terminal(links_of(e@), walk(links_of(e@), l.from, pow2(rounds as nat)))
                && terminal(links_of(e@), walk(links_of(e@), l.from, horizon(bound as nat))) by {
                let k = choose|k: int| 0 <= k < e@.len() && e@[k] == l;
                assert(terminal(links_of(e@), cur@[k]));
                lemma_walk_past_terminal(links_of(e@), e@[k].from, reach as nat, horizon(bound as nat));
            }
        } else {
            let k = choose|k: int| 0 <= k < cur@.len() && !terminal(links_of(e@), #[trigger] cur@[k]);
            assert(reach as nat == horizon(bound as nat));
            assert(!terminal(links_of(e@), walk(links_of(e@), e@[k].from, horizon(bound as nat))));
            assert(links_of(e@).contains(e@[k]));
        }
    }
    if !fin {
        return None;
    }
    let mut links: Vec<Link> = Vec::new();
    let mut i: usize = 0;
    while i < n
        invariant
            n == e@.len(),
            i <= n,
            cur@.len() == n,
            links@.len() == i,
            forall|k: int| 0 <= k < n ==> #[trigger] cur@[k] == walk(links_of(e@), e@[k].from, horizon(bound as nat)),
            forall|k: int| 0 <= k < i ==> #[trigger] links@[k] == (Link {
                from: e@[k].from,
                to: walk(links_of(e@), e@[k].from, horizon(bound as nat)),
            }),
        decreases n - i,
    {
        links.push(Link { from: e[i].from, to: cur[i] });
        i = i + 1;
    }
    proof {
        assert forall|k: nat| #[trigger] settled_within(links_of(e@), pow2(k)) implies rounds <= k by {
            if rounds > k {
                lemma_pow2_monotone(k, (rounds - 1) as nat);
                lemma_settled_monotone(links_of(e@), pow2(k), pow2((rounds - 1) as nat));
            }
        }
    }
    Some(Collapsed { links, lengths: lens, rounds })
}

/// `a` is the first node of a path of `s`: a pointer leaves it and none reaches it.
pub open spec fn path_start(s: Set<Link>, a: NodeId) -> bool {
    (exists|l: Link| s.contains(l) && l.from == a) && !has_pred(s, a)
}

/// One pointer per maximal path of `s`, from its first node to its last.
pub open spec fn fused(s: Set<Link>, bound: nat) -> Set<Link> {
    Set::new(|l: Link| path_start(s, l.from) && l.to == walk(s, l.from, horizon(bound)))
}

/// Whether some pointer of `e` ends at `a`.
fn reached(e: &Vec<Link>, a: NodeId) -> (r: bool)
    ensures
        r == has_pred(links_of(e@), a),
{
    let mut i: usize = 0;
    while i < e.len()
        invariant
            i <= e@.len(),
            forall|k: int| 0 <= k < i ==> (#[trigger] e@[k]).to != a,
        decreases e@.len() - i,
    {
        if e[i].to == a {
            proof {
                assert(links_of(e@).contains(e@[i as int]));
            }
            return true;
        }
        i = i + 1;
    }
    proof {
        if has_pred(links_of(e@), a) {
            let l = choose|l: Link| links_of(e@).contains(l) && l.to == a;
            let k = choose|k: int| 0 <= k < e@.len() && e@[k] == l;
            assert(e@[k].to == a);
        }
    }
    false
}

/// Whether some pointer of `v` leaves `a`.
fn leaves(v: &Vec<Link>, a: NodeId) -> (r: bool)
    ensures
        r == exists|k: int| 0 <= k < v@.len() && (#[trigger] v@[k]).from == a,
{
    let mut i: usize = 0;
    while i < v.len()
        invariant
            i <= v@.len(),
            forall|k: int| 0 <= k < i ==> (#[trigger] v@[k]).from != a,
        decreases v@.len() - i,
    {
        if v[i].from == a {
            return true;
        }
        i = i + 1;
    }
    false
}

/// Fuses every maximal path of `e` into a single pointer from its first node
/// to its last. `e` must hold disjoint paths: at most one pointer leaves and at
/// most one reaches each node. Nothing is returned when a chain does not end
/// within the first power of two not below the number of pointers, that is,
/// when `e` holds a cycle.
pub fn fuse_paths(e: &Vec<Link>) -> (r: Option<Vec<Link>>)
    requires
        functional(links_of(e@)),
        injective(links_of(e@)),
        e@.len() <= usize::MAX / 2,
    ensures
        r is Some <==> settled(links_of(e@), e@.len() as nat),
        r matches Some(v) ==> {
            &&& links_of(v@) == fused(links_of(e@), e@.len() as nat)
            &&& forall|i: int, j: int| 0 <= i < j < v@.len() ==> (#[trigger] v@[i]).from != (#[trigger] v@[j]).from
            &&& functional(links_of(v@))
            &&& injective(links_of(v@))
        },
{
    let ghost s = links_of(e@);
    let ghost n = e@.len() as nat;
    let c = match collapse(e, e.len()) {
        Some(c) => c,
        None => {
            return None;
        },
    };
    let mut v: Vec<Link> = Vec::new();
    let mut i: usize = 0;
    while i < e.len()
        invariant
            s == links_of(e@),
            n == e@.len(),
            i <= e@.len(),
            c.links@.len() == e@.len(),
            forall|k: int| 0 <= k < e@.len() ==> #[trigger] c.links@[k] == (Link {
                from: e@[k].from,
                to: walk(s, e@[k].from, horizon(n)),
            }),
            forall|k: int| 0 <= k < v@.len() ==> fused(s, n).contains(#[trigger] v@[k]),
            forall|a: int, b: int| 0 <= a < b < v@.len() ==> (#[trigger] v@[a]).from != (#[trigger] v@[b]).from,
            forall|m: int| 0 <= m < i && path_start(s, #[trigger] e@[m].from)
                ==> exists|k: int| 0 <= k < v@.len() && (#[trigger] v@[k]).from == e@[m].from,
        decreases e@.len() - i,
    {
        let a = e[i].from;
        if !reached(e, a) && !leaves(&v, a) {
            let ghost old_v = v@;
            v.push(c.links[i]);
            proof {
                assert(s.contains(e@[i as int]));
                assert(path_start(s, a));
                assert(v@[old_v.len() as int] == c.links@[i as int]);
                assert forall|k: int| 0 <= k < v@.len() implies fused(s, n).contains(#[trigger] v@[k]) by {
                    if k < old_v.len() {
                        assert(v@[k] == old_v[k]);
                    }
                }
                assert forall|x: int, y: int| 0 <= x < y < v@.len() implies (#[trigger] v@[x]).from != (#[trigger] v@[y]).from by {
                    assert(v@[x] == old_v[x]);
                    if y < old_v.len() {
                        assert(v@[y] == old_v[y]);
                    }
                }
                assert forall|m: int| 0 <= m < i + 1 && path_start(s, #[trigger] e@[m].from)
                    implies exists|k: int| 0 <= k < v@.len() && (#[trigger] v@[k]).from == e@[m].from by {
                    if m < i {
                        let k = choose|k: int| 0 <= k < old_v.len() && (#[trigger] old_v[k]).from == e@[m].from;
                        assert(v@[k] == old_v[k]);
                    } else {
                        assert(v@[old_v.len() as int].from == e@[m].from);
                    }
                }
            }
        } else {
            proof {
                assert forall|m: int| 0 <= m < i + 1 && path_start(s, #[trigger] e@[m].from)
                    implies exists|k: int| 0 <= k < v@.len() && (#[trigger] v@[k]).from == e@[m].from by {
                    if m == i {
                        assert(!has_pred(s, a));
                    }
                }
            }
        }
        i = i + 1;
    }
    proof {
        let f = fused(s, n);
        assert forall|l: Link| links_of(v@).contains(l) <==> f.contains(l) by {
            if links_of(v@).contains(l) {
                let k = choose|k: int| 0 <= k < v@.len() && v@[k] == l;
                assert(f.contains(v@[k]));
            }
            if f.contains(l) {
                let m0 = choose|m0: Link| s.contains(m0) && m0.from == l.from;
                let m = choose|m: int| 0 <= m < e@.len() && e@[m] == m0;
                assert(path_start(s, e@[m].from));
                let k = choose|k: int| 0 <= k < v@.len() && (#[trigger] v@[k]).from == e@[m].from;
                assert(f.contains(v@[k]));
                assert(v@[k] == l);
            }
        }
        assert(links_of(v@) =~= f);
        assert forall|l1: Link, l2: Link|
            #[trigger] f.contains(l1) && #[trigger] f.contains(l2) && l1.to == l2.to implies l1 == l2 by {
            lemma_walks_meet(s, l1.from, l2.from, horizon(n), horizon(n));
        }
    }
    Some(v)
}

/// Fusing the paths of an already fused relation changes nothing.
pub proof fn lemma_fuse_idempotent(s: Set<Link>, n: nat, m: nat)
    requires
        settled(s, n),
    ensures
        fused(fused(s, n), m) == fused(s, n),
{
    let r = fused(s, n);
    let h = horizon(n);
    lemma_horizon(m, 1);
    // Every pointer of `r` ends at the end of a chain of `s`, where nothing of `r` leaves.
    assert forall|l: Link| #[trigger] r.contains(l) implies terminal(s, l.to) && step(r, l.from) == Some(l.to) && terminal(r, l.to) by {
        let m0 = choose|m0: Link| s.contains(m0) && m0.from == l.from;
        assert(terminal(s, walk(s, m0.from, h)));
        let q = choose|q: Link| r.contains(q) && q.from == l.from;
        if exists|q2: Link| r.contains(q2) && q2.from == l.to {
            let q2 = choose|q2: Link| r.contains(q2) && q2.from == l.to;
            let m2 = choose|m2: Link| s.contains(m2) && m2.from == q2.from;
            assert(step(s, l.to) is Some);
        }
    }
    assert forall|l: Link| r.contains(l) <==> #[trigger] fused(r, m).contains(l) by {
        if r.contains(l) {
            assert(!has_pred(r, l.from)) by {
                if has_pred(r, l.from) {
                    let p = choose|p: Link| r.contains(p) && p.to == l.from;
                    let m0 = choose|m0: Link| s.contains(m0) && m0.from == l.from;
                    assert(step(s, l.from) is Some);
                }
            }
            let k = (horizon(m) - 1) as nat;
            assert(walk(r, l.to, k) == l.to);
            assert(walk(r, l.from, horizon(m)) == walk(r, l.to, k));
        }
        if fused(r, m).contains(l) {
            let q = choose|q: Link| r.contains(q) && q.from == l.from;
            let k = (horizon(m) - 1) as nat;
            assert(walk(r, q.to, k) == q.to);
            assert(walk(r, l.from, horizon(m)) == walk(r, q.to, k));
            assert(l == q);
        }
    }
    assert(fused(r, m) =~= r);
}

} // verus!
