//! Properties that relate several calls or hold of every input.
use vstd::prelude::*;
use crate::bag::{net, present, same_net};
use crate::node::{AssignOp, InsertEdge, Link, NodeId};
use crate::rga::{assign_set, insert_set, outcome, remove_set};
use crate::chain::{has_pred, lemma_walks_meet};
use crate::tree::{lemma_next_functional, lemma_next_injective, next_elem, next_links, unique_parents};
use crate::visible::{blank_links, has_value, next_visible, run_end, AssignView};

verus! {

/// Only net multiplicities matter: logs that give every fact the same net
/// multiplicity (re-asserting nothing new, or asserting and retracting within
/// one batch) lead to the same outcome, down to the emitted sequence.
pub proof fn lemma_net_determines_outcome(
    ins1: Seq<(InsertEdge, i32)>,
    ins2: Seq<(InsertEdge, i32)>,
    rem1: Seq<(NodeId, i32)>,
    rem2: Seq<(NodeId, i32)>,
    asg1: Seq<(AssignOp, i32)>,
    asg2: Seq<(AssignOp, i32)>,
)
    requires
        same_net(ins1, ins2),
        same_net(rem1, rem2),
        same_net(asg1, asg2),
    ensures
        outcome(insert_set(ins1), remove_set(rem1), assign_set(asg1))
            == outcome(insert_set(ins2), remove_set(rem2), assign_set(asg2)),
{
    assert(insert_set(ins1) =~= insert_set(ins2));
    assert(remove_set(rem1) =~= remove_set(rem2));
    assert forall|f: AssignView| assign_set(asg1).contains(f) <==> assign_set(asg2).contains(f) by {
        assert(net(asg1, f) == net(asg2, f));
    }
    assert(assign_set(asg1) =~= assign_set(asg2));
}

/// Appending an update and its retraction leaves every net multiplicity as it was.
pub proof fn lemma_retraction_cancels<T: View>(log: Seq<(T, i32)>, f: T, m: i32, n: i32)
    requires
        m + n == 0,
    ensures
        same_net(log, log.push((f, m)).push((f, n))),
{
    let l1 = log.push((f, m));
    let l2 = l1.push((f, n));
    assert(l2.drop_last() =~= l1);
    assert(l1.drop_last() =~= log);
    assert forall|g: T::V| #[trigger] net(log, g) == net(l2, g) by {
        assert(l2.last() == (f, n));
        assert(l1.last() == (f, m));
        assert(net(l2, g) == net(l1, g) + if f@ == g { n as int } else { 0 });
        assert(net(l1, g) == net(log, g) + if f@ == g { m as int } else { 0 });
    }
}

/// Re-asserting a fact that is already present leaves the present facts as they were.
pub proof fn lemma_reassert_keeps_presence<T: View>(log: Seq<(T, i32)>, f: T, m: i32)
    requires
        present(log, f@),
        m >= 0,
    ensures
        forall|g: T::V| present(log, g) <==> #[trigger] present(log.push((f, m)), g),
{
    let l1 = log.push((f, m));
    assert(l1.drop_last() =~= log);
    assert forall|g: T::V| present(log, g) <==> #[trigger] present(l1, g) by {}
}

/// With one parent per node, no node has two visible successors.
pub proof fn lemma_visible_functional(
    ins: Set<InsertEdge>,
    bound: nat,
    rem: Set<NodeId>,
    asg: Set<AssignView>,
    a: NodeId,
    b1: NodeId,
    b2: NodeId,
)
    requires
        unique_parents(ins),
        next_visible(ins, bound, rem, asg, a, b1),
        next_visible(ins, bound, rem, asg, a, b2),
    ensures
        b1 == b2,
{
    lemma_next_functional(ins, bound);
    let x1 = choose|x: NodeId| #[trigger] next_elem(ins, bound, a, x) && run_end(ins, bound, rem, asg, x) == b1;
    let x2 = choose|x: NodeId| #[trigger] next_elem(ins, bound, a, x) && run_end(ins, bound, rem, asg, x) == b2;
    assert(next_links(ins, bound).contains(Link { from: a, to: x1 }));
    assert(next_links(ins, bound).contains(Link { from: a, to: x2 }));
}

/// With one parent per node, no node has two visible predecessors.
pub proof fn lemma_visible_injective(
    ins: Set<InsertEdge>,
    bound: nat,
    rem: Set<NodeId>,
    asg: Set<AssignView>,
    a1: NodeId,
    a2: NodeId,
    b: NodeId,
)
    requires
        unique_parents(ins),
        next_visible(ins, bound, rem, asg, a1, b),
        next_visible(ins, bound, rem, asg, a2, b),
    ensures
        a1 == a2,
{
    lemma_next_injective(ins, bound);
    let nl = next_links(ins, bound);
    let bl = blank_links(ins, bound, rem, asg);
    let x1 = choose|x: NodeId| #[trigger] next_elem(ins, bound, a1, x) && run_end(ins, bound, rem, asg, x) == b;
    let x2 = choose|x: NodeId| #[trigger] next_elem(ins, bound, a2, x) && run_end(ins, bound, rem, asg, x) == b;
    assert(nl.contains(Link { from: a1, to: x1 }));
    assert(nl.contains(Link { from: a2, to: x2 }));
    assert forall|l1: Link, l2: Link| #[trigger] bl.contains(l1) && #[trigger] bl.contains(l2) && l1.to == l2.to implies l1 == l2 by {
        assert(nl.contains(l1) && nl.contains(l2));
    }
    assert(!has_pred(bl, x1)) by {
        if has_pred(bl, x1) {
            let l = choose|l: Link| bl.contains(l) && l.to == x1;
            assert(nl.contains(l));
        }
    }
    assert(!has_pred(bl, x2)) by {
        if has_pred(bl, x2) {
            let l = choose|l: Link| bl.contains(l) && l.to == x2;
            assert(nl.contains(l));
        }
    }
    lemma_walks_meet(bl, x1, x2, crate::chain::horizon(bound), crate::chain::horizon(bound));
}

/// An element without a surviving value is never an endpoint of a visible step.
pub proof fn lemma_tombstone_transparent(
    ins: Set<InsertEdge>,
    bound: nat,
    rem: Set<NodeId>,
    asg: Set<AssignView>,
    e: NodeId,
    other: NodeId,
)
    requires
        !has_value(rem, asg, e),
    ensures
        !next_visible(ins, bound, rem, asg, e, other),
        !next_visible(ins, bound, rem, asg, other, e),
{
}

} // verus!
