//! The whole pipeline: from the three update logs (inserts, removes,
//! assignments) to the visible sequence as (prev, next, value) steps.
use vstd::prelude::*;
use crate::bag::{net, consolidate, distinct_views, present, view_set, Fact};
use crate::chain::{horizon, links_of, settled, walk};
use crate::node::{AssignOp, InsertEdge, Link, NodeId};
use crate::chain::collapse;
use crate::tree::{check_unique_parents, climb_links, parent_links, parent_pointers, lemma_next_functional, next_elem, next_elements, next_links, unique_parents};
use crate::visible::{
    blank_links, blank_of, current_value, emitted, has_value, run_end, steps_of, surviving, valued_in, visible_steps,
    AssignView, Emitted,
};

verus! {

/// Why a set of insert edges does not describe a forest.
#[derive(Clone, Copy, Debug, PartialEq, Eq, Structural)]
pub enum StructureError {
    /// Some node was inserted under two different parents.
    MultipleParents,
    /// A chain of parent, last-child or blank-run pointers does not end: the
    /// edges hold a cycle.
    Cycle,
}

/// The insert edges present in a log.
pub open spec fn insert_set(log: Seq<(InsertEdge, i32)>) -> Set<InsertEdge> {
    Set::new(|e: InsertEdge| present(log, e))
}

/// The remove markers in force in a log: those with a nonzero net
/// multiplicity, as an antijoin keeps only rows whose key nets to zero.
pub open spec fn remove_set(log: Seq<(NodeId, i32)>) -> Set<NodeId> {
    Set::new(|id: NodeId| net(log, id) != 0)
}

/// The assignments present in a log.
pub open spec fn assign_set(log: Seq<(AssignOp, i32)>) -> Set<AssignView> {
    Set::new(|f: AssignView| present(log, f))
}

/// What the present facts give: the visible steps, or why the edges are not a forest.
pub open spec fn outcome(
    ins: Set<InsertEdge>,
    rem: Set<NodeId>,
    asg: Set<AssignView>,
) -> Result<Set<(NodeId, NodeId, Seq<char>)>, StructureError> {
    let n = ins.len();
    if !unique_parents(ins) {
        Err(StructureError::MultipleParents)
    } else if !settled(parent_links(ins), n) || !settled(climb_links(ins), n) || !settled(blank_links(ins, n, rem, asg), n) {
        Err(StructureError::Cycle)
    } else {
        Ok(emitted(ins, n, rem, asg))
    }
}

/// Records the insertion of `child` under `parent`, which also assigns the
/// empty value to `child` under an operation named by `child` itself.
pub fn record_insert(
    insert: &mut Vec<(InsertEdge, i32)>,
    assign: &mut Vec<(AssignOp, i32)>,
    child: NodeId,
    parent: NodeId,
)
    ensures
        final(insert)@ == old(insert)@.push((InsertEdge { child, parent }, 1)),
        final(assign)@.len() == old(assign)@.len() + 1,
        final(assign)@.drop_last() == old(assign)@,
        final(assign)@.last().0@ == (child, child, Seq::<char>::empty()),
        final(assign)@.last().1 == 1,
{
    insert.push((InsertEdge { child, parent }, 1));
    assign.push((AssignOp { op: child, elem: child, value: String::new() }, 1));
    proof {
        assert(assign@.drop_last() =~= old(assign)@);
    }
}

/// The pre-order successor relation of the insert edges present in a log.
pub fn pre_order(insert: &Vec<(InsertEdge, i32)>) -> (r: Result<Vec<Link>, StructureError>)
    requires
        insert@.len() < 0x8000_0000,
    ensures
        match r {
            Ok(v) => {
                &&& unique_parents(insert_set(insert@))
                &&& settled(parent_links(insert_set(insert@)), insert_set(insert@).len())
                &&& settled(climb_links(insert_set(insert@)), insert_set(insert@).len())
                &&& links_of(v@) == next_links(insert_set(insert@), insert_set(insert@).len())
            },
            Err(e) => e == (if !unique_parents(insert_set(insert@)) {
                StructureError::MultipleParents
            } else {
                StructureError::Cycle
            }) && (e == StructureError::Cycle ==> !settled(parent_links(insert_set(insert@)), insert_set(insert@).len())
                || !settled(climb_links(insert_set(insert@)), insert_set(insert@).len())),
        },
{
    let ins = consolidate(insert, false);
    let ghost iset = insert_set(insert@);
    let n = ins.len();
    proof {
        assert(view_set(ins@) =~= iset);
        assert(view_set(ins@) =~= ins@.to_set());
        ins@.unique_seq_to_set();
    }
    if !check_unique_parents(&ins) {
        return Err(StructureError::MultipleParents);
    }
    if collapse(&parent_pointers(&ins), n).is_none() {
        return Err(StructureError::Cycle);
    }
    match next_elements(&ins, n) {
        Some(v) => Ok(v),
        None => Err(StructureError::Cycle),
    }
}

/// Materialises the visible sequence from the three update logs. Each log
/// holds facts with their multiplicities; a fact counts when its net
/// multiplicity is positive.
pub fn materialize(
    insert: &Vec<(InsertEdge, i32)>,
    remove: &Vec<(NodeId, i32)>,
    assign: &Vec<(AssignOp, i32)>,
) -> (r: Result<Vec<Emitted>, StructureError>)
    requires
        insert@.len() < 0x8000_0000,
        remove@.len() < 0x8000_0000,
        assign@.len() < 0x8000_0000,
    ensures
        match r {
            Ok(v) => distinct_views(v@) && outcome(insert_set(insert@), remove_set(remove@), assign_set(assign@))
                == Ok::<Set<(NodeId, NodeId, Seq<char>)>, StructureError>(view_set(v@)),
            Err(e) => outcome(insert_set(insert@), remove_set(remove@), assign_set(assign@))
                == Err::<Set<(NodeId, NodeId, Seq<char>)>, StructureError>(e),
        },
{
    let ins = consolidate(insert, false);
    let rem = consolidate(remove, true);
    let asg = consolidate(assign, false);
    let ghost iset = insert_set(insert@);
    let ghost rset = remove_set(remove@);
    let ghost aset = assign_set(assign@);
    let n = ins.len();
    proof {
        assert(view_set(ins@) =~= iset);
        assert(view_set(rem@) =~= rset);
        assert(view_set(asg@) =~= aset);
        assert(view_set(ins@) =~= ins@.to_set());
        assert(ins@.no_duplicates());
        ins@.unique_seq_to_set();
        assert(iset.len() == n);
    }
    if !check_unique_parents(&ins) {
        return Err(StructureError::MultipleParents);
    }
    if collapse(&parent_pointers(&ins), n).is_none() {
        return Err(StructureError::Cycle);
    }
    let next = match next_elements(&ins, n) {
        Some(v) => v,
        None => {
            return Err(StructureError::Cycle);
        },
    };
    let cur = surviving(&asg, &rem);
    proof {
        lemma_next_functional(iset, n as nat);
        assert forall|e: NodeId| valued_in(cur@, e) <==> has_value(rset, aset, e) by {
            if valued_in(cur@, e) {
                let k = choose|k: int| 0 <= k < cur@.len() && #[trigger] cur@[k].elem == e;
                assert(current_value(rset, aset, e, cur@[k].value@));
            }
            if has_value(rset, aset, e) {
                let v = choose|v: Seq<char>| current_value(rset, aset, e, v);
                assert(current_value(rset, aset, e, v));
            }
        }
        assert(blank_of(next@, cur@) =~= blank_links(iset, n as nat, rset, aset));
    }
    let steps = match visible_steps(&next, &cur, n) {
        Some(v) => v,
        None => {
            return Err(StructureError::Cycle);
        },
    };
    proof {
        let target = emitted(iset, n as nat, rset, aset);
        assert forall|t: (NodeId, NodeId, Seq<char>)| steps_of(next@, cur@, n as nat).contains(t) <==> target.contains(t) by {
            if steps_of(next@, cur@, n as nat).contains(t) {
                let k = choose|k: int| 0 <= k < cur@.len() && #[trigger] cur@[k].elem == t.1 && cur@[k].value@ == t.2;
                assert(current_value(rset, aset, t.1, t.2));
                assert(valued_in(cur@, t.1));
                let x = choose|x: NodeId| #[trigger] links_of(next@).contains(Link { from: t.0, to: x })
                    && walk(blank_of(next@, cur@), x, horizon(n as nat)) == t.1;
                assert(next_links(iset, n as nat).contains(Link { from: t.0, to: x }));
                assert(next_elem(iset, n as nat, t.0, x));
            }
            if target.contains(t) {
                let k = choose|k: int| 0 <= k < cur@.len() && cur@[k].elem == t.1 && cur@[k].value@ == t.2;
                assert(cur@[k].elem == t.1);
                let x = choose|x: NodeId| #[trigger] next_elem(iset, n as nat, t.0, x)
                    && run_end(iset, n as nat, rset, aset, x) == t.1;
                assert(next_links(iset, n as nat).contains(Link { from: t.0, to: x }));
                assert(links_of(next@).contains(Link { from: t.0, to: x }));
            }
        }
        assert(steps_of(next@, cur@, n as nat) =~= target);
    }
    Ok(steps)
}

/// Whether some entry of `v` has the view of `x`.
fn holds(v: &Vec<Emitted>, x: &Emitted) -> (r: bool)
    ensures
        r == view_set(v@).contains(x@),
{
    let mut i: usize = 0;
    while i < v.len()
        invariant
            i <= v@.len(),
            forall|k: int| 0 <= k < i ==> v@[k]@ != x@,
        decreases v@.len() - i,
    {
        if v[i].same(x) {
            return true;
        }
        i = i + 1;
    }
    false
}

/// Whether some update of `r` is for the step `x`.
fn listed(r: &Vec<(Emitted, i32)>, x: &Emitted) -> (b: bool)
    ensures
        b == exists|k: int| 0 <= k < r@.len() && #[trigger] r@[k].0@ == x@,
{
    let mut i: usize = 0;
    while i < r.len()
        invariant
            i <= r@.len(),
            forall|k: int| 0 <= k < i ==> (#[trigger] r@[k]).0@ != x@,
        decreases r@.len() - i,
    {
        if r[i].0.same(x) {
            return true;
        }
        i = i + 1;
    }
    false
}

/// The change from one materialised sequence to the next, as updates with
/// multiplicities: each step that appeared with `+1`, each step that went
/// away with `-1`.
pub fn changes(before: &Vec<Emitted>, after: &Vec<Emitted>) -> (r: Vec<(Emitted, i32)>)
    ensures
        forall|k: int| 0 <= k < r@.len() ==> {
            let (x, m) = #[trigger] r@[k];
            ||| m == 1 && view_set(after@).contains(x@) && !view_set(before@).contains(x@)
            ||| m == -1 && view_set(before@).contains(x@) && !view_set(after@).contains(x@)
        },
        forall|t: (NodeId, NodeId, Seq<char>)| view_set(after@).contains(t) && !view_set(before@).contains(t)
            ==> exists|k: int| 0 <= k < r@.len() && #[trigger] r@[k].0@ == t && r@[k].1 == 1,
        forall|t: (NodeId, NodeId, Seq<char>)| view_set(before@).contains(t) && !view_set(after@).contains(t)
            ==> exists|k: int| 0 <= k < r@.len() && #[trigger] r@[k].0@ == t && r@[k].1 == -1,
        forall|a: int, b: int| 0 <= a < b < r@.len() ==> (#[trigger] r@[a]).0@ != (#[trigger] r@[b]).0@,
{
    let mut r: Vec<(Emitted, i32)> = Vec::new();
    let mut i: usize = 0;
    while i < after.len()
        invariant
            i <= after@.len(),
            forall|a: int, b: int| 0 <= a < b < r@.len() ==> (#[trigger] r@[a]).0@ != (#[trigger] r@[b]).0@,
            forall|k: int| 0 <= k < r@.len() ==> {
                let (x, m) = #[trigger] r@[k];
                m == 1 && view_set(after@).contains(x@) && !view_set(before@).contains(x@)
            },
            forall|j: int| 0 <= j < i && !view_set(before@).contains(#[trigger] after@[j]@)
                ==> exists|k: int| 0 <= k < r@.len() && #[trigger] r@[k].0@ == after@[j]@ && r@[k].1 == 1,
        decreases after@.len() - i,
    {
        proof {
            assert(view_set(after@).contains(after@[i as int]@));
        }
        if !holds(before, &after[i]) && !listed(&r, &after[i]) {
            let ghost old_r = r@;
            r.push((after[i].duplicate(), 1));
            proof {
                assert(r@[old_r.len() as int].0@ == after@[i as int]@);
                assert forall|a: int, b: int| 0 <= a < b < r@.len() implies (#[trigger] r@[a]).0@ != (#[trigger] r@[b]).0@ by {
                    assert(r@[a] == old_r[a]);
                    if b < old_r.len() {
                        assert(r@[b] == old_r[b]);
                    }
                }
                assert forall|j: int| 0 <= j < i + 1 && !view_set(before@).contains(#[trigger] after@[j]@)
                    implies exists|k: int| 0 <= k < r@.len() && #[trigger] r@[k].0@ == after@[j]@ && r@[k].1 == 1 by {
                    if j < i {
                        let k = choose|k: int| 0 <= k < old_r.len() && #[trigger] old_r[k].0@ == after@[j]@ && old_r[k].1 == 1;
                        assert(r@[k] == old_r[k]);
                    } else {
                        assert(r@[old_r.len() as int].0@ == after@[j]@);
                    }
                }
                assert forall|k: int| 0 <= k < r@.len() implies {
                    let (x, m) = #[trigger] r@[k];
                    m == 1 && view_set(after@).contains(x@) && !view_set(before@).contains(x@)
                } by {
                    if k < old_r.len() {
                        assert(r@[k] == old_r[k]);
                    }
                }
            }
        }
        i = i + 1;
    }
    let ghost added = r@;
    let mut i: usize = 0;
    while i < before.len()
        invariant
            i <= before@.len(),
            forall|a: int, b: int| 0 <= a < b < r@.len() ==> (#[trigger] r@[a]).0@ != (#[trigger] r@[b]).0@,
            added.len() <= r@.len(),
            forall|k: int| 0 <= k < added.len() ==> r@[k] == added[k],
            forall|k: int| 0 <= k < added.len() ==> {
                let (x, m) = #[trigger] added[k];
                m == 1 && view_set(after@).contains(x@) && !view_set(before@).contains(x@)
            },
            forall|k: int| added.len() <= k < r@.len() ==> {
                let (x, m) = #[trigger] r@[k];
                m == -1 && view_set(before@).contains(x@) && !view_set(after@).contains(x@)
            },
            forall|j: int| 0 <= j < after@.len() && !view_set(before@).contains(#[trigger] after@[j]@)
                ==> exists|k: int| 0 <= k < added.len() && #[trigger] added[k].0@ == after@[j]@ && added[k].1 == 1,
            forall|j: int| 0 <= j < i && !view_set(after@).contains(#[trigger] before@[j]@)
                ==> exists|k: int| 0 <= k < r@.len() && #[trigger] r@[k].0@ == before@[j]@ && r@[k].1 == -1,
        decreases before@.len() - i,
    {
        proof {
            assert(view_set(before@).contains(before@[i as int]@));
        }
        let out = !holds(after, &before[i]);
        let seen = listed(&r, &before[i]);
        proof {
            if out && seen {
                let k = choose|k: int| 0 <= k < r@.len() && #[trigger] r@[k].0@ == before@[i as int]@;
                if k < added.len() {
                    assert(r@[k] == added[k]);
                }
                assert(r@[k].1 == -1);
            }
        }
        if out && !seen {
            let ghost old_r = r@;
            r.push((before[i].duplicate(), -1));
            proof {
                assert(r@[old_r.len() as int].0@ == before@[i as int]@);
                assert forall|a: int, b: int| 0 <= a < b < r@.len() implies (#[trigger] r@[a]).0@ != (#[trigger] r@[b]).0@ by {
                    assert(r@[a] == old_r[a]);
                    if b < old_r.len() {
                        assert(r@[b] == old_r[b]);
                    }
                }
                assert forall|j: int| 0 <= j < i + 1 && !view_set(after@).contains(#[trigger] before@[j]@)
                    implies exists|k: int| 0 <= k < r@.len() && #[trigger] r@[k].0@ == before@[j]@ && r@[k].1 == -1 by {
                    if j < i {
                        let k = choose|k: int| 0 <= k < old_r.len() && #[trigger] old_r[k].0@ == before@[j]@ && old_r[k].1 == -1;
                        assert(r@[k] == old_r[k]);
                    } else {
                        assert(r@[old_r.len() as int].0@ == before@[j]@);
                    }
                }
                assert forall|k: int| added.len() <= k < r@.len() implies {
                    let (x, m) = #[trigger] r@[k];
                    m == -1 && view_set(before@).contains(x@) && !view_set(after@).contains(x@)
                } by {
                    if k < old_r.len() {
                        assert(r@[k] == old_r[k]);
                    }
                }
            }
        }
        i = i + 1;
    }
    proof {
        assert forall|k: int| 0 <= k < r@.len() implies {
            let (x, m) = #[trigger] r@[k];
            ||| m == 1 && view_set(after@).contains(x@) && !view_set(before@).contains(x@)
            ||| m == -1 && view_set(before@).contains(x@) && !view_set(after@).contains(x@)
        } by {
            if k < added.len() {
                assert(r@[k] == added[k]);
            }
        }
        assert forall|t: (NodeId, NodeId, Seq<char>)| view_set(after@).contains(t) && !view_set(before@).contains(t)
            implies exists|k: int| 0 <= k < r@.len() && #[trigger] r@[k].0@ == t && r@[k].1 == 1 by {
            let j = choose|j: int| 0 <= j < after@.len() && after@[j]@ == t;
            assert(!view_set(before@).contains(after@[j]@));
            let k = choose|k: int| 0 <= k < added.len() && #[trigger] added[k].0@ == after@[j]@ && added[k].1 == 1;
            assert(r@[k] == added[k]);
        }
        assert forall|t: (NodeId, NodeId, Seq<char>)| view_set(before@).contains(t) && !view_set(after@).contains(t)
            implies exists|k: int| 0 <= k < r@.len() && #[trigger] r@[k].0@ == t && r@[k].1 == -1 by {
            let j = choose|j: int| 0 <= j < before@.len() && before@[j]@ == t;
            assert(!view_set(after@).contains(before@[j]@));
        }
    }
    r
}

} // verus!
