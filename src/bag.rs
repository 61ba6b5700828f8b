//! Facts with integer multiplicities: a fact is present when its asserted
//! occurrences outnumber its retractions.
use vstd::prelude::*;

verus! {

/// A fact that can be compared and copied through its view.
pub trait Fact: View + Sized {
    fn same(&self, other: &Self) -> (r: bool)
        ensures
            r == (self@ == other@);

    fn duplicate(&self) -> (r: Self)
        ensures
            r@ == self@;
}

/// The net multiplicity of `f` in a log of (fact, multiplicity) updates.
pub open spec fn net<T: View>(log: Seq<(T, i32)>, f: T::V) -> int
    decreases log.len(),
{
    if log.len() == 0 {
        0
    } else {
        net(log.drop_last(), f) + if log.last().0@ == f {
            log.last().1 as int
        } else {
            0
        }
    }
}

/// `f` is asserted more often than it is retracted.
pub open spec fn present<T: View>(log: Seq<(T, i32)>, f: T::V) -> bool {
    net(log, f) > 0
}

/// `f` counts: its net multiplicity is positive, or with `any_sign` nonzero.
pub open spec fn counted<T: View>(log: Seq<(T, i32)>, f: T::V, any_sign: bool) -> bool {
    if any_sign {
        net(log, f) != 0
    } else {
        net(log, f) > 0
    }
}

/// Two logs that give every fact the same net multiplicity.
pub open spec fn same_net<T: View>(a: Seq<(T, i32)>, b: Seq<(T, i32)>) -> bool {
    forall|f: T::V| #[trigger] net(a, f) == net(b, f)
}

/// The views of a sequence of facts, as a set.
pub open spec fn view_set<T: View>(s: Seq<T>) -> Set<T::V> {
    Set::new(|f: T::V| exists|i: int| 0 <= i < s.len() && s[i]@ == f)
}

/// No two entries have the same view.
pub open spec fn distinct_views<T: View>(s: Seq<T>) -> bool {
    forall|i: int, j: int| 0 <= i < s.len() && 0 <= j < s.len() && i != j ==> s[i]@ != s[j]@
}

proof fn lemma_net_bound<T: View>(log: Seq<(T, i32)>, f: T::V)
    ensures
        -(log.len() as int) * 0x8000_0000 <= net(log, f) <= (log.len() as int) * 0x8000_0000,
    decreases log.len(),
{
    if log.len() > 0 {
        lemma_net_bound(log.drop_last(), f);
    }
}

/// The net multiplicity of `f` in `log`.
fn net_of<T: Fact>(log: &Vec<(T, i32)>, f: &T) -> (r: i64)
    requires
        log@.len() <= 0x8000_0000,
    ensures
        r == net(log@, f@),
{
    let mut sum: i64 = 0;
    let mut i: usize = 0;
    while i < log.len()
        invariant
            i <= log@.len(),
            log@.len() <= 0x8000_0000,
            sum == net(log@.subrange(0, i as int), f@),
        decreases log@.len() - i,
    {
        proof {
            let pre = log@.subrange(0, i as int + 1);
            assert(pre.drop_last() =~= log@.subrange(0, i as int));
            lemma_net_bound(log@.subrange(0, i as int), f@);
            lemma_net_bound(pre, f@);
        }
        if log[i].0.same(f) {
            sum = sum + log[i].1 as i64;
        }
        i = i + 1;
    }
    assert(log@.subrange(0, log@.len() as int) =~= log@);
    sum
}

/// The facts counted in `log`, each once: those with a positive net
/// multiplicity, or with `any_sign` those with a nonzero one.
pub fn consolidate<T: Fact>(log: &Vec<(T, i32)>, any_sign: bool) -> (r: Vec<T>)
    requires
        log@.len() <= 0x8000_0000,
    ensures
        distinct_views(r@),
        r@.len() <= log@.len(),
        forall|f: T::V| #[trigger] view_set(r@).contains(f) <==> counted(log@, f, any_sign),
{
    let mut r: Vec<T> = Vec::new();
    let mut i: usize = 0;
    while i < log.len()
        invariant
            i <= log@.len(),
            log@.len() <= 0x8000_0000,
            r@.len() <= i,
            distinct_views(r@),
            forall|k: int| 0 <= k < r@.len() ==> counted(log@, #[trigger] r@[k]@, any_sign),
            forall|k: int| 0 <= k < i && counted(log@, #[trigger] log@[k].0@, any_sign) ==> view_set(r@).contains(log@[k].0@),
            forall|k: int| 0 <= k < r@.len() ==> exists|j: int| 0 <= j < i && log@[j].0@ == #[trigger] r@[k]@,
        decreases log@.len() - i,
    {
        let mut seen = false;
        let mut k: usize = 0;
        while k < r.len()
            invariant
                k <= r@.len(),
                seen ==> view_set(r@).contains(log@[i as int].0@),
                !seen ==> forall|m: int| 0 <= m < k ==> r@[m]@ != log@[i as int].0@,
                i < log@.len(),
            decreases r@.len() - k,
        {
            if r[k].same(&log[i].0) {
                seen = true;
            }
            k = k + 1;
        }
        let m = net_of(log, &log[i].0);
        if !seen && (if any_sign { m != 0 } else { m > 0 }) {
            let f = log[i].0.duplicate();
            let ghost old_r = r@;
            r.push(f);
            proof {
                assert(r@[old_r.len() as int]@ == log@[i as int].0@);
                assert forall|k: int| 0 <= k < r@.len() implies exists|j: int| 0 <= j < i + 1 && log@[j].0@ == #[trigger] r@[k]@ by {
                    if k < old_r.len() {
                        assert(r@[k] == old_r[k]);
                    } else {
                        assert(log@[i as int].0@ == r@[k]@);
                    }
                }
                assert forall|k: int| 0 <= k < i + 1 && counted(log@, #[trigger] log@[k].0@, any_sign) implies view_set(r@).contains(log@[k].0@) by {
                    if k < i {
                        let m = choose|m: int| 0 <= m < old_r.len() && old_r[m]@ == log@[k].0@;
                        assert(r@[m] == old_r[m]);
                    } else {
                        assert(r@[old_r.len() as int]@ == log@[k].0@);
                    }
                }
            }
        }
        i = i + 1;
    }
    proof {
        assert forall|f: T::V| view_set(r@).contains(f) <==> counted(log@, f, any_sign) by {
            if view_set(r@).contains(f) {
                let m = choose|m: int| 0 <= m < r@.len() && r@[m]@ == f;
                assert(counted(log@, r@[m]@, any_sign));
            }
            if counted(log@, f, any_sign) {
                lemma_present_has_entry(log@, f);
                let k = choose|k: int| 0 <= k < log@.len() && log@[k].0@ == f;
                assert(counted(log@, log@[k].0@, any_sign));
            }
        }
    }
    r
}

/// Adds `x` to `v` unless an entry with the same view is already there.
pub fn insert_unique<T: Fact>(v: &mut Vec<T>, x: T)
    requires
        distinct_views(old(v)@),
    ensures
        distinct_views(final(v)@),
        view_set(final(v)@) == view_set(old(v)@).insert(x@),
{
    let mut i: usize = 0;
    while i < v.len()
        invariant
            i <= v@.len(),
            distinct_views(v@),
            forall|k: int| 0 <= k < i ==> v@[k]@ != x@,
        decreases v@.len() - i,
    {
        if v[i].same(&x) {
            proof {
                assert(view_set(v@) =~= view_set(v@).insert(x@));
            }
            return;
        }
        i = i + 1;
    }
    let ghost old_v = v@;
    v.push(x);
    proof {
        assert(v@[old_v.len() as int]@ == x@);
        assert forall|f: T::V| view_set(v@).contains(f) <==> view_set(old_v).insert(x@).contains(f) by {
            if view_set(old_v).contains(f) {
                let k = choose|k: int| 0 <= k < old_v.len() && old_v[k]@ == f;
                assert(v@[k] == old_v[k]);
            }
            if view_set(v@).contains(f) && f != x@ {
                let k = choose|k: int| 0 <= k < v@.len() && v@[k]@ == f;
                assert(old_v[k] == v@[k]);
            }
        }
        assert(view_set(v@) =~= view_set(old_v).insert(x@));
        assert forall|a: int, b: int| 0 <= a < v@.len() && 0 <= b < v@.len() && a != b implies v@[a]@ != v@[b]@ by {
            if a < old_v.len() && b < old_v.len() {
                assert(v@[a] == old_v[a] && v@[b] == old_v[b]);
            } else if a < old_v.len() {
                assert(v@[a] == old_v[a]);
            } else if b < old_v.len() {
                assert(v@[b] == old_v[b]);
            }
        }
    }
}

proof fn lemma_present_has_entry<T: View>(log: Seq<(T, i32)>, f: T::V)
    requires
        net(log, f) != 0,
    ensures
        exists|k: int| 0 <= k < log.len() && log[k].0@ == f,
    decreases log.len(),
{
    if log.last().0@ == f {
        assert(log[log.len() - 1].0@ == f);
    } else {
        lemma_present_has_entry(log.drop_last(), f);
        let k = choose|k: int| 0 <= k < log.len() - 1 && log.drop_last()[k].0@ == f;
        assert(log[k] == log.drop_last()[k]);
    }
}

} // verus!
