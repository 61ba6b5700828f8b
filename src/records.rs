//! Trace records: lines of whitespace-separated unsigned decimal fields.
//! An insert record is `id_counter id_replica ref_counter ref_replica` (the new
//! node, then its parent); a remove record is `ref_counter ref_replica`.
//! Fields after the expected ones are ignored.
use vstd::prelude::*;
use vstd::string::StringSliceAdditionalSpecFns;
use crate::node::NodeId;

verus! {

pub open spec fn is_space(b: u8) -> bool {
    b == 32 || (9 <= b && b <= 13)
}

pub open spec fn is_digit(b: u8) -> bool {
    48 <= b && b <= 57
}

/// The maximal runs of non-space bytes of `s`, in order.
pub open spec fn fields(s: Seq<u8>) -> Seq<Seq<u8>>
    decreases s.len(),
{
    if s.len() == 0 {
        Seq::empty()
    } else {
        let t = s.drop_last();
        let b = s.last();
        let f = fields(t);
        if is_space(b) {
            f
        } else if t.len() > 0 && !is_space(t.last()) {
            f.drop_last().push(f.last().push(b))
        } else {
            f.push(seq![b])
        }
    }
}

/// The value of a string of decimal digits.
pub open spec fn dec(t: Seq<u8>) -> nat
    decreases t.len(),
{
    if t.len() == 0 {
        0
    } else {
        10 * dec(t.drop_last()) + (t.last() - 48) as nat
    }
}

/// `t` is a decimal number that fits in 64 bits.
pub open spec fn numeric(t: Seq<u8>) -> bool {
    &&& forall|i: int| 0 <= i < t.len() ==> is_digit(#[trigger] t[i])
    &&& dec(t) <= u64::MAX
}

/// `s` holds at least `count` fields, the first `count` of them numeric.
pub open spec fn record_ok(s: Seq<u8>, count: nat) -> bool {
    &&& fields(s).len() >= count
    &&& forall|i: int| 0 <= i < count ==> numeric(#[trigger] fields(s)[i])
}

proof fn lemma_dec_prefix(t: Seq<u8>, j: int)
    requires
        0 <= j <= t.len(),
        forall|i: int| 0 <= i < t.len() ==> is_digit(#[trigger] t[i]),
    ensures
        dec(t.subrange(0, j)) <= dec(t),
    decreases t.len(),
{
    if j < t.len() {
        let u = t.drop_last();
        assert(u.subrange(0, j) =~= t.subrange(0, j));
        assert forall|i: int| 0 <= i < u.len() implies is_digit(#[trigger] u[i]) by {
            assert(u[i] == t[i]);
        }
        lemma_dec_prefix(u, j);
    } else {
        assert(t.subrange(0, j) =~= t);
    }
}

/// The value of `t`, if it is a decimal number that fits in 64 bits.
fn parse_decimal(t: &Vec<u8>) -> (r: Option<u64>)
    ensures
        r is Some <==> numeric(t@),
        r matches Some(v) ==> v == dec(t@),
{
    let mut v: u64 = 0;
    let mut i: usize = 0;
    while i < t.len()
        invariant
            i <= t@.len(),
            v == dec(t@.subrange(0, i as int)),
            forall|k: int| 0 <= k < i ==> is_digit(#[trigger] t@[k]),
        decreases t@.len() - i,
    {
        let b = t[i];
        let ghost pre = t@.subrange(0, i as int + 1);
        proof {
            assert(pre.drop_last() =~= t@.subrange(0, i as int));
            assert(pre.last() == b);
        }
        if b < 48 || b > 57 {
            return None;
        }
        let d = (b - 48) as u64;
        if v > (u64::MAX - d) / 10 {
            proof {
                assert(v * 10 + d > u64::MAX) by (nonlinear_arith)
                    requires
                        v > (u64::MAX - d) / 10,
                        d <= 9,
                ;
                if forall|k: int| 0 <= k < t@.len() ==> is_digit(#[trigger] t@[k]) {
                    lemma_dec_prefix(t@, i as int + 1);
                }
            }
            return None;
        }
        proof {
            assert(v * 10 + d <= u64::MAX) by (nonlinear_arith)
                requires
                    v <= (u64::MAX - d) / 10,
                    d <= 9,
            ;
        }
        v = v * 10 + d;
        i = i + 1;
    }
    assert(t@.subrange(0, t@.len() as int) =~= t@);
    Some(v)
}

/// The views of a sequence of byte vectors.
pub open spec fn views(d: Seq<Vec<u8>>) -> Seq<Seq<u8>> {
    Seq::new(d.len(), |k: int| d[k]@)
}

/// Splits `s` into its fields.
fn split_fields(s: &[u8]) -> (r: Vec<Vec<u8>>)
    ensures
        views(r@) == fields(s@),
{
    let mut done: Vec<Vec<u8>> = Vec::new();
    let mut cur: Vec<u8> = Vec::new();
    let mut open = false;
    let mut i: usize = 0;
    while i < s.len()
        invariant
            i <= s@.len(),
            open == (i > 0 && !is_space(s@[i - 1])),
            fields(s@.subrange(0, i as int)) == if open { views(done@).push(cur@) } else { views(done@) },
        decreases s@.len() - i,
    {
        let b = s[i];
        let ghost pre = s@.subrange(0, i as int + 1);
        let ghost before = s@.subrange(0, i as int);
        proof {
            assert(pre.drop_last() =~= before);
            assert(pre.last() == b);
            if i > 0 {
                assert(before.last() == s@[i - 1]);
            }
        }
        let space = b == 32 || (9 <= b && b <= 13);
        if space {
            if open {
                let ghost old_done = done@;
                let ghost old_cur = cur@;
                done.push(cur);
                cur = Vec::new();
                proof {
                    assert(views(done@) =~= views(old_done).push(old_cur));
                }
            }
            open = false;
        } else {
            if open {
                proof {
                    let f = fields(before);
                    assert(f.drop_last() =~= views(done@));
                }
                cur.push(b);
            } else {
                cur = Vec::new();
                cur.push(b);
                proof {
                    assert(cur@ =~= seq![b]);
                }
            }
            open = true;
        }
        proof {
            assert(fields(pre) =~= (if open { views(done@).push(cur@) } else { views(done@) }));
        }
        i = i + 1;
    }
    if open {
        let ghost old_done = done@;
        let ghost old_cur = cur@;
        done.push(cur);
        proof {
            assert(views(done@) =~= views(old_done).push(old_cur));
        }
    }
    proof {
        assert(s@.subrange(0, s@.len() as int) =~= s@);
    }
    done
}

/// The first `count` fields of `line` as numbers, if it holds that many and
/// each of them is a decimal number that fits in 64 bits.
pub fn parse_record(line: &str, count: usize) -> (r: Option<Vec<u64>>)
    ensures
        r is Some <==> record_ok(line.spec_bytes(), count as nat),
        r matches Some(v) ==> v@.len() == count && forall|i: int| 0 <= i < count ==> #[trigger] v@[i] == dec(fields(line.spec_bytes())[i]),
{
    let bytes = line.as_bytes();
    let toks = split_fields(bytes);
    proof {
        assert(views(toks@) == fields(line.spec_bytes()));
    }
    if toks.len() < count {
        return None;
    }
    let mut out: Vec<u64> = Vec::new();
    let mut i: usize = 0;
    while i < count
        invariant
            i <= count,
            count <= toks@.len(),
            views(toks@) == fields(line.spec_bytes()),
            out@.len() == i,
            forall|k: int| 0 <= k < i ==> numeric(#[trigger] fields(line.spec_bytes())[k]),
            forall|k: int| 0 <= k < i ==> #[trigger] out@[k] == dec(fields(line.spec_bytes())[k]),
        decreases count - i,
    {
        proof {
            assert(views(toks@)[i as int] == toks@[i as int]@);
        }
        match parse_decimal(&toks[i]) {
            Some(v) => {
                out.push(v);
            },
            None => {
                return None;
            },
        }
        i = i + 1;
    }
    Some(out)
}

/// Reads an insert record: the new node, then its parent.
pub fn parse_insert(line: &str) -> (r: Option<(NodeId, NodeId)>)
    ensures
        r is Some <==> record_ok(line.spec_bytes(), 4),
        r matches Some((child, parent)) ==> {
            let f = fields(line.spec_bytes());
            &&& child == (NodeId { counter: dec(f[0]) as u64, replica: dec(f[1]) as u64 })
            &&& parent == (NodeId { counter: dec(f[2]) as u64, replica: dec(f[3]) as u64 })
        },
{
    match parse_record(line, 4) {
        Some(v) => Some((NodeId { counter: v[0], replica: v[1] }, NodeId { counter: v[2], replica: v[3] })),
        None => None,
    }
}

/// Reads a remove record: the operation whose assignment is removed.
pub fn parse_remove(line: &str) -> (r: Option<NodeId>)
    ensures
        r is Some <==> record_ok(line.spec_bytes(), 2),
        r matches Some(id) ==> {
            let f = fields(line.spec_bytes());
            id == (NodeId { counter: dec(f[0]) as u64, replica: dec(f[1]) as u64 })
        },
{
    match parse_record(line, 2) {
        Some(v) => Some(NodeId { counter: v[0], replica: v[1] }),
        None => None,
    }
}

} // verus!
