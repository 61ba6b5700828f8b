use crdt::chain::{collapse, fuse_paths};
use crdt::node::{AssignOp, InsertEdge, Link, NodeId};
use crdt::rga::{materialize, pre_order, StructureError};
use crdt::visible::Emitted;

fn id(c: u64) -> NodeId {
    NodeId::new(c, 0)
}

fn ins(child: u64, parent: u64) -> (InsertEdge, i32) {
    (InsertEdge::new(id(child), id(parent)), 1)
}

fn own_value(n: u64, value: &str) -> (AssignOp, i32) {
    (AssignOp::new(id(n), id(n), value.to_string()), 1)
}

fn triples(v: &[Emitted]) -> Vec<((u64, u64), (u64, u64), String)> {
    let mut out: Vec<_> = v
        .iter()
        .map(|e| ((e.prev.counter, e.prev.replica), (e.next.counter, e.next.replica), e.value.clone()))
        .collect();
    out.sort();
    out
}

fn pairs(v: &[Link]) -> Vec<(u64, u64)> {
    let mut out: Vec<_> = v.iter().map(|l| (l.from.counter, l.to.counter)).collect();
    out.sort();
    out.dedup();
    out
}

// Three children A=1 < B=2 < C=3 under P=0.
fn three_children() -> Vec<(InsertEdge, i32)> {
    vec![ins(1, 0), ins(2, 0), ins(3, 0)]
}

fn three_values() -> Vec<(AssignOp, i32)> {
    vec![own_value(1, "a"), own_value(2, "b"), own_value(3, "c")]
}

#[test]
fn chain_of_two_children_emits_step() {
    let insert = vec![ins(1, 0), ins(2, 1)];
    let assign = vec![own_value(1, ""), own_value(2, "")];
    let r = materialize(&insert, &vec![], &assign).unwrap();
    assert_eq!(triples(&r), vec![((1, 0), (2, 0), String::new())]);
}

#[test]
fn siblings_ordered_largest_first() {
    let r = pre_order(&three_children()).unwrap();
    assert_eq!(pairs(&r), vec![(0, 3), (2, 1), (3, 2)]);
}

#[test]
fn removed_value_is_skipped() {
    let remove = vec![(id(2), 1)];
    let r = materialize(&three_children(), &remove, &three_values()).unwrap();
    assert_eq!(triples(&r), vec![((3, 0), (1, 0), "a".to_string())]);
}

#[test]
fn retracted_remove_restores_value() {
    let remove = vec![(id(2), 1), (id(2), -1)];
    let r = materialize(&three_children(), &remove, &three_values()).unwrap();
    assert_eq!(
        triples(&r),
        vec![((2, 0), (1, 0), "a".to_string()), ((3, 0), (2, 0), "b".to_string())]
    );
}

#[test]
fn all_valued_sequence() {
    let r = materialize(&three_children(), &vec![], &three_values()).unwrap();
    assert_eq!(
        triples(&r),
        vec![((2, 0), (1, 0), "a".to_string()), ((3, 0), (2, 0), "b".to_string())]
    );
}

// R=0 with children X=2 and Y=1; X has child X1=3, which has child X2=4.
fn deep_tree() -> Vec<(InsertEdge, i32)> {
    vec![ins(2, 0), ins(1, 0), ins(3, 2), ins(4, 3)]
}

#[test]
fn leaf_climbs_to_ancestor_sibling() {
    let r = pre_order(&deep_tree()).unwrap();
    assert_eq!(pairs(&r), vec![(0, 2), (2, 3), (3, 4), (4, 1)]);
}

#[test]
fn blank_run_is_contracted() {
    let assign = vec![own_value(2, "x"), own_value(1, "y")];
    let r = materialize(&deep_tree(), &vec![], &assign).unwrap();
    assert_eq!(triples(&r), vec![((2, 0), (1, 0), "y".to_string())]);
}

#[test]
fn last_visible_has_no_successor() {
    let assign = vec![own_value(2, "x"), own_value(3, "z")];
    let r = materialize(&deep_tree(), &vec![], &assign).unwrap();
    assert_eq!(triples(&r), vec![((2, 0), (3, 0), "z".to_string())]);
}

#[test]
fn reasserting_present_fact_changes_nothing() {
    let mut insert = three_children();
    insert.push(ins(2, 0));
    let mut assign = three_values();
    assign.push(own_value(1, "a"));
    let once = materialize(&three_children(), &vec![], &three_values()).unwrap();
    let twice = materialize(&insert, &vec![], &assign).unwrap();
    assert_eq!(triples(&once), triples(&twice));
}

#[test]
fn assert_then_retract_has_no_effect() {
    let mut insert = three_children();
    insert.push(ins(7, 3));
    insert.push((InsertEdge::new(id(7), id(3)), -1));
    let mut assign = three_values();
    assign.push(own_value(7, "g"));
    assign.push((AssignOp::new(id(7), id(7), "g".to_string()), -1));
    let base = materialize(&three_children(), &vec![], &three_values()).unwrap();
    let with_pair = materialize(&insert, &vec![], &assign).unwrap();
    assert_eq!(triples(&base), triples(&with_pair));
}

#[test]
fn unvalued_element_is_never_an_endpoint() {
    let assign = vec![own_value(1, "a"), own_value(3, "c")];
    let r = materialize(&three_children(), &vec![], &assign).unwrap();
    for e in &r {
        assert_ne!(e.prev, id(2));
        assert_ne!(e.next, id(2));
    }
    assert_eq!(triples(&r), vec![((3, 0), (1, 0), "a".to_string())]);
}

#[test]
fn two_values_for_one_element_both_survive() {
    let mut assign = three_values();
    assign.push((AssignOp::new(id(9), id(1), "a2".to_string()), 1));
    let r = materialize(&three_children(), &vec![], &assign).unwrap();
    assert_eq!(
        triples(&r),
        vec![
            ((2, 0), (1, 0), "a".to_string()),
            ((2, 0), (1, 0), "a2".to_string()),
            ((3, 0), (2, 0), "b".to_string())
        ]
    );
}

#[test]
fn replica_breaks_counter_ties() {
    let insert = vec![
        (InsertEdge::new(NodeId::new(1, 1), id(0)), 1),
        (InsertEdge::new(NodeId::new(1, 2), id(0)), 1),
    ];
    let r = pre_order(&insert).unwrap();
    let mut got: Vec<_> = r.iter().map(|l| ((l.from.counter, l.from.replica), (l.to.counter, l.to.replica))).collect();
    got.sort();
    assert_eq!(got, vec![((0, 0), (1, 2)), ((1, 2), (1, 1))]);
}

#[test]
fn two_parents_are_rejected() {
    let insert = vec![ins(1, 0), ins(1, 5)];
    assert!(matches!(materialize(&insert, &vec![], &vec![]), Err(StructureError::MultipleParents)));
}

#[test]
fn cycle_is_rejected() {
    let insert = vec![ins(1, 2), ins(2, 1)];
    assert!(matches!(materialize(&insert, &vec![], &vec![]), Err(StructureError::Cycle)));
    assert!(matches!(pre_order(&insert), Err(StructureError::Cycle)));
}

#[test]
fn empty_input_gives_empty_sequence() {
    let r = materialize(&vec![], &vec![], &vec![]).unwrap();
    assert!(r.is_empty());
}

#[test]
fn doubling_rounds_are_logarithmic() {
    let e: Vec<Link> = (1..9u64).map(|i| Link { from: id(i), to: id(i + 1) }).collect();
    let c = collapse(&e, e.len()).unwrap();
    assert_eq!(c.rounds, 3);
    for l in &c.links {
        assert_eq!(l.to, id(9));
    }
    let lens: Vec<usize> = c.lengths.clone();
    assert_eq!(lens, vec![8, 7, 6, 5, 4, 3, 2, 1]);
    let single = vec![Link { from: id(1), to: id(2) }];
    assert_eq!(collapse(&single, 1).unwrap().rounds, 0);
}

#[test]
fn cyclic_pointers_do_not_settle() {
    let e = vec![Link { from: id(1), to: id(2) }, Link { from: id(2), to: id(1) }];
    assert!(collapse(&e, 2).is_none());
}

fn link(a: u64, b: u64) -> Link {
    Link { from: id(a), to: id(b) }
}

#[test]
fn path_is_fused_to_its_ends() {
    let e = vec![link(5, 1), link(1, 3), link(3, 2), link(2, 4)];
    let r = fuse_paths(&e).unwrap();
    assert_eq!(pairs(&r), vec![(5, 4)]);
    assert_eq!(r.len(), 1);
}

#[test]
fn rising_path_is_fused() {
    let e = vec![link(1, 2), link(2, 3)];
    let r = fuse_paths(&e).unwrap();
    assert_eq!(pairs(&r), vec![(1, 3)]);
}

#[test]
fn two_hop_path_gives_one_pointer() {
    let e = vec![link(3, 1), link(1, 2)];
    let r = fuse_paths(&e).unwrap();
    assert_eq!(r.len(), 1);
    assert_eq!(pairs(&r), vec![(3, 2)]);
}

#[test]
fn separate_paths_fuse_separately() {
    let e = vec![link(9, 1), link(1, 8), link(7, 2), link(2, 6)];
    let r = fuse_paths(&e).unwrap();
    assert_eq!(pairs(&r), vec![(7, 6), (9, 8)]);
    let again = fuse_paths(&r).unwrap();
    assert_eq!(pairs(&again), pairs(&r));
}

#[test]
fn cyclic_path_is_not_fused() {
    let e = vec![link(1, 2), link(2, 3), link(3, 1)];
    assert!(fuse_paths(&e).is_none());
}

#[test]
fn insert_record_is_read() {
    let r = crdt::records::parse_insert("12 3  7\t1").unwrap();
    assert_eq!(r, (NodeId::new(12, 3), NodeId::new(7, 1)));
}

#[test]
fn extra_fields_are_ignored() {
    let r = crdt::records::parse_remove("  5 0 9 x").unwrap();
    assert_eq!(r, NodeId::new(5, 0));
}

#[test]
fn malformed_records_are_refused() {
    assert!(crdt::records::parse_insert("1 2 3").is_none());
    assert!(crdt::records::parse_insert("1 2 x 4").is_none());
    assert!(crdt::records::parse_remove("").is_none());
    assert!(crdt::records::parse_remove("18446744073709551616 0").is_none());
    assert_eq!(
        crdt::records::parse_remove("18446744073709551615 0"),
        Some(NodeId::new(u64::MAX, 0))
    );
}

#[test]
fn recorded_insert_assigns_empty_value() {
    let mut insert = Vec::new();
    let mut assign = Vec::new();
    crdt::rga::record_insert(&mut insert, &mut assign, id(1), id(0));
    crdt::rga::record_insert(&mut insert, &mut assign, id(2), id(1));
    let r = materialize(&insert, &vec![], &assign).unwrap();
    assert_eq!(triples(&r), vec![((1, 0), (2, 0), String::new())]);
}

#[test]
fn retraction_yields_signed_changes() {
    let removed = materialize(&three_children(), &vec![(id(2), 1)], &three_values()).unwrap();
    let restored = materialize(&three_children(), &vec![(id(2), 1), (id(2), -1)], &three_values()).unwrap();
    let delta = crdt::rga::changes(&removed, &restored);
    let mut got: Vec<_> = delta
        .iter()
        .map(|(e, m)| (e.prev.counter, e.next.counter, e.value.clone(), *m))
        .collect();
    got.sort();
    assert_eq!(
        got,
        vec![(2, 1, "a".to_string(), 1), (3, 1, "a".to_string(), -1), (3, 2, "b".to_string(), 1)]
    );
    assert!(crdt::rga::changes(&restored, &restored).is_empty());
}

#[test]
fn retracted_remove_marker_still_hides() {
    let insert = vec![ins(1, 0)];
    let assign = vec![own_value(0, ""), own_value(1, "")];
    let r = materialize(&insert, &vec![(id(1), -1)], &assign).unwrap();
    assert!(r.is_empty());
    let shown = materialize(&insert, &vec![], &assign).unwrap();
    assert_eq!(triples(&shown), vec![((0, 0), (1, 0), String::new())]);
}

#[test]
fn cycle_beside_a_child_is_rejected() {
    let insert = vec![ins(1, 3), ins(3, 1), ins(2, 1)];
    assert!(matches!(materialize(&insert, &vec![], &vec![]), Err(StructureError::Cycle)));
    assert!(matches!(pre_order(&insert), Err(StructureError::Cycle)));
}

#[test]
fn change_list_names_each_step_once() {
    let empty: Vec<Emitted> = Vec::new();
    let r = materialize(&three_children(), &vec![], &three_values()).unwrap();
    let mut doubled = r.clone();
    doubled.extend(r.iter().cloned());
    let delta = crdt::rga::changes(&empty, &doubled);
    assert_eq!(delta.len(), 2);
    assert!(delta.iter().all(|(_, m)| *m == 1));
}
