//! What holds of sequences whatever is done to them, on concrete values.
use lseq::identifier::Identifier;
use lseq::nodes::Atom;
use lseq::text::{decimal_text, lay_out};
use lseq::vclock::{Dot, VClock};
use lseq::{LSeq, LSeqStrategy, Op};

fn id(path: &[u64]) -> Identifier {
    Identifier::new(path)
}

fn clock(dots: &[(u64, u64)]) -> VClock<u64> {
    let mut c = VClock::new();
    for &(actor, counter) in dots {
        c.apply(Dot { actor, counter });
    }
    c
}

fn insert(value: char, dots: &[(u64, u64)], p: &[u64], q: &[u64]) -> Op<char, u64> {
    let end = |path: &[u64]| if path.is_empty() { None } else { Some(id(path)) };
    Op::Insert { clock: clock(dots), value, p: end(p), q: end(q) }
}

fn delete(dots: &[(u64, u64)], path: &[u64]) -> Op<char, u64> {
    Op::Delete { clock: clock(dots), id: id(path) }
}

fn apply(lseq: &mut LSeq<char, u64>, op: &Op<char, u64>) {
    assert!(lseq.accepts(op));
    lseq.apply(op.clone());
}

fn plus() -> LSeq<char, u64> {
    LSeq::new(1, 4, LSeqStrategy::BoundaryPlus)
}

/// [A, B, C] at 1, 2 and 3.
fn abc() -> LSeq<char, u64> {
    let mut l = plus();
    apply(&mut l, &insert('A', &[(1, 1)], &[], &[]));
    apply(&mut l, &insert('B', &[(1, 2)], &[1], &[]));
    apply(&mut l, &insert('C', &[(1, 3)], &[2], &[]));
    l
}

fn values(lseq: &LSeq<char, u64>) -> Vec<(Identifier, char)> {
    lseq.read().val.into_iter().map(|(id, v, _)| (id, v)).collect()
}

fn everything(lseq: &LSeq<char, u64>) -> Vec<(Identifier, char, VClock<u64>)> {
    lseq.read().val
}

#[test]
fn a_new_sequence_is_empty() {
    let l = plus();
    assert!(values(&l).is_empty());
    assert!(l.read_ctx().add_clock.is_empty());
    assert!(l.read_ctx().rm_clock.is_empty());
    let d: LSeq<char, u64> = LSeq::default();
    let (boundary, root_arity, strategy, sides, tree, c) = d.parts();
    assert_eq!((boundary, root_arity, strategy), (10, 32, LSeqStrategy::Alternate));
    assert!(sides.is_empty() && tree.numbers().is_empty() && c.is_empty());
}

#[test]
fn reading_gives_back_what_was_inserted() {
    let l = abc();
    assert_eq!(
        everything(&l),
        vec![
            (id(&[1]), 'A', clock(&[(1, 1)])),
            (id(&[2]), 'B', clock(&[(1, 2)])),
            (id(&[3]), 'C', clock(&[(1, 3)])),
        ]
    );
    assert_eq!(l.read().add_clock, clock(&[(1, 3)]));
    assert_eq!(l.read().rm_clock, clock(&[(1, 3)]));
}

#[test]
fn operations_hold_what_they_are_made_of() {
    let l = plus();
    let add = l.read_ctx().derive_add_ctx(7);
    let op = l.insert('A', None, Some(id(&[2])), add.clone());
    assert_eq!(op, insert('A', &[(7, 1)], &[], &[2]));
    let rm = abc().read_ctx().derive_rm_ctx();
    assert_eq!(l.delete(id(&[3]), rm), delete(&[(1, 3)], &[3]));
}

#[test]
fn an_insert_with_an_empty_clock_is_left_aside() {
    let mut l = abc();
    let before = everything(&l);
    // Its bounds are not even looked at.
    apply(&mut l, &insert('X', &[], &[3], &[1]));
    assert_eq!(everything(&l), before);
}

#[test]
fn new_identifiers_lie_between_their_bounds() {
    let mut l = abc();
    apply(&mut l, &insert('X', &[(1, 4)], &[1], &[2]));
    assert_eq!(
        values(&l),
        vec![(id(&[1]), 'A'), (id(&[1, 1]), 'X'), (id(&[2]), 'B'), (id(&[3]), 'C')]
    );
}

#[test]
fn counting_down_with_a_small_step_stays_below_the_upper_bound() {
    let mut l: LSeq<char, u64> = LSeq::new(1, 4, LSeqStrategy::BoundaryMinus);
    apply(&mut l, &insert('A', &[(100, 1)], &[], &[]));
    assert_eq!(values(&l), vec![(id(&[3]), 'A')]);
    // Half of the step is nothing: it goes down by one.
    apply(&mut l, &insert('B', &[(100, 2)], &[], &[3]));
    assert_eq!(values(&l), vec![(id(&[2]), 'B'), (id(&[3]), 'A')]);
    apply(&mut l, &insert('C', &[(100, 3)], &[], &[2]));
    apply(&mut l, &insert('D', &[(100, 4)], &[], &[1]));
    // The level below starts from its end.
    apply(&mut l, &insert('E', &[(100, 5)], &[2], &[3]));
    apply(&mut l, &insert('F', &[(100, 6)], &[2], &[2, 7]));
    assert_eq!(
        values(&l),
        vec![
            (id(&[0, 7]), 'D'),
            (id(&[1]), 'C'),
            (id(&[2]), 'B'),
            (id(&[2, 6]), 'F'),
            (id(&[2, 7]), 'E'),
            (id(&[3]), 'A'),
        ]
    );
}

#[test]
fn counting_down_stays_above_the_lower_bound() {
    // q has a number at that depth, but on another path.
    let mut l: LSeq<char, u64> = LSeq::new(255, 4, LSeqStrategy::BoundaryMinus);
    apply(&mut l, &insert('X', &[(1, 1)], &[3], &[4, 1]));
    assert_eq!(values(&l), vec![(id(&[3, 3]), 'X')]);
    apply(&mut l, &insert('Y', &[(1, 2)], &[3, 3], &[]));
    assert_eq!(values(&l), vec![(id(&[3, 3]), 'X'), (id(&[3, 4]), 'Y')]);
}

#[test]
fn counting_down_goes_from_the_upper_bound_on_another_path() {
    let mut l: LSeq<char, u64> = LSeq::new(1, 4, LSeqStrategy::BoundaryMinus);
    apply(&mut l, &insert('X', &[(1, 1)], &[1], &[2, 3]));
    assert_eq!(values(&l), vec![(id(&[1, 3]), 'X')]);
    let mut l: LSeq<char, u64> = LSeq::new(255, 4, LSeqStrategy::BoundaryMinus);
    apply(&mut l, &insert('X', &[(1, 1)], &[1], &[2, 10]));
    assert_eq!(values(&l), vec![(id(&[1, 2]), 'X')]);
}

#[test]
fn counting_up_stays_on_its_level() {
    let mut l: LSeq<char, u64> = LSeq::new(10, 4, LSeqStrategy::BoundaryPlus);
    apply(&mut l, &insert('X', &[(1, 1)], &[1, 6], &[2, 5]));
    assert_eq!(values(&l), vec![(id(&[1, 7]), 'X')]);
    // The level is full now: the next one is below.
    apply(&mut l, &insert('Y', &[(1, 2)], &[1, 7], &[2]));
    assert_eq!(values(&l), vec![(id(&[1, 7]), 'X'), (id(&[1, 7, 6]), 'Y')]);
}

#[test]
fn values_are_read_where_they_were_inserted_whatever_the_strategy() {
    for strategy in vec![
        LSeqStrategy::Alternate,
        LSeqStrategy::Random,
        LSeqStrategy::BoundaryPlus,
        LSeqStrategy::BoundaryMinus,
    ] {
        for (boundary, root_arity) in [(1, 4), (10, 4), (10, 32), (255, 2), (0, 8)] {
            let mut l: LSeq<char, u64> = LSeq::new(boundary, root_arity, strategy);
            let mut expected: Vec<char> = vec![];
            let mut seed: u64 = 7;
            for n in 0..60u64 {
                seed = seed.wrapping_mul(6364136223846793005).wrapping_add(1442695040888963407);
                let at = (seed >> 33) as usize % (expected.len() + 1);
                let ids: Vec<Identifier> = values(&l).into_iter().map(|(id, _)| id).collect();
                let value = char::from_u32(48 + n as u32).unwrap();
                let op = Op::Insert {
                    clock: clock(&[(1, n + 1)]),
                    value,
                    p: if at == 0 { None } else { Some(ids[at - 1].clone()) },
                    q: ids.get(at).cloned(),
                };
                if l.accepts(&op) {
                    l.apply(op);
                    expected.insert(at, value);
                }
                let read: Vec<char> = values(&l).into_iter().map(|(_, v)| v).collect();
                assert_eq!(read, expected);
                for (id, _) in values(&l) {
                    assert!(id.at(id.len() - 1) > 0);
                    for depth in 0..id.len() {
                        assert!(id.at(depth) < root_arity << depth);
                    }
                }
            }
            assert!(expected.len() > 10);
        }
    }
}

#[test]
fn chosen_sides_are_kept() {
    let mut l: LSeq<char, u64> = LSeq::new(1, 4, LSeqStrategy::Random);
    apply(&mut l, &insert('A', &[(1, 1)], &[1, 1], &[1, 2]));
    let sides = l.parts().3.clone();
    assert_eq!(sides.len(), 3);
    for n in 2..6 {
        apply(&mut l, &insert('B', &[(1, n)], &[n], &[n + 1]));
        apply(&mut l, &insert('C', &[(2, n)], &[n, 1, 1], &[n, 1, 2]));
        assert_eq!(l.parts().3[..3], sides[..]);
    }
    assert_eq!(l.parts().3.len(), 4);
}

#[test]
fn operations_stay_accepted_or_refused() {
    let ops = vec![
        insert('X', &[(1, 4)], &[1], &[2]),
        insert('X', &[(2, 4)], &[1], &[2]),
        insert('X', &[(1, 4)], &[2], &[1]),
        delete(&[(1, 3)], &[2]),
        delete(&[(1, 3)], &[]),
    ];
    let before: Vec<bool> = ops.iter().map(|op| abc().accepts(op)).collect();
    assert_eq!(before, vec![true, true, false, true, false]);
    let mut l = abc();
    for op in &ops {
        if l.accepts(op) {
            l.apply(op.clone());
        }
        let now: Vec<bool> = ops.iter().map(|op| l.accepts(op)).collect();
        assert_eq!(now, before);
    }
}

#[test]
fn counting_down_with_a_larger_step_lies_between() {
    let mut l: LSeq<char, u64> = LSeq::new(4, 8, LSeqStrategy::BoundaryMinus);
    apply(&mut l, &insert('A', &[(1, 1)], &[], &[]));
    apply(&mut l, &insert('B', &[(1, 2)], &[], &[5]));
    assert_eq!(values(&l), vec![(id(&[3]), 'B'), (id(&[5]), 'A')]);
}

#[test]
fn alternating_strategies_go_by_depth_even_if_the_first_insert_is_deep() {
    let mut l: LSeq<char, u64> = LSeq::new(4, 8, LSeqStrategy::Alternate);
    apply(&mut l, &insert('A', &[(1, 1)], &[2], &[3]));
    // Counted down from the end of the level: 15 - 2.
    assert_eq!(values(&l), vec![(id(&[2, 13]), 'A')]);
    apply(&mut l, &insert('B', &[(1, 2)], &[4], &[]));
    // Counted up: 5 + 1.
    assert_eq!(values(&l), vec![(id(&[2, 13]), 'A'), (id(&[6]), 'B')]);
}

#[test]
fn deleting_takes_one_value_out() {
    let mut l = abc();
    apply(&mut l, &delete(&[(2, 1)], &[2]));
    assert_eq!(values(&l), vec![(id(&[1]), 'A'), (id(&[3]), 'C')]);
    assert_eq!(l.read_ctx().add_clock, clock(&[(1, 3), (2, 1)]));
}

#[test]
fn deleting_what_is_not_there_changes_nothing() {
    let mut l = abc();
    apply(&mut l, &delete(&[(2, 1)], &[9]));
    apply(&mut l, &delete(&[(2, 2)], &[1, 1]));
    apply(&mut l, &delete(&[(2, 3)], &[9, 1]));
    assert_eq!(everything(&l), everything(&abc()));
    assert_eq!(l.read_ctx().add_clock, clock(&[(1, 3)]));
}

#[test]
fn a_delete_undoes_an_insert() {
    let mut l = abc();
    apply(&mut l, &insert('X', &[(1, 4)], &[1], &[2]));
    apply(&mut l, &delete(&[(1, 4)], &[1, 1]));
    assert_eq!(everything(&l), everything(&abc()));
}

#[test]
fn an_insert_where_a_value_was_deleted_is_dropped() {
    let mut l = abc();
    apply(&mut l, &delete(&[(1, 3)], &[2]));
    let before = l.clone();
    apply(&mut l, &insert('X', &[(1, 4)], &[1], &[3]));
    assert_eq!(everything(&l), everything(&before));
    assert_eq!(l.read_ctx().add_clock, before.read_ctx().add_clock);
}

#[test]
fn operations_apply_once() {
    for op in vec![
        insert('X', &[(1, 4)], &[1], &[2]),
        insert('X', &[(2, 1)], &[], &[]),
        insert('X', &[(1, 1)], &[], &[]),
        delete(&[(2, 1)], &[2]),
        delete(&[(2, 1)], &[8]),
    ] {
        let mut once = abc();
        apply(&mut once, &op);
        let mut twice = once.clone();
        apply(&mut twice, &op);
        assert_eq!(everything(&twice), everything(&once));
        assert_eq!(twice.read_ctx().add_clock, once.read_ctx().add_clock);
    }
}

#[test]
fn concurrent_inserts_keep_both_values_in_the_order_of_their_clocks() {
    let a = insert('A', &[(100, 1)], &[], &[]);
    let b = insert('B', &[(200, 1)], &[], &[]);
    let expected = vec![
        (id(&[1]), 'A', clock(&[(100, 1)])),
        (id(&[1]), 'B', clock(&[(200, 1)])),
    ];
    let mut ab = plus();
    apply(&mut ab, &a);
    apply(&mut ab, &b);
    let mut ba = plus();
    apply(&mut ba, &b);
    apply(&mut ba, &a);
    assert_eq!(everything(&ab), expected);
    assert_eq!(everything(&ba), expected);
    assert_eq!(ab.read_ctx().add_clock, clock(&[(100, 1), (200, 1)]));
    assert_eq!(ba.read_ctx().add_clock, ab.read_ctx().add_clock);
    // A third one finds mini-nodes and is dropped.
    apply(&mut ab, &insert('C', &[(300, 1)], &[], &[]));
    assert_eq!(everything(&ab), expected);
}

#[test]
fn concurrent_inserts_at_different_places_converge() {
    let x = insert('X', &[(1, 3), (2, 1)], &[1], &[2]);
    let y = insert('Y', &[(1, 3), (3, 1)], &[2], &[3]);
    let mut xy = abc();
    apply(&mut xy, &x);
    apply(&mut xy, &y);
    let mut yx = abc();
    apply(&mut yx, &y);
    apply(&mut yx, &x);
    assert_eq!(everything(&xy), everything(&yx));
    assert_eq!(values(&xy).len(), 5);
}

#[test]
fn deletes_and_inserts_converge() {
    let x = insert('X', &[(1, 3), (2, 1)], &[1], &[2]);
    let d = delete(&[(1, 3), (3, 1)], &[2]);
    let mut xd = abc();
    apply(&mut xd, &x);
    apply(&mut xd, &d);
    let mut dx = abc();
    apply(&mut dx, &d);
    apply(&mut dx, &x);
    assert_eq!(everything(&xd), everything(&dx));
    assert_eq!(values(&xd), vec![(id(&[1]), 'A'), (id(&[1, 1]), 'X'), (id(&[3]), 'C')]);
    assert_eq!(xd.read_ctx().add_clock, dx.read_ctx().add_clock);
}

#[test]
fn a_delete_spares_a_concurrent_insert_in_either_order() {
    let start = || {
        let mut l = plus();
        apply(&mut l, &insert('A', &[(100, 1)], &[], &[]));
        l
    };
    let b = insert('B', &[(200, 1)], &[], &[]);
    let d = delete(&[(100, 2)], &[1]);
    let mut bd = start();
    apply(&mut bd, &b);
    apply(&mut bd, &d);
    let mut db = start();
    apply(&mut db, &d);
    apply(&mut db, &b);
    let expected = vec![(id(&[1]), 'B', clock(&[(200, 1)]))];
    assert_eq!(everything(&bd), expected);
    assert_eq!(everything(&db), expected);
    assert_eq!(bd.read_ctx().add_clock, clock(&[(100, 2), (200, 1)]));
    assert_eq!(db.read_ctx().add_clock, bd.read_ctx().add_clock);
}

#[test]
fn a_delete_on_the_way_to_an_insert_reads_alike_in_either_order() {
    // Nothing stands at 5 until the insert goes there.
    let x = insert('X', &[(2, 1)], &[5], &[6]);
    let d = delete(&[(3, 1)], &[5]);
    let mut xd = abc();
    apply(&mut xd, &x);
    apply(&mut xd, &d);
    let mut dx = abc();
    apply(&mut dx, &d);
    apply(&mut dx, &x);
    assert_eq!(everything(&xd), everything(&dx));
    assert!(values(&xd).contains(&(id(&[5, 1]), 'X')));
}

#[test]
fn an_insert_that_is_kept_out_and_a_delete_converge() {
    // A has seen more than the insert, and so has the delete.
    let x = insert('X', &[(1, 1)], &[], &[]);
    let d = delete(&[(1, 3)], &[1]);
    let mut xd = abc();
    apply(&mut xd, &x);
    apply(&mut xd, &d);
    let mut dx = abc();
    apply(&mut dx, &d);
    apply(&mut dx, &x);
    assert_eq!(everything(&xd), everything(&dx));
    assert_eq!(values(&xd), vec![(id(&[2]), 'B'), (id(&[3]), 'C')]);
    assert_eq!(xd.read_ctx().add_clock, dx.read_ctx().add_clock);
}

#[test]
fn deletes_read_alike_in_either_order() {
    let d = delete(&[(2, 1)], &[2]);
    let e = delete(&[(3, 1)], &[2]);
    let mut de = abc();
    apply(&mut de, &d);
    apply(&mut de, &e);
    let mut ed = abc();
    apply(&mut ed, &e);
    apply(&mut ed, &d);
    assert_eq!(everything(&de), everything(&ed));
    assert_eq!(de.read_ctx().add_clock, ed.read_ctx().add_clock);
}

/// A and B at 1, of concurrent operations.
fn pair() -> LSeq<char, u64> {
    let mut l = plus();
    apply(&mut l, &insert('A', &[(100, 1)], &[], &[]));
    apply(&mut l, &insert('B', &[(200, 1)], &[], &[]));
    l
}

#[test]
fn mini_nodes_that_a_delete_has_seen_are_deleted() {
    let a = (id(&[1]), 'A', clock(&[(100, 1)]));
    let b = (id(&[1]), 'B', clock(&[(200, 1)]));
    let mut l = pair();
    apply(&mut l, &delete(&[(100, 1), (200, 1)], &[1]));
    assert!(everything(&l).is_empty());
    let mut l = pair();
    apply(&mut l, &delete(&[(200, 2)], &[1]));
    assert_eq!(everything(&l), vec![a.clone()]);
    // A delete that has seen neither is noted all the same.
    let mut l = pair();
    apply(&mut l, &delete(&[(300, 1)], &[1]));
    assert_eq!(everything(&l), vec![a, b.clone()]);
    assert_eq!(l.read_ctx().add_clock, clock(&[(100, 1), (200, 1), (300, 1)]));
    apply(&mut l, &delete(&[(100, 1)], &[1]));
    assert_eq!(everything(&l), vec![b]);
    // Nothing comes back where mini-nodes were deleted.
    apply(&mut l, &insert('A', &[(100, 1)], &[], &[]));
    assert_eq!(values(&l), vec![(id(&[1]), 'B')]);
}

#[test]
fn a_delete_that_was_derived_from_a_reading_deletes_what_was_read() {
    let mut l = pair();
    let ctx = l.read().derive_rm_ctx();
    let op = l.delete(id(&[1]), ctx);
    apply(&mut l, &op);
    assert!(values(&l).is_empty());
    // Also when the clocks have been forgotten.
    let mut l = pair();
    l.forget_clock(&clock(&[(100, 1)]));
    let ctx = l.read().derive_rm_ctx();
    let op = l.delete(id(&[1]), ctx);
    apply(&mut l, &op);
    assert!(values(&l).is_empty());
}

#[test]
fn deletes_reach_what_stands_below_mini_nodes() {
    let mut l = pair();
    apply(&mut l, &insert('D', &[(100, 2), (200, 1)], &[1], &[2]));
    assert_eq!(values(&l)[2], (id(&[1, 1]), 'D'));
    apply(&mut l, &delete(&[(100, 2), (200, 1)], &[1, 1]));
    assert_eq!(everything(&l), everything(&pair()));
    assert_eq!(
        everything(&l),
        vec![(id(&[1]), 'A', clock(&[(100, 1)])), (id(&[1]), 'B', clock(&[(200, 1)]))]
    );
}

#[test]
fn deletes_of_mini_nodes_apply_once_and_read_alike_in_either_order() {
    let d = delete(&[(100, 1)], &[1]);
    let e = delete(&[(200, 1)], &[1]);
    let mut de = pair();
    apply(&mut de, &d);
    let once = de.clone();
    apply(&mut de, &d);
    assert_eq!(everything(&de), everything(&once));
    assert_eq!(values(&de), vec![(id(&[1]), 'B')]);
    apply(&mut de, &e);
    let mut ed = pair();
    apply(&mut ed, &e);
    assert_eq!(values(&ed), vec![(id(&[1]), 'A')]);
    apply(&mut ed, &d);
    assert!(everything(&de).is_empty() && everything(&ed).is_empty());
    assert_eq!(de.read_ctx().add_clock, ed.read_ctx().add_clock);
}

#[test]
fn operations_that_cannot_be_taken_in_are_not_accepted() {
    let l = abc();
    // p comes after q.
    assert!(!l.accepts(&insert('X', &[(1, 4)], &[3], &[2])));
    // No identifier is named.
    assert!(!l.accepts(&delete(&[(1, 4)], &[])));
    assert!(l.accepts(&delete(&[(1, 4)], &[9, 9])));
    // Every level between the bounds is full.
    assert!(!l.accepts(&insert('X', &[(1, 4)], &[3, 7, 15, 31, 63], &[])));
    for strategy in vec![
        LSeqStrategy::Random,
        LSeqStrategy::BoundaryPlus,
        LSeqStrategy::BoundaryMinus,
    ] {
        let wide: LSeq<char, u64> = LSeq::new(255, 4, strategy);
        assert!(wide.accepts(&insert('X', &[(1, 1)], &[3], &[4, 1])));
    }
}

#[test]
fn forgetting_keeps_values_and_drops_clocks() {
    let mut l = abc();
    apply(&mut l, &insert('X', &[(2, 1)], &[], &[]));
    apply(&mut l, &insert('Y', &[(1, 4)], &[1], &[2]));
    let before = values(&l);
    l.forget_clock(&clock(&[(1, 2)]));
    assert_eq!(values(&l), before);
    assert_eq!(
        everything(&l),
        vec![
            (id(&[1]), 'A', clock(&[])),
            (id(&[1]), 'X', clock(&[(2, 1)])),
            (id(&[1, 1]), 'Y', clock(&[(1, 4)])),
            (id(&[2]), 'B', clock(&[])),
            (id(&[3]), 'C', clock(&[(1, 3)])),
        ]
    );
    assert_eq!(l.read_ctx().add_clock, clock(&[(1, 4), (2, 1)]));
}

#[test]
fn clones_go_their_own_ways() {
    let l = abc();
    let mut m = l.clone();
    apply(&mut m, &delete(&[(2, 1)], &[2]));
    assert_eq!(values(&l).len(), 3);
    assert_eq!(values(&m).len(), 2);
}

#[test]
fn sequences_are_put_together_from_their_parts() {
    let mut l = abc();
    apply(&mut l, &insert('X', &[(2, 1)], &[], &[]));
    let (boundary, root_arity, strategy, sides, tree, c) = l.parts();
    let build = |sides: Vec<bool>, tree, c| {
        LSeq::from_parts(boundary, root_arity, strategy, sides, tree, c)
    };
    let again = build(sides.clone(), tree.duplicate(), c.clone());
    assert_eq!(everything(&again.unwrap()), everything(&l));
    // A clock that has not seen the tree is taken as it is.
    let late = build(sides.clone(), tree.duplicate(), clock(&[(1, 3)])).unwrap();
    assert_eq!(everything(&late), everything(&l));
    assert_eq!(late.read_ctx().add_clock, clock(&[(1, 3)]));
    // So are sides of another strategy: the new number is counted down from the end.
    let mut down = build(vec![false], tree.duplicate(), c.clone()).unwrap();
    apply(&mut down, &insert('Y', &[(3, 1)], &[3], &[10]));
    assert!(values(&down).contains(&(id(&[9]), 'Y')));
    // And mini-nodes, in whatever order they come.
    let mut turned = tree.duplicate();
    if let Atom::MajorNode { minis, .. } = &mut turned.slots[0].1 {
        minis.entries.swap(0, 1);
    }
    let read = values(&build(sides.clone(), turned, c.clone()).unwrap());
    assert_eq!(read[0..2], [(id(&[1]), 'X'), (id(&[1]), 'A')]);
    // Siblings that are out of order are no tree, nor are two with the same number.
    let mut mixed = tree.duplicate();
    mixed.slots.swap(0, 1);
    assert!(build(sides.clone(), mixed, c.clone()).is_none());
    let mut twice = tree.duplicate();
    twice.slots[1].0 = 1;
    assert!(build(sides.clone(), twice, c.clone()).is_none());
}

#[test]
fn sequences_are_laid_out_between_bars() {
    let numbers = abc().parts().4.numbers();
    assert_eq!(numbers, vec![1, 2, 3]);
    let texts = vec!["A".to_string(), "B".to_string(), "C".to_string()];
    assert_eq!(lay_out(&texts, &numbers), "|A@1, B@2, C@3|");
    assert_eq!(abc().render(&texts), "|A@1, B@2, C@3|");
    assert_eq!(lay_out(&vec!["x".to_string()], &vec![10]), "|x@10|");
    assert_eq!(lay_out(&vec![], &vec![]), "||");
}

#[test]
fn numbers_are_written_in_decimal_notation() {
    assert_eq!(decimal_text(0), "0");
    assert_eq!(decimal_text(10), "10");
    assert_eq!(decimal_text(9876543210), "9876543210");
    assert_eq!(decimal_text(u64::MAX), "18446744073709551615");
}
