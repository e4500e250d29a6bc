//! Vector clocks and the contexts made of them.
use lseq::ctx::ReadCtx;
use lseq::vclock::{Causality, Dot, VClock};

fn clock(dots: &[(u64, u64)]) -> VClock<u64> {
    let mut c = VClock::new();
    for &(actor, counter) in dots {
        c.apply(Dot { actor, counter });
    }
    c
}

#[test]
fn a_new_clock_is_empty() {
    let c: VClock<u64> = VClock::new();
    assert!(c.is_empty());
    assert_eq!(c.get(&7), 0);
    assert!(!clock(&[(7, 1)]).is_empty());
}

#[test]
fn applying_keeps_the_later_version() {
    let mut c = clock(&[(1, 5)]);
    c.apply(Dot { actor: 1, counter: 3 });
    assert_eq!(c.get(&1), 5);
    c.apply(Dot { actor: 1, counter: 9 });
    assert_eq!(c.get(&1), 9);
    // Version zero is no news.
    c.apply(Dot { actor: 2, counter: 0 });
    assert_eq!(c, clock(&[(1, 9)]));
}

#[test]
fn inc_is_the_next_operation() {
    let c = clock(&[(1, 5)]);
    assert_eq!(c.inc(1), Dot { actor: 1, counter: 6 });
    assert_eq!(c.inc(2), Dot { actor: 2, counter: 1 });
    assert_eq!(c, clock(&[(1, 5)]));
}

#[test]
fn merging_takes_the_later_version_of_each_actor() {
    let a = clock(&[(1, 5), (2, 1)]);
    let b = clock(&[(2, 4), (3, 2)]);
    let both = clock(&[(1, 5), (2, 4), (3, 2)]);
    let mut ab = a.clone();
    ab.merge(b.clone());
    assert_eq!(ab, both);
    let mut ba = b.clone();
    ba.merge(a.clone());
    assert_eq!(ba, both);
    ab.merge(b);
    assert_eq!(ab, both);
}

#[test]
fn merging_is_associative() {
    let a = clock(&[(1, 5), (2, 1)]);
    let b = clock(&[(2, 4)]);
    let c = clock(&[(1, 6), (3, 2)]);
    let mut left = a.clone();
    left.merge(b.clone());
    left.merge(c.clone());
    let mut bc = b;
    bc.merge(c);
    let mut right = a;
    right.merge(bc);
    assert_eq!(left, right);
    assert_eq!(left, clock(&[(1, 6), (2, 4), (3, 2)]));
}

#[test]
fn forgetting_drops_what_the_other_has_seen() {
    let mut c = clock(&[(1, 5), (2, 1), (3, 7)]);
    c.forget(&clock(&[(1, 5), (2, 4), (3, 6), (9, 9)]));
    assert_eq!(c, clock(&[(3, 7)]));
    let itself = c.clone();
    c.forget(&itself);
    assert!(c.is_empty());
}

#[test]
fn causality_has_four_cases() {
    let a = clock(&[(1, 1)]);
    let b = clock(&[(1, 1), (2, 1)]);
    let c = clock(&[(3, 1)]);
    assert_eq!(a.causality(&a.clone()), Causality::Equal);
    assert_eq!(a.causality(&b), Causality::Less);
    assert_eq!(b.causality(&a), Causality::Greater);
    assert_eq!(a.causality(&c), Causality::Concurrent);
    assert_eq!(c.causality(&a), Causality::Concurrent);
    assert!(b.covers(&a));
    assert!(!a.covers(&b));
}

#[test]
fn clocks_are_ordered_by_their_dots() {
    let a = clock(&[(100, 1)]);
    let b = clock(&[(200, 1)]);
    assert!(a.precedes(&b));
    assert!(!b.precedes(&a));
    assert!(!a.precedes(&a.clone()));
    // The counter decides between dots of one actor, the length between beginnings.
    assert!(a.precedes(&clock(&[(100, 2)])));
    assert!(a.precedes(&clock(&[(100, 1), (50000, 1)])));
    assert!(VClock::new().precedes(&a));
    assert!(clock(&[(50, 1), (200, 1)]).precedes(&a));
}

#[test]
fn entries_are_in_the_order_of_actors() {
    let c = clock(&[(9, 1), (2, 4), (5, 3)]);
    assert_eq!(c.entries(), vec![(&2, 4), (&5, 3), (&9, 1)]);
}

#[test]
fn derived_contexts() {
    let read = ReadCtx { add_clock: clock(&[(1, 2)]), rm_clock: clock(&[(1, 2)]), val: () };
    let add = read.derive_add_ctx(1);
    assert_eq!(add.dot, Dot { actor: 1, counter: 3 });
    assert_eq!(add.clock, clock(&[(1, 3)]));
    assert_eq!(read.add_clock.causality(&add.clock), Causality::Less);
    let first = read.derive_add_ctx(8).clone();
    assert_eq!(first.dot, Dot { actor: 8, counter: 1 });
    assert_eq!(first.clock, clock(&[(1, 2), (8, 1)]));
    assert_eq!(read.derive_rm_ctx().clone().clock, clock(&[(1, 2)]));
}
