//! Where new identifiers go.
use lseq::allocation::{
    arity_at, digit_at, find_room, go_together, pick_number, pick_step, reach_at,
};
use lseq::identifier::Identifier;
use lseq::LSeqStrategy;

fn id(path: &[u64]) -> Identifier {
    Identifier::new(path)
}

#[test]
fn identifiers_hold_their_path() {
    let mut x = id(&[3, 0, 7]);
    assert_eq!(x.len(), 3);
    assert_eq!(x.at(2), 7);
    x.push(9);
    assert_eq!(x, id(&[3, 0, 7, 9]));
    assert_eq!(x.remove(0), 3);
    assert_eq!(x, id(&[0, 7, 9]));
    assert!(!x.is_empty());
    assert!(id(&[]).is_empty());
    assert_eq!(x.clone(), x);
}

#[test]
fn the_arity_doubles_at_each_depth() {
    assert_eq!(arity_at(4, 0), 4);
    assert_eq!(arity_at(4, 3), 32);
    // Bits that do not fit are lost.
    assert_eq!(arity_at(1 << 63, 1), 0);
}

#[test]
fn room_is_found_at_the_first_depth_that_has_any() {
    assert_eq!(find_room(4, &id(&[]), &id(&[])), Some((0, 3)));
    assert_eq!(find_room(4, &id(&[1]), &id(&[3])), Some((0, 1)));
    // Positions 8 and 16 at depth 1.
    assert_eq!(find_room(4, &id(&[1]), &id(&[2])), Some((1, 7)));
    // Positions 24 and 40 at depth 1.
    assert_eq!(find_room(4, &id(&[3]), &id(&[])), Some((1, 15)));
    // From the beginning to the very first number.
    assert_eq!(find_room(4, &id(&[]), &id(&[0, 1])), Some((2, 15)));
}

#[test]
fn there_is_no_room_after_what_comes_later() {
    assert_eq!(find_room(2, &id(&[1, 2]), &id(&[1])), None);
    assert_eq!(find_room(4, &id(&[3]), &id(&[2])), None);
    assert_eq!(find_room(4, &id(&[1, 0]), &id(&[1])), None);
    assert_eq!(find_room(4, &id(&[1, 0, 0, 5]), &id(&[1])), None);
    assert_eq!(find_room(4, &id(&[1, 0, 3]), &id(&[1, 0])), None);
}

#[test]
fn there_is_no_room_below_the_deepest_level() {
    assert_eq!(find_room(4, &id(&[]), &id(&[0, 0, 0, 0, 2])), Some((4, 1)));
    assert_eq!(find_room(4, &id(&[]), &id(&[0, 0, 0, 0, 1])), None);
}

#[test]
fn there_is_room_between_large_numbers() {
    assert_eq!(find_room(4, &id(&[u64::MAX - 1]), &id(&[u64::MAX])), Some((1, 7)));
    let (p, q) = (id(&[(1 << 61) - 1, 8]), id(&[(1 << 61) - 1, 9]));
    assert_eq!(find_room(4, &p, &q), Some((2, 15)));
    // More identifiers than can be counted.
    assert_eq!(find_room(1 << 62, &id(&[5]), &id(&[6, u64::MAX])), Some((1, u64::MAX)));
}

#[test]
fn levels_are_weighed_by_their_arity() {
    // 61, 62 and 63 are free below 6.
    assert_eq!(find_room(32, &id(&[6, 60]), &id(&[7])), Some((1, 3)));
    assert_eq!(find_room(32, &id(&[6]), &id(&[7])), Some((1, 63)));
    assert_eq!(find_room(2, &id(&[1]), &id(&[])), Some((1, 7)));
    assert_eq!(find_room(1, &id(&[]), &id(&[])), Some((1, 3)));
}

#[test]
fn full_levels_are_passed_over() {
    assert_eq!(find_room(4, &id(&[1, 6]), &id(&[2, 5])), Some((1, 6)));
    assert_eq!(find_room(4, &id(&[1, 7]), &id(&[2, 5])), Some((2, 15)));
    assert_eq!(find_room(4, &id(&[1, 7]), &id(&[2])), Some((2, 31)));
    // So are numbers beyond the end of their level.
    assert_eq!(find_room(4, &id(&[1, 10]), &id(&[2])), Some((2, 31)));
    assert_eq!(find_room(4, &id(&[10]), &id(&[])), Some((1, 15)));
    // All five levels are full.
    assert_eq!(find_room(4, &id(&[3, 7, 15, 31, 63]), &id(&[])), None);
    assert_eq!(find_room(4, &id(&[3, 7, 15, 31, 62]), &id(&[])), Some((4, 65)));
}

#[test]
fn there_is_room_between_all_short_identifiers_in_order() {
    for root in [1, 2, 4, 32] {
        let mut all = vec![id(&[])];
        for a in 0..4 {
            all.push(id(&[a]));
            for b in 0..4 {
                all.push(id(&[a, b]));
            }
        }
        for (i, p) in all.iter().enumerate() {
            assert!(find_room(root, p, &id(&[])).is_some());
            for q in &all[i + 1..] {
                // Nothing lies before a zero at the end.
                if q.at(q.len() - 1) > 0 {
                    assert!(find_room(root, p, q).is_some());
                }
            }
        }
    }
}

#[test]
fn steps_stay_within_boundary_interval_and_level() {
    for up in [true, false] {
        assert_eq!(pick_step(32, 10, &id(&[6]), &id(&[]), 0, 25, up), 10);
        assert_eq!(pick_step(32, 10, &id(&[6]), &id(&[9]), 0, 2, up), 2);
        assert_eq!(pick_step(4, 10, &id(&[3]), &id(&[]), 1, 15, up), 10);
        assert_eq!(pick_step(4, 255, &id(&[3]), &id(&[]), 1, 15, up), 13);
        // Only 7 is free below 1.
        assert_eq!(pick_step(4, 10, &id(&[1, 6]), &id(&[2, 5]), 1, 6, up), 1);
        assert_eq!(pick_step(4, 0, &id(&[]), &id(&[]), 0, 3, up), 0);
    }
    // Down from a number beyond the level, a whole step leads to 2.
    assert_eq!(pick_step(4, 255, &id(&[1]), &id(&[2, 10]), 1, 17, false), 17);
    assert_eq!(pick_step(4, 255, &id(&[1]), &id(&[2, 10]), 1, 17, true), 13);
}

#[test]
fn paths_are_compared_number_by_number() {
    assert!(go_together(&id(&[1, 2]), &id(&[1, 3]), 1));
    assert!(!go_together(&id(&[1, 2]), &id(&[1, 3]), 2));
    assert!(go_together(&id(&[1]), &id(&[1, 0, 4]), 2));
    // The end of the sequence has no path.
    assert!(!go_together(&id(&[1]), &id(&[]), 0));
    assert_eq!(digit_at(&id(&[5, 6]), 1), 6);
    assert_eq!(digit_at(&id(&[5, 6]), 2), 0);
    assert_eq!(reach_at(4, &id(&[5, 6]), 1), 6);
    assert_eq!(reach_at(4, &id(&[5, 6]), 2), 0);
    assert_eq!(reach_at(4, &id(&[5, 6]), 3), 32);
    assert_eq!(reach_at(4, &id(&[5, 0]), 2), 16);
    assert_eq!(reach_at(4, &id(&[]), 0), 4);
}

#[test]
fn numbers_are_counted_up_or_down_by_half_a_step() {
    assert_eq!(pick_number(32, &id(&[6]), &id(&[]), 0, 10, true), Some(12));
    assert_eq!(pick_number(32, &id(&[]), &id(&[]), 1, 4, true), Some(3));
    assert_eq!(pick_number(32, &id(&[6]), &id(&[20]), 0, 10, false), Some(15));
    assert_eq!(pick_number(32, &id(&[6]), &id(&[]), 0, 10, false), Some(26));
    assert_eq!(pick_number(32, &id(&[6]), &id(&[7]), 1, 10, false), Some(58));
    // Down from a number of q by one at least.
    assert_eq!(pick_number(4, &id(&[]), &id(&[3]), 0, 1, false), Some(2));
    assert_eq!(pick_number(4, &id(&[]), &id(&[3]), 0, 0, false), Some(2));
    // Also where q is on another path, if that leads past p on the level.
    assert_eq!(pick_number(4, &id(&[1]), &id(&[2, 5]), 1, 2, false), Some(4));
    assert_eq!(pick_number(4, &id(&[1]), &id(&[2, 3]), 1, 1, false), Some(3));
    // Else down from the end of the level.
    assert_eq!(pick_number(4, &id(&[1, 4]), &id(&[2, 5]), 1, 2, false), Some(6));
    assert_eq!(pick_number(4, &id(&[1]), &id(&[2, 9]), 1, 2, false), Some(6));
    assert_eq!(pick_number(4, &id(&[1]), &id(&[2, 1]), 1, 4, false), Some(5));
    assert_eq!(pick_number(4, &id(&[2]), &id(&[2, 5]), 1, 2, false), Some(4));
}

#[test]
fn numbers_that_do_not_fit_are_not_picked() {
    assert_eq!(pick_number(4, &id(&[u64::MAX]), &id(&[]), 0, 0, true), None);
    assert_eq!(pick_number(4, &id(&[u64::MAX - 1]), &id(&[]), 0, 2, true), None);
    assert_eq!(pick_number(4, &id(&[]), &id(&[]), 0, 8, false), None);
    assert_eq!(pick_number(0, &id(&[]), &id(&[]), 0, 0, false), None);
    assert_eq!(pick_number(4, &id(&[]), &id(&[2]), 0, 6, false), None);
}

#[test]
fn strategies_choose_sides() {
    for depth in 0..6 {
        assert_eq!(LSeqStrategy::Alternate.choose_side(depth, false), depth % 2 == 0);
        assert_eq!(LSeqStrategy::Alternate.choose_side(depth, true), depth % 2 == 0);
        assert!(LSeqStrategy::BoundaryPlus.choose_side(depth, false));
        assert!(!LSeqStrategy::BoundaryMinus.choose_side(depth, true));
        assert!(LSeqStrategy::Random.choose_side(depth, true));
        assert!(!LSeqStrategy::Random.choose_side(depth, false));
    }
}

#[test]
fn sides_are_chosen_for_each_depth_whichever_is_asked_for_first() {
    let mut sides = vec![];
    assert!(!LSeqStrategy::Alternate.extend_sides(&mut sides, 3));
    assert_eq!(sides, vec![true, false, true, false]);
    assert!(LSeqStrategy::Alternate.extend_sides(&mut sides, 0));
    assert_eq!(sides.len(), 4);
}

#[test]
fn random_sides_are_tossed_once_and_are_not_all_alike() {
    let mut sides = vec![];
    let last = LSeqStrategy::Random.extend_sides(&mut sides, 255);
    assert_eq!(sides.len(), 256);
    assert_eq!(sides[255], last);
    assert!(sides.contains(&true));
    assert!(sides.contains(&false));
    let known = sides.clone();
    for depth in 0..256 {
        assert_eq!(LSeqStrategy::Random.extend_sides(&mut sides, depth), known[depth]);
    }
    assert_eq!(sides, known);
}

#[test]
fn sides_that_are_there_are_kept() {
    let mut sides = vec![false, false];
    assert!(!LSeqStrategy::BoundaryPlus.extend_sides(&mut sides, 1));
    assert!(LSeqStrategy::BoundaryPlus.extend_sides(&mut sides, 2));
    assert_eq!(sides, vec![false, false, true]);
}

#[test]
fn the_greatest_depth_has_a_side_that_is_not_listed() {
    let mut sides = vec![true];
    assert!(!LSeqStrategy::Alternate.extend_sides(&mut sides, usize::MAX));
    assert!(LSeqStrategy::Random.extend_sides(&mut sides, usize::MAX));
    assert!(LSeqStrategy::BoundaryPlus.extend_sides(&mut sides, usize::MAX));
    assert!(!LSeqStrategy::BoundaryMinus.extend_sides(&mut sides, usize::MAX));
    assert_eq!(sides, vec![true]);
}
