//! Actors: the sites that take part, and what is asked of their type.
use vstd::laws_cmp::obeys_cmp;
use vstd::prelude::*;
use vstd::std_specs::cmp::OrdSpec;

verus! {

/// A type whose values name the sites that operate on a sequence.
pub trait Actor: Ord + Clone {

}

impl<A: Ord + Clone> Actor for A {

}

/// How one actor stands to another in the order of their type.
#[derive(Clone, Copy, Debug, PartialEq, Eq, Structural)]
pub enum Rank {
    Before,
    Same,
    After,
}

/// `a` comes strictly before `b` in the order of their type.
pub open spec fn before<A: Ord>(a: A, b: A) -> bool {
    a.cmp_spec(&b) is Less
}

/// The type keeps the promises of `Ord` and `Clone`: its order is total, only equal
/// values rank the same, and a clone equals the value it was made from.
pub open spec fn lawful<A: Actor>() -> bool {
    &&& obeys_cmp::<A>()
    &&& forall|a: A, b: A| #[trigger] a.cmp_spec(&b) is Equal <==> a == b
    &&& forall|a: A, b: A| #[trigger] cloned(a, b) ==> a == b
}

/// Integers are fit to name actors.
pub proof fn integers_are_lawful()
    ensures
        lawful::<u8>(),
        lawful::<u16>(),
        lawful::<u32>(),
        lawful::<u64>(),
        lawful::<u128>(),
        lawful::<usize>(),
        lawful::<i8>(),
        lawful::<i16>(),
        lawful::<i32>(),
        lawful::<i64>(),
        lawful::<i128>(),
        lawful::<isize>(),
{
    broadcast use vstd::laws_cmp::group_laws_cmp;

}

/// The order of a lawful type is irreflexive, asymmetric, transitive and total.
pub proof fn before_is_total_order<A: Actor>()
    requires
        lawful::<A>(),
    ensures
        forall|a: A| !#[trigger] before(a, a),
        forall|a: A, b: A| #[trigger] before(a, b) ==> !before(b, a),
        forall|a: A, b: A, c: A| #[trigger]
            before(a, b) && #[trigger] before(b, c) ==> before(a, c),
        forall|a: A, b: A| a != b ==> #[trigger] before(a, b) || before(b, a),
{
    reveal(vstd::laws_cmp::obeys_partial_cmp_spec_properties);
    reveal(vstd::laws_cmp::obeys_cmp_ord);
    reveal(vstd::laws_cmp::obeys_cmp_partial_ord);
}

/// Ranks `a` against `b`.
pub fn rank<A: Actor>(a: &A, b: &A) -> (r: Rank)
    requires
        lawful::<A>(),
    ensures
        r is Before <==> before(*a, *b),
        r is Same <==> *a == *b,
        r is After <==> before(*b, *a),
{
    proof {
        before_is_total_order::<A>();
        reveal(vstd::laws_cmp::obeys_cmp_ord);
    }
    match a.cmp(b) {
        std::cmp::Ordering::Less => Rank::Before,
        std::cmp::Ordering::Equal => Rank::Same,
        std::cmp::Ordering::Greater => Rank::After,
    }
}

/// Actors that are numbers come in the order of the numbers.
pub proof fn numbers_come_in_their_order(a: u64, b: u64)
    ensures
        before(a, b) <==> a < b,
{
}

} // verus!
