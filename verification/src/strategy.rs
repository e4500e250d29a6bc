//! Allocation strategies: on which side of the interval between two identifiers a new
//! one is put.
use rand::Rng;
use vstd::prelude::*;

verus! {

/// Strategy to be used when allocating a new identifier: whether its number is counted up
/// from the identifier before it (boundary+) or down from the one after it (boundary-).
#[derive(Clone, Copy, Debug, PartialEq, Eq, Structural)]
pub enum LSeqStrategy {
    /// Boundary+ at even depths, boundary- at odd ones.
    Alternate,
    /// A coin is tossed for each depth, once.
    Random,
    /// Boundary+ at all depths.
    BoundaryPlus,
    /// Boundary- at all depths.
    BoundaryMinus,
}

/// The side that `strategy` asks for at `depth`, unless a coin decides: `true` stands for
/// boundary+, `false` for boundary-.
pub open spec fn fixed_side(strategy: LSeqStrategy, depth: int) -> Option<bool> {
    match strategy {
        LSeqStrategy::Alternate => Some(depth % 2 == 0),
        LSeqStrategy::Random => None,
        LSeqStrategy::BoundaryPlus => Some(true),
        LSeqStrategy::BoundaryMinus => Some(false),
    }
}

/// The side for `depth`, where a coin that decides has shown `coin`.
pub open spec fn side(strategy: LSeqStrategy, depth: int, coin: bool) -> bool {
    match fixed_side(strategy, depth) {
        Some(up) => up,
        None => coin,
    }
}

/// `sides` holds for each of its depths a side that `strategy` allows there.
pub open spec fn follows(strategy: LSeqStrategy, sides: Seq<bool>) -> bool {
    forall|k: int|
        0 <= k < sides.len() && fixed_side(strategy, k) is Some ==> #[trigger] sides[k]
            == fixed_side(strategy, k)->0
}

/// From `from` on, `sides` holds for each of its depths a side that `strategy` allows there.
pub open spec fn follows_from(strategy: LSeqStrategy, sides: Seq<bool>, from: int) -> bool {
    forall|k: int|
        from <= k < sides.len() && fixed_side(strategy, k) is Some ==> #[trigger] sides[k]
            == fixed_side(strategy, k)->0
}

/// `new` keeps the sides that `known` holds, and goes on, if it has to, so as to reach down
/// to `depth`.
pub open spec fn reaches(known: Seq<bool>, new: Seq<bool>, depth: int) -> bool {
    &&& known.len() <= new.len()
    &&& new.take(known.len() as int) == known
    &&& new.len() == if depth < known.len() {
        known.len() as int
    } else {
        depth + 1
    }
}

/// Calls `rand::Rng::gen_ratio` on the random number generator of the thread: `true` with
/// a chance of `numerator` in `denominator`. Claimed of every outcome is only that a chance
/// of nothing is never met and that a sure thing always is.
#[verifier::external_body]
fn gen_ratio(numerator: u32, denominator: u32) -> (r: bool)
    requires
        0 < denominator,
        numerator <= denominator,
    ensures
        numerator == 0 ==> !r,
        numerator == denominator ==> r,
{
    rand::thread_rng().gen_ratio(numerator, denominator)
}

impl LSeqStrategy {
    /// The side for `depth`, where a coin that decides has shown `coin`.
    pub fn choose_side(self, depth: usize, coin: bool) -> (r: bool)
        ensures
            r == side(self, depth as int, coin),
    {
        match self {
            LSeqStrategy::Alternate => depth % 2 == 0,
            LSeqStrategy::Random => coin,
            LSeqStrategy::BoundaryPlus => true,
            LSeqStrategy::BoundaryMinus => false,
        }
    }

    /// Makes `sides` reach down to `depth`, and tells the side for `depth`. Sides that are
    /// there already are kept. No list is long enough for the greatest depth of all: there no
    /// coin is tossed, and boundary+ stands for it.
    pub fn extend_sides(self, sides: &mut Vec<bool>, depth: usize) -> (r: bool)
        ensures
            depth < usize::MAX ==> reaches(old(sides)@, final(sides)@, depth as int) && r
                == final(sides)@[depth as int],
            depth == usize::MAX ==> final(sides)@ == old(sides)@ && r == side(
                self,
                depth as int,
                true,
            ),
            follows_from(self, final(sides)@, old(sides)@.len() as int),
            follows(self, old(sides)@) ==> follows(self, final(sides)@),
            depth < old(sides)@.len() ==> r == old(sides)@[depth as int],
            fixed_side(self, depth as int) matches Some(up) ==> depth >= old(sides)@.len()
                || follows(self, old(sides)@) ==> r == up,
    {
        let ghost known = sides@;
        assert(known.len() == sides.len());
        if depth == usize::MAX {
            return self.choose_side(depth, true);
        }
        assert(known.take(known.len() as int) =~= known);
        while sides.len() <= depth
            invariant
                follows_from(self, sides@, known.len() as int),
                depth < usize::MAX,
                known.len() <= sides@.len(),
                sides@.take(known.len() as int) == known,
                sides@.len() <= if depth < known.len() {
                    known.len() as int
                } else {
                    depth + 1
                },
            decreases depth + 1 - sides@.len(),
        {
            let coin = match self {
                LSeqStrategy::Random => gen_ratio(1, 2),
                _ => false,
            };
            let ghost before = sides@;
            let next = self.choose_side(sides.len(), coin);
            sides.push(next);
            assert(sides@.take(known.len() as int) =~= before.take(known.len() as int));
        }
        proof {
            kept_sides_follow(self, known, sides@);
        }
        sides[depth]
    }
}

/// Sides that are kept follow the strategy if they did before; with those that are new they
/// all do.
pub proof fn kept_sides_follow(strategy: LSeqStrategy, known: Seq<bool>, new: Seq<bool>)
    requires
        known.len() <= new.len(),
        new.take(known.len() as int) == known,
        follows_from(strategy, new, known.len() as int),
    ensures
        forall|k: int| 0 <= k < known.len() ==> #[trigger] new[k] == known[k],
        follows(strategy, known) ==> follows(strategy, new),
{
    assert forall|k: int| 0 <= k < known.len() implies #[trigger] new[k] == known[k] by {
        assert(new.take(known.len() as int)[k] == new[k]);
    }
}

/// Where no coin decides, a side goes by its depth alone: under the alternating strategy it is
/// boundary+ at even depths and boundary- at odd ones, under the others it is always the same.
pub proof fn sides_go_by_depth(strategy: LSeqStrategy, sides: Seq<bool>, k: int)
    requires
        follows(strategy, sides),
        0 <= k < sides.len(),
    ensures
        match strategy {
            LSeqStrategy::Alternate => sides[k] == (k % 2 == 0),
            LSeqStrategy::Random => true,
            LSeqStrategy::BoundaryPlus => sides[k],
            LSeqStrategy::BoundaryMinus => !sides[k],
        },
{
}

/// A side that was once chosen for a depth is kept, whatever depths are asked for afterwards
/// and however often. Here `cache[i + 1]` holds the sides after `depths[i]` is asked for.
pub proof fn chosen_sides_are_kept(
    cache: Seq<Seq<bool>>,
    depths: Seq<int>,
    i: int,
    j: int,
    k: int,
)
    requires
        cache.len() == depths.len() + 1,
        forall|n: int|
            0 <= n < depths.len() ==> reaches(cache[n], cache[n + 1], #[trigger] depths[n]),
        0 <= i <= j < cache.len(),
        0 <= k < cache[i].len(),
    ensures
        k < cache[j].len(),
        cache[j][k] == cache[i][k],
    decreases j - i,
{
    if i < j {
        chosen_sides_are_kept(cache, depths, i, j - 1, k);
        let before = cache[j - 1];
        assert(reaches(before, cache[j - 1 + 1], depths[j - 1]));
        assert(cache[j].take(before.len() as int)[k] == cache[j][k]);
    }
}

/// The side that is asked for at a depth: by its parity under the alternating strategy, always
/// the same under boundary+ and boundary-, and what the coin shows under the random one.
pub proof fn sides_are_as_asked(depth: int, coin: bool)
    ensures
        side(LSeqStrategy::Alternate, depth, coin) <==> depth % 2 == 0,
        side(LSeqStrategy::BoundaryPlus, depth, coin),
        !side(LSeqStrategy::BoundaryMinus, depth, coin),
        side(LSeqStrategy::Random, depth, coin) == coin,
        fixed_side(LSeqStrategy::Random, depth) is None,
        fixed_side(LSeqStrategy::Alternate, depth) is Some,
        fixed_side(LSeqStrategy::BoundaryPlus, depth) is Some,
        fixed_side(LSeqStrategy::BoundaryMinus, depth) is Some,
{
}

/// Sides that a strategy asks for follow it, and only these: under the random one, all do.
pub proof fn following_goes_by_depth(strategy: LSeqStrategy, sides: Seq<bool>, from: int)
    requires
        0 <= from,
    ensures
        follows_from(strategy, sides, from) <==> match strategy {
            LSeqStrategy::Alternate => forall|k: int|
                from <= k < sides.len() ==> (#[trigger] sides[k] <==> k % 2 == 0),
            LSeqStrategy::Random => true,
            LSeqStrategy::BoundaryPlus => forall|k: int|
                from <= k < sides.len() ==> #[trigger] sides[k],
            LSeqStrategy::BoundaryMinus => forall|k: int|
                from <= k < sides.len() ==> !#[trigger] sides[k],
        },
        follows(strategy, sides) <==> follows_from(strategy, sides, 0),
{
}

/// Sides are kept one by one, and the list of them ends at the depth asked for unless it went
/// further before.
pub proof fn reaching_keeps_and_extends(known: Seq<bool>, new: Seq<bool>, depth: int)
    requires
        0 <= depth,
    ensures
        reaches(known, new, depth) <==> {
            &&& depth < known.len() ==> new == known
            &&& depth >= known.len() ==> new.len() == depth + 1 && forall|k: int|
                0 <= k < known.len() ==> #[trigger] new[k] == known[k]
        },
{
    if reaches(known, new, depth) {
        assert forall|k: int| 0 <= k < known.len() implies #[trigger] new[k] == known[k] by {
            assert(new.take(known.len() as int)[k] == new[k]);
        }
        if depth < known.len() {
            assert(new.take(known.len() as int) =~= new);
        }
    }
    if depth < known.len() && new == known {
        assert(new.take(known.len() as int) =~= known);
    }
    if depth >= known.len() && new.len() == depth + 1 && forall|k: int|
        0 <= k < known.len() ==> #[trigger] new[k] == known[k] {
        assert(new.take(known.len() as int) =~= known);
    }
}

} // verus!
