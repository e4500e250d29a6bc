//! What holds of every state that a sequence comes to by the operations that it is given.
use crate::actor::{lawful, Actor};
use crate::between::{has_levels, within};
use crate::clock_laws::merged_is_least;
use crate::identifier::path_before_is_total;
use crate::laws::acceptance_is_kept;
use crate::lseq::{accepted, may_become, Op};
use crate::state::{bound, State};
use crate::strategy::{follows, kept_sides_follow};
use crate::tree::{is_reading, leads_to, live, payload_at, place_before, Place, Slot};
use crate::vclock::{causality, count, covers};
use vstd::prelude::*;

verus! {

impl<V, A> State<V, A> {
    /// Nothing has been done yet.
    pub open spec fn is_new(self) -> bool {
        &&& self.strategies == Seq::<bool>::empty()
        &&& self.tree == Map::<Seq<u64>, Slot<V, A>>::empty()
        &&& self.clock == Map::<A, u64>::empty()
    }
}

/// A new sequence, in the state `states[0]`, comes from each state to the next by `ops`.
pub open spec fn is_history<V: Ord + Clone, A: Actor>(
    states: Seq<State<V, A>>,
    ops: Seq<Op<V, A>>,
) -> bool {
    &&& states.len() == ops.len() + 1
    &&& states[0].is_new()
    &&& forall|i: int|
        0 <= i < ops.len() ==> accepted(states[i], #[trigger] ops[i]) && may_become(
            states[i],
            ops[i],
            states[i + 1],
        )
}

/// What operations make of one place: a path with a value does not end with zero, and a major
/// node has two mini-nodes of concurrent operations, each under the clock of its value.
pub open spec fn place_is_made<V, A>(path: Seq<u64>, slot: Slot<V, A>) -> bool {
    match slot {
        Slot::Node { payload } => payload.value is Some ==> path.len() > 0 && path.last() > 0,
        Slot::Major { minis } => {
            &&& path.len() > 0
            &&& path.last() > 0
            &&& minis.len() == 2
            &&& causality(minis[0].0, minis[1].0) is Concurrent
            &&& minis[0].1.value is Some ==> minis[0].1.clock == minis[0].0
            &&& minis[1].1.value is Some ==> minis[1].1.clock == minis[1].0
        },
    }
}

/// An operation leaves each place as operations make it.
proof fn operation_makes_places<V: Ord + Clone, A: Actor>(
    s: State<V, A>,
    op: Op<V, A>,
    after: State<V, A>,
)
    requires
        accepted(s, op),
        may_become(s, op, after),
        forall|x: Seq<u64>| #[trigger] s.tree.contains_key(x) ==> place_is_made(x, s.tree[x]),
    ensures
        forall|x: Seq<u64>| #[trigger]
            after.tree.contains_key(x) ==> place_is_made(x, after.tree[x]),
{
    assert forall|x: Seq<u64>| #[trigger] after.tree.contains_key(x) implies place_is_made(
        x,
        after.tree[x],
    ) by {
        if s.tree.contains_key(x) {
            assert(place_is_made(x, s.tree[x]));
        }
        if let Op::Insert { clock, value, p, q } = op {
            if clock@ != Map::<A, u64>::empty() {
                s.new_id_ends_above_zero(bound(p), bound(q), after.strategies);
            }
        }
    }
}

/// Each place is as operations make it.
proof fn history_makes_places<V: Ord + Clone, A: Actor>(
    states: Seq<State<V, A>>,
    ops: Seq<Op<V, A>>,
    n: int,
)
    requires
        is_history(states, ops),
        0 <= n < states.len(),
    ensures
        forall|x: Seq<u64>| #[trigger]
            states[n].tree.contains_key(x) ==> place_is_made(x, states[n].tree[x]),
    decreases n,
{
    if n > 0 {
        history_makes_places(states, ops, n - 1);
        let op = ops[n - 1];
        operation_makes_places(states[n - 1], op, states[n]);
    }
}

/// Every identifier that is read ends with a number above zero, whatever the strategy.
pub proof fn read_identifiers_end_above_zero<V: Ord + Clone, A: Actor>(
    states: Seq<State<V, A>>,
    ops: Seq<Op<V, A>>,
    n: int,
    at: Place,
)
    requires
        is_history(states, ops),
        0 <= n < states.len(),
        live(states[n].tree, at),
    ensures
        at.0.len() > 0,
        at.0.last() >= 1,
{
    history_makes_places(states, ops, n);
    assert(place_is_made(at.0, states[n].tree[at.0]));
}

/// No identifier is read more than twice. The entries of one that is read twice are of
/// concurrent operations.
pub proof fn identifiers_are_read_twice_at_most<V: Ord + Clone, A: Actor>(
    states: Seq<State<V, A>>,
    ops: Seq<Op<V, A>>,
    n: int,
    places: Seq<Place>,
    i: int,
    j: int,
)
    requires
        is_history(states, ops),
        0 <= n < states.len(),
        is_reading(states[n].tree, places),
        0 <= i < j < places.len(),
        places[i].0 == places[j].0,
    ensures
        causality(
            payload_at(states[n].tree, places[i]).clock,
            payload_at(states[n].tree, places[j]).clock,
        ) is Concurrent,
        forall|k: int|
            0 <= k < places.len() && k != i && k != j ==> (#[trigger] places[k]).0 != places[i].0,
{
    let t = states[n].tree;
    history_makes_places(states, ops, n);
    path_before_is_total(places[i].0, places[i].0);
    assert(place_before(places[i], places[j]));
    assert(live(t, places[i]) && live(t, places[j]));
    assert(place_is_made(places[i].0, t[places[i].0]));
    assert forall|k: int| 0 <= k < places.len() && k != i && k != j implies (
    #[trigger] places[k]).0 != places[i].0 by {
        assert(live(t, places[k]));
        if places[k].0 == places[i].0 {
            if k < i {
                assert(place_before(places[k], places[i]));
            } else {
                assert(place_before(places[i], places[k]));
                if k < j {
                    assert(place_before(places[k], places[j]));
                } else {
                    assert(place_before(places[j], places[k]));
                }
            }
        }
    }
}

/// What a sequence is set up with stays; the sides chosen so far are kept, and where the
/// strategy fixes a side, it is that one.
pub proof fn history_keeps_sides<V: Ord + Clone, A: Actor>(
    states: Seq<State<V, A>>,
    ops: Seq<Op<V, A>>,
    m: int,
    n: int,
)
    requires
        is_history(states, ops),
        0 <= m <= n < states.len(),
    ensures
        states[n].boundary == states[m].boundary,
        states[n].root_arity == states[m].root_arity,
        states[n].strategy == states[m].strategy,
        states[m].strategies.len() <= states[n].strategies.len(),
        forall|k: int|
            0 <= k < states[m].strategies.len() ==> #[trigger] states[n].strategies[k]
                == states[m].strategies[k],
        follows(states[n].strategy, states[n].strategies),
    decreases n,
{
    if n > m {
        history_keeps_sides(states, ops, m, n - 1);
        let (s, op, after) = (states[n - 1], ops[n - 1], states[n]);
        if after.strategies != s.strategies {
            kept_sides_follow(s.strategy, s.strategies, after.strategies);
        }
        assert forall|k: int| 0 <= k < states[m].strategies.len() implies (
        #[trigger] after.strategies[k]) == states[m].strategies[k] by {
            assert(s.strategies[k] == states[m].strategies[k]);
        }
    } else if n > 0 {
        history_keeps_sides(states, ops, 0, n - 1);
        let (s, op, after) = (states[n - 1], ops[n - 1], states[n]);
        if after.strategies != s.strategies {
            kept_sides_follow(s.strategy, s.strategies, after.strategies);
        }
    }
}

/// Every state that a sequence comes to is valid.
pub proof fn history_is_valid<V: Ord + Clone, A: Actor>(
    states: Seq<State<V, A>>,
    ops: Seq<Op<V, A>>,
    n: int,
)
    requires
        lawful::<A>(),
        is_history(states, ops),
        0 <= n < states.len(),
    ensures
        states[n].valid(),
    decreases n,
{
    if n > 0 {
        history_is_valid(states, ops, n - 1);
        let (s, op, after) = (states[n - 1], ops[n - 1], states[n]);
        match op {
            Op::Insert { clock, value, p, q } => {
                if clock@ != Map::<A, u64>::empty() {
                    s.inserted_is_valid(bound(p), bound(q), clock@, value, after.strategies);
                }
            },
            Op::Delete { clock, id } => {
                s.deleted_is_valid(id@, clock@);
            },
        }
    }
}

/// Whether an operation can be applied is the same in every state.
pub proof fn history_keeps_acceptance<V: Ord + Clone, A: Actor>(
    states: Seq<State<V, A>>,
    ops: Seq<Op<V, A>>,
    m: int,
    n: int,
    op: Op<V, A>,
)
    requires
        is_history(states, ops),
        0 <= m <= n < states.len(),
    ensures
        accepted(states[n], op) == accepted(states[m], op),
    decreases n - m,
{
    if n > m {
        history_keeps_acceptance(states, ops, m, n - 1, op);
        let other = ops[n - 1];
        acceptance_is_kept(states[n - 1], other, states[n], op);
    }
}

/// The clock of a sequence never loses what it has seen.
pub proof fn history_only_sees_more<V: Ord + Clone, A: Actor>(
    states: Seq<State<V, A>>,
    ops: Seq<Op<V, A>>,
    m: int,
    n: int,
)
    requires
        is_history(states, ops),
        0 <= m <= n < states.len(),
    ensures
        covers(states[n].clock, states[m].clock),
    decreases n - m,
{
    if n > m {
        history_only_sees_more(states, ops, m, n - 1);
        let (s, op, after) = (states[n - 1], ops[n - 1], states[n]);
        let c = match op {
            Op::Insert { clock, value, p, q } => clock@,
            Op::Delete { clock, id } => clock@,
        };
        merged_is_least(s.clock, c, s.clock);
        assert(covers(after.clock, s.clock));
        let first = states[m].clock;
        assert forall|a: A| #[trigger] first.contains_key(a) implies count(after.clock, a)
            >= first[a] by {
            assert(count(s.clock, a) >= first[a]);
            if s.clock.contains_key(a) {
                assert(count(after.clock, a) >= s.clock[a]);
            }
        }
    }
}

/// An operation does not bring in numbers that reach the arity of their level.
pub open spec fn bounds_are_within<V: Ord + Clone, A: Actor>(root: u64, op: Op<V, A>) -> bool {
    op matches Op::Insert { clock, value, p, q } ==> within(root, bound(p)) && within(
        root,
        bound(q),
    )
}

/// If inserts are bounded by numbers below the arities of their levels, all numbers in the
/// tree stay below them.
pub proof fn history_stays_within<V: Ord + Clone, A: Actor>(
    states: Seq<State<V, A>>,
    ops: Seq<Op<V, A>>,
    n: int,
    x: Seq<u64>,
)
    requires
        is_history(states, ops),
        has_levels(states[0].root_arity),
        forall|i: int|
            0 <= i < ops.len() ==> bounds_are_within(states[0].root_arity, #[trigger] ops[i]),
        0 <= n < states.len(),
        states[n].tree.contains_key(x),
    ensures
        within(states[n].root_arity, x),
    decreases n,
{
    if n > 0 {
        history_keeps_sides(states, ops, 0, n - 1);
        history_keeps_sides(states, ops, 0, n);
        let (s, op, after) = (states[n - 1], ops[n - 1], states[n]);
        if s.tree.contains_key(x) {
            history_stays_within(states, ops, n - 1, x);
        } else if let Op::Insert { clock, value, p, q } = op {
            let (lo, hi) = (bound(p), bound(q));
            let id = s.new_id(lo, hi, after.strategies);
            s.new_id_stays_within(lo, hi, after.strategies);
            // Only the new identifier and what leads to it are new.
            assert forall|i: int| 0 <= i < x.len() implies x[i] == id[i] by {
                let path = s.new_path(lo, hi);
                if leads_to(x, path) {
                    assert(path.take(x.len() as int)[i] == x[i]);
                }
            }
        }
    }
}

} // verus!
