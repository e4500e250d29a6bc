//! What holds of sequences whatever is done to them.
use crate::actor::{lawful, Actor};
use crate::allocation::DEEPEST;
use crate::between::{bounds_above, room_is_first};
use crate::clock_laws::merged_is_least;
use crate::clock_order::{clock_before, clock_before_is_total};
use crate::identifier::{path_before, path_before_is_total};
use crate::lseq::{accepted, may_become, Op};
use crate::state::{bound, State};
use crate::strategy::fixed_side;
use crate::tree::{
    is_reading, live, lookup, payload_at, payload_seen, place_before, placeholder, settled,
    slot_cleared, slot_seen, takes, Payload, Place, Slot, Tree,
};
use crate::vclock::{causality, count, covers, forgotten, merged};
use vstd::prelude::*;

verus! {

/// In a reading, what stands at a path comes before what stands at a later path.
pub proof fn readings_follow_paths<V, A>(t: Tree<V, A>, places: Seq<Place>, i: int, j: int)
    requires
        is_reading(t, places),
        0 <= i < places.len(),
        0 <= j < places.len(),
        path_before(places[i].0, places[j].0),
    ensures
        i < j,
{
    path_before_is_total(places[i].0, places[j].0);
    path_before_is_total(places[i].0, places[i].0);
    if j < i {
        assert(place_before(places[j], places[i]));
    }
}

impl<V, A> State<V, A> {
    /// What a taken insert puts where nothing stood is read there; all else is read as
    /// before.
    pub proof fn insert_adds_value(
        self,
        p: Seq<u64>,
        q: Seq<u64>,
        clock: Map<A, u64>,
        value: V,
        sides: Seq<bool>,
    ) where A: Actor
        requires
            self.can_insert(p, q),
            self.may_choose(p, q, sides),
            !self.tree.contains_key(self.new_id(p, q, sides)),
        ensures
            ({
                let t = self.inserted(p, q, clock, value, sides).tree;
                let id = self.new_id(p, q, sides);
                &&& forall|at: Place| #[trigger]
                    live(t, at) <==> live(self.tree, at) || at == (id, 0int)
                &&& payload_at(t, (id, 0int)) == (Payload { clock, value: Some(value) })
                &&& forall|at: Place| #[trigger]
                    live(self.tree, at) ==> payload_at(t, at) == payload_at(self.tree, at)
            }),
    {
        let t = self.inserted(p, q, clock, value, sides).tree;
        let id = self.new_id(p, q, sides);
        assert forall|at: Place| #[trigger] live(t, at) <==> live(self.tree, at) || at == (
            id,
            0int,
        ) by {
            if at.0 != id && t.contains_key(at.0) && !self.tree.contains_key(at.0) {
                assert(t[at.0] == placeholder::<V, A>());
            }
        }
    }

    /// An inserted value is read after what stands at `p` and before what stands at `q`, on
    /// whichever side its identifier is put.
    pub proof fn inserted_value_reads_between(
        self,
        p: Seq<u64>,
        q: Seq<u64>,
        clock: Map<A, u64>,
        value: V,
        sides: Seq<bool>,
        places: Seq<Place>,
    ) where A: Actor
        requires
            self.can_insert(p, q),
            self.may_choose(p, q, sides),
            bounds_above(p, q),
            !self.tree.contains_key(self.new_id(p, q, sides)),
            is_reading(self.inserted(p, q, clock, value, sides).tree, places),
        ensures
            ({
                let id = self.new_id(p, q, sides);
                exists|n: int|
                    {
                        &&& 0 <= n < places.len()
                        &&& #[trigger] places[n] == (id, 0int)
                        &&& forall|i: int|
                            0 <= i < places.len() && (#[trigger] places[i]).0 == p ==> i < n
                        &&& forall|i: int|
                            0 <= i < places.len() && q.len() > 0 && (#[trigger] places[i]).0 == q
                                ==> n < i
                    }
            }),
    {
        let t = self.inserted(p, q, clock, value, sides).tree;
        let id = self.new_id(p, q, sides);
        self.insert_adds_value(p, q, clock, value, sides);
        self.new_id_lies_between(p, q, sides);
        assert(live(t, (id, 0int)));
        let n = places.index_of((id, 0int));
        assert(places[n] == (id, 0int));
        assert forall|i: int| 0 <= i < places.len() && (#[trigger] places[i]).0 == p implies i
            < n by {
            readings_follow_paths(t, places, i, n);
        }
        assert forall|i: int|
            0 <= i < places.len() && q.len() > 0 && (#[trigger] places[i]).0 == q implies n < i by {
            readings_follow_paths(t, places, n, i);
        }
    }

    /// The place of an insert between neighbours in the tree is free.
    pub proof fn between_neighbours_is_free(self, p: Seq<u64>, q: Seq<u64>, sides: Seq<bool>)
        requires
            self.can_insert(p, q),
            self.may_choose(p, q, sides),
            bounds_above(p, q),
            forall|x: Seq<u64>| #[trigger]
                self.tree.contains_key(x) && path_before(p, x) ==> q.len() > 0 && !path_before(
                    x,
                    q,
                ),
        ensures
            !self.tree.contains_key(self.new_id(p, q, sides)),
    {
        self.new_id_lies_between(p, q, sides);
    }

    /// An insert that is not taken changes nothing that can be read.
    pub proof fn dropped_insert_changes_no_reading(
        self,
        p: Seq<u64>,
        q: Seq<u64>,
        clock: Map<A, u64>,
        value: V,
        sides: Seq<bool>,
    ) where A: Actor
        requires
            !takes(lookup(self.tree, self.new_id(p, q, sides)), clock),
        ensures
            ({
                let after = self.inserted(p, q, clock, value, sides);
                &&& after.clock == self.clock
                &&& forall|at: Place| #[trigger] live(after.tree, at) <==> live(self.tree, at)
                &&& forall|at: Place| #[trigger]
                    live(self.tree, at) ==> payload_at(after.tree, at) == payload_at(self.tree, at)
            }),
    {
        let after = self.inserted(p, q, clock, value, sides);
        assert forall|at: Place| #[trigger] live(after.tree, at) <==> live(self.tree, at) by {
            if after.tree.contains_key(at.0) && !self.tree.contains_key(at.0) {
                assert(after.tree[at.0] == placeholder::<V, A>());
            }
        }
    }

    /// An insert that meets a concurrent one keeps both values, in the order of their clocks.
    pub proof fn concurrent_insert_keeps_both(
        self,
        p: Seq<u64>,
        q: Seq<u64>,
        clock: Map<A, u64>,
        value: V,
        sides: Seq<bool>,
        met: Payload<V, A>,
    ) where A: Actor
        requires
            lawful::<A>(),
            clock.dom().finite(),
            met.clock.dom().finite(),
            lookup(self.tree, self.new_id(p, q, sides)) == Some(Slot::Node { payload: met }),
            causality(met.clock, clock) is Concurrent,
        ensures
            ({
                let t = self.inserted(p, q, clock, value, sides).tree;
                let id = self.new_id(p, q, sides);
                let ours = if clock_before(clock, met.clock) {
                    0int
                } else {
                    1int
                };
                &&& payload_at(t, (id, ours)) == (Payload { clock, value: Some(value) })
                &&& payload_at(t, (id, 1 - ours)) == met
                &&& live(t, (id, ours))
                &&& live(t, (id, 1 - ours)) <==> met.value is Some
                &&& clock_before(met.clock, clock) <==> ours == 1
                &&& forall|at: Place|
                    at.0 != id ==> (#[trigger] live(t, at) <==> live(self.tree, at))
            }),
    {
        let t = self.inserted(p, q, clock, value, sides).tree;
        let id = self.new_id(p, q, sides);
        clock_before_is_total(clock, met.clock);
        assert forall|at: Place| at.0 != id implies (#[trigger] live(t, at) <==> live(
            self.tree,
            at,
        )) by {
            if t.contains_key(at.0) && !self.tree.contains_key(at.0) {
                assert(t[at.0] == placeholder::<V, A>());
            }
        }
    }

    /// A delete takes out of the reading what stands at its identifier, but for mini-nodes
    /// whose clocks it has not seen. All else is read as before.
    pub proof fn delete_removes_value(self, id: Seq<u64>, clock: Map<A, u64>)
        ensures
            ({
                let t = self.deleted(id, clock).tree;
                &&& forall|at: Place| #[trigger]
                    live(t, at) <==> live(self.tree, at) && !(at.0 == id && (self.tree[id] is Node
                        || covers(clock, payload_at(self.tree, at).clock)))
                &&& forall|at: Place| #[trigger]
                    live(t, at) ==> payload_at(t, at) == payload_at(self.tree, at)
            }),
    {
    }

    /// A delete that has seen all that the sequence has leaves nothing to be read at its
    /// identifier.
    pub proof fn newer_delete_removes_all(self, id: Seq<u64>, clock: Map<A, u64>, at: Place) where
        A: Actor,

        requires
            self.valid(),
            covers(clock, self.clock),
            at.0 == id,
        ensures
            !live(self.deleted(id, clock).tree, at),
    {
        if live(self.tree, at) {
            let seen = payload_at(self.tree, at).clock;
            assert(slot_seen(self.tree[id], self.clock));
            if let Slot::Major { minis } = self.tree[id] {
                assert(payload_seen(minis[at.1].1, self.clock));
            }
            assert(covers(self.clock, seen));
            assert(covers(clock, seen)) by {
                assert forall|a: A| #[trigger] seen.contains_key(a) implies count(clock, a)
                    >= seen[a] by {
                    assert(count(self.clock, a) >= seen[a]);
                    if self.clock.contains_key(a) {
                        assert(count(clock, a) >= self.clock[a]);
                    }
                }
            }
        }
        self.delete_removes_value(id, clock);
    }

    /// A delete that finds no atom changes nothing.
    pub proof fn delete_spares_others(self, id: Seq<u64>, clock: Map<A, u64>)
        requires
            !self.tree.contains_key(id),
        ensures
            self.deleted(id, clock) == self,
    {
    }

    /// What an insert put where nothing stood, a delete takes out again.
    pub proof fn delete_undoes_insert(
        self,
        p: Seq<u64>,
        q: Seq<u64>,
        clock: Map<A, u64>,
        value: V,
        sides: Seq<bool>,
        later: Map<A, u64>,
    ) where A: Actor
        requires
            self.can_insert(p, q),
            self.may_choose(p, q, sides),
            !self.tree.contains_key(self.new_id(p, q, sides)),
        ensures
            ({
                let id = self.new_id(p, q, sides);
                let t = self.inserted(p, q, clock, value, sides).deleted(id, later).tree;
                &&& forall|at: Place| #[trigger] live(t, at) <==> live(self.tree, at)
                &&& forall|at: Place| #[trigger]
                    live(t, at) ==> payload_at(t, at) == payload_at(self.tree, at)
            }),
    {
        let id = self.new_id(p, q, sides);
        let mid = self.inserted(p, q, clock, value, sides);
        self.insert_adds_value(p, q, clock, value, sides);
        mid.delete_removes_value(id, later);
        let t = mid.deleted(id, later).tree;
        assert forall|at: Place| #[trigger] live(t, at) <==> live(self.tree, at) by {
            assert(live(mid.tree, at) <==> live(self.tree, at) || at == (id, 0int));
        }
        assert forall|at: Place| #[trigger] live(t, at) implies payload_at(t, at) == payload_at(
            self.tree,
            at,
        ) by {
            assert(live(mid.tree, at));
            assert(live(self.tree, at));
        }
    }

    /// Forgetting changes no value that is read; the clock of a reading forgets with it.
    pub proof fn forgetting_keeps_values(self, c: Map<A, u64>)
        ensures
            ({
                let t = self.forgot(c).tree;
                &&& forall|at: Place| #[trigger] live(t, at) <==> live(self.tree, at)
                &&& forall|at: Place| #[trigger]
                    live(t, at) ==> payload_at(t, at).value == payload_at(self.tree, at).value
                        && payload_at(t, at).clock == forgotten(payload_at(self.tree, at).clock, c)
            }),
    {
    }

    /// The clock of a sequence has seen no less after an insert or a delete; and it has seen
    /// the insert if that was taken, the delete if it found its atom.
    pub proof fn clock_only_grows(
        self,
        p: Seq<u64>,
        q: Seq<u64>,
        clock: Map<A, u64>,
        value: V,
        sides: Seq<bool>,
        id: Seq<u64>,
    ) where A: Actor
        ensures
            covers(self.inserted(p, q, clock, value, sides).clock, self.clock),
            takes(lookup(self.tree, self.new_id(p, q, sides)), clock) ==> covers(
                self.inserted(p, q, clock, value, sides).clock,
                clock,
            ),
            covers(self.deleted(id, clock).clock, self.clock),
            self.tree.contains_key(id) ==> covers(self.deleted(id, clock).clock, clock),
    {
        merged_is_least(self.clock, clock, self.clock);
    }

    /// An insert that has seen all that the sequence has is taken at a free place only.
    pub proof fn newer_insert_needs_free_place(self, x: Seq<u64>, clock: Map<A, u64>) where A: Actor
        requires
            self.valid(),
            covers(clock, self.clock),
        ensures
            takes(lookup(self.tree, x), clock) <==> !self.tree.contains_key(x),
    {
        if self.tree.contains_key(x) {
            assert(slot_seen(self.tree[x], self.clock));
            if let Slot::Node { payload } = self.tree[x] {
                assert forall|a: A| #[trigger] payload.clock.contains_key(a) implies count(clock, a)
                    >= payload.clock[a] by {
                    assert(count(self.clock, a) >= payload.clock[a]);
                    if self.clock.contains_key(a) {
                        assert(count(clock, a) >= self.clock[a]);
                    }
                }
                assert(covers(clock, payload.clock));
            }
        }
    }

    /// The sides chosen so far are kept, and where the strategy fixes a side, a new one is
    /// that one.
    pub proof fn sides_are_kept(self, p: Seq<u64>, q: Seq<u64>, sides: Seq<bool>, k: int)
        requires
            self.may_choose(p, q, sides),
            0 <= k < sides.len(),
        ensures
            k < self.strategies.len() ==> sides[k] == self.strategies[k],
            k >= self.strategies.len() && fixed_side(self.strategy, k) is Some ==> sides[k]
                == fixed_side(self.strategy, k)->0,
    {
        if k < self.strategies.len() {
            assert(sides.take(self.strategies.len() as int)[k] == sides[k]);
        }
    }
}

/// Whether an operation can be applied does not change when another one is, or the same.
pub proof fn acceptance_is_kept<V: Ord + Clone, A: Actor>(
    s: State<V, A>,
    other: Op<V, A>,
    after: State<V, A>,
    op: Op<V, A>,
)
    requires
        may_become(s, other, after),
    ensures
        accepted(after, op) == accepted(s, op),
{
}

/// An operation that is applied a second time changes nothing, and can be applied.
pub proof fn operations_apply_once<V: Ord + Clone, A: Actor>(
    s: State<V, A>,
    op: Op<V, A>,
    once: State<V, A>,
)
    requires
        accepted(s, op),
        may_become(s, op, once),
    ensures
        accepted(once, op),
        forall|twice: State<V, A>| #[trigger] may_become(once, op, twice) ==> twice == once,
{
    acceptance_is_kept(s, op, once, op);
    assert forall|twice: State<V, A>| #[trigger] may_become(once, op, twice) implies twice
        == once by {
        second_time_changes_nothing(s, op, once, twice);
    }
}

proof fn second_time_changes_nothing<V: Ord + Clone, A: Actor>(
    s: State<V, A>,
    op: Op<V, A>,
    once: State<V, A>,
    twice: State<V, A>,
)
    requires
        accepted(s, op),
        may_become(s, op, once),
        may_become(once, op, twice),
    ensures
        twice == once,
{
    match op {
        Op::Insert { clock, value, p, q } => {
            if clock@ != Map::<A, u64>::empty() {
                let lo = bound(p);
                let hi = bound(q);
                s.depth_is_natural(lo, hi);
                assert(once.depth(lo, hi) == s.depth(lo, hi));
                assert(twice.strategies =~= once.strategies) by {
                    assert(twice.strategies.take(once.strategies.len() as int)
                        =~= twice.strategies);
                }
                let path = s.new_path(lo, hi);
                let number = s.new_last(lo, hi, once.strategies);
                let id = path.push(number);
                assert(once.new_path(lo, hi) == path);
                assert(once.new_last(lo, hi, once.strategies) == number);
                assert(lookup(once.tree, id) == Some(
                    settled(lookup(s.tree, id), clock@, value),
                ));
                assert(twice.tree =~= once.tree);
            }
        },
        Op::Delete { clock, id } => {
            let c = clock@;
            if s.tree.contains_key(id@) {
                assert(covers(c, c));
                let met = s.tree[id@];
                if met is Major {
                    assert(slot_cleared(slot_cleared(met, c), c)->minis =~= slot_cleared(
                        met,
                        c,
                    )->minis);
                }
                assert(twice.tree =~= once.tree);
                assert(merged(merged(s.clock, c), c) =~= merged(s.clock, c));
            }
        },
    }
}

impl<V, A> State<V, A> {
    /// A depth is not negative.
    pub proof fn depth_is_natural(self, p: Seq<u64>, q: Seq<u64>)
        requires
            self.depth(p, q) is Some,
        ensures
            0 <= self.depth(p, q)->0 <= DEEPEST,
    {
        room_is_first(self.root_arity, p, q, 0, self.depth(p, q)->0);
    }
}

} // verus!
