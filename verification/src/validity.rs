//! Every operation keeps the states of sequences valid.
use crate::actor::{lawful, Actor};
use crate::clock_laws::merged_is_least;
use crate::clock_order::{clock_before, clock_before_is_total};
use crate::state::State;
use crate::strategy::kept_sides_follow;
use crate::tree::{
    payload_forgotten, payload_seen, slot_copied, slot_in_order, slot_seen, takes, tree_copied,
    Payload, Slot,
};
use crate::vclock::{count, covers, forgotten};
use vstd::prelude::*;

verus! {

/// A clock that has seen a slot still has when it has seen more.
proof fn seen_by_more<V, A>(slot: Slot<V, A>, m: Map<A, u64>, n: Map<A, u64>)
    requires
        slot_seen(slot, m),
        covers(n, m),
    ensures
        slot_seen(slot, n),
{
    assert forall|p: Payload<V, A>| payload_seen(p, m) implies #[trigger] payload_seen(p, n) by {
        assert forall|a: A| #[trigger] p.clock.contains_key(a) implies count(n, a)
            >= p.clock[a] by {
            assert(count(m, a) >= p.clock[a]);
            if m.contains_key(a) {
                assert(count(n, a) >= m[a]);
            }
        }
    }
}

/// A clock that has seen another still has when both forget the same.
proof fn forgotten_covers<A>(m: Map<A, u64>, n: Map<A, u64>, c: Map<A, u64>)
    requires
        covers(m, n),
    ensures
        covers(forgotten(m, c), forgotten(n, c)),
{
    assert forall|a: A| #[trigger] forgotten(n, c).contains_key(a) implies count(
        forgotten(m, c),
        a,
    ) >= forgotten(n, c)[a] by {
        assert(n.contains_key(a));
        assert(count(m, a) >= n[a]);
    }
}

impl<V, A> State<V, A> {
    /// A valid state stays valid when an insert is applied.
    pub proof fn inserted_is_valid(
        self,
        p: Seq<u64>,
        q: Seq<u64>,
        clock: Map<A, u64>,
        value: V,
        sides: Seq<bool>,
    ) where A: Actor
        requires
            lawful::<A>(),
            self.valid(),
            clock.dom().finite(),
            self.may_choose(p, q, sides),
        ensures
            self.inserted(p, q, clock, value, sides).valid(),
    {
        let after = self.inserted(p, q, clock, value, sides);
        let id = self.new_id(p, q, sides);
        merged_is_least(self.clock, clock, self.clock);
        assert(covers(after.clock, self.clock));
        kept_sides_follow(self.strategy, self.strategies, sides);
        assert forall|x: Seq<u64>| #[trigger] after.tree.contains_key(x) implies slot_in_order(
            after.tree[x],
        ) && slot_seen(after.tree[x], after.clock) by {
            if self.tree.contains_key(x) {
                assert(slot_in_order(self.tree[x]));
                seen_by_more(self.tree[x], self.clock, after.clock);
                if x == id && takes(Some(self.tree[x]), clock) {
                    let met = self.tree[x]->payload;
                    clock_before_is_total(clock, met.clock);
                    assert(payload_seen(met, after.clock));
                }
            }
        }
    }

    /// A valid state stays valid when a delete is applied.
    pub proof fn deleted_is_valid(self, id: Seq<u64>, clock: Map<A, u64>) where A: Actor
        requires
            self.valid(),
            clock.dom().finite(),
        ensures
            self.deleted(id, clock).valid(),
    {
        let after = self.deleted(id, clock);
        merged_is_least(self.clock, clock, self.clock);
        assert(covers(after.clock, self.clock));
        assert forall|x: Seq<u64>| #[trigger] after.tree.contains_key(x) implies slot_in_order(
            after.tree[x],
        ) && slot_seen(after.tree[x], after.clock) by {
            assert(self.tree.contains_key(x));
            seen_by_more(self.tree[x], self.clock, after.clock);
        }
    }

    /// A valid state stays valid when a clock is forgotten.
    pub proof fn forgot_is_valid(self, c: Map<A, u64>) where A: Actor
        requires
            self.valid(),
        ensures
            self.forgot(c).valid(),
    {
        let after = self.forgot(c);
        assert forall|p: Payload<V, A>| payload_seen(p, self.clock) implies #[trigger] payload_seen(
            payload_forgotten(p, c),
            after.clock,
        ) by {
            forgotten_covers(self.clock, p.clock, c);
            assert(forgotten(p.clock, c).dom().subset_of(p.clock.dom()));
            vstd::set_lib::lemma_len_subset(forgotten(p.clock, c).dom(), p.clock.dom());
        }
        assert forall|x: Seq<u64>| #[trigger] after.tree.contains_key(x) implies slot_in_order(
            after.tree[x],
        ) && slot_seen(after.tree[x], after.clock) by {
            assert(self.tree.contains_key(x));
            assert(slot_in_order(self.tree[x]));
            assert(slot_seen(self.tree[x], self.clock));
        }
    }

    /// A copy of a valid state is valid.
    pub proof fn copy_is_valid(self, copy: Self) where A: Actor, V: Clone
        requires
            self.valid(),
            tree_copied(self.tree, copy.tree),
            copy == (State { tree: copy.tree, ..self }),
        ensures
            copy.valid(),
    {
        assert forall|x: Seq<u64>| #[trigger] copy.tree.contains_key(x) implies slot_in_order(
            copy.tree[x],
        ) && slot_seen(copy.tree[x], copy.clock) by {
            assert(self.tree.dom().contains(x));
            assert(self.tree.contains_key(x));
            assert(slot_copied(self.tree[x], copy.tree[x]));
            if let Slot::Major { minis } = self.tree[x] {
                let again = copy.tree[x]->minis;
                assert forall|i: int, j: int| 0 <= i < j < again.len() implies clock_before(
                    (#[trigger] again[i]).0,
                    (#[trigger] again[j]).0,
                ) by {
                    assert(minis[i].0 == again[i].0);
                    assert(minis[j].0 == again[j].0);
                }
                assert forall|i: int| 0 <= i < again.len() implies payload_seen(
                    (#[trigger] again[i]).1,
                    copy.clock,
                ) by {
                    assert(minis[i].0 == again[i].0);
                }
            }
        }
    }
}

} // verus!
