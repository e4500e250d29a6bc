//! Contexts: what a site had seen when it read, and what its next operation carries.
use crate::actor::{lawful, Actor};
use crate::clock_laws::next_operation_is_later;
use crate::vclock::{causality, count, Dot, VClock};
use vstd::prelude::*;

verus! {

/// What was read, and what had been seen at the time.
#[derive(Debug)]
pub struct ReadCtx<V, A: Actor> {
    /// The clock for adding to what was read.
    pub add_clock: VClock<A>,
    /// The clock for removing from what was read.
    pub rm_clock: VClock<A>,
    /// What was read.
    pub val: V,
}

/// The context of an operation that adds.
#[derive(Debug)]
pub struct AddCtx<A: Actor> {
    /// What has been seen, the operation itself included.
    pub clock: VClock<A>,
    /// The operation itself.
    pub dot: Dot<A>,
}

/// The context of an operation that removes.
#[derive(Debug)]
pub struct RmCtx<A: Actor> {
    /// What has been seen.
    pub clock: VClock<A>,
}

impl<A: Actor> Clone for AddCtx<A> {
    fn clone(&self) -> (r: Self)
        ensures
            r.clock@ == self.clock@,
            cloned(self.dot.actor, r.dot.actor),
            r.dot.counter == self.dot.counter,
    {
        AddCtx {
            clock: self.clock.clone(),
            dot: Dot { actor: self.dot.actor.clone(), counter: self.dot.counter },
        }
    }
}

impl<A: Actor> Clone for RmCtx<A> {
    fn clone(&self) -> (r: Self)
        ensures
            r.clock@ == self.clock@,
    {
        RmCtx { clock: self.clock.clone() }
    }
}

impl<V, A: Actor> ReadCtx<V, A> {
    /// The context for the next operation of `actor` that adds to what was read.
    pub fn derive_add_ctx(&self, actor: A) -> (r: AddCtx<A>)
        requires
            lawful::<A>(),
            count(self.add_clock@, actor) < u64::MAX,
        ensures
            r.dot.actor == actor,
            r.dot.counter == count(self.add_clock@, actor) + 1,
            r.clock@ == self.add_clock@.insert(actor, r.dot.counter),
            causality(self.add_clock@, r.clock@) is Less,
    {
        let mut clock = self.add_clock.clone();
        let dot = clock.inc(actor);
        proof {
            next_operation_is_later(clock@, actor);
        }
        let again = dot.actor.clone();
        assert(cloned(dot.actor, again));
        clock.apply(Dot { actor: again, counter: dot.counter });
        AddCtx { clock, dot }
    }

    /// The context for an operation that removes from what was read.
    pub fn derive_rm_ctx(&self) -> (r: RmCtx<A>)
        ensures
            r.clock@ == self.rm_clock@,
    {
        RmCtx { clock: self.rm_clock.clone() }
    }
}

} // verus!
