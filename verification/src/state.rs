//! The mathematical model of a sequence: its state, and what each operation makes of it.
use crate::actor::Actor;
use crate::allocation::{new_number, room, step_within};
use crate::identifier::Identifier;
use crate::strategy::{fixed_side, follows, follows_from, reaches, LSeqStrategy};
use crate::tree::{
    cleared, grown, lookup, minis_in_order, route, takes, tree_forgotten, tree_seen, Tree,
};
use crate::vclock::{forgotten, merged};
use vstd::prelude::*;

verus! {

/// The state of a sequence.
#[verifier::ext_equal]
#[verifier::reject_recursive_types(A)]
pub struct State<V, A> {
    /// Limit to the distance of a new number from its reference.
    pub boundary: u8,
    /// Arity of the root of the tree.
    pub root_arity: u64,
    /// The allocation strategy.
    pub strategy: LSeqStrategy,
    /// The side chosen for each depth so far.
    pub strategies: Seq<bool>,
    /// What stands at each path.
    pub tree: Tree<V, A>,
    /// What has been seen of each actor.
    pub clock: Map<A, u64>,
}

/// The path of an identifier that bounds an insert; the beginning and the end of the
/// sequence have the empty path.
pub open spec fn bound(id: Option<Identifier>) -> Seq<u64> {
    match id {
        Some(id) => id@,
        None => Seq::empty(),
    }
}

impl<V, A> State<V, A> {
    /// The sides chosen so far are those of the strategy, mini-nodes are in order, and the
    /// clock has seen every operation whose work stands in the tree. So it is of a new
    /// sequence, and every operation keeps it so.
    pub open spec fn valid(self) -> bool where A: Actor {
        &&& follows(self.strategy, self.strategies)
        &&& minis_in_order(self.tree)
        &&& tree_seen(self.tree, self.clock)
    }

    /// The depth at which there is room for a new identifier between `p` and `q`, if there
    /// is any.
    pub open spec fn depth(self, p: Seq<u64>, q: Seq<u64>) -> Option<int> {
        room(self.root_arity, p, q, 0)
    }

    /// The number of a new identifier between `p` and `q` on the given side.
    pub open spec fn number(self, p: Seq<u64>, q: Seq<u64>, up: bool) -> int {
        let k = self.depth(p, q)->0;
        let step = step_within(self.root_arity, self.boundary, p, q, k, up);
        new_number(self.root_arity, p, q, k, step, up)
    }

    /// The side for a depth may turn out to be `up`.
    pub open spec fn may_turn(self, depth: int, up: bool) -> bool {
        if depth < self.strategies.len() {
            up == self.strategies[depth]
        } else {
            fixed_side(self.strategy, depth) is Some ==> up == fixed_side(self.strategy, depth)->0
        }
    }

    /// A value can be inserted between `p` and `q`: there is room for an identifier.
    pub open spec fn can_insert(self, p: Seq<u64>, q: Seq<u64>) -> bool {
        self.depth(p, q) is Some
    }

    /// The path under which a new identifier between `p` and `q` is put.
    pub open spec fn new_path(self, p: Seq<u64>, q: Seq<u64>) -> Seq<u64> {
        route(p, 0, self.depth(p, q)->0)
    }

    /// The number of a new identifier between `p` and `q`, where `sides` holds the side
    /// for each depth.
    pub open spec fn new_last(self, p: Seq<u64>, q: Seq<u64>, sides: Seq<bool>) -> u64 {
        self.number(p, q, sides[self.depth(p, q)->0]) as u64
    }

    /// The new identifier between `p` and `q`.
    pub open spec fn new_id(self, p: Seq<u64>, q: Seq<u64>, sides: Seq<bool>) -> Seq<u64> {
        self.new_path(p, q).push(self.new_last(p, q, sides))
    }

    /// `sides` may hold the sides after an insert between `p` and `q`.
    pub open spec fn may_choose(self, p: Seq<u64>, q: Seq<u64>, sides: Seq<bool>) -> bool {
        &&& reaches(self.strategies, sides, self.depth(p, q)->0)
        &&& follows_from(self.strategy, sides, self.strategies.len() as int)
    }

    /// The state after an insert of `value` with `clock` between `p` and `q`, where `sides`
    /// holds the side for each depth.
    pub open spec fn inserted(
        self,
        p: Seq<u64>,
        q: Seq<u64>,
        clock: Map<A, u64>,
        value: V,
        sides: Seq<bool>,
    ) -> Self where A: Actor {
        let path = self.new_path(p, q);
        let number = self.new_last(p, q, sides);
        State {
            strategies: sides,
            tree: grown(self.tree, path, number, clock, value),
            clock: if takes(lookup(self.tree, path.push(number)), clock) {
                merged(self.clock, clock)
            } else {
                self.clock
            },
            ..self
        }
    }

    /// The state after a delete of `id` with `clock`.
    pub open spec fn deleted(self, id: Seq<u64>, clock: Map<A, u64>) -> Self {
        State {
            tree: cleared(self.tree, id, clock),
            clock: if self.tree.contains_key(id) {
                merged(self.clock, clock)
            } else {
                self.clock
            },
            ..self
        }
    }

    /// The state after `c` is forgotten.
    pub open spec fn forgot(self, c: Map<A, u64>) -> Self {
        State {
            tree: tree_forgotten(self.tree, c),
            clock: forgotten(self.clock, c),
            ..self
        }
    }
}

} // verus!
