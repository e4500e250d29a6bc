//! LSeq, a sequence that many sites can edit without coordination.
use crate::actor::{lawful, Actor};
use crate::allocation::{find_room, interval, new_number, pick_number, pick_step, DEEPEST};
use crate::between::room_is_first;
use crate::ctx::{AddCtx, ReadCtx, RmCtx};
use crate::identifier::Identifier;
use crate::nodes::SiblingsNodes;
use crate::state::{bound, State};
use crate::strategy::{fixed_side, follows, follows_from, reaches, side, LSeqStrategy};
use crate::text::{lay_out, layout, top_numbers};
use crate::tree::{
    grown, is_below, is_reading, is_rooted, leads_to, lookup, payload_at, placeholder, reading,
    reading_is_unique, route, tree_copied, Tree,
};
use crate::vclock::{merged, VClock};
use crate::walk::shows_one;
use vstd::prelude::*;

verus! {

const DEFAULT_STRATEGY_BOUNDARY: u8 = 10;

// Greater than the boundary, and a power of two.
const DEFAULT_ROOT_BASE: u64 = 32;

/// An LSeq, a sequence CRDT whose identifiers are of variable size.
#[derive(Debug)]
pub struct LSeq<V: Ord + Clone, A: Actor> {
    /// Boundary for choosing a new number when allocating an identifier
    boundary: u8,
    /// Arity of the root tree node. The arity is doubled at each depth
    root_arity: u64,
    /// The chosen allocation strategy
    strategy: LSeqStrategy,
    /// The side chosen for each depth: boundary+ (true) or boundary- (false)
    strategies: Vec<bool>,
    /// Depth 1 siblings nodes
    siblings: SiblingsNodes<V, A>,
    /// Clock with latest versions of all actors operating on this LSeq
    clock: VClock<A>,
}

/// The operations on an LSeq.
#[derive(Debug, PartialEq, Eq)]
pub enum Op<V: Ord + Clone, A: Actor> {
    /// Insert a value in the sequence
    Insert {
        /// context of the operation
        clock: VClock<A>,
        /// the value to insert
        value: V,
        /// preceding value identifier (None == BEGIN)
        p: Option<Identifier>,
        /// succeeding value identifier (None == END, which can be used to append values)
        q: Option<Identifier>,
    },
    /// Delete a value from the sequence
    Delete {
        /// context of the operation
        clock: VClock<A>,
        /// the identifier of the value to delete
        id: Identifier,
    },
}

/// The sequence can take `op` in: an insert has room for its identifier, a delete names an
/// atom. An insert that carries an empty clock is left aside, whatever its bounds.
pub open spec fn accepted<V: Ord + Clone, A: Actor>(s: State<V, A>, op: Op<V, A>) -> bool {
    match op {
        Op::Insert { clock, value, p, q } => clock@ == Map::<A, u64>::empty() || s.can_insert(
            bound(p),
            bound(q),
        ),
        Op::Delete { clock, id } => id@.len() > 0,
    }
}

/// `r` may be the state after `op` is applied to `s`. It is the only one, but for the sides
/// that a coin decides.
pub open spec fn may_become<V: Ord + Clone, A: Actor>(
    s: State<V, A>,
    op: Op<V, A>,
    r: State<V, A>,
) -> bool {
    match op {
        Op::Insert { clock, value, p, q } => if clock@ == Map::<A, u64>::empty() {
            r == s
        } else {
            &&& s.may_choose(bound(p), bound(q), r.strategies)
            &&& r == s.inserted(bound(p), bound(q), clock@, value, r.strategies)
        },
        Op::Delete { clock, id } => r == s.deleted(id@, clock@),
    }
}

/// `out` is what is read of `t`: for each value its identifier, a clone of it and the clock
/// of the operation that put it there, in the order of the places.
pub open spec fn is_read_of<V: Ord + Clone, A: Actor>(
    t: Tree<V, A>,
    out: Seq<(Identifier, V, VClock<A>)>,
) -> bool {
    &&& is_reading(t, reading(t))
    &&& out.len() == reading(t).len()
    &&& forall|i: int|
        0 <= i < out.len() ==> shows_one(
            reading(t)[i].0,
            payload_at(t, reading(t)[i]),
            #[trigger] out[i],
        )
}

impl<V: Ord + Clone, A: Actor> View for LSeq<V, A> {
    type V = State<V, A>;

    closed spec fn view(&self) -> State<V, A> {
        State {
            boundary: self.boundary,
            root_arity: self.root_arity,
            strategy: self.strategy,
            strategies: self.strategies@,
            tree: self.siblings.tree(),
            clock: self.clock@,
        }
    }
}

impl<V: Ord + Clone, A: Actor> Clone for Op<V, A> {
    fn clone(&self) -> (r: Self)
        ensures
            match (*self, r) {
                (
                    Op::Insert { clock, value, p, q },
                    Op::Insert { clock: clock2, value: value2, p: p2, q: q2 },
                ) => clock2@ == clock@ && cloned(value, value2) && same_id(p, p2) && same_id(q, q2),
                (Op::Delete { clock, id }, Op::Delete { clock: clock2, id: id2 }) => clock2@
                    == clock@ && id2@ == id@,
                _ => false,
            },
    {
        match self {
            Op::Insert { clock, value, p, q } => Op::Insert {
                clock: clock.clone(),
                value: value.clone(),
                p: copy_id(p),
                q: copy_id(q),
            },
            Op::Delete { clock, id } => Op::Delete { clock: clock.clone(), id: id.clone() },
        }
    }
}

/// Both are missing, or both have the same path.
pub open spec fn same_id(a: Option<Identifier>, b: Option<Identifier>) -> bool {
    match (a, b) {
        (Some(x), Some(y)) => x@ == y@,
        (None, None) => true,
        _ => false,
    }
}

fn copy_id(id: &Option<Identifier>) -> (r: Option<Identifier>)
    ensures
        same_id(*id, r),
{
    match id {
        Some(id) => Some(id.clone()),
        None => None,
    }
}

impl<V: Ord + Clone, A: Actor> Clone for LSeq<V, A> {
    fn clone(&self) -> (r: Self)
        ensures
            r@ == (State { tree: r@.tree, ..self@ }),
            self.wf() ==> r.wf() && tree_copied(self@.tree, r@.tree),
            self.wf() && self@.valid() ==> r@.valid(),
    {
        let mut strategies: Vec<bool> = Vec::new();
        strategies.extend_from_slice(self.strategies.as_slice());
        assert(strategies@ =~= self.strategies@);
        let r = LSeq {
            boundary: self.boundary,
            root_arity: self.root_arity,
            strategy: self.strategy,
            strategies,
            siblings: self.siblings.duplicate(),
            clock: self.clock.clone(),
        };
        proof {
            if self.wf() && self@.valid() {
                self@.copy_is_valid(r@);
            }
        }
        r
    }
}

impl<V: Ord + Clone, A: Actor> Default for LSeq<V, A> {
    fn default() -> (r: Self)
        ensures
            r.wf(),
            r@.valid(),
            r@ == (State::<V, A> {
                boundary: 10,
                root_arity: 32,
                strategy: LSeqStrategy::Alternate,
                strategies: Seq::empty(),
                tree: Map::empty(),
                clock: Map::empty(),
            }),
    {
        Self::new(DEFAULT_STRATEGY_BOUNDARY, DEFAULT_ROOT_BASE, LSeqStrategy::Alternate)
    }
}

impl<V: Ord + Clone, A: Actor> LSeq<V, A> {
    /// The tree is well formed.
    pub closed spec fn wf(self) -> bool {
        self.siblings.wf()
    }

    /// What a well-formed sequence guarantees of its tree: the end of no path is without the
    /// way to it, and no atom has the empty path.
    pub proof fn wf_guarantees(self)
        requires
            self.wf(),
        ensures
            is_rooted(self@.tree),
            !self@.tree.contains_key(Seq::empty()),
    {
        assert forall|x: Seq<u64>, y: Seq<u64>|
            self@.tree.contains_key(y) && #[trigger] leads_to(
                x,
                y,
            ) implies #[trigger] self@.tree.contains_key(x) by {
            self.siblings.prefix_is_there(x, y);
        }
    }

    /// Construct a new empty LSeq with given boundary and root arity settings
    pub fn new(boundary: u8, root_arity: u64, strategy: LSeqStrategy) -> (r: Self)
        ensures
            r.wf(),
            r@.valid(),
            r@ == (State::<V, A> {
                boundary,
                root_arity,
                strategy,
                strategies: Seq::empty(),
                tree: Map::empty(),
                clock: Map::empty(),
            }),
    {
        let r = LSeq {
            boundary,
            root_arity,
            strategy,
            strategies: Vec::new(),
            siblings: SiblingsNodes::new(),
            clock: VClock::new(),
        };
        assert(r.siblings.tree() =~= Map::empty());
        r
    }

    /// Generate operation for inserting a value between identifiers p and q
    pub fn insert(
        &self,
        value: V,
        p: Option<Identifier>,
        q: Option<Identifier>,
        ctx: AddCtx<A>,
    ) -> (r: Op<V, A>)
        ensures
            r == (Op::Insert { clock: ctx.clock, value, p, q }),
    {
        Op::Insert { clock: ctx.clock, value, p, q }
    }

    /// Generate operation to deleting a value given its identifier
    pub fn delete(&self, id: Identifier, ctx: RmCtx<A>) -> (r: Op<V, A>)
        ensures
            r == (Op::<V, A>::Delete { clock: ctx.clock, id }),
    {
        Op::Delete { clock: ctx.clock, id }
    }

    /// Obtain the current state of the sequence: its values with their identifiers and
    /// clocks, in the order of the sequence
    pub fn read(&self) -> (r: ReadCtx<Vec<(Identifier, V, VClock<A>)>, A>)
        requires
            self.wf(),
        ensures
            r.add_clock@ == self@.clock,
            r.rm_clock@ == self@.clock,
            is_read_of(self@.tree, r.val@),
    {
        let sequence = self.flatten();
        ReadCtx { add_clock: self.clock.clone(), rm_clock: self.clock.clone(), val: sequence }
    }

    /// Retrieve the current read context
    pub fn read_ctx(&self) -> (r: ReadCtx<(), A>)
        ensures
            r.add_clock@ == self@.clock,
            r.rm_clock@ == self@.clock,
    {
        ReadCtx { add_clock: self.clock.clone(), rm_clock: self.clock.clone(), val: () }
    }

    /// Flatten tree into an ordered sequence of (Identifier, Value, Clock)
    fn flatten(&self) -> (r: Vec<(Identifier, V, VClock<A>)>)
        requires
            self.wf(),
        ensures
            is_read_of(self@.tree, r@),
    {
        let mut seq: Vec<(Identifier, V, VClock<A>)> = Vec::new();
        let root = Identifier::new(&[]);
        let places = self.siblings.flatten_tree(&root, &mut seq);
        proof {
            reading_is_unique(self@.tree, places@, reading(self@.tree));
            assert forall|i: int| 0 <= i < seq@.len() implies shows_one(
                places@[i].0,
                payload_at(self@.tree, places@[i]),
                #[trigger] seq@[i],
            ) by {
                assert(root@ + places@[i].0 =~= places@[i].0);
            }
        }
        seq
    }

    /// Merge a clock into this LSeq global clock which keeps latest versions
    /// of all actors operating on this LSeq
    fn merge_clock(&mut self, clock: VClock<A>)
        requires
            lawful::<A>(),
        ensures
            final(self).siblings == old(self).siblings,
            final(self)@ == (State { clock: merged(old(self)@.clock, clock@), ..old(self)@ }),
    {
        self.clock.merge(clock);
    }

    /// Returns the side chosen for the given depth: boundary+ or boundary-. Sides are
    /// chosen once, down to the deepest depth asked for, and kept.
    fn gen_strategy(&mut self, depth: usize) -> (r: bool)
        requires
            old(self).wf(),
        ensures
            final(self).wf(),
            final(self).siblings == old(self).siblings,
            final(self)@ == (State { strategies: final(self)@.strategies, ..old(self)@ }),
            depth < usize::MAX ==> reaches(
                old(self)@.strategies,
                final(self)@.strategies,
                depth as int,
            ) && r == final(self)@.strategies[depth as int],
            depth == usize::MAX ==> final(self)@.strategies == old(self)@.strategies && r == side(
                old(self)@.strategy,
                depth as int,
                true,
            ),
            follows_from(
                old(self)@.strategy,
                final(self)@.strategies,
                old(self)@.strategies.len() as int,
            ),
            old(self)@.valid() ==> final(self)@.valid(),
            follows(old(self)@.strategy, old(self)@.strategies) ==> follows(
                old(self)@.strategy,
                final(self)@.strategies,
            ),
            depth < old(self)@.strategies.len() ==> r == old(self)@.strategies[depth as int],
            fixed_side(old(self)@.strategy, depth as int) matches Some(up) ==> depth
                >= old(self)@.strategies.len() || follows(
                old(self)@.strategy,
                old(self)@.strategies,
            ) ==> r == up,
    {
        let strategy = self.strategy;
        strategy.extend_sides(&mut self.strategies, depth)
    }

    /// Finds out what's the interval between p and q (regardless of their length), and at
    /// which depth the new identifier should be generated
    fn find_new_id_depth(&self, p: &Identifier, q: &Identifier) -> (r: (usize, u64))
        requires
            self@.depth(p@, q@) is Some,
        ensures
            r.0 <= DEEPEST,
            r.0 == self@.depth(p@, q@)->0,
            r.1 == interval(self@.root_arity, p@, q@, r.0 as int),
    {
        find_room(self.root_arity, p, q).unwrap()
    }

    /// Get a new number to insert at given depth, and based on the depth's strategy
    fn gen_new_number(&mut self, depth: usize, step: u64, p: &Identifier, q: &Identifier) -> (r:
        u64)
        requires
            old(self).wf(),
            depth < 64,
            forall|up: bool| #[trigger]
                old(self)@.may_turn(depth as int, up) ==> 0 <= new_number(
                    old(self)@.root_arity,
                    p@,
                    q@,
                    depth as int,
                    step as int,
                    up,
                ) <= u64::MAX,
        ensures
            final(self).wf(),
            final(self).siblings == old(self).siblings,
            final(self)@ == (State { strategies: final(self)@.strategies, ..old(self)@ }),
            reaches(old(self)@.strategies, final(self)@.strategies, depth as int),
            follows_from(
                old(self)@.strategy,
                final(self)@.strategies,
                old(self)@.strategies.len() as int,
            ),
            r == new_number(
                old(self)@.root_arity,
                p@,
                q@,
                depth as int,
                step as int,
                final(self)@.strategies[depth as int],
            ),
    {
        let up = self.gen_strategy(depth);
        assert(old(self)@.may_turn(depth as int, up)) by {
            let known = old(self)@.strategies;
            if depth < known.len() {
                assert(self@.strategies.take(known.len() as int)[depth as int] == up);
            }
        }
        pick_number(self.root_arity, p, q, depth, step, up).unwrap()
    }

    /// Get the depth of a new identifier between p and q, and its number there
    fn gen_depth_and_number(&mut self, p: &Identifier, q: &Identifier) -> (r: (usize, u64))
        requires
            old(self).wf(),
            old(self)@.can_insert(p@, q@),
        ensures
            final(self).wf(),
            final(self).siblings == old(self).siblings,
            final(self)@ == (State { strategies: final(self)@.strategies, ..old(self)@ }),
            old(self)@.may_choose(p@, q@, final(self)@.strategies),
            r.0 == old(self)@.depth(p@, q@)->0,
            r.1 == old(self)@.new_last(p@, q@, final(self)@.strategies),
    {
        let ghost pre = self@;

        // The interval between p and q, and the depth for the new identifier.
        let (depth, gap) = self.find_new_id_depth(p, q);

        // The new number is allocated within the boundary and the interval.
        let up = self.gen_strategy(depth);
        let ghost sided = self@;
        proof {
            room_is_first(pre.root_arity, p@, q@, 0, depth as int);
            pre.chosen_number_fits(p@, q@, up);
        }
        let step = pick_step(self.root_arity, self.boundary, p, q, depth, gap, up);
        let number = self.gen_new_number(depth, step, p, q);
        assert(self@.strategies =~= sided.strategies) by {
            let n = sided.strategies.len() as int;
            assert(self@.strategies.take(n) =~= self@.strategies);
        }
        (depth, number)
    }

    /// Find siblings in the tree at the level/depth where new number shall be inserted,
    /// on the path of `p`. Nodes that are missing on that path are created.
    fn find_siblings_in_tree(&mut self, depth: usize, p: &Identifier) -> (r: &mut SiblingsNodes<
        V,
        A,
    >)
        requires
            old(self).siblings.wf(),
        ensures
            r.wf(),
            final(r).wf() ==> final(self).siblings.wf(),
            forall|x: Seq<u64>|
                x.len() > 0 ==> #[trigger] r.slot_at(x) == old(self).siblings.slot_at(
                    route(p@, 0, depth as int) + x,
                ),
            forall|x: Seq<u64>| #[trigger]
                final(self).siblings.slot_at(x) == ({
                    let path = route(p@, 0, depth as int);
                    if is_below(x, path) {
                        final(r).slot_at(x.skip(path.len() as int))
                    } else if leads_to(x, path) && old(self).siblings.slot_at(x) is None {
                        Some(placeholder())
                    } else {
                        old(self).siblings.slot_at(x)
                    }
                }),
            final(self)@ == (State { tree: final(self)@.tree, ..old(self)@ }),
    {
        self.siblings.descend(p, 0, depth)
    }

    /// Allocates a new identifier between given p and q identifiers, and puts the value
    /// there. An insert that finds its place taken by an operation that is not concurrent
    /// to it, or by mini-nodes, is dropped.
    #[verifier::rlimit(40)]
    pub fn alloc_id(
        &mut self,
        p: Option<Identifier>,
        q: Option<Identifier>,
        clock: VClock<A>,
        value: V,
    )
        requires
            lawful::<A>(),
            old(self).wf(),
            old(self)@.can_insert(bound(p), bound(q)),
        ensures
            final(self).wf(),
            old(self)@.may_choose(bound(p), bound(q), final(self)@.strategies),
            final(self)@ == old(self)@.inserted(
                bound(p),
                bound(q),
                clock@,
                value,
                final(self)@.strategies,
            ),
            old(self)@.valid() ==> final(self)@.valid(),
    {
        let ghost lo = bound(p);
        let ghost hi = bound(q);
        let p = match p {
            Some(id) => id,
            None => Identifier::new(&[]),
        };
        let q = match q {
            Some(id) => id,
            None => Identifier::new(&[]),
        };
        let ghost pre = self@;
        assert(p@ =~= lo && q@ =~= hi);

        let (depth, number) = self.gen_depth_and_number(&p, &q);
        let ghost chosen = self@;
        let ghost pre_siblings = self.siblings;

        let ghost path = route(p@, 0, depth as int);
        let ghost id = path.push(number);
        let seen = clock.clone();
        let siblings = self.find_siblings_in_tree(depth, &p);
        let taken = siblings.place(number, seen, value);
        proof {
            assert(path + seq![number] =~= id);
            let post = grown(pre.tree, path, number, clock@, value);
            assert forall|x: Seq<u64>| #[trigger] self.siblings.slot_at(x) == lookup(post, x) by {
                assert(chosen.tree == pre.tree);
                if is_below(x, path) {
                    let y = x.skip(path.len() as int);
                    assert(path + y =~= x);
                    if x == id {
                        assert(y =~= seq![number]);
                    }
                    assert(!leads_to(x, path));
                } else {
                    assert(x != id) by {
                        assert(id.take(path.len() as int) =~= path);
                    }
                }
                assert(pre_siblings.slot_at(x) == lookup(pre.tree, x));
            }
            assert(self@.tree =~= post);
            assert(lookup(pre.tree, id) == pre_siblings.slot_at(id));
            if pre.valid() {
                pre.inserted_is_valid(lo, hi, clock@, value, chosen.strategies);
            }
        }
        if taken {
            self.merge_clock(clock);
        }
    }

    /// Find the atom in the tree following the path of the given identifier and delete its
    /// value. Of mini-nodes, those are deleted whose clocks the given clock has seen.
    pub fn delete_id(&mut self, id: Identifier, clock: VClock<A>)
        requires
            lawful::<A>(),
            old(self).wf(),
            id@.len() > 0,
        ensures
            final(self).wf(),
            final(self)@ == old(self)@.deleted(id@, clock@),
            old(self)@.valid() ==> final(self)@.valid(),
    {
        let ghost pre = self@;
        let found = self.siblings.erase(&id, 0, &clock);
        proof {
            assert(id@.skip(0) =~= id@);
            if pre.valid() {
                pre.deleted_is_valid(id@, clock@);
            }
        }
        if found {
            self.merge_clock(clock);
        }
    }

    /// Forget given clock in each of the atoms' clock
    pub fn forget_clock(&mut self, clock: &VClock<A>)
        requires
            lawful::<A>(),
            old(self).wf(),
        ensures
            final(self).wf(),
            final(self)@ == old(self)@.forgot(clock@),
            old(self)@.valid() ==> final(self)@.valid(),
    {
        let ghost pre = self@;
        // forget it from global clock maintained in the LSeq instance
        self.clock.forget(clock);

        // now forget it in each atom in the tree
        self.siblings.forget_clock_in_tree(clock);
        proof {
            if pre.valid() {
                pre.forgot_is_valid(clock@);
            }
        }
    }

    /// Whether the sequence can take `op` in.
    pub fn accepts(&self, op: &Op<V, A>) -> (r: bool)
        ensures
            r == accepted(self@, *op),
    {
        match op {
            Op::Insert { clock, value, p, q } => {
                if clock.is_empty() {
                    return true;
                }
                let none = Identifier::new(&[]);
                let lo = match p {
                    Some(id) => id,
                    None => &none,
                };
                let hi = match q {
                    Some(id) => id,
                    None => &none,
                };
                assert(lo@ =~= bound(*p) && hi@ =~= bound(*q));
                self.has_room(lo, hi)
            },
            Op::Delete { clock, id } => !id.is_empty(),
        }
    }

    /// Whether an identifier can be allocated between `p` and `q`.
    fn has_room(&self, p: &Identifier, q: &Identifier) -> (r: bool)
        ensures
            r == self@.can_insert(p@, q@),
    {
        find_room(self.root_arity, p, q).is_some()
    }

    /// Apply an operation, of this site or of another.
    pub fn apply(&mut self, op: Op<V, A>)
        requires
            lawful::<A>(),
            old(self).wf(),
            accepted(old(self)@, op),
        ensures
            final(self).wf(),
            may_become(old(self)@, op, final(self)@),
            old(self)@.valid() ==> final(self)@.valid(),
    {
        match op {
            Op::Insert { clock, value, p, q } => {
                if clock.is_empty() {
                    return;
                }
                // Allocate a new identifier between on p and q
                self.alloc_id(p, q, clock, value);
            },
            Op::Delete { clock, id } => {
                // Delete value from the atom which corresponds to the given identifier
                self.delete_id(id, clock);
            },
        }
    }

    /// The parts of the sequence: boundary, root arity, strategy, the sides chosen so far,
    /// the tree and the clock.
    pub fn parts(&self) -> (r: (
        u8,
        u64,
        LSeqStrategy,
        &Vec<bool>,
        &SiblingsNodes<V, A>,
        &VClock<A>,
    ))
        requires
            self.wf(),
        ensures
            r.4.wf(),
            self@ == (State {
                boundary: r.0,
                root_arity: r.1,
                strategy: r.2,
                strategies: r.3@,
                tree: r.4.tree(),
                clock: r.5@,
            }),
    {
        (
            self.boundary,
            self.root_arity,
            self.strategy,
            &self.strategies,
            &self.siblings,
            &self.clock,
        )
    }

    /// A sequence that is put together from its parts, if the tree is well formed. The sides
    /// and the clocks are taken as they are.
    pub fn from_parts(
        boundary: u8,
        root_arity: u64,
        strategy: LSeqStrategy,
        strategies: Vec<bool>,
        siblings: SiblingsNodes<V, A>,
        clock: VClock<A>,
    ) -> (r: Option<Self>)
        ensures
            r is Some <==> siblings.wf(),
            r matches Some(s) ==> s.wf() && s@ == (State {
                boundary,
                root_arity,
                strategy,
                strategies: strategies@,
                tree: siblings.tree(),
                clock: clock@,
            }),
    {
        if !siblings.is_sound() {
            return None;
        }
        Some(LSeq { boundary, root_arity, strategy, strategies, siblings, clock })
    }

    /// The sequence as text: the atoms at the top of its tree, which have the given texts,
    /// each with its number.
    pub fn render(&self, texts: &Vec<String>) -> (r: String)
        requires
            self.wf(),
            texts@.len() == top_numbers(self@.tree).len(),
        ensures
            r@ == layout(texts@, top_numbers(self@.tree)),
    {
        lay_out(texts, &self.siblings.numbers())
    }
}

} // verus!
