//! The tree that holds a sequence.
use crate::actor::{lawful, Actor};
use crate::identifier::Identifier;
use crate::tree::{
    cleared, is_below, leads_to, lookup, minis_of, one_level_down, payload_cleared, placeholder,
    route, settled, slot_cleared, takes, Payload, Slot, Tree,
};
use crate::vclock::{covers, Causality, VClock};
use vstd::prelude::*;

verus! {

/// What an atom holds: a value, unless it was deleted, and the clock of the operation
/// that wrote it.
#[derive(Debug)]
pub struct AtomPayload<V: Ord + Clone, A: Actor> {
    /// The clock of the operation
    pub clock: VClock<A>,
    /// The value, unless there is none any more
    pub value: Option<V>,
}

/// Values that concurrent operations put at one place. The clocks of the operations tell
/// them apart, and order them.
#[derive(Debug)]
pub struct MiniNodes<V: Ord + Clone, A: Actor> {
    /// The payloads, each under the clock that it was put in with
    pub entries: Vec<(VClock<A>, AtomPayload<V, A>)>,
}

/// What stands at a number among its siblings, with what stands below it.
#[derive(Debug)]
pub enum Atom<V: Ord + Clone, A: Actor> {
    /// The work of one operation, or nothing but the way to the children
    Node { payload: AtomPayload<V, A>, children: SiblingsNodes<V, A> },
    /// The work of concurrent operations
    MajorNode { minis: MiniNodes<V, A>, children: SiblingsNodes<V, A> },
}

/// Atoms with the same parent, in the order of their numbers.
#[derive(Debug)]
pub struct SiblingsNodes<V: Ord + Clone, A: Actor> {
    /// Each atom with its number
    pub slots: Vec<(u64, Atom<V, A>)>,
}

impl<V: Ord + Clone, A: Actor> View for AtomPayload<V, A> {
    type V = Payload<V, A>;

    open spec fn view(&self) -> Payload<V, A> {
        Payload { clock: self.clock@, value: self.value }
    }
}

impl<V: Ord + Clone, A: Actor> View for MiniNodes<V, A> {
    type V = Seq<(Map<A, u64>, Payload<V, A>)>;

    open spec fn view(&self) -> Seq<(Map<A, u64>, Payload<V, A>)> {
        self.entries@.map_values(|e: (VClock<A>, AtomPayload<V, A>)| (e.0@, e.1@))
    }
}

impl<V: Ord + Clone, A: Actor> MiniNodes<V, A> {
    /// Two payloads, each under its own clock, in the order of these clocks.
    pub fn of_two(a: AtomPayload<V, A>, b: AtomPayload<V, A>) -> (r: Self)
        requires
            lawful::<A>(),
        ensures
            r@ == minis_of(a@, b@),
    {
        let mut entries: Vec<(VClock<A>, AtomPayload<V, A>)> = Vec::new();
        if a.clock.precedes(&b.clock) {
            entries.push((a.clock.clone(), a));
            entries.push((b.clock.clone(), b));
        } else {
            entries.push((b.clock.clone(), b));
            entries.push((a.clock.clone(), a));
        }
        let r = MiniNodes { entries };
        assert(r@ =~= minis_of(a@, b@));
        r
    }

    /// Takes out the values that a delete with `clock` has seen.
    pub fn clear(&mut self, clock: &VClock<A>)
        requires
            lawful::<A>(),
        ensures
            (Slot::Major { minis: final(self)@ }) == slot_cleared(
                Slot::Major { minis: old(self)@ },
                clock@,
            ),
    {
        let ghost pre = *self;
        let mut i: usize = 0;
        while i < self.entries.len()
            invariant
                lawful::<A>(),
                i <= self.entries@.len() == pre.entries@.len(),
                forall|k: int|
                    i <= k < pre.entries@.len() ==> #[trigger] self.entries@[k] == pre.entries@[k],
                forall|k: int|
                    0 <= k < i ==> (#[trigger] self.entries@[k]).0 == pre.entries@[k].0
                        && self.entries@[k].1@ == if covers(clock@, pre.entries@[k].1.clock@) {
                        payload_cleared(clock@)
                    } else {
                        pre.entries@[k].1@
                    },
            decreases self.entries@.len() - i,
        {
            assert(self.entries@[i as int] == pre.entries@[i as int]);
            if clock.covers(&self.entries[i].1.clock) {
                self.entries[i].1 = AtomPayload { clock: clock.clone(), value: None };
            }
            i = i + 1;
        }
        proof {
            let before = Slot::Major { minis: pre@ };
            assert(self@ =~= slot_cleared(before, clock@)->minis);
        }
    }
}

impl<V: Ord + Clone, A: Actor> Atom<V, A> {
    /// The children of the atom.
    pub open spec fn below(self) -> SiblingsNodes<V, A> {
        match self {
            Atom::Node { payload, children } => children,
            Atom::MajorNode { minis, children } => children,
        }
    }

    /// What stands at the place of the atom itself.
    pub open spec fn slot(self) -> Slot<V, A> {
        match self {
            Atom::Node { payload, children } => Slot::Node { payload: payload@ },
            Atom::MajorNode { minis, children } => Slot::Major { minis: minis@ },
        }
    }
}

impl<V: Ord + Clone, A: Actor> SiblingsNodes<V, A> {
    /// No number occurs twice, and numbers grow from sibling to sibling, here and below.
    pub open spec fn wf(self) -> bool
        decreases self,
    {
        &&& forall|i: int, j: int|
            0 <= i < j < self.slots@.len() ==> (#[trigger] self.slots@[i]).0 < (
            #[trigger] self.slots@[j]).0
        &&& forall|i: int|
            0 <= i < self.slots@.len() ==> (match (#[trigger] self.slots@[i]).1 {
                Atom::Node { payload, children } => children,
                Atom::MajorNode { minis, children } => children,
            }).wf()
    }

    /// One of the siblings has the number.
    pub open spec fn has(self, number: u64) -> bool {
        exists|i: int| 0 <= i < self.slots@.len() && (#[trigger] self.slots@[i]).0 == number
    }

    /// The index of the sibling with the number.
    pub open spec fn index(self, number: u64) -> int {
        choose|i: int| 0 <= i < self.slots@.len() && (#[trigger] self.slots@[i]).0 == number
    }

    /// What stands at a path, if anything does.
    pub open spec fn slot_at(self, path: Seq<u64>) -> Option<Slot<V, A>>
        decreases path.len(),
    {
        if path.len() == 0 || !self.has(path[0]) {
            None
        } else {
            let atom = self.slots@[self.index(path[0])].1;
            if path.len() == 1 {
                Some(atom.slot())
            } else {
                atom.below().slot_at(path.drop_first())
            }
        }
    }

    /// What stands at each path.
    pub open spec fn tree(self) -> Tree<V, A> {
        Map::new(|x: Seq<u64>| self.slot_at(x) is Some, |x: Seq<u64>| self.slot_at(x)->0)
    }

    /// No siblings.
    pub fn new() -> (r: Self)
        ensures
            r.slots@.len() == 0,
            r.wf(),
            forall|x: Seq<u64>| r.slot_at(x) is None,
    {
        SiblingsNodes { slots: Vec::new() }
    }

    /// The place of `number` among the siblings: its own if it is there, else that
    /// where it belongs.
    fn position(&self, number: u64) -> (r: (usize, bool))
        requires
            self.wf(),
        ensures
            r.0 <= self.slots@.len(),
            forall|i: int| 0 <= i < r.0 ==> (#[trigger] self.slots@[i]).0 < number,
            forall|i: int| r.0 <= i < self.slots@.len() ==> (#[trigger] self.slots@[i]).0 >= number,
            r.1 == self.has(number),
            r.1 ==> r.0 < self.slots@.len() && r.0 == self.index(number)
                && self.slots@[r.0 as int].0 == number,
    {
        let mut from: usize = 0;
        let mut to: usize = self.slots.len();
        while from < to
            invariant
                self.wf(),
                from <= to <= self.slots@.len(),
                forall|k: int| 0 <= k < from ==> (#[trigger] self.slots@[k]).0 < number,
                forall|k: int|
                    to <= k < self.slots@.len() ==> (#[trigger] self.slots@[k]).0 >= number,
            decreases to - from,
        {
            let middle: usize = from + (to - from) / 2;
            if self.slots[middle].0 < number {
                from = middle + 1;
            } else {
                to = middle;
            }
        }
        if from < self.slots.len() && self.slots[from].0 == number {
            assert(self.has(number));
            (from, true)
        } else {
            (from, false)
        }
    }
}

/// Two trees that differ in one new sibling without children differ in its path only.
proof fn new_sibling<V: Ord + Clone, A: Actor>(
    pre: SiblingsNodes<V, A>,
    post: SiblingsNodes<V, A>,
    at: int,
    number: u64,
    atom: Atom<V, A>,
)
    requires
        pre.wf(),
        0 <= at <= pre.slots@.len(),
        forall|i: int| 0 <= i < at ==> (#[trigger] pre.slots@[i]).0 < number,
        forall|i: int| at <= i < pre.slots@.len() ==> (#[trigger] pre.slots@[i]).0 > number,
        post.slots@ == pre.slots@.insert(at, (number, atom)),
        atom.below().slots@.len() == 0,
    ensures
        post.wf(),
        !pre.has(number),
        post.has(number),
        post.index(number) == at,
        forall|x: Seq<u64>| #[trigger]
            post.slot_at(x) == if x == seq![number] {
                Some(atom.slot())
            } else {
                pre.slot_at(x)
            },
{
    let s = pre.slots@;
    let t = post.slots@;
    assert forall|i: int| 0 <= i < t.len() implies #[trigger] t[i] == if i < at {
        s[i]
    } else if i == at {
        (number, atom)
    } else {
        s[i - 1]
    } by {}
    assert(t[at].0 == number);
    reveal_with_fuel(SiblingsNodes::wf, 2);
    assert(!pre.has(number));
    assert(atom.below().wf());
    assert(post.wf());
    assert forall|x: Seq<u64>| #[trigger] post.slot_at(x) == if x == seq![number] {
        Some(atom.slot())
    } else {
        pre.slot_at(x)
    } by {
        if x.len() > 0 {
            if x[0] == number {
                assert(post.index(number) == at);
                if x.len() == 1 {
                    assert(x =~= seq![number]);
                } else {
                    assert(atom.below().slot_at(x.drop_first()) is None);
                    assert(x != seq![number]);
                }
            } else if pre.has(x[0]) {
                let i = pre.index(x[0]);
                let j = if i < at {
                    i
                } else {
                    i + 1
                };
                assert(t[j] == s[i]);
                assert(post.has(x[0]));
                assert(post.index(x[0]) == j);
            } else {
                if post.has(x[0]) {
                    let j = post.index(x[0]);
                    let i = if j < at {
                        j
                    } else {
                        j - 1
                    };
                    assert(s[i] == t[j]);
                }
            }
        }
    }
}

/// Two trees that differ in one sibling differ only in its path and below.
proof fn changed_sibling<V: Ord + Clone, A: Actor>(
    pre: SiblingsNodes<V, A>,
    post: SiblingsNodes<V, A>,
    at: int,
    atom: Atom<V, A>,
)
    requires
        pre.wf(),
        0 <= at < pre.slots@.len(),
        post.slots@ == pre.slots@.update(at, (pre.slots@[at].0, atom)),
    ensures
        atom.below().wf() ==> post.wf(),
        forall|x: Seq<u64>| #[trigger]
            post.slot_at(x) == if x.len() > 0 && x[0] == pre.slots@[at].0 {
                if x.len() == 1 {
                    Some(atom.slot())
                } else {
                    atom.below().slot_at(x.drop_first())
                }
            } else {
                pre.slot_at(x)
            },
{
    let s = pre.slots@;
    let t = post.slots@;
    assert forall|i: int| 0 <= i < t.len() implies #[trigger] t[i] == if i == at {
        (s[at].0, atom)
    } else {
        s[i]
    } by {}
    assert forall|x: Seq<u64>| #[trigger] post.slot_at(x) == if x.len() > 0 && x[0] == s[at].0 {
        if x.len() == 1 {
            Some(atom.slot())
        } else {
            atom.below().slot_at(x.drop_first())
        }
    } else {
        pre.slot_at(x)
    } by {
        if x.len() > 0 {
            if x[0] == s[at].0 {
                assert(t[at].0 == x[0]);
                assert(post.has(x[0]));
                let j = post.index(x[0]);
                assert(s[j].0 == x[0]);
                assert(j == at);
            } else if pre.has(x[0]) {
                let i = pre.index(x[0]);
                assert(t[i] == s[i]);
                assert(post.has(x[0]));
                let j = post.index(x[0]);
                assert(s[j].0 == x[0]);
                assert(j == i);
            } else if post.has(x[0]) {
                let j = post.index(x[0]);
                assert(s[j].0 == t[j].0);
            }
        }
    }
}

impl<V: Ord + Clone, A: Actor> SiblingsNodes<V, A> {
    /// What the tree holds below the sibling at `at`.
    pub proof fn sibling(self, at: int)
        requires
            self.wf(),
            0 <= at < self.slots@.len(),
        ensures
            forall|x: Seq<u64>|
                x.len() > 0 && x[0] == self.slots@[at].0 ==> #[trigger] self.slot_at(x) == if x.len()
                    == 1 {
                    Some(self.slots@[at].1.slot())
                } else {
                    self.slots@[at].1.below().slot_at(x.drop_first())
                },
    {
        assert forall|x: Seq<u64>| x.len() > 0 && x[0] == self.slots@[at].0 implies (
        #[trigger] self.slot_at(x)) == if x.len() == 1 {
            Some(self.slots@[at].1.slot())
        } else {
            self.slots@[at].1.below().slot_at(x.drop_first())
        } by {
            assert(self.has(x[0]));
            assert(self.index(x[0]) == at);
        }
    }

    /// What leads to an atom is an atom.
    pub proof fn prefix_is_there(self, x: Seq<u64>, y: Seq<u64>)
        requires
            self.slot_at(y) is Some,
            leads_to(x, y),
        ensures
            self.slot_at(x) is Some,
        decreases y.len(),
    {
        assert(x[0] == y.take(x.len() as int)[0]);
        if x.len() > 1 {
            let below = self.slots@[self.index(y[0])].1.below();
            assert(x =~= seq![y[0]] + x.drop_first());
            assert(y =~= seq![y[0]] + y.drop_first());
            one_level_down(y[0], x.drop_first(), y.drop_first());
            below.prefix_is_there(x.drop_first(), y.drop_first());
        }
    }

    /// The siblings below the path of `p` from depth `from` down to `depth`. Nodes that
    /// only lead there are made where they are missing.
    pub fn descend<'a>(&'a mut self, p: &Identifier, from: usize, depth: usize) -> (r:
        &'a mut SiblingsNodes<V, A>)
        requires
            old(self).wf(),
            from <= depth,
        ensures
            r.wf(),
            final(r).wf() ==> final(self).wf(),
            forall|x: Seq<u64>| #[trigger]
                r.slot_at(x) == if x.len() == 0 {
                    None
                } else {
                    old(self).slot_at(route(p@, from as int, depth as int) + x)
                },
            forall|x: Seq<u64>| #[trigger]
                final(self).slot_at(x) == ({
                    let path = route(p@, from as int, depth as int);
                    if is_below(x, path) {
                        final(r).slot_at(x.skip(path.len() as int))
                    } else if leads_to(x, path) && old(self).slot_at(x) is None {
                        Some(placeholder())
                    } else {
                        old(self).slot_at(x)
                    }
                }),
        decreases depth - from,
    {
        let ghost path = route(p@, from as int, depth as int);
        if from == depth {
            assert(path =~= Seq::empty());
            assert forall|x: Seq<u64>| #[trigger] final(self).slot_at(x) == if is_below(x, path) {
                final(self).slot_at(x.skip(0))
            } else {
                self.slot_at(x)
            } by {
                assert(x.skip(0) =~= x);
                assert(x.take(0) =~= Seq::empty());
            }
            assert forall|x: Seq<u64>| #[trigger] (path + x) == x by {
                assert(path + x =~= x);
            }
            return self;
        }
        let number: u64 = if from < p.len() {
            p.at(from)
        } else {
            0
        };
        let ghost pre = *self;
        let (at, found) = self.position(number);
        if !found {
            let payload = AtomPayload { clock: VClock::new(), value: None };
            let atom = Atom::Node { payload, children: SiblingsNodes::new() };
            let ghost made = atom;
            self.slots.insert(at, (number, atom));
            proof {
                new_sibling(pre, *self, at as int, number, made);
            }
        }
        let ghost mid = *self;
        let ghost post = *final(self);
        proof {
            mid.sibling(at as int);
        }
        let atom = &mut self.slots[at].1;
        let below = match atom {
            Atom::Node { payload, children } => children,
            Atom::MajorNode { minis, children } => children,
        };
        let r = below.descend(p, from + 1, depth);
        proof {
            changed_sibling(mid, post, at as int, post.slots@[at as int].1);
            let rest = route(p@, from + 1, depth as int);
            assert(path =~= seq![number] + rest);
            assert forall|x: Seq<u64>| #[trigger] r.slot_at(x) == if x.len() == 0 {
                None
            } else {
                pre.slot_at(path + x)
            } by {
                if x.len() > 0 {
                    assert((path + x).drop_first() =~= rest + x);
                    assert(mid.slot_at(path + x) == pre.slot_at(path + x));
                }
            }
            assert forall|x: Seq<u64>| #[trigger] post.slot_at(x) == if is_below(x, path) {
                final(r).slot_at(x.skip(path.len() as int))
            } else if leads_to(x, path) && pre.slot_at(x) is None {
                Some(placeholder())
            } else {
                pre.slot_at(x)
            } by {
                if x.len() > 0 && x[0] == number {
                    let y = x.drop_first();
                    assert(x =~= seq![number] + y);
                    if x.len() == 1 {
                        assert(leads_to(x, path)) by {
                            assert(x =~= path.take(1));
                        }
                    } else {
                        one_level_down(number, y, rest);
                        assert(mid.slot_at(x) == pre.slot_at(x));
                    }
                } else {
                    if x.len() > 0 {
                        assert(!is_below(x, path) && !leads_to(x, path));
                    }
                    assert(mid.slot_at(x) == pre.slot_at(x));
                }
            }
        }
        r
    }

    /// Takes in `value`, inserted with `clock`, at `number` among the siblings. Tells
    /// whether the insert was taken.
    pub fn place(&mut self, number: u64, clock: VClock<A>, value: V) -> (r: bool)
        requires
            lawful::<A>(),
            old(self).wf(),
        ensures
            final(self).wf(),
            r == takes(old(self).slot_at(seq![number]), clock@),
            forall|x: Seq<u64>| #[trigger]
                final(self).slot_at(x) == if x == seq![number] {
                    Some(settled(old(self).slot_at(x), clock@, value))
                } else {
                    old(self).slot_at(x)
                },
    {
        let ghost pre = *self;
        let (at, found) = self.position(number);
        if !found {
            // The number is free.
            let payload = AtomPayload { clock, value: Some(value) };
            let atom = Atom::Node { payload, children: SiblingsNodes::new() };
            let ghost made = atom;
            self.slots.insert(at, (number, atom));
            proof {
                new_sibling(pre, *self, at as int, number, made);
                assert(!pre.has(seq![number][0]));
            }
            return true;
        }
        proof {
            pre.sibling(at as int);
            assert(pre.slot_at(seq![number]) == Some(pre.slots@[at as int].1.slot()));
        }
        let concurrent = match &self.slots[at].1 {
            Atom::Node { payload, children } => {
                // A node that an earlier or the same operation wrote keeps its value.
                payload.clock.causality(&clock) == Causality::Concurrent
            },
            // Nothing is inserted between mini-nodes.
            Atom::MajorNode { minis, children } => false,
        };
        if concurrent {
            // Both values are kept, as mini-nodes.
            let (_, atom) = self.slots.remove(at);
            if let Atom::Node { payload, children } = atom {
                let minis = MiniNodes::of_two(
                    AtomPayload { clock, value: Some(value) },
                    payload,
                );
                self.slots.insert(at, (number, Atom::MajorNode { minis, children }));
            }
            proof {
                let made = self.slots@[at as int].1;
                assert(self.slots@ =~= pre.slots@.update(at as int, (number, made)));
                changed_sibling(pre, *self, at as int, made);
                assert forall|x: Seq<u64>| #[trigger] self.slot_at(x) == if x == seq![number] {
                    Some(settled(pre.slot_at(x), clock@, value))
                } else {
                    pre.slot_at(x)
                } by {
                    if x.len() == 1 && x[0] == number {
                        assert(x =~= seq![number]);
                    }
                }
            }
        }
        concurrent
    }

    /// Takes out what a delete with `clock` has seen of the values at the path of `id` from
    /// depth `from` down. Tells whether there is an atom.
    pub fn erase(&mut self, id: &Identifier, from: usize, clock: &VClock<A>) -> (r: bool)
        requires
            lawful::<A>(),
            old(self).wf(),
            from < id@.len(),
        ensures
            final(self).wf(),
            r == old(self).tree().contains_key(id@.skip(from as int)),
            final(self).tree() == cleared(old(self).tree(), id@.skip(from as int), clock@),
        decreases id@.len() - from,
    {
        let ghost pre = *self;
        let ghost path = id@.skip(from as int);
        let number = id.at(from);
        let (at, found) = self.position(number);
        if !found {
            assert(!pre.has(path[0]));
            assert(pre.slot_at(path) is None);
            return false;
        }
        proof {
            pre.sibling(at as int);
        }
        let r = if from == id.len() - 1 {
            assert(path =~= seq![number]);
            match &mut self.slots[at].1 {
                Atom::Node { payload, children } => {
                    *payload = AtomPayload { clock: clock.clone(), value: None };
                },
                Atom::MajorNode { minis, children } => {
                    minis.clear(clock);
                },
            }
            true
        } else {
            assert(id@.skip(from + 1) =~= path.drop_first());
            match &mut self.slots[at].1 {
                Atom::Node { payload, children } => children.erase(id, from + 1, clock),
                Atom::MajorNode { minis, children } => children.erase(id, from + 1, clock),
            }
        };
        proof {
            let rest = path.drop_first();
            let below = pre.slots@[at as int].1.below();
            let made = self.slots@[at as int].1;
            changed_sibling(pre, *self, at as int, made);
            let post = cleared(pre.tree(), path, clock@);
            assert(pre.slot_at(path) == lookup(pre.tree(), path));
            assert(below.slot_at(rest) == lookup(below.tree(), rest));
            assert forall|x: Seq<u64>| #[trigger] self.slot_at(x) == lookup(post, x) by {
                assert(pre.slot_at(x) == lookup(pre.tree(), x));
                if x.len() > 0 && x[0] == number {
                    let y = x.drop_first();
                    assert(x =~= seq![number] + y);
                    assert(path =~= seq![number] + rest);
                    assert(made.below().slot_at(y) == lookup(made.below().tree(), y));
                    assert(below.slot_at(y) == lookup(below.tree(), y));
                    assert(x == path <==> y == rest);
                } else {
                    assert(x != path);
                }
            }
            assert(self.tree() =~= post);
        }
        r
    }
}

} // verus!
