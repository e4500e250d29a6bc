//! Walks over the whole tree.
use crate::actor::{lawful, Actor};
use crate::nodes::{Atom, AtomPayload, MiniNodes, SiblingsNodes};
use crate::identifier::{path_before_below, Identifier};
use crate::tree::{
    is_reading, live, lookup, payload_at, payload_copied, payload_forgotten, place_before,
    slot_copied, slot_forgotten, tree_copied, tree_forgotten, Payload, Place, Slot,
};
use crate::vclock::VClock;
use vstd::prelude::*;

verus! {

impl<V: Ord + Clone, A: Actor> SiblingsNodes<V, A> {
    /// Trees with the same numbers at the top have their siblings in the same places.
    pub proof fn same_numbers(self, other: Self)
        requires
            self.wf(),
            self.slots@.len() == other.slots@.len(),
            forall|i: int|
                0 <= i < self.slots@.len() ==> (#[trigger] other.slots@[i]).0 == self.slots@[i].0,
        ensures
            forall|n: u64| #[trigger] other.has(n) == self.has(n),
            forall|n: u64| self.has(n) ==> #[trigger] other.index(n) == self.index(n),
    {
        assert forall|n: u64| #[trigger] other.has(n) == self.has(n) by {
            if self.has(n) {
                assert(other.slots@[self.index(n)].0 == n);
            }
            if other.has(n) {
                assert(self.slots@[other.index(n)].0 == n);
            }
        }
        assert forall|n: u64| self.has(n) implies #[trigger] other.index(n) == self.index(n) by {
            assert(other.has(n));
            assert(self.slots@[other.index(n)].0 == n);
        }
    }

    /// Forgets `c` in the clock of each atom.
    pub fn forget_clock_in_tree(&mut self, c: &VClock<A>)
        requires
            lawful::<A>(),
            old(self).wf(),
        ensures
            final(self).wf(),
            final(self).tree() == tree_forgotten(old(self).tree(), c@),
        decreases *old(self),
    {
        let ghost pre = *self;
        let mut i: usize = 0;
        while i < self.slots.len()
            invariant
                lawful::<A>(),
                pre == *old(self),
                pre.wf(),
                i <= self.slots@.len() == pre.slots@.len(),
                forall|k: int|
                    0 <= k < pre.slots@.len() ==> (#[trigger] self.slots@[k]).0 == pre.slots@[k].0,
                forall|k: int|
                    i <= k < pre.slots@.len() ==> #[trigger] self.slots@[k] == pre.slots@[k],
                forall|k: int|
                    0 <= k < i ==> (#[trigger] self.slots@[k]).1.slot() == slot_forgotten(
                        pre.slots@[k].1.slot(),
                        c@,
                    ) && self.slots@[k].1.below().wf() && self.slots@[k].1.below().tree()
                        == tree_forgotten(pre.slots@[k].1.below().tree(), c@),
            decreases self.slots@.len() - i,
        {
            let ghost here = pre.slots@[i as int].1;
            assert(self.slots@[i as int] == pre.slots@[i as int]);
            match &mut self.slots[i].1 {
                Atom::Node { payload, children } => {
                    payload.clock.forget(c);
                    assert(*children == here->Node_children);
                    children.forget_clock_in_tree(c);
                },
                Atom::MajorNode { minis, children } => {
                    minis.forget(c);
                    assert(*children == here->MajorNode_children);
                    children.forget_clock_in_tree(c);
                },
            }
            i = i + 1;
        }
        proof {
            let post = *self;
            pre.same_numbers(post);
            assert(post.wf());
            assert forall|x: Seq<u64>| #[trigger] post.slot_at(x) == lookup(
                tree_forgotten(pre.tree(), c@),
                x,
            ) by {
                if x.len() > 0 && pre.has(x[0]) {
                    let at = pre.index(x[0]);
                    let before = pre.slots@[at].1;
                    let after = post.slots@[at].1;
                    assert(after.below().slot_at(x.drop_first()) == lookup(
                        after.below().tree(),
                        x.drop_first(),
                    ));
                    assert(before.below().slot_at(x.drop_first()) == lookup(
                        before.below().tree(),
                        x.drop_first(),
                    ));
                }
                assert(pre.slot_at(x) == lookup(pre.tree(), x));
            }
            assert(post.tree() =~= tree_forgotten(pre.tree(), c@));
        }
    }
}

impl<V: Ord + Clone, A: Actor> MiniNodes<V, A> {
    /// Forgets `c` in the clock of each mini-node.
    pub fn forget(&mut self, c: &VClock<A>)
        requires
            lawful::<A>(),
        ensures
            final(self)@ == old(self)@.map_values(
                |e: (Map<A, u64>, Payload<V, A>)| (e.0, payload_forgotten(e.1, c@)),
            ),
    {
        let ghost pre = *self;
        let mut i: usize = 0;
        while i < self.entries.len()
            invariant
                lawful::<A>(),
                i <= self.entries@.len() == pre.entries@.len(),
                forall|k: int|
                    i <= k < pre.entries@.len() ==> #[trigger] self.entries@[k] == pre.entries@[k],
                forall|k: int|
                    0 <= k < i ==> (#[trigger] self.entries@[k]).0 == pre.entries@[k].0
                        && self.entries@[k].1@ == payload_forgotten(pre.entries@[k].1@, c@),
            decreases self.entries@.len() - i,
        {
            assert(self.entries@[i as int] == pre.entries@[i as int]);
            self.entries[i].1.clock.forget(c);
            i = i + 1;
        }
        assert(self@ =~= pre@.map_values(
            |e: (Map<A, u64>, Payload<V, A>)| (e.0, payload_forgotten(e.1, c@)),
        ));
    }
}

/// `entry` shows what stands at a place: the path of the place, a clone of the value, and
/// the clock.
pub open spec fn shows_one<V: Ord + Clone, A: Actor>(
    path: Seq<u64>,
    payload: Payload<V, A>,
    entry: (Identifier, V, VClock<A>),
) -> bool {
    entry.0@ == path && cloned(payload.value->0, entry.1) && entry.2@ == payload.clock
}

/// `places` reads what stands at the first `n` of the siblings and below them.
pub open spec fn reads_siblings<V: Ord + Clone, A: Actor>(
    nodes: SiblingsNodes<V, A>,
    n: int,
    places: Seq<Place>,
) -> bool {
    &&& forall|i: int, j: int|
        0 <= i < j < places.len() ==> place_before(#[trigger] places[i], #[trigger] places[j])
    &&& forall|i: int|
        0 <= i < places.len() ==> live(nodes.tree(), #[trigger] places[i]) && nodes.index(
            places[i].0[0],
        ) < n
    &&& forall|at: Place| #[trigger]
        live(nodes.tree(), at) && nodes.index(at.0[0]) < n ==> places.contains(at)
}

/// `indices` holds the index of each value that can be read at `slot`, in their order.
pub open spec fn reads_slot<V, A>(slot: Slot<V, A>, indices: Seq<int>) -> bool {
    let alone = map![Seq::<u64>::empty() => slot];
    &&& forall|i: int, j: int|
        0 <= i < j < indices.len() ==> (#[trigger] indices[i]) < (#[trigger] indices[j])
    &&& forall|i: int|
        0 <= i < indices.len() ==> live(alone, (Seq::<u64>::empty(), #[trigger] indices[i]))
    &&& forall|j: int| #[trigger] live(alone, (Seq::<u64>::empty(), j)) ==> indices.contains(j)
}

/// The places of `indices` at the path of one number.
pub open spec fn own_places(number: u64, indices: Seq<int>) -> Seq<Place> {
    indices.map_values(|j: int| (seq![number], j))
}

/// The places of `places` one level down.
pub open spec fn lower_places(number: u64, places: Seq<Place>) -> Seq<Place> {
    places.map_values(|at: Place| (seq![number] + at.0, at.1))
}

impl<V: Ord + Clone, A: Actor> SiblingsNodes<V, A> {
    /// The reading of the first `n` siblings, then that of the next one, then that of what
    /// stands below it, is the reading of one sibling more.
    proof fn reads_one_more(self, n: int, places: Seq<Place>, indices: Seq<int>, below: Seq<Place>)
        requires
            self.wf(),
            0 <= n < self.slots@.len(),
            reads_siblings(self, n, places),
            reads_slot(self.slots@[n].1.slot(), indices),
            is_reading(self.slots@[n].1.below().tree(), below),
        ensures
            reads_siblings(
                self,
                n + 1,
                places + own_places(self.slots@[n].0, indices) + lower_places(
                    self.slots@[n].0,
                    below,
                ),
            ),
            forall|i: int|
                0 <= i < indices.len() ==> payload_at(
                    self.tree(),
                    (seq![self.slots@[n].0], #[trigger] indices[i]),
                ) == payload_at(
                    map![Seq::<u64>::empty() => self.slots@[n].1.slot()],
                    (Seq::<u64>::empty(), indices[i]),
                ),
            forall|i: int|
                0 <= i < below.len() ==> payload_at(
                    self.tree(),
                    (seq![self.slots@[n].0] + (#[trigger] below[i]).0, below[i].1),
                ) == payload_at(self.slots@[n].1.below().tree(), below[i]),
    {
        let number = self.slots@[n].0;
        let atom = self.slots@[n].1;
        let t = self.tree();
        let alone = map![Seq::<u64>::empty() => atom.slot()];
        let own = own_places(number, indices);
        let lower = lower_places(number, below);
        let all = places + own + lower;
        self.sibling(n);
        assert(self.has(number));
        assert(self.index(number) == n);
        assert(t.contains_key(seq![number]) && t[seq![number]] == atom.slot()) by {
            assert(self.slot_at(seq![number]) == Some(atom.slot()));
        }
        assert forall|y: Seq<u64>| y.len() > 0 implies lookup(t, #[trigger] (seq![number] + y))
            == lookup(atom.below().tree(), y) by {
            assert((seq![number] + y).drop_first() =~= y);
            assert(self.slot_at(seq![number] + y) == atom.below().slot_at(y));
        }
        assert forall|j: int| #[trigger] live(alone, (Seq::<u64>::empty(), j)) == live(
            t,
            (seq![number], j),
        ) by {}
        assert forall|at: Place| at.0.len() > 0 implies live(
            t,
            (seq![number] + at.0, at.1),
        ) == #[trigger] live(atom.below().tree(), at) by {
            assert(lookup(t, seq![number] + at.0) == lookup(atom.below().tree(), at.0));
        }
        assert forall|i: int| 0 <= i < below.len() implies (#[trigger] below[i]).0.len() > 0 by {
            assert(live(atom.below().tree(), below[i]));
        }
        assert forall|i: int| 0 <= i < own.len() implies #[trigger] own[i] == (
            seq![number],
            indices[i],
        ) && live(t, own[i]) by {
            assert(live(alone, (Seq::<u64>::empty(), indices[i])));
        }
        assert forall|i: int| 0 <= i < lower.len() implies #[trigger] lower[i] == (
            seq![number] + below[i].0,
            below[i].1,
        ) && live(t, lower[i]) && lower[i].0.len() > 1 && lower[i].0[0] == number by {
            assert(live(atom.below().tree(), below[i]));
        }
        assert forall|i: int, j: int| 0 <= i < j < all.len() implies place_before(
            #[trigger] all[i],
            #[trigger] all[j],
        ) by {
            let m = places.len();
            let o = m + own.len();
            if j < m {
                assert(place_before(places[i], places[j]));
            } else if i < m {
                assert(live(t, places[i]));
                assert(self.has(places[i].0[0]));
                assert(places[i].0[0] < number);
                assert(all[j].0[0] == number) by {
                    if j < o {
                        assert(all[j] == own[j - m]);
                    } else {
                        assert(all[j] == lower[j - o]);
                    }
                }
            } else if j < o {
                assert(all[i] == own[i - m]);
                assert(all[j] == own[j - m]);
            } else if i < o {
                assert(all[i] == own[i - m]);
                assert(all[j] == lower[j - o]);
                path_before_below(number, Seq::empty(), below[j - o].0);
                assert(seq![number] + Seq::<u64>::empty() =~= seq![number]);
            } else {
                assert(all[i] == lower[i - o]);
                assert(all[j] == lower[j - o]);
                assert(place_before(below[i - o], below[j - o]));
                path_before_below(number, below[i - o].0, below[j - o].0);
            }
        }
        assert forall|at: Place| #[trigger]
            live(t, at) && self.index(at.0[0]) < n + 1 implies all.contains(at) by {
            assert(self.slot_at(at.0) is Some);
            assert(self.has(at.0[0]));
            if self.index(at.0[0]) < n {
                assert(places.contains(at));
                let i = places.index_of(at);
                assert(all[i] == at);
            } else {
                assert(at.0[0] == number);
                if at.0.len() == 1 {
                    assert(at.0 =~= seq![number]);
                    assert(live(alone, (Seq::<u64>::empty(), at.1)));
                    let i = indices.index_of(at.1);
                    assert(own[i] == at);
                    assert(all[places.len() + i] == at);
                } else {
                    let y = at.0.drop_first();
                    assert(at.0 =~= seq![number] + y);
                    assert(live(atom.below().tree(), (y, at.1)));
                    let i = below.index_of((y, at.1));
                    assert(lower[i] == at);
                    assert(all[places.len() + own.len() + i] == at);
                }
            }
        }
        assert forall|i: int| 0 <= i < all.len() implies live(t, #[trigger] all[i]) && self.index(
            all[i].0[0],
        ) < n + 1 by {
            let m = places.len();
            let o = m + own.len();
            if i < m {
                assert(all[i] == places[i]);
            } else if i < o {
                assert(all[i] == own[i - m]);
            } else {
                assert(all[i] == lower[i - o]);
            }
        }
        assert forall|i: int| 0 <= i < below.len() implies payload_at(
            t,
            (seq![number] + (#[trigger] below[i]).0, below[i].1),
        ) == payload_at(atom.below().tree(), below[i]) by {
            assert(live(atom.below().tree(), below[i]));
            assert(lookup(t, seq![number] + below[i].0) == lookup(
                atom.below().tree(),
                below[i].0,
            ));
        }
    }
}

impl<V: Ord + Clone, A: Actor> MiniNodes<V, A> {
    /// Puts the values of the mini-nodes at the end of `seq`, all under `path`.
    pub fn flatten_atom_value(
        &self,
        path: &Identifier,
        seq: &mut Vec<(Identifier, V, VClock<A>)>,
    ) -> (indices: Ghost<Seq<int>>)
        ensures
            reads_slot(Slot::Major { minis: self@ }, indices@),
            final(seq)@.len() == old(seq)@.len() + indices@.len(),
            forall|k: int| 0 <= k < old(seq)@.len() ==> #[trigger] final(seq)@[k] == old(seq)@[k],
            forall|k: int|
                0 <= k < indices@.len() ==> shows_one(
                    path@,
                    self@[#[trigger] indices@[k]].1,
                    final(seq)@[old(seq)@.len() + k],
                ),
    {
        let ghost start = seq@;
        let ghost mut indices: Seq<int> = Seq::empty();
        let mut i: usize = 0;
        while i < self.entries.len()
            invariant
                i <= self.entries@.len(),
                seq@.len() == start.len() + indices.len(),
                forall|k: int| 0 <= k < start.len() ==> #[trigger] seq@[k] == start[k],
                forall|k: int, l: int|
                    0 <= k < l < indices.len() ==> (#[trigger] indices[k]) < (#[trigger] indices[l]),
                forall|k: int|
                    0 <= k < indices.len() ==> 0 <= (#[trigger] indices[k]) < i
                        && self@[indices[k]].1.value is Some && shows_one(
                        path@,
                        self@[indices[k]].1,
                        seq@[start.len() + k],
                    ),
                forall|j: int|
                    0 <= j < i && (#[trigger] self@[j]).1.value is Some ==> indices.contains(j),
            decreases self.entries@.len() - i,
        {
            let ghost known = indices;
            let payload = &self.entries[i].1;
            assert(self@[i as int].1 == payload@);
            if let Some(value) = &payload.value {
                seq.push((path.clone(), value.clone(), payload.clock.clone()));
                proof {
                    indices = indices.push(i as int);
                    assert(indices[known.len() as int] == i);
                    assert forall|j: int|
                        0 <= j < i + 1 && (
                        #[trigger] self@[j]).1.value is Some implies indices.contains(j) by {
                        if j < i {
                            assert(known.contains(j));
                            assert(indices[known.index_of(j)] == j);
                        }
                    }
                }
            }
            i = i + 1;
        }
        proof {
            let slot = Slot::Major { minis: self@ };
            assert(reads_slot(slot, indices));
        }
        Ghost(indices)
    }
}

impl<V: Ord + Clone, A: Actor> SiblingsNodes<V, A> {
    /// Puts the values of the tree at the end of `seq`, in the order of their paths; the
    /// paths begin with `prefix`.
    pub fn flatten_tree(
        &self,
        prefix: &Identifier,
        seq: &mut Vec<(Identifier, V, VClock<A>)>,
    ) -> (places: Ghost<Seq<Place>>)
        requires
            self.wf(),
        ensures
            is_reading(self.tree(), places@),
            final(seq)@.len() == old(seq)@.len() + places@.len(),
            forall|k: int| 0 <= k < old(seq)@.len() ==> #[trigger] final(seq)@[k] == old(seq)@[k],
            forall|k: int|
                0 <= k < places@.len() ==> shows_one(
                    prefix@ + places@[k].0,
                    payload_at(self.tree(), #[trigger] places@[k]),
                    final(seq)@[old(seq)@.len() + k],
                ),
        decreases *self,
    {
        let ghost start = seq@;
        let ghost t = self.tree();
        let ghost mut places: Seq<Place> = Seq::empty();
        let mut i: usize = 0;
        while i < self.slots.len()
            invariant
                self.wf(),
                t == self.tree(),
                i <= self.slots@.len(),
                reads_siblings(*self, i as int, places),
                seq@.len() == start.len() + places.len(),
                forall|k: int| 0 <= k < start.len() ==> #[trigger] seq@[k] == start[k],
                forall|k: int|
                    0 <= k < places.len() ==> shows_one(
                        prefix@ + places[k].0,
                        payload_at(t, #[trigger] places[k]),
                        seq@[start.len() + k],
                    ),
            decreases self.slots@.len() - i,
        {
            let number = self.slots[i].0;
            let mut path = prefix.clone();
            path.push(number);
            let ghost sofar = seq@;
            let ghost indices: Seq<int>;
            let ghost below: Seq<Place>;
            match &self.slots[i].1 {
                Atom::Node { payload, children } => {
                    // The value of the atom comes before those of its children.
                    if let Some(value) = &payload.value {
                        seq.push((path.clone(), value.clone(), payload.clock.clone()));
                        proof {
                            indices = seq![0int];
                            assert(indices[0] == 0);
                        }
                    } else {
                        proof {
                            indices = Seq::empty();
                        }
                    }
                    let found = children.flatten_tree(&path, seq);
                    proof {
                        below = found@;
                    }
                },
                Atom::MajorNode { minis, children } => {
                    // So do the values of the mini-nodes.
                    let own = minis.flatten_atom_value(&path, seq);
                    proof {
                        indices = own@;
                    }
                    let found = children.flatten_tree(&path, seq);
                    proof {
                        below = found@;
                    }
                },
            }
            proof {
                let known = places;
                let own = own_places(number, indices);
                let lower = lower_places(number, below);
                places = known + own + lower;
                assert(reads_slot(self.slots@[i as int].1.slot(), indices));
                self.reads_one_more(i as int, known, indices, below);
                assert forall|k: int| 0 <= k < places.len() implies shows_one(
                    prefix@ + places[k].0,
                    payload_at(t, #[trigger] places[k]),
                    seq@[start.len() + k],
                ) by {
                    let m = known.len();
                    let o = m + own.len();
                    if k < m {
                        assert(places[k] == known[k]);
                        assert(seq@[start.len() + k] == sofar[start.len() + k]);
                    } else if k < o {
                        assert(places[k] == own[k - m]);
                        assert(prefix@ + seq![number] =~= path@);
                        assert(indices[k - m] == places[k].1);
                    } else {
                        assert(places[k] == lower[k - o]);
                        assert(below[k - o].1 == places[k].1);
                        assert(prefix@ + (seq![number] + below[k - o].0) =~= path@ + below[k
                            - o].0);
                    }
                }
            }
            i = i + 1;
        }
        proof {
            assert forall|at: Place| #[trigger] live(t, at) implies places.contains(at) by {
                assert(self.slot_at(at.0) is Some);
                assert(self.has(at.0[0]));
            }
        }
        Ghost(places)
    }
}

impl<V: Ord + Clone, A: Actor> Clone for AtomPayload<V, A> {
    fn clone(&self) -> (r: Self)
        ensures
            payload_copied(self@, r@),
    {
        let value = match &self.value {
            Some(v) => Some(v.clone()),
            None => None,
        };
        AtomPayload { clock: self.clock.clone(), value }
    }
}

impl<V: Ord + Clone, A: Actor> Clone for MiniNodes<V, A> {
    fn clone(&self) -> (r: Self)
        ensures
            slot_copied(Slot::Major { minis: self@ }, Slot::Major { minis: r@ }),
    {
        let mut entries: Vec<(VClock<A>, AtomPayload<V, A>)> = Vec::new();
        let mut i: usize = 0;
        while i < self.entries.len()
            invariant
                i == entries@.len(),
                i <= self.entries@.len(),
                forall|k: int|
                    0 <= k < i ==> self@[k].0 == (#[trigger] entries@[k]).0@ && payload_copied(
                        self@[k].1,
                        entries@[k].1@,
                    ),
            decreases self.entries@.len() - i,
        {
            let (key, payload) = &self.entries[i];
            entries.push((key.clone(), payload.clone()));
            i = i + 1;
        }
        let r = MiniNodes { entries };
        assert forall|k: int| 0 <= k < self@.len() implies (#[trigger] self@[k]).0
            == (#[trigger] r@[k]).0 && payload_copied(self@[k].1, r@[k].1) by {
            assert(r@[k] == (entries@[k].0@, entries@[k].1@));
        }
        r
    }
}

impl<V: Ord + Clone, A: Actor> SiblingsNodes<V, A> {
    /// A copy of the tree.
    pub fn duplicate(&self) -> (r: Self)
        ensures
            self.wf() ==> r.wf() && tree_copied(self.tree(), r.tree()),
        decreases *self,
    {
        let mut slots: Vec<(u64, Atom<V, A>)> = Vec::new();
        let mut i: usize = 0;
        while i < self.slots.len()
            invariant
                i == slots@.len(),
                i <= self.slots@.len(),
                forall|k: int|
                    0 <= k < i ==> (#[trigger] slots@[k]).0 == self.slots@[k].0 && slot_copied(
                        self.slots@[k].1.slot(),
                        slots@[k].1.slot(),
                    ) && (self.slots@[k].1.below().wf() ==> slots@[k].1.below().wf() && tree_copied(
                        self.slots@[k].1.below().tree(),
                        slots@[k].1.below().tree(),
                    )),
            decreases self.slots@.len() - i,
        {
            let atom = match &self.slots[i].1 {
                Atom::Node { payload, children } => Atom::Node {
                    payload: payload.clone(),
                    children: children.duplicate(),
                },
                Atom::MajorNode { minis, children } => Atom::MajorNode {
                    minis: minis.clone(),
                    children: children.duplicate(),
                },
            };
            slots.push((self.slots[i].0, atom));
            i = i + 1;
        }
        let r = SiblingsNodes { slots };
        proof {
            if self.wf() {
                self.same_numbers(r);
                assert(r.wf());
                assert forall|x: Seq<u64>| match (self.slot_at(x), #[trigger] r.slot_at(x)) {
                    (Some(a), Some(b)) => slot_copied(a, b),
                    (None, None) => true,
                    _ => false,
                } by {
                    if x.len() > 0 && self.has(x[0]) {
                        let at = self.index(x[0]);
                        let y = x.drop_first();
                        let ours = self.slots@[at].1.below();
                        let theirs = r.slots@[at].1.below();
                        assert(ours.slot_at(y) == lookup(ours.tree(), y));
                        assert(theirs.slot_at(y) == lookup(theirs.tree(), y));
                        assert(ours.tree().dom().contains(y) == theirs.tree().dom().contains(y));
                    }
                }
                assert(self.tree().dom() =~= r.tree().dom()) by {
                    assert forall|x: Seq<u64>| self.tree().dom().contains(x) == r.tree().dom().contains(
                        x,
                    ) by {
                        assert(r.slot_at(x) is Some == self.slot_at(x) is Some);
                    }
                }
                assert forall|x: Seq<u64>| #[trigger] self.tree().contains_key(x) implies slot_copied(
                    self.tree()[x],
                    r.tree()[x],
                ) by {
                    assert(r.slot_at(x) is Some);
                }
            }
        }
        r
    }
}

} // verus!
