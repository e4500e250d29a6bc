//! Vector clocks: for each actor, how many of its operations have been seen.
use crate::actor::{before, before_is_total_order, lawful, rank, Actor, Rank};
use std::collections::BTreeMap;
use vstd::prelude::*;

verus! {

/// One operation of one actor.
#[derive(Debug, PartialEq, Eq)]
pub struct Dot<A: Actor> {
    /// The actor that operated.
    pub actor: A,
    /// How many operations of the actor there are up to this one.
    pub counter: u64,
}

/// A vector clock.
#[derive(Debug, PartialEq, Eq)]
pub struct VClock<A: Actor> {
    /// The latest known version of each actor.
    pub dots: BTreeMap<A, u64>,
}

/// How the history behind one clock stands to the history behind another.
#[derive(Clone, Copy, Debug, PartialEq, Eq, Structural)]
pub enum Causality {
    Equal,
    Less,
    Greater,
    Concurrent,
}

/// The version of `a` in `m`; an actor that `m` does not list is at version zero.
pub open spec fn count<A>(m: Map<A, u64>, a: A) -> u64 {
    if m.contains_key(a) {
        m[a]
    } else {
        0
    }
}

/// `m` has seen all that `n` has.
pub open spec fn covers<A>(m: Map<A, u64>, n: Map<A, u64>) -> bool {
    forall|a: A| #[trigger] n.contains_key(a) ==> count(m, a) >= n[a]
}

/// The causal relation of `m` to `n`.
pub open spec fn causality<A>(m: Map<A, u64>, n: Map<A, u64>) -> Causality {
    if m == n {
        Causality::Equal
    } else if covers(m, n) {
        Causality::Greater
    } else if covers(n, m) {
        Causality::Less
    } else {
        Causality::Concurrent
    }
}

/// `m` after seeing version `n` of `a`.
pub open spec fn applied<A>(m: Map<A, u64>, a: A, n: u64) -> Map<A, u64> {
    if count(m, a) < n {
        m.insert(a, n)
    } else {
        m
    }
}

/// `m` after seeing all that `n` has: each actor at the later of its two versions.
pub open spec fn merged<A>(m: Map<A, u64>, n: Map<A, u64>) -> Map<A, u64> {
    Map::new(
        |a: A| m.contains_key(a) || count(n, a) > 0,
        |a: A|
            if count(m, a) < count(n, a) {
                count(n, a)
            } else {
                count(m, a)
            },
    )
}

/// `m` without the actors of which `n` has seen as much or more.
pub open spec fn forgotten<A>(m: Map<A, u64>, n: Map<A, u64>) -> Map<A, u64> {
    Map::new(|a: A| m.contains_key(a) && !(n.contains_key(a) && n[a] >= m[a]), |a: A| m[a])
}

/// `s` lists the dots of `m`, in the order of their actors.
pub open spec fn lists<A: Actor>(m: Map<A, u64>, s: Seq<(A, u64)>) -> bool {
    &&& forall|i: int, j: int|
        0 <= i < j < s.len() ==> before((#[trigger] s[i]).0, (#[trigger] s[j]).0)
    &&& forall|i: int|
        0 <= i < s.len() ==> m.contains_key((#[trigger] s[i]).0) && m[s[i].0] == s[i].1
    &&& forall|a: A| #[trigger]
        m.contains_key(a) ==> exists|i: int| 0 <= i < s.len() && (#[trigger] s[i]).0 == a
}

/// The dots of a list that borrows its actors.
pub open spec fn plain<A: Actor>(s: Seq<(&A, u64)>) -> Seq<(A, u64)> {
    s.map_values(|e: (&A, u64)| (*e.0, e.1))
}

impl<A: Actor> View for VClock<A> {
    type V = Map<A, u64>;

    open spec fn view(&self) -> Map<A, u64> {
        self.dots@
    }
}

impl<A: Actor> Clone for VClock<A> {
    fn clone(&self) -> (r: Self)
        ensures
            r@ == self@,
    {
        VClock { dots: self.dots.clone() }
    }
}

impl<A: Actor> VClock<A> {
    /// The clock that has seen nothing.
    pub fn new() -> (r: Self)
        ensures
            r@ == Map::<A, u64>::empty(),
    {
        VClock { dots: BTreeMap::new() }
    }

    /// Whether the clock lists no actor.
    pub fn is_empty(&self) -> (r: bool)
        ensures
            r == (self@ == Map::<A, u64>::empty()),
    {
        let r = self.dots.is_empty();
        proof {
            if r {
                assert(self@ =~= Map::<A, u64>::empty());
            }
        }
        r
    }

    /// The version of `actor` that the clock has seen.
    pub fn get(&self, actor: &A) -> (r: u64)
        requires
            lawful::<A>(),
        ensures
            r == count(self@, *actor),
    {
        match self.dots.get(actor) {
            Some(n) => *n,
            None => 0,
        }
    }

    /// The next operation of `actor`.
    pub fn inc(&self, actor: A) -> (r: Dot<A>)
        requires
            lawful::<A>(),
            count(self@, actor) < u64::MAX,
        ensures
            r.actor == actor,
            r.counter == count(self@, actor) + 1,
    {
        let counter: u64 = self.get(&actor) + 1;
        Dot { actor, counter }
    }

    /// Sees one operation.
    pub fn apply(&mut self, dot: Dot<A>)
        requires
            lawful::<A>(),
        ensures
            final(self)@ == applied(old(self)@, dot.actor, dot.counter),
    {
        if self.get(&dot.actor) < dot.counter {
            self.dots.insert(dot.actor, dot.counter);
        }
    }

    /// The dots of the clock, in the order of their actors.
    pub fn entries(&self) -> (r: Vec<(&A, u64)>)
        requires
            lawful::<A>(),
        ensures
            lists(self@, plain(r@)),
    {
        let mut r: Vec<(&A, u64)> = Vec::new();
        let ghost all = vstd::std_specs::iter::IteratorSpec::remaining(&self.dots.iter());
        for (actor, n) in it: self.dots.iter()
            invariant
                it.seq() == all,
                r@.len() == it.index(),
                forall|k: int| 0 <= k < r@.len() ==> #[trigger] r@[k] == (all[k].0, *all[k].1),
        {
            r.push((actor, *n));
        }
        proof {
            let keys = all.map_values(|kv: (&A, &u64)| *kv.0);
            assert(vstd::std_specs::btree::increasing_seq(keys));
            assert forall|i: int, j: int| 0 <= i < j < plain(r@).len() implies before(
                #[trigger] plain(r@)[i].0,
                #[trigger] plain(r@)[j].0,
            ) by {
                assert(before(keys[i], keys[j]));
            }
            assert forall|a: A| #[trigger] self@.contains_key(a) implies exists|i: int|
                0 <= i < plain(r@).len() && (#[trigger] plain(r@)[i]).0 == a by {
                let i = choose|i: int| 0 <= i < all.len() && all[i] == (&a, &self@[a]);
                assert(plain(r@)[i].0 == a);
            }
        }
        r
    }

    /// Whether the clock has seen all that `other` has.
    pub fn covers(&self, other: &VClock<A>) -> (r: bool)
        requires
            lawful::<A>(),
        ensures
            r == covers(self@, other@),
    {
        let theirs = other.entries();
        let ghost s = plain(theirs@);
        let mut i: usize = 0;
        while i < theirs.len()
            invariant
                lawful::<A>(),
                i <= theirs@.len(),
                s == plain(theirs@),
                lists(other@, s),
                forall|k: int| 0 <= k < i ==> count(self@, (#[trigger] s[k]).0) >= s[k].1,
            decreases theirs@.len() - i,
        {
            assert(s[i as int] == (*theirs@[i as int].0, theirs@[i as int].1));
            if self.get(theirs[i].0) < theirs[i].1 {
                return false;
            }
            i = i + 1;
        }
        true
    }

    /// The causal relation of the clock to `other`.
    pub fn causality(&self, other: &VClock<A>) -> (r: Causality)
        requires
            lawful::<A>(),
        ensures
            r == causality(self@, other@),
    {
        if self.same(other) {
            Causality::Equal
        } else if self.covers(other) {
            Causality::Greater
        } else if other.covers(self) {
            Causality::Less
        } else {
            Causality::Concurrent
        }
    }

    /// Whether both clocks list the same dots.
    fn same(&self, other: &VClock<A>) -> (r: bool)
        requires
            lawful::<A>(),
        ensures
            r == (self@ == other@),
    {
        let ours = self.entries();
        let theirs = other.entries();
        let ghost s = plain(ours@);
        let ghost t = plain(theirs@);
        proof {
            if self@ == other@ {
                lists_are_unique(self@, s, t);
            }
        }
        if ours.len() != theirs.len() {
            return false;
        }
        let mut i: usize = 0;
        while i < ours.len()
            invariant
                lawful::<A>(),
                i <= ours@.len() == theirs@.len(),
                s == plain(ours@),
                t == plain(theirs@),
                self@ == other@ ==> s == t,
                forall|k: int| 0 <= k < i ==> s[k] == t[k],
            decreases ours@.len() - i,
        {
            assert(s[i as int] == (*ours@[i as int].0, ours@[i as int].1));
            assert(t[i as int] == (*theirs@[i as int].0, theirs@[i as int].1));
            if rank(ours[i].0, theirs[i].0) != Rank::Same || ours[i].1 != theirs[i].1 {
                return false;
            }
            i = i + 1;
        }
        proof {
            assert(s =~= t);
            lists_determine(self@, other@, s);
        }
        true
    }

    /// Sees all that `other` has seen.
    pub fn merge(&mut self, other: VClock<A>)
        requires
            lawful::<A>(),
        ensures
            final(self)@ == merged(old(self)@, other@),
    {
        let theirs = other.entries();
        let ghost s = plain(theirs@);
        let ghost start = self@;
        let mut i: usize = 0;
        while i < theirs.len()
            invariant
                lawful::<A>(),
                i <= theirs@.len(),
                s == plain(theirs@),
                lists(other@, s),
                forall|a: A| #[trigger]
                    count(self@, a) >= count(start, a) && (count(self@, a) == count(start, a)
                        || count(self@, a) == count(other@, a)),
                forall|a: A| #[trigger] start.contains_key(a) ==> self@.contains_key(a),
                forall|a: A| #[trigger]
                    self@.contains_key(a) && !start.contains_key(a) ==> count(other@, a) > 0 && self@[a]
                        == count(other@, a),
                forall|k: int| 0 <= k < i ==> count(self@, (#[trigger] s[k]).0) >= s[k].1,
            decreases theirs@.len() - i,
        {
            assert(s[i as int] == (*theirs@[i as int].0, theirs@[i as int].1));
            let actor = theirs[i].0.clone();
            assert(cloned(s[i as int].0, actor));
            let ghost prev = self@;
            self.apply(Dot { actor, counter: theirs[i].1 });
            assert forall|a: A| #[trigger] count(self@, a) >= count(start, a) && (count(self@, a)
                == count(start, a) || count(self@, a) == count(other@, a)) by {
                assert(count(prev, a) >= count(start, a));
            }
            i = i + 1;
        }
        assert(covers(self@, other@));
        assert forall|a: A| #[trigger] merged(start, other@).contains_key(a) implies self@.contains_key(
            a,
        ) by {
            assert(other@.contains_key(a) ==> count(self@, a) >= other@[a]);
        }
        assert forall|a: A| #[trigger] self@.contains_key(a) implies merged(
            start,
            other@,
        ).contains_key(a) && merged(start, other@)[a] == self@[a] by {
            assert(count(self@, a) >= count(start, a));
            assert(other@.contains_key(a) ==> count(self@, a) >= other@[a]);
        }
        assert(self@ =~= merged(start, other@));
    }

    /// Drops the actors of which `other` has seen as much or more.
    pub fn forget(&mut self, other: &VClock<A>)
        requires
            lawful::<A>(),
        ensures
            final(self)@ == forgotten(old(self)@, other@),
    {
        let theirs = other.entries();
        let ghost s = plain(theirs@);
        let ghost start = self@;
        let mut i: usize = 0;
        while i < theirs.len()
            invariant
                lawful::<A>(),
                i <= theirs@.len(),
                s == plain(theirs@),
                lists(other@, s),
                forall|a: A| #[trigger]
                    self@.contains_key(a) ==> start.contains_key(a) && self@[a] == start[a],
                forall|a: A| #[trigger]
                    start.contains_key(a) && !self@.contains_key(a) ==> other@.contains_key(a)
                        && other@[a] >= start[a],
                forall|k: int|
                    0 <= k < i ==> !(self@.contains_key((#[trigger] s[k]).0) && s[k].1
                        >= start[s[k].0]),
            decreases theirs@.len() - i,
        {
            assert(s[i as int] == (*theirs@[i as int].0, theirs@[i as int].1));
            if theirs[i].1 >= self.get(theirs[i].0) {
                self.dots.remove(theirs[i].0);
            }
            i = i + 1;
        }
        assert(self@ =~= forgotten(start, other@));
    }
}

/// A clock's dots can be listed in the order of their actors in one way only.
pub proof fn lists_are_unique<A: Actor>(m: Map<A, u64>, s: Seq<(A, u64)>, t: Seq<(A, u64)>)
    requires
        lawful::<A>(),
        lists(m, s),
        lists(m, t),
    ensures
        s == t,
    decreases s.len(),
{
    before_is_total_order::<A>();
    if s.len() == 0 {
        if t.len() > 0 {
            assert(m.contains_key(t[0].0));
        }
        assert(s =~= t);
    } else {
        assert(m.contains_key(s.last().0));
        assert(t.len() > 0);
        assert(m.contains_key(t.last().0));
        assert(s.last().0 == t.last().0);
        let a = s.last().0;
        let rest = m.remove(a);
        drop_last_lists(m, s);
        drop_last_lists(m, t);
        lists_are_unique(rest, s.drop_last(), t.drop_last());
        assert(s =~= s.drop_last().push(s.last()));
        assert(t =~= t.drop_last().push(t.last()));
    }
}

proof fn drop_last_lists<A: Actor>(m: Map<A, u64>, s: Seq<(A, u64)>)
    requires
        lawful::<A>(),
        lists(m, s),
        s.len() > 0,
    ensures
        lists(m.remove(s.last().0), s.drop_last()),
{
    before_is_total_order::<A>();
    let t = s.drop_last();
    let n = m.remove(s.last().0);
    assert forall|i: int| 0 <= i < t.len() implies n.contains_key((#[trigger] t[i]).0) && n[t[i].0]
        == t[i].1 by {
        assert(t[i] == s[i]);
        assert(before(s[i].0, s[s.len() - 1].0));
    }
    assert forall|a: A| #[trigger] n.contains_key(a) implies exists|i: int|
        0 <= i < t.len() && (#[trigger] t[i]).0 == a by {
        assert(m.contains_key(a));
        let i = choose|i: int| 0 <= i < s.len() && (#[trigger] s[i]).0 == a;
        assert(t[i].0 == a);
    }
}

/// A list of dots belongs to one clock only.
pub proof fn lists_determine<A: Actor>(m: Map<A, u64>, n: Map<A, u64>, s: Seq<(A, u64)>)
    requires
        lists(m, s),
        lists(n, s),
    ensures
        m == n,
{
    assert(m =~= n);
}

/// A list of the dots of a clock holds each actor once, at its version, and no other, from the
/// first actor to the last.
pub proof fn lists_hold_each_dot_once<A: Actor>(m: Map<A, u64>, s: Seq<(A, u64)>)
    requires
        lawful::<A>(),
        lists(m, s),
    ensures
        forall|i: int, j: int|
            0 <= i < j < s.len() ==> before((#[trigger] s[i]).0, (#[trigger] s[j]).0),
        forall|i: int|
            0 <= i < s.len() ==> m.dom().contains((#[trigger] s[i]).0) && m[s[i].0] == s[i].1,
        forall|a: A| #[trigger] m.dom().contains(a) ==> s.contains((a, m[a])),
{
    assert forall|a: A| #[trigger] m.dom().contains(a) implies s.contains((a, m[a])) by {
        assert(m.contains_key(a));
        let i = choose|i: int| 0 <= i < s.len() && (#[trigger] s[i]).0 == a;
        assert(s[i] == (a, m[a]));
    }
}

/// A list that borrows its actors has the same dots as one that does not.
pub proof fn borrowed_dots_are_the_same<A: Actor>(s: Seq<(&A, u64)>, i: int)
    requires
        0 <= i < s.len(),
    ensures
        plain(s).len() == s.len(),
        plain(s)[i].0 == *s[i].0,
        plain(s)[i].1 == s[i].1,
{
}

} // verus!
