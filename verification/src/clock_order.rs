//! A total order on vector clocks, which does not depend on causality.
use crate::actor::{before, before_is_total_order, lawful, rank, Actor, Rank};
use crate::vclock::{lists, lists_are_unique, lists_determine, plain, VClock};
use vstd::prelude::*;

verus! {

/// The dots of `m` in the order of their actors.
pub open spec fn dots_of<A: Actor>(m: Map<A, u64>) -> Seq<(A, u64)> {
    choose|s: Seq<(A, u64)>| lists(m, s)
}

/// Dots are ordered by their actors, dots of one actor by their counters.
pub open spec fn dot_before<A: Actor>(x: (A, u64), y: (A, u64)) -> bool {
    before(x.0, y.0) || (x.0 == y.0 && x.1 < y.1)
}

/// Lists of dots are ordered by the first dot in which they differ; a list comes before
/// its continuations.
pub open spec fn dots_before<A: Actor>(s: Seq<(A, u64)>, t: Seq<(A, u64)>) -> bool
    decreases s.len(),
{
    if t.len() == 0 {
        false
    } else if s.len() == 0 {
        true
    } else if s[0] == t[0] {
        dots_before(s.drop_first(), t.drop_first())
    } else {
        dot_before(s[0], t[0])
    }
}

/// Clocks are ordered as the lists of their dots.
pub open spec fn clock_before<A: Actor>(m: Map<A, u64>, n: Map<A, u64>) -> bool {
    dots_before(dots_of(m), dots_of(n))
}

/// The dots of a finite clock can be listed.
pub proof fn dots_can_be_listed<A: Actor>(m: Map<A, u64>)
    requires
        lawful::<A>(),
        m.dom().finite(),
    ensures
        lists(m, dots_of(m)),
    decreases m.dom().len(),
{
    before_is_total_order::<A>();
    if m.dom().len() == 0 {
        assert(m.dom() =~= Set::empty());
        assert(lists(m, Seq::empty()));
    } else {
        let a = latest(m.dom());
        let rest = m.remove(a);
        assert(rest.dom() =~= m.dom().remove(a));
        dots_can_be_listed(rest);
        let t = dots_of(rest);
        let s = t.push((a, m[a]));
        assert forall|i: int, j: int| 0 <= i < j < s.len() implies before(
            (#[trigger] s[i]).0,
            (#[trigger] s[j]).0,
        ) by {
            assert(s[i] == t[i]);
            assert(rest.contains_key(t[i].0));
            if j < t.len() {
                assert(s[j] == t[j]);
            }
        }
        assert forall|b: A| #[trigger] m.contains_key(b) implies exists|i: int|
            0 <= i < s.len() && (#[trigger] s[i]).0 == b by {
            if b == a {
                assert(s[t.len() as int].0 == b);
            } else {
                assert(rest.contains_key(b));
                let i = choose|i: int| 0 <= i < t.len() && (#[trigger] t[i]).0 == b;
                assert(s[i].0 == b);
            }
        }
        assert(lists(m, s));
    }
}

/// The last actor of a finite set.
proof fn latest<A: Actor>(d: Set<A>) -> (r: A)
    requires
        lawful::<A>(),
        d.finite(),
        d.len() > 0,
    ensures
        d.contains(r),
        forall|a: A| #[trigger] d.contains(a) ==> a == r || before(a, r),
    decreases d.len(),
{
    before_is_total_order::<A>();
    let a = d.choose();
    let rest = d.remove(a);
    if rest.len() == 0 {
        assert(rest =~= Set::empty());
        assert forall|b: A| #[trigger] d.contains(b) implies b == a by {
            if b != a {
                assert(rest.contains(b));
            }
        }
        a
    } else {
        let b = latest(rest);
        let r = if before(a, b) {
            b
        } else {
            a
        };
        assert forall|c: A| #[trigger] d.contains(c) implies c == r || before(c, r) by {
            if c != a {
                assert(rest.contains(c));
            }
        }
        r
    }
}

proof fn dots_before_is_total<A: Actor>(s: Seq<(A, u64)>, t: Seq<(A, u64)>)
    requires
        lawful::<A>(),
    ensures
        !(dots_before(s, t) && dots_before(t, s)),
        s == t || dots_before(s, t) || dots_before(t, s),
    decreases s.len(),
{
    before_is_total_order::<A>();
    if s.len() > 0 && t.len() > 0 && s[0] == t[0] {
        dots_before_is_total(s.drop_first(), t.drop_first());
        if s.drop_first() == t.drop_first() {
            assert(s =~= seq![s[0]] + s.drop_first());
            assert(t =~= seq![t[0]] + t.drop_first());
        }
    } else if s.len() == 0 && t.len() == 0 {
        assert(s =~= t);
    }
}

/// Of two different clocks exactly one comes before the other.
pub proof fn clock_before_is_total<A: Actor>(m: Map<A, u64>, n: Map<A, u64>)
    requires
        lawful::<A>(),
        m.dom().finite(),
        n.dom().finite(),
    ensures
        !(clock_before(m, n) && clock_before(n, m)),
        m == n || clock_before(m, n) || clock_before(n, m),
{
    dots_can_be_listed(m);
    dots_can_be_listed(n);
    dots_before_is_total(dots_of(m), dots_of(n));
    if dots_of(m) == dots_of(n) {
        lists_determine(m, n, dots_of(m));
    }
}

impl<A: Actor> VClock<A> {
    /// Whether the clock comes before `other` in the order of clocks.
    pub fn precedes(&self, other: &VClock<A>) -> (r: bool)
        requires
            lawful::<A>(),
        ensures
            r == clock_before(self@, other@),
    {
        let ours = self.entries();
        let theirs = other.entries();
        let ghost s = plain(ours@);
        let ghost t = plain(theirs@);
        proof {
            lists_are_unique(self@, s, dots_of(self@));
            lists_are_unique(other@, t, dots_of(other@));
            assert(s.skip(0) =~= s);
            assert(t.skip(0) =~= t);
        }
        let mut i: usize = 0;
        while i < ours.len() && i < theirs.len()
            invariant
                lawful::<A>(),
                i <= ours@.len(),
                i <= theirs@.len(),
                s == dots_of(self@),
                t == dots_of(other@),
                s == plain(ours@),
                t == plain(theirs@),
                dots_before(s, t) == dots_before(s.skip(i as int), t.skip(i as int)),
            decreases ours@.len() - i,
        {
            proof {
                before_is_total_order::<A>();
                assert(s.skip(i as int)[0] == (*ours@[i as int].0, ours@[i as int].1));
                assert(t.skip(i as int)[0] == (*theirs@[i as int].0, theirs@[i as int].1));
            }
            match rank(ours[i].0, theirs[i].0) {
                Rank::Before => {
                    return true;
                },
                Rank::After => {
                    return false;
                },
                Rank::Same => {},
            }
            if ours[i].1 != theirs[i].1 {
                return ours[i].1 < theirs[i].1;
            }
            proof {
                assert(s.skip(i as int).drop_first() =~= s.skip(i + 1));
                assert(t.skip(i as int).drop_first() =~= t.skip(i + 1));
            }
            i = i + 1;
        }
        i < theirs.len()
    }
}

proof fn dots_before_is_transitive<A: Actor>(
    s: Seq<(A, u64)>,
    t: Seq<(A, u64)>,
    u: Seq<(A, u64)>,
)
    requires
        lawful::<A>(),
        dots_before(s, t),
        dots_before(t, u),
    ensures
        dots_before(s, u),
    decreases s.len(),
{
    before_is_total_order::<A>();
    if s.len() > 0 && s[0] == t[0] && t[0] == u[0] {
        dots_before_is_transitive(s.drop_first(), t.drop_first(), u.drop_first());
    }
}

/// The order of clocks is transitive.
pub proof fn clock_before_is_transitive<A: Actor>(
    m: Map<A, u64>,
    n: Map<A, u64>,
    o: Map<A, u64>,
)
    requires
        lawful::<A>(),
        clock_before(m, n),
        clock_before(n, o),
    ensures
        clock_before(m, o),
{
    dots_before_is_transitive(dots_of(m), dots_of(n), dots_of(o));
}

/// `a` is the first actor of whom `m` and `n` do not list the same.
pub open spec fn first_differs<A: Actor>(m: Map<A, u64>, n: Map<A, u64>, a: A) -> bool {
    &&& m.dom().contains(a) || n.dom().contains(a)
    &&& m.dom().contains(a) && n.dom().contains(a) ==> m[a] != n[a]
    &&& forall|b: A| #[trigger]
        before(b, a) ==> (m.dom().contains(b) <==> n.dom().contains(b)) && (m.dom().contains(b)
            ==> m[b] == n[b])
}

/// `m` lists an actor that comes after `a`.
pub open spec fn goes_on_after<A: Actor>(m: Map<A, u64>, a: A) -> bool {
    exists|c: A| #[trigger] m.dom().contains(c) && before(a, c)
}

proof fn drop_first_lists<A: Actor>(m: Map<A, u64>, s: Seq<(A, u64)>)
    requires
        lawful::<A>(),
        lists(m, s),
        s.len() > 0,
    ensures
        lists(m.remove(s[0].0), s.drop_first()),
        forall|a: A| #[trigger] m.dom().contains(a) ==> a == s[0].0 || before(s[0].0, a),
{
    before_is_total_order::<A>();
    let t = s.drop_first();
    let n = m.remove(s[0].0);
    assert forall|i: int, j: int| 0 <= i < j < t.len() implies before(
        (#[trigger] t[i]).0,
        (#[trigger] t[j]).0,
    ) by {
        assert(t[i] == s[i + 1] && t[j] == s[j + 1]);
    }
    assert forall|i: int| 0 <= i < t.len() implies n.contains_key((#[trigger] t[i]).0) && n[t[i].0]
        == t[i].1 by {
        assert(t[i] == s[i + 1]);
        assert(before(s[0].0, s[i + 1].0));
    }
    assert forall|a: A| #[trigger] n.contains_key(a) implies exists|i: int|
        0 <= i < t.len() && (#[trigger] t[i]).0 == a by {
        assert(m.contains_key(a));
        let i = choose|i: int| 0 <= i < s.len() && (#[trigger] s[i]).0 == a;
        assert(t[i - 1].0 == a);
    }
    assert forall|a: A| #[trigger] m.dom().contains(a) implies a == s[0].0 || before(
        s[0].0,
        a,
    ) by {
        assert(m.contains_key(a));
        let i = choose|i: int| 0 <= i < s.len() && (#[trigger] s[i]).0 == a;
        if i > 0 {
            assert(before(s[0].0, s[i].0));
        }
    }
}

proof fn lists_go_by_first_difference<A: Actor>(
    m: Map<A, u64>,
    n: Map<A, u64>,
    s: Seq<(A, u64)>,
    t: Seq<(A, u64)>,
    a: A,
)
    requires
        lawful::<A>(),
        lists(m, s),
        lists(n, t),
        first_differs(m, n, a),
    ensures
        m.dom().contains(a) && n.dom().contains(a) ==> (dots_before(s, t) <==> m[a] < n[a]),
        m.dom().contains(a) && !n.dom().contains(a) ==> (dots_before(s, t) <==> goes_on_after(
            n,
            a,
        )),
        !m.dom().contains(a) && n.dom().contains(a) ==> (dots_before(s, t) <==> !goes_on_after(
            m,
            a,
        )),
    decreases s.len(),
{
    before_is_total_order::<A>();
    if s.len() > 0 {
        drop_first_lists(m, s);
        assert(m.contains_key(s[0].0) && m[s[0].0] == s[0].1);
    } else {
        assert(forall|b: A| m.dom().contains(b) ==> m.contains_key(b));
    }
    if t.len() > 0 {
        drop_first_lists(n, t);
        assert(n.contains_key(t[0].0) && n[t[0].0] == t[0].1);
    } else {
        assert(forall|b: A| n.dom().contains(b) ==> n.contains_key(b));
    }
    if s.len() > 0 && t.len() > 0 {
        let b = s[0].0;
        let e = t[0].0;
        if s[0] == t[0] {
            assert(before(b, a));
            let m1 = m.remove(b);
            let n1 = n.remove(b);
            assert(first_differs(m1, n1, a));
            lists_go_by_first_difference(m1, n1, s.drop_first(), t.drop_first(), a);
            assert(goes_on_after(m1, a) <==> goes_on_after(m, a)) by {
                if goes_on_after(m, a) {
                    let c = choose|c: A| #[trigger] m.dom().contains(c) && before(a, c);
                    assert(m1.dom().contains(c) && before(a, c));
                }
                if goes_on_after(m1, a) {
                    let c = choose|c: A| #[trigger] m1.dom().contains(c) && before(a, c);
                    assert(m.dom().contains(c) && before(a, c));
                }
            }
            assert(goes_on_after(n1, a) <==> goes_on_after(n, a)) by {
                if goes_on_after(n, a) {
                    let c = choose|c: A| #[trigger] n.dom().contains(c) && before(a, c);
                    assert(n1.dom().contains(c) && before(a, c));
                }
                if goes_on_after(n1, a) {
                    let c = choose|c: A| #[trigger] n1.dom().contains(c) && before(a, c);
                    assert(n.dom().contains(c) && before(a, c));
                }
            }
        } else if before(b, e) {
            assert(!n.dom().contains(b));
            assert(b == a);
            assert(n.dom().contains(e) && before(a, e));
        } else if before(e, b) {
            assert(!m.dom().contains(e));
            assert(e == a);
            assert(m.dom().contains(b) && before(a, b));
        } else {
            assert(b == e);
            assert(b == a);
        }
    }
}

/// Which of two clocks comes first is decided by the first actor of whom they do not list the
/// same. If both list it, the clock with the smaller version comes first. If only one does,
/// that clock comes first, unless the other lists no later actor either: then the other, which
/// ends there, comes first.
pub proof fn clocks_go_by_first_difference<A: Actor>(m: Map<A, u64>, n: Map<A, u64>, a: A)
    requires
        lawful::<A>(),
        m.dom().finite(),
        n.dom().finite(),
        first_differs(m, n, a),
    ensures
        m.dom().contains(a) && n.dom().contains(a) ==> (clock_before(m, n) <==> m[a] < n[a]),
        m.dom().contains(a) && !n.dom().contains(a) ==> (clock_before(m, n) <==> goes_on_after(
            n,
            a,
        )),
        !m.dom().contains(a) && n.dom().contains(a) ==> (clock_before(m, n) <==> !goes_on_after(
            m,
            a,
        )),
{
    dots_can_be_listed(m);
    dots_can_be_listed(n);
    lists_go_by_first_difference(m, n, dots_of(m), dots_of(n), a);
}

/// Clocks that have each seen one operation more than a third, of different actors of whom it
/// has seen none, come in the order of these actors.
pub proof fn clocks_with_new_actors_go_by_them<A: Actor>(
    m: Map<A, u64>,
    a: A,
    x: u64,
    b: A,
    y: u64,
)
    requires
        lawful::<A>(),
        m.dom().finite(),
        !m.dom().contains(a),
        !m.dom().contains(b),
        before(a, b),
    ensures
        clock_before(m.insert(a, x), m.insert(b, y)),
        !clock_before(m.insert(b, y), m.insert(a, x)),
{
    before_is_total_order::<A>();
    let n = m.insert(a, x);
    let o = m.insert(b, y);
    assert(first_differs(n, o, a));
    assert(o.dom().contains(b) && before(a, b));
    clocks_go_by_first_difference(n, o, a);
    clock_before_is_total(n, o);
}

} // verus!
