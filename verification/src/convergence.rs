//! Sites that see concurrent operations in different orders come to the same state.
use crate::actor::{lawful, Actor};
use crate::clock_order::{clock_before, clock_before_is_total};
use crate::lseq::{accepted, may_become, Op};
use crate::state::{bound, State};
use crate::strategy::{
    fixed_side, follows_from, kept_sides_follow, reaches, LSeqStrategy,
};
use crate::tree::{
    grown, is_below, leads_to, live, lookup, payload_at, settled, takes, Payload, Place, Slot,
    Tree,
};
use crate::vclock::{causality, covers, merged};
use vstd::prelude::*;

verus! {

/// Two inserts at `x` and `y` get in each other's way: one of them is on the path of the
/// other, where nothing stands yet, or both meet a node that is concurrent to both.
pub open spec fn clash<V, A>(
    t: Tree<V, A>,
    x: Seq<u64>,
    c: Map<A, u64>,
    y: Seq<u64>,
    d: Map<A, u64>,
) -> bool {
    ||| is_below(y, x) && !t.contains_key(x)
    ||| is_below(x, y) && !t.contains_key(y)
    ||| x == y && t.contains_key(x) && match t[x] {
        Slot::Node { payload } => causality(payload.clock, c) is Concurrent && causality(
            payload.clock,
            d,
        ) is Concurrent,
        Slot::Major { minis } => false,
    }
}

/// A prefix of a path is above what stands below that path.
proof fn leads_to_below(x: Seq<u64>, path: Seq<u64>, number: u64)
    ensures
        leads_to(x, path) ==> is_below(path.push(number), x),
{
    if leads_to(x, path) {
        assert(path.push(number).take(x.len() as int) =~= path.take(x.len() as int));
    }
}

/// What one insert finds is not changed by another that does not get in its way.
proof fn other_insert_keeps_slot<V, A: Actor>(
    t: Tree<V, A>,
    path: Seq<u64>,
    number: u64,
    c: Map<A, u64>,
    v: V,
    y: Seq<u64>,
    d: Map<A, u64>,
)
    requires
        !clash(t, path.push(number), c, y, d),
        y != path.push(number),
    ensures
        lookup(grown(t, path, number, c, v), y) == lookup(t, y),
{
    leads_to_below(y, path, number);
}

/// Two inserts that do not get in each other's way make the same tree in either order.
proof fn grown_commutes<V, A: Actor>(
    t: Tree<V, A>,
    path: Seq<u64>,
    number: u64,
    c: Map<A, u64>,
    v: V,
    way: Seq<u64>,
    last: u64,
    d: Map<A, u64>,
    w: V,
)
    requires
        lawful::<A>(),
        c.dom().finite(),
        d.dom().finite(),
        causality(c, d) is Concurrent,
        !clash(t, path.push(number), c, way.push(last), d),
    ensures
        grown(grown(t, path, number, c, v), way, last, d, w) == grown(
            grown(t, way, last, d, w),
            path,
            number,
            c,
            v,
        ),
{
    let x = path.push(number);
    let y = way.push(last);
    let a = grown(t, path, number, c, v);
    let b = grown(t, way, last, d, w);
    let ab = grown(a, way, last, d, w);
    let ba = grown(b, path, number, c, v);
    clock_before_is_total(c, d);
    if x == y {
        assert(lookup(a, y) == Some(settled(lookup(t, x), c, v)));
        assert(lookup(b, x) == Some(settled(lookup(t, x), d, w)));
        assert(path =~= x.drop_last());
        assert(way =~= y.drop_last());
    } else {
        other_insert_keeps_slot(t, path, number, c, v, y, d);
        other_insert_keeps_slot(t, way, last, d, w, x, c);
    }
    assert(ab =~= ba);
}

/// Whether two inserts are taken does not depend on their order, but for two that meet at
/// one place; then as many are taken, and the clock comes out the same.
proof fn clocks_commute<V, A: Actor>(
    t: Tree<V, A>,
    path: Seq<u64>,
    number: u64,
    c: Map<A, u64>,
    v: V,
    way: Seq<u64>,
    last: u64,
    d: Map<A, u64>,
    w: V,
    m: Map<A, u64>,
)
    requires
        causality(c, d) is Concurrent,
        !clash(t, path.push(number), c, way.push(last), d),
    ensures
        ({
            let x = path.push(number);
            let y = way.push(last);
            let a = if takes(lookup(t, x), c) {
                merged(m, c)
            } else {
                m
            };
            let b = if takes(lookup(t, y), d) {
                merged(m, d)
            } else {
                m
            };
            (if takes(lookup(grown(t, path, number, c, v), y), d) {
                merged(a, d)
            } else {
                a
            }) == (if takes(lookup(grown(t, way, last, d, w), x), c) {
                merged(b, c)
            } else {
                b
            })
        }),
{
    let x = path.push(number);
    let y = way.push(last);
    assert(merged(merged(m, c), d) =~= merged(merged(m, d), c));
    if x != y {
        other_insert_keeps_slot(t, path, number, c, v, y, d);
        other_insert_keeps_slot(t, way, last, d, w, x, c);
    }
}

impl<V, A> State<V, A> {
    /// The sides for the depths down to `k` are settled: the strategy fixes them, or they
    /// have been chosen.
    pub open spec fn is_settled(self, k: int) -> bool {
        self.strategy != LSeqStrategy::Random || k < self.strategies.len()
    }
}

/// Sides that are settled come out the same in whichever order they are asked for.
proof fn settled_sides_agree(
    strategy: LSeqStrategy,
    known: Seq<bool>,
    k: int,
    l: int,
    a: Seq<bool>,
    ab: Seq<bool>,
    b: Seq<bool>,
    ba: Seq<bool>,
)
    requires
        0 <= k,
        0 <= l,
        strategy != LSeqStrategy::Random || (k < known.len() && l < known.len()),
        follows_from(strategy, a, known.len() as int),
        follows_from(strategy, ab, a.len() as int),
        follows_from(strategy, b, known.len() as int),
        follows_from(strategy, ba, b.len() as int),
        reaches(known, a, k),
        reaches(a, ab, l),
        reaches(known, b, l),
        reaches(b, ba, k),
    ensures
        ab == ba,
        a[k] == ba[k],
        b[l] == ab[l],
{
    assert(ab.len() == ba.len());
    kept_sides_follow(strategy, known, a);
    kept_sides_follow(strategy, a, ab);
    kept_sides_follow(strategy, known, b);
    kept_sides_follow(strategy, b, ba);
    assert forall|i: int| 0 <= i < ab.len() implies ab[i] == ba[i] by {
        if i >= known.len() {
            assert(fixed_side(strategy, i) is Some);
            if i < a.len() {
                assert(ab[i] == a[i]);
            }
            if i < b.len() {
                assert(ba[i] == b[i]);
            }
        }
    }
    assert(ab =~= ba);
    assert(ab[k] == a[k] && ba[l] == b[l]);
}

/// Concurrent inserts that do not clash, at depths whose sides are settled, lead to the same
/// state in either order, and each can be applied after the other.
pub proof fn concurrent_inserts_converge<V: Ord + Clone, A: Actor>(
    s: State<V, A>,
    op: Op<V, A>,
    other: Op<V, A>,
    a: State<V, A>,
    ab: State<V, A>,
    b: State<V, A>,
    ba: State<V, A>,
)
    requires
        lawful::<A>(),
        accepted(s, op),
        accepted(s, other),
        may_become(s, op, a),
        may_become(a, other, ab),
        may_become(s, other, b),
        may_become(b, op, ba),
        op matches Op::Insert { clock: c, value: v, p, q } && other matches Op::Insert {
            clock: d,
            value: w,
            p: p2,
            q: q2,
        } && {
            &&& causality(c@, d@) is Concurrent
            &&& s.is_settled(s.depth(bound(p), bound(q))->0)
            &&& s.is_settled(s.depth(bound(p2), bound(q2))->0)
            &&& !clash(
                s.tree,
                s.new_id(bound(p), bound(q), a.strategies),
                c@,
                s.new_id(bound(p2), bound(q2), b.strategies),
                d@,
            )
        },
    ensures
        accepted(a, other),
        accepted(b, op),
        ab == ba,
{
    if let (
        Op::Insert { clock: c, value: v, p, q },
        Op::Insert { clock: d, value: w, p: p2, q: q2 },
    ) = (op, other) {
        assert(c@ != Map::<A, u64>::empty() && d@ != Map::<A, u64>::empty());
        let (lo, hi) = (bound(p), bound(q));
        let (lo2, hi2) = (bound(p2), bound(q2));
        let k = s.depth(lo, hi)->0;
        let l = s.depth(lo2, hi2)->0;
        s.depth_is_natural(lo, hi);
        s.depth_is_natural(lo2, hi2);
        settled_sides_agree(
            s.strategy,
            s.strategies,
            k,
            l,
            a.strategies,
            ab.strategies,
            b.strategies,
            ba.strategies,
        );
        assert(a.depth(lo2, hi2) == s.depth(lo2, hi2));
        assert(b.depth(lo, hi) == s.depth(lo, hi));
        let path = s.new_path(lo, hi);
        let number = s.new_last(lo, hi, a.strategies);
        let way = s.new_path(lo2, hi2);
        let last = s.new_last(lo2, hi2, b.strategies);
        assert(b.new_path(lo, hi) == path && b.new_last(lo, hi, ba.strategies) == number);
        assert(a.new_path(lo2, hi2) == way && a.new_last(lo2, hi2, ab.strategies) == last);
        grown_commutes(s.tree, path, number, c@, v, way, last, d@, w);
        clocks_commute(s.tree, path, number, c@, v, way, last, d@, w, s.clock);
        assert(ab =~= ba);
    }
}

/// Deletes in either order leave the same to be read, and the same clock.
pub proof fn deletes_read_alike<V, A>(
    s: State<V, A>,
    id: Seq<u64>,
    c: Map<A, u64>,
    other: Seq<u64>,
    d: Map<A, u64>,
)
    ensures
        ({
            let ab = s.deleted(id, c).deleted(other, d);
            let ba = s.deleted(other, d).deleted(id, c);
            &&& ab.clock == ba.clock
            &&& forall|at: Place| #[trigger] live(ab.tree, at) <==> live(ba.tree, at)
            &&& forall|at: Place| #[trigger]
                live(ab.tree, at) ==> payload_at(ab.tree, at) == payload_at(ba.tree, at)
            &&& id != other ==> ab == ba
        }),
{
    assert(merged(merged(s.clock, c), d) =~= merged(merged(s.clock, d), c));
    let ab = s.deleted(id, c).deleted(other, d);
    let ba = s.deleted(other, d).deleted(id, c);
    if id != other {
        assert(ab.tree =~= ba.tree);
    }
}

/// An insert and a delete lead to the same state in either order, if the identifier of the
/// delete is another one, and is in the tree already or not on the way to that of the insert.
/// They also do if both meet mini-nodes, or a node that keeps the insert out, before the delete
/// and after it.
pub proof fn insert_and_delete_converge<V, A: Actor>(
    s: State<V, A>,
    p: Seq<u64>,
    q: Seq<u64>,
    c: Map<A, u64>,
    value: V,
    sides: Seq<bool>,
    id: Seq<u64>,
    d: Map<A, u64>,
)
    requires
        if id == s.new_id(p, q, sides) {
            match lookup(s.tree, id) {
                Some(Slot::Node { payload }) => !(causality(payload.clock, c) is Concurrent) && !(
                causality(d, c) is Concurrent),
                Some(Slot::Major { minis }) => true,
                None => false,
            }
        } else {
            s.tree.contains_key(id) || !leads_to(id, s.new_path(p, q))
        },
    ensures
        s.inserted(p, q, c, value, sides).deleted(id, d) == s.deleted(id, d).inserted(
            p,
            q,
            c,
            value,
            sides,
        ),
{
    let ab = s.inserted(p, q, c, value, sides).deleted(id, d);
    let ba = s.deleted(id, d).inserted(p, q, c, value, sides);
    assert(merged(merged(s.clock, c), d) =~= merged(merged(s.clock, d), c));
    assert(ab.tree =~= ba.tree);
}

/// An insert and a delete of another identifier leave the same to be read in either order.
pub proof fn insert_and_delete_read_alike<V, A: Actor>(
    s: State<V, A>,
    p: Seq<u64>,
    q: Seq<u64>,
    c: Map<A, u64>,
    value: V,
    sides: Seq<bool>,
    id: Seq<u64>,
    d: Map<A, u64>,
)
    requires
        id != s.new_id(p, q, sides),
    ensures
        ({
            let ab = s.inserted(p, q, c, value, sides).deleted(id, d);
            let ba = s.deleted(id, d).inserted(p, q, c, value, sides);
            &&& forall|at: Place| #[trigger] live(ab.tree, at) <==> live(ba.tree, at)
            &&& forall|at: Place| #[trigger]
                live(ab.tree, at) ==> payload_at(ab.tree, at) == payload_at(ba.tree, at)
        }),
{
}

/// A value can be read at `id`, and it is the only one there: `value`, under `clock`.
pub open spec fn reads_only<V, A>(
    t: Tree<V, A>,
    id: Seq<u64>,
    clock: Map<A, u64>,
    value: V,
) -> bool {
    exists|i: int|
        {
            &&& #[trigger] live(t, (id, i))
            &&& payload_at(t, (id, i)) == (Payload { clock, value: Some(value) })
            &&& forall|j: int| #[trigger] live(t, (id, j)) ==> j == i
        }
}

/// A delete of the node that a concurrent insert meets takes out what it has seen, and spares
/// the insert, in either order.
pub proof fn delete_spares_concurrent_insert<V, A: Actor>(
    s: State<V, A>,
    p: Seq<u64>,
    q: Seq<u64>,
    c: Map<A, u64>,
    value: V,
    sides: Seq<bool>,
    met: Payload<V, A>,
    d: Map<A, u64>,
)
    requires
        lookup(s.tree, s.new_id(p, q, sides)) == Some(Slot::Node { payload: met }),
        causality(met.clock, c) is Concurrent,
        causality(d, c) is Concurrent,
        covers(d, met.clock),
    ensures
        ({
            let id = s.new_id(p, q, sides);
            let ab = s.inserted(p, q, c, value, sides).deleted(id, d);
            let ba = s.deleted(id, d).inserted(p, q, c, value, sides);
            &&& ab.clock == ba.clock
            &&& reads_only(ab.tree, id, c, value)
            &&& reads_only(ba.tree, id, c, value)
            &&& forall|at: Place|
                at.0 != id ==> (#[trigger] live(ab.tree, at) <==> live(ba.tree, at))
            &&& forall|at: Place|
                at.0 != id && #[trigger] live(ab.tree, at) ==> payload_at(ab.tree, at)
                    == payload_at(ba.tree, at)
        }),
{
    let id = s.new_id(p, q, sides);
    let ab = s.inserted(p, q, c, value, sides).deleted(id, d);
    let ba = s.deleted(id, d).inserted(p, q, c, value, sides);
    assert(merged(merged(s.clock, c), d) =~= merged(merged(s.clock, d), c));
    let first = if clock_before(c, met.clock) {
        0int
    } else {
        1int
    };
    assert(live(ab.tree, (id, first)));
    let second = if clock_before(c, d) {
        0int
    } else {
        1int
    };
    assert(live(ba.tree, (id, second)));
}

} // verus!
