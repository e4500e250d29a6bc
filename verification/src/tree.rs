//! The mathematical model of the tree: what stands at each path.
use crate::actor::Actor;
use crate::clock_order::clock_before;
use crate::identifier::{path_before, path_before_is_total};
use crate::vclock::{causality, covers, forgotten};
use vstd::prelude::*;

verus! {

/// What an atom holds for one operation.
#[verifier::reject_recursive_types(A)]
pub struct Payload<V, A> {
    pub clock: Map<A, u64>,
    pub value: Option<V>,
}

/// What stands at one path: a node, or a major node with the values that concurrent
/// operations put there, each under the clock of its operation.
#[verifier::reject_recursive_types(A)]
pub enum Slot<V, A> {
    Node { payload: Payload<V, A> },
    Major { minis: Seq<(Map<A, u64>, Payload<V, A>)> },
}

/// What stands at each path that leads to an atom.
pub type Tree<V, A> = Map<Seq<u64>, Slot<V, A>>;

/// A node that only leads to its children.
pub open spec fn placeholder<V, A>() -> Slot<V, A> {
    Slot::Node { payload: Payload { clock: Map::empty(), value: None } }
}

/// `x` is one of the non-empty prefixes of `path`.
pub open spec fn leads_to(x: Seq<u64>, path: Seq<u64>) -> bool {
    1 <= x.len() <= path.len() && x == path.take(x.len() as int)
}

/// `x` is a proper continuation of `path`.
pub open spec fn is_below(x: Seq<u64>, path: Seq<u64>) -> bool {
    path.len() < x.len() && path == x.take(path.len() as int)
}

/// The number of `p` at depth `k`; where `p` has none, zero stands for it.
pub open spec fn digit(p: Seq<u64>, k: int) -> u64 {
    if 0 <= k < p.len() {
        p[k]
    } else {
        0
    }
}

/// The path of `p` from depth `from` down to `depth`.
pub open spec fn route(p: Seq<u64>, from: int, depth: int) -> Seq<u64> {
    Seq::new((depth - from) as nat, |k: int| digit(p, from + k))
}

/// What stands at `x`, if anything does.
pub open spec fn lookup<V, A>(t: Tree<V, A>, x: Seq<u64>) -> Option<Slot<V, A>> {
    if t.contains_key(x) {
        Some(t[x])
    } else {
        None
    }
}

/// `t` with a node at each prefix of `path` that leads nowhere yet.
pub open spec fn paved<V, A>(t: Tree<V, A>, path: Seq<u64>) -> Tree<V, A> {
    Map::new(
        |x: Seq<u64>| t.contains_key(x) || leads_to(x, path),
        |x: Seq<u64>|
            if t.contains_key(x) {
                t[x]
            } else {
                placeholder()
            },
    )
}

/// Two payloads as the mini-nodes of a major node: each under its own clock, in the order
/// of these clocks.
pub open spec fn minis_of<V, A: Actor>(a: Payload<V, A>, b: Payload<V, A>) -> Seq<
    (Map<A, u64>, Payload<V, A>),
> {
    if clock_before(a.clock, b.clock) {
        seq![(a.clock, a), (b.clock, b)]
    } else {
        seq![(b.clock, b), (a.clock, a)]
    }
}

/// Whether an insert with `clock` is taken where `slot` stands: the place is free, or its
/// node was written by an operation that is concurrent to the insert.
pub open spec fn takes<V, A>(slot: Option<Slot<V, A>>, clock: Map<A, u64>) -> bool {
    match slot {
        None => true,
        Some(Slot::Node { payload }) => causality(payload.clock, clock) is Concurrent,
        Some(Slot::Major { minis }) => false,
    }
}

/// What stands where `slot` stood after an insert of `value` with `clock`.
pub open spec fn settled<V, A: Actor>(
    slot: Option<Slot<V, A>>,
    clock: Map<A, u64>,
    value: V,
) -> Slot<V, A> {
    let new = Payload { clock, value: Some(value) };
    match slot {
        None => Slot::Node { payload: new },
        Some(Slot::Node { payload }) => if takes(slot, clock) {
            Slot::Major { minis: minis_of(new, payload) }
        } else {
            Slot::Node { payload }
        },
        Some(Slot::Major { minis }) => Slot::Major { minis },
    }
}

/// `t` after an insert of `value` with `clock` at number `number` below `path`.
pub open spec fn grown<V, A: Actor>(
    t: Tree<V, A>,
    path: Seq<u64>,
    number: u64,
    clock: Map<A, u64>,
    value: V,
) -> Tree<V, A> {
    let id = path.push(number);
    paved(t, path).insert(id, settled(lookup(t, id), clock, value))
}

/// A payload that a delete with `clock` has cleared.
pub open spec fn payload_cleared<V, A>(clock: Map<A, u64>) -> Payload<V, A> {
    Payload { clock, value: None }
}

/// What stands where `slot` stood after a delete with `clock`: a node has lost its value, and
/// so has each mini-node whose clock the delete has seen.
pub open spec fn slot_cleared<V, A>(slot: Slot<V, A>, clock: Map<A, u64>) -> Slot<V, A> {
    match slot {
        Slot::Node { payload } => Slot::Node { payload: payload_cleared(clock) },
        Slot::Major { minis } => Slot::Major {
            minis: minis.map_values(
                |e: (Map<A, u64>, Payload<V, A>)|
                    (
                        e.0,
                        if covers(clock, e.1.clock) {
                            payload_cleared(clock)
                        } else {
                            e.1
                        },
                    ),
            ),
        },
    }
}

/// `t` after a delete of `id` with `clock`.
pub open spec fn cleared<V, A>(t: Tree<V, A>, id: Seq<u64>, clock: Map<A, u64>) -> Tree<V, A> {
    if t.contains_key(id) {
        t.insert(id, slot_cleared(t[id], clock))
    } else {
        t
    }
}

/// A payload whose clock has forgotten `c`.
pub open spec fn payload_forgotten<V, A>(p: Payload<V, A>, c: Map<A, u64>) -> Payload<V, A> {
    Payload { clock: forgotten(p.clock, c), value: p.value }
}

/// A slot whose payloads have forgotten `c`; mini-nodes keep the clocks that they stand under.
pub open spec fn slot_forgotten<V, A>(slot: Slot<V, A>, c: Map<A, u64>) -> Slot<V, A> {
    match slot {
        Slot::Node { payload } => Slot::Node { payload: payload_forgotten(payload, c) },
        Slot::Major { minis } => Slot::Major {
            minis: minis.map_values(
                |e: (Map<A, u64>, Payload<V, A>)| (e.0, payload_forgotten(e.1, c)),
            ),
        },
    }
}

/// `t` after each of its atoms has forgotten `c`.
pub open spec fn tree_forgotten<V, A>(t: Tree<V, A>, c: Map<A, u64>) -> Tree<V, A> {
    t.map_values(|slot: Slot<V, A>| slot_forgotten(slot, c))
}

/// One place in the reading of a tree: a path, and the index of a mini-node at that path
/// (zero for a node).
pub type Place = (Seq<u64>, int);

/// The payload at a place.
pub open spec fn payload_at<V, A>(t: Tree<V, A>, at: Place) -> Payload<V, A> {
    match t[at.0] {
        Slot::Node { payload } => payload,
        Slot::Major { minis } => minis[at.1].1,
    }
}

/// A value can be read at a place.
pub open spec fn live<V, A>(t: Tree<V, A>, at: Place) -> bool {
    &&& t.contains_key(at.0)
    &&& match t[at.0] {
        Slot::Node { payload } => at.1 == 0,
        Slot::Major { minis } => 0 <= at.1 < minis.len(),
    }
    &&& payload_at(t, at).value is Some
}

/// Places are ordered by their paths, places at one path by their indices.
pub open spec fn place_before(a: Place, b: Place) -> bool {
    path_before(a.0, b.0) || (a.0 == b.0 && a.1 < b.1)
}

/// `places` holds each place where a value can be read, and no other, in their order.
pub open spec fn is_reading<V, A>(t: Tree<V, A>, places: Seq<Place>) -> bool {
    &&& forall|i: int, j: int|
        0 <= i < j < places.len() ==> place_before(#[trigger] places[i], #[trigger] places[j])
    &&& forall|i: int| 0 <= i < places.len() ==> live(t, #[trigger] places[i])
    &&& forall|at: Place| #[trigger] live(t, at) ==> places.contains(at)
}

/// The places where a value can be read, in their order.
pub open spec fn reading<V, A>(t: Tree<V, A>) -> Seq<Place> {
    choose|places: Seq<Place>| is_reading(t, places)
}

/// `b` is a copy of `a`, its value a clone.
pub open spec fn payload_copied<V: Clone, A>(a: Payload<V, A>, b: Payload<V, A>) -> bool {
    &&& a.clock == b.clock
    &&& match (a.value, b.value) {
        (Some(v), Some(w)) => cloned(v, w),
        (None, None) => true,
        _ => false,
    }
}

/// `b` is a copy of `a`, its values clones.
pub open spec fn slot_copied<V: Clone, A>(a: Slot<V, A>, b: Slot<V, A>) -> bool {
    match (a, b) {
        (Slot::Node { payload: p }, Slot::Node { payload: q }) => payload_copied(p, q),
        (Slot::Major { minis: m }, Slot::Major { minis: n }) => m.len() == n.len() && forall|i: int|
            0 <= i < m.len() ==> (#[trigger] m[i]).0 == (#[trigger] n[i]).0 && payload_copied(
                m[i].1,
                n[i].1,
            ),
        _ => false,
    }
}

/// `t` is a copy of `s`, its values clones.
pub open spec fn tree_copied<V: Clone, A>(s: Tree<V, A>, t: Tree<V, A>) -> bool {
    &&& s.dom() == t.dom()
    &&& forall|x: Seq<u64>| #[trigger] s.contains_key(x) ==> slot_copied(s[x], t[x])
}

/// The mini-nodes of a slot stand in the order of the clocks that they stand under.
pub open spec fn slot_in_order<V, A: Actor>(slot: Slot<V, A>) -> bool {
    match slot {
        Slot::Node { payload } => true,
        Slot::Major { minis } => forall|i: int, j: int|
            0 <= i < j < minis.len() ==> clock_before(
                (#[trigger] minis[i]).0,
                (#[trigger] minis[j]).0,
            ),
    }
}

/// All mini-nodes of a tree stand in the order of the clocks that they stand under.
pub open spec fn minis_in_order<V, A: Actor>(t: Tree<V, A>) -> bool {
    forall|x: Seq<u64>| #[trigger] t.contains_key(x) ==> slot_in_order(t[x])
}

/// Every path in the tree goes through the tree from its beginning.
pub open spec fn is_rooted<V, A>(t: Tree<V, A>) -> bool {
    forall|x: Seq<u64>, y: Seq<u64>|
        t.contains_key(y) && #[trigger] leads_to(x, y) ==> #[trigger] t.contains_key(x)
}

/// The clock of a payload is one that `clock` has seen.
pub open spec fn payload_seen<V, A>(p: Payload<V, A>, clock: Map<A, u64>) -> bool {
    p.clock.dom().finite() && covers(clock, p.clock)
}

/// The clocks of all payloads of a slot are ones that `clock` has seen.
pub open spec fn slot_seen<V, A>(slot: Slot<V, A>, clock: Map<A, u64>) -> bool {
    match slot {
        Slot::Node { payload } => payload_seen(payload, clock),
        Slot::Major { minis } => forall|i: int|
            0 <= i < minis.len() ==> payload_seen((#[trigger] minis[i]).1, clock),
    }
}

/// The clocks of all payloads of a tree are ones that `clock` has seen.
pub open spec fn tree_seen<V, A>(t: Tree<V, A>, clock: Map<A, u64>) -> bool {
    forall|x: Seq<u64>| #[trigger] t.contains_key(x) ==> slot_seen(t[x], clock)
}

/// How two paths that begin with the same number stand to each other does not depend on
/// that number.
pub proof fn one_level_down(number: u64, y: Seq<u64>, path: Seq<u64>)
    ensures
        is_below(seq![number] + y, seq![number] + path) == is_below(y, path),
        y.len() > 0 ==> leads_to(seq![number] + y, seq![number] + path) == leads_to(y, path),
        is_below(y, path) ==> (seq![number] + y).skip(1 + path.len() as int) == y.skip(
            path.len() as int,
        ),
{
    let x = seq![number] + y;
    let long = seq![number] + path;
    if is_below(y, path) {
        assert(x.take(long.len() as int) =~= seq![number] + y.take(path.len() as int));
        assert(x.skip(1 + path.len() as int) =~= y.skip(path.len() as int));
    }
    if is_below(x, long) {
        assert(y.take(path.len() as int) =~= x.take(long.len() as int).drop_first());
        assert(long.drop_first() =~= path);
    }
    if leads_to(y, path) {
        assert(long.take(x.len() as int) =~= seq![number] + path.take(y.len() as int));
    }
    if leads_to(x, long) && y.len() > 0 {
        assert(path.take(y.len() as int) =~= long.take(x.len() as int).drop_first());
        assert(x.drop_first() =~= y);
    }
}

/// Two lists of the same places, both in order, are the same list.
proof fn ordered_places_are_unique(s: Seq<Place>, t: Seq<Place>)
    requires
        forall|i: int, j: int|
            0 <= i < j < s.len() ==> place_before(#[trigger] s[i], #[trigger] s[j]),
        forall|i: int, j: int|
            0 <= i < j < t.len() ==> place_before(#[trigger] t[i], #[trigger] t[j]),
        forall|at: Place| #[trigger] s.contains(at) <==> t.contains(at),
    ensures
        s == t,
    decreases s.len(),
{
    if s.len() == 0 {
        if t.len() > 0 {
            assert(t.contains(t[0]));
            assert(s.contains(t[0]));
        }
        assert(s =~= t);
    } else {
        let last = s.last();
        assert(s.contains(last));
        let i = t.index_of(last);
        let end = t.last();
        assert(t.contains(end));
        assert(s.contains(end));
        let j = s.index_of(end);
        path_before_is_total(last.0, end.0);
        assert(last == end) by {
            if i < t.len() - 1 {
                assert(place_before(t[i], t[t.len() - 1]));
            }
            if j < s.len() - 1 {
                assert(place_before(s[j], s[s.len() - 1]));
            }
        }
        let s1 = s.drop_last();
        let t1 = t.drop_last();
        assert forall|at: Place| #[trigger] s1.contains(at) <==> t1.contains(at) by {
            path_before_is_total(at.0, at.0);
            if s1.contains(at) {
                let k = s1.index_of(at);
                assert(place_before(s[k], s[s.len() - 1]));
                assert(s[k] == at);
                assert(s.contains(at));
                assert(t.contains(at));
                let l = t.index_of(at);
                assert(t1[l] == at);
            }
            if t1.contains(at) {
                let k = t1.index_of(at);
                assert(place_before(t[k], t[t.len() - 1]));
                assert(t[k] == at);
                assert(t.contains(at));
                assert(s.contains(at));
                let l = s.index_of(at);
                assert(s1[l] == at);
            }
        }
        ordered_places_are_unique(s1, t1);
        assert(s =~= s1.push(last));
        assert(t =~= t1.push(last));
    }
}

/// A tree has one reading only.
pub proof fn reading_is_unique<V, A>(t: Tree<V, A>, a: Seq<Place>, b: Seq<Place>)
    requires
        is_reading(t, a),
        is_reading(t, b),
    ensures
        a == b,
{
    assert forall|at: Place| #[trigger] a.contains(at) <==> b.contains(at) by {
        if a.contains(at) {
            assert(live(t, a[a.index_of(at)]));
        }
        if b.contains(at) {
            assert(live(t, b[b.index_of(at)]));
        }
    }
    ordered_places_are_unique(a, b);
}

} // verus!
