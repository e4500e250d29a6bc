//! What an operation does to what is read of a sequence.
use crate::actor::{lawful, Actor};
use crate::allocation::arity;
use crate::between::{bounds_above, no_room_is_there};
use crate::clock_laws::{causality_goes_by_versions, covering_goes_by_versions, version};
use crate::clock_order::{clock_before, clock_before_is_total};
use crate::identifier::{path_before, path_before_is_total, Identifier};
use crate::laws::acceptance_is_kept;
use crate::lseq::{accepted, is_read_of, may_become, same_id, Op};
use crate::nodes::{Atom, SiblingsNodes};
use crate::numbers::{
    branches_off, num, room_between_equals_is_below, room_is_the_first_there_is,
};
use crate::state::{bound, State};
use crate::strategy::LSeqStrategy;
use crate::tree::{
    leads_to, live, payload_at, place_before, reading, slot_copied, slot_forgotten, tree_copied,
    Payload, Place, Slot, Tree,
};
use crate::vclock::{forgotten, VClock};
use vstd::prelude::*;

verus! {

/// The numbers of an identifier that bounds an insert; the ends of a sequence have none.
pub open spec fn ends(id: Option<Identifier>) -> Seq<u64> {
    match id {
        Some(id) => id@,
        None => Seq::empty(),
    }
}

/// The value at a path, and the clock of the operation that put it there: that of a node at
/// index zero, or that of a mini-node at its own index.
pub open spec fn value_at<V, A>(t: Tree<V, A>, path: Seq<u64>, j: int) -> Option<
    (V, Map<A, u64>),
> {
    if !t.dom().contains(path) {
        None
    } else {
        match t[path] {
            Slot::Node { payload } => match payload.value {
                Some(v) => if j == 0 {
                    Some((v, payload.clock))
                } else {
                    None
                },
                None => None,
            },
            Slot::Major { minis } => if 0 <= j < minis.len() {
                match minis[j].1.value {
                    Some(v) => Some((v, minis[j].1.clock)),
                    None => None,
                }
            } else {
                None
            },
        }
    }
}

/// Each entry of `out` shows a value of `t` with its path and its clock, in the order of the
/// paths and, at one path, of the values there; `js` tells which of these each entry shows.
pub open spec fn shows_in_order<V: Ord + Clone, A: Actor>(
    t: Tree<V, A>,
    out: Seq<(Identifier, V, VClock<A>)>,
    js: Seq<int>,
) -> bool {
    &&& js.len() == out.len()
    &&& forall|i: int|
        0 <= i < out.len() ==> (value_at(t, (#[trigger] out[i]).0@, js[i]) matches Some(held)
            && cloned(held.0, out[i].1) && out[i].2@ == held.1)
    &&& forall|i: int, k: int|
        0 <= i < k < out.len() ==> path_before((#[trigger] out[i]).0@, (#[trigger] out[k]).0@) || (
        out[i].0@ == out[k].0@ && js[i] < js[k])
}

/// Each value of `t` is shown by an entry of `out`, where `js` tells which of the values at its
/// path an entry shows.
#[verifier::opaque]
pub open spec fn leaves_nothing_out<V: Ord + Clone, A: Actor>(
    t: Tree<V, A>,
    out: Seq<(Identifier, V, VClock<A>)>,
    js: Seq<int>,
) -> bool {
    forall|path: Seq<u64>, j: int| #[trigger]
        value_at(t, path, j) is Some ==> exists|i: int|
            0 <= i < out.len() && (#[trigger] out[i]).0@ == path && js[i] == j
}

/// `out` shows each value of `t` once, in the order of their paths.
pub open spec fn shows<V: Ord + Clone, A: Actor>(
    t: Tree<V, A>,
    out: Seq<(Identifier, V, VClock<A>)>,
    js: Seq<int>,
) -> bool {
    shows_in_order(t, out, js) && leaves_nothing_out(t, out, js)
}

proof fn where_it_is_shown<V: Ord + Clone, A: Actor>(
    t: Tree<V, A>,
    out: Seq<(Identifier, V, VClock<A>)>,
    js: Seq<int>,
    path: Seq<u64>,
    j: int,
) -> (i: int)
    requires
        leaves_nothing_out(t, out, js),
        value_at(t, path, j) is Some,
    ensures
        0 <= i < out.len(),
        out[i].0@ == path,
        js[i] == j,
{
    reveal(leaves_nothing_out);
    choose|i: int| 0 <= i < out.len() && (#[trigger] out[i]).0@ == path && js[i] == j
}

proof fn live_is_value_at<V, A>(t: Tree<V, A>, at: Place)
    ensures
        live(t, at) <==> value_at(t, at.0, at.1) is Some,
        live(t, at) ==> value_at(t, at.0, at.1) == Some(
            (payload_at(t, at).value->0, payload_at(t, at).clock),
        ),
{
}

/// What is read of a tree shows each of its values once, in the order of their paths, those at
/// one path in the order in which they stand there.
pub proof fn reading_shows_all<V: Ord + Clone, A: Actor>(
    t: Tree<V, A>,
    out: Seq<(Identifier, V, VClock<A>)>,
)
    requires
        is_read_of(t, out),
    ensures
        exists|js: Seq<int>| #[trigger] shows(t, out, js),
{
    let places = reading(t);
    let js = places.map_values(|at: Place| at.1);
    assert forall|i: int| 0 <= i < out.len() implies (#[trigger] out[i]).0@ == places[i].0 && js[i]
        == places[i].1 && live(t, places[i]) by {}
    assert forall|i: int| 0 <= i < out.len() implies (value_at(
        t,
        (#[trigger] out[i]).0@,
        js[i],
    ) matches Some(held) && cloned(held.0, out[i].1) && out[i].2@ == held.1) by {
        live_is_value_at(t, places[i]);
    }
    assert forall|i: int, k: int| 0 <= i < k < out.len() implies path_before(
        (#[trigger] out[i]).0@,
        (#[trigger] out[k]).0@,
    ) || (out[i].0@ == out[k].0@ && js[i] < js[k]) by {
        assert(place_before(places[i], places[k]));
    }
    assert forall|path: Seq<u64>, j: int| #[trigger] value_at(t, path, j) is Some implies exists|
        i: int,
    | 0 <= i < out.len() && (#[trigger] out[i]).0@ == path && js[i] == j by {
        live_is_value_at(t, (path, j));
        assert(places.contains((path, j)));
        let i = places.index_of((path, j));
        assert(out[i].0@ == path);
    }
    assert(leaves_nothing_out(t, out, js)) by {
        reveal(leaves_nothing_out);
    }
    assert(shows(t, out, js));
}

/// What an applied operation leaves alone: how the sequence is set up, and the sides that have
/// been chosen. Sides that are chosen anew are those that the strategy asks for.
pub proof fn applying_keeps_settings<V: Ord + Clone, A: Actor>(
    s: State<V, A>,
    op: Op<V, A>,
    r: State<V, A>,
)
    requires
        accepted(s, op),
        may_become(s, op, r),
    ensures
        r.boundary == s.boundary,
        r.root_arity == s.root_arity,
        r.strategy == s.strategy,
        s.strategies.len() <= r.strategies.len(),
        forall|k: int|
            0 <= k < s.strategies.len() ==> #[trigger] r.strategies[k] == s.strategies[k],
        forall|k: int|
            s.strategies.len() <= k < r.strategies.len() ==> match s.strategy {
                LSeqStrategy::Alternate => (#[trigger] r.strategies[k] <==> k % 2 == 0),
                LSeqStrategy::Random => true,
                LSeqStrategy::BoundaryPlus => r.strategies[k],
                LSeqStrategy::BoundaryMinus => !r.strategies[k],
            },
        op is Delete ==> r.strategies == s.strategies,
{
    if let Op::Insert { clock, value, p, q } = op {
        if clock@ != Map::<A, u64>::empty() {
            s.depth_is_natural(ends(p), ends(q));
            assert forall|k: int|
                0 <= k < s.strategies.len() implies #[trigger] r.strategies[k]
                == s.strategies[k] by {
                assert(r.strategies.take(s.strategies.len() as int)[k] == r.strategies[k]);
            }
        }
    }
}

/// An insert without a clock changes nothing, and can always be applied.
pub proof fn insert_without_clock_is_left_aside<V: Ord + Clone, A: Actor>(
    s: State<V, A>,
    op: Op<V, A>,
    r: State<V, A>,
)
    requires
        op matches Op::Insert { clock, value, p, q } && clock@.dom() == Set::<A>::empty(),
    ensures
        accepted(s, op),
        may_become(s, op, r) <==> r == s,
{
    if let Op::Insert { clock, value, p, q } = op {
        assert(clock@ =~= Map::<A, u64>::empty());
    }
}

/// A delete can be applied if and only if it names an identifier. An insert can be applied if
/// there is an identifier between its bounds that it could take, down to the deepest level; and
/// not if its lower bound comes after its upper one.
pub proof fn acceptance_goes_by_bounds<V: Ord + Clone, A: Actor>(
    s: State<V, A>,
    op: Op<V, A>,
    x: Seq<u64>,
)
    ensures
        op matches Op::Delete { clock, id } ==> (accepted(s, op) <==> id@.len() > 0),
        op matches Op::Insert { clock, value, p, q } ==> {
            &&& x.len() <= 5 && branches_off(s.root_arity, ends(p), x) && path_before(ends(p), x)
                && (ends(q).len() > 0 ==> path_before(x, ends(q))) && (x.len() <= ends(q).len()
                ==> x != ends(q).take(x.len() as int)) ==> accepted(s, op)
            &&& clock@.dom() != Set::<A>::empty() && ends(q).len() > 0 && path_before(
                ends(q),
                ends(p),
            ) ==> !accepted(s, op)
        },
{
    if let Op::Insert { clock, value, p, q } = op {
        let (lo, hi) = (ends(p), ends(q));
        if x.len() <= 5 && branches_off(s.root_arity, lo, x) && path_before(lo, x) && (hi.len() > 0
            ==> path_before(x, hi)) && (x.len() <= hi.len() ==> x != hi.take(x.len() as int)) {
            room_is_the_first_there_is(s.root_arity, lo, hi, x);
        }
        if hi.len() > 0 && path_before(hi, lo) {
            no_room_is_there(s.root_arity, lo, hi);
        }
    }
}

/// `m` has seen something that `n` has not.
pub open spec fn knows_more<A>(m: Map<A, u64>, n: Map<A, u64>) -> bool {
    exists|a: A| #[trigger] version(m, a) > version(n, a)
}

/// Each clock has seen something that the other has not.
pub open spec fn unseen_by_each_other<A>(m: Map<A, u64>, n: Map<A, u64>) -> bool {
    knows_more(m, n) && knows_more(n, m)
}

/// `m` is the clock that has seen what `n` and `o` have, and no more.
pub open spec fn sees_both<A>(m: Map<A, u64>, n: Map<A, u64>, o: Map<A, u64>) -> bool {
    forall|a: A|
        #[trigger] version(m, a) == if version(n, a) >= version(o, a) {
            version(n, a)
        } else {
            version(o, a)
        }
}

/// What an applied insert does. At a free identifier its value stands afterwards. Where a node
/// stands whose clock and its own have not seen each other, both values stand, in the order of
/// their clocks. Else the insert is dropped. Nothing changes at any other path, but that the
/// way to the identifier is there. The clock has seen the insert unless it was dropped.
pub proof fn applied_insert_takes_its_place<V: Ord + Clone, A: Actor>(
    s: State<V, A>,
    op: Op<V, A>,
    r: State<V, A>,
)
    requires
        lawful::<A>(),
        accepted(s, op),
        may_become(s, op, r),
        op matches Op::Insert { clock, value, p, q } && clock@.dom() != Set::<A>::empty(),
    ensures
        op matches Op::Insert { clock, value, p, q } && {
            let id = s.new_id(ends(p), ends(q), r.strategies);
            let new = Payload { clock: clock@, value: Some(value) };
            &&& id.len() > 0
            &&& r.strategies.len() == if id.len() > s.strategies.len() {
                id.len()
            } else {
                s.strategies.len()
            }
            &&& !s.tree.dom().contains(id) ==> {
                &&& r.tree.dom().contains(id)
                &&& r.tree[id] == (Slot::Node { payload: new })
                &&& sees_both(r.clock, s.clock, clock@)
            }
            &&& s.tree.dom().contains(id) ==> r.tree.dom().contains(id) && match s.tree[id] {
                Slot::Node { payload: met } => if unseen_by_each_other(met.clock, clock@) {
                    &&& sees_both(r.clock, s.clock, clock@)
                    &&& r.tree[id] matches Slot::Major { minis } && {
                        ||| minis == seq![(clock@, new), (met.clock, met)] && clock_before(
                            clock@,
                            met.clock,
                        )
                        ||| minis == seq![(met.clock, met), (clock@, new)] && !clock_before(
                            clock@,
                            met.clock,
                        )
                    }
                } else {
                    r.tree[id] == s.tree[id] && r.clock == s.clock
                },
                Slot::Major { minis } => r.tree[id] == s.tree[id] && r.clock == s.clock,
            }
            &&& forall|x: Seq<u64>|
                x != id && #[trigger] s.tree.dom().contains(x) ==> r.tree.dom().contains(x)
                    && r.tree[x] == s.tree[x]
            &&& forall|x: Seq<u64>|
                x != id && !s.tree.dom().contains(x) ==> (#[trigger] r.tree.dom().contains(x) <==> 0
                    < x.len() < id.len() && x == id.take(x.len() as int))
            &&& forall|x: Seq<u64>|
                x != id && !s.tree.dom().contains(x) && #[trigger] r.tree.dom().contains(x)
                    ==> r.tree[x] == (Slot::<V, A>::Node {
                    payload: Payload { clock: Map::empty(), value: None },
                })
        },
{
    if let Op::Insert { clock, value, p, q } = op {
        assert(clock@ != Map::<A, u64>::empty()) by {
            if clock@ == Map::<A, u64>::empty() {
                assert(clock@.dom() =~= Set::<A>::empty());
            }
        }
        let (lo, hi) = (ends(p), ends(q));
        let id = s.new_id(lo, hi, r.strategies);
        let path = s.new_path(lo, hi);
        s.depth_is_natural(lo, hi);
        if s.tree.contains_key(id) {
            if let Slot::Node { payload: met } = s.tree[id] {
                causality_goes_by_versions(met.clock, clock@);
            }
        }
        assert forall|x: Seq<u64>| leads_to(x, path) <==> 0 < x.len() < id.len() && x == (
        #[trigger] id.take(x.len() as int)) by {
            if 0 < x.len() < id.len() {
                assert(id.take(x.len() as int) =~= path.take(x.len() as int));
            }
        }
        assert forall|x: Seq<u64>| x != id && !s.tree.dom().contains(x) implies (
        #[trigger] r.tree.dom().contains(x) <==> 0 < x.len() < id.len() && x == id.take(
            x.len() as int,
        )) by {
            let y = id.take(x.len() as int);
            assert(r.tree.contains_key(x) <==> leads_to(x, path));
        }
    }
}

/// The only value at a path is read at one place, after what is read at earlier paths and
/// before what is read at later ones.
pub proof fn only_value_is_read_once<V: Ord + Clone, A: Actor>(
    t: Tree<V, A>,
    out: Seq<(Identifier, V, VClock<A>)>,
    id: Seq<u64>,
    held: (V, Map<A, u64>),
) -> (n: int)
    requires
        is_read_of(t, out),
        value_at(t, id, 0) == Some(held),
        forall|j: int| j != 0 ==> #[trigger] value_at(t, id, j) is None,
    ensures
        0 <= n < out.len(),
        out[n].0@ == id,
        cloned(held.0, out[n].1),
        out[n].2@ == held.1,
        forall|i: int| 0 <= i < out.len() && i != n ==> (#[trigger] out[i]).0@ != id,
        forall|i: int| 0 <= i < out.len() && path_before((#[trigger] out[i]).0@, id) ==> i < n,
        forall|i: int| 0 <= i < out.len() && path_before(id, (#[trigger] out[i]).0@) ==> n < i,
{
    reading_shows_all(t, out);
    let js = choose|js: Seq<int>| #[trigger] shows(t, out, js);
    let n = where_it_is_shown(t, out, js, id, 0);
    assert forall|i: int| 0 <= i < out.len() && i != n implies (#[trigger] out[i]).0@ != id by {
        path_before_is_total(id, id);
        if out[i].0@ == id {
            assert(value_at(t, out[i].0@, js[i]) is Some);
            assert(js[i] == 0);
        }
    }
    assert forall|i: int| 0 <= i < out.len() && path_before((#[trigger] out[i]).0@, id) implies i
        < n by {
        path_before_is_total(out[i].0@, id);
        path_before_is_total(id, id);
    }
    assert forall|i: int| 0 <= i < out.len() && path_before(id, (#[trigger] out[i]).0@) implies n
        < i by {
        path_before_is_total(id, out[i].0@);
        path_before_is_total(id, id);
    }
    n
}

/// A value that is inserted at a free identifier is held there, under its own clock, and all
/// else is held as before.
pub proof fn applied_insert_is_held<V: Ord + Clone, A: Actor>(
    s: State<V, A>,
    op: Op<V, A>,
    r: State<V, A>,
)
    requires
        lawful::<A>(),
        accepted(s, op),
        may_become(s, op, r),
        op matches Op::Insert { clock, value, p, q } && {
            &&& clock@.dom() != Set::<A>::empty()
            &&& !s.tree.dom().contains(s.new_id(ends(p), ends(q), r.strategies))
        },
    ensures
        op matches Op::Insert { clock, value, p, q } && {
            let id = s.new_id(ends(p), ends(q), r.strategies);
            &&& value_at(r.tree, id, 0) == Some((value, clock@))
            &&& forall|j: int| j != 0 ==> #[trigger] value_at(r.tree, id, j) is None
            &&& forall|x: Seq<u64>, j: int|
                x != id ==> #[trigger] value_at(r.tree, x, j) == value_at(s.tree, x, j)
            &&& forall|a: A| #[trigger] version(clock@, a) <= version(r.clock, a)
        },
{
    applied_insert_takes_its_place(s, op, r);
    if let Op::Insert { clock, value, p, q } = op {
        let id = s.new_id(ends(p), ends(q), r.strategies);
        assert forall|x: Seq<u64>, j: int| x != id implies #[trigger] value_at(r.tree, x, j)
            == value_at(s.tree, x, j) by {
            if !s.tree.dom().contains(x) && r.tree.dom().contains(x) {
                assert(r.tree[x] == (Slot::<V, A>::Node {
                    payload: Payload { clock: Map::empty(), value: None },
                }));
            }
        }
        assert forall|a: A| #[trigger] version(clock@, a) <= version(r.clock, a) by {
            assert(version(r.clock, a) >= version(clock@, a));
        }
    }
}

/// A value that is inserted at a free identifier is read there, once, under its own clock,
/// after what is read at its lower bound and before what is read at its upper one.
pub proof fn applied_insert_is_read<V: Ord + Clone, A: Actor>(
    s: State<V, A>,
    op: Op<V, A>,
    r: State<V, A>,
    out: Seq<(Identifier, V, VClock<A>)>,
)
    requires
        lawful::<A>(),
        accepted(s, op),
        may_become(s, op, r),
        is_read_of(r.tree, out),
        op matches Op::Insert { clock, value, p, q } && {
            &&& clock@.dom() != Set::<A>::empty()
            &&& bounds_above(ends(p), ends(q))
            &&& !s.tree.dom().contains(s.new_id(ends(p), ends(q), r.strategies))
        },
    ensures
        op matches Op::Insert { clock, value, p, q } && exists|n: int|
            {
                &&& 0 <= n < out.len()
                &&& (#[trigger] out[n]).0@ == s.new_id(ends(p), ends(q), r.strategies)
                &&& cloned(value, out[n].1)
                &&& out[n].2@ == clock@
                &&& forall|i: int|
                    0 <= i < out.len() && (#[trigger] out[i]).0@ == ends(p) ==> i < n
                &&& forall|i: int|
                    0 <= i < out.len() && ends(q).len() > 0 && (#[trigger] out[i]).0@ == ends(q)
                        ==> n < i
            },
{
    applied_insert_is_held(s, op, r);
    if let Op::Insert { clock, value, p, q } = op {
        let (lo, hi) = (ends(p), ends(q));
        let id = s.new_id(lo, hi, r.strategies);
        assert(s.can_insert(lo, hi)) by {
            if clock@ == Map::<A, u64>::empty() {
                assert(clock@.dom() =~= Set::<A>::empty());
            }
        }
        s.new_id_lies_between(lo, hi, r.strategies);
        let n = only_value_is_read_once(r.tree, out, id, (value, clock@));
        assert(out[n].0@ == id);
    }
}

/// What an applied delete does. A node at its identifier has no value afterwards. Of mini-nodes
/// there, those have none whose clocks the delete has seen; the others stay as they are, and so
/// does everything at any other path. The clock has seen the delete if there was anything at
/// its identifier, else nothing changes.
pub proof fn applied_delete_clears_its_place<V: Ord + Clone, A: Actor>(
    s: State<V, A>,
    op: Op<V, A>,
    r: State<V, A>,
)
    requires
        accepted(s, op),
        may_become(s, op, r),
        op is Delete,
    ensures
        op matches Op::Delete { clock, id } && {
            &&& !s.tree.dom().contains(id@) ==> r == s
            &&& s.tree.dom().contains(id@) ==> {
                &&& sees_both(r.clock, s.clock, clock@)
                &&& match (s.tree[id@], r.tree[id@]) {
                    (Slot::Node { payload: met }, Slot::Node { payload: left }) => {
                        left.value is None && left.clock == clock@
                    },
                    (Slot::Major { minis }, Slot::Major { minis: left }) => {
                        &&& left.len() == minis.len()
                        &&& forall|i: int|
                            0 <= i < minis.len() ==> (#[trigger] left[i]).0 == minis[i].0
                                && if knows_more(minis[i].1.clock, clock@) {
                                left[i].1 == minis[i].1
                            } else {
                                left[i].1.value is None && left[i].1.clock == clock@
                            }
                    },
                    _ => false,
                }
            }
            &&& r.tree.dom() == s.tree.dom()
            &&& forall|x: Seq<u64>|
                x != id@ && #[trigger] s.tree.dom().contains(x) ==> r.tree[x] == s.tree[x]
        },
{
    if let Op::Delete { clock, id } = op {
        assert(r.tree.dom() =~= s.tree.dom());
        if s.tree.contains_key(id@) {
            if let Slot::Major { minis } = s.tree[id@] {
                let left = r.tree[id@]->minis;
                assert forall|i: int| 0 <= i < minis.len() implies (#[trigger] left[i]).0
                    == minis[i].0 && if knows_more(minis[i].1.clock, clock@) {
                    left[i].1 == minis[i].1
                } else {
                    left[i].1.value is None && left[i].1.clock == clock@
                } by {
                    let c = minis[i].1.clock;
                    covering_goes_by_versions(clock@, c);
                    if knows_more(c, clock@) {
                        let a = choose|a: A| #[trigger] version(c, a) > version(clock@, a);
                        assert(!(version(c, a) <= version(clock@, a)));
                    } else {
                        assert forall|a: A| #[trigger] version(c, a) <= version(clock@, a) by {
                            assert(!(version(c, a) > version(clock@, a)));
                        }
                    }
                }
            }
        }
    }
}

/// What an applied delete has seen at its identifier is held no more: the value of a node in
/// any case, that of a mini-node if the delete has seen its clock. All else is held as before.
pub proof fn applied_delete_is_not_held<V: Ord + Clone, A: Actor>(
    s: State<V, A>,
    op: Op<V, A>,
    r: State<V, A>,
)
    requires
        accepted(s, op),
        may_become(s, op, r),
        op is Delete,
    ensures
        op matches Op::Delete { clock, id } && {
            &&& s.tree.dom().contains(id@) && s.tree[id@] is Node ==> forall|j: int| #[trigger]
                value_at(r.tree, id@, j) is None
            &&& s.tree.dom().contains(id@) && s.tree[id@] is Major ==> forall|j: int| #[trigger]
                value_at(r.tree, id@, j) == match value_at(s.tree, id@, j) {
                    Some(held) => if knows_more(held.1, clock@) {
                        Some(held)
                    } else {
                        None
                    },
                    None => None,
                }
            &&& forall|x: Seq<u64>, j: int|
                x != id@ ==> #[trigger] value_at(r.tree, x, j) == value_at(s.tree, x, j)
        },
{
    applied_delete_clears_its_place(s, op, r);
    if let Op::Delete { clock, id } = op {
        if s.tree.dom().contains(id@) {
            if let Slot::Major { minis } = s.tree[id@] {
                let left = r.tree[id@]->minis;
                assert forall|j: int| #[trigger] value_at(r.tree, id@, j) == match value_at(
                    s.tree,
                    id@,
                    j,
                ) {
                    Some(held) => if knows_more(held.1, clock@) {
                        Some(held)
                    } else {
                        None
                    },
                    None => None,
                } by {
                    if 0 <= j < minis.len() {
                        assert(left[j].0 == minis[j].0);
                    }
                }
            }
        }
    }
}

/// What an applied delete has seen at its identifier is read no more: after the delete of a
/// node nothing is, after that of mini-nodes only what has seen something that the delete has
/// not.
pub proof fn applied_delete_is_not_read<V: Ord + Clone, A: Actor>(
    s: State<V, A>,
    op: Op<V, A>,
    r: State<V, A>,
    out: Seq<(Identifier, V, VClock<A>)>,
    i: int,
)
    requires
        accepted(s, op),
        may_become(s, op, r),
        is_read_of(r.tree, out),
        0 <= i < out.len(),
        op matches Op::Delete { clock, id } && out[i].0@ == id@,
    ensures
        op matches Op::Delete { clock, id } && {
            &&& s.tree[id@] is Major
            &&& knows_more(out[i].2@, clock@)
        },
{
    applied_delete_is_not_held(s, op, r);
    reading_shows_all(r.tree, out);
    let js = choose|js: Seq<int>| #[trigger] shows(r.tree, out, js);
    if let Op::Delete { clock, id } = op {
        assert(value_at(r.tree, out[i].0@, js[i]) is Some);
        assert(value_at(r.tree, id@, js[i]) is Some);
    }
}

/// Two inserts that come to one free identifier, and that have not seen each other, are both
/// read there after both are applied, the one with the earlier clock first.
pub proof fn concurrent_inserts_are_both_read<V: Ord + Clone, A: Actor>(
    s: State<V, A>,
    op: Op<V, A>,
    a: State<V, A>,
    other: Op<V, A>,
    r: State<V, A>,
)
    requires
        lawful::<A>(),
        accepted(s, op),
        may_become(s, op, a),
        accepted(s, other),
        may_become(a, other, r),
        op matches Op::Insert { clock: c, value: v, p, q } && other matches Op::Insert {
            clock: d,
            value: w,
            p: p2,
            q: q2,
        } && {
            let id = s.new_id(ends(p), ends(q), a.strategies);
            &&& unseen_by_each_other(c@, d@)
            &&& !s.tree.dom().contains(id)
            &&& id == a.new_id(ends(p2), ends(q2), r.strategies)
        },
    ensures
        op matches Op::Insert { clock: c, value: v, p, q } && other matches Op::Insert {
            clock: d,
            value: w,
            p: p2,
            q: q2,
        } && {
            let id = s.new_id(ends(p), ends(q), a.strategies);
            &&& clock_before(c@, d@) ==> value_at(r.tree, id, 0) == Some((v, c@)) && value_at(
                r.tree,
                id,
                1,
            ) == Some((w, d@))
            &&& !clock_before(c@, d@) ==> value_at(r.tree, id, 0) == Some((w, d@)) && value_at(
                r.tree,
                id,
                1,
            ) == Some((v, c@))
            &&& sees_both(r.clock, a.clock, d@)
        },
{
    if let (
        Op::Insert { clock: c, value: v, p, q },
        Op::Insert { clock: d, value: w, p: p2, q: q2 },
    ) = (op, other) {
        let x = choose|x: A| #[trigger] version(c@, x) > version(d@, x);
        assert(c@.dom().contains(x));
        let y = choose|y: A| #[trigger] version(d@, y) > version(c@, y);
        assert(d@.dom().contains(y));
        acceptance_is_kept(s, op, a, other);
        applied_insert_takes_its_place(s, op, a);
        applied_insert_takes_its_place(a, other, r);
        clock_before_is_total(c@, d@);
        let id = s.new_id(ends(p), ends(q), a.strategies);
        assert(a.tree.dom().contains(id));
    }
}

/// What forgetting does: each value stays where it is, and of each clock those actors are
/// dropped that the forgotten clock lists at the same version or a later one.
pub proof fn forgetting_keeps_places<V, A>(s: State<V, A>, c: Map<A, u64>)
    ensures
        ({
            let r = s.forgot(c);
            &&& r.tree.dom() == s.tree.dom()
            &&& r == (State { tree: r.tree, clock: r.clock, ..s })
            &&& drops(s.clock, c, r.clock)
            &&& forall|x: Seq<u64>| #[trigger]
                s.tree.dom().contains(x) ==> match (s.tree[x], r.tree[x]) {
                    (Slot::Node { payload: old_one }, Slot::Node { payload: new_one }) => {
                        old_one.value == new_one.value && drops(old_one.clock, c, new_one.clock)
                    },
                    (Slot::Major { minis }, Slot::Major { minis: left }) => {
                        &&& left.len() == minis.len()
                        &&& forall|i: int|
                            0 <= i < minis.len() ==> {
                                &&& (#[trigger] left[i]).0 == minis[i].0
                                &&& left[i].1.value == minis[i].1.value
                                &&& drops(minis[i].1.clock, c, left[i].1.clock)
                            }
                    },
                    _ => false,
                }
        }),
{
    let r = s.forgot(c);
    assert(r.tree.dom() =~= s.tree.dom());
    assert forall|m: Map<A, u64>| #[trigger] drops(m, c, forgotten(m, c)) by {}
    assert forall|x: Seq<u64>| #[trigger] s.tree.dom().contains(x) implies match (
        s.tree[x],
        r.tree[x],
    ) {
        (Slot::Node { payload: old_one }, Slot::Node { payload: new_one }) => {
            old_one.value == new_one.value && drops(old_one.clock, c, new_one.clock)
        },
        (Slot::Major { minis }, Slot::Major { minis: left }) => {
            &&& left.len() == minis.len()
            &&& forall|i: int|
                0 <= i < minis.len() ==> {
                    &&& (#[trigger] left[i]).0 == minis[i].0
                    &&& left[i].1.value == minis[i].1.value
                    &&& drops(minis[i].1.clock, c, left[i].1.clock)
                }
        },
        _ => false,
    } by {
        assert(r.tree[x] == slot_forgotten(s.tree[x], c));
    }
}

/// `n` is `m` without the actors that `c` lists at the same version or a later one.
pub open spec fn drops<A>(m: Map<A, u64>, c: Map<A, u64>, n: Map<A, u64>) -> bool {
    forall|a: A|
        {
            &&& #[trigger] n.dom().contains(a) <==> m.dom().contains(a) && !(c.dom().contains(a)
                && c[a] >= m[a])
            &&& n.dom().contains(a) ==> n[a] == m[a]
        }
}

/// A copy of a tree holds at each path a clone of each value, under the same clock.
pub proof fn copies_hold_clones<V: Clone, A>(s: Tree<V, A>, t: Tree<V, A>)
    requires
        tree_copied(s, t),
    ensures
        s.dom() == t.dom(),
        forall|x: Seq<u64>| #[trigger] s.dom().contains(x) ==> (s[x] is Node <==> t[x] is Node),
        forall|x: Seq<u64>|
            #[trigger] s.dom().contains(x) && s[x] is Major ==> s[x]->minis.len()
                == t[x]->minis.len() && forall|i: int|
                0 <= i < s[x]->minis.len() ==> (#[trigger] s[x]->minis[i]).0 == t[x]->minis[i].0
                    && s[x]->minis[i].1.clock == t[x]->minis[i].1.clock,
        forall|x: Seq<u64>|
            #[trigger] s.dom().contains(x) && s[x] is Node ==> s[x]->payload.clock
                == t[x]->payload.clock,
        forall|x: Seq<u64>, j: int| #[trigger]
            value_at(s, x, j) matches Some(held) ==> value_at(t, x, j) is Some && cloned(
                held.0,
                (value_at(t, x, j)->0).0,
            ) && held.1 == (value_at(t, x, j)->0).1,
        forall|x: Seq<u64>, j: int| #[trigger]
            value_at(s, x, j) is None ==> value_at(t, x, j) is None,
{
    assert forall|x: Seq<u64>| #[trigger] s.dom().contains(x) implies slot_copied(
        s[x],
        t[x],
    ) by {
        assert(s.contains_key(x));
    }
    assert forall|x: Seq<u64>, j: int| #[trigger] value_at(s, x, j) matches Some(held)
        ==> value_at(t, x, j) is Some && cloned(held.0, (value_at(t, x, j)->0).0) && held.1
        == (value_at(t, x, j)->0).1 by {
        if s.dom().contains(x) {
            if let Slot::Major { minis } = s[x] {
                if 0 <= j < minis.len() {
                    assert(minis[j].0 == t[x]->minis[j].0);
                }
            }
        }
    }
    assert forall|x: Seq<u64>, j: int| #[trigger] value_at(s, x, j) is None implies value_at(
        t,
        x,
        j,
    ) is None by {
        if s.dom().contains(x) {
            if let Slot::Major { minis } = s[x] {
                if 0 <= j < minis.len() {
                    assert(minis[j].0 == t[x]->minis[j].0);
                }
            }
        }
    }
}

/// Siblings are well formed if and only if their numbers grow, and those below each of them do.
pub proof fn siblings_grow<V: Ord + Clone, A: Actor>(nodes: SiblingsNodes<V, A>)
    ensures
        nodes.wf() <==> {
            &&& forall|i: int, j: int|
                0 <= i < j < nodes.slots@.len() ==> (#[trigger] nodes.slots@[i]).0 < (
                #[trigger] nodes.slots@[j]).0
            &&& forall|i: int|
                0 <= i < nodes.slots@.len() ==> match (#[trigger] nodes.slots@[i]).1 {
                    Atom::Node { payload, children } => children.wf(),
                    Atom::MajorNode { minis, children } => children.wf(),
                }
        },
{
}

/// What stands at the path of a sibling, and below it. Where no sibling has the number, there
/// is nothing.
pub proof fn trees_hold_their_siblings<V: Ord + Clone, A: Actor>(
    nodes: SiblingsNodes<V, A>,
    i: int,
    x: Seq<u64>,
)
    requires
        nodes.wf(),
        0 <= i < nodes.slots@.len(),
        x.len() > 0,
    ensures
        x[0] == nodes.slots@[i].0 ==> match nodes.slots@[i].1 {
            Atom::Node { payload, children } => {
                &&& x.len() == 1 ==> nodes.tree().dom().contains(x) && nodes.tree()[x] == (
                Slot::Node {
                    payload: Payload { clock: payload.clock@, value: payload.value },
                })
                &&& x.len() > 1 ==> (nodes.tree().dom().contains(x)
                    <==> children.tree().dom().contains(x.drop_first())) && (
                nodes.tree().dom().contains(x) ==> nodes.tree()[x]
                    == children.tree()[x.drop_first()])
            },
            Atom::MajorNode { minis, children } => {
                &&& x.len() == 1 ==> {
                    &&& nodes.tree().dom().contains(x)
                    &&& nodes.tree()[x] matches Slot::Major { minis: seen } && {
                        &&& seen.len() == minis.entries@.len()
                        &&& forall|j: int|
                            0 <= j < seen.len() ==> (#[trigger] seen[j]) == (
                                minis.entries@[j].0@,
                                Payload {
                                    clock: minis.entries@[j].1.clock@,
                                    value: minis.entries@[j].1.value,
                                },
                            )
                    }
                }
                &&& x.len() > 1 ==> (nodes.tree().dom().contains(x)
                    <==> children.tree().dom().contains(x.drop_first())) && (
                nodes.tree().dom().contains(x) ==> nodes.tree()[x]
                    == children.tree()[x.drop_first()])
            },
        },
        nodes.tree().dom().contains(x) ==> exists|k: int|
            0 <= k < nodes.slots@.len() && (#[trigger] nodes.slots@[k]).0 == x[0],
{
    nodes.sibling(i);
    assert(nodes.tree().dom().contains(x) <==> nodes.slot_at(x) is Some);
    let below = nodes.slots@[i].1.below();
    assert(below.tree().dom().contains(x.drop_first()) <==> below.slot_at(x.drop_first()) is Some);
    if nodes.tree().dom().contains(x) {
        assert(nodes.has(x[0]));
    }
}

/// Identifiers that stand for the same bound have the same numbers, or are both missing.
pub proof fn same_bounds_have_the_same_numbers(a: Option<Identifier>, b: Option<Identifier>)
    ensures
        same_id(a, b) <==> ends(a) == ends(b) && (a is Some <==> b is Some),
        bound(a) == ends(a),
{
}

/// An insert between bounds with the same numbers can be applied as well, where the level below
/// them is wide enough: there is room on the first level that the upper bound leaves open.
pub proof fn equal_bounds_are_accepted<V: Ord + Clone, A: Actor>(s: State<V, A>, op: Op<V, A>)
    requires
        op matches Op::Insert { clock, value, p, q } && {
            let (lo, hi) = (ends(p), ends(q));
            &&& 0 < hi.len() <= 3
            &&& lo.len() <= hi.len()
            &&& forall|i: int| 0 <= i < hi.len() ==> num(lo, i) == #[trigger] hi[i]
            &&& arity(s.root_arity, hi.len() as int) >= 2
            &&& arity(s.root_arity, hi.len() as int + 1) >= 2
        },
    ensures
        accepted(s, op),
{
    if let Op::Insert { clock, value, p, q } = op {
        let (lo, hi) = (ends(p), ends(q));
        let k = if hi.last() > 0 {
            hi.len() as int + 1
        } else {
            hi.len() as int
        };
        room_between_equals_is_below(s.root_arity, lo, hi, k);
    }
}

} // verus!
