//! What holds of vector clocks.
use crate::vclock::{applied, causality, count, covers, forgotten, merged};
use vstd::prelude::*;

verus! {

/// No actor is listed at version zero.
pub open spec fn no_zero<A>(m: Map<A, u64>) -> bool {
    forall|a: A| #[trigger] m.contains_key(a) ==> m[a] > 0
}

/// Clocks merge to the same clock in either order.
pub proof fn merging_commutes<A>(m: Map<A, u64>, n: Map<A, u64>)
    requires
        no_zero(m),
        no_zero(n),
    ensures
        merged(m, n) == merged(n, m),
{
    assert(merged(m, n) =~= merged(n, m));
}

/// It does not matter which of several clocks are merged first.
pub proof fn merging_is_associative<A>(m: Map<A, u64>, n: Map<A, u64>, o: Map<A, u64>)
    ensures
        merged(merged(m, n), o) == merged(m, merged(n, o)),
{
    assert(merged(merged(m, n), o) =~= merged(m, merged(n, o)));
}

/// Merging a clock once more changes nothing.
pub proof fn merging_is_idempotent<A>(m: Map<A, u64>, n: Map<A, u64>)
    ensures
        merged(m, m) == m,
        merged(merged(m, n), n) == merged(m, n),
{
    assert(merged(m, m) =~= m);
    assert(merged(merged(m, n), n) =~= merged(m, n));
}

/// A merged clock has seen what both clocks have, and nothing that neither has: a clock
/// that has seen both has seen it.
pub proof fn merged_is_least<A>(m: Map<A, u64>, n: Map<A, u64>, o: Map<A, u64>)
    ensures
        covers(merged(m, n), m),
        covers(merged(m, n), n),
        covers(o, m) && covers(o, n) ==> covers(o, merged(m, n)),
{
    if covers(o, m) && covers(o, n) {
        assert forall|a: A| #[trigger] merged(m, n).contains_key(a) implies count(o, a)
            >= merged(m, n)[a] by {
            if m.contains_key(a) {
                assert(count(o, a) >= m[a]);
            }
            if n.contains_key(a) {
                assert(count(o, a) >= n[a]);
            }
        }
    }
}

/// Of two clocks, one is less if and only if the other is greater; and concurrency goes both
/// ways.
pub proof fn causality_is_mutual<A>(m: Map<A, u64>, n: Map<A, u64>)
    requires
        no_zero(m),
        no_zero(n),
    ensures
        causality(m, n) is Less <==> causality(n, m) is Greater,
        causality(m, n) is Equal <==> causality(n, m) is Equal,
        causality(m, n) is Concurrent <==> causality(n, m) is Concurrent,
{
    if covers(m, n) && covers(n, m) {
        assert forall|a: A| m.contains_key(a) == n.contains_key(a) && (m.contains_key(a) ==> m[a]
            == n[a]) by {
            if m.contains_key(a) {
                assert(count(n, a) >= m[a]);
            }
            if n.contains_key(a) {
                assert(count(m, a) >= n[a]);
            }
        }
        assert(m =~= n);
    }
}

/// A clock that has seen the next operation of an actor is later than before.
pub proof fn next_operation_is_later<A>(m: Map<A, u64>, a: A)
    requires
        count(m, a) < u64::MAX,
    ensures
        causality(m, applied(m, a, (count(m, a) + 1) as u64)) is Less,
{
    let n = applied(m, a, (count(m, a) + 1) as u64);
    assert(n.contains_key(a) && n[a] == count(m, a) + 1);
    assert(count(m, a) < n[a]);
    assert(!covers(m, n));
    assert(covers(n, m));
}

/// A clock that forgets itself is empty, and one that forgets nothing stays as it is.
pub proof fn forgetting_extremes<A>(m: Map<A, u64>)
    ensures
        forgotten(m, m) == Map::<A, u64>::empty(),
        forgotten(m, Map::empty()) == m,
{
    assert(forgotten(m, m) =~= Map::<A, u64>::empty());
    assert(forgotten(m, Map::empty()) =~= m);
}

/// To forget twice is to forget once.
pub proof fn forgetting_is_idempotent<A>(m: Map<A, u64>, n: Map<A, u64>)
    ensures
        forgotten(forgotten(m, n), n) == forgotten(m, n),
{
    assert(forgotten(forgotten(m, n), n) =~= forgotten(m, n));
}

/// How many operations of `a` a clock has seen.
pub open spec fn version<A>(m: Map<A, u64>, a: A) -> int {
    if m.dom().contains(a) {
        m[a] as int
    } else {
        0
    }
}

/// The version of an actor is what the clock lists for it, or zero.
pub proof fn counts_are_versions<A>(m: Map<A, u64>, a: A)
    ensures
        count(m, a) == version(m, a),
{
}

/// A clock has seen all that another has if and only if it has seen of each actor at least as
/// many operations.
pub proof fn covering_goes_by_versions<A>(m: Map<A, u64>, n: Map<A, u64>)
    ensures
        covers(m, n) <==> forall|a: A| #[trigger] version(n, a) <= version(m, a),
{
    if covers(m, n) {
        assert forall|a: A| #[trigger] version(n, a) <= version(m, a) by {
            if n.contains_key(a) {
                assert(count(m, a) >= n[a]);
            }
        }
    }
    if forall|a: A| #[trigger] version(n, a) <= version(m, a) {
        assert forall|a: A| #[trigger] n.contains_key(a) implies count(m, a) >= n[a] by {
            assert(version(n, a) <= version(m, a));
        }
    }
}

/// Clocks are concurrent if and only if each has seen something that the other has not. If
/// only one has, that one is greater; clocks that are equal are the same clock.
pub proof fn causality_goes_by_versions<A>(m: Map<A, u64>, n: Map<A, u64>)
    ensures
        causality(m, n) is Concurrent <==> {
            &&& exists|a: A| #[trigger] version(m, a) > version(n, a)
            &&& exists|a: A| #[trigger] version(n, a) > version(m, a)
        },
        causality(m, n) is Concurrent <==> !covers(m, n) && !covers(n, m),
        causality(m, n) is Less <==> {
            &&& forall|a: A| #[trigger] version(m, a) <= version(n, a)
            &&& exists|a: A| #[trigger] version(n, a) > version(m, a)
        },
        causality(m, n) is Greater <==> m != n && forall|a: A| #[trigger]
            version(n, a) <= version(m, a),
        causality(m, n) is Equal <==> m == n,
{
    covering_goes_by_versions(m, n);
    covering_goes_by_versions(n, m);
    if m == n {
        assert(covers(m, n));
    }
    if exists|a: A| #[trigger] version(m, a) > version(n, a) {
        let a = choose|a: A| #[trigger] version(m, a) > version(n, a);
        assert(!covers(n, m));
    }
    if exists|a: A| #[trigger] version(n, a) > version(m, a) {
        let a = choose|a: A| #[trigger] version(n, a) > version(m, a);
        assert(!covers(m, n));
    }
}

/// A merged clock has each actor at the later of its two versions, and lists no other actors
/// than both clocks do.
pub proof fn merging_takes_the_later<A>(m: Map<A, u64>, n: Map<A, u64>, a: A)
    ensures
        version(merged(m, n), a) >= version(m, a),
        version(merged(m, n), a) >= version(n, a),
        version(merged(m, n), a) == version(m, a) || version(merged(m, n), a) == version(n, a),
        merged(m, n).dom().contains(a) <==> m.dom().contains(a) || version(n, a) > 0,
{
}

/// Seeing one operation changes what is known of its actor only, and only if it is news.
pub proof fn applying_raises_one_version<A>(m: Map<A, u64>, a: A, n: u64, b: A)
    ensures
        b != a ==> version(applied(m, a, n), b) == version(m, b),
        b != a ==> (applied(m, a, n).dom().contains(b) <==> m.dom().contains(b)),
        version(applied(m, a, n), a) >= n,
        version(applied(m, a, n), a) == n || version(applied(m, a, n), a) == version(m, a),
        version(m, a) >= n ==> applied(m, a, n) == m,
{
}

/// What is forgotten of a clock are the actors that the other clock lists at the same version
/// or a later one; the others stay as they are.
pub proof fn forgetting_goes_by_versions<A>(m: Map<A, u64>, n: Map<A, u64>, a: A)
    ensures
        m.dom().contains(a) && n.dom().contains(a) && n[a] >= m[a] ==> !forgotten(
            m,
            n,
        ).dom().contains(a),
        m.dom().contains(a) && !(n.dom().contains(a) && n[a] >= m[a]) ==> forgotten(
            m,
            n,
        ).dom().contains(a) && forgotten(m, n)[a] == m[a],
        !m.dom().contains(a) ==> !forgotten(m, n).dom().contains(a),
{
}

} // verus!
