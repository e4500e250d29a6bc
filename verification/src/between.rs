//! A new identifier lies between the identifiers that bound it.
use crate::allocation::{
    arity, free, interval, is_free, limit, new_number, passes, room, step_within, together, DEEPEST,
};
use crate::identifier::{path_before, path_before_after_prefix};
use crate::state::State;
use crate::tree::digit;
use vstd::prelude::*;

verus! {

/// `q` can bound an insert after `p` from above: it is the end of the sequence, or it comes
/// after `p`, and not only by zeros at its end, before which there is nothing.
pub open spec fn bounds_above(p: Seq<u64>, q: Seq<u64>) -> bool {
    q.len() == 0 || (path_before(p, q) && exists|i: int|
        0 <= i < q.len() && digit(p, i) != #[trigger] q[i])
}

/// Each number of `p` is below the arity of its level.
pub open spec fn within(root: u64, p: Seq<u64>) -> bool {
    forall|i: int| 0 <= i < p.len() ==> (#[trigger] p[i]) < arity(root, i)
}

/// The levels down to the deepest have the arities that they are meant to have: none is zero,
/// and no bit is lost.
pub open spec fn has_levels(root: u64) -> bool {
    0 < root <= u64::MAX / 16
}

/// What it means that there is room at a depth: a number is free there, and nowhere above.
pub proof fn room_is_first(root: u64, p: Seq<u64>, q: Seq<u64>, from: int, k: int)
    requires
        room(root, p, q, from) == Some(k),
    ensures
        from <= k <= DEEPEST,
        free(root, p, q, k) > 0,
        forall|j: int| from <= j < k ==> #[trigger] free(root, p, q, j) <= 0,
    decreases DEEPEST + 1 - from,
{
    if free(root, p, q, from) <= 0 {
        room_is_first(root, p, q, from + 1, k);
        assert forall|j: int| from <= j < k implies #[trigger] free(root, p, q, j) <= 0 by {
            if j > from {
                assert(from + 1 <= j);
            }
        }
    }
}

/// Where a number is free at some depth, and `p` is not seen to come after `q` before, there
/// is room.
proof fn free_number_is_found(root: u64, p: Seq<u64>, q: Seq<u64>, from: int, k: int)
    requires
        from <= k <= DEEPEST,
        free(root, p, q, k) > 0,
        forall|i: int| from <= i <= k ==> !#[trigger] passes(p, q, i),
    ensures
        room(root, p, q, from) is Some,
    decreases k - from,
{
    assert(!passes(p, q, from));
    if free(root, p, q, from) <= 0 {
        free_number_is_found(root, p, q, from + 1, k);
    }
}

/// The arity is doubled from level to level, and so outgrows the depth.
pub proof fn arity_doubles(root: u64, k: int)
    requires
        has_levels(root),
        0 <= k <= DEEPEST,
    ensures
        k == 0 ==> arity(root, k) == root,
        k > 0 ==> arity(root, k) == 2 * arity(root, k - 1),
        arity(root, k) > k,
{
    assert(root << 0 == root) by (bit_vector);
    assert(root << 1 == 2 * root) by (bit_vector)
        requires
            root <= 0x0fff_ffff_ffff_ffff,
    ;
    assert(root << 2 == 4 * root) by (bit_vector)
        requires
            root <= 0x0fff_ffff_ffff_ffff,
    ;
    assert(root << 3 == 8 * root) by (bit_vector)
        requires
            root <= 0x0fff_ffff_ffff_ffff,
    ;
    assert(root << 4 == 16 * root) by (bit_vector)
        requires
            root <= 0x0fff_ffff_ffff_ffff,
    ;
}

/// The first depth, not less than `k`, at which `p` and `q` have different numbers.
proof fn first_difference(p: Seq<u64>, q: Seq<u64>, k: int) -> (j: int)
    requires
        0 <= k <= q.len(),
        q.len() > 0,
        bounds_above(p, q),
        forall|i: int| 0 <= i < k ==> #[trigger] digit(p, i) == q[i],
    ensures
        k <= j < q.len(),
        digit(p, j) < q[j],
        forall|i: int| 0 <= i < j ==> #[trigger] digit(p, i) == q[i],
    decreases q.len() - k,
{
    if k == q.len() {
        let i = choose|i: int| 0 <= i < q.len() && digit(p, i) != #[trigger] q[i];
        assert(digit(p, i) == q[i]);
        k
    } else if digit(p, k) == q[k] {
        first_difference(p, q, k + 1)
    } else {
        if k < p.len() {
            assert(p.take(k) =~= q.take(k)) by {
                assert forall|i: int| 0 <= i < k implies p[i] == q[i] by {
                    assert(digit(p, i) == q[i]);
                }
            }
            path_before_after_prefix(p, q, k);
            assert(p.skip(k)[0] == p[k]);
            assert(q.skip(k)[0] == q[k]);
        }
        k
    }
}

/// What the first difference of `p` and `q` tells: above it both go together, below they do
/// not, and nowhere does `p` come after `q`.
proof fn around_difference(root: u64, p: Seq<u64>, q: Seq<u64>, j: int)
    requires
        0 <= j < q.len(),
        digit(p, j) < q[j],
        forall|i: int| 0 <= i < j ==> #[trigger] digit(p, i) == q[i],
    ensures
        forall|i: int| 0 <= i ==> (#[trigger] together(p, q, i) <==> i <= j),
        forall|i: int| 0 <= i < j ==> #[trigger] free(root, p, q, i) < 0,
        forall|i: int| 0 <= i ==> !#[trigger] passes(p, q, i),
{
    assert forall|i: int| 0 <= i implies (#[trigger] together(p, q, i) <==> i <= j) by {
        assert(digit(p, j) != digit(q, j));
        if i <= j {
            assert forall|h: int| 0 <= h < i implies #[trigger] digit(p, h) == digit(q, h) by {}
        }
    }
    assert forall|i: int| 0 <= i < j implies #[trigger] free(root, p, q, i) < 0 by {
        assert(together(p, q, i));
        assert(digit(p, i) == q[i]);
    }
    assert forall|i: int| 0 <= i implies !#[trigger] passes(p, q, i) by {
        assert(together(p, q, i) <==> i <= j);
        if i < j {
            assert(digit(p, i) == q[i]);
        }
    }
}

/// Between bounds there is room, unless each level down to the deepest is full. If the bounds
/// do not reach down to the deepest level, there always is.
pub proof fn room_is_there(root: u64, p: Seq<u64>, q: Seq<u64>)
    requires
        has_levels(root),
        bounds_above(p, q),
    ensures
        room(root, p, q, 0) is None <==> forall|k: int|
            0 <= k <= DEEPEST ==> #[trigger] free(root, p, q, k) <= 0,
        p.len() <= DEEPEST && q.len() <= DEEPEST ==> room(root, p, q, 0) is Some,
{
    let j = if q.len() > 0 {
        let j = first_difference(p, q, 0);
        around_difference(root, p, q, j);
        j
    } else {
        0
    };
    assert forall|i: int| 0 <= i implies !#[trigger] passes(p, q, i) by {}
    if exists|k: int| 0 <= k <= DEEPEST && #[trigger] free(root, p, q, k) > 0 {
        let k = choose|k: int| 0 <= k <= DEEPEST && #[trigger] free(root, p, q, k) > 0;
        free_number_is_found(root, p, q, 0, k);
    }
    if room(root, p, q, 0) is Some {
        room_is_first(root, p, q, 0, room(root, p, q, 0)->0);
    }
    if p.len() <= DEEPEST && q.len() <= DEEPEST {
        let k = if p.len() > j + 1 {
            p.len() as int
        } else {
            j + 1
        };
        assert(k <= DEEPEST);
        arity_doubles(root, k);
        assert(!together(p, q, k));
        assert(free(root, p, q, k) > 0);
    }
}

/// There is no room between `p` and a `q` that comes before it.
pub proof fn no_room_is_there(root: u64, p: Seq<u64>, q: Seq<u64>)
    requires
        q.len() > 0,
        path_before(q, p),
    ensures
        room(root, p, q, 0) is None,
{
    no_room_from(root, p, q, 0);
}

proof fn no_room_from(root: u64, p: Seq<u64>, q: Seq<u64>, k: int)
    requires
        0 <= k <= q.len(),
        q.len() > 0,
        together(p, q, k),
        path_before(q, p),
    ensures
        room(root, p, q, k) is None,
    decreases q.len() - k,
{
    let m = if k < p.len() {
        k
    } else {
        p.len() as int
    };
    assert(q.take(m) =~= p.take(m)) by {
        assert forall|i: int| 0 <= i < m implies q[i] == p[i] by {
            assert(digit(p, i) == digit(q, i));
        }
    }
    path_before_after_prefix(q, p, m);
    if k >= p.len() {
        // p does not go on, so that q cannot come before it.
        assert(p.skip(m).len() == 0);
    } else if k < q.len() {
        assert(q.skip(k)[0] == q[k]);
        assert(p.skip(k)[0] == p[k]);
        if p[k] == q[k] {
            assert forall|i: int| 0 <= i < k + 1 implies #[trigger] digit(p, i) == digit(
                q,
                i,
            ) by {}
            no_room_from(root, p, q, k + 1);
        }
    }
}

/// The number that is chosen where there is room is one of the free numbers.
pub proof fn chosen_number_is_free(
    root: u64,
    boundary: u8,
    p: Seq<u64>,
    q: Seq<u64>,
    k: int,
    up: bool,
)
    requires
        0 <= k,
        free(root, p, q, k) > 0,
    ensures
        ({
            let step = step_within(root, boundary, p, q, k, up);
            &&& 0 <= step <= boundary
            &&& is_free(root, p, q, k, new_number(root, p, q, k, step, up))
        }),
{
    assert(interval(root, p, q, k) > 0);
}

impl<V, A> State<V, A> {
    /// The new identifier follows the path of `p` down to its own depth, where it takes a
    /// free number.
    proof fn new_id_follows(self, p: Seq<u64>, q: Seq<u64>, sides: Seq<bool>)
        requires
            self.can_insert(p, q),
        ensures
            ({
                let k = self.depth(p, q)->0;
                let id = self.new_id(p, q, sides);
                &&& 0 <= k <= DEEPEST
                &&& free(self.root_arity, p, q, k) > 0
                &&& id.len() == k + 1
                &&& digit(p, k) < id[k] < limit(self.root_arity, p, q, k)
                &&& forall|i: int| 0 <= i < k ==> #[trigger] id[i] == digit(p, i)
            }),
    {
        let k = self.depth(p, q)->0;
        room_is_first(self.root_arity, p, q, 0, k);
        chosen_number_is_free(self.root_arity, self.boundary, p, q, k, sides[k]);
    }

    /// A new identifier lies strictly between its bounds, on whichever side it is put, and
    /// can bound further inserts: after its lower bound, and before its upper one.
    pub proof fn new_id_lies_between(self, p: Seq<u64>, q: Seq<u64>, sides: Seq<bool>)
        requires
            self.can_insert(p, q),
            bounds_above(p, q),
        ensures
            path_before(p, self.new_id(p, q, sides)),
            q.len() > 0 ==> path_before(self.new_id(p, q, sides), q),
            bounds_above(p, self.new_id(p, q, sides)),
            bounds_above(self.new_id(p, q, sides), q),
    {
        let k = self.depth(p, q)->0;
        let id = self.new_id(p, q, sides);
        self.new_id_follows(p, q, sides);
        let m = if k < p.len() {
            k
        } else {
            p.len() as int
        };
        assert(p.take(m) =~= id.take(m)) by {
            assert forall|i: int| 0 <= i < m implies p[i] == id[i] by {
                assert(id[i] == digit(p, i));
            }
        }
        path_before_after_prefix(p, id, m);
        assert(digit(p, k) != id[k]);
        if k < p.len() {
            assert(p.skip(k)[0] == p[k]);
            assert(id.skip(k)[0] == id[k]);
        } else {
            assert(p.skip(m).len() == 0);
            assert(id.skip(m).len() > 0);
        }
        if q.len() > 0 {
            let j = first_difference(p, q, 0);
            around_difference(self.root_arity, p, q, j);
            assert(j <= k) by {
                if k < j {
                    assert(free(self.root_arity, p, q, k) < 0);
                }
            }
            assert(id.take(j) =~= q.take(j)) by {
                assert forall|i: int| 0 <= i < j implies id[i] == q[i] by {
                    assert(id[i] == digit(p, i));
                    assert(digit(p, i) == q[i]);
                }
            }
            path_before_after_prefix(id, q, j);
            assert(id.skip(j)[0] == id[j]);
            assert(q.skip(j)[0] == q[j]);
            if k == j {
                assert(together(p, q, j));
            } else {
                assert(id[j] == digit(p, j));
            }
            assert(digit(id, j) != q[j]);
        }
    }

    /// A new identifier does not end with zero.
    pub proof fn new_id_ends_above_zero(self, p: Seq<u64>, q: Seq<u64>, sides: Seq<bool>)
        requires
            self.can_insert(p, q),
        ensures
            self.new_id(p, q, sides).len() > 0,
            self.new_id(p, q, sides).last() > 0,
    {
        self.new_id_follows(p, q, sides);
    }

    /// If the numbers of the bounds are below the arities of their levels, so are those of
    /// the new identifier.
    pub proof fn new_id_stays_within(self, p: Seq<u64>, q: Seq<u64>, sides: Seq<bool>)
        requires
            has_levels(self.root_arity),
            self.can_insert(p, q),
            within(self.root_arity, p),
            within(self.root_arity, q),
        ensures
            within(self.root_arity, self.new_id(p, q, sides)),
    {
        let root = self.root_arity;
        let k = self.depth(p, q)->0;
        let id = self.new_id(p, q, sides);
        self.new_id_follows(p, q, sides);
        assert forall|i: int| 0 <= i < id.len() implies (#[trigger] id[i]) < arity(root, i) by {
            arity_doubles(root, i);
            if i < k {
                assert(id[i] == digit(p, i));
            } else if k < q.len() {
                assert(q[k] < arity(root, k));
            }
        }
    }

    /// The number of a new identifier is a number of 64 bits.
    pub proof fn chosen_number_fits(self, p: Seq<u64>, q: Seq<u64>, up: bool)
        requires
            self.can_insert(p, q),
        ensures
            0 < self.number(p, q, up) <= u64::MAX,
    {
        let k = self.depth(p, q)->0;
        room_is_first(self.root_arity, p, q, 0, k);
        chosen_number_is_free(self.root_arity, self.boundary, p, q, k, up);
    }
}

} // verus!
