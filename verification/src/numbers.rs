//! Which identifiers are allocated: how deep they lead, and how far their numbers are from
//! those of their bounds.
use crate::allocation::{
    arity, free, interval, is_free, new_number, passes, reach, room, step_within, together,
};
use crate::between::{chosen_number_is_free, room_is_first};
use crate::identifier::{path_before, path_before_after_prefix};
use crate::state::State;
use crate::tree::{digit, route};
use vstd::prelude::*;

verus! {

/// The number of a path at a depth; where it has ended, zero stands for it.
pub open spec fn num(p: Seq<u64>, k: int) -> int {
    if 0 <= k < p.len() {
        p[k] as int
    } else {
        0
    }
}

/// `q` is there, and has the numbers of `p` above depth `k`.
pub open spec fn along(p: Seq<u64>, q: Seq<u64>, k: int) -> bool {
    q.len() > 0 && forall|i: int| 0 <= i < k ==> #[trigger] num(p, i) == num(q, i)
}

/// `x` leaves the path of `p` at its last number, which is a number of its level.
pub open spec fn branches_off(root: u64, p: Seq<u64>, x: Seq<u64>) -> bool {
    &&& x.len() > 0
    &&& 0 < x.last() < arity(root, x.len() - 1)
    &&& forall|i: int| 0 <= i < x.len() - 1 ==> (#[trigger] x[i]) == num(p, i)
}

/// The lesser of two numbers.
pub open spec fn lesser(a: int, b: int) -> int {
    if a <= b {
        a
    } else {
        b
    }
}

proof fn digits_are_numbers(p: Seq<u64>, q: Seq<u64>, k: int)
    ensures
        forall|i: int| #[trigger] digit(p, i) == num(p, i),
        together(p, q, k) == along(p, q, k),
{
    assert forall|i: int| #[trigger] digit(p, i) == num(p, i) by {}
    if together(p, q, k) {
        assert forall|i: int| 0 <= i < k implies #[trigger] num(p, i) == num(q, i) by {
            assert(digit(p, i) == digit(q, i));
        }
    }
    if along(p, q, k) {
        assert forall|i: int| 0 <= i < k implies #[trigger] digit(p, i) == digit(q, i) by {
            assert(num(p, i) == num(q, i));
        }
    }
}

/// What is told of paths number by number: whether they go together, and whether one is seen
/// to come after the other.
pub proof fn paths_go_together_number_by_number(p: Seq<u64>, q: Seq<u64>, k: int)
    requires
        0 <= k,
    ensures
        digit(p, k) == num(p, k),
        together(p, q, k) <==> along(p, q, k),
        passes(p, q, k) <==> along(p, q, k) && (num(p, k) > num(q, k) && k < q.len() || q.len()
            <= k < p.len()),
        k <= p.len() ==> route(p, 0, k) == p.take(k),
        route(p, 0, k).len() == k,
        forall|i: int| 0 <= i < k ==> #[trigger] route(p, 0, k)[i] == num(p, i),
{
    digits_are_numbers(p, q, k);
    if k <= p.len() {
        assert(route(p, 0, k) =~= p.take(k));
    }
}

/// The arity at the top is that of the root, and it is doubled from level to level, as far as
/// 64 bits can hold it.
pub proof fn arity_is_doubled(root: u64, k: u64)
    requires
        k < 63,
    ensures
        arity(root, 0) == root,
        arity(root, k + 1) == if arity(root, k as int) < 0x8000_0000_0000_0000 {
            2 * arity(root, k as int)
        } else {
            2 * arity(root, k as int) - 0x1_0000_0000_0000_0000
        },
{
    let next = (k + 1) as u64;
    assert(root << 0 == root) by (bit_vector);
    assert(root << next == if (root << k) < 0x8000_0000_0000_0000 {
        2 * (root << k)
    } else {
        2 * (root << k) - 0x1_0000_0000_0000_0000
    }) by (bit_vector)
        requires
            k < 63,
            next == k + 1,
    ;
}

/// How many identifiers of one depth lie between two paths. On a path that both share, these
/// are the numbers between theirs. Else they are the rest of the level on the path of `p`, and
/// with it, below the top, what comes before `q` on its own level: no more if it has just
/// ended, and a whole level if it ended further above, or with zero, or is not there.
pub proof fn interval_counts_numbers(root: u64, p: Seq<u64>, q: Seq<u64>, k: int)
    requires
        0 <= k,
    ensures
        k < q.len() && along(p, q, k) ==> interval(root, p, q, k) == q[k] - num(p, k) - 1,
        k == 0 && q.len() == 0 ==> interval(root, p, q, k) == arity(root, 0) - num(p, 0) - 1,
        k > 0 && !along(p, q, k) ==> interval(root, p, q, k) == lesser(
            u64::MAX as int,
            arity(root, k) - num(p, k) - 1 + if k < q.len() {
                q[k] as int
            } else if k == q.len() && q.last() > 0 {
                0
            } else {
                arity(root, k) as int
            },
        ),
        k >= q.len() && along(p, q, k) ==> interval(root, p, q, k) == if k == q.len() && q.last()
            > 0 {
            -num(p, k) - 1
        } else {
            arity(root, k) - num(p, k) - 1
        },
{
    digits_are_numbers(p, q, k);
}

/// A number on the path of `p` is free if it comes after that of `p` and before that of a `q`
/// on the same path; if `q` has none there, before the end of the level, unless `q` has just
/// ended. So many are free as lie between.
pub proof fn free_numbers_lie_between(root: u64, p: Seq<u64>, q: Seq<u64>, k: int, n: int)
    requires
        0 <= k,
    ensures
        k < q.len() ==> reach(root, q, k) == q[k],
        k >= q.len() ==> reach(root, q, k) == if k == q.len() && k > 0 && q.last() > 0 {
            0
        } else {
            arity(root, k)
        },
        is_free(root, p, q, k, n) <==> num(p, k) < n && n < if k < q.len() && along(p, q, k) {
            q[k] as int
        } else if k == q.len() && along(p, q, k) && q.last() > 0 {
            0
        } else {
            arity(root, k) as int
        },
        free(root, p, q, k) > 0 <==> is_free(root, p, q, k, num(p, k) + 1),
        free(root, p, q, k) > 0 ==> is_free(root, p, q, k, num(p, k) + free(root, p, q, k))
            && !is_free(root, p, q, k, num(p, k) + free(root, p, q, k) + 1),
{
    digits_are_numbers(p, q, k);
}

/// A step is the boundary, or the interval if that is less. It is cut down only where half of
/// it leads to a number that is not free, and then no more than it must be.
pub proof fn steps_are_as_wide_as_they_can_be(
    root: u64,
    boundary: u8,
    p: Seq<u64>,
    q: Seq<u64>,
    k: int,
    up: bool,
)
    requires
        0 <= k,
        free(root, p, q, k) > 0,
    ensures
        ({
            let step = step_within(root, boundary, p, q, k, up);
            let wide = lesser(boundary as int, interval(root, p, q, k));
            &&& 0 <= step <= wide
            &&& is_free(root, p, q, k, new_number(root, p, q, k, step, up))
            &&& is_free(root, p, q, k, new_number(root, p, q, k, wide, up)) ==> step / 2 == wide / 2
            &&& step < wide ==> step / 2 == free(root, p, q, k) - 1
        }),
{
    chosen_number_is_free(root, boundary, p, q, k, up);
}

/// Counted up, a number is one and half a step after that of `p`. Counted down from a `q` on
/// the same path, it is half a step before that of `q`, and always before it. Counted down
/// where there is no number of `q`, it is half a step before the last of the level.
pub proof fn numbers_are_half_a_step_away(
    root: u64,
    p: Seq<u64>,
    q: Seq<u64>,
    k: int,
    step: int,
)
    requires
        0 <= k,
        0 <= step,
    ensures
        new_number(root, p, q, k, step, true) - num(p, k) - 1 == step / 2,
        k < q.len() && along(p, q, k) && step >= 2 ==> q[k] - new_number(
            root,
            p,
            q,
            k,
            step,
            false,
        ) == step / 2,
        k < q.len() && along(p, q, k) && step < 2 ==> q[k] - new_number(root, p, q, k, step, false)
            == 1,
        k >= q.len() ==> arity(root, k) - 1 - new_number(root, p, q, k, step, false) == step / 2,
        k < q.len() && !along(p, q, k) ==> {
            let n = q[k] - step / 2;
            if num(p, k) < n && n < arity(root, k) {
                new_number(root, p, q, k, step, false) == n
            } else {
                arity(root, k) - 1 - new_number(root, p, q, k, step, false) == step / 2
            }
        },
{
    digits_are_numbers(p, q, k);
}

/// Where some identifier branches off from the path of `p` between `p` and `q`, and is not
/// itself on the way to `q`, there is room, and the new identifier is no longer than that one.
pub proof fn room_is_the_first_there_is(root: u64, p: Seq<u64>, q: Seq<u64>, x: Seq<u64>)
    requires
        x.len() <= 5,
        branches_off(root, p, x),
        path_before(p, x),
        q.len() > 0 ==> path_before(x, q),
        x.len() <= q.len() ==> x != q.take(x.len() as int),
    ensures
        room(root, p, q, 0) is Some,
        0 <= room(root, p, q, 0)->0 < x.len(),
{
    let k = x.len() - 1;
    // The number of x is free.
    assert(x[k] > num(p, k)) by {
        let m = if k < p.len() {
            k
        } else {
            p.len() as int
        };
        assert(p.take(m) =~= x.take(m)) by {
            assert forall|i: int| 0 <= i < m implies p[i] == x[i] by {
                assert(x[i] == num(p, i));
            }
        }
        path_before_after_prefix(p, x, m);
        if k < p.len() {
            assert(p.skip(k)[0] == p[k] && x.skip(k)[0] == x[k]);
            assert(x.skip(k).drop_first().len() == 0);
            reveal_with_fuel(path_before, 2);
        }
    }
    digits_are_numbers(p, q, k);
    if together(p, q, k) {
        assert(k < q.len() && x[k] < q[k]) by {
            let m = if k < q.len() {
                k
            } else {
                q.len() as int
            };
            assert(x.take(m) =~= q.take(m)) by {
                assert forall|i: int| 0 <= i < m implies x[i] == q[i] by {
                    assert(x[i] == num(p, i));
                    assert(num(p, i) == num(q, i));
                }
            }
            path_before_after_prefix(x, q, m);
            if k >= q.len() {
                assert(q.skip(m).len() == 0);
            } else {
                assert(x.skip(k)[0] == x[k] && q.skip(k)[0] == q[k]);
                if x[k] == q[k] {
                    assert(x =~= q.take(x.len() as int)) by {
                        assert forall|i: int| 0 <= i < x.len() implies x[i] == q[i] by {
                            if i < k {
                                assert(x.take(m)[i] == q.take(m)[i]);
                            }
                        }
                    }
                }
            }
        }
    }
    assert(free(root, p, q, k) > 0);
    nothing_passes_above(root, p, q, x, 0);
}

/// On the way down to the depth of `x`, `p` is not seen to come after `q`.
proof fn nothing_passes_above(root: u64, p: Seq<u64>, q: Seq<u64>, x: Seq<u64>, from: int)
    requires
        0 <= from < x.len() <= 5,
        branches_off(root, p, x),
        q.len() > 0 ==> path_before(x, q),
        x.last() > num(p, x.len() - 1),
        free(root, p, q, x.len() - 1) > 0,
    ensures
        room(root, p, q, from) is Some,
        from <= room(root, p, q, from)->0 < x.len(),
    decreases x.len() - from,
{
    digits_are_numbers(p, q, from);
    let k = x.len() - 1;
    assert(!passes(p, q, from)) by {
        if passes(p, q, from) {
            let m = if from < q.len() {
                from
            } else {
                q.len() as int
            };
            assert(x.take(m) =~= q.take(m)) by {
                assert forall|i: int| 0 <= i < m implies x[i] == q[i] by {
                    assert(x[i] == num(p, i));
                    assert(num(p, i) == num(q, i));
                }
            }
            path_before_after_prefix(x, q, m);
            if from < q.len() {
                assert(x.skip(from)[0] == x[from] && q.skip(from)[0] == q[from]);
                if from < k {
                    assert(x[from] == num(p, from));
                }
            } else {
                assert(q.skip(m).len() == 0);
            }
        }
    }
    if free(root, p, q, from) <= 0 {
        nothing_passes_above(root, p, q, x, from + 1);
    }
}

/// Between paths with the same numbers there is room at the first level that the upper one
/// leaves open: the second below its last number, or the first if that is zero.
pub proof fn room_between_equals_is_below(root: u64, p: Seq<u64>, q: Seq<u64>, k: int)
    requires
        0 < q.len(),
        p.len() <= q.len(),
        forall|i: int| 0 <= i < q.len() ==> num(p, i) == #[trigger] q[i],
        k == q.len() + if q.last() > 0 {
            1int
        } else {
            0int
        },
        k <= 4,
        arity(root, k) >= 2,
    ensures
        room(root, p, q, 0) == Some(k),
{
    assert forall|i: int| 0 <= i implies together(p, q, i) by {
        assert forall|h: int| 0 <= h < i implies #[trigger] digit(p, h) == digit(q, h) by {
            if h < q.len() {
                assert(num(p, h) == q[h]);
            }
        }
    }
    assert(num(p, 0) == q[0]);
    equals_have_no_room(root, p, q, k, 0);
}

proof fn equals_have_no_room(root: u64, p: Seq<u64>, q: Seq<u64>, k: int, from: int)
    requires
        0 < q.len(),
        p.len() <= q.len(),
        forall|i: int| 0 <= i < q.len() ==> num(p, i) == #[trigger] q[i],
        forall|i: int| 0 <= i ==> together(p, q, i),
        k == q.len() + if q.last() > 0 {
            1int
        } else {
            0int
        },
        0 <= from <= k <= 4,
        arity(root, k) >= 2,
    ensures
        room(root, p, q, from) == Some(k),
    decreases k - from,
{
    assert(together(p, q, from));
    if from < q.len() {
        assert(num(p, from) == q[from]);
    }
    if from < k {
        equals_have_no_room(root, p, q, k, from + 1);
    }
}

impl<V, A> State<V, A> {
    /// A new identifier has the numbers of the path of `p` above its last one, and branches
    /// off there to a number that is greater than that of `p`.
    pub proof fn new_id_branches_off(self, p: Seq<u64>, q: Seq<u64>, sides: Seq<bool>)
        requires
            self.can_insert(p, q),
        ensures
            ({
                let id = self.new_id(p, q, sides);
                let k = id.len() - 1;
                &&& 0 <= k <= 4
                &&& self.depth(p, q) == Some(k)
                &&& forall|i: int| 0 <= i < k ==> (#[trigger] id[i]) == num(p, i)
                &&& id[k] > num(p, k)
                &&& id[k] < arity(self.root_arity, k) || (along(p, q, k) && k < q.len() && id[k]
                    < q[k])
            }),
    {
        let k = self.depth(p, q)->0;
        room_is_first(self.root_arity, p, q, 0, k);
        chosen_number_is_free(
            self.root_arity,
            self.boundary,
            p,
            q,
            k,
            sides[k],
        );
        digits_are_numbers(p, q, k);
        let id = self.new_id(p, q, sides);
        assert forall|i: int| 0 <= i < k implies (#[trigger] id[i]) == num(p, i) by {
            assert(id[i] == digit(p, i));
        }
    }

    /// A new number stays within the boundary of the side that it is counted from: at most one
    /// and half the boundary after `p`; at most half the boundary, or one, before a `q` on the
    /// same path; at most half the boundary before the end of the level where there is no `q`.
    pub proof fn new_number_keeps_boundary(self, p: Seq<u64>, q: Seq<u64>, sides: Seq<bool>)
        requires
            self.can_insert(p, q),
        ensures
            ({
                let id = self.new_id(p, q, sides);
                let k = id.len() - 1;
                let half = self.boundary as int / 2;
                &&& sides[k] ==> 0 < id[k] - num(p, k) <= 1 + half
                &&& !sides[k] && along(p, q, k) && k < q.len() ==> 0 < q[k] - id[k] <= if half > 1 {
                    half
                } else {
                    1
                }
                &&& !sides[k] && k >= q.len() ==> 0 <= arity(self.root_arity, k) - 1 - id[k]
                    <= half
                &&& !sides[k] && !along(p, q, k) && k < q.len() ==> 0 <= q[k] - id[k] <= half || 0
                    <= arity(self.root_arity, k) - 1 - id[k] <= half
            }),
    {
        let k = self.depth(p, q)->0;
        let up = sides[k];
        room_is_first(self.root_arity, p, q, 0, k);
        chosen_number_is_free(self.root_arity, self.boundary, p, q, k, up);
        digits_are_numbers(p, q, k);
        self.new_id_branches_off(p, q, sides);
    }

    /// Where `q` is on the path of `p`, a new number is half the boundary away from where it
    /// is counted from, or half the interval if that is less.
    pub proof fn new_number_between_numbers(self, p: Seq<u64>, q: Seq<u64>, sides: Seq<bool>)
        requires
            self.can_insert(p, q),
            along(p, q, self.depth(p, q)->0),
            self.depth(p, q)->0 < q.len(),
        ensures
            ({
                let id = self.new_id(p, q, sides);
                let k = id.len() - 1;
                let half = lesser(self.boundary as int, q[k] - num(p, k) - 1) / 2;
                &&& sides[k] ==> id[k] - num(p, k) - 1 == half
                &&& !sides[k] ==> q[k] - id[k] == if half >= 1 {
                    half
                } else {
                    1
                }
            }),
    {
        let k = self.depth(p, q)->0;
        let up = sides[k];
        room_is_first(self.root_arity, p, q, 0, k);
        chosen_number_is_free(self.root_arity, self.boundary, p, q, k, up);
        digits_are_numbers(p, q, k);
        self.new_id_branches_off(p, q, sides);
    }

    /// Where `q` is not on the path of `p`, a new number is half the boundary away from where
    /// it is counted from, or half the interval if that is less, as far as the level goes. It
    /// is counted down from `q` if that leads past `p` on the level, else from the end of the
    /// level.
    pub proof fn new_number_on_its_own_level(self, p: Seq<u64>, q: Seq<u64>, sides: Seq<bool>)
        requires
            self.can_insert(p, q),
            !(along(p, q, self.depth(p, q)->0) && self.depth(p, q)->0 < q.len()),
        ensures
            ({
                let id = self.new_id(p, q, sides);
                let k = id.len() - 1;
                let end = arity(self.root_arity, k) as int;
                let rest = end - num(p, k) - 1;
                let beyond = if k == 0 || along(p, q, k) {
                    0
                } else if k < q.len() {
                    q[k] as int
                } else if k == q.len() && q.last() > 0 {
                    0
                } else {
                    end
                };
                let wide = lesser(self.boundary as int, rest + beyond) / 2;
                let half = lesser(wide, rest - 1);
                &&& rest >= 1
                &&& sides[k] ==> id[k] - num(p, k) - 1 == half
                &&& !sides[k] && k >= q.len() ==> end - 1 - id[k] == half
                &&& !sides[k] && k < q.len() && num(p, k) < q[k] - wide < end ==> q[k] - id[k]
                    == wide
                &&& !sides[k] && k < q.len() && !(num(p, k) < q[k] - wide < end) ==> id[k] == if num(
                    p,
                    k,
                ) < q[k] - half < end {
                    q[k] - half
                } else {
                    end - 1 - half
                }
            }),
    {
        let k = self.depth(p, q)->0;
        let up = sides[k];
        room_is_first(self.root_arity, p, q, 0, k);
        chosen_number_is_free(self.root_arity, self.boundary, p, q, k, up);
        digits_are_numbers(p, q, k);
        self.new_id_branches_off(p, q, sides);
    }
}

} // verus!
