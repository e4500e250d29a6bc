//! Where a new identifier goes: at which depth there is room between two identifiers, and
//! which number it takes there.
use crate::identifier::Identifier;
use crate::tree::digit;
use vstd::prelude::*;

verus! {

/// The deepest level at which room is looked for.
pub const DEEPEST: usize = 4;

/// The arity of the tree at depth `k`: that of the root, doubled at each level. Bits beyond
/// the sixty-fourth are lost.
pub open spec fn arity(root: u64, k: int) -> u64 {
    root << (k as u64)
}

/// `p` and `q` have the same path down to depth `k`. The end of the sequence, which has the
/// empty path, shares none.
pub open spec fn together(p: Seq<u64>, q: Seq<u64>, k: int) -> bool {
    q.len() > 0 && forall|i: int| 0 <= i < k ==> #[trigger] digit(p, i) == digit(q, i)
}

/// `p` is seen to come after `q` at depth `k`: it has a greater number there, or it goes on
/// where `q` ends.
pub open spec fn passes(p: Seq<u64>, q: Seq<u64>, k: int) -> bool {
    together(p, q, k) && if k < q.len() {
        digit(p, k) > q[k]
    } else {
        k < p.len()
    }
}

/// How far `q` reaches into the level at depth `k`: up to its number there. Right below its
/// last number, if that is not zero, it does not reach at all; deeper, or where there is no
/// `q`, it reaches to the end of the level.
pub open spec fn reach(root: u64, q: Seq<u64>, k: int) -> u64 {
    if k < q.len() {
        q[k]
    } else if 0 < k == q.len() && q[k - 1] > 0 {
        0
    } else {
        arity(root, k)
    }
}

/// The number before which a new number on the path of `p` has to stay at depth `k`: as far
/// as `q` reaches, if it is on that path, else the end of the level.
pub open spec fn limit(root: u64, p: Seq<u64>, q: Seq<u64>, k: int) -> u64 {
    if together(p, q, k) {
        reach(root, q, k)
    } else {
        arity(root, k)
    }
}

/// How many numbers are free at depth `k` on the path of `p`, after the number of `p` and
/// before the limit.
pub open spec fn free(root: u64, p: Seq<u64>, q: Seq<u64>, k: int) -> int {
    limit(root, p, q, k) - digit(p, k) - 1
}

/// How many identifiers of depth `k` lie between `p` and `q`: those on the path of `p`, and
/// those on the path of `q` where that is another one. Counted up to what 64 bits can hold.
pub open spec fn interval(root: u64, p: Seq<u64>, q: Seq<u64>, k: int) -> int {
    let both = free(root, p, q, k) + if together(p, q, k) || k <= 0 {
        0
    } else {
        reach(root, q, k) as int
    };
    if both <= u64::MAX {
        both
    } else {
        u64::MAX as int
    }
}

/// The depth, not less than `k`, at which there is room between `p` and `q`: the first at
/// which a number is free. There is none if `p` turns out to come after `q`, or below the
/// deepest level.
pub open spec fn room(root: u64, p: Seq<u64>, q: Seq<u64>, k: int) -> Option<int>
    decreases DEEPEST + 1 - k,
{
    if k > DEEPEST || passes(p, q, k) {
        None
    } else if free(root, p, q, k) > 0 {
        Some(k)
    } else {
        room(root, p, q, k + 1)
    }
}

/// The number of the new identifier at depth `k`: half a step up from the first number
/// after `p`, or half a step down from the number of `q`. Where `q` is on the path of `p`, it
/// is down by at least one. Where `q` is not, and its number does not lead to one that comes
/// after `p` on the level, or where it has none, it is half a step down from the last number
/// of the level.
pub open spec fn new_number(
    root: u64,
    p: Seq<u64>,
    q: Seq<u64>,
    k: int,
    step: int,
    up: bool,
) -> int {
    if up {
        digit(p, k) + 1 + step / 2
    } else if k < q.len() && together(p, q, k) {
        q[k] - if step / 2 > 1 {
            step / 2
        } else {
            1
        }
    } else if k < q.len() && digit(p, k) < q[k] - step / 2 < arity(root, k) {
        q[k] - step / 2
    } else {
        arity(root, k) - 1 - step / 2
    }
}

/// `n` is one of the free numbers at depth `k`.
pub open spec fn is_free(root: u64, p: Seq<u64>, q: Seq<u64>, k: int, n: int) -> bool {
    digit(p, k) < n < limit(root, p, q, k)
}

/// How far a new number may be put from its reference: what `boundary` allows of the
/// interval, cut down if half of it leads out of the free numbers.
pub open spec fn step_within(
    root: u64,
    boundary: u8,
    p: Seq<u64>,
    q: Seq<u64>,
    k: int,
    up: bool,
) -> int {
    let wide = if boundary < interval(root, p, q, k) {
        boundary as int
    } else {
        interval(root, p, q, k)
    };
    let most = 2 * free(root, p, q, k) - 1;
    if wide <= most || is_free(root, p, q, k, new_number(root, p, q, k, wide, up)) {
        wide
    } else {
        most
    }
}

/// The arity of the tree at a given depth.
pub fn arity_at(root: u64, depth: usize) -> (r: u64)
    requires
        depth < 64,
    ensures
        r == arity(root, depth as int),
{
    root << (depth as u64)
}

/// The number of `p` at `depth`, or zero.
pub fn digit_at(p: &Identifier, depth: usize) -> (r: u64)
    ensures
        r == digit(p@, depth as int),
{
    if depth < p.len() {
        p.at(depth)
    } else {
        0
    }
}

/// Whether `p` and `q` have the same path down to `depth`.
pub fn go_together(p: &Identifier, q: &Identifier, depth: usize) -> (r: bool)
    ensures
        r == together(p@, q@, depth as int),
{
    if q.is_empty() {
        return false;
    }
    let mut i: usize = 0;
    while i < depth
        invariant
            i <= depth,
            q@.len() > 0,
            together(p@, q@, i as int),
        decreases depth - i,
    {
        if digit_at(p, i) != digit_at(q, i) {
            return false;
        }
        i = i + 1;
    }
    true
}

/// How far `q` reaches into the level at `depth`.
pub fn reach_at(root: u64, q: &Identifier, depth: usize) -> (r: u64)
    requires
        depth < 64,
    ensures
        r == reach(root, q@, depth as int),
{
    if depth < q.len() {
        q.at(depth)
    } else if depth > 0 && depth == q.len() && q.at(depth - 1) > 0 {
        0
    } else {
        arity_at(root, depth)
    }
}

/// The depth at which there is room between `p` and `q`, and how many identifiers lie
/// between them there.
pub fn find_room(root: u64, p: &Identifier, q: &Identifier) -> (r: Option<(usize, u64)>)
    ensures
        match room(root, p@, q@, 0) {
            Some(k) => r == Some((k as usize, interval(root, p@, q@, k) as u64)) && 0 <= k
                <= DEEPEST && 0 < interval(root, p@, q@, k) <= u64::MAX,
            None => r is None,
        },
{
    let mut shared = !q.is_empty();
    let mut depth: usize = 0;
    while depth <= DEEPEST
        invariant
            depth <= DEEPEST + 1,
            shared == together(p@, q@, depth as int),
            room(root, p@, q@, 0) == room(root, p@, q@, depth as int),
        decreases DEEPEST + 1 - depth,
    {
        // Where p has no number at this depth, it stands at the beginning of the level.
        let number: u64 = digit_at(p, depth);
        let reached: u64 = reach_at(root, q, depth);
        let passed = if depth < q.len() {
            number > reached
        } else {
            depth < p.len()
        };
        if shared && passed {
            return None;
        }
        let end: u64 = if shared {
            reached
        } else {
            arity_at(root, depth)
        };
        if end > number && end - number > 1 {
            let mut between: u64 = end - number - 1;
            if !shared && depth > 0 {
                between = match between.checked_add(reached) {
                    Some(n) => n,
                    None => u64::MAX,
                };
            }
            return Some((depth, between));
        }
        assert(together(p@, q@, depth + 1) == (shared && digit(p@, depth as int) == digit(
            q@,
            depth as int,
        )));
        shared = shared && number == digit_at(q, depth);
        depth = depth + 1;
    }
    None
}

/// How far a new number at `depth` may be put from its reference on the given side, where
/// `between` identifiers lie between `p` and `q`.
pub fn pick_step(
    root: u64,
    boundary: u8,
    p: &Identifier,
    q: &Identifier,
    depth: usize,
    between: u64,
    up: bool,
) -> (r: u64)
    requires
        depth < 64,
        free(root, p@, q@, depth as int) > 0,
        between == interval(root, p@, q@, depth as int),
    ensures
        r == step_within(root, boundary, p@, q@, depth as int, up),
{
    let end: u64 = if go_together(p, q, depth) {
        reach_at(root, q, depth)
    } else {
        arity_at(root, depth)
    };
    let number: u64 = digit_at(p, depth);
    let numbers: u64 = end - number - 1;
    let wide: u64 = if (boundary as u64) < between {
        boundary as u64
    } else {
        between
    };
    if numbers >= 128 || wide <= 2 * numbers - 1 {
        return wide;
    }
    match pick_number(root, p, q, depth, wide, up) {
        Some(n) if number < n && n < end => wide,
        _ => 2 * numbers - 1,
    }
}

/// The number for a new identifier at `depth`, if it can be told: it may lie below zero or
/// outgrow 64 bits.
pub fn pick_number(
    root: u64,
    p: &Identifier,
    q: &Identifier,
    depth: usize,
    step: u64,
    up: bool,
) -> (r: Option<u64>)
    requires
        depth < 64,
    ensures
        ({
            let n = new_number(root, p@, q@, depth as int, step as int, up);
            if 0 <= n <= u64::MAX {
                r == Some(n as u64)
            } else {
                r is None
            }
        }),
{
    if up {
        match digit_at(p, depth).checked_add(1) {
            Some(n) => n.checked_add(step / 2),
            None => None,
        }
    } else if depth < q.len() && go_together(p, q, depth) {
        q.at(depth).checked_sub(
            if step / 2 > 1 {
                step / 2
            } else {
                1
            },
        )
    } else {
        let arity: u64 = arity_at(root, depth);
        if depth < q.len() && q.at(depth) >= step / 2 {
            let n: u64 = q.at(depth) - step / 2;
            if digit_at(p, depth) < n && n < arity {
                return Some(n);
            }
        }
        match arity.checked_sub(1) {
            Some(n) => n.checked_sub(step / 2),
            None => None,
        }
    }
}

} // verus!
