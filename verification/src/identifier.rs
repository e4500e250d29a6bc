//! Identifiers: paths in the tree that holds a sequence.
use vstd::prelude::*;

verus! {

/// The path of an atom: the number taken at each depth of the tree, from the root down.
#[derive(Debug, PartialEq, Eq)]
pub struct Identifier {
    path: Vec<u64>,
}

/// Paths are ordered by the first number in which they differ; a path comes before its
/// continuations.
pub open spec fn path_before(a: Seq<u64>, b: Seq<u64>) -> bool
    decreases a.len(),
{
    if b.len() == 0 {
        false
    } else if a.len() == 0 {
        true
    } else if a[0] == b[0] {
        path_before(a.drop_first(), b.drop_first())
    } else {
        a[0] < b[0]
    }
}

/// A number before both of two paths does not change their order.
pub proof fn path_before_below(number: u64, a: Seq<u64>, b: Seq<u64>)
    ensures
        path_before(seq![number] + a, seq![number] + b) == path_before(a, b),
{
    assert((seq![number] + a).drop_first() =~= a);
    assert((seq![number] + b).drop_first() =~= b);
}

/// No path comes before itself, and of two different paths exactly one comes before the
/// other.
pub proof fn path_before_is_total(a: Seq<u64>, b: Seq<u64>)
    ensures
        !path_before(a, a),
        !(path_before(a, b) && path_before(b, a)),
        a == b || path_before(a, b) || path_before(b, a),
    decreases a.len(),
{
    if a.len() > 0 {
        path_before_is_total(a.drop_first(), b.drop_first());
    }
    if a.len() > 0 && b.len() > 0 {
        if a[0] == b[0] && a.drop_first() == b.drop_first() {
            assert(a =~= seq![a[0]] + a.drop_first());
            assert(b =~= seq![b[0]] + b.drop_first());
        }
    } else if a.len() == 0 && b.len() == 0 {
        assert(a =~= b);
    }
}

/// The order of paths is transitive.
pub proof fn path_before_is_transitive(a: Seq<u64>, b: Seq<u64>, c: Seq<u64>)
    requires
        path_before(a, b),
        path_before(b, c),
    ensures
        path_before(a, c),
    decreases a.len(),
{
    if a.len() > 0 && a[0] == b[0] && b[0] == c[0] {
        path_before_is_transitive(a.drop_first(), b.drop_first(), c.drop_first());
    }
}

/// Paths that agree down to depth `k` are ordered by what follows.
pub proof fn path_before_after_prefix(a: Seq<u64>, b: Seq<u64>, k: int)
    requires
        0 <= k <= a.len(),
        k <= b.len(),
        a.take(k) == b.take(k),
    ensures
        path_before(a, b) == path_before(a.skip(k), b.skip(k)),
    decreases k,
{
    if k == 0 {
        assert(a.skip(0) =~= a);
        assert(b.skip(0) =~= b);
    } else {
        assert(a[0] == a.take(k)[0] && b[0] == b.take(k)[0]);
        assert(a.drop_first().take(k - 1) =~= a.take(k).drop_first());
        assert(b.drop_first().take(k - 1) =~= b.take(k).drop_first());
        path_before_after_prefix(a.drop_first(), b.drop_first(), k - 1);
        assert(a.drop_first().skip(k - 1) =~= a.skip(k));
        assert(b.drop_first().skip(k - 1) =~= b.skip(k));
    }
}

impl View for Identifier {
    type V = Seq<u64>;

    closed spec fn view(&self) -> Seq<u64> {
        self.path@
    }
}

impl Clone for Identifier {
    fn clone(&self) -> (r: Self)
        ensures
            r@ == self@,
    {
        Identifier { path: self.path.clone() }
    }
}

impl Identifier {
    /// The identifier with the given path.
    pub fn new(path: &[u64]) -> (r: Self)
        ensures
            r@ == path@,
    {
        let mut numbers: Vec<u64> = Vec::new();
        numbers.extend_from_slice(path);
        assert(numbers@ =~= path@);
        Identifier { path: numbers }
    }

    /// How deep in the tree the identifier leads.
    pub fn len(&self) -> (r: usize)
        ensures
            r == self@.len(),
    {
        self.path.len()
    }

    /// Whether the path is empty.
    pub fn is_empty(&self) -> (r: bool)
        ensures
            r == (self@.len() == 0),
    {
        self.path.is_empty()
    }

    /// The number at `depth`.
    pub fn at(&self, depth: usize) -> (r: u64)
        requires
            depth < self@.len(),
        ensures
            r == self@[depth as int],
    {
        self.path[depth]
    }

    /// Leads the path one level deeper.
    pub fn push(&mut self, number: u64)
        ensures
            final(self)@ == old(self)@.push(number),
    {
        self.path.push(number);
    }

    /// Takes the number at `depth` out of the path.
    pub fn remove(&mut self, depth: usize) -> (r: u64)
        requires
            depth < old(self)@.len(),
        ensures
            r == old(self)@[depth as int],
            final(self)@ == old(self)@.remove(depth as int),
    {
        self.path.remove(depth)
    }
}

/// A path comes before another if and only if it is a proper prefix of it, or has the smaller
/// number where they first differ.
pub proof fn paths_go_by_first_difference(a: Seq<u64>, b: Seq<u64>)
    ensures
        path_before(a, b) <==> exists|k: int|
            {
                &&& 0 <= k < b.len()
                &&& k <= a.len()
                &&& a.take(k) == #[trigger] b.take(k)
                &&& k == a.len() || a[k] < b[k]
            },
{
    if path_before(a, b) {
        assert(a.take(0) =~= b.take(0));
        let k = where_paths_part(a, b, 0);
        assert(a.take(k) == b.take(k));
    }
    if exists|k: int|
        {
            &&& 0 <= k < b.len()
            &&& k <= a.len()
            &&& a.take(k) == #[trigger] b.take(k)
            &&& k == a.len() || a[k] < b[k]
        } {
        let k = choose|k: int|
            {
                &&& 0 <= k < b.len()
                &&& k <= a.len()
                &&& a.take(k) == #[trigger] b.take(k)
                &&& k == a.len() || a[k] < b[k]
            };
        path_before_after_prefix(a, b, k);
        if k < a.len() {
            assert(a.skip(k)[0] == a[k]);
        }
        assert(b.skip(k)[0] == b[k]);
    }
}

proof fn where_paths_part(a: Seq<u64>, b: Seq<u64>, from: int) -> (k: int)
    requires
        path_before(a, b),
        0 <= from <= a.len(),
        from <= b.len(),
        a.take(from) == b.take(from),
    ensures
        0 <= k < b.len(),
        k <= a.len(),
        a.take(k) == b.take(k),
        k == a.len() || a[k] < b[k],
    decreases a.len() - from,
{
    path_before_after_prefix(a, b, from);
    if from < a.len() {
        assert(a.skip(from)[0] == a[from]);
        if from < b.len() {
            assert(b.skip(from)[0] == b[from]);
        }
    }
    if from < a.len() && from < b.len() && a[from] == b[from] {
        assert(a.take(from + 1) =~= a.take(from).push(a[from]));
        assert(b.take(from + 1) =~= b.take(from).push(b[from]));
        where_paths_part(a, b, from + 1)
    } else {
        from
    }
}

} // verus!
