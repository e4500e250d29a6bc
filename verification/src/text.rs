//! Showing a sequence as text.
use crate::actor::Actor;
use crate::nodes::SiblingsNodes;
use crate::tree::Tree;
use vstd::prelude::*;
use vstd::string::*;

verus! {

/// The decimal digits.
pub open spec fn digits() -> Seq<char> {
    seq!['0', '1', '2', '3', '4', '5', '6', '7', '8', '9']
}

/// `n` in decimal notation.
pub open spec fn decimal(n: nat) -> Seq<char>
    decreases n,
{
    if n < 10 {
        seq![digits()[n as int]]
    } else {
        decimal(n / 10).push(digits()[(n % 10) as int])
    }
}

/// The entry of one atom: its text, an at sign and its number.
pub open spec fn entry(text: Seq<char>, number: u64) -> Seq<char> {
    text + seq!['@'] + decimal(number as nat)
}

/// The entries of the first `n` atoms, with a comma and a blank between them.
pub open spec fn entries(texts: Seq<String>, numbers: Seq<u64>, n: int) -> Seq<char>
    decreases n,
{
    if n <= 0 {
        Seq::empty()
    } else if n == 1 {
        entry(texts[0]@, numbers[0])
    } else {
        entries(texts, numbers, n - 1) + seq![',', ' '] + entry(texts[n - 1]@, numbers[n - 1])
    }
}

/// The text of a sequence: the entries of its atoms between bars.
pub open spec fn layout(texts: Seq<String>, numbers: Seq<u64>) -> Seq<char> {
    seq!['|'] + entries(texts, numbers, texts.len() as int) + seq!['|']
}

/// `numbers` holds the numbers at the top of `t`, in their order.
pub open spec fn lists_top<V, A>(t: Tree<V, A>, numbers: Seq<u64>) -> bool {
    &&& forall|i: int, j: int|
        0 <= i < j < numbers.len() ==> (#[trigger] numbers[i]) < (#[trigger] numbers[j])
    &&& forall|n: u64| #[trigger] numbers.contains(n) <==> t.contains_key(seq![n])
}

/// The numbers at the top of `t`, in their order.
pub open spec fn top_numbers<V, A>(t: Tree<V, A>) -> Seq<u64> {
    choose|numbers: Seq<u64>| lists_top(t, numbers)
}

/// Two growing lists of the same numbers are the same list.
proof fn growing_lists_are_unique(s: Seq<u64>, t: Seq<u64>)
    requires
        forall|i: int, j: int| 0 <= i < j < s.len() ==> (#[trigger] s[i]) < (#[trigger] s[j]),
        forall|i: int, j: int| 0 <= i < j < t.len() ==> (#[trigger] t[i]) < (#[trigger] t[j]),
        forall|n: u64| #[trigger] s.contains(n) <==> t.contains(n),
    ensures
        s == t,
    decreases s.len(),
{
    if s.len() == 0 {
        if t.len() > 0 {
            assert(t.contains(t[0]));
            assert(s.contains(t[0]));
        }
        assert(s =~= t);
    } else {
        let last = s.last();
        assert(s.contains(last));
        let i = t.index_of(last);
        assert(t.contains(t.last()));
        assert(s.contains(t.last()));
        let j = s.index_of(t.last());
        assert(last == t.last()) by {
            if i < t.len() - 1 {
                assert(t[i] < t[t.len() - 1]);
            }
            if j < s.len() - 1 {
                assert(s[j] < s[s.len() - 1]);
            }
        }
        let s1 = s.drop_last();
        let t1 = t.drop_last();
        assert forall|n: u64| #[trigger] s1.contains(n) <==> t1.contains(n) by {
            if s1.contains(n) {
                let k = s1.index_of(n);
                assert(s[k] < s[s.len() - 1]);
                assert(s.contains(n));
                assert(t1[t.index_of(n)] == n);
            }
            if t1.contains(n) {
                let k = t1.index_of(n);
                assert(t[k] < t[t.len() - 1]);
                assert(t.contains(n));
                assert(s.contains(n));
                assert(s1[s.index_of(n)] == n);
            }
        }
        growing_lists_are_unique(s1, t1);
        assert(s =~= s1.push(last));
        assert(t =~= t1.push(last));
    }
}

fn digit_text(d: u64) -> (r: &'static str)
    requires
        d < 10,
    ensures
        r@ == seq![digits()[d as int]],
{
    proof {
        reveal_strlit("0");
        reveal_strlit("1");
        reveal_strlit("2");
        reveal_strlit("3");
        reveal_strlit("4");
        reveal_strlit("5");
        reveal_strlit("6");
        reveal_strlit("7");
        reveal_strlit("8");
        reveal_strlit("9");
    }
    let r = match d {
        0 => "0",
        1 => "1",
        2 => "2",
        3 => "3",
        4 => "4",
        5 => "5",
        6 => "6",
        7 => "7",
        8 => "8",
        _ => "9",
    };
    assert(r@ =~= seq![digits()[d as int]]);
    r
}

/// `n` in decimal notation.
pub fn decimal_text(n: u64) -> (r: String)
    ensures
        r@ == decimal(n as nat),
    decreases n,
{
    let mut r = if n < 10 {
        String::new()
    } else {
        decimal_text(n / 10)
    };
    let ghost start = r@;
    r.append(digit_text(n % 10));
    assert(r@ =~= decimal(n as nat));
    r
}

/// The text of a sequence whose atoms at the top of the tree have the given texts and
/// numbers.
pub fn lay_out(texts: &Vec<String>, numbers: &Vec<u64>) -> (r: String)
    requires
        texts@.len() == numbers@.len(),
    ensures
        r@ == layout(texts@, numbers@),
{
    proof {
        reveal_strlit("|");
        reveal_strlit(", ");
        reveal_strlit("@");
    }
    let mut r = String::new();
    r.append("|");
    assert(r@ =~= seq!['|'] + entries(texts@, numbers@, 0));
    let mut i: usize = 0;
    while i < texts.len()
        invariant
            i <= texts@.len() == numbers@.len(),
            r@ == seq!['|'] + entries(texts@, numbers@, i as int),
            ", "@ == seq![',', ' '],
            "@"@ == seq!['@'],
        decreases texts@.len() - i,
    {
        if i > 0 {
            r.append(", ");
        }
        r.append(texts[i].as_str());
        r.append("@");
        let number = decimal_text(numbers[i]);
        r.append(number.as_str());
        i = i + 1;
        assert(r@ =~= seq!['|'] + entries(texts@, numbers@, i as int));
    }
    r.append("|");
    assert(r@ =~= layout(texts@, numbers@));
    r
}

impl<V: Ord + Clone, A: Actor> SiblingsNodes<V, A> {
    /// The numbers of the siblings, in their order.
    pub fn numbers(&self) -> (r: Vec<u64>)
        requires
            self.wf(),
        ensures
            lists_top(self.tree(), r@),
            r@ == top_numbers(self.tree()),
    {
        let mut r: Vec<u64> = Vec::new();
        let mut i: usize = 0;
        while i < self.slots.len()
            invariant
                i == r@.len(),
                i <= self.slots@.len(),
                forall|k: int| 0 <= k < i ==> (#[trigger] r@[k]) == self.slots@[k].0,
            decreases self.slots@.len() - i,
        {
            r.push(self.slots[i].0);
            i = i + 1;
        }
        proof {
            assert forall|n: u64| #[trigger] r@.contains(n) <==> self.tree().contains_key(
                seq![n],
            ) by {
                if r@.contains(n) {
                    assert(self.slots@[r@.index_of(n)].0 == n);
                    assert(self.has(seq![n][0]));
                }
                if self.slot_at(seq![n]) is Some {
                    assert(self.has(n));
                    assert(r@[self.index(n)] == n);
                }
            }
            assert(lists_top(self.tree(), r@));
            growing_lists_are_unique(r@, top_numbers(self.tree()));
        }
        r
    }
}

/// The number that a text of decimal digits stands for.
pub open spec fn worth(text: Seq<char>) -> int
    decreases text.len(),
{
    if text.len() == 0 {
        0
    } else {
        10 * worth(text.drop_last()) + (text.last() as int - '0' as int)
    }
}

/// Decimal notation stands for its number, is made of digits, and does not begin with zero
/// unless it is zero.
pub proof fn decimal_stands_for_its_number(n: nat)
    ensures
        worth(decimal(n)) == n,
        decimal(n).len() > 0,
        forall|i: int| 0 <= i < decimal(n).len() ==> '0' <= (#[trigger] decimal(n)[i]) <= '9',
        n > 0 ==> decimal(n)[0] != '0',
        n == 0 ==> decimal(n) == seq!['0'],
    decreases n,
{
    reveal_with_fuel(worth, 2);
    let d = digits();
    assert forall|i: int| 0 <= i < 10 implies (#[trigger] d[i]) as int == '0' as int + i by {}
    if n >= 10 {
        decimal_stands_for_its_number(n / 10);
        let s = decimal(n);
        assert(s.drop_last() =~= decimal(n / 10));
        assert(s.last() as int == '0' as int + n % 10);
        assert forall|i: int| 0 <= i < s.len() implies '0' <= (#[trigger] s[i]) <= '9' by {
            if i < s.len() - 1 {
                assert(s[i] == decimal(n / 10)[i]);
            }
        }
    } else {
        assert(decimal(n).drop_last() =~= Seq::empty());
        assert(decimal(n).last() as int == '0' as int + n);
    }
}

proof fn entries_go_by_the_first(
    texts: Seq<String>,
    numbers: Seq<u64>,
    text: String,
    number: u64,
    n: int,
)
    requires
        texts.len() == numbers.len(),
        0 <= n <= texts.len(),
    ensures
        entries(texts.push(text), numbers.push(number), n) == entries(texts, numbers, n),
    decreases n,
{
    if n > 1 {
        entries_go_by_the_first(texts, numbers, text, number, n - 1);
    }
}

/// The text of a sequence without atoms is two bars. One atom more adds its text, an at sign
/// and its number before the last bar, after a comma and a blank if it is not the first.
pub proof fn text_grows_atom_by_atom(
    texts: Seq<String>,
    numbers: Seq<u64>,
    text: String,
    number: u64,
)
    requires
        texts.len() == numbers.len(),
    ensures
        layout(Seq::empty(), Seq::empty()) == seq!['|', '|'],
        layout(texts.push(text), numbers.push(number)) == layout(texts, numbers).drop_last() + (
        if texts.len() == 0 {
            Seq::empty()
        } else {
            seq![',', ' ']
        }) + text@ + seq!['@'] + decimal(number as nat) + seq!['|'],
{
    let n = texts.len() as int;
    entries_go_by_the_first(texts, numbers, text, number, n);
    assert(layout(Seq::empty(), Seq::empty()) =~= seq!['|', '|']);
    assert(layout(texts, numbers).drop_last() =~= seq!['|'] + entries(texts, numbers, n));
    assert(layout(texts.push(text), numbers.push(number)) =~= layout(texts, numbers).drop_last() + (
    if texts.len() == 0 {
        Seq::empty()
    } else {
        seq![',', ' ']
    }) + text@ + seq!['@'] + decimal(number as nat) + seq!['|']);
}

/// The numbers at the top of a tree are those of its paths of one number, from the smallest to
/// the greatest.
pub proof fn top_numbers_grow<V, A>(t: Tree<V, A>, numbers: Seq<u64>)
    requires
        lists_top(t, numbers),
    ensures
        top_numbers(t) == numbers,
        forall|i: int, j: int|
            0 <= i < j < numbers.len() ==> (#[trigger] numbers[i]) < (#[trigger] numbers[j]),
        forall|i: int|
            0 <= i < numbers.len() ==> t.dom().contains(seq![#[trigger] numbers[i]]),
        forall|n: u64| t.dom().contains(#[trigger] seq![n]) ==> numbers.contains(n),
{
    growing_lists_are_unique(numbers, top_numbers(t));
    assert forall|i: int| 0 <= i < numbers.len() implies t.dom().contains(
        seq![#[trigger] numbers[i]],
    ) by {
        assert(numbers.contains(numbers[i]));
    }
    assert forall|n: u64| t.dom().contains(#[trigger] seq![n]) implies numbers.contains(n) by {
        assert(t.contains_key(seq![n]));
    }
}

} // verus!
