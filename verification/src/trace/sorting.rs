//! Sorting by an integer key, keeping the order of items whose keys are equal.

use vstd::prelude::*;

verus! {

/// Something with an integer to sort it by.
pub trait Keyed: Copy {
    /// What the item is sorted by.
    spec fn key(&self) -> int;

    /// Whether this item may stand before the other.
    fn not_after(&self, other: &Self) -> (r: bool)
        ensures
            r == (self.key() <= other.key()),
    ;
}

/// The items of one key, in order.
pub open spec fn of_key<T: Keyed>(s: Seq<T>, k: int) -> Seq<T> {
    s.filter(|x: T| x.key() == k)
}

/// Whether keys never fall from one item to a later one.
pub open spec fn ascends<T: Keyed>(s: Seq<T>) -> bool {
    forall|i: int, j: int| 0 <= i <= j < s.len() ==> #[trigger] s[i].key() <= #[trigger] s[j].key()
}

/// Whether `output` holds the items of `input` by ascending key, those of one key in the order
/// they had.
pub open spec fn sorts<T: Keyed>(input: Seq<T>, output: Seq<T>) -> bool {
    &&& output.len() == input.len()
    &&& output.to_multiset() == input.to_multiset()
    &&& ascends(output)
    &&& forall|k: int| #[trigger] of_key(output, k) == of_key(input, k)
}

pub proof fn lemma_of_key_push<T: Keyed>(s: Seq<T>, x: T, k: int)
    ensures
        of_key(s.push(x), k) == if x.key() == k {
            of_key(s, k).push(x)
        } else {
            of_key(s, k)
        },
{
    reveal(Seq::filter);
    assert(s.push(x).drop_last() =~= s);
}

pub proof fn lemma_of_key_none<T: Keyed>(s: Seq<T>, k: int)
    requires
        forall|i: int| 0 <= i < s.len() ==> #[trigger] s[i].key() != k,
    ensures
        of_key(s, k) == Seq::<T>::empty(),
    decreases s.len(),
{
    reveal(Seq::filter);
    if s.len() > 0 {
        lemma_of_key_none(s.drop_last(), k);
    }
}

pub proof fn lemma_of_key_add<T: Keyed>(a: Seq<T>, b: Seq<T>, k: int)
    ensures
        of_key(a + b, k) == of_key(a, k) + of_key(b, k),
    decreases b.len(),
{
    if b.len() == 0 {
        reveal(Seq::filter);
        assert(a + b =~= a);
        assert(of_key(a, k) + of_key(b, k) =~= of_key(a, k));
    } else {
        let c = b.drop_last();
        lemma_of_key_add(a, c, k);
        lemma_of_key_push(a + c, b.last(), k);
        lemma_of_key_push(c, b.last(), k);
        assert((a + c).push(b.last()) =~= a + b);
        assert(c.push(b.last()) =~= b);
        assert(of_key(a, k) + of_key(b, k) =~= if b.last().key() == k {
            (of_key(a, k) + of_key(c, k)).push(b.last())
        } else {
            of_key(a, k) + of_key(c, k)
        });
    }
}

proof fn lemma_multiset_push<T>(s: Seq<T>, x: T)
    ensures
        s.push(x).to_multiset() == s.to_multiset().insert(x),
{
    broadcast use vstd::seq_lib::group_to_multiset_ensures;

}

/// Puts two sorted runs together; of equal keys, those of the first run come first.
fn merge<T: Keyed>(a: &Vec<T>, b: &Vec<T>) -> (r: Vec<T>)
    requires
        ascends(a@),
        ascends(b@),
        a.len() + b.len() <= usize::MAX,
    ensures
        r.len() == a.len() + b.len(),
        ascends(r@),
        r@.to_multiset() == a@.to_multiset().add(b@.to_multiset()),
        forall|k: int| #[trigger] of_key(r@, k) == of_key(a@, k) + of_key(b@, k),
{
    broadcast use vstd::seq_lib::group_to_multiset_ensures;

    let mut out: Vec<T> = Vec::new();
    let mut i: usize = 0;
    let mut j: usize = 0;
    proof {
        assert forall|k: int| #[trigger] of_key(out@, k) == of_key(a@.take(0), k) + of_key(
            b@.take(0),
            k,
        ) by {
            reveal(Seq::filter);
            assert(of_key(a@.take(0), k) + of_key(b@.take(0), k) =~= out@);
        }
        assert(out@.to_multiset() =~= a@.take(0).to_multiset().add(b@.take(0).to_multiset()));
    }
    while i < a.len() || j < b.len()
        invariant
            i <= a.len(),
            j <= b.len(),
            a.len() + b.len() <= usize::MAX,
            ascends(a@),
            ascends(b@),
            ascends(out@),
            out.len() == i + j,
            out@.to_multiset() == a@.take(i as int).to_multiset().add(
                b@.take(j as int).to_multiset(),
            ),
            forall|x: int, y: int|
                0 <= x < out.len() && i <= y < a.len() ==> #[trigger] out[x].key()
                    <= #[trigger] a[y].key(),
            forall|x: int, y: int|
                0 <= x < out.len() && j <= y < b.len() ==> #[trigger] out[x].key()
                    <= #[trigger] b[y].key(),
            forall|x: int, y: int|
                0 <= x < j && i <= y < a.len() ==> #[trigger] b[x].key() < #[trigger] a[y].key(),
            forall|k: int| #[trigger]
                of_key(out@, k) == of_key(a@.take(i as int), k) + of_key(b@.take(j as int), k),
        decreases a.len() + b.len() - i - j,
    {
        let ghost before = out@;
        let from_a: bool = i < a.len() && (j >= b.len() || a[i].not_after(&b[j]));
        if from_a {
            let x: T = a[i];
            out.push(x);
            proof {
                assert(a@.take(i + 1) =~= a@.take(i as int).push(x));
                assert forall|k: int| #[trigger] of_key(out@, k) == of_key(a@.take(i + 1), k)
                    + of_key(b@.take(j as int), k) by {
                    lemma_of_key_push(before, x, k);
                    lemma_of_key_push(a@.take(i as int), x, k);
                    assert(of_key(before, k) == of_key(a@.take(i as int), k) + of_key(
                        b@.take(j as int),
                        k,
                    ));
                    if x.key() == k {
                        lemma_of_key_none(b@.take(j as int), k);
                    }
                    assert(of_key(out@, k) =~= of_key(a@.take(i + 1), k) + of_key(
                        b@.take(j as int),
                        k,
                    ));
                }
                lemma_multiset_push(before, x);
                lemma_multiset_push(a@.take(i as int), x);
                assert(out@.to_multiset() =~= a@.take(i + 1).to_multiset().add(
                    b@.take(j as int).to_multiset(),
                ));
            }
            i = i + 1;
        } else {
            let x: T = b[j];
            out.push(x);
            proof {
                assert(b@.take(j + 1) =~= b@.take(j as int).push(x));
                assert forall|k: int| #[trigger] of_key(out@, k) == of_key(a@.take(i as int), k)
                    + of_key(b@.take(j + 1), k) by {
                    lemma_of_key_push(before, x, k);
                    lemma_of_key_push(b@.take(j as int), x, k);
                    assert(of_key(before, k) == of_key(a@.take(i as int), k) + of_key(
                        b@.take(j as int),
                        k,
                    ));
                    assert(of_key(out@, k) =~= of_key(a@.take(i as int), k) + of_key(
                        b@.take(j + 1),
                        k,
                    ));
                }
                lemma_multiset_push(before, x);
                lemma_multiset_push(b@.take(j as int), x);
                assert(out@.to_multiset() =~= a@.take(i as int).to_multiset().add(
                    b@.take(j + 1).to_multiset(),
                ));
            }
            j = j + 1;
        }
    }
    proof {
        assert(a@.take(i as int) =~= a@);
        assert(b@.take(j as int) =~= b@);
    }
    out
}

/// Sorts the items `lo .. hi`.
fn sort_range<T: Keyed>(items: &[T], lo: usize, hi: usize) -> (r: Vec<T>)
    requires
        lo <= hi <= items.len(),
    ensures
        sorts(items@.subrange(lo as int, hi as int), r@),
    decreases hi - lo,
{
    if hi - lo < 2 {
        let mut out: Vec<T> = Vec::new();
        if lo < hi {
            out.push(items[lo]);
        }
        assert(out@ =~= items@.subrange(lo as int, hi as int));
        out
    } else {
        let mid: usize = lo + (hi - lo) / 2;
        let a: Vec<T> = sort_range(items, lo, mid);
        let b: Vec<T> = sort_range(items, mid, hi);
        let out: Vec<T> = merge(&a, &b);
        proof {
            let left = items@.subrange(lo as int, mid as int);
            let right = items@.subrange(mid as int, hi as int);
            assert(left + right =~= items@.subrange(lo as int, hi as int));
            vstd::seq_lib::lemma_multiset_commutative(left, right);
            assert forall|k: int| #[trigger] of_key(out@, k) == of_key(left + right, k) by {
                lemma_of_key_add(left, right, k);
                assert(of_key(a@, k) == of_key(left, k));
                assert(of_key(b@, k) == of_key(right, k));
            }
        }
        out
    }
}

/// Sorts by ascending key; items of one key keep their order.
pub fn sort_stably<T: Keyed>(items: &[T]) -> (r: Vec<T>)
    ensures
        sorts(items@, r@),
{
    assert(items@.subrange(0, items@.len() as int) =~= items@);
    sort_range(items, 0, items.len())
}

impl Keyed for i64 {
    open spec fn key(&self) -> int {
        *self as int
    }

    fn not_after(&self, other: &Self) -> (r: bool) {
        *self <= *other
    }
}

impl Keyed for usize {
    open spec fn key(&self) -> int {
        *self as int
    }

    fn not_after(&self, other: &Self) -> (r: bool) {
        *self <= *other
    }
}

/// A reordering has as many items of a kind as what it reorders.
pub proof fn lemma_same_count<A>(s: Seq<A>, t: Seq<A>, p: spec_fn(A) -> bool)
    requires
        s.to_multiset() == t.to_multiset(),
    ensures
        s.filter(p).len() == t.filter(p).len(),
        s.len() == t.len(),
    decreases s.len(),
{
    broadcast use vstd::seq_lib::group_to_multiset_ensures;

    assert(s.to_multiset().len() == s.len() && t.to_multiset().len() == t.len());
    reveal(Seq::filter);
    if s.len() > 0 {
        let x = s.last();
        let last = s.len() - 1;
        assert(s[last] == x);
        assert(s.contains(x));
        assert(s.to_multiset().count(x) > 0);
        assert(t.contains(x));
        let i = choose|i: int| 0 <= i < t.len() && t[i] == x;
        let (rest, other) = (s.remove(last), t.remove(i));
        assert(rest =~= s.drop_last());
        assert(rest.to_multiset() == s.to_multiset().remove(x));
        assert(other.to_multiset() == t.to_multiset().remove(x));
        lemma_same_count(rest, other, p);
        let (front, one, back) = (t.take(i), seq![x], t.skip(i + 1));
        assert(t =~= front + one + back);
        assert(other =~= front + back);
        Seq::filter_distributes_over_add(front + one, back, p);
        Seq::filter_distributes_over_add(front, one, p);
        Seq::filter_distributes_over_add(front, back, p);
        assert(one.filter(p).len() == if p(x) {
            1nat
        } else {
            0nat
        }) by {
            reveal_with_fuel(Seq::filter, 2);
            assert(one.drop_last() =~= Seq::empty());
            assert(one.last() == x);
        }
        assert(t.filter(p).len() == other.filter(p).len() + one.filter(p).len());
    }
}

/// A stretch of items of a kind counts in full.
pub proof fn lemma_a_stretch_counts<A>(s: Seq<A>, p: spec_fn(A) -> bool, from: int, to: int)
    requires
        0 <= from <= to <= s.len(),
        forall|i: int| from <= i < to ==> p(#[trigger] s[i]),
    ensures
        s.filter(p).len() >= to - from,
    decreases s.len(),
{
    reveal(Seq::filter);
    if s.len() > 0 && from < to {
        let front = s.drop_last();
        if to == s.len() {
            lemma_a_stretch_counts(front, p, from, to - 1);
            assert(p(s[to - 1]));
        } else {
            lemma_a_stretch_counts(front, p, from, to);
        }
    }
}

/// The items of one key are what any test for that key keeps.
pub proof fn lemma_of_key_is_a_filter<T: Keyed>(s: Seq<T>, k: int, p: spec_fn(T) -> bool)
    requires
        forall|x: T| #[trigger] p(x) <==> x.key() == k,
    ensures
        of_key(s, k) == s.filter(p),
    decreases s.len(),
{
    reveal(Seq::filter);
    if s.len() > 0 {
        lemma_of_key_is_a_filter(s.drop_last(), k, p);
        assert(p(s.last()) <==> s.last().key() == k);
    }
}

/// One item more counts for one kind or not.
pub proof fn lemma_count_push<A>(s: Seq<A>, x: A, p: spec_fn(A) -> bool)
    ensures
        s.push(x).filter(p).len() == s.filter(p).len() + if p(x) {
            1nat
        } else {
            0nat
        },
{
    reveal(Seq::filter);
    assert(s.push(x).drop_last() =~= s);
}

/// Where nothing is of a kind the count is zero.
pub proof fn lemma_none_counts<A>(s: Seq<A>, p: spec_fn(A) -> bool)
    requires
        forall|i: int| 0 <= i < s.len() ==> !p(#[trigger] s[i]),
    ensures
        s.filter(p).len() == 0,
    decreases s.len(),
{
    reveal(Seq::filter);
    if s.len() > 0 {
        assert(!p(s[s.len() - 1]));
        lemma_none_counts(s.drop_last(), p);
    }
}

/// What a filter keeps stays in order: of two items that it keeps, the one in front comes out in
/// front.
proof fn lemma_filter_keeps_order<A>(s: Seq<A>, p: spec_fn(A) -> bool, i: int, j: int) -> (r: (
    int,
    int,
))
    requires
        0 <= i < j < s.len(),
        p(s[i]),
        p(s[j]),
    ensures
        0 <= r.0 < r.1 < s.filter(p).len(),
        s.filter(p)[r.0] == s[i],
        s.filter(p)[r.1] == s[j],
    decreases s.len(),
{
    reveal(Seq::filter);
    let front = s.drop_last();
    if j < front.len() {
        let r = lemma_filter_keeps_order(front, p, i, j);
        r
    } else {
        front.lemma_filter_contains(p, i);
        assert(front[i] == s[i]);
        let a = choose|a: int| 0 <= a < front.filter(p).len() && front.filter(p)[a] == s[i];
        (a, front.filter(p).len() as int)
    }
}

/// Two items that a filter keeps one before the other were in that order before it.
proof fn lemma_filter_took_order<A>(s: Seq<A>, p: spec_fn(A) -> bool, a: int, b: int) -> (r: (
    int,
    int,
))
    requires
        0 <= a < b < s.filter(p).len(),
    ensures
        0 <= r.0 < r.1 < s.len(),
        s[r.0] == s.filter(p)[a],
        s[r.1] == s.filter(p)[b],
    decreases s.len(),
{
    reveal(Seq::filter);
    let front = s.drop_last();
    let kept = front.filter(p);
    if b < kept.len() {
        let r = lemma_filter_took_order(front, p, a, b);
        assert(front[r.0] == s[r.0] && front[r.1] == s[r.1]);
        r
    } else {
        assert(kept.contains(kept[a]));
        front.lemma_filter_contains_rev(p, kept[a]);
        let i = choose|i: int| 0 <= i < front.len() && front[i] == kept[a];
        assert(s[i] == front[i]);
        (i, s.len() - 1)
    }
}

/// Sorting puts smaller keys in front and is stable: of two items with the same key, the one that
/// comes out in front came in front. What comes out is what came in, each item as often.
pub proof fn law_sorting_keeps_the_order_of_equal_keys<T: Keyed>(
    input: Seq<T>,
    output: Seq<T>,
    i: int,
    j: int,
)
    requires
        sorts(input, output),
        0 <= i < j < output.len(),
    ensures
        output.to_multiset() == input.to_multiset(),
        output[i].key() <= output[j].key(),
        output[i].key() == output[j].key() ==> exists|p: int, q: int|
            #![trigger input[p], input[q]]
            0 <= p < q < input.len() && input[p] == output[i] && input[q] == output[j],
{
    assert(output[i].key() <= output[j].key());
    if output[i].key() == output[j].key() {
        let k = output[i].key();
        let same = |x: T| x.key() == k;
        lemma_of_key_is_a_filter(output, k, same);
        lemma_of_key_is_a_filter(input, k, same);
        assert(of_key(output, k) == of_key(input, k));
        let (a, b) = lemma_filter_keeps_order(output, same, i, j);
        let (p, q) = lemma_filter_took_order(input, same, a, b);
        assert(input[p] == output[i] && input[q] == output[j]);
    }
}

}
