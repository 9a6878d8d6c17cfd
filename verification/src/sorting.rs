//! What it means to sort texts into their natural order.

use crate::order::{lemma_precedes_total_preorder, precedes};
use vstd::prelude::*;

verus! {

/// The texts of the items `s`, in the same order.
pub open spec fn texts<T: View<V = Seq<char>>>(s: Seq<T>) -> Seq<Seq<char>> {
    Seq::new(s.len(), |i: int| s[i]@)
}

/// Whether the texts `s` stand in their natural order: each may stand before
/// all that follow it.
pub open spec fn sorted(s: Seq<Seq<char>>) -> bool {
    forall|i: int, j: int| 0 <= i < j < s.len() ==> precedes(#[trigger] s[i], #[trigger] s[j])
}

/// Whether each text of `s` may stand before the next one.
pub open spec fn sorted_pairwise(s: Seq<Seq<char>>) -> bool {
    forall|i: int| 0 <= i < s.len() - 1 ==> precedes(#[trigger] s[i], s[i + 1])
}

/// Whether `p` lists the places `0` to `p.len() - 1`, each once.
pub open spec fn is_permutation(p: Seq<int>) -> bool {
    &&& forall|i: int| 0 <= i < p.len() ==> 0 <= #[trigger] p[i] < p.len()
    &&& forall|i: int, j: int| 0 <= i < j < p.len() ==> #[trigger] p[i] != #[trigger] p[j]
}

/// Whether `after` holds the items of `before` in their natural order, the
/// item at place `i` of `after` having come from place `p[i]` of `before`,
/// and items whose texts compare equal standing as they stood in `before`.
pub open spec fn stably_sorted_by<T: View<V = Seq<char>>>(
    before: Seq<T>,
    after: Seq<T>,
    p: Seq<int>,
) -> bool {
    &&& p.len() == before.len()
    &&& p.len() == after.len()
    &&& is_permutation(p)
    &&& forall|i: int| 0 <= i < p.len() ==> #[trigger] after[i] == before[p[i]]
    &&& sorted(texts(after))
    &&& forall|i: int, j: int|
        0 <= i < j < p.len() && precedes(after[j]@, after[i]@) ==> #[trigger] p[i] < #[trigger] p[j]
}

/// Whether `after` is `before` sorted into the natural order of the texts,
/// with items whose texts compare equal left in the order they had.
pub open spec fn is_stable_sort<T: View<V = Seq<char>>>(before: Seq<T>, after: Seq<T>) -> bool {
    exists|p: Seq<int>| stably_sorted_by(before, after, p)
}

/// Places that rise from one to the next and stay below their number are
/// the places `0`, `1`, `2` and so on.
proof fn lemma_rising_permutation(p: Seq<int>, i: int)
    requires
        is_permutation(p),
        forall|i: int, j: int| 0 <= i < j < p.len() ==> #[trigger] p[i] < #[trigger] p[j],
        0 <= i < p.len(),
    ensures
        p[i] == i,
{
    lemma_rising_from_below(p, i);
    lemma_rising_from_above(p, i);
}

proof fn lemma_rising_from_below(p: Seq<int>, i: int)
    requires
        is_permutation(p),
        forall|i: int, j: int| 0 <= i < j < p.len() ==> #[trigger] p[i] < #[trigger] p[j],
        0 <= i < p.len(),
    ensures
        p[i] >= i,
    decreases i,
{
    if i > 0 {
        lemma_rising_from_below(p, i - 1);
        assert(p[i - 1] < p[i]);
    }
}

proof fn lemma_rising_from_above(p: Seq<int>, i: int)
    requires
        is_permutation(p),
        forall|i: int, j: int| 0 <= i < j < p.len() ==> #[trigger] p[i] < #[trigger] p[j],
        0 <= i < p.len(),
    ensures
        p[i] <= i,
    decreases p.len() - i,
{
    if i < p.len() - 1 {
        lemma_rising_from_above(p, i + 1);
        assert(p[i] < p[i + 1]);
    }
}

/// Texts of which each may stand before the next are in their natural
/// order.
pub proof fn lemma_sorted_pairwise(s: Seq<Seq<char>>)
    ensures
        sorted_pairwise(s) <==> sorted(s),
{
    if sorted_pairwise(s) {
        assert forall|i: int, j: int| 0 <= i < j < s.len() implies precedes(
            #[trigger] s[i],
            #[trigger] s[j],
        ) by {
            lemma_sorted_span(s, i, j);
        }
    }
    if sorted(s) {
        assert forall|i: int| 0 <= i < s.len() - 1 implies precedes(#[trigger] s[i], s[i + 1]) by {
            assert(precedes(s[i], s[i + 1]));
        }
    }
}

proof fn lemma_sorted_span(s: Seq<Seq<char>>, i: int, j: int)
    requires
        sorted_pairwise(s),
        0 <= i < j < s.len(),
    ensures
        precedes(s[i], s[j]),
    decreases j - i,
{
    if i + 1 < j {
        lemma_sorted_span(s, i, j - 1);
        assert(precedes(s[j - 1], s[j - 1 + 1]));
        lemma_precedes_total_preorder(s[i], s[j - 1], s[j]);
    } else {
        assert(precedes(s[i], s[i + 1]));
    }
}

/// **Sorting what is sorted changes nothing.** If the items of `before`
/// stand in the natural order of their texts already, then the only stable
/// sort of `before` is `before` itself.
pub proof fn lemma_stable_sort_of_sorted<T: View<V = Seq<char>>>(before: Seq<T>, after: Seq<T>)
    requires
        sorted(texts(before)),
        is_stable_sort(before, after),
    ensures
        after == before,
{
    let p = choose|p: Seq<int>| stably_sorted_by(before, after, p);
    assert forall|i: int, j: int| 0 <= i < j < p.len() implies #[trigger] p[i] < #[trigger] p[j] by {
        if !precedes(after[j]@, after[i]@) {
            if p[j] < p[i] {
                assert(precedes(texts(before)[p[j]], texts(before)[p[i]]));
            }
        }
    }
    assert forall|i: int| 0 <= i < after.len() implies after[i] == before[i] by {
        lemma_rising_permutation(p, i);
    }
    assert(after =~= before);
}

/// Whether, of the items `s`, the one at place `m` has to stand before the
/// one at place `k` once they are sorted: its text is less, or compares equal
/// while `m` is the earlier place.
pub open spec fn goes_before<T: View<V = Seq<char>>>(s: Seq<T>, m: int, k: int) -> bool {
    precedes(s[m]@, s[k]@) && (precedes(s[k]@, s[m]@) ==> m < k)
}

/// A stable sort puts first what has to stand first.
proof fn lemma_places_in_order<T: View<V = Seq<char>>>(
    before: Seq<T>,
    after: Seq<T>,
    p: Seq<int>,
    i: int,
    j: int,
)
    requires
        stably_sorted_by(before, after, p),
        0 <= i < j < p.len(),
    ensures
        goes_before(before, p[i], p[j]),
{
    assert(precedes(texts(after)[i], texts(after)[j]));
    assert(after[i] == before[p[i]]);
    assert(after[j] == before[p[j]]);
    if precedes(before[p[j]]@, before[p[i]]@) {
        assert(p[i] < p[j]);
    }
}

/// Every place below the length of a permutation occurs in it.
proof fn lemma_permutation_onto(p: Seq<int>, k: int)
    requires
        is_permutation(p),
        0 <= k < p.len(),
    ensures
        exists|i: int| 0 <= i < p.len() && p[i] == k,
    decreases p.len(),
{
    let top = p.len() - 1;
    if exists|j: int| 0 <= j < p.len() && p[j] == top {
        let j = choose|j: int| 0 <= j < p.len() && p[j] == top;
        if k != top {
            let rest = p.remove(j);
            assert forall|i: int| 0 <= i < rest.len() implies 0 <= #[trigger] rest[i]
                < rest.len() by {
                if i < j {
                    assert(rest[i] == p[i]);
                } else {
                    assert(rest[i] == p[i + 1]);
                }
            }
            assert forall|a: int, b: int| 0 <= a < b < rest.len() implies #[trigger] rest[a]
                != #[trigger] rest[b] by {
                let a0 = if a < j {
                    a
                } else {
                    a + 1
                };
                let b0 = if b < j {
                    b
                } else {
                    b + 1
                };
                assert(rest[a] == p[a0]);
                assert(rest[b] == p[b0]);
            }
            lemma_permutation_onto(rest, k);
            let i = choose|i: int| 0 <= i < rest.len() && rest[i] == k;
            if i < j {
                assert(p[i] == k);
            } else {
                assert(p[i + 1] == k);
            }
        }
    } else {
        let rest = p.drop_last();
        let v = p[top];
        assert forall|i: int| 0 <= i < rest.len() implies 0 <= #[trigger] rest[i]
            < rest.len() by {
            assert(rest[i] == p[i]);
        }
        assert forall|a: int, b: int| 0 <= a < b < rest.len() implies #[trigger] rest[a]
            != #[trigger] rest[b] by {
            assert(rest[a] == p[a]);
            assert(rest[b] == p[b]);
        }
        lemma_permutation_onto(rest, v);
        let i = choose|i: int| 0 <= i < rest.len() && rest[i] == v;
        assert(p[i] == p[top]);
        assert(false);
    }
}

/// Two stable sorts of the same items agree on where the item at each place
/// has come from.
proof fn lemma_same_places<T: View<V = Seq<char>>>(
    before: Seq<T>,
    first: Seq<T>,
    second: Seq<T>,
    p: Seq<int>,
    q: Seq<int>,
    n: int,
)
    requires
        stably_sorted_by(before, first, p),
        stably_sorted_by(before, second, q),
        0 <= n <= p.len(),
    ensures
        forall|i: int| 0 <= i < n ==> p[i] == q[i],
    decreases n,
{
    if n > 0 {
        lemma_same_places(before, first, second, p, q, n - 1);
        let i = n - 1;
        if p[i] != q[i] {
            lemma_permutation_onto(q, p[i]);
            let j = choose|j: int| 0 <= j < q.len() && q[j] == p[i];
            lemma_permutation_onto(p, q[i]);
            let k = choose|k: int| 0 <= k < p.len() && p[k] == q[i];
            if j < i {
                assert(p[j] == q[j]);
            }
            if k < i {
                assert(p[k] == q[k]);
            }
            lemma_places_in_order(before, second, q, i, j);
            lemma_places_in_order(before, first, p, i, k);
            lemma_precedes_total_preorder(before[p[i]]@, before[q[i]]@, before[p[i]]@);
            assert(false);
        }
    }
}

/// **A stable sort has one outcome.** Two stable sorts of the same items
/// are the same sequence.
pub proof fn lemma_stable_sort_unique<T: View<V = Seq<char>>>(
    before: Seq<T>,
    first: Seq<T>,
    second: Seq<T>,
)
    requires
        is_stable_sort(before, first),
        is_stable_sort(before, second),
    ensures
        first == second,
{
    let p = choose|p: Seq<int>| stably_sorted_by(before, first, p);
    let q = choose|q: Seq<int>| stably_sorted_by(before, second, q);
    lemma_same_places(before, first, second, p, q, p.len() as int);
    assert forall|i: int| 0 <= i < first.len() implies first[i] == second[i] by {
        assert(p[i] == q[i]);
    }
    assert(first =~= second);
}

/// Whether `p` lists places of `s`, each once at most, so that what has to
/// stand first is listed first.
spec fn places_in_order<T: View<V = Seq<char>>>(s: Seq<T>, p: Seq<int>) -> bool {
    &&& forall|i: int| 0 <= i < p.len() ==> 0 <= #[trigger] p[i] < p.len()
    &&& forall|i: int, j: int|
        0 <= i < j < p.len() ==> #[trigger] p[i] != #[trigger] p[j] && goes_before(s, p[i], p[j])
}

/// The place in the list `q` before which the item at place `k` of `s`
/// belongs: behind all the listed items that may stand before it.
proof fn lemma_insertion_point<T: View<V = Seq<char>>>(
    s: Seq<T>,
    q: Seq<int>,
    k: int,
    from: int,
) -> (m: int)
    requires
        0 <= from <= q.len(),
        forall|i: int| 0 <= i < from ==> precedes(s[#[trigger] q[i]]@, s[k]@),
    ensures
        from <= m <= q.len(),
        forall|i: int| 0 <= i < m ==> precedes(s[#[trigger] q[i]]@, s[k]@),
        m < q.len() ==> !precedes(s[q[m]]@, s[k]@),
    decreases q.len() - from,
{
    if from < q.len() && precedes(s[q[from]]@, s[k]@) {
        lemma_insertion_point(s, q, k, from + 1)
    } else {
        from
    }
}

/// The first `n` places of `s`, listed as a stable sort takes from them.
proof fn lemma_order_places<T: View<V = Seq<char>>>(s: Seq<T>, n: int) -> (p: Seq<int>)
    requires
        0 <= n <= s.len(),
    ensures
        p.len() == n,
        places_in_order(s, p),
    decreases n,
{
    if n == 0 {
        Seq::empty()
    } else {
        let k = n - 1;
        let q = lemma_order_places(s, k);
        let m = lemma_insertion_point(s, q, k, 0);
        let p = q.insert(m, k);
        assert forall|i: int| 0 <= i < p.len() implies 0 <= #[trigger] p[i] < p.len() by {
            if i < m {
                assert(p[i] == q[i]);
            } else if i > m {
                assert(p[i] == q[i - 1]);
            }
        }
        assert forall|i: int, j: int| 0 <= i < j < p.len() implies #[trigger] p[i]
            != #[trigger] p[j] && goes_before(s, p[i], p[j]) by {
            if j < m {
                assert(p[i] == q[i] && p[j] == q[j]);
            } else if j == m {
                assert(p[i] == q[i]);
            } else if i == m {
                assert(p[j] == q[j - 1]);
                if m < j - 1 {
                    assert(goes_before(s, q[m], q[j - 1]));
                }
                lemma_precedes_total_preorder(s[q[j - 1]]@, s[k]@, s[q[m]]@);
                lemma_precedes_total_preorder(s[q[m]]@, s[q[j - 1]]@, s[k]@);
            } else if i < m {
                assert(p[i] == q[i] && p[j] == q[j - 1]);
            } else {
                assert(p[i] == q[i - 1] && p[j] == q[j - 1]);
            }
        }
        p
    }
}

/// **There is a stable sort of everything.** Whatever the items, they can
/// be put in the natural order of their texts with those that compare equal
/// left in the order they had.
pub proof fn lemma_stable_sort_exists<T: View<V = Seq<char>>>(before: Seq<T>)
    ensures
        exists|after: Seq<T>| is_stable_sort(before, after),
{
    let p = lemma_order_places(before, before.len() as int);
    let after = Seq::new(before.len(), |i: int| before[p[i]]);
    assert forall|i: int, j: int| 0 <= i < j < texts(after).len() implies precedes(
        #[trigger] texts(after)[i],
        #[trigger] texts(after)[j],
    ) by {
        assert(goes_before(before, p[i], p[j]));
    }
    assert forall|i: int, j: int|
        0 <= i < j < p.len() && precedes(after[j]@, after[i]@) implies #[trigger] p[i]
        < #[trigger] p[j] by {
        assert(goes_before(before, p[i], p[j]));
    }
    assert(stably_sorted_by(before, after, p));
    assert(is_stable_sort(before, after));
}

} // verus!
