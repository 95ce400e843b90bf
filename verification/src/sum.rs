//! Sums over sequences, and what reordering leaves unchanged.

use vstd::prelude::*;

verus! {

/// The sum of `f` over the items of `s`.
pub open spec fn sum_by<T>(s: Seq<T>, f: spec_fn(T) -> int) -> int
    decreases s.len(),
{
    if s.len() == 0 {
        0
    } else {
        sum_by(s.drop_last(), f) + f(s.last())
    }
}

/// `1` for a true statement, `0` for a false one.
pub open spec fn indicator(b: bool) -> int {
    if b {
        1
    } else {
        0
    }
}

/// The function that is `1` on `x` and `0` on everything else.
pub open spec fn equal_to<T>(x: T) -> spec_fn(T) -> int {
    |y: T| indicator(y == x)
}

/// How often `x` occurs in `s`.
pub open spec fn count_of<T>(s: Seq<T>, x: T) -> int {
    sum_by(s, equal_to(x))
}

/// A sum grows by `f(x)` when `x` is appended.
pub proof fn lemma_sum_by_push<T>(s: Seq<T>, f: spec_fn(T) -> int, x: T)
    ensures
        sum_by(s.push(x), f) == sum_by(s, f) + f(x),
{
    assert(s.push(x).drop_last() =~= s);
}

/// The sum over the first `k + 1` items is the sum over the first `k` plus
/// `f` of the next.
pub proof fn lemma_sum_by_take<T>(s: Seq<T>, f: spec_fn(T) -> int, k: int)
    requires
        0 <= k < s.len(),
    ensures
        sum_by(s.take(k + 1), f) == sum_by(s.take(k), f) + f(s[k]),
{
    assert(s.take(k + 1).drop_last() =~= s.take(k));
}

/// The sum over a concatenation is the sum of the sums.
pub proof fn lemma_sum_by_concat<T>(a: Seq<T>, b: Seq<T>, f: spec_fn(T) -> int)
    ensures
        sum_by(a + b, f) == sum_by(a, f) + sum_by(b, f),
    decreases b.len(),
{
    if b.len() == 0 {
        assert(a + b =~= a);
    } else {
        lemma_sum_by_concat(a, b.drop_last(), f);
        assert((a + b).drop_last() =~= a + b.drop_last());
    }
}

/// Replacing one item changes the sum by the difference of `f` on the two.
pub proof fn lemma_sum_by_update<T>(s: Seq<T>, f: spec_fn(T) -> int, i: int, x: T)
    requires
        0 <= i < s.len(),
    ensures
        sum_by(s.update(i, x), f) == sum_by(s, f) - f(s[i]) + f(x),
    decreases s.len(),
{
    if i == s.len() - 1 {
        assert(s.update(i, x).drop_last() =~= s.drop_last());
    } else {
        lemma_sum_by_update(s.drop_last(), f, i, x);
        assert(s.update(i, x).drop_last() =~= s.drop_last().update(i, x));
    }
}

/// Taking one item out lowers the sum by `f` of that item.
pub proof fn lemma_sum_by_remove<T>(s: Seq<T>, f: spec_fn(T) -> int, i: int)
    requires
        0 <= i < s.len(),
    ensures
        sum_by(s, f) == sum_by(s.remove(i), f) + f(s[i]),
    decreases s.len(),
{
    if i == s.len() - 1 {
        assert(s.remove(i) =~= s.drop_last());
    } else {
        lemma_sum_by_remove(s.drop_last(), f, i);
        assert(s.remove(i).drop_last() =~= s.drop_last().remove(i));
    }
}

/// The sum lies between the least and the largest value of `f`, each times
/// the length.
pub proof fn lemma_sum_by_bounds<T>(s: Seq<T>, f: spec_fn(T) -> int, lo: int, hi: int)
    requires
        forall|i: int| 0 <= i < s.len() ==> lo <= f(#[trigger] s[i]) <= hi,
    ensures
        lo * s.len() <= sum_by(s, f) <= hi * s.len(),
    decreases s.len(),
{
    if s.len() > 0 {
        let head = s.drop_last();
        assert forall|i: int| 0 <= i < head.len() implies lo <= f(#[trigger] head[i]) <= hi by {
            assert(head[i] == s[i]);
        }
        lemma_sum_by_bounds(head, f, lo, hi);
        let n = head.len() as int;
        assert(lo * (n + 1) == lo * n + lo && hi * (n + 1) == hi * n + hi) by (nonlinear_arith);
        assert(lo <= f(s[s.len() - 1]) <= hi);
    }
}

/// Two sequences that hold the same items equally often, in whatever order,
/// have the same sum.
pub proof fn lemma_sum_by_permutation<T>(a: Seq<T>, b: Seq<T>, f: spec_fn(T) -> int)
    requires
        a.to_multiset() == b.to_multiset(),
    ensures
        sum_by(a, f) == sum_by(b, f),
    decreases a.len(),
{
    broadcast use vstd::seq_lib::group_to_multiset_ensures;

    assert(a.len() == a.to_multiset().len() && b.len() == b.to_multiset().len());
    if a.len() > 0 {
        let x = a.last();
        assert(a.contains(x));
        assert(b.to_multiset().count(x) > 0);
        assert(b.contains(x));
        let j = choose|j: int| 0 <= j < b.len() && b[j] == x;
        assert(a.drop_last() =~= a.remove(a.len() - 1));
        assert(a.remove(a.len() - 1).to_multiset() == b.remove(j).to_multiset());
        lemma_sum_by_permutation(a.drop_last(), b.remove(j), f);
        lemma_sum_by_remove(b, f, j);
    }
}

/// Two sequences that hold the same items equally often still do so after
/// the same function is applied to every item.
pub proof fn lemma_map_permutation<T, U>(a: Seq<T>, b: Seq<T>, g: spec_fn(T) -> U)
    requires
        a.to_multiset() == b.to_multiset(),
    ensures
        a.map_values(g).to_multiset() == b.map_values(g).to_multiset(),
    decreases a.len(),
{
    broadcast use vstd::seq_lib::group_to_multiset_ensures;

    assert(a.len() == a.to_multiset().len() && b.len() == b.to_multiset().len());
    if a.len() == 0 {
        assert(a.map_values(g) =~= b.map_values(g));
    } else {
        let x = a.last();
        assert(a.contains(x));
        assert(b.to_multiset().count(x) > 0);
        assert(b.contains(x));
        let j = choose|j: int| 0 <= j < b.len() && b[j] == x;
        let a1 = a.drop_last();
        let b1 = b.remove(j);
        assert(a1 =~= a.remove(a.len() - 1));
        assert(a.remove(a.len() - 1).to_multiset() == b1.to_multiset());
        lemma_map_permutation(a1, b1, g);
        assert(a.map_values(g) =~= a1.map_values(g).push(g(x)));
        assert(b.map_values(g) =~= b1.map_values(g).insert(j, g(x)));
    }
}

/// An item occurs a positive number of times exactly where the sequence
/// contains it, and never more often than the sequence is long.
pub proof fn lemma_count_of<T>(s: Seq<T>, x: T)
    ensures
        0 <= count_of(s, x) <= s.len(),
        count_of(s, x) > 0 <==> s.contains(x),
    decreases s.len(),
{
    if s.len() > 0 {
        let head = s.drop_last();
        lemma_count_of(head, x);
        if head.contains(x) {
            let j = choose|j: int| 0 <= j < head.len() && head[j] == x;
            assert(s[j] == x);
        }
        if s.contains(x) && s.last() != x {
            let j = choose|j: int| 0 <= j < s.len() && s[j] == x;
            assert(head[j] == x);
        }
    }
}

/// Where `f` is at most `k` times `g` on every item, the sum of `f` is at
/// most `k` times the sum of `g`.
pub proof fn lemma_sum_by_scaled<T>(s: Seq<T>, f: spec_fn(T) -> int, g: spec_fn(T) -> int, k: int)
    requires
        forall|i: int| 0 <= i < s.len() ==> 0 <= f(#[trigger] s[i]) <= k * g(s[i]),
    ensures
        0 <= sum_by(s, f) <= k * sum_by(s, g),
    decreases s.len(),
{
    if s.len() > 0 {
        let head = s.drop_last();
        assert forall|i: int| 0 <= i < head.len() implies 0 <= f(#[trigger] head[i]) <= k * g(
            head[i],
        ) by {
            assert(head[i] == s[i]);
        }
        lemma_sum_by_scaled(head, f, g, k);
        assert(0 <= f(s[s.len() - 1]) <= k * g(s[s.len() - 1]));
        let a = sum_by(head, g);
        let b = g(s.last());
        assert(k * (a + b) == k * a + k * b) by (nonlinear_arith);
    } else {
        assert(k * 0 == 0) by (nonlinear_arith);
    }
}

} // verus!
