//! Stable sorting by an integer key, as a specification.

use crate::sum::lemma_map_permutation;
use vstd::prelude::*;

verus! {

/// Whether the keys of `s` ascend.
pub open spec fn ascending<T>(s: Seq<T>, key: spec_fn(T) -> int) -> bool {
    forall|i: int, j: int| 0 <= i <= j < s.len() ==> key(s[i]) <= key(s[j])
}

/// `s`, whose keys ascend, with `x` put behind every item whose key is at
/// most the key of `x`.
pub open spec fn insert_by_key<T>(s: Seq<T>, key: spec_fn(T) -> int, x: T) -> Seq<T>
    decreases s.len(),
{
    if s.len() == 0 {
        seq![x]
    } else if key(s.last()) <= key(x) {
        s.push(x)
    } else {
        insert_by_key(s.drop_last(), key, x).push(s.last())
    }
}

/// The items of `s` by ascending key, items with equal keys in the order
/// they have in `s`.
pub open spec fn stable_sort<T>(s: Seq<T>, key: spec_fn(T) -> int) -> Seq<T>
    decreases s.len(),
{
    if s.len() == 0 {
        s
    } else {
        insert_by_key(stable_sort(s.drop_last(), key), key, s.last())
    }
}

/// Inserting keeps the keys ascending and adds exactly the new item.
pub proof fn lemma_insert_by_key<T>(s: Seq<T>, key: spec_fn(T) -> int, x: T)
    requires
        ascending(s, key),
    ensures
        ascending(insert_by_key(s, key, x), key),
        insert_by_key(s, key, x).len() == s.len() + 1,
        insert_by_key(s, key, x).to_multiset() == s.to_multiset().insert(x),
        forall|i: int|
            0 <= i < s.len() + 1 ==> key(#[trigger] insert_by_key(s, key, x)[i]) == key(x) || (
            exists|j: int| 0 <= j < s.len() && insert_by_key(s, key, x)[i] == s[j]),
    decreases s.len(),
{
    broadcast use vstd::seq_lib::group_to_multiset_ensures;

    let r = insert_by_key(s, key, x);
    if s.len() == 0 {
        assert(r =~= Seq::<T>::empty().push(x));
        assert(s =~= Seq::<T>::empty());
    } else if key(s.last()) <= key(x) {
        assert forall|i: int| 0 <= i < s.len() + 1 implies key(#[trigger] r[i]) == key(x) || (
        exists|j: int| 0 <= j < s.len() && r[i] == s[j]) by {
            if i < s.len() {
                assert(r[i] == s[i]);
            }
        }
    } else {
        let head = s.drop_last();
        let inner = insert_by_key(head, key, x);
        assert(ascending(head, key));
        lemma_insert_by_key(head, key, x);
        assert(s =~= head.push(s.last()));
        assert forall|i: int, j: int| 0 <= i <= j < r.len() implies key(r[i]) <= key(r[j]) by {
            if j == r.len() - 1 && i < j {
                if key(inner[i]) != key(x) {
                    let m = choose|m: int| 0 <= m < head.len() && inner[i] == head[m];
                    assert(key(s[m]) <= key(s[s.len() - 1]));
                }
            }
        }
        assert forall|i: int| 0 <= i < s.len() + 1 implies key(#[trigger] r[i]) == key(x) || (
        exists|j: int| 0 <= j < s.len() && r[i] == s[j]) by {
            if i < inner.len() {
                if key(inner[i]) != key(x) {
                    let m = choose|m: int| 0 <= m < head.len() && inner[i] == head[m];
                    assert(r[i] == s[m]);
                }
            } else {
                assert(r[i] == s[s.len() - 1]);
            }
        }
        assert(r.to_multiset() =~= s.to_multiset().insert(x));
    }
}

/// A stable sort orders the keys and keeps every item, each as often as it
/// occurs.
pub proof fn lemma_stable_sort<T>(s: Seq<T>, key: spec_fn(T) -> int)
    ensures
        ascending(stable_sort(s, key), key),
        stable_sort(s, key).len() == s.len(),
        stable_sort(s, key).to_multiset() == s.to_multiset(),
    decreases s.len(),
{
    broadcast use vstd::seq_lib::group_to_multiset_ensures;

    if s.len() > 0 {
        let head = s.drop_last();
        lemma_stable_sort(head, key);
        lemma_insert_by_key(stable_sort(head, key), key, s.last());
        assert(s =~= head.push(s.last()));
    }
}

/// The first item of a stable sort has the least key of all.
pub proof fn lemma_stable_sort_first<T>(s: Seq<T>, key: spec_fn(T) -> int, i: int)
    requires
        0 <= i < s.len(),
    ensures
        key(stable_sort(s, key)[0]) <= key(s[i]),
{
    broadcast use vstd::seq_lib::group_to_multiset_ensures;

    lemma_stable_sort(s, key);
    let r = stable_sort(s, key);
    assert(s.contains(s[i]));
    assert(r.to_multiset().count(s[i]) > 0);
    assert(r.contains(s[i]));
    let j = choose|j: int| 0 <= j < r.len() && r[j] == s[i];
    assert(key(r[0]) <= key(r[j]));
}

/// Every item of a stable sort is an item of what was sorted.
pub proof fn lemma_stable_sort_member<T>(s: Seq<T>, key: spec_fn(T) -> int, i: int)
    requires
        0 <= i < s.len(),
    ensures
        s.contains(stable_sort(s, key)[i]),
{
    broadcast use vstd::seq_lib::group_to_multiset_ensures;

    lemma_stable_sort(s, key);
    let r = stable_sort(s, key);
    assert(r.contains(r[i]));
    assert(s.to_multiset().count(r[i]) > 0);
}

/// The key of a pair of a position and a score: the score.
pub open spec fn by_score() -> spec_fn((usize, u64)) -> int {
    |e: (usize, u64)| e.1 as int
}

/// Every score paired with its position.
pub open spec fn numbered(scores: Seq<u64>) -> Seq<(usize, u64)> {
    Seq::new(scores.len(), |i: int| (i as usize, scores[i]))
}

/// The positions of `scores` by ascending score, positions of equal score
/// in ascending order.
pub open spec fn ranking(scores: Seq<u64>) -> Seq<usize> {
    stable_sort(numbered(scores), by_score()).map_values(|e: (usize, u64)| e.0)
}

/// The items in the order that `order` gives their positions.
pub open spec fn arranged<T>(items: Seq<T>, order: Seq<usize>) -> Seq<T> {
    order.map_values(|i: usize| items[i as int])
}

/// A ranking names every position once, and the scores ascend along it.
pub proof fn lemma_ranking(scores: Seq<u64>)
    requires
        scores.len() <= usize::MAX,
    ensures
        ranking(scores).len() == scores.len(),
        ranking(scores).no_duplicates(),
        forall|i: int| 0 <= i < scores.len() ==> (#[trigger] ranking(scores)[i]) < scores.len(),
        forall|i: int, j: int|
            0 <= i <= j < scores.len() ==> scores[ranking(scores)[i] as int]
                <= scores[ranking(scores)[j] as int],
{
    broadcast use vstd::seq_lib::group_to_multiset_ensures;

    let pairs = numbered(scores);
    let sorted = stable_sort(pairs, by_score());
    let order = ranking(scores);
    lemma_stable_sort(pairs, by_score());
    assert forall|i: int| 0 <= i < sorted.len() implies sorted[i].0 < scores.len() && sorted[i]
        == pairs[sorted[i].0 as int] by {
        lemma_stable_sort_member(pairs, by_score(), i);
        let m = choose|m: int| 0 <= m < pairs.len() && pairs[m] == sorted[i];
        assert(sorted[i].0 == m);
    }
    assert(pairs.no_duplicates());
    pairs.lemma_multiset_has_no_duplicates();
    sorted.lemma_multiset_has_no_duplicates_conv();
    assert forall|i: int, j: int| 0 <= i < order.len() && 0 <= j < order.len() && i
        != j implies order[i] != order[j] by {
        if order[i] == order[j] {
            assert(sorted[i] == pairs[sorted[i].0 as int]);
            assert(sorted[j] == pairs[sorted[j].0 as int]);
        }
    }
    assert forall|i: int, j: int| 0 <= i <= j < scores.len() implies scores[order[i] as int]
        <= scores[order[j] as int] by {
        assert(sorted[i] == pairs[sorted[i].0 as int]);
        assert(sorted[j] == pairs[sorted[j].0 as int]);
        assert(by_score()(sorted[i]) <= by_score()(sorted[j]));
    }
}

/// Arranging items by a ranking keeps every item, each as often as it
/// occurs.
pub proof fn lemma_arranged_by_ranking<T>(items: Seq<T>, scores: Seq<u64>)
    requires
        items.len() == scores.len(),
        scores.len() <= usize::MAX,
    ensures
        arranged(items, ranking(scores)).len() == items.len(),
        arranged(items, ranking(scores)).to_multiset() == items.to_multiset(),
{
    let pairs = numbered(scores);
    let sorted = stable_sort(pairs, by_score());
    let pick = |e: (usize, u64)| items[e.0 as int];
    lemma_stable_sort(pairs, by_score());
    lemma_map_permutation(sorted, pairs, pick);
    assert(pairs.map_values(pick) =~= items);
    assert(sorted.map_values(pick) =~= arranged(items, ranking(scores)));
}

/// `sort_by_key` of std on a vector of pairs, with the score as the key.
/// The sort is stable: pairs of equal score keep their order.
#[verifier::external_body]
fn sort_by_score(v: &mut Vec<(usize, u64)>)
    ensures
        final(v)@ == stable_sort(old(v)@, by_score()),
{
    v.sort_by_key(|e| e.1)
}

/// Ranks the positions of `scores` by ascending score.
pub fn rank(scores: &Vec<u64>) -> (order: Vec<usize>)
    ensures
        order@ == ranking(scores@),
{
    let mut pairs: Vec<(usize, u64)> = Vec::new();
    let mut i: usize = 0;
    while i < scores.len()
        invariant
            i <= scores.len(),
            pairs@ == numbered(scores@).take(i as int),
        decreases scores.len() - i,
    {
        pairs.push((i, scores[i]));
        assert(pairs@ =~= numbered(scores@).take(i + 1));
        i = i + 1;
    }
    assert(pairs@ =~= numbered(scores@));
    sort_by_score(&mut pairs);
    proof {
        lemma_stable_sort(numbered(scores@), by_score());
    }
    let mut order: Vec<usize> = Vec::new();
    let mut j: usize = 0;
    while j < pairs.len()
        invariant
            j <= pairs.len(),
            pairs@ == stable_sort(numbered(scores@), by_score()),
            order@ == ranking(scores@).take(j as int),
        decreases pairs.len() - j,
    {
        order.push(pairs[j].0);
        assert(order@ =~= ranking(scores@).take(j + 1));
        j = j + 1;
    }
    assert(order@ =~= ranking(scores@));
    order
}

} // verus!
