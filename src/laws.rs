use vstd::prelude::*;
use vstd::seq_lib::group_to_multiset_ensures;

use crate::select::{
    lemma_prefix_grows, lemma_swap_perm, lemma_wsum_perm, lemma_wsum_push, lemma_wsum_update, prefix_result, split_at, wsum, WeightAccess,
};

verus! {

proof fn lemma_perm_len<T>(s1: Seq<T>, s2: Seq<T>)
    requires
        s1.to_multiset() == s2.to_multiset(),
    ensures
        s1.len() == s2.len(),
{
    s1.to_multiset_ensures();
    s2.to_multiset_ensures();
}

/// Dropping one item lowers the total by its weight.
proof fn lemma_wsum_remove<T, A: WeightAccess<T>>(acc: &A, s: Seq<T>, i: int)
    requires
        0 <= i < s.len(),
    ensures
        wsum(acc, s.remove(i)) == wsum(acc, s) - acc.weight_of(s[i]),
{
    broadcast use group_to_multiset_ensures;

    let t = s.remove(i).push(s[i]);
    assert(t.to_multiset() =~= s.to_multiset());
    lemma_wsum_perm(acc, t, s);
    lemma_wsum_push(acc, s.remove(i), s[i]);
}

/// Takes item `i` (inside the first `k`) out of `s` and `j` (inside the first `k`) out
/// of `b`, where both are the same item, and relates the first-`k` totals.
proof fn lemma_drop_shared<T, A: WeightAccess<T>>(
    acc: &A,
    s: Seq<T>,
    b: Seq<T>,
    k: int,
    i: int,
    j: int,
)
    requires
        s.to_multiset() == b.to_multiset(),
        s.len() == b.len(),
        0 <= i < k <= s.len(),
        0 <= j < k,
        s[i] == b[j],
        split_at(acc, b, k),
    ensures
        s.remove(i).to_multiset() == b.remove(j).to_multiset(),
        split_at(acc, b.remove(j), k - 1),
        wsum(acc, s.remove(i).take(k - 1)) == wsum(acc, s.take(k)) - acc.weight_of(s[i]),
        wsum(acc, b.remove(j).take(k - 1)) == wsum(acc, b.take(k)) - acc.weight_of(b[j]),
{
    broadcast use group_to_multiset_ensures;

    assert(s.remove(i).take(k - 1) =~= s.take(k).remove(i));
    assert(b.remove(j).take(k - 1) =~= b.take(k).remove(j));
    lemma_wsum_remove(acc, s.take(k), i);
    lemma_wsum_remove(acc, b.take(k), j);
    let br = b.remove(j);
    assert forall|p: int, q: int| 0 <= p < k - 1 <= q < br.len() implies acc.weight_of(
        #[trigger] br[p],
    ) <= acc.weight_of(#[trigger] br[q]) by {
        let pp = if p < j {
            p
        } else {
            p + 1
        };
        assert(br[p] == b[pp]);
        assert(br[q] == b[q + 1]);
    }
}

/// When the first `k` items of `b` are its `k` lightest, no reordering of those items
/// has a lighter total in its first `k` positions.
pub proof fn lemma_lightest_prefix<T, A: WeightAccess<T>>(acc: &A, s: Seq<T>, b: Seq<T>, k: int)
    requires
        s.to_multiset() == b.to_multiset(),
        0 <= k <= b.len(),
        split_at(acc, b, k),
    ensures
        wsum(acc, s.take(k)) >= wsum(acc, b.take(k)),
    decreases k,
{
    broadcast use group_to_multiset_ensures;

    lemma_perm_len(s, b);
    if k == 0 {
        assert(s.take(0) =~= Seq::<T>::empty());
        assert(b.take(0) =~= Seq::<T>::empty());
        return;
    }
    let x = s[k - 1];
    if b.take(k).contains(x) {
        let j = choose|j: int| 0 <= j < k && b.take(k)[j] == x;
        lemma_drop_shared(acc, s, b, k, k - 1, j);
        lemma_lightest_prefix(acc, s.remove(k - 1), b.remove(j), k - 1);
    } else {
        assert(b.to_multiset().count(x) > 0);
        let jx = choose|jx: int| 0 <= jx < b.len() && b[jx] == x;
        assert(jx >= k) by {
            if jx < k {
                assert(b.take(k)[jx] == x);
            }
        }
        let y = b[k - 1];
        assert(acc.weight_of(y) <= acc.weight_of(x));
        assert(s.to_multiset().count(y) > 0);
        let iy = choose|iy: int| 0 <= iy < s.len() && s[iy] == y;
        if iy < k {
            lemma_drop_shared(acc, s, b, k, iy, k - 1);
            lemma_lightest_prefix(acc, s.remove(iy), b.remove(k - 1), k - 1);
        } else {
            let s2 = s.update(k - 1, s[iy]).update(iy, s[k - 1]);
            lemma_swap_perm(s, k - 1, iy);
            assert(s2.take(k) =~= s.take(k).update(k - 1, y));
            lemma_wsum_update(acc, s.take(k), k - 1, y);
            lemma_drop_shared(acc, s2, b, k, k - 1, k - 1);
            lemma_lightest_prefix(acc, s2.remove(k - 1), b.remove(k - 1), k - 1);
        }
    }
}

/// The selector's count never shrinks as the threshold grows: two results on
/// arrangements of the same items, the second for a threshold at least as large, have
/// the first count at most the second.
pub proof fn lemma_count_monotone<T, A: WeightAccess<T>>(
    acc: &A,
    s1: Seq<T>,
    s2: Seq<T>,
    threshold1: int,
    threshold2: int,
    count1: int,
    count2: int,
    slack1: int,
    slack2: int,
)
    requires
        s1.to_multiset() == s2.to_multiset(),
        threshold1 <= threshold2,
        slack1 >= 0,
        prefix_result(acc, s1, threshold1, count1, slack1),
        prefix_result(acc, s2, threshold2, count2, slack2),
    ensures
        count1 <= count2,
{
    lemma_perm_len(s1, s2);
    if count1 > count2 {
        let c = count2 + 1;
        lemma_wsum_push(acc, s2.take(count2), s2[count2]);
        assert(s2.take(count2).push(s2[count2]) =~= s2.take(c));
        assert forall|i: int, j: int| 0 <= i < c <= j < s2.len() implies acc.weight_of(
            #[trigger] s2[i],
        ) <= acc.weight_of(#[trigger] s2[j]) by {
            if i < count2 {
                assert(acc.weight_of(s2[i]) <= acc.weight_of(s2[count2]));
            }
        }
        lemma_lightest_prefix(acc, s1, s2, c);
        lemma_prefix_grows(acc, s1, c, count1);
    }
}

/// Reusing the selector is deterministic: any two results on arrangements of the same
/// items for the same threshold agree on both count and slack, so a call on an array
/// that earlier calls have already reordered answers as a call on a fresh copy does.
pub proof fn lemma_selection_determined<T, A: WeightAccess<T>>(
    acc: &A,
    s1: Seq<T>,
    s2: Seq<T>,
    threshold: int,
    count1: int,
    count2: int,
    slack1: int,
    slack2: int,
)
    requires
        s1.to_multiset() == s2.to_multiset(),
        slack1 >= 0,
        slack2 >= 0,
        prefix_result(acc, s1, threshold, count1, slack1),
        prefix_result(acc, s2, threshold, count2, slack2),
    ensures
        count1 == count2,
        slack1 == slack2,
{
    lemma_count_monotone(acc, s1, s2, threshold, threshold, count1, count2, slack1, slack2);
    lemma_count_monotone(acc, s2, s1, threshold, threshold, count2, count1, slack2, slack1);
    lemma_lightest_prefix(acc, s1, s2, count1);
    lemma_lightest_prefix(acc, s2, s1, count1);
}

/// On no items the selector takes nothing and keeps the whole threshold.
pub proof fn lemma_empty_selection<T, A: WeightAccess<T>>(
    acc: &A,
    s: Seq<T>,
    threshold: int,
    count: int,
    slack: int,
)
    requires
        s.len() == 0,
        prefix_result(acc, s, threshold, count, slack),
    ensures
        count == 0,
        slack == threshold,
{
    assert(s.take(0) =~= Seq::<T>::empty());
}

} // verus!
