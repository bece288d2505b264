use std::cmp::Ordering;
use vstd::prelude::*;
use vstd::seq_lib::group_to_multiset_ensures;
use vstd::seq_lib::lemma_fold_left_permutation;
use vstd::seq_lib::lemma_multiset_commutative;

verus! {

/// How the selector reads the weight of an item.
pub trait WeightAccess<T> {
    /// Whether `x` is an item this accessor can weigh.
    spec fn valid(&self, x: T) -> bool;

    /// The weight of a valid item.
    spec fn weight_of(&self, x: T) -> u32;

    /// Reads the weight of a valid item.
    fn weight(&self, x: &T) -> (r: u32)
        requires
            self.valid(*x),
        ensures
            r == self.weight_of(*x),
    ;
}

/// Items that are their own weight.
pub struct Plain;

impl WeightAccess<u32> for Plain {
    open spec fn valid(&self, x: u32) -> bool {
        true
    }

    open spec fn weight_of(&self, x: u32) -> u32 {
        x
    }

    fn weight(&self, x: &u32) -> (r: u32) {
        *x
    }
}

/// Items that are positions in a separately owned weight array.
pub struct ByIndex<'a> {
    pub w: &'a [u32],
}

impl<'a> WeightAccess<u32> for ByIndex<'a> {
    open spec fn valid(&self, x: u32) -> bool {
        (x as int) < self.w@.len()
    }

    open spec fn weight_of(&self, x: u32) -> u32 {
        self.w@[x as int]
    }

    fn weight(&self, x: &u32) -> (r: u32) {
        self.w[*x as usize]
    }
}

/// Total weight of a sequence of items.
pub open spec fn wsum<T, A: WeightAccess<T>>(acc: &A, s: Seq<T>) -> int {
    s.fold_left(0int, |t: int, x: T| t + acc.weight_of(x) as int)
}

pub open spec fn all_valid<T, A: WeightAccess<T>>(acc: &A, s: Seq<T>) -> bool {
    forall|i: int| 0 <= i < s.len() ==> acc.valid(#[trigger] s[i])
}

/// Every item before position `k` weighs at most as much as every item from `k` on.
pub open spec fn split_at<T, A: WeightAccess<T>>(acc: &A, s: Seq<T>, k: int) -> bool {
    forall|i: int, j: int|
        0 <= i < k <= j < s.len() ==> acc.weight_of(#[trigger] s[i]) <= acc.weight_of(
            #[trigger] s[j],
        )
}

/// `s` is an arrangement whose lowest `count` positions hold the smallest items, with
/// total `threshold - slack`, and (when `count < |s|`) position `count` holds the next
/// smallest item, which would take the total past `threshold`.
pub open spec fn prefix_result<T, A: WeightAccess<T>>(
    acc: &A,
    s: Seq<T>,
    threshold: int,
    count: int,
    slack: int,
) -> bool {
    &&& 0 <= count <= s.len()
    &&& split_at(acc, s, count)
    &&& wsum(acc, s.take(count)) + slack == threshold
    &&& count < s.len() ==> {
        &&& forall|j: int|
            count < j < s.len() ==> acc.weight_of(s[count]) <= acc.weight_of(#[trigger] s[j])
        &&& wsum(acc, s.take(count)) + acc.weight_of(s[count]) > threshold
    }
}

pub proof fn lemma_wsum_push<T, A: WeightAccess<T>>(acc: &A, s: Seq<T>, x: T)
    ensures
        wsum(acc, s.push(x)) == wsum(acc, s) + acc.weight_of(x),
{
    assert(s.push(x).drop_last() =~= s);
}

pub proof fn lemma_wsum_nonneg<T, A: WeightAccess<T>>(acc: &A, s: Seq<T>)
    ensures
        0 <= wsum(acc, s) <= s.len() * 0xffff_ffff,
    decreases s.len(),
{
    if s.len() > 0 {
        lemma_wsum_nonneg(acc, s.drop_last());
        lemma_wsum_push(acc, s.drop_last(), s.last());
        assert(s.drop_last().push(s.last()) =~= s);
    }
}

/// The total of a sequence is the total of its first `k` items plus that of the rest.
pub proof fn lemma_wsum_split<T, A: WeightAccess<T>>(acc: &A, s: Seq<T>, k: int)
    requires
        0 <= k <= s.len(),
    ensures
        wsum(acc, s) == wsum(acc, s.take(k)) + wsum(acc, s.subrange(k, s.len() as int)),
    decreases s.len(),
{
    if k < s.len() {
        let d = s.drop_last();
        lemma_wsum_split(acc, d, k);
        assert(d.take(k) =~= s.take(k));
        assert(s.subrange(k, s.len() as int) =~= d.subrange(k, d.len() as int).push(s.last()));
        lemma_wsum_push(acc, d.subrange(k, d.len() as int), s.last());
        lemma_wsum_push(acc, d, s.last());
        assert(d.push(s.last()) =~= s);
    } else {
        assert(s.take(k) =~= s);
        assert(s.subrange(k, s.len() as int) =~= Seq::<T>::empty());
    }
}

/// Reordering items does not change their total.
pub proof fn lemma_wsum_perm<T, A: WeightAccess<T>>(acc: &A, s1: Seq<T>, s2: Seq<T>)
    requires
        s1.to_multiset() == s2.to_multiset(),
    ensures
        wsum(acc, s1) == wsum(acc, s2),
{
    let f = |t: int, x: T| t + acc.weight_of(x) as int;
    assert(vstd::seq_lib::commutative_foldl(f));
    lemma_fold_left_permutation(s1, s2, f, 0int);
}

proof fn lemma_perm_source<T>(s1: Seq<T>, s2: Seq<T>, i: int)
    requires
        s1.to_multiset() == s2.to_multiset(),
        0 <= i < s1.len(),
    ensures
        exists|j: int| 0 <= j < s2.len() && s2[j] == s1[i],
{
    broadcast use group_to_multiset_ensures;

    assert(s1.to_multiset().count(s1[i]) > 0);
    assert(s2.contains(s1[i]));
}

/// Reordering positions `[l, r)` only reorders any window `[lo, hi)` around them.
proof fn lemma_perm_window<T>(s1: Seq<T>, s2: Seq<T>, l: int, r: int, lo: int, hi: int)
    requires
        s1.len() == s2.len(),
        0 <= lo <= l <= r <= hi <= s1.len(),
        forall|i: int| 0 <= i < l || r <= i < s1.len() ==> s1[i] == s2[i],
        s1.subrange(l, r).to_multiset() == s2.subrange(l, r).to_multiset(),
    ensures
        s1.subrange(lo, hi).to_multiset() == s2.subrange(lo, hi).to_multiset(),
{
    let a1 = s1.subrange(lo, l);
    let b1 = s1.subrange(l, r);
    let c1 = s1.subrange(r, hi);
    let a2 = s2.subrange(lo, l);
    let b2 = s2.subrange(l, r);
    let c2 = s2.subrange(r, hi);
    assert(a1 =~= a2);
    assert(c1 =~= c2);
    assert(s1.subrange(lo, hi) =~= a1 + b1 + c1);
    assert(s2.subrange(lo, hi) =~= a2 + b2 + c2);
    lemma_multiset_commutative(a1, b1);
    lemma_multiset_commutative(a1 + b1, c1);
    lemma_multiset_commutative(a2, b2);
    lemma_multiset_commutative(a2 + b2, c2);
}

fn compare_weights<T, A: WeightAccess<T>>(acc: &A, x: &T, y: &T) -> (r: Ordering)
    requires
        acc.valid(*x),
        acc.valid(*y),
    ensures
        r == Ordering::Less <==> acc.weight_of(*x) < acc.weight_of(*y),
        r == Ordering::Greater <==> acc.weight_of(*x) > acc.weight_of(*y),
{
    let wx = acc.weight(x);
    let wy = acc.weight(y);
    if wx < wy {
        Ordering::Less
    } else if wx > wy {
        Ordering::Greater
    } else {
        Ordering::Equal
    }
}

/// Relies on order_stat::kth_by: run on `a[l..r]` with a total order by weight, it
/// only permutes that window and leaves at its position `k` an item that weighs at
/// least as much as every item before it in the window and at most as much as every
/// item after it.
#[verifier::external_body]
pub(crate) fn partition_kth<T, A: WeightAccess<T>>(acc: &A, a: &mut [T], l: usize, r: usize, k: usize)
    requires
        l + k < r <= old(a)@.len(),
        forall|i: int| l <= i < r ==> acc.valid(#[trigger] old(a)@[i]),
    ensures
        final(a)@.len() == old(a)@.len(),
        forall|i: int|
            0 <= i < l || r <= i < old(a)@.len() ==> #[trigger] final(a)@[i] == old(a)@[i],
        final(a)@.subrange(l as int, r as int).to_multiset() == old(a)@.subrange(
            l as int,
            r as int,
        ).to_multiset(),
        forall|i: int|
            l <= i < l + k ==> acc.weight_of(#[trigger] final(a)@[i]) <= acc.weight_of(
                final(a)@[l + k],
            ),
        forall|j: int|
            l + k < j < r ==> acc.weight_of(final(a)@[l + k]) <= acc.weight_of(
                #[trigger] final(a)@[j],
            ),
{
    order_stat::kth_by(&mut a[l..r], k, |x, y| compare_weights(acc, x, y));
}

/// Total weight of `a[lo..hi)`.
fn block_sum<T, A: WeightAccess<T>>(acc: &A, a: &[T], lo: usize, hi: usize) -> (r: u64)
    requires
        lo <= hi <= a@.len(),
        hi - lo <= 0xffff_ffff,
        forall|i: int| lo <= i < hi ==> acc.valid(#[trigger] a@[i]),
    ensures
        r == wsum(acc, a@.subrange(lo as int, hi as int)),
{
    let mut total: u64 = 0;
    let mut i: usize = lo;
    while i < hi
        invariant
            lo <= i <= hi <= a@.len(),
            hi - lo <= 0xffff_ffff,
            forall|q: int| lo <= q < hi ==> acc.valid(#[trigger] a@[q]),
            total == wsum(acc, a@.subrange(lo as int, i as int)),
        decreases hi - i,
    {
        proof {
            let s = a@.subrange(lo as int, i as int);
            lemma_wsum_push(acc, s, a@[i as int]);
            assert(s.push(a@[i as int]) =~= a@.subrange(lo as int, i + 1));
            lemma_wsum_nonneg(acc, s);
            assert((i - lo) * 0xffff_ffff + 0xffff_ffff <= 0xffff_ffff * 0xffff_ffff)
                by (nonlinear_arith)
                requires
                    i - lo < 0xffff_ffff,
            ;
        }
        let x = acc.weight(&a[i]);
        total = total + x as u64;
        i = i + 1;
    }
    total
}

/// The selector's state: positions `[0, l)` hold the smallest `l` items, with total
/// `threshold - sum`; positions from `r` on hold the largest; and when `r < |s|` the
/// item at `r` is the smallest of those and the first `r + 1` items exceed `threshold`.
pub open spec fn search_state<T, A: WeightAccess<T>>(
    acc: &A,
    s: Seq<T>,
    l: int,
    r: int,
    threshold: int,
    sum: int,
) -> bool {
    &&& 0 <= l <= r <= s.len()
    &&& all_valid(acc, s)
    &&& split_at(acc, s, l)
    &&& split_at(acc, s, r)
    &&& wsum(acc, s.take(l)) + sum == threshold
    &&& r < s.len() ==> {
        &&& forall|j: int|
            r < j < s.len() ==> acc.weight_of(s[r]) <= acc.weight_of(#[trigger] s[j])
        &&& wsum(acc, s.take(r + 1)) > threshold
    }
}

proof fn lemma_partition_keeps_state<T, A: WeightAccess<T>>(
    acc: &A,
    b: Seq<T>,
    a: Seq<T>,
    l: int,
    r: int,
    threshold: int,
    sum: int,
)
    requires
        l < r,
        search_state(acc, b, l, r, threshold, sum),
        a.len() == b.len(),
        forall|i: int| 0 <= i < l || r <= i < b.len() ==> #[trigger] a[i] == b[i],
        a.subrange(l, r).to_multiset() == b.subrange(l, r).to_multiset(),
    ensures
        search_state(acc, a, l, r, threshold, sum),
        a.to_multiset() == b.to_multiset(),
{
    let n = a.len() as int;
    lemma_perm_window(a, b, l, r, 0, n);
    assert(a.subrange(0, n) =~= a);
    assert(b.subrange(0, n) =~= b);
    assert(a.take(l) =~= b.take(l));
    assert forall|i: int| 0 <= i < n implies acc.valid(#[trigger] a[i]) by {
        if l <= i < r {
            lemma_perm_source(a.subrange(l, r), b.subrange(l, r), i - l);
        }
    }
    assert forall|i: int, j: int| 0 <= i < l <= j < n implies acc.weight_of(#[trigger] a[i])
        <= acc.weight_of(#[trigger] a[j]) by {
        if j < r {
            lemma_perm_source(a.subrange(l, r), b.subrange(l, r), j - l);
        }
    }
    assert forall|i: int, j: int| 0 <= i < r <= j < n implies acc.weight_of(#[trigger] a[i])
        <= acc.weight_of(#[trigger] a[j]) by {
        if l <= i {
            lemma_perm_source(a.subrange(l, r), b.subrange(l, r), i - l);
        }
    }
    if r < n {
        lemma_perm_window(a, b, l, r, 0, r + 1);
        assert(a.subrange(0, r + 1) =~= a.take(r + 1));
        assert(b.subrange(0, r + 1) =~= b.take(r + 1));
        lemma_wsum_perm(acc, a.take(r + 1), b.take(r + 1));
    }
}

proof fn lemma_step<T, A: WeightAccess<T>>(
    acc: &A,
    a: Seq<T>,
    l: int,
    m: int,
    r: int,
    threshold: int,
    sum: int,
    tail: int,
)
    requires
        l <= m < r,
        search_state(acc, a, l, r, threshold, sum),
        forall|i: int| l <= i < m ==> acc.weight_of(#[trigger] a[i]) <= acc.weight_of(a[m]),
        forall|j: int| m < j < r ==> acc.weight_of(a[m]) <= acc.weight_of(#[trigger] a[j]),
        tail == wsum(acc, a.subrange(l, m + 1)),
    ensures
        tail <= sum ==> search_state(acc, a, m + 1, r, threshold, sum - tail),
        tail > sum ==> search_state(acc, a, l, m, threshold, sum),
{
    let n = a.len() as int;
    lemma_wsum_split(acc, a.take(m + 1), l);
    assert(a.take(m + 1).take(l) =~= a.take(l));
    assert(a.take(m + 1).subrange(l, m + 1) =~= a.subrange(l, m + 1));
    assert forall|i: int, j: int| 0 <= i < m + 1 <= j < n implies acc.weight_of(#[trigger] a[i])
        <= acc.weight_of(#[trigger] a[j]) by {
        if l <= i && j < r && i < m {
            assert(acc.weight_of(a[i]) <= acc.weight_of(a[m]));
        }
    }
    assert forall|i: int, j: int| 0 <= i < m <= j < n implies acc.weight_of(#[trigger] a[i])
        <= acc.weight_of(#[trigger] a[j]) by {
        if l <= i && j < r {
            assert(acc.weight_of(a[i]) <= acc.weight_of(a[m]));
        }
    }
}

/// Finds how many of the smallest items fit, together, within `threshold`.
///
/// Returns `(count, slack)`: `count` is the largest number of smallest items whose
/// total weight stays at most `threshold` (all of them when the whole total does), and
/// `slack` is `threshold` minus that total. `a` is reordered so that those `count`
/// items come first and, when `count < a.len()`, the next smallest item stands at
/// position `count`. Positions before `count` may hold them in any order.
pub fn select_prefix_exceeding<T, A: WeightAccess<T>>(acc: &A, a: &mut [T], threshold: u64) -> (res: (
    usize,
    u64,
))
    requires
        old(a)@.len() <= 0xffff_ffff,
        all_valid(acc, old(a)@),
    ensures
        final(a)@.to_multiset() == old(a)@.to_multiset(),
        final(a)@.len() == old(a)@.len(),
        all_valid(acc, final(a)@),
        prefix_result(acc, final(a)@, threshold as int, res.0 as int, res.1 as int),
{
    let ghost n = a@.len() as int;
    let ghost a0 = a@;
    let mut l: usize = 0;
    let mut r: usize = a.len();
    let mut sum: u64 = threshold;
    proof {
        assert(a@.take(0) =~= Seq::<T>::empty());
    }
    while l < r
        invariant
            n == a@.len(),
            n <= 0xffff_ffff,
            a@.to_multiset() == a0.to_multiset(),
            search_state(acc, a@, l as int, r as int, threshold as int, sum as int),
        decreases r - l,
    {
        let m = l + (r - l) / 2;
        let ghost b = a@;
        partition_kth(acc, a, l, r, m - l);
        proof {
            lemma_partition_keeps_state(acc, b, a@, l as int, r as int, threshold as int, sum as int);
        }
        let tail_sum = block_sum(acc, a, l, m + 1);
        proof {
            lemma_step(acc, a@, l as int, m as int, r as int, threshold as int, sum as int, tail_sum as int);
        }
        if tail_sum <= sum {
            l = m + 1;
            sum = sum - tail_sum;
        } else {
            r = m;
        }
    }
    proof {
        if l < n {
            lemma_wsum_push(acc, a@.take(l as int), a@[l as int]);
            assert(a@.take(l as int).push(a@[l as int]) =~= a@.take(l as int + 1));
        }
    }
    (l, sum)
}

/// Replacing one item changes the total by the difference of the two weights.
pub proof fn lemma_wsum_update<T, A: WeightAccess<T>>(acc: &A, s: Seq<T>, j: int, x: T)
    requires
        0 <= j < s.len(),
    ensures
        wsum(acc, s.update(j, x)) == wsum(acc, s) - acc.weight_of(s[j]) + acc.weight_of(x),
    decreases s.len(),
{
    let d = s.drop_last();
    lemma_wsum_push(acc, d, s.last());
    assert(d.push(s.last()) =~= s);
    if j == s.len() - 1 {
        assert(s.update(j, x) =~= d.push(x));
        lemma_wsum_push(acc, d, x);
    } else {
        lemma_wsum_update(acc, d, j, x);
        assert(s.update(j, x) =~= d.update(j, x).push(s.last()));
        lemma_wsum_push(acc, d.update(j, x), s.last());
    }
}

/// Exchanging two positions only reorders the items.
pub proof fn lemma_swap_perm<T>(s: Seq<T>, j: int, k: int)
    requires
        0 <= j < s.len(),
        0 <= k < s.len(),
    ensures
        s.update(j, s[k]).update(k, s[j]).to_multiset() == s.to_multiset(),
{
    broadcast use group_to_multiset_ensures;

    let s1 = s.update(j, s[k]);
    vstd::seq_lib::to_multiset_update(s, j, s[k]);
    vstd::seq_lib::to_multiset_update(s1, k, s[j]);
    if j == k {
        assert(s1.update(k, s[j]) =~= s);
    } else {
        assert(s1[k] == s[k]);
        assert(s.to_multiset().insert(s[k]).remove(s[j]).insert(s[j]).remove(s[k])
            =~= s.to_multiset());
    }
}

/// Reordering a sequence keeps it free of duplicates.
pub proof fn lemma_perm_no_duplicates<T>(s1: Seq<T>, s2: Seq<T>)
    requires
        s1.to_multiset() == s2.to_multiset(),
        s1.no_duplicates(),
    ensures
        s2.no_duplicates(),
{
    s1.lemma_multiset_has_no_duplicates();
    s2.lemma_multiset_has_no_duplicates_conv();
}

/// Selection over items that are their own weight; see [`select_prefix_exceeding`].
pub fn sumth_element(a: &mut [u32], sum: u64) -> (res: (usize, u64))
    requires
        old(a)@.len() <= 0xffff_ffff,
    ensures
        final(a)@.to_multiset() == old(a)@.to_multiset(),
        final(a)@.len() == old(a)@.len(),
        prefix_result(&Plain, final(a)@, sum as int, res.0 as int, res.1 as int),
{
    select_prefix_exceeding(&Plain, a, sum)
}

/// Selection over positions into `w`, each weighing `w[position]`; see
/// [`select_prefix_exceeding`].
pub fn sumth_element_with(a: &mut [u32], sum: u64, w: &[u32]) -> (res: (usize, u64))
    requires
        old(a)@.len() <= 0xffff_ffff,
        forall|i: int| 0 <= i < old(a)@.len() ==> (#[trigger] old(a)@[i] as int) < w@.len(),
    ensures
        final(a)@.to_multiset() == old(a)@.to_multiset(),
        final(a)@.len() == old(a)@.len(),
        all_valid(&ByIndex { w }, final(a)@),
        prefix_result(&ByIndex { w }, final(a)@, sum as int, res.0 as int, res.1 as int),
{
    let acc = ByIndex { w };
    select_prefix_exceeding(&acc, a, sum)
}

/// After `a` reorders only the window `[l, r)` of `b`, the item now at `i` in that
/// window stood somewhere in it before.
pub proof fn lemma_perm_source_window<T>(b: Seq<T>, a: Seq<T>, l: int, r: int, i: int)
    requires
        a.len() == b.len(),
        0 <= l <= i < r <= a.len(),
        a.subrange(l, r).to_multiset() == b.subrange(l, r).to_multiset(),
    ensures
        exists|j: int| l <= j < r && b[j] == a[i],
{
    lemma_perm_source(a.subrange(l, r), b.subrange(l, r), i - l);
    let j = choose|j: int| 0 <= j < r - l && b.subrange(l, r)[j] == a.subrange(l, r)[i - l];
    assert(b[l + j] == a[i]);
}

/// Reordering only the window `[l, r)` keeps the whole sequence a permutation with
/// every item valid.
pub proof fn lemma_perm_keeps<T, A: WeightAccess<T>>(acc: &A, b: Seq<T>, a: Seq<T>, l: int, r: int)
    requires
        a.len() == b.len(),
        0 <= l <= r <= a.len(),
        forall|i: int| 0 <= i < l || r <= i < b.len() ==> #[trigger] a[i] == b[i],
        a.subrange(l, r).to_multiset() == b.subrange(l, r).to_multiset(),
        all_valid(acc, b),
    ensures
        a.to_multiset() == b.to_multiset(),
        all_valid(acc, a),
{
    let n = a.len() as int;
    lemma_perm_window(a, b, l, r, 0, n);
    assert(a.subrange(0, n) =~= a);
    assert(b.subrange(0, n) =~= b);
    assert forall|i: int| 0 <= i < n implies acc.valid(#[trigger] a[i]) by {
        if l <= i < r {
            lemma_perm_source_window(b, a, l, r, i);
        }
    }
}

/// A longer prefix never weighs less.
pub proof fn lemma_prefix_grows<T, A: WeightAccess<T>>(acc: &A, s: Seq<T>, i: int, j: int)
    requires
        0 <= i <= j <= s.len(),
    ensures
        wsum(acc, s.take(i)) <= wsum(acc, s.take(j)),
{
    lemma_wsum_split(acc, s.take(j), i);
    assert(s.take(j).take(i) =~= s.take(i));
    lemma_wsum_nonneg(acc, s.take(j).subrange(i, j));
}

} // verus!
