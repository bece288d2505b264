use vstd::prelude::*;

use crate::select::{
    all_valid, lemma_perm_keeps, lemma_perm_no_duplicates, lemma_perm_source_window,
    lemma_prefix_grows, lemma_swap_perm, lemma_wsum_nonneg, lemma_wsum_perm, lemma_wsum_push,
    lemma_wsum_split, lemma_wsum_update, partition_kth, select_prefix_exceeding, wsum, ByIndex,
    Plain, WeightAccess,
};

verus! {

/// Total weight of the positions `idx` into `w`.
pub open spec fn index_sum(w: &[u32], idx: Seq<u32>) -> int {
    wsum(&ByIndex { w }, idx)
}

/// Total of all the weights.
pub open spec fn total(w: &[u32]) -> int {
    wsum(&Plain, w@)
}

/// `idx` names distinct positions of `w` whose weights add up to a total in `[l, u]`.
pub open spec fn is_witness(w: &[u32], idx: Seq<u32>, l: int, u: int) -> bool {
    &&& idx.no_duplicates()
    &&& forall|q: int| 0 <= q < idx.len() ==> (#[trigger] idx[q] as int) < w@.len()
    &&& l <= index_sum(w, idx) <= u
}

/// Reorders `a` so that, when the result `k` is positive, its first `k` items weigh
/// between `l` and `u` together; `0` means that no such choice was found.
///
/// With `t` the number of lightest items that stay below `l`, the lightest `t + 1`
/// items reach `l`; if they also stay within `u` they are the answer. Otherwise the
/// `t` lightest are traded, one at a time, for the heaviest unused items until their
/// total reaches `l`.
fn witness_prefix<T: Copy, A: WeightAccess<T>>(acc: &A, a: &mut [T], l: u32, u: u32) -> (k: usize)
    requires
        1 <= l <= u,
        old(a)@.len() <= 0xffff_ffff,
        all_valid(acc, old(a)@),
    ensures
        final(a)@.to_multiset() == old(a)@.to_multiset(),
        final(a)@.len() == old(a)@.len(),
        all_valid(acc, final(a)@),
        k <= final(a)@.len(),
        k > 0 ==> l <= wsum(acc, final(a)@.take(k as int)) <= u,
        l <= wsum(acc, old(a)@) <= u ==> k > 0,
{
    let ghost a0 = a@;
    let (t, slack) = select_prefix_exceeding(acc, a, (l - 1) as u64);
    let n = a.len();
    proof {
        lemma_wsum_perm(acc, a@, a0);
        assert(a@.take(a@.len() as int) =~= a@);
    }
    if t == n {
        return 0;
    }
    proof {
        lemma_wsum_nonneg(acc, a@.take(t as int));
    }
    let sum0: u64 = (l - 1) as u64 - slack;
    let ghost a1 = a@;
    partition_kth(acc, a, t, n, 0);
    proof {
        assert(a@.take(t as int) =~= a1.take(t as int));
        lemma_perm_source_window(a1, a@, t as int, n as int, t as int);
        lemma_wsum_push(acc, a@.take(t as int), a@[t as int]);
        assert(a@.take(t as int).push(a@[t as int]) =~= a@.take(t as int + 1));
        lemma_perm_keeps(acc, a1, a@, t as int, n as int);
        lemma_wsum_nonneg(acc, a@.take(t as int + 1));
        lemma_prefix_grows(acc, a@, t as int + 1, n as int);
        lemma_wsum_perm(acc, a@, a0);
        assert(a@.take(n as int) =~= a@);
    }
    // Position `t` now holds the lightest unused item.
    let wt = acc.weight(&a[t]);
    if sum0 + wt as u64 <= u as u64 {
        return t + 1;
    }
    // Gather the `t` heaviest items at the end, where the trades take them from.
    if t < n - 1 - t && t > 0 {
        let ghost a2 = a@;
        partition_kth(acc, a, t + 1, n, n - 1 - t - t);
        proof {
            assert(a@.take(t as int) =~= a2.take(t as int));
            lemma_perm_keeps(acc, a2, a@, t as int + 1, n as int);
        }
    }
    // Fewer unused items than chosen ones: gather the lightest chosen ones in front,
    // where the trades give them up.
    if n - t < t {
        let ghost a3 = a@;
        partition_kth(acc, a, 0, t, n - t - 1);
        proof {
            lemma_perm_keeps(acc, a3, a@, 0, t as int);
            assert(a@.subrange(0, t as int) =~= a@.take(t as int));
            assert(a3.subrange(0, t as int) =~= a3.take(t as int));
            lemma_wsum_perm(acc, a@.take(t as int), a3.take(t as int));
        }
    }
    let mut sum: u64 = sum0;
    let mut j: usize = 0;
    let mut k: usize = n - 1;
    while sum < l as u64 && j < t && t <= k
        invariant
            t < n == a@.len(),
            n <= 0xffff_ffff,
            j <= t,
            j + k == n - 1,
            a@.to_multiset() == a0.to_multiset(),
            all_valid(acc, a@),
            sum == wsum(acc, a@.take(t as int)),
        decreases t - j,
    {
        let ghost b = a@;
        let wj = acc.weight(&a[j]);
        let wk = acc.weight(&a[k]);
        let x = a[j];
        let y = a[k];
        a[j] = y;
        a[k] = x;
        proof {
            lemma_swap_perm(b, j as int, k as int);
            assert(a@.take(t as int) =~= b.take(t as int).update(j as int, b[k as int]));
            lemma_wsum_update(acc, b.take(t as int), j as int, b[k as int]);
            lemma_wsum_nonneg(acc, b.take(t as int));
            lemma_wsum_nonneg(acc, a@.take(t as int));
            assert(t * 0xffff_ffff + 0xffff_ffff <= 0xffff_ffff * 0xffff_ffff) by (nonlinear_arith)
                requires
                    t < 0xffff_ffff,
            ;
            assert forall|q: int| 0 <= q < n implies acc.valid(#[trigger] a@[q]) by {
                assert(acc.valid(b[q]));
                assert(acc.valid(b[j as int]));
                assert(acc.valid(b[k as int]));
            }
        }
        sum = sum + wk as u64 - wj as u64;
        j = j + 1;
        k = k - 1;
    }
    // A single trade may carry the total from below `l` past `u`.
    if sum >= l as u64 && sum <= u as u64 {
        t
    } else {
        0
    }
}

/// A weight paired with the position it had in the input.
#[derive(Clone, Copy)]
pub struct WeightIndex {
    pub w: u32,
    pub i: u32,
}

/// Reads the weight stored in a [`WeightIndex`].
pub struct Paired;

impl WeightAccess<WeightIndex> for Paired {
    open spec fn valid(&self, x: WeightIndex) -> bool {
        true
    }

    open spec fn weight_of(&self, x: WeightIndex) -> u32 {
        x.w
    }

    fn weight(&self, x: &WeightIndex) -> (r: u32) {
        x.w
    }
}

/// Every pair holds the weight that `w` has at the pair's position.
pub open spec fn pairs_agree(w: &[u32], s: Seq<WeightIndex>) -> bool {
    forall|q: int|
        0 <= q < s.len() ==> (#[trigger] s[q].i as int) < w@.len() && s[q].w == w@[s[q].i as int]
}

/// Finds distinct positions of `w` whose weights add up to a total in `[l, u]`,
/// working on materialized (weight, position) pairs.
///
/// An empty result means that none was found; when `l == 0` it is itself the answer.
pub fn find_subset(l: u32, u: u32, w: &[u32]) -> (r: Vec<u32>)
    requires
        l <= u,
        w@.len() <= 0xffff_ffff,
    ensures
        l == 0 ==> r@.len() == 0,
        r@.len() > 0 ==> is_witness(w, r@, l as int, u as int),
        1 <= l && l <= total(w) <= u ==> r@.len() > 0,
{
    if l == 0 {
        return Vec::new();
    }
    let n = w.len();
    let mut wi: Vec<WeightIndex> = Vec::new();
    let mut q: usize = 0;
    while q < n
        invariant
            q <= n == w@.len() <= 0xffff_ffff,
            wi@.len() == q,
            forall|p: int| 0 <= p < q ==> #[trigger] wi@[p] == (WeightIndex { w: w@[p], i: p as u32 }),
            wsum(&Paired, wi@) == wsum(&Plain, w@.take(q as int)),
        decreases n - q,
    {
        proof {
            lemma_wsum_push(&Paired, wi@, WeightIndex { w: w@[q as int], i: q as u32 });
            lemma_wsum_push(&Plain, w@.take(q as int), w@[q as int]);
            assert(w@.take(q as int).push(w@[q as int]) =~= w@.take(q as int + 1));
        }
        wi.push(WeightIndex { w: w[q], i: q as u32 });
        q = q + 1;
    }
    let ghost w0 = wi@;
    proof {
        assert(w@.take(n as int) =~= w@);
        assert(w0.no_duplicates()) by {
            assert forall|x1: int, x2: int| 0 <= x1 < w0.len() && 0 <= x2 < w0.len() && x1 != x2
                implies w0[x1] != w0[x2] by {
                assert(w0[x1].i != w0[x2].i);
            }
        }
    }
    let k = witness_prefix(&Paired, wi.as_mut_slice(), l, u);
    let ghost s = wi@;
    proof {
        lemma_perm_no_duplicates(w0, s);
        assert forall|q: int| 0 <= q < s.len() implies (#[trigger] s[q].i as int) < w@.len()
            && s[q].w == w@[s[q].i as int] by {
            assert(s.subrange(0, n as int) =~= s);
            assert(w0.subrange(0, n as int) =~= w0);
            lemma_perm_source_window(w0, s, 0, n as int, q);
        }
    }
    let mut r: Vec<u32> = Vec::new();
    let mut p: usize = 0;
    while p < k
        invariant
            k <= s.len() == n,
            wi@ == s,
            s.no_duplicates(),
            pairs_agree(w, s),
            p <= k,
            r@.len() == p,
            forall|q: int| 0 <= q < p ==> #[trigger] r@[q] == s[q].i,
            index_sum(w, r@) == wsum(&Paired, s.take(p as int)),
        decreases k - p,
    {
        proof {
            lemma_wsum_push(&ByIndex { w }, r@, s[p as int].i);
            lemma_wsum_push(&Paired, s.take(p as int), s[p as int]);
            assert(s.take(p as int).push(s[p as int]) =~= s.take(p as int + 1));
        }
        r.push(wi[p].i);
        p = p + 1;
    }
    proof {
        assert forall|q1: int, q2: int| 0 <= q1 < r@.len() && 0 <= q2 < r@.len() && q1 != q2
            implies r@[q1] != r@[q2] by {
            if r@[q1] == r@[q2] {
                assert(s[q1] == s[q2]);
            }
        }
    }
    r
}

/// Finds distinct positions of `w` whose weights add up to a total in `[l, u]`,
/// working on positions into `w` rather than on copies of the weights.
///
/// An empty result means that none was found; when `l == 0` it is itself the answer.
pub fn find_subset2(l: u32, u: u32, w: &[u32]) -> (r: Vec<u32>)
    requires
        l <= u,
        w@.len() <= 0xffff_ffff,
    ensures
        l == 0 ==> r@.len() == 0,
        r@.len() > 0 ==> is_witness(w, r@, l as int, u as int),
        1 <= l && l <= total(w) <= u ==> r@.len() > 0,
{
    if l == 0 {
        return Vec::new();
    }
    let n = w.len();
    let mut ind: Vec<u32> = Vec::new();
    let mut q: usize = 0;
    while q < n
        invariant
            q <= n == w@.len() <= 0xffff_ffff,
            ind@.len() == q,
            forall|p: int| 0 <= p < q ==> #[trigger] ind@[p] == p as u32,
            wsum(&ByIndex { w }, ind@) == wsum(&Plain, w@.take(q as int)),
        decreases n - q,
    {
        proof {
            lemma_wsum_push(&ByIndex { w }, ind@, q as u32);
            lemma_wsum_push(&Plain, w@.take(q as int), w@[q as int]);
            assert(w@.take(q as int).push(w@[q as int]) =~= w@.take(q as int + 1));
        }
        ind.push(q as u32);
        q = q + 1;
    }
    let ghost i0 = ind@;
    let acc = ByIndex { w };
    proof {
        assert(w@.take(n as int) =~= w@);
        assert(i0.no_duplicates());
        assert(all_valid(&acc, i0));
    }
    let k = witness_prefix(&acc, ind.as_mut_slice(), l, u);
    proof {
        lemma_perm_no_duplicates(i0, ind@);
    }
    ind.truncate(k);
    proof {
        assert(ind@.no_duplicates());
    }
    ind
}

/// Whether `ans` is an acceptable answer: with `solvable`, positions of `w` whose
/// weights add up to a total in `[l, u]`; without it, no positions at all.
pub open spec fn answer_ok(ans: Seq<u32>, l: int, u: int, w: &[u32], solvable: bool) -> bool {
    if solvable {
        &&& forall|q: int| 0 <= q < ans.len() ==> (#[trigger] ans[q] as int) < w@.len()
        &&& l <= index_sum(w, ans) <= u
    } else {
        ans.len() == 0
    }
}

/// Checks an answer against the expected verdict; see [`answer_ok`].
pub fn assert_correct(ans: &[u32], l: u32, u: u32, w: &[u32], solvable: bool) -> (r: bool)
    ensures
        r == answer_ok(ans@, l as int, u as int, w, solvable),
{
    if !solvable {
        return ans.len() == 0;
    }
    let acc = ByIndex { w };
    let mut total: u64 = 0;
    let mut q: usize = 0;
    while q < ans.len()
        invariant
            q <= ans@.len(),
            acc.w == w,
            total <= u,
            total == index_sum(w, ans@.take(q as int)),
            forall|p: int| 0 <= p < q ==> (#[trigger] ans@[p] as int) < w@.len(),
        decreases ans@.len() - q,
    {
        proof {
            lemma_wsum_push(&acc, ans@.take(q as int), ans@[q as int]);
            assert(ans@.take(q as int).push(ans@[q as int]) =~= ans@.take(q as int + 1));
            lemma_wsum_split(&acc, ans@, q as int + 1);
            assert(ans@.take(q as int + 1).len() == q + 1);
            lemma_wsum_nonneg(&acc, ans@.subrange(q as int + 1, ans@.len() as int));
        }
        if ans[q] as usize >= w.len() {
            return false;
        }
        let x = w[ans[q] as usize];
        proof {
            assert(x == acc.weight_of(ans@[q as int]));
            assert(index_sum(w, ans@.take(q as int + 1)) == total + x);
            assert(index_sum(w, ans@) >= total + x);
        }
        total = total + x as u64;
        if total > u as u64 {
            return false;
        }
        q = q + 1;
    }
    proof {
        assert(ans@.take(q as int) =~= ans@);
    }
    total >= l as u64
}

} // verus!
