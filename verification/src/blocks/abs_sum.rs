use vstd::prelude::*;
use crate::compress::{non_decreasing, sort_values};

verus! {

/// `s[0] + ... + s[k - 1]`.
pub open spec fn sum_to(s: Seq<i64>, k: int) -> int
    decreases k,
{
    if k <= 0 {
        0
    } else {
        sum_to(s, k - 1) + s[k - 1]
    }
}

/// `|s[lo] - x| + ... + |s[hi - 1] - x|`.
pub open spec fn dist_sum(s: Seq<i64>, x: int, lo: int, hi: int) -> int
    decreases hi - lo,
{
    if hi <= lo {
        0
    } else {
        dist_sum(s, x, lo, hi - 1) + if s[hi - 1] < x {
            x - s[hi - 1]
        } else {
            s[hi - 1] - x
        }
    }
}

/// Every element lies in `[-2^30, 2^30]`.
pub open spec fn small(s: Seq<i64>) -> bool {
    forall|i: int| 0 <= i < s.len() ==> -0x4000_0000 <= #[trigger] s[i] <= 0x4000_0000
}

/// What a block keeps: its elements in increasing order and their running sums, `sum[k]`
/// being the sum of the `k` smallest.
pub type Cache = (Vec<i64>, Vec<i64>);

/// The block's elements sorted, with running sums that start at `0`.
pub open spec fn cache_of(c: (Seq<i64>, Seq<i64>)) -> bool {
    &&& non_decreasing(c.0)
    &&& small(c.0)
    &&& c.0.len() <= 0x8000_0000
    &&& c.1.len() == c.0.len() + 1
    &&& forall|k: int| 0 <= k <= c.0.len() ==> #[trigger] c.1[k] == sum_to(c.0, k)
}

proof fn lemma_sum_bound(s: Seq<i64>, k: int)
    requires
        small(s),
        0 <= k <= s.len(),
    ensures
        -0x4000_0000 * k <= sum_to(s, k) <= 0x4000_0000 * k,
    decreases k,
{
    if k > 0 {
        lemma_sum_bound(s, k - 1);
    }
}

proof fn lemma_dist_bound(s: Seq<i64>, x: int, hi: int)
    requires
        small(s),
        -0x4000_0000 <= x <= 0x4000_0000,
        0 <= hi <= s.len(),
    ensures
        0 <= dist_sum(s, x, 0, hi) <= 0x8000_0000 * hi,
    decreases hi,
{
    if hi > 0 {
        lemma_dist_bound(s, x, hi - 1);
    }
}

proof fn lemma_dist_split(s: Seq<i64>, x: int, lo: int, mid: int, hi: int)
    requires
        lo <= mid <= hi,
    ensures
        dist_sum(s, x, lo, hi) == dist_sum(s, x, lo, mid) + dist_sum(s, x, mid, hi),
    decreases hi - mid,
{
    if hi > mid {
        lemma_dist_split(s, x, lo, mid, hi - 1);
    }
}

/// Below `x`, each distance is `x` minus the element.
proof fn lemma_dist_below(s: Seq<i64>, x: int, lo: int, hi: int)
    requires
        0 <= lo <= hi <= s.len(),
        forall|j: int| lo <= j < hi ==> #[trigger] s[j] < x,
    ensures
        dist_sum(s, x, lo, hi) == x * (hi - lo) - (sum_to(s, hi) - sum_to(s, lo)),
    decreases hi - lo,
{
    if hi > lo {
        lemma_dist_below(s, x, lo, hi - 1);
        assert(s[hi - 1] < x);
        assert(x * (hi - lo) == x * (hi - 1 - lo) + x) by (nonlinear_arith);
    } else {
        assert(x * (hi - lo) == 0) by (nonlinear_arith)
            requires
                hi == lo,
        ;
    }
}

/// From `x` up, each distance is the element minus `x`.
proof fn lemma_dist_above(s: Seq<i64>, x: int, lo: int, hi: int)
    requires
        0 <= lo <= hi <= s.len(),
        forall|j: int| lo <= j < hi ==> #[trigger] s[j] >= x,
    ensures
        dist_sum(s, x, lo, hi) == (sum_to(s, hi) - sum_to(s, lo)) - x * (hi - lo),
    decreases hi - lo,
{
    if hi > lo {
        lemma_dist_above(s, x, lo, hi - 1);
        assert(s[hi - 1] >= x);
        assert(x * (hi - lo) == x * (hi - 1 - lo) + x) by (nonlinear_arith);
    } else {
        assert(x * (hi - lo) == 0) by (nonlinear_arith)
            requires
                hi == lo,
        ;
    }
}

/// The block's elements sorted, with their running sums.
pub fn cacher(block: &[i64]) -> (c: Cache)
    requires
        small(block@),
        block@.len() <= 0x8000_0000,
    ensures
        cache_of((c.0@, c.1@)),
        c.0@.to_multiset() == block@.to_multiset(),
{
    broadcast use vstd::seq_lib::group_to_multiset_ensures;

    let sorted = sort_values(block);
    proof {
        assert(sorted@.len() == block@.len()) by {
            assert(sorted@.len() == sorted@.to_multiset().len());
            assert(block@.len() == block@.to_multiset().len());
        }
        assert forall|i: int| 0 <= i < sorted@.len() implies -0x4000_0000 <= #[trigger] sorted@[i] <= 0x4000_0000 by {
            assert(sorted@.to_multiset().count(sorted@[i]) > 0);
            assert(block@.contains(sorted@[i]));
        }
    }
    let mut sum: Vec<i64> = Vec::new();
    let mut acc: i64 = 0;
    sum.push(acc);
    let mut i: usize = 0;
    while i < sorted.len()
        invariant
            i <= sorted@.len(),
            sorted@.len() <= 0x8000_0000,
            small(sorted@),
            sum@.len() == i + 1,
            acc == sum_to(sorted@, i as int),
            forall|k: int| 0 <= k <= i ==> #[trigger] sum@[k] == sum_to(sorted@, k),
        decreases sorted@.len() - i,
    {
        proof {
            lemma_sum_bound(sorted@, i + 1);
        }
        acc = acc + sorted[i];
        sum.push(acc);
        i = i + 1;
    }
    (sorted, sum)
}

/// `|a - x|` summed over a part of a block.
pub fn resolver(block: &[i64], x: &i64) -> (r: i64)
    requires
        small(block@),
        block@.len() <= 0x8000_0000,
        -0x4000_0000 <= *x <= 0x4000_0000,
    ensures
        r == dist_sum(block@, *x as int, 0, block@.len() as int),
{
    let mut acc: i64 = 0;
    let mut i: usize = 0;
    while i < block.len()
        invariant
            i <= block@.len(),
            block@.len() <= 0x8000_0000,
            small(block@),
            -0x4000_0000 <= *x <= 0x4000_0000,
            acc == dist_sum(block@, *x as int, 0, i as int),
        decreases block@.len() - i,
    {
        proof {
            lemma_dist_bound(block@, *x as int, i + 1);
        }
        let a = block[i];
        let d = if a < *x {
            *x - a
        } else {
            a - *x
        };
        acc = acc + d;
        i = i + 1;
    }
    acc
}

/// `|a - x|` summed over a whole block, from what it keeps: the elements below `x` are the
/// first `k`, found by binary search, and the running sums give both sides.
pub fn cache_resolver(cache: &Cache, x: &i64) -> (r: i64)
    requires
        cache_of((cache.0@, cache.1@)),
        -0x4000_0000 <= *x <= 0x4000_0000,
    ensures
        r == dist_sum(cache.0@, *x as int, 0, cache.0@.len() as int),
{
    let sorted = &cache.0;
    let sum = &cache.1;
    let n = sorted.len();
    let ghost s = sorted@;
    let mut lo: usize = 0;
    let mut hi: usize = n;
    while lo < hi
        invariant
            hi <= n == s.len(),
            s == sorted@,
            lo <= hi,
            non_decreasing(s),
            forall|j: int| 0 <= j < lo ==> #[trigger] s[j] < *x,
            forall|j: int| hi <= j < n ==> #[trigger] s[j] >= *x,
        decreases hi - lo,
    {
        let mid = lo + (hi - lo) / 2;
        if sorted[mid] < *x {
            lo = mid + 1;
        } else {
            hi = mid;
        }
    }
    let k = lo;
    proof {
        lemma_dist_split(s, *x as int, 0, k as int, n as int);
        lemma_dist_below(s, *x as int, 0, k as int);
        lemma_dist_above(s, *x as int, k as int, n as int);
        lemma_sum_bound(s, k as int);
        lemma_sum_bound(s, n as int);
        lemma_dist_bound(s, *x as int, n as int);
        assert(sum_to(s, 0) == 0);
        let xv = *x as int;
        assert(-0x4000_0000 * 0x8000_0000int <= xv * k <= 0x4000_0000 * 0x8000_0000int) by (nonlinear_arith)
            requires
                -0x4000_0000 <= xv <= 0x4000_0000,
                0 <= k <= 0x8000_0000int,
        ;
        assert(-0x4000_0000 * 0x8000_0000int <= xv * (n - k) <= 0x4000_0000 * 0x8000_0000int) by (nonlinear_arith)
            requires
                -0x4000_0000 <= xv <= 0x4000_0000,
                0 <= n - k <= 0x8000_0000int,
        ;
        assert(-0x4000_0000 * 0x8000_0000int <= 0x4000_0000 * k <= 0x4000_0000 * 0x8000_0000int) by (nonlinear_arith)
            requires
                0 <= k <= 0x8000_0000int,
        ;
        assert(-0x4000_0000 * 0x8000_0000int <= 0x4000_0000 * n <= 0x4000_0000 * 0x8000_0000int) by (nonlinear_arith)
            requires
                0 <= n <= 0x8000_0000int,
        ;
    }
    let below = sum[k];
    let all = sum[n];
    let above = all - below;
    (*x * (k as i64) - below) + (above - *x * ((n - k) as i64))
}

/// The sum of two answers.
pub fn merger(a: i64, b: i64) -> (r: i64)
    requires
        i64::MIN <= a + b <= i64::MAX,
    ensures
        r == a + b,
{
    a + b
}

} // verus!
