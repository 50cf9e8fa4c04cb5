use vstd::prelude::*;
use crate::fenwick::range_sum;

verus! {

/// `c[lo] + ... + c[hi - 1]`.
pub open spec fn total(c: Seq<usize>, lo: int, hi: int) -> int
    decreases hi - lo,
{
    if hi <= lo {
        0
    } else {
        total(c, lo, hi - 1) + c[hi - 1]
    }
}

/// `c[lo] * v[lo] + ... + c[hi - 1] * v[hi - 1]`.
pub open spec fn weighted(c: Seq<usize>, v: Seq<i64>, lo: int, hi: int) -> int
    decreases hi - lo,
{
    if hi <= lo {
        0
    } else {
        weighted(c, v, lo, hi - 1) + c[hi - 1] * v[hi - 1]
    }
}

/// `|x|`.
pub open spec fn abs(x: int) -> int {
    if x < 0 {
        -x
    } else {
        x
    }
}

/// `c[lo] * |v[lo] - x| + ... + c[hi - 1] * |v[hi - 1] - x|`: the summed distance to `x` of a
/// multiset holding `c[j]` copies of `v[j]`.
pub open spec fn deviation(c: Seq<usize>, v: Seq<i64>, x: int, lo: int, hi: int) -> int
    decreases hi - lo,
{
    if hi <= lo {
        0
    } else {
        deviation(c, v, x, lo, hi - 1) + c[hi - 1] * abs(v[hi - 1] - x)
    }
}

/// Two count sequences that differ at most at `r`.
pub open spec fn differ_at(c1: Seq<usize>, c2: Seq<usize>, r: int) -> bool {
    &&& c1.len() == c2.len()
    &&& forall|j: int| 0 <= j < c1.len() && j != r ==> #[trigger] c1[j] == c2[j]
}

/// The total over a stretch is the totals of its two halves.
pub proof fn lemma_total_split(c: Seq<usize>, lo: int, mid: int, hi: int)
    requires
        lo <= mid <= hi,
    ensures
        total(c, lo, hi) == total(c, lo, mid) + total(c, mid, hi),
    decreases hi - mid,
{
    if hi > mid {
        lemma_total_split(c, lo, mid, hi - 1);
    }
}

/// The weighted sum over a stretch is the sums over its two halves.
pub proof fn lemma_weighted_split(c: Seq<usize>, v: Seq<i64>, lo: int, mid: int, hi: int)
    requires
        lo <= mid <= hi,
    ensures
        weighted(c, v, lo, hi) == weighted(c, v, lo, mid) + weighted(c, v, mid, hi),
    decreases hi - mid,
{
    if hi > mid {
        lemma_weighted_split(c, v, lo, mid, hi - 1);
    }
}

/// Totals of counts are never negative.
pub proof fn lemma_total_nonneg(c: Seq<usize>, lo: int, hi: int)
    ensures
        total(c, lo, hi) >= 0,
    decreases hi - lo,
{
    if hi > lo {
        lemma_total_nonneg(c, lo, hi - 1);
    }
}

/// Changing the count at `r` changes the totals of the stretches that hold `r`, and only those.
pub proof fn lemma_differ_at(c1: Seq<usize>, c2: Seq<usize>, v: Seq<i64>, r: int, lo: int, hi: int)
    requires
        differ_at(c1, c2, r),
        0 <= lo,
        hi <= c1.len(),
    ensures
        total(c2, lo, hi) == total(c1, lo, hi) + (if lo <= r < hi { c2[r] - c1[r] } else { 0 }),
        weighted(c2, v, lo, hi) == weighted(c1, v, lo, hi) + (if lo <= r < hi {
            (c2[r] - c1[r]) * v[r]
        } else {
            0
        }),
    decreases hi - lo,
{
    if hi > lo {
        lemma_differ_at(c1, c2, v, r, lo, hi - 1);
        if hi - 1 == r {
            assert(c2[r] * v[r] - c1[r] * v[r] == (c2[r] - c1[r]) * v[r]) by (nonlinear_arith);
        }
    }
}

/// With every value in `[-2^30, 2^30]`, the weighted sum is at most `2^30` per counted copy.
pub proof fn lemma_weighted_bound(c: Seq<usize>, v: Seq<i64>, lo: int, hi: int)
    requires
        0 <= lo,
        hi <= c.len(),
        hi <= v.len(),
        forall|j: int| 0 <= j < v.len() ==> -0x4000_0000 <= #[trigger] v[j] <= 0x4000_0000,
    ensures
        abs(weighted(c, v, lo, hi)) <= 0x4000_0000 * total(c, lo, hi),
    decreases hi - lo,
{
    if hi > lo {
        lemma_weighted_bound(c, v, lo, hi - 1);
        let x = c[hi - 1];
        let y = v[hi - 1];
        assert(abs(x * y) <= 0x4000_0000 * x) by (nonlinear_arith)
            requires
                x >= 0,
                -0x4000_0000 <= y <= 0x4000_0000,
        ;
    }
}

/// Below a value no greater than `x` the distance is `x` minus the value; above a value no
/// smaller than `x`, the value minus `x`.
proof fn lemma_deviation_sides(c: Seq<usize>, v: Seq<i64>, x: int, lo: int, hi: int)
    requires
        0 <= lo,
        hi <= c.len(),
        hi <= v.len(),
    ensures
        (forall|j: int| lo <= j < hi ==> #[trigger] v[j] <= x) ==> deviation(c, v, x, lo, hi) == x * total(c, lo, hi) - weighted(c, v, lo, hi),
        (forall|j: int| lo <= j < hi ==> #[trigger] v[j] >= x) ==> deviation(c, v, x, lo, hi) == weighted(c, v, lo, hi) - x * total(c, lo, hi),
    decreases hi - lo,
{
    if hi > lo {
        lemma_deviation_sides(c, v, x, lo, hi - 1);
        let k = c[hi - 1];
        let y = v[hi - 1] as int;
        assert(x * (total(c, lo, hi - 1) + k) == x * total(c, lo, hi - 1) + x * k) by (nonlinear_arith);
        assert(k * (x - y) == x * k - k * y) by (nonlinear_arith);
        assert(k * (y - x) == k * y - x * k) by (nonlinear_arith);
    }
}

proof fn lemma_deviation_split(c: Seq<usize>, v: Seq<i64>, x: int, lo: int, mid: int, hi: int)
    requires
        lo <= mid <= hi,
    ensures
        deviation(c, v, x, lo, hi) == deviation(c, v, x, lo, mid) + deviation(c, v, x, mid, hi),
    decreases hi - mid,
{
    if hi > mid {
        lemma_deviation_split(c, v, x, lo, mid, hi - 1);
    }
}

/// With every value in `[-2^30, 2^30]`, each copy is at most `2^31` away from such an `x`.
pub proof fn lemma_deviation_bound(c: Seq<usize>, v: Seq<i64>, x: int, lo: int, hi: int)
    requires
        0 <= lo,
        hi <= c.len(),
        hi <= v.len(),
        -0x4000_0000 <= x <= 0x4000_0000,
        forall|j: int| 0 <= j < v.len() ==> -0x4000_0000 <= #[trigger] v[j] <= 0x4000_0000,
    ensures
        0 <= deviation(c, v, x, lo, hi) <= 0x8000_0000 * total(c, lo, hi),
    decreases hi - lo,
{
    if hi > lo {
        lemma_deviation_bound(c, v, x, lo, hi - 1);
        let k = c[hi - 1];
        let d = abs(v[hi - 1] - x);
        assert(0 <= k * d <= 0x8000_0000 * k) by (nonlinear_arith)
            requires
                k >= 0,
                0 <= d <= 0x8000_0000,
        ;
    }
}

/// The summed distance to `v[r]` of a multiset of increasing values, in terms of the counts
/// and weighted sums below and above `r`.
pub proof fn lemma_deviation_at(c: Seq<usize>, v: Seq<i64>, r: int, m: int)
    requires
        0 <= r < m,
        m <= c.len(),
        m <= v.len(),
        forall|i: int, j: int| 0 <= i < j < v.len() ==> v[i] < v[j],
    ensures
        deviation(c, v, v[r] as int, 0, m) == (v[r] * total(c, 0, r) - weighted(c, v, 0, r)) + (weighted(c, v, r + 1, m) - v[r] * total(c, r + 1, m)),
{
    let x = v[r] as int;
    lemma_deviation_split(c, v, x, 0, r, m);
    lemma_deviation_split(c, v, x, r, r + 1, m);
    assert(deviation(c, v, x, r, r) == 0);
    assert(deviation(c, v, x, r, r + 1) == 0) by {
        assert(abs(v[r] - x) == 0);
        assert(c[r] * 0 == 0);
    }
    assert forall|j: int| 0 <= j < r implies #[trigger] v[j] <= x by {}
    assert forall|j: int| r + 1 <= j < m implies #[trigger] v[j] >= x by {}
    lemma_deviation_sides(c, v, x, 0, r);
    lemma_deviation_sides(c, v, x, r + 1, m);
}

/// Moving the point from `y` to `x` changes the summed distance by exactly `x - y` per copy
/// of a value below both, by `y - x` per copy of a value above both, and by no less than
/// `-|x - y|` per copy in any case.
proof fn lemma_deviation_shift(c: Seq<usize>, v: Seq<i64>, x: int, y: int, lo: int, hi: int)
    requires
        0 <= lo,
        hi <= c.len(),
        hi <= v.len(),
    ensures
        deviation(c, v, x, lo, hi) - deviation(c, v, y, lo, hi) >= -abs(x - y) * total(c, lo, hi),
        (forall|j: int| lo <= j < hi ==> #[trigger] v[j] <= x && v[j] <= y) ==> deviation(c, v, x, lo, hi)
            - deviation(c, v, y, lo, hi) == (x - y) * total(c, lo, hi),
        (forall|j: int| lo <= j < hi ==> #[trigger] v[j] >= x && v[j] >= y) ==> deviation(c, v, x, lo, hi)
            - deviation(c, v, y, lo, hi) == (y - x) * total(c, lo, hi),
    decreases hi - lo,
{
    if hi > lo {
        lemma_deviation_shift(c, v, x, y, lo, hi - 1);
        let k = c[hi - 1] as int;
        let w = v[hi - 1] as int;
        let t = total(c, lo, hi - 1);
        assert(k * abs(w - x) - k * abs(w - y) >= -abs(x - y) * k) by (nonlinear_arith)
            requires
                k >= 0,
        ;
        assert(-abs(x - y) * t + -abs(x - y) * k == -abs(x - y) * (t + k)) by (nonlinear_arith);
        if w <= x && w <= y {
            assert(k * abs(w - x) - k * abs(w - y) == (x - y) * k) by (nonlinear_arith)
                requires
                    w <= x,
                    w <= y,
            ;
        }
        if w >= x && w >= y {
            assert(k * abs(w - x) - k * abs(w - y) == (y - x) * k) by (nonlinear_arith)
                requires
                    w >= x,
                    w >= y,
            ;
        }
        assert((x - y) * t + (x - y) * k == (x - y) * (t + k)) by (nonlinear_arith);
        assert((y - x) * t + (y - x) * k == (y - x) * (t + k)) by (nonlinear_arith);
    }
}

/// `f(x) = Σ|x - a_k|` is smallest at the median: the summed distance of a multiset of
/// increasing values to its lower median (the value holding the element of rank
/// `⌈len / 2⌉`) is no more than its summed distance to any `x`.
pub proof fn lemma_median_least(c: Seq<usize>, v: Seq<i64>, r: int, m: int, x: int)
    requires
        0 <= r < m,
        m <= c.len(),
        m <= v.len(),
        forall|i: int, j: int| 0 <= i < j < v.len() ==> v[i] < v[j],
        total(c, 0, r) < (total(c, 0, m) + 1) / 2 <= total(c, 0, r + 1),
    ensures
        deviation(c, v, v[r] as int, 0, m) <= deviation(c, v, x, 0, m),
{
    let y = v[r] as int;
    let t = total(c, 0, m);
    lemma_total_split(c, 0, r, m);
    lemma_total_split(c, r, r + 1, m);
    lemma_total_split(c, 0, r + 1, m);
    lemma_total_nonneg(c, 0, r);
    lemma_total_nonneg(c, r + 1, m);
    if x >= y {
        lemma_deviation_split(c, v, x, 0, r + 1, m);
        lemma_deviation_split(c, v, y, 0, r + 1, m);
        assert forall|j: int| 0 <= j < r + 1 implies #[trigger] v[j] <= x && v[j] <= y by {
            if j < r {
                assert(v[j] < v[r]);
            }
        }
        lemma_deviation_shift(c, v, x, y, 0, r + 1);
        lemma_deviation_shift(c, v, x, y, r + 1, m);
        let t1 = total(c, 0, r + 1);
        let t2 = total(c, r + 1, m);
        assert(abs(x - y) == x - y);
        assert((x - y) * t1 + -(x - y) * t2 >= 0) by (nonlinear_arith)
            requires
                x - y >= 0,
                t1 >= t2,
        ;
    } else {
        lemma_deviation_split(c, v, x, 0, r, m);
        lemma_deviation_split(c, v, y, 0, r, m);
        assert forall|j: int| r <= j < m implies #[trigger] v[j] >= x && v[j] >= y by {
            if j > r {
                assert(v[r] < v[j]);
            }
        }
        lemma_deviation_shift(c, v, x, y, 0, r);
        lemma_deviation_shift(c, v, x, y, r, m);
        let t0 = total(c, 0, r);
        let t3 = total(c, r, m);
        assert(abs(x - y) == y - x);
        assert((y - x) * t3 + -(y - x) * t0 >= 0) by (nonlinear_arith)
            requires
                y - x >= 0,
                t3 >= t0,
        ;
    }
}

/// `x` stands to `v` as `k` says: below it (`k < 0`), equal to it (`k == 0`) or above it.
pub open spec fn holds(x: int, v: int, k: int) -> bool {
    if k < 0 {
        x < v
    } else if k == 0 {
        x == v
    } else {
        x > v
    }
}

/// How many of `s[lo..hi]` stand to `v` as `k` says.
pub open spec fn count(s: Seq<int>, lo: int, hi: int, v: int, k: int) -> int
    decreases hi - lo,
{
    if hi <= lo {
        0
    } else {
        count(s, lo, hi - 1, v, k) + if holds(s[hi - 1], v, k) {
            1int
        } else {
            0
        }
    }
}

/// Taking in `s[lo - 1]` on the left adds one to the count exactly when it qualifies.
pub proof fn lemma_count_prepend(s: Seq<int>, lo: int, hi: int, v: int, k: int)
    requires
        lo <= hi,
    ensures
        count(s, lo - 1, hi, v, k) == count(s, lo, hi, v, k) + if holds(s[lo - 1], v, k) {
            1int
        } else {
            0
        },
    decreases hi - lo,
{
    if hi > lo {
        lemma_count_prepend(s, lo, hi - 1, v, k);
    } else {
        assert(count(s, lo - 1, lo - 1, v, k) == 0);
    }
}

/// A count is at most the length of the stretch.
pub proof fn lemma_count_bound(s: Seq<int>, lo: int, hi: int, v: int, k: int)
    requires
        lo <= hi,
    ensures
        0 <= count(s, lo, hi, v, k) <= hi - lo,
    decreases hi - lo,
{
    if hi > lo {
        lemma_count_bound(s, lo, hi - 1, v, k);
    }
}

/// When every element qualifies, the count is the length of the stretch.
pub proof fn lemma_count_all(s: Seq<int>, lo: int, hi: int, v: int, k: int)
    requires
        lo <= hi,
        forall|j: int| lo <= j < hi ==> holds(#[trigger] s[j], v, k),
    ensures
        count(s, lo, hi, v, k) == hi - lo,
    decreases hi - lo,
{
    if hi > lo {
        lemma_count_all(s, lo, hi - 1, v, k);
    }
}

/// Stretches whose elements qualify alike have equal counts.
pub proof fn lemma_count_ext(s: Seq<int>, t: Seq<int>, lo: int, hi: int, v: int, w: int, k: int)
    requires
        forall|j: int| lo <= j < hi ==> (holds(#[trigger] s[j], v, k) <==> holds(t[j], w, k)),
    ensures
        count(s, lo, hi, v, k) == count(t, lo, hi, w, k),
    decreases hi - lo,
{
    if hi > lo {
        lemma_count_ext(s, t, lo, hi - 1, v, w, k);
    }
}

/// Those below `v + 1` are those below `v` and those equal to it.
pub proof fn lemma_count_below_step(s: Seq<int>, lo: int, hi: int, v: int)
    ensures
        count(s, lo, hi, v + 1, -1) == count(s, lo, hi, v, -1) + count(s, lo, hi, v, 0),
    decreases hi - lo,
{
    if hi > lo {
        lemma_count_below_step(s, lo, hi - 1, v);
    }
}

/// Each element is above `v` or below `v + 1`, never both.
pub proof fn lemma_count_above(s: Seq<int>, lo: int, hi: int, v: int)
    requires
        lo <= hi,
    ensures
        count(s, lo, hi, v, 1) + count(s, lo, hi, v + 1, -1) == hi - lo,
    decreases hi - lo,
{
    if hi > lo {
        lemma_count_above(s, lo, hi - 1, v);
    }
}

/// Prefix sums of the per-value counts of a window count the elements below a value.
pub proof fn lemma_prefix_counts(s: Seq<int>, lo: int, hi: int, c: Seq<int>, v: int)
    requires
        0 <= v <= c.len(),
        forall|j: int| lo <= j < hi ==> #[trigger] s[j] >= 0,
        forall|w: int| 0 <= w < c.len() ==> #[trigger] c[w] == count(s, lo, hi, w, 0),
    ensures
        range_sum(c, 0, v) == count(s, lo, hi, v, -1),
    decreases v,
{
    if v == 0 {
        lemma_count_all_below_zero(s, lo, hi, v);
    } else {
        lemma_prefix_counts(s, lo, hi, c, v - 1);
        lemma_count_below_step(s, lo, hi, v - 1);
    }
}

/// Nothing among non-negative elements lies below `0`.
pub proof fn lemma_count_all_below_zero(s: Seq<int>, lo: int, hi: int, v: int)
    requires
        v == 0,
        forall|j: int| lo <= j < hi ==> #[trigger] s[j] >= 0,
    ensures
        count(s, lo, hi, v, -1) == 0,
    decreases hi - lo,
{
    if hi > lo {
        lemma_count_all_below_zero(s, lo, hi - 1, v);
    }
}

} // verus!
