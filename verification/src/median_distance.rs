use vstd::prelude::*;
use crate::compress::{compress, strictly_increasing};
use crate::mo::MoSol;
use crate::window_stats::{count, lemma_count_bound, lemma_count_prepend};
use crate::window_stats::{abs, lemma_deviation_at, lemma_deviation_bound, lemma_differ_at, lemma_total_nonneg, lemma_total_split, lemma_weighted_bound, lemma_weighted_split, total, weighted, deviation, differ_at};

verus! {

/// The end of bucket `b` (buckets of `w` ranks) among `m` ranks.
pub open spec fn bucket_end(b: int, w: int, m: int) -> int {
    if (b + 1) * w < m {
        (b + 1) * w
    } else {
        m
    }
}

/// The counts of `0..m` among positions `l..r` of `ranks`.
pub open spec fn window_counts(ranks: Seq<int>, m: int, l: int, r: int) -> Seq<usize> {
    Seq::new(m as nat, |v: int| count(ranks, l, r, v, 0) as usize)
}

/// `ans` is the summed distance of the elements at positions `l..r` to their lower median
/// (the element of rank `⌈len / 2⌉` from the smallest), `0` for no elements; element `i`
/// is `vals[ranks[i]]`.
pub open spec fn median_answer(vals: Seq<i64>, ranks: Seq<int>, l: int, r: int, ans: i64) -> bool {
    let m = vals.len() as int;
    let c = window_counts(ranks, m, l, r);
    let k = (total(c, 0, m) + 1) / 2;
    if total(c, 0, m) == 0 {
        ans == 0
    } else {
        exists|p: int|
            0 <= p < m && total(c, 0, p) < k <= total(c, 0, p + 1) && ans == deviation(
                c,
                vals,
                #[trigger] vals[p] as int,
                0,
                m,
            )
    }
}

/// The summed distance of a window's elements to their median, kept up to date as elements
/// come and go: `f(x) = Σ|x - a_k|` is smallest at the median, so the median and the sum of
/// the elements up to it give the answer. Ranks are grouped in buckets of about `√m` so that
/// an element comes or goes in constant time and the median is found in `O(√m)`.
pub struct AbsSum {
    a: Vec<i64>,
    rank: Vec<usize>,
    vals: Vec<i64>,
    cnt: Vec<usize>,
    bucket_cnt: Vec<usize>,
    bucket_sum: Vec<i64>,
    width: usize,
    len: usize,
    sum: i64,
    lo: Ghost<int>,
    hi: Ghost<int>,
}

impl AbsSum {
    /// The whole sequence.
    pub closed spec fn elements(&self) -> Seq<i64> {
        self.a@
    }

    /// The distinct values, increasing.
    pub closed spec fn values(&self) -> Seq<i64> {
        self.vals@
    }

    /// How many copies of each distinct value the window holds.
    pub closed spec fn counts(&self) -> Seq<usize> {
        self.cnt@
    }

    /// The position among the distinct values of each element.
    pub closed spec fn ranks(&self) -> Seq<usize> {
        self.rank@
    }

    /// The ranks as integers.
    pub open spec fn rank_ints(&self) -> Seq<int> {
        self.ranks().map_values(|x: usize| x as int)
    }

    /// The counts are those of the window `[lo, hi)`.
    closed spec fn window_ok(&self) -> bool {
        &&& 0 <= self.lo@ <= self.hi@ <= self.rank@.len()
        &&& self.len == self.hi@ - self.lo@
        &&& forall|v: int| 0 <= v < self.cnt@.len() ==> #[trigger] self.cnt@[v] == count(self.rank_ints(), self.lo@, self.hi@, v, 0)
    }

    /// The counts, the bucket summaries and the totals agree, and every value and sum fits.
    pub closed spec fn wf(&self) -> bool {
        let n = self.a@.len();
        let m = self.vals@.len() as int;
        let w = self.width as int;
        let nb = self.bucket_cnt@.len() as int;
        &&& n <= 0x8000_0000
        &&& self.rank@.len() == n
        &&& forall|i: int| 0 <= i < n ==> (#[trigger] self.rank@[i]) < m && self.vals@[self.rank@[i] as int] == self.a@[i]
        &&& strictly_increasing(self.vals@)
        &&& forall|j: int| 0 <= j < m ==> -0x4000_0000 <= #[trigger] self.vals@[j] <= 0x4000_0000
        &&& self.cnt@.len() == m
        &&& w >= 1
        &&& self.bucket_sum@.len() == nb
        &&& nb * w >= m
        &&& nb > 0 ==> (nb - 1) * w < m
        &&& forall|b: int| 0 <= b < nb ==> #[trigger] self.bucket_cnt@[b] == total(self.cnt@, b * w, bucket_end(b, w, m))
        &&& forall|b: int| 0 <= b < nb ==> #[trigger] self.bucket_sum@[b] == weighted(self.cnt@, self.vals@, b * w, bucket_end(b, w, m))
        &&& self.len == total(self.cnt@, 0, m)
        &&& self.len <= n
        &&& self.sum == weighted(self.cnt@, self.vals@, 0, m)
    }




    /// Takes element `i` into the window.
    fn add(&mut self, i: usize)
        requires
            old(self).wf(),
            i < old(self).elements().len(),
            total(old(self).counts(), 0, old(self).values().len() as int) < old(self).elements().len(),
        ensures
            final(self).wf(),
            final(self).lo == old(self).lo,
            final(self).hi == old(self).hi,
            final(self).len == old(self).len + 1,
            final(self).elements() == old(self).elements(),
            final(self).values() == old(self).values(),
            final(self).ranks() == old(self).ranks(),
            final(self).counts() == old(self).counts().update(
                old(self).ranks()[i as int] as int,
                (old(self).counts()[old(self).ranks()[i as int] as int] + 1) as usize,
            ),
    {
        let r = self.rank[i];
        let v = self.a[i];
        let w = self.width;
        let b = r / w;
        let ghost c0 = self.cnt@;
        let ghost m = self.vals@.len() as int;
        let ghost nb = self.bucket_cnt@.len() as int;
        proof {
            lemma_bucket_of(r as int, w as int, m, nb);
            lemma_count_le_total(c0, r as int, 0, m);
            lemma_count_le_total(c0, r as int, b * w, bucket_end(b as int, w as int, m));
        }
        let c = self.cnt[r];
        self.cnt.set(r, c + 1);
        let ghost c1 = self.cnt@;
        proof {
            assert(differ_at(c0, c1, r as int));
            assert(self.vals@[r as int] == v);
            assert(c1[r as int] - c0[r as int] == 1);
            assert((c1[r as int] - c0[r as int]) * self.vals@[r as int] == self.vals@[r as int]) by (nonlinear_arith)
                requires
                    c1[r as int] - c0[r as int] == 1,
            ;
            lemma_differ_at(c0, c1, self.vals@, r as int, 0, m);
            lemma_differ_at(c0, c1, self.vals@, r as int, b * w, bucket_end(b as int, w as int, m));
            lemma_weighted_bound(c1, self.vals@, 0, m);
            lemma_weighted_bound(c1, self.vals@, b * w, bucket_end(b as int, w as int, m));
            lemma_total_split(c1, 0, b * w, m);
            lemma_total_split(c1, b * w, bucket_end(b as int, w as int, m), m);
            lemma_total_nonneg(c1, 0, b * w);
            lemma_total_nonneg(c1, bucket_end(b as int, w as int, m), m);
            assert(0x4000_0000 * total(c1, 0, m) <= 0x4000_0000 * 0x8000_0000int) by (nonlinear_arith)
                requires
                    total(c1, 0, m) <= 0x8000_0000int,
            ;
            assert(0x4000_0000 * total(c1, b * w, bucket_end(b as int, w as int, m)) <= 0x4000_0000 * 0x8000_0000int) by (nonlinear_arith)
                requires
                    total(c1, b * w, bucket_end(b as int, w as int, m)) <= 0x8000_0000int,
            ;
        }
        let bc = self.bucket_cnt[b];
        self.bucket_cnt.set(b, bc + 1);
        let bs = self.bucket_sum[b];
        self.bucket_sum.set(b, bs + v);
        self.len = self.len + 1;
        self.sum = self.sum + v;
        proof {
            assert forall|b2: int| 0 <= b2 < nb implies self.bucket_cnt@[b2] == total(self.cnt@, b2 * w, bucket_end(b2, w as int, m))
                && self.bucket_sum@[b2] == weighted(self.cnt@, self.vals@, b2 * w, bucket_end(b2, w as int, m)) by {
                if b2 != b {
                    assert(b2 * w >= 0 && bucket_end(b2, w as int, m) <= m) by (nonlinear_arith)
                        requires
                            b2 >= 0,
                            w >= 1,
                    ;
                    lemma_differ_at(c0, c1, self.vals@, r as int, b2 * w, bucket_end(b2, w as int, m));
                }
            }
            assert(forall|b2: int| 0 <= b2 < nb ==> #[trigger] self.bucket_cnt@[b2] == total(self.cnt@, b2 * w, bucket_end(b2, w as int, m)));
            assert(forall|b2: int| 0 <= b2 < nb ==> #[trigger] self.bucket_sum@[b2] == weighted(self.cnt@, self.vals@, b2 * w, bucket_end(b2, w as int, m)));
            assert(self.len == total(self.cnt@, 0, m));
            assert(self.sum == weighted(self.cnt@, self.vals@, 0, m));
            assert(self.cnt@.len() == m);
        }
    }

    /// Lets element `i` go from the window, which holds a copy of its value.
    fn del(&mut self, i: usize)
        requires
            old(self).wf(),
            i < old(self).elements().len(),
            old(self).counts()[old(self).ranks()[i as int] as int] > 0,
        ensures
            final(self).wf(),
            final(self).lo == old(self).lo,
            final(self).hi == old(self).hi,
            final(self).len == old(self).len - 1,
            final(self).elements() == old(self).elements(),
            final(self).values() == old(self).values(),
            final(self).ranks() == old(self).ranks(),
            final(self).counts() == old(self).counts().update(
                old(self).ranks()[i as int] as int,
                (old(self).counts()[old(self).ranks()[i as int] as int] - 1) as usize,
            ),
    {
        let r = self.rank[i];
        let v = self.a[i];
        let w = self.width;
        let b = r / w;
        let ghost c0 = self.cnt@;
        let ghost m = self.vals@.len() as int;
        let ghost nb = self.bucket_cnt@.len() as int;
        proof {
            lemma_bucket_of(r as int, w as int, m, nb);
            lemma_count_le_total(c0, r as int, 0, m);
            lemma_count_le_total(c0, r as int, b * w, bucket_end(b as int, w as int, m));
        }
        let c = self.cnt[r];
        self.cnt.set(r, c - 1);
        let ghost c1 = self.cnt@;
        proof {
            assert(differ_at(c0, c1, r as int));
            assert(self.vals@[r as int] == v);
            assert(c1[r as int] - c0[r as int] == -1);
            assert((c1[r as int] - c0[r as int]) * self.vals@[r as int] == -self.vals@[r as int]) by (nonlinear_arith)
                requires
                    c1[r as int] - c0[r as int] == -1,
            ;
            lemma_differ_at(c0, c1, self.vals@, r as int, 0, m);
            lemma_differ_at(c0, c1, self.vals@, r as int, b * w, bucket_end(b as int, w as int, m));
            lemma_weighted_bound(c1, self.vals@, 0, m);
            lemma_weighted_bound(c1, self.vals@, b * w, bucket_end(b as int, w as int, m));
            lemma_total_split(c1, 0, b * w, m);
            lemma_total_split(c1, b * w, bucket_end(b as int, w as int, m), m);
            lemma_total_nonneg(c1, 0, b * w);
            lemma_total_nonneg(c1, bucket_end(b as int, w as int, m), m);
            assert(0x4000_0000 * total(c1, 0, m) <= 0x4000_0000 * 0x8000_0000int) by (nonlinear_arith)
                requires
                    total(c1, 0, m) <= 0x8000_0000int,
            ;
            assert(0x4000_0000 * total(c1, b * w, bucket_end(b as int, w as int, m)) <= 0x4000_0000 * 0x8000_0000int) by (nonlinear_arith)
                requires
                    total(c1, b * w, bucket_end(b as int, w as int, m)) <= 0x8000_0000int,
            ;
        }
        let bc = self.bucket_cnt[b];
        self.bucket_cnt.set(b, bc - 1);
        let bs = self.bucket_sum[b];
        self.bucket_sum.set(b, bs - v);
        self.len = self.len - 1;
        self.sum = self.sum - v;
        proof {
            assert forall|b2: int| 0 <= b2 < nb implies self.bucket_cnt@[b2] == total(self.cnt@, b2 * w, bucket_end(b2, w as int, m))
                && self.bucket_sum@[b2] == weighted(self.cnt@, self.vals@, b2 * w, bucket_end(b2, w as int, m)) by {
                if b2 != b {
                    assert(b2 * w >= 0 && bucket_end(b2, w as int, m) <= m) by (nonlinear_arith)
                        requires
                            b2 >= 0,
                            w >= 1,
                    ;
                    lemma_differ_at(c0, c1, self.vals@, r as int, b2 * w, bucket_end(b2, w as int, m));
                }
            }
            assert(forall|b2: int| 0 <= b2 < nb ==> #[trigger] self.bucket_cnt@[b2] == total(self.cnt@, b2 * w, bucket_end(b2, w as int, m)));
            assert(forall|b2: int| 0 <= b2 < nb ==> #[trigger] self.bucket_sum@[b2] == weighted(self.cnt@, self.vals@, b2 * w, bucket_end(b2, w as int, m)));
            assert(self.len == total(self.cnt@, 0, m));
            assert(self.sum == weighted(self.cnt@, self.vals@, 0, m));
            assert(self.cnt@.len() == m);
        }
    }

    /// The summed distance of the window's elements to their lower median (the element of
    /// rank `⌈len / 2⌉` counted from the smallest), which is the least summed distance to any
    /// one value.
    fn solve(&self) -> (res: i64)
        requires
            self.wf(),
            total(self.counts(), 0, self.values().len() as int) >= 1,
        ensures
            ({
                let c = self.counts();
                let v = self.values();
                let m = v.len() as int;
                let k = (total(c, 0, m) + 1) / 2;
                exists|r: int|
                    0 <= r < m && total(c, 0, r) < k <= total(c, 0, r + 1) && res == deviation(
                        c,
                        v,
                        #[trigger] v[r] as int,
                        0,
                        m,
                    )
            }),
    {
        let ghost c = self.cnt@;
        let ghost v = self.vals@;
        let ghost m = v.len() as int;
        let ghost nb = self.bucket_cnt@.len() as int;
        let w = self.width;
        let nbe = self.bucket_cnt.len();
        let me = self.vals.len();
        let k = (self.len + 1) / 2;
        let mut low: i64 = 0;
        let mut rest = k;
        let mut b: usize = 0;
        proof {
            lemma_total_split(c, 0, 0, m);
            assert(total(c, 0, 0) == 0);
            assert(weighted(c, v, 0, 0) == 0);
        }
        while self.bucket_cnt[b] < rest
            invariant
                self.wf(),
                c == self.cnt@,
                v == self.vals@,
                m == v.len(),
                nb == self.bucket_cnt@.len(),
                nb == nbe,
                m == me,
                w == self.width,
                k == (self.len + 1) / 2,
                self.len >= 1,
                b < nb,
                b * w < m,
                1 <= rest,
                rest == k - total(c, 0, b * w),
                rest <= total(c, b * w, m),
                low == weighted(c, v, 0, b * w),
            decreases nb - b,
        {
            let ghost bw = b * w;
            let ghost be = bucket_end(b as int, w as int, m);
            proof {
                assert((b + 1) * w == b * w + w) by (nonlinear_arith);
                lemma_total_split(c, bw, be, m);
                lemma_total_nonneg(c, be, m);
                assert(be < m);
                assert(be == (b + 1) * w);
                assert(b + 1 < nb) by (nonlinear_arith)
                    requires
                        (b + 1) * w < m,
                        nb * w >= m,
                        w >= 1,
                ;
                lemma_total_split(c, 0, bw, be);
                lemma_weighted_split(c, v, 0, bw, be);
                lemma_weighted_bound(c, v, 0, be);
                lemma_total_split(c, 0, be, m);
                lemma_total_nonneg(c, be, m);
                assert(0x4000_0000 * total(c, 0, be) <= 0x4000_0000 * 0x8000_0000int) by (nonlinear_arith)
                    requires
                        total(c, 0, be) <= 0x8000_0000int,
                ;
            }
            rest = rest - self.bucket_cnt[b];
            low = low + self.bucket_sum[b];
            b = b + 1;
        }
        let ghost be = bucket_end(b as int, w as int, m);
        let mut r = b * w;
        proof {
            lemma_total_split(c, b * w, be, m);
            lemma_total_nonneg(c, be, m);
            assert(self.bucket_cnt@[b as int] == total(c, b * w, be));
        }
        while self.cnt[r] < rest
            invariant
                self.wf(),
                c == self.cnt@,
                v == self.vals@,
                m == v.len(),
                b * w <= r < be,
                be <= m,
                m == me,
                1 <= rest,
                rest == k - total(c, 0, r as int),
                rest <= total(c, r as int, be),
                low == weighted(c, v, 0, r as int),
                k <= self.len <= 0x8000_0000,
            decreases be - r,
        {
            proof {
                lemma_total_split(c, r as int, r + 1, be);
                assert(total(c, r as int, r as int) == 0);
                lemma_total_split(c, 0, r as int, r + 1);
                lemma_weighted_split(c, v, 0, r as int, r + 1);
                assert(weighted(c, v, r as int, r as int) == 0);
                lemma_weighted_bound(c, v, 0, r + 1);
                lemma_total_split(c, 0, r + 1, m);
                lemma_total_nonneg(c, r + 1, m);
                assert(0x4000_0000 * total(c, 0, r + 1) <= 0x4000_0000 * 0x8000_0000int) by (nonlinear_arith)
                    requires
                        total(c, 0, r + 1) <= 0x8000_0000int,
                ;
                let x = c[r as int];
                let y = v[r as int];
                lemma_count_le_total(c, r as int, 0, r + 1);
                assert(abs(x * y) <= 0x4000_0000 * 0x8000_0000int) by (nonlinear_arith)
                    requires
                        0 <= x <= 0x8000_0000int,
                        -0x4000_0000 <= y <= 0x4000_0000,
                ;
                lemma_count_le_total(c, r as int, 0, r + 1);
                assert(weighted(c, v, r as int, r + 1) == x * y);
                assert(low + x * y == weighted(c, v, 0, r + 1));
                assert(abs(weighted(c, v, 0, r + 1)) <= 0x4000_0000 * 0x8000_0000int);
                assert(x <= 0x8000_0000int);
            }
            let cr = self.cnt[r];
            let vr = self.vals[r];
            proof {
                assert(-0x4000_0000 * 0x8000_0000int <= vr * cr <= 0x4000_0000 * 0x8000_0000int) by (nonlinear_arith)
                    requires
                        0 <= cr <= 0x8000_0000int,
                        -0x4000_0000 <= vr <= 0x4000_0000,
                ;
                assert(vr * cr == c[r as int] * v[r as int]) by (nonlinear_arith)
                    requires
                        vr == v[r as int],
                        cr == c[r as int],
                ;
            }
            rest = rest - cr;
            low = low + vr * (cr as i64);
            r = r + 1;
        }
        let ghost t0 = total(c, 0, r as int);
        let ghost w0 = weighted(c, v, 0, r as int);
        let ghost t1 = total(c, r + 1, m);
        let ghost w1 = weighted(c, v, r + 1, m);
        let ghost cr = c[r as int];
        let med = self.vals[r];
        proof {
            lemma_total_split(c, r as int, r + 1, be);
            assert(total(c, r as int, r as int) == 0);
            lemma_total_split(c, 0, r as int, m);
            lemma_total_split(c, r as int, r + 1, m);
            lemma_weighted_split(c, v, 0, r as int, m);
            lemma_weighted_split(c, v, r as int, r + 1, m);
            assert(weighted(c, v, r as int, r as int) == 0);
            lemma_weighted_bound(c, v, 0, r as int);
            lemma_weighted_bound(c, v, r + 1, m);
            lemma_total_nonneg(c, 0, r as int);
            lemma_total_nonneg(c, r + 1, m);
            lemma_deviation_at(c, v, r as int, m);
            lemma_deviation_bound(c, v, med as int, 0, m);
            assert(rest <= cr);
            assert(0x4000_0000 * t0 <= 0x4000_0000 * 0x8000_0000int) by (nonlinear_arith)
                requires
                    t0 <= 0x8000_0000int,
            ;
            assert(0x4000_0000 * t1 <= 0x4000_0000 * 0x8000_0000int) by (nonlinear_arith)
                requires
                    t1 <= 0x8000_0000int,
            ;
            assert(abs(med * rest) <= 0x4000_0000 * 0x8000_0000int) by (nonlinear_arith)
                requires
                    0 <= rest <= 0x8000_0000int,
                    -0x4000_0000 <= med <= 0x4000_0000,
            ;
            assert(abs(med * k) <= 0x4000_0000 * 0x8000_0000int) by (nonlinear_arith)
                requires
                    0 <= k <= 0x8000_0000int,
                    -0x4000_0000 <= med <= 0x4000_0000,
            ;
            assert(abs(med * (self.len - k)) <= 0x4000_0000 * 0x8000_0000int) by (nonlinear_arith)
                requires
                    0 <= self.len - k <= 0x8000_0000int,
                    -0x4000_0000 <= med <= 0x4000_0000,
            ;
            lemma_weighted_bound(c, v, 0, m);
            assert(0x4000_0000 * total(c, 0, m) <= 0x4000_0000 * 0x8000_0000int) by (nonlinear_arith)
                requires
                    total(c, 0, m) <= 0x8000_0000int,
            ;
            assert(0x8000_0000 * total(c, 0, m) <= 0x8000_0000 * 0x8000_0000int) by (nonlinear_arith)
                requires
                    total(c, 0, m) <= 0x8000_0000int,
            ;
        }
        low = low + med * (rest as i64);
        let below = med * (k as i64) - low;
        let above = (self.sum - low) - med * ((self.len - k) as i64);
        proof {
            assert(below + above == (med * t0 - w0) + (w1 - med * t1)) by (nonlinear_arith)
                requires
                    below == med * k - low,
                    low == w0 + med * rest,
                    k == t0 + rest,
                    above == (self.sum - low) - med * (self.len - k),
                    self.sum == w0 + cr * med + w1,
                    self.len == t0 + cr + t1,
            ;
            assert(self.sum == w0 + cr * med + w1) by {
                assert(weighted(c, v, r as int, r + 1) == cr * med);
            }
        }
        below + above
    }

    /// An empty window over `a`, whose values lie in `[-2^30, 2^30]`.
    pub fn new(a: Vec<i64>) -> (s: Self)
        requires
            a@.len() <= 0x8000_0000,
            forall|i: int| 0 <= i < a@.len() ==> -0x4000_0000 <= #[trigger] a@[i] <= 0x4000_0000,
        ensures
            s.wf(),
            s.inv(),
            s.start() == 0,
            s.end() == 0,
            s.extent() == a@.len(),
            s.elements() == a@,
            forall|j: int| 0 <= j < s.counts().len() ==> #[trigger] s.counts()[j] == 0,
    {
        let (vals, rank) = compress(&a);
        let m = vals.len();
        proof {
            assert forall|j: int| 0 <= j < m implies -0x4000_0000 <= #[trigger] vals@[j] <= 0x4000_0000 by {
                assert(vals@.contains(vals@[j]));
                assert(a@.contains(vals@[j]));
            }
        }
        let mut width: usize = 1;
        while width < m && (width + 1) <= m / (width + 1)
            invariant
                1 <= width <= m || (width == 1),
            decreases m - width,
        {
            width = width + 1;
        }
        let buckets = if m == 0 {
            0
        } else {
            (m - 1) / width + 1
        };
        let mut cnt: Vec<usize> = Vec::new();
        while cnt.len() < m
            invariant
                cnt@.len() <= m,
                forall|j: int| 0 <= j < cnt@.len() ==> #[trigger] cnt@[j] == 0,
            decreases m - cnt@.len(),
        {
            cnt.push(0);
        }
        let mut bucket_cnt: Vec<usize> = Vec::new();
        let mut bucket_sum: Vec<i64> = Vec::new();
        while bucket_cnt.len() < buckets
            invariant
                bucket_cnt@.len() <= buckets,
                bucket_sum@.len() == bucket_cnt@.len(),
                forall|j: int| 0 <= j < bucket_cnt@.len() ==> #[trigger] bucket_cnt@[j] == 0,
                forall|j: int| 0 <= j < bucket_sum@.len() ==> #[trigger] bucket_sum@[j] == 0,
            decreases buckets - bucket_cnt@.len(),
        {
            bucket_cnt.push(0);
            bucket_sum.push(0);
        }
        let s = AbsSum { a, rank, vals, cnt, bucket_cnt, bucket_sum, width, len: 0, sum: 0, lo: Ghost(0), hi: Ghost(0) };
        proof {
            assert forall|lo: int, hi: int| 0 <= lo && hi <= m implies total(s.cnt@, lo, hi) == 0 && weighted(s.cnt@, s.vals@, lo, hi) == 0 by {
                lemma_zero_counts(s.cnt@, s.vals@, lo, hi);
            }
            let w = width as int;
            let nb = buckets as int;
            if m > 0 {
                let q = (m - 1) / w;
                vstd::arithmetic::div_mod::lemma_fundamental_div_mod((m - 1) as int, w);
                vstd::arithmetic::div_mod::lemma_mod_bound((m - 1) as int, w);
                assert(nb * w >= m && (nb - 1) * w < m) by (nonlinear_arith)
                    requires
                        nb == q + 1,
                        m - 1 == w * q + (m - 1) % w,
                        0 <= (m - 1) % w < w,
                ;
            }
            assert forall|b: int| 0 <= b < nb implies bucket_end(b, w, m as int) <= m && b * w >= 0 by {
                assert(b * w >= 0) by (nonlinear_arith)
                    requires
                        b >= 0,
                        w >= 1,
                ;
            }
            assert(s.a@.len() <= 0x8000_0000);
            assert(s.rank@.len() == s.a@.len());
            assert(strictly_increasing(s.vals@));
            assert(s.cnt@.len() == m);
            assert(w >= 1);
            assert(s.bucket_sum@.len() == nb);
            assert(nb * w >= m);
            assert(forall|b: int| 0 <= b < nb ==> #[trigger] s.bucket_cnt@[b] == total(s.cnt@, b * w, bucket_end(b, w, m as int)));
            assert(s.len == total(s.cnt@, 0, m as int));
            assert(s.sum == weighted(s.cnt@, s.vals@, 0, m as int));
            assert forall|b: int| 0 <= b < nb implies #[trigger] s.bucket_sum@[b] == weighted(s.cnt@, s.vals@, b * w, bucket_end(b, w, m as int)) by {
                assert(bucket_end(b, w, m as int) <= m && b * w >= 0);
                lemma_zero_counts(s.cnt@, s.vals@, b * w, bucket_end(b, w, m as int));
            }
            assert(forall|i: int| 0 <= i < s.a@.len() ==> (#[trigger] s.rank@[i]) < m && s.vals@[s.rank@[i] as int] == s.a@[i]);
            assert(forall|j: int| 0 <= j < m ==> -0x4000_0000 <= #[trigger] s.vals@[j] <= 0x4000_0000);
            assert(nb > 0 ==> (nb - 1) * w < m);
            assert forall|v: int| 0 <= v < m implies #[trigger] s.cnt@[v] == count(s.rank_ints(), 0, 0, v, 0) by {}
        }
        s
    }
}

/// Rank `r` lies in bucket `r / w` and in no other.
proof fn lemma_bucket_of(r: int, w: int, m: int, nb: int)
    requires
        0 <= r < m,
        w >= 1,
        nb * w >= m,
    ensures
        0 <= r / w < nb,
        (r / w) * w <= r < bucket_end(r / w, w, m),
        forall|b: int| 0 <= b < nb && b != r / w ==> !(b * w <= r < #[trigger] bucket_end(b, w, m)),
{
    let q = r / w;
    vstd::arithmetic::div_mod::lemma_fundamental_div_mod(r, w);
    vstd::arithmetic::div_mod::lemma_mod_bound(r, w);
    assert(q * w <= r < q * w + w) by (nonlinear_arith)
        requires
            r == w * q + r % w,
            0 <= r % w < w,
    ;
    assert(q >= 0) by (nonlinear_arith)
        requires
            q * w <= r < q * w + w,
            r >= 0,
            w >= 1,
    ;
    assert(q < nb) by (nonlinear_arith)
        requires
            q * w <= r < m <= nb * w,
            w >= 1,
    ;
    assert((q + 1) * w == q * w + w) by (nonlinear_arith);
    assert forall|b: int| 0 <= b < nb && b != q implies !(b * w <= r < #[trigger] bucket_end(b, w, m)) by {
        if b < q {
            assert((b + 1) * w <= q * w) by (nonlinear_arith)
                requires
                    b < q,
                    w >= 1,
            ;
        } else {
            assert(b * w >= (q + 1) * w) by (nonlinear_arith)
                requires
                    b > q,
                    w >= 1,
            ;
        }
    }
}

/// A single count is at most the total of a stretch holding it.
proof fn lemma_count_le_total(c: Seq<usize>, r: int, lo: int, hi: int)
    requires
        lo <= r < hi,
    ensures
        c[r] <= total(c, lo, hi),
{
    lemma_total_split(c, lo, r, hi);
    lemma_total_split(c, r, r + 1, hi);
    lemma_total_nonneg(c, lo, r);
    lemma_total_nonneg(c, r + 1, hi);
    assert(total(c, r, r) == 0);
    assert(total(c, r, r + 1) == c[r]);
}

proof fn lemma_zero_counts(c: Seq<usize>, v: Seq<i64>, lo: int, hi: int)
    requires
        0 <= lo,
        hi <= c.len(),
        forall|j: int| 0 <= j < c.len() ==> #[trigger] c[j] == 0,
    ensures
        total(c, lo, hi) == 0,
        weighted(c, v, lo, hi) == 0,
    decreases hi - lo,
{
    if hi > lo {
        lemma_zero_counts(c, v, lo, hi - 1);
    }
}


impl MoSol for AbsSum {
    type Ans = i64;

    const MAX_INDEX_POW2: usize = 18;

    closed spec fn inv(&self) -> bool {
        self.wf() && self.window_ok()
    }

    closed spec fn start(&self) -> int {
        self.lo@
    }

    closed spec fn end(&self) -> int {
        self.hi@
    }

    closed spec fn extent(&self) -> int {
        self.a@.len() as int
    }

    /// The summed distance of the elements at positions `l..r` to their lower median.
    open spec fn answers(&self, l: int, r: int, ans: i64) -> bool {
        median_answer(self.values(), self.rank_ints(), l, r, ans)
    }

    fn add_l(&mut self, l_idx: usize) {
        let ghost s = self.rank_ints();
        let ghost (lo, hi) = (self.lo@, self.hi@);
        proof {
            assert(s[l_idx as int] == self.rank@[l_idx as int] as int);
            lemma_count_bound(s, lo, hi, s[l_idx as int], 0);
        }
        self.add(l_idx);
        self.lo = Ghost(l_idx as int);
        proof {
            assert forall|v: int| 0 <= v < self.cnt@.len() implies #[trigger] self.cnt@[v] == count(s, lo - 1, hi, v, 0) by {
                lemma_count_prepend(s, lo, hi, v, 0);
            }
        }
    }

    fn add_r(&mut self, r_idx: usize) {
        let ghost s = self.rank_ints();
        let ghost (lo, hi) = (self.lo@, self.hi@);
        proof {
            assert(s[r_idx as int] == self.rank@[r_idx as int] as int);
            lemma_count_bound(s, lo, hi, s[r_idx as int], 0);
        }
        self.add(r_idx);
        self.hi = Ghost(r_idx + 1);
        proof {
            assert forall|v: int| 0 <= v < self.cnt@.len() implies #[trigger] self.cnt@[v] == count(s, lo, hi + 1, v, 0) by {}
        }
    }

    fn del_l(&mut self, l_idx: usize) {
        let ghost s = self.rank_ints();
        let ghost (lo, hi) = (self.lo@, self.hi@);
        proof {
            assert(s[l_idx as int] == self.rank@[l_idx as int] as int);
            lemma_count_prepend(s, lo + 1, hi, s[l_idx as int], 0);
            lemma_count_bound(s, lo + 1, hi, s[l_idx as int], 0);
        }
        self.del(l_idx);
        self.lo = Ghost(l_idx + 1);
        proof {
            assert forall|v: int| 0 <= v < self.cnt@.len() implies #[trigger] self.cnt@[v] == count(s, lo + 1, hi, v, 0) by {
                lemma_count_prepend(s, lo + 1, hi, v, 0);
            }
        }
    }

    fn del_r(&mut self, r_idx: usize) {
        let ghost s = self.rank_ints();
        let ghost (lo, hi) = (self.lo@, self.hi@);
        proof {
            assert(s[r_idx as int] == self.rank@[r_idx as int] as int);
            lemma_count_bound(s, lo, hi - 1, s[r_idx as int], 0);
        }
        self.del(r_idx);
        self.hi = Ghost(r_idx as int);
        proof {
            assert forall|v: int| 0 <= v < self.cnt@.len() implies #[trigger] self.cnt@[v] == count(s, lo, hi - 1, v, 0) by {}
        }
    }

    fn solve(&mut self) -> (r: i64) {
        let ghost m = self.vals@.len() as int;
        proof {
            assert(window_counts(self.rank_ints(), m, self.lo@, self.hi@) =~= self.cnt@);
        }
        if self.len == 0 {
            0
        } else {
            AbsSum::solve(self)
        }
    }
}

} // verus!
