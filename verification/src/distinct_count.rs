use vstd::prelude::*;
use crate::compress::compress;
use crate::mo::MoSol;
use crate::window_stats::{count, lemma_count_bound, lemma_count_prepend};

verus! {

/// How many of `c[0..hi]` are non-zero.
pub open spec fn nonzero(c: Seq<u32>, hi: int) -> int
    decreases hi,
{
    if hi <= 0 {
        0
    } else {
        nonzero(c, hi - 1) + if c[hi - 1] > 0 {
            1int
        } else {
            0
        }
    }
}

proof fn lemma_nonzero_update(c: Seq<u32>, r: int, x: u32, hi: int)
    requires
        0 <= r < c.len(),
        hi <= c.len(),
    ensures
        nonzero(c.update(r, x), hi) == nonzero(c, hi) + if r < hi {
            (if x > 0 { 1int } else { 0 }) - (if c[r] > 0 { 1int } else { 0 })
        } else {
            0
        },
    decreases hi,
{
    if hi > 0 {
        lemma_nonzero_update(c, r, x, hi - 1);
    }
}

proof fn lemma_nonzero_bound(c: Seq<u32>, hi: int)
    requires
        0 <= hi,
    ensures
        0 <= nonzero(c, hi) <= hi,
    decreases hi,
{
    if hi > 0 {
        lemma_nonzero_bound(c, hi - 1);
    }
}

proof fn lemma_nonzero_zero(c: Seq<u32>, hi: int)
    requires
        hi <= c.len(),
        forall|j: int| 0 <= j < c.len() ==> #[trigger] c[j] == 0,
    ensures
        nonzero(c, hi) == 0,
    decreases hi,
{
    if hi > 0 {
        lemma_nonzero_zero(c, hi - 1);
    }
}

/// How many of the values `0..m` occur in `s[lo..hi]`.
pub open spec fn present(s: Seq<int>, lo: int, hi: int, m: int) -> int
    decreases m,
{
    if m <= 0 {
        0
    } else {
        present(s, lo, hi, m - 1) + if count(s, lo, hi, m - 1, 0) > 0 {
            1int
        } else {
            0
        }
    }
}

/// `s` as integers.
pub open spec fn widen(s: Seq<u32>) -> Seq<int> {
    s.map_values(|x: u32| x as int)
}

proof fn lemma_nonzero_present(c: Seq<u32>, s: Seq<int>, lo: int, hi: int, m: int)
    requires
        0 <= m <= c.len(),
        forall|v: int| 0 <= v < c.len() ==> #[trigger] c[v] == count(s, lo, hi, v, 0),
    ensures
        nonzero(c, m) == present(s, lo, hi, m),
    decreases m,
{
    if m > 0 {
        lemma_nonzero_present(c, s, lo, hi, m - 1);
    }
}

/// The number of distinct values in a window of a sequence, kept up to date as elements come
/// and go. Ranks and counts are kept as `u32` so that the arrays the inner loop touches stay
/// small.
pub struct Distinct {
    rank: Vec<u32>,
    cnt: Vec<u32>,
    distinct: usize,
    lo: Ghost<int>,
    hi: Ghost<int>,
}

impl Distinct {
    /// The position among the distinct values of each element.
    pub closed spec fn ranks(&self) -> Seq<u32> {
        self.rank@
    }

    /// How many copies of each distinct value the window holds.
    pub closed spec fn counts(&self) -> Seq<u32> {
        self.cnt@
    }

    /// Every rank has a count, and `distinct` is the number of non-zero counts.
    pub closed spec fn wf(&self) -> bool {
        &&& forall|i: int| 0 <= i < self.rank@.len() ==> (#[trigger] self.rank@[i]) < self.cnt@.len()
        &&& self.distinct == nonzero(self.cnt@, self.cnt@.len() as int)
    }

    /// The counts are those of the window `[lo, hi)`.
    closed spec fn window_ok(&self) -> bool {
        &&& self.rank@.len() <= u32::MAX
        &&& 0 <= self.lo@ <= self.hi@ <= self.rank@.len()
        &&& forall|v: int| 0 <= v < self.cnt@.len() ==> #[trigger] self.cnt@[v] == count(widen(self.rank@), self.lo@, self.hi@, v, 0)
    }

    /// An empty window over `a`, of at most `2^32` elements.
    pub fn new(a: &Vec<i64>) -> (s: Self)
        requires
            a@.len() <= u32::MAX,
        ensures
            s.wf(),
            s.inv(),
            s.start() == 0,
            s.end() == 0,
            s.extent() == a@.len(),
            s.ranks().len() == a@.len(),
            forall|i: int, j: int|
                0 <= i < a@.len() && 0 <= j < a@.len() ==> (s.ranks()[i] == s.ranks()[j] <==> a@[i] == a@[j]),
            forall|j: int| 0 <= j < s.counts().len() ==> #[trigger] s.counts()[j] == 0,
    {
        let (vals, rank) = compress(a);
        let m = vals.len();
        proof {
            assert forall|j: int| 0 <= j < m implies a@.contains(#[trigger] vals@[j]) by {
                assert(vals@.contains(vals@[j]));
            }
        }
        let mut r32: Vec<u32> = Vec::new();
        let mut i: usize = 0;
        while i < rank.len()
            invariant
                i <= rank@.len(),
                rank@.len() == a@.len(),
                m <= a@.len() <= u32::MAX,
                m == vals@.len(),
                forall|q: int| 0 <= q < rank@.len() ==> (#[trigger] rank@[q]) < m,
                r32@.len() == i,
                forall|q: int| 0 <= q < i ==> (#[trigger] r32@[q]) as int == rank@[q] as int,
            decreases rank@.len() - i,
        {
            r32.push(rank[i] as u32);
            i = i + 1;
        }
        let mut cnt: Vec<u32> = Vec::new();
        while cnt.len() < m
            invariant
                cnt@.len() <= m,
                forall|j: int| 0 <= j < cnt@.len() ==> #[trigger] cnt@[j] == 0,
            decreases m - cnt@.len(),
        {
            cnt.push(0);
        }
        proof {
            lemma_nonzero_zero(cnt@, m as int);
            assert forall|p: int, q: int| 0 <= p < a@.len() && 0 <= q < a@.len() implies (r32@[p] == r32@[q] <==> a@[p] == a@[q]) by {
                if a@[p] == a@[q] {
                    lemma_rank_unique(vals@, rank@[p] as int, rank@[q] as int);
                }
            }
        }
        Distinct { rank: r32, cnt, distinct: 0, lo: Ghost(0), hi: Ghost(0) }
    }

    /// Takes element `i` into the window.
    fn add(&mut self, i: usize)
        requires
            old(self).wf(),
            i < old(self).ranks().len(),
            old(self).counts()[old(self).ranks()[i as int] as int] < u32::MAX,
        ensures
            final(self).wf(),
            final(self).lo == old(self).lo,
            final(self).hi == old(self).hi,
            final(self).ranks() == old(self).ranks(),
            final(self).counts() == old(self).counts().update(
                old(self).ranks()[i as int] as int,
                (old(self).counts()[old(self).ranks()[i as int] as int] + 1) as u32,
            ),
    {
        let r = self.rank[i] as usize;
        let c = self.cnt[r];
        let m = self.cnt.len();
        proof {
            lemma_nonzero_update(self.cnt@, r as int, (c + 1) as u32, self.cnt@.len() as int);
            lemma_nonzero_bound(self.cnt@.update(r as int, (c + 1) as u32), m as int);
        }
        if c == 0 {
            self.distinct = self.distinct + 1;
        }
        self.cnt.set(r, c + 1);
    }

    /// Lets element `i` go from the window, which holds a copy of its value.
    fn del(&mut self, i: usize)
        requires
            old(self).wf(),
            i < old(self).ranks().len(),
            old(self).counts()[old(self).ranks()[i as int] as int] > 0,
        ensures
            final(self).wf(),
            final(self).lo == old(self).lo,
            final(self).hi == old(self).hi,
            final(self).ranks() == old(self).ranks(),
            final(self).counts() == old(self).counts().update(
                old(self).ranks()[i as int] as int,
                (old(self).counts()[old(self).ranks()[i as int] as int] - 1) as u32,
            ),
    {
        let r = self.rank[i] as usize;
        let c = self.cnt[r];
        proof {
            lemma_nonzero_update(self.cnt@, r as int, (c - 1) as u32, self.cnt@.len() as int);
            lemma_nonzero_bound(self.cnt@.update(r as int, (c - 1) as u32), self.cnt@.len() as int);
        }
        self.cnt.set(r, c - 1);
        if c == 1 {
            self.distinct = self.distinct - 1;
        }
    }


    /// The number of distinct values in the window.
    fn solve(&self) -> (r: usize)
        requires
            self.wf(),
        ensures
            r == nonzero(self.counts(), self.counts().len() as int),
    {
        self.distinct
    }
}

/// In a strictly increasing sequence, equal values sit at equal positions.
proof fn lemma_rank_unique(vals: Seq<i64>, p: int, q: int)
    requires
        crate::compress::strictly_increasing(vals),
        0 <= p < vals.len(),
        0 <= q < vals.len(),
        vals[p] == vals[q],
    ensures
        p == q,
{
    if p < q {
        assert(vals[p] < vals[q]);
    } else if q < p {
        assert(vals[q] < vals[p]);
    }
}


impl MoSol for Distinct {
    type Ans = usize;

    const MAX_INDEX_POW2: usize = 19;

    closed spec fn inv(&self) -> bool {
        self.wf() && self.window_ok()
    }

    closed spec fn start(&self) -> int {
        self.lo@
    }

    closed spec fn end(&self) -> int {
        self.hi@
    }

    closed spec fn extent(&self) -> int {
        self.rank@.len() as int
    }

    /// The number of distinct ranks, and so of distinct values, among positions `l..r`.
    open spec fn answers(&self, l: int, r: int, ans: usize) -> bool {
        ans == present(widen(self.ranks()), l, r, self.counts().len() as int)
    }

    fn add_l(&mut self, l_idx: usize) {
        let ghost s = widen(self.rank@);
        let ghost (lo, hi) = (self.lo@, self.hi@);
        let ghost r = self.rank@[l_idx as int] as int;
        proof {
            lemma_count_bound(s, lo, hi, r, 0);
        }
        self.add(l_idx);
        self.lo = Ghost(l_idx as int);
        proof {
            assert forall|v: int| 0 <= v < self.cnt@.len() implies #[trigger] self.cnt@[v] == count(s, lo - 1, hi, v, 0) by {
                lemma_count_prepend(s, lo, hi, v, 0);
            }
        }
    }

    fn add_r(&mut self, r_idx: usize) {
        let ghost s = widen(self.rank@);
        let ghost (lo, hi) = (self.lo@, self.hi@);
        let ghost r = self.rank@[r_idx as int] as int;
        proof {
            lemma_count_bound(s, lo, hi, r, 0);
        }
        self.add(r_idx);
        self.hi = Ghost(r_idx + 1);
        proof {
            assert forall|v: int| 0 <= v < self.cnt@.len() implies #[trigger] self.cnt@[v] == count(s, lo, hi + 1, v, 0) by {}
        }
    }

    fn del_l(&mut self, l_idx: usize) {
        let ghost s = widen(self.rank@);
        let ghost (lo, hi) = (self.lo@, self.hi@);
        let ghost r = self.rank@[l_idx as int] as int;
        proof {
            lemma_count_prepend(s, lo + 1, hi, r, 0);
            lemma_count_bound(s, lo + 1, hi, r, 0);
        }
        self.del(l_idx);
        self.lo = Ghost(l_idx + 1);
        proof {
            assert forall|v: int| 0 <= v < self.cnt@.len() implies #[trigger] self.cnt@[v] == count(s, lo + 1, hi, v, 0) by {
                lemma_count_prepend(s, lo + 1, hi, v, 0);
            }
        }
    }

    fn del_r(&mut self, r_idx: usize) {
        let ghost s = widen(self.rank@);
        let ghost (lo, hi) = (self.lo@, self.hi@);
        let ghost r = self.rank@[r_idx as int] as int;
        proof {
            lemma_count_bound(s, lo, hi - 1, r, 0);
        }
        self.del(r_idx);
        self.hi = Ghost(r_idx as int);
        proof {
            assert forall|v: int| 0 <= v < self.cnt@.len() implies #[trigger] self.cnt@[v] == count(s, lo, hi - 1, v, 0) by {}
        }
    }

    fn solve(&mut self) -> (r: usize) {
        proof {
            lemma_nonzero_present(self.cnt@, widen(self.rank@), self.lo@, self.hi@, self.cnt@.len() as int);
        }
        Distinct::solve(self)
    }
}

} // verus!
