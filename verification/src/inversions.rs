use vstd::prelude::*;
use crate::compress::{compress, strictly_increasing};
use crate::fenwick::{Fenwick, range_sum};
use crate::window_stats::{count, holds, lemma_count_above, lemma_count_all, lemma_count_bound, lemma_count_ext, lemma_count_prepend, lemma_prefix_counts};
use crate::mo::MoSol;

verus! {

/// The number of pairs `lo <= i < j < hi` with `s[i] > s[j]`.
pub open spec fn inversions(s: Seq<int>, lo: int, hi: int) -> int
    decreases hi - lo,
{
    if hi <= lo {
        0
    } else {
        inversions(s, lo, hi - 1) + count(s, lo, hi - 1, s[hi - 1], 1)
    }
}

/// `s` and `t` order the positions `lo..hi` alike.
pub open spec fn same_order(s: Seq<int>, t: Seq<int>, lo: int, hi: int) -> bool {
    forall|i: int, j: int| lo <= i < hi && lo <= j < hi ==> (s[i] < s[j] <==> t[i] < t[j])
}

/// Taking in `s[lo - 1]` on the left adds one inversion for each element of the window below it.
proof fn lemma_inversions_prepend(s: Seq<int>, lo: int, hi: int)
    requires
        lo <= hi,
    ensures
        inversions(s, lo - 1, hi) == inversions(s, lo, hi) + count(s, lo, hi, s[lo - 1], -1),
    decreases hi - lo,
{
    if hi > lo {
        lemma_inversions_prepend(s, lo, hi - 1);
        lemma_count_prepend(s, lo, hi - 1, s[hi - 1], 1);
    } else {
        assert(inversions(s, lo - 1, lo - 1) == 0);
        assert(count(s, lo - 1, lo - 1, s[lo - 1], 1) == 0);
    }
}

proof fn lemma_inversions_bound(s: Seq<int>, lo: int, hi: int)
    requires
        lo <= hi,
    ensures
        0 <= inversions(s, lo, hi) <= (hi - lo) * (hi - lo),
    decreases hi - lo,
{
    if hi > lo {
        lemma_inversions_bound(s, lo, hi - 1);
        lemma_count_bound(s, lo, hi - 1, s[hi - 1], 1);
        let k = hi - lo;
        assert((k - 1) * (k - 1) + (k - 1) <= k * k) by (nonlinear_arith)
            requires
                k >= 1,
        ;
    }
}

/// Sequences that order a window alike have the same inversions in it.
pub proof fn lemma_inversions_same_order(s: Seq<int>, t: Seq<int>, lo: int, hi: int)
    requires
        same_order(s, t, lo, hi),
    ensures
        inversions(s, lo, hi) == inversions(t, lo, hi),
    decreases hi - lo,
{
    if hi > lo {
        lemma_inversions_same_order(s, t, lo, hi - 1);
        assert forall|j: int| lo <= j < hi - 1 implies (holds(#[trigger] s[j], s[hi - 1], 1) <==> holds(
            t[j],
            t[hi - 1],
            1,
        )) by {
            assert(s[hi - 1] < s[j] <==> t[hi - 1] < t[j]);
        }
        lemma_count_ext(s, t, lo, hi - 1, s[hi - 1], t[hi - 1], 1);
    }
}

/// The number of inverted pairs in a window of a sequence, kept up to date as the window moves
/// one element at a time on either side.
pub struct Inversions {
    rank: Vec<usize>,
    bit: Fenwick,
    len: u64,
    inv: u64,
    lo: usize,
    hi: usize,
    values: Ghost<Seq<int>>,
}

impl Inversions {
    /// The sequence the window moves over.
    pub closed spec fn values(&self) -> Seq<int> {
        self.values@
    }

    closed spec fn ranks(&self) -> Seq<int> {
        self.rank@.map_values(|x: usize| x as int)
    }

    /// The ranks order the elements as their values do; the tree counts the window's elements
    /// of each rank; `len` and `inv` are the window's size and inversions.
    pub closed spec fn wf(&self) -> bool {
        let n = self.rank@.len();
        let m = self.bit.counts().len();
        &&& self.bit.wf()
        &&& self.values@.len() == n
        &&& n < u32::MAX
        &&& n + 1 <= usize::MAX / 2
        &&& m <= n
        &&& forall|i: int| 0 <= i < n ==> (#[trigger] self.rank@[i]) < m
        &&& same_order(self.ranks(), self.values@, 0, n as int)
        &&& self.lo <= self.hi <= n
        &&& forall|w: int| 0 <= w < m ==> #[trigger] self.bit.counts()[w] == count(self.ranks(), self.lo as int, self.hi as int, w, 0)
        &&& self.len == self.hi - self.lo
        &&& self.inv == inversions(self.ranks(), self.lo as int, self.hi as int)
    }

    /// An empty window at the start of `a`.
    pub fn new(a: &Vec<i64>) -> (s: Self)
        requires
            a@.len() < u32::MAX,
            a@.len() + 1 <= usize::MAX / 2,
        ensures
            s.inv(),
            s.values() == a@.map_values(|x: i64| x as int),
            s.start() == 0,
            s.end() == 0,
            s.extent() == a@.len(),
    {
        let (vals, rank) = compress(a);
        let m = vals.len();
        let bit = Fenwick::new(m);
        let ghost values = a@.map_values(|x: i64| x as int);
        let s = Inversions { rank, bit, len: 0, inv: 0, lo: 0, hi: 0, values: Ghost(values) };
        proof {
            let r = s.ranks();
            assert forall|i: int, j: int| 0 <= i < a@.len() && 0 <= j < a@.len() implies (r[i] < r[j] <==> values[i] < values[j]) by {
                if r[i] < r[j] {
                    assert(vals@[rank@[i] as int] < vals@[rank@[j] as int]);
                } else {
                    assert(strictly_increasing(vals@));
                    if rank@[j] < rank@[i] {
                        assert(vals@[rank@[j] as int] < vals@[rank@[i] as int]);
                    }
                }
            }
            assert forall|w: int| 0 <= w < m implies #[trigger] s.bit.counts()[w] == count(r, 0, 0, w, 0) by {}
        }
        s
    }

}

impl MoSol for Inversions {
    type Ans = u64;

    const MAX_INDEX_POW2: usize = 17;

    closed spec fn inv(&self) -> bool {
        self.wf()
    }

    closed spec fn start(&self) -> int {
        self.lo as int
    }

    closed spec fn end(&self) -> int {
        self.hi as int
    }

    closed spec fn extent(&self) -> int {
        self.values@.len() as int
    }

    /// The number of pairs `l <= i < j < r` with `values()[i] > values()[j]`.
    open spec fn answers(&self, l: int, r: int, ans: u64) -> bool {
        ans == inversions(self.values(), l, r)
    }

    /// Takes in element `i`, just left of the window.
    fn add_l(&mut self, i: usize) {
        let ghost s = self.ranks();
        let ghost lo = self.lo as int;
        let ghost hi = self.hi as int;
        let r = self.rank[i];
        let ghost c = self.bit.counts();
        let ghost m = c.len();
        proof {
            lemma_prefix_counts(s, lo, hi, c, r as int);
            lemma_prefix_counts(s, lo, hi, c, m as int);
            lemma_count_all(s, lo, hi, m as int, -1);
            lemma_inversions_prepend(s, lo, hi);
            lemma_inversions_bound(s, lo - 1, hi);
            assert((hi - lo + 1) * (hi - lo + 1) <= u64::MAX) by (nonlinear_arith)
                requires
                    0 <= hi - lo + 1 <= u32::MAX,
            ;
        }
        let below = self.bit.sum(r);
        self.inv = self.inv + below;
        self.bit.add(r);
        self.len = self.len + 1;
        self.lo = i;
        proof {
            assert forall|w: int| 0 <= w < m implies #[trigger] self.bit.counts()[w] == count(s, lo - 1, hi, w, 0) by {
                lemma_count_prepend(s, lo, hi, w, 0);
            }
        }
    }

    /// Takes in element `i`, just right of the window.
    fn add_r(&mut self, i: usize) {
        let ghost s = self.ranks();
        let ghost lo = self.lo as int;
        let ghost hi = self.hi as int;
        let r = self.rank[i];
        let ghost c = self.bit.counts();
        let ghost m = c.len();
        proof {
            lemma_prefix_counts(s, lo, hi, c, r + 1);
            lemma_prefix_counts(s, lo, hi, c, m as int);
            lemma_count_all(s, lo, hi, m as int, -1);
            lemma_count_above(s, lo, hi, r as int);
            lemma_count_bound(s, lo, hi, r as int, 1);
            lemma_inversions_bound(s, lo, hi + 1);
            assert((hi - lo + 1) * (hi - lo + 1) <= u64::MAX) by (nonlinear_arith)
                requires
                    0 <= hi - lo + 1 <= u32::MAX,
            ;
        }
        let upto = self.bit.sum(r + 1);
        self.inv = self.inv + (self.len - upto);
        self.bit.add(r);
        self.len = self.len + 1;
        self.hi = i + 1;
        proof {
            assert forall|w: int| 0 <= w < m implies #[trigger] self.bit.counts()[w] == count(s, lo, hi + 1, w, 0) by {}
        }
    }

    /// Lets go of element `i`, the leftmost of the window.
    fn del_l(&mut self, i: usize) {
        let ghost s = self.ranks();
        let ghost lo = self.lo as int;
        let ghost hi = self.hi as int;
        let r = self.rank[i];
        let ghost c = self.bit.counts();
        let ghost m = c.len();
        proof {
            lemma_count_prepend(s, lo + 1, hi, r as int, 0);
            lemma_count_bound(s, lo + 1, hi, r as int, 0);
            assert(c[r as int] > 0);
        }
        self.bit.sub(r);
        self.len = self.len - 1;
        self.lo = i + 1;
        let ghost c2 = self.bit.counts();
        proof {
            assert forall|w: int| 0 <= w < m implies #[trigger] c2[w] == count(s, lo + 1, hi, w, 0) by {
                lemma_count_prepend(s, lo + 1, hi, w, 0);
            }
            lemma_prefix_counts(s, lo + 1, hi, c2, r as int);
            lemma_inversions_prepend(s, lo + 1, hi);
            lemma_inversions_bound(s, lo + 1, hi);
        }
        let below = self.bit.sum(r);
        self.inv = self.inv - below;
    }

    /// Lets go of element `i`, the rightmost of the window.
    fn del_r(&mut self, i: usize) {
        let ghost s = self.ranks();
        let ghost lo = self.lo as int;
        let ghost hi = self.hi as int;
        let r = self.rank[i];
        let ghost c = self.bit.counts();
        let ghost m = c.len();
        proof {
            lemma_count_bound(s, lo, hi - 1, r as int, 0);
            assert(c[r as int] > 0);
        }
        self.bit.sub(r);
        self.len = self.len - 1;
        self.hi = i;
        let ghost c2 = self.bit.counts();
        proof {
            assert forall|w: int| 0 <= w < m implies #[trigger] c2[w] == count(s, lo, hi - 1, w, 0) by {}
            lemma_prefix_counts(s, lo, hi - 1, c2, r + 1);
            lemma_count_above(s, lo, hi - 1, r as int);
            lemma_count_bound(s, lo, hi - 1, r as int, 1);
            lemma_inversions_bound(s, lo, hi - 1);
        }
        let upto = self.bit.sum(r + 1);
        self.inv = self.inv - (self.len - upto);
    }

    /// The number of pairs `i < j` in the window with `values()[i] > values()[j]`.
    fn solve(&mut self) -> (r: u64) {
        proof {
            lemma_inversions_same_order(self.ranks(), self.values@, self.lo as int, self.hi as int);
        }
        self.inv
    }
}

} // verus!
