use vstd::prelude::*;
use crate::compress::{compress, strictly_increasing};
use crate::mo::MoSol;
use crate::window_stats::{count, lemma_count_bound, lemma_count_prepend};

verus! {

/// `ans` is a most frequent value among positions `l..r` of the sequence whose element `i`
/// is `vals[ranks[i]]`, with its count there.
pub open spec fn is_mode(vals: Seq<i64>, ranks: Seq<int>, l: int, r: int, ans: (i64, usize)) -> bool {
    exists|v: int|
        0 <= v < vals.len() && ans.0 == vals[v] && ans.1 == count(ranks, l, r, v, 0) && forall|w: int|
            0 <= w < vals.len() ==> #[trigger] count(ranks, l, r, w, 0) <= count(ranks, l, r, v, 0)
}

/// The most frequent value of a window of a sequence and its count, kept up to date as
/// elements come and go.
///
/// The ranks are kept in `order` sorted by count, the last one being a most frequent value.
/// Ranks with the same count fill one stretch of `order`, which starts at `start[c]`; moving a
/// rank to the edge of its stretch and shifting the boundary by one keeps the order sorted.
/// Following only the largest count would lose track of which value has it when several do.
pub struct Mode {
    vals: Vec<i64>,
    rank: Vec<usize>,
    cnt: Vec<usize>,
    order: Vec<usize>,
    pos: Vec<usize>,
    start: Vec<usize>,
    lo: Ghost<int>,
    hi: Ghost<int>,
}

impl Mode {
    /// The distinct values, increasing.
    pub closed spec fn values(&self) -> Seq<i64> {
        self.vals@
    }

    /// The position among the distinct values of each element.
    pub closed spec fn ranks(&self) -> Seq<usize> {
        self.rank@
    }

    /// How many copies of each distinct value the window holds.
    pub closed spec fn counts(&self) -> Seq<usize> {
        self.cnt@
    }

    /// The ranks as integers.
    pub open spec fn rank_ints(&self) -> Seq<int> {
        self.ranks().map_values(|x: usize| x as int)
    }

    /// The counts are those of the window `[lo, hi)`, of a sequence that is not empty.
    closed spec fn window_ok(&self) -> bool {
        &&& 0 < self.vals@.len()
        &&& 0 <= self.lo@ <= self.hi@ <= self.rank@.len() < usize::MAX
        &&& forall|v: int| 0 <= v < self.cnt@.len() ==> #[trigger] self.cnt@[v] == count(self.rank_ints(), self.lo@, self.hi@, v, 0)
    }

    /// `order` lists the ranks sorted by count, `pos` is its inverse, and `start[c]` is where
    /// the ranks with count `c` or more begin.
    pub closed spec fn wf(&self) -> bool {
        let m = self.vals@.len();
        let n = self.rank@.len();
        &&& strictly_increasing(self.vals@)
        &&& forall|i: int| 0 <= i < n ==> (#[trigger] self.rank@[i]) < m
        &&& self.cnt@.len() == m
        &&& self.order@.len() == m
        &&& self.pos@.len() == m
        &&& self.start@.len() == n + 1
        &&& forall|p: int| 0 <= p < m ==> (#[trigger] self.order@[p]) < m && self.pos@[self.order@[p] as int] == p
        &&& forall|r: int| 0 <= r < m ==> (#[trigger] self.pos@[r]) < m && self.order@[self.pos@[r] as int] == r
        &&& forall|r: int| 0 <= r < m ==> #[trigger] self.cnt@[r] <= n
        &&& forall|p: int, q: int|
            0 <= p <= q < m ==> self.cnt@[#[trigger] self.order@[p] as int] <= self.cnt@[#[trigger] self.order@[q] as int]
        &&& forall|c: int| 0 <= c <= n ==> #[trigger] self.start@[c] <= m
        &&& forall|c: int, p: int|
            #![trigger self.start@[c], self.order@[p]]
            0 <= c <= n && 0 <= p < m ==> (p < self.start@[c] <==> self.cnt@[self.order@[p] as int] < c)
    }

    /// An empty window over `a`.
    pub fn new(a: &Vec<i64>) -> (s: Self)
        requires
            a@.len() < usize::MAX,
        ensures
            s.wf(),
            a@.len() > 0 ==> s.inv(),
            s.start() == 0,
            s.end() == 0,
            s.extent() == a@.len(),
            s.ranks().len() == a@.len(),
            forall|i: int| 0 <= i < a@.len() ==> s.values()[#[trigger] s.ranks()[i] as int] == a@[i],
            forall|r: int| 0 <= r < s.counts().len() ==> #[trigger] s.counts()[r] == 0,
    {
        let (vals, rank) = compress(a);
        let m = vals.len();
        let n = a.len();
        let mut cnt: Vec<usize> = Vec::new();
        let mut order: Vec<usize> = Vec::new();
        while cnt.len() < m
            invariant
                cnt@.len() == order@.len(),
                cnt@.len() <= m,
                forall|j: int| 0 <= j < cnt@.len() ==> #[trigger] cnt@[j] == 0,
                forall|j: int| 0 <= j < order@.len() ==> #[trigger] order@[j] == j,
            decreases m - cnt@.len(),
        {
            order.push(cnt.len());
            cnt.push(0);
        }
        let mut start: Vec<usize> = Vec::new();
        start.push(0);
        while start.len() < n + 1
            invariant
                n < usize::MAX,
                1 <= start@.len() <= n + 1,
                start@[0] == 0,
                forall|j: int| 1 <= j < start@.len() ==> #[trigger] start@[j] == m,
            decreases n + 1 - start@.len(),
        {
            start.push(m);
        }
        let pos = order.clone();
        let s = Mode { vals, rank, cnt, order, pos, start, lo: Ghost(0), hi: Ghost(0) };
        proof {
            assert forall|c: int, p: int|
                #![trigger s.start@[c], s.order@[p]]
                0 <= c <= n && 0 <= p < m implies (p < s.start@[c] <==> s.cnt@[s.order@[p] as int] < c) by {
                if c >= 1 {
                    assert(s.start@[c] == m);
                }
            }
        }
        proof {
            assert forall|v: int| 0 <= v < m implies #[trigger] s.cnt@[v] == count(s.rank_ints(), 0, 0, v, 0) by {}
            if a@.len() > 0 {
                assert(s.rank@[0] < m);
            }
        }
        s
    }

    /// Moves rank `r` to place `p` of `order`, swapping it with the rank there.
    fn move_to(&mut self, r: usize, p: usize)
        requires
            r < old(self).order@.len(),
            p < old(self).order@.len(),
            old(self).pos@.len() == old(self).order@.len(),
            forall|q: int| 0 <= q < old(self).order@.len() ==> (#[trigger] old(self).order@[q]) < old(self).order@.len() && old(self).pos@[old(self).order@[q] as int] == q,
            forall|x: int| 0 <= x < old(self).order@.len() ==> (#[trigger] old(self).pos@[x]) < old(self).order@.len() && old(self).order@[old(self).pos@[x] as int] == x,
        ensures
            final(self).vals == old(self).vals,
            final(self).rank == old(self).rank,
            final(self).cnt == old(self).cnt,
            final(self).start == old(self).start,
            final(self).lo == old(self).lo,
            final(self).hi == old(self).hi,
            final(self).pos@.len() == old(self).pos@.len(),
            final(self).order@ == old(self).order@.update(p as int, r).update(
                old(self).pos@[r as int] as int,
                old(self).order@[p as int],
            ),
            forall|q: int| 0 <= q < final(self).order@.len() ==> (#[trigger] final(self).order@[q]) < final(self).order@.len() && final(self).pos@[final(self).order@[q] as int] == q,
            forall|x: int| 0 <= x < final(self).order@.len() ==> (#[trigger] final(self).pos@[x]) < final(self).order@.len() && final(self).order@[final(self).pos@[x] as int] == x,
    {
        let q = self.pos[r];
        let s = self.order[p];
        let o = self.order[q];
        self.order.set(p, r);
        self.order.set(q, s);
        self.pos.set(r, p);
        self.pos.set(s, q);
        proof {
            assert(o == r);
            assert(self.order@ =~= old(self).order@.update(p as int, r).update(q as int, s));
        }
    }

    /// Takes element `i` into the window, which holds fewer elements than the sequence.
    fn add(&mut self, i: usize)
        requires
            old(self).wf(),
            i < old(self).ranks().len(),
            old(self).counts()[old(self).ranks()[i as int] as int] < old(self).ranks().len(),
        ensures
            final(self).wf(),
            final(self).lo == old(self).lo,
            final(self).hi == old(self).hi,
            final(self).values() == old(self).values(),
            final(self).ranks() == old(self).ranks(),
            final(self).counts() == old(self).counts().update(
                old(self).ranks()[i as int] as int,
                (old(self).counts()[old(self).ranks()[i as int] as int] + 1) as usize,
            ),
    {
        let ghost m = self.vals@.len() as int;
        let ghost n = self.rank@.len() as int;
        let ghost o0 = self.order@;
        let ghost c0 = self.cnt@;
        let ghost s0 = self.start@;
        let r = self.rank[i];
        let c = self.cnt[r];
        let nn = self.rank.len();
        let ghost pr = self.pos@[r as int] as int;
        proof {
            assert(self.order@[pr] == r);
            assert(s0[c as int] <= pr) by {
                if pr < s0[c as int] {
                    assert(c0[o0[pr] as int] < c);
                }
            }
            assert(pr < s0[c + 1]) by {
                if pr >= s0[c + 1] {
                    assert(c0[o0[pr] as int] >= c + 1);
                }
            }
        }
        let tail = self.start[c + 1] - 1;
        let ghost st = self.order@[tail as int];
        proof {
            assert(c0[st as int] == c) by {
                assert(!(tail < s0[c as int]));
                assert(tail < s0[c + 1]);
            }
        }
        self.move_to(r, tail);
        self.start.set(c + 1, tail);
        self.cnt.set(r, c + 1);
        proof {
            let o1 = self.order@;
            let c1 = self.cnt@;
            let s1 = self.start@;
            assert(o1[tail as int] == r);
            assert(o1[pr] == st);
            assert forall|p: int| 0 <= p < m implies #[trigger] c1[o1[p] as int] == if p == tail {
                c + 1
            } else if p == pr {
                c as int
            } else {
                c0[o0[p] as int] as int
            } by {
                if p != tail && p != pr {
                    assert(o1[p] == o0[p]);
                    assert(o0[p] != r) by {
                        assert(self.pos@.len() == m);
                        assert(old(self).pos@[o0[p] as int] == p);
                    }
                }
            }
            assert forall|p: int, q: int| 0 <= p <= q < m implies c1[#[trigger] o1[p] as int] <= c1[#[trigger] o1[q] as int] by {
                let cp = c1[o1[p] as int];
                let cq = c1[o1[q] as int];
                if p == tail || q == tail || p == pr || q == pr {
                    if q < s0[c + 1] {
                        assert(cp <= c + 1);
                    }
                    if p >= s0[c as int] && q != tail {
                        assert(cq >= c);
                    }
                    if q > tail {
                        assert(q >= s0[c + 1]);
                        assert(c0[o0[q] as int] >= c + 1);
                    }
                    if p < pr {
                        assert(p < s0[c + 1]);
                        assert(c0[o0[p] as int] < c + 1);
                    }
                    if p < tail && p != pr {
                        assert(c0[o0[p] as int] < c + 1);
                    }
                } else {
                    assert(c0[o0[p] as int] <= c0[o0[q] as int]);
                }
            }
            assert forall|cc: int| 0 <= cc <= n implies #[trigger] s1[cc] <= m by {}
            assert forall|cc: int, p: int|
                #![trigger s1[cc], o1[p]]
                0 <= cc <= n && 0 <= p < m implies (p < s1[cc] <==> c1[o1[p] as int] < cc) by {
                assert(s0[cc] <= m);
                if cc == c + 1 {
                    if p != tail && p != pr {
                        assert(p < s0[c + 1] <==> c0[o0[p] as int] < c + 1);
                        if p < tail {
                            assert(c0[o0[p] as int] < c + 1);
                        }
                    }
                } else {
                    if p != tail && p != pr {
                        assert(p < s0[cc] <==> c0[o0[p] as int] < cc);
                    } else {
                        assert(pr < s0[cc] <==> c < cc);
                        assert(tail < s0[cc] <==> c < cc) by {
                            assert(c0[o0[tail as int] as int] == c);
                        }
                    }
                }
            }
        }
    }

    /// Lets element `i` go from the window, which holds a copy of its value.
    fn del(&mut self, i: usize)
        requires
            old(self).wf(),
            i < old(self).ranks().len(),
            old(self).counts()[old(self).ranks()[i as int] as int] > 0,
        ensures
            final(self).wf(),
            final(self).lo == old(self).lo,
            final(self).hi == old(self).hi,
            final(self).values() == old(self).values(),
            final(self).ranks() == old(self).ranks(),
            final(self).counts() == old(self).counts().update(
                old(self).ranks()[i as int] as int,
                (old(self).counts()[old(self).ranks()[i as int] as int] - 1) as usize,
            ),
    {
        let ghost m = self.vals@.len() as int;
        let ghost n = self.rank@.len() as int;
        let ghost o0 = self.order@;
        let ghost c0 = self.cnt@;
        let ghost s0 = self.start@;
        let r = self.rank[i];
        let c = self.cnt[r];
        let ghost pr = self.pos@[r as int] as int;
        proof {
            assert(self.order@[pr] == r);
            assert(s0[c as int] <= pr) by {
                if pr < s0[c as int] {
                    assert(c0[o0[pr] as int] < c);
                }
            }
            assert(c <= n);
        }
        let mm = self.vals.len();
        let head = self.start[c];
        let ghost sh = self.order@[head as int];
        proof {
            assert(head < m);
            assert(c0[sh as int] == c) by {
                assert(!(head < s0[c as int]));
                if c + 1 <= n {
                    assert(head <= pr);
                    assert(pr < s0[c + 1]) by {
                        if pr >= s0[c + 1] {
                            assert(c0[o0[pr] as int] >= c + 1);
                        }
                    }
                    assert(head < s0[c + 1]);
                } else {
                    assert(c0[sh as int] <= n);
                }
            }
        }
        self.move_to(r, head);
        self.start.set(c, head + 1);
        self.cnt.set(r, c - 1);
        proof {
            let o1 = self.order@;
            let c1 = self.cnt@;
            let s1 = self.start@;
            assert(o1[head as int] == r);
            assert(o1[pr] == sh);
            assert forall|p: int| 0 <= p < m implies #[trigger] c1[o1[p] as int] == if p == head {
                c - 1
            } else if p == pr {
                c as int
            } else {
                c0[o0[p] as int] as int
            } by {
                if p != head && p != pr {
                    assert(o1[p] == o0[p]);
                    assert(o0[p] != r) by {
                        assert(old(self).pos@[o0[p] as int] == p);
                    }
                }
            }
            assert forall|p: int, q: int| 0 <= p <= q < m implies c1[#[trigger] o1[p] as int] <= c1[#[trigger] o1[q] as int] by {
                if p == head || q == head || p == pr || q == pr {
                    if p < head {
                        assert(c0[o0[p] as int] < c);
                    }
                    if q > head && q != pr {
                        assert(c0[o0[q] as int] >= c);
                    }
                    if c + 1 <= n {
                        if p > pr && p != head {
                            assert(c0[o0[p] as int] >= c);
                        }
                        if q < pr && q != head {
                            assert(q >= head);
                            assert(c0[o0[q] as int] >= c);
                            assert(q < s0[c + 1]);
                            assert(c0[o0[q] as int] < c + 1);
                        }
                    } else {
                        if q < pr && q != head {
                            assert(c0[o0[q] as int] >= c);
                            assert(c0[o0[q] as int] <= n);
                        }
                    }
                } else {
                    assert(c0[o0[p] as int] <= c0[o0[q] as int]);
                }
            }
            assert forall|cc: int| 0 <= cc <= n implies #[trigger] s1[cc] <= m by {}
            assert forall|cc: int, p: int|
                #![trigger s1[cc], o1[p]]
                0 <= cc <= n && 0 <= p < m implies (p < s1[cc] <==> c1[o1[p] as int] < cc) by {
                assert(s0[cc] <= m);
                if cc == c {
                    if p != head && p != pr {
                        assert(p < s0[c as int] <==> c0[o0[p] as int] < c);
                    }
                } else {
                    if p != head && p != pr {
                        assert(p < s0[cc] <==> c0[o0[p] as int] < cc);
                    } else {
                        assert(pr < s0[cc] <==> c < cc);
                        assert(head < s0[cc] <==> c < cc) by {
                            assert(c0[o0[head as int] as int] == c);
                        }
                    }
                }
            }
        }
    }


    /// A most frequent value of the window and its count; with several, the one whose rank
    /// `order` lists last.
    fn solve(&self) -> (res: (i64, usize))
        requires
            self.wf(),
            self.values().len() > 0,
        ensures
            exists|r: int|
                0 <= r < self.values().len() && res == (self.values()[r], self.counts()[r]) && forall|r2: int|
                    0 <= r2 < self.values().len() ==> #[trigger] self.counts()[r2] <= self.counts()[r],
    {
        let r = self.order[self.order.len() - 1];
        proof {
            let m = self.vals@.len() as int;
            assert forall|r2: int| 0 <= r2 < m implies #[trigger] self.cnt@[r2] <= self.cnt@[r as int] by {
                let p2 = self.pos@[r2] as int;
                assert(self.order@[p2] == r2);
                assert(self.cnt@[self.order@[p2] as int] <= self.cnt@[self.order@[m - 1] as int]);
            }
        }
        (self.vals[r], self.cnt[r])
    }
}


impl MoSol for Mode {
    type Ans = (i64, usize);

    const MAX_INDEX_POW2: usize = 17;

    closed spec fn inv(&self) -> bool {
        self.wf() && self.window_ok()
    }

    closed spec fn start(&self) -> int {
        self.lo@
    }

    closed spec fn end(&self) -> int {
        self.hi@
    }

    closed spec fn extent(&self) -> int {
        self.rank@.len() as int
    }

    /// `ans` is a value that occurs most often at positions `l..r`, with its count there.
    open spec fn answers(&self, l: int, r: int, ans: (i64, usize)) -> bool {
        is_mode(self.values(), self.rank_ints(), l, r, ans)
    }

    fn add_l(&mut self, l_idx: usize) {
        let ghost s = self.rank_ints();
        let ghost (lo, hi) = (self.lo@, self.hi@);
        proof {
            assert(s[l_idx as int] == self.rank@[l_idx as int] as int);
            lemma_count_bound(s, lo, hi, s[l_idx as int], 0);
        }
        self.add(l_idx);
        self.lo = Ghost(l_idx as int);
        proof {
            assert forall|v: int| 0 <= v < self.cnt@.len() implies #[trigger] self.cnt@[v] == count(s, lo - 1, hi, v, 0) by {
                lemma_count_prepend(s, lo, hi, v, 0);
            }
        }
    }

    fn add_r(&mut self, r_idx: usize) {
        let ghost s = self.rank_ints();
        let ghost (lo, hi) = (self.lo@, self.hi@);
        proof {
            assert(s[r_idx as int] == self.rank@[r_idx as int] as int);
            lemma_count_bound(s, lo, hi, s[r_idx as int], 0);
        }
        self.add(r_idx);
        self.hi = Ghost(r_idx + 1);
        proof {
            assert forall|v: int| 0 <= v < self.cnt@.len() implies #[trigger] self.cnt@[v] == count(s, lo, hi + 1, v, 0) by {}
        }
    }

    fn del_l(&mut self, l_idx: usize) {
        let ghost s = self.rank_ints();
        let ghost (lo, hi) = (self.lo@, self.hi@);
        proof {
            assert(s[l_idx as int] == self.rank@[l_idx as int] as int);
            lemma_count_prepend(s, lo + 1, hi, s[l_idx as int], 0);
            lemma_count_bound(s, lo + 1, hi, s[l_idx as int], 0);
        }
        self.del(l_idx);
        self.lo = Ghost(l_idx + 1);
        proof {
            assert forall|v: int| 0 <= v < self.cnt@.len() implies #[trigger] self.cnt@[v] == count(s, lo + 1, hi, v, 0) by {
                lemma_count_prepend(s, lo + 1, hi, v, 0);
            }
        }
    }

    fn del_r(&mut self, r_idx: usize) {
        let ghost s = self.rank_ints();
        let ghost (lo, hi) = (self.lo@, self.hi@);
        proof {
            assert(s[r_idx as int] == self.rank@[r_idx as int] as int);
            lemma_count_bound(s, lo, hi - 1, s[r_idx as int], 0);
        }
        self.del(r_idx);
        self.hi = Ghost(r_idx as int);
        proof {
            assert forall|v: int| 0 <= v < self.cnt@.len() implies #[trigger] self.cnt@[v] == count(s, lo, hi - 1, v, 0) by {}
        }
    }

    fn solve(&mut self) -> (r: (i64, usize)) {
        let res = Mode::solve(self);
        proof {
            let m = self.vals@.len() as int;
            let v = choose|v: int|
                0 <= v < m && res == (self.vals@[v], self.cnt@[v]) && forall|r2: int|
                    0 <= r2 < m ==> #[trigger] self.cnt@[r2] <= self.cnt@[v];
            assert forall|w: int| 0 <= w < m implies #[trigger] count(self.rank_ints(), self.lo@, self.hi@, w, 0) <= count(
                self.rank_ints(),
                self.lo@,
                self.hi@,
                v,
                0,
            ) by {
                assert(self.cnt@[w] <= self.cnt@[v]);
            }
        }
        res
    }
}

} // verus!
