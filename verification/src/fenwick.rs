use vstd::prelude::*;

verus! {

/// The lowest set bit of `x` (for `x > 0`).
pub open spec fn lowbit(x: usize) -> usize {
    x & !((x - 1) as usize)
}

proof fn lemma_lowbit_basic(x: usize)
    requires
        x > 0,
    ensures
        0 < lowbit(x) <= x,
{
    assert(0 < (x & !((x - 1) as usize)) <= x) by (bit_vector)
        requires
            x > 0,
    ;
}

proof fn lemma_lowbit_inside(y: usize, d: usize)
    requires
        y > 0,
        0 < d < lowbit(y),
        y + d <= usize::MAX,
    ensures
        lowbit((y + d) as usize) == lowbit(d),
        lowbit(d) <= d,
{
    assert((((y + d) as usize) & !((((y + d) as usize) - 1) as usize)) == (d & !((d - 1) as usize)) && (d & !((d - 1) as usize)) <= d) by (bit_vector)
        requires
            y > 0,
            0 < d,
            d < (y & !((y - 1) as usize)),
            ((y + d) as usize) > y,
    ;
}

proof fn lemma_lowbit_step(y: usize)
    requires
        y > 0,
        y + lowbit(y) <= usize::MAX,
    ensures
        lowbit((y + lowbit(y)) as usize) >= 2 * lowbit(y),
{
    let l = lowbit(y);
    lemma_lowbit_basic(y);
    assert((((y + l) as usize) & !((((y + l) as usize) - 1) as usize)) >= 2 * l) by (bit_vector)
        requires
            y > 0,
            l == (y & !((y - 1) as usize)),
            ((y + l) as usize) > y,
    ;
}

/// `c[lo] + ... + c[hi - 1]`.
pub open spec fn range_sum(c: Seq<int>, lo: int, hi: int) -> int
    decreases hi - lo,
{
    if hi <= lo {
        0
    } else {
        range_sum(c, lo, hi - 1) + c[hi - 1]
    }
}

proof fn lemma_range_split(c: Seq<int>, lo: int, mid: int, hi: int)
    requires
        lo <= mid <= hi,
    ensures
        range_sum(c, lo, hi) == range_sum(c, lo, mid) + range_sum(c, mid, hi),
    decreases hi - mid,
{
    if hi > mid {
        lemma_range_split(c, lo, mid, hi - 1);
    }
}

proof fn lemma_range_update(c: Seq<int>, p: int, v: int, lo: int, hi: int)
    requires
        0 <= p < c.len(),
        0 <= lo,
        hi <= c.len(),
    ensures
        range_sum(c.update(p, v), lo, hi) == range_sum(c, lo, hi) + if lo <= p < hi {
            v - c[p]
        } else {
            0
        },
    decreases hi - lo,
{
    if hi > lo {
        lemma_range_update(c, p, v, lo, hi - 1);
    }
}

proof fn lemma_range_nonneg(c: Seq<int>, lo: int, hi: int)
    requires
        0 <= lo,
        hi <= c.len(),
        forall|j: int| 0 <= j < c.len() ==> #[trigger] c[j] >= 0,
    ensures
        range_sum(c, lo, hi) >= 0,
    decreases hi - lo,
{
    if hi > lo {
        lemma_range_nonneg(c, lo, hi - 1);
    }
}

proof fn lemma_range_zero(c: Seq<int>, lo: int, hi: int)
    requires
        0 <= lo,
        hi <= c.len(),
        forall|j: int| 0 <= j < c.len() ==> #[trigger] c[j] == 0,
    ensures
        range_sum(c, lo, hi) == 0,
    decreases hi - lo,
{
    if hi > lo {
        lemma_range_zero(c, lo, hi - 1);
    }
}

/// A sub-stretch sums to no more than the whole, all counts being non-negative.
proof fn lemma_range_within(c: Seq<int>, lo: int, hi: int)
    requires
        0 <= lo <= hi <= c.len(),
        forall|j: int| 0 <= j < c.len() ==> #[trigger] c[j] >= 0,
    ensures
        range_sum(c, lo, hi) <= range_sum(c, 0, c.len() as int),
{
    lemma_range_split(c, 0, lo, c.len() as int);
    lemma_range_split(c, lo, hi, c.len() as int);
    lemma_range_nonneg(c, 0, lo);
    lemma_range_nonneg(c, hi, c.len() as int);
}

/// Counts at positions `0..n` with prefix sums in logarithmic time: entry `x` of the tree
/// (`1 <= x <= n`) holds the counts of positions `x - lowbit(x) .. x`.
pub struct Fenwick {
    tree: Vec<u32>,
    counts: Ghost<Seq<int>>,
}

impl Fenwick {
    /// The count at each position.
    pub closed spec fn counts(&self) -> Seq<int> {
        self.counts@
    }

    /// Every tree entry holds the counts of its stretch; all counts together fit in a `u32`.
    pub closed spec fn wf(&self) -> bool {
        let n = self.counts@.len();
        &&& self.tree@.len() == n + 1
        &&& n + 1 <= usize::MAX / 2
        &&& forall|j: int| 0 <= j < n ==> #[trigger] self.counts@[j] >= 0
        &&& range_sum(self.counts@, 0, n as int) <= u32::MAX
        &&& forall|x: int| 1 <= x <= n ==> #[trigger] self.tree@[x] == range_sum(self.counts@, x - lowbit(x as usize), x)
    }

    /// All counts zero, at positions `0..n`.
    pub fn new(n: usize) -> (f: Self)
        requires
            n + 1 <= usize::MAX / 2,
        ensures
            f.wf(),
            f.counts() == Seq::new(n as nat, |j: int| 0int),
    {
        let mut tree: Vec<u32> = Vec::new();
        while tree.len() < n + 1
            invariant
                tree@.len() <= n + 1,
                n + 1 <= usize::MAX / 2,
                forall|x: int| 0 <= x < tree@.len() ==> #[trigger] tree@[x] == 0,
            decreases n + 1 - tree@.len(),
        {
            tree.push(0);
        }
        let ghost c = Seq::new(n as nat, |j: int| 0int);
        let f = Fenwick { tree, counts: Ghost(c) };
        proof {
            lemma_range_zero(c, 0, n as int);
            assert forall|x: int| 1 <= x <= n implies #[trigger] f.tree@[x] == range_sum(c, x - lowbit(x as usize), x) by {
                lemma_lowbit_basic(x as usize);
                lemma_range_zero(c, x - lowbit(x as usize), x);
            }
        }
        f
    }

    /// The sum of the counts at positions `0..i`.
    pub fn sum(&self, i: usize) -> (r: u64)
        requires
            self.wf(),
            i <= self.counts().len(),
        ensures
            r == range_sum(self.counts(), 0, i as int),
    {
        let ghost c = self.counts@;
        let mut x = i;
        let mut acc: u64 = 0;
        proof {
            lemma_range_within(c, 0, i as int);
        }
        while x > 0
            invariant
                self.wf(),
                c == self.counts@,
                x <= i <= c.len(),
                acc + range_sum(c, 0, x as int) == range_sum(c, 0, i as int),
                range_sum(c, 0, i as int) <= u32::MAX,
                forall|j: int| 0 <= j < c.len() ==> #[trigger] c[j] >= 0,
            decreases x,
        {
            proof {
                lemma_lowbit_basic(x);
                lemma_range_split(c, 0, x - lowbit(x), x as int);
                lemma_range_nonneg(c, 0, x - lowbit(x));
            }
            acc = acc + self.tree[x] as u64;
            x = x - (x & !(x - 1));
        }
        acc
    }

    /// Adds one to the count at position `i`.
    pub fn add(&mut self, i: usize)
        requires
            old(self).wf(),
            i < old(self).counts().len(),
            range_sum(old(self).counts(), 0, old(self).counts().len() as int) < u32::MAX,
        ensures
            final(self).wf(),
            final(self).counts() == old(self).counts().update(i as int, old(self).counts()[i as int] + 1),
    {
        self.change(i, true);
    }

    /// Takes one from the count at position `i`, which is positive.
    pub fn sub(&mut self, i: usize)
        requires
            old(self).wf(),
            i < old(self).counts().len(),
            old(self).counts()[i as int] > 0,
        ensures
            final(self).wf(),
            final(self).counts() == old(self).counts().update(i as int, old(self).counts()[i as int] - 1),
    {
        self.change(i, false);
    }

    /// Adds one to (`up`) or takes one from the count at position `i`, updating every entry
    /// whose stretch holds `i`: those are `i + 1`, then each next one `x + lowbit(x)`.
    fn change(&mut self, i: usize, up: bool)
        requires
            old(self).wf(),
            i < old(self).counts().len(),
            up ==> range_sum(old(self).counts(), 0, old(self).counts().len() as int) < u32::MAX,
            !up ==> old(self).counts()[i as int] > 0,
        ensures
            final(self).wf(),
            final(self).counts() == old(self).counts().update(
                i as int,
                old(self).counts()[i as int] + if up { 1int } else { -1int },
            ),
    {
        let ghost c0 = self.counts@;
        let ghost n = c0.len() as int;
        let ghost p = i as int;
        let ghost c1 = c0.update(p, c0[p] + if up { 1int } else { -1int });
        proof {
            lemma_range_update(c0, p, c1[p], 0, n);
            assert forall|j: int| 0 <= j < n implies #[trigger] c1[j] >= 0 by {}
        }
        let len = self.tree.len();
        let mut x = i + 1;
        proof {
            lemma_lowbit_basic(x);
            assert forall|y: int| 1 <= y <= n && y < x implies #[trigger] self.tree@[y] == range_sum(c1, y - lowbit(y as usize), y) by {
                lemma_lowbit_basic(y as usize);
                lemma_range_update(c0, p, c1[p], y - lowbit(y as usize), y);
            }
        }
        while x < len
            invariant
                len == self.tree@.len() == n + 1,
                n + 1 <= usize::MAX / 2,
                c0 == old(self).counts@,
                c0.len() == n,
                self.counts@ == c0,
                c1 == c0.update(p, c0[p] + if up { 1int } else { -1int }),
                0 <= p < n,
                p < x,
                x <= n ==> x - lowbit(x) <= p,
                up ==> range_sum(c0, 0, n) < u32::MAX,
                !up ==> c0[p] > 0,
                forall|j: int| 0 <= j < n ==> #[trigger] c0[j] >= 0,
                forall|j: int| 0 <= j < n ==> #[trigger] c1[j] >= 0,
                range_sum(c1, 0, n) <= u32::MAX,
                forall|y: int| 1 <= y <= n && y >= x ==> #[trigger] self.tree@[y] == range_sum(c0, y - lowbit(y as usize), y),
                forall|y: int| 1 <= y <= n && y < x ==> #[trigger] self.tree@[y] == range_sum(c1, y - lowbit(y as usize), y),
            decreases 2 * len - x,
        {
            let ghost lx = lowbit(x);
            proof {
                lemma_lowbit_basic(x);
                lemma_range_update(c0, p, c1[p], x - lx, x as int);
                lemma_range_within(c0, x - lx, x as int);
                lemma_range_within(c1, x - lx, x as int);
                lemma_range_nonneg(c1, x - lx, x as int);
            }
            let v = self.tree[x];
            if up {
                self.tree.set(x, v + 1);
            } else {
                self.tree.set(x, v - 1);
            }
            let step = x & !(x - 1);
            proof {
                assert(step == lx);
                assert(x + step <= usize::MAX);
                lemma_lowbit_step(x);
                let x2 = (x + step) as int;
                assert forall|y: int| x < y < x2 implies !(y - #[trigger] lowbit(y as usize) <= p) by {
                    lemma_lowbit_inside(x, (y - x) as usize);
                    assert((x + (y - x) as usize) as usize == y as usize);
                }
                assert forall|y: int| 1 <= y <= n && x < y < x2 implies #[trigger] self.tree@[y] == range_sum(c1, y - lowbit(y as usize), y) by {
                    lemma_lowbit_basic(y as usize);
                    lemma_range_update(c0, p, c1[p], y - lowbit(y as usize), y);
                }
            }
            assert(step > 0);
            x = x + step;
        }
        self.counts = Ghost(c1);
        proof {
            assert forall|y: int| 1 <= y <= n implies #[trigger] self.tree@[y] == range_sum(c1, y - lowbit(y as usize), y) by {}
        }
    }
}

} // verus!
