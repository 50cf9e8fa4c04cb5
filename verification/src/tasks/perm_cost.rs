use vstd::prelude::*;
use crate::permutation::{last_turn, lemma_stepped_keeps_prefix, lemma_stepped_len, next_permutation, stepped, turns};
use crate::ranges::{lemma_order, lt};

verus! {

/// `|a[0] - b[0]| + ... + |a[n - 1] - b[n - 1]|` over the first `n` positions.
pub open spec fn dist_spec(a: Seq<u64>, b: Seq<u64>, n: int) -> int
    decreases n,
{
    if n <= 0 {
        0
    } else {
        dist_spec(a, b, n - 1) + if a[n - 1] < b[n - 1] {
            b[n - 1] - a[n - 1]
        } else {
            a[n - 1] - b[n - 1]
        }
    }
}

/// The summed distance between `a` and `b`, position by position, over the shorter of the two.
pub fn dist(a: &[u64], b: &[u64]) -> (r: u64)
    requires
        dist_spec(a@, b@, if a@.len() < b@.len() { a@.len() as int } else { b@.len() as int }) <= u64::MAX,
    ensures
        r == dist_spec(a@, b@, if a@.len() < b@.len() { a@.len() as int } else { b@.len() as int }),
{
    let n = if a.len() < b.len() {
        a.len()
    } else {
        b.len()
    };
    let mut acc: u64 = 0;
    let mut i: usize = 0;
    while i < n
        invariant
            i <= n,
            n <= a@.len(),
            n <= b@.len(),
            dist_spec(a@, b@, n as int) <= u64::MAX,
            acc == dist_spec(a@, b@, i as int),
        decreases n - i,
    {
        proof {
            lemma_dist_monotone(a@, b@, (i + 1) as int, n as int);
        }
        let d = if a[i] < b[i] {
            b[i] - a[i]
        } else {
            a[i] - b[i]
        };
        acc = acc + d;
        i = i + 1;
    }
    acc
}

proof fn lemma_dist_monotone(a: Seq<u64>, b: Seq<u64>, i: int, n: int)
    requires
        0 <= i <= n,
    ensures
        dist_spec(a, b, i) <= dist_spec(a, b, n),
    decreases n - i,
{
    if i < n {
        lemma_dist_monotone(a, b, i, n - 1);
    }
}


/// The summed distance over the positions from `lo` on, both sequences being `n` long.
fn dist_from(a: &Vec<u64>, b: &[u64], lo: usize) -> (r: u64)
    requires
        a@.len() == b@.len(),
        lo <= a@.len(),
        dist_spec(a@, b@, a@.len() as int) <= u64::MAX,
    ensures
        r == dist_spec(a@, b@, a@.len() as int) - dist_spec(a@, b@, lo as int),
{
    let n = a.len();
    let mut acc: u64 = 0;
    let mut i: usize = lo;
    proof {
        lemma_dist_monotone(a@, b@, lo as int, n as int);
        lemma_dist_nonneg(a@, b@, lo as int);
    }
    while i < n
        invariant
            lo <= i <= n,
            n == a@.len(),
            n == b@.len(),
            dist_spec(a@, b@, n as int) <= u64::MAX,
            dist_spec(a@, b@, lo as int) <= dist_spec(a@, b@, i as int),
            dist_spec(a@, b@, lo as int) >= 0,
            acc == dist_spec(a@, b@, i as int) - dist_spec(a@, b@, lo as int),
        decreases n - i,
    {
        proof {
            lemma_dist_monotone(a@, b@, (i + 1) as int, n as int);
        }
        let d = if a[i] < b[i] {
            b[i] - a[i]
        } else {
            a[i] - b[i]
        };
        acc = acc + d;
        i = i + 1;
    }
    acc
}

/// The last position `w` with `a[w] < a[w + 1]`, or `0` when there is none: where the next
/// permutation starts to differ.
fn last_ascent(a: &Vec<u64>) -> (r: usize)
    ensures
        r <= a@.len(),
        r == if last_turn(a@, true, a@.len() - 1) >= 0 {
            last_turn(a@, true, a@.len() - 1)
        } else {
            0
        },
{
    proof {
        lemma_order::<u64>();
    }
    if a.len() < 2 {
        return 0;
    }
    let mut w = a.len() - 1;
    while w > 0
        invariant
            w < a@.len(),
            order_is_numeric(),
            last_turn(a@, true, a@.len() - 1) == last_turn(a@, true, w as int),
        decreases w,
    {
        if a[w - 1] < a[w] {
            return w - 1;
        }
        w = w - 1;
    }
    0
}

spec fn order_is_numeric() -> bool {
    forall|x: u64, y: u64| #[trigger] lt(x, y) <==> x < y
}

/// Reverses `a`.
fn reverse_in_place(a: &mut Vec<u64>)
    ensures
        final(a)@ == old(a)@.reverse(),
{
    let n = a.len();
    let mut i: usize = 0;
    while i < n / 2
        invariant
            n == a@.len(),
            n == old(a)@.len(),
            i <= n / 2,
            forall|m: int| 0 <= m < i ==> #[trigger] a@[m] == old(a)@[n - 1 - m],
            forall|m: int| n - i <= m < n ==> #[trigger] a@[m] == old(a)@[n - 1 - m],
            forall|m: int| i <= m < n - i ==> #[trigger] a@[m] == old(a)@[m],
        decreases n / 2 - i,
    {
        let x = a[i];
        let y = a[n - 1 - i];
        a.set(i, y);
        a.set(n - 1 - i, x);
        i = i + 1;
    }
    assert(a@ =~= old(a)@.reverse());
}

/// One step along the cycle of arrangements: the next permutation in lexicographic order, or
/// back to the first one (the reverse of the last) after the last.
pub open spec fn cycle_step(s: Seq<u64>) -> Seq<u64> {
    if exists|k: int| 0 <= k < s.len() - 1 && #[trigger] lt(s[k], s[k + 1]) {
        stepped(s, true)
    } else {
        s.reverse()
    }
}

/// The arrangement `t` steps along the cycle from `p`.
pub open spec fn arrangement(p: Seq<u64>, t: nat) -> Seq<u64>
    decreases t,
{
    if t == 0 {
        p
    } else {
        cycle_step(arrangement(p, (t - 1) as nat))
    }
}

/// The distances to `b` of the first `k` arrangements from `p`, summed.
pub open spec fn cost_sum(p: Seq<u64>, b: Seq<u64>, k: nat) -> int
    decreases k,
{
    if k == 0 {
        0
    } else {
        cost_sum(p, b, (k - 1) as nat) + dist_spec(arrangement(p, (k - 1) as nat), b, b.len() as int)
    }
}

proof fn lemma_cost_sum_bound(p: Seq<u64>, b: Seq<u64>, t: nat, k: nat)
    requires
        t <= k,
    ensures
        cost_sum(p, b, t) <= cost_sum(p, b, k),
        t < k ==> dist_spec(arrangement(p, t), b, b.len() as int) <= cost_sum(p, b, k),
    decreases k - t,
{
    lemma_dist_nonneg(arrangement(p, t), b, b.len() as int);
    if t < k {
        lemma_cost_sum_bound(p, b, t, (k - 1) as nat);
        lemma_dist_nonneg(arrangement(p, (k - 1) as nat), b, b.len() as int);
        lemma_cost_sum_nonneg(p, b, t);
    }
}

proof fn lemma_cost_sum_nonneg(p: Seq<u64>, b: Seq<u64>, k: nat)
    ensures
        cost_sum(p, b, k) >= 0,
    decreases k,
{
    if k > 0 {
        lemma_cost_sum_nonneg(p, b, (k - 1) as nat);
        lemma_dist_nonneg(arrangement(p, (k - 1) as nat), b, b.len() as int);
    }
}

proof fn lemma_dist_nonneg(a: Seq<u64>, b: Seq<u64>, n: int)
    ensures
        dist_spec(a, b, n) >= 0,
    decreases n,
{
    if n > 0 {
        lemma_dist_nonneg(a, b, n - 1);
    }
}

/// Sequences that agree on the first `m` positions have the same distance there.
proof fn lemma_dist_same_prefix(a: Seq<u64>, c: Seq<u64>, b: Seq<u64>, m: int)
    requires
        0 <= m <= a.len(),
        m <= c.len(),
        forall|i: int| 0 <= i < m ==> #[trigger] a[i] == c[i],
    ensures
        dist_spec(a, b, m) == dist_spec(c, b, m),
    decreases m,
{
    if m > 0 {
        lemma_dist_same_prefix(a, c, b, m - 1);
    }
}

/// Walks `k` steps along the cycle of arrangements from `p` (the next permutation each time,
/// the first one again after the last) and sums the distances to `b` of the arrangements
/// met before each step. Only the part that a step rearranges is measured again.
pub fn cyclic_cost(p: Vec<u64>, b: &[u64], k: usize) -> (r: u64)
    requires
        p@.len() == b@.len(),
        cost_sum(p@, b@, k as nat) <= u64::MAX,
        dist_spec(arrangement(p@, k as nat), b@, b@.len() as int) <= u64::MAX,
    ensures
        r == cost_sum(p@, b@, k as nat),
{
    let ghost p0 = p@;
    let n = p.len();
    let mut a = p;
    proof {
        lemma_cost_sum_bound(p0, b@, 0, k as nat);
        if k == 0 {
            assert(arrangement(p0, 0) == p0);
        }
        lemma_order::<u64>();
    }
    let mut cur = dist(a.as_slice(), b);
    let mut ans: u64 = 0;
    for t in 0..k
        invariant
            n == a@.len(),
            n == b@.len(),
            a@ == arrangement(p0, t as nat),
            cur == dist_spec(a@, b@, n as int),
            ans == cost_sum(p0, b@, t as nat),
            cost_sum(p0, b@, k as nat) <= u64::MAX,
            dist_spec(arrangement(p0, k as nat), b@, n as int) <= u64::MAX,
            forall|x: u64, y: u64| #[trigger] lt(x, y) <==> x < y,
    {
        proof {
            lemma_cost_sum_bound(p0, b@, (t + 1) as nat, k as nat);
        }
        ans = ans + cur;
        let start = last_ascent(&a);
        let ghost before = a@;
        proof {
            lemma_dist_nonneg(before, b@, start as int);
        }
        let part = dist_from(&a, b, start);
        cur = cur - part;
        if !next_permutation(a.as_mut_slice()) {
            reverse_in_place(&mut a);
        }
        proof {
            if last_turn(before, true, n - 1) >= 0 {
                lemma_stepped_keeps_prefix(before, true);
                let i = last_turn(before, true, n - 1);
                assert(turns(true, before[i], before[i + 1]));
                assert(lt(before[i], before[i + 1]));
            } else if exists|q: int| 0 <= q < before.len() - 1 && #[trigger] lt(before[q], before[q + 1]) {
                let q = choose|q: int| 0 <= q < before.len() - 1 && #[trigger] lt(before[q], before[q + 1]);
                assert(turns(true, before[q], before[q + 1]));
                lemma_stepped_len(before, true);
            }
            assert(a@ == cycle_step(before));
            assert(a@ == arrangement(p0, (t + 1) as nat));
            lemma_dist_same_prefix(before, a@, b@, start as int);
            if t + 1 < k {
                lemma_cost_sum_bound(p0, b@, (t + 1) as nat, k as nat);
            }
        }
        let part2 = dist_from(&a, b, start);
        cur = cur + part2;
    }
    ans
}

} // verus!
