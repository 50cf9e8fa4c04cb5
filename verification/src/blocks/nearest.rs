use vstd::prelude::*;
use crate::compress::{in_order, sort_by_key};
use crate::div_conquer::{block_of, blocks_for, caches, lemma_block_of_len, parts_accepted, DivConquer};

verus! {

/// The distance from `x` to the nearest of some coordinates; `i32::MAX` when there are none,
/// which makes it the unit of taking the nearer of two.
#[derive(Clone, Copy)]
pub struct Dist(pub i32);

impl Default for Dist {
    fn default() -> (d: Self)
        ensures
            d.0 == i32::MAX,
    {
        Dist(i32::MAX)
    }
}

/// `|v - x|`.
pub open spec fn gap(v: i32, x: i32) -> int {
    if v < x {
        x - v
    } else {
        v - x
    }
}

/// `d` is the distance from `x` to the nearest element of `s`, or `i32::MAX` for an empty `s`.
pub open spec fn nearest(s: Seq<i32>, x: i32, d: int) -> bool {
    &&& forall|j: int| 0 <= j < s.len() ==> d <= gap(#[trigger] s[j], x)
    &&& s.len() > 0 ==> exists|j: int| 0 <= j < s.len() && d == gap(#[trigger] s[j], x)
    &&& s.len() == 0 ==> d == i32::MAX
}

/// Every coordinate is non-negative, so that every distance fits in an `i32`.
pub open spec fn non_negative(s: Seq<i32>) -> bool {
    forall|j: int| 0 <= j < s.len() ==> 0 <= #[trigger] s[j]
}

/// What a block keeps: its coordinates in increasing order.
pub type Cache = Vec<i32>;

/// The block's coordinates, sorted.
pub fn cacher(block: &[i32]) -> (c: Cache)
    ensures
        in_order(c@),
        c@.to_multiset() == block@.to_multiset(),
{
    sort_by_key(block)
}

/// The distance from `x` to the nearest coordinate of a part of a block.
pub fn resolver(block: &[i32], x: &i32) -> (d: Dist)
    requires
        non_negative(block@),
        0 <= *x,
    ensures
        nearest(block@, *x, d.0 as int),
{
    let mut best: i32 = i32::MAX;
    let mut i: usize = 0;
    let ghost mut at: int = -1;
    while i < block.len()
        invariant
            i <= block@.len(),
            non_negative(block@),
            0 <= *x,
            forall|j: int| 0 <= j < i ==> best <= gap(#[trigger] block@[j], *x),
            i > 0 ==> 0 <= at < i && best == gap(block@[at], *x),
            i == 0 ==> best == i32::MAX,
        decreases block@.len() - i,
    {
        let v = block[i];
        let d = if v < *x {
            *x - v
        } else {
            v - *x
        };
        if i == 0 || d < best {
            best = d;
            proof {
                at = i as int;
            }
        }
        i = i + 1;
    }
    Dist(best)
}

/// The distance from `x` to the nearest coordinate of a whole block: the nearest is the
/// largest coordinate below `x` or the smallest one from `x` up, found by binary search.
pub fn cache_resolver(sorted: &Cache, x: &i32) -> (d: Dist)
    requires
        in_order(sorted@),
        non_negative(sorted@),
        0 <= *x,
    ensures
        nearest(sorted@, *x, d.0 as int),
{
    let n = sorted.len();
    let ghost s = sorted@;
    let mut lo: usize = 0;
    let mut hi: usize = n;
    while lo < hi
        invariant
            hi <= n == s.len(),
            s == sorted@,
            lo <= hi,
            in_order(s),
            forall|j: int| 0 <= j < lo ==> #[trigger] s[j] < *x,
            forall|j: int| hi <= j < n ==> #[trigger] s[j] >= *x,
        decreases hi - lo,
    {
        let mid = lo + (hi - lo) / 2;
        if sorted[mid] < *x {
            lo = mid + 1;
        } else {
            hi = mid;
        }
    }
    let k = lo;
    let left = if k > 0 {
        *x - sorted[k - 1]
    } else {
        i32::MAX
    };
    let right = if k < n {
        sorted[k] - *x
    } else {
        i32::MAX
    };
    proof {
        assert forall|j: int| 0 <= j < n implies (if left < right { left } else { right }) <= gap(#[trigger] s[j], *x) by {
            if j < k {
                assert(s[j] <= s[k - 1]);
            } else {
                assert(s[k as int] <= s[j]);
            }
        }
        if n > 0 {
            if left < right {
                assert(k > 0 && left == gap(s[k - 1], *x));
            } else if k < n {
                assert(right == gap(s[k as int], *x));
            } else {
                assert(left == gap(s[k - 1], *x));
            }
        }
    }
    Dist(if left < right {
        left
    } else {
        right
    })
}

/// The nearer of two answers.
pub fn merger(a: Dist, b: Dist) -> (r: Dist)
    ensures
        r.0 == if a.0 < b.0 { a.0 } else { b.0 },
{
    Dist(if a.0 < b.0 {
        a.0
    } else {
        b.0
    })
}

/// The distance from `x` to the nearest element of `s`, at most `i32::MAX` (which it is for
/// an empty `s`).
pub open spec fn min_gap(s: Seq<i32>, x: i32) -> int
    decreases s.len(),
{
    if s.len() == 0 {
        i32::MAX as int
    } else {
        let m = min_gap(s.drop_last(), x);
        let g = gap(s.last(), x);
        if g < m {
            g
        } else {
            m
        }
    }
}

proof fn lemma_min_gap_facts(s: Seq<i32>, x: i32)
    ensures
        min_gap(s, x) <= i32::MAX,
        forall|j: int| 0 <= j < s.len() ==> min_gap(s, x) <= gap(#[trigger] s[j], x),
        min_gap(s, x) == i32::MAX || exists|j: int| 0 <= j < s.len() && min_gap(s, x) == gap(#[trigger] s[j], x),
    decreases s.len(),
{
    if s.len() > 0 {
        let t = s.drop_last();
        lemma_min_gap_facts(t, x);
        assert forall|j: int| 0 <= j < s.len() implies min_gap(s, x) <= gap(#[trigger] s[j], x) by {
            if j < t.len() {
                assert(s[j] == t[j]);
            }
        }
        if min_gap(s, x) != i32::MAX {
            if gap(s.last(), x) < min_gap(t, x) {
                assert(min_gap(s, x) == gap(s[s.len() - 1], x));
            } else {
                let j = choose|j: int| 0 <= j < t.len() && min_gap(t, x) == gap(#[trigger] t[j], x);
                assert(s[j] == t[j]);
            }
        }
    }
}

/// The distance that `nearest` describes is the least distance.
proof fn lemma_nearest_is_min_gap(s: Seq<i32>, x: i32, d: int)
    requires
        nearest(s, x, d),
        d <= i32::MAX,
    ensures
        d == min_gap(s, x),
{
    lemma_min_gap_facts(s, x);
    if s.len() > 0 {
        let j = choose|j: int| 0 <= j < s.len() && d == gap(#[trigger] s[j], x);
        assert(min_gap(s, x) <= gap(s[j], x));
        if min_gap(s, x) != i32::MAX {
            let k = choose|k: int| 0 <= k < s.len() && min_gap(s, x) == gap(#[trigger] s[k], x);
            assert(d <= gap(s[k], x));
        }
    }
}

/// The least distance to two sequences one after the other is the lesser of the two.
proof fn lemma_min_gap_concat(a: Seq<i32>, b: Seq<i32>, x: i32)
    ensures
        min_gap(a + b, x) == if min_gap(a, x) < min_gap(b, x) { min_gap(a, x) } else { min_gap(b, x) },
    decreases b.len(),
{
    if b.len() == 0 {
        assert(a + b =~= a);
        lemma_min_gap_facts(a, x);
    } else {
        lemma_min_gap_concat(a, b.drop_last(), x);
        assert((a + b).drop_last() =~= a + b.drop_last());
        assert((a + b).last() == b.last());
    }
}

/// A sorted copy of a sequence holds the same coordinates, so the same nearest distance.
proof fn lemma_nearest_same_elements(c: Seq<i32>, s: Seq<i32>, x: i32, d: int)
    requires
        c.to_multiset() == s.to_multiset(),
        nearest(c, x, d),
    ensures
        nearest(s, x, d),
{
    broadcast use vstd::seq_lib::group_to_multiset_ensures;

    assert(c.len() == s.len()) by {
        assert(c.len() == c.to_multiset().len());
        assert(s.len() == s.to_multiset().len());
    }
    assert forall|j: int| 0 <= j < s.len() implies d <= gap(#[trigger] s[j], x) by {
        assert(s.contains(s[j]));
        assert(c.to_multiset().count(s[j]) > 0);
        assert(c.contains(s[j]));
        let i = choose|i: int| 0 <= i < c.len() && c[i] == s[j];
        assert(d <= gap(c[i], x));
    }
    if s.len() > 0 {
        let i = choose|i: int| 0 <= i < c.len() && d == gap(#[trigger] c[i], x);
        assert(c.contains(c[i]));
        assert(s.to_multiset().count(c[i]) > 0);
        assert(s.contains(c[i]));
        let j = choose|j: int| 0 <= j < s.len() && s[j] == c[i];
        assert(d == gap(s[j], x));
    }
}

/// For each query `(l, r, x)`, the distance from `x` to the nearest of the coordinates
/// `xs[l..r]` (`i32::MAX` for an empty range), the blocks of `xs` sorted once. `None` where a
/// coordinate or a query's `x` is negative, or a range is reversed or reaches past the end.
#[verifier::rlimit(60)]
pub fn nearest_in_ranges(xs: Vec<i32>, queries: &Vec<(usize, usize, i32)>) -> (res: Option<Vec<i32>>)
    ensures
        res is Some <==> non_negative(xs@) && forall|k: int|
            0 <= k < queries@.len() ==> (#[trigger] queries@[k]).0 <= queries@[k].1 <= xs@.len() && 0
                <= queries@[k].2,
        res matches Some(v) ==> {
            &&& v@.len() == queries@.len()
            &&& forall|k: int|
                0 <= k < queries@.len() ==> {
                    let (l, r, x) = #[trigger] queries@[k];
                    v@[k] == min_gap(xs@.subrange(l as int, r as int), x)
                }
        },
{
    let ghost s = xs@;
    let n = xs.len();
    let mut i: usize = 0;
    while i < n
        invariant
            i <= n == s.len(),
            s == xs@,
            forall|j: int| 0 <= j < i ==> 0 <= #[trigger] s[j],
        decreases n - i,
    {
        if xs[i] < 0 {
            return None;
        }
        i = i + 1;
    }
    let mut k: usize = 0;
    while k < queries.len()
        invariant
            k <= queries@.len(),
            n == s.len(),
            s == xs@,
            non_negative(s),
            forall|j: int| 0 <= j < k ==> (#[trigger] queries@[j]).0 <= queries@[j].1 <= n && 0 <= queries@[j].2,
        decreases queries@.len() - k,
    {
        let (l, r, x) = queries[k];
        if !(l <= r && r <= n && 0 <= x) {
            proof {
                let w = k as int;
                assert(!(queries@[w].0 <= queries@[w].1 <= xs@.len() && 0 <= queries@[w].2));
            }
            return None;
        }
        k = k + 1;
    }
    proof {
        assert forall|b: int, q: &[i32]|
            #![trigger call_requires(cacher, (q,)), block_of(s, b, 4096)]
            0 <= b && b * 64 < s.len() && q@ == block_of(s, b, 4096) implies call_requires(cacher, (q,)) by {}
    }
    let mut dc = DivConquer::<4096, i32, Cache, Dist, i32, _, _, _, _>::new(
        xs,
        cacher,
        resolver,
        cache_resolver,
        merger,
    );
    let im = dc.into_immut();
    proof {
        assert forall|b: int| 0 <= b < im.caches().len() implies in_order((#[trigger] im.caches()[b])@) && non_negative(
            im.caches()[b]@,
        ) && im.caches()[b]@.to_multiset() == block_of(s, b, 4096).to_multiset() by {
            broadcast use vstd::seq_lib::group_to_multiset_ensures;

            let blk = block_of(s, b, 4096);
            lemma_block_of_len(s, b, 4096);
            assert(caches(cacher, blk, im.caches()[b]));
            let q = choose|q: &[i32]| q@ == blk && call_ensures(cacher, (q,), im.caches()[b]);
            assert(call_ensures(cacher, (q,), im.caches()[b]));
            let c = im.caches()[b]@;
            assert forall|j: int| 0 <= j < c.len() implies 0 <= #[trigger] c[j] by {
                assert(c.contains(c[j]));
                assert(blk.to_multiset().count(c[j]) > 0);
                assert(blk.contains(c[j]));
            }
        }
    }
    proof {
        assert forall|b: int, y: &i32, z: Dist|
            0 <= b < im.caches().len() && #[trigger] call_ensures(im.cache_resolver(), (&im.caches()[b], y), z)
                implies nearest(block_of(s, b, 4096), *y, z.0 as int) by {
            assert(im.caches()[b]@.to_multiset() == block_of(s, b, 4096).to_multiset());
            assert(nearest(im.caches()[b]@, *y, z.0 as int));
            lemma_nearest_same_elements(im.caches()[b]@, block_of(s, b, 4096), *y, z.0 as int);
        }
    }
    let mut out: Vec<i32> = Vec::new();
    let mut k: usize = 0;
    while k < queries.len()
        invariant
            k <= queries@.len(),
            n == s.len(),
            non_negative(s),
            im.wf(),
            im.elements() == s,
            im.caches().len() == blocks_for(s.len(), 4096),
            forall|q: &[i32], y: &i32| non_negative(q@) && 0 <= *y ==> #[trigger] call_requires(im.resolver(), (q, y)),
            forall|q: &[i32], y: &i32, z: Dist|
                #[trigger] call_ensures(im.resolver(), (q, y), z) ==> nearest(q@, *y, z.0 as int),
            forall|b: int, y: &i32|
                0 <= b < im.caches().len() && 0 <= *y ==> #[trigger] call_requires(im.cache_resolver(), (&im.caches()[b], y)),
            forall|b: int, y: &i32, z: Dist|
                0 <= b < im.caches().len() && #[trigger] call_ensures(im.cache_resolver(), (&im.caches()[b], y), z)
                    ==> nearest(block_of(s, b, 4096), *y, z.0 as int),
            forall|a: Dist, c: Dist| #[trigger] call_requires(im.merger(), (a, c)),
            forall|a: Dist, c: Dist, z: Dist|
                #[trigger] call_ensures(im.merger(), (a, c), z) ==> z.0 == if a.0 < c.0 { a.0 } else { c.0 },
            forall|j: int| 0 <= j < queries@.len() ==> (#[trigger] queries@[j]).0 <= queries@[j].1 <= n && 0 <= queries@[j].2,
            out@.len() == k,
            forall|j: int|
                0 <= j < k ==> {
                    let (l, r, x) = #[trigger] queries@[j];
                    out@[j] == min_gap(s.subrange(l as int, r as int), x)
                },
        decreases queries@.len() - k,
    {
        let (l, r, x) = queries[k];
        let ghost f = |t: Seq<i32>, y: i32| Dist(min_gap(t, y) as i32);
        let ghost g = |a: Dist, c: Dist| Dist(if a.0 < c.0 { a.0 } else { c.0 });
        let ghost bound = |a: Dist, m: int| true;
        proof {
            assert forall|lo: int, hi: int, q: &[i32]|
                #![trigger call_requires(im.resolver(), (q, &x)), s.subrange(lo, hi)]
                0 <= lo <= hi <= s.len() && hi - lo <= 4096 && q@ == s.subrange(lo, hi) implies call_requires(
                im.resolver(),
                (q, &x),
            ) by {
                assert(non_negative(q@));
            }
            assert(parts_accepted(im.resolver(), s, 4096, &x));
            assert(im.caches_accepted(&x));
            assert(im.merges_within(&x, bound));
        }
        let c = im.resolve(l..r, &x);
        proof {
            assert forall|t: &[i32], y: Dist| #[trigger] call_ensures(im.resolver(), (t, &x), y) implies y == f(t@, x) by {
                lemma_nearest_is_min_gap(t@, x, y.0 as int);
            }
            assert forall|b: int, y: Dist|
                0 <= b < im.caches().len() && #[trigger] call_ensures(im.cache_resolver(), (&im.caches()[b], &x), y)
                    implies y == f(block_of(s, b, 4096), x) by {
                lemma_nearest_is_min_gap(block_of(s, b, 4096), x, y.0 as int);
            }
            assert forall|t1: Seq<i32>, t2: Seq<i32>|
                t1.len() + t2.len() <= s.len() implies #[trigger] g(f(t1, x), f(t2, x)) == f(t1 + t2, x) by {
                lemma_min_gap_concat(t1, t2, x);
                lemma_min_gap_facts(t1, x);
                lemma_min_gap_facts(t2, x);
                lemma_min_gap_facts(t1 + t2, x);
            }
            assert forall|a: Dist| #[trigger] g(Dist(i32::MAX), a) == a by {}
            assert forall|lo: int, mid: int, hi: int|
                #![trigger f(s.subrange(lo, mid), x), f(s.subrange(mid, hi), x)]
                0 <= lo <= mid <= hi <= s.len() implies g(f(s.subrange(lo, mid), x), f(s.subrange(mid, hi), x)) == f(
                    s.subrange(lo, hi),
                    x,
                ) by {
                assert(s.subrange(lo, mid) + s.subrange(mid, hi) =~= s.subrange(lo, hi));
                assert(g(f(s.subrange(lo, mid), x), f(s.subrange(mid, hi), x)) == f(s.subrange(lo, mid) + s.subrange(mid, hi), x));
            }
            assert forall|lo: int, hi: int|
                0 <= lo <= hi <= s.len() implies #[trigger] g(Dist(i32::MAX), f(s.subrange(lo, hi), x)) == f(s.subrange(lo, hi), x) by {
                assert(s.subrange(lo, lo) + s.subrange(lo, hi) =~= s.subrange(lo, hi));
                assert(g(f(s.subrange(lo, lo), x), f(s.subrange(lo, hi), x)) == f(s.subrange(lo, lo) + s.subrange(lo, hi), x));
                assert(s.subrange(lo, lo) =~= Seq::<i32>::empty());
            }
            im.lemma_resolve_matches(l as int, r as int, &x, c, f, g, Dist(i32::MAX), |y: Dist| y);
            lemma_min_gap_facts(s.subrange(l as int, r as int), x);
        }
        out.push(c.0);
        k = k + 1;
    }
    Some(out)
}

} // verus!
