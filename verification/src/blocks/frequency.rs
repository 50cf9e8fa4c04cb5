use vstd::prelude::*;
use crate::compress::{in_order, sort_by_key};
use crate::div_conquer::{block_end, block_of, blocks_accepted, caches, blocks_for, lemma_block_of_len, parts_accepted, DivConquer};

verus! {

/// How many times `x` occurs in `s[0..hi]`.
pub open spec fn occurrences(s: Seq<u32>, x: u32, hi: int) -> int
    decreases hi,
{
    if hi <= 0 {
        0
    } else {
        occurrences(s, x, hi - 1) + if s[hi - 1] == x {
            1int
        } else {
            0
        }
    }
}

/// What a block keeps: its distinct values in increasing order, and the running counts
/// `cum`, the count of `uniq[k]` being `cum[k + 1] - cum[k]`.
pub type Cache = (Vec<u32>, Vec<u32>);

/// The distinct values are increasing and the running counts start at `0` and increase.
pub open spec fn cache_shape(c: (Seq<u32>, Seq<u32>)) -> bool {
    &&& forall|i: int, j: int| 0 <= i < j < c.0.len() ==> c.0[i] < c.0[j]
    &&& c.1.len() == c.0.len() + 1
    &&& forall|k: int| 0 <= k < c.0.len() ==> #[trigger] c.1[k] <= c.1[k + 1]
}

/// The count that the cache gives for `x`: the step of the running counts at `x`, or `0`
/// when `x` is not among the values.
pub open spec fn cached_count(c: (Seq<u32>, Seq<u32>), x: u32) -> int {
    if exists|k: int| 0 <= k < c.0.len() && c.0[k] == x {
        let k = choose|k: int| 0 <= k < c.0.len() && c.0[k] == x;
        c.1[k + 1] - c.1[k]
    } else {
        0
    }
}

proof fn lemma_occurrences_bound(s: Seq<u32>, x: u32, hi: int)
    requires
        0 <= hi,
    ensures
        0 <= occurrences(s, x, hi) <= hi,
    decreases hi,
{
    if hi > 0 {
        lemma_occurrences_bound(s, x, hi - 1);
    }
}

proof fn lemma_cum_increasing(cm: Seq<u32>, a: int, b: int)
    requires
        0 <= a <= b < cm.len(),
        forall|k: int| 0 <= k < cm.len() - 1 ==> #[trigger] cm[k] < cm[k + 1],
    ensures
        cm[a] <= cm[b],
    decreases b - a,
{
    if a < b {
        lemma_cum_increasing(cm, a, b - 1);
        assert(cm[b - 1] < cm[b]);
    }
}

proof fn lemma_occurrences_none(s: Seq<u32>, x: u32, hi: int)
    requires
        hi <= s.len(),
        forall|j: int| 0 <= j < s.len() ==> #[trigger] s[j] != x,
    ensures
        occurrences(s, x, hi) == 0,
    decreases hi,
{
    if hi > 0 {
        lemma_occurrences_none(s, x, hi - 1);
    }
}

/// Counting occurrences agrees with the multiset of the sequence.
proof fn lemma_occurrences_multiset(s: Seq<u32>, x: u32)
    ensures
        occurrences(s, x, s.len() as int) == s.to_multiset().count(x),
    decreases s.len(),
{
    broadcast use vstd::multiset::group_multiset_axioms;

    if s.len() == 0 {
        assert(s.to_multiset() =~= vstd::multiset::Multiset::empty()) by {
            broadcast use vstd::seq_lib::group_to_multiset_ensures;
        }
    } else {
        let t = s.drop_last();
        lemma_occurrences_multiset(t, x);
        assert(s =~= t.push(s.last()));
        vstd::seq_lib::to_multiset_build(t, s.last());
        lemma_occurrences_drop_last(s, x, t.len() as int);
    }
}

proof fn lemma_occurrences_drop_last(s: Seq<u32>, x: u32, hi: int)
    requires
        0 <= hi < s.len(),
    ensures
        occurrences(s.drop_last(), x, hi) == occurrences(s, x, hi),
    decreases hi,
{
    if hi > 0 {
        lemma_occurrences_drop_last(s, x, hi - 1);
    }
}

/// In a sorted sequence, the occurrences of a value form one stretch.
proof fn lemma_occurrences_sorted(s: Seq<u32>, x: u32, lo: int, hi: int)
    requires
        in_order(s),
        0 <= lo <= hi <= s.len(),
        forall|j: int| 0 <= j < lo ==> #[trigger] s[j] < x,
        forall|j: int| lo <= j < hi ==> #[trigger] s[j] == x,
        forall|j: int| hi <= j < s.len() ==> #[trigger] s[j] > x,
    ensures
        occurrences(s, x, s.len() as int) == hi - lo,
{
    assert forall|m: int| 0 <= m <= s.len() implies #[trigger] occurrences(s, x, m) == (if m <= lo {
        0
    } else if m <= hi {
        m - lo
    } else {
        hi - lo
    }) by {
        lemma_occurrences_prefix(s, x, lo, hi, m);
    }
}

proof fn lemma_occurrences_prefix(s: Seq<u32>, x: u32, lo: int, hi: int, m: int)
    requires
        0 <= lo <= hi <= s.len(),
        0 <= m <= s.len(),
        forall|j: int| 0 <= j < lo ==> #[trigger] s[j] < x,
        forall|j: int| lo <= j < hi ==> #[trigger] s[j] == x,
        forall|j: int| hi <= j < s.len() ==> #[trigger] s[j] > x,
    ensures
        occurrences(s, x, m) == (if m <= lo {
            0
        } else if m <= hi {
            m - lo
        } else {
            hi - lo
        }),
    decreases m,
{
    if m > 0 {
        lemma_occurrences_prefix(s, x, lo, hi, m - 1);
    }
}

/// The distinct values of a sorted sequence, each with the position where its stretch
/// starts, give the count of every value.
proof fn lemma_cache_counts(block: Seq<u32>, s: Seq<u32>, u: Seq<u32>, cm: Seq<u32>, g: Seq<int>)
    requires
        s.to_multiset() == block.to_multiset(),
        in_order(s),
        cm.len() == u.len() + 1,
        cm[u.len() as int] == s.len(),
        forall|a: int, b: int| 0 <= a < b < u.len() ==> u[a] < u[b],
        forall|k: int| 0 <= k < u.len() ==> #[trigger] cm[k] < s.len() && s[cm[k] as int] == u[k],
        forall|k: int| 0 <= k < u.len() && cm[k] > 0 ==> s[cm[k] - 1] < #[trigger] u[k],
        forall|k: int| 0 <= k < u.len() - 1 ==> #[trigger] cm[k] < cm[k + 1],
        g.len() == s.len(),
        forall|j: int| 0 <= j < s.len() ==> 0 <= #[trigger] g[j] < u.len() && s[j] == u[g[j]],
        s.len() > 0 ==> u.len() > 0 && s[s.len() - 1] == u.last(),
    ensures
        cache_shape((u, cm)),
        forall|x: u32| cached_count((u, cm), x) == occurrences(block, x, block.len() as int),
{
    assert forall|k: int| 0 <= k < u.len() implies #[trigger] cm[k] <= cm[k + 1] by {
        if k < u.len() - 1 {
            assert(cm[k] < cm[k + 1]);
        }
    }
    assert forall|x: u32| cached_count((u, cm), x) == occurrences(block, x, block.len() as int) by {
        lemma_count_of(block, s, u, cm, g, x);
    }
}

proof fn lemma_count_of(block: Seq<u32>, s: Seq<u32>, u: Seq<u32>, cm: Seq<u32>, g: Seq<int>, x: u32)
    requires
        s.to_multiset() == block.to_multiset(),
        in_order(s),
        cm.len() == u.len() + 1,
        cm[u.len() as int] == s.len(),
        forall|a: int, b: int| 0 <= a < b < u.len() ==> u[a] < u[b],
        forall|k: int| 0 <= k < u.len() ==> #[trigger] cm[k] < s.len() && s[cm[k] as int] == u[k],
        forall|k: int| 0 <= k < u.len() && cm[k] > 0 ==> s[cm[k] - 1] < #[trigger] u[k],
        forall|k: int| 0 <= k < u.len() - 1 ==> #[trigger] cm[k] < cm[k + 1],
        g.len() == s.len(),
        forall|j: int| 0 <= j < s.len() ==> 0 <= #[trigger] g[j] < u.len() && s[j] == u[g[j]],
    ensures
        cached_count((u, cm), x) == occurrences(block, x, block.len() as int),
{
    lemma_occurrences_multiset(s, x);
    lemma_occurrences_multiset(block, x);
    if exists|k: int| 0 <= k < u.len() && u[k] == x {
        let k = choose|k: int| 0 <= k < u.len() && u[k] == x;
        lemma_count_present(s, u, cm, g, x, k);
        let c = (u, cm);
        let k2 = choose|k2: int| 0 <= k2 < c.0.len() && c.0[k2] == x;
        assert(0 <= k2 < c.0.len() && c.0[k2] == x);
        if k2 < k {
            assert(u[k2] < u[k]);
        } else if k2 > k {
            assert(u[k] < u[k2]);
        }
        assert(cached_count((u, cm), x) == cm[k + 1] - cm[k]);
        assert(occurrences(s, x, s.len() as int) == occurrences(block, x, block.len() as int));
    } else {
        assert forall|j: int| 0 <= j < s.len() implies #[trigger] s[j] != x by {
            assert(s[j] == u[g[j]]);
        }
        lemma_occurrences_none(s, x, s.len() as int);
    }
}

#[verifier::rlimit(40)]
proof fn lemma_count_present(s: Seq<u32>, u: Seq<u32>, cm: Seq<u32>, g: Seq<int>, x: u32, k: int)
    requires
        in_order(s),
        0 <= k < u.len(),
        u[k] == x,
        cm.len() == u.len() + 1,
        cm[u.len() as int] == s.len(),
        forall|a: int, b: int| 0 <= a < b < u.len() ==> u[a] < u[b],
        forall|k: int| 0 <= k < u.len() ==> #[trigger] cm[k] < s.len() && s[cm[k] as int] == u[k],
        forall|k: int| 0 <= k < u.len() && cm[k] > 0 ==> s[cm[k] - 1] < #[trigger] u[k],
        forall|k: int| 0 <= k < u.len() - 1 ==> #[trigger] cm[k] < cm[k + 1],
        g.len() == s.len(),
        forall|j: int| 0 <= j < s.len() ==> 0 <= #[trigger] g[j] < u.len() && s[j] == u[g[j]],
    ensures
        occurrences(s, x, s.len() as int) == cm[k + 1] - cm[k],
{
    let lo = cm[k] as int;
    let hi = cm[k + 1] as int;
    assert(lo < hi) by {
        if k < u.len() - 1 {
            assert(cm[k] < cm[k + 1]);
        }
    }
    assert forall|j: int| lo <= j < hi implies #[trigger] s[j] == x by {
        let k2 = g[j];
        assert(s[lo] <= s[j]);
        if k2 < k {
            assert(u[k2] < u[k]);
        }
        if k2 > k {
            lemma_cum_increasing(cm, k + 1, k2);
            assert(s[j] <= s[cm[k2] - 1]);
            assert(s[cm[k2] - 1] < u[k2]);
        }
    }
    assert forall|j: int| 0 <= j < lo implies #[trigger] s[j] < x by {
        assert(s[j] <= s[lo - 1]);
    }
    assert forall|j: int| hi <= j < s.len() implies #[trigger] s[j] > x by {
        assert(k + 1 < u.len());
        assert(s[hi] == u[k + 1]);
        assert(s[hi] <= s[j]);
    }
    lemma_occurrences_sorted(s, x, lo, hi);
}

/// The values kept are exactly those of the sorted copy, and so of the block.
proof fn lemma_cache_values(block: Seq<u32>, s: Seq<u32>, u: Seq<u32>, cm: Seq<u32>, g: Seq<int>)
    requires
        s.to_multiset() == block.to_multiset(),
        cm.len() == u.len() + 1,
        forall|k: int| 0 <= k < u.len() ==> #[trigger] cm[k] < s.len() && s[cm[k] as int] == u[k],
        g.len() == s.len(),
        forall|j: int| 0 <= j < s.len() ==> 0 <= #[trigger] g[j] < u.len() && s[j] == u[g[j]],
    ensures
        forall|x: u32| (exists|k: int| 0 <= k < u.len() && u[k] == x) <==> #[trigger] block.contains(x),
{
    broadcast use vstd::seq_lib::group_to_multiset_ensures;

    assert forall|x: u32| (exists|k: int| 0 <= k < u.len() && u[k] == x) <==> #[trigger] block.contains(x) by {
        if exists|k: int| 0 <= k < u.len() && u[k] == x {
            let k = choose|k: int| 0 <= k < u.len() && u[k] == x;
            assert(s[cm[k] as int] == x);
            assert(s.contains(x));
            assert(s.to_multiset().count(x) > 0);
        }
        if block.contains(x) {
            assert(block.to_multiset().count(x) > 0);
            assert(s.contains(x));
            let j = choose|j: int| 0 <= j < s.len() && s[j] == x;
            assert(u[g[j]] == x);
        }
    }
}

/// The block's distinct values in increasing order, with running counts from `0`.
#[verifier::rlimit(50)]
pub fn cacher(block: &[u32]) -> (c: Cache)
    requires
        block@.len() < u32::MAX,
    ensures
        cache_shape((c.0@, c.1@)),
        c.1@[0] == 0,
        forall|x: u32|
            (exists|k: int| 0 <= k < c.0@.len() && c.0@[k] == x) <==> #[trigger] block@.contains(x),
        forall|x: u32| #[trigger] cached_count((c.0@, c.1@), x) == occurrences(block@, x, block@.len() as int),
{
    broadcast use vstd::seq_lib::group_to_multiset_ensures;

    let sorted = sort_by_key(block);
    let ghost s = sorted@;
    let n = sorted.len();
    proof {
        assert(s.len() == block@.len()) by {
            assert(s.len() == s.to_multiset().len());
            assert(block@.len() == block@.to_multiset().len());
        }
    }
    let mut uniq: Vec<u32> = Vec::new();
    let mut cum: Vec<u32> = Vec::new();
    let mut i: usize = 0;
    let ghost mut g: Seq<int> = Seq::empty();
    while i < n
        invariant
            n == s.len() < u32::MAX,
            s == sorted@,
            in_order(s),
            i <= n,
            cum@.len() == uniq@.len(),
            forall|a: int, b: int| 0 <= a < b < uniq@.len() ==> uniq@[a] < uniq@[b],
            forall|k: int| 0 <= k < uniq@.len() ==> #[trigger] cum@[k] < i && s[cum@[k] as int] == uniq@[k],
            forall|k: int| 0 <= k < uniq@.len() && cum@[k] > 0 ==> s[cum@[k] - 1] < #[trigger] uniq@[k],
            forall|k: int| 0 <= k < uniq@.len() - 1 ==> #[trigger] cum@[k] < cum@[k + 1],
            g.len() == i,
            forall|j: int| 0 <= j < i ==> 0 <= #[trigger] g[j] < uniq@.len() && s[j] == uniq@[g[j]],
            i > 0 ==> uniq@.len() > 0 && cum@[0] == 0 && s[i - 1] == uniq@.last(),
            i == 0 ==> uniq@.len() == 0,
        decreases n - i,
    {
        let v = sorted[i];
        if uniq.len() == 0 || uniq[uniq.len() - 1] != v {
            proof {
                if i > 0 {
                    assert(s[i - 1] <= v);
                }
            }
            uniq.push(v);
            cum.push(i as u32);
        }
        proof {
            assert(uniq@.last() == v);
            g = g.push(uniq@.len() - 1);
        }
        i = i + 1;
    }
    cum.push(n as u32);
    proof {
        lemma_cache_counts(block@, s, uniq@, cum@, g);
        lemma_cache_values(block@, s, uniq@, cum@, g);
    }
    (uniq, cum)
}

/// How many times `x` occurs in a part of a block.
pub fn resolver(block: &[u32], x: &u32) -> (r: usize)
    ensures
        r == occurrences(block@, *x, block@.len() as int),
{
    let mut n: usize = 0;
    let mut i: usize = 0;
    while i < block.len()
        invariant
            i <= block@.len(),
            n == occurrences(block@, *x, i as int),
        decreases block@.len() - i,
    {
        proof {
            lemma_occurrences_bound(block@, *x, i as int);
        }
        if block[i] == *x {
            n = n + 1;
        }
        i = i + 1;
    }
    n
}

/// The count kept for `x` by a block, found by binary search among its distinct values.
pub fn cache_resolver(cache: &Cache, x: &u32) -> (r: usize)
    requires
        cache_shape((cache.0@, cache.1@)),
    ensures
        r == cached_count((cache.0@, cache.1@), *x),
{
    let uniq = &cache.0;
    let cum = &cache.1;
    let n = uniq.len();
    let ghost u = uniq@;
    let mut lo: usize = 0;
    let mut hi: usize = n;
    while lo < hi
        invariant
            hi <= n == u.len(),
            u == uniq@,
            lo <= hi,
            forall|i: int, j: int| 0 <= i < j < u.len() ==> u[i] < u[j],
            forall|j: int| 0 <= j < lo ==> #[trigger] u[j] < *x,
            forall|j: int| hi <= j < n ==> #[trigger] u[j] >= *x,
        decreases hi - lo,
    {
        let mid = lo + (hi - lo) / 2;
        if uniq[mid] < *x {
            lo = mid + 1;
        } else {
            hi = mid;
        }
    }
    let k = lo;
    if k < n && uniq[k] == *x {
        proof {
            let c = (cache.0@, cache.1@);
            let kk = choose|kk: int| 0 <= kk < c.0.len() && c.0[kk] == *x;
            if kk != k {
                if kk < k {
                    assert(u[kk] < u[k as int]);
                } else {
                    assert(u[k as int] < u[kk]);
                }
            }
            assert(cum@[k as int] <= cum@[k + 1]);
        }
        (cum[k + 1] - cum[k]) as usize
    } else {
        proof {
            assert forall|kk: int| 0 <= kk < n implies u[kk] != *x by {
                if kk >= k {
                    if k < n {
                        assert(u[k as int] <= u[kk]);
                    }
                }
            }
        }
        0
    }
}

/// The sum of two counts.
pub fn merger(a: usize, b: usize) -> (r: usize)
    requires
        a + b <= usize::MAX,
    ensures
        r == a + b,
{
    a + b
}

/// Occurrences in two sequences one after the other add up.
proof fn lemma_occurrences_concat(a: Seq<u32>, b: Seq<u32>, x: u32)
    ensures
        occurrences(a + b, x, (a + b).len() as int) == occurrences(a, x, a.len() as int) + occurrences(
            b,
            x,
            b.len() as int,
        ),
{
    broadcast use vstd::multiset::group_multiset_axioms;

    lemma_occurrences_multiset(a + b, x);
    lemma_occurrences_multiset(a, x);
    lemma_occurrences_multiset(b, x);
    vstd::seq_lib::lemma_multiset_commutative(a, b);
}

/// For each query `(l, r, x)`, how many times `x` occurs among `a[l..r]`, the blocks of `a`
/// summarised once. `None` where a range is reversed or reaches past the end of `a`.
#[verifier::rlimit(60)]
pub fn count_in_ranges(a: Vec<u32>, queries: &Vec<(usize, usize, u32)>) -> (res: Option<Vec<usize>>)
    ensures
        res is Some <==> forall|k: int|
            0 <= k < queries@.len() ==> (#[trigger] queries@[k]).0 <= queries@[k].1 <= a@.len(),
        res matches Some(v) ==> {
            &&& v@.len() == queries@.len()
            &&& forall|k: int|
                0 <= k < queries@.len() ==> {
                    let (l, r, x) = #[trigger] queries@[k];
                    v@[k] == occurrences(a@.subrange(l as int, r as int), x, r - l)
                }
        },
{
    let ghost s = a@;
    let n = a.len();
    let mut k: usize = 0;
    while k < queries.len()
        invariant
            k <= queries@.len(),
            n == s.len(),
            s == a@,
            forall|j: int| 0 <= j < k ==> (#[trigger] queries@[j]).0 <= queries@[j].1 <= n,
        decreases queries@.len() - k,
    {
        let (l, r, _) = queries[k];
        if !(l <= r && r <= n) {
            proof {
                let w = k as int;
                assert(!(queries@[w].0 <= queries@[w].1 <= a@.len()));
                assert(!(forall|j: int|
                    0 <= j < queries@.len() ==> (#[trigger] queries@[j]).0 <= queries@[j].1 <= a@.len()));
            }
            return None;
        }
        k = k + 1;
    }
    proof {
        assert forall|b: int, q: &[u32]|
            #![trigger call_requires(cacher, (q,)), block_of(s, b, 8192)]
            0 <= b && b * 8192 < s.len() && q@ == block_of(s, b, 8192) implies call_requires(cacher, (q,)) by {
            assert(block_end(b, 8192, s.len() as int) - b * 8192 <= 8192);
        }
    }
    let mut dc = DivConquer::<8192, u32, Cache, usize, u32, _, _, _, _>::new(
        a,
        cacher,
        resolver,
        cache_resolver,
        merger,
    );
    let im = dc.into_immut();
    proof {
        assert forall|b: int, y: &u32|
            0 <= b < im.caches().len() implies #[trigger] call_requires(im.cache_resolver(), (&im.caches()[b], y)) by {
            let blk = block_of(s, b, 8192);
            assert(caches(cacher, blk, im.caches()[b]));
            let q = choose|q: &[u32]| q@ == blk && call_ensures(cacher, (q,), im.caches()[b]);
            assert(call_ensures(cacher, (q,), im.caches()[b]));
        }
        assert forall|b: int, y: &u32, z: usize|
            0 <= b < im.caches().len() && #[trigger] call_ensures(im.cache_resolver(), (&im.caches()[b], y), z)
                implies z == occurrences(block_of(s, b, 8192), *y, block_of(s, b, 8192).len() as int) by {
            let blk = block_of(s, b, 8192);
            assert(caches(cacher, blk, im.caches()[b]));
            let q = choose|q: &[u32]| q@ == blk && call_ensures(cacher, (q,), im.caches()[b]);
            assert(call_ensures(cacher, (q,), im.caches()[b]));
            assert(cached_count((im.caches()[b].0@, im.caches()[b].1@), *y) == occurrences(q@, *y, q@.len() as int));
        }
    }
    let mut out: Vec<usize> = Vec::new();
    let mut k: usize = 0;
    while k < queries.len()
        invariant
            k <= queries@.len(),
            n == s.len(),
            im.wf(),
            im.elements() == s,
            im.caches().len() == blocks_for(s.len(), 8192),
            forall|q: &[u32], y: &u32| #[trigger] call_requires(im.resolver(), (q, y)),
            forall|q: &[u32], y: &u32, z: usize|
                #[trigger] call_ensures(im.resolver(), (q, y), z) ==> z == occurrences(q@, *y, q@.len() as int),
            forall|b: int, y: &u32|
                0 <= b < im.caches().len() ==> #[trigger] call_requires(im.cache_resolver(), (&im.caches()[b], y)),
            forall|b: int, y: &u32, z: usize|
                0 <= b < im.caches().len() && #[trigger] call_ensures(im.cache_resolver(), (&im.caches()[b], y), z)
                    ==> z == occurrences(block_of(s, b, 8192), *y, block_of(s, b, 8192).len() as int),
            forall|x: usize, y: usize| x + y <= usize::MAX ==> #[trigger] call_requires(im.merger(), (x, y)),
            forall|x: usize, y: usize, z: usize| #[trigger] call_ensures(im.merger(), (x, y), z) ==> z == x + y,
            forall|j: int| 0 <= j < queries@.len() ==> (#[trigger] queries@[j]).0 <= queries@[j].1 <= n,
            out@.len() == k,
            forall|j: int|
                0 <= j < k ==> {
                    let (l, r, x) = #[trigger] queries@[j];
                    out@[j] == occurrences(s.subrange(l as int, r as int), x, r - l)
                },
        decreases queries@.len() - k,
    {
        let (l, r, x) = queries[k];
        let ghost f = |t: Seq<u32>, y: u32| occurrences(t, y, t.len() as int) as usize;
        let ghost g = |y: usize, z: usize| (y + z) as usize;
        let ghost bound = |y: usize, m: int| y <= m;
        proof {
            assert(parts_accepted(im.resolver(), s, 8192, &x));
            assert(im.caches_accepted(&x));
            assert forall|lo: int, hi: int, y: usize|
                0 <= lo <= hi <= s.len() && hi - lo <= 8192 && #[trigger] im.answers_part(lo, hi, &x, y)
                    implies bound(y, hi - lo) by {
                let q = choose|q: &[u32]| q@ == s.subrange(lo, hi) && call_ensures(im.resolver(), (q, &x), y);
                lemma_occurrences_bound(q@, x, q@.len() as int);
            }
            assert forall|b: int, y: usize|
                0 <= b < im.caches().len() && #[trigger] call_ensures(im.cache_resolver(), (&im.caches()[b], &x), y)
                    implies bound(y, 8192) by {
                let blk = block_of(s, b, 8192);
                lemma_block_of_len(s, b, 8192);
                lemma_occurrences_bound(blk, x, blk.len() as int);
            }
            assert(im.merges_within(&x, bound));
        }
        let c = im.resolve(l..r, &x);
        proof {
            assert forall|t: &[u32], y: usize| #[trigger] call_ensures(im.resolver(), (t, &x), y) implies y == f(t@, x) by {
                lemma_occurrences_bound(t@, x, t@.len() as int);
            }
            assert forall|b: int, y: usize|
                0 <= b < im.caches().len() && #[trigger] call_ensures(im.cache_resolver(), (&im.caches()[b], &x), y)
                    implies y == f(block_of(s, b, 8192), x) by {
                let blk = block_of(s, b, 8192);
                lemma_occurrences_bound(blk, x, blk.len() as int);
            }
            assert forall|t1: Seq<u32>, t2: Seq<u32>|
                t1.len() + t2.len() <= s.len() implies #[trigger] g(f(t1, x), f(t2, x)) == f(t1 + t2, x) by {
                lemma_occurrences_concat(t1, t2, x);
                lemma_occurrences_bound(t1, x, t1.len() as int);
                lemma_occurrences_bound(t2, x, t2.len() as int);
            }
            assert forall|lo: int, mid: int, hi: int|
                #![trigger f(s.subrange(lo, mid), x), f(s.subrange(mid, hi), x)]
                0 <= lo <= mid <= hi <= s.len() implies g(f(s.subrange(lo, mid), x), f(s.subrange(mid, hi), x)) == f(
                    s.subrange(lo, hi),
                    x,
                ) by {
                assert(s.subrange(lo, mid) + s.subrange(mid, hi) =~= s.subrange(lo, hi));
                assert(g(f(s.subrange(lo, mid), x), f(s.subrange(mid, hi), x)) == f(s.subrange(lo, mid) + s.subrange(mid, hi), x));
            }
            assert forall|lo: int, hi: int|
                0 <= lo <= hi <= s.len() implies #[trigger] g(0usize, f(s.subrange(lo, hi), x)) == f(s.subrange(lo, hi), x) by {
                assert(s.subrange(lo, lo) + s.subrange(lo, hi) =~= s.subrange(lo, hi));
                assert(g(f(s.subrange(lo, lo), x), f(s.subrange(lo, hi), x)) == f(s.subrange(lo, lo) + s.subrange(lo, hi), x));
                assert(s.subrange(lo, lo) =~= Seq::<u32>::empty());
            }
            im.lemma_resolve_matches(l as int, r as int, &x, c, f, g, 0usize, |y: usize| y);
            lemma_occurrences_bound(s.subrange(l as int, r as int), x, r - l);
        }
        out.push(c);
        k = k + 1;
    }
    Some(out)
}

} // verus!
