use vstd::prelude::*;
use vstd::laws_cmp::obeys_cmp;
use vstd::laws_cmp::obeys_cmp_ord;
use vstd::laws_cmp::obeys_cmp_partial_ord;
use vstd::laws_cmp::obeys_partial_cmp_spec_properties;
use vstd::laws_eq::obeys_eq_spec_properties;
use vstd::std_specs::cmp::OrdSpec;
use vstd::std_specs::cmp::PartialEqSpec;
use vstd::std_specs::cmp::PartialOrdSpec;
use vstd::std_specs::iter::IteratorSpec;
use std::cmp::Ordering;

verus! {

/// `a` comes strictly before `b` in the order of `T`.
pub open spec fn lt<T: Ord>(a: T, b: T) -> bool {
    a.cmp_spec(&b) == Ordering::Less
}

/// `Ord` on `T` is a lawful total order, as its documentation demands of every implementation.
pub open spec fn lawful_order<T: Ord>() -> bool {
    obeys_cmp::<T>()
}

/// The order facts the interval code relies on, for a type whose `Ord` is lawful.
pub proof fn lemma_order<T: Ord>()
    requires
        lawful_order::<T>(),
    ensures
        forall|a: T| !#[trigger] lt(a, a),
        forall|a: T, b: T, c: T| #[trigger] lt(a, b) && #[trigger] lt(b, c) ==> lt(a, c),
        forall|a: T, b: T, c: T|
            #![trigger lt(b, a), lt(b, c)]
            !lt(b, a) && lt(b, c) ==> lt(a, c),
        forall|a: T, b: T, c: T|
            #![trigger lt(a, b), lt(c, b)]
            lt(a, b) && !lt(c, b) ==> lt(a, c),
        forall|a: T, b: T, c: T|
            #![trigger lt(b, a), lt(c, b)]
            !lt(b, a) && !lt(c, b) ==> !lt(c, a),
{
    reveal(obeys_cmp_ord);
    reveal(obeys_cmp_partial_ord);
    reveal(obeys_partial_cmp_spec_properties);
    reveal(obeys_eq_spec_properties);
    assert forall|a: T| !#[trigger] lt(a, a) by {
        assert(a.partial_cmp_spec(&a) == Some(a.cmp_spec(&a)));
    }
    assert forall|a: T, b: T, c: T| #[trigger] lt(a, b) && #[trigger] lt(b, c) implies lt(a, c) by {
        assert(a.partial_cmp_spec(&b) == Some(a.cmp_spec(&b)));
        assert(b.partial_cmp_spec(&c) == Some(b.cmp_spec(&c)));
        assert(a.partial_cmp_spec(&c) == Some(a.cmp_spec(&c)));
    }
    assert forall|a: T, b: T, c: T| !lt(b, a) && lt(b, c) implies lt(a, c) by {
        assert(a.partial_cmp_spec(&b) == Some(a.cmp_spec(&b)));
        assert(b.partial_cmp_spec(&a) == Some(b.cmp_spec(&a)));
        assert(b.partial_cmp_spec(&c) == Some(b.cmp_spec(&c)));
        assert(a.partial_cmp_spec(&c) == Some(a.cmp_spec(&c)));
        assert(c.partial_cmp_spec(&a) == Some(c.cmp_spec(&a)));
        assert(c.partial_cmp_spec(&b) == Some(c.cmp_spec(&b)));
    }
    assert forall|a: T, b: T, c: T| lt(a, b) && !lt(c, b) implies lt(a, c) by {
        assert(a.partial_cmp_spec(&b) == Some(a.cmp_spec(&b)));
        assert(b.partial_cmp_spec(&a) == Some(b.cmp_spec(&a)));
        assert(c.partial_cmp_spec(&b) == Some(c.cmp_spec(&b)));
        assert(b.partial_cmp_spec(&c) == Some(b.cmp_spec(&c)));
        assert(a.partial_cmp_spec(&c) == Some(a.cmp_spec(&c)));
        assert(c.partial_cmp_spec(&a) == Some(c.cmp_spec(&a)));
    }
    assert forall|a: T, b: T, c: T| !lt(b, a) && !lt(c, b) implies !lt(c, a) by {
        assert(a.partial_cmp_spec(&b) == Some(a.cmp_spec(&b)));
        assert(b.partial_cmp_spec(&a) == Some(b.cmp_spec(&a)));
        assert(c.partial_cmp_spec(&b) == Some(c.cmp_spec(&b)));
        assert(b.partial_cmp_spec(&c) == Some(b.cmp_spec(&c)));
        assert(a.partial_cmp_spec(&c) == Some(a.cmp_spec(&c)));
        assert(c.partial_cmp_spec(&a) == Some(c.cmp_spec(&a)));
    }
}

/// Decides `a < b`.
pub(crate) fn less<T: Ord>(a: &T, b: &T) -> (r: bool)
    requires
        lawful_order::<T>(),
    ensures
        r == lt(*a, *b),
{
    proof {
        reveal(obeys_cmp_ord);
        reveal(obeys_cmp_partial_ord);
        assert(a.partial_cmp_spec(b) == Some(a.cmp_spec(b)));
    }
    *a < *b
}


/// `v` lies in the half-open interval `[lo, hi)`.
pub open spec fn in_range<T: Ord>(lo: T, hi: T, v: T) -> bool {
    !lt(v, lo) && lt(v, hi)
}

/// The intervals are non-empty, sorted, and separated by gaps: neither overlapping nor touching.
pub open spec fn canonical<T: Ord>(s: Seq<(T, T)>) -> bool {
    &&& forall|i: int| 0 <= i < s.len() ==> lt(#[trigger] s[i].0, s[i].1)
    &&& forall|i: int, j: int| 0 <= i < j < s.len() ==> lt(#[trigger] s[i].1, #[trigger] s[j].0)
}

/// Some interval of `s` contains `v`.
pub open spec fn covers<T: Ord>(s: Seq<(T, T)>, v: T) -> bool {
    exists|i: int| 0 <= i < s.len() && #[trigger] in_range(s[i].0, s[i].1, v)
}

/// The key used to search the intervals: the start, or with `by_end` the end.
spec fn key<T>(p: (T, T), by_end: bool) -> T {
    if by_end {
        p.1
    } else {
        p.0
    }
}

/// With `strict`, `y < x`; without, `y <= x`.
spec fn before<T: Ord>(y: T, x: T, strict: bool) -> bool {
    if strict {
        lt(y, x)
    } else {
        !lt(x, y)
    }
}

proof fn lemma_keys_sorted<T: Ord>(s: Seq<(T, T)>, by_end: bool)
    requires
        lawful_order::<T>(),
        canonical(s),
    ensures
        forall|i: int, j: int|
            0 <= i < j < s.len() ==> lt(#[trigger] key(s[i], by_end), #[trigger] key(s[j], by_end)),
{
    lemma_order::<T>();
    assert forall|i: int, j: int| 0 <= i < j < s.len() implies lt(
        #[trigger] key(s[i], by_end),
        #[trigger] key(s[j], by_end),
    ) by {
        assert(lt(s[i].0, s[i].1));
        assert(lt(s[j].0, s[j].1));
        assert(lt(s[i].1, s[j].0));
    }
}

/// The number of leading intervals whose key comes before `x`.
fn partition<T: Ord>(v: &Vec<(T, T)>, x: &T, by_end: bool, strict: bool) -> (k: usize)
    requires
        lawful_order::<T>(),
        canonical(v@),
    ensures
        k <= v@.len(),
        forall|i: int| 0 <= i < k ==> before(#[trigger] key(v@[i], by_end), *x, strict),
        forall|i: int| k <= i < v@.len() ==> !before(#[trigger] key(v@[i], by_end), *x, strict),
{
    proof {
        lemma_order::<T>();
        lemma_keys_sorted(v@, by_end);
    }
    let mut lo: usize = 0;
    let mut hi: usize = v.len();
    while lo < hi
        invariant
            lawful_order::<T>(),
            lo <= hi <= v@.len(),
            forall|i: int, j: int|
                0 <= i < j < v@.len() ==> lt(
                    #[trigger] key(v@[i], by_end),
                    #[trigger] key(v@[j], by_end),
                ),
            forall|i: int| 0 <= i < lo ==> before(#[trigger] key(v@[i], by_end), *x, strict),
            forall|i: int| hi <= i < v@.len() ==> !before(#[trigger] key(v@[i], by_end), *x, strict),
        decreases hi - lo,
    {
        let mid = lo + (hi - lo) / 2;
        let y = if by_end {
            &v[mid].1
        } else {
            &v[mid].0
        };
        let ok = if strict {
            less(y, x)
        } else {
            !less(x, y)
        };
        proof {
            lemma_order::<T>();
        }
        if ok {
            proof {
                assert forall|i: int| 0 <= i < mid + 1 implies before(
                    #[trigger] key(v@[i], by_end),
                    *x,
                    strict,
                ) by {
                    if i < mid {
                        assert(lt(key(v@[i], by_end), key(v@[mid as int], by_end)));
                    }
                }
            }
            lo = mid + 1;
        } else {
            proof {
                assert forall|i: int| mid <= i < v@.len() implies !before(
                    #[trigger] key(v@[i], by_end),
                    *x,
                    strict,
                ) by {
                    if i > mid {
                        assert(lt(key(v@[mid as int], by_end), key(v@[i], by_end)));
                    }
                }
            }
            hi = mid;
        }
    }
    lo
}

/// The index of the interval containing `value`, if any.
fn find_covering<T: Ord>(v: &Vec<(T, T)>, value: &T) -> (r: Option<usize>)
    requires
        lawful_order::<T>(),
        canonical(v@),
    ensures
        r is Some <==> covers(v@, *value),
        r matches Some(i) ==> i < v@.len() && in_range(v@[i as int].0, v@[i as int].1, *value),
{
    let k = partition(v, value, false, false);
    proof {
        lemma_order::<T>();
    }
    if k > 0 && less(value, &v[k - 1].1) {
        proof {
            assert(key(v@[k - 1], false) == v@[k - 1].0);
            assert(in_range(v@[k - 1].0, v@[k - 1].1, *value));
        }
        Some(k - 1)
    } else {
        proof {
            assert forall|i: int| 0 <= i < v@.len() implies !#[trigger] in_range(
                v@[i].0,
                v@[i].1,
                *value,
            ) by {
                assert(key(v@[i], false) == v@[i].0);
                if i < k - 1 {
                    assert(lt(v@[i].1, v@[k - 1].0));
                    assert(key(v@[k - 1], false) == v@[k - 1].0);
                }
            }
        }
        None
    }
}

/// Whether every value of `[start, end)` lies in one interval of `v`; true when it is empty.
fn covers_range<T: Ord>(v: &Vec<(T, T)>, range: &std::ops::Range<T>) -> (r: bool)
    requires
        lawful_order::<T>(),
        canonical(v@),
    ensures
        r == (forall|x: T| #[trigger] in_range(range.start, range.end, x) ==> covers(v@, x)),
{
    proof {
        lemma_order::<T>();
    }
    if !less(&range.start, &range.end) {
        return true;
    }
    let k = partition(v, &range.start, false, false);
    if k == 0 {
        proof {
            assert(in_range(range.start, range.end, range.start));
            assert forall|i: int| 0 <= i < v@.len() implies !#[trigger] in_range(
                v@[i].0,
                v@[i].1,
                range.start,
            ) by {
                assert(key(v@[i], false) == v@[i].0);
            }
        }
        return false;
    }
    let i = k - 1;
    let r = !less(&v[i].1, &range.end);
    proof {
        let s = v@[i as int].0;
        let e = v@[i as int].1;
        assert(key(v@[i as int], false) == s);
        if r {
            assert forall|x: T| #[trigger] in_range(range.start, range.end, x) implies covers(
                v@,
                x,
            ) by {
                assert(in_range(s, e, x));
            }
        } else {
            if lt(range.start, e) {
                assert(in_range(range.start, range.end, e));
                assert forall|j: int| 0 <= j < v@.len() implies !#[trigger] in_range(
                    v@[j].0,
                    v@[j].1,
                    e,
                ) by {
                    if j < i {
                        assert(lt(v@[j].1, v@[i as int].0));
                    }
                    if j > i {
                        assert(lt(v@[i as int].1, v@[j].0));
                    }
                }
            } else {
                assert(in_range(range.start, range.end, range.start));
                assert forall|j: int| 0 <= j < v@.len() implies !#[trigger] in_range(
                    v@[j].0,
                    v@[j].1,
                    range.start,
                ) by {
                    assert(key(v@[j], false) == v@[j].0);
                    if j < i {
                        assert(lt(v@[j].1, v@[i as int].0));
                    }
                }
            }
        }
    }
    r
}

/// Whether some value of `[start, end)` lies in an interval of `v`.
fn overlaps_range<T: Ord>(v: &Vec<(T, T)>, range: &std::ops::Range<T>) -> (r: bool)
    requires
        lawful_order::<T>(),
        canonical(v@),
    ensures
        r == (exists|x: T| #[trigger] in_range(range.start, range.end, x) && covers(v@, x)),
{
    proof {
        lemma_order::<T>();
    }
    if !less(&range.start, &range.end) {
        return false;
    }
    let k = partition(v, &range.start, true, false);
    if k < v.len() && less(&v[k].0, &range.end) {
        proof {
            let s = v@[k as int].0;
            let e = v@[k as int].1;
            assert(key(v@[k as int], true) == e);
            if lt(s, range.start) {
                assert(in_range(s, e, range.start));
                assert(in_range(range.start, range.end, range.start));
            } else {
                assert(in_range(s, e, s));
                assert(in_range(range.start, range.end, s));
            }
        }
        true
    } else {
        proof {
            assert forall|x: T| #[trigger] in_range(range.start, range.end, x) implies !covers(
                v@,
                x,
            ) by {
                assert forall|j: int| 0 <= j < v@.len() implies !#[trigger] in_range(
                    v@[j].0,
                    v@[j].1,
                    x,
                ) by {
                    assert(key(v@[j], true) == v@[j].1);
                    if j > k {
                        assert(lt(v@[k as int].1, v@[j].0));
                        assert(lt(v@[k as int].0, v@[k as int].1));
                    }
                }
            }
        }
        false
    }
}


/// `s` with the intervals at `a..b` replaced by `mid`.
pub open spec fn splice<T>(s: Seq<(T, T)>, a: int, b: int, mid: Seq<(T, T)>) -> Seq<(T, T)> {
    s.subrange(0, a) + mid + s.subrange(b, s.len() as int)
}

/// Removes the intervals at `a..b`; returns the start of the first and the end of the last.
fn take_block<T>(v: &mut Vec<(T, T)>, a: usize, b: usize) -> (r: Option<(T, T)>)
    requires
        a <= b <= old(v)@.len(),
    ensures
        final(v)@ == splice(old(v)@, a as int, b as int, Seq::empty()),
        a < b ==> r == Some((old(v)@[a as int].0, old(v)@[b - 1].1)),
        a == b ==> r is None,
{
    let ghost s = v@;
    let mut tail = v.split_off(b);
    let mut mid = v.split_off(a);
    let r = if mid.len() == 0 {
        None
    } else {
        let last = mid.pop().unwrap();
        if mid.len() == 0 {
            Some(last)
        } else {
            let first = mid.swap_remove(0);
            Some((first.0, last.1))
        }
    };
    v.append(&mut tail);
    proof {
        assert(v@ =~= splice(s, a as int, b as int, Seq::empty()));
    }
    r
}

proof fn lemma_insert<T: Ord>(
    s: Seq<(T, T)>,
    start: T,
    end: T,
    a: int,
    b: int,
    ns: T,
    ne: T,
)
    requires
        lawful_order::<T>(),
        canonical(s),
        lt(start, end),
        0 <= a <= s.len(),
        0 <= b <= s.len(),
        forall|i: int| 0 <= i < a ==> lt(#[trigger] s[i].1, start),
        forall|i: int| a <= i < s.len() ==> !lt(#[trigger] s[i].1, start),
        forall|i: int| 0 <= i < b ==> !lt(end, #[trigger] s[i].0),
        forall|i: int| b <= i < s.len() ==> lt(end, #[trigger] s[i].0),
        ns == if a < b && lt(s[a].0, start) {
            s[a].0
        } else {
            start
        },
        ne == if a < b && lt(end, s[b - 1].1) {
            s[b - 1].1
        } else {
            end
        },
    ensures
        a <= b,
        canonical(splice(s, a, b, seq![(ns, ne)])),
        forall|x: T|
            #[trigger] covers(splice(s, a, b, seq![(ns, ne)]), x) <==> covers(s, x) || in_range(
                start,
                end,
                x,
            ),
{
    lemma_order::<T>();
    let t = splice(s, a, b, seq![(ns, ne)]);
    if b < a {
        assert(lt(s[b].1, start));
        assert(lt(end, s[b].0));
        assert(lt(s[b].0, s[b].1));
    }
    assert(!lt(start, ns));
    assert(!lt(ne, end));
    assert(lt(ns, ne));
    assert(t.len() == s.len() - (b - a) + 1);
    assert forall|k: int| 0 <= k < t.len() implies #[trigger] t[k] == if k < a {
        s[k]
    } else if k == a {
        (ns, ne)
    } else {
        s[k - a - 1 + b]
    } by {}
    assert forall|k: int| 0 <= k < t.len() implies lt(#[trigger] t[k].0, t[k].1) by {
        if k < a {
            assert(lt(s[k].0, s[k].1));
        } else if k > a {
            assert(lt(s[k - a - 1 + b].0, s[k - a - 1 + b].1));
        }
    }
    assert forall|k: int, l: int| 0 <= k < l < t.len() implies lt(#[trigger] t[k].1, #[trigger] t[l].0) by {
        if l < a {
            assert(lt(s[k].1, s[l].0));
        } else if l == a {
            if a < b && lt(s[a].0, start) {
                assert(lt(s[k].1, s[a].0));
            }
        } else if k < a {
            assert(lt(s[k].1, s[l - a - 1 + b].0));
        } else if k == a {
            let j = l - a - 1 + b;
            assert(lt(end, s[j].0));
            if a < b && lt(end, s[b - 1].1) {
                assert(lt(s[b - 1].1, s[j].0));
            }
        } else {
            assert(lt(s[k - a - 1 + b].1, s[l - a - 1 + b].0));
        }
    }
    assert forall|x: T| #[trigger] covers(t, x) <==> covers(s, x) || in_range(start, end, x) by {
        if covers(t, x) {
            let k = choose|k: int| 0 <= k < t.len() && #[trigger] in_range(t[k].0, t[k].1, x);
            if k < a {
                assert(in_range(s[k].0, s[k].1, x));
            } else if k > a {
                assert(in_range(s[k - a - 1 + b].0, s[k - a - 1 + b].1, x));
            } else if !in_range(start, end, x) {
                if lt(x, start) {
                    assert(in_range(s[a].0, s[a].1, x));
                } else {
                    assert(in_range(s[b - 1].0, s[b - 1].1, x));
                }
            }
        }
        if covers(s, x) {
            let i = choose|i: int| 0 <= i < s.len() && #[trigger] in_range(s[i].0, s[i].1, x);
            if i < a {
                assert(in_range(t[i].0, t[i].1, x));
            } else if i >= b {
                assert(in_range(t[i - b + a + 1].0, t[i - b + a + 1].1, x));
            } else {
                if a < i {
                    assert(lt(s[a].0, s[i].0));
                }
                if i < b - 1 {
                    assert(lt(s[i].1, s[b - 1].1)) by {
                        assert(lt(s[i].1, s[b - 1].0));
                        assert(lt(s[b - 1].0, s[b - 1].1));
                    }
                }
                assert(in_range(t[a].0, t[a].1, x));
            }
        }
        if in_range(start, end, x) {
            assert(in_range(t[a].0, t[a].1, x));
        }
    }
}


/// The pieces left of the intervals at `a..b` once `[start, end)` is cut out of them.
pub open spec fn cut_pieces<T: Ord>(s: Seq<(T, T)>, a: int, b: int, start: T, end: T) -> Seq<
    (T, T),
> {
    let left = if a < b && lt(s[a].0, start) {
        seq![(s[a].0, start)]
    } else {
        Seq::empty()
    };
    let right = if a < b && lt(end, s[b - 1].1) {
        seq![(end, s[b - 1].1)]
    } else {
        Seq::empty()
    };
    left + right
}

proof fn lemma_remove<T: Ord>(s: Seq<(T, T)>, start: T, end: T, a: int, b: int)
    requires
        lawful_order::<T>(),
        canonical(s),
        lt(start, end),
        0 <= a <= s.len(),
        0 <= b <= s.len(),
        forall|i: int| 0 <= i < a ==> !lt(start, #[trigger] s[i].1),
        forall|i: int| a <= i < s.len() ==> lt(start, #[trigger] s[i].1),
        forall|i: int| 0 <= i < b ==> lt(#[trigger] s[i].0, end),
        forall|i: int| b <= i < s.len() ==> !lt(#[trigger] s[i].0, end),
    ensures
        a <= b,
        canonical(splice(s, a, b, cut_pieces(s, a, b, start, end))),
        forall|x: T|
            #[trigger] covers(splice(s, a, b, cut_pieces(s, a, b, start, end)), x) <==> covers(
                s,
                x,
            ) && !in_range(start, end, x),
{
    lemma_order::<T>();
    let mid = cut_pieces(s, a, b, start, end);
    let t = splice(s, a, b, mid);
    if b < a {
        assert(!lt(start, s[b].1));
        assert(lt(s[b].0, end));
        assert(lt(s[b].0, s[b].1));
    }
    let m = mid.len();
    assert(t.len() == s.len() - (b - a) + m);
    assert forall|k: int| 0 <= k < t.len() implies #[trigger] t[k] == if k < a {
        s[k]
    } else if k < a + m {
        mid[k - a]
    } else {
        s[k - a - m + b]
    } by {}
    assert forall|k: int| 0 <= k < m implies lt(#[trigger] mid[k].0, mid[k].1) by {}
    assert forall|k: int| 0 <= k < t.len() implies lt(#[trigger] t[k].0, t[k].1) by {
        if k < a {
            assert(lt(s[k].0, s[k].1));
        } else if k >= a + m {
            assert(lt(s[k - a - m + b].0, s[k - a - m + b].1));
        } else {
            assert(lt(mid[k - a].0, mid[k - a].1));
        }
    }
    assert forall|k: int, l: int| 0 <= k < l < t.len() implies lt(#[trigger] t[k].1, #[trigger] t[l].0) by {
        if l < a {
            assert(lt(s[k].1, s[l].0));
        } else if l < a + m {
            if k < a {
                assert(!lt(start, s[k].1));
                if a < b && lt(s[a].0, start) {
                    assert(lt(s[k].1, s[a].0));
                }
            } else {
                assert(k == a && l == a + 1);
            }
        } else if k < a {
            let j = l - a - m + b;
            assert(lt(s[k].1, s[j].0));
        } else if k < a + m {
            let j = l - a - m + b;
            assert(!lt(s[j].0, end));
            if l - a - m + b > b - 1 && a < b && lt(end, s[b - 1].1) {
                assert(lt(s[b - 1].1, s[j].0));
            }
        } else {
            assert(lt(s[k - a - m + b].1, s[l - a - m + b].0));
        }
    }
    assert forall|x: T| #[trigger] covers(t, x) <==> covers(s, x) && !in_range(start, end, x) by {
        if covers(t, x) {
            let k = choose|k: int| 0 <= k < t.len() && #[trigger] in_range(t[k].0, t[k].1, x);
            if k < a {
                assert(in_range(s[k].0, s[k].1, x));
            } else if k >= a + m {
                assert(in_range(s[k - a - m + b].0, s[k - a - m + b].1, x));
            } else if lt(x, start) {
                assert(in_range(s[a].0, s[a].1, x));
            } else {
                assert(in_range(s[b - 1].0, s[b - 1].1, x));
            }
        }
        if covers(s, x) && !in_range(start, end, x) {
            let i = choose|i: int| 0 <= i < s.len() && #[trigger] in_range(s[i].0, s[i].1, x);
            if i < a {
                assert(in_range(t[i].0, t[i].1, x));
            } else if i >= b {
                assert(in_range(t[i - b + a + m].0, t[i - b + a + m].1, x));
            } else {
                if a < i {
                    assert(lt(s[a].0, s[i].0));
                }
                if i < b - 1 {
                    assert(lt(s[i].1, s[b - 1].1)) by {
                        assert(lt(s[i].1, s[b - 1].0));
                        assert(lt(s[b - 1].0, s[b - 1].1));
                    }
                }
                if lt(x, start) {
                    assert(in_range(t[a].0, t[a].1, x));
                } else {
                    assert(in_range(t[a + m - 1].0, t[a + m - 1].1, x));
                }
            }
        }
    }
}


/// A set of values, held as disjoint half-open intervals `[start, end)`.
///
/// Intervals that overlap or touch are joined, so the intervals are kept sorted
/// and separated by gaps.
#[derive(Clone, PartialEq, Eq, Debug)]
pub struct Ranges<T>(Vec<(T, T)>);

impl<T> View for Ranges<T> {
    type V = Seq<(T, T)>;

    closed spec fn view(&self) -> Seq<(T, T)> {
        self.0@
    }
}

impl<T: Ord> Ranges<T> {
    /// The intervals are in canonical form.
    pub open spec fn wf(&self) -> bool {
        canonical(self@)
    }

    /// An empty set.
    pub fn new() -> (r: Self)
        ensures
            r.wf(),
            r@ == Seq::<(T, T)>::empty(),
    {
        Ranges(Vec::new())
    }

    /// The number of intervals (not of values).
    pub fn len(&self) -> (r: usize)
        ensures
            r == self@.len(),
    {
        self.0.len()
    }

    /// Whether there is no interval.
    pub fn is_empty(&self) -> (r: bool)
        ensures
            r == (self@.len() == 0),
    {
        self.0.len() == 0
    }

    /// Removes every interval.
    pub fn clear(&mut self)
        ensures
            final(self)@ == Seq::<(T, T)>::empty(),
            final(self).wf(),
    {
        self.0.clear();
    }

    /// The intervals as `(start, end)` pairs, in increasing order.
    pub fn iter(&self) -> (r: Vec<(&T, &T)>)
        ensures
            r@.len() == self@.len(),
            forall|i: int|
                0 <= i < self@.len() ==> *(#[trigger] r@[i]).0 == self@[i].0 && *r@[i].1
                    == self@[i].1,
    {
        let mut r: Vec<(&T, &T)> = Vec::new();
        let mut i: usize = 0;
        while i < self.0.len()
            invariant
                i <= self@.len(),
                r@.len() == i,
                forall|j: int|
                    0 <= j < i ==> *(#[trigger] r@[j]).0 == self@[j].0 && *r@[j].1 == self@[j].1,
            decreases self@.len() - i,
        {
            r.push((&self.0[i].0, &self.0[i].1));
            i = i + 1;
        }
        r
    }

    /// Adds the values of `range` to the set, joining the intervals it overlaps or touches.
    pub fn insert(&mut self, range: std::ops::Range<T>)
        requires
            lawful_order::<T>(),
            old(self).wf(),
        ensures
            final(self).wf(),
            forall|x: T|
                #[trigger] covers(final(self)@, x) <==> covers(old(self)@, x) || in_range(
                    range.start,
                    range.end,
                    x,
                ),
            !lt(range.start, range.end) ==> final(self)@ == old(self)@,
    {
        let std::ops::Range { start, end } = range;
        if !less(&start, &end) {
            proof {
                lemma_order::<T>();
                assert forall|x: T| !#[trigger] in_range(start, end, x) by {}
            }
            return;
        }
        let ghost s = self.0@;
        let a = partition(&self.0, &start, true, true);
        let b = partition(&self.0, &end, false, false);
        proof {
            assert forall|i: int| 0 <= i < a implies lt(#[trigger] s[i].1, start) by {
                assert(key(s[i], true) == s[i].1);
            }
            assert forall|i: int| a <= i < s.len() implies !lt(#[trigger] s[i].1, start) by {
                assert(key(s[i], true) == s[i].1);
            }
            assert forall|i: int| 0 <= i < b implies !lt(end, #[trigger] s[i].0) by {
                assert(key(s[i], false) == s[i].0);
            }
            assert forall|i: int| b <= i < s.len() implies lt(end, #[trigger] s[i].0) by {
                assert(key(s[i], false) == s[i].0);
            }
            if b < a {
                lemma_order::<T>();
                assert(lt(s[b as int].1, start));
                assert(lt(end, s[b as int].0));
                assert(lt(s[b as int].0, s[b as int].1));
            }
        }
        let block = take_block(&mut self.0, a, b);
        let (ns, ne) = match block {
            None => (start, end),
            Some((bs, be)) => {
                let ns = if less(&bs, &start) {
                    bs
                } else {
                    start
                };
                let ne = if less(&end, &be) {
                    be
                } else {
                    end
                };
                (ns, ne)
            },
        };
        proof {
            lemma_insert(s, range.start, range.end, a as int, b as int, ns, ne);
        }
        self.0.insert(a, (ns, ne));
        proof {
            assert(self.0@ =~= splice(s, a as int, b as int, seq![(ns, ne)]));
        }
    }

    /// Removes the values of `range` from the set, splitting an interval it cuts through.
    pub fn remove(&mut self, range: std::ops::Range<T>)
        requires
            lawful_order::<T>(),
            old(self).wf(),
        ensures
            final(self).wf(),
            forall|x: T|
                #[trigger] covers(final(self)@, x) <==> covers(old(self)@, x) && !in_range(
                    range.start,
                    range.end,
                    x,
                ),
            !lt(range.start, range.end) ==> final(self)@ == old(self)@,
    {
        let std::ops::Range { start, end } = range;
        if !less(&start, &end) {
            proof {
                lemma_order::<T>();
                assert forall|x: T| !#[trigger] in_range(start, end, x) by {}
            }
            return;
        }
        let ghost s = self.0@;
        let a = partition(&self.0, &start, true, false);
        let b = partition(&self.0, &end, false, true);
        proof {
            assert forall|i: int| 0 <= i < a implies !lt(start, #[trigger] s[i].1) by {
                assert(key(s[i], true) == s[i].1);
            }
            assert forall|i: int| a <= i < s.len() implies lt(start, #[trigger] s[i].1) by {
                assert(key(s[i], true) == s[i].1);
            }
            assert forall|i: int| 0 <= i < b implies lt(#[trigger] s[i].0, end) by {
                assert(key(s[i], false) == s[i].0);
            }
            assert forall|i: int| b <= i < s.len() implies !lt(#[trigger] s[i].0, end) by {
                assert(key(s[i], false) == s[i].0);
            }
            lemma_remove(s, range.start, range.end, a as int, b as int);
        }
        let block = take_block(&mut self.0, a, b);
        let ghost mid = cut_pieces(s, a as int, b as int, range.start, range.end);
        match block {
            None => {
                proof {
                    assert(mid =~= Seq::<(T, T)>::empty());
                    assert(self.0@ =~= splice(s, a as int, b as int, mid));
                }
            },
            Some((bs, be)) => {
                let keep_left = less(&bs, &start);
                let keep_right = less(&end, &be);
                let mut at = a;
                if keep_left {
                    self.0.insert(at, (bs, start));
                    at = at + 1;
                }
                if keep_right {
                    self.0.insert(at, (end, be));
                }
                proof {
                    assert(self.0@ =~= splice(s, a as int, b as int, mid));
                }
            },
        }
    }

    /// Whether some interval contains `value`.
    pub fn contains(&self, value: &T) -> (r: bool)
        requires
            lawful_order::<T>(),
            self.wf(),
        ensures
            r == covers(self@, *value),
    {
        find_covering(&self.0, value).is_some()
    }

    /// The interval that contains `value`, if any.
    pub fn covering(&self, value: &T) -> (r: Option<(&T, &T)>)
        requires
            lawful_order::<T>(),
            self.wf(),
        ensures
            r is Some <==> covers(self@, *value),
            r matches Some((s, e)) ==> exists|i: int|
                0 <= i < self@.len() && #[trigger] self@[i] == (*s, *e) && in_range(
                    *s,
                    *e,
                    *value,
                ),
    {
        match find_covering(&self.0, value) {
            Some(i) => Some((&self.0[i].0, &self.0[i].1)),
            None => None,
        }
    }

    /// Whether one interval holds all of `range`; true when `range` is empty.
    pub fn contains_range(&self, range: &std::ops::Range<T>) -> (r: bool)
        requires
            lawful_order::<T>(),
            self.wf(),
        ensures
            r == (forall|x: T| #[trigger] in_range(range.start, range.end, x) ==> covers(self@, x)),
    {
        covers_range(&self.0, range)
    }

    /// Whether some value of `range` lies in the set.
    pub fn overlaps(&self, range: &std::ops::Range<T>) -> (r: bool)
        requires
            lawful_order::<T>(),
            self.wf(),
        ensures
            r == (exists|x: T| #[trigger] in_range(range.start, range.end, x) && covers(self@, x)),
    {
        overlaps_range(&self.0, range)
    }

    /// Inserts each range of `ranges` in turn.
    pub fn extend(&mut self, ranges: Vec<std::ops::Range<T>>)
        requires
            lawful_order::<T>(),
            old(self).wf(),
        ensures
            final(self).wf(),
            forall|x: T|
                #[trigger] covers(final(self)@, x) <==> covers(old(self)@, x) || exists|i: int|
                    0 <= i < ranges@.len() && #[trigger] in_range(
                        ranges@[i].start,
                        ranges@[i].end,
                        x,
                    ),
    {
        let ghost s0 = self@;
        let ghost rs = ranges@;
        let n = ranges.len();
        let mut k: usize = 0;
        for r in it: ranges
            invariant
                lawful_order::<T>(),
                rs.len() == n,
                k <= n,
                self.wf(),
                k == it.index(),
                it.seq() == rs,
                forall|x: T|
                    #[trigger] covers(self@, x) <==> covers(s0, x) || exists|i: int|
                        0 <= i < k && #[trigger] in_range(rs[i].start, rs[i].end, x),
        {
            let ghost r0 = r;
            self.insert(r);
            proof {
                assert(r0 == rs[k as int]);
                assert forall|x: T| #[trigger] covers(self@, x) <==> covers(s0, x) || exists|i: int|
                    0 <= i < k + 1 && #[trigger] in_range(rs[i].start, rs[i].end, x) by {
                    if in_range(rs[k as int].start, rs[k as int].end, x) {
                        assert(in_range(rs[k as int].start, rs[k as int].end, x));
                    }
                }
            }
            k = k + 1;
        }
    }

    /// The set of the values of all `ranges`.
    pub fn from_ranges(ranges: Vec<std::ops::Range<T>>) -> (r: Self)
        requires
            lawful_order::<T>(),
        ensures
            r.wf(),
            forall|x: T|
                #[trigger] covers(r@, x) <==> exists|i: int|
                    0 <= i < ranges@.len() && #[trigger] in_range(
                        ranges@[i].start,
                        ranges@[i].end,
                        x,
                    ),
    {
        let mut r = Ranges::new();
        r.extend(ranges);
        r
    }
}

impl<T: Ord> Default for Ranges<T> {
    fn default() -> (r: Self)
        ensures
            r@ == Seq::<(T, T)>::empty(),
    {
        Ranges(Vec::new())
    }
}

/// A frozen set of disjoint half-open intervals, sorted by start.
#[derive(Clone, PartialEq, Eq, Debug)]
pub struct ImmutableRanges<T>(Vec<(T, T)>);

impl<T> View for ImmutableRanges<T> {
    type V = Seq<(T, T)>;

    closed spec fn view(&self) -> Seq<(T, T)> {
        self.0@
    }
}

impl<T: Ord> ImmutableRanges<T> {
    /// The intervals are in canonical form.
    pub open spec fn wf(&self) -> bool {
        canonical(self@)
    }

    /// The number of intervals.
    pub fn len(&self) -> (r: usize)
        ensures
            r == self@.len(),
    {
        self.0.len()
    }

    /// Whether there is no interval.
    pub fn is_empty(&self) -> (r: bool)
        ensures
            r == (self@.len() == 0),
    {
        self.0.len() == 0
    }

    /// The intervals, in increasing order.
    pub fn as_slice(&self) -> (r: &[(T, T)])
        ensures
            r@ == self@,
    {
        self.0.as_slice()
    }

    /// An iterator over the intervals, in increasing order.
    pub fn iter(&self) -> (r: std::slice::Iter<'_, (T, T)>)
        ensures
            r.remaining() == self@.map_values(|p: (T, T)| &p),
    {
        let it = self.0.as_slice().iter();
        proof {
            assert(self@.map_values(|p: (T, T)| &p) =~= self@.as_ref());
        }
        it
    }

    /// The intervals, moved out.
    pub fn into_vec(self) -> (r: Vec<(T, T)>)
        ensures
            r@ == self@,
    {
        self.0
    }

    /// Whether some interval contains `value`.
    pub fn contains(&self, value: &T) -> (r: bool)
        requires
            lawful_order::<T>(),
            self.wf(),
        ensures
            r == covers(self@, *value),
    {
        self.covering_index(value).is_some()
    }

    /// The interval that contains `value`, if any.
    pub fn covering(&self, value: &T) -> (r: Option<&(T, T)>)
        requires
            lawful_order::<T>(),
            self.wf(),
        ensures
            r is Some <==> covers(self@, *value),
            r matches Some(p) ==> exists|i: int|
                0 <= i < self@.len() && #[trigger] self@[i] == *p && in_range(p.0, p.1, *value),
    {
        match self.covering_index(value) {
            Some(i) => Some(&self.0[i]),
            None => None,
        }
    }

    /// The index of the interval that contains `value`, if any.
    pub fn covering_index(&self, value: &T) -> (r: Option<usize>)
        requires
            lawful_order::<T>(),
            self.wf(),
        ensures
            r is Some <==> covers(self@, *value),
            r matches Some(i) ==> i < self@.len() && in_range(
                self@[i as int].0,
                self@[i as int].1,
                *value,
            ),
    {
        find_covering(&self.0, value)
    }

    /// Whether one interval holds all of `range`; true when `range` is empty.
    pub fn contains_range(&self, range: &std::ops::Range<T>) -> (r: bool)
        requires
            lawful_order::<T>(),
            self.wf(),
        ensures
            r == (forall|x: T| #[trigger] in_range(range.start, range.end, x) ==> covers(self@, x)),
    {
        covers_range(&self.0, range)
    }

    /// Whether some value of `range` lies in the set.
    pub fn overlaps(&self, range: &std::ops::Range<T>) -> (r: bool)
        requires
            lawful_order::<T>(),
            self.wf(),
        ensures
            r == (exists|x: T| #[trigger] in_range(range.start, range.end, x) && covers(self@, x)),
    {
        overlaps_range(&self.0, range)
    }

    /// The set of the values of all `ranges`, frozen.
    pub fn from_ranges(ranges: Vec<std::ops::Range<T>>) -> (r: Self)
        requires
            lawful_order::<T>(),
        ensures
            r.wf(),
            forall|x: T|
                #[trigger] covers(r@, x) <==> exists|i: int|
                    0 <= i < ranges@.len() && #[trigger] in_range(
                        ranges@[i].start,
                        ranges@[i].end,
                        x,
                    ),
    {
        let r = Ranges::from_ranges(ranges);
        ImmutableRanges(r.0)
    }
}

impl<T: Ord> Default for ImmutableRanges<T> {
    fn default() -> (r: Self)
        ensures
            r@ == Seq::<(T, T)>::empty(),
    {
        ImmutableRanges(Vec::new())
    }
}

impl<T> From<Ranges<T>> for ImmutableRanges<T> {
    fn from(ranges: Ranges<T>) -> (r: Self) {
        ImmutableRanges(ranges.0)
    }
}

impl<T> vstd::std_specs::convert::FromSpecImpl<Ranges<T>> for ImmutableRanges<T> {
    open spec fn obeys_from_spec() -> bool {
        true
    }

    closed spec fn from_spec(v: Ranges<T>) -> Self {
        ImmutableRanges(v.0)
    }
}

impl<T> From<ImmutableRanges<T>> for Ranges<T> {
    fn from(ranges: ImmutableRanges<T>) -> (r: Self) {
        Ranges(ranges.0)
    }
}

impl<T> vstd::std_specs::convert::FromSpecImpl<ImmutableRanges<T>> for Ranges<T> {
    open spec fn obeys_from_spec() -> bool {
        true
    }

    closed spec fn from_spec(v: ImmutableRanges<T>) -> Self {
        Ranges(v.0)
    }
}


/// Converting between `Ranges` and `ImmutableRanges` keeps the intervals as they are.
pub proof fn lemma_conversions_keep_intervals<T>(r: Ranges<T>, f: ImmutableRanges<T>)
    ensures
        <ImmutableRanges<T> as vstd::std_specs::convert::FromSpec<Ranges<T>>>::from_spec(r)@ == r@,
        <Ranges<T> as vstd::std_specs::convert::FromSpec<ImmutableRanges<T>>>::from_spec(f)@ == f@,
        <ImmutableRanges<T> as vstd::std_specs::convert::FromSpec<Ranges<T>>>::obeys_from_spec(),
        <Ranges<T> as vstd::std_specs::convert::FromSpec<ImmutableRanges<T>>>::obeys_from_spec(),
{
}

/// A frozen set and the set it converts back to agree on every question: which values they
/// hold, whether one interval holds all of a range, and whether a range meets them.
pub proof fn lemma_frozen_answers_agree<T: Ord>(f: ImmutableRanges<T>, range: std::ops::Range<T>)
    ensures
        ({
            let r = <Ranges<T> as vstd::std_specs::convert::FromSpec<ImmutableRanges<T>>>::from_spec(f);
            &&& forall|x: T| #[trigger] covers(r@, x) == covers(f@, x)
            &&& (forall|x: T| #[trigger] in_range(range.start, range.end, x) ==> covers(r@, x)) == (forall|x: T|
                #[trigger] in_range(range.start, range.end, x) ==> covers(f@, x))
            &&& (exists|x: T| #[trigger] in_range(range.start, range.end, x) && covers(r@, x)) == (exists|x: T|
                #[trigger] in_range(range.start, range.end, x) && covers(f@, x))
        }),
{
    lemma_conversions_keep_intervals(
        <Ranges<T> as vstd::std_specs::convert::FromSpec<ImmutableRanges<T>>>::from_spec(f),
        f,
    );
}

/// Two sets of intervals in canonical form that hold the same values are the same intervals,
/// where the order of `T` tells values apart as `==` does. So every way of building the set
/// of the values of some ranges gives the same intervals.
pub proof fn lemma_canonical_unique<T: Ord>(s: Seq<(T, T)>, t: Seq<(T, T)>)
    requires
        lawful_order::<T>(),
        forall|a: T, b: T| !#[trigger] lt(a, b) && !#[trigger] lt(b, a) ==> a == b,
        canonical(s),
        canonical(t),
        forall|x: T| #[trigger] covers(s, x) == covers(t, x),
    ensures
        s == t,
    decreases s.len() + t.len(),
{
    lemma_order::<T>();
    if s.len() == 0 || t.len() == 0 {
        if s.len() > 0 {
            assert(in_range(s[0].0, s[0].1, s[0].0));
            assert(covers(s, s[0].0));
            assert(!covers(t, s[0].0));
        }
        if t.len() > 0 {
            assert(in_range(t[0].0, t[0].1, t[0].0));
            assert(covers(s, t[0].0) == covers(t, t[0].0));
            assert(covers(t, t[0].0));
            assert(!covers(s, t[0].0));
        }
        assert(s =~= t);
    } else {
        let (a, b) = s[0];
        let (c, d) = t[0];
        // The first starts agree.
        assert(in_range(a, b, a));
        assert(covers(s, a));
        assert(covers(t, a));
        assert(in_range(c, d, c));
        assert(covers(t, c));
        assert(covers(s, c));
        assert(!lt(a, c)) by {
            let j = choose|j: int| 0 <= j < t.len() && #[trigger] in_range(t[j].0, t[j].1, a);
            if j > 0 {
                assert(lt(t[0].1, t[j].0));
            }
        }
        assert(!lt(c, a)) by {
            let i = choose|i: int| 0 <= i < s.len() && #[trigger] in_range(s[i].0, s[i].1, c);
            if i > 0 {
                assert(lt(s[0].1, s[i].0));
            }
        }
        assert(a == c);
        // The first ends agree.
        assert(!lt(b, d)) by {
            if lt(b, d) {
                assert(in_range(c, d, b));
                assert(covers(t, b));
                assert(covers(s, b));
                let i = choose|i: int| 0 <= i < s.len() && #[trigger] in_range(s[i].0, s[i].1, b);
                if i > 0 {
                    assert(lt(s[0].1, s[i].0));
                }
            }
        }
        assert(!lt(d, b)) by {
            if lt(d, b) {
                assert(in_range(a, b, d));
                assert(covers(s, d));
                assert(covers(t, d));
                let j = choose|j: int| 0 <= j < t.len() && #[trigger] in_range(t[j].0, t[j].1, d);
                if j > 0 {
                    assert(lt(t[0].1, t[j].0));
                }
            }
        }
        assert(b == d);
        let s2 = s.drop_first();
        let t2 = t.drop_first();
        assert forall|i: int, j: int| 0 <= i < j < s2.len() implies lt(#[trigger] s2[i].1, #[trigger] s2[j].0) by {
            assert(lt(s[i + 1].1, s[j + 1].0));
        }
        assert forall|i: int, j: int| 0 <= i < j < t2.len() implies lt(#[trigger] t2[i].1, #[trigger] t2[j].0) by {
            assert(lt(t[i + 1].1, t[j + 1].0));
        }
        assert forall|i: int| 0 <= i < s2.len() implies lt(#[trigger] s2[i].0, s2[i].1) by {
            assert(lt(s[i + 1].0, s[i + 1].1));
        }
        assert forall|i: int| 0 <= i < t2.len() implies lt(#[trigger] t2[i].0, t2[i].1) by {
            assert(lt(t[i + 1].0, t[i + 1].1));
        }
        assert forall|x: T| #[trigger] covers(s2, x) == covers(t2, x) by {
            if covers(s2, x) {
                let i = choose|i: int| 0 <= i < s2.len() && #[trigger] in_range(s2[i].0, s2[i].1, x);
                assert(in_range(s[i + 1].0, s[i + 1].1, x));
                assert(covers(s, x));
                assert(covers(t, x));
                assert(lt(s[0].1, s[i + 1].0));
                let j = choose|j: int| 0 <= j < t.len() && #[trigger] in_range(t[j].0, t[j].1, x);
                assert(j != 0);
                assert(in_range(t2[j - 1].0, t2[j - 1].1, x));
            }
            if covers(t2, x) {
                let j = choose|j: int| 0 <= j < t2.len() && #[trigger] in_range(t2[j].0, t2[j].1, x);
                assert(in_range(t[j + 1].0, t[j + 1].1, x));
                assert(covers(t, x));
                assert(covers(s, x));
                assert(lt(t[0].1, t[j + 1].0));
                let i = choose|i: int| 0 <= i < s.len() && #[trigger] in_range(s[i].0, s[i].1, x);
                assert(i != 0);
                assert(in_range(s2[i - 1].0, s2[i - 1].1, x));
            }
        }
        lemma_canonical_unique(s2, t2);
        assert(s =~= t2.insert(0, (c, d)));
        assert(t =~= t2.insert(0, (c, d)));
    }
}

} // verus!
