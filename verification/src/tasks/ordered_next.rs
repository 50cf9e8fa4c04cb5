use vstd::prelude::*;
use crate::compress::{in_order, sort_by_key, SortKey};

verus! {

/// No value occurs twice in `s`.
pub open spec fn distinct(s: Seq<usize>) -> bool {
    forall|i: int, j: int| 0 <= i < j < s.len() ==> s[i] != s[j]
}

/// `p` occurs in `s` before `q` does.
pub open spec fn comes_before(s: Seq<usize>, p: usize, q: usize) -> bool {
    exists|i: int, j: int| 0 <= i < j < s.len() && #[trigger] s[i] == p && #[trigger] s[j] == q
}

/// `a` comes before `b` in lexicographic order, both being as long.
pub open spec fn lex_less(a: Seq<usize>, b: Seq<usize>) -> bool {
    &&& a.len() == b.len()
    &&& exists|k: int| 0 <= k < a.len() && a.take(k) == b.take(k) && #[trigger] a[k] < b[k]
}

/// The first place of `s` that holds a value above `t`, when some value of `s` is above it.
fn first_above(s: &Vec<usize>, t: usize) -> (k: usize)
    requires
        exists|j: int| 0 <= j < s@.len() && #[trigger] s@[j] > t,
    ensures
        k < s@.len(),
        s@[k as int] > t,
        forall|j: int| 0 <= j < k ==> #[trigger] s@[j] <= t,
{
    let mut k: usize = 0;
    while k < s.len()
        invariant
            k <= s@.len(),
            exists|j: int| 0 <= j < s@.len() && #[trigger] s@[j] > t,
            forall|j: int| 0 <= j < k ==> #[trigger] s@[j] <= t,
        decreases s@.len() - k,
    {
        if s[k] > t {
            return k;
        }
        k = k + 1;
    }
    proof {
        let j = choose|j: int| 0 <= j < s@.len() && #[trigger] s@[j] > t;
        assert(s@[j] <= t);
    }
    0
}

/// The place of `x` in `s`, which holds it.
fn place_of(s: &Vec<usize>, x: usize) -> (k: usize)
    requires
        s@.contains(x),
    ensures
        k < s@.len(),
        s@[k as int] == x,
{
    let mut k: usize = 0;
    while k < s.len()
        invariant
            k <= s@.len(),
            s@.contains(x),
            forall|j: int| 0 <= j < k ==> #[trigger] s@[j] != x,
        decreases s@.len() - k,
    {
        if s[k] == x {
            return k;
        }
        k = k + 1;
    }
    proof {
        let j = choose|j: int| 0 <= j < s@.len() && s@[j] == x;
        assert(s@[j] != x);
    }
    0
}

/// Values listed in increasing order without repeats sit in the order of their sizes.
proof fn lemma_sorted_places(s: Seq<usize>, i: int, j: int)
    requires
        in_order(s),
        distinct(s),
        0 <= i < s.len(),
        0 <= j < s.len(),
        s[i] < s[j],
    ensures
        i < j,
{
    if j <= i {
        if j < i {
            assert(s[j].key() <= s[i].key());
        }
    }
}

/// Values that occur once in a list occur once in any rearrangement of it.
proof fn lemma_distinct_rearranged(s: Seq<usize>, t: Seq<usize>)
    requires
        distinct(s),
        t.to_multiset() == s.to_multiset(),
    ensures
        distinct(t),
{
    broadcast use vstd::seq_lib::group_to_multiset_ensures;

    assert forall|i: int, j: int| 0 <= i < j < t.len() implies t[i] != t[j] by {
        if t[i] == t[j] {
            let x = t[i];
            assert(t.remove(j).contains(x)) by {
                assert(t.remove(j)[i] == x);
            }
            assert(t.remove(j).to_multiset().count(x) == t.to_multiset().count(x) - 1);
            assert(t.remove(j).to_multiset().count(x) > 0);
            assert(s.to_multiset().count(x) >= 2);
            let a = choose|a: int| 0 <= a < s.len() && s[a] == x;
            assert(s.remove(a).to_multiset().count(x) >= 1);
            assert(s.remove(a).contains(x));
            let b = choose|b: int| 0 <= b < s.remove(a).len() && s.remove(a)[b] == x;
            if b < a {
                assert(s[b] == x);
            } else {
                assert(s[b + 1] == x);
            }
        }
    }
}

/// `s` sorted, and the place in it of the smallest value above `t` (with `forbid`, the
/// smallest one other than `q`).
fn sorted_pick(s: &Vec<usize>, t: usize, forbid: bool, p: usize, q: usize) -> (res: (Vec<usize>, usize))
    requires
        distinct(s@),
        forbid ==> s@.contains(p) && s@.contains(q),
        exists|j: int| 0 <= j < s@.len() && #[trigger] s@[j] > t && (forbid ==> s@[j] != q),
    ensures
        res.0@.to_multiset() == s@.to_multiset(),
        res.0@.len() == s@.len(),
        in_order(res.0@),
        distinct(res.0@),
        res.1 < res.0@.len(),
        res.0@[res.1 as int] > t,
        forbid ==> res.0@[res.1 as int] != q,
        forbid ==> res.0@.contains(p) && res.0@.contains(q),
        forall|k: int| 0 <= k < res.1 ==> #[trigger] res.0@[k] <= t || (forbid && res.0@[k] == q),
{
    broadcast use vstd::seq_lib::group_to_multiset_ensures;

    let asc = sort_by_key(s.as_slice());
    proof {
        lemma_distinct_rearranged(s@, asc@);
        assert(asc@.len() == s@.len()) by {
            assert(asc@.to_multiset().len() == s@.to_multiset().len());
        }
        let j = choose|j: int| 0 <= j < s@.len() && #[trigger] s@[j] > t && (forbid ==> s@[j] != q);
        assert(s@.contains(s@[j]));
        assert(s@.to_multiset().count(s@[j]) > 0);
        assert(asc@.to_multiset().count(s@[j]) > 0);
        assert(asc@.contains(s@[j]));
        if forbid {
            assert(s@.to_multiset().count(p) > 0 && s@.to_multiset().count(q) > 0);
            assert(asc@.to_multiset().count(p) > 0 && asc@.to_multiset().count(q) > 0);
            assert(asc@.contains(p));
            assert(asc@.contains(q));
        }
    }
    let mut jv = first_above(&asc, t);
    if forbid && asc[jv] == q {
        proof {
            let j = choose|j: int| 0 <= j < s@.len() && #[trigger] s@[j] > t && (forbid ==> s@[j] != q);
            assert(s@.contains(s@[j]));
            assert(s@.to_multiset().count(s@[j]) > 0);
            assert(asc@.to_multiset().count(s@[j]) > 0);
            assert(asc@.contains(s@[j]));
            let k = choose|k: int| 0 <= k < asc@.len() && asc@[k] == s@[j];
            assert(asc@[k] > q) by {
                if asc@[k] < q {
                    lemma_sorted_places(asc@, k, jv as int);
                }
            }
        }
        let j1 = jv;
        jv = first_above(&asc, q);
        proof {
            assert forall|k: int| 0 <= k < jv implies #[trigger] asc@[k] <= t || (forbid && asc@[k] == q) by {
                if asc@[k] > t {
                    assert(k >= j1);
                    if k > j1 {
                        lemma_sorted_places(asc@, k, j1 as int);
                    }
                }
            }
        }
    }
    (asc, jv)
}

/// `v` followed by `rest`.
fn prepend(v: usize, rest: &Vec<usize>) -> (r: Vec<usize>)
    ensures
        r@ == seq![v] + rest@,
{
    let mut r: Vec<usize> = Vec::new();
    r.push(v);
    let mut k: usize = 0;
    while k < rest.len()
        invariant
            k <= rest@.len(),
            r@ == seq![v] + rest@.take(k as int),
        decreases rest@.len() - k,
    {
        r.push(rest[k]);
        k = k + 1;
        assert(r@ =~= seq![v] + rest@.take(k as int));
    }
    assert(rest@.take(rest@.len() as int) =~= rest@);
    r
}

/// The tail of the answer, made of the values `s` (all different): the smallest value above
/// `t` first (with `forbid`, the smallest one other than `q`), then the rest in increasing
/// order, except that with `forbid`, when `q < p` and the first value is not `p`, `q` comes
/// right after `p`.
#[verifier::rlimit(40)]
fn arrange_tail(s: &Vec<usize>, t: usize, forbid: bool, p: usize, q: usize) -> (r: Vec<usize>)
    requires
        distinct(s@),
        p != q,
        forbid ==> s@.contains(p) && s@.contains(q),
        exists|j: int| 0 <= j < s@.len() && #[trigger] s@[j] > t && (forbid ==> s@[j] != q),
    ensures
        r@.to_multiset() == s@.to_multiset(),
        r@.len() == s@.len(),
        r@.len() > 0,
        r@[0] > t,
        forbid ==> r@[0] != q,
        forbid ==> comes_before(r@, p, q),
        forall|x: int| 0 <= x < s@.len() && s@[x] > t && !(forbid && s@[x] == q) ==> r@[0] <= #[trigger] s@[x],
        forall|u: Seq<usize>|
            u.to_multiset() == r@.skip(1).to_multiset() && (forbid && r@[0] != p ==> comes_before(u, p, q))
                ==> #[trigger] lex_at_most(r@.skip(1), u),
{
    broadcast use vstd::seq_lib::group_to_multiset_ensures;

    let (asc, jv) = sorted_pick(s, t, forbid, p, q);
    let ghost a0 = asc@;
    let mut rest = asc;
    let v = rest.remove(jv);
    proof {
        assert(rest@ == a0.remove(jv as int));
        assert(rest@.to_multiset() == a0.to_multiset().remove(v));
        assert(v > t);
        if forbid {
            assert(v != q);
        }
    }
    let ghost r0 = rest@;
    let ghost mut gp: int = 0;
    let ghost mut gq: int = 0;
    proof {
        lemma_remove_sorted(a0, jv as int);
    }
    if forbid && v != p && p > q {
        proof {
            assert(a0.contains(p) && a0.contains(q));
            let kp = choose|k: int| 0 <= k < a0.len() && a0[k] == p;
            let kq = choose|k: int| 0 <= k < a0.len() && a0[k] == q;
            if kp < jv {
                assert(r0[kp] == p);
            } else {
                assert(r0[kp - 1] == p);
            }
            if kq < jv {
                assert(r0[kq] == q);
            } else {
                assert(r0[kq - 1] == q);
            }
        }
        let iq = place_of(&rest, q);
        proof {
            gq = iq as int;
        }
        rest.remove(iq);
        proof {
            let kp = choose|k: int| 0 <= k < r0.len() && r0[k] == p;
            if kp < iq {
                assert(rest@[kp] == p);
            } else {
                assert(kp != iq);
                assert(rest@[kp - 1] == p);
            }
        }
        let ip = place_of(&rest, p);
        let len = rest.len();
        assert(ip < len);
        rest.insert(ip + 1, q);
        proof {
            assert(rest@[ip as int] == p && rest@[ip + 1] == q);
            gp = ip as int;
        }
    }
    let r = prepend(v, &rest);
    proof {
        assert(rest@.to_multiset() == r0.to_multiset());
        assert(r@.to_multiset() == s@.to_multiset()) by {
            assert(r@ =~= seq![v] + rest@);
            vstd::seq_lib::lemma_multiset_commutative(seq![v], rest@);
            assert(seq![v].to_multiset() =~= vstd::multiset::Multiset::singleton(v));
            assert(a0.to_multiset() == a0.to_multiset().remove(v).insert(v));
        }
        if forbid {
            if v == p {
                assert(rest@.to_multiset().count(q) > 0);
                assert(rest@.contains(q));
                let k2 = choose|k2: int| 0 <= k2 < rest@.len() && rest@[k2] == q;
                assert(r@[0] == p && r@[k2 + 1] == q);
            } else if p > q {
                assert(r@[gp + 1] == p && r@[gp + 2] == q);
            } else {
                let kp = choose|k: int| 0 <= k < a0.len() && a0[k] == p;
                let kq = choose|k: int| 0 <= k < a0.len() && a0[k] == q;
                lemma_sorted_places(a0, kp, kq);
                assert(kp != jv && kq != jv);
                let ip = if kp < jv { kp } else { kp - 1 };
                let iq = if kq < jv { kq } else { kq - 1 };
                assert(rest@[ip] == p && rest@[iq] == q && ip < iq);
                assert(r@[ip + 1] == p && r@[iq + 1] == q);
            }
        }
        assert(r@.skip(1) =~= rest@);
        lemma_pick_least(s@, a0, jv as int, t, forbid, q);
        lemma_rest_least(r0, rest@, forbid && v != p && p > q, gq, gp, p, q);
    }
    r
}

/// The value picked first is the smallest allowed one.
proof fn lemma_pick_least(s: Seq<usize>, a0: Seq<usize>, jv: int, t: usize, forbid: bool, q: usize)
    requires
        a0.to_multiset() == s.to_multiset(),
        in_order(a0),
        0 <= jv < a0.len(),
        forall|k: int| 0 <= k < jv ==> #[trigger] a0[k] <= t || (forbid && a0[k] == q),
    ensures
        forall|x: int| 0 <= x < s.len() && s[x] > t && !(forbid && s[x] == q) ==> a0[jv] <= #[trigger] s[x],
{
    broadcast use vstd::seq_lib::group_to_multiset_ensures;

    assert forall|x: int| 0 <= x < s.len() && s[x] > t && !(forbid && s[x] == q) implies a0[jv] <= #[trigger] s[x] by {
        assert(s.contains(s[x]));
        assert(s.to_multiset().count(s[x]) > 0);
        assert(a0.to_multiset().count(s[x]) > 0);
        assert(a0.contains(s[x]));
        let kx = choose|kx: int| 0 <= kx < a0.len() && a0[kx] == s[x];
        if kx < jv {
            assert(a0[kx] <= t || (forbid && a0[kx] == q));
        }
        if kx > jv {
            assert(a0[jv].key() <= a0[kx].key());
        }
    }
}

/// What follows the first value comes first among the arrangements allowed.
proof fn lemma_rest_least(r0: Seq<usize>, rest: Seq<usize>, lifted: bool, gq: int, gp: int, p: usize, q: usize)
    requires
        in_order(r0),
        distinct(r0),
        lifted ==> 0 <= gq < r0.len() && r0[gq] == q && q < p && 0 <= gp < r0.len() - 1 && r0.remove(gq)[gp] == p
            && rest == r0.remove(gq).insert(gp + 1, q),
        !lifted ==> rest == r0,
    ensures
        forall|u: Seq<usize>|
            u.to_multiset() == rest.to_multiset() && (lifted ==> comes_before(u, p, q)) ==> #[trigger] lex_at_most(rest, u),
{
    broadcast use vstd::seq_lib::group_to_multiset_ensures;

    assert forall|u: Seq<usize>|
        u.to_multiset() == rest.to_multiset() && (lifted ==> comes_before(u, p, q)) implies #[trigger] lex_at_most(rest, u) by {
        if lifted {
            let ipr0 = gp + 1;
            assert(r0[ipr0] == p) by {
                assert(r0.to_multiset().count(p) > 0) by {
                    assert(r0.remove(gq).contains(p));
                    assert(r0.remove(gq).to_multiset().count(p) > 0);
                }
                assert(r0.contains(p));
                let kp = choose|k: int| 0 <= k < r0.len() && r0[k] == p;
                lemma_sorted_places(r0, gq, kp);
                lemma_remove_sorted(r0, gq);
                assert(r0.remove(gq)[kp - 1] == p);
                if kp - 1 != gp {
                    if kp - 1 < gp {
                        assert(r0.remove(gq)[kp - 1] != r0.remove(gq)[gp]);
                    } else {
                        assert(r0.remove(gq)[gp] != r0.remove(gq)[kp - 1]);
                    }
                }
            }
            assert(rest.to_multiset() == r0.to_multiset());
            lemma_delayed_least(r0, gq, ipr0, u, p, q);
        } else {
            lemma_sorted_least(r0, u);
        }
    }
}

/// Taking one value out of a list in increasing order without repeats leaves one.
proof fn lemma_remove_sorted(x: Seq<usize>, i: int)
    requires
        in_order(x),
        distinct(x),
        0 <= i < x.len(),
    ensures
        in_order(x.remove(i)),
        distinct(x.remove(i)),
{
    let y = x.remove(i);
    assert forall|a: int, b: int| 0 <= a < b < y.len() implies y[a].key() <= y[b].key() && y[a] != y[b] by {
        let xa = if a < i { a } else { a + 1 };
        let xb = if b < i { b } else { b + 1 };
        assert(y[a] == x[xa] && y[b] == x[xb]);
    }
}


/// For each `i <= n`, the largest of `a[i..]`, leaving out the value `skip` when `use_skip`
/// holds, or `0` when nothing is left.
fn suffix_max(a: &Vec<usize>, skip: usize, use_skip: bool) -> (m: Vec<usize>)
    ensures
        m@.len() == a@.len() + 1,
        forall|i: int|
            0 <= i <= a@.len() ==> (#[trigger] m@[i] == 0 || exists|j: int|
                i <= j < a@.len() && a@[j] == m@[i] && !(use_skip && a@[j] == skip)),
        forall|i: int, j: int|
            0 <= i <= j < a@.len() && !(use_skip && a@[j] == skip) ==> #[trigger] a@[j] <= #[trigger] m@[i],
{
    let n = a.len();
    let mut m: Vec<usize> = Vec::new();
    m.push(0);
    let mut k: usize = 0;
    while k < n
        invariant
            n == a@.len(),
            k <= n,
            m@.len() == k + 1,
            forall|i: int| 0 <= i <= k ==> #[trigger] m@[i] == 0,
        decreases n - k,
    {
        m.push(0);
        k = k + 1;
    }
    let mut i = n;
    while i > 0
        invariant
            n == a@.len(),
            i <= n,
            m@.len() == n + 1,
            m@[n as int] == 0,
            forall|x: int|
                i <= x <= n ==> (#[trigger] m@[x] == 0 || exists|j: int|
                    x <= j < n && a@[j] == m@[x] && !(use_skip && a@[j] == skip)),
            forall|x: int, j: int| i <= x <= j < n && !(use_skip && a@[j] == skip) ==> #[trigger] a@[j] <= #[trigger] m@[x],
        decreases i,
    {
        i = i - 1;
        let x = a[i];
        let prev = m[i + 1];
        let cur = if use_skip && x == skip {
            prev
        } else if x > prev {
            x
        } else {
            prev
        };
        m.set(i, cur);
        proof {
            assert forall|y: int, j: int| i <= y <= j < n && !(use_skip && a@[j] == skip) implies #[trigger] a@[j] <= #[trigger] m@[y] by {
                if y == i && j > i {
                    assert(a@[j] <= m@[i + 1]);
                }
            }
            assert(m@[i as int] == 0 || exists|j: int|
                i <= j < n && a@[j] == m@[i as int] && !(use_skip && a@[j] == skip)) by {
                if cur != 0 && cur == prev {
                    let j = choose|j: int| i + 1 <= j < n && a@[j] == m@[i + 1] && !(use_skip && a@[j] == skip);
                    assert(a@[j] == m@[i as int]);
                } else if cur != 0 {
                    assert(a@[i as int] == m@[i as int]);
                }
            }
        }
    }
    m
}

/// The elements of `a` from place `i` on.
fn suffix_of(a: &Vec<usize>, i: usize) -> (s: Vec<usize>)
    requires
        i <= a@.len(),
    ensures
        s@ == a@.skip(i as int),
{
    let mut s: Vec<usize> = Vec::new();
    let mut k = i;
    while k < a.len()
        invariant
            i <= k <= a@.len(),
            s@ == a@.subrange(i as int, k as int),
        decreases a@.len() - k,
    {
        s.push(a[k]);
        k = k + 1;
        assert(s@ =~= a@.subrange(i as int, k as int));
    }
    assert(a@.subrange(i as int, a@.len() as int) =~= a@.skip(i as int));
    s
}

/// The elements of `a` before place `i`, then those of `tail`.
fn splice_tail(a: &Vec<usize>, i: usize, tail: &Vec<usize>) -> (b: Vec<usize>)
    requires
        i <= a@.len(),
    ensures
        b@ == a@.take(i as int) + tail@,
{
    let mut b: Vec<usize> = Vec::new();
    let mut k: usize = 0;
    while k < i
        invariant
            k <= i <= a@.len(),
            b@ == a@.take(k as int),
        decreases i - k,
    {
        b.push(a[k]);
        k = k + 1;
        assert(b@ =~= a@.take(k as int));
    }
    let mut j: usize = 0;
    while j < tail.len()
        invariant
            j <= tail@.len(),
            b@ == a@.take(i as int) + tail@.take(j as int),
        decreases tail@.len() - j,
    {
        b.push(tail[j]);
        j = j + 1;
        assert(b@ =~= a@.take(i as int) + tail@.take(j as int));
    }
    assert(tail@.take(tail@.len() as int) =~= tail@);
    b
}

/// The smallest arrangement of `a` (whose values all differ) that comes after `a` in
/// lexicographic order and has `p` before `q`, when there is one.
///
/// Such an arrangement keeps some prefix `a[..i]` and puts a larger value at `i`; the larger
/// `i`, the smaller the arrangement. With `p` before `q` in `a`, any `i` past `p` works as long
/// as a larger value follows `a[i]`. Otherwise (and when that fails) `i` must come no later
/// than both, and the value put at `i` must not be `q`.
pub fn next_with_order(a: &Vec<usize>, p: usize, q: usize) -> (r: Option<Vec<usize>>)
    requires
        distinct(a@),
        a@.contains(p),
        a@.contains(q),
        p != q,
    ensures
        match r {
            Some(b) => valid_after(a@, p, q, b@) && forall|c: Seq<usize>| #[trigger] valid_after(a@, p, q, c) ==> lex_at_most(b@, c),
            None => forall|c: Seq<usize>| !#[trigger] valid_after(a@, p, q, c),
        },
{
    broadcast use vstd::seq_lib::group_to_multiset_ensures;

    let n = a.len();
    let pos_p = place_of(a, p);
    let pos_q = place_of(a, q);
    let suf_max = suffix_max(a, q, false);
    let suf_max_not_q = suffix_max(a, q, true);
    let lo = if pos_p < pos_q {
        pos_p
    } else {
        pos_q
    };
    let first = if pos_p < pos_q {
        last_rise(a, &suf_max, pos_p + 1, n)
    } else {
        None
    };
    let second = match first {
        Some(_) => None,
        None => last_rise(a, &suf_max_not_q, 0, lo + 1),
    };
    let found = match first {
        Some(i) => Some((i, false)),
        None => match second {
            Some(i) => Some((i, true)),
            None => None,
        },
    };
    let ghost m1 = suf_max@;
    let ghost m2 = suf_max_not_q@;
    proof {
        assert(pos_p < pos_q && first is None ==> forall|k: int| pos_p + 1 <= k < n ==> !(a@[k] < #[trigger] m1[k + 1]));
        assert(first is None && second is None ==> forall|k: int| 0 <= k < lo + 1 ==> !(a@[k] < #[trigger] m2[k + 1]));
    }
    match found {
        None => {
            proof {
                assert forall|c: Seq<usize>| !#[trigger] valid_after(a@, p, q, c) by {
                    if valid_after(a@, p, q, c) {
                        let k = lemma_first_rise(a@, c, p, q, pos_p as int, pos_q as int);
                        let j = choose|j: int| k < j < a@.len() && #[trigger] a@[j] == c[k];
                        if pos_p < pos_q && pos_p < k {
                            assert(a@[j] <= m1[k + 1]);
                        } else {
                            assert(a@[j] <= m2[k + 1]);
                        }
                    }
                }
            }
            None
        },
        Some((i, forbid)) => {
            let s = suffix_of(a, i);
            let m = if forbid {
                &suf_max_not_q
            } else {
                &suf_max
            };
            proof {
                let j = choose|j: int| i + 1 <= j < n && a@[j] == m@[i + 1] && !(forbid && a@[j] == q);
                assert(s@[j - i] == a@[j]);
                assert(s@[j - i] > a@[i as int]);
                lemma_distinct_skip(a@, i as int);
                if forbid {
                    assert(s@[pos_p - i] == p);
                    assert(s@[pos_q - i] == q);
                }
            }
            let tail = arrange_tail(&s, a[i], forbid, p, q);
            let b = splice_tail(a, i, &tail);
            proof {
                lemma_answer_valid(a@, i as int, forbid, s@, tail@, b@, p, q, pos_p as int, pos_q as int);
                assert forall|c: Seq<usize>| #[trigger] valid_after(a@, p, q, c) implies lex_at_most(b@, c) by {
                    lemma_answer_least(a@, p, q, pos_p as int, pos_q as int, lo as int, m1, m2, i as int, forbid, s@, tail@, b@, c);
                }
            }
            Some(b)
        },
    }
}

/// Any valid arrangement comes no earlier than the answer assembled at place `i`.
#[verifier::rlimit(40)]
proof fn lemma_answer_least(
    a: Seq<usize>,
    p: usize,
    q: usize,
    pos_p: int,
    pos_q: int,
    lo: int,
    m1: Seq<usize>,
    m2: Seq<usize>,
    i: int,
    forbid: bool,
    s: Seq<usize>,
    tail: Seq<usize>,
    b: Seq<usize>,
    c: Seq<usize>,
)
    requires
        distinct(a),
        p != q,
        0 <= pos_p < a.len(),
        0 <= pos_q < a.len(),
        a[pos_p] == p,
        a[pos_q] == q,
        lo == if pos_p < pos_q { pos_p } else { pos_q },
        m1.len() == a.len() + 1,
        m2.len() == a.len() + 1,
        forall|x: int, j: int| 0 <= x <= j < a.len() ==> #[trigger] a[j] <= #[trigger] m1[x],
        forall|x: int, j: int| 0 <= x <= j < a.len() && a[j] != q ==> #[trigger] a[j] <= #[trigger] m2[x],
        0 <= i < a.len(),
        !forbid ==> pos_p < pos_q && pos_p < i && forall|k: int| i < k < a.len() ==> !(a[k] < #[trigger] m1[k + 1]),
        forbid ==> i <= lo && forall|k: int| i < k <= lo ==> !(a[k] < #[trigger] m2[k + 1]),
        forbid && pos_p < pos_q ==> forall|k: int| pos_p < k < a.len() ==> !(a[k] < #[trigger] m1[k + 1]),
        s == a.skip(i),
        tail.len() == s.len(),
        tail.len() > 0,
        tail[0] > a[i],
        forbid ==> tail[0] != q,
        forall|x: int| 0 <= x < s.len() && s[x] > a[i] && !(forbid && s[x] == q) ==> tail[0] <= #[trigger] s[x],
        forall|u: Seq<usize>|
            u.to_multiset() == tail.skip(1).to_multiset() && (forbid && tail[0] != p ==> comes_before(u, p, q))
                ==> #[trigger] lex_at_most(tail.skip(1), u),
        b == a.take(i) + tail,
        valid_after(a, p, q, b),
        valid_after(a, p, q, c),
    ensures
        lex_at_most(b, c),
{
    broadcast use vstd::seq_lib::group_to_multiset_ensures;

    let k = lemma_first_rise(a, c, p, q, pos_p, pos_q);
    let j = choose|j: int| k < j < a.len() && #[trigger] a[j] == c[k];
    let d1 = pos_p < pos_q && pos_p < k;
    if d1 {
        assert(a[j] <= m1[k + 1]);
    } else {
        assert(a[j] <= m2[k + 1]);
    }
    assert(k <= i);
    assert(b.len() == c.len()) by {
        assert(b.to_multiset().len() == b.len());
        assert(c.to_multiset().len() == c.len());
    }
    assert(b.take(i) =~= a.take(i));
    if k < i {
        assert(b.take(k) =~= a.take(i).take(k));
        assert(a.take(k) =~= a.take(i).take(k));
        assert(b[k] == a[k]);
        assert(lex_less(b, c));
    } else {
        assert(s[j - i] == a[j]);
        assert(tail[0] <= c[i]);
        assert(b[i] == tail[0]);
        assert(c.take(i) =~= a.take(i));
        if tail[0] < c[i] {
            assert(lex_less(b, c));
        } else {
            assert(b.take(i + 1) =~= c.take(i + 1));
            if i + 1 < b.len() {
                lemma_same_rest(b, c, i + 1);
                assert(b.skip(i + 1) =~= tail.skip(1));
                let u = c.skip(i + 1);
                if forbid && tail[0] != p {
                    lemma_distinct_rearranged(a, c);
                    assert(c.to_multiset().count(p) > 0 && c.to_multiset().count(q) > 0);
                    assert(c.contains(p) && c.contains(q));
                    let xp = choose|x: int| 0 <= x < c.len() && c[x] == p;
                    let xq = choose|x: int| 0 <= x < c.len() && c[x] == q;
                    lemma_before_places(c, p, q, xp, xq);
                    assert(xp > i) by {
                        if xp < i {
                            assert(c.take(i)[xp] == a.take(i)[xp]);
                            if xp != pos_p {
                                if xp < pos_p {
                                    assert(a[xp] != a[pos_p]);
                                } else {
                                    assert(a[pos_p] != a[xp]);
                                }
                            }
                        }
                    }
                    assert(u[xp - i - 1] == p && u[xq - i - 1] == q);
                }
                assert(lex_at_most(tail.skip(1), u));
                lemma_lex_extend(b, c, i + 1);
            } else {
                assert(b =~= b.take(i + 1));
                assert(c =~= c.take(i + 1));
            }
        }
    }
}

/// The assembled answer rearranges `a`, comes after it and has `p` before `q`.
proof fn lemma_answer_valid(
    a: Seq<usize>,
    i: int,
    forbid: bool,
    s: Seq<usize>,
    tail: Seq<usize>,
    b: Seq<usize>,
    p: usize,
    q: usize,
    pos_p: int,
    pos_q: int,
)
    requires
        0 <= i < a.len(),
        0 <= pos_p < a.len(),
        0 <= pos_q < a.len(),
        a[pos_p] == p,
        a[pos_q] == q,
        s == a.skip(i),
        tail.to_multiset() == s.to_multiset(),
        tail.len() == s.len(),
        tail.len() > 0,
        tail[0] > a[i],
        forbid ==> comes_before(tail, p, q),
        !forbid ==> pos_p < i && pos_p < pos_q,
        b == a.take(i) + tail,
    ensures
        b.to_multiset() == a.to_multiset(),
        lex_less(a, b),
        comes_before(b, p, q),
{
    broadcast use vstd::seq_lib::group_to_multiset_ensures;

    assert(a =~= a.take(i) + a.skip(i));
    vstd::seq_lib::lemma_multiset_commutative(a.take(i), a.skip(i));
    vstd::seq_lib::lemma_multiset_commutative(a.take(i), tail);
    assert(b.take(i) =~= a.take(i));
    assert(b[i] == tail[0]);
    assert(a[i] < b[i]);
    if forbid {
        let (x, y) = choose|x: int, y: int| 0 <= x < y < tail.len() && #[trigger] tail[x] == p && #[trigger] tail[y] == q;
        assert(b[i + x] == p && b[i + y] == q);
    } else {
        assert(b[pos_p] == p);
        if pos_q < i {
            assert(b[pos_q] == q);
        } else {
            assert(s[pos_q - i] == q);
            assert(s.contains(q));
            assert(s.to_multiset().count(q) > 0);
            assert(tail.to_multiset().count(q) > 0);
            assert(tail.contains(q));
            let y = choose|y: int| 0 <= y < tail.len() && tail[y] == q;
            assert(b[i + y] == q);
        }
    }
}

/// Two rearrangements of one another that agree before place `k` hold the same values from
/// `k` on: what the second has at `k`, the first has at `k` or later.
proof fn lemma_same_rest(x: Seq<usize>, u: Seq<usize>, k: int)
    requires
        x.to_multiset() == u.to_multiset(),
        0 <= k < x.len(),
        k < u.len(),
        x.take(k) == u.take(k),
    ensures
        x.skip(k).to_multiset() == u.skip(k).to_multiset(),
        exists|j: int| k <= j < x.len() && #[trigger] x[j] == u[k],
{
    broadcast use vstd::seq_lib::group_to_multiset_ensures;

    assert(x =~= x.take(k) + x.skip(k));
    assert(u =~= u.take(k) + u.skip(k));
    vstd::seq_lib::lemma_multiset_commutative(x.take(k), x.skip(k));
    vstd::seq_lib::lemma_multiset_commutative(u.take(k), u.skip(k));
    assert(x.skip(k).to_multiset() =~= u.skip(k).to_multiset()) by {
        assert forall|v: usize| x.skip(k).to_multiset().count(v) == u.skip(k).to_multiset().count(v) by {
            assert(x.to_multiset().count(v) == x.take(k).to_multiset().count(v) + x.skip(k).to_multiset().count(v));
            assert(u.to_multiset().count(v) == u.take(k).to_multiset().count(v) + u.skip(k).to_multiset().count(v));
        }
    }
    assert(u.skip(k)[0] == u[k]);
    assert(u.skip(k).contains(u[k]));
    assert(u.skip(k).to_multiset().count(u[k]) > 0);
    assert(x.skip(k).to_multiset().count(u[k]) > 0);
    assert(x.skip(k).contains(u[k]));
    let j = choose|j: int| 0 <= j < x.skip(k).len() && x.skip(k)[j] == u[k];
    assert(x[j + k] == u[k]);
}

/// In a list whose values all differ, `p` before `q` means: wherever `p` is, `q` is later.
proof fn lemma_before_places(c: Seq<usize>, p: usize, q: usize, xp: int, xq: int)
    requires
        distinct(c),
        comes_before(c, p, q),
        0 <= xp < c.len(),
        0 <= xq < c.len(),
        c[xp] == p,
        c[xq] == q,
    ensures
        xp < xq,
{
    let (x, y) = choose|x: int, y: int| 0 <= x < y < c.len() && #[trigger] c[x] == p && #[trigger] c[y] == q;
    if x != xp {
        if x < xp {
            assert(c[x] != c[xp]);
        } else {
            assert(c[xp] != c[x]);
        }
    }
    if y != xq {
        if y < xq {
            assert(c[y] != c[xq]);
        } else {
            assert(c[xq] != c[y]);
        }
    }
}

/// `a` is `b` or comes before it in lexicographic order.
pub open spec fn lex_at_most(a: Seq<usize>, b: Seq<usize>) -> bool {
    a == b || lex_less(a, b)
}

/// Two different lists of one length first differ somewhere.
proof fn lemma_first_difference(x: Seq<usize>, u: Seq<usize>, i: int) -> (k: int)
    requires
        x.len() == u.len(),
        0 <= i <= x.len(),
        x.take(i) == u.take(i),
        x != u,
    ensures
        i <= k < x.len(),
        x.take(k) == u.take(k),
        x[k] != u[k],
    decreases x.len() - i,
{
    if i == x.len() {
        assert(x =~= x.take(i));
        assert(u =~= u.take(i));
        assert(false);
        0
    } else if x[i] != u[i] {
        i
    } else {
        assert(x.take(i + 1) =~= x.take(i).push(x[i]));
        assert(u.take(i + 1) =~= u.take(i).push(u[i]));
        lemma_first_difference(x, u, i + 1)
    }
}

/// The values in increasing order come first, in lexicographic order, among all their
/// arrangements.
proof fn lemma_sorted_least(x: Seq<usize>, u: Seq<usize>)
    requires
        in_order(x),
        distinct(x),
        u.to_multiset() == x.to_multiset(),
    ensures
        lex_at_most(x, u),
{
    broadcast use vstd::seq_lib::group_to_multiset_ensures;

    assert(u.len() == x.len()) by {
        assert(u.to_multiset().len() == u.len());
        assert(x.to_multiset().len() == x.len());
    }
    if x != u {
        assert(x.take(0) =~= u.take(0));
        let k = lemma_first_difference(x, u, 0);
        lemma_same_rest(x, u, k);
        let j = choose|j: int| k <= j < x.len() && #[trigger] x[j] == u[k];
        assert(x[k].key() <= x[j].key());
        assert(x[k] < u[k]);
    }
}

/// Listing the values in increasing order, except that `q` waits until right after `p`
/// (`q < p`), comes first among the arrangements that have `p` before `q`.
proof fn lemma_delayed_least(x: Seq<usize>, iq: int, ip: int, u: Seq<usize>, p: usize, q: usize)
    requires
        in_order(x),
        distinct(x),
        0 <= iq < ip < x.len(),
        x[iq] == q,
        x[ip] == p,
        u.to_multiset() == x.to_multiset(),
        comes_before(u, p, q),
    ensures
        lex_at_most(x.remove(iq).insert(ip, q), u),
{
    broadcast use vstd::seq_lib::group_to_multiset_ensures;

    let y = x.remove(iq).insert(ip, q);
    assert(y.to_multiset() == x.to_multiset());
    assert(u.len() == x.len() && y.len() == x.len()) by {
        assert(u.to_multiset().len() == x.to_multiset().len());
        assert(y.to_multiset().len() == x.to_multiset().len());
    }
    assert forall|k: int| 0 <= k < y.len() implies #[trigger] y[k] == if k < iq {
        x[k]
    } else if k < ip {
        x[k + 1]
    } else if k == ip {
        q
    } else {
        x[k]
    } by {}
    assert forall|k: int, j: int| 0 <= k < j < y.len() && !(j == ip && iq <= k < ip) implies #[trigger] y[k] < #[trigger] y[j] by {
        let xk = if k < iq { k } else if k < ip { k + 1 } else if k == ip { iq } else { k };
        let xj = if j < iq { j } else if j < ip { j + 1 } else if j == ip { iq } else { j };
        assert(y[k] == x[xk] && y[j] == x[xj]);
        assert(xk < xj);
        assert(x[xk].key() <= x[xj].key());
        assert(x[xk] != x[xj]);
    }
    lemma_distinct_rearranged(x, y);
    lemma_distinct_rearranged(x, u);
    if y != u {
        assert(y.take(0) =~= u.take(0));
        let k = lemma_first_difference(y, u, 0);
        lemma_same_rest(y, u, k);
        let j = choose|j: int| k <= j < y.len() && #[trigger] y[j] == u[k];
        if j == ip && iq <= k < ip {
            assert(u[k] == q);
            assert(u.to_multiset().count(p) > 0);
            assert(u.contains(p));
            let xp = choose|xp: int| 0 <= xp < u.len() && u[xp] == p;
            lemma_before_places(u, p, q, xp, k);
            assert(u.take(k)[xp] == y.take(k)[xp]);
            assert(u[xp] == y[xp]);
            assert(y[ip - 1] == p);
            assert(y[xp] == p);
            assert(xp == ip - 1) by {
                if xp != ip - 1 {
                    if xp < ip - 1 {
                        assert(y[xp] != y[ip - 1]);
                    } else {
                        assert(y[ip - 1] != y[xp]);
                    }
                }
            }
        }
        assert(y[k] < y[j]);
    }
}

/// `b` rearranges `a`, comes after it in lexicographic order and has `p` before `q`.
pub open spec fn valid_after(a: Seq<usize>, p: usize, q: usize, b: Seq<usize>) -> bool {
    &&& b.to_multiset() == a.to_multiset()
    &&& lex_less(a, b)
    &&& comes_before(b, p, q)
}

/// Where a valid arrangement first rises above `a`: a larger value of `a` comes later, and
/// either `p` precedes `q` in `a` and the place is past `p`, or the place is at or before
/// both and what is put there is not `q`.
proof fn lemma_first_rise(a: Seq<usize>, c: Seq<usize>, p: usize, q: usize, pos_p: int, pos_q: int) -> (k: int)
    requires
        distinct(a),
        p != q,
        0 <= pos_p < a.len(),
        0 <= pos_q < a.len(),
        a[pos_p] == p,
        a[pos_q] == q,
        valid_after(a, p, q, c),
    ensures
        0 <= k < a.len(),
        k < c.len(),
        a.take(k) == c.take(k),
        a[k] < c[k],
        exists|j: int| k < j < a.len() && #[trigger] a[j] == c[k],
        (pos_p < pos_q && pos_p < k) || (k <= pos_p && k <= pos_q && c[k] != q),
{
    broadcast use vstd::seq_lib::group_to_multiset_ensures;

    let k = choose|k: int| 0 <= k < a.len() && a.take(k) == c.take(k) && #[trigger] a[k] < c[k];
    lemma_same_rest(a, c, k);
    let j = choose|j: int| k <= j < a.len() && #[trigger] a[j] == c[k];
    assert(j != k);
    lemma_distinct_rearranged(a, c);
    assert(c.to_multiset().count(p) > 0);
    assert(c.contains(p));
    let xp = choose|xp: int| 0 <= xp < c.len() && c[xp] == p;
    if pos_p < pos_q && pos_p < k {
    } else if k <= pos_p && k <= pos_q {
        if c[k] == q {
            lemma_before_places(c, p, q, xp, k);
            assert(c.take(k)[xp] == a.take(k)[xp]);
            assert(a[xp] == p);
            if xp != pos_p {
                if xp < pos_p {
                    assert(a[xp] != a[pos_p]);
                } else {
                    assert(a[pos_p] != a[xp]);
                }
            }
        }
    } else {
        assert(pos_q < k);
        assert(c.take(k)[pos_q] == a.take(k)[pos_q]);
        assert(c[pos_q] == q);
        lemma_before_places(c, p, q, xp, pos_q);
        assert(c.take(k)[xp] == a.take(k)[xp]);
        assert(a[xp] == p);
        if xp != pos_p {
            if xp < pos_p {
                assert(a[xp] != a[pos_p]);
            } else {
                assert(a[pos_p] != a[xp]);
            }
        }
    }
    k
}

/// Lists that agree up to place `i` compare as what follows does.
proof fn lemma_lex_extend(b: Seq<usize>, c: Seq<usize>, i: int)
    requires
        b.len() == c.len(),
        0 <= i <= b.len(),
        b.take(i) == c.take(i),
        lex_at_most(b.skip(i), c.skip(i)),
    ensures
        lex_at_most(b, c),
{
    if b.skip(i) == c.skip(i) {
        assert(b =~= b.take(i) + b.skip(i));
        assert(c =~= c.take(i) + c.skip(i));
    } else {
        let k = choose|k: int| 0 <= k < b.skip(i).len() && b.skip(i).take(k) == c.skip(i).take(k) && #[trigger] b.skip(i)[k] < c.skip(i)[k];
        assert(b.take(i + k) =~= b.take(i) + b.skip(i).take(k));
        assert(c.take(i + k) =~= c.take(i) + c.skip(i).take(k));
        assert(b[i + k] < c[i + k]);
    }
}

/// The last `i` in `lo..hi` with a value after `a[i]` above it, as `m` (the largest value from
/// each place on) tells.
fn last_rise(a: &Vec<usize>, m: &Vec<usize>, lo: usize, hi: usize) -> (r: Option<usize>)
    requires
        m@.len() == a@.len() + 1,
        lo <= hi <= a@.len(),
    ensures
        r matches Some(i) ==> lo <= i < hi && a@[i as int] < m@[i + 1] && forall|k: int| i < k < hi ==> !(a@[k] < #[trigger] m@[k + 1]),
        r is None ==> forall|k: int| lo <= k < hi ==> !(a@[k] < #[trigger] m@[k + 1]),
{
    let mut i = hi;
    while i > lo
        invariant
            lo <= i <= hi <= a@.len(),
            m@.len() == a@.len() + 1,
            forall|k: int| i <= k < hi ==> !(a@[k] < #[trigger] m@[k + 1]),
        decreases i,
    {
        i = i - 1;
        if a[i] < m[i + 1] {
            return Some(i);
        }
    }
    None
}

/// What follows a place of a list whose values all differ has values that all differ.
proof fn lemma_distinct_skip(a: Seq<usize>, i: int)
    requires
        distinct(a),
        0 <= i <= a.len(),
    ensures
        distinct(a.skip(i)),
{
    assert forall|x: int, y: int| 0 <= x < y < a.skip(i).len() implies a.skip(i)[x] != a.skip(i)[y] by {
        assert(a.skip(i)[x] == a[x + i] && a.skip(i)[y] == a[y + i]);
    }
}

} // verus!
