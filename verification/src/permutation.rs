use vstd::prelude::*;
use vstd::seq_lib::lemma_multiset_commutative;
use crate::ranges::{lawful_order, lemma_order, less, lt};

verus! {

/// `a` goes before `b` in the direction of travel: upwards (`a < b`) or downwards (`a > b`).
pub open spec fn turns<T: Ord>(up: bool, a: T, b: T) -> bool {
    if up {
        lt(a, b)
    } else {
        lt(b, a)
    }
}

/// The largest `i < k` with `turns(up, s[i], s[i + 1])`, or `-1` when there is none.
pub open spec fn last_turn<T: Ord>(s: Seq<T>, up: bool, k: int) -> int
    decreases k,
{
    if k <= 0 {
        -1
    } else if turns(up, s[k - 1], s[k]) {
        k - 1
    } else {
        last_turn(s, up, k - 1)
    }
}

/// The largest `j < k` with `turns(up, s[p], s[j])`, or `-1` when there is none.
pub open spec fn last_beyond<T: Ord>(s: Seq<T>, up: bool, p: int, k: int) -> int
    decreases k,
{
    if k <= 0 {
        -1
    } else if turns(up, s[p], s[k - 1]) {
        k - 1
    } else {
        last_beyond(s, up, p, k - 1)
    }
}

/// The next arrangement of `s` in the direction `up`: with `i` the last position where the
/// sequence turns and `j` the last position beyond it in that direction, swap `s[i]` and
/// `s[j]` and reverse everything after `i`.
pub open spec fn stepped<T: Ord>(s: Seq<T>, up: bool) -> Seq<T> {
    let i = last_turn(s, up, s.len() - 1);
    let j = last_beyond(s, up, i, s.len() as int);
    let t = s.update(i, s[j]).update(j, s[i]);
    t.take(i + 1) + t.skip(i + 1).reverse()
}

/// `a` comes before `b` in lexicographic order.
pub open spec fn lex_lt<T: Ord>(a: Seq<T>, b: Seq<T>) -> bool {
    &&& a.len() == b.len()
    &&& exists|k: int| 0 <= k < a.len() && a.take(k) == b.take(k) && #[trigger] lt(a[k], b[k])
}

proof fn lemma_last_turn<T: Ord>(s: Seq<T>, up: bool, k: int)
    requires
        k < s.len(),
    ensures
        -1 <= last_turn(s, up, k) < k || (k <= 0 && last_turn(s, up, k) == -1),
        last_turn(s, up, k) >= 0 ==> turns(up, s[last_turn(s, up, k)], s[last_turn(s, up, k) + 1]),
        forall|m: int| last_turn(s, up, k) < m < k ==> !turns(up, #[trigger] s[m], s[m + 1]),
    decreases k,
{
    if k > 0 && !turns(up, s[k - 1], s[k]) {
        lemma_last_turn(s, up, k - 1);
    }
}

proof fn lemma_last_beyond<T: Ord>(s: Seq<T>, up: bool, p: int, k: int)
    requires
        k <= s.len(),
    ensures
        -1 <= last_beyond(s, up, p, k) < k || (k <= 0 && last_beyond(s, up, p, k) == -1),
        last_beyond(s, up, p, k) >= 0 ==> turns(up, s[p], s[last_beyond(s, up, p, k)]),
        forall|m: int| last_beyond(s, up, p, k) < m < k ==> !turns(up, s[p], #[trigger] s[m]),
    decreases k,
{
    if k > 0 && !turns(up, s[p], s[k - 1]) {
        lemma_last_beyond(s, up, p, k - 1);
    }
}

/// `<[T]>::swap`: exchanges the elements at `i` and `j` (it panics when either is out of
/// bounds, which `requires` rules out).
#[verifier::external_body]
fn swap_at<T>(a: &mut [T], i: usize, j: usize)
    requires
        i < old(a)@.len(),
        j < old(a)@.len(),
    ensures
        final(a)@ == old(a)@.update(i as int, old(a)@[j as int]).update(j as int, old(a)@[i as int]),
{
    a.swap(i, j);
}

/// Decides `turns(up, *x, *y)`.
fn turns_at<T: Ord>(x: &T, y: &T, up: bool) -> (r: bool)
    requires
        lawful_order::<T>(),
    ensures
        r == turns(up, *x, *y),
{
    if up {
        less(x, y)
    } else {
        less(y, x)
    }
}

proof fn lemma_swap_multiset<T>(s: Seq<T>, i: int, j: int)
    requires
        0 <= i < s.len(),
        0 <= j < s.len(),
    ensures
        s.update(i, s[j]).update(j, s[i]).to_multiset() == s.to_multiset(),
{
    broadcast use vstd::seq_lib::group_to_multiset_ensures, vstd::multiset::group_multiset_axioms;

    let t = s.update(i, s[j]);
    vstd::seq_lib::to_multiset_update(s, i, s[j]);
    vstd::seq_lib::to_multiset_update(t, j, s[i]);
    assert(s.update(i, s[j]).update(j, s[i]).to_multiset() =~= s.to_multiset());
}

/// Moves `a` to its next arrangement in the direction `up`, returning `false` (and leaving
/// `a` as it is) when there is none.
fn advance<T: Ord>(a: &mut [T], up: bool) -> (r: bool)
    requires
        lawful_order::<T>(),
    ensures
        r == (last_turn(old(a)@, up, old(a)@.len() - 1) >= 0),
        r ==> final(a)@ == stepped(old(a)@, up),
        !r ==> final(a)@ == old(a)@,
{
    let ghost s = a@;
    let n = a.len();
    if n < 2 {
        return false;
    }
    let mut k = n - 1;
    proof {
        lemma_last_turn(s, up, (n - 1) as int);
    }
    while k > 0 && !turns_at(&a[k - 1], &a[k], up)
        invariant
            lawful_order::<T>(),
            a@ == s,
            n == s.len(),
            k <= n - 1,
            last_turn(s, up, (n - 1) as int) == last_turn(s, up, k as int),
        decreases k,
    {
        k = k - 1;
    }
    if k == 0 {
        return false;
    }
    let i = k - 1;
    let mut j = n - 1;
    proof {
        lemma_last_beyond(s, up, i as int, n as int);
    }
    while !turns_at(&a[i], &a[j], up)
        invariant
            lawful_order::<T>(),
            a@ == s,
            n == s.len(),
            i < j < n,
            turns(up, s[i as int], s[i + 1]),
            last_beyond(s, up, i as int, n as int) == last_beyond(s, up, i as int, j + 1),
        decreases j,
    {
        j = j - 1;
    }
    swap_at(a, i, j);
    let ghost t = a@;
    let ghost u = t.take(i + 1) + t.skip(i + 1).reverse();
    let mut lo = i + 1;
    let mut hi = n - 1;
    while lo < hi
        invariant
            n == t.len(),
            a@.len() == n,
            u == t.take(i + 1) + t.skip(i + 1).reverse(),
            i + 1 <= lo <= hi + 1,
            hi <= n - 1,
            lo + hi == n + i,
            forall|m: int| 0 <= m < n && (m < lo || m > hi) ==> #[trigger] a@[m] == u[m],
            forall|m: int| lo <= m <= hi ==> #[trigger] a@[m] == t[m],
        decreases hi + 1 - lo,
    {
        swap_at(a, lo, hi);
        lo = lo + 1;
        hi = hi - 1;
    }
    proof {
        assert forall|m: int| 0 <= m < n implies #[trigger] a@[m] == u[m] by {
            if lo <= m <= hi {
                assert(m == n + i - m);
            }
        }
        assert(a@ =~= u);
    }
    true
}

/// Rearranges `a` into the next permutation in lexicographic order, the least arrangement of
/// its elements that is larger, and returns `true`; when
/// `a` is already the last one (no element is followed by a larger one) it returns `false`
/// and leaves `a` unchanged.
pub fn next_permutation<T: Ord>(a: &mut [T]) -> (r: bool)
    requires
        lawful_order::<T>(),
    ensures
        r == exists|k: int| 0 <= k < old(a)@.len() - 1 && #[trigger] lt(old(a)@[k], old(a)@[k + 1]),
        r ==> final(a)@ == stepped(old(a)@, true),
        r ==> forall|v: Seq<T>|
            v.to_multiset() == old(a)@.to_multiset() && #[trigger] lex_lt(old(a)@, v) ==> !lex_lt(v, final(a)@),
        !r ==> final(a)@ == old(a)@,
{
    let ghost s = a@;
    proof {
        lemma_last_turn(a@, true, a@.len() - 1);
    }
    let r = advance(a, true);
    proof {
        if r {
            assert forall|v: Seq<T>|
                v.to_multiset() == s.to_multiset() && #[trigger] lex_lt(s, v) implies !lex_lt(v, a@) by {
                lemma_next_is_least(s, v);
            }
        }
    }
    r
}

/// Rearranges `a` into the previous permutation in lexicographic order, the greatest
/// arrangement of its elements that is smaller, and returns `true`;
/// when `a` is already the first one (no element is followed by a smaller one) it returns
/// `false` and leaves `a` unchanged.
pub fn prev_permutation<T: Ord>(a: &mut [T]) -> (r: bool)
    requires
        lawful_order::<T>(),
    ensures
        r == exists|k: int| 0 <= k < old(a)@.len() - 1 && #[trigger] lt(old(a)@[k + 1], old(a)@[k]),
        r ==> final(a)@ == stepped(old(a)@, false),
        r ==> forall|v: Seq<T>|
            v.to_multiset() == old(a)@.to_multiset() && #[trigger] lex_lt(v, old(a)@) ==> !lex_lt(final(a)@, v),
        !r ==> final(a)@ == old(a)@,
{
    let ghost s = a@;
    proof {
        lemma_last_turn(a@, false, a@.len() - 1);
    }
    let r = advance(a, false);
    proof {
        if r {
            assert forall|v: Seq<T>|
                v.to_multiset() == s.to_multiset() && #[trigger] lex_lt(v, s) implies !lex_lt(a@, v) by {
                lemma_prev_is_greatest(s, v);
            }
        }
    }
    r
}

/// The sequences of `len` indices into `c` that use each index `i` at most `c[i]` times, in
/// lexicographic order.
pub open spec fn arrangements(c: Seq<nat>, len: nat) -> Seq<Seq<int>>
    decreases len, c.len() + 1,
{
    if len == 0 {
        seq![Seq::<int>::empty()]
    } else {
        arrangements_from(c, len, 0)
    }
}

/// The arrangements of `len` (at least one) indices into `c` whose first index is `i` or more.
pub open spec fn arrangements_from(c: Seq<nat>, len: nat, i: int) -> Seq<Seq<int>>
    decreases len, c.len() - i,
{
    if len == 0 || i < 0 || i >= c.len() {
        Seq::empty()
    } else {
        let here = if c[i] > 0 {
            arrangements(c.update(i, (c[i] - 1) as nat), (len - 1) as nat).map_values(
                |x: Seq<int>| seq![i] + x,
            )
        } else {
            Seq::empty()
        };
        here + arrangements_from(c, len, i + 1)
    }
}

/// The counts of `counts`.
pub open spec fn counts_of<T>(counts: Seq<(T, usize)>) -> Seq<nat> {
    counts.map_values(|p: (T, usize)| p.1 as nat)
}

/// The values of `counts`.
pub open spec fn values_of<T>(counts: Seq<(T, usize)>) -> Seq<T> {
    counts.map_values(|p: (T, usize)| p.0)
}

/// `out` holds clones of the values `vals` at the indices `idx`.
pub open spec fn clones_at<T: Clone>(vals: Seq<T>, idx: Seq<int>, out: Seq<T>) -> bool {
    &&& out.len() == idx.len()
    &&& forall|m: int| 0 <= m < idx.len() ==> cloned(vals[idx[m]], #[trigger] out[m])
}

/// `out` holds clones of the values at some sequence of `len` indices that takes each index
/// `i` at most `c[i]` times.
pub open spec fn drawn_from<T: Clone>(vals: Seq<T>, c: Seq<nat>, len: nat, out: Seq<T>) -> bool {
    exists|x: Seq<int>| x.len() == len && uses_within(c, x) && #[trigger] clones_at(vals, x, out)
}

/// `result[from..]` lists, in order, clones of the values at `prefix + x` for each `x` in `xs`.
pub open spec fn lists<T: Clone>(
    counts: Seq<T>,
    prefix: Seq<int>,
    xs: Seq<Seq<int>>,
    result: Seq<Vec<T>>,
    from: int,
) -> bool {
    &&& result.len() == from + xs.len()
    &&& forall|k: int| 0 <= k < xs.len() ==> clones_at(counts, prefix + xs[k], #[trigger] result[from + k]@)
}

fn dfs<T: Clone>(
    counts: &mut [(T, usize)],
    indices: &mut Vec<usize>,
    result: &mut Vec<Vec<T>>,
    len: usize,
)
    requires
        old(indices)@.len() <= len,
        forall|m: int| 0 <= m < old(indices)@.len() ==> #[trigger] old(indices)@[m] < old(counts)@.len(),
    ensures
        final(counts)@ == old(counts)@,
        final(indices)@ == old(indices)@,
        forall|k: int| 0 <= k < old(result)@.len() ==> #[trigger] final(result)@[k] == old(result)@[k],
        lists(
            values_of(old(counts)@),
            old(indices)@.map_values(|i: usize| i as int),
            arrangements(counts_of(old(counts)@), (len - old(indices)@.len()) as nat),
            final(result)@,
            old(result)@.len() as int,
        ),
    decreases len - old(indices)@.len(),
{
    let ghost c0 = counts@;
    let ghost prefix = indices@.map_values(|i: usize| i as int);
    if indices.len() == len {
        let mut c: Vec<T> = Vec::new();
        let mut m: usize = 0;
        while m < indices.len()
            invariant
                counts@ == c0,
                m <= indices@.len(),
                prefix == indices@.map_values(|i: usize| i as int),
                forall|q: int| 0 <= q < indices@.len() ==> #[trigger] indices@[q] < counts@.len(),
                c@.len() == m,
                forall|q: int| 0 <= q < m ==> cloned(values_of(c0)[prefix[q]], #[trigger] c@[q]),
            decreases indices@.len() - m,
        {
            let i = indices[m];
            let v = counts[i].0.clone();
            c.push(v);
            m = m + 1;
        }
        result.push(c);
        proof {
            let xs = arrangements(counts_of(c0), 0);
            assert(xs == seq![Seq::<int>::empty()]);
            assert(prefix + xs[0] =~= prefix);
        }
        return;
    }
    let n = counts.len();
    let ghost l = (len - indices@.len()) as nat;
    let ghost cnt = counts_of(c0);
    let ghost r0 = result@;
    let ghost i0 = indices@;
    let ghost mut done: Seq<Seq<int>> = Seq::empty();
    for i in 0..n
        invariant
            n == c0.len(),
            counts@ == c0,
            indices@ == i0,
            i0 == old(indices)@,
            prefix == i0.map_values(|i: usize| i as int),
            i0.len() < len,
            l == len - i0.len(),
            l >= 1,
            cnt == counts_of(c0),
            forall|m: int| 0 <= m < i0.len() ==> #[trigger] i0[m] < c0.len(),
            forall|k: int| 0 <= k < r0.len() ==> #[trigger] result@[k] == r0[k],
            lists(values_of(c0), prefix, done, result@, r0.len() as int),
            done + arrangements_from(cnt, l, i as int) == arrangements_from(cnt, l, 0),
    {
        let ghost before = result@;
        let ghost here = if cnt[i as int] > 0 {
            arrangements(cnt.update(i as int, (cnt[i as int] - 1) as nat), (l - 1) as nat).map_values(
                |x: Seq<int>| seq![i as int] + x,
            )
        } else {
            Seq::empty()
        };
        proof {
            assert(arrangements_from(cnt, l, i as int) == here + arrangements_from(cnt, l, i + 1));
            assert(cnt[i as int] == counts@[i as int].1);
        }
        if counts[i].1 > 0 {
            indices.push(i);
            let c = counts[i].1;
            counts[i].1 = c - 1;
            let ghost c1 = counts@;
            proof {
                assert(counts_of(c1) =~= cnt.update(i as int, (cnt[i as int] - 1) as nat));
                assert(indices@.map_values(|i: usize| i as int) =~= prefix + seq![i as int]);
            }
            dfs(counts, indices, result, len);
            counts[i].1 = c;
            indices.pop();
            proof {
                assert(counts@ =~= c0);
                assert(indices@ =~= i0);
                let xs = arrangements(counts_of(c1), (len - (i0.len() + 1)) as nat);
                assert(here =~= xs.map_values(|x: Seq<int>| seq![i as int] + x));
                assert(values_of(c1) =~= values_of(c0));
                assert forall|k: int| 0 <= k < here.len() implies clones_at(
                    values_of(c0),
                    prefix + here[k],
                    #[trigger] result@[before.len() + k]@,
                ) by {
                    assert(clones_at(values_of(c1), (prefix + seq![i as int]) + xs[k], result@[before.len() + k]@));
                    assert(prefix + here[k] =~= (prefix + seq![i as int]) + xs[k]);
                }
            }
        } else {
            proof {
                assert(here =~= Seq::<Seq<int>>::empty());
            }
        }
        proof {
            assert(result@.len() == before.len() + here.len());
            assert(forall|k: int| 0 <= k < before.len() ==> #[trigger] result@[k] == before[k]);
            assert(forall|k: int| 0 <= k < here.len() ==> clones_at(
                values_of(c0),
                prefix + here[k],
                #[trigger] result@[before.len() + k]@,
            ));
        }
        proof {
            let nd = done + here;
            assert forall|k: int| 0 <= k < nd.len() implies clones_at(
                values_of(c0),
                prefix + nd[k],
                #[trigger] result@[r0.len() + k]@,
            ) by {
                if k < done.len() {
                    assert(result@[r0.len() + k] == before[r0.len() + k]);
                    assert(clones_at(values_of(c0), prefix + done[k], before[r0.len() + k]@));
                    assert(nd[k] == done[k]);
                } else {
                    let k2 = k - done.len();
                    assert(nd[k] == here[k2]);
                    assert(before.len() + k2 == r0.len() + k);
                    assert(clones_at(values_of(c0), prefix + here[k2], result@[before.len() + k2]@));
                }
            }
            assert(nd + arrangements_from(cnt, l, i + 1) =~= arrangements_from(cnt, l, 0));
            done = nd;
        }
    }
    proof {
        assert(arrangements_from(cnt, l, n as int) =~= Seq::<Seq<int>>::empty());
        assert(done =~= arrangements_from(cnt, l, 0));
    }
}

/// Every sequence of `len` values that takes value `counts[i].0` at most `counts[i].1`
/// times, each once and nothing else, listed in lexicographic order of the positions in
/// `counts` they are taken from.
/// `counts` is worked on in place and left as it was.
pub fn permutation<T: Ord + Clone>(counts: &mut [(T, usize)], len: usize) -> (r: Vec<Vec<T>>)
    ensures
        final(counts)@ == old(counts)@,
        lists(
            values_of(old(counts)@),
            Seq::empty(),
            arrangements(counts_of(old(counts)@), len as nat),
            r@,
            0,
        ),
        forall|x: Seq<int>|
            x.len() == len && #[trigger] uses_within(counts_of(old(counts)@), x) ==> exists|k: int|
                0 <= k < r@.len() && clones_at(values_of(old(counts)@), x, #[trigger] r@[k]@),
        forall|k: int|
            0 <= k < r@.len() ==> drawn_from(values_of(old(counts)@), counts_of(old(counts)@), len as nat, #[trigger] r@[k]@),
{
    let ghost c = counts_of(old(counts)@);
    let ghost vals = values_of(old(counts)@);
    let mut result: Vec<Vec<T>> = Vec::new();
    let mut indices: Vec<usize> = Vec::with_capacity(len);
    proof {
        assert(indices@.map_values(|i: usize| i as int) =~= Seq::<int>::empty());
    }
    dfs(counts, &mut indices, &mut result, len);
    proof {
        let a = arrangements(c, len as nat);
        assert forall|x: Seq<int>|
            x.len() == len && #[trigger] uses_within(c, x) implies exists|k: int|
                0 <= k < result@.len() && clones_at(vals, x, #[trigger] result@[k]@) by {
            lemma_arrangements_exact(c, len as nat, x);
            let k = choose|k: int| 0 <= k < a.len() && a[k] == x;
            assert(Seq::<int>::empty() + a[k] =~= x);
            assert(clones_at(vals, Seq::<int>::empty() + a[k], result@[0 + k]@));
        }
        assert forall|k: int| 0 <= k < result@.len() implies drawn_from(vals, c, len as nat, #[trigger] result@[k]@) by {
            let x = a[k];
            assert(a.contains(x));
            lemma_arrangements_exact(c, len as nat, x);
            assert(Seq::<int>::empty() + a[k] =~= x);
            assert(clones_at(vals, Seq::<int>::empty() + a[k], result@[0 + k]@));
            assert(x.len() == len && uses_within(c, x) && clones_at(vals, x, result@[k]@));
        }
    }
    result
}

/// Where the sequence turns at all, stepping it rearranges its elements: the multiset stays.
pub proof fn lemma_stepped_permutes<T: Ord>(s: Seq<T>, up: bool)
    requires
        last_turn(s, up, s.len() - 1) >= 0,
    ensures
        stepped(s, up).to_multiset() == s.to_multiset(),
{
    lemma_last_turn(s, up, s.len() - 1);
    let i = last_turn(s, up, s.len() - 1);
    lemma_last_beyond(s, up, i, s.len() as int);
    let j = last_beyond(s, up, i, s.len() as int);
    assert(j >= 0 && j < s.len()) by {
        assert(turns(up, s[i], s[i + 1]));
    }
    let t = s.update(i, s[j]).update(j, s[i]);
    lemma_swap_multiset(s, i, j);
    let a = t.take(i + 1);
    let b = t.skip(i + 1);
    b.lemma_reverse_to_multiset();
    lemma_multiset_commutative(a, b.reverse());
    lemma_multiset_commutative(a, b);
    assert(a + b =~= t);
}

/// Stepping leaves everything before the last turn where it was.
pub proof fn lemma_stepped_keeps_prefix<T: Ord>(s: Seq<T>, up: bool)
    requires
        last_turn(s, up, s.len() - 1) >= 0,
    ensures
        stepped(s, up).len() == s.len(),
        last_turn(s, up, s.len() - 1) < s.len() - 1,
        turns(up, s[last_turn(s, up, s.len() - 1)], s[last_turn(s, up, s.len() - 1) + 1]),
        forall|m: int| 0 <= m < last_turn(s, up, s.len() - 1) ==> #[trigger] stepped(s, up)[m] == s[m],
{
    lemma_last_turn(s, up, s.len() - 1);
    let i = last_turn(s, up, s.len() - 1);
    lemma_last_beyond(s, up, i, s.len() as int);
    let j = last_beyond(s, up, i, s.len() as int);
    assert(i < j < s.len()) by {
        assert(turns(up, s[i], s[i + 1]));
    }
    let t = s.update(i, s[j]).update(j, s[i]);
    assert forall|m: int| 0 <= m < i implies #[trigger] stepped(s, up)[m] == s[m] by {
        assert(t.take(i + 1)[m] == t[m]);
    }
}

/// Where the sequence turns at all, stepping it keeps its length.
pub proof fn lemma_stepped_len<T: Ord>(s: Seq<T>, up: bool)
    requires
        exists|k: int| 0 <= k < s.len() - 1 && #[trigger] turns(up, s[k], s[k + 1]),
    ensures
        stepped(s, up).len() == s.len(),
{
    broadcast use vstd::seq_lib::group_to_multiset_ensures;

    lemma_last_turn(s, up, s.len() - 1);
    assert(last_turn(s, up, s.len() - 1) >= 0);
    lemma_stepped_permutes(s, up);
    assert(stepped(s, up).to_multiset().len() == s.to_multiset().len());
}

/// Stepping upwards gives a lexicographically larger sequence, stepping downwards a smaller one.
pub proof fn lemma_stepped_moves<T: Ord>(s: Seq<T>, up: bool)
    requires
        lawful_order::<T>(),
        last_turn(s, up, s.len() - 1) >= 0,
    ensures
        up ==> lex_lt(s, stepped(s, up)),
        !up ==> lex_lt(stepped(s, up), s),
{
    lemma_last_turn(s, up, s.len() - 1);
    let i = last_turn(s, up, s.len() - 1);
    lemma_last_beyond(s, up, i, s.len() as int);
    let j = last_beyond(s, up, i, s.len() as int);
    assert(j >= 0) by {
        assert(turns(up, s[i], s[i + 1]));
    }
    let r = stepped(s, up);
    assert(j > i) by {
        lemma_order::<T>();
        if j <= i {
            assert(!turns(up, s[i], s[i + 1]));
        }
    }
    assert(r.take(i) =~= s.take(i));
    assert(r[i] == s[j]);
    if up {
        assert(lt(s[i], r[i]));
    } else {
        assert(lt(r[i], s[i]));
        assert(r.take(i) == s.take(i));
    }
}

proof fn lemma_turn_facts<T: Ord>(up: bool)
    requires
        lawful_order::<T>(),
    ensures
        forall|a: T, b: T| #[trigger] turns(up, a, b) ==> !turns(up, b, a),
        forall|a: T, b: T, c: T|
            #![trigger turns(up, a, b), turns(up, b, c)]
            !turns(up, a, b) && !turns(up, b, c) ==> !turns(up, a, c),
        forall|a: T, b: T, c: T|
            #![trigger turns(up, a, b), turns(up, c, b)]
            !turns(up, a, b) && turns(up, c, b) ==> turns(up, c, a),
        forall|a: T, b: T, c: T|
            #![trigger turns(up, a, c), turns(up, a, b)]
            !turns(up, a, c) && turns(up, a, b) ==> turns(up, c, b),
{
    lemma_order::<T>();
    assert forall|a: T, b: T| #[trigger] turns(up, a, b) implies !turns(up, b, a) by {
        if up {
            if lt(b, a) {
                assert(lt(a, a));
            }
        } else {
            if lt(a, b) {
                assert(lt(b, b));
            }
        }
    }
    assert forall|a: T, b: T, c: T| !turns(up, a, b) && !turns(up, b, c) implies !turns(up, a, c) by {
        if up {
            assert(!lt(b, c) && !lt(a, b) ==> !lt(a, c));
        } else {
            assert(!lt(b, a) && !lt(c, b) ==> !lt(c, a));
        }
    }
    assert forall|a: T, b: T, c: T| !turns(up, a, b) && turns(up, c, b) implies turns(up, c, a) by {
        if up {
            assert(lt(c, b) && !lt(a, b) ==> lt(c, a));
        } else {
            assert(!lt(b, a) && lt(b, c) ==> lt(a, c));
        }
    }
    assert forall|a: T, b: T, c: T| !turns(up, a, c) && turns(up, a, b) implies turns(up, c, b) by {
        if up {
            assert(!lt(a, c) && lt(a, b) ==> lt(c, b));
        } else {
            assert(lt(b, a) && !lt(c, a) ==> lt(b, c));
        }
    }
}

/// Past the last turn, no element turns towards any later one.
proof fn lemma_no_turn_chain<T: Ord>(s: Seq<T>, up: bool, i: int, q: int, r: int)
    requires
        lawful_order::<T>(),
        i < q <= r < s.len(),
        forall|m: int| i < m < s.len() - 1 ==> !turns(up, #[trigger] s[m], s[m + 1]),
    ensures
        !turns(up, s[q], s[r]),
    decreases r - q,
{
    lemma_turn_facts::<T>(up);
    if q == r {
        lemma_order::<T>();
        if up {
            assert(!lt(s[q], s[q]));
        } else {
            assert(!lt(s[q], s[q]));
        }
    } else {
        lemma_no_turn_chain(s, up, i, q + 1, r);
        assert(!turns(up, s[q], s[q + 1]));
    }
}

proof fn lemma_last_turn_at<T: Ord>(s: Seq<T>, up: bool, i: int, k: int)
    requires
        0 <= i < k < s.len(),
        turns(up, s[i], s[i + 1]),
        forall|m: int| i < m < k ==> !turns(up, #[trigger] s[m], s[m + 1]),
    ensures
        last_turn(s, up, k) == i,
    decreases k - i,
{
    if k - 1 > i {
        lemma_last_turn_at(s, up, i, k - 1);
    }
}

proof fn lemma_last_beyond_at<T: Ord>(s: Seq<T>, up: bool, p: int, j: int, k: int)
    requires
        0 <= j < k <= s.len(),
        turns(up, s[p], s[j]),
        forall|m: int| j < m < k ==> !turns(up, s[p], #[trigger] s[m]),
    ensures
        last_beyond(s, up, p, k) == j,
    decreases k - j,
{
    if k - 1 > j {
        lemma_last_beyond_at(s, up, p, j, k - 1);
    }
}

/// What the last turn and the last element beyond it say of `s`.
pub open spec fn step_shape<T: Ord>(s: Seq<T>, up: bool, i: int, j: int) -> bool {
    &&& 0 <= i < j < s.len()
    &&& turns(up, s[i], s[j])
    &&& forall|m: int| i < m < s.len() - 1 ==> !turns(up, #[trigger] s[m], s[m + 1])
    &&& forall|m: int| j < m < s.len() ==> !turns(up, s[i], #[trigger] s[m])
}

/// The stepped sequence in terms of the swapped one: the prefix stays, the rest is mirrored.
proof fn lemma_stepped_shape<T: Ord>(s: Seq<T>, up: bool, i: int, j: int)
    requires
        step_shape(s, up, i, j),
    ensures
        ({
            let n = s.len() as int;
            let t = s.update(i, s[j]).update(j, s[i]);
            let u = t.take(i + 1) + t.skip(i + 1).reverse();
            &&& u.len() == n
            &&& forall|m: int| i < m < n ==> #[trigger] u[m] == t[n + i - m]
            &&& forall|m: int| 0 <= m <= i ==> #[trigger] u[m] == t[m]
        }),
{
}

/// In the stepped sequence, the last turn the other way is at the same place.
proof fn lemma_back_turn<T: Ord>(s: Seq<T>, up: bool, i: int, j: int, u: Seq<T>)
    requires
        lawful_order::<T>(),
        step_shape(s, up, i, j),
        u == s.update(i, s[j]).update(j, s[i]).take(i + 1) + s.update(i, s[j]).update(j, s[i]).skip(i + 1).reverse(),
    ensures
        last_turn(u, !up, s.len() - 1) == i,
{
    let n = s.len() as int;
    let t = s.update(i, s[j]).update(j, s[i]);
    lemma_stepped_shape(s, up, i, j);
    lemma_turn_facts::<T>(up);
    assert(turns(!up, u[i], u[i + 1])) by {
        assert(u[i] == s[j]);
        assert(u[i + 1] == t[n - 1]);
        if j < n - 1 {
            assert(!turns(up, s[i], s[n - 1]));
            assert(turns(up, s[n - 1], s[j]));
        }
    }
    assert forall|m: int| i < m < n - 1 implies !turns(!up, #[trigger] u[m], u[m + 1]) by {
        let q = n + i - m - 1;
        assert(u[m] == t[q + 1]);
        assert(u[m + 1] == t[q]);
        if q == j {
            assert(!turns(up, s[i], s[j + 1]));
        } else if q + 1 == j {
            assert(!turns(up, s[q], s[q + 1]));
            assert(!turns(up, s[q], s[i]));
        } else {
            assert(!turns(up, s[q], s[q + 1]));
        }
    }
    lemma_last_turn_at(u, !up, i, n - 1);
}

/// In the stepped sequence, the last element beyond the turn the other way is the mirror of `j`.
proof fn lemma_back_beyond<T: Ord>(s: Seq<T>, up: bool, i: int, j: int, u: Seq<T>)
    requires
        lawful_order::<T>(),
        step_shape(s, up, i, j),
        u == s.update(i, s[j]).update(j, s[i]).take(i + 1) + s.update(i, s[j]).update(j, s[i]).skip(i + 1).reverse(),
    ensures
        last_beyond(u, !up, i, s.len() as int) == s.len() + i - j,
{
    let n = s.len() as int;
    lemma_stepped_shape(s, up, i, j);
    let jj = n + i - j;
    assert(u[jj] == s[i]);
    assert(u[i] == s[j]);
    assert(turns(!up, u[i], u[jj]));
    assert forall|m: int| jj < m < n implies !turns(!up, u[i], #[trigger] u[m]) by {
        let q = n + i - m;
        assert(i < q < j);
        assert(u[m] == s[q]);
        lemma_no_turn_chain(s, up, i, q, j);
    }
    lemma_last_beyond_at(u, !up, i, jj, n);
}

/// Stepping the stepped sequence back swaps the same two values again and mirrors the rest
/// back into place.
#[verifier::rlimit(40)]
proof fn lemma_back_result<T: Ord>(s: Seq<T>, up: bool, i: int, j: int, u: Seq<T>)
    requires
        step_shape(s, up, i, j),
        u == s.update(i, s[j]).update(j, s[i]).take(i + 1) + s.update(i, s[j]).update(j, s[i]).skip(i + 1).reverse(),
        last_turn(u, !up, s.len() - 1) == i,
        last_beyond(u, !up, i, s.len() as int) == s.len() + i - j,
    ensures
        stepped(u, !up) == s,
{
    let n = s.len() as int;
    lemma_stepped_shape(s, up, i, j);
    let jj = n + i - j;
    let v = u.update(i, u[jj]).update(jj, u[i]);
    let w = stepped(u, !up);
    assert(w == v.take(i + 1) + v.skip(i + 1).reverse());
    assert forall|m: int| 0 <= m < n implies #[trigger] w[m] == s[m] by {
        if m > i {
            assert(w[m] == v[n + i - m]);
        }
    }
    assert(w =~= s);
}

/// Stepping one way and then the other gives back the sequence: `prev_permutation` undoes
/// `next_permutation` and the other way round.
pub proof fn lemma_step_back<T: Ord>(s: Seq<T>, up: bool)
    requires
        lawful_order::<T>(),
        last_turn(s, up, s.len() - 1) >= 0,
    ensures
        last_turn(stepped(s, up), !up, s.len() - 1) >= 0,
        stepped(stepped(s, up), !up) == s,
{
    let n = s.len() as int;
    lemma_last_turn(s, up, n - 1);
    let i = last_turn(s, up, n - 1);
    lemma_last_beyond(s, up, i, n);
    let j = last_beyond(s, up, i, n);
    assert(j > i) by {
        if j <= i {
            assert(!turns(up, s[i], s[i + 1]));
        }
    }
    assert(step_shape(s, up, i, j));
    let u = stepped(s, up);
    lemma_back_turn(s, up, i, j, u);
    lemma_back_beyond(s, up, i, j, u);
    lemma_back_result(s, up, i, j, u);
}

/// `b` lies past `a` in the direction `up`, lexicographically: at the first place where they
/// differ, `b`'s element is the later one.
pub open spec fn lex_turns<T: Ord>(up: bool, a: Seq<T>, b: Seq<T>) -> bool {
    &&& a.len() == b.len()
    &&& exists|k: int| 0 <= k < a.len() && a.take(k) == b.take(k) && #[trigger] turns(up, a[k], b[k])
}

/// Equal multisets with equal prefixes have equal multisets of what follows.
proof fn lemma_suffix_multiset<T>(a: Seq<T>, b: Seq<T>, k: int)
    requires
        0 <= k <= a.len(),
        k <= b.len(),
        a.to_multiset() == b.to_multiset(),
        a.take(k) == b.take(k),
    ensures
        a.skip(k).to_multiset() == b.skip(k).to_multiset(),
{
    broadcast use vstd::multiset::group_multiset_axioms;

    assert(a =~= a.take(k) + a.skip(k));
    assert(b =~= b.take(k) + b.skip(k));
    lemma_multiset_commutative(a.take(k), a.skip(k));
    lemma_multiset_commutative(b.take(k), b.skip(k));
    assert forall|x: T| a.skip(k).to_multiset().count(x) == b.skip(k).to_multiset().count(x) by {
        assert(a.to_multiset().count(x) == a.take(k).to_multiset().count(x) + a.skip(k).to_multiset().count(x));
        assert(b.to_multiset().count(x) == b.take(k).to_multiset().count(x) + b.skip(k).to_multiset().count(x));
    }
    assert(a.skip(k).to_multiset() =~= b.skip(k).to_multiset());
}

/// An element at or after `k` of one sequence sits at or after `k` in the other.
proof fn lemma_found_after<T>(v: Seq<T>, w: Seq<T>, k: int) -> (m: int)
    requires
        0 <= k < v.len(),
        k <= w.len(),
        v.skip(k).to_multiset() == w.skip(k).to_multiset(),
    ensures
        k <= m < w.len(),
        w[m] == v[k],
{
    broadcast use vstd::seq_lib::group_to_multiset_ensures;

    assert(v.skip(k)[0] == v[k]);
    assert(v.skip(k).contains(v[k]));
    assert(w.skip(k).to_multiset().count(v[k]) > 0);
    assert(w.skip(k).contains(v[k]));
    let q = choose|q: int| 0 <= q < w.skip(k).len() && w.skip(k)[q] == v[k];
    k + q
}

/// Where `w` from `from` on never turns against the direction `up`, no arrangement `v` of the
/// same elements that agrees with `w` before `from` lies before `w` in that direction.
proof fn lemma_sorted_tail_least<T: Ord>(up: bool, v: Seq<T>, w: Seq<T>, from: int)
    requires
        lawful_order::<T>(),
        v.len() == w.len(),
        0 <= from <= w.len(),
        v.take(from) == w.take(from),
        v.to_multiset() == w.to_multiset(),
        forall|q: int, r: int| #![trigger w[q], w[r]] from <= q <= r < w.len() ==> !turns(!up, w[q], w[r]),
    ensures
        forall|k: int| 0 <= k < v.len() && v.take(k) == w.take(k) ==> !#[trigger] turns(up, v[k], w[k]),
{
    lemma_turn_facts::<T>(up);
    lemma_order::<T>();
    assert forall|k: int| 0 <= k < v.len() && v.take(k) == w.take(k) implies !#[trigger] turns(up, v[k], w[k]) by {
        if k < from {
            assert(v.take(from)[k] == w.take(from)[k]);
            assert(v.take(from)[k] == v[k]);
            assert(w.take(from)[k] == w[k]);
            assert(!lt(v[k], v[k]));
        } else {
            lemma_suffix_multiset(v, w, k);
            let m = lemma_found_after(v, w, k);
            assert(!turns(!up, w[k], w[m]));
        }
    }
}

/// An arrangement that agrees with `s` up to a place after its last turn does not lie past it
/// there: the tail after the last turn is already its last arrangement.
proof fn lemma_nearest_after<T: Ord>(s: Seq<T>, up: bool, v: Seq<T>, i: int, k: int)
    requires
        lawful_order::<T>(),
        0 <= i < k < s.len(),
        v.len() == s.len(),
        v.to_multiset() == s.to_multiset(),
        s.take(k) == v.take(k),
        forall|m: int| i < m < s.len() - 1 ==> !turns(up, #[trigger] s[m], s[m + 1]),
    ensures
        !turns(up, s[k], v[k]),
{
    assert forall|q: int, r: int| #![trigger s[q], s[r]] i + 1 <= q <= r < s.len() implies !turns(!!up, s[q], s[r]) by {
        lemma_no_turn_chain(s, up, i, q, r);
    }
    assert(v.take(i + 1) =~= s.take(i + 1)) by {
        assert forall|m: int| 0 <= m < i + 1 implies #[trigger] v.take(i + 1)[m] == s.take(i + 1)[m] by {
            assert(s.take(k)[m] == v.take(k)[m]);
        }
    }
    lemma_sorted_tail_least(!up, v, s, i + 1);
    assert(!turns(!up, v[k], s[k]));
}

/// An arrangement that first differs from `s` before its last turn lies past the stepped one
/// too, which keeps that part of `s`.
proof fn lemma_nearest_before<T: Ord>(s: Seq<T>, up: bool, v: Seq<T>, u: Seq<T>, i: int, k: int)
    requires
        lawful_order::<T>(),
        0 <= k < i < s.len(),
        v.len() == s.len(),
        u.len() == s.len(),
        forall|m: int| 0 <= m < i ==> #[trigger] u[m] == s[m],
        s.take(k) == v.take(k),
        turns(up, s[k], v[k]),
    ensures
        !lex_turns(up, v, u),
{
    lemma_turn_facts::<T>(up);
    lemma_order::<T>();
    if lex_turns(up, v, u) {
        let k2 = choose|k2: int| 0 <= k2 < v.len() && v.take(k2) == u.take(k2) && #[trigger] turns(up, v[k2], u[k2]);
        assert(u[k] == s[k]);
        if k2 < k {
            assert(v.take(k)[k2] == s.take(k)[k2]);
            assert(v.take(k)[k2] == v[k2] && s.take(k)[k2] == s[k2]);
            assert(u[k2] == s[k2]);
            assert(!lt(v[k2], v[k2]));
            assert(!turns(up, v[k2], u[k2]));
        } else if k2 > k {
            assert(v.take(k2)[k] == u.take(k2)[k]);
            assert(v.take(k2)[k] == v[k] && u.take(k2)[k] == u[k]);
            assert(!lt(s[k], s[k]));
            assert(!turns(up, s[k], v[k]));
        } else {
            assert(!turns(up, v[k], s[k]));
        }
    }
}

/// An arrangement that first differs from `s` at its last turn has there an element no nearer
/// than the one stepping puts there, and then at best the tail stepping leaves, which is the
/// first arrangement of what remains.
#[verifier::rlimit(40)]
proof fn lemma_nearest_at<T: Ord>(s: Seq<T>, up: bool, v: Seq<T>, i: int, j: int)
    requires
        lawful_order::<T>(),
        step_shape(s, up, i, j),
        v.len() == s.len(),
        v.to_multiset() == s.to_multiset(),
        s.take(i) == v.take(i),
        turns(up, s[i], v[i]),
        last_turn(s, up, s.len() - 1) == i,
        last_beyond(s, up, i, s.len() as int) == j,
    ensures
        !lex_turns(up, v, stepped(s, up)),
{
    let n = s.len() as int;
    let u = stepped(s, up);
    lemma_turn_facts::<T>(up);
    lemma_order::<T>();
    lemma_stepped_shape(s, up, i, j);
    lemma_stepped_keeps_prefix(s, up);
    lemma_stepped_permutes(s, up);
    lemma_back_turn(s, up, i, j, u);
    assert(u[i] == s[j]);
    lemma_suffix_multiset(s, v, i);
    let m = lemma_found_after(v, s, i);
    assert(m != i) by {
        if m == i {
            assert(!turns(up, s[i], s[i]));
        }
    }
    assert(m <= j) by {
        if m > j {
            assert(!turns(up, s[i], s[m]));
        }
    }
    assert(!turns(up, v[i], u[i])) by {
        if m < j {
            lemma_no_turn_chain(s, up, i, m, j);
        }
    }
    if lex_turns(up, v, u) {
        let k2 = choose|k2: int| 0 <= k2 < v.len() && v.take(k2) == u.take(k2) && #[trigger] turns(up, v[k2], u[k2]);
        if k2 < i {
            assert(v.take(i)[k2] == s.take(i)[k2]);
            assert(v.take(i)[k2] == v[k2] && s.take(i)[k2] == s[k2]);
            assert(u[k2] == s[k2]);
            assert(!lt(v[k2], v[k2]));
            assert(!turns(up, v[k2], u[k2]));
        } else if k2 > i {
            lemma_last_turn(u, !up, n - 1);
            assert forall|q: int, r: int| #![trigger u[q], u[r]] i + 1 <= q <= r < n implies !turns(!up, u[q], u[r]) by {
                lemma_no_turn_chain(u, !up, i, q, r);
            }
            assert(v.take(i + 1) =~= u.take(i + 1)) by {
                assert forall|p: int| 0 <= p < i + 1 implies #[trigger] v.take(i + 1)[p] == u.take(i + 1)[p] by {
                    assert(v.take(k2)[p] == u.take(k2)[p]);
                }
            }
            lemma_sorted_tail_least(up, v, u, i + 1);
            assert(!turns(up, v[k2], u[k2]));
        }
    }
}

/// Stepping in the direction `up` gives the nearest arrangement past `s`: no arrangement of the
/// same elements lies past `s` and before the stepped one.
proof fn lemma_stepped_nearest<T: Ord>(s: Seq<T>, up: bool, v: Seq<T>)
    requires
        lawful_order::<T>(),
        last_turn(s, up, s.len() - 1) >= 0,
        v.to_multiset() == s.to_multiset(),
        lex_turns(up, s, v),
    ensures
        !lex_turns(up, v, stepped(s, up)),
{
    let n = s.len() as int;
    lemma_last_turn(s, up, n - 1);
    let i = last_turn(s, up, n - 1);
    lemma_last_beyond(s, up, i, n);
    let j = last_beyond(s, up, i, n);
    assert(j > i) by {
        if j <= i {
            assert(!turns(up, s[i], s[i + 1]));
        }
    }
    assert(step_shape(s, up, i, j));
    lemma_stepped_keeps_prefix(s, up);
    let k = choose|k: int| 0 <= k < s.len() && s.take(k) == v.take(k) && #[trigger] turns(up, s[k], v[k]);
    if k > i {
        lemma_nearest_after(s, up, v, i, k);
    } else if k < i {
        lemma_nearest_before(s, up, v, stepped(s, up), i, k);
    } else {
        lemma_nearest_at(s, up, v, i, j);
    }
}

/// `next_permutation` steps to the least larger arrangement: no arrangement of the same
/// elements lies lexicographically between `s` and the one it gives.
pub proof fn lemma_next_is_least<T: Ord>(s: Seq<T>, v: Seq<T>)
    requires
        lawful_order::<T>(),
        exists|k: int| 0 <= k < s.len() - 1 && #[trigger] lt(s[k], s[k + 1]),
        v.to_multiset() == s.to_multiset(),
        lex_lt(s, v),
    ensures
        !lex_lt(v, stepped(s, true)),
{
    lemma_last_turn(s, true, s.len() - 1);
    let k = choose|k: int| 0 <= k < s.len() - 1 && #[trigger] lt(s[k], s[k + 1]);
    assert(turns(true, s[k], s[k + 1]));
    if last_turn(s, true, s.len() - 1) < 0 {
        assert(!turns(true, s[k], s[k + 1]));
    }
    let w = choose|w: int| 0 <= w < s.len() && s.take(w) == v.take(w) && #[trigger] lt(s[w], v[w]);
    assert(turns(true, s[w], v[w]));
    lemma_stepped_nearest(s, true, v);
    if lex_lt(v, stepped(s, true)) {
        let w2 = choose|w2: int| 0 <= w2 < v.len() && v.take(w2) == stepped(s, true).take(w2) && #[trigger] lt(
            v[w2],
            stepped(s, true)[w2],
        );
        assert(turns(true, v[w2], stepped(s, true)[w2]));
    }
}

/// `prev_permutation` steps to the greatest smaller arrangement: no arrangement of the same
/// elements lies lexicographically between the one it gives and `s`.
pub proof fn lemma_prev_is_greatest<T: Ord>(s: Seq<T>, v: Seq<T>)
    requires
        lawful_order::<T>(),
        exists|k: int| 0 <= k < s.len() - 1 && #[trigger] lt(s[k + 1], s[k]),
        v.to_multiset() == s.to_multiset(),
        lex_lt(v, s),
    ensures
        !lex_lt(stepped(s, false), v),
{
    lemma_last_turn(s, false, s.len() - 1);
    let k = choose|k: int| 0 <= k < s.len() - 1 && #[trigger] lt(s[k + 1], s[k]);
    assert(turns(false, s[k], s[k + 1]));
    if last_turn(s, false, s.len() - 1) < 0 {
        assert(!turns(false, s[k], s[k + 1]));
    }
    let w = choose|w: int| 0 <= w < v.len() && v.take(w) == s.take(w) && #[trigger] lt(v[w], s[w]);
    assert(turns(false, s[w], v[w]));
    lemma_stepped_nearest(s, false, v);
    if lex_lt(stepped(s, false), v) {
        let w2 = choose|w2: int| 0 <= w2 < v.len() && stepped(s, false).take(w2) == v.take(w2) && #[trigger] lt(
            stepped(s, false)[w2],
            v[w2],
        );
        assert(turns(false, v[w2], stepped(s, false)[w2]));
    }
}

/// `x` takes each index `i` of `c` at most `c[i]` times, and no other index.
pub open spec fn uses_within(c: Seq<nat>, x: Seq<int>) -> bool {
    &&& forall|m: int| 0 <= m < x.len() ==> 0 <= #[trigger] x[m] < c.len()
    &&& forall|i: int| 0 <= i < c.len() ==> x.to_multiset().count(i) <= #[trigger] c[i]
}

/// Taking the first index off: every count drops by one for that index and stays for the others.
proof fn lemma_count_front(x: Seq<int>, j: int)
    requires
        x.len() > 0,
    ensures
        x.to_multiset().count(j) == x.drop_first().to_multiset().count(j) + if j == x[0] { 1int } else { 0int },
{
    broadcast use vstd::seq_lib::group_to_multiset_ensures, vstd::multiset::group_multiset_axioms;

    assert(x.remove(0) =~= x.drop_first());
    assert(x.contains(x[0]));
    assert(x.remove(0).to_multiset() =~= x.to_multiset().remove(x[0]));
}

/// What `arrangements_from(c, len, i)` holds: arrangements whose first index is `i` or more.
proof fn lemma_arrangements_from_exact(c: Seq<nat>, len: nat, i: int, x: Seq<int>)
    requires
        len > 0,
        0 <= i,
    ensures
        arrangements_from(c, len, i).contains(x) <==> (x.len() == len && uses_within(c, x) && x[0] >= i),
    decreases len, c.len() - i,
{
    if i >= c.len() {
        if x.len() == len && uses_within(c, x) && x[0] >= i {
            assert(0 <= x[0] < c.len());
        }
        assert(!arrangements_from(c, len, i).contains(x));
    } else {
        let c2 = c.update(i, (c[i] - 1) as nat);
        let here = if c[i] > 0 {
            arrangements(c2, (len - 1) as nat).map_values(|y: Seq<int>| seq![i] + y)
        } else {
            Seq::empty()
        };
        let rest = arrangements_from(c, len, i + 1);
        assert(arrangements_from(c, len, i) == here + rest);
        lemma_arrangements_from_exact(c, len, i + 1, x);
        let valid = x.len() == len && uses_within(c, x) && x[0] >= i;
        if here.contains(x) {
            let k = choose|k: int| 0 <= k < here.len() && here[k] == x;
            let y = arrangements(c2, (len - 1) as nat)[k];
            assert(x == seq![i] + y);
            assert(arrangements(c2, (len - 1) as nat).contains(y));
            lemma_arrangements_exact(c2, (len - 1) as nat, y);
            assert(x.drop_first() =~= y);
            assert forall|m: int| 0 <= m < x.len() implies 0 <= #[trigger] x[m] < c.len() by {
                if m > 0 {
                    assert(x[m] == y[m - 1]);
                }
            }
            assert forall|j: int| 0 <= j < c.len() implies x.to_multiset().count(j) <= #[trigger] c[j] by {
                lemma_count_front(x, j);
                assert(y.to_multiset().count(j) <= c2[j]);
            }
            assert(valid);
        }
        if valid && x[0] == i {
            let y = x.drop_first();
            lemma_count_front(x, i);
            assert(c[i] > 0);
            assert forall|m: int| 0 <= m < y.len() implies 0 <= #[trigger] y[m] < c2.len() by {
                assert(y[m] == x[m + 1]);
            }
            assert forall|j: int| 0 <= j < c2.len() implies y.to_multiset().count(j) <= #[trigger] c2[j] by {
                lemma_count_front(x, j);
                assert(c[j] == c[j]);
            }
            lemma_arrangements_exact(c2, (len - 1) as nat, y);
            let a = arrangements(c2, (len - 1) as nat);
            let k = choose|k: int| 0 <= k < a.len() && a[k] == y;
            assert(seq![i] + y =~= x);
            assert(here[k] == x);
            assert(here.contains(x));
        }
        if (here + rest).contains(x) {
            let k = choose|k: int| 0 <= k < (here + rest).len() && (here + rest)[k] == x;
            if k >= here.len() {
                assert(rest[k - here.len()] == x);
            } else {
                assert(here[k] == x);
            }
        }
        if here.contains(x) {
            let k = choose|k: int| 0 <= k < here.len() && here[k] == x;
            assert((here + rest)[k] == x);
        }
        if rest.contains(x) {
            let k = choose|k: int| 0 <= k < rest.len() && rest[k] == x;
            assert((here + rest)[here.len() + k] == x);
        }
    }
}

/// `arrangements(c, len)` lists exactly the sequences of `len` indices that take each index
/// `i` of `c` at most `c[i]` times: each of them, and nothing else. So `permutation` lists
/// every sequence of `len` values that takes each value no more often than it is counted,
/// and only such sequences.
pub proof fn lemma_arrangements_exact(c: Seq<nat>, len: nat, x: Seq<int>)
    ensures
        arrangements(c, len).contains(x) <==> (x.len() == len && uses_within(c, x)),
    decreases len, c.len() + 1,
{
    broadcast use vstd::seq_lib::group_to_multiset_ensures, vstd::multiset::group_multiset_axioms;

    if len == 0 {
        if x.len() == 0 {
            assert(x =~= Seq::<int>::empty());
            assert(arrangements(c, len)[0] == x);
            assert forall|i: int| 0 <= i < c.len() implies x.to_multiset().count(i) <= #[trigger] c[i] by {
                assert(x.to_multiset() =~= vstd::multiset::Multiset::empty());
            }
        }
        if arrangements(c, len).contains(x) {
            assert(arrangements(c, len)[0] == Seq::<int>::empty());
        }
    } else {
        lemma_arrangements_from_exact(c, len, 0, x);
        if x.len() == len && uses_within(c, x) {
            assert(0 <= x[0]);
        }
    }
}

/// `a` comes before `b` in lexicographic order of indices.
pub open spec fn index_before(a: Seq<int>, b: Seq<int>) -> bool {
    &&& a.len() == b.len()
    &&& exists|k: int| #![trigger a[k], b[k]] 0 <= k < a.len() && a.take(k) == b.take(k) && a[k] < b[k]
}

proof fn lemma_arrangements_from_sorted(c: Seq<nat>, len: nat, i: int)
    requires
        len > 0,
        0 <= i,
    ensures
        forall|p: int, q: int|
            0 <= p < q < arrangements_from(c, len, i).len() ==> index_before(
                #[trigger] arrangements_from(c, len, i)[p],
                #[trigger] arrangements_from(c, len, i)[q],
            ),
    decreases len, c.len() - i,
{
    if i < c.len() {
        let c2 = c.update(i, (c[i] - 1) as nat);
        let inner = arrangements(c2, (len - 1) as nat);
        let here = if c[i] > 0 {
            inner.map_values(|y: Seq<int>| seq![i] + y)
        } else {
            Seq::empty()
        };
        let rest = arrangements_from(c, len, i + 1);
        let all = arrangements_from(c, len, i);
        assert(all == here + rest);
        lemma_arrangements_from_sorted(c, len, i + 1);
        if c[i] > 0 {
            lemma_arrangements_sorted(c2, (len - 1) as nat);
        }
        assert forall|p: int, q: int| 0 <= p < q < all.len() implies index_before(#[trigger] all[p], #[trigger] all[q]) by {
            if q < here.len() {
                let x = inner[p];
                let y = inner[q];
                assert(index_before(x, y));
                let k = choose|k: int| #![trigger x[k], y[k]] 0 <= k < x.len() && x.take(k) == y.take(k) && x[k] < y[k];
                assert(all[p] == seq![i] + x && all[q] == seq![i] + y);
                assert((seq![i] + x).take(k + 1) =~= seq![i] + x.take(k));
                assert((seq![i] + y).take(k + 1) =~= seq![i] + y.take(k));
                assert((seq![i] + x)[k + 1] == x[k] && (seq![i] + y)[k + 1] == y[k]);
            } else if p >= here.len() {
                assert(all[p] == rest[p - here.len()] && all[q] == rest[q - here.len()]);
            } else {
                let x = inner[p];
                let y = rest[q - here.len()];
                assert(all[p] == seq![i] + x && all[q] == y);
                assert(inner.contains(x));
                lemma_arrangements_exact(c2, (len - 1) as nat, x);
                assert(rest.contains(y));
                lemma_arrangements_from_exact(c, len, i + 1, y);
                assert((seq![i] + x).take(0) =~= y.take(0));
                assert((seq![i] + x)[0] == i);
            }
        }
    }
}

/// `arrangements(c, len)` is in strictly increasing lexicographic order of indices: each
/// arrangement is listed once, and in order.
pub proof fn lemma_arrangements_sorted(c: Seq<nat>, len: nat)
    ensures
        forall|p: int, q: int|
            0 <= p < q < arrangements(c, len).len() ==> index_before(
                #[trigger] arrangements(c, len)[p],
                #[trigger] arrangements(c, len)[q],
            ),
    decreases len, c.len() + 1,
{
    if len > 0 {
        lemma_arrangements_from_sorted(c, len, 0);
        assert(arrangements(c, len) == arrangements_from(c, len, 0));
    } else {
        assert(arrangements(c, len).len() == 1);
    }
}

} // verus!
