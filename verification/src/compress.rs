use vstd::prelude::*;

verus! {

/// `s` is in strictly increasing order.
pub open spec fn strictly_increasing(s: Seq<i64>) -> bool {
    forall|i: int, j: int| 0 <= i < j < s.len() ==> s[i] < s[j]
}

/// `s` is in non-decreasing order.
pub open spec fn non_decreasing(s: Seq<i64>) -> bool {
    forall|i: int, j: int| 0 <= i < j < s.len() ==> s[i] <= s[j]
}

/// A value sorted by an integer key.
pub trait SortKey: Copy {
    /// The key that orders values.
    spec fn key(self) -> int;

    /// Decides `self.key() <= other.key()`.
    fn key_le(&self, other: &Self) -> (r: bool)
        ensures
            r == (self.key() <= other.key()),
    ;
}

impl SortKey for i64 {
    open spec fn key(self) -> int {
        self as int
    }

    fn key_le(&self, other: &Self) -> (r: bool) {
        *self <= *other
    }
}

impl SortKey for i32 {
    open spec fn key(self) -> int {
        self as int
    }

    fn key_le(&self, other: &Self) -> (r: bool) {
        *self <= *other
    }
}

impl SortKey for usize {
    open spec fn key(self) -> int {
        self as int
    }

    fn key_le(&self, other: &Self) -> (r: bool) {
        *self <= *other
    }
}

impl SortKey for u8 {
    open spec fn key(self) -> int {
        self as int
    }

    fn key_le(&self, other: &Self) -> (r: bool) {
        *self <= *other
    }
}

impl SortKey for u32 {
    open spec fn key(self) -> int {
        self as int
    }

    fn key_le(&self, other: &Self) -> (r: bool) {
        *self <= *other
    }
}

/// `s` is in non-decreasing order of keys.
pub open spec fn in_order<K: SortKey>(s: Seq<K>) -> bool {
    forall|i: int, j: int| 0 <= i < j < s.len() ==> s[i].key() <= s[j].key()
}

/// Merges two sorted runs into one sorted run of all their elements.
fn merge<K: SortKey>(a: &Vec<K>, b: &Vec<K>) -> (out: Vec<K>)
    requires
        in_order(a@),
        in_order(b@),
    ensures
        in_order(out@),
        out@.to_multiset() == a@.to_multiset().add(b@.to_multiset()),
{
    broadcast use vstd::seq_lib::to_multiset_build, vstd::multiset::group_multiset_axioms, vstd::seq_lib::group_to_multiset_ensures;

    let mut out: Vec<K> = Vec::new();
    let mut i: usize = 0;
    let mut j: usize = 0;
    proof {
        assert(a@.take(0) =~= Seq::<K>::empty());
        assert(b@.take(0) =~= Seq::<K>::empty());
        assert(out@.to_multiset() =~= a@.take(0).to_multiset().add(b@.take(0).to_multiset()));
    }
    while i < a.len() || j < b.len()
        invariant
            in_order(a@),
            in_order(b@),
            i <= a@.len(),
            j <= b@.len(),
            in_order(out@),
            out@.to_multiset() == a@.take(i as int).to_multiset().add(b@.take(j as int).to_multiset()),
            out@.len() == i + j,
            i < a@.len() ==> forall|k: int| 0 <= k < out@.len() ==> (#[trigger] out@[k]).key() <= a@[i as int].key(),
            j < b@.len() ==> forall|k: int| 0 <= k < out@.len() ==> (#[trigger] out@[k]).key() <= b@[j as int].key(),
        decreases a@.len() + b@.len() - i - j,
    {
        let take_a = if i < a.len() && j < b.len() {
            a[i].key_le(&b[j])
        } else {
            i < a.len()
        };
        let ghost before = out@;
        if take_a {
            let x = a[i];
            proof {
                assert(a@.take(i + 1) =~= a@.take(i as int).push(x));
                vstd::seq_lib::to_multiset_build(a@.take(i as int), x);
            }
            out.push(x);
            proof {
                assert(out@ =~= before.push(x));
                vstd::seq_lib::to_multiset_build(before, x);
            }
            i = i + 1;
        } else {
            let y = b[j];
            proof {
                assert(b@.take(j + 1) =~= b@.take(j as int).push(y));
                vstd::seq_lib::to_multiset_build(b@.take(j as int), y);
            }
            out.push(y);
            proof {
                assert(out@ =~= before.push(y));
                vstd::seq_lib::to_multiset_build(before, y);
            }
            j = j + 1;
        }
    }
    proof {
        assert(a@.take(i as int) =~= a@);
        assert(b@.take(j as int) =~= b@);
    }
    out
}

/// `v` sorted by key, equal keys in no particular order.
pub fn sort_by_key<K: SortKey>(v: &[K]) -> (out: Vec<K>)
    ensures
        in_order(out@),
        out@.to_multiset() == v@.to_multiset(),
    decreases v@.len(),
{
    broadcast use vstd::seq_lib::group_to_multiset_ensures;

    if v.len() <= 1 {
        let mut out: Vec<K> = Vec::new();
        if v.len() == 1 {
            out.push(v[0]);
            assert(out@ =~= v@);
        } else {
            assert(out@ =~= v@);
        }
        return out;
    }
    let mid = v.len() / 2;
    let mut left: Vec<K> = Vec::new();
    let mut right: Vec<K> = Vec::new();
    let mut k: usize = 0;
    while k < v.len()
        invariant
            mid <= v@.len(),
            k <= v@.len(),
            left@ == v@.take(if k < mid { k as int } else { mid as int }),
            right@ == v@.subrange(mid as int, if k < mid { mid as int } else { k as int }),
        decreases v@.len() - k,
    {
        if k < mid {
            left.push(v[k]);
        } else {
            right.push(v[k]);
        }
        k = k + 1;
    }
    proof {
        assert(v@ =~= left@ + right@);
        vstd::seq_lib::lemma_multiset_commutative(left@, right@);
    }
    let l = sort_by_key(left.as_slice());
    let r = sort_by_key(right.as_slice());
    merge(&l, &r)
}

/// `v` sorted into non-decreasing order.
pub fn sort_values(v: &[i64]) -> (out: Vec<i64>)
    ensures
        non_decreasing(out@),
        out@.to_multiset() == v@.to_multiset(),
{
    sort_by_key(v)
}

/// The distinct values of `a` in increasing order, and for each element of `a` its position
/// among them.
pub fn compress(a: &Vec<i64>) -> (res: (Vec<i64>, Vec<usize>))
    ensures
        strictly_increasing(res.0@),
        res.0@.len() <= a@.len(),
        forall|x: i64| a@.contains(x) <==> res.0@.contains(x),
        res.1@.len() == a@.len(),
        forall|i: int| 0 <= i < a@.len() ==> (#[trigger] res.1@[i]) < res.0@.len() && res.0@[res.1@[i] as int] == a@[i],
{
    broadcast use vstd::seq_lib::group_to_multiset_ensures;

    let sorted = sort_values(a.as_slice());
    assert(sorted@.len() == a@.len()) by {
        assert(sorted@.len() == sorted@.to_multiset().len());
        assert(a@.len() == a@.to_multiset().len());
    }
    let mut vals: Vec<i64> = Vec::new();
    let mut k: usize = 0;
    while k < sorted.len()
        invariant
            non_decreasing(sorted@),
            k <= sorted@.len(),
            sorted@.len() == a@.len(),
            vals@.len() <= k,
            strictly_increasing(vals@),
            forall|x: i64| sorted@.take(k as int).contains(x) <==> vals@.contains(x),
            vals@.len() > 0 ==> k > 0 && vals@.last() == sorted@[k - 1],
            k > 0 ==> vals@.len() > 0,
        decreases sorted@.len() - k,
    {
        let x = sorted[k];
        let ghost before = vals@;
        assert(forall|y: i64|
            #![trigger sorted@.take(k as int).contains(y)]
            #![trigger before.contains(y)]
            sorted@.take(k as int).contains(y) <==> before.contains(y));
        if vals.len() == 0 || vals[vals.len() - 1] != x {
            vals.push(x);
            proof {
                let tk = sorted@.take(k as int);
                let tk1 = sorted@.take(k + 1);
                assert(tk1 =~= tk.push(x));
                assert forall|y: i64| tk1.contains(y) implies vals@.contains(y) by {
                    let q = choose|q: int| 0 <= q < tk1.len() && tk1[q] == y;
                    if q < k {
                        assert(tk[q] == y);
                        assert(tk.contains(y));
                        let q2 = choose|q2: int| 0 <= q2 < before.len() && before[q2] == y;
                        assert(vals@[q2] == y);
                    } else {
                        assert(vals@[vals@.len() - 1] == y);
                    }
                }
                assert forall|y: i64| vals@.contains(y) implies tk1.contains(y) by {
                    let q = choose|q: int| 0 <= q < vals@.len() && vals@[q] == y;
                    if q < before.len() {
                        assert(before[q] == y);
                        assert(before.contains(y));
                        let q3 = choose|q3: int| 0 <= q3 < tk.len() && tk[q3] == y;
                        assert(tk1[q3] == y);
                    } else {
                        assert(tk1[k as int] == y);
                    }
                }
            }
        } else {
            proof {
                assert forall|y: i64| sorted@.take(k + 1).contains(y) <==> vals@.contains(y) by {
                    assert(sorted@.take(k + 1) =~= sorted@.take(k as int).push(x));
                    if y == x {
                        assert(vals@[vals@.len() - 1] == x);
                    }
                }
            }
        }
        k = k + 1;
    }
    proof {
        assert(sorted@.take(k as int) =~= sorted@);
        assert forall|x: i64| a@.contains(x) <==> sorted@.contains(x) by {
            assert(a@.contains(x) <==> a@.to_multiset().count(x) > 0);
            assert(sorted@.contains(x) <==> sorted@.to_multiset().count(x) > 0);
        }
    }
    let mut rank: Vec<usize> = Vec::new();
    let mut i: usize = 0;
    while i < a.len()
        invariant
            strictly_increasing(vals@),
            vals@.len() <= a@.len(),
            forall|x: i64| a@.contains(x) <==> vals@.contains(x),
            i <= a@.len(),
            rank@.len() == i,
            forall|q: int| 0 <= q < i ==> (#[trigger] rank@[q]) < vals@.len() && vals@[rank@[q] as int] == a@[q],
        decreases a@.len() - i,
    {
        assert(a@.contains(a@[i as int]));
        let p = position(&vals, a[i]);
        rank.push(p);
        i = i + 1;
    }
    (vals, rank)
}

/// The position of `x` in the strictly increasing `vals`, which holds it.
pub fn position(vals: &Vec<i64>, x: i64) -> (p: usize)
    requires
        strictly_increasing(vals@),
        vals@.contains(x),
    ensures
        p < vals@.len(),
        vals@[p as int] == x,
{
    let mut lo: usize = 0;
    let mut hi: usize = vals.len();
    while hi - lo > 1
        invariant
            strictly_increasing(vals@),
            lo < hi <= vals@.len(),
            exists|q: int| lo <= q < hi && vals@[q] == x,
        decreases hi - lo,
    {
        let mid = lo + (hi - lo) / 2;
        if vals[mid] <= x {
            lo = mid;
        } else {
            hi = mid;
        }
    }
    lo
}

} // verus!
