use vstd::prelude::*;
use std::marker::PhantomData;

verus! {

/// A set with an associative binary operation and a unit element for it.
pub trait Monoid {
    /// The carrier set.
    type S: Clone;

    /// The unit element.
    spec fn unit() -> Self::S;

    /// The binary operation.
    spec fn combine(a: Self::S, b: Self::S) -> Self::S;

    /// The operation is associative.
    proof fn lemma_associative(a: Self::S, b: Self::S, c: Self::S)
        ensures
            Self::combine(Self::combine(a, b), c) == Self::combine(a, Self::combine(b, c)),
    ;

    /// `unit()` is a unit on both sides.
    proof fn lemma_unit(a: Self::S)
        ensures
            Self::combine(Self::unit(), a) == a,
            Self::combine(a, Self::unit()) == a,
    ;

    /// Returns the unit element.
    fn identity() -> (r: Self::S)
        ensures
            r == Self::unit(),
    ;

    /// Combines `a` and `b`.
    fn binary_operation(a: &Self::S, b: &Self::S) -> (r: Self::S)
        ensures
            r == Self::combine(*a, *b),
    ;
}

/// The product `s[0] * s[1] * ... * s[len - 1]` in the monoid `M`, the unit when `s` is empty.
pub open spec fn fold<M: Monoid>(s: Seq<M::S>) -> M::S
    decreases s.len(),
{
    if s.len() == 0 {
        M::unit()
    } else {
        M::combine(fold::<M>(s.drop_last()), s.last())
    }
}

/// The product of a concatenation is the product of the two products.
pub proof fn lemma_fold_concat<M: Monoid>(a: Seq<M::S>, b: Seq<M::S>)
    ensures
        fold::<M>(a + b) == M::combine(fold::<M>(a), fold::<M>(b)),
    decreases b.len(),
{
    if b.len() == 0 {
        assert(a + b =~= a);
        M::lemma_unit(fold::<M>(a));
    } else {
        lemma_fold_concat::<M>(a, b.drop_last());
        assert((a + b).drop_last() =~= a + b.drop_last());
        assert((a + b).last() == b.last());
        M::lemma_associative(fold::<M>(a), fold::<M>(b.drop_last()), b.last());
    }
}

/// The product of a single element is that element.
pub proof fn lemma_fold_single<M: Monoid>(x: M::S)
    ensures
        fold::<M>(seq![x]) == x,
{
    assert(seq![x].drop_last() =~= Seq::<M::S>::empty());
    assert(fold::<M>(Seq::<M::S>::empty()) == M::unit());
    assert(seq![x].last() == x);
    M::lemma_unit(x);
}

/// Addition of `i64` values, wrapping around on overflow.
pub struct Additive<T>(PhantomData<T>);

impl Monoid for Additive<i64> {
    type S = i64;

    open spec fn unit() -> i64 {
        0
    }

    open spec fn combine(a: i64, b: i64) -> i64 {
        vstd::wrapping::i64_specs::wrapping_add(a, b)
    }

    proof fn lemma_associative(a: i64, b: i64, c: i64) {
    }

    proof fn lemma_unit(a: i64) {
    }

    fn identity() -> (r: i64) {
        0
    }

    fn binary_operation(a: &i64, b: &i64) -> (r: i64) {
        a.wrapping_add(*b)
    }
}

/// The wrapping sum equals the exact sum whenever the exact sum fits in `i64`.
pub proof fn lemma_additive_exact(s: Seq<i64>)
    requires
        forall|i: int|
            0 <= i <= s.len() ==> i64::MIN <= #[trigger] exact_sum(s.take(i)) <= i64::MAX,
    ensures
        fold::<Additive<i64>>(s) == exact_sum(s),
    decreases s.len(),
{
    if s.len() > 0 {
        let t = s.drop_last();
        assert forall|i: int| 0 <= i <= t.len() implies i64::MIN <= #[trigger] exact_sum(t.take(i))
            <= i64::MAX by {
            assert(t.take(i) =~= s.take(i));
        }
        lemma_additive_exact(t);
        assert(s.take(s.len() as int) =~= s);
    }
}

/// The exact integer sum of a sequence.
pub open spec fn exact_sum(s: Seq<i64>) -> int
    decreases s.len(),
{
    if s.len() == 0 {
        0
    } else {
        exact_sum(s.drop_last()) + s.last()
    }
}

/// Whether `x` is a power of two.
pub open spec fn is_pow2(x: nat) -> bool
    decreases x,
{
    if x == 1 {
        true
    } else if x < 2 || x % 2 != 0 {
        false
    } else {
        is_pow2(x / 2)
    }
}

proof fn lemma_pow2_step(p: nat, s: nat)
    requires
        is_pow2(p),
        is_pow2(s),
        p < s,
    ensures
        2 * p <= s,
        is_pow2(2 * p),
    decreases s,
{
    assert(is_pow2(2 * p)) by {
        assert((2 * p) / 2 == p);
    }
    if p != 1 {
        lemma_pow2_step(p / 2, s / 2);
    }
}

/// A segment tree over a sequence of monoid elements.
///
/// `data[size + i]` holds the `i`-th element, `data[size + i]` for `i >= n` holds the unit,
/// and every internal node `1 <= k < size` holds the product of its children `2k`, `2k + 1`.
pub struct Segtree<M: Monoid> {
    n: usize,
    size: usize,
    data: Vec<M::S>,
}

/// Whether `j` lies on the path from `k` to the root, `k` itself excluded.
pub open spec fn strict_ancestor(j: int, k: int) -> bool
    decreases k,
{
    if k <= 1 {
        false
    } else {
        k / 2 == j || strict_ancestor(j, k / 2)
    }
}

/// Node `k` of the layout `d` holds the product of its two children.
pub open spec fn node_ok_in<M: Monoid>(d: Seq<M::S>, k: int) -> bool {
    d[k] == M::combine(d[2 * k], d[2 * k + 1])
}

impl<M: Monoid> View for Segtree<M> {
    type V = Seq<M::S>;

    closed spec fn view(&self) -> Seq<M::S> {
        self.data@.subrange(self.size as int, self.size + self.n)
    }
}

impl<M: Monoid> Segtree<M> {
    spec fn node_ok(&self, k: int) -> bool {
        node_ok_in::<M>(self.data@, k)
    }

    /// The internal invariant of the tree layout.
    pub closed spec fn wf(&self) -> bool {
        &&& is_pow2(self.size as nat)
        &&& self.n <= self.size
        &&& self.data@.len() == 2 * self.size
        &&& self.size + self.size <= usize::MAX
        &&& forall|i: int| self.n <= i < self.size ==> #[trigger] self.data@[self.size + i] == M::unit()
        &&& forall|k: int| 1 <= k < self.size ==> #[trigger] self.node_ok(k)
    }

    proof fn lemma_level(&self, l: int, r: int)
        requires
            1 <= l <= r,
            2 * r <= self.data@.len(),
            forall|k: int| l <= k < r ==> #[trigger] self.node_ok(k),
        ensures
            fold::<M>(self.data@.subrange(l, r)) == fold::<M>(self.data@.subrange(2 * l, 2 * r)),
        decreases r - l,
    {
        let d = self.data@;
        if l < r {
            self.lemma_level(l, r - 1);
            assert(d.subrange(l, r).drop_last() =~= d.subrange(l, r - 1));
            let lo = d.subrange(2 * l, 2 * r);
            assert(lo.drop_last() =~= d.subrange(2 * l, 2 * r - 1));
            assert(lo.drop_last().drop_last() =~= d.subrange(2 * l, 2 * r - 2));
            assert(fold::<M>(lo) == M::combine(fold::<M>(lo.drop_last()), d[2 * r - 1]));
            assert(fold::<M>(lo.drop_last()) == M::combine(
                fold::<M>(lo.drop_last().drop_last()),
                d[2 * r - 2],
            ));
            assert(fold::<M>(d.subrange(l, r)) == M::combine(
                fold::<M>(d.subrange(l, r - 1)),
                d[r - 1],
            ));
            assert(self.node_ok(r - 1));
            M::lemma_associative(
                fold::<M>(d.subrange(2 * l, 2 * r - 2)),
                d[2 * r - 2],
                d[2 * r - 1],
            );
        } else {
            assert(d.subrange(l, r) =~= Seq::<M::S>::empty());
            assert(d.subrange(2 * l, 2 * r) =~= Seq::<M::S>::empty());
        }
    }

    proof fn lemma_root(&self, p: nat)
        requires
            self.wf(),
            is_pow2(p),
            p <= self.size,
        ensures
            fold::<M>(self.data@.subrange(p as int, (2 * p) as int)) == fold::<M>(
                self.data@.subrange(self.size as int, 2 * self.size),
            ),
        decreases self.size - p,
    {
        if p < self.size {
            lemma_pow2_step(p, self.size as nat);
            self.lemma_level(p as int, (2 * p) as int);
            self.lemma_root(2 * p);
        }
    }

    proof fn lemma_leaves(&self, l: int, r: int)
        requires
            self.wf(),
            0 <= l <= r <= self.n,
        ensures
            self.data@.subrange(self.size + l, self.size + r) == self@.subrange(l, r),
    {
        assert(self.data@.subrange(self.size + l, self.size + r) =~= self@.subrange(l, r));
    }

    proof fn lemma_all_leaves(&self)
        requires
            self.wf(),
        ensures
            fold::<M>(self.data@.subrange(self.size as int, 2 * self.size)) == fold::<M>(self@),
    {
        let d = self.data@;
        let pad = d.subrange(self.size + self.n, 2 * self.size);
        assert(d.subrange(self.size as int, 2 * self.size) =~= self@ + pad);
        lemma_fold_concat::<M>(self@, pad);
        assert forall|i: int| 0 <= i < pad.len() implies pad[i] == M::unit() by {
            assert(pad[i] == d[self.size + (self.n + i)]);
        }
        self.lemma_fold_units(pad);
        M::lemma_unit(fold::<M>(self@));
    }

    proof fn lemma_fold_units(&self, s: Seq<M::S>)
        requires
            forall|i: int| 0 <= i < s.len() ==> s[i] == M::unit(),
        ensures
            fold::<M>(s) == M::unit(),
        decreases s.len(),
    {
        if s.len() > 0 {
            self.lemma_fold_units(s.drop_last());
            M::lemma_unit(M::unit());
        }
    }

    /// Builds the tree over the elements of `v`.
    pub fn from_vec(v: Vec<M::S>) -> (t: Self)
        requires
            4 * v@.len() <= usize::MAX + 1,
        ensures
            t.wf(),
            t@ == v@,
    {
        let mut v = v;
        let ghost v0 = v@;
        let n = v.len();
        let mut size: usize = 1;
        while size < n
            invariant
                is_pow2(size as nat),
                size >= 1,
                4 * n <= usize::MAX + 1,
                size == 1 || size < 2 * n,
            decreases 2 * n - size,
        {
            assert(((2 * size) as nat) / 2 == size as nat);
            size = size * 2;
        }
        let mut data: Vec<M::S> = Vec::new();
        let mut i: usize = 0;
        while i < size
            invariant
                i <= size,
                data@.len() == i,
                forall|j: int| 0 <= j < i ==> data@[j] == M::unit(),
            decreases size - i,
        {
            data.push(M::identity());
            i = i + 1;
        }
        data.append(&mut v);
        assert(data@ =~= Seq::new(size as nat, |j: int| M::unit()) + v0);
        let mut i: usize = n;
        while i < size
            invariant
                n <= i <= size,
                v0.len() == n,
                data@.len() == size + i,
                4 * n <= usize::MAX + 1,
                size == 1 || size < 2 * n,
                forall|j: int| 0 <= j < size ==> data@[j] == M::unit(),
                forall|j: int| 0 <= j < n ==> #[trigger] data@[size + j] == v0[j],
                forall|j: int| n <= j < i ==> #[trigger] data@[size + j] == M::unit(),
            decreases size - i,
        {
            data.push(M::identity());
            i = i + 1;
        }
        let mut k: usize = size;
        while k > 1
            invariant
                1 <= k <= size,
                v0.len() == n,
                size >= 1,
                4 * n <= usize::MAX + 1,
                size == 1 || size < 2 * n,
                is_pow2(size as nat),
                n <= size,
                data@.len() == 2 * size,
                forall|j: int| 0 <= j < n ==> #[trigger] data@[size + j] == v0[j],
                forall|j: int| n <= j < size ==> #[trigger] data@[size + j] == M::unit(),
                forall|j: int|
                    k <= j < size ==> #[trigger] data@[j] == M::combine(data@[2 * j], data@[2 * j + 1]),
            decreases k,
        {
            k = k - 1;
            let x = M::binary_operation(&data[2 * k], &data[2 * k + 1]);
            let ghost before = data@;
            data.set(k, x);
            proof {
                assert forall|j: int| 0 <= j < n implies #[trigger] data@[size + j] == v0[j] by {
                    assert(data@[size + j] == before[size + j]);
                }
                assert forall|j: int| n <= j < size implies #[trigger] data@[size + j]
                    == M::unit() by {
                    assert(data@[size + j] == before[size + j]);
                }
            }
        }
        let t = Segtree { n, size, data };
        proof {
            assert forall|k: int| 1 <= k < t.size implies #[trigger] t.node_ok(k) by {}
            assert forall|j: int| 0 <= j < n implies t@[j] == v0[j] by {
                assert(t.data@[size + j] == v0[j]);
            }
            assert(t@ =~= v0);
        }
        t
    }

    /// A tree of `n` unit elements.
    pub fn new(n: usize) -> (t: Self)
        requires
            4 * n <= usize::MAX + 1,
        ensures
            t.wf(),
            t@ == Seq::new(n as nat, |i: int| M::unit()),
    {
        let mut v: Vec<M::S> = Vec::new();
        let mut i: usize = 0;
        while i < n
            invariant
                i <= n,
                v@ == Seq::new(i as nat, |j: int| M::unit()),
            decreases n - i,
        {
            v.push(M::identity());
            i = i + 1;
            proof {
                assert(v@ =~= Seq::new(i as nat, |j: int| M::unit()));
            }
        }
        Self::from_vec(v)
    }

    /// Builds the tree over clones of the elements of `v`.
    pub fn from_slice(v: &[M::S]) -> (t: Self)
        requires
            4 * v@.len() <= usize::MAX + 1,
        ensures
            t.wf(),
            t@.len() == v@.len(),
            forall|i: int| 0 <= i < v@.len() ==> cloned::<M::S>(v@[i], #[trigger] t@[i]),
    {
        let mut w: Vec<M::S> = Vec::new();
        let mut i: usize = 0;
        while i < v.len()
            invariant
                i <= v@.len(),
                w@.len() == i,
                forall|j: int| 0 <= j < i ==> cloned::<M::S>(v@[j], #[trigger] w@[j]),
            decreases v@.len() - i,
        {
            w.push(v[i].clone());
            i = i + 1;
        }
        Self::from_vec(w)
    }

    /// The length of the sequence.
    pub fn len(&self) -> (r: usize)
        requires
            self.wf(),
        ensures
            r == self@.len(),
    {
        self.n
    }

    /// Whether the sequence is empty.
    pub fn is_empty(&self) -> (r: bool)
        requires
            self.wf(),
        ensures
            r == (self@.len() == 0),
    {
        self.n == 0
    }

    /// Replaces the `p`-th element by `x`.
    pub fn set(&mut self, p: usize, x: M::S)
        requires
            old(self).wf(),
            p < old(self)@.len(),
        ensures
            final(self).wf(),
            final(self)@ == old(self)@.update(p as int, x),
    {
        let ghost old_view = self@;
        let size = self.size;
        let mut k = p + size;
        let ghost d0 = self.data@;
        self.data.set(k, x);
        proof {
            assert forall|j: int|
                1 <= j < size && !strict_ancestor(j, k as int) implies #[trigger] node_ok_in::<M>(
                self.data@,
                j,
            ) by {
                assert(old(self).node_ok(j));
                if 2 * j == k || 2 * j + 1 == k {
                    assert(strict_ancestor(j, k as int));
                }
            }
            assert forall|i: int| self.n <= i < size implies #[trigger] self.data@[size + i]
                == M::unit() by {
                assert(d0[size + i] == M::unit());
            }
            assert(self@ =~= old_view.update(p as int, x));
        }
        while k > 1
            invariant
                size == self.size,
                self.n == old(self).n,
                is_pow2(size as nat),
                self.n <= size,
                size + size <= usize::MAX,
                self.data@.len() == 2 * size,
                size <= k < 2 * size || (1 <= k < size),
                forall|i: int| self.n <= i < size ==> #[trigger] self.data@[size + i] == M::unit(),
                self@ == old_view.update(p as int, x),
                forall|j: int|
                    1 <= j < size && !strict_ancestor(j, k as int) ==> #[trigger] node_ok_in::<M>(
                        self.data@,
                        j,
                    ),
            decreases k,
        {
            let ghost k0 = k as int;
            let ghost before = self.data@;
            k = k / 2;
            let v = M::binary_operation(&self.data[2 * k], &self.data[2 * k + 1]);
            self.data.set(k, v);
            proof {
                assert forall|j: int|
                    1 <= j < size && !strict_ancestor(j, k as int) implies #[trigger] node_ok_in::<
                    M,
                >(self.data@, j) by {
                    assert(strict_ancestor(j, k0) == (k0 / 2 == j || strict_ancestor(j, k0 / 2)));
                    if j != k {
                        assert(node_ok_in::<M>(before, j));
                        if 2 * j == k || 2 * j + 1 == k {
                            assert(strict_ancestor(j, k as int));
                        }
                    }
                }
                assert forall|i: int| self.n <= i < size implies #[trigger] self.data@[size + i]
                    == M::unit() by {
                    assert(before[size + i] == M::unit());
                }
                assert(self@ =~= old_view.update(p as int, x));
            }
        }
        proof {
            assert forall|j: int| 1 <= j < size implies #[trigger] self.node_ok(j) by {
                assert(!strict_ancestor(j, 1));
                assert(node_ok_in::<M>(self.data@, j));
            }
        }
    }

    /// A clone of the `p`-th element.
    pub fn get(&self, p: usize) -> (r: M::S)
        requires
            self.wf(),
            p < self@.len(),
        ensures
            cloned::<M::S>(self@[p as int], r),
    {
        self.data[p + self.size].clone()
    }

    /// The product of the elements with indices in `range`, the unit when it is empty.
    pub fn prod(&self, range: std::ops::Range<usize>) -> (r: M::S)
        requires
            self.wf(),
            range.start <= range.end <= self@.len(),
        ensures
            r == fold::<M>(self@.subrange(range.start as int, range.end as int)),
    {
        let ghost target = fold::<M>(self@.subrange(range.start as int, range.end as int));
        if range.start == range.end {
            proof {
                assert(self@.subrange(range.start as int, range.end as int) =~= Seq::<
                    M::S,
                >::empty());
            }
            return M::identity();
        }
        let mut l = range.start + self.size;
        let mut r = range.end + self.size;
        let mut sml = M::identity();
        let mut smr = M::identity();
        proof {
            self.lemma_leaves(range.start as int, range.end as int);
            M::lemma_unit(fold::<M>(self.data@.subrange(l as int, r as int)));
            M::lemma_unit(M::combine(M::unit(), fold::<M>(self.data@.subrange(l as int, r as int))));
        }
        while l < r
            invariant
                self.wf(),
                1 <= l <= r <= 2 * self.size,
                M::combine(M::combine(sml, fold::<M>(self.data@.subrange(l as int, r as int))), smr)
                    == target,
            decreases r,
        {
            let ghost d = self.data@;
            if l % 2 == 1 {
                proof {
                    let rest = d.subrange(l + 1, r as int);
                    assert(d.subrange(l as int, r as int) =~= seq![d[l as int]] + rest);
                    lemma_fold_concat::<M>(seq![d[l as int]], rest);
                    lemma_fold_single::<M>(d[l as int]);
                    M::lemma_associative(sml, d[l as int], fold::<M>(rest));
                }
                sml = M::binary_operation(&sml, &self.data[l]);
                l = l + 1;
            }
            if r % 2 == 1 {
                proof {
                    let rest = d.subrange(l as int, r - 1);
                    assert(d.subrange(l as int, r as int) =~= rest + seq![d[r - 1]]);
                    lemma_fold_concat::<M>(rest, seq![d[r - 1]]);
                    lemma_fold_single::<M>(d[r - 1]);
                    M::lemma_associative(
                        M::combine(sml, fold::<M>(rest)),
                        d[r - 1],
                        smr,
                    );
                    M::lemma_associative(sml, fold::<M>(rest), d[r - 1]);
                }
                r = r - 1;
                smr = M::binary_operation(&self.data[r], &smr);
            }
            proof {
                assert forall|k: int| l / 2 <= k < r / 2 implies #[trigger] self.node_ok(k) by {}
                if l < r {
                    self.lemma_level((l / 2) as int, (r / 2) as int);
                } else {
                    assert(d.subrange(l as int, r as int) =~= Seq::<M::S>::empty());
                    assert(d.subrange((l / 2) as int, (r / 2) as int) =~= Seq::<M::S>::empty());
                }
            }
            l = l / 2;
            r = r / 2;
        }
        proof {
            assert(self.data@.subrange(l as int, r as int) =~= Seq::<M::S>::empty());
            M::lemma_unit(sml);
        }
        M::binary_operation(&sml, &smr)
    }

    /// A clone of the product of the whole sequence.
    pub fn all_prod(&self) -> (r: M::S)
        requires
            self.wf(),
        ensures
            cloned::<M::S>(fold::<M>(self@), r),
    {
        proof {
            self.lemma_root(1);
            self.lemma_all_leaves();
            let d = self.data@;
            assert(d.subrange(1, 2) =~= seq![d[1]]);
            lemma_fold_single::<M>(d[1]);
        }
        self.data[1].clone()
    }
}

} // verus!
