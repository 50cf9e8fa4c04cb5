use vstd::prelude::*;

verus! {

/// The end of block `b` (blocks of `n` elements) in a sequence of `len` elements.
pub open spec fn block_end(b: int, n: int, len: int) -> int {
    if (b + 1) * n < len {
        (b + 1) * n
    } else {
        len
    }
}

/// The number of blocks of `n` elements that `len` elements fill, the last one maybe partly.
pub open spec fn blocks_for(len: nat, n: nat) -> nat {
    if n == 0 {
        0
    } else {
        ((len + n - 1) as nat) / n
    }
}

/// The elements of block `b`.
pub open spec fn block_of<E>(s: Seq<E>, b: int, n: int) -> Seq<E> {
    s.subrange(b * n, block_end(b, n, s.len() as int))
}

/// `c` is what `cacher` may return for the elements `elems`.
pub open spec fn caches<E, C, Fc: Fn(&[E]) -> C>(cacher: Fc, elems: Seq<E>, c: C) -> bool {
    exists|s: &[E]| s@ == elems && call_ensures(cacher, (s,), c)
}

/// Each of the blocks of `s` holds at least one and at most `n` elements, and starts `n`
/// elements after the one before.
pub proof fn lemma_block_of_len<E>(s: Seq<E>, b: int, n: int)
    requires
        n > 0,
        0 <= b < blocks_for(s.len(), n as nat),
    ensures
        b * n < s.len(),
        block_of(s, b, n).len() == block_end(b, n, s.len() as int) - b * n,
        0 < block_of(s, b, n).len() <= n,
{
    lemma_blocks_for(s.len(), n as nat);
    let k = blocks_for(s.len(), n as nat);
    assert(b * n < s.len()) by (nonlinear_arith)
        requires
            b < k,
            s.len() > 0 ==> (k - 1) * n < s.len(),
            s.len() == 0 ==> k == 0,
            n > 0,
            b >= 0,
    ;
    assert((b + 1) * n == b * n + n) by (nonlinear_arith);
}

/// The cacher accepts every block of `s` (blocks of `n` elements).
pub open spec fn blocks_accepted<E, C, Fc: Fn(&[E]) -> C>(cacher: Fc, s: Seq<E>, n: int) -> bool {
    forall|b: int, q: &[E]|
        #![trigger call_requires(cacher, (q,)), block_of(s, b, n)]
        0 <= b && b * n < s.len() && q@ == block_of(s, b, n) ==> call_requires(cacher, (q,))
}

/// The resolver accepts, with `arg`, every stretch of at most `n` elements of `s`.
pub open spec fn parts_accepted<E, A, R, Fr: Fn(&[E], &A) -> R>(resolver: Fr, s: Seq<E>, n: int, arg: &A) -> bool {
    forall|lo: int, hi: int, q: &[E]|
        #![trigger call_requires(resolver, (q, arg)), s.subrange(lo, hi)]
        0 <= lo <= hi <= s.len() && hi - lo <= n && q@ == s.subrange(lo, hi) ==> call_requires(resolver, (q, arg))
}

proof fn lemma_blocks_for(len: nat, n: nat)
    requires
        n > 0,
    ensures
        blocks_for(len, n) * n >= len,
        len > 0 ==> (blocks_for(len, n) - 1) * n < len,
        len > 0 ==> blocks_for(len, n) == (len - 1) / (n as int) + 1,
        len == 0 ==> blocks_for(len, n) == 0,
{
    let q = (len + n - 1) / (n as int);
    assert(q * n <= len + n - 1 < q * n + n) by {
        vstd::arithmetic::div_mod::lemma_fundamental_div_mod((len + n - 1) as int, n as int);
        vstd::arithmetic::div_mod::lemma_mod_bound((len + n - 1) as int, n as int);
    }
    if len > 0 {
        let p = (len - 1) / (n as int);
        assert(p * n <= len - 1 < p * n + n) by {
            vstd::arithmetic::div_mod::lemma_fundamental_div_mod((len - 1) as int, n as int);
            vstd::arithmetic::div_mod::lemma_mod_bound((len - 1) as int, n as int);
        }
        assert(q == p + 1) by (nonlinear_arith)
            requires
                q * n <= len + n - 1 < q * n + n,
                p * n <= len - 1 < p * n + n,
                n > 0,
        ;
        assert((q - 1) * n < len) by (nonlinear_arith)
            requires
                q * n < len + n,
        ;
    } else {
        assert(q == 0) by (nonlinear_arith)
            requires
                q * n <= n - 1 < q * n + n,
                n > 0,
        ;
    }
}


proof fn lemma_blocks_unique(len: nat, n: nat, k: nat)
    requires
        n > 0,
        k * n >= len,
        len > 0 ==> (k - 1) * n < len,
        len == 0 ==> k == 0,
    ensures
        k == blocks_for(len, n),
{
    lemma_blocks_for(len, n);
    let f = blocks_for(len, n);
    if len > 0 {
        assert(k == f) by (nonlinear_arith)
            requires
                k * n >= len,
                (k - 1) * n < len,
                f * n >= len,
                (f - 1) * n < len,
                n > 0,
        ;
    }
}

proof fn lemma_div_bounds(x: nat, n: nat)
    requires
        n > 0,
    ensures
        (x / n) * n <= x < (x / n) * n + n,
{
    vstd::arithmetic::div_mod::lemma_fundamental_div_mod(x as int, n as int);
    vstd::arithmetic::div_mod::lemma_mod_bound(x as int, n as int);
    let q = x / n;
    assert(q * n == n * q) by (nonlinear_arith);
}

proof fn lemma_block_same_prefix<E>(s: Seq<E>, t: Seq<E>, b: int, n: int)
    requires
        n > 0,
        b >= 0,
        (b + 1) * n <= s.len(),
        (b + 1) * n <= t.len(),
        s.take((b + 1) * n) == t.take((b + 1) * n),
    ensures
        block_of(s, b, n) == block_of(t, b, n),
{
    assert((b + 1) * n == b * n + n) by (nonlinear_arith);
    assert(b * n >= 0) by (nonlinear_arith)
        requires
            n > 0,
            b >= 0,
    ;
    let e = (b + 1) * n;
    assert(block_end(b, n, s.len() as int) == e);
    assert(block_end(b, n, t.len() as int) == e);
    assert forall|j: int| b * n <= j < e implies #[trigger] s[j] == t[j] by {
        assert(s.take(e)[j] == t.take(e)[j]);
    }
    assert(block_of(s, b, n) =~= block_of(t, b, n));
}

proof fn lemma_block_update<E>(s: Seq<E>, i: int, e: E, b: int, n: int)
    requires
        n > 0,
        b >= 0,
        0 <= i < s.len(),
        b * n <= s.len(),
        i < b * n || (b + 1) * n <= i,
    ensures
        block_of(s.update(i, e), b, n) == block_of(s, b, n),
{
    assert(b * n >= 0) by (nonlinear_arith)
        requires
            n > 0,
            b >= 0,
    ;
    let end = block_end(b, n, s.len() as int);
    assert(end <= (b + 1) * n);
    assert(b * n <= end) by (nonlinear_arith)
        requires
            b * n <= s.len(),
            end == (if (b + 1) * n < s.len() { (b + 1) * n } else { s.len() as int }),
            n > 0,
    ;
    assert forall|j: int| b * n <= j < end implies #[trigger] s.update(i, e)[j] == s[j] by {
        assert(j != i);
    }
    assert(block_of(s.update(i, e), b, n) =~= block_of(s, b, n));
}

/// The number of blocks of `N` elements that `len` elements fill.
fn blocks_count(len: usize, n: usize) -> (r: usize)
    requires
        n > 0,
    ensures
        r == blocks_for(len as nat, n as nat),
{
    proof {
        lemma_blocks_for(len as nat, n as nat);
    }
    if len == 0 {
        0
    } else {
        (len - 1) / n + 1
    }
}

/// Answers range queries over a sequence split into blocks of `N` elements: each block keeps
/// a summary (its cache), and a query combines the summaries of the whole blocks it covers
/// with direct answers for the partial blocks at its ends.
///
/// Changes mark the touched block dirty; `into_immut` recomputes the dirty summaries.
pub struct DivConquer<const N: usize, E, C, R, A, Fc, Fr, Fcr, Fm> {
    slice: Vec<E>,
    dirty: Vec<bool>,
    cache: Vec<Option<C>>,
    cacher: Fc,
    resolver: Fr,
    cache_resolver: Fcr,
    merger: Fm,
    args: Ghost<(R, A)>,
}

impl<const N: usize, E, C, R, A, Fc, Fr, Fcr, Fm> DivConquer<N, E, C, R, A, Fc, Fr, Fcr, Fm> where
    Fc: Fn(&[E]) -> C,
    Fr: Fn(&[E], &A) -> R,
    Fcr: Fn(&C, &A) -> R,
    Fm: Fn(R, R) -> R,
 {
    /// The elements.
    pub closed spec fn elements(&self) -> Seq<E> {
        self.slice@
    }

    /// The summaries, one per block; `None` for a block opened since and not yet summarised.
    pub closed spec fn caches(&self) -> Seq<Option<C>> {
        self.cache@
    }

    /// Which blocks changed since their summary was taken.
    pub closed spec fn dirty(&self) -> Seq<bool> {
        self.dirty@
    }

    /// The function that summarises a block.
    pub closed spec fn cacher(&self) -> Fc {
        self.cacher
    }

    /// The function that answers for elements.
    pub closed spec fn resolver(&self) -> Fr {
        self.resolver
    }

    /// The function that answers for a summary.
    pub closed spec fn cache_resolver(&self) -> Fcr {
        self.cache_resolver
    }

    /// The function that merges two answers.
    pub closed spec fn merger(&self) -> Fm {
        self.merger
    }

    /// One summary and one dirty mark per block; every clean block's summary is what the
    /// cacher gave for its elements.
    pub closed spec fn wf(&self) -> bool {
        &&& N > 0
        &&& self.cache@.len() == blocks_for(self.slice@.len(), N as nat)
        &&& self.dirty@.len() == self.cache@.len()
        &&& forall|b: int|
            0 <= b < self.cache@.len() && !(#[trigger] self.dirty@[b]) ==> self.cache@[b] is Some && caches(
                self.cacher,
                block_of(self.slice@, b, N as int),
                self.cache@[b]->0,
            )
    }

    /// Summarises block `b`.
    fn summarise(&self, b: usize) -> (c: C)
        requires
            N > 0,
            blocks_accepted(self.cacher, self.slice@, N as int),
            b * N < self.slice@.len(),
        ensures
            caches(self.cacher, block_of(self.slice@, b as int, N as int), c),
    {
        let len = self.slice.len();
        let start = b * N;
        let end = if len - start > N {
            start + N
        } else {
            len
        };
        proof {
            assert((b + 1) * N == b * N + N) by (nonlinear_arith);
        }
        let part: &[E] = &self.slice.as_slice()[start..end];
        proof {
            assert(part@ == block_of(self.slice@, b as int, N as int));
        }
        let c = (self.cacher)(part);
        c
    }

    /// Appends `element` and marks its block dirty: a block it opens has no summary until
    /// `into_immut`.
    pub fn push(&mut self, element: E)
        requires
            old(self).wf(),
            old(self).elements().len() < usize::MAX,
        ensures
            final(self).wf(),
            final(self).elements() == old(self).elements().push(element),
            final(self).cacher() == old(self).cacher(),
            final(self).resolver() == old(self).resolver(),
            final(self).cache_resolver() == old(self).cache_resolver(),
            final(self).merger() == old(self).merger(),
    {
        let ghost old_s = self.slice@;
        let len = self.slice.len();
        self.slice.push(element);
        let block = len / N;
        proof {
            lemma_div_bounds(len as nat, N as nat);
            lemma_blocks_for(len as nat, N as nat);
        }
        proof {
            assert((block + 1) * N == block * N + N) by (nonlinear_arith);
        }
        if block == self.cache.len() {
            proof {
                lemma_blocks_unique((len + 1) as nat, N as nat, (block + 1) as nat);
            }
            self.cache.push(None);
            self.dirty.push(true);
        } else {
            proof {
                let k = blocks_for(len as nat, N as nat);
                assert(k == block + 1) by (nonlinear_arith)
                    requires
                        k * N >= len,
                        len > 0 ==> (k - 1) * N < len,
                        len == 0 ==> k == 0,
                        block * N <= len < block * N + N,
                        k != block,
                        N > 0,
                ;
                lemma_blocks_unique((len + 1) as nat, N as nat, k);
            }
            self.dirty.set(block, true);
        }
        proof {
            assert forall|b: int|
                0 <= b < self.cache@.len() && !(#[trigger] self.dirty@[b]) implies self.cache@[b] is Some && caches(
                self.cacher,
                block_of(self.slice@, b, N as int),
                self.cache@[b]->0,
            ) by {
                if b != block {
                    assert((b + 1) * N <= block * N) by (nonlinear_arith)
                        requires
                            b < block,
                            N > 0,
                    ;
                    assert(self.slice@.take((b + 1) * N) =~= old_s.take((b + 1) * N));
                    lemma_block_same_prefix(self.slice@, old_s, b, N as int);
                }
            }
        }
    }

    /// Removes and returns the last element (`None` when there is none); a block left empty
    /// goes, the block that lost it is marked dirty otherwise.
    pub fn pop(&mut self) -> (r: Option<E>)
        requires
            old(self).wf(),
        ensures
            final(self).wf(),
            final(self).cacher() == old(self).cacher(),
            final(self).resolver() == old(self).resolver(),
            final(self).cache_resolver() == old(self).cache_resolver(),
            final(self).merger() == old(self).merger(),
            old(self).elements().len() == 0 ==> r is None && final(self).elements() == old(self).elements(),
            old(self).elements().len() > 0 ==> r == Some(old(self).elements().last())
                && final(self).elements() == old(self).elements().drop_last(),
    {
        let ghost old_s = self.slice@;
        let res = self.slice.pop();
        if res.is_some() {
            let len = self.slice.len();
            proof {
                lemma_blocks_for(len as nat, N as nat);
                lemma_blocks_for((len + 1) as nat, N as nat);
                lemma_div_bounds(len as nat, N as nat);
            }
            if self.cache.len() > blocks_count(len, N) {
                self.dirty.pop();
                self.cache.pop();
                proof {
                    let k = blocks_for((len + 1) as nat, N as nat);
                    let k2 = blocks_for(len as nat, N as nat);
                    assert(k2 == k - 1) by (nonlinear_arith)
                        requires
                            k2 < k,
                            k2 * N >= len,
                            (k - 1) * N < len + 1,
                            N > 0,
                    ;
                    assert forall|b: int|
                        0 <= b < self.cache@.len() && !(#[trigger] self.dirty@[b]) implies self.cache@[b] is Some && caches(
                        self.cacher,
                        block_of(self.slice@, b, N as int),
                        self.cache@[b]->0,
                    ) by {
                        assert((b + 1) * N <= len) by (nonlinear_arith)
                            requires
                                b < k - 1,
                                (k - 1) * N < len + 1,
                                N > 0,
                        ;
                        assert(self.slice@.take((b + 1) * N) =~= old_s.take((b + 1) * N));
                        lemma_block_same_prefix(self.slice@, old_s, b, N as int);
                    }
                }
            } else {
                let block = len / N;
                proof {
                    let k = blocks_for((len + 1) as nat, N as nat);
                    let k2 = blocks_for(len as nat, N as nat);
                    assert(len > 0);
                    assert(k == k2) by (nonlinear_arith)
                        requires
                            k <= k2,
                            (k2 - 1) * N < len,
                            k * N >= len + 1,
                            N > 0,
                    ;
                    assert(block < k) by (nonlinear_arith)
                        requires
                            k * N >= len + 1,
                            block * N <= len,
                            N > 0,
                    ;
                }
                self.dirty.set(block, true);
                proof {
                    assert forall|b: int|
                        0 <= b < self.cache@.len() && !(#[trigger] self.dirty@[b]) implies self.cache@[b] is Some && caches(
                        self.cacher,
                        block_of(self.slice@, b, N as int),
                        self.cache@[b]->0,
                    ) by {
                        let k = blocks_for((len + 1) as nat, N as nat);
                        assert(b < block) by (nonlinear_arith)
                            requires
                                b < k,
                                b != block,
                                k == blocks_for(len as nat, N as nat),
                                (k - 1) * N < len,
                                block * N <= len < block * N + N,
                                N > 0,
                        ;
                        assert((b + 1) * N <= len) by (nonlinear_arith)
                            requires
                                b < block,
                                block * N <= len,
                                N > 0,
                        ;
                        assert(self.slice@.take((b + 1) * N) =~= old_s.take((b + 1) * N));
                        lemma_block_same_prefix(self.slice@, old_s, b, N as int);
                    }
                }
            }
        }
        res
    }

    /// Writes `element` at `index` and marks its block dirty.
    pub fn set(&mut self, index: usize, element: E)
        requires
            old(self).wf(),
            index < old(self).elements().len(),
        ensures
            final(self).wf(),
            final(self).cacher() == old(self).cacher(),
            final(self).resolver() == old(self).resolver(),
            final(self).cache_resolver() == old(self).cache_resolver(),
            final(self).merger() == old(self).merger(),
            final(self).elements() == old(self).elements().update(index as int, element),
    {
        let ghost old_s = self.slice@;
        let len = self.slice.len();
        self.slice.set(index, element);
        let block = index / N;
        proof {
            lemma_div_bounds(index as nat, N as nat);
            lemma_blocks_for(len as nat, N as nat);
            let k = blocks_for(len as nat, N as nat);
            assert(block < k) by (nonlinear_arith)
                requires
                    k * N >= len,
                    block * N <= index < len,
                    N > 0,
            ;
        }
        self.dirty.set(block, true);
        proof {
            assert forall|b: int|
                0 <= b < self.cache@.len() && !(#[trigger] self.dirty@[b]) implies self.cache@[b] is Some && caches(
                self.cacher,
                block_of(self.slice@, b, N as int),
                self.cache@[b]->0,
            ) by {
                assert(index < b * N || (b + 1) * N <= index) by (nonlinear_arith)
                    requires
                        b != block,
                        b >= 0,
                        block * N <= index < block * N + N,
                        N > 0,
                ;
                let k = blocks_for(len as nat, N as nat);
                assert(b * N <= len) by (nonlinear_arith)
                    requires
                        b < k,
                        len > 0 ==> (k - 1) * N < len,
                        len > 0,
                        N > 0,
                ;
                lemma_block_update(old_s, index as int, element, b, N as int);
            }
        }
    }

    /// Brings every dirty summary up to date and hands out a read-only view for queries.
    pub fn into_immut<'a>(&'a mut self) -> (im: ImmutableDivConquer<'a, N, E, C, R, A, Fr, Fcr, Fm>)
        where Fr: Copy, Fcr: Copy, Fm: Copy,
        requires
            old(self).wf(),
            blocks_accepted(old(self).cacher(), old(self).elements(), N as int),
        ensures
            final(self).wf(),
            final(self).elements() == old(self).elements(),
            final(self).cacher() == old(self).cacher(),
            final(self).resolver() == old(self).resolver(),
            final(self).cache_resolver() == old(self).cache_resolver(),
            final(self).merger() == old(self).merger(),
            im.wf(),
            im.elements() == old(self).elements(),
            im.caches().len() == blocks_for(old(self).elements().len(), N as nat),
            im.resolver() == old(self).resolver(),
            im.cache_resolver() == old(self).cache_resolver(),
            im.merger() == old(self).merger(),
            forall|b: int|
                0 <= b < im.caches().len() ==> caches(
                    old(self).cacher(),
                    block_of(im.elements(), b, N as int),
                    #[trigger] im.caches()[b],
                ),
    {
        let n = self.dirty.len();
        let len = self.slice.len();
        let mut i: usize = 0;
        while i < n
            invariant
                self.wf(),
                blocks_accepted(self.cacher, self.slice@, N as int),
                self.slice@ == old(self).slice@,
                self.cacher == old(self).cacher,
                self.resolver == old(self).resolver,
                self.cache_resolver == old(self).cache_resolver,
                self.merger == old(self).merger,
                n == self.dirty@.len(),
                len == self.slice@.len(),
                i <= n,
                forall|b: int| 0 <= b < i ==> !(#[trigger] self.dirty@[b]),
            decreases n - i,
        {
            if self.dirty[i] {
                proof {
                    let k = blocks_for(len as nat, N as nat);
                    lemma_blocks_for(len as nat, N as nat);
                    assert(i * N < len) by (nonlinear_arith)
                        requires
                            i < k,
                            len > 0 ==> (k - 1) * N < len,
                            len == 0 ==> k == 0,
                            N > 0,
                    ;
                }
                let c = self.summarise(i);
                self.cache.set(i, Some(c));
                self.dirty.set(i, false);
            }
            i = i + 1;
        }
        proof {
            assert forall|b: int| 0 <= b < self.cache@.len() implies (#[trigger] self.cache@[b]) is Some && caches(
                old(self).cacher,
                block_of(self.slice@, b, N as int),
                self.cache@[b]->0,
            ) by {
                assert(!self.dirty@[b]);
            }
        }
        let this: &'a Self = self;
        ImmutableDivConquer {
            slice: this.slice.as_slice(),
            cache: Summaries::Filled(this.cache.as_slice()),
            resolver: this.resolver,
            cache_resolver: this.cache_resolver,
            merger: this.merger,
            args: Ghost(this.args@),
        }
    }

    /// Splits `slice` into blocks of `N` elements and summarises each.
    pub fn new(slice: Vec<E>, cacher: Fc, resolver: Fr, cache_resolver: Fcr, merger: Fm) -> (dc: Self)
        requires
            N > 0,
            blocks_accepted(cacher, slice@, N as int),
        ensures
            dc.wf(),
            dc.elements() == slice@,
            dc.cacher() == cacher,
            dc.resolver() == resolver,
            dc.cache_resolver() == cache_resolver,
            dc.merger() == merger,
            forall|b: int| 0 <= b < dc.dirty().len() ==> !(#[trigger] dc.dirty()[b]),
    {
        let len = slice.len();
        let mut dc = DivConquer {
            slice,
            dirty: Vec::new(),
            cache: Vec::new(),
            cacher,
            resolver,
            cache_resolver,
            merger,
            args: Ghost(arbitrary()),
        };
        proof {
            lemma_blocks_for(len as nat, N as nat);
        }
        let mut b: usize = 0;
        let mut start: usize = 0;
        while start < len
            invariant
                N > 0,
                len == dc.slice@.len(),
                blocks_accepted(dc.cacher, dc.slice@, N as int),
                dc.cache@.len() == b,
                dc.dirty@.len() == b,
                start <= len,
                start < len ==> start == b * N,
                start < len ==> b < blocks_for(len as nat, N as nat),
                start >= len ==> b == blocks_for(len as nat, N as nat),
                blocks_for(len as nat, N as nat) * N >= len,
                len > 0 ==> (blocks_for(len as nat, N as nat) - 1) * N < len,
                len == 0 ==> blocks_for(len as nat, N as nat) == 0,
                dc.slice@ == slice@,
                dc.cacher == cacher,
                dc.resolver == resolver,
                dc.cache_resolver == cache_resolver,
                dc.merger == merger,
                forall|k: int| 0 <= k < b ==> !(#[trigger] dc.dirty@[k]),
                forall|k: int|
                    0 <= k < b ==> (#[trigger] dc.cache@[k]) is Some && caches(dc.cacher, block_of(dc.slice@, k, N as int), dc.cache@[k]->0),
            decreases len - start,
        {
            proof {
                assert(b < len) by (nonlinear_arith)
                    requires
                        b * N < len,
                        N > 0,
                ;
            }
            let c = dc.summarise(b);
            dc.cache.push(Some(c));
            dc.dirty.push(false);
            proof {
                assert((b + 1) * N == b * N + N) by (nonlinear_arith);
            }
            if len - start > N {
                start = start + N;
                proof {
                    assert(b + 1 < blocks_for(len as nat, N as nat)) by (nonlinear_arith)
                        requires
                            (b + 1) * N < len,
                            blocks_for(len as nat, N as nat) * N >= len,
                            N > 0,
                    ;
                }
            } else {
                start = len;
                proof {
                    assert(b + 1 >= blocks_for(len as nat, N as nat)) by (nonlinear_arith)
                        requires
                            (b + 1) * N >= len,
                            len > 0 ==> (blocks_for(len as nat, N as nat) - 1) * N < len,
                            len > 0,
                            N > 0,
                    ;
                }
            }
            b = b + 1;
        }
        dc
    }
}

/// The summaries a read-only view reads: kept as they are, or in slots all of which are
/// filled.
enum Summaries<'a, C> {
    Plain(&'a [C]),
    Filled(&'a [Option<C>]),
}

/// The summaries, in order.
spec fn summaries_seq<'a, C>(s: Summaries<'a, C>) -> Seq<C> {
    match s {
        Summaries::Plain(c) => c@,
        Summaries::Filled(c) => c@.map_values(|o: Option<C>| o->0),
    }
}

/// Every slot holds a summary.
spec fn summaries_ok<'a, C>(s: Summaries<'a, C>) -> bool {
    match s {
        Summaries::Plain(_) => true,
        Summaries::Filled(c) => forall|b: int| 0 <= b < c@.len() ==> (#[trigger] c@[b]) is Some,
    }
}

/// A read-only view of a sequence in blocks of `N` elements with one summary per block,
/// answering range queries.
pub struct ImmutableDivConquer<'a, const N: usize, E, C, R, A, Fr, Fcr, Fm> {
    slice: &'a [E],
    cache: Summaries<'a, C>,
    resolver: Fr,
    cache_resolver: Fcr,
    merger: Fm,
    args: Ghost<(R, A)>,
}

/// A stretch of a query range: part of one block, answered from the elements, or a whole
/// block, answered from its summary.
pub enum Piece {
    Part(int, int),
    Block(int),
}

/// How `resolve` splits `[l, r)` (blocks of `n` elements) when it touches more than one
/// block: the partial block at the start (if `l` is not on a block boundary), the whole
/// blocks, and the partial block at the end (if `r` is not on a block boundary).
pub open spec fn pieces(l: int, r: int, n: int) -> Seq<Piece> {
    let lb = l / n;
    let rb = r / n;
    let first = if l % n == 0 {
        lb
    } else {
        lb + 1
    };
    let head = if l % n == 0 {
        Seq::<Piece>::empty()
    } else {
        seq![Piece::Part(l, (lb + 1) * n)]
    };
    let tail = if r % n == 0 {
        Seq::<Piece>::empty()
    } else {
        seq![Piece::Part(rb * n, r)]
    };
    head + Seq::new((rb - first) as nat, |k: int| Piece::Block(first + k)) + tail
}

/// The shape of `pieces(l, r, n)` when `[l, r)` touches more than one block.
proof fn lemma_pieces_shape(l: int, r: int, n: int)
    requires
        n > 0,
        0 <= l <= r,
        l / n < r / n,
    ensures
        ({
            let ps = pieces(l, r, n);
            let lb = l / n;
            let rb = r / n;
            let nhead: int = if l % n == 0 { 0 } else { 1 };
            let ntail: int = if r % n == 0 { 0 } else { 1 };
            let first = lb + nhead;
            &&& first <= rb
            &&& ps.len() == nhead + (rb - first) + ntail
            &&& nhead == 1 ==> ps[0] == Piece::Part(l, (lb + 1) * n)
            &&& forall|i: int| nhead <= i < nhead + (rb - first) ==> #[trigger] ps[i] == Piece::Block(first + (i - nhead))
            &&& ntail == 1 ==> ps[ps.len() - 1] == Piece::Part(rb * n, r)
        }),
{
}

/// `out` is what merging, from `acc`, the answers `rs` one after another may give.
pub open spec fn merges_to<R, Fm: Fn(R, R) -> R>(merger: Fm, acc: R, rs: Seq<R>, out: R) -> bool
    decreases rs.len(),
{
    if rs.len() == 0 {
        out == acc
    } else {
        exists|mid: R| merges_to(merger, acc, rs.drop_last(), mid) && #[trigger] call_ensures(merger, (mid, rs.last()), out)
    }
}

/// The elements that piece `p` stands for.
pub open spec fn piece_elems<E>(s: Seq<E>, n: int, p: Piece) -> Seq<E> {
    match p {
        Piece::Part(lo, hi) => s.subrange(lo, hi),
        Piece::Block(b) => block_of(s, b, n),
    }
}

/// The elements of the pieces `ps`, one after another.
pub open spec fn joined<E>(s: Seq<E>, n: int, ps: Seq<Piece>) -> Seq<E>
    decreases ps.len(),
{
    if ps.len() == 0 {
        Seq::empty()
    } else {
        joined(s, n, ps.drop_last()) + piece_elems(s, n, ps.last())
    }
}

proof fn lemma_tile_blocks<E>(s: Seq<E>, n: int, ps: Seq<Piece>, l: int, nhead: int, first: int, rb: int, j: int)
    requires
        n > 0,
        0 <= nhead,
        0 <= first,
        0 <= j <= rb - first,
        0 <= l <= first * n,
        rb * n <= s.len(),
        nhead + (rb - first) <= ps.len(),
        forall|i: int| nhead <= i < nhead + (rb - first) ==> #[trigger] ps[i] == Piece::Block(first + (i - nhead)),
        joined(s, n, ps.take(nhead)) == s.subrange(l, first * n),
    ensures
        joined(s, n, ps.take(nhead + j)) == s.subrange(l, (first + j) * n),
    decreases j,
{
    if j > 0 {
        lemma_tile_blocks(s, n, ps, l, nhead, first, rb, j - 1);
        let b = first + j - 1;
        assert((b + 1) * n == b * n + n) by (nonlinear_arith);
        assert((b + 1) * n <= rb * n) by (nonlinear_arith)
            requires
                b < rb,
                n > 0,
        ;
        assert(first * n <= b * n) by (nonlinear_arith)
            requires
                first <= b,
                n > 0,
        ;
        assert(first + j - 1 == b);
        assert((first + (j - 1)) * n == b * n);
        assert(ps.take(nhead + j).drop_last() =~= ps.take(nhead + j - 1));
        assert(ps.take(nhead + j).last() == Piece::Block(b));
        assert(block_of(s, b, n) =~= s.subrange(b * n, (b + 1) * n));
        assert(l <= b * n <= (b + 1) * n <= s.len());
        assert(s.subrange(l, b * n) + s.subrange(b * n, (b + 1) * n) =~= s.subrange(l, (b + 1) * n));
        assert((first + j) * n == (b + 1) * n);
    }
}

/// The pieces of `[l, r)` hold exactly the elements `l..r`, in order.
pub proof fn lemma_pieces_tile<E>(s: Seq<E>, l: int, r: int, n: int)
    requires
        n > 0,
        0 <= l <= r <= s.len(),
        l / n < r / n,
    ensures
        joined(s, n, pieces(l, r, n)) == s.subrange(l, r),
{
    let ps = pieces(l, r, n);
    let lb = l / n;
    let rb = r / n;
    let nhead: int = if l % n == 0 { 0 } else { 1 };
    let ntail: int = if r % n == 0 { 0 } else { 1 };
    let first = lb + nhead;
    lemma_pieces_shape(l, r, n);
    vstd::arithmetic::div_mod::lemma_fundamental_div_mod(l, n);
    vstd::arithmetic::div_mod::lemma_fundamental_div_mod(r, n);
    vstd::arithmetic::div_mod::lemma_mod_bound(l, n);
    vstd::arithmetic::div_mod::lemma_mod_bound(r, n);
    assert(lb * n == n * lb && rb * n == n * rb) by (nonlinear_arith);
    assert((lb + 1) * n == lb * n + n) by (nonlinear_arith);
    assert(first * n == lb * n + nhead * n) by (nonlinear_arith)
        requires
            first == lb + nhead,
    ;
    // The head covers `l .. first * n`.
    assert(l <= first * n);
    assert(first * n <= rb * n) by (nonlinear_arith)
        requires
            first <= rb,
            n > 0,
    ;
    assert(rb * n <= r);
    if nhead == 1 {
        assert(ps.take(1).drop_last() =~= Seq::<Piece>::empty());
        assert(ps.take(1).last() == Piece::Part(l, (lb + 1) * n));
        assert(joined(s, n, ps.take(1).drop_last()) =~= Seq::<E>::empty());
        assert(first * n == (lb + 1) * n);
        assert(joined(s, n, ps.take(1)) =~= s.subrange(l, first * n));
    } else {
        assert(ps.take(0) =~= Seq::<Piece>::empty());
        assert(joined(s, n, ps.take(0)) =~= s.subrange(l, first * n));
    }
    lemma_tile_blocks(s, n, ps, l, nhead, first, rb, rb - first);
    assert(first + (rb - first) == rb);
    if ntail == 1 {
        assert(ps.drop_last() =~= ps.take(nhead + (rb - first)));
        assert(ps.last() == Piece::Part(rb * n, r));
        assert(s.subrange(l, rb * n) + s.subrange(rb * n, r) =~= s.subrange(l, r));
    } else {
        assert(ps =~= ps.take(nhead + (rb - first)));
        assert(rb * n == r);
    }
}

/// Where the `k`-th piece of `[l, r)` starts; `r` past the last one.
pub open spec fn piece_start(l: int, r: int, n: int, k: int) -> int {
    let nhead: int = if l % n == 0 { 0 } else { 1 };
    let first = l / n + nhead;
    if k == 0 {
        l
    } else if (first + k - nhead) * n < r {
        (first + k - nhead) * n
    } else {
        r
    }
}

/// The first `k` pieces of `[l, r)` hold the elements `l..piece_start(k)`.
proof fn lemma_pieces_prefix<E>(s: Seq<E>, l: int, r: int, n: int)
    requires
        n > 0,
        0 <= l <= r <= s.len(),
        l / n < r / n,
    ensures
        forall|k: int|
            0 <= k <= pieces(l, r, n).len() ==> #[trigger] joined(s, n, pieces(l, r, n).take(k)) == s.subrange(
                l,
                piece_start(l, r, n, k),
            ),
        forall|k: int|
            0 <= k < pieces(l, r, n).len() ==> l <= #[trigger] piece_start(l, r, n, k) <= piece_start(l, r, n, k + 1) <= r,
        piece_start(l, r, n, pieces(l, r, n).len() as int) == r,
{
    let ps = pieces(l, r, n);
    let lb = l / n;
    let rb = r / n;
    let nhead: int = if l % n == 0 { 0 } else { 1 };
    let ntail: int = if r % n == 0 { 0 } else { 1 };
    let first = lb + nhead;
    lemma_pieces_shape(l, r, n);
    lemma_pieces_tile(s, l, r, n);
    vstd::arithmetic::div_mod::lemma_fundamental_div_mod(l, n);
    vstd::arithmetic::div_mod::lemma_fundamental_div_mod(r, n);
    vstd::arithmetic::div_mod::lemma_mod_bound(l, n);
    vstd::arithmetic::div_mod::lemma_mod_bound(r, n);
    assert(lb * n == n * lb && rb * n == n * rb) by (nonlinear_arith);
    assert((lb + 1) * n == lb * n + n) by (nonlinear_arith);
    assert((rb + 1) * n == rb * n + n) by (nonlinear_arith);
    assert(first * n == lb * n + nhead * n) by (nonlinear_arith)
        requires
            first == lb + nhead,
    ;
    assert(first * n <= rb * n) by (nonlinear_arith)
        requires
            first <= rb,
            n > 0,
    ;
    if nhead == 1 {
        assert(ps.take(1).drop_last() =~= Seq::<Piece>::empty());
        assert(ps.take(1).last() == Piece::Part(l, (lb + 1) * n));
        assert(joined(s, n, ps.take(1).drop_last()) =~= Seq::<E>::empty());
        assert(joined(s, n, ps.take(1)) =~= s.subrange(l, first * n));
    } else {
        assert(ps.take(0) =~= Seq::<Piece>::empty());
        assert(joined(s, n, ps.take(0)) =~= s.subrange(l, first * n));
    }
    assert forall|k: int| 0 <= k <= ps.len() implies #[trigger] joined(s, n, ps.take(k)) == s.subrange(
        l,
        piece_start(l, r, n, k),
    ) by {
        if k == 0 {
            assert(ps.take(0) =~= Seq::<Piece>::empty());
            assert(joined(s, n, ps.take(0)) =~= s.subrange(l, l));
        } else if k <= nhead + (rb - first) {
            lemma_tile_blocks(s, n, ps, l, nhead, first, rb, k - nhead);
            assert(nhead + (k - nhead) == k);
            assert(first + (k - nhead) == first + k - nhead);
            assert((first + k - nhead) * n <= rb * n) by (nonlinear_arith)
                requires
                    first + k - nhead <= rb,
                    n > 0,
            ;
            if (first + k - nhead) * n >= r {
                assert((first + k - nhead) * n == r);
            }
        } else {
            assert(k == ps.len());
            assert(ps.take(k) =~= ps);
            assert((first + k - nhead) * n == (rb + 1) * n);
        }
    }
    assert forall|k: int| 0 <= k < ps.len() implies l <= #[trigger] piece_start(l, r, n, k) <= piece_start(l, r, n, k + 1) <= r by {
        if k > 0 {
            assert(first * n <= (first + k - nhead) * n) by (nonlinear_arith)
                requires
                    k - nhead >= 0,
                    n > 0,
            ;
        }
        assert((first + k - nhead) * n <= (first + k + 1 - nhead) * n) by (nonlinear_arith)
            requires
                n > 0,
        ;
        if k == 0 && (first + 1 - nhead) * n < r {
            assert(l <= (first + 1 - nhead) * n) by (nonlinear_arith)
                requires
                    l <= first * n,
                    first * n <= (first + 1 - nhead) * n,
            ;
            assert(first * n <= (first + 1 - nhead) * n) by (nonlinear_arith)
                requires
                    nhead <= 1,
                    n > 0,
            ;
        }
    }
    let m = ps.len() as int;
    if ntail == 1 {
        assert((first + m - nhead) * n == (rb + 1) * n);
    } else {
        assert((first + m - nhead) * n == rb * n);
    }
}

/// Merging, from a unit, answers that `f` gives (read through `v`) for the pieces of a stretch
/// yields `f` of all the pieces' elements, where `g` of the answers for two neighbouring
/// stretches of `s` is the answer for the two together.
proof fn lemma_merges_fold<E, R, V, Fm: Fn(R, R) -> R>(
    merger: Fm,
    s: Seq<E>,
    n: int,
    ps: Seq<Piece>,
    rs: Seq<R>,
    unit: R,
    out: R,
    f: spec_fn(Seq<E>) -> V,
    g: spec_fn(V, V) -> V,
    v: spec_fn(R) -> V,
    l: int,
    st: spec_fn(int) -> int,
)
    requires
        ps.len() >= 1,
        rs.len() == ps.len(),
        merges_to(merger, unit, rs, out),
        forall|k: int| 0 <= k < ps.len() ==> v(#[trigger] rs[k]) == f(piece_elems(s, n, ps[k])),
        forall|x: R, y: R, z: R| #[trigger] call_ensures(merger, (x, y), z) ==> v(z) == g(v(x), v(y)),
        forall|k: int| 0 <= k <= ps.len() ==> #[trigger] joined(s, n, ps.take(k)) == s.subrange(l, st(k)),
        forall|k: int| 0 <= k < ps.len() ==> 0 <= l <= #[trigger] st(k) <= st(k + 1) <= s.len(),
        forall|lo: int, hi: int|
            0 <= lo <= hi <= s.len() ==> #[trigger] g(v(unit), f(s.subrange(lo, hi))) == f(s.subrange(lo, hi)),
        forall|lo: int, mid: int, hi: int|
            #![trigger f(s.subrange(lo, mid)), f(s.subrange(mid, hi))]
            0 <= lo <= mid <= hi <= s.len() ==> g(f(s.subrange(lo, mid)), f(s.subrange(mid, hi))) == f(
                s.subrange(lo, hi),
            ),
    ensures
        v(out) == f(joined(s, n, ps)),
    decreases ps.len(),
{
    let m = ps.len() - 1;
    let mid = choose|mid: R| merges_to(merger, unit, rs.drop_last(), mid) && #[trigger] call_ensures(merger, (mid, rs.last()), out);
    assert(v(out) == g(v(mid), v(rs.last())));
    assert(ps.take(m + 1) =~= ps);
    assert(ps.take(m + 1).drop_last() =~= ps.take(m));
    assert(ps.take(m + 1).last() == ps[m]);
    assert(joined(s, n, ps.take(m + 1)) == s.subrange(l, st(m + 1)));
    assert(joined(s, n, ps.take(m)) == s.subrange(l, st(m)));
    assert(0 <= l <= st(m) <= st(m + 1) <= s.len());
    assert(piece_elems(s, n, ps[m]) =~= s.subrange(st(m), st(m + 1))) by {
        assert(s.subrange(l, st(m + 1)) =~= s.subrange(l, st(m)) + piece_elems(s, n, ps[m]));
        assert forall|i: int| 0 <= i < st(m + 1) - st(m) implies piece_elems(s, n, ps[m])[i] == s.subrange(st(m), st(m + 1))[i] by {
            assert(s.subrange(l, st(m + 1))[st(m) - l + i] == (s.subrange(l, st(m)) + piece_elems(s, n, ps[m]))[st(m) - l + i]);
        }
    }
    assert(v(rs[m]) == f(piece_elems(s, n, ps[m])));
    if ps.len() == 1 {
        assert(mid == unit);
        assert(ps.take(0) =~= Seq::<Piece>::empty());
        assert(joined(s, n, ps.take(0)) =~= Seq::<E>::empty());
        assert(g(v(unit), f(s.subrange(st(0), st(1)))) == f(s.subrange(st(0), st(1))));
        assert(l == st(0)) by {
            assert(s.subrange(l, st(0)).len() == 0);
        }
    } else {
        let ps2 = ps.drop_last();
        assert forall|k: int| 0 <= k <= ps2.len() implies #[trigger] joined(s, n, ps2.take(k)) == s.subrange(l, st(k)) by {
            assert(ps2.take(k) =~= ps.take(k));
        }
        assert(ps2 =~= ps.take(m));
        lemma_merges_fold(merger, s, n, ps2, rs.drop_last(), unit, mid, f, g, v, l, st);
        assert(v(mid) == f(s.subrange(l, st(m))));
        assert(g(f(s.subrange(l, st(m))), f(s.subrange(st(m), st(m + 1)))) == f(s.subrange(l, st(m + 1))));
    }
}

impl<'a, const N: usize, E, C, R, A, Fr, Fcr, Fm> ImmutableDivConquer<'a, N, E, C, R, A, Fr, Fcr, Fm> where
    Fr: Fn(&[E], &A) -> R,
    Fcr: Fn(&C, &A) -> R,
    Fm: Fn(R, R) -> R,
 {
    /// The elements.
    pub closed spec fn elements(&self) -> Seq<E> {
        self.slice@
    }

    /// The summaries, one per block.
    pub closed spec fn caches(&self) -> Seq<C> {
        summaries_seq(self.cache)
    }

    /// The function that answers for elements.
    pub closed spec fn resolver(&self) -> Fr {
        self.resolver
    }

    /// The function that answers for a summary.
    pub closed spec fn cache_resolver(&self) -> Fcr {
        self.cache_resolver
    }

    /// The function that merges two answers.
    pub closed spec fn merger(&self) -> Fm {
        self.merger
    }

    /// One summary per block.
    pub closed spec fn wf(&self) -> bool {
        &&& N > 0
        &&& summaries_seq(self.cache).len() == blocks_for(self.slice@.len(), N as nat)
        &&& summaries_ok(self.cache)
    }

    /// The summary of block `b`.
    fn cache_at(&self, b: usize) -> (c: &C)
        requires
            self.wf(),
            b < self.caches().len(),
        ensures
            *c == self.caches()[b as int],
    {
        match &self.cache {
            Summaries::Plain(cs) => &cs[b],
            Summaries::Filled(cs) => match &cs[b] {
                Some(c) => c,
                None => {
                    proof {
                        assert(cs@[b as int] is Some);
                    }
                    vstd::pervasive::unreached()
                },
            },
        }
    }

    /// The summary-answerer accepts, with `arg`, every summary.
    pub open spec fn caches_accepted(&self, arg: &A) -> bool {
        forall|b: int| 0 <= b < self.caches().len() ==> #[trigger] call_requires(self.cache_resolver(), (&self.caches()[b], arg))
    }

    /// `bound(x, m)` says that `x` may stand for `m` elements: the default value stands for
    /// none, an answer for a stretch of at most `N` elements or for a summary stands for that
    /// many, and the merger accepts two values that stand for at most as many elements as
    /// there are, giving one that stands for their sum.
    pub open spec fn merges_within(&self, arg: &A, bound: spec_fn(R, int) -> bool) -> bool
        where R: Default,
    {
        &&& forall|d: R| #[trigger] call_ensures(R::default, (), d) ==> bound(d, 0)
        &&& forall|lo: int, hi: int, x: R|
            0 <= lo <= hi <= self.elements().len() && hi - lo <= N && #[trigger] self.answers_part(lo, hi, arg, x)
                ==> bound(x, hi - lo)
        &&& forall|b: int, x: R|
            0 <= b < self.caches().len() && #[trigger] call_ensures(self.cache_resolver(), (&self.caches()[b], arg), x)
                ==> bound(x, N as int)
        &&& forall|x: R, y: R, m: int, j: int|
            #![trigger bound(x, m), bound(y, j)]
            0 <= m && 0 <= j && m + j <= self.elements().len() && bound(x, m) && bound(y, j) ==> {
                &&& call_requires(self.merger(), (x, y))
                &&& forall|z: R| #[trigger] call_ensures(self.merger(), (x, y), z) ==> bound(z, m + j)
            }
    }

    /// Summarises `slice` block by block into `cache`, which must start empty, and keeps a
    /// read-only view of both.
    pub fn new<Fc: Fn(&[E]) -> C>(
        slice: &'a [E],
        cache: &'a mut Vec<C>,
        cacher: Fc,
        resolver: Fr,
        cache_resolver: Fcr,
        merger: Fm,
    ) -> (im: Self)
        requires
            N > 0,
            old(cache)@.len() == 0,
            blocks_accepted(cacher, slice@, N as int),
        ensures
            im.wf(),
            im.elements() == slice@,
            im.resolver() == resolver,
            im.cache_resolver() == cache_resolver,
            im.merger() == merger,
            forall|b: int|
                0 <= b < im.caches().len() ==> caches(
                    cacher,
                    block_of(slice@, b, N as int),
                    #[trigger] im.caches()[b],
                ),
    {
        let len = slice.len();
        proof {
            lemma_blocks_for(len as nat, N as nat);
        }
        let mut b: usize = 0;
        let mut start: usize = 0;
        while start < len
            invariant
                N > 0,
                len == slice@.len(),
                blocks_accepted(cacher, slice@, N as int),
                cache@.len() == b,
                start <= len,
                start < len ==> start == b * N,
                start < len ==> b < blocks_for(len as nat, N as nat),
                start >= len ==> b == blocks_for(len as nat, N as nat),
                blocks_for(len as nat, N as nat) * N >= len,
                len > 0 ==> (blocks_for(len as nat, N as nat) - 1) * N < len,
                len == 0 ==> blocks_for(len as nat, N as nat) == 0,
                forall|k: int|
                    0 <= k < b ==> caches(cacher, block_of(slice@, k, N as int), #[trigger] cache@[k]),
            decreases len - start,
        {
            proof {
                assert((b + 1) * N == b * N + N) by (nonlinear_arith);
                assert(b < len) by (nonlinear_arith)
                    requires
                        b * N < len,
                        N > 0,
                ;
            }
            let end = if len - start > N {
                start + N
            } else {
                len
            };
            let part: &[E] = &slice[start..end];
            proof {
                assert(part@ == block_of(slice@, b as int, N as int));
            }
            let c = cacher(part);
            cache.push(c);
            if len - start > N {
                proof {
                    assert(b + 1 < blocks_for(len as nat, N as nat)) by (nonlinear_arith)
                        requires
                            (b + 1) * N < len,
                            blocks_for(len as nat, N as nat) * N >= len,
                            N > 0,
                    ;
                }
            } else {
                proof {
                    assert(b + 1 >= blocks_for(len as nat, N as nat)) by (nonlinear_arith)
                        requires
                            (b + 1) * N >= len,
                            len > 0 ==> (blocks_for(len as nat, N as nat) - 1) * N < len,
                            len > 0,
                            N > 0,
                    ;
                }
            }
            start = end;
            b = b + 1;
        }
        let cache: &'a Vec<C> = cache;
        ImmutableDivConquer {
            slice,
            cache: Summaries::Plain(cache.as_slice()),
            resolver,
            cache_resolver,
            merger,
            args: Ghost(arbitrary()),
        }
    }

    /// `x` is what the resolver may answer for the elements `[lo, hi)`.
    pub open spec fn answers_part(&self, lo: int, hi: int, arg: &A, x: R) -> bool {
        exists|s: &[E]| s@ == self.elements().subrange(lo, hi) && #[trigger] call_ensures(self.resolver(), (s, arg), x)
    }

    /// `x` is what may be answered for `p`.
    pub open spec fn answers_piece(&self, p: Piece, arg: &A, x: R) -> bool {
        match p {
            Piece::Part(lo, hi) => self.answers_part(lo, hi, arg, x),
            Piece::Block(b) => call_ensures(self.cache_resolver(), (&self.caches()[b], arg), x),
        }
    }

    /// `out` is what `resolve` may answer for `[l, r)`: the resolver's own answer when the
    /// range lies in one block; otherwise the answers for its pieces merged one after another,
    /// starting from a value that `R::default()` may return.
    pub open spec fn resolves_to(&self, l: int, r: int, arg: &A, out: R) -> bool
        where R: Default,
    {
        if l / (N as int) == r / (N as int) {
            self.answers_part(l, r, arg, out)
        } else {
            let ps = pieces(l, r, N as int);
            exists|d: R, rs: Seq<R>|
                {
                    &&& call_ensures(R::default, (), d)
                    &&& rs.len() == ps.len()
                    &&& forall|k: int| 0 <= k < ps.len() ==> self.answers_piece(#[trigger] ps[k], arg, rs[k])
                    &&& merges_to(self.merger(), d, rs, out)
                }
        }
    }

    /// Answers read through `v`: where, for the argument `arg`, the resolver answers `f` of
    /// each stretch of the elements and `arg`, the summaries answer `f` of their blocks and
    /// `arg`, the merger combines by `g`, `R::default()` gives a value that `g` leaves every
    /// answer alone with, and `g` of the answers for two neighbouring stretches is the answer
    /// for the two together, `resolve` answers `f` of the elements in range and `arg`.
    pub proof fn lemma_resolve_matches<V>(
        &self,
        l: int,
        r: int,
        arg: &A,
        out: R,
        f: spec_fn(Seq<E>, A) -> V,
        g: spec_fn(V, V) -> V,
        unit: V,
        v: spec_fn(R) -> V,
    )
        where R: Default,
        requires
            self.wf(),
            0 <= l <= r <= self.elements().len(),
            self.resolves_to(l, r, arg, out),
            forall|lo: int, hi: int, q: &[E], x: R|
                #![trigger call_ensures(self.resolver(), (q, arg), x), self.elements().subrange(lo, hi)]
                0 <= lo <= hi <= self.elements().len() && q@ == self.elements().subrange(lo, hi) && call_ensures(
                    self.resolver(),
                    (q, arg),
                    x,
                ) ==> v(x) == f(q@, *arg),
            forall|b: int, x: R|
                0 <= b < self.caches().len() && #[trigger] call_ensures(self.cache_resolver(), (&self.caches()[b], arg), x)
                    ==> v(x) == f(block_of(self.elements(), b, N as int), *arg),
            forall|x: R, y: R, z: R| #[trigger] call_ensures(self.merger(), (x, y), z) ==> v(z) == g(v(x), v(y)),
            forall|d: R| #[trigger] call_ensures(R::default, (), d) ==> v(d) == unit,
            forall|lo: int, hi: int|
                0 <= lo <= hi <= self.elements().len() ==> #[trigger] g(unit, f(self.elements().subrange(lo, hi), *arg))
                    == f(self.elements().subrange(lo, hi), *arg),
            forall|lo: int, mid: int, hi: int|
                #![trigger f(self.elements().subrange(lo, mid), *arg), f(self.elements().subrange(mid, hi), *arg)]
                0 <= lo <= mid <= hi <= self.elements().len() ==> g(
                    f(self.elements().subrange(lo, mid), *arg),
                    f(self.elements().subrange(mid, hi), *arg),
                ) == f(self.elements().subrange(lo, hi), *arg),
        ensures
            v(out) == f(self.elements().subrange(l, r), *arg),
    {
        let n = N as int;
        let s = self.elements();
        let fa = |q: Seq<E>| f(q, *arg);
        if l / n == r / n {
            let p = choose|p: &[E]| p@ == s.subrange(l, r) && #[trigger] call_ensures(self.resolver(), (p, arg), out);
            assert(v(out) == f(p@, *arg));
        } else {
            let ps = pieces(l, r, n);
            let (d, rs) = choose|d: R, rs: Seq<R>|
                {
                    &&& call_ensures(R::default, (), d)
                    &&& rs.len() == ps.len()
                    &&& forall|k: int| 0 <= k < ps.len() ==> self.answers_piece(#[trigger] ps[k], arg, rs[k])
                    &&& merges_to(self.merger(), d, rs, out)
                };
            assert(v(d) == unit);
            vstd::arithmetic::div_mod::lemma_div_is_ordered(l, r, n);
            lemma_pieces_shape(l, r, n);
            lemma_div_bounds(r as nat, N as nat);
            lemma_blocks_for(s.len(), N as nat);
            lemma_div_bounds(l as nat, N as nat);
            assert((l / n + 1) * n <= (r / n) * n) by (nonlinear_arith)
                requires
                    l / n < r / n,
                    n > 0,
            ;
            assert((l / n + 1) * n == (l / n) * n + n) by (nonlinear_arith);
            assert forall|k: int| 0 <= k < ps.len() implies v(#[trigger] rs[k]) == fa(piece_elems(s, n, ps[k])) by {
                assert(self.answers_piece(ps[k], arg, rs[k]));
                match ps[k] {
                    Piece::Part(lo, hi) => {
                        let p = choose|p: &[E]| p@ == s.subrange(lo, hi) && #[trigger] call_ensures(self.resolver(), (p, arg), rs[k]);
                        let nhead: int = if l % n == 0 { 0 } else { 1 };
                        let first = l / n + nhead;
                        if k < nhead {
                            assert(ps[0] == Piece::Part(l, (l / n + 1) * n));
                        } else if k >= nhead + (r / n - first) {
                            assert(ps[ps.len() - 1] == Piece::Part((r / n) * n, r));
                            assert(k == ps.len() - 1);
                        } else {
                            assert(ps[k] == Piece::Block(first + (k - nhead)));
                        }
                        assert(0 <= lo <= hi <= s.len());
                        assert(v(rs[k]) == f(p@, *arg));
                    },
                    Piece::Block(b) => {
                        let nhead: int = if l % n == 0 { 0 } else { 1 };
                        let first = l / n + nhead;
                        assert(first <= b < r / n);
                        let cnt = blocks_for(s.len(), N as nat);
                        assert(b < cnt) by (nonlinear_arith)
                            requires
                                b < r / n,
                                (r / n) * n <= r <= s.len(),
                                cnt * n >= s.len(),
                                n > 0,
                        ;
                        assert(call_ensures(self.cache_resolver(), (&self.caches()[b], arg), rs[k]));
                    },
                }
            }
            lemma_pieces_tile(s, l, r, n);
            lemma_pieces_prefix(s, l, r, n);
            let st = |k: int| piece_start(l, r, n, k);
            assert forall|k: int| 0 <= k <= ps.len() implies #[trigger] joined(s, n, ps.take(k)) == s.subrange(l, st(k)) by {}
            assert forall|k: int| 0 <= k < ps.len() implies 0 <= l <= #[trigger] st(k) <= st(k + 1) <= s.len() by {
                assert(l <= piece_start(l, r, n, k) <= piece_start(l, r, n, k + 1) <= r);
            }
            assert forall|lo: int, hi: int|
                0 <= lo <= hi <= s.len() implies #[trigger] g(v(d), fa(s.subrange(lo, hi))) == fa(s.subrange(lo, hi)) by {
                assert(g(unit, f(s.subrange(lo, hi), *arg)) == f(s.subrange(lo, hi), *arg));
            }
            assert forall|lo: int, mid: int, hi: int|
                #![trigger fa(s.subrange(lo, mid)), fa(s.subrange(mid, hi))]
                0 <= lo <= mid <= hi <= s.len() implies g(fa(s.subrange(lo, mid)), fa(s.subrange(mid, hi))) == fa(
                    s.subrange(lo, hi),
                ) by {
                assert(g(f(s.subrange(lo, mid), *arg), f(s.subrange(mid, hi), *arg)) == f(s.subrange(lo, hi), *arg));
            }
            lemma_merges_fold(self.merger(), s, n, ps, rs, d, out, fa, g, v, l, st);
        }
    }

    /// The answer for the elements `[l, r)`: the resolver's own answer when the range lies in
    /// one block; otherwise the answers for its pieces merged one after another, starting
    /// from `R`'s default value.
    pub fn resolve(&self, range: std::ops::Range<usize>, arg: &A) -> (out: R)
        where R: Default,
        requires
            self.wf(),
            range.start <= range.end <= self.elements().len(),
            parts_accepted(self.resolver(), self.elements(), N as int, arg),
            self.caches_accepted(arg),
            exists|bound: spec_fn(R, int) -> bool| self.merges_within(arg, bound),
        ensures
            self.resolves_to(range.start as int, range.end as int, arg, out),
    {
        let l = range.start;
        let r = range.end;
        let lb = l / N;
        let rb = r / N;
        let ghost bound = choose|bound: spec_fn(R, int) -> bool| self.merges_within(arg, bound);
        proof {
            lemma_div_bounds(l as nat, N as nat);
            lemma_div_bounds(r as nat, N as nat);
        }
        if lb == rb {
            let part = &self.slice[l..r];
            proof {
                assert(part@ == self.elements().subrange(l as int, r as int));
            }
            let x = (self.resolver)(part, arg);
            proof {
                assert(call_ensures(self.resolver(), (part, arg), x));
            }
            return x;
        }
        let ghost ps = pieces(l as int, r as int, N as int);
        let len = self.slice.len();
        proof {
            lemma_blocks_for(len as nat, N as nat);
            assert(lb < rb) by (nonlinear_arith)
                requires
                    lb * N <= l <= r < rb * N + N,
                    lb != rb,
                    N > 0,
            ;
            assert((lb + 1) * N <= rb * N) by (nonlinear_arith)
                requires
                    lb < rb,
                    N > 0,
            ;
            assert((lb + 1) * N == lb * N + N) by (nonlinear_arith);
            lemma_pieces_shape(l as int, r as int, N as int);
            vstd::arithmetic::div_mod::lemma_fundamental_div_mod(l as int, N as int);
        }
        let mut acc = R::default();
        let ghost d = acc;
        proof {
            assert(call_ensures(R::default, (), d));
        }
        let ghost mut rs: Seq<R> = Seq::empty();
        let ghost first: int = if l % N == 0 { lb as int } else { lb + 1 };
        let ghost nhead: int = if l % N == 0 { 0 } else { 1 };
        let head = if l % N == 0 {
            proof {
                assert(lb * N == l) by (nonlinear_arith)
                    requires
                        l == N * (l / N) + l % N,
                        l % N == 0,
                        lb == l / N,
                ;
            }
            lb
        } else {
            let part = &self.slice[l..(lb + 1) * N];
            proof {
                assert(part@ == self.elements().subrange(l as int, (lb + 1) * N));
            }
            let x = (self.resolver)(part, arg);
            let ghost prev = acc;
            proof {
                assert(call_ensures(self.resolver(), (part, arg), x));
                assert(self.answers_part(l as int, (lb + 1) * N, arg, x));
                assert(bound(x, (lb + 1) * N - l));
                assert(bound(prev, 0));
            }
            acc = (self.merger)(acc, x);
            proof {
                assert(ps[0] == Piece::Part(l as int, (lb + 1) * N));
                rs = rs.push(x);
                assert(rs.drop_last() =~= Seq::<R>::empty());
                assert(merges_to(self.merger, d, rs.drop_last(), prev));
                assert(call_ensures(self.merger, (prev, rs.last()), acc));
                assert(bound(acc, 0 + ((lb + 1) * N - l)));
            }
            lb + 1
        };
        let mut b = head;
        while b < rb
            invariant
                self.wf(),
                len == self.slice@.len(),
                ps == pieces(l as int, r as int, N as int),
                lb < rb,
                l <= r,
                lb == l / N,
                rb == r / N,
                rb * N <= r <= len,
                head == first,
                first <= b <= rb,
                l <= first * N,
                rs.len() == nhead + (b - first),
                nhead == (if l % N == 0 { 0int } else { 1int }),
                first == (if l % N == 0 { lb as int } else { lb + 1 }),
                forall|k: int| 0 <= k < rs.len() ==> self.answers_piece(#[trigger] ps[k], arg, rs[k]),
                merges_to(self.merger, d, rs, acc),
                self.caches_accepted(arg),
                self.merges_within(arg, bound),
                bound(acc, b * N - l),
            decreases rb - b,
        {
            proof {
                let k = blocks_for(len as nat, N as nat);
                lemma_blocks_for(len as nat, N as nat);
                assert(b < k) by (nonlinear_arith)
                    requires
                        b < rb,
                        rb * N <= len,
                        k * N >= len,
                        N > 0,
                ;
                assert(call_requires(self.cache_resolver(), (&self.caches()[b as int], arg)));
            }
            let x = (self.cache_resolver)(self.cache_at(b), arg);
            let ghost prev = acc;
            proof {
                assert(call_ensures(self.cache_resolver(), (&self.caches()[b as int], arg), x));
                assert(bound(x, N as int));
                assert((b + 1) * N == b * N + N) by (nonlinear_arith);
                assert((b + 1) * N <= rb * N) by (nonlinear_arith)
                    requires
                        b < rb,
                        N > 0,
                ;
                assert(b * N >= first * N) by (nonlinear_arith)
                    requires
                        b >= first,
                        N > 0,
                ;
            }
            acc = (self.merger)(acc, x);
            proof {
                assert(bound(acc, (b * N - l) + N));
                lemma_pieces_shape(l as int, r as int, N as int);
                assert(ps[rs.len() as int] == Piece::Block(b as int));
                let old_rs = rs;
                rs = rs.push(x);
                assert(rs.drop_last() =~= old_rs);
                assert(merges_to(self.merger, d, rs.drop_last(), prev));
                assert(call_ensures(self.merger, (prev, rs.last()), acc));
            }
            b = b + 1;
        }
        if r % N != 0 {
            let part = &self.slice[rb * N..r];
            proof {
                assert(part@ == self.elements().subrange(rb * N, r as int));
            }
            let x = (self.resolver)(part, arg);
            let ghost prev = acc;
            proof {
                assert(call_ensures(self.resolver(), (part, arg), x));
                assert(self.answers_part(rb * N, r as int, arg, x));
                assert(bound(x, r - rb * N));
            }
            acc = (self.merger)(acc, x);
            proof {
                lemma_pieces_shape(l as int, r as int, N as int);
                let old_rs = rs;
                rs = rs.push(x);
                assert(rs.drop_last() =~= old_rs);
                assert(merges_to(self.merger, d, rs.drop_last(), prev));
                assert(call_ensures(self.merger, (prev, rs.last()), acc));
            }
        }
        proof {
            lemma_pieces_shape(l as int, r as int, N as int);
            assert(rs.len() == ps.len());
            assert(merges_to(self.merger(), d, rs, acc));
            assert(call_ensures(R::default, (), d));
            assert(forall|k: int| 0 <= k < ps.len() ==> self.answers_piece(#[trigger] ps[k], arg, rs[k]));
        }
        acc
    }
}

} // verus!
