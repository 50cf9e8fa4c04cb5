use vstd::prelude::*;
use vstd::laws_eq::obeys_eq;
use vstd::laws_eq::obeys_eq_spec_properties;
use vstd::std_specs::cmp::PartialEqSpec;

verus! {

/// Element equality as `==` decides it.
pub open spec fn eqv<T: PartialEq>(a: T, b: T) -> bool {
    a.eq_spec(&b)
}

/// `b` is a proper border of the first `len` elements of `s`: the prefix and the suffix of
/// length `b` of `s[..len]` agree element by element.
pub open spec fn is_border<T: PartialEq>(s: Seq<T>, len: int, b: int) -> bool {
    &&& 0 <= b < len <= s.len()
    &&& forall|k: int| 0 <= k < b ==> #[trigger] eqv(s[k], s[len - b + k])
}

/// `b` is the longest proper border of `s[..len]`.
pub open spec fn is_longest_border<T: PartialEq>(s: Seq<T>, len: int, b: int) -> bool {
    &&& is_border(s, len, b)
    &&& forall|c: int| #[trigger] is_border(s, len, c) ==> c <= b
}

/// The non-empty `pat` occurs in `text` starting at position `p`.
pub open spec fn occurs_at<T: PartialEq>(text: Seq<T>, pat: Seq<T>, p: int) -> bool {
    &&& pat.len() > 0
    &&& 0 <= p
    &&& p + pat.len() <= text.len()
    &&& forall|k: int| 0 <= k < pat.len() ==> #[trigger] eqv(pat[k], text[p + k])
}

/// The first `len` elements of `pat` occur in `text` starting at `p`.
pub open spec fn prefix_at<T: PartialEq>(text: Seq<T>, pat: Seq<T>, p: int, len: int) -> bool {
    &&& 0 <= p
    &&& 0 <= len <= pat.len()
    &&& p + len <= text.len()
    &&& forall|k: int| 0 <= k < len ==> #[trigger] eqv(pat[k], text[p + k])
}

/// The positions `p >= lo` where `pat` occurs in `text`, in increasing order.
pub open spec fn occurrences_from<T: PartialEq>(text: Seq<T>, pat: Seq<T>, lo: int) -> Seq<usize>
    decreases text.len() - lo,
{
    if lo >= text.len() || lo < 0 {
        Seq::empty()
    } else if occurs_at(text, pat, lo) {
        seq![lo as usize] + occurrences_from(text, pat, lo + 1)
    } else {
        occurrences_from(text, pat, lo + 1)
    }
}

proof fn lemma_eqv_laws<T: PartialEq>()
    requires
        obeys_eq::<T>(),
    ensures
        forall|x: T, y: T| #[trigger] eqv(x, y) ==> eqv(y, x),
        forall|x: T, y: T, z: T| #[trigger] eqv(x, y) && #[trigger] eqv(y, z) ==> eqv(x, z),
{
    reveal(obeys_eq_spec_properties);
}

proof fn lemma_border_shrink<T: PartialEq>(s: Seq<T>, len: int, b: int)
    requires
        is_border(s, len + 1, b),
        b > 0,
    ensures
        is_border(s, len, b - 1),
        eqv(s[b - 1], s[len]),
{
    assert(eqv(s[b - 1], s[len + 1 - b + (b - 1)]));
    assert forall|k: int| 0 <= k < b - 1 implies #[trigger] eqv(s[k], s[len - (b - 1) + k]) by {
        assert(eqv(s[k], s[len + 1 - b + k]));
    }
}

proof fn lemma_border_extend<T: PartialEq>(s: Seq<T>, len: int, b: int)
    requires
        is_border(s, len, b),
        len < s.len(),
        eqv(s[b], s[len]),
    ensures
        is_border(s, len + 1, b + 1),
{
    assert forall|k: int| 0 <= k < b + 1 implies #[trigger] eqv(s[k], s[len + 1 - (b + 1) + k]) by {
        if k < b {
            assert(eqv(s[k], s[len - b + k]));
        }
    }
}

proof fn lemma_border_of_border<T: PartialEq>(s: Seq<T>, len: int, b: int, c: int)
    requires
        obeys_eq::<T>(),
        is_border(s, len, b),
        is_border(s, b, c),
    ensures
        is_border(s, len, c),
{
    lemma_eqv_laws::<T>();
    assert forall|k: int| 0 <= k < c implies #[trigger] eqv(s[k], s[len - c + k]) by {
        assert(eqv(s[k], s[b - c + k]));
        assert(eqv(s[b - c + k], s[len - b + (b - c + k)]));
    }
}

proof fn lemma_border_inner<T: PartialEq>(s: Seq<T>, len: int, b: int, c: int)
    requires
        obeys_eq::<T>(),
        is_border(s, len, b),
        is_border(s, len, c),
        c < b,
    ensures
        is_border(s, b, c),
{
    lemma_eqv_laws::<T>();
    assert forall|k: int| 0 <= k < c implies #[trigger] eqv(s[k], s[b - c + k]) by {
        assert(eqv(s[k], s[len - c + k]));
        assert(eqv(s[b - c + k], s[len - b + (b - c + k)]));
    }
}

/// Two overlapping prefix occurrences in a text give a border of the longer prefix.
proof fn lemma_overlap_border<T: PartialEq>(text: Seq<T>, pat: Seq<T>, pos: int, pi: int, p: int)
    requires
        obeys_eq::<T>(),
        prefix_at(text, pat, pos, pi),
        pos < p < pos + pi,
        prefix_at(text, pat, p, pos + pi - p),
    ensures
        is_border(pat, pi, pos + pi - p),
{
    lemma_eqv_laws::<T>();
    let b = pos + pi - p;
    assert forall|k: int| 0 <= k < b implies #[trigger] eqv(pat[k], pat[pi - b + k]) by {
        assert(eqv(pat[k], text[p + k]));
        assert(eqv(pat[p - pos + k], text[pos + (p - pos + k)]));
    }
}

/// A searcher for a pattern, preprocessed into its table of longest proper borders.
pub struct KMP<'pattern, T> {
    pattern: &'pattern [T],
    lps: Vec<usize>,
}

impl<'pattern, T: Eq> KMP<'pattern, T> {
    /// The pattern being searched for.
    pub closed spec fn pattern(&self) -> Seq<T> {
        self.pattern@
    }

    /// `lps[i]` is the longest proper border of the first `i + 1` pattern elements.
    pub closed spec fn wf(&self) -> bool {
        &&& obeys_eq::<T>()
        &&& self.lps@.len() == self.pattern@.len()
        &&& forall|i: int|
            0 <= i < self.lps@.len() ==> is_longest_border(
                self.pattern@,
                i + 1,
                #[trigger] self.lps@[i] as int,
            )
    }

    /// Preprocesses `pattern`.
    pub fn new(pattern: &'pattern [T]) -> (k: Self)
        requires
            obeys_eq::<T>(),
        ensures
            k.wf(),
            k.pattern() == pattern@,
    {
        let lps = Self::build_lps(pattern);
        KMP { pattern, lps }
    }

    fn build_lps(pattern: &[T]) -> (lps: Vec<usize>)
        requires
            obeys_eq::<T>(),
        ensures
            lps@.len() == pattern@.len(),
            forall|i: int|
                0 <= i < lps@.len() ==> is_longest_border(pattern@, i + 1, #[trigger] lps@[i] as int),
    {
        let ghost p = pattern@;
        let m = pattern.len();
        let mut lps: Vec<usize> = Vec::new();
        let mut z: usize = 0;
        while z < m
            invariant
                z <= m,
                lps@.len() == z,
                forall|j: int| 0 <= j < z ==> lps@[j] == 0,
            decreases m - z,
        {
            lps.push(0);
            z = z + 1;
        }
        if m == 0 {
            return lps;
        }
        proof {
            assert(is_longest_border(p, 1, 0));
        }
        let mut length: usize = 0;
        let mut i: usize = 1;
        while i < m
            invariant
                obeys_eq::<T>(),
                p == pattern@,
                m == p.len(),
                1 <= i <= m,
                lps@.len() == m,
                length < i,
                is_border(p, i as int, length as int),
                forall|b: int| #[trigger] is_border(p, i + 1, b) && b > 0 ==> b - 1 <= length,
                forall|j: int| 0 <= j < i ==> is_longest_border(p, j + 1, #[trigger] lps@[j] as int),
            decreases 2 * m - 2 * i + length,
        {
            if pattern[i] == pattern[length] {
                proof {
                    lemma_eqv_laws::<T>();
                    assert(eqv(p[i as int], p[length as int]));
                    lemma_border_extend(p, i as int, length as int);
                }
                length = length + 1;
                lps.set(i, length);
                i = i + 1;
                proof {
                    assert forall|b: int| #[trigger] is_border(p, i + 1, b) && b > 0 implies b - 1
                        <= length by {
                        lemma_border_shrink(p, i as int, b);
                    }
                }
            } else if length != 0 {
                let ghost old_len = length as int;
                length = lps[length - 1];
                proof {
                    lemma_eqv_laws::<T>();
                    lemma_border_of_border(p, i as int, old_len, length as int);
                    assert forall|b: int| #[trigger] is_border(p, i + 1, b) && b > 0 implies b - 1
                        <= length by {
                        lemma_border_shrink(p, i as int, b);
                        if b - 1 == old_len {
                            assert(eqv(p[old_len], p[i as int]));
                        } else {
                            lemma_border_inner(p, i as int, old_len, b - 1);
                            assert(is_border(p, old_len, b - 1));
                        }
                    }
                }
            } else {
                lps.set(i, 0);
                proof {
                    lemma_eqv_laws::<T>();
                    assert forall|c: int| #[trigger] is_border(p, i + 1, c) implies c <= 0 by {
                        if c > 0 {
                            lemma_border_shrink(p, i as int, c);
                        }
                    }
                }
                i = i + 1;
                proof {
                    assert forall|b: int| #[trigger] is_border(p, i + 1, b) && b > 0 implies b - 1
                        <= length by {
                        lemma_border_shrink(p, i as int, b);
                    }
                }
            }
        }
        lps
    }

    /// A searcher for the occurrences of the pattern in `text`, starting from position 0.
    pub fn search<'kmp, 'src>(&'kmp self, text: &'src [T]) -> (it: KMPIter<'kmp, 'pattern, 'src, T>)
        requires
            self.wf(),
        ensures
            it.wf(),
            it.text() == text@,
            it.pattern() == self.pattern(),
            it.next_from() == 0,
    {
        KMPIter { kmp: self, text, text_index: 0, pattern_index: 0, lo: Ghost(0) }
    }
}

/// The state of a search: the positions before `next_from()` have been dealt with.
pub struct KMPIter<'kmp, 'pattern, 'src, T> {
    kmp: &'kmp KMP<'pattern, T>,
    text: &'src [T],
    text_index: usize,
    pattern_index: usize,
    lo: Ghost<int>,
}

impl<'kmp, 'pattern, 'src, T: Eq> KMPIter<'kmp, 'pattern, 'src, T> {
    /// The text searched in.
    pub closed spec fn text(&self) -> Seq<T> {
        self.text@
    }

    /// The pattern searched for.
    pub closed spec fn pattern(&self) -> Seq<T> {
        self.kmp.pattern@
    }

    /// The smallest position not yet reported or passed over.
    pub closed spec fn next_from(&self) -> int {
        self.lo@
    }

    /// The search state invariant.
    pub closed spec fn wf(&self) -> bool {
        let t = self.text@;
        let pat = self.kmp.pattern@;
        let pi = self.pattern_index as int;
        let ti = self.text_index as int;
        let pos = ti - pi;
        &&& self.kmp.wf()
        &&& ti <= t.len()
        &&& (pat.len() > 0 ==> pi < pat.len())
        &&& (pat.len() == 0 ==> pi == 0)
        &&& 0 <= self.lo@ <= pos
        &&& prefix_at(t, pat, pos, pi)
        &&& forall|p: int| self.lo@ <= p < pos ==> !#[trigger] occurs_at(t, pat, p)
    }

    /// Reports the next occurrence at or after `next_from()`, if any. After a `None` the search
    /// stays where it was, so every later call gives `None` too.
    pub fn next(&mut self) -> (r: Option<usize>)
        requires
            old(self).wf(),
        ensures
            final(self).wf(),
            final(self).text() == old(self).text(),
            final(self).pattern() == old(self).pattern(),
            match r {
                Some(p) => {
                    &&& old(self).next_from() <= p
                    &&& occurs_at(old(self).text(), old(self).pattern(), p as int)
                    &&& forall|q: int|
                        old(self).next_from() <= q < p ==> !#[trigger] occurs_at(
                            old(self).text(),
                            old(self).pattern(),
                            q,
                        )
                    &&& final(self).next_from() == p + 1
                },
                None => {
                    &&& forall|q: int|
                        old(self).next_from() <= q ==> !#[trigger] occurs_at(
                            old(self).text(),
                            old(self).pattern(),
                            q,
                        )
                    &&& final(self).next_from() == old(self).next_from()
                },
            },
    {
        let ghost t = old(self).text@;
        let ghost pat = old(self).kmp.pattern@;
        let ghost lo0 = old(self).lo@;
        let n = self.text.len();
        let m = self.kmp.pattern.len();
        if n < m || m == 0 {
            return None;
        }
        while self.text_index < n
            invariant
                self.wf(),
                self.text@ == t,
                self.kmp.pattern@ == pat,
                self.lo@ == lo0,
                lo0 == old(self).lo@,
                t == old(self).text@,
                pat == old(self).kmp.pattern@,
                n == t.len(),
                m == pat.len(),
                m > 0,
            decreases 2 * (n - self.text_index) + self.pattern_index,
        {
            proof {
                lemma_eqv_laws::<T>();
            }
            let ghost pos0 = self.text_index - self.pattern_index;
            assert(lo0 <= pos0);
            assert(forall|q: int| lo0 <= q < pos0 ==> !#[trigger] occurs_at(t, pat, q));
            if self.kmp.pattern[self.pattern_index] == self.text[self.text_index] {
                self.pattern_index = self.pattern_index + 1;
                self.text_index = self.text_index + 1;
            }
            if self.pattern_index == m {
                let res = self.text_index - self.pattern_index;
                let ghost ti = self.text_index as int;
                let b = self.kmp.lps[self.pattern_index - 1];
                proof {
                    assert(is_longest_border(pat, m as int, b as int));
                    assert forall|q: int| res < q < ti - b implies !#[trigger] occurs_at(
                        t,
                        pat,
                        q,
                    ) by {
                        if occurs_at(t, pat, q) {
                            assert(prefix_at(t, pat, q, ti - q));
                            lemma_overlap_border(t, pat, res as int, m as int, q);
                        }
                    }
                    assert(prefix_at(t, pat, ti - b, b as int)) by {
                        assert forall|k: int| 0 <= k < b implies #[trigger] eqv(
                            pat[k],
                            t[ti - b + k],
                        ) by {
                            assert(eqv(pat[k], pat[m - b + k]));
                            assert(eqv(pat[m - b + k], t[res + (m - b + k)]));
                        }
                    }
                    assert(occurs_at(t, pat, res as int));
                }
                assert(res == pos0);
                self.pattern_index = b;
                self.lo = Ghost(res + 1);
                return Some(res);
            } else if self.text_index < n && self.kmp.pattern[self.pattern_index]
                != self.text[self.text_index] {
                let ghost ti = self.text_index as int;
                let ghost pi = self.pattern_index as int;
                if self.pattern_index != 0 {
                    let b = self.kmp.lps[self.pattern_index - 1];
                    proof {
                        assert(is_longest_border(pat, pi, b as int));
                        assert forall|q: int| ti - pi <= q < ti - b implies !#[trigger] occurs_at(
                            t,
                            pat,
                            q,
                        ) by {
                            if occurs_at(t, pat, q) {
                                if q == ti - pi {
                                    assert(eqv(pat[pi], t[q + pi]));
                                } else {
                                    assert(prefix_at(t, pat, q, ti - q));
                                    lemma_overlap_border(t, pat, ti - pi, pi, q);
                                }
                            }
                        }
                        assert(prefix_at(t, pat, ti - b, b as int)) by {
                            assert forall|k: int| 0 <= k < b implies #[trigger] eqv(
                                pat[k],
                                t[ti - b + k],
                            ) by {
                                assert(eqv(pat[k], pat[pi - b + k]));
                                assert(eqv(pat[pi - b + k], t[ti - pi + (pi - b + k)]));
                            }
                        }
                    }
                    self.pattern_index = b;
                } else {
                    proof {
                        assert forall|q: int| ti <= q < ti + 1 implies !#[trigger] occurs_at(
                            t,
                            pat,
                            q,
                        ) by {
                            if occurs_at(t, pat, q) {
                                assert(eqv(pat[0], t[q + 0]));
                            }
                        }
                    }
                    self.text_index = self.text_index + 1;
                }
            }
        }
        proof {
            let pos = self.text_index - self.pattern_index;
            assert forall|q: int| lo0 <= q implies !#[trigger] occurs_at(t, pat, q) by {
                if q >= pos && occurs_at(t, pat, q) {
                    assert(q + m <= n);
                }
            }
        }
        None
    }

    /// Reports all remaining occurrences, in increasing order.
    pub fn collect_all(&mut self) -> (r: Vec<usize>)
        requires
            old(self).wf(),
        ensures
            r@ == occurrences_from(old(self).text(), old(self).pattern(), old(self).next_from()),
    {
        let ghost t = self.text@;
        let ghost pat = self.kmp.pattern@;
        let ghost lo0 = self.lo@;
        let mut res: Vec<usize> = Vec::new();
        loop
            invariant_except_break
                self.wf(),
                self.text@ == t,
                self.kmp.pattern@ == pat,
                lo0 <= self.lo@ <= t.len() + 1,
                occurrences_from(t, pat, lo0) == res@ + occurrences_from(t, pat, self.lo@),
            ensures
                occurrences_from(t, pat, lo0) == res@,
            decreases t.len() + 1 - self.lo@,
        {
            let ghost lo = self.lo@;
            match self.next() {
                Some(p) => {
                    proof {
                        lemma_occurrences_skip(t, pat, lo, p as int);
                        assert(occurrences_from(t, pat, p as int) =~= seq![p] + occurrences_from(
                            t,
                            pat,
                            p + 1,
                        ));
                    }
                    res.push(p);
                    proof {
                        assert(res@ + occurrences_from(t, pat, self.lo@) =~= (res@.drop_last() + seq![p]) + occurrences_from(t, pat, p + 1));
                    }
                },
                None => {
                    proof {
                        assert(forall|q: int| lo <= q ==> !#[trigger] occurs_at(t, pat, q));
                        lemma_occurrences_none(t, pat, lo);
                        assert(res@ + Seq::<usize>::empty() =~= res@);
                    }
                    break;
                },
            }
        }
        res
    }
}

proof fn lemma_occurrences_skip<T: PartialEq>(t: Seq<T>, pat: Seq<T>, lo: int, p: int)
    requires
        0 <= lo <= p,
        forall|q: int| lo <= q < p ==> !#[trigger] occurs_at(t, pat, q),
    ensures
        occurrences_from(t, pat, lo) == occurrences_from(t, pat, p),
    decreases p - lo,
{
    if lo < p {
        lemma_occurrences_skip(t, pat, lo + 1, p);
    }
}

proof fn lemma_occurrences_none<T: PartialEq>(t: Seq<T>, pat: Seq<T>, lo: int)
    requires
        0 <= lo,
        forall|q: int| lo <= q ==> !#[trigger] occurs_at(t, pat, q),
    ensures
        occurrences_from(t, pat, lo) == Seq::<usize>::empty(),
    decreases t.len() - lo,
{
    if lo < t.len() {
        lemma_occurrences_none(t, pat, lo + 1);
    }
}

} // verus!
