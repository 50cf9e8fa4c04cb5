use vstd::prelude::*;
use vstd::std_specs::cmp::PartialEqSpec;

verus! {

/// Element equality as `==` decides it.
pub open spec fn same<I: PartialEq>(a: I, b: I) -> bool {
    a.eq_spec(&b)
}

/// The run-length encoding of `s`: maximal stretches in which each element is equal (by
/// `==`, asked of the later element) to the one before it, each as `(its last element, its
/// length)`.
pub open spec fn runs<I: PartialEq>(s: Seq<I>) -> Seq<(I, nat)>
    decreases s.len(),
{
    if s.len() == 0 {
        Seq::empty()
    } else {
        let r = runs(s.drop_last());
        if s.len() >= 2 && same(s.last(), s[s.len() - 2]) {
            r.update(r.len() - 1, (s.last(), r.last().1 + 1))
        } else {
            r.push((s.last(), 1nat))
        }
    }
}

/// The counts of a run list, as mathematical integers.
pub open spec fn as_nat_counts<I>(r: Seq<(I, usize)>) -> Seq<(I, nat)> {
    r.map_values(|p: (I, usize)| (p.0, p.1 as nat))
}

/// The sum of the counts of a run list.
pub open spec fn total<I>(r: Seq<(I, nat)>) -> nat
    decreases r.len(),
{
    if r.len() == 0 {
        0
    } else {
        total(r.drop_last()) + r.last().1
    }
}

/// `==` on `I` is equality of values.
pub open spec fn eq_is_equality<I: PartialEq>() -> bool {
    forall|a: I, b: I| #[trigger] same(a, b) <==> a == b
}

proof fn lemma_runs_last<I: PartialEq>(s: Seq<I>)
    requires
        s.len() > 0,
    ensures
        runs(s).len() > 0,
        runs(s).last().0 == s.last(),
        runs(s).last().1 >= 1,
    decreases s.len(),
{
    if s.len() > 1 {
        lemma_runs_last(s.drop_last());
    }
}

/// The counts of the runs add up to the length of the sequence.
pub proof fn lemma_runs_total<I: PartialEq>(s: Seq<I>)
    ensures
        total(runs(s)) == s.len(),
    decreases s.len(),
{
    if s.len() > 0 {
        let t = s.drop_last();
        lemma_runs_total(t);
        let r = runs(t);
        if s.len() >= 2 && same(s.last(), s[s.len() - 2]) {
            lemma_runs_last(t);
            let u = r.update(r.len() - 1, (s.last(), r.last().1 + 1));
            assert(u.drop_last() =~= r.drop_last());
        } else {
            assert(r.push((s.last(), 1nat)).drop_last() =~= r);
        }
    }
}

/// Where `==` is equality of values, neighbouring runs hold different values and every
/// run is at least one element long.
pub proof fn lemma_runs_neighbours_differ<I: PartialEq>(s: Seq<I>)
    requires
        eq_is_equality::<I>(),
    ensures
        forall|i: int| 0 <= i < runs(s).len() - 1 ==> runs(s)[i].0 != #[trigger] runs(s)[i + 1].0,
        forall|i: int| 0 <= i < runs(s).len() ==> (#[trigger] runs(s)[i]).1 >= 1,
    decreases s.len(),
{
    if s.len() > 0 {
        let t = s.drop_last();
        lemma_runs_neighbours_differ(t);
        let r = runs(t);
        let u = runs(s);
        if t.len() > 0 {
            lemma_runs_last(t);
            assert(same(s.last(), s[s.len() - 2]) <==> s.last() == t.last());
        }
        if s.len() >= 2 && same(s.last(), s[s.len() - 2]) {
            assert forall|i: int| 0 <= i < u.len() - 1 implies u[i].0 != #[trigger] u[i + 1].0 by {
                assert(u[i].0 == r[i].0 && u[i + 1].0 == r[i + 1].0);
            }
        } else {
            assert forall|i: int| 0 <= i < u.len() - 1 implies u[i].0 != #[trigger] u[i + 1].0 by {
                if i + 1 < r.len() {
                    assert(u[i] == r[i] && u[i + 1] == r[i + 1]);
                } else {
                    assert(u[i + 1].0 == s.last());
                    assert(u[i].0 == t.last());
                }
            }
        }
    }
}

/// Run-length encodes `items`: each maximal stretch of consecutive equal elements becomes
/// `(its last element, its length)`.
pub fn rle<I: PartialEq>(items: Vec<I>) -> (r: Vec<(I, usize)>)
    requires
        I::obeys_eq_spec(),
    ensures
        as_nat_counts(r@) == runs(items@),
{
    let ghost s = items@;
    let n = items.len();
    let mut res: Vec<(I, usize)> = Vec::new();
    let mut pre: Option<I> = None;
    let mut cnt: usize = 0;
    for now in it: items
        invariant
            I::obeys_eq_spec(),
            it.seq() == s,
            s.len() == n,
            it.index() <= n,
            pre is None <==> it.index() == 0,
            pre matches Some(p) ==> {
                &&& p == s[it.index() - 1]
                &&& as_nat_counts(res@).push((p, cnt as nat)) == runs(s.take(it.index() as int))
                &&& 1 <= cnt <= it.index()
            },
            pre is None ==> res@.len() == 0,
    {
        let ghost k = it.index();
        let ghost old_res = res@;
        proof {
            assert(now == s[k as int]);
            assert(s.take(k + 1).drop_last() =~= s.take(k as int));
            assert(s.take(k + 1).last() == s[k as int]);
        }
        match pre {
            None => {
                pre = Some(now);
                cnt = 1;
                proof {
                    assert(as_nat_counts(res@) =~= Seq::<(I, nat)>::empty());
                    assert(s.take(0) =~= Seq::<I>::empty());
                    assert(runs(s.take(1)) == runs(s.take(0)).push((now, 1nat)));
                }
            },
            Some(p) => {
                proof {
                    assert(s.take(k + 1)[k - 1] == s[k - 1]);
                }
                if now != p {
                    res.push((p, cnt));
                    cnt = 1;
                    proof {
                        assert(as_nat_counts(res@) =~= as_nat_counts(old_res).push(
                            (p, res@.last().1 as nat),
                        ));
                        assert(!same(now, p));
                        assert(runs(s.take(k + 1)) == runs(s.take(k as int)).push((now, 1nat)));
                    }
                } else {
                    cnt = cnt + 1;
                    proof {
                        let prev = as_nat_counts(res@).push((p, (cnt - 1) as nat));
                        assert(as_nat_counts(res@).push((now, cnt as nat)) =~= prev.update(
                            prev.len() - 1,
                            (now, prev.last().1 + 1),
                        ));
                    }
                }
                pre = Some(now);
            },
        }
    }
    match pre {
        None => {
            proof {
                assert(s =~= Seq::<I>::empty());
                assert(as_nat_counts(res@) =~= Seq::<(I, nat)>::empty());
            }
        },
        Some(p) => {
            res.push((p, cnt));
            proof {
                assert(s.take(n as int) =~= s);
                assert(as_nat_counts(res@) =~= as_nat_counts(res@.drop_last()).push(
                    (p, cnt as nat),
                ));
            }
        },
    }
    res
}

/// The length of the leading run of `s` looked at from position `j`: the first position at
/// or after `j` whose element differs from `s[0]`, or the length of `s`.
pub open spec fn run_end<I: PartialEq>(s: Seq<I>, j: int) -> int
    decreases s.len() - j,
{
    if j >= s.len() || j < 1 || !same(s[j], s[0]) {
        j
    } else {
        run_end(s, j + 1)
    }
}

/// The leading run ends at or after `j` and within the sequence, and it is as long as the
/// elements keep matching the first.
pub proof fn lemma_run_end_bounds<I: PartialEq>(s: Seq<I>, j: int)
    requires
        1 <= j <= s.len(),
    ensures
        j <= run_end(s, j) <= s.len(),
        forall|k: int| j <= k < run_end(s, j) ==> same(#[trigger] s[k], s[0]),
        run_end(s, j) < s.len() ==> !same(s[run_end(s, j)], s[0]),
    decreases s.len() - j,
{
    if j < s.len() && same(s[j], s[0]) {
        lemma_run_end_bounds(s, j + 1);
    }
}

/// The runs as `RleIter::next` hands them out, one after another: the leading run as `(its
/// first element, its length)`, then the runs of what follows it.
pub open spec fn iter_runs<I: PartialEq>(s: Seq<I>) -> Seq<(I, nat)>
    decreases s.len(),
{
    if s.len() == 0 {
        Seq::empty()
    } else {
        let e = run_end(s, 1);
        proof {
            lemma_run_end_bounds(s, 1);
        }
        seq![(s[0], e as nat)] + iter_runs(s.skip(e))
    }
}

/// Joining two sequences whose meeting elements differ joins their runs.
proof fn lemma_runs_concat<I: PartialEq>(a: Seq<I>, b: Seq<I>)
    requires
        a.len() > 0,
        b.len() > 0,
        !same(b[0], a.last()),
    ensures
        runs(a + b) == runs(a) + runs(b),
    decreases b.len(),
{
    let s = a + b;
    if b.len() == 1 {
        assert(s.drop_last() =~= a);
        assert(b.drop_last() =~= Seq::<I>::empty());
        assert(runs(b.drop_last()).len() == 0);
        assert(runs(b) =~= seq![(b[0], 1nat)]);
    } else {
        let b1 = b.drop_last();
        lemma_runs_concat(a, b1);
        assert(s.drop_last() =~= a + b1);
        lemma_runs_last(b1);
        assert(s.last() == b.last() && s[s.len() - 2] == b[b.len() - 2]);
        let ra = runs(a);
        let rb1 = runs(b1);
        if same(b.last(), b[b.len() - 2]) {
            assert((ra + rb1).update((ra + rb1).len() - 1, (s.last(), (ra + rb1).last().1 + 1)) =~= ra + rb1.update(
                rb1.len() - 1,
                (b.last(), rb1.last().1 + 1),
            ));
        } else {
            assert((ra + rb1).push((s.last(), 1nat)) =~= ra + rb1.push((b.last(), 1nat)));
        }
    }
}

/// A sequence of one repeated value is a single run.
proof fn lemma_runs_constant<I: PartialEq>(a: Seq<I>)
    requires
        eq_is_equality::<I>(),
        a.len() > 0,
        forall|i: int| 0 <= i < a.len() ==> #[trigger] a[i] == a[0],
    ensures
        runs(a) == seq![(a[0], a.len() as nat)],
    decreases a.len(),
{
    if a.len() == 1 {
        assert(a.drop_last() =~= Seq::<I>::empty());
        assert(runs(a.drop_last()).len() == 0);
        assert(runs(a) =~= seq![(a[0], a.len() as nat)]);
    } else {
        let t = a.drop_last();
        assert forall|i: int| 0 <= i < t.len() implies #[trigger] t[i] == t[0] by {
            assert(a[i] == a[0]);
        }
        lemma_runs_constant(t);
        assert(a.last() == a[a.len() - 2]);
        assert(same(a.last(), a[a.len() - 2]));
        assert(runs(a) =~= seq![(a[0], a.len() as nat)]);
    }
}

/// Where `==` is equality of values, the runs that `RleIter` hands out one by one are those
/// that `rle` lists: the function and the adapter agree.
pub proof fn lemma_adapter_agrees<I: PartialEq>(s: Seq<I>)
    requires
        eq_is_equality::<I>(),
    ensures
        iter_runs(s) == runs(s),
    decreases s.len(),
{
    if s.len() > 0 {
        let e = run_end(s, 1);
        lemma_run_end_bounds(s, 1);
        let a = s.take(e);
        let b = s.skip(e);
        assert(s =~= a + b);
        assert forall|i: int| 0 <= i < a.len() implies #[trigger] a[i] == a[0] by {
            if i >= 1 {
                assert(same(s[i], s[0]));
            }
        }
        lemma_runs_constant(a);
        lemma_adapter_agrees(b);
        if b.len() > 0 {
            assert(!same(s[e], s[0]));
            assert(a.last() == s[0]);
            lemma_runs_concat(a, b);
        } else {
            assert(s =~= a);
        }
        assert(iter_runs(s) =~= seq![(s[0], e as nat)] + iter_runs(b));
    }
}

/// Calls of `RleIter::next` that, from `states[0]` on, hand out `outs` one after another and
/// leave nothing, hand out the runs of `states[0]` (where `==` is equality of values): the
/// adapter lists what `rle` lists.
pub proof fn lemma_calls_give_runs<I: PartialEq>(states: Seq<Seq<I>>, outs: Seq<(I, nat)>)
    requires
        eq_is_equality::<I>(),
        states.len() == outs.len() + 1,
        forall|k: int|
            0 <= k < outs.len() ==> #[trigger] iter_runs(states[k]) == seq![outs[k]] + iter_runs(states[k + 1]),
        states.last().len() == 0,
    ensures
        outs == runs(states[0]),
    decreases outs.len(),
{
    if outs.len() == 0 {
        assert(iter_runs(states[0]) =~= Seq::<(I, nat)>::empty());
        assert(states[0] =~= Seq::<I>::empty());
        assert(runs(states[0]).len() == 0);
    } else {
        let st = states.drop_first();
        let os = outs.drop_first();
        assert forall|k: int| 0 <= k < os.len() implies #[trigger] iter_runs(st[k]) == seq![os[k]] + iter_runs(st[k + 1]) by {
            assert(iter_runs(states[k + 1]) == seq![outs[k + 1]] + iter_runs(states[k + 2]));
        }
        lemma_calls_give_runs(st, os);
        assert(iter_runs(states[0]) == seq![outs[0]] + iter_runs(states[1]));
        lemma_adapter_agrees(states[0]);
        lemma_adapter_agrees(states[1]);
        assert(outs =~= seq![outs[0]] + os);
    }
}

/// One element more leaves the leading run as it was, unless the run reached the end, when
/// the element joins it if it matches the run's first element.
proof fn lemma_run_end_push<I: PartialEq>(s: Seq<I>, x: I, j: int)
    requires
        1 <= j <= s.len(),
    ensures
        run_end(s, j) < s.len() ==> run_end(s.push(x), j) == run_end(s, j),
        run_end(s, j) == s.len() ==> run_end(s.push(x), j) == if same(x, s[0]) {
            s.len() + 1int
        } else {
            s.len() as int
        },
    decreases s.len() - j,
{
    let t = s.push(x);
    assert(t[0] == s[0]);
    lemma_run_end_bounds(s, j);
    if j < s.len() {
        assert(t[j] == s[j]);
        if same(s[j], s[0]) {
            lemma_run_end_push(s, x, j + 1);
        }
    } else {
        assert(t[j] == x);
        if same(x, s[0]) {
            assert(run_end(t, j + 1) == j + 1);
        }
    }
}

/// One element more either lengthens the last run, when it matches that run's first
/// element, or starts a run of its own.
pub proof fn lemma_iter_runs_push<I: PartialEq>(s: Seq<I>, x: I)
    requires
        s.len() > 0,
    ensures
        iter_runs(s).len() > 0,
        iter_runs(s.push(x)) == if same(x, iter_runs(s).last().0) {
            iter_runs(s).drop_last().push((iter_runs(s).last().0, iter_runs(s).last().1 + 1))
        } else {
            iter_runs(s).push((x, 1nat))
        },
    decreases s.len(),
{
    let t = s.push(x);
    let e = run_end(s, 1);
    lemma_run_end_bounds(s, 1);
    lemma_run_end_push(s, x, 1);
    lemma_run_end_bounds(t, 1);
    assert(t[0] == s[0]);
    if e < s.len() {
        let u = s.skip(e);
        lemma_iter_runs_push(u, x);
        assert(t.skip(e) =~= u.push(x));
        let r2 = iter_runs(u);
        assert(iter_runs(s) =~= seq![(s[0], e as nat)] + r2);
        assert(iter_runs(t) =~= seq![(s[0], e as nat)] + iter_runs(u.push(x)));
        assert(iter_runs(s).last() == r2.last());
        if same(x, r2.last().0) {
            assert((seq![(s[0], e as nat)] + r2).drop_last() =~= seq![(s[0], e as nat)] + r2.drop_last());
            assert(seq![(s[0], e as nat)] + r2.drop_last().push((r2.last().0, r2.last().1 + 1)) =~= (seq![
                (s[0], e as nat),
            ] + r2).drop_last().push((r2.last().0, r2.last().1 + 1)));
        } else {
            assert(seq![(s[0], e as nat)] + r2.push((x, 1nat)) =~= (seq![(s[0], e as nat)] + r2).push((x, 1nat)));
        }
    } else {
        assert(s.skip(e) =~= Seq::<I>::empty());
        assert(iter_runs(s.skip(e)) =~= Seq::<(I, nat)>::empty());
        assert(iter_runs(s) =~= seq![(s[0], e as nat)]);
        if same(x, s[0]) {
            assert(t.skip(e + 1) =~= Seq::<I>::empty());
            assert(iter_runs(t.skip(e + 1)) =~= Seq::<(I, nat)>::empty());
            assert(iter_runs(t) =~= seq![(s[0], (e + 1) as nat)]);
            assert(iter_runs(s).drop_last() =~= Seq::<(I, nat)>::empty());
            assert(iter_runs(s).drop_last().push((s[0], (e + 1) as nat)) =~= seq![(s[0], (e + 1) as nat)]);
        } else {
            let one = seq![x];
            assert(t.skip(e) =~= one);
            assert(run_end(one, 1) == 1);
            assert(one.skip(1) =~= Seq::<I>::empty());
            assert(iter_runs(one.skip(1)) =~= Seq::<(I, nat)>::empty());
            assert(iter_runs(one) =~= seq![(x, 1nat)]);
            assert(iter_runs(t) =~= seq![(s[0], e as nat), (x, 1nat)]);
        }
    }
}

/// Run-length encoding fed one element at a time: a run is handed out once an element that
/// does not match its first element arrives, and the last run when the feeding is finished.
/// Each run is represented by its first element, the later ones being compared with it.
pub struct RleState<I> {
    /// The first element of the open run.
    pre: Option<I>,
    /// The length of the open run.
    cnt: usize,
    fed: Ghost<Seq<I>>,
    handed: Ghost<Seq<(I, nat)>>,
    finished: Ghost<bool>,
}

impl<I: PartialEq> RleState<I> {
    /// The elements fed so far.
    pub closed spec fn fed(&self) -> Seq<I> {
        self.fed@
    }

    /// The runs handed out so far.
    pub closed spec fn handed(&self) -> Seq<(I, nat)> {
        self.handed@
    }

    /// Whether the feeding has been finished.
    pub closed spec fn finished(&self) -> bool {
        self.finished@
    }

    /// The run still open, if any.
    pub closed spec fn pending(&self) -> Seq<(I, nat)> {
        match self.pre {
            Some(p) => seq![(p, self.cnt as nat)],
            None => Seq::empty(),
        }
    }

    /// The runs handed out and the open one are the runs of what was fed; a run is open
    /// unless nothing was fed or the feeding is finished.
    pub closed spec fn wf(&self) -> bool {
        &&& self.handed@ + self.pending() == iter_runs(self.fed@)
        &&& self.pre is None ==> self.fed@.len() == 0 || self.finished@
        &&& self.finished@ ==> self.pre is None
        &&& self.cnt <= self.fed@.len()
    }

    /// Nothing fed yet.
    pub fn new() -> (st: Self)
        ensures
            st.wf(),
            st.fed() == Seq::<I>::empty(),
            st.handed() == Seq::<(I, nat)>::empty(),
            !st.finished(),
    {
        let st = RleState { pre: None, cnt: 0, fed: Ghost(Seq::empty()), handed: Ghost(Seq::empty()), finished: Ghost(false) };
        proof {
            assert(st.handed@ + st.pending() =~= Seq::<(I, nat)>::empty());
        }
        st
    }

    /// Feeds `x`: hands out the open run when `x` does not match its first element.
    pub fn feed(&mut self, x: I) -> (r: Option<(I, usize)>)
        requires
            I::obeys_eq_spec(),
            old(self).wf(),
            !old(self).finished(),
            old(self).fed().len() < usize::MAX,
        ensures
            final(self).wf(),
            !final(self).finished(),
            final(self).fed() == old(self).fed().push(x),
            final(self).handed() + final(self).pending() == iter_runs(final(self).fed()),
            r is Some <==> old(self).fed().len() > 0 && !same(x, iter_runs(old(self).fed()).last().0),
            r matches Some((y, c)) ==> (y, c as nat) == iter_runs(old(self).fed()).last() && final(self).handed()
                == old(self).handed().push((y, c as nat)),
            r is None ==> final(self).handed() == old(self).handed(),
    {
        let ghost s = self.fed@;
        proof {
            if s.len() > 0 {
                lemma_iter_runs_push(s, x);
            } else {
                assert(s.push(x) =~= seq![x]);
                assert(run_end(seq![x], 1) == 1);
                assert(seq![x].skip(1) =~= Seq::<I>::empty());
                assert(iter_runs(seq![x].skip(1)) =~= Seq::<(I, nat)>::empty());
                assert(iter_runs(seq![x]) =~= seq![(x, 1nat)]);
            }
        }
        match self.pre.take() {
            None => {
                self.pre = Some(x);
                self.cnt = 1;
                self.fed = Ghost(s.push(x));
                proof {
                    assert(self.handed@ =~= Seq::<(I, nat)>::empty());
                    assert(self.handed@ + self.pending() =~= iter_runs(self.fed@));
                }
                None
            },
            Some(p) => {
                let ghost h = self.handed@;
                proof {
                    assert(h + seq![(p, self.cnt as nat)] == iter_runs(s));
                    assert(iter_runs(s).last() == (p, self.cnt as nat));
                    assert(iter_runs(s).drop_last() =~= h);
                }
                if x == p {
                    self.pre = Some(p);
                    self.cnt = self.cnt + 1;
                    self.fed = Ghost(s.push(x));
                    proof {
                        assert(h + self.pending() =~= h.push((p, self.cnt as nat)));
                    }
                    None
                } else {
                    let c = self.cnt;
                    self.pre = Some(x);
                    self.cnt = 1;
                    self.fed = Ghost(s.push(x));
                    self.handed = Ghost(h.push((p, c as nat)));
                    proof {
                        assert(self.handed@ + self.pending() =~= (h + seq![(p, c as nat)]).push((x, 1nat)));
                    }
                    Some((p, c))
                }
            },
        }
    }

    /// Once the feeding is finished, the runs handed out, in order, are the runs of all that
    /// was fed (where `==` is equality of values): feeding element by element and calling
    /// `rle` on the whole sequence give the same runs.
    pub proof fn lemma_handed_are_runs(&self)
        requires
            self.wf(),
            self.finished(),
            eq_is_equality::<I>(),
        ensures
            self.handed() == runs(self.fed()),
    {
        assert(self.handed@ + self.pending() =~= self.handed@);
        lemma_adapter_agrees(self.fed@);
    }

    /// Finishes the feeding: hands out the open run, if any. Afterwards the runs handed out
    /// are all the runs of what was fed, and every later call gives `None`.
    pub fn finish(&mut self) -> (r: Option<(I, usize)>)
        requires
            old(self).wf(),
        ensures
            final(self).wf(),
            final(self).finished(),
            final(self).fed() == old(self).fed(),
            final(self).handed() == iter_runs(final(self).fed()),
            r is None <==> old(self).fed().len() == 0 || old(self).finished(),
            r matches Some((y, c)) ==> (y, c as nat) == iter_runs(old(self).fed()).last() && final(self).handed()
                == old(self).handed().push((y, c as nat)),
            r is None ==> final(self).handed() == old(self).handed(),
    {
        self.finished = Ghost(true);
        match self.pre.take() {
            None => {
                proof {
                    assert(self.handed@ + Seq::<(I, nat)>::empty() =~= self.handed@);
                }
                None
            },
            Some(p) => {
                let c = self.cnt;
                let ghost h = self.handed@;
                self.handed = Ghost(h.push((p, c as nat)));
                proof {
                    assert(h + seq![(p, c as nat)] =~= h.push((p, c as nat)));
                    assert(self.handed@ + self.pending() =~= self.handed@);
                }
                Some((p, c))
            },
        }
    }
}

/// Run-length encoding handed out one run at a time.
///
/// Each run is represented by its first element; the elements after it are compared
/// with that first element.
pub struct RleIter<I> {
    /// The elements not yet looked at, last one first.
    rest: Vec<I>,
    /// The first element of the next run.
    pre: Option<I>,
}

impl<I: PartialEq> RleIter<I> {
    /// The elements not yet handed out, in order.
    pub closed spec fn remaining(&self) -> Seq<I> {
        match self.pre {
            Some(p) => seq![p] + self.rest@.reverse(),
            None => Seq::empty(),
        }
    }

    /// Once there is no next run, nothing remains; and a run's length fits in `usize`.
    pub closed spec fn wf(&self) -> bool {
        &&& self.pre is None ==> self.rest@.len() == 0
        &&& self.rest@.len() < usize::MAX
    }

    /// Starts run-length encoding `items`.
    pub fn new(items: Vec<I>) -> (it: Self)
        ensures
            it.wf(),
            it.remaining() == items@,
    {
        let ghost s = items@;
        let n = items.len();
        let mut items = items;
        let mut rest: Vec<I> = Vec::new();
        while items.len() > 0
            invariant
                items@ + rest@.reverse() == s,
                s.len() == n,
            decreases items@.len(),
        {
            let ghost before = items@;
            let x = items.pop().unwrap();
            rest.push(x);
            proof {
                assert(rest@.reverse() =~= seq![x] + rest@.drop_last().reverse());
                assert(before =~= items@.push(x));
                assert(items@ + rest@.reverse() =~= before + rest@.drop_last().reverse());
            }
        }
        proof {
            assert(items@ + rest@.reverse() =~= rest@.reverse());
        }
        let pre = rest.pop();
        let it = RleIter { rest, pre };
        proof {
            if s.len() > 0 {
                assert(s =~= seq![s[0]] + s.drop_first());
                assert(it.rest@.reverse() =~= s.drop_first());
            } else {
                assert(s =~= Seq::<I>::empty());
            }
        }
        it
    }

    /// The next run as `(its first element, its length)`, or `None` when nothing remains. The
    /// run handed out, then the runs of what remains, are the runs of what remained before; after
    /// a `None` nothing remains, so every later call gives `None` too.
    pub fn next(&mut self) -> (r: Option<(I, usize)>)
        requires
            I::obeys_eq_spec(),
            old(self).wf(),
        ensures
            final(self).wf(),
            match r {
                None => old(self).remaining().len() == 0 && final(self).remaining().len() == 0,
                Some((x, c)) => {
                    let s = old(self).remaining();
                    &&& s.len() > 0
                    &&& x == s[0]
                    &&& c == run_end(s, 1)
                    &&& final(self).remaining() == s.skip(c as int)
                },
            },
            r is None ==> iter_runs(old(self).remaining()) == Seq::<(I, nat)>::empty(),
            r matches Some((x, c)) ==> iter_runs(old(self).remaining()) == seq![(x, c as nat)] + iter_runs(
                final(self).remaining(),
            ),
    {
        let ghost s = old(self).remaining();
        let pre = match self.pre.take() {
            None => {
                return None;
            },
            Some(p) => p,
        };
        let mut cnt: usize = 1;
        proof {
            lemma_run_end_bounds(s, 1);
        }
        while self.rest.len() > 0
            invariant
                I::obeys_eq_spec(),
                self.pre is None,
                s == old(self).remaining(),
                s[0] == pre,
                1 <= cnt <= s.len(),
                s.len() <= usize::MAX,
                self.rest@.reverse() == s.skip(cnt as int),
                forall|k: int| 1 <= k < cnt ==> same(#[trigger] s[k], s[0]),
            decreases self.rest@.len(),
        {
            let ghost before = self.rest@;
            let now = self.rest.pop().unwrap();
            proof {
                assert(before =~= self.rest@.push(now));
                assert(before.reverse() =~= seq![now] + self.rest@.reverse());
                assert(s.skip(cnt as int)[0] == s[cnt as int]);
                assert(s.skip(cnt + 1) =~= s.skip(cnt as int).drop_first());
                assert(self.rest@.reverse() =~= (seq![now] + self.rest@.reverse()).drop_first());
                assert(self.rest@.reverse() =~= s.skip(cnt + 1));
            }
            if now != pre {
                proof {
                    assert(run_end(s, 1) == cnt as int) by {
                        lemma_run_end_prefix(s, 1, cnt as int);
                    }
                    assert(seq![now] + self.rest@.reverse() =~= s.skip(cnt as int));
                }
                self.pre = Some(now);
                return Some((pre, cnt));
            }
            cnt = cnt + 1;
        }
        proof {
            assert(s.skip(cnt as int).len() == 0);
            lemma_run_end_prefix(s, 1, cnt as int);
            assert(s.skip(cnt as int) =~= Seq::<I>::empty());
        }
        Some((pre, cnt))
    }
}

proof fn lemma_run_end_prefix<I: PartialEq>(s: Seq<I>, j: int, c: int)
    requires
        1 <= j <= c <= s.len(),
        forall|k: int| 1 <= k < c ==> same(#[trigger] s[k], s[0]),
        c == s.len() || !same(s[c], s[0]),
    ensures
        run_end(s, j) == c,
    decreases c - j,
{
    if j < c {
        assert(same(s[j], s[0]));
        lemma_run_end_prefix(s, j + 1, c);
    }
}

} // verus!

verus! {

/// Run-length encoding handed out one run at a time, for a sequence of elements.
pub trait Rle<I>: Sized {
    /// Starts handing out the runs of `self`.
    fn rle(self) -> RleIter<I>;
}

impl<I: PartialEq> Rle<I> for Vec<I> {
    fn rle(self) -> (it: RleIter<I>)
        ensures
            it.wf(),
            it.remaining() == self@,
    {
        RleIter::new(self)
    }
}

} // verus!
