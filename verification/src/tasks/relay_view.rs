use vstd::prelude::*;
use crate::blocks::relay::{cache_resolver, cacher, compose, compose_all, identity, lemma_compose_laws, merger, resolver, Perm, MAX_N};
use crate::div_conquer::{block_of, blocks_accepted, caches, parts_accepted, DivConquer};

verus! {

/// Who finishes in each place among the first `n` runners, numbered from `1`: the runner `i`
/// with `t[i] == j` is in place `j` (the last such runner, should there be several), `0` when
/// none is.
pub fn finishing_order(t: &Perm, n: usize) -> (r: Vec<usize>)
    requires
        n <= MAX_N,
    ensures
        r@.len() == n,
        forall|j: int|
            0 <= j < n ==> {
                let h = #[trigger] r@[j];
                &&& h <= n
                &&& h == 0 <==> (forall|i: int| 0 <= i < n ==> t.0@[i] != j)
                &&& h > 0 ==> t.0@[h - 1] == j && forall|i: int| h <= i < n ==> t.0@[i] != j
            },
{
    let mut place: Vec<usize> = Vec::new();
    while place.len() < n
        invariant
            place@.len() <= n,
            forall|j: int| 0 <= j < place@.len() ==> #[trigger] place@[j] == 0,
        decreases n - place@.len(),
    {
        place.push(0);
    }
    let mut i: usize = 0;
    while i < n
        invariant
            i <= n <= MAX_N,
            place@.len() == n,
            forall|j: int|
                0 <= j < n ==> {
                    let h = #[trigger] place@[j];
                    &&& h <= i
                    &&& h == 0 <==> (forall|k: int| 0 <= k < i ==> t.0@[k] != j)
                    &&& h > 0 ==> t.0@[h - 1] == j && forall|k: int| h <= k < i ==> t.0@[k] != j
                },
        decreases n - i,
    {
        let rank = t.0[i] as usize;
        if rank < n {
            place.set(rank, i + 1);
        }
        i = i + 1;
    }
    place
}

/// `|0 - t[0]| + ... + |k - 1 - t[k - 1]|`.
pub open spec fn displacement_spec(t: Seq<u8>, k: int) -> int
    decreases k,
{
    if k <= 0 {
        0
    } else {
        let d = (k - 1) - t[k - 1] as int;
        displacement_spec(t, k - 1) + if d < 0 {
            -d
        } else {
            d
        }
    }
}

/// How far the first `n` runners moved between entering and leaving, summed.
pub fn displacement(t: &Perm, n: usize) -> (r: usize)
    requires
        n <= MAX_N,
    ensures
        r == displacement_spec(t.0@, n as int),
{
    let mut total: usize = 0;
    let mut i: usize = 0;
    while i < n
        invariant
            i <= n <= MAX_N,
            total == displacement_spec(t.0@, i as int),
            total <= 256 * i,
        decreases n - i,
    {
        let rank = t.0[i] as usize;
        let d = if i < rank {
            rank - i
        } else {
            i - rank
        };
        total = total + d;
        i = i + 1;
    }
    total
}

/// A change or a question about a relay over a number of days.
pub enum RelayEvent {
    /// Day `d` (counted from `0`) now changes the order by `p`.
    Change(usize, Perm),
    /// Who finishes in each place after the days `0..s`.
    Order(usize),
    /// How far the runners moved, summed, over the days `l..r`.
    Moved(usize, usize),
}

/// What an event is answered: nothing for a change.
pub enum RelayAnswer {
    Done,
    Order(Vec<usize>),
    Moved(usize),
}

/// `r` lists who finishes in each place among the first `n` runners, as `finishing_order`
/// gives it for the order change `t`.
pub open spec fn finishing(t: Seq<u8>, n: int, r: Seq<usize>) -> bool {
    &&& r.len() == n
    &&& forall|j: int|
        0 <= j < n ==> {
            let h = #[trigger] r[j];
            &&& h <= n
            &&& h == 0 <==> (forall|i: int| 0 <= i < n ==> t[i] != j)
            &&& h > 0 ==> t[h - 1] == j && forall|i: int| h <= i < n ==> t[i] != j
        }
}

/// The order changes of the `m` days after the events `evs[0..k]`: none at first.
pub open spec fn day_orders(m: nat, evs: Seq<RelayEvent>, k: int) -> Seq<Seq<u8>>
    decreases k,
{
    if k <= 0 {
        Seq::new(m, |i: int| identity())
    } else {
        let before = day_orders(m, evs, k - 1);
        match evs[k - 1] {
            RelayEvent::Change(d, p) => before.update(d as int, p.0@),
            _ => before,
        }
    }
}

/// The composite, in order, of order changes.
pub open spec fn compose_seq(ts: Seq<Seq<u8>>) -> Seq<u8>
    decreases ts.len(),
{
    if ts.len() == 0 {
        identity()
    } else {
        compose(compose_seq(ts.drop_last()), ts.last())
    }
}

/// The event can be answered for `m` days.
pub open spec fn event_ok(e: RelayEvent, m: nat) -> bool {
    match e {
        RelayEvent::Change(d, p) => d < m && p.wf(),
        RelayEvent::Order(t) => t <= m,
        RelayEvent::Moved(l, r) => l <= r <= m,
    }
}

/// The answer that event `k` is owed.
pub open spec fn relay_answer_ok(n: nat, m: nat, evs: Seq<RelayEvent>, k: int, a: RelayAnswer) -> bool {
    let days = day_orders(m, evs, k);
    match evs[k] {
        RelayEvent::Change(_, _) => a is Done,
        RelayEvent::Order(t) => a matches RelayAnswer::Order(v) && finishing(compose_seq(days.take(t as int)), n as int, v@),
        RelayEvent::Moved(l, r) => a matches RelayAnswer::Moved(x) && x == displacement_spec(
            compose_seq(days.subrange(l as int, r as int)),
            n as int,
        ),
    }
}

proof fn lemma_compose_all_views(ps: Seq<Perm>)
    ensures
        compose_all(ps) == compose_seq(ps.map_values(|p: Perm| p.0@)),
    decreases ps.len(),
{
    if ps.len() > 0 {
        lemma_compose_all_views(ps.drop_last());
        assert(ps.drop_last().map_values(|p: Perm| p.0@) =~= ps.map_values(|p: Perm| p.0@).drop_last());
    }
}

/// A composite of valid order changes is one, of the full length.
proof fn lemma_compose_all_valid(ps: Seq<Perm>)
    requires
        forall|i: int| 0 <= i < ps.len() ==> (#[trigger] ps[i]).wf(),
    ensures
        compose_all(ps).len() == 18,
        forall|i: int| 0 <= i < 18 ==> #[trigger] compose_all(ps)[i] < 18,
    decreases ps.len(),
{
    if ps.len() > 0 {
        let t = ps.drop_last();
        assert forall|i: int| 0 <= i < t.len() implies (#[trigger] t[i]).wf() by {
            assert(t[i] == ps[i]);
        }
        lemma_compose_all_valid(t);
        assert(ps[ps.len() - 1].wf());
    }
}

/// The composite of two stretches one after the other composes their composites.
proof fn lemma_compose_all_concat(a: Seq<Perm>, b: Seq<Perm>)
    requires
        forall|i: int| 0 <= i < a.len() ==> (#[trigger] a[i]).wf(),
        forall|i: int| 0 <= i < b.len() ==> (#[trigger] b[i]).wf(),
    ensures
        compose_all(a + b) == compose(compose_all(a), compose_all(b)),
    decreases b.len(),
{
    lemma_compose_all_valid(a);
    if b.len() == 0 {
        assert(a + b =~= a);
        lemma_compose_laws(compose_all(a), identity(), identity());
    } else {
        let b1 = b.drop_last();
        assert forall|i: int| 0 <= i < b1.len() implies (#[trigger] b1[i]).wf() by {
            assert(b1[i] == b[i]);
        }
        lemma_compose_all_concat(a, b1);
        lemma_compose_all_valid(b1);
        assert((a + b).drop_last() =~= a + b1);
        assert((a + b).last() == b.last());
        lemma_compose_laws(compose_all(a), compose_all(b1), b.last().0@);
    }
}

/// The composite of the order changes of the days `l..r`, their summaries brought up to date
/// first.
#[verifier::rlimit(80)]
fn relay_composite<Fc, Fr, Fcr, Fm>(
    dc: &mut DivConquer<64, Perm, Perm, Perm, (), Fc, Fr, Fcr, Fm>,
    l: usize,
    r: usize,
) -> (t: Perm)
    where
        Fc: Fn(&[Perm]) -> Perm,
        Fr: Fn(&[Perm], &()) -> Perm + Copy,
        Fcr: Fn(&Perm, &()) -> Perm + Copy,
        Fm: Fn(Perm, Perm) -> Perm + Copy,
    requires
        old(dc).wf(),
        l <= r <= old(dc).elements().len(),
        forall|j: int| 0 <= j < old(dc).elements().len() ==> (#[trigger] old(dc).elements()[j]).wf(),
        forall|q: &[Perm]|
            (forall|j: int| 0 <= j < q@.len() ==> (#[trigger] q@[j]).wf()) ==> #[trigger] call_requires(old(dc).cacher(), (q,)),
        forall|q: &[Perm], c: Perm| #[trigger] call_ensures(old(dc).cacher(), (q,), c) ==> c.wf() && c.0@ == compose_all(q@),
        forall|q: &[Perm], a: &()|
            (forall|j: int| 0 <= j < q@.len() ==> (#[trigger] q@[j]).wf()) ==> #[trigger] call_requires(old(dc).resolver(), (q, a)),
        forall|q: &[Perm], a: &(), c: Perm|
            #[trigger] call_ensures(old(dc).resolver(), (q, a), c) ==> c.wf() && c.0@ == compose_all(q@),
        forall|c: &Perm, a: &()| #[trigger] call_requires(old(dc).cache_resolver(), (c, a)),
        forall|c: &Perm, a: &(), z: Perm| #[trigger] call_ensures(old(dc).cache_resolver(), (c, a), z) ==> z == *c,
        forall|x: Perm, y: Perm| x.wf() && y.wf() ==> #[trigger] call_requires(old(dc).merger(), (x, y)),
        forall|x: Perm, y: Perm, z: Perm|
            #[trigger] call_ensures(old(dc).merger(), (x, y), z) ==> z.wf() && z.0@ == compose(x.0@, y.0@),
    ensures
        final(dc).wf(),
        final(dc).elements() == old(dc).elements(),
        final(dc).cacher() == old(dc).cacher(),
        final(dc).resolver() == old(dc).resolver(),
        final(dc).cache_resolver() == old(dc).cache_resolver(),
        final(dc).merger() == old(dc).merger(),
        t.0@ == compose_all(old(dc).elements().subrange(l as int, r as int)),
{
    let ghost s = dc.elements();
    proof {
        assert forall|b: int, q: &[Perm]|
            #![trigger call_requires(dc.cacher(), (q,)), block_of(s, b, 64)]
            0 <= b && b * 64 < s.len() && q@ == block_of(s, b, 64) implies call_requires(dc.cacher(), (q,)) by {
            assert forall|j: int| 0 <= j < q@.len() implies (#[trigger] q@[j]).wf() by {
                assert(q@[j] == s[b * 64 + j]);
            }
        }
        assert(blocks_accepted(dc.cacher(), s, 64));
    }
    let im = dc.into_immut();
    let ghost f = |q: Seq<Perm>, a: ()| compose_all(q);
    let ghost g = |x: Seq<u8>, y: Seq<u8>| compose(x, y);
    let ghost v = |p: Perm| p.0@;
    let ghost bound = |p: Perm, k: int| p.wf();
    proof {
        assert forall|b: int| 0 <= b < im.caches().len() implies (#[trigger] im.caches()[b]).wf()
            && im.caches()[b].0@ == compose_all(block_of(s, b, 64)) by {
            let blk = block_of(s, b, 64);
            assert(caches(old(dc).cacher(), blk, im.caches()[b]));
            let q = choose|q: &[Perm]| q@ == blk && call_ensures(old(dc).cacher(), (q,), im.caches()[b]);
            assert(call_ensures(old(dc).cacher(), (q,), im.caches()[b]));
        }
        assert forall|lo: int, hi: int, q: &[Perm]|
            #![trigger call_requires(im.resolver(), (q, &())), s.subrange(lo, hi)]
            0 <= lo <= hi <= s.len() && hi - lo <= 64 && q@ == s.subrange(lo, hi) implies call_requires(
                im.resolver(),
                (q, &()),
            ) by {
            assert forall|j: int| 0 <= j < q@.len() implies (#[trigger] q@[j]).wf() by {
                assert(q@[j] == s[lo + j]);
            }
        }
        assert(parts_accepted(im.resolver(), s, 64, &()));
        assert(im.caches_accepted(&()));
        assert forall|lo: int, hi: int, y: Perm|
            0 <= lo <= hi <= s.len() && hi - lo <= 64 && #[trigger] im.answers_part(lo, hi, &(), y) implies bound(y, hi - lo) by {
            let q = choose|q: &[Perm]| q@ == s.subrange(lo, hi) && call_ensures(im.resolver(), (q, &()), y);
            assert(call_ensures(old(dc).resolver(), (q, &()), y));
        }
        assert(im.merges_within(&(), bound));
    }
    let t = im.resolve(l..r, &());
    proof {
        assert forall|lo: int, hi: int, q: &[Perm], x: Perm|
            #![trigger call_ensures(im.resolver(), (q, &()), x), s.subrange(lo, hi)]
            0 <= lo <= hi <= s.len() && q@ == s.subrange(lo, hi) && call_ensures(im.resolver(), (q, &()), x) implies v(x)
                == f(q@, ()) by {
            assert(call_ensures(old(dc).resolver(), (q, &()), x));
        }
        assert forall|lo: int, hi: int|
            0 <= lo <= hi <= s.len() implies #[trigger] g(identity(), f(s.subrange(lo, hi), ())) == f(s.subrange(lo, hi), ()) by {
            let sub = s.subrange(lo, hi);
            assert forall|j: int| 0 <= j < sub.len() implies (#[trigger] sub[j]).wf() by {
                assert(sub[j] == s[lo + j]);
            }
            lemma_compose_all_valid(sub);
            lemma_compose_laws(compose_all(sub), identity(), identity());
        }
        assert forall|lo: int, mid: int, hi: int|
            #![trigger f(s.subrange(lo, mid), ()), f(s.subrange(mid, hi), ())]
            0 <= lo <= mid <= hi <= s.len() implies g(f(s.subrange(lo, mid), ()), f(s.subrange(mid, hi), ())) == f(
                s.subrange(lo, hi),
                (),
            ) by {
            let a = s.subrange(lo, mid);
            let b = s.subrange(mid, hi);
            assert forall|j: int| 0 <= j < a.len() implies (#[trigger] a[j]).wf() by {
                assert(a[j] == s[lo + j]);
            }
            assert forall|j: int| 0 <= j < b.len() implies (#[trigger] b[j]).wf() by {
                assert(b[j] == s[mid + j]);
            }
            lemma_compose_all_concat(a, b);
            assert(a + b =~= s.subrange(lo, hi));
        }
        im.lemma_resolve_matches(l as int, r as int, &(), t, f, g, identity(), v);
    }
    t
}

/// Every entry of `p` names a place.
fn perm_ok(p: &Perm) -> (r: bool)
    ensures
        r == p.wf(),
{
    let mut i: usize = 0;
    while i < 18
        invariant
            i <= 18,
            forall|j: int| 0 <= j < i ==> #[trigger] p.0@[j] < 18,
        decreases 18 - i,
    {
        if p.0[i] >= 18 {
            return false;
        }
        i = i + 1;
    }
    true
}

/// Answers the events of a relay of `n` runners over `m` days, in order: a change replaces a
/// day's order change, a question is answered for the days as they then stand. `None` where
/// there are more than `MAX_N` runners or an event names a day past `m`, a reversed stretch
/// of days, or an order change with an entry past the last place.
#[verifier::rlimit(80)]
pub fn answer_relay(n: usize, m: usize, events: &Vec<RelayEvent>) -> (res: Option<Vec<RelayAnswer>>)
    ensures
        res is Some <==> n <= MAX_N && forall|k: int| 0 <= k < events@.len() ==> #[trigger] event_ok(events@[k], m as nat),
        res matches Some(v) ==> {
            &&& v@.len() == events@.len()
            &&& forall|k: int|
                0 <= k < events@.len() ==> #[trigger] relay_answer_ok(n as nat, m as nat, events@, k, v@[k])
        },
{
    let ghost evs = events@;
    if n > MAX_N {
        return None;
    }
    let mut k: usize = 0;
    while k < events.len()
        invariant
            k <= evs.len(),
            evs == events@,
            forall|j: int| 0 <= j < k ==> #[trigger] event_ok(evs[j], m as nat),
        decreases evs.len() - k,
    {
        let ok = match &events[k] {
            RelayEvent::Change(d, p) => *d < m && perm_ok(p),
            RelayEvent::Order(t) => *t <= m,
            RelayEvent::Moved(l, r) => *l <= *r && *r <= m,
        };
        if !ok {
            proof {
                assert(!event_ok(evs[k as int], m as nat));
            }
            return None;
        }
        k = k + 1;
    }
    let mut days: Vec<Perm> = Vec::new();
    let mut i: usize = 0;
    while i < m
        invariant
            i <= m,
            days@.len() == i,
            forall|j: int| 0 <= j < i ==> (#[trigger] days@[j]).wf() && days@[j].0@ == identity(),
        decreases m - i,
    {
        days.push(Perm::default());
        i = i + 1;
    }
    proof {
        assert(days@.map_values(|p: Perm| p.0@) =~= day_orders(m as nat, evs, 0));
        assert forall|b: int, q: &[Perm]|
            #![trigger call_requires(cacher, (q,)), block_of(days@, b, 64)]
            0 <= b && b * 64 < days@.len() && q@ == block_of(days@, b, 64) implies call_requires(cacher, (q,)) by {
            assert forall|j: int| 0 <= j < q@.len() implies (#[trigger] q@[j]).wf() by {
                assert(q@[j] == days@[b * 64 + j]);
            }
        }
    }
    let mut dc = DivConquer::<64, Perm, Perm, Perm, (), _, _, _, _>::new(
        days,
        cacher,
        resolver,
        cache_resolver,
        merger,
    );
    proof {
        assert forall|q: &[Perm]|
            (forall|j: int| 0 <= j < q@.len() ==> (#[trigger] q@[j]).wf()) implies #[trigger] call_requires(dc.cacher(), (q,)) by {}
        assert forall|q: &[Perm], c: Perm| #[trigger] call_ensures(dc.cacher(), (q,), c) implies c.wf() && c.0@ == compose_all(q@) by {}
        assert forall|q: &[Perm], a: &()|
            (forall|j: int| 0 <= j < q@.len() ==> (#[trigger] q@[j]).wf()) implies #[trigger] call_requires(dc.resolver(), (q, a)) by {}
        assert forall|q: &[Perm], a: &(), c: Perm|
            #[trigger] call_ensures(dc.resolver(), (q, a), c) implies c.wf() && c.0@ == compose_all(q@) by {}
        assert forall|c: &Perm, a: &()| #[trigger] call_requires(dc.cache_resolver(), (c, a)) by {}
        assert forall|c: &Perm, a: &(), z: Perm| #[trigger] call_ensures(dc.cache_resolver(), (c, a), z) implies z == *c by {}
        assert forall|x: Perm, y: Perm| x.wf() && y.wf() implies #[trigger] call_requires(dc.merger(), (x, y)) by {}
        assert forall|x: Perm, y: Perm, z: Perm|
            #[trigger] call_ensures(dc.merger(), (x, y), z) implies z.wf() && z.0@ == compose(x.0@, y.0@) by {}
    }
    let mut out: Vec<RelayAnswer> = Vec::new();
    let mut k: usize = 0;
    while k < events.len()
        invariant
            k <= evs.len(),
            evs == events@,
            n <= MAX_N,
            forall|j: int| 0 <= j < evs.len() ==> #[trigger] event_ok(evs[j], m as nat),
            dc.wf(),
            dc.elements().len() == m,
            forall|j: int| 0 <= j < m ==> (#[trigger] dc.elements()[j]).wf(),
            dc.elements().map_values(|p: Perm| p.0@) == day_orders(m as nat, evs, k as int),
            forall|q: &[Perm]|
                (forall|j: int| 0 <= j < q@.len() ==> (#[trigger] q@[j]).wf()) ==> #[trigger] call_requires(dc.cacher(), (q,)),
            forall|q: &[Perm], c: Perm| #[trigger] call_ensures(dc.cacher(), (q,), c) ==> c.wf() && c.0@ == compose_all(q@),
            forall|q: &[Perm], a: &()|
                (forall|j: int| 0 <= j < q@.len() ==> (#[trigger] q@[j]).wf()) ==> #[trigger] call_requires(dc.resolver(), (q, a)),
            forall|q: &[Perm], a: &(), c: Perm|
                #[trigger] call_ensures(dc.resolver(), (q, a), c) ==> c.wf() && c.0@ == compose_all(q@),
            forall|c: &Perm, a: &()| #[trigger] call_requires(dc.cache_resolver(), (c, a)),
            forall|c: &Perm, a: &(), z: Perm| #[trigger] call_ensures(dc.cache_resolver(), (c, a), z) ==> z == *c,
            forall|x: Perm, y: Perm| x.wf() && y.wf() ==> #[trigger] call_requires(dc.merger(), (x, y)),
            forall|x: Perm, y: Perm, z: Perm|
                #[trigger] call_ensures(dc.merger(), (x, y), z) ==> z.wf() && z.0@ == compose(x.0@, y.0@),
            out@.len() == k,
            forall|j: int| 0 <= j < k ==> #[trigger] relay_answer_ok(n as nat, m as nat, evs, j, out@[j]),
        decreases evs.len() - k,
    {
        let ghost before = dc.elements();
        proof {
            assert(event_ok(evs[k as int], m as nat));
            assert(day_orders(m as nat, evs, k + 1) == match evs[k as int] {
                RelayEvent::Change(d, p) => day_orders(m as nat, evs, k as int).update(d as int, p.0@),
                _ => day_orders(m as nat, evs, k as int),
            });
        }
        match &events[k] {
            RelayEvent::Change(d, p) => {
                dc.set(*d, *p);
                proof {
                    assert(dc.elements().map_values(|q: Perm| q.0@) =~= before.map_values(|q: Perm| q.0@).update(
                        *d as int,
                        p.0@,
                    ));
                }
                out.push(RelayAnswer::Done);
            },
            RelayEvent::Order(t) => {
                let ans = relay_composite(&mut dc, 0, *t);
                proof {
                    lemma_compose_all_views(before.take(*t as int));
                    assert(before.take(*t as int).map_values(|q: Perm| q.0@) =~= day_orders(m as nat, evs, k as int).take(
                        *t as int,
                    ));
                }
                let v = finishing_order(&ans, n);
                out.push(RelayAnswer::Order(v));
            },
            RelayEvent::Moved(l, r) => {
                let ans = relay_composite(&mut dc, *l, *r);
                proof {
                    lemma_compose_all_views(before.subrange(*l as int, *r as int));
                    assert(before.subrange(*l as int, *r as int).map_values(|q: Perm| q.0@) =~= day_orders(
                        m as nat,
                        evs,
                        k as int,
                    ).subrange(*l as int, *r as int));
                }
                let x = displacement(&ans, n);
                out.push(RelayAnswer::Moved(x));
            },
        }
        proof {
            assert forall|j: int| 0 <= j < k + 1 implies #[trigger] relay_answer_ok(n as nat, m as nat, evs, j, out@[j]) by {
                if j < k {
                    assert(relay_answer_ok(n as nat, m as nat, evs, j, out@[j]));
                }
            }
        }
        k = k + 1;
    }
    Some(out)
}

} // verus!
