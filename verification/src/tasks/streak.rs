use vstd::prelude::*;
use crate::ranges::{canonical, covers, in_range, lawful_order, Ranges};

verus! {

/// Day `x` is a working day once the first `i + 1` jobs `[a, b]` (inclusive) are taken.
pub open spec fn busy(jobs: Seq<(u64, u64)>, i: int, x: int) -> bool {
    exists|j: int| 0 <= j <= i && jobs[j].0 <= x <= #[trigger] jobs[j].1
}

/// `[s, e)` is a longest stretch of consecutive working days, after the first `i + 1` jobs.
pub open spec fn stretch(jobs: Seq<(u64, u64)>, i: int, s: int, e: int) -> bool {
    &&& s < e
    &&& forall|x: int| s <= x < e ==> busy(jobs, i, x)
    &&& !busy(jobs, i, s - 1)
    &&& !busy(jobs, i, e)
}

/// `ans` is what is printed after job `i` when `prev` was printed before: the larger of
/// `prev` and the length of the stretch that holds job `i`'s first day.
pub open spec fn streak_ok(jobs: Seq<(u64, u64)>, i: int, prev: int, ans: int) -> bool {
    exists|s: int, e: int|
        #[trigger] stretch(jobs, i, s, e) && s <= jobs[i].0 < e && ans == if prev > e - s {
            prev
        } else {
            e - s
        }
}

/// What was printed before position `i`, `0` at the start.
pub open spec fn before(out: Seq<u64>, i: int) -> int {
    if i > 0 {
        out[i - 1] as int
    } else {
        0
    }
}

/// Taking job `k` adds exactly its days.
proof fn lemma_busy_step(js: Seq<(u64, u64)>, k: int, x: int)
    requires
        0 <= k < js.len(),
    ensures
        busy(js, k, x) <==> busy(js, k - 1, x) || js[k].0 <= x <= js[k].1,
{
    if busy(js, k, x) && !busy(js, k - 1, x) {
        let j = choose|j: int| 0 <= j <= k && js[j].0 <= x <= #[trigger] js[j].1;
        assert(j == k);
    }
    if busy(js, k - 1, x) {
        let j = choose|j: int| 0 <= j <= k - 1 && js[j].0 <= x <= #[trigger] js[j].1;
        assert(js[j].0 <= x <= js[j].1);
    }
    if js[k].0 <= x <= js[k].1 {
        assert(js[k].0 <= x <= js[k].1);
    }
}

/// In canonical form, an interval holds a whole run of covered points: the points just
/// outside it are not covered.
proof fn lemma_interval_is_stretch(js: Seq<(u64, u64)>, k: int, v: Seq<(u64, u64)>, p: int)
    requires
        canonical(v),
        0 <= p < v.len(),
        forall|x: u64| #[trigger] covers(v, x) <==> busy(js, k, x as int),
        forall|j: int| 0 <= j < js.len() ==> (#[trigger] js[j]).0 <= js[j].1 < u64::MAX,
        0 <= k < js.len(),
    ensures
        stretch(js, k, v[p].0 as int, v[p].1 as int),
{
    let (s, e) = v[p];
    assert forall|x: int| s <= x < e implies busy(js, k, x) by {
        assert(in_range(v[p].0, v[p].1, x as u64));
        assert(covers(v, x as u64));
    }
    assert(!busy(js, k, e as int)) by {
        if busy(js, k, e as int) {
            let j = choose|j: int| 0 <= j <= k && js[j].0 <= e <= #[trigger] js[j].1;
            assert(js[j].0 <= js[j].1 < u64::MAX);
            assert(covers(v, e));
            let q = choose|q: int| 0 <= q < v.len() && #[trigger] in_range(v[q].0, v[q].1, e);
            if q < p {
                assert(v[q].1 < v[p].0);
            } else if q > p {
                assert(v[p].1 < v[q].0);
            }
        }
    }
    assert(!busy(js, k, s - 1)) by {
        if busy(js, k, s - 1) {
            let j = choose|j: int| 0 <= j <= k && js[j].0 <= s - 1 <= #[trigger] js[j].1;
            assert(covers(v, (s - 1) as u64));
            let q = choose|q: int| 0 <= q < v.len() && #[trigger] in_range(v[q].0, v[q].1, (s - 1) as u64);
            if q < p {
                assert(v[q].1 < v[p].0);
            } else if q > p {
                assert(v[p].1 < v[q].0);
            }
        }
    }
}

/// After each job, the longest run of consecutive working days seen so far: the runs can
/// only grow, and the one holding the new job's first day is the only one that may have.
pub fn longest_streaks(jobs: &Vec<(u64, u64)>) -> (r: Vec<u64>)
    requires
        forall|j: int| 0 <= j < jobs@.len() ==> (#[trigger] jobs@[j]).0 <= jobs@[j].1 < u64::MAX,
    ensures
        r@.len() == jobs@.len(),
        forall|i: int| 0 <= i < jobs@.len() ==> streak_ok(jobs@, i, before(r@, i), #[trigger] r@[i] as int),
{
    let ghost js = jobs@;
    let mut days: Ranges<u64> = Ranges::new();
    let mut ans: u64 = 0;
    let mut out: Vec<u64> = Vec::new();
    proof {
        crate::ranges::lemma_order::<u64>();
    }
    for k in 0..jobs.len()
        invariant
            js == jobs@,
            lawful_order::<u64>(),
            days.wf(),
            forall|j: int| 0 <= j < js.len() ==> (#[trigger] js[j]).0 <= js[j].1 < u64::MAX,
            forall|x: u64| #[trigger] covers(days@, x) <==> busy(js, k - 1, x as int),
            out@.len() == k,
            k > 0 ==> ans == out@[k - 1],
            k == 0 ==> ans == 0,
            forall|i: int| 0 <= i < k ==> streak_ok(js, i, before(out@, i), #[trigger] out@[i] as int),
    {
        let (a, b) = jobs[k];
        days.insert(a..b + 1);
        proof {
            assert forall|x: u64| #[trigger] covers(days@, x) <==> busy(js, k as int, x as int) by {
                lemma_busy_step(js, k as int, x as int);
            }
            assert(in_range(a, (b + 1) as u64, a));
        }
        let (start, end) = days.covering(&a).unwrap();
        let (s, e) = (*start, *end);
        proof {
            let v = days@;
            let p = choose|p: int| 0 <= p < v.len() && #[trigger] v[p] == (s, e) && in_range(s, e, a);
            lemma_interval_is_stretch(js, k as int, v, p);
            assert(in_range(s, e, a));
            assert(s <= a < e);
        }
        let ghost old_out = out@;
        if ans < e - s {
            ans = e - s;
        }
        out.push(ans);
        proof {
            assert(stretch(js, k as int, s as int, e as int));
            assert(streak_ok(js, k as int, before(out@, k as int), out@[k as int] as int));
            assert forall|i: int| 0 <= i < k + 1 implies streak_ok(js, i, before(out@, i), #[trigger] out@[i] as int) by {
                if i < k {
                    assert(old_out[i] == out@[i]);
                    assert(before(old_out, i) == before(out@, i));
                }
            }
        }
    }
    out
}

} // verus!
