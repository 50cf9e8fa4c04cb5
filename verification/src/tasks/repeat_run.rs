use vstd::prelude::*;
use crate::kmp::{occurrences_from, KMP};

verus! {

/// The number of positions of `occ` up to `i` (inclusive) that follow one another at a
/// distance of exactly `step`, ending at `i`.
pub open spec fn chain_at(occ: Seq<usize>, step: int, i: int) -> int
    decreases i,
{
    if i <= 0 {
        1
    } else if occ[i] - occ[i - 1] == step {
        chain_at(occ, step, i - 1) + 1
    } else {
        1
    }
}

/// The longest chain among the first `k` positions, `0` for none.
pub open spec fn longest_chain(occ: Seq<usize>, step: int, k: int) -> int
    decreases k,
{
    if k <= 0 {
        0
    } else {
        let a = longest_chain(occ, step, k - 1);
        let b = chain_at(occ, step, k - 1);
        if a < b {
            b
        } else {
            a
        }
    }
}

proof fn lemma_chain_bound(occ: Seq<usize>, step: int, i: int)
    requires
        0 <= i,
    ensures
        1 <= chain_at(occ, step, i) <= i + 1,
    decreases i,
{
    if i > 0 {
        lemma_chain_bound(occ, step, i - 1);
    }
}

proof fn lemma_longest_bound(occ: Seq<usize>, step: int, k: int)
    requires
        0 <= k,
    ensures
        0 <= longest_chain(occ, step, k) <= k,
    decreases k,
{
    if k > 0 {
        lemma_longest_bound(occ, step, k - 1);
        lemma_chain_bound(occ, step, k - 1);
    }
}

/// The positions `occ[s..t]` follow one another at a distance of exactly `step`.
pub open spec fn spaced(occ: Seq<usize>, step: int, s: int, t: int) -> bool {
    forall|m: int| s < m < t ==> #[trigger] occ[m] - occ[m - 1] == step
}

/// The chain ending at `i` is a stretch of positions spaced `step` apart.
proof fn lemma_chain_spaced(occ: Seq<usize>, step: int, i: int)
    requires
        0 <= i,
    ensures
        spaced(occ, step, i + 1 - chain_at(occ, step, i), i + 1),
    decreases i,
{
    lemma_chain_bound(occ, step, i);
    if i > 0 && occ[i] - occ[i - 1] == step {
        lemma_chain_spaced(occ, step, i - 1);
    }
}

/// A stretch of positions spaced `step` apart is no longer than the chain ending where it ends.
proof fn lemma_spaced_chain(occ: Seq<usize>, step: int, s: int, t: int)
    requires
        0 <= s < t,
        spaced(occ, step, s, t),
    ensures
        chain_at(occ, step, t - 1) >= t - s,
    decreases t - s,
{
    lemma_chain_bound(occ, step, t - 1);
    if t - 1 > s {
        assert(occ[t - 1] - occ[t - 2] == step);
        lemma_spaced_chain(occ, step, s, t - 1);
    }
}

/// The longest chain among the first `k` is at least each chain ending among them, and is one
/// of them.
proof fn lemma_longest_is_max(occ: Seq<usize>, step: int, k: int)
    requires
        0 <= k,
    ensures
        forall|i: int| 0 <= i < k ==> longest_chain(occ, step, k) >= #[trigger] chain_at(occ, step, i),
        k > 0 ==> exists|i: int| 0 <= i < k && longest_chain(occ, step, k) == #[trigger] chain_at(occ, step, i),
    decreases k,
{
    if k > 0 {
        lemma_longest_is_max(occ, step, k - 1);
        if k - 1 > 0 {
            let i = choose|i: int| 0 <= i < k - 1 && longest_chain(occ, step, k - 1) == #[trigger] chain_at(occ, step, i);
            assert(longest_chain(occ, step, k) == chain_at(occ, step, i) || longest_chain(occ, step, k) == chain_at(
                occ,
                step,
                k - 1,
            ));
        } else {
            assert(longest_chain(occ, step, k - 1) == 0);
            lemma_chain_bound(occ, step, k - 1);
        }
    }
}

/// The longest chain among the first `k` positions is the length of the longest stretch of
/// them that follow one another at a distance of exactly `step`: some stretch that long
/// exists, and none is longer; `0` exactly when there are no positions.
pub proof fn lemma_longest_chain_exact(occ: Seq<usize>, step: int, k: int)
    requires
        0 <= k,
    ensures
        k == 0 ==> longest_chain(occ, step, k) == 0,
        k > 0 ==> 1 <= longest_chain(occ, step, k) && exists|s: int|
            0 <= s && s + longest_chain(occ, step, k) <= k && #[trigger] spaced(
                occ,
                step,
                s,
                s + longest_chain(occ, step, k),
            ),
        forall|s: int, t: int| 0 <= s < t <= k && #[trigger] spaced(occ, step, s, t) ==> t - s <= longest_chain(occ, step, k),
{
    lemma_longest_is_max(occ, step, k);
    if k > 0 {
        let i = choose|i: int| 0 <= i < k && longest_chain(occ, step, k) == #[trigger] chain_at(occ, step, i);
        lemma_chain_bound(occ, step, i);
        lemma_chain_spaced(occ, step, i);
        let s = i + 1 - chain_at(occ, step, i);
        assert(s + longest_chain(occ, step, k) == i + 1);
        assert(spaced(occ, step, s, s + longest_chain(occ, step, k)));
    }
    assert forall|s: int, t: int| 0 <= s < t <= k && #[trigger] spaced(occ, step, s, t) implies t - s <= longest_chain(occ, step, k) by {
        lemma_spaced_chain(occ, step, s, t);
        assert(chain_at(occ, step, t - 1) <= longest_chain(occ, step, k));
    }
}

/// The longest run of occurrences of `pattern` in `text` that follow one another with no gap
/// (each starting `pattern.len()` after the one before), `0` when it does not occur. For a
/// pattern whose letters are all different, occurrences cannot overlap, and this is the
/// largest `k` for which `pattern` repeated `k` times occurs in `text`.
pub fn longest_repeat(text: &[u8], pattern: &[u8]) -> (r: usize)
    ensures
        r == longest_chain(
            occurrences_from(text@, pattern@, 0),
            pattern@.len() as int,
            occurrences_from(text@, pattern@, 0).len() as int,
        ),
        ({
            let occ = occurrences_from(text@, pattern@, 0);
            &&& occ.len() == 0 ==> r == 0
            &&& occ.len() > 0 ==> r >= 1 && exists|s: int|
                0 <= s && s + r <= occ.len() && #[trigger] spaced(occ, pattern@.len() as int, s, s + r)
            &&& forall|s: int, t: int|
                0 <= s < t <= occ.len() && #[trigger] spaced(occ, pattern@.len() as int, s, t) ==> t - s <= r
        }),
{
    broadcast use vstd::laws_eq::group_laws_eq;

    let kmp = KMP::new(pattern);
    let occ = kmp.search(text).collect_all();
    let ghost o = occ@;
    let step = pattern.len();
    let mut ans: usize = 0;
    let mut run: usize = 0;
    let mut k: usize = 0;
    while k < occ.len()
        invariant
            o == occ@,
            step == pattern@.len(),
            k <= o.len(),
            ans == longest_chain(o, step as int, k as int),
            k > 0 ==> run == chain_at(o, step as int, k - 1),
        decreases o.len() - k,
    {
        proof {
            lemma_chain_bound(o, step as int, k as int);
            lemma_longest_bound(o, step as int, k as int);
        }
        if k > 0 && occ[k] >= occ[k - 1] && occ[k] - occ[k - 1] == step {
            run = run + 1;
        } else {
            run = 1;
        }
        if ans < run {
            ans = run;
        }
        k = k + 1;
    }
    proof {
        lemma_longest_chain_exact(o, step as int, o.len() as int);
    }
    ans
}

} // verus!
