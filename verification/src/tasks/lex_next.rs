use vstd::prelude::*;
use crate::compress::{in_order, sort_by_key};

verus! {

/// The elements of `s` other than `t`, in order.
pub open spec fn without(s: Seq<usize>, t: usize) -> Seq<usize> {
    s.filter(|x: usize| x != t)
}

/// `[t, then the elements of s other than t in decreasing order]`.
///
/// Stepping this to the next permutation gives `[the smallest value of s above t, the rest
/// in increasing order]`: everything after the first position decreases, so the turn is at the
/// front and the element swapped in is the last one above `t`, the smallest such.
pub fn descending_from(s: &[usize], t: usize) -> (v: Vec<usize>)
    ensures
        v@.len() >= 1,
        v@[0] == t,
        forall|i: int, j: int| 1 <= i < j < v@.len() ==> v@[i] >= v@[j],
        v@.skip(1).to_multiset() == without(s@, t).to_multiset(),
{
    let mut rest: Vec<usize> = Vec::new();
    let mut i: usize = 0;
    proof {
        reveal(Seq::filter);
        assert(s@.take(0) =~= Seq::<usize>::empty());
    }
    while i < s.len()
        invariant
            i <= s@.len(),
            rest@ == without(s@.take(i as int), t),
        decreases s@.len() - i,
    {
        proof {
            reveal(Seq::filter);
            assert(s@.take(i + 1).drop_last() =~= s@.take(i as int));
        }
        if s[i] != t {
            rest.push(s[i]);
        }
        i = i + 1;
    }
    proof {
        assert(s@.take(i as int) =~= s@);
    }
    let sorted = sort_by_key(rest.as_slice());
    let mut v: Vec<usize> = Vec::new();
    v.push(t);
    let mut k = sorted.len();
    while k > 0
        invariant
            k <= sorted@.len(),
            in_order(sorted@),
            v@.len() == 1 + (sorted@.len() - k),
            v@[0] == t,
            forall|q: int| 1 <= q < v@.len() ==> #[trigger] v@[q] == sorted@[sorted@.len() - q],
        decreases k,
    {
        k = k - 1;
        v.push(sorted[k]);
    }
    proof {
        assert(v@.skip(1) =~= sorted@.reverse());
        sorted@.lemma_reverse_to_multiset();
        assert forall|i: int, j: int| 1 <= i < j < v@.len() implies v@[i] >= v@[j] by {
            assert(v@[i] == sorted@[sorted@.len() - i]);
            assert(v@[j] == sorted@[sorted@.len() - j]);
        }
    }
    v
}

} // verus!
