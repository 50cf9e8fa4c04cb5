use vstd::prelude::*;
use crate::compress::{in_order, sort_by_key, SortKey};
use crate::permutation::{lemma_stepped_len, prev_permutation, stepped, turns};
use crate::ranges::{lawful_order, lemma_order, lt};

verus! {

/// `d` lists the digits of `x` from the largest down: the largest number they can form.
pub open spec fn largest_arrangement(d: Seq<u8>, x: Seq<u8>) -> bool {
    &&& forall|i: int, j: int| 0 <= i < j < d.len() ==> d[i] >= d[j]
    &&& d.to_multiset() == x.to_multiset()
}

/// The second largest number that the digits of `x` form, without a leading zero: the
/// arrangement just before the largest one in lexicographic order. `None` when every digit
/// is the same (there is no second arrangement) or that arrangement starts with `0`.
pub fn second_largest(x: &[u8]) -> (r: Option<Vec<u8>>)
    ensures
        exists|d: Seq<u8>|
            #[trigger] largest_arrangement(d, x@) && match r {
                Some(v) => (exists|k: int| 0 <= k < d.len() - 1 && #[trigger] lt(d[k + 1], d[k])) && v@ == stepped(d, false)
                    && v@[0] != 0x30,
                None => !(exists|k: int| 0 <= k < d.len() - 1 && #[trigger] lt(d[k + 1], d[k])) || stepped(d, false)[0]
                    == 0x30,
            },
{
    broadcast use vstd::seq_lib::group_to_multiset_ensures;

    let asc = sort_by_key(x);
    let n = asc.len();
    let mut d: Vec<u8> = Vec::new();
    let mut i: usize = 0;
    while i < n
        invariant
            n == asc@.len(),
            i <= n,
            d@ == asc@.reverse().take(i as int),
        decreases n - i,
    {
        d.push(asc[n - 1 - i]);
        i = i + 1;
        assert(d@ =~= asc@.reverse().take(i as int));
    }
    let ghost d0 = d@;
    proof {
        assert(d0 =~= asc@.reverse());
        asc@.lemma_reverse_to_multiset();
        assert forall|p: int, q: int| 0 <= p < q < d0.len() implies d0[p] >= d0[q] by {
            assert(in_order(asc@));
            assert(asc@[n - 1 - q].key() <= asc@[n - 1 - p].key());
        }
        assert(largest_arrangement(d0, x@));
        lemma_order::<u8>();
    }
    let stepped_back = prev_permutation(d.as_mut_slice());
    proof {
        if stepped_back {
            let k = choose|k: int| 0 <= k < d0.len() - 1 && #[trigger] lt(d0[k + 1], d0[k]);
            assert(turns(false, d0[k], d0[k + 1]));
            lemma_stepped_len(d0, false);
        }
    }
    if !stepped_back || d[0] == 0x30 {
        None
    } else {
        Some(d)
    }
}

} // verus!
