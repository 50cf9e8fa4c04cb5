use vstd::prelude::*;
use crate::kmp::{occurrences_from, KMP};

verus! {

/// The number of occurrences, overlapping ones included, of each of the first `k` patterns
/// in `text`, summed.
pub open spec fn occurrence_sum(text: Seq<u8>, patterns: Seq<Vec<u8>>, k: int) -> int
    decreases k,
{
    if k <= 0 {
        0
    } else {
        occurrence_sum(text, patterns, k - 1) + occurrences_from(text, patterns[k - 1]@, 0).len()
    }
}

proof fn lemma_occurrence_sum_grows(text: Seq<u8>, patterns: Seq<Vec<u8>>, k: int, j: int)
    requires
        0 <= k <= j,
    ensures
        occurrence_sum(text, patterns, k) <= occurrence_sum(text, patterns, j),
    decreases j - k,
{
    if j > k {
        lemma_occurrence_sum_grows(text, patterns, k, j - 1);
    }
}

/// How many times the patterns occur in `text`, all together.
pub fn total_occurrences(text: &[u8], patterns: &Vec<Vec<u8>>) -> (r: usize)
    requires
        occurrence_sum(text@, patterns@, patterns@.len() as int) <= usize::MAX,
    ensures
        r == occurrence_sum(text@, patterns@, patterns@.len() as int),
{
    broadcast use vstd::laws_eq::group_laws_eq;

    let mut total: usize = 0;
    for k in 0..patterns.len()
        invariant
            occurrence_sum(text@, patterns@, patterns@.len() as int) <= usize::MAX,
            total == occurrence_sum(text@, patterns@, k as int),
    {
        let kmp = KMP::new(patterns[k].as_slice());
        let found = kmp.search(text).collect_all();
        proof {
            lemma_occurrence_sum_grows(text@, patterns@, k + 1, patterns@.len() as int);
        }
        total = total + found.len();
    }
    total
}

} // verus!
