use vstd::prelude::*;
use crate::rle::{as_nat_counts, rle, runs};

verus! {

/// One letter per run of `s`: what is left of a text once a letter equal to its neighbour is
/// dropped, for as long as there is one.
pub fn collapse_runs(s: Vec<u8>) -> (r: Vec<u8>)
    ensures
        r@ == runs(s@).map_values(|p: (u8, nat)| p.0),
{
    broadcast use vstd::laws_eq::group_laws_eq;

    let ghost s0 = s@;
    let rs = rle(s);
    let mut out: Vec<u8> = Vec::new();
    for k in 0..rs.len()
        invariant
            as_nat_counts(rs@) == runs(s0),
            out@.len() == k,
            forall|j: int| 0 <= j < k ==> #[trigger] out@[j] == rs@[j].0,
    {
        out.push(rs[k].0);
    }
    proof {
        assert(out@ =~= runs(s0).map_values(|p: (u8, nat)| p.0)) by {
            assert forall|j: int| 0 <= j < out@.len() implies out@[j] == runs(s0)[j].0 by {
                assert(as_nat_counts(rs@)[j] == runs(s0)[j]);
            }
        }
    }
    out
}

} // verus!
