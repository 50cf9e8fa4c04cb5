use vstd::prelude::*;

verus! {

/// The largest element of `s`, or `0` when `s` is empty (every element is at least `0`, so
/// `0` is the unit of `max`).
pub open spec fn seq_max(s: Seq<u32>) -> u32
    decreases s.len(),
{
    if s.len() == 0 {
        0
    } else {
        let m = seq_max(s.drop_last());
        if s.last() > m {
            s.last()
        } else {
            m
        }
    }
}

/// The largest element of a block.
pub fn cacher(block: &[u32]) -> (r: u32)
    ensures
        r == seq_max(block@),
{
    resolver(block, &())
}

/// The largest element of a stretch, or `0` for an empty one.
pub fn resolver(block: &[u32], arg: &()) -> (r: u32)
    ensures
        r == seq_max(block@),
{
    let _ = arg;
    let mut m: u32 = 0;
    let mut i: usize = 0;
    while i < block.len()
        invariant
            i <= block@.len(),
            m == seq_max(block@.take(i as int)),
        decreases block@.len() - i,
    {
        proof {
            assert(block@.take(i + 1).drop_last() =~= block@.take(i as int));
        }
        if block[i] > m {
            m = block[i];
        }
        i = i + 1;
    }
    proof {
        assert(block@.take(i as int) =~= block@);
    }
    m
}

/// The answer kept for a block: its largest element.
pub fn cache_resolver(cache: &u32, arg: &()) -> (r: u32)
    ensures
        r == *cache,
{
    let _ = arg;
    *cache
}

/// The larger of two answers.
pub fn merger(a: u32, b: u32) -> (r: u32)
    ensures
        r == if a > b { a } else { b },
{
    if a > b {
        a
    } else {
        b
    }
}

/// The largest element of two stretches taken together is the larger of their largest.
pub proof fn lemma_max_concat(s: Seq<u32>, t: Seq<u32>)
    ensures
        seq_max(s + t) == (if seq_max(s) > seq_max(t) { seq_max(s) } else { seq_max(t) }),
    decreases t.len(),
{
    if t.len() > 0 {
        lemma_max_concat(s, t.drop_last());
        assert((s + t).drop_last() =~= s + t.drop_last());
    } else {
        assert(s + t =~= s);
    }
}

} // verus!
