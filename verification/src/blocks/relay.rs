use vstd::prelude::*;

verus! {

/// The most runners a relay can have.
pub const MAX_N: usize = 18;

/// How the order of the runners changes over a stretch of the course: the runner who enters
/// `i`-th leaves `p[i]`-th (both counted from `0`). Entries at and past the actual number of
/// runners stay fixed, which does not change the composite of the real part.
#[derive(Clone, Copy)]
pub struct Perm(pub [u8; 18]);

impl Perm {
    /// Every entry names a place.
    pub open spec fn wf(&self) -> bool {
        forall|i: int| 0 <= i < 18 ==> #[trigger] self.0@[i] < 18
    }
}

/// `second` after `first`, as sequences of places.
pub open spec fn compose(first: Seq<u8>, second: Seq<u8>) -> Seq<u8> {
    Seq::new(18, |i: int| second[first[i] as int])
}

/// The identity: everyone leaves in the place they entered.
pub open spec fn identity() -> Seq<u8> {
    Seq::new(18, |i: int| i as u8)
}

impl Default for Perm {
    /// The identity, the unit of composition.
    fn default() -> (p: Self)
        ensures
            p.0@ == identity(),
            p.wf(),
    {
        let mut a: [u8; 18] = [0; 18];
        let mut i: usize = 0;
        while i < 18
            invariant
                i <= 18,
                a@.len() == 18,
                forall|j: int| 0 <= j < i ==> #[trigger] a@[j] == j as u8,
            decreases 18 - i,
        {
            a.set(i, i as u8);
            i = i + 1;
        }
        assert(a@ =~= identity());
        Perm(a)
    }
}

/// Running `first`'s stretch and then `second`'s: the runner entering `i`-th leaves `first`
/// `first[i]`-th, enters `second` in that place and leaves it `second[first[i]]`-th.
pub fn merger(first: Perm, second: Perm) -> (r: Perm)
    requires
        first.wf(),
        second.wf(),
    ensures
        r.wf(),
        r.0@ == compose(first.0@, second.0@),
{
    let mut a: [u8; 18] = [0; 18];
    let mut i: usize = 0;
    while i < 18
        invariant
            i <= 18,
            a@.len() == 18,
            first.wf(),
            second.wf(),
            forall|j: int| 0 <= j < i ==> #[trigger] a@[j] == second.0@[first.0@[j] as int],
        decreases 18 - i,
    {
        let k = first.0[i] as usize;
        a.set(i, second.0[k]);
        i = i + 1;
    }
    assert(a@ =~= compose(first.0@, second.0@));
    Perm(a)
}

/// The composite, in order, of `ps`.
pub open spec fn compose_all(ps: Seq<Perm>) -> Seq<u8>
    decreases ps.len(),
{
    if ps.len() == 0 {
        identity()
    } else {
        compose(compose_all(ps.drop_last()), ps.last().0@)
    }
}

/// The composite of the stretches of a block, in order.
pub fn cacher(block: &[Perm]) -> (r: Perm)
    requires
        forall|i: int| 0 <= i < block@.len() ==> (#[trigger] block@[i]).wf(),
    ensures
        r.wf(),
        r.0@ == compose_all(block@),
{
    let mut acc = Perm::default();
    let mut i: usize = 0;
    while i < block.len()
        invariant
            i <= block@.len(),
            forall|q: int| 0 <= q < block@.len() ==> (#[trigger] block@[q]).wf(),
            acc.wf(),
            acc.0@ == compose_all(block@.take(i as int)),
        decreases block@.len() - i,
    {
        proof {
            assert(block@.take(i + 1).drop_last() =~= block@.take(i as int));
        }
        acc = merger(acc, block[i]);
        i = i + 1;
    }
    proof {
        assert(block@.take(i as int) =~= block@);
    }
    acc
}

/// The composite of the stretches of a part of a block.
pub fn resolver(block: &[Perm], arg: &()) -> (r: Perm)
    requires
        forall|i: int| 0 <= i < block@.len() ==> (#[trigger] block@[i]).wf(),
    ensures
        r.wf(),
        r.0@ == compose_all(block@),
{
    let _ = arg;
    cacher(block)
}

/// The composite kept for a block.
pub fn cache_resolver(cache: &Perm, arg: &()) -> (r: Perm)
    ensures
        r == *cache,
{
    let _ = arg;
    *cache
}

/// Composition is associative, and the identity is its unit.
pub proof fn lemma_compose_laws(a: Seq<u8>, b: Seq<u8>, c: Seq<u8>)
    requires
        a.len() == 18,
        forall|i: int| 0 <= i < 18 ==> #[trigger] a[i] < 18,
        forall|i: int| 0 <= i < 18 ==> #[trigger] b[i] < 18,
        c.len() == 18,
    ensures
        compose(compose(a, b), c) == compose(a, compose(b, c)),
        compose(identity(), a) == a,
        compose(a, identity()) == a,
{
    assert(compose(compose(a, b), c) =~= compose(a, compose(b, c)));
    assert(compose(identity(), a) =~= a);
    assert(compose(a, identity()) =~= a);
}

} // verus!
