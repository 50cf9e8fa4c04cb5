use vstd::prelude::*;

verus! {

/// Number of entries of `leaders` equal to `r`: the size of the component led by `r`.
pub open spec fn comp_size(leaders: Seq<usize>, r: usize) -> nat
    decreases leaders.len(),
{
    if leaders.len() == 0 {
        0
    } else {
        comp_size(leaders.drop_last(), r) + if leaders.last() == r {
            1nat
        } else {
            0nat
        }
    }
}

/// The leader sequence after the component led by `from` is attached to `to`.
pub open spec fn relabel(leaders: Seq<usize>, from: usize, to: usize) -> Seq<usize> {
    leaders.map_values(|l: usize| if l == from { to } else { l })
}

/// The leader sequence of `n` singleton components.
pub open spec fn singletons(n: nat) -> Seq<usize> {
    Seq::new(n, |i: int| i as usize)
}

/// A leader sequence is valid when every entry names a vertex that leads itself.
pub open spec fn valid_leaders(leaders: Seq<usize>) -> bool {
    forall|i: int|
        0 <= i < leaders.len() ==> {
            &&& (#[trigger] leaders[i]) < leaders.len()
            &&& leaders[leaders[i] as int] == leaders[i]
        }
}

/// Which vertex leads the merged component: the leader of the larger component,
/// the leader of `a`'s component when both have the same size.
pub open spec fn merged_leader(leaders: Seq<usize>, a: usize, b: usize) -> usize {
    let x = leaders[a as int];
    let y = leaders[b as int];
    if comp_size(leaders, x) < comp_size(leaders, y) {
        y
    } else {
        x
    }
}

/// The leader sequence after joining the components of `a` and `b`.
pub open spec fn merged(leaders: Seq<usize>, a: usize, b: usize) -> Seq<usize> {
    let x = leaders[a as int];
    let y = leaders[b as int];
    if x == y {
        leaders
    } else {
        let l = merged_leader(leaders, a, b);
        let other = if l == x {
            y
        } else {
            x
        };
        relabel(leaders, other, l)
    }
}

/// The vertices of the component led by `r`, in increasing order.
pub open spec fn members(leaders: Seq<usize>, r: usize) -> Seq<usize> {
    singletons(leaders.len()).filter(|i: usize| leaders[i as int] == r)
}

/// The components as lists of vertices, ordered by their leaders.
pub open spec fn groups_of(leaders: Seq<usize>) -> Seq<Seq<usize>> {
    Seq::new(leaders.len(), |r: int| members(leaders, r as usize)).filter(
        |g: Seq<usize>| g.len() > 0,
    )
}

/// Disjoint-set forest with path compression and union by size.
///
/// `parent_or_size[i]` holds the parent of `i` when `i` is not a leader, and minus the
/// size of its component when it is.
pub struct Dsu {
    n: usize,
    parent_or_size: Vec<isize>,
    /// The leader of each vertex.
    leaders: Ghost<Seq<usize>>,
    /// A height bound: strictly increasing from child to parent.
    rank: Ghost<Seq<nat>>,
}

impl View for Dsu {
    type V = Seq<usize>;

    closed spec fn view(&self) -> Seq<usize> {
        self.leaders@
    }
}

proof fn lemma_comp_size_bounds(s: Seq<usize>, r: usize)
    ensures
        comp_size(s, r) <= s.len(),
        forall|i: int| 0 <= i < s.len() && s[i] == r ==> comp_size(s, r) >= 1,
    decreases s.len(),
{
    if s.len() > 0 {
        lemma_comp_size_bounds(s.drop_last(), r);
        assert forall|i: int| 0 <= i < s.len() && s[i] == r implies comp_size(s, r) >= 1 by {
            if i < s.len() - 1 {
                assert(s.drop_last()[i] == s[i]);
            }
        }
    }
}

proof fn lemma_comp_size_pair(s: Seq<usize>, x: usize, y: usize)
    requires
        x != y,
    ensures
        comp_size(s, x) + comp_size(s, y) <= s.len(),
    decreases s.len(),
{
    if s.len() > 0 {
        lemma_comp_size_pair(s.drop_last(), x, y);
    }
}

proof fn lemma_comp_size_relabel(s: Seq<usize>, from: usize, to: usize, r: usize)
    requires
        from != to,
    ensures
        comp_size(relabel(s, from, to), r) == if r == to {
            comp_size(s, to) + comp_size(s, from)
        } else if r == from {
            0
        } else {
            comp_size(s, r)
        },
    decreases s.len(),
{
    if s.len() > 0 {
        lemma_comp_size_relabel(s.drop_last(), from, to, r);
        assert(relabel(s, from, to).drop_last() =~= relabel(s.drop_last(), from, to));
    }
}

impl Dsu {
    /// The internal invariant: the parent links form a forest whose roots are the leaders,
    /// each root records the size of its component, and ranks grow towards the roots.
    pub closed spec fn wf(&self) -> bool {
        let n = self.n as int;
        let ps = self.parent_or_size@;
        let ld = self.leaders@;
        let rk = self.rank@;
        &&& n <= isize::MAX
        &&& ps.len() == n
        &&& ld.len() == n
        &&& rk.len() == n
        &&& valid_leaders(ld)
        &&& forall|i: int| 0 <= i < n ==> ((#[trigger] ps[i] < 0) <==> ld[i] == i)
        &&& forall|i: int|
            0 <= i < n && #[trigger] ps[i] >= 0 ==> {
                &&& ps[i] < n
                &&& ld[ps[i] as int] == ld[i]
                &&& rk[i] < rk[ps[i] as int]
            }
        &&& forall|i: int|
            0 <= i < n && #[trigger] ps[i] < 0 ==> {
                &&& -ps[i] == comp_size(ld, i as usize)
                &&& rk[i] < comp_size(ld, i as usize)
            }
        &&& forall|i: int| 0 <= i < n ==> #[trigger] rk[i] <= rk[ld[i] as int]
    }

    /// A well-formed forest has a valid leader sequence.
    pub proof fn lemma_valid(&self)
        requires
            self.wf(),
        ensures
            valid_leaders(self@),
            self@.len() <= isize::MAX,
    {
    }

    proof fn lemma_rank_bound(&self, i: int)
        requires
            self.wf(),
            0 <= i < self.n,
        ensures
            self.rank@[i] < self.n,
            comp_size(self.leaders@, self.leaders@[i]) <= self.n,
    {
        let r = self.leaders@[i];
        assert(self.leaders@[r as int] == r);
        assert(self.parent_or_size@[r as int] < 0);
        lemma_comp_size_bounds(self.leaders@, r);
        assert(self.rank@[i] <= self.rank@[r as int]);
    }

    /// Creates `n` vertices and no edge.
    pub fn new(n: usize) -> (d: Self)
        requires
            n <= isize::MAX,
        ensures
            d.wf(),
            d@ == singletons(n as nat),
    {
        let mut parent_or_size: Vec<isize> = Vec::new();
        let mut i: usize = 0;
        while i < n
            invariant
                i <= n,
                parent_or_size@ == Seq::new(i as nat, |j: int| -1isize),
            decreases n - i,
        {
            parent_or_size.push(-1);
            i = i + 1;
        }
        let ghost ld = singletons(n as nat);
        proof {
            assert forall|j: usize| j < n implies #[trigger] comp_size(ld, j) == 1 by {
                lemma_singletons_size(n as nat, j);
            }
        }
        Dsu {
            n,
            parent_or_size,
            leaders: Ghost(ld),
            rank: Ghost(Seq::new(n as nat, |j: int| 0nat)),
        }
    }

    /// Number of vertices.
    pub fn len(&self) -> (r: usize)
        requires
            self.wf(),
        ensures
            r == self@.len(),
    {
        self.n
    }

    /// Whether there is no vertex at all.
    pub fn is_empty(&self) -> (r: bool)
        requires
            self.wf(),
        ensures
            r == (self@.len() == 0),
    {
        self.n == 0
    }

    /// The leader of the component of `a`. Compresses the path from `a` to it.
    pub fn leader(&mut self, a: usize) -> (r: usize)
        requires
            old(self).wf(),
            a < old(self)@.len(),
        ensures
            final(self).wf(),
            final(self)@ == old(self)@,
            r == old(self)@[a as int],
    {
        let ghost n = self.n as int;
        let mut root = a;
        while self.parent_or_size[root] >= 0
            invariant
                self.wf(),
                self.n == n,
                root < n,
                self.leaders@[root as int] == self.leaders@[a as int],
            decreases n - self.rank@[root as int],
        {
            proof {
                self.lemma_rank_bound(self.parent_or_size@[root as int] as int);
            }
            root = self.parent_or_size[root] as usize;
        }
        proof {
            self.lemma_rank_bound(root as int);
        }
        let ghost old_self = *self;
        let mut cur = a;
        while self.parent_or_size[cur] >= 0
            invariant
                self.wf(),
                self.n == n,
                self.leaders == old_self.leaders,
                self.rank == old_self.rank,
                cur < n,
                root < n,
                self.leaders@[cur as int] == root,
                self.leaders@[root as int] == root,
            decreases n - self.rank@[cur as int],
        {
            let next = self.parent_or_size[cur] as usize;
            proof {
                self.lemma_rank_bound(next as int);
                self.lemma_rank_bound(cur as int);
            }
            self.parent_or_size.set(cur, root as isize);
            proof {
                let ps = self.parent_or_size@;
                let ld = self.leaders@;
                assert forall|i: int| 0 <= i < n && #[trigger] ps[i] < 0 implies {
                    &&& -ps[i] == comp_size(ld, i as usize)
                    &&& self.rank@[i] < comp_size(ld, i as usize)
                } by {
                    assert(i != cur);
                }
            }
            cur = next;
        }
        root
    }

    /// Joins the components of `a` and `b` and returns the leader of the joined component.
    pub fn merge(&mut self, a: usize, b: usize) -> (r: usize)
        requires
            old(self).wf(),
            a < old(self)@.len(),
            b < old(self)@.len(),
        ensures
            final(self).wf(),
            final(self)@ == merged(old(self)@, a, b),
            r == merged_leader(old(self)@, a, b),
    {
        let ghost ld0 = self.leaders@;
        let mut x = self.leader(a);
        let mut y = self.leader(b);
        if x == y {
            return x;
        }
        proof {
            lemma_comp_size_pair(ld0, x, y);
            assert(self.parent_or_size@[x as int] < 0);
            assert(self.parent_or_size@[y as int] < 0);
        }
        if self.parent_or_size[x] > self.parent_or_size[y] {
            let t = x;
            x = y;
            y = t;
        }
        let ghost n = self.n as int;
        let ghost cx = comp_size(ld0, x);
        let ghost cy = comp_size(ld0, y);
        let ghost rk0 = self.rank@;
        let ghost new_ld = relabel(ld0, y, x);
        let ghost new_rank = rk0.update(
            x as int,
            if rk0[x as int] > rk0[y as int] + 1 {
                rk0[x as int]
            } else {
                rk0[y as int] + 1
            },
        );
        proof {
            lemma_comp_size_bounds(ld0, x);
            lemma_comp_size_bounds(ld0, y);
            assert(ld0[x as int] == x);
            assert(ld0[y as int] == y);
        }
        let sx = self.parent_or_size[x];
        let sy = self.parent_or_size[y];
        self.parent_or_size.set(x, sx + sy);
        self.parent_or_size.set(y, x as isize);
        self.leaders = Ghost(new_ld);
        self.rank = Ghost(new_rank);
        proof {
            let ps = self.parent_or_size@;
            assert forall|r: usize| #[trigger] comp_size(new_ld, r) == if r == x {
                cx + cy
            } else if r == y {
                0
            } else {
                comp_size(ld0, r)
            } by {
                lemma_comp_size_relabel(ld0, y, x, r);
            }
            assert(valid_leaders(new_ld));
            assert forall|i: int| 0 <= i < n implies ((#[trigger] ps[i] < 0) <==> new_ld[i]
                == i) by {
                if ld0[i] == y && i != y {
                    assert(ld0[i] != i);
                }
            }
            assert forall|i: int| 0 <= i < n && #[trigger] ps[i] >= 0 implies {
                &&& ps[i] < n
                &&& new_ld[ps[i] as int] == new_ld[i]
                &&& new_rank[i] < new_rank[ps[i] as int]
            } by {
                if i != y {
                    assert(ld0[i] != i);
                }
            }
            assert forall|i: int| 0 <= i < n && #[trigger] ps[i] < 0 implies {
                &&& -ps[i] == comp_size(new_ld, i as usize)
                &&& new_rank[i] < comp_size(new_ld, i as usize)
            } by {
                if i != x {
                    assert(ld0[i] == i);
                    assert(comp_size(new_ld, i as usize) == comp_size(ld0, i as usize));
                }
            }
            assert forall|i: int| 0 <= i < n implies #[trigger] new_rank[i] <= new_rank[new_ld[
                i] as int] by {
                assert(rk0[i] <= rk0[ld0[i] as int]);
            }
            if comp_size(ld0, ld0[a as int]) < comp_size(ld0, ld0[b as int]) {
                assert(x == ld0[b as int]);
            } else {
                assert(x == ld0[a as int]);
            }
        }
        x
    }

    /// Whether `a` and `b` are in the same component.
    pub fn same(&mut self, a: usize, b: usize) -> (r: bool)
        requires
            old(self).wf(),
            a < old(self)@.len(),
            b < old(self)@.len(),
        ensures
            final(self).wf(),
            final(self)@ == old(self)@,
            r == (old(self)@[a as int] == old(self)@[b as int]),
    {
        let x = self.leader(a);
        let y = self.leader(b);
        x == y
    }

    /// The size of the component of `a`.
    pub fn size(&mut self, a: usize) -> (r: usize)
        requires
            old(self).wf(),
            a < old(self)@.len(),
        ensures
            final(self).wf(),
            final(self)@ == old(self)@,
            r == comp_size(old(self)@, old(self)@[a as int]),
    {
        let l = self.leader(a);
        proof {
            assert(self.leaders@[l as int] == l);
            assert(self.parent_or_size@[l as int] < 0);
            self.lemma_rank_bound(l as int);
        }
        let s = self.parent_or_size[l];
        (-s) as usize
    }

    /// The components, each as the increasing list of its vertices, ordered by leader.
    pub fn groups(&mut self) -> (res: Vec<Vec<usize>>)
        requires
            old(self).wf(),
        ensures
            final(self).wf(),
            final(self)@ == old(self)@,
            res@.map_values(|g: Vec<usize>| g@) == groups_of(old(self)@),
    {
        let n = self.n;
        let ghost ld = self.leaders@;
        let mut leaders: Vec<usize> = Vec::new();
        let mut i: usize = 0;
        while i < n
            invariant
                self.wf(),
                self.n == n,
                self.leaders@ == ld,
                i <= n,
                leaders@ == ld.take(i as int),
            decreases n - i,
        {
            let l = self.leader(i);
            leaders.push(l);
            i = i + 1;
            proof {
                assert(leaders@ =~= ld.take(i as int));
            }
        }
        proof {
            assert(leaders@ =~= ld);
        }
        let mut groups: Vec<Vec<usize>> = Vec::new();
        let mut k: usize = 0;
        while k < n
            invariant
                k <= n,
                groups@.len() == k,
                forall|r: int| 0 <= r < k ==> (#[trigger] groups@[r])@ == Seq::<usize>::empty(),
            decreases n - k,
        {
            groups.push(Vec::new());
            k = k + 1;
        }
        let mut i: usize = 0;
        while i < n
            invariant
                self.wf(),
                self.n == n,
                ld == self.leaders@,
                leaders@ == ld,
                i <= n,
                groups@.len() == n,
                forall|r: int|
                    0 <= r < n ==> (#[trigger] groups@[r])@ == singletons(i as nat).filter(
                        |j: usize| ld[j as int] == r,
                    ),
            decreases n - i,
        {
            let l = leaders[i];
            proof {
                assert(ld[i as int] < n);
            }
            groups[l].push(i);
            proof {
                assert(singletons((i + 1) as nat).drop_last() =~= singletons(i as nat));
                assert forall|r: int| 0 <= r < n implies (#[trigger] groups@[r])@ == singletons(
                    (i + 1) as nat,
                ).filter(|j: usize| ld[j as int] == r) by {
                    reveal_with_fuel(Seq::filter, 1);
                }
            }
            i = i + 1;
        }
        let ghost all = Seq::new(n as nat, |r: int| members(ld, r as usize));
        proof {
            assert(singletons(n as nat) =~= singletons(ld.len()));
            assert(groups@.map_values(|g: Vec<usize>| g@) =~= all);
        }
        let mut res: Vec<Vec<usize>> = Vec::new();
        let mut k: usize = 0;
        for g in it: groups
            invariant
                n == all.len(),
                k == it.index(),
                it.seq().map_values(|g: Vec<usize>| g@) == all,
                res@.map_values(|g: Vec<usize>| g@) == all.take(k as int).filter(
                    |g: Seq<usize>| g.len() > 0,
                ),
        {
            proof {
                assert(all.take(k + 1).drop_last() =~= all.take(k as int));
                reveal_with_fuel(Seq::filter, 1);
                assert(g@ == all[k as int]);
            }
            if g.len() > 0 {
                res.push(g);
            }
            k = k + 1;
            proof {
                assert(res@.map_values(|g: Vec<usize>| g@) =~= all.take(k as int).filter(
                    |g: Seq<usize>| g.len() > 0,
                ));
            }
        }
        proof {
            assert(all.take(n as int) =~= all);
        }
        res
    }
}

proof fn lemma_singletons_size(n: nat, j: usize)
    requires
        j < n,
        n <= usize::MAX,
    ensures
        comp_size(singletons(n), j) == 1,
    decreases n,
{
    if n > 0 {
        assert(singletons(n).drop_last() =~= singletons((n - 1) as nat));
        assert(singletons(n).last() == (n - 1) as usize);
        if j < n - 1 {
            lemma_singletons_size((n - 1) as nat, j);
        } else {
            lemma_singletons_absent((n - 1) as nat, j);
        }
    }
}

proof fn lemma_singletons_absent(n: nat, j: usize)
    requires
        j >= n,
        n <= usize::MAX,
    ensures
        comp_size(singletons(n), j) == 0,
    decreases n,
{
    if n > 0 {
        assert(singletons(n).drop_last() =~= singletons((n - 1) as nat));
        assert(singletons(n).last() == (n - 1) as usize);
        lemma_singletons_absent((n - 1) as nat, j);
    }
}


/// Joining two components: afterwards `a` and `b` share a leader, and two vertices share a
/// leader exactly when they did before, or one was with `a` and the other with `b`.
pub proof fn lemma_merge_joins(s: Seq<usize>, a: usize, b: usize)
    requires
        valid_leaders(s),
        a < s.len(),
        b < s.len(),
    ensures
        valid_leaders(merged(s, a, b)),
        merged(s, a, b).len() == s.len(),
        merged(s, a, b)[a as int] == merged(s, a, b)[b as int],
        forall|i: int, j: int|
            0 <= i < s.len() && 0 <= j < s.len() ==> (merged(s, a, b)[i] == merged(s, a, b)[j]
                <==> (s[i] == s[j] || (s[i] == s[a as int] && s[j] == s[b as int]) || (s[i]
                == s[b as int] && s[j] == s[a as int]))),
{
}

/// The size of the joined component is the sum of the sizes of the two components joined.
pub proof fn lemma_merge_size(s: Seq<usize>, a: usize, b: usize)
    requires
        valid_leaders(s),
        a < s.len(),
        b < s.len(),
        s[a as int] != s[b as int],
    ensures
        comp_size(merged(s, a, b), merged(s, a, b)[a as int]) == comp_size(s, s[a as int])
            + comp_size(s, s[b as int]),
{
    let x = s[a as int];
    let y = s[b as int];
    let l = merged_leader(s, a, b);
    let other = if l == x {
        y
    } else {
        x
    };
    lemma_comp_size_relabel(s, other, l, l);
}

/// The sizes of all components add up to the number of vertices.
pub proof fn lemma_sizes_sum(s: Seq<usize>)
    requires
        valid_leaders(s),
        s.len() <= usize::MAX,
    ensures
        comp_size_sum(s, s.len() as int) == s.len(),
{
    lemma_comp_size_sum_prefix(s, s.len() as int);
    assert(s.take(s.len() as int) =~= s);
}

/// The sum of the component sizes of the leaders `0..k`.
pub open spec fn comp_size_sum(s: Seq<usize>, k: int) -> nat
    decreases k,
{
    if k <= 0 {
        0
    } else {
        comp_size_sum(s, k - 1) + comp_size(s, (k - 1) as usize)
    }
}

proof fn lemma_comp_size_sum_empty(u: Seq<usize>, k: int)
    requires
        u.len() == 0,
    ensures
        comp_size_sum(u, k) == 0,
    decreases k,
{
    if k > 0 {
        lemma_comp_size_sum_empty(u, k - 1);
    }
}

proof fn lemma_comp_size_sum_prefix(s: Seq<usize>, m: int)
    requires
        valid_leaders(s),
        s.len() <= usize::MAX,
        0 <= m <= s.len(),
    ensures
        comp_size_sum(s.take(m), s.len() as int) == m,
    decreases m,
{
    if m == 0 {
        lemma_comp_size_sum_empty(s.take(0), s.len() as int);
    } else {
        lemma_comp_size_sum_prefix(s, m - 1);
        let t = s.take(m);
        let u = s.take(m - 1);
        assert(t.drop_last() =~= u);
        assert(t.last() == s[m - 1]);
        lemma_comp_size_sum_push(u, t.last(), s.len() as int);
        assert(u.push(t.last()) =~= t);
    }
}

proof fn lemma_comp_size_sum_push(u: Seq<usize>, v: usize, k: int)
    requires
        0 <= v < k,
        k <= usize::MAX + 1,
    ensures
        comp_size_sum(u.push(v), k) == comp_size_sum(u, k) + 1,
    decreases k,
{
    assert(u.push(v).drop_last() =~= u);
    assert(comp_size(u.push(v), (k - 1) as usize) == comp_size(u, (k - 1) as usize) + if v == (k
        - 1) as usize {
        1nat
    } else {
        0nat
    });
    if k > 0 {
        if v < k - 1 {
            lemma_comp_size_sum_push(u, v, k - 1);
        } else {
            lemma_comp_size_sum_unchanged(u, v, k - 1);
        }
    }
}

proof fn lemma_comp_size_sum_unchanged(u: Seq<usize>, v: usize, k: int)
    requires
        k <= v,
    ensures
        comp_size_sum(u.push(v), k) == comp_size_sum(u, k),
    decreases k,
{
    assert(u.push(v).drop_last() =~= u);
    if k > 0 {
        assert(comp_size(u.push(v), (k - 1) as usize) == comp_size(u, (k - 1) as usize));
    }
    if k > 0 {
        lemma_comp_size_sum_unchanged(u, v, k - 1);
    }
}

/// A vertex is listed among the members of `r` exactly when `r` is its leader.
pub proof fn lemma_members_contains(s: Seq<usize>, r: usize, i: usize)
    requires
        i < s.len(),
        s.len() <= usize::MAX,
    ensures
        members(s, r).contains(i) <==> s[i as int] == r,
{
    broadcast use Seq::lemma_filter_contains_rev;
    let pred = |j: usize| s[j as int] == r;
    let all = singletons(s.len());
    assert(all[i as int] == i);
    if s[i as int] == r {
        all.lemma_filter_contains(pred, i as int);
    }
}

/// `groups` partitions the vertices: every group is the non-empty member list of some leader,
/// every vertex lies in the group of its leader, and no group is listed twice.
pub proof fn lemma_groups_partition(s: Seq<usize>)
    requires
        valid_leaders(s),
        s.len() <= usize::MAX,
    ensures
        forall|k: int|
            0 <= k < groups_of(s).len() ==> #[trigger] groups_of(s)[k].len() > 0 && exists|
                r: usize,
            | r < s.len() && groups_of(s)[k] == members(s, r),
        forall|i: usize| i < s.len() ==> groups_of(s).contains(#[trigger] members(s, s[i as int])),
        groups_of(s).no_duplicates(),
{
    broadcast use Seq::lemma_filter_contains_rev, Seq::lemma_filter_pred;

    let all = Seq::new(s.len(), |r: int| members(s, r as usize));
    let pred = |g: Seq<usize>| g.len() > 0;
    assert forall|k: int| 0 <= k < groups_of(s).len() implies #[trigger] groups_of(s)[k].len()
        > 0 && exists|r: usize| r < s.len() && groups_of(s)[k] == members(s, r) by {
        all.lemma_filter_pred(pred, k);
        assert(all.filter(pred).contains(all.filter(pred)[k]));
        let idx = choose|idx: int| 0 <= idx < all.len() && all[idx] == groups_of(s)[k];
        assert(groups_of(s)[k] == members(s, idx as usize));
    }
    assert forall|i: usize| i < s.len() implies groups_of(s).contains(
        #[trigger] members(s, s[i as int]),
    ) by {
        lemma_members_contains(s, s[i as int], i);
        assert(all[s[i as int] as int] == members(s, s[i as int]));
        all.lemma_filter_contains(pred, s[i as int] as int);
    }
    assert forall|p: int, q: int|
        0 <= p < q < all.len() && pred(all[p]) && pred(all[q]) implies all[p] != all[q] by {
        let g = all[p];
        let i = g[0];
        assert(g.contains(i));
        lemma_members_contains(s, p as usize, i);
        lemma_members_contains(s, q as usize, i);
    }
    lemma_filter_distinct(all, pred);
}

proof fn lemma_filter_distinct<A>(s: Seq<A>, pred: spec_fn(A) -> bool)
    requires
        forall|p: int, q: int| 0 <= p < q < s.len() && pred(s[p]) && pred(s[q]) ==> s[p] != s[q],
    ensures
        s.filter(pred).no_duplicates(),
    decreases s.len(),
{
    broadcast use Seq::lemma_filter_contains_rev;

    reveal_with_fuel(Seq::filter, 1);
    if s.len() > 0 {
        let t = s.drop_last();
        lemma_filter_distinct(t, pred);
        if pred(s.last()) {
            let f = t.filter(pred);
            assert forall|k: int| 0 <= k < f.len() implies f[k] != s.last() by {
                assert(f.contains(f[k]));
                t.lemma_filter_pred(pred, k);
                let idx = choose|idx: int| 0 <= idx < t.len() && t[idx] == f[k];
                assert(s[idx] == t[idx]);
            }
        }
    }
}

/// The leader sequence of `n` vertices after the merges `hist`, one after another.
pub open spec fn after_merges(n: nat, hist: Seq<(usize, usize)>) -> Seq<usize>
    decreases hist.len(),
{
    if hist.len() == 0 {
        singletons(n)
    } else {
        merged(after_merges(n, hist.drop_last()), hist.last().0, hist.last().1)
    }
}

/// Every merge of `hist` names two of the `n` vertices.
pub open spec fn merges_in_range(hist: Seq<(usize, usize)>, n: nat) -> bool {
    forall|j: int| 0 <= j < hist.len() ==> (#[trigger] hist[j]).0 < n && hist[j].1 < n
}

/// Some merge of `hist` names `u` and `v`, in either order.
pub open spec fn merge_pair(hist: Seq<(usize, usize)>, u: usize, v: usize) -> bool {
    exists|j: int| 0 <= j < hist.len() && (#[trigger] hist[j] == (u, v) || hist[j] == (v, u))
}

/// `p` walks from vertex to vertex along merges of `hist`.
pub open spec fn walk(hist: Seq<(usize, usize)>, p: Seq<usize>) -> bool {
    &&& p.len() >= 1
    &&& forall|i: int| 0 <= i < p.len() - 1 ==> merge_pair(hist, #[trigger] p[i], p[i + 1])
}

/// `a` and `b` are linked by a chain of merges of `hist`: the least equivalence that holds of
/// every merged pair.
pub open spec fn linked(hist: Seq<(usize, usize)>, a: usize, b: usize) -> bool {
    exists|p: Seq<usize>| walk(hist, p) && p[0] == a && #[trigger] p.last() == b
}

proof fn lemma_singletons_valid(n: nat)
    ensures
        valid_leaders(singletons(n)),
        singletons(n).len() == n,
{
}

proof fn lemma_after_merges_valid(n: nat, hist: Seq<(usize, usize)>)
    requires
        merges_in_range(hist, n),
    ensures
        valid_leaders(after_merges(n, hist)),
        after_merges(n, hist).len() == n,
    decreases hist.len(),
{
    lemma_singletons_valid(n);
    if hist.len() > 0 {
        let h = hist.drop_last();
        assert(merges_in_range(h, n)) by {
            assert forall|j: int| 0 <= j < h.len() implies (#[trigger] h[j]).0 < n && h[j].1 < n by {
                assert(h[j] == hist[j]);
            }
        }
        lemma_after_merges_valid(n, h);
        assert(hist[hist.len() - 1] == hist.last());
        lemma_merge_joins(after_merges(n, h), hist.last().0, hist.last().1);
    }
}

/// A walk along the merges of `hist` walks along those of a longer history too.
proof fn lemma_linked_grows(hist: Seq<(usize, usize)>, e: (usize, usize), a: usize, b: usize)
    requires
        linked(hist, a, b),
    ensures
        linked(hist.push(e), a, b),
{
    let p = choose|p: Seq<usize>| walk(hist, p) && p[0] == a && #[trigger] p.last() == b;
    let h2 = hist.push(e);
    assert forall|i: int| 0 <= i < p.len() - 1 implies merge_pair(h2, #[trigger] p[i], p[i + 1]) by {
        assert(merge_pair(hist, p[i], p[i + 1]));
        let j = choose|j: int| 0 <= j < hist.len() && (#[trigger] hist[j] == (p[i], p[i + 1]) || hist[j] == (
            p[i + 1],
            p[i],
        ));
        assert(h2[j] == hist[j]);
    }
    assert(walk(h2, p));
}

/// A walk to `x`, a merge of `x` and `y`, and a walk from `y` make a walk.
proof fn lemma_linked_join(hist: Seq<(usize, usize)>, a: usize, x: usize, y: usize, b: usize)
    requires
        linked(hist, a, x),
        merge_pair(hist, x, y),
        linked(hist, y, b),
    ensures
        linked(hist, a, b),
{
    let p = choose|p: Seq<usize>| walk(hist, p) && p[0] == a && #[trigger] p.last() == x;
    let q = choose|q: Seq<usize>| walk(hist, q) && q[0] == y && #[trigger] q.last() == b;
    let w = p + q;
    assert forall|i: int| 0 <= i < w.len() - 1 implies merge_pair(hist, #[trigger] w[i], w[i + 1]) by {
        if i < p.len() - 1 {
            assert(w[i] == p[i] && w[i + 1] == p[i + 1]);
        } else if i == p.len() - 1 {
            assert(w[i] == x && w[i + 1] == y);
        } else {
            let k = i - p.len();
            assert(w[i] == q[k] && w[i + 1] == q[k + 1]);
            assert(merge_pair(hist, q[k], q[k + 1]));
        }
    }
    assert(walk(hist, w));
    assert(w.last() == q.last());
}

/// Every vertex is linked to itself.
proof fn lemma_linked_self(hist: Seq<(usize, usize)>, a: usize)
    ensures
        linked(hist, a, a),
{
    let p = seq![a];
    assert(walk(hist, p));
    assert(p.last() == a);
}

/// After the merges, the two vertices of every merge share a leader.
proof fn lemma_pairs_joined(n: nat, hist: Seq<(usize, usize)>)
    requires
        merges_in_range(hist, n),
    ensures
        forall|j: int|
            0 <= j < hist.len() ==> after_merges(n, hist)[(#[trigger] hist[j]).0 as int] == after_merges(n, hist)[hist[j].1 as int],
    decreases hist.len(),
{
    if hist.len() > 0 {
        let h = hist.drop_last();
        assert(merges_in_range(h, n)) by {
            assert forall|j: int| 0 <= j < h.len() implies (#[trigger] h[j]).0 < n && h[j].1 < n by {
                assert(h[j] == hist[j]);
            }
        }
        lemma_pairs_joined(n, h);
        lemma_after_merges_valid(n, h);
        let l = after_merges(n, h);
        let e = hist.last();
        assert(hist[hist.len() - 1] == e);
        lemma_merge_joins(l, e.0, e.1);
        assert forall|j: int|
            0 <= j < hist.len() implies after_merges(n, hist)[(#[trigger] hist[j]).0 as int] == after_merges(n, hist)[hist[j].1 as int] by {
            if j < h.len() {
                assert(h[j] == hist[j]);
                assert(l[h[j].0 as int] == l[h[j].1 as int]);
            }
        }
    }
}

/// Along a walk, every vertex shares the leader of the first one.
proof fn lemma_walk_same_leader(n: nat, hist: Seq<(usize, usize)>, p: Seq<usize>, k: int)
    requires
        merges_in_range(hist, n),
        walk(hist, p),
        0 <= k < p.len(),
    ensures
        after_merges(n, hist)[p[0] as int] == after_merges(n, hist)[p[k] as int],
    decreases k,
{
    if k > 0 {
        lemma_walk_same_leader(n, hist, p, k - 1);
        lemma_pairs_joined(n, hist);
        assert(merge_pair(hist, p[k - 1], p[k]));
        let j = choose|j: int| 0 <= j < hist.len() && (#[trigger] hist[j] == (p[k - 1], p[k]) || hist[j] == (p[k], p[k - 1]));
        assert(after_merges(n, hist)[hist[j].0 as int] == after_merges(n, hist)[hist[j].1 as int]);
    }
}

/// Sharing a leader after the merges means being linked by them.
proof fn lemma_same_leader_linked(n: nat, hist: Seq<(usize, usize)>, a: usize, b: usize)
    requires
        merges_in_range(hist, n),
        a < n,
        b < n,
        after_merges(n, hist)[a as int] == after_merges(n, hist)[b as int],
    ensures
        linked(hist, a, b),
    decreases hist.len(),
{
    if hist.len() == 0 {
        assert(a == b);
        lemma_linked_self(hist, a);
    } else {
        let h = hist.drop_last();
        let e = hist.last();
        assert(hist[hist.len() - 1] == e);
        assert(hist =~= h.push(e));
        assert(merges_in_range(h, n)) by {
            assert forall|j: int| 0 <= j < h.len() implies (#[trigger] h[j]).0 < n && h[j].1 < n by {
                assert(h[j] == hist[j]);
            }
        }
        lemma_after_merges_valid(n, h);
        let l = after_merges(n, h);
        lemma_merge_joins(l, e.0, e.1);
        assert(merge_pair(hist, e.0, e.1));
        assert(merge_pair(hist, e.1, e.0));
        if l[a as int] == l[b as int] {
            lemma_same_leader_linked(n, h, a, b);
            lemma_linked_grows(h, e, a, b);
        } else if l[a as int] == l[e.0 as int] && l[b as int] == l[e.1 as int] {
            lemma_same_leader_linked(n, h, a, e.0);
            lemma_same_leader_linked(n, h, e.1, b);
            lemma_linked_grows(h, e, a, e.0);
            lemma_linked_grows(h, e, e.1, b);
            lemma_linked_join(hist, a, e.0, e.1, b);
        } else {
            lemma_same_leader_linked(n, h, a, e.1);
            lemma_same_leader_linked(n, h, e.0, b);
            lemma_linked_grows(h, e, a, e.1);
            lemma_linked_grows(h, e, e.0, b);
            lemma_linked_join(hist, a, e.1, e.0, b);
        }
    }
}

/// After a history of merges, started from `n` singletons, two vertices share a leader, and
/// so `same` answers `true` for them, exactly when a chain of the merged pairs links them:
/// `same` is the least equivalence that holds of every merged pair.
pub proof fn lemma_same_is_merge_closure(n: nat, hist: Seq<(usize, usize)>, a: usize, b: usize)
    requires
        merges_in_range(hist, n),
        a < n,
        b < n,
    ensures
        after_merges(n, hist)[a as int] == after_merges(n, hist)[b as int] <==> linked(hist, a, b),
{
    if linked(hist, a, b) {
        let p = choose|p: Seq<usize>| walk(hist, p) && p[0] == a && #[trigger] p.last() == b;
        lemma_walk_same_leader(n, hist, p, p.len() - 1);
    }
    if after_merges(n, hist)[a as int] == after_merges(n, hist)[b as int] {
        lemma_same_leader_linked(n, hist, a, b);
    }
}

} // verus!
