use vstd::arithmetic::power2::*;
use vstd::arithmetic::div_mod::lemma_basic_div;
use vstd::bits::lemma_u64_shl_is_mul;
use vstd::multiset::Multiset;
use vstd::prelude::*;
use vstd::seq_lib::{lemma_multiset_commutative, to_multiset_build};

verus! {

/// The quadrant that a point falls in, before rotation: 0 is low-low, 1 high-low, 2 high-high,
/// 3 low-high, so that the four are visited in the order of a Hilbert curve.
pub open spec fn quadrant(low_x: bool, low_y: bool) -> nat {
    if low_x {
        if low_y {
            0
        } else {
            3
        }
    } else {
        if low_y {
            1
        } else {
            2
        }
    }
}

/// How the orientation turns on entering quadrant `seg`.
pub open spec fn turn(seg: nat) -> nat {
    if seg == 0 {
        3
    } else if seg == 3 {
        1
    } else {
        0
    }
}

/// `x` with the bit worth `h` cleared (`h` a power of two).
pub open spec fn clear_bit(x: nat, h: nat) -> nat {
    if (x / h) % 2 == 1 {
        (x - h) as nat
    } else {
        x
    }
}

/// The position of the point `(x, y)` along the Hilbert curve through the `2^pow` by `2^pow`
/// square, the curve turned by `rot` quarter turns. Each level clears the bit that picked the
/// quadrant; a coordinate at or beyond `2^pow` keeps its higher bits, counts as high at every
/// level, and still gets a position inside the square.
pub open spec fn hilbert(x: nat, y: nat, pow: nat, rot: nat) -> nat
    decreases pow,
{
    if pow == 0 {
        0
    } else {
        let h = pow2((pow - 1) as nat);
        let seg = ((quadrant(x < h, y < h) + rot) % 4) as nat;
        let sub = pow2((2 * pow - 2) as nat);
        let add = hilbert(clear_bit(x, h), clear_bit(y, h), (pow - 1) as nat, ((rot + turn(seg)) % 4) as nat);
        if seg == 1 || seg == 2 {
            seg * sub + add
        } else {
            (seg * sub + sub - add - 1) as nat
        }
    }
}

/// Every point, inside the square or not, lies on a position of the curve inside the square.
pub proof fn lemma_hilbert_bound(x: nat, y: nat, pow: nat, rot: nat)
    ensures
        hilbert(x, y, pow, rot) < pow2(2 * pow),
    decreases pow,
{
    lemma2_to64();
    if pow > 0 {
        let h = pow2((pow - 1) as nat);
        let sub = pow2((2 * pow - 2) as nat);
        let seg = ((quadrant(x < h, y < h) + rot) % 4) as nat;
        let nrot = ((rot + turn(seg)) % 4) as nat;
        lemma_hilbert_bound(clear_bit(x, h), clear_bit(y, h), (pow - 1) as nat, nrot);
        let add = hilbert(clear_bit(x, h), clear_bit(y, h), (pow - 1) as nat, nrot);
        assert(2 * (pow - 1) == 2 * pow - 2);
        assert(add < sub);
        lemma_pow2_adds((2 * pow - 2) as nat, 2);
        lemma2_to64();
        assert(pow2(2 * pow) == sub * 4);
        assert(seg * sub + sub <= 4 * sub) by (nonlinear_arith)
            requires
                seg <= 3,
        ;
    }
}

/// The position along the Hilbert curve of order `pow` (turned by `rotate` quarter turns) of
/// the point `(x, y)`.
fn hilbert_order(x: u64, y: u64, pow: u64, rotate: u64) -> (r: u64)
    requires
        pow <= 31,
        rotate < 4,
    ensures
        r == hilbert(x as nat, y as nat, pow as nat, rotate as nat),
    decreases pow,
{
    if pow == 0 {
        return 0;
    }
    proof {
        lemma_pow2_adds((pow - 1) as nat, (pow - 1) as nat);
        lemma_pow2_pos((pow - 1) as nat);
        lemma2_to64();
        lemma2_to64_rest();
        lemma_pow2_strictly_increases((pow - 1) as nat, 31);
        lemma_u64_shl_is_mul(1, (pow - 1) as u64);
    }
    let hpow: u64 = 1u64 << (pow - 1);
    let seg0: u64 = if x < hpow {
        if y < hpow {
            0
        } else {
            3
        }
    } else {
        if y < hpow {
            1
        } else {
            2
        }
    };
    let seg = (seg0 + rotate) % 4;
    proof {
        if x < hpow {
            lemma_basic_div(x as int, hpow as int);
        }
        if y < hpow {
            lemma_basic_div(y as int, hpow as int);
        }
    }
    // The bit worth `hpow` cleared, the higher bits kept.
    let nx = if (x / hpow) % 2 == 1 {
        x - hpow
    } else {
        x
    };
    let ny = if (y / hpow) % 2 == 1 {
        y - hpow
    } else {
        y
    };
    let step: u64 = if seg == 0 {
        3
    } else if seg == 3 {
        1
    } else {
        0
    };
    let nrot = (rotate + step) % 4;
    proof {
        assert(2 * (pow - 1) == 2 * pow - 2);
        lemma_pow2_adds((2 * pow - 2) as nat, 2);
        lemma_pow2_strictly_increases((2 * pow) as nat, 64);
        assert(hpow * hpow == pow2((2 * pow - 2) as nat));
        assert(pow2((2 * pow) as nat) == hpow * hpow * 4);
        assert(seg * (hpow * hpow) + hpow * hpow <= 4 * (hpow * hpow)) by (nonlinear_arith)
            requires
                seg < 4,
        ;
        lemma_hilbert_bound(nx as nat, ny as nat, (pow - 1) as nat, nrot as nat);
    }
    let sub_square_size = hpow * hpow;
    let ans = seg * sub_square_size;
    let add = hilbert_order(nx, ny, pow - 1, nrot);
    if seg == 1 || seg == 2 {
        ans + add
    } else {
        ans + sub_square_size - add - 1
    }
}

/// A query tagged with its curve position: `(key, l, r, index)`.
pub type Keyed = (u64, usize, usize, usize);

/// `a` comes no later than `b`: by key, and by index among equal keys.
pub open spec fn keyed_le(a: Keyed, b: Keyed) -> bool {
    a.0 < b.0 || (a.0 == b.0 && a.3 <= b.3)
}

/// Query `k` appears in `order`.
pub open spec fn listed(order: Seq<Keyed>, k: int) -> bool {
    exists|u: int| 0 <= u < order.len() && (#[trigger] order[u]).3 == k
}

/// `s` is in order by key, and by index among equal keys.
pub open spec fn keyed_sorted(s: Seq<Keyed>) -> bool {
    forall|i: int, j: int| 0 <= i < j < s.len() ==> keyed_le(#[trigger] s[i], #[trigger] s[j])
}

/// Merges two sorted runs into one sorted run of all their elements.
fn merge(a: Vec<Keyed>, b: Vec<Keyed>) -> (out: Vec<Keyed>)
    requires
        keyed_sorted(a@),
        keyed_sorted(b@),
    ensures
        keyed_sorted(out@),
        out@.to_multiset() == a@.to_multiset().add(b@.to_multiset()),
{
    broadcast use to_multiset_build, vstd::multiset::group_multiset_axioms, vstd::seq_lib::group_to_multiset_ensures;

    let mut out: Vec<Keyed> = Vec::new();
    let mut i: usize = 0;
    let mut j: usize = 0;
    proof {
        assert(a@.take(0) =~= Seq::<Keyed>::empty());
        assert(b@.take(0) =~= Seq::<Keyed>::empty());
        assert(out@.to_multiset() =~= a@.take(0).to_multiset().add(b@.take(0).to_multiset()));
    }
    while i < a.len() || j < b.len()
        invariant
            keyed_sorted(a@),
            keyed_sorted(b@),
            i <= a@.len(),
            j <= b@.len(),
            keyed_sorted(out@),
            out@.to_multiset() == a@.take(i as int).to_multiset().add(b@.take(j as int).to_multiset()),
            out@.len() == i + j,
            i < a@.len() ==> forall|k: int| 0 <= k < out@.len() ==> keyed_le(#[trigger] out@[k], a@[i as int]),
            j < b@.len() ==> forall|k: int| 0 <= k < out@.len() ==> keyed_le(#[trigger] out@[k], b@[j as int]),
        decreases a@.len() + b@.len() - i - j,
    {
        let take_a = if i < a.len() && j < b.len() {
            let x = a[i];
            let y = b[j];
            x.0 < y.0 || (x.0 == y.0 && x.3 <= y.3)
        } else {
            i < a.len()
        };
        if take_a {
            let x = a[i];
            let ghost before = out@;
            proof {
                assert(a@.take(i + 1) =~= a@.take(i as int).push(x));
                to_multiset_build(a@.take(i as int), x);
            }
            out.push(x);
            proof {
                assert(out@ =~= before.push(x));
                to_multiset_build(before, x);
                assert(out@.to_multiset() =~= before.to_multiset().insert(x));
                assert(out@.to_multiset() =~= a@.take(i + 1).to_multiset().add(b@.take(j as int).to_multiset()));
            }
            i = i + 1;
        } else {
            let y = b[j];
            let ghost before = out@;
            proof {
                assert(b@.take(j + 1) =~= b@.take(j as int).push(y));
                to_multiset_build(b@.take(j as int), y);
            }
            out.push(y);
            proof {
                assert(out@ =~= before.push(y));
                to_multiset_build(before, y);
                assert(out@.to_multiset() =~= before.to_multiset().insert(y));
                assert(out@.to_multiset() =~= a@.take(i as int).to_multiset().add(b@.take(j + 1).to_multiset()));
            }
            j = j + 1;
        }
    }
    proof {
        assert(a@.take(i as int) =~= a@);
        assert(b@.take(j as int) =~= b@);
    }
    out
}

/// Sorts by key, and by index among equal keys.
fn sort_keyed(v: Vec<Keyed>) -> (out: Vec<Keyed>)
    ensures
        keyed_sorted(out@),
        out@.to_multiset() == v@.to_multiset(),
    decreases v@.len(),
{
    if v.len() <= 1 {
        return v;
    }
    let ghost s = v@;
    let mid = v.len() / 2;
    let mut left = v;
    let right = left.split_off(mid);
    proof {
        assert(s =~= left@ + right@);
        lemma_multiset_commutative(left@, right@);
    }
    let l = sort_keyed(left);
    let r = sort_keyed(right);
    merge(l, r)
}

/// A problem answered by Mo's algorithm: a state that stands for a window `[l, r)` of
/// indices, which can grow or shrink by one index at either end and answer for the window.
pub trait MoSol {
    type Ans;

    /// The order of the curve that the windows are sorted along: best the least value with
    /// `2^MAX_INDEX_POW2` above every index handed to `Mo::push`. Larger indices are answered
    /// all the same, only visited in a worse order.
    const MAX_INDEX_POW2: usize;

    /// The state is sound and stands for the window `[start(), end())`. A state that does not
    /// say so is never taken as sound, and nothing is proved of the answers it gives.
    open spec fn inv(&self) -> bool {
        false
    }

    /// Where the window starts.
    open spec fn start(&self) -> int {
        0
    }

    /// Where the window ends.
    open spec fn end(&self) -> int {
        0
    }

    /// How far the window may reach: the length of the underlying sequence.
    open spec fn extent(&self) -> int {
        0
    }

    /// `ans` is a right answer for the window `[l, r)`.
    open spec fn answers(&self, l: int, r: int, ans: Self::Ans) -> bool {
        false
    }

    /// The window grows on the left to take in `l_idx`.
    fn add_l(&mut self, l_idx: usize)
        requires
            old(self).inv(),
            l_idx + 1 == old(self).start(),
        ensures
            final(self).inv(),
            final(self).start() == l_idx,
            final(self).end() == old(self).end(),
            final(self).extent() == old(self).extent(),
            forall|l: int, r: int, a: Self::Ans| #[trigger] final(self).answers(l, r, a) == old(self).answers(l, r, a),
    ;

    /// The window grows on the right to take in `r_idx`.
    fn add_r(&mut self, r_idx: usize)
        requires
            old(self).inv(),
            r_idx == old(self).end(),
            r_idx < old(self).extent(),
        ensures
            final(self).inv(),
            final(self).start() == old(self).start(),
            final(self).end() == r_idx + 1,
            final(self).extent() == old(self).extent(),
            forall|l: int, r: int, a: Self::Ans| #[trigger] final(self).answers(l, r, a) == old(self).answers(l, r, a),
    ;

    /// The window shrinks on the left, letting go of `l_idx`.
    fn del_l(&mut self, l_idx: usize)
        requires
            old(self).inv(),
            l_idx == old(self).start(),
            old(self).start() < old(self).end(),
        ensures
            final(self).inv(),
            final(self).start() == l_idx + 1,
            final(self).end() == old(self).end(),
            final(self).extent() == old(self).extent(),
            forall|l: int, r: int, a: Self::Ans| #[trigger] final(self).answers(l, r, a) == old(self).answers(l, r, a),
    ;

    /// The window shrinks on the right, letting go of `r_idx`.
    fn del_r(&mut self, r_idx: usize)
        requires
            old(self).inv(),
            r_idx + 1 == old(self).end(),
            old(self).start() < old(self).end(),
        ensures
            final(self).inv(),
            final(self).start() == old(self).start(),
            final(self).end() == r_idx,
            final(self).extent() == old(self).extent(),
            forall|l: int, r: int, a: Self::Ans| #[trigger] final(self).answers(l, r, a) == old(self).answers(l, r, a),
    ;

    /// The answer for the current window.
    fn solve(&mut self) -> (ans: Self::Ans)
        requires
            old(self).inv(),
        ensures
            final(self).inv(),
            final(self).start() == old(self).start(),
            final(self).end() == old(self).end(),
            final(self).extent() == old(self).extent(),
            forall|l: int, r: int, a: Self::Ans| #[trigger] final(self).answers(l, r, a) == old(self).answers(l, r, a),
            old(self).answers(old(self).start(), old(self).end(), ans),
    ;
}

/// Queries on windows `[l, r)`, answered offline in an order that keeps the total movement
/// of the window small.
#[derive(Debug, Clone)]
pub struct Mo {
    queries: Vec<(usize, usize, usize)>,
}

impl Mo {
    /// The windows asked for, in the order they were pushed.
    pub closed spec fn windows(&self) -> Seq<(usize, usize)> {
        self.queries@.map_values(|q: (usize, usize, usize)| (q.0, q.1))
    }

    /// Each query carries its own position.
    pub closed spec fn wf(&self) -> bool {
        forall|k: int| 0 <= k < self.queries@.len() ==> (#[trigger] self.queries@[k]).2 == k
    }

    /// No queries yet.
    pub fn new() -> (mo: Self)
        ensures
            mo.wf(),
            mo.windows().len() == 0,
    {
        Mo { queries: Vec::new() }
    }

    /// Asks for the window `[l, r)`.
    pub fn push(&mut self, l: usize, r: usize)
        requires
            old(self).wf(),
            old(self).windows().len() < usize::MAX,
        ensures
            final(self).wf(),
            final(self).windows() == old(self).windows().push((l, r)),
    {
        let k = self.queries.len();
        self.queries.push((l, r, k));
        proof {
            assert(self.windows() =~= old(self).windows().push((l, r)));
        }
    }

    /// The queries tagged with their curve positions, sorted by curve position (by order of
    /// pushing among equal positions).
    fn plan(&self, pow: usize) -> (out: Vec<Keyed>)
        requires
            self.wf(),
            pow <= 31,
        ensures
            keyed_sorted(out@),
            out@.len() == self.windows().len(),
            forall|k: int|
                0 <= k < out@.len() ==> {
                    let q = #[trigger] out@[k];
                    &&& q.3 < self.windows().len()
                    &&& (q.1, q.2) == self.windows()[q.3 as int]
                    &&& q.0 == hilbert(q.1 as nat, q.2 as nat, pow as nat, 0)
                },
            forall|k: int| 0 <= k < self.windows().len() ==> #[trigger] listed(out@, k),
    {
        broadcast use vstd::seq_lib::group_to_multiset_ensures;

        let n = self.queries.len();
        let mut keyed: Vec<Keyed> = Vec::new();
        for k in 0..n
            invariant
                self.wf(),
                n == self.queries@.len(),
                pow <= 31,
                keyed@.len() == k,
                forall|j: int|
                    0 <= j < k ==> {
                        let q = #[trigger] keyed@[j];
                        &&& q.3 == j
                        &&& (q.1, q.2) == self.windows()[j]
                        &&& q.0 == hilbert(q.1 as nat, q.2 as nat, pow as nat, 0)
                    },
        {
            let (l, r, _) = self.queries[k];
            assert(self.windows()[k as int] == (l, r));
            let key = hilbert_order(l as u64, r as u64, pow as u64, 0);
            keyed.push((key, l, r, k));
        }
        let out = sort_keyed(keyed);
        proof {
            assert(out@.len() == out@.to_multiset().len());
            assert(keyed@.len() == keyed@.to_multiset().len());
            assert forall|k: int| 0 <= k < out@.len() implies {
                let q = #[trigger] out@[k];
                &&& q.3 < self.windows().len()
                &&& (q.1, q.2) == self.windows()[q.3 as int]
                &&& q.0 == hilbert(q.1 as nat, q.2 as nat, pow as nat, 0)
            } by {
                let q = out@[k];
                assert(out@.contains(q));
                assert(out@.to_multiset().count(q) > 0);
                assert(keyed@.contains(q));
                let j = choose|j: int| 0 <= j < keyed@.len() && keyed@[j] == q;
                assert(keyed@[j] == q);
            }
            assert forall|k: int| 0 <= k < self.windows().len() implies #[trigger] listed(out@, k) by {
                let q = keyed@[k];
                assert(keyed@.contains(q));
                assert(keyed@.to_multiset().count(q) > 0);
                assert(out@.contains(q));
                let u = choose|u: int| 0 <= u < out@.len() && out@[u] == q;
                assert(out@[u].3 == k);
            }
        }
        out
    }

    /// Answers every query: the answer to the `i`-th pushed window is what `state.solve()`
    /// returned while the state stood for that window. The windows are visited in the order
    /// of their positions along a Hilbert curve, the state moving one index at a time; the
    /// state starts as the empty window at `0`.
    pub fn execute<S: MoSol>(self, state: &mut S) -> (ans: Vec<S::Ans>)
        where S::Ans: Default + Clone,
        requires
            self.wf(),
            old(state).inv(),
            old(state).start() == 0,
            old(state).end() == 0,
            S::MAX_INDEX_POW2 <= 31,
            forall|k: int|
                0 <= k < self.windows().len() ==> (#[trigger] self.windows()[k]).0 <= self.windows()[k].1
                    <= old(state).extent(),
        ensures
            ans@.len() == self.windows().len(),
            forall|k: int|
                0 <= k < self.windows().len() ==> old(state).answers(
                    self.windows()[k].0 as int,
                    self.windows()[k].1 as int,
                    #[trigger] ans@[k],
                ),
    {
        let order = self.plan(S::MAX_INDEX_POW2);
        let n = self.queries.len();
        let mut ans: Vec<S::Ans> = Vec::new();
        while ans.len() < n
            invariant
                ans@.len() <= n,
            decreases n - ans@.len(),
        {
            ans.push(S::Ans::default());
        }
        let mut nl: usize = 0;
        let mut nr: usize = 0;
        for t in 0..order.len()
            invariant
                n == self.windows().len(),
                order@.len() == n,
                ans@.len() == n,
                forall|k: int|
                    0 <= k < order@.len() ==> {
                        let q = #[trigger] order@[k];
                        &&& q.3 < self.windows().len()
                        &&& (q.1, q.2) == self.windows()[q.3 as int]
                    },
                forall|k: int|
                    0 <= k < self.windows().len() ==> (#[trigger] self.windows()[k]).0 <= self.windows()[k].1
                        <= old(state).extent(),
                forall|k: int| 0 <= k < self.windows().len() ==> #[trigger] listed(order@, k),
                state.inv(),
                state.start() == nl,
                state.end() == nr,
                state.extent() == old(state).extent(),
                forall|l: int, r: int, a: S::Ans| #[trigger] state.answers(l, r, a) == old(state).answers(l, r, a),
                forall|k: int|
                    0 <= k < n && (exists|u: int| 0 <= u < t && (#[trigger] order@[u]).3 == k) ==> old(state).answers(
                        self.windows()[k].0 as int,
                        self.windows()[k].1 as int,
                        #[trigger] ans@[k],
                    ),
        {
            let (_, l, r, i) = order[t];
            assert(order@[t as int].3 < n);
            assert(self.windows()[i as int] == (l, r));
            while nl > l
                invariant
                    state.inv(),
                    state.start() == nl,
                    state.end() == nr,
                    state.extent() == old(state).extent(),
                    forall|l2: int, r2: int, a: S::Ans| #[trigger] state.answers(l2, r2, a) == old(state).answers(l2, r2, a),
                decreases nl,
            {
                nl = nl - 1;
                state.add_l(nl);
            }
            while nr < r
                invariant
                    nl <= l,
                    r <= old(state).extent(),
                    state.inv(),
                    state.start() == nl,
                    state.end() == nr,
                    state.extent() == old(state).extent(),
                    forall|l2: int, r2: int, a: S::Ans| #[trigger] state.answers(l2, r2, a) == old(state).answers(l2, r2, a),
                decreases r - nr,
            {
                state.add_r(nr);
                nr = nr + 1;
            }
            while nl < l
                invariant
                    nl <= l,
                    l <= r,
                    nr >= r,
                    state.inv(),
                    state.start() == nl,
                    state.end() == nr,
                    state.extent() == old(state).extent(),
                    forall|l2: int, r2: int, a: S::Ans| #[trigger] state.answers(l2, r2, a) == old(state).answers(l2, r2, a),
                decreases l - nl,
            {
                state.del_l(nl);
                nl = nl + 1;
            }
            while nr > r
                invariant
                    nl == l,
                    l <= r,
                    nr >= r,
                    state.inv(),
                    state.start() == nl,
                    state.end() == nr,
                    state.extent() == old(state).extent(),
                    forall|l2: int, r2: int, a: S::Ans| #[trigger] state.answers(l2, r2, a) == old(state).answers(l2, r2, a),
                decreases nr,
            {
                nr = nr - 1;
                state.del_r(nr);
            }
            assert(nl == l && nr == r);
            let a = state.solve();
            let ghost before = ans@;
            ans.set(i, a);
            proof {
                assert forall|k: int|
                    0 <= k < n && (exists|u: int| 0 <= u < t + 1 && (#[trigger] order@[u]).3 == k) implies old(state).answers(
                        self.windows()[k].0 as int,
                        self.windows()[k].1 as int,
                        #[trigger] ans@[k],
                    ) by {
                    if k != i {
                        let u = choose|u: int| 0 <= u < t + 1 && (#[trigger] order@[u]).3 == k;
                        assert(u != t);
                        assert(before[k] == ans@[k]);
                    }
                }
            }
        }
        proof {
            assert forall|k: int| 0 <= k < n implies old(state).answers(
                self.windows()[k].0 as int,
                self.windows()[k].1 as int,
                #[trigger] ans@[k],
            ) by {
                assert(listed(order@, k));
                let u = choose|u: int| 0 <= u < order@.len() && (#[trigger] order@[u]).3 == k;
                assert(order@[u].3 == k);
            }
        }
        ans
    }
}

/// Answers the windows `windows` over a sequence of length `n` with Mo's algorithm, `state`
/// standing for the empty window at `0`. `None`, with `state` untouched, where a window is
/// reversed or reaches past `n`, or where `S::MAX_INDEX_POW2` is above `31`.
pub fn answer_windows<S: MoSol>(state: &mut S, n: usize, windows: &Vec<(usize, usize)>) -> (r: Option<Vec<S::Ans>>)
    where S::Ans: Default + Clone,
    requires
        old(state).inv(),
        old(state).start() == 0,
        old(state).end() == 0,
        old(state).extent() == n,
        windows@.len() < usize::MAX,
    ensures
        r is Some <==> S::MAX_INDEX_POW2 <= 31 && forall|k: int|
            0 <= k < windows@.len() ==> (#[trigger] windows@[k]).0 <= windows@[k].1 <= n,
        r is None ==> *final(state) == *old(state),
        r matches Some(ans) ==> {
            &&& ans@.len() == windows@.len()
            &&& forall|k: int|
                0 <= k < windows@.len() ==> old(state).answers(
                    windows@[k].0 as int,
                    windows@[k].1 as int,
                    #[trigger] ans@[k],
                )
        },
{
    if S::MAX_INDEX_POW2 > 31 {
        return None;
    }
    let mut mo = Mo::new();
    let mut k: usize = 0;
    while k < windows.len()
        invariant
            mo.wf(),
            k <= windows@.len() < usize::MAX,
            mo.windows() == windows@.take(k as int),
            forall|j: int| 0 <= j < k ==> (#[trigger] windows@[j]).0 <= windows@[j].1 <= n,
        decreases windows@.len() - k,
    {
        let (l, r) = windows[k];
        if !(l <= r && r <= n) {
            return None;
        }
        mo.push(l, r);
        proof {
            assert(windows@.take(k + 1) =~= windows@.take(k as int).push((l, r)));
        }
        k = k + 1;
    }
    proof {
        assert(windows@.take(k as int) =~= windows@);
    }
    Some(mo.execute(state))
}

impl Default for Mo {
    fn default() -> (mo: Self)
        ensures
            mo.wf(),
            mo.windows().len() == 0,
    {
        Mo::new()
    }
}

} // verus!
