use vstd::prelude::*;
use crate::fibonacci::{fib, fib_prev};
use crate::tasks::fib_pairs::{coefficients, lemma_term_coefficients, term, terms, LIMIT};

verus! {

/// `v` is among the first `LIMIT` terms of the `(a, b)`-Fibonacci sequence.
pub open spec fn appears(a: int, b: int, v: int) -> bool {
    exists|k: int| 0 <= k < LIMIT && #[trigger] term(a, b, k as nat) == v
}

/// `(a, b)` with `a, b >= 1` makes a sequence whose first `LIMIT` terms hold `x`, `y` and `z`.
pub open spec fn holds_all(a: int, b: int, x: int, y: int, z: int) -> bool {
    &&& a >= 1
    &&& b >= 1
    &&& appears(a, b, x)
    &&& appears(a, b, y)
    &&& appears(a, b, z)
}

/// `p` comes no later than `q`: smaller first component, or the same and no larger second.
pub open spec fn pair_le(p: (int, int), q: (int, int)) -> bool {
    p.0 < q.0 || (p.0 == q.0 && p.1 <= q.1)
}

/// The cross determinant of the coefficient pairs of terms `i` and `j`.
pub open spec fn det(i: nat, j: nat) -> int {
    fib_prev(i) * fib(j) - fib_prev(j) * fib(i)
}

proof fn lemma_fib_grows(n: nat)
    ensures
        fib(n) <= fib(n + 1),
        n >= 1 ==> fib(n) >= 1,
    decreases n,
{
    if n >= 1 {
        lemma_fib_grows((n - 1) as nat);
    }
}

proof fn lemma_fib_monotone(m: nat, n: nat)
    requires
        m <= n,
    ensures
        fib(m) <= fib(n),
    decreases n - m,
{
    if m < n {
        lemma_fib_monotone(m, (n - 1) as nat);
        lemma_fib_grows((n - 1) as nat);
    }
}

/// Every coefficient among the first `LIMIT` terms is below `2^31`.
proof fn lemma_fib_small(n: nat)
    requires
        n < LIMIT,
    ensures
        fib(n) < 0x8000_0000,
        fib_prev(n) < 0x8000_0000,
{
    reveal_with_fuel(fib, 2);
    assert(fib(2) == 1);
    assert(fib(3) == 2);
    assert(fib(4) == 3);
    assert(fib(5) == 5);
    assert(fib(6) == 8);
    assert(fib(7) == 13);
    assert(fib(8) == 21);
    assert(fib(9) == 34);
    assert(fib(10) == 55);
    assert(fib(11) == 89);
    assert(fib(12) == 144);
    assert(fib(13) == 233);
    assert(fib(14) == 377);
    assert(fib(15) == 610);
    assert(fib(16) == 987);
    assert(fib(17) == 1597);
    assert(fib(18) == 2584);
    assert(fib(19) == 4181);
    assert(fib(20) == 6765);
    assert(fib(21) == 10946);
    assert(fib(22) == 17711);
    assert(fib(23) == 28657);
    assert(fib(24) == 46368);
    assert(fib(25) == 75025);
    assert(fib(26) == 121393);
    assert(fib(27) == 196418);
    assert(fib(28) == 317811);
    assert(fib(29) == 514229);
    assert(fib(30) == 832040);
    assert(fib(31) == 1346269);
    assert(fib(32) == 2178309);
    assert(fib(33) == 3524578);
    assert(fib(34) == 5702887);
    assert(fib(35) == 9227465);
    assert(fib(36) == 14930352);
    assert(fib(37) == 24157817);
    assert(fib(38) == 39088169);
    assert(fib(39) == 63245986);
    assert(fib(40) == 102334155);
    assert(fib(41) == 165580141);
    assert(fib(42) == 267914296);
    assert(fib(43) == 433494437);
    assert(fib(44) == 701408733);
    lemma_fib_monotone(n, 44);
    if n > 0 {
        lemma_fib_monotone((n - 1) as nat, 44);
    }
}

/// Neighbouring terms have determinant `±1`, alternating in sign.
proof fn lemma_det_neighbours(i: nat)
    ensures
        det(i, i + 1) == if i % 2 == 0 { 1int } else { -1int },
    decreases i,
{
    if i > 0 {
        lemma_det_neighbours((i - 1) as nat);
        let a = fib_prev((i - 1) as nat);
        let b = fib((i - 1) as nat);
        let c = fib_prev(i);
        let d = fib(i);
        assert(fib_prev(i + 1) == a + c);
        assert(fib(i + 1) == b + d);
        assert(c * (b + d) - (a + c) * d == -(a * d - c * b)) by (nonlinear_arith);
    } else {
        reveal_with_fuel(fib, 3);
    }
}

/// Terms `m` apart have determinant `±fib(m)`: never zero for different terms.
proof fn lemma_det_apart(i: nat, m: nat)
    ensures
        det(i, i + m) == det(i, i + 1) * fib(m),
    decreases m,
{
    if m >= 2 {
        lemma_det_apart(i, (m - 1) as nat);
        lemma_det_apart(i, (m - 2) as nat);
        let j = (i + m) as nat;
        let j1 = (i + m - 1) as nat;
        let j2 = (i + m - 2) as nat;
        let p = fib_prev(i);
        let q = fib(i);
        assert(fib_prev(j) == fib_prev(j1) + fib_prev(j2));
        assert(fib(j) == fib(j1) + fib(j2));
        assert(det(i, j) == det(i, j1) + det(i, j2)) by {
            assert(p * (fib(j1) + fib(j2)) - (fib_prev(j1) + fib_prev(j2)) * q == (p * fib(j1) - fib_prev(j1) * q) + (p
                * fib(j2) - fib_prev(j2) * q)) by (nonlinear_arith);
        }
        assert(j1 == i + (m - 1) as nat);
        assert(j2 == i + (m - 2) as nat);
        let g = det(i, i + 1);
        assert(g * fib((m - 1) as nat) + g * fib((m - 2) as nat) == g * fib(m)) by (nonlinear_arith)
            requires
                fib(m) == fib((m - 1) as nat) + fib((m - 2) as nat),
        ;
        assert(det(i, j1) == g * fib((m - 1) as nat));
        assert(det(i, j2) == g * fib((m - 2) as nat));
        assert(det(i, j) == g * fib(m));
        assert(j == i + m);
    } else if m == 0 {
        assert(det(i, i) == 0) by (nonlinear_arith);
        assert(det(i, i + 1) * fib(0) == 0) by (nonlinear_arith)
            requires
                fib(0) == 0,
        ;
    } else {
        assert(det(i, i + 1) * fib(1) == det(i, i + 1)) by (nonlinear_arith)
            requires
                fib(1) == 1,
        ;
    }
}

proof fn lemma_det_nonzero(i: nat, j: nat)
    requires
        i != j,
    ensures
        det(i, j) != 0,
    decreases if i < j { 0int } else { 1int },
{
    if i < j {
        let m = (j - i) as nat;
        lemma_det_apart(i, m);
        lemma_det_neighbours(i);
        lemma_fib_grows(m);
        assert(det(i, i + 1) * fib(m) != 0) by (nonlinear_arith)
            requires
                det(i, i + 1) == 1 || det(i, i + 1) == -1,
                fib(m) >= 1,
        ;
    } else {
        lemma_det_nonzero(j, i);
        assert(det(i, j) == -det(j, i)) by (nonlinear_arith);
    }
}

/// `c_i * a + d_i * b == u` and `c_j * a + d_j * b == w`.
pub open spec fn solves(ci: int, di: int, cj: int, dj: int, u: int, w: int, a: int, b: int) -> bool {
    ci * a + di * b == u && cj * a + dj * b == w
}

/// The pair `(a, b)` whose terms `c_i * a + d_i * b` and `c_j * a + d_j * b` are `u` and
/// `w`, when it is made of positive integers of at most 64 bits.
fn candidate(u: u128, w: u128, ci: i128, di: i128, cj: i128, dj: i128) -> (r: Option<(u128, u128)>)
    requires
        u <= u64::MAX,
        w <= u64::MAX,
        0 <= ci < 0x8000_0000,
        0 <= di < 0x8000_0000,
        0 <= cj < 0x8000_0000,
        0 <= dj < 0x8000_0000,
        ci * dj - cj * di != 0,
    ensures
        r matches Some((a, b)) ==> 1 <= a <= u64::MAX && 1 <= b <= u64::MAX && ci * a + di * b == u && cj * a
            + dj * b == w,
        forall|a: int, b: int|
            1 <= a <= u64::MAX && 1 <= b <= u64::MAX && #[trigger] solves(ci as int, di as int, cj as int, dj as int, u as int, w as int, a, b)
                ==> r == Some((a as u128, b as u128)),
{
    assert(0 <= u * dj <= 0x1_0000_0000_0000_0000 * 0x8000_0000) by (nonlinear_arith)
        requires
            0 <= u <= u64::MAX,
            0 <= dj < 0x8000_0000,
    ;
    assert(0 <= w * di <= 0x1_0000_0000_0000_0000 * 0x8000_0000) by (nonlinear_arith)
        requires
            0 <= w <= u64::MAX,
            0 <= di < 0x8000_0000,
    ;
    assert(0 <= w * ci <= 0x1_0000_0000_0000_0000 * 0x8000_0000) by (nonlinear_arith)
        requires
            0 <= w <= u64::MAX,
            0 <= ci < 0x8000_0000,
    ;
    assert(0 <= u * cj <= 0x1_0000_0000_0000_0000 * 0x8000_0000) by (nonlinear_arith)
        requires
            0 <= u <= u64::MAX,
            0 <= cj < 0x8000_0000,
    ;
    assert(0 <= ci * dj < 0x8000_0000 * 0x8000_0000) by (nonlinear_arith)
        requires
            0 <= ci < 0x8000_0000,
            0 <= dj < 0x8000_0000,
    ;
    assert(0 <= cj * di < 0x8000_0000 * 0x8000_0000) by (nonlinear_arith)
        requires
            0 <= cj < 0x8000_0000,
            0 <= di < 0x8000_0000,
    ;
    let ui = u as i128;
    let wi = w as i128;
    let mut d = ci * dj - cj * di;
    let mut na = ui * dj - wi * di;
    let mut nb = wi * ci - ui * cj;
    let ghost sign: int = if d < 0 { -1 } else { 1 };
    if d < 0 {
        d = -d;
        na = -na;
        nb = -nb;
    }
    let ghost dd = ci * dj - cj * di;
    proof {
        assert(d == sign * dd && na == sign * (u * dj - w * di) && nb == sign * (w * ci - u * cj));
        assert forall|a: int, b: int|
            #[trigger] solves(ci as int, di as int, cj as int, dj as int, u as int, w as int, a, b) implies na == a * d && nb == b * d by {
            assert(u * dj - w * di == a * dd) by (nonlinear_arith)
                requires
                    ci * a + di * b == u,
                    cj * a + dj * b == w,
                    dd == ci * dj - cj * di,
            ;
            assert(w * ci - u * cj == b * dd) by (nonlinear_arith)
                requires
                    ci * a + di * b == u,
                    cj * a + dj * b == w,
                    dd == ci * dj - cj * di,
            ;
            assert(sign * (a * dd) == a * (sign * dd) && sign * (b * dd) == b * (sign * dd)) by (nonlinear_arith);
        }
    }
    if na <= 0 || nb <= 0 {
        proof {
            assert forall|a: int, b: int|
                1 <= a && 1 <= b && #[trigger] solves(ci as int, di as int, cj as int, dj as int, u as int, w as int, a, b) implies false by {
                assert(na == a * d && nb == b * d);
                assert(a * d > 0 && b * d > 0) by (nonlinear_arith)
                    requires
                        a >= 1,
                        b >= 1,
                        d > 0,
                ;
            }
        }
        return None;
    }
    let nau = na as u128;
    let nbu = nb as u128;
    let du = d as u128;
    if nau % du != 0 || nbu % du != 0 {
        proof {
            assert forall|a: int, b: int|
                1 <= a && 1 <= b && #[trigger] solves(ci as int, di as int, cj as int, dj as int, u as int, w as int, a, b) implies false by {
                assert(na == a * d && nb == b * d);
                vstd::arithmetic::div_mod::lemma_mod_multiples_basic(a, d as int);
                vstd::arithmetic::div_mod::lemma_mod_multiples_basic(b, d as int);
                assert(a * d == d * a && b * d == d * b) by (nonlinear_arith);
            }
        }
        return None;
    }
    let a = nau / du;
    let b = nbu / du;
    proof {
        vstd::arithmetic::div_mod::lemma_fundamental_div_mod(nau as int, du as int);
        vstd::arithmetic::div_mod::lemma_fundamental_div_mod(nbu as int, du as int);
        assert(na == d * a && nb == d * b);
        assert forall|a2: int, b2: int|
            #[trigger] solves(ci as int, di as int, cj as int, dj as int, u as int, w as int, a2, b2) implies a2 == a && b2 == b by {
            assert(na == a2 * d && nb == b2 * d);
            assert(a2 == a && b2 == b) by (nonlinear_arith)
                requires
                    d * a == a2 * d,
                    d * b == b2 * d,
                    d > 0,
            ;
        }
    }
    if a > u64::MAX as u128 || b > u64::MAX as u128 {
        return None;
    }
    proof {
        assert(a >= 1 && b >= 1) by (nonlinear_arith)
            requires
                na == d * a,
                nb == d * b,
                na > 0,
                nb > 0,
                d > 0,
                a >= 0,
                b >= 0,
        ;
        assert(u * dj - w * di == dd * a && w * ci - u * cj == dd * b) by (nonlinear_arith)
            requires
                na == d * a,
                nb == d * b,
                d == sign * dd,
                na == sign * (u * dj - w * di),
                nb == sign * (w * ci - u * cj),
                sign == 1 || sign == -1,
        ;
        assert(ci * (dd * a) + di * (dd * b) == dd * (ci * a + di * b)) by (nonlinear_arith);
        assert(cj * (dd * a) + dj * (dd * b) == dd * (cj * a + dj * b)) by (nonlinear_arith);
        assert(ci * (u * dj - w * di) + di * (w * ci - u * cj) == dd * u) by (nonlinear_arith)
            requires
                dd == ci * dj - cj * di,
        ;
        assert(cj * (u * dj - w * di) + dj * (w * ci - u * cj) == dd * w) by (nonlinear_arith)
            requires
                dd == ci * dj - cj * di,
        ;
        assert(dd * (ci * a + di * b) == dd * u && dd * (cj * a + dj * b) == dd * w);
        assert(ci * a + di * b == u && cj * a + dj * b == w) by (nonlinear_arith)
            requires
                dd * (ci * a + di * b) == dd * u,
                dd * (cj * a + dj * b) == dd * w,
                dd != 0,
        ;
    }
    Some((a, b))
}


/// `coef` lists the coefficient pairs `(fib_prev(k), fib(k))` of the first `LIMIT` terms.
spec fn coef_ok(coef: Seq<(i128, i128)>) -> bool {
    &&& coef.len() == LIMIT
    &&& forall|k: int|
        0 <= k < LIMIT ==> (#[trigger] coef[k]).0 == fib_prev(k as nat) && coef[k].1 == fib(k as nat) && 0 <= coef[k].0
            < 0x8000_0000 && 0 <= coef[k].1 < 0x8000_0000
}

/// `best` is a pair that comes no later than `(a, b)`.
pub open spec fn at_most(best: Option<(u128, u128)>, a: int, b: int) -> bool {
    match best {
        Some(p) => pair_le((p.0 as int, p.1 as int), (a, b)),
        None => false,
    }
}

/// `best` is a value no larger than `b`.
spec fn value_at_most(best: Option<u128>, b: int) -> bool {
    match best {
        Some(x) => x <= b,
        None => false,
    }
}

/// `u` is term `i` and `w` is term `j` of the `(a, b)` sequence.
pub open spec fn witnessed(a: int, b: int, u: int, w: int, i: int, j: int) -> bool {
    term(a, b, i as nat) == u && term(a, b, j as nat) == w
}

/// Terms past the first are at least `b`, terms other than the second at least `a`.
proof fn lemma_term_at_least(a: int, b: int, k: nat)
    requires
        a >= 1,
        b >= 1,
    ensures
        k >= 1 ==> term(a, b, k) >= b,
        k != 1 ==> term(a, b, k) >= a,
        term(a, b, k) >= 1,
{
    lemma_term_coefficients(a, b, k);
    lemma_fib_grows(k);
    if k >= 2 {
        lemma_fib_grows((k - 1) as nat);
    }
    let p = fib_prev(k);
    let q = fib(k);
    assert(p * a + q * b >= 0 + 0) by (nonlinear_arith)
        requires
            a >= 1,
            b >= 1,
            p >= 0,
            q >= 0,
    ;
    if k >= 1 {
        assert(p * a + q * b >= b) by (nonlinear_arith)
            requires
                a >= 1,
                b >= 1,
                p >= 0,
                q >= 1,
        ;
    }
    if k != 1 {
        assert(p >= 1);
        assert(p * a + q * b >= a) by (nonlinear_arith)
            requires
                a >= 1,
                b >= 1,
                p >= 1,
                q >= 0,
        ;
    }
}

/// Whether `v` is among the entries of `t`.
fn among(t: &Vec<u128>, v: u64) -> (r: bool)
    ensures
        r == exists|k: int| 0 <= k < t@.len() && t@[k] == v,
{
    let mut k: usize = 0;
    while k < t.len()
        invariant
            k <= t@.len(),
            forall|q: int| 0 <= q < k ==> t@[q] != v,
        decreases t@.len() - k,
    {
        if t[k] == v as u128 {
            return true;
        }
        k = k + 1;
    }
    false
}

/// Whether the first `LIMIT` terms of the `(a, b)` sequence hold `x`, `y` and `z`.
fn holds_values(a: u128, b: u128, x: u64, y: u64, z: u64) -> (r: bool)
    requires
        1 <= a <= u64::MAX,
        1 <= b <= u64::MAX,
    ensures
        r == holds_all(a as int, b as int, x as int, y as int, z as int),
{
    let t = terms(a, b);
    let r = among(&t, x) && among(&t, y) && among(&t, z);
    proof {
        assert(r == holds_all(a as int, b as int, x as int, y as int, z as int)) by {
            if r {
                let kx = choose|k: int| 0 <= k < t@.len() && t@[k] == x;
                let ky = choose|k: int| 0 <= k < t@.len() && t@[k] == y;
                let kz = choose|k: int| 0 <= k < t@.len() && t@[k] == z;
                assert(term(a as int, b as int, kx as nat) == x);
                assert(term(a as int, b as int, ky as nat) == y);
                assert(term(a as int, b as int, kz as nat) == z);
            }
            if holds_all(a as int, b as int, x as int, y as int, z as int) {
                let kx = choose|k: int| 0 <= k < LIMIT && #[trigger] term(a as int, b as int, k as nat) == x;
                let ky = choose|k: int| 0 <= k < LIMIT && #[trigger] term(a as int, b as int, k as nat) == y;
                let kz = choose|k: int| 0 <= k < LIMIT && #[trigger] term(a as int, b as int, k as nat) == z;
                assert(t@[kx] == x && t@[ky] == y && t@[kz] == z);
            }
        }
    }
    r
}

/// The smallest pair `(A, B)` of positive integers, by `A` and then by `B`, whose
/// Fibonacci-like sequence `A, B, A + B, ...` holds `x`, `y` and `z` among its first `LIMIT`
/// terms; `None` when there is none.
///
/// With two different values `u` and `w` among them, at terms `i != j`, the pair solves
/// `c_i * A + d_i * B == u` and `c_j * A + d_j * B == w`, whose determinant is `±fib(|i - j|)`,
/// never zero: each choice of `(i, j)` gives at most one pair to check. With a single value
/// `v`, `A == 1` always works (`(1, v)` has `v` as its second term) and the smallest `B`
/// solves `c_k + d_k * B == v` for some `k`.
pub fn smallest_pair(x: u64, y: u64, z: u64) -> (r: Option<(u128, u128)>)
    ensures
        match r {
            Some((a, b)) => holds_all(a as int, b as int, x as int, y as int, z as int) && forall|a2: int, b2: int|
                #[trigger] holds_all(a2, b2, x as int, y as int, z as int) ==> pair_le((a as int, b as int), (a2, b2)),
            None => forall|a2: int, b2: int| !#[trigger] holds_all(a2, b2, x as int, y as int, z as int),
        },
{
    let coef = coefficients();
    proof {
        assert forall|k: int| 0 <= k < LIMIT implies #[trigger] coef@[k].0 == fib_prev(k as nat) && coef@[k].1 == fib(
            k as nat,
        ) && 0 <= coef@[k].0 < 0x8000_0000 && 0 <= coef@[k].1 < 0x8000_0000 by {
            lemma_fib_small(k as nat);
        }
    }
    if x == y && y == z {
        return single_value(x, &coef);
    }
    let (u, w) = if x != y {
        (x, y)
    } else {
        (x, z)
    };
    let mut best: Option<(u128, u128)> = None;
    for i in 0..LIMIT
        invariant
            u != w,
            (u == x || u == y || u == z) && (w == x || w == y || w == z),
            coef_ok(coef@),
            best matches Some((a, b)) ==> holds_all(a as int, b as int, x as int, y as int, z as int),
            forall|a2: int, b2: int, i2: int, j2: int|
                0 <= i2 < i && 0 <= j2 < LIMIT && i2 != j2 && holds_all(a2, b2, x as int, y as int, z as int)
                    && #[trigger] witnessed(a2, b2, u as int, w as int, i2, j2) ==> at_most(best, a2, b2),
    {
        for j in 0..LIMIT
            invariant
                u != w,
                (u == x || u == y || u == z) && (w == x || w == y || w == z),
                i < LIMIT,
                coef_ok(coef@),
                best matches Some((a, b)) ==> holds_all(a as int, b as int, x as int, y as int, z as int),
                forall|a2: int, b2: int, i2: int, j2: int|
                    0 <= j2 < LIMIT && i2 != j2 && (i2 < i || (i2 == i && j2 < j)) && 0 <= i2 && holds_all(
                        a2,
                        b2,
                        x as int,
                        y as int,
                        z as int,
                    ) && #[trigger] witnessed(a2, b2, u as int, w as int, i2, j2) ==> at_most(best, a2, b2),
        {
            if i != j {
                let (ci, di) = coef[i];
                let (cj, dj) = coef[j];
                proof {
                    lemma_det_nonzero(i as nat, j as nat);
                }
                let cand = candidate(u as u128, w as u128, ci, di, cj, dj);
                let ghost old_best = best;
                if let Some((a, b)) = cand {
                    if holds_values(a, b, x, y, z) {
                        let better = match best {
                            None => true,
                            Some((ba, bb)) => a < ba || (a == ba && b < bb),
                        };
                        if better {
                            best = Some((a, b));
                        }
                    }
                }
                proof {
                    assert forall|a2: int, b2: int, i2: int, j2: int|
                        0 <= j2 < LIMIT && i2 != j2 && (i2 < i || (i2 == i && j2 < j + 1)) && 0 <= i2 && holds_all(
                            a2,
                            b2,
                            x as int,
                            y as int,
                            z as int,
                        ) && #[trigger] witnessed(a2, b2, u as int, w as int, i2, j2) implies at_most(best, a2, b2) by {
                        if i2 == i && j2 == j {
                            lemma_term_coefficients(a2, b2, i as nat);
                            lemma_term_coefficients(a2, b2, j as nat);
                            lemma_term_at_least(a2, b2, i as nat);
                            lemma_term_at_least(a2, b2, j as nat);
                            assert(solves(ci as int, di as int, cj as int, dj as int, u as int, w as int, a2, b2));
                            assert(a2 <= u64::MAX && b2 <= u64::MAX);
                            assert(cand == Some((a2 as u128, b2 as u128)));
                        } else {
                            assert(at_most(old_best, a2, b2));
                        }
                    }
                }
            }
        }
    }
    proof {
        assert forall|a2: int, b2: int| #[trigger] holds_all(a2, b2, x as int, y as int, z as int) implies at_most(best, a2, b2) by {
            let i2 = choose|k: int| 0 <= k < LIMIT && #[trigger] term(a2, b2, k as nat) == u;
            let j2 = choose|k: int| 0 <= k < LIMIT && #[trigger] term(a2, b2, k as nat) == w;
            assert(witnessed(a2, b2, u as int, w as int, i2, j2));
        }
    }
    best
}

/// The answer when `x`, `y` and `z` are all `v`: `(1, B)` with the smallest `B >= 1` such that
/// `c_k + d_k * B == v` for some `k`.
fn single_value(v: u64, coef: &Vec<(i128, i128)>) -> (r: Option<(u128, u128)>)
    requires
        coef_ok(coef@),
    ensures
        match r {
            Some((a, b)) => holds_all(a as int, b as int, v as int, v as int, v as int) && forall|a2: int, b2: int|
                #[trigger] holds_all(a2, b2, v as int, v as int, v as int) ==> pair_le((a as int, b as int), (a2, b2)),
            None => forall|a2: int, b2: int| !#[trigger] holds_all(a2, b2, v as int, v as int, v as int),
        },
{
    let vi = v as i128;
    let mut best: Option<u128> = None;
    for k in 0..LIMIT
        invariant
            vi == v,
            coef_ok(coef@),
            best matches Some(b) ==> b >= 1 && appears(1, b as int, v as int),
            forall|q: int, b2: int|
                0 <= q < k && b2 >= 1 && coef@[q].1 > 0 && #[trigger] term(1, b2, q as nat) == v ==> value_at_most(best, b2),
    {
        let (c, d) = coef[k];
        if d > 0 && vi > c {
            let diff = (vi - c) as u128;
            let du = d as u128;
            if diff % du == 0 {
                let cand = diff / du;
                proof {
                    vstd::arithmetic::div_mod::lemma_fundamental_div_mod(diff as int, du as int);
                    assert(cand >= 1) by (nonlinear_arith)
                        requires
                            diff == du * cand + 0,
                            diff > 0,
                            cand >= 0,
                    ;
                    lemma_term_coefficients(1, cand as int, k as nat);
                    assert(fib_prev(k as nat) * 1 + fib(k as nat) * cand == c + d * cand) by (nonlinear_arith)
                        requires
                            fib_prev(k as nat) == c,
                            fib(k as nat) == d,
                    ;
                    assert(term(1, cand as int, k as nat) == v);
                }
                let better = match best {
                    None => true,
                    Some(b) => cand < b,
                };
                if better {
                    best = Some(cand);
                }
            }
        }
        proof {
            assert forall|q: int, b2: int|
                0 <= q < k + 1 && b2 >= 1 && coef@[q].1 > 0 && #[trigger] term(1, b2, q as nat) == v implies value_at_most(best, b2) by {
                if q == k {
                    lemma_term_coefficients(1, b2, k as nat);
                    assert(c + d * b2 == v) by (nonlinear_arith)
                        requires
                            fib_prev(k as nat) * 1 + fib(k as nat) * b2 == v,
                            fib_prev(k as nat) == c,
                            fib(k as nat) == d,
                    ;
                    assert(v - c == d * b2 && d * b2 >= d) by (nonlinear_arith)
                        requires
                            c + d * b2 == v,
                            b2 >= 1,
                            d > 0,
                    ;
                    let diff = (vi - c) as u128;
                    vstd::arithmetic::div_mod::lemma_mod_multiples_basic(b2, d as int);
                    vstd::arithmetic::div_mod::lemma_div_multiples_vanish(b2, d as int);
                    assert(d * b2 == b2 * d) by (nonlinear_arith);
                }
            }
        }
    }
    let r = match best {
        Some(b) => Some((1u128, b)),
        None => None,
    };
    proof {
        lemma_term_coefficients(1, v as int, 1);
        if v >= 1 {
            assert(term(1, v as int, 1) == v);
            assert(coef@[1].1 == fib(1));
            assert(fib(1) == 1);
        }
        assert forall|a2: int, b2: int| #[trigger] holds_all(a2, b2, v as int, v as int, v as int) implies at_most(r, a2, b2) by {
            let q = choose|k: int| 0 <= k < LIMIT && #[trigger] term(a2, b2, k as nat) == v;
            lemma_term_at_least(a2, b2, q as nat);
            assert(term(1, v as int, 1) == v);
            if a2 == 1 {
                if q == 0 {
                    assert(v == 1);
                    assert(value_at_most(best, 1));
                } else {
                    lemma_fib_grows(q as nat);
                }
            }
        }
    }
    r
}

} // verus!
