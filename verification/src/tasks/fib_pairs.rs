use vstd::prelude::*;
use crate::fibonacci::{fib, fib_prev, Fibonacci};

verus! {

/// How many terms are worth looking at: with `A, B >= 1` the `k`-th term is at least
/// `fib(k)`, and `fib(45) > 10^9`, so a value up to `10^9` can only be among the first 44.
pub const LIMIT: usize = 45;

/// The `(a, b)`-Fibonacci sequence: `a`, `b`, then each term the sum of the two before.
pub open spec fn term(a: int, b: int, k: nat) -> int
    decreases k,
{
    if k == 0 {
        a
    } else if k == 1 {
        b
    } else {
        term(a, b, (k - 2) as nat) + term(a, b, (k - 1) as nat)
    }
}

proof fn lemma_term_bound(a: int, b: int, k: nat)
    requires
        0 <= a <= 0x1_0000_0000_0000_0000,
        0 <= b <= 0x1_0000_0000_0000_0000,
    ensures
        0 <= term(a, b, k) <= 0x1_0000_0000_0000_0000 * vstd::arithmetic::power2::pow2(k),
    decreases k,
{
    vstd::arithmetic::power2::lemma_pow2_pos(k);
    if k >= 2 {
        lemma_term_bound(a, b, (k - 2) as nat);
        lemma_term_bound(a, b, (k - 1) as nat);
        vstd::arithmetic::power2::lemma_pow2_strictly_increases((k - 2) as nat, (k - 1) as nat);
        vstd::arithmetic::power2::lemma_pow2_unfold(k);
        let p1 = vstd::arithmetic::power2::pow2((k - 1) as nat);
        let p2 = vstd::arithmetic::power2::pow2((k - 2) as nat);
        assert(0x1_0000_0000_0000_0000 * p2 + 0x1_0000_0000_0000_0000 * p1 <= 0x1_0000_0000_0000_0000 * (2 * p1)) by (nonlinear_arith)
            requires
                p2 < p1,
        ;
    } else if k == 1 {
        vstd::arithmetic::power2::lemma2_to64();
    } else {
        vstd::arithmetic::power2::lemma2_to64();
    }
}

/// The first `LIMIT` terms of the `(a, b)`-Fibonacci sequence.
pub fn terms(a: u128, b: u128) -> (t: Vec<u128>)
    requires
        a <= u64::MAX,
        b <= u64::MAX,
    ensures
        t@.len() == LIMIT,
        forall|k: int| 0 <= k < LIMIT ==> #[trigger] t@[k] == term(a as int, b as int, k as nat),
{
    let mut t: Vec<u128> = Vec::new();
    t.push(a);
    let mut f = Fibonacci(a, b);
    let mut k: usize = 1;
    while k < LIMIT
        invariant
            1 <= k <= LIMIT,
            a <= u64::MAX,
            b <= u64::MAX,
            t@.len() == k,
            f.0 == term(a as int, b as int, (k - 1) as nat),
            f.1 == term(a as int, b as int, k as nat),
            forall|q: int| 0 <= q < k ==> #[trigger] t@[q] == term(a as int, b as int, q as nat),
        decreases LIMIT - k,
    {
        proof {
            lemma_term_bound(a as int, b as int, (k + 1) as nat);
            vstd::arithmetic::power2::lemma2_to64();
            vstd::arithmetic::power2::lemma_pow2_strictly_increases((k + 1) as nat, 64);
            assert(term(a as int, b as int, (k + 1) as nat) == f.0 + f.1);
            let p = vstd::arithmetic::power2::pow2((k + 1) as nat);
            assert(0x1_0000_0000_0000_0000 * p <= 0x1_0000_0000_0000_0000 * 0x1_0000_0000_0000_0000int) by (nonlinear_arith)
                requires
                    p <= 0x1_0000_0000_0000_0000int,
            ;
        }
        let x = f.next().unwrap();
        t.push(x);
        k = k + 1;
    }
    t
}

/// The coefficients `(c_k, d_k)` with `term(a, b, k) == c_k * a + d_k * b`, for the first
/// `LIMIT` terms: `(1, 0)`, `(0, 1)`, then each pair `(d, c + d)` of the one before.
pub fn coefficients() -> (coef: Vec<(i128, i128)>)
    ensures
        coef@.len() == LIMIT,
        forall|k: int| 0 <= k < LIMIT ==> #[trigger] coef@[k] == (fib_prev(k as nat) as i128, fib(k as nat) as i128),
{
    let mut coef: Vec<(i128, i128)> = Vec::new();
    let mut c: i128 = 1;
    let mut d: i128 = 0;
    let mut k: usize = 0;
    while k < LIMIT
        invariant
            k <= LIMIT,
            coef@.len() == k,
            c == fib_prev(k as nat),
            d == fib(k as nat),
            forall|q: int| 0 <= q < k ==> #[trigger] coef@[q] == (fib_prev(q as nat) as i128, fib(q as nat) as i128),
        decreases LIMIT - k,
    {
        proof {
            lemma_fib_pow2((k + 1) as nat);
            vstd::arithmetic::power2::lemma2_to64();
            vstd::arithmetic::power2::lemma_pow2_strictly_increases((k + 1) as nat, 64);
        }
        coef.push((c, d));
        let nd = c + d;
        c = d;
        d = nd;
        k = k + 1;
    }
    coef
}

proof fn lemma_fib_pow2(n: nat)
    ensures
        fib(n) <= vstd::arithmetic::power2::pow2(n),
    decreases n,
{
    vstd::arithmetic::power2::lemma_pow2_pos(n);
    if n >= 2 {
        lemma_fib_pow2((n - 1) as nat);
        lemma_fib_pow2((n - 2) as nat);
        vstd::arithmetic::power2::lemma_pow2_strictly_increases((n - 2) as nat, (n - 1) as nat);
        vstd::arithmetic::power2::lemma_pow2_unfold(n);
    } else {
        vstd::arithmetic::power2::lemma2_to64();
    }
}

/// Each term is a fixed combination of the first two: `term(a, b, k) == c_k * a + d_k * b`
/// with `(c_k, d_k)` as `coefficients` lists them.
pub proof fn lemma_term_coefficients(a: int, b: int, k: nat)
    ensures
        term(a, b, k) == fib_prev(k) * a + fib(k) * b,
    decreases k,
{
    if k >= 2 {
        lemma_term_coefficients(a, b, (k - 2) as nat);
        lemma_term_coefficients(a, b, (k - 1) as nat);
        assert(fib_prev(k) == fib_prev((k - 2) as nat) + fib_prev((k - 1) as nat));
        assert(fib_prev((k - 2) as nat) * a + fib((k - 2) as nat) * b + fib_prev((k - 1) as nat) * a + fib((k - 1) as nat) * b
            == (fib_prev((k - 2) as nat) + fib_prev((k - 1) as nat)) * a + (fib((k - 2) as nat) + fib((k - 1) as nat)) * b) by (nonlinear_arith);
    } else if k == 1 {
        assert(fib_prev(1) * a + fib(1) * b == b) by (nonlinear_arith)
            requires
                fib_prev(1) == 0,
                fib(1) == 1,
        ;
    } else {
        assert(fib_prev(0) * a + fib(0) * b == a) by (nonlinear_arith)
            requires
                fib_prev(0) == 1,
                fib(0) == 0,
        ;
    }
}

} // verus!
