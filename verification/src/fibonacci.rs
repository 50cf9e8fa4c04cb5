use vstd::prelude::*;

verus! {

/// The Fibonacci numbers: `fib(0) = 0`, `fib(1) = 1`, `fib(n) = fib(n - 1) + fib(n - 2)`.
pub open spec fn fib(n: nat) -> nat
    decreases n,
{
    if n == 0 {
        0
    } else if n == 1 {
        1
    } else {
        fib((n - 1) as nat) + fib((n - 2) as nat)
    }
}

/// `fib(n - 1)`, extended with `fib(-1) = 1`.
pub open spec fn fib_prev(n: nat) -> nat {
    if n == 0 {
        1
    } else {
        fib((n - 1) as nat)
    }
}

/// A 2x2 matrix, row by row.
type Mat = [[u128; 2]; 2];

/// The entries of a matrix as mathematical integers: `(m00, m01, m10, m11)`.
spec fn entries(m: Mat) -> (int, int, int, int) {
    (m[0][0] as int, m[0][1] as int, m[1][0] as int, m[1][1] as int)
}

/// `[[1, 1], [1, 0]]` raised to the power `k`.
spec fn fib_matrix(k: nat) -> (int, int, int, int) {
    (fib(k + 1) as int, fib(k) as int, fib(k) as int, fib_prev(k) as int)
}

/// The matrix product, entry by entry.
spec fn mat_mul(a: (int, int, int, int), b: (int, int, int, int)) -> (int, int, int, int) {
    (
        a.0 * b.0 + a.1 * b.2,
        a.0 * b.1 + a.1 * b.3,
        a.2 * b.0 + a.3 * b.2,
        a.2 * b.1 + a.3 * b.3,
    )
}

/// `fib(m + n + 1) == fib(m + 1) * fib(n + 1) + fib(m) * fib(n)`.
pub proof fn lemma_fib_add(m: nat, n: nat)
    ensures
        fib(m + n + 1) == fib(m + 1) * fib(n + 1) + fib(m) * fib(n),
    decreases n,
{
    reveal_with_fuel(fib, 3);
    let a = fib(m + 1) as int;
    let b = fib(m) as int;
    if n == 0 {
        assert(a * 1 + b * 0 == a) by (nonlinear_arith);
    } else if n == 1 {
        assert(fib(m + 2) == a + b);
        assert(a * 1 + b * 1 == a + b) by (nonlinear_arith);
    } else {
        lemma_fib_add(m, (n - 1) as nat);
        lemma_fib_add(m, (n - 2) as nat);
        let x = fib(n) as int;
        let y = fib((n - 1) as nat) as int;
        let z = fib((n - 2) as nat) as int;
        assert(fib(n + 1) == x + y);
        assert(fib(n) == y + z);
        assert(m + (n - 1) + 1 == m + n);
        assert(m + (n - 2) + 1 == m + n - 1);
        assert(fib(m + n) == a * x + b * y);
        assert(fib((m + n - 1) as nat) == a * y + b * z);
        assert(fib(m + n + 1) == fib(m + n) + fib((m + n - 1) as nat));
        assert(a * x + b * y + (a * y + b * z) == a * (x + y) + b * (y + z)) by (nonlinear_arith);
    }
}

/// Fibonacci numbers never decrease.
pub proof fn lemma_fib_monotone(i: nat, j: nat)
    requires
        i <= j,
    ensures
        fib(i) <= fib(j),
    decreases j,
{
    if i < j {
        lemma_fib_monotone(i, (j - 1) as nat);
    }
}

proof fn lemma_fib_double(k: nat, a: nat, b: nat)
    requires
        k >= 1,
        fib(k) == a,
        fib(k + 1) == b,
    ensures
        fib(2 * k) == a * (2 * b - a),
        fib(2 * k + 1) == b * b + a * a,
        fib(2 * k + 2) == a * (2 * b - a) + b * b + a * a,
{
    lemma_fib_add(k, k);
    lemma_fib_add(k, (k - 1) as nat);
    assert(fib((k - 1) as nat) == b - a);
    assert(b * a + a * (b - a) == a * (2 * b - a)) by (nonlinear_arith);
    assert(fib(2 * k + 2) == fib(2 * k + 1) + fib(2 * k));
}

/// `fib(186)` is the largest Fibonacci number that fits in `u128`.
pub proof fn lemma_fib_186()
    ensures
        fib(186) == 332825110087067562321196029789634457848,
        fib(187) == 538522340430300790495419781092981030533,
        fib(186) <= u128::MAX < fib(187),
{
    reveal_with_fuel(fib, 4);
    assert(fib(2) == 1);
    assert(fib(3) == 2);
    lemma_fib_double(2, 1, 2);
    lemma_fib_double(5, 5, 8);
    lemma_fib_double(11, 89, 144);
    assert(fib(24) == 46368);
    assert(fib(25) == 75025);
    lemma_fib_double(23, 28657, 46368);
    lemma_fib_double(46, 1836311903, 2971215073);
    lemma_fib_double(93, 12200160415121876738, 19740274219868223167);
    assert(fib(188) == fib(187) + fib(186));
}

/// The product of two matrices whose entries and partial products fit in `u128`.
fn matrix_multiply(a: Mat, b: Mat) -> (r: Mat)
    requires
        forall|i: int|
            0 <= i < 4 ==> 0 <= #[trigger] mat_index(mat_mul(entries(a), entries(b)), i)
                <= u128::MAX,
    ensures
        entries(r) == mat_mul(entries(a), entries(b)),
{
    proof {
        let p = mat_mul(entries(a), entries(b));
        assert(0 <= mat_index(p, 0) <= u128::MAX);
        assert(0 <= mat_index(p, 1) <= u128::MAX);
        assert(0 <= mat_index(p, 2) <= u128::MAX);
        assert(0 <= mat_index(p, 3) <= u128::MAX);
        let (a0, a1, a2, a3) = entries(a);
        let (b0, b1, b2, b3) = entries(b);
        assert(0 <= a0 * b0 && 0 <= a1 * b2 && 0 <= a0 * b1 && 0 <= a1 * b3) by (nonlinear_arith)
            requires
                0 <= a0,
                0 <= a1,
                0 <= b0,
                0 <= b1,
                0 <= b2,
                0 <= b3,
        ;
        assert(0 <= a2 * b0 && 0 <= a3 * b2 && 0 <= a2 * b1 && 0 <= a3 * b3) by (nonlinear_arith)
            requires
                0 <= a2,
                0 <= a3,
                0 <= b0,
                0 <= b1,
                0 <= b2,
                0 <= b3,
        ;
    }
    [
        [a[0][0] * b[0][0] + a[0][1] * b[1][0], a[0][0] * b[0][1] + a[0][1] * b[1][1]],
        [a[1][0] * b[0][0] + a[1][1] * b[1][0], a[1][0] * b[0][1] + a[1][1] * b[1][1]],
    ]
}

/// The `i`-th entry of a matrix, row by row.
spec fn mat_index(m: (int, int, int, int), i: int) -> int {
    if i == 0 {
        m.0
    } else if i == 1 {
        m.1
    } else if i == 2 {
        m.2
    } else {
        m.3
    }
}

proof fn lemma_fib_matrix_mul(i: nat, j: nat)
    ensures
        mat_mul(fib_matrix(i), fib_matrix(j)) == fib_matrix(i + j),
{
    reveal_with_fuel(fib, 2);
    let fi1 = fib(i + 1) as int;
    let fi = fib(i) as int;
    let pi = fib_prev(i) as int;
    let fj1 = fib(j + 1) as int;
    let fj = fib(j) as int;
    let pj = fib_prev(j) as int;
    // entry (0, 0)
    lemma_fib_add(i, j);
    // entry (0, 1)
    if j >= 1 {
        lemma_fib_add(i, (j - 1) as nat);
        assert(i + (j - 1) + 1 == i + j);
    } else {
        assert(fi1 * 0 + fi * 1 == fi) by (nonlinear_arith);
    }
    // entry (1, 0)
    if i >= 1 {
        lemma_fib_add(j, (i - 1) as nat);
        assert(j + (i - 1) + 1 == i + j);
        assert(fi * fj1 + pi * fj == fj1 * fi + fj * pi) by (nonlinear_arith);
    } else {
        assert(0 * fj1 + 1 * fj == fj) by (nonlinear_arith);
    }
    // entry (1, 1)
    if i >= 1 && j >= 1 {
        lemma_fib_add((i - 1) as nat, (j - 1) as nat);
        assert((i - 1) + (j - 1) + 1 == i + j - 1);
    } else if i == 0 {
        assert(0 * fj + 1 * pj == pj) by (nonlinear_arith);
    } else {
        assert(fi * 0 + pi * 1 == pi) by (nonlinear_arith);
    }
}

proof fn lemma_fib_matrix_fits(i: nat, j: nat)
    requires
        i + j <= 185,
    ensures
        forall|k: int|
            0 <= k < 4 ==> 0 <= #[trigger] mat_index(mat_mul(fib_matrix(i), fib_matrix(j)), k)
                <= u128::MAX,
{
    lemma_fib_matrix_mul(i, j);
    lemma_fib_186();
    lemma_fib_monotone(i + j + 1, 186);
    lemma_fib_monotone(i + j, 186);
    if i + j >= 1 {
        lemma_fib_monotone((i + j - 1) as nat, 186);
    }
}

/// Whether a matrix holds the entries of `[[1, 1], [1, 0]]` raised to the power `k`.
spec fn is_fib_matrix(m: Mat, k: nat) -> bool {
    entries(m) == fib_matrix(k)
}

proof fn lemma_halve(done: nat, n: nat, step: nat, e0: nat)
    requires
        done + n * step == e0,
        n >= 1,
    ensures
        n % 2 == 1 ==> done + step + (n / 2) * (2 * step) == e0,
        n % 2 == 0 ==> done + (n / 2) * (2 * step) == e0,
        n % 2 == 1 ==> done + step <= e0,
        n / 2 >= 1 ==> done + 2 * step <= e0,
{
    assert(n % 2 == 1 ==> done + step + (n / 2) * (2 * step) == e0) by (nonlinear_arith)
        requires
            done + n * step == e0,
    ;
    assert(n % 2 == 0 ==> done + (n / 2) * (2 * step) == e0) by (nonlinear_arith)
        requires
            done + n * step == e0,
    ;
    assert(n / 2 >= 1 ==> 2 * step <= (n / 2) * (2 * step)) by (nonlinear_arith);
    assert(n * step >= step) by (nonlinear_arith)
        requires
            n >= 1,
    ;
}

fn matrix_power(matrix: Mat, n: usize) -> (r: Mat)
    requires
        is_fib_matrix(matrix, 1),
        n <= 185,
    ensures
        is_fib_matrix(r, n as nat),
{
    let mut result: Mat = [[1, 0], [0, 1]];
    let mut base = matrix;
    let mut n = n;
    let ghost e0 = n as nat;
    let ghost mut done: nat = 0;
    let ghost mut step: nat = 1;
    proof {
        reveal_with_fuel(fib, 3);
        assert(is_fib_matrix(result, 0));
    }
    while n > 0
        invariant
            e0 <= 185,
            done + n * step == e0,
            is_fib_matrix(result, done),
            n > 0 ==> is_fib_matrix(base, step),
        decreases n,
    {
        proof {
            lemma_halve(done, n as nat, step, e0);
        }
        if n % 2 == 1 {
            proof {
                lemma_fib_matrix_fits(done, step);
                lemma_fib_matrix_mul(done, step);
            }
            result = matrix_multiply(result, base);
            proof {
                done = done + step;
            }
        }
        n = n / 2;
        if n > 0 {
            proof {
                lemma_fib_matrix_fits(step, step);
                lemma_fib_matrix_mul(step, step);
            }
            base = matrix_multiply(base, base);
        }
        proof {
            step = 2 * step;
        }
    }
    result
}

/// The `n`-th Fibonacci number, by repeated squaring of `[[1, 1], [1, 0]]`.
pub fn fibonacci_matrix_pow(n: usize) -> (r: u128)
    requires
        n <= 186,
    ensures
        r == fib(n as nat),
{
    if n == 0 {
        return 0;
    }
    let base: Mat = [[1, 1], [1, 0]];
    proof {
        reveal_with_fuel(fib, 3);
        assert(is_fib_matrix(base, 1));
    }
    let result = matrix_power(base, n - 1);
    result[0][0]
}

/// Two consecutive terms of a sequence obeying the Fibonacci recurrence.
///
/// Each call of `next` moves one term ahead: the state `(a, b)` becomes `(b, a + b)`
/// and the new first term `b` is returned.
pub struct Fibonacci(pub u128, pub u128);

impl Fibonacci {
    /// Advances by one term and returns it.
    pub fn next(&mut self) -> (r: Option<u128>)
        requires
            old(self).0 + old(self).1 <= u128::MAX,
        ensures
            final(self).0 == old(self).1,
            final(self).1 == old(self).0 + old(self).1,
            r == Some(old(self).1),
    {
        self.0 += self.1;
        std::mem::swap(&mut self.0, &mut self.1);
        Some(self.0)
    }
}

/// Started from `(fib(k), fib(k + 1))`, `next` moves the pair on to `(fib(k + 1), fib(k + 2))`:
/// the sum it forms is the next Fibonacci number.
pub proof fn lemma_next_follows_fib(k: nat, a: u128, b: u128)
    requires
        a == fib(k),
        b == fib(k + 1),
    ensures
        a + b == fib(k + 2),
{
}

} // verus!
