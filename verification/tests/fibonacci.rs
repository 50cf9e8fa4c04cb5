use cplib::fibonacci::{fibonacci_matrix_pow, Fibonacci};

fn test_case_set() -> Vec<usize> {
    vec![1, 1, 2, 3, 5, 8, 13, 21, 34, 55]
}

#[test]
fn test_fibonacci_matrix_pow() {
    for (i, n) in test_case_set().into_iter().enumerate() {
        assert_eq!(fibonacci_matrix_pow(i + 1), n as u128);
    }
}

#[test]
fn test_fibonacci_iter() {
    let mut fib = Fibonacci(0, 1);
    for n in test_case_set() {
        assert_eq!(fib.next().unwrap(), n as u128);
    }
}

#[test]
fn test_fibonacci_matrix_pow_upper_bound() {
    assert_eq!(fibonacci_matrix_pow(186), 332825110087067562321196029789634457848);
}

#[test]
fn test_fibonacci_iter_matches_matrix_pow() {
    let mut fib = Fibonacci(0, 1);
    for i in 0..185 {
        let f = fib.next().unwrap();
        assert_eq!(f, fibonacci_matrix_pow(i + 1));
    }
}

#[test]
fn fibonacci_matrix_pow_of_zero_is_zero() {
    assert_eq!(fibonacci_matrix_pow(0), 0);
    assert_eq!(fibonacci_matrix_pow(2), 1);
    assert_eq!(fibonacci_matrix_pow(10), 55);
}

#[test]
fn fibonacci_iter_follows_the_recurrence_from_any_start() {
    let mut fib = Fibonacci(2, 5);
    assert_eq!(fib.next(), Some(5));
    assert_eq!(fib.next(), Some(7));
    assert_eq!(fib.next(), Some(12));
    assert_eq!(fib.next(), Some(19));
}

#[test]
fn fibonacci_double_step_identity() {
    // F(2k) = F(k) * (2 F(k + 1) - F(k))
    for k in 1..40usize {
        let fk = fibonacci_matrix_pow(k);
        let fk1 = fibonacci_matrix_pow(k + 1);
        assert_eq!(fibonacci_matrix_pow(2 * k), fk * (2 * fk1 - fk));
    }
}
