use cplib::distinct_count::Distinct;
use cplib::inversions::Inversions;
use cplib::letter_count::{kth_letter, LetterCount};
use cplib::median_distance::AbsSum;
use cplib::mo::{Mo, MoSol};
use cplib::range_mode::Mode;

fn windows(n: usize) -> Vec<(usize, usize)> {
    let mut w = Vec::new();
    for l in 0..=n {
        for r in l..=n {
            w.push((l, r));
        }
    }
    // A scrambled order, so that the window moves both ways.
    let mut out = Vec::new();
    let mut k = 0usize;
    for _ in 0..w.len() {
        k = (k + 7) % w.len();
        out.push(w[k]);
    }
    out.extend(w);
    out
}

fn run<S: MoSol>(state: &mut S, ws: &[(usize, usize)]) -> Vec<S::Ans>
where
    S::Ans: Default + Clone,
{
    let mut mo = Mo::new();
    for &(l, r) in ws {
        mo.push(l, r);
    }
    mo.execute(state)
}

fn naive_inversions(a: &[i64]) -> u64 {
    let mut c = 0;
    for i in 0..a.len() {
        for j in i + 1..a.len() {
            if a[i] > a[j] {
                c += 1;
            }
        }
    }
    c
}

#[test]
fn inversions_of_every_window() {
    let a = vec![3, 1, 4, 1, 5, 9, 2, 6, 5, 3];
    let ws = windows(a.len());
    let mut st = Inversions::new(&a);
    let ans = run(&mut st, &ws);
    for (&(l, r), &x) in ws.iter().zip(ans.iter()) {
        assert_eq!(x, naive_inversions(&a[l..r]), "window {l}..{r}");
    }
}

#[test]
fn inversions_move_by_hand() {
    let a = vec![5, 4, 3, 2, 1];
    let mut st = Inversions::new(&a);
    st.add_r(0);
    st.add_r(1);
    st.add_r(2);
    assert_eq!(st.solve(), 3);
    st.del_l(0);
    assert_eq!(st.solve(), 1);
    st.add_l(0);
    st.add_r(3);
    st.add_r(4);
    assert_eq!(st.solve(), 10);
    st.del_r(4);
    assert_eq!(st.solve(), 6);
}

#[test]
fn inversions_ignore_equal_values() {
    let a = vec![2, 2, 2, 1];
    let mut st = Inversions::new(&a);
    for i in 0..4 {
        st.add_r(i);
    }
    assert_eq!(st.solve(), 3);
}

fn naive_distinct(a: &[i64]) -> usize {
    let mut v = a.to_vec();
    v.sort();
    v.dedup();
    v.len()
}

#[test]
fn distinct_of_every_window() {
    let a = vec![1, 2, 1, 3, 3, -7, 2, 1_000_000_000_000];
    let ws = windows(a.len());
    let mut st = Distinct::new(&a);
    let ans = run(&mut st, &ws);
    for (&(l, r), &x) in ws.iter().zip(ans.iter()) {
        assert_eq!(x, naive_distinct(&a[l..r]), "window {l}..{r}");
    }
}

#[test]
fn distinct_small_windows() {
    let a = vec![3, 7, 1, 2, 1];
    let ws = vec![(1, 3), (0, 5), (2, 3), (0, 2), (4, 5)];
    let mut st = Distinct::new(&a);
    let ans = run(&mut st, &ws);
    assert_eq!(ans, vec![2, 4, 1, 2, 1]);
}

#[test]
fn mode_of_every_window() {
    let a = vec![4, 1, 4, 2, 2, 2, 1, 4, 4];
    let ws = windows(a.len());
    let mut st = Mode::new(&a);
    let ans = run(&mut st, &ws);
    for (&(l, r), &(v, c)) in ws.iter().zip(ans.iter()) {
        let w = &a[l..r];
        let best = (0..w.len()).map(|i| w.iter().filter(|&&x| x == w[i]).count()).max().unwrap_or(0);
        assert_eq!(c, best, "window {l}..{r}");
        if !w.is_empty() {
            assert_eq!(w.iter().filter(|&&x| x == v).count(), c);
        }
    }
}

#[test]
fn mode_single_value() {
    let a = vec![9, 9, 9];
    let mut st = Mode::new(&a);
    st.add_r(0);
    st.add_r(1);
    assert_eq!(st.solve(), (9, 2));
}

fn naive_abs_sum(w: &[i64]) -> i64 {
    w.iter().map(|&x| w.iter().map(|&y| (x - y).abs()).sum::<i64>()).min().unwrap_or(0)
}

#[test]
fn abs_sum_of_every_window() {
    let a = vec![5, -3, 8, 8, 0, 1_000_000_000, -1_000_000_000, 2, 2, 7, 4];
    let ws = windows(a.len());
    let mut st = AbsSum::new(a.clone());
    let ans = run(&mut st, &ws);
    for (&(l, r), &x) in ws.iter().zip(ans.iter()) {
        assert_eq!(x, naive_abs_sum(&a[l..r]), "window {l}..{r}");
    }
}

#[test]
fn abs_sum_small_windows() {
    let a = vec![1, 2, 3, 4];
    let mut st = AbsSum::new(a);
    let ans = run(&mut st, &[(0, 4), (1, 3), (2, 3)]);
    assert_eq!(ans, vec![4, 1, 0]);
}

#[test]
fn letter_counts_of_every_window() {
    let s = b"mississippi".to_vec();
    let ws = windows(s.len());
    let mut st = LetterCount::new(&s);
    let ans = run(&mut st, &ws);
    for (&(l, r), cnt) in ws.iter().zip(ans.iter()) {
        for c in 0..26 {
            let n = s[l..r].iter().filter(|&&b| usize::from(b - b'a') == c).count();
            assert_eq!(cnt[c], n);
        }
    }
}

#[test]
fn kth_letter_walks_the_counts() {
    let mut cnt = [0usize; 26];
    cnt[0] = 2;
    cnt[3] = 1;
    cnt[25] = 4;
    assert_eq!(kth_letter(&cnt, 1), Some(0));
    assert_eq!(kth_letter(&cnt, 2), Some(0));
    assert_eq!(kth_letter(&cnt, 3), Some(3));
    assert_eq!(kth_letter(&cnt, 4), Some(25));
    assert_eq!(kth_letter(&cnt, 7), Some(25));
    assert_eq!(kth_letter(&cnt, 8), None);
    assert_eq!(kth_letter(&[0; 26], 1), None);
}

#[test]
fn distinct_through_answer_windows() {
    let a = vec![1, 2, 1, 3, 2];
    let mut st = Distinct::new(&a);
    let ans = cplib::mo::answer_windows(&mut st, a.len(), &vec![(0, 3), (1, 5), (0, 1)]).unwrap();
    assert_eq!(ans, vec![2, 3, 1]);
}
