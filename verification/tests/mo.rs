use cplib::mo::{answer_windows, Mo, MoSol};

/// Sum of the window, with every move recorded.
struct WindowSum {
    a: Vec<i64>,
    sum: i64,
    l: usize,
    r: usize,
}

impl MoSol for WindowSum {
    type Ans = (i64, usize, usize);
    const MAX_INDEX_POW2: usize = 4;
    fn add_l(&mut self, l_idx: usize) {
        assert_eq!(l_idx + 1, self.l);
        self.l = l_idx;
        self.sum += self.a[l_idx];
    }
    fn add_r(&mut self, r_idx: usize) {
        assert_eq!(r_idx, self.r);
        self.r = r_idx + 1;
        self.sum += self.a[r_idx];
    }
    fn del_l(&mut self, l_idx: usize) {
        assert_eq!(l_idx, self.l);
        self.l = l_idx + 1;
        self.sum -= self.a[l_idx];
    }
    fn del_r(&mut self, r_idx: usize) {
        assert_eq!(r_idx + 1, self.r);
        self.r = r_idx;
        self.sum -= self.a[r_idx];
    }
    fn solve(&mut self) -> Self::Ans {
        (self.sum, self.l, self.r)
    }
}

#[test]
fn answers_come_back_in_push_order() {
    let a: Vec<i64> = (1..=12).collect();
    let windows = vec![(0, 3), (5, 12), (2, 2), (1, 9), (11, 12), (0, 12), (4, 6)];
    let mut mo = Mo::new();
    for &(l, r) in &windows {
        mo.push(l, r);
    }
    let mut state = WindowSum { a: a.clone(), sum: 0, l: 0, r: 0 };
    let ans = mo.execute(&mut state);
    assert_eq!(ans.len(), windows.len());
    for (&(l, r), &(s, sl, sr)) in windows.iter().zip(ans.iter()) {
        assert_eq!((sl, sr), (l, r));
        assert_eq!(s, a[l..r].iter().sum::<i64>());
    }
}

#[test]
fn no_queries_no_answers() {
    let mo = Mo::new();
    let mut state = WindowSum { a: vec![], sum: 0, l: 0, r: 0 };
    assert!(mo.execute(&mut state).is_empty());
}

#[test]
fn mo_default_is_empty() {
    let mo = Mo::default();
    let mut state = WindowSum { a: vec![1], sum: 0, l: 0, r: 0 };
    assert_eq!(mo.execute(&mut state).len(), 0);
}

#[test]
fn indices_beyond_the_curve_are_still_answered() {
    // MAX_INDEX_POW2 is 4, so indices from 16 on lie outside the curve's square.
    let a: Vec<i64> = (1..=40).collect();
    let windows = vec![(0, 40), (17, 33), (3, 20), (20, 20), (31, 39), (0, 1)];
    let mut mo = Mo::new();
    for &(l, r) in &windows {
        mo.push(l, r);
    }
    let mut state = WindowSum { a: a.clone(), sum: 0, l: 0, r: 0 };
    let ans = mo.execute(&mut state);
    for (&(l, r), &(s, _, _)) in windows.iter().zip(ans.iter()) {
        assert_eq!(s, a[l..r].iter().sum::<i64>());
    }
}

#[test]
fn answer_windows_checks_the_windows() {
    let a: Vec<i64> = vec![1, 2, 3, 4, 5];
    let mut state = WindowSum { a: a.clone(), sum: 0, l: 0, r: 0 };
    assert!(answer_windows(&mut state, 5, &vec![(0, 3), (2, 6)]).is_none());
    assert!(answer_windows(&mut state, 5, &vec![(3, 2)]).is_none());
    let ans = answer_windows(&mut state, 5, &vec![(0, 3), (1, 5)]).unwrap();
    assert_eq!(ans[0].0, 6);
    assert_eq!(ans[1].0, 14);
}
