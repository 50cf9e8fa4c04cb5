use cplib::tasks::ordered_next::next_with_order;

fn permutations(v: &[usize]) -> Vec<Vec<usize>> {
    if v.len() <= 1 {
        return vec![v.to_vec()];
    }
    let mut out = Vec::new();
    for i in 0..v.len() {
        let mut rest = v.to_vec();
        let x = rest.remove(i);
        for mut p in permutations(&rest) {
            p.insert(0, x);
            out.push(p);
        }
    }
    out
}

fn before(b: &[usize], p: usize, q: usize) -> bool {
    b.iter().position(|&x| x == p).unwrap() < b.iter().position(|&x| x == q).unwrap()
}

#[test]
fn matches_brute_force_on_small_permutations() {
    for n in 2..=5 {
        let base: Vec<usize> = (1..=n).collect();
        let all = permutations(&base);
        for a in &all {
            for p in 1..=n {
                for q in 1..=n {
                    if p == q {
                        continue;
                    }
                    let expected = all.iter().filter(|b| *b > a && before(b, p, q)).min().cloned();
                    assert_eq!(next_with_order(a, p, q), expected, "a = {a:?}, p = {p}, q = {q}");
                }
            }
        }
    }
}

#[test]
fn small_cases() {
    assert_eq!(next_with_order(&vec![1, 2, 3], 3, 1), Some(vec![2, 3, 1]));
    assert_eq!(next_with_order(&vec![3, 2, 1], 1, 2), None);
    assert_eq!(next_with_order(&vec![1, 2, 3], 1, 2), Some(vec![1, 3, 2]));
    assert_eq!(next_with_order(&vec![4, 1, 3, 2], 2, 1), Some(vec![4, 2, 1, 3]));
}
