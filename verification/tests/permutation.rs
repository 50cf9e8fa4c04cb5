use cplib::permutation::{next_permutation, permutation, prev_permutation};

#[test]
fn next_walks_all_permutations_in_order() {
    let mut a = vec![1, 2, 3];
    let mut seen = vec![a.clone()];
    while next_permutation(&mut a) {
        seen.push(a.clone());
    }
    assert_eq!(
        seen,
        vec![
            vec![1, 2, 3],
            vec![1, 3, 2],
            vec![2, 1, 3],
            vec![2, 3, 1],
            vec![3, 1, 2],
            vec![3, 2, 1]
        ]
    );
    // The last one stays as it is.
    assert_eq!(a, vec![3, 2, 1]);
}

#[test]
fn prev_walks_back() {
    let mut a = vec![3, 2, 1];
    let mut count = 1;
    while prev_permutation(&mut a) {
        count += 1;
    }
    assert_eq!(count, 6);
    assert_eq!(a, vec![1, 2, 3]);
}

#[test]
fn duplicates_are_visited_once() {
    let mut a = vec![1, 1, 2];
    let mut seen = vec![a.clone()];
    while next_permutation(&mut a) {
        seen.push(a.clone());
    }
    assert_eq!(seen, vec![vec![1, 1, 2], vec![1, 2, 1], vec![2, 1, 1]]);
}

#[test]
fn prev_undoes_next() {
    let orig = vec![2, 5, 1, 4, 3];
    let mut a = orig.clone();
    assert!(next_permutation(&mut a));
    assert_eq!(a, vec![2, 5, 3, 1, 4]);
    assert!(prev_permutation(&mut a));
    assert_eq!(a, orig);
}

#[test]
fn short_inputs_have_no_successor() {
    let mut e: Vec<i32> = vec![];
    assert!(!next_permutation(&mut e));
    let mut one = vec![7];
    assert!(!prev_permutation(&mut one));
    assert_eq!(one, vec![7]);
}

#[test]
fn permutation_lists_multiset_arrangements() {
    let mut counts = vec![('a', 2), ('b', 1)];
    let all = permutation(&mut counts, 3);
    assert_eq!(all, vec![vec!['a', 'a', 'b'], vec!['a', 'b', 'a'], vec!['b', 'a', 'a']]);
    assert_eq!(counts, vec![('a', 2), ('b', 1)]);
}

#[test]
fn permutation_of_shorter_length_and_of_too_long() {
    let mut counts = vec![(1, 1), (2, 1), (3, 1)];
    assert_eq!(
        permutation(&mut counts, 2),
        vec![vec![1, 2], vec![1, 3], vec![2, 1], vec![2, 3], vec![3, 1], vec![3, 2]]
    );
    assert!(permutation(&mut counts, 4).is_empty());
    assert_eq!(permutation(&mut counts, 0), vec![Vec::<i32>::new()]);
}

#[test]
fn next_permutation_gives_the_least_larger_arrangement() {
    // Against every arrangement of a multiset: the next one is the least that is larger.
    let base = vec![1, 1, 2, 3];
    let mut all: Vec<Vec<i32>> = Vec::new();
    let mut a = base.clone();
    loop {
        all.push(a.clone());
        if !next_permutation(&mut a) {
            break;
        }
    }
    let mut sorted = all.clone();
    sorted.sort();
    sorted.dedup();
    assert_eq!(all, sorted);
    for w in all.windows(2) {
        let mut p = w[1].clone();
        assert!(prev_permutation(&mut p));
        assert_eq!(p, w[0]);
    }
}
