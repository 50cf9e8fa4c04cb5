use cplib::kmp::KMP;

fn search_all<T: Eq>(pattern: &[T], text: &[T]) -> Vec<usize> {
    let kmp = KMP::new(pattern);
    let mut it = kmp.search(text);
    it.collect_all()
}

#[test]
fn lib_test_kmp_search() {
    let pattern = vec!['a', 'b', 'c'];
    let text = vec!['a', 'b', 'a', 'b', 'c', 'a', 'b', 'c', 'a'];
    assert_eq!(search_all(&pattern, &text), vec![2, 5]);
}

#[test]
fn lib_test_no_match() {
    let pattern = vec!['x', 'y', 'z'];
    let text = vec!['a', 'b', 'c', 'd', 'e'];
    assert_eq!(search_all(&pattern, &text), Vec::<usize>::new());
}

#[test]
fn lib_test_empty_pattern() {
    let pattern: Vec<char> = vec![];
    let text = vec!['a', 'b', 'c'];
    assert_eq!(search_all(&pattern, &text), Vec::<usize>::new());
}

#[test]
fn lib_test_empty_text() {
    let pattern = vec!['a'];
    let text: Vec<char> = vec![];
    assert_eq!(search_all(&pattern, &text), Vec::<usize>::new());
}

#[test]
fn lib_test_empty_empty() {
    let pattern: Vec<char> = vec![];
    let text: Vec<char> = vec![];
    assert_eq!(search_all(&pattern, &text), Vec::<usize>::new());
}

#[test]
fn lib_test_bigger_pattern() {
    let pattern = vec!['a', 'b', 'c', 'd', 'e'];
    let text: Vec<char> = vec!['a', 'b'];
    assert_eq!(search_all(&pattern, &text), Vec::<usize>::new());
}

#[test]
fn tests_test_kmp_search() {
    let pattern = vec!['a', 'b', 'c'];
    let kmp = KMP::new(&pattern);
    let text = vec!['a', 'b', 'a', 'b', 'c', 'a', 'b', 'c', 'a'];
    let result = kmp.search(&text).collect_all();
    assert_eq!(result, vec![2, 5]);
}

#[test]
fn tests_test_no_match() {
    let pattern = vec!['x', 'y', 'z'];
    let kmp = KMP::new(&pattern);
    let text = vec!['a', 'b', 'c', 'd', 'e'];
    let result = kmp.search(&text).collect_all();
    assert_eq!(result, Vec::<usize>::new());
}

#[test]
fn tests_test_empty_pattern() {
    let pattern: Vec<char> = vec![];
    let kmp = KMP::new(&pattern);
    let text = vec!['a', 'b', 'c'];
    let result = kmp.search(&text).collect_all();
    assert_eq!(result, Vec::<usize>::new());
}

#[test]
fn tests_test_empty_text() {
    let pattern = vec!['a'];
    let kmp = KMP::new(&pattern);
    let text: Vec<char> = vec![];
    let result = kmp.search(&text).collect_all();
    assert_eq!(result, Vec::<usize>::new());
}

#[test]
fn tests_test_empty_empty() {
    let pattern: Vec<char> = vec![];
    let kmp = KMP::new(&pattern);
    let text: Vec<char> = vec![];
    let result = kmp.search(&text).collect_all();
    assert_eq!(result, Vec::<usize>::new());
}

#[test]
fn tests_test_bigger_pattern() {
    let pattern = vec!['a', 'b', 'c', 'd', 'e'];
    let kmp = KMP::new(&pattern);
    let text: Vec<char> = vec!['a', 'b'];
    let result = kmp.search(&text).collect_all();
    assert_eq!(result, Vec::<usize>::new());
}

#[test]
fn overlapping_occurrences_are_all_reported() {
    assert_eq!(search_all(b"aa", b"aaaa"), vec![0, 1, 2]);
    assert_eq!(search_all(b"aba", b"abababa"), vec![0, 2, 4]);
}

#[test]
fn next_reports_one_at_a_time() {
    let kmp = KMP::new(b"ab");
    let mut it = kmp.search(b"xxabxxab");
    assert_eq!(it.next(), Some(2));
    assert_eq!(it.next(), Some(6));
    assert_eq!(it.next(), None);
    assert_eq!(it.next(), None);
}

#[test]
fn searcher_is_reusable() {
    let kmp = KMP::new(b"ab");
    assert_eq!(kmp.search(b"abcab").collect_all(), vec![0, 3]);
    assert_eq!(kmp.search(b"ba").collect_all(), Vec::<usize>::new());
}

#[test]
fn pattern_with_nested_borders() {
    // "aabaaab" has borders at every level; matches overlap in the text.
    let text = b"aabaaabaaabaaab";
    assert_eq!(search_all(b"aabaaab", text), vec![0, 4, 8]);
    assert_eq!(search_all(b"abaaab", text), vec![1, 5, 9]);
}

#[test]
fn search_stays_exhausted_after_none() {
    let pattern = b"ab".to_vec();
    let text = b"xxabxxab".to_vec();
    let kmp = KMP::new(&pattern);
    let mut it = kmp.search(&text);
    assert_eq!(it.next(), Some(2));
    assert_eq!(it.next(), Some(6));
    assert_eq!(it.next(), None);
    assert_eq!(it.next(), None);
    assert_eq!(it.next(), None);
}
