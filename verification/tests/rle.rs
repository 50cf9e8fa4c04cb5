use cplib::rle::{rle, Rle, RleIter, RleState};

/// Drives a `RleState` from any source, reading it only as far as the runs asked for need.
struct LazyRuns<T: Iterator> {
    iter: T,
    state: RleState<T::Item>,
    done: bool,
}

impl<T: Iterator> Iterator for LazyRuns<T>
where
    T::Item: PartialEq,
{
    type Item = (T::Item, usize);

    fn next(&mut self) -> Option<Self::Item> {
        if self.done {
            return None;
        }
        loop {
            match self.iter.next() {
                Some(x) => {
                    if let Some(run) = self.state.feed(x) {
                        return Some(run);
                    }
                }
                None => {
                    self.done = true;
                    return self.state.finish();
                }
            }
        }
    }
}

trait LazyRle: Iterator + Sized
where
    Self::Item: PartialEq,
{
    fn rle(self) -> LazyRuns<Self> {
        LazyRuns { iter: self, state: RleState::new(), done: false }
    }
}

impl<T: Iterator> LazyRle for T where T::Item: PartialEq {}

fn collect_runs<I: PartialEq>(mut it: RleIter<I>) -> Vec<(I, usize)> {
    let mut out = Vec::new();
    while let Some(run) = it.next() {
        out.push(run);
    }
    out
}

fn collect(s: &str) -> Vec<(char, usize)> {
    collect_runs(s.chars().collect::<Vec<char>>().rle())
}

fn chars(s: &str) -> Vec<char> {
    s.chars().collect()
}

#[test]
fn empty() {
    assert!(rle(Vec::<char>::new()).is_empty());
    assert!(collect("").is_empty());
}

#[test]
fn single_element() {
    assert_eq!(rle(chars("a")), vec![('a', 1)]);
    assert_eq!(collect("a"), vec![('a', 1)]);
}

#[test]
fn all_same() {
    assert_eq!(rle(chars("aaaa")), vec![('a', 4)]);
    assert_eq!(collect("aaaa"), vec![('a', 4)]);
}

#[test]
fn value_can_appear_in_multiple_runs() {
    let expected = vec![('a', 1), ('b', 2), ('a', 3)];
    assert_eq!(rle(chars("abbaaa")), expected);
    assert_eq!(collect("abbaaa"), expected);
}

#[test]
fn no_run_is_merged_with_its_neighbor() {
    let expected = vec![('a', 1), ('b', 1), ('a', 1), ('b', 1)];
    assert_eq!(rle(chars("abab")), expected);
    assert_eq!(collect("abab"), expected);
}

#[test]
fn counts_sum_to_the_original_length() {
    let s = "aabbbcaadddde";
    let runs = collect(s);
    assert_eq!(runs.iter().map(|&(_, cnt)| cnt).sum::<usize>(), s.len());
    assert!(runs.windows(2).all(|w| w[0].0 != w[1].0));
}

#[test]
fn iterator_is_lazy() {
    // On an endless source, only as much is read as the runs taken need.
    let runs: Vec<_> = (0..).map(|i| i / 2).rle().take(3).collect();
    assert_eq!(runs, vec![(0, 2), (1, 2), (2, 2)]);
}

#[test]
fn iterator_stays_exhausted() {
    let mut iter = "ab".chars().rle();
    assert_eq!(iter.next(), Some(('a', 1)));
    assert_eq!(iter.next(), Some(('b', 1)));
    assert_eq!(iter.next(), None);
    assert_eq!(iter.next(), None);
}

#[test]
fn function_and_adapter_agree() {
    let xs = [3, 3, 1, 1, 1, 4, 1, 5, 5, 5, 5, 9, 2, 2];
    assert_eq!(rle(xs.to_vec()), xs.into_iter().rle().collect::<Vec<_>>());
    assert_eq!(rle(xs.to_vec()), collect_runs(xs.to_vec().rle()));
}

#[test]
fn function_leaves_the_source_exhausted() {
    let mut iter = "aab".chars();
    assert_eq!(rle(iter.by_ref().collect()), vec![('a', 2), ('b', 1)]);
    assert_eq!(iter.next(), None);
}

#[test]
fn iter_new_matches_trait_adapter() {
    let v = vec![7, 7, 8];
    assert_eq!(collect_runs(RleIter::new(v.clone())), collect_runs(v.rle()));
}

#[test]
fn adapter_keeps_giving_none_after_the_last_run() {
    let mut it = RleIter::new(vec![1, 1, 2, 2, 2, 1]);
    assert_eq!(it.next(), Some((1, 2)));
    assert_eq!(it.next(), Some((2, 3)));
    assert_eq!(it.next(), Some((1, 1)));
    assert_eq!(it.next(), None);
    assert_eq!(it.next(), None);
}

#[test]
fn fed_state_agrees_with_the_function() {
    let xs = vec![3, 3, 1, 1, 1, 4, 1, 5, 5, 5, 5, 9, 2, 2];
    assert_eq!(rle(xs.clone()), xs.clone().into_iter().rle().collect::<Vec<_>>());
    let mut st = RleState::new();
    assert_eq!(st.feed(7), None);
    assert_eq!(st.feed(7), None);
    assert_eq!(st.feed(8), Some((7, 2)));
    assert_eq!(st.finish(), Some((8, 1)));
    assert_eq!(st.finish(), None);
    let mut empty: RleState<u8> = RleState::new();
    assert_eq!(empty.finish(), None);
}
