use cplib::ranges::{ImmutableRanges, Ranges};

fn vec_of(ranges: &Ranges<i32>) -> Vec<(i32, i32)> {
    ranges.iter().into_iter().map(|(s, e)| (*s, *e)).collect()
}

#[test]
fn merge_on_insert() {
    let mut r = Ranges::new();
    r.insert(5..10);
    r.insert(1..3);
    assert_eq!(vec_of(&r), vec![(1, 3), (5, 10)]);

    r.insert(3..5);
    assert_eq!(vec_of(&r), vec![(1, 10)]);

    r.insert(20..30);
    r.insert(0..25);
    assert_eq!(vec_of(&r), vec![(0, 30)]);

    r.insert(7..8);
    assert_eq!(vec_of(&r), vec![(0, 30)]);

    r.insert(40..40);
    assert_eq!(vec_of(&r), vec![(0, 30)]);
}

#[test]
fn no_merge_for_disjoint_integers() {
    let r: Ranges<i32> = Ranges::from_ranges(vec![1..2, 3..4]);
    assert_eq!(vec_of(&r), vec![(1, 2), (3, 4)]);
}

#[test]
fn remove_splits_and_truncates() {
    let mut r: Ranges<i32> = Ranges::from_ranges(vec![1..10]);
    r.remove(3..5);
    assert_eq!(vec_of(&r), vec![(1, 3), (5, 10)]);

    r.remove(2..7);
    assert_eq!(vec_of(&r), vec![(1, 2), (7, 10)]);

    r.remove(0..100);
    assert!(r.is_empty());
}

#[test]
fn remove_across_multiple() {
    let mut r: Ranges<i32> = Ranges::from_ranges(vec![0..5, 10..15, 20..25]);
    r.remove(3..22);
    assert_eq!(vec_of(&r), vec![(0, 3), (22, 25)]);
}

#[test]
fn queries() {
    let r: Ranges<i32> = Ranges::from_ranges(vec![1..5, 10..20]);
    assert!(r.contains(&1));
    assert!(r.contains(&4));
    assert!(!r.contains(&5));
    assert!(!r.contains(&9));
    assert_eq!(r.covering(&12), Some((&10, &20)));

    assert!(r.contains_range(&(10..20)));
    assert!(!r.contains_range(&(4..11)));
    assert!(r.overlaps(&(4..11)));
    assert!(!r.overlaps(&(5..10)));
}

#[test]
fn immutable_view() {
    let r: Ranges<i32> = Ranges::from_ranges(vec![10..20, 1..5, 3..7]);
    let frozen: ImmutableRanges<_> = r.into();
    assert_eq!(frozen.as_slice(), &[(1, 7), (10, 20)]);

    assert!(!frozen.contains(&0));
    assert!(frozen.contains(&1));
    assert!(frozen.contains(&6));
    assert!(!frozen.contains(&7));
    assert!(frozen.contains(&19));
    assert!(!frozen.contains(&20));
    assert_eq!(frozen.covering(&15), Some(&(10, 20)));
    assert_eq!(frozen.covering_index(&3), Some(0));

    assert!(frozen.overlaps(&(6..11)));
    assert!(!frozen.overlaps(&(7..10)));
    assert!(frozen.contains_range(&(2..7)));
    assert!(!frozen.contains_range(&(2..8)));
}

#[test]
fn immutable_from_iter() {
    let input = vec![10..20, 3..7, 1..5, 5..5, 7..10, 3..4, 30..31];
    let frozen: ImmutableRanges<i32> = ImmutableRanges::from_ranges(input.clone());
    assert_eq!(frozen.as_slice(), &[(1, 20), (30, 31)]);

    assert_eq!(frozen, Ranges::from_ranges(input).into());

    let (lo, hi) = (3, 1);
    let empty: ImmutableRanges<i32> = ImmutableRanges::from_ranges(vec![5..5, lo..hi]);
    assert!(empty.is_empty());
}

#[test]
fn immutable_from_iter_touching_boundary() {
    let touching = vec![1..3, 3..5];
    let frozen: ImmutableRanges<i32> = ImmutableRanges::from_ranges(touching.clone());
    assert_eq!(frozen.as_slice(), &[(1, 5)]);
    assert_eq!(frozen, Ranges::from_ranges(touching).into());

    let disjoint = vec![1..2, 3..4];
    let frozen: ImmutableRanges<i32> = ImmutableRanges::from_ranges(disjoint.clone());
    assert_eq!(frozen.as_slice(), &[(1, 2), (3, 4)]);
    assert_eq!(frozen, Ranges::from_ranges(disjoint).into());
}

#[test]
fn immutable_from_iter_swallows_chain() {
    let input = vec![0..100, 10..20, 30..40, 50..60];
    let frozen: ImmutableRanges<i32> = ImmutableRanges::from_ranges(input.clone());
    assert_eq!(frozen.as_slice(), &[(0, 100)]);
    assert_eq!(frozen, Ranges::from_ranges(input).into());

    let input = vec![0..10, 5..20, 15..30, 100..101];
    let frozen: ImmutableRanges<i32> = ImmutableRanges::from_ranges(input.clone());
    assert_eq!(frozen.as_slice(), &[(0, 30), (100, 101)]);
    assert_eq!(frozen, Ranges::from_ranges(input).into());
}

#[derive(PartialEq, Eq, PartialOrd, Ord)]
struct NoClone(i32);

#[test]
fn immutable_from_iter_without_clone() {
    let r: ImmutableRanges<NoClone> =
        ImmutableRanges::from_ranges(vec![NoClone(1)..NoClone(3), NoClone(3)..NoClone(5)]);
    assert_eq!(r.len(), 1);
}

#[test]
fn works_with_non_integer_keys() {
    let mut r = Ranges::new();
    r.insert("a".to_string().."m".to_string());
    r.insert("m".to_string().."z".to_string());
    assert_eq!(r.len(), 1);
    assert!(r.contains(&"q".to_string()));
}

#[test]
fn clear_empties_and_extend_merges() {
    let mut r: Ranges<i32> = Ranges::from_ranges(vec![1..3]);
    r.extend(vec![3..6, 10..12]);
    assert_eq!(vec_of(&r), vec![(1, 6), (10, 12)]);
    r.clear();
    assert!(r.is_empty());
    assert_eq!(r.len(), 0);
}

#[test]
fn conversion_round_trip_keeps_intervals() {
    let r: Ranges<i32> = Ranges::from_ranges(vec![4..9, 1..2]);
    let frozen: ImmutableRanges<i32> = r.into();
    let back: Ranges<i32> = frozen.into();
    assert_eq!(vec_of(&back), vec![(1, 2), (4, 9)]);
}

#[test]
fn remove_then_insert_restores_coverage() {
    let mut r: Ranges<i32> = Ranges::from_ranges(vec![0..10]);
    r.remove(4..6);
    assert!(!r.contains(&4));
    assert!(!r.contains(&5));
    r.insert(4..6);
    assert_eq!(vec_of(&r), vec![(0, 10)]);
}

#[test]
fn ranges_default_is_empty() {
    let r: Ranges<i32> = Ranges::default();
    assert!(r.is_empty());
    let f: ImmutableRanges<i32> = ImmutableRanges::default();
    assert!(f.is_empty());
    assert_eq!(f.covering_index(&0), None);
}

#[test]
fn frozen_from_ranges_matches_the_mutable_path() {
    let input = vec![0..100, 10..20, 30..40, 50..60, 200..210, 205..230, 150..150];
    let direct = ImmutableRanges::from_ranges(input.clone());
    let via = ImmutableRanges::from(Ranges::from_ranges(input));
    assert_eq!(direct.as_slice(), via.as_slice());
    assert_eq!(direct.as_slice(), &[(0, 100), (200, 230)]);
}

#[test]
fn frozen_and_thawed_answer_alike() {
    let f = ImmutableRanges::from_ranges(vec![1..7, 10..20]);
    let r = Ranges::from(f.clone());
    for (s, e) in [(2, 7), (2, 8), (5, 5), (10, 20), (0, 1), (19, 21)] {
        assert_eq!(f.contains_range(&(s..e)), r.contains_range(&(s..e)));
        assert_eq!(f.overlaps(&(s..e)), r.overlaps(&(s..e)));
    }
    assert!(f.contains_range(&(2..7)));
    assert!(!f.contains_range(&(2..8)));
}
