use cplib::blocks::{abs_sum, frequency, max, nearest, relay};
use cplib::div_conquer::DivConquer;

#[test]
fn block_max_matches_naive() {
    let v: Vec<u32> = vec![5, 1, 9, 3, 3, 0, 7, 2, 8, 6, 4];
    let mut dc: DivConquer<
        3,
        u32,
        u32,
        u32,
        (),
        fn(&[u32]) -> u32,
        fn(&[u32], &()) -> u32,
        fn(&u32, &()) -> u32,
        fn(u32, u32) -> u32,
    > = DivConquer::new(v.clone(), max::cacher, max::resolver, max::cache_resolver, max::merger);
    let im = dc.into_immut();
    for l in 0..=v.len() {
        for r in l..=v.len() {
            assert_eq!(im.resolve(l..r, &()), v[l..r].iter().copied().max().unwrap_or(0));
        }
    }
}

#[test]
fn block_max_direct() {
    assert_eq!(max::cacher(&[]), 0);
    assert_eq!(max::resolver(&[4, 8, 2], &()), 8);
    assert_eq!(max::cache_resolver(&7, &()), 7);
    assert_eq!(max::merger(3, 11), 11);
}

#[test]
fn block_abs_sum_matches_naive() {
    let v: Vec<i64> = vec![5, -2, 9, 9, 0, -7, 3, 1_000_000_000, -1_000_000_000, 4];
    let mut dc: DivConquer<
        4,
        i64,
        abs_sum::Cache,
        i64,
        i64,
        fn(&[i64]) -> abs_sum::Cache,
        fn(&[i64], &i64) -> i64,
        fn(&abs_sum::Cache, &i64) -> i64,
        fn(i64, i64) -> i64,
    > = DivConquer::new(v.clone(), abs_sum::cacher, abs_sum::resolver, abs_sum::cache_resolver, abs_sum::merger);
    let im = dc.into_immut();
    for x in [-1_000_000_000i64, -3, 0, 4, 9, 1_000_000_000] {
        for l in 0..=v.len() {
            for r in l..=v.len() {
                let naive: i64 = v[l..r].iter().map(|&a| (a - x).abs()).sum();
                assert_eq!(im.resolve(l..r, &x), naive);
            }
        }
    }
}

#[test]
fn block_abs_sum_cache() {
    let c = abs_sum::cacher(&[3, -1, 2]);
    assert_eq!(c.0, vec![-1, 2, 3]);
    assert_eq!(c.1, vec![0, -1, 1, 4]);
    assert_eq!(abs_sum::cache_resolver(&c, &2), 4);
    assert_eq!(abs_sum::merger(2, 5), 7);
}

#[test]
fn block_frequency_matches_naive() {
    let v: Vec<u32> = vec![1, 2, 1, 3, 1, 2, 2, 0, 5, 1];
    let mut dc: DivConquer<
        3,
        u32,
        frequency::Cache,
        usize,
        u32,
        fn(&[u32]) -> frequency::Cache,
        fn(&[u32], &u32) -> usize,
        fn(&frequency::Cache, &u32) -> usize,
        fn(usize, usize) -> usize,
    > = DivConquer::new(v.clone(), frequency::cacher, frequency::resolver, frequency::cache_resolver, frequency::merger);
    let im = dc.into_immut();
    for x in 0..7u32 {
        for l in 0..=v.len() {
            for r in l..=v.len() {
                assert_eq!(im.resolve(l..r, &x), v[l..r].iter().filter(|&&a| a == x).count());
            }
        }
    }
}

#[test]
fn block_frequency_cache() {
    let c = frequency::cacher(&[4, 1, 4, 4]);
    assert_eq!(frequency::cache_resolver(&c, &4), 3);
    assert_eq!(frequency::cache_resolver(&c, &1), 1);
    assert_eq!(frequency::cache_resolver(&c, &2), 0);
    assert_eq!(frequency::resolver(&[4, 1, 4], &4), 2);
}

#[test]
fn block_nearest_matches_naive() {
    let v: Vec<i32> = vec![10, 3, 25, 7, 7, 100, 0, 42];
    let mut dc: DivConquer<
        3,
        i32,
        nearest::Cache,
        nearest::Dist,
        i32,
        fn(&[i32]) -> nearest::Cache,
        fn(&[i32], &i32) -> nearest::Dist,
        fn(&nearest::Cache, &i32) -> nearest::Dist,
        fn(nearest::Dist, nearest::Dist) -> nearest::Dist,
    > = DivConquer::new(v.clone(), nearest::cacher, nearest::resolver, nearest::cache_resolver, nearest::merger);
    let im = dc.into_immut();
    for x in [0i32, 5, 8, 30, 1000] {
        for l in 0..=v.len() {
            for r in l..=v.len() {
                let naive = v[l..r].iter().map(|&a| (a - x).abs()).min().unwrap_or(i32::MAX);
                assert_eq!(im.resolve(l..r, &x).0, naive);
            }
        }
    }
}

#[test]
fn block_nearest_default_is_far() {
    assert_eq!(nearest::Dist::default().0, i32::MAX);
    assert_eq!(nearest::merger(nearest::Dist(4), nearest::Dist(2)).0, 2);
}

fn perm(p: &[u8]) -> relay::Perm {
    let mut q = relay::Perm::default();
    for (i, &x) in p.iter().enumerate() {
        q.0[i] = x;
    }
    q
}

#[test]
fn relay_composes_in_order() {
    let a = perm(&[1, 2, 0]);
    let b = perm(&[0, 2, 1]);
    let ab = relay::merger(a, b);
    assert_eq!(&ab.0[..3], &[2, 1, 0]);
    let id = relay::Perm::default();
    assert_eq!(relay::merger(id, a).0, a.0);
    assert_eq!(relay::cacher(&[a, b]).0, ab.0);
    assert_eq!(relay::cacher(&[]).0, id.0);
}

#[test]
fn relay_blocks_match_folding() {
    let ps: Vec<relay::Perm> = vec![
        perm(&[1, 0, 2, 3]),
        perm(&[0, 2, 1, 3]),
        perm(&[3, 2, 1, 0]),
        perm(&[1, 2, 3, 0]),
        perm(&[0, 1, 3, 2]),
    ];
    let mut dc: DivConquer<
        2,
        relay::Perm,
        relay::Perm,
        relay::Perm,
        (),
        fn(&[relay::Perm]) -> relay::Perm,
        fn(&[relay::Perm], &()) -> relay::Perm,
        fn(&relay::Perm, &()) -> relay::Perm,
        fn(relay::Perm, relay::Perm) -> relay::Perm,
    > = DivConquer::new(ps.clone(), relay::cacher, relay::resolver, relay::cache_resolver, relay::merger);
    let im = dc.into_immut();
    for l in 0..=ps.len() {
        for r in l..=ps.len() {
            let naive = ps[l..r].iter().fold(relay::Perm::default(), |acc, &p| relay::merger(acc, p));
            assert_eq!(im.resolve(l..r, &()).0, naive.0);
        }
    }
}

#[test]
fn count_in_ranges_counts_each_query() {
    let a: Vec<u32> = vec![3, 1, 3, 3, 2, 1, 3];
    let q = vec![(0, 7, 3), (1, 4, 3), (2, 2, 3), (4, 7, 1), (0, 7, 9)];
    assert_eq!(frequency::count_in_ranges(a.clone(), &q), Some(vec![4, 2, 0, 1, 0]));
    assert_eq!(frequency::count_in_ranges(a.clone(), &vec![(0, 8, 3)]), None);
    assert_eq!(frequency::count_in_ranges(a, &vec![(3, 2, 3)]), None);
}

#[test]
fn nearest_in_ranges_answers_each_query() {
    let xs: Vec<i32> = vec![10, 3, 25, 7, 40];
    let q = vec![(0, 5, 20), (1, 4, 6), (2, 3, 30), (3, 3, 5), (0, 2, 0)];
    assert_eq!(
        nearest::nearest_in_ranges(xs.clone(), &q),
        Some(vec![5, 1, 5, i32::MAX, 3])
    );
    assert_eq!(nearest::nearest_in_ranges(xs.clone(), &vec![(0, 6, 1)]), None);
    assert_eq!(nearest::nearest_in_ranges(xs, &vec![(0, 1, -1)]), None);
    assert_eq!(nearest::nearest_in_ranges(vec![1, -2], &vec![]), None);
}
