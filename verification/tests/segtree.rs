use cplib::segtree::{Additive, Segtree};

fn naive_sum(v: &[i64], l: usize, r: usize) -> i64 {
    v[l..r].iter().sum()
}

#[test]
fn prod_matches_naive() {
    let v: Vec<i64> = (0..17).map(|i| i * i - 3 * i).collect();
    let seg: Segtree<Additive<i64>> = Segtree::from_vec(v.clone());
    for l in 0..=v.len() {
        for r in l..=v.len() {
            assert_eq!(seg.prod(l..r), naive_sum(&v, l, r), "prod({l}..{r})");
        }
    }
}

#[test]
fn set_then_prod() {
    let mut seg: Segtree<Additive<i64>> = Segtree::new(8);
    for i in 0..8 {
        seg.set(i, i as i64);
    }
    assert_eq!(seg.all_prod(), 28);
    assert_eq!(seg.prod(2..5), 9);
    seg.set(3, 100);
    assert_eq!(seg.get(3), 100);
    assert_eq!(seg.prod(2..5), 106);
    assert_eq!(seg.all_prod(), 125);
}

#[test]
fn range_bounds_variants() {
    let seg: Segtree<Additive<i64>> = Segtree::from_vec(vec![1, 2, 4, 8]);
    assert_eq!(seg.prod(0..seg.len()), 15);
    assert_eq!(seg.prod(1..seg.len()), 14);
    assert_eq!(seg.prod(0..2), 3);
    assert_eq!(seg.prod(1..2 + 1), 6);
    assert_eq!(seg.prod(2..2), 0);
}

#[test]
fn empty_segtree() {
    let seg: Segtree<Additive<i64>> = Segtree::new(0);
    assert!(seg.is_empty());
    assert_eq!(seg.all_prod(), 0);
    assert_eq!(seg.prod(0..seg.len()), 0);
}

#[test]
fn wrapping_sum_on_overflow() {
    let seg: Segtree<Additive<i64>> = Segtree::from_vec(vec![i64::MAX, 1, -5]);
    assert_eq!(seg.prod(0..2), i64::MIN);
    assert_eq!(seg.prod(0..3), i64::MAX - 4);
}

#[test]
fn from_slice_and_get() {
    let seg: Segtree<Additive<i64>> = Segtree::from_slice(&[5, -3, 7]);
    assert_eq!(seg.len(), 3);
    assert_eq!(seg.get(0), 5);
    assert_eq!(seg.get(2), 7);
    assert_eq!(seg.all_prod(), 9);
}
