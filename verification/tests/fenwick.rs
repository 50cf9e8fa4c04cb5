use cplib::fenwick::Fenwick;

#[test]
fn prefix_sums_follow_updates() {
    let mut f = Fenwick::new(10);
    let mut naive = [0u64; 10];
    let steps = [3usize, 7, 3, 0, 9, 5, 5, 5, 1, 8];
    for &i in &steps {
        f.add(i);
        naive[i] += 1;
        for k in 0..=10 {
            assert_eq!(f.sum(k), naive[..k].iter().sum::<u64>());
        }
    }
    for &i in &[5usize, 3, 9] {
        f.sub(i);
        naive[i] -= 1;
        for k in 0..=10 {
            assert_eq!(f.sum(k), naive[..k].iter().sum::<u64>());
        }
    }
}

#[test]
fn empty_tree_sums_to_zero() {
    let f = Fenwick::new(0);
    assert_eq!(f.sum(0), 0);
    let g = Fenwick::new(5);
    assert_eq!(g.sum(5), 0);
}
