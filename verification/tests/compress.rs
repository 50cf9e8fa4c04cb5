use cplib::compress::{compress, position, sort_by_key, sort_values};

#[test]
fn sorts_values() {
    assert_eq!(sort_values(&[5, -1, 3, 3, 0]), vec![-1, 0, 3, 3, 5]);
    assert_eq!(sort_values(&[]), Vec::<i64>::new());
}

#[test]
fn sorts_by_key() {
    assert_eq!(sort_by_key(&[9u32, 2, 7, 2]), vec![2, 2, 7, 9]);
    assert_eq!(sort_by_key(&[3usize, 1]), vec![1, 3]);
    assert_eq!(sort_by_key(&[-4i32, 8, -9]), vec![-9, -4, 8]);
}

#[test]
fn compresses_to_ranks() {
    let a = vec![30, 10, 20, 10, 30];
    let (vals, rank) = compress(&a);
    assert_eq!(vals, vec![10, 20, 30]);
    assert_eq!(rank, vec![2, 0, 1, 0, 2]);
    assert_eq!(position(&vals, 20), 1);
}
