use cplib::vec2d::Array2d;

fn seq(h: usize, w: usize) -> Array2d<usize> {
    Array2d { w, body: (0..h * w).collect() }
}

#[test]
fn shape() {
    let a = seq(3, 4);
    assert_eq!(a.height(), 3);
    assert_eq!(a.width(), 4);
    assert_eq!(Array2d::<usize>::with_capacity(3, 4).height(), 0);
}

#[test]
fn row_index_returns_one_row() {
    let a = seq(3, 4);
    assert_eq!(a.row(0), [0, 1, 2, 3]);
    assert_eq!(a.row(1), [4, 5, 6, 7]);
    assert_eq!(a.row(2), [8, 9, 10, 11]);
}

#[test]
fn element_index_like_nested_array() {
    let a = seq(3, 4);
    assert_eq!(*a.get(0, 0), 0);
    assert_eq!(*a.get(1, 2), 6);
    assert_eq!(*a.get(2, 3), 11);
    assert_eq!(a.row(1)[2], 6);
}

#[test]
fn row_ranges() {
    let a = seq(3, 4);
    let all: Vec<usize> = (0..12).collect();
    assert_eq!(a.rows(1..2), [4, 5, 6, 7]);
    assert_eq!(a.rows(0..2), [0, 1, 2, 3, 4, 5, 6, 7]);
    assert_eq!(a.rows(1..a.height()), [4, 5, 6, 7, 8, 9, 10, 11]);
    assert_eq!(a.rows(0..a.height()), &all[..]);
    assert_eq!(a.rows(0..1 + 1), [0, 1, 2, 3, 4, 5, 6, 7]);
    assert_eq!(a.rows(0..0 + 1), [0, 1, 2, 3]);
}

#[test]
fn range_slices_split_back_into_rows() {
    let a = seq(3, 4);
    let rows: Vec<&[usize]> = a.rows(1..a.height()).chunks(a.width()).collect();
    assert_eq!(rows, vec![a.row(1), a.row(2)]);
}

#[test]
fn empty_ranges() {
    let a = seq(3, 4);
    assert!(a.rows(2..2).is_empty());
    assert!(a.rows(0..0).is_empty());
    assert!(a.rows(3..a.height()).is_empty());
    let z = Array2d::<usize> { w: 0, body: Vec::new() };
    assert!(z.rows(0..z.height()).is_empty());
}

#[test]
fn index_mut_writes_through() {
    let mut a = seq(2, 3);
    a.set(0, 1, 100);
    a.set(1, 2, 200);
    assert_eq!(a.row(0), [0, 100, 2]);
    assert_eq!(a.row(1), [3, 4, 200]);

    for r in 0..a.height() {
        for c in 0..a.width() {
            a.set(r, c, 0);
        }
    }
    assert_eq!(a.rows(0..a.height()), [0; 6]);
}

#[test]
fn partial_rows_do_not_count() {
    let a = Array2d { w: 4, body: (0..10usize).collect() };
    assert_eq!(a.height(), 2);
    assert_eq!(a.rows(0..2), [0, 1, 2, 3, 4, 5, 6, 7]);
}
