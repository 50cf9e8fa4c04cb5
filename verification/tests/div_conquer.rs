use cplib::div_conquer::{DivConquer, ImmutableDivConquer};

type SumDc<const N: usize> = DivConquer<
    N,
    i64,
    i64,
    i64,
    (),
    fn(&[i64]) -> i64,
    fn(&[i64], &()) -> i64,
    fn(&i64, &()) -> i64,
    fn(i64, i64) -> i64,
>;

fn block_sum(s: &[i64]) -> i64 {
    s.iter().sum()
}
fn part_sum(s: &[i64], _: &()) -> i64 {
    s.iter().sum()
}
fn cached(c: &i64, _: &()) -> i64 {
    *c
}
fn add(a: i64, b: i64) -> i64 {
    a + b
}

fn sum<const N: usize>(v: Vec<i64>) -> SumDc<N> {
    DivConquer::new(v, block_sum, part_sum, cached, add)
}

fn assert_all_ranges<const N: usize>(dc: &mut SumDc<N>, naive: &[i64]) {
    let im = dc.into_immut();
    for l in 0..=naive.len() {
        for r in l..=naive.len() {
            assert_eq!(im.resolve(l..r, &()), naive[l..r].iter().sum::<i64>(), "range {l}..{r}");
        }
    }
}

#[test]
fn push_crosses_block_boundary() {
    let mut dc = sum::<4>(vec![]);
    let mut naive = vec![];
    for x in 1..=12 {
        dc.push(x);
        naive.push(x);
        assert_all_ranges(&mut dc, &naive);
    }
}

#[test]
fn pop_shrinks_blocks() {
    let mut naive = (1..=9).collect::<Vec<i64>>();
    let mut dc = sum::<4>(naive.clone());
    while let Some(x) = dc.pop() {
        assert_eq!(Some(x), naive.pop());
        assert_all_ranges(&mut dc, &naive);
    }
    assert!(naive.is_empty());
}

#[test]
fn set_rebuilds_partial_last_block() {
    let mut naive = vec![1; 6];
    let mut dc = sum::<4>(naive.clone());
    dc.set(5, 100);
    naive[5] = 100;
    assert_all_ranges(&mut dc, &naive);
}

#[test]
fn block_size_one() {
    let mut dc = sum::<1>(vec![]);
    let mut naive = vec![];
    for x in 1..=4 {
        dc.push(x);
        naive.push(x);
        assert_all_ranges(&mut dc, &naive);
    }
    while dc.pop().is_some() {
        naive.pop();
        assert_all_ranges(&mut dc, &naive);
    }
}

#[test]
fn immutable_view_over_borrowed_slice() {
    let v: Vec<i64> = (1..=10).collect();
    let mut cache: Vec<i64> = Vec::new();
    let im: ImmutableDivConquer<
        3,
        i64,
        i64,
        i64,
        (),
        fn(&[i64], &()) -> i64,
        fn(&i64, &()) -> i64,
        fn(i64, i64) -> i64,
    > = ImmutableDivConquer::new(
        &v,
        &mut cache,
        block_sum as fn(&[i64]) -> i64,
        part_sum,
        cached,
        add,
    );
    assert_eq!(im.resolve(2..9, &()), (3..=9).sum::<i64>());
    assert_eq!(im.resolve(0..10, &()), 55);
    assert_eq!(im.resolve(4..4, &()), 0);
}
