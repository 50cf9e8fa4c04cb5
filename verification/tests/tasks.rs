use cplib::tasks::fib_pairs::{coefficients, terms, LIMIT};
use cplib::tasks::lex_next::descending_from;
use cplib::tasks::perm_cost::dist;
use cplib::tasks::collapse::collapse_runs;
use cplib::tasks::components::answer_queries;
use cplib::tasks::fib_search::smallest_pair;
use cplib::tasks::pattern_count::total_occurrences;
use cplib::tasks::perm_cost::cyclic_cost;
use cplib::tasks::relay_view::{answer_relay, displacement, finishing_order, RelayAnswer, RelayEvent};
use cplib::tasks::repeat_run::longest_repeat;
use cplib::tasks::second_largest::second_largest;
use cplib::tasks::streak::longest_streaks;
use cplib::blocks::relay::Perm;


#[test]
fn terms_follow_the_recurrence() {
    let t = terms(2, 5);
    assert_eq!(t.len(), LIMIT);
    assert_eq!(&t[..5], &[2, 5, 7, 12, 19]);
    for k in 2..LIMIT {
        assert_eq!(t[k], t[k - 1] + t[k - 2]);
    }
}

#[test]
fn coefficients_give_the_terms() {
    let c = coefficients();
    assert_eq!(c.len(), LIMIT);
    assert_eq!(&c[..5], &[(1, 0), (0, 1), (1, 1), (1, 2), (2, 3)]);
    let t = terms(3, 4);
    for k in 0..LIMIT {
        assert_eq!(c[k].0 * 3 + c[k].1 * 4, t[k] as i128);
    }
}

#[test]
fn descending_from_puts_t_first() {
    assert_eq!(descending_from(&[3, 1, 4, 2], 3), vec![3, 4, 2, 1]);
    assert_eq!(descending_from(&[7], 7), vec![7]);
    assert_eq!(descending_from(&[5, 1, 2], 2), vec![2, 5, 1]);
}

#[test]
fn dist_sums_absolute_differences() {
    assert_eq!(dist(&[1, 5], &[3, 2]), 5);
    assert_eq!(dist(&[], &[]), 0);
    assert_eq!(dist(&[7, 7, 7], &[7, 7, 7]), 0);
}

#[test]
fn collapse_keeps_one_letter_per_run() {
    assert_eq!(collapse_runs(b"aabbbcaa".to_vec()), b"abca".to_vec());
    assert_eq!(collapse_runs(Vec::new()), Vec::<u8>::new());
}

#[test]
fn total_occurrences_counts_overlaps() {
    let pats = vec![b"AA".to_vec(), b"A".to_vec(), b"B".to_vec()];
    assert_eq!(total_occurrences(b"AAAA", &pats), 7);
}

#[test]
fn longest_repeat_counts_joined_occurrences() {
    assert_eq!(longest_repeat(b"yukicoderyukicoderxyukicoder", b"yukicoder"), 2);
    assert_eq!(longest_repeat(b"abc", b"yukicoder"), 0);
    assert_eq!(longest_repeat(b"yukicoderyukicoderyukicoder", b"yukicoder"), 3);
}

#[test]
fn second_largest_arrangement() {
    assert_eq!(second_largest(b"123"), Some(b"312".to_vec()));
    assert_eq!(second_largest(b"1201"), Some(b"2101".to_vec()));
    assert_eq!(second_largest(b"111"), None);
    assert_eq!(second_largest(b"100"), None);
    assert_eq!(second_largest(b"9"), None);
}

#[test]
fn cyclic_cost_wraps_around() {
    assert_eq!(cyclic_cost(vec![1, 2, 3], &[1, 2, 3], 3), 4);
    assert_eq!(cyclic_cost(vec![1, 2, 3], &[1, 2, 3], 7), 16);
    assert_eq!(cyclic_cost(vec![3, 1, 2], &[1, 2, 3], 0), 0);
}

#[test]
fn streaks_grow_as_jobs_join() {
    assert_eq!(longest_streaks(&vec![(1, 3), (5, 6), (4, 4), (10, 10)]), vec![3, 3, 6, 6]);
}

#[test]
fn components_follow_edge_changes() {
    let qs = vec![(1, 1, 3), (3, 1, 3), (4, 2, 0), (2, 2, 3), (3, 3, 1), (4, 3, 0), (4, 1, 0)];
    assert_eq!(answer_queries(&qs), vec![None, Some(1), Some(3), None, Some(0), Some(1), Some(2)]);
}

#[test]
fn smallest_pair_examples() {
    assert_eq!(smallest_pair(2, 3, 5), Some((1, 1)));
    assert_eq!(smallest_pair(4, 7, 11), Some((1, 3)));
    assert_eq!(smallest_pair(10, 10, 10), Some((1, 9)));
    assert_eq!(smallest_pair(0, 0, 0), None);
    assert_eq!(smallest_pair(1, 1, 1), Some((1, 1)));
}

#[test]
fn relay_results() {
    let mut t = Perm::default();
    t.0[0] = 2;
    t.0[1] = 0;
    t.0[2] = 1;
    assert_eq!(finishing_order(&t, 3), vec![2, 3, 1]);
    assert_eq!(displacement(&t, 3), 4);
    assert_eq!(displacement(&Perm::default(), 18), 0);
}

fn order_of(a: &RelayAnswer) -> Vec<usize> {
    match a {
        RelayAnswer::Order(v) => v.clone(),
        _ => panic!("expected an order"),
    }
}

fn moved_of(a: &RelayAnswer) -> usize {
    match a {
        RelayAnswer::Moved(x) => *x,
        _ => panic!("expected a movement"),
    }
}

#[test]
fn relay_events_answered_in_turn() {
    let mut p = Perm::default();
    p.0[0] = 2;
    p.0[1] = 0;
    p.0[2] = 1;
    let events = vec![
        RelayEvent::Order(2),
        RelayEvent::Change(0, p),
        RelayEvent::Order(1),
        RelayEvent::Moved(0, 1),
        RelayEvent::Moved(1, 2),
        RelayEvent::Change(1, p),
        RelayEvent::Order(2),
        RelayEvent::Moved(0, 2),
        RelayEvent::Order(0),
    ];
    let ans = answer_relay(3, 2, &events).unwrap();
    assert_eq!(ans.len(), events.len());
    assert_eq!(order_of(&ans[0]), vec![1, 2, 3]);
    assert!(matches!(ans[1], RelayAnswer::Done));
    assert_eq!(order_of(&ans[2]), vec![2, 3, 1]);
    assert_eq!(moved_of(&ans[3]), 4);
    assert_eq!(moved_of(&ans[4]), 0);
    assert_eq!(order_of(&ans[6]), vec![3, 1, 2]);
    assert_eq!(moved_of(&ans[7]), 4);
    assert_eq!(order_of(&ans[8]), vec![1, 2, 3]);
}

#[test]
fn relay_refuses_bad_events() {
    let p = Perm::default();
    assert!(answer_relay(3, 2, &vec![RelayEvent::Change(2, p)]).is_none());
    assert!(answer_relay(3, 2, &vec![RelayEvent::Moved(2, 1)]).is_none());
    assert!(answer_relay(3, 2, &vec![RelayEvent::Order(3)]).is_none());
    assert!(answer_relay(19, 2, &vec![]).is_none());
    let mut bad = Perm::default();
    bad.0[0] = 18;
    assert!(answer_relay(3, 2, &vec![RelayEvent::Change(0, bad)]).is_none());
}
