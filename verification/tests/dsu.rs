use cplib::dsu::Dsu;

#[test]
fn merge_and_same() {
    let mut dsu = Dsu::new(5);
    assert!(!dsu.same(0, 1));
    dsu.merge(0, 1);
    dsu.merge(3, 4);
    assert!(dsu.same(0, 1));
    assert!(dsu.same(3, 4));
    assert!(!dsu.same(1, 3));
    dsu.merge(1, 4);
    assert!(dsu.same(0, 3));
}

#[test]
fn merge_returns_leader() {
    let mut dsu = Dsu::new(3);
    let leader = dsu.merge(0, 2);
    assert_eq!(leader, dsu.leader(0));
    assert_eq!(leader, dsu.leader(2));
    assert_eq!(dsu.merge(0, 2), leader);
}

#[test]
fn size_tracks_component() {
    let mut dsu = Dsu::new(4);
    assert_eq!(dsu.size(0), 1);
    dsu.merge(0, 1);
    dsu.merge(2, 3);
    assert_eq!(dsu.size(0), 2);
    dsu.merge(1, 2);
    assert_eq!(dsu.size(3), 4);
}

#[test]
fn groups_are_sorted_and_partition_vertices() {
    let mut dsu = Dsu::new(5);
    dsu.merge(0, 4);
    dsu.merge(2, 3);
    let mut groups = dsu.groups();
    groups.sort();
    assert_eq!(groups, vec![vec![0, 4], vec![1], vec![2, 3]]);
}

#[test]
fn empty_dsu() {
    let mut dsu = Dsu::new(0);
    assert!(dsu.is_empty());
    assert_eq!(dsu.len(), 0);
    assert!(dsu.groups().is_empty());
}

#[test]
fn deep_chain_does_not_overflow_stack() {
    let n = 200_000;
    let mut dsu = Dsu::new(n);
    for i in 0..n - 1 {
        dsu.merge(i, i + 1);
    }
    assert_eq!(dsu.size(0), n);
}

#[test]
fn groups_follow_leader_order() {
    // Leaders are 1 (for {0, 1}) and 2 (for {2}) and 3; groups come ordered by leader.
    let mut dsu = Dsu::new(4);
    assert_eq!(dsu.merge(1, 0), 1);
    assert_eq!(dsu.groups(), vec![vec![0, 1], vec![2], vec![3]]);
}

#[test]
fn merge_keeps_larger_leader() {
    let mut dsu = Dsu::new(4);
    let big = dsu.merge(2, 3);
    assert_eq!(big, 2);
    // the component of 2 is larger, so its leader stays the leader
    assert_eq!(dsu.merge(0, 3), 2);
    assert_eq!(dsu.leader(0), 2);
    assert_eq!(dsu.size(1), 1);
}

#[test]
fn same_follows_chains_of_merges() {
    let mut dsu = Dsu::new(6);
    dsu.merge(0, 1);
    dsu.merge(3, 4);
    dsu.merge(1, 4);
    assert!(dsu.same(0, 3));
    assert!(dsu.same(3, 0));
    assert!(dsu.same(0, 4));
    assert!(!dsu.same(0, 2));
    assert!(!dsu.same(5, 2));
    assert!(dsu.same(5, 5));
}
