use std::collections::HashSet;

use evefrontier_lib::gates::build_adjacency;

fn ids(v: &[i64]) -> HashSet<i64> {
    v.iter().copied().collect()
}

#[test]
fn jumps_join_systems_both_ways() {
    let (adj, skipped) = build_adjacency(&ids(&[1, 2, 3]), &vec![(1, 2), (2, 3)]);
    assert_eq!(adj.len(), 3);
    assert_eq!(adj[&1], vec![2]);
    assert_eq!(adj[&2], vec![1, 3]);
    assert_eq!(adj[&3], vec![2]);
    assert_eq!(skipped, 0);
}

#[test]
fn neighbours_are_sorted_without_repeats() {
    let (adj, _) = build_adjacency(&ids(&[1, 5, 7, 9]), &vec![(5, 9), (5, 1), (7, 5), (9, 5), (1, 5)]);
    assert_eq!(adj[&5], vec![1, 7, 9]);
    assert_eq!(adj[&1], vec![5]);
    assert_eq!(adj[&9], vec![5]);
}

#[test]
fn jumps_to_unknown_systems_are_skipped() {
    let (adj, skipped) = build_adjacency(&ids(&[1, 2]), &vec![(1, 2), (1, 99), (42, 2), (42, 43)]);
    assert_eq!(skipped, 3);
    assert_eq!(adj.len(), 2);
    assert!(!adj.contains_key(&99));
    assert!(!adj.contains_key(&42));
    assert_eq!(adj[&1], vec![2]);
}

#[test]
fn systems_without_gates_have_no_list() {
    let (adj, skipped) = build_adjacency(&ids(&[1, 2, 3]), &vec![]);
    assert!(adj.is_empty());
    assert_eq!(skipped, 0);
    let (adj, _) = build_adjacency(&ids(&[4]), &vec![(4, 4)]);
    assert_eq!(adj[&4], vec![4]);
}
