use grafdag::rank::rank;

#[test]
fn chain_and_cycle() {
    let r = rank(4, &[(0, 1), (1, 2), (2, 0)], &[u64::MAX; 4]);
    assert_eq!(r.islands.len(), 2);
    assert_eq!(r.rank[0], 0);
    assert_eq!(r.rank[1], 1);
    assert_eq!(r.rank[2], 2);
    assert_eq!(r.n_ranks[r.island[0]], 3);
    assert_eq!(r.rank[3], 0);
}

#[test]
fn source_pulled_down() {
    let r = rank(4, &[(0, 1), (1, 2), (3, 2)], &[u64::MAX; 4]);
    assert_eq!(r.rank[3], 1);
}

#[test]
fn rank_of_nothing() {
    let r = rank(0, &[], &[]);
    assert!(r.islands.is_empty());
    assert!(r.rank.is_empty());
    assert!(r.n_ranks.is_empty());
}

#[test]
fn islands_follow_previous_order() {
    // Islands {0, 1} and {2}; node 2 came first before.
    let r = rank(3, &[(0, 1)], &[5, 7, 1]);
    assert_eq!(r.islands, vec![vec![2], vec![0, 1]]);
    assert_eq!(r.island, vec![1, 1, 0]);
    assert_eq!(r.n_ranks, vec![1, 2]);
    // With equal keys the first member decides.
    let r = rank(3, &[(0, 1)], &[u64::MAX; 3]);
    assert_eq!(r.islands, vec![vec![0, 1], vec![2]]);
}

#[test]
fn self_loops_are_ignored() {
    let r = rank(2, &[(0, 0), (1, 1)], &[0, 0]);
    assert_eq!(r.islands, vec![vec![0], vec![1]]);
    assert_eq!(r.rank, vec![0, 0]);
    assert_eq!(r.n_ranks, vec![1, 1]);
}

#[test]
fn longest_path_wins() {
    // 0 -> 1 -> 2 and a shortcut 0 -> 2.
    let r = rank(3, &[(0, 2), (0, 1), (1, 2)], &[0, 0, 0]);
    assert_eq!(r.rank, vec![0, 1, 2]);
    assert_eq!(r.n_ranks, vec![3]);
}

#[test]
fn two_cycle_and_parallel_edges() {
    let r = rank(2, &[(0, 1), (1, 0), (0, 1)], &[0, 0]);
    assert_eq!(r.rank, vec![0, 1]);
    assert_eq!(r.n_ranks, vec![2]);
}

#[test]
fn every_edge_spans_ranks() {
    let edges = [(0, 1), (1, 2), (2, 3), (3, 1), (4, 2), (5, 6), (6, 5), (0, 4)];
    let r = rank(7, &edges, &[3, 3, 3, 3, 3, 2, 2]);
    for (a, b) in edges.iter() {
        assert_eq!(r.island[*a], r.island[*b]);
        assert_ne!(r.rank[*a], r.rank[*b]);
    }
    assert_eq!(r.islands, vec![vec![5, 6], vec![0, 1, 2, 3, 4]]);
    for (k, ms) in r.islands.iter().enumerate() {
        assert!(ms.iter().any(|m| r.rank[*m] == 0));
        let top = ms.iter().map(|m| r.rank[*m]).max().unwrap();
        assert_eq!(r.n_ranks[k], top + 1);
    }
}
