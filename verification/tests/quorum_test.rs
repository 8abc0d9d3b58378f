use consensus_sim::quorum::{fault_tolerance, node_ids, quorum_size};

#[test]
fn quorum_of_four_nodes_is_three() {
    // f = 1, quorum = 3, n = 4
    assert_eq!(fault_tolerance(4), 1);
    assert_eq!(quorum_size(4), 3);
}

#[test]
fn quorum_of_seven_nodes_is_five() {
    // f = 2, quorum = 5, n = 7
    assert_eq!(fault_tolerance(7), 2);
    assert_eq!(quorum_size(7), 5);
}

#[test]
fn quorum_of_small_clusters() {
    assert_eq!(quorum_size(1), 1);
    assert_eq!(quorum_size(2), 1);
    assert_eq!(quorum_size(3), 1);
    assert_eq!(quorum_size(5), 3);
    assert_eq!(quorum_size(6), 3);
    assert_eq!(quorum_size(10), 7);
}

#[test]
fn honest_nodes_of_ten_form_a_quorum() {
    // n = 10: f = 3, quorum = 7, and 7 + 3 <= 10
    assert!(quorum_size(10) + fault_tolerance(10) <= 10);
}

#[test]
fn quorums_of_seven_nodes_overlap_in_three() {
    // two quorums of 5 among 7 nodes share at least 2 * 5 - 7 = 3 = f + 1 nodes
    assert_eq!(2 * quorum_size(7) - 7, fault_tolerance(7) + 1);
}

#[test]
fn quorums_of_five_nodes_may_share_only_one() {
    // n = 5 is not of the form 3f + 1: two quorums of 3 may share a single node
    assert_eq!(2 * quorum_size(5) - 5, 1);
    assert_eq!(fault_tolerance(5), 1);
}

#[test]
fn node_ids_count_from_zero() {
    assert_eq!(node_ids(4), vec![0, 1, 2, 3]);
    assert_eq!(node_ids(0), Vec::<u64>::new());
}
