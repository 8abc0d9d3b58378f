use consensus_sim::tally::VoteTally;

#[test]
fn empty_tally_counts_nothing() {
    let t = VoteTally::new();
    assert_eq!(t.len(), 0);
    assert_eq!(t.count_matching(42), 0);
    assert!(!t.reaches_quorum(1, 42));
    assert!(t.reaches_quorum(0, 42));
}

#[test]
fn later_vote_of_a_sender_replaces_earlier() {
    let mut t = VoteTally::new();
    t.insert(1, 5);
    t.insert(2, 5);
    t.insert(1, 6);
    assert_eq!(t.len(), 2);
    assert_eq!(t.count_matching(5), 1);
    assert_eq!(t.count_matching(6), 1);
    assert_eq!(t.count_matching(7), 0);
}

#[test]
fn quorum_needs_matching_votes() {
    let mut t = VoteTally::new();
    t.insert(0, 42);
    t.insert(1, 42);
    t.insert(2, 7);
    assert!(!t.reaches_quorum(3, 42));
    t.insert(3, 42);
    assert!(t.reaches_quorum(3, 42));
    assert!(!t.reaches_quorum(3, 7));
}

#[test]
fn clear_forgets_every_vote() {
    let mut t = VoteTally::new();
    t.insert(0, 1);
    t.insert(1, 1);
    t.clear();
    assert_eq!(t.len(), 0);
    assert_eq!(t.count_matching(1), 0);
}
