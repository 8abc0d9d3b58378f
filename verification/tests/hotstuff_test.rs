use consensus_sim::hotstuff::{hotstuff_cluster, HsLeader, HsMsg, HsPhase, HsReplica};
use consensus_sim::metrics::Metrics;
use consensus_sim::network::Network;
use consensus_sim::quorum::node_ids;
use consensus_sim::step::Outgoing;
use consensus_sim::types::Value;

/// Runs a HotStuff cluster over the network, delivering each node's queued
/// messages in turn until no node has anything left to read.
fn run_hotstuff(n: usize, value: Value) -> (Metrics, Vec<Option<Value>>) {
    let (mut leader, mut replicas) = hotstuff_cluster(n, value);
    let ids = node_ids(n);
    let (net, mut receivers) = Network::<HsMsg>::new(ids.clone());
    let mut rxs: Vec<_> = ids.iter().map(|id| receivers.remove(id).unwrap()).collect();
    let mut decisions: Vec<Option<Value>> = vec![None; n];
    decisions[0] = net.perform(0, leader.start()).0;
    loop {
        let mut progress = false;
        for i in 0..n {
            if decisions[i].is_some() {
                continue;
            }
            while let Ok((from, msg)) = rxs[i].try_recv() {
                progress = true;
                let step = if i == 0 { leader.handle(from, msg) } else { replicas[i - 1].handle(from, msg) };
                if let Some(v) = net.perform(ids[i], step).0 {
                    decisions[i] = Some(v);
                    break;
                }
            }
        }
        if !progress {
            break;
        }
    }
    (Metrics::new(net.message_count(), 1, 0), decisions)
}

#[test]
fn test_hotstuff_4_nodes() {
    let (metrics, decisions) = run_hotstuff(4, 42);
    assert!(metrics.message_count > 0);
    assert_eq!(metrics.rounds, 1);
    assert!(decisions.iter().all(|d| *d == Some(42)));
}

#[test]
fn test_hotstuff_7_nodes() {
    let (metrics, decisions) = run_hotstuff(7, 99);
    assert!(metrics.message_count > 0);
    assert_eq!(metrics.rounds, 1);
    assert!(decisions.iter().all(|d| *d == Some(99)));
}

#[test]
fn test_hotstuff_n4() {
    let (metrics, decisions) = run_hotstuff(4, 42);
    assert!(metrics.message_count > 0);
    assert_eq!(metrics.rounds, 1);
    assert_eq!(decisions, vec![Some(42); 4]);
    // the leader broadcasts the proposal, two certificates and the decision
    // to 3 replicas, and each replica votes once per phase: 4 * 3 + 3 * 3
    assert_eq!(metrics.message_count, 21);
}

#[test]
fn test_hotstuff_n7() {
    let (metrics, decisions) = run_hotstuff(7, 99);
    assert!(metrics.message_count > 0);
    assert_eq!(metrics.rounds, 1);
    assert_eq!(decisions, vec![Some(99); 7]);
}

#[test]
fn test_hs_phase_eq() {
    assert_eq!(HsPhase::Prepare, HsPhase::Prepare);
    assert_ne!(HsPhase::Prepare, HsPhase::Commit);
}

#[test]
fn test_hs_msg_clone() {
    let msg = HsMsg::Prepare { value: 42 };
    let msg2 = msg.clone();
    match msg2 {
        HsMsg::Prepare { value } => assert_eq!(value, 42),
        _ => panic!("unexpected variant"),
    }
}

#[test]
fn replica_votes_to_leader_only() {
    let mut r = HsReplica::new(2, 0);
    let step = r.handle(0, HsMsg::PreCommit { value: 5 });
    assert_eq!(step.messages.len(), 1);
    assert!(matches!(
        step.messages[0],
        Outgoing::SendTo(0, HsMsg::Vote { phase: HsPhase::PreCommit, sender: 2, value: 5 })
    ));
    // messages from other nodes are ignored
    assert!(r.handle(1, HsMsg::Prepare { value: 5 }).messages.is_empty());
    assert_eq!(r.handle(1, HsMsg::Decide { value: 5 }).decision, None);
    assert_eq!(r.handle(0, HsMsg::Decide { value: 5 }).decision, Some(5));
    assert!(r.is_decided());
    assert!(r.handle(0, HsMsg::Prepare { value: 5 }).messages.is_empty());
}

#[test]
fn leader_certifies_each_phase_on_quorum() {
    let mut l = HsLeader::new(0, 42, 3);
    let start = l.start();
    assert!(matches!(start.messages[0], Outgoing::Broadcast(HsMsg::Prepare { value: 42 })));
    let vote = |phase: HsPhase, sender: u64| HsMsg::Vote { phase, sender, value: 42 };
    assert!(l.handle(1, vote(HsPhase::Prepare, 1)).messages.is_empty());
    assert!(l.handle(2, vote(HsPhase::Prepare, 2)).messages.is_empty());
    let qc = l.handle(3, vote(HsPhase::Prepare, 3));
    assert!(matches!(qc.messages[0], Outgoing::Broadcast(HsMsg::PreCommit { value: 42 })));
    // prepare votes were cleared: a late one does not certify again
    assert!(l.handle(1, vote(HsPhase::Prepare, 1)).messages.is_empty());
    l.handle(1, vote(HsPhase::PreCommit, 1));
    l.handle(2, vote(HsPhase::PreCommit, 2));
    let qc = l.handle(3, vote(HsPhase::PreCommit, 3));
    assert!(matches!(qc.messages[0], Outgoing::Broadcast(HsMsg::Commit { value: 42 })));
    l.handle(1, vote(HsPhase::Commit, 1));
    assert!(!l.is_decided());
    l.handle(2, vote(HsPhase::Commit, 2));
    let d = l.handle(3, vote(HsPhase::Commit, 3));
    assert!(matches!(d.messages[0], Outgoing::Broadcast(HsMsg::Decide { value: 42 })));
    assert_eq!(d.decision, Some(42));
    assert!(l.is_decided());
}

#[test]
fn leader_ignores_votes_for_other_values() {
    let mut l = HsLeader::new(0, 42, 2);
    l.handle(1, HsMsg::Vote { phase: HsPhase::Prepare, sender: 1, value: 7 });
    let step = l.handle(2, HsMsg::Vote { phase: HsPhase::Prepare, sender: 2, value: 42 });
    assert!(step.messages.is_empty());
    assert!(l.handle(1, HsMsg::Prepare { value: 42 }).messages.is_empty());
}

#[test]
fn hotstuff_small_clusters_decide() {
    for n in 2..=4 {
        let (metrics, decisions) = run_hotstuff(n, 7);
        assert_eq!(decisions, vec![Some(7); n]);
        assert!(metrics.message_count >= 7 * (n as u64 - 1));
    }
}

#[test]
fn hotstuff_three_nodes_certify_once() {
    // n = 3: f = 0 and the quorum is 1; the second replica's late votes
    // certify nothing again: the leader broadcasts the proposal, two
    // certificates and the decision to 2 replicas, and each replica votes
    // once per phase: 4 * 2 + 3 * 2
    let (metrics, decisions) = run_hotstuff(3, 7);
    assert_eq!(decisions, vec![Some(7); 3]);
    assert_eq!(metrics.message_count, 14);
}

#[test]
fn leader_ignores_late_votes_after_certificate() {
    let mut leader = HsLeader::new(0, 5, 1);
    let s1 = leader.handle(1, HsMsg::Vote { phase: HsPhase::Prepare, sender: 1, value: 5 });
    assert_eq!(s1.messages.len(), 1);
    assert!(matches!(s1.messages[0], Outgoing::Broadcast(HsMsg::PreCommit { value: 5 })));
    let s2 = leader.handle(2, HsMsg::Vote { phase: HsPhase::Prepare, sender: 2, value: 5 });
    assert!(s2.messages.is_empty());
    let s3 = leader.handle(1, HsMsg::Vote { phase: HsPhase::PreCommit, sender: 1, value: 5 });
    assert!(matches!(s3.messages[0], Outgoing::Broadcast(HsMsg::Commit { value: 5 })));
    let s4 = leader.handle(2, HsMsg::Vote { phase: HsPhase::PreCommit, sender: 2, value: 5 });
    assert!(s4.messages.is_empty());
    let s5 = leader.handle(1, HsMsg::Vote { phase: HsPhase::Commit, sender: 1, value: 5 });
    assert!(matches!(s5.messages[0], Outgoing::Broadcast(HsMsg::Decide { value: 5 })));
    assert_eq!(s5.decision, Some(5));
}

#[test]
fn hotstuff_single_node_never_decides() {
    // with no replica, no vote ever reaches the leader
    let (metrics, decisions) = run_hotstuff(1, 7);
    assert_eq!(metrics.message_count, 0);
    assert_eq!(decisions, vec![None]);
}

/// Feeds `inbox` to a fresh replica (node 1, leader 0) and records what it
/// sends, to whom, and what it decides.
fn replica_feed(inbox: &[(u64, HsMsg)]) -> (Vec<(u64, HsMsg)>, Option<Value>) {
    let mut replica = HsReplica::new(1, 0);
    let mut sent = Vec::new();
    let mut decision = None;
    for (from, msg) in inbox {
        if replica.is_decided() {
            break;
        }
        let step = replica.handle(*from, *msg);
        for o in step.messages {
            match o {
                Outgoing::Broadcast(m) => sent.push((u64::MAX, m)),
                Outgoing::SendTo(to, m) => sent.push((to, m)),
            }
        }
        if step.decision.is_some() {
            decision = step.decision;
        }
    }
    (sent, decision)
}

#[test]
fn replica_ignores_messages_not_from_its_leader() {
    let from_leader = [
        (0, HsMsg::Prepare { value: 4 }),
        (0, HsMsg::PreCommit { value: 4 }),
        (0, HsMsg::Commit { value: 4 }),
        (0, HsMsg::Decide { value: 4 }),
    ];
    let mixed = [
        (2, HsMsg::Decide { value: 9 }),
        from_leader[0],
        (3, HsMsg::Prepare { value: 9 }),
        from_leader[1],
        from_leader[2],
        (2, HsMsg::Commit { value: 9 }),
        from_leader[3],
    ];
    let a = replica_feed(&mixed);
    assert_eq!(a, replica_feed(&from_leader));
    assert_eq!(a.1, Some(4));
    assert_eq!(a.0.len(), 3);
}

#[test]
fn hotstuff_run_sends_seven_times_n_minus_one_messages() {
    for n in 2..9usize {
        let (metrics, decisions) = run_hotstuff(n, 3);
        assert_eq!(decisions, vec![Some(3); n]);
        assert_eq!(metrics.message_count, (7 * (n - 1)) as u64);
    }
}
