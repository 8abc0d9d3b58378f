use consensus_sim::metrics::Metrics;
use consensus_sim::network::Network;
use consensus_sim::pbft::{pbft_cluster, PbftMsg, PbftNode};
use consensus_sim::quorum::node_ids;
use consensus_sim::step::Outgoing;
use consensus_sim::types::Value;

/// Runs a PBFT cluster over the network, delivering each node's queued
/// messages in turn until no node has anything left to read.
fn run_pbft(n: usize, value: Value) -> (Metrics, Vec<Option<Value>>) {
    let mut nodes = pbft_cluster(n, value);
    let ids = node_ids(n);
    let (net, mut receivers) = Network::<PbftMsg>::new(ids.clone());
    let mut rxs: Vec<_> = ids.iter().map(|id| receivers.remove(id).unwrap()).collect();
    let mut decisions: Vec<Option<Value>> = vec![None; n];
    for i in 0..n {
        let step = nodes[i].start();
        decisions[i] = net.perform(ids[i], step).0;
    }
    loop {
        let mut progress = false;
        for i in 0..n {
            if decisions[i].is_some() {
                continue;
            }
            while let Ok((from, msg)) = rxs[i].try_recv() {
                progress = true;
                let step = nodes[i].handle(from, msg);
                if let Some(v) = net.perform(ids[i], step).0 {
                    decisions[i] = Some(v);
                    break;
                }
            }
        }
        if !progress {
            break;
        }
    }
    (Metrics::new(net.message_count(), 1, 0), decisions)
}

#[test]
fn test_pbft_4_nodes() {
    let (metrics, decisions) = run_pbft(4, 42);
    assert!(metrics.message_count > 0);
    assert_eq!(metrics.rounds, 1);
    assert!(decisions.iter().all(|d| *d == Some(42)));
}

#[test]
fn test_pbft_7_nodes() {
    let (metrics, decisions) = run_pbft(7, 99);
    assert!(metrics.message_count > 0);
    assert_eq!(metrics.rounds, 1);
    assert!(decisions.iter().all(|d| *d == Some(99)));
}

#[test]
fn test_pbft_4_nodes_consensus() {
    // f=1, quorum=3, n=4
    let (metrics, decisions) = run_pbft(4, 42);
    assert!(metrics.message_count > 0, "should have sent messages");
    assert_eq!(metrics.rounds, 1, "should complete in 1 round");
    assert_eq!(decisions, vec![Some(42); 4]);
}

#[test]
fn test_pbft_7_nodes_consensus() {
    // f=2, quorum=5, n=7
    let (metrics, decisions) = run_pbft(7, 99);
    assert!(metrics.message_count > 0, "should have sent messages");
    assert_eq!(metrics.rounds, 1, "should complete in 1 round");
    assert_eq!(decisions, vec![Some(99); 7]);
}

#[test]
fn test_pbft_msg_clone() {
    let msg = PbftMsg::PrePrepare { seq: 1, value: 42 };
    let msg2 = msg.clone();
    match msg2 {
        PbftMsg::PrePrepare { seq, value } => {
            assert_eq!(seq, 1);
            assert_eq!(value, 42);
        }
        _ => panic!("unexpected variant"),
    }
}

#[test]
fn primary_proposes_and_prepares() {
    let mut primary = PbftNode::new(0, true, 42, 1, 3);
    let step = primary.start();
    assert_eq!(step.decision, None);
    assert_eq!(step.messages.len(), 2);
    assert!(matches!(step.messages[0], Outgoing::Broadcast(PbftMsg::PrePrepare { seq: 1, value: 42 })));
    assert!(matches!(
        step.messages[1],
        Outgoing::Broadcast(PbftMsg::Prepare { seq: 1, sender: 0, value: 42 })
    ));
    let mut backup = PbftNode::new(1, false, 42, 1, 3);
    assert!(backup.start().messages.is_empty());
}

#[test]
fn backup_prepares_what_the_primary_proposes() {
    let mut backup = PbftNode::new(2, false, 42, 1, 3);
    let step = backup.handle(0, PbftMsg::PrePrepare { seq: 1, value: 7 });
    assert_eq!(step.messages.len(), 1);
    assert!(matches!(step.messages[0], Outgoing::Broadcast(PbftMsg::Prepare { seq: 1, sender: 2, value: 7 })));
    // a proposal from a node other than 0, or for another sequence number, is ignored
    assert!(backup.handle(1, PbftMsg::PrePrepare { seq: 1, value: 7 }).messages.is_empty());
    assert!(backup.handle(0, PbftMsg::PrePrepare { seq: 2, value: 7 }).messages.is_empty());
}

#[test]
fn commit_is_broadcast_once_on_prepare_quorum() {
    let mut node = PbftNode::new(1, false, 42, 1, 3);
    assert!(node.handle(0, PbftMsg::Prepare { seq: 1, sender: 0, value: 42 }).messages.is_empty());
    assert!(node.handle(2, PbftMsg::Prepare { seq: 1, sender: 2, value: 42 }).messages.is_empty());
    let step = node.handle(3, PbftMsg::Prepare { seq: 1, sender: 3, value: 42 });
    assert_eq!(step.messages.len(), 1);
    assert!(matches!(step.messages[0], Outgoing::Broadcast(PbftMsg::Commit { seq: 1, sender: 1, value: 42 })));
    // a further prepare does not broadcast a second commit
    assert!(node.handle(1, PbftMsg::Prepare { seq: 1, sender: 1, value: 42 }).messages.is_empty());
}

#[test]
fn prepares_for_another_value_do_not_count() {
    let mut node = PbftNode::new(1, false, 42, 1, 3);
    node.handle(0, PbftMsg::Prepare { seq: 1, sender: 0, value: 5 });
    node.handle(2, PbftMsg::Prepare { seq: 1, sender: 2, value: 5 });
    let step = node.handle(3, PbftMsg::Prepare { seq: 1, sender: 3, value: 42 });
    assert!(step.messages.is_empty());
}

#[test]
fn decides_own_value_on_commit_quorum_then_stops() {
    let mut node = PbftNode::new(3, false, 42, 1, 3);
    assert_eq!(node.handle(0, PbftMsg::Commit { seq: 1, sender: 0, value: 42 }).decision, None);
    assert_eq!(node.handle(1, PbftMsg::Commit { seq: 1, sender: 1, value: 42 }).decision, None);
    assert!(!node.is_decided());
    let step = node.handle(2, PbftMsg::Commit { seq: 1, sender: 2, value: 42 });
    assert_eq!(step.decision, Some(42));
    assert!(node.is_decided());
    let after = node.handle(0, PbftMsg::PrePrepare { seq: 1, value: 42 });
    assert!(after.messages.is_empty());
    assert_eq!(after.decision, None);
}

#[test]
fn cluster_has_one_primary() {
    let mut nodes = pbft_cluster(4, 42);
    assert_eq!(nodes.len(), 4);
    let proposers: Vec<usize> = (0..4).filter(|&i| !nodes[i].start().messages.is_empty()).collect();
    assert_eq!(proposers, vec![0]);
}

#[test]
fn pbft_small_clusters_decide() {
    for n in 2..=10 {
        let (metrics, decisions) = run_pbft(n, 5);
        assert_eq!(decisions, vec![Some(5); n]);
        assert!(metrics.message_count > 0);
    }
}

#[test]
fn pbft_single_node_never_decides() {
    // the primary's own prepare and commit are never checked against the
    // quorum: only a received message is
    let (metrics, decisions) = run_pbft(1, 5);
    assert_eq!(metrics.message_count, 0);
    assert_eq!(decisions, vec![None]);
}

/// Feeds `inbox` to a fresh backup (node 1, value 5, sequence number 1,
/// quorum 1) and records what it sends and decides.
fn pbft_feed(inbox: &[(u64, PbftMsg)]) -> (Vec<PbftMsg>, Option<Value>) {
    let mut node = PbftNode::new(1, false, 5, 1, 1);
    let mut sent = Vec::new();
    let mut decision = None;
    for (from, msg) in inbox {
        if node.is_decided() {
            break;
        }
        let step = node.handle(*from, *msg);
        for o in step.messages {
            match o {
                Outgoing::Broadcast(m) => sent.push(m),
                Outgoing::SendTo(_, m) => sent.push(m),
            }
        }
        if step.decision.is_some() {
            decision = step.decision;
        }
    }
    (sent, decision)
}

#[test]
fn pbft_backup_ignores_other_sequence_numbers_and_stray_preprepares() {
    let full = [
        (2, PbftMsg::Commit { seq: 2, sender: 2, value: 5 }),
        (3, PbftMsg::PrePrepare { seq: 1, value: 9 }),
        (0, PbftMsg::PrePrepare { seq: 1, value: 5 }),
        (2, PbftMsg::Prepare { seq: 7, sender: 2, value: 5 }),
        (2, PbftMsg::Prepare { seq: 1, sender: 2, value: 5 }),
        (2, PbftMsg::Commit { seq: 1, sender: 2, value: 5 }),
    ];
    let kept = [full[2], full[4], full[5]];
    let a = pbft_feed(&full);
    let b = pbft_feed(&kept);
    assert_eq!(a, b);
    assert_eq!(a.1, Some(5));
    assert_eq!(
        a.0,
        vec![PbftMsg::Prepare { seq: 1, sender: 1, value: 5 }, PbftMsg::Commit { seq: 1, sender: 1, value: 5 }]
    );
}

#[test]
fn pbft_run_sends_n_minus_one_times_two_n_plus_one_messages() {
    for n in 2..9usize {
        let (metrics, decisions) = run_pbft(n, 3);
        assert_eq!(decisions, vec![Some(3); n]);
        assert_eq!(metrics.message_count, ((n - 1) * (2 * n + 1)) as u64);
    }
}
