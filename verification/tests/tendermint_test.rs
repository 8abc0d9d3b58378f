use consensus_sim::metrics::Metrics;
use consensus_sim::network::Network;
use consensus_sim::quorum::node_ids;
use consensus_sim::step::Outgoing;
use consensus_sim::tendermint::{tendermint_cluster, TmMsg, TmNode};
use consensus_sim::types::Value;

/// Runs a Tendermint cluster over the network, delivering each node's queued
/// messages in turn until no node has anything left to read.
fn run_tendermint(n: usize, value: Value) -> (Metrics, Vec<Option<Value>>) {
    let mut nodes = tendermint_cluster(n, value);
    let ids = node_ids(n);
    let (net, mut receivers) = Network::<TmMsg>::new(ids.clone());
    let mut rxs: Vec<_> = ids.iter().map(|id| receivers.remove(id).unwrap()).collect();
    let mut decisions: Vec<Option<Value>> = vec![None; n];
    for i in 0..n {
        let step = nodes[i].start();
        decisions[i] = net.perform(ids[i], step).0;
    }
    loop {
        let mut progress = false;
        for i in 0..n {
            if decisions[i].is_some() {
                continue;
            }
            while let Ok((from, msg)) = rxs[i].try_recv() {
                progress = true;
                let step = nodes[i].handle(from, msg);
                if let Some(v) = net.perform(ids[i], step).0 {
                    decisions[i] = Some(v);
                    break;
                }
            }
        }
        if !progress {
            break;
        }
    }
    (Metrics::new(net.message_count(), 1, 0), decisions)
}

#[test]
fn test_tendermint_4_nodes() {
    let (metrics, decisions) = run_tendermint(4, 42);
    assert!(metrics.message_count > 0);
    assert_eq!(metrics.rounds, 1);
    assert!(decisions.iter().all(|d| *d == Some(42)));
}

#[test]
fn test_tendermint_7_nodes() {
    let (metrics, decisions) = run_tendermint(7, 99);
    assert!(metrics.message_count > 0);
    assert_eq!(metrics.rounds, 1);
    assert!(decisions.iter().all(|d| *d == Some(99)));
}

#[test]
fn test_tendermint_n4() {
    let (metrics, decisions) = run_tendermint(4, 42);
    assert!(metrics.message_count > 0);
    assert_eq!(metrics.rounds, 1);
    assert_eq!(decisions, vec![Some(42); 4]);
}

#[test]
fn test_tendermint_n7() {
    let (metrics, decisions) = run_tendermint(7, 99);
    assert!(metrics.message_count > 0);
    assert_eq!(metrics.rounds, 1);
    assert_eq!(decisions, vec![Some(99); 7]);
}

#[test]
fn test_tm_msg_clone() {
    let msg = TmMsg::Proposal { round: 0, value: 1 };
    let msg2 = msg.clone();
    match msg2 {
        TmMsg::Proposal { round, value } => {
            assert_eq!(round, 0);
            assert_eq!(value, 1);
        }
        _ => panic!("unexpected variant"),
    }
}

#[test]
fn proposer_proposes_and_prevotes() {
    let mut proposer = TmNode::new(0, true, 42, 0, 3);
    let step = proposer.start();
    assert_eq!(step.messages.len(), 2);
    assert!(matches!(step.messages[0], Outgoing::Broadcast(TmMsg::Proposal { round: 0, value: 42 })));
    assert!(matches!(step.messages[1], Outgoing::Broadcast(TmMsg::Prevote { round: 0, sender: 0, value: 42 })));
    // having prevoted, the proposer ignores proposals
    assert!(proposer.handle(0, TmMsg::Proposal { round: 0, value: 42 }).messages.is_empty());
}

#[test]
fn validator_prevotes_once() {
    let mut v = TmNode::new(2, false, 42, 0, 3);
    let step = v.handle(0, TmMsg::Proposal { round: 0, value: 42 });
    assert!(matches!(step.messages[0], Outgoing::Broadcast(TmMsg::Prevote { round: 0, sender: 2, value: 42 })));
    assert!(v.handle(0, TmMsg::Proposal { round: 0, value: 42 }).messages.is_empty());
}

#[test]
fn validator_ignores_other_rounds_and_proposers() {
    let mut v = TmNode::new(2, false, 42, 0, 3);
    assert!(v.handle(1, TmMsg::Proposal { round: 0, value: 42 }).messages.is_empty());
    assert!(v.handle(0, TmMsg::Proposal { round: 1, value: 42 }).messages.is_empty());
    assert!(v.handle(0, TmMsg::Precommit { round: 1, sender: 0, value: 42 }).decision.is_none());
}

#[test]
fn precommit_on_prevote_quorum_then_decide() {
    let mut v = TmNode::new(3, false, 42, 0, 3);
    v.handle(0, TmMsg::Prevote { round: 0, sender: 0, value: 42 });
    v.handle(1, TmMsg::Prevote { round: 0, sender: 1, value: 42 });
    let step = v.handle(2, TmMsg::Prevote { round: 0, sender: 2, value: 42 });
    assert!(matches!(step.messages[0], Outgoing::Broadcast(TmMsg::Precommit { round: 0, sender: 3, value: 42 })));
    assert!(v.handle(1, TmMsg::Prevote { round: 0, sender: 1, value: 42 }).messages.is_empty());
    // its own precommit counts: two more reach the quorum of 3
    assert_eq!(v.handle(0, TmMsg::Precommit { round: 0, sender: 0, value: 42 }).decision, None);
    assert_eq!(v.handle(1, TmMsg::Precommit { round: 0, sender: 1, value: 42 }).decision, Some(42));
    assert!(v.is_decided());
}

#[test]
fn tendermint_small_clusters_decide() {
    for n in 2..=10 {
        let (metrics, decisions) = run_tendermint(n, 5);
        assert_eq!(decisions, vec![Some(5); n]);
        assert!(metrics.message_count > 0);
    }
}

#[test]
fn tendermint_single_node_never_decides() {
    let (metrics, decisions) = run_tendermint(1, 5);
    assert_eq!(metrics.message_count, 0);
    assert_eq!(decisions, vec![None]);
}

/// Feeds `inbox` to a fresh validator (node 1, value 5, round 0, quorum 2)
/// and records what it sends and decides.
fn tm_feed(inbox: &[(u64, TmMsg)]) -> (Vec<TmMsg>, Option<Value>) {
    let mut node = TmNode::new(1, false, 5, 0, 2);
    let mut sent = Vec::new();
    let mut decision = None;
    for (from, msg) in inbox {
        if node.is_decided() {
            break;
        }
        let step = node.handle(*from, *msg);
        for o in step.messages {
            match o {
                Outgoing::Broadcast(m) => sent.push(m),
                Outgoing::SendTo(_, m) => sent.push(m),
            }
        }
        if step.decision.is_some() {
            decision = step.decision;
        }
    }
    (sent, decision)
}

fn tm_inbox() -> Vec<(u64, TmMsg)> {
    vec![
        (0, TmMsg::Proposal { round: 0, value: 5 }),
        (2, TmMsg::Prevote { round: 0, sender: 2, value: 5 }),
        (2, TmMsg::Precommit { round: 0, sender: 2, value: 5 }),
        (3, TmMsg::Precommit { round: 0, sender: 3, value: 5 }),
    ]
}

#[test]
fn tendermint_ignores_other_rounds() {
    let mut full = tm_inbox();
    full.insert(1, (2, TmMsg::Prevote { round: 3, sender: 2, value: 5 }));
    full.insert(0, (0, TmMsg::Proposal { round: 1, value: 9 }));
    let a = tm_feed(&full);
    let b = tm_feed(&tm_inbox());
    assert_eq!(a, b);
    assert_eq!(a.1, Some(5));
}

#[test]
fn tendermint_acts_on_a_repeated_message_once() {
    let base = tm_inbox();
    for k in 0..base.len() {
        let mut dup = base.clone();
        dup.insert(k + 1, base[k]);
        assert_eq!(tm_feed(&dup), tm_feed(&base));
    }
    assert_eq!(tm_feed(&base).0.len(), 2);
}

#[test]
fn tendermint_run_sends_n_minus_one_times_two_n_plus_one_messages() {
    for n in 2..9usize {
        let (metrics, decisions) = run_tendermint(n, 3);
        assert_eq!(decisions, vec![Some(3); n]);
        assert_eq!(metrics.message_count, ((n - 1) * (2 * n + 1)) as u64);
    }
}
