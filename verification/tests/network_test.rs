use consensus_sim::network::Network;
use consensus_sim::step::{Outgoing, Step};
use consensus_sim::types::NodeId;

#[test]
fn test_network_send() {
    let node_ids: Vec<NodeId> = vec![0, 1, 2];
    let (net, mut receivers) = Network::<u64>::new(node_ids);

    net.send(0, 1, 42u64);
    assert_eq!(net.message_count(), 1);

    let rx1 = receivers.get_mut(&1).unwrap();
    let (from, val) = rx1.try_recv().unwrap();
    assert_eq!(from, 0);
    assert_eq!(val, 42);
}

#[test]
fn test_network_broadcast() {
    let node_ids: Vec<NodeId> = vec![0, 1, 2];
    let (net, mut receivers) = Network::<u64>::new(node_ids);

    net.broadcast(0, 99u64);
    // Should send to nodes 1 and 2 (not 0)
    assert_eq!(net.message_count(), 2);

    let (_, v1) = receivers.get_mut(&1).unwrap().try_recv().unwrap();
    let (_, v2) = receivers.get_mut(&2).unwrap().try_recv().unwrap();
    assert_eq!(v1, 99);
    assert_eq!(v2, 99);
    assert!(receivers.get_mut(&0).unwrap().try_recv().is_err());
}

#[test]
fn test_network_clone_shares_count() {
    let node_ids: Vec<NodeId> = vec![0, 1];
    let (net, _receivers) = Network::<u64>::new(node_ids);
    let net2 = net.clone();
    net.send(0, 1, 1u64);
    assert_eq!(net2.message_count(), 1);
}

#[test]
fn send_to_unknown_node_is_dropped() {
    let (net, receivers) = Network::<u64>::new(vec![0, 1]);
    net.send(0, 5, 7u64);
    assert_eq!(net.message_count(), 0);
    assert_eq!(receivers.len(), 2);
}

#[test]
fn recipients_are_all_but_the_sender() {
    let (net, _receivers) = Network::<u64>::new(vec![0, 1, 2, 3]);
    assert_eq!(net.recipients(2), vec![0, 1, 3]);
    assert_eq!(net.recipients(9), vec![0, 1, 2, 3]);
}

#[test]
fn perform_sends_in_order_and_returns_decision() {
    let (net, mut receivers) = Network::<u64>::new(vec![0, 1, 2]);
    let step = Step { messages: vec![Outgoing::SendTo(2, 5u64), Outgoing::Broadcast(6u64)], decision: Some(42) };
    assert_eq!(net.perform(1, step).0, Some(42));
    assert_eq!(net.message_count(), 3);
    let rx2 = receivers.get_mut(&2).unwrap();
    assert_eq!(rx2.try_recv().unwrap(), (1, 5));
    assert_eq!(rx2.try_recv().unwrap(), (1, 6));
    assert_eq!(receivers.get_mut(&0).unwrap().try_recv().unwrap(), (1, 6));
    assert!(receivers.get_mut(&1).unwrap().try_recv().is_err());
}
