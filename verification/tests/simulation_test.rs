use consensus_sim::metrics::Metrics;
use consensus_sim::simulation::{protocol_at, run_schedule, tabulate, SimResult};

#[test]
fn sim_result_copies_metrics() {
    let r = SimResult::new("PBFT", 4, &Metrics::new(30, 1, 250));
    assert_eq!(r.protocol, "PBFT");
    assert_eq!(r.n, 4);
    assert_eq!(r.message_count, 30);
    assert_eq!(r.rounds, 1);
    assert_eq!(r.duration_us, 250);
}

#[test]
fn protocols_run_in_fixed_order() {
    assert_eq!(protocol_at(0), "PBFT");
    assert_eq!(protocol_at(1), "Tendermint");
    assert_eq!(protocol_at(2), "HotStuff");
}

#[test]
fn tabulate_single_count() {
    let metrics = vec![Metrics::new(27, 1, 10), Metrics::new(21, 1, 11), Metrics::new(12, 1, 12)];
    let results = tabulate(&[4], &metrics);
    assert_eq!(results.len(), 3);
    assert_eq!(results[0].protocol, "PBFT");
    assert_eq!(results[1].protocol, "Tendermint");
    assert_eq!(results[2].protocol, "HotStuff");
    for r in &results {
        assert_eq!(r.n, 4);
        assert!(r.message_count > 0);
        assert_eq!(r.rounds, 1);
    }
    assert_eq!(results[1].message_count, 21);
    assert_eq!(results[2].duration_us, 12);
}

#[test]
fn tabulate_multiple_counts() {
    let metrics: Vec<Metrics> = (0..6).map(|i| Metrics::new(i + 1, 1, 0)).collect();
    let results = tabulate(&[4, 7], &metrics);
    assert_eq!(results.len(), 6);
    for r in &results[0..3] {
        assert_eq!(r.n, 4);
    }
    for r in &results[3..6] {
        assert_eq!(r.n, 7);
    }
    assert_eq!(results[3].protocol, "PBFT");
    assert_eq!(results[5].message_count, 6);
}

#[test]
fn tabulate_nothing() {
    let results = tabulate(&[], &[]);
    assert!(results.is_empty());
}

#[test]
fn schedule_runs_each_protocol_per_size_in_order() {
    let plan = run_schedule(&[4, 7]);
    assert_eq!(plan, vec![(0, 4), (1, 4), (2, 4), (0, 7), (1, 7), (2, 7)]);
    assert_eq!(protocol_at(plan[4].0), "Tendermint");
    assert!(run_schedule(&[]).is_empty());
}
