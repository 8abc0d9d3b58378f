use consensus_sim::metrics::Metrics;

#[test]
fn test_metrics_default() {
    let m = Metrics::default();
    assert_eq!(m.message_count, 0);
    assert_eq!(m.rounds, 0);
    assert_eq!(m.duration_us, 0);
}

#[test]
fn test_metrics_new() {
    let m = Metrics::new(10, 1, 500);
    assert_eq!(m.message_count, 10);
    assert_eq!(m.rounds, 1);
    assert_eq!(m.duration_us, 500);
}

#[test]
fn test_metrics_clone() {
    let m = Metrics::new(5, 2, 100);
    let m2 = m.clone();
    assert_eq!(m2.message_count, 5);
    assert_eq!(m2.rounds, 2);
    assert_eq!(m2.duration_us, 100);
}
