use hyperlicked::consensus::metrics::ConsensusMetrics;

fn test_node(n: u8) -> [u8; 32] {
    let mut id = [0u8; 32];
    id[0] = n;
    id
}

#[test]
fn test_invalid_vote_tracking() {
    let mut metrics = ConsensusMetrics::new();

    metrics.record_invalid_vote_signature(&test_node(1));
    metrics.record_invalid_vote_signature(&test_node(1));
    metrics.record_invalid_vote_signature(&test_node(2));

    let summary = metrics.summary();
    assert_eq!(summary.invalid_vote_signatures, 3);
    assert_eq!(summary.suspicious_validators, 2);
}

#[test]
fn test_byzantine_suspicion_threshold() {
    let mut metrics = ConsensusMetrics::new();
    let node = test_node(1);

    // Record 4 invalid signatures
    for _ in 0..4 {
        metrics.record_invalid_vote_signature(&node);
    }

    assert!(!metrics.is_highly_suspicious(&node, 5));
    metrics.record_invalid_vote_signature(&node);
    assert!(metrics.is_highly_suspicious(&node, 5));
}

#[test]
fn test_summary_has_byzantine_activity() {
    let mut metrics = ConsensusMetrics::new();

    let summary = metrics.summary();
    assert!(!summary.has_byzantine_activity());

    metrics.record_invalid_timeout_signature(&test_node(1));

    let summary = metrics.summary();
    assert!(summary.has_byzantine_activity());
}

#[test]
fn test_reset() {
    let mut metrics = ConsensusMetrics::new();

    metrics.record_invalid_vote_signature(&test_node(1));
    metrics.record_aggregation_failure();

    assert!(metrics.summary().invalid_vote_signatures > 0);

    metrics.reset();

    let summary = metrics.summary();
    assert_eq!(summary.invalid_vote_signatures, 0);
    assert_eq!(summary.aggregation_failures, 0);
}
