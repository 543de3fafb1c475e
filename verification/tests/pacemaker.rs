use hyperlicked::consensus::pacemaker::Pacemaker;
use hyperlicked::types::certificate::Certificate;
#[test]
fn test_view_starts_at_zero() {
    let pm = Pacemaker::new(1_000);
    assert_eq!(pm.current_view(), 0);
}

#[test]
fn test_advance_on_qc() {
    let mut pm = Pacemaker::new(1_000);

    let qc = Certificate {
        epoch: 0,
        committee_hash: [0u8; 32],
        genesis_hash: [0u8; 32],
        view: 0,
        block_hash: [0u8; 32],
        app_hash: Some([0u8; 32]),
        votes: vec![],
        voters: vec![],
        bls_pubkeys: vec![],
        agg_signature: vec![],
    };

    pm.advance_view(&qc);
    assert_eq!(pm.current_view(), 1);
}

#[test]
fn test_exponential_backoff() {
    let mut pm = Pacemaker::new(1_000);

    assert_eq!(pm.current_timeout(), 1_000);

    pm.record_timeout();
    assert_eq!(pm.current_timeout(), 2_000);

    pm.record_timeout();
    assert_eq!(pm.current_timeout(), 4_000);

    pm.record_timeout();
    assert_eq!(pm.current_timeout(), 8_000);
}

#[test]
fn test_backoff_resets_on_success() {
    let mut pm = Pacemaker::new(1_000);

    // Timeout twice
    pm.record_timeout();
    pm.record_timeout();
    assert_eq!(pm.current_timeout(), 4_000);

    // Success resets backoff
    let qc = Certificate {
        epoch: 0,
        committee_hash: [0u8; 32],
        genesis_hash: [0u8; 32],
        view: pm.current_view(),
        block_hash: [0u8; 32],
        app_hash: Some([0u8; 32]),
        votes: vec![],
        voters: vec![],
        bls_pubkeys: vec![],
        agg_signature: vec![],
    };
    pm.advance_view(&qc);

    assert_eq!(pm.current_timeout(), 1_000);
}

#[test]
fn no_view_change_is_made_while_none_are_collected() {
    let mut pm = Pacemaker::new(1_000);
    assert!(!pm.has_view_change());
    assert!(pm.create_view_change([1u8; 32], None).is_none());
    assert_eq!(pm.timeout_state(), (0, None));

    pm.with_view_change(3);
    assert!(pm.has_view_change());
    let vc = pm
        .create_view_change([1u8; 32], None)
        .expect("view changes are collected");
    assert_eq!((vc.from_view, vc.to_view, vc.sender), (0, 1, [1u8; 32]));
    assert_eq!(pm.timeout_state(), (0, Some(0)));
    assert!(pm.create_view_change([1u8; 32], None).is_none());
}
