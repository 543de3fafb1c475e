use hyperlicked::consensus::timeout::{
    create_signed_timeout, create_signed_timeout_with_context, verify_timeout_certificate,
    verify_timeout_certificate_with_context, KeyTable, TimeoutCollector, TimeoutError,
};
use hyperlicked::crypto::{verify_signature, BlsSecretKey};
use hyperlicked::table::Table;
use hyperlicked::types::context::ConsensusContext;
use hyperlicked::types::messages::{Timeout, TimeoutCertificate};
use hyperlicked::types::settings::ConsensusConfig;

fn timeout(view: u64, high_qc_view: u64, sender: [u8; 32], signature: Vec<u8>) -> Timeout {
    Timeout {
        epoch: 0,
        committee_hash: [0u8; 32],
        genesis_hash: [0u8; 32],
        view,
        high_qc_view,
        sender,
        signature,
    }
}

#[test]
fn test_timeout_collection() {
    let mut collector = TimeoutCollector::new_without_verification(2);

    // First timeout - no quorum yet
    let t1 = timeout(5, 3, [1u8; 32], vec![0u8; 64]);
    assert!(collector.add(t1).unwrap().is_none());
    assert_eq!(collector.count(5), 1);

    // Second timeout - reaches quorum
    let t2 = timeout(5, 4, [2u8; 32], vec![0u8; 64]);
    let tc = collector.add(t2).unwrap();
    assert!(tc.is_some());

    let tc = tc.unwrap();
    assert_eq!(tc.view, 5);
    assert_eq!(tc.high_qc_view, 4); // Highest among timeouts
    assert_eq!(tc.signers.len(), 2);
}

#[test]
fn test_duplicate_timeout_rejected() {
    let mut collector = TimeoutCollector::new_without_verification(2);

    let t1 = timeout(5, 3, [1u8; 32], vec![0u8; 64]);
    collector.add(t1.clone()).unwrap();

    // Duplicate from same sender
    let result = collector.add(t1);
    assert!(matches!(result, Err(TimeoutError::DuplicateTimeout(_))));
}

#[test]
fn test_signed_timeout() {
    let bls_sk = BlsSecretKey::from_seed(&[1u8; 32]);
    let bls_pk = bls_sk.public_key();
    let sender: [u8; 32] = [1u8; 32];

    // Create signed timeout
    let timeout = create_signed_timeout(5, 3, sender, &bls_sk);

    // Verify signature manually
    let signing_data = timeout.signing_data();
    assert!(verify_signature(&bls_pk, &signing_data, &timeout.signature));
}

#[test]
fn test_timeout_certificate_with_bls() {
    let bls_sk1 = BlsSecretKey::from_seed(&[1u8; 32]);
    let bls_sk2 = BlsSecretKey::from_seed(&[2u8; 32]);
    let sender1: [u8; 32] = [1u8; 32];
    let sender2: [u8; 32] = [2u8; 32];

    let pubkeys = || {
        let mut keys: KeyTable = Table::new();
        keys.put(sender1, bls_sk1.public_key());
        keys.put(sender2, bls_sk2.public_key());
        keys
    };

    let mut collector = TimeoutCollector::new(2, pubkeys());

    // Add signed timeouts
    let t1 = create_signed_timeout(5, 3, sender1, &bls_sk1);
    assert!(collector.add(t1).unwrap().is_none());

    let t2 = create_signed_timeout(5, 4, sender2, &bls_sk2);
    let tc = collector.add(t2).unwrap();
    assert!(tc.is_some());

    let tc = tc.unwrap();
    assert_eq!(tc.view, 5);
    assert_eq!(tc.high_qc_view, 4);

    // Verify the TC
    assert!(verify_timeout_certificate(&tc, &pubkeys()));
}

#[test]
fn committee_timeout_quorum_uses_strict_unequal_power() {
    let secrets: Vec<_> = (1u8..=3)
        .map(|id| {
            let mut seed = [0u8; 32];
            seed[0] = id;
            BlsSecretKey::from_seed(&seed)
        })
        .collect();
    let validators: Vec<[u8; 32]> = (1u8..=3).map(|id| [id; 32]).collect();
    let config = ConsensusConfig {
        epoch: 0,
        genesis_hash: [0u8; 32],
        node_id: validators[0],
        validators: validators.clone(),
        voting_powers: vec![4, 1, 1],
        view_timeout_ms: 1000,
        bls_pubkeys: secrets
            .iter()
            .map(|secret| secret.public_key())
            .collect(),
        bls_secret_key: Some(secrets[0].to_bytes()),
    };
    let context = config.context().unwrap();
    let mut collector = TimeoutCollector::with_committee(config.committee().unwrap()).unwrap();

    // 4/6 is exactly two thirds and must not advance the collector.
    let high_power =
        create_signed_timeout_with_context(context, 5, 0, validators[0], &secrets[0]);
    assert!(collector.add(high_power).unwrap().is_none());

    // 5/6 is strictly above two thirds and must form a real aggregate.
    let low_power =
        create_signed_timeout_with_context(context, 5, 0, validators[1], &secrets[1]);
    let certificate = collector.add(low_power).unwrap().unwrap();
    assert_eq!(certificate.agg_signature.len(), 96);
}

#[test]
fn committee_timeout_rejects_unknown_and_duplicate_signers() {
    let secret1 = BlsSecretKey::from_seed(&[1u8; 32]);
    let secret2 = BlsSecretKey::from_seed(&[2u8; 32]);
    let validators = vec![[1u8; 32], [2u8; 32], [3u8; 32]];
    let config = ConsensusConfig {
        epoch: 0,
        genesis_hash: [0u8; 32],
        node_id: validators[0],
        validators: validators.clone(),
        voting_powers: vec![1, 1, 1],
        view_timeout_ms: 1000,
        bls_pubkeys: vec![
            secret1.public_key(),
            secret2.public_key(),
            BlsSecretKey::from_seed(&[3u8; 32])
                .public_key(),
        ],
        bls_secret_key: Some(secret1.to_bytes()),
    };
    let context = config.context().unwrap();
    let mut collector = TimeoutCollector::with_committee(config.committee().unwrap()).unwrap();
    let unknown = create_signed_timeout_with_context(context, 5, 0, [99u8; 32], &secret1);
    assert!(matches!(
        collector.add(unknown),
        Err(TimeoutError::UnknownValidator(_))
    ));

    let valid = create_signed_timeout_with_context(context, 5, 0, validators[0], &secret1);
    collector.add(valid.clone()).unwrap();
    assert!(matches!(
        collector.add(valid),
        Err(TimeoutError::DuplicateTimeout(_))
    ));
}

#[test]
fn test_prune_below() {
    let mut collector = TimeoutCollector::new_without_verification(2);

    let t1 = timeout(5, 3, [1u8; 32], vec![0u8; 64]);
    let t2 = timeout(10, 8, [2u8; 32], vec![0u8; 64]);

    collector.add(t1).unwrap();
    collector.add(t2).unwrap();

    collector.prune_below(8);

    assert_eq!(collector.count(5), 0);
    assert_eq!(collector.count(10), 1);
}

#[test]
fn timeout_certificate_from_another_genesis_is_rejected() {
    let local = ConsensusContext::with_genesis(0, [7u8; 32], [1u8; 32]);
    let remote = ConsensusContext::with_genesis(0, [7u8; 32], [2u8; 32]);
    let tc = TimeoutCertificate {
        epoch: remote.epoch,
        committee_hash: remote.committee_hash,
        genesis_hash: remote.genesis_hash,
        view: 1,
        high_qc_view: 0,
        signers: vec![[1u8; 32]],
        agg_signature: vec![0u8; 96],
    };
    let secret = BlsSecretKey::from_seed(&[1u8; 32]);
    let mut public_keys: KeyTable = Table::new();
    public_keys.put([1u8; 32], secret.public_key());

    assert!(!verify_timeout_certificate_with_context(
        &tc,
        &public_keys,
        local
    ));
}
