use hyperlicked::consensus::safety::{Safety, SafetyError};
use hyperlicked::types::block::Block;
use hyperlicked::types::certificate::Certificate;
use hyperlicked::types::context::ConsensusContext;

fn context() -> ConsensusContext {
    ConsensusContext::new(0, [0u8; 32])
}

#[test]
fn test_first_vote_allowed() {
    let safety = Safety::new();
    let block = Block::genesis(context());
    let local_hash = [0u8; 32];

    assert!(safety.safe_to_vote(&block, local_hash).is_ok());
}

#[test]
fn test_double_vote_rejected() {
    let mut safety = Safety::new();
    let block = Block::genesis(context());
    let local_hash = [0u8; 32];

    // First vote OK
    assert!(safety.safe_to_vote(&block, local_hash).is_ok());
    safety.record_vote(block.view);

    // Second vote in same view rejected
    assert!(matches!(
        safety.safe_to_vote(&block, local_hash),
        Err(SafetyError::AlreadyVoted(_))
    ));
}

#[test]
fn test_app_hash_mismatch() {
    let safety = Safety::new();
    let block = Block::genesis(context());
    let wrong_hash = [1u8; 32]; // Different from block.app_hash

    assert!(matches!(
        safety.safe_to_vote(&block, wrong_hash),
        Err(SafetyError::AppHashMismatch { .. })
    ));
}

#[test]
fn test_voted_views_persistence() {
    // Simulate voting in several views
    let mut safety = Safety::new();
    safety.record_vote(5);
    safety.record_vote(7);
    safety.record_vote(10);

    // Export for persistence
    let voted_views = safety.voted_views();
    assert_eq!(voted_views.len(), 3);

    // Simulate recovery from persisted state
    let recovered_safety = Safety::with_state(None, None, &voted_views);

    // Verify we can't double-vote after recovery
    let block5 = Block {
        epoch: 0,
        committee_hash: [0u8; 32],
        genesis_hash: [0u8; 32],
        view: 5,
        height: 1,
        parent: [0u8; 32],
        payload: vec![],
        proposer: [0u8; 32],
        commitment_root: [0u8; 32],
        app_hash: [0u8; 32],
        timestamp: 0,
        justify: None,
    };

    assert!(matches!(
        recovered_safety.safe_to_vote(&block5, [0u8; 32]),
        Err(SafetyError::AlreadyVoted(5))
    ));
}

#[test]
fn test_voted_views_prune_and_persist() {
    let mut safety = Safety::new();
    safety.record_vote(1);
    safety.record_vote(5);
    safety.record_vote(10);
    safety.record_vote(15);

    // Prune old views
    safety.prune_votes_below(8);

    // Only views >= 8 should remain
    let voted_views = safety.voted_views();
    assert_eq!(voted_views.len(), 2);
    assert!(voted_views.contains(&10));
    assert!(voted_views.contains(&15));
    assert!(!voted_views.contains(&1));
    assert!(!voted_views.contains(&5));
}

#[test]
fn usage_of_recovered_votes() {
    let context = ConsensusContext::new(0, [0u8; 32]);
    let mut safety = Safety::new_with_context(context);
    let block = Block::genesis(context);

    safety.record_vote(block.view);
    let persisted_voted_views = safety.voted_views();
    assert_eq!(persisted_voted_views, vec![block.view]);

    let recovered =
        Safety::with_state_for_context(context, None, None, &persisted_voted_views)
            .expect("matching context must recover");
    assert!(recovered.safe_to_vote(&block, [0u8; 32]).is_err());
}

#[test]
fn the_highest_certificate_is_the_first_of_the_highest_view() {
    let context = context();
    let qc = |context: ConsensusContext, view: u64, tag: u8| Certificate {
        epoch: context.epoch,
        committee_hash: context.committee_hash,
        genesis_hash: context.genesis_hash,
        view,
        block_hash: [tag; 32],
        app_hash: None,
        votes: vec![],
        voters: vec![],
        bls_pubkeys: vec![],
        agg_signature: vec![],
    };
    let other = ConsensusContext::new(1, [9u8; 32]);
    let mut safety = Safety::new_with_context(context);
    for offered in [
        qc(context, 3, 1),
        qc(context, 7, 2),
        qc(other, 9, 3),
        qc(context, 7, 4),
        qc(context, 5, 5),
    ] {
        safety.update_high_qc(offered);
    }
    let high = safety.high_qc().unwrap();
    assert_eq!((high.view, high.block_hash), (7, [2u8; 32]));
}
