use hyperlicked::consensus::equivocation::{EquivocationDetector, VoteCheckResult};
use hyperlicked::types::vote::Vote;

fn test_vote(view: u64, voter_id: u8, block_hash: u8) -> Vote {
    let mut voter = [0u8; 32];
    voter[0] = voter_id;

    let mut hash = [0u8; 32];
    hash[0] = block_hash;

    Vote {
        epoch: 0,
        committee_hash: [0u8; 32],
        genesis_hash: [0u8; 32],
        view,
        block_hash: hash,
        app_hash: [0u8; 32],
        voter,
        signature: vec![voter_id, block_hash],
        bls_pubkey: None,
    }
}

#[test]
fn test_first_vote_valid() {
    let mut detector = EquivocationDetector::new();
    let vote = test_vote(1, 1, 10);

    match detector.check_vote(&vote) {
        VoteCheckResult::Valid => {}
        _ => panic!("Expected Valid result"),
    }
}

#[test]
fn test_duplicate_vote_allowed() {
    let mut detector = EquivocationDetector::new();
    let vote = test_vote(1, 1, 10);

    detector.check_vote(&vote);
    match detector.check_vote(&vote) {
        VoteCheckResult::Duplicate => {}
        _ => panic!("Expected Duplicate result"),
    }
}

#[test]
fn test_equivocation_detected() {
    let mut detector = EquivocationDetector::new();

    // First vote for block 10
    let vote1 = test_vote(1, 1, 10);
    detector.check_vote(&vote1);

    // Second vote for different block 20 in same view
    let vote2 = test_vote(1, 1, 20);
    match detector.check_vote(&vote2) {
        VoteCheckResult::Equivocation(proof) => {
            assert_eq!(proof.view, 1);
            assert_eq!(proof.hash_a[0], 10);
            assert_eq!(proof.hash_b[0], 20);
        }
        _ => panic!("Expected Equivocation result"),
    }

    assert!(detector.has_equivocated(&vote1.voter));
}

#[test]
fn test_different_views_not_equivocation() {
    let mut detector = EquivocationDetector::new();

    // Vote for block 10 in view 1
    let vote1 = test_vote(1, 1, 10);
    detector.check_vote(&vote1);

    // Vote for different block 20 in view 2 (different view, OK)
    let vote2 = test_vote(2, 1, 20);
    match detector.check_vote(&vote2) {
        VoteCheckResult::Valid => {}
        _ => panic!("Expected Valid result for different view"),
    }
}

#[test]
fn test_different_voters_not_equivocation() {
    let mut detector = EquivocationDetector::new();

    // Voter 1 votes for block 10
    let vote1 = test_vote(1, 1, 10);
    detector.check_vote(&vote1);

    // Voter 2 votes for different block 20 (different voter, OK)
    let vote2 = test_vote(1, 2, 20);
    match detector.check_vote(&vote2) {
        VoteCheckResult::Valid => {}
        _ => panic!("Expected Valid result for different voter"),
    }
}

#[test]
fn test_prune_old_votes() {
    let mut detector = EquivocationDetector::new();

    // Add votes for views 1, 2, 3
    for view in 1..=3 {
        let vote = test_vote(view, 1, view as u8);
        detector.check_vote(&vote);
    }

    assert_eq!(detector.stats().tracked_votes, 3);

    // Prune below view 3
    detector.prune_below(3);
    assert_eq!(detector.stats().tracked_votes, 1);
}

#[test]
fn test_take_equivocations() {
    let mut detector = EquivocationDetector::new();

    // Create equivocation
    detector.check_vote(&test_vote(1, 1, 10));
    detector.check_vote(&test_vote(1, 1, 20));

    let equivocations = detector.take_equivocations();
    assert_eq!(equivocations.len(), 1);

    // Should be empty after taking
    assert!(detector.take_equivocations().is_empty());
}
