use hyperlicked::consensus::aggregator::{
    RateLimitError, VoteAggregator, VoteRateLimiter, MAX_VOTES_PER_VALIDATOR_PER_SECOND,
};
use hyperlicked::crypto::BlsSecretKey;
use hyperlicked::types::context::ConsensusContext;
use hyperlicked::types::vote::Vote;

fn test_context() -> ConsensusContext {
    ConsensusContext::new(0, [0u8; 32])
}

fn make_vote(view: u64, block_hash: [u8; 32], voter: u8) -> Vote {
    Vote {
        epoch: test_context().epoch,
        committee_hash: test_context().committee_hash,
        genesis_hash: test_context().genesis_hash,
        view,
        block_hash,
        app_hash: [0u8; 32],
        voter: [voter; 32],
        signature: vec![0u8; 64],
        bls_pubkey: None,
    }
}

#[test]
fn test_vote_collection() {
    let mut agg = VoteAggregator::new(2, false);

    let hash = [1u8; 32];
    let vote1 = make_vote(1, hash, 1);
    let vote2 = make_vote(1, hash, 2);

    // First vote - no quorum
    assert!(agg.add_vote(vote1).is_none());
    assert_eq!(agg.vote_count(1, &hash), 1);

    // Second vote - reaches quorum
    let cert = agg.add_vote(vote2);
    assert!(cert.is_some());
    assert_eq!(cert.unwrap().vote_count(), 2);
}

#[test]
fn test_ignores_duplicates() {
    let mut agg = VoteAggregator::new(2, false);

    let hash = [1u8; 32];
    let vote1 = make_vote(1, hash, 1);

    agg.add_vote(vote1.clone());
    agg.add_vote(vote1); // Duplicate

    assert_eq!(agg.vote_count(1, &hash), 1);
}

#[test]
fn test_different_blocks() {
    let mut agg = VoteAggregator::new(2, false);

    let hash1 = [1u8; 32];
    let hash2 = [2u8; 32];

    agg.add_vote(make_vote(1, hash1, 1));
    agg.add_vote(make_vote(1, hash2, 2));

    assert_eq!(agg.vote_count(1, &hash1), 1);
    assert_eq!(agg.vote_count(1, &hash2), 1);
}

#[test]
fn test_prune() {
    let mut agg = VoteAggregator::new(2, false);

    let hash = [1u8; 32];
    agg.add_vote(make_vote(5, hash, 1));
    agg.add_vote(make_vote(10, hash, 2));
    agg.add_vote(make_vote(15, hash, 3));

    agg.prune_below(12);

    assert_eq!(agg.vote_count(5, &hash), 0);
    assert_eq!(agg.vote_count(10, &hash), 0);
    assert_eq!(agg.vote_count(15, &hash), 1);
}

#[test]
fn test_take_votes() {
    let mut agg = VoteAggregator::new(3, false);

    let hash = [1u8; 32];
    agg.add_vote(make_vote(1, hash, 1));
    agg.add_vote(make_vote(1, hash, 2));

    let votes = agg.take_votes(1, &hash);
    assert_eq!(votes.len(), 2);

    // Should be empty now
    assert_eq!(agg.vote_count(1, &hash), 0);
}

#[test]
fn test_bls_verification_accepts_valid() {
    let mut agg = VoteAggregator::new_with_options(1, true, false);

    let hash = [1u8; 32];
    let bls_sk = BlsSecretKey::from_seed(&[42u8; 32]);

    // Create valid BLS-signed vote
    let vote = Vote::new_bls(test_context(), 1, hash, [0u8; 32], [1u8; 32], &bls_sk);

    // Should accept valid vote
    let cert = agg.add_vote(vote);
    assert!(cert.is_some(), "Valid BLS vote should be accepted");
}

#[test]
fn test_bls_verification_rejects_invalid() {
    let mut agg = VoteAggregator::new_with_options(2, true, false);

    let hash = [1u8; 32];
    let bls_sk = BlsSecretKey::from_seed(&[42u8; 32]);

    // Create valid vote then tamper with it
    let mut tampered_vote =
        Vote::new_bls(test_context(), 1, hash, [0u8; 32], [1u8; 32], &bls_sk);
    tampered_vote.block_hash[0] ^= 1; // Tamper with block hash

    // Should reject tampered vote
    agg.add_vote(tampered_vote);
    assert_eq!(
        agg.vote_count(1, &hash),
        0,
        "Tampered vote should be rejected"
    );
}

#[test]
fn test_skip_verification_accepts_invalid() {
    // With skip_verification = true, quorum = 2 so we can check vote is stored
    let mut agg = VoteAggregator::new_with_options(2, true, true);

    let hash = [1u8; 32];
    let bls_sk = BlsSecretKey::from_seed(&[42u8; 32]);

    // Create valid vote then tamper with it
    let mut tampered_vote =
        Vote::new_bls(test_context(), 1, hash, [0u8; 32], [1u8; 32], &bls_sk);
    tampered_vote.block_hash[0] ^= 1; // Tamper
    let tampered_hash = tampered_vote.block_hash;

    // Should accept when verification is skipped (dev mode)
    let cert = agg.add_vote(tampered_vote);
    assert!(cert.is_none(), "Quorum not reached yet");
    // Vote is stored under tampered_hash (because that's what's in the vote)
    assert_eq!(
        agg.vote_count(1, &tampered_hash),
        1,
        "Should accept when verification skipped"
    );
}

// ==========================================================================
// Rate Limiter Tests (CRITICAL-7)
// ==========================================================================

#[test]
fn test_rate_limiter_allows_under_limit() {
    let mut limiter = VoteRateLimiter::new(10);
    let voter = [1u8; 32];

    // First 10 votes should be allowed
    for _ in 0..10 {
        assert!(limiter.check_and_record(&voter).is_ok());
    }

    assert_eq!(limiter.vote_count(&voter), 10);
}

#[test]
fn test_rate_limiter_blocks_over_limit() {
    let mut limiter = VoteRateLimiter::new(5);
    let voter = [1u8; 32];

    // First 5 should succeed
    for _ in 0..5 {
        assert!(limiter.check_and_record(&voter).is_ok());
    }

    // 6th should fail
    let result = limiter.check_and_record(&voter);
    assert!(result.is_err());
    if let Err(RateLimitError::RateLimitExceeded {
        votes_in_window,
        max,
    }) = result
    {
        assert_eq!(votes_in_window, 5);
        assert_eq!(max, 5);
    }
}

#[test]
fn test_rate_limiter_per_validator() {
    let mut limiter = VoteRateLimiter::new(3);
    let voter1 = [1u8; 32];
    let voter2 = [2u8; 32];

    // Each voter has independent limit
    for _ in 0..3 {
        assert!(limiter.check_and_record(&voter1).is_ok());
        assert!(limiter.check_and_record(&voter2).is_ok());
    }

    // Both at limit now
    assert!(limiter.check_and_record(&voter1).is_err());
    assert!(limiter.check_and_record(&voter2).is_err());
}

#[test]
fn test_aggregator_rate_limits_votes() {
    // Use a low quorum so we can test rate limiting kicks in
    let mut agg = VoteAggregator::new(100, false);

    let hash = [1u8; 32];
    let voter = [1u8; 32];

    // Send MAX_VOTES_PER_VALIDATOR_PER_SECOND votes
    for i in 0..MAX_VOTES_PER_VALIDATOR_PER_SECOND {
        let vote = Vote {
            epoch: test_context().epoch,
            committee_hash: test_context().committee_hash,
            genesis_hash: test_context().genesis_hash,
            view: i as u64,
            block_hash: hash,
            app_hash: [0u8; 32],
            voter,
            signature: vec![0u8; 64],
            bls_pubkey: None,
        };
        // Vote for different views to avoid duplicate detection
        agg.add_vote(vote);
    }

    // Next vote should be rate limited (returns None, not added)
    let rate_limited_vote = Vote {
        epoch: test_context().epoch,
        committee_hash: test_context().committee_hash,
        genesis_hash: test_context().genesis_hash,
        view: 1000,
        block_hash: hash,
        app_hash: [0u8; 32],
        voter,
        signature: vec![0u8; 64],
        bls_pubkey: None,
    };

    let result = agg.add_vote(rate_limited_vote);
    assert!(result.is_none(), "Rate limited vote should return None");

    // Verify the vote wasn't stored
    assert_eq!(
        agg.vote_count(1000, &hash),
        0,
        "Rate limited vote should not be stored"
    );
}

#[test]
fn usage_of_the_aggregator() {
    let context = ConsensusContext::new(0, [7u8; 32]);
    let block_hash = [1u8; 32];
    let app_hash = [2u8; 32];
    let mut aggregator = VoteAggregator::new_with_context(context, 2, false);

    let first_vote = Vote::new(context, 1, block_hash, app_hash, [3u8; 32]);
    let second_vote = Vote::new(context, 1, block_hash, app_hash, [4u8; 32]);

    assert!(aggregator.add_vote(first_vote).is_none());
    let certificate = aggregator
        .add_vote(second_vote)
        .expect("the second vote reaches quorum");
    assert_eq!(certificate.context(), context);
    assert_eq!(certificate.view, 1);
    assert_eq!(aggregator.vote_count(1, &block_hash), 2);
}

#[test]
fn forgetting_stale_voters_changes_no_later_answer() {
    let second: u64 = 1_000_000_000;
    let (a, b) = ([1u8; 32], [2u8; 32]);
    let run = |prune: bool| {
        let mut limiter = VoteRateLimiter::new(2);
        let mut answers = Vec::new();
        for (voter, now) in [
            (a, 0),
            (b, second / 2),
            (b, second),
            (a, second + second / 4),
            (b, second + second / 4),
            (b, second + second / 2 + 1),
            (a, 3 * second),
        ] {
            if prune {
                limiter.prune_stale_at(now);
            }
            answers.push(limiter.check_and_record_at(&voter, now));
        }
        answers
    };
    let kept = run(false);
    assert_eq!(kept, run(true));
    assert_eq!(
        kept[4],
        Err(RateLimitError::RateLimitExceeded {
            votes_in_window: 2,
            max: 2
        })
    );
    assert_eq!(kept[5], Ok(()));
}
