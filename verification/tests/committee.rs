use hyperlicked::consensus::committee::{
    form_certificate, verify_certificate, verify_equivocation_proof, verify_vote,
};
use hyperlicked::consensus::equivocation::EquivocationProof;
use hyperlicked::crypto::{aggregate, BlsSecretKey};
use hyperlicked::types::certificate::Certificate;
use hyperlicked::types::committee::Committee;
use hyperlicked::types::context::ConsensusContext;
use hyperlicked::types::settings::ConsensusConfig;
use hyperlicked::types::vote::Vote;

fn fixture_with_powers(
    powers: &[u64],
) -> (Committee, Vec<BlsSecretKey>, Vec<[u8; 32]>, [u8; 32], [u8; 32]) {
    let voters: Vec<[u8; 32]> = (1..=powers.len()).map(|id| [id as u8; 32]).collect();
    let secrets: Vec<_> = (1..=powers.len())
        .map(|id| {
            let mut seed = [0u8; 32];
            seed[0] = id as u8;
            BlsSecretKey::from_seed(&seed)
        })
        .collect();
    let config = ConsensusConfig {
        epoch: 0,
        genesis_hash: [0u8; 32],
        node_id: voters[0],
        validators: voters.clone(),
        voting_powers: powers.to_vec(),
        view_timeout_ms: 1000,
        bls_pubkeys: secrets
            .iter()
            .map(|secret| secret.public_key())
            .collect(),
        bls_secret_key: Some(secrets[0].to_bytes()),
    };
    (
        config.committee().ok().unwrap(),
        secrets,
        voters,
        [7u8; 32],
        [8u8; 32],
    )
}

fn fixture() -> (Committee, Vec<BlsSecretKey>, Vec<[u8; 32]>, [u8; 32], [u8; 32]) {
    fixture_with_powers(&[1, 1, 1, 1])
}

fn votes(
    context: ConsensusContext,
    secrets: &[BlsSecretKey],
    voters: &[[u8; 32]],
    count: usize,
    block_hash: [u8; 32],
    app_hash: [u8; 32],
) -> Vec<Vote> {
    (0..count)
        .map(|index| {
            Vote::new_bls(
                context,
                3,
                block_hash,
                app_hash,
                voters[index],
                &secrets[index],
            )
        })
        .collect()
}

#[test]
fn weighted_quorum_accepts_more_than_two_thirds() {
    let (committee, secrets, voters, block_hash, app_hash) = fixture();
    let context = committee.initial_context();
    let cert = form_certificate(
        &committee,
        context,
        votes(context, &secrets, &voters, 3, block_hash, app_hash),
        true,
    )
    .ok().unwrap();
    assert!(verify_certificate(
        &committee,
        &cert,
        context,
        3,
        &block_hash,
        Some(app_hash),
        true,
    )
    .is_ok());
}

#[test]
fn exactly_two_thirds_is_rejected() {
    let (committee, secrets, voters, block_hash, app_hash) = fixture_with_powers(&[1, 1, 1]);
    let context = committee.initial_context();
    let cert = Certificate::new_bls(
        context,
        3,
        block_hash,
        votes(context, &secrets, &voters, 2, block_hash, app_hash),
        aggregate(
            &votes(context, &secrets, &voters, 2, block_hash, app_hash)
                .iter()
                .map(|vote| vote.signature.clone())
                .collect::<Vec<_>>(),
        )
        .unwrap(),
    )
    .ok().unwrap();
    assert!(verify_certificate(
        &committee,
        &cert,
        context,
        3,
        &block_hash,
        Some(app_hash),
        true,
    )
    .is_err());
}

#[test]
fn unequal_power_boundary_is_enforced() {
    // The high-power signer alone is exactly 2/3 (4/6), so strict quorum
    // must reject it.  Adding either one-power validator makes it 5/6.
    let (committee, secrets, voters, block_hash, app_hash) = fixture_with_powers(&[4, 1, 1]);
    let context = committee.initial_context();
    let high_only = votes(context, &secrets, &voters, 1, block_hash, app_hash);
    assert!(form_certificate(&committee, context, high_only, true).is_err());

    let high_plus_low = vec![
        Vote::new_bls(context, 3, block_hash, app_hash, voters[0], &secrets[0]),
        Vote::new_bls(context, 3, block_hash, app_hash, voters[1], &secrets[1]),
    ];
    assert!(form_certificate(&committee, context, high_plus_low, true).is_ok());
}

#[test]
fn duplicate_unknown_and_key_mismatch_are_rejected() {
    let (committee, secrets, voters, block_hash, app_hash) = fixture();
    let context = committee.initial_context();
    let valid = Vote::new_bls(context, 3, block_hash, app_hash, voters[0], &secrets[0]);
    assert!(verify_vote(&committee, &valid, context, 3, &block_hash, &app_hash, true).is_ok());

    let mut unknown = valid.clone();
    unknown.voter = [99u8; 32];
    assert!(verify_vote(
        &committee,
        &unknown,
        context,
        3,
        &block_hash,
        &app_hash,
        true
    )
    .is_err());

    let mut wrong_key = valid.clone();
    wrong_key.bls_pubkey = Some(secrets[1].public_key());
    assert!(verify_vote(
        &committee,
        &wrong_key,
        context,
        3,
        &block_hash,
        &app_hash,
        true
    )
    .is_err());

    let duplicate = Certificate {
        epoch: context.epoch,
        committee_hash: context.committee_hash,
        genesis_hash: context.genesis_hash,
        view: 3,
        block_hash,
        app_hash: Some(app_hash),
        votes: vec![],
        voters: vec![voters[0], voters[0]],
        bls_pubkeys: vec![
            secrets[0].public_key(),
            secrets[0].public_key(),
        ],
        agg_signature: vec![0u8; 96],
    };
    assert!(verify_certificate(
        &committee,
        &duplicate,
        context,
        3,
        &block_hash,
        Some(app_hash),
        true
    )
    .is_err());
}

#[test]
fn wrong_vote_bindings_are_rejected() {
    let (committee, secrets, voters, block_hash, app_hash) = fixture();
    let context = committee.initial_context();
    let vote = Vote::new_bls(context, 3, block_hash, app_hash, voters[0], &secrets[0]);
    assert!(verify_vote(&committee, &vote, context, 4, &block_hash, &app_hash, true).is_err());
    assert!(verify_vote(&committee, &vote, context, 3, &[9u8; 32], &app_hash, true).is_err());
    assert!(verify_vote(&committee, &vote, context, 3, &block_hash, &[9u8; 32], true).is_err());

    let wrong_context = ConsensusContext::new(0, [99u8; 32]);
    assert!(verify_vote(
        &committee,
        &vote,
        wrong_context,
        3,
        &block_hash,
        &app_hash,
        true
    )
    .is_err());
}

#[test]
fn equivocation_proof_reconstructs_and_verifies_both_votes() {
    let (committee, secrets, voters, _, _) = fixture();
    let context = committee.context_with_genesis(0, [9u8; 32]);
    let vote_a = Vote::new_bls(context, 3, [1u8; 32], [11u8; 32], voters[0], &secrets[0]);
    let vote_b = Vote::new_bls(context, 3, [2u8; 32], [12u8; 32], voters[0], &secrets[0]);
    let proof = EquivocationProof {
        context,
        offender: voters[0],
        view: 3,
        hash_a: vote_a.block_hash,
        app_hash_a: vote_a.app_hash,
        hash_b: vote_b.block_hash,
        app_hash_b: vote_b.app_hash,
        signature_a: vote_a.signature,
        signature_b: vote_b.signature,
    };
    assert!(verify_equivocation_proof(&committee, &proof, context, true).is_ok());

    let mut forged = proof.clone();
    forged.signature_b[0] ^= 1;
    assert!(verify_equivocation_proof(&committee, &forged, context, true).is_err());

    let mut wrong_context = proof.clone();
    wrong_context.context.genesis_hash = [8u8; 32];
    assert!(verify_equivocation_proof(&committee, &wrong_context, context, true).is_err());

    let mut noncanonical = proof;
    std::mem::swap(&mut noncanonical.hash_a, &mut noncanonical.hash_b);
    std::mem::swap(&mut noncanonical.app_hash_a, &mut noncanonical.app_hash_b);
    std::mem::swap(&mut noncanonical.signature_a, &mut noncanonical.signature_b);
    assert!(verify_equivocation_proof(&committee, &noncanonical, context, true).is_err());
}
