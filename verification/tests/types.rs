use hyperlicked::bytes::{bytes_eq, hash_eq, hash_less};
use hyperlicked::config::{parse_signed, parse_unsigned, split_list, Config, EnvVars, Mode, NodeRole};
use hyperlicked::consensus::aggregator::RateLimitError;
use hyperlicked::consensus::committee::{form_certificate, verify_certificate, VerifyError};
use hyperlicked::consensus::equivocation::{EquivocationProof, ProofError};
use hyperlicked::consensus::evidence::{
    committed_equivocation_proofs, proof_from_committed_evidence, ConsensusTransaction, Evidence,
    EvidenceError, EvidenceType,
};
use hyperlicked::consensus::persistence::retry_delay_ms;
use hyperlicked::consensus::safety::SafetyError;
use hyperlicked::consensus::timeout::TimeoutError;
use hyperlicked::consensus::view_change::{
    create_signed_view_change_with_context, validate_view_change_with_committee_and_context,
    ViewChangeCollector, ViewChangeError, MAX_FUTURE_VIEWS,
};
use hyperlicked::crypto::{aggregate, verify_signature, BlsSecretKey};
use hyperlicked::text::{put_decimal, put_hash_text, trim_text};
use hyperlicked::types::block::{
    Block, BlockError, CommitmentV2, MAX_BLOCK_FUTURE_DRIFT_MS, MAX_BLOCK_PAST_DRIFT_MS,
    MAX_BLOCK_PAYLOAD_SIZE, MAX_BLOCK_TIMESTAMP_STEP_MS,
};
use hyperlicked::types::certificate::{Certificate, CertificateError};
use hyperlicked::types::committee::{
    Committee, CommitteeConfigError, CommitteeMember, QuorumError,
};
use hyperlicked::types::context::ConsensusContext;
use hyperlicked::types::settings::{genesis_domain_hash, ConsensusConfig};
use hyperlicked::types::vote::{build_vote_message, Vote};

fn id(i: u8) -> [u8; 32] {
    [i; 32]
}

fn secret(i: u8) -> BlsSecretKey {
    BlsSecretKey::from_seed(&[i; 32])
}

fn committee(powers: &[u128]) -> Committee {
    let members = powers
        .iter()
        .enumerate()
        .map(|(i, power)| CommitteeMember {
            node_id: id(i as u8 + 1),
            voting_power: *power,
            bls_pubkey: Some(secret(i as u8 + 1).public_key()),
        })
        .collect();
    Committee::new(members).expect("valid committee")
}

fn signed_vote(context: ConsensusContext, i: u8, view: u64) -> Vote {
    Vote::new_bls(context, view, [7u8; 32], [8u8; 32], id(i), &secret(i))
}

#[test]
fn digests_are_sha256() {
    // The digest of the single byte five, which encodes an empty list.
    let root = CommitmentV2::default().root();
    let hex: String = root.iter().map(|b| format!("{:02x}", b)).collect();
    assert_eq!(
        hex,
        "e77b9a9ae9e30b0dbdb6f510a264ef9de781501d7b6b92ae89eb059c5ab743db"
    );
    let other = CommitmentV2 {
        receipts: vec![vec![1]],
    };
    assert_ne!(other.root(), root);
}

#[test]
fn signatures_bind_key_and_message() {
    let message = b"message".to_vec();
    let signature = secret(1).sign(&message);
    let key = secret(1).public_key();
    assert_eq!(signature.len(), 96);
    assert_eq!(key.len(), 48);
    assert!(verify_signature(&key, &message, &signature));
    assert!(!verify_signature(&secret(2).public_key(), &message, &signature));
    assert!(!verify_signature(&key, &b"massage".to_vec(), &signature));
    assert!(!verify_signature(&key, &message, &vec![0u8; 96]));
    assert!(!verify_signature(&vec![1, 2], &message, &signature));
    assert_eq!(secret(1).to_bytes(), [1u8; 32]);
}

#[test]
fn aggregates_verify_as_certificates() {
    let committee = committee(&[1, 1, 1, 1]);
    let context = committee.context_with_genesis(0, [9u8; 32]);
    let votes: Vec<Vote> = [3u8, 1, 2]
        .iter()
        .map(|i| signed_vote(context, *i, 5))
        .collect();
    let qc = form_certificate(&committee, context, votes.clone(), true).unwrap();
    // Voters are listed in order, and the votes themselves are not carried.
    assert_eq!(qc.voters, vec![id(1), id(2), id(3)]);
    assert!(qc.votes.is_empty());
    let ordered: Vec<Vec<u8>> = [1u8, 2, 3]
        .iter()
        .map(|i| signed_vote(context, *i, 5).signature)
        .collect();
    assert_eq!(aggregate(&ordered), Some(qc.agg_signature.clone()));
    assert_ne!(qc.agg_signature, ordered[0]);
    assert_eq!(
        verify_certificate(&committee, &qc, context, 5, &[7u8; 32], Some([8u8; 32]), true),
        Ok(())
    );
    assert_eq!(
        verify_certificate(&committee, &qc, context, 5, &[7u8; 32], Some([9u8; 32]), true),
        Err(VerifyError::AppHashMismatch)
    );
    let mut forged = qc.clone();
    forged.agg_signature = ordered[0].clone();
    assert_eq!(
        verify_certificate(&committee, &forged, context, 5, &[7u8; 32], None, true),
        Err(VerifyError::SignatureInvalid)
    );
    let mut fewer = qc.clone();
    fewer.voters.pop();
    assert_eq!(
        verify_certificate(&committee, &fewer, context, 5, &[7u8; 32], None, true),
        Err(VerifyError::CountMismatch)
    );
    assert_eq!(
        form_certificate(&committee, context, votes[..2].to_vec(), true).map(|_| ()),
        Err(VerifyError::NoQuorum)
    );
    assert_eq!(
        form_certificate(&committee, context, vec![], true).map(|_| ()),
        Err(VerifyError::NoVotes)
    );
    assert_eq!(aggregate(&vec![]), None);
    assert_eq!(aggregate(&vec![vec![0u8; 96]]), None);
}

#[test]
fn certificates_bind_context_view_block_and_state() {
    let committee = committee(&[1, 1, 1, 1]);
    let context = committee.context_with_genesis(0, [9u8; 32]);
    let votes: Vec<Vote> = [1u8, 2, 3]
        .iter()
        .map(|i| signed_vote(context, *i, 5))
        .collect();
    let qc = form_certificate(&committee, context, votes, true).unwrap();
    let verify = |context, view, hash: [u8; 32], app_hash| {
        verify_certificate(&committee, &qc, context, view, &hash, Some(app_hash), true)
    };
    assert_eq!(verify(context, 5, [7u8; 32], [8u8; 32]), Ok(()));
    let later = committee.context_with_genesis(1, [9u8; 32]);
    assert_eq!(verify(later, 5, [7u8; 32], [8u8; 32]), Err(VerifyError::MessageContext));
    let elsewhere = committee.context_with_genesis(0, [10u8; 32]);
    assert_eq!(verify(elsewhere, 5, [7u8; 32], [8u8; 32]), Err(VerifyError::MessageContext));
    assert_eq!(
        verify(context, 6, [7u8; 32], [8u8; 32]),
        Err(VerifyError::ViewMismatch { found: 5, expected: 6 })
    );
    assert_eq!(verify(context, 5, [6u8; 32], [8u8; 32]), Err(VerifyError::BlockMismatch));
    assert_eq!(verify(context, 5, [7u8; 32], [7u8; 32]), Err(VerifyError::AppHashMismatch));
}

#[test]
fn block_identity_covers_everything_but_the_certificate() {
    let context = ConsensusContext::with_genesis(1, [2u8; 32], [3u8; 32]);
    let base = Block {
        epoch: 1,
        committee_hash: [2u8; 32],
        genesis_hash: [3u8; 32],
        view: 4,
        height: 5,
        parent: [6u8; 32],
        payload: vec![7],
        proposer: [8u8; 32],
        commitment_root: [9u8; 32],
        app_hash: [10u8; 32],
        timestamp: 11,
        justify: None,
    };
    let mut variants = vec![base.clone(); 11];
    variants[0].epoch = 2;
    variants[1].committee_hash = [0u8; 32];
    variants[2].genesis_hash = [0u8; 32];
    variants[3].view = 5;
    variants[4].height = 6;
    variants[5].parent = [0u8; 32];
    variants[6].payload = vec![8];
    variants[7].proposer = [0u8; 32];
    variants[8].commitment_root = [0u8; 32];
    variants[9].app_hash = [0u8; 32];
    variants[10].timestamp = 12;
    for variant in &variants {
        assert_ne!(variant.hash(), base.hash());
    }
    let mut justified = base.clone();
    justified.justify = Some(
        Certificate::new(
            context,
            4,
            [6u8; 32],
            vec![Vote::new(context, 4, [6u8; 32], [1u8; 32], id(1))],
        )
        .unwrap(),
    );
    assert_eq!(justified.hash(), base.hash());
    assert!(base.validate_context(context).is_ok());
    assert!(base
        .validate_context(ConsensusContext::new(1, [2u8; 32]))
        .is_err());
}

#[test]
fn block_bounds() {
    let context = ConsensusContext::new(0, [1u8; 32]);
    let mut block = Block::genesis(context);
    assert_eq!(block.validate(), Ok(()));
    block.height = 1;
    assert_eq!(block.validate(), Err(BlockError::MissingCommitmentRoot));
    block.commitment_root = [1u8; 32];
    assert_eq!(block.validate(), Ok(()));
    block.payload = vec![0u8; MAX_BLOCK_PAYLOAD_SIZE + 1];
    assert_eq!(block.validate(), Err(BlockError::PayloadTooLarge));

    block.timestamp = 1_000;
    assert_eq!(
        block.validate_parent_timestamp(1_001),
        Err(BlockError::BeforeParent)
    );
    assert_eq!(block.validate_parent_timestamp(1_000), Ok(()));
    block.timestamp = 1_000 + MAX_BLOCK_TIMESTAMP_STEP_MS;
    assert_eq!(block.validate_parent_timestamp(1_000), Ok(()));
    block.timestamp += 1;
    assert_eq!(
        block.validate_parent_timestamp(1_000),
        Err(BlockError::StepTooLarge)
    );
    assert_eq!(block.validate_parent_timestamp(0), Ok(()));

    let now = 10_000_000;
    block.timestamp = now + MAX_BLOCK_FUTURE_DRIFT_MS;
    assert_eq!(block.validate_live_timestamp(0, now), Ok(()));
    block.timestamp += 1;
    assert_eq!(
        block.validate_live_timestamp(0, now),
        Err(BlockError::TooNew)
    );
    block.timestamp = now - MAX_BLOCK_PAST_DRIFT_MS;
    assert_eq!(block.validate_live_timestamp(0, now), Ok(()));
    block.timestamp -= 1;
    assert_eq!(
        block.validate_live_timestamp(0, now),
        Err(BlockError::TooOld)
    );
    assert_eq!(block.validate_live_timestamp(block.timestamp, now), Ok(()));
}

#[test]
fn certificates_carry_votes_for_one_block() {
    let context = ConsensusContext::new(0, [1u8; 32]);
    let vote = Vote::new(context, 1, [2u8; 32], [3u8; 32], id(1));
    let other = Vote::new(context, 1, [2u8; 32], [4u8; 32], id(2));
    assert!(matches!(
        Certificate::new(context, 1, [2u8; 32], vec![]),
        Err(CertificateError::NoVotes)
    ));
    assert!(matches!(
        Certificate::new(context, 1, [2u8; 32], vec![vote.clone(), other]),
        Err(CertificateError::VoteMismatch)
    ));
    assert!(matches!(
        Certificate::new_bls(context, 1, [2u8; 32], vec![vote.clone()], vec![1u8; 96]),
        Err(CertificateError::MissingKey)
    ));
    let plain = Certificate::new(context, 1, [2u8; 32], vec![vote]).unwrap();
    assert_eq!(plain.vote_count(), 1);
    assert_eq!(plain.signers(), vec![id(1)]);
    assert!(!plain.is_bls());
}

#[test]
fn vote_messages_differ_in_every_field() {
    let context = ConsensusContext::with_genesis(1, [2u8; 32], [3u8; 32]);
    let base = build_vote_message(context, 4, &[5u8; 32], &[6u8; 32]);
    let later = ConsensusContext::with_genesis(2, [2u8; 32], [3u8; 32]);
    for other in [
        build_vote_message(later, 4, &[5u8; 32], &[6u8; 32]),
        build_vote_message(context, 5, &[5u8; 32], &[6u8; 32]),
        build_vote_message(context, 4, &[6u8; 32], &[6u8; 32]),
        build_vote_message(context, 4, &[5u8; 32], &[5u8; 32]),
    ] {
        assert_ne!(other, base);
    }
    assert_eq!(
        signed_vote(context, 1, 4).signing_data_common(),
        build_vote_message(context, 4, &[7u8; 32], &[8u8; 32])
    );
    assert!(signed_vote(context, 1, 4).verify_bls());
}

#[test]
fn committees_are_checked_and_ordered() {
    let mut config = ConsensusConfig::single_node();
    assert!(config.committee().is_ok());
    assert!(config.is_leader(12));
    assert_eq!(config.n(), 1);
    config.validators.push(config.node_id);
    assert!(matches!(
        config.committee(),
        Err(CommitteeConfigError::PowerCount)
    ));
    config.voting_powers.push(1);
    assert!(matches!(
        config.committee(),
        Err(CommitteeConfigError::KeyCount)
    ));
    config.bls_pubkeys.push(secret(2).public_key());
    assert!(matches!(
        config.committee(),
        Err(CommitteeConfigError::DuplicateValidator)
    ));
    config.validators[1] = id(200);
    assert!(config.committee().is_ok());
    config.voting_powers[1] = 0;
    assert!(matches!(
        config.committee(),
        Err(CommitteeConfigError::ZeroPower)
    ));
    config.validators = vec![];
    assert!(matches!(
        config.committee(),
        Err(CommitteeConfigError::Empty)
    ));

    let four = committee(&[1, 1, 1, 1]);
    assert_eq!(four.len(), 4);
    assert!(four.bls_enabled());
    assert_eq!(four.leader(0), id(2));
    assert_eq!(four.leader(3), id(1));
    assert_eq!(four.leader(u64::MAX), four.leader(3));
    assert_ne!(four.hash(), committee(&[1, 1, 1, 2]).hash());
    assert!(four.validate_context(four.initial_context()).is_ok());
    assert_eq!(
        four.has_weighted_quorum(&vec![id(1), id(1)]),
        Err(QuorumError::DuplicateSigner)
    );
    assert_eq!(
        four.has_weighted_quorum(&vec![id(1), id(9)]),
        Err(QuorumError::UnknownSigner)
    );
    assert_eq!(
        four.has_weighted_quorum(&vec![id(1), id(2), id(3)]),
        Ok(true)
    );
    assert_eq!(four.has_weighted_quorum(&vec![id(1), id(2)]), Ok(false));
    let name = b"one".to_vec();
    assert_ne!(
        genesis_domain_hash(&name, 0, 1000, [1u8; 32]),
        genesis_domain_hash(&b"two".to_vec(), 0, 1000, [1u8; 32])
    );
}

#[test]
fn view_changes_are_bounded_and_collected() {
    let committee = committee(&[1, 1, 1, 1]);
    let context = committee.context_with_genesis(0, [9u8; 32]);
    let change = |i: u8, to: u64| {
        create_signed_view_change_with_context(context, 5, to, None, id(i), &secret(i))
    };
    let check = |vc| validate_view_change_with_committee_and_context(&vc, &committee, context, 5);
    assert_eq!(check(change(1, 6)), Ok(()));
    assert_eq!(check(change(1, 5)), Err(ViewChangeError::NotForward));
    assert_eq!(
        check(change(1, 6 + MAX_FUTURE_VIEWS)),
        Err(ViewChangeError::TooFarAhead)
    );
    assert_eq!(check(change(9, 6)), Err(ViewChangeError::UnknownSender));
    let mut stolen = change(1, 6);
    stolen.sender = id(2);
    assert_eq!(check(stolen), Err(ViewChangeError::InvalidSignature));

    let mut collector =
        ViewChangeCollector::with_committee_and_context(committee.clone(), context).unwrap();
    assert!(collector.add(change(1, 6)).is_none());
    assert!(collector.add(change(1, 6)).is_none());
    assert!(collector.add(change(2, 6)).is_none());
    let certificate = collector.add(change(3, 6)).expect("three of four");
    assert_eq!(certificate.view, 6);
    assert_eq!(certificate.view_changes.len(), 3);
}

fn double_vote() -> Evidence {
    Evidence {
        evidence_type: EvidenceType::DoubleVote,
        offender: id(3),
        view: 4,
        timestamp: 0,
        context: ConsensusContext::with_genesis(0, [1u8; 32], [2u8; 32]),
        hash_a: [5u8; 32],
        app_hash_a: [6u8; 32],
        hash_b: [7u8; 32],
        app_hash_b: [8u8; 32],
        signature_a: vec![1u8; 96],
        signature_b: vec![2u8; 96],
    }
}

#[test]
fn committed_evidence_is_read_strictly() {
    let read = proof_from_committed_evidence(&double_vote())
        .unwrap()
        .expect("a double vote");
    assert_eq!(read.hash_a, [5u8; 32]);
    let mut other = double_vote();
    other.evidence_type = EvidenceType::Other;
    assert!(proof_from_committed_evidence(&other).unwrap().is_none());
    let mut dated = double_vote();
    dated.timestamp = 1;
    assert!(matches!(
        proof_from_committed_evidence(&dated),
        Err(EvidenceError::NonzeroTimestamp)
    ));
    let mut reversed = double_vote();
    reversed.hash_a = [9u8; 32];
    assert!(matches!(
        proof_from_committed_evidence(&reversed),
        Err(EvidenceError::Proof(ProofError::NotCanonical))
    ));
    let entries = |submitter: String| {
        vec![
            ConsensusTransaction::Other,
            ConsensusTransaction::SubmitEvidence {
                submitter,
                evidence: double_vote(),
            },
        ]
    };
    let named = format!("system:equivocation:{}", "03".repeat(32));
    assert_eq!(
        committed_equivocation_proofs(&entries(named)).unwrap().len(),
        1
    );
    assert!(matches!(
        committed_equivocation_proofs(&entries("mallory".to_string())),
        Err(EvidenceError::InvalidSubmitter)
    ));
}

#[test]
fn proofs_have_one_canonical_form() {
    let evidence = double_vote();
    let proof = EquivocationProof {
        context: evidence.context,
        offender: evidence.offender,
        view: evidence.view,
        hash_a: evidence.hash_b,
        app_hash_a: evidence.app_hash_b,
        hash_b: evidence.hash_a,
        app_hash_b: evidence.app_hash_a,
        signature_a: evidence.signature_b,
        signature_b: evidence.signature_a,
    };
    assert_eq!(proof.validate_canonical(), Err(ProofError::NotCanonical));
    let canonical = proof.canonicalized().unwrap();
    assert_eq!(canonical.validate_canonical(), Ok(()));
    assert_eq!(canonical.hash_a, [5u8; 32]);
    assert_eq!(canonical.signature_a, vec![1u8; 96]);
    assert_eq!(
        canonical.canonicalized().unwrap().journal_key(),
        canonical.journal_key()
    );
    let mut other = canonical.clone();
    other.view = 5;
    assert_eq!(other.journal_key(), canonical.journal_key());
    other.offender = id(4);
    assert_ne!(other.journal_key(), canonical.journal_key());
    let mut short = canonical.clone();
    short.signature_b = vec![0u8; 95];
    assert_eq!(
        short.validate_canonical(),
        Err(ProofError::SignatureLength)
    );
    let mut same = canonical.clone();
    same.hash_b = same.hash_a;
    assert_eq!(same.validate_canonical(), Err(ProofError::SameBlock));
    let mut domainless = canonical;
    domainless.context = ConsensusContext::new(0, [1u8; 32]);
    assert_eq!(
        domainless.validate_canonical(),
        Err(ProofError::NoGenesis)
    );
}

#[test]
fn numbers_and_lists_are_parsed() {
    assert_eq!(parse_unsigned("0", 10), Some(0));
    assert_eq!(parse_unsigned("+7", 10), Some(7));
    assert_eq!(parse_unsigned("10", 10), Some(10));
    assert_eq!(parse_unsigned("11", 10), None);
    assert_eq!(parse_unsigned("", 10), None);
    assert_eq!(parse_unsigned("1x", 10), None);
    assert_eq!(parse_unsigned("-1", 10), None);
    assert_eq!(
        parse_unsigned("18446744073709551615", u64::MAX),
        Some(u64::MAX)
    );
    assert_eq!(parse_unsigned("18446744073709551616", u64::MAX), None);
    assert_eq!(parse_signed("-9223372036854775808"), Some(i64::MIN));
    assert_eq!(parse_signed("9223372036854775808"), None);
    assert_eq!(parse_signed("-0"), Some(0));
    assert_eq!(
        split_list(" a, b ,,c"),
        vec!["a".to_string(), "b".to_string(), "c".to_string()]
    );
    assert!(split_list(" , ").is_empty());
}

#[test]
fn configuration_reads_every_variable() {
    let set = |s: &str| Some(s.to_string());
    let mut vars = EnvVars::unset();
    vars.mode = set("staging");
    vars.node_role = set("rpc");
    vars.dev_faucet_amount = set("55");
    vars.port = set("70000");
    vars.block_time_ms = set("250");
    vars.peers = set("http://a, http://b");
    vars.skip_qc_verify = set("1");
    let config = Config::from_env(&vars);
    assert_eq!(config.mode, Mode::Testnet);
    assert_eq!(config.mode.to_string(), "testnet");
    assert_eq!(config.node_role, NodeRole::Rpc);
    // The faucet and the shortcuts exist in development mode alone.
    assert_eq!(config.faucet_amount, 0);
    assert!(!config.skip_qc_verify);
    assert_eq!(config.block_time_ms, 250);
    assert_eq!(config.peers.len(), 2);
    assert_ne!(config.port, 70000u32 as u16);
    vars.mode = None;
    let config = Config::from_env(&vars);
    assert_eq!(config.faucet_amount, 55);
    assert!(config.skip_qc_verify);
    vars.mode = set("production");
    assert!(Config::from_env(&vars).mode.is_production());
}

#[test]
fn error_texts() {
    assert_eq!(
        SafetyError::AlreadyVoted(12).to_string(),
        "already voted in view 12"
    );
    assert_eq!(
        SafetyError::ViolatesLocking {
            block_view: 3,
            locked_view: 40
        }
        .to_string(),
        "block view 3 violates locking at view 40"
    );
    assert_eq!(
        SafetyError::AppHashMismatch {
            expected: [1u8; 32],
            got: [20u8; 32]
        }
        .to_string(),
        format!(
            "app_hash mismatch: expected {:?}, got {:?}",
            [1u8; 32], [20u8; 32]
        )
    );
    assert_eq!(
        SafetyError::DoesNotExtendHighQC {
            block_parent: [1u8; 32],
            high_qc_hash: [255u8; 32]
        }
        .to_string(),
        format!(
            "block parent {:?} doesn't extend high_qc {:?}",
            [1u8; 32], [255u8; 32]
        )
    );
    let context = ConsensusContext::with_genesis(7, [1u8; 32], [2u8; 32]);
    assert_eq!(
        SafetyError::ContextMismatch {
            expected: context,
            got: context
        }
        .to_string(),
        format!(
            "consensus context mismatch: expected {:?}, got {:?}",
            context, context
        )
    );
    assert_eq!(
        SafetyError::InconsistentContext.to_string(),
        "safety state contains certificates from inconsistent consensus contexts"
    );
    assert_eq!(
        RateLimitError::RateLimitExceeded {
            votes_in_window: 10,
            max: 9
        }
        .to_string(),
        "vote rate limit exceeded: 10 votes in last second (max 9)"
    );
    assert_eq!(
        TimeoutError::InvalidView {
            expected: 1,
            got: 2
        }
        .to_string(),
        "invalid view: expected 1, got 2"
    );
    assert_eq!(
        TimeoutError::UnknownValidator([3u8; 32]).to_string(),
        format!("unknown validator: {:?}", [3u8; 32])
    );
    assert_eq!(
        TimeoutError::DuplicateTimeout([3u8; 32]).to_string(),
        format!("duplicate timeout from {:?}", [3u8; 32])
    );
    assert_eq!(
        TimeoutError::InvalidSignature.to_string(),
        "invalid signature"
    );
    assert_eq!(
        TimeoutError::ContextMismatch {
            expected_epoch: 1,
            expected_committee: "aa".to_string(),
            got_epoch: 2,
            got_committee: "bb".to_string()
        }
        .to_string(),
        "timeout context mismatch: expected epoch 1 / committee aa, got epoch 2 / committee bb"
    );
    let mut text = String::new();
    put_decimal(&mut text, u64::MAX);
    assert_eq!(text, u64::MAX.to_string());
    let mut text = String::new();
    put_hash_text(&mut text, &[9u8; 32]);
    assert_eq!(text, format!("{:?}", [9u8; 32]));
}

#[test]
fn byte_strings_are_compared() {
    assert!(hash_eq(&[1u8; 32], &[1u8; 32]));
    assert!(!hash_eq(&[1u8; 32], &[2u8; 32]));
    assert!(hash_less(&[1u8; 32], &[2u8; 32]));
    assert!(!hash_less(&[2u8; 32], &[2u8; 32]));
    assert!(bytes_eq(&vec![1, 2], &vec![1, 2]));
    assert!(!bytes_eq(&vec![1, 2], &vec![1, 2, 3]));
}

#[test]
fn pauses_between_attempts_grow() {
    assert_eq!(retry_delay_ms(0), 10);
    assert_eq!(retry_delay_ms(1), 100);
    assert_eq!(retry_delay_ms(2), 1_000);
}

#[test]
fn trimming_follows_the_standard_library() {
    for n in 0u32..0x4000 {
        if let Some(c) = char::from_u32(n) {
            let text = format!("{c}a{c}b{c}{c}");
            assert_eq!(trim_text(&text), text.trim());
        }
    }
    assert_eq!(trim_text(" \t\n"), "");
    assert_eq!(trim_text(""), "");
}
