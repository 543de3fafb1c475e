use std::cell::{Cell, RefCell};
use std::rc::Rc;

use hyperlicked::consensus::committee::form_certificate;
use hyperlicked::consensus::equivocation::EquivocationProof;
use hyperlicked::consensus::evidence::{ConsensusTransaction, Evidence, EvidenceType};
use hyperlicked::consensus::hooks::{
    AppHook, Applied, EvidenceReading, NoOpApp, PayloadBytes, ValidatorSetUpdate,
};
use hyperlicked::consensus::persistence::{
    Halt, Ledger, MemoryJournal, PersistentStore, Records, Rows, Startup, Attempts,
};
use hyperlicked::consensus::recovery::{
    recovery_resume_view, validate_recovered_chain, RecoveredStore, RecoveryError,
};
use hyperlicked::consensus::runner::chain::BranchError;
use hyperlicked::consensus::runner::commit::check_preflight;
use hyperlicked::consensus::runner::proposal::{LeaderError, ProposalError};
use hyperlicked::consensus::runner::setup::{
    rebroadcast_window, should_rebroadcast_equivocation_batch, LiveError, StartError, TransitionError,
};
use hyperlicked::consensus::runner::views::{
    is_view_in_bounded_window, should_emit_view_change_after_timeout_certificate,
    verify_high_qc_against_block, HighQcError,
};
use hyperlicked::consensus::runner::{
    ConsensusRunner, MAX_PENDING_BLOCKS, MAX_PENDING_BYTES, MAX_PENDING_DEPTH,
    MAX_PENDING_SOFT_BLOCKS, MAX_PENDING_SOFT_BYTES,
};
use hyperlicked::consensus::safety::SafetyError;
use hyperlicked::consensus::store::{BlockStore, MAX_SPECULATIVE_BLOCK_BYTES};
use hyperlicked::consensus::view_change::MAX_FUTURE_VIEWS;
use hyperlicked::crypto::BlsSecretKey;
use hyperlicked::table::Table;
use hyperlicked::types::block::{
    Block, CommitmentV2, MAX_BLOCK_PAST_DRIFT_MS, MAX_BLOCK_PAYLOAD_SIZE,
};
use hyperlicked::types::certificate::Certificate;
use hyperlicked::types::context::ConsensusContext;
use hyperlicked::types::messages::{
    ConsensusState, ConsensusStateView, EpochTransitionProof, Propose, TransitionView,
};
use hyperlicked::types::settings::{genesis_domain_hash, ConsensusConfig};
use hyperlicked::types::vote::Vote;

type Log = Rc<RefCell<Vec<&'static str>>>;

/// A store that records its writes and can be told to fail.
struct RecordingStore {
    inner: Rc<RefCell<MemoryJournal>>,
    events: Log,
    fail_consensus_state: Rc<Cell<bool>>,
    fail_commit_block: Rc<Cell<bool>>,
    pauses: Rc<RefCell<Vec<u64>>>,
}

impl RecordingStore {
    fn new(events: &Log) -> Self {
        RecordingStore {
            inner: Rc::new(RefCell::new(MemoryJournal::new())),
            events: events.clone(),
            fail_consensus_state: Rc::new(Cell::new(false)),
            fail_commit_block: Rc::new(Cell::new(false)),
            pauses: Rc::new(RefCell::new(Vec::new())),
        }
    }
}

impl PersistentStore for RecordingStore {
    fn rows(&self) -> Rows {
        unreachable!("ghost")
    }

    fn durable_state(&self) -> Option<ConsensusStateView> {
        unreachable!("ghost")
    }

    fn evidence(&self) -> Records {
        unreachable!("ghost")
    }

    fn staged(&self) -> Option<TransitionView> {
        unreachable!("ghost")
    }

    fn ledger(&self) -> Ledger {
        unreachable!("ghost")
    }

    fn attempts(&self) -> Attempts {
        unreachable!("ghost")
    }

    fn wf(&self) -> bool {
        unreachable!("ghost")
    }

    fn lemma_rows_finite(&self) {}

    fn lemma_rows_named(&self) {}

    fn get(&self, hash: &[u8; 32]) -> Option<Block> {
        self.inner.borrow().get(hash)
    }

    fn load_consensus_state(&self) -> Result<Option<ConsensusState>, String> {
        self.inner.borrow().load_consensus_state()
    }

    fn load_startup(&self) -> Result<Startup, String> {
        self.inner.borrow().load_startup()
    }

    fn blocks_from_height(&self, from_height: u64) -> Result<Vec<Block>, String> {
        self.inner.borrow().blocks_from_height(from_height)
    }

    fn save_consensus_state(&mut self, state: &ConsensusState) -> Result<(), String> {
        self.events.borrow_mut().push("save_consensus_state");
        if self.fail_consensus_state.get() {
            return Err("injected consensus-state write failure".to_string());
        }
        self.inner.borrow_mut().save_consensus_state(state)
    }

    fn commit_block_with_commitment_and_state_root(
        &mut self,
        block: &Block,
        state: &ConsensusState,
        commitment: Option<&CommitmentV2>,
        state_root: Option<&[u8; 32]>,
    ) -> Result<(), String> {
        self.events.borrow_mut().push("commit_block");
        if self.fail_commit_block.get() {
            return Err("injected finalized commit failure".to_string());
        }
        self.inner
            .borrow_mut()
            .commit_block_with_commitment_and_state_root(block, state, commitment, state_root)
    }

    fn prune_speculative(
        &mut self,
        protected_roots: &Vec<[u8; 32]>,
        max_blocks: usize,
        max_bytes: usize,
    ) -> Result<(), String> {
        self.inner
            .borrow_mut()
            .prune_speculative(protected_roots, max_blocks, max_bytes)
    }

    fn admit_speculative_with_rolling_victim(
        &mut self,
        block: &Block,
        block_bytes: usize,
        protected_roots: &Vec<[u8; 32]>,
        max_blocks: usize,
        max_bytes: usize,
    ) -> Result<(), String> {
        self.events.borrow_mut().push("save_block");
        self.inner
            .borrow_mut()
            .admit_speculative_with_rolling_victim(
                block,
                block_bytes,
                protected_roots,
                max_blocks,
                max_bytes,
            )
    }

    fn save_equivocation_proof(&mut self, evidence: &EquivocationProof) -> Result<(), String> {
        self.events.borrow_mut().push("save_equivocation");
        self.inner.borrow_mut().save_equivocation_proof(evidence)
    }

    fn load_equivocation_proofs(&self) -> Result<Vec<EquivocationProof>, String> {
        self.inner.borrow().load_equivocation_proofs()
    }

    fn delete_equivocation_proof(&mut self, evidence: &EquivocationProof) -> Result<(), String> {
        self.events.borrow_mut().push("delete_equivocation");
        self.inner.borrow_mut().delete_equivocation_proof(evidence)
    }

    fn save_epoch_transition_proof(&mut self, change: &EpochTransitionProof) -> Result<(), String> {
        self.inner.borrow_mut().save_epoch_transition_proof(change)
    }

    fn pause(&mut self, delay_ms: u64) {
        self.pauses.borrow_mut().push(delay_ms);
        self.inner.borrow_mut().pause(delay_ms)
    }
}

/// An application that records what is asked of it.
struct LifecycleApp {
    order: Log,
    commitment: Result<CommitmentV2, String>,
    state_root: Option<[u8; 32]>,
    accused: Option<EquivocationProof>,
    executions: Rc<Cell<usize>>,
}

impl LifecycleApp {
    fn new(order: &Log) -> Self {
        LifecycleApp {
            order: order.clone(),
            commitment: Ok(CommitmentV2::default()),
            state_root: Some([0u8; 32]),
            accused: None,
            executions: Rc::new(Cell::new(0)),
        }
    }
}

impl AppHook for LifecycleApp {
    fn applied(&self) -> Applied {
        unreachable!("ghost")
    }

    fn evidence_in(_payload: PayloadBytes) -> EvidenceReading {
        unreachable!("ghost")
    }

    fn prepare_payload(&self, _parent: &Block) -> Vec<u8> {
        Vec::new()
    }

    fn execute(&mut self, block: &Block) -> [u8; 32] {
        self.executions.set(self.executions.get() + 1);
        block.app_hash
    }

    fn preflight_commitment(&self, _block: &Block) -> Result<Option<CommitmentV2>, String> {
        match &self.commitment {
            Ok(c) => Ok(Some(c.clone())),
            Err(e) => Err(e.clone()),
        }
    }

    fn preflight_state_root(&self, _block: &Block) -> Result<Option<[u8; 32]>, String> {
        match self.state_root {
            Some(root) => Ok(Some(root)),
            None => Err("injected state root failure".to_string()),
        }
    }

    fn commit(&mut self, block: &Block) -> Result<[u8; 32], String> {
        self.order.borrow_mut().push("app_commit");
        Ok(block.app_hash)
    }

    fn submit_equivocation_evidence(&mut self, _evidence: EquivocationProof) -> bool {
        self.order.borrow_mut().push("app_enqueue");
        true
    }

    fn decode_consensus_payload(
        &self,
        _payload: &Vec<u8>,
    ) -> Result<Vec<ConsensusTransaction>, String> {
        let mut entries = Vec::new();
        if let Some(p) = &self.accused {
            let id: String = p.offender.iter().map(|b| format!("{:02x}", b)).collect();
            entries.push(ConsensusTransaction::SubmitEvidence {
                submitter: format!("system:equivocation:{id}"),
                evidence: Evidence {
                    evidence_type: EvidenceType::DoubleVote,
                    offender: p.offender,
                    view: p.view,
                    timestamp: 0,
                    context: p.context,
                    hash_a: p.hash_a,
                    app_hash_a: p.app_hash_a,
                    hash_b: p.hash_b,
                    app_hash_b: p.app_hash_b,
                    signature_a: p.signature_a.clone(),
                    signature_b: p.signature_b.clone(),
                },
            });
        }
        Ok(entries)
    }
}

fn durable_test_config(label: &str) -> ConsensusConfig {
    let mut config = ConsensusConfig::single_node();
    let committee = config.committee().expect("single-node committee");
    config.genesis_hash = genesis_domain_hash(
        &label.as_bytes().to_vec(),
        config.epoch,
        config.view_timeout_ms,
        committee.hash(),
    );
    config
}

const NOW: u64 = 1_700_000_000_000;

fn sign(config: &ConsensusConfig, propose: &mut Propose) {
    let secret = config.bls_secret_key().expect("test BLS key");
    propose.proposer_signature = secret.sign(&propose.signing_data());
}

fn test_block(config: &ConsensusConfig, view: u64, height: u64, parent: [u8; 32]) -> Block {
    let context = config.context().expect("test context");
    Block {
        epoch: context.epoch,
        committee_hash: context.committee_hash,
        genesis_hash: context.genesis_hash,
        view,
        height,
        parent,
        payload: Vec::new(),
        proposer: config.node_id,
        commitment_root: CommitmentV2::default().root(),
        app_hash: [0u8; 32],
        timestamp: NOW,
        justify: None,
    }
}

fn propose_of(config: &ConsensusConfig, block: Block) -> Propose {
    let context = config.context().expect("test context");
    let justify = block.justify.clone();
    let mut propose = Propose {
        epoch: context.epoch,
        committee_hash: context.committee_hash,
        genesis_hash: context.genesis_hash,
        block,
        justify,
        proposer_signature: Vec::new(),
    };
    sign(config, &mut propose);
    propose
}

fn test_propose(config: &ConsensusConfig, view: u64) -> Propose {
    let genesis = Block::genesis(config.context().expect("test context"));
    propose_of(config, test_block(config, view, 1, genesis.hash()))
}

fn own_qc(config: &ConsensusConfig, block: &Block) -> Certificate {
    let context = config.context().expect("test context");
    let committee = config.committee().expect("test committee");
    let secret = config.bls_secret_key().expect("test BLS key");
    form_certificate(
        &committee,
        context,
        vec![Vote::new_bls(
            context,
            block.view,
            block.hash(),
            block.app_hash,
            config.node_id,
            &secret,
        )],
        true,
    )
    .expect("one-node QC should form")
}

fn empty_recovered() -> RecoveredStore {
    RecoveredStore {
        blocks: vec![],
        committed_head: None,
        committed_height: None,
        archive: Table::new(),
    }
}

fn fresh_start() -> Startup {
    Startup {
        journal_capable: true,
        staged_transition: false,
        state: None,
        store: empty_recovered(),
        high_qc_bytes: 0,
        locked_qc_bytes: 0,
    }
}

fn memory_runner(config: &ConsensusConfig) -> ConsensusRunner<NoOpApp, MemoryJournal> {
    ConsensusRunner::<NoOpApp, MemoryJournal>::new(config.clone(), config.node_id, true)
        .expect("construct test runner")
}

fn durable_runner(
    config: &ConsensusConfig,
    store: RecordingStore,
) -> ConsensusRunner<NoOpApp, RecordingStore> {
    ConsensusRunner::new_with_recovery(config.clone(), config.node_id, true, store)
        .expect("construct durable runner")
}

fn state_of(context: ConsensusContext, committed: &Block) -> ConsensusState {
    ConsensusState {
        epoch: context.epoch,
        committee_hash: context.committee_hash,
        genesis_hash: context.genesis_hash,
        high_qc: None,
        locked_qc: None,
        voted_views: Vec::new(),
        current_view: 0,
        committed_height: committed.height,
        committed_hash: committed.hash(),
        consecutive_timeouts: 0,
        vc_sent_for_view: None,
    }
}

fn test_equivocation_proof(config: &ConsensusConfig) -> EquivocationProof {
    let context = config.context().expect("test context");
    let secret = config.bls_secret_key().expect("test BLS key");
    let vote_a = Vote::new_bls(context, 4, [1u8; 32], [11u8; 32], config.node_id, &secret);
    let vote_b = Vote::new_bls(context, 4, [2u8; 32], [12u8; 32], config.node_id, &secret);
    EquivocationProof {
        context,
        offender: config.node_id,
        view: 4,
        hash_a: vote_a.block_hash,
        app_hash_a: vote_a.app_hash,
        hash_b: vote_b.block_hash,
        app_hash_b: vote_b.app_hash,
        signature_a: vote_a.signature,
        signature_b: vote_b.signature,
    }
}

/// Runs one round of a single validator.
fn lead_round<A: AppHook, P: PersistentStore>(
    runner: &mut ConsensusRunner<A, P>,
    now: u64,
) -> Result<Block, LeaderError> {
    let view = runner.current_view();
    assert!(runner.begin_round().expect("begin round"));
    let block = runner.draft_proposal(view, now)?;
    let proposed = block.clone();
    let propose = runner.admit_own_proposal(block, 1_000)?;
    assert_eq!(propose.block.hash(), proposed.hash());
    runner.vote_own_proposal(view, proposed.hash(), proposed.app_hash)?;
    let prepare = runner
        .finish_leader_round(view, proposed.hash())?
        .expect("one vote is a quorum of one");
    assert_eq!(prepare.qc.block_hash, proposed.hash());
    if let Err(halt) = runner.take_certificate(prepare.qc) {
        return Err(LeaderError::Halted(halt));
    }
    Ok(proposed)
}

#[test]
fn timeout_certificate_suppresses_followup_view_change() {
    assert!(!should_emit_view_change_after_timeout_certificate(true));
    assert!(should_emit_view_change_after_timeout_certificate(false));
}

#[test]
fn recovery_resumes_after_the_persisted_high_qc_view() {
    let context = ConsensusContext::new(0, [7u8; 32]);
    let state = ConsensusState {
        epoch: context.epoch,
        committee_hash: context.committee_hash,
        genesis_hash: context.genesis_hash,
        high_qc: Some(Certificate {
            epoch: context.epoch,
            committee_hash: context.committee_hash,
            genesis_hash: context.genesis_hash,
            view: 4,
            block_hash: [8u8; 32],
            app_hash: Some([9u8; 32]),
            votes: Vec::new(),
            voters: Vec::new(),
            bls_pubkeys: Vec::new(),
            agg_signature: Vec::new(),
        }),
        locked_qc: None,
        voted_views: vec![4],
        current_view: 4,
        committed_height: 1,
        committed_hash: [6u8; 32],
        consecutive_timeouts: 3,
        vc_sent_for_view: Some(4),
    };

    assert_eq!(recovery_resume_view(&state), 5);
}

#[test]
fn timeout_view_window_rejects_stale_and_far_future_views() {
    assert!(is_view_in_bounded_window(10, 10));
    assert!(is_view_in_bounded_window(10, 10 + MAX_FUTURE_VIEWS));
    assert!(!is_view_in_bounded_window(10, 9));
    assert!(!is_view_in_bounded_window(10, 11 + MAX_FUTURE_VIEWS));
}

#[test]
fn high_qc_requires_a_matching_local_certified_block() {
    let node_id = [1u8; 32];
    let secret = BlsSecretKey::from_seed(&[7u8; 32]);
    let config = ConsensusConfig {
        epoch: 0,
        genesis_hash: [0u8; 32],
        node_id,
        validators: vec![node_id],
        voting_powers: vec![1],
        view_timeout_ms: 1000,
        bls_pubkeys: vec![secret.public_key()],
        bls_secret_key: Some(secret.to_bytes()),
    };
    let committee = config.committee().expect("valid one-node committee");
    let context = committee.initial_context();
    let block = Block {
        epoch: context.epoch,
        committee_hash: context.committee_hash,
        genesis_hash: context.genesis_hash,
        view: 2,
        height: 1,
        parent: Block::genesis(context).hash(),
        payload: vec![],
        proposer: node_id,
        commitment_root: [0u8; 32],
        app_hash: [9u8; 32],
        timestamp: 1,
        justify: None,
    };
    let vote = Vote::new_bls(
        context,
        block.view,
        block.hash(),
        block.app_hash,
        node_id,
        &secret,
    );
    let qc = form_certificate(&committee, context, vec![vote], true)
        .expect("one-node weighted QC should form");

    assert!(verify_high_qc_against_block(&committee, context, &qc, Some(&block), true).is_ok());
    assert!(verify_high_qc_against_block(&committee, context, &qc, None, true).is_err());

    let mut wrong_view_qc = qc.clone();
    wrong_view_qc.view += 1;
    assert!(verify_high_qc_against_block(
        &committee,
        context,
        &wrong_view_qc,
        Some(&block),
        true,
    )
    .is_err());

    let mut other = block.clone();
    other.timestamp = 2;
    assert!(matches!(
        verify_high_qc_against_block(&committee, context, &qc, Some(&other), true),
        Err(HighQcError::HashMismatch)
    ));
}

#[test]
fn direct_broadcast_does_not_schedule_equivocation_rebroadcast() {
    assert!(!should_rebroadcast_equivocation_batch(false));
    assert!(should_rebroadcast_equivocation_batch(true));
}

#[test]
fn recovery_requires_the_complete_finalized_chain() {
    let config = durable_test_config("recovery-test");
    let committee = config.committee().expect("valid one-node committee");
    let context = config.context().expect("valid recovery context");
    let genesis = Block::genesis(context);
    let state = state_of(context, &genesis);
    let mut store = RecoveredStore {
        blocks: vec![genesis.clone()],
        committed_head: Some(genesis.clone()),
        committed_height: Some(0),
        archive: Table::new(),
    };
    store.archive.put(genesis.hash(), genesis.clone());

    let recovered = validate_recovered_chain(&store, context, &committee, &state, true)
        .expect("genesis-only chain should recover");
    assert_eq!(recovered.len(), 1);

    // An unfinalized child that a crash left behind does not count.
    let mut proposal = test_block(&config, 1, 1, genesis.hash());
    proposal.commitment_root = [0u8; 32];
    proposal.timestamp = 1;
    store.archive.put(proposal.hash(), proposal.clone());
    store.blocks.push(proposal);
    let recovered_with_proposal = validate_recovered_chain(&store, context, &committee, &state, true)
        .expect("unfinalized proposal must not invalidate recovery");
    assert_eq!(recovered_with_proposal.len(), 1);

    let mut missing = state.clone();
    missing.committed_height = 1;
    missing.committed_hash = [3u8; 32];
    assert!(validate_recovered_chain(&store, context, &committee, &missing, true).is_err());
}

#[test]
fn recovery_keeps_uncommitted_high_qc_target_available() {
    let config = durable_test_config("recovery-qc-test");
    let committee = config.committee().expect("valid one-node committee");
    let context = config.context().expect("valid recovery context");
    let genesis = Block::genesis(context);
    let mut block1 = test_block(&config, 1, 1, genesis.hash());
    block1.app_hash = [1u8; 32];
    block1.timestamp = 1;
    let qc1 = own_qc(&config, &block1);
    let mut block2 = test_block(&config, 2, 2, block1.hash());
    block2.app_hash = [2u8; 32];
    block2.timestamp = 2;
    block2.justify = Some(qc1.clone());
    let qc2 = own_qc(&config, &block2);

    let mut state = state_of(context, &block1);
    state.high_qc = Some(qc2);
    state.locked_qc = Some(qc1);
    state.voted_views = vec![1, 2];
    state.current_view = 2;
    let mut store = RecoveredStore {
        blocks: vec![genesis.clone(), block1.clone()],
        committed_head: Some(block1.clone()),
        committed_height: Some(1),
        archive: Table::new(),
    };
    for block in [&genesis, &block1, &block2] {
        store.archive.put(block.hash(), block.clone());
    }

    let recovered = validate_recovered_chain(&store, context, &committee, &state, true)
        .expect("chain and persisted QC references should recover");
    assert_eq!(recovered.len(), 2);
    assert_eq!(
        store.archive.get(&block2.hash()).unwrap().hash(),
        block2.hash()
    );

    // Without the body of the certified block there is nothing to resume on.
    store.archive.remove(&block2.hash());
    assert!(validate_recovered_chain(&store, context, &committee, &state, true).is_err());
}

#[test]
fn recovery_refuses_votes_from_the_future_and_twice() {
    let config = durable_test_config("recovery-votes");
    let committee = config.committee().unwrap();
    let context = config.context().unwrap();
    let genesis = Block::genesis(context);
    let mut state = state_of(context, &genesis);
    let mut store = RecoveredStore {
        blocks: vec![genesis.clone()],
        committed_head: Some(genesis.clone()),
        committed_height: Some(0),
        archive: Table::new(),
    };
    store.archive.put(genesis.hash(), genesis.clone());
    state.current_view = 3;
    state.voted_views = vec![1, 3];
    assert!(validate_recovered_chain(&store, context, &committee, &state, true).is_ok());
    state.voted_views = vec![1, 1];
    assert!(matches!(
        validate_recovered_chain(&store, context, &committee, &state, true),
        Err(RecoveryError::RepeatedVote)
    ));
    state.voted_views = vec![4];
    assert!(matches!(
        validate_recovered_chain(&store, context, &committee, &state, true),
        Err(RecoveryError::FutureVote)
    ));
}

#[test]
fn stale_live_proposal_rejects_before_vote_or_persistence() {
    let config = durable_test_config("stale-live-timestamp");
    let events: Log = Rc::new(RefCell::new(Vec::new()));
    let store = RecordingStore::new(&events);
    let mut runner = durable_runner(&config, store);
    events.borrow_mut().clear();

    let mut propose = test_propose(&config, 1);
    propose.block.timestamp = NOW - MAX_BLOCK_PAST_DRIFT_MS - 1;
    sign(&config, &mut propose);
    let block = propose.block.clone();
    let block_hash = block.hash();

    assert!(runner
        .process_proposal(propose.clone(), 1_000, NOW)
        .unwrap()
        .is_none());
    assert!(!runner.has_pending(&block_hash));
    assert!(events.borrow().is_empty());
    assert!(runner.safety().safe_to_vote(&block, [0u8; 32]).is_ok());

    // The same block was fresh a minute ago, and a child may resume from it.
    assert!(runner
        .process_proposal(propose, 1_000, NOW - 10)
        .unwrap()
        .is_some());
    let mut child = test_block(&config, 2, 2, block_hash);
    child.timestamp = block.timestamp;
    child.justify = Some(own_qc(&config, &block));
    let resumed = propose_of(&config, child);
    assert!(runner
        .process_proposal(resumed, 1_000, NOW)
        .unwrap()
        .is_some());
}

#[test]
fn follower_persists_block_then_vote_intent_before_returning_vote() {
    let config = durable_test_config("follower-vote-order");
    let events: Log = Rc::new(RefCell::new(Vec::new()));
    let store = RecordingStore::new(&events);
    let journal = store.inner.clone();
    let mut runner = durable_runner(&config, store);
    events.borrow_mut().clear();

    let propose = test_propose(&config, 1);
    let block = propose.block.clone();
    let vote = runner
        .process_proposal(propose, 1_000, NOW)
        .expect("durable store works")
        .expect("valid proposal should produce a vote");

    assert_eq!(vote.view, 1);
    assert_eq!(*events.borrow(), vec!["save_block", "save_consensus_state"]);
    assert!(journal.borrow().get(&block.hash()).is_some());
    assert!(runner.cache().get(&block.hash()).is_some());
    let persisted = journal
        .borrow()
        .load_consensus_state()
        .expect("load vote intent")
        .expect("vote intent must be durable");
    assert!(persisted.voted_views.contains(&1));
    assert!(matches!(
        runner.safety().safe_to_vote(&block, [0u8; 32]),
        Err(SafetyError::AlreadyVoted(1))
    ));
}

#[test]
fn failed_vote_intent_write_stops_before_live_vote_mutation() {
    let config = durable_test_config("follower-vote-failure");
    let events: Log = Rc::new(RefCell::new(Vec::new()));
    let store = RecordingStore::new(&events);
    let fail = store.fail_consensus_state.clone();
    let mut runner = durable_runner(&config, store);
    events.borrow_mut().clear();
    fail.set(true);

    let propose = test_propose(&config, 1);
    let block = propose.block.clone();
    assert!(
        matches!(
            runner.process_proposal(propose, 1_000, NOW),
            Err(Halt::VoteNotPersisted { view: 1 })
        ),
        "storage failure must fail-stop"
    );
    assert_eq!(events.borrow().first(), Some(&"save_block"));
    assert!(events
        .borrow()
        .iter()
        .skip(1)
        .all(|event| *event == "save_consensus_state"));
    assert_eq!(events.borrow().len(), 4);
    assert!(runner.safety().safe_to_vote(&block, [0u8; 32]).is_ok());
}

#[test]
fn leader_self_vote_persists_intent_before_local_aggregation() {
    let config = durable_test_config("leader-vote-order");
    let events: Log = Rc::new(RefCell::new(Vec::new()));
    let store = RecordingStore::new(&events);
    let journal = store.inner.clone();
    let mut runner = durable_runner(&config, store).with_app(NoOpApp::new());
    events.borrow_mut().clear();

    lead_round(&mut runner, NOW).expect("leader round should complete");

    let block_index = events
        .borrow()
        .iter()
        .position(|event| *event == "save_block")
        .expect("proposal block must be durable");
    let vote_index = events
        .borrow()
        .iter()
        .position(|event| *event == "save_consensus_state")
        .expect("leader vote intent must be durable");
    assert!(block_index < vote_index);
    let persisted = journal
        .borrow()
        .load_consensus_state()
        .expect("load leader vote intent")
        .expect("leader vote intent must remain durable");
    assert!(persisted.voted_views.contains(&0));
}

#[test]
fn finalized_commit_persists_before_application_publish() {
    let config = durable_test_config("runner-commit-order");
    let events: Log = Rc::new(RefCell::new(Vec::new()));
    let store = RecordingStore::new(&events);
    let journal = store.inner.clone();
    let mut runner = durable_runner(&config, store).with_app(LifecycleApp::new(&events));
    let propose = test_propose(&config, 1);
    let block = propose.block.clone();
    assert!(runner
        .process_proposal(propose, 1_000, NOW)
        .unwrap()
        .is_some());
    events.borrow_mut().clear();

    let committed = runner.try_commit(&block.hash()).expect("durable store works");
    assert_eq!(committed.map(|b| b.hash()), Some(block.hash()));
    assert_eq!(*events.borrow(), vec!["commit_block", "app_commit"]);
    let commits = events.borrow().iter().filter(|e| **e == "app_commit").count();
    assert_eq!(commits, 1);
    assert_eq!(runner.committed_height(), 1);
    assert_eq!(runner.committed_hash(), block.hash());
    assert_eq!(runner.cache().get_committed_head().unwrap().hash(), block.hash());
    let persisted = journal.borrow().load_consensus_state().unwrap().unwrap();
    assert_eq!(persisted.committed_height, 1);
    assert_eq!(persisted.committed_hash, block.hash());
    let served = journal.borrow().blocks_from_height(0).unwrap();
    assert_eq!(served.last().map(|b| b.height), Some(1));
}

/// An application that records which answers it gives before a commit.
struct PreflightApp {
    order: Log,
    commitment: CommitmentV2,
    state_root: [u8; 32],
    notes_root: bool,
}

impl AppHook for PreflightApp {
    fn applied(&self) -> Applied {
        unreachable!("ghost")
    }

    fn evidence_in(_payload: PayloadBytes) -> EvidenceReading {
        unreachable!("ghost")
    }

    fn prepare_payload(&self, _parent: &Block) -> Vec<u8> {
        Vec::new()
    }

    fn execute(&mut self, block: &Block) -> [u8; 32] {
        block.app_hash
    }

    fn preflight_commitment(&self, _block: &Block) -> Result<Option<CommitmentV2>, String> {
        self.order.borrow_mut().push("app_preflight");
        Ok(Some(self.commitment.clone()))
    }

    fn preflight_state_root(&self, _block: &Block) -> Result<Option<[u8; 32]>, String> {
        if self.notes_root {
            self.order.borrow_mut().push("app_state_root");
        }
        Ok(Some(self.state_root))
    }

    fn commit(&mut self, block: &Block) -> Result<[u8; 32], String> {
        self.order.borrow_mut().push("app_commit");
        Ok(block.app_hash)
    }

    fn decode_consensus_payload(
        &self,
        _payload: &Vec<u8>,
    ) -> Result<Vec<ConsensusTransaction>, String> {
        Ok(Vec::new())
    }
}

#[test]
fn finalized_commit_persists_the_preflight_commitment_atomically() {
    let config = durable_test_config("runner-commitment-order");
    let order: Log = Rc::new(RefCell::new(Vec::new()));
    let store = RecordingStore::new(&order);
    let journal = store.inner.clone();
    let commitment = CommitmentV2 { receipts: Vec::new() };
    let mut runner = durable_runner(&config, store).with_app(PreflightApp {
        order: order.clone(),
        commitment: commitment.clone(),
        state_root: [0u8; 32],
        notes_root: false,
    });
    order.borrow_mut().clear();

    let genesis = Block::genesis(config.context().expect("test context"));
    let mut block = test_block(&config, 1, 1, genesis.hash());
    block.commitment_root = commitment.root();
    block.timestamp = 1;
    runner.insert_pending(block.clone()).expect("room for the block");
    assert!(runner.try_commit(&block.hash()).unwrap().is_some());

    assert_eq!(
        *order.borrow(),
        vec!["app_preflight", "commit_block", "app_commit"]
    );
    assert_eq!(
        journal
            .borrow()
            .load_commitment(&block.hash())
            .map(|c| c.receipts),
        Some(commitment.receipts)
    );
}

#[test]
fn finalized_commit_persists_the_exact_preflight_state_root_atomically() {
    let config = durable_test_config("runner-state-root-order");
    let order: Log = Rc::new(RefCell::new(Vec::new()));
    let store = RecordingStore::new(&order);
    let journal = store.inner.clone();
    let commitment = CommitmentV2 { receipts: Vec::new() };
    let state_root = [0x5au8; 32];
    let mut runner = durable_runner(&config, store).with_app(PreflightApp {
        order: order.clone(),
        commitment: commitment.clone(),
        state_root,
        notes_root: true,
    });
    order.borrow_mut().clear();

    let genesis = Block::genesis(config.context().expect("test context"));
    let mut block = test_block(&config, 1, 1, genesis.hash());
    block.commitment_root = commitment.root();
    block.app_hash = state_root;
    block.timestamp = 1;
    runner.insert_pending(block.clone()).expect("room for the block");
    assert!(runner.try_commit(&block.hash()).unwrap().is_some());

    assert_eq!(
        *order.borrow(),
        vec!["app_preflight", "app_state_root", "commit_block", "app_commit"]
    );
    assert_eq!(journal.borrow().load_state_root(&block.hash()), Some(state_root));
}

#[test]
fn committed_evidence_is_deleted_after_durable_commit_and_app_commit() {
    let config = durable_test_config("equivocation-journal-gc");
    let order: Log = Rc::new(RefCell::new(Vec::new()));
    let store = RecordingStore::new(&order);
    let journal = store.inner.clone();
    let evidence = test_equivocation_proof(&config);
    let commitment = CommitmentV2 {
        receipts: vec![evidence.journal_key()],
    };
    let mut app = LifecycleApp::new(&order);
    app.commitment = Ok(commitment.clone());
    app.accused = Some(evidence.clone());
    let mut runner = durable_runner(&config, store).with_app(app);
    journal
        .borrow_mut()
        .save_equivocation_proof(&evidence)
        .expect("save pending evidence");
    order.borrow_mut().clear();

    let genesis = Block::genesis(config.context().expect("test context"));
    let mut block = test_block(&config, 1, 1, genesis.hash());
    block.payload = evidence.journal_key();
    block.commitment_root = commitment.root();
    block.timestamp = 1;
    runner.insert_pending(block.clone()).expect("room for the block");
    assert!(runner.try_commit(&block.hash()).unwrap().is_some());
    assert_eq!(
        *order.borrow(),
        vec!["commit_block", "app_commit", "delete_equivocation"]
    );
    assert!(journal
        .borrow()
        .load_equivocation_proofs()
        .expect("load post-commit journal")
        .is_empty());
    assert_eq!(
        journal
            .borrow()
            .load_commitment(&block.hash())
            .map(|c| c.receipts),
        Some(commitment.receipts)
    );
}

#[test]
fn a_block_that_does_not_extend_the_head_becomes_pending() {
    let config = durable_test_config("put-back");
    let events: Log = Rc::new(RefCell::new(Vec::new()));
    let store = RecordingStore::new(&events);
    let journal = store.inner.clone();
    let mut runner = durable_runner(&config, store).with_app(LifecycleApp::new(&events));
    let stray = test_block(&config, 3, 2, [9u8; 32]);
    journal
        .borrow_mut()
        .admit_speculative_with_rolling_victim(&stray, 1_000, &vec![], 16, 1_000_000)
        .expect("room in the journal");
    assert!(!runner.has_pending(&stray.hash()));
    assert!(runner.try_commit(&stray.hash()).unwrap().is_none());
    assert!(runner.has_pending(&stray.hash()));
    assert!(runner.try_commit(&stray.hash()).unwrap().is_none());
    assert!(runner.has_pending(&stray.hash()));
    assert_eq!(runner.committed_height(), 0);

    let genesis = Block::genesis(config.context().expect("test context"));
    runner.insert_pending(genesis.clone()).expect("room for genesis");
    assert!(runner.try_commit(&genesis.hash()).unwrap().is_none());
    assert!(!runner.has_pending(&genesis.hash()));
}

#[test]
fn failed_finalized_commit_does_not_publish_application_or_heads() {
    let config = durable_test_config("runner-commit-failure-order");
    let events: Log = Rc::new(RefCell::new(Vec::new()));
    let store = RecordingStore::new(&events);
    let fail = store.fail_commit_block.clone();
    let pauses = store.pauses.clone();
    let mut runner = durable_runner(&config, store).with_app(LifecycleApp::new(&events));
    let propose = test_propose(&config, 1);
    let block = propose.block.clone();
    assert!(runner
        .process_proposal(propose, 1_000, NOW)
        .unwrap()
        .is_some());
    events.borrow_mut().clear();
    let committed_hash = runner.committed_hash();
    let advertised_before = runner.committed_height();

    fail.set(true);
    let failed = runner.try_commit(&block.hash());
    assert_eq!(
        failed.err(),
        Some(Halt::CommitNotPersisted { height: 1 }),
        "storage failure must fail-stop"
    );
    assert!(!events.borrow().contains(&"app_commit"));
    assert!(events.borrow().iter().all(|event| *event == "commit_block"));
    assert_eq!(events.borrow().len(), 3);
    assert_eq!(*pauses.borrow(), vec![10, 100, 1000]);
    assert_eq!(runner.committed_height(), 0);
    assert_eq!(runner.committed_hash(), committed_hash);
    assert_eq!(advertised_before, 0);
    assert_eq!(runner.committed_height(), advertised_before);
}

#[test]
fn commitment_failure_rejects_proposal_before_vote_or_persistence() {
    let config = durable_test_config("runner-commitment-reject");
    let events: Log = Rc::new(RefCell::new(Vec::new()));
    let mut app = LifecycleApp::new(&events);
    app.commitment = Err("injected commitment failure".to_string());
    let mut runner = durable_runner(&config, RecordingStore::new(&events)).with_app(app);
    events.borrow_mut().clear();
    let propose = test_propose(&config, 1);
    let block = propose.block.clone();
    assert!(runner
        .process_proposal(propose, 1_000, NOW)
        .unwrap()
        .is_none());
    assert!(events.borrow().is_empty());
    assert_eq!(runner.pending_count(), 0);
    assert!(runner.safety().safe_to_vote(&block, [0u8; 32]).is_ok());
}

#[test]
fn mismatched_commitment_root_rejects_proposal_before_vote_or_persistence() {
    let config = durable_test_config("runner-commitment-root-reject");
    let mut runner = memory_runner(&config).with_app(NoOpApp::new());
    let mut propose = test_propose(&config, 1);
    propose.block.commitment_root = [9u8; 32];
    sign(&config, &mut propose);
    let block = propose.block.clone();
    assert!(runner
        .process_proposal(propose, 1_000, NOW)
        .unwrap()
        .is_none());
    assert_eq!(runner.pending_count(), 0);
    assert!(runner.cache().get(&block.hash()).is_none());
    assert!(runner.safety().safe_to_vote(&block, [0u8; 32]).is_ok());
}

#[test]
fn state_root_failure_rejects_proposal_before_vote_or_persistence() {
    let config = durable_test_config("runner-state-root-reject");
    let events: Log = Rc::new(RefCell::new(Vec::new()));
    let mut app = LifecycleApp::new(&events);
    app.state_root = None;
    let store = RecordingStore::new(&events);
    let journal = store.inner.clone();
    let mut runner = durable_runner(&config, store).with_app(app);
    events.borrow_mut().clear();
    let propose = test_propose(&config, 1);
    let block = propose.block.clone();
    assert!(runner
        .process_proposal(propose, 1_000, NOW)
        .unwrap()
        .is_none());
    assert_eq!(runner.pending_count(), 0);
    assert!(journal.borrow().get(&block.hash()).is_none());
    assert!(runner.cache().get(&block.hash()).is_none());
    assert!(events
        .borrow()
        .iter()
        .all(|event| *event != "save_block" && *event != "save_consensus_state"));
    assert!(events.borrow().is_empty());
    assert!(runner.safety().safe_to_vote(&block, [0u8; 32]).is_ok());
}

#[test]
fn mismatched_authenticated_state_root_rejects_proposal_before_vote() {
    let config = durable_test_config("runner-state-root-mismatch");
    let events: Log = Rc::new(RefCell::new(Vec::new()));
    let mut app = LifecycleApp::new(&events);
    app.state_root = Some([0xa5u8; 32]);
    let mut runner = durable_runner(&config, RecordingStore::new(&events)).with_app(app);
    events.borrow_mut().clear();
    let propose = test_propose(&config, 1);
    let block = propose.block.clone();
    assert!(runner
        .process_proposal(propose, 1_000, NOW)
        .unwrap()
        .is_none());
    assert!(events.borrow().is_empty());
    assert_eq!(runner.pending_count(), 0);
    assert!(runner.safety().safe_to_vote(&block, [0u8; 32]).is_ok());
}

#[test]
fn structurally_malformed_proposal_rejects_before_app_or_store_mutation() {
    let config = durable_test_config("runner-structural-resource-reject");
    let events: Log = Rc::new(RefCell::new(Vec::new()));
    let app = LifecycleApp::new(&events);
    let executions = app.executions.clone();
    let mut runner = memory_runner(&config).with_app(app);

    let mut zero_root = test_propose(&config, 1);
    zero_root.block.commitment_root = [0u8; 32];
    sign(&config, &mut zero_root);
    let block = zero_root.block.clone();
    assert!(matches!(
        runner.check_proposal(&zero_root, NOW),
        Err(ProposalError::InvalidBlock)
    ));
    assert!(runner
        .process_proposal(zero_root, 1_000, NOW)
        .unwrap()
        .is_none());
    assert_eq!(executions.get(), 0);
    assert_eq!(runner.pending_count(), 0);
    assert!(runner.cache().get(&block.hash()).is_none());
    assert!(runner.safety().safe_to_vote(&block, [0u8; 32]).is_ok());

    let mut oversized = test_propose(&config, 2);
    oversized.block.payload = vec![0u8; MAX_BLOCK_PAYLOAD_SIZE + 1];
    sign(&config, &mut oversized);
    let block = oversized.block.clone();
    assert!(runner
        .process_proposal(oversized, 1_000, NOW)
        .unwrap()
        .is_none());
    assert_eq!(executions.get(), 0);
    assert_eq!(runner.pending_count(), 0);
    assert!(runner.cache().get(&block.hash()).is_none());
    assert!(runner.safety().safe_to_vote(&block, [0u8; 32]).is_ok());
    assert!(events.borrow().is_empty());
}

#[test]
fn higher_justify_qc_is_applied_before_vote_safety_check() {
    let config = durable_test_config("prospective-justify-safety");
    let mut runner = memory_runner(&config).with_app(NoOpApp::new());
    let genesis = Block::genesis(config.context().unwrap());

    let old = test_block(&config, 1, 1, genesis.hash());
    let new_parent = test_block(&config, 2, 1, genesis.hash());
    let mut new_qc_parent = test_block(&config, 3, 2, new_parent.hash());
    new_qc_parent.justify = Some(own_qc(&config, &new_parent));
    for block in [&old, &new_parent, &new_qc_parent] {
        assert!(runner
            .process_proposal(propose_of(&config, block.clone()), 1_000, NOW)
            .unwrap()
            .is_some());
    }
    let new_qc = own_qc(&config, &new_qc_parent);
    let mut child = test_block(&config, 4, 3, new_qc_parent.hash());
    child.justify = Some(new_qc);
    let vote = runner
        .process_proposal(propose_of(&config, child), 1_000, NOW)
        .unwrap()
        .expect("higher verified justify QC should replace stale high QC for safety");
    assert_eq!(vote.view, 4);
    assert_eq!(
        runner.safety().high_qc().unwrap().block_hash,
        new_qc_parent.hash()
    );
}

#[test]
fn no_vote_is_cast_twice_in_a_view() {
    let config = durable_test_config("one-vote");
    let mut runner = memory_runner(&config).with_app(NoOpApp::new());
    let first = test_propose(&config, 1);
    let mut second = test_propose(&config, 1);
    second.block.timestamp = NOW + 1;
    sign(&config, &mut second);
    assert!(runner
        .process_proposal(first, 1_000, NOW)
        .unwrap()
        .is_some());
    assert!(runner
        .process_proposal(second, 1_000, NOW)
        .unwrap()
        .is_none());
}

#[test]
fn too_deep_proposals_are_refused() {
    let config = durable_test_config("pending-resource-cap");
    let runner = memory_runner(&config);
    let genesis = Block::genesis(config.context().unwrap());
    let too_deep = test_block(&config, 1, MAX_PENDING_DEPTH + 1, genesis.hash());
    assert!(runner.ensure_pending_capacity(&too_deep).is_err());
    let deep = test_block(&config, 1, MAX_PENDING_DEPTH, genesis.hash());
    assert!(runner.ensure_pending_capacity(&deep).is_ok());
}

#[test]
fn authenticated_single_validator_runs_until_committed_height() {
    let config = durable_test_config("runner-test");
    let mut runner = memory_runner(&config).with_app(NoOpApp::new());
    assert!(runner.initialize_live().is_ok());
    let mut blocks = Vec::new();
    while runner.committed_height() < 2 {
        blocks.push(lead_round(&mut runner, NOW + blocks.len() as u64).expect("round"));
    }
    assert_eq!(runner.committed_height(), 2);
    assert_eq!(runner.current_view(), 3);
    assert_eq!(blocks[1].parent, blocks[0].hash());
    assert_eq!(blocks[2].height, 3);
}

#[test]
fn run_until_committed_rejects_missing_application_hook() {
    let config = durable_test_config("runner-missing-app");
    let mut runner = memory_runner(&config);
    assert!(matches!(
        runner.initialize_live(),
        Err(LiveError::NoApplication)
    ));
}

#[test]
fn equivocation_journal_is_saved_before_enqueue_and_reloaded_after_restart() {
    let config = durable_test_config("equivocation-journal-restart");
    let order: Log = Rc::new(RefCell::new(Vec::new()));
    let store = RecordingStore::new(&order);
    let journal = store.inner.clone();
    let mut runner = durable_runner(&config, store).with_app(LifecycleApp::new(&order));
    order.borrow_mut().clear();

    let evidence = test_equivocation_proof(&config);
    assert!(runner.handle_equivocation(evidence).is_ok());
    assert_eq!(*order.borrow(), vec!["save_equivocation", "app_enqueue"]);
    assert_eq!(journal.borrow().load_equivocation_proofs().unwrap().len(), 1);
    drop(runner);

    let reopened = RecordingStore {
        inner: journal.clone(),
        events: order.clone(),
        fail_consensus_state: Rc::new(Cell::new(false)),
        fail_commit_block: Rc::new(Cell::new(false)),
        pauses: Rc::new(RefCell::new(Vec::new())),
    };
    let mut recovered =
        ConsensusRunner::new_with_recovery(config.clone(), config.node_id, true, reopened)
            .expect("recover runner after restart")
            .with_app(LifecycleApp::new(&order));
    order.borrow_mut().clear();
    recovered
        .initialize_live()
        .expect("recovery must re-enqueue pending evidence");
    assert_eq!(*order.borrow(), vec!["app_enqueue"]);
    assert_eq!(journal.borrow().load_equivocation_proofs().unwrap().len(), 1);
}

#[test]
fn recovery_rejects_a_staged_epoch_transition_marker() {
    let config = durable_test_config("staged-transition-recovery");
    let mut startup = fresh_start();
    startup.staged_transition = true;
    assert!(matches!(
        ConsensusRunner::resume(
            config.clone(),
            config.node_id,
            true,
            MemoryJournal::new(),
            startup
        ),
        Err(StartError::StagedTransition)
    ));
}

#[test]
fn new_with_recovery_rejects_store_without_equivocation_journal() {
    let config = durable_test_config("runner-journal-capability");
    let events: Log = Rc::new(RefCell::new(Vec::new()));
    let mut startup = fresh_start();
    startup.journal_capable = false;
    assert!(matches!(
        ConsensusRunner::resume(
            config.clone(),
            config.node_id,
            true,
            RecordingStore::new(&events),
            startup
        ),
        Err(StartError::NoJournal)
    ));
    assert!(events.borrow().is_empty());
}

#[test]
fn new_rejects_unauthenticated_tcp_transport() {
    let config = ConsensusConfig::single_node();
    assert!(matches!(
        ConsensusRunner::<NoOpApp, MemoryJournal>::new(config.clone(), config.node_id, false),
        Err(StartError::Unauthenticated)
    ));
}

#[test]
fn new_with_recovery_rejects_unauthenticated_tcp_transport() {
    let config = ConsensusConfig::single_node();
    assert!(matches!(
        ConsensusRunner::new_with_recovery(
            config.clone(),
            config.node_id,
            false,
            MemoryJournal::new()
        ),
        Err(StartError::Unauthenticated)
    ));
}

#[test]
fn new_rejects_zero_view_timeout() {
    let mut config = ConsensusConfig::single_node();
    config.view_timeout_ms = 0;
    assert!(matches!(
        ConsensusRunner::<NoOpApp, MemoryJournal>::new(config.clone(), config.node_id, true),
        Err(StartError::NoTimeout)
    ));
}

#[test]
fn new_rejects_network_node_identity_mismatch() {
    let config = ConsensusConfig::single_node();
    assert!(matches!(
        ConsensusRunner::<NoOpApp, MemoryJournal>::new(config, [2u8; 32], true),
        Err(StartError::Identity)
    ));
}

#[test]
fn new_rejects_a_missing_genesis() {
    let mut config = ConsensusConfig::single_node();
    config.genesis_hash = [0u8; 32];
    assert!(matches!(
        ConsensusRunner::<NoOpApp, MemoryJournal>::new(config.clone(), config.node_id, true),
        Err(StartError::NoGenesis)
    ));
}

#[test]
fn recovered_runner_requires_non_genesis_application_head_handshake() {
    let config = durable_test_config("runner-application-recovery-handshake");
    let context = config.context().expect("test context");
    let genesis = Block::genesis(context);
    let block = test_propose(&config, 1).block;
    let mut state = state_of(context, &block);
    state.current_view = 1;
    let mut journal = MemoryJournal::new();
    journal
        .commit_block_with_commitment_and_state_root(
            &genesis,
            &state_of(context, &genesis),
            None,
            None,
        )
        .expect("persist genesis");
    journal
        .commit_block_with_commitment_and_state_root(
            &block,
            &state,
            Some(&CommitmentV2::default()),
            Some(&block.app_hash),
        )
        .expect("persist recovered head");
    let order: Log = Rc::new(RefCell::new(Vec::new()));
    let mut runner =
        ConsensusRunner::new_with_recovery(config.clone(), config.node_id, true, journal)
            .expect("recover consensus chain")
            .with_app(LifecycleApp::new(&order));
    assert!(matches!(
        runner.initialize_live(),
        Err(LiveError::ApplicationHead)
    ));
    let mut runner = runner.with_app(NoOpApp::new());
    assert!(
        runner.initialize_live().is_ok(),
        "stateless app with matching roots should prove its recovered head"
    );
}

#[test]
fn evidence_is_sent_again_in_bounded_windows() {
    assert_eq!(rebroadcast_window(0, 40), (0, 16, 16));
    assert_eq!(rebroadcast_window(16, 40), (16, 16, 32));
    assert_eq!(rebroadcast_window(32, 40), (32, 16, 8));
    assert_eq!(rebroadcast_window(45, 3), (0, 3, 0));
}

#[test]
fn a_restarted_validator_resumes_and_never_votes_twice() {
    let config = durable_test_config("restart");
    let events: Log = Rc::new(RefCell::new(Vec::new()));
    let store = RecordingStore::new(&events);
    let journal = store.inner.clone();
    let mut runner = durable_runner(&config, store).with_app(NoOpApp::new());
    let mut last = None;
    for i in 0..5u64 {
        last = Some(lead_round(&mut runner, NOW + i).expect("round"));
    }
    assert_eq!(runner.committed_height(), 4);
    let voted = runner.safety().voted_views();
    drop(runner);

    let reopened = RecordingStore {
        inner: journal,
        events: events.clone(),
        fail_consensus_state: Rc::new(Cell::new(false)),
        fail_commit_block: Rc::new(Cell::new(false)),
        pauses: Rc::new(RefCell::new(Vec::new())),
    };
    let mut runner =
        ConsensusRunner::new_with_recovery(config.clone(), config.node_id, true, reopened)
            .expect("restart")
            .with_app(NoOpApp::new());
    runner.initialize_live().expect("live again");
    assert_eq!(runner.committed_height(), 4);
    assert_eq!(runner.current_view(), 5);
    for view in voted {
        let block = test_block(&config, view, 9, [1u8; 32]);
        assert!(runner.safety().safe_to_vote(&block, [0u8; 32]).is_err());
    }
    let next = lead_round(&mut runner, NOW + 6).expect("round after the restart");
    assert_eq!(next.parent, last.unwrap().hash());
    assert_eq!(next.height, 6);
    assert_eq!(runner.committed_height(), 5);
}

#[test]
fn finalized_blocks_are_recorded_with_commitment_and_state_root() {
    let config = durable_test_config("runner-commitment-order");
    let events: Log = Rc::new(RefCell::new(Vec::new()));
    let store = RecordingStore::new(&events);
    let journal = store.inner.clone();
    let mut runner = durable_runner(&config, store).with_app(LifecycleApp::new(&events));
    let first = lead_round(&mut runner, NOW).expect("first round");
    assert!(journal.borrow().load_commitment(&first.hash()).is_none());
    lead_round(&mut runner, NOW + 1).expect("second round");
    assert_eq!(
        journal
            .borrow()
            .load_commitment(&first.hash())
            .expect("recorded commitment")
            .root(),
        first.commitment_root
    );
    assert_eq!(
        journal.borrow().load_state_root(&first.hash()),
        Some(first.app_hash)
    );
}

#[test]
fn evidence_in_a_committed_block_leaves_the_journal() {
    let config = durable_test_config("equivocation-journal-gc");
    let events: Log = Rc::new(RefCell::new(Vec::new()));
    let store = RecordingStore::new(&events);
    let journal = store.inner.clone();
    let evidence = test_equivocation_proof(&config);
    let mut app = LifecycleApp::new(&events);
    app.accused = Some(evidence.clone());
    let mut runner = durable_runner(&config, store).with_app(app);
    lead_round(&mut runner, NOW).expect("first round");
    journal
        .borrow_mut()
        .save_equivocation_proof(&evidence)
        .expect("save pending evidence");
    journal
        .borrow_mut()
        .save_equivocation_proof(&evidence)
        .expect("save it again");
    assert_eq!(journal.borrow().load_equivocation_proofs().unwrap().len(), 1);
    events.borrow_mut().clear();
    lead_round(&mut runner, NOW + 1).expect("second round");
    let order: Vec<&'static str> = events
        .borrow()
        .iter()
        .filter(|e| **e != "save_block" && **e != "save_consensus_state")
        .cloned()
        .collect();
    assert_eq!(
        order,
        vec!["commit_block", "app_commit", "delete_equivocation"]
    );
    assert!(journal
        .borrow()
        .load_equivocation_proofs()
        .unwrap()
        .is_empty());
}

#[test]
fn a_certified_fork_does_not_lead_the_leader_astray() {
    let config = durable_test_config("runner-parent-anchor");
    let context = config.context().expect("test context");
    let genesis = Block::genesis(context);
    let mut fork_parent = test_block(&config, 1, 1, [9u8; 32]);
    fork_parent.app_hash = [1u8; 32];
    let mut fork_target = test_block(&config, 2, 2, fork_parent.hash());
    fork_target.app_hash = [2u8; 32];
    let events: Log = Rc::new(RefCell::new(Vec::new()));
    let store = RecordingStore::new(&events);
    for block in [&fork_parent, &fork_target] {
        store
            .inner
            .borrow_mut()
            .admit_speculative_with_rolling_victim(block, 100, &vec![], 64, usize::MAX)
            .unwrap();
    }
    let mut runner = durable_runner(&config, store).with_app(LifecycleApp::new(&events));
    let qc = own_qc(&config, &fork_target);
    assert!(matches!(runner.process_qc(qc), Ok(None)));
    assert!(runner.safety().high_qc().is_none());
    assert_eq!(runner.committed_height(), 0);
    assert_eq!(runner.get_proposal_parent().hash(), genesis.hash());
    let block = lead_round(&mut runner, NOW).expect("continue from the committed head");
    assert_eq!(block.parent, genesis.hash());
    assert!(!events.borrow().contains(&"app_commit"));
}

#[test]
fn the_journal_keeps_one_piece_of_evidence_per_offender() {
    let config = durable_test_config("journal-records");
    let first = test_equivocation_proof(&config);
    let mut later = first.clone();
    later.view = 9;
    let mut other = first.clone();
    other.offender = [7u8; 32];
    let mut journal = MemoryJournal::new();
    for evidence in [&first, &other, &later] {
        journal.save_equivocation_proof(evidence).unwrap();
    }
    let recorded = journal.load_equivocation_proofs().unwrap();
    assert_eq!(recorded.len(), 2);
    let views: Vec<u64> = recorded
        .iter()
        .filter(|p| p.offender == first.offender)
        .map(|p| p.view)
        .collect();
    assert_eq!(views, vec![first.view]);
    journal.delete_equivocation_proof(&first).unwrap();
    let recorded = journal.load_equivocation_proofs().unwrap();
    assert_eq!(recorded.len(), 1);
    assert_eq!(recorded[0].offender, [7u8; 32]);
    let found = journal.load_startup().unwrap();
    assert!(found.journal_capable);
    assert!(found.state.is_none());
    assert!(journal.blocks_from_height(0).unwrap().is_empty());
}

#[test]
fn recorded_evidence_that_does_not_verify_stops_the_start() {
    let config = durable_test_config("journal-unverified");
    let events: Log = Rc::new(RefCell::new(Vec::new()));
    let store = RecordingStore::new(&events);
    let mut forged = test_equivocation_proof(&config);
    forged.offender = [7u8; 32];
    store
        .inner
        .borrow_mut()
        .save_equivocation_proof(&forged)
        .unwrap();
    let mut runner = durable_runner(&config, store).with_app(LifecycleApp::new(&events));
    assert!(matches!(
        runner.initialize_live(),
        Err(LiveError::RecordedEvidence)
    ));
}

/// What a scripted application answers.
struct Script {
    valid: bool,
    commitment: Option<CommitmentV2>,
    state_root: Option<[u8; 32]>,
    restores: bool,
    applied: Result<[u8; 32], String>,
    published: bool,
    new_validators: Vec<[u8; 32]>,
    transition: Option<Vec<[u8; 32]>>,
}

/// An application that answers by a script, and notes what was applied to it.
struct ScriptedApp {
    script: Rc<RefCell<Script>>,
    applied: Rc<RefCell<Vec<[u8; 32]>>>,
}

type Scripted = (
    ScriptedApp,
    Rc<RefCell<Script>>,
    Rc<RefCell<Vec<[u8; 32]>>>,
);

fn scripted() -> Scripted {
    let script = Rc::new(RefCell::new(Script {
        valid: true,
        commitment: Some(CommitmentV2::default()),
        state_root: Some([0u8; 32]),
        restores: true,
        applied: Ok([0u8; 32]),
        published: true,
        new_validators: vec![],
        transition: None,
    }));
    let applied = Rc::new(RefCell::new(Vec::new()));
    let app = ScriptedApp {
        script: script.clone(),
        applied: applied.clone(),
    };
    (app, script, applied)
}

fn update_of(ids: &[[u8; 32]]) -> ValidatorSetUpdate {
    ValidatorSetUpdate {
        node_ids: ids.to_vec(),
        voting_powers: vec![1; ids.len()],
        bls_pubkeys: vec![],
    }
}

fn answer(ok: bool) -> Result<(), String> {
    if ok {
        Ok(())
    } else {
        Err("scripted refusal".to_string())
    }
}

impl AppHook for ScriptedApp {
    fn applied(&self) -> Applied {
        unreachable!("ghost")
    }

    fn evidence_in(_payload: PayloadBytes) -> EvidenceReading {
        unreachable!("ghost")
    }

    fn prepare_payload(&self, parent: &Block) -> Vec<u8> {
        vec![7, parent.height as u8]
    }

    fn validate_block(&self, _block: &Block) -> Result<(), String> {
        answer(self.script.borrow().valid)
    }

    fn preflight_block_with_speculative_branch(
        &self,
        _context: ConsensusContext,
        _block: &Block,
        _committed_head: &Block,
        _ancestors: &Vec<Block>,
    ) -> Result<(), String> {
        Ok(())
    }

    fn restore_speculative_branch(
        &mut self,
        _context: ConsensusContext,
        _committed_head: &Block,
        _ancestors: &Vec<Block>,
    ) -> Result<(), String> {
        answer(self.script.borrow().restores)
    }

    fn execute(&mut self, _block: &Block) -> [u8; 32] {
        [0u8; 32]
    }

    fn preflight_commitment(&self, _block: &Block) -> Result<Option<CommitmentV2>, String> {
        Ok(self.script.borrow().commitment.clone())
    }

    fn preflight_state_root(&self, _block: &Block) -> Result<Option<[u8; 32]>, String> {
        Ok(self.script.borrow().state_root)
    }

    fn commit(&mut self, block: &Block) -> Result<[u8; 32], String> {
        let applied = self.script.borrow().applied.clone();
        if applied.is_ok() {
            self.applied.borrow_mut().push(block.hash());
        }
        applied
    }

    fn on_durable_commit(&mut self, _block: &Block, _commitment: &CommitmentV2) -> Result<(), String> {
        answer(self.script.borrow().published)
    }

    fn take_validator_update(&mut self) -> Option<ValidatorSetUpdate> {
        let ids = self.script.borrow().new_validators.clone();
        Some(update_of(&ids))
    }

    fn validator_set_update_for_transition(
        &self,
        _finalized_block: &Block,
    ) -> Result<Option<ValidatorSetUpdate>, String> {
        Ok(self
            .script
            .borrow()
            .transition
            .as_ref()
            .map(|ids| update_of(ids)))
    }

    fn decode_consensus_payload(
        &self,
        _payload: &Vec<u8>,
    ) -> Result<Vec<ConsensusTransaction>, String> {
        Ok(vec![])
    }
}

/// Commits the first block of a durable node, with a changed script.
fn commit_with(
    label: &str,
    change: fn(&mut Script),
) -> (Result<Option<Block>, Halt>, usize, u64, u64) {
    let config = durable_test_config(label);
    let events: Log = Rc::new(RefCell::new(Vec::new()));
    let store = RecordingStore::new(&events);
    let journal = store.inner.clone();
    let (app, script, applied) = scripted();
    let mut runner = durable_runner(&config, store).with_app(app);
    let propose = test_propose(&config, 1);
    let hash = propose.block.hash();
    assert!(runner
        .process_proposal(propose, 1_000, NOW)
        .unwrap()
        .is_some());
    change(&mut script.borrow_mut());
    let r = runner.try_commit(&hash);
    let durable = journal.borrow().load_consensus_state().unwrap().unwrap();
    let count = applied.borrow().len();
    (r, count, runner.committed_height(), durable.committed_height)
}

#[test]
fn each_answer_about_a_block_stops_its_commit_with_its_own_halt() {
    let (r, applied, height, durable) = commit_with("commit-answers", |_| {});
    assert_eq!(r.unwrap().map(|b| b.height), Some(1));
    assert_eq!((applied, height, durable), (1, 1, 1));

    let (r, applied, height, durable) = commit_with("commit-answers", |s| s.valid = false);
    assert_eq!(r.err(), Some(Halt::BlockRefused { height: 1 }));
    assert_eq!((applied, height, durable), (0, 0, 0));

    let (r, applied, height, durable) = commit_with("commit-answers", |s| s.commitment = None);
    assert_eq!(r.err(), Some(Halt::Commitment { height: 1 }));
    assert_eq!((applied, height, durable), (0, 0, 0));

    let (r, applied, height, durable) =
        commit_with("commit-answers", |s| s.state_root = Some([1u8; 32]));
    assert_eq!(r.err(), Some(Halt::StateRoot { height: 1 }));
    assert_eq!((applied, height, durable), (0, 0, 0));

    let (r, applied, height, durable) =
        commit_with("commit-answers", |s| s.applied = Err("broken".to_string()));
    assert_eq!(r.err(), Some(Halt::ApplicationCommit { height: 1 }));
    assert_eq!((applied, height, durable), (0, 0, 1));

    let (r, applied, height, durable) =
        commit_with("commit-answers", |s| s.applied = Ok([9u8; 32]));
    assert_eq!(r.err(), Some(Halt::ApplicationCommit { height: 1 }));
    assert_eq!((applied, height, durable), (1, 0, 1));

    let (r, applied, height, durable) = commit_with("commit-answers", |s| s.published = false);
    assert_eq!(r.err(), Some(Halt::Notification { height: 1 }));
    assert_eq!((applied, height, durable), (1, 0, 1));

    let (r, applied, height, durable) =
        commit_with("commit-answers", |s| s.new_validators = vec![[3u8; 32]]);
    assert_eq!(r.err(), Some(Halt::ValidatorUpdate { height: 1 }));
    assert_eq!((applied, height, durable), (1, 1, 1));
}

#[test]
fn the_answers_before_a_commit_are_weighed_in_order() {
    let config = durable_test_config("preflight-order");
    let block = test_propose(&config, 1).block;
    let root = Some(block.commitment_root);
    let state = Some(Some(block.app_hash));
    assert_eq!(check_preflight(&block, true, &root, &state), Ok(()));
    assert_eq!(
        check_preflight(&block, false, &None, &None),
        Err(Halt::BlockRefused { height: 1 })
    );
    assert_eq!(
        check_preflight(&block, true, &Some([8u8; 32]), &None),
        Err(Halt::Commitment { height: 1 })
    );
    assert_eq!(
        check_preflight(&block, true, &root, &Some(None)),
        Err(Halt::StateRoot { height: 1 })
    );
    assert_eq!(
        check_preflight(&block, true, &root, &None),
        Err(Halt::StateRoot { height: 1 })
    );
}

#[test]
fn nothing_is_committed_where_nothing_extends_the_head() {
    let config = durable_test_config("nothing-to-commit");
    let (app, _script, applied) = scripted();
    let mut runner = memory_runner(&config).with_app(app);
    let genesis = Block::genesis(config.context().unwrap());
    assert!(runner.try_commit(&[4u8; 32]).unwrap().is_none());
    assert!(runner.try_commit(&genesis.hash()).unwrap().is_none());
    assert_eq!(runner.committed_height(), 0);
    assert!(applied.borrow().is_empty());
}

#[test]
fn blocks_are_applied_once_and_in_order() {
    let config = durable_test_config("applied-in-order");
    let (app, _script, applied) = scripted();
    let mut runner = memory_runner(&config).with_app(app);
    let genesis = Block::genesis(config.context().unwrap());
    let first = test_block(&config, 1, 1, genesis.hash());
    let mut second = test_block(&config, 2, 2, first.hash());
    second.justify = Some(own_qc(&config, &first));
    let mut third = test_block(&config, 3, 3, second.hash());
    third.justify = Some(own_qc(&config, &second));
    for block in [&first, &second, &third] {
        assert!(runner
            .process_proposal(propose_of(&config, block.clone()), 1_000, NOW)
            .unwrap()
            .is_some());
    }
    let committed = runner.process_qc(own_qc(&config, &third)).unwrap();
    assert_eq!(committed.map(|b| b.hash()), Some(second.hash()));
    assert_eq!(*applied.borrow(), vec![first.hash(), second.hash()]);
    assert_eq!(runner.committed_hash(), second.hash());
}

#[test]
fn a_replayed_branch_leaves_a_place_for_the_next_block() {
    let config = durable_test_config("branch-depth");
    let mut runner = memory_runner(&config).with_app(NoOpApp::new());
    let genesis = Block::genesis(config.context().unwrap());
    let mut chain: Vec<Block> = Vec::new();
    let mut parent = genesis.clone();
    for height in 1..=MAX_PENDING_DEPTH {
        let mut block = test_block(&config, height, height, parent.hash());
        if height > 1 {
            block.justify = Some(own_qc(&config, &parent));
        }
        assert!(runner
            .process_proposal(propose_of(&config, block.clone()), 1_000, NOW)
            .unwrap()
            .is_some());
        parent = block.clone();
        chain.push(block);
    }
    let (head, none) = runner.load_speculative_branch(genesis.hash()).unwrap();
    assert_eq!(head.hash(), genesis.hash());
    assert!(none.is_empty());
    let (head, ancestors) = runner.load_speculative_branch(chain[14].hash()).unwrap();
    assert_eq!(head.hash(), genesis.hash());
    assert_eq!(ancestors.len(), 15);
    for (i, block) in ancestors.iter().enumerate() {
        assert_eq!(block.hash(), chain[i].hash());
    }
    assert!(matches!(
        runner.load_speculative_branch(chain[15].hash()),
        Err(BranchError::TooDeep)
    ));
}

#[test]
fn a_leader_drafts_only_what_the_application_seals() {
    let config = durable_test_config("leader-draft");
    let draft = |change: fn(&mut Script)| {
        let (app, script, _applied) = scripted();
        let mut runner = memory_runner(&config).with_app(app);
        change(&mut script.borrow_mut());
        let view = runner.current_view();
        runner.draft_proposal(view, NOW)
    };
    let genesis = Block::genesis(config.context().unwrap());
    let block = draft(|_| {}).expect("all answers fit");
    assert_eq!(block.parent, genesis.hash());
    assert_eq!((block.height, block.payload), (1, vec![7, 0]));
    assert_eq!(block.proposer, config.node_id);
    assert_eq!(block.app_hash, [0u8; 32]);
    assert_eq!(block.commitment_root, CommitmentV2::default().root());
    assert!(block.justify.is_none());

    assert!(matches!(
        draft(|s| s.restores = false),
        Err(LeaderError::Restore)
    ));
    assert!(matches!(
        draft(|s| s.valid = false),
        Err(LeaderError::Refused)
    ));
    assert!(matches!(
        draft(|s| s.commitment = None),
        Err(LeaderError::Commitment)
    ));
    assert!(matches!(
        draft(|s| s.state_root = Some([5u8; 32])),
        Err(LeaderError::StateRoot)
    ));
}

#[test]
fn a_change_of_the_validators_is_staged_if_the_application_has_the_same() {
    let config = durable_test_config("stage-transition");
    let genesis = Block::genesis(config.context().unwrap());
    let change = EpochTransitionProof {
        effective_height: 2,
        old_qc: own_qc(&config, &genesis),
        node_ids: vec![[3u8; 32]],
        voting_powers: vec![1],
        bls_pubkeys: vec![],
    };
    let events: Log = Rc::new(RefCell::new(Vec::new()));
    let store = RecordingStore::new(&events);
    let journal = store.inner.clone();
    let (app, script, _applied) = scripted();
    let mut runner = durable_runner(&config, store).with_app(app);

    assert_eq!(
        runner.stage_epoch_transition(&change),
        Err(TransitionError::NoUpdate)
    );
    script.borrow_mut().transition = Some(vec![[4u8; 32]]);
    assert_eq!(
        runner.stage_epoch_transition(&change),
        Err(TransitionError::UpdateMismatch)
    );
    assert!(!journal.borrow().has_staged_transition());
    script.borrow_mut().transition = Some(vec![[3u8; 32]]);
    assert_eq!(runner.stage_epoch_transition(&change), Ok(()));
    assert!(journal.borrow().has_staged_transition());
    assert_eq!(runner.committed_height(), 0);
    let staged = journal.borrow().load_startup().unwrap();
    assert!(staged.staged_transition);

    let mut late = change.clone();
    late.effective_height = 5;
    assert_eq!(
        runner.stage_epoch_transition(&late),
        Err(TransitionError::HeightMismatch {
            transition: 3,
            committed: 0
        })
    );
}

#[test]
fn a_certified_block_that_does_not_fit_stops_the_start() {
    let config = durable_test_config("recovered-cache");
    let events: Log = Rc::new(RefCell::new(Vec::new()));
    let store = RecordingStore::new(&events);
    let journal = store.inner.clone();
    let mut runner = durable_runner(&config, store).with_app(LifecycleApp::new(&events));
    let first = lead_round(&mut runner, NOW).expect("first round");
    let second = lead_round(&mut runner, NOW + 1).expect("second round");
    drop(runner);

    let again = |bytes: Option<usize>| {
        let mut startup = journal.borrow().load_startup().unwrap();
        if let Some(n) = bytes {
            startup.high_qc_bytes = n;
        }
        let mut store = RecordingStore::new(&events);
        store.inner = journal.clone();
        ConsensusRunner::<NoOpApp, RecordingStore>::resume(
            config.clone(),
            config.node_id,
            true,
            store,
            startup,
        )
    };
    let recovered = again(None).expect("valid data recovers");
    assert_eq!(recovered.committed_height(), 1);
    assert_eq!(recovered.committed_hash(), first.hash());
    let high = recovered.safety().high_qc().map(|qc| qc.block_hash);
    assert_eq!(high, Some(second.hash()));
    assert!(recovered.cache().get(&second.hash()).is_some());
    assert!(again(Some(MAX_SPECULATIVE_BLOCK_BYTES)).is_ok());
    assert!(matches!(
        again(Some(MAX_SPECULATIVE_BLOCK_BYTES + 1)),
        Err(StartError::Cache)
    ));
}

#[test]
fn a_block_that_the_journal_refuses_gets_no_vote_and_leaves_no_trace() {
    let config = durable_test_config("journal-refuses");
    let events: Log = Rc::new(RefCell::new(Vec::new()));
    let store = RecordingStore::new(&events);
    let journal = store.inner.clone();
    let mut runner = durable_runner(&config, store).with_app(LifecycleApp::new(&events));
    events.borrow_mut().clear();
    let propose = test_propose(&config, 1);
    let block = propose.block.clone();
    let refused = runner.process_proposal(propose.clone(), MAX_SPECULATIVE_BLOCK_BYTES + 1, NOW);
    assert!(refused.unwrap().is_none());
    assert_eq!(*events.borrow(), vec!["save_block"]);
    assert!(journal.borrow().get(&block.hash()).is_none());
    assert!(runner.cache().get(&block.hash()).is_none());
    assert_eq!(runner.pending_count(), 0);
    assert!(runner.safety().safe_to_vote(&block, [0u8; 32]).is_ok());
    assert!(runner
        .process_proposal(propose, MAX_SPECULATIVE_BLOCK_BYTES, NOW)
        .unwrap()
        .is_some());
}

/// Whether the cache has room for a block as it stands.
fn has_room<A: AppHook, P: PersistentStore>(runner: &ConsensusRunner<A, P>, block: &Block) -> bool {
    let (max_blocks, max_bytes) = if block.justify.is_some() {
        (MAX_PENDING_BLOCKS, MAX_PENDING_BYTES)
    } else {
        (MAX_PENDING_SOFT_BLOCKS, MAX_PENDING_SOFT_BYTES)
    };
    runner
        .cache()
        .ensure_speculative_capacity(block, 1_000, max_blocks, max_bytes)
        .is_ok()
}

#[test]
fn pending_cap_admission_rejects_before_vote_or_persistence() {
    let config = durable_test_config("pending-resource-cap");
    let events: Log = Rc::new(RefCell::new(Vec::new()));
    let store = RecordingStore::new(&events);
    let journal = store.inner.clone();
    let mut runner = durable_runner(&config, store);
    let genesis = Block::genesis(config.context().expect("test context"));
    let mut too_deep = test_block(&config, 1, MAX_PENDING_DEPTH + 1, genesis.hash());
    too_deep.timestamp = 1;
    assert!(runner.ensure_pending_capacity(&too_deep).is_err());
    for view in 1..=MAX_PENDING_BLOCKS as u64 {
        let mut block = test_block(&config, view, 1, genesis.hash());
        block.timestamp = view;
        runner.insert_pending(block).expect("room for a pending block");
    }
    assert_eq!(runner.pending_count(), MAX_PENDING_BLOCKS);
    let events_before_rejection = events.borrow().len();

    let mut rejected = test_block(&config, MAX_PENDING_BLOCKS as u64 + 1, 1, genesis.hash());
    rejected.timestamp = MAX_PENDING_BLOCKS as u64 + 1;
    assert!(runner.ensure_pending_capacity(&rejected).is_err());
    assert!(runner.insert_pending(rejected.clone()).is_err());
    assert_eq!(runner.pending_count(), MAX_PENDING_BLOCKS);
    assert_eq!(events.borrow().len(), events_before_rejection);
    assert!(journal.borrow().get(&rejected.hash()).is_none());
    assert!(runner.safety().safe_to_vote(&rejected, [0u8; 32]).is_ok());
}

#[test]
fn verified_justify_receives_reserved_pending_slot_after_soft_cap() {
    let config = durable_test_config("pending-soft-hard-reserve");
    let context = config.context().expect("test context");
    let mut runner = memory_runner(&config);
    let genesis = Block::genesis(context);
    let mut protected_roots = Vec::new();
    for view in 1..=MAX_PENDING_SOFT_BLOCKS as u64 {
        let mut block = test_block(&config, view, 1, genesis.hash());
        block.proposer = [view as u8; 32];
        block.app_hash = [view as u8; 32];
        block.timestamp = view;
        protected_roots.push(block.hash());
        assert_eq!(
            runner.admit_speculative_stores(&block, 1_000, &vec![]),
            Ok(true),
            "small speculative row"
        );
        runner.insert_pending(block).expect("room for a pending block");
    }
    assert_eq!(runner.pending_count(), MAX_PENDING_SOFT_BLOCKS);

    let mut ordinary = test_block(&config, 100, 1, genesis.hash());
    ordinary.proposer = [100u8; 32];
    ordinary.app_hash = [100u8; 32];
    ordinary.timestamp = 100;
    assert!(!runner.pending_admission_available(&ordinary, &protected_roots));
    assert!(!has_room(&runner, &ordinary));

    let mut verified = ordinary.clone();
    verified.justify = Some(Certificate {
        epoch: context.epoch,
        committee_hash: context.committee_hash,
        genesis_hash: context.genesis_hash,
        view: 1,
        block_hash: genesis.hash(),
        app_hash: Some(genesis.app_hash),
        votes: Vec::new(),
        voters: vec![[9u8; 32]],
        bls_pubkeys: vec![vec![7u8; 48]],
        agg_signature: vec![5u8; 96],
    });
    assert!(runner.pending_admission_available(&verified, &protected_roots));
    assert!(has_room(&runner, &verified));
}

#[test]
fn verified_qc_progress_uses_reserved_slot_then_commit_reopens_ordinary_admission() {
    let config = durable_test_config("verified-qc-reserved-progress");
    let mut runner = memory_runner(&config);
    let mut height_one = Vec::new();
    for view in 1..=MAX_PENDING_SOFT_BLOCKS as u64 {
        let propose = test_propose(&config, view);
        let block = propose.block.clone();
        assert!(
            runner.process_proposal(propose, 1_000, NOW).unwrap().is_some(),
            "valid height-one proposal at view {view} should be voted"
        );
        height_one.push(block);
    }
    assert_eq!(runner.pending_count(), MAX_PENDING_SOFT_BLOCKS);
    let mut malformed = test_propose(&config, MAX_PENDING_SOFT_BLOCKS as u64 + 1);
    malformed.block.commitment_root = [0u8; 32];
    sign(&config, &mut malformed);
    let malformed_hash = malformed.block.hash();
    assert!(runner
        .process_proposal(malformed, 1_000, NOW)
        .unwrap()
        .is_none());
    assert_eq!(runner.pending_count(), MAX_PENDING_SOFT_BLOCKS);
    assert!(height_one
        .iter()
        .all(|block| runner.has_pending(&block.hash())));
    assert!(runner.cache().get(&malformed_hash).is_none());
    assert!(height_one
        .iter()
        .all(|block| runner.cache().get(&block.hash()).is_some()));

    let parent = height_one.first().expect("height-one parent").clone();
    let mut child = test_block(&config, MAX_PENDING_SOFT_BLOCKS as u64 + 1, 2, parent.hash());
    child.justify = Some(own_qc(&config, &parent));
    assert!(
        runner
            .process_proposal(propose_of(&config, child.clone()), 1_000, NOW)
            .unwrap()
            .is_some(),
        "verified QC child should consume the reserved hard-cap slot"
    );
    assert_eq!(runner.pending_count(), MAX_PENDING_BLOCKS);

    runner
        .process_qc(own_qc(&config, &child))
        .expect("the application commits");
    assert_eq!(runner.committed_height(), 1);
    assert_eq!(runner.committed_hash(), parent.hash());

    runner
        .prune_speculative_stores_with_limits(None, MAX_PENDING_BLOCKS, MAX_PENDING_BYTES)
        .expect("commit-disconnected forks should be reclaimable");
    let stale = height_one.last().expect("stale fork").hash();
    assert!(runner.cache().get(&stale).is_none());

    let ordinary = test_propose(&config, 200).block;
    assert!(has_room(&runner, &ordinary));
    assert!(runner.pending_admission_available(&ordinary, &vec![]));
}

#[test]
fn delayed_higher_view_sibling_rolls_a_body_and_reopens_after_commit() {
    let config = durable_test_config("rolling-progress-slot");
    let events: Log = Rc::new(RefCell::new(Vec::new()));
    let store = RecordingStore::new(&events);
    let journal = store.inner.clone();
    let mut runner = durable_runner(&config, store);
    let mut height_one = Vec::new();
    for view in 1..=MAX_PENDING_SOFT_BLOCKS as u64 {
        let propose = test_propose(&config, view);
        let block = propose.block.clone();
        assert!(
            runner.process_proposal(propose, 1_000, NOW).unwrap().is_some(),
            "height-one proposal at view {view} should be accepted"
        );
        height_one.push(block);
    }
    assert_eq!(height_one.len(), MAX_PENDING_SOFT_BLOCKS);

    let parent = height_one.first().expect("height-one parent").clone();
    let parent_qc = own_qc(&config, &parent);
    let make_child = |view: u64| {
        let mut child = test_block(&config, view, parent.height + 1, parent.hash());
        child.justify = Some(parent_qc.clone());
        child
    };

    // The first child takes the last slot but gets no certificate. The second
    // one takes its place.
    let child_a = make_child(MAX_PENDING_SOFT_BLOCKS as u64 + 1);
    assert!(runner
        .process_proposal(propose_of(&config, child_a.clone()), 1_000, NOW)
        .unwrap()
        .is_some());
    assert!(runner.cache().get(&child_a.hash()).is_some());
    assert!(journal.borrow().get(&child_a.hash()).is_some());

    let child_b = make_child(MAX_PENDING_SOFT_BLOCKS as u64 + 2);
    assert!(runner
        .process_proposal(propose_of(&config, child_b.clone()), 1_000, NOW)
        .unwrap()
        .is_some());
    assert!(runner.cache().get(&child_b.hash()).is_some());
    assert!(journal.borrow().get(&child_b.hash()).is_some());
    assert!(runner.cache().get(&child_a.hash()).is_none());
    assert!(journal.borrow().get(&child_a.hash()).is_none());
    assert_eq!(
        runner.cache().get(&parent.hash()).unwrap().hash(),
        parent.hash()
    );
    assert_eq!(
        journal.borrow().get(&parent.hash()).unwrap().hash(),
        parent.hash()
    );

    runner
        .process_qc(own_qc(&config, &child_b))
        .expect("the application commits");
    assert_eq!(runner.committed_height(), parent.height);
    assert_eq!(runner.committed_hash(), parent.hash());
    runner
        .prune_speculative_stores_with_limits(None, MAX_PENDING_BLOCKS, MAX_PENDING_BYTES)
        .expect("stale disconnected siblings should be reclaimed");
    assert!(journal.borrow().get(&child_a.hash()).is_none());
    assert!(has_room(&runner, &test_propose(&config, 200).block));
}

#[test]
fn pending_pruning_keeps_protected_root_and_ancestor_closure() {
    let config = durable_test_config("pending-protected-closure");
    let mut runner = memory_runner(&config);
    let genesis = Block::genesis(config.context().expect("test context"));
    let protected_parent = test_propose(&config, 1).block;
    let mut protected_child = test_block(&config, 2, 2, protected_parent.hash());
    protected_child.timestamp = 2;
    let mut fork = protected_parent.clone();
    fork.view = 3;
    fork.height = 1;
    fork.parent = genesis.hash();
    for block in [&protected_parent, &protected_child, &fork] {
        assert_eq!(
            runner.admit_speculative_stores(block, 1_000, &vec![]),
            Ok(true)
        );
        runner
            .insert_pending(block.clone())
            .expect("room for a pending block");
    }

    runner.prune_pending_unprotected_branches(Some(protected_child.hash()));
    assert!(runner.has_pending(&protected_parent.hash()));
    assert!(runner.has_pending(&protected_child.hash()));
    assert!(!runner.has_pending(&fork.hash()));
}
