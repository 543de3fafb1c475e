use std::cell::Cell;

use hyperlicked::consensus::evidence::ConsensusTransaction;
use hyperlicked::consensus::hooks::{AppHook, Applied, EvidenceReading, PayloadBytes};
use hyperlicked::consensus::persistence::{
    check_record, MemoryJournal, PersistentStore, RecordError,
};
use hyperlicked::node::block_loop::{
    asset_ctx, best_price, mark_update, short_hash, BlockLog, BlockLoop, MarketInfo, PriceLevel,
};
use hyperlicked::node::bootstrap::{
    bootstrap_step, default_data_dir, ensure_genesis_state, generate_bls_keypair,
    genesis_consensus_state, multinode_data_dir, next_batch, status_part_fits, sync_status_url,
    BootstrapAction, BootstrapError, GenesisError, MAX_SYNC_STATUS_RESPONSE_BYTES,
};
use hyperlicked::node::notices::{
    block_notices, maker_fee, taker_fee, AccountInfo, AdlEvent, BlockEvents, Deposit, Fill,
    FundingPayment, Liquidation, Notice, OrderUpdate, Side,
};
use hyperlicked::node::replay::{
    load_speculative_branch, replay_committed_application, replay_speculative_application,
    BranchRows, CanonicalApp, ReplayData, ReplayError, SpeculativeError,
};
use hyperlicked::table::Table;
use hyperlicked::types::block::{Block, CommitmentV2};
use hyperlicked::types::certificate::Certificate;
use hyperlicked::types::context::ConsensusContext;
use hyperlicked::types::messages::ConsensusState;
use hyperlicked::types::settings::ConsensusConfig;
use hyperlicked::types::vote::Vote;

/// An application whose state after a block is a function of the height.
struct CountingApp {
    epoch: u64,
    pending_update: bool,
    height: u64,
    preflights: Cell<usize>,
    commits: usize,
}

impl CountingApp {
    fn new() -> Self {
        CountingApp {
            epoch: 0,
            pending_update: false,
            height: 0,
            preflights: Cell::new(0),
            commits: 0,
        }
    }
}

fn receipts(block: &Block) -> CommitmentV2 {
    CommitmentV2 {
        receipts: vec![vec![block.height as u8, 7]],
    }
}

fn root_after(block: &Block) -> [u8; 32] {
    [block.height as u8 + 100; 32]
}

impl AppHook for CountingApp {
    fn applied(&self) -> Applied {
        unreachable!("ghost")
    }

    fn evidence_in(_payload: PayloadBytes) -> EvidenceReading {
        unreachable!("ghost")
    }

    fn prepare_payload(&self, _parent: &Block) -> Vec<u8> {
        Vec::new()
    }

    fn execute(&mut self, block: &Block) -> [u8; 32] {
        root_after(block)
    }

    fn preflight_commitment(&self, block: &Block) -> Result<Option<CommitmentV2>, String> {
        self.preflights.set(self.preflights.get() + 1);
        Ok(Some(receipts(block)))
    }

    fn preflight_state_root(&self, block: &Block) -> Result<Option<[u8; 32]>, String> {
        Ok(Some(root_after(block)))
    }

    fn commit(&mut self, block: &Block) -> Result<[u8; 32], String> {
        self.commits += 1;
        self.height = block.height;
        Ok(root_after(block))
    }

    fn decode_consensus_payload(
        &self,
        _payload: &Vec<u8>,
    ) -> Result<Vec<ConsensusTransaction>, String> {
        Ok(Vec::new())
    }

    fn validate_block(&self, block: &Block) -> Result<(), String> {
        self.preflights.set(self.preflights.get() + 1);
        if block.commitment_root != receipts(block).root() {
            return Err("commitment mismatch".to_string());
        }
        Ok(())
    }
}

impl CanonicalApp for CountingApp {
    fn current_epoch(&self) -> u64 {
        self.epoch
    }

    fn has_pending_validator_update(&self) -> bool {
        self.pending_update
    }

    fn committed_height(&self) -> u64 {
        self.height
    }
}

fn block_on(
    config: &ConsensusConfig,
    context: ConsensusContext,
    parent: &Block,
    salt: u64,
    justify: Option<Certificate>,
) -> Block {
    let mut block = Block {
        epoch: context.epoch,
        committee_hash: context.committee_hash,
        genesis_hash: context.genesis_hash,
        view: parent.height + 1,
        height: parent.height + 1,
        parent: parent.hash(),
        payload: Vec::new(),
        proposer: config.node_id,
        commitment_root: [0u8; 32],
        app_hash: [0u8; 32],
        timestamp: salt * 1_000 + parent.height + 1,
        justify,
    };
    block.app_hash = root_after(&block);
    block.commitment_root = receipts(&block).root();
    block
}

fn qc_for(config: &ConsensusConfig, context: ConsensusContext, block: &Block) -> Certificate {
    let vote = Vote::new_bls(
        context,
        block.view,
        block.hash(),
        block.app_hash,
        config.node_id,
        &config.bls_secret_key().expect("single-node BLS key"),
    );
    Certificate::new_bls(
        context,
        block.view,
        block.hash(),
        vec![vote.clone()],
        vote.signature.clone(),
    )
    .unwrap()
}

fn make_speculative_branch(
    config: &ConsensusConfig,
    context: ConsensusContext,
    length: u64,
    branch_salt: u64,
) -> (Vec<Block>, Certificate) {
    let mut parent = Block::genesis(context);
    let mut blocks = Vec::new();
    for height in 1..=length {
        let justify = if height > 1 {
            Some(qc_for(config, context, &parent))
        } else {
            None
        };
        let block = block_on(config, context, &parent, branch_salt, justify);
        parent = block.clone();
        blocks.push(block);
    }
    let qc = qc_for(config, context, &parent);
    (blocks, qc)
}

fn rows_of(genesis: &Block, blocks: &[&Block]) -> BranchRows {
    let mut rows = Table::new();
    let mut by_height = Table::new();
    rows.put(genesis.hash(), genesis.clone());
    by_height.put(0u64, genesis.hash());
    for block in blocks {
        rows.put(block.hash(), (*block).clone());
    }
    BranchRows { rows, by_height }
}

fn committed_data(chain: &[Block], state: Option<ConsensusState>) -> ReplayData {
    let mut commitments = Table::new();
    let mut state_roots = Table::new();
    for block in chain {
        commitments.put(block.hash(), receipts(block));
        state_roots.put(block.hash(), root_after(block));
    }
    ReplayData {
        committed_head: chain.last().cloned(),
        committed_height: state.as_ref().map(|s| s.committed_height),
        state,
        blocks: chain.to_vec(),
        commitments,
        state_roots,
    }
}

fn committed_state(context: ConsensusContext, head: &Block) -> ConsensusState {
    let mut state = genesis_consensus_state(context);
    state.committed_height = head.height;
    state.committed_hash = head.hash();
    state.current_view = head.view;
    state
}

#[test]
fn invalid_speculative_qc_fails_before_application_execution() {
    let mut config = ConsensusConfig::single_node();
    config.genesis_hash = [7u8; 32];
    let context = config.context().unwrap();
    let committee = config.committee().unwrap();
    let genesis = Block::genesis(context);
    let target = Block {
        epoch: context.epoch,
        committee_hash: context.committee_hash,
        genesis_hash: context.genesis_hash,
        view: 0,
        height: 1,
        parent: genesis.hash(),
        payload: Vec::new(),
        proposer: config.node_id,
        commitment_root: [0u8; 32],
        app_hash: [1u8; 32],
        timestamp: 1,
        justify: None,
    };
    let qc = Certificate {
        epoch: context.epoch,
        committee_hash: context.committee_hash,
        genesis_hash: context.genesis_hash,
        view: target.view,
        block_hash: target.hash(),
        app_hash: Some(target.app_hash),
        votes: Vec::new(),
        voters: vec![config.node_id],
        bls_pubkeys: vec![committee.bls_pubkey(&config.node_id).unwrap().to_vec()],
        agg_signature: vec![0u8; 96],
    };
    let mut state = genesis_consensus_state(context);
    state.high_qc = Some(qc);
    let store = rows_of(&genesis, &[&target]);
    let app = CountingApp::new();
    assert!(matches!(
        replay_speculative_application(
            &Some(state),
            &Some(genesis),
            &store,
            &app,
            context,
            &committee
        ),
        Err(SpeculativeError::Qc(_))
    ));
    assert_eq!(app.preflights.get(), 0);
    assert_eq!(app.committed_height(), 0);
}

#[test]
fn recovery_rejects_speculative_block_from_non_scheduled_leader() {
    let mut config = ConsensusConfig::single_node();
    config.genesis_hash = [7u8; 32];
    let context = config.context().unwrap();
    let committee = config.committee().unwrap();
    let genesis = Block::genesis(context);
    let target = Block {
        epoch: context.epoch,
        committee_hash: context.committee_hash,
        genesis_hash: context.genesis_hash,
        view: 0,
        height: 1,
        parent: genesis.hash(),
        payload: Vec::new(),
        proposer: [2u8; 32],
        commitment_root: [2u8; 32],
        app_hash: [1u8; 32],
        timestamp: 1,
        justify: None,
    };
    let mut state = genesis_consensus_state(context);
    state.high_qc = Some(qc_for(&config, context, &target));
    state.current_view = 1;
    let store = rows_of(&genesis, &[&target]);
    let app = CountingApp::new();
    assert_eq!(
        replay_speculative_application(
            &Some(state),
            &Some(genesis),
            &store,
            &app,
            context,
            &committee
        ),
        Err(SpeculativeError::NotLeader { view: 0 })
    );
    assert_eq!(app.preflights.get(), 0);
    assert_eq!(app.committed_height(), 0);
}

#[test]
fn recovery_validates_distinct_qc_branches_without_filling_live_candidate_cap() {
    let config = ConsensusConfig::single_node();
    let context = config.context().unwrap();
    let committee = config.committee().unwrap();
    let genesis = Block::genesis(context);
    let (high_branch, high_qc) = make_speculative_branch(&config, context, 9, 1);
    let (locked_branch, locked_qc) = make_speculative_branch(&config, context, 9, 2);
    assert_ne!(
        high_branch.last().unwrap().hash(),
        locked_branch.last().unwrap().hash()
    );
    let mut state = genesis_consensus_state(context);
    state.high_qc = Some(high_qc);
    state.locked_qc = Some(locked_qc);
    state.current_view = 20;
    let all: Vec<&Block> = high_branch.iter().chain(locked_branch.iter()).collect();
    let store = rows_of(&genesis, &all);
    let app = CountingApp::new();
    replay_speculative_application(
        &Some(state),
        &Some(genesis.clone()),
        &store,
        &app,
        context,
        &committee,
    )
    .expect("distinct persisted QC branches must be privately validated");
    assert_eq!(app.committed_height(), 0);
    assert_eq!(app.preflights.get(), 2);

    let branch = load_speculative_branch(
        &store,
        context,
        &committee,
        &genesis,
        high_branch[8].hash(),
    )
    .unwrap();
    assert_eq!(branch.len(), 9);
    for (i, block) in branch.iter().enumerate() {
        assert_eq!(block.height, i as u64 + 1);
        assert_eq!(block.hash(), high_branch[i].hash());
    }
}

#[test]
fn recovery_rejects_corrupted_speculative_commitment_without_publishing() {
    let config = ConsensusConfig::single_node();
    let context = config.context().unwrap();
    let committee = config.committee().unwrap();
    let genesis = Block::genesis(context);
    let (mut branch, _) = make_speculative_branch(&config, context, 2, 3);
    let mut corrupted = branch.pop().unwrap();
    corrupted.commitment_root[0] ^= 1;
    let mut state = genesis_consensus_state(context);
    state.high_qc = Some(qc_for(&config, context, &corrupted));
    state.current_view = 3;
    let store = rows_of(&genesis, &[&branch[0], &corrupted]);
    let app = CountingApp::new();
    assert_eq!(
        replay_speculative_application(
            &Some(state),
            &Some(genesis),
            &store,
            &app,
            context,
            &committee
        ),
        Err(SpeculativeError::Application)
    );
    assert_eq!(app.commits, 0);
    assert_eq!(app.committed_height(), 0);
}

#[test]
fn speculative_branches_are_complete() {
    let config = ConsensusConfig::single_node();
    let context = config.context().unwrap();
    let committee = config.committee().unwrap();
    let genesis = Block::genesis(context);
    let (branch, qc) = make_speculative_branch(&config, context, 3, 1);
    let load = |store: &BranchRows, target: [u8; 32]| {
        load_speculative_branch(store, context, &committee, &genesis, target).map(|b| b.len())
    };
    let full = rows_of(&genesis, &[&branch[0], &branch[1], &branch[2]]);
    assert_eq!(load(&full, branch[2].hash()), Ok(3));
    assert_eq!(load(&full, genesis.hash()), Ok(0));
    assert_eq!(
        load(&full, [9u8; 32]),
        Err(SpeculativeError::MissingTarget)
    );
    let gap = rows_of(&genesis, &[&branch[0], &branch[2]]);
    assert_eq!(
        load(&gap, branch[2].hash()),
        Err(SpeculativeError::MissingParent)
    );
    let mut bare = branch[1].clone();
    bare.justify = None;
    let unjustified = rows_of(&genesis, &[&branch[0], &bare]);
    assert_eq!(
        load(&unjustified, bare.hash()),
        Err(SpeculativeError::MissingQc)
    );
    let mut early = branch[0].clone();
    early.justify = Some(qc.clone());
    assert_eq!(
        load(&rows_of(&genesis, &[&early]), early.hash()),
        Err(SpeculativeError::UnexpectedQc)
    );
    let mut wrong = branch[1].clone();
    wrong.justify = Some(qc);
    assert_eq!(
        load(&rows_of(&genesis, &[&branch[0], &wrong]), wrong.hash()),
        Err(SpeculativeError::JustifyTarget)
    );
    let mut skipped = branch[1].clone();
    skipped.height = 5;
    assert_eq!(
        load(&rows_of(&genesis, &[&branch[0], &skipped]), skipped.hash()),
        Err(SpeculativeError::SkippedHeight { height: 5 })
    );
    let mut misfiled = rows_of(&genesis, &[]);
    misfiled.rows.put([3u8; 32], branch[0].clone());
    assert_eq!(load(&misfiled, [3u8; 32]), Err(SpeculativeError::WrongHash));
    let mut unindexed = rows_of(&genesis, &[]);
    unindexed.by_height = Table::new();
    assert_eq!(
        load(&unindexed, genesis.hash()),
        Err(SpeculativeError::NotIndexed { height: 0 })
    );
}

#[test]
fn replay_allows_genesis_without_commitment() {
    let config = ConsensusConfig::single_node();
    let context = config.context().unwrap();
    let committee = config.committee().unwrap();
    let genesis = Block::genesis(context);
    let mut data = committed_data(&[], Some(genesis_consensus_state(context)));
    data.committed_head = Some(genesis);
    let mut app = CountingApp::new();
    replay_committed_application(&data, &mut app, context, &committee)
        .expect("genesis may remain artifact-less");
    assert_eq!(app.committed_height(), 0);
    assert_eq!(app.commits, 0);
}

#[test]
fn replay_commits_every_block_once() {
    let config = ConsensusConfig::single_node();
    let context = config.context().unwrap();
    let committee = config.committee().unwrap();
    let (chain, _) = make_speculative_branch(&config, context, 4, 1);
    let state = committed_state(context, &chain[3]);
    let mut app = CountingApp::new();
    replay_committed_application(
        &committed_data(&chain, Some(state.clone())),
        &mut app,
        context,
        &committee,
    )
    .unwrap();
    assert_eq!(app.commits, 4);
    assert_eq!(app.committed_height(), 4);

    let fails = |data: ReplayData| {
        let mut app = CountingApp::new();
        replay_committed_application(&data, &mut app, context, &committee).unwrap_err()
    };
    let whole = || committed_data(&chain, Some(state.clone()));
    let mut data = whole();
    data.blocks.remove(1);
    assert_eq!(fails(data), ReplayError::Incomplete);
    let mut data = whole();
    data.blocks.swap(1, 2);
    assert_eq!(fails(data), ReplayError::NotSequential { height: 3 });
    let mut data = whole();
    data.committed_head = None;
    assert_eq!(fails(data), ReplayError::NoHead);
    let mut data = whole();
    data.committed_height = None;
    assert_eq!(fails(data), ReplayError::NoHeight);
    let mut data = whole();
    data.committed_height = Some(3);
    assert_eq!(fails(data), ReplayError::HeightMismatch);
    let mut data = whole();
    data.committed_head = Some(chain[2].clone());
    assert_eq!(fails(data), ReplayError::HeadMismatch);
    let mut data = whole();
    data.state = None;
    assert_eq!(fails(data), ReplayError::BlocksWithoutState);
    let mut data = whole();
    data.state = Some(genesis_consensus_state(ConsensusContext::new(5, [1u8; 32])));
    assert_eq!(fails(data), ReplayError::StateContext);
    let mut data = whole();
    data.blocks[2].justify = None;
    assert_eq!(fails(data), ReplayError::MissingQc { height: 3 });
    let mut data = whole();
    data.blocks[2].parent = [4u8; 32];
    assert_eq!(fails(data), ReplayError::BrokenParent { height: 3 });
    let mut data = whole();
    data.blocks[1].commitment_root = [0u8; 32];
    assert_eq!(fails(data), ReplayError::InvalidBlock { height: 2 });
    let mut data = whole();
    data.blocks[1].genesis_hash = [9u8; 32];
    assert_eq!(fails(data), ReplayError::BlockContext { height: 2 });
    let mut data = whole();
    data.blocks[1].epoch = 9;
    assert_eq!(fails(data), ReplayError::BlockEpoch);
    let mut data = whole();
    data.commitments.remove(&chain[1].hash());
    assert_eq!(fails(data), ReplayError::MissingCommitment { height: 2 });
    let mut data = whole();
    data.commitments
        .put(chain[1].hash(), CommitmentV2::default());
    assert_eq!(fails(data), ReplayError::CommitmentMismatch { height: 2 });
    let mut data = whole();
    data.state_roots.remove(&chain[1].hash());
    assert_eq!(fails(data), ReplayError::MissingStateRoot { height: 2 });
    let mut data = whole();
    data.state_roots.put(chain[1].hash(), [1u8; 32]);
    assert_eq!(fails(data), ReplayError::StateRootMismatch { height: 2 });
    let mut data = whole();
    data.blocks[3].justify = Some(qc_for(&config, context, &chain[1]));
    assert!(matches!(fails(data), ReplayError::Qc { height: 4, .. }));
}

#[test]
fn recovery_rejects_corrupted_height_one_metadata_before_application_commit() {
    let config = ConsensusConfig::single_node();
    let context = config.context().unwrap();
    let committee = config.committee().unwrap();
    let (chain, _) = make_speculative_branch(&config, context, 1, 0);
    let state = committed_state(context, &chain[0]);
    let mut data = committed_data(&chain, Some(state));
    // The certificate is not part of the block's identity.
    data.blocks[0].justify = Some(Certificate {
        epoch: context.epoch,
        committee_hash: context.committee_hash,
        genesis_hash: context.genesis_hash,
        view: 0,
        block_hash: [0u8; 32],
        app_hash: None,
        votes: Vec::new(),
        voters: Vec::new(),
        bls_pubkeys: Vec::new(),
        agg_signature: Vec::new(),
    });
    let mut replay = CountingApp::new();
    assert_eq!(
        replay_committed_application(&data, &mut replay, context, &committee),
        Err(ReplayError::UnexpectedQc)
    );
    assert_eq!(replay.committed_height(), 0);
}

#[test]
fn recovery_rejects_stale_application_epoch_before_genesis_early_return() {
    let config = ConsensusConfig::single_node();
    let context = config.context().unwrap();
    let committee = config.committee().unwrap();
    let mut app = CountingApp::new();
    app.epoch = 1;
    assert_eq!(
        replay_committed_application(&committed_data(&[], None), &mut app, context, &committee),
        Err(ReplayError::ApplicationEpoch)
    );
}

#[test]
fn recovery_rejects_pending_validator_update_before_genesis_early_return() {
    let config = ConsensusConfig::single_node();
    let context = config.context().unwrap();
    let committee = config.committee().unwrap();
    let mut app = CountingApp::new();
    app.pending_update = true;
    assert!(app.has_pending_validator_update());
    assert_eq!(
        replay_committed_application(&committed_data(&[], None), &mut app, context, &committee),
        Err(ReplayError::PendingUpdate)
    );
}

#[test]
fn bootstrap_genesis_install_is_atomic_and_idempotent() {
    let config = ConsensusConfig::single_node();
    let context = config.context().unwrap();
    let (head, state) = ensure_genesis_state(&None, false, false, context)
        .expect("fresh bootstrap installs genesis")
        .expect("there is something to install");
    assert_eq!(state.committed_height, 0);
    assert_eq!(state.committed_hash, Block::genesis(context).hash());
    assert_eq!(head.hash(), state.committed_hash);

    assert!(ensure_genesis_state(&Some(state), true, true, context)
        .expect("restart bootstrap is idempotent")
        .is_none());
}

#[test]
fn bootstrap_refuses_blocks_without_consensus_state() {
    let config = ConsensusConfig::single_node();
    let context = config.context().unwrap();
    assert!(matches!(
        ensure_genesis_state(&None, true, false, context),
        Err(GenesisError::BlocksWithoutState)
    ));
    let other = genesis_consensus_state(ConsensusContext::new(3, [3u8; 32]));
    assert!(matches!(
        ensure_genesis_state(&Some(other), true, true, context),
        Err(GenesisError::ContextMismatch)
    ));
}

#[test]
fn bootstrap_asks_for_bounded_batches() {
    assert_eq!(next_batch(0, 2_500), Some(1_000));
    assert_eq!(next_batch(2_000, 2_500), Some(2_500));
    assert_eq!(next_batch(2_500, 2_500), None);
    assert_eq!(next_batch(2_501, 2_500), None);
    assert_eq!(next_batch(u64::MAX - 1, u64::MAX), Some(u64::MAX));
    let config = ConsensusConfig::single_node();
    let context = config.context().unwrap();
    let genesis = Some(Block::genesis(context));
    let state = Some(genesis_consensus_state(context));
    assert_eq!(
        bootstrap_step(&state, &genesis, 7),
        Ok(BootstrapAction::Import { to_height: 7 })
    );
    assert_eq!(
        bootstrap_step(&state, &genesis, 0),
        Ok(BootstrapAction::Done)
    );
    assert_eq!(
        bootstrap_step(&None, &genesis, 7),
        Err(BootstrapError::NoState)
    );
    assert_eq!(
        bootstrap_step(&state, &None, 7),
        Err(BootstrapError::NoHead)
    );
    let mut other = Block::genesis(context);
    other.timestamp = 1;
    assert_eq!(
        bootstrap_step(&state, &Some(other), 7),
        Err(BootstrapError::Diverged)
    );
}

#[test]
fn sync_status_reads_are_bounded() {
    assert!(status_part_fits(0, MAX_SYNC_STATUS_RESPONSE_BYTES));
    assert!(!status_part_fits(1, MAX_SYNC_STATUS_RESPONSE_BYTES));
    assert!(!status_part_fits(usize::MAX, usize::MAX));
    assert_eq!(sync_status_url(&"  ".to_string()), None);
    assert_eq!(
        sync_status_url(&"http://peer:1//".to_string()),
        Some("http://peer:1/api/v1/sync/status".to_string())
    );
}

#[test]
fn consensus_secret_seed_reconstructs_configured_public_key() {
    let (seed, secret_key, public_key) = generate_bls_keypair(0);
    let node_id = [1u8; 32];
    let config = ConsensusConfig {
        epoch: 0,
        genesis_hash: [0u8; 32],
        node_id,
        validators: vec![node_id],
        voting_powers: vec![1],
        view_timeout_ms: 3000,
        bls_pubkeys: vec![public_key.clone()],
        bls_secret_key: Some(seed),
    };

    assert_eq!(secret_key.public_key(), public_key);
    assert_eq!(
        config.bls_secret_key().unwrap().public_key(),
        config.bls_pubkeys[0]
    );
    assert_eq!(seed[0], 1);
    assert_eq!(seed[31], 0xbe);
}

#[test]
fn data_directories_are_separate() {
    let context = ConsensusContext::with_genesis(0, [0u8; 32], [0x1fu8; 32]);
    let expected = format!(".hyperlicked/data/{}/{}", "1f".repeat(32), "02".repeat(32));
    assert_eq!(default_data_dir(context, [2u8; 32]), expected);
    let args = |list: &[&str]| list.iter().map(|s| s.to_string()).collect::<Vec<String>>();
    assert_eq!(
        multinode_data_dir(&args(&["multinode", "--node", "0"]), context, [2u8; 32]),
        Some(expected)
    );
    assert_eq!(
        multinode_data_dir(
            &args(&["multinode", "--data-dir", "/tmp/a", "--data-dir", "b"]),
            context,
            [2u8; 32]
        ),
        Some("/tmp/a".to_string())
    );
    assert_eq!(
        multinode_data_dir(&args(&["multinode", "--data-dir"]), context, [2u8; 32]),
        None
    );
}

#[test]
fn blocks_are_produced_on_demand_and_as_heartbeat() {
    let mut state = BlockLoop::new(5, 5);
    assert!(!state.tick((0, 0, 0)));
    assert_eq!((state.height, state.view), (5, 6));
    let context = ConsensusContext::new(0, [1u8; 32]);
    assert!(state.tick((0, 1, 0)));
    assert_eq!((state.height, state.view), (6, 7));
    assert!(state.executing);
    assert!(state.executed(context, [8u8; 32], false).is_none());
    assert!(!state.executing);
    let mut produced = 0;
    for _ in 0..10 {
        if state.tick((0, 0, 0)) {
            produced += 1;
            assert!(state.executed(context, [8u8; 32], true).is_some());
        }
    }
    assert_eq!(produced, 1);
    assert_eq!((state.height, state.view), (7, 17));
    assert!(!state.snapshot_due(0));
    assert!(!state.snapshot_due(3));
    assert!(state.snapshot_due(2));
    state.snapshot_saved();
    assert!(!state.snapshot_due(2));
    assert_eq!(state.log(3, false), BlockLog::Committed);
    assert_eq!(state.log(0, true), BlockLog::Heartbeat);
    assert_eq!(state.log(0, false), BlockLog::Silent);
    assert!(!state.status_due());
    assert!(BlockLoop::new(200, 1).status_due());
    let block = state.block(context, [1u8; 32], 99);
    assert_eq!((block.height, block.view, block.timestamp), (7, 17, 99));
    assert!(block.payload.is_empty());
    assert!(state.tick((1, 0, 0)));
    let durable = state.executed(context, [8u8; 32], true).expect("a state to store");
    assert_eq!(durable.committed_hash, [8u8; 32]);
    assert_eq!(durable.current_view, 18);
    assert_eq!(durable.committed_height, 8);
}

#[test]
fn market_figures() {
    let mut hash = [0u8; 32];
    hash[0] = 0xde;
    hash[3] = 0x0f;
    hash[4] = 0xff;
    assert_eq!(short_hash(&hash), "de00000f");
    assert_eq!(best_price(&vec![]), None);
    assert_eq!(
        best_price(&vec![
            PriceLevel { price: 7, size: 1 },
            PriceLevel { price: 6, size: 2 }
        ]),
        Some(7)
    );
    let mut market = MarketInfo {
        mark_price: Some(50),
        oracle_price: None,
        mid_price: None,
        funding_rate_bps: -3,
        premium: None,
        open_interest: 4,
        prev_day_price: None,
        day_volume: 5,
        day_notional_volume: 6,
        next_funding_time: 7,
    };
    let figures = asset_ctx(&market, 9);
    assert_eq!(figures.mark_price, 50);
    assert_eq!(figures.mid_price, 50);
    assert_eq!(figures.funding_rate, -300);
    assert_eq!(figures.premium, 0);
    assert_eq!(figures.timestamp, 9);
    assert_eq!(mark_update(0, Some(5), Some(6)), None);
    assert_eq!(mark_update(2, Some(5), Some(6)), Some((5, Some(6))));
    assert_eq!(mark_update(1, None, None), Some((0, None)));
    market.mid_price = Some(51);
    assert_eq!(asset_ctx(&market, 9).mid_price, 51);
}

fn trade(price: i64, size: i64) -> Fill {
    Fill {
        maker: "alice".to_string(),
        taker: "bob".to_string(),
        symbol: "BTC-USDT".to_string(),
        maker_order_id: "o1".to_string(),
        side: Side::Ask,
        price,
        size,
        maker_account: None,
        taker_account: Some(AccountInfo {
            balance: 10,
            locked: 3,
            size: -2,
            entry_price: 40,
            unrealized_pnl: 8,
        }),
        mark_price: None,
    }
}

#[test]
fn fees_round_towards_zero() {
    assert_eq!(maker_fee(&trade(5_000_000, 100_000_000)), 1_000);
    assert_eq!(taker_fee(&trade(5_000_000, 100_000_000)), 2_500);
    assert_eq!(maker_fee(&trade(-5_000_000, 100_000_000)), -1_000);
    assert_eq!(taker_fee(&trade(1_999, 100_000_000)), 0);
    assert_eq!(taker_fee(&trade(-1_999, 100_000_000)), 0);
    assert_eq!(Side::Bid.name(), "buy");
    assert_eq!(Side::Ask.name(), "sell");
}

#[test]
fn notices_follow_the_events_of_a_block() {
    let account = Some(AccountInfo {
        balance: 100,
        locked: 1,
        size: 4,
        entry_price: 5,
        unrealized_pnl: 6,
    });
    let events = BlockEvents {
        fills: vec![trade(5_000_000, 100_000_000)],
        order_updates: vec![OrderUpdate {
            trader: "carol".to_string(),
            order_id: "o2".to_string(),
            symbol: "BTC-USDT".to_string(),
            status: "filled".to_string(),
            filled: 1,
            remaining: 0,
        }],
        deposits: vec![
            Deposit {
                trader: "dave".to_string(),
                account,
            },
            Deposit {
                trader: "nobody".to_string(),
                account: None,
            },
        ],
        adl: vec![AdlEvent {
            address: "erin".to_string(),
            symbol: "BTC-USDT".to_string(),
            size_reduced: 1,
            close_price: 2,
            realized_pnl: 3,
            triggering_liquidation: "l1".to_string(),
            timestamp: 44,
            account,
            mark_price: Some(60),
        }],
        funding: vec![FundingPayment {
            address: "frank".to_string(),
            symbol: "BTC-USDT".to_string(),
            payment: -1,
            position_size: 2,
            funding_rate_bps: 3,
            timestamp: 45,
            account,
        }],
        liquidations: vec![Liquidation {
            address: "grace".to_string(),
            symbol: "BTC-USDT".to_string(),
            size: 1,
            price: 2,
            pnl: -3,
            was_long: true,
            account,
            mark_price: Some(61),
        }],
    };
    let notices = block_notices(&events, 77);
    let symbol = "BTC-USDT".to_string();
    let expected = vec![
        Notice::Fill {
            maker: "alice".to_string(),
            taker: "bob".to_string(),
            symbol: symbol.clone(),
            order_id: "o1".to_string(),
            side: Side::Ask,
            price: 5_000_000,
            size: 100_000_000,
            maker_fee: 1_000,
            taker_fee: 2_500,
            timestamp: 77,
        },
        Notice::Trade {
            symbol: symbol.clone(),
            price: 5_000_000,
            size: 100_000_000,
            side: Side::Ask,
            timestamp: 77,
        },
        Notice::Position {
            address: "bob".to_string(),
            symbol: symbol.clone(),
            size: -2,
            entry_price: 40,
            mark_price: 0,
            unrealized_pnl: 8,
            timestamp: 77,
        },
        Notice::Balance {
            address: "bob".to_string(),
            balance: 10,
            available: 10,
            locked: 3,
            timestamp: 77,
        },
        Notice::Order {
            trader: "carol".to_string(),
            order_id: "o2".to_string(),
            symbol: symbol.clone(),
            status: "filled".to_string(),
            filled: 1,
            remaining: 0,
            timestamp: 77,
        },
        Notice::Balance {
            address: "dave".to_string(),
            balance: 100,
            available: 100,
            locked: 1,
            timestamp: 77,
        },
        Notice::Adl {
            address: "erin".to_string(),
            symbol: symbol.clone(),
            size_reduced: 1,
            close_price: 2,
            realized_pnl: 3,
            triggering_liquidation: "l1".to_string(),
            timestamp: 44,
        },
        Notice::Position {
            address: "erin".to_string(),
            symbol: symbol.clone(),
            size: 4,
            entry_price: 5,
            mark_price: 60,
            unrealized_pnl: 6,
            timestamp: 77,
        },
        Notice::Funding {
            address: "frank".to_string(),
            symbol: symbol.clone(),
            payment: -1,
            position_size: 2,
            funding_rate_bps: 3,
            timestamp: 45,
        },
        Notice::Balance {
            address: "frank".to_string(),
            balance: 100,
            available: 100,
            locked: 1,
            timestamp: 77,
        },
        Notice::Liquidated {
            address: "grace".to_string(),
            symbol: symbol.clone(),
            size: 1,
            price: 2,
            pnl: -3,
            was_long: true,
            timestamp: 77,
        },
        Notice::Position {
            address: "grace".to_string(),
            symbol,
            size: 4,
            entry_price: 5,
            mark_price: 61,
            unrealized_pnl: 6,
            timestamp: 77,
        },
        Notice::Balance {
            address: "grace".to_string(),
            balance: 100,
            available: 100,
            locked: 1,
            timestamp: 77,
        },
    ];
    assert_eq!(notices, expected);
}

#[test]
fn persistence_rejects_missing_non_genesis_commitment() {
    let config = ConsensusConfig::single_node();
    let context = config.context().unwrap();
    let genesis = Block::genesis(context);
    let mut store = MemoryJournal::new();
    let genesis_state = genesis_consensus_state(context);
    // Genesis is the one finalized block that needs no records.
    store
        .commit_block_with_commitment_and_state_root(&genesis, &genesis_state, None, None)
        .unwrap();

    let mut block = Block {
        epoch: context.epoch,
        committee_hash: context.committee_hash,
        genesis_hash: context.genesis_hash,
        view: 1,
        height: 1,
        parent: genesis.hash(),
        payload: Vec::new(),
        proposer: config.node_id,
        commitment_root: [0u8; 32],
        app_hash: [0u8; 32],
        timestamp: 1,
        justify: None,
    };
    block.app_hash = CountingApp::new().execute(&block);
    let committed = committed_state(context, &block);
    let error = store
        .commit_block_with_commitment_and_state_root(&block, &committed, None, None)
        .expect_err("non-genesis finalized blocks require an execution commitment");
    assert!(error.contains("is missing its execution commitment"));
    assert!(store.get(&block.hash()).is_none());
    assert_eq!(
        store
            .load_consensus_state()
            .unwrap()
            .unwrap()
            .committed_height,
        0
    );
}

#[test]
fn persistence_rejects_mismatched_non_genesis_state_root() {
    let config = ConsensusConfig::single_node();
    let context = config.context().unwrap();
    let genesis = Block::genesis(context);
    let mut store = MemoryJournal::new();
    store
        .commit_block_with_commitment_and_state_root(
            &genesis,
            &genesis_consensus_state(context),
            None,
            None,
        )
        .unwrap();
    let block = block_on(&config, context, &genesis, 0, None);
    let root = root_after(&block);
    let bad_root = if root == [0u8; 32] {
        [1u8; 32]
    } else {
        [0u8; 32]
    };
    let commitment = receipts(&block);
    let committed = committed_state(context, &block);
    let error = store
        .commit_block_with_commitment_and_state_root(
            &block,
            &committed,
            Some(&commitment),
            Some(&bad_root),
        )
        .expect_err("state-root mismatch must fail closed before persistence");
    assert!(error.contains("state root does not match the authenticated block app hash"));
    assert_eq!(
        check_record(&block, Some(&CommitmentV2::default()), Some(&root)),
        Err(RecordError::CommitmentRoot)
    );
    assert_eq!(
        check_record(&block, Some(&commitment), None),
        Err(RecordError::NoStateRoot)
    );
    store
        .commit_block_with_commitment_and_state_root(
            &block,
            &committed,
            Some(&commitment),
            Some(&root),
        )
        .unwrap();
    assert_eq!(store.load_state_root(&block.hash()), Some(root));
    assert_eq!(
        store.load_commitment(&block.hash()).unwrap().root(),
        block.commitment_root
    );
    assert!(store.load_commitment(&genesis.hash()).is_none());
    assert!(store.load_state_root(&genesis.hash()).is_none());
}

#[test]
fn a_run_of_the_block_loop_leaves_no_gap() {
    let mut state = BlockLoop::new(40, 3);
    let context = ConsensusContext::new(0, [1u8; 32]);
    let mut heights = Vec::new();
    for step in 0..50usize {
        if state.tick((step % 3 % 2, 0, 0)) {
            let app_hash = [step as u8; 32];
            let durable = state.executed(context, app_hash, true).expect("one write");
            assert_eq!(durable.committed_height, state.height);
            assert_eq!(durable.current_view, state.view);
            assert_eq!(durable.committed_hash, app_hash);
            assert!(step % 3 == 1 || state.view % 10 == 0);
            heights.push(state.height);
        }
    }
    let expected: Vec<u64> = (41..41 + heights.len() as u64).collect();
    assert_eq!(heights, expected);
    assert_eq!(state.height, *heights.last().unwrap());
    assert_eq!(state.view, 53);
}
