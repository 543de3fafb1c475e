use hyperlicked::consensus::engine::Engine;
use hyperlicked::consensus::hooks::NoOpApp;
use hyperlicked::consensus::store::MemoryBlockStore;
use hyperlicked::types::block::Block;
use hyperlicked::types::certificate::Certificate;
use hyperlicked::types::messages::Propose;
use hyperlicked::types::settings::ConsensusConfig;
use hyperlicked::types::vote::Vote;
#[test]
fn test_2_chain_commit_rule() {
    // HotStuff-2 2-chain commit: block N commits when QC for N+1 exists
    // Genesis (height 0) is already committed at initialization
    let config = ConsensusConfig::single_node();
    let app = NoOpApp::new();
    let store = MemoryBlockStore::new();

    let mut engine = Engine::new(config, app, store);
    assert_eq!(engine.committed_height(), 0, "Genesis starts as committed");

    // Tick 1: Certify block 1, try to commit genesis (already committed, returns None)
    let committed = engine.tick();
    assert!(committed.is_none(), "Genesis was already committed at init");
    assert_eq!(engine.committed_height(), 0);

    // Tick 2: Certify block 2, commits block 1
    let committed = engine.tick();
    assert!(committed.is_some());
    assert_eq!(committed.unwrap().height, 1, "Second QC should commit block 1");
    assert_eq!(engine.committed_height(), 1);

    // Tick 3: Certify block 3, commits block 2
    let committed = engine.tick();
    assert!(committed.is_some());
    assert_eq!(committed.unwrap().height, 2, "Third QC should commit block 2");
    assert_eq!(engine.committed_height(), 2);
}

#[test]
fn test_single_node_produces_blocks() {
    let config = ConsensusConfig::single_node();
    let app = NoOpApp::new();
    let store = MemoryBlockStore::new();

    let mut engine = Engine::new(config, app, store);

    // With 2-chain commit:
    // - Tick 1: Certifies block 1, genesis already committed -> None
    // - Tick 2: Certifies block 2, commits block 1
    // - Tick 3: Certifies block 3, commits block 2
    let committed = engine.tick();
    assert!(committed.is_none()); // Genesis already committed
    assert_eq!(engine.committed_height(), 0);

    let committed = engine.tick();
    assert!(committed.is_some());
    assert_eq!(engine.committed_height(), 1);

    let committed = engine.tick();
    assert!(committed.is_some());
    assert_eq!(engine.committed_height(), 2);
}

#[test]
fn test_blocks_chain_correctly() {
    let config = ConsensusConfig::single_node();
    let app = NoOpApp::new();
    let store = MemoryBlockStore::new();

    let mut engine = Engine::new(config, app, store);

    // With 2-chain commit: first tick returns None (genesis already committed)
    // Then committed heights are: 1, 2, 3, 4 for ticks 2-5
    let first = engine.tick();
    assert!(first.is_none(), "First tick: genesis already committed");

    for expected_height in 1..=4 {
        let block = engine.tick().expect("should produce block");
        assert_eq!(block.height, expected_height);
    }
}

#[test]
fn test_views_advance() {
    let config = ConsensusConfig::single_node();
    let app = NoOpApp::new();
    let store = MemoryBlockStore::new();

    let mut engine = Engine::new(config, app, store);

    let view_before = engine.current_view();
    engine.tick();
    let view_after = engine.current_view();

    assert!(view_after > view_before);
}

#[test]
fn test_observer_mode_creation() {
    let config = ConsensusConfig::single_node();
    let app = NoOpApp::new();
    let store = MemoryBlockStore::new();

    let engine = Engine::new_observer(config, app, store);
    assert!(engine.is_observer());
    assert_eq!(engine.committed_height(), 0);
}

#[test]
fn test_observer_processes_queued_blocks() {
    let config = ConsensusConfig::single_node();
    let app = NoOpApp::new();
    let store = MemoryBlockStore::new();

    let context = config.context().unwrap();
    let mut engine = Engine::new_observer(config, app, store);
    assert!(engine.is_observer());

    // Block 1 at height 1 is exempt from QC verification
    let block1 = Block {
        epoch: context.epoch,
        committee_hash: context.committee_hash,
        genesis_hash: context.genesis_hash,
        view: 1,
        height: 1,
        parent: Block::genesis(context).hash(),
        payload: vec![],
        proposer: [1u8; 32],
        commitment_root: [0u8; 32],
        app_hash: [0u8; 32], // NoOpApp returns [0u8; 32]
        timestamp: 1000,
        justify: None,
    };

    // Block 2 needs a QC certifying block 1, so add one
    let qc_for_block1 = Certificate::new(context, 1, block1.hash(), vec![
        Vote::new(context, 1, block1.hash(), [0u8; 32], [1u8; 32])
    ])
    .ok()
    .unwrap();

    let block2 = Block {
        epoch: context.epoch,
        committee_hash: context.committee_hash,
        genesis_hash: context.genesis_hash,
        view: 2,
        height: 2,
        parent: block1.hash(),
        payload: vec![],
        proposer: [1u8; 32],
        commitment_root: [0u8; 32],
        app_hash: [0u8; 32],
        timestamp: 2000,
        justify: Some(qc_for_block1),
    };

    // Queue blocks out of order
    engine.queue_block(block2.clone());
    engine.queue_block(block1.clone());
    assert_eq!(engine.queued_block_count(), 2);

    // First tick should commit block 1
    let committed = engine.tick();
    assert!(committed.is_some());
    assert_eq!(committed.unwrap().height, 1);
    assert_eq!(engine.committed_height(), 1);

    // Second tick should commit block 2 (has valid QC for parent)
    let committed = engine.tick();
    assert!(committed.is_some());
    assert_eq!(committed.unwrap().height, 2);
    assert_eq!(engine.committed_height(), 2);

    // No more blocks to process
    let committed = engine.tick();
    assert!(committed.is_none());
}

#[test]
fn test_observer_ignores_already_committed() {
    let config = ConsensusConfig::single_node();
    let app = NoOpApp::new();
    let store = MemoryBlockStore::new();

    let context = config.context().unwrap();
    let mut engine = Engine::new_observer(config, app, store);

    // Height 1 blocks are exempt from QC verification
    let block1 = Block {
        epoch: context.epoch,
        committee_hash: context.committee_hash,
        genesis_hash: context.genesis_hash,
        view: 1,
        height: 1,
        parent: Block::genesis(context).hash(),
        payload: vec![],
        proposer: [1u8; 32],
        commitment_root: [0u8; 32],
        app_hash: [0u8; 32],
        timestamp: 1000,
        justify: None,
    };

    // Queue and process
    engine.queue_block(block1.clone());
    engine.tick();
    assert_eq!(engine.committed_height(), 1);

    // Try to queue again - should be ignored
    engine.queue_block(block1);
    assert_eq!(engine.queued_block_count(), 0);
}

#[test]
fn test_observer_rejects_block_without_qc() {
    let config = ConsensusConfig::single_node();
    let app = NoOpApp::new();
    let store = MemoryBlockStore::new();

    let context = config.context().unwrap();
    let mut engine = Engine::new_observer(config, app, store);

    // Block 1 at height 1 is exempt from QC check
    let block1 = Block {
        epoch: context.epoch,
        committee_hash: context.committee_hash,
        genesis_hash: context.genesis_hash,
        view: 1,
        height: 1,
        parent: Block::genesis(context).hash(),
        payload: vec![],
        proposer: [1u8; 32],
        commitment_root: [0u8; 32],
        app_hash: [0u8; 32],
        timestamp: 1000,
        justify: None,
    };

    // Block 2 at height 2 REQUIRES a QC but doesn't have one
    let block2 = Block {
        epoch: context.epoch,
        committee_hash: context.committee_hash,
        genesis_hash: context.genesis_hash,
        view: 2,
        height: 2,
        parent: block1.hash(),
        payload: vec![],
        proposer: [1u8; 32],
        commitment_root: [0u8; 32],
        app_hash: [0u8; 32],
        timestamp: 2000,
        justify: None, // Missing required QC
    };

    // Process block 1 (should succeed)
    engine.queue_block(block1.clone());
    let committed = engine.tick();
    assert!(committed.is_some());
    assert_eq!(engine.committed_height(), 1);

    // Process block 2 (should be rejected due to missing QC)
    engine.queue_block(block2);
    let committed = engine.tick();
    assert!(committed.is_none(), "Block without QC should be rejected");
    assert_eq!(engine.committed_height(), 1, "Height should not advance");
}

#[test]
fn a_second_proposal_of_a_voted_view_gets_no_vote() {
    let config = ConsensusConfig::single_node();
    let context = config.context().unwrap();
    let mut engine = Engine::new(config, NoOpApp::new(), MemoryBlockStore::new());
    let block = Block {
        epoch: context.epoch,
        committee_hash: context.committee_hash,
        genesis_hash: context.genesis_hash,
        view: 1,
        height: 1,
        parent: Block::genesis(context).hash(),
        payload: vec![],
        proposer: [1u8; 32],
        commitment_root: [0u8; 32],
        app_hash: [0u8; 32],
        timestamp: 1000,
        justify: None,
    };
    let propose = |block: Block| Propose {
        epoch: context.epoch,
        committee_hash: context.committee_hash,
        genesis_hash: context.genesis_hash,
        block,
        justify: None,
        proposer_signature: vec![],
    };
    let mut other = block.clone();
    other.timestamp = 2000;
    let mut wrong = block.clone();
    wrong.view = 2;
    wrong.app_hash = [1u8; 32];
    let vote = engine.on_propose(propose(block.clone())).expect("first vote");
    assert_eq!((vote.view, vote.block_hash), (1, block.hash()));
    assert!(engine.on_propose(propose(other)).is_none());
    assert!(engine.on_propose(propose(wrong)).is_none());
}
