use hyperlicked::consensus::persistence::{MemoryJournal, PersistentStore};
use hyperlicked::consensus::runner::{
    MAX_PENDING_BLOCKS, MAX_PENDING_BYTES, MAX_PENDING_SOFT_BLOCKS, MAX_PENDING_SOFT_BYTES,
};
use hyperlicked::consensus::store::{
    reaches_ancestor, speculative_ancestor_closure, BlockStore, MemoryBlockStore, StoreError,
    MAX_SPECULATIVE_BLOCK_BYTES, MAX_SPECULATIVE_STORE_BLOCKS,
};
use hyperlicked::node::bootstrap::genesis_consensus_state;
use hyperlicked::table::Table;
use hyperlicked::types::block::{Block, CommitmentV2, MAX_BLOCK_PAYLOAD_SIZE};
use hyperlicked::types::certificate::Certificate;
use hyperlicked::types::context::ConsensusContext;
use hyperlicked::types::settings::ConsensusConfig;

/// The length of a block's variable parts in JSON.
fn row_bytes(block: &Block) -> usize {
    let mut total = serde_json::to_vec(&block.payload).unwrap().len();
    if let Some(qc) = &block.justify {
        let voters: Vec<Vec<u8>> = qc.voters.iter().map(|v| v.to_vec()).collect();
        total += serde_json::to_vec(&voters).unwrap().len();
        total += serde_json::to_vec(&qc.bls_pubkeys).unwrap().len();
        total += serde_json::to_vec(&qc.agg_signature).unwrap().len();
    }
    total
}

fn body(context: ConsensusContext, view: u64, height: u64, parent: [u8; 32]) -> Block {
    Block {
        epoch: context.epoch,
        committee_hash: context.committee_hash,
        genesis_hash: context.genesis_hash,
        view,
        height,
        parent,
        payload: Vec::new(),
        proposer: [1u8; 32],
        commitment_root: [1u8; 32],
        app_hash: [1u8; 32],
        timestamp: view,
        justify: None,
    }
}

fn certificate(context: ConsensusContext, view: u64, block: &Block, signers: usize) -> Certificate {
    Certificate {
        epoch: context.epoch,
        committee_hash: context.committee_hash,
        genesis_hash: context.genesis_hash,
        view,
        block_hash: block.hash(),
        app_hash: Some(block.app_hash),
        votes: Vec::new(),
        voters: vec![[9u8; 32]; signers],
        bls_pubkeys: vec![vec![7u8; 48]; signers],
        agg_signature: vec![5u8; 96],
    }
}

#[test]
fn production_memory_cache_keeps_exact_head_without_canonical_history_growth() {
    let context = ConsensusConfig::single_node()
        .context()
        .expect("single-node context");
    let mut store = MemoryBlockStore::new();
    let genesis = Block::genesis(context);
    store.save(&genesis);
    store.set_committed(&genesis.hash());

    let speculative = Block {
        epoch: context.epoch,
        committee_hash: context.committee_hash,
        genesis_hash: context.genesis_hash,
        view: 1,
        height: 1,
        parent: genesis.hash(),
        payload: Vec::new(),
        proposer: [1u8; 32],
        commitment_root: [1u8; 32],
        app_hash: [1u8; 32],
        timestamp: 1,
        justify: None,
    };
    store
        .save_speculative(&speculative, row_bytes(&speculative))
        .unwrap();
    let mut larger_justify = speculative.clone();
    larger_justify.justify = Some(Certificate {
        epoch: context.epoch,
        committee_hash: context.committee_hash,
        genesis_hash: context.genesis_hash,
        view: 1,
        block_hash: genesis.hash(),
        app_hash: Some(genesis.app_hash),
        votes: Vec::new(),
        voters: vec![[9u8; 32]; 8],
        bls_pubkeys: vec![vec![7u8; 48]; 8],
        agg_signature: vec![5u8; 96],
    });
    assert_eq!(larger_justify.hash(), speculative.hash());
    store
        .save_speculative(&larger_justify, row_bytes(&larger_justify))
        .unwrap();
    assert!(store
        .get(&speculative.hash())
        .expect("speculative body")
        .justify
        .is_none());
    store.save(&speculative);
    store
        .save_speculative(&larger_justify, row_bytes(&larger_justify))
        .unwrap();
    assert!(store.get(&speculative.hash()).unwrap().justify.is_none());
    assert_eq!(store.get_by_height(1).unwrap().hash(), speculative.hash());

    let mut parent = genesis;
    let mut old_hashes = Vec::new();
    for height in 1..=8u64 {
        let block = Block {
            epoch: context.epoch,
            committee_hash: context.committee_hash,
            genesis_hash: context.genesis_hash,
            view: height,
            height,
            parent: parent.hash(),
            payload: Vec::new(),
            proposer: [height as u8; 32],
            commitment_root: [0u8; 32],
            app_hash: [height as u8; 32],
            timestamp: height,
            justify: None,
        };
        old_hashes.push(parent.hash());
        store.save(&block);
        store.set_committed(&block.hash());
        store.prune_production_cache(&vec![]).unwrap();
        assert_eq!(store.get_committed_head().unwrap().hash(), block.hash());
        parent = block;
    }

    for old_hash in old_hashes {
        assert!(
            store.get(&old_hash).is_none(),
            "old canonical block remained in the production cache"
        );
    }
    assert_eq!(
        store.get_by_height(parent.height).unwrap().hash(),
        parent.hash()
    );
}

#[test]
fn memory_speculative_hash_reuse_is_first_write_wins() {
    let mut store = MemoryBlockStore::new();
    let context = ConsensusContext::new(0, [7u8; 32]);
    let genesis = Block::genesis(context);
    store.save(&genesis);

    let first = Block {
        epoch: context.epoch,
        committee_hash: context.committee_hash,
        genesis_hash: context.genesis_hash,
        view: 1,
        height: 1,
        parent: genesis.hash(),
        payload: vec![1],
        proposer: [1u8; 32],
        commitment_root: [1u8; 32],
        app_hash: [2u8; 32],
        timestamp: 1,
        justify: None,
    };
    store.save_speculative(&first, row_bytes(&first)).unwrap();

    let mut larger_justify = first.clone();
    larger_justify.justify = Some(certificate(context, 1, &genesis, 8));
    assert_eq!(larger_justify.hash(), first.hash());
    assert!(row_bytes(&larger_justify) > row_bytes(&first));

    store
        .save_speculative(&larger_justify, row_bytes(&larger_justify))
        .unwrap();
    assert!(store.get(&first.hash()).unwrap().justify.is_none());

    store.save(&first);
    store
        .save_speculative(&larger_justify, row_bytes(&larger_justify))
        .unwrap();
    assert!(store.get(&first.hash()).unwrap().justify.is_none());
}

#[test]
fn maximum_payload_parent_and_child_fit_reserved_byte_budget() {
    let mut store = MemoryBlockStore::new();
    let context = ConsensusContext::new(0, [7u8; 32]);
    let genesis = Block::genesis(context);
    store.save(&genesis);
    let commitment_root = CommitmentV2::default().root();

    let parent = Block {
        epoch: context.epoch,
        committee_hash: context.committee_hash,
        genesis_hash: context.genesis_hash,
        view: 1,
        height: 1,
        parent: genesis.hash(),
        payload: vec![u8::MAX; MAX_BLOCK_PAYLOAD_SIZE],
        proposer: [1u8; 32],
        commitment_root,
        app_hash: [1u8; 32],
        timestamp: 1,
        justify: None,
    };
    parent.validate().unwrap();
    let parent_bytes = row_bytes(&parent);
    store
        .ensure_speculative_capacity(
            &parent,
            parent_bytes,
            MAX_PENDING_SOFT_BLOCKS,
            MAX_PENDING_SOFT_BYTES,
        )
        .expect("one maximum-payload ordinary parent must fit the soft budget");
    store.save_speculative(&parent, parent_bytes).unwrap();

    let child = Block {
        epoch: context.epoch,
        committee_hash: context.committee_hash,
        genesis_hash: context.genesis_hash,
        view: 2,
        height: 2,
        parent: parent.hash(),
        payload: vec![u8::MAX; MAX_BLOCK_PAYLOAD_SIZE],
        proposer: [2u8; 32],
        commitment_root,
        app_hash: [2u8; 32],
        timestamp: 2,
        justify: Some(Certificate {
            epoch: context.epoch,
            committee_hash: context.committee_hash,
            genesis_hash: context.genesis_hash,
            view: parent.view,
            block_hash: parent.hash(),
            app_hash: Some(parent.app_hash),
            votes: Vec::new(),
            voters: vec![[9u8; 32]],
            bls_pubkeys: vec![vec![7u8; 48]],
            agg_signature: vec![5u8; 96],
        }),
    };
    child.validate().unwrap();
    let child_bytes = row_bytes(&child);
    store
        .ensure_speculative_capacity(&child, child_bytes, MAX_PENDING_BLOCKS, MAX_PENDING_BYTES)
        .expect("one maximum-payload justified child must fit the reserved hard budget");
    store.save_speculative(&child, child_bytes).unwrap();
    assert!(store.get(&parent.hash()).is_some());
    assert!(store.get(&child.hash()).is_some());
}

#[test]
fn rolling_admission_preserves_protected_sibling_without_partial_writes() {
    let context = ConsensusContext::new(0, [7u8; 32]);
    let genesis = Block::genesis(context);
    let old = Block {
        epoch: context.epoch,
        committee_hash: context.committee_hash,
        genesis_hash: context.genesis_hash,
        view: 4,
        height: 1,
        parent: genesis.hash(),
        payload: vec![4],
        proposer: [4u8; 32],
        commitment_root: [0u8; 32],
        app_hash: [4u8; 32],
        timestamp: 4,
        justify: None,
    };
    let mut next = old.clone();
    next.view = 5;
    next.timestamp = 5;
    next.payload = vec![5];
    next.app_hash = [5u8; 32];
    next.justify = Some(Certificate {
        epoch: context.epoch,
        committee_hash: context.committee_hash,
        genesis_hash: context.genesis_hash,
        view: 3,
        block_hash: genesis.hash(),
        app_hash: Some(genesis.app_hash),
        votes: Vec::new(),
        voters: Vec::new(),
        bls_pubkeys: Vec::new(),
        agg_signature: Vec::new(),
    });

    let mut memory = MemoryBlockStore::new();
    memory.save(&genesis);
    memory.set_committed(&genesis.hash());
    memory.save_speculative(&old, row_bytes(&old)).unwrap();
    let error = memory
        .admit_speculative_with_rolling_victim(
            &next,
            row_bytes(&next),
            &vec![old.hash()],
            1,
            usize::MAX,
        )
        .expect_err("protected sibling must reject at the hard cap");
    assert!(error.to_string().contains("protected speculative branches"));
    assert!(memory.get(&old.hash()).is_some());
    assert!(memory.get(&next.hash()).is_none());
    assert_eq!(memory.get_by_height(0).unwrap().hash(), genesis.hash());
    let mut ordinary = next.clone();
    ordinary.justify = None;
    assert!(memory
        .admit_speculative_with_rolling_victim(
            &ordinary,
            row_bytes(&ordinary),
            &vec![],
            1,
            usize::MAX
        )
        .is_err());
    assert!(memory.get(&old.hash()).is_some());
    assert!(memory.get(&ordinary.hash()).is_none());

    let mut journal = MemoryJournal::new();
    let state = genesis_consensus_state(context);
    journal
        .commit_block_with_commitment_and_state_root(&genesis, &state, None, None)
        .unwrap();
    journal
        .admit_speculative_with_rolling_victim(&old, row_bytes(&old), &vec![], 1, usize::MAX)
        .unwrap();
    assert!(journal
        .admit_speculative_with_rolling_victim(
            &next,
            row_bytes(&next),
            &vec![old.hash()],
            1,
            usize::MAX
        )
        .is_err());
    assert!(journal.get(&old.hash()).is_some());
    assert!(journal.get(&next.hash()).is_none());
    assert_eq!(
        journal.blocks_from_height(0).unwrap()[0].hash(),
        genesis.hash()
    );
    assert!(journal
        .admit_speculative_with_rolling_victim(
            &ordinary,
            row_bytes(&ordinary),
            &vec![],
            1,
            usize::MAX
        )
        .is_err());
    assert!(journal.get(&old.hash()).is_some());
    assert!(journal.get(&ordinary.hash()).is_none());
}

#[test]
fn rolling_admission_drops_the_unprotected_sibling() {
    let context = ConsensusContext::new(0, [7u8; 32]);
    let genesis = Block::genesis(context);
    let old = body(context, 4, 1, genesis.hash());
    let mut next = body(context, 5, 1, genesis.hash());
    next.justify = Some(certificate(context, 3, &genesis, 1));
    let mut store = MemoryBlockStore::new();
    store.save(&genesis);
    store.set_committed(&genesis.hash());
    store.save_speculative(&old, 10).unwrap();
    store
        .admit_speculative_with_rolling_victim(&next, 10, &vec![], 1, usize::MAX)
        .unwrap();
    assert!(store.get(&old.hash()).is_none());
    assert_eq!(store.get(&next.hash()).unwrap().view, 5);
    assert_eq!(store.get_committed_head().unwrap().hash(), genesis.hash());
}

#[test]
fn speculative_rows_are_bounded() {
    let context = ConsensusContext::new(0, [7u8; 32]);
    let genesis = Block::genesis(context);
    let mut store = MemoryBlockStore::new();
    store.save(&genesis);
    store.set_committed(&genesis.hash());
    let big = body(context, 1, 1, genesis.hash());
    let limit = MAX_SPECULATIVE_BLOCK_BYTES;
    assert_eq!(
        store.save_speculative(&big, limit + 1),
        Err(StoreError::RowTooLarge {
            bytes: limit + 1,
            limit
        })
    );
    assert!(store.get(&big.hash()).is_none());
    for view in 1..=MAX_SPECULATIVE_STORE_BLOCKS as u64 {
        store
            .save_speculative(&body(context, view, 1, genesis.hash()), 1)
            .unwrap();
    }
    let late = body(context, 1000, 1, genesis.hash());
    let error = store.save_speculative(&late, 1).unwrap_err();
    assert!(matches!(error, StoreError::CapacityExceeded { .. }));
    assert_eq!(
        error.to_string(),
        "speculative store capacity 64 blocks/100663296 bytes would be exceeded"
    );
    assert!(store.get(&late.hash()).is_none());
}

#[test]
fn store_error_texts() {
    assert_eq!(
        StoreError::RowTooLarge {
            bytes: 1205,
            limit: 90
        }
        .to_string(),
        "speculative block serialization 1205 bytes exceeds per-row limit 90"
    );
    assert_eq!(
        StoreError::ProtectedBranches {
            max_blocks: 0,
            max_bytes: 7
        }
        .to_string(),
        "protected speculative branches exceed 0 blocks/7 bytes"
    );
    assert_eq!(
        StoreError::NoCanonicalIndex([0xabu8; 32]).to_string(),
        format!(
            "speculative block {} exists without a canonical index",
            "ab".repeat(32)
        )
    );
}

#[test]
fn speculative_body_without_index_is_refused() {
    let context = ConsensusContext::new(0, [7u8; 32]);
    let genesis = Block::genesis(context);
    let first = body(context, 1, 1, genesis.hash());
    let other = body(context, 2, 1, genesis.hash());
    let mut store = MemoryBlockStore::new();
    store.save(&genesis);
    store.save(&first);
    store.save(&other);
    // The index of height one now names the later block.
    assert_eq!(store.get_by_height(1).unwrap().hash(), other.hash());
    assert_eq!(
        store.save_speculative(&first, 1),
        Err(StoreError::NoCanonicalIndex(first.hash()))
    );
    assert_eq!(store.save_speculative(&other, 1), Ok(()));
}

#[test]
fn pruning_drops_what_no_longer_extends_the_head() {
    let context = ConsensusContext::new(0, [7u8; 32]);
    let genesis = Block::genesis(context);
    let first = body(context, 1, 1, genesis.hash());
    let child = body(context, 2, 2, first.hash());
    let fork = body(context, 3, 1, genesis.hash());
    let kept_fork = body(context, 4, 1, genesis.hash());
    let kept_child = body(context, 5, 2, kept_fork.hash());
    let mut store = MemoryBlockStore::new();
    store.save(&genesis);
    store.save(&first);
    store.set_committed(&first.hash());
    for block in [&child, &fork, &kept_fork, &kept_child] {
        store.save_speculative(block, 10).unwrap();
    }
    let roots = vec![kept_child.hash()];
    // Protected branches, and all that extends the head, stay.
    store.prune_speculative(&roots, 64, usize::MAX).unwrap();
    assert!(store.get(&fork.hash()).is_none());
    for block in [&child, &kept_fork, &kept_child] {
        assert!(store.get(&block.hash()).is_some());
    }
    assert_eq!(
        store.prune_speculative(&roots, 2, usize::MAX),
        Err(StoreError::ProtectedBranches {
            max_blocks: 2,
            max_bytes: usize::MAX
        })
    );
    assert_eq!(
        store.prune_speculative(&roots, 3, 29),
        Err(StoreError::ProtectedBranches {
            max_blocks: 3,
            max_bytes: 29
        })
    );
    assert_eq!(store.get_committed_head().unwrap().hash(), first.hash());
}

#[test]
fn ancestor_closure_follows_parents() {
    let context = ConsensusContext::new(0, [7u8; 32]);
    let genesis = Block::genesis(context);
    let parent = body(context, 1, 1, genesis.hash());
    let child = body(context, 2, 2, parent.hash());
    let fork = body(context, 3, 1, genesis.hash());
    let mut blocks: Table<[u8; 32], Block> = Table::new();
    for block in [&parent, &child, &fork] {
        blocks.put(block.hash(), block.clone());
    }
    assert!(reaches_ancestor(&blocks, child.hash(), parent.hash()));
    assert!(reaches_ancestor(&blocks, child.hash(), child.hash()));
    assert!(!reaches_ancestor(&blocks, fork.hash(), parent.hash()));
    let mut closure = speculative_ancestor_closure(&blocks, &vec![child.hash()]);
    closure.sort();
    let mut expected = vec![child.hash(), parent.hash()];
    expected.sort();
    assert_eq!(closure, expected);
}

#[test]
fn pruning_fails_if_the_protected_rows_alone_are_over_the_bound() {
    let context = ConsensusContext::new(0, [7u8; 32]);
    let genesis = Block::genesis(context);
    let row = |view: u64, height: u64, parent: [u8; 32]| Block {
        epoch: context.epoch,
        committee_hash: context.committee_hash,
        genesis_hash: context.genesis_hash,
        view,
        height,
        parent,
        payload: vec![],
        proposer: [4u8; 32],
        commitment_root: [0u8; 32],
        app_hash: [4u8; 32],
        timestamp: view,
        justify: None,
    };
    let first = row(1, 1, genesis.hash());
    let second = row(2, 1, genesis.hash());
    let orphan = row(3, 1, [9u8; 32]);
    let child = row(4, 2, orphan.hash());
    let mut store = MemoryBlockStore::new();
    store.save(&genesis);
    store.set_committed(&genesis.hash());
    for block in [&first, &second, &orphan, &child] {
        store.save_speculative(block, row_bytes(block)).unwrap();
    }
    let roots = vec![first.hash(), second.hash()];
    let error = store
        .prune_speculative(&roots, 1, usize::MAX)
        .expect_err("two protected rows are over a bound of one");
    assert!(error.to_string().contains("protected speculative branches"));
    for block in [&first, &second, &orphan, &child] {
        assert!(store.get(&block.hash()).is_some());
    }

    // With room for the protected rows, and for one row more, as much goes as
    // it takes.
    store.prune_speculative(&roots, 3, usize::MAX).unwrap();
    assert!(store.get(&first.hash()).is_some());
    assert!(store.get(&second.hash()).is_some());
    assert!(store.get(&orphan.hash()).is_none());
    assert!(store.get(&child.hash()).is_none());
}
