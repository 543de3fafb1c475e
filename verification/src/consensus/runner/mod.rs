//! The consensus state of a networked node.
//!
//! The functions here decide what a node does with a proposal, a certificate,
//! a timeout or a view change. They hand out what is to be sent and take in
//! what was received; the connections themselves are not their concern.

pub mod asks;
pub mod chain;
pub mod commit;
pub mod proposal;
pub mod rounds;
pub mod setup;
pub mod views;

use vstd::prelude::*;

use crate::bytes::Hash32;
use crate::consensus::aggregator::{LimiterView, VoteRateLimiter};
use crate::consensus::equivocation::{DetectorView, EquivocationDetector};
use crate::consensus::hooks::AppHook;
use crate::consensus::message_handler::vote_map;
use crate::consensus::pacemaker::{Pacemaker, PacemakerView};
use crate::consensus::persistence::{no_ledger, Attempts, Ledger, PersistentStore, Records};
use crate::consensus::safety::{Safety, SafetyView};
use crate::consensus::store::{
    block_map, named_by_hash, MemoryBlockStore, StoreView, MAX_SPECULATIVE_SOFT_BLOCKS, MAX_SPECULATIVE_SOFT_BYTES,
    MAX_SPECULATIVE_STORE_BLOCKS, MAX_SPECULATIVE_STORE_BYTES,
};
use crate::consensus::timeout::{TimeoutCollector, TimeoutsView};
use crate::table::Table;
use crate::types::block::{block_hash, genesis_block, Block, BlockView};
use crate::types::context::ConsensusContext;
use crate::types::messages::{ConsensusStateView, TransitionView};
use crate::types::settings::{ConfigView, ConsensusConfig};
use crate::types::vote::{Vote, VoteView};

verus! {

/// Most pending blocks; the last one is reserved for a certified continuation.
pub const MAX_PENDING_BLOCKS: usize = MAX_SPECULATIVE_STORE_BLOCKS;

/// Most pending blocks without a certificate.
pub const MAX_PENDING_SOFT_BLOCKS: usize = MAX_SPECULATIVE_SOFT_BLOCKS;

/// Most bytes of speculative blocks.
pub const MAX_PENDING_BYTES: usize = MAX_SPECULATIVE_STORE_BYTES;

/// Most bytes of speculative blocks without a certificate.
pub const MAX_PENDING_SOFT_BYTES: usize = MAX_SPECULATIVE_SOFT_BYTES;

/// Furthest distance of a pending block from the committed head.
pub const MAX_PENDING_DEPTH: u64 = 16;

/// The consensus state of a networked node, around an application and a
/// durable store.
pub struct ConsensusRunner<A: AppHook, P: PersistentStore> {
    config: ConsensusConfig,
    context: ConsensusContext,
    safety: Safety,
    pacemaker: Pacemaker,
    app: A,
    app_attached: bool,
    store: MemoryBlockStore,
    pending: Table<Hash32, Block>,
    votes: Table<Hash32, Vec<Vote>>,
    committed_height: u64,
    committed_hash: Hash32,
    persistent_store: Option<P>,
    timeout_collector: Option<TimeoutCollector>,
    syncing: bool,
    equivocation_detector: EquivocationDetector,
    equivocation_broadcast_cursor: usize,
    vote_limiter: VoteRateLimiter,
    reconciled_after_recovery: bool,
}

/// The contents of a runner. Of the application it holds the blocks that were
/// applied to it.
pub ghost struct RunnerView {
    pub config: ConfigView,
    pub context: ConsensusContext,
    pub safety: SafetyView,
    pub pacemaker: PacemakerView,
    pub store: StoreView,
    pub pending: Map<Hash32, BlockView>,
    pub votes: Map<Hash32, Seq<VoteView>>,
    pub committed_height: u64,
    pub committed_hash: Hash32,
    pub durable: bool,
    pub rows: Map<Hash32, BlockView>,
    pub durable_state: Option<ConsensusStateView>,
    pub ledger: Ledger,
    pub attempts: Attempts,
    pub evidence: Records,
    pub staged: Option<TransitionView>,
    pub applied: Seq<BlockView>,
    pub timeouts: Option<TimeoutsView>,
    pub detector: DetectorView,
    pub limiter: LimiterView,
}

impl<A: AppHook, P: PersistentStore> ConsensusRunner<A, P> {
    /// The contents of the runner.
    pub closed spec fn state(self) -> RunnerView {
        RunnerView {
            config: self.config@,
            context: self.context,
            safety: self.safety@,
            pacemaker: self.pacemaker@,
            store: self.store.model(),
            pending: block_map(self.pending.map()),
            votes: vote_map(self.votes.map()),
            committed_height: self.committed_height,
            committed_hash: self.committed_hash,
            durable: self.persistent_store is Some,
            rows: match self.persistent_store {
                Some(p) => p.rows(),
                None => Map::empty(),
            },
            durable_state: match self.persistent_store {
                Some(p) => p.durable_state(),
                None => None,
            },
            ledger: match self.persistent_store {
                Some(p) => p.ledger(),
                None => no_ledger(),
            },
            attempts: match self.persistent_store {
                Some(p) => p.attempts(),
                None => Seq::empty(),
            },
            evidence: match self.persistent_store {
                Some(p) => p.evidence(),
                None => Map::empty(),
            },
            staged: match self.persistent_store {
                Some(p) => p.staged(),
                None => None,
            },
            applied: self.app.applied(),
            timeouts: match self.timeout_collector {
                Some(c) => Some(c@),
                None => None,
            },
            detector: self.equivocation_detector@,
            limiter: self.vote_limiter@,
        }
    }

    /// The durable store.
    pub closed spec fn durable_store(self) -> Option<P> {
        self.persistent_store
    }

    /// The attached application.
    pub closed spec fn application(self) -> A {
        self.app
    }

    /// Where the node stands in its start and its repeated broadcasts: whether
    /// an application was attached, where the next broadcast of evidence starts,
    /// whether the node asks for blocks, and whether the records of evidence
    /// were put in order.
    pub closed spec fn flags(self) -> (bool, usize, bool, bool) {
        (
            self.app_attached,
            self.equivocation_broadcast_cursor,
            self.syncing,
            self.reconciled_after_recovery,
        )
    }

    /// What is not part of the contents: the application, and where the node
    /// stands in its start and its repeated broadcasts.
    pub open spec fn rest(self) -> (A, (bool, usize, bool, bool)) {
        (self.application(), self.flags())
    }

    /// The parts are well-formed, pending blocks are listed under their own
    /// hashes, and at height zero the committed head is genesis.
    pub closed spec fn wf(self) -> bool {
        &&& self.safety.wf()
        &&& self.pacemaker.wf()
        &&& self.store.ok()
        &&& self.pending.wf()
        &&& self.votes.wf()
        &&& self.equivocation_detector.wf()
        &&& self.vote_limiter.wf()
        &&& self.persistent_store is Some ==> self.persistent_store->Some_0.wf()
        &&& self.timeout_collector is Some ==> self.timeout_collector->Some_0.wf()
        &&& self.config@.validators.len() > 0
        &&& forall|h: Hash32| #[trigger]
            self.pending.map().contains_key(h) ==> block_hash(self.pending.map()[h]@) == h
        &&& self.committed_height == 0 ==> self.committed_hash == block_hash(
            genesis_block(self.context),
        )
    }

    /// Known blocks are named by their own hashes, and at height zero the
    /// committed head is genesis.
    pub proof fn lemma_known_named(&self)
        requires
            self.wf(),
        ensures
            named_by_hash(self.state().known()),
            self.state().committed_height == 0 ==> self.state().committed_hash == block_hash(
                genesis_block(self.state().context),
            ),
    {
        self.store.lemma_named();
        if let Some(p) = self.persistent_store {
            p.lemma_rows_named();
        }
        assert forall|h: Hash32| #[trigger] self.state().known().contains_key(h) implies block_hash(
            self.state().known()[h],
        ) == h by {
            if self.state().pending.contains_key(h) {
                assert(self.pending.map().contains_key(h));
            }
        }
    }
}

} // verus!
