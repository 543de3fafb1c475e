//! Start and recovery of a networked node, and its records of evidence.

use vstd::prelude::*;

use crate::bytes::{byte_rows, bytes_eq, hash_eq, zero_hash, Hash32, NodeId};
use crate::consensus::aggregator::{
    LimiterView, VoteRateLimiter, MAX_VOTES_PER_VALIDATOR_PER_SECOND,
};
use crate::consensus::committee::{
    certificate_check, proof_check, verify_certificate, verify_equivocation_proof, VerifyError,
};
use crate::consensus::equivocation::{
    lists_proofs, offenders, proof_views, DetectorView, EquivocationDetector, EquivocationProof,
    EquivocationStats, ProofView,
};
use crate::consensus::hooks::{AppHook, NoOpApp, ValidatorSetUpdate};
use crate::consensus::message_handler::vote_map;
use crate::consensus::pacemaker::{initial_pacemaker, Pacemaker, PacemakerView};
use crate::consensus::persistence::{
    has_record, journal_keeps, lemma_record, lists_records, no_ledger, option_state, recorded,
    recovers_from, Attempts, Chain, Halt, Ledger, PersistentStore, Records, Startup,
};
use crate::consensus::recovery::{
    finalized, recovery_fault, recovery_resume_view, resume_view, validate_recovered_chain,
    RecoveryError,
};
use crate::consensus::runner::asks::{
    asks_recovery_head, asks_transition, blocks_unreadable, evidence_fails, evidence_unreadable,
    holds, offers_evidence, removal_fails, staging_fails,
};
use crate::consensus::runner::chain::{are_roots, journal_pruned, prune_stops};
use crate::consensus::runner::commit::{carried_evidence, drop_committed, drop_fails, DropFault};
use crate::consensus::runner::views::{network_fault, validate_network_config, NetworkConfigError};
use crate::consensus::runner::{ConsensusRunner, RunnerView, MAX_PENDING_BLOCKS, MAX_PENDING_BYTES};
use crate::consensus::safety::{Safety, SafetyView};
use crate::consensus::store::{
    block_map, bytes_of, empty_store, BlockStore, MemoryBlockStore, StoreError, StoreView,
    MAX_SPECULATIVE_BLOCK_BYTES, MAX_SPECULATIVE_STORE_BLOCKS, MAX_SPECULATIVE_STORE_BYTES,
};
use crate::consensus::timeout::{all_keyed, committee_keys, TimeoutCollector, TimeoutsView};
use crate::consensus::view_change::ViewChangesView;
use crate::table::Table;
use crate::types::block::{
    block_hash, block_views, genesis_block, Block, BlockView,
};
use crate::types::certificate::{copy_option_certificate, CertificateView};
use crate::types::committee::{members_hash, CommitteeConfigError};
use crate::types::context::ConsensusContext;
use crate::types::messages::{
    ConsensusState, ConsensusStateView, EpochTransitionProof, TransitionView,
};
use crate::types::settings::{config_context, ConfigView, ConsensusConfig};

verus! {

/// Most pieces of evidence that are sent again in one round.
pub const MAX_EVIDENCE_BATCH: usize = 16;

/// How far behind a peer a node asks for blocks.
pub const SYNC_GAP: u64 = 10;

/// Why a networked node does not start.
#[derive(Clone, Copy, Debug, PartialEq, Eq)]
pub enum StartError {
    /// The durable store cannot be read.
    Unreadable,
    /// The durable store cannot keep evidence.
    NoJournal,
    /// The durable store holds a staged change of the epoch.
    StagedTransition,
    /// The network runs under another identity.
    Identity,
    /// The network does not authenticate its peers.
    Unauthenticated,
    /// The views have no timeout.
    NoTimeout,
    /// The configuration cannot run a networked node.
    Config(NetworkConfigError),
    /// The configuration names no genesis.
    NoGenesis,
    /// The durable state belongs to another context.
    StateContext,
    /// The durable chain or state is not valid.
    Recovery(RecoveryError),
    /// There are durable blocks and no durable state.
    BlocksWithoutState,
    /// Genesis could not be made durable.
    GenesisNotPersisted,
    /// A block of the durable state does not fit in the cache.
    Cache,
}

/// Why a node cannot run with its network and configuration.
pub open spec fn start_fault(
    c: ConfigView,
    network_id: NodeId,
    authenticated: bool,
) -> Option<StartError> {
    if c.node_id != network_id {
        Some(StartError::Identity)
    } else if !authenticated {
        Some(StartError::Unauthenticated)
    } else if c.view_timeout_ms == 0 {
        Some(StartError::NoTimeout)
    } else if network_fault(c) is Some {
        Some(StartError::Config(network_fault(c)->Some_0))
    } else if c.genesis_hash == zero_hash() {
        Some(StartError::NoGenesis)
    } else {
        None
    }
}

/// The collector of timeouts that a configuration gives: there is one in the
/// first epoch.
pub open spec fn initial_timeouts(c: ConfigView) -> Option<TimeoutsView> {
    if c.fault() is None && all_keyed(c.members()) && c.epoch == 0 {
        Some(
            TimeoutsView {
                timeouts: Map::empty(),
                quorum: 0,
                keys: committee_keys(c.members()),
                members: Some(c.members()),
                context: Some(config_context(c)),
                metrics: None,
            },
        )
    } else {
        None
    }
}

/// A node with given voting rules, progress and blocks.
pub open spec fn started_node(
    c: ConfigView,
    safety: SafetyView,
    pacemaker: PacemakerView,
    store: StoreView,
    height: u64,
    hash: Hash32,
    durable: bool,
    rows: Map<Hash32, BlockView>,
    durable_state: Option<ConsensusStateView>,
    ledger: Ledger,
    attempts: Attempts,
    evidence: Records,
    staged: Option<TransitionView>,
) -> RunnerView {
    RunnerView {
        config: c,
        context: config_context(c),
        safety,
        pacemaker,
        store,
        pending: Map::empty(),
        votes: Map::empty(),
        committed_height: height,
        committed_hash: hash,
        durable,
        rows,
        durable_state,
        ledger,
        attempts,
        evidence,
        staged,
        applied: Seq::empty(),
        timeouts: initial_timeouts(c),
        detector: DetectorView {
            votes: Map::empty(),
            equivocations: Map::empty(),
            prune_below: 0,
            context: Some(config_context(c)),
        },
        limiter: LimiterView { windows: Map::empty(), max: MAX_VOTES_PER_VALIDATOR_PER_SECOND },
    }
}

/// The state of a node that starts for the first time.
pub open spec fn genesis_state(context: ConsensusContext) -> ConsensusStateView {
    ConsensusStateView {
        context,
        high_qc: None,
        locked_qc: None,
        voted: Set::empty(),
        current_view: 0,
        committed_height: 0,
        committed_hash: block_hash(genesis_block(context)),
        consecutive_timeouts: 0,
        vc_sent_for_view: None,
    }
}

/// The voting rules that a durable state gives.
pub open spec fn recovered_safety(s: ConsensusStateView) -> SafetyView {
    SafetyView {
        voted: s.voted,
        high_qc: s.high_qc,
        locked_qc: s.locked_qc,
        context: Some(s.context),
    }
}

/// The pacemaker that a durable state gives. The backoff is kept only if the
/// node resumes in the view that it had reached.
pub open spec fn recovered_pacemaker(
    s: ConsensusStateView,
    base_timeout_ms: u64,
    view_start: u64,
) -> PacemakerView {
    PacemakerView {
        current_view: resume_view(s),
        consecutive_timeouts: if resume_view(s) > s.current_view {
            0
        } else {
            s.consecutive_timeouts
        },
        vc_sent_for_view: if resume_view(s) > s.current_view {
            None
        } else {
            s.vc_sent_for_view
        },
        context: Some(s.context),
        ..initial_pacemaker(base_timeout_ms, view_start)
    }
}

/// A recovered node refuses to vote in every view that it had voted in.
pub proof fn lemma_recovery_never_votes_twice(
    s: ConsensusStateView,
    block: BlockView,
    app_hash: Hash32,
)
    requires
        s.voted.contains(block.view),
    ensures
        recovered_safety(s).check(block, app_hash) is Err,
{
}

/// The cache once the block of a certificate was put into it, if the block is
/// durable; none if it does not fit.
pub open spec fn cached_target(
    s: StoreView,
    rows: Map<Hash32, BlockView>,
    qc: Option<CertificateView>,
    bytes: usize,
) -> Option<StoreView> {
    match qc {
        None => Some(s),
        Some(c) => if !rows.contains_key(c.block_hash) {
            Some(s)
        } else {
            let b = rows[c.block_hash];
            if s.capacity_fault(
                block_hash(b),
                bytes,
                MAX_SPECULATIVE_STORE_BLOCKS,
                MAX_SPECULATIVE_STORE_BYTES,
            ) is Some {
                None
            } else if s.blocks.contains_key(block_hash(b)) {
                Some(s)
            } else {
                Some(s.admitted(b, bytes))
            }
        },
    }
}

/// The cache of a recovered node: the committed head and the durable blocks of
/// the two certificates; none if one of these does not fit.
pub open spec fn recovered_cache(
    head: BlockView,
    s: ConsensusStateView,
    rows: Map<Hash32, BlockView>,
    high_bytes: usize,
    locked_bytes: usize,
) -> Option<StoreView> {
    match cached_target(empty_store().saved(head), rows, s.high_qc, high_bytes) {
        None => None,
        Some(high) => match cached_target(high, rows, s.locked_qc, locked_bytes) {
            None => None,
            Some(both) => Some(both.with_committed(s.committed_hash)),
        },
    }
}

/// The block that a recovered node starts from: the last finalized one, or
/// genesis.
pub open spec fn recovered_head(startup: Startup, context: ConsensusContext) -> BlockView {
    match startup.state {
        Some(s) => finalized(startup.store@.blocks, s.committed_height).last(),
        None => genesis_block(context),
    }
}

/// The state that a recovered node starts from.
pub open spec fn recovered_state(startup: Startup, context: ConsensusContext) -> ConsensusStateView {
    match startup.state {
        Some(s) => s@,
        None => genesis_state(context),
    }
}

/// Why a node does not resume from what was found in its durable store.
pub open spec fn resume_fault(
    c: ConfigView,
    network_id: NodeId,
    authenticated: bool,
    rows: Map<Hash32, BlockView>,
    startup: Startup,
) -> Option<StartError> {
    let context = config_context(c);
    if !startup.journal_capable {
        Some(StartError::NoJournal)
    } else if startup.staged_transition {
        Some(StartError::StagedTransition)
    } else if start_fault(c, network_id, authenticated) is Some {
        start_fault(c, network_id, authenticated)
    } else {
        match startup.state {
            None => if startup.store.blocks@.len() > 0 || startup.store.committed_head is Some {
                Some(StartError::BlocksWithoutState)
            } else {
                None
            },
            Some(s) => {
                let fault = recovery_fault(startup.store@, context, c.members(), s, c.keyed());
                if s@.context != context {
                    Some(StartError::StateContext)
                } else if fault is Some {
                    Some(StartError::Recovery(fault->Some_0))
                } else if recovered_cache(
                    recovered_head(startup, context),
                    s@,
                    rows,
                    startup.high_qc_bytes,
                    startup.locked_qc_bytes,
                ) is None {
                    Some(StartError::Cache)
                } else {
                    None
                }
            },
        }
    }
}

/// The durable store fails to record genesis with the first state.
pub open spec fn genesis_fails<P: PersistentStore>(store: P, context: ConsensusContext) -> bool {
    exists|m: &mut P, b: Block, s: ConsensusState, e: String| #[trigger]
        call_ensures(
            P::commit_block_with_commitment_and_state_root,
            (m, &b, &s, None, None),
            Err(e),
        ) && *m == store && b@ == genesis_block(context) && s@ == genesis_state(context)
}

/// What comes of resuming from what was found in a durable store. Without a
/// fault a node with a durable state always resumes, and one without starts at
/// genesis unless the store does not record it.
pub open spec fn resumes<P: PersistentStore>(
    c: ConfigView,
    network_id: NodeId,
    authenticated: bool,
    p: P,
    startup: Startup,
    r: Result<ConsensusRunner<NoOpApp, P>, StartError>,
) -> bool {
    let context = config_context(c);
    let s = recovered_state(startup, context);
    let cache = recovered_cache(
        recovered_head(startup, context),
        s,
        p.rows(),
        startup.high_qc_bytes,
        startup.locked_qc_bytes,
    );
    match resume_fault(c, network_id, authenticated, p.rows(), startup) {
        Some(e) => r is Err && r->Err_0 == e,
        None => match r {
            Err(e) => e == StartError::GenesisNotPersisted && startup.state is None
                && genesis_fails(p, context),
            Ok(n) => {
                &&& n.wf()
                &&& n.flags() == (false, 0usize, false, false)
                &&& n.application().applied().len() == 0
                &&& cache is Some
                &&& n.state() == started_node(
                    c,
                    recovered_safety(s),
                    recovered_pacemaker(s, c.view_timeout_ms, n.state().pacemaker.view_start),
                    cache->Some_0,
                    s.committed_height,
                    s.committed_hash,
                    true,
                    if startup.state is Some {
                        p.rows()
                    } else {
                        p.rows().insert(s.committed_hash, genesis_block(context))
                    },
                    if startup.state is Some {
                        p.durable_state()
                    } else {
                        Some(s)
                    },
                    if startup.state is Some {
                        p.ledger()
                    } else {
                        p.ledger().with_block(genesis_block(context), None, None)
                    },
                    p.attempts(),
                    p.evidence(),
                    p.staged(),
                )
                &&& recovered_head(startup, context).height == s.committed_height
                &&& block_hash(recovered_head(startup, context)) == s.committed_hash
                &&& n.state().store.lookup(s.committed_hash) == Some(
                    recovered_head(startup, context),
                )
            },
        },
    }
}

/// Recovery of blocks that fit in a journal row never fails for want of room in
/// the cache.
pub proof fn lemma_rows_fit_cache(
    head: BlockView,
    s: ConsensusStateView,
    rows: Map<Hash32, BlockView>,
    high_bytes: usize,
    locked_bytes: usize,
)
    requires
        high_bytes <= MAX_SPECULATIVE_BLOCK_BYTES,
        locked_bytes <= MAX_SPECULATIVE_BLOCK_BYTES,
    ensures
        recovered_cache(head, s, rows, high_bytes, locked_bytes) is Some,
{
    let first = empty_store().saved(head);
    assert(first.speculative =~= Seq::empty());
    assert(first.by_height.contains_key(head.height) && first.by_height[head.height] == block_hash(head));
    assert forall|h: Hash32| first.blocks.contains_key(h) implies #[trigger] first.is_indexed(h) by {}
    assert(cached_target(first, rows, s.high_qc, high_bytes) is Some) by {
        reveal_with_fuel(bytes_of, 2);
    }
    let second = cached_target(first, rows, s.high_qc, high_bytes)->Some_0;
    assert(second.speculative.len() <= 1);
    assert(bytes_of(second.speculative) <= high_bytes) by {
        reveal_with_fuel(bytes_of, 2);
    }
    assert(second.by_height == first.by_height);
    assert forall|h: Hash32| second.blocks.contains_key(h) && !second.is_speculative(h) implies #[trigger] second.is_indexed(
        h,
    ) by {
        if second != first {
            let b = rows[s.high_qc->Some_0.block_hash];
            assert(second.speculative[0].0 == block_hash(b));
            assert(first.blocks.contains_key(h));
        }
        assert(first.is_indexed(h));
    }
}

/// A node always resumes from a valid durable state whose blocks fit in a
/// journal row: with its head, its certificates and its votes, and in the view
/// that it had reached or the one after its highest certificate.
pub proof fn lemma_valid_state_recovers<P: PersistentStore>(
    c: ConfigView,
    network_id: NodeId,
    authenticated: bool,
    p: P,
    startup: Startup,
    s: ConsensusState,
    r: Result<ConsensusRunner<NoOpApp, P>, StartError>,
)
    requires
        resumes(c, network_id, authenticated, p, startup, r),
        start_fault(c, network_id, authenticated) is None,
        startup.journal_capable,
        !startup.staged_transition,
        startup.state == Some(s),
        s@.context == config_context(c),
        recovery_fault(startup.store@, config_context(c), c.members(), s, c.keyed()) is None,
        startup.high_qc_bytes <= MAX_SPECULATIVE_BLOCK_BYTES,
        startup.locked_qc_bytes <= MAX_SPECULATIVE_BLOCK_BYTES,
    ensures
        r matches Ok(n) && {
            &&& n.state().committed_height == s.committed_height
            &&& n.state().committed_hash == s.committed_hash
            &&& n.state().safety.high_qc == s@.high_qc
            &&& n.state().safety.locked_qc == s@.locked_qc
            &&& n.state().safety.voted == s@.voted
            &&& n.state().pacemaker.current_view == resume_view(s@)
            &&& (n.state().pacemaker.consecutive_timeouts, n.state().pacemaker.vc_sent_for_view) == (
            if resume_view(s@) > s.current_view {
                (0u32, None::<u64>)
            } else {
                (s.consecutive_timeouts, s.vc_sent_for_view)
            })
            &&& forall|b: BlockView, app_hash: Hash32|
                s@.voted.contains(b.view) ==> #[trigger] n.state().safety.check(b, app_hash) is Err
        },
{
    lemma_rows_fit_cache(
        recovered_head(startup, config_context(c)),
        s@,
        p.rows(),
        startup.high_qc_bytes,
        startup.locked_qc_bytes,
    );
}

/// Checks that a node can run with its network and configuration.
fn check_start(config: &ConsensusConfig, network_id: &NodeId, authenticated: bool) -> (r: Result<
    (),
    StartError,
>)
    ensures
        match r {
            Ok(()) => start_fault(config@, *network_id, authenticated) is None,
            Err(e) => start_fault(config@, *network_id, authenticated) == Some(e),
        },
{
    if !hash_eq(&config.node_id, network_id) {
        return Err(StartError::Identity);
    }
    if !authenticated {
        return Err(StartError::Unauthenticated);
    }
    if config.view_timeout_ms == 0 {
        return Err(StartError::NoTimeout);
    }
    if let Err(e) = validate_network_config(config) {
        return Err(StartError::Config(e));
    }
    if hash_eq(&config.genesis_hash, &crate::bytes::zeros()) {
        return Err(StartError::NoGenesis);
    }
    Ok(())
}

/// The collector of timeouts that a configuration gives.
fn create_timeout_collector(config: &ConsensusConfig) -> (r: Option<TimeoutCollector>)
    ensures
        match r {
            Some(c) => c.wf() && initial_timeouts(config@) == Some(c@),
            None => initial_timeouts(config@) is None,
        },
{
    let committee = match config.committee() {
        Ok(c) => c,
        Err(_) => {
            return None;
        },
    };
    let context = match config.context() {
        Ok(c) => c,
        Err(_) => {
            return None;
        },
    };
    match TimeoutCollector::with_committee_and_context(committee, context) {
        Ok(c) => Some(c),
        Err(_) => None,
    }
}

impl<P: PersistentStore> ConsensusRunner<NoOpApp, P> {
    /// A node without durable storage, for local use. It starts at genesis.
    pub fn new(config: ConsensusConfig, network_id: NodeId, authenticated: bool) -> (r: Result<
        Self,
        StartError,
    >)
        ensures
            match r {
                Err(e) => start_fault(config@, network_id, authenticated) == Some(e),
                Ok(n) => {
                    let context = config_context(config@);
                    let genesis = genesis_block(context);
                    &&& start_fault(config@, network_id, authenticated) is None
                    &&& n.wf()
                    &&& n.flags() == (false, 0usize, false, false)
                    &&& n.state() == started_node(
                        config@,
                        SafetyView {
                            voted: Set::empty(),
                            high_qc: None,
                            locked_qc: None,
                            context: Some(context),
                        },
                        PacemakerView {
                            context: Some(context),
                            ..initial_pacemaker(
                                config@.view_timeout_ms,
                                n.state().pacemaker.view_start,
                            )
                        },
                        empty_store().saved(genesis).with_committed(block_hash(genesis)),
                        0,
                        block_hash(genesis),
                        false,
                        Map::empty(),
                        None,
                        no_ledger(),
                        Seq::empty(),
                        Map::empty(),
                        None,
                    )
                },
            },
    {
        if let Err(e) = check_start(&config, &network_id, authenticated) {
            return Err(e);
        }
        let context = match config.context() {
            Ok(c) => c,
            Err(e) => {
                return Err(StartError::Config(NetworkConfigError::Committee(e)));
            },
        };
        let mut store = MemoryBlockStore::new();
        let genesis = Block::genesis(context);
        let hash = genesis.hash();
        store.save(&genesis);
        store.set_committed(&hash);
        let timeout_collector = create_timeout_collector(&config);
        let mut pacemaker = Pacemaker::new(config.view_timeout_ms);
        let _bound = pacemaker.set_context(context);
        let n = ConsensusRunner {
            config,
            context,
            safety: Safety::new_with_context(context),
            pacemaker,
            app: NoOpApp::new(),
            app_attached: false,
            store,
            pending: Table::new(),
            votes: Table::new(),
            committed_height: 0,
            committed_hash: hash,
            persistent_store: None,
            timeout_collector,
            syncing: false,
            equivocation_detector: EquivocationDetector::new_with_context(context),
            equivocation_broadcast_cursor: 0,
            vote_limiter: VoteRateLimiter::new(MAX_VOTES_PER_VALIDATOR_PER_SECOND),
            reconciled_after_recovery: false,
        };
        proof {
            assert(block_map(n.pending.map()) =~= Map::empty());
            assert(vote_map(n.votes.map()) =~= Map::empty());
        }
        Ok(n)
    }

    /// A node with durable storage. It resumes from the durable state, or makes
    /// genesis durable and starts there.
    pub fn new_with_recovery(
        config: ConsensusConfig,
        network_id: NodeId,
        authenticated: bool,
        persistent_store: P,
    ) -> (r: Result<Self, StartError>)
        requires
            persistent_store.wf(),
        ensures
            ({
                ||| r == Err::<Self, StartError>(StartError::Unreadable) && exists|e: String| #[trigger]
                    call_ensures(P::load_startup, (&persistent_store,), Err(e))
                ||| exists|startup: Startup|
                    {
                        &&& #[trigger] call_ensures(P::load_startup, (&persistent_store,), Ok(startup))
                        &&& option_state(startup.state) == persistent_store.durable_state()
                        &&& startup.staged_transition == (persistent_store.staged() is Some)
                        &&& recovers_from(
                            startup.store,
                            persistent_store.rows(),
                            persistent_store.ledger(),
                        )
                        &&& resumes(
                            config@,
                            network_id,
                            authenticated,
                            persistent_store,
                            startup,
                            r,
                        )
                    }
            }),
            r matches Ok(n) ==> {
                let s = match persistent_store.durable_state() {
                    Some(s) => s,
                    None => genesis_state(config_context(config@)),
                };
                &&& n.wf()
                &&& n.state().safety == recovered_safety(s)
                &&& n.state().committed_height == s.committed_height
                &&& n.state().committed_hash == s.committed_hash
                &&& n.state().durable_state == Some(s)
            },
    {
        match persistent_store.load_startup() {
            Ok(startup) => ConsensusRunner::resume(
                config,
                network_id,
                authenticated,
                persistent_store,
                startup,
            ),
            Err(_e) => Err(StartError::Unreadable),
        }
    }

    /// A node that resumes from what was found in its durable store, which is
    /// validated first. Without a durable state it makes genesis durable and
    /// starts there.
    pub fn resume(
        config: ConsensusConfig,
        network_id: NodeId,
        authenticated: bool,
        persistent_store: P,
        startup: Startup,
    ) -> (r: Result<Self, StartError>)
        requires
            persistent_store.wf(),
            startup.store.archive.wf(),
        ensures
            resumes(config@, network_id, authenticated, persistent_store, startup, r),
    {
        if !startup.journal_capable {
            return Err(StartError::NoJournal);
        }
        if startup.staged_transition {
            return Err(StartError::StagedTransition);
        }
        if let Err(e) = check_start(&config, &network_id, authenticated) {
            return Err(e);
        }
        let context = match config.context() {
            Ok(c) => c,
            Err(e) => {
                return Err(StartError::Config(NetworkConfigError::Committee(e)));
            },
        };
        let committee = match config.committee() {
            Ok(c) => c,
            Err(e) => {
                return Err(StartError::Config(NetworkConfigError::Committee(e)));
            },
        };
        let mut persistent = persistent_store;
        let mut store = MemoryBlockStore::new();
        let state = match startup.state {
            Some(state) => {
                if !state.context().same_as(&context) {
                    return Err(StartError::StateContext);
                }
                let chain = match validate_recovered_chain(
                    &startup.store,
                    context,
                    &committee,
                    &state,
                    config.bls_configured(),
                ) {
                    Ok(chain) => chain,
                    Err(e) => {
                        return Err(StartError::Recovery(e));
                    },
                };
                if chain.len() > 0 {
                    store.save(&chain[chain.len() - 1]);
                }
                state
            },
            None => {
                if startup.store.blocks.len() > 0 || startup.store.committed_head.is_some() {
                    return Err(StartError::BlocksWithoutState);
                }
                let genesis = Block::genesis(context);
                let state = ConsensusState {
                    epoch: context.epoch,
                    committee_hash: context.committee_hash,
                    genesis_hash: context.genesis_hash,
                    high_qc: None,
                    locked_qc: None,
                    voted_views: Vec::new(),
                    current_view: 0,
                    committed_height: 0,
                    committed_hash: genesis.hash(),
                    consecutive_timeouts: 0,
                    vc_sent_for_view: None,
                };
                assert(state.voted_views@.to_set() =~= Set::empty());
                if let Err(_e) = persistent.commit_block_with_commitment_and_state_root(
                    &genesis,
                    &state,
                    None,
                    None,
                ) {
                    assert(genesis_fails(persistent_store, context));
                    return Err(StartError::GenesisNotPersisted);
                }
                store.save(&genesis);
                state
            },
        };
        let view: u64 = recovery_resume_view(&state);
        let high_qc = copy_option_certificate(&state.high_qc);
        let locked_qc = copy_option_certificate(&state.locked_qc);
        if let Some(qc) = &high_qc {
            if let Some(b) = persistent.get(&qc.block_hash) {
                if store.save_speculative(&b, startup.high_qc_bytes).is_err() {
                    return Err(StartError::Cache);
                }
            }
        }
        if let Some(qc) = &locked_qc {
            if let Some(b) = persistent.get(&qc.block_hash) {
                if store.save_speculative(&b, startup.locked_qc_bytes).is_err() {
                    return Err(StartError::Cache);
                }
            }
        }
        store.set_committed(&state.committed_hash);
        let safety = match Safety::with_state_for_context(
            context,
            high_qc,
            locked_qc,
            &state.voted_views,
        ) {
            Ok(s) => s,
            Err(_) => {
                return Err(StartError::Cache);
            },
        };
        let mut pacemaker = Pacemaker::new(config.view_timeout_ms);
        let _bound = pacemaker.set_context(context);
        pacemaker.set_view(view);
        if view > state.current_view {
            pacemaker.set_timeout_state(0, None);
        } else {
            pacemaker.set_timeout_state(state.consecutive_timeouts, state.vc_sent_for_view);
        }
        let timeout_collector = create_timeout_collector(&config);
        let n = ConsensusRunner {
            config,
            context,
            safety,
            pacemaker,
            app: NoOpApp::new(),
            app_attached: false,
            store,
            pending: Table::new(),
            votes: Table::new(),
            committed_height: state.committed_height,
            committed_hash: state.committed_hash,
            persistent_store: Some(persistent),
            timeout_collector,
            syncing: false,
            equivocation_detector: EquivocationDetector::new_with_context(context),
            equivocation_broadcast_cursor: 0,
            vote_limiter: VoteRateLimiter::new(MAX_VOTES_PER_VALIDATOR_PER_SECOND),
            reconciled_after_recovery: false,
        };
        proof {
            assert(block_map(n.pending.map()) =~= Map::empty());
            assert(vote_map(n.votes.map()) =~= Map::empty());
        }
        Ok(n)
    }
}

/// Why a node does not take part in consensus yet.
#[derive(Clone, Copy, Debug, PartialEq, Eq)]
pub enum LiveError {
    /// No application is attached.
    NoApplication,
    /// The committed head is not in the cache.
    HeadMissing,
    /// The cached head is not the committed one.
    HeadMismatch,
    /// The application did not recover the committed head.
    ApplicationHead,
    /// The configuration cannot run a networked node.
    Config(NetworkConfigError),
    /// View changes cannot be weighed by the committee.
    ViewChanges,
    /// Committed evidence is malformed or of another context.
    CommittedEvidence,
    /// The records of evidence cannot be read or removed.
    Journal,
    /// Recorded evidence does not verify, or the application refuses it.
    RecordedEvidence,
    /// The journals cannot be pruned.
    Prune,
}

impl RunnerView {
    /// The pacemaker of a node that takes part in consensus: view changes are
    /// weighed by the committee, and none was collected yet.
    pub open spec fn live_pacemaker(self) -> PacemakerView {
        let context = match self.pacemaker.context {
            Some(c) => c,
            None => ConsensusContext {
                epoch: 0,
                committee_hash: members_hash(self.config.members()),
                genesis_hash: zero_hash(),
            },
        };
        PacemakerView {
            context: Some(context),
            collector: Some(
                ViewChangesView {
                    view_changes: Map::empty(),
                    quorum: 0,
                    keys: committee_keys(self.config.members()),
                    members: Some(self.config.members()),
                    context: Some(context),
                },
            ),
            ..self.pacemaker
        }
    }

    /// The runner as it takes part in consensus, with some records of evidence.
    pub open spec fn live_with(self, evidence: Records) -> RunnerView {
        RunnerView { pacemaker: self.live_pacemaker(), evidence, ..self }
    }

    /// The recorded evidence that no finalized block carries.
    pub open spec fn left_evidence<A: AppHook>(self, chain: Chain) -> Records {
        if self.durable {
            self.evidence.remove_keys(
                committed_keys::<A>(chain, self.committed_height, self.context),
            )
        } else {
            self.evidence
        }
    }

    /// The cached block that stands for the committed head.
    pub open spec fn live_head(self) -> Option<BlockView> {
        match self.store.lookup(self.committed_hash) {
            Some(b) => Some(b),
            None => self.store.at_height(self.committed_height),
        }
    }
}

/// The durable store of a node cannot be read, or does not remove evidence that
/// a finalized block carries.
pub open spec fn journal_fails<A: AppHook, P: PersistentStore>(
    own: P,
    s: RunnerView,
    chain: Chain,
) -> bool {
    ||| blocks_unreadable(own)
    ||| exists|store: P|
        {
            &&& holds(store, (RunnerView { evidence: store.evidence(), ..s }))
            &&& store.evidence().submap_of(s.evidence)
            &&& #[trigger] evidence_unreadable(store)
        }
    ||| exists|i: int| 0 <= i < chain.len() && drop_fails::<A, P>(s, #[trigger] chain[i])
}

impl RunnerView {
    /// The runner with one more piece of recorded evidence.
    pub open spec fn with_record(self, p: ProofView) -> RunnerView {
        RunnerView { evidence: recorded(self.evidence, p), ..self }
    }

    /// All pieces of evidence verify.
    pub open spec fn all_verify(self, list: Seq<ProofView>) -> bool {
        forall|i: int| 0 <= i < list.len() ==> self.evidence_fault(#[trigger] list[i]) is None
    }

    /// All recorded evidence verifies.
    pub open spec fn evidence_verifies(self, records: Records) -> bool {
        forall|k: Seq<u8>| #[trigger] records.contains_key(k) ==> self.evidence_fault(records[k]) is None
    }
}

/// A piece of evidence is offered to an application: the application before,
/// whether it took the piece, and the application after.
pub ghost struct OfferCall<A> {
    pub piece: EquivocationProof,
    pub before: A,
    pub taken: bool,
    pub after: A,
}

/// The application before the piece at a position is offered to it.
pub open spec fn offer_app<A>(app: A, log: Seq<OfferCall<A>>, i: int) -> A {
    if i == 0 {
        app
    } else {
        log[i - 1].after
    }
}

/// The piece at a position of a list verifies, and is offered to the application
/// as the piece before it left it.
pub open spec fn offered_at<A: AppHook>(
    s: RunnerView,
    app: A,
    list: Seq<ProofView>,
    log: Seq<OfferCall<A>>,
    i: int,
) -> bool {
    &&& log[i].piece@ == list[i]
    &&& log[i].before == offer_app(app, log, i)
    &&& s.evidence_fault(list[i]) is None
    &&& offers_evidence(log[i].before, list[i], log[i].taken)
}

/// All pieces of a list were offered and taken.
pub open spec fn all_taken<A>(list: Seq<ProofView>, log: Seq<OfferCall<A>>) -> bool {
    log.len() == list.len() && (log.len() > 0 ==> log.last().taken)
}

/// Pieces of evidence are verified and offered to an application, one after the
/// other: until the list ends, where all were taken, or else until one does not
/// verify or is refused.
pub open spec fn offers_through<A: AppHook>(
    s: RunnerView,
    app: A,
    list: Seq<ProofView>,
    log: Seq<OfferCall<A>>,
    last: A,
) -> bool {
    let n = log.len() as int;
    &&& n <= list.len()
    &&& forall|i: int| 0 <= i < n ==> #[trigger] offered_at(s, app, list, log, i)
    &&& forall|i: int| 0 <= i < n - 1 ==> (#[trigger] log[i]).taken
    &&& last == offer_app(app, log, n)
    &&& {
        ||| all_taken(list, log)
        ||| n > 0 && !log.last().taken
        ||| n < list.len() && s.evidence_fault(list[n]) is Some
    }
}

/// One more piece is offered.
proof fn lemma_offer_push<A: AppHook>(
    s: RunnerView,
    app: A,
    list: Seq<ProofView>,
    log: Seq<OfferCall<A>>,
    c: OfferCall<A>,
)
    requires
        log.len() < list.len(),
        forall|i: int| 0 <= i < log.len() ==> #[trigger] offered_at(s, app, list, log, i),
        c.piece@ == list[log.len() as int],
        c.before == offer_app(app, log, log.len() as int),
        s.evidence_fault(c.piece@) is None,
        offers_evidence(c.before, c.piece@, c.taken),
    ensures
        forall|i: int|
            0 <= i < log.len() + 1 ==> #[trigger] offered_at(s, app, list, log.push(c), i),
        offer_app(app, log.push(c), log.len() as int + 1) == c.after,
{
    assert forall|i: int| 0 <= i < log.len() + 1 implies #[trigger] offered_at(
        s,
        app,
        list,
        log.push(c),
        i,
    ) by {
        if i < log.len() {
            assert(offered_at(s, app, list, log, i));
        }
    }
}

/// The same pieces are offered whatever else differs between two states that
/// verify evidence alike.
proof fn lemma_offers_of_another<A: AppHook>(
    s: RunnerView,
    other: RunnerView,
    app: A,
    list: Seq<ProofView>,
    log: Seq<OfferCall<A>>,
    last: A,
)
    requires
        s.config == other.config,
        s.context == other.context,
        offers_through(other, app, list, log, last),
    ensures
        offers_through(s, app, list, log, last),
{
    assert forall|i: int| 0 <= i < log.len() implies #[trigger] offered_at(s, app, list, log, i) by {
        assert(offered_at(other, app, list, log, i));
    }
}

/// The evidence of a block can be read, or the block is not finalized.
pub open spec fn evidence_ok<A: AppHook>(b: BlockView, height: u64, context: ConsensusContext) -> bool {
    b.height <= height ==> carried_evidence(A::evidence_in(b.payload), context) is Some
}

/// The evidence of all finalized blocks can be read.
pub open spec fn evidence_readable<A: AppHook>(
    chain: Seq<BlockView>,
    height: u64,
    context: ConsensusContext,
) -> bool {
    forall|i: int| 0 <= i < chain.len() ==> evidence_ok::<A>(#[trigger] chain[i], height, context)
}

/// A finalized block carries evidence with a key.
pub open spec fn carries_key<A: AppHook>(
    b: BlockView,
    height: u64,
    context: ConsensusContext,
    k: Seq<u8>,
) -> bool {
    b.height <= height && (carried_evidence(A::evidence_in(b.payload), context) matches Some(list)
        && has_record(list, k))
}

/// The keys of the evidence that finalized blocks carry.
pub open spec fn committed_keys<A: AppHook>(
    chain: Seq<BlockView>,
    height: u64,
    context: ConsensusContext,
) -> Set<Seq<u8>> {
    Set::new(
        |k: Seq<u8>|
            exists|i: int| 0 <= i < chain.len() && carries_key::<A>(#[trigger] chain[i], height, context, k),
    )
}

/// One more block adds the evidence that it carries.
proof fn lemma_committed_step<A: AppHook>(
    part: Seq<BlockView>,
    b: BlockView,
    height: u64,
    context: ConsensusContext,
)
    ensures
        forall|k: Seq<u8>| #[trigger]
            committed_keys::<A>(part.push(b), height, context).contains(k) <==> committed_keys::<A>(
                part,
                height,
                context,
            ).contains(k) || carries_key::<A>(b, height, context, k),
        evidence_readable::<A>(part.push(b), height, context) <==> evidence_readable::<A>(
            part,
            height,
            context,
        ) && evidence_ok::<A>(b, height, context),
{
    let all = part.push(b);
    assert(all[part.len() as int] == b);
    assert forall|i: int| 0 <= i < part.len() implies #[trigger] all[i] == part[i] by {}
    assert forall|k: Seq<u8>| #[trigger]
        committed_keys::<A>(all, height, context).contains(k) <==> committed_keys::<A>(
            part,
            height,
            context,
        ).contains(k) || carries_key::<A>(b, height, context, k) by {
        if committed_keys::<A>(part, height, context).contains(k) {
            let i = choose|i: int|
                0 <= i < part.len() && carries_key::<A>(#[trigger] part[i], height, context, k);
            assert(carries_key::<A>(all[i], height, context, k));
        }
        if committed_keys::<A>(all, height, context).contains(k) {
            let i = choose|i: int|
                0 <= i < all.len() && carries_key::<A>(#[trigger] all[i], height, context, k);
            if i < part.len() {
                assert(carries_key::<A>(part[i], height, context, k));
            }
        }
    }
    if evidence_readable::<A>(all, height, context) {
        assert forall|i: int| 0 <= i < part.len() implies evidence_ok::<A>(
            #[trigger] part[i],
            height,
            context,
        ) by {
            assert(evidence_ok::<A>(all[i], height, context));
        }
        assert(evidence_ok::<A>(all[part.len() as int], height, context));
    }
}

/// The batch of recorded evidence that is due: the window from where the last
/// one ended.
pub open spec fn due_batch(recorded: Seq<ProofView>, cursor: usize) -> Seq<ProofView> {
    if recorded.len() == 0 {
        Seq::empty()
    } else {
        let (start, count, _) = evidence_window(cursor, recorded.len() as usize);
        Seq::new(count as nat, |k: int| recorded[(start + k) % recorded.len() as int])
    }
}

/// Where the batch after the one that is due starts.
pub open spec fn cursor_after(recorded: Seq<ProofView>, cursor: usize) -> int {
    if recorded.len() == 0 {
        0
    } else {
        evidence_window(cursor, recorded.len() as usize).2
    }
}

/// Where the next repeated broadcast of evidence starts, how many pieces it
/// sends, and where the one after it starts.
pub open spec fn evidence_window(cursor: usize, total: usize) -> (int, int, int) {
    let start = cursor as int % total as int;
    let count = if total < MAX_EVIDENCE_BATCH {
        total as int
    } else {
        MAX_EVIDENCE_BATCH as int
    };
    (start, count, (start + count) % total as int)
}

/// The window of the next repeated broadcast of evidence.
pub fn rebroadcast_window(cursor: usize, total: usize) -> (r: (usize, usize, usize))
    requires
        total > 0,
    ensures
        (r.0 as int, r.1 as int, r.2 as int) == evidence_window(cursor, total),
        r.0 < total,
        r.1 <= total,
        r.2 < total,
{
    let start: usize = cursor % total;
    let count: usize = if total < MAX_EVIDENCE_BATCH {
        total
    } else {
        MAX_EVIDENCE_BATCH
    };
    let left: usize = total - start;
    let next: usize = if count < left {
        start + count
    } else {
        count - left
    };
    proof {
        if count < left {
            vstd::arithmetic::div_mod::lemma_small_mod((start + count) as nat, total as nat);
        } else {
            vstd::arithmetic::div_mod::lemma_mod_add_multiples_vanish(
                (start + count - total) as int,
                total as int,
            );
            vstd::arithmetic::div_mod::lemma_small_mod((start + count - total) as nat, total as nat);
        }
    }
    (start, count, next)
}

/// Whether a node repeats its broadcasts of evidence: only where messages are
/// passed on.
pub fn should_rebroadcast_equivocation_batch(gossip_enabled: bool) -> (r: bool)
    ensures
        r == gossip_enabled,
{
    gossip_enabled
}

/// Why a change of the validators is not staged.
#[derive(Clone, Copy, Debug, PartialEq, Eq)]
pub enum TransitionError {
    /// There is no durable store.
    NoStore,
    /// The change takes effect too early.
    TooEarly,
    /// The change is not for the committed head.
    HeightMismatch { transition: u64, committed: u64 },
    /// The block that the change builds on is not durable.
    UnknownBlock,
    /// The block that the change builds on is not the committed head.
    NotHead,
    /// The configuration describes no committee.
    Committee(CommitteeConfigError),
    /// The application knows of no such change.
    NoUpdate,
    /// The certificate of the committed head does not verify.
    Qc(VerifyError),
    /// The change is not the one that the application knows of.
    UpdateMismatch,
    /// The change could not be made durable.
    NotPersisted,
}

impl RunnerView {
    /// Why a change of the validators cannot build on the committed head.
    pub open spec fn transition_fault(self, effective_height: u64, qc: crate::types::certificate::CertificateView) -> Option<
        TransitionError,
    > {
        if !self.durable {
            Some(TransitionError::NoStore)
        } else if effective_height < 2 {
            Some(TransitionError::TooEarly)
        } else if effective_height - 2 != self.committed_height {
            Some(
                TransitionError::HeightMismatch {
                    transition: (effective_height - 2) as u64,
                    committed: self.committed_height,
                },
            )
        } else if !self.rows.contains_key(qc.block_hash) {
            Some(TransitionError::UnknownBlock)
        } else {
            let b = self.rows[qc.block_hash];
            if block_hash(b) != self.committed_hash || b.height != self.committed_height {
                Some(TransitionError::NotHead)
            } else if self.config.fault() is Some {
                Some(TransitionError::Committee(self.config.fault()->Some_0))
            } else {
                match certificate_check(
                    self.config.members(),
                    qc,
                    self.context,
                    b.view,
                    block_hash(b),
                    Some(b.app_hash),
                    self.config.keyed(),
                ) {
                    Ok(()) => None,
                    Err(e) => Some(TransitionError::Qc(e)),
                }
            }
        }
    }

    /// Why evidence is refused.
    pub open spec fn evidence_fault(self, p: ProofView) -> Option<VerifyError> {
        if self.config.fault() is Some {
            Some(VerifyError::CommitteeContext)
        } else {
            match proof_check(self.config.members(), p, self.context, self.config.keyed()) {
                Ok(()) => None,
                Err(e) => Some(e),
            }
        }
    }
}

impl<A: AppHook, P: PersistentStore> ConsensusRunner<A, P> {
    /// Attaches an application.
    pub fn with_app<B: AppHook>(self, app: B) -> (r: ConsensusRunner<B, P>)
        requires
            self.wf(),
        ensures
            r.wf(),
            r.state() == (RunnerView { applied: app.applied(), ..self.state() }),
            r.application() == app,
            r.flags() == (true, self.flags().1, self.flags().2, self.flags().3),
    {
        ConsensusRunner {
            config: self.config,
            context: self.context,
            safety: self.safety,
            pacemaker: self.pacemaker,
            app,
            app_attached: true,
            store: self.store,
            pending: self.pending,
            votes: self.votes,
            committed_height: self.committed_height,
            committed_hash: self.committed_hash,
            persistent_store: self.persistent_store,
            timeout_collector: self.timeout_collector,
            syncing: self.syncing,
            equivocation_detector: self.equivocation_detector,
            equivocation_broadcast_cursor: self.equivocation_broadcast_cursor,
            vote_limiter: self.vote_limiter,
            reconciled_after_recovery: self.reconciled_after_recovery,
        }
    }

    /// An application was attached.
    pub open spec fn attached(self) -> bool {
        self.flags().0
    }

    /// The records of evidence were put in order since the node was made.
    pub open spec fn reconciled(self) -> bool {
        self.flags().3
    }

    /// The durable finalized blocks.
    pub open spec fn finalized(self) -> Chain {
        self.state().ledger.finalized_from(self.state().rows, 0)
    }

    /// The height of the committed head.
    pub fn committed_height(&self) -> (r: u64)
        ensures
            r == self.state().committed_height,
    {
        self.committed_height
    }

    /// The current view.
    pub fn current_view(&self) -> (r: u64)
        ensures
            r == self.state().pacemaker.current_view,
    {
        self.pacemaker.current_view()
    }

    /// The votes cast and the retained certificates.
    pub fn safety(&self) -> (r: &Safety)
        ensures
            r@ == self.state().safety,
    {
        &self.safety
    }

    /// The hash of the committed head.
    pub fn committed_hash(&self) -> (r: Hash32)
        ensures
            r == self.state().committed_hash,
    {
        self.committed_hash
    }

    /// The number of pending blocks.
    pub fn pending_count(&self) -> (r: usize)
        requires
            self.wf(),
        ensures
            r == self.state().pending.dom().len(),
            self.state().pending.dom().finite(),
    {
        proof {
            crate::table::lemma_rows_len(self.pending.rows());
            assert(self.state().pending.dom() =~= self.pending.map().dom());
        }
        self.pending.len()
    }

    /// The cache of blocks.
    pub fn cache(&self) -> (r: &MemoryBlockStore)
        requires
            self.wf(),
        ensures
            r.ok(),
            r.model() == self.state().store,
    {
        &self.store
    }

    /// Whether a block waits for its finalization.
    pub fn has_pending(&self, block_hash: &Hash32) -> (r: bool)
        requires
            self.wf(),
        ensures
            r == self.state().pending.contains_key(*block_hash),
    {
        self.pending.contains(block_hash)
    }

    /// Offers a signed transaction to the application. One that it admits is
    /// to be relayed.
    pub fn handle_user_transaction(&mut self, envelope: Vec<u8>, timestamp: u64) -> (r: Result<
        Hash32,
        String,
    >)
        requires
            old(self).wf(),
        ensures
            final(self).wf(),
            final(self).flags() == old(self).flags(),
            final(self).state() == old(self).state(),
            exists|m: &mut A| #[trigger]
                call_ensures(A::submit_user_transaction, (m, envelope, timestamp), r) && *m == old(
                    self,
                ).application() && *final(m) == final(self).application(),
    {
        let ghost app = self.application();
        let r = self.app.submit_user_transaction(envelope, timestamp);
        let ghost after = self.application();
        assert(exists|m: &mut A| #[trigger]
            call_ensures(A::submit_user_transaction, (m, envelope, timestamp), r) && *m == app
                && *final(m) == after);
        r
    }

    /// What the detection of double votes found, for monitoring.
    pub fn equivocation_stats(&self) -> (r: EquivocationStats)
        requires
            self.wf(),
        ensures
            r.tracked_votes == self.state().detector.votes.dom().len(),
            r.detected_equivocations == self.state().detector.equivocations.dom().len(),
            r.unique_offenders == offenders(self.state().detector.equivocations).len(),
    {
        self.equivocation_detector.stats()
    }

    /// The double votes that were detected.
    pub fn get_equivocations(&self) -> (r: Vec<EquivocationProof>)
        requires
            self.wf(),
        ensures
            lists_proofs(proof_views(r@), self.state().detector.equivocations),
    {
        self.equivocation_detector.get_equivocations()
    }

    /// Whether a peer is so far ahead that the node should ask for blocks.
    pub fn detect_sync_needed(&self, peer_height: u64) -> (r: bool)
        ensures
            r == (peer_height > self.state().committed_height + SYNC_GAP),
    {
        peer_height > self.committed_height && peer_height - self.committed_height > SYNC_GAP
    }

    /// Starts to ask for blocks, unless the node already does. Returns the
    /// validator to ask: the first one that is not the node itself.
    pub fn start_sync(&mut self) -> (r: Option<NodeId>)
        requires
            old(self).wf(),
        ensures
            final(self).wf(),
            final(self).application() == old(self).application(),
            final(self).state() == old(self).state(),
            final(self).flags() == (old(self).flags().0, old(self).flags().1, true, old(self).flags().3),
            old(self).is_syncing() ==> r is None,
            !old(self).is_syncing() ==> match r {
                Some(v) => v != old(self).state().config.node_id && exists|i: int|
                    0 <= i < old(self).state().config.validators.len()
                        && v == #[trigger] old(self).state().config.validators[i] && forall|k: int|
                        0 <= k < i
                            ==> #[trigger] old(self).state().config.validators[k] == old(self).state().config.node_id,
                None => forall|i: int|
                    0 <= i < old(self).state().config.validators.len()
                        ==> #[trigger] old(self).state().config.validators[i] == old(self).state().config.node_id,
            },
    {
        if self.syncing {
            return None;
        }
        self.syncing = true;
        let mut i: usize = 0;
        while i < self.config.validators.len()
            invariant
                i <= self.config.validators.len(),
                self.wf(),
                self.state() == old(self).state(),
                self.application() == old(self).application(),
                self.flags() == (old(self).flags().0, old(self).flags().1, true, old(self).flags().3),
                !old(self).syncing,
                forall|k: int|
                    0 <= k < i ==> #[trigger] self.config@.validators[k] == self.config.node_id,
            decreases self.config.validators.len() - i,
        {
            if !hash_eq(&self.config.validators[i], &self.config.node_id) {
                assert(self.config@.validators[i as int] == self.config.validators[i as int]);
                return Some(self.config.validators[i]);
            }
            i = i + 1;
        }
        None
    }

    /// The node asks for blocks.
    pub open spec fn is_syncing(self) -> bool {
        self.flags().2
    }

    /// Ends asking for blocks once an answer came.
    pub fn handle_sync_response(&mut self)
        requires
            old(self).wf(),
        ensures
            final(self).wf(),
            final(self).application() == old(self).application(),
            final(self).state() == old(self).state(),
            final(self).flags() == (
                old(self).flags().0,
                old(self).flags().1,
                false,
                old(self).flags().3,
            ),
    {
        self.syncing = false;
    }

    /// Verifies evidence of a double vote against the committee.
    pub fn verify_evidence(&self, evidence: &EquivocationProof) -> (r: Result<(), VerifyError>)
        ensures
            match r {
                Ok(()) => self.state().evidence_fault(evidence@) is None,
                Err(e) => self.state().evidence_fault(evidence@) == Some(e),
            },
    {
        let committee = match self.config.committee() {
            Ok(c) => c,
            Err(_) => {
                return Err(VerifyError::CommitteeContext);
            },
        };
        verify_equivocation_proof(
            &committee,
            evidence,
            self.context,
            self.config.bls_configured(),
        )
    }

    /// Records a double vote that the node detected, and hands it to the
    /// application. Returns the evidence in the form in which it is sent. The
    /// node halts if any of that fails.
    pub fn handle_equivocation(&mut self, evidence: EquivocationProof) -> (r: Result<
        EquivocationProof,
        Halt,
    >)
        requires
            old(self).wf(),
        ensures
            final(self).wf(),
            final(self).flags() == old(self).flags(),
            final(self).state() == (RunnerView {
                evidence: final(self).state().evidence,
                ..old(self).state()
            }),
            ({
                let valid = evidence@.ordered().fault() is None && old(self).state().evidence_fault(
                    evidence@.ordered(),
                ) is None;
                match r {
                    Ok(p) => {
                        &&& valid
                        &&& old(self).state().durable
                        &&& p@ == evidence@.ordered()
                        &&& final(self).state() == old(self).state().with_record(p@)
                        &&& exists|m: &mut A, q: EquivocationProof| #[trigger]
                            call_ensures(A::submit_equivocation_evidence, (m, q), true) && q@ == p@
                                && *m == old(self).application() && *final(m)
                                == final(self).application()
                    },
                    Err(Halt::UnverifiedEquivocation) => !valid && final(self).state()
                        == old(self).state() && final(self).application() == old(self).application(),
                    Err(Halt::NoJournal) => valid && !old(self).state().durable
                        && final(self).state() == old(self).state() && final(self).application()
                        == old(self).application(),
                    Err(Halt::EvidenceRefused) => {
                        &&& valid
                        &&& old(self).state().durable
                        &&& final(self).state() == old(self).state().with_record(evidence@.ordered())
                        &&& exists|m: &mut A, q: EquivocationProof| #[trigger]
                            call_ensures(A::submit_equivocation_evidence, (m, q), false) && q@
                                == evidence@.ordered() && *m == old(self).application() && *final(m)
                                == final(self).application()
                    },
                    Err(e) => {
                        &&& valid
                        &&& old(self).state().durable
                        &&& e == Halt::EvidenceNotPersisted
                        &&& evidence_fails(
                            old(self).durable_store()->Some_0,
                            evidence@.ordered(),
                        )
                        &&& final(self).state() == old(self).state() || final(self).state()
                            == old(self).state().with_record(evidence@.ordered())
                        &&& final(self).application() == old(self).application()
                    },
                }
            }),
    {
        let canonical = match evidence.canonicalized() {
            Ok(p) => p,
            Err(_) => {
                return Err(Halt::UnverifiedEquivocation);
            },
        };
        if self.verify_evidence(&canonical).is_err() {
            return Err(Halt::UnverifiedEquivocation);
        }
        match self.persistent_store.take() {
            None => {
                return Err(Halt::NoJournal);
            },
            Some(mut p) => {
                let ghost own = p;
                let saved = p.save_equivocation_proof(&canonical);
                self.persistent_store = Some(p);
                if let Err(_e) = saved {
                    assert(evidence_fails(own, canonical@));
                    return Err(Halt::EvidenceNotPersisted);
                }
            },
        }
        let ghost app = self.application();
        assert(app == old(self).application());
        let taken = self.app.submit_equivocation_evidence(canonical.clone());
        let ghost after = self.application();
        assert(exists|m: &mut A, q: EquivocationProof| #[trigger]
            call_ensures(A::submit_equivocation_evidence, (m, q), taken) && q@ == canonical@ && *m
                == app && *final(m) == after);
        if !taken {
            return Err(Halt::EvidenceRefused);
        }
        Ok(canonical)
    }

    /// Takes a peer's report of a double vote. Evidence that verifies is
    /// recorded before it is handed to the application and passed on; other
    /// reports are ignored.
    pub fn handle_inbound_equivocation(&mut self, evidence: EquivocationProof) -> (r: Result<
        Option<EquivocationProof>,
        Halt,
    >)
        requires
            old(self).wf(),
        ensures
            final(self).wf(),
            final(self).flags() == old(self).flags(),
            final(self).state() == (RunnerView {
                evidence: final(self).state().evidence,
                ..old(self).state()
            }),
            ({
                let valid = evidence@.ordered().fault() is None && old(self).state().evidence_fault(
                    evidence@.ordered(),
                ) is None && old(self).state().durable;
                match r {
                    Ok(Some(p)) => {
                        &&& valid
                        &&& p@ == evidence@.ordered()
                        &&& final(self).state() == old(self).state().with_record(p@)
                        &&& exists|m: &mut A, q: EquivocationProof, taken: bool| #[trigger]
                            call_ensures(A::submit_equivocation_evidence, (m, q), taken) && q@ == p@
                                && *m == old(self).application() && *final(m)
                                == final(self).application()
                    },
                    Ok(None) => !valid && final(self).state() == old(self).state()
                        && final(self).application() == old(self).application(),
                    Err(e) => {
                        &&& valid
                        &&& e == Halt::EvidenceNotPersisted
                        &&& evidence_fails(
                            old(self).durable_store()->Some_0,
                            evidence@.ordered(),
                        )
                        &&& final(self).state() == old(self).state() || final(self).state()
                            == old(self).state().with_record(evidence@.ordered())
                        &&& final(self).application() == old(self).application()
                    },
                }
            }),
    {
        let canonical = match evidence.canonicalized() {
            Ok(p) => p,
            Err(_) => {
                return Ok(None);
            },
        };
        if self.verify_evidence(&canonical).is_err() {
            return Ok(None);
        }
        match self.persistent_store.take() {
            None => {
                return Ok(None);
            },
            Some(mut p) => {
                let ghost own = p;
                let saved = p.save_equivocation_proof(&canonical);
                self.persistent_store = Some(p);
                if let Err(_e) = saved {
                    assert(evidence_fails(own, canonical@));
                    return Err(Halt::EvidenceNotPersisted);
                }
            },
        }
        let ghost app = self.application();
        assert(app == old(self).application());
        let taken = self.app.submit_equivocation_evidence(canonical.clone());
        let ghost after = self.application();
        assert(exists|m: &mut A, q: EquivocationProof| #[trigger]
            call_ensures(A::submit_equivocation_evidence, (m, q), taken) && q@ == canonical@ && *m
                == app && *final(m) == after);
        Ok(Some(canonical))
    }

    /// Chooses the recorded evidence that is sent again in a round: a bounded
    /// window that moves on with each round. Evidence that does not verify or
    /// that the application refuses is an error.
    pub fn rebroadcast_equivocation_batch(&mut self) -> (r: Result<
        Vec<EquivocationProof>,
        LiveError,
    >)
        requires
            old(self).wf(),
        ensures
            final(self).wf(),
            final(self).state() == old(self).state(),
            final(self).flags() == (
                old(self).flags().0,
                final(self).broadcast_cursor(),
                old(self).flags().2,
                old(self).flags().3,
            ),
            match r {
                Ok(batch) => !old(self).state().durable ==> batch@.len() == 0
                    && final(self).broadcast_cursor() == old(self).broadcast_cursor()
                    && final(self).application() == old(self).application(),
                Err(LiveError::Journal) => old(self).state().durable && evidence_unreadable(
                    old(self).durable_store()->Some_0,
                ) && final(self).broadcast_cursor() == old(self).broadcast_cursor()
                    && final(self).application() == old(self).application(),
                Err(e) => e == LiveError::RecordedEvidence && old(self).state().durable,
            },
            old(self).state().durable && !(r matches Err(LiveError::Journal)) ==> exists|
                recorded: Seq<ProofView>,
                log: Seq<OfferCall<A>>,
            |
                {
                    let s = old(self).state();
                    let due = due_batch(recorded, old(self).broadcast_cursor());
                    &&& lists_records(recorded, s.evidence)
                    &&& #[trigger] offers_through(
                        old(self).state(),
                        old(self).application(),
                        due_batch(recorded, old(self).broadcast_cursor()),
                        log,
                        final(self).application(),
                    )
                    &&& all_taken(due, log) == (r is Ok)
                    &&& match r {
                        Ok(batch) => proof_views(batch@) == due && s.all_verify(due)
                            && final(self).broadcast_cursor() == cursor_after(
                            recorded,
                            old(self).broadcast_cursor(),
                        ),
                        Err(_) => final(self).broadcast_cursor() == old(self).broadcast_cursor(),
                    }
                    &&& forall|i: int|
                        0 <= i < log.len() ==> {
                            let c = #[trigger] log[i];
                            &&& c.taken ==> exists|m: &mut A| #[trigger]
                                call_ensures(A::submit_equivocation_evidence, (m, c.piece), true) && *m
                                    == c.before && *final(m) == c.after
                            &&& !c.taken ==> exists|m: &mut A| #[trigger]
                                call_ensures(A::submit_equivocation_evidence, (m, c.piece), false) && *m
                                    == c.before && *final(m) == c.after
                        }
                },
    {
        let recorded = match &self.persistent_store {
            Some(p) => p.load_equivocation_proofs(),
            None => {
                return Ok(Vec::new());
            },
        };
        match recorded {
            Ok(list) => {
                assert(lists_records(proof_views(list@), self.state().evidence));
                let ghost views = proof_views(list@);
                let batch = self.evidence_batch(&list);
                assert(lists_records(views, old(self).state().evidence));
                batch
            },
            Err(_e) => {
                assert(evidence_unreadable(self.durable_store()->Some_0));
                Err(LiveError::Journal)
            },
        }
    }

    /// The next batch of recorded evidence to send again, after it was
    /// verified and offered to the application.
    #[verifier::spinoff_prover]
    pub fn evidence_batch(&mut self, recorded: &Vec<EquivocationProof>) -> (r: Result<
        Vec<EquivocationProof>,
        LiveError,
    >)
        requires
            old(self).wf(),
        ensures
            final(self).wf(),
            final(self).state() == old(self).state(),
            final(self).flags() == (
                old(self).flags().0,
                final(self).broadcast_cursor(),
                old(self).flags().2,
                old(self).flags().3,
            ),
            ({
                let s = old(self).state();
                let due = due_batch(proof_views(recorded@), old(self).broadcast_cursor());
                match r {
                    Ok(batch) => proof_views(batch@) == due && s.all_verify(due)
                        && final(self).broadcast_cursor() == cursor_after(
                        proof_views(recorded@),
                        old(self).broadcast_cursor(),
                    ),
                    Err(e) => e == LiveError::RecordedEvidence && final(self).broadcast_cursor()
                        == old(self).broadcast_cursor(),
                }
            }),
            exists|log: Seq<OfferCall<A>>|
                {
                    &&& #[trigger] offers_through(
                        old(self).state(),
                        old(self).application(),
                        due_batch(proof_views(recorded@), old(self).broadcast_cursor()),
                        log,
                        final(self).application(),
                    )
                    &&& all_taken(
                        due_batch(proof_views(recorded@), old(self).broadcast_cursor()),
                        log,
                    ) == (r is Ok)
                    &&& forall|i: int|
                        0 <= i < log.len() ==> {
                            let c = #[trigger] log[i];
                            &&& c.taken ==> exists|m: &mut A| #[trigger]
                                call_ensures(A::submit_equivocation_evidence, (m, c.piece), true) && *m
                                    == c.before && *final(m) == c.after
                            &&& !c.taken ==> exists|m: &mut A| #[trigger]
                                call_ensures(A::submit_equivocation_evidence, (m, c.piece), false) && *m
                                    == c.before && *final(m) == c.after
                        }
                },
    {
        let ghost s = self.state();
        let ghost first = self.application();
        let ghost due = due_batch(proof_views(recorded@), self.broadcast_cursor());
        let ghost mut log: Seq<OfferCall<A>> = Seq::empty();
        let mut batch: Vec<EquivocationProof> = Vec::new();
        let total: usize = recorded.len();
        if total == 0 {
            self.equivocation_broadcast_cursor = 0;
            proof {
                assert(proof_views(batch@) =~= due);
                assert(self.application() == first);
                assert(offers_through(s, first, due, log, first));
            }
            return Ok(batch);
        }
        let (start, count, next) = rebroadcast_window(self.equivocation_broadcast_cursor, total);
        let mut k: usize = 0;
        proof {
            assert forall|j: int| 0 <= j < count implies #[trigger] due[j] == recorded@[(start + j)
                % total as int]@ by {
                assert(0 <= (start + j) % (total as int) && (start + j) % (total as int) < total);
            }
        }
        while k < count
            invariant
                k <= count,
                count <= total,
                start < total,
                total == recorded@.len(),
                total > 0,
                self.wf(),
                self.state() == old(self).state(),
                self.flags() == old(self).flags(),
                s == old(self).state(),
                first == old(self).application(),
                due == due_batch(proof_views(recorded@), old(self).broadcast_cursor()),
                due.len() == count,
                forall|j: int|
                    0 <= j < count ==> #[trigger] due[j] == recorded@[(start + j) % total as int]@,
                log.len() == k,
                self.application() == offer_app(first, log, k as int),
                forall|j: int| 0 <= j < k ==> #[trigger] offered_at(s, first, due, log, j),
                forall|j: int| 0 <= j < k ==> (#[trigger] log[j]).taken,
                forall|i: int|
                    0 <= i < log.len() ==> {
                        let c = #[trigger] log[i];
                        &&& c.taken ==> exists|m: &mut A| #[trigger]
                            call_ensures(A::submit_equivocation_evidence, (m, c.piece), true) && *m
                                == c.before && *final(m) == c.after
                        &&& !c.taken ==> exists|m: &mut A| #[trigger]
                            call_ensures(A::submit_equivocation_evidence, (m, c.piece), false) && *m
                                == c.before && *final(m) == c.after
                    },
                batch@.len() == k,
                forall|j: int|
                    0 <= j < k ==> (#[trigger] batch@[j])@ == recorded@[(start + j) % total as int]@
                        && old(self).state().evidence_fault(batch@[j]@) is None,
            decreases count - k,
        {
            let left: usize = total - start;
            let at: usize = if k < left {
                start + k
            } else {
                k - left
            };
            proof {
                if k < left {
                    vstd::arithmetic::div_mod::lemma_small_mod((start + k) as nat, total as nat);
                } else {
                    vstd::arithmetic::div_mod::lemma_mod_add_multiples_vanish(
                        (start + k - total) as int,
                        total as int,
                    );
                    vstd::arithmetic::div_mod::lemma_small_mod(
                        (start + k - total) as nat,
                        total as nat,
                    );
                }
                assert(at == (start + k) % total as int);
            }
            let p = recorded[at].clone();
            assert(p@ == recorded@[at as int]@);
            assert(due[k as int] == p@);
            if self.verify_evidence(&p).is_err() {
                assert(offers_through(s, first, due, log, self.application()));
                return Err(LiveError::RecordedEvidence);
            }
            let ghost app = self.application();
            let offer = p.clone();
            let ghost piece = offer;
            let taken = self.app.submit_equivocation_evidence(offer);
            let ghost after = self.application();
            let ghost c = OfferCall { piece, before: app, taken, after };
            assert(exists|m: &mut A| #[trigger]
                call_ensures(A::submit_equivocation_evidence, (m, piece), taken) && *m == app
                    && *final(m) == after);
            assert(taken ==> exists|m: &mut A| #[trigger]
                call_ensures(A::submit_equivocation_evidence, (m, piece), true) && *m == app
                    && *final(m) == after);
            assert(!taken ==> exists|m: &mut A| #[trigger]
                call_ensures(A::submit_equivocation_evidence, (m, piece), false) && *m == app
                    && *final(m) == after);
            proof {
                assert(offers_evidence(app, p@, taken));
                lemma_offer_push(s, first, due, log, c);
                let before = log;
                log = log.push(c);
                assert forall|i: int| 0 <= i < log.len() implies {
                    let c = #[trigger] log[i];
                    &&& c.taken ==> exists|m: &mut A| #[trigger]
                        call_ensures(A::submit_equivocation_evidence, (m, c.piece), true) && *m
                            == c.before && *final(m) == c.after
                    &&& !c.taken ==> exists|m: &mut A| #[trigger]
                        call_ensures(A::submit_equivocation_evidence, (m, c.piece), false) && *m
                            == c.before && *final(m) == c.after
                } by {
                    if i < before.len() {
                        assert(log[i] == before[i]);
                    } else {
                        assert(log[i] == c);
                        assert(c.piece == piece && c.before == app && c.after == after);
                    }
                }
            }
            if !taken {
                assert(offers_through(s, first, due, log, self.application()));
                return Err(LiveError::RecordedEvidence);
            }
            batch.push(p);
            k = k + 1;
        }
        self.equivocation_broadcast_cursor = next;
        proof {
            assert forall|j: int| 0 <= j < count implies #[trigger] due[j] == proof_views(batch@)[j]
                && s.evidence_fault(due[j]) is None by {
                assert(batch@[j]@ == recorded@[(start + j) % total as int]@);
            }
            assert(proof_views(batch@) =~= due);
            assert(offers_through(s, first, due, log, self.application()));
        }
        Ok(batch)
    }

    /// Where the next repeated broadcast of evidence starts.
    pub open spec fn broadcast_cursor(self) -> usize {
        self.flags().1
    }

    /// Removes the records of evidence that finalized blocks carry, and hands
    /// the rest to the application.
    #[verifier::spinoff_prover]
    fn reconcile_equivocation_journal(&mut self) -> (r: Result<(), LiveError>)
        requires
            old(self).wf(),
        ensures
            final(self).wf(),
            final(self).flags() == old(self).flags(),
            final(self).state() == (RunnerView {
                evidence: final(self).state().evidence,
                ..old(self).state()
            }),
            final(self).state().evidence.submap_of(old(self).state().evidence),
            !old(self).state().durable ==> r is Ok,
            match r {
                Ok(()) => old(self).state().durable ==> {
                    &&& evidence_readable::<A>(
                        old(self).finalized(),
                        old(self).state().committed_height,
                        old(self).state().context,
                    )
                    &&& final(self).state().evidence == old(self).state().evidence.remove_keys(
                        committed_keys::<A>(
                            old(self).finalized(),
                            old(self).state().committed_height,
                            old(self).state().context,
                        ),
                    )
                    &&& old(self).state().evidence_verifies(final(self).state().evidence)
                },
                Err(LiveError::CommittedEvidence) => old(self).state().durable
                    && !evidence_readable::<A>(
                    old(self).finalized(),
                    old(self).state().committed_height,
                    old(self).state().context,
                ),
                Err(LiveError::Journal) => journal_fails::<A, P>(
                    old(self).durable_store()->Some_0,
                    old(self).state(),
                    old(self).finalized(),
                ),
                Err(LiveError::RecordedEvidence) => old(self).state().durable
                    && final(self).state().evidence == old(self).state().evidence.remove_keys(
                    committed_keys::<A>(
                        old(self).finalized(),
                        old(self).state().committed_height,
                        old(self).state().context,
                    ),
                ),
                Err(_) => false,
            },
            if old(self).state().durable && (r is Ok || r == Err::<(), LiveError>(
                LiveError::RecordedEvidence,
            )) {
                exists|list: Seq<ProofView>, log: Seq<OfferCall<A>>|
                    {
                        &&& lists_records(list, final(self).state().evidence)
                        &&& #[trigger] offers_through(
                            old(self).state(),
                            old(self).application(),
                            list,
                            log,
                            final(self).application(),
                        )
                        &&& all_taken(list, log) == (r is Ok)
                        &&& forall|i: int|
                            0 <= i < log.len() ==> {
                                let c = #[trigger] log[i];
                                &&& c.taken ==> exists|m: &mut A| #[trigger]
                                    call_ensures(A::submit_equivocation_evidence, (m, c.piece), true) && *m
                                        == c.before && *final(m) == c.after
                                &&& !c.taken ==> exists|m: &mut A| #[trigger]
                                    call_ensures(A::submit_equivocation_evidence, (m, c.piece), false) && *m
                                        == c.before && *final(m) == c.after
                            }
                    }
            } else {
                final(self).application() == old(self).application()
            },
    {
        let ghost s = self.state();
        let ghost first = self.application();
        let ghost height = s.committed_height;
        let ghost context = s.context;
        let ghost chain = self.finalized();
        let mut p = match self.persistent_store.take() {
            Some(p) => p,
            None => {
                return Ok(());
            },
        };
        let ghost own = p;
        let committed = match p.blocks_from_height(0) {
            Ok(list) => list,
            Err(_e) => {
                assert(blocks_unreadable(own));
                self.persistent_store = Some(p);
                return Err(LiveError::Journal);
            },
        };
        let ghost before = p.evidence();
        let ghost rows = p.rows();
        let ghost durable = p.durable_state();
        let ghost staged = p.staged();
        let ghost ledger = p.ledger();
        let ghost failed = p.attempts();
        let mut fault: Option<LiveError> = None;
        let mut i: usize = 0;
        proof {
            assert(chain == block_views(committed@));
            assert(before =~= before.remove_keys(
                committed_keys::<A>(chain.take(0), height, context),
            ));
        }
        while i < committed.len() && fault.is_none()
            invariant
                i <= committed.len(),
                chain == block_views(committed@),
                height == self.committed_height,
                context == self.context,
                s.durable,
                rows == s.rows,
                durable == s.durable_state,
                staged == s.staged,
                ledger == s.ledger,
                failed == s.attempts,
                before == s.evidence,
                p.wf(),
                p.rows() == rows,
                p.durable_state() == durable,
                p.staged() == staged,
                p.ledger() == ledger,
                p.attempts() == failed,
                p.evidence().submap_of(before),
                match fault {
                    None => p.evidence() == before.remove_keys(
                        committed_keys::<A>(chain.take(i as int), height, context),
                    ) && evidence_readable::<A>(chain.take(i as int), height, context),
                    Some(LiveError::CommittedEvidence) => !evidence_readable::<A>(
                        chain,
                        height,
                        context,
                    ),
                    Some(e) => e == LiveError::Journal && journal_fails::<A, P>(own, s, chain),
                },
            decreases committed.len() - i,
        {
            let ghost mid = p.evidence();
            let ghost part = chain.take(i as int);
            let ghost next = chain.take(i + 1);
            proof {
                assert(chain[i as int] == committed@[i as int]@);
                assert(next =~= part.push(chain[i as int]));
                lemma_committed_step::<A>(part, chain[i as int], height, context);
            }
            if committed[i].height <= self.committed_height {
                let dropped = drop_committed(&self.app, &mut p, &committed[i].payload, self.context);
                proof {
                    assert(p.evidence().submap_of(mid));
                    assert(p.evidence().submap_of(before)) by {
                        assert forall|k: Seq<u8>| #[trigger] p.evidence().dom().contains(k) implies before.dom().contains(
                            k,
                        ) && p.evidence()[k] == before[k] by {
                            assert(mid.dom().contains(k));
                        }
                    }
                }
                match dropped {
                    Ok(()) => {
                        proof {
                            assert(p.evidence() =~= before.remove_keys(
                                committed_keys::<A>(next, height, context),
                            ));
                        }
                    },
                    Err(DropFault::Evidence) => {
                        proof {
                            assert(!evidence_ok::<A>(chain[i as int], height, context));
                        }
                        fault = Some(LiveError::CommittedEvidence);
                    },
                    Err(DropFault::Store) => {
                        proof {
                            let list = A::evidence_in(chain[i as int].payload)->Some_0->Ok_0;
                            let store = choose|store: P|
                                {
                                    &&& store.wf()
                                    &&& store.rows() == rows
                                    &&& store.durable_state() == durable
                                    &&& store.staged() == staged
                                    &&& store.ledger() == ledger
                                    &&& store.attempts() == failed
                                    &&& store.evidence().submap_of(mid)
                                    &&& #[trigger] removal_fails(store, list)
                                };
                            assert(store.evidence().submap_of(before)) by {
                                assert forall|k: Seq<u8>| #[trigger]
                                    store.evidence().dom().contains(k) implies before.dom().contains(
                                    k,
                                ) && store.evidence()[k] == before[k] by {
                                    assert(mid.dom().contains(k));
                                }
                            }
                            assert(holds(store, (RunnerView { evidence: store.evidence(), ..s })));
                            assert(drop_fails::<A, P>(s, chain[i as int]));
                        }
                        fault = Some(LiveError::Journal);
                    },
                }
            } else {
                assert(p.evidence() =~= before.remove_keys(
                    committed_keys::<A>(next, height, context),
                ));
            }
            i = i + 1;
        }
        let recorded = p.load_equivocation_proofs();
        let ghost left = p.evidence();
        self.persistent_store = Some(p);
        if let Some(e) = fault {
            return Err(e);
        }
        assert(chain.take(i as int) =~= chain);
        let list = match recorded {
            Ok(list) => list,
            Err(_e) => {
                proof {
                    let store = self.durable_store()->Some_0;
                    assert(holds(store, (RunnerView { evidence: store.evidence(), ..s })));
                    assert(evidence_unreadable(store));
                }
                return Err(LiveError::Journal);
            },
        };
        let ghost views = proof_views(list@);
        let ghost mut log: Seq<OfferCall<A>> = Seq::empty();
        let mut n: usize = 0;
        assert(self.application() == first);
        while n < list.len()
            invariant
                n <= list.len(),
                first == old(self).application(),
                log.len() == n,
                self.application() == offer_app(first, log, n as int),
                forall|j: int| 0 <= j < n ==> #[trigger] offered_at(s, first, views, log, j),
                forall|j: int| 0 <= j < n ==> (#[trigger] log[j]).taken,
                forall|i: int|
                    0 <= i < log.len() ==> {
                        let c = #[trigger] log[i];
                        &&& c.taken ==> exists|m: &mut A| #[trigger]
                            call_ensures(A::submit_equivocation_evidence, (m, c.piece), true) && *m
                                == c.before && *final(m) == c.after
                        &&& !c.taken ==> exists|m: &mut A| #[trigger]
                            call_ensures(A::submit_equivocation_evidence, (m, c.piece), false) && *m
                                == c.before && *final(m) == c.after
                    },
                views == proof_views(list@),
                lists_records(views, left),
                self.flags() == old(self).flags(),
                self.wf(),
                s == old(self).state(),
                s.durable,
                left == s.evidence.remove_keys(committed_keys::<A>(chain, height, context)),
                chain == old(self).finalized(),
                height == s.committed_height,
                context == s.context,
                left.submap_of(s.evidence),
                self.state() == (RunnerView { evidence: left, ..s }),
                forall|k: int|
                    0 <= k < n ==> s.evidence_fault(#[trigger] views[k]) is None,
            decreases list.len() - n,
        {
            proof {
                assert(views[n as int] == list@[n as int]@);
                lemma_record(views, n as int);
                assert(left.contains_key(views[n as int].key_bytes()));
            }
            if self.verify_evidence(&list[n]).is_err() {
                assert(offers_through(s, first, views, log, self.application()));
                return Err(LiveError::RecordedEvidence);
            }
            let ghost app = self.application();
            let offer = list[n].clone();
            let ghost piece = offer;
            let taken = self.app.submit_equivocation_evidence(offer);
            let ghost after = self.application();
            let ghost c = OfferCall { piece, before: app, taken, after };
            assert(exists|m: &mut A| #[trigger]
                call_ensures(A::submit_equivocation_evidence, (m, piece), taken) && *m == app
                    && *final(m) == after);
            assert(taken ==> exists|m: &mut A| #[trigger]
                call_ensures(A::submit_equivocation_evidence, (m, piece), true) && *m == app
                    && *final(m) == after);
            assert(!taken ==> exists|m: &mut A| #[trigger]
                call_ensures(A::submit_equivocation_evidence, (m, piece), false) && *m == app
                    && *final(m) == after);
            proof {
                assert(offers_evidence(app, views[n as int], taken));
                lemma_offer_push(s, first, views, log, c);
                let before = log;
                log = log.push(c);
                assert forall|i: int| 0 <= i < log.len() implies {
                    let c = #[trigger] log[i];
                    &&& c.taken ==> exists|m: &mut A| #[trigger]
                        call_ensures(A::submit_equivocation_evidence, (m, c.piece), true) && *m
                            == c.before && *final(m) == c.after
                    &&& !c.taken ==> exists|m: &mut A| #[trigger]
                        call_ensures(A::submit_equivocation_evidence, (m, c.piece), false) && *m
                            == c.before && *final(m) == c.after
                } by {
                    if i < before.len() {
                        assert(log[i] == before[i]);
                    } else {
                        assert(log[i] == c);
                        assert(c.piece == piece && c.before == app && c.after == after);
                    }
                }
            }
            if !taken {
                assert(offers_through(s, first, views, log, self.application()));
                return Err(LiveError::RecordedEvidence);
            }
            n = n + 1;
        }
        proof {
            assert(offers_through(s, first, views, log, self.application()));
            assert forall|k: Seq<u8>| #[trigger] left.contains_key(k) implies s.evidence_fault(left[k]) is None by {
                assert(has_record(views, k));
                let j = choose|j: int| 0 <= j < views.len() && (#[trigger] views[j]).key_bytes() == k;
                lemma_record(views, j);
            }
        }
        Ok(())
    }

    /// Prepares a node to take part in consensus: the attached application
    /// has recovered the committed head, view changes are weighed by the
    /// committee, and the records of evidence are in order.
    pub fn initialize_live(&mut self) -> (r: Result<(), LiveError>)
        requires
            old(self).wf(),
        ensures
            final(self).wf(),
            final(self).flags() == (
                old(self).flags().0,
                old(self).flags().1,
                old(self).flags().2,
                r is Ok || old(self).flags().3,
            ),
            final(self).state().safety == old(self).state().safety,
            final(self).state().committed_height == old(self).state().committed_height,
            final(self).state().committed_hash == old(self).state().committed_hash,
            ({
                let s = old(self).state();
                let anchored = s.live_head() is Some && s.live_head()->Some_0.height
                    == s.committed_height && block_hash(s.live_head()->Some_0) == s.committed_hash;
                match r {
                    Ok(()) => {
                        &&& old(self).attached()
                        &&& anchored
                        &&& exists|head: Block| #[trigger]
                            asks_recovery_head(old(self).application(), head, true) && Some(head@)
                                == s.live_head()
                        &&& network_fault(s.config) is None
                        &&& final(self).state() == (RunnerView {
                            pacemaker: s.live_pacemaker(),
                            evidence: final(self).state().evidence,
                            store: final(self).state().store,
                            rows: final(self).state().rows,
                            ..s
                        })
                        &&& old(self).reconciled() ==> final(self).state() == (RunnerView {
                            pacemaker: s.live_pacemaker(),
                            ..s
                        })
                        &&& !old(self).reconciled() ==> {
                            &&& final(self).state().evidence == s.left_evidence::<A>(
                                old(self).finalized(),
                            )
                            &&& s.durable ==> s.evidence_verifies(final(self).state().evidence)
                            &&& exists|roots: Seq<Hash32>, order: Seq<Hash32>|
                                #![trigger s.store.is_pruning_order(roots, order)]
                                {
                                    &&& s.store.is_pruning_order(roots, order)
                                    &&& s.store.pruned(
                                        roots,
                                        order,
                                        MAX_PENDING_BLOCKS,
                                        MAX_PENDING_BYTES,
                                    ) == Ok::<StoreView, StoreError>(final(self).state().store)
                                    &&& journal_keeps(s.rows, final(self).state().rows, roots)
                                    &&& journal_pruned::<P>(
                                        s.live_with(final(self).state().evidence),
                                        roots,
                                        MAX_PENDING_BLOCKS,
                                        MAX_PENDING_BYTES,
                                    )
                                    &&& are_roots(s, None, roots)
                                }
                        }
                    },
                    Err(LiveError::NoApplication) => !old(self).attached() && final(self).state() == s,
                    Err(LiveError::HeadMissing) => old(self).attached() && s.live_head() is None
                        && final(self).state() == s,
                    Err(LiveError::HeadMismatch) => old(self).attached() && s.live_head() is Some
                        && !anchored && final(self).state() == s,
                    Err(LiveError::ApplicationHead) => old(self).attached() && anchored
                        && final(self).state() == s && exists|head: Block| #[trigger]
                        asks_recovery_head(old(self).application(), head, false) && Some(head@)
                            == s.live_head(),
                    Err(LiveError::Config(e)) => old(self).attached() && anchored && network_fault(
                        s.config,
                    ) == Some(e) && final(self).state() == s,
                    Err(e) => {
                        &&& old(self).attached()
                        &&& anchored
                        &&& network_fault(s.config) is None
                        &&& e is ViewChanges || !old(self).reconciled()
                        &&& match e {
                            LiveError::ViewChanges => {
                                &&& !all_keyed(s.config.members()) || (s.pacemaker.context matches Some(
                                    c,
                                ) && c.committee_hash != members_hash(s.config.members()))
                                &&& final(self).state() == (RunnerView {
                                    pacemaker: PacemakerView {
                                        context: s.live_pacemaker().context,
                                        ..s.pacemaker
                                    },
                                    ..s
                                })
                            },
                            LiveError::CommittedEvidence => {
                                &&& s.durable
                                &&& !evidence_readable::<A>(
                                    old(self).finalized(),
                                    s.committed_height,
                                    s.context,
                                )
                                &&& final(self).state() == s.live_with(final(self).state().evidence)
                                &&& final(self).state().evidence.submap_of(s.evidence)
                            },
                            LiveError::Journal => {
                                &&& s.durable
                                &&& journal_fails::<A, P>(
                                    old(self).durable_store()->Some_0,
                                    s,
                                    old(self).finalized(),
                                )
                                &&& final(self).state() == s.live_with(final(self).state().evidence)
                                &&& final(self).state().evidence.submap_of(s.evidence)
                            },
                            LiveError::RecordedEvidence => {
                                &&& s.durable
                                &&& final(self).state() == s.live_with(
                                    s.left_evidence::<A>(old(self).finalized()),
                                )
                            },
                            LiveError::Prune => {
                                let mid = s.live_with(s.left_evidence::<A>(old(self).finalized()));
                                &&& final(self).state() == (RunnerView {
                                    rows: final(self).state().rows,
                                    ..mid
                                })
                                &&& exists|roots: Seq<Hash32>, order: Seq<Hash32>|
                                    {
                                        &&& are_roots(mid, None, roots)
                                        &&& mid.store.is_pruning_order(roots, order)
                                        &&& journal_keeps(mid.rows, final(self).state().rows, roots)
                                        &&& #[trigger] prune_stops::<P>(
                                            mid,
                                            roots,
                                            order,
                                            MAX_PENDING_BLOCKS,
                                            MAX_PENDING_BYTES,
                                        )
                                    }
                            },
                            _ => false,
                        }
                    },
                }
            }),
            if old(self).state().durable && !old(self).reconciled() && (match r {
                Ok(()) => true,
                Err(e) => e is RecordedEvidence || e is Prune,
            }) {
                exists|list: Seq<ProofView>, log: Seq<OfferCall<A>>|
                    {
                        &&& lists_records(list, final(self).state().evidence)
                        &&& #[trigger] offers_through(
                            old(self).state(),
                            old(self).application(),
                            list,
                            log,
                            final(self).application(),
                        )
                        &&& all_taken(list, log) == !(r matches Err(LiveError::RecordedEvidence))
                        &&& forall|i: int|
                            0 <= i < log.len() ==> {
                                let c = #[trigger] log[i];
                                &&& c.taken ==> exists|m: &mut A| #[trigger]
                                    call_ensures(A::submit_equivocation_evidence, (m, c.piece), true) && *m
                                        == c.before && *final(m) == c.after
                                &&& !c.taken ==> exists|m: &mut A| #[trigger]
                                    call_ensures(A::submit_equivocation_evidence, (m, c.piece), false) && *m
                                        == c.before && *final(m) == c.after
                            }
                    }
            } else {
                final(self).application() == old(self).application()
            },
    {
        if !self.app_attached {
            return Err(LiveError::NoApplication);
        }
        let head = match self.store.get(&self.committed_hash) {
            Some(b) => b,
            None => match self.store.get_by_height(self.committed_height) {
                Some(b) => b,
                None => {
                    return Err(LiveError::HeadMissing);
                },
            },
        };
        if head.height != self.committed_height || !hash_eq(&head.hash(), &self.committed_hash) {
            return Err(LiveError::HeadMismatch);
        }
        let recovered = self.app.validate_recovery_head(&head);
        assert(asks_recovery_head(self.application(), head, recovered is Ok));
        if recovered.is_err() {
            return Err(LiveError::ApplicationHead);
        }
        let committee = match validate_network_config(&self.config) {
            Ok(c) => c,
            Err(e) => {
                return Err(LiveError::Config(e));
            },
        };
        if self.pacemaker.with_view_change_committee(committee).is_err() {
            return Err(LiveError::ViewChanges);
        }
        if !self.reconciled_after_recovery {
            let ghost begun = self.state();
            let ghost app = self.application();
            let reconciled = self.reconcile_equivocation_journal();
            proof {
                if begun.durable && (reconciled is Ok || reconciled == Err::<(), LiveError>(
                    LiveError::RecordedEvidence,
                )) {
                    let (list, log) = choose|list: Seq<ProofView>, log: Seq<OfferCall<A>>|
                        {
                            &&& lists_records(list, self.state().evidence)
                            &&& #[trigger] offers_through(
                                begun,
                                app,
                                list,
                                log,
                                self.application(),
                            )
                            &&& all_taken(list, log) == (reconciled is Ok)
                            &&& forall|i: int|
                                0 <= i < log.len() ==> {
                                    let c = #[trigger] log[i];
                                    &&& c.taken ==> exists|m: &mut A| #[trigger]
                                        call_ensures(A::submit_equivocation_evidence, (m, c.piece), true) && *m
                                            == c.before && *final(m) == c.after
                                    &&& !c.taken ==> exists|m: &mut A| #[trigger]
                                        call_ensures(A::submit_equivocation_evidence, (m, c.piece), false) && *m
                                            == c.before && *final(m) == c.after
                                }
                        };
                    assert(app == old(self).application());
                    lemma_offers_of_another(
                        old(self).state(),
                        begun,
                        app,
                        list,
                        log,
                        self.application(),
                    );
                }
            }
            if let Err(e) = reconciled {
                return Err(e);
            }
            let ghost mid = self.state();
            let ghost last = self.application();
            if let Err(_h) = self.prune_speculative_stores_with_limits(
                None,
                MAX_PENDING_BLOCKS,
                MAX_PENDING_BYTES,
            ) {
                proof {
                    let (roots, order) = choose|roots: Seq<Hash32>, order: Seq<Hash32>|
                        #![trigger are_roots(mid, None, roots), mid.store.is_pruning_order(roots, order)]
                        are_roots(mid, None, roots) && mid.store.is_pruning_order(roots, order)
                            && journal_keeps(mid.rows, self.state().rows, roots) && prune_stops::<P>(
                            mid,
                            roots,
                            order,
                            MAX_PENDING_BLOCKS,
                            MAX_PENDING_BYTES,
                        );
                    assert(mid == old(self).state().live_with(
                        old(self).state().left_evidence::<A>(old(self).finalized()),
                    ));
                    assert(prune_stops::<P>(mid, roots, order, MAX_PENDING_BLOCKS, MAX_PENDING_BYTES));
                }
                return Err(LiveError::Prune);
            }
            proof {
                let s = old(self).state();
                let (roots, order) = choose|roots: Seq<Hash32>, order: Seq<Hash32>|
                    #![trigger are_roots(mid, None, roots), mid.store.is_pruning_order(roots, order)]
                    are_roots(mid, None, roots) && mid.store.is_pruning_order(roots, order)
                        && mid.store.pruned(roots, order, MAX_PENDING_BLOCKS, MAX_PENDING_BYTES)
                        == Ok::<StoreView, StoreError>(self.state().store) && journal_keeps(
                        mid.rows,
                        self.state().rows,
                        roots,
                    ) && journal_pruned::<P>(mid, roots, MAX_PENDING_BLOCKS, MAX_PENDING_BYTES);
                assert(mid.known() =~= s.known());
                assert(are_roots(s, None, roots));
                assert(s.store.is_pruning_order(roots, order));
            }
            self.reconciled_after_recovery = true;
            assert(self.application() == last);
            assert(self.state().evidence == mid.evidence);
        } else {
            assert(self.application() == old(self).application());
        }
        Ok(())
    }

    /// Begins a round: prunes the journals, unless that was just done at the
    /// start, and tells whether the node leads the round.
    pub fn begin_round(&mut self) -> (r: Result<bool, Halt>)
        requires
            old(self).wf(),
        ensures
            final(self).wf(),
            final(self).application() == old(self).application(),
            match r {
                Ok(leads) => {
                    &&& leads == old(self).state().config.leads(
                        old(self).state().pacemaker.current_view,
                    )
                    &&& !old(self).reconciled() ==> exists|roots: Seq<Hash32>, order: Seq<Hash32>|
                        #![trigger old(self).state().store.is_pruning_order(roots, order)]
                        {
                            &&& old(self).state().store.is_pruning_order(roots, order)
                            &&& are_roots(old(self).state(), None, roots)
                            &&& old(self).state().store.pruned(
                                roots,
                                order,
                                MAX_PENDING_BLOCKS,
                                MAX_PENDING_BYTES,
                            ) == Ok::<StoreView, StoreError>(final(self).state().store)
                            &&& journal_keeps(
                                old(self).state().rows,
                                final(self).state().rows,
                                roots,
                            )
                            &&& journal_pruned::<P>(
                                old(self).state(),
                                roots,
                                MAX_PENDING_BLOCKS,
                                MAX_PENDING_BYTES,
                            )
                        }
                },
                Err(h) => h == Halt::Prune && !old(self).reconciled() && exists|
                    roots: Seq<Hash32>,
                    order: Seq<Hash32>,
                |
                    {
                        &&& are_roots(old(self).state(), None, roots)
                        &&& old(self).state().store.is_pruning_order(roots, order)
                        &&& #[trigger] prune_stops::<P>(
                            old(self).state(),
                            roots,
                            order,
                            MAX_PENDING_BLOCKS,
                            MAX_PENDING_BYTES,
                        )
                    },
            },
            final(self).flags() == (
                old(self).flags().0,
                old(self).flags().1,
                old(self).flags().2,
                r is Err && old(self).flags().3,
            ),
            old(self).reconciled() ==> final(self).state() == old(self).state(),
            crate::consensus::runner::chain::same_but_journals(
                old(self).state(),
                final(self).state(),
            ),
    {
        if self.reconciled_after_recovery {
            self.reconciled_after_recovery = false;
        } else {
            let ghost s = self.state();
            if let Err(h) = self.prune_speculative_stores_with_limits(
                None,
                MAX_PENDING_BLOCKS,
                MAX_PENDING_BYTES,
            ) {
                proof {
                    let (roots, order) = choose|roots: Seq<Hash32>, order: Seq<Hash32>|
                        #![trigger are_roots(s, None, roots), s.store.is_pruning_order(roots, order)]
                        are_roots(s, None, roots) && s.store.is_pruning_order(roots, order)
                            && prune_stops::<P>(
                            s,
                            roots,
                            order,
                            MAX_PENDING_BLOCKS,
                            MAX_PENDING_BYTES,
                        );
                    assert(prune_stops::<P>(s, roots, order, MAX_PENDING_BLOCKS, MAX_PENDING_BYTES));
                }
                return Err(h);
            }
        }
        Ok(self.config.is_leader(self.pacemaker.current_view()))
    }

    /// Validates a change of the validators against the committed head and
    /// what the application knows of, and stages it durably. It is not
    /// activated.
    pub fn stage_epoch_transition(&mut self, change: &EpochTransitionProof) -> (r: Result<
        (),
        TransitionError,
    >)
        requires
            old(self).wf(),
        ensures
            final(self).wf(),
            final(self).rest() == old(self).rest(),
            match old(self).state().transition_fault(change.effective_height, change.old_qc@) {
                Some(e) => r == Err::<(), TransitionError>(e) && final(self).state()
                    == old(self).state(),
                None => exists|block: Block, update: Option<ValidatorSetUpdate>|
                    {
                        &&& block@ == old(self).state().rows[change.old_qc@.block_hash]
                        &&& #[trigger] asks_transition(old(self).application(), block, update)
                        &&& stages(
                            old(self).durable_store(),
                            old(self).state(),
                            *change,
                            update,
                            r,
                            final(self).state(),
                        )
                    },
            },
    {
        let found = match &self.persistent_store {
            None => {
                return Err(TransitionError::NoStore);
            },
            Some(p) => p.get(&change.old_qc.block_hash),
        };
        if change.effective_height < 2 {
            return Err(TransitionError::TooEarly);
        }
        let transition: u64 = change.effective_height - 2;
        if transition != self.committed_height {
            return Err(
                TransitionError::HeightMismatch { transition, committed: self.committed_height },
            );
        }
        let b = match found {
            Some(b) => b,
            None => {
                return Err(TransitionError::UnknownBlock);
            },
        };
        let hash = b.hash();
        if !hash_eq(&hash, &self.committed_hash) || b.height != self.committed_height {
            return Err(TransitionError::NotHead);
        }
        let committee = match self.config.committee() {
            Ok(c) => c,
            Err(e) => {
                return Err(TransitionError::Committee(e));
            },
        };
        if let Err(e) = verify_certificate(
            &committee,
            &change.old_qc,
            self.context,
            b.view,
            &hash,
            Some(b.app_hash),
            self.config.bls_configured(),
        ) {
            return Err(TransitionError::Qc(e));
        }
        let ghost s = self.state();
        let ghost own = self.durable_store();
        let answer = self.app.validator_set_update_for_transition(&b);
        let update = match answer {
            Ok(update) => update,
            Err(_) => None,
        };
        assert(asks_transition(self.application(), b, update));
        match &update {
            Some(u) => {
                if !matches_update(change, u) {
                    assert(stages(own, s, *change, update, Err(TransitionError::UpdateMismatch), s));
                    return Err(TransitionError::UpdateMismatch);
                }
            },
            None => {
                assert(stages(own, s, *change, update, Err(TransitionError::NoUpdate), s));
                return Err(TransitionError::NoUpdate);
            },
        }
        match self.persistent_store.take() {
            Some(mut p) => {
                let saved = match p.save_epoch_transition_proof(change) {
                    Ok(()) => Ok(()),
                    Err(_e) => {
                        assert(staging_fails(own->Some_0, change@));
                        Err(TransitionError::NotPersisted)
                    },
                };
                self.persistent_store = Some(p);
                assert(stages(own, s, *change, update, saved, self.state()));
                saved
            },
            None => Err(TransitionError::NoStore),
        }
    }
}

/// What comes of staging a change of the validators, given the application's
/// update: the change is staged if it names exactly the validators of the
/// update. Nothing else changes.
pub open spec fn stages<P: PersistentStore>(
    own: Option<P>,
    s: RunnerView,
    change: EpochTransitionProof,
    update: Option<ValidatorSetUpdate>,
    r: Result<(), TransitionError>,
    after: RunnerView,
) -> bool {
    match update {
        None => r == Err::<(), TransitionError>(TransitionError::NoUpdate) && after == s,
        Some(u) => if !same_validators(change, u) {
            r == Err::<(), TransitionError>(TransitionError::UpdateMismatch) && after == s
        } else {
            match r {
                Ok(()) => after == (RunnerView { staged: Some(change@), ..s }),
                Err(e) => {
                    &&& e == TransitionError::NotPersisted
                    &&& staging_fails(own->Some_0, change@)
                    &&& after == (RunnerView { staged: after.staged, ..s })
                },
            }
        },
    }
}

/// A change names exactly the validators of an update.
pub open spec fn same_validators(change: EpochTransitionProof, update: ValidatorSetUpdate) -> bool {
    &&& change.node_ids@ == update.node_ids@
    &&& change.voting_powers@ == update.voting_powers@
    &&& byte_rows(change.bls_pubkeys@) == byte_rows(update.bls_pubkeys@)
}

/// Whether a change names exactly the validators of an update.
pub fn matches_update(change: &EpochTransitionProof, update: &ValidatorSetUpdate) -> (r: bool)
    ensures
        r == same_validators(*change, *update),
{
    assert(byte_rows(change.bls_pubkeys@).len() == change.bls_pubkeys@.len());
    assert(byte_rows(update.bls_pubkeys@).len() == update.bls_pubkeys@.len());
    if change.node_ids.len() != update.node_ids.len() || change.voting_powers.len()
        != update.voting_powers.len() || change.bls_pubkeys.len() != update.bls_pubkeys.len() {
        return false;
    }
    let mut i: usize = 0;
    while i < change.node_ids.len()
        invariant
            i <= change.node_ids.len(),
            change.node_ids.len() == update.node_ids.len(),
            forall|k: int| 0 <= k < i ==> change.node_ids[k] == update.node_ids[k],
        decreases change.node_ids.len() - i,
    {
        if !hash_eq(&change.node_ids[i], &update.node_ids[i]) {
            return false;
        }
        i = i + 1;
    }
    assert(change.node_ids@ =~= update.node_ids@);
    let mut j: usize = 0;
    while j < change.voting_powers.len()
        invariant
            j <= change.voting_powers.len(),
            change.voting_powers.len() == update.voting_powers.len(),
            forall|k: int| 0 <= k < j ==> change.voting_powers[k] == update.voting_powers[k],
        decreases change.voting_powers.len() - j,
    {
        if change.voting_powers[j] != update.voting_powers[j] {
            return false;
        }
        j = j + 1;
    }
    assert(change.voting_powers@ =~= update.voting_powers@);
    let mut n: usize = 0;
    while n < change.bls_pubkeys.len()
        invariant
            n <= change.bls_pubkeys.len(),
            change.bls_pubkeys.len() == update.bls_pubkeys.len(),
            forall|k: int| 0 <= k < n ==> change.bls_pubkeys[k]@ == update.bls_pubkeys[k]@,
        decreases change.bls_pubkeys.len() - n,
    {
        if !bytes_eq(&change.bls_pubkeys[n], &update.bls_pubkeys[n]) {
            assert(byte_rows(change.bls_pubkeys@)[n as int] != byte_rows(update.bls_pubkeys@)[n as int]);
            return false;
        }
        n = n + 1;
    }
    assert(byte_rows(change.bls_pubkeys@) =~= byte_rows(update.bls_pubkeys@));
    true
}

/// A node starts exactly if the network knows it by its own identifier and
/// authenticates peers, it has a timeout, its configuration can run a networked node,
/// and it has a genesis.
pub proof fn lemma_starts(c: ConfigView, network_id: NodeId, authenticated: bool)
    ensures
        start_fault(c, network_id, authenticated) is None <==> {
            &&& network_id == c.node_id
            &&& authenticated
            &&& c.view_timeout_ms > 0
            &&& network_fault(c) is None
            &&& c.genesis_hash != zero_hash()
        },
{
}

/// A node resumes exactly if its store can keep evidence and has no change staged, the
/// node could start, and the durable state is of its context and valid; or there is
/// neither a state nor a block.
pub proof fn lemma_resumes(
    c: ConfigView,
    network_id: NodeId,
    authenticated: bool,
    rows: Map<Hash32, BlockView>,
    startup: Startup,
)
    ensures
        resume_fault(c, network_id, authenticated, rows, startup) is None <==> {
            &&& startup.journal_capable
            &&& !startup.staged_transition
            &&& start_fault(c, network_id, authenticated) is None
            &&& startup.state is None ==> startup.store.blocks@.len() == 0
                && startup.store.committed_head is None
            &&& startup.state matches Some(s) ==> {
                &&& s@.context == config_context(c)
                &&& recovery_fault(
                    startup.store@,
                    config_context(c),
                    c.members(),
                    s,
                    c.keyed(),
                ) is None
                &&& recovered_cache(
                    finalized(startup.store@.blocks, s.committed_height).last(),
                    s@,
                    rows,
                    startup.high_qc_bytes,
                    startup.locked_qc_bytes,
                ) is Some
            }
        },
{
}

/// What a node has after a restart: its votes and certificates, its head, and the later
/// one of its view and the view after its highest certificate; where that is a new view,
/// without timeouts and without a view change sent, else with those it had.
pub proof fn lemma_restored(s: ConsensusStateView, base_timeout_ms: u64, view_start: u64)
    ensures
        recovered_safety(s).voted == s.voted,
        recovered_safety(s).high_qc == s.high_qc,
        recovered_safety(s).locked_qc == s.locked_qc,
        recovered_safety(s).context == Some(s.context),
        ({
            let p = recovered_pacemaker(s, base_timeout_ms, view_start);
            let ahead = s.high_qc matches Some(qc) && qc.view >= s.current_view && qc.view < u64::MAX;
            &&& ahead ==> p.current_view == s.high_qc->Some_0.view + 1 && p.consecutive_timeouts == 0
                && p.vc_sent_for_view is None
            &&& (s.high_qc matches Some(qc) ==> qc.view < s.current_view) ==> p.current_view
                == s.current_view && p.consecutive_timeouts == s.consecutive_timeouts
                && p.vc_sent_for_view == s.vc_sent_for_view
            &&& p.base_timeout_ms == base_timeout_ms
            &&& p.context == Some(s.context)
            &&& p.view_start == view_start
            &&& p.collector is None
        }),
{
}

/// A node that starts for the first time has no votes and no certificates, and genesis
/// as its head.
pub proof fn lemma_first_state(context: ConsensusContext)
    ensures
        ({
            let s = genesis_state(context);
            &&& s.context == context
            &&& s.voted == Set::<u64>::empty()
            &&& s.high_qc is None
            &&& s.locked_qc is None
            &&& s.current_view == 0
            &&& s.committed_height == 0
            &&& s.committed_hash == block_hash(genesis_block(context))
            &&& s.consecutive_timeouts == 0
            &&& s.vc_sent_for_view is None
        }),
{
}

/// The cache of a restarted node holds the head, as the head, and the blocks of both
/// certificates as far as they are stored.
pub proof fn lemma_restored_cache(
    head: BlockView,
    s: ConsensusStateView,
    rows: Map<Hash32, BlockView>,
    high_bytes: usize,
    locked_bytes: usize,
)
    requires
        crate::consensus::store::named_by_hash(rows),
        block_hash(head) == s.committed_hash,
    ensures
        recovered_cache(head, s, rows, high_bytes, locked_bytes) matches Some(cache) ==> {
            &&& cache.committed == Some(s.committed_hash)
            &&& cache.head() == Some(head)
            &&& (s.high_qc matches Some(qc) && rows.contains_key(qc.block_hash))
                ==> cache.blocks.contains_key(s.high_qc->Some_0.block_hash)
            &&& (s.locked_qc matches Some(qc) && rows.contains_key(qc.block_hash))
                ==> cache.blocks.contains_key(s.locked_qc->Some_0.block_hash)
        },
{
    let first = empty_store().saved(head);
    assert(first.blocks.contains_key(block_hash(head)) && first.blocks[block_hash(head)] == head);
    if let Some(high) = cached_target(first, rows, s.high_qc, high_bytes) {
        if let Some(qc) = s.high_qc {
            if rows.contains_key(qc.block_hash) {
                assert(block_hash(rows[qc.block_hash]) == qc.block_hash);
                lemma_cached_present(first, rows[qc.block_hash], high_bytes);
            }
        }
        if let Some(qc) = s.locked_qc {
            if rows.contains_key(qc.block_hash) {
                assert(block_hash(rows[qc.block_hash]) == qc.block_hash);
                lemma_cached_present(high, rows[qc.block_hash], locked_bytes);
            }
        }
    }
}

/// A block without a fault of capacity is stored, or was.
proof fn lemma_cached_present(s: StoreView, b: BlockView, bytes: usize)
    ensures
        s.admitted(b, bytes).blocks.contains_key(block_hash(b)),
{
}

/// What a node begins with beside what it recovers: no pending blocks, no votes, no
/// evidence found and no votes counted; and a collector of timeouts where every member
/// has a usable key, in the first epoch.
pub proof fn lemma_node_begins(
    c: ConfigView,
    safety: SafetyView,
    pacemaker: PacemakerView,
    store: StoreView,
    height: u64,
    hash: Hash32,
    durable: bool,
    rows: Map<Hash32, BlockView>,
    durable_state: Option<ConsensusStateView>,
    ledger: Ledger,
    attempts: Attempts,
    evidence: Records,
    staged: Option<TransitionView>,
)
    ensures
        ({
            let n = started_node(
                c,
                safety,
                pacemaker,
                store,
                height,
                hash,
                durable,
                rows,
                durable_state,
                ledger,
                attempts,
                evidence,
                staged,
            );
            &&& n.config == c
            &&& n.context == config_context(c)
            &&& n.safety == safety
            &&& n.pacemaker == pacemaker
            &&& n.store == store
            &&& n.committed_height == height
            &&& n.committed_hash == hash
            &&& n.durable == durable
            &&& n.rows == rows
            &&& n.durable_state == durable_state
            &&& n.ledger == ledger
            &&& n.attempts == attempts
            &&& n.evidence == evidence
            &&& n.staged == staged
            &&& n.pending == Map::<Hash32, BlockView>::empty()
            &&& n.votes.dom() == Set::<Hash32>::empty()
            &&& n.applied.len() == 0
            &&& n.detector.votes.dom() == Set::<crate::consensus::equivocation::VoterKey>::empty()
            &&& n.detector.equivocations.dom() == Set::<
                crate::consensus::equivocation::VoterKey,
            >::empty()
            &&& n.detector.context == Some(config_context(c))
            &&& n.limiter.max == 10
            &&& n.timeouts is Some <==> c.fault() is None && all_keyed(c.members()) && c.epoch == 0
            &&& n.timeouts matches Some(t) ==> t.members == Some(c.members()) && t.keys
                == committee_keys(c.members()) && t.context == Some(config_context(c)) && t.timeouts.dom()
                == Set::<u64>::empty()
        }),
{
    assert(Map::<Hash32, Seq<crate::types::vote::VoteView>>::empty().dom() =~= Set::empty());
}

/// A node that takes part weighs view changes by its committee, and is otherwise where
/// it was.
pub proof fn lemma_live(s: RunnerView, evidence: Records)
    ensures
        ({
            let p = s.live_pacemaker();
            &&& p.collector matches Some(c) && c.members == Some(s.config.members()) && c.keys
                == committee_keys(s.config.members()) && c.view_changes.dom() == Set::<u64>::empty()
            &&& p.current_view == s.pacemaker.current_view
            &&& p.consecutive_timeouts == s.pacemaker.consecutive_timeouts
            &&& p.base_timeout_ms == s.pacemaker.base_timeout_ms
            &&& p.vc_sent_for_view == s.pacemaker.vc_sent_for_view
            &&& s.pacemaker.context is Some ==> p.context == s.pacemaker.context
            &&& s.live_with(evidence) == (RunnerView { pacemaker: p, evidence, ..s })
        }),
{
    assert(Map::<u64, Seq<crate::types::messages::ViewChangeView>>::empty().dom() =~= Set::empty());
}

/// A record of evidence stays exactly if no finalized block up to the committed height
/// carries evidence with its key.
pub proof fn lemma_evidence_left<A: AppHook>(s: RunnerView, chain: Chain, k: Seq<u8>)
    requires
        s.durable,
    ensures
        ({
            let left = s.left_evidence::<A>(chain);
            &&& left.contains_key(k) <==> s.evidence.contains_key(k) && !(exists|i: int|
                0 <= i < chain.len() && (#[trigger] chain[i]).height <= s.committed_height && (
                carried_evidence(A::evidence_in(chain[i].payload), s.context) matches Some(list)
                    && has_record(list, k)))
            &&& left.contains_key(k) ==> left[k] == s.evidence[k]
        }),
{
    let keys = committed_keys::<A>(chain, s.committed_height, s.context);
    if keys.contains(k) {
        let i = choose|i: int|
            0 <= i < chain.len() && carries_key::<A>(
                #[trigger] chain[i],
                s.committed_height,
                s.context,
                k,
            );
        assert(chain[i].height <= s.committed_height);
    }
    if exists|i: int|
        0 <= i < chain.len() && (#[trigger] chain[i]).height <= s.committed_height && (
        carried_evidence(A::evidence_in(chain[i].payload), s.context) matches Some(list)
            && has_record(list, k)) {
        let i = choose|i: int|
            0 <= i < chain.len() && (#[trigger] chain[i]).height <= s.committed_height && (
            carried_evidence(A::evidence_in(chain[i].payload), s.context) matches Some(list)
                && has_record(list, k));
        assert(carries_key::<A>(chain[i], s.committed_height, s.context, k));
    }
}

/// A batch of evidence starts where the last one ended and goes round: it holds sixteen
/// pieces, or all if there are fewer, none twice, and the next one starts behind it.
pub proof fn lemma_batch(recorded: Seq<ProofView>, cursor: usize, i: int, j: int)
    requires
        0 < recorded.len() <= usize::MAX,
    ensures
        ({
            let n = recorded.len() as int;
            let batch = due_batch(recorded, cursor);
            &&& n <= 16 ==> batch.len() == n
            &&& n > 16 ==> batch.len() == 16
            &&& 0 <= i < batch.len() ==> batch[i] == recorded[(cursor as int % n + i) % n]
            &&& 0 <= i < j < batch.len() ==> (cursor as int % n + i) % n != (cursor as int % n + j) % n
            &&& 0 <= cursor_after(recorded, cursor) < n
            &&& cursor_after(recorded, cursor) == (cursor as int % n + batch.len()) % n
        }),
{
    let n = recorded.len() as int;
    let start = cursor as int % n;
    let batch = due_batch(recorded, cursor);
    assert(0 <= start < n);
    assert(0 <= (start + batch.len()) % n < n);
    if 0 <= i < j < batch.len() {
        let x = start + i;
        let y = start + j;
        assert(0 < y - x < n);
        if x % n == y % n {
            vstd::arithmetic::div_mod::lemma_fundamental_div_mod(x, n);
            vstd::arithmetic::div_mod::lemma_fundamental_div_mod(y, n);
            assert(y - x == n * (y / n - x / n)) by (nonlinear_arith)
                requires
                    x == n * (x / n) + x % n,
                    y == n * (y / n) + y % n,
                    x % n == y % n,
            ;
            let d = y / n - x / n;
            assert(d < 1 && d > 0) by (nonlinear_arith)
                requires
                    0 < n * d < n,
                    n > 0,
            ;
        }
    }
}

/// A change of the validators may be staged exactly two heights before it takes effect:
/// with a certificate, which verifies, for the stored block that is the committed head.
pub proof fn lemma_transition(s: RunnerView, effective_height: u64, qc: CertificateView)
    ensures
        s.transition_fault(effective_height, qc) is None <==> {
            &&& s.durable
            &&& effective_height == s.committed_height + 2
            &&& s.rows.contains_key(qc.block_hash)
            &&& s.config.fault() is None
            &&& {
                let b = s.rows[qc.block_hash];
                &&& block_hash(b) == s.committed_hash
                &&& b.height == s.committed_height
                &&& certificate_check(
                    s.config.members(),
                    qc,
                    s.context,
                    b.view,
                    s.committed_hash,
                    Some(b.app_hash),
                    s.config.keyed(),
                ) is Ok
            }
        },
{
}

/// Evidence is believed exactly if the configuration describes a committee and the
/// evidence convicts under it.
pub proof fn lemma_evidence_believed(s: RunnerView, p: ProofView)
    ensures
        s.evidence_fault(p) is None <==> s.config.fault() is None && proof_check(
            s.config.members(),
            p,
            s.context,
            s.config.keyed(),
        ) is Ok,
{
}

/// Where all pieces of a list were taken, each of them verifies and was offered to the
/// application and taken by it, in order, as the piece before it left it.
pub proof fn lemma_all_offered<A: AppHook>(
    s: RunnerView,
    app: A,
    list: Seq<ProofView>,
    log: Seq<OfferCall<A>>,
    last: A,
    i: int,
)
    requires
        offers_through(s, app, list, log, last),
        all_taken(list, log),
        0 <= i < list.len(),
    ensures
        s.evidence_fault(list[i]) is None,
        log[i].taken,
        log[i].piece@ == list[i],
        offers_evidence(log[i].before, list[i], true),
        log[0].before == app,
        i > 0 ==> log[i].before == log[i - 1].after,
        log.last().after == last,
{
    assert(offered_at(s, app, list, log, i));
    assert(offered_at(s, app, list, log, 0));
    if i == log.len() - 1 {
        assert(log[i] == log.last());
    }
}

/// A change of the validators is staged only if the application knows of exactly the same
/// one: the same validators with the same powers and keys, in the same order.
pub proof fn lemma_staged<P: PersistentStore>(
    own: Option<P>,
    s: RunnerView,
    change: EpochTransitionProof,
    update: Option<ValidatorSetUpdate>,
    after: RunnerView,
)
    requires
        stages(own, s, change, update, Ok(()), after),
    ensures
        update matches Some(u) && change.node_ids@ == u.node_ids@ && change.voting_powers@
            == u.voting_powers@ && byte_rows(change.bls_pubkeys@) == byte_rows(u.bls_pubkeys@),
        after.staged == Some(change@),
        after == (RunnerView { staged: after.staged, ..s }),
{
}

/// How far behind a peer a node asks for blocks, and how much evidence it sends at once.
pub proof fn lemma_setup_limits()
    ensures
        SYNC_GAP == 10,
        MAX_EVIDENCE_BATCH == 16,
{
}

/// The head that a node takes part with is the cached block of the committed hash, or else
/// the one at the committed height.
pub proof fn lemma_live_head(s: RunnerView)
    ensures
        s.store.blocks.contains_key(s.committed_hash) ==> s.live_head() == Some(
            s.store.blocks[s.committed_hash],
        ),
        !s.store.blocks.contains_key(s.committed_hash) ==> s.live_head() == s.store.at_height(
            s.committed_height,
        ),
{
}

/// The evidence of a chain can be read exactly if that of each finalized block decodes, is
/// well-formed and of the context.
pub proof fn lemma_evidence_readable<A: AppHook>(
    chain: Seq<BlockView>,
    height: u64,
    context: ConsensusContext,
    i: int,
)
    ensures
        evidence_readable::<A>(chain, height, context) && 0 <= i < chain.len() && chain[i].height
            <= height ==> carried_evidence(A::evidence_in(chain[i].payload), context) is Some,
        !evidence_readable::<A>(chain, height, context) ==> exists|k: int|
            0 <= k < chain.len() && (#[trigger] chain[k]).height <= height && carried_evidence(
                A::evidence_in(chain[k].payload),
                context,
            ) is None,
{
    if evidence_readable::<A>(chain, height, context) && 0 <= i < chain.len() {
        assert(evidence_ok::<A>(chain[i], height, context));
    }
    if !evidence_readable::<A>(chain, height, context) {
        let k = choose|k: int|
            0 <= k < chain.len() && !evidence_ok::<A>(#[trigger] chain[k], height, context);
        assert(chain[k].height <= height);
    }
}

/// What a restarted node stands on: the last of its finalized blocks and its durable state,
/// or genesis and the first state.
pub proof fn lemma_recovered_from(startup: Startup, context: ConsensusContext)
    ensures
        startup.state matches Some(s) ==> recovered_head(startup, context) == finalized(
            startup.store@.blocks,
            s.committed_height,
        ).last() && recovered_state(startup, context) == s@,
        startup.state is None ==> recovered_head(startup, context) == genesis_block(context)
            && recovered_state(startup, context) == genesis_state(context),
{
}

/// What the refusal of a start or of a change of the validators says is so.
pub proof fn lemma_start_refusals(
    c: ConfigView,
    network_id: NodeId,
    authenticated: bool,
    rows: Map<Hash32, BlockView>,
    startup: Startup,
    s: RunnerView,
    effective_height: u64,
    qc: CertificateView,
)
    ensures
        match resume_fault(c, network_id, authenticated, rows, startup) {
            None => true,
            Some(StartError::NoJournal) => !startup.journal_capable,
            Some(StartError::StagedTransition) => startup.staged_transition,
            Some(StartError::Identity) => network_id != c.node_id,
            Some(StartError::Unauthenticated) => !authenticated,
            Some(StartError::NoTimeout) => c.view_timeout_ms == 0,
            Some(StartError::Config(e)) => network_fault(c) == Some(e),
            Some(StartError::NoGenesis) => c.genesis_hash == zero_hash(),
            Some(StartError::BlocksWithoutState) => startup.state is None && (
            startup.store.blocks@.len() > 0 || startup.store.committed_head is Some),
            Some(StartError::StateContext) => startup.state matches Some(x) && x@.context
                != config_context(c),
            Some(StartError::Recovery(e)) => startup.state matches Some(x) && recovery_fault(
                startup.store@,
                config_context(c),
                c.members(),
                x,
                c.keyed(),
            ) == Some(e),
            Some(StartError::Cache) => startup.state is Some,
            Some(_) => false,
        },
        match s.transition_fault(effective_height, qc) {
            None => true,
            Some(TransitionError::NoStore) => !s.durable,
            Some(TransitionError::TooEarly) => effective_height < 2,
            Some(TransitionError::HeightMismatch { transition, committed }) => transition + 2
                == effective_height && committed == s.committed_height && transition != committed,
            Some(TransitionError::UnknownBlock) => !s.rows.contains_key(qc.block_hash),
            Some(TransitionError::NotHead) => block_hash(s.rows[qc.block_hash]) != s.committed_hash
                || s.rows[qc.block_hash].height != s.committed_height,
            Some(TransitionError::Committee(e)) => s.config.fault() == Some(e),
            Some(TransitionError::Qc(e)) => certificate_check(
                s.config.members(),
                qc,
                s.context,
                s.rows[qc.block_hash].view,
                block_hash(s.rows[qc.block_hash]),
                Some(s.rows[qc.block_hash].app_hash),
                s.config.keyed(),
            ) == Err::<(), VerifyError>(e),
            Some(_) => false,
        },
{
}

/// The cache of a restarted node holds nothing but the head and the blocks of the two
/// certificates, and only the head is indexed by its height.
pub proof fn lemma_restored_cache_only(
    head: BlockView,
    s: ConsensusStateView,
    rows: Map<Hash32, BlockView>,
    high_bytes: usize,
    locked_bytes: usize,
    h: Hash32,
    n: u64,
)
    requires
        crate::consensus::store::named_by_hash(rows),
        block_hash(head) == s.committed_hash,
    ensures
        recovered_cache(head, s, rows, high_bytes, locked_bytes) matches Some(cache) ==> {
            &&& cache.blocks.contains_key(h) ==> h == block_hash(head) || (rows.contains_key(h) && ((
            s.high_qc matches Some(c) && c.block_hash == h) || (s.locked_qc matches Some(c)
                && c.block_hash == h)))
            &&& (h != block_hash(head) && cache.blocks.contains_key(h)) ==> cache.blocks[h] == rows[h]
            &&& cache.blocks[block_hash(head)] == head
            &&& cache.by_height.contains_key(n) <==> n == head.height
            &&& cache.by_height[head.height] == block_hash(head)
        },
{
    let first = empty_store().saved(head);
    lemma_target_only(first, rows, s.high_qc, high_bytes, h);
    lemma_target_only(first, rows, s.high_qc, high_bytes, block_hash(head));
    if let Some(high) = cached_target(first, rows, s.high_qc, high_bytes) {
        lemma_target_only(high, rows, s.locked_qc, locked_bytes, h);
        lemma_target_only(high, rows, s.locked_qc, locked_bytes, block_hash(head));
    }
}

/// A cached certificate adds its block at most.
proof fn lemma_target_only(
    s: StoreView,
    rows: Map<Hash32, BlockView>,
    qc: Option<CertificateView>,
    bytes: usize,
    h: Hash32,
)
    requires
        crate::consensus::store::named_by_hash(rows),
    ensures
        cached_target(s, rows, qc, bytes) matches Some(t) ==> {
            &&& t.by_height == s.by_height
            &&& s.blocks.contains_key(h) ==> t.blocks.contains_key(h) && t.blocks[h] == s.blocks[h]
            &&& (t.blocks.contains_key(h) && !s.blocks.contains_key(h)) ==> (qc matches Some(c)
                && c.block_hash == h) && rows.contains_key(h) && t.blocks[h] == rows[h]
        },
{
    if let Some(c) = qc {
        if rows.contains_key(c.block_hash) {
            assert(block_hash(rows[c.block_hash]) == c.block_hash);
        }
    }
}

} // verus!
