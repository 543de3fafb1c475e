//! A consensus engine without a network: a leader that certifies its own
//! blocks, and an observer that follows finalized blocks.
//!
//! Every proposed or received block is stored at once, so certified blocks and
//! their ancestors are looked up in the store.

use vstd::prelude::*;

use crate::bytes::{contains_hash, hash_eq, zero_hash, zeros, Hash32};
use crate::clock::unix_millis;
use crate::consensus::hooks::{AppHook, ValidatorSetUpdate};
use crate::consensus::pacemaker::{initial_pacemaker, Pacemaker, PacemakerView, DEFAULT_TIMEOUT_MS};
use crate::consensus::safety::{Safety, SafetyView};
use crate::consensus::store::{BlockStore, StoreView};
use crate::crypto::{
    bls_key_decodes, bls_public_key, bls_signature, bls_signature_decodes, key_decodes,
    signature_decodes,
};
use crate::table::{keys_from, Table};
use crate::types::block::{block_hash, block_views, genesis_block, option_block, Block, BlockView};
use crate::types::certificate::{voters_of, Certificate, CertificateView};
use crate::types::context::ConsensusContext;
use crate::types::messages::Propose;
use crate::types::settings::{config_context, ConfigView, ConsensusConfig};
use crate::types::vote::{vote_message, vote_views, Vote, VoteView};

verus! {

/// Why an observer refuses the certificate of a block.
#[derive(Clone, Copy, Debug, PartialEq, Eq)]
pub enum BlockQcError {
    /// The block carries no certificate.
    Missing { height: u64 },
    /// The certificate is not for the block's parent.
    NotForParent,
    /// The certificate has neither voters nor votes.
    NoSigners { height: u64 },
    /// The aggregate certificate lists no voters.
    NoVoters,
    /// The numbers of voters and keys differ.
    CountMismatch { voters: usize, keys: usize },
    /// The aggregate signature does not have 96 bytes.
    SignatureLength(usize),
    /// The aggregate signature does not decode.
    SignatureEncoding,
    /// A key does not have 48 bytes.
    KeyLength { index: usize, length: usize },
    /// A key does not decode.
    KeyEncoding { index: usize },
}

/// The first key of a certificate that is malformed, from a position on.
pub open spec fn keys_fault(keys: Seq<Seq<u8>>, i: int) -> Option<BlockQcError>
    decreases keys.len() - i,
{
    if i < 0 || i >= keys.len() {
        None
    } else if keys[i].len() != 48 {
        Some(BlockQcError::KeyLength { index: i as usize, length: keys[i].len() as usize })
    } else if !bls_key_decodes(keys[i]) {
        Some(BlockQcError::KeyEncoding { index: i as usize })
    } else {
        keys_fault(keys, i + 1)
    }
}

/// How the structure of an aggregate certificate is malformed.
pub open spec fn structure_fault(c: CertificateView) -> Option<BlockQcError> {
    if c.voters.len() == 0 {
        Some(BlockQcError::NoVoters)
    } else if c.voters.len() != c.bls_pubkeys.len() {
        Some(
            BlockQcError::CountMismatch {
                voters: c.voters.len() as usize,
                keys: c.bls_pubkeys.len() as usize,
            },
        )
    } else if c.agg_signature.len() != 96 {
        Some(BlockQcError::SignatureLength(c.agg_signature.len() as usize))
    } else if !bls_signature_decodes(c.agg_signature) {
        Some(BlockQcError::SignatureEncoding)
    } else {
        keys_fault(c.bls_pubkeys, 0)
    }
}

/// Why the certificate of a block is refused. A block of height one or lower
/// needs none.
pub open spec fn block_qc_fault(b: BlockView) -> Option<BlockQcError> {
    if b.height <= 1 {
        None
    } else {
        match b.justify {
            None => Some(BlockQcError::Missing { height: b.height }),
            Some(qc) => if qc.block_hash != b.parent {
                Some(BlockQcError::NotForParent)
            } else if qc.is_bls() {
                structure_fault(qc)
            } else if qc.voters.len() == 0 && qc.votes.len() == 0 {
                Some(BlockQcError::NoSigners { height: b.height })
            } else {
                None
            },
        }
    }
}

/// Checks the certificate that a block carries for its parent.
pub fn verify_block_qc(block: &Block) -> (r: Result<(), BlockQcError>)
    ensures
        match r {
            Ok(()) => block_qc_fault(block@) is None,
            Err(e) => block_qc_fault(block@) == Some(e),
        },
{
    if block.height <= 1 {
        return Ok(());
    }
    match &block.justify {
        None => Err(BlockQcError::Missing { height: block.height }),
        Some(justify) => {
            if !hash_eq(&justify.block_hash, &block.parent) {
                return Err(BlockQcError::NotForParent);
            }
            assert(justify@.votes.len() == justify.votes.len());
            if justify.is_bls() {
                verify_bls_certificate_structure(justify)
            } else if justify.voters.len() == 0 && justify.votes.len() == 0 {
                Err(BlockQcError::NoSigners { height: block.height })
            } else {
                Ok(())
            }
        },
    }
}

/// Checks that an aggregate certificate is well-formed.
pub fn verify_bls_certificate_structure(cert: &Certificate) -> (r: Result<(), BlockQcError>)
    ensures
        match r {
            Ok(()) => structure_fault(cert@) is None,
            Err(e) => structure_fault(cert@) == Some(e),
        },
{
    assert(cert@.bls_pubkeys.len() == cert.bls_pubkeys.len());
    if cert.voters.len() == 0 {
        return Err(BlockQcError::NoVoters);
    }
    if cert.voters.len() != cert.bls_pubkeys.len() {
        return Err(
            BlockQcError::CountMismatch { voters: cert.voters.len(), keys: cert.bls_pubkeys.len() },
        );
    }
    if cert.agg_signature.len() != 96 {
        return Err(BlockQcError::SignatureLength(cert.agg_signature.len()));
    }
    if !signature_decodes(&cert.agg_signature) {
        return Err(BlockQcError::SignatureEncoding);
    }
    let mut i: usize = 0;
    while i < cert.bls_pubkeys.len()
        invariant
            i <= cert.bls_pubkeys.len(),
            cert@.bls_pubkeys.len() == cert.bls_pubkeys.len(),
            cert@.voters.len() > 0,
            cert@.voters.len() == cert@.bls_pubkeys.len(),
            cert@.agg_signature.len() == 96,
            bls_signature_decodes(cert@.agg_signature),
            keys_fault(cert@.bls_pubkeys, 0) == keys_fault(cert@.bls_pubkeys, i as int),
        decreases cert.bls_pubkeys.len() - i,
    {
        let key = &cert.bls_pubkeys[i];
        assert(cert@.bls_pubkeys[i as int] == key@);
        if key.len() != 48 {
            return Err(BlockQcError::KeyLength { index: i, length: key.len() });
        }
        if !key_decodes(key) {
            return Err(BlockQcError::KeyEncoding { index: i });
        }
        i = i + 1;
    }
    Ok(())
}

/// A consensus engine around an application and a block store.
pub struct Engine<A: AppHook, S: BlockStore> {
    config: ConsensusConfig,
    context: ConsensusContext,
    safety: Safety,
    pacemaker: Pacemaker,
    app: A,
    store: S,
    committed_height: u64,
    observer_mode: bool,
    skip_qc_verify: bool,
    received_blocks: Table<u64, Block>,
}

/// The contents of an engine, but for the application. There is at most one
/// queued block per height.
pub ghost struct EngineView {
    pub config: ConfigView,
    pub context: ConsensusContext,
    pub safety: SafetyView,
    pub pacemaker: PacemakerView,
    pub store: StoreView,
    pub committed_height: u64,
    pub observer: bool,
    pub skip_qc_verify: bool,
    pub queue: Map<u64, BlockView>,
}

/// The contents of a table of queued blocks.
pub open spec fn queue_map(m: Map<u64, Block>) -> Map<u64, BlockView> {
    Map::new(|k: u64| m.contains_key(k), |k: u64| m[k]@)
}

/// The context that an engine works in. A configuration without a committee
/// gives one that names none.
pub open spec fn engine_context(config: ConfigView) -> ConsensusContext {
    if config.fault() is None {
        config_context(config)
    } else {
        ConsensusContext {
            epoch: config.epoch,
            committee_hash: zero_hash(),
            genesis_hash: config.genesis_hash,
        }
    }
}

/// The vote of a node on a block.
pub open spec fn own_vote(
    config: ConfigView,
    context: ConsensusContext,
    view: u64,
    h: Hash32,
    app_hash: Hash32,
) -> VoteView {
    VoteView {
        context,
        view,
        block_hash: h,
        app_hash,
        voter: config.node_id,
        signature: match config.bls_secret_key {
            Some(seed) => bls_signature(seed@, vote_message(context, view, h, app_hash)),
            None => Seq::new(64, |i: int| 0u8),
        },
        bls_pubkey: match config.bls_secret_key {
            Some(seed) => Some(bls_public_key(seed@)),
            None => None,
        },
    }
}

/// The certificate that carries one vote.
pub open spec fn single_vote_qc(vote: VoteView) -> CertificateView {
    CertificateView {
        context: vote.context,
        view: vote.view,
        block_hash: vote.block_hash,
        app_hash: Some(vote.app_hash),
        votes: seq![vote],
        voters: seq![vote.voter],
        bls_pubkeys: Seq::empty(),
        agg_signature: Seq::empty(),
    }
}

/// A path from the oldest uncommitted ancestor of a block down to the block,
/// along parent links through stored blocks. It starts right above the
/// committed height, or where the next parent is missing or not above it.
pub open spec fn is_commit_path(s: StoreView, committed: u64, h: Hash32, path: Seq<Hash32>) -> bool {
    &&& path.len() > 0
    &&& path.last() == h
    &&& path.no_duplicates()
    &&& forall|i: int| 0 <= i < path.len() ==> s.blocks.contains_key(#[trigger] path[i])
    &&& forall|i: int|
        0 < i < path.len() ==> s.blocks[#[trigger] path[i]].height > committed + 1
            && s.blocks[path[i]].parent == path[i - 1]
    &&& s.blocks[path[0]].height > committed
    &&& s.blocks[path[0]].height == committed + 1 || path.contains(s.blocks[path[0]].parent)
        || !s.blocks.contains_key(s.blocks[path[0]].parent)
        || s.blocks[s.blocks[path[0]].parent].height <= committed
}

/// The store after the blocks of a path became committed heads, one after the
/// other.
pub open spec fn committed_along(s: StoreView, path: Seq<Hash32>) -> StoreView
    decreases path.len(),
{
    if path.len() == 0 {
        s
    } else {
        committed_along(s, path.drop_last()).with_committed(path.last())
    }
}

/// The voting rules after the blocks of a path were committed: votes below
/// their views are forgotten.
pub open spec fn pruned_along(safety: SafetyView, s: StoreView, path: Seq<Hash32>) -> SafetyView
    decreases path.len(),
{
    if path.len() == 0 {
        safety
    } else {
        let before = pruned_along(safety, s, path.drop_last());
        SafetyView {
            voted: before.voted.filter(|v: u64| v >= s.blocks[path.last()].view),
            ..before
        }
    }
}

impl EngineView {
    /// The block that the next proposal builds on.
    pub open spec fn proposal_parent(self) -> BlockView {
        let base = match self.store.at_height(0) {
            Some(b) => b,
            None => genesis_block(self.context),
        };
        match self.safety.high_qc {
            Some(qc) => match self.store.lookup(qc.block_hash) {
                Some(b) => b,
                None => base,
            },
            None => base,
        }
    }

    /// The block that the leader proposes, given the application's payload
    /// and state and the time.
    pub open spec fn proposal(self, payload: Seq<u8>, app_hash: Hash32, now: u64) -> BlockView {
        let parent = self.proposal_parent();
        BlockView {
            context: self.context,
            view: self.pacemaker.current_view,
            height: (parent.height + 1) as u64,
            parent: block_hash(parent),
            payload,
            proposer: self.config.node_id,
            commitment_root: zero_hash(),
            app_hash,
            timestamp: now,
            justify: self.safety.high_qc,
        }
    }

    /// The node's certificate of its own block.
    pub open spec fn own_qc(self, b: BlockView) -> CertificateView {
        single_vote_qc(own_vote(self.config, self.context, b.view, block_hash(b), b.app_hash))
    }

    /// A block is committed together with its uncommitted ancestors; a block
    /// that is unknown or not above the committed height changes nothing.
    pub open spec fn commits(self, h: Hash32, after: EngineView, r: Option<BlockView>) -> bool {
        if !self.store.blocks.contains_key(h) || self.store.blocks[h].height
            <= self.committed_height {
            after == self && r is None
        } else {
            exists|path: Seq<Hash32>| #[trigger]
                is_commit_path(self.store, self.committed_height, h, path) && after == (EngineView {
                    store: committed_along(self.store, path),
                    safety: pruned_along(self.safety, self.store, path),
                    committed_height: self.store.blocks[h].height,
                    ..self
                }) && r == Some(self.store.blocks[h])
        }
    }

    /// The engine with the voting rules after a certificate and its block.
    pub open spec fn certified(self, qc: CertificateView) -> EngineView {
        let raised = self.safety.after_high_qc(qc);
        EngineView {
            safety: match self.store.lookup(qc.block_hash) {
                Some(b) => match b.justify {
                    Some(justify) => raised.after_locked_qc(justify),
                    None => raised,
                },
                None => raised,
            },
            ..self
        }
    }

    /// A certificate commits the parent of the block that it is for.
    pub open spec fn processes(self, qc: CertificateView, after: EngineView, r: Option<BlockView>) -> bool {
        match self.store.lookup(qc.block_hash) {
            None => after == self.certified(qc) && r is None,
            Some(b) => if b.height == 0 {
                after == self.certified(qc) && r is None
            } else {
                self.certified(qc).commits(b.parent, after, r)
            },
        }
    }

    /// What a leader's round does, given the application's payload and state
    /// and the time: it stores its block, certifies it, and so commits the
    /// parent.
    pub open spec fn leads(
        self,
        payload: Seq<u8>,
        app_hash: Hash32,
        now: u64,
        after: EngineView,
        r: Option<BlockView>,
    ) -> bool {
        let b = self.proposal(payload, app_hash, now);
        let stored = EngineView { store: self.store.saved(b), ..self };
        exists|mid: EngineView| #[trigger]
            stored.processes(self.own_qc(b), mid, r) && after == (EngineView {
                pacemaker: (match mid.safety.high_qc {
                    Some(qc) => mid.pacemaker.after_qc(qc),
                    None => mid.pacemaker,
                }).started(after.pacemaker.view_start),
                ..mid
            })
    }

    /// The queue without blocks at or below the committed height.
    pub open spec fn live_queue(self) -> Map<u64, BlockView> {
        self.queue.restrict(Set::new(keys_from::<u64>((self.committed_height + 1) as u64)))
    }

    /// The next block is queued.
    pub open spec fn has_next(self) -> bool {
        self.queue.contains_key((self.committed_height + 1) as u64)
    }

    /// The next queued block.
    pub open spec fn next(self) -> BlockView {
        self.queue[(self.committed_height + 1) as u64]
    }

    /// The engine after the next block was taken from the queue.
    pub open spec fn taken(self) -> EngineView {
        EngineView {
            queue: if self.has_next() {
                self.live_queue().remove((self.committed_height + 1) as u64)
            } else {
                self.live_queue()
            },
            ..self
        }
    }

    /// The certificate of the next block is accepted, or not looked at.
    pub open spec fn next_certified(self) -> bool {
        self.skip_qc_verify || block_qc_fault(self.next()) is None
    }

    /// The application has to execute the next block.
    pub open spec fn must_execute(self) -> bool {
        self.has_next() && self.next_certified()
    }

    /// The engine after it followed a block.
    pub open spec fn followed(self, b: BlockView) -> EngineView {
        EngineView {
            store: self.store.saved(b).with_committed(block_hash(b)),
            committed_height: b.height,
            ..self
        }
    }

    /// The engine after a block was offered for the queue: a block at or below
    /// the committed height, or of a height that is queued, is ignored.
    pub open spec fn queued(self, b: BlockView) -> EngineView {
        if b.height <= self.committed_height || self.queue.contains_key(b.height) {
            self
        } else {
            EngineView { queue: self.queue.insert(b.height, b), ..self }
        }
    }

    /// The engine after it voted for a block.
    pub open spec fn voted(self, b: BlockView) -> EngineView {
        EngineView {
            safety: self.safety.after_vote(b.view),
            store: self.store.saved(b),
            ..self
        }
    }
}

/// The engine after a list of blocks was offered for the queue.
pub open spec fn queued_all(e: EngineView, blocks: Seq<BlockView>) -> EngineView
    decreases blocks.len(),
{
    if blocks.len() == 0 {
        e
    } else {
        queued_all(e, blocks.drop_last()).queued(blocks.last())
    }
}

/// Committing never lowers the committed height, and a committed block is
/// the one that was asked for.
pub proof fn lemma_commit_advances(e: EngineView, h: Hash32, after: EngineView, r: Option<BlockView>)
    requires
        e.commits(h, after, r),
    ensures
        after.committed_height >= e.committed_height,
        r is Some ==> after.committed_height == r->Some_0.height && after.store.committed == Some(h)
            && after.committed_height > e.committed_height,
        r is None ==> after == e,
{
    if e.store.blocks.contains_key(h) && e.store.blocks[h].height > e.committed_height {
        let path = choose|path: Seq<Hash32>| #[trigger]
            is_commit_path(e.store, e.committed_height, h, path) && after == (EngineView {
                store: committed_along(e.store, path),
                safety: pruned_along(e.safety, e.store, path),
                committed_height: e.store.blocks[h].height,
                ..e
            }) && r == Some(e.store.blocks[h]);
        assert(path.last() == h);
    }
}

/// A block is committed only once a block that builds on it is certified.
pub proof fn lemma_two_chain(e: EngineView, qc: CertificateView, after: EngineView, r: Option<BlockView>)
    requires
        e.processes(qc, after, r),
        r is Some,
    ensures
        e.store.lookup(qc.block_hash) is Some,
        e.store.lookup(e.store.blocks[qc.block_hash].parent) == r,
        after.store.committed == Some(e.store.blocks[qc.block_hash].parent),
{
    let b = e.store.blocks[qc.block_hash];
    lemma_commit_advances(e.certified(qc), b.parent, after, r);
}

/// An observer follows blocks one height at a time.
pub proof fn lemma_observer_sequential(e: EngineView)
    requires
        e.has_next(),
        e.next().height == e.committed_height + 1,
    ensures
        e.taken().followed(e.next()).committed_height == e.committed_height + 1,
        e.taken().followed(e.next()).store.head() == Some(e.next()),
{
}

impl<A: AppHook, S: BlockStore> Engine<A, S> {
    /// The contents of the engine.
    pub closed spec fn state(self) -> EngineView {
        EngineView {
            config: self.config@,
            context: self.context,
            safety: self.safety@,
            pacemaker: self.pacemaker@,
            store: self.store.contents(),
            committed_height: self.committed_height,
            observer: self.observer_mode,
            skip_qc_verify: self.skip_qc_verify,
            queue: queue_map(self.received_blocks.map()),
        }
    }

    /// The parts are well-formed, and blocks are queued under their heights.
    pub closed spec fn wf(self) -> bool {
        &&& self.safety.wf()
        &&& self.pacemaker.wf()
        &&& self.store.wf()
        &&& self.received_blocks.wf()
        &&& forall|n: u64| #[trigger]
            self.received_blocks.map().contains_key(n) ==> self.received_blocks.map()[n].height == n
    }

    /// An engine that takes part in consensus, from genesis.
    pub fn new(config: ConsensusConfig, app: A, store: S) -> (r: Self)
        requires
            store.wf(),
        ensures
            r.wf(),
            r.application() == app,
            r.state() == fresh_engine(config@, store.contents(), false, r.state().pacemaker.view_start),
    {
        Engine::start(config, app, store, false)
    }

    /// An engine that follows the chain without voting or proposing.
    pub fn new_observer(config: ConsensusConfig, app: A, store: S) -> (r: Self)
        requires
            store.wf(),
        ensures
            r.wf(),
            r.application() == app,
            r.state() == fresh_engine(config@, store.contents(), true, r.state().pacemaker.view_start),
    {
        Engine::start(config, app, store, true)
    }

    fn start(config: ConsensusConfig, app: A, store: S, observer_mode: bool) -> (r: Self)
        requires
            store.wf(),
        ensures
            r.wf(),
            r.application() == app,
            r.state() == fresh_engine(
                config@,
                store.contents(),
                observer_mode,
                r.state().pacemaker.view_start,
            ),
    {
        let context = context_of(&config);
        let mut store = store;
        let genesis = Block::genesis(context);
        store.save(&genesis);
        let hash = genesis.hash();
        store.set_committed(&hash);
        let r = Engine {
            config,
            context,
            safety: Safety::new(),
            pacemaker: Pacemaker::default(),
            app,
            store,
            committed_height: 0,
            observer_mode,
            skip_qc_verify: false,
            received_blocks: Table::new(),
        };
        assert(queue_map(r.received_blocks.map()) =~= Map::empty());
        r
    }

    /// An engine with recovered progress.
    pub fn with_state(
        config: ConsensusConfig,
        app: A,
        store: S,
        committed_height: u64,
        current_view: u64,
        observer_mode: bool,
    ) -> (r: Self)
        requires
            store.wf(),
        ensures
            r.wf(),
            r.state() == (EngineView {
                config: config@,
                context: engine_context(config@),
                safety: SafetyView {
                    voted: Set::empty(),
                    high_qc: None,
                    locked_qc: None,
                    context: None,
                },
                pacemaker: PacemakerView {
                    current_view,
                    ..initial_pacemaker(DEFAULT_TIMEOUT_MS, r.state().pacemaker.view_start)
                },
                store: store.contents(),
                committed_height,
                observer: observer_mode,
                skip_qc_verify: false,
                queue: Map::empty(),
            }),
    {
        let context = context_of(&config);
        let mut pacemaker = Pacemaker::default();
        pacemaker.set_view(current_view);
        let r = Engine {
            config,
            context,
            safety: Safety::new(),
            pacemaker,
            app,
            store,
            committed_height,
            observer_mode,
            skip_qc_verify: false,
            received_blocks: Table::new(),
        };
        assert(queue_map(r.received_blocks.map()) =~= Map::empty());
        r
    }

    /// Lets an observer take blocks without looking at their certificates.
    pub fn set_skip_qc_verify(&mut self, skip: bool)
        requires
            old(self).wf(),
        ensures
            final(self).wf(),
            final(self).application() == old(self).application(),
            final(self).state() == (EngineView { skip_qc_verify: skip, ..old(self).state() }),
    {
        self.skip_qc_verify = skip;
    }

    /// Whether the engine only follows the chain.
    pub fn is_observer(&self) -> (r: bool)
        ensures
            r == self.state().observer,
    {
        self.observer_mode
    }

    /// The application.
    pub closed spec fn application(self) -> A {
        self.app
    }

    /// The application.
    pub fn app(&self) -> (r: &A)
        ensures
            *r == self.application(),
    {
        &self.app
    }

    /// The application, to be changed.
    pub fn app_mut(&mut self) -> (r: &mut A)
        requires
            old(self).wf(),
        ensures
            *r == old(self).application(),
            final(self).wf(),
            final(self).state() == old(self).state(),
            final(self).application() == *final(r),
    {
        &mut self.app
    }

    /// Runs one round now, and returns the block that it committed.
    pub fn tick(&mut self) -> (r: Option<Block>)
        requires
            old(self).wf(),
            old(self).state().committed_height < u64::MAX,
            !old(self).state().observer ==> old(self).state().proposal_parent().height < u64::MAX
                && old(self).state().pacemaker.current_view < u64::MAX
                    && (old(self).state().safety.high_qc is Some
                    ==> old(self).state().safety.high_qc->Some_0.view
                < u64::MAX),
        ensures
            final(self).wf(),
            old(self).state().observer && !old(self).state().must_execute() ==> final(self).application()
                == old(self).application() && r is None && final(self).state()
                == old(self).state().taken(),
            old(self).state().observer && old(self).state().must_execute() ==> exists|m: &mut A, block: Block, app_hash: Hash32|
                {
                    &&& #[trigger] call_ensures(A::execute, (m, &block), app_hash)
                    &&& *m == old(self).application()
                    &&& *final(m) == final(self).application()
                    &&& block@ == old(self).state().next()
                    &&& observes(
                        old(self).state(),
                        app_hash,
                        final(self).state(),
                        option_block(r),
                    )
                },
            !old(self).state().observer && !old(self).state().config.leads(
                old(self).state().pacemaker.current_view,
            ) ==> r is None && final(self).state() == old(self).state()
                && final(self).application() == old(self).application(),
            !old(self).state().observer && old(self).state().config.leads(
                old(self).state().pacemaker.current_view,
            ) ==> (r is None && final(self).state() == old(self).state()
                && final(self).application() == old(self).application()) || exists|
                now: u64,
                parent: Block,
                payload: Vec<u8>,
                m: &mut A,
                draft: Block,
                app_hash: Hash32,
            |
                #![trigger call_ensures(A::prepare_payload, (&old(self).application(), &parent), payload), call_ensures(A::execute, (m, &draft), app_hash), old(self).state().leads(payload@, app_hash, now, final(self).state(), option_block(r))]
                {
                    &&& call_ensures(
                        A::prepare_payload,
                        (&old(self).application(), &parent),
                        payload,
                    )
                    &&& parent@ == old(self).state().proposal_parent()
                    &&& call_ensures(A::execute, (m, &draft), app_hash)
                    &&& *m == old(self).application()
                    &&& *final(m) == final(self).application()
                    &&& draft@ == old(self).state().proposal(payload@, zero_hash(), now)
                    &&& old(self).state().leads(
                        payload@,
                        app_hash,
                        now,
                        final(self).state(),
                        option_block(r),
                    )
                },
    {
        if self.observer_mode {
            return self.run_observer();
        }
        let view: u64 = self.pacemaker.current_view();
        if self.config.is_leader(view) {
            match unix_millis() {
                Some(now) => self.run_leader(now),
                None => None,
            }
        } else {
            None
        }
    }

    /// A leader's round at a given time.
    pub fn run_leader(&mut self, now: u64) -> (r: Option<Block>)
        requires
            old(self).wf(),
            old(self).state().proposal_parent().height < u64::MAX,
            old(self).state().pacemaker.current_view < u64::MAX,
            old(self).state().safety.high_qc is Some
                ==> old(self).state().safety.high_qc->Some_0.view < u64::MAX,
        ensures
            final(self).wf(),
            exists|
                parent: Block,
                payload: Vec<u8>,
                m: &mut A,
                draft: Block,
                app_hash: Hash32,
            |
                {
                    &&& #[trigger] call_ensures(
                        A::prepare_payload,
                        (&old(self).application(), &parent),
                        payload,
                    )
                    &&& parent@ == old(self).state().proposal_parent()
                    &&& #[trigger] call_ensures(A::execute, (m, &draft), app_hash)
                    &&& *m == old(self).application()
                    &&& *final(m) == final(self).application()
                    &&& draft@ == old(self).state().proposal(payload@, zero_hash(), now)
                    &&& old(self).state().leads(
                        payload@,
                        app_hash,
                        now,
                        final(self).state(),
                        option_block(r),
                    )
                },
    {
        let parent = self.get_proposal_parent();
        let ghost app = self.application();
        let payload = self.app.prepare_payload(&parent);
        assert(call_ensures(A::prepare_payload, (&app, &parent), payload));
        let mut block = self.draft(&parent, payload, now);
        let app_hash = self.app.execute(&block);
        block.app_hash = app_hash;
        let r = self.certify_own(block);
        proof {
            assert(old(self).state().leads(
                payload@,
                app_hash,
                now,
                self.state(),
                option_block(r),
            ));
        }
        r
    }

    /// The block that a leader proposes, before its execution.
    fn draft(&self, parent: &Block, payload: Vec<u8>, now: u64) -> (r: Block)
        requires
            parent@ == self.state().proposal_parent(),
            parent.height < u64::MAX,
        ensures
            r@ == self.state().proposal(payload@, zero_hash(), now),
    {
        let high_qc = match self.safety.high_qc() {
            Some(qc) => Some(qc.clone()),
            None => None,
        };
        Block {
            epoch: self.context.epoch,
            committee_hash: self.context.committee_hash,
            genesis_hash: self.context.genesis_hash,
            view: self.pacemaker.current_view(),
            height: parent.height + 1,
            parent: parent.hash(),
            payload,
            proposer: self.config.node_id,
            commitment_root: zeros(),
            app_hash: zeros(),
            timestamp: now,
            justify: high_qc,
        }
    }

    /// Stores and certifies a block that the node proposed and executed, and
    /// commits its parent.
    fn certify_own(&mut self, block: Block) -> (r: Option<Block>)
        requires
            old(self).wf(),
            block@.view == old(self).state().pacemaker.current_view,
            block@.context == old(self).state().context,
            block@.view < u64::MAX,
            old(self).state().safety.high_qc is Some
                ==> old(self).state().safety.high_qc->Some_0.view < u64::MAX,
        ensures
            final(self).wf(),
            final(self).application() == old(self).application(),
            ({
                let e = old(self).state();
                let stored = EngineView { store: e.store.saved(block@), ..e };
                exists|mid: EngineView| #[trigger]
                    stored.processes(e.own_qc(block@), mid, option_block(r)) && final(self).state() == (
                    EngineView {
                        pacemaker: (match mid.safety.high_qc {
                            Some(qc) => mid.pacemaker.after_qc(qc),
                            None => mid.pacemaker,
                        }).started(final(self).state().pacemaker.view_start),
                        ..mid
                    })
            }),
    {
        let hash = block.hash();
        let view: u64 = block.view;
        self.store.save(&block);
        let vote = self.make_vote(view, hash, block.app_hash);
        let mut votes: Vec<Vote> = Vec::new();
        let ghost v = vote@;
        votes.push(vote);
        let ghost e = self.state();
        proof {
            assert(vote_views(votes@) =~= seq![v]);
            assert(voters_of(seq![v]) =~= seq![v.voter]);
        }
        let committed = match Certificate::new(self.context, view, hash, votes) {
            Ok(qc) => {
                assert(qc@ == old(self).state().own_qc(block@));
                self.process_qc(qc)
            },
            Err(_) => {
                assert(false);
                None
            },
        };
        let ghost mid = self.state();
        proof {
            lemma_processes_keeps(e, old(self).state().own_qc(block@), mid, option_block(committed));
        }
        let high_qc = match self.safety.high_qc() {
            Some(qc) => Some(qc.clone()),
            None => None,
        };
        if let Some(qc) = high_qc {
            self.pacemaker.advance_view(&qc);
        }
        proof {
            assert(e.processes(old(self).state().own_qc(block@), mid, option_block(committed)));
        }
        committed
    }

    /// The node's vote on a block.
    fn make_vote(&self, view: u64, hash: Hash32, app_hash: Hash32) -> (r: Vote)
        ensures
            r@ == own_vote(self.state().config, self.state().context, view, hash, app_hash),
    {
        match self.config.bls_secret_key() {
            Some(secret) => Vote::new_bls(
                self.context,
                view,
                hash,
                app_hash,
                self.config.node_id,
                &secret,
            ),
            None => Vote::new(self.context, view, hash, app_hash, self.config.node_id),
        }
    }

    /// An observer's round: follows the next queued block, if there is one,
    /// its certificate is accepted and its execution gives the application
    /// state that it names.
    pub fn run_observer(&mut self) -> (r: Option<Block>)
        requires
            old(self).wf(),
            old(self).state().committed_height < u64::MAX,
        ensures
            final(self).wf(),
            !old(self).state().must_execute() ==> final(self).application()
                == old(self).application() && r is None && final(self).state()
                == old(self).state().taken(),
            old(self).state().must_execute() ==> exists|m: &mut A, block: Block, app_hash: Hash32|
                {
                    &&& #[trigger] call_ensures(A::execute, (m, &block), app_hash)
                    &&& *m == old(self).application()
                    &&& *final(m) == final(self).application()
                    &&& block@ == old(self).state().next()
                    &&& observes(
                        old(self).state(),
                        app_hash,
                        final(self).state(),
                        option_block(r),
                    )
                },
    {
        let ghost e = self.state();
        let next_height: u64 = self.committed_height + 1;
        let ghost before = self.received_blocks.map();
        self.received_blocks.retain_from(next_height);
        let ghost live = self.received_blocks.map();
        let taken = self.received_blocks.remove(&next_height);
        proof {
            assert(queue_map(before.restrict(Set::new(keys_from::<u64>(next_height)))) =~= queue_map(
                before,
            ).restrict(Set::new(keys_from::<u64>(next_height))));
            assert(queue_map(live.remove(next_height)) =~= queue_map(live).remove(next_height));
            if !e.has_next() {
                assert(e.live_queue().remove(next_height) =~= e.live_queue());
            }
            assert(self.state() == e.taken());
        }
        let block = match taken {
            Some(b) => b,
            None => {
                return None;
            },
        };
        if !self.skip_qc_verify {
            if verify_block_qc(&block).is_err() {
                return None;
            }
        }
        let app_hash = self.app.execute(&block);
        if self.follow(&block, app_hash) {
            Some(block)
        } else {
            None
        }
    }

    /// Follows a block whose execution gave an application state: it is
    /// refused if the block names another one.
    pub fn follow(&mut self, block: &Block, app_hash: Hash32) -> (r: bool)
        requires
            old(self).wf(),
        ensures
            final(self).wf(),
            r == (app_hash == block.app_hash),
            final(self).state() == (if r {
                old(self).state().followed(block@)
            } else {
                old(self).state()
            }),
            final(self).application() == old(self).application(),
    {
        if !hash_eq(&app_hash, &block.app_hash) {
            return false;
        }
        let hash = block.hash();
        self.store.save(block);
        self.store.set_committed(&hash);
        self.committed_height = block.height;
        true
    }

    /// Queues a block for an observer.
    pub fn queue_block(&mut self, block: Block)
        requires
            old(self).wf(),
        ensures
            final(self).wf(),
            final(self).application() == old(self).application(),
            final(self).state() == old(self).state().queued(block@),
    {
        if block.height <= self.committed_height {
            return ;
        }
        let height: u64 = block.height;
        if self.received_blocks.contains(&height) {
            return ;
        }
        let ghost before = self.received_blocks.map();
        self.received_blocks.put(height, block);
        assert(queue_map(self.received_blocks.map()) =~= queue_map(before).insert(height, block@));
    }

    /// Queues blocks for an observer.
    pub fn queue_blocks(&mut self, blocks: Vec<Block>)
        requires
            old(self).wf(),
        ensures
            final(self).wf(),
            final(self).application() == old(self).application(),
            final(self).state() == queued_all(old(self).state(), block_views(blocks@)),
    {
        let ghost all = block_views(blocks@);
        let mut rest = blocks;
        let ghost mut n: int = 0;
        assert(block_views(rest@) =~= all.skip(0));
        assert(all.take(0) =~= Seq::empty());
        while rest.len() > 0
            invariant
                0 <= n <= all.len(),
                block_views(rest@) == all.skip(n),
                self.wf(),
                self.application() == old(self).application(),
                self.state() == queued_all(old(self).state(), all.take(n)),
            decreases rest.len(),
        {
            let ghost rest_before = rest@;
            let block = rest.remove(0);
            proof {
                assert(block_views(rest_before).len() == all.len() - n);
                assert(block_views(rest_before)[0] == block@);
                assert(all.skip(n)[0] == all[n]);
                assert(block_views(rest@) =~= block_views(rest_before).skip(1));
                assert(all.skip(n).skip(1) =~= all.skip(n + 1));
                assert(all.take(n + 1).drop_last() =~= all.take(n));
                assert(all.take(n + 1).last() == block@);
            }
            self.queue_block(block);
            proof {
                n = n + 1;
            }
        }
        proof {
            assert(block_views(rest@).len() == 0);
            assert(all.take(n) =~= all);
        }
    }

    /// The number of queued blocks.
    pub fn queued_block_count(&self) -> (r: usize)
        requires
            self.wf(),
        ensures
            r == self.state().queue.dom().len(),
            self.state().queue.dom().finite(),
    {
        proof {
            crate::table::lemma_rows_len(self.received_blocks.rows());
            assert(queue_map(self.received_blocks.map()).dom() =~= self.received_blocks.map().dom());
        }
        self.received_blocks.len()
    }

    /// Takes a proposal: executes the block and votes for it if that is safe.
    pub fn on_propose(&mut self, propose: Propose) -> (r: Option<Vote>)
        requires
            old(self).wf(),
        ensures
            final(self).wf(),
            exists|m: &mut A, app_hash: Hash32|
                {
                    &&& #[trigger] call_ensures(A::execute, (m, &propose.block), app_hash)
                    &&& *m == old(self).application()
                    &&& *final(m) == final(self).application()
                    &&& answers(old(self).state(), propose@.block, app_hash, final(self).state(), r)
                },
    {
        let app_hash = self.app.execute(&propose.block);
        let r = self.vote_on(&propose.block, app_hash);
        proof {
            assert(answers(old(self).state(), propose@.block, app_hash, self.state(), r));
        }
        r
    }

    /// Votes for a block whose execution gave an application state, if that is
    /// safe.
    pub fn vote_on(&mut self, block: &Block, app_hash: Hash32) -> (r: Option<Vote>)
        requires
            old(self).wf(),
        ensures
            final(self).wf(),
            answers(old(self).state(), block@, app_hash, final(self).state(), r),
            final(self).application() == old(self).application(),
    {
        if self.safety.safe_to_vote(block, app_hash).is_err() {
            return None;
        }
        self.safety.record_vote(block.view);
        self.store.save(block);
        let hash = block.hash();
        Some(self.make_vote(block.view, hash, app_hash))
    }

    /// Takes a certificate into account, and commits the parent of its block.
    fn process_qc(&mut self, qc: Certificate) -> (r: Option<Block>)
        requires
            old(self).wf(),
        ensures
            final(self).wf(),
            old(self).state().processes(qc@, final(self).state(), option_block(r)),
            final(self).application() == old(self).application(),
    {
        let hash = qc.block_hash;
        self.safety.update_high_qc(qc);
        let block = match self.store.get(&hash) {
            Some(b) => b,
            None => {
                return None;
            },
        };
        if let Some(justify) = &block.justify {
            self.safety.update_locked_qc(justify.clone());
        }
        if block.height == 0 {
            return None;
        }
        self.try_commit(&block.parent)
    }

    /// Commits a block and its uncommitted ancestors.
    #[verifier::spinoff_prover]
    #[verifier::rlimit(40)]
    fn try_commit(&mut self, hash: &Hash32) -> (r: Option<Block>)
        requires
            old(self).wf(),
        ensures
            final(self).wf(),
            old(self).state().commits(*hash, final(self).state(), option_block(r)),
            final(self).application() == old(self).application(),
    {
        let ghost e = self.state();
        let target = match self.store.get(hash) {
            Some(b) => b,
            None => {
                return None;
            },
        };
        if target.height <= self.committed_height {
            return None;
        }
        let path = self.commit_path(hash);
        let ghost p = path@.reverse();
        let mut i: usize = path.len();
        assert(p.take(0) =~= Seq::empty());
        assert forall|k: int| 0 <= k < p.len() implies e.store.blocks.contains_key(#[trigger] p[k]) by {}
        while i > 0
            invariant
                i <= path.len(),
                p == path@.reverse(),
                self.wf(),
                self.application() == old(self).application(),
                is_commit_path(e.store, e.committed_height, *hash, p),
                self.state() == (EngineView {
                    store: committed_along(e.store, p.take(path.len() - i)),
                    safety: pruned_along(e.safety, e.store, p.take(path.len() - i)),
                    committed_height: self.committed_height,
                    ..e
                }),
                committed_along(e.store, p.take(path.len() - i)).blocks == e.store.blocks,
                i < path.len() ==> self.committed_height == e.store.blocks[p[path.len() - i
                    - 1]].height,
            decreases i,
        {
            i = i - 1;
            let h = path[i];
            proof {
                let k = path.len() - i - 1;
                assert(p[k] == h);
                assert(e.store.blocks.contains_key(p[k]));
                lemma_along_step(e.safety, e.store, p, k);
            }
            if let Some(b) = self.store.get(&h) {
                self.store.set_committed(&h);
                self.committed_height = b.height;
                self.safety.prune_votes_below(b.view);
            }
        }
        proof {
            assert(p.take(p.len() as int) =~= p);
            assert(p.last() == *hash);
        }
        Some(target)
    }

    /// The hashes from a block up to its oldest uncommitted ancestor.
    fn commit_path(&self, hash: &Hash32) -> (r: Vec<Hash32>)
        requires
            self.wf(),
            self.state().store.blocks.contains_key(*hash),
            self.state().store.blocks[*hash].height > self.state().committed_height,
        ensures
            is_commit_path(self.state().store, self.state().committed_height, *hash, r@.reverse()),
    {
        let ghost s = self.state().store;
        let c: u64 = self.committed_height;
        proof {
            self.store.lemma_finite();
            lemma_walk_len(s, c, *hash, seq![*hash]);
            assert(Seq::<Hash32>::empty().push(*hash) =~= seq![*hash]);
        }
        let mut path: Vec<Hash32> = Vec::new();
        path.push(*hash);
        loop
            invariant
                self.wf(),
                s == self.state().store,
                s.blocks.dom().finite(),
                c == self.state().committed_height,
                is_walk(s, c, *hash, path@),
                path@.len() <= s.blocks.dom().len(),
            decreases s.blocks.dom().len() - path@.len(),
        {
            let last = path[path.len() - 1];
            let (height, parent) = match self.store.get(&last) {
                Some(b) => (b.height, b.parent),
                None => {
                    assert(s.blocks.contains_key(path@[path@.len() - 1]));
                    return path;
                },
            };
            assert(s.blocks[path@[path@.len() - 1]].height > c);
            if height - c <= 1 {
                proof {
                    lemma_walk_ends(s, c, *hash, path@);
                }
                return path;
            }
            if contains_hash(&path, &parent) {
                proof {
                    lemma_walk_ends(s, c, *hash, path@);
                }
                return path;
            }
            let parent_height: Option<u64> = match self.store.get(&parent) {
                Some(b) => Some(b.height),
                None => None,
            };
            let stop = match parent_height {
                Some(n) => n <= c,
                None => true,
            };
            if stop {
                proof {
                    lemma_walk_ends(s, c, *hash, path@);
                }
                return path;
            }
            proof {
                lemma_walk_grows(s, c, *hash, path@, parent);
            }
            path.push(parent);
        }
    }

    /// The block that the next proposal builds on.
    fn get_proposal_parent(&self) -> (r: Block)
        requires
            self.wf(),
        ensures
            r@ == self.state().proposal_parent(),
    {
        if let Some(qc) = self.safety.high_qc() {
            if let Some(block) = self.store.get(&qc.block_hash) {
                return block;
            }
        }
        match self.store.get_by_height(0) {
            Some(b) => b,
            None => Block::genesis(self.context),
        }
    }

    /// The current view.
    pub fn current_view(&self) -> (r: u64)
        ensures
            r == self.state().pacemaker.current_view,
    {
        self.pacemaker.current_view()
    }

    /// The height of the committed head.
    pub fn committed_height(&self) -> (r: u64)
        ensures
            r == self.state().committed_height,
    {
        self.committed_height
    }

    /// Whether the node leads the current view.
    pub fn is_leader(&self) -> (r: bool)
        ensures
            r == self.state().config.leads(self.state().pacemaker.current_view),
    {
        self.config.is_leader(self.pacemaker.current_view())
    }

    /// Replaces the validators at the start of an epoch. An update without
    /// validators changes nothing.
    pub fn on_epoch_transition(&mut self, update: ValidatorSetUpdate)
        requires
            old(self).wf(),
        ensures
            final(self).wf(),
            final(self).application() == old(self).application(),
            final(self).state() == (if update.node_ids@.len() == 0 {
                old(self).state()
            } else {
                EngineView {
                    config: ConfigView {
                        validators: update.node_ids@,
                        voting_powers: Seq::new(update.node_ids@.len(), |i: int| 1u64),
                        bls_pubkeys: crate::bytes::byte_rows(update.bls_pubkeys@),
                        ..old(self).state().config
                    },
                    ..old(self).state()
                }
            }),
    {
        if update.node_ids.len() == 0 {
            return ;
        }
        self.config.update_validators(update.node_ids, update.bls_pubkeys);
    }

    /// The configuration, to be changed.
    pub fn config_mut(&mut self) -> (r: &mut ConsensusConfig)
        requires
            old(self).wf(),
        ensures
            r@ == old(self).state().config,
            final(self).wf(),
            final(self).application() == old(self).application(),
            final(self).state() == (EngineView { config: final(r)@, ..old(self).state() }),
    {
        &mut self.config
    }
}

/// A walk from a block up its parent links, through stored blocks above the
/// committed height.
spec fn is_walk(s: StoreView, c: u64, h: Hash32, path: Seq<Hash32>) -> bool {
    &&& path.len() > 0
    &&& path[0] == h
    &&& path.no_duplicates()
    &&& forall|k: int|
        0 <= k < path.len() ==> s.blocks.contains_key(#[trigger] path[k]) && s.blocks[path[k]].height > c
    &&& forall|k: int|
        0 <= k < path.len() - 1 ==> s.blocks[#[trigger] path[k]].height > c + 1
            && s.blocks[path[k]].parent == path[k + 1]
}

proof fn lemma_walk_len(s: StoreView, c: u64, h: Hash32, path: Seq<Hash32>)
    requires
        is_walk(s, c, h, path),
        s.blocks.dom().finite(),
    ensures
        path.len() <= s.blocks.dom().len(),
{
    path.unique_seq_to_set();
    assert(path.to_set().subset_of(s.blocks.dom()));
    vstd::set_lib::lemma_len_subset(path.to_set(), s.blocks.dom());
}

proof fn lemma_walk_grows(s: StoreView, c: u64, h: Hash32, path: Seq<Hash32>, parent: Hash32)
    requires
        is_walk(s, c, h, path),
        s.blocks.dom().finite(),
        s.blocks[path.last()].height > c + 1,
        s.blocks[path.last()].parent == parent,
        !path.contains(parent),
        s.blocks.contains_key(parent),
        s.blocks[parent].height > c,
    ensures
        is_walk(s, c, h, path.push(parent)),
        path.push(parent).len() <= s.blocks.dom().len(),
{
    let next = path.push(parent);
    assert forall|k: int| 0 <= k < next.len() - 1 implies s.blocks[#[trigger] next[k]].height > c + 1
        && s.blocks[next[k]].parent == next[k + 1] by {
        assert(next[k] == path[k]);
        if k < path.len() - 1 {
            assert(next[k + 1] == path[k + 1]);
        }
    }
    assert forall|k: int| 0 <= k < next.len() implies s.blocks.contains_key(#[trigger] next[k])
        && s.blocks[next[k]].height > c by {
        if k < path.len() {
            assert(next[k] == path[k]);
        }
    }
    lemma_walk_len(s, c, h, next);
}

proof fn lemma_walk_ends(s: StoreView, c: u64, h: Hash32, path: Seq<Hash32>)
    requires
        is_walk(s, c, h, path),
        ({
            let top = s.blocks[path.last()];
            ||| top.height == c + 1
            ||| path.contains(top.parent)
            ||| !s.blocks.contains_key(top.parent)
            ||| s.blocks[top.parent].height <= c
        }),
    ensures
        is_commit_path(s, c, h, path.reverse()),
{
    let p = path.reverse();
    let n = path.len();
    assert(p[0] == path[n - 1]);
    assert(p[n - 1] == path[0]);
    assert forall|k: int| 0 <= k < n implies s.blocks.contains_key(#[trigger] p[k]) by {
        assert(p[k] == path[n - 1 - k]);
    }
    assert forall|k: int| 0 < k < n implies s.blocks[#[trigger] p[k]].height > c + 1
        && s.blocks[p[k]].parent == p[k - 1] by {
        assert(p[k] == path[n - 1 - k]);
        assert(p[k - 1] == path[n - k]);
    }
    assert forall|a: int, b: int| 0 <= a < n && 0 <= b < n && a != b implies p[a] != p[b] by {
        assert(p[a] == path[n - 1 - a]);
        assert(p[b] == path[n - 1 - b]);
    }
    let parent = s.blocks[path.last()].parent;
    if path.contains(parent) {
        let k = choose|k: int| 0 <= k < n && path[k] == parent;
        assert(p[n - 1 - k] == parent);
    }
}

/// The context that a configuration gives.
fn context_of(config: &ConsensusConfig) -> (r: ConsensusContext)
    ensures
        r == engine_context(config@),
{
    match config.context() {
        Ok(c) => c,
        Err(_) => ConsensusContext::with_genesis(config.epoch, zeros(), config.genesis_hash),
    }
}

/// An engine at genesis.
pub open spec fn fresh_engine(
    config: ConfigView,
    store: StoreView,
    observer: bool,
    view_start: u64,
) -> EngineView {
    let context = engine_context(config);
    let genesis = genesis_block(context);
    EngineView {
        config,
        context,
        safety: SafetyView { voted: Set::empty(), high_qc: None, locked_qc: None, context: None },
        pacemaker: initial_pacemaker(DEFAULT_TIMEOUT_MS, view_start),
        store: store.saved(genesis).with_committed(block_hash(genesis)),
        committed_height: 0,
        observer,
        skip_qc_verify: false,
        queue: Map::empty(),
    }
}

/// What an observer's round does, given the state that the application reports
/// for the next block: it takes that block from the queue, and follows it if its
/// certificate is accepted and it names this state.
pub open spec fn observes(e: EngineView, app_hash: Hash32, after: EngineView, r: Option<BlockView>) -> bool {
    if e.must_execute() && app_hash == e.next().app_hash {
        r == Some(e.next()) && after == e.taken().followed(e.next())
    } else {
        r is None && after == e.taken()
    }
}

/// What a proposal is answered, given the application state after its block.
pub open spec fn answers(
    e: EngineView,
    b: BlockView,
    app_hash: Hash32,
    after: EngineView,
    r: Option<Vote>,
) -> bool {
    if e.safety.check(b, app_hash) is Ok {
        &&& after == e.voted(b)
        &&& r matches Some(v) && v@ == own_vote(e.config, e.context, b.view, block_hash(b), app_hash)
    } else {
        r is None && after == e
    }
}

/// A node that voted for a proposal gives no vote to another proposal of the
/// same view.
pub proof fn lemma_one_vote_per_view(
    e: EngineView,
    b: BlockView,
    app_hash: Hash32,
    mid: EngineView,
    vote: Vote,
    other: BlockView,
    other_hash: Hash32,
    after: EngineView,
    r: Option<Vote>,
)
    requires
        answers(e, b, app_hash, mid, Some(vote)),
        other.view == b.view,
        answers(mid, other, other_hash, after, r),
    ensures
        r is None,
        after == mid,
{
    assert(mid.safety.voted.contains(other.view));
}

/// A block that is offered for the queue above the committed height, at a
/// height that is not queued, is one more queued block.
pub proof fn lemma_queue_grows(e: EngineView, b: BlockView)
    requires
        e.queue.dom().finite(),
        b.height > e.committed_height,
        !e.queue.contains_key(b.height),
    ensures
        e.queued(b).queue.dom().finite(),
        e.queued(b).queue.dom().len() == e.queue.dom().len() + 1,
{
    assert(e.queued(b).queue.dom() =~= e.queue.dom().insert(b.height));
}

proof fn lemma_processes_keeps(e: EngineView, qc: CertificateView, after: EngineView, r: Option<BlockView>)
    requires
        e.processes(qc, after, r),
        qc.view < u64::MAX,
        e.safety.high_qc is Some ==> e.safety.high_qc->Some_0.view < u64::MAX,
    ensures
        after.pacemaker == e.pacemaker,
        after.safety.high_qc is Some ==> after.safety.high_qc->Some_0.view < u64::MAX,
{
    let c = e.certified(qc);
    assert(c.safety.high_qc == e.safety.after_high_qc(qc).high_qc);
    if let Some(b) = e.store.lookup(qc.block_hash) {
        if b.height != 0 && c.store.blocks.contains_key(b.parent)
            && c.store.blocks[b.parent].height > c.committed_height {
            let path = choose|path: Seq<Hash32>| #[trigger]
                is_commit_path(c.store, c.committed_height, b.parent, path) && after == (EngineView {
                    store: committed_along(c.store, path),
                    safety: pruned_along(c.safety, c.store, path),
                    committed_height: c.store.blocks[b.parent].height,
                    ..c
                }) && r == Some(c.store.blocks[b.parent]);
            lemma_pruned_keeps_qc(c.safety, c.store, path);
        }
    }
}

proof fn lemma_along_step(safety: SafetyView, s: StoreView, p: Seq<Hash32>, k: int)
    requires
        0 <= k < p.len(),
    ensures
        committed_along(s, p.take(k + 1)) == committed_along(s, p.take(k)).with_committed(p[k]),
        pruned_along(safety, s, p.take(k + 1)) == (SafetyView {
            voted: pruned_along(safety, s, p.take(k)).voted.filter(
                |v: u64| v >= s.blocks[p[k]].view,
            ),
            ..pruned_along(safety, s, p.take(k))
        }),
{
    assert(p.take(k + 1).drop_last() =~= p.take(k));
    assert(p.take(k + 1).last() == p[k]);
}

proof fn lemma_pruned_keeps_qc(safety: SafetyView, s: StoreView, path: Seq<Hash32>)
    ensures
        pruned_along(safety, s, path).high_qc == safety.high_qc,
    decreases path.len(),
{
    if path.len() > 0 {
        lemma_pruned_keeps_qc(safety, s, path.drop_last());
    }
}

/// A block passes the check of its certificate exactly if it is at most at height
/// one, or carries a certificate of its parent that names signers; an aggregate
/// must hold a key for each of them, and all keys and the signature must decode.
pub proof fn lemma_block_certificate(b: BlockView)
    ensures
        block_qc_fault(b) is None <==> b.height <= 1 || (b.justify matches Some(qc) && {
            &&& qc.block_hash == b.parent
            &&& qc.agg_signature.len() == 0 ==> qc.voters.len() > 0 || qc.votes.len() > 0
            &&& qc.agg_signature.len() > 0 ==> {
                &&& qc.voters.len() > 0
                &&& qc.voters.len() == qc.bls_pubkeys.len()
                &&& qc.agg_signature.len() == 96
                &&& bls_signature_decodes(qc.agg_signature)
                &&& forall|i: int|
                    0 <= i < qc.bls_pubkeys.len() ==> (#[trigger] qc.bls_pubkeys[i]).len() == 48
                        && bls_key_decodes(qc.bls_pubkeys[i])
            }
        }),
{
    if let Some(qc) = b.justify {
        lemma_keys_in_order(qc.bls_pubkeys, 0);
    }
}

/// Keys are in order exactly if each has the right length and decodes.
proof fn lemma_keys_in_order(keys: Seq<Seq<u8>>, from: int)
    requires
        0 <= from <= keys.len(),
    ensures
        keys_fault(keys, from) is None <==> (forall|i: int|
            from <= i < keys.len() ==> (#[trigger] keys[i]).len() == 48 && bls_key_decodes(keys[i])),
    decreases keys.len() - from,
{
    if from < keys.len() {
        lemma_keys_in_order(keys, from + 1);
    }
}

/// A node's own vote names what it is for and who casts it, and is signed with the
/// node's key on exactly that; without a key it is blank.
pub proof fn lemma_own_vote(
    config: ConfigView,
    context: ConsensusContext,
    view: u64,
    h: Hash32,
    app_hash: Hash32,
)
    ensures
        ({
            let v = own_vote(config, context, view, h, app_hash);
            &&& v.context == context
            &&& v.view == view
            &&& v.block_hash == h
            &&& v.app_hash == app_hash
            &&& v.voter == config.node_id
            &&& config.bls_secret_key matches Some(seed) ==> v.bls_pubkey == Some(
                bls_public_key(seed@),
            ) && v.signature == bls_signature(seed@, v.message())
            &&& config.bls_secret_key is None ==> v.bls_pubkey is None && v.signature.len() == 64 && (
            forall|i: int| 0 <= i < 64 ==> v.signature[i] == 0)
        }),
{
}

/// The certificate of a single vote is for what the vote is for, and speaks for its
/// voter alone.
pub proof fn lemma_single_vote(vote: VoteView)
    ensures
        ({
            let c = single_vote_qc(vote);
            &&& c.context == vote.context
            &&& c.view == vote.view
            &&& c.block_hash == vote.block_hash
            &&& c.app_hash == Some(vote.app_hash)
            &&& c.votes.len() == 1
            &&& c.votes[0] == vote
            &&& c.signers().len() == 1
            &&& c.signers()[0] == vote.voter
            &&& !c.is_bls()
        }),
{
}

/// A leader proposes on the block of its highest certificate, if it has that block,
/// else on the first one: at the next height, with that certificate, in the current
/// view and at the given time.
pub proof fn lemma_engine_proposal(e: EngineView, payload: Seq<u8>, app_hash: Hash32, now: u64)
    requires
        e.proposal_parent().height < u64::MAX,
    ensures
        ({
            let b = e.proposal(payload, app_hash, now);
            let parent = e.proposal_parent();
            &&& (e.safety.high_qc matches Some(qc) && e.store.blocks.contains_key(qc.block_hash))
                ==> parent == e.store.blocks[e.safety.high_qc->Some_0.block_hash]
            &&& !(e.safety.high_qc matches Some(qc) && e.store.blocks.contains_key(qc.block_hash))
                ==> parent == (match e.store.at_height(0) {
                Some(first) => first,
                None => genesis_block(e.context),
            })
            &&& b.parent == block_hash(parent)
            &&& b.height == parent.height + 1
            &&& b.view == e.pacemaker.current_view
            &&& b.justify == e.safety.high_qc
            &&& b.proposer == e.config.node_id
            &&& b.context == e.context
            &&& b.payload == payload
            &&& b.app_hash == app_hash
            &&& b.timestamp == now
        }),
{
}

/// A certificate raises the highest one, and the certificate that its block carries
/// raises the lock; nothing else changes.
pub proof fn lemma_engine_certified(e: EngineView, qc: CertificateView)
    ensures
        ({
            let after = e.certified(qc);
            let raised = e.safety.after_high_qc(qc);
            &&& after == (EngineView { safety: after.safety, ..e })
            &&& after.safety.high_qc == raised.high_qc
            &&& after.safety.voted == e.safety.voted
            &&& (e.store.blocks.contains_key(qc.block_hash) && e.store.blocks[qc.block_hash].justify
                is Some) ==> after.safety == raised.after_locked_qc(
                e.store.blocks[qc.block_hash].justify->Some_0,
            )
            &&& !(e.store.blocks.contains_key(qc.block_hash) && e.store.blocks[qc.block_hash].justify
                is Some) ==> after.safety == raised
        }),
{
}

/// The commit rule: a certificate commits the parent of its block exactly if both
/// are stored and the parent is above the committed height.
pub proof fn lemma_parent_committed(e: EngineView, qc: CertificateView, after: EngineView, r: Option<BlockView>)
    requires
        e.processes(qc, after, r),
    ensures
        ({
            let stored = |h: Hash32| e.store.blocks.contains_key(h);
            let parent = e.store.blocks[qc.block_hash].parent;
            let due = stored(qc.block_hash) && e.store.blocks[qc.block_hash].height > 0 && stored(parent)
                && e.store.blocks[parent].height > e.committed_height;
            &&& due ==> r == Some(e.store.blocks[parent]) && after.committed_height
                == e.store.blocks[parent].height && after.store.committed == Some(parent)
            &&& !due ==> r is None && after == e.certified(qc)
        }),
{
    if e.store.blocks.contains_key(qc.block_hash) && e.store.blocks[qc.block_hash].height > 0 {
        lemma_commit_advances(e.certified(qc), e.store.blocks[qc.block_hash].parent, after, r);
    }
}

/// What an observer does with the next block: it takes it from the queue, and
/// follows it exactly if its certificate passes (or is not asked for) and its
/// execution gives the state that it names.
pub proof fn lemma_observer(e: EngineView, app_hash: Hash32, after: EngineView, r: Option<BlockView>, n: u64)
    requires
        e.committed_height < u64::MAX,
        observes(e, app_hash, after, r),
    ensures
        ({
            let next = (e.committed_height + 1) as u64;
            let b = e.queue[next];
            let follows = e.queue.contains_key(next) && (e.skip_qc_verify || block_qc_fault(b) is None)
                && app_hash == b.app_hash;
            &&& follows ==> r == Some(b) && after.committed_height == b.height
                && after.store.head() == Some(b)
            &&& !follows ==> r is None && after.committed_height == e.committed_height && after.store
                == e.store
            &&& after.queue.contains_key(n) <==> e.queue.contains_key(n) && n > next
            &&& after.queue.contains_key(n) ==> after.queue[n] == e.queue[n]
        }),
{
}

/// A block is queued exactly if it is above the committed height and the first one
/// of its height; the queue keeps what it holds.
pub proof fn lemma_queued(e: EngineView, b: BlockView, n: u64)
    ensures
        b.height > e.committed_height && !e.queue.contains_key(b.height) ==> e.queued(
            b,
        ).queue.contains_key(b.height) && e.queued(b).queue[b.height] == b,
        b.height <= e.committed_height || e.queue.contains_key(b.height) ==> e.queued(b) == e,
        n != b.height ==> (e.queued(b).queue.contains_key(n) <==> e.queue.contains_key(n)),
        e.queue.contains_key(n) ==> e.queued(b).queue.contains_key(n) && e.queued(b).queue[n]
            == e.queue[n],
{
}

/// A follower votes exactly if the voting rules allow the block with the state that
/// its execution gave; it then has the block and never votes in that view again.
pub proof fn lemma_follower_votes(
    e: EngineView,
    b: BlockView,
    app_hash: Hash32,
    after: EngineView,
    r: Option<Vote>,
)
    requires
        answers(e, b, app_hash, after, r),
    ensures
        r is Some <==> e.safety.check(b, app_hash) is Ok,
        r matches Some(v) ==> {
            &&& v@.view == b.view
            &&& v@.block_hash == block_hash(b)
            &&& v@.app_hash == b.app_hash
            &&& v@.voter == e.config.node_id
            &&& v@.context == e.context
            &&& after.safety.voted.contains(b.view)
            &&& after.store.lookup(block_hash(b)) == Some(b)
        },
        r is None ==> after == e,
{
}

/// An engine starts at genesis, without votes, certificates or queued blocks, with
/// a base timeout of three seconds.
pub proof fn lemma_engine_starts(config: ConfigView, store: StoreView, observer: bool, view_start: u64)
    ensures
        ({
            let e = fresh_engine(config, store, observer, view_start);
            &&& e.committed_height == 0
            &&& e.store.head() == Some(genesis_block(e.context))
            &&& e.safety.voted == Set::<u64>::empty()
            &&& e.safety.high_qc is None
            &&& e.safety.locked_qc is None
            &&& e.queue == Map::<u64, BlockView>::empty()
            &&& e.observer == observer
            &&& !e.skip_qc_verify
            &&& e.pacemaker.current_view == 0
            &&& e.pacemaker.base_timeout_ms == 3000
            &&& e.context.epoch == config.epoch
            &&& e.context.genesis_hash == config.genesis_hash
            &&& config.fault() is None ==> e.context == config_context(config)
        }),
{
}

/// Committing along a path makes its blocks, oldest first, the head and forgets the
/// votes below their views, and nothing else.
pub proof fn lemma_commit_path_effect(safety: SafetyView, s: StoreView, path: Seq<Hash32>, v: u64)
    ensures
        committed_along(s, path).blocks == s.blocks,
        path.len() > 0 ==> committed_along(s, path).committed == Some(path.last()),
        pruned_along(safety, s, path).voted.contains(v) <==> safety.voted.contains(v) && (forall|i: int|
            0 <= i < path.len() ==> v >= s.blocks[#[trigger] path[i]].view),
        pruned_along(safety, s, path).high_qc == safety.high_qc,
        pruned_along(safety, s, path).locked_qc == safety.locked_qc,
    decreases path.len(),
{
    if path.len() > 0 {
        let front = path.drop_last();
        lemma_commit_path_effect(safety, s, front, v);
        let n = path.len() - 1;
        assert(path[n] == path.last());
        assert forall|i: int| 0 <= i < n implies #[trigger] path[i] == front[i] by {}
        if forall|i: int| 0 <= i < path.len() ==> v >= s.blocks[#[trigger] path[i]].view {
            assert forall|i: int| 0 <= i < front.len() implies v >= s.blocks[#[trigger] front[i]].view by {
                assert(front[i] == path[i]);
            }
            assert(v >= s.blocks[path[n]].view);
        }
        if pruned_along(safety, s, path).voted.contains(v) {
            assert forall|i: int| 0 <= i < path.len() implies v >= s.blocks[#[trigger] path[i]].view by {
                if i < n {
                    assert(front[i] == path[i]);
                }
            }
        }
    }
}

/// The blocks that are committed together lead, parent by parent, from the lowest one that
/// is stored above the committed height up to the block that was asked for.
pub proof fn lemma_commit_path(s: StoreView, committed: u64, h: Hash32, path: Seq<Hash32>, i: int)
    requires
        is_commit_path(s, committed, h, path),
    ensures
        path.len() > 0,
        path.last() == h,
        0 <= i < path.len() ==> s.blocks.contains_key(path[i]) && s.blocks[path[i]].height > committed,
        0 < i < path.len() ==> s.blocks[path[i]].parent == path[i - 1],
        s.blocks[path[0]].height > committed + 1 ==> !s.blocks.contains_key(s.blocks[path[0]].parent)
            || s.blocks[s.blocks[path[0]].parent].height <= committed || path.contains(
            s.blocks[path[0]].parent,
        ),
{
    if 0 < i < path.len() {
        assert(s.blocks[path[i]].height > committed + 1);
    }
}

/// What a leader's round does: its block is stored, its own certificate for the block is
/// taken into account, and the pacemaker moves past the highest certificate.
pub proof fn lemma_leader_round(
    e: EngineView,
    payload: Seq<u8>,
    app_hash: Hash32,
    now: u64,
    after: EngineView,
    r: Option<BlockView>,
)
    requires
        e.leads(payload, app_hash, now, after, r),
    ensures
        ({
            let b = e.proposal(payload, app_hash, now);
            let vote = own_vote(e.config, e.context, b.view, block_hash(b), b.app_hash);
            let stored = EngineView { store: e.store.saved(b), ..e };
            &&& after.store.blocks == e.store.saved(b).blocks
            &&& after.safety.high_qc == stored.certified(single_vote_qc(vote)).safety.high_qc
            &&& after.safety.locked_qc == stored.certified(single_vote_qc(vote)).safety.locked_qc
            &&& after.safety.high_qc matches Some(qc) ==> after.pacemaker == e.pacemaker.after_qc(
                qc,
            ).started(after.pacemaker.view_start)
            &&& after.committed_height >= e.committed_height
            &&& r matches Some(x) ==> after.committed_height == x.height
        }),
{
    let b = e.proposal(payload, app_hash, now);
    let stored = EngineView { store: e.store.saved(b), ..e };
    let qc = e.own_qc(b);
    let mid = choose|mid: EngineView| #[trigger]
        stored.processes(qc, mid, r) && after == (EngineView {
            pacemaker: (match mid.safety.high_qc {
                Some(x) => mid.pacemaker.after_qc(x),
                None => mid.pacemaker,
            }).started(after.pacemaker.view_start),
            ..mid
        });
    let c = stored.certified(qc);
    let parent = stored.store.blocks[qc.block_hash].parent;
    if stored.store.blocks[qc.block_hash].height > 0 {
        lemma_commit_advances(c, parent, mid, r);
        if c.store.blocks.contains_key(parent) && c.store.blocks[parent].height > c.committed_height {
            let path = choose|path: Seq<Hash32>| #[trigger]
                is_commit_path(c.store, c.committed_height, parent, path) && mid == (EngineView {
                    store: committed_along(c.store, path),
                    safety: pruned_along(c.safety, c.store, path),
                    committed_height: c.store.blocks[parent].height,
                    ..c
                }) && r == Some(c.store.blocks[parent]);
            lemma_commit_path_effect(c.safety, c.store, path, 0);
        }
    }
}

/// Blocks that are offered together are queued one after the other.
pub proof fn lemma_queued_all(e: EngineView, blocks: Seq<BlockView>, b: BlockView)
    ensures
        queued_all(e, blocks.push(b)) == queued_all(e, blocks).queued(b),
        queued_all(e, Seq::empty()) == e,
{
    assert(blocks.push(b).drop_last() =~= blocks);
}

/// What the refusal of a block's certificate says of it is so, and the key that it points
/// at is the first one out of order.
pub proof fn lemma_block_certificate_refusal(b: BlockView)
    requires
        b.justify matches Some(qc) ==> qc.voters.len() <= usize::MAX && qc.bls_pubkeys.len()
            <= usize::MAX && qc.agg_signature.len() <= usize::MAX && (forall|i: int|
            0 <= i < qc.bls_pubkeys.len() ==> (#[trigger] qc.bls_pubkeys[i]).len() <= usize::MAX),
    ensures
        match block_qc_fault(b) {
            None => true,
            Some(BlockQcError::Missing { height }) => height == b.height && b.justify is None,
            Some(BlockQcError::NoSigners { height }) => height == b.height && (b.justify matches Some(
                qc,
            ) && qc.voters.len() == 0 && qc.votes.len() == 0),
            Some(e) => b.justify matches Some(qc) && match e {
                BlockQcError::NotForParent => qc.block_hash != b.parent,
                BlockQcError::NoVoters => qc.voters.len() == 0,
                BlockQcError::CountMismatch { voters, keys } => voters == qc.voters.len() && keys
                    == qc.bls_pubkeys.len() && voters != keys,
                BlockQcError::SignatureLength(length) => length == qc.agg_signature.len() && length
                    != 96,
                BlockQcError::SignatureEncoding => !bls_signature_decodes(qc.agg_signature),
                BlockQcError::KeyLength { index, length } => {
                    &&& index < qc.bls_pubkeys.len()
                    &&& length == qc.bls_pubkeys[index as int].len()
                    &&& length != 48
                    &&& forall|k: int|
                        0 <= k < index ==> (#[trigger] qc.bls_pubkeys[k]).len() == 48
                            && bls_key_decodes(qc.bls_pubkeys[k])
                },
                BlockQcError::KeyEncoding { index } => {
                    &&& index < qc.bls_pubkeys.len()
                    &&& !bls_key_decodes(qc.bls_pubkeys[index as int])
                    &&& forall|k: int|
                        0 <= k < index ==> (#[trigger] qc.bls_pubkeys[k]).len() == 48
                            && bls_key_decodes(qc.bls_pubkeys[k])
                },
                _ => false,
            },
        },
{
    if let Some(qc) = b.justify {
        lemma_first_bad_key(qc.bls_pubkeys, 0);
    }
}

/// A fault of keys points at the first key out of order.
proof fn lemma_first_bad_key(keys: Seq<Seq<u8>>, from: int)
    requires
        0 <= from <= keys.len() <= usize::MAX,
        forall|i: int| 0 <= i < keys.len() ==> (#[trigger] keys[i]).len() <= usize::MAX,
        forall|i: int|
            0 <= i < from ==> (#[trigger] keys[i]).len() == 48 && bls_key_decodes(keys[i]),
    ensures
        match keys_fault(keys, from) {
            None => true,
            Some(BlockQcError::KeyLength { index, length }) => {
                &&& index < keys.len()
                &&& length == keys[index as int].len()
                &&& length != 48
                &&& forall|k: int|
                    0 <= k < index ==> (#[trigger] keys[k]).len() == 48 && bls_key_decodes(keys[k])
            },
            Some(BlockQcError::KeyEncoding { index }) => {
                &&& index < keys.len()
                &&& !bls_key_decodes(keys[index as int])
                &&& forall|k: int|
                    0 <= k < index ==> (#[trigger] keys[k]).len() == 48 && bls_key_decodes(keys[k])
            },
            Some(_) => false,
        },
    decreases keys.len() - from,
{
    if from < keys.len() && keys[from].len() == 48 && bls_key_decodes(keys[from]) {
        lemma_first_bad_key(keys, from + 1);
    }
}

} // verus!
