//! What a node does with proposals: its own as leader, and those of others.

use vstd::prelude::*;

use crate::bytes::{hash_eq, option_hash_eq, zero_hash, zeros, Hash32};
use crate::consensus::committee::{
    certificate_check, vote_check, verify_certificate, verify_vote, VerifyError,
};
use crate::consensus::engine::own_vote;
use crate::consensus::hooks::AppHook;
use crate::consensus::message_handler::{store_vote, with_vote};
use crate::consensus::persistence::{
    failed_attempts, journal_adds, journal_keeps, retry_delay_ms, Halt, PersistentStore, MAX_PERSIST_ATTEMPTS,
};
use crate::consensus::runner::asks::{
    asks_admission, asks_commitment, asks_derivation, asks_execution, asks_payload, asks_preflight,
    asks_seal, asks_state_root, asks_validity, commitment_answer, journal_refuses, journal_takes,
    holds, payload_asked, save_fails, state_root_answer,
};
use crate::consensus::runner::chain::{
    are_roots, byte_limit, journal_pruned, next_or_max, pending_admission_limit, prune_stops, safety_roots,
    successor, BranchError, PendingError,
};
use crate::consensus::runner::views::network_fault;
use crate::consensus::runner::{ConsensusRunner, RunnerView, MAX_PENDING_BLOCKS, MAX_PENDING_BYTES};
use crate::consensus::safety::{Safety, SafetyError, SafetyView};
use crate::consensus::store::{admission, lemma_pruning_keeps_roots, StoreError, StoreView};
use crate::crypto::{
    bls_signature, bls_signature_decodes, bls_verifies, signature_decodes, signature_verifies,
};
use crate::types::block::{
    block_hash, block_views, genesis_block, live_timestamp_ok, well_formed_block, Block, BlockView,
    MAX_BLOCK_TIMESTAMP_STEP_MS,
};
use crate::types::certificate::{copy_option_certificate, option_certificate_eq, CertificateView};
use crate::types::committee::{members_hash, member_of, Committee, CommitteeConfigError, MemberView};
use crate::types::messages::{
    propose_message, ConsensusState, ConsensusStateView, Propose, ProposeView,
};
use crate::types::vote::{Vote, VoteView};

verus! {

/// Why a proposal is refused before the application sees it.
#[derive(Clone, Copy, Debug, PartialEq, Eq)]
pub enum ProposalError {
    /// The proposal or its block belongs to another context.
    Context,
    /// The proposer does not lead the view.
    NotLeader,
    /// The configuration describes no committee.
    Committee(CommitteeConfigError),
    /// The proposer's signature does not verify.
    Signature,
    /// The block is malformed.
    InvalidBlock,
    /// The block is not above the committed height.
    NotAboveCommitted { height: u64, committed: u64 },
    /// The block at the next height does not build on the committed head.
    NotOnHead,
    /// The parent is not connected to the committed head.
    NotConnected,
    /// The parent is not known.
    ParentMissing,
    /// The timestamp is not acceptable.
    Timestamp,
    /// The first block does not build on genesis.
    NotOnGenesis,
    /// The first block carries a certificate.
    UnexpectedQc,
    /// The proposal and its block carry different certificates.
    JustifyMismatch,
    /// A later block carries no certificate.
    MissingQc { height: u64 },
    /// The certificate belongs to another context.
    QcContext,
    /// The certificate is not for the parent.
    QcNotParent,
    /// The height does not follow the parent's.
    HeightGap { height: u64, parent: u64 },
    /// The certificate is of another view than the parent.
    QcView { qc: u64, parent: u64 },
    /// The certificate does not verify.
    Qc(VerifyError),
}

/// The proposer's signature verifies under its key in the committee.
pub open spec fn signature_ok(p: ProposeView, members: Seq<MemberView>) -> bool {
    match member_of(members, p.block.proposer) {
        Some(m) => m.bls_pubkey is Some && p.proposer_signature.len() == 96
            && bls_signature_decodes(p.proposer_signature) && bls_verifies(
            m.bls_pubkey->Some_0,
            propose_message(p.context, p.block),
            p.proposer_signature,
        ),
        None => false,
    }
}

/// Whether the proposer's signature verifies under its key in the committee.
pub fn verify_proposer_signature(propose: &Propose, committee: &Committee) -> (r: bool)
    ensures
        r == signature_ok(propose@, committee.members_view()),
{
    match committee.bls_pubkey(&propose.block.proposer) {
        Some(key) => propose.proposer_signature.len() == 96 && signature_decodes(
            &propose.proposer_signature,
        ) && signature_verifies(key, &propose.signing_data(), &propose.proposer_signature),
        None => false,
    }
}

/// The execution of a block gave what the block names: the application state,
/// the execution commitment and the authenticated state root.
pub open spec fn execution_matches(
    b: BlockView,
    state: Hash32,
    commitment_root: Hash32,
    state_root: Option<Hash32>,
) -> bool {
    commitment_root == b.commitment_root && state == b.app_hash && state_root == Some(b.app_hash)
}

/// Whether the execution of a block gave what the block names.
pub fn accept_execution(
    block: &Block,
    state: &Hash32,
    commitment_root: &Hash32,
    state_root: &Option<Hash32>,
) -> (r: bool)
    ensures
        r == execution_matches(block@, *state, *commitment_root, *state_root),
{
    hash_eq(commitment_root, &block.commitment_root) && hash_eq(state, &block.app_hash)
        && option_hash_eq(state_root, &Some(block.app_hash))
}

/// The durable form of the voting rules and the progress of a node.
pub open spec fn durable_form(
    s: RunnerView,
    safety: SafetyView,
    height: u64,
    hash: Hash32,
) -> ConsensusStateView {
    ConsensusStateView {
        context: s.context,
        high_qc: safety.high_qc,
        locked_qc: safety.locked_qc,
        voted: safety.voted,
        current_view: s.pacemaker.current_view,
        committed_height: height,
        committed_hash: hash,
        consecutive_timeouts: s.pacemaker.consecutive_timeouts,
        vc_sent_for_view: s.pacemaker.vc_sent_for_view,
    }
}

/// The blocks that must stay when a block is admitted, each once.
pub open spec fn is_root_list(safety: SafetyView, b: BlockView, roots: Seq<Hash32>) -> bool {
    roots.no_duplicates() && roots.to_set() == safety_roots(safety, Some(b.parent))
}

/// What the application answers about a proposed block: whether its replay on
/// the parent's branch succeeds, whether there is room for the branch, whether
/// the branch is restored, whether the payload is valid, and what the execution
/// gives. An execution without a commitment, or a failing state root, counts as
/// none.
pub ghost struct Answers {
    pub preflight: bool,
    pub admits: bool,
    pub restores: bool,
    pub valid: bool,
    pub state: Hash32,
    pub commitment_root: Option<Hash32>,
    pub state_root: Option<Option<Hash32>>,
}

/// The application is asked to check and to execute a block on its restored
/// branch, and then what the execution gave.
pub open spec fn execution_asked<A: AppHook>(restored: A, executed: A, block: Block, a: Answers) -> bool {
    &&& asks_validity(restored, block, a.valid)
    &&& a.valid ==> {
        &&& asks_execution(restored, block, a.state)
        &&& asks_commitment(executed, block, a.commitment_root)
        &&& a.commitment_root is Some ==> asks_state_root(executed, block, a.state_root)
    }
}

/// The answers are those that the application gave when it was asked about
/// exactly this block and its branch, as far as it was asked: as it stood, once
/// it had restored the branch, and once it had executed the block.
pub open spec fn asked<A: AppHook>(
    app: A,
    restored: A,
    executed: A,
    s: RunnerView,
    p: ProposeView,
    now: u64,
    roots: Seq<Hash32>,
    a: Answers,
) -> bool {
    let b = p.block;
    let safe = s.prospective(p).check(b, b.app_hash) is Ok;
    let room = s.admission_available(b, roots);
    s.proposal_fault(p, now) is None && s.branch(b.parent) is Ok ==> exists|
        block: Block,
        head: Block,
        ancestors: Vec<Block>,
    |
        {
            &&& block@ == b
            &&& s.branch(b.parent) == Ok::<(BlockView, Seq<BlockView>), BranchError>(
                (head@, block_views(ancestors@)),
            )
            &&& #[trigger] asks_preflight(app, s.context, block, head, ancestors, a.preflight)
            &&& a.preflight && safe && room ==> asks_admission(
                app,
                s.context,
                head,
                ancestors,
                b.parent,
                a.admits,
            )
            &&& s.restore_due(p, now, roots, a) && a.restores ==> execution_asked(
                restored,
                executed,
                block,
                a,
            )
        }
}

/// The durable store of a node, if there is one, takes a block.
pub open spec fn journal_took<P: PersistentStore>(
    s: RunnerView,
    b: BlockView,
    block_bytes: usize,
    roots: Seq<Hash32>,
) -> bool {
    s.durable ==> exists|store: P, block: Block|
        holds(store, s) && block@ == b && #[trigger] journal_takes(
            store,
            block,
            block_bytes,
            roots,
            RunnerView::pending_limit(b),
            byte_limit(b),
        )
}

/// What a durable store was asked when a vote was due: it took the block, kept
/// the vote and was pruned; where it decides what comes of the vote, it failed:
/// it has no place for the block, does not keep the vote, or cannot be pruned.
pub open spec fn store_decides<P: PersistentStore>(
    s: RunnerView,
    p: ProposeView,
    block_bytes: usize,
    r: Result<Option<VoteView>, Halt>,
    after: RunnerView,
) -> bool {
    let b = p.block;
    &&& !(r matches Ok(None)) ==> exists|roots: Seq<Hash32>|
        is_root_list(s.prospective(p), b, roots) && #[trigger] journal_took::<P>(
            s,
            b,
            block_bytes,
            roots,
        )
    &&& match r {
        Ok(Some(_)) => exists|mid: RunnerView, roots: Seq<Hash32>|
            {
                &&& mid == (RunnerView { store: mid.store, rows: mid.rows, ..after })
                &&& are_roots(mid, Some(block_hash(b)), roots)
                &&& #[trigger] journal_pruned::<P>(
                    mid,
                    roots,
                    MAX_PENDING_BLOCKS,
                    MAX_PENDING_BYTES,
                )
            },
        Ok(None) => exists|store: P, block: Block, roots: Seq<Hash32>|
            {
                &&& holds(store, s)
                &&& block@ == b
                &&& is_root_list(s.prospective(p), b, roots)
                &&& #[trigger] journal_refuses(
                    store,
                    block,
                    block_bytes,
                    roots,
                    RunnerView::pending_limit(b),
                    byte_limit(b),
                )
            },
        Err(Halt::VoteNotPersisted { .. }) => exists|store: P|
            {
                &&& holds(store, (RunnerView { rows: after.rows, ..s }))
                &&& #[trigger] save_fails(
                    store,
                    durable_form(
                        s,
                        s.prospective(p).after_vote(b.view),
                        s.committed_height,
                        s.committed_hash,
                    ),
                )
            },
        Err(Halt::Prune) => exists|mid: RunnerView, roots: Seq<Hash32>, order: Seq<Hash32>|
            {
                &&& mid == (RunnerView { rows: mid.rows, ..after })
                &&& are_roots(mid, Some(block_hash(b)), roots)
                &&& mid.store.is_pruning_order(roots, order)
                &&& #[trigger] prune_stops::<P>(
                    mid,
                    roots,
                    order,
                    MAX_PENDING_BLOCKS,
                    MAX_PENDING_BYTES,
                )
            },
        Err(_) => true,
    }
}

/// A vote is due for a proposal whose block was executed: it is safe, there is
/// room, and the execution gave what the block names.
pub open spec fn vote_due(
    s: RunnerView,
    p: ProposeView,
    state: Hash32,
    commitment_root: Hash32,
    state_root: Option<Hash32>,
) -> bool {
    let b = p.block;
    &&& s.prospective(p).check(b, b.app_hash) is Ok
    &&& s.pending_fault(b) is None
    &&& execution_matches(b, state, commitment_root, state_root)
}

/// The block of a hash is in the cache, and in the durable journal if there is
/// one.
pub open spec fn in_journals(s: RunnerView, h: Hash32) -> bool {
    s.store.blocks.contains_key(h) && (s.durable ==> s.rows.contains_key(h))
}

/// What the application answers about a draft that it is to execute: whether
/// the payload is valid, the state after the execution, the execution
/// commitment, whether the final form is taken, and the commitment and the state
/// root of the final form. A failure counts as none.
pub ghost struct SealAnswers {
    pub valid: bool,
    pub state: Hash32,
    pub derived: Option<Hash32>,
    pub sealed: bool,
    pub commitment_root: Option<Hash32>,
    pub state_root: Option<Option<Hash32>>,
}

/// What the application answers about the block that it helps a leader to
/// draft: whether the branch of the parent is restored, the payload, whether
/// the replay on the branch succeeds and there is room for one block more,
/// whether the branch is restored with that room, and what it makes of the
/// draft.
pub ghost struct DraftAnswers {
    pub restored: bool,
    pub payload: Seq<u8>,
    pub preflight: bool,
    pub admits: bool,
    pub room_restored: bool,
    pub made: SealAnswers,
}

/// A draft with the state that its execution gave.
pub open spec fn executed_draft(draft: BlockView, m: SealAnswers) -> BlockView {
    BlockView { app_hash: m.state, ..draft }
}

/// A draft in its final form.
pub open spec fn sealed_draft(draft: BlockView, m: SealAnswers) -> BlockView {
    BlockView { app_hash: m.state, commitment_root: m.derived->Some_0, ..draft }
}

/// What comes of executing and sealing a draft, given the answers.
pub open spec fn seal_result(draft: BlockView, m: SealAnswers) -> Result<BlockView, LeaderError> {
    if !m.valid {
        Err(LeaderError::Refused)
    } else if m.derived is None || !m.sealed || m.commitment_root != m.derived {
        Err(LeaderError::Commitment)
    } else if m.state_root != Some(Some(m.state)) {
        Err(LeaderError::StateRoot)
    } else {
        Ok(sealed_draft(draft, m))
    }
}

/// The application is asked about the final form of a draft: to take it, and
/// once it has, for the commitment and the state root.
pub open spec fn sealing_asked<A: AppHook>(executed: A, sealed: A, last: Block, m: SealAnswers) -> bool {
    &&& asks_seal(executed, last, m.sealed)
    &&& m.sealed ==> {
        &&& asks_commitment(sealed, last, m.commitment_root)
        &&& m.commitment_root == m.derived ==> asks_state_root(sealed, last, m.state_root)
    }
}

/// The application, with room made for a draft, is asked to check the draft and
/// to execute it, once it has to derive its execution commitment, and then about
/// the final form.
pub open spec fn drafting_asked<A: AppHook>(
    app: A,
    executed: A,
    sealed: A,
    draft: Block,
    m: SealAnswers,
) -> bool {
    &&& asks_validity(app, draft, m.valid)
    &&& m.valid ==> {
        &&& asks_execution(app, draft, m.state)
        &&& exists|made: Block|
            made@ == executed_draft(draft@, m) && #[trigger] asks_derivation(
                executed,
                made,
                m.derived,
            )
        &&& m.derived is Some ==> exists|last: Block|
            last@ == sealed_draft(draft@, m) && #[trigger] sealing_asked(executed, sealed, last, m)
    }
}

/// The answers about a draft are those that the application gave when it was
/// asked about exactly this block and its branch, as far as it was asked: once
/// it had restored the branch, restored it with room for the draft, executed the
/// draft, and taken its final form.
pub open spec fn draft_asked<A: AppHook>(
    restored: A,
    roomy: A,
    executed: A,
    sealed: A,
    s: RunnerView,
    view: u64,
    now: u64,
    a: DraftAnswers,
    after: RunnerView,
) -> bool {
    let parent = block_hash(s.proposal_parent());
    let b = s.draft(view, now, a);
    let safe = b.justify is Some ==> s.safety.check(b, zero_hash()) is Ok;
    let room = s.admission_available(b, seq![parent]);
    s.branch(parent) is Ok && a.restored ==> {
        &&& payload_asked(restored, s.proposal_parent(), a.payload)
        &&& exists|draft: Block, head: Block, ancestors: Vec<Block>|
            {
                &&& draft@ == b
                &&& s.branch(parent) == Ok::<(BlockView, Seq<BlockView>), BranchError>(
                    (head@, block_views(ancestors@)),
                )
                &&& #[trigger] asks_preflight(
                    restored,
                    s.context,
                    draft,
                    head,
                    ancestors,
                    a.preflight,
                )
                &&& a.preflight && safe && room ==> asks_admission(
                    restored,
                    s.context,
                    head,
                    ancestors,
                    parent,
                    a.admits,
                )
                &&& s.room_due(view, now, a, after) && a.room_restored ==> drafting_asked(
                    roomy,
                    executed,
                    sealed,
                    draft,
                    a.made,
                )
            }
    }
}

/// The contents of a drafted block.
pub open spec fn draft_result(r: Result<Block, LeaderError>) -> Result<BlockView, LeaderError> {
    match r {
        Ok(b) => Ok(b@),
        Err(e) => Err(e),
    }
}

/// The result of a vote, as contents.
pub open spec fn vote_result(r: Result<Option<Vote>, Halt>) -> Result<Option<VoteView>, Halt> {
    match r {
        Ok(Some(v)) => Ok(Some(v@)),
        Ok(None) => Ok(None),
        Err(h) => Err(h),
    }
}

impl RunnerView {
    /// Why the place of a proposal in the chain, or its certificate, is
    /// refused.
    pub open spec fn qc_fault(self, p: ProposeView, now: u64) -> Option<ProposalError> {
        let b = p.block;
        let parent = self.known_at(b.parent);
        if b.context != self.context {
            Some(ProposalError::Context)
        } else if !well_formed_block(b) {
            Some(ProposalError::InvalidBlock)
        } else if p.context != self.context {
            Some(ProposalError::Context)
        } else if b.height <= self.committed_height {
            Some(
                ProposalError::NotAboveCommitted {
                    height: b.height,
                    committed: self.committed_height,
                },
            )
        } else if b.height == next_or_max(self.committed_height) && b.parent != self.committed_hash {
            Some(ProposalError::NotOnHead)
        } else if b.height != next_or_max(self.committed_height) && !self.connected(b.parent) {
            Some(ProposalError::NotConnected)
        } else if b.height != 1 && parent is None {
            Some(ProposalError::ParentMissing)
        } else if !live_timestamp_ok(
            b.timestamp,
            if b.height == 1 {
                0
            } else {
                parent->Some_0.timestamp
            },
            now,
        ) {
            Some(ProposalError::Timestamp)
        } else if b.height == 1 {
            if b.parent != block_hash(genesis_block(self.context)) {
                Some(ProposalError::NotOnGenesis)
            } else if p.justify is Some || b.justify is Some {
                Some(ProposalError::UnexpectedQc)
            } else {
                None
            }
        } else if p.justify != b.justify {
            Some(ProposalError::JustifyMismatch)
        } else {
            match p.justify {
                None => Some(ProposalError::MissingQc { height: b.height }),
                Some(qc) => if qc.context != self.context {
                    Some(ProposalError::QcContext)
                } else if qc.block_hash != b.parent {
                    Some(ProposalError::QcNotParent)
                } else if b.height != next_or_max(parent->Some_0.height) {
                    Some(
                        ProposalError::HeightGap {
                            height: b.height,
                            parent: parent->Some_0.height,
                        },
                    )
                } else if qc.view != parent->Some_0.view {
                    Some(ProposalError::QcView { qc: qc.view, parent: parent->Some_0.view })
                } else if self.config.fault() is Some {
                    Some(ProposalError::Committee(self.config.fault()->Some_0))
                } else {
                    match certificate_check(
                        self.config.members(),
                        qc,
                        self.context,
                        parent->Some_0.view,
                        b.parent,
                        Some(parent->Some_0.app_hash),
                        self.config.keyed(),
                    ) {
                        Ok(()) => None,
                        Err(e) => Some(ProposalError::Qc(e)),
                    }
                },
            }
        }
    }

    /// Why a proposal is refused before the application sees it.
    pub open spec fn proposal_fault(self, p: ProposeView, now: u64) -> Option<ProposalError> {
        if p.context != self.context || p.block.context != self.context {
            Some(ProposalError::Context)
        } else if p.block.proposer != self.config.leader(p.block.view) {
            Some(ProposalError::NotLeader)
        } else if self.config.keyed() && self.config.fault() is Some {
            Some(ProposalError::Committee(self.config.fault()->Some_0))
        } else if self.config.keyed() && !signature_ok(p, self.config.members()) {
            Some(ProposalError::Signature)
        } else {
            self.qc_fault(p, now)
        }
    }

    /// The voting rules once the certificate of a proposal is taken into
    /// account.
    pub open spec fn prospective(self, p: ProposeView) -> SafetyView {
        match p.justify {
            Some(qc) => self.safety.after_high_qc(qc),
            None => self.safety,
        }
    }

    /// The node's vote on a block.
    pub open spec fn vote_on(self, b: BlockView) -> VoteView {
        own_vote(self.config, self.context, b.view, block_hash(b), b.app_hash)
    }

    /// What a vote for a proposal takes and does: the proposal is valid and
    /// safe, the vote is on exactly its block, it is recorded, and it is
    /// durable if anything is.
    pub open spec fn votes(self, p: ProposeView, now: u64, after: RunnerView, vote: VoteView) -> bool {
        &&& self.proposal_fault(p, now) is None
        &&& self.branch(p.block.parent) is Ok
        &&& self.prospective(p).check(p.block, p.block.app_hash) is Ok
        &&& vote == self.vote_on(p.block)
        &&& after.safety == self.prospective(p).after_vote(p.block.view)
        &&& after.pending.contains_key(block_hash(p.block))
        &&& after.pending[block_hash(p.block)] == p.block
        &&& in_journals(after, block_hash(p.block))
        &&& self.durable ==> after.durable_state == Some(
            durable_form(self, after.safety, self.committed_height, self.committed_hash),
        )
        &&& few_failures(self, after)
        &&& same_progress(self, after)
    }

    /// The cache has no room for the block of a proposal.
    pub open spec fn cache_refuses(self, p: ProposeView, block_bytes: usize) -> bool {
        exists|roots: Seq<Hash32>, f: StoreError|
            #![trigger is_root_list(self.prospective(p), p.block, roots), admission(
                self.store,
                self.store,
                Err(f),
                p.block,
                block_bytes,
                roots,
                RunnerView::pending_limit(p.block),
                byte_limit(p.block),
            )]
            is_root_list(self.prospective(p), p.block, roots) && admission(
                self.store,
                self.store,
                Err(f),
                p.block,
                block_bytes,
                roots,
                RunnerView::pending_limit(p.block),
                byte_limit(p.block),
            )
    }

    /// The block of a proposal was admitted to the journals.
    pub open spec fn admits(self, p: ProposeView, block_bytes: usize, after: RunnerView) -> bool {
        exists|admitted: Seq<Hash32>|
            is_root_list(self.prospective(p), p.block, admitted) && #[trigger] journals(
                self,
                admitted,
                p.block,
                block_bytes,
                after,
            )
    }

    /// What comes of a proposal whose block was executed, given what the
    /// execution returned. A vote is refused without a change if it would be
    /// unsafe, if there is no room or if the execution gave something else.
    /// Else a node without durable storage votes, or stops because its cache
    /// has no room; a durable store may also refuse the block, which leaves
    /// everything as it was, or fail. A vote is handed out only once the block
    /// is in the journals and the vote is durable.
    pub open spec fn concludes(
        self,
        p: ProposeView,
        block_bytes: usize,
        state: Hash32,
        commitment_root: Hash32,
        state_root: Option<Hash32>,
        r: Result<Option<VoteView>, Halt>,
        after: RunnerView,
    ) -> bool {
        let b = p.block;
        if !vote_due(self, p, state, commitment_root, state_root) {
            r == Ok::<Option<VoteView>, Halt>(None) && after == self
        } else {
            &&& same_progress(self, after)
            &&& match r {
                Ok(Some(vote)) => {
                    &&& vote == self.vote_on(b)
                    &&& after.safety == self.prospective(p).after_vote(b.view)
                    &&& after.pending == self.pending.insert(block_hash(b), b)
                    &&& in_journals(after, block_hash(b))
                    &&& exists|admitted: Seq<Hash32>, mid: RunnerView|
                        #![trigger journals(self, admitted, b, block_bytes, mid)]
                        {
                            &&& is_root_list(self.prospective(p), b, admitted)
                            &&& journals(self, admitted, b, block_bytes, mid)
                            &&& mid == (RunnerView { store: mid.store, rows: mid.rows, ..after })
                            &&& exists|roots: Seq<Hash32>, order: Seq<Hash32>| #[trigger]
                                pruned_around(mid, block_hash(b), roots, order, after)
                        }
                    &&& self.durable ==> after.durable_state == Some(
                        durable_form(self, after.safety, self.committed_height, self.committed_hash),
                    )
                    &&& few_failures(self, after)
                },
                Ok(None) => self.durable && after == self,
                Err(h) => {
                    let voted = self.prospective(p).after_vote(b.view);
                    let kept = if self.durable {
                        Some(durable_form(self, voted, self.committed_height, self.committed_hash))
                    } else {
                        self.durable_state
                    };
                    match h {
                        Halt::CacheMirror => {
                            &&& self.cache_refuses(p, block_bytes)
                            &&& after == (RunnerView { rows: after.rows, ..self })
                            &&& if self.durable {
                                journal_adds(self.rows, after.rows, b)
                            } else {
                                after.rows == self.rows
                            }
                        },
                        Halt::VoteNotPersisted { view } => {
                            &&& self.durable
                            &&& view == b.view
                            &&& self.admits(p, block_bytes, after)
                            &&& in_journals(after, block_hash(b))
                            &&& after.durable_state == self.durable_state || after.durable_state
                                == kept
                            &&& after == (RunnerView {
                                store: after.store,
                                rows: after.rows,
                                durable_state: after.durable_state,
                                attempts: self.attempts + failed_attempts(
                                    MAX_PERSIST_ATTEMPTS as nat,
                                ),
                                ..self
                            })
                        },
                        Halt::Prune => {
                            &&& exists|mid: RunnerView| #[trigger]
                                self.admits(p, block_bytes, mid) && after.store == mid.store
                            &&& after == (RunnerView {
                                safety: voted,
                                pending: self.pending.insert(block_hash(b), b),
                                durable_state: kept,
                                attempts: after.attempts,
                                store: after.store,
                                rows: after.rows,
                                ..self
                            })
                            &&& few_failures(self, after)
                        },
                        _ => false,
                    }
                },
            }
        }
    }

    /// The runner once room was made for the block of a proposal.
    pub open spec fn room_made(self, b: BlockView, roots: Seq<Hash32>) -> RunnerView {
        if self.pending.dom().len() >= RunnerView::pending_limit(b) {
            self.pending_pruned(roots)
        } else {
            self
        }
    }

    /// What comes of a proposal, given what the application answers about it.
    /// A proposal that is refused on the way leaves at most room behind; one
    /// that passes all questions is concluded with what its execution gave.
    pub open spec fn considers(
        self,
        p: ProposeView,
        block_bytes: usize,
        now: u64,
        roots: Seq<Hash32>,
        a: Answers,
        r: Result<Option<VoteView>, Halt>,
        after: RunnerView,
    ) -> bool {
        let b = p.block;
        let room = self.room_made(b, roots);
        if self.proposal_fault(p, now) is Some || self.branch(b.parent) is Err || !a.preflight
            || self.prospective(p).check(b, b.app_hash) is Err || !self.admission_available(b, roots)
            || !a.admits {
            r == Ok::<Option<VoteView>, Halt>(None) && after == self
        } else if room.pending_fault(b) is Some || !a.restores || !a.valid || a.commitment_root is None
            || a.state_root is None {
            r == Ok::<Option<VoteView>, Halt>(None) && after == room
        } else {
            room.concludes(
                p,
                block_bytes,
                a.state,
                a.commitment_root->Some_0,
                a.state_root->Some_0,
                r,
                after,
            )
        }
    }

    /// The application has to restore the branch of a proposal.
    pub open spec fn restore_due(self, p: ProposeView, now: u64, roots: Seq<Hash32>, a: Answers) -> bool {
        let b = p.block;
        &&& self.proposal_fault(p, now) is None
        &&& self.branch(b.parent) is Ok
        &&& a.preflight
        &&& self.prospective(p).check(b, b.app_hash) is Ok
        &&& self.admission_available(b, roots)
        &&& a.admits
        &&& self.room_made(b, roots).pending_fault(b) is None
    }

    /// The application has to execute the block of a proposal.
    pub open spec fn execution_due(self, p: ProposeView, now: u64, roots: Seq<Hash32>, a: Answers) -> bool {
        self.restore_due(p, now, roots, a) && a.restores && a.valid
    }

    /// A proposal passes all questions, so that only the journals and the
    /// durable store are left to decide.
    pub open spec fn passes(self, p: ProposeView, now: u64, roots: Seq<Hash32>, a: Answers) -> bool {
        let b = p.block;
        &&& self.proposal_fault(p, now) is None
        &&& self.branch(b.parent) is Ok
        &&& a.preflight
        &&& self.admission_available(b, roots)
        &&& a.admits
        &&& a.restores
        &&& a.valid
        &&& a.commitment_root is Some
        &&& a.state_root is Some
        &&& vote_due(
            self.room_made(b, roots),
            p,
            a.state,
            a.commitment_root->Some_0,
            a.state_root->Some_0,
        )
    }

    /// The certificate that a leader's block carries.
    pub open spec fn own_justify(self) -> Option<CertificateView> {
        match self.connected_high_qc() {
            Some(qc) => if qc.block_hash == block_hash(self.proposal_parent()) {
                Some(qc)
            } else {
                None
            },
            None => None,
        }
    }

    /// The timestamp of a leader's block: the time, but not before the
    /// parent's nor more than a step after it.
    pub open spec fn own_timestamp(self, now: u64) -> u64 {
        let parent = self.proposal_parent();
        if parent.height == 0 {
            now
        } else if now < parent.timestamp {
            parent.timestamp
        } else if now > parent.timestamp + MAX_BLOCK_TIMESTAMP_STEP_MS {
            (parent.timestamp + MAX_BLOCK_TIMESTAMP_STEP_MS) as u64
        } else {
            now
        }
    }

    /// The leader's block before its execution.
    pub open spec fn draft(self, view: u64, now: u64, a: DraftAnswers) -> BlockView {
        self.own_block(view, a.payload, zero_hash(), zero_hash(), now)
    }

    /// Why a draft goes no further before room is made for it.
    pub open spec fn draft_fault(self, view: u64, now: u64, a: DraftAnswers) -> Option<LeaderError> {
        let parent = block_hash(self.proposal_parent());
        let draft = self.draft(view, now, a);
        let check = self.safety.check(draft, zero_hash());
        if self.branch(parent) is Err {
            Some(LeaderError::Branch(self.branch(parent)->Err_0))
        } else if !a.restored {
            Some(LeaderError::Restore)
        } else if !a.preflight {
            Some(LeaderError::Refused)
        } else if draft.justify is Some && check is Err {
            Some(LeaderError::Unsafe(check->Err_0))
        } else if !self.admission_available(draft, seq![parent]) {
            Some(LeaderError::NoRoom)
        } else if !a.admits {
            Some(LeaderError::Restore)
        } else {
            None
        }
    }

    /// The application has to restore the branch of the parent with room for a
    /// draft.
    pub open spec fn room_due(self, view: u64, now: u64, a: DraftAnswers, after: RunnerView) -> bool {
        self.draft_fault(view, now, a) is None && after.pending_fault(self.draft(view, now, a)) is None
    }

    /// The application has to execute a draft.
    pub open spec fn drafting_due(self, view: u64, now: u64, a: DraftAnswers, after: RunnerView) -> bool {
        self.room_due(view, now, a, after) && a.room_restored && a.made.valid
    }

    /// Room is made for a draft: if there are too many pending blocks, those
    /// that nothing depends on are dropped.
    pub open spec fn draft_room(self, draft: BlockView, after: RunnerView) -> bool {
        if self.pending.dom().len() >= RunnerView::pending_limit(draft) {
            exists|roots: Seq<Hash32>| #[trigger]
                are_roots(self, Some(draft.parent), roots) && after == self.pending_pruned(roots)
        } else {
            after == self
        }
    }

    /// What comes of drafting a block, given what the application answers.
    pub open spec fn drafts(
        self,
        view: u64,
        now: u64,
        a: DraftAnswers,
        r: Result<BlockView, LeaderError>,
        after: RunnerView,
    ) -> bool {
        let draft = self.draft(view, now, a);
        match self.draft_fault(view, now, a) {
            Some(e) => r == Err::<BlockView, LeaderError>(e) && after == self,
            None => {
                &&& self.draft_room(draft, after)
                &&& r == (if after.pending_fault(draft) is Some {
                    Err::<BlockView, LeaderError>(
                        LeaderError::Capacity(after.pending_fault(draft)->Some_0),
                    )
                } else if !a.room_restored {
                    Err(LeaderError::Restore)
                } else {
                    seal_result(draft, a.made)
                })
            },
        }
    }

    /// The leader's proposal of a block, signed if it has a key.
    pub open spec fn own_proposal(self, b: BlockView) -> ProposeView {
        ProposeView {
            context: self.context,
            block: b,
            justify: b.justify,
            proposer_signature: match self.config.bls_secret_key {
                Some(seed) => bls_signature(seed@, propose_message(self.context, b)),
                None => Seq::empty(),
            },
        }
    }

    /// The block that the leader of a view proposes, given the application's
    /// payload, state and commitment and the time.
    pub open spec fn own_block(
        self,
        view: u64,
        payload: Seq<u8>,
        app_hash: Hash32,
        commitment_root: Hash32,
        now: u64,
    ) -> BlockView {
        let parent = self.proposal_parent();
        BlockView {
            context: self.context,
            view,
            height: (parent.height + 1) as u64,
            parent: block_hash(parent),
            payload,
            proposer: self.config.node_id,
            commitment_root,
            app_hash,
            timestamp: self.own_timestamp(now),
            justify: self.own_justify(),
        }
    }
}

/// Two states agree on all but the voting rules, the pending blocks, the
/// journals and what is durable.
pub open spec fn same_progress(a: RunnerView, b: RunnerView) -> bool {
    b == (RunnerView {
        safety: b.safety,
        pending: b.pending,
        store: b.store,
        rows: b.rows,
        durable_state: b.durable_state,
        attempts: b.attempts,
        ..a
    })
}

/// Fewer writes failed than make a node stop. After each of them the durable
/// store waited.
pub open spec fn few_failures(a: RunnerView, b: RunnerView) -> bool {
    exists|n: nat|
        n < MAX_PERSIST_ATTEMPTS && (n > 0 ==> a.durable) && b.attempts == a.attempts
            + #[trigger] failed_attempts(n)
}

/// The blocks that must stay can be listed.
proof fn lemma_root_list(safety: SafetyView, b: BlockView) -> (roots: Seq<Hash32>)
    ensures
        is_root_list(safety, b, roots),
{
    let first = seq![b.parent];
    let second = match safety.high_qc {
        Some(qc) => if first.contains(qc.block_hash) {
            first
        } else {
            first.push(qc.block_hash)
        },
        None => first,
    };
    let third = match safety.locked_qc {
        Some(qc) => if second.contains(qc.block_hash) {
            second
        } else {
            second.push(qc.block_hash)
        },
        None => second,
    };
    assert(first[0] == b.parent);
    if let Some(qc) = safety.high_qc {
        crate::bytes::lemma_push_set(first, qc.block_hash);
    }
    if let Some(qc) = safety.locked_qc {
        crate::bytes::lemma_push_set(second, qc.block_hash);
    }
    assert(first.to_set() =~= Set::empty().insert(b.parent));
    assert forall|h: Hash32| second.contains(h) <==> second.to_set().contains(h) by {}
    assert(third.to_set() =~= safety_roots(safety, Some(b.parent)));
    third
}

/// What the admission of a block to both journals does: the cache follows its
/// rules, and the durable journal, if there is one, holds the block.
pub open spec fn journals(
    s: RunnerView,
    roots: Seq<Hash32>,
    b: BlockView,
    block_bytes: usize,
    after: RunnerView,
) -> bool {
    &&& admission(
        s.store,
        after.store,
        Ok(()),
        b,
        block_bytes,
        roots,
        RunnerView::pending_limit(b),
        byte_limit(b),
    )
    &&& if s.durable {
        journal_adds(s.rows, after.rows, b)
    } else {
        after.rows == s.rows
    }
}

/// What pruning the journals around a block does: the cache drops what nothing
/// depends on, and the durable journal drops no root.
pub open spec fn pruned_around(
    s: RunnerView,
    h: Hash32,
    roots: Seq<Hash32>,
    order: Seq<Hash32>,
    after: RunnerView,
) -> bool {
    &&& are_roots(s, Some(h), roots)
    &&& s.store.is_pruning_order(roots, order)
    &&& s.store.pruned(roots, order, MAX_PENDING_BLOCKS, MAX_PENDING_BYTES) == Ok::<
        StoreView,
        StoreError,
    >(after.store)
    &&& journal_keeps(s.rows, after.rows, roots)
    &&& !s.durable ==> after.rows == s.rows
    &&& after == (RunnerView { store: after.store, rows: after.rows, ..s })
}

/// What pruning the journals around a block does, if it succeeds, and why it
/// fails.
pub open spec fn prunes_around<P: PersistentStore>(
    s: RunnerView,
    h: Hash32,
    roots: Seq<Hash32>,
    order: Seq<Hash32>,
    r: Result<(), Halt>,
    after: RunnerView,
) -> bool {
    match r {
        Ok(()) => pruned_around(s, h, roots, order, after) && journal_pruned::<P>(
            s,
            roots,
            MAX_PENDING_BLOCKS,
            MAX_PENDING_BYTES,
        ),
        Err(_) => are_roots(s, Some(h), roots) && s.store.is_pruning_order(roots, order)
            && prune_stops::<P>(s, roots, order, MAX_PENDING_BLOCKS, MAX_PENDING_BYTES),
    }
}

/// A block stays in the journals when they are pruned around it.
proof fn lemma_pruned_journals<P: PersistentStore>(
    s: RunnerView,
    h: Hash32,
    r: Result<(), Halt>,
    after: RunnerView,
)
    requires
        exists|roots: Seq<Hash32>, order: Seq<Hash32>|
            #![trigger are_roots(s, Some(h), roots), s.store.is_pruning_order(roots, order)]
            prunes_around::<P>(s, h, roots, order, r, after),
        s.durable == after.durable,
    ensures
        r is Ok && in_journals(s, h) ==> in_journals(after, h),
        r is Ok ==> exists|roots: Seq<Hash32>, order: Seq<Hash32>| #[trigger]
            pruned_around(s, h, roots, order, after) && journal_pruned::<P>(
                s,
                roots,
                MAX_PENDING_BLOCKS,
                MAX_PENDING_BYTES,
            ),
        r is Err ==> exists|roots: Seq<Hash32>, order: Seq<Hash32>|
            {
                &&& are_roots(s, Some(h), roots)
                &&& s.store.is_pruning_order(roots, order)
                &&& #[trigger] prune_stops::<P>(s, roots, order, MAX_PENDING_BLOCKS, MAX_PENDING_BYTES)
            },
{
    let (roots, order) = choose|roots: Seq<Hash32>, order: Seq<Hash32>|
        #![trigger are_roots(s, Some(h), roots), s.store.is_pruning_order(roots, order)]
        prunes_around::<P>(s, h, roots, order, r, after);
    assert(roots.to_set().contains(h));
    assert(roots.contains(h));
    if r is Ok {
        assert(pruned_around(s, h, roots, order, after));
        lemma_pruning_keeps_roots(s.store, roots, order, MAX_PENDING_BLOCKS, MAX_PENDING_BYTES);
    }
}

/// The runner may have dropped pending blocks that nothing depends on, and
/// nothing else.
pub open spec fn at_most_pruned(a: RunnerView, b: RunnerView) -> bool {
    &&& b == (RunnerView { pending: b.pending, ..a })
    &&& b.pending.submap_of(a.pending)
}

/// A node that voted for a proposal refuses every other proposal of that view.
pub proof fn lemma_one_vote_per_view(
    s: RunnerView,
    p: ProposeView,
    now: u64,
    after: RunnerView,
    vote: VoteView,
    q: ProposeView,
    later: u64,
)
    requires
        s.votes(p, now, after, vote),
        q.block.view == p.block.view,
    ensures
        after.prospective(q).check(q.block, q.block.app_hash) is Err,
{
    assert(after.safety.voted.contains(p.block.view));
    if let Some(qc) = q.justify {
        assert(after.safety.after_high_qc(qc).voted == after.safety.voted);
    }
}

/// A vote that was cast is part of what a restart finds.
pub proof fn lemma_vote_is_durable(s: RunnerView, p: ProposeView, now: u64, after: RunnerView, vote: VoteView)
    requires
        s.votes(p, now, after, vote),
        s.durable,
    ensures
        after.durable_state is Some,
        after.durable_state->Some_0.voted.contains(p.block.view),
        after.durable_state->Some_0.voted == after.safety.voted,
{
}

/// What a leader proposes: its own block of the view, at the height after its
/// parent's, with the certificate of that parent or none, and with the state and
/// the execution commitment that the application gave for exactly this block.
pub proof fn lemma_drafted_proposal<A: AppHook>(
    restored: A,
    roomy: A,
    executed: A,
    sealed: A,
    s: RunnerView,
    view: u64,
    now: u64,
    a: DraftAnswers,
    b: BlockView,
    after: RunnerView,
)
    requires
        s.proposal_parent().height < u64::MAX,
        draft_asked(restored, roomy, executed, sealed, s, view, now, a, after),
        s.drafts(view, now, a, Ok(b), after),
    ensures
        b.view == view,
        b.context == s.context,
        b.proposer == s.config.node_id,
        b.parent == block_hash(s.proposal_parent()),
        b.height == s.proposal_parent().height + 1,
        s.proposal_parent().height == 0 ==> b.timestamp == now,
        s.proposal_parent().height > 0 ==> {
            let first = s.proposal_parent().timestamp;
            &&& first <= now <= first + 60_000 ==> b.timestamp == now
            &&& now < first ==> b.timestamp == first
            &&& now > first + 60_000 ==> b.timestamp == first + 60_000
        },
        b.payload == a.payload,
        b.justify == s.own_justify(),
        b.justify matches Some(qc) ==> qc.block_hash == b.parent,
        exists|last: Block|
            {
                &&& last@ == b
                &&& #[trigger] asks_state_root(sealed, last, Some(Some(b.app_hash)))
                &&& asks_commitment(sealed, last, Some(b.commitment_root))
            },
{
    let m = a.made;
    let draft_view = s.draft(view, now, a);
    assert(sealed_draft(draft_view, m) == b);
    assert(exists|draft: Block| draft@ == draft_view && #[trigger] drafting_asked(
        roomy,
        executed,
        sealed,
        draft,
        m,
    ));
    let draft = choose|draft: Block|
        draft@ == draft_view && #[trigger] drafting_asked(roomy, executed, sealed, draft, m);
    let last = choose|last: Block|
        last@ == sealed_draft(draft@, m) && #[trigger] sealing_asked(executed, sealed, last, m);
    assert(asks_state_root(sealed, last, Some(Some(b.app_hash))));
    assert(asks_commitment(sealed, last, Some(b.commitment_root)));
}

/// A leader's block is a valid place to continue: its timestamp follows the
/// parent's, and with a certificate it carries that of its parent.
pub proof fn lemma_own_block(
    s: RunnerView,
    view: u64,
    payload: Seq<u8>,
    app_hash: Hash32,
    commitment_root: Hash32,
    now: u64,
)
    requires
        s.proposal_parent().timestamp <= u64::MAX - MAX_BLOCK_TIMESTAMP_STEP_MS,
    ensures
        ({
            let b = s.own_block(view, payload, app_hash, commitment_root, now);
            let parent = s.proposal_parent();
            &&& parent.height > 0 ==> crate::types::block::parent_timestamp_ok(
                b.timestamp,
                parent.timestamp,
            )
            &&& b.justify is Some ==> b.justify->Some_0.block_hash == b.parent
        }),
{
}

/// Why a leader does not propose.
#[derive(Clone, Copy, Debug, PartialEq, Eq)]
pub enum LeaderError {
    /// The branch of the parent cannot be loaded.
    Branch(BranchError),
    /// The application cannot restore the branch of the parent.
    Restore,
    /// The application refuses the block.
    Refused,
    /// Voting for the block would be unsafe.
    Unsafe(SafetyError),
    /// There is no room for another pending block.
    NoRoom,
    /// There is no room for another pending block.
    Capacity(PendingError),
    /// The application gives no execution commitment, or another one once the
    /// block is sealed.
    Commitment,
    /// The application gives another state root.
    StateRoot,
    /// The configuration describes no committee.
    Committee(CommitteeConfigError),
    /// The node's own vote does not verify.
    OwnVote(VerifyError),
    /// The journal has no room for the block.
    Journal,
    /// The node has to stop.
    Halted(Halt),
}

impl<A: AppHook, P: PersistentStore> ConsensusRunner<A, P> {
    /// Checks the place of a proposal in the chain, its timestamp and its
    /// certificate.
    pub fn verify_proposal_qc(&self, propose: &Propose, now: u64) -> (r: Result<(), ProposalError>)
        requires
            self.wf(),
        ensures
            match r {
                Ok(()) => self.state().qc_fault(propose@, now) is None,
                Err(e) => self.state().qc_fault(propose@, now) == Some(e),
            },
    {
        let b = &propose.block;
        if b.validate_context(self.context).is_err() {
            return Err(ProposalError::Context);
        }
        if b.validate().is_err() {
            return Err(ProposalError::InvalidBlock);
        }
        if propose.validate_context(self.context).is_err() {
            return Err(ProposalError::Context);
        }
        if b.height <= self.committed_height {
            return Err(
                ProposalError::NotAboveCommitted {
                    height: b.height,
                    committed: self.committed_height,
                },
            );
        }
        if b.height == successor(self.committed_height) {
            if !hash_eq(&b.parent, &self.committed_hash) {
                return Err(ProposalError::NotOnHead);
            }
        } else if !self.is_chain_connected_to_committed_head(&b.parent) {
            return Err(ProposalError::NotConnected);
        }
        let parent = self.known_block(&b.parent);
        let parent_timestamp: u64 = if b.height == 1 {
            0
        } else {
            match &parent {
                Some(p) => p.timestamp,
                None => {
                    return Err(ProposalError::ParentMissing);
                },
            }
        };
        if b.validate_live_timestamp(parent_timestamp, now).is_err() {
            return Err(ProposalError::Timestamp);
        }
        if b.height == 1 {
            if !hash_eq(&b.parent, &Block::genesis(self.context).hash()) {
                return Err(ProposalError::NotOnGenesis);
            }
            if propose.justify.is_some() || b.justify.is_some() {
                return Err(ProposalError::UnexpectedQc);
            }
            return Ok(());
        }
        if !option_certificate_eq(&propose.justify, &b.justify) {
            return Err(ProposalError::JustifyMismatch);
        }
        let qc = match &propose.justify {
            Some(qc) => qc,
            None => {
                return Err(ProposalError::MissingQc { height: b.height });
            },
        };
        if qc.validate_context(self.context).is_err() {
            return Err(ProposalError::QcContext);
        }
        if !hash_eq(&qc.block_hash, &b.parent) {
            return Err(ProposalError::QcNotParent);
        }
        let parent = match parent {
            Some(p) => p,
            None => {
                return Err(ProposalError::ParentMissing);
            },
        };
        if b.height != successor(parent.height) {
            return Err(ProposalError::HeightGap { height: b.height, parent: parent.height });
        }
        if qc.view != parent.view {
            return Err(ProposalError::QcView { qc: qc.view, parent: parent.view });
        }
        let committee = match self.config.committee() {
            Ok(c) => c,
            Err(e) => {
                return Err(ProposalError::Committee(e));
            },
        };
        match verify_certificate(
            &committee,
            qc,
            self.context,
            parent.view,
            &b.parent,
            Some(parent.app_hash),
            self.config.bls_configured(),
        ) {
            Ok(()) => Ok(()),
            Err(e) => Err(ProposalError::Qc(e)),
        }
    }

    /// Checks a proposal before the application sees it.
    pub fn check_proposal(&self, propose: &Propose, now: u64) -> (r: Result<(), ProposalError>)
        requires
            self.wf(),
        ensures
            match r {
                Ok(()) => self.state().proposal_fault(propose@, now) is None,
                Err(e) => self.state().proposal_fault(propose@, now) == Some(e),
            },
    {
        if propose.validate_context(self.context).is_err() {
            return Err(ProposalError::Context);
        }
        let leader = self.config.leader_of_active(propose.block.view);
        if !hash_eq(&propose.block.proposer, &leader) {
            return Err(ProposalError::NotLeader);
        }
        if self.config.bls_configured() {
            let committee = match self.config.committee() {
                Ok(c) => c,
                Err(e) => {
                    return Err(ProposalError::Committee(e));
                },
            };
            if !verify_proposer_signature(propose, &committee) {
                return Err(ProposalError::Signature);
            }
        }
        self.verify_proposal_qc(propose, now)
    }

    /// Votes for a proposal if it is valid, safe, and executes to what it
    /// names. The block is in the journals and the vote is durable before it
    /// is handed out. A refused proposal changes neither the voting rules nor
    /// the journals.
    #[verifier::rlimit(60)]
    pub fn process_proposal(&mut self, propose: Propose, block_bytes: usize, now: u64) -> (r: Result<
        Option<Vote>,
        Halt,
    >)
        requires
            old(self).wf(),
        ensures
            final(self).wf(),
            final(self).flags() == old(self).flags(),
            exists|roots: Seq<Hash32>, a: Answers, restored: A, executed: A|
                #![trigger asked(old(self).application(), restored, executed, old(self).state(), propose@, now, roots, a)]
                {
                    &&& is_root_list(old(self).state().prospective(propose@), propose@.block, roots)
                    &&& asked(
                        old(self).application(),
                        restored,
                        executed,
                        old(self).state(),
                        propose@,
                        now,
                        roots,
                        a,
                    )
                    &&& old(self).state().restore_due(propose@, now, roots, a) ==> exists|
                        m: &mut A,
                        head: Block,
                        ancestors: Vec<Block>,
                        list: Vec<Hash32>,
                        res: Result<(), String>,
                    |
                        {
                            &&& #[trigger] call_ensures(
                                A::restore_speculative_branch_for_admission,
                                (m, old(self).state().context, &head, &ancestors, &list, 1usize),
                                res,
                            )
                            &&& *m == old(self).application()
                            &&& *final(m) == restored
                            &&& old(self).state().branch(propose@.block.parent) == Ok::<
                                (BlockView, Seq<BlockView>),
                                BranchError,
                            >((head@, block_views(ancestors@)))
                            &&& list@ == seq![propose@.block.parent]
                            &&& a.restores == (res is Ok)
                        }
                    &&& old(self).state().execution_due(propose@, now, roots, a) ==> exists|
                        m: &mut A,
                        block: Block,
                    |
                        {
                            &&& #[trigger] call_ensures(A::execute, (m, &block), a.state)
                            &&& *m == restored
                            &&& *final(m) == executed
                            &&& block@ == propose@.block
                        }
                    &&& final(self).application() == (if old(self).state().execution_due(
                        propose@,
                        now,
                        roots,
                        a,
                    ) {
                        executed
                    } else if old(self).state().restore_due(propose@, now, roots, a) {
                        restored
                    } else {
                        old(self).application()
                    })
                    &&& old(self).state().considers(
                        propose@,
                        block_bytes,
                        now,
                        roots,
                        a,
                        vote_result(r),
                        final(self).state(),
                    )
                    &&& old(self).state().passes(propose@, now, roots, a) ==> store_decides::<P>(
                        old(self).state().room_made(propose@.block, roots),
                        propose@,
                        block_bytes,
                        vote_result(r),
                        final(self).state(),
                    )
                },
            match r {
                Ok(Some(vote)) => old(self).state().votes(
                    propose@,
                    now,
                    final(self).state(),
                    vote@,
                ),
                Ok(None) => same_progress(old(self).state(), final(self).state())
                    && final(self).state().safety == old(self).state().safety
                    && final(self).state().store == old(self).state().store
                    && final(self).state().durable_state == old(self).state().durable_state
                    && final(self).state().rows == old(self).state().rows
                    && final(self).state().pending.submap_of(old(self).state().pending),
                Err(_) => same_progress(old(self).state(), final(self).state()),
            },
            old(self).state().proposal_fault(propose@, now) is Some ==> r is Ok && r->Ok_0 is None
                && final(self).state() == old(self).state(),
            old(self).state().branch(propose@.block.parent) is Err ==> r is Ok && r->Ok_0 is None
                && final(self).state() == old(self).state(),
            old(self).state().prospective(propose@).check(
                propose@.block,
                propose@.block.app_hash,
            ) is Err ==> r is Ok && r->Ok_0 is None && final(self).state() == old(self).state(),
    {
        let ghost s = self.state();
        let ghost app = self.application();
        let ghost p = propose@;
        let ghost mut a = Answers {
            preflight: false,
            admits: false,
            restores: false,
            valid: false,
            state: zero_hash(),
            commitment_root: None,
            state_root: None,
        };
        let ghost r0 = lemma_root_list(s.prospective(p), p.block);
        if self.check_proposal(&propose, now).is_err() {
            proof {
                assert(asked(app, app, app, s, p, now, r0, a));
                assert(is_root_list(s.prospective(p), p.block, r0) && s.considers(
                    p,
                    block_bytes,
                    now,
                    r0,
                    a,
                    Ok(None),
                    self.state(),
                ));
            }
            return Ok(None);
        }
        let mut propose = propose;
        let block = propose.block.clone();
        let (head, ancestors) = match self.load_speculative_branch(block.parent) {
            Ok(found) => found,
            Err(_) => {
                proof {
                    assert(asked(app, app, app, s, p, now, r0, a));
                    assert(is_root_list(s.prospective(p), p.block, r0) && s.considers(
                        p,
                        block_bytes,
                        now,
                        r0,
                        a,
                        Ok(None),
                        self.state(),
                    ));
                }
                return Ok(None);
            },
        };
        let preflight = self.app.preflight_block_with_speculative_branch(
            self.context,
            &block,
            &head,
            &ancestors,
        );
        proof {
            a = Answers { preflight: preflight is Ok, ..a };
            assert(asks_preflight(app, s.context, block, head, ancestors, a.preflight));
        }
        if preflight.is_err() {
            proof {
                assert(asked(app, app, app, s, p, now, r0, a));
                assert(is_root_list(s.prospective(p), p.block, r0) && s.considers(
                    p,
                    block_bytes,
                    now,
                    r0,
                    a,
                    Ok(None),
                    self.state(),
                ));
            }
            return Ok(None);
        }
        let mut next_safety = self.safety.clone();
        if let Some(qc) = &propose.justify {
            next_safety.update_high_qc(qc.clone());
        }
        if next_safety.safe_to_vote(&block, block.app_hash).is_err() {
            proof {
                assert(asked(app, app, app, s, p, now, r0, a));
                assert(is_root_list(s.prospective(p), p.block, r0) && s.considers(
                    p,
                    block_bytes,
                    now,
                    r0,
                    a,
                    Ok(None),
                    self.state(),
                ));
            }
            return Ok(None);
        }
        let roots = ConsensusRunner::<A, P>::protected_speculative_roots_for_safety(
            &next_safety,
            Some(block.parent),
        );
        if !self.pending_admission_available(&block, &roots) {
            proof {
                assert(asked(app, app, app, s, p, now, roots@, a));
                assert(is_root_list(s.prospective(p), p.block, roots@) && s.considers(
                    p,
                    block_bytes,
                    now,
                    roots@,
                    a,
                    Ok(None),
                    self.state(),
                ));
            }
            return Ok(None);
        }
        let mut app_roots: Vec<Hash32> = Vec::new();
        app_roots.push(block.parent);
        let admits = self.app.check_speculative_branch_admission(
            self.context,
            &head,
            &ancestors,
            &app_roots,
            1,
        );
        proof {
            a = Answers { admits: admits is Ok, ..a };
            assert(app_roots@ =~= seq![p.block.parent]);
            assert(call_ensures(
                A::check_speculative_branch_admission,
                (&app, s.context, &head, &ancestors, &app_roots, 1usize),
                admits,
            ));
            assert(asks_admission(app, s.context, head, ancestors, p.block.parent, a.admits));
        }
        if admits.is_err() {
            proof {
                assert(asked(app, app, app, s, p, now, roots@, a));
                assert(is_root_list(s.prospective(p), p.block, roots@) && s.considers(
                    p,
                    block_bytes,
                    now,
                    roots@,
                    a,
                    Ok(None),
                    self.state(),
                ));
            }
            return Ok(None);
        }
        proof {
            crate::table::lemma_rows_len(self.pending.rows());
            assert(self.state().pending.dom() =~= self.pending.map().dom());
        }
        if self.pending.len() >= pending_admission_limit(&block) {
            self.prune_pending_unprotected_branches_with_roots(&roots);
        }
        assert(self.state() == s.room_made(p.block, roots@));
        if self.ensure_pending_capacity(&block).is_err() {
            proof {
                assert(asked(app, app, app, s, p, now, roots@, a));
                assert(is_root_list(s.prospective(p), p.block, roots@) && s.considers(
                    p,
                    block_bytes,
                    now,
                    roots@,
                    a,
                    Ok(None),
                    self.state(),
                ));
            }
            return Ok(None);
        }
        let restores = self.app.restore_speculative_branch_for_admission(
            self.context,
            &head,
            &ancestors,
            &app_roots,
            1,
        );
        proof {
            a = Answers { restores: restores is Ok, ..a };
            assert(s.restore_due(p, now, roots@, a));
        }
        let ghost restored = self.application();
        if restores.is_err() {
            proof {
                assert(asked(app, restored, restored, s, p, now, roots@, a));
                assert(is_root_list(s.prospective(p), p.block, roots@) && s.considers(
                    p,
                    block_bytes,
                    now,
                    roots@,
                    a,
                    Ok(None),
                    self.state(),
                ));
            }
            return Ok(None);
        }
        let valid = self.app.validate_block(&block);
        proof {
            a = Answers { valid: valid is Ok, ..a };
            assert(asks_validity(restored, block, a.valid));
        }
        if valid.is_err() {
            proof {
                assert(execution_asked(restored, restored, block, a));
                assert(asked(app, restored, restored, s, p, now, roots@, a));
                assert(is_root_list(s.prospective(p), p.block, roots@) && s.considers(
                    p,
                    block_bytes,
                    now,
                    roots@,
                    a,
                    Ok(None),
                    self.state(),
                ));
            }
            return Ok(None);
        }
        let state = self.app.execute(&block);
        let ghost executed = self.application();
        let commitment = self.app.preflight_commitment(&block);
        proof {
            a = Answers {
                state,
                commitment_root: commitment_answer(commitment),
                ..a
            };
            assert(asks_execution(restored, block, a.state));
            assert(asks_commitment(executed, block, a.commitment_root));
        }
        let commitment_root = match commitment {
            Ok(Some(c)) => c.root(),
            _ => {
                proof {
                    assert(execution_asked(restored, executed, block, a));
                    assert(asked(app, restored, executed, s, p, now, roots@, a));
                    assert(is_root_list(s.prospective(p), p.block, roots@) && s.considers(
                        p,
                        block_bytes,
                        now,
                        roots@,
                        a,
                        Ok(None),
                        self.state(),
                    ));
                }
                return Ok(None);
            },
        };
        let answer = self.app.preflight_state_root(&block);
        proof {
            a = Answers {
                state_root: state_root_answer(answer),
                ..a
            };
            assert(asks_state_root(executed, block, a.state_root));
            assert(asks_commitment(executed, block, a.commitment_root));
            assert(execution_asked(restored, executed, block, a));
        }
        let state_root = match answer {
            Ok(root) => root,
            Err(_) => {
                proof {
                    assert(asked(app, restored, executed, s, p, now, roots@, a));
                    assert(is_root_list(s.prospective(p), p.block, roots@) && s.considers(
                        p,
                        block_bytes,
                        now,
                        roots@,
                        a,
                        Ok(None),
                        self.state(),
                    ));
                }
                return Ok(None);
            },
        };
        proof {
            assert(asks_preflight(app, s.context, block, head, ancestors, a.preflight));
            assert(asks_admission(app, s.context, head, ancestors, p.block.parent, a.admits));
            assert(asked(app, restored, executed, s, p, now, roots@, a));
        }
        propose.block = block;
        let r = self.conclude_vote(propose, block_bytes, &state, &commitment_root, &state_root);
        proof {
            assert(is_root_list(s.prospective(p), p.block, roots@) && s.considers(
                p,
                block_bytes,
                now,
                roots@,
                a,
                vote_result(r),
                self.state(),
            ));
        }
        r
    }

    /// Votes for a proposal whose block was executed, if the execution gave
    /// what the block names, the vote is safe and there is room for the block.
    /// The block is admitted to the journals and the vote is durable before it
    /// is returned.
    pub fn conclude_vote(
        &mut self,
        propose: Propose,
        block_bytes: usize,
        state: &Hash32,
        commitment_root: &Hash32,
        state_root: &Option<Hash32>,
    ) -> (r: Result<Option<Vote>, Halt>)
        requires
            old(self).wf(),
        ensures
            final(self).wf(),
            final(self).rest() == old(self).rest(),
            old(self).state().concludes(
                propose@,
                block_bytes,
                *state,
                *commitment_root,
                *state_root,
                vote_result(r),
                final(self).state(),
            ),
            vote_due(old(self).state(), propose@, *state, *commitment_root, *state_root)
                ==> store_decides::<P>(
                old(self).state(),
                propose@,
                block_bytes,
                vote_result(r),
                final(self).state(),
            ),
    {
        let ghost s = self.state();
        let ghost p = propose@;
        proof {
            if s.durable {
                assert(holds(self.durable_store()->Some_0, s));
            }
        }
        let block = propose.block;
        let mut next_safety = self.safety.clone();
        if let Some(qc) = &propose.justify {
            next_safety.update_high_qc(qc.clone());
        }
        if next_safety.safe_to_vote(&block, block.app_hash).is_err() {
            return Ok(None);
        }
        if self.ensure_pending_capacity(&block).is_err() {
            return Ok(None);
        }
        if !accept_execution(&block, state, commitment_root, state_root) {
            return Ok(None);
        }
        let roots = ConsensusRunner::<A, P>::protected_speculative_roots_for_safety(
            &next_safety,
            Some(block.parent),
        );
        match self.admit_speculative_stores(&block, block_bytes, &roots) {
            Err(h) => {
                assert(is_root_list(s.prospective(p), p.block, roots@));
                assert(journal_took::<P>(s, p.block, block_bytes, roots@));
                assert(s.cache_refuses(p, block_bytes));
                return Err(h);
            },
            Ok(admitted) => {
                if !admitted {
                    assert(is_root_list(s.prospective(p), p.block, roots@));
                    return Ok(None);
                }
            },
        }
        proof {
            assert(is_root_list(s.prospective(p), p.block, roots@));
            assert(journals(s, roots@, p.block, block_bytes, self.state()));
            assert(journal_took::<P>(s, p.block, block_bytes, roots@));
            if s.durable {
                assert(holds(
                    self.durable_store()->Some_0,
                    (RunnerView { rows: self.state().rows, ..s }),
                ));
            }
        }
        next_safety.record_vote(block.view);
        if let Err(h) = self.persist_vote_intent_with_retry(block.view, &next_safety) {
            assert(journals(s, roots@, p.block, block_bytes, self.state()));
            return Err(h);
        }
        self.safety = next_safety;
        let hash = block.hash();
        let vote = self.make_vote(block.view, hash, block.app_hash);
        let _inserted = self.insert_pending(block);
        let ghost mid = self.state();
        let pruned = self.prune_speculative_stores_with_limits(
            Some(hash),
            MAX_PENDING_BLOCKS,
            MAX_PENDING_BYTES,
        );
        proof {
            lemma_pruned_journals::<P>(mid, hash, pruned, self.state());
            assert(is_root_list(s.prospective(p), p.block, roots@));
            assert(journals(s, roots@, p.block, block_bytes, mid));
            assert(s.admits(p, block_bytes, mid));
        }
        if let Err(h) = pruned {
            return Err(h);
        }
        proof {
            let (around, order) = choose|around: Seq<Hash32>, order: Seq<Hash32>| #[trigger]
                pruned_around(mid, hash, around, order, self.state()) && journal_pruned::<P>(
                    mid,
                    around,
                    MAX_PENDING_BLOCKS,
                    MAX_PENDING_BYTES,
                );
            assert(journal_pruned::<P>(mid, around, MAX_PENDING_BLOCKS, MAX_PENDING_BYTES));
        }
        Ok(Some(vote))
    }

    /// The node's vote on a block.
    pub(crate) fn make_vote(&self, view: u64, hash: Hash32, app_hash: Hash32) -> (r: Vote)
        ensures
            r@ == own_vote(self.state().config, self.state().context, view, hash, app_hash),
            network_fault(self.state().config) is None && self.state().context.committee_hash
                == members_hash(self.state().config.members()) ==> vote_check(
                self.state().config.members(),
                r@,
                self.state().context,
                view,
                hash,
                app_hash,
                self.state().config.keyed(),
            ) is Ok,
    {
        match self.config.bls_secret_key() {
            Some(secret) => Vote::new_bls(
                self.context,
                view,
                hash,
                app_hash,
                self.config.node_id,
                &secret,
            ),
            None => Vote::new(self.context, view, hash, app_hash, self.config.node_id),
        }
    }

    /// The durable form of voting rules and the node's progress.
    pub(crate) fn consensus_state_for_safety(
        &self,
        safety: &Safety,
        committed_height: u64,
        committed_hash: Hash32,
    ) -> (r: ConsensusState)
        requires
            safety.wf(),
        ensures
            r@ == durable_form(self.state(), safety@, committed_height, committed_hash),
    {
        let (consecutive_timeouts, vc_sent_for_view) = self.pacemaker.timeout_state();
        let high_qc = match safety.high_qc() {
            Some(qc) => Some(qc.clone()),
            None => None,
        };
        let locked_qc = match safety.locked_qc() {
            Some(qc) => Some(qc.clone()),
            None => None,
        };
        ConsensusState {
            epoch: self.context.epoch,
            committee_hash: self.context.committee_hash,
            genesis_hash: self.context.genesis_hash,
            high_qc,
            locked_qc,
            voted_views: safety.voted_views(),
            current_view: self.pacemaker.current_view(),
            committed_height,
            committed_hash,
            consecutive_timeouts,
            vc_sent_for_view,
        }
    }

    /// Makes voting rules durable before a vote is handed out, in a few
    /// attempts. Without a durable store there is nothing to do.
    pub(crate) fn persist_vote_intent_with_retry(&mut self, view: u64, next_safety: &Safety) -> (r: Result<
        (),
        Halt,
    >)
        requires
            old(self).wf(),
            next_safety.wf(),
        ensures
            final(self).wf(),
            final(self).rest() == old(self).rest(),
            final(self).state() == (RunnerView {
                durable_state: final(self).state().durable_state,
                attempts: final(self).state().attempts,
                ..old(self).state()
            }),
            ({
                let s = old(self).state();
                let kept = durable_form(s, next_safety@, s.committed_height, s.committed_hash);
                let found = final(self).state().durable_state;
                match r {
                    Ok(()) => found == (if s.durable {
                        Some(kept)
                    } else {
                        s.durable_state
                    }) && few_failures(s, final(self).state()),
                    Err(e) => {
                        &&& e == (Halt::VoteNotPersisted { view })
                        &&& s.durable
                        &&& final(self).state().attempts == s.attempts + failed_attempts(
                            MAX_PERSIST_ATTEMPTS as nat,
                        )
                        &&& save_fails(old(self).durable_store()->Some_0, kept)
                        &&& found == s.durable_state || found == Some(kept)
                    },
                }
            }),
    {
        let state = self.consensus_state_for_safety(
            next_safety,
            self.committed_height,
            self.committed_hash,
        );
        match self.persistent_store.take() {
            None => {
                let ghost s = old(self).state();
                assert(s.attempts =~= s.attempts + failed_attempts(0));
                Ok(())
            },
            Some(mut p) => {
                let mut attempt: u32 = 0;
                let mut done = false;
                let ghost before = p;
                while attempt < MAX_PERSIST_ATTEMPTS && !done
                    invariant
                        attempt <= MAX_PERSIST_ATTEMPTS,
                        p.wf(),
                        p.rows() == before.rows(),
                        p.evidence() == before.evidence(),
                        p.staged() == before.staged(),
                        p.ledger() == before.ledger(),
                        p.attempts() == before.attempts() + failed_attempts(attempt as nat),
                        done ==> attempt < MAX_PERSIST_ATTEMPTS,
                        done ==> p.durable_state() == Some(state@),
                        p.durable_state() == before.durable_state() || p.durable_state() == Some(
                            state@,
                        ),
                        attempt == 0 && !done ==> p == before,
                        attempt > 0 ==> save_fails(before, state@),
                    decreases MAX_PERSIST_ATTEMPTS - attempt + (if done { 0int } else { 1int }),
                {
                    match p.save_consensus_state(&state) {
                        Ok(()) => {
                            done = true;
                        },
                        Err(_e) => {
                            assert(attempt == 0 ==> save_fails(before, state@));
                            p.pause(retry_delay_ms(attempt));
                            attempt = attempt + 1;
                        },
                    }
                }
                self.persistent_store = Some(p);
                if done {
                    Ok(())
                } else {
                    Err(Halt::VoteNotPersisted { view })
                }
            },
        }
    }

    /// Builds and executes the block that the leader of a view proposes. The
    /// application fills in the payload, the state and the commitment.
    pub fn draft_proposal(&mut self, view: u64, now: u64) -> (r: Result<Block, LeaderError>)
        requires
            old(self).wf(),
            old(self).state().proposal_parent().height < u64::MAX,
        ensures
            final(self).wf(),
            final(self).flags() == old(self).flags(),
            at_most_pruned(old(self).state(), final(self).state()),
            exists|a: DraftAnswers, restored: A, roomy: A, executed: A, sealed: A|
                #![trigger draft_asked(restored, roomy, executed, sealed, old(self).state(), view, now, a, final(self).state())]
                {
                    &&& draft_asked(
                        restored,
                        roomy,
                        executed,
                        sealed,
                        old(self).state(),
                        view,
                        now,
                        a,
                        final(self).state(),
                    )
                    &&& old(self).state().drafts(view, now, a, draft_result(r), final(self).state())
                    &&& old(self).state().branch(
                        block_hash(old(self).state().proposal_parent()),
                    ) is Ok ==> exists|
                        m: &mut A,
                        head: Block,
                        ancestors: Vec<Block>,
                        list: Vec<Hash32>,
                        res: Result<(), String>,
                    |
                        {
                            &&& #[trigger] call_ensures(
                                A::restore_speculative_branch_for_admission,
                                (m, old(self).state().context, &head, &ancestors, &list, 0usize),
                                res,
                            )
                            &&& *m == old(self).application()
                            &&& *final(m) == restored
                            &&& old(self).state().branch(
                                block_hash(old(self).state().proposal_parent()),
                            ) == Ok::<(BlockView, Seq<BlockView>), BranchError>(
                                (head@, block_views(ancestors@)),
                            )
                            &&& list@ == seq![block_hash(old(self).state().proposal_parent())]
                            &&& a.restored == (res is Ok)
                        }
                    &&& old(self).state().room_due(view, now, a, final(self).state()) ==> exists|
                        m: &mut A,
                        head: Block,
                        ancestors: Vec<Block>,
                        list: Vec<Hash32>,
                        res: Result<(), String>,
                    |
                        {
                            &&& #[trigger] call_ensures(
                                A::restore_speculative_branch_for_admission,
                                (m, old(self).state().context, &head, &ancestors, &list, 1usize),
                                res,
                            )
                            &&& *m == restored
                            &&& *final(m) == roomy
                            &&& old(self).state().branch(
                                block_hash(old(self).state().proposal_parent()),
                            ) == Ok::<(BlockView, Seq<BlockView>), BranchError>(
                                (head@, block_views(ancestors@)),
                            )
                            &&& list@ == seq![block_hash(old(self).state().proposal_parent())]
                            &&& a.room_restored == (res is Ok)
                        }
                    &&& old(self).state().drafting_due(view, now, a, final(self).state()) ==> exists|
                        m: &mut A,
                        draft: Block,
                    |
                        {
                            &&& #[trigger] call_ensures(A::execute, (m, &draft), a.made.state)
                            &&& *m == roomy
                            &&& *final(m) == executed
                            &&& draft@ == old(self).state().draft(view, now, a)
                        }
                    &&& old(self).state().drafting_due(view, now, a, final(self).state())
                        && a.made.derived is Some ==> exists|
                        m: &mut A,
                        last: Block,
                        res: Result<(), String>,
                    |
                        {
                            &&& #[trigger] call_ensures(A::seal_execution_commitment, (m, &last), res)
                            &&& *m == executed
                            &&& *final(m) == sealed
                            &&& last@ == sealed_draft(old(self).state().draft(view, now, a), a.made)
                            &&& a.made.sealed == (res is Ok)
                        }
                    &&& final(self).application() == (if old(self).state().branch(
                        block_hash(old(self).state().proposal_parent()),
                    ) is Err {
                        old(self).application()
                    } else if !old(self).state().room_due(view, now, a, final(self).state()) {
                        restored
                    } else if !old(self).state().drafting_due(view, now, a, final(self).state()) {
                        roomy
                    } else if a.made.derived is None {
                        executed
                    } else {
                        sealed
                    })
                },
    {
        let ghost s = self.state();
        let ghost app = self.application();
        let ghost mut a = DraftAnswers {
            restored: false,
            payload: Seq::empty(),
            preflight: false,
            admits: false,
            room_restored: false,
            made: SealAnswers {
                valid: false,
                state: zero_hash(),
                derived: None,
                sealed: false,
                commitment_root: None,
                state_root: None,
            },
        };
        let parent = self.get_proposal_parent();
        let parent_hash = parent.hash();
        let (head, ancestors) = match self.load_speculative_branch(parent_hash) {
            Ok(found) => found,
            Err(e) => {
                assert(draft_asked(app, app, app, app, s, view, now, a, s));
                assert(s.drafts(view, now, a, Err(LeaderError::Branch(e)), s));
                return Err(LeaderError::Branch(e));
            },
        };
        let mut roots: Vec<Hash32> = Vec::new();
        roots.push(parent_hash);
        assert(roots@ =~= seq![parent_hash]);
        let restored = self.app.restore_speculative_branch_for_admission(
            self.context,
            &head,
            &ancestors,
            &roots,
            0,
        );
        proof {
            a = DraftAnswers { restored: restored is Ok, ..a };
        }
        let ghost app1 = self.application();
        if restored.is_err() {
            assert(draft_asked(app1, app1, app1, app1, s, view, now, a, s));
            assert(s.drafts(view, now, a, Err(LeaderError::Restore), s));
            return Err(LeaderError::Restore);
        }
        let payload = self.app.prepare_payload(&parent);
        proof {
            a = DraftAnswers { payload: payload@, ..a };
            assert(asks_payload(app1, parent, a.payload));
            assert(payload_asked(app1, s.proposal_parent(), a.payload));
        }
        let block = self.draft_block(&parent, parent_hash, view, payload, now);
        let ghost draft = block;
        assert(draft@ == s.draft(view, now, a));
        let preflight = self.app.preflight_block_with_speculative_branch(
            self.context,
            &block,
            &head,
            &ancestors,
        );
        proof {
            a = DraftAnswers { preflight: preflight is Ok, ..a };
            assert(asks_preflight(app1, s.context, draft, head, ancestors, a.preflight));
        }
        if preflight.is_err() {
            assert(draft_asked(app1, app1, app1, app1, s, view, now, a, s));
            assert(s.drafts(view, now, a, Err(LeaderError::Refused), s));
            return Err(LeaderError::Refused);
        }
        if block.justify.is_some() {
            if let Err(e) = self.safety.safe_to_vote(&block, block.app_hash) {
                assert(draft_asked(app1, app1, app1, app1, s, view, now, a, s));
                assert(s.drafts(view, now, a, Err(LeaderError::Unsafe(e)), s));
                return Err(LeaderError::Unsafe(e));
            }
        }
        if !self.pending_admission_available(&block, &roots) {
            assert(draft_asked(app1, app1, app1, app1, s, view, now, a, s));
            assert(s.drafts(view, now, a, Err(LeaderError::NoRoom), s));
            return Err(LeaderError::NoRoom);
        }
        let admits = self.app.check_speculative_branch_admission(
            self.context,
            &head,
            &ancestors,
            &roots,
            1,
        );
        proof {
            a = DraftAnswers { admits: admits is Ok, ..a };
            assert(asks_admission(app1, s.context, head, ancestors, parent_hash, a.admits));
        }
        if admits.is_err() {
            assert(draft_asked(app1, app1, app1, app1, s, view, now, a, s));
            assert(s.drafts(view, now, a, Err(LeaderError::Restore), s));
            return Err(LeaderError::Restore);
        }
        proof {
            crate::table::lemma_rows_len(self.pending.rows());
            assert(self.state().pending.dom() =~= self.pending.map().dom());
        }
        if self.pending.len() >= pending_admission_limit(&block) {
            self.prune_pending_unprotected_branches(Some(block.parent));
        }
        let ghost room = self.state();
        proof {
            assert(s.draft_room(draft@, room));
            assert(s.draft_fault(view, now, a) is None);
        }
        if let Err(e) = self.ensure_pending_capacity(&block) {
            assert(draft_asked(app1, app1, app1, app1, s, view, now, a, room));
            assert(s.drafts(view, now, a, Err(LeaderError::Capacity(e)), room));
            return Err(LeaderError::Capacity(e));
        }
        let restored = self.app.restore_speculative_branch_for_admission(
            self.context,
            &head,
            &ancestors,
            &roots,
            1,
        );
        proof {
            a = DraftAnswers { room_restored: restored is Ok, ..a };
            assert(s.room_due(view, now, a, room));
        }
        let ghost app2 = self.application();
        if restored.is_err() {
            assert(draft_asked(app1, app2, app2, app2, s, view, now, a, room));
            assert(s.drafts(view, now, a, Err(LeaderError::Restore), room));
            return Err(LeaderError::Restore);
        }
        let r = self.seal_draft(block);
        proof {
            let (m, executed, sealed) = choose|m: SealAnswers, executed: A, sealed: A|
                #![trigger drafting_asked(app2, executed, sealed, draft, m)]
                {
                    &&& drafting_asked(app2, executed, sealed, draft, m)
                    &&& draft_result(r) == seal_result(draft@, m)
                    &&& m.valid ==> exists|x: &mut A|
                        {
                            &&& #[trigger] call_ensures(A::execute, (x, &draft), m.state)
                            &&& *x == app2
                            &&& *final(x) == executed
                        }
                    &&& m.valid && m.derived is Some ==> exists|
                        x: &mut A,
                        last: Block,
                        res: Result<(), String>,
                    |
                        {
                            &&& #[trigger] call_ensures(A::seal_execution_commitment, (x, &last), res)
                            &&& *x == executed
                            &&& *final(x) == sealed
                            &&& last@ == sealed_draft(draft@, m)
                            &&& m.sealed == (res is Ok)
                        }
                    &&& self.application() == (if !m.valid {
                        app2
                    } else if m.derived is None {
                        executed
                    } else {
                        sealed
                    })
                };
            let all = DraftAnswers { made: m, ..a };
            assert(drafting_asked(app2, executed, sealed, draft, all.made));
            assert(asks_preflight(app1, s.context, draft, head, ancestors, all.preflight));
            assert(asks_admission(app1, s.context, head, ancestors, parent_hash, all.admits));
            assert(payload_asked(app1, s.proposal_parent(), all.payload));
            assert(draft_asked(app1, app2, executed, sealed, s, view, now, all, room));
            assert(s.drafts(view, now, all, draft_result(r), room));
        }
        r
    }

    /// Executes a draft, fills in the state and the execution commitment, and
    /// asks the application for both again in the final form.
    pub fn seal_draft(&mut self, draft: Block) -> (r: Result<Block, LeaderError>)
        requires
            old(self).wf(),
        ensures
            final(self).wf(),
            final(self).flags() == old(self).flags(),
            final(self).state() == old(self).state(),
            exists|m: SealAnswers, executed: A, sealed: A|
                #![trigger drafting_asked(old(self).application(), executed, sealed, draft, m)]
                {
                    &&& drafting_asked(old(self).application(), executed, sealed, draft, m)
                    &&& draft_result(r) == seal_result(draft@, m)
                    &&& m.valid ==> exists|x: &mut A|
                        {
                            &&& #[trigger] call_ensures(A::execute, (x, &draft), m.state)
                            &&& *x == old(self).application()
                            &&& *final(x) == executed
                        }
                    &&& m.valid && m.derived is Some ==> exists|
                        x: &mut A,
                        last: Block,
                        res: Result<(), String>,
                    |
                        {
                            &&& #[trigger] call_ensures(A::seal_execution_commitment, (x, &last), res)
                            &&& *x == executed
                            &&& *final(x) == sealed
                            &&& last@ == sealed_draft(draft@, m)
                            &&& m.sealed == (res is Ok)
                        }
                    &&& final(self).application() == (if !m.valid {
                        old(self).application()
                    } else if m.derived is None {
                        executed
                    } else {
                        sealed
                    })
                },
    {
        let ghost app = self.application();
        let ghost d = draft;
        let ghost mut m = SealAnswers {
            valid: false,
            state: zero_hash(),
            derived: None,
            sealed: false,
            commitment_root: None,
            state_root: None,
        };
        let mut block = draft;
        let valid = self.app.validate_block(&block);
        proof {
            m = SealAnswers { valid: valid is Ok, ..m };
            assert(asks_validity(app, d, m.valid));
        }
        if valid.is_err() {
            assert(drafting_asked(app, app, app, d, m));
            return Err(LeaderError::Refused);
        }
        let state = self.app.execute(&block);
        proof {
            m = SealAnswers { state, ..m };
            assert(asks_execution(app, d, m.state));
        }
        block.app_hash = state;
        let ghost executed = block;
        let ghost after = self.application();
        let derived = self.app.derive_execution_commitment(&block);
        proof {
            m = SealAnswers { derived: commitment_answer(derived), ..m };
            assert(executed@ == executed_draft(d@, m));
            assert(asks_derivation(after, executed, m.derived));
        }
        match derived {
            Ok(Some(c)) => {
                block.commitment_root = c.root();
            },
            _ => {
                assert(drafting_asked(app, after, after, d, m));
                return Err(LeaderError::Commitment);
            },
        }
        let ghost sealed = block;
        let taken = self.app.seal_execution_commitment(&block);
        proof {
            m = SealAnswers { sealed: taken is Ok, ..m };
            assert(sealed@ == sealed_draft(d@, m));
            assert(asks_seal(after, sealed, m.sealed));
        }
        let ghost last = self.application();
        if taken.is_err() {
            assert(sealing_asked(after, last, sealed, m));
            assert(asks_derivation(after, executed, m.derived));
            assert(drafting_asked(app, after, last, d, m));
            return Err(LeaderError::Commitment);
        }
        let answer = self.app.preflight_commitment(&block);
        proof {
            m = SealAnswers { commitment_root: commitment_answer(answer), ..m };
            assert(asks_commitment(last, sealed, m.commitment_root));
        }
        let sealed_root = match answer {
            Ok(Some(c)) => Some(c.root()),
            _ => None,
        };
        if !option_hash_eq(&sealed_root, &Some(block.commitment_root)) {
            assert(sealing_asked(after, last, sealed, m));
            assert(asks_derivation(after, executed, m.derived));
            assert(drafting_asked(app, after, last, d, m));
            return Err(LeaderError::Commitment);
        }
        let answer = self.app.preflight_state_root(&block);
        proof {
            m = SealAnswers { state_root: state_root_answer(answer), ..m };
            assert(asks_state_root(last, sealed, m.state_root));
            assert(asks_commitment(last, sealed, m.commitment_root));
            assert(sealing_asked(after, last, sealed, m));
            assert(asks_derivation(after, executed, m.derived));
            assert(drafting_asked(app, after, last, d, m));
        }
        match answer {
            Ok(root) => {
                if !option_hash_eq(&root, &Some(block.app_hash)) {
                    return Err(LeaderError::StateRoot);
                }
            },
            Err(_) => {
                return Err(LeaderError::StateRoot);
            },
        }
        Ok(block)
    }

    /// The leader's block before its execution.
    fn draft_block(&self, parent: &Block, parent_hash: Hash32, view: u64, payload: Vec<u8>, now: u64) -> (r:
        Block)
        requires
            self.wf(),
            parent@ == self.state().proposal_parent(),
            parent_hash == block_hash(parent@),
            parent.height < u64::MAX,
        ensures
            r@ == self.state().own_block(view, payload@, zero_hash(), zero_hash(), now),
    {
        let justify = match self.connected_high_qc() {
            Some(qc) => if hash_eq(&qc.block_hash, &parent_hash) {
                Some(qc)
            } else {
                None
            },
            None => None,
        };
        let limit: u64 = if parent.timestamp > u64::MAX - MAX_BLOCK_TIMESTAMP_STEP_MS {
            u64::MAX
        } else {
            parent.timestamp + MAX_BLOCK_TIMESTAMP_STEP_MS
        };
        let timestamp: u64 = if parent.height == 0 {
            now
        } else if now < parent.timestamp {
            parent.timestamp
        } else if now > limit {
            limit
        } else {
            now
        };
        Block {
            epoch: self.context.epoch,
            committee_hash: self.context.committee_hash,
            genesis_hash: self.context.genesis_hash,
            view,
            height: parent.height + 1,
            parent: parent_hash,
            payload,
            proposer: self.config.node_id,
            commitment_root: zeros(),
            app_hash: zeros(),
            timestamp,
            justify,
        }
    }

    /// Admits the leader's block to the journals and the pending blocks.
    /// Returns the signed proposal to send.
    pub fn admit_own_proposal(&mut self, block: Block, block_bytes: usize) -> (r: Result<
        Propose,
        LeaderError,
    >)
        requires
            old(self).wf(),
        ensures
            final(self).wf(),
            final(self).rest() == old(self).rest(),
            same_but_speculation(old(self).state(), final(self).state()),
            final(self).state().durable_state == old(self).state().durable_state,
            match r {
                Ok(p) => {
                    let s = old(self).state();
                    let after = final(self).state();
                    &&& p@ == s.own_proposal(block@)
                    &&& after.pending == s.pending.insert(block_hash(block@), block@)
                    &&& in_journals(after, block_hash(block@))
                    &&& exists|admitted: Seq<Hash32>, mid: RunnerView|
                        #![trigger journals(s, admitted, block@, block_bytes, mid)]
                        {
                            &&& are_roots(s, Some(block@.parent), admitted)
                            &&& journals(s, admitted, block@, block_bytes, mid)
                            &&& journal_took::<P>(s, block@, block_bytes, admitted)
                            &&& mid == (RunnerView { store: mid.store, rows: mid.rows, ..after })
                            &&& exists|roots: Seq<Hash32>, order: Seq<Hash32>| #[trigger]
                                pruned_around(mid, block_hash(block@), roots, order, after)
                                    && journal_pruned::<P>(
                                    mid,
                                    roots,
                                    MAX_PENDING_BLOCKS,
                                    MAX_PENDING_BYTES,
                                )
                        }
                    &&& network_fault(s.config) is None && block@.proposer == s.config.node_id
                        ==> signature_ok(p@, s.config.members())
                },
                Err(LeaderError::Journal) => {
                    &&& old(self).state().durable
                    &&& final(self).state() == old(self).state()
                    &&& exists|roots: Seq<Hash32>| #[trigger]
                        are_roots(old(self).state(), Some(block@.parent), roots)
                            && journal_refuses(
                            old(self).durable_store()->Some_0,
                            block,
                            block_bytes,
                            roots,
                            RunnerView::pending_limit(block@),
                            byte_limit(block@),
                        )
                },
                Err(LeaderError::Capacity(e)) => {
                    let s = old(self).state();
                    let after = final(self).state();
                    &&& s.pending_fault(block@) == Some(e)
                    &&& after.pending == s.pending
                    &&& in_journals(after, block_hash(block@))
                    &&& exists|admitted: Seq<Hash32>|
                        {
                            &&& are_roots(s, Some(block@.parent), admitted)
                            &&& #[trigger] journals(s, admitted, block@, block_bytes, after)
                            &&& journal_took::<P>(s, block@, block_bytes, admitted)
                        }
                },
                Err(LeaderError::Halted(h)) => own_block_halts::<P>(
                    old(self).state(),
                    block@,
                    block_bytes,
                    h,
                    final(self).state(),
                ),
                Err(_) => false,
            },
    {
        let ghost s = self.state();
        let hash = block.hash();
        let roots = self.protected_speculative_roots(Some(block.parent));
        assert(are_roots(s, Some(block@.parent), roots@));
        proof {
            if s.durable {
                assert(holds(self.durable_store()->Some_0, s));
            }
        }
        match self.admit_speculative_stores(&block, block_bytes, &roots) {
            Err(h) => {
                assert(journal_took::<P>(s, block@, block_bytes, roots@));
                return Err(LeaderError::Halted(h));
            },
            Ok(admitted) => {
                if !admitted {
                    return Err(LeaderError::Journal);
                }
            },
        }
        proof {
            assert(journal_took::<P>(s, block@, block_bytes, roots@));
            assert(journals(s, roots@, block@, block_bytes, self.state()));
        }
        if let Err(e) = self.insert_pending(block.clone()) {
            assert(journals(s, roots@, block@, block_bytes, self.state()));
            return Err(LeaderError::Capacity(e));
        }
        let ghost mid = self.state();
        let pruned = self.prune_speculative_stores_with_limits(
            Some(hash),
            MAX_PENDING_BLOCKS,
            MAX_PENDING_BYTES,
        );
        proof {
            lemma_pruned_journals::<P>(mid, hash, pruned, self.state());
            assert(journals(s, roots@, block@, block_bytes, mid));
        }
        if let Err(h) = pruned {
            return Err(LeaderError::Halted(h));
        }
        let justify = copy_option_certificate(&block.justify);
        let mut propose = Propose {
            epoch: self.context.epoch,
            committee_hash: self.context.committee_hash,
            genesis_hash: self.context.genesis_hash,
            block,
            justify,
            proposer_signature: Vec::new(),
        };
        if let Some(secret) = self.config.bls_secret_key() {
            propose.proposer_signature = secret.sign(&propose.signing_data());
        } else {
            assert(propose.proposer_signature@ =~= Seq::empty());
        }
        Ok(propose)
    }

    /// Casts the leader's vote for its own block. It goes through the same
    /// check as the votes of others, and is durable before it counts. With a
    /// configuration that can run a networked node, only a failing durable
    /// store stops it.
    pub fn vote_own_proposal(&mut self, view: u64, hash: Hash32, app_hash: Hash32) -> (r: Result<
        (),
        LeaderError,
    >)
        requires
            old(self).wf(),
        ensures
            final(self).wf(),
            final(self).rest() == old(self).rest(),
            network_fault(old(self).state().config) is None && old(self).state().context.committee_hash
                == members_hash(old(self).state().config.members()) ==> (r matches Err(e)
                ==> e is Halted),
            ({
                let s = old(self).state();
                let after = final(self).state();
                let vote = own_vote(s.config, s.context, view, hash, app_hash);
                let check = vote_check(
                    s.config.members(),
                    vote,
                    s.context,
                    view,
                    hash,
                    app_hash,
                    s.config.keyed(),
                );
                match r {
                    Ok(()) => {
                        &&& s.config.fault() is None
                        &&& check is Ok
                        &&& after == (RunnerView {
                            safety: s.safety.after_vote(view),
                            votes: with_vote(s.votes, vote),
                            durable_state: after.durable_state,
                            attempts: after.attempts,
                            ..s
                        })
                        &&& few_failures(s, after)
                        &&& s.durable ==> after.durable_state == Some(
                            durable_form(s, after.safety, s.committed_height, s.committed_hash),
                        )
                    },
                    Err(e) => {
                        &&& after == (RunnerView {
                            durable_state: after.durable_state,
                            attempts: s.attempts + failed_attempts(
                                if e is Halted {
                                    MAX_PERSIST_ATTEMPTS as nat
                                } else {
                                    0
                                },
                            ),
                            ..s
                        })
                        &&& !(e is Halted) ==> after == s
                        &&& match e {
                            LeaderError::Committee(f) => s.config.fault() == Some(f),
                            LeaderError::OwnVote(f) => s.config.fault() is None && check == Err::<
                                u128,
                                VerifyError,
                            >(f),
                            LeaderError::Halted(h) => s.config.fault() is None && check is Ok
                                && s.durable && h == (Halt::VoteNotPersisted { view }) && save_fails(
                                old(self).durable_store()->Some_0,
                                durable_form(
                                    s,
                                    s.safety.after_vote(view),
                                    s.committed_height,
                                    s.committed_hash,
                                ),
                            ),
                            _ => false,
                        }
                    },
                }
            }),
    {
        let vote = self.make_vote(view, hash, app_hash);
        let committee = match self.config.committee() {
            Ok(c) => c,
            Err(e) => {
                return Err(LeaderError::Committee(e));
            },
        };
        if let Err(e) = verify_vote(
            &committee,
            &vote,
            self.context,
            view,
            &hash,
            &app_hash,
            self.config.bls_configured(),
        ) {
            return Err(LeaderError::OwnVote(e));
        }
        let mut next_safety = self.safety.clone();
        next_safety.record_vote(view);
        if let Err(h) = self.persist_vote_intent_with_retry(view, &next_safety) {
            return Err(LeaderError::Halted(h));
        }
        self.safety = next_safety;
        store_vote(&mut self.votes, vote);
        Ok(())
    }
}

/// Why a leader has to stop while its block is admitted: the cache has no room
/// for the block, or the journals cannot be pruned.
pub open spec fn own_block_halts<P: PersistentStore>(
    s: RunnerView,
    b: BlockView,
    block_bytes: usize,
    h: Halt,
    after: RunnerView,
) -> bool {
    match h {
        Halt::CacheMirror => after == (RunnerView { rows: after.rows, ..s }) && (if s.durable {
            journal_adds(s.rows, after.rows, b)
        } else {
            after.rows == s.rows
        }) && exists|roots: Seq<Hash32>, f: StoreError|
            #![trigger are_roots(s, Some(b.parent), roots), admission(
                s.store,
                s.store,
                Err(f),
                b,
                block_bytes,
                roots,
                RunnerView::pending_limit(b),
                byte_limit(b),
            )]
            are_roots(s, Some(b.parent), roots) && journal_took::<P>(s, b, block_bytes, roots)
                && admission(
                s.store,
                s.store,
                Err(f),
                b,
                block_bytes,
                roots,
                RunnerView::pending_limit(b),
                byte_limit(b),
            ),
        Halt::Prune => exists|
            mid: RunnerView,
            admitted: Seq<Hash32>,
            roots: Seq<Hash32>,
            order: Seq<Hash32>,
        |
            {
                &&& mid == (RunnerView {
                    pending: s.pending.insert(block_hash(b), b),
                    store: mid.store,
                    rows: mid.rows,
                    ..s
                })
                &&& are_roots(s, Some(b.parent), admitted)
                &&& #[trigger] journals(s, admitted, b, block_bytes, mid)
                &&& journal_took::<P>(s, b, block_bytes, admitted)
                &&& after == (RunnerView { rows: after.rows, ..mid })
                &&& are_roots(mid, Some(block_hash(b)), roots)
                &&& mid.store.is_pruning_order(roots, order)
                &&& #[trigger] prune_stops::<P>(
                    mid,
                    roots,
                    order,
                    MAX_PENDING_BLOCKS,
                    MAX_PENDING_BYTES,
                )
            },
        _ => false,
    }
}

/// Two states agree on all but the pending blocks, the journals and what is
/// durable.
pub open spec fn same_but_speculation(a: RunnerView, b: RunnerView) -> bool {
    b == (RunnerView {
        pending: b.pending,
        store: b.store,
        rows: b.rows,
        durable_state: b.durable_state,
        ..a
    })
}

/// A leader on top of genesis takes the time as it is. Else its block carries the
/// moment nearest to the time that lies neither before the parent's nor more than
/// a minute after it.
pub proof fn lemma_timestamp_nearest_now(
    s: RunnerView,
    view: u64,
    payload: Seq<u8>,
    app_hash: Hash32,
    commitment_root: Hash32,
    now: u64,
    other: u64,
)
    ensures
        ({
            let b = s.own_block(view, payload, app_hash, commitment_root, now);
            let parent = s.proposal_parent();
            let off = |t: u64| if t < now { now - t } else { t - now };
            &&& parent.height == 0 ==> b.timestamp == now
            &&& parent.height > 0 ==> {
                &&& parent.timestamp <= b.timestamp <= parent.timestamp + 60_000
                &&& parent.timestamp <= now <= parent.timestamp + 60_000 ==> b.timestamp == now
                &&& now > parent.timestamp + 60_000 ==> b.timestamp == parent.timestamp + 60_000
                &&& now < parent.timestamp ==> b.timestamp == parent.timestamp
                &&& parent.timestamp <= other <= parent.timestamp + 60_000 ==> off(b.timestamp)
                    <= off(other)
            }
        }),
{
}

/// A proposal has its place exactly if it and its block are of the context, the block
/// is well-formed, above the committed height, timely, and: at height one it builds on
/// genesis without a certificate; above, it builds on a known block one height below,
/// which is the head or connected to it, and carries, twice alike, the certificate of
/// that block, which verifies.
pub proof fn lemma_proposal_in_place(s: RunnerView, p: ProposeView, now: u64)
    requires
        s.committed_height < u64::MAX,
        s.known_at(p.block.parent) matches Some(x) ==> x.height < u64::MAX,
    ensures
        s.qc_fault(p, now) is None <==> {
            let b = p.block;
            let parent = s.known_at(b.parent);
            &&& b.context == s.context
            &&& p.context == s.context
            &&& b.payload.len() <= 10 * 1024 * 1024
            &&& b.commitment_root != zero_hash()
            &&& b.height > s.committed_height
            &&& b.height == s.committed_height + 1 ==> b.parent == s.committed_hash
            &&& b.height > s.committed_height + 1 ==> s.connected(b.parent)
            &&& b.timestamp - now <= 10_000
            &&& b.height == 1 ==> {
                &&& now - b.timestamp <= 60_000
                &&& b.parent == block_hash(genesis_block(s.context))
                &&& b.justify is None
                &&& p.justify is None
            }
            &&& b.height > 1 ==> (parent matches Some(x) && {
                &&& live_timestamp_ok(b.timestamp, x.timestamp, now)
                &&& b.height == x.height + 1
                &&& p.justify == b.justify
                &&& s.config.fault() is None
                &&& b.justify matches Some(qc) && certificate_check(
                    s.config.members(),
                    qc,
                    s.context,
                    x.view,
                    b.parent,
                    Some(x.app_hash),
                    s.config.keyed(),
                ) is Ok
            })
        },
{
    if p.block.height > 1 {
        if let Some(x) = s.known_at(p.block.parent) {
            if let Some(qc) = p.block.justify {
                crate::consensus::committee::lemma_certificate_verifies(
                    s.config.members(),
                    qc,
                    s.context,
                    x.view,
                    p.block.parent,
                    Some(x.app_hash),
                    s.config.keyed(),
                );
            }
        }
    }
}

/// A proposal is in order exactly if its proposer leads its view and, where the
/// committee has keys, has signed it, and it has its place.
pub proof fn lemma_proposal_in_order(s: RunnerView, p: ProposeView, now: u64)
    ensures
        s.proposal_fault(p, now) is None <==> {
            &&& p.context == s.context
            &&& p.block.context == s.context
            &&& p.block.proposer == s.config.leader(p.block.view)
            &&& s.config.keyed() ==> s.config.fault() is None && signature_ok(p, s.config.members())
            &&& s.qc_fault(p, now) is None
        },
        signature_ok(p, s.config.members()) <==> {
            &&& member_of(s.config.members(), p.block.proposer) matches Some(m) && (
            m.bls_pubkey matches Some(k) && bls_verifies(
                k,
                propose_message(p.context, p.block),
                p.proposer_signature,
            ))
            &&& p.proposer_signature.len() == 96
            &&& bls_signature_decodes(p.proposer_signature)
        },
{
}

/// A vote is handed out only for a proposal that is in order and whose branch is
/// known, with every answer of the application in favour, with an execution that gave
/// exactly the state and the commitment of the block, and if the voting rules allow
/// it once the proposal's certificate is taken into account.
pub proof fn lemma_vote_needs(
    s: RunnerView,
    p: ProposeView,
    block_bytes: usize,
    now: u64,
    roots: Seq<Hash32>,
    a: Answers,
    vote: VoteView,
    after: RunnerView,
)
    requires
        s.considers(p, block_bytes, now, roots, a, Ok(Some(vote)), after),
    ensures
        s.proposal_fault(p, now) is None,
        s.branch(p.block.parent) is Ok,
        a.preflight,
        a.admits,
        a.restores,
        a.valid,
        a.state == p.block.app_hash,
        a.commitment_root == Some(p.block.commitment_root),
        a.state_root == Some(Some(p.block.app_hash)),
        s.admission_available(p.block, roots),
        !s.safety.voted.contains(p.block.view),
        p.justify matches Some(qc) ==> s.safety.after_high_qc(qc).check(p.block, p.block.app_hash)
            is Ok,
        p.justify is None ==> s.safety.check(p.block, p.block.app_hash) is Ok,
        vote.view == p.block.view,
        vote.block_hash == block_hash(p.block),
        vote.app_hash == p.block.app_hash,
        vote.voter == s.config.node_id,
        vote.context == s.context,
        after.safety.voted.contains(p.block.view),
        after.pending.contains_key(block_hash(p.block)),
        after.store.blocks.contains_key(block_hash(p.block)),
        s.durable ==> after.rows.contains_key(block_hash(p.block)) && (after.durable_state matches Some(
            d,
        ) && d.voted.contains(p.block.view) && d.voted == after.safety.voted && d.high_qc
            == after.safety.high_qc && d.locked_qc == after.safety.locked_qc && d.committed_height
            == s.committed_height && d.committed_hash == s.committed_hash && d.current_view
            == s.pacemaker.current_view && d.context == s.context),
        after.committed_height == s.committed_height,
        after.pacemaker == s.pacemaker,
{
}

/// A vote is owed: a node without durable storage votes for a proposal that passes all
/// of this, unless it has to stop because its journals have no room.
pub proof fn lemma_vote_owed(
    s: RunnerView,
    p: ProposeView,
    block_bytes: usize,
    now: u64,
    roots: Seq<Hash32>,
    a: Answers,
    r: Result<Option<VoteView>, Halt>,
    after: RunnerView,
)
    requires
        s.considers(p, block_bytes, now, roots, a, r, after),
        !s.durable,
        s.proposal_fault(p, now) is None,
        s.branch(p.block.parent) is Ok,
        a.preflight && a.admits && a.restores && a.valid,
        a.state == p.block.app_hash,
        a.commitment_root == Some(p.block.commitment_root),
        a.state_root == Some(Some(p.block.app_hash)),
        s.admission_available(p.block, roots),
        s.room_made(p.block, roots).pending_fault(p.block) is None,
        match p.justify {
            Some(qc) => s.safety.after_high_qc(qc),
            None => s.safety,
        }.check(p.block, p.block.app_hash) is Ok,
    ensures
        r matches Ok(v) ==> v is Some,
        r matches Err(h) ==> h is CacheMirror || h is Prune,
{
}

/// A node without a vote is left as it was, but for pending blocks that nothing depends
/// on.
pub proof fn lemma_no_vote_no_trace(
    s: RunnerView,
    p: ProposeView,
    block_bytes: usize,
    now: u64,
    roots: Seq<Hash32>,
    a: Answers,
    after: RunnerView,
)
    requires
        s.considers(p, block_bytes, now, roots, a, Ok(None), after),
    ensures
        after == (RunnerView { pending: after.pending, ..s }),
        forall|h: Hash32| #[trigger]
            after.pending.contains_key(h) ==> s.pending.contains_key(h) && after.pending[h]
                == s.pending[h],
        forall|h: Hash32| #[trigger]
            s.pending.contains_key(h) && !after.pending.contains_key(h) ==> !s.pending_protected(
                roots,
                h,
            ),
{
}

/// Room is made only where the pending blocks reach the limit: 64 for a block with a
/// certificate, else 63.
pub proof fn lemma_room_made(s: RunnerView, b: BlockView, roots: Seq<Hash32>)
    ensures
        b.justify is Some && s.pending.dom().len() < 64 ==> s.room_made(b, roots) == s,
        b.justify is None && s.pending.dom().len() < 63 ==> s.room_made(b, roots) == s,
        b.justify is Some && s.pending.dom().len() >= 64 ==> s.room_made(b, roots)
            == s.pending_pruned(roots),
        b.justify is None && s.pending.dom().len() >= 63 ==> s.room_made(b, roots)
            == s.pending_pruned(roots),
{
}

/// What is durable of a node: its certificates, its votes, its view with the timeouts
/// in a row and the view change that it sent, and the head that it names.
pub proof fn lemma_durable_form(s: RunnerView, safety: SafetyView, height: u64, hash: Hash32)
    ensures
        ({
            let d = durable_form(s, safety, height, hash);
            &&& d.context == s.context
            &&& d.high_qc == safety.high_qc
            &&& d.locked_qc == safety.locked_qc
            &&& d.voted == safety.voted
            &&& d.current_view == s.pacemaker.current_view
            &&& d.consecutive_timeouts == s.pacemaker.consecutive_timeouts
            &&& d.vc_sent_for_view == s.pacemaker.vc_sent_for_view
            &&& d.committed_height == height
            &&& d.committed_hash == hash
        }),
{
}

/// A leader's block carries the certificate of the block that it builds on, wherever it
/// builds on the block of the highest certificate, and none on the committed head.
pub proof fn lemma_own_justify(s: RunnerView)
    requires
        crate::consensus::store::named_by_hash(s.known()),
    ensures
        s.own_justify() == s.connected_high_qc(),
        s.own_justify() matches Some(qc) ==> s.safety.high_qc == Some(qc) && qc.block_hash
            == block_hash(s.proposal_parent()),
{
    if let Some(qc) = s.connected_high_qc() {
        assert(s.known().contains_key(qc.block_hash));
    }
}

/// A draft goes on to be executed exactly if its branch is known and restored, the
/// application takes it, a certified one is safe to vote for, and there is room.
pub proof fn lemma_draft_goes_on(s: RunnerView, view: u64, now: u64, a: DraftAnswers)
    ensures
        s.draft_fault(view, now, a) is None <==> {
            let draft = s.draft(view, now, a);
            &&& s.branch(block_hash(s.proposal_parent())) is Ok
            &&& a.restored
            &&& a.preflight
            &&& draft.justify is Some ==> s.safety.check(draft, zero_hash()) is Ok
            &&& s.admission_available(draft, seq![block_hash(s.proposal_parent())])
            &&& a.admits
        },
        ({
            let draft = s.draft(view, now, a);
            &&& draft.app_hash == zero_hash()
            &&& draft.commitment_root == zero_hash()
            &&& draft.payload == a.payload
            &&& draft.view == view
            &&& draft.parent == block_hash(s.proposal_parent())
        }),
{
}

/// A draft is sealed exactly if the application takes it, gives a commitment, takes the
/// final form and gives for it the same commitment and, as the state root, the state
/// that the execution returned. The sealed block differs from the draft in these two
/// alone.
pub proof fn lemma_sealed(draft: BlockView, m: SealAnswers)
    ensures
        seal_result(draft, m) is Ok <==> {
            &&& m.valid
            &&& m.sealed
            &&& m.derived is Some
            &&& m.commitment_root == m.derived
            &&& m.state_root == Some(Some(m.state))
        },
        seal_result(draft, m) matches Ok(b) ==> Some(b.commitment_root) == m.derived && b.app_hash
            == m.state && b == (BlockView {
            app_hash: b.app_hash,
            commitment_root: b.commitment_root,
            ..draft
        }),
        executed_draft(draft, m) == (BlockView { app_hash: m.state, ..draft }),
{
}

/// A leader's proposal holds its block with the block's certificate, and its signature
/// on exactly that block.
pub proof fn lemma_own_proposal(s: RunnerView, b: BlockView)
    ensures
        s.own_proposal(b).block == b,
        s.own_proposal(b).context == s.context,
        s.own_proposal(b).justify == b.justify,
        s.config.bls_secret_key matches Some(seed) ==> s.own_proposal(b).proposer_signature
            == bls_signature(seed@, propose_message(s.context, b)),
{
}

/// An execution fits a block exactly if it gave the state and the commitment that the
/// block names, and the application's state root is that state.
pub proof fn lemma_execution_fits(
    b: BlockView,
    state: Hash32,
    commitment_root: Hash32,
    state_root: Option<Hash32>,
)
    ensures
        execution_matches(b, state, commitment_root, state_root) <==> {
            &&& state == b.app_hash
            &&& commitment_root == b.commitment_root
            &&& state_root matches Some(h) && h == b.app_hash
        },
{
}

/// A node votes only after its application, asked about exactly this block on exactly its
/// branch, accepted the replay, had room, accepted the payload, executed the block to the
/// state that it names, and gave for it the commitment and the state root that it names.
pub proof fn lemma_vote_asked<A: AppHook>(
    app: A,
    restored: A,
    executed: A,
    s: RunnerView,
    p: ProposeView,
    block_bytes: usize,
    now: u64,
    roots: Seq<Hash32>,
    a: Answers,
    vote: VoteView,
    after: RunnerView,
)
    requires
        asked(app, restored, executed, s, p, now, roots, a),
        s.considers(p, block_bytes, now, roots, a, Ok(Some(vote)), after),
    ensures
        exists|block: Block, head: Block, ancestors: Vec<Block>|
            {
                &&& block@ == p.block
                &&& s.branch(p.block.parent) == Ok::<(BlockView, Seq<BlockView>), BranchError>(
                    (head@, block_views(ancestors@)),
                )
                &&& #[trigger] asks_preflight(app, s.context, block, head, ancestors, true)
                &&& asks_admission(app, s.context, head, ancestors, p.block.parent, true)
                &&& asks_validity(restored, block, true)
                &&& asks_execution(restored, block, p.block.app_hash)
                &&& asks_commitment(executed, block, Some(p.block.commitment_root))
                &&& asks_state_root(executed, block, Some(Some(p.block.app_hash)))
            },
{
    let (block, head, ancestors) = choose|block: Block, head: Block, ancestors: Vec<Block>|
        {
            &&& block@ == p.block
            &&& s.branch(p.block.parent) == Ok::<(BlockView, Seq<BlockView>), BranchError>(
                (head@, block_views(ancestors@)),
            )
            &&& #[trigger] asks_preflight(app, s.context, block, head, ancestors, a.preflight)
            &&& asks_admission(app, s.context, head, ancestors, p.block.parent, a.admits)
            &&& execution_asked(restored, executed, block, a)
        };
    assert(asks_preflight(app, s.context, block, head, ancestors, true));
}

/// A leader's block was filled by its application on the parent, accepted, executed and
/// sealed by it: the state and the commitment in it are those that the application gave,
/// and gave again for the final form.
pub proof fn lemma_draft_asked<A: AppHook>(
    restored: A,
    roomy: A,
    executed: A,
    sealed: A,
    s: RunnerView,
    view: u64,
    now: u64,
    a: DraftAnswers,
    b: BlockView,
    after: RunnerView,
)
    requires
        draft_asked(restored, roomy, executed, sealed, s, view, now, a, after),
        s.drafts(view, now, a, Ok(b), after),
    ensures
        payload_asked(restored, s.proposal_parent(), b.payload),
        exists|draft: Block, made: Block, last: Block|
            {
                &&& draft@ == s.own_block(view, b.payload, zero_hash(), zero_hash(), now)
                &&& made@ == (BlockView { app_hash: b.app_hash, ..draft@ })
                &&& last@ == b
                &&& #[trigger] asks_execution(roomy, draft, b.app_hash)
                &&& asks_validity(roomy, draft, true)
                &&& #[trigger] asks_derivation(executed, made, Some(b.commitment_root))
                &&& #[trigger] asks_seal(executed, last, true)
                &&& asks_commitment(sealed, last, Some(b.commitment_root))
                &&& asks_state_root(sealed, last, Some(Some(b.app_hash)))
            },
{
    let m = a.made;
    let view_of = s.draft(view, now, a);
    assert(exists|draft: Block| draft@ == view_of && #[trigger] drafting_asked(
        roomy,
        executed,
        sealed,
        draft,
        m,
    ));
    let draft = choose|draft: Block|
        draft@ == view_of && #[trigger] drafting_asked(roomy, executed, sealed, draft, m);
    let made = choose|made: Block|
        made@ == executed_draft(draft@, m) && #[trigger] asks_derivation(executed, made, m.derived);
    let last = choose|last: Block|
        last@ == sealed_draft(draft@, m) && #[trigger] sealing_asked(executed, sealed, last, m);
    assert(asks_execution(roomy, draft, b.app_hash));
    assert(asks_derivation(executed, made, Some(b.commitment_root)));
    assert(asks_seal(executed, last, true));
}

/// The journals are pruned to at most 64 blocks of at most 96 mebibytes, and keep the block
/// they are pruned around.
pub proof fn lemma_pruned_around(
    s: RunnerView,
    h: Hash32,
    roots: Seq<Hash32>,
    order: Seq<Hash32>,
    after: RunnerView,
)
    requires
        pruned_around(s, h, roots, order, after),
        s.store.blocks.contains_key(h),
    ensures
        after.store.speculative.len() <= 64,
        crate::consensus::store::bytes_of(after.store.speculative) <= 96 * 1024 * 1024,
        after.store.blocks.contains_key(h),
        s.rows.contains_key(h) ==> after.rows.contains_key(h),
        after == (RunnerView { store: after.store, rows: after.rows, ..s }),
{
    crate::consensus::runner::chain::lemma_roots(s, Some(h), roots, h);
    lemma_pruning_keeps_roots(s.store, roots, order, MAX_PENDING_BLOCKS, MAX_PENDING_BYTES);
    crate::consensus::store::lemma_pruning_within_limits(
        s.store,
        roots,
        order,
        MAX_PENDING_BLOCKS,
        MAX_PENDING_BYTES,
    );
}

/// A block that is admitted is in the cache within the limits for it: 64 blocks of 96
/// mebibytes with a certificate, 63 of 48 without; and in the durable journal, if there is
/// one.
pub proof fn lemma_journals(
    s: RunnerView,
    roots: Seq<Hash32>,
    b: BlockView,
    block_bytes: usize,
    after: RunnerView,
)
    requires
        journals(s, roots, b, block_bytes, after),
    ensures
        after.store.blocks.contains_key(block_hash(b)),
        s.durable ==> after.rows.contains_key(block_hash(b)),
        !s.durable ==> after.rows == s.rows,
        !s.store.blocks.contains_key(block_hash(b)) && b.justify is Some
            ==> after.store.speculative.len() <= 64 && crate::consensus::store::bytes_of(
            after.store.speculative,
        ) <= 96 * 1024 * 1024,
        !s.store.blocks.contains_key(block_hash(b)) && b.justify is None
            ==> after.store.speculative.len() <= 63 && crate::consensus::store::bytes_of(
            after.store.speculative,
        ) <= 48 * 1024 * 1024,
{
    if !s.store.blocks.contains_key(block_hash(b)) {
        crate::consensus::store::lemma_admission_within_limits(
            s.store,
            after.store,
            b,
            block_bytes,
            roots,
            RunnerView::pending_limit(b),
            byte_limit(b),
        );
        crate::consensus::store::lemma_admission(
            s.store,
            after.store,
            Ok(()),
            b,
            block_bytes,
            roots,
            RunnerView::pending_limit(b),
            byte_limit(b),
        );
    }
}

/// Fewer than three writes fail before one succeeds.
pub proof fn lemma_few_failures(a: RunnerView, b: RunnerView)
    requires
        few_failures(a, b),
    ensures
        b.attempts.len() <= a.attempts.len() + 4,
        !a.durable ==> b.attempts == a.attempts,
{
    let n = choose|n: nat|
        n < MAX_PERSIST_ATTEMPTS && (n > 0 ==> a.durable) && b.attempts == a.attempts
            + #[trigger] failed_attempts(n);
    reveal_with_fuel(failed_attempts, 4);
    if !a.durable {
        assert(b.attempts =~= a.attempts);
    }
}

/// What must stay when a follower admits a block: the blocks of its certificates, with that
/// of the proposal taken into account, and the parent of the block.
pub proof fn lemma_follower_roots(safety: SafetyView, b: BlockView, roots: Seq<Hash32>, h: Hash32)
    requires
        is_root_list(safety, b, roots),
    ensures
        roots.contains(h) <==> {
            ||| safety.high_qc matches Some(qc) && qc.block_hash == h
            ||| safety.locked_qc matches Some(qc) && qc.block_hash == h
            ||| h == b.parent
        },
        roots.no_duplicates(),
{
    assert(roots.contains(h) <==> roots.to_set().contains(h));
}

/// What the refusal of a proposal says of it is so.
pub proof fn lemma_proposal_refusal(s: RunnerView, p: ProposeView, now: u64)
    ensures
        ({
            let b = p.block;
            let parent = s.known_at(b.parent);
            match s.proposal_fault(p, now) {
                None => true,
                Some(ProposalError::Context) => p.context != s.context || b.context != s.context,
                Some(ProposalError::NotLeader) => b.proposer != s.config.leader(b.view),
                Some(ProposalError::Committee(e)) => s.config.fault() == Some(e),
                Some(ProposalError::Signature) => s.config.keyed() && !signature_ok(
                    p,
                    s.config.members(),
                ),
                Some(ProposalError::InvalidBlock) => b.payload.len() > 10 * 1024 * 1024 || (b.height > 0
                    && b.commitment_root == zero_hash()),
                Some(ProposalError::NotAboveCommitted { height, committed }) => height == b.height
                    && committed == s.committed_height && height <= committed,
                Some(ProposalError::NotOnHead) => b.height == next_or_max(s.committed_height)
                    && b.parent != s.committed_hash,
                Some(ProposalError::NotConnected) => b.height > next_or_max(s.committed_height)
                    && !s.connected(b.parent),
                Some(ProposalError::ParentMissing) => b.height != 1 && parent is None,
                Some(ProposalError::Timestamp) => b.height == 1 ==> !live_timestamp_ok(
                    b.timestamp,
                    0,
                    now,
                ),
                Some(ProposalError::NotOnGenesis) => b.height == 1 && b.parent != block_hash(
                    genesis_block(s.context),
                ),
                Some(ProposalError::UnexpectedQc) => b.height == 1 && (p.justify is Some || b.justify
                    is Some),
                Some(ProposalError::JustifyMismatch) => p.justify != b.justify,
                Some(ProposalError::MissingQc { height }) => height == b.height && height != 1
                    && b.justify is None,
                Some(ProposalError::QcContext) => b.justify matches Some(qc) && qc.context
                    != s.context,
                Some(ProposalError::QcNotParent) => b.justify matches Some(qc) && qc.block_hash
                    != b.parent,
                Some(ProposalError::HeightGap { height, parent: below }) => height == b.height && (
                parent matches Some(x) && x.height == below) && height != next_or_max(below),
                Some(ProposalError::QcView { qc, parent: view }) => (b.justify matches Some(c) && c.view
                    == qc) && (parent matches Some(x) && x.view == view) && qc != view,
                Some(ProposalError::Qc(e)) => (b.justify matches Some(qc) && (parent matches Some(x)
                    && certificate_check(
                    s.config.members(),
                    qc,
                    s.context,
                    x.view,
                    b.parent,
                    Some(x.app_hash),
                    s.config.keyed(),
                ) == Err::<(), VerifyError>(e))),
            }
        }),
{
}

/// What the refusal of a draft says of it is so.
pub proof fn lemma_draft_refusal(s: RunnerView, view: u64, now: u64, a: DraftAnswers, m: SealAnswers, draft: BlockView)
    ensures
        match s.draft_fault(view, now, a) {
            None => true,
            Some(LeaderError::Branch(e)) => s.branch(block_hash(s.proposal_parent())) == Err::<
                (BlockView, Seq<BlockView>),
                BranchError,
            >(e),
            Some(LeaderError::Restore) => !a.restored || !a.admits,
            Some(LeaderError::Refused) => a.restored && !a.preflight,
            Some(LeaderError::Unsafe(e)) => s.safety.check(s.draft(view, now, a), zero_hash())
                == Err::<(), SafetyError>(e),
            Some(LeaderError::NoRoom) => !s.admission_available(
                s.draft(view, now, a),
                seq![block_hash(s.proposal_parent())],
            ),
            Some(_) => false,
        },
        match seal_result(draft, m) {
            Ok(_) => true,
            Err(LeaderError::Refused) => !m.valid,
            Err(LeaderError::Commitment) => m.valid && (m.derived is None || !m.sealed
                || m.commitment_root != m.derived),
            Err(LeaderError::StateRoot) => m.valid && m.state_root != Some(Some(m.state)),
            Err(_) => false,
        },
{
}

} // verus!
