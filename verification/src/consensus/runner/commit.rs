//! Certificates and the commitment of blocks.

use vstd::prelude::*;

use crate::bytes::{byte_rows, contains_hash, hash_eq, lemma_push_set, option_hash_eq, Hash32};
use crate::consensus::committee::{
    by_voter, certificate_check, form_certificate, formation_fault, formed, verify_certificate,
    VerifyError,
};
use crate::consensus::equivocation::{proof_views, ProofView};
use crate::consensus::evidence::{committed_equivocation_proofs, EvidenceError};
use crate::consensus::hooks::{AppHook, EvidenceReading, ValidatorSetUpdate};
use crate::consensus::message_handler::{vote_map, votes_for};
use crate::consensus::persistence::{
    failed_attempts, has_record, record_keys, retry_delay_ms, Halt, Ledger, PersistentStore, Records, MAX_PERSIST_ATTEMPTS,
};
use crate::consensus::runner::asks::{
    asks_commit, asks_commitment, asks_notice, asks_state_root, asks_update, asks_validity,
    commitment_answer, holds, names_validators, record_fails, removal_fails, state_root_answer,
};
use crate::consensus::runner::chain::{
    are_roots, connected_to, lemma_ancestor_height, lemma_links_parent, links_to,
};
use crate::consensus::runner::proposal::{durable_form, few_failures, LeaderError};
use crate::consensus::runner::{ConsensusRunner, RunnerView};
use crate::consensus::safety::SafetyView;
use crate::consensus::store::{ancestor, block_map, named_by_hash, BlockStore};
use crate::crypto::sha256;
use crate::table::{has_key, lemma_row};
use crate::types::block::{
    block_hash, block_views, option_block, receipts_bytes, Block, BlockView, CommitmentV2,
};
use crate::types::certificate::{collect_voters, voters_of, Certificate, CertificateView};
use crate::types::committee::{quorum_check, CommitteeConfigError, QuorumError};
use crate::types::context::ConsensusContext;
use crate::types::messages::{ConsensusState, Prepare, PrepareView};
use crate::types::vote::{vote_views, Vote, VoteView};

verus! {

/// How many views of votes are kept after a commit.
pub const VOTE_RETENTION_VIEWS: u64 = 10;

/// The first view whose votes are kept after a commit.
pub open spec fn oldest_kept(committed_view: u64) -> u64 {
    if committed_view >= VOTE_RETENTION_VIEWS {
        (committed_view - VOTE_RETENTION_VIEWS) as u64
    } else {
        0
    }
}

/// The votes that are kept after a commit.
pub open spec fn kept_votes(votes: Map<Hash32, Seq<VoteView>>, committed_view: u64) -> Map<
    Hash32,
    Seq<VoteView>,
> {
    votes.restrict(
        Set::new(
            |h: Hash32| votes[h].len() > 0 && votes[h][0].view >= oldest_kept(committed_view),
        ),
    )
}

/// Blocks that extend a committed head, one after the other.
pub open spec fn extends_head(height: u64, hash: Hash32, blocks: Seq<BlockView>) -> bool {
    forall|i: int| 0 <= i < blocks.len() ==> #[trigger] extends_at(height, hash, blocks, i)
}

/// The block at a position extends the one before it, or the head.
pub open spec fn extends_at(height: u64, hash: Hash32, blocks: Seq<BlockView>, i: int) -> bool {
    &&& blocks[i].height == height + 1 + i
    &&& blocks[i].parent == (if i == 0 {
        hash
    } else {
        block_hash(blocks[i - 1])
    })
}

/// The name under which the block at a position of a walk is looked up.
pub open spec fn walk_key(target: Hash32, ps: Seq<BlockView>, i: int) -> Hash32 {
    if i == 0 {
        target
    } else {
        ps[i - 1].parent
    }
}

/// The next block of a walk extends a head.
pub open spec fn run_extends(height: u64, hash: Hash32, b: BlockView) -> bool {
    b.height == height + 1 && b.parent == hash
}

/// The blocks of a walk that extend a head one after the other, oldest first.
pub open spec fn run_of(height: u64, hash: Hash32, ps: Seq<BlockView>) -> Seq<BlockView>
    decreases ps.len(),
{
    if ps.len() == 0 {
        Seq::empty()
    } else if run_extends(height, hash, ps.last()) {
        seq![ps.last()] + run_of(ps.last().height, block_hash(ps.last()), ps.drop_last())
    } else {
        run_of(height, hash, ps.drop_last())
    }
}

/// The newest block of a walk is among those that extend the head.
pub open spec fn run_complete(height: u64, hash: Hash32, ps: Seq<BlockView>) -> bool
    decreases ps.len(),
{
    if ps.len() == 0 {
        false
    } else if ps.len() == 1 {
        run_extends(height, hash, ps[0])
    } else if run_extends(height, hash, ps.last()) {
        run_complete(ps.last().height, block_hash(ps.last()), ps.drop_last())
    } else {
        run_complete(height, hash, ps.drop_last())
    }
}

/// The blocks of a store once more blocks were made durable.
pub open spec fn with_blocks(rows: Map<Hash32, BlockView>, blocks: Seq<BlockView>) -> Map<
    Hash32,
    BlockView,
>
    decreases blocks.len(),
{
    if blocks.len() == 0 {
        rows
    } else {
        with_blocks(rows, blocks.drop_last()).insert(block_hash(blocks.last()), blocks.last())
    }
}

/// What the application and the durable store answer about a block that is to
/// be committed: whether its payload is valid, its execution commitment and
/// state root, whether it is recorded, the state after it was applied, whether
/// it is published, how the evidence in it is dropped, and whether the
/// validators change. A failure counts as none.
pub ghost struct CommitAnswers {
    pub valid: bool,
    pub commitment_root: Option<Hash32>,
    pub state_root: Option<Option<Hash32>>,
    pub recorded: bool,
    pub applied: Option<Hash32>,
    pub published: bool,
    pub dropped: Result<(), DropFault>,
    pub new_validators: bool,
}

impl CommitAnswers {
    /// The block is recorded, and the application is to apply it.
    pub open spec fn applies(self, b: BlockView) -> bool {
        preflight_result(b, self.valid, self.commitment_root, self.state_root) is Ok && self.recorded
    }

    /// The block is applied with its state, and the application is to publish
    /// it.
    pub open spec fn publishes(self, b: BlockView) -> bool {
        self.applies(b) && self.applied == Some(b.app_hash)
    }

    /// The block is published and the evidence in it dropped, and the
    /// application is to hand out a change of the validators.
    pub open spec fn updates(self, b: BlockView) -> bool {
        self.publishes(b) && self.published && self.dropped is Ok
    }
}

/// The calls that change the application while a block is committed: what was
/// answered, and the application before the first call, after it applied the
/// block, after it published it, and at the end; and how many writes of the
/// block failed before.
pub ghost struct CommitCalls<A> {
    pub block: Block,
    pub commitment: CommitmentV2,
    pub failures: nat,
    pub before: A,
    pub commit: Result<Hash32, String>,
    pub applied: A,
    pub notice: Result<(), String>,
    pub published: A,
    pub update: Option<ValidatorSetUpdate>,
    pub after: A,
    pub answers: CommitAnswers,
}

/// What comes of the checks before a block is made durable.
pub open spec fn preflight_result(
    b: BlockView,
    valid: bool,
    commitment_root: Option<Hash32>,
    state_root: Option<Option<Hash32>>,
) -> Result<(), Halt> {
    if !valid {
        Err(Halt::BlockRefused { height: b.height })
    } else if commitment_root != Some(b.commitment_root) {
        Err(Halt::Commitment { height: b.height })
    } else if state_root != Some(Some(b.app_hash)) {
        Err(Halt::StateRoot { height: b.height })
    } else {
        Ok(())
    }
}

/// What comes of committing a block, given the answers.
pub open spec fn commit_result(b: BlockView, a: CommitAnswers) -> Result<(), Halt> {
    let height = b.height;
    match preflight_result(b, a.valid, a.commitment_root, a.state_root) {
        Err(h) => Err(h),
        Ok(()) => if !a.recorded {
            Err(Halt::CommitNotPersisted { height })
        } else if a.applied != Some(b.app_hash) {
            Err(Halt::ApplicationCommit { height })
        } else if !a.published {
            Err(Halt::Notification { height })
        } else if a.dropped == Err::<(), DropFault>(DropFault::Evidence) {
            Err(Halt::CommittedEvidence { height })
        } else if a.dropped is Err {
            Err(Halt::EvidenceNotDeleted { height })
        } else if a.new_validators {
            Err(Halt::ValidatorUpdate { height })
        } else {
            Ok(())
        },
    }
}

/// The application is asked about a block before it is made durable, each
/// question only after the answers before it fit.
pub open spec fn preflight_asked<A: AppHook>(
    app: A,
    block: Block,
    valid: bool,
    commitment_root: Option<Hash32>,
    state_root: Option<Option<Hash32>>,
) -> bool {
    &&& asks_validity(app, block, valid)
    &&& valid ==> asks_commitment(app, block, commitment_root)
    &&& valid && commitment_root == Some(block@.commitment_root) ==> asks_state_root(
        app,
        block,
        state_root,
    )
}

impl<A> CommitCalls<A> {
    /// The receipts of the execution commitment.
    pub open spec fn receipts(self) -> Seq<Seq<u8>> {
        byte_rows(self.commitment.receipts@)
    }

    /// The records of a node about finalized blocks once this one is durable.
    pub open spec fn ledger_after(self, s: RunnerView) -> Ledger {
        if s.durable {
            s.ledger.with_block(self.block@, Some(self.receipts()), Some(self.block@.app_hash))
        } else {
            s.ledger
        }
    }
}

/// The answers about a block that is to be committed are those that the
/// application and the durable store gave when they were asked, each question
/// only after the answers before it fit. A call that is not made leaves the
/// application as it is.
pub open spec fn commit_asked<A: AppHook, P: PersistentStore>(
    c: CommitCalls<A>,
    s: RunnerView,
) -> bool {
    let b = c.block@;
    let a = c.answers;
    &&& preflight_asked(c.before, c.block, a.valid, a.commitment_root, a.state_root)
    &&& if preflight_result(b, a.valid, a.commitment_root, a.state_root) is Ok {
        &&& call_ensures(A::preflight_commitment, (&c.before, &c.block), Ok(Some(c.commitment)))
        &&& sha256(receipts_bytes(c.receipts())) == b.commitment_root
        &&& if a.recorded {
            c.failures < MAX_PERSIST_ATTEMPTS && (c.failures > 0 ==> s.durable)
        } else {
            &&& c.failures == MAX_PERSIST_ATTEMPTS
            &&& exists|store: P|
                holds(store, s) && #[trigger] record_fails(
                    store,
                    c.block,
                    c.commitment,
                    durable_form(s, s.safety, b.height, block_hash(b)),
                )
        }
    } else {
        c.failures == 0
    }
    &&& if a.applies(b) {
        asks_commit(c.before, c.block, a.applied) && a.applied == (match c.commit {
            Ok(h) => Some(h),
            Err(_) => None,
        })
    } else {
        c.applied == c.before
    }
    &&& if a.publishes(b) {
        &&& asks_notice(c.applied, c.block, c.commitment, a.published)
        &&& a.published == (c.notice is Ok)
    } else {
        c.published == c.applied
    }
    &&& a.publishes(b) && a.published ==> evidence_dropped::<A, P>(c, s)
    &&& if a.updates(b) {
        asks_update(c.published, a.new_validators) && a.new_validators == names_validators(c.update)
    } else {
        c.after == c.published
    }
}

/// The evidence in a committed block is dropped, or why it is not. Without a
/// durable store there is none to drop.
pub open spec fn evidence_dropped<A: AppHook, P: PersistentStore>(
    c: CommitCalls<A>,
    s: RunnerView,
) -> bool {
    let b = c.block@;
    let carried = carried_evidence(A::evidence_in(b.payload), s.context);
    match c.answers.dropped {
        Ok(()) => s.durable ==> carried is Some,
        Err(DropFault::Evidence) => s.durable && carried is None,
        Err(DropFault::Store) => s.durable && drop_fails::<A, P>(
            head_moved(c, s, s.evidence),
            b,
        ),
    }
}

/// The durable store of a node, with the records that are left, fails to remove
/// a piece of the evidence in a block.
pub open spec fn drop_fails<A: AppHook, P: PersistentStore>(s: RunnerView, b: BlockView) -> bool {
    A::evidence_in(b.payload) matches Some(Ok(list)) && exists|store: P|
        {
            &&& holds(store, (RunnerView { evidence: store.evidence(), ..s }))
            &&& store.evidence().submap_of(s.evidence)
            &&& #[trigger] removal_fails(store, list)
        }
}

/// The runner once the committed head moved to a block, before anything is
/// forgotten. The block is applied, and recorded if there is a durable store.
pub open spec fn head_moved<A>(c: CommitCalls<A>, s: RunnerView, evidence: Records) -> RunnerView {
    let b = c.block@;
    let hash = block_hash(b);
    RunnerView {
        committed_height: b.height,
        committed_hash: hash,
        applied: s.applied.push(b),
        durable_state: if s.durable {
            Some(durable_form(s, s.safety, b.height, hash))
        } else {
            s.durable_state
        },
        rows: if s.durable {
            s.rows.insert(hash, b)
        } else {
            s.rows
        },
        ledger: c.ledger_after(s),
        attempts: s.attempts + failed_attempts(c.failures),
        evidence,
        store: s.store.with_committed(hash),
        ..s
    }
}

/// The runner once its cache was reduced to what roots depend on; without a
/// durable store the cache stays.
pub open spec fn cache_reduced(s: RunnerView, roots: Seq<Hash32>) -> RunnerView {
    RunnerView {
        store: if s.durable {
            s.store.cache_pruned(roots)
        } else {
            s.store
        },
        ..s
    }
}

/// The effect of committing a block: the head moves to it, the records of the
/// evidence in it are gone, and pending blocks that nothing depends on, and
/// votes below its view, are forgotten.
pub open spec fn commit_step<A: AppHook>(
    c: CommitCalls<A>,
    s: RunnerView,
    after: RunnerView,
) -> bool {
    let b = c.block@;
    let moved = head_moved(c, s, after.evidence);
    &&& if s.durable {
        drops_committed(
            A::evidence_in(b.payload),
            s.context,
            s.evidence,
            after.evidence,
            Ok(()),
        )
    } else {
        after.evidence == s.evidence
    }
    &&& exists|cache_roots: Seq<Hash32>, roots: Seq<Hash32>|
        {
            &&& s.durable ==> are_roots(moved, None, cache_roots)
            &&& #[trigger] are_roots(cache_reduced(moved, cache_roots), None, roots)
            &&& after == (RunnerView {
                safety: SafetyView {
                    voted: s.safety.voted.filter(|v: u64| v >= b.view),
                    ..s.safety
                },
                detector: s.detector.pruned_below(b.view),
                votes: kept_votes(s.votes, b.view),
                ..cache_reduced(moved, cache_roots).pending_pruned(roots)
            })
        }
}

/// A block that extends the head is committed: it passes all questions of its
/// commit.
pub open spec fn commits_next<A: AppHook, P: PersistentStore>(
    c: CommitCalls<A>,
    b: BlockView,
    s: RunnerView,
    last: A,
    after: RunnerView,
) -> bool {
    &&& run_extends(s.committed_height, s.committed_hash, b)
    &&& c.block@ == b
    &&& c.after == last
    &&& commit_asked::<A, P>(c, s)
    &&& commit_result(b, c.answers) is Ok
    &&& commit_step(c, s, after)
}

/// The blocks of a walk are dealt with, oldest first: each one that extends the
/// head is committed, with questions that are put to the application as the
/// commit before it left it, and each other one becomes pending again.
pub open spec fn settled<A: AppHook, P: PersistentStore>(
    app: A,
    s: RunnerView,
    ps: Seq<BlockView>,
    log: Seq<CommitCalls<A>>,
    last: A,
    after: RunnerView,
) -> bool
    decreases ps.len(),
{
    if ps.len() == 0 {
        log.len() == 0 && last == app && after == s
    } else {
        ||| log.len() > 0 && exists|mid: RunnerView|
            settled::<A, P>(
                app,
                s,
                ps.drop_first(),
                log.drop_last(),
                log.last().before,
                mid,
            ) && #[trigger] commits_next::<A, P>(log.last(), ps[0], mid, last, after)
        ||| exists|mid: RunnerView|
            settled::<A, P>(app, s, ps.drop_first(), log, last, mid) && #[trigger] mid.puts_back(
                ps[0],
                after,
            )
    }
}

/// The node stops at a block of a walk, once the older ones were dealt with,
/// because of an answer about it.
pub open spec fn halts_at<A: AppHook, P: PersistentStore>(
    app: A,
    s: RunnerView,
    ps: Seq<BlockView>,
    k: int,
    log: Seq<CommitCalls<A>>,
    h: Halt,
    last: A,
    after: RunnerView,
) -> bool {
    let c = log.last();
    let run = run_of(s.committed_height, s.committed_hash, ps);
    &&& 0 <= k < ps.len()
    &&& 0 < log.len() <= run.len()
    &&& c.block@ == ps[k]
    &&& c.after == last
    &&& commit_result(ps[k], c.answers) == Err::<(), Halt>(h)
    &&& exists|mid: RunnerView|
        {
            &&& s.advances(run.take(log.len() - 1), mid)
            &&& settled::<A, P>(app, s, ps.skip(k + 1), log.drop_last(), c.before, mid)
            &&& run_extends(mid.committed_height, mid.committed_hash, ps[k])
            &&& #[trigger] commit_asked::<A, P>(c, mid)
            &&& mid.commit_halts(c, h, after)
        }
}

/// What comes of a walk: its blocks are no longer pending, and those that extend
/// the head are committed, one after the other, unless an answer about one of
/// them stops the node there. Where no block extends the head nothing is asked.
pub open spec fn run_outcome<A: AppHook, P: PersistentStore>(
    app: A,
    s: RunnerView,
    target: Hash32,
    ps: Seq<BlockView>,
    r: Result<Option<BlockView>, Halt>,
    log: Seq<CommitCalls<A>>,
    last: A,
    after: RunnerView,
) -> bool {
    let first = s.taken_out(target, ps);
    match r {
        Ok(b) => {
            &&& first.advances(run_of(s.committed_height, s.committed_hash, ps), after)
            &&& settled::<A, P>(app, first, ps, log, last, after)
            &&& b == (if run_complete(s.committed_height, s.committed_hash, ps) {
                Some(ps[0])
            } else {
                None
            })
        },
        Err(h) => exists|k: int| #[trigger] halts_at::<A, P>(app, first, ps, k, log, h, last, after),
    }
}

/// What comes of committing a block with its uncommitted ancestors.
pub open spec fn commits_run<A: AppHook, P: PersistentStore>(
    app: A,
    s: RunnerView,
    target: Hash32,
    r: Result<Option<BlockView>, Halt>,
    log: Seq<CommitCalls<A>>,
    last: A,
    after: RunnerView,
) -> bool {
    exists|ps: Seq<BlockView>| #[trigger]
        s.uncommitted(target, ps) && run_outcome::<A, P>(app, s, target, ps, r, log, last, after)
}

/// What comes of a certificate: it raises the highest certificate and the lock,
/// and the parent of its block is committed with its ancestors.
pub open spec fn takes<A: AppHook, P: PersistentStore>(
    app: A,
    s: RunnerView,
    qc: CertificateView,
    r: Result<Option<BlockView>, Halt>,
    log: Seq<CommitCalls<A>>,
    last: A,
    after: RunnerView,
) -> bool {
    if s.takes_qc(qc) && s.known()[qc.block_hash].height > 0 {
        commits_run::<A, P>(
            app,
            s.with_qc(qc),
            s.known()[qc.block_hash].parent,
            r,
            log,
            last,
            after,
        )
    } else {
        &&& r == Ok::<Option<BlockView>, Halt>(None)
        &&& log.len() == 0
        &&& last == app
        &&& after == (if s.takes_qc(qc) {
            s.with_qc(qc)
        } else {
            s
        })
    }
}

/// What comes of a certificate that ends a round: it is taken into account, and
/// the node moves to the next view unless it had to stop.
pub open spec fn ends_round<A: AppHook, P: PersistentStore>(
    app: A,
    s: RunnerView,
    qc: CertificateView,
    r: Result<(), Halt>,
    log: Seq<CommitCalls<A>>,
    last: A,
    after: RunnerView,
) -> bool {
    match r {
        Ok(()) => exists|b: Option<BlockView>, mid: RunnerView| #[trigger]
            takes::<A, P>(app, s, qc, Ok(b), log, last, mid) && moved_to_next(mid, after),
        Err(h) => takes::<A, P>(app, s, qc, Err(h), log, last, after),
    }
}

/// Whether a node goes on or stops.
pub open spec fn verdict<T>(r: Result<T, Halt>) -> Result<(), Halt> {
    match r {
        Ok(_) => Ok(()),
        Err(h) => Err(h),
    }
}

/// The contents of the result of a commit.
pub open spec fn block_result(r: Result<Option<Block>, Halt>) -> Result<Option<BlockView>, Halt> {
    match r {
        Ok(b) => Ok(option_block(b)),
        Err(h) => Err(h),
    }
}

impl RunnerView {
    /// The effect of committing blocks one after the other: they extend the
    /// committed head without a gap, the last one is the new head, each is
    /// applied once and in this order, and durable if anything is, and only
    /// votes below the committed views are forgotten. Of the pending blocks
    /// this says nothing.
    pub open spec fn advances(self, blocks: Seq<BlockView>, after: RunnerView) -> bool {
        &&& extends_head(self.committed_height, self.committed_hash, blocks)
        &&& blocks.len() == 0 ==> after == (RunnerView { pending: after.pending, ..self })
        &&& blocks.len() > 0 ==> {
            &&& after.committed_height == blocks.last().height
            &&& after.committed_hash == block_hash(blocks.last())
            &&& self.durable ==> after.durable_state is Some
                && after.durable_state->Some_0.committed_hash == after.committed_hash
                && after.durable_state->Some_0.committed_height == after.committed_height
                && after.durable_state->Some_0.high_qc == self.safety.high_qc
                && after.ledger.head == Some(after.committed_hash)
            &&& after.safety.high_qc == self.safety.high_qc
            &&& after.safety.locked_qc == self.safety.locked_qc
            &&& after.safety.context == self.safety.context
            &&& after.safety.voted.subset_of(self.safety.voted)
            &&& forall|v: u64|
                self.safety.voted.contains(v) && (forall|i: int|
                    0 <= i < blocks.len() ==> v >= (#[trigger] blocks[i]).view)
                    ==> after.safety.voted.contains(v)
            &&& after.store.committed == Some(after.committed_hash)
            &&& after.evidence.submap_of(self.evidence)
            &&& after.applied == self.applied + blocks
            &&& after.rows == (if self.durable {
                with_blocks(self.rows, blocks)
            } else {
                self.rows
            })
            &&& after.staged == self.staged
            &&& after.pacemaker == self.pacemaker
            &&& after.config == self.config
            &&& after.context == self.context
            &&& after.durable == self.durable
            &&& after.timeouts == self.timeouts
            &&& after.limiter == self.limiter
        }
    }

    /// The block at a position of the walk up the parent links from a block:
    /// it is above the committed height, and all before it are more than one
    /// height above.
    pub open spec fn walk_link(self, target: Hash32, ps: Seq<BlockView>, i: int) -> bool {
        &&& self.known_at(walk_key(target, ps, i)) == Some(ps[i])
        &&& ps[i].height > self.committed_height
        &&& i > 0 ==> ps[i - 1].height > self.committed_height + 1
    }

    /// The walk up the parent links is over: at the height after the committed
    /// one, where a block is not known or committed, or in a cycle.
    pub open spec fn walk_over(self, target: Hash32, ps: Seq<BlockView>) -> bool {
        let next = walk_key(target, ps, ps.len() as int);
        ||| ps.len() > 0 && ps.last().height == self.committed_height + 1
        ||| self.known_at(next) is None
        ||| self.known_at(next)->Some_0.height <= self.committed_height
        ||| exists|k: int| 0 <= k < ps.len() && #[trigger] walk_key(target, ps, k) == next
    }

    /// The blocks from a block up to its oldest uncommitted ancestor, newest
    /// first.
    pub open spec fn uncommitted(self, target: Hash32, ps: Seq<BlockView>) -> bool {
        &&& forall|i: int| 0 <= i < ps.len() ==> #[trigger] self.walk_link(target, ps, i)
        &&& self.walk_over(target, ps)
    }

    /// A walk looked a block up: the blocks of the walk, and the one after the
    /// last unless that is at the height after the committed one.
    pub open spec fn walked(self, target: Hash32, ps: Seq<BlockView>, h: Hash32) -> bool {
        exists|i: int|
            0 <= i <= ps.len() && (i > 0 && i == ps.len() ==> ps.last().height
                > self.committed_height + 1) && #[trigger] walk_key(target, ps, i) == h
    }

    /// The runner once what a walk looked up is no longer pending.
    pub open spec fn taken_out(self, target: Hash32, ps: Seq<BlockView>) -> RunnerView {
        RunnerView {
            pending: self.pending.remove_keys(Set::new(|h: Hash32| self.walked(target, ps, h))),
            ..self
        }
    }

    /// A block that does not extend the head becomes pending again, if there is
    /// room.
    pub open spec fn puts_back(self, b: BlockView, after: RunnerView) -> bool {
        &&& !run_extends(self.committed_height, self.committed_hash, b)
        &&& after == (if self.pending_fault(b) is None {
            RunnerView { pending: self.pending.insert(block_hash(b), b), ..self }
        } else {
            self
        })
    }

    /// What comes of committing a block with its uncommitted ancestors: the
    /// blocks of the walk that extend the head one after the other are
    /// committed, and the block is returned if it is one of them.
    pub open spec fn settles(self, target: Hash32, r: Option<BlockView>, after: RunnerView) -> bool {
        exists|ps: Seq<BlockView>|
            {
                &&& #[trigger] self.uncommitted(target, ps)
                &&& self.advances(run_of(self.committed_height, self.committed_hash, ps), after)
                &&& r == (if run_complete(self.committed_height, self.committed_hash, ps) {
                    Some(ps[0])
                } else {
                    None
                })
            }
    }

    /// What comes of a certificate: it raises the highest certificate and the
    /// lock, and the parent of its block is committed.
    pub open spec fn settles_qc(self, qc: CertificateView, r: Option<BlockView>, after: RunnerView) -> bool {
        if !self.takes_qc(qc) {
            r is None && after == self
        } else if self.known()[qc.block_hash].height == 0 {
            r is None && after == self.with_qc(qc)
        } else {
            self.with_qc(qc).settles(self.known()[qc.block_hash].parent, r, after)
        }
    }

    /// Where a node stands that had to stop while it committed a block. Until
    /// the block is durable nothing has changed, it is applied only after that,
    /// and until the application has it too the committed head is the old one.
    pub open spec fn commit_halts<A>(self, c: CommitCalls<A>, h: Halt, after: RunnerView) -> bool {
        let b = c.block@;
        let recorded = RunnerView {
            durable_state: after.durable_state,
            rows: after.rows,
            ledger: after.ledger,
            attempts: self.attempts + failed_attempts(c.failures),
            ..self
        };
        let applied = RunnerView { applied: self.applied.push(b), ..recorded };
        let durable = self.durable ==> after.durable_state == Some(
            durable_form(self, self.safety, b.height, block_hash(b)),
        ) && after.rows == self.rows.insert(block_hash(b), b) && after.ledger == c.ledger_after(
            self,
        );
        match h {
            Halt::BlockRefused { height } | Halt::Commitment { height } | Halt::StateRoot { height } => {
                height == b.height && after == self
            },
            Halt::CommitNotPersisted { height } => {
                height == b.height && self.durable && after == recorded && (durable || (
                after.durable_state == self.durable_state && after.rows == self.rows && after.ledger
                    == self.ledger))
            },
            Halt::ApplicationCommit { height } => {
                height == b.height && durable && after == (RunnerView {
                    applied: after.applied,
                    ..recorded
                })
            },
            Halt::Notification { height } => height == b.height && durable && after == applied,
            Halt::CommittedEvidence { height } | Halt::EvidenceNotDeleted { height } => {
                &&& height == b.height
                &&& self.durable
                &&& durable
                &&& after == (RunnerView { evidence: after.evidence, ..applied })
                &&& after.evidence.submap_of(self.evidence)
            },
            Halt::ValidatorUpdate { height } => {
                &&& height == b.height
                &&& durable
                &&& after == (RunnerView {
                    committed_height: b.height,
                    committed_hash: block_hash(b),
                    store: after.store,
                    evidence: after.evidence,
                    ..applied
                })
                &&& after.evidence.submap_of(self.evidence)
            },
            _ => false,
        }
    }

    /// A certificate is taken into account: it is of the node's context and
    /// its block is known and connected.
    pub open spec fn takes_qc(self, qc: CertificateView) -> bool {
        &&& qc.context == self.context
        &&& self.known().contains_key(qc.block_hash)
        &&& self.connected(block_hash(self.known()[qc.block_hash]))
    }

    /// The runner with the voting rules after a certificate.
    pub open spec fn with_qc(self, qc: CertificateView) -> RunnerView {
        let raised = self.safety.after_high_qc(qc);
        RunnerView {
            safety: match self.known()[qc.block_hash].justify {
                Some(justify) => raised.after_locked_qc(justify),
                None => raised,
            },
            ..self
        }
    }

    /// What comes of a certificate that ends a round: it is taken into
    /// account, and the node moves to the next view.
    pub open spec fn follows(self, qc: CertificateView, after: RunnerView) -> bool {
        exists|r: Option<BlockView>, mid: RunnerView| #[trigger]
            self.settles_qc(qc, r, mid) && moved_to_next(mid, after)
    }

    /// Why a certification announcement is refused.
    pub open spec fn prepare_fault(self, p: PrepareView) -> Option<PrepareError> {
        let b = self.known()[p.qc.block_hash];
        if p.context != self.context || p.qc.context != self.context {
            Some(PrepareError::Context)
        } else if self.config.fault() is Some {
            Some(PrepareError::Committee(self.config.fault()->Some_0))
        } else if !self.known().contains_key(p.qc.block_hash) {
            Some(PrepareError::UnknownBlock)
        } else if !self.connected(block_hash(b)) {
            Some(PrepareError::NotConnected)
        } else if b.view != p.view {
            Some(PrepareError::ViewMismatch)
        } else {
            match certificate_check(
                self.config.members(),
                p.qc,
                self.context,
                p.view,
                p.qc.block_hash,
                Some(b.app_hash),
                self.config.keyed(),
            ) {
                Ok(()) => None,
                Err(e) => Some(PrepareError::Qc(e)),
            }
        }
    }
}

/// Why a certification announcement is refused.
#[derive(Clone, Copy, Debug, PartialEq, Eq)]
pub enum PrepareError {
    /// It or its certificate belongs to another context.
    Context,
    /// The configuration describes no committee.
    Committee(CommitteeConfigError),
    /// The certified block is not known.
    UnknownBlock,
    /// The certified block is not connected to the committed head.
    NotConnected,
    /// The certified block is of another view.
    ViewMismatch,
    /// The certificate does not verify.
    Qc(VerifyError),
}

/// Two runs of blocks, one after the other, are one run.
proof fn lemma_advances_join(a: RunnerView, b1: Seq<BlockView>, mid: RunnerView, last: BlockView, c: RunnerView)
    requires
        a.advances(b1, mid),
        mid.advances(seq![last], c),
    ensures
        a.advances(b1.push(last), c),
{
    let all = b1.push(last);
    assert(extends_at(mid.committed_height, mid.committed_hash, seq![last], 0));
    assert forall|i: int| 0 <= i < all.len() implies #[trigger] extends_at(
        a.committed_height,
        a.committed_hash,
        all,
        i,
    ) by {
        if i < b1.len() {
            assert(extends_at(a.committed_height, a.committed_hash, b1, i));
            assert(all[i] == b1[i]);
            if i > 0 {
                assert(all[i - 1] == b1[i - 1]);
            }
        } else {
            if b1.len() > 0 {
                assert(extends_at(a.committed_height, a.committed_hash, b1, b1.len() - 1));
                assert(all[i - 1] == b1.last());
            }
        }
    }
    assert(seq![last].last() == last);
    assert(all.last() == last);
    assert(c.evidence.submap_of(a.evidence)) by {
        assert forall|k: Seq<u8>| #[trigger] c.evidence.dom().contains(k) implies a.evidence.dom().contains(
            k,
        ) && c.evidence[k] == a.evidence[k] by {
            assert(mid.evidence.dom().contains(k));
        }
    }
    assert(c.applied =~= a.applied + all) by {
        assert(mid.applied =~= a.applied + b1);
    }
    assert(all.drop_last() =~= b1);
    assert(with_blocks(a.rows, all) == with_blocks(a.rows, b1).insert(block_hash(last), last));
    assert(b1.len() == 0 ==> with_blocks(a.rows, b1) == a.rows);
    assert(seq![last].drop_last() =~= Seq::empty());
    assert(with_blocks(mid.rows, seq![last]) == mid.rows.insert(block_hash(last), last)) by {
        reveal_with_fuel(with_blocks, 2);
    }
    assert(c.safety.voted.subset_of(a.safety.voted));
    assert(all.len() > 0);
    assert forall|v: u64|
        a.safety.voted.contains(v) && (forall|i: int| 0 <= i < all.len()
            ==> v >= (#[trigger] all[i]).view) implies c.safety.voted.contains(
    v) by {
        assert(all[b1.len() as int] == last);
        assert forall|i: int| 0 <= i < b1.len() implies v >= (#[trigger] b1[i]).view by {
            assert(all[i] == b1[i]);
        }
        assert(mid.safety.voted.contains(v));
        assert forall|i: int| 0 <= i < seq![last].len() implies v >= (#[trigger] seq![last][i]).view by {
            assert(seq![last][i] == last);
        }
    }
}

/// Commits move the committed head forward by exactly the number of blocks
/// that were committed, and each of them builds on the one before it.
pub proof fn lemma_commits_sequential(a: RunnerView, blocks: Seq<BlockView>, b: RunnerView)
    requires
        a.advances(blocks, b),
    ensures
        b.committed_height == a.committed_height + blocks.len(),
        blocks.len() > 0 ==> blocks[0].parent == a.committed_hash,
{
    if blocks.len() > 0 {
        assert(extends_at(a.committed_height, a.committed_hash, blocks, blocks.len() - 1));
        assert(extends_at(a.committed_height, a.committed_hash, blocks, 0));
    }
}

/// A block that is not known, or not above the committed height, is not
/// committed. It is no longer pending, and nothing else happens.
pub proof fn lemma_nothing_to_commit<A: AppHook, P: PersistentStore>(
    app: A,
    s: RunnerView,
    target: Hash32,
    r: Result<Option<BlockView>, Halt>,
    log: Seq<CommitCalls<A>>,
    last: A,
    after: RunnerView,
)
    requires
        commits_run::<A, P>(app, s, target, r, log, last, after),
        s.known_at(target) is None || s.known_at(target)->Some_0.height <= s.committed_height,
    ensures
        r == Ok::<Option<BlockView>, Halt>(None),
        last == app,
        after == (RunnerView { pending: s.pending.remove(target), ..s }),
{
    let ps = choose|ps: Seq<BlockView>| #[trigger]
        s.uncommitted(target, ps) && run_outcome::<A, P>(app, s, target, ps, r, log, last, after);
    if ps.len() > 0 {
        assert(s.walk_link(target, ps, 0));
    }
    assert(ps.len() == 0);
    assert(walk_key(target, ps, 0) == target);
    assert(s.taken_out(target, ps).pending =~= s.pending.remove(target));
}

/// A known block that extends the committed head is committed, unless the
/// application or the durable store gives an answer that stops the node. A
/// durable store then has it with the execution commitment that the application
/// gave and with its state root.
pub proof fn lemma_commit_owed<A: AppHook, P: PersistentStore>(
    app: A,
    s: RunnerView,
    target: Hash32,
    b: BlockView,
    r: Result<Option<BlockView>, Halt>,
    log: Seq<CommitCalls<A>>,
    last: A,
    after: RunnerView,
)
    requires
        commits_run::<A, P>(app, s, target, r, log, last, after),
        s.known_at(target) == Some(b),
        run_extends(s.committed_height, s.committed_hash, b),
        forall|c: CommitCalls<A>|
            c.before == app && c.block@ == b && #[trigger] commit_asked::<A, P>(
                c,
                (RunnerView { pending: s.pending.remove(target), ..s }),
            ) ==> commit_result(b, c.answers) is Ok,
    ensures
        r == Ok::<Option<BlockView>, Halt>(Some(b)),
        after.committed_height == b.height,
        after.committed_hash == block_hash(b),
        after.applied == s.applied.push(b),
        s.durable ==> after.rows == s.rows.insert(block_hash(b), b),
        log.len() == 1,
        s.durable ==> after.ledger == s.ledger.with_block(
            b,
            Some(log[0].receipts()),
            Some(b.app_hash),
        ),
        sha256(receipts_bytes(log[0].receipts())) == b.commitment_root,
{
    let ps = choose|ps: Seq<BlockView>| #[trigger]
        s.uncommitted(target, ps) && run_outcome::<A, P>(app, s, target, ps, r, log, last, after);
    if ps.len() > 1 {
        assert(s.walk_link(target, ps, 0));
        assert(s.walk_link(target, ps, 1));
    }
    if ps.len() > 0 {
        assert(s.walk_link(target, ps, 0));
    }
    assert(ps =~= seq![b]);
    let run = run_of(s.committed_height, s.committed_hash, ps);
    assert(ps.drop_last() =~= Seq::empty());
    assert(run_of(b.height, block_hash(b), ps.drop_last()) =~= Seq::empty());
    assert(run =~= seq![b]);
    let first = RunnerView { pending: s.pending.remove(target), ..s };
    assert(s.taken_out(target, ps) == first) by {
        assert(walk_key(target, ps, 0) == target);
        assert(s.taken_out(target, ps).pending =~= first.pending);
    }
    if let Err(h) = r {
        let k = choose|k: int| #[trigger] halts_at::<A, P>(app, first, ps, k, log, h, last, after);
        assert(ps.skip(k + 1) =~= Seq::empty());
        assert(log.len() == 1);
        assert(false);
    }
    assert(ps.drop_first() =~= Seq::empty());
    reveal_with_fuel(settled, 2);
    assert(after.applied =~= s.applied.push(b));
    assert(run.drop_last() =~= Seq::empty());
    reveal_with_fuel(with_blocks, 2);
}

/// A node that stops while it commits a block keeps its committed head, its
/// votes and its certificates, unless it stops because the validators changed.
pub proof fn lemma_halted_commit_keeps_head<A>(
    s: RunnerView,
    c: CommitCalls<A>,
    h: Halt,
    after: RunnerView,
)
    requires
        s.commit_halts(c, h, after),
        !(h is ValidatorUpdate),
    ensures
        after.committed_height == s.committed_height,
        after.committed_hash == s.committed_hash,
        after.safety == s.safety,
        after.pending == s.pending,
        after.store == s.store,
{
}

/// Why recorded evidence that blocks carry is not removed.
#[derive(Clone, Copy, Debug, PartialEq, Eq)]
pub enum DropFault {
    /// The payload does not decode, or its evidence is malformed or of another
    /// context.
    Evidence,
    /// The store does not remove a record.
    Store,
}

/// The evidence that a payload carries, if it decodes, is well-formed and all
/// of one context.
pub open spec fn carried_evidence(reading: EvidenceReading, context: ConsensusContext) -> Option<
    Seq<ProofView>,
> {
    match reading {
        Some(Ok(list)) => if forall|i: int| 0 <= i < list.len() ==> (#[trigger] list[i]).context == context {
            Some(list)
        } else {
            None
        },
        _ => None,
    }
}

/// What the removal of the evidence in a payload does: the records of all that
/// it carries are gone, and no others; where it fails, records are only ever
/// removed.
pub open spec fn drops_committed(
    reading: EvidenceReading,
    context: ConsensusContext,
    before: Records,
    after: Records,
    r: Result<(), DropFault>,
) -> bool {
    let carried = carried_evidence(reading, context);
    match r {
        Ok(()) => carried matches Some(list) && after == before.remove_keys(record_keys(list)),
        Err(DropFault::Evidence) => carried is None && after.submap_of(before),
        Err(DropFault::Store) => reading is Some && reading->Some_0 is Ok && after.submap_of(before),
    }
}

/// Removes the records of the evidence that a payload carries.
pub(crate) fn drop_committed<A: AppHook, P: PersistentStore>(
    app: &A,
    p: &mut P,
    payload: &Vec<u8>,
    context: ConsensusContext,
) -> (r: Result<(), DropFault>)
    requires
        old(p).wf(),
    ensures
        final(p).wf(),
        final(p).rows() == old(p).rows(),
        final(p).durable_state() == old(p).durable_state(),
        final(p).ledger() == old(p).ledger(),
        final(p).attempts() == old(p).attempts(),
        drops_committed(
            A::evidence_in(payload@),
            context,
            old(p).evidence(),
            final(p).evidence(),
            r,
        ),
        final(p).staged() == old(p).staged(),
        r == Err::<(), DropFault>(DropFault::Store) ==> (A::evidence_in(payload@) matches Some(Ok(list))
            && exists|store: P|
            {
                &&& store.wf()
                &&& store.rows() == old(p).rows()
                &&& store.durable_state() == old(p).durable_state()
                &&& store.ledger() == old(p).ledger()
                &&& store.attempts() == old(p).attempts()
                &&& store.staged() == old(p).staged()
                &&& store.evidence().submap_of(old(p).evidence())
                &&& #[trigger] removal_fails(store, list)
            }),
{
    let entries = match app.decode_consensus_payload(payload) {
        Ok(entries) => entries,
        Err(_) => {
            return Err(DropFault::Evidence);
        },
    };
    let list = match committed_equivocation_proofs(&entries) {
        Ok(list) => list,
        Err(_) => {
            return Err(DropFault::Evidence);
        },
    };
    let ghost before = p.evidence();
    let ghost all = proof_views(list@);
    let mut i: usize = 0;
    assert(before =~= before.remove_keys(record_keys(all.take(0))));
    while i < list.len()
        invariant
            i <= list.len(),
            all == proof_views(list@),
            A::evidence_in(payload@) == Some(Ok::<Seq<ProofView>, EvidenceError>(all)),
            before == old(p).evidence(),
            p.wf(),
            p.rows() == old(p).rows(),
            p.durable_state() == old(p).durable_state(),
            p.ledger() == old(p).ledger(),
            p.attempts() == old(p).attempts(),
            p.staged() == old(p).staged(),
            p.evidence() == before.remove_keys(record_keys(all.take(i as int))),
            forall|k: int| 0 <= k < i ==> (#[trigger] all[k]).context == context,
        decreases list.len() - i,
    {
        let ghost part = all.take(i as int);
        let ghost next = all.take(i + 1);
        proof {
            assert(all[i as int] == list@[i as int]@);
            assert(next =~= part.push(all[i as int]));
            assert forall|k: Seq<u8>| #[trigger] has_record(next, k) <==> has_record(part, k) || k
                == all[i as int].key_bytes() by {
                if has_record(part, k) {
                    let a = choose|a: int| 0 <= a < part.len() && (#[trigger] part[a]).key_bytes() == k;
                    assert(next[a] == part[a]);
                }
                if k == all[i as int].key_bytes() {
                    assert(next[i as int] == all[i as int]);
                }
                if has_record(next, k) {
                    let a = choose|a: int| 0 <= a < next.len() && (#[trigger] next[a]).key_bytes() == k;
                    if a < part.len() {
                        assert(part[a] == next[a]);
                    }
                }
            }
        }
        if !list[i].context.same_as(&context) {
            return Err(DropFault::Evidence);
        }
        let ghost mid = p.evidence();
        let ghost own = *p;
        let deleted = p.delete_equivocation_proof(&list[i]);
        if let Err(_e) = deleted {
            assert(all.contains(list@[i as int]@));
            assert(removal_fails(own, all));
            assert(p.evidence().submap_of(before)) by {
                assert forall|k: Seq<u8>| #[trigger] p.evidence().dom().contains(k) implies before.dom().contains(
                    k,
                ) && p.evidence()[k] == before[k] by {
                    assert(mid.dom().contains(k));
                }
            }
            return Err(DropFault::Store);
        }
        assert(p.evidence() =~= before.remove_keys(record_keys(next)));
        i = i + 1;
    }
    assert(all.take(i as int) =~= all);
    Ok(())
}

/// Whether the answers of the application let a block be made durable.
pub fn check_preflight(
    block: &Block,
    valid: bool,
    commitment_root: &Option<Hash32>,
    state_root: &Option<Option<Hash32>>,
) -> (r: Result<(), Halt>)
    ensures
        r == preflight_result(block@, valid, *commitment_root, *state_root),
{
    let height: u64 = block.height;
    if !valid {
        return Err(Halt::BlockRefused { height });
    }
    if !option_hash_eq(commitment_root, &Some(block.commitment_root)) {
        return Err(Halt::Commitment { height });
    }
    match state_root {
        Some(root) => {
            if option_hash_eq(root, &Some(block.app_hash)) {
                Ok(())
            } else {
                Err(Halt::StateRoot { height })
            }
        },
        None => Err(Halt::StateRoot { height }),
    }
}

/// The walk up from a connected block meets its ancestors, one height after
/// the other, down to the height after the committed one.
proof fn lemma_walk_ancestors(s: RunnerView, target: Hash32, m: nat, ps: Seq<BlockView>, i: int)
    requires
        links_to(s.known(), s.committed_hash, s.committed_height, target, m),
        m > 0,
        s.known().contains_key(target),
        s.known()[target].height < u64::MAX,
        s.uncommitted(target, ps),
        0 <= i < ps.len(),
        i < m,
    ensures
        ancestor(s.known(), target, i as nat) == Some(walk_key(target, ps, i)),
        s.known().contains_key(walk_key(target, ps, i)),
        ps[i] == s.known()[walk_key(target, ps, i)],
        ps[i].height == s.committed_height + m - i,
        ancestor(s.known(), target, (i + 1) as nat) == Some(ps[i].parent),
    decreases i,
{
    if i > 0 {
        lemma_walk_ancestors(s, target, m, ps, i - 1);
    } else {
        assert(ancestor(s.known(), target, 0) == Some(target));
    }
    assert(s.walk_link(target, ps, i));
    lemma_ancestor_height(
        s.known(),
        s.committed_hash,
        s.committed_height,
        target,
        m,
        i as nat,
    );
}

/// The walk up from a connected block ends right above the committed head.
proof fn lemma_walk_length(s: RunnerView, target: Hash32, m: nat, ps: Seq<BlockView>)
    requires
        links_to(s.known(), s.committed_hash, s.committed_height, target, m),
        m > 0,
        s.known().contains_key(target),
        s.known()[target].height < u64::MAX,
        s.uncommitted(target, ps),
    ensures
        ps.len() == m,
{
    if ps.len() > m {
        lemma_walk_ancestors(s, target, m, ps, m - 1);
        assert(s.walk_link(target, ps, m as int));
    }
    if ps.len() < m {
        let n = ps.len();
        lemma_ancestor_height(s.known(), s.committed_hash, s.committed_height, target, m, n);
        if n > 0 {
            lemma_walk_ancestors(s, target, m, ps, n - 1);
        } else {
            assert(ancestor(s.known(), target, 0) == Some(target));
        }
        let next = walk_key(target, ps, n as int);
        assert(s.known_at(next) is Some);
        assert(s.known()[next].height == s.committed_height + m - n);
        assert(!(exists|k: int| 0 <= k < ps.len() && #[trigger] walk_key(target, ps, k) == next)) by {
            assert forall|k: int| 0 <= k < ps.len() implies #[trigger] walk_key(target, ps, k) != next by {
                lemma_walk_ancestors(s, target, m, ps, k);
            }
        }
    }
}

/// All blocks of the walk up from a connected block extend the head, one after
/// the other.
proof fn lemma_run_whole(s: RunnerView, target: Hash32, m: nat, ps: Seq<BlockView>, i: int, height: u64, hash: Hash32)
    requires
        named_by_hash(s.known()),
        links_to(s.known(), s.committed_hash, s.committed_height, target, m),
        m > 0,
        s.known().contains_key(target),
        s.known()[target].height < u64::MAX,
        s.uncommitted(target, ps),
        ps.len() == m,
        0 < i <= m,
        height == s.committed_height + m - i,
        Some(hash) == ancestor(s.known(), target, i as nat),
    ensures
        run_of(height, hash, ps.take(i)).len() == i,
        run_of(height, hash, ps.take(i)).last() == ps[0],
        run_complete(height, hash, ps.take(i)),
    decreases i,
{
    let walk = ps.take(i);
    let b = ps[i - 1];
    lemma_walk_ancestors(s, target, m, ps, i - 1);
    assert(walk.last() == b);
    assert(walk.drop_last() =~= ps.take(i - 1));
    assert(run_extends(height, hash, b));
    let key = walk_key(target, ps, i - 1);
    assert(block_hash(b) == key);
    let rest = run_of(b.height, key, ps.take(i - 1));
    assert(run_of(height, hash, walk) == seq![b] + rest);
    if i > 1 {
        lemma_run_whole(s, target, m, ps, i - 1, b.height, key);
        assert((seq![b] + rest).last() == rest.last());
    } else {
        assert(ps.take(0) =~= Seq::empty());
        assert((seq![b] + rest) =~= seq![b]);
    }
}

/// The commit rule: a certificate for a known block that descends from the
/// committed head commits its parent, with all ancestors of the parent. That
/// known blocks are named by their hashes holds of every well-formed runner.
pub proof fn lemma_certificate_commits_parent(
    s: RunnerView,
    qc: CertificateView,
    r: Option<BlockView>,
    after: RunnerView,
)
    requires
        named_by_hash(s.known()),
        qc.block_hash != s.committed_hash,
        s.takes_qc(qc),
        s.settles_qc(qc, r, after),
        s.committed_height + 1 < s.known()[qc.block_hash].height < u64::MAX,
    ensures
        r == Some(s.known()[s.known()[qc.block_hash].parent]),
        after.committed_height == s.known()[qc.block_hash].height - 1,
        after.committed_hash == s.known()[qc.block_hash].parent,
{
    let known = s.known();
    let h = qc.block_hash;
    let b = known[h];
    let target = b.parent;
    let head = s.committed_hash;
    let height = s.committed_height;
    let t = s.with_qc(qc);
    assert(t.known() =~= known);
    reveal(connected_to);
    let n = choose|n: nat| #[trigger] links_to(known, head, height, h, n);
    assert(links_to(known, head, height, h, n));
    assert(ancestor(known, h, 0) == Some(h));
    assert(n > 0);
    lemma_ancestor_height(known, head, height, h, n, 0);
    let m = (n - 1) as nat;
    assert(m > 0);
    lemma_links_parent(known, head, height, h, n);
    assert(links_to(t.known(), t.committed_hash, t.committed_height, target, m));
    let ps = choose|ps: Seq<BlockView>|
        {
            &&& #[trigger] t.uncommitted(target, ps)
            &&& t.advances(run_of(t.committed_height, t.committed_hash, ps), after)
            &&& r == (if run_complete(t.committed_height, t.committed_hash, ps) {
                Some(ps[0])
            } else {
                None
            })
        };
    lemma_walk_length(t, target, m, ps);
    assert(ps.take(m as int) =~= ps);
    lemma_run_whole(t, target, m, ps, m as int, height, head);
    lemma_walk_ancestors(t, target, m, ps, 0);
    let run = run_of(height, head, ps);
    assert(run.len() > 0);
    assert(block_hash(ps[0]) == target);
}

/// A block that is recorded again changes nothing.
proof fn lemma_recorded_twice(before: Ledger, once: Ledger, b: BlockView, commitment: &CommitmentV2)
    requires
        once == before.with_block(b, Some(byte_rows(commitment.receipts@)), Some(b.app_hash)),
    ensures
        once.with_block(b, Some(byte_rows(commitment.receipts@)), Some(b.app_hash)) == once,
{
    let twice = once.with_block(b, Some(byte_rows(commitment.receipts@)), Some(b.app_hash));
    assert(twice.by_height =~= once.by_height);
    assert(twice.commitments =~= once.commitments);
    assert(twice.state_roots =~= once.state_roots);
}

impl<A: AppHook, P: PersistentStore> ConsensusRunner<A, P> {
    /// Forgets the votes of views long before a committed one.
    pub(crate) fn prune_old_votes(&mut self, committed_view: u64)
        requires
            old(self).wf(),
        ensures
            final(self).wf(),
            final(self).rest() == old(self).rest(),
            final(self).state() == (RunnerView {
                votes: kept_votes(old(self).state().votes, committed_view),
                ..old(self).state()
            }),
    {
        let oldest: u64 = if committed_view >= VOTE_RETENTION_VIEWS {
            committed_view - VOTE_RETENTION_VIEWS
        } else {
            0
        };
        let ghost rows = self.votes.rows();
        let ghost vm = vote_map(self.votes.map());
        let ghost p = |h: Hash32| vm[h].len() > 0 && vm[h][0].view >= oldest;
        let mut keep: Vec<Hash32> = Vec::new();
        let mut i: usize = 0;
        while i < self.votes.len()
            invariant
                i <= rows.len(),
                rows == self.votes.rows(),
                self.wf(),
                *self == *old(self),
                vm == vote_map(self.votes.map()),
                p == (|h: Hash32| vm[h].len() > 0 && vm[h][0].view >= oldest),
                forall|h: Hash32| #[trigger]
                    keep@.contains(h) <==> has_key(rows.take(i as int), h) && p(h),
            decreases rows.len() - i,
        {
            let h = self.votes.key_at(i);
            let list = self.votes.value_at(i);
            let ghost before = keep@;
            proof {
                lemma_row(rows, i as int);
                crate::consensus::store::lemma_take_key(rows, i as int);
                lemma_push_set(before, h);
                assert(vm[h] == vote_views(list@));
                if list@.len() > 0 {
                    assert(vm[h][0] == list@[0]@);
                }
            }
            let stays = list.len() > 0 && list[0].view >= oldest;
            assert(stays == p(h));
            if stays {
                keep.push(h);
            }
            assert forall|x: Hash32| #[trigger] keep@.contains(x) <==> has_key(rows.take(i + 1), x)
                && p(x) by {
                assert(has_key(rows.take(i + 1), x) <==> has_key(rows.take(i as int), x) || x == h);
                assert(before.push(h).contains(x) <==> before.push(h).to_set().contains(x));
                assert(before.contains(x) <==> before.to_set().contains(x));
            }
            i = i + 1;
        }
        assert(rows.take(rows.len() as int) =~= rows);
        let ghost before = self.votes.map();
        self.votes.keep_only(&keep);
        proof {
            assert forall|h: Hash32| before.contains_key(h) implies (keep@.contains(h) <==> p(h)) by {
                assert(has_key(rows, h));
            }
            assert(vote_map(self.votes.map()) =~= kept_votes(vm, committed_view));
        }
    }

    /// Makes a finalized block and the matching state durable, in a few
    /// attempts. Without a durable store there is nothing to do.
    fn persist_commit_with_retry(
        &mut self,
        block: &Block,
        state: &ConsensusState,
        commitment: &CommitmentV2,
        state_root: &Hash32,
    ) -> (r: Result<(), Halt>)
        requires
            old(self).wf(),
            *state_root == block.app_hash,
            sha256(receipts_bytes(byte_rows(commitment.receipts@))) == block@.commitment_root,
        ensures
            final(self).wf(),
            final(self).rest() == old(self).rest(),
            final(self).state() == (RunnerView {
                durable_state: final(self).state().durable_state,
                rows: final(self).state().rows,
                ledger: final(self).state().ledger,
                attempts: final(self).state().attempts,
                ..old(self).state()
            }),
            ({
                let s = old(self).state();
                let after = final(self).state();
                let kept = after.durable_state == s.durable_state && after.rows == s.rows
                    && after.ledger == s.ledger;
                let recorded = after.durable_state == Some(state@) && after.rows == s.rows.insert(
                    block_hash(block@),
                    block@,
                ) && after.ledger == s.ledger.with_block(
                    block@,
                    Some(byte_rows(commitment.receipts@)),
                    Some(block@.app_hash),
                );
                match r {
                    Ok(()) => {
                        &&& s.durable ==> recorded
                        &&& few_failures(s, after)
                    },
                    Err(e) => {
                        &&& e == (Halt::CommitNotPersisted { height: block.height })
                        &&& s.durable
                        &&& record_fails(
                            old(self).durable_store()->Some_0,
                            *block,
                            *commitment,
                            state@,
                        )
                        &&& kept || recorded
                        &&& after.attempts == s.attempts + failed_attempts(
                            MAX_PERSIST_ATTEMPTS as nat,
                        )
                    },
                }
            }),
            !old(self).state().durable ==> r is Ok && final(self).state() == old(self).state(),
    {
        match self.persistent_store.take() {
            None => {
                let ghost s = old(self).state();
                assert(s.attempts =~= s.attempts + failed_attempts(0));
                Ok(())
            },
            Some(mut p) => {
                let mut attempt: u32 = 0;
                let mut done = false;
                let ghost before = p;
                let ghost rows = p.rows().insert(block_hash(block@), block@);
                let ghost ledger = p.ledger().with_block(
                    block@,
                    Some(byte_rows(commitment.receipts@)),
                    Some(block@.app_hash),
                );
                while attempt < MAX_PERSIST_ATTEMPTS && !done
                    invariant
                        attempt <= MAX_PERSIST_ATTEMPTS,
                        *state_root == block.app_hash,
                        sha256(receipts_bytes(byte_rows(commitment.receipts@))) == block@.commitment_root,
                        p.wf(),
                        p.evidence() == before.evidence(),
                        p.staged() == before.staged(),
                        rows == before.rows().insert(block_hash(block@), block@),
                        ledger == before.ledger().with_block(
                            block@,
                            Some(byte_rows(commitment.receipts@)),
                            Some(block@.app_hash),
                        ),
                        p.attempts() == before.attempts() + failed_attempts(attempt as nat),
                        done ==> attempt < MAX_PERSIST_ATTEMPTS,
                        done ==> p.durable_state() == Some(state@) && p.rows() == rows && p.ledger()
                            == ledger,
                        p.durable_state() == before.durable_state() && p.rows() == before.rows()
                            && p.ledger() == before.ledger() || p.durable_state() == Some(state@)
                            && p.rows() == rows && p.ledger() == ledger,
                        attempt == 0 && !done ==> p == before,
                        attempt > 0 ==> record_fails(before, *block, *commitment, state@),
                    decreases MAX_PERSIST_ATTEMPTS - attempt + (if done { 0int } else { 1int }),
                {
                    match p.commit_block_with_commitment_and_state_root(
                        block,
                        state,
                        Some(commitment),
                        Some(state_root),
                    ) {
                        Ok(()) => {
                            proof {
                                assert(p.rows() =~= rows);
                                lemma_recorded_twice(before.ledger(), ledger, block@, commitment);
                            }
                            done = true;
                        },
                        Err(_e) => {
                            proof {
                                assert(p.rows() =~= before.rows() || p.rows() =~= rows);
                                lemma_recorded_twice(before.ledger(), ledger, block@, commitment);
                                assert(attempt == 0 ==> record_fails(
                                    before,
                                    *block,
                                    *commitment,
                                    state@,
                                ));
                            }
                            p.pause(retry_delay_ms(attempt));
                            attempt = attempt + 1;
                        },
                    }
                }
                self.persistent_store = Some(p);
                if done {
                    Ok(())
                } else {
                    Err(Halt::CommitNotPersisted { height: block.height })
                }
            },
        }
    }

    /// Removes the evidence that a committed block carries from the journal.
    fn delete_committed_evidence(&mut self, block: &Block) -> (r: Result<(), Halt>)
        requires
            old(self).wf(),
        ensures
            final(self).wf(),
            final(self).rest() == old(self).rest(),
            final(self).state() == (RunnerView {
                evidence: final(self).state().evidence,
                ..old(self).state()
            }),
            !old(self).state().durable ==> r is Ok && final(self).state() == old(self).state(),
            old(self).state().durable ==> drops_committed(
                A::evidence_in(block@.payload),
                old(self).state().context,
                old(self).state().evidence,
                final(self).state().evidence,
                match r {
                    Ok(()) => Ok(()),
                    Err(Halt::CommittedEvidence { .. }) => Err(DropFault::Evidence),
                    Err(_) => Err(DropFault::Store),
                },
            ),
            r matches Err(h) ==> h == (Halt::CommittedEvidence { height: block@.height }) || h == (
            Halt::EvidenceNotDeleted { height: block@.height }),
            r == Err::<(), Halt>(Halt::EvidenceNotDeleted { height: block@.height }) ==> drop_fails::<
                A,
                P,
            >(old(self).state(), block@),
    {
        match self.persistent_store.take() {
            None => Ok(()),
            Some(mut p) => {
                let ghost s = old(self).state();
                let dropped = drop_committed(&self.app, &mut p, &block.payload, self.context);
                proof {
                    if dropped == Err::<(), DropFault>(DropFault::Store) {
                        let list = A::evidence_in(block@.payload)->Some_0->Ok_0;
                        let store = choose|store: P|
                            {
                                &&& store.wf()
                                &&& store.rows() == s.rows
                                &&& store.durable_state() == s.durable_state
                                &&& store.ledger() == s.ledger
                                &&& store.attempts() == s.attempts
                                &&& store.staged() == s.staged
                                &&& store.evidence().submap_of(s.evidence)
                                &&& #[trigger] removal_fails(store, list)
                            };
                        assert(holds(store, (RunnerView { evidence: store.evidence(), ..s })));
                        assert(drop_fails::<A, P>(s, block@));
                    }
                }
                self.persistent_store = Some(p);
                match dropped {
                    Ok(()) => Ok(()),
                    Err(DropFault::Evidence) => {
                        Err(Halt::CommittedEvidence { height: block.height })
                    },
                    Err(DropFault::Store) => Err(Halt::EvidenceNotDeleted { height: block.height }),
                }
            },
        }
    }

    /// Asks the application about a block before it is made durable, and
    /// returns its execution commitment.
    fn preflight_commit(&self, block: &Block) -> (r: Result<CommitmentV2, Halt>)
        ensures
            exists|valid: bool, root: Option<Hash32>, state: Option<Option<Hash32>>|
                #![trigger preflight_asked(self.application(), *block, valid, root, state)]
                preflight_asked(self.application(), *block, valid, root, state) && preflight_result(
                    block@,
                    valid,
                    root,
                    state,
                ) == (match r {
                    Ok(_) => Ok::<(), Halt>(()),
                    Err(h) => Err::<(), Halt>(h),
                }),
            r matches Ok(c) ==> sha256(receipts_bytes(byte_rows(c.receipts@)))
                == block@.commitment_root && call_ensures(
                A::preflight_commitment,
                (&self.application(), block),
                Ok(Some(c)),
            ),
    {
        let ghost app = self.app;
        let validity = self.app.validate_block(block);
        let valid = validity.is_ok();
        assert(asks_validity(app, *block, valid));
        let mut commitment: Option<CommitmentV2> = None;
        let mut commitment_root: Option<Hash32> = None;
        if valid {
            let answer = self.app.preflight_commitment(block);
            let ghost held = commitment_answer(answer);
            assert(asks_commitment(app, *block, held));
            if let Ok(Some(c)) = answer {
                commitment_root = Some(c.root());
                commitment = Some(c);
            }
            assert(commitment_root == held);
        }
        let mut state_root: Option<Option<Hash32>> = None;
        if option_hash_eq(&commitment_root, &Some(block.commitment_root)) {
            let answer = self.app.preflight_state_root(block);
            let ghost held = state_root_answer(answer);
            assert(asks_state_root(app, *block, held));
            if let Ok(root) = answer {
                state_root = Some(root);
            }
            assert(state_root == held);
        }
        assert(commitment_root is Some ==> commitment is Some);
        assert(preflight_asked(self.application(), *block, valid, commitment_root, state_root));
        match check_preflight(block, valid, &commitment_root, &state_root) {
            Ok(()) => match commitment {
                Some(c) => Ok(c),
                None => Err(Halt::Commitment { height: block.height }),
            },
            Err(h) => Err(h),
        }
    }

    /// Commits the block that extends the committed head: the durable store
    /// and then the application have it before the node's own state moves on.
    fn commit_one(&mut self, block: &Block) -> (r: (Result<(), Halt>, Ghost<CommitCalls<A>>))
        requires
            old(self).wf(),
            block@.height == old(self).state().committed_height + 1,
            block@.parent == old(self).state().committed_hash,
        ensures
            final(self).wf(),
            final(self).flags() == old(self).flags(),
            r.1@.block == *block,
            r.1@.before == old(self).application(),
            r.1@.after == final(self).application(),
            commit_asked::<A, P>(r.1@, old(self).state()),
            r.0 == commit_result(block@, r.1@.answers),
            r.0 is Ok ==> old(self).state().advances(seq![block@], final(self).state()),
            r.0 is Ok ==> commit_step(r.1@, old(self).state(), final(self).state()),
            r.0 matches Err(h) ==> old(self).state().commit_halts(r.1@, h, final(self).state()),
            r.1@.answers.applies(block@) ==> exists|m: &mut A| #[trigger]
                call_ensures(A::commit, (m, block), r.1@.commit) && *m == r.1@.before && *final(m)
                    == r.1@.applied,
            r.1@.answers.publishes(block@) ==> exists|m: &mut A| #[trigger]
                call_ensures(A::on_durable_commit, (m, block, &r.1@.commitment), r.1@.notice) && *m
                    == r.1@.applied && *final(m) == r.1@.published,
            r.1@.answers.updates(block@) ==> exists|m: &mut A| #[trigger]
                call_ensures(A::take_validator_update, (m,), r.1@.update) && *m == r.1@.published
                    && *final(m) == r.1@.after,
    {
        let ghost s = self.state();
        let ghost app = self.app;
        let height: u64 = block.height;
        let preflight = self.preflight_commit(block);
        let ghost (valid, root, state_root) = choose|
            valid: bool,
            root: Option<Hash32>,
            state: Option<Option<Hash32>>,
        |
            #![trigger preflight_asked(app, *block, valid, root, state)]
            preflight_asked(app, *block, valid, root, state) && preflight_result(
                block@,
                valid,
                root,
                state,
            ) == (match preflight {
                Ok(_) => Ok::<(), Halt>(()),
                Err(h) => Err::<(), Halt>(h),
            });
        let ghost a = CommitAnswers {
            valid,
            commitment_root: root,
            state_root,
            recorded: false,
            applied: None,
            published: false,
            dropped: Ok(()),
            new_validators: false,
        };
        let ghost mut c = CommitCalls {
            block: *block,
            commitment: preflight->Ok_0,
            failures: 0,
            before: app,
            commit: arbitrary(),
            applied: app,
            notice: arbitrary(),
            published: app,
            update: arbitrary(),
            after: app,
            answers: a,
        };
        let commitment = match preflight {
            Ok(commitment) => commitment,
            Err(h) => {
                assert(commit_asked::<A, P>(c, s));
                return (Err(h), Ghost(c));
            },
        };
        proof {
            if s.durable {
                assert(holds(self.durable_store()->Some_0, s));
            }
        }
        let hash = block.hash();
        let state = self.consensus_state_for_safety(&self.safety, height, hash);
        let recorded = self.persist_commit_with_retry(block, &state, &commitment, &block.app_hash);
        proof {
            c = CommitCalls {
                failures: match recorded {
                    Ok(()) => choose|n: nat|
                        n < MAX_PERSIST_ATTEMPTS && (n > 0 ==> s.durable) && self.state().attempts
                            == s.attempts + #[trigger] failed_attempts(n),
                    Err(_) => MAX_PERSIST_ATTEMPTS as nat,
                },
                ..c
            };
        }
        if let Err(h) = recorded {
            assert(commit_asked::<A, P>(c, s));
            return (Err(h), Ghost(c));
        }
        let applied = self.app.commit(block);
        proof {
            c = CommitCalls {
                commit: applied,
                applied: self.app,
                published: self.app,
                after: self.app,
                answers: CommitAnswers {
                    recorded: true,
                    applied: match applied {
                        Ok(h) => Some(h),
                        Err(_) => None,
                    },
                    ..a
                },
                ..c
            };
            assert(asks_commit(app, *block, c.answers.applied));
            assert(exists|m: &mut A| #[trigger]
                call_ensures(A::commit, (m, block), c.commit) && *m == c.before && *final(m)
                    == c.applied);
        }
        match applied {
            Ok(app_hash) => {
                if !hash_eq(&app_hash, &block.app_hash) {
                    assert(commit_asked::<A, P>(c, s));
                    return (Err(Halt::ApplicationCommit { height }), Ghost(c));
                }
            },
            Err(_) => {
                assert(commit_asked::<A, P>(c, s));
                return (Err(Halt::ApplicationCommit { height }), Ghost(c));
            },
        }
        let published = self.app.on_durable_commit(block, &commitment);
        proof {
            c = CommitCalls {
                notice: published,
                published: self.app,
                after: self.app,
                answers: CommitAnswers { published: published is Ok, ..c.answers },
                ..c
            };
            assert(asks_notice(c.applied, *block, commitment, c.answers.published));
            assert(exists|m: &mut A| #[trigger]
                call_ensures(A::on_durable_commit, (m, block, &c.commitment), c.notice) && *m
                    == c.applied && *final(m) == c.published);
        }
        if published.is_err() {
            assert(commit_asked::<A, P>(c, s));
            return (Err(Halt::Notification { height }), Ghost(c));
        }
        let dropped = self.delete_committed_evidence(block);
        proof {
            c = CommitCalls {
                answers: CommitAnswers {
                    dropped: match dropped {
                        Ok(()) => Ok(()),
                        Err(Halt::CommittedEvidence { .. }) => Err(DropFault::Evidence),
                        Err(_) => Err(DropFault::Store),
                    },
                    ..c.answers
                },
                ..c
            };
            assert(evidence_dropped::<A, P>(c, s));
        }
        if let Err(h) = dropped {
            assert(commit_asked::<A, P>(c, s));
            return (Err(h), Ghost(c));
        }
        self.store.set_committed(&hash);
        self.committed_height = height;
        self.committed_hash = hash;
        let ghost moved = self.state();
        let ghost mut cache_roots: Seq<Hash32> = Seq::empty();
        assert(moved == head_moved(c, s, moved.evidence));
        if self.persistent_store.is_some() {
            let roots = self.protected_speculative_roots(None);
            let _pruned = self.store.prune_production_cache(&roots);
            proof {
                cache_roots = roots@;
            }
        }
        let ghost reduced = self.state();
        assert(reduced == cache_reduced(moved, cache_roots));
        let update = self.app.take_validator_update();
        proof {
            c = CommitCalls {
                update,
                after: self.app,
                answers: CommitAnswers { new_validators: names_validators(update), ..c.answers },
                ..c
            };
            assert(asks_update(c.published, c.answers.new_validators));
            assert(exists|m: &mut A| #[trigger]
                call_ensures(A::take_validator_update, (m,), c.update) && *m == c.published && *final(m)
                    == c.after);
            assert(commit_asked::<A, P>(c, s));
        }
        if let Some(update) = update {
            if update.node_ids.len() != 0 {
                return (Err(Halt::ValidatorUpdate { height }), Ghost(c));
            }
        }
        self.prune_pending_unprotected_branches(None);
        let ghost roots = choose|roots: Seq<Hash32>| #[trigger]
            are_roots(reduced, None, roots) && self.state() == reduced.pending_pruned(roots);
        self.safety.prune_votes_below(block.view);
        self.equivocation_detector.prune_below(block.view);
        self.prune_old_votes(block.view);
        proof {
            let after = self.state();
            let one = seq![block@];
            assert(are_roots(cache_reduced(moved, cache_roots), None, roots));
            assert(commit_step(c, s, after));
            assert(extends_at(s.committed_height, s.committed_hash, one, 0));
            assert(one.last() == block@);
            assert(s.applied.push(block@) =~= s.applied + one);
            assert(one.drop_last() =~= Seq::empty());
            assert(with_blocks(s.rows, one) == s.rows.insert(hash, block@)) by {
                reveal_with_fuel(with_blocks, 2);
            }
            assert forall|v: u64|
                s.safety.voted.contains(v) && (forall|i: int|
                    0 <= i < one.len() ==> v >= (#[trigger] one[i]).view) implies after.safety.voted.contains(
            v) by {
                assert(one[0] == block@);
            }
        }
        (Ok(()), Ghost(c))
    }

    /// Commits a block together with its uncommitted ancestors, oldest first,
    /// as far as they extend the committed head without a gap.
    #[verifier::rlimit(40)]
    pub fn try_commit(&mut self, target: &Hash32) -> (r: Result<Option<Block>, Halt>)
        requires
            old(self).wf(),
        ensures
            final(self).wf(),
            final(self).flags() == old(self).flags(),
            exists|log: Seq<CommitCalls<A>>|
                {
                    &&& #[trigger] commits_run::<A, P>(
                        old(self).application(),
                        old(self).state(),
                        *target,
                        block_result(r),
                        log,
                        final(self).application(),
                        final(self).state(),
                    )
                    &&& forall|i: int|
                        0 <= i < log.len() ==> {
                            let c = #[trigger] log[i];
                            &&& c.answers.applies(c.block@) ==> exists|m: &mut A| #[trigger]
                                call_ensures(A::commit, (m, &c.block), c.commit) && *m == c.before
                                    && *final(m) == c.applied
                            &&& c.answers.publishes(c.block@) ==> exists|m: &mut A| #[trigger]
                                call_ensures(
                                    A::on_durable_commit,
                                    (m, &c.block, &c.commitment),
                                    c.notice,
                                ) && *m == c.applied && *final(m) == c.published
                            &&& c.answers.updates(c.block@) ==> exists|m: &mut A| #[trigger]
                                call_ensures(A::take_validator_update, (m,), c.update) && *m
                                    == c.published && *final(m) == c.after
                        }
                },
    {
        let ghost s = self.state();
        let ghost first = self.app;
        let path = self.uncommitted_path(target);
        let ghost ps = block_views(path@);
        self.take_out(target, &path);
        let ghost out = self.state();
        let ghost run = run_of(s.committed_height, s.committed_hash, ps);
        let ghost complete = run_complete(s.committed_height, s.committed_hash, ps);
        let mut i: usize = path.len();
        let ghost mut done: Seq<BlockView> = Seq::empty();
        let ghost mut log: Seq<CommitCalls<A>> = Seq::empty();
        let mut reached = false;
        proof {
            assert(out.advances(done, out));
            assert(ps.take(i as int) =~= ps);
            assert(ps.skip(i as int) =~= Seq::empty());
            assert(run =~= done + run);
        }
        while i > 0
            invariant
                i <= path.len(),
                self.wf(),
                s == old(self).state(),
                first == old(self).application(),
                self.flags() == old(self).flags(),
                ps == block_views(path@),
                s.uncommitted(*target, ps),
                out == s.taken_out(*target, ps),
                run == run_of(s.committed_height, s.committed_hash, ps),
                out.advances(done, self.state()),
                log.len() == done.len(),
                settled::<A, P>(
                    first,
                    out,
                    ps.skip(i as int),
                    log,
                    self.application(),
                    self.state(),
                ),
                forall|i: int|
                    0 <= i < log.len() ==> {
                        let c = #[trigger] log[i];
                        &&& c.answers.applies(c.block@) ==> exists|m: &mut A| #[trigger]
                            call_ensures(A::commit, (m, &c.block), c.commit) && *m == c.before
                                && *final(m) == c.applied
                        &&& c.answers.publishes(c.block@) ==> exists|m: &mut A| #[trigger]
                            call_ensures(
                                A::on_durable_commit,
                                (m, &c.block, &c.commitment),
                                c.notice,
                            ) && *m == c.applied && *final(m) == c.published
                        &&& c.answers.updates(c.block@) ==> exists|m: &mut A| #[trigger]
                            call_ensures(A::take_validator_update, (m,), c.update) && *m
                                == c.published && *final(m) == c.after
                    },
                run == done + run_of(
                    self.state().committed_height,
                    self.state().committed_hash,
                    ps.take(i as int),
                ),
                i > 0 ==> complete == run_complete(
                    self.state().committed_height,
                    self.state().committed_hash,
                    ps.take(i as int),
                ),
                i == 0 && path.len() > 0 ==> complete == reached,
                path.len() == 0 ==> !complete,
                reached ==> i == 0 && path.len() > 0,
            decreases i,
        {
            let ghost walk = ps.take(i as int);
            let ghost older = ps.skip(i as int);
            let ghost mid = self.state();
            let ghost app = self.application();
            i = i - 1;
            let b = &path[i];
            proof {
                assert(ps[i as int] == b@);
                assert(walk.last() == b@);
                assert(walk.drop_last() =~= ps.take(i as int));
                assert(i == 0 ==> walk[0] == b@);
                assert(ps.skip(i as int).drop_first() =~= older);
                assert(ps.skip(i as int)[0] == b@);
            }
            if b.height > self.committed_height && b.height - self.committed_height == 1 && hash_eq(
                &b.parent,
                &self.committed_hash,
            ) {
                let ghost n = done.len() as int;
                proof {
                    assert(run_extends(mid.committed_height, mid.committed_hash, b@));
                    assert(run[n] == b@);
                    assert(run.take(n) =~= done);
                }
                let (committed, Ghost(c)) = self.commit_one(b);
                let ghost before = log;
                proof {
                    log = log.push(c);
                    assert(log.last() == c);
                    assert(log.drop_last() =~= before);
                }
                if let Err(h) = committed {
                    proof {
                        assert(commit_asked::<A, P>(c, mid));
                        assert(halts_at::<A, P>(
                            first,
                            out,
                            ps,
                            i as int,
                            log,
                            h,
                            self.application(),
                            self.state(),
                        ));
                        assert(commits_run::<A, P>(
                            first,
                            s,
                            *target,
                            Err(h),
                            log,
                            self.application(),
                            self.state(),
                        ));
                    }
                    return Err(h);
                }
                proof {
                    assert(commits_next::<A, P>(c, b@, mid, self.application(), self.state()));
                    lemma_advances_join(out, done, mid, b@, self.state());
                    let rest = run_of(
                        self.state().committed_height,
                        self.state().committed_hash,
                        ps.take(i as int),
                    );
                    assert(done + (seq![b@] + rest) =~= done.push(b@) + rest);
                    done = done.push(b@);
                }
                reached = i == 0;
            } else {
                let _kept = self.insert_pending(b.clone());
                assert(mid.puts_back(b@, self.state()));
                assert(self.application() == app);
            }
        }
        proof {
            assert(ps.take(0) =~= Seq::empty());
            assert(ps.skip(0) =~= ps);
            assert(run =~= done);
            assert(s.uncommitted(*target, ps));
        }
        if reached {
            assert(ps[0] == path[0]@);
            let b = path[0].clone();
            assert(commits_run::<A, P>(
                first,
                s,
                *target,
                Ok(Some(b@)),
                log,
                self.application(),
                self.state(),
            ));
            Ok(Some(b))
        } else {
            assert(commits_run::<A, P>(
                first,
                s,
                *target,
                Ok(None),
                log,
                self.application(),
                self.state(),
            ));
            Ok(None)
        }
    }

    /// Takes what a walk looked up out of the pending blocks.
    fn take_out(&mut self, target: &Hash32, path: &Vec<Block>)
        requires
            old(self).wf(),
            old(self).state().uncommitted(*target, block_views(path@)),
        ensures
            final(self).wf(),
            final(self).rest() == old(self).rest(),
            final(self).state() == old(self).state().taken_out(*target, block_views(path@)),
    {
        let ghost s = self.state();
        let ghost ps = block_views(path@);
        let mut walked: Vec<Hash32> = Vec::new();
        walked.push(*target);
        let mut i: usize = 0;
        while i < path.len() && path[i].height > self.committed_height && path[i].height
            - self.committed_height > 1
            invariant
                i <= path.len(),
                *self == *old(self),
                s == self.state(),
                ps == block_views(path@),
                s.uncommitted(*target, ps),
                walked@.len() == i + 1,
                forall|k: int|
                    0 <= k <= i ==> #[trigger] walked@[k] == walk_key(*target, ps, k) && (k > 0 && k
                        == ps.len() ==> ps.last().height > s.committed_height + 1),
            decreases path.len() - i,
        {
            assert(ps[i as int] == path[i as int]@);
            assert(s.walk_link(*target, ps, i as int));
            walked.push(path[i].parent);
            i = i + 1;
        }
        let ghost before = self.pending.map();
        self.pending.remove_all(&walked);
        proof {
            assert forall|h: Hash32| walked@.contains(h) <==> s.walked(*target, ps, h) by {
                if walked@.contains(h) {
                    let k = choose|k: int| 0 <= k < walked@.len() && walked@[k] == h;
                    assert(walk_key(*target, ps, k) == h);
                }
                if s.walked(*target, ps, h) {
                    let k = choose|k: int|
                        0 <= k <= ps.len() && (k > 0 && k == ps.len() ==> ps.last().height
                            > s.committed_height + 1) && #[trigger] walk_key(*target, ps, k) == h;
                    if k > i {
                        assert(ps[i as int] == path[i as int]@);
                        assert(s.walk_link(*target, ps, i as int));
                        if i + 1 < ps.len() {
                            assert(s.walk_link(*target, ps, i + 1));
                        }
                        assert(false);
                    }
                    assert(walked@[k] == h);
                }
            }
            assert(block_map(self.pending.map()) =~= s.taken_out(*target, ps).pending);
        }
    }

    /// The blocks from a block up to its oldest known uncommitted ancestor.
    fn uncommitted_path(&self, target: &Hash32) -> (r: Vec<Block>)
        requires
            self.wf(),
        ensures
            self.state().uncommitted(*target, block_views(r@)),
    {
        let mut path: Vec<Block> = Vec::new();
        let mut visited: Vec<Hash32> = Vec::new();
        let mut current = *target;
        let ghost s = self.state();
        let ghost known = s.known();
        let ghost mut ps: Seq<BlockView> = Seq::empty();
        proof {
            self.lemma_known_finite();
            assert(block_views(path@) =~= ps);
        }
        loop
            invariant
                self.wf(),
                s == self.state(),
                known == s.known(),
                known.dom().finite(),
                ps == block_views(path@),
                visited@.no_duplicates(),
                visited@.len() == ps.len(),
                visited@.len() <= known.dom().len(),
                current == walk_key(*target, ps, ps.len() as int),
                forall|i: int| 0 <= i < ps.len() ==> #[trigger] s.walk_link(*target, ps, i),
                ps.len() > 0 ==> ps.last().height > s.committed_height + 1,
                forall|i: int|
                    0 <= i < visited@.len() ==> #[trigger] visited@[i] == walk_key(*target, ps, i)
                        && known.contains_key(visited@[i]),
            decreases known.dom().len() - visited@.len() + 1,
        {
            if contains_hash(&visited, &current) {
                proof {
                    let k = choose|k: int| 0 <= k < visited@.len() && visited@[k] == current;
                    assert(walk_key(*target, ps, k) == current);
                    assert(s.walk_over(*target, ps));
                }
                return path;
            }
            let b = match self.known_block(&current) {
                Some(b) => b,
                None => {
                    assert(s.walk_over(*target, ps));
                    return path;
                },
            };
            if b.height <= self.committed_height {
                assert(s.walk_over(*target, ps));
                return path;
            }
            let height: u64 = b.height;
            let parent = b.parent;
            let ghost longer = ps.push(b@);
            proof {
                assert forall|i: int| 0 <= i < longer.len() implies #[trigger] s.walk_link(
                    *target,
                    longer,
                    i,
                ) by {
                    if i < ps.len() {
                        assert(s.walk_link(*target, ps, i));
                        assert(longer[i] == ps[i]);
                        if i > 0 {
                            assert(longer[i - 1] == ps[i - 1]);
                        }
                    } else if i > 0 {
                        assert(longer[i - 1] == ps.last());
                    }
                }
                assert forall|i: int| 0 <= i <= ps.len() implies #[trigger] walk_key(
                    *target,
                    longer,
                    i,
                ) == walk_key(*target, ps, i) by {
                    if i > 0 {
                        assert(longer[i - 1] == ps[i - 1]);
                    }
                }
            }
            path.push(b);
            assert(block_views(path@) =~= longer);
            if height - self.committed_height == 1 {
                assert(longer.last().height == s.committed_height + 1);
                assert(s.walk_over(*target, longer));
                return path;
            }
            visited.push(current);
            proof {
                crate::consensus::runner::chain::lemma_walk_bounded(known, visited@);
                ps = longer;
            }
            current = parent;
        }
    }

    /// Takes a certificate into account, if it is of the node's context and
    /// its block is known and connected, and commits the parent of its block.
    pub fn process_qc(&mut self, qc: Certificate) -> (r: Result<Option<Block>, Halt>)
        requires
            old(self).wf(),
        ensures
            final(self).wf(),
            final(self).flags() == old(self).flags(),
            exists|log: Seq<CommitCalls<A>>|
                {
                    &&& #[trigger] takes::<A, P>(
                        old(self).application(),
                        old(self).state(),
                        qc@,
                        block_result(r),
                        log,
                        final(self).application(),
                        final(self).state(),
                    )
                    &&& forall|i: int|
                        0 <= i < log.len() ==> {
                            let c = #[trigger] log[i];
                            &&& c.answers.applies(c.block@) ==> exists|m: &mut A| #[trigger]
                                call_ensures(A::commit, (m, &c.block), c.commit) && *m == c.before
                                    && *final(m) == c.applied
                            &&& c.answers.publishes(c.block@) ==> exists|m: &mut A| #[trigger]
                                call_ensures(
                                    A::on_durable_commit,
                                    (m, &c.block, &c.commitment),
                                    c.notice,
                                ) && *m == c.applied && *final(m) == c.published
                            &&& c.answers.updates(c.block@) ==> exists|m: &mut A| #[trigger]
                                call_ensures(A::take_validator_update, (m,), c.update) && *m
                                    == c.published && *final(m) == c.after
                        }
                },
            r matches Ok(b) ==> old(self).state().settles_qc(qc@, option_block(b), final(self).state()),
    {
        let ghost s = self.state();
        let ghost app = self.application();
        let ghost qv = qc@;
        assert(!s.takes_qc(qv) ==> takes::<A, P>(app, s, qv, Ok(None), Seq::empty(), app, s));
        if qc.validate_context(self.context).is_err() {
            return Ok(None);
        }
        let b = match self.known_block(&qc.block_hash) {
            Some(b) => b,
            None => {
                return Ok(None);
            },
        };
        let hash = b.hash();
        if !self.is_chain_connected_to_committed_head(&hash) {
            return Ok(None);
        }
        self.safety.update_high_qc(qc);
        if let Some(justify) = &b.justify {
            self.safety.update_locked_qc(justify.clone());
        }
        proof {
            assert(self.state() == s.with_qc(qc@));
            assert(self.state().known() == s.known());
        }
        if b.height == 0 {
            assert(self.application() == app);
            assert(takes::<A, P>(app, s, qv, Ok(None), Seq::empty(), app, self.state()));
            return Ok(None);
        }
        let ghost mid = self.state();
        let r = self.try_commit(&b.parent);
        proof {
            let log = choose|log: Seq<CommitCalls<A>>|
                {
                    &&& #[trigger] commits_run::<A, P>(
                        app,
                        mid,
                        b.parent,
                        block_result(r),
                        log,
                        self.application(),
                        self.state(),
                    )
                    &&& forall|i: int|
                        0 <= i < log.len() ==> {
                            let c = #[trigger] log[i];
                            &&& c.answers.applies(c.block@) ==> exists|m: &mut A| #[trigger]
                                call_ensures(A::commit, (m, &c.block), c.commit) && *m == c.before
                                    && *final(m) == c.applied
                            &&& c.answers.publishes(c.block@) ==> exists|m: &mut A| #[trigger]
                                call_ensures(
                                    A::on_durable_commit,
                                    (m, &c.block, &c.commitment),
                                    c.notice,
                                ) && *m == c.applied && *final(m) == c.published
                            &&& c.answers.updates(c.block@) ==> exists|m: &mut A| #[trigger]
                                call_ensures(A::take_validator_update, (m,), c.update) && *m
                                    == c.published && *final(m) == c.after
                        }
                };
            assert(takes::<A, P>(
                app,
                s,
                qv,
                block_result(r),
                log,
                self.application(),
                self.state(),
            ));
        }
        r
    }

    /// Takes a leader's announcement that a block was certified: verifies the
    /// certificate, takes it into account and moves to the next view.
    pub fn process_prepare(&mut self, prepare: Prepare) -> (r: Result<Result<(), PrepareError>, Halt>)
        requires
            old(self).wf(),
        ensures
            final(self).wf(),
            final(self).flags() == old(self).flags(),
            match r {
                Ok(Err(e)) => old(self).state().prepare_fault(prepare@) == Some(e)
                    && final(self).state() == old(self).state() && final(self).application() == old(
                    self,
                ).application(),
                _ => old(self).state().prepare_fault(prepare@) is None,
            },
            old(self).state().prepare_fault(prepare@) is None ==> exists|log: Seq<CommitCalls<A>>|
                {
                    &&& #[trigger] ends_round::<A, P>(
                        old(self).application(),
                        old(self).state(),
                        prepare@.qc,
                        verdict(r),
                        log,
                        final(self).application(),
                        final(self).state(),
                    )
                    &&& forall|i: int|
                        0 <= i < log.len() ==> {
                            let c = #[trigger] log[i];
                            &&& c.answers.applies(c.block@) ==> exists|m: &mut A| #[trigger]
                                call_ensures(A::commit, (m, &c.block), c.commit) && *m == c.before
                                    && *final(m) == c.applied
                            &&& c.answers.publishes(c.block@) ==> exists|m: &mut A| #[trigger]
                                call_ensures(
                                    A::on_durable_commit,
                                    (m, &c.block, &c.commitment),
                                    c.notice,
                                ) && *m == c.applied && *final(m) == c.published
                            &&& c.answers.updates(c.block@) ==> exists|m: &mut A| #[trigger]
                                call_ensures(A::take_validator_update, (m,), c.update) && *m
                                    == c.published && *final(m) == c.after
                        }
                },
            r matches Ok(Ok(())) ==> old(self).state().follows(prepare@.qc, final(self).state()),
    {
        let same_context = prepare.context().same_as(&self.context);
        let qc = prepare.qc;
        if !same_context || qc.validate_context(self.context).is_err() {
            return Ok(Err(PrepareError::Context));
        }
        let committee = match self.config.committee() {
            Ok(c) => c,
            Err(e) => {
                return Ok(Err(PrepareError::Committee(e)));
            },
        };
        let b = match self.known_block(&qc.block_hash) {
            Some(b) => b,
            None => {
                return Ok(Err(PrepareError::UnknownBlock));
            },
        };
        let hash = b.hash();
        if !self.is_chain_connected_to_committed_head(&hash) {
            return Ok(Err(PrepareError::NotConnected));
        }
        if b.view != prepare.view {
            return Ok(Err(PrepareError::ViewMismatch));
        }
        if let Err(e) = verify_certificate(
            &committee,
            &qc,
            self.context,
            prepare.view,
            &qc.block_hash,
            Some(b.app_hash),
            self.config.bls_configured(),
        ) {
            return Ok(Err(PrepareError::Qc(e)));
        }
        match self.take_certificate(qc) {
            Ok(()) => Ok(Ok(())),
            Err(h) => Err(h),
        }
    }

    /// Moves to the view after that of the highest certificate.
    pub(crate) fn advance_past_high_qc(&mut self)
        requires
            old(self).wf(),
        ensures
            final(self).wf(),
            final(self).rest() == old(self).rest(),
            moved_to_next(old(self).state(), final(self).state()),
    {
        let high_qc = match self.safety.high_qc() {
            Some(qc) => Some(qc.clone()),
            None => None,
        };
        if let Some(qc) = high_qc {
            if qc.view < u64::MAX {
                self.pacemaker.advance_view(&qc);
            }
        }
    }

    /// Whether the votes for a block come from distinct members with strictly
    /// more than two thirds of the voting power.
    pub fn has_vote_quorum(&self, block_hash: &Hash32) -> (r: bool)
        requires
            self.wf(),
        ensures
            r == (self.state().config.fault() is None && self.state().votes.contains_key(*block_hash)
                && quorum_check(
                self.state().config.members(),
                voters_of(self.state().votes[*block_hash]),
            ) == Ok::<bool, QuorumError>(true)),
    {
        let committee = match self.config.committee() {
            Ok(c) => c,
            Err(_) => {
                return false;
            },
        };
        match self.votes.get(block_hash) {
            Some(list) => {
                let voters = collect_voters(list);
                match committee.has_weighted_quorum(&voters) {
                    Ok(b) => b,
                    Err(_) => false,
                }
            },
            None => false,
        }
    }

    /// Takes a certificate that ends a round into account and moves to the
    /// next view.
    pub fn take_certificate(&mut self, qc: Certificate) -> (r: Result<(), Halt>)
        requires
            old(self).wf(),
        ensures
            final(self).wf(),
            final(self).flags() == old(self).flags(),
            exists|log: Seq<CommitCalls<A>>|
                {
                    &&& #[trigger] ends_round::<A, P>(
                        old(self).application(),
                        old(self).state(),
                        qc@,
                        verdict(r),
                        log,
                        final(self).application(),
                        final(self).state(),
                    )
                    &&& forall|i: int|
                        0 <= i < log.len() ==> {
                            let c = #[trigger] log[i];
                            &&& c.answers.applies(c.block@) ==> exists|m: &mut A| #[trigger]
                                call_ensures(A::commit, (m, &c.block), c.commit) && *m == c.before
                                    && *final(m) == c.applied
                            &&& c.answers.publishes(c.block@) ==> exists|m: &mut A| #[trigger]
                                call_ensures(
                                    A::on_durable_commit,
                                    (m, &c.block, &c.commitment),
                                    c.notice,
                                ) && *m == c.applied && *final(m) == c.published
                            &&& c.answers.updates(c.block@) ==> exists|m: &mut A| #[trigger]
                                call_ensures(A::take_validator_update, (m,), c.update) && *m
                                    == c.published && *final(m) == c.after
                        }
                },
            r is Ok ==> old(self).state().follows(qc@, final(self).state()),
    {
        let ghost s = self.state();
        let ghost app = self.application();
        let ghost qv = qc@;
        let taken = self.process_qc(qc);
        let ghost mid = self.state();
        let ghost last = self.application();
        let ghost log = choose|log: Seq<CommitCalls<A>>|
            {
                &&& #[trigger] takes::<A, P>(app, s, qv, block_result(taken), log, last, mid)
                &&& forall|i: int|
                    0 <= i < log.len() ==> {
                        let c = #[trigger] log[i];
                        &&& c.answers.applies(c.block@) ==> exists|m: &mut A| #[trigger]
                            call_ensures(A::commit, (m, &c.block), c.commit) && *m == c.before
                                && *final(m) == c.applied
                        &&& c.answers.publishes(c.block@) ==> exists|m: &mut A| #[trigger]
                            call_ensures(
                                A::on_durable_commit,
                                (m, &c.block, &c.commitment),
                                c.notice,
                            ) && *m == c.applied && *final(m) == c.published
                        &&& c.answers.updates(c.block@) ==> exists|m: &mut A| #[trigger]
                            call_ensures(A::take_validator_update, (m,), c.update) && *m
                                == c.published && *final(m) == c.after
                    }
            };
        match taken {
            Ok(b) => {
                assert(s.settles_qc(qv, option_block(b), mid));
                assert(takes::<A, P>(app, s, qv, Ok(option_block(b)), log, last, mid));
                self.advance_past_high_qc();
                assert(ends_round::<A, P>(app, s, qv, Ok(()), log, last, self.state()));
                Ok(())
            },
            Err(h) => {
                assert(ends_round::<A, P>(app, s, qv, Err(h), log, last, self.state()));
                Err(h)
            },
        }
    }

    /// Ends the collection of votes for a leader's block: with a quorum,
    /// returns the announcement of its certificate, which is then to be sent
    /// and taken into account; else gives up the view.
    pub fn finish_leader_round(&mut self, view: u64, block_hash: Hash32) -> (r: Result<
        Option<Prepare>,
        LeaderError,
    >)
        requires
            old(self).wf(),
            old(self).state().pacemaker.current_view < u64::MAX,
        ensures
            final(self).wf(),
            final(self).rest() == old(self).rest(),
            ({
                let s = old(self).state();
                let votes = votes_for(s.votes, block_hash);
                let taken = RunnerView { votes: s.votes.remove(block_hash), ..s };
                let quorum = quorum_check(s.config.members(), voters_of(votes)) == Ok::<
                    bool,
                    QuorumError,
                >(true);
                let fault = formation_fault(
                    s.config.members(),
                    s.context,
                    by_voter(votes),
                    s.config.keyed(),
                );
                match r {
                    Ok(Some(p)) => {
                        &&& s.config.fault() is None
                        &&& quorum
                        &&& fault is None
                        &&& p@ == (PrepareView {
                            context: s.context,
                            view,
                            qc: formed(s.context, by_voter(votes), s.config.keyed()),
                        })
                        &&& final(self).state() == taken
                    },
                    Ok(None) => s.config.fault() is None && !quorum && final(self).state()
                        == taken.timed_out().view_started(final(self).state().pacemaker.view_start),
                    Err(LeaderError::Committee(e)) => s.config.fault() == Some(e) && final(self).state()
                        == s,
                    Err(LeaderError::OwnVote(e)) => s.config.fault() is None && quorum && fault == Some(
                        e,
                    ) && final(self).state() == taken,
                    Err(_) => false,
                }
            }),
    {
        let committee = match self.config.committee() {
            Ok(c) => c,
            Err(e) => {
                return Err(LeaderError::Committee(e));
            },
        };
        let ghost s = self.state();
        let ghost before = self.votes.map();
        let votes = match self.votes.remove(&block_hash) {
            Some(list) => list,
            None => {
                let none: Vec<Vote> = Vec::new();
                assert(vote_views(none@) =~= Seq::empty());
                none
            },
        };
        proof {
            assert(vote_map(before.remove(block_hash)) =~= vote_map(before).remove(block_hash));
        }
        let voters = collect_voters(&votes);
        let quorum = match committee.has_weighted_quorum(&voters) {
            Ok(b) => b,
            Err(_) => false,
        };
        if !quorum {
            self.pacemaker.record_timeout();
            return Ok(None);
        }
        match form_certificate(&committee, self.context, votes, self.config.bls_configured()) {
            Ok(qc) => Ok(
                Some(
                    Prepare {
                        epoch: self.context.epoch,
                        committee_hash: self.context.committee_hash,
                        genesis_hash: self.context.genesis_hash,
                        view,
                        qc,
                    },
                ),
            ),
            Err(e) => Err(LeaderError::OwnVote(e)),
        }
    }
}

/// The view moved past the highest certificate, and nothing else changed.
pub open spec fn moved_to_next(a: RunnerView, b: RunnerView) -> bool {
    b == (RunnerView {
        pacemaker: (match a.safety.high_qc {
            Some(qc) => if qc.view < u64::MAX {
                a.pacemaker.after_qc(qc)
            } else {
                a.pacemaker
            },
            None => a.pacemaker,
        }).started(b.pacemaker.view_start),
        ..a
    })
}

/// A block may be made durable exactly if the application takes it and gives for it the
/// commitment and the state root that it names.
pub proof fn lemma_preflight(
    b: BlockView,
    valid: bool,
    commitment_root: Option<Hash32>,
    state_root: Option<Option<Hash32>>,
)
    ensures
        preflight_result(b, valid, commitment_root, state_root) is Ok <==> valid && commitment_root
            == Some(b.commitment_root) && state_root == Some(Some(b.app_hash)),
        !valid ==> preflight_result(b, valid, commitment_root, state_root) == Err::<(), Halt>(
            Halt::BlockRefused { height: b.height },
        ),
        valid && commitment_root != Some(b.commitment_root) ==> preflight_result(
            b,
            valid,
            commitment_root,
            state_root,
        ) == Err::<(), Halt>(Halt::Commitment { height: b.height }),
{
}

/// A block is committed exactly if it may be made durable and is, the application applies
/// it to the state that it names and publishes it, the evidence in it is dropped, and the
/// validators do not change.
pub proof fn lemma_committed(b: BlockView, a: CommitAnswers)
    ensures
        commit_result(b, a) is Ok <==> {
            &&& a.valid
            &&& a.commitment_root == Some(b.commitment_root)
            &&& a.state_root == Some(Some(b.app_hash))
            &&& a.recorded
            &&& a.applied == Some(b.app_hash)
            &&& a.published
            &&& a.dropped is Ok
            &&& !a.new_validators
        },
        a.applies(b) <==> a.valid && a.commitment_root == Some(b.commitment_root) && a.state_root
            == Some(Some(b.app_hash)) && a.recorded,
        a.publishes(b) <==> a.applies(b) && a.applied == Some(b.app_hash),
        a.updates(b) <==> a.publishes(b) && a.published && a.dropped is Ok,
        commit_result(b, a) matches Err(h) ==> match h {
            Halt::BlockRefused { height } => height == b.height && !a.valid,
            Halt::Commitment { height } => height == b.height && a.commitment_root != Some(
                b.commitment_root,
            ),
            Halt::StateRoot { height } => height == b.height && a.state_root != Some(
                Some(b.app_hash),
            ),
            Halt::CommitNotPersisted { height } => height == b.height && !a.recorded,
            Halt::ApplicationCommit { height } => height == b.height && a.applied != Some(b.app_hash),
            Halt::Notification { height } => height == b.height && !a.published,
            Halt::CommittedEvidence { height } => height == b.height && a.dropped == Err::<
                (),
                DropFault,
            >(DropFault::Evidence),
            Halt::EvidenceNotDeleted { height } => height == b.height && a.dropped == Err::<
                (),
                DropFault,
            >(DropFault::Store),
            Halt::ValidatorUpdate { height } => height == b.height && a.new_validators,
            _ => false,
        },
{
    if let Err(e) = a.dropped {
        assert(e == DropFault::Evidence || e == DropFault::Store);
    }
}

/// What a commit does: the block is the head, applied, and durable with its receipts and
/// its state root where anything is; votes of views below it are forgotten, and those of
/// views more than ten below it are no longer stored; certificates, the view and what is
/// staged stay.
pub proof fn lemma_commit_effect<A: AppHook>(
    c: CommitCalls<A>,
    s: RunnerView,
    after: RunnerView,
    v: u64,
    h: Hash32,
)
    requires
        commit_step(c, s, after),
    ensures
        ({
            let b = c.block@;
            &&& after.committed_height == b.height
            &&& after.committed_hash == block_hash(b)
            &&& after.applied == s.applied.push(b)
            &&& after.store.committed == Some(block_hash(b))
            &&& s.durable ==> {
                &&& after.rows == s.rows.insert(block_hash(b), b)
                &&& after.ledger == s.ledger.with_block(b, Some(c.receipts()), Some(b.app_hash))
                &&& after.durable_state matches Some(d) && d.committed_height == b.height
                    && d.committed_hash == block_hash(b) && d.high_qc == s.safety.high_qc && d.voted
                    == s.safety.voted
            }
            &&& !s.durable ==> after.rows == s.rows && after.ledger == s.ledger && after.evidence
                == s.evidence
            &&& after.safety.voted.contains(v) <==> s.safety.voted.contains(v) && v >= b.view
            &&& after.safety.high_qc == s.safety.high_qc
            &&& after.safety.locked_qc == s.safety.locked_qc
            &&& after.votes.contains_key(h) <==> s.votes.contains_key(h) && s.votes[h].len() > 0
                && s.votes[h][0].view + 10 >= b.view
            &&& after.votes.contains_key(h) ==> after.votes[h] == s.votes[h]
            &&& after.detector == s.detector.pruned_below(b.view)
            &&& after.pacemaker == s.pacemaker
            &&& after.staged == s.staged
            &&& after.timeouts == s.timeouts
            &&& after.limiter == s.limiter
            &&& after.config == s.config
            &&& after.context == s.context
        }),
{
}

/// The blocks of a walk that are committed: starting from the oldest, each one that is one
/// height above the head so far and names it as its parent; they form a chain from the
/// head.
pub proof fn lemma_run_extends_head(height: u64, hash: Hash32, ps: Seq<BlockView>, i: int)
    ensures
        ({
            let run = run_of(height, hash, ps);
            &&& run.len() <= ps.len()
            &&& 0 <= i < run.len() ==> run[i].height == height + 1 + i && run[i].parent == (if i == 0 {
                hash
            } else {
                block_hash(run[i - 1])
            }) && ps.contains(run[i])
            &&& run_complete(height, hash, ps) ==> run.len() > 0 && run.last() == ps[0]
            &&& ps.len() > 0 && ps.last().height == height + 1 && ps.last().parent == hash
                ==> run.len() > 0 && run[0] == ps.last()
        }),
    decreases ps.len(),
{
    if ps.len() > 0 {
        let front = ps.drop_last();
        let b = ps.last();
        assert(ps[ps.len() - 1] == b);
        if run_extends(height, hash, b) {
            let rest = run_of(b.height, block_hash(b), front);
            lemma_run_extends_head(b.height, block_hash(b), front, i - 1);
            lemma_run_extends_head(b.height, block_hash(b), front, 0);
            let run = run_of(height, hash, ps);
            assert(run == seq![b] + rest);
            if 0 < i < run.len() {
                assert(run[i] == rest[i - 1]);
                let k = choose|k: int| 0 <= k < front.len() && front[k] == rest[i - 1];
                assert(ps[k] == run[i]);
            }
            if run_complete(height, hash, ps) && ps.len() > 1 {
                assert(run.last() == rest.last());
                assert(front[0] == ps[0]);
            }
        } else {
            lemma_run_extends_head(height, hash, front, i);
            let run = run_of(height, hash, front);
            if 0 <= i < run.len() {
                let k = choose|k: int| 0 <= k < front.len() && front[k] == run[i];
                assert(ps[k] == run[i]);
            }
            if ps.len() > 1 {
                assert(front[0] == ps[0]);
            }
        }
    }
}

/// A block that does not extend the head becomes pending again, as far as there is room,
/// and nothing else changes.
pub proof fn lemma_put_back(s: RunnerView, b: BlockView, after: RunnerView)
    requires
        s.puts_back(b, after),
    ensures
        b.height != s.committed_height + 1 || b.parent != s.committed_hash,
        s.pending_fault(b) is None ==> after.pending == s.pending.insert(block_hash(b), b),
        s.pending_fault(b) is Some ==> after.pending == s.pending,
        after == (RunnerView { pending: after.pending, ..s }),
{
}

/// What a walk looked up is no longer pending: the block asked for and, one after the
/// other, the parents of blocks more than one height above the committed one; all else
/// stays.
pub proof fn lemma_taken_out(s: RunnerView, target: Hash32, ps: Seq<BlockView>, h: Hash32)
    ensures
        ({
            let after = s.taken_out(target, ps);
            let looked_up = h == target || (exists|i: int|
                0 <= i < ps.len() && (i == ps.len() - 1 ==> ps[i].height > s.committed_height + 1)
                    && (#[trigger] ps[i]).parent == h);
            &&& after.pending.contains_key(h) <==> s.pending.contains_key(h) && !looked_up
            &&& after.pending.contains_key(h) ==> after.pending[h] == s.pending[h]
            &&& after == (RunnerView { pending: after.pending, ..s })
        }),
{
    if s.walked(target, ps, h) {
        let i = choose|i: int|
            0 <= i <= ps.len() && (i > 0 && i == ps.len() ==> ps.last().height
                > s.committed_height + 1) && #[trigger] walk_key(target, ps, i) == h;
        if i > 0 {
            assert(ps[i - 1].parent == h);
        }
    }
    assert(walk_key(target, ps, 0) == target);
    if exists|i: int|
        0 <= i < ps.len() && (i == ps.len() - 1 ==> ps[i].height > s.committed_height + 1) && (
        #[trigger] ps[i]).parent == h {
        let i = choose|i: int|
            0 <= i < ps.len() && (i == ps.len() - 1 ==> ps[i].height > s.committed_height + 1) && (
            #[trigger] ps[i]).parent == h;
        assert(walk_key(target, ps, i + 1) == h);
    }
}

/// A walk goes from a block up through known parents above the committed height, and ends
/// right above it, at an unknown or committed block, or in a cycle.
pub proof fn lemma_walk(s: RunnerView, target: Hash32, ps: Seq<BlockView>, i: int)
    requires
        s.uncommitted(target, ps),
    ensures
        ps.len() > 0 ==> s.known_at(target) == Some(ps[0]),
        0 < i < ps.len() ==> s.known_at(ps[i - 1].parent) == Some(ps[i]) && ps[i - 1].height
            > s.committed_height + 1,
        0 <= i < ps.len() ==> ps[i].height > s.committed_height,
        ps.len() == 0 ==> (s.known_at(target) matches Some(b) ==> b.height <= s.committed_height),
{
    if ps.len() > 0 {
        assert(s.walk_link(target, ps, 0));
    }
    if 0 <= i < ps.len() {
        assert(s.walk_link(target, ps, i));
    }
}

/// A certificate is taken into account exactly if it is of the context and its block is
/// known and connected; it raises the highest certificate, and that of its block the lock.
pub proof fn lemma_certificate_taken(s: RunnerView, qc: CertificateView)
    ensures
        s.takes_qc(qc) <==> qc.context == s.context && (s.known_at(qc.block_hash) matches Some(b)
            && s.connected(block_hash(b))),
        s.with_qc(qc) == (RunnerView { safety: s.with_qc(qc).safety, ..s }),
        s.known()[qc.block_hash].justify matches Some(j) ==> s.with_qc(qc).safety
            == s.safety.after_high_qc(qc).after_locked_qc(j),
        s.known()[qc.block_hash].justify is None ==> s.with_qc(qc).safety == s.safety.after_high_qc(
            qc,
        ),
{
}

/// An announcement of a certificate is followed exactly if it and the certificate are of
/// the context, and the certificate verifies for a known and connected block of that view.
pub proof fn lemma_prepare_followed(s: RunnerView, p: PrepareView)
    ensures
        s.prepare_fault(p) is None <==> {
            &&& p.context == s.context
            &&& s.config.fault() is None
            &&& s.known_at(p.qc.block_hash) matches Some(b) && s.connected(block_hash(b)) && b.view
                == p.view && certificate_check(
                s.config.members(),
                p.qc,
                s.context,
                p.view,
                p.qc.block_hash,
                Some(b.app_hash),
                s.config.keyed(),
            ) is Ok
        },
{
    crate::consensus::committee::lemma_certificate_verifies(
        s.config.members(),
        p.qc,
        s.context,
        p.view,
        p.qc.block_hash,
        Some(s.known()[p.qc.block_hash].app_hash),
        s.config.keyed(),
    );
}

/// A node moves to the view after that of its highest certificate, if it is ahead, and
/// nothing else changes.
pub proof fn lemma_moved_to_next(a: RunnerView, b: RunnerView)
    requires
        moved_to_next(a, b),
    ensures
        (a.safety.high_qc matches Some(qc) && qc.view < u64::MAX && qc.view >= a.pacemaker.current_view
            && (a.pacemaker.context matches Some(c) ==> c == qc.context)) ==> b.pacemaker.current_view
            == a.safety.high_qc->Some_0.view + 1 && b.pacemaker.consecutive_timeouts == 0,
        (a.safety.high_qc matches Some(qc) ==> qc.view < a.pacemaker.current_view)
            ==> b.pacemaker.current_view == a.pacemaker.current_view
            && b.pacemaker.consecutive_timeouts == a.pacemaker.consecutive_timeouts,
        b == (RunnerView { pacemaker: b.pacemaker, ..a }),
{
}

/// A payload carries evidence if it decodes, its evidence is well-formed, and all of it is
/// of the context; dropping it removes exactly the records with its keys.
pub proof fn lemma_evidence_dropped(
    reading: EvidenceReading,
    context: ConsensusContext,
    before: Records,
    after: Records,
    k: Seq<u8>,
)
    ensures
        carried_evidence(reading, context) is Some <==> (reading matches Some(Ok(list)) && (forall|
            i: int,
        |
            0 <= i < list.len() ==> (#[trigger] list[i]).context == context)),
        carried_evidence(reading, context) matches Some(list) ==> reading == Some(
            Ok::<Seq<ProofView>, EvidenceError>(list),
        ),
        drops_committed(reading, context, before, after, Ok(())) ==> (after.contains_key(k)
            <==> before.contains_key(k) && !has_record(
            carried_evidence(reading, context)->Some_0,
            k,
        )),
{
}

/// A walk that is settled commits its run, in order: each block is asked about once, with
/// the application as the commit before it left it.
pub proof fn lemma_settled<A: AppHook, P: PersistentStore>(
    app: A,
    s: RunnerView,
    ps: Seq<BlockView>,
    log: Seq<CommitCalls<A>>,
    last: A,
    after: RunnerView,
)
    requires
        settled::<A, P>(app, s, ps, log, last, after),
    ensures
        log.len() <= ps.len(),
        log.len() == 0 ==> last == app && after == (RunnerView { pending: after.pending, ..s }),
        log.len() > 0 ==> log[0].before == app && log.last().after == last,
        forall|i: int| 0 < i < log.len() ==> (#[trigger] log[i]).before == log[i - 1].after,
        forall|i: int|
            0 <= i < log.len() ==> commit_result((#[trigger] log[i]).block@, log[i].answers) is Ok,
        after.applied.len() == s.applied.len() + log.len(),
        forall|i: int|
            0 <= i < log.len() ==> after.applied[s.applied.len() + i] == (#[trigger] log[i]).block@,
    decreases ps.len(),
{
    if ps.len() > 0 {
        let rest = ps.drop_first();
        if log.len() > 0 && exists|mid: RunnerView|
            settled::<A, P>(app, s, rest, log.drop_last(), log.last().before, mid)
                && #[trigger] commits_next::<A, P>(log.last(), ps[0], mid, last, after) {
            let mid = choose|mid: RunnerView|
                settled::<A, P>(app, s, rest, log.drop_last(), log.last().before, mid)
                    && #[trigger] commits_next::<A, P>(log.last(), ps[0], mid, last, after);
            let front = log.drop_last();
            let n = log.len() - 1;
            lemma_settled::<A, P>(app, s, rest, front, log.last().before, mid);
            lemma_commit_effect(log.last(), mid, after, 0, ps[0].parent);
            assert forall|i: int| 0 <= i < n implies #[trigger] log[i] == front[i] by {}
            assert(log[n] == log.last());
            assert forall|i: int| 0 < i < log.len() implies (#[trigger] log[i]).before == log[i
                - 1].after by {
                if i < n {
                    assert(front[i].before == front[i - 1].after);
                } else {
                    assert(front[i - 1] == log[i - 1]);
                }
            }
            assert forall|i: int| 0 <= i < log.len() implies commit_result(
                (#[trigger] log[i]).block@,
                log[i].answers,
            ) is Ok && after.applied[s.applied.len() + i] == log[i].block@ by {
                if i < n {
                    assert(front[i] == log[i]);
                }
            }
            if n > 0 {
                assert(front[0] == log[0]);
                assert(front.last() == log[n - 1]);
            }
        } else {
            let mid = choose|mid: RunnerView|
                settled::<A, P>(app, s, rest, log, last, mid) && #[trigger] mid.puts_back(
                    ps[0],
                    after,
                );
            lemma_settled::<A, P>(app, s, rest, log, last, mid);
        }
    }
}

/// A committed block was accepted by the application with the commitment and the state root
/// that it names, was applied by it to that state, then published with that commitment, and
/// then no change of the validators was handed out; each time by the application as the
/// call before left it.
pub proof fn lemma_commit_asked<A: AppHook, P: PersistentStore>(c: CommitCalls<A>, s: RunnerView)
    requires
        commit_asked::<A, P>(c, s),
        commit_result(c.block@, c.answers) is Ok,
    ensures
        asks_validity(c.before, c.block, true),
        asks_commitment(c.before, c.block, Some(c.block@.commitment_root)),
        asks_state_root(c.before, c.block, Some(Some(c.block@.app_hash))),
        call_ensures(A::preflight_commitment, (&c.before, &c.block), Ok(Some(c.commitment))),
        sha256(receipts_bytes(byte_rows(c.commitment.receipts@))) == c.block@.commitment_root,
        asks_commit(c.before, c.block, Some(c.block@.app_hash)),
        asks_notice(c.applied, c.block, c.commitment, true),
        asks_update(c.published, false),
        s.durable ==> carried_evidence(A::evidence_in(c.block@.payload), s.context) is Some,
        c.failures < 3,
{
}

/// Each block of a run is durable under its hash.
pub proof fn lemma_run_durable(rows: Map<Hash32, BlockView>, blocks: Seq<BlockView>, b: BlockView)
    ensures
        with_blocks(rows, blocks.push(b)) == with_blocks(rows, blocks).insert(block_hash(b), b),
        with_blocks(rows, Seq::empty()) == rows,
{
    assert(blocks.push(b).drop_last() =~= blocks);
}

/// What comes of a certificate that is not taken into account is nothing; one that is
/// raises the highest certificate and, above genesis, commits the parent of its block with
/// its ancestors.
pub proof fn lemma_takes<A: AppHook, P: PersistentStore>(
    app: A,
    s: RunnerView,
    qc: CertificateView,
    r: Result<Option<BlockView>, Halt>,
    log: Seq<CommitCalls<A>>,
    last: A,
    after: RunnerView,
)
    requires
        takes::<A, P>(app, s, qc, r, log, last, after),
    ensures
        !s.takes_qc(qc) ==> r == Ok::<Option<BlockView>, Halt>(None) && after == s && last == app,
        s.takes_qc(qc) && s.known()[qc.block_hash].height == 0 ==> r == Ok::<Option<BlockView>, Halt>(
            None,
        ) && after == s.with_qc(qc) && last == app,
        s.takes_qc(qc) && s.known()[qc.block_hash].height > 0 ==> commits_run::<A, P>(
            app,
            s.with_qc(qc),
            s.known()[qc.block_hash].parent,
            r,
            log,
            last,
            after,
        ),
{
}

/// What the refusal of an announcement says of it is so.
pub proof fn lemma_prepare_refusal(s: RunnerView, p: PrepareView)
    ensures
        match s.prepare_fault(p) {
            None => true,
            Some(PrepareError::Context) => p.context != s.context || p.qc.context != s.context,
            Some(PrepareError::Committee(e)) => s.config.fault() == Some(e),
            Some(PrepareError::UnknownBlock) => s.known_at(p.qc.block_hash) is None,
            Some(PrepareError::NotConnected) => s.known_at(p.qc.block_hash) matches Some(b)
                && !s.connected(block_hash(b)),
            Some(PrepareError::ViewMismatch) => s.known_at(p.qc.block_hash) matches Some(b) && b.view
                != p.view,
            Some(PrepareError::Qc(e)) => certificate_check(
                s.config.members(),
                p.qc,
                s.context,
                p.view,
                p.qc.block_hash,
                Some(s.known()[p.qc.block_hash].app_hash),
                s.config.keyed(),
            ) == Err::<(), VerifyError>(e),
        },
{
}

} // verus!
