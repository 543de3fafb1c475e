//! Replay of durable blocks through the application.

use vstd::prelude::*;

use crate::bytes::{
    byte_rows, bytes_eq, contains_hash, copy_hashes, hash_eq, option_hash_eq, Hash32,
};
use crate::consensus::committee::{certificate_check, verify_certificate, VerifyError};
use crate::consensus::hooks::AppHook;
use crate::consensus::persistence::option_state;
use crate::consensus::runner::asks::{asks_commit, asks_preflight};
use crate::consensus::store::block_map;
use crate::crypto::sha256;
use crate::node::bootstrap::head_matches;
use crate::table::Table;
use crate::types::block::{
    block_hash, block_views, genesis_block, option_block, receipts_bytes, well_formed_block, Block,
    BlockView, CommitmentV2,
};
use crate::types::certificate::{Certificate, CertificateView};
use crate::types::committee::{leader_of, Committee, MemberView};
use crate::types::context::ConsensusContext;
use crate::types::messages::{ConsensusState, ConsensusStateView};

verus! {

/// An application that can tell how far it has come.
pub trait CanonicalApp: AppHook {
    /// The epoch that the application is in.
    fn current_epoch(&self) -> u64;

    /// Whether a change of the validators is pending.
    fn has_pending_validator_update(&self) -> bool;

    /// The height that the application has committed.
    fn committed_height(&self) -> u64;
}

/// What a durable store holds for a replay: the state, the metadata of the
/// committed head, the blocks above genesis, and the recorded commitments and
/// state roots by block.
pub struct ReplayData {
    pub state: Option<ConsensusState>,
    pub committed_head: Option<Block>,
    pub committed_height: Option<u64>,
    pub blocks: Vec<Block>,
    pub commitments: Table<Hash32, CommitmentV2>,
    pub state_roots: Table<Hash32, Hash32>,
}

/// Why a replay fails.
#[derive(Clone, Copy, Debug, PartialEq, Eq)]
pub enum ReplayError {
    /// The block and the node are of different epochs.
    BlockEpoch,
    /// The application is in another epoch.
    ApplicationEpoch,
    /// The application has a pending change of the validators.
    PendingUpdate,
    /// There are durable blocks and no durable state.
    BlocksWithoutState,
    /// The durable state belongs to another context.
    StateContext,
    /// There is no committed head.
    NoHead,
    /// There is no committed height.
    NoHeight,
    /// The committed height is not that of the state.
    HeightMismatch,
    /// The committed head is not that of the state.
    HeadMismatch,
    /// The number of blocks is not that of the committed height.
    Incomplete,
    /// The heights are not sequential.
    NotSequential { height: u64 },
    /// A block belongs to another context.
    BlockContext { height: u64 },
    /// A block is malformed.
    InvalidBlock { height: u64 },
    /// A block does not build on the one before it.
    BrokenParent { height: u64 },
    /// The first block carries a certificate.
    UnexpectedQc,
    /// A later block carries no certificate.
    MissingQc { height: u64 },
    /// The certificate of a block does not verify.
    Qc { height: u64, fault: VerifyError },
    /// The commitment of a block is not recorded.
    MissingCommitment { height: u64 },
    /// The application gives another commitment than the recorded one, or
    /// none.
    CommitmentMismatch { height: u64 },
    /// The commitment is not the one in the header.
    CommitmentRoot { height: u64 },
    /// The state root of a block is not recorded.
    MissingStateRoot { height: u64 },
    /// The application gives another state root than the recorded one, or
    /// none.
    StateRootMismatch { height: u64 },
    /// The state root is not the one in the header.
    StateRoot { height: u64 },
    /// The application does not commit a block to the state that it names.
    Commit { height: u64 },
    /// The last block is not the committed head.
    WrongHead,
    /// The application has committed another height.
    ApplicationHeight,
}

/// The epoch of a block and of the application fit the node's.
pub open spec fn epoch_fault(
    b: BlockView,
    context: ConsensusContext,
    app_epoch: u64,
    pending: bool,
) -> Option<ReplayError> {
    if b.context.epoch != context.epoch {
        Some(ReplayError::BlockEpoch)
    } else if app_epoch != b.context.epoch {
        Some(ReplayError::ApplicationEpoch)
    } else if pending {
        Some(ReplayError::PendingUpdate)
    } else {
        None
    }
}

/// Checks that the epoch of a block and of the application fit the node's.
pub fn check_recovery_epoch(block: &Block, context: ConsensusContext, app_epoch: u64, pending: bool) -> (r:
    Result<(), ReplayError>)
    ensures
        match r {
            Ok(()) => epoch_fault(block@, context, app_epoch, pending) is None,
            Err(e) => epoch_fault(block@, context, app_epoch, pending) == Some(e),
        },
{
    if block.epoch != context.epoch {
        return Err(ReplayError::BlockEpoch);
    }
    if app_epoch != block.epoch {
        return Err(ReplayError::ApplicationEpoch);
    }
    if pending {
        return Err(ReplayError::PendingUpdate);
    }
    Ok(())
}

/// The application tells its epoch and whether a change of the validators is
/// pending.
pub open spec fn asks_epoch<A: CanonicalApp>(app: A, epoch: u64, pending: bool) -> bool {
    &&& call_ensures(A::current_epoch, (&app,), epoch)
    &&& call_ensures(A::has_pending_validator_update, (&app,), pending)
}

/// The application tells the height that it has committed.
pub open spec fn asks_height<A: CanonicalApp>(app: A, height: u64) -> bool {
    call_ensures(A::committed_height, (&app,), height)
}

/// The receipts of the execution commitment that an answer holds.
pub open spec fn receipts_answer(res: Result<Option<CommitmentV2>, String>) -> Option<Seq<Seq<u8>>> {
    match res {
        Ok(Some(c)) => Some(byte_rows(c.receipts@)),
        _ => None,
    }
}

/// The state root that an answer holds.
pub open spec fn root_answer(res: Result<Option<Hash32>, String>) -> Option<Hash32> {
    match res {
        Ok(root) => root,
        Err(_) => None,
    }
}

/// The application gives the execution commitment of a block.
pub open spec fn asks_receipts<A: CanonicalApp>(app: A, block: Block, answer: Option<Seq<Seq<u8>>>) -> bool {
    exists|res: Result<Option<CommitmentV2>, String>| #[trigger]
        call_ensures(A::preflight_commitment, (&app, &block), res) && answer == receipts_answer(res)
}

/// The application gives the state root of a block.
pub open spec fn asks_root<A: CanonicalApp>(app: A, block: Block, answer: Option<Hash32>) -> bool {
    exists|res: Result<Option<Hash32>, String>| #[trigger]
        call_ensures(A::preflight_state_root, (&app, &block), res) && answer == root_answer(res)
}

/// What the application answers about a block that is replayed: its epoch and
/// whether a change of the validators is pending, before and after, the receipts
/// of the commitment, the state root, and the state after the block was applied.
/// A failure counts as none.
pub ghost struct ReplayAnswers {
    pub epoch: u64,
    pub pending: bool,
    pub receipts: Option<Seq<Seq<u8>>>,
    pub state_root: Option<Hash32>,
    pub applied: Option<Hash32>,
    pub epoch_after: u64,
    pub pending_after: bool,
}

/// Why a recorded commitment is not that of its block.
pub open spec fn commitment_fault(
    data: ReplayData,
    b: BlockView,
    receipts: Option<Seq<Seq<u8>>>,
) -> Option<ReplayError> {
    let recorded = data.commitments.map();
    if !recorded.contains_key(block_hash(b)) {
        Some(ReplayError::MissingCommitment { height: b.height })
    } else if receipts != Some(byte_rows(recorded[block_hash(b)].receipts@)) {
        Some(ReplayError::CommitmentMismatch { height: b.height })
    } else if sha256(receipts_bytes(receipts->Some_0)) != b.commitment_root {
        Some(ReplayError::CommitmentRoot { height: b.height })
    } else {
        None
    }
}

/// Why a recorded state root is not that of its block.
pub open spec fn root_fault(data: ReplayData, b: BlockView, state_root: Option<Hash32>) -> Option<
    ReplayError,
> {
    let recorded = data.state_roots.map();
    if !recorded.contains_key(block_hash(b)) {
        Some(ReplayError::MissingStateRoot { height: b.height })
    } else if state_root != Some(recorded[block_hash(b)]) {
        Some(ReplayError::StateRootMismatch { height: b.height })
    } else if recorded[block_hash(b)] != b.app_hash {
        Some(ReplayError::StateRoot { height: b.height })
    } else {
        None
    }
}

/// Why a block is not applied again, given the answers before that.
pub open spec fn unapplied(
    data: ReplayData,
    b: BlockView,
    link: Option<ReplayError>,
    context: ConsensusContext,
    a: ReplayAnswers,
) -> Option<ReplayError> {
    if epoch_fault(b, context, a.epoch, a.pending) is Some {
        epoch_fault(b, context, a.epoch, a.pending)
    } else if link is Some {
        link
    } else if commitment_fault(data, b, a.receipts) is Some {
        commitment_fault(data, b, a.receipts)
    } else {
        root_fault(data, b, a.state_root)
    }
}

/// What comes of the replay of a block, given the answers.
pub open spec fn replay_result(
    data: ReplayData,
    b: BlockView,
    link: Option<ReplayError>,
    context: ConsensusContext,
    a: ReplayAnswers,
) -> Result<(), ReplayError> {
    if unapplied(data, b, link, context, a) is Some {
        Err(unapplied(data, b, link, context, a)->Some_0)
    } else if a.applied != Some(b.app_hash) {
        Err(ReplayError::Commit { height: b.height })
    } else if epoch_fault(b, context, a.epoch_after, a.pending_after) is Some {
        Err(epoch_fault(b, context, a.epoch_after, a.pending_after)->Some_0)
    } else {
        Ok(())
    }
}

/// The replay of a block through an application: the application before it,
/// whether it was to apply the block and what it answered then, the application
/// after it, and the other answers.
pub ghost struct ReplayCalls<A> {
    pub block: Block,
    pub before: A,
    pub commits: bool,
    pub commit: Result<Hash32, String>,
    pub after: A,
    pub answers: ReplayAnswers,
}

/// The answers about a block that is replayed are those that the application
/// gave when it was asked, each question only after the answers before it fit.
/// A block that is not applied leaves the application as it is.
pub open spec fn replay_asked<A: CanonicalApp>(
    c: ReplayCalls<A>,
    data: ReplayData,
    link: Option<ReplayError>,
    context: ConsensusContext,
) -> bool {
    let b = c.block@;
    let a = c.answers;
    let linked = epoch_fault(b, context, a.epoch, a.pending) is None && link is None;
    &&& asks_epoch(c.before, a.epoch, a.pending)
    &&& linked && data.commitments.map().contains_key(block_hash(b)) ==> asks_receipts(
        c.before,
        c.block,
        a.receipts,
    )
    &&& linked && commitment_fault(data, b, a.receipts) is None
        && data.state_roots.map().contains_key(block_hash(b)) ==> asks_root(
        c.before,
        c.block,
        a.state_root,
    )
    &&& c.commits == (unapplied(data, b, link, context, a) is None)
    &&& if c.commits {
        &&& asks_commit(c.before, c.block, a.applied)
        &&& a.applied == (match c.commit {
            Ok(h) => Some(h),
            Err(_) => None,
        })
        &&& a.applied == Some(b.app_hash) ==> asks_epoch(c.after, a.epoch_after, a.pending_after)
    } else {
        c.after == c.before
    }
}

/// The blocks that an application holds once a block was replayed: one more if
/// it was applied. A failed commit leaves that open.
pub open spec fn replay_applies(
    before: Seq<BlockView>,
    data: ReplayData,
    b: BlockView,
    link: Option<ReplayError>,
    context: ConsensusContext,
    a: ReplayAnswers,
    after: Seq<BlockView>,
) -> bool {
    if unapplied(data, b, link, context, a) is Some {
        after == before
    } else {
        a.applied is Some ==> after == before.push(b)
    }
}

/// The fault of a block at a position of the replayed chain, given the block
/// before it.
pub open spec fn replay_link_fault(
    b: BlockView,
    parent: BlockView,
    i: int,
    context: ConsensusContext,
    members: Seq<MemberView>,
) -> Option<ReplayError> {
    if b.height != i + 1 {
        Some(ReplayError::NotSequential { height: b.height })
    } else if b.context != context {
        Some(ReplayError::BlockContext { height: b.height })
    } else if !well_formed_block(b) {
        Some(ReplayError::InvalidBlock { height: b.height })
    } else if b.parent != block_hash(parent) {
        Some(ReplayError::BrokenParent { height: b.height })
    } else if b.height == 1 {
        if b.justify is Some {
            Some(ReplayError::UnexpectedQc)
        } else {
            None
        }
    } else {
        match b.justify {
            None => Some(ReplayError::MissingQc { height: b.height }),
            Some(qc) => match certificate_check(
                members,
                qc,
                context,
                parent.view,
                b.parent,
                Some(parent.app_hash),
                true,
            ) {
                Ok(()) => None,
                Err(e) => Some(ReplayError::Qc { height: b.height, fault: e }),
            },
        }
    }
}

/// Checks a block of the replayed chain against the block before it.
pub fn check_replay_link(
    b: &Block,
    parent: &Block,
    i: usize,
    context: ConsensusContext,
    committee: &Committee,
) -> (r: Result<(), ReplayError>)
    requires
        i < usize::MAX,
    ensures
        match r {
            Ok(()) => replay_link_fault(
                b@,
                parent@,
                i as int,
                context,
                committee.members_view(),
            ) is None,
            Err(e) => replay_link_fault(b@, parent@, i as int, context, committee.members_view())
                == Some(e),
        },
{
    if b.height != i as u64 + 1 {
        return Err(ReplayError::NotSequential { height: b.height });
    }
    if b.validate_context(context).is_err() {
        return Err(ReplayError::BlockContext { height: b.height });
    }
    if b.validate().is_err() {
        return Err(ReplayError::InvalidBlock { height: b.height });
    }
    if !hash_eq(&b.parent, &parent.hash()) {
        return Err(ReplayError::BrokenParent { height: b.height });
    }
    if b.height == 1 {
        if b.justify.is_some() {
            return Err(ReplayError::UnexpectedQc);
        }
        return Ok(());
    }
    match &b.justify {
        None => Err(ReplayError::MissingQc { height: b.height }),
        Some(qc) => match verify_certificate(
            committee,
            qc,
            context,
            parent.view,
            &b.parent,
            Some(parent.app_hash),
            true,
        ) {
            Ok(()) => Ok(()),
            Err(fault) => Err(ReplayError::Qc { height: b.height, fault }),
        },
    }
}

/// Two commitments hold the same receipts.
pub open spec fn same_commitment(a: CommitmentV2, b: CommitmentV2) -> bool {
    byte_rows(a.receipts@) == byte_rows(b.receipts@)
}

/// Whether two commitments hold the same receipts.
pub fn commitment_eq(a: &CommitmentV2, b: &CommitmentV2) -> (r: bool)
    ensures
        r == same_commitment(*a, *b),
{
    assert(byte_rows(a.receipts@).len() == a.receipts@.len());
    assert(byte_rows(b.receipts@).len() == b.receipts@.len());
    if a.receipts.len() != b.receipts.len() {
        return false;
    }
    let mut i: usize = 0;
    while i < a.receipts.len()
        invariant
            i <= a.receipts.len(),
            a.receipts.len() == b.receipts.len(),
            forall|k: int| 0 <= k < i ==> a.receipts[k]@ == b.receipts[k]@,
        decreases a.receipts.len() - i,
    {
        if !bytes_eq(&a.receipts[i], &b.receipts[i]) {
            assert(byte_rows(a.receipts@)[i as int] != byte_rows(b.receipts@)[i as int]);
            return false;
        }
        i = i + 1;
    }
    assert(byte_rows(a.receipts@) =~= byte_rows(b.receipts@));
    true
}

/// Checks a recorded commitment against the header of its block and the one
/// that the application gives.
pub fn check_commitment(
    block: &Block,
    recorded: Option<&CommitmentV2>,
    generated: &Option<CommitmentV2>,
) -> (r: Result<(), ReplayError>)
    ensures
        match r {
            Ok(()) => recorded is Some && generated is Some && same_commitment(
                *recorded->Some_0,
                generated->Some_0,
            ) && crate::crypto::sha256(
                crate::types::block::receipts_bytes(byte_rows(generated->Some_0.receipts@)),
            ) == block@.commitment_root,
            Err(e) => if recorded is None {
                e == (ReplayError::MissingCommitment { height: block@.height })
            } else if generated is None || !same_commitment(*recorded->Some_0, generated->Some_0) {
                e == (ReplayError::CommitmentMismatch { height: block@.height })
            } else {
                e == (ReplayError::CommitmentRoot { height: block@.height }) && crate::crypto::sha256(
                    crate::types::block::receipts_bytes(byte_rows(generated->Some_0.receipts@)),
                ) != block@.commitment_root
            },
        },
{
    let recorded = match recorded {
        Some(c) => c,
        None => {
            return Err(ReplayError::MissingCommitment { height: block.height });
        },
    };
    let generated = match generated {
        Some(c) => c,
        None => {
            return Err(ReplayError::CommitmentMismatch { height: block.height });
        },
    };
    if !commitment_eq(recorded, generated) {
        return Err(ReplayError::CommitmentMismatch { height: block.height });
    }
    if !hash_eq(&generated.root(), &block.commitment_root) {
        return Err(ReplayError::CommitmentRoot { height: block.height });
    }
    Ok(())
}

/// Checks a recorded state root against the header of its block and the one
/// that the application gives.
pub fn check_state_root(block: &Block, recorded: Option<&Hash32>, generated: &Option<Hash32>) -> (r: Result<
    (),
    ReplayError,
>)
    ensures
        match r {
            Ok(()) => recorded is Some && *generated == Some(*recorded->Some_0)
                && *recorded->Some_0 == block@.app_hash,
            Err(e) => if recorded is None {
                e == (ReplayError::MissingStateRoot { height: block@.height })
            } else if *generated != Some(*recorded->Some_0) {
                e == (ReplayError::StateRootMismatch { height: block@.height })
            } else {
                e == (ReplayError::StateRoot { height: block@.height }) && *recorded->Some_0
                    != block@.app_hash
            },
        },
{
    let recorded = match recorded {
        Some(h) => *h,
        None => {
            return Err(ReplayError::MissingStateRoot { height: block.height });
        },
    };
    if !option_hash_eq(generated, &Some(recorded)) {
        return Err(ReplayError::StateRootMismatch { height: block.height });
    }
    if !hash_eq(&recorded, &block.app_hash) {
        return Err(ReplayError::StateRoot { height: block.height });
    }
    Ok(())
}

/// The blocks up to a height, in the order in which they are stored.
pub open spec fn up_to(blocks: Seq<BlockView>, height: u64) -> Seq<BlockView> {
    blocks.filter(|b: BlockView| b.height <= height)
}

/// The fault of the metadata of a replay.
pub open spec fn replay_metadata_fault(
    data: ReplayData,
    state: ConsensusStateView,
    context: ConsensusContext,
) -> Option<ReplayError> {
    if state.context != context {
        Some(ReplayError::StateContext)
    } else if data.committed_head is None {
        Some(ReplayError::NoHead)
    } else if data.committed_height is None {
        Some(ReplayError::NoHeight)
    } else if data.committed_height->Some_0 != state.committed_height {
        Some(ReplayError::HeightMismatch)
    } else if !head_matches(data.committed_head->Some_0@, state) {
        Some(ReplayError::HeadMismatch)
    } else if up_to(block_views(data.blocks@), state.committed_height).len()
        != state.committed_height {
        Some(ReplayError::Incomplete)
    } else {
        None
    }
}

/// The block before a position of the replayed chain, which starts on
/// genesis.
pub open spec fn before(chain: Seq<BlockView>, i: int, context: ConsensusContext) -> BlockView {
    if i == 0 {
        genesis_block(context)
    } else {
        chain[i - 1]
    }
}

/// Every block of the replayed chain is valid on the one before it.
pub open spec fn chain_valid(
    chain: Seq<BlockView>,
    n: int,
    context: ConsensusContext,
    members: Seq<MemberView>,
) -> bool {
    forall|i: int|
        0 <= i < n ==> #[trigger] replay_link_ok(chain, i, context, members)
}

/// The block at a position of the replayed chain is valid on the one before
/// it.
pub open spec fn replay_link_ok(
    chain: Seq<BlockView>,
    i: int,
    context: ConsensusContext,
    members: Seq<MemberView>,
) -> bool {
    replay_link_fault(chain[i], before(chain, i, context), i, context, members) is None
}

/// The fault of the block at a position of the replayed chain on its own.
pub open spec fn link_at(
    chain: Seq<BlockView>,
    i: int,
    context: ConsensusContext,
    members: Seq<MemberView>,
) -> Option<ReplayError> {
    replay_link_fault(chain[i], before(chain, i, context), i, context, members)
}

/// The application before the block at a position of the chain is replayed.
pub open spec fn app_at<A>(first: A, log: Seq<ReplayCalls<A>>, i: int) -> A {
    if i == 0 {
        first
    } else {
        log[i - 1].after
    }
}

/// The block at a position of the chain was replayed through the application as
/// the block before it left it.
pub open spec fn replays<A: CanonicalApp>(
    first: A,
    log: Seq<ReplayCalls<A>>,
    data: ReplayData,
    chain: Seq<BlockView>,
    i: int,
    context: ConsensusContext,
    members: Seq<MemberView>,
) -> bool {
    let link = link_at(chain, i, context, members);
    &&& log[i].block@ == chain[i]
    &&& log[i].before == app_at(first, log, i)
    &&& replay_asked(log[i], data, link, context)
    &&& replay_result(data, chain[i], link, context, log[i].answers) is Ok
}

/// The replay stops at the last block that it came to, because of the stored
/// data or of an answer of the application.
pub open spec fn replay_stops<A: CanonicalApp>(
    first: A,
    last: A,
    log: Seq<ReplayCalls<A>>,
    data: ReplayData,
    chain: Seq<BlockView>,
    context: ConsensusContext,
    members: Seq<MemberView>,
    e: ReplayError,
) -> bool {
    let k = log.len() - 1;
    let c = log.last();
    let link = link_at(chain, k, context, members);
    &&& 0 <= k < chain.len()
    &&& forall|i: int|
        0 <= i < k ==> #[trigger] replays(first, log, data, chain, i, context, members)
    &&& c.block@ == chain[k]
    &&& c.before == app_at(first, log, k)
    &&& c.before.applied() == first.applied() + chain.take(k)
    &&& c.after == last
    &&& replay_asked(c, data, link, context)
    &&& replay_result(data, chain[k], link, context, c.answers) == Err::<(), ReplayError>(e)
    &&& replay_applies(
        c.before.applied(),
        data,
        chain[k],
        link,
        context,
        c.answers,
        last.applied(),
    )
}

/// What comes of the replay of a chain: all blocks are applied, once and in
/// order, and the application stands at the committed height; or the replay
/// stops at a block, or at the end because head or height are not the committed
/// ones.
pub open spec fn chain_outcome<A: CanonicalApp>(
    first: A,
    last: A,
    log: Seq<ReplayCalls<A>>,
    data: ReplayData,
    state: ConsensusStateView,
    chain: Seq<BlockView>,
    context: ConsensusContext,
    members: Seq<MemberView>,
    r: Result<(), ReplayError>,
) -> bool {
    let n = chain.len() as int;
    let whole = log.len() == n && (forall|i: int|
        0 <= i < n ==> #[trigger] replays(first, log, data, chain, i, context, members)) && last
        == app_at(first, log, n) && last.applied() == first.applied() + chain;
    let at_head = block_hash(before(chain, n, context)) == state.committed_hash;
    match r {
        Ok(()) => whole && at_head && asks_height(last, state.committed_height),
        Err(e) => {
            ||| whole && !at_head && e == ReplayError::WrongHead
            ||| whole && at_head && e == ReplayError::ApplicationHeight && exists|h: u64|
                h != state.committed_height && #[trigger] asks_height(last, h)
            ||| replay_stops(first, last, log, data, chain, context, members, e)
        },
    }
}

/// What comes of the replay of the stored data through an application. Without
/// a durable state there must be no data, and nothing is applied.
pub open spec fn replay_outcome<A: CanonicalApp>(
    first: A,
    last: A,
    log: Seq<ReplayCalls<A>>,
    data: ReplayData,
    context: ConsensusContext,
    members: Seq<MemberView>,
    epoch: u64,
    pending: bool,
    r: Result<(), ReplayError>,
) -> bool {
    let start = epoch_fault(genesis_block(context), context, epoch, pending);
    if start is Some {
        r == Err::<(), ReplayError>(start->Some_0) && last == first && log.len() == 0
    } else {
        match data.state {
            None => {
                &&& last == first
                &&& log.len() == 0
                &&& r == (if data.blocks@.len() > 0 || data.committed_head is Some {
                    Err::<(), ReplayError>(ReplayError::BlocksWithoutState)
                } else {
                    Ok(())
                })
            },
            Some(s) => match replay_metadata_fault(data, s@, context) {
                Some(e) => r == Err::<(), ReplayError>(e) && last == first && log.len() == 0,
                None => chain_outcome(
                    first,
                    last,
                    log,
                    data,
                    s@,
                    up_to(block_views(data.blocks@), s.committed_height),
                    context,
                    members,
                    r,
                ),
            },
        }
    }
}

/// Replays one block through the application: the application gives the
/// recorded commitment and state root for it, and applies it to the state that
/// it names.
fn replay_block<A: CanonicalApp>(
    data: &ReplayData,
    app: &mut A,
    b: &Block,
    parent: &Block,
    i: usize,
    context: ConsensusContext,
    committee: &Committee,
) -> (r: (Result<(), ReplayError>, Ghost<ReplayCalls<A>>))
    requires
        data.commitments.wf(),
        data.state_roots.wf(),
        i < usize::MAX,
    ensures
        r.1@.block == *b,
        r.1@.before == *old(app),
        r.1@.after == *final(app),
        ({
            let link = replay_link_fault(b@, parent@, i as int, context, committee.members_view());
            let a = r.1@.answers;
            &&& replay_asked(r.1@, *data, link, context)
            &&& r.0 == replay_result(*data, b@, link, context, a)
            &&& replay_applies(
                old(app).applied(),
                *data,
                b@,
                link,
                context,
                a,
                final(app).applied(),
            )
            &&& r.1@.commits ==> exists|m: &mut A| #[trigger]
                call_ensures(A::commit, (m, b), r.1@.commit) && *m == r.1@.before && *final(m)
                    == r.1@.after
        }),
{
    let ghost first = *app;
    let ghost link = replay_link_fault(b@, parent@, i as int, context, committee.members_view());
    let ghost mut a = ReplayAnswers {
        epoch: 0,
        pending: false,
        receipts: None,
        state_root: None,
        applied: None,
        epoch_after: 0,
        pending_after: false,
    };
    let ghost mut c = ReplayCalls {
        block: *b,
        before: first,
        commits: false,
        commit: arbitrary(),
        after: first,
        answers: a,
    };
    let epoch: u64 = app.current_epoch();
    let pending = app.has_pending_validator_update();
    proof {
        a = ReplayAnswers { epoch, pending, ..a };
        c = ReplayCalls { answers: a, ..c };
        assert(asks_epoch(first, a.epoch, a.pending));
    }
    if let Err(e) = check_recovery_epoch(b, context, epoch, pending) {
        assert(replay_asked(c, *data, link, context));
        return (Err(e), Ghost(c));
    }
    if let Err(e) = check_replay_link(b, parent, i, context, committee) {
        assert(replay_asked(c, *data, link, context));
        return (Err(e), Ghost(c));
    }
    let hash = b.hash();
    let recorded = data.commitments.get(&hash);
    if recorded.is_none() {
        assert(replay_asked(c, *data, link, context));
        return (Err(ReplayError::MissingCommitment { height: b.height }), Ghost(c));
    }
    let answer = app.preflight_commitment(b);
    proof {
        a = ReplayAnswers { receipts: receipts_answer(answer), ..a };
        c = ReplayCalls { answers: a, ..c };
        assert(asks_receipts(first, *b, a.receipts));
    }
    let generated = match answer {
        Ok(c) => c,
        Err(_) => None,
    };
    if let Err(e) = check_commitment(b, recorded, &generated) {
        assert(replay_asked(c, *data, link, context));
        return (Err(e), Ghost(c));
    }
    assert(commitment_fault(*data, b@, a.receipts) is None);
    let recorded_root = data.state_roots.get(&hash);
    if recorded_root.is_none() {
        assert(replay_asked(c, *data, link, context));
        return (Err(ReplayError::MissingStateRoot { height: b.height }), Ghost(c));
    }
    let answer = app.preflight_state_root(b);
    proof {
        a = ReplayAnswers { state_root: root_answer(answer), ..a };
        c = ReplayCalls { answers: a, ..c };
        assert(asks_root(first, *b, a.state_root));
    }
    let root = match answer {
        Ok(h) => h,
        Err(_) => None,
    };
    if let Err(e) = check_state_root(b, recorded_root, &root) {
        assert(replay_asked(c, *data, link, context));
        return (Err(e), Ghost(c));
    }
    assert(unapplied(*data, b@, link, context, a) is None);
    let applied = app.commit(b);
    proof {
        a = ReplayAnswers {
            applied: match applied {
                Ok(h) => Some(h),
                Err(_) => None,
            },
            ..a
        };
        c = ReplayCalls { commits: true, commit: applied, after: *app, answers: a, ..c };
        assert(asks_commit(first, *b, a.applied));
        assert(exists|m: &mut A| #[trigger]
            call_ensures(A::commit, (m, b), c.commit) && *m == c.before && *final(m) == c.after);
        assert(unapplied(*data, b@, link, context, a) is None);
    }
    let fits = match applied {
        Ok(h) => hash_eq(&h, &b.app_hash),
        Err(_) => false,
    };
    if !fits {
        assert(replay_asked(c, *data, link, context));
        return (Err(ReplayError::Commit { height: b.height }), Ghost(c));
    }
    let epoch: u64 = app.current_epoch();
    let pending = app.has_pending_validator_update();
    proof {
        a = ReplayAnswers { epoch_after: epoch, pending_after: pending, ..a };
        c = ReplayCalls { answers: a, ..c };
        assert(asks_epoch(*app, a.epoch_after, a.pending_after));
        assert(unapplied(*data, b@, link, context, a) is None);
        assert(replay_asked(c, *data, link, context));
    }
    match check_recovery_epoch(b, context, epoch, pending) {
        Ok(()) => (Ok(()), Ghost(c)),
        Err(e) => (Err(e), Ghost(c)),
    }
}

/// Collects the blocks up to a height.
fn collect_up_to(blocks: &Vec<Block>, height: u64) -> (r: Vec<Block>)
    ensures
        block_views(r@) == up_to(block_views(blocks@), height),
{
    let ghost all = block_views(blocks@);
    let ghost p = |b: BlockView| b.height <= height;
    let mut r: Vec<Block> = Vec::new();
    let mut i: usize = 0;
    assert(all.take(0).filter(p) =~= Seq::empty());
    assert(block_views(r@) =~= Seq::empty());
    while i < blocks.len()
        invariant
            i <= blocks.len(),
            all == block_views(blocks@),
            p == (|b: BlockView| b.height <= height),
            block_views(r@) == all.take(i as int).filter(p),
        decreases blocks.len() - i,
    {
        proof {
            assert(all[i as int] == blocks[i as int]@);
            assert(all.take(i + 1).drop_last() =~= all.take(i as int));
            assert(all.take(i + 1).last() == blocks[i as int]@);
            reveal(Seq::filter);
        }
        if blocks[i].height <= height {
            let ghost part = block_views(r@);
            r.push(blocks[i].clone());
            assert(block_views(r@) =~= part.push(blocks[i as int]@));
        }
        i = i + 1;
    }
    assert(all.take(all.len() as int) =~= all);
    r
}

/// Replays the finalized blocks through the application. Each block is valid
/// on the one before it, the application gives the recorded commitment and
/// state root for it, and commits it to the state that it names.
pub fn replay_committed_application<A: CanonicalApp>(
    data: &ReplayData,
    app: &mut A,
    context: ConsensusContext,
    committee: &Committee,
) -> (r: Result<(), ReplayError>)
    requires
        data.commitments.wf(),
        data.state_roots.wf(),
    ensures
        exists|epoch: u64, pending: bool, log: Seq<ReplayCalls<A>>|
            #![trigger asks_epoch(*old(app), epoch, pending), log.len()]
            {
                &&& asks_epoch(*old(app), epoch, pending)
                &&& replay_outcome(
                    *old(app),
                    *final(app),
                    log,
                    *data,
                    context,
                    committee.members_view(),
                    epoch,
                    pending,
                    r,
                )
                &&& forall|i: int|
                    0 <= i < log.len() && (#[trigger] log[i]).commits ==> exists|m: &mut A| #[trigger]
                        call_ensures(A::commit, (m, &log[i].block), log[i].commit) && *m
                            == log[i].before && *final(m) == log[i].after
            },
        r is Ok ==> match data.state {
            None => data.blocks@.len() == 0 && data.committed_head is None && final(app).applied()
                == old(app).applied(),
            Some(s) => {
                let chain = up_to(block_views(data.blocks@), s.committed_height);
                &&& replay_metadata_fault(*data, s@, context) is None
                &&& chain_valid(chain, chain.len() as int, context, committee.members_view())
                &&& block_hash(before(chain, chain.len() as int, context)) == s.committed_hash
                &&& final(app).applied() == old(app).applied() + chain
                &&& asks_height(*final(app), s.committed_height)
                &&& forall|i: int|
                    0 <= i < chain.len() ==> data.state_roots.map().contains_key(
                        block_hash(#[trigger] chain[i]),
                    ) && data.state_roots.map()[block_hash(chain[i])] == chain[i].app_hash
                        && data.commitments.map().contains_key(block_hash(chain[i]))
            },
        },
{
    let ghost first = *app;
    let ghost members = committee.members_view();
    let ghost mut log: Seq<ReplayCalls<A>> = Seq::empty();
    assert(log.len() == 0);
    let genesis = Block::genesis(context);
    let epoch: u64 = app.current_epoch();
    let pending = app.has_pending_validator_update();
    assert(asks_epoch(first, epoch, pending));
    if let Err(e) = check_recovery_epoch(&genesis, context, epoch, pending) {
        return Err(e);
    }
    let state = match &data.state {
        None => {
            if data.blocks.len() > 0 || data.committed_head.is_some() {
                return Err(ReplayError::BlocksWithoutState);
            }
            return Ok(());
        },
        Some(s) => s,
    };
    if !state.context().same_as(&context) {
        return Err(ReplayError::StateContext);
    }
    let head = match &data.committed_head {
        Some(b) => b,
        None => {
            return Err(ReplayError::NoHead);
        },
    };
    match data.committed_height {
        None => {
            return Err(ReplayError::NoHeight);
        },
        Some(h) => {
            if h != state.committed_height {
                return Err(ReplayError::HeightMismatch);
            }
        },
    }
    if !crate::node::bootstrap::check_head(head, state) {
        return Err(ReplayError::HeadMismatch);
    }
    let chain = collect_up_to(&data.blocks, state.committed_height);
    let ghost cs = block_views(chain@);
    assert(cs.len() == chain.len());
    if chain.len() as u64 != state.committed_height {
        return Err(ReplayError::Incomplete);
    }
    let mut parent = genesis;
    let mut i: usize = 0;
    assert(first.applied() =~= first.applied() + cs.take(0));
    while i < chain.len()
        invariant
            i <= chain.len(),
            cs == block_views(chain@),
            first == *old(app),
            members == committee.members_view(),
            asks_epoch(first, epoch, pending),
            epoch_fault(genesis_block(context), context, epoch, pending) is None,
            cs == up_to(block_views(data.blocks@), state.committed_height),
            data.state == Some(*state),
            replay_metadata_fault(*data, state@, context) is None,
            data.commitments.wf(),
            data.state_roots.wf(),
            parent@ == before(cs, i as int, context),
            app.applied() == first.applied() + cs.take(i as int),
            log.len() == i,
            *app == app_at(first, log, i as int),
            forall|k: int|
                0 <= k < i ==> #[trigger] replays(first, log, *data, cs, k, context, members),
            forall|k: int|
                0 <= k < log.len() && (#[trigger] log[k]).commits ==> exists|m: &mut A| #[trigger]
                    call_ensures(A::commit, (m, &log[k].block), log[k].commit) && *m == log[k].before
                        && *final(m) == log[k].after,
        decreases chain.len() - i,
    {
        let b = &chain[i];
        let ghost now = *app;
        let ghost link = link_at(cs, i as int, context, members);
        assert(cs[i as int] == b@);
        assert(link == replay_link_fault(b@, parent@, i as int, context, members));
        let (replayed, Ghost(c)) = replay_block(data, app, b, &parent, i, context, committee);
        proof {
            let done = log;
            log = log.push(c);
            assert(log.last() == c);
            assert forall|k: int| 0 <= k < i implies #[trigger] replays(
                first,
                log,
                *data,
                cs,
                k,
                context,
                members,
            ) by {
                assert(replays(first, done, *data, cs, k, context, members));
            }
        }
        if let Err(e) = replayed {
            proof {
                assert(replay_stops(first, *app, log, *data, cs, context, members, e));
                assert(chain_outcome(first, *app, log, *data, state@, cs, context, members, Err(e)));
            }
            return Err(e);
        }
        proof {
            assert(replays(first, log, *data, cs, i as int, context, members));
            assert(cs.take(i + 1) =~= cs.take(i as int).push(b@));
            assert(app.applied() =~= first.applied() + cs.take(i + 1));
        }
        parent = b.clone();
        i = i + 1;
    }
    proof {
        assert(cs.take(cs.len() as int) =~= cs);
        assert forall|k: int| 0 <= k < cs.len() implies #[trigger] replay_link_ok(
            cs,
            k,
            context,
            members,
        ) by {
            assert(replays(first, log, *data, cs, k, context, members));
        }
        assert forall|k: int| 0 <= k < cs.len() implies data.state_roots.map().contains_key(
            block_hash(#[trigger] cs[k]),
        ) && data.state_roots.map()[block_hash(cs[k])] == cs[k].app_hash
            && data.commitments.map().contains_key(block_hash(cs[k])) by {
            assert(replays(first, log, *data, cs, k, context, members));
        }
    }
    if !hash_eq(&parent.hash(), &state.committed_hash) {
        return Err(ReplayError::WrongHead);
    }
    let height: u64 = app.committed_height();
    assert(asks_height(*app, height));
    if height != state.committed_height {
        return Err(ReplayError::ApplicationHeight);
    }
    Ok(())
}

/// The rows of a durable store that unfinalized branches are read from.
pub struct BranchRows {
    pub rows: Table<Hash32, Block>,
    pub by_height: Table<u64, Hash32>,
}

/// Why an unfinalized branch is refused.
#[derive(Clone, Copy, Debug, PartialEq, Eq)]
pub enum SpeculativeError {
    /// The durable state belongs to another context.
    StateContext,
    /// There is no committed head.
    NoHead,
    /// The committed head is not at the height of the state.
    HeightMismatch,
    /// A certificate belongs to another context.
    QcContext,
    /// The block of a certificate is missing.
    MissingTarget,
    /// A certificate names another application state than its block.
    QcAppHash,
    /// A certificate does not verify.
    Qc(VerifyError),
    /// The parent links form a cycle.
    Cycle,
    /// A block is stored under another hash.
    WrongHash,
    /// A block belongs to another context.
    Context,
    /// A block is malformed.
    Invalid,
    /// A block at a finalized height is not indexed.
    NotIndexed { height: u64 },
    /// A block competes with a finalized one.
    Conflict { height: u64 },
    /// The proposer did not lead the view.
    NotLeader { view: u64 },
    /// A parent is missing.
    MissingParent,
    /// The branch does not lead to the committed head.
    NotConnected { height: u64 },
    /// The heights are not sequential.
    SkippedHeight { height: u64 },
    /// The first block carries a certificate.
    UnexpectedQc,
    /// A later block carries no certificate.
    MissingQc,
    /// The certificate of a block is not for its parent.
    JustifyTarget,
    /// The certificate of a block is of another view than its parent.
    JustifyView,
    /// The application refuses the branch.
    Application,
}

/// The contents of the rows that branches are read from.
pub ghost struct RowsView {
    pub rows: Map<Hash32, BlockView>,
    pub by_height: Map<u64, Hash32>,
}

impl vstd::view::View for BranchRows {
    type V = RowsView;

    open spec fn view(&self) -> RowsView {
        RowsView { rows: block_map(self.rows.map()), by_height: self.by_height.map() }
    }
}

/// The fault of the certificate that an unfinalized block carries.
pub open spec fn justify_fault(
    b: BlockView,
    parent: BlockView,
    context: ConsensusContext,
    members: Seq<MemberView>,
) -> Option<SpeculativeError> {
    match b.justify {
        None => if b.height == 1 {
            None
        } else {
            Some(SpeculativeError::MissingQc)
        },
        Some(qc) => if b.height == 1 {
            Some(SpeculativeError::UnexpectedQc)
        } else if qc.context != context {
            Some(SpeculativeError::QcContext)
        } else if qc.block_hash != b.parent {
            Some(SpeculativeError::JustifyTarget)
        } else if qc.view != parent.view {
            Some(SpeculativeError::JustifyView)
        } else {
            match certificate_check(
                members,
                qc,
                context,
                parent.view,
                b.parent,
                Some(parent.app_hash),
                true,
            ) {
                Ok(()) => None,
                Err(e) => Some(SpeculativeError::Qc(e)),
            }
        },
    }
}

/// The fault of a stored block on its own.
pub open spec fn row_fault(
    store: RowsView,
    target: Hash32,
    context: ConsensusContext,
    visited: Seq<Hash32>,
) -> Option<SpeculativeError> {
    if visited.contains(target) {
        Some(SpeculativeError::Cycle)
    } else if !store.rows.contains_key(target) {
        Some(SpeculativeError::MissingTarget)
    } else if block_hash(store.rows[target]) != target {
        Some(SpeculativeError::WrongHash)
    } else if store.rows[target].context != context {
        Some(SpeculativeError::Context)
    } else if !well_formed_block(store.rows[target]) {
        Some(SpeculativeError::Invalid)
    } else {
        None
    }
}

/// A finalized block of a height is stored.
pub open spec fn indexed(store: RowsView, height: u64) -> bool {
    store.by_height.contains_key(height) && store.rows.contains_key(store.by_height[height])
}

/// The unfinalized blocks from the committed head down to a block, oldest
/// first, with at most so many steps up the parent links.
pub open spec fn speculative_branch(
    store: RowsView,
    context: ConsensusContext,
    members: Seq<MemberView>,
    head: BlockView,
    target: Hash32,
    visited: Seq<Hash32>,
    steps: nat,
) -> Result<Seq<BlockView>, SpeculativeError>
    decreases steps,
{
    let b = store.rows[target];
    if steps == 0 {
        Err(SpeculativeError::Cycle)
    } else if row_fault(store, target, context, visited) is Some {
        Err(row_fault(store, target, context, visited)->Some_0)
    } else if b.height <= head.height {
        if !indexed(store, b.height) {
            Err(SpeculativeError::NotIndexed { height: b.height })
        } else if block_hash(store.rows[store.by_height[b.height]]) != block_hash(b) {
            Err(SpeculativeError::Conflict { height: b.height })
        } else {
            Ok(Seq::empty())
        }
    } else if b.proposer != leader_of(members, b.view) {
        Err(SpeculativeError::NotLeader { view: b.view })
    } else if !store.rows.contains_key(b.parent) {
        Err(SpeculativeError::MissingParent)
    } else {
        let stored_parent = store.rows[b.parent];
        match speculative_branch(
            store,
            context,
            members,
            head,
            block_hash(stored_parent),
            visited.push(target),
            (steps - 1) as nat,
        ) {
            Err(e) => Err(e),
            Ok(rest) => {
                let parent = if rest.len() > 0 {
                    rest.last()
                } else {
                    stored_parent
                };
                if b.parent != (if rest.len() > 0 {
                    block_hash(rest.last())
                } else {
                    block_hash(head)
                }) {
                    Err(SpeculativeError::NotConnected { height: b.height })
                } else if b.height != head.height + rest.len() + 1 {
                    Err(SpeculativeError::SkippedHeight { height: b.height })
                } else if justify_fault(b, parent, context, members) is Some {
                    Err(justify_fault(b, parent, context, members)->Some_0)
                } else {
                    Ok(rest.push(b))
                }
            },
        }
    }
}

/// Checks the certificate that an unfinalized block carries.
fn check_justify(b: &Block, parent: &Block, context: ConsensusContext, committee: &Committee) -> (r: Result<
    (),
    SpeculativeError,
>)
    ensures
        match r {
            Ok(()) => justify_fault(b@, parent@, context, committee.members_view()) is None,
            Err(e) => justify_fault(b@, parent@, context, committee.members_view()) == Some(e),
        },
{
    match &b.justify {
        None => {
            if b.height == 1 {
                Ok(())
            } else {
                Err(SpeculativeError::MissingQc)
            }
        },
        Some(qc) => {
            if b.height == 1 {
                return Err(SpeculativeError::UnexpectedQc);
            }
            if qc.validate_context(context).is_err() {
                return Err(SpeculativeError::QcContext);
            }
            if !hash_eq(&qc.block_hash, &b.parent) {
                return Err(SpeculativeError::JustifyTarget);
            }
            if qc.view != parent.view {
                return Err(SpeculativeError::JustifyView);
            }
            match verify_certificate(
                committee,
                qc,
                context,
                parent.view,
                &b.parent,
                Some(parent.app_hash),
                true,
            ) {
                Ok(()) => Ok(()),
                Err(e) => Err(SpeculativeError::Qc(e)),
            }
        },
    }
}

/// The result of reading a branch, as contents.
pub open spec fn branch_result(r: Result<Vec<Block>, SpeculativeError>) -> Result<
    Seq<BlockView>,
    SpeculativeError,
> {
    match r {
        Ok(list) => Ok(block_views(list@)),
        Err(e) => Err(e),
    }
}

/// Reads the unfinalized blocks from the committed head down to a block.
fn load_branch(
    store: &BranchRows,
    context: ConsensusContext,
    committee: &Committee,
    head: &Block,
    target: Hash32,
    visited: &Vec<Hash32>,
    steps: usize,
) -> (r: Result<Vec<Block>, SpeculativeError>)
    requires
        store.rows.wf(),
        store.by_height.wf(),
    ensures
        branch_result(r) == speculative_branch(
            store@,
            context,
            committee.members_view(),
            head@,
            target,
            visited@,
            steps as nat,
        ),
    decreases steps,
{
    if steps == 0 {
        return Err(SpeculativeError::Cycle);
    }
    if contains_hash(visited, &target) {
        return Err(SpeculativeError::Cycle);
    }
    let b = match store.rows.get(&target) {
        Some(b) => b,
        None => {
            return Err(SpeculativeError::MissingTarget);
        },
    };
    let hash = b.hash();
    if !hash_eq(&hash, &target) {
        return Err(SpeculativeError::WrongHash);
    }
    if b.validate_context(context).is_err() {
        return Err(SpeculativeError::Context);
    }
    if b.validate().is_err() {
        return Err(SpeculativeError::Invalid);
    }
    if b.height <= head.height {
        let canonical = match store.by_height.get(&b.height) {
            Some(h) => match store.rows.get(h) {
                Some(c) => c,
                None => {
                    return Err(SpeculativeError::NotIndexed { height: b.height });
                },
            },
            None => {
                return Err(SpeculativeError::NotIndexed { height: b.height });
            },
        };
        if !hash_eq(&canonical.hash(), &hash) {
            return Err(SpeculativeError::Conflict { height: b.height });
        }
        let none: Vec<Block> = Vec::new();
        assert(block_views(none@) =~= Seq::empty());
        return Ok(none);
    }
    if !hash_eq(&b.proposer, &committee.leader(b.view)) {
        return Err(SpeculativeError::NotLeader { view: b.view });
    }
    let stored_parent = match store.rows.get(&b.parent) {
        Some(p) => p,
        None => {
            return Err(SpeculativeError::MissingParent);
        },
    };
    let mut next = copy_hashes(visited);
    next.push(target);
    let mut rest = match load_branch(
        store,
        context,
        committee,
        head,
        stored_parent.hash(),
        &next,
        steps - 1,
    ) {
        Ok(list) => list,
        Err(e) => {
            return Err(e);
        },
    };
    let ghost rs = block_views(rest@);
    let count: usize = rest.len();
    assert(rs.len() == count);
    let expected = if count > 0 {
        assert(rs.last() == rest[count - 1]@);
        rest[count - 1].hash()
    } else {
        head.hash()
    };
    if !hash_eq(&b.parent, &expected) {
        return Err(SpeculativeError::NotConnected { height: b.height });
    }
    let above: u64 = b.height - head.height;
    if above == 0 || above - 1 != count as u64 {
        return Err(SpeculativeError::SkippedHeight { height: b.height });
    }
    let checked = if count > 0 {
        check_justify(b, &rest[count - 1], context, committee)
    } else {
        check_justify(b, stored_parent, context, committee)
    };
    if let Err(e) = checked {
        return Err(e);
    }
    rest.push(b.clone());
    assert(block_views(rest@) =~= rs.push(b@));
    Ok(rest)
}

/// Reads the unfinalized blocks from the committed head down to a block,
/// oldest first. Each is valid on the one before it and was proposed by the
/// leader of its view.
pub fn load_speculative_branch(
    store: &BranchRows,
    context: ConsensusContext,
    committee: &Committee,
    head: &Block,
    target: Hash32,
) -> (r: Result<Vec<Block>, SpeculativeError>)
    requires
        store.rows.wf(),
        store.by_height.wf(),
        store.rows.rows().len() < usize::MAX,
    ensures
        branch_result(r) == speculative_branch(
            store@,
            context,
            committee.members_view(),
            head@,
            target,
            Seq::empty(),
            (store.rows.rows().len() + 1) as nat,
        ),
{
    let none: Vec<Hash32> = Vec::new();
    assert(none@ =~= Seq::empty());
    let steps: usize = store.rows.len() + 1;
    load_branch(store, context, committee, head, target, &none, steps)
}

/// A branch that was read extends the committed head without a gap.
pub proof fn lemma_branch_sequential(
    store: RowsView,
    context: ConsensusContext,
    members: Seq<MemberView>,
    head: BlockView,
    target: Hash32,
    visited: Seq<Hash32>,
    steps: nat,
    i: int,
)
    requires
        speculative_branch(store, context, members, head, target, visited, steps) is Ok,
        0 <= i < speculative_branch(store, context, members, head, target, visited, steps)->Ok_0.len(),
    ensures
        ({
            let list = speculative_branch(
                store,
                context,
                members,
                head,
                target,
                visited,
                steps,
            )->Ok_0;
            &&& list[i].height == head.height + 1 + i
            &&& list[i].parent == block_hash(if i == 0 {
                head
            } else {
                list[i - 1]
            })
            &&& list[i].context == context
            &&& list[i].proposer == leader_of(members, list[i].view)
        }),
    decreases steps,
{
    let list = speculative_branch(store, context, members, head, target, visited, steps)->Ok_0;
    let b = store.rows[target];
    let rest = speculative_branch(
        store,
        context,
        members,
        head,
        block_hash(store.rows[b.parent]),
        visited.push(target),
        (steps - 1) as nat,
    )->Ok_0;
    assert(list == rest.push(b));
    if i < rest.len() {
        lemma_branch_sequential(
            store,
            context,
            members,
            head,
            block_hash(store.rows[b.parent]),
            visited.push(target),
            (steps - 1) as nat,
            i,
        );
        assert(list[i] == rest[i]);
        if i > 0 {
            assert(list[i - 1] == rest[i - 1]);
        }
    } else {
        if rest.len() > 0 {
            assert(list[i - 1] == rest.last());
        }
    }
}

/// The application state that a certificate names.
pub open spec fn qc_app_hash(qc: CertificateView) -> Option<Hash32> {
    match qc.app_hash {
        Some(h) => Some(h),
        None => if qc.votes.len() > 0 {
            Some(qc.votes[0].app_hash)
        } else {
            None
        },
    }
}

/// The fault of a certificate that the durable state refers to.
pub open spec fn target_fault(
    store: RowsView,
    qc: CertificateView,
    context: ConsensusContext,
    members: Seq<MemberView>,
) -> Option<SpeculativeError> {
    if qc.context != context {
        Some(SpeculativeError::QcContext)
    } else if !store.rows.contains_key(qc.block_hash) {
        Some(SpeculativeError::MissingTarget)
    } else {
        let b = store.rows[qc.block_hash];
        if qc_app_hash(qc) != Some(b.app_hash) {
            Some(SpeculativeError::QcAppHash)
        } else {
            match certificate_check(
                members,
                qc,
                context,
                b.view,
                block_hash(b),
                Some(b.app_hash),
                true,
            ) {
                Ok(()) => None,
                Err(e) => Some(SpeculativeError::Qc(e)),
            }
        }
    }
}

/// The unfinalized branch that a certificate is for.
pub open spec fn qc_branch(
    store: RowsView,
    qc: CertificateView,
    context: ConsensusContext,
    members: Seq<MemberView>,
    head: BlockView,
    steps: nat,
) -> Result<Seq<BlockView>, SpeculativeError> {
    match target_fault(store, qc, context, members) {
        Some(e) => Err(e),
        None => speculative_branch(
            store,
            context,
            members,
            head,
            qc.block_hash,
            Seq::empty(),
            steps,
        ),
    }
}

/// The branch of an optional certificate; there is none without one.
pub open spec fn option_qc_branch(
    store: RowsView,
    qc: Option<CertificateView>,
    context: ConsensusContext,
    members: Seq<MemberView>,
    head: BlockView,
    steps: nat,
) -> Result<Seq<BlockView>, SpeculativeError> {
    match qc {
        Some(c) => qc_branch(store, c, context, members, head, steps),
        None => Ok(Seq::empty()),
    }
}

/// The result of the validation of the unfinalized branches, given whether the
/// application accepts the branch of the highest certificate and that of the
/// lock.
pub open spec fn speculative_outcome(
    state: Option<ConsensusStateView>,
    head: Option<BlockView>,
    store: RowsView,
    steps: nat,
    context: ConsensusContext,
    members: Seq<MemberView>,
    high_accepted: bool,
    lock_accepted: bool,
) -> Result<(), SpeculativeError> {
    match state {
        None => Ok(()),
        Some(s) => if s.context != context {
            Err(SpeculativeError::StateContext)
        } else if head is None {
            Err(SpeculativeError::NoHead)
        } else if head->Some_0.height != s.committed_height {
            Err(SpeculativeError::HeightMismatch)
        } else {
            let high = option_qc_branch(store, s.high_qc, context, members, head->Some_0, steps);
            let lock = option_qc_branch(store, s.locked_qc, context, members, head->Some_0, steps);
            if high is Err {
                Err(high->Err_0)
            } else if high->Ok_0.len() > 0 && !high_accepted {
                Err(SpeculativeError::Application)
            } else if lock is Err {
                Err(lock->Err_0)
            } else if lock->Ok_0.len() > 0 && !lock_accepted {
                Err(SpeculativeError::Application)
            } else {
                Ok(())
            }
        },
    }
}

/// The application is asked to replay the last block of a branch on the others;
/// an empty branch is not asked about.
pub open spec fn branch_accepted<A: AppHook>(
    app: A,
    context: ConsensusContext,
    head: BlockView,
    branch: Seq<BlockView>,
    answer: bool,
) -> bool {
    branch.len() > 0 ==> exists|target: Block, base: Block, ancestors: Vec<Block>|
        {
            &&& target@ == branch.last()
            &&& base@ == head
            &&& block_views(ancestors@) == branch.drop_last()
            &&& #[trigger] asks_preflight(app, context, target, base, ancestors, answer)
        }
}

/// The application is asked about the branch of the highest certificate, and if
/// it accepts that one, about the branch of the lock.
pub open spec fn speculative_asked<A: AppHook>(
    app: A,
    state: Option<ConsensusStateView>,
    head: Option<BlockView>,
    store: RowsView,
    steps: nat,
    context: ConsensusContext,
    members: Seq<MemberView>,
    high_accepted: bool,
    lock_accepted: bool,
) -> bool {
    match state {
        None => true,
        Some(s) => s.context == context && head is Some && head->Some_0.height == s.committed_height
            ==> {
            let high = option_qc_branch(store, s.high_qc, context, members, head->Some_0, steps);
            let lock = option_qc_branch(store, s.locked_qc, context, members, head->Some_0, steps);
            &&& high is Ok ==> branch_accepted(
                app,
                context,
                head->Some_0,
                high->Ok_0,
                high_accepted,
            )
            &&& high is Ok && (high->Ok_0.len() > 0 ==> high_accepted) && lock is Ok
                ==> branch_accepted(app, context, head->Some_0, lock->Ok_0, lock_accepted)
        },
    }
}

/// Checks a certificate that the durable state refers to, and replays its
/// branch through the application without publishing it.
fn replay_qc_branch<A: AppHook>(
    store: &BranchRows,
    app: &A,
    context: ConsensusContext,
    committee: &Committee,
    head: &Block,
    qc: &Certificate,
) -> (r: Result<(), SpeculativeError>)
    requires
        store.rows.wf(),
        store.by_height.wf(),
        store.rows.rows().len() < usize::MAX,
    ensures
        ({
            let branch = qc_branch(
                store@,
                qc@,
                context,
                committee.members_view(),
                head@,
                (store.rows.rows().len() + 1) as nat,
            );
            &&& match r {
                Ok(()) => branch is Ok,
                Err(e) => if branch is Err {
                    branch == Err::<Seq<BlockView>, SpeculativeError>(e)
                } else {
                    e == SpeculativeError::Application && branch->Ok_0.len() > 0
                },
            }
            &&& branch is Ok ==> branch_accepted(*app, context, head@, branch->Ok_0, r is Ok)
        }),
{
    if qc.validate_context(context).is_err() {
        return Err(SpeculativeError::QcContext);
    }
    let b = match store.rows.get(&qc.block_hash) {
        Some(b) => b,
        None => {
            return Err(SpeculativeError::MissingTarget);
        },
    };
    let named = match qc.app_hash {
        Some(h) => Some(h),
        None => if qc.votes.len() > 0 {
            assert(qc@.votes[0] == qc.votes[0]@);
            Some(qc.votes[0].app_hash)
        } else {
            None
        },
    };
    assert(qc@.votes.len() == qc.votes.len());
    if !option_hash_eq(&named, &Some(b.app_hash)) {
        return Err(SpeculativeError::QcAppHash);
    }
    if let Err(e) = verify_certificate(
        committee,
        qc,
        context,
        b.view,
        &b.hash(),
        Some(b.app_hash),
        true,
    ) {
        return Err(SpeculativeError::Qc(e));
    }
    let mut ancestors = match load_speculative_branch(store, context, committee, head, qc.block_hash) {
        Ok(list) => list,
        Err(e) => {
            return Err(e);
        },
    };
    let ghost branch = block_views(ancestors@);
    let ghost all = ancestors@;
    assert(branch.len() == ancestors@.len());
    match ancestors.pop() {
        Some(target) => {
            let answer = app.preflight_block_with_speculative_branch(
                context,
                &target,
                head,
                &ancestors,
            );
            proof {
                assert(branch.last() == all.last()@);
                assert(block_views(ancestors@) =~= branch.drop_last());
                assert(asks_preflight(*app, context, target, *head, ancestors, answer is Ok));
            }
            if answer.is_err() {
                return Err(SpeculativeError::Application);
            }
            Ok(())
        },
        None => Ok(()),
    }
}

/// Validates the unfinalized branches that the durable state refers to, with
/// the application, before consensus starts.
pub fn replay_speculative_application<A: AppHook>(
    state: &Option<ConsensusState>,
    committed_head: &Option<Block>,
    store: &BranchRows,
    app: &A,
    context: ConsensusContext,
    committee: &Committee,
) -> (r: Result<(), SpeculativeError>)
    requires
        store.rows.wf(),
        store.by_height.wf(),
        store.rows.rows().len() < usize::MAX,
    ensures
        exists|high_accepted: bool, lock_accepted: bool|
            r == #[trigger] speculative_outcome(
                option_state(*state),
                option_block(*committed_head),
                store@,
                (store.rows.rows().len() + 1) as nat,
                context,
                committee.members_view(),
                high_accepted,
                lock_accepted,
            ) && speculative_asked(
                *app,
                option_state(*state),
                option_block(*committed_head),
                store@,
                (store.rows.rows().len() + 1) as nat,
                context,
                committee.members_view(),
                high_accepted,
                lock_accepted,
            ),
{
    let ghost outcome = |high_accepted: bool, lock_accepted: bool|
        speculative_outcome(
            option_state(*state),
            option_block(*committed_head),
            store@,
            (store.rows.rows().len() + 1) as nat,
            context,
            committee.members_view(),
            high_accepted,
            lock_accepted,
        );
    assert(outcome(true, true) == outcome(true, true));
    let s = match state {
        Some(s) => s,
        None => {
            return Ok(());
        },
    };
    if !s.context().same_as(&context) {
        return Err(SpeculativeError::StateContext);
    }
    let head = match committed_head {
        Some(b) => b,
        None => {
            return Err(SpeculativeError::NoHead);
        },
    };
    if head.height != s.committed_height {
        return Err(SpeculativeError::HeightMismatch);
    }
    if let Some(qc) = &s.high_qc {
        if let Err(e) = replay_qc_branch(store, app, context, committee, head, qc) {
            assert(outcome(false, true) == Err::<(), SpeculativeError>(e));
            return Err(e);
        }
    }
    if let Some(qc) = &s.locked_qc {
        if let Err(e) = replay_qc_branch(store, app, context, committee, head, qc) {
            assert(outcome(true, false) == Err::<(), SpeculativeError>(e));
            return Err(e);
        }
    }
    assert(outcome(true, true) == Ok::<(), SpeculativeError>(()));
    Ok(())
}

/// An application is in the right epoch exactly if it, the block and the context agree on
/// it, and no change of the validators is pending.
pub proof fn lemma_epoch(b: BlockView, context: ConsensusContext, app_epoch: u64, pending: bool)
    ensures
        epoch_fault(b, context, app_epoch, pending) is None <==> app_epoch == context.epoch
            && b.context.epoch == context.epoch && !pending,
{
}

/// A block is replayed exactly if the epoch is right before and after, the block has its
/// place, the application gives for it exactly the recorded receipts, which its header
/// names, and the recorded state root, which is its state, and applies it to that state.
pub proof fn lemma_replayed(
    data: ReplayData,
    b: BlockView,
    link: Option<ReplayError>,
    context: ConsensusContext,
    a: ReplayAnswers,
)
    ensures
        replay_result(data, b, link, context, a) is Ok <==> {
            let h = block_hash(b);
            &&& b.context.epoch == context.epoch
            &&& a.epoch == context.epoch
            &&& !a.pending
            &&& link is None
            &&& data.commitments.map().contains_key(h)
            &&& a.receipts matches Some(list) && list == byte_rows(
                data.commitments.map()[h].receipts@,
            ) && sha256(receipts_bytes(list)) == b.commitment_root
            &&& data.state_roots.map().contains_key(h)
            &&& data.state_roots.map()[h] == b.app_hash
            &&& a.state_root == Some(b.app_hash)
            &&& a.applied == Some(b.app_hash)
            &&& a.epoch_after == context.epoch
            &&& !a.pending_after
        },
        unapplied(data, b, link, context, a) is Some ==> replay_result(data, b, link, context, a)
            is Err,
{
}

/// A block of a replayed chain has its place exactly if it is the next height, of the
/// context, well-formed, and names the block before it as its parent; at height one
/// without a certificate, above with a signed certificate of its parent that verifies.
pub proof fn lemma_replay_link(
    b: BlockView,
    parent: BlockView,
    i: int,
    context: ConsensusContext,
    members: Seq<MemberView>,
)
    requires
        0 <= i,
    ensures
        replay_link_fault(b, parent, i, context, members) is None <==> {
            &&& b.height == i + 1
            &&& b.context == context
            &&& b.payload.len() <= 10 * 1024 * 1024
            &&& b.commitment_root != crate::bytes::zero_hash()
            &&& b.parent == block_hash(parent)
            &&& b.height == 1 ==> b.justify is None
            &&& b.height > 1 ==> (b.justify matches Some(qc) && certificate_check(
                members,
                qc,
                context,
                parent.view,
                block_hash(parent),
                Some(parent.app_hash),
                true,
            ) is Ok)
        },
{
}

/// Stored data can be replayed exactly if its state is of the context, the recorded head
/// and height are those of the state, and there is one block per height above genesis.
pub proof fn lemma_replay_metadata(
    data: ReplayData,
    state: ConsensusStateView,
    context: ConsensusContext,
)
    ensures
        replay_metadata_fault(data, state, context) is None <==> {
            &&& state.context == context
            &&& data.committed_head matches Some(head) && head@.height == state.committed_height
                && block_hash(head@) == state.committed_hash
            &&& data.committed_height == Some(state.committed_height)
            &&& block_views(data.blocks@).filter(
                |b: BlockView| b.height <= state.committed_height,
            ).len() == state.committed_height
        },
{
    let p = |b: BlockView| b.height <= state.committed_height;
    assert(up_to(block_views(data.blocks@), state.committed_height) == block_views(
        data.blocks@,
    ).filter(p));
}

/// A replay that succeeds has applied the whole chain, once and in order, has ended at
/// the committed head, and the application is at the committed height; one that fails
/// before the first block has applied nothing.
pub proof fn lemma_replay_complete<A: CanonicalApp>(
    first: A,
    last: A,
    log: Seq<ReplayCalls<A>>,
    data: ReplayData,
    context: ConsensusContext,
    members: Seq<MemberView>,
    epoch: u64,
    pending: bool,
    r: Result<(), ReplayError>,
    i: int,
)
    requires
        replay_outcome(first, last, log, data, context, members, epoch, pending, r),
    ensures
        r is Ok ==> epoch == context.epoch && !pending,
        r is Ok && data.state is None ==> last == first && data.blocks@.len() == 0
            && data.committed_head is None,
        r is Ok ==> (data.state matches Some(s) ==> {
            let chain = up_to(block_views(data.blocks@), s.committed_height);
            &&& last.applied() == first.applied() + chain
            &&& chain.len() == s.committed_height
            &&& s.committed_height > 0 ==> block_hash(chain.last()) == s.committed_hash
            &&& call_ensures(A::committed_height, (&last,), s.committed_height)
            &&& 0 <= i < chain.len() ==> chain[i].height == i + 1 && replay_result(
                data,
                chain[i],
                None,
                context,
                log[i].answers,
            ) is Ok && log[i].block@ == chain[i]
        }),
        data.state is None ==> last == first,
        epoch != context.epoch || pending ==> r is Err && last == first,
{
    if r is Ok {
        if let Some(s) = data.state {
            let chain = up_to(block_views(data.blocks@), s.committed_height);
            if 0 <= i < chain.len() {
                assert(replays(first, log, data, chain, i, context, members));
            }
        }
    }
}

/// The certificate of an unfinalized block is in order exactly if the block is at height
/// one without any, or carries a signed certificate of its parent that verifies.
pub proof fn lemma_justified(
    b: BlockView,
    parent: BlockView,
    context: ConsensusContext,
    members: Seq<MemberView>,
)
    ensures
        justify_fault(b, parent, context, members) is None <==> {
            &&& b.height == 1 ==> b.justify is None
            &&& b.height != 1 ==> (b.justify matches Some(qc) && certificate_check(
                members,
                qc,
                context,
                parent.view,
                b.parent,
                Some(parent.app_hash),
                true,
            ) is Ok)
        },
{
    if let Some(qc) = b.justify {
        crate::consensus::committee::lemma_certificate_verifies(
            members,
            qc,
            context,
            parent.view,
            b.parent,
            Some(parent.app_hash),
            true,
        );
    }
}

/// A certificate leads to a branch exactly if it is of the context and verifies, as a
/// signed one, for the stored block that it names.
pub proof fn lemma_branch_target(
    store: RowsView,
    qc: CertificateView,
    context: ConsensusContext,
    members: Seq<MemberView>,
)
    ensures
        target_fault(store, qc, context, members) is None <==> {
            &&& store.rows.contains_key(qc.block_hash)
            &&& qc_app_hash(qc) == Some(store.rows[qc.block_hash].app_hash)
            &&& certificate_check(
                members,
                qc,
                context,
                store.rows[qc.block_hash].view,
                block_hash(store.rows[qc.block_hash]),
                Some(store.rows[qc.block_hash].app_hash),
                true,
            ) is Ok
        },
{
    if store.rows.contains_key(qc.block_hash) {
        let b = store.rows[qc.block_hash];
        crate::consensus::committee::lemma_certificate_verifies(
            members,
            qc,
            context,
            b.view,
            block_hash(b),
            Some(b.app_hash),
            true,
        );
    }
}

/// One step of reading a branch: a stored block under its own hash at or below the head's
/// height must be the finalized one of its height and ends the branch; one above must be
/// proposed by the leader of its view, and come one height above the branch of its parent,
/// with its certificate in order.
pub proof fn lemma_branch_step(
    store: RowsView,
    context: ConsensusContext,
    members: Seq<MemberView>,
    head: BlockView,
    target: Hash32,
    visited: Seq<Hash32>,
    steps: nat,
)
    requires
        steps > 0,
    ensures
        ({
            let b = store.rows[target];
            let r = speculative_branch(store, context, members, head, target, visited, steps);
            let sound = {
                &&& !visited.contains(target)
                &&& store.rows.contains_key(target)
                &&& block_hash(b) == target
                &&& b.context == context
                &&& b.payload.len() <= 10 * 1024 * 1024
                &&& b.height > 0 ==> b.commitment_root != crate::bytes::zero_hash()
            };
            &&& r is Ok ==> sound
            &&& sound && b.height <= head.height ==> (r is Ok <==> store.by_height.contains_key(
                b.height,
            ) && store.rows.contains_key(store.by_height[b.height]) && block_hash(
                store.rows[store.by_height[b.height]],
            ) == target) && (r is Ok ==> r->Ok_0.len() == 0)
            &&& sound && b.height > head.height ==> (r matches Ok(list) ==> {
                &&& list.len() > 0
                &&& list.last() == b
                &&& b.proposer == leader_of(members, b.view)
                &&& b.height == head.height + list.len()
                &&& list.len() == 1 ==> b.parent == block_hash(head)
                &&& list.len() > 1 ==> b.parent == block_hash(list[list.len() - 2])
                    && justify_fault(b, list[list.len() - 2], context, members) is None
            })
        }),
{
    let b = store.rows[target];
    let rest = speculative_branch(
        store,
        context,
        members,
        head,
        block_hash(store.rows[b.parent]),
        visited.push(target),
        (steps - 1) as nat,
    );
    if let Ok(list) = rest {
        assert(list.push(b).last() == b);
        if list.len() > 0 {
            assert(list.push(b)[list.len() - 1] == list.last());
        }
    }
}

/// The unfinalized branches of a durable state are taken exactly if there is no state, or
/// it is of the context and its head is at its height, both certificates lead to branches
/// and the application takes each one that is not empty.
pub proof fn lemma_speculative_outcome(
    state: Option<ConsensusStateView>,
    head: Option<BlockView>,
    store: RowsView,
    steps: nat,
    context: ConsensusContext,
    members: Seq<MemberView>,
    high_accepted: bool,
    lock_accepted: bool,
)
    ensures
        speculative_outcome(
            state,
            head,
            store,
            steps,
            context,
            members,
            high_accepted,
            lock_accepted,
        ) is Ok <==> (state matches Some(s) ==> {
            let branch = |qc: CertificateView|
                qc_branch(store, qc, context, members, head->Some_0, steps);
            &&& s.context == context
            &&& head matches Some(b) && b.height == s.committed_height
            &&& s.high_qc matches Some(qc) ==> branch(qc) matches Ok(list) && (list.len() > 0
                ==> high_accepted)
            &&& s.locked_qc matches Some(qc) ==> branch(qc) matches Ok(list) && (list.len() > 0
                ==> lock_accepted)
        }),
{
}

/// A replayed block was given by the application exactly the recorded receipts and state
/// root, and was applied by it to the block's state.
pub proof fn lemma_replay_asked<A: CanonicalApp>(
    c: ReplayCalls<A>,
    data: ReplayData,
    link: Option<ReplayError>,
    context: ConsensusContext,
)
    requires
        replay_asked(c, data, link, context),
        replay_result(data, c.block@, link, context, c.answers) is Ok,
    ensures
        asks_epoch(c.before, context.epoch, false),
        asks_receipts(
            c.before,
            c.block,
            Some(byte_rows(data.commitments.map()[block_hash(c.block@)].receipts@)),
        ),
        asks_root(c.before, c.block, Some(c.block@.app_hash)),
        asks_commit(c.before, c.block, Some(c.block@.app_hash)),
        c.commit == Ok::<Hash32, String>(c.block@.app_hash),
        asks_epoch(c.after, context.epoch, false),
{
}

/// The application is asked about a branch that is not empty with its last block on top of
/// the head and the blocks between.
pub proof fn lemma_branch_asked<A: AppHook>(
    app: A,
    s: ConsensusStateView,
    head: BlockView,
    store: RowsView,
    steps: nat,
    context: ConsensusContext,
    members: Seq<MemberView>,
    high_accepted: bool,
    lock_accepted: bool,
)
    requires
        speculative_asked(
            app,
            Some(s),
            Some(head),
            store,
            steps,
            context,
            members,
            high_accepted,
            lock_accepted,
        ),
        speculative_outcome(
            Some(s),
            Some(head),
            store,
            steps,
            context,
            members,
            high_accepted,
            lock_accepted,
        ) is Ok,
    ensures
        s.high_qc matches Some(qc) ==> (qc_branch(store, qc, context, members, head, steps) matches Ok(
            branch,
        ) && (branch.len() > 0 ==> exists|target: Block, base: Block, ancestors: Vec<Block>|
            {
                &&& target@ == branch.last()
                &&& base@ == head
                &&& block_views(ancestors@) == branch.drop_last()
                &&& #[trigger] asks_preflight(app, context, target, base, ancestors, true)
            })),
        s.locked_qc matches Some(qc) ==> (qc_branch(store, qc, context, members, head, steps) matches Ok(
            branch,
        ) && (branch.len() > 0 ==> exists|target: Block, base: Block, ancestors: Vec<Block>|
            {
                &&& target@ == branch.last()
                &&& base@ == head
                &&& block_views(ancestors@) == branch.drop_last()
                &&& #[trigger] asks_preflight(app, context, target, base, ancestors, true)
            })),
{
}

/// What a failed replay has applied: at most the blocks before the one that it stopped at,
/// and that one only if the application took it.
pub proof fn lemma_replay_stopped<A: CanonicalApp>(
    first: A,
    last: A,
    log: Seq<ReplayCalls<A>>,
    data: ReplayData,
    chain: Seq<BlockView>,
    context: ConsensusContext,
    members: Seq<MemberView>,
    e: ReplayError,
)
    requires
        replay_stops(first, last, log, data, chain, context, members, e),
    ensures
        ({
            let k = log.len() - 1;
            let c = log.last();
            let link = link_at(chain, k, context, members);
            &&& 0 <= k < chain.len()
            &&& c.block@ == chain[k]
            &&& c.before.applied() == first.applied() + chain.take(k)
            &&& unapplied(data, chain[k], link, context, c.answers) is Some ==> last.applied()
                == first.applied() + chain.take(k) && unapplied(
                data,
                chain[k],
                link,
                context,
                c.answers,
            ) == Some(e)
            &&& unapplied(data, chain[k], link, context, c.answers) is None && c.answers.applied is Some
                ==> last.applied() == first.applied() + chain.take(k + 1)
        }),
{
    let k = log.len() - 1;
    assert(chain.take(k + 1) =~= chain.take(k).push(chain[k]));
    assert((first.applied() + chain.take(k)).push(chain[k]) =~= first.applied() + chain.take(k + 1));
}

/// What the refusal of a replayed block says of it is so.
pub proof fn lemma_replay_refusal(
    data: ReplayData,
    b: BlockView,
    parent: BlockView,
    i: int,
    context: ConsensusContext,
    members: Seq<MemberView>,
    a: ReplayAnswers,
)
    ensures
        match replay_link_fault(b, parent, i, context, members) {
            None => true,
            Some(ReplayError::NotSequential { height }) => height == b.height && height != i + 1,
            Some(ReplayError::BlockContext { height }) => height == b.height && b.context != context,
            Some(ReplayError::InvalidBlock { height }) => height == b.height && (b.payload.len() > 10
                * 1024 * 1024 || (b.height > 0 && b.commitment_root == crate::bytes::zero_hash())),
            Some(ReplayError::BrokenParent { height }) => height == b.height && b.parent
                != block_hash(parent),
            Some(ReplayError::UnexpectedQc) => b.height == 1 && b.justify is Some,
            Some(ReplayError::MissingQc { height }) => height == b.height && b.justify is None,
            Some(ReplayError::Qc { height, fault }) => height == b.height && (b.justify matches Some(
                qc,
            ) && certificate_check(
                members,
                qc,
                context,
                parent.view,
                b.parent,
                Some(parent.app_hash),
                true,
            ) == Err::<(), VerifyError>(fault)),
            Some(_) => false,
        },
        match replay_result(data, b, None, context, a) {
            Ok(()) => true,
            Err(ReplayError::BlockEpoch) => b.context.epoch != context.epoch,
            Err(ReplayError::ApplicationEpoch) => a.epoch != context.epoch || a.epoch_after
                != context.epoch,
            Err(ReplayError::PendingUpdate) => a.pending || a.pending_after,
            Err(ReplayError::MissingCommitment { height }) => height == b.height
                && !data.commitments.map().contains_key(block_hash(b)),
            Err(ReplayError::CommitmentMismatch { height }) => height == b.height && a.receipts
                != Some(byte_rows(data.commitments.map()[block_hash(b)].receipts@)),
            Err(ReplayError::CommitmentRoot { height }) => height == b.height && (a.receipts matches Some(
                list,
            ) && sha256(receipts_bytes(list)) != b.commitment_root),
            Err(ReplayError::MissingStateRoot { height }) => height == b.height
                && !data.state_roots.map().contains_key(block_hash(b)),
            Err(ReplayError::StateRootMismatch { height }) => height == b.height && a.state_root
                != Some(data.state_roots.map()[block_hash(b)]),
            Err(ReplayError::StateRoot { height }) => height == b.height
                && data.state_roots.map()[block_hash(b)] != b.app_hash,
            Err(ReplayError::Commit { height }) => height == b.height && a.applied != Some(b.app_hash),
            Err(_) => false,
        },
{
}

/// A stored block above the head whose parent leads to the head extends the branch of its
/// parent, where its leader proposed it one height above with its certificate in order; a
/// block directly on the head is held to the head as its parent.
pub proof fn lemma_branch_extends(
    store: RowsView,
    context: ConsensusContext,
    members: Seq<MemberView>,
    head: BlockView,
    target: Hash32,
    visited: Seq<Hash32>,
    steps: nat,
    list: Seq<BlockView>,
)
    requires
        steps > 0,
        !visited.contains(target),
        store.rows.contains_key(target),
        block_hash(store.rows[target]) == target,
        store.rows[target].height > head.height,
        store.rows.contains_key(store.rows[target].parent),
        block_hash(store.rows[store.rows[target].parent]) == store.rows[target].parent,
        speculative_branch(
            store,
            context,
            members,
            head,
            store.rows[target].parent,
            visited.push(target),
            (steps - 1) as nat,
        ) == Ok::<Seq<BlockView>, SpeculativeError>(list),
    ensures
        ({
            let b = store.rows[target];
            let parent = if list.len() > 0 {
                list.last()
            } else {
                store.rows[b.parent]
            };
            let r = speculative_branch(store, context, members, head, target, visited, steps);
            &&& r == Ok::<Seq<BlockView>, SpeculativeError>(list.push(b)) <==> {
                &&& b.context == context
                &&& b.payload.len() <= 10 * 1024 * 1024
                &&& b.height > 0 ==> b.commitment_root != crate::bytes::zero_hash()
                &&& b.proposer == leader_of(members, b.view)
                &&& b.parent == (if list.len() > 0 {
                    block_hash(list.last())
                } else {
                    block_hash(head)
                })
                &&& b.height == head.height + list.len() + 1
                &&& justify_fault(b, parent, context, members) is None
            }
            &&& r matches Ok(whole) ==> whole == list.push(b)
        }),
{
}

/// What the refusal of an unfinalized block says of it is so.
pub proof fn lemma_speculative_refusal(
    store: RowsView,
    target: Hash32,
    context: ConsensusContext,
    members: Seq<MemberView>,
    visited: Seq<Hash32>,
    parent: BlockView,
    qc: CertificateView,
)
    ensures
        ({
            let b = store.rows[target];
            &&& match row_fault(store, target, context, visited) {
                None => true,
                Some(SpeculativeError::Cycle) => visited.contains(target),
                Some(SpeculativeError::MissingTarget) => !store.rows.contains_key(target),
                Some(SpeculativeError::WrongHash) => block_hash(b) != target,
                Some(SpeculativeError::Context) => b.context != context,
                Some(SpeculativeError::Invalid) => b.payload.len() > 10 * 1024 * 1024 || (b.height > 0
                    && b.commitment_root == crate::bytes::zero_hash()),
                Some(_) => false,
            }
            &&& match justify_fault(b, parent, context, members) {
                None => true,
                Some(SpeculativeError::MissingQc) => b.height != 1 && b.justify is None,
                Some(SpeculativeError::UnexpectedQc) => b.height == 1 && b.justify is Some,
                Some(SpeculativeError::QcContext) => b.justify matches Some(c) && c.context != context,
                Some(SpeculativeError::JustifyTarget) => b.justify matches Some(c) && c.block_hash
                    != b.parent,
                Some(SpeculativeError::JustifyView) => b.justify matches Some(c) && c.view
                    != parent.view,
                Some(SpeculativeError::Qc(e)) => b.justify matches Some(c) && certificate_check(
                    members,
                    c,
                    context,
                    parent.view,
                    b.parent,
                    Some(parent.app_hash),
                    true,
                ) == Err::<(), VerifyError>(e),
                Some(_) => false,
            }
            &&& match target_fault(store, qc, context, members) {
                None => true,
                Some(SpeculativeError::QcContext) => qc.context != context,
                Some(SpeculativeError::MissingTarget) => !store.rows.contains_key(qc.block_hash),
                Some(SpeculativeError::QcAppHash) => qc.app_hash != Some(
                    store.rows[qc.block_hash].app_hash,
                ),
                Some(SpeculativeError::Qc(e)) => certificate_check(
                    members,
                    qc,
                    context,
                    store.rows[qc.block_hash].view,
                    block_hash(store.rows[qc.block_hash]),
                    Some(store.rows[qc.block_hash].app_hash),
                    true,
                ) == Err::<(), VerifyError>(e),
                Some(_) => false,
            }
        }),
{
}

} // verus!
