//! Validation of what a node finds in its durable store when it starts.

use vstd::prelude::*;

use crate::bytes::{hash_eq, position_of, zero_hash, zeros, Hash32};
use crate::consensus::committee::{certificate_check, verify_certificate, VerifyError};
use crate::consensus::store::block_map;
use crate::table::Table;
use crate::types::block::{
    block_hash, block_views, genesis_block, parent_timestamp_ok, well_formed_block, Block,
    BlockError, BlockView, MAX_BLOCK_PAYLOAD_SIZE,
};
use crate::types::certificate::{Certificate, CertificateView};
use crate::types::committee::{Committee, MemberView};
use crate::types::context::ConsensusContext;
use crate::types::messages::{ConsensusState, ConsensusStateView};

verus! {

/// What the durable store holds: the blocks indexed by height, the metadata of
/// the committed head, and all rows by hash.
pub struct RecoveredStore {
    pub blocks: Vec<Block>,
    pub committed_head: Option<Block>,
    pub committed_height: Option<u64>,
    pub archive: Table<Hash32, Block>,
}

/// A certificate that the durable state refers to.
#[derive(Clone, Copy, Debug, PartialEq, Eq)]
pub enum QcName {
    High,
    Locked,
}

/// Why a node refuses to start from its durable store.
#[allow(inconsistent_fields)]
#[derive(Clone, Copy, Debug, PartialEq, Eq)]
pub enum RecoveryError {
    /// The committed head above genesis has no hash.
    EmptyHead,
    /// The committed height is the largest number.
    HeightOverflow,
    /// The number of finalized blocks is not that of the committed height.
    Incomplete { expected: u64, found: usize },
    /// There is no committed head.
    NoHead,
    /// There is no committed height.
    NoHeight,
    /// The committed height is not that of the consensus state.
    HeightMismatch,
    /// The committed head is not that of the consensus state.
    HeadMismatch,
    /// A block is malformed.
    InvalidBlock { height: u64, fault: BlockError },
    /// A block belongs to another context.
    BlockContext { height: u64 },
    /// The chain does not start with genesis.
    NotGenesis,
    /// A height is missing or repeated.
    NotSequential { height: u64, index: usize },
    /// A block does not build on the one before it.
    BrokenParent { height: u64 },
    /// A timestamp does not follow the parent's.
    Timestamp { height: u64, fault: BlockError },
    /// The first block above genesis carries a certificate.
    UnexpectedQc,
    /// A later block carries no certificate.
    MissingQc { height: u64 },
    /// A block's certificate is not for its parent.
    QcNotParent { height: u64 },
    /// A block's certificate is of another view than its parent.
    QcView { height: u64 },
    /// A block's certificate does not verify.
    QcInvalid { height: u64, fault: VerifyError },
    /// The chain does not end with the committed head.
    ChainHeadMismatch,
    /// A certificate belongs to another context.
    ReferenceContext(QcName),
    /// The block of a certificate is missing.
    ReferenceMissing(QcName),
    /// The block of a certificate belongs to another context.
    TargetContext(QcName),
    /// The block of a certificate is malformed.
    TargetInvalid(QcName),
    /// The block of a certificate competes with a finalized one.
    NotCanonical(QcName),
    /// The branch of a certificate leaves out the height above the head.
    SkipsHeight(QcName),
    /// The branch of a certificate does not lead to the committed head.
    NotConnected(QcName),
    /// The heights along the branch of a certificate are not sequential.
    BrokenBranch(QcName),
    /// A certificate does not verify.
    ReferenceInvalid { name: QcName, fault: VerifyError },
    /// A view is recorded twice as voted in.
    RepeatedVote,
    /// A vote is recorded in a view that was not reached.
    FutureVote,
}

/// The contents of what was recovered.
pub ghost struct RecoveredView {
    pub blocks: Seq<BlockView>,
    pub committed_head: Option<BlockView>,
    pub committed_height: Option<u64>,
    pub archive: Map<Hash32, BlockView>,
}

impl vstd::view::View for RecoveredStore {
    type V = RecoveredView;

    open spec fn view(&self) -> RecoveredView {
        RecoveredView {
            blocks: block_views(self.blocks@),
            committed_head: match self.committed_head {
                Some(b) => Some(b@),
                None => None,
            },
            committed_height: self.committed_height,
            archive: block_map(self.archive.map()),
        }
    }
}

/// A block put in its place in a list that is ordered by height.
pub open spec fn height_inserted(blocks: Seq<BlockView>, b: BlockView) -> Seq<BlockView>
    decreases blocks.len(),
{
    if blocks.len() > 0 && b.height < blocks.last().height {
        height_inserted(blocks.drop_last(), b).push(blocks.last())
    } else {
        blocks.push(b)
    }
}

/// The blocks up to a height, in the order of their heights; blocks of one
/// height keep their order.
pub open spec fn finalized(blocks: Seq<BlockView>, height: u64) -> Seq<BlockView>
    decreases blocks.len(),
{
    if blocks.len() == 0 {
        blocks
    } else {
        let rest = finalized(blocks.drop_last(), height);
        if blocks.last().height <= height {
            height_inserted(rest, blocks.last())
        } else {
            rest
        }
    }
}

/// The fault of a block's structure.
pub open spec fn structure_error(b: BlockView) -> Option<BlockError> {
    if well_formed_block(b) {
        None
    } else if b.payload.len() > MAX_BLOCK_PAYLOAD_SIZE {
        Some(BlockError::PayloadTooLarge)
    } else {
        Some(BlockError::MissingCommitmentRoot)
    }
}

/// The fault of a timestamp after the parent's.
pub open spec fn timestamp_error(timestamp: u64, parent: u64) -> Option<BlockError> {
    if parent_timestamp_ok(timestamp, parent) {
        None
    } else if timestamp < parent {
        Some(BlockError::BeforeParent)
    } else {
        Some(BlockError::StepTooLarge)
    }
}

/// The fault of the block at a position of the finalized chain.
pub open spec fn link_fault(
    chain: Seq<BlockView>,
    i: int,
    context: ConsensusContext,
    members: Seq<MemberView>,
    require_bls: bool,
) -> Option<RecoveryError> {
    let b = chain[i];
    let genesis = genesis_block(context);
    if structure_error(b) is Some {
        Some(RecoveryError::InvalidBlock { height: b.height, fault: structure_error(b)->Some_0 })
    } else if b.context != context {
        Some(RecoveryError::BlockContext { height: b.height })
    } else if i == 0 {
        if b.height != 0 || block_hash(b) != block_hash(genesis) || b.parent != genesis.parent {
            Some(RecoveryError::NotGenesis)
        } else {
            None
        }
    } else {
        let parent = chain[i - 1];
        if b.height != i {
            Some(RecoveryError::NotSequential { height: b.height, index: i as usize })
        } else if b.parent != block_hash(parent) {
            Some(RecoveryError::BrokenParent { height: b.height })
        } else if timestamp_error(b.timestamp, parent.timestamp) is Some {
            Some(
                RecoveryError::Timestamp {
                    height: b.height,
                    fault: timestamp_error(b.timestamp, parent.timestamp)->Some_0,
                },
            )
        } else if b.height == 1 {
            if b.parent != block_hash(genesis) || b.justify is Some {
                Some(RecoveryError::UnexpectedQc)
            } else {
                None
            }
        } else {
            match b.justify {
                None => Some(RecoveryError::MissingQc { height: b.height }),
                Some(qc) => if qc.block_hash != b.parent {
                    Some(RecoveryError::QcNotParent { height: b.height })
                } else if qc.view != parent.view {
                    Some(RecoveryError::QcView { height: b.height })
                } else {
                    match certificate_check(
                        members,
                        qc,
                        context,
                        parent.view,
                        b.parent,
                        Some(parent.app_hash),
                        require_bls,
                    ) {
                        Ok(()) => None,
                        Err(e) => Some(RecoveryError::QcInvalid { height: b.height, fault: e }),
                    }
                },
            }
        }
    }
}

/// The first fault of the finalized chain, from a position on.
pub open spec fn chain_fault(
    chain: Seq<BlockView>,
    i: int,
    context: ConsensusContext,
    members: Seq<MemberView>,
    require_bls: bool,
) -> Option<RecoveryError>
    decreases chain.len() - i,
{
    if i < 0 || i >= chain.len() {
        None
    } else if link_fault(chain, i, context, members, require_bls) is Some {
        link_fault(chain, i, context, members, require_bls)
    } else {
        chain_fault(chain, i + 1, context, members, require_bls)
    }
}

/// Some block of the chain has the hash.
pub open spec fn in_chain(chain: Seq<BlockView>, h: Hash32) -> bool {
    exists|i: int| 0 <= i < chain.len() && block_hash(#[trigger] chain[i]) == h
}

/// The first block of the chain that has the hash.
pub open spec fn chain_block(chain: Seq<BlockView>, h: Hash32) -> BlockView {
    chain[choose|i: int|
        0 <= i < chain.len() && block_hash(#[trigger] chain[i]) == h && (forall|k: int|
            0 <= k < i ==> block_hash(#[trigger] chain[k]) != h)]
}

/// The block that a hash names, in the chain or else among all rows.
pub open spec fn find_block(chain: Seq<BlockView>, archive: Map<Hash32, BlockView>, h: Hash32) -> Option<
    BlockView,
> {
    if in_chain(chain, h) {
        Some(chain_block(chain, h))
    } else if archive.contains_key(h) {
        Some(archive[h])
    } else {
        None
    }
}

/// The fault of the branch from an unfinalized block down to the committed
/// head.
pub open spec fn branch_fault(
    chain: Seq<BlockView>,
    archive: Map<Hash32, BlockView>,
    b: BlockView,
    head: Hash32,
    height: u64,
    name: QcName,
) -> Option<RecoveryError>
    decreases b.height,
{
    if b.parent == head {
        if b.height != height + 1 {
            Some(RecoveryError::SkipsHeight(name))
        } else {
            None
        }
    } else {
        match find_block(chain, archive, b.parent) {
            None => Some(RecoveryError::NotConnected(name)),
            Some(parent) => if parent.height <= height {
                Some(RecoveryError::NotConnected(name))
            } else if b.height != parent.height + 1 {
                Some(RecoveryError::BrokenBranch(name))
            } else {
                branch_fault(chain, archive, parent, head, height, name)
            },
        }
    }
}

/// The fault of a certificate that the durable state refers to.
pub open spec fn reference_fault(
    chain: Seq<BlockView>,
    archive: Map<Hash32, BlockView>,
    qc: CertificateView,
    name: QcName,
    context: ConsensusContext,
    members: Seq<MemberView>,
    head: Hash32,
    height: u64,
    require_bls: bool,
) -> Option<RecoveryError> {
    let found = find_block(chain, archive, qc.block_hash);
    if qc.context != context {
        Some(RecoveryError::ReferenceContext(name))
    } else if found is None {
        Some(RecoveryError::ReferenceMissing(name))
    } else {
        let b = found->Some_0;
        let placement = if b.height <= height {
            if in_chain(chain, qc.block_hash) {
                None
            } else {
                Some(RecoveryError::NotCanonical(name))
            }
        } else {
            branch_fault(chain, archive, b, head, height, name)
        };
        if b.context != context {
            Some(RecoveryError::TargetContext(name))
        } else if !well_formed_block(b) {
            Some(RecoveryError::TargetInvalid(name))
        } else if placement is Some {
            placement
        } else {
            match certificate_check(
                members,
                qc,
                context,
                b.view,
                block_hash(b),
                Some(b.app_hash),
                require_bls,
            ) {
                Ok(()) => None,
                Err(e) => Some(RecoveryError::ReferenceInvalid { name, fault: e }),
            }
        }
    }
}

/// The fault of an optional certificate that the durable state refers to.
pub open spec fn option_reference_fault(
    chain: Seq<BlockView>,
    archive: Map<Hash32, BlockView>,
    qc: Option<CertificateView>,
    name: QcName,
    context: ConsensusContext,
    members: Seq<MemberView>,
    head: Hash32,
    height: u64,
    require_bls: bool,
) -> Option<RecoveryError> {
    match qc {
        Some(qc) => reference_fault(
            chain,
            archive,
            qc,
            name,
            context,
            members,
            head,
            height,
            require_bls,
        ),
        None => None,
    }
}

/// The fault of the metadata of the committed head.
pub open spec fn metadata_fault(
    store: RecoveredView,
    height: u64,
    head: Hash32,
) -> Option<RecoveryError> {
    let chain = finalized(store.blocks, height);
    if head == zero_hash() && height != 0 {
        Some(RecoveryError::EmptyHead)
    } else if height == u64::MAX {
        Some(RecoveryError::HeightOverflow)
    } else if chain.len() != height + 1 {
        Some(RecoveryError::Incomplete { expected: (height + 1) as u64, found: chain.len() as usize })
    } else if store.committed_head is None {
        Some(RecoveryError::NoHead)
    } else if store.committed_height is None {
        Some(RecoveryError::NoHeight)
    } else if store.committed_height->Some_0 != height {
        Some(RecoveryError::HeightMismatch)
    } else if store.committed_head->Some_0.height != height || block_hash(
        store.committed_head->Some_0,
    ) != head {
        Some(RecoveryError::HeadMismatch)
    } else {
        None
    }
}

/// The fault of the record of votes.
pub open spec fn votes_fault(voted: Seq<u64>, current_view: u64) -> Option<RecoveryError> {
    if !voted.no_duplicates() {
        Some(RecoveryError::RepeatedVote)
    } else if exists|i: int| 0 <= i < voted.len() && #[trigger] voted[i] > current_view {
        Some(RecoveryError::FutureVote)
    } else {
        None
    }
}

/// The first fault of what was recovered.
pub open spec fn recovery_fault(
    store: RecoveredView,
    context: ConsensusContext,
    members: Seq<MemberView>,
    state: ConsensusState,
    require_bls: bool,
) -> Option<RecoveryError> {
    let height = state.committed_height;
    let head = state.committed_hash;
    let chain = finalized(store.blocks, height);
    let high = option_reference_fault(
        chain,
        store.archive,
        state@.high_qc,
        QcName::High,
        context,
        members,
        head,
        height,
        require_bls,
    );
    let locked = option_reference_fault(
        chain,
        store.archive,
        state@.locked_qc,
        QcName::Locked,
        context,
        members,
        head,
        height,
        require_bls,
    );
    if metadata_fault(store, height, head) is Some {
        metadata_fault(store, height, head)
    } else if chain_fault(chain, 0, context, members, require_bls) is Some {
        chain_fault(chain, 0, context, members, require_bls)
    } else if chain.last().height != height || block_hash(chain.last()) != head {
        Some(RecoveryError::ChainHeadMismatch)
    } else if high is Some {
        high
    } else if locked is Some {
        locked
    } else {
        votes_fault(state.voted_views@, state.current_view)
    }
}

/// Collects the blocks up to a height in the order of their heights.
fn collect_finalized(blocks: &Vec<Block>, height: u64) -> (r: Vec<Block>)
    ensures
        block_views(r@) == finalized(block_views(blocks@), height),
{
    let ghost all = block_views(blocks@);
    let mut r: Vec<Block> = Vec::new();
    let mut i: usize = 0;
    assert(block_views(r@) =~= finalized(all.take(0), height));
    while i < blocks.len()
        invariant
            i <= blocks.len(),
            all == block_views(blocks@),
            block_views(r@) == finalized(all.take(i as int), height),
        decreases blocks.len() - i,
    {
        let b = &blocks[i];
        proof {
            assert(all[i as int] == b@);
            assert(all.take(i + 1).drop_last() =~= all.take(i as int));
            assert(all.take(i + 1).last() == b@);
        }
        if b.height <= height {
            let ghost s = block_views(r@);
            let mut at: usize = r.len();
            assert(s.take(at as int) =~= s);
            assert(height_inserted(s, b@) =~= height_inserted(s.take(at as int), b@) + s.skip(
                at as int,
            ));
            while at > 0 && b.height < r[at - 1].height
                invariant
                    at <= r.len(),
                    s == block_views(r@),
                    height_inserted(s, b@) == height_inserted(s.take(at as int), b@) + s.skip(
                        at as int,
                    ),
                decreases at,
            {
                proof {
                    let front = s.take(at as int);
                    assert(front.last() == r[at - 1]@);
                    assert(front.drop_last() =~= s.take(at - 1));
                    assert(height_inserted(front, b@) + s.skip(at as int) =~= height_inserted(
                        s.take(at - 1),
                        b@,
                    ) + s.skip(at - 1));
                }
                at = at - 1;
            }
            proof {
                let front = s.take(at as int);
                if at > 0 {
                    assert(front.last() == r[at - 1]@);
                }
                assert(height_inserted(front, b@) == front.push(b@));
                assert(height_inserted(s, b@) =~= s.insert(at as int, b@));
            }
            r.insert(at, b.clone());
            assert(block_views(r@) =~= s.insert(at as int, b@));
        }
        i = i + 1;
    }
    assert(all.take(all.len() as int) =~= all);
    r
}

/// Checks the block at a position of the finalized chain.
fn check_link(
    chain: &Vec<Block>,
    i: usize,
    context: ConsensusContext,
    committee: &Committee,
    require_bls: bool,
) -> (r: Result<(), RecoveryError>)
    requires
        i < chain.len(),
    ensures
        match r {
            Ok(()) => link_fault(block_views(chain@), i as int, context, committee.members_view(), require_bls) is None,
            Err(e) => link_fault(block_views(chain@), i as int, context, committee.members_view(), require_bls)
                == Some(e),
        },
{
    let ghost cs = block_views(chain@);
    let b = &chain[i];
    assert(cs[i as int] == b@);
    if let Err(fault) = b.validate() {
        return Err(RecoveryError::InvalidBlock { height: b.height, fault });
    }
    if b.validate_context(context).is_err() {
        return Err(RecoveryError::BlockContext { height: b.height });
    }
    let genesis = Block::genesis(context);
    if i == 0 {
        if b.height != 0 || !hash_eq(&b.hash(), &genesis.hash()) || !hash_eq(
            &b.parent,
            &genesis.parent,
        ) {
            return Err(RecoveryError::NotGenesis);
        }
        return Ok(());
    }
    let parent = &chain[i - 1];
    assert(cs[i - 1] == parent@);
    if b.height != i as u64 {
        return Err(RecoveryError::NotSequential { height: b.height, index: i });
    }
    if !hash_eq(&b.parent, &parent.hash()) {
        return Err(RecoveryError::BrokenParent { height: b.height });
    }
    if let Err(fault) = b.validate_parent_timestamp(parent.timestamp) {
        return Err(RecoveryError::Timestamp { height: b.height, fault });
    }
    if b.height == 1 {
        if !hash_eq(&b.parent, &genesis.hash()) || b.justify.is_some() {
            return Err(RecoveryError::UnexpectedQc);
        }
        return Ok(());
    }
    let qc = match &b.justify {
        Some(qc) => qc,
        None => {
            return Err(RecoveryError::MissingQc { height: b.height });
        },
    };
    if !hash_eq(&qc.block_hash, &b.parent) {
        return Err(RecoveryError::QcNotParent { height: b.height });
    }
    if qc.view != parent.view {
        return Err(RecoveryError::QcView { height: b.height });
    }
    match verify_certificate(
        committee,
        qc,
        context,
        parent.view,
        &b.parent,
        Some(parent.app_hash),
        require_bls,
    ) {
        Ok(()) => Ok(()),
        Err(fault) => Err(RecoveryError::QcInvalid { height: b.height, fault }),
    }
}

/// The hashes of a chain.
pub open spec fn hashes_of(chain: Seq<BlockView>) -> Seq<Hash32> {
    chain.map_values(|b: BlockView| block_hash(b))
}

/// Looks a block up in the chain or else among all rows.
fn lookup<'a>(
    chain: &'a Vec<Block>,
    hashes: &Vec<Hash32>,
    archive: &'a Table<Hash32, Block>,
    h: &Hash32,
) -> (r: Option<&'a Block>)
    requires
        hashes@ == hashes_of(block_views(chain@)),
        archive.wf(),
    ensures
        match r {
            Some(b) => find_block(block_views(chain@), block_map(archive.map()), *h) == Some(b@),
            None => find_block(block_views(chain@), block_map(archive.map()), *h) is None,
        },
{
    let ghost cs = block_views(chain@);
    match position_of(hashes, h) {
        Some(i) => {
            proof {
                assert(hashes@[i as int] == block_hash(cs[i as int]));
                let j = choose|j: int|
                    0 <= j < cs.len() && block_hash(#[trigger] cs[j]) == *h && (forall|k: int|
                        0 <= k < j ==> block_hash(#[trigger] cs[k]) != *h);
                assert(block_hash(cs[i as int]) == *h);
                assert forall|k: int| 0 <= k < i implies block_hash(#[trigger] cs[k]) != *h by {
                    assert(hashes@[k] == block_hash(cs[k]));
                }
                assert(i == j) by {
                    if j < i {
                        assert(block_hash(cs[j]) != *h);
                    } else if i < j {
                        assert(block_hash(cs[i as int]) != *h);
                    }
                }
                assert(cs[i as int] == chain[i as int]@);
            }
            Some(&chain[i])
        },
        None => {
            proof {
                if in_chain(cs, *h) {
                    let j = choose|j: int| 0 <= j < cs.len() && block_hash(#[trigger] cs[j]) == *h;
                    assert(hashes@[j] == *h);
                }
            }
            archive.get(h)
        },
    }
}

/// Checks the branch from an unfinalized block down to the committed head.
fn check_branch(
    chain: &Vec<Block>,
    hashes: &Vec<Hash32>,
    archive: &Table<Hash32, Block>,
    start: &Block,
    head: &Hash32,
    height: u64,
    name: QcName,
) -> (r: Result<(), RecoveryError>)
    requires
        hashes@ == hashes_of(block_views(chain@)),
        archive.wf(),
        height < u64::MAX,
    ensures
        match r {
            Ok(()) => branch_fault(
                block_views(chain@),
                block_map(archive.map()),
                start@,
                *head,
                height,
                name,
            ) is None,
            Err(e) => branch_fault(
                block_views(chain@),
                block_map(archive.map()),
                start@,
                *head,
                height,
                name,
            ) == Some(e),
        },
{
    let mut cursor_parent = start.parent;
    let mut cursor_height: u64 = start.height;
    let ghost mut cursor = start@;
    loop
        invariant
            hashes@ == hashes_of(block_views(chain@)),
            archive.wf(),
            height < u64::MAX,
            cursor.parent == cursor_parent,
            cursor.height == cursor_height,
            branch_fault(
                block_views(chain@),
                block_map(archive.map()),
                start@,
                *head,
                height,
                name,
            ) == branch_fault(
                block_views(chain@),
                block_map(archive.map()),
                cursor,
                *head,
                height,
                name,
            ),
        decreases cursor_height,
    {
        if hash_eq(&cursor_parent, head) {
            if cursor_height != height + 1 {
                return Err(RecoveryError::SkipsHeight(name));
            }
            return Ok(());
        }
        match lookup(chain, hashes, archive, &cursor_parent) {
            None => {
                return Err(RecoveryError::NotConnected(name));
            },
            Some(parent) => {
                if parent.height <= height {
                    return Err(RecoveryError::NotConnected(name));
                }
                if parent.height == u64::MAX || cursor_height != parent.height + 1 {
                    return Err(RecoveryError::BrokenBranch(name));
                }
                cursor_parent = parent.parent;
                cursor_height = parent.height;
                proof {
                    cursor = parent@;
                }
            },
        }
    }
}

/// Checks a certificate that the durable state refers to.
fn check_reference(
    chain: &Vec<Block>,
    hashes: &Vec<Hash32>,
    archive: &Table<Hash32, Block>,
    qc: &Option<Certificate>,
    name: QcName,
    context: ConsensusContext,
    committee: &Committee,
    head: &Hash32,
    height: u64,
    require_bls: bool,
) -> (r: Result<(), RecoveryError>)
    requires
        hashes@ == hashes_of(block_views(chain@)),
        archive.wf(),
        height < u64::MAX,
    ensures
        match r {
            Ok(()) => option_reference_fault(
                block_views(chain@),
                block_map(archive.map()),
                crate::types::certificate::option_certificate(*qc),
                name,
                context,
                committee.members_view(),
                *head,
                height,
                require_bls,
            ) is None,
            Err(e) => option_reference_fault(
                block_views(chain@),
                block_map(archive.map()),
                crate::types::certificate::option_certificate(*qc),
                name,
                context,
                committee.members_view(),
                *head,
                height,
                require_bls,
            ) == Some(e),
        },
{
    let qc = match qc {
        Some(qc) => qc,
        None => {
            return Ok(());
        },
    };
    if qc.validate_context(context).is_err() {
        return Err(RecoveryError::ReferenceContext(name));
    }
    let b = match lookup(chain, hashes, archive, &qc.block_hash) {
        Some(b) => b,
        None => {
            return Err(RecoveryError::ReferenceMissing(name));
        },
    };
    if b.validate_context(context).is_err() {
        return Err(RecoveryError::TargetContext(name));
    }
    if b.validate().is_err() {
        return Err(RecoveryError::TargetInvalid(name));
    }
    if b.height <= height {
        let ghost cs = block_views(chain@);
        if position_of(hashes, &qc.block_hash).is_none() {
            proof {
                if in_chain(cs, qc.block_hash) {
                    let j = choose|j: int|
                        0 <= j < cs.len() && block_hash(#[trigger] cs[j]) == qc.block_hash;
                    assert(hashes@[j] == qc.block_hash);
                }
            }
            return Err(RecoveryError::NotCanonical(name));
        }
        proof {
            let j = choose|j: int| 0 <= j < hashes@.len() && hashes@[j] == qc.block_hash;
            assert(hashes@.contains(qc.block_hash));
            assert(block_hash(cs[j]) == qc.block_hash);
        }
    } else {
        if let Err(e) = check_branch(chain, hashes, archive, b, head, height, name) {
            return Err(e);
        }
    }
    match verify_certificate(
        committee,
        qc,
        context,
        b.view,
        &b.hash(),
        Some(b.app_hash),
        require_bls,
    ) {
        Ok(()) => Ok(()),
        Err(fault) => Err(RecoveryError::ReferenceInvalid { name, fault }),
    }
}

/// Checks the record of votes.
fn check_votes(voted: &Vec<u64>, current_view: u64) -> (r: Result<(), RecoveryError>)
    ensures
        match r {
            Ok(()) => votes_fault(voted@, current_view) is None,
            Err(e) => votes_fault(voted@, current_view) == Some(e),
        },
{
    let mut i: usize = 0;
    while i < voted.len()
        invariant
            i <= voted.len(),
            forall|a: int, b: int| 0 <= a < i && 0 <= b < i && a != b ==> voted[a] != voted[b],
        decreases voted.len() - i,
    {
        let mut j: usize = 0;
        while j < i
            invariant
                j <= i,
                i < voted.len(),
                forall|a: int| 0 <= a < j ==> voted[a] != voted[i as int],
            decreases i - j,
        {
            if voted[i] == voted[j] {
                assert(voted@[i as int] == voted@[j as int]);
                return Err(RecoveryError::RepeatedVote);
            }
            j = j + 1;
        }
        i = i + 1;
    }
    let mut k: usize = 0;
    while k < voted.len()
        invariant
            k <= voted.len(),
            voted@.no_duplicates(),
            forall|a: int| 0 <= a < k ==> #[trigger] voted@[a] <= current_view,
        decreases voted.len() - k,
    {
        if voted[k] > current_view {
            assert(voted@[k as int] > current_view);
            return Err(RecoveryError::FutureVote);
        }
        k = k + 1;
    }
    Ok(())
}

/// Validates the finalized chain and every certificate that the durable state
/// refers to, and returns the chain. The application state is not rebuilt
/// here: it replays the chain before consensus starts.
pub fn validate_recovered_chain(
    store: &RecoveredStore,
    context: ConsensusContext,
    committee: &Committee,
    state: &ConsensusState,
    require_bls_signature: bool,
) -> (r: Result<Vec<Block>, RecoveryError>)
    requires
        store.archive.wf(),
    ensures
        match r {
            Ok(chain) => recovery_fault(
                store@,
                context,
                committee.members_view(),
                *state,
                require_bls_signature,
            ) is None && block_views(chain@) == finalized(store@.blocks, state.committed_height),
            Err(e) => recovery_fault(
                store@,
                context,
                committee.members_view(),
                *state,
                require_bls_signature,
            ) == Some(e),
        },
{
    let height: u64 = state.committed_height;
    if hash_eq(&state.committed_hash, &zeros()) && height != 0 {
        return Err(RecoveryError::EmptyHead);
    }
    if height == u64::MAX {
        return Err(RecoveryError::HeightOverflow);
    }
    let chain = collect_finalized(&store.blocks, height);
    let ghost cs = block_views(chain@);
    assert(cs.len() == chain.len());
    if chain.len() as u64 != height + 1 {
        return Err(RecoveryError::Incomplete { expected: height + 1, found: chain.len() });
    }
    let head = match &store.committed_head {
        Some(b) => b,
        None => {
            return Err(RecoveryError::NoHead);
        },
    };
    match store.committed_height {
        None => {
            return Err(RecoveryError::NoHeight);
        },
        Some(h) => {
            if h != height {
                return Err(RecoveryError::HeightMismatch);
            }
        },
    }
    if head.height != height || !hash_eq(&head.hash(), &state.committed_hash) {
        return Err(RecoveryError::HeadMismatch);
    }
    let mut hashes: Vec<Hash32> = Vec::new();
    let mut i: usize = 0;
    while i < chain.len()
        invariant
            i <= chain.len(),
            cs == block_views(chain@),
            cs == finalized(store@.blocks, height),
            height == state.committed_height,
            metadata_fault(store@, height, state.committed_hash) is None,
            hashes.len() == i,
            forall|k: int| 0 <= k < i ==> #[trigger] hashes@[k] == block_hash(cs[k]),
            chain_fault(cs, 0, context, committee.members_view(), require_bls_signature) == chain_fault(
                cs,
                i as int,
                context,
                committee.members_view(),
                require_bls_signature,
            ),
        decreases chain.len() - i,
    {
        if let Err(e) = check_link(&chain, i, context, committee, require_bls_signature) {
            return Err(e);
        }
        assert(cs[i as int] == chain[i as int]@);
        hashes.push(chain[i].hash());
        i = i + 1;
    }
    assert(hashes@ =~= hashes_of(cs));
    let last = &chain[chain.len() - 1];
    assert(cs.last() == last@);
    if last.height != height || !hash_eq(&hashes[chain.len() - 1], &state.committed_hash) {
        return Err(RecoveryError::ChainHeadMismatch);
    }
    if let Err(e) = check_reference(
        &chain,
        &hashes,
        &store.archive,
        &state.high_qc,
        QcName::High,
        context,
        committee,
        &state.committed_hash,
        height,
        require_bls_signature,
    ) {
        return Err(e);
    }
    if let Err(e) = check_reference(
        &chain,
        &hashes,
        &store.archive,
        &state.locked_qc,
        QcName::Locked,
        context,
        committee,
        &state.committed_hash,
        height,
        require_bls_signature,
    ) {
        return Err(e);
    }
    if let Err(e) = check_votes(&state.voted_views, state.current_view) {
        return Err(e);
    }
    Ok(chain)
}

/// The view to resume in: past the highest certificate and not before the
/// persisted view.
pub open spec fn resume_view(state: ConsensusStateView) -> u64 {
    match state.high_qc {
        Some(qc) => {
            let next: u64 = if qc.view == u64::MAX {
                u64::MAX
            } else {
                (qc.view + 1) as u64
            };
            if next > state.current_view {
                next
            } else {
                state.current_view
            }
        },
        None => state.current_view,
    }
}

/// The view that a recovered node resumes in.
pub fn recovery_resume_view(state: &ConsensusState) -> (r: u64)
    ensures
        r == resume_view(state@),
{
    match &state.high_qc {
        Some(qc) => {
            let next: u64 = if qc.view == u64::MAX {
                u64::MAX
            } else {
                qc.view + 1
            };
            if next > state.current_view {
                next
            } else {
                state.current_view
            }
        },
        None => state.current_view,
    }
}

/// A recovered node never resumes before the view that it had reached, nor in
/// the view of the highest certificate or before it.
pub proof fn lemma_resume_after_high_qc(state: ConsensusStateView)
    ensures
        resume_view(state) >= state.current_view,
        state.high_qc is Some && state.high_qc->Some_0.view < u64::MAX ==> resume_view(state)
            > state.high_qc->Some_0.view,
{
}

/// A recovered chain starts with genesis, has one block per height up to the
/// committed height, and each block builds on the one before it, with a
/// verified certificate of that one from height two on. It ends with the
/// committed head.
pub proof fn lemma_recovered_chain(
    store: RecoveredView,
    context: ConsensusContext,
    members: Seq<MemberView>,
    state: ConsensusState,
    require_bls: bool,
    i: int,
)
    requires
        recovery_fault(store, context, members, state, require_bls) is None,
        0 <= i <= state.committed_height,
    ensures
        ({
            let chain = finalized(store.blocks, state.committed_height);
            &&& chain.len() == state.committed_height + 1
            &&& block_hash(chain[0]) == block_hash(genesis_block(context))
            &&& block_hash(chain.last()) == state.committed_hash
            &&& chain[i].height == i
            &&& chain[i].context == context
            &&& i > 0 ==> chain[i].parent == block_hash(chain[i - 1])
            &&& i > 1 ==> chain[i].justify is Some && certificate_check(
                members,
                chain[i].justify->Some_0,
                context,
                chain[i - 1].view,
                block_hash(chain[i - 1]),
                Some(chain[i - 1].app_hash),
                require_bls,
            ) is Ok
        }),
{
    let chain = finalized(store.blocks, state.committed_height);
    lemma_no_link_fault(chain, 0, context, members, require_bls, i);
    lemma_no_link_fault(chain, 0, context, members, require_bls, 0);
}

proof fn lemma_no_link_fault(
    chain: Seq<BlockView>,
    from: int,
    context: ConsensusContext,
    members: Seq<MemberView>,
    require_bls: bool,
    i: int,
)
    requires
        0 <= from <= i < chain.len(),
        chain_fault(chain, from, context, members, require_bls) is None,
    ensures
        link_fault(chain, i, context, members, require_bls) is None,
    decreases i - from,
{
    if from < i {
        lemma_no_link_fault(chain, from + 1, context, members, require_bls, i);
    }
}

/// The finalized blocks are those up to the committed height, each as often as it
/// was found, in rising order of their heights.
pub proof fn lemma_finalized_ordered(blocks: Seq<BlockView>, height: u64, i: int, j: int)
    ensures
        finalized(blocks, height).to_multiset() == blocks.filter(
            |b: BlockView| b.height <= height,
        ).to_multiset(),
        0 <= i < finalized(blocks, height).len() ==> finalized(blocks, height)[i].height <= height,
        0 <= i < j < finalized(blocks, height).len() ==> finalized(blocks, height)[i].height
            <= finalized(blocks, height)[j].height,
    decreases blocks.len(),
{
    lemma_finalized_all(blocks, height);
    let list = finalized(blocks, height);
    if 0 <= i < list.len() {
        assert(list[i].height <= height);
    }
}

/// Blocks are in rising order of their heights, up to a height.
spec fn rising(list: Seq<BlockView>, height: u64) -> bool {
    &&& forall|i: int, j: int|
        0 <= i < j < list.len() ==> (#[trigger] list[i]).height <= (#[trigger] list[j]).height
    &&& forall|i: int| 0 <= i < list.len() ==> (#[trigger] list[i]).height <= height
}

proof fn lemma_finalized_all(blocks: Seq<BlockView>, height: u64)
    ensures
        finalized(blocks, height).to_multiset() == blocks.filter(
            |b: BlockView| b.height <= height,
        ).to_multiset(),
        rising(finalized(blocks, height), height),
    decreases blocks.len(),
{
    broadcast use vstd::seq_lib::group_to_multiset_ensures;

    reveal(Seq::filter);
    if blocks.len() > 0 {
        lemma_finalized_all(blocks.drop_last(), height);
        let rest = finalized(blocks.drop_last(), height);
        if blocks.last().height <= height {
            lemma_height_inserted(rest, blocks.last(), height);
        }
    }
}

proof fn lemma_height_inserted(list: Seq<BlockView>, b: BlockView, height: u64)
    requires
        rising(list, height),
        b.height <= height,
    ensures
        rising(height_inserted(list, b), height),
        height_inserted(list, b).to_multiset() == list.to_multiset().insert(b),
        height_inserted(list, b).len() == list.len() + 1,
        forall|i: int|
            0 <= i <= list.len() ==> (#[trigger] height_inserted(list, b)[i]) == b || exists|k: int|
                0 <= k < list.len() && #[trigger] list[k] == height_inserted(list, b)[i],
    decreases list.len(),
{
    broadcast use vstd::seq_lib::group_to_multiset_ensures;

    let after = height_inserted(list, b);
    if list.len() > 0 && b.height < list.last().height {
        let front = list.drop_last();
        assert forall|i: int| 0 <= i < front.len() implies #[trigger] front[i] == list[i] by {}
        lemma_height_inserted(front, b, height);
        let mid = height_inserted(front, b);
        assert(list =~= front.push(list.last()));
        assert forall|i: int| 0 <= i <= list.len() implies (#[trigger] after[i]) == b || exists|k: int|
            0 <= k < list.len() && #[trigger] list[k] == after[i] by {
            if i < mid.len() {
                assert(after[i] == mid[i]);
                if mid[i] != b {
                    let k = choose|k: int| 0 <= k < front.len() && #[trigger] front[k] == mid[i];
                    assert(list[k] == after[i]);
                }
            } else {
                assert(list[list.len() - 1] == after[i]);
            }
        }
        assert forall|i: int, j: int| 0 <= i < j < after.len() implies (#[trigger] after[i]).height <= (
        #[trigger] after[j]).height by {
            if j < mid.len() {
                assert(after[i] == mid[i] && after[j] == mid[j]);
            } else {
                assert(after[i] == mid[i] && after[j] == list.last());
                if mid[i] != b {
                    let k = choose|k: int| 0 <= k < front.len() && #[trigger] front[k] == mid[i];
                    assert(list[k].height <= list[list.len() - 1].height);
                }
            }
        }
        assert forall|i: int| 0 <= i < after.len() implies (#[trigger] after[i]).height <= height by {
            if i < mid.len() {
                assert(after[i] == mid[i]);
            } else {
                assert(list[list.len() - 1].height <= height);
            }
        }
    } else {
        assert forall|i: int| 0 <= i <= list.len() implies (#[trigger] after[i]) == b || exists|k: int|
            0 <= k < list.len() && #[trigger] list[k] == after[i] by {
            if i < list.len() {
                assert(list[i] == after[i]);
            }
        }
        assert forall|i: int, j: int| 0 <= i < j < after.len() implies (#[trigger] after[i]).height <= (
        #[trigger] after[j]).height by {
            if j < list.len() {
                assert(list[i].height <= list[j].height);
            } else {
                assert(list[i].height <= list[list.len() - 1].height);
            }
        }
    }
}

/// A block of a recovered chain has its place exactly if it is well-formed and of
/// the context, and: it is genesis; or it is one height above the block before it,
/// names it as its parent, follows it in time by at most a minute and, from height
/// two on, carries a certificate of it that verifies, and at height one none.
pub proof fn lemma_link(
    chain: Seq<BlockView>,
    i: int,
    context: ConsensusContext,
    members: Seq<MemberView>,
    require_bls: bool,
)
    requires
        0 <= i < chain.len(),
    ensures
        link_fault(chain, i, context, members, require_bls) is None <==> {
            let b = chain[i];
            let genesis = genesis_block(context);
            &&& b.payload.len() <= 10 * 1024 * 1024
            &&& b.height > 0 ==> b.commitment_root != zero_hash()
            &&& b.context == context
            &&& i == 0 ==> b.height == 0 && b.parent == zero_hash() && block_hash(b) == block_hash(
                genesis,
            )
            &&& i > 0 ==> {
                let parent = chain[i - 1];
                &&& b.height == i
                &&& b.parent == block_hash(parent)
                &&& parent.timestamp <= b.timestamp
                &&& parent.timestamp > 0 ==> b.timestamp - parent.timestamp <= 60_000
                &&& i == 1 ==> b.parent == block_hash(genesis) && b.justify is None
                &&& i > 1 ==> (b.justify matches Some(qc) && certificate_check(
                    members,
                    qc,
                    context,
                    parent.view,
                    block_hash(parent),
                    Some(parent.app_hash),
                    require_bls,
                ) is Ok)
            }
        },
{
    if i > 1 {
        if let Some(qc) = chain[i].justify {
            crate::consensus::committee::lemma_certificate_verifies(
                members,
                qc,
                context,
                chain[i - 1].view,
                block_hash(chain[i - 1]),
                Some(chain[i - 1].app_hash),
                require_bls,
            );
        }
    }
}

/// A chain is in order exactly if each of its blocks has its place.
pub proof fn lemma_chain_in_order(
    chain: Seq<BlockView>,
    from: int,
    context: ConsensusContext,
    members: Seq<MemberView>,
    require_bls: bool,
)
    requires
        0 <= from <= chain.len(),
    ensures
        chain_fault(chain, from, context, members, require_bls) is None <==> (forall|i: int|
            from <= i < chain.len() ==> #[trigger] link_fault(chain, i, context, members, require_bls)
                is None),
    decreases chain.len() - from,
{
    if from < chain.len() {
        lemma_chain_in_order(chain, from + 1, context, members, require_bls);
    }
}

/// A block is looked for in the finalized chain first, and then among all stored
/// ones; what is found in the chain has the hash that was asked for.
pub proof fn lemma_find_block(chain: Seq<BlockView>, archive: Map<Hash32, BlockView>, h: Hash32, i: int)
    ensures
        0 <= i < chain.len() && block_hash(chain[i]) == h ==> find_block(chain, archive, h) is Some
            && block_hash(find_block(chain, archive, h)->Some_0) == h && chain.contains(
            find_block(chain, archive, h)->Some_0,
        ),
        !in_chain(chain, h) && archive.contains_key(h) ==> find_block(chain, archive, h) == Some(
            archive[h],
        ),
        !in_chain(chain, h) && !archive.contains_key(h) ==> find_block(chain, archive, h) is None,
{
    if 0 <= i < chain.len() && block_hash(chain[i]) == h {
        assert(in_chain(chain, h));
        lemma_first_in_chain(chain, h, i);
        let k = choose|k: int|
            0 <= k < chain.len() && block_hash(#[trigger] chain[k]) == h && (forall|j: int|
                0 <= j < k ==> block_hash(#[trigger] chain[j]) != h);
        assert(chain_block(chain, h) == chain[k]);
    }
}

proof fn lemma_first_in_chain(chain: Seq<BlockView>, h: Hash32, i: int)
    requires
        0 <= i < chain.len(),
        block_hash(chain[i]) == h,
    ensures
        exists|k: int|
            0 <= k < chain.len() && block_hash(#[trigger] chain[k]) == h && (forall|j: int|
                0 <= j < k ==> block_hash(#[trigger] chain[j]) != h),
    decreases i,
{
    if exists|j: int| 0 <= j < i && block_hash(#[trigger] chain[j]) == h {
        let j = choose|j: int| 0 <= j < i && block_hash(#[trigger] chain[j]) == h;
        lemma_first_in_chain(chain, h, j);
    } else {
        assert(block_hash(chain[i]) == h);
    }
}

/// A branch leads to the committed head exactly if its block is the next one above
/// it, or its parent is known above the committed height, one height below it, and
/// leads there.
pub proof fn lemma_branch_leads_to_head(
    chain: Seq<BlockView>,
    archive: Map<Hash32, BlockView>,
    b: BlockView,
    head: Hash32,
    height: u64,
    name: QcName,
)
    ensures
        b.parent == head ==> (branch_fault(chain, archive, b, head, height, name) is None
            <==> b.height == height + 1),
        b.parent != head ==> (branch_fault(chain, archive, b, head, height, name) is None <==> {
            &&& find_block(chain, archive, b.parent) matches Some(p) && p.height > height
                && b.height == p.height + 1 && branch_fault(chain, archive, p, head, height, name)
                is None
        }),
{
}

/// A certificate of the durable state is in order exactly if its block is known,
/// of the context and well-formed, lies in the finalized chain or on a branch that
/// leads to its head, and the certificate verifies for it.
pub proof fn lemma_reference(
    chain: Seq<BlockView>,
    archive: Map<Hash32, BlockView>,
    qc: CertificateView,
    name: QcName,
    context: ConsensusContext,
    members: Seq<MemberView>,
    head: Hash32,
    height: u64,
    require_bls: bool,
)
    ensures
        reference_fault(chain, archive, qc, name, context, members, head, height, require_bls) is None
            <==> {
            &&& qc.context == context
            &&& find_block(chain, archive, qc.block_hash) matches Some(b) && {
                &&& b.context == context
                &&& b.payload.len() <= 10 * 1024 * 1024
                &&& b.height > 0 ==> b.commitment_root != zero_hash()
                &&& b.height <= height ==> in_chain(chain, qc.block_hash)
                &&& b.height > height ==> branch_fault(chain, archive, b, head, height, name) is None
                &&& certificate_check(
                    members,
                    qc,
                    context,
                    b.view,
                    block_hash(b),
                    Some(b.app_hash),
                    require_bls,
                ) is Ok
            }
        },
{
}

/// A node resumes exactly if: there is one finalized block per height up to the
/// committed one, which is the recorded head and ends a chain that is in order;
/// both certificates, where there are any, are in order; and it has voted at most
/// once per view, and not after its view.
pub proof fn lemma_recovers(
    store: RecoveredView,
    context: ConsensusContext,
    members: Seq<MemberView>,
    state: ConsensusState,
    require_bls: bool,
)
    ensures
        recovery_fault(store, context, members, state, require_bls) is None <==> {
            let height = state.committed_height;
            let head = state.committed_hash;
            let chain = finalized(store.blocks, height);
            let fits = |qc: CertificateView, name: QcName|
                reference_fault(
                    chain,
                    store.archive,
                    qc,
                    name,
                    context,
                    members,
                    head,
                    height,
                    require_bls,
                ) is None;
            &&& height > 0 ==> head != zero_hash()
            &&& height < u64::MAX
            &&& chain.len() == height + 1
            &&& store.committed_height == Some(height)
            &&& store.committed_head matches Some(b) && b.height == height && block_hash(b) == head
            &&& forall|i: int|
                0 <= i < chain.len() ==> #[trigger] link_fault(chain, i, context, members, require_bls)
                    is None
            &&& block_hash(chain.last()) == head
            &&& chain.last().height == height
            &&& state@.high_qc matches Some(qc) ==> fits(qc, QcName::High)
            &&& state@.locked_qc matches Some(qc) ==> fits(qc, QcName::Locked)
            &&& state.voted_views@.no_duplicates()
            &&& forall|i: int|
                0 <= i < state.voted_views@.len() ==> #[trigger] state.voted_views@[i]
                    <= state.current_view
        },
{
    let chain = finalized(store.blocks, state.committed_height);
    lemma_chain_in_order(chain, 0, context, members, require_bls);
}

/// A node resumes in the later one of the view that it had reached and the view
/// after its highest certificate.
pub proof fn lemma_resumes_in_later_view(state: ConsensusStateView)
    requires
        state.high_qc matches Some(qc) ==> qc.view < u64::MAX,
    ensures
        state.high_qc is None ==> resume_view(state) == state.current_view,
        state.high_qc matches Some(qc) ==> {
            &&& qc.view < state.current_view ==> resume_view(state) == state.current_view
            &&& qc.view >= state.current_view ==> resume_view(state) == qc.view + 1
        },
{
}

/// What the refusal of a recovered chain says of a block of it is so.
pub proof fn lemma_link_refusal(
    chain: Seq<BlockView>,
    i: int,
    context: ConsensusContext,
    members: Seq<MemberView>,
    require_bls: bool,
)
    requires
        0 <= i < chain.len(),
        chain.len() <= usize::MAX,
    ensures
        ({
            let b = chain[i];
            match link_fault(chain, i, context, members, require_bls) {
                None => true,
                Some(RecoveryError::InvalidBlock { height, fault }) => height == b.height && match fault {
                    BlockError::PayloadTooLarge => b.payload.len() > 10 * 1024 * 1024,
                    BlockError::MissingCommitmentRoot => b.height > 0 && b.commitment_root
                        == zero_hash(),
                    _ => false,
                },
                Some(RecoveryError::BlockContext { height }) => height == b.height && b.context
                    != context,
                Some(RecoveryError::NotGenesis) => i == 0,
                Some(RecoveryError::NotSequential { height, index }) => height == b.height && index
                    == i && height != index,
                Some(RecoveryError::BrokenParent { height }) => height == b.height && b.parent
                    != block_hash(chain[i - 1]),
                Some(RecoveryError::Timestamp { height, fault }) => height == b.height && match fault {
                    BlockError::BeforeParent => b.timestamp < chain[i - 1].timestamp,
                    BlockError::StepTooLarge => b.timestamp > chain[i - 1].timestamp + 60_000,
                    _ => false,
                },
                Some(RecoveryError::UnexpectedQc) => b.height == 1 && (b.justify is Some || b.parent
                    != block_hash(genesis_block(context))),
                Some(RecoveryError::MissingQc { height }) => height == b.height && b.justify is None,
                Some(RecoveryError::QcNotParent { height }) => height == b.height && (
                b.justify matches Some(qc) && qc.block_hash != b.parent),
                Some(RecoveryError::QcView { height }) => height == b.height && (
                b.justify matches Some(qc) && qc.view != chain[i - 1].view),
                Some(RecoveryError::QcInvalid { height, fault }) => height == b.height && (
                b.justify matches Some(qc) && certificate_check(
                    members,
                    qc,
                    context,
                    chain[i - 1].view,
                    b.parent,
                    Some(chain[i - 1].app_hash),
                    require_bls,
                ) == Err::<(), VerifyError>(fault)),
                Some(_) => false,
            }
        }),
{
}

/// What the refusal of a durable state says of it is so.
pub proof fn lemma_metadata_refusal(
    store: RecoveredView,
    height: u64,
    head: Hash32,
    voted: Seq<u64>,
    current_view: u64,
)
    requires
        finalized(store.blocks, height).len() <= usize::MAX,
    ensures
        match metadata_fault(store, height, head) {
            None => true,
            Some(RecoveryError::EmptyHead) => head == zero_hash() && height > 0,
            Some(RecoveryError::HeightOverflow) => height == u64::MAX,
            Some(RecoveryError::Incomplete { expected, found }) => expected == height + 1 && found
                == finalized(store.blocks, height).len() && expected != found,
            Some(RecoveryError::NoHead) => store.committed_head is None,
            Some(RecoveryError::NoHeight) => store.committed_height is None,
            Some(RecoveryError::HeightMismatch) => store.committed_height matches Some(h) && h
                != height,
            Some(RecoveryError::HeadMismatch) => store.committed_head matches Some(b) && (b.height
                != height || block_hash(b) != head),
            Some(_) => false,
        },
        match votes_fault(voted, current_view) {
            None => true,
            Some(RecoveryError::RepeatedVote) => !voted.no_duplicates(),
            Some(RecoveryError::FutureVote) => exists|i: int|
                0 <= i < voted.len() && #[trigger] voted[i] > current_view,
            Some(_) => false,
        },
{
}

/// What the refusal of a certificate of a durable state says of it is so.
pub proof fn lemma_reference_refusal(
    chain: Seq<BlockView>,
    archive: Map<Hash32, BlockView>,
    qc: CertificateView,
    name: QcName,
    context: ConsensusContext,
    members: Seq<MemberView>,
    head: Hash32,
    height: u64,
    require_bls: bool,
)
    ensures
        ({
            let found = find_block(chain, archive, qc.block_hash);
            match reference_fault(
                chain,
                archive,
                qc,
                name,
                context,
                members,
                head,
                height,
                require_bls,
            ) {
                None => true,
                Some(RecoveryError::ReferenceContext(n)) => n == name && qc.context != context,
                Some(RecoveryError::ReferenceMissing(n)) => n == name && found is None,
                Some(e) => found matches Some(b) && match e {
                    RecoveryError::TargetContext(n) => n == name && b.context != context,
                    RecoveryError::TargetInvalid(n) => n == name && (b.payload.len() > 10 * 1024
                        * 1024 || (b.height > 0 && b.commitment_root == zero_hash())),
                    RecoveryError::NotCanonical(n) => n == name && b.height <= height && !in_chain(
                        chain,
                        qc.block_hash,
                    ),
                    RecoveryError::SkipsHeight(n) => n == name && b.height > height,
                    RecoveryError::NotConnected(n) => n == name && b.height > height && b.parent
                        != head,
                    RecoveryError::BrokenBranch(n) => n == name && b.height > height && b.parent
                        != head,
                    RecoveryError::ReferenceInvalid { name: n, fault } => n == name
                        && certificate_check(
                        members,
                        qc,
                        context,
                        b.view,
                        block_hash(b),
                        Some(b.app_hash),
                        require_bls,
                    ) == Err::<(), VerifyError>(fault),
                    _ => false,
                },
            }
        }),
{
    if let Some(b) = find_block(chain, archive, qc.block_hash) {
        lemma_branch_refusal(chain, archive, b, head, height, name);
    }
}

/// A branch is refused for its connection alone.
proof fn lemma_branch_refusal(
    chain: Seq<BlockView>,
    archive: Map<Hash32, BlockView>,
    b: BlockView,
    head: Hash32,
    height: u64,
    name: QcName,
)
    ensures
        branch_fault(chain, archive, b, head, height, name) matches Some(e) ==> e
            == RecoveryError::SkipsHeight(name) || (b.parent != head && (e
            == RecoveryError::NotConnected(name) || e == RecoveryError::BrokenBranch(name))),
    decreases b.height,
{
    if b.parent != head {
        if let Some(parent) = find_block(chain, archive, b.parent) {
            if parent.height > height && b.height == parent.height + 1 {
                lemma_branch_refusal(chain, archive, parent, head, height, name);
            }
        }
    }
}

} // verus!
