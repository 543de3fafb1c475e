//! Blocks and their identity.

use vstd::prelude::*;

use crate::bytes::{
    copy_bytes, hash_eq, lemma_hash_view, lemma_split, put_bytes, put_hash, put_u64, zero_hash,
    zeros, Hash32, NodeId,
};
use crate::crypto::{sha256, sha256_digest};
use crate::types::certificate::{
    copy_option_certificate, option_certificate, Certificate, CertificateView,
};
use crate::types::context::{
    context_bytes, lemma_context_injective, lemma_context_len, ConsensusContext, ContextMismatch,
};

verus! {

/// Largest payload of a block.
pub const MAX_BLOCK_PAYLOAD_SIZE: usize = 10_485_760;

/// Largest advance of a block's timestamp over its parent's.
pub const MAX_BLOCK_TIMESTAMP_STEP_MS: u64 = 60_000;

/// How far the timestamp of a first block may lie behind the local clock.
pub const MAX_BLOCK_PAST_DRIFT_MS: u64 = 60_000;

/// How far a block's timestamp may lie ahead of the local clock.
pub const MAX_BLOCK_FUTURE_DRIFT_MS: u64 = 10_000;

/// A proposed or finalized block.
pub struct Block {
    pub epoch: u64,
    pub committee_hash: Hash32,
    pub genesis_hash: Hash32,
    pub view: u64,
    pub height: u64,
    pub parent: Hash32,
    pub payload: Vec<u8>,
    pub proposer: NodeId,
    pub commitment_root: Hash32,
    pub app_hash: Hash32,
    pub timestamp: u64,
    pub justify: Option<Certificate>,
}

/// The contents of a block.
pub ghost struct BlockView {
    pub context: ConsensusContext,
    pub view: u64,
    pub height: u64,
    pub parent: Hash32,
    pub payload: Seq<u8>,
    pub proposer: NodeId,
    pub commitment_root: Hash32,
    pub app_hash: Hash32,
    pub timestamp: u64,
    pub justify: Option<CertificateView>,
}

impl vstd::view::View for Block {
    type V = BlockView;

    open spec fn view(&self) -> BlockView {
        BlockView {
            context: ConsensusContext {
                epoch: self.epoch,
                committee_hash: self.committee_hash,
                genesis_hash: self.genesis_hash,
            },
            view: self.view,
            height: self.height,
            parent: self.parent,
            payload: self.payload@,
            proposer: self.proposer,
            commitment_root: self.commitment_root,
            app_hash: self.app_hash,
            timestamp: self.timestamp,
            justify: option_certificate(self.justify),
        }
    }
}

/// Why a block is malformed.
#[derive(Clone, Copy, Debug, PartialEq, Eq)]
pub enum BlockError {
    /// The payload is larger than a block may hold.
    PayloadTooLarge,
    /// A block above genesis has no execution commitment.
    MissingCommitmentRoot,
    /// The timestamp is earlier than the parent's.
    BeforeParent,
    /// The timestamp is too far after the parent's.
    StepTooLarge,
    /// The timestamp is too far behind the local clock.
    TooOld,
    /// The timestamp is too far ahead of the local clock.
    TooNew,
}

/// The header that a block's identity is the digest of. The certificate that
/// justifies the block is not part of it.
pub open spec fn header_bytes(b: BlockView) -> Seq<u8> {
    seq![3u8] + context_bytes(b.context) + vstd::bytes::spec_u64_to_le_bytes(b.view)
        + vstd::bytes::spec_u64_to_le_bytes(b.height) + b.parent@ + b.proposer@ + b.commitment_root@
        + b.app_hash@ + vstd::bytes::spec_u64_to_le_bytes(b.timestamp) + b.payload
}

/// The identity of a block.
pub open spec fn block_hash(b: BlockView) -> Hash32 {
    sha256(header_bytes(b))
}

/// The first block of a context.
pub open spec fn genesis_block(context: ConsensusContext) -> BlockView {
    BlockView {
        context,
        view: 0,
        height: 0,
        parent: zero_hash(),
        payload: Seq::empty(),
        proposer: zero_hash(),
        commitment_root: zero_hash(),
        app_hash: zero_hash(),
        timestamp: 0,
        justify: None,
    }
}

/// A timestamp within one step after the parent's; the step from genesis,
/// whose timestamp is zero, is not bounded.
pub open spec fn parent_timestamp_ok(timestamp: u64, parent: u64) -> bool {
    &&& parent <= timestamp
    &&& parent > 0 ==> timestamp <= parent + MAX_BLOCK_TIMESTAMP_STEP_MS
}

/// A timestamp that a live proposal may carry; a parent timestamp of zero
/// stands for the first block, which is held to the local clock.
pub open spec fn live_timestamp_ok(timestamp: u64, parent: u64, now: u64) -> bool {
    &&& timestamp <= now + MAX_BLOCK_FUTURE_DRIFT_MS
    &&& if parent == 0 {
        now <= timestamp + MAX_BLOCK_PAST_DRIFT_MS
    } else {
        parent_timestamp_ok(timestamp, parent)
    }
}

/// A block that may travel over the network.
pub open spec fn well_formed_block(b: BlockView) -> bool {
    &&& b.payload.len() <= MAX_BLOCK_PAYLOAD_SIZE
    &&& b.height > 0 ==> b.commitment_root != zero_hash()
}

impl Block {
    /// The first block of a context.
    pub fn genesis(context: ConsensusContext) -> (r: Block)
        ensures
            r@ == genesis_block(context),
    {
        Block {
            epoch: context.epoch,
            committee_hash: context.committee_hash,
            genesis_hash: context.genesis_hash,
            view: 0,
            height: 0,
            parent: zeros(),
            payload: Vec::new(),
            proposer: zeros(),
            commitment_root: zeros(),
            app_hash: zeros(),
            timestamp: 0,
            justify: None,
        }
    }

    /// The context of the block.
    pub fn context(&self) -> (r: ConsensusContext)
        ensures
            r == self@.context,
    {
        ConsensusContext {
            epoch: self.epoch,
            committee_hash: self.committee_hash,
            genesis_hash: self.genesis_hash,
        }
    }

    /// Fails unless the block belongs to the expected context.
    pub fn validate_context(&self, expected: ConsensusContext) -> (r: Result<(), ContextMismatch>)
        ensures
            r is Ok <==> self@.context == expected,
    {
        self.context().expect(expected)
    }

    /// The identity of the block, which does not depend on its justification.
    pub fn hash(&self) -> (r: Hash32)
        ensures
            r == block_hash(self@),
    {
        let mut out: Vec<u8> = Vec::new();
        out.push(3u8);
        self.context().put(&mut out);
        put_u64(&mut out, self.view);
        put_u64(&mut out, self.height);
        put_hash(&mut out, &self.parent);
        put_hash(&mut out, &self.proposer);
        put_hash(&mut out, &self.commitment_root);
        put_hash(&mut out, &self.app_hash);
        put_u64(&mut out, self.timestamp);
        put_bytes(&mut out, &self.payload);
        assert(out@ =~= header_bytes(self@));
        sha256_digest(&out)
    }

    /// Checks the limits that hold of every block.
    pub fn validate(&self) -> (r: Result<(), BlockError>)
        ensures
            match r {
                Ok(()) => well_formed_block(self@),
                Err(e) => if self@.payload.len() > MAX_BLOCK_PAYLOAD_SIZE {
                    e == BlockError::PayloadTooLarge
                } else {
                    e == BlockError::MissingCommitmentRoot && !well_formed_block(self@)
                },
            },
    {
        if self.payload.len() > MAX_BLOCK_PAYLOAD_SIZE {
            return Err(BlockError::PayloadTooLarge);
        }
        if self.height > 0 && hash_eq(&self.commitment_root, &zeros()) {
            return Err(BlockError::MissingCommitmentRoot);
        }
        Ok(())
    }

    /// Checks the timestamp against the parent's.
    pub fn validate_parent_timestamp(&self, parent: u64) -> (r: Result<(), BlockError>)
        ensures
            match r {
                Ok(()) => parent_timestamp_ok(self.timestamp, parent),
                Err(e) => if self.timestamp < parent {
                    e == BlockError::BeforeParent
                } else {
                    e == BlockError::StepTooLarge && !parent_timestamp_ok(self.timestamp, parent)
                },
            },
    {
        if self.timestamp < parent {
            return Err(BlockError::BeforeParent);
        }
        if parent > 0 && self.timestamp - parent > MAX_BLOCK_TIMESTAMP_STEP_MS {
            return Err(BlockError::StepTooLarge);
        }
        Ok(())
    }

    /// Checks the timestamp of a live proposal against its parent's and the
    /// local clock.
    pub fn validate_live_timestamp(&self, parent: u64, now: u64) -> (r: Result<(), BlockError>)
        ensures
            r is Ok <==> live_timestamp_ok(self.timestamp, parent, now),
            r == Err::<(), BlockError>(BlockError::TooNew) <==> self.timestamp > now
                + MAX_BLOCK_FUTURE_DRIFT_MS,
            r == Err::<(), BlockError>(BlockError::TooOld) <==> self.timestamp <= now
                + MAX_BLOCK_FUTURE_DRIFT_MS && parent == 0 && now > self.timestamp
                + MAX_BLOCK_PAST_DRIFT_MS,
    {
        if self.timestamp > now && self.timestamp - now > MAX_BLOCK_FUTURE_DRIFT_MS {
            return Err(BlockError::TooNew);
        }
        if parent == 0 {
            if now > self.timestamp && now - self.timestamp > MAX_BLOCK_PAST_DRIFT_MS {
                return Err(BlockError::TooOld);
            }
            Ok(())
        } else {
            self.validate_parent_timestamp(parent)
        }
    }
}

impl Clone for Block {
    fn clone(&self) -> (r: Self)
        ensures
            r@ == self@,
    {
        Block {
            epoch: self.epoch,
            committee_hash: self.committee_hash,
            genesis_hash: self.genesis_hash,
            view: self.view,
            height: self.height,
            parent: self.parent,
            payload: copy_bytes(&self.payload),
            proposer: self.proposer,
            commitment_root: self.commitment_root,
            app_hash: self.app_hash,
            timestamp: self.timestamp,
            justify: copy_option_certificate(&self.justify),
        }
    }
}

/// Two blocks that differ in their justification alone have one identity.
pub proof fn lemma_hash_ignores_justify(a: BlockView, justify: Option<CertificateView>)
    ensures
        block_hash(BlockView { justify, ..a }) == block_hash(a),
{
    assert(header_bytes(BlockView { justify, ..a }) =~= header_bytes(a));
}

/// Blocks with the same header agree on everything but the justification.
pub proof fn lemma_header_injective(a: BlockView, b: BlockView)
    requires
        header_bytes(a) == header_bytes(b),
    ensures
        a == (BlockView { justify: a.justify, ..b }),
{
    vstd::bytes::lemma_auto_spec_u64_to_from_le_bytes();
    lemma_context_len(a.context);
    lemma_context_len(b.context);
    lemma_hash_view(a.parent, b.parent);
    lemma_hash_view(a.proposer, b.proposer);
    lemma_hash_view(a.commitment_root, b.commitment_root);
    lemma_hash_view(a.app_hash, b.app_hash);
    let a0 = seq![3u8];
    let av = vstd::bytes::spec_u64_to_le_bytes(a.view);
    let bv = vstd::bytes::spec_u64_to_le_bytes(b.view);
    let ah = vstd::bytes::spec_u64_to_le_bytes(a.height);
    let bh = vstd::bytes::spec_u64_to_le_bytes(b.height);
    let at = vstd::bytes::spec_u64_to_le_bytes(a.timestamp);
    let bt = vstd::bytes::spec_u64_to_le_bytes(b.timestamp);
    let a1 = a0 + context_bytes(a.context);
    let b1 = a0 + context_bytes(b.context);
    let a2 = a1 + av;
    let b2 = b1 + bv;
    let a3 = a2 + ah;
    let b3 = b2 + bh;
    let a4 = a3 + a.parent@;
    let b4 = b3 + b.parent@;
    let a5 = a4 + a.proposer@;
    let b5 = b4 + b.proposer@;
    let a6 = a5 + a.commitment_root@;
    let b6 = b5 + b.commitment_root@;
    let a7 = a6 + a.app_hash@;
    let b7 = b6 + b.app_hash@;
    lemma_split(a7 + at, a.payload, b7 + bt, b.payload);
    lemma_split(a7, at, b7, bt);
    lemma_split(a6, a.app_hash@, b6, b.app_hash@);
    lemma_split(a5, a.commitment_root@, b5, b.commitment_root@);
    lemma_split(a4, a.proposer@, b4, b.proposer@);
    lemma_split(a3, a.parent@, b3, b.parent@);
    lemma_split(a2, ah, b2, bh);
    lemma_split(a1, av, b1, bv);
    lemma_split(a0, context_bytes(a.context), a0, context_bytes(b.context));
    lemma_context_injective(a.context, b.context);
    assert(vstd::bytes::spec_u64_from_le_bytes(av) == a.view);
    assert(vstd::bytes::spec_u64_from_le_bytes(bv) == b.view);
    assert(vstd::bytes::spec_u64_from_le_bytes(ah) == a.height);
    assert(vstd::bytes::spec_u64_from_le_bytes(bh) == b.height);
    assert(vstd::bytes::spec_u64_from_le_bytes(at) == a.timestamp);
    assert(vstd::bytes::spec_u64_from_le_bytes(bt) == b.timestamp);
}

/// The contents of a list of blocks.
pub open spec fn block_views(blocks: Seq<Block>) -> Seq<BlockView> {
    blocks.map_values(|b: Block| b@)
}

/// The contents of an optional block.
pub open spec fn option_block(o: Option<Block>) -> Option<BlockView> {
    match o {
        Some(b) => Some(b@),
        None => None,
    }
}

/// The execution commitment of a block: the receipts of its transactions.
pub struct CommitmentV2 {
    pub receipts: Vec<Vec<u8>>,
}

impl Clone for CommitmentV2 {
    fn clone(&self) -> (r: Self)
        ensures
            crate::bytes::byte_rows(r.receipts@) == crate::bytes::byte_rows(self.receipts@),
    {
        CommitmentV2 { receipts: crate::bytes::copy_rows(&self.receipts) }
    }
}

/// The encoding of a list of receipts, each preceded by its length.
pub open spec fn receipts_bytes(receipts: Seq<Seq<u8>>) -> Seq<u8>
    decreases receipts.len(),
{
    if receipts.len() == 0 {
        seq![5u8]
    } else {
        receipts_bytes(receipts.drop_last()) + vstd::bytes::spec_u64_to_le_bytes(
            receipts.last().len() as u64,
        ) + receipts.last()
    }
}

impl CommitmentV2 {
    /// The digest that a block header carries.
    pub fn root(&self) -> (r: Hash32)
        ensures
            r == sha256(receipts_bytes(crate::bytes::byte_rows(self.receipts@))),
    {
        let ghost rows = crate::bytes::byte_rows(self.receipts@);
        let mut out: Vec<u8> = Vec::new();
        out.push(5u8);
        assert(out@ =~= receipts_bytes(rows.subrange(0, 0)));
        let mut i: usize = 0;
        while i < self.receipts.len()
            invariant
                i <= self.receipts.len(),
                rows == crate::bytes::byte_rows(self.receipts@),
                out@ == receipts_bytes(rows.subrange(0, i as int)),
            decreases self.receipts.len() - i,
        {
            put_u64(&mut out, self.receipts[i].len() as u64);
            put_bytes(&mut out, &self.receipts[i]);
            i = i + 1;
            assert(rows.subrange(0, i as int).drop_last() =~= rows.subrange(0, i - 1));
            assert(rows.subrange(0, i as int).last() == self.receipts[i - 1]@);
        }
        assert(rows.subrange(0, rows.len() as int) =~= rows);
        sha256_digest(&out)
    }
}

impl Default for CommitmentV2 {
    fn default() -> (r: Self)
        ensures
            r.receipts@.len() == 0,
    {
        CommitmentV2 { receipts: Vec::new() }
    }
}

/// A block follows its parent in time by at most a minute; the first block after
/// genesis may carry any time.
pub proof fn lemma_parent_step(timestamp: u64, parent: u64)
    ensures
        parent_timestamp_ok(timestamp, parent) <==> timestamp >= parent && (parent == 0 || timestamp
            - parent <= 60_000),
{
}

/// A live proposal is at most ten seconds ahead of the local clock. The first
/// block is at most a minute behind it; later ones follow their parent by at most
/// a minute.
pub proof fn lemma_live_time(timestamp: u64, parent: u64, now: u64)
    ensures
        live_timestamp_ok(timestamp, parent, now) <==> {
            &&& timestamp - now <= 10_000
            &&& parent == 0 ==> now - timestamp <= 60_000
            &&& parent > 0 ==> 0 <= timestamp - parent <= 60_000
        },
{
}

/// A block travels with a payload of at most ten mebibytes, and above genesis
/// only with an execution commitment.
pub proof fn lemma_block_form(b: BlockView)
    ensures
        well_formed_block(b) <==> b.payload.len() <= 10 * 1024 * 1024 && (b.height == 0
            || b.commitment_root != zero_hash()),
{
}

/// Genesis is the empty block at height and view zero without a parent, and two
/// contexts have different ones.
pub proof fn lemma_genesis(a: ConsensusContext, b: ConsensusContext)
    ensures
        genesis_block(a).context == a,
        genesis_block(a).height == 0,
        genesis_block(a).view == 0,
        genesis_block(a).timestamp == 0,
        genesis_block(a).parent == zero_hash(),
        genesis_block(a).proposer == zero_hash(),
        genesis_block(a).commitment_root == zero_hash(),
        genesis_block(a).app_hash == zero_hash(),
        genesis_block(a).payload.len() == 0,
        genesis_block(a).justify is None,
        well_formed_block(genesis_block(a)),
        header_bytes(genesis_block(a)) == header_bytes(genesis_block(b)) ==> a == b,
{
    if header_bytes(genesis_block(a)) == header_bytes(genesis_block(b)) {
        lemma_header_injective(genesis_block(a), genesis_block(b));
    }
}

/// The encoding of receipts without its first byte, read from the front: the
/// length of the first receipt, the receipt, and the rest.
proof fn lemma_receipts_front(receipts: Seq<Seq<u8>>)
    requires
        receipts.len() > 0,
    ensures
        receipts_bytes(receipts) == seq![5u8] + vstd::bytes::spec_u64_to_le_bytes(
            receipts[0].len() as u64,
        ) + receipts[0] + receipts_bytes(receipts.skip(1)).skip(1),
        receipts_bytes(receipts.skip(1)).len() >= 1,
        receipts_bytes(receipts.skip(1))[0] == 5u8,
    decreases receipts.len(),
{
    vstd::bytes::lemma_auto_spec_u64_to_from_le_bytes();
    let head = vstd::bytes::spec_u64_to_le_bytes(receipts[0].len() as u64);
    if receipts.len() == 1 {
        assert(receipts.skip(1) =~= Seq::empty());
        assert(receipts.drop_last() =~= Seq::empty());
        assert(receipts_bytes(receipts.drop_last()) == seq![5u8]);
        assert(receipts_bytes(receipts.skip(1)) == seq![5u8]);
        assert(receipts_bytes(receipts) =~= seq![5u8] + head + receipts[0] + receipts_bytes(
            receipts.skip(1),
        ).skip(1));
    } else {
        let front = receipts.drop_last();
        let last = vstd::bytes::spec_u64_to_le_bytes(receipts.last().len() as u64) + receipts.last();
        lemma_receipts_front(front);
        assert(front[0] == receipts[0]);
        assert(receipts.skip(1).drop_last() =~= front.skip(1));
        assert(receipts.skip(1).last() == receipts.last());
        let tail = receipts_bytes(front.skip(1));
        assert(receipts_bytes(receipts.skip(1)) =~= tail + last);
        assert(receipts_bytes(receipts) =~= receipts_bytes(front) + last);
        assert((tail + last).skip(1) =~= tail.skip(1) + last);
        assert(receipts_bytes(receipts) =~= seq![5u8] + head + receipts[0] + receipts_bytes(
            receipts.skip(1),
        ).skip(1));
    }
}

/// Different lists of receipts have different encodings, so that the root of an
/// execution commitment stands for exactly its receipts, in their order.
pub proof fn lemma_receipts_injective(a: Seq<Seq<u8>>, b: Seq<Seq<u8>>)
    requires
        receipts_bytes(a) == receipts_bytes(b),
        forall|i: int| 0 <= i < a.len() ==> (#[trigger] a[i]).len() <= u64::MAX,
        forall|i: int| 0 <= i < b.len() ==> (#[trigger] b[i]).len() <= u64::MAX,
    ensures
        a == b,
    decreases a.len() + b.len(),
{
    vstd::bytes::lemma_auto_spec_u64_to_from_le_bytes();
    if a.len() > 0 {
        lemma_receipts_front(a);
    }
    if b.len() > 0 {
        lemma_receipts_front(b);
    }
    let one = seq![5u8];
    if a.len() == 0 || b.len() == 0 {
        assert(receipts_bytes(a).len() > 1 || a.len() == 0);
        assert(receipts_bytes(b).len() > 1 || b.len() == 0);
        assert(a =~= b);
    } else {
        let la = vstd::bytes::spec_u64_to_le_bytes(a[0].len() as u64);
        let lb = vstd::bytes::spec_u64_to_le_bytes(b[0].len() as u64);
        let ta = receipts_bytes(a.skip(1));
        let tb = receipts_bytes(b.skip(1));
        assert(one + la + a[0] + ta.skip(1) =~= (one + la) + (a[0] + ta.skip(1)));
        assert(one + lb + b[0] + tb.skip(1) =~= (one + lb) + (b[0] + tb.skip(1)));
        lemma_split(one + la, a[0] + ta.skip(1), one + lb, b[0] + tb.skip(1));
        lemma_split(one, la, one, lb);
        assert(a[0].len() as u64 == b[0].len() as u64);
        assert(a[0].len() == b[0].len());
        lemma_split(a[0], ta.skip(1), b[0], tb.skip(1));
        assert(ta =~= one + ta.skip(1));
        assert(tb =~= one + tb.skip(1));
        assert forall|i: int| 0 <= i < a.skip(1).len() implies (#[trigger] a.skip(1)[i]).len()
            <= u64::MAX by {
            assert(a.skip(1)[i] == a[i + 1]);
        }
        assert forall|i: int| 0 <= i < b.skip(1).len() implies (#[trigger] b.skip(1)[i]).len()
            <= u64::MAX by {
            assert(b.skip(1)[i] == b[i + 1]);
        }
        lemma_receipts_injective(a.skip(1), b.skip(1));
        assert(a =~= seq![a[0]] + a.skip(1));
        assert(b =~= seq![b[0]] + b.skip(1));
    }
}

/// What the contents of a block are: its fields, under the context that it names.
pub proof fn lemma_block_contents(b: Block)
    ensures
        b@.view == b.view,
        b@.height == b.height,
        b@.parent == b.parent,
        b@.payload == b.payload@,
        b@.proposer == b.proposer,
        b@.commitment_root == b.commitment_root,
        b@.app_hash == b.app_hash,
        b@.timestamp == b.timestamp,
        b@.justify == option_certificate(b.justify),
        b@.context.epoch == b.epoch,
        b@.context.committee_hash == b.committee_hash,
        b@.context.genesis_hash == b.genesis_hash,
{
}

} // verus!
