//! Durable storage of consensus state, blocks and evidence.

use vstd::prelude::*;

use crate::bytes::{byte_rows, hash_eq, Hash32};
use crate::consensus::equivocation::{proof_views, EquivocationProof, ProofView};
use crate::consensus::recovery::RecoveredStore;
use crate::consensus::store::{
    admission, block_map, empty_store, indexed_from, lemma_pruning_keeps_roots, named_by_hash,
    BlockStore, MemoryBlockStore, StoreError, StoreView,
};
use crate::crypto::sha256;
use crate::table::{rows_map, Table};
use crate::types::block::{
    block_hash, block_views, option_block, receipts_bytes, Block, BlockView, CommitmentV2,
};
use crate::types::certificate::{
    copy_option_certificate, option_certificate, Certificate, CertificateView,
};
use crate::types::messages::{
    ConsensusState, ConsensusStateView, EpochTransitionProof, TransitionView,
};

verus! {

/// Attempts to make a write durable before the node halts.
pub const MAX_PERSIST_ATTEMPTS: u32 = 3;

/// Pause after the first failed attempt in milliseconds; it grows tenfold with
/// each further one.
pub const PERSIST_DELAY_MS: u64 = 10;

/// A node cannot go on safely and has to stop.
#[derive(Clone, Copy, Debug, PartialEq, Eq)]
pub enum Halt {
    /// A vote could not be made durable before it was cast.
    VoteNotPersisted { view: u64 },
    /// A finalized block could not be made durable.
    CommitNotPersisted { height: u64 },
    /// The cache in memory could not follow the durable journal.
    CacheMirror,
    /// The journals could not be pruned.
    Prune,
    /// The application refused a certified block.
    BlockRefused { height: u64 },
    /// The application gave no execution commitment, or another one.
    Commitment { height: u64 },
    /// The application gave no state root, or another one.
    StateRoot { height: u64 },
    /// The application did not commit a durable block.
    ApplicationCommit { height: u64 },
    /// The application did not publish a durable block.
    Notification { height: u64 },
    /// Committed evidence is malformed or of another context.
    CommittedEvidence { height: u64 },
    /// The record of committed evidence could not be removed.
    EvidenceNotDeleted { height: u64 },
    /// The application changed the validators, which is not supported.
    ValidatorUpdate { height: u64 },
    /// A detected double vote is not canonical or does not verify.
    UnverifiedEquivocation,
    /// There is no journal for evidence.
    NoJournal,
    /// Evidence could not be made durable.
    EvidenceNotPersisted,
    /// The application refused verified evidence.
    EvidenceRefused,
}

/// The pause after a failed attempt.
pub open spec fn retry_delay(attempt: u32) -> nat
    decreases attempt,
{
    if attempt == 0 {
        PERSIST_DELAY_MS as nat
    } else {
        10 * retry_delay((attempt - 1) as u32)
    }
}

/// The pause in milliseconds after a failed attempt, counted from zero.
pub fn retry_delay_ms(attempt: u32) -> (r: u64)
    requires
        attempt < MAX_PERSIST_ATTEMPTS,
    ensures
        r == retry_delay(attempt),
{
    reveal_with_fuel(retry_delay, 4);
    if attempt == 0 {
        10
    } else if attempt == 1 {
        100
    } else {
        1000
    }
}

/// The contents of an optional state.
pub open spec fn option_state(o: Option<ConsensusState>) -> Option<ConsensusStateView> {
    match o {
        Some(s) => Some(s@),
        None => None,
    }
}

/// What a node finds in its durable store when it starts: whether it can keep
/// evidence, whether a change of the epoch is staged, the consensus state, the
/// blocks, and the lengths of the serialized blocks of the two certificates.
pub struct Startup {
    pub journal_capable: bool,
    pub staged_transition: bool,
    pub state: Option<ConsensusState>,
    pub store: RecoveredStore,
    pub high_qc_bytes: usize,
    pub locked_qc_bytes: usize,
}

/// The blocks of a store, by hash.
pub type Rows = Map<Hash32, BlockView>;

/// The contents of blocks, in order.
pub type Chain = Seq<BlockView>;

/// A step of the attempts to make something durable: a write of a finalized
/// block or a consensus state failed, or the store waited for so many
/// milliseconds.
pub ghost enum Attempt {
    Failed,
    Paused(u64),
}

/// The failed attempts to write, and the pauses, oldest first.
pub type Attempts = Seq<Attempt>;

/// So many failed attempts, each with the pause that follows it.
pub open spec fn failed_attempts(n: nat) -> Attempts
    decreases n,
{
    if n == 0 {
        Seq::empty()
    } else {
        failed_attempts((n - 1) as nat).push(Attempt::Failed).push(
            Attempt::Paused(retry_delay((n - 1) as u32) as u64),
        )
    }
}

/// The recorded evidence, by the key that it is stored under: there is at most
/// one piece against a validator in a context.
pub type Records = Map<Seq<u8>, ProofView>;

/// The records once a piece of evidence was recorded: the first piece against a
/// validator in a context stays.
pub open spec fn recorded(records: Records, p: ProofView) -> Records {
    if records.contains_key(p.key_bytes()) {
        records
    } else {
        records.insert(p.key_bytes(), p)
    }
}

/// A list holds every record once.
pub open spec fn lists_records(list: Seq<ProofView>, records: Records) -> bool {
    &&& distinct_records(list)
    &&& records == records_of(list)
}

/// No two pieces of evidence have one key.
pub open spec fn distinct_records(list: Seq<ProofView>) -> bool {
    forall|i: int, j: int|
        0 <= i < list.len() && 0 <= j < list.len() && i != j ==> (#[trigger] list[i]).key_bytes() != (
        #[trigger] list[j]).key_bytes()
}

/// A piece of evidence in a list has a key.
pub open spec fn has_record(list: Seq<ProofView>, k: Seq<u8>) -> bool {
    exists|i: int| 0 <= i < list.len() && (#[trigger] list[i]).key_bytes() == k
}

/// The evidence of a list, by key.
pub open spec fn records_of(list: Seq<ProofView>) -> Records {
    Map::new(
        |k: Seq<u8>| has_record(list, k),
        |k: Seq<u8>| list[choose|i: int| 0 <= i < list.len() && (#[trigger] list[i]).key_bytes() == k],
    )
}

/// The keys of the evidence in a list.
pub open spec fn record_keys(list: Seq<ProofView>) -> Set<Seq<u8>> {
    Set::new(|k: Seq<u8>| has_record(list, k))
}

/// The first evidence against a validator in a context stays, whatever is
/// recorded later.
pub proof fn lemma_first_evidence_stays(records: Records, p: ProofView, later: ProofView)
    requires
        later.key_bytes() == p.key_bytes(),
    ensures
        recorded(recorded(records, p), later) == recorded(records, p),
        !records.contains_key(p.key_bytes()) ==> recorded(recorded(records, p), later)[p.key_bytes()]
            == p,
{
}

/// A record of a list is the piece of evidence with its key.
pub proof fn lemma_record(list: Seq<ProofView>, i: int)
    requires
        distinct_records(list),
        0 <= i < list.len(),
    ensures
        records_of(list).contains_key(list[i].key_bytes()),
        records_of(list)[list[i].key_bytes()] == list[i],
{
    let k = list[i].key_bytes();
    assert(has_record(list, k));
    let j = choose|j: int| 0 <= j < list.len() && (#[trigger] list[j]).key_bytes() == k;
    assert(list[j].key_bytes() == list[i].key_bytes());
}

/// Evidence with a new key becomes one more record.
proof fn lemma_push_record(list: Seq<ProofView>, p: ProofView)
    requires
        distinct_records(list),
        !has_record(list, p.key_bytes()),
    ensures
        distinct_records(list.push(p)),
        records_of(list.push(p)) == records_of(list).insert(p.key_bytes(), p),
{
    let all = list.push(p);
    assert forall|i: int, j: int| 0 <= i < all.len() && 0 <= j < all.len() && i != j implies (
    #[trigger] all[i]).key_bytes() != (#[trigger] all[j]).key_bytes() by {
        if i < list.len() {
            assert(all[i] == list[i]);
        }
        if j < list.len() {
            assert(all[j] == list[j]);
        }
    }
    assert forall|k: Seq<u8>| #[trigger] has_record(all, k) <==> has_record(list, k) || k
        == p.key_bytes() by {
        if has_record(list, k) {
            let i = choose|i: int| 0 <= i < list.len() && (#[trigger] list[i]).key_bytes() == k;
            assert(all[i] == list[i]);
        }
        if k == p.key_bytes() {
            assert(all[list.len() as int] == p);
        }
        if has_record(all, k) {
            let i = choose|i: int| 0 <= i < all.len() && (#[trigger] all[i]).key_bytes() == k;
            if i < list.len() {
                assert(list[i] == all[i]);
            }
        }
    }
    assert forall|k: Seq<u8>| has_record(all, k) implies #[trigger] records_of(all)[k] == records_of(
        list,
    ).insert(p.key_bytes(), p)[k] by {
        let i = choose|i: int| 0 <= i < all.len() && (#[trigger] all[i]).key_bytes() == k;
        lemma_record(all, i);
        if i < list.len() {
            assert(list[i] == all[i]);
            lemma_record(list, i);
        }
    }
    assert(records_of(all) =~= records_of(list).insert(p.key_bytes(), p));
}

/// What the admission of a block does to the blocks of a store: a block of its
/// hash is stored, the first one stays, and others are only ever dropped.
pub open spec fn journal_adds(before: Rows, after: Rows, b: BlockView) -> bool {
    let hash = block_hash(b);
    &&& after.contains_key(hash)
    &&& after[hash] == (if before.contains_key(hash) {
        before[hash]
    } else {
        b
    })
    &&& after.remove(hash).submap_of(before)
}

/// What pruning does to the blocks of a store: blocks are only ever dropped,
/// and never a root.
pub open spec fn journal_keeps(before: Rows, after: Rows, roots: Seq<Hash32>) -> bool {
    &&& after.submap_of(before)
    &&& forall|h: Hash32| #[trigger]
        roots.contains(h) && before.contains_key(h) ==> after.contains_key(h)
}

/// What a durable store records of finalized blocks beside the blocks: their
/// hashes by height, the hash of the last one, and the receipts and state roots
/// that belong to them.
pub ghost struct Ledger {
    pub by_height: Map<u64, Hash32>,
    pub head: Option<Hash32>,
    pub commitments: Map<Hash32, Seq<Seq<u8>>>,
    pub state_roots: Map<Hash32, Hash32>,
}

impl Ledger {
    /// The records once one more finalized block is made durable.
    pub open spec fn with_block(
        self,
        b: BlockView,
        commitment: Option<Seq<Seq<u8>>>,
        state_root: Option<Hash32>,
    ) -> Ledger {
        let hash = block_hash(b);
        Ledger {
            by_height: self.by_height.insert(b.height, hash),
            head: Some(hash),
            commitments: match commitment {
                Some(receipts) => self.commitments.insert(hash, receipts),
                None => self.commitments,
            },
            state_roots: match state_root {
                Some(root) => self.state_roots.insert(hash, root),
                None => self.state_roots,
            },
        }
    }

    /// The finalized blocks among some blocks, from a height on, as far as there
    /// is no gap.
    pub open spec fn finalized_from(self, rows: Rows, height: u64) -> Chain {
        indexed_from(rows, self.by_height, height as int, self.by_height.dom().len())
    }

    /// The last finalized block.
    pub open spec fn head_in(self, rows: Rows) -> Option<BlockView> {
        match self.head {
            Some(hash) => if rows.contains_key(hash) {
                Some(rows[hash])
            } else {
                None
            },
            None => None,
        }
    }
}

/// No finalized block is recorded.
pub open spec fn no_ledger() -> Ledger {
    Ledger {
        by_height: Map::empty(),
        head: None,
        commitments: Map::empty(),
        state_roots: Map::empty(),
    }
}

/// A finalized block that was made durable is what a restart finds: as the last
/// one, at its height, and with its receipts and its state root.
pub proof fn lemma_finalized_block_found(
    ledger: Ledger,
    rows: Rows,
    b: BlockView,
    receipts: Seq<Seq<u8>>,
    state_root: Hash32,
)
    requires
        ledger.by_height.dom().finite(),
    ensures
        ({
            let after = ledger.with_block(b, Some(receipts), Some(state_root));
            let blocks = rows.insert(block_hash(b), b);
            &&& after.head_in(blocks) == Some(b)
            &&& after.finalized_from(blocks, b.height).len() > 0
            &&& after.finalized_from(blocks, b.height)[0] == b
            &&& after.commitments.contains_key(block_hash(b))
            &&& after.commitments[block_hash(b)] == receipts
            &&& after.state_roots.contains_key(block_hash(b))
            &&& after.state_roots[block_hash(b)] == state_root
        }),
{
    let after = ledger.with_block(b, Some(receipts), Some(state_root));
    assert(after.by_height.dom().contains(b.height));
    assert(after.by_height.dom().len() > 0) by {
        if after.by_height.dom().len() == 0 {
            assert(after.by_height.dom() =~= Set::empty());
        }
    }
}

/// The receipts of an execution commitment.
pub open spec fn receipts_of(commitment: Option<&CommitmentV2>) -> Option<Seq<Seq<u8>>> {
    match commitment {
        Some(c) => Some(byte_rows(c.receipts@)),
        None => None,
    }
}

/// A state root as a value.
pub open spec fn root_of(state_root: Option<&Hash32>) -> Option<Hash32> {
    match state_root {
        Some(h) => Some(*h),
        None => None,
    }
}

/// A durable store.
pub trait PersistentStore {
    /// The blocks by hash.
    spec fn rows(&self) -> Rows;

    /// The consensus state that a restart finds.
    spec fn durable_state(&self) -> Option<ConsensusStateView>;

    /// The recorded evidence.
    spec fn evidence(&self) -> Records;

    /// The staged change of the validators.
    spec fn staged(&self) -> Option<TransitionView>;

    /// What is recorded of finalized blocks beside the blocks.
    spec fn ledger(&self) -> Ledger;

    /// The writes of a finalized block or a consensus state that failed, and the
    /// pauses, so far.
    spec fn attempts(&self) -> Attempts;

    /// The store is well-formed.
    spec fn wf(&self) -> bool;

    /// A store holds finitely many blocks and heights.
    proof fn lemma_rows_finite(&self)
        requires
            self.wf(),
        ensures
            self.rows().dom().finite(),
            self.ledger().by_height.dom().finite(),
    ;

    /// Blocks are stored under their own hashes.
    proof fn lemma_rows_named(&self)
        requires
            self.wf(),
        ensures
            named_by_hash(self.rows()),
    ;

    /// The block that a hash names.
    fn get(&self, hash: &Hash32) -> (r: Option<Block>)
        requires
            self.wf(),
        ensures
            option_block(r) == (if self.rows().contains_key(*hash) {
                Some(self.rows()[*hash])
            } else {
                None
            }),
    ;

    /// The consensus state that a restart finds.
    fn load_consensus_state(&self) -> (r: Result<Option<ConsensusState>, String>)
        requires
            self.wf(),
        ensures
            r matches Ok(s) ==> option_state(s) == self.durable_state(),
    ;

    /// All that a restart finds.
    fn load_startup(&self) -> (r: Result<Startup, String>)
        requires
            self.wf(),
        ensures
            r matches Ok(s) ==> {
                &&& option_state(s.state) == self.durable_state()
                &&& s.staged_transition == (self.staged() is Some)
                &&& recovers_from(s.store, self.rows(), self.ledger())
            },
    ;

    /// The finalized blocks from a height on.
    fn blocks_from_height(&self, from_height: u64) -> (r: Result<Vec<Block>, String>)
        requires
            self.wf(),
        ensures
            r matches Ok(list) ==> block_views(list@) == self.ledger().finalized_from(
                self.rows(),
                from_height,
            ),
    ;

    /// Makes a consensus state durable. A failure leaves open whether it did.
    fn save_consensus_state(&mut self, state: &ConsensusState) -> (r: Result<(), String>)
        requires
            old(self).wf(),
        ensures
            final(self).wf(),
            final(self).staged() == old(self).staged(),
            final(self).rows() == old(self).rows(),
            final(self).evidence() == old(self).evidence(),
            final(self).ledger() == old(self).ledger(),
            final(self).attempts() == (if r is Ok {
                old(self).attempts()
            } else {
                old(self).attempts().push(Attempt::Failed)
            }),
            r is Ok ==> final(self).durable_state() == Some(state@),
            r is Err ==> final(self).durable_state() == old(self).durable_state()
                || final(self).durable_state() == Some(state@),
    ;

    /// Makes a finalized block and the matching consensus state durable, in
    /// one step. A failure leaves open whether it did, but never half of it.
    fn commit_block_with_commitment_and_state_root(
        &mut self,
        block: &Block,
        state: &ConsensusState,
        commitment: Option<&CommitmentV2>,
        state_root: Option<&Hash32>,
    ) -> (r: Result<(), String>)
        requires
            old(self).wf(),
        ensures
            final(self).wf(),
            final(self).staged() == old(self).staged(),
            final(self).evidence() == old(self).evidence(),
            final(self).attempts() == (if r is Ok {
                old(self).attempts()
            } else {
                old(self).attempts().push(Attempt::Failed)
            }),
            ({
                let kept = final(self).durable_state() == old(self).durable_state()
                    && final(self).rows() == old(self).rows() && final(self).ledger()
                    == old(self).ledger();
                let recorded = final(self).durable_state() == Some(state@) && final(self).rows()
                    == old(self).rows().insert(block_hash(block@), block@)
                    && final(self).ledger() == old(self).ledger().with_block(
                    block@,
                    receipts_of(commitment),
                    root_of(state_root),
                );
                match r {
                    Ok(_) => recorded,
                    Err(_) => kept || recorded,
                }
            }),
    ;

    /// Drops unfinalized branches that nothing depends on.
    fn prune_speculative(
        &mut self,
        protected_roots: &Vec<Hash32>,
        max_blocks: usize,
        max_bytes: usize,
    ) -> (r: Result<(), String>)
        requires
            old(self).wf(),
        ensures
            final(self).wf(),
            final(self).ledger() == old(self).ledger(),
            final(self).attempts() == old(self).attempts(),
            final(self).staged() == old(self).staged(),
            final(self).durable_state() == old(self).durable_state(),
            final(self).evidence() == old(self).evidence(),
            journal_keeps(old(self).rows(), final(self).rows(), protected_roots@),
    ;

    /// Admits a speculative block to the durable journal.
    fn admit_speculative_with_rolling_victim(
        &mut self,
        block: &Block,
        block_bytes: usize,
        protected_roots: &Vec<Hash32>,
        max_blocks: usize,
        max_bytes: usize,
    ) -> (r: Result<(), String>)
        requires
            old(self).wf(),
        ensures
            final(self).wf(),
            final(self).ledger() == old(self).ledger(),
            final(self).attempts() == old(self).attempts(),
            final(self).staged() == old(self).staged(),
            final(self).durable_state() == old(self).durable_state(),
            final(self).evidence() == old(self).evidence(),
            r is Ok ==> journal_adds(old(self).rows(), final(self).rows(), block@),
            r is Err ==> final(self).rows() == old(self).rows(),
    ;

    /// Records evidence of a double vote, unless there is evidence against the
    /// validator in its context already.
    fn save_equivocation_proof(&mut self, evidence: &EquivocationProof) -> (r: Result<(), String>)
        requires
            old(self).wf(),
        ensures
            final(self).wf(),
            final(self).ledger() == old(self).ledger(),
            final(self).attempts() == old(self).attempts(),
            final(self).staged() == old(self).staged(),
            final(self).rows() == old(self).rows(),
            final(self).durable_state() == old(self).durable_state(),
            r is Ok ==> final(self).evidence() == recorded(old(self).evidence(), evidence@),
            r is Err ==> final(self).evidence() == old(self).evidence() || final(self).evidence()
                == recorded(old(self).evidence(), evidence@),
    ;

    /// The recorded evidence.
    fn load_equivocation_proofs(&self) -> (r: Result<Vec<EquivocationProof>, String>)
        requires
            self.wf(),
        ensures
            r matches Ok(list) ==> lists_records(proof_views(list@), self.evidence()),
    ;

    /// Removes recorded evidence.
    fn delete_equivocation_proof(&mut self, evidence: &EquivocationProof) -> (r: Result<(), String>)
        requires
            old(self).wf(),
        ensures
            final(self).wf(),
            final(self).ledger() == old(self).ledger(),
            final(self).attempts() == old(self).attempts(),
            final(self).staged() == old(self).staged(),
            final(self).rows() == old(self).rows(),
            final(self).durable_state() == old(self).durable_state(),
            r is Ok ==> final(self).evidence() == old(self).evidence().remove(evidence@.key_bytes()),
            r is Err ==> final(self).evidence().submap_of(old(self).evidence()),
    ;

    /// Stages a change of the validators.
    fn save_epoch_transition_proof(&mut self, change: &EpochTransitionProof) -> (r: Result<(), String>)
        requires
            old(self).wf(),
        ensures
            final(self).wf(),
            final(self).ledger() == old(self).ledger(),
            final(self).attempts() == old(self).attempts(),
            final(self).rows() == old(self).rows(),
            final(self).durable_state() == old(self).durable_state(),
            final(self).evidence() == old(self).evidence(),
            r is Ok ==> final(self).staged() == Some(change@),
    ;

    /// Waits before a write is tried again.
    fn pause(&mut self, delay_ms: u64)
        requires
            old(self).wf(),
        ensures
            final(self).wf(),
            final(self).ledger() == old(self).ledger(),
            final(self).attempts() == old(self).attempts().push(Attempt::Paused(delay_ms)),
            final(self).staged() == old(self).staged(),
            final(self).rows() == old(self).rows(),
            final(self).durable_state() == old(self).durable_state(),
            final(self).evidence() == old(self).evidence(),
    ;
}

impl Clone for ConsensusState {
    fn clone(&self) -> (r: Self)
        ensures
            r@ == self@,
    {
        let mut voted_views: Vec<u64> = Vec::new();
        let mut i: usize = 0;
        while i < self.voted_views.len()
            invariant
                i <= self.voted_views.len(),
                voted_views@ == self.voted_views@.take(i as int),
            decreases self.voted_views.len() - i,
        {
            voted_views.push(self.voted_views[i]);
            i = i + 1;
            assert(voted_views@ =~= self.voted_views@.take(i as int));
        }
        assert(voted_views@ =~= self.voted_views@);
        ConsensusState {
            epoch: self.epoch,
            committee_hash: self.committee_hash,
            genesis_hash: self.genesis_hash,
            high_qc: copy_option_certificate(&self.high_qc),
            locked_qc: copy_option_certificate(&self.locked_qc),
            voted_views,
            current_view: self.current_view,
            committed_height: self.committed_height,
            committed_hash: self.committed_hash,
            consecutive_timeouts: self.consecutive_timeouts,
            vc_sent_for_view: self.vc_sent_for_view,
        }
    }
}

/// Why a finalized block is not recorded.
#[derive(Clone, Copy, Debug, PartialEq, Eq)]
pub enum RecordError {
    /// A block above genesis comes without an execution commitment.
    NoCommitment,
    /// The execution commitment is not the one in the header.
    CommitmentRoot,
    /// A block above genesis comes without a state root.
    NoStateRoot,
    /// The state root is not the one in the header.
    StateRoot,
}

impl RecordError {
    /// The text of the error.
    pub fn to_string(&self) -> (r: String)
        ensures
            r@ == (match *self {
                RecordError::NoCommitment => "finalized block is missing its execution commitment"@,
                RecordError::CommitmentRoot => {
                    "execution commitment does not match the authenticated commitment root"@
                },
                RecordError::NoStateRoot => "finalized block is missing its state root"@,
                RecordError::StateRoot => {
                    "state root does not match the authenticated block app hash"@
                },
            }),
    {
        match self {
            RecordError::NoCommitment => {
                "finalized block is missing its execution commitment".to_string()
            },
            RecordError::CommitmentRoot => {
                "execution commitment does not match the authenticated commitment root".to_string()
            },
            RecordError::NoStateRoot => "finalized block is missing its state root".to_string(),
            RecordError::StateRoot => {
                "state root does not match the authenticated block app hash".to_string()
            },
        }
    }
}

/// Why a finalized block is not recorded. Genesis alone may come without an
/// execution commitment and a state root.
pub open spec fn record_fault(
    b: BlockView,
    commitment: Option<&CommitmentV2>,
    state_root: Option<&Hash32>,
) -> Option<RecordError> {
    if commitment is None && b.height > 0 {
        Some(RecordError::NoCommitment)
    } else if commitment is Some && sha256(
        receipts_bytes(byte_rows(commitment->Some_0.receipts@)),
    ) != b.commitment_root {
        Some(RecordError::CommitmentRoot)
    } else if state_root is None && b.height > 0 {
        Some(RecordError::NoStateRoot)
    } else if state_root is Some && *state_root->Some_0 != b.app_hash {
        Some(RecordError::StateRoot)
    } else {
        None
    }
}

/// Checks that a finalized block may be recorded.
pub fn check_record(block: &Block, commitment: Option<&CommitmentV2>, state_root: Option<&Hash32>) -> (r:
    Result<(), RecordError>)
    ensures
        match r {
            Ok(()) => record_fault(block@, commitment, state_root) is None,
            Err(e) => record_fault(block@, commitment, state_root) == Some(e),
        },
{
    match commitment {
        Some(c) => {
            if !hash_eq(&c.root(), &block.commitment_root) {
                return Err(RecordError::CommitmentRoot);
            }
        },
        None => {
            if block.height > 0 {
                return Err(RecordError::NoCommitment);
            }
        },
    }
    match state_root {
        Some(h) => {
            if !hash_eq(h, &block.app_hash) {
                return Err(RecordError::StateRoot);
            }
        },
        None => {
            if block.height > 0 {
                return Err(RecordError::NoStateRoot);
            }
        },
    }
    Ok(())
}

/// The recorded length of the block of a certificate, or zero.
pub open spec fn journal_bytes_of(s: StoreView, qc: Option<CertificateView>) -> usize {
    match qc {
        Some(c) => if s.is_speculative(c.block_hash) {
            rows_map(s.speculative)[c.block_hash]
        } else {
            0
        },
        None => 0,
    }
}

/// What a restart finds in a store: its head, all its blocks, and the finalized
/// ones in order.
pub open spec fn recovers_from(r: RecoveredStore, rows: Rows, ledger: Ledger) -> bool {
    &&& r.archive.wf()
    &&& block_map(r.archive.map()) == rows
    &&& block_views(r.blocks@) == ledger.finalized_from(rows, 0)
    &&& option_block(r.committed_head) == ledger.head_in(rows)
    &&& r.committed_height == (match ledger.head_in(rows) {
        Some(b) => Some(b.height),
        None => None,
    })
}

/// A store that keeps its records in memory.
pub struct MemoryJournal {
    blocks: MemoryBlockStore,
    commitments: Table<Hash32, CommitmentV2>,
    state_roots: Table<Hash32, Hash32>,
    state: Option<ConsensusState>,
    evidence: Vec<EquivocationProof>,
    transition: Option<EpochTransitionProof>,
    attempts: Ghost<Attempts>,
}

impl MemoryJournal {
    /// A store without records.
    pub fn new() -> (r: Self)
        ensures
            r.wf(),
            r.rows() == Map::<Hash32, BlockView>::empty(),
            r.durable_state() is None,
            r.evidence() == Map::<Seq<u8>, ProofView>::empty(),
            r.store() == empty_store(),
            r.staged() is None,
            r.ledger() == no_ledger(),
            r.attempts().len() == 0,
    {
        let r = MemoryJournal {
            blocks: MemoryBlockStore::new(),
            commitments: Table::new(),
            state_roots: Table::new(),
            state: None,
            evidence: Vec::new(),
            transition: None,
            attempts: Ghost(Seq::empty()),
        };
        assert(r.evidence() =~= Map::<Seq<u8>, ProofView>::empty());
        assert(r.ledger().commitments =~= Map::<Hash32, Seq<Seq<u8>>>::empty());
        r
    }

    /// The stored blocks.
    pub closed spec fn store(self) -> StoreView {
        self.blocks.model()
    }

    /// The recorded execution commitment of a block.
    pub fn load_commitment(&self, hash: &Hash32) -> (r: Option<CommitmentV2>)
        requires
            self.wf(),
        ensures
            match r {
                Some(c) => self.ledger().commitments.contains_key(*hash)
                    && self.ledger().commitments[*hash] == byte_rows(c.receipts@),
                None => !self.ledger().commitments.contains_key(*hash),
            },
    {
        match self.commitments.get(hash) {
            Some(c) => Some(c.clone()),
            None => None,
        }
    }

    /// The recorded state root of a block.
    pub fn load_state_root(&self, hash: &Hash32) -> (r: Option<Hash32>)
        requires
            self.wf(),
        ensures
            match r {
                Some(h) => self.ledger().state_roots.contains_key(*hash)
                    && self.ledger().state_roots[*hash] == h,
                None => !self.ledger().state_roots.contains_key(*hash),
            },
    {
        match self.state_roots.get(hash) {
            Some(h) => Some(*h),
            None => None,
        }
    }

    /// The recorded length of the block of a certificate, or zero.
    fn certified_bytes(&self, qc: &Option<Certificate>) -> (r: usize)
        requires
            self.wf(),
        ensures
            r == journal_bytes_of(self.store(), option_certificate(*qc)),
    {
        match qc {
            Some(c) => self.blocks.row_bytes(&c.block_hash),
            None => 0,
        }
    }

    /// Whether a change of the validators was staged.
    pub fn has_staged_transition(&self) -> (r: bool)
        ensures
            r == (self.staged() is Some),
    {
        self.transition.is_some()
    }
}

impl PersistentStore for MemoryJournal {
    closed spec fn rows(&self) -> Rows {
        self.blocks.model().blocks
    }

    closed spec fn durable_state(&self) -> Option<ConsensusStateView> {
        option_state(self.state)
    }

    closed spec fn evidence(&self) -> Records {
        records_of(proof_views(self.evidence@))
    }

    closed spec fn staged(&self) -> Option<TransitionView> {
        match self.transition {
            Some(c) => Some(c@),
            None => None,
        }
    }

    closed spec fn ledger(&self) -> Ledger {
        Ledger {
            by_height: self.blocks.model().by_height,
            head: self.blocks.model().committed,
            commitments: self.commitments.map().map_values(
                |c: CommitmentV2| byte_rows(c.receipts@),
            ),
            state_roots: self.state_roots.map(),
        }
    }

    closed spec fn attempts(&self) -> Attempts {
        self.attempts@
    }

    closed spec fn wf(&self) -> bool {
        &&& self.blocks.ok()
        &&& self.commitments.wf()
        &&& self.state_roots.wf()
        &&& distinct_records(proof_views(self.evidence@))
    }

    proof fn lemma_rows_finite(&self) {
        self.blocks.lemma_finite();
        self.blocks.lemma_heights_finite();
    }

    proof fn lemma_rows_named(&self) {
        self.blocks.lemma_named();
    }

    fn get(&self, hash: &Hash32) -> (r: Option<Block>) {
        self.blocks.get(hash)
    }

    fn load_consensus_state(&self) -> (r: Result<Option<ConsensusState>, String>)
        ensures
            r is Ok,
    {
        match &self.state {
            Some(s) => Ok(Some(s.clone())),
            None => Ok(None),
        }
    }

    fn load_startup(&self) -> (r: Result<Startup, String>)
        ensures
            r matches Ok(s) && {
                &&& s.journal_capable
                &&& s.high_qc_bytes == (match self.durable_state() {
                    Some(d) => journal_bytes_of(self.store(), d.high_qc),
                    None => 0,
                })
                &&& s.locked_qc_bytes == (match self.durable_state() {
                    Some(d) => journal_bytes_of(self.store(), d.locked_qc),
                    None => 0,
                })
            },
    {
        let state = match &self.state {
            Some(s) => Some(s.clone()),
            None => None,
        };
        let high_qc_bytes: usize = match &state {
            Some(s) => self.certified_bytes(&s.high_qc),
            None => 0,
        };
        let locked_qc_bytes: usize = match &state {
            Some(s) => self.certified_bytes(&s.locked_qc),
            None => 0,
        };
        let committed_head = self.blocks.get_committed_head();
        let committed_height = match &committed_head {
            Some(b) => Some(b.height),
            None => None,
        };
        Ok(
            Startup {
                journal_capable: true,
                staged_transition: self.transition.is_some(),
                state,
                store: RecoveredStore {
                    blocks: self.blocks.blocks_from(0),
                    committed_head,
                    committed_height,
                    archive: self.blocks.copy_blocks(),
                },
                high_qc_bytes,
                locked_qc_bytes,
            },
        )
    }

    fn blocks_from_height(&self, from_height: u64) -> (r: Result<Vec<Block>, String>)
        ensures
            r is Ok,
    {
        Ok(self.blocks.blocks_from(from_height))
    }

    fn save_consensus_state(&mut self, state: &ConsensusState) -> (r: Result<(), String>)
        ensures
            r is Ok,
            final(self).store() == old(self).store(),
    {
        self.state = Some(state.clone());
        Ok(())
    }

    fn commit_block_with_commitment_and_state_root(
        &mut self,
        block: &Block,
        state: &ConsensusState,
        commitment: Option<&CommitmentV2>,
        state_root: Option<&Hash32>,
    ) -> (r: Result<(), String>)
        ensures
            match record_fault(block@, commitment, state_root) {
                Some(_) => {
                    &&& r is Err
                    &&& final(self).store() == old(self).store()
                    &&& final(self).rows() == old(self).rows()
                    &&& final(self).durable_state() == old(self).durable_state()
                    &&& final(self).ledger() == old(self).ledger()
                },
                None => {
                    &&& r is Ok
                    &&& final(self).store() == old(self).store().saved(block@).with_committed(
                        block_hash(block@),
                    )
                },
            },
    {
        let ghost before = self.ledger();
        if let Err(e) = check_record(block, commitment, state_root) {
            proof {
                self.attempts@ = self.attempts@.push(Attempt::Failed);
            }
            return Err(e.to_string());
        }
        let hash = block.hash();
        if let Some(c) = commitment {
            self.commitments.put(hash, c.clone());
        }
        if let Some(h) = state_root {
            self.state_roots.put(hash, *h);
        }
        self.blocks.save(block);
        self.blocks.set_committed(&hash);
        self.state = Some(state.clone());
        proof {
            let after = before.with_block(block@, receipts_of(commitment), root_of(state_root));
            assert(self.ledger().commitments =~= after.commitments);
            assert(self.ledger().state_roots =~= after.state_roots);
            assert(self.ledger().by_height =~= after.by_height);
        }
        Ok(())
    }

    fn prune_speculative(
        &mut self,
        protected_roots: &Vec<Hash32>,
        max_blocks: usize,
        max_bytes: usize,
    ) -> (r: Result<(), String>)
        ensures
            exists|order: Seq<Hash32>|
                {
                    &&& #[trigger] old(self).store().is_pruning_order(protected_roots@, order)
                    &&& match old(self).store().pruned(
                        protected_roots@,
                        order,
                        max_blocks,
                        max_bytes,
                    ) {
                        Ok(s) => r is Ok && final(self).store() == s,
                        Err(_) => r is Err && final(self).store() == old(self).store(),
                    }
                },
    {
        let ghost before = self.store();
        let pruned = self.blocks.prune_speculative(protected_roots, max_blocks, max_bytes);
        proof {
            let order = choose|order: Seq<Hash32>|
                {
                    &&& #[trigger] before.is_pruning_order(protected_roots@, order)
                    &&& match before.pruned(protected_roots@, order, max_blocks, max_bytes) {
                        Ok(s) => pruned is Ok && self.store() == s,
                        Err(_) => pruned is Err && self.store() == before,
                    }
                };
            if pruned is Ok {
                lemma_pruning_keeps_roots(before, protected_roots@, order, max_blocks, max_bytes);
            }
        }
        match pruned {
            Ok(()) => Ok(()),
            Err(_) => Err("speculative journal cannot be pruned".to_string()),
        }
    }

    fn admit_speculative_with_rolling_victim(
        &mut self,
        block: &Block,
        block_bytes: usize,
        protected_roots: &Vec<Hash32>,
        max_blocks: usize,
        max_bytes: usize,
    ) -> (r: Result<(), String>)
        ensures
            exists|outcome: Result<(), StoreError>|
                {
                    &&& r is Ok <==> outcome is Ok
                    &&& #[trigger] admission(
                        old(self).store(),
                        final(self).store(),
                        outcome,
                        block@,
                        block_bytes,
                        protected_roots@,
                        max_blocks,
                        max_bytes,
                    )
                },
    {
        let ghost before = self.store();
        let outcome = self.blocks.admit_speculative_with_rolling_victim(
            block,
            block_bytes,
            protected_roots,
            max_blocks,
            max_bytes,
        );
        assert(admission(
            before,
            self.store(),
            outcome,
            block@,
            block_bytes,
            protected_roots@,
            max_blocks,
            max_bytes,
        ));
        match outcome {
            Ok(()) => Ok(()),
            Err(_) => Err("speculative journal has no room".to_string()),
        }
    }

    fn save_equivocation_proof(&mut self, evidence: &EquivocationProof) -> (r: Result<(), String>)
        ensures
            r is Ok,
            final(self).store() == old(self).store(),
    {
        let key = evidence.journal_key();
        let ghost list = proof_views(self.evidence@);
        let mut i: usize = 0;
        while i < self.evidence.len()
            invariant
                i <= self.evidence.len(),
                *self == *old(self),
                self.wf(),
                list == proof_views(self.evidence@),
                key@ == evidence@.key_bytes(),
                forall|k: int| 0 <= k < i ==> (#[trigger] list[k]).key_bytes() != key@,
            decreases self.evidence.len() - i,
        {
            assert(list[i as int] == self.evidence@[i as int]@);
            if crate::bytes::bytes_eq(&self.evidence[i].journal_key(), &key) {
                assert(has_record(list, key@));
                return Ok(());
            }
            i = i + 1;
        }
        proof {
            assert(!has_record(list, key@));
            lemma_push_record(list, evidence@);
        }
        self.evidence.push(evidence.clone());
        assert(proof_views(self.evidence@) =~= list.push(evidence@));
        Ok(())
    }

    fn load_equivocation_proofs(&self) -> (r: Result<Vec<EquivocationProof>, String>)
        ensures
            r is Ok,
    {
        let ghost all = proof_views(self.evidence@);
        let mut list: Vec<EquivocationProof> = Vec::new();
        let mut i: usize = 0;
        assert(proof_views(list@) =~= all.take(0));
        while i < self.evidence.len()
            invariant
                i <= self.evidence.len(),
                all == proof_views(self.evidence@),
                proof_views(list@) == all.take(i as int),
            decreases self.evidence.len() - i,
        {
            let ghost part = proof_views(list@);
            list.push(self.evidence[i].clone());
            proof {
                assert(all[i as int] == self.evidence@[i as int]@);
                assert(proof_views(list@) =~= part.push(all[i as int]));
                assert(all.take(i + 1) =~= part.push(all[i as int]));
            }
            i = i + 1;
        }
        assert(all.take(i as int) =~= all);
        Ok(list)
    }

    fn delete_equivocation_proof(&mut self, evidence: &EquivocationProof) -> (r: Result<(), String>)
        ensures
            r is Ok,
            final(self).store() == old(self).store(),
    {
        let key = evidence.journal_key();
        let ghost all = proof_views(self.evidence@);
        let mut kept: Vec<EquivocationProof> = Vec::new();
        let mut i: usize = 0;
        proof {
            assert(proof_views(kept@) =~= Seq::empty());
            assert(records_of(proof_views(kept@)) =~= records_of(all.take(0)).remove(key@));
        }
        while i < self.evidence.len()
            invariant
                i <= self.evidence.len(),
                *self == *old(self),
                all == proof_views(self.evidence@),
                distinct_records(all),
                distinct_records(proof_views(kept@)),
                records_of(proof_views(kept@)) == records_of(all.take(i as int)).remove(key@),
            decreases self.evidence.len() - i,
        {
            let ghost part = all.take(i as int);
            let ghost p = all[i as int];
            let ghost left = proof_views(kept@);
            proof {
                assert(p == self.evidence@[i as int]@);
                assert(all.take(i + 1) =~= part.push(p));
                assert forall|a: int| 0 <= a < part.len() implies (#[trigger] part[a]).key_bytes()
                    != p.key_bytes() by {
                    assert(part[a] == all[a]);
                    assert(all[a].key_bytes() != all[i as int].key_bytes());
                }
                assert forall|a: int, b: int|
                    0 <= a < part.len() && 0 <= b < part.len() && a != b implies (
                #[trigger] part[a]).key_bytes() != (#[trigger] part[b]).key_bytes() by {
                    assert(part[a] == all[a] && part[b] == all[b]);
                }
                lemma_push_record(part, p);
            }
            if !crate::bytes::bytes_eq(&self.evidence[i].journal_key(), &key) {
                proof {
                    assert(!records_of(part).contains_key(p.key_bytes()));
                    assert(!records_of(left).contains_key(p.key_bytes()));
                    lemma_push_record(left, p);
                }
                kept.push(self.evidence[i].clone());
                proof {
                    assert(proof_views(kept@) =~= left.push(p));
                    assert(records_of(proof_views(kept@)) =~= records_of(all.take(i + 1)).remove(
                        key@,
                    ));
                }
            } else {
                assert(records_of(left) =~= records_of(all.take(i + 1)).remove(key@));
            }
            i = i + 1;
        }
        assert(all.take(i as int) =~= all);
        self.evidence = kept;
        Ok(())
    }

    fn save_epoch_transition_proof(&mut self, change: &EpochTransitionProof) -> (r: Result<(), String>)
        ensures
            r is Ok,
            final(self).store() == old(self).store(),
    {
        self.transition = Some(change.clone());
        Ok(())
    }

    fn pause(&mut self, delay_ms: u64)
        ensures
            final(self).store() == old(self).store(),
    {
        proof {
            self.attempts@ = self.attempts@.push(Attempt::Paused(delay_ms));
        }
    }
}

/// After the attempts fail the pauses are ten, a hundred and a thousand
/// milliseconds.
pub proof fn lemma_pauses(n: nat)
    ensures
        retry_delay(0) == 10,
        retry_delay(1) == 100,
        retry_delay(2) == 1000,
        MAX_PERSIST_ATTEMPTS == 3,
        failed_attempts(0).len() == 0,
        failed_attempts(n + 1).len() == failed_attempts(n).len() + 2,
        failed_attempts(n + 1).drop_last().drop_last() == failed_attempts(n),
        failed_attempts(n + 1)[failed_attempts(n).len() as int] is Failed,
        failed_attempts(n + 1).last() is Paused,
        failed_attempts(1).last() == Attempt::Paused(10),
        failed_attempts(2).last() == Attempt::Paused(100),
        failed_attempts(3).last() == Attempt::Paused(1000),
{
    reveal_with_fuel(retry_delay, 4);
    reveal_with_fuel(failed_attempts, 4);
    assert(failed_attempts(n + 1).drop_last().drop_last() =~= failed_attempts(n));
}

/// A finalized block is recorded exactly with the execution commitment and the
/// state root that its header names; genesis alone may come without them.
pub proof fn lemma_recorded_with_its_roots(
    b: BlockView,
    commitment: Option<&CommitmentV2>,
    state_root: Option<&Hash32>,
)
    ensures
        record_fault(b, commitment, state_root) is None <==> {
            &&& match commitment {
                Some(c) => sha256(receipts_bytes(byte_rows(c.receipts@))) == b.commitment_root,
                None => b.height == 0,
            }
            &&& match state_root {
                Some(h) => *h == b.app_hash,
                None => b.height == 0,
            }
        },
{
}

/// One more finalized block leaves what is recorded of all others as it is.
pub proof fn lemma_other_records_kept(
    ledger: Ledger,
    b: BlockView,
    commitment: Option<Seq<Seq<u8>>>,
    state_root: Option<Hash32>,
    h: Hash32,
    n: u64,
)
    ensures
        ({
            let after = ledger.with_block(b, commitment, state_root);
            &&& after.head == Some(block_hash(b))
            &&& after.by_height.contains_key(b.height) && after.by_height[b.height] == block_hash(b)
            &&& n != b.height ==> (after.by_height.contains_key(n) <==> ledger.by_height.contains_key(n))
                && after.by_height[n] == ledger.by_height[n]
            &&& h != block_hash(b) ==> {
                &&& after.commitments.contains_key(h) <==> ledger.commitments.contains_key(h)
                &&& after.commitments[h] == ledger.commitments[h]
                &&& after.state_roots.contains_key(h) <==> ledger.state_roots.contains_key(h)
                &&& after.state_roots[h] == ledger.state_roots[h]
            }
        }),
{
}

/// A record of evidence is the first one of its validator in its context; later
/// ones of that validator change nothing, and those of others stay.
pub proof fn lemma_first_record_stays(records: Records, p: ProofView, q: ProofView)
    ensures
        records.contains_key(p.key_bytes()) ==> recorded(records, p) == records,
        !records.contains_key(p.key_bytes()) ==> recorded(records, p)[p.key_bytes()] == p,
        recorded(records, p).contains_key(p.key_bytes()),
        q.key_bytes() != p.key_bytes() ==> (recorded(records, p).contains_key(q.key_bytes())
            <==> records.contains_key(q.key_bytes())) && recorded(records, p)[q.key_bytes()]
            == records[q.key_bytes()],
{
}

/// An admitted block is stored, unless another body of its hash was, which then stays; no
/// other block comes or changes.
pub proof fn lemma_journal_added(before: Rows, after: Rows, b: BlockView, h: Hash32)
    requires
        journal_adds(before, after, b),
    ensures
        after.contains_key(block_hash(b)),
        before.contains_key(block_hash(b)) ==> after[block_hash(b)] == before[block_hash(b)],
        !before.contains_key(block_hash(b)) ==> after[block_hash(b)] == b,
        h != block_hash(b) && after.contains_key(h) ==> before.contains_key(h) && after[h]
            == before[h],
{
    if h != block_hash(b) && after.contains_key(h) {
        assert(after.remove(block_hash(b)).dom().contains(h));
    }
}

/// Pruning drops blocks but no root, and brings none.
pub proof fn lemma_journal_pruned(before: Rows, after: Rows, roots: Seq<Hash32>, h: Hash32)
    requires
        journal_keeps(before, after, roots),
    ensures
        after.contains_key(h) ==> before.contains_key(h) && after[h] == before[h],
        before.contains_key(h) && roots.contains(h) ==> after.contains_key(h),
{
    if after.contains_key(h) {
        assert(after.dom().contains(h));
    }
}

/// What a restart finds: the last finalized block and its height, all blocks by hash, and
/// the finalized ones from genesis on.
pub proof fn lemma_restart_finds(r: RecoveredStore, rows: Rows, ledger: Ledger, h: Hash32)
    requires
        recovers_from(r, rows, ledger),
    ensures
        (ledger.head matches Some(x) && rows.contains_key(x)) ==> option_block(r.committed_head)
            == Some(rows[ledger.head->Some_0]) && r.committed_height == Some(
            rows[ledger.head->Some_0].height,
        ),
        ledger.head is None ==> r.committed_head is None && r.committed_height is None,
        block_map(r.archive.map()).contains_key(h) <==> rows.contains_key(h),
        rows.contains_key(h) ==> block_map(r.archive.map())[h] == rows[h],
        block_views(r.blocks@) == ledger.finalized_from(rows, 0),
{
}

/// The recorded length of the block of a certificate is that of its row, and zero without
/// one.
pub proof fn lemma_journal_bytes(s: StoreView, qc: CertificateView, i: int)
    requires
        crate::table::distinct_keys(s.speculative),
    ensures
        0 <= i < s.speculative.len() && s.speculative[i].0 == qc.block_hash ==> journal_bytes_of(
            s,
            Some(qc),
        ) == s.speculative[i].1,
        !s.is_speculative(qc.block_hash) ==> journal_bytes_of(s, Some(qc)) == 0,
        journal_bytes_of(s, None) == 0,
{
    if 0 <= i < s.speculative.len() && s.speculative[i].0 == qc.block_hash {
        crate::table::lemma_row(s.speculative, i);
    }
}

/// A list of records holds each record once, under its key.
pub proof fn lemma_records_listed(list: Seq<ProofView>, records: Records, i: int, k: Seq<u8>)
    requires
        lists_records(list, records),
    ensures
        0 <= i < list.len() ==> records.contains_key(list[i].key_bytes()) && records[list[i].key_bytes()]
            == list[i],
        records.contains_key(k) ==> exists|j: int|
            0 <= j < list.len() && (#[trigger] list[j]).key_bytes() == k && list[j] == records[k],
{
    if 0 <= i < list.len() {
        lemma_record(list, i);
    }
    if records.contains_key(k) {
        let j = choose|j: int| 0 <= j < list.len() && (#[trigger] list[j]).key_bytes() == k;
        lemma_record(list, j);
    }
}

} // verus!
