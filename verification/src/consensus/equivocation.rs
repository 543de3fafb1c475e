//! Detection of validators that vote for two blocks in one view.

use vstd::prelude::*;

use crate::bytes::{
    copy_bytes, hash_before, hash_eq, hash_less, insert_hash, lemma_hash_order_total,
    lemma_hash_view, lemma_split, put_hash, Hash32, NodeId,
};
use crate::table::{distinct_keys, has_key, keys_from, row_of, rows_map, Key, Table, ViewKey};
use crate::types::context::ConsensusContext;
use crate::types::vote::{Vote, VoteView};

verus! {

/// Length of the signatures that a proof carries.
pub const EQUIVOCATION_SIGNATURE_BYTES: usize = 96;

/// Version byte of the key that proofs are stored under.
pub const EQUIVOCATION_JOURNAL_KEY_VERSION: u8 = 1;

/// How many views detected equivocations outlive the votes.
pub const EVIDENCE_RETENTION_VIEWS: u64 = 1000;

/// What a vote is known under: its context, view and voter.
#[derive(Clone, Copy)]
pub struct VoterKey {
    pub context: ConsensusContext,
    pub view: u64,
    pub voter: NodeId,
}

impl Key for VoterKey {
    fn same(&self, other: &Self) -> (r: bool) {
        self.context.same_as(&other.context) && self.view == other.view && hash_eq(
            &self.voter,
            &other.voter,
        )
    }
}

impl ViewKey for VoterKey {
    open spec fn at(self) -> u64 {
        self.view
    }

    fn view_number(&self) -> (r: u64) {
        self.view
    }
}

/// What is kept of a vote.
pub struct VoteRecord {
    pub block_hash: Hash32,
    pub app_hash: Hash32,
    pub signature: Vec<u8>,
}

/// The contents of a kept vote.
pub ghost struct RecordView {
    pub block_hash: Hash32,
    pub app_hash: Hash32,
    pub signature: Seq<u8>,
}

impl vstd::view::View for VoteRecord {
    type V = RecordView;

    open spec fn view(&self) -> RecordView {
        RecordView {
            block_hash: self.block_hash,
            app_hash: self.app_hash,
            signature: self.signature@,
        }
    }
}

/// Evidence that a validator voted for two blocks in one view.
pub struct EquivocationProof {
    pub context: ConsensusContext,
    pub offender: NodeId,
    pub view: u64,
    pub hash_a: Hash32,
    pub app_hash_a: Hash32,
    pub hash_b: Hash32,
    pub app_hash_b: Hash32,
    pub signature_a: Vec<u8>,
    pub signature_b: Vec<u8>,
}

/// The contents of a proof.
pub ghost struct ProofView {
    pub context: ConsensusContext,
    pub offender: NodeId,
    pub view: u64,
    pub hash_a: Hash32,
    pub app_hash_a: Hash32,
    pub hash_b: Hash32,
    pub app_hash_b: Hash32,
    pub signature_a: Seq<u8>,
    pub signature_b: Seq<u8>,
}

impl vstd::view::View for EquivocationProof {
    type V = ProofView;

    open spec fn view(&self) -> ProofView {
        ProofView {
            context: self.context,
            offender: self.offender,
            view: self.view,
            hash_a: self.hash_a,
            app_hash_a: self.app_hash_a,
            hash_b: self.hash_b,
            app_hash_b: self.app_hash_b,
            signature_a: self.signature_a@,
            signature_b: self.signature_b@,
        }
    }
}

impl Clone for EquivocationProof {
    fn clone(&self) -> (r: Self)
        ensures
            r@ == self@,
    {
        EquivocationProof {
            context: self.context,
            offender: self.offender,
            view: self.view,
            hash_a: self.hash_a,
            app_hash_a: self.app_hash_a,
            hash_b: self.hash_b,
            app_hash_b: self.app_hash_b,
            signature_a: copy_bytes(&self.signature_a),
            signature_b: copy_bytes(&self.signature_b),
        }
    }
}

/// Why a proof is not in canonical form.
#[derive(Clone, Copy, Debug, PartialEq, Eq)]
pub enum ProofError {
    /// The context names no genesis.
    NoGenesis,
    /// A signature does not have the length of a BLS signature.
    SignatureLength,
    /// Both votes are for the same block.
    SameBlock,
    /// The votes are in descending order of their blocks.
    NotCanonical,
}

impl ProofView {
    /// The two votes in the opposite order.
    pub open spec fn swapped(self) -> ProofView {
        ProofView {
            hash_a: self.hash_b,
            app_hash_a: self.app_hash_b,
            signature_a: self.signature_b,
            hash_b: self.hash_a,
            app_hash_b: self.app_hash_a,
            signature_b: self.signature_a,
            ..self
        }
    }

    /// The two votes in ascending order of their blocks.
    pub open spec fn ordered(self) -> ProofView {
        if hash_before(self.hash_b, self.hash_a) {
            self.swapped()
        } else {
            self
        }
    }

    /// The first respect in which the proof is not canonical.
    pub open spec fn fault(self) -> Option<ProofError> {
        if self.context.genesis_hash == crate::bytes::zero_hash() {
            Some(ProofError::NoGenesis)
        } else if self.signature_a.len() != 96 || self.signature_b.len() != 96 {
            Some(ProofError::SignatureLength)
        } else if self.hash_a == self.hash_b {
            Some(ProofError::SameBlock)
        } else if hash_before(self.hash_b, self.hash_a) {
            Some(ProofError::NotCanonical)
        } else {
            None
        }
    }

    /// The key that the proof is stored under.
    pub open spec fn key_bytes(self) -> Seq<u8> {
        seq![EQUIVOCATION_JOURNAL_KEY_VERSION] + vstd::bytes::spec_u64_to_le_bytes(
            self.context.epoch,
        ).reverse() + self.context.committee_hash@ + self.context.genesis_hash@ + self.offender@
    }
}

/// Ordering a proof ignores the order in which its votes were found, and
/// ordering it again changes nothing.
pub proof fn lemma_ordered_canonical(p: ProofView)
    requires
        p.hash_a != p.hash_b,
    ensures
        p.swapped().ordered() == p.ordered(),
        p.ordered().ordered() == p.ordered(),
        p.ordered().fault() != Some(ProofError::NotCanonical),
        p.ordered().fault() != Some(ProofError::SameBlock),
{
    lemma_hash_order_total(p.hash_a, p.hash_b);
}

/// Two proofs are stored under one key exactly if they accuse the same
/// validator in the same context.
pub proof fn lemma_journal_key(p: ProofView, q: ProofView)
    ensures
        p.key_bytes() == q.key_bytes() <==> p.context == q.context && p.offender == q.offender,
{
    vstd::bytes::lemma_auto_spec_u64_to_from_le_bytes();
    let t = seq![EQUIVOCATION_JOURNAL_KEY_VERSION];
    let lp = vstd::bytes::spec_u64_to_le_bytes(p.context.epoch);
    let lq = vstd::bytes::spec_u64_to_le_bytes(q.context.epoch);
    let ep = lp.reverse();
    let eq = lq.reverse();
    lemma_hash_view(p.context.committee_hash, q.context.committee_hash);
    lemma_hash_view(p.context.genesis_hash, q.context.genesis_hash);
    lemma_hash_view(p.offender, q.offender);
    if p.key_bytes() == q.key_bytes() {
        let p2 = t + ep + p.context.committee_hash@;
        let q2 = t + eq + q.context.committee_hash@;
        lemma_split(
            p2 + p.context.genesis_hash@,
            p.offender@,
            q2 + q.context.genesis_hash@,
            q.offender@,
        );
        lemma_split(p2, p.context.genesis_hash@, q2, q.context.genesis_hash@);
        lemma_split(t + ep, p.context.committee_hash@, t + eq, q.context.committee_hash@);
        lemma_split(t, ep, t, eq);
        assert(lp =~= ep.reverse());
        assert(lq =~= eq.reverse());
        assert(vstd::bytes::spec_u64_from_le_bytes(lp) == p.context.epoch);
        assert(vstd::bytes::spec_u64_from_le_bytes(lq) == q.context.epoch);
    }
}

impl EquivocationProof {
    /// The proof with its votes in ascending order of their blocks.
    pub fn canonicalized(&self) -> (r: Result<Self, ProofError>)
        ensures
            match r {
                Ok(p) => p@ == self@.ordered() && self@.ordered().fault() is None,
                Err(e) => self@.ordered().fault() == Some(e),
            },
    {
        let proof_copy = if hash_less(&self.hash_b, &self.hash_a) {
            EquivocationProof {
                context: self.context,
                offender: self.offender,
                view: self.view,
                hash_a: self.hash_b,
                app_hash_a: self.app_hash_b,
                hash_b: self.hash_a,
                app_hash_b: self.app_hash_a,
                signature_a: copy_bytes(&self.signature_b),
                signature_b: copy_bytes(&self.signature_a),
            }
        } else {
            self.clone()
        };
        match proof_copy.validate_canonical() {
            Ok(()) => Ok(proof_copy),
            Err(e) => Err(e),
        }
    }

    /// Checks that the proof is in canonical form.
    pub fn validate_canonical(&self) -> (r: Result<(), ProofError>)
        ensures
            match r {
                Ok(()) => self@.fault() is None,
                Err(e) => self@.fault() == Some(e),
            },
    {
        if !self.context.has_genesis_domain() {
            return Err(ProofError::NoGenesis);
        }
        if self.signature_a.len() != EQUIVOCATION_SIGNATURE_BYTES || self.signature_b.len()
            != EQUIVOCATION_SIGNATURE_BYTES {
            return Err(ProofError::SignatureLength);
        }
        if hash_eq(&self.hash_a, &self.hash_b) {
            return Err(ProofError::SameBlock);
        }
        if hash_less(&self.hash_b, &self.hash_a) {
            return Err(ProofError::NotCanonical);
        }
        Ok(())
    }

    /// The key that the proof is stored under: one per context and offender.
    pub fn journal_key(&self) -> (r: Vec<u8>)
        ensures
            r@ == self@.key_bytes(),
    {
        proof {
            vstd::bytes::lemma_auto_spec_u64_to_from_le_bytes();
        }
        let mut key: Vec<u8> = Vec::new();
        key.push(EQUIVOCATION_JOURNAL_KEY_VERSION);
        let epoch = vstd::bytes::u64_to_le_bytes(self.context.epoch);
        let mut i: usize = 0;
        while i < 8
            invariant
                i <= 8,
                epoch@.len() == 8,
                key@ == seq![EQUIVOCATION_JOURNAL_KEY_VERSION] + epoch@.reverse().subrange(
                    0,
                    i as int,
                ),
            decreases 8 - i,
        {
            key.push(epoch[7 - i]);
            i = i + 1;
            assert(key@ =~= seq![EQUIVOCATION_JOURNAL_KEY_VERSION] + epoch@.reverse().subrange(
                0,
                i as int,
            ));
        }
        assert(epoch@.reverse().subrange(0, 8) =~= epoch@.reverse());
        put_hash(&mut key, &self.context.committee_hash);
        put_hash(&mut key, &self.context.genesis_hash);
        put_hash(&mut key, &self.offender);
        key
    }
}

/// What a vote turned out to be.
pub enum VoteCheckResult {
    /// The first vote of the voter in the view.
    Valid,
    /// A repeated vote for the same block.
    Duplicate,
    /// A vote for a second block in the view.
    Equivocation(EquivocationProof),
    /// A vote of another context.
    ContextMismatch,
}

/// What the detector found, for monitoring.
#[derive(Clone, Copy, Debug, PartialEq, Eq)]
pub struct EquivocationStats {
    pub tracked_votes: usize,
    pub detected_equivocations: usize,
    pub unique_offenders: usize,
}

/// Tracks votes and finds validators that vote twice in a view.
pub struct EquivocationDetector {
    votes: Table<VoterKey, VoteRecord>,
    equivocations: Table<VoterKey, EquivocationProof>,
    prune_below: u64,
    context: Option<ConsensusContext>,
}

/// The contents of a detector.
pub ghost struct DetectorView {
    pub votes: Map<VoterKey, RecordView>,
    pub equivocations: Map<VoterKey, ProofView>,
    pub prune_below: u64,
    pub context: Option<ConsensusContext>,
}

/// The contents of a table of votes.
pub open spec fn record_map(m: Map<VoterKey, VoteRecord>) -> Map<VoterKey, RecordView> {
    Map::new(|k: VoterKey| m.contains_key(k), |k: VoterKey| m[k]@)
}

/// The contents of a table of proofs.
pub open spec fn proof_map(m: Map<VoterKey, EquivocationProof>) -> Map<VoterKey, ProofView> {
    Map::new(|k: VoterKey| m.contains_key(k), |k: VoterKey| m[k]@)
}

/// What a vote is known under.
pub open spec fn voter_key(vote: VoteView) -> VoterKey {
    VoterKey { context: vote.context, view: vote.view, voter: vote.voter }
}

/// What is kept of a vote.
pub open spec fn record_of(vote: VoteView) -> RecordView {
    RecordView { block_hash: vote.block_hash, app_hash: vote.app_hash, signature: vote.signature }
}

/// The evidence of a kept vote and a later one.
pub open spec fn proof_of(kept: RecordView, vote: VoteView) -> ProofView {
    ProofView {
        context: vote.context,
        offender: vote.voter,
        view: vote.view,
        hash_a: kept.block_hash,
        app_hash_a: kept.app_hash,
        hash_b: vote.block_hash,
        app_hash_b: vote.app_hash,
        signature_a: kept.signature,
        signature_b: vote.signature,
    }
}

impl DetectorView {
    /// The detector without votes below a view and proofs that are much older.
    pub open spec fn pruned_below(self, view: u64) -> DetectorView {
        if view <= self.prune_below {
            self
        } else {
            DetectorView {
                prune_below: view,
                votes: self.votes.restrict(Set::new(keys_from::<VoterKey>(view))),
                equivocations: if view > EVIDENCE_RETENTION_VIEWS {
                    self.equivocations.restrict(
                        Set::new(keys_from::<VoterKey>((view - EVIDENCE_RETENTION_VIEWS) as u64)),
                    )
                } else {
                    self.equivocations
                },
                ..self
            }
        }
    }

    /// The vote is of the context that the detector is bound to, if any.
    pub open spec fn accepts(self, vote: VoteView) -> bool {
        self.context is None || self.context->Some_0 == vote.context
    }

    /// The voter has a known vote in the view.
    pub open spec fn has_vote(self, vote: VoteView) -> bool {
        self.votes.contains_key(voter_key(vote))
    }

    /// The vote is for another block than the known vote of the view.
    pub open spec fn conflicts(self, vote: VoteView) -> bool {
        self.has_vote(vote) && self.votes[voter_key(vote)].block_hash != vote.block_hash
    }

    /// The detector after a vote was checked.
    pub open spec fn after(self, vote: VoteView) -> DetectorView {
        if !self.accepts(vote) {
            self
        } else if self.conflicts(vote) {
            DetectorView {
                context: Some(vote.context),
                equivocations: self.equivocations.insert(
                    voter_key(vote),
                    proof_of(self.votes[voter_key(vote)], vote),
                ),
                ..self
            }
        } else if self.has_vote(vote) {
            DetectorView { context: Some(vote.context), ..self }
        } else {
            DetectorView {
                context: Some(vote.context),
                votes: self.votes.insert(voter_key(vote), record_of(vote)),
                ..self
            }
        }
    }
}

/// Two votes of one voter in one view for different blocks are always found,
/// whatever other votes of that context lie between them, as long as the
/// first one is still known.
pub proof fn lemma_double_vote_found(d: DetectorView, first: VoteView, second: VoteView)
    requires
        d.accepts(first),
        !d.has_vote(first),
        voter_key(first) == voter_key(second),
        first.block_hash != second.block_hash,
    ensures
        d.after(first).conflicts(second),
        d.after(first).after(second).equivocations[voter_key(second)] == proof_of(
            record_of(first),
            second,
        ),
{
}

/// Checking a vote never removes or changes a known vote.
pub proof fn lemma_tracked_votes_kept(d: DetectorView, vote: VoteView, k: VoterKey)
    requires
        d.votes.contains_key(k),
    ensures
        d.after(vote).votes.contains_key(k),
        d.after(vote).votes[k] == d.votes[k],
{
}

/// A validator that votes once per view is never accused.
pub proof fn lemma_single_vote_not_accused(d: DetectorView, vote: VoteView)
    requires
        !d.conflicts(vote),
    ensures
        d.after(vote).equivocations == d.equivocations,
{
}

impl vstd::view::View for EquivocationDetector {
    type V = DetectorView;

    closed spec fn view(&self) -> DetectorView {
        DetectorView {
            votes: record_map(self.votes.map()),
            equivocations: proof_map(self.equivocations.map()),
            prune_below: self.prune_below,
            context: self.context,
        }
    }
}

/// The validators that proofs accuse.
pub open spec fn offenders(m: Map<VoterKey, ProofView>) -> Set<NodeId> {
    m.dom().map(|k: VoterKey| m[k].offender)
}

/// The contents of a list of proofs.
pub open spec fn proof_views(proofs: Seq<EquivocationProof>) -> Seq<ProofView> {
    proofs.map_values(|p: EquivocationProof| p@)
}

/// A proof is among the values of a map.
pub open spec fn holds_proof(m: Map<VoterKey, ProofView>, p: ProofView) -> bool {
    exists|k: VoterKey| #[trigger] m.contains_key(k) && m[k] == p
}

/// A list holds each proof of a map once.
pub open spec fn lists_proofs(proofs: Seq<ProofView>, m: Map<VoterKey, ProofView>) -> bool {
    &&& m.dom().finite()
    &&& proofs.len() == m.dom().len()
    &&& forall|k: VoterKey| #[trigger] m.contains_key(k) ==> proofs.contains(m[k])
    &&& forall|i: int| 0 <= i < proofs.len() ==> holds_proof(m, #[trigger] proofs[i])
}

proof fn lemma_lists(rows: Seq<(VoterKey, EquivocationProof)>, proofs: Seq<ProofView>)
    requires
        distinct_keys(rows),
        proofs.len() == rows.len(),
        forall|i: int| 0 <= i < rows.len() ==> #[trigger] proofs[i] == rows[i].1@,
    ensures
        lists_proofs(proofs, proof_map(rows_map(rows))),
{
    let m = proof_map(rows_map(rows));
    crate::table::lemma_rows_len(rows);
    assert(m.dom() =~= rows_map(rows).dom());
    assert forall|k: VoterKey| #[trigger] m.contains_key(k) implies proofs.contains(m[k]) by {
        let i = row_of(rows, k);
        assert(has_key(rows, k));
        assert(proofs[i] == rows[i].1@);
    }
    assert forall|i: int| 0 <= i < proofs.len() implies holds_proof(m, #[trigger] proofs[i]) by {
        crate::table::lemma_row(rows, i);
        assert(m.contains_key(rows[i].0));
        assert(m[rows[i].0] == proofs[i]);
    }
}

impl EquivocationDetector {
    /// No key is known twice, and a proof accuses the voter of its key.
    pub closed spec fn wf(self) -> bool {
        &&& self.votes.wf()
        &&& self.equivocations.wf()
        &&& forall|k: VoterKey|
            #[trigger] self.equivocations.map().contains_key(k)
                ==> self.equivocations.map()[k].offender == k.voter
                && self.equivocations.map()[k].view == k.view
    }

    /// A detector without votes or a context.
    pub fn new() -> (r: Self)
        ensures
            r.wf(),
            r@ == (DetectorView {
                votes: Map::empty(),
                equivocations: Map::empty(),
                prune_below: 0,
                context: None,
            }),
    {
        let r = EquivocationDetector {
            votes: Table::new(),
            equivocations: Table::new(),
            prune_below: 0,
            context: None,
        };
        assert(record_map(r.votes.map()) =~= Map::empty());
        assert(proof_map(r.equivocations.map()) =~= Map::empty());
        r
    }

    /// A detector that is bound to a context.
    pub fn new_with_context(context: ConsensusContext) -> (r: Self)
        ensures
            r.wf(),
            r@ == (DetectorView {
                votes: Map::empty(),
                equivocations: Map::empty(),
                prune_below: 0,
                context: Some(context),
            }),
    {
        let mut detector = EquivocationDetector::new();
        detector.context = Some(context);
        detector
    }

    /// Binds the detector to a context, unless it is bound to another one.
    pub fn set_context(&mut self, context: ConsensusContext) -> (r: Result<(), ConsensusContext>)
        requires
            old(self).wf(),
        ensures
            final(self).wf(),
            match r {
                Ok(()) => (old(self)@.context is None || old(self)@.context == Some(context))
                    && final(self)@ == (DetectorView { context: Some(context), ..old(self)@ }),
                Err(existing) => old(self)@.context == Some(existing) && existing != context
                    && final(self)@ == old(self)@,
            },
    {
        if let Some(existing) = self.context {
            if !existing.same_as(&context) {
                return Err(existing);
            }
        }
        self.context = Some(context);
        Ok(())
    }

    /// The context that the detector is bound to.
    pub fn context(&self) -> (r: Option<ConsensusContext>)
        ensures
            r == self@.context,
    {
        self.context
    }

    /// Tracks a vote, or finds that it repeats or contradicts a known one.
    pub fn check_vote(&mut self, vote: &Vote) -> (r: VoteCheckResult)
        requires
            old(self).wf(),
        ensures
            final(self).wf(),
            final(self)@ == old(self)@.after(vote@),
            match r {
                VoteCheckResult::ContextMismatch => !old(self)@.accepts(vote@),
                VoteCheckResult::Equivocation(p) => old(self)@.accepts(vote@)
                    && old(self)@.conflicts(vote@)
                    && p@ == proof_of(old(self)@.votes[voter_key(vote@)], vote@),
                VoteCheckResult::Duplicate => old(self)@.accepts(vote@) && old(self)@.has_vote(vote@)
                    && !old(self)@.conflicts(vote@),
                VoteCheckResult::Valid => old(self)@.accepts(vote@) && !old(self)@.has_vote(vote@),
            },
    {
        let context = vote.context();
        if let Some(expected) = self.context {
            if !context.same_as(&expected) {
                return VoteCheckResult::ContextMismatch;
            }
        } else {
            self.context = Some(context);
        }
        let key = VoterKey { context, view: vote.view, voter: vote.voter };
        let ghost votes_before = self.votes.map();
        let ghost proofs_before = self.equivocations.map();
        let found = match self.votes.get(&key) {
            Some(kept) => {
                if hash_eq(&kept.block_hash, &vote.block_hash) {
                    return VoteCheckResult::Duplicate;
                }
                Some(
                    EquivocationProof {
                        context,
                        offender: vote.voter,
                        view: vote.view,
                        hash_a: kept.block_hash,
                        app_hash_a: kept.app_hash,
                        hash_b: vote.block_hash,
                        app_hash_b: vote.app_hash,
                        signature_a: copy_bytes(&kept.signature),
                        signature_b: copy_bytes(&vote.signature),
                    },
                )
            },
            None => None,
        };
        match found {
            Some(evidence) => {
                let copy = evidence.clone();
                self.equivocations.put(key, copy);
                assert(proof_map(proofs_before.insert(key, copy)) =~= proof_map(
                    proofs_before,
                ).insert(key, copy@));
                VoteCheckResult::Equivocation(evidence)
            },
            None => {
                let record = VoteRecord {
                    block_hash: vote.block_hash,
                    app_hash: vote.app_hash,
                    signature: copy_bytes(&vote.signature),
                };
                self.votes.put(key, record);
                assert(record_map(votes_before.insert(key, record)) =~= record_map(
                    votes_before,
                ).insert(key, record@));
                VoteCheckResult::Valid
            },
        }
    }

    /// The proofs found so far.
    pub fn get_equivocations(&self) -> (r: Vec<EquivocationProof>)
        requires
            self.wf(),
        ensures
            lists_proofs(proof_views(r@), self@.equivocations),
    {
        let mut r: Vec<EquivocationProof> = Vec::new();
        let mut i: usize = 0;
        while i < self.equivocations.len()
            invariant
                i <= self.equivocations.rows().len(),
                r.len() == i,
                forall|k: int|
                    0 <= k < i ==> (#[trigger] r[k])@ == self.equivocations.rows()[k].1@,
            decreases self.equivocations.rows().len() - i,
        {
            r.push(self.equivocations.value_at(i).clone());
            i = i + 1;
        }
        proof {
            lemma_lists(self.equivocations.rows(), proof_views(r@));
        }
        r
    }

    /// Hands out the proofs found so far and forgets them.
    pub fn take_equivocations(&mut self) -> (r: Vec<EquivocationProof>)
        requires
            old(self).wf(),
        ensures
            final(self).wf(),
            lists_proofs(proof_views(r@), old(self)@.equivocations),
            final(self)@ == (DetectorView { equivocations: Map::empty(), ..old(self)@ }),
    {
        let r = self.get_equivocations();
        self.equivocations.clear();
        assert(proof_map(self.equivocations.map()) =~= Map::empty());
        r
    }

    /// Whether a validator is accused.
    pub fn has_equivocated(&self, voter: &NodeId) -> (r: bool)
        requires
            self.wf(),
        ensures
            r == (exists|k: VoterKey| #[trigger] self@.equivocations.contains_key(k) && k.voter == *voter),
    {
        let mut i: usize = 0;
        while i < self.equivocations.len()
            invariant
                self.wf(),
                i <= self.equivocations.rows().len(),
                forall|k: int|
                    0 <= k < i ==> (#[trigger] self.equivocations.rows()[k]).0.voter != *voter,
            decreases self.equivocations.rows().len() - i,
        {
            let k = self.equivocations.key_at(i);
            if hash_eq(&k.voter, voter) {
                proof {
                    crate::table::lemma_row(self.equivocations.rows(), i as int);
                    assert(self@.equivocations.contains_key(k));
                }
                return true;
            }
            i = i + 1;
        }
        assert forall|k: VoterKey| #[trigger] self@.equivocations.contains_key(k) implies k.voter
            != *voter by {
            let j = row_of(self.equivocations.rows(), k);
            assert(has_key(self.equivocations.rows(), k));
            assert(self.equivocations.rows()[j].0 == k);
        }
        false
    }

    /// A proof that accuses a validator in a view.
    pub fn get_equivocation(&self, view: u64, voter: &NodeId) -> (r: Option<&EquivocationProof>)
        requires
            self.wf(),
        ensures
            match r {
                Some(p) => exists|k: VoterKey| #[trigger]
                    self@.equivocations.contains_key(k) && k.view == view && k.voter == *voter
                        && self@.equivocations[k] == p@,
                None => forall|k: VoterKey| #[trigger]
                    self@.equivocations.contains_key(k) ==> !(k.view == view && k.voter == *voter),
            },
    {
        let mut i: usize = 0;
        while i < self.equivocations.len()
            invariant
                self.wf(),
                i <= self.equivocations.rows().len(),
                forall|k: int|
                    0 <= k < i ==> !((#[trigger] self.equivocations.rows()[k]).0.view == view
                        && self.equivocations.rows()[k].0.voter == *voter),
            decreases self.equivocations.rows().len() - i,
        {
            let k = self.equivocations.key_at(i);
            if k.view == view && hash_eq(&k.voter, voter) {
                proof {
                    crate::table::lemma_row(self.equivocations.rows(), i as int);
                    assert(self@.equivocations.contains_key(k));
                }
                return Some(self.equivocations.value_at(i));
            }
            i = i + 1;
        }
        assert forall|k: VoterKey| #[trigger] self@.equivocations.contains_key(k) implies !(k.view
            == view && k.voter == *voter) by {
            let j = row_of(self.equivocations.rows(), k);
            assert(has_key(self.equivocations.rows(), k));
            assert(self.equivocations.rows()[j].0 == k);
        }
        None
    }

    /// Forgets votes below a view, and proofs that are much older.
    pub fn prune_below(&mut self, view: u64)
        requires
            old(self).wf(),
        ensures
            final(self).wf(),
            final(self)@ == old(self)@.pruned_below(view),
    {
        if view <= self.prune_below {
            return ;
        }
        self.prune_below = view;
        let ghost votes_before = self.votes.map();
        let ghost proofs_before = self.equivocations.map();
        self.votes.retain_from(view);
        assert(record_map(votes_before.restrict(Set::new(keys_from::<VoterKey>(view)))) =~= record_map(
            votes_before,
        ).restrict(Set::new(keys_from::<VoterKey>(view))));
        if view > EVIDENCE_RETENTION_VIEWS {
            let oldest: u64 = view - EVIDENCE_RETENTION_VIEWS;
            self.equivocations.retain_from(oldest);
            assert(proof_map(proofs_before.restrict(Set::new(keys_from::<VoterKey>(oldest))))
                =~= proof_map(proofs_before).restrict(Set::new(keys_from::<VoterKey>(oldest))));
        }
    }

    /// What the detector found, for monitoring.
    pub fn stats(&self) -> (r: EquivocationStats)
        requires
            self.wf(),
        ensures
            r.tracked_votes == self@.votes.dom().len(),
            r.detected_equivocations == self@.equivocations.dom().len(),
            r.unique_offenders == offenders(self@.equivocations).len(),
    {
        let ghost rows = self.equivocations.rows();
        let mut names: Vec<NodeId> = Vec::new();
        let mut i: usize = 0;
        while i < self.equivocations.len()
            invariant
                i <= rows.len(),
                rows == self.equivocations.rows(),
                names@.no_duplicates(),
                forall|x: NodeId|
                    #![trigger names@.contains(x)]
                    names@.contains(x) <==> exists|j: int|
                        0 <= j < i && (#[trigger] rows[j]).1.offender == x,
            decreases rows.len() - i,
        {
            let ghost before = names@;
            let who = self.equivocations.value_at(i).offender;
            let _new = insert_hash(&mut names, who);
            assert forall|x: NodeId|
                #![trigger names@.contains(x)]
                names@.contains(x) <==> exists|j: int|
                    0 <= j < i + 1 && (#[trigger] rows[j]).1.offender == x by {
                assert(names@.contains(x) <==> names@.to_set().contains(x));
                assert(before.contains(x) <==> before.to_set().contains(x));
                assert(rows[i as int].1.offender == who);
                if before.contains(x) {
                    let j = choose|j: int| 0 <= j < i && (#[trigger] rows[j]).1.offender == x;
                    assert(rows[j].1.offender == x);
                }
            }
            i = i + 1;
        }
        proof {
            crate::table::lemma_rows_len(rows);
            crate::table::lemma_rows_len(self.votes.rows());
            let m = self@.equivocations;
            assert(m.dom() =~= rows_map(rows).dom());
            assert(self@.votes.dom() =~= self.votes.map().dom());
            let f = |k: VoterKey| m[k].offender;
            assert forall|x: NodeId| names@.to_set().contains(x) <==> m.dom().map(f).contains(x) by {
                if names@.contains(x) {
                    let j = choose|j: int| 0 <= j < rows.len() && (#[trigger] rows[j]).1.offender == x;
                    crate::table::lemma_row(rows, j);
                    assert(m.dom().contains(rows[j].0) && f(rows[j].0) == x);
                }
                if m.dom().map(f).contains(x) {
                    let k = choose|k: VoterKey| m.dom().contains(k) && f(k) == x;
                    let j = row_of(rows, k);
                    assert(has_key(rows, k));
                    assert(rows[j].1.offender == x);
                    assert(names@.contains(x));
                }
            }
            assert(names@.to_set() =~= offenders(m));
            names@.unique_seq_to_set();
        }
        EquivocationStats {
            tracked_votes: self.votes.len(),
            detected_equivocations: self.equivocations.len(),
            unique_offenders: names.len(),
        }
    }
}

impl Default for EquivocationDetector {
    fn default() -> (r: Self)
        ensures
            r.wf(),
            r@ == (DetectorView {
                votes: Map::empty(),
                equivocations: Map::empty(),
                prune_below: 0,
                context: None,
            }),
    {
        EquivocationDetector::new()
    }
}

/// Each half of the evidence of a double vote is one of the two votes, the
/// earlier one first, and the evidence is against their common voter, in their
/// common view and context.
pub proof fn lemma_evidence_is_the_two_votes(d: DetectorView, first: VoteView, second: VoteView)
    requires
        d.accepts(first),
        !d.has_vote(first),
        first.context == second.context,
        first.view == second.view,
        first.voter == second.voter,
        first.block_hash != second.block_hash,
    ensures
        ({
            let found = d.after(first).after(second).equivocations;
            let p = found[VoterKey { context: first.context, view: first.view, voter: first.voter }];
            &&& found.contains_key(
                VoterKey { context: first.context, view: first.view, voter: first.voter },
            )
            &&& p.context == first.context
            &&& p.view == first.view
            &&& p.offender == first.voter
            &&& p.hash_a == first.block_hash
            &&& p.app_hash_a == first.app_hash
            &&& p.signature_a == first.signature
            &&& p.hash_b == second.block_hash
            &&& p.app_hash_b == second.app_hash
            &&& p.signature_b == second.signature
        }),
{
}

/// A vote is remembered exactly if it is the first of its voter in its context and
/// view; a vote for another block than the remembered one is evidence, one for the
/// same block is nothing new, and nobody else is affected.
pub proof fn lemma_first_vote_remembered(d: DetectorView, vote: VoteView, k: VoterKey)
    ensures
        ({
            let own = VoterKey { context: vote.context, view: vote.view, voter: vote.voter };
            let after = d.after(vote);
            let other = d.context matches Some(c) && c != vote.context;
            &&& other ==> after == d
            &&& !other && !d.votes.contains_key(own) ==> after.votes.contains_key(own)
                && after.votes[own].block_hash == vote.block_hash && after.votes[own].app_hash
                == vote.app_hash && after.votes[own].signature == vote.signature
            &&& d.votes.contains_key(own) ==> after.votes == d.votes
            &&& !other && d.votes.contains_key(own) && d.votes[own].block_hash != vote.block_hash
                ==> after.equivocations.contains_key(own)
            &&& !d.votes.contains_key(own) || d.votes[own].block_hash == vote.block_hash
                ==> after.equivocations == d.equivocations
            &&& k != own ==> (after.votes.contains_key(k) <==> d.votes.contains_key(k)) && (
            after.equivocations.contains_key(k) <==> d.equivocations.contains_key(k))
            &&& after.prune_below == d.prune_below
        }),
{
}

/// Pruning forgets exactly the votes below a view, and the proofs more than a
/// thousand views older; it never takes a step back.
pub proof fn lemma_detector_pruned(d: DetectorView, view: u64, k: VoterKey)
    requires
        view > d.prune_below,
    ensures
        ({
            let after = d.pruned_below(view);
            &&& after.votes.contains_key(k) <==> d.votes.contains_key(k) && k.view >= view
            &&& after.votes.contains_key(k) ==> after.votes[k] == d.votes[k]
            &&& after.equivocations.contains_key(k) <==> d.equivocations.contains_key(k) && k.view
                + 1000 >= view
            &&& after.equivocations.contains_key(k) ==> after.equivocations[k] == d.equivocations[k]
            &&& after.prune_below == view
            &&& after.pruned_below(view) == after
        }),
{
    let after = d.pruned_below(view);
    if view <= 1000 && d.equivocations.contains_key(k) {
        assert(after.equivocations == d.equivocations);
    }
}

/// The canonical form of a proof holds the same two votes, the one for the smaller
/// block first, and is faultless exactly if there is a genesis, the blocks differ
/// and the signatures have the right length.
pub proof fn lemma_canonical_form(p: ProofView)
    ensures
        ({
            let q = p.ordered();
            &&& q.context == p.context
            &&& q.offender == p.offender
            &&& q.view == p.view
            &&& !hash_before(q.hash_b, q.hash_a)
            &&& (q.hash_a, q.app_hash_a, q.signature_a, q.hash_b, q.app_hash_b, q.signature_b) == (
                p.hash_a,
                p.app_hash_a,
                p.signature_a,
                p.hash_b,
                p.app_hash_b,
                p.signature_b,
            ) || (q.hash_b, q.app_hash_b, q.signature_b, q.hash_a, q.app_hash_a, q.signature_a) == (
                p.hash_a,
                p.app_hash_a,
                p.signature_a,
                p.hash_b,
                p.app_hash_b,
                p.signature_b,
            )
            &&& q.fault() is None <==> {
                &&& p.context.genesis_hash != crate::bytes::zero_hash()
                &&& p.signature_a.len() == 96
                &&& p.signature_b.len() == 96
                &&& p.hash_a != p.hash_b
            }
        }),
{
    lemma_hash_order_total(p.hash_a, p.hash_b);
}

/// The key of a proof is a version byte, the epoch with its highest byte first, the
/// committee, the genesis and the accused.
pub proof fn lemma_key_layout(p: ProofView)
    ensures
        p.key_bytes().len() == 105,
        p.key_bytes()[0] == 1,
        p.key_bytes().subrange(9, 41) == p.context.committee_hash@,
        p.key_bytes().subrange(41, 73) == p.context.genesis_hash@,
        p.key_bytes().subrange(73, 105) == p.offender@,
        p.key_bytes()[8] == vstd::bytes::spec_u64_to_le_bytes(p.context.epoch)[0],
        p.key_bytes()[1] == vstd::bytes::spec_u64_to_le_bytes(p.context.epoch)[7],
{
    vstd::bytes::lemma_auto_spec_u64_to_from_le_bytes();
    assert(p.key_bytes().subrange(9, 41) =~= p.context.committee_hash@);
    assert(p.key_bytes().subrange(41, 73) =~= p.context.genesis_hash@);
    assert(p.key_bytes().subrange(73, 105) =~= p.offender@);
}

/// What the refusal of a proof says of it is so.
pub proof fn lemma_proof_refusal(p: ProofView)
    ensures
        match p.fault() {
            None => true,
            Some(ProofError::NoGenesis) => p.context.genesis_hash == crate::bytes::zero_hash(),
            Some(ProofError::SignatureLength) => p.signature_a.len() != 96 || p.signature_b.len()
                != 96,
            Some(ProofError::SameBlock) => p.hash_a == p.hash_b,
            Some(ProofError::NotCanonical) => hash_before(p.hash_b, p.hash_a),
        },
{
}

} // verus!
