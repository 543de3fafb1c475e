//! Evidence of double votes in committed blocks.

use vstd::prelude::*;

use crate::bytes::{copy_bytes, Hash32, NodeId};
use crate::consensus::equivocation::{proof_views, EquivocationProof, ProofError, ProofView};
use crate::text::{hex_encode, hex_text};
use crate::types::context::ConsensusContext;

verus! {

/// What a validator is accused of.
#[derive(Clone, Copy, Debug, PartialEq, Eq)]
pub enum EvidenceType {
    /// Two votes in one view.
    DoubleVote,
    /// Anything else.
    Other,
}

/// Evidence as a block carries it.
pub struct Evidence {
    pub evidence_type: EvidenceType,
    pub offender: NodeId,
    pub view: u64,
    pub timestamp: u64,
    pub context: ConsensusContext,
    pub hash_a: Hash32,
    pub app_hash_a: Hash32,
    pub hash_b: Hash32,
    pub app_hash_b: Hash32,
    pub signature_a: Vec<u8>,
    pub signature_b: Vec<u8>,
}

/// A transaction of a block, as far as consensus looks at it.
pub enum ConsensusTransaction {
    /// A system transaction that submits evidence.
    SubmitEvidence { submitter: String, evidence: Evidence },
    /// Any other transaction.
    Other,
}

/// Why committed evidence is malformed.
#[derive(Clone, Copy, Debug, PartialEq, Eq)]
pub enum EvidenceError {
    /// The timestamp is not zero.
    NonzeroTimestamp,
    /// The proof is not in canonical form.
    Proof(ProofError),
    /// The submitter is not the system account of the accused.
    InvalidSubmitter,
}

impl Evidence {
    /// The proof that the evidence carries.
    pub open spec fn proof_view(self) -> ProofView {
        ProofView {
            context: self.context,
            offender: self.offender,
            view: self.view,
            hash_a: self.hash_a,
            app_hash_a: self.app_hash_a,
            hash_b: self.hash_b,
            app_hash_b: self.app_hash_b,
            signature_a: self.signature_a@,
            signature_b: self.signature_b@,
        }
    }

    /// The proof of a double vote, or how the evidence is malformed.
    pub open spec fn reading(self) -> Result<Option<ProofView>, EvidenceError> {
        if self.evidence_type != EvidenceType::DoubleVote {
            Ok(None)
        } else if self.timestamp != 0 {
            Err(EvidenceError::NonzeroTimestamp)
        } else {
            match self.proof_view().fault() {
                Some(e) => Err(EvidenceError::Proof(e)),
                None => Ok(Some(self.proof_view())),
            }
        }
    }
}

/// The proof of a double vote that evidence carries; evidence of anything else
/// carries none.
pub fn proof_from_committed_evidence(evidence: &Evidence) -> (r: Result<
    Option<EquivocationProof>,
    EvidenceError,
>)
    ensures
        match r {
            Ok(Some(p)) => evidence.reading() == Ok::<Option<ProofView>, EvidenceError>(Some(p@)),
            Ok(None) => evidence.reading() == Ok::<Option<ProofView>, EvidenceError>(None),
            Err(e) => evidence.reading() == Err::<Option<ProofView>, EvidenceError>(e),
        },
{
    match evidence.evidence_type {
        EvidenceType::DoubleVote => {},
        EvidenceType::Other => {
            return Ok(None);
        },
    }
    if evidence.timestamp != 0 {
        return Err(EvidenceError::NonzeroTimestamp);
    }
    let p = EquivocationProof {
        context: evidence.context,
        offender: evidence.offender,
        view: evidence.view,
        hash_a: evidence.hash_a,
        app_hash_a: evidence.app_hash_a,
        hash_b: evidence.hash_b,
        app_hash_b: evidence.app_hash_b,
        signature_a: copy_bytes(&evidence.signature_a),
        signature_b: copy_bytes(&evidence.signature_b),
    };
    match p.validate_canonical() {
        Ok(()) => Ok(Some(p)),
        Err(e) => Err(EvidenceError::Proof(e)),
    }
}

/// The account that submits evidence against a validator.
pub open spec fn evidence_account(offender: NodeId) -> Seq<char> {
    "system:equivocation:"@ + hex_text(offender@)
}

/// The proofs of double votes among transactions, from a position on, or the
/// first piece of evidence that is malformed.
pub open spec fn proofs_from(entries: Seq<ConsensusTransaction>, i: int) -> Result<
    Seq<ProofView>,
    EvidenceError,
>
    decreases entries.len() - i,
{
    if i < 0 || i >= entries.len() {
        Ok(Seq::empty())
    } else {
        match entries[i] {
            ConsensusTransaction::Other => proofs_from(entries, i + 1),
            ConsensusTransaction::SubmitEvidence { submitter, evidence } => {
                if submitter@ != evidence_account(evidence.offender) {
                    Err(EvidenceError::InvalidSubmitter)
                } else {
                    match evidence.reading() {
                        Err(e) => Err(e),
                        Ok(found) => match proofs_from(entries, i + 1) {
                            Err(e) => Err(e),
                            Ok(rest) => match found {
                                Some(p) => Ok(seq![p] + rest),
                                None => Ok(rest),
                            },
                        },
                    }
                }
            },
        }
    }
}

/// The account that submits evidence against a validator.
fn account_of(offender: &NodeId) -> (r: String)
    ensures
        r@ == evidence_account(*offender),
{
    let mut name = "system:equivocation:".to_string();
    name.append(hex_encode(offender.as_slice()).as_str());
    name
}

/// What is left to read, put after what was read.
spec fn joined(read: Seq<ProofView>, rest: Result<Seq<ProofView>, EvidenceError>) -> Result<
    Seq<ProofView>,
    EvidenceError,
> {
    match rest {
        Ok(s) => Ok(read + s),
        Err(e) => Err(e),
    }
}

/// The proofs of double votes among the transactions of a committed block.
pub fn committed_equivocation_proofs(entries: &Vec<ConsensusTransaction>) -> (r: Result<
    Vec<EquivocationProof>,
    EvidenceError,
>)
    ensures
        match r {
            Ok(list) => proofs_from(entries@, 0) == Ok::<Seq<ProofView>, EvidenceError>(
                proof_views(list@),
            ),
            Err(e) => proofs_from(entries@, 0) == Err::<Seq<ProofView>, EvidenceError>(e),
        },
{
    let mut list: Vec<EquivocationProof> = Vec::new();
    let mut i: usize = 0;
    let ghost all = proofs_from(entries@, 0);
    proof {
        assert(proof_views(list@) =~= Seq::empty());
        if all is Ok {
            assert(Seq::<ProofView>::empty() + all->Ok_0 =~= all->Ok_0);
        }
    }
    while i < entries.len()
        invariant
            i <= entries.len(),
            all == proofs_from(entries@, 0),
            all == joined(proof_views(list@), proofs_from(entries@, i as int)),
        decreases entries.len() - i,
    {
        if let ConsensusTransaction::SubmitEvidence { submitter, evidence } = &entries[i] {
            if *submitter != account_of(&evidence.offender) {
                return Err(EvidenceError::InvalidSubmitter);
            }
            match proof_from_committed_evidence(evidence) {
                Err(e) => {
                    return Err(e);
                },
                Ok(Some(p)) => {
                    let ghost before = proof_views(list@);
                    let ghost v = p@;
                    let ghost rest = proofs_from(entries@, i + 1);
                    list.push(p);
                    proof {
                        assert(proof_views(list@) =~= before.push(v));
                        if rest is Ok {
                            assert(before + (seq![v] + rest->Ok_0) =~= before.push(v) + rest->Ok_0);
                        }
                    }
                },
                Ok(None) => {},
            }
        }
        i = i + 1;
    }
    assert(proof_views(list@) + Seq::<ProofView>::empty() =~= proof_views(list@));
    Ok(list)
}

/// Evidence of a double vote is read as exactly the two votes that it holds, if it
/// carries no time and is in canonical form; other evidence holds none.
pub proof fn lemma_evidence_read(e: Evidence)
    ensures
        e.evidence_type != EvidenceType::DoubleVote ==> e.reading() == Ok::<
            Option<ProofView>,
            EvidenceError,
        >(None),
        e.evidence_type == EvidenceType::DoubleVote && e.timestamp != 0 ==> e.reading() == Err::<
            Option<ProofView>,
            EvidenceError,
        >(EvidenceError::NonzeroTimestamp),
        e.reading() matches Ok(Some(p)) ==> {
            &&& e.evidence_type == EvidenceType::DoubleVote
            &&& e.timestamp == 0
            &&& p.fault() is None
            &&& p.context == e.context
            &&& p.offender == e.offender
            &&& p.view == e.view
            &&& p.hash_a == e.hash_a
            &&& p.app_hash_a == e.app_hash_a
            &&& p.signature_a == e.signature_a@
            &&& p.hash_b == e.hash_b
            &&& p.app_hash_b == e.app_hash_b
            &&& p.signature_b == e.signature_b@
        },
        e.evidence_type == EvidenceType::DoubleVote && e.timestamp == 0 && e.proof_view().fault() is None
            ==> e.reading() == Ok::<Option<ProofView>, EvidenceError>(Some(e.proof_view())),
{
}

/// What one transaction of a payload adds to the evidence in it: evidence only
/// under the account of the accused, and at its place in the order.
pub proof fn lemma_proofs_step(entries: Seq<ConsensusTransaction>, i: int)
    requires
        0 <= i < entries.len(),
    ensures
        entries[i] is Other ==> proofs_from(entries, i) == proofs_from(entries, i + 1),
        entries[i] matches ConsensusTransaction::SubmitEvidence { submitter, evidence } ==> {
            let rest = proofs_from(entries, i + 1);
            &&& submitter@ != "system:equivocation:"@ + hex_text(evidence.offender@) ==> proofs_from(
                entries,
                i,
            ) == Err::<Seq<ProofView>, EvidenceError>(EvidenceError::InvalidSubmitter)
            &&& submitter@ == "system:equivocation:"@ + hex_text(evidence.offender@) ==> match evidence.reading() {
                Err(e) => proofs_from(entries, i) == Err::<Seq<ProofView>, EvidenceError>(e),
                Ok(None) => proofs_from(entries, i) == rest,
                Ok(Some(p)) => match proofs_from(entries, i) {
                    Ok(list) => rest is Ok && list.len() == rest->Ok_0.len() + 1 && list[0] == p
                        && list.skip(1) == rest->Ok_0,
                    Err(e) => rest == Err::<Seq<ProofView>, EvidenceError>(e),
                },
            }
        },
        proofs_from(entries, entries.len() as int) == Ok::<Seq<ProofView>, EvidenceError>(
            Seq::empty(),
        ),
{
    if let ConsensusTransaction::SubmitEvidence { submitter, evidence } = entries[i] {
        if let Ok(Some(p)) = evidence.reading() {
            if let Ok(rest) = proofs_from(entries, i + 1) {
                assert((seq![p] + rest).skip(1) =~= rest);
            }
        }
    }
}

} // verus!
