//! What consensus asks of the application.

use vstd::prelude::*;

use crate::bytes::{hash_eq, zero_hash, zeros, Hash32, NodeId};
use crate::consensus::equivocation::{EquivocationProof, ProofView};
use crate::consensus::evidence::{proofs_from, ConsensusTransaction, EvidenceError};
use crate::types::block::{Block, BlockView, CommitmentV2};
use crate::types::context::ConsensusContext;

verus! {

/// The validators of the next epoch.
pub struct ValidatorSetUpdate {
    pub node_ids: Vec<NodeId>,
    pub voting_powers: Vec<u64>,
    pub bls_pubkeys: Vec<Vec<u8>>,
}

/// The bytes of a payload.
pub type PayloadBytes = Seq<u8>;

/// The evidence in a payload: none if the payload does not decode, else the
/// proofs of double votes that it carries, or how the evidence is malformed.
pub type EvidenceReading = Option<Result<Seq<ProofView>, EvidenceError>>;

/// Blocks that were applied, oldest first.
pub type Applied = Seq<BlockView>;

/// The application that executes blocks.
pub trait AppHook: Sized {
    /// The blocks that were applied to the canonical state, oldest first. Only
    /// a commit adds to them.
    spec fn applied(&self) -> Applied;

    /// The evidence in a payload.
    spec fn evidence_in(payload: PayloadBytes) -> EvidenceReading;

    /// The payload of the next block.
    fn prepare_payload(&self, parent: &Block) -> Vec<u8>;

    /// Checks a payload before the node votes. By default every payload is
    /// accepted.
    fn validate_block(&self, _block: &Block) -> (r: Result<(), String>)
        default_ensures
            r is Ok,
    {
        Ok(())
    }

    /// Takes a signed transaction into the pool of pending ones. By default
    /// none is taken.
    fn submit_user_transaction(&mut self, _envelope: Vec<u8>, _timestamp: u64) -> (r: Result<
        Hash32,
        String,
    >)
        ensures
            final(self).applied() == old(self).applied(),
        default_ensures
            *final(self) == *old(self),
            r is Err,
    {
        Err("application does not implement signed user transaction admission".to_string())
    }

    /// Executes a block and returns the application state.
    fn execute(&mut self, block: &Block) -> (r: Hash32)
        ensures
            final(self).applied() == old(self).applied(),
    ;

    /// The execution commitment of a block that is about to be finalized.
    fn preflight_commitment(&self, _block: &Block) -> (r: Result<Option<CommitmentV2>, String>)
        default_ensures
            r matches Ok(c) && c is None,
    {
        Ok(None)
    }

    /// The execution commitment that a proposer seals into a block.
    fn derive_execution_commitment(&self, block: &Block) -> (r: Result<Option<CommitmentV2>, String>)
        default_ensures
            call_ensures(Self::preflight_commitment, (self, block), r),
    {
        self.preflight_commitment(block)
    }

    /// Tells the application the final form of a block that it executed.
    fn seal_execution_commitment(&mut self, _block: &Block) -> (r: Result<(), String>)
        ensures
            final(self).applied() == old(self).applied(),
        default_ensures
            *final(self) == *old(self),
            r is Ok,
    {
        Ok(())
    }

    /// The authenticated state root of a block. No root makes consensus
    /// refuse the block.
    fn preflight_state_root(&self, _block: &Block) -> (r: Result<Option<Hash32>, String>)
        default_ensures
            r == Ok::<Option<Hash32>, String>(None),
    {
        Ok(None)
    }

    /// Applies a block to the canonical state, and returns the state.
    fn commit(&mut self, block: &Block) -> (r: Result<Hash32, String>)
        ensures
            r is Ok ==> final(self).applied() == old(self).applied().push(block@),
    ;

    /// Publishes a block that was durably committed.
    fn on_durable_commit(&mut self, _block: &Block, _commitment: &CommitmentV2) -> (r: Result<(), String>)
        ensures
            final(self).applied() == old(self).applied(),
        default_ensures
            *final(self) == *old(self),
            r is Ok,
    {
        Ok(())
    }

    /// Checks that the application recovered the exact durable head. By
    /// default only a genesis head passes.
    fn validate_recovery_head(&self, block: &Block) -> (r: Result<(), String>)
        default_ensures
            match r {
                Ok(()) => block.height == 0,
                Err(e) => block.height > 0 && e@
                    == "application does not implement non-genesis recovery-head validation"@,
            },
    {
        if block.height == 0 {
            Ok(())
        } else {
            Err("application does not implement non-genesis recovery-head validation".to_string())
        }
    }

    /// Drops speculative branches outside the protected ones.
    fn prune_speculative_branches(&mut self, _protected_roots: &Vec<Hash32>)
        ensures
            final(self).applied() == old(self).applied(),
        default_ensures
            *final(self) == *old(self),
    {
    }

    /// Checks a proposal against a replay of its parent branch.
    fn preflight_block_with_speculative_branch(
        &self,
        _context: ConsensusContext,
        block: &Block,
        _committed_head: &Block,
        _ancestors: &Vec<Block>,
    ) -> (r: Result<(), String>)
        default_ensures
            call_ensures(Self::validate_block, (self, block), r),
    {
        self.validate_block(block)
    }

    /// Rebuilds a speculative branch.
    fn restore_speculative_branch(
        &mut self,
        _context: ConsensusContext,
        _committed_head: &Block,
        _ancestors: &Vec<Block>,
    ) -> (r: Result<(), String>)
        ensures
            final(self).applied() == old(self).applied(),
        default_ensures
            *final(self) == *old(self),
            r is Ok,
    {
        Ok(())
    }

    /// Checks, without changing anything, that a branch can be restored.
    fn check_speculative_branch_admission(
        &self,
        _context: ConsensusContext,
        _committed_head: &Block,
        _ancestors: &Vec<Block>,
        _protected_roots: &Vec<Hash32>,
        _reserve_slots: usize,
    ) -> (r: Result<(), String>)
        default_ensures
            r is Ok,
    {
        Ok(())
    }

    /// Makes room for a branch and restores it.
    fn restore_speculative_branch_for_admission(
        &mut self,
        context: ConsensusContext,
        committed_head: &Block,
        ancestors: &Vec<Block>,
        protected_roots: &Vec<Hash32>,
        _reserve_slots: usize,
    ) -> (r: Result<(), String>)
        ensures
            final(self).applied() == old(self).applied(),
        default_ensures
            exists|m: &mut Self, n: &mut Self|
                {
                    &&& #[trigger] call_ensures(
                        Self::prune_speculative_branches,
                        (m, protected_roots),
                        (),
                    )
                    &&& *m == *old(self)
                    &&& *final(m) == *n
                    &&& #[trigger] call_ensures(
                        Self::restore_speculative_branch,
                        (n, context, committed_head, ancestors),
                        r,
                    )
                    &&& *final(n) == *final(self)
                },
    {
        self.prune_speculative_branches(protected_roots);
        self.restore_speculative_branch(context, committed_head, ancestors)
    }

    /// Hands out a pending change of the validators.
    fn take_validator_update(&mut self) -> (r: Option<ValidatorSetUpdate>)
        ensures
            final(self).applied() == old(self).applied(),
        default_ensures
            *final(self) == *old(self),
            r is None,
    {
        None
    }

    /// The change of the validators that the state at a finalized block
    /// authenticates. By default there is none that can be trusted.
    fn validator_set_update_for_transition(&self, _finalized_block: &Block) -> (r: Result<
        Option<ValidatorSetUpdate>,
        String,
    >)
        default_ensures
            r is Err,
    {
        Err(
            "application does not expose a canonical validator-set update for transition staging".to_string(),
        )
    }

    /// Decodes the transactions of a payload, as far as consensus looks at
    /// them.
    fn decode_consensus_payload(&self, payload: &Vec<u8>) -> (r: Result<
        Vec<ConsensusTransaction>,
        String,
    >)
        ensures
            Self::evidence_in(payload@) == (match r {
                Ok(entries) => Some(proofs_from(entries@, 0)),
                Err(_) => None,
            }),
    ;

    /// Takes evidence of a double vote. By default none is taken.
    fn submit_equivocation_evidence(&mut self, _evidence: EquivocationProof) -> (r: bool)
        ensures
            final(self).applied() == old(self).applied(),
        default_ensures
            *final(self) == *old(self),
            !r,
    {
        false
    }
}

/// An application without state. It only keeps account of what was applied to
/// it.
#[derive(Clone, Copy)]
pub struct NoOpApp {
    applied: Ghost<Seq<BlockView>>,
}

impl NoOpApp {
    /// An application to which nothing was applied.
    pub fn new() -> (r: Self)
        ensures
            r.applied() == Seq::<BlockView>::empty(),
    {
        NoOpApp { applied: Ghost(Seq::empty()) }
    }
}

impl AppHook for NoOpApp {
    closed spec fn applied(&self) -> Applied {
        self.applied@
    }

    fn commit(&mut self, block: &Block) -> (r: Result<Hash32, String>)
        ensures
            r == Ok::<Hash32, String>(block.app_hash),
    {
        self.applied = Ghost(self.applied@.push(block@));
        Ok(block.app_hash)
    }

    /// Payloads carry no evidence.
    open spec fn evidence_in(payload: PayloadBytes) -> EvidenceReading {
        Some(Ok(Seq::empty()))
    }

    fn decode_consensus_payload(&self, _payload: &Vec<u8>) -> (r: Result<
        Vec<ConsensusTransaction>,
        String,
    >)
        ensures
            r matches Ok(entries) && entries@.len() == 0,
    {
        Ok(Vec::new())
    }

    fn prepare_payload(&self, _parent: &Block) -> (r: Vec<u8>)
        ensures
            r@.len() == 0,
    {
        Vec::new()
    }

    fn execute(&mut self, _block: &Block) -> (r: Hash32)
        ensures
            r == zero_hash(),
    {
        zeros()
    }

    fn preflight_commitment(&self, _block: &Block) -> (r: Result<Option<CommitmentV2>, String>)
        ensures
            r matches Ok(Some(c)) && c.receipts@.len() == 0,
    {
        Ok(Some(CommitmentV2::default()))
    }

    fn preflight_state_root(&self, block: &Block) -> (r: Result<Option<Hash32>, String>)
        ensures
            match r {
                Ok(root) => root == Some(zero_hash()) && block.app_hash == zero_hash(),
                Err(e) => block.app_hash != zero_hash(),
            },
    {
        let root = zeros();
        if !hash_eq(&block.app_hash, &root) {
            return Err("no-op application state root must be zero".to_string());
        }
        Ok(Some(root))
    }

    fn validate_recovery_head(&self, block: &Block) -> (r: Result<(), String>)
        ensures
            r is Ok <==> block.app_hash == zero_hash() && (block.height > 0 ==> block.commitment_root
                == crate::crypto::sha256(seq![5u8])),
    {
        if !hash_eq(&block.app_hash, &zeros()) {
            return Err("no-op recovery head must have a zero application root".to_string());
        }
        let commitment = CommitmentV2::default();
        let root = commitment.root();
        assert(crate::bytes::byte_rows(commitment.receipts@) =~= Seq::empty());
        if block.height > 0 && !hash_eq(&block.commitment_root, &root) {
            return Err("no-op recovery head has a mismatched commitment root".to_string());
        }
        Ok(())
    }
}

} // verus!
