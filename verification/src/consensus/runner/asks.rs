//! What a node asks its application and its durable store, and what they
//! answer. Each of these says that a call on a given value, with exactly these
//! arguments, gave the answer.

use vstd::prelude::*;

use crate::bytes::{byte_rows, Hash32};
use crate::consensus::equivocation::{EquivocationProof, ProofView};
use crate::consensus::hooks::{AppHook, ValidatorSetUpdate};
use crate::consensus::persistence::PersistentStore;
use crate::consensus::runner::RunnerView;
use crate::crypto::sha256;
use crate::types::block::{receipts_bytes, Block, BlockView, CommitmentV2};
use crate::types::context::ConsensusContext;
use crate::types::messages::{ConsensusState, ConsensusStateView, EpochTransitionProof, TransitionView};

verus! {

/// The root of the execution commitment that an answer holds.
pub open spec fn commitment_answer(res: Result<Option<CommitmentV2>, String>) -> Option<Hash32> {
    match res {
        Ok(Some(c)) => Some(sha256(receipts_bytes(byte_rows(c.receipts@)))),
        _ => None,
    }
}

/// The state root that an answer holds; a failure holds none.
pub open spec fn state_root_answer(res: Result<Option<Hash32>, String>) -> Option<Option<Hash32>> {
    match res {
        Ok(root) => Some(root),
        Err(_) => None,
    }
}

/// The application replays a block on its branch.
pub open spec fn asks_preflight<A: AppHook>(
    app: A,
    context: ConsensusContext,
    block: Block,
    head: Block,
    ancestors: Vec<Block>,
    answer: bool,
) -> bool {
    exists|res: Result<(), String>| #[trigger]
        call_ensures(
            A::preflight_block_with_speculative_branch,
            (&app, context, &block, &head, &ancestors),
            res,
        ) && answer == (res is Ok)
}

/// The application checks that there is room for the branch of a block and one
/// block more.
pub open spec fn asks_admission<A: AppHook>(
    app: A,
    context: ConsensusContext,
    head: Block,
    ancestors: Vec<Block>,
    parent: Hash32,
    answer: bool,
) -> bool {
    exists|roots: Vec<Hash32>, res: Result<(), String>| #[trigger]
        call_ensures(
            A::check_speculative_branch_admission,
            (&app, context, &head, &ancestors, &roots, 1usize),
            res,
        ) && roots@ == seq![parent] && answer == (res is Ok)
}

/// The application fills in the payload of the block after a parent.
pub open spec fn asks_payload<A: AppHook>(app: A, parent: Block, payload: Seq<u8>) -> bool {
    exists|res: Vec<u8>| #[trigger]
        call_ensures(A::prepare_payload, (&app, &parent), res) && res@ == payload
}

/// The application is asked for the payload of the block after a parent.
pub open spec fn payload_asked<A: AppHook>(app: A, parent: BlockView, payload: Seq<u8>) -> bool {
    exists|block: Block| block@ == parent && #[trigger] asks_payload(app, block, payload)
}

/// The application checks the payload of a block.
pub open spec fn asks_validity<A: AppHook>(app: A, block: Block, answer: bool) -> bool {
    exists|res: Result<(), String>| #[trigger]
        call_ensures(A::validate_block, (&app, &block), res) && answer == (res is Ok)
}

/// The application executes a block.
pub open spec fn asks_execution<A: AppHook>(app: A, block: Block, state: Hash32) -> bool {
    exists|m: &mut A| #[trigger] call_ensures(A::execute, (m, &block), state) && *m == app
}

/// The application derives the execution commitment of a block.
pub open spec fn asks_derivation<A: AppHook>(app: A, block: Block, answer: Option<Hash32>) -> bool {
    exists|res: Result<Option<CommitmentV2>, String>| #[trigger]
        call_ensures(A::derive_execution_commitment, (&app, &block), res) && answer
            == commitment_answer(res)
}

/// The application takes the final form of a block that it executed.
pub open spec fn asks_seal<A: AppHook>(app: A, block: Block, answer: bool) -> bool {
    exists|m: &mut A, res: Result<(), String>| #[trigger]
        call_ensures(A::seal_execution_commitment, (m, &block), res) && *m == app && answer == (
        res is Ok)
}

/// The application gives the execution commitment of a block.
pub open spec fn asks_commitment<A: AppHook>(app: A, block: Block, answer: Option<Hash32>) -> bool {
    exists|res: Result<Option<CommitmentV2>, String>| #[trigger]
        call_ensures(A::preflight_commitment, (&app, &block), res) && answer == commitment_answer(res)
}

/// The application gives the state root of a block.
pub open spec fn asks_state_root<A: AppHook>(app: A, block: Block, answer: Option<Option<Hash32>>) -> bool {
    exists|res: Result<Option<Hash32>, String>| #[trigger]
        call_ensures(A::preflight_state_root, (&app, &block), res) && answer == state_root_answer(res)
}

/// The application applies a block to the canonical state; none stands for a
/// failure.
pub open spec fn asks_commit<A: AppHook>(app: A, block: Block, answer: Option<Hash32>) -> bool {
    exists|m: &mut A, res: Result<Hash32, String>| #[trigger]
        call_ensures(A::commit, (m, &block), res) && *m == app && answer == (match res {
            Ok(h) => Some(h),
            Err(_) => None,
        })
}

/// The application publishes a durable block with its execution commitment.
pub open spec fn asks_notice<A: AppHook>(
    app: A,
    block: Block,
    commitment: CommitmentV2,
    answer: bool,
) -> bool {
    exists|m: &mut A, res: Result<(), String>| #[trigger]
        call_ensures(A::on_durable_commit, (m, &block, &commitment), res) && *m == app && answer == (
        res is Ok)
}

/// The application hands out a pending change of the validators; the answer
/// tells whether it names any.
pub open spec fn asks_update<A: AppHook>(app: A, answer: bool) -> bool {
    exists|m: &mut A, res: Option<ValidatorSetUpdate>| #[trigger]
        call_ensures(A::take_validator_update, (m,), res) && *m == app && answer == names_validators(
            res,
        )
}

/// A change of the validators names any.
pub open spec fn names_validators(update: Option<ValidatorSetUpdate>) -> bool {
    update matches Some(u) && u.node_ids@.len() != 0
}

/// The application gives the change of the validators at a finalized block;
/// none stands for a failure too.
pub open spec fn asks_transition<A: AppHook>(
    app: A,
    block: Block,
    answer: Option<ValidatorSetUpdate>,
) -> bool {
    exists|res: Result<Option<ValidatorSetUpdate>, String>| #[trigger]
        call_ensures(A::validator_set_update_for_transition, (&app, &block), res) && answer == (
        match res {
            Ok(update) => update,
            Err(_) => None,
        })
}

/// The application checks that it recovered a head.
pub open spec fn asks_recovery_head<A: AppHook>(app: A, head: Block, answer: bool) -> bool {
    exists|res: Result<(), String>| #[trigger]
        call_ensures(A::validate_recovery_head, (&app, &head), res) && answer == (res is Ok)
}

/// The application is offered a piece of evidence.
pub open spec fn offers_evidence<A: AppHook>(app: A, evidence: ProofView, answer: bool) -> bool {
    exists|m: &mut A, p: EquivocationProof| #[trigger]
        call_ensures(A::submit_equivocation_evidence, (m, p), answer) && *m == app && p@ == evidence
}

/// A durable store holds what the state of a node says of it.
pub open spec fn holds<P: PersistentStore>(store: P, s: RunnerView) -> bool {
    &&& s.durable
    &&& store.wf()
    &&& store.rows() == s.rows
    &&& store.durable_state() == s.durable_state
    &&& store.ledger() == s.ledger
    &&& store.attempts() == s.attempts
    &&& store.evidence() == s.evidence
    &&& store.staged() == s.staged
}

/// The durable store fails to record a finalized block with its execution
/// commitment, its state root and the state that belongs to it.
pub open spec fn record_fails<P: PersistentStore>(
    store: P,
    block: Block,
    commitment: CommitmentV2,
    state: ConsensusStateView,
) -> bool {
    exists|m: &mut P, s: ConsensusState, e: String| #[trigger]
        call_ensures(
            P::commit_block_with_commitment_and_state_root,
            (m, &block, &s, Some(&commitment), Some(&block.app_hash)),
            Err(e),
        ) && *m == store && s@ == state
}

/// The durable store fails to keep a consensus state.
pub open spec fn save_fails<P: PersistentStore>(store: P, state: ConsensusStateView) -> bool {
    exists|m: &mut P, s: ConsensusState, e: String| #[trigger]
        call_ensures(P::save_consensus_state, (m, &s), Err(e)) && *m == store && s@ == state
}

/// The durable store fails to record a piece of evidence.
pub open spec fn evidence_fails<P: PersistentStore>(store: P, evidence: ProofView) -> bool {
    exists|m: &mut P, p: EquivocationProof, e: String| #[trigger]
        call_ensures(P::save_equivocation_proof, (m, &p), Err(e)) && *m == store && p@ == evidence
}

/// The durable store fails to remove one of some pieces of evidence.
pub open spec fn removal_fails<P: PersistentStore>(store: P, list: Seq<ProofView>) -> bool {
    exists|m: &mut P, p: EquivocationProof, e: String| #[trigger]
        call_ensures(P::delete_equivocation_proof, (m, &p), Err(e)) && *m == store && list.contains(
            p@,
        )
}

/// The durable store cannot read its finalized blocks.
pub open spec fn blocks_unreadable<P: PersistentStore>(store: P) -> bool {
    exists|e: String| #[trigger] call_ensures(P::blocks_from_height, (&store, 0u64), Err(e))
}

/// The durable store cannot read its records of evidence.
pub open spec fn evidence_unreadable<P: PersistentStore>(store: P) -> bool {
    exists|e: String| #[trigger] call_ensures(P::load_equivocation_proofs, (&store,), Err(e))
}

/// The durable store has no place for a block.
pub open spec fn journal_refuses<P: PersistentStore>(
    store: P,
    block: Block,
    block_bytes: usize,
    roots: Seq<Hash32>,
    max_blocks: usize,
    max_bytes: usize,
) -> bool {
    exists|m: &mut P, list: Vec<Hash32>, e: String| #[trigger]
        call_ensures(
            P::admit_speculative_with_rolling_victim,
            (m, &block, block_bytes, &list, max_blocks, max_bytes),
            Err(e),
        ) && *m == store && list@ == roots
}

/// The durable store takes a block.
pub open spec fn journal_takes<P: PersistentStore>(
    store: P,
    block: Block,
    block_bytes: usize,
    roots: Seq<Hash32>,
    max_blocks: usize,
    max_bytes: usize,
) -> bool {
    exists|m: &mut P, list: Vec<Hash32>, res: Result<(), String>| #[trigger]
        call_ensures(
            P::admit_speculative_with_rolling_victim,
            (m, &block, block_bytes, &list, max_blocks, max_bytes),
            res,
        ) && *m == store && list@ == roots && res is Ok
}

/// The durable store prunes its unfinalized branches.
pub open spec fn pruning_done<P: PersistentStore>(
    store: P,
    roots: Seq<Hash32>,
    max_blocks: usize,
    max_bytes: usize,
) -> bool {
    exists|m: &mut P, list: Vec<Hash32>, res: Result<(), String>| #[trigger]
        call_ensures(P::prune_speculative, (m, &list, max_blocks, max_bytes), res) && *m == store
            && list@ == roots && res is Ok
}

/// The durable store fails to prune its unfinalized branches.
pub open spec fn pruning_fails<P: PersistentStore>(
    store: P,
    roots: Seq<Hash32>,
    max_blocks: usize,
    max_bytes: usize,
) -> bool {
    exists|m: &mut P, list: Vec<Hash32>, e: String| #[trigger]
        call_ensures(P::prune_speculative, (m, &list, max_blocks, max_bytes), Err(e)) && *m == store
            && list@ == roots
}

/// The durable store fails to stage a change of the validators.
pub open spec fn staging_fails<P: PersistentStore>(store: P, change: TransitionView) -> bool {
    exists|m: &mut P, c: EpochTransitionProof, e: String| #[trigger]
        call_ensures(P::save_epoch_transition_proof, (m, &c), Err(e)) && *m == store && c@ == change
}

/// An answer about room is the application's own about the branch, with its parent as the
/// one block that must stay and with one place to spare.
pub proof fn lemma_one_place_to_spare<A: AppHook>(
    app: A,
    context: ConsensusContext,
    head: Block,
    ancestors: Vec<Block>,
    parent: Hash32,
    answer: bool,
)
    requires
        asks_admission(app, context, head, ancestors, parent, answer),
    ensures
        exists|roots: Vec<Hash32>, res: Result<(), String>| #[trigger]
            call_ensures(
                A::check_speculative_branch_admission,
                (&app, context, &head, &ancestors, &roots, 1usize),
                res,
            ) && roots@.len() == 1 && roots@[0] == parent && (answer <==> res is Ok),
{
}

/// An answer holds the root of the commitment that it gives, and a failure holds none; a
/// change of the validators counts only if it names any.
pub proof fn lemma_answers_read(c: CommitmentV2, root: Option<Hash32>, e: String, u: ValidatorSetUpdate)
    ensures
        commitment_answer(Ok(Some(c))) == Some(sha256(receipts_bytes(byte_rows(c.receipts@)))),
        commitment_answer(Ok(None)) is None,
        commitment_answer(Err(e)) is None,
        state_root_answer(Ok(root)) == Some(root),
        state_root_answer(Err(e)) is None,
        names_validators(Some(u)) <==> u.node_ids@.len() > 0,
        !names_validators(None),
{
}

/// What a node says of its durable store is what the store holds.
pub proof fn lemma_store_held<P: PersistentStore>(store: P, s: RunnerView)
    requires
        holds(store, s),
    ensures
        s.durable,
        store.wf(),
        s.rows == store.rows(),
        s.durable_state == store.durable_state(),
        s.ledger == store.ledger(),
        s.evidence == store.evidence(),
        s.staged == store.staged(),
        s.attempts == store.attempts(),
{
}

/// What the questions are: each answer is that of one call on that application, about that
/// block.
pub proof fn lemma_questions<A: AppHook>(app: A, block: Block, root: Hash32)
    ensures
        asks_validity(app, block, true) ==> exists|res: Result<(), String>| #[trigger]
            call_ensures(A::validate_block, (&app, &block), res) && res is Ok,
        asks_validity(app, block, false) ==> exists|res: Result<(), String>| #[trigger]
            call_ensures(A::validate_block, (&app, &block), res) && res is Err,
        asks_commitment(app, block, Some(root)) ==> exists|res: Result<
            Option<CommitmentV2>,
            String,
        >| #[trigger]
            call_ensures(A::preflight_commitment, (&app, &block), res) && (res matches Ok(Some(c))
                && sha256(receipts_bytes(byte_rows(c.receipts@))) == root),
        asks_state_root(app, block, Some(Some(root))) ==> exists|res: Result<
            Option<Hash32>,
            String,
        >| #[trigger]
            call_ensures(A::preflight_state_root, (&app, &block), res) && res == Ok::<
                Option<Hash32>,
                String,
            >(Some(root)),
        asks_execution(app, block, root) ==> exists|m: &mut A| #[trigger]
            call_ensures(A::execute, (m, &block), root) && *m == app,
        asks_commit(app, block, Some(root)) ==> exists|m: &mut A, res: Result<
            Hash32,
            String,
        >| #[trigger]
            call_ensures(A::commit, (m, &block), res) && *m == app && res == Ok::<Hash32, String>(
                root,
            ),
        asks_seal(app, block, true) ==> exists|m: &mut A, res: Result<(), String>| #[trigger]
            call_ensures(A::seal_execution_commitment, (m, &block), res) && *m == app && res is Ok,
        asks_derivation(app, block, Some(root)) ==> exists|res: Result<
            Option<CommitmentV2>,
            String,
        >| #[trigger]
            call_ensures(A::derive_execution_commitment, (&app, &block), res) && (res matches Ok(
                Some(c),
            ) && sha256(receipts_bytes(byte_rows(c.receipts@))) == root),
        asks_recovery_head(app, block, true) ==> exists|res: Result<(), String>| #[trigger]
            call_ensures(A::validate_recovery_head, (&app, &block), res) && res is Ok,
{
}

/// A published block is handed over with its own commitment, a replay is asked about with
/// its branch, and evidence is offered as it is.
pub proof fn lemma_more_questions<A: AppHook>(
    app: A,
    context: ConsensusContext,
    block: Block,
    head: Block,
    ancestors: Vec<Block>,
    commitment: CommitmentV2,
    evidence: ProofView,
    payload: Seq<u8>,
)
    ensures
        asks_notice(app, block, commitment, true) ==> exists|m: &mut A, res: Result<
            (),
            String,
        >| #[trigger]
            call_ensures(A::on_durable_commit, (m, &block, &commitment), res) && *m == app && res is Ok,
        asks_preflight(app, context, block, head, ancestors, true) ==> exists|res: Result<
            (),
            String,
        >| #[trigger]
            call_ensures(
                A::preflight_block_with_speculative_branch,
                (&app, context, &block, &head, &ancestors),
                res,
            ) && res is Ok,
        offers_evidence(app, evidence, true) ==> exists|m: &mut A, p: EquivocationProof| #[trigger]
            call_ensures(A::submit_equivocation_evidence, (m, p), true) && *m == app && p@
                == evidence,
        asks_payload(app, block, payload) ==> exists|res: Vec<u8>| #[trigger]
            call_ensures(A::prepare_payload, (&app, &block), res) && res@ == payload,
        asks_update(app, false) ==> exists|m: &mut A, res: Option<ValidatorSetUpdate>| #[trigger]
            call_ensures(A::take_validator_update, (m,), res) && *m == app && (res matches Some(u)
                ==> u.node_ids@.len() == 0),
{
}

} // verus!
