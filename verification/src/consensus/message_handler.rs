//! Storage of incoming votes.

use vstd::prelude::*;

use crate::bytes::Hash32;
use crate::consensus::equivocation::{
    proof_of, voter_key, EquivocationDetector, EquivocationProof, VoteCheckResult,
};
use crate::table::Table;
use crate::types::context::ConsensusContext;
use crate::types::vote::{vote_views, Vote, VoteView};

verus! {

/// The votes of a table, by block.
pub open spec fn vote_map(m: Map<Hash32, Vec<Vote>>) -> Map<Hash32, Seq<VoteView>> {
    Map::new(|k: Hash32| m.contains_key(k), |k: Hash32| vote_views(m[k]@))
}

/// The votes for a block.
pub open spec fn votes_for(m: Map<Hash32, Seq<VoteView>>, block_hash: Hash32) -> Seq<VoteView> {
    if m.contains_key(block_hash) {
        m[block_hash]
    } else {
        Seq::empty()
    }
}

/// The votes after one more came.
pub open spec fn with_vote(m: Map<Hash32, Seq<VoteView>>, vote: VoteView) -> Map<Hash32, Seq<VoteView>> {
    m.insert(vote.block_hash, votes_for(m, vote.block_hash).push(vote))
}

/// Stores a vote if it belongs to the expected context; a vote of another
/// context changes nothing. Returns evidence if the voter already voted for
/// another block in the view.
pub fn store_vote_with_context(
    votes: &mut Table<Hash32, Vec<Vote>>,
    vote: Vote,
    expected_context: ConsensusContext,
    equivocation_detector: &mut EquivocationDetector,
) -> (r: Option<EquivocationProof>)
    requires
        old(votes).wf(),
        old(equivocation_detector).wf(),
    ensures
        final(votes).wf(),
        final(equivocation_detector).wf(),
        if vote@.context == expected_context {
            &&& vote_map(final(votes).map()) == with_vote(vote_map(old(votes).map()), vote@)
            &&& final(equivocation_detector)@ == old(equivocation_detector)@.after(vote@)
            &&& match r {
                Some(p) => old(equivocation_detector)@.accepts(vote@)
                    && old(equivocation_detector)@.conflicts(vote@) && p@ == proof_of(
                    old(equivocation_detector)@.votes[voter_key(vote@)],
                    vote@,
                ),
                None => !(old(equivocation_detector)@.accepts(vote@)
                    && old(equivocation_detector)@.conflicts(vote@)),
            }
        } else {
            &&& r is None
            &&& final(votes).map() == old(votes).map()
            &&& final(equivocation_detector)@ == old(equivocation_detector)@
        },
{
    if vote.validate_context(expected_context).is_err() {
        return None;
    }
    store_vote_with_equivocation_check(votes, vote, equivocation_detector)
}

/// Stores a vote and checks whether the voter already voted for another block
/// in the view.
pub fn store_vote_with_equivocation_check(
    votes: &mut Table<Hash32, Vec<Vote>>,
    vote: Vote,
    equivocation_detector: &mut EquivocationDetector,
) -> (r: Option<EquivocationProof>)
    requires
        old(votes).wf(),
        old(equivocation_detector).wf(),
    ensures
        final(votes).wf(),
        final(equivocation_detector).wf(),
        vote_map(final(votes).map()) == with_vote(vote_map(old(votes).map()), vote@),
        final(equivocation_detector)@ == old(equivocation_detector)@.after(vote@),
        match r {
            Some(p) => old(equivocation_detector)@.accepts(vote@)
                && old(equivocation_detector)@.conflicts(vote@) && p@ == proof_of(
                old(equivocation_detector)@.votes[voter_key(vote@)],
                vote@,
            ),
            None => !(old(equivocation_detector)@.accepts(vote@)
                && old(equivocation_detector)@.conflicts(vote@)),
        },
{
    let result = equivocation_detector.check_vote(&vote);
    store_vote(votes, vote);
    match result {
        VoteCheckResult::Equivocation(p) => Some(p),
        _ => None,
    }
}

/// Stores a vote under its block.
pub fn store_vote(votes: &mut Table<Hash32, Vec<Vote>>, vote: Vote)
    requires
        old(votes).wf(),
    ensures
        final(votes).wf(),
        vote_map(final(votes).map()) == with_vote(vote_map(old(votes).map()), vote@),
{
    let ghost before = votes.map();
    let ghost all = votes_for(vote_map(before), vote.block_hash).push(vote@);
    let k = vote.block_hash;
    match votes.find(&k) {
        Some(i) => {
            let list = votes.value_mut(i);
            list.push(vote);
            assert(vote_views(list@) =~= all);
        },
        None => {
            let mut list: Vec<Vote> = Vec::new();
            list.push(vote);
            assert(vote_views(list@) =~= all);
            votes.push_new(k, list);
        },
    }
    assert(vote_map(votes.map()) =~= vote_map(before).insert(k, all));
}

/// A stored vote comes last among the votes for its block, and the votes for all
/// other blocks stay as they are.
pub proof fn lemma_vote_stored(m: Map<Hash32, Seq<VoteView>>, vote: VoteView, other: Hash32)
    ensures
        votes_for(with_vote(m, vote), vote.block_hash) == votes_for(m, vote.block_hash).push(vote),
        other != vote.block_hash ==> votes_for(with_vote(m, vote), other) == votes_for(m, other),
        !m.contains_key(other) ==> votes_for(m, other).len() == 0,
{
}

} // verus!
