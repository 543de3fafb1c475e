//! Votes on proposed blocks.

use vstd::prelude::*;

use crate::bytes::{
    copy_bytes, copy_option_bytes, lemma_hash_view, lemma_split, option_bytes, put_hash, put_u64,
    Hash32, NodeId,
};
use crate::crypto::{
    bls_key_decodes, bls_public_key, bls_signature, bls_signature_decodes, bls_verifies,
    signature_verifies, BlsSecretKey,
};
use crate::types::context::{
    context_bytes, lemma_context_injective, lemma_context_len, ConsensusContext, ContextMismatch,
};

verus! {

/// One validator's vote on one block in one view.
pub struct Vote {
    pub epoch: u64,
    pub committee_hash: Hash32,
    pub genesis_hash: Hash32,
    pub view: u64,
    pub block_hash: Hash32,
    pub app_hash: Hash32,
    pub voter: NodeId,
    pub signature: Vec<u8>,
    pub bls_pubkey: Option<Vec<u8>>,
}

/// The contents of a vote.
pub ghost struct VoteView {
    pub context: ConsensusContext,
    pub view: u64,
    pub block_hash: Hash32,
    pub app_hash: Hash32,
    pub voter: NodeId,
    pub signature: Seq<u8>,
    pub bls_pubkey: Option<Seq<u8>>,
}

impl vstd::view::View for Vote {
    type V = VoteView;

    open spec fn view(&self) -> VoteView {
        VoteView {
            context: ConsensusContext {
                epoch: self.epoch,
                committee_hash: self.committee_hash,
                genesis_hash: self.genesis_hash,
            },
            view: self.view,
            block_hash: self.block_hash,
            app_hash: self.app_hash,
            voter: self.voter,
            signature: self.signature@,
            bls_pubkey: option_bytes(self.bls_pubkey),
        }
    }
}

/// The message that validators sign to vote: it names the context, the view,
/// the block and the application state, and not the voter.
pub open spec fn vote_message(
    context: ConsensusContext,
    view: u64,
    block_hash: Hash32,
    app_hash: Hash32,
) -> Seq<u8> {
    seq![1u8] + context_bytes(context) + vstd::bytes::spec_u64_to_le_bytes(view) + block_hash@
        + app_hash@
}

/// Builds the message that validators sign to vote.
pub fn build_vote_message(
    context: ConsensusContext,
    view: u64,
    block_hash: &Hash32,
    app_hash: &Hash32,
) -> (r: Vec<u8>)
    ensures
        r@ == vote_message(context, view, *block_hash, *app_hash),
{
    let mut out: Vec<u8> = Vec::new();
    out.push(1u8);
    context.put(&mut out);
    put_u64(&mut out, view);
    put_hash(&mut out, block_hash);
    put_hash(&mut out, app_hash);
    assert(out@ =~= vote_message(context, view, *block_hash, *app_hash));
    out
}

/// A signed vote message determines the context, the view, the block and the
/// application state that it was signed for.
pub proof fn lemma_vote_message_injective(
    c1: ConsensusContext,
    v1: u64,
    b1: Hash32,
    a1: Hash32,
    c2: ConsensusContext,
    v2: u64,
    b2: Hash32,
    a2: Hash32,
)
    requires
        vote_message(c1, v1, b1, a1) == vote_message(c2, v2, b2, a2),
    ensures
        c1 == c2,
        v1 == v2,
        b1 == b2,
        a1 == a2,
{
    vstd::bytes::lemma_auto_spec_u64_to_from_le_bytes();
    lemma_context_len(c1);
    lemma_context_len(c2);
    let t = seq![1u8];
    let e1 = vstd::bytes::spec_u64_to_le_bytes(v1);
    let e2 = vstd::bytes::spec_u64_to_le_bytes(v2);
    let x1 = context_bytes(c1);
    let x2 = context_bytes(c2);
    lemma_split(t + x1 + e1 + b1@, a1@, t + x2 + e2 + b2@, a2@);
    lemma_split(t + x1 + e1, b1@, t + x2 + e2, b2@);
    lemma_split(t + x1, e1, t + x2, e2);
    lemma_split(t, x1, t, x2);
    lemma_context_injective(c1, c2);
    lemma_hash_view(a1, a2);
    lemma_hash_view(b1, b2);
    assert(vstd::bytes::spec_u64_from_le_bytes(e1) == v1);
    assert(vstd::bytes::spec_u64_from_le_bytes(e2) == v2);
}

impl VoteView {
    /// The message that the vote's signature is on.
    pub open spec fn message(self) -> Seq<u8> {
        vote_message(self.context, self.view, self.block_hash, self.app_hash)
    }

    /// The vote carries a BLS key and a signature of BLS length.
    pub open spec fn is_bls(self) -> bool {
        self.bls_pubkey is Some && self.signature.len() == 96
    }
}

impl Vote {
    /// A vote with a placeholder signature.
    pub fn new(
        context: ConsensusContext,
        view: u64,
        block_hash: Hash32,
        app_hash: Hash32,
        voter: NodeId,
    ) -> (r: Self)
        ensures
            r@ == (VoteView {
                context,
                view,
                block_hash,
                app_hash,
                voter,
                signature: Seq::new(64, |i: int| 0u8),
                bls_pubkey: None,
            }),
    {
        let signature = vec![0u8; 64];
        assert(signature@ =~= Seq::new(64, |i: int| 0u8));
        Vote {
            epoch: context.epoch,
            committee_hash: context.committee_hash,
            genesis_hash: context.genesis_hash,
            view,
            block_hash,
            app_hash,
            voter,
            signature,
            bls_pubkey: None,
        }
    }

    /// A vote signed with a BLS key.
    pub fn new_bls(
        context: ConsensusContext,
        view: u64,
        block_hash: Hash32,
        app_hash: Hash32,
        voter: NodeId,
        secret: &BlsSecretKey,
    ) -> (r: Self)
        ensures
            r@ == (VoteView {
                context,
                view,
                block_hash,
                app_hash,
                voter,
                signature: bls_signature(
                    secret.seed()@,
                    vote_message(context, view, block_hash, app_hash),
                ),
                bls_pubkey: Some(bls_public_key(secret.seed()@)),
            }),
            r@.is_bls(),
            bls_public_key(secret.seed()@).len() == 48,
            bls_key_decodes(bls_public_key(secret.seed()@)),
            r@.signature.len() == 96,
            bls_signature_decodes(r@.signature),
            bls_verifies(bls_public_key(secret.seed()@), r@.message(), r@.signature),
    {
        let message = build_vote_message(context, view, &block_hash, &app_hash);
        Vote {
            epoch: context.epoch,
            committee_hash: context.committee_hash,
            genesis_hash: context.genesis_hash,
            view,
            block_hash,
            app_hash,
            voter,
            signature: secret.sign(&message),
            bls_pubkey: Some(secret.public_key()),
        }
    }

    /// The context of the vote.
    pub fn context(&self) -> (r: ConsensusContext)
        ensures
            r == self@.context,
    {
        ConsensusContext {
            epoch: self.epoch,
            committee_hash: self.committee_hash,
            genesis_hash: self.genesis_hash,
        }
    }

    /// Fails unless the vote belongs to the expected context.
    pub fn validate_context(&self, expected: ConsensusContext) -> (r: Result<(), ContextMismatch>)
        ensures
            r is Ok <==> self@.context == expected,
    {
        self.context().expect(expected)
    }

    /// Whether the vote carries a BLS key and a signature of BLS length.
    pub fn is_bls(&self) -> (r: bool)
        ensures
            r == self@.is_bls(),
    {
        self.bls_pubkey.is_some() && self.signature.len() == 96
    }

    /// The message that the vote's signature is on.
    pub fn signing_data_common(&self) -> (r: Vec<u8>)
        ensures
            r@ == self@.message(),
    {
        build_vote_message(self.context(), self.view, &self.block_hash, &self.app_hash)
    }

    /// Whether the signature verifies under the key that the vote carries.
    pub fn verify_bls(&self) -> (r: bool)
        ensures
            r == (self@.is_bls() && bls_verifies(
                self@.bls_pubkey->Some_0,
                self@.message(),
                self@.signature,
            )),
    {
        if self.signature.len() != 96 {
            return false;
        }
        match &self.bls_pubkey {
            Some(key) => signature_verifies(key, &self.signing_data_common(), &self.signature),
            None => false,
        }
    }
}

impl Clone for Vote {
    fn clone(&self) -> (r: Self)
        ensures
            r@ == self@,
    {
        Vote {
            epoch: self.epoch,
            committee_hash: self.committee_hash,
            genesis_hash: self.genesis_hash,
            view: self.view,
            block_hash: self.block_hash,
            app_hash: self.app_hash,
            voter: self.voter,
            signature: copy_bytes(&self.signature),
            bls_pubkey: copy_option_bytes(&self.bls_pubkey),
        }
    }
}

/// The contents of a list of votes.
pub open spec fn vote_views(votes: Seq<Vote>) -> Seq<VoteView> {
    votes.map_values(|v: Vote| v@)
}

/// Copies a list of votes.
pub fn copy_votes(votes: &Vec<Vote>) -> (r: Vec<Vote>)
    ensures
        vote_views(r@) == vote_views(votes@),
{
    let mut r: Vec<Vote> = Vec::new();
    let mut i: usize = 0;
    while i < votes.len()
        invariant
            i <= votes.len(),
            r.len() == i,
            forall|k: int| 0 <= k < i ==> (#[trigger] r[k])@ == votes[k]@,
        decreases votes.len() - i,
    {
        r.push(votes[i].clone());
        i = i + 1;
    }
    assert(vote_views(r@) =~= vote_views(votes@));
    r
}

/// What the contents of a vote are: its fields, under the context that it names.
pub proof fn lemma_vote_contents(v: Vote)
    ensures
        v@.view == v.view,
        v@.block_hash == v.block_hash,
        v@.app_hash == v.app_hash,
        v@.voter == v.voter,
        v@.signature == v.signature@,
        v@.bls_pubkey == option_bytes(v.bls_pubkey),
        v@.context.epoch == v.epoch,
        v@.context.committee_hash == v.committee_hash,
        v@.context.genesis_hash == v.genesis_hash,
        v@.is_bls() <==> v.bls_pubkey is Some && v.signature@.len() == 96,
{
}

} // verus!
