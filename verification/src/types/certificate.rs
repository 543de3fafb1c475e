//! Quorum certificates.

use vstd::prelude::*;

use crate::bytes::{byte_rows, copy_bytes, copy_hashes, copy_rows, hash_eq, Hash32, NodeId};
use crate::types::context::{ConsensusContext, ContextMismatch};
use crate::types::vote::{build_vote_message, copy_votes, vote_message, vote_views, Vote, VoteView};

verus! {

/// Evidence that validators voted for one block in one view. An aggregate
/// certificate lists voters, keys and one signature; a plain one carries the
/// votes themselves.
pub struct Certificate {
    pub epoch: u64,
    pub committee_hash: Hash32,
    pub genesis_hash: Hash32,
    pub view: u64,
    pub block_hash: Hash32,
    pub app_hash: Option<Hash32>,
    pub votes: Vec<Vote>,
    pub voters: Vec<NodeId>,
    pub bls_pubkeys: Vec<Vec<u8>>,
    pub agg_signature: Vec<u8>,
}

/// The contents of a certificate.
pub ghost struct CertificateView {
    pub context: ConsensusContext,
    pub view: u64,
    pub block_hash: Hash32,
    pub app_hash: Option<Hash32>,
    pub votes: Seq<VoteView>,
    pub voters: Seq<NodeId>,
    pub bls_pubkeys: Seq<Seq<u8>>,
    pub agg_signature: Seq<u8>,
}

impl vstd::view::View for Certificate {
    type V = CertificateView;

    open spec fn view(&self) -> CertificateView {
        CertificateView {
            context: ConsensusContext {
                epoch: self.epoch,
                committee_hash: self.committee_hash,
                genesis_hash: self.genesis_hash,
            },
            view: self.view,
            block_hash: self.block_hash,
            app_hash: self.app_hash,
            votes: vote_views(self.votes@),
            voters: self.voters@,
            bls_pubkeys: byte_rows(self.bls_pubkeys@),
            agg_signature: self.agg_signature@,
        }
    }
}

/// Why votes do not make a certificate.
#[derive(Clone, Copy, Debug, PartialEq, Eq)]
pub enum CertificateError {
    /// There is no vote.
    NoVotes,
    /// A vote is for another context, view, block or application state.
    VoteMismatch,
    /// A vote carries no BLS key.
    MissingKey,
}

/// The voters of a list of votes.
pub open spec fn voters_of(votes: Seq<VoteView>) -> Seq<NodeId> {
    votes.map_values(|v: VoteView| v.voter)
}

/// The BLS keys of a list of votes that all carry one.
pub open spec fn keys_of(votes: Seq<VoteView>) -> Seq<Seq<u8>> {
    votes.map_values(|v: VoteView| v.bls_pubkey->Some_0)
}

/// Every vote is for the given block, and all name one application state.
pub open spec fn votes_agree(
    votes: Seq<VoteView>,
    context: ConsensusContext,
    view: u64,
    block_hash: Hash32,
) -> bool {
    forall|i: int|
        0 <= i < votes.len() ==> {
            &&& (#[trigger] votes[i]).context == context
            &&& votes[i].view == view
            &&& votes[i].block_hash == block_hash
            &&& votes[i].app_hash == votes[0].app_hash
        }
}

/// Every vote carries a BLS key.
pub open spec fn votes_keyed(votes: Seq<VoteView>) -> bool {
    forall|i: int| 0 <= i < votes.len() ==> (#[trigger] votes[i]).bls_pubkey is Some
}

/// Copies the voters of a list of votes.
pub fn collect_voters(votes: &Vec<Vote>) -> (r: Vec<NodeId>)
    ensures
        r@ == voters_of(vote_views(votes@)),
{
    let mut r: Vec<NodeId> = Vec::new();
    let mut i: usize = 0;
    while i < votes.len()
        invariant
            i <= votes.len(),
            r.len() == i,
            forall|k: int| 0 <= k < i ==> #[trigger] r[k] == votes[k].voter,
        decreases votes.len() - i,
    {
        r.push(votes[i].voter);
        i = i + 1;
    }
    assert(r@ =~= voters_of(vote_views(votes@)));
    r
}

/// Whether all votes are for one block and one application state.
fn check_agreement(votes: &Vec<Vote>, context: ConsensusContext, view: u64, block_hash: &Hash32) -> (r:
    bool)
    ensures
        r == votes_agree(vote_views(votes@), context, view, *block_hash),
{
    let ghost vs = vote_views(votes@);
    let mut i: usize = 0;
    while i < votes.len()
        invariant
            i <= votes.len(),
            vs == vote_views(votes@),
            forall|k: int|
                0 <= k < i ==> {
                    &&& (#[trigger] vs[k]).context == context
                    &&& vs[k].view == view
                    &&& vs[k].block_hash == *block_hash
                    &&& vs[k].app_hash == vs[0].app_hash
                },
        decreases votes.len() - i,
    {
        let vote = &votes[i];
        assert(vs[i as int] == vote@);
        assert(vs[0] == votes[0]@);
        if !vote.context().same_as(&context) || vote.view != view || !hash_eq(
            &vote.block_hash,
            block_hash,
        ) || !hash_eq(&vote.app_hash, &votes[0].app_hash) {
            return false;
        }
        i = i + 1;
    }
    true
}

impl CertificateView {
    /// The certificate holds an aggregate signature.
    pub open spec fn is_bls(self) -> bool {
        self.agg_signature.len() > 0
    }

    /// The listed voters, or else those of the individual votes.
    pub open spec fn signers(self) -> Seq<NodeId> {
        if self.voters.len() > 0 {
            self.voters
        } else {
            voters_of(self.votes)
        }
    }
}

impl Certificate {
    /// A certificate that carries its votes.
    pub fn new(
        context: ConsensusContext,
        view: u64,
        block_hash: Hash32,
        votes: Vec<Vote>,
    ) -> (r: Result<Certificate, CertificateError>)
        ensures
            match r {
                Ok(c) => {
                    &&& votes@.len() > 0
                    &&& votes_agree(vote_views(votes@), context, view, block_hash)
                    &&& c@ == (CertificateView {
                        context,
                        view,
                        block_hash,
                        app_hash: Some(votes[0].app_hash),
                        votes: vote_views(votes@),
                        voters: voters_of(vote_views(votes@)),
                        bls_pubkeys: Seq::empty(),
                        agg_signature: Seq::empty(),
                    })
                },
                Err(CertificateError::NoVotes) => votes@.len() == 0,
                Err(CertificateError::VoteMismatch) => votes@.len() > 0 && !votes_agree(
                    vote_views(votes@),
                    context,
                    view,
                    block_hash,
                ),
                Err(CertificateError::MissingKey) => false,
            },
    {
        if votes.len() == 0 {
            return Err(CertificateError::NoVotes);
        }
        if !check_agreement(&votes, context, view, &block_hash) {
            return Err(CertificateError::VoteMismatch);
        }
        let voters = collect_voters(&votes);
        let app_hash = votes[0].app_hash;
        let keys: Vec<Vec<u8>> = Vec::new();
        assert(byte_rows(keys@) =~= Seq::empty());
        Ok(
            Certificate {
                epoch: context.epoch,
                committee_hash: context.committee_hash,
                genesis_hash: context.genesis_hash,
                view,
                block_hash,
                app_hash: Some(app_hash),
                votes,
                voters,
                bls_pubkeys: keys,
                agg_signature: Vec::new(),
            },
        )
    }

    /// A certificate that carries an aggregate signature in place of the
    /// votes it was made from.
    pub fn new_bls(
        context: ConsensusContext,
        view: u64,
        block_hash: Hash32,
        votes: Vec<Vote>,
        agg_signature: Vec<u8>,
    ) -> (r: Result<Certificate, CertificateError>)
        ensures
            match r {
                Ok(c) => {
                    &&& votes@.len() > 0
                    &&& votes_agree(vote_views(votes@), context, view, block_hash)
                    &&& votes_keyed(vote_views(votes@))
                    &&& c@ == (CertificateView {
                        context,
                        view,
                        block_hash,
                        app_hash: Some(votes[0].app_hash),
                        votes: Seq::empty(),
                        voters: voters_of(vote_views(votes@)),
                        bls_pubkeys: keys_of(vote_views(votes@)),
                        agg_signature: agg_signature@,
                    })
                },
                Err(CertificateError::NoVotes) => votes@.len() == 0,
                Err(CertificateError::VoteMismatch) => votes@.len() > 0 && !votes_agree(
                    vote_views(votes@),
                    context,
                    view,
                    block_hash,
                ),
                Err(CertificateError::MissingKey) => votes@.len() > 0 && votes_agree(
                    vote_views(votes@),
                    context,
                    view,
                    block_hash,
                ) && !votes_keyed(vote_views(votes@)),
            },
    {
        if votes.len() == 0 {
            return Err(CertificateError::NoVotes);
        }
        if !check_agreement(&votes, context, view, &block_hash) {
            return Err(CertificateError::VoteMismatch);
        }
        let ghost vs = vote_views(votes@);
        let mut keys: Vec<Vec<u8>> = Vec::new();
        let mut i: usize = 0;
        while i < votes.len()
            invariant
                i <= votes.len(),
                keys.len() == i,
                vs == vote_views(votes@),
                votes@.len() > 0,
                votes_agree(vs, context, view, block_hash),
                forall|k: int| 0 <= k < i ==> (#[trigger] vs[k]).bls_pubkey == Some(keys[k]@),
            decreases votes.len() - i,
        {
            assert(vs[i as int] == votes[i as int]@);
            match &votes[i].bls_pubkey {
                Some(key) => {
                    keys.push(copy_bytes(key));
                },
                None => {
                    return Err(CertificateError::MissingKey);
                },
            }
            i = i + 1;
        }
        let voters = collect_voters(&votes);
        let app_hash = votes[0].app_hash;
        let none: Vec<Vote> = Vec::new();
        assert(vote_views(none@) =~= Seq::empty());
        assert(byte_rows(keys@) =~= keys_of(vs));
        Ok(
            Certificate {
                epoch: context.epoch,
                committee_hash: context.committee_hash,
                genesis_hash: context.genesis_hash,
                view,
                block_hash,
                app_hash: Some(app_hash),
                votes: none,
                voters,
                bls_pubkeys: keys,
                agg_signature,
            },
        )
    }

    /// The context of the certificate.
    pub fn context(&self) -> (r: ConsensusContext)
        ensures
            r == self@.context,
    {
        ConsensusContext {
            epoch: self.epoch,
            committee_hash: self.committee_hash,
            genesis_hash: self.genesis_hash,
        }
    }

    /// Fails unless the certificate belongs to the expected context.
    pub fn validate_context(&self, expected: ConsensusContext) -> (r: Result<(), ContextMismatch>)
        ensures
            r is Ok <==> self@.context == expected,
    {
        self.context().expect(expected)
    }

    /// Whether the certificate holds an aggregate signature.
    pub fn is_bls(&self) -> (r: bool)
        ensures
            r == self@.is_bls(),
    {
        self.agg_signature.len() > 0
    }

    /// The listed voters, or else those of the individual votes.
    pub fn signers(&self) -> (r: Vec<NodeId>)
        ensures
            r@ == self@.signers(),
    {
        if self.voters.len() > 0 {
            copy_hashes(&self.voters)
        } else {
            collect_voters(&self.votes)
        }
    }

    /// The number of votes behind the certificate.
    pub fn vote_count(&self) -> (r: usize)
        ensures
            r == self@.signers().len(),
    {
        if self.voters.len() > 0 {
            self.voters.len()
        } else {
            self.votes.len()
        }
    }

    /// The message that the voters of a certificate signed.
    pub fn build_signing_message(
        context: ConsensusContext,
        view: u64,
        block_hash: &Hash32,
        app_hash: &Hash32,
    ) -> (r: Vec<u8>)
        ensures
            r@ == vote_message(context, view, *block_hash, *app_hash),
    {
        build_vote_message(context, view, block_hash, app_hash)
    }
}

impl Clone for Certificate {
    fn clone(&self) -> (r: Self)
        ensures
            r@ == self@,
    {
        Certificate {
            epoch: self.epoch,
            committee_hash: self.committee_hash,
            genesis_hash: self.genesis_hash,
            view: self.view,
            block_hash: self.block_hash,
            app_hash: self.app_hash,
            votes: copy_votes(&self.votes),
            voters: copy_hashes(&self.voters),
            bls_pubkeys: copy_rows(&self.bls_pubkeys),
            agg_signature: copy_bytes(&self.agg_signature),
        }
    }
}

/// The contents of an optional certificate.
pub open spec fn option_certificate(o: Option<Certificate>) -> Option<CertificateView> {
    match o {
        Some(c) => Some(c@),
        None => None,
    }
}

/// Copies an optional certificate.
pub fn copy_option_certificate(o: &Option<Certificate>) -> (r: Option<Certificate>)
    ensures
        option_certificate(r) == option_certificate(*o),
{
    match o {
        Some(c) => Some(c.clone()),
        None => None,
    }
}

/// Whether two certificates hold the same contents.
pub fn certificate_eq(a: &Certificate, b: &Certificate) -> (r: bool)
    ensures
        r == (a@ == b@),
{
    if !a.context().same_as(&b.context()) || a.view != b.view || !hash_eq(&a.block_hash, &b.block_hash)
        || !crate::bytes::option_hash_eq(&a.app_hash, &b.app_hash) || !crate::bytes::bytes_eq(
        &a.agg_signature,
        &b.agg_signature,
    ) || a.votes.len() != b.votes.len() || a.voters.len() != b.voters.len() || a.bls_pubkeys.len()
        != b.bls_pubkeys.len() {
        proof {
            assert(a@.votes.len() == a.votes.len() && b@.votes.len() == b.votes.len());
            assert(a@.bls_pubkeys.len() == a.bls_pubkeys.len() && b@.bls_pubkeys.len()
                == b.bls_pubkeys.len());
        }
        return false;
    }
    let mut i: usize = 0;
    while i < a.voters.len()
        invariant
            i <= a.voters.len(),
            a.voters.len() == b.voters.len(),
            forall|k: int| 0 <= k < i ==> a.voters[k] == b.voters[k],
        decreases a.voters.len() - i,
    {
        if !hash_eq(&a.voters[i], &b.voters[i]) {
            return false;
        }
        i = i + 1;
    }
    assert(a.voters@ =~= b.voters@);
    let mut j: usize = 0;
    while j < a.bls_pubkeys.len()
        invariant
            j <= a.bls_pubkeys.len(),
            a.bls_pubkeys.len() == b.bls_pubkeys.len(),
            forall|k: int| 0 <= k < j ==> a.bls_pubkeys[k]@ == b.bls_pubkeys[k]@,
        decreases a.bls_pubkeys.len() - j,
    {
        if !crate::bytes::bytes_eq(&a.bls_pubkeys[j], &b.bls_pubkeys[j]) {
            assert(a@.bls_pubkeys[j as int] != b@.bls_pubkeys[j as int]);
            return false;
        }
        j = j + 1;
    }
    assert(a@.bls_pubkeys =~= b@.bls_pubkeys);
    let mut n: usize = 0;
    while n < a.votes.len()
        invariant
            n <= a.votes.len(),
            a.votes.len() == b.votes.len(),
            forall|k: int| 0 <= k < n ==> (#[trigger] a.votes[k])@ == b.votes[k]@,
        decreases a.votes.len() - n,
    {
        if !vote_eq(&a.votes[n], &b.votes[n]) {
            assert(a@.votes[n as int] != b@.votes[n as int]);
            return false;
        }
        n = n + 1;
    }
    assert(a@.votes =~= b@.votes);
    true
}

/// Whether two votes hold the same contents.
pub fn vote_eq(a: &Vote, b: &Vote) -> (r: bool)
    ensures
        r == (a@ == b@),
{
    let keys = match (&a.bls_pubkey, &b.bls_pubkey) {
        (Some(x), Some(y)) => crate::bytes::bytes_eq(x, y),
        (None, None) => true,
        _ => false,
    };
    a.context().same_as(&b.context()) && a.view == b.view && hash_eq(&a.block_hash, &b.block_hash)
        && hash_eq(&a.app_hash, &b.app_hash) && hash_eq(&a.voter, &b.voter) && crate::bytes::bytes_eq(
        &a.signature,
        &b.signature,
    ) && keys
}

/// Whether two optional certificates hold the same contents.
pub fn option_certificate_eq(a: &Option<Certificate>, b: &Option<Certificate>) -> (r: bool)
    ensures
        r == (option_certificate(*a) == option_certificate(*b)),
{
    match (a, b) {
        (Some(x), Some(y)) => certificate_eq(x, y),
        (None, None) => true,
        _ => false,
    }
}

/// A certificate speaks for the validators that it lists, or else for those whose
/// votes it carries.
pub proof fn lemma_signers(c: CertificateView, i: int)
    ensures
        c.voters.len() > 0 ==> c.signers() == c.voters,
        c.voters.len() == 0 ==> c.signers().len() == c.votes.len() && (0 <= i < c.votes.len()
            ==> c.signers()[i] == c.votes[i].voter),
        c.is_bls() <==> c.agg_signature.len() != 0,
{
}

/// Votes agree exactly if all are for one block in one view and context, and name
/// one application state.
pub proof fn lemma_votes_agree(
    votes: Seq<VoteView>,
    context: ConsensusContext,
    view: u64,
    block_hash: Hash32,
    i: int,
    j: int,
)
    requires
        votes_agree(votes, context, view, block_hash),
        0 <= i < votes.len(),
        0 <= j < votes.len(),
    ensures
        votes[i].context == context,
        votes[i].view == view,
        votes[i].block_hash == block_hash,
        votes[i].app_hash == votes[j].app_hash,
        voters_of(votes)[i] == votes[i].voter,
        votes[i].bls_pubkey matches Some(k) ==> keys_of(votes)[i] == k,
{
}

/// What the contents of a certificate are: its fields, under the context that it names.
pub proof fn lemma_certificate_contents(c: Certificate)
    ensures
        c@.view == c.view,
        c@.block_hash == c.block_hash,
        c@.app_hash == c.app_hash,
        c@.votes == vote_views(c.votes@),
        c@.voters == c.voters@,
        c@.bls_pubkeys == byte_rows(c.bls_pubkeys@),
        c@.agg_signature == c.agg_signature@,
        c@.context.epoch == c.epoch,
        c@.context.committee_hash == c.committee_hash,
        c@.context.genesis_hash == c.genesis_hash,
{
}

} // verus!
