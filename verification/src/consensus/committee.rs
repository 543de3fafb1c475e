//! Verification of votes and certificates against the active committee.
//!
//! A certificate is only meaningful relative to the committee: the identity of
//! each signer, its configured key, its voting power, the view, the block and
//! the application state all have to agree.

use vstd::prelude::*;

use crate::bytes::{
    all_zero, byte_rows, bytes_eq, contains_hash, copy_bytes, copy_option_bytes, hash_before,
    hash_eq, hash_less, insert_hash, lemma_hash_order_total, lemma_hash_order_transitive,
    zero_hash, Hash32, NodeId,
};
use crate::consensus::equivocation::{
    proof_of, record_of, EquivocationProof, ProofError, ProofView,
};
use crate::crypto::{
    aggregate_signatures, aggregate_verifies, bls_aggregate, bls_aggregate_verifies,
    bls_key_decodes, bls_signature_decodes, bls_verifies, key_decodes, signature_decodes,
    signature_verifies,
};
use crate::types::certificate::{
    collect_voters, keys_of, voters_of, votes_agree, votes_keyed, Certificate, CertificateError,
    CertificateView,
};
use crate::types::committee::{
    is_member, is_quorum, member_of, members_hash, quorum_check, valid_members, valid_signers,
    Committee, MemberView, QuorumError,
};
use crate::types::context::ConsensusContext;
use crate::types::vote::{vote_message, vote_views, Vote, VoteView};

verus! {

/// Why a vote, a certificate or a proof is refused.
#[derive(Clone, Copy, Debug, PartialEq, Eq)]
pub enum VerifyError {
    /// The expected context names another committee.
    CommitteeContext,
    /// The message belongs to another context.
    MessageContext,
    /// The message is for another view.
    ViewMismatch { found: u64, expected: u64 },
    /// The message is for another block.
    BlockMismatch,
    /// The message is for another application state.
    AppHashMismatch,
    /// The voter is not a member of the committee.
    UnknownMember(NodeId),
    /// A signature is required and the member has no configured key.
    NoConfiguredKey,
    /// The vote does not carry the member's key.
    MissingKey,
    /// The vote carries another key than the member's.
    KeyMismatch,
    /// The vote's signature does not have 96 bytes.
    SignatureLength,
    /// The configured key does not have 48 bytes.
    KeyLength,
    /// The configured key does not decode.
    KeyEncoding,
    /// A signature does not decode.
    SignatureEncoding,
    /// A signature does not verify.
    SignatureInvalid,
    /// The vote carries no signature, or only zero bytes.
    NoSignature,
    /// An aggregate certificate is required.
    AggregateRequired,
    /// The aggregate certificate names no application state.
    MissingAppHash,
    /// The aggregate certificate lists no voters.
    NoVoters,
    /// The aggregate certificate carries individual votes.
    CarriesVotes,
    /// The numbers of voters and keys differ.
    CountMismatch,
    /// A voter occurs twice.
    DuplicateVoter,
    /// A listed voter has no key in the committee.
    UnknownVoter(NodeId),
    /// A listed key is not the one in the committee.
    ListedKeyMismatch,
    /// The plain certificate has no votes, or no vote was given.
    NoVotes,
    /// The listed voters are not those of the votes.
    VoterListMismatch,
    /// The signers are not distinct members.
    Signers(QuorumError),
    /// The signers have no more than two thirds of the voting power.
    NoQuorum,
    /// The signatures cannot be aggregated.
    Aggregation,
    /// The votes do not make a certificate.
    Formation(CertificateError),
    /// The proof belongs to another context.
    ProofContext,
    /// The proof is not in canonical form.
    Proof(ProofError),
    /// The accused validator is not a member of the committee.
    UnknownOffender,
}

/// The fault of a configured key.
pub open spec fn key_fault(key: Seq<u8>) -> Option<VerifyError> {
    if key.len() != 48 {
        Some(VerifyError::KeyLength)
    } else if !bls_key_decodes(key) {
        Some(VerifyError::KeyEncoding)
    } else {
        None
    }
}

/// The fault of a vote's signature, given the configured key of its voter.
pub open spec fn signature_fault(key: Option<Seq<u8>>, vote: VoteView, require_bls: bool) -> Option<
    VerifyError,
> {
    match key {
        None => if require_bls {
            Some(VerifyError::NoConfiguredKey)
        } else if forall|k: int| 0 <= k < vote.signature.len() ==> vote.signature[k] == 0 {
            Some(VerifyError::NoSignature)
        } else {
            None
        },
        Some(key) => if vote.bls_pubkey is None {
            Some(VerifyError::MissingKey)
        } else if vote.bls_pubkey->Some_0 != key {
            Some(VerifyError::KeyMismatch)
        } else if vote.signature.len() != 96 {
            Some(VerifyError::SignatureLength)
        } else if key_fault(key) is Some {
            key_fault(key)
        } else if !bls_signature_decodes(vote.signature) {
            Some(VerifyError::SignatureEncoding)
        } else if !bls_verifies(key, vote.message(), vote.signature) {
            Some(VerifyError::SignatureInvalid)
        } else {
            None
        },
    }
}

/// The voting power behind a vote, or the first respect in which it fails.
pub open spec fn vote_check(
    members: Seq<MemberView>,
    vote: VoteView,
    context: ConsensusContext,
    view: u64,
    block_hash: Hash32,
    app_hash: Hash32,
    require_bls: bool,
) -> Result<u128, VerifyError> {
    let member = member_of(members, vote.voter);
    if context.committee_hash != members_hash(members) {
        Err(VerifyError::CommitteeContext)
    } else if vote.context != context {
        Err(VerifyError::MessageContext)
    } else if vote.view != view {
        Err(VerifyError::ViewMismatch { found: vote.view, expected: view })
    } else if vote.block_hash != block_hash {
        Err(VerifyError::BlockMismatch)
    } else if vote.app_hash != app_hash {
        Err(VerifyError::AppHashMismatch)
    } else if member is None {
        Err(VerifyError::UnknownMember(vote.voter))
    } else {
        match signature_fault(member->Some_0.bls_pubkey, vote, require_bls) {
            Some(e) => Err(e),
            None => Ok(member->Some_0.voting_power),
        }
    }
}

/// Checks the length and the encoding of a configured key.
fn parse_public_key(key: &Vec<u8>) -> (r: Result<(), VerifyError>)
    ensures
        match r {
            Ok(()) => key_fault(key@) is None,
            Err(e) => key_fault(key@) == Some(e),
        },
{
    if key.len() != 48 {
        return Err(VerifyError::KeyLength);
    }
    if key_decodes(key) {
        Ok(())
    } else {
        Err(VerifyError::KeyEncoding)
    }
}

/// Verifies one vote against the committee and the expected proposal, and
/// returns the voting power behind it.
pub fn verify_vote(
    committee: &Committee,
    vote: &Vote,
    expected_context: ConsensusContext,
    expected_view: u64,
    expected_block_hash: &Hash32,
    expected_app_hash: &Hash32,
    require_bls_signature: bool,
) -> (r: Result<u128, VerifyError>)
    ensures
        r == vote_check(
            committee.members_view(),
            vote@,
            expected_context,
            expected_view,
            *expected_block_hash,
            *expected_app_hash,
            require_bls_signature,
        ),
{
    if committee.validate_context(expected_context).is_err() {
        return Err(VerifyError::CommitteeContext);
    }
    if vote.validate_context(expected_context).is_err() {
        return Err(VerifyError::MessageContext);
    }
    if vote.view != expected_view {
        return Err(VerifyError::ViewMismatch { found: vote.view, expected: expected_view });
    }
    if !hash_eq(&vote.block_hash, expected_block_hash) {
        return Err(VerifyError::BlockMismatch);
    }
    if !hash_eq(&vote.app_hash, expected_app_hash) {
        return Err(VerifyError::AppHashMismatch);
    }
    let member = match committee.member(&vote.voter) {
        Some(m) => m,
        None => {
            return Err(VerifyError::UnknownMember(vote.voter));
        },
    };
    match &member.bls_pubkey {
        Some(configured) => {
            let supplied = match &vote.bls_pubkey {
                Some(k) => k,
                None => {
                    return Err(VerifyError::MissingKey);
                },
            };
            if !bytes_eq(supplied, configured) {
                return Err(VerifyError::KeyMismatch);
            }
            if vote.signature.len() != 96 {
                return Err(VerifyError::SignatureLength);
            }
            if let Err(e) = parse_public_key(configured) {
                return Err(e);
            }
            if !signature_decodes(&vote.signature) {
                return Err(VerifyError::SignatureEncoding);
            }
            if !signature_verifies(configured, &vote.signing_data_common(), &vote.signature) {
                return Err(VerifyError::SignatureInvalid);
            }
        },
        None => {
            if require_bls_signature {
                return Err(VerifyError::NoConfiguredKey);
            }
            assert(vote@.signature == vote.signature@);
            if all_zero(&vote.signature) {
                return Err(VerifyError::NoSignature);
            }
        },
    }
    Ok(member.voting_power)
}

/// A vote counts only if it is from a member, for exactly the expected
/// proposal and context; with a configured key, only if its signature on that
/// proposal verifies under the configured key.
pub proof fn lemma_verified_vote(
    members: Seq<MemberView>,
    vote: VoteView,
    context: ConsensusContext,
    view: u64,
    block_hash: Hash32,
    app_hash: Hash32,
    require_bls: bool,
)
    requires
        vote_check(members, vote, context, view, block_hash, app_hash, require_bls) is Ok,
    ensures
        is_member(members, vote.voter),
        vote.message() == vote_message(context, view, block_hash, app_hash),
        ({
            let key = member_of(members, vote.voter)->Some_0.bls_pubkey;
            if key is Some {
                vote.bls_pubkey == key && bls_verifies(key->Some_0, vote.message(), vote.signature)
            } else {
                !require_bls
            }
        }),
{
}

/// The vote that one half of an equivocation proof stands for.
pub open spec fn proof_vote(
    p: ProofView,
    block_hash: Hash32,
    app_hash: Hash32,
    signature: Seq<u8>,
    key: Option<Seq<u8>>,
) -> VoteView {
    VoteView {
        context: p.context,
        view: p.view,
        block_hash,
        app_hash,
        voter: p.offender,
        signature,
        bls_pubkey: key,
    }
}

/// The first respect in which an equivocation proof fails.
pub open spec fn proof_check(
    members: Seq<MemberView>,
    p: ProofView,
    context: ConsensusContext,
    require_bls: bool,
) -> Result<(), VerifyError> {
    let member = member_of(members, p.offender);
    if context.committee_hash != members_hash(members) {
        Err(VerifyError::CommitteeContext)
    } else if p.context != context {
        Err(VerifyError::ProofContext)
    } else if p.fault() is Some {
        Err(VerifyError::Proof(p.fault()->Some_0))
    } else if member is None {
        Err(VerifyError::UnknownOffender)
    } else {
        let key = member->Some_0.bls_pubkey;
        let a = proof_vote(p, p.hash_a, p.app_hash_a, p.signature_a, key);
        let b = proof_vote(p, p.hash_b, p.app_hash_b, p.signature_b, key);
        match signature_fault(key, a, require_bls) {
            Some(e) => Err(e),
            None => match signature_fault(key, b, require_bls) {
                Some(e) => Err(e),
                None => Ok(()),
            },
        }
    }
}

/// Verifies an equivocation proof: both votes are rebuilt with the key that
/// the committee has for the accused, not with one that the reporter supplies.
pub fn verify_equivocation_proof(
    committee: &Committee,
    proof_of_fault: &EquivocationProof,
    expected_context: ConsensusContext,
    require_bls_signature: bool,
) -> (r: Result<(), VerifyError>)
    ensures
        r == proof_check(committee.members_view(), proof_of_fault@, expected_context, require_bls_signature),
{
    if committee.validate_context(expected_context).is_err() {
        return Err(VerifyError::CommitteeContext);
    }
    let p = proof_of_fault;
    if !p.context.same_as(&expected_context) {
        return Err(VerifyError::ProofContext);
    }
    if let Err(e) = p.validate_canonical() {
        return Err(VerifyError::Proof(e));
    }
    let member = match committee.member(&p.offender) {
        Some(m) => m,
        None => {
            return Err(VerifyError::UnknownOffender);
        },
    };
    let vote_a = Vote {
        epoch: p.context.epoch,
        committee_hash: p.context.committee_hash,
        genesis_hash: p.context.genesis_hash,
        view: p.view,
        block_hash: p.hash_a,
        app_hash: p.app_hash_a,
        voter: p.offender,
        signature: copy_bytes(&p.signature_a),
        bls_pubkey: copy_option_bytes(&member.bls_pubkey),
    };
    let vote_b = Vote {
        epoch: p.context.epoch,
        committee_hash: p.context.committee_hash,
        genesis_hash: p.context.genesis_hash,
        view: p.view,
        block_hash: p.hash_b,
        app_hash: p.app_hash_b,
        voter: p.offender,
        signature: copy_bytes(&p.signature_b),
        bls_pubkey: copy_option_bytes(&member.bls_pubkey),
    };
    assert(vote_a@ == proof_vote(p@, p@.hash_a, p@.app_hash_a, p@.signature_a, member@.bls_pubkey));
    assert(vote_b@ == proof_vote(p@, p@.hash_b, p@.app_hash_b, p@.signature_b, member@.bls_pubkey));
    if let Err(e) = verify_vote(
        committee,
        &vote_a,
        expected_context,
        p.view,
        &p.hash_a,
        &p.app_hash_a,
        require_bls_signature,
    ) {
        return Err(e);
    }
    if let Err(e) = verify_vote(
        committee,
        &vote_b,
        expected_context,
        p.view,
        &p.hash_b,
        &p.app_hash_b,
        require_bls_signature,
    ) {
        return Err(e);
    }
    Ok(())
}

/// The first fault among the voters of an aggregate certificate, from a
/// position on.
pub open spec fn listed_voters_check(
    members: Seq<MemberView>,
    voters: Seq<NodeId>,
    keys: Seq<Seq<u8>>,
    i: int,
) -> Result<(), VerifyError>
    decreases voters.len() - i,
{
    if i < 0 || i >= voters.len() {
        Ok(())
    } else {
        let member = member_of(members, voters[i]);
        if voters.take(i).contains(voters[i]) {
            Err(VerifyError::DuplicateVoter)
        } else if member is None || member->Some_0.bls_pubkey is None {
            Err(VerifyError::UnknownVoter(voters[i]))
        } else if keys[i] != member->Some_0.bls_pubkey->Some_0 {
            Err(VerifyError::ListedKeyMismatch)
        } else if key_fault(keys[i]) is Some {
            Err(key_fault(keys[i])->Some_0)
        } else {
            listed_voters_check(members, voters, keys, i + 1)
        }
    }
}

/// The first fault of an aggregate certificate.
pub open spec fn aggregate_check(
    members: Seq<MemberView>,
    c: CertificateView,
    app_hash: Option<Hash32>,
) -> Result<(), VerifyError> {
    if c.app_hash is None {
        Err(VerifyError::MissingAppHash)
    } else if app_hash is Some && app_hash != c.app_hash {
        Err(VerifyError::AppHashMismatch)
    } else if c.voters.len() == 0 {
        Err(VerifyError::NoVoters)
    } else if c.votes.len() != 0 {
        Err(VerifyError::CarriesVotes)
    } else if c.voters.len() != c.bls_pubkeys.len() {
        Err(VerifyError::CountMismatch)
    } else if listed_voters_check(members, c.voters, c.bls_pubkeys, 0) is Err {
        listed_voters_check(members, c.voters, c.bls_pubkeys, 0)
    } else if !bls_signature_decodes(c.agg_signature) {
        Err(VerifyError::SignatureEncoding)
    } else if !bls_aggregate_verifies(
        vote_message(c.context, c.view, c.block_hash, c.app_hash->Some_0),
        c.agg_signature,
        c.bls_pubkeys,
    ) {
        Err(VerifyError::SignatureInvalid)
    } else {
        Ok(())
    }
}

/// The first fault among the votes of a plain certificate, from a position on.
pub open spec fn plain_votes_check(
    members: Seq<MemberView>,
    c: CertificateView,
    context: ConsensusContext,
    app_hash: Hash32,
    i: int,
) -> Result<(), VerifyError>
    decreases c.votes.len() - i,
{
    if i < 0 || i >= c.votes.len() {
        Ok(())
    } else {
        match vote_check(members, c.votes[i], context, c.view, c.block_hash, app_hash, false) {
            Err(e) => Err(e),
            Ok(_) => if voters_of(c.votes).take(i).contains(c.votes[i].voter) {
                Err(VerifyError::DuplicateVoter)
            } else {
                plain_votes_check(members, c, context, app_hash, i + 1)
            },
        }
    }
}

/// The application state that a plain certificate is for.
pub open spec fn plain_app_hash(c: CertificateView) -> Hash32 {
    match c.app_hash {
        Some(h) => h,
        None => c.votes[0].app_hash,
    }
}

/// A list names each of the voters once and nobody else.
pub open spec fn same_voters(listed: Seq<NodeId>, voters: Seq<NodeId>) -> bool {
    listed.no_duplicates() && listed.to_set() == voters.to_set()
}

/// The first fault of a plain certificate.
pub open spec fn plain_check(
    members: Seq<MemberView>,
    c: CertificateView,
    context: ConsensusContext,
    app_hash: Option<Hash32>,
) -> Result<(), VerifyError> {
    if c.votes.len() == 0 {
        Err(VerifyError::NoVotes)
    } else if app_hash is Some && app_hash->Some_0 != plain_app_hash(c) {
        Err(VerifyError::AppHashMismatch)
    } else if plain_votes_check(members, c, context, plain_app_hash(c), 0) is Err {
        plain_votes_check(members, c, context, plain_app_hash(c), 0)
    } else if c.voters.len() > 0 && !same_voters(c.voters, voters_of(c.votes)) {
        Err(VerifyError::VoterListMismatch)
    } else {
        Ok(())
    }
}

/// The first fault of a certificate.
pub open spec fn certificate_check(
    members: Seq<MemberView>,
    c: CertificateView,
    context: ConsensusContext,
    view: u64,
    block_hash: Hash32,
    app_hash: Option<Hash32>,
    require_bls: bool,
) -> Result<(), VerifyError> {
    let body = if c.is_bls() {
        aggregate_check(members, c, app_hash)
    } else {
        plain_check(members, c, context, app_hash)
    };
    if context.committee_hash != members_hash(members) {
        Err(VerifyError::CommitteeContext)
    } else if c.context != context {
        Err(VerifyError::MessageContext)
    } else if c.view != view {
        Err(VerifyError::ViewMismatch { found: c.view, expected: view })
    } else if c.block_hash != block_hash {
        Err(VerifyError::BlockMismatch)
    } else if require_bls && !c.is_bls() {
        Err(VerifyError::AggregateRequired)
    } else if body is Err {
        body
    } else {
        match quorum_check(members, c.signers()) {
            Err(e) => Err(VerifyError::Signers(e)),
            Ok(false) => Err(VerifyError::NoQuorum),
            Ok(true) => Ok(()),
        }
    }
}

/// Verifies a certificate against the committee and the expected block.
pub fn verify_certificate(
    committee: &Committee,
    certificate: &Certificate,
    expected_context: ConsensusContext,
    expected_view: u64,
    expected_block_hash: &Hash32,
    expected_app_hash: Option<Hash32>,
    require_bls_signature: bool,
) -> (r: Result<(), VerifyError>)
    ensures
        r == certificate_check(
            committee.members_view(),
            certificate@,
            expected_context,
            expected_view,
            *expected_block_hash,
            expected_app_hash,
            require_bls_signature,
        ),
{
    if committee.validate_context(expected_context).is_err() {
        return Err(VerifyError::CommitteeContext);
    }
    if certificate.validate_context(expected_context).is_err() {
        return Err(VerifyError::MessageContext);
    }
    if certificate.view != expected_view {
        return Err(VerifyError::ViewMismatch { found: certificate.view, expected: expected_view });
    }
    if !hash_eq(&certificate.block_hash, expected_block_hash) {
        return Err(VerifyError::BlockMismatch);
    }
    let is_bls = certificate.is_bls();
    if require_bls_signature && !is_bls {
        return Err(VerifyError::AggregateRequired);
    }
    if is_bls {
        if let Err(e) = verify_bls_certificate(committee, certificate, expected_app_hash) {
            return Err(e);
        }
    } else {
        if let Err(e) = verify_legacy_certificate(
            committee,
            certificate,
            expected_context,
            expected_app_hash,
        ) {
            return Err(e);
        }
    }
    let signers = certificate.signers();
    match committee.has_weighted_quorum(&signers) {
        Err(e) => Err(VerifyError::Signers(e)),
        Ok(enough) => if enough {
            Ok(())
        } else {
            Err(VerifyError::NoQuorum)
        },
    }
}

fn verify_bls_certificate(
    committee: &Committee,
    certificate: &Certificate,
    expected_app_hash: Option<Hash32>,
) -> (r: Result<(), VerifyError>)
    ensures
        r == aggregate_check(committee.members_view(), certificate@, expected_app_hash),
{
    let app_hash = match certificate.app_hash {
        Some(h) => h,
        None => {
            return Err(VerifyError::MissingAppHash);
        },
    };
    if let Some(expected) = expected_app_hash {
        if !hash_eq(&app_hash, &expected) {
            return Err(VerifyError::AppHashMismatch);
        }
    }
    if certificate.voters.len() == 0 {
        return Err(VerifyError::NoVoters);
    }
    if certificate.votes.len() != 0 {
        return Err(VerifyError::CarriesVotes);
    }
    if certificate.voters.len() != certificate.bls_pubkeys.len() {
        return Err(VerifyError::CountMismatch);
    }
    let ghost c = certificate@;
    let mut unique: Vec<NodeId> = Vec::new();
    let mut i: usize = 0;
    assert(unique@ =~= c.voters.take(0));
    while i < certificate.voters.len()
        invariant
            i <= certificate.voters.len(),
            certificate.voters.len() == certificate.bls_pubkeys.len(),
            c == certificate@,
            unique@ == c.voters.take(i as int),
            unique@.no_duplicates(),
            c.app_hash == Some(app_hash),
            expected_app_hash is Some ==> expected_app_hash->Some_0 == app_hash,
            c.voters.len() > 0,
            c.votes.len() == 0,
            listed_voters_check(committee.members_view(), c.voters, c.bls_pubkeys, 0) == listed_voters_check(
                committee.members_view(),
                c.voters,
                c.bls_pubkeys,
                i as int,
            ),
        decreases certificate.voters.len() - i,
    {
        let voter = certificate.voters[i];
        assert(c.voters[i as int] == voter);
        assert(c.bls_pubkeys[i as int] == certificate.bls_pubkeys[i as int]@);
        if !insert_hash(&mut unique, voter) {
            return Err(VerifyError::DuplicateVoter);
        }
        let configured = match committee.bls_pubkey(&voter) {
            Some(k) => k,
            None => {
                return Err(VerifyError::UnknownVoter(voter));
            },
        };
        if !bytes_eq(&certificate.bls_pubkeys[i], configured) {
            return Err(VerifyError::ListedKeyMismatch);
        }
        if let Err(e) = parse_public_key(configured) {
            return Err(e);
        }
        i = i + 1;
        assert(c.voters.take(i as int) =~= c.voters.take(i - 1).push(voter));
    }
    if !signature_decodes(&certificate.agg_signature) {
        return Err(VerifyError::SignatureEncoding);
    }
    let message = Certificate::build_signing_message(
        certificate.context(),
        certificate.view,
        &certificate.block_hash,
        &app_hash,
    );
    if !aggregate_verifies(&message, &certificate.agg_signature, &certificate.bls_pubkeys) {
        return Err(VerifyError::SignatureInvalid);
    }
    Ok(())
}

fn verify_legacy_certificate(
    committee: &Committee,
    certificate: &Certificate,
    expected_context: ConsensusContext,
    expected_app_hash: Option<Hash32>,
) -> (r: Result<(), VerifyError>)
    ensures
        r == plain_check(committee.members_view(), certificate@, expected_context, expected_app_hash),
{
    let ghost c = certificate@;
    if certificate.votes.len() == 0 {
        return Err(VerifyError::NoVotes);
    }
    assert(c.votes[0] == certificate.votes[0]@);
    let app_hash = match certificate.app_hash {
        Some(h) => h,
        None => certificate.votes[0].app_hash,
    };
    if let Some(expected) = expected_app_hash {
        if !hash_eq(&app_hash, &expected) {
            return Err(VerifyError::AppHashMismatch);
        }
    }
    let mut unique: Vec<NodeId> = Vec::new();
    let mut i: usize = 0;
    assert(unique@ =~= voters_of(c.votes).take(0));
    while i < certificate.votes.len()
        invariant
            i <= certificate.votes.len(),
            c == certificate@,
            c.votes.len() > 0,
            app_hash == plain_app_hash(c),
            expected_app_hash is Some ==> expected_app_hash->Some_0 == app_hash,
            unique@ == voters_of(c.votes).take(i as int),
            unique@.no_duplicates(),
            plain_votes_check(committee.members_view(), c, expected_context, app_hash, 0) == plain_votes_check(
                committee.members_view(),
                c,
                expected_context,
                app_hash,
                i as int,
            ),
        decreases certificate.votes.len() - i,
    {
        let vote = &certificate.votes[i];
        assert(c.votes[i as int] == vote@);
        if let Err(e) = verify_vote(
            committee,
            vote,
            expected_context,
            certificate.view,
            &certificate.block_hash,
            &app_hash,
            false,
        ) {
            return Err(e);
        }
        if !insert_hash(&mut unique, vote.voter) {
            return Err(VerifyError::DuplicateVoter);
        }
        i = i + 1;
        assert(voters_of(c.votes).take(i as int) =~= voters_of(c.votes).take(i - 1).push(vote.voter));
    }
    assert(voters_of(c.votes).take(c.votes.len() as int) =~= voters_of(c.votes));
    if certificate.voters.len() > 0 {
        if !names_same(&certificate.voters, &unique) {
            return Err(VerifyError::VoterListMismatch);
        }
    }
    Ok(())
}

/// Whether a list names each of the voters once and nobody else.
fn names_same(listed: &Vec<NodeId>, voters: &Vec<NodeId>) -> (r: bool)
    ensures
        r == same_voters(listed@, voters@),
{
    let mut seen: Vec<NodeId> = Vec::new();
    let mut i: usize = 0;
    assert(seen@ =~= listed@.take(0));
    while i < listed.len()
        invariant
            i <= listed.len(),
            seen@ == listed@.take(i as int),
            seen@.no_duplicates(),
            forall|k: int| 0 <= k < i ==> voters@.contains(#[trigger] listed[k]),
        decreases listed.len() - i,
    {
        let ghost before = seen@;
        if !contains_hash(voters, &listed[i]) {
            assert(listed@.to_set().contains(listed@[i as int]));
            assert(!voters@.to_set().contains(listed@[i as int]));
            return false;
        }
        if !insert_hash(&mut seen, listed[i]) {
            assert(before.contains(listed@[i as int]));
            let ghost k = choose|k: int| 0 <= k < before.len() && before[k] == listed@[i as int];
            assert(listed@[k] == listed@[i as int] && k != i);
            return false;
        }
        i = i + 1;
        assert(listed@.take(i as int) =~= listed@.take(i - 1).push(listed@[i - 1]));
    }
    assert(listed@.take(listed@.len() as int) =~= listed@);
    let mut j: usize = 0;
    while j < voters.len()
        invariant
            j <= voters.len(),
            listed@.no_duplicates(),
            forall|k: int| 0 <= k < listed.len() ==> voters@.contains(#[trigger] listed[k]),
            forall|k: int| 0 <= k < j ==> listed@.contains(#[trigger] voters[k]),
        decreases voters.len() - j,
    {
        if !contains_hash(listed, &voters[j]) {
            assert(voters@.to_set().contains(voters@[j as int]));
            assert(!listed@.to_set().contains(voters@[j as int]));
            return false;
        }
        j = j + 1;
    }
    assert forall|x: NodeId| listed@.to_set().contains(x) <==> voters@.to_set().contains(x) by {
        if listed@.contains(x) {
            let k = choose|k: int| 0 <= k < listed@.len() && listed@[k] == x;
            assert(voters@.contains(listed[k]));
        }
        if voters@.contains(x) {
            let k = choose|k: int| 0 <= k < voters@.len() && voters@[k] == x;
            assert(listed@.contains(voters[k]));
        }
    }
    assert(listed@.to_set() =~= voters@.to_set());
    true
}

/// A vote put in its place in a list that is ordered by voter.
pub open spec fn inserted(votes: Seq<VoteView>, vote: VoteView) -> Seq<VoteView>
    decreases votes.len(),
{
    if votes.len() > 0 && hash_before(vote.voter, votes.last().voter) {
        inserted(votes.drop_last(), vote).push(votes.last())
    } else {
        votes.push(vote)
    }
}

/// Votes in the order of their voters; votes of one voter keep their order.
pub open spec fn by_voter(votes: Seq<VoteView>) -> Seq<VoteView>
    decreases votes.len(),
{
    if votes.len() == 0 {
        votes
    } else {
        inserted(by_voter(votes.drop_last()), votes.last())
    }
}

/// No voter comes before the voter of an earlier vote.
pub open spec fn ordered_by_voter(votes: Seq<VoteView>) -> bool {
    forall|i: int, j: int|
        0 <= i < j < votes.len() ==> !hash_before(
            (#[trigger] votes[j]).voter,
            (#[trigger] votes[i]).voter,
        )
}

/// Ordering votes by voter permutes them.
pub proof fn lemma_by_voter(votes: Seq<VoteView>)
    ensures
        ordered_by_voter(by_voter(votes)),
        by_voter(votes).to_multiset() == votes.to_multiset(),
        by_voter(votes).len() == votes.len(),
    decreases votes.len(),
{
    broadcast use vstd::seq_lib::group_to_multiset_ensures;

    if votes.len() > 0 {
        lemma_by_voter(votes.drop_last());
        lemma_inserted(by_voter(votes.drop_last()), votes.last());
        assert(votes =~= votes.drop_last().push(votes.last()));
    }
}

proof fn lemma_inserted(votes: Seq<VoteView>, vote: VoteView)
    requires
        ordered_by_voter(votes),
    ensures
        ordered_by_voter(inserted(votes, vote)),
        inserted(votes, vote).to_multiset() == votes.to_multiset().insert(vote),
        inserted(votes, vote).len() == votes.len() + 1,
        forall|i: int|
            0 <= i < inserted(votes, vote).len() ==> (#[trigger] inserted(votes, vote)[i]) == vote
                || votes.contains(inserted(votes, vote)[i]),
    decreases votes.len(),
{
    broadcast use vstd::seq_lib::group_to_multiset_ensures;

    let after = inserted(votes, vote);
    if votes.len() > 0 && hash_before(vote.voter, votes.last().voter) {
        let front = votes.drop_last();
        let last = votes.last();
        assert(ordered_by_voter(front)) by {
            assert forall|i: int, j: int| 0 <= i < j < front.len() implies !hash_before(
                (#[trigger] front[j]).voter,
                (#[trigger] front[i]).voter,
            ) by {
                assert(front[i] == votes[i] && front[j] == votes[j]);
            }
        }
        lemma_inserted(front, vote);
        let mid = inserted(front, vote);
        assert(votes =~= front.push(last));
        assert forall|i: int| 0 <= i < after.len() implies (#[trigger] after[i]) == vote
            || votes.contains(after[i]) by {
            if i < mid.len() {
                assert(after[i] == mid[i]);
                if mid[i] != vote {
                    let k = choose|k: int| 0 <= k < front.len() && front[k] == mid[i];
                    assert(votes[k] == mid[i]);
                }
            } else {
                assert(after[i] == votes[votes.len() - 1]);
            }
        }
        assert forall|i: int, j: int| 0 <= i < j < after.len() implies !hash_before(
            (#[trigger] after[j]).voter,
            (#[trigger] after[i]).voter,
        ) by {
            if j < mid.len() {
                assert(after[i] == mid[i] && after[j] == mid[j]);
            } else {
                assert(after[i] == mid[i] && after[j] == last);
                lemma_hash_order_total(vote.voter, last.voter);
                if mid[i] != vote {
                    let k = choose|k: int| 0 <= k < front.len() && front[k] == mid[i];
                    assert(votes[k] == mid[i] && votes[votes.len() - 1] == last);
                }
            }
        }
    } else {
        assert forall|i: int, j: int| 0 <= i < j < after.len() implies !hash_before(
            (#[trigger] after[j]).voter,
            (#[trigger] after[i]).voter,
        ) by {
            if j < votes.len() {
                assert(after[i] == votes[i] && after[j] == votes[j]);
            } else {
                assert(after[j] == vote && after[i] == votes[i]);
                let last = votes.last();
                if hash_before(vote.voter, votes[i].voter) {
                    if i < votes.len() - 1 {
                        assert(!hash_before(votes[votes.len() - 1].voter, votes[i].voter));
                        lemma_hash_order_total(votes[i].voter, last.voter);
                        if votes[i].voter != last.voter {
                            lemma_hash_order_transitive(vote.voter, votes[i].voter, last.voter);
                        }
                    }
                }
            }
        }
        assert forall|i: int| 0 <= i < after.len() implies (#[trigger] after[i]) == vote
            || votes.contains(after[i]) by {
            if i < votes.len() {
                assert(votes[i] == after[i]);
            }
        }
    }
}

/// Puts votes in the order of their voters.
fn sort_by_voter(votes: Vec<Vote>) -> (r: Vec<Vote>)
    ensures
        vote_views(r@) == by_voter(vote_views(votes@)),
{
    let ghost all = vote_views(votes@);
    let mut rest = votes;
    let mut sorted: Vec<Vote> = Vec::new();
    let ghost mut n: int = 0;
    assert(vote_views(sorted@) =~= by_voter(all.take(0)));
    assert(vote_views(rest@) =~= all.skip(0));
    while rest.len() > 0
        invariant
            0 <= n <= all.len(),
            vote_views(rest@) == all.skip(n),
            vote_views(sorted@) == by_voter(all.take(n)),
        decreases rest.len(),
    {
        let ghost rest_before = rest@;
        let vote = rest.remove(0);
        proof {
            assert(vote_views(rest_before)[0] == vote@);
            assert(vote_views(rest_before).len() == all.len() - n);
            assert(all.skip(n)[0] == all[n]);
            assert(vote_views(rest@) =~= vote_views(rest_before).skip(1));
            assert(all.skip(n).skip(1) =~= all.skip(n + 1));
            assert(all.take(n + 1).drop_last() =~= all.take(n));
            assert(all.take(n + 1).last() == vote@);
        }
        let ghost s = vote_views(sorted@);
        let mut at: usize = sorted.len();
        assert(s.take(at as int) =~= s);
        assert(s.skip(at as int) =~= Seq::empty());
        assert(inserted(s, vote@) =~= inserted(s.take(at as int), vote@) + s.skip(at as int));
        while at > 0 && hash_less(&vote.voter, &sorted[at - 1].voter)
            invariant
                at <= sorted.len(),
                s == vote_views(sorted@),
                inserted(s, vote@) == inserted(s.take(at as int), vote@) + s.skip(at as int),
            decreases at,
        {
            proof {
                let front = s.take(at as int);
                assert(front.last() == sorted[at - 1]@);
                assert(front.drop_last() =~= s.take(at - 1));
                assert(inserted(front, vote@) == inserted(s.take(at - 1), vote@).push(front.last()));
                assert(inserted(front, vote@) + s.skip(at as int) =~= inserted(s.take(at - 1), vote@)
                    + s.skip(at - 1));
            }
            at = at - 1;
        }
        proof {
            let front = s.take(at as int);
            if at > 0 {
                assert(front.last() == sorted[at - 1]@);
            }
            assert(inserted(front, vote@) == front.push(vote@));
            assert(inserted(s, vote@) =~= s.insert(at as int, vote@));
        }
        let ghost view = vote@;
        sorted.insert(at, vote);
        proof {
            assert(vote_views(sorted@) =~= s.insert(at as int, view));
            n = n + 1;
        }
    }
    proof {
        assert(all.skip(n).len() == 0);
        assert(all.take(n) =~= all);
    }
    sorted
}

/// The first fault among votes for one proposal, from a position on.
pub open spec fn votes_check(
    members: Seq<MemberView>,
    votes: Seq<VoteView>,
    context: ConsensusContext,
    require_bls: bool,
    i: int,
) -> Result<(), VerifyError>
    decreases votes.len() - i,
{
    if i < 0 || i >= votes.len() {
        Ok(())
    } else {
        match vote_check(
            members,
            votes[i],
            context,
            votes[0].view,
            votes[0].block_hash,
            votes[0].app_hash,
            require_bls,
        ) {
            Err(e) => Err(e),
            Ok(_) => votes_check(members, votes, context, require_bls, i + 1),
        }
    }
}

/// The signatures of a list of votes.
pub open spec fn signatures_of(votes: Seq<VoteView>) -> Seq<Seq<u8>> {
    votes.map_values(|v: VoteView| v.signature)
}

/// Votes that all pass agree with one another.
pub proof fn lemma_votes_check(
    members: Seq<MemberView>,
    votes: Seq<VoteView>,
    context: ConsensusContext,
    require_bls: bool,
    i: int,
)
    requires
        0 <= i <= votes.len(),
        votes_check(members, votes, context, require_bls, i) is Ok,
    ensures
        forall|k: int|
            i <= k < votes.len() ==> vote_check(
                members,
                #[trigger] votes[k],
                context,
                votes[0].view,
                votes[0].block_hash,
                votes[0].app_hash,
                require_bls,
            ) is Ok,
    decreases votes.len() - i,
{
    if i < votes.len() {
        lemma_votes_check(members, votes, context, require_bls, i + 1);
    }
}

/// Why votes, already ordered by voter, do not form a certificate.
pub open spec fn formation_fault(
    members: Seq<MemberView>,
    context: ConsensusContext,
    votes: Seq<VoteView>,
    require_bls: bool,
) -> Option<VerifyError> {
    if context.committee_hash != members_hash(members) {
        Some(VerifyError::CommitteeContext)
    } else if votes.len() == 0 {
        Some(VerifyError::NoVotes)
    } else if votes_check(members, votes, context, require_bls, 0) is Err {
        Some(votes_check(members, votes, context, require_bls, 0)->Err_0)
    } else {
        match quorum_check(members, voters_of(votes)) {
            Err(e) => Some(VerifyError::Signers(e)),
            Ok(false) => Some(VerifyError::NoQuorum),
            Ok(true) => if require_bls && bls_aggregate(signatures_of(votes)) is None {
                Some(VerifyError::Aggregation)
            } else {
                None
            },
        }
    }
}

/// The certificate that votes, already ordered by voter, form.
pub open spec fn formed(context: ConsensusContext, votes: Seq<VoteView>, require_bls: bool) -> CertificateView {
    CertificateView {
        context,
        view: votes[0].view,
        block_hash: votes[0].block_hash,
        app_hash: Some(votes[0].app_hash),
        votes: if require_bls {
            Seq::empty()
        } else {
            votes
        },
        voters: voters_of(votes),
        bls_pubkeys: if require_bls {
            keys_of(votes)
        } else {
            Seq::empty()
        },
        agg_signature: if require_bls {
            bls_aggregate(signatures_of(votes))->Some_0
        } else {
            Seq::empty()
        },
    }
}

/// Forms a certificate from votes that were collected. With signatures
/// required there is no fallback: a certificate carries their aggregate.
pub fn form_certificate(
    committee: &Committee,
    context: ConsensusContext,
    votes: Vec<Vote>,
    require_bls_signature: bool,
) -> (r: Result<Certificate, VerifyError>)
    ensures
        match r {
            Ok(c) => {
                &&& formation_fault(
                    committee.members_view(),
                    context,
                    by_voter(vote_views(votes@)),
                    require_bls_signature,
                ) is None
                &&& c@ == formed(context, by_voter(vote_views(votes@)), require_bls_signature)
            },
            Err(e) => formation_fault(
                committee.members_view(),
                context,
                by_voter(vote_views(votes@)),
                require_bls_signature,
            ) == Some(e),
        },
{
    if committee.validate_context(context).is_err() {
        return Err(VerifyError::CommitteeContext);
    }
    proof {
        lemma_by_voter(vote_views(votes@));
    }
    if votes.len() == 0 {
        return Err(VerifyError::NoVotes);
    }
    let sorted = sort_by_voter(votes);
    let ghost vs = vote_views(sorted@);
    assert(vs[0] == sorted[0]@);
    let view: u64 = sorted[0].view;
    let block_hash = sorted[0].block_hash;
    let app_hash = sorted[0].app_hash;
    let mut i: usize = 0;
    while i < sorted.len()
        invariant
            i <= sorted.len(),
            vs == vote_views(sorted@),
            vs == by_voter(vote_views(votes@)),
            vs.len() > 0,
            context.committee_hash == committee.committee_hash(),
            view == vs[0].view,
            block_hash == vs[0].block_hash,
            app_hash == vs[0].app_hash,
            votes_check(committee.members_view(), vs, context, require_bls_signature, 0) == votes_check(
                committee.members_view(),
                vs,
                context,
                require_bls_signature,
                i as int,
            ),
        decreases sorted.len() - i,
    {
        assert(vs[i as int] == sorted[i as int]@);
        if let Err(e) = verify_vote(
            committee,
            &sorted[i],
            context,
            view,
            &block_hash,
            &app_hash,
            require_bls_signature,
        ) {
            return Err(e);
        }
        i = i + 1;
    }
    let signers = collect_voters(&sorted);
    match committee.has_weighted_quorum(&signers) {
        Err(e) => {
            return Err(VerifyError::Signers(e));
        },
        Ok(enough) => {
            if !enough {
                return Err(VerifyError::NoQuorum);
            }
        },
    }
    proof {
        lemma_votes_check(committee.members_view(), vs, context, require_bls_signature, 0);
        assert forall|k: int| 0 <= k < vs.len() implies (#[trigger] vs[k]).context == context
            && vs[k].view == view && vs[k].block_hash == block_hash && vs[k].app_hash
            == vs[0].app_hash && (require_bls_signature ==> vs[k].bls_pubkey is Some) by {
            assert(vote_check(
                committee.members_view(),
                vs[k],
                context,
                vs[0].view,
                vs[0].block_hash,
                vs[0].app_hash,
                require_bls_signature,
            ) is Ok);
        }
        assert(votes_agree(vs, context, view, block_hash));
        assert(require_bls_signature ==> votes_keyed(vs));
    }
    if require_bls_signature {
        let signatures = collect_signatures(&sorted);
        match aggregate_signatures(&signatures) {
            Some(aggregate) => match Certificate::new_bls(context, view, block_hash, sorted, aggregate) {
                Ok(c) => Ok(c),
                Err(e) => Err(VerifyError::Formation(e)),
            },
            None => Err(VerifyError::Aggregation),
        }
    } else {
        match Certificate::new(context, view, block_hash, sorted) {
            Ok(c) => Ok(c),
            Err(e) => Err(VerifyError::Formation(e)),
        }
    }
}

/// Copies the signatures of a list of votes.
pub(crate) fn collect_signatures(votes: &Vec<Vote>) -> (r: Vec<Vec<u8>>)
    ensures
        byte_rows(r@) == signatures_of(vote_views(votes@)),
{
    let mut r: Vec<Vec<u8>> = Vec::new();
    let mut i: usize = 0;
    while i < votes.len()
        invariant
            i <= votes.len(),
            r.len() == i,
            forall|k: int| 0 <= k < i ==> (#[trigger] r[k])@ == votes[k].signature@,
        decreases votes.len() - i,
    {
        r.push(copy_bytes(&votes[i].signature));
        i = i + 1;
    }
    assert(byte_rows(r@) =~= signatures_of(vote_views(votes@)));
    r
}

/// A verified certificate is for exactly the expected block and context, its
/// signers are distinct members, and they hold strictly more than two thirds
/// of the voting power.
pub proof fn lemma_verified_certificate(
    members: Seq<MemberView>,
    c: CertificateView,
    context: ConsensusContext,
    view: u64,
    block_hash: Hash32,
    app_hash: Option<Hash32>,
    require_bls: bool,
)
    requires
        certificate_check(members, c, context, view, block_hash, app_hash, require_bls) is Ok,
    ensures
        c.context == context,
        c.view == view,
        c.block_hash == block_hash,
        valid_signers(members, c.signers()),
        is_quorum(members, c.signers().to_set()),
        require_bls ==> c.is_bls(),
{
    crate::types::committee::lemma_signer_check(members, c.signers(), 0);
}

/// A certificate that verifies for a block verifies for nothing else: with
/// another context, view, block or application state it is refused.
pub proof fn lemma_certificate_binds(
    members: Seq<MemberView>,
    c: CertificateView,
    context: ConsensusContext,
    view: u64,
    block_hash: Hash32,
    app_hash: Hash32,
    require_bls: bool,
    other_context: ConsensusContext,
    other_view: u64,
    other_hash: Hash32,
    other_app_hash: Hash32,
)
    requires
        certificate_check(members, c, context, view, block_hash, Some(app_hash), require_bls) is Ok,
        (other_context, other_view, other_hash, other_app_hash) != (
            context,
            view,
            block_hash,
            app_hash,
        ),
    ensures
        certificate_check(
            members,
            c,
            other_context,
            other_view,
            other_hash,
            Some(other_app_hash),
            require_bls,
        ) is Err,
{
}

/// Two verified certificates of one view share signers with more than a third
/// of the voting power.
pub proof fn lemma_conflicting_certificates(
    members: Seq<MemberView>,
    a: CertificateView,
    b: CertificateView,
    context: ConsensusContext,
    view: u64,
    app_a: Option<Hash32>,
    app_b: Option<Hash32>,
    require_bls: bool,
)
    requires
        valid_members(members),
        certificate_check(members, a, context, view, a.block_hash, app_a, require_bls) is Ok,
        certificate_check(members, b, context, view, b.block_hash, app_b, require_bls) is Ok,
    ensures
        3 * crate::types::committee::power_of(
            members,
            a.signers().to_set().intersect(b.signers().to_set()),
        ) > crate::types::committee::total_power(members),
{
    lemma_verified_certificate(members, a, context, view, a.block_hash, app_a, require_bls);
    lemma_verified_certificate(members, b, context, view, b.block_hash, app_b, require_bls);
    crate::types::committee::lemma_quorum_intersection(
        members,
        a.signers().to_set(),
        b.signers().to_set(),
    );
}

/// Without required signatures, a certificate formed from votes verifies
/// against the same committee for the block that the votes are for.
pub proof fn lemma_formed_certificate_verifies(
    members: Seq<MemberView>,
    context: ConsensusContext,
    votes: Seq<VoteView>,
)
    requires
        formation_fault(members, context, votes, false) is None,
        valid_members(members),
    ensures
        certificate_check(
            members,
            formed(context, votes, false),
            context,
            votes[0].view,
            votes[0].block_hash,
            Some(votes[0].app_hash),
            false,
        ) is Ok,
{
    let c = formed(context, votes, false);
    lemma_votes_check(members, votes, context, false, 0);
    crate::types::committee::lemma_signer_check(members, voters_of(votes), 0);
    lemma_plain_votes(members, c, context, 0);
}

/// A certificate formed from signed votes verifies against the same committee,
/// for the block that the votes are for, as soon as the aggregate of their
/// signatures verifies under their keys.
pub proof fn lemma_formed_aggregate_verifies(
    members: Seq<MemberView>,
    context: ConsensusContext,
    votes: Seq<VoteView>,
)
    requires
        formation_fault(members, context, votes, true) is None,
        valid_members(members),
        formed(context, votes, true).is_bls(),
        bls_signature_decodes(formed(context, votes, true).agg_signature),
        bls_aggregate_verifies(
            vote_message(context, votes[0].view, votes[0].block_hash, votes[0].app_hash),
            formed(context, votes, true).agg_signature,
            keys_of(votes),
        ),
    ensures
        certificate_check(
            members,
            formed(context, votes, true),
            context,
            votes[0].view,
            votes[0].block_hash,
            Some(votes[0].app_hash),
            true,
        ) is Ok,
{
    lemma_votes_check(members, votes, context, true, 0);
    crate::types::committee::lemma_signer_check(members, voters_of(votes), 0);
    lemma_listed_voters(members, votes, context, 0);
}

proof fn lemma_listed_voters(
    members: Seq<MemberView>,
    votes: Seq<VoteView>,
    context: ConsensusContext,
    i: int,
)
    requires
        0 <= i <= votes.len(),
        voters_of(votes).no_duplicates(),
        forall|k: int|
            0 <= k < votes.len() ==> vote_check(
                members,
                #[trigger] votes[k],
                context,
                votes[0].view,
                votes[0].block_hash,
                votes[0].app_hash,
                true,
            ) is Ok,
    ensures
        listed_voters_check(members, voters_of(votes), keys_of(votes), i) is Ok,
    decreases votes.len() - i,
{
    if i < votes.len() {
        let voters = voters_of(votes);
        assert(vote_check(
            members,
            votes[i],
            context,
            votes[0].view,
            votes[0].block_hash,
            votes[0].app_hash,
            true,
        ) is Ok);
        assert(voters[i] == votes[i].voter);
        assert(keys_of(votes)[i] == votes[i].bls_pubkey->Some_0);
        assert(!voters.take(i).contains(voters[i]));
        lemma_listed_voters(members, votes, context, i + 1);
    }
}

proof fn lemma_plain_votes(members: Seq<MemberView>, c: CertificateView, context: ConsensusContext, i: int)
    requires
        0 <= i <= c.votes.len(),
        c.votes.len() > 0,
        c.view == c.votes[0].view,
        c.block_hash == c.votes[0].block_hash,
        plain_app_hash(c) == c.votes[0].app_hash,
        voters_of(c.votes).no_duplicates(),
        forall|k: int|
            0 <= k < c.votes.len() ==> vote_check(
                members,
                #[trigger] c.votes[k],
                context,
                c.votes[0].view,
                c.votes[0].block_hash,
                c.votes[0].app_hash,
                false,
            ) is Ok,
    ensures
        plain_votes_check(members, c, context, plain_app_hash(c), i) is Ok,
    decreases c.votes.len() - i,
{
    if i < c.votes.len() {
        assert(vote_check(
            members,
            c.votes[i],
            context,
            c.votes[0].view,
            c.votes[0].block_hash,
            c.votes[0].app_hash,
            false,
        ) is Ok);
        let vs = voters_of(c.votes);
        if vs.take(i).contains(c.votes[i].voter) {
            let k = choose|k: int| 0 <= k < i && vs.take(i)[k] == c.votes[i].voter;
            assert(vs[k] == vs[i]);
        }
        lemma_plain_votes(members, c, context, i + 1);
    }
}

/// Two votes of a keyed member for different blocks of one view, which both
/// verify, make evidence that every verifier accepts, whichever of them was found
/// first.
pub proof fn lemma_double_vote_convicts(
    members: Seq<MemberView>,
    first: VoteView,
    second: VoteView,
    context: ConsensusContext,
    require_bls: bool,
)
    requires
        first.voter == second.voter,
        first.view == second.view,
        first.block_hash != second.block_hash,
        context.genesis_hash != zero_hash(),
        first.signature.len() == 96,
        second.signature.len() == 96,
        vote_check(
            members,
            first,
            context,
            first.view,
            first.block_hash,
            first.app_hash,
            require_bls,
        ) is Ok,
        vote_check(
            members,
            second,
            context,
            second.view,
            second.block_hash,
            second.app_hash,
            require_bls,
        ) is Ok,
    ensures
        proof_check(members, proof_of(record_of(first), second).ordered(), context, require_bls)
            is Ok,
{
    let p = proof_of(record_of(first), second);
    lemma_hash_order_total(p.hash_a, p.hash_b);
    let key = member_of(members, first.voter)->Some_0.bls_pubkey;
    let q = p.ordered();
    let a = proof_vote(q, q.hash_a, q.app_hash_a, q.signature_a, key);
    let b = proof_vote(q, q.hash_b, q.app_hash_b, q.signature_b, key);
    if key is Some {
        assert(a == first || a == second);
        assert(b == first || b == second);
    } else {
        assert(signature_fault(key, first, require_bls) is None);
        assert(signature_fault(key, second, require_bls) is None);
        let i = choose|i: int| 0 <= i < first.signature.len() && first.signature[i] != 0;
        let j = choose|j: int| 0 <= j < second.signature.len() && second.signature[j] != 0;
        assert(a.signature[i] != 0 || a.signature[j] != 0);
        assert(b.signature[i] != 0 || b.signature[j] != 0);
        assert(signature_fault(key, a, require_bls) is None);
        assert(signature_fault(key, b, require_bls) is None);
    }
}

/// A vote counts with exactly its voter's power, and exactly if it is from a member
/// and for the expected proposal, with the member's key and a signature of that
/// key on the proposal; where the member has no key, if keys are not required and
/// the signature is not blank.
pub proof fn lemma_vote_counts(
    members: Seq<MemberView>,
    vote: VoteView,
    context: ConsensusContext,
    view: u64,
    block_hash: Hash32,
    app_hash: Hash32,
    require_bls: bool,
)
    ensures
        ({
            let r = vote_check(members, vote, context, view, block_hash, app_hash, require_bls);
            let member = member_of(members, vote.voter);
            &&& r is Ok <==> {
                &&& context.committee_hash == members_hash(members)
                &&& vote.context == context
                &&& vote.view == view
                &&& vote.block_hash == block_hash
                &&& vote.app_hash == app_hash
                &&& member matches Some(m) && match m.bls_pubkey {
                    Some(k) => {
                        &&& vote.bls_pubkey == Some(k)
                        &&& k.len() == 48
                        &&& bls_key_decodes(k)
                        &&& vote.signature.len() == 96
                        &&& bls_signature_decodes(vote.signature)
                        &&& bls_verifies(
                            k,
                            vote_message(context, view, block_hash, app_hash),
                            vote.signature,
                        )
                    },
                    None => !require_bls && exists|i: int|
                        0 <= i < vote.signature.len() && #[trigger] vote.signature[i] != 0,
                }
            }
            &&& r matches Ok(power) ==> power == member->Some_0.voting_power
        }),
{
    if let Some(m) = member_of(members, vote.voter) {
        if m.bls_pubkey is None {
            if exists|i: int| 0 <= i < vote.signature.len() && #[trigger] vote.signature[i] != 0 {
                let i = choose|i: int|
                    0 <= i < vote.signature.len() && #[trigger] vote.signature[i] != 0;
                assert(vote.signature[i] != 0);
            }
        }
    }
}

/// Evidence convicts exactly if it is in canonical form and of the expected
/// context, and each of its halves is a vote of the accused that counts.
pub proof fn lemma_evidence_convicts(
    members: Seq<MemberView>,
    p: ProofView,
    context: ConsensusContext,
    require_bls: bool,
)
    ensures
        proof_check(members, p, context, require_bls) is Ok <==> {
            let key = member_of(members, p.offender)->Some_0.bls_pubkey;
            let a = VoteView {
                context: p.context,
                view: p.view,
                block_hash: p.hash_a,
                app_hash: p.app_hash_a,
                voter: p.offender,
                signature: p.signature_a,
                bls_pubkey: key,
            };
            let b = VoteView {
                block_hash: p.hash_b,
                app_hash: p.app_hash_b,
                signature: p.signature_b,
                ..a
            };
            &&& context.genesis_hash != zero_hash()
            &&& p.signature_a.len() == 96
            &&& p.signature_b.len() == 96
            &&& hash_before(p.hash_a, p.hash_b)
            &&& vote_check(members, a, context, p.view, p.hash_a, p.app_hash_a, require_bls) is Ok
            &&& vote_check(members, b, context, p.view, p.hash_b, p.app_hash_b, require_bls) is Ok
        },
{
    lemma_hash_order_total(p.hash_a, p.hash_b);
}

/// What an aggregate certificate is checked for: it lists distinct members, each
/// with the member's key, and carries their aggregate on its own message.
pub proof fn lemma_aggregate_certificate(members: Seq<MemberView>, c: CertificateView, app_hash: Option<Hash32>)
    ensures
        aggregate_check(members, c, app_hash) is Ok <==> {
            &&& c.app_hash matches Some(h) && (app_hash matches Some(e) ==> e == h)
                && bls_aggregate_verifies(
                vote_message(c.context, c.view, c.block_hash, h),
                c.agg_signature,
                c.bls_pubkeys,
            )
            &&& c.votes.len() == 0
            &&& c.voters.len() > 0
            &&& c.voters.len() == c.bls_pubkeys.len()
            &&& c.voters.no_duplicates()
            &&& bls_signature_decodes(c.agg_signature)
            &&& forall|i: int|
                0 <= i < c.voters.len() ==> (member_of(members, #[trigger] c.voters[i]) matches Some(
                    m,
                ) && m.bls_pubkey == Some(c.bls_pubkeys[i])) && c.bls_pubkeys[i].len() == 48
                    && bls_key_decodes(c.bls_pubkeys[i])
        },
{
    if c.voters.len() == c.bls_pubkeys.len() {
        lemma_listed_from(members, c.voters, c.bls_pubkeys, 0);
    }
}

/// The listed voters from a position on are in order exactly if each is a keyed
/// member with its own key that is not listed before.
proof fn lemma_listed_from(
    members: Seq<MemberView>,
    voters: Seq<NodeId>,
    keys: Seq<Seq<u8>>,
    i: int,
)
    requires
        0 <= i <= voters.len(),
        voters.len() == keys.len(),
        forall|a: int, b: int| 0 <= a < b < i ==> voters[a] != voters[b],
    ensures
        listed_voters_check(members, voters, keys, i) is Ok <==> voters.no_duplicates() && (forall|
            k: int,
        |
            i <= k < voters.len() ==> (member_of(members, #[trigger] voters[k]) matches Some(m)
                && m.bls_pubkey == Some(keys[k])) && keys[k].len() == 48 && bls_key_decodes(keys[k])),
    decreases voters.len() - i,
{
    if i < voters.len() {
        if voters.take(i).contains(voters[i]) {
            let j = choose|j: int| 0 <= j < i && voters.take(i)[j] == voters[i];
            assert(voters[j] == voters[i]);
        } else {
            assert forall|a: int| 0 <= a < i implies voters[a] != voters[i] by {
                assert(voters.take(i)[a] == voters[a]);
            }
            lemma_listed_from(members, voters, keys, i + 1);
        }
    }
}

/// What a certificate of individual votes is checked for: distinct voters whose
/// votes all count for its block and application state.
pub proof fn lemma_plain_certificate(
    members: Seq<MemberView>,
    c: CertificateView,
    context: ConsensusContext,
    app_hash: Option<Hash32>,
)
    ensures
        plain_check(members, c, context, app_hash) is Ok <==> {
            let state = match c.app_hash {
                Some(h) => h,
                None => c.votes[0].app_hash,
            };
            &&& c.votes.len() > 0
            &&& app_hash matches Some(e) ==> e == state
            &&& voters_of(c.votes).no_duplicates()
            &&& forall|i: int|
                0 <= i < c.votes.len() ==> vote_check(
                    members,
                    #[trigger] c.votes[i],
                    context,
                    c.view,
                    c.block_hash,
                    state,
                    false,
                ) is Ok
            &&& c.voters.len() > 0 ==> c.voters.no_duplicates() && c.voters.to_set() == voters_of(
                c.votes,
            ).to_set()
        },
{
    lemma_plain_from(members, c, context, plain_app_hash(c), 0);
}

/// The votes of a certificate from a position on are in order exactly if each
/// counts and its voter has not voted before.
proof fn lemma_plain_from(
    members: Seq<MemberView>,
    c: CertificateView,
    context: ConsensusContext,
    app_hash: Hash32,
    i: int,
)
    requires
        0 <= i <= c.votes.len(),
        forall|a: int, b: int|
            0 <= a < b < i ==> (#[trigger] c.votes[a]).voter != (#[trigger] c.votes[b]).voter,
    ensures
        plain_votes_check(members, c, context, app_hash, i) is Ok <==> voters_of(
            c.votes,
        ).no_duplicates() && (forall|k: int|
            i <= k < c.votes.len() ==> vote_check(
                members,
                #[trigger] c.votes[k],
                context,
                c.view,
                c.block_hash,
                app_hash,
                false,
            ) is Ok),
    decreases c.votes.len() - i,
{
    let voters = voters_of(c.votes);
    if i < c.votes.len() {
        if voters.take(i).contains(c.votes[i].voter) {
            let j = choose|j: int| 0 <= j < i && voters.take(i)[j] == c.votes[i].voter;
            assert(voters[j] == voters[i]);
        } else {
            assert forall|a: int| 0 <= a < i implies (#[trigger] c.votes[a]).voter
                != c.votes[i].voter by {
                assert(voters.take(i)[a] == c.votes[a].voter);
            }
            lemma_plain_from(members, c, context, app_hash, i + 1);
        }
    } else {
        assert forall|a: int, b: int| 0 <= a < voters.len() && 0 <= b < voters.len() && a != b implies voters[a]
            != voters[b] by {
            assert(voters[a] == c.votes[a].voter && voters[b] == c.votes[b].voter);
        }
    }
}

/// A certificate verifies exactly if it is for the expected block, view and
/// context of this committee, holds together in its own form, and its signers are
/// distinct members with strictly more than two thirds of the voting power.
pub proof fn lemma_certificate_verifies(
    members: Seq<MemberView>,
    c: CertificateView,
    context: ConsensusContext,
    view: u64,
    block_hash: Hash32,
    app_hash: Option<Hash32>,
    require_bls: bool,
)
    ensures
        certificate_check(members, c, context, view, block_hash, app_hash, require_bls) is Ok <==> {
            &&& context.committee_hash == members_hash(members)
            &&& c.context == context
            &&& c.view == view
            &&& c.block_hash == block_hash
            &&& if c.agg_signature.len() > 0 {
                aggregate_check(members, c, app_hash) is Ok
            } else {
                !require_bls && plain_check(members, c, context, app_hash) is Ok
            }
            &&& valid_signers(members, c.signers())
            &&& 3 * crate::types::committee::power_of(members, c.signers().to_set()) > 2
                * crate::types::committee::total_power(members)
        },
{
    crate::types::committee::lemma_signers_make_quorum(members, c.signers());
}

/// Votes make a certificate exactly if there are some, all count for the block of
/// the first one, and their voters are distinct members with strictly more than
/// two thirds of the voting power; signed votes only if they can be aggregated.
pub proof fn lemma_formation(
    members: Seq<MemberView>,
    context: ConsensusContext,
    votes: Seq<VoteView>,
    require_bls: bool,
)
    ensures
        formation_fault(members, context, votes, require_bls) is None <==> {
            &&& context.committee_hash == members_hash(members)
            &&& votes.len() > 0
            &&& forall|i: int|
                0 <= i < votes.len() ==> vote_check(
                    members,
                    #[trigger] votes[i],
                    context,
                    votes[0].view,
                    votes[0].block_hash,
                    votes[0].app_hash,
                    require_bls,
                ) is Ok
            &&& valid_signers(members, voters_of(votes))
            &&& 3 * crate::types::committee::power_of(members, voters_of(votes).to_set()) > 2
                * crate::types::committee::total_power(members)
            &&& require_bls ==> bls_aggregate(signatures_of(votes)) is Some
        },
        ({
            let c = formed(context, votes, require_bls);
            &&& c.context == context
            &&& c.view == votes[0].view
            &&& c.block_hash == votes[0].block_hash
            &&& c.app_hash == Some(votes[0].app_hash)
            &&& c.voters == voters_of(votes)
            &&& require_bls ==> c.votes.len() == 0 && c.bls_pubkeys == keys_of(votes)
                && c.agg_signature == bls_aggregate(signatures_of(votes))->Some_0
            &&& !require_bls ==> c.votes == votes && c.bls_pubkeys.len() == 0 && c.agg_signature.len()
                == 0
        }),
{
    crate::types::committee::lemma_signers_make_quorum(members, voters_of(votes));
    lemma_votes_from(members, votes, context, require_bls, 0);
}

/// The votes from a position on pass exactly if each of them counts.
proof fn lemma_votes_from(
    members: Seq<MemberView>,
    votes: Seq<VoteView>,
    context: ConsensusContext,
    require_bls: bool,
    i: int,
)
    requires
        0 <= i <= votes.len(),
    ensures
        votes_check(members, votes, context, require_bls, i) is Ok <==> (forall|k: int|
            i <= k < votes.len() ==> vote_check(
                members,
                #[trigger] votes[k],
                context,
                votes[0].view,
                votes[0].block_hash,
                votes[0].app_hash,
                require_bls,
            ) is Ok),
    decreases votes.len() - i,
{
    if i < votes.len() {
        lemma_votes_from(members, votes, context, require_bls, i + 1);
    }
}

/// What the refusal of a vote says of it is so.
pub proof fn lemma_vote_refusal(
    members: Seq<MemberView>,
    vote: VoteView,
    context: ConsensusContext,
    view: u64,
    block_hash: Hash32,
    app_hash: Hash32,
    require_bls: bool,
)
    ensures
        ({
            let key = match member_of(members, vote.voter) {
                Some(m) => m.bls_pubkey,
                None => None,
            };
            match vote_check(members, vote, context, view, block_hash, app_hash, require_bls) {
                Ok(_) => true,
                Err(VerifyError::CommitteeContext) => context.committee_hash != members_hash(members),
                Err(VerifyError::MessageContext) => vote.context != context,
                Err(VerifyError::ViewMismatch { found, expected }) => found == vote.view && expected
                    == view && found != expected,
                Err(VerifyError::BlockMismatch) => vote.block_hash != block_hash,
                Err(VerifyError::AppHashMismatch) => vote.app_hash != app_hash,
                Err(VerifyError::UnknownMember(id)) => id == vote.voter && !is_member(members, id),
                Err(VerifyError::NoConfiguredKey) => key is None && require_bls,
                Err(VerifyError::NoSignature) => key is None && (forall|k: int|
                    0 <= k < vote.signature.len() ==> vote.signature[k] == 0),
                Err(VerifyError::MissingKey) => key is Some && vote.bls_pubkey is None,
                Err(VerifyError::KeyMismatch) => key is Some && vote.bls_pubkey is Some
                    && vote.bls_pubkey != key,
                Err(VerifyError::SignatureLength) => vote.signature.len() != 96,
                Err(VerifyError::KeyLength) => key matches Some(k) && k.len() != 48,
                Err(VerifyError::KeyEncoding) => key matches Some(k) && !bls_key_decodes(k),
                Err(VerifyError::SignatureEncoding) => !bls_signature_decodes(vote.signature),
                Err(VerifyError::SignatureInvalid) => key matches Some(k) && !bls_verifies(
                    k,
                    vote.message(),
                    vote.signature,
                ),
                Err(_) => false,
            }
        }),
{
}

/// What the refusal of a certificate says of it is so.
pub proof fn lemma_certificate_refusal(
    members: Seq<MemberView>,
    c: CertificateView,
    context: ConsensusContext,
    view: u64,
    block_hash: Hash32,
    app_hash: Option<Hash32>,
    require_bls: bool,
)
    ensures
        match certificate_check(members, c, context, view, block_hash, app_hash, require_bls) {
            Err(VerifyError::CommitteeContext) => context.committee_hash != members_hash(members),
            Err(VerifyError::ViewMismatch { found, expected }) => c.view != view ==> found == c.view
                && expected == view,
            Err(VerifyError::AggregateRequired) => require_bls && c.agg_signature.len() == 0,
            Err(VerifyError::MissingAppHash) => c.is_bls() && c.app_hash is None,
            Err(VerifyError::NoVoters) => c.is_bls() && c.voters.len() == 0,
            Err(VerifyError::CarriesVotes) => c.is_bls() && c.votes.len() > 0,
            Err(VerifyError::CountMismatch) => c.is_bls() && c.voters.len() != c.bls_pubkeys.len(),
            Err(VerifyError::NoVotes) => !c.is_bls() && c.votes.len() == 0,
            Err(VerifyError::VoterListMismatch) => !c.is_bls() && c.voters.len() > 0 && !(
            c.voters.no_duplicates() && c.voters.to_set() == voters_of(c.votes).to_set()),
            Err(VerifyError::NoQuorum) => 3 * crate::types::committee::power_of(
                members,
                c.signers().to_set(),
            ) <= 2 * crate::types::committee::total_power(members),
            Err(VerifyError::Signers(_)) => !valid_signers(members, c.signers()),
            Err(VerifyError::Proof(_)) => false,
            Err(VerifyError::ProofContext) => false,
            Err(VerifyError::UnknownOffender) => false,
            Err(VerifyError::Formation(_)) => false,
            Err(VerifyError::Aggregation) => false,
            _ => true,
        },
        c.context != context && context.committee_hash == members_hash(members) ==> certificate_check(
            members,
            c,
            context,
            view,
            block_hash,
            app_hash,
            require_bls,
        ) == Err::<(), VerifyError>(VerifyError::MessageContext),
        c.context == context && context.committee_hash == members_hash(members) && c.view == view
            && c.block_hash != block_hash ==> certificate_check(
            members,
            c,
            context,
            view,
            block_hash,
            app_hash,
            require_bls,
        ) == Err::<(), VerifyError>(VerifyError::BlockMismatch),
{
    crate::types::committee::lemma_signers_make_quorum(members, c.signers());
    lemma_listed_refusal(members, c.voters, c.bls_pubkeys, 0);
    lemma_plain_refusal(members, c, context, plain_app_hash(c), 0);
}

proof fn lemma_listed_refusal(
    members: Seq<MemberView>,
    voters: Seq<NodeId>,
    keys: Seq<Seq<u8>>,
    i: int,
)
    requires
        0 <= i,
    ensures
        listed_voters_check(members, voters, keys, i) matches Err(e) ==> e
            == VerifyError::DuplicateVoter || e is UnknownVoter || e == VerifyError::ListedKeyMismatch
            || e == VerifyError::KeyLength || e == VerifyError::KeyEncoding,
    decreases voters.len() - i,
{
    if i < voters.len() {
        lemma_listed_refusal(members, voters, keys, i + 1);
    }
}

proof fn lemma_plain_refusal(
    members: Seq<MemberView>,
    c: CertificateView,
    context: ConsensusContext,
    app_hash: Hash32,
    i: int,
)
    requires
        0 <= i,
    ensures
        plain_votes_check(members, c, context, app_hash, i) matches Err(e) ==> e
            == VerifyError::DuplicateVoter || (exists|k: int|
            0 <= k < c.votes.len() && vote_check(
                members,
                #[trigger] c.votes[k],
                context,
                c.view,
                c.block_hash,
                app_hash,
                false,
            ) == Err::<u128, VerifyError>(e)),
    decreases c.votes.len() - i,
{
    if i < c.votes.len() {
        lemma_plain_refusal(members, c, context, app_hash, i + 1);
        match vote_check(members, c.votes[i], context, c.view, c.block_hash, app_hash, false) {
            Err(e) => {
                assert(vote_check(
                    members,
                    c.votes[i],
                    context,
                    c.view,
                    c.block_hash,
                    app_hash,
                    false,
                ) == Err::<u128, VerifyError>(e));
            },
            Ok(_) => {},
        }
    }
}

/// What the refusal of a proof of a double vote says of it is so.
pub proof fn lemma_double_vote_refusal(
    members: Seq<MemberView>,
    p: ProofView,
    context: ConsensusContext,
    require_bls: bool,
)
    ensures
        ({
            let key = match member_of(members, p.offender) {
                Some(m) => m.bls_pubkey,
                None => None,
            };
            match proof_check(members, p, context, require_bls) {
                Ok(_) => true,
                Err(VerifyError::CommitteeContext) => context.committee_hash != members_hash(members),
                Err(VerifyError::ProofContext) => p.context != context,
                Err(VerifyError::Proof(e)) => p.fault() == Some(e),
                Err(VerifyError::UnknownOffender) => !is_member(members, p.offender),
                Err(VerifyError::NoConfiguredKey) => key is None && require_bls,
                Err(VerifyError::NoSignature) => key is None,
                Err(VerifyError::KeyLength) => key matches Some(k) && k.len() != 48,
                Err(VerifyError::KeyEncoding) => key matches Some(k) && !bls_key_decodes(k),
                Err(VerifyError::SignatureEncoding) => !(bls_signature_decodes(p.signature_a)
                    && bls_signature_decodes(p.signature_b)),
                Err(VerifyError::SignatureInvalid) => key is Some,
                Err(_) => false,
            }
        }),
{
}

} // verus!
