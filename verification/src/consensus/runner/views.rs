//! Timeouts, view changes and votes of a networked node.

use vstd::prelude::*;

use crate::bytes::{bytes_eq, hash_eq, Hash32, NodeId};
use crate::consensus::aggregator::has_voted;
use crate::consensus::committee::{
    certificate_check, vote_check, verify_certificate, verify_vote, VerifyError,
};
use crate::consensus::equivocation::{proof_of, voter_key, EquivocationProof, ProofView};
use crate::consensus::hooks::AppHook;
use crate::consensus::message_handler::{store_vote_with_context, votes_for, with_vote};
use crate::consensus::pacemaker::PacemakerView;
use crate::consensus::persistence::PersistentStore;
use crate::consensus::runner::chain::{next_or_max, successor};
use crate::consensus::runner::{ConsensusRunner, RunnerView};
use crate::consensus::timeout::{all_keyed, collect_keys, option_tc, TimeoutsView};
use crate::consensus::view_change::{
    certificate_fault, option_vcc, validate_view_change_certificate_with_committee_and_context,
    validate_view_change_with_committee_and_context, view_change_fault, ViewChangeError,
    MAX_FUTURE_VIEWS,
};
use crate::crypto::bls_public_key;
use crate::types::block::{block_hash, Block, BlockView};
use crate::types::certificate::{
    copy_option_certificate, option_certificate_eq, Certificate, CertificateView,
};
use crate::types::committee::{member_of, Committee, CommitteeConfigError, MemberView};
use crate::types::context::ConsensusContext;
use crate::types::messages::{
    highest_qc_of, NewView, NewViewView, Timeout, TimeoutCertificate, TimeoutCertificateView,
    TimeoutView, ViewChange, ViewChangeCertificate, ViewChangeCertificateView, ViewChangeView,
};
use crate::types::settings::{ConfigView, ConsensusConfig};
use crate::types::vote::{Vote, VoteView};

verus! {

/// Why a configuration cannot run a networked node.
#[derive(Clone, Copy, Debug, PartialEq, Eq)]
pub enum NetworkConfigError {
    /// It describes no committee.
    Committee(CommitteeConfigError),
    /// A member has no usable key.
    MemberKey,
    /// The node has no key to sign with.
    NoSecretKey,
    /// The node is not a member.
    NotMember,
    /// The node's key is not the one that the committee has for it.
    KeyMismatch,
}

/// Why a configuration cannot run a networked node.
pub open spec fn network_fault(c: ConfigView) -> Option<NetworkConfigError> {
    if c.fault() is Some {
        Some(NetworkConfigError::Committee(c.fault()->Some_0))
    } else if !all_keyed(c.members()) {
        Some(NetworkConfigError::MemberKey)
    } else if c.bls_secret_key is None {
        Some(NetworkConfigError::NoSecretKey)
    } else {
        match member_of(c.members(), c.node_id) {
            None => Some(NetworkConfigError::NotMember),
            Some(m) => if m.bls_pubkey is None {
                Some(NetworkConfigError::NotMember)
            } else if m.bls_pubkey->Some_0 != bls_public_key(c.bls_secret_key->Some_0@) {
                Some(NetworkConfigError::KeyMismatch)
            } else {
                None
            },
        }
    }
}

/// Checks that a configuration can run a networked node, and returns its
/// committee.
pub fn validate_network_config(config: &ConsensusConfig) -> (r: Result<Committee, NetworkConfigError>)
    ensures
        match r {
            Ok(c) => network_fault(config@) is None && c.members_view() == config@.members(),
            Err(e) => network_fault(config@) == Some(e),
        },
{
    let committee = match config.committee() {
        Ok(c) => c,
        Err(e) => {
            return Err(NetworkConfigError::Committee(e));
        },
    };
    if collect_keys(&committee).is_none() {
        return Err(NetworkConfigError::MemberKey);
    }
    let secret = match config.bls_secret_key() {
        Some(s) => s,
        None => {
            return Err(NetworkConfigError::NoSecretKey);
        },
    };
    let own = secret.public_key();
    let matches = match committee.bls_pubkey(&config.node_id) {
        Some(key) => bytes_eq(key, &own),
        None => {
            return Err(NetworkConfigError::NotMember);
        },
    };
    if !matches {
        return Err(NetworkConfigError::KeyMismatch);
    }
    Ok(committee)
}

/// Whether a node still asks for a view change after its own timeout: not if
/// the timeout completed a certificate, which already moved it on.
pub fn should_emit_view_change_after_timeout_certificate(formed: bool) -> (r: bool)
    ensures
        r == !formed,
{
    !formed
}

/// A view that messages are accepted for: the current one or one within reach.
pub open spec fn in_window(current_view: u64, view: u64) -> bool {
    current_view <= view <= current_view + MAX_FUTURE_VIEWS
}

/// Whether messages of a view are accepted.
pub fn is_view_in_bounded_window(current_view: u64, message_view: u64) -> (r: bool)
    ensures
        r == in_window(current_view, message_view),
{
    message_view >= current_view && message_view - current_view <= MAX_FUTURE_VIEWS
}

/// Why a highest certificate is not accepted.
#[derive(Clone, Copy, Debug, PartialEq, Eq)]
pub enum HighQcError {
    /// Its block is not connected to the committed head.
    NotConnected,
    /// Its block is not known.
    Unavailable,
    /// Its block belongs to another context.
    BlockContext,
    /// It belongs to another context.
    QcContext,
    /// It is not for the known block.
    HashMismatch,
    /// It is of another view than the block.
    ViewMismatch { qc: u64, block: u64 },
    /// It does not verify.
    Invalid(VerifyError),
}

/// Why a certificate does not fit the known block that it is for.
pub open spec fn high_qc_fault(
    members: Seq<MemberView>,
    context: ConsensusContext,
    qc: CertificateView,
    block: Option<BlockView>,
    require_bls: bool,
) -> Option<HighQcError> {
    match block {
        None => Some(HighQcError::Unavailable),
        Some(b) => if b.context != context {
            Some(HighQcError::BlockContext)
        } else if qc.context != context {
            Some(HighQcError::QcContext)
        } else if block_hash(b) != qc.block_hash {
            Some(HighQcError::HashMismatch)
        } else if b.view != qc.view {
            Some(HighQcError::ViewMismatch { qc: qc.view, block: b.view })
        } else {
            match certificate_check(
                members,
                qc,
                context,
                b.view,
                block_hash(b),
                Some(b.app_hash),
                require_bls,
            ) {
                Ok(()) => None,
                Err(e) => Some(HighQcError::Invalid(e)),
            }
        },
    }
}

/// Verifies a certificate against the known block that it is for.
pub fn verify_high_qc_against_block(
    committee: &Committee,
    context: ConsensusContext,
    qc: &Certificate,
    certified_block: Option<&Block>,
    require_bls_signature: bool,
) -> (r: Result<(), HighQcError>)
    ensures
        ({
            let b = match certified_block {
                Some(b) => Some(b@),
                None => None,
            };
            match r {
                Ok(()) => high_qc_fault(
                    committee.members_view(),
                    context,
                    qc@,
                    b,
                    require_bls_signature,
                ) is None,
                Err(e) => high_qc_fault(
                    committee.members_view(),
                    context,
                    qc@,
                    b,
                    require_bls_signature,
                ) == Some(e),
            }
        }),
{
    let b = match certified_block {
        Some(b) => b,
        None => {
            return Err(HighQcError::Unavailable);
        },
    };
    if b.validate_context(context).is_err() {
        return Err(HighQcError::BlockContext);
    }
    if qc.validate_context(context).is_err() {
        return Err(HighQcError::QcContext);
    }
    let hash = b.hash();
    if !hash_eq(&hash, &qc.block_hash) {
        return Err(HighQcError::HashMismatch);
    }
    if b.view != qc.view {
        return Err(HighQcError::ViewMismatch { qc: qc.view, block: b.view });
    }
    match verify_certificate(
        committee,
        qc,
        context,
        b.view,
        &hash,
        Some(b.app_hash),
        require_bls_signature,
    ) {
        Ok(()) => Ok(()),
        Err(e) => Err(HighQcError::Invalid(e)),
    }
}

/// Why a view-change certificate is not acted on.
#[derive(Clone, Copy, Debug, PartialEq, Eq)]
pub enum ViewError {
    /// The configuration cannot run a networked node.
    Config(NetworkConfigError),
    /// The message belongs to another context.
    Context,
    /// The view change or its certificate does not verify.
    ViewChange(ViewChangeError),
    /// A highest certificate in it is not accepted.
    HighQc(HighQcError),
    /// The sender is not who the message says.
    Sender,
    /// The sender does not lead the view.
    NotLeader,
    /// The view is not the next one.
    NotNext,
    /// The certificate is for another view.
    CertificateView,
    /// The announced certificate is not the highest one of the view changes.
    NotHighest,
}

/// The contents of optional evidence.
pub open spec fn option_proof(o: Option<EquivocationProof>) -> Option<ProofView> {
    match o {
        Some(p) => Some(p@),
        None => None,
    }
}

impl RunnerView {
    /// Why a highest certificate is not accepted.
    pub open spec fn local_qc_fault(self, qc: CertificateView) -> Option<HighQcError> {
        if !self.connected(qc.block_hash) {
            Some(HighQcError::NotConnected)
        } else {
            high_qc_fault(
                self.config.members(),
                self.context,
                qc,
                self.known_at(qc.block_hash),
                self.config.keyed(),
            )
        }
    }

    /// Why the highest certificates of view changes are not accepted, from a
    /// position on.
    pub open spec fn changes_qc_fault(self, list: Seq<ViewChangeView>, i: int) -> Option<ViewError>
        decreases list.len() - i,
    {
        if i < 0 || i >= list.len() {
            None
        } else if list[i].context != self.context {
            Some(ViewError::Context)
        } else {
            match list[i].high_qc {
                None => self.changes_qc_fault(list, i + 1),
                Some(qc) => match self.local_qc_fault(qc) {
                    Some(e) => Some(ViewError::HighQc(e)),
                    None => self.changes_qc_fault(list, i + 1),
                },
            }
        }
    }

    /// Why a peer's view change is refused.
    pub open spec fn view_change_refusal(self, from: NodeId, vc: ViewChangeView) -> Option<ViewError> {
        if from != vc.sender {
            Some(ViewError::Sender)
        } else if vc.context != self.context {
            Some(ViewError::Context)
        } else if network_fault(self.config) is Some {
            Some(ViewError::Config(network_fault(self.config)->Some_0))
        } else if vc.to_view != next_or_max(self.pacemaker.current_view) {
            Some(ViewError::NotNext)
        } else if view_change_fault(
            vc,
            self.config.members(),
            self.context,
            self.pacemaker.current_view,
        ) is Some {
            Some(
                ViewError::ViewChange(
                    view_change_fault(
                        vc,
                        self.config.members(),
                        self.context,
                        self.pacemaker.current_view,
                    )->Some_0,
                ),
            )
        } else {
            match vc.high_qc {
                None => None,
                Some(qc) => match self.local_qc_fault(qc) {
                    Some(e) => Some(ViewError::HighQc(e)),
                    None => None,
                },
            }
        }
    }

    /// Why a view-change certificate is not acted on.
    pub open spec fn certificate_refusal(self, vcc: ViewChangeCertificateView) -> Option<ViewError> {
        if vcc.context != self.context {
            Some(ViewError::Context)
        } else if network_fault(self.config) is Some {
            Some(ViewError::Config(network_fault(self.config)->Some_0))
        } else if certificate_fault(
            vcc,
            self.config.members(),
            self.context,
            self.pacemaker.current_view,
        ) is Some {
            Some(
                ViewError::ViewChange(
                    certificate_fault(
                        vcc,
                        self.config.members(),
                        self.context,
                        self.pacemaker.current_view,
                    )->Some_0,
                ),
            )
        } else {
            self.changes_qc_fault(vcc.view_changes, 0)
        }
    }

    /// Why a new leader's announcement is refused.
    pub open spec fn new_view_refusal(self, from: NodeId, nv: NewViewView) -> Option<ViewError> {
        if nv.context != self.context || nv.view_change_cert.context != self.context {
            Some(ViewError::Context)
        } else if from != self.config.leader(nv.view) {
            Some(ViewError::NotLeader)
        } else if nv.view != next_or_max(self.pacemaker.current_view) {
            Some(ViewError::NotNext)
        } else if self.certificate_refusal(nv.view_change_cert) is Some {
            self.certificate_refusal(nv.view_change_cert)
        } else if nv.view_change_cert.view != nv.view {
            Some(ViewError::CertificateView)
        } else if nv.high_qc != highest_qc_of(nv.view_change_cert.view_changes) {
            Some(ViewError::NotHighest)
        } else {
            None
        }
    }

    /// The runner after a new view, but for the start of the view.
    pub open spec fn entered(self, nv: NewViewView) -> RunnerView {
        RunnerView {
            pacemaker: self.pacemaker.after_new_view(nv),
            safety: match nv.high_qc {
                Some(qc) => self.safety.after_high_qc(qc),
                None => self.safety,
            },
            ..self
        }
    }

    /// The same runner with another start of the view.
    pub open spec fn view_started(self, at: u64) -> RunnerView {
        RunnerView { pacemaker: self.pacemaker.started(at), ..self }
    }

    /// A vote is about a known block, and names exactly its view and
    /// application state.
    pub open spec fn knows_subject(self, vote: VoteView, target_view: u64) -> bool {
        &&& vote.view == target_view
        &&& self.known().contains_key(vote.block_hash)
        &&& self.known()[vote.block_hash].context == self.context
        &&& self.known()[vote.block_hash].view == vote.view
        &&& self.known()[vote.block_hash].app_hash == vote.app_hash
    }

    /// A vote verifies for the block that it names.
    pub open spec fn vote_verifies(self, vote: VoteView) -> bool {
        self.config.fault() is None && vote_check(
            self.config.members(),
            vote,
            self.context,
            vote.view,
            vote.block_hash,
            vote.app_hash,
            self.config.keyed(),
        ) is Ok
    }

    /// The runner after a vote was stored.
    pub open spec fn with_stored_vote(self, vote: VoteView) -> RunnerView {
        RunnerView {
            votes: with_vote(self.votes, vote),
            detector: self.detector.after(vote),
            ..self
        }
    }

    /// A vote that comes outside the collection of votes is stored.
    pub open spec fn stores_vote(self, from: NodeId, vote: VoteView, target_view: u64, now: u64) -> bool {
        &&& from == vote.voter
        &&& self.knows_subject(vote, target_view)
        &&& vote.context == self.context
        &&& self.vote_verifies(vote)
        &&& self.limiter.allows(vote.voter, now)
    }

    /// The evidence that a stored vote completes: the voter voted for another
    /// block in the view.
    pub open spec fn evidence_of(self, vote: VoteView) -> Option<ProofView> {
        if self.detector.accepts(vote) && self.detector.conflicts(vote) {
            Some(proof_of(self.detector.votes[voter_key(vote)], vote))
        } else {
            None
        }
    }

    /// The rate limit is consulted for a vote that comes outside the
    /// collection of votes.
    pub open spec fn counts_vote(self, from: NodeId, vote: VoteView, target_view: u64) -> bool {
        &&& from == vote.voter
        &&& self.knows_subject(vote, target_view)
        &&& vote.context == self.context
        &&& self.vote_verifies(vote)
    }

    /// The runner after a vote came outside the collection of votes.
    pub open spec fn after_vote_message(self, from: NodeId, vote: VoteView, target_view: u64, now: u64) -> RunnerView {
        let counted = RunnerView { limiter: self.limiter.after(vote.voter, now), ..self };
        if !self.counts_vote(from, vote, target_view) {
            self
        } else if !self.limiter.allows(vote.voter, now) {
            counted
        } else {
            counted.with_stored_vote(vote)
        }
    }

    /// A vote that a leader collects for its block, or evidence of a vote for
    /// another block in the same view.
    pub open spec fn collectable(self, vote: VoteView, view: u64, h: Hash32, app_hash: Hash32) -> bool {
        &&& self.config.fault() is None
        &&& if vote.block_hash == h {
            vote_check(
                self.config.members(),
                vote,
                self.context,
                view,
                h,
                app_hash,
                self.config.keyed(),
            ) is Ok
        } else {
            vote.view == view && vote_check(
                self.config.members(),
                vote,
                self.context,
                view,
                vote.block_hash,
                vote.app_hash,
                self.config.keyed(),
            ) is Ok
        }
        &&& !has_voted(votes_for(self.votes, vote.block_hash), vote.voter)
    }

    /// A vote is stored while a leader collects votes.
    pub open spec fn gathers_vote(
        self,
        from: NodeId,
        vote: VoteView,
        view: u64,
        h: Hash32,
        app_hash: Hash32,
        now: u64,
    ) -> bool {
        &&& from == vote.voter
        &&& vote.context == self.context
        &&& self.limiter.allows(vote.voter, now)
        &&& self.collectable(vote, view, h, app_hash)
    }

    /// The runner after a vote came while a leader collects votes.
    pub open spec fn after_collected(
        self,
        from: NodeId,
        vote: VoteView,
        view: u64,
        h: Hash32,
        app_hash: Hash32,
        now: u64,
    ) -> RunnerView {
        let counted = RunnerView { limiter: self.limiter.after(vote.voter, now), ..self };
        if from != vote.voter || vote.context != self.context {
            self
        } else if !self.limiter.allows(vote.voter, now) || !self.collectable(
            vote,
            view,
            h,
            app_hash,
        ) {
            counted
        } else {
            counted.with_stored_vote(vote)
        }
    }

    /// A timeout is handed to the collector.
    pub open spec fn hears_timeout(self, t: TimeoutView) -> bool {
        &&& t.context == self.context
        &&& in_window(self.pacemaker.current_view, t.view)
        &&& self.timeouts is Some
    }

    /// The runner after a timeout came.
    pub open spec fn after_timeout(self, t: TimeoutView) -> RunnerView {
        if self.hears_timeout(t) {
            RunnerView { timeouts: Some(self.timeouts->Some_0.after(t)), ..self }
        } else {
            self
        }
    }

    /// The certificate that a timeout completes.
    pub open spec fn timeout_result(self, t: TimeoutView) -> Option<TimeoutCertificateView> {
        if self.hears_timeout(t) && self.timeouts->Some_0.collects(t) {
            self.timeouts->Some_0.after(t).certificate(t.view)
        } else {
            None
        }
    }

    /// The runner after a timeout certificate, but for the start of the view.
    pub open spec fn after_timeout_certificate(self, tc: TimeoutCertificateView) -> RunnerView {
        RunnerView {
            pacemaker: if tc.view + 1 > self.pacemaker.current_view {
                PacemakerView { current_view: (tc.view + 1) as u64, ..self.pacemaker }
            } else {
                self.pacemaker
            },
            timeouts: match self.timeouts {
                Some(t) => Some(
                    TimeoutsView {
                        timeouts: t.timeouts.restrict(
                            Set::new(crate::table::keys_from::<u64>(tc.view)),
                        ),
                        ..t
                    },
                ),
                None => None,
            },
            ..self
        }
    }
}

/// A refused announcement changes nothing; an accepted one moves the node to
/// exactly the next view, and never lowers its highest certificate.
pub proof fn lemma_new_view_next(s: RunnerView, from: NodeId, nv: NewViewView)
    requires
        s.new_view_refusal(from, nv) is None,
        s.pacemaker.accepts_new_view(nv),
        s.pacemaker.current_view < u64::MAX,
    ensures
        s.entered(nv).pacemaker.current_view == s.pacemaker.current_view + 1,
        s.entered(nv).safety.high_qc_view() >= s.safety.high_qc_view(),
        s.entered(nv).safety.voted == s.safety.voted,
{
}

/// A stored vote never comes from a peer that is not the voter, and is always
/// about a block that the node knows.
pub proof fn lemma_stored_votes_authentic(
    s: RunnerView,
    from: NodeId,
    vote: VoteView,
    target_view: u64,
    now: u64,
)
    requires
        s.after_vote_message(from, vote, target_view, now).votes != s.votes,
    ensures
        s.stores_vote(from, vote, target_view, now),
{
}

impl<A: AppHook, P: PersistentStore> ConsensusRunner<A, P> {
    /// Verifies a highest certificate against the block that the node knows.
    pub(crate) fn verify_high_qc_locally(&self, committee: &Committee, qc: &Certificate) -> (r: Result<
        (),
        HighQcError,
    >)
        requires
            self.wf(),
            committee.members_view() == self.state().config.members(),
        ensures
            match r {
                Ok(()) => self.state().local_qc_fault(qc@) is None,
                Err(e) => self.state().local_qc_fault(qc@) == Some(e),
            },
    {
        if !self.is_chain_connected_to_committed_head(&qc.block_hash) {
            return Err(HighQcError::NotConnected);
        }
        let b = self.known_block(&qc.block_hash);
        verify_high_qc_against_block(
            committee,
            self.context,
            qc,
            b.as_ref(),
            self.config.bls_configured(),
        )
    }

    /// Verifies the highest certificates of view changes against the blocks
    /// that the node knows.
    fn verify_vcc_high_qcs_locally(&self, committee: &Committee, vcc: &ViewChangeCertificate) -> (r: Result<
        (),
        ViewError,
    >)
        requires
            self.wf(),
            committee.members_view() == self.state().config.members(),
        ensures
            match r {
                Ok(()) => self.state().changes_qc_fault(vcc@.view_changes, 0) is None,
                Err(e) => self.state().changes_qc_fault(vcc@.view_changes, 0) == Some(e),
            },
    {
        let ghost list = vcc@.view_changes;
        let mut i: usize = 0;
        while i < vcc.view_changes.len()
            invariant
                i <= vcc.view_changes.len(),
                list == vcc@.view_changes,
                self.wf(),
                committee.members_view() == self.state().config.members(),
                self.state().changes_qc_fault(list, 0) == self.state().changes_qc_fault(list, i as int),
            decreases vcc.view_changes.len() - i,
        {
            let vc = &vcc.view_changes[i];
            assert(list[i as int] == vc@);
            if vc.validate_context(self.context).is_err() {
                return Err(ViewError::Context);
            }
            if let Some(qc) = &vc.high_qc {
                if let Err(e) = self.verify_high_qc_locally(committee, qc) {
                    return Err(ViewError::HighQc(e));
                }
            }
            i = i + 1;
        }
        Ok(())
    }

    /// Takes a timeout of a view within reach, and returns the certificate
    /// that it completes.
    pub fn process_timeout(&mut self, timeout: Timeout) -> (r: Option<TimeoutCertificate>)
        requires
            old(self).wf(),
        ensures
            final(self).wf(),
            final(self).rest() == old(self).rest(),
            final(self).state() == old(self).state().after_timeout(timeout@),
            option_tc(r) == old(self).state().timeout_result(timeout@),
    {
        if !timeout.context().same_as(&self.context) {
            return None;
        }
        if !is_view_in_bounded_window(self.pacemaker.current_view(), timeout.view) {
            return None;
        }
        match self.timeout_collector.take() {
            Some(mut collector) => {
                let result = collector.add(timeout);
                self.timeout_collector = Some(collector);
                match result {
                    Ok(tc) => tc,
                    Err(_) => None,
                }
            },
            None => None,
        }
    }

    /// Moves past the view of a timeout certificate. One of another context
    /// changes nothing.
    pub fn handle_timeout_certificate(&mut self, tc: &TimeoutCertificate) -> (r: bool)
        requires
            old(self).wf(),
            tc.view < u64::MAX,
        ensures
            final(self).wf(),
            final(self).rest() == old(self).rest(),
            r == (tc@.context == old(self).state().context),
            final(self).state() == (if r {
                old(self).state().after_timeout_certificate(tc@).view_started(
                    final(self).state().pacemaker.view_start,
                )
            } else {
                old(self).state()
            }),
    {
        if !tc.context().same_as(&self.context) {
            return false;
        }
        self.pacemaker.advance_to(tc.view + 1);
        if let Some(mut collector) = self.timeout_collector.take() {
            collector.prune_below(tc.view);
            self.timeout_collector = Some(collector);
        }
        true
    }

    /// Acts on a view-change certificate: the leader of its view announces
    /// the view and enters it.
    pub fn handle_view_change_certificate(&mut self, vcc: ViewChangeCertificate) -> (r: Result<
        Option<NewView>,
        ViewError,
    >)
        requires
            old(self).wf(),
        ensures
            final(self).wf(),
            final(self).rest() == old(self).rest(),
            match r {
                Err(e) => old(self).state().certificate_refusal(vcc@) == Some(e) && final(self).state()
                    == old(self).state(),
                Ok(None) => old(self).state().certificate_refusal(vcc@) is None
                    && old(self).state().config.leader(vcc@.view) != old(self).state().config.node_id
                    && final(self).state() == old(self).state(),
                Ok(Some(nv)) => {
                    &&& old(self).state().certificate_refusal(vcc@) is None
                    &&& old(self).state().config.leader(vcc@.view) == old(self).state().config.node_id
                    &&& nv@ == (NewViewView {
                        context: old(self).state().context,
                        view: vcc@.view,
                        high_qc: highest_qc_of(vcc@.view_changes),
                        view_change_cert: vcc@,
                    })
                    &&& final(self).state() == old(self).state().entered(nv@).view_started(
                        final(self).state().pacemaker.view_start,
                    )
                },
            },
    {
        if !vcc.context().same_as(&self.context) {
            return Err(ViewError::Context);
        }
        let committee = match validate_network_config(&self.config) {
            Ok(c) => c,
            Err(e) => {
                return Err(ViewError::Config(e));
            },
        };
        if let Err(e) = validate_view_change_certificate_with_committee_and_context(
            &vcc,
            &committee,
            self.context,
            self.pacemaker.current_view(),
        ) {
            return Err(ViewError::ViewChange(e));
        }
        if let Err(e) = self.verify_vcc_high_qcs_locally(&committee, &vcc) {
            return Err(e);
        }
        let view: u64 = vcc.view;
        let leader = self.config.leader_of_active(view);
        if !hash_eq(&leader, &self.config.node_id) {
            return Ok(None);
        }
        let high_qc = vcc.highest_qc();
        let nv = NewView {
            epoch: self.context.epoch,
            committee_hash: self.context.committee_hash,
            genesis_hash: self.context.genesis_hash,
            view,
            high_qc: copy_option_certificate(&high_qc),
            view_change_cert: vcc,
        };
        self.pacemaker.on_new_view(&nv);
        if let Some(qc) = high_qc {
            self.safety.update_high_qc(qc);
        }
        Ok(Some(nv))
    }

    /// Takes a peer's view change to the next view, and returns the
    /// certificate that it completes.
    pub fn accept_view_change(&mut self, from: NodeId, vc: ViewChange) -> (r: Result<
        Option<ViewChangeCertificate>,
        ViewError,
    >)
        requires
            old(self).wf(),
        ensures
            final(self).wf(),
            final(self).rest() == old(self).rest(),
            match r {
                Err(e) => old(self).state().view_change_refusal(from, vc@) == Some(e)
                    && final(self).state() == old(self).state(),
                Ok(vcc) => {
                    &&& old(self).state().view_change_refusal(from, vc@) is None
                    &&& match old(self).state().pacemaker.collector {
                        Some(c) => option_vcc(vcc) == c.result(vc@) && final(self).state() == (
                        RunnerView {
                            pacemaker: PacemakerView {
                                collector: Some(c.after(vc@)),
                                ..old(self).state().pacemaker
                            },
                            ..old(self).state()
                        }),
                        None => vcc is None && final(self).state() == old(self).state(),
                    }
                },
            },
    {
        if !hash_eq(&from, &vc.sender) {
            return Err(ViewError::Sender);
        }
        if vc.validate_context(self.context).is_err() {
            return Err(ViewError::Context);
        }
        let committee = match validate_network_config(&self.config) {
            Ok(c) => c,
            Err(e) => {
                return Err(ViewError::Config(e));
            },
        };
        let current: u64 = self.pacemaker.current_view();
        if vc.to_view != successor(current) {
            return Err(ViewError::NotNext);
        }
        if let Err(e) = validate_view_change_with_committee_and_context(
            &vc,
            &committee,
            self.context,
            current,
        ) {
            return Err(ViewError::ViewChange(e));
        }
        if let Some(qc) = &vc.high_qc {
            if let Err(e) = self.verify_high_qc_locally(&committee, qc) {
                return Err(ViewError::HighQc(e));
            }
        }
        Ok(self.pacemaker.on_view_change(vc))
    }

    /// Takes the announcement of the next view's leader, and enters the view.
    pub fn accept_new_view(&mut self, from: NodeId, nv: NewView) -> (r: Result<(), ViewError>)
        requires
            old(self).wf(),
        ensures
            final(self).wf(),
            final(self).rest() == old(self).rest(),
            match r {
                Err(e) => old(self).state().new_view_refusal(from, nv@) == Some(e)
                    && final(self).state() == old(self).state(),
                Ok(()) => old(self).state().new_view_refusal(from, nv@) is None
                    && final(self).state() == old(self).state().entered(nv@).view_started(
                    final(self).state().pacemaker.view_start,
                ),
            },
    {
        if !nv.context().same_as(&self.context) || !nv.view_change_cert.context().same_as(
            &self.context,
        ) {
            return Err(ViewError::Context);
        }
        let leader = self.config.leader_of_active(nv.view);
        if !hash_eq(&from, &leader) {
            return Err(ViewError::NotLeader);
        }
        let current: u64 = self.pacemaker.current_view();
        if nv.view != successor(current) {
            return Err(ViewError::NotNext);
        }
        let committee = match validate_network_config(&self.config) {
            Ok(c) => c,
            Err(e) => {
                return Err(ViewError::Config(e));
            },
        };
        if let Err(e) = validate_view_change_certificate_with_committee_and_context(
            &nv.view_change_cert,
            &committee,
            self.context,
            current,
        ) {
            return Err(ViewError::ViewChange(e));
        }
        if let Err(e) = self.verify_vcc_high_qcs_locally(&committee, &nv.view_change_cert) {
            return Err(e);
        }
        if nv.view_change_cert.view != nv.view {
            return Err(ViewError::CertificateView);
        }
        let highest = nv.view_change_cert.highest_qc();
        if !option_certificate_eq(&nv.high_qc, &highest) {
            return Err(ViewError::NotHighest);
        }
        self.pacemaker.on_new_view(&nv);
        if let Some(qc) = nv.high_qc {
            self.safety.update_high_qc(qc);
        }
        Ok(())
    }

    /// Whether a vote is about a known block, and names exactly its view and
    /// application state.
    pub fn has_locally_known_vote_subject(&self, vote: &Vote, target_view: u64) -> (r: bool)
        requires
            self.wf(),
        ensures
            r == self.state().knows_subject(vote@, target_view),
    {
        if vote.view != target_view {
            return false;
        }
        match self.known_block(&vote.block_hash) {
            Some(b) => b.context().same_as(&self.context) && b.view == vote.view && hash_eq(
                &b.app_hash,
                &vote.app_hash,
            ),
            None => false,
        }
    }

    /// Takes a vote that comes while the node waits for a proposal or an
    /// announcement. Returns evidence if the voter voted for two blocks.
    pub fn on_vote(&mut self, from: NodeId, vote: Vote, target_view: u64, now: u64) -> (r: Option<
        EquivocationProof,
    >)
        requires
            old(self).wf(),
        ensures
            final(self).wf(),
            final(self).rest() == old(self).rest(),
            final(self).state() == old(self).state().after_vote_message(
                from,
                vote@,
                target_view,
                now,
            ),
            option_proof(r) == (if old(self).state().stores_vote(from, vote@, target_view, now) {
                old(self).state().evidence_of(vote@)
            } else {
                None
            }),
    {
        if !hash_eq(&from, &vote.voter) {
            return None;
        }
        if !self.has_locally_known_vote_subject(&vote, target_view) {
            return None;
        }
        if vote.validate_context(self.context).is_err() {
            return None;
        }
        let committee = match self.config.committee() {
            Ok(c) => c,
            Err(_) => {
                return None;
            },
        };
        if verify_vote(
            &committee,
            &vote,
            self.context,
            vote.view,
            &vote.block_hash,
            &vote.app_hash,
            self.config.bls_configured(),
        ).is_err() {
            return None;
        }
        if self.vote_limiter.check_and_record_at(&vote.voter, now).is_err() {
            return None;
        }
        store_vote_with_context(
            &mut self.votes,
            vote,
            self.context,
            &mut self.equivocation_detector,
        )
    }

    /// Takes a vote that comes while the leader of a view collects votes for
    /// its block. Returns evidence if the voter voted for two blocks.
    pub fn collect_vote(
        &mut self,
        from: NodeId,
        vote: Vote,
        view: u64,
        block_hash: Hash32,
        app_hash: Hash32,
        now: u64,
    ) -> (r: Option<EquivocationProof>)
        requires
            old(self).wf(),
        ensures
            final(self).wf(),
            final(self).rest() == old(self).rest(),
            final(self).state() == old(self).state().after_collected(
                from,
                vote@,
                view,
                block_hash,
                app_hash,
                now,
            ),
            option_proof(r) == (if old(self).state().gathers_vote(
                from,
                vote@,
                view,
                block_hash,
                app_hash,
                now,
            ) {
                old(self).state().evidence_of(vote@)
            } else {
                None
            }),
    {
        if !hash_eq(&from, &vote.voter) {
            return None;
        }
        if vote.validate_context(self.context).is_err() {
            return None;
        }
        if self.vote_limiter.check_and_record_at(&vote.voter, now).is_err() {
            return None;
        }
        let committee = match self.config.committee() {
            Ok(c) => c,
            Err(_) => {
                return None;
            },
        };
        let valid = if hash_eq(&vote.block_hash, &block_hash) {
            verify_vote(
                &committee,
                &vote,
                self.context,
                view,
                &block_hash,
                &app_hash,
                self.config.bls_configured(),
            ).is_ok()
        } else if vote.view == view {
            verify_vote(
                &committee,
                &vote,
                self.context,
                view,
                &vote.block_hash,
                &vote.app_hash,
                self.config.bls_configured(),
            ).is_ok()
        } else {
            false
        };
        if !valid {
            return None;
        }
        let repeated = match self.votes.get(&vote.block_hash) {
            Some(list) => crate::consensus::aggregator::find_voter(list, &vote.voter),
            None => false,
        };
        if repeated {
            return None;
        }
        store_vote_with_context(
            &mut self.votes,
            vote,
            self.context,
            &mut self.equivocation_detector,
        )
    }
}

/// A configuration can run a networked node exactly if it describes a committee in
/// which every member has a usable key, and the node is a member whose key belongs
/// to the node's secret key.
pub proof fn lemma_network_configuration(c: ConfigView)
    ensures
        network_fault(c) is None <==> {
            &&& c.fault() is None
            &&& all_keyed(c.members())
            &&& c.bls_secret_key matches Some(seed) && (member_of(c.members(), c.node_id) matches Some(
                m,
            ) && m.bls_pubkey == Some(bls_public_key(seed@)))
        },
{
}

/// A timeout is heard exactly if it is of the context and of the current view or one
/// of the hundred views after it; it then counts as the collector says.
pub proof fn lemma_timeout_heard(s: RunnerView, t: TimeoutView)
    ensures
        in_window(s.pacemaker.current_view, t.view) <==> 0 <= t.view - s.pacemaker.current_view
            <= 100,
        s.hears_timeout(t) <==> t.context == s.context && 0 <= t.view - s.pacemaker.current_view <= 100
            && s.timeouts is Some,
        s.hears_timeout(t) ==> s.after_timeout(t).timeouts == Some(s.timeouts->Some_0.after(t)),
        !s.hears_timeout(t) ==> s.after_timeout(t) == s && s.timeout_result(t) is None,
        s.after_timeout(t) == (RunnerView { timeouts: s.after_timeout(t).timeouts, ..s }),
        s.timeout_result(t) matches Some(tc) ==> s.timeouts->Some_0.collects(t) && s.after_timeout(
            t,
        ).timeouts->Some_0.certificate(t.view) == Some(tc),
        s.hears_timeout(t) && s.timeouts->Some_0.collects(t) ==> s.timeout_result(t)
            == s.after_timeout(t).timeouts->Some_0.certificate(t.view),
{
}

/// A timeout certificate moves the node to the view after its own, if that is ahead,
/// and forgets the timeouts of earlier views.
pub proof fn lemma_timeout_certificate_moves_on(s: RunnerView, tc: TimeoutCertificateView, view: u64)
    requires
        tc.view < u64::MAX,
    ensures
        ({
            let after = s.after_timeout_certificate(tc);
            &&& tc.view >= s.pacemaker.current_view ==> after.pacemaker.current_view == tc.view + 1
            &&& tc.view < s.pacemaker.current_view ==> after.pacemaker == s.pacemaker
            &&& after.pacemaker == (PacemakerView {
                current_view: after.pacemaker.current_view,
                ..s.pacemaker
            })
            &&& s.timeouts matches Some(c) ==> after.timeouts matches Some(d) && (view < tc.view
                ==> d.of_view(view).len() == 0) && (view >= tc.view ==> d.of_view(view) == c.of_view(
                view,
            ))
            &&& after == (RunnerView { pacemaker: after.pacemaker, timeouts: after.timeouts, ..s })
        }),
{
}

/// A certificate that a peer reports is believed exactly if the node knows its block
/// under that hash, in that view and context, connected to the committed head, and
/// the certificate verifies for the block.
pub proof fn lemma_reported_certificate(s: RunnerView, qc: CertificateView)
    ensures
        s.local_qc_fault(qc) is None <==> {
            &&& s.connected(qc.block_hash)
            &&& qc.context == s.context
            &&& s.known_at(qc.block_hash) matches Some(b) && b.context == s.context && block_hash(b)
                == qc.block_hash && b.view == qc.view && certificate_check(
                s.config.members(),
                qc,
                s.context,
                b.view,
                qc.block_hash,
                Some(b.app_hash),
                s.config.keyed(),
            ) is Ok
        },
{
}

/// A view change is taken exactly if it comes from its sender, leads to the view
/// after the current one, is in order, and reports no certificate or one that is
/// believed.
pub proof fn lemma_view_change_accepted(s: RunnerView, from: NodeId, vc: ViewChangeView)
    requires
        s.pacemaker.current_view < u64::MAX,
    ensures
        s.view_change_refusal(from, vc) is None <==> {
            &&& from == vc.sender
            &&& vc.context == s.context
            &&& network_fault(s.config) is None
            &&& vc.to_view == s.pacemaker.current_view + 1
            &&& view_change_fault(vc, s.config.members(), s.context, s.pacemaker.current_view) is None
            &&& vc.high_qc matches Some(qc) ==> s.local_qc_fault(qc) is None
        },
{
}

/// A certificate of view changes is taken exactly if it is in order, and all
/// certificates that its view changes report are believed.
pub proof fn lemma_view_change_certificate_accepted(s: RunnerView, vcc: ViewChangeCertificateView)
    ensures
        s.certificate_refusal(vcc) is None <==> {
            &&& vcc.context == s.context
            &&& network_fault(s.config) is None
            &&& certificate_fault(vcc, s.config.members(), s.context, s.pacemaker.current_view) is None
            &&& forall|i: int|
                0 <= i < vcc.view_changes.len() ==> (#[trigger] vcc.view_changes[i]).context
                    == s.context && (vcc.view_changes[i].high_qc matches Some(qc)
                    ==> s.local_qc_fault(qc) is None)
        },
{
    lemma_changes_believed(s, vcc.view_changes, 0);
}

/// The reports of view changes from a position on are believed exactly if each is.
proof fn lemma_changes_believed(s: RunnerView, list: Seq<ViewChangeView>, from: int)
    requires
        0 <= from <= list.len(),
    ensures
        s.changes_qc_fault(list, from) is None <==> (forall|i: int|
            from <= i < list.len() ==> (#[trigger] list[i]).context == s.context && (
            list[i].high_qc matches Some(qc) ==> s.local_qc_fault(qc) is None)),
    decreases list.len() - from,
{
    if from < list.len() {
        lemma_changes_believed(s, list, from + 1);
    }
}

/// An announcement of a view is taken exactly if it comes from the leader of the
/// view after the current one, with a certificate for that view that is taken and
/// with the highest certificate among its view changes: none of them carries a
/// higher one.
pub proof fn lemma_new_view_accepted(s: RunnerView, from: NodeId, nv: NewViewView)
    requires
        s.pacemaker.current_view < u64::MAX,
    ensures
        s.new_view_refusal(from, nv) is None <==> {
            &&& nv.context == s.context
            &&& from == s.config.leader(nv.view)
            &&& nv.view == s.pacemaker.current_view + 1
            &&& nv.view_change_cert.view == nv.view
            &&& s.certificate_refusal(nv.view_change_cert) is None
            &&& nv.high_qc == highest_qc_of(nv.view_change_cert.view_changes)
        },
        s.new_view_refusal(from, nv) is None ==> forall|i: int|
            0 <= i < nv.view_change_cert.view_changes.len() ==> ((
            #[trigger] nv.view_change_cert.view_changes[i]).high_qc matches Some(qc)
                ==> nv.high_qc matches Some(best) && qc.view <= best.view),
{
    crate::types::messages::lemma_highest_qc_is_maximal(nv.view_change_cert.view_changes);
    lemma_view_change_certificate_accepted(s, nv.view_change_cert);
}

/// A node that enters an announced view takes its highest certificate into account,
/// and changes nothing but its view and that certificate.
pub proof fn lemma_entered(s: RunnerView, nv: NewViewView)
    ensures
        s.entered(nv) == (RunnerView {
            pacemaker: s.pacemaker.after_new_view(nv),
            safety: s.entered(nv).safety,
            ..s
        }),
        nv.high_qc matches Some(qc) ==> s.entered(nv).safety == s.safety.after_high_qc(qc),
        nv.high_qc is None ==> s.entered(nv).safety == s.safety,
{
}

/// A vote that arrives is stored exactly if it comes from its voter, is of the view
/// asked for, for a known block with that application state, verifies against the
/// committee, and is within the rate. Only a vote that passes all but the last
/// counts towards the rate.
pub proof fn lemma_vote_stored(s: RunnerView, from: NodeId, vote: VoteView, view: u64, now: u64)
    ensures
        ({
            let after = s.after_vote_message(from, vote, view, now);
            let genuine = {
                &&& from == vote.voter
                &&& vote.context == s.context
                &&& vote.view == view
                &&& s.known_at(vote.block_hash) matches Some(b) && b.context == s.context && b.view
                    == view && b.app_hash == vote.app_hash
                &&& s.config.fault() is None
                &&& vote_check(
                    s.config.members(),
                    vote,
                    s.context,
                    view,
                    vote.block_hash,
                    vote.app_hash,
                    s.config.keyed(),
                ) is Ok
            };
            &&& s.stores_vote(from, vote, view, now) <==> genuine && s.limiter.allows(vote.voter, now)
            &&& !genuine ==> after == s
            &&& genuine ==> after.limiter == s.limiter.after(vote.voter, now)
            &&& genuine && s.limiter.allows(vote.voter, now) ==> after.votes == with_vote(s.votes, vote)
                && after.detector == s.detector.after(vote)
            &&& !s.limiter.allows(vote.voter, now) ==> after.votes == s.votes && after.detector
                == s.detector
        }),
{
}

/// A vote that a leader collects is stored exactly if it comes from its voter, is
/// within the rate, is the voter's first for its block, and verifies in the leader's
/// view: for the leader's block with the leader's application state, for another
/// block with the one that it names.
pub proof fn lemma_vote_gathered(
    s: RunnerView,
    from: NodeId,
    vote: VoteView,
    view: u64,
    h: Hash32,
    app_hash: Hash32,
    now: u64,
)
    ensures
        ({
            let after = s.after_collected(from, vote, view, h, app_hash, now);
            let state = if vote.block_hash == h {
                app_hash
            } else {
                vote.app_hash
            };
            let stored = {
                &&& from == vote.voter
                &&& vote.context == s.context
                &&& s.limiter.allows(vote.voter, now)
                &&& s.config.fault() is None
                &&& vote_check(
                    s.config.members(),
                    vote,
                    s.context,
                    view,
                    vote.block_hash,
                    state,
                    s.config.keyed(),
                ) is Ok
                &&& forall|i: int|
                    0 <= i < votes_for(s.votes, vote.block_hash).len() ==> (#[trigger] votes_for(
                        s.votes,
                        vote.block_hash,
                    )[i]).voter != vote.voter
            };
            &&& s.gathers_vote(from, vote, view, h, app_hash, now) <==> stored
            &&& stored ==> after.votes == with_vote(s.votes, vote) && after.detector
                == s.detector.after(vote)
            &&& !stored ==> after.votes == s.votes && after.detector == s.detector
            &&& from == vote.voter && vote.context == s.context ==> after.limiter == s.limiter.after(
                vote.voter,
                now,
            )
            &&& !(from == vote.voter && vote.context == s.context) ==> after == s
        }),
{
}

/// A stored vote is evidence exactly if a vote of its voter in that view for another
/// block is remembered; the evidence holds both.
pub proof fn lemma_evidence_found(s: RunnerView, vote: VoteView)
    ensures
        ({
            let own = crate::consensus::equivocation::VoterKey {
                context: vote.context,
                view: vote.view,
                voter: vote.voter,
            };
            let kept = s.detector.votes[own];
            &&& s.evidence_of(vote) is Some <==> (s.detector.context matches Some(c) ==> c
                == vote.context) && s.detector.votes.contains_key(own) && kept.block_hash
                != vote.block_hash
            &&& s.evidence_of(vote) matches Some(p) ==> {
                &&& p.offender == vote.voter
                &&& p.view == vote.view
                &&& p.context == vote.context
                &&& p.hash_a == kept.block_hash
                &&& p.app_hash_a == kept.app_hash
                &&& p.signature_a == kept.signature
                &&& p.hash_b == vote.block_hash
                &&& p.app_hash_b == vote.app_hash
                &&& p.signature_b == vote.signature
            }
        }),
{
}

/// What the refusal of a configuration, a reported certificate, a view change or an
/// announcement says is so.
pub proof fn lemma_view_refusals(
    s: RunnerView,
    from: NodeId,
    qc: CertificateView,
    vc: ViewChangeView,
    nv: NewViewView,
)
    ensures
        match network_fault(s.config) {
            None => true,
            Some(NetworkConfigError::Committee(e)) => s.config.fault() == Some(e),
            Some(NetworkConfigError::MemberKey) => !all_keyed(s.config.members()),
            Some(NetworkConfigError::NoSecretKey) => s.config.bls_secret_key is None,
            Some(NetworkConfigError::NotMember) => !(member_of(
                s.config.members(),
                s.config.node_id,
            ) matches Some(m) && m.bls_pubkey is Some),
            Some(NetworkConfigError::KeyMismatch) => member_of(
                s.config.members(),
                s.config.node_id,
            ) matches Some(m) && m.bls_pubkey != Some(
                bls_public_key(s.config.bls_secret_key->Some_0@),
            ),
        },
        match s.local_qc_fault(qc) {
            None => true,
            Some(HighQcError::NotConnected) => !s.connected(qc.block_hash),
            Some(HighQcError::Unavailable) => s.known_at(qc.block_hash) is None,
            Some(HighQcError::BlockContext) => s.known_at(qc.block_hash) matches Some(b) && b.context
                != s.context,
            Some(HighQcError::QcContext) => qc.context != s.context,
            Some(HighQcError::HashMismatch) => s.known_at(qc.block_hash) matches Some(b)
                && block_hash(b) != qc.block_hash,
            Some(HighQcError::ViewMismatch { qc: v, block }) => v == qc.view && v != block && (
            s.known_at(qc.block_hash) matches Some(b) && b.view == block),
            Some(HighQcError::Invalid(e)) => s.known_at(qc.block_hash) matches Some(b)
                && certificate_check(
                s.config.members(),
                qc,
                s.context,
                b.view,
                block_hash(b),
                Some(b.app_hash),
                s.config.keyed(),
            ) == Err::<(), VerifyError>(e),
        },
        match s.view_change_refusal(from, vc) {
            None => true,
            Some(ViewError::Sender) => from != vc.sender,
            Some(ViewError::Context) => vc.context != s.context,
            Some(ViewError::Config(e)) => network_fault(s.config) == Some(e),
            Some(ViewError::NotNext) => vc.to_view != next_or_max(s.pacemaker.current_view),
            Some(ViewError::ViewChange(e)) => view_change_fault(
                vc,
                s.config.members(),
                s.context,
                s.pacemaker.current_view,
            ) == Some(e),
            Some(ViewError::HighQc(e)) => vc.high_qc matches Some(c) && s.local_qc_fault(c) == Some(e),
            Some(_) => false,
        },
        match s.new_view_refusal(from, nv) {
            Some(ViewError::NotLeader) => from != s.config.leader(nv.view),
            Some(ViewError::NotNext) => nv.view != next_or_max(s.pacemaker.current_view),
            Some(ViewError::CertificateView) => nv.view_change_cert.view != nv.view,
            Some(ViewError::NotHighest) => nv.high_qc != highest_qc_of(
                nv.view_change_cert.view_changes,
            ),
            Some(ViewError::Sender) => false,
            _ => true,
        },
        from != vc.sender ==> s.view_change_refusal(from, vc) == Some(ViewError::Sender),
{
    lemma_changes_refusal(s, nv.view_change_cert.view_changes, 0);
}

proof fn lemma_changes_refusal(s: RunnerView, list: Seq<ViewChangeView>, i: int)
    requires
        0 <= i,
    ensures
        s.changes_qc_fault(list, i) matches Some(e) ==> e is Context || e is HighQc,
    decreases list.len() - i,
{
    if i < list.len() {
        lemma_changes_refusal(s, list, i + 1);
    }
}

} // verus!
