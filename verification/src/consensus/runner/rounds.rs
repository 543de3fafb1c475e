//! Messages of a round, and what a node does when a round times out.

use vstd::prelude::*;

use crate::bytes::{hash_eq, Hash32, NodeId};
use crate::consensus::equivocation::{EquivocationProof, ProofView};
use crate::consensus::hooks::AppHook;
use crate::consensus::pacemaker::{bound_context, PacemakerView};
use crate::consensus::persistence::{Halt, PersistentStore};
use crate::consensus::runner::commit::{ends_round, verdict, CommitCalls};
use crate::consensus::runner::proposal::{signature_ok, verify_proposer_signature};
use crate::consensus::runner::views::{
    network_fault, should_emit_view_change_after_timeout_certificate, validate_network_config,
    ViewError,
};
use crate::consensus::runner::{ConsensusRunner, RunnerView};
use crate::consensus::timeout::create_signed_timeout_with_context;
use crate::consensus::view_change::{
    validate_view_change_with_committee_and_context, view_change_fault,
};
use crate::crypto::bls_signature;
use crate::types::messages::{
    highest_qc_of, timeout_message, view_change_message, NewView, NewViewView, Prepare, PrepareView,
    Propose, ProposeView, Timeout, TimeoutView, ViewChange, ViewChangeCertificateView,
    ViewChangeView,
};
use crate::types::vote::{Vote, VoteView};

verus! {

/// A message from a peer.
pub enum Message {
    Propose(Propose),
    Vote(Vote),
    Prepare(Prepare),
    Timeout(Timeout),
    ViewChange(ViewChange),
    NewView(NewView),
    EquivocationEvidence(EquivocationProof),
    UserTransaction(Vec<u8>),
    SyncRequest,
    SyncResponse,
}

/// What a node waits for.
#[derive(Clone, Copy)]
pub enum Phase {
    /// The proposal of a view.
    Proposal { view: u64 },
    /// The announcement that the block of a view was certified.
    Prepare { view: u64 },
    /// The votes for the node's own block.
    Votes { view: u64, block_hash: Hash32, app_hash: Hash32 },
}

/// What is to be done about a message.
pub enum Action {
    /// Nothing more.
    Nothing,
    /// The awaited proposal came.
    Vote(Propose),
    /// The awaited announcement came.
    Follow(Prepare),
    /// A double vote was detected.
    Accuse(EquivocationProof),
    /// A peer reports a double vote.
    Examine(EquivocationProof),
    /// The node leads a new view and announces it.
    Announce(NewView),
    /// A signed transaction is to be offered to the application.
    Submit(Vec<u8>),
    /// A peer asks for blocks.
    AnswerSync,
    /// A peer sent blocks.
    EndSync,
}

impl Phase {
    /// The view of the phase.
    pub open spec fn at(self) -> u64 {
        match self {
            Phase::Proposal { view } => view,
            Phase::Prepare { view } => view,
            Phase::Votes { view, .. } => view,
        }
    }
}

impl RunnerView {
    /// A proposal is the awaited one: from the leader of the view, signed by
    /// it, and of that view.
    pub open spec fn awaited_proposal(self, from: NodeId, p: ProposeView, view: u64) -> bool {
        &&& p.context == self.context
        &&& p.block.context == self.context
        &&& from == self.config.leader(view)
        &&& p.block.proposer == self.config.leader(view)
        &&& self.config.keyed() ==> self.config.fault() is None && signature_ok(
            p,
            self.config.members(),
        )
        &&& p.block.view == view
    }

    /// An announcement is the awaited one: from the leader of the view, for
    /// that view.
    pub open spec fn awaited_prepare(self, from: NodeId, p: PrepareView, view: u64) -> bool {
        &&& p.view == view
        &&& p.context == self.context
        &&& p.qc.context == self.context
        &&& from == self.config.leader(view)
    }

    /// The evidence that a vote completes in a phase.
    pub open spec fn vote_evidence(self, phase: Phase, from: NodeId, v: VoteView, now: u64) -> Option<
        ProofView,
    > {
        let stored = match phase {
            Phase::Votes { view, block_hash, app_hash } => self.gathers_vote(
                from,
                v,
                view,
                block_hash,
                app_hash,
                now,
            ),
            _ => self.stores_vote(from, v, phase.at(), now),
        };
        if stored {
            self.evidence_of(v)
        } else {
            None
        }
    }

    /// The runner after a timeout came in the middle of a round, but for the
    /// start of the view.
    pub open spec fn after_timeout_message(self, t: TimeoutView) -> RunnerView {
        let heard = self.after_timeout(t);
        match self.timeout_result(t) {
            Some(tc) => if tc.view < u64::MAX && tc.view + 1 > self.pacemaker.current_view {
                RunnerView {
                    pacemaker: PacemakerView {
                        current_view: (tc.view + 1) as u64,
                        ..heard.pacemaker
                    },
                    ..heard
                }
            } else {
                heard
            },
            None => heard,
        }
    }

    /// The runner after a view change that was not refused was collected.
    pub open spec fn with_view_change(self, vc: ViewChangeView) -> RunnerView {
        match self.pacemaker.collector {
            Some(c) => RunnerView {
                pacemaker: PacemakerView { collector: Some(c.after(vc)), ..self.pacemaker },
                ..self
            },
            None => self,
        }
    }

    /// What a view change in the middle of a round does: the leader of a view
    /// that enough validators ask for announces it and enters it.
    pub open spec fn answers_view_change(
        self,
        from: NodeId,
        vc: ViewChangeView,
        after: RunnerView,
        announced: Option<NewViewView>,
    ) -> bool {
        if self.view_change_refusal(from, vc) is Some {
            after == self && announced is None
        } else {
            let collected = self.with_view_change(vc);
            let certificate = match self.pacemaker.collector {
                Some(c) => c.result(vc),
                None => None,
            };
            match certificate {
                None => announced is None && after == collected,
                Some(vcc) => if collected.certificate_refusal(vcc) is Some || self.config.leader(
                    vcc.view,
                ) != self.config.node_id {
                    announced is None && after == collected
                } else {
                    let nv = collected.announcement(vcc);
                    &&& announced == Some(nv)
                    &&& after == collected.entered(nv).view_started(after.pacemaker.view_start)
                },
            }
        }
    }

    /// The timeout that the node signs for its view.
    pub open spec fn own_timeout(self) -> Option<TimeoutView> {
        match self.config.bls_secret_key {
            Some(seed) => Some(
                TimeoutView {
                    context: self.context,
                    view: self.pacemaker.current_view,
                    high_qc_view: self.safety.high_qc_view(),
                    sender: self.config.node_id,
                    signature: bls_signature(
                        seed@,
                        timeout_message(self.context, self.pacemaker.current_view),
                    ),
                },
            ),
            None => None,
        }
    }

    /// The node can ask for a view change: it signs them, or collects them.
    pub open spec fn can_ask(self) -> bool {
        self.config.bls_secret_key is Some || self.pacemaker.collector is Some
    }

    /// The view change that the node asks for: at most one for a view.
    pub open spec fn own_view_change(self) -> Option<ViewChangeView> {
        let view = self.pacemaker.current_view;
        let context = bound_context(self.pacemaker);
        if !self.can_ask() || self.pacemaker.vc_sent_for_view == Some(view) {
            None
        } else {
            Some(
                ViewChangeView {
                    context,
                    from_view: view,
                    to_view: (view + 1) as u64,
                    high_qc: self.safety.high_qc,
                    sender: self.config.node_id,
                    signature: match self.config.bls_secret_key {
                        Some(seed) => bls_signature(
                            seed@,
                            view_change_message(
                                context,
                                view,
                                (view + 1) as u64,
                                self.safety.high_qc,
                                self.config.node_id,
                            ),
                        ),
                        None => Seq::new(64, |i: int| 0u8),
                    },
                },
            )
        }
    }

    /// Why the node does not send its own view change.
    pub open spec fn own_view_change_fault(self, vc: ViewChangeView) -> Option<ViewError> {
        let fault = view_change_fault(
            vc,
            self.config.members(),
            self.context,
            self.pacemaker.current_view,
        );
        if network_fault(self.config) is Some {
            Some(ViewError::Config(network_fault(self.config)->Some_0))
        } else if fault is Some {
            Some(ViewError::ViewChange(fault->Some_0))
        } else {
            match vc.high_qc {
                Some(qc) => match self.local_qc_fault(qc) {
                    Some(e) => Some(ViewError::HighQc(e)),
                    None => None,
                },
                None => None,
            }
        }
    }

    /// The node gave up its view.
    pub open spec fn timed_out(self) -> RunnerView {
        RunnerView {
            pacemaker: PacemakerView {
                current_view: (self.pacemaker.current_view + 1) as u64,
                consecutive_timeouts: if self.pacemaker.consecutive_timeouts < u32::MAX {
                    (self.pacemaker.consecutive_timeouts + 1) as u32
                } else {
                    u32::MAX
                },
                ..self.pacemaker
            },
            ..self
        }
    }

    /// The node asked for a view change, if it can.
    pub open spec fn asked_view_change(self) -> RunnerView {
        if self.can_ask() {
            RunnerView {
                pacemaker: PacemakerView {
                    vc_sent_for_view: Some(self.pacemaker.current_view),
                    ..self.pacemaker
                },
                ..self
            }
        } else {
            self
        }
    }

    /// The announcement of the view that a certificate is for.
    pub open spec fn announcement(self, vcc: ViewChangeCertificateView) -> NewViewView {
        NewViewView {
            context: self.context,
            view: vcc.view,
            high_qc: highest_qc_of(vcc.view_changes),
            view_change_cert: vcc,
        }
    }

    /// What a node does that has heard its own timeout, and no certificate
    /// came of it: the plan and the state after it.
    pub open spec fn change_plan(self) -> (PlanView, RunnerView) {
        let none = PlanView { timeout: None, view_change: None, new_view: None, fault: None };
        let asked = self.asked_view_change();
        match self.own_view_change() {
            None => (none, asked.timed_out()),
            Some(vc) => if asked.own_view_change_fault(vc) is Some {
                (PlanView { fault: asked.own_view_change_fault(vc), ..none }, asked)
            } else {
                let sent = PlanView { view_change: Some(vc), ..none };
                let collected = asked.with_view_change(vc);
                let certificate = match asked.pacemaker.collector {
                    Some(c) => c.result(vc),
                    None => None,
                };
                match certificate {
                    None => (sent, collected.timed_out()),
                    Some(vcc) => if collected.certificate_refusal(vcc) is Some {
                        (
                            PlanView { fault: collected.certificate_refusal(vcc), ..sent },
                            collected,
                        )
                    } else if self.config.leader(vcc.view) != self.config.node_id {
                        (sent, collected.timed_out())
                    } else {
                        let nv = collected.announcement(vcc);
                        let entered = collected.entered(nv);
                        (
                            PlanView { new_view: Some(nv), ..sent },
                            if entered.pacemaker.current_view > self.pacemaker.current_view {
                                entered
                            } else {
                                entered.timed_out()
                            },
                        )
                    },
                }
            },
        }
    }

    /// What a node does when no proposal came in time: the plan and the state
    /// after it, but for the start of the view.
    pub open spec fn timeout_plan(self) -> (PlanView, RunnerView) {
        match self.own_timeout() {
            None => self.change_plan(),
            Some(t) => {
                let heard = self.after_timeout(t);
                match self.timeout_result(t) {
                    Some(tc) => if tc.context == self.context {
                        (
                            PlanView {
                                timeout: Some(t),
                                view_change: None,
                                new_view: None,
                                fault: None,
                            },
                            heard.after_timeout_certificate(tc),
                        )
                    } else {
                        (
                            PlanView {
                                timeout: Some(t),
                                view_change: None,
                                new_view: None,
                                fault: Some(ViewError::Context),
                            },
                            heard,
                        )
                    },
                    None => (
                        PlanView { timeout: Some(t), ..heard.change_plan().0 },
                        heard.change_plan().1,
                    ),
                }
            },
        }
    }
}

/// What a node sends when a round timed out, and the fault that stops it, if
/// there is one.
pub struct TimeoutPlan {
    pub timeout: Option<Timeout>,
    pub view_change: Option<ViewChange>,
    pub new_view: Option<NewView>,
    pub fault: Option<ViewError>,
}

/// The contents of a plan.
pub ghost struct PlanView {
    pub timeout: Option<TimeoutView>,
    pub view_change: Option<ViewChangeView>,
    pub new_view: Option<NewViewView>,
    pub fault: Option<ViewError>,
}

impl vstd::view::View for TimeoutPlan {
    type V = PlanView;

    open spec fn view(&self) -> PlanView {
        PlanView {
            timeout: match self.timeout {
                Some(t) => Some(t@),
                None => None,
            },
            view_change: match self.view_change {
                Some(vc) => Some(vc@),
                None => None,
            },
            new_view: match self.new_view {
                Some(nv) => Some(nv@),
                None => None,
            },
            fault: self.fault,
        }
    }
}

impl<A: AppHook, P: PersistentStore> ConsensusRunner<A, P> {
    /// Whether a proposal is the awaited one.
    fn is_awaited_proposal(&self, from: &NodeId, propose: &Propose, view: u64) -> (r: bool)
        requires
            self.wf(),
        ensures
            r == self.state().awaited_proposal(*from, propose@, view),
    {
        if propose.validate_context(self.context).is_err() {
            return false;
        }
        let leader = self.config.leader_of_active(view);
        if !hash_eq(from, &leader) || !hash_eq(&propose.block.proposer, &leader) {
            return false;
        }
        if self.config.bls_configured() {
            let committee = match self.config.committee() {
                Ok(c) => c,
                Err(_) => {
                    return false;
                },
            };
            if !verify_proposer_signature(propose, &committee) {
                return false;
            }
        }
        propose.block.view == view
    }

    /// Whether an announcement is the awaited one.
    fn is_awaited_prepare(&self, from: &NodeId, prepare: &Prepare, view: u64) -> (r: bool)
        requires
            self.wf(),
        ensures
            r == self.state().awaited_prepare(*from, prepare@, view),
    {
        prepare.view == view && prepare.context().same_as(&self.context)
            && prepare.qc.validate_context(self.context).is_ok() && hash_eq(
            from,
            &self.config.leader_of_active(view),
        )
    }

    /// Takes a message of a round, in the phase that the node is in.
    pub fn receive(&mut self, phase: Phase, from: NodeId, message: Message, now: u64) -> (r: Result<
        Action,
        Halt,
    >)
        requires
            old(self).wf(),
        ensures
            final(self).wf(),
            final(self).flags() == old(self).flags(),
            !(phase is Proposal && message is Prepare) ==> final(self).application() == old(
                self,
            ).application(),
            ({
                let s = old(self).state();
                let after = final(self).state();
                match message {
                    Message::Propose(p) => {
                        &&& after == s
                        &&& match r {
                            Ok(Action::Vote(q)) => q == p && phase is Proposal && s.awaited_proposal(
                                from,
                                p@,
                                phase.at(),
                            ),
                            Ok(Action::Nothing) => !(phase is Proposal && s.awaited_proposal(
                                from,
                                p@,
                                phase.at(),
                            )),
                            _ => false,
                        }
                    },
                    Message::Prepare(p) => {
                        let awaited = s.awaited_prepare(from, p@, phase.at());
                        match phase {
                            Phase::Prepare { .. } => {
                                &&& after == s
                                &&& match r {
                                    Ok(Action::Follow(q)) => q == p && awaited,
                                    Ok(Action::Nothing) => !awaited,
                                    _ => false,
                                }
                            },
                            Phase::Proposal { .. } => {
                                &&& r is Ok ==> r->Ok_0 is Nothing
                                &&& !awaited || s.prepare_fault(p@) is Some ==> r is Ok && after == s
                                    && final(self).application() == old(self).application()
                                &&& awaited && s.prepare_fault(p@) is None ==> exists|
                                    log: Seq<CommitCalls<A>>,
                                |
                                    {
                                        &&& #[trigger] ends_round::<A, P>(
                                            old(self).application(),
                                            s,
                                            p@.qc,
                                            verdict(r),
                                            log,
                                            final(self).application(),
                                            after,
                                        )
                                        &&& forall|i: int|
                                            0 <= i < log.len() ==> {
                                                let c = #[trigger] log[i];
                                                &&& c.answers.applies(c.block@) ==> exists|m: &mut A| #[trigger]
                                                    call_ensures(A::commit, (m, &c.block), c.commit) && *m == c.before
                                                        && *final(m) == c.applied
                                                &&& c.answers.publishes(c.block@) ==> exists|m: &mut A| #[trigger]
                                                    call_ensures(
                                                        A::on_durable_commit,
                                                        (m, &c.block, &c.commitment),
                                                        c.notice,
                                                    ) && *m == c.applied && *final(m) == c.published
                                                &&& c.answers.updates(c.block@) ==> exists|m: &mut A| #[trigger]
                                                    call_ensures(A::take_validator_update, (m,), c.update) && *m
                                                        == c.published && *final(m) == c.after
                                            }
                                    }
                            },
                            Phase::Votes { .. } => after == s && r is Ok && r->Ok_0 is Nothing,
                        }
                    },
                    Message::Vote(v) => {
                        &&& after == (match phase {
                            Phase::Votes { view, block_hash, app_hash } => s.after_collected(
                                from,
                                v@,
                                view,
                                block_hash,
                                app_hash,
                                now,
                            ),
                            _ => s.after_vote_message(from, v@, phase.at(), now),
                        })
                        &&& match s.vote_evidence(phase, from, v@, now) {
                            Some(e) => r matches Ok(Action::Accuse(p)) && p@ == e,
                            None => r == Ok::<Action, Halt>(Action::Nothing),
                        }
                    },
                    Message::Timeout(t) => {
                        &&& after == s.after_timeout_message(t@).view_started(
                            after.pacemaker.view_start,
                        )
                        &&& r is Ok
                        &&& r->Ok_0 is Nothing
                    },
                    Message::ViewChange(vc) => match r {
                        Ok(Action::Announce(nv)) => s.answers_view_change(
                            from,
                            vc@,
                            after,
                            Some(nv@),
                        ),
                        Ok(Action::Nothing) => s.answers_view_change(from, vc@, after, None),
                        _ => false,
                    },
                    Message::NewView(nv) => {
                        &&& r is Ok
                        &&& r->Ok_0 is Nothing
                        &&& after == (if s.new_view_refusal(from, nv@) is None {
                            s.entered(nv@).view_started(after.pacemaker.view_start)
                        } else {
                            s
                        })
                    },
                    Message::EquivocationEvidence(p) => r == Ok::<Action, Halt>(Action::Examine(p))
                        && after == s,
                    Message::UserTransaction(t) => r == Ok::<Action, Halt>(Action::Submit(t)) && after
                        == s,
                    Message::SyncRequest => r == Ok::<Action, Halt>(Action::AnswerSync) && after == s,
                    Message::SyncResponse => r == Ok::<Action, Halt>(Action::EndSync) && after == s,
                }
            }),
    {
        let view: u64 = match phase {
            Phase::Proposal { view } => view,
            Phase::Prepare { view } => view,
            Phase::Votes { view, .. } => view,
        };
        match message {
            Message::Propose(propose) => {
                let awaits = matches!(phase, Phase::Proposal { .. });
                if awaits && self.is_awaited_proposal(&from, &propose, view) {
                    Ok(Action::Vote(propose))
                } else {
                    Ok(Action::Nothing)
                }
            },
            Message::Prepare(prepare) => {
                if matches!(phase, Phase::Votes { .. }) || !self.is_awaited_prepare(
                    &from,
                    &prepare,
                    view,
                ) {
                    return Ok(Action::Nothing);
                }
                if matches!(phase, Phase::Prepare { .. }) {
                    return Ok(Action::Follow(prepare));
                }
                match self.process_prepare(prepare) {
                    Ok(_) => Ok(Action::Nothing),
                    Err(h) => Err(h),
                }
            },
            Message::Vote(vote) => {
                let evidence = match phase {
                    Phase::Votes { view, block_hash, app_hash } => self.collect_vote(
                        from,
                        vote,
                        view,
                        block_hash,
                        app_hash,
                        now,
                    ),
                    _ => self.on_vote(from, vote, view, now),
                };
                match evidence {
                    Some(p) => Ok(Action::Accuse(p)),
                    None => Ok(Action::Nothing),
                }
            },
            Message::Timeout(timeout) => {
                if let Some(tc) = self.process_timeout(timeout) {
                    if tc.view < u64::MAX {
                        self.pacemaker.advance_to(tc.view + 1);
                    }
                }
                Ok(Action::Nothing)
            },
            Message::ViewChange(vc) => {
                let certificate = match self.accept_view_change(from, vc) {
                    Ok(c) => c,
                    Err(_) => {
                        return Ok(Action::Nothing);
                    },
                };
                match certificate {
                    Some(vcc) => match self.handle_view_change_certificate(vcc) {
                        Ok(Some(nv)) => Ok(Action::Announce(nv)),
                        _ => Ok(Action::Nothing),
                    },
                    None => Ok(Action::Nothing),
                }
            },
            Message::NewView(nv) => {
                let _accepted = self.accept_new_view(from, nv);
                Ok(Action::Nothing)
            },
            Message::EquivocationEvidence(p) => Ok(Action::Examine(p)),
            Message::UserTransaction(t) => Ok(Action::Submit(t)),
            Message::SyncRequest => Ok(Action::AnswerSync),
            Message::SyncResponse => Ok(Action::EndSync),
        }
    }

    /// Asks for a view change and collects it.
    fn change_view(&mut self, plan: &mut TimeoutPlan)
        requires
            old(self).wf(),
            old(self).state().pacemaker.current_view < u64::MAX,
            old(plan).view_change is None,
            old(plan).new_view is None,
            old(plan).fault is None,
        ensures
            final(self).wf(),
            final(self).rest() == old(self).rest(),
            final(plan)@ == (PlanView {
                timeout: old(plan)@.timeout,
                ..old(self).state().change_plan().0
            }),
            final(self).state() == old(self).state().change_plan().1.view_started(
                final(self).state().pacemaker.view_start,
            ),
    {
        let ghost s = self.state();
        let view: u64 = self.pacemaker.current_view();
        let high_qc = match self.safety.high_qc() {
            Some(qc) => Some(qc.clone()),
            None => None,
        };
        let created = match self.config.bls_secret_key() {
            Some(secret) => self.pacemaker.create_signed_view_change(
                self.config.node_id,
                high_qc,
                &secret,
            ),
            None => self.pacemaker.create_view_change(self.config.node_id, high_qc),
        };
        let ghost asked = s.asked_view_change();
        assert(self.state() == asked);
        if let Some(vc) = created {
            assert(s.own_view_change() == Some(vc@));
            let committee = match validate_network_config(&self.config) {
                Ok(c) => c,
                Err(e) => {
                    plan.fault = Some(ViewError::Config(e));
                    return;
                },
            };
            if let Err(e) = validate_view_change_with_committee_and_context(
                &vc,
                &committee,
                self.context,
                view,
            ) {
                plan.fault = Some(ViewError::ViewChange(e));
                return;
            }
            if let Some(qc) = &vc.high_qc {
                if let Err(e) = self.verify_high_qc_locally(&committee, qc) {
                    plan.fault = Some(ViewError::HighQc(e));
                    return;
                }
            }
            plan.view_change = Some(vc.clone());
            let certificate = self.pacemaker.on_view_change(vc);
            assert(self.state() == asked.with_view_change(vc@));
            if let Some(vcc) = certificate {
                match self.handle_view_change_certificate(vcc) {
                    Ok(nv) => {
                        plan.new_view = nv;
                    },
                    Err(e) => {
                        plan.fault = Some(e);
                        return;
                    },
                }
            }
        }
        if self.pacemaker.current_view() <= view {
            self.pacemaker.record_timeout();
        }
    }

    /// What a node does when no proposal came in time: it signs a timeout; if
    /// that completes a certificate it moves on with it, and asks for no view
    /// change. Else it asks for a view change, and gives up the view unless
    /// that made it the leader of the next one.
    pub fn handle_timeout(&mut self) -> (r: TimeoutPlan)
        requires
            old(self).wf(),
            old(self).state().pacemaker.current_view < u64::MAX,
        ensures
            final(self).wf(),
            final(self).rest() == old(self).rest(),
            r@ == old(self).state().timeout_plan().0,
            final(self).state() == old(self).state().timeout_plan().1.view_started(
                final(self).state().pacemaker.view_start,
            ),
    {
        let ghost s = self.state();
        let view: u64 = self.pacemaker.current_view();
        let mut plan = TimeoutPlan { timeout: None, view_change: None, new_view: None, fault: None };
        let mut certified = false;
        if let Some(secret) = self.config.bls_secret_key() {
            let timeout = create_signed_timeout_with_context(
                self.context,
                view,
                self.safety.high_qc_view(),
                self.config.node_id,
                &secret,
            );
            assert(s.own_timeout() == Some(timeout@));
            plan.timeout = Some(timeout.clone());
            if let Some(tc) = self.process_timeout(timeout) {
                if !self.handle_timeout_certificate(&tc) {
                    plan.fault = Some(ViewError::Context);
                }
                certified = true;
            }
        }
        if !should_emit_view_change_after_timeout_certificate(certified) {
            return plan;
        }
        self.change_view(&mut plan);
        plan
    }

    /// What a node does that waited in vain: the time of the phase has
    /// elapsed, or else no more messages come. Without a proposal in time it
    /// asks for the next view; without an announcement in time, or without
    /// messages to wait for a proposal, it gives up the view.
    pub fn abandon(&mut self, phase: Phase, elapsed: bool) -> (r: Option<TimeoutPlan>)
        requires
            old(self).wf(),
            old(self).state().pacemaker.current_view < u64::MAX,
        ensures
            final(self).wf(),
            final(self).rest() == old(self).rest(),
            ({
                let s = old(self).state();
                let after = final(self).state();
                let start = after.pacemaker.view_start;
                match phase {
                    Phase::Proposal { .. } => if elapsed {
                        r matches Some(plan) && plan@ == s.timeout_plan().0 && after
                            == s.timeout_plan().1.view_started(start)
                    } else {
                        r is None && after == s.timed_out().view_started(start)
                    },
                    Phase::Prepare { .. } => {
                        &&& r is None
                        &&& after == (if elapsed {
                            s.timed_out().view_started(start)
                        } else {
                            s
                        })
                    },
                    Phase::Votes { .. } => r is None && after == s,
                }
            }),
    {
        match phase {
            Phase::Proposal { .. } => {
                if elapsed {
                    return Some(self.handle_timeout());
                }
                self.pacemaker.record_timeout();
                None
            },
            Phase::Prepare { .. } => {
                if elapsed {
                    self.pacemaker.record_timeout();
                }
                None
            },
            Phase::Votes { .. } => None,
        }
    }

    /// Milliseconds that a round may take.
    pub fn round_timeout_ms(&self) -> (r: u128)
        ensures
            r == self.state().pacemaker.timeout_ms(),
    {
        self.pacemaker.current_timeout()
    }
}

/// A node that gives up a round without a fault moves to a later view, casts
/// no vote and finalizes nothing.
pub proof fn lemma_timeout_moves_on(s: RunnerView)
    requires
        s.pacemaker.current_view < u64::MAX,
        s.timeout_plan().0.fault is None,
    ensures
        s.timeout_plan().1.pacemaker.current_view > s.pacemaker.current_view,
        s.timeout_plan().1.safety.voted == s.safety.voted,
        s.timeout_plan().1.committed_height == s.committed_height,
        s.timeout_plan().1.committed_hash == s.committed_hash,
{
}

/// A timeout certificate and a view change do not come of one timeout.
pub proof fn lemma_no_view_change_after_certificate(s: RunnerView)
    requires
        s.own_timeout() is Some,
        s.timeout_result(s.own_timeout()->Some_0) is Some,
    ensures
        s.timeout_plan().0.view_change is None,
        s.timeout_plan().0.new_view is None,
{
}

/// A proposal is awaited exactly if it comes from the leader of the view, who is also
/// its proposer, is of that view and of the context, and, where the committee has
/// keys, is signed by the proposer.
pub proof fn lemma_awaited_proposal(s: RunnerView, from: NodeId, p: ProposeView, view: u64)
    ensures
        s.awaited_proposal(from, p, view) <==> {
            &&& from == s.config.leader(view)
            &&& p.block.proposer == from
            &&& p.block.view == view
            &&& p.context == s.context
            &&& p.block.context == s.context
            &&& s.config.keyed() ==> s.config.fault() is None && (
            crate::types::committee::member_of(s.config.members(), from) matches Some(m) && (
            m.bls_pubkey matches Some(k) && crate::crypto::bls_verifies(
                k,
                crate::types::messages::propose_message(s.context, p.block),
                p.proposer_signature,
            ))) && p.proposer_signature.len() == 96 && crate::crypto::bls_signature_decodes(
                p.proposer_signature,
            )
        },
{
}

/// An announcement of a certificate is awaited exactly if it comes from the leader of
/// the view and is, with its certificate, of that view's context.
pub proof fn lemma_awaited_prepare(s: RunnerView, from: NodeId, p: PrepareView, view: u64)
    ensures
        s.awaited_prepare(from, p, view) <==> {
            &&& from == s.config.leader(view)
            &&& p.view == view
            &&& p.context == s.context
            &&& p.qc.context == s.context
        },
{
}

/// A node's own timeout names its view and the view of its highest certificate, and
/// is signed with its key; without a key there is none.
pub proof fn lemma_own_timeout(s: RunnerView)
    ensures
        s.own_timeout() is Some <==> s.config.bls_secret_key is Some,
        s.own_timeout() matches Some(t) ==> {
            &&& t.context == s.context
            &&& t.view == s.pacemaker.current_view
            &&& t.sender == s.config.node_id
            &&& t.high_qc_view == (match s.safety.high_qc {
                Some(qc) => qc.view,
                None => 0,
            })
            &&& t.signature == bls_signature(
                s.config.bls_secret_key->Some_0@,
                timeout_message(s.context, s.pacemaker.current_view),
            )
        },
{
}

/// A node asks once per view for the next one, with its highest certificate.
pub proof fn lemma_own_view_change(s: RunnerView)
    requires
        s.pacemaker.current_view < u64::MAX,
    ensures
        s.own_view_change() is Some <==> (s.config.bls_secret_key is Some || s.pacemaker.collector is Some)
            && s.pacemaker.vc_sent_for_view != Some(s.pacemaker.current_view),
        s.own_view_change() matches Some(vc) ==> {
            &&& vc.from_view == s.pacemaker.current_view
            &&& vc.to_view == s.pacemaker.current_view + 1
            &&& vc.high_qc == s.safety.high_qc
            &&& vc.sender == s.config.node_id
            &&& s.pacemaker.context matches Some(c) ==> vc.context == c
            &&& s.config.bls_secret_key matches Some(seed) ==> vc.signature == bls_signature(
                seed@,
                view_change_message(
                    vc.context,
                    vc.from_view,
                    vc.to_view,
                    vc.high_qc,
                    vc.sender,
                ),
            )
        },
        s.asked_view_change().own_view_change() is None,
        s.asked_view_change() == (RunnerView {
            pacemaker: s.asked_view_change().pacemaker,
            ..s
        }),
        s.asked_view_change().pacemaker.current_view == s.pacemaker.current_view,
{
}

/// A round that times out moves the node to the next view and counts one more timeout
/// in a row, and nothing else changes.
pub proof fn lemma_timed_out(s: RunnerView)
    requires
        s.pacemaker.current_view < u64::MAX,
        s.pacemaker.consecutive_timeouts < u32::MAX,
    ensures
        s.timed_out().pacemaker.current_view == s.pacemaker.current_view + 1,
        s.timed_out().pacemaker.consecutive_timeouts == s.pacemaker.consecutive_timeouts + 1,
        s.timed_out().pacemaker.base_timeout_ms == s.pacemaker.base_timeout_ms,
        s.timed_out().pacemaker.collector == s.pacemaker.collector,
        s.timed_out().pacemaker.vc_sent_for_view == s.pacemaker.vc_sent_for_view,
        s.timed_out().pacemaker.context == s.pacemaker.context,
        s.timed_out() == (RunnerView { pacemaker: s.timed_out().pacemaker, ..s }),
{
}

/// The leader of a view announces it with the certificate and the highest certificate
/// that a view change of it carries: followers that take the certificate take the
/// announcement.
pub proof fn lemma_announcement_accepted(
    s: RunnerView,
    follower: RunnerView,
    vcc: ViewChangeCertificateView,
)
    requires
        s.context == follower.context,
        follower.pacemaker.current_view < u64::MAX,
        vcc.view == follower.pacemaker.current_view + 1,
        follower.certificate_refusal(vcc) is None,
    ensures
        follower.new_view_refusal(follower.config.leader(vcc.view), s.announcement(vcc)) is None,
        s.announcement(vcc).view == vcc.view,
        s.announcement(vcc).view_change_cert == vcc,
        forall|i: int|
            0 <= i < vcc.view_changes.len() ==> ((#[trigger] vcc.view_changes[i]).high_qc matches Some(
                qc,
            ) ==> s.announcement(vcc).high_qc matches Some(best) && qc.view <= best.view),
{
    crate::consensus::runner::views::lemma_view_change_certificate_accepted(follower, vcc);
    crate::types::messages::lemma_highest_qc_is_maximal(vcc.view_changes);
}

/// A timeout that completes a certificate moves the node to the view after it, if that
/// is ahead; other timeouts leave the view as it is.
pub proof fn lemma_timeout_message(s: RunnerView, t: TimeoutView)
    ensures
        ({
            let after = s.after_timeout_message(t);
            let done = s.timeout_result(t) is Some;
            &&& after.timeouts == s.after_timeout(t).timeouts
            &&& done && t.view < u64::MAX && t.view >= s.pacemaker.current_view
                ==> after.pacemaker.current_view == t.view + 1
            &&& !done ==> after.pacemaker == s.pacemaker
            &&& after.pacemaker.consecutive_timeouts == s.pacemaker.consecutive_timeouts
            &&& after == (RunnerView { timeouts: after.timeouts, pacemaker: after.pacemaker, ..s })
        }),
{
}

/// A view change that is taken is collected; where it completes a certificate that
/// is taken, the leader of that view announces it and enters it.
pub proof fn lemma_view_change_answered(
    s: RunnerView,
    from: NodeId,
    vc: ViewChangeView,
    after: RunnerView,
    announced: Option<NewViewView>,
)
    requires
        s.answers_view_change(from, vc, after, announced),
    ensures
        s.view_change_refusal(from, vc) is Some ==> after == s && announced is None,
        announced matches Some(nv) ==> {
            &&& s.view_change_refusal(from, vc) is None
            &&& s.pacemaker.collector matches Some(c) && c.result(vc) == Some(nv.view_change_cert)
            &&& s.config.leader(nv.view) == s.config.node_id
            &&& nv.view == vc.to_view
            &&& nv.context == s.context
            &&& forall|i: int|
                0 <= i < nv.view_change_cert.view_changes.len() ==> ((
                #[trigger] nv.view_change_cert.view_changes[i]).high_qc matches Some(qc)
                    ==> nv.high_qc matches Some(best) && qc.view <= best.view)
        },
        after.votes == s.votes,
        after.committed_height == s.committed_height,
        after.safety.voted == s.safety.voted,
{
    if let Some(nv) = announced {
        crate::types::messages::lemma_highest_qc_is_maximal(nv.view_change_cert.view_changes);
    }
}

/// What a node sends when a round times out: its timeout; and, unless that completes
/// a timeout certificate, its view change, and the announcement of the next view if
/// the view change completes a certificate and the node leads that view.
pub proof fn lemma_timeout_plan(s: RunnerView)
    requires
        s.pacemaker.current_view < u64::MAX,
    ensures
        ({
            let (plan, after) = s.timeout_plan();
            let certified = s.own_timeout() matches Some(t) && s.timeout_result(t) is Some;
            &&& plan.timeout == s.own_timeout()
            &&& certified ==> plan.view_change is None && plan.new_view is None
            &&& !certified && plan.fault is None ==> plan.view_change == s.own_view_change()
            &&& plan.new_view matches Some(nv) ==> s.config.leader(nv.view) == s.config.node_id
                && plan.view_change is Some && nv.view == plan.view_change->Some_0.to_view
            &&& plan.fault is None ==> after.pacemaker.current_view > s.pacemaker.current_view
            &&& after.votes == s.votes
            &&& after.pending == s.pending
            &&& after.safety.voted == s.safety.voted
        }),
{
}

/// A view change that is taken into account is collected, and nothing else changes.
pub proof fn lemma_view_change_kept(s: RunnerView, vc: ViewChangeView)
    ensures
        s.pacemaker.collector matches Some(c) ==> s.with_view_change(vc).pacemaker.collector == Some(
            c.after(vc),
        ),
        s.with_view_change(vc) == (RunnerView {
            pacemaker: PacemakerView {
                collector: s.with_view_change(vc).pacemaker.collector,
                ..s.pacemaker
            },
            ..s
        }),
        s.pacemaker.collector is None ==> s.with_view_change(vc) == s,
{
}

/// A vote is evidence exactly if it is stored and conflicts: in the phase of collecting
/// votes by the rules of collection, else by those of votes that arrive.
pub proof fn lemma_vote_evidence(s: RunnerView, phase: Phase, from: NodeId, v: VoteView, now: u64)
    ensures
        phase matches Phase::Votes { view, block_hash, app_hash } ==> (s.vote_evidence(
            phase,
            from,
            v,
            now,
        ) is Some <==> s.gathers_vote(from, v, view, block_hash, app_hash, now) && s.evidence_of(v)
            is Some),
        phase matches Phase::Proposal { view } ==> (s.vote_evidence(phase, from, v, now) is Some
            <==> s.stores_vote(from, v, view, now) && s.evidence_of(v) is Some),
        phase matches Phase::Prepare { view } ==> (s.vote_evidence(phase, from, v, now) is Some
            <==> s.stores_vote(from, v, view, now) && s.evidence_of(v) is Some),
        s.vote_evidence(phase, from, v, now) is Some ==> s.vote_evidence(phase, from, v, now)
            == s.evidence_of(v),
{
}

/// A node's own view change is sent exactly if its configuration can run a networked node,
/// the view change is in order, and its certificate, if any, is believed.
pub proof fn lemma_own_view_change_in_order(s: RunnerView, vc: ViewChangeView)
    ensures
        s.own_view_change_fault(vc) is None <==> {
            &&& network_fault(s.config) is None
            &&& view_change_fault(vc, s.config.members(), s.context, s.pacemaker.current_view) is None
            &&& vc.high_qc matches Some(qc) ==> s.local_qc_fault(qc) is None
        },
{
}

/// A node collects its own view change with those of others, and announces the next view
/// exactly if that completes a certificate for a view that it leads.
pub proof fn lemma_change_plan(s: RunnerView)
    requires
        s.pacemaker.current_view < u64::MAX,
        s.own_view_change() is Some,
        s.asked_view_change().own_view_change_fault(s.own_view_change()->Some_0) is None,
    ensures
        ({
            let vc = s.own_view_change()->Some_0;
            let asked = s.asked_view_change();
            let collected = asked.with_view_change(vc);
            let certificate = match s.pacemaker.collector {
                Some(c) => c.result(vc),
                None => None,
            };
            let (plan, after) = s.change_plan();
            &&& plan.view_change == Some(vc)
            &&& certificate is None ==> plan.new_view is None && plan.fault is None && after
                == collected.timed_out()
            &&& certificate matches Some(vcc) ==> {
                &&& collected.certificate_refusal(vcc) is Some ==> plan.new_view is None
                    && plan.fault == collected.certificate_refusal(vcc)
                &&& collected.certificate_refusal(vcc) is None && s.config.leader(vcc.view)
                    == s.config.node_id ==> plan.new_view == Some(collected.announcement(vcc))
                &&& collected.certificate_refusal(vcc) is None && s.config.leader(vcc.view)
                    != s.config.node_id ==> plan.new_view is None && after == collected.timed_out()
            }
        }),
{
}

} // verus!
