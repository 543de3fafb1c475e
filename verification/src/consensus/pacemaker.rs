//! Advancement of views, timeouts with exponential backoff, and view changes.

use vstd::prelude::*;

use crate::bytes::{zeros, NodeId};
use crate::clock::Clock;
use crate::consensus::aggregator::no_context;
use crate::consensus::timeout::{all_keyed, committee_keys, key_map, KeyTable};
use crate::consensus::view_change::{
    create_signed_view_change_with_context, option_vcc, validate_view_change_bounds, within_reach,
    ViewChangeCollector, ViewChangeError, ViewChangesView,
};
use crate::crypto::{bls_signature, BlsSecretKey};
use crate::types::certificate::{option_certificate, Certificate, CertificateView};
use crate::types::committee::Committee;
use crate::types::context::ConsensusContext;
use crate::types::messages::{
    highest_qc_of, view_change_message, NewView, NewViewView, ViewChange, ViewChangeCertificate,
    ViewChangeView,
};

verus! {

/// Largest exponent of the backoff: the timeout grows to 32 times the base.
pub const MAX_BACKOFF: u32 = 5;

/// Base timeout of a pacemaker that is not told another.
pub const DEFAULT_TIMEOUT_MS: u64 = 3000;

/// Nanoseconds in a millisecond.
pub const NANOS_PER_MILLI: u128 = 1_000_000;

/// Decides which view is current and when it has lasted too long.
pub struct Pacemaker {
    current_view: u64,
    base_timeout_ms: u64,
    consecutive_timeouts: u32,
    view_start: u64,
    vc_collector: Option<ViewChangeCollector>,
    vc_sent_for_view: Option<u64>,
    context: Option<ConsensusContext>,
    clock: Clock,
}

/// The contents of a pacemaker. The start of the view is in nanoseconds on
/// the pacemaker's clock.
pub ghost struct PacemakerView {
    pub current_view: u64,
    pub base_timeout_ms: u64,
    pub consecutive_timeouts: u32,
    pub view_start: u64,
    pub collector: Option<ViewChangesView>,
    pub vc_sent_for_view: Option<u64>,
    pub context: Option<ConsensusContext>,
}

/// Why a pacemaker cannot be bound to a context or a committee.
#[derive(Clone, Copy, Debug, PartialEq, Eq)]
pub enum PacemakerError {
    /// The pacemaker is bound to another context.
    ContextChange,
    /// The committee cannot weigh view changes.
    Committee(ViewChangeError),
}

/// Two to the power of a backoff exponent.
pub open spec fn backoff(timeouts: u32) -> nat {
    vstd::arithmetic::power2::pow2(
        (if timeouts < MAX_BACKOFF {
            timeouts
        } else {
            MAX_BACKOFF
        }) as nat,
    )
}

/// The factor of the exponential backoff.
fn backoff_factor(timeouts: u32) -> (r: u128)
    ensures
        r == backoff(timeouts),
        1 <= r <= 32,
{
    proof {
        vstd::arithmetic::power2::lemma2_to64();
    }
    if timeouts == 0 {
        1
    } else if timeouts == 1 {
        2
    } else if timeouts == 2 {
        4
    } else if timeouts == 3 {
        8
    } else if timeouts == 4 {
        16
    } else {
        32
    }
}

impl PacemakerView {
    /// The timeout of the current view in milliseconds.
    pub open spec fn timeout_ms(self) -> nat {
        self.base_timeout_ms as nat * backoff(self.consecutive_timeouts)
    }

    /// Nanoseconds since the view started.
    pub open spec fn elapsed(self, now: u64) -> nat {
        if now >= self.view_start {
            (now - self.view_start) as nat
        } else {
            0
        }
    }

    /// A certificate of a context is taken into account.
    pub open spec fn accepts(self, context: ConsensusContext) -> bool {
        self.context is None || self.context->Some_0 == context
    }

    /// The pacemaker after a certificate, but for the start of its view.
    pub open spec fn after_qc(self, qc: CertificateView) -> PacemakerView {
        if !self.accepts(qc.context) {
            self
        } else if qc.view + 1 > self.current_view {
            PacemakerView {
                context: Some(qc.context),
                current_view: (qc.view + 1) as u64,
                consecutive_timeouts: 0,
                ..self
            }
        } else {
            PacemakerView { context: Some(qc.context), ..self }
        }
    }

    /// The new view and all it carries are of one context that the pacemaker
    /// accepts.
    pub open spec fn accepts_new_view(self, nv: NewViewView) -> bool {
        &&& self.accepts(nv.context)
        &&& nv.view_change_cert.context == nv.context
        &&& nv.high_qc is Some ==> nv.high_qc->Some_0.context == nv.context
    }

    /// The pacemaker after a new view, but for the start of its view.
    pub open spec fn after_new_view(self, nv: NewViewView) -> PacemakerView {
        if !self.accepts_new_view(nv) {
            self
        } else if nv.view > self.current_view {
            PacemakerView {
                context: Some(nv.context),
                current_view: nv.view,
                consecutive_timeouts: 0,
                vc_sent_for_view: None,
                collector: match self.collector {
                    Some(c) => Some(c.pruned(nv.view)),
                    None => None,
                },
                ..self
            }
        } else {
            PacemakerView { context: Some(nv.context), ..self }
        }
    }

    /// The same pacemaker with another start of the view.
    pub open spec fn started(self, at: u64) -> PacemakerView {
        PacemakerView { view_start: at, ..self }
    }
}

/// Certificates and new views never lower the current view.
pub proof fn lemma_views_advance(p: PacemakerView, qc: CertificateView, nv: NewViewView)
    ensures
        p.after_qc(qc).current_view >= p.current_view || qc.view == u64::MAX,
        p.after_new_view(nv).current_view >= p.current_view,
{
}

/// The timeout lies between the base timeout and 32 times the base timeout,
/// and a certificate that advances the view sets it back to the base timeout.
pub proof fn lemma_timeout_bounds(p: PacemakerView, qc: CertificateView)
    ensures
        p.base_timeout_ms <= p.timeout_ms() <= 32 * p.base_timeout_ms,
        p.accepts(qc.context) && qc.view + 1 > p.current_view ==> p.after_qc(qc).timeout_ms()
            == p.base_timeout_ms,
{
    vstd::arithmetic::power2::lemma2_to64();
    let t = p.consecutive_timeouts;
    let b = p.base_timeout_ms as int;
    let e: u32 = if t < MAX_BACKOFF {
        t
    } else {
        MAX_BACKOFF
    };
    assert(e == 0 || e == 1 || e == 2 || e == 3 || e == 4 || e == 5);
    let f = backoff(t) as int;
    assert(1 <= f <= 32);
    assert(b <= b * f <= 32 * b) by (nonlinear_arith)
        requires
            1 <= f <= 32,
            b >= 0,
    ;
    assert(backoff(0) == 1);
    assert(b * 1 == b);
}

impl vstd::view::View for Pacemaker {
    type V = PacemakerView;

    closed spec fn view(&self) -> PacemakerView {
        PacemakerView {
            current_view: self.current_view,
            base_timeout_ms: self.base_timeout_ms,
            consecutive_timeouts: self.consecutive_timeouts,
            view_start: self.view_start,
            collector: match self.vc_collector {
                Some(c) => Some(c@),
                None => None,
            },
            vc_sent_for_view: self.vc_sent_for_view,
            context: self.context,
        }
    }
}

/// A pacemaker at view zero.
pub open spec fn initial_pacemaker(base_timeout_ms: u64, view_start: u64) -> PacemakerView {
    PacemakerView {
        current_view: 0,
        base_timeout_ms,
        consecutive_timeouts: 0,
        view_start,
        collector: None,
        vc_sent_for_view: None,
        context: None,
    }
}

impl Pacemaker {
    /// The collector of view changes is well-formed.
    pub closed spec fn wf(self) -> bool {
        self.vc_collector is Some ==> self.vc_collector->Some_0.wf()
    }

    /// A pacemaker at view zero, which starts now.
    pub fn new(base_timeout_ms: u64) -> (r: Self)
        ensures
            r.wf(),
            r@ == initial_pacemaker(base_timeout_ms, r@.view_start),
    {
        let clock = Clock::start();
        Pacemaker {
            current_view: 0,
            base_timeout_ms,
            consecutive_timeouts: 0,
            view_start: clock.now(),
            vc_collector: None,
            vc_sent_for_view: None,
            context: None,
            clock,
        }
    }

    /// Counts view changes, without verifying them.
    pub fn with_view_change(&mut self, quorum: usize)
        requires
            old(self).wf(),
        ensures
            final(self).wf(),
            final(self)@ == (PacemakerView {
                collector: Some(
                    ViewChangesView {
                        view_changes: Map::empty(),
                        quorum,
                        keys: Map::empty(),
                        members: None,
                        context: None,
                    },
                ),
                ..old(self)@
            }),
    {
        self.vc_collector = Some(ViewChangeCollector::new(quorum));
    }

    /// Counts view changes that verify under known keys.
    pub fn with_view_change_verified(&mut self, quorum: usize, validator_pubkeys: KeyTable)
        requires
            old(self).wf(),
            validator_pubkeys.wf(),
        ensures
            final(self).wf(),
            final(self)@ == (PacemakerView {
                collector: Some(
                    ViewChangesView {
                        view_changes: Map::empty(),
                        quorum,
                        keys: key_map(validator_pubkeys.map()),
                        members: None,
                        context: None,
                    },
                ),
                ..old(self)@
            }),
    {
        self.vc_collector = Some(ViewChangeCollector::with_validators(quorum, validator_pubkeys));
    }

    /// Weighs view changes by a committee. The pacemaker is bound to its
    /// context, or else to the committee's first one, even if the committee
    /// cannot weigh view changes.
    pub fn with_view_change_committee(&mut self, committee: Committee) -> (r: Result<(), PacemakerError>)
        requires
            old(self).wf(),
        ensures
            final(self).wf(),
            ({
                let context = match old(self)@.context {
                    Some(c) => c,
                    None => ConsensusContext {
                        epoch: 0,
                        committee_hash: committee.committee_hash(),
                        genesis_hash: crate::bytes::zero_hash(),
                    },
                };
                let bound = PacemakerView { context: Some(context), ..old(self)@ };
                if context.committee_hash != committee.committee_hash() {
                    &&& r == Err::<(), PacemakerError>(
                        PacemakerError::Committee(ViewChangeError::ContextMismatch),
                    )
                    &&& final(self)@ == bound
                } else if !all_keyed(committee.members_view()) {
                    &&& r == Err::<(), PacemakerError>(
                        PacemakerError::Committee(ViewChangeError::MissingKeys),
                    )
                    &&& final(self)@ == bound
                } else {
                    &&& r is Ok
                    &&& final(self)@ == (PacemakerView {
                        collector: Some(
                            ViewChangesView {
                                view_changes: Map::empty(),
                                quorum: 0,
                                keys: committee_keys(committee.members_view()),
                                members: Some(committee.members_view()),
                                context: Some(context),
                            },
                        ),
                        ..bound
                    })
                }
            }),
    {
        let context = match self.context {
            Some(c) => c,
            None => committee.initial_context(),
        };
        self.context = Some(context);
        match ViewChangeCollector::with_committee_and_context(committee, context) {
            Ok(collector) => {
                self.vc_collector = Some(collector);
                Ok(())
            },
            Err(e) => Err(PacemakerError::Committee(e)),
        }
    }

    /// Binds the pacemaker to a context, unless it is bound to another one.
    pub fn set_context(&mut self, context: ConsensusContext) -> (r: Result<(), PacemakerError>)
        requires
            old(self).wf(),
        ensures
            final(self).wf(),
            if old(self)@.accepts(context) {
                r is Ok && final(self)@ == (PacemakerView { context: Some(context), ..old(self)@ })
            } else {
                r == Err::<(), PacemakerError>(PacemakerError::ContextChange) && final(self)@ == old(self)@
            },
    {
        if let Some(existing) = self.context {
            if !existing.same_as(&context) {
                return Err(PacemakerError::ContextChange);
            }
        }
        self.context = Some(context);
        Ok(())
    }

    /// The context that the pacemaker is bound to.
    pub fn context(&self) -> (r: Option<ConsensusContext>)
        ensures
            r == self@.context,
    {
        self.context
    }

    /// The current view.
    pub fn current_view(&self) -> (r: u64)
        ensures
            r == self@.current_view,
    {
        self.current_view
    }

    /// Moves to the view after a certificate's, if that is ahead. Progress
    /// ends the backoff. A certificate of another context is ignored.
    pub fn advance_view(&mut self, qc: &Certificate)
        requires
            old(self).wf(),
            qc.view < u64::MAX,
        ensures
            final(self).wf(),
            final(self)@ == old(self)@.after_qc(qc@).started(final(self)@.view_start),
            old(self)@.after_qc(qc@).current_view == old(self)@.current_view
                ==> final(self)@.view_start == old(self)@.view_start,
    {
        if let Some(expected) = self.context {
            if !qc.context().same_as(&expected) {
                return ;
            }
        } else {
            self.context = Some(qc.context());
        }
        let new_view: u64 = qc.view + 1;
        if new_view > self.current_view {
            self.current_view = new_view;
            self.consecutive_timeouts = 0;
            self.view_start = self.clock.now();
        }
    }

    /// Moves to a view, if it is ahead.
    pub fn advance_to(&mut self, view: u64)
        requires
            old(self).wf(),
        ensures
            final(self).wf(),
            if view > old(self)@.current_view {
                final(self)@ == (PacemakerView { current_view: view, ..old(self)@ }).started(
                    final(self)@.view_start,
                )
            } else {
                final(self)@ == old(self)@
            },
    {
        if view > self.current_view {
            self.current_view = view;
            self.view_start = self.clock.now();
        }
    }

    /// Sets the view, which may be a lower one, when state is recovered.
    pub fn set_view(&mut self, view: u64)
        requires
            old(self).wf(),
        ensures
            final(self).wf(),
            final(self)@ == (PacemakerView { current_view: view, ..old(self)@ }).started(
                final(self)@.view_start,
            ),
    {
        self.current_view = view;
        self.view_start = self.clock.now();
    }

    /// Sets the backoff and the record of the last view change, when state is
    /// recovered.
    pub fn set_timeout_state(&mut self, consecutive_timeouts: u32, vc_sent_for_view: Option<u64>)
        requires
            old(self).wf(),
        ensures
            final(self).wf(),
            final(self)@ == (PacemakerView { consecutive_timeouts, vc_sent_for_view, ..old(self)@ }),
    {
        self.consecutive_timeouts = consecutive_timeouts;
        self.vc_sent_for_view = vc_sent_for_view;
    }

    /// The backoff and the record of the last view change.
    pub fn timeout_state(&self) -> (r: (u32, Option<u64>))
        ensures
            r == (self@.consecutive_timeouts, self@.vc_sent_for_view),
    {
        (self.consecutive_timeouts, self.vc_sent_for_view)
    }

    /// Gives up the current view and lengthens the timeout of the next.
    pub fn record_timeout(&mut self)
        requires
            old(self).wf(),
            old(self)@.current_view < u64::MAX,
        ensures
            final(self).wf(),
            final(self)@ == (PacemakerView {
                current_view: (old(self)@.current_view + 1) as u64,
                consecutive_timeouts: if old(self)@.consecutive_timeouts < u32::MAX {
                    (old(self)@.consecutive_timeouts + 1) as u32
                } else {
                    u32::MAX
                },
                ..old(self)@
            }).started(final(self)@.view_start),
    {
        if self.consecutive_timeouts < u32::MAX {
            self.consecutive_timeouts = self.consecutive_timeouts + 1;
        }
        self.current_view = self.current_view + 1;
        self.view_start = self.clock.now();
    }

    /// The timeout of the current view in milliseconds.
    pub fn current_timeout(&self) -> (r: u128)
        ensures
            r == self@.timeout_ms(),
            r <= 32 * u64::MAX,
    {
        let factor = backoff_factor(self.consecutive_timeouts);
        proof {
            let b = self.base_timeout_ms as int;
            let f = factor as int;
            assert(0 <= b * f <= 32 * u64::MAX) by (nonlinear_arith)
                requires
                    0 <= b <= u64::MAX,
                    1 <= f <= 32,
            ;
        }
        self.base_timeout_ms as u128 * factor
    }

    /// Whether the current view has lasted as long as its timeout.
    pub fn is_timed_out(&self) -> (r: bool)
        ensures
            exists|now: u64| r == (#[trigger] self@.elapsed(now) >= self@.timeout_ms() * NANOS_PER_MILLI),
    {
        let now: u64 = self.clock.now();
        self.is_timed_out_at(now)
    }

    /// Whether the current view has lasted as long as its timeout at a moment.
    pub fn is_timed_out_at(&self, now: u64) -> (r: bool)
        ensures
            r == (self@.elapsed(now) >= self@.timeout_ms() * NANOS_PER_MILLI),
    {
        let elapsed: u64 = if now >= self.view_start {
            now - self.view_start
        } else {
            0
        };
        elapsed as u128 >= self.current_timeout() * NANOS_PER_MILLI
    }

    /// Nanoseconds that the current view has left.
    pub fn time_remaining(&self) -> (r: u128)
        ensures
            exists|now: u64| #[trigger] self@.elapsed(now) >= 0 && r == (if self@.elapsed(now)
                >= self@.timeout_ms() * NANOS_PER_MILLI {
                0
            } else {
                self@.timeout_ms() * NANOS_PER_MILLI - self@.elapsed(now)
            }),
    {
        let now: u64 = self.clock.now();
        self.time_remaining_at(now)
    }

    /// Nanoseconds that the current view has left at a moment.
    pub fn time_remaining_at(&self, now: u64) -> (r: u128)
        ensures
            r == (if self@.elapsed(now) >= self@.timeout_ms() * NANOS_PER_MILLI {
                0
            } else {
                self@.timeout_ms() * NANOS_PER_MILLI - self@.elapsed(now)
            }),
    {
        let elapsed: u64 = if now >= self.view_start {
            now - self.view_start
        } else {
            0
        };
        let timeout: u128 = self.current_timeout() * NANOS_PER_MILLI;
        if elapsed as u128 >= timeout {
            0
        } else {
            timeout - elapsed as u128
        }
    }

    /// Goes back to view zero.
    pub fn reset(&mut self)
        requires
            old(self).wf(),
        ensures
            final(self).wf(),
            final(self)@ == (PacemakerView {
                current_view: 0,
                consecutive_timeouts: 0,
                vc_sent_for_view: None,
                collector: match old(self)@.collector {
                    Some(c) => Some(ViewChangesView { view_changes: Map::empty(), ..c }),
                    None => None,
                },
                ..old(self)@
            }).started(final(self)@.view_start),
    {
        self.current_view = 0;
        self.consecutive_timeouts = 0;
        self.view_start = self.clock.now();
        self.vc_sent_for_view = None;
        if let Some(mut collector) = self.vc_collector.take() {
            collector.clear();
            self.vc_collector = Some(collector);
        }
    }

    /// An unsigned view change to the next view, at most one per view. There
    /// is none while view changes are not collected.
    pub fn create_view_change(&mut self, node_id: NodeId, high_qc: Option<Certificate>) -> (r: Option<
        ViewChange,
    >)
        requires
            old(self).wf(),
            old(self)@.current_view < u64::MAX,
        ensures
            final(self).wf(),
            old(self)@.collector is None ==> r is None && final(self)@ == old(self)@,
            old(self)@.collector is Some ==> final(self)@ == (PacemakerView {
                vc_sent_for_view: Some(old(self)@.current_view),
                ..old(self)@
            }),
            match r {
                None => old(self)@.collector is None || old(self)@.vc_sent_for_view == Some(
                    old(self)@.current_view,
                ),
                Some(vc) => old(self)@.vc_sent_for_view != Some(old(self)@.current_view) && vc@ == (
                ViewChangeView {
                    context: bound_context(old(self)@),
                    from_view: old(self)@.current_view,
                    to_view: (old(self)@.current_view + 1) as u64,
                    high_qc: option_certificate(high_qc),
                    sender: node_id,
                    signature: Seq::new(64, |i: int| 0u8),
                }),
            },
    {
        if self.vc_collector.is_none() {
            return None;
        }
        let current: u64 = self.current_view;
        if let Some(sent) = self.vc_sent_for_view {
            if sent == current {
                return None;
            }
        }
        self.vc_sent_for_view = Some(current);
        let context = match self.context {
            Some(c) => c,
            None => ConsensusContext::new(0, zeros()),
        };
        let signature = vec![0u8; 64];
        assert(signature@ =~= Seq::new(64, |i: int| 0u8));
        Some(
            ViewChange {
                epoch: context.epoch,
                committee_hash: context.committee_hash,
                genesis_hash: context.genesis_hash,
                from_view: current,
                to_view: current + 1,
                high_qc,
                sender: node_id,
                signature,
            },
        )
    }

    /// A signed view change to the next view, at most one per view.
    pub fn create_signed_view_change(
        &mut self,
        node_id: NodeId,
        high_qc: Option<Certificate>,
        bls_sk: &BlsSecretKey,
    ) -> (r: Option<ViewChange>)
        requires
            old(self).wf(),
            old(self)@.current_view < u64::MAX,
        ensures
            final(self).wf(),
            final(self)@ == (PacemakerView {
                vc_sent_for_view: Some(old(self)@.current_view),
                ..old(self)@
            }),
            match r {
                None => old(self)@.vc_sent_for_view == Some(old(self)@.current_view),
                Some(vc) => old(self)@.vc_sent_for_view != Some(old(self)@.current_view) && vc@ == (
                ViewChangeView {
                    context: bound_context(old(self)@),
                    from_view: old(self)@.current_view,
                    to_view: (old(self)@.current_view + 1) as u64,
                    high_qc: option_certificate(high_qc),
                    sender: node_id,
                    signature: bls_signature(
                        bls_sk.seed()@,
                        view_change_message(
                            bound_context(old(self)@),
                            old(self)@.current_view,
                            (old(self)@.current_view + 1) as u64,
                            option_certificate(high_qc),
                            node_id,
                        ),
                    ),
                }),
            },
    {
        let current: u64 = self.current_view;
        if let Some(sent) = self.vc_sent_for_view {
            if sent == current {
                return None;
            }
        }
        self.vc_sent_for_view = Some(current);
        let context = match self.context {
            Some(c) => c,
            None => ConsensusContext::new(0, zeros()),
        };
        Some(
            create_signed_view_change_with_context(
                context,
                current,
                current + 1,
                high_qc,
                node_id,
                bls_sk,
            ),
        )
    }

    /// Takes a view change, unless it reaches too far ahead, and returns the
    /// certificate that it completes.
    pub fn on_view_change(&mut self, vc: ViewChange) -> (r: Option<ViewChangeCertificate>)
        requires
            old(self).wf(),
        ensures
            final(self).wf(),
            if within_reach(vc@.to_view, old(self)@.current_view) && old(self)@.collector is Some {
                &&& option_vcc(r) == old(self)@.collector->Some_0.result(vc@)
                &&& final(self)@ == (PacemakerView {
                    collector: Some(old(self)@.collector->Some_0.after(vc@)),
                    ..old(self)@
                })
            } else {
                r is None && final(self)@ == old(self)@
            },
    {
        if validate_view_change_bounds(&vc, self.current_view).is_err() {
            return None;
        }
        match self.vc_collector.take() {
            Some(mut collector) => {
                let r = collector.add(vc);
                self.vc_collector = Some(collector);
                r
            },
            None => None,
        }
    }

    /// Moves to the view that a new leader announces, if it is ahead. An
    /// announcement of another context is ignored.
    pub fn on_new_view(&mut self, nv: &NewView)
        requires
            old(self).wf(),
        ensures
            final(self).wf(),
            final(self)@ == old(self)@.after_new_view(nv@).started(final(self)@.view_start),
            old(self)@.after_new_view(nv@).current_view == old(self)@.current_view
                ==> final(self)@.view_start == old(self)@.view_start,
    {
        let expected = match self.context {
            Some(c) => c,
            None => nv.context(),
        };
        let qc_clashes = match &nv.high_qc {
            Some(qc) => !qc.context().same_as(&expected),
            None => false,
        };
        if !nv.context().same_as(&expected) || !nv.view_change_cert.context().same_as(&expected)
            || qc_clashes {
            return ;
        }
        self.context = Some(expected);
        if nv.view > self.current_view {
            self.current_view = nv.view;
            self.consecutive_timeouts = 0;
            self.view_start = self.clock.now();
            self.vc_sent_for_view = None;
            if let Some(mut collector) = self.vc_collector.take() {
                collector.prune_below(nv.view);
                self.vc_collector = Some(collector);
            }
        }
    }

    /// The certificate of the highest view among the view changes to a view.
    pub fn highest_qc_from_view_changes(&self, view: u64) -> (r: Option<Certificate>)
        requires
            self.wf(),
        ensures
            option_certificate(r) == (match self@.collector {
                Some(c) => highest_qc_of(c.to(view)),
                None => None,
            }),
    {
        match &self.vc_collector {
            Some(collector) => collector.highest_qc(view),
            None => None,
        }
    }

    /// Whether view changes are collected.
    pub fn has_view_change(&self) -> (r: bool)
        ensures
            r == self@.collector is Some,
    {
        self.vc_collector.is_some()
    }
}

/// The context of the messages that a pacemaker makes.
pub open spec fn bound_context(p: PacemakerView) -> ConsensusContext {
    match p.context {
        Some(c) => c,
        None => no_context(),
    }
}

impl Default for Pacemaker {
    fn default() -> (r: Self)
        ensures
            r.wf(),
            r@ == initial_pacemaker(DEFAULT_TIMEOUT_MS, r@.view_start),
    {
        Pacemaker::new(DEFAULT_TIMEOUT_MS)
    }
}

/// What made a view advance.
pub enum ViewAdvanceReason {
    /// A valid certificate was received.
    QCReceived(Certificate),
    /// The timeout expired.
    Timeout,
    /// The network is at a higher view.
    Sync(u64),
}

/// The timeout starts at the base, doubles with each further timeout in a row up
/// to the fifth, and stays at 32 times the base from there on.
pub proof fn lemma_timeout_doubles(p: PacemakerView, q: PacemakerView)
    requires
        p.base_timeout_ms == q.base_timeout_ms,
    ensures
        p.consecutive_timeouts == 0 ==> p.timeout_ms() == p.base_timeout_ms,
        p.consecutive_timeouts < 5 && q.consecutive_timeouts == p.consecutive_timeouts + 1
            ==> q.timeout_ms() == 2 * p.timeout_ms(),
        p.consecutive_timeouts >= 5 ==> p.timeout_ms() == 32 * p.base_timeout_ms,
        p.consecutive_timeouts <= q.consecutive_timeouts ==> p.timeout_ms() <= q.timeout_ms(),
{
    vstd::arithmetic::power2::lemma2_to64();
    let b = p.base_timeout_ms as int;
    let x = backoff(p.consecutive_timeouts) as int;
    let y = backoff(q.consecutive_timeouts) as int;
    assert(p.consecutive_timeouts < 5 && q.consecutive_timeouts == p.consecutive_timeouts + 1 ==> y
        == 2 * x);
    assert(p.consecutive_timeouts <= q.consecutive_timeouts ==> x <= y);
    assert(x <= y ==> b * x <= b * y) by (nonlinear_arith)
        requires
            b >= 0,
    ;
    assert(y == 2 * x ==> b * y == 2 * (b * x)) by (nonlinear_arith);
    assert(b * 1 == b);
}

/// A certificate of the context moves the pacemaker to the view after its own,
/// without timeouts, exactly if that is ahead; else the view stays as it is.
pub proof fn lemma_certificate_moves_on(p: PacemakerView, qc: CertificateView)
    requires
        qc.view < u64::MAX,
    ensures
        ({
            let after = p.after_qc(qc);
            let other = p.context matches Some(c) && c != qc.context;
            &&& other ==> after == p
            &&& !other ==> after.context == Some(qc.context)
            &&& !other && qc.view >= p.current_view ==> after.current_view == qc.view + 1
                && after.consecutive_timeouts == 0
            &&& qc.view < p.current_view ==> after.current_view == p.current_view
                && after.consecutive_timeouts == p.consecutive_timeouts
            &&& after.base_timeout_ms == p.base_timeout_ms
            &&& after.vc_sent_for_view == p.vc_sent_for_view
            &&& after.collector == p.collector
        }),
{
}

/// A new view of the context is entered exactly if it is ahead: without timeouts,
/// without a view change of its own, and without the view changes to earlier
/// views.
pub proof fn lemma_new_view_entered(p: PacemakerView, nv: NewViewView, view: u64)
    ensures
        ({
            let after = p.after_new_view(nv);
            let fits = (p.context matches Some(c) ==> nv.context == c) && nv.view_change_cert.context
                == nv.context && (nv.high_qc matches Some(qc) ==> qc.context == nv.context);
            &&& !fits ==> after == p
            &&& fits ==> after.context == Some(nv.context)
            &&& fits && nv.view > p.current_view ==> {
                &&& after.current_view == nv.view
                &&& after.consecutive_timeouts == 0
                &&& after.vc_sent_for_view is None
                &&& p.collector matches Some(c) ==> after.collector matches Some(d) && (view < nv.view
                    ==> d.to(view).len() == 0) && (view >= nv.view ==> d.to(view) == c.to(view))
                &&& p.collector is None ==> after.collector is None
            }
            &&& nv.view <= p.current_view ==> after.current_view == p.current_view
                && after.consecutive_timeouts == p.consecutive_timeouts && after.collector
                == p.collector && after.vc_sent_for_view == p.vc_sent_for_view
            &&& after.base_timeout_ms == p.base_timeout_ms
        }),
{
}

/// A pacemaker starts in view zero without timeouts, with the base timeout that it
/// is given.
pub proof fn lemma_pacemaker_starts(base_timeout_ms: u64, view_start: u64, now: u64)
    ensures
        ({
            let p = initial_pacemaker(base_timeout_ms, view_start);
            &&& p.current_view == 0
            &&& p.timeout_ms() == base_timeout_ms
            &&& p.vc_sent_for_view is None
            &&& p.context is None
            &&& p.collector is None
            &&& now >= view_start ==> p.elapsed(now) + view_start == now
            &&& now < view_start ==> p.elapsed(now) == 0
        }),
{
    vstd::arithmetic::power2::lemma2_to64();
    assert(base_timeout_ms as int * 1 == base_timeout_ms);
}

/// A view has timed out once its timeout, in milliseconds, has passed.
pub proof fn lemma_timeout_units(p: PacemakerView, now: u64)
    ensures
        NANOS_PER_MILLI == 1_000_000,
        DEFAULT_TIMEOUT_MS == 3_000,
        now >= p.view_start ==> (p.elapsed(now) >= p.timeout_ms() * 1_000_000 <==> now - p.view_start
            >= p.timeout_ms() * 1_000_000),
        bound_context(p) == (match p.context {
            Some(c) => c,
            None => no_context(),
        }),
        no_context().epoch == 0,
        no_context().committee_hash == crate::bytes::zero_hash(),
        no_context().genesis_hash == crate::bytes::zero_hash(),
{
}

} // verus!
