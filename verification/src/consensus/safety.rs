//! Voting rules: one vote per view, extension of the highest certificate,
//! locking, and agreement on the application state.

use vstd::prelude::*;

use crate::bytes::{hash_eq, Hash32};
use crate::types::block::{Block, BlockView};
use crate::types::certificate::{
    copy_option_certificate, option_certificate, Certificate, CertificateView,
};
use crate::types::context::ConsensusContext;

verus! {

/// Tracks votes and enforces the voting rules.
pub struct Safety {
    voted_views: Vec<u64>,
    high_qc: Option<Certificate>,
    locked_qc: Option<Certificate>,
    context: Option<ConsensusContext>,
}

/// The contents of the safety rules.
pub ghost struct SafetyView {
    pub voted: Set<u64>,
    pub high_qc: Option<CertificateView>,
    pub locked_qc: Option<CertificateView>,
    pub context: Option<ConsensusContext>,
}

/// Why a vote, a context or a recovered state is refused.
#[allow(inconsistent_fields)]
#[derive(Clone, Copy, Debug, PartialEq, Eq)]
pub enum SafetyError {
    /// A vote was already cast in the view.
    AlreadyVoted(u64),
    /// The block does not build on the block of the highest certificate.
    DoesNotExtendHighQC { block_parent: Hash32, high_qc_hash: Hash32 },
    /// The block neither builds on the locked block nor has a higher view.
    ViolatesLocking { block_view: u64, locked_view: u64 },
    /// The block names another application state than the local one.
    AppHashMismatch { expected: Hash32, got: Hash32 },
    /// The block or a certificate belongs to another context.
    ContextMismatch { expected: ConsensusContext, got: ConsensusContext },
    /// A retained certificate belongs to another context.
    InconsistentContext,
}

/// A certificate, if there is one, belongs to the context.
pub open spec fn qc_in(qc: Option<CertificateView>, context: ConsensusContext) -> bool {
    qc is Some ==> qc->Some_0.context == context
}

/// The context that a clash of retained certificates is reported with.
pub open spec fn reported_context(
    high_qc: Option<CertificateView>,
    locked_qc: Option<CertificateView>,
    context: ConsensusContext,
) -> ConsensusContext {
    if high_qc is Some {
        high_qc->Some_0.context
    } else if locked_qc is Some {
        locked_qc->Some_0.context
    } else {
        context
    }
}

/// The highest certificate after a new one was seen.
pub open spec fn raised(held: Option<CertificateView>, qc: CertificateView) -> Option<
    CertificateView,
> {
    if held is Some && qc.view <= held->Some_0.view {
        held
    } else {
        Some(qc)
    }
}

impl SafetyView {
    /// The first voting rule that a block breaks.
    pub open spec fn check(self, block: BlockView, local_app_hash: Hash32) -> Result<(), SafetyError> {
        if self.context is Some && block.context != self.context->Some_0 {
            Err(
                SafetyError::ContextMismatch {
                    expected: self.context->Some_0,
                    got: block.context,
                },
            )
        } else if self.context is Some && !(qc_in(self.high_qc, self.context->Some_0) && qc_in(
            self.locked_qc,
            self.context->Some_0,
        )) {
            Err(SafetyError::InconsistentContext)
        } else if self.voted.contains(block.view) {
            Err(SafetyError::AlreadyVoted(block.view))
        } else if self.high_qc is Some && block.parent != self.high_qc->Some_0.block_hash {
            Err(
                SafetyError::DoesNotExtendHighQC {
                    block_parent: block.parent,
                    high_qc_hash: self.high_qc->Some_0.block_hash,
                },
            )
        } else if self.locked_qc is Some && block.parent != self.locked_qc->Some_0.block_hash
            && block.view <= self.locked_qc->Some_0.view {
            Err(
                SafetyError::ViolatesLocking {
                    block_view: block.view,
                    locked_view: self.locked_qc->Some_0.view,
                },
            )
        } else if block.app_hash != local_app_hash {
            Err(SafetyError::AppHashMismatch { expected: local_app_hash, got: block.app_hash })
        } else {
            Ok(())
        }
    }

    /// The state after a vote in a view.
    pub open spec fn after_vote(self, view: u64) -> SafetyView {
        SafetyView { voted: self.voted.insert(view), ..self }
    }

    /// Whether a certificate of a context is taken into account.
    pub open spec fn accepts(self, context: ConsensusContext) -> bool {
        self.context is None || self.context->Some_0 == context
    }

    /// The state after a certificate was offered as the highest one.
    pub open spec fn after_high_qc(self, qc: CertificateView) -> SafetyView {
        if self.accepts(qc.context) {
            SafetyView {
                context: Some(qc.context),
                high_qc: raised(self.high_qc, qc),
                ..self
            }
        } else {
            self
        }
    }

    /// The state after a certificate was offered as the locked one.
    pub open spec fn after_locked_qc(self, qc: CertificateView) -> SafetyView {
        if self.accepts(qc.context) {
            SafetyView {
                context: Some(qc.context),
                locked_qc: raised(self.locked_qc, qc),
                ..self
            }
        } else {
            self
        }
    }

    /// The view of the highest certificate, or zero.
    pub open spec fn high_qc_view(self) -> u64 {
        match self.high_qc {
            Some(qc) => qc.view,
            None => 0,
        }
    }
}

/// Once a vote in a view was recorded, every block of that view is refused.
pub proof fn lemma_no_second_vote(s: SafetyView, view: u64, block: BlockView, local_app_hash: Hash32)
    requires
        block.view == view,
    ensures
        s.after_vote(view).check(block, local_app_hash) is Err,
{
}

/// A recorded vote is not forgotten by later votes or certificates.
pub proof fn lemma_votes_kept(s: SafetyView, view: u64, other: u64, qc: CertificateView)
    requires
        s.voted.contains(view),
    ensures
        s.after_vote(other).voted.contains(view),
        s.after_high_qc(qc).voted.contains(view),
        s.after_locked_qc(qc).voted.contains(view),
{
}

/// The highest and the locked certificate never fall back to a lower view.
pub proof fn lemma_qc_monotone(s: SafetyView, qc: CertificateView)
    ensures
        s.after_high_qc(qc).high_qc_view() >= s.high_qc_view(),
        s.high_qc is Some ==> s.after_high_qc(qc).high_qc is Some,
        s.locked_qc is Some ==> s.after_locked_qc(qc).locked_qc is Some
            && s.after_locked_qc(qc).locked_qc->Some_0.view >= s.locked_qc->Some_0.view,
{
}

/// The state after a list of certificates was offered, one after the other.
pub open spec fn after_high_qcs(s: SafetyView, qcs: Seq<CertificateView>) -> SafetyView
    decreases qcs.len(),
{
    if qcs.len() == 0 {
        s
    } else {
        after_high_qcs(s, qcs.drop_last()).after_high_qc(qcs.last())
    }
}

/// A certificate is the first one of the highest view in a list, among those of
/// a context.
pub open spec fn is_first_highest(qcs: Seq<CertificateView>, context: ConsensusContext, i: int) -> bool {
    &&& 0 <= i < qcs.len()
    &&& qcs[i].context == context
    &&& forall|j: int|
        0 <= j < qcs.len() && (#[trigger] qcs[j]).context == context ==> qcs[j].view <= qcs[i].view
            && (j < i ==> qcs[j].view < qcs[i].view)
}

/// No certificate of a context in a list is of a higher view than the one that
/// is held.
pub open spec fn none_higher(
    held: Option<CertificateView>,
    qcs: Seq<CertificateView>,
    context: ConsensusContext,
) -> bool {
    forall|j: int|
        0 <= j < qcs.len() && (#[trigger] qcs[j]).context == context ==> held is Some && qcs[j].view
            <= held->Some_0.view
}

/// The context that a state is bound to once a list of certificates was
/// offered.
pub open spec fn binding_context(s: SafetyView, qcs: Seq<CertificateView>) -> ConsensusContext {
    match s.context {
        Some(c) => c,
        None => qcs[0].context,
    }
}

/// After a list of certificates the highest one is the first of the highest
/// view among those of the context; or the one that was held before, if none of
/// them is of a higher view.
pub proof fn lemma_first_highest_qc(s: SafetyView, qcs: Seq<CertificateView>)
    requires
        qcs.len() > 0,
    ensures
        after_high_qcs(s, qcs).context == Some(binding_context(s, qcs)),
        none_higher(s.high_qc, qcs, binding_context(s, qcs)) ==> after_high_qcs(s, qcs).high_qc
            == s.high_qc,
        !none_higher(s.high_qc, qcs, binding_context(s, qcs)) ==> exists|i: int| #[trigger]
            is_first_highest(qcs, binding_context(s, qcs), i) && after_high_qcs(s, qcs).high_qc
                == Some(qcs[i]),
    decreases qcs.len(),
{
    let context = binding_context(s, qcs);
    let front = qcs.drop_last();
    let last = qcs.last();
    let mid = after_high_qcs(s, front);
    let n = qcs.len() - 1;
    assert(qcs[n] == last);
    assert forall|j: int| 0 <= j < n implies #[trigger] qcs[j] == front[j] by {}
    if front.len() > 0 {
        assert(front[0] == qcs[0]);
        lemma_first_highest_qc(s, front);
    } else {
        assert(mid == s);
    }
    let mid_kept = none_higher(s.high_qc, front, context);
    if mid_kept {
        assert(mid.high_qc == s.high_qc);
        if last.context == context && (s.high_qc is None || last.view > s.high_qc->Some_0.view) {
            assert(!none_higher(s.high_qc, qcs, context));
            assert(is_first_highest(qcs, context, n)) by {
                assert forall|j: int|
                    0 <= j < qcs.len() && (#[trigger] qcs[j]).context == context implies qcs[j].view
                    <= last.view && (j < n ==> qcs[j].view < last.view) by {
                    if j < n {
                        assert(front[j].context == context);
                    }
                }
            }
        } else {
            assert(none_higher(s.high_qc, qcs, context)) by {
                assert forall|j: int|
                    0 <= j < qcs.len() && (#[trigger] qcs[j]).context == context implies s.high_qc is Some
                    && qcs[j].view <= s.high_qc->Some_0.view by {
                    if j < n {
                        assert(front[j].context == context);
                    }
                }
            }
        }
    } else {
        let k = choose|k: int|
            0 <= k < front.len() && (#[trigger] front[k]).context == context && !(s.high_qc is Some
                && front[k].view <= s.high_qc->Some_0.view);
        assert(qcs[k] == front[k]);
        assert(!none_higher(s.high_qc, qcs, context));
        let i = choose|i: int| #[trigger]
            is_first_highest(front, context, i) && mid.high_qc == Some(front[i]);
        if last.context == context && last.view > front[i].view {
            assert(is_first_highest(qcs, context, n)) by {
                assert forall|j: int|
                    0 <= j < qcs.len() && (#[trigger] qcs[j]).context == context implies qcs[j].view
                    <= last.view && (j < n ==> qcs[j].view < last.view) by {
                    if j < n {
                        assert(front[j].context == context);
                    }
                }
            }
        } else {
            assert(is_first_highest(qcs, context, i)) by {
                assert forall|j: int|
                    0 <= j < qcs.len() && (#[trigger] qcs[j]).context == context implies qcs[j].view
                    <= qcs[i].view && (j < i ==> qcs[j].view < qcs[i].view) by {
                    if j < n {
                        assert(front[j].context == context);
                    }
                }
            }
        }
    }
}

/// A state recovered from what was exported refuses the same blocks.
pub proof fn lemma_recovery_keeps_votes(
    s: SafetyView,
    exported: Seq<u64>,
    block: BlockView,
    local_app_hash: Hash32,
)
    requires
        exported.to_set() == s.voted,
        s.context is Some,
    ensures
        (SafetyView {
            voted: exported.to_set(),
            high_qc: s.high_qc,
            locked_qc: s.locked_qc,
            context: s.context,
        }).check(block, local_app_hash) == s.check(block, local_app_hash),
{
}

/// The position of a view in a list.
fn find_view(views: &Vec<u64>, view: u64) -> (r: bool)
    ensures
        r == views@.contains(view),
{
    let mut i: usize = 0;
    while i < views.len()
        invariant
            i <= views.len(),
            forall|k: int| 0 <= k < i ==> views[k] != view,
        decreases views.len() - i,
    {
        if views[i] == view {
            assert(views@[i as int] == view);
            return true;
        }
        i = i + 1;
    }
    false
}

/// The distinct views of a list.
fn collect_views(views: &Vec<u64>) -> (r: Vec<u64>)
    ensures
        r@.no_duplicates(),
        r@.to_set() == views@.to_set(),
        views@.no_duplicates() ==> r@ == views@,
{
    let mut r: Vec<u64> = Vec::new();
    let mut i: usize = 0;
    assert(views@.take(0) =~= Seq::empty());
    while i < views.len()
        invariant
            i <= views.len(),
            r@.no_duplicates(),
            r@.to_set() == views@.take(i as int).to_set(),
            views@.no_duplicates() ==> r@ == views@.take(i as int),
        decreases views.len() - i,
    {
        let v: u64 = views[i];
        let ghost before = r@;
        proof {
            assert(views@.take(i + 1) =~= views@.take(i as int).push(v));
            crate::bytes::lemma_push_set(views@.take(i as int), v);
            crate::bytes::lemma_push_set(before, v);
            assert(before.contains(v) <==> before.to_set().contains(v));
            assert(views@.take(i as int).contains(v) <==> views@.take(i as int).to_set().contains(v));
            if views@.no_duplicates() && views@.take(i as int).contains(v) {
                let k = choose|k: int| 0 <= k < i && views@.take(i as int)[k] == v;
                assert(views@[k] == views@[i as int]);
            }
        }
        if !find_view(&r, v) {
            r.push(v);
        } else {
            assert(before.to_set().insert(v) =~= before.to_set());
        }
        i = i + 1;
    }
    assert(views@.take(views@.len() as int) =~= views@);
    r
}

impl vstd::view::View for Safety {
    type V = SafetyView;

    closed spec fn view(&self) -> SafetyView {
        SafetyView {
            voted: self.voted_views@.to_set(),
            high_qc: option_certificate(self.high_qc),
            locked_qc: option_certificate(self.locked_qc),
            context: self.context,
        }
    }
}

impl Safety {
    /// No view is listed twice.
    pub closed spec fn wf(self) -> bool {
        self.voted_views@.no_duplicates()
    }

    /// Rules without votes, certificates or a context.
    pub fn new() -> (r: Self)
        ensures
            r.wf(),
            r@ == (SafetyView {
                voted: Set::empty(),
                high_qc: None,
                locked_qc: None,
                context: None,
            }),
    {
        let r = Safety { voted_views: Vec::new(), high_qc: None, locked_qc: None, context: None };
        assert(r.voted_views@.to_set() =~= Set::empty());
        r
    }

    /// Rules that are bound to a context.
    pub fn new_with_context(context: ConsensusContext) -> (r: Self)
        ensures
            r.wf(),
            r@ == (SafetyView {
                voted: Set::empty(),
                high_qc: None,
                locked_qc: None,
                context: Some(context),
            }),
    {
        let r = Safety {
            voted_views: Vec::new(),
            high_qc: None,
            locked_qc: None,
            context: Some(context),
        };
        assert(r.voted_views@.to_set() =~= Set::empty());
        r
    }

    /// Binds the rules to a context, unless they or a retained certificate
    /// belong to another one.
    pub fn set_context(&mut self, context: ConsensusContext) -> (r: Result<(), SafetyError>)
        requires
            old(self).wf(),
        ensures
            final(self).wf(),
            r is Ok ==> final(self)@ == (SafetyView { context: Some(context), ..old(self)@ }),
            r is Err ==> final(self)@ == old(self)@,
            r == (if old(self)@.context is Some && old(self)@.context->Some_0 != context {
                Err::<(), SafetyError>(
                    SafetyError::ContextMismatch {
                        expected: old(self)@.context->Some_0,
                        got: context,
                    },
                )
            } else if !qc_in(old(self)@.high_qc, context) || !qc_in(old(self)@.locked_qc, context) {
                Err(
                    SafetyError::ContextMismatch {
                        expected: context,
                        got: reported_context(old(self)@.high_qc, old(self)@.locked_qc, context),
                    },
                )
            } else {
                Ok(())
            }),
    {
        if let Some(existing) = self.context {
            if !existing.same_as(&context) {
                return Err(SafetyError::ContextMismatch { expected: existing, got: context });
            }
        }
        if clashes(&self.high_qc, &context) || clashes(&self.locked_qc, &context) {
            return Err(
                SafetyError::ContextMismatch {
                    expected: context,
                    got: first_context(&self.high_qc, &self.locked_qc, context),
                },
            );
        }
        self.context = Some(context);
        Ok(())
    }

    /// The context that the rules are bound to.
    pub fn context(&self) -> (r: Option<ConsensusContext>)
        ensures
            r == self@.context,
    {
        self.context
    }

    /// Rules with recovered votes and certificates, not bound to a context.
    pub fn with_state(
        high_qc: Option<Certificate>,
        locked_qc: Option<Certificate>,
        voted_views: &Vec<u64>,
    ) -> (r: Self)
        ensures
            r.wf(),
            r@ == (SafetyView {
                voted: voted_views@.to_set(),
                high_qc: option_certificate(high_qc),
                locked_qc: option_certificate(locked_qc),
                context: None,
            }),
    {
        Safety { voted_views: collect_views(voted_views), high_qc, locked_qc, context: None }
    }

    /// Rules with recovered votes and certificates of one context.
    pub fn with_state_for_context(
        context: ConsensusContext,
        high_qc: Option<Certificate>,
        locked_qc: Option<Certificate>,
        voted_views: &Vec<u64>,
    ) -> (r: Result<Self, SafetyError>)
        ensures
            match r {
                Ok(s) => {
                    &&& qc_in(option_certificate(high_qc), context)
                    &&& qc_in(option_certificate(locked_qc), context)
                    &&& s.wf()
                    &&& s@ == (SafetyView {
                        voted: voted_views@.to_set(),
                        high_qc: option_certificate(high_qc),
                        locked_qc: option_certificate(locked_qc),
                        context: Some(context),
                    })
                },
                Err(e) => {
                    &&& !(qc_in(option_certificate(high_qc), context) && qc_in(
                        option_certificate(locked_qc),
                        context,
                    ))
                    &&& e == (SafetyError::ContextMismatch {
                        expected: context,
                        got: reported_context(
                            option_certificate(high_qc),
                            option_certificate(locked_qc),
                            context,
                        ),
                    })
                },
            },
    {
        if clashes(&high_qc, &context) || clashes(&locked_qc, &context) {
            return Err(
                SafetyError::ContextMismatch {
                    expected: context,
                    got: first_context(&high_qc, &locked_qc, context),
                },
            );
        }
        Ok(
            Safety {
                voted_views: collect_views(voted_views),
                high_qc,
                locked_qc,
                context: Some(context),
            },
        )
    }

    /// Whether a block may be voted for, given the local application state.
    pub fn safe_to_vote(&self, block: &Block, local_app_hash: Hash32) -> (r: Result<(), SafetyError>)
        ensures
            r == self@.check(block@, local_app_hash),
    {
        if let Some(expected) = self.context {
            let got = block.context();
            if !got.same_as(&expected) {
                return Err(SafetyError::ContextMismatch { expected, got });
            }
            if clashes(&self.high_qc, &expected) || clashes(&self.locked_qc, &expected) {
                return Err(SafetyError::InconsistentContext);
            }
        }
        if find_view(&self.voted_views, block.view) {
            return Err(SafetyError::AlreadyVoted(block.view));
        }
        if let Some(high_qc) = &self.high_qc {
            if !hash_eq(&block.parent, &high_qc.block_hash) {
                return Err(
                    SafetyError::DoesNotExtendHighQC {
                        block_parent: block.parent,
                        high_qc_hash: high_qc.block_hash,
                    },
                );
            }
        }
        if let Some(locked_qc) = &self.locked_qc {
            let extends_locked = hash_eq(&block.parent, &locked_qc.block_hash);
            let higher_view = block.view > locked_qc.view;
            if !extends_locked && !higher_view {
                return Err(
                    SafetyError::ViolatesLocking {
                        block_view: block.view,
                        locked_view: locked_qc.view,
                    },
                );
            }
        }
        if !hash_eq(&block.app_hash, &local_app_hash) {
            return Err(
                SafetyError::AppHashMismatch { expected: local_app_hash, got: block.app_hash },
            );
        }
        Ok(())
    }

    /// Records a vote in a view.
    pub fn record_vote(&mut self, view: u64)
        requires
            old(self).wf(),
        ensures
            final(self).wf(),
            final(self)@ == old(self)@.after_vote(view),
    {
        let ghost before = self.voted_views@;
        proof {
            crate::bytes::lemma_push_set(before, view);
        }
        if !find_view(&self.voted_views, view) {
            self.voted_views.push(view);
        } else {
            assert(before.to_set().insert(view) =~= before.to_set());
        }
    }

    /// Offers a certificate as the highest one. A certificate of another
    /// context is ignored.
    pub fn update_high_qc(&mut self, qc: Certificate)
        requires
            old(self).wf(),
        ensures
            final(self).wf(),
            final(self)@ == old(self)@.after_high_qc(qc@),
    {
        if let Some(expected) = self.context {
            if !qc.context().same_as(&expected) {
                return ;
            }
        } else {
            self.context = Some(qc.context());
        }
        let raises = match &self.high_qc {
            Some(h) => qc.view > h.view,
            None => true,
        };
        if raises {
            self.high_qc = Some(qc);
        }
    }

    /// Offers a certificate as the locked one. A certificate of another
    /// context is ignored.
    pub fn update_locked_qc(&mut self, qc: Certificate)
        requires
            old(self).wf(),
        ensures
            final(self).wf(),
            final(self)@ == old(self)@.after_locked_qc(qc@),
    {
        if let Some(expected) = self.context {
            if !qc.context().same_as(&expected) {
                return ;
            }
        } else {
            self.context = Some(qc.context());
        }
        let raises = match &self.locked_qc {
            Some(l) => qc.view > l.view,
            None => true,
        };
        if raises {
            self.locked_qc = Some(qc);
        }
    }

    /// The highest certificate.
    pub fn high_qc(&self) -> (r: Option<&Certificate>)
        ensures
            match r {
                Some(qc) => self@.high_qc == Some(qc@),
                None => self@.high_qc is None,
            },
    {
        self.high_qc.as_ref()
    }

    /// The locked certificate.
    pub fn locked_qc(&self) -> (r: Option<&Certificate>)
        ensures
            match r {
                Some(qc) => self@.locked_qc == Some(qc@),
                None => self@.locked_qc is None,
            },
    {
        self.locked_qc.as_ref()
    }

    /// The view of the highest certificate, or zero.
    pub fn high_qc_view(&self) -> (r: u64)
        ensures
            r == self@.high_qc_view(),
    {
        match &self.high_qc {
            Some(qc) => qc.view,
            None => 0,
        }
    }

    /// Forgets votes in views below the given one.
    pub fn prune_votes_below(&mut self, view: u64)
        requires
            old(self).wf(),
        ensures
            final(self).wf(),
            final(self)@ == (SafetyView {
                voted: old(self)@.voted.filter(|v: u64| v >= view),
                ..old(self)@
            }),
    {
        let ghost before = self.voted_views@;
        let mut kept: Vec<u64> = Vec::new();
        let mut i: usize = 0;
        while i < self.voted_views.len()
            invariant
                i <= self.voted_views.len(),
                self.voted_views@ == before,
                *self == *old(self),
                before.no_duplicates(),
                kept@.no_duplicates(),
                forall|v: u64| kept@.contains(v) <==> before.take(i as int).contains(v) && v >= view,
            decreases self.voted_views.len() - i,
        {
            let v: u64 = self.voted_views[i];
            let ghost kept_before = kept@;
            proof {
                assert(before.take(i + 1) =~= before.take(i as int).push(v));
                assert(!before.take(i as int).contains(v)) by {
                    if before.take(i as int).contains(v) {
                        let k = choose|k: int| 0 <= k < i && before.take(i as int)[k] == v;
                        assert(before[k] == before[i as int]);
                    }
                }
                crate::bytes::lemma_push_set(before.take(i as int), v);
                crate::bytes::lemma_push_set(kept_before, v);
            }
            if v >= view {
                assert(!kept_before.contains(v));
                kept.push(v);
            }
            assert forall|x: u64| kept@.contains(x) <==> before.take(i + 1).contains(x) && x >= view by {
                assert(before.take(i + 1).contains(x) <==> before.take(i + 1).to_set().contains(x));
                assert(before.take(i as int).contains(x) <==> before.take(i as int).to_set().contains(
                    x,
                ));
                assert(kept_before.push(v).contains(x) <==> kept_before.push(v).to_set().contains(x));
                assert(kept_before.contains(x) <==> kept_before.to_set().contains(x));
            }
            i = i + 1;
        }
        assert(before.take(before.len() as int) =~= before);
        assert(kept@.to_set() =~= before.to_set().filter(|v: u64| v >= view));
        self.voted_views = kept;
    }

    /// The views that were voted in, each once.
    pub fn voted_views(&self) -> (r: Vec<u64>)
        requires
            self.wf(),
        ensures
            r@.no_duplicates(),
            r@.to_set() == self@.voted,
    {
        collect_views(&self.voted_views)
    }
}

/// Whether a certificate belongs to another context.
fn clashes(qc: &Option<Certificate>, context: &ConsensusContext) -> (r: bool)
    ensures
        r == !qc_in(option_certificate(*qc), *context),
{
    match qc {
        Some(c) => !c.context().same_as(context),
        None => false,
    }
}

/// The context of the first certificate that is present.
fn first_context(high_qc: &Option<Certificate>, locked_qc: &Option<Certificate>, context: ConsensusContext) -> (r:
    ConsensusContext)
    ensures
        r == reported_context(option_certificate(*high_qc), option_certificate(*locked_qc), context),
{
    match (high_qc, locked_qc) {
        (Some(c), _) => c.context(),
        (None, Some(c)) => c.context(),
        (None, None) => context,
    }
}

impl Clone for Safety {
    fn clone(&self) -> (r: Self)
        ensures
            r@ == self@,
            r.wf(),
    {
        Safety {
            voted_views: collect_views(&self.voted_views),
            high_qc: copy_option_certificate(&self.high_qc),
            locked_qc: copy_option_certificate(&self.locked_qc),
            context: self.context,
        }
    }
}

impl Default for Safety {
    fn default() -> (r: Self)
        ensures
            r.wf(),
            r@ == (SafetyView {
                voted: Set::empty(),
                high_qc: None,
                locked_qc: None,
                context: None,
            }),
    {
        Safety::new()
    }
}

/// Who gets a vote: exactly a block of the bound context, in a view without a
/// vote, on the block of the highest certificate, that builds on the locked block
/// or is of a later view than the lock, with the local application state.
pub proof fn lemma_vote_rule(s: SafetyView, block: BlockView, local_app_hash: Hash32)
    ensures
        s.check(block, local_app_hash) is Ok <==> {
            &&& s.context matches Some(c) ==> block.context == c
            &&& s.context matches Some(c) ==> (s.high_qc matches Some(qc) ==> qc.context == c) && (
            s.locked_qc matches Some(qc) ==> qc.context == c)
            &&& !s.voted.contains(block.view)
            &&& s.high_qc matches Some(qc) ==> block.parent == qc.block_hash
            &&& s.locked_qc matches Some(qc) ==> block.parent == qc.block_hash || block.view
                > qc.view
            &&& block.app_hash == local_app_hash
        },
{
}

/// A lock never stands in the way of later views: a block that may be voted for
/// in some view may be voted for in every later one without a vote.
pub proof fn lemma_lock_lets_later_views_pass(
    s: SafetyView,
    block: BlockView,
    later: BlockView,
    local_app_hash: Hash32,
)
    requires
        s.check(block, local_app_hash) is Ok,
        later == (BlockView { view: later.view, ..block }),
        later.view >= block.view,
        !s.voted.contains(later.view),
    ensures
        s.check(later, local_app_hash) is Ok,
{
}

/// What a refusal says is so: the views, blocks, states and contexts that it
/// names are those of the block and of the voting rules.
pub proof fn lemma_refusal_names_its_cause(s: SafetyView, block: BlockView, local_app_hash: Hash32)
    ensures
        match s.check(block, local_app_hash) {
            Ok(()) => true,
            Err(SafetyError::AlreadyVoted(view)) => view == block.view && s.voted.contains(view),
            Err(SafetyError::DoesNotExtendHighQC { block_parent, high_qc_hash }) => {
                &&& block_parent == block.parent
                &&& s.high_qc matches Some(qc) && qc.block_hash == high_qc_hash
                &&& block_parent != high_qc_hash
            },
            Err(SafetyError::ViolatesLocking { block_view, locked_view }) => {
                &&& block_view == block.view
                &&& s.locked_qc matches Some(qc) && qc.view == locked_view && qc.block_hash
                    != block.parent
                &&& block_view <= locked_view
            },
            Err(SafetyError::AppHashMismatch { expected, got }) => {
                expected == local_app_hash && got == block.app_hash && expected != got
            },
            Err(SafetyError::ContextMismatch { expected, got }) => {
                s.context == Some(expected) && got == block.context && expected != got
            },
            Err(SafetyError::InconsistentContext) => s.context matches Some(c) && ((
            s.high_qc matches Some(qc) && qc.context != c) || (s.locked_qc matches Some(qc)
                && qc.context != c)),
        },
{
}

/// Certificates only ever raise the views that are held, and exactly the higher
/// one is held afterwards; the two certificates do not touch each other.
pub proof fn lemma_higher_certificate_held(s: SafetyView, qc: CertificateView)
    ensures
        ({
            let after = s.after_high_qc(qc);
            let other = s.context matches Some(c) && c != qc.context;
            &&& other ==> after == s
            &&& !other ==> after.context == Some(qc.context)
            &&& !other && (s.high_qc matches Some(h) ==> h.view < qc.view) ==> after.high_qc == Some(
                qc,
            )
            &&& (s.high_qc matches Some(h) && h.view >= qc.view) ==> after.high_qc == s.high_qc
            &&& after.locked_qc == s.locked_qc
            &&& after.voted == s.voted
        }),
        ({
            let after = s.after_locked_qc(qc);
            let other = s.context matches Some(c) && c != qc.context;
            &&& other ==> after == s
            &&& !other ==> after.context == Some(qc.context)
            &&& !other && (s.locked_qc matches Some(h) ==> h.view < qc.view) ==> after.locked_qc
                == Some(qc)
            &&& (s.locked_qc matches Some(h) && h.view >= qc.view) ==> after.locked_qc == s.locked_qc
            &&& after.high_qc == s.high_qc
            &&& after.voted == s.voted
        }),
        s.high_qc_view() == (match s.high_qc {
            Some(h) => h.view,
            None => 0,
        }),
{
}

/// A vote bars the view that it was cast in, and no other.
pub proof fn lemma_vote_bars_its_view(s: SafetyView, view: u64, other: u64)
    ensures
        s.after_vote(view).voted.contains(other) <==> other == view || s.voted.contains(other),
        s.after_vote(view).high_qc == s.high_qc,
        s.after_vote(view).locked_qc == s.locked_qc,
        s.after_vote(view).context == s.context,
{
}

/// A clash of retained certificates is reported with the context of the highest one, or
/// else of the locked one.
pub proof fn lemma_reported_context(
    high_qc: Option<CertificateView>,
    locked_qc: Option<CertificateView>,
    context: ConsensusContext,
)
    ensures
        high_qc matches Some(qc) ==> reported_context(high_qc, locked_qc, context) == qc.context,
        high_qc is None ==> (locked_qc matches Some(qc) ==> reported_context(
            high_qc,
            locked_qc,
            context,
        ) == qc.context),
        high_qc is None && locked_qc is None ==> reported_context(high_qc, locked_qc, context)
            == context,
        qc_in(high_qc, context) <==> (high_qc matches Some(qc) ==> qc.context == context),
{
}

} // verus!
