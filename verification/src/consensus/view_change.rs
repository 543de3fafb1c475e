//! Collection and verification of view changes.

use vstd::prelude::*;

use crate::bytes::{hash_eq, NodeId};
use crate::consensus::timeout::{all_keyed, collect_keys, committee_keys, key_map, KeyTable};
use crate::crypto::{
    bls_signature, bls_signature_decodes, bls_verifies, signature_decodes, signature_verifies,
    BlsSecretKey,
};
use crate::table::{keys_from, Table};
use crate::types::certificate::{option_certificate, Certificate};
use crate::types::committee::{
    is_quorum, member_of, members_hash, quorum_check, valid_signers, Committee, MemberView,
};
use crate::types::context::ConsensusContext;
use crate::types::messages::{
    copy_view_changes, find_highest_qc, highest_qc_of, view_change_message, view_change_views,
    ViewChange, ViewChangeCertificate, ViewChangeCertificateView, ViewChangeView,
};

verus! {

/// How far ahead of the current view a view change may reach.
pub const MAX_FUTURE_VIEWS: u64 = 100;

/// Why a view change or its certificate is refused.
#[derive(Clone, Copy, Debug, PartialEq, Eq)]
pub enum ViewChangeError {
    /// It belongs to another context, or the context to another committee.
    ContextMismatch,
    /// It does not lead to a later view.
    NotForward,
    /// It reaches too far ahead.
    TooFarAhead,
    /// The sender is not a member with a key.
    UnknownSender,
    /// The signature does not decode or does not verify.
    InvalidSignature,
    /// A view change leads to another view than the certificate.
    ViewMismatch,
    /// The senders are not distinct members with enough voting power.
    NoQuorum,
    /// A member of the committee has no usable key.
    MissingKeys,
}

/// A view within reach of the current one.
pub open spec fn within_reach(to_view: u64, current_view: u64) -> bool {
    to_view <= current_view + MAX_FUTURE_VIEWS
}

/// Checks that a view change does not reach too far ahead.
pub fn validate_view_change_bounds(vc: &ViewChange, current_view: u64) -> (r: Result<(), ViewChangeError>)
    ensures
        r is Ok <==> within_reach(vc.to_view, current_view),
        r is Err ==> r == Err::<(), ViewChangeError>(ViewChangeError::TooFarAhead),
{
    if vc.to_view > current_view && vc.to_view - current_view > MAX_FUTURE_VIEWS {
        Err(ViewChangeError::TooFarAhead)
    } else {
        Ok(())
    }
}

/// The message that a view change's signature is on.
pub open spec fn message_of(vc: ViewChangeView) -> Seq<u8> {
    view_change_message(vc.context, vc.from_view, vc.to_view, vc.high_qc, vc.sender)
}

/// A signed view change of a context.
pub fn create_signed_view_change_with_context(
    context: ConsensusContext,
    from_view: u64,
    to_view: u64,
    high_qc: Option<Certificate>,
    sender: NodeId,
    bls_sk: &BlsSecretKey,
) -> (r: ViewChange)
    ensures
        r@ == (ViewChangeView {
            context,
            from_view,
            to_view,
            high_qc: option_certificate(high_qc),
            sender,
            signature: bls_signature(
                bls_sk.seed()@,
                view_change_message(
                    context,
                    from_view,
                    to_view,
                    option_certificate(high_qc),
                    sender,
                ),
            ),
        }),
{
    let mut vc = ViewChange {
        epoch: context.epoch,
        committee_hash: context.committee_hash,
        genesis_hash: context.genesis_hash,
        from_view,
        to_view,
        high_qc,
        sender,
        signature: Vec::new(),
    };
    let message = vc.signing_data();
    vc.signature = bls_sk.sign(&message);
    vc
}

/// The first fault of a view change.
pub open spec fn view_change_fault(
    vc: ViewChangeView,
    members: Seq<MemberView>,
    context: ConsensusContext,
    current_view: u64,
) -> Option<ViewChangeError> {
    let member = member_of(members, vc.sender);
    if context.committee_hash != members_hash(members) || vc.context != context {
        Some(ViewChangeError::ContextMismatch)
    } else if vc.to_view <= vc.from_view {
        Some(ViewChangeError::NotForward)
    } else if !within_reach(vc.to_view, current_view) {
        Some(ViewChangeError::TooFarAhead)
    } else if member is None || member->Some_0.bls_pubkey is None {
        Some(ViewChangeError::UnknownSender)
    } else if vc.signature.len() != 96 || !bls_signature_decodes(vc.signature) || !bls_verifies(
        member->Some_0.bls_pubkey->Some_0,
        message_of(vc),
        vc.signature,
    ) {
        Some(ViewChangeError::InvalidSignature)
    } else {
        None
    }
}

/// Verifies a view change against the committee and the expected context.
pub fn validate_view_change_with_committee_and_context(
    vc: &ViewChange,
    committee: &Committee,
    context: ConsensusContext,
    current_view: u64,
) -> (r: Result<(), ViewChangeError>)
    ensures
        match r {
            Ok(()) => view_change_fault(vc@, committee.members_view(), context, current_view) is None,
            Err(e) => view_change_fault(vc@, committee.members_view(), context, current_view) == Some(e),
        },
{
    if committee.validate_context(context).is_err() || vc.validate_context(context).is_err() {
        return Err(ViewChangeError::ContextMismatch);
    }
    if vc.to_view <= vc.from_view {
        return Err(ViewChangeError::NotForward);
    }
    if let Err(e) = validate_view_change_bounds(vc, current_view) {
        return Err(e);
    }
    let key = match committee.bls_pubkey(&vc.sender) {
        Some(k) => k,
        None => {
            return Err(ViewChangeError::UnknownSender);
        },
    };
    if vc.signature.len() != 96 || !signature_decodes(&vc.signature) {
        return Err(ViewChangeError::InvalidSignature);
    }
    let message = vc.signing_data();
    if !signature_verifies(key, &message, &vc.signature) {
        return Err(ViewChangeError::InvalidSignature);
    }
    Ok(())
}

/// The senders of view changes.
pub open spec fn change_senders(list: Seq<ViewChangeView>) -> Seq<NodeId> {
    list.map_values(|v: ViewChangeView| v.sender)
}

/// Copies the senders of view changes.
fn collect_change_senders(list: &Vec<ViewChange>) -> (r: Vec<NodeId>)
    ensures
        r@ == change_senders(view_change_views(list@)),
{
    let mut r: Vec<NodeId> = Vec::new();
    let mut i: usize = 0;
    while i < list.len()
        invariant
            i <= list.len(),
            r.len() == i,
            forall|k: int| 0 <= k < i ==> #[trigger] r[k] == list[k].sender,
        decreases list.len() - i,
    {
        r.push(list[i].sender);
        i = i + 1;
    }
    assert(r@ =~= change_senders(view_change_views(list@)));
    r
}

/// The first fault among the view changes of a certificate, from a position
/// on.
pub open spec fn changes_fault(
    list: Seq<ViewChangeView>,
    view: u64,
    members: Seq<MemberView>,
    context: ConsensusContext,
    current_view: u64,
    i: int,
) -> Option<ViewChangeError>
    decreases list.len() - i,
{
    if i < 0 || i >= list.len() {
        None
    } else if view_change_fault(list[i], members, context, current_view) is Some {
        view_change_fault(list[i], members, context, current_view)
    } else if list[i].to_view != view {
        Some(ViewChangeError::ViewMismatch)
    } else {
        changes_fault(list, view, members, context, current_view, i + 1)
    }
}

/// The first fault of a view-change certificate.
pub open spec fn certificate_fault(
    vcc: ViewChangeCertificateView,
    members: Seq<MemberView>,
    context: ConsensusContext,
    current_view: u64,
) -> Option<ViewChangeError> {
    if context.committee_hash != members_hash(members) || vcc.context != context {
        Some(ViewChangeError::ContextMismatch)
    } else if changes_fault(vcc.view_changes, vcc.view, members, context, current_view, 0) is Some {
        changes_fault(vcc.view_changes, vcc.view, members, context, current_view, 0)
    } else if quorum_check(members, change_senders(vcc.view_changes)) != Ok::<
        bool,
        crate::types::committee::QuorumError,
    >(true) {
        Some(ViewChangeError::NoQuorum)
    } else {
        None
    }
}

/// A verified certificate holds view changes to its view by distinct members
/// with strictly more than two thirds of the voting power.
pub proof fn lemma_view_change_quorum(
    vcc: ViewChangeCertificateView,
    members: Seq<MemberView>,
    context: ConsensusContext,
    current_view: u64,
)
    requires
        certificate_fault(vcc, members, context, current_view) is None,
    ensures
        is_quorum(members, change_senders(vcc.view_changes).to_set()),
        valid_signers(members, change_senders(vcc.view_changes)),
{
    crate::types::committee::lemma_signer_check(
        members,
        change_senders(vcc.view_changes),
        0,
    );
}

/// Verifies a view-change certificate against the committee and the expected
/// context.
pub fn validate_view_change_certificate_with_committee_and_context(
    vcc: &ViewChangeCertificate,
    committee: &Committee,
    context: ConsensusContext,
    current_view: u64,
) -> (r: Result<(), ViewChangeError>)
    ensures
        match r {
            Ok(()) => certificate_fault(vcc@, committee.members_view(), context, current_view) is None,
            Err(e) => certificate_fault(vcc@, committee.members_view(), context, current_view) == Some(e),
        },
{
    if committee.validate_context(context).is_err() || !vcc.context().same_as(&context) {
        return Err(ViewChangeError::ContextMismatch);
    }
    let ghost vs = vcc@.view_changes;
    let mut i: usize = 0;
    while i < vcc.view_changes.len()
        invariant
            i <= vcc.view_changes.len(),
            vs == vcc@.view_changes,
            context.committee_hash == committee.committee_hash(),
            vcc@.context == context,
            changes_fault(vs, vcc@.view, committee.members_view(), context, current_view, 0) == changes_fault(
                vs,
                vcc@.view,
                committee.members_view(),
                context,
                current_view,
                i as int,
            ),
        decreases vcc.view_changes.len() - i,
    {
        let vc = &vcc.view_changes[i];
        assert(vs[i as int] == vc@);
        if let Err(e) = validate_view_change_with_committee_and_context(
            vc,
            committee,
            context,
            current_view,
        ) {
            return Err(e);
        }
        if vc.to_view != vcc.view {
            return Err(ViewChangeError::ViewMismatch);
        }
        i = i + 1;
    }
    let senders = collect_change_senders(&vcc.view_changes);
    match committee.has_weighted_quorum(&senders) {
        Ok(true) => Ok(()),
        _ => Err(ViewChangeError::NoQuorum),
    }
}

/// Collects the view changes to each view.
pub struct ViewChangeCollector {
    view_changes: Table<u64, Vec<ViewChange>>,
    quorum: usize,
    keys: KeyTable,
    committee: Option<Committee>,
    context: Option<ConsensusContext>,
}

/// The contents of a collector. View changes are listed in the order in which
/// they came.
pub ghost struct ViewChangesView {
    pub view_changes: Map<u64, Seq<ViewChangeView>>,
    pub quorum: usize,
    pub keys: Map<NodeId, Seq<u8>>,
    pub members: Option<Seq<MemberView>>,
    pub context: Option<ConsensusContext>,
}

/// The view changes of a table, by view.
pub open spec fn change_map(m: Map<u64, Vec<ViewChange>>) -> Map<u64, Seq<ViewChangeView>> {
    Map::new(|k: u64| m.contains_key(k), |k: u64| view_change_views(m[k]@))
}

impl ViewChangesView {
    /// The view changes to a view.
    pub open spec fn to(self, view: u64) -> Seq<ViewChangeView> {
        if self.view_changes.contains_key(view) {
            self.view_changes[view]
        } else {
            Seq::empty()
        }
    }

    /// The view change is of the bound context, if any; its signature verifies
    /// if keys are known; and its sender has not asked for the view before.
    pub open spec fn collects(self, vc: ViewChangeView) -> bool {
        &&& self.context is Some ==> self.context->Some_0 == vc.context
        &&& self.keys.dom() =~= Set::empty() || {
            &&& self.keys.contains_key(vc.sender)
            &&& vc.signature.len() == 96
            &&& bls_signature_decodes(vc.signature)
            &&& bls_verifies(self.keys[vc.sender], message_of(vc), vc.signature)
        }
        &&& !change_senders(self.to(vc.to_view)).contains(vc.sender)
    }

    /// The collector after a view change came.
    pub open spec fn after(self, vc: ViewChangeView) -> ViewChangesView {
        if self.collects(vc) {
            ViewChangesView {
                context: Some(vc.context),
                view_changes: self.view_changes.insert(vc.to_view, self.to(vc.to_view).push(vc)),
                ..self
            }
        } else {
            self
        }
    }

    /// The senders suffice: in weight where there is a committee, else in
    /// number.
    pub open spec fn reached(self, list: Seq<ViewChangeView>) -> bool {
        match self.members {
            Some(m) => quorum_check(m, change_senders(list)) == Ok::<
                bool,
                crate::types::committee::QuorumError,
            >(true),
            None => list.len() >= self.quorum,
        }
    }

    /// The certificate that a view change completes.
    pub open spec fn result(self, vc: ViewChangeView) -> Option<ViewChangeCertificateView> {
        let list = self.to(vc.to_view).push(vc);
        if self.collects(vc) && self.reached(list) {
            Some(
                ViewChangeCertificateView {
                    context: vc.context,
                    view: vc.to_view,
                    view_changes: list,
                },
            )
        } else {
            None
        }
    }

    /// The collector without the view changes to views below the given one.
    pub open spec fn pruned(self, view: u64) -> ViewChangesView {
        ViewChangesView {
            view_changes: self.view_changes.restrict(Set::new(keys_from::<u64>(view))),
            ..self
        }
    }
}

impl vstd::view::View for ViewChangeCollector {
    type V = ViewChangesView;

    closed spec fn view(&self) -> ViewChangesView {
        ViewChangesView {
            view_changes: change_map(self.view_changes.map()),
            quorum: self.quorum,
            keys: key_map(self.keys.map()),
            members: match self.committee {
                Some(c) => Some(c.members_view()),
                None => None,
            },
            context: self.context,
        }
    }
}

/// The contents of an optional view-change certificate.
pub open spec fn option_vcc(o: Option<ViewChangeCertificate>) -> Option<ViewChangeCertificateView> {
    match o {
        Some(c) => Some(c@),
        None => None,
    }
}

impl ViewChangeCollector {
    /// No view and no validator is listed twice.
    pub closed spec fn wf(self) -> bool {
        self.view_changes.wf() && self.keys.wf()
    }

    /// A collector that counts view changes without verifying them.
    pub fn new(quorum: usize) -> (r: Self)
        ensures
            r.wf(),
            r@ == (ViewChangesView {
                view_changes: Map::empty(),
                quorum,
                keys: Map::empty(),
                members: None,
                context: None,
            }),
    {
        let keys: KeyTable = Table::new();
        assert(key_map(keys.map()) =~= Map::empty());
        ViewChangeCollector::with_validators(quorum, keys)
    }

    /// A collector that counts view changes and verifies them against known
    /// keys.
    pub fn with_validators(quorum: usize, keys: KeyTable) -> (r: Self)
        requires
            keys.wf(),
        ensures
            r.wf(),
            r@ == (ViewChangesView {
                view_changes: Map::empty(),
                quorum,
                keys: key_map(keys.map()),
                members: None,
                context: None,
            }),
    {
        let r = ViewChangeCollector {
            view_changes: Table::new(),
            quorum,
            keys,
            committee: None,
            context: None,
        };
        assert(change_map(r.view_changes.map()) =~= Map::empty());
        r
    }

    /// A collector that weighs view changes by a committee.
    pub fn with_committee_and_context(committee: Committee, context: ConsensusContext) -> (r: Result<
        Self,
        ViewChangeError,
    >)
        ensures
            match r {
                Ok(c) => context.committee_hash == committee.committee_hash() && all_keyed(
                    committee.members_view(),
                ) && c.wf() && c@ == (ViewChangesView {
                    view_changes: Map::empty(),
                    quorum: 0,
                    keys: committee_keys(committee.members_view()),
                    members: Some(committee.members_view()),
                    context: Some(context),
                }),
                Err(e) => if context.committee_hash != committee.committee_hash() {
                    e == ViewChangeError::ContextMismatch
                } else {
                    e == ViewChangeError::MissingKeys && !all_keyed(committee.members_view())
                },
            },
    {
        if committee.validate_context(context).is_err() {
            return Err(ViewChangeError::ContextMismatch);
        }
        match collect_keys(&committee) {
            Some(keys) => {
                let r = ViewChangeCollector {
                    view_changes: Table::new(),
                    quorum: 0,
                    keys,
                    committee: Some(committee),
                    context: Some(context),
                };
                assert(change_map(r.view_changes.map()) =~= Map::empty());
                Ok(r)
            },
            None => Err(ViewChangeError::MissingKeys),
        }
    }

    /// Takes a view change, and returns the certificate that it completes.
    pub fn add(&mut self, vc: ViewChange) -> (r: Option<ViewChangeCertificate>)
        requires
            old(self).wf(),
        ensures
            final(self).wf(),
            final(self)@ == old(self)@.after(vc@),
            option_vcc(r) == old(self)@.result(vc@),
    {
        if let Some(expected) = self.context {
            if !vc.context().same_as(&expected) {
                return None;
            }
        }
        proof {
            crate::table::lemma_rows_len(self.keys.rows());
            assert(key_map(self.keys.map()).dom() =~= self.keys.map().dom());
            if self.keys.rows().len() == 0 {
                assert(self.keys.map().dom() =~= Set::empty());
            }
        }
        if self.keys.len() != 0 {
            let valid = match self.keys.get(&vc.sender) {
                Some(key) => vc.signature.len() == 96 && signature_decodes(&vc.signature)
                    && signature_verifies(key, &vc.signing_data(), &vc.signature),
                None => false,
            };
            if !valid {
                return None;
            }
        }
        let view: u64 = vc.to_view;
        let context = vc.context();
        let ghost v = vc@;
        let ghost before = self.view_changes.map();
        let ghost earlier = self@.to(view);
        let ghost all = earlier.push(v);
        let i: usize = match self.view_changes.find(&view) {
            Some(i) => {
                if has_change_sender(self.view_changes.value_at(i), &vc.sender) {
                    return None;
                }
                let list = self.view_changes.value_mut(i);
                list.push(vc);
                assert(view_change_views(list@) =~= all);
                i
            },
            None => {
                assert(change_senders(earlier) =~= Seq::empty());
                let i = self.view_changes.len();
                let mut list: Vec<ViewChange> = Vec::new();
                list.push(vc);
                assert(view_change_views(list@) =~= all);
                self.view_changes.push_new(view, list);
                i
            },
        };
        self.context = Some(context);
        proof {
            crate::table::lemma_row(self.view_changes.rows(), i as int);
            assert(change_map(self.view_changes.map()) =~= change_map(before).insert(view, all));
        }
        let reached = match &self.committee {
            Some(committee) => {
                let senders = collect_change_senders(self.view_changes.value_at(i));
                match committee.has_weighted_quorum(&senders) {
                    Ok(b) => b,
                    Err(_) => false,
                }
            },
            None => self.view_changes.value_at(i).len() >= self.quorum,
        };
        if reached {
            Some(
                ViewChangeCertificate {
                    epoch: context.epoch,
                    committee_hash: context.committee_hash,
                    genesis_hash: context.genesis_hash,
                    view,
                    view_changes: copy_view_changes(self.view_changes.value_at(i)),
                },
            )
        } else {
            None
        }
    }

    /// The certificate of the highest view among the view changes to a view.
    pub fn highest_qc(&self, view: u64) -> (r: Option<Certificate>)
        requires
            self.wf(),
        ensures
            option_certificate(r) == highest_qc_of(self@.to(view)),
    {
        match self.view_changes.get(&view) {
            Some(list) => find_highest_qc(list),
            None => None,
        }
    }

    /// Forgets view changes to views below the given one.
    pub fn prune_below(&mut self, view: u64)
        requires
            old(self).wf(),
        ensures
            final(self).wf(),
            final(self)@ == old(self)@.pruned(view),
    {
        let ghost before = self.view_changes.map();
        self.view_changes.retain_from(view);
        assert(change_map(before.restrict(Set::new(keys_from::<u64>(view)))) =~= change_map(
            before,
        ).restrict(Set::new(keys_from::<u64>(view))));
    }

    /// Forgets all view changes.
    pub fn clear(&mut self)
        requires
            old(self).wf(),
        ensures
            final(self).wf(),
            final(self)@ == (ViewChangesView { view_changes: Map::empty(), ..old(self)@ }),
    {
        self.view_changes.clear();
        assert(change_map(self.view_changes.map()) =~= Map::empty());
    }
}

/// Whether a sender is among the view changes.
fn has_change_sender(list: &Vec<ViewChange>, sender: &NodeId) -> (r: bool)
    ensures
        r == change_senders(view_change_views(list@)).contains(*sender),
{
    let ghost ss = change_senders(view_change_views(list@));
    let mut i: usize = 0;
    while i < list.len()
        invariant
            i <= list.len(),
            ss == change_senders(view_change_views(list@)),
            forall|k: int| 0 <= k < i ==> ss[k] != *sender,
        decreases list.len() - i,
    {
        assert(ss[i as int] == list[i as int].sender);
        if hash_eq(&list[i].sender, sender) {
            return true;
        }
        i = i + 1;
    }
    false
}

/// A view change is in order exactly if it is of the context of this committee,
/// moves forward, by at most a hundred views from the current one, and is signed by
/// the key of a member.
pub proof fn lemma_view_change_in_order(
    vc: ViewChangeView,
    members: Seq<MemberView>,
    context: ConsensusContext,
    current_view: u64,
)
    ensures
        view_change_fault(vc, members, context, current_view) is None <==> {
            &&& context.committee_hash == members_hash(members)
            &&& vc.context == context
            &&& vc.from_view < vc.to_view
            &&& vc.to_view - current_view <= 100
            &&& member_of(members, vc.sender) matches Some(m) && (m.bls_pubkey matches Some(k)
                && bls_verifies(
                k,
                view_change_message(context, vc.from_view, vc.to_view, vc.high_qc, vc.sender),
                vc.signature,
            ))
            &&& vc.signature.len() == 96
            &&& bls_signature_decodes(vc.signature)
        },
{
}

/// A certificate of view changes is in order exactly if all of them are, lead to
/// its view, and come from distinct members with strictly more than two thirds of
/// the voting power.
pub proof fn lemma_view_change_certificate_in_order(
    vcc: ViewChangeCertificateView,
    members: Seq<MemberView>,
    context: ConsensusContext,
    current_view: u64,
)
    ensures
        certificate_fault(vcc, members, context, current_view) is None <==> {
            let list = vcc.view_changes;
            &&& context.committee_hash == members_hash(members)
            &&& vcc.context == context
            &&& forall|i: int|
                0 <= i < list.len() ==> view_change_fault(
                    #[trigger] list[i],
                    members,
                    context,
                    current_view,
                ) is None && list[i].to_view == vcc.view
            &&& valid_signers(members, change_senders(list))
            &&& 3 * crate::types::committee::power_of(members, change_senders(list).to_set()) > 2
                * crate::types::committee::total_power(members)
        },
{
    crate::types::committee::lemma_signers_make_quorum(members, change_senders(vcc.view_changes));
    lemma_changes_from(vcc.view_changes, vcc.view, members, context, current_view, 0);
}

/// The view changes from a position on are in order exactly if each of them is.
proof fn lemma_changes_from(
    list: Seq<ViewChangeView>,
    view: u64,
    members: Seq<MemberView>,
    context: ConsensusContext,
    current_view: u64,
    i: int,
)
    requires
        0 <= i <= list.len(),
    ensures
        changes_fault(list, view, members, context, current_view, i) is None <==> (forall|k: int|
            i <= k < list.len() ==> view_change_fault(
                #[trigger] list[k],
                members,
                context,
                current_view,
            ) is None && list[k].to_view == view),
    decreases list.len() - i,
{
    if i < list.len() {
        lemma_changes_from(list, view, members, context, current_view, i + 1);
    }
}

/// A view change is collected exactly if it is of the context, the first of its
/// sender to that view and, where keys are known, signed by a known sender's key.
/// It then comes last among those to its view, and no others change.
pub proof fn lemma_view_change_collected(c: ViewChangesView, vc: ViewChangeView, view: u64)
    ensures
        ({
            let collected = {
                &&& c.context matches Some(bound) ==> vc.context == bound
                &&& forall|i: int|
                    0 <= i < c.to(vc.to_view).len() ==> (#[trigger] c.to(vc.to_view)[i]).sender
                        != vc.sender
                &&& (exists|id: NodeId| c.keys.contains_key(id)) ==> c.keys.contains_key(vc.sender)
                    && vc.signature.len() == 96 && bls_signature_decodes(vc.signature)
                    && bls_verifies(
                    c.keys[vc.sender],
                    view_change_message(
                        vc.context,
                        vc.from_view,
                        vc.to_view,
                        vc.high_qc,
                        vc.sender,
                    ),
                    vc.signature,
                )
            };
            &&& c.collects(vc) <==> collected
            &&& collected ==> c.after(vc).to(vc.to_view) == c.to(vc.to_view).push(vc)
                && c.after(vc).context == Some(vc.context)
            &&& !collected ==> c.after(vc) == c
            &&& view != vc.to_view ==> c.after(vc).to(view) == c.to(view)
        }),
{
    let senders = change_senders(c.to(vc.to_view));
    if senders.contains(vc.sender) {
        let i = choose|i: int| 0 <= i < senders.len() && senders[i] == vc.sender;
        assert(c.to(vc.to_view)[i].sender == vc.sender);
    } else {
        assert forall|i: int| 0 <= i < c.to(vc.to_view).len() implies (
        #[trigger] c.to(vc.to_view)[i]).sender != vc.sender by {
            assert(senders[i] == c.to(vc.to_view)[i].sender);
        }
    }
    if exists|id: NodeId| c.keys.contains_key(id) {
        let id = choose|id: NodeId| c.keys.contains_key(id);
        assert(c.keys.dom().contains(id));
        assert(!(c.keys.dom() =~= Set::empty()));
    } else {
        assert(c.keys.dom() =~= Set::empty());
    }
}

/// A certificate comes with exactly the view change that completes a quorum: of the
/// voting power where there is a committee, else of the number asked for. It holds
/// all that were collected to its view, in order.
pub proof fn lemma_view_changes_certified(c: ViewChangesView, vc: ViewChangeView)
    ensures
        ({
            let list = c.to(vc.to_view).push(vc);
            &&& c.result(vc) is Some <==> c.collects(vc) && (match c.members {
                Some(m) => valid_signers(m, change_senders(list)) && 3
                    * crate::types::committee::power_of(m, change_senders(list).to_set()) > 2
                    * crate::types::committee::total_power(m),
                None => list.len() >= c.quorum,
            })
            &&& c.result(vc) matches Some(vcc) ==> vcc.context == vc.context && vcc.view
                == vc.to_view && vcc.view_changes == list
        }),
{
    let list = c.to(vc.to_view).push(vc);
    if let Some(m) = c.members {
        crate::types::committee::lemma_signers_make_quorum(m, change_senders(list));
    }
}

/// Pruning drops exactly the view changes to views below the given one.
pub proof fn lemma_old_view_changes_dropped(c: ViewChangesView, view: u64, other: u64)
    ensures
        other < view ==> c.pruned(view).to(other).len() == 0,
        other >= view ==> c.pruned(view).to(other) == c.to(other),
{
}

/// What the refusal of a view change says of it is so.
pub proof fn lemma_view_change_refusal(
    vc: ViewChangeView,
    members: Seq<MemberView>,
    context: ConsensusContext,
    current_view: u64,
)
    ensures
        match view_change_fault(vc, members, context, current_view) {
            None => true,
            Some(ViewChangeError::ContextMismatch) => vc.context != context || context.committee_hash
                != members_hash(members),
            Some(ViewChangeError::NotForward) => vc.to_view <= vc.from_view,
            Some(ViewChangeError::TooFarAhead) => vc.to_view > current_view + 100,
            Some(ViewChangeError::UnknownSender) => !(member_of(members, vc.sender) matches Some(m)
                && m.bls_pubkey is Some),
            Some(ViewChangeError::InvalidSignature) => !(vc.signature.len() == 96
                && bls_signature_decodes(vc.signature) && (member_of(members, vc.sender) matches Some(
                m,
            ) && bls_verifies(
                m.bls_pubkey->Some_0,
                view_change_message(
                    vc.context,
                    vc.from_view,
                    vc.to_view,
                    vc.high_qc,
                    vc.sender,
                ),
                vc.signature,
            ))),
            Some(_) => false,
        },
{
}

/// What the refusal of a certificate of view changes says of it is so.
pub proof fn lemma_view_change_certificate_refusal(
    vcc: ViewChangeCertificateView,
    members: Seq<MemberView>,
    context: ConsensusContext,
    current_view: u64,
)
    ensures
        match certificate_fault(vcc, members, context, current_view) {
            None => true,
            Some(ViewChangeError::NoQuorum) => !(valid_signers(
                members,
                change_senders(vcc.view_changes),
            ) && 3 * crate::types::committee::power_of(
                members,
                change_senders(vcc.view_changes).to_set(),
            ) > 2 * crate::types::committee::total_power(members)),
            Some(ViewChangeError::ViewMismatch) => exists|i: int|
                0 <= i < vcc.view_changes.len() && (#[trigger] vcc.view_changes[i]).to_view
                    != vcc.view,
            Some(e) => (e == ViewChangeError::ContextMismatch && (vcc.context != context
                || context.committee_hash != members_hash(members))) || (exists|i: int|
                0 <= i < vcc.view_changes.len() && view_change_fault(
                    #[trigger] vcc.view_changes[i],
                    members,
                    context,
                    current_view,
                ) == Some(e)),
        },
{
    lemma_listed_changes_refusal(vcc.view_changes, vcc.view, members, context, current_view, 0);
    crate::types::committee::lemma_signers_make_quorum(members, change_senders(vcc.view_changes));
}

proof fn lemma_listed_changes_refusal(
    list: Seq<ViewChangeView>,
    view: u64,
    members: Seq<MemberView>,
    context: ConsensusContext,
    current_view: u64,
    i: int,
)
    requires
        0 <= i,
    ensures
        changes_fault(list, view, members, context, current_view, i) matches Some(e) ==> e
            != ViewChangeError::NoQuorum && (if e == ViewChangeError::ViewMismatch {
            exists|k: int| 0 <= k < list.len() && (#[trigger] list[k]).to_view != view
        } else {
            exists|k: int|
                0 <= k < list.len() && view_change_fault(
                    #[trigger] list[k],
                    members,
                    context,
                    current_view,
                ) == Some(e)
        }),
    decreases list.len() - i,
{
    if i < list.len() {
        lemma_listed_changes_refusal(list, view, members, context, current_view, i + 1);
        lemma_view_change_refusal(list[i], members, context, current_view);
        if let Some(e) = view_change_fault(list[i], members, context, current_view) {
            assert(view_change_fault(list[i], members, context, current_view) == Some(e));
        }
    }
}

} // verus!
