//! Collection of timeouts into timeout certificates.

use vstd::prelude::*;

use crate::bytes::{byte_rows, copy_bytes, hash_eq, put_bytes, zeros, NodeId};
use crate::consensus::aggregator::no_context;
use crate::consensus::metrics::{ConsensusMetrics, MetricsView};
use crate::crypto::{
    bls_public_key, aggregate_signatures, aggregate_verifies, bls_aggregate, bls_aggregate_verifies,
    bls_key_decodes, bls_signature, bls_signature_decodes, bls_verifies, key_decodes,
    signature_decodes, signature_verifies, BlsSecretKey,
};
use crate::table::{keys_from, Table};
use crate::text::{hex_encode, hex_text};
use crate::types::committee::{
    is_member, is_quorum, member_views, valid_members, valid_signers, Committee, MemberView,
};
use crate::types::context::ConsensusContext;
use crate::types::messages::{
    build_timeout_message, timeout_message, Timeout, TimeoutCertificate, TimeoutCertificateView,
    TimeoutView,
};

verus! {

/// Why a timeout is refused.
#[derive(Debug, PartialEq, Eq)]
pub enum TimeoutError {
    /// The timeout is of another view.
    InvalidView { expected: u64, got: u64 },
    /// The sender is not a known validator.
    UnknownValidator(NodeId),
    /// The signature does not decode or does not verify.
    InvalidSignature,
    /// The sender already timed out in the view.
    DuplicateTimeout(NodeId),
    /// The timeout belongs to another context.
    ContextMismatch {
        expected_epoch: u64,
        expected_committee: String,
        got_epoch: u64,
        got_committee: String,
    },
}

/// The public keys of validators.
pub type KeyTable = Table<NodeId, Vec<u8>>;

/// Collects the timeouts of each view.
pub struct TimeoutCollector {
    timeouts: Table<u64, Vec<Timeout>>,
    quorum: usize,
    validator_pubkeys: KeyTable,
    committee: Option<Committee>,
    context: Option<ConsensusContext>,
    metrics: Option<ConsensusMetrics>,
}

/// The contents of a collector. Timeouts are listed in the order in which
/// they came.
pub ghost struct TimeoutsView {
    pub timeouts: Map<u64, Seq<TimeoutView>>,
    pub quorum: usize,
    pub keys: Map<NodeId, Seq<u8>>,
    pub members: Option<Seq<MemberView>>,
    pub context: Option<ConsensusContext>,
    pub metrics: Option<MetricsView>,
}

/// The contents of a list of timeouts.
pub open spec fn timeout_views(list: Seq<Timeout>) -> Seq<TimeoutView> {
    list.map_values(|t: Timeout| t@)
}

/// The timeouts of a table, by view.
pub open spec fn timeout_map(m: Map<u64, Vec<Timeout>>) -> Map<u64, Seq<TimeoutView>> {
    Map::new(|k: u64| m.contains_key(k), |k: u64| timeout_views(m[k]@))
}

/// The keys of a table, by validator.
pub open spec fn key_map(m: Map<NodeId, Vec<u8>>) -> Map<NodeId, Seq<u8>> {
    Map::new(|k: NodeId| m.contains_key(k), |k: NodeId| m[k]@)
}

/// The senders of timeouts.
pub open spec fn senders_of(list: Seq<TimeoutView>) -> Seq<NodeId> {
    list.map_values(|t: TimeoutView| t.sender)
}

/// The signatures of timeouts that have BLS length and decode.
pub open spec fn usable_signatures(list: Seq<TimeoutView>) -> Seq<Seq<u8>>
    decreases list.len(),
{
    if list.len() == 0 {
        Seq::empty()
    } else {
        let rest = usable_signatures(list.drop_last());
        let s = list.last().signature;
        if s.len() == 96 && bls_signature_decodes(s) {
            rest.push(s)
        } else {
            rest
        }
    }
}

/// The signatures of timeouts, one after the other.
pub open spec fn joined_signatures(list: Seq<TimeoutView>) -> Seq<u8>
    decreases list.len(),
{
    if list.len() == 0 {
        Seq::empty()
    } else {
        joined_signatures(list.drop_last()) + list.last().signature
    }
}

/// The highest certificate view that timeouts report, or zero.
pub open spec fn highest_reported(list: Seq<TimeoutView>) -> u64
    decreases list.len(),
{
    if list.len() == 0 {
        0
    } else {
        let best = highest_reported(list.drop_last());
        if list.last().high_qc_view > best {
            list.last().high_qc_view
        } else {
            best
        }
    }
}

/// Why a timeout fails verification against known keys, and what is counted.
pub enum TimeoutFault {
    UnknownSender,
    Undecodable,
    Unverified,
}

impl TimeoutsView {
    /// The timeouts of a view.
    pub open spec fn of_view(self, view: u64) -> Seq<TimeoutView> {
        if self.timeouts.contains_key(view) {
            self.timeouts[view]
        } else {
            Seq::empty()
        }
    }

    /// The timeout is of the context that the collector is bound to, if any.
    pub open spec fn accepts(self, t: TimeoutView) -> bool {
        self.context is None || self.context->Some_0 == t.context
    }

    /// How the timeout fails verification. Without known keys none does.
    pub open spec fn fault(self, t: TimeoutView) -> Option<TimeoutFault> {
        if self.keys.dom() =~= Set::empty() {
            None
        } else if !self.keys.contains_key(t.sender) {
            Some(TimeoutFault::UnknownSender)
        } else if t.signature.len() != 96 || !bls_signature_decodes(t.signature) {
            Some(TimeoutFault::Undecodable)
        } else if !bls_verifies(
            self.keys[t.sender],
            timeout_message(t.context, t.view),
            t.signature,
        ) {
            Some(TimeoutFault::Unverified)
        } else {
            None
        }
    }

    /// The counters after a timeout failed verification.
    pub open spec fn metrics_after(self, t: TimeoutView) -> Option<MetricsView> {
        match self.metrics {
            None => None,
            Some(m) => Some(
                match self.fault(t) {
                    None => m,
                    Some(TimeoutFault::UnknownSender) => m.with_unknown(),
                    Some(TimeoutFault::Undecodable) => m.with_parse_failure(),
                    Some(TimeoutFault::Unverified) => m.with_invalid_timeout(t.sender),
                },
            ),
        }
    }

    /// The sender already timed out in the view.
    pub open spec fn repeats(self, t: TimeoutView) -> bool {
        senders_of(self.of_view(t.view)).contains(t.sender)
    }

    /// The timeout is collected.
    pub open spec fn collects(self, t: TimeoutView) -> bool {
        self.accepts(t) && self.fault(t) is None && !self.repeats(t)
    }

    /// The collector after a timeout came.
    pub open spec fn after(self, t: TimeoutView) -> TimeoutsView {
        if !self.accepts(t) {
            self
        } else if self.collects(t) {
            TimeoutsView {
                context: Some(t.context),
                timeouts: self.timeouts.insert(t.view, self.of_view(t.view).push(t)),
                ..self
            }
        } else {
            TimeoutsView { context: Some(t.context), metrics: self.metrics_after(t), ..self }
        }
    }

    /// The senders of a view's timeouts suffice for a certificate: in weight
    /// where there is a committee, else in number.
    pub open spec fn reached(self, list: Seq<TimeoutView>) -> bool {
        match self.members {
            Some(m) => is_quorum(m, senders_of(list).to_set()),
            None => list.len() >= self.quorum,
        }
    }

    /// The signature of a certificate of timeouts. With a committee it is
    /// always an aggregate.
    pub open spec fn tc_signature(self, list: Seq<TimeoutView>) -> Option<Seq<u8>> {
        let usable = usable_signatures(list);
        if self.members is Some {
            bls_aggregate(usable)
        } else if usable.len() >= self.quorum && bls_aggregate(usable) is Some {
            bls_aggregate(usable)
        } else {
            Some(joined_signatures(list))
        }
    }

    /// The certificate of a view's timeouts.
    pub open spec fn certificate(self, view: u64) -> Option<TimeoutCertificateView> {
        let list = self.of_view(view);
        if self.reached(list) && self.tc_signature(list) is Some {
            Some(
                TimeoutCertificateView {
                    context: self.context->Some_0,
                    view,
                    high_qc_view: highest_reported(list),
                    signers: senders_of(list),
                    agg_signature: self.tc_signature(list)->Some_0,
                },
            )
        } else {
            None
        }
    }
}

/// With a committee, a timeout certificate has the weight of a quorum behind
/// it.
pub proof fn lemma_timeout_quorum(c: TimeoutsView, view: u64)
    requires
        c.certificate(view) is Some,
        c.members is Some,
    ensures
        is_quorum(c.members->Some_0, c.certificate(view)->Some_0.signers.to_set()),
{
}

/// A certificate reports at least the certificate view of each of its
/// timeouts.
pub proof fn lemma_highest_reported(list: Seq<TimeoutView>, i: int)
    requires
        0 <= i < list.len(),
    ensures
        list[i].high_qc_view <= highest_reported(list),
    decreases list.len(),
{
    if i < list.len() - 1 {
        lemma_highest_reported(list.drop_last(), i);
        assert(list.drop_last()[i] == list[i]);
    }
}

/// The contents of an optional timeout certificate.
pub open spec fn option_tc(o: Option<TimeoutCertificate>) -> Option<TimeoutCertificateView> {
    match o {
        Some(t) => Some(t@),
        None => None,
    }
}

impl vstd::view::View for TimeoutCollector {
    type V = TimeoutsView;

    closed spec fn view(&self) -> TimeoutsView {
        TimeoutsView {
            timeouts: timeout_map(self.timeouts.map()),
            quorum: self.quorum,
            keys: key_map(self.validator_pubkeys.map()),
            members: match self.committee {
                Some(c) => Some(c.members_view()),
                None => None,
            },
            context: self.context,
            metrics: match self.metrics {
                Some(m) => Some(m@),
                None => None,
            },
        }
    }
}

/// The keys of a committee, each of 48 bytes and decodable.
pub open spec fn committee_keys(members: Seq<MemberView>) -> Map<NodeId, Seq<u8>> {
    Map::new(
        |id: NodeId| is_member(members, id),
        |id: NodeId| crate::types::committee::member_of(members, id)->Some_0.bls_pubkey->Some_0,
    )
}

/// Every member has a key of 48 bytes that decodes.
pub open spec fn all_keyed(members: Seq<MemberView>) -> bool {
    forall|i: int|
        0 <= i < members.len() ==> {
            &&& (#[trigger] members[i]).bls_pubkey is Some
            &&& members[i].bls_pubkey->Some_0.len() == 48
            &&& bls_key_decodes(members[i].bls_pubkey->Some_0)
        }
}

/// A list of timeouts has distinct senders.
pub open spec fn distinct_senders(list: Seq<TimeoutView>) -> bool {
    senders_of(list).no_duplicates()
}

/// Collects the keys of a committee.
pub(crate) fn collect_keys(committee: &Committee) -> (r: Option<KeyTable>)
    ensures
        match r {
            Some(t) => t.wf() && all_keyed(committee.members_view()) && key_map(t.map())
                == committee_keys(committee.members_view()),
            None => !all_keyed(committee.members_view()),
        },
{
    let _len: usize = committee.len();
    let members = committee.members();
    let ghost mv = committee.members_view();
    let mut keys: KeyTable = Table::new();
    let mut i: usize = 0;
    while i < members.len()
        invariant
            i <= members.len(),
            mv == member_views(members@),
            mv == committee.members_view(),
            valid_members(mv),
            keys.wf(),
            forall|k: int|
                0 <= k < i ==> {
                    &&& (#[trigger] mv[k]).bls_pubkey is Some
                    &&& mv[k].bls_pubkey->Some_0.len() == 48
                    &&& bls_key_decodes(mv[k].bls_pubkey->Some_0)
                    &&& keys.map().contains_key(mv[k].node_id)
                    &&& keys.map()[mv[k].node_id]@ == mv[k].bls_pubkey->Some_0
                },
            forall|id: NodeId| #[trigger]
                keys.map().contains_key(id) ==> exists|k: int|
                    0 <= k < i && (#[trigger] mv[k]).node_id == id,
        decreases members.len() - i,
    {
        let member = &members[i];
        assert(mv[i as int] == member@);
        match &member.bls_pubkey {
            Some(key) => {
                if key.len() != 48 || !key_decodes(key) {
                    return None;
                }
                let ghost before = keys.map();
                let copy = copy_bytes(key);
                keys.put(member.node_id, copy);
                proof {
                    assert forall|k: int| 0 <= k < i + 1 implies {
                        &&& (#[trigger] mv[k]).bls_pubkey is Some
                        &&& mv[k].bls_pubkey->Some_0.len() == 48
                        &&& bls_key_decodes(mv[k].bls_pubkey->Some_0)
                        &&& keys.map().contains_key(mv[k].node_id)
                        &&& keys.map()[mv[k].node_id]@ == mv[k].bls_pubkey->Some_0
                    } by {
                        if k < i {
                            assert(mv[k].node_id != mv[i as int].node_id);
                        }
                    }
                    assert forall|id: NodeId| #[trigger] keys.map().contains_key(id) implies exists|k: int|
                        0 <= k < i + 1 && (#[trigger] mv[k]).node_id == id by {
                        if id == member.node_id {
                            assert(mv[i as int].node_id == id);
                        } else {
                            assert(before.contains_key(id));
                            let k = choose|k: int| 0 <= k < i && (#[trigger] mv[k]).node_id == id;
                            assert(mv[k].node_id == id);
                        }
                    }
                }
            },
            None => {
                return None;
            },
        }
        i = i + 1;
    }
    proof {
        let ck = committee_keys(mv);
        assert forall|id: NodeId| key_map(keys.map()).contains_key(id) <==> ck.contains_key(id) by {
            if is_member(mv, id) {
                let k = choose|k: int| 0 <= k < mv.len() && (#[trigger] mv[k]).node_id == id;
                assert(keys.map().contains_key(mv[k].node_id));
            }
        }
        assert(key_map(keys.map()) =~= ck);
    }
    Some(keys)
}

impl TimeoutCollector {
    /// No view, validator or sender is listed twice. With a committee the
    /// keys are those of its members, and every sender is one.
    pub closed spec fn wf(self) -> bool {
        &&& self.timeouts.wf()
        &&& self.validator_pubkeys.wf()
        &&& self.metrics is Some ==> self.metrics->Some_0.wf()
        &&& forall|v: u64| #[trigger]
            self.timeouts.map().contains_key(v) ==> distinct_senders(
                timeout_views(self.timeouts.map()[v]@),
            )
        &&& self.committee is Some ==> {
            let members = self.committee->Some_0.members_view();
            &&& valid_members(members)
            &&& key_map(self.validator_pubkeys.map()) == committee_keys(members)
            &&& forall|v: u64, i: int|
                #![trigger self.timeouts.map()[v]@[i]]
                self.timeouts.map().contains_key(v) && 0 <= i < self.timeouts.map()[v]@.len()
                    ==> is_member(members, self.timeouts.map()[v]@[i].sender)
        }
        &&& (exists|v: u64| self.timeouts.map().contains_key(v)) ==> self.context is Some
    }

    /// A collector that counts timeouts and verifies them against known keys.
    pub fn new(quorum: usize, validator_pubkeys: KeyTable) -> (r: Self)
        requires
            validator_pubkeys.wf(),
        ensures
            r.wf(),
            r@ == (TimeoutsView {
                timeouts: Map::empty(),
                quorum,
                keys: key_map(validator_pubkeys.map()),
                members: None,
                context: None,
                metrics: None,
            }),
    {
        let r = TimeoutCollector {
            timeouts: Table::new(),
            quorum,
            validator_pubkeys,
            committee: None,
            context: None,
            metrics: None,
        };
        assert(timeout_map(r.timeouts.map()) =~= Map::empty());
        r
    }

    /// A collector that weighs timeouts by a committee.
    pub fn with_committee(committee: Committee) -> (r: Result<Self, TimeoutError>)
        ensures
            match r {
                Ok(c) => all_keyed(committee.members_view()) && c.wf() && c@ == (TimeoutsView {
                    timeouts: Map::empty(),
                    quorum: 0,
                    keys: committee_keys(committee.members_view()),
                    members: Some(committee.members_view()),
                    context: Some(
                        ConsensusContext {
                            epoch: 0,
                            committee_hash: committee.committee_hash(),
                            genesis_hash: crate::bytes::zero_hash(),
                        },
                    ),
                    metrics: None,
                }),
                Err(e) => !all_keyed(committee.members_view()) && e is InvalidSignature,
            },
    {
        let context = committee.initial_context();
        let _len: usize = committee.len();
        match collect_keys(&committee) {
            Some(validator_pubkeys) => {
                let r = TimeoutCollector {
                    timeouts: Table::new(),
                    quorum: 0,
                    validator_pubkeys,
                    committee: Some(committee),
                    context: Some(context),
                    metrics: None,
                };
                assert(timeout_map(r.timeouts.map()) =~= Map::empty());
                Ok(r)
            },
            None => Err(TimeoutError::InvalidSignature),
        }
    }

    /// A collector that weighs timeouts by a committee, in a context of the
    /// committee's first epoch.
    pub fn with_committee_and_context(committee: Committee, context: ConsensusContext) -> (r: Result<
        Self,
        TimeoutError,
    >)
        ensures
            match r {
                Ok(c) => all_keyed(committee.members_view()) && context.epoch == 0
                    && context.committee_hash == committee.committee_hash() && c.wf() && c@ == (
                TimeoutsView {
                    timeouts: Map::empty(),
                    quorum: 0,
                    keys: committee_keys(committee.members_view()),
                    members: Some(committee.members_view()),
                    context: Some(context),
                    metrics: None,
                }),
                Err(e) => e is InvalidSignature && !(all_keyed(committee.members_view())
                    && context.epoch == 0 && context.committee_hash == committee.committee_hash()),
            },
    {
        match TimeoutCollector::with_committee(committee) {
            Ok(collector) => {
                if let Some(own) = collector.context {
                    if own.epoch != context.epoch || !hash_eq(
                        &own.committee_hash,
                        &context.committee_hash,
                    ) {
                        return Err(TimeoutError::InvalidSignature);
                    }
                }
                Ok(collector.with_context(context))
            },
            Err(e) => Err(e),
        }
    }

    /// A collector that counts timeouts without verifying them.
    pub fn new_without_verification(quorum: usize) -> (r: Self)
        ensures
            r.wf(),
            r@ == (TimeoutsView {
                timeouts: Map::empty(),
                quorum,
                keys: Map::empty(),
                members: None,
                context: None,
                metrics: None,
            }),
    {
        let keys: KeyTable = Table::new();
        assert(key_map(keys.map()) =~= Map::empty());
        TimeoutCollector::new(quorum, keys)
    }

    /// Counts faults in the given counters.
    pub fn with_metrics(self, metrics: ConsensusMetrics) -> (r: Self)
        requires
            self.wf(),
            metrics.wf(),
        ensures
            r.wf(),
            r@ == (TimeoutsView { metrics: Some(metrics@), ..self@ }),
    {
        let mut r = self;
        r.metrics = Some(metrics);
        r
    }

    /// Binds the collector to a context.
    pub fn with_context(self, context: ConsensusContext) -> (r: Self)
        requires
            self.wf(),
        ensures
            r.wf(),
            r@ == (TimeoutsView { context: Some(context), ..self@ }),
    {
        let mut r = self;
        r.context = Some(context);
        r
    }

    /// The context that the collector is bound to.
    pub fn context(&self) -> (r: Option<ConsensusContext>)
        ensures
            r == self@.context,
    {
        self.context
    }

    /// Takes a timeout, and returns the certificate that it completes.
    pub fn add(&mut self, timeout: Timeout) -> (r: Result<Option<TimeoutCertificate>, TimeoutError>)
        requires
            old(self).wf(),
        ensures
            final(self).wf(),
            final(self)@ == old(self)@.after(timeout@),
            match r {
                Ok(tc) => old(self)@.collects(timeout@) && option_tc(tc)
                    == final(self)@.certificate(timeout@.view),
                Err(TimeoutError::ContextMismatch {
                    expected_epoch,
                    expected_committee,
                    got_epoch,
                    got_committee,
                }) => {
                    &&& !old(self)@.accepts(timeout@)
                    &&& expected_epoch == old(self)@.context->Some_0.epoch
                    &&& expected_committee@ == hex_text(old(self)@.context->Some_0.committee_hash@)
                    &&& got_epoch == timeout@.context.epoch
                    &&& got_committee@ == hex_text(timeout@.context.committee_hash@)
                },
                Err(TimeoutError::UnknownValidator(id)) => old(self)@.accepts(timeout@)
                    && old(self)@.fault(timeout@) == Some(TimeoutFault::UnknownSender)
                    && id == timeout@.sender,
                Err(TimeoutError::InvalidSignature) => old(self)@.accepts(timeout@)
                    && (old(self)@.fault(timeout@) == Some(TimeoutFault::Undecodable)
                    || old(self)@.fault(timeout@)
                    == Some(TimeoutFault::Unverified)),
                Err(TimeoutError::DuplicateTimeout(id)) => old(self)@.accepts(timeout@)
                    && old(self)@.fault(timeout@) is None && old(self)@.repeats(timeout@)
                    && id == timeout@.sender,
                Err(TimeoutError::InvalidView { .. }) => false,
            },
    {
        let view: u64 = timeout.view;
        let sender = timeout.sender;
        let ghost t = timeout@;
        if let Some(expected) = self.context {
            if !timeout.context().same_as(&expected) {
                return Err(
                    TimeoutError::ContextMismatch {
                        expected_epoch: expected.epoch,
                        expected_committee: hex_encode(expected.committee_hash.as_slice()),
                        got_epoch: timeout.epoch,
                        got_committee: hex_encode(timeout.committee_hash.as_slice()),
                    },
                );
            }
        } else {
            self.context = Some(timeout.context());
        }
        proof {
            crate::table::lemma_rows_len(self.validator_pubkeys.rows());
            assert(key_map(self.validator_pubkeys.map()).dom()
                =~= self.validator_pubkeys.map().dom());
            if self.validator_pubkeys.rows().len() == 0 {
                assert(self.validator_pubkeys.map().dom() =~= Set::empty());
            }
        }
        if self.validator_pubkeys.len() != 0 {
            if let Err(e) = self.verify_timeout(&timeout) {
                return Err(e);
            }
        }
        let ghost before = self.timeouts.map();
        let ghost all = self@.of_view(view).push(t);
        let ghost earlier = self@.of_view(view);
        assert(senders_of(all) =~= senders_of(earlier).push(t.sender));
        let i: usize = match self.timeouts.find(&view) {
            Some(i) => {
                if has_sender(self.timeouts.value_at(i), &sender) {
                    return Err(TimeoutError::DuplicateTimeout(sender));
                }
                let list = self.timeouts.value_mut(i);
                list.push(timeout);
                assert(timeout_views(list@) =~= all);
                i
            },
            None => {
                assert(earlier =~= Seq::empty());
                assert(senders_of(earlier) =~= Seq::empty());
                let i = self.timeouts.len();
                let mut list: Vec<Timeout> = Vec::new();
                list.push(timeout);
                assert(timeout_views(list@) =~= all);
                self.timeouts.push_new(view, list);
                i
            },
        };
        proof {
            crate::table::lemma_row(self.timeouts.rows(), i as int);
            assert(timeout_views(self.timeouts.map()[view]@) == all);
            assert(timeout_map(self.timeouts.map()) =~= timeout_map(before).insert(view, all));
            assert(distinct_senders(all));
            assert forall|v: u64| #[trigger] self.timeouts.map().contains_key(v) implies distinct_senders(
                timeout_views(self.timeouts.map()[v]@),
            ) by {
                if v != view {
                    assert(before.contains_key(v));
                }
            }
            if self.committee is Some {
                let members = self.committee->Some_0.members_view();
                assert(key_map(self.validator_pubkeys.map()).contains_key(t.sender)) by {
                    assert(is_member(members, members[0].node_id));
                    assert(key_map(self.validator_pubkeys.map()).contains_key(members[0].node_id));
                }
                assert(is_member(members, t.sender));
                assert forall|v: u64, j: int|
                    #![trigger self.timeouts.map()[v]@[j]]
                    self.timeouts.map().contains_key(v) && 0 <= j
                        < self.timeouts.map()[v]@.len() implies is_member(
                    members,
                    self.timeouts.map()[v]@[j].sender,
                ) by {
                    if v == view {
                        assert(timeout_views(self.timeouts.map()[view]@)[j] == all[j]);
                        if j < earlier.len() {
                            assert(all[j] == earlier[j]);
                            assert(before.contains_key(view));
                            assert(before[view]@[j]@ == earlier[j]);
                            assert(is_member(members, before[view]@[j].sender));
                        }
                    } else {
                        assert(before.contains_key(v));
                        assert(before[v]@[j] == self.timeouts.map()[v]@[j]);
                    }
                }
                assert forall|j: int| 0 <= j < all.len() implies is_member(
                    members,
                    #[trigger] senders_of(all)[j],
                ) by {
                    assert(timeout_views(self.timeouts.map()[view]@)[j]
                        == self.timeouts.map()[view]@[j]@);
                }
                assert(valid_signers(members, senders_of(all)));
            }
        }
        let reached = match &self.committee {
            Some(committee) => {
                let senders = collect_senders(self.timeouts.value_at(i));
                match committee.has_weighted_quorum(&senders) {
                    Ok(b) => b,
                    Err(_) => {
                        return Err(TimeoutError::InvalidSignature);
                    },
                }
            },
            None => self.timeouts.value_at(i).len() >= self.quorum,
        };
        if reached {
            Ok(self.create_tc(i, view))
        } else {
            Ok(None)
        }
    }

    /// Verifies a timeout against the known keys.
    fn verify_timeout(&mut self, timeout: &Timeout) -> (r: Result<(), TimeoutError>)
        requires
            old(self).wf(),
            !(old(self)@.keys.dom() =~= Set::empty()),
        ensures
            final(self).wf(),
            final(self)@ == (TimeoutsView {
                metrics: old(self)@.metrics_after(timeout@),
                ..old(self)@
            }),
            match r {
                Ok(()) => old(self)@.fault(timeout@) is None && *final(self) == *old(self),
                Err(TimeoutError::UnknownValidator(id)) => old(self)@.fault(timeout@) == Some(
                    TimeoutFault::UnknownSender,
                ) && id == timeout@.sender,
                Err(TimeoutError::InvalidSignature) => old(self)@.fault(timeout@) == Some(
                    TimeoutFault::Undecodable,
                ) || old(self)@.fault(timeout@) == Some(TimeoutFault::Unverified),
                Err(_) => false,
            },
    {
        let found = match self.validator_pubkeys.get(&timeout.sender) {
            Some(k) => Some(copy_bytes(k)),
            None => None,
        };
        let key = match found {
            Some(k) => k,
            None => {
                if let Some(mut metrics) = self.metrics.take() {
                    metrics.record_unknown_validator(&timeout.sender);
                    self.metrics = Some(metrics);
                }
                return Err(TimeoutError::UnknownValidator(timeout.sender));
            },
        };
        if timeout.signature.len() != 96 || !signature_decodes(&timeout.signature) {
            if let Some(mut metrics) = self.metrics.take() {
                metrics.record_signature_parse_failure();
                self.metrics = Some(metrics);
            }
            return Err(TimeoutError::InvalidSignature);
        }
        let message = timeout.signing_data();
        if !signature_verifies(&key, &message, &timeout.signature) {
            if let Some(mut metrics) = self.metrics.take() {
                metrics.record_invalid_timeout_signature(&timeout.sender);
                self.metrics = Some(metrics);
            }
            return Err(TimeoutError::InvalidSignature);
        }
        Ok(())
    }

    /// The certificate of the timeouts in a row of the table.
    fn create_tc(&self, row: usize, view: u64) -> (r: Option<TimeoutCertificate>)
        requires
            self.wf(),
            row < self.timeouts.rows().len(),
            self.timeouts.rows()[row as int].0 == view,
            self@.reached(self@.of_view(view)),
            self.context is Some,
        ensures
            option_tc(r) == self@.certificate(view),
    {
        proof {
            crate::table::lemma_row(self.timeouts.rows(), row as int);
        }
        let list = self.timeouts.value_at(row);
        let ghost ts = timeout_views(list@);
        assert(ts == self@.of_view(view));
        let mut high_qc_view: u64 = 0;
        let mut signatures: Vec<Vec<u8>> = Vec::new();
        let mut joined: Vec<u8> = Vec::new();
        let mut i: usize = 0;
        assert(ts.take(0) =~= Seq::empty());
        assert(byte_rows(signatures@) =~= Seq::empty());
        while i < list.len()
            invariant
                i <= list.len(),
                ts == timeout_views(list@),
                high_qc_view == highest_reported(ts.take(i as int)),
                byte_rows(signatures@) == usable_signatures(ts.take(i as int)),
                joined@ == joined_signatures(ts.take(i as int)),
            decreases list.len() - i,
        {
            let t = &list[i];
            assert(ts.take(i + 1).drop_last() =~= ts.take(i as int));
            assert(ts.take(i + 1).last() == t@);
            if t.high_qc_view > high_qc_view {
                high_qc_view = t.high_qc_view;
            }
            if t.signature.len() == 96 && signature_decodes(&t.signature) {
                let ghost before = signatures@;
                signatures.push(copy_bytes(&t.signature));
                assert(byte_rows(signatures@) =~= byte_rows(before).push(t@.signature));
            }
            put_bytes(&mut joined, &t.signature);
            i = i + 1;
        }
        assert(ts.take(ts.len() as int) =~= ts);
        let signers = collect_senders(list);
        assert(byte_rows(signatures@).len() == signatures@.len());
        let agg_signature = if self.committee.is_some() {
            match aggregate_signatures(&signatures) {
                Some(s) => s,
                None => {
                    return None;
                },
            }
        } else if signatures.len() >= self.quorum {
            match aggregate_signatures(&signatures) {
                Some(s) => s,
                None => joined,
            }
        } else {
            joined
        };
        match self.context {
            Some(context) => Some(
                TimeoutCertificate {
                    epoch: context.epoch,
                    committee_hash: context.committee_hash,
                    genesis_hash: context.genesis_hash,
                    view,
                    high_qc_view,
                    signers,
                    agg_signature,
                },
            ),
            None => None,
        }
    }

    /// The number of timeouts of a view.
    pub fn count(&self, view: u64) -> (r: usize)
        requires
            self.wf(),
        ensures
            r == self@.of_view(view).len(),
    {
        match self.timeouts.get(&view) {
            Some(list) => list.len(),
            None => 0,
        }
    }

    /// Forgets all timeouts.
    pub fn clear(&mut self)
        requires
            old(self).wf(),
        ensures
            final(self).wf(),
            final(self)@ == (TimeoutsView { timeouts: Map::empty(), ..old(self)@ }),
    {
        self.timeouts.clear();
        assert(timeout_map(self.timeouts.map()) =~= Map::empty());
    }

    /// Forgets timeouts of views below the given one.
    pub fn prune_below(&mut self, view: u64)
        requires
            old(self).wf(),
        ensures
            final(self).wf(),
            final(self)@ == (TimeoutsView {
                timeouts: old(self)@.timeouts.restrict(Set::new(keys_from::<u64>(view))),
                ..old(self)@
            }),
    {
        let ghost before = self.timeouts.map();
        self.timeouts.retain_from(view);
        proof {
            assert(timeout_map(before.restrict(Set::new(keys_from::<u64>(view)))) =~= timeout_map(
                before,
            ).restrict(Set::new(keys_from::<u64>(view))));
            assert forall|v: u64| #[trigger] self.timeouts.map().contains_key(v) implies before.contains_key(
                v,
            ) && self.timeouts.map()[v] == before[v] by {}
        }
    }
}

/// Whether a sender is among the timeouts.
fn has_sender(list: &Vec<Timeout>, sender: &NodeId) -> (r: bool)
    ensures
        r == senders_of(timeout_views(list@)).contains(*sender),
{
    let ghost ss = senders_of(timeout_views(list@));
    let mut i: usize = 0;
    while i < list.len()
        invariant
            i <= list.len(),
            ss == senders_of(timeout_views(list@)),
            forall|k: int| 0 <= k < i ==> ss[k] != *sender,
        decreases list.len() - i,
    {
        assert(ss[i as int] == list[i as int].sender);
        if hash_eq(&list[i].sender, sender) {
            return true;
        }
        i = i + 1;
    }
    false
}

/// Copies the senders of timeouts.
fn collect_senders(list: &Vec<Timeout>) -> (r: Vec<NodeId>)
    ensures
        r@ == senders_of(timeout_views(list@)),
{
    let mut r: Vec<NodeId> = Vec::new();
    let mut i: usize = 0;
    while i < list.len()
        invariant
            i <= list.len(),
            r.len() == i,
            forall|k: int| 0 <= k < i ==> #[trigger] r[k] == list[k].sender,
        decreases list.len() - i,
    {
        r.push(list[i].sender);
        i = i + 1;
    }
    assert(r@ =~= senders_of(timeout_views(list@)));
    r
}

/// A signed timeout that names no committee.
pub fn create_signed_timeout(view: u64, high_qc_view: u64, sender: NodeId, bls_sk: &BlsSecretKey) -> (r:
    Timeout)
    ensures
        r@ == (TimeoutView {
            context: no_context(),
            view,
            high_qc_view,
            sender,
            signature: bls_signature(bls_sk.seed()@, timeout_message(no_context(), view)),
        }),
{
    create_signed_timeout_with_context(
        ConsensusContext::new(0, zeros()),
        view,
        high_qc_view,
        sender,
        bls_sk,
    )
}

/// A signed timeout of a context.
pub fn create_signed_timeout_with_context(
    context: ConsensusContext,
    view: u64,
    high_qc_view: u64,
    sender: NodeId,
    bls_sk: &BlsSecretKey,
) -> (r: Timeout)
    ensures
        r@ == (TimeoutView {
            context,
            view,
            high_qc_view,
            sender,
            signature: bls_signature(bls_sk.seed()@, timeout_message(context, view)),
        }),
        r@.signature.len() == 96,
        bls_signature_decodes(r@.signature),
        bls_verifies(
            bls_public_key(bls_sk.seed()@),
            timeout_message(context, view),
            r@.signature,
        ),
{
    let message = build_timeout_message(context, view);
    Timeout {
        epoch: context.epoch,
        committee_hash: context.committee_hash,
        genesis_hash: context.genesis_hash,
        view,
        high_qc_view,
        sender,
        signature: bls_sk.sign(&message),
    }
}

/// A timeout certificate verifies against known keys in a context: all its
/// signers are known and the aggregate signature is theirs.
pub open spec fn timeout_certificate_valid(
    tc: TimeoutCertificateView,
    keys: Map<NodeId, Seq<u8>>,
    context: ConsensusContext,
) -> bool {
    &&& tc.context == context
    &&& tc.signers.len() > 0
    &&& forall|i: int| 0 <= i < tc.signers.len() ==> keys.contains_key(#[trigger] tc.signers[i])
    &&& tc.agg_signature.len() == 96
    &&& bls_signature_decodes(tc.agg_signature)
    &&& bls_aggregate_verifies(
        timeout_message(tc.context, tc.view),
        tc.agg_signature,
        tc.signers.map_values(|id: NodeId| keys[id]),
    )
}

/// Verifies a timeout certificate against known keys.
pub fn verify_timeout_certificate(tc: &TimeoutCertificate, validator_pubkeys: &KeyTable) -> (r: bool)
    requires
        validator_pubkeys.wf(),
    ensures
        r == timeout_certificate_valid(tc@, key_map(validator_pubkeys.map()), tc@.context),
{
    verify_timeout_certificate_with_context(tc, validator_pubkeys, tc.context())
}

/// Verifies a timeout certificate against known keys in a context.
pub fn verify_timeout_certificate_with_context(
    tc: &TimeoutCertificate,
    validator_pubkeys: &KeyTable,
    expected_context: ConsensusContext,
) -> (r: bool)
    requires
        validator_pubkeys.wf(),
    ensures
        r == timeout_certificate_valid(tc@, key_map(validator_pubkeys.map()), expected_context),
{
    if !tc.context().same_as(&expected_context) {
        return false;
    }
    if tc.signers.len() == 0 {
        return false;
    }
    let ghost km = key_map(validator_pubkeys.map());
    let mut pubkeys: Vec<Vec<u8>> = Vec::new();
    let mut i: usize = 0;
    while i < tc.signers.len()
        invariant
            i <= tc.signers.len(),
            pubkeys.len() == i,
            validator_pubkeys.wf(),
            km == key_map(validator_pubkeys.map()),
            forall|k: int|
                0 <= k < i ==> km.contains_key(#[trigger] tc.signers[k]) && pubkeys[k]@
                    == km[tc.signers[k]],
        decreases tc.signers.len() - i,
    {
        match validator_pubkeys.get(&tc.signers[i]) {
            Some(key) => {
                pubkeys.push(copy_bytes(key));
            },
            None => {
                assert(!km.contains_key(tc@.signers[i as int]));
                return false;
            },
        }
        i = i + 1;
    }
    if tc.agg_signature.len() != 96 {
        return false;
    }
    if !signature_decodes(&tc.agg_signature) {
        return false;
    }
    assert(byte_rows(pubkeys@) =~= tc@.signers.map_values(|id: NodeId| km[id]));
    let message = tc.signing_data();
    aggregate_verifies(&message, &tc.agg_signature, &pubkeys)
}

/// A timeout is collected exactly if it is of the context, the first of its sender
/// in the view and, where keys are known, signed by a known sender's key. It then
/// comes last in its view, and no other view changes.
pub proof fn lemma_timeout_collected(c: TimeoutsView, t: TimeoutView, view: u64)
    ensures
        ({
            let collected = {
                &&& c.context matches Some(bound) ==> t.context == bound
                &&& forall|i: int|
                    0 <= i < c.of_view(t.view).len() ==> (#[trigger] c.of_view(t.view)[i]).sender
                        != t.sender
                &&& (exists|id: NodeId| c.keys.contains_key(id)) ==> c.keys.contains_key(t.sender)
                    && t.signature.len() == 96 && bls_signature_decodes(t.signature)
                    && bls_verifies(
                    c.keys[t.sender],
                    timeout_message(t.context, t.view),
                    t.signature,
                )
            };
            &&& c.collects(t) <==> collected
            &&& collected ==> c.after(t).of_view(t.view) == c.of_view(t.view).push(t)
            &&& !collected ==> c.after(t).timeouts == c.timeouts
            &&& view != t.view ==> c.after(t).of_view(view) == c.of_view(view)
            &&& c.accepts(t) ==> c.after(t).context == Some(t.context)
            &&& !c.accepts(t) ==> c.after(t) == c
        }),
{
    let senders = senders_of(c.of_view(t.view));
    if c.repeats(t) {
        let i = choose|i: int| 0 <= i < senders.len() && senders[i] == t.sender;
        assert(c.of_view(t.view)[i].sender == t.sender);
    } else {
        assert forall|i: int| 0 <= i < c.of_view(t.view).len() implies (
        #[trigger] c.of_view(t.view)[i]).sender != t.sender by {
            assert(senders[i] == c.of_view(t.view)[i].sender);
        }
    }
    if exists|id: NodeId| c.keys.contains_key(id) {
        let id = choose|id: NodeId| c.keys.contains_key(id);
        assert(c.keys.dom().contains(id));
        assert(!(c.keys.dom() =~= Set::empty()));
    } else {
        assert(c.keys.dom() =~= Set::empty());
    }
}

/// The highest reported view is one that some timeout of the list reports, and
/// none reports a higher one.
pub proof fn lemma_highest_reported_is_maximal(list: Seq<TimeoutView>)
    ensures
        forall|i: int|
            0 <= i < list.len() ==> (#[trigger] list[i]).high_qc_view <= highest_reported(list),
        list.len() > 0 ==> exists|i: int|
            0 <= i < list.len() && (#[trigger] list[i]).high_qc_view == highest_reported(list),
        list.len() == 0 ==> highest_reported(list) == 0,
    decreases list.len(),
{
    assert forall|i: int| 0 <= i < list.len() implies (#[trigger] list[i]).high_qc_view
        <= highest_reported(list) by {
        lemma_highest_reported(list, i);
    }
    if list.len() > 0 {
        let front = list.drop_last();
        lemma_highest_reported_is_maximal(front);
        if list.last().high_qc_view == highest_reported(list) {
            assert(list[list.len() - 1].high_qc_view == highest_reported(list));
        } else if front.len() > 0 {
            let i = choose|i: int|
                0 <= i < front.len() && (#[trigger] front[i]).high_qc_view == highest_reported(front);
            assert(list[i].high_qc_view == highest_reported(list));
        }
    }
}

/// The usable signatures are those of the right length that decode, in order.
pub proof fn lemma_usable_signatures(list: Seq<TimeoutView>, t: TimeoutView)
    ensures
        t.signature.len() == 96 && bls_signature_decodes(t.signature) ==> usable_signatures(
            list.push(t),
        ) == usable_signatures(list).push(t.signature),
        t.signature.len() != 96 || !bls_signature_decodes(t.signature) ==> usable_signatures(
            list.push(t),
        ) == usable_signatures(list),
        joined_signatures(list.push(t)) == joined_signatures(list) + t.signature,
{
    assert(list.push(t).drop_last() =~= list);
}

/// A view has a timeout certificate exactly if its senders reach the quorum (more
/// than two thirds of the voting power, or else the number asked for) and their
/// signatures can be put together. It is of that view, names the senders and the
/// highest view that they report.
pub proof fn lemma_timeout_certificate(c: TimeoutsView, view: u64)
    ensures
        ({
            let list = c.of_view(view);
            let enough = match c.members {
                Some(m) => 3 * crate::types::committee::power_of(m, senders_of(list).to_set()) > 2
                    * crate::types::committee::total_power(m),
                None => list.len() >= c.quorum,
            };
            let usable = usable_signatures(list);
            &&& c.certificate(view) is Some <==> enough && (c.members is Some ==> bls_aggregate(
                usable,
            ) is Some)
            &&& c.certificate(view) matches Some(tc) ==> {
                &&& tc.view == view
                &&& tc.high_qc_view == highest_reported(list)
                &&& tc.signers.len() == list.len()
                &&& forall|i: int| 0 <= i < list.len() ==> #[trigger] tc.signers[i] == list[i].sender
                &&& c.context matches Some(bound) ==> tc.context == bound
                &&& bls_aggregate(usable) is Some && (c.members is Some || usable.len() >= c.quorum)
                    ==> tc.agg_signature == bls_aggregate(usable)->Some_0
                &&& c.members is None && (usable.len() < c.quorum || bls_aggregate(usable) is None)
                    ==> tc.agg_signature == joined_signatures(list)
            }
        }),
{
}

/// A timeout certificate is valid exactly if it is of the context, its signers are
/// known, and their aggregate on its view verifies under their keys.
pub proof fn lemma_timeout_certificate_valid(
    tc: TimeoutCertificateView,
    keys: Map<NodeId, Seq<u8>>,
    context: ConsensusContext,
)
    ensures
        timeout_certificate_valid(tc, keys, context) ==> {
            &&& tc.context == context
            &&& tc.signers.len() > 0
            &&& forall|i: int|
                0 <= i < tc.signers.len() ==> keys.contains_key(#[trigger] tc.signers[i])
            &&& bls_aggregate_verifies(
                timeout_message(context, tc.view),
                tc.agg_signature,
                tc.signers.map_values(|id: NodeId| keys[id]),
            )
        },
        tc.context == context && tc.signers.len() > 0 && tc.agg_signature.len() == 96
            && bls_signature_decodes(tc.agg_signature) && (forall|i: int|
            0 <= i < tc.signers.len() ==> keys.contains_key(#[trigger] tc.signers[i]))
            && bls_aggregate_verifies(
            timeout_message(context, tc.view),
            tc.agg_signature,
            tc.signers.map_values(|id: NodeId| keys[id]),
        ) ==> timeout_certificate_valid(tc, keys, context),
{
}

/// The keys of a committee are those of its members, and it weighs messages only
/// if each of them has a key that decodes.
pub proof fn lemma_committee_keys(members: Seq<MemberView>, i: int)
    requires
        crate::types::committee::distinct_members(members),
        0 <= i < members.len(),
    ensures
        committee_keys(members).contains_key(members[i].node_id),
        members[i].bls_pubkey matches Some(k) ==> committee_keys(members)[members[i].node_id] == k,
        all_keyed(members) ==> (members[i].bls_pubkey matches Some(k) && k.len() == 48
            && bls_key_decodes(k)),
{
    assert(members[i].node_id == members[i].node_id);
    assert(is_member(members, members[i].node_id));
    crate::types::committee::lemma_member_found(members, members[i].node_id, i);
}

/// A timeout that fails is counted once, for its reason: an unknown sender, a signature
/// that does not decode, or one that does not verify, which makes its sender suspect.
pub proof fn lemma_timeout_faults_counted(c: TimeoutsView, t: TimeoutView, m: MetricsView)
    requires
        c.metrics == Some(m),
        exists|id: NodeId| c.keys.contains_key(id),
    ensures
        ({
            let counted = c.metrics_after(t);
            let decodes = t.signature.len() == 96 && bls_signature_decodes(t.signature);
            let signed = bls_verifies(
                c.keys[t.sender],
                timeout_message(t.context, t.view),
                t.signature,
            );
            &&& !c.keys.contains_key(t.sender) ==> counted == Some(m.with_unknown())
            &&& c.keys.contains_key(t.sender) && !decodes ==> counted == Some(m.with_parse_failure())
            &&& c.keys.contains_key(t.sender) && decodes && !signed ==> counted == Some(
                m.with_invalid_timeout(t.sender),
            )
            &&& c.keys.contains_key(t.sender) && decodes && signed ==> counted == Some(m)
            &&& c.accepts(t) && !c.collects(t) ==> c.after(t).metrics == counted
            &&& c.collects(t) ==> c.after(t).metrics == c.metrics
        }),
{
    let id = choose|id: NodeId| c.keys.contains_key(id);
    assert(c.keys.dom().contains(id));
    assert(!(c.keys.dom() =~= Set::empty()));
}

/// What the refusal of a timeout says of it is so.
pub proof fn lemma_timeout_refusal(c: TimeoutsView, t: TimeoutView)
    ensures
        match c.fault(t) {
            None => true,
            Some(TimeoutFault::UnknownSender) => !c.keys.contains_key(t.sender),
            Some(TimeoutFault::Undecodable) => t.signature.len() != 96 || !bls_signature_decodes(
                t.signature,
            ),
            Some(TimeoutFault::Unverified) => !bls_verifies(
                c.keys[t.sender],
                timeout_message(t.context, t.view),
                t.signature,
            ),
        },
{
}

} // verus!
