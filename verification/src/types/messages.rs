//! Messages of the proposal, timeout and view-change protocols, and the state
//! that survives a restart.

use vstd::prelude::*;

use crate::bytes::{
    byte_rows, copy_bytes, copy_hashes, copy_rows, put_hash, put_u64, Hash32, NodeId,
};
use crate::types::block::{block_hash, Block, BlockView};
use crate::types::certificate::{
    copy_option_certificate, option_certificate, Certificate, CertificateView,
};
use crate::types::context::{context_bytes, ConsensusContext, ContextMismatch};

verus! {

/// A validator's notice that a view made no progress.
pub struct Timeout {
    pub epoch: u64,
    pub committee_hash: Hash32,
    pub genesis_hash: Hash32,
    pub view: u64,
    pub high_qc_view: u64,
    pub sender: NodeId,
    pub signature: Vec<u8>,
}

/// The contents of a timeout.
pub ghost struct TimeoutView {
    pub context: ConsensusContext,
    pub view: u64,
    pub high_qc_view: u64,
    pub sender: NodeId,
    pub signature: Seq<u8>,
}

impl vstd::view::View for Timeout {
    type V = TimeoutView;

    open spec fn view(&self) -> TimeoutView {
        TimeoutView {
            context: ConsensusContext {
                epoch: self.epoch,
                committee_hash: self.committee_hash,
                genesis_hash: self.genesis_hash,
            },
            view: self.view,
            high_qc_view: self.high_qc_view,
            sender: self.sender,
            signature: self.signature@,
        }
    }
}

/// The message that validators sign when a view times out. It is the same for
/// all of them, so that their signatures can be aggregated.
pub open spec fn timeout_message(context: ConsensusContext, view: u64) -> Seq<u8> {
    seq![2u8] + context_bytes(context) + vstd::bytes::spec_u64_to_le_bytes(view)
}

/// Builds the message that validators sign when a view times out.
pub fn build_timeout_message(context: ConsensusContext, view: u64) -> (r: Vec<u8>)
    ensures
        r@ == timeout_message(context, view),
{
    let mut out: Vec<u8> = Vec::new();
    out.push(2u8);
    context.put(&mut out);
    put_u64(&mut out, view);
    assert(out@ =~= timeout_message(context, view));
    out
}

impl Timeout {
    /// The context of the timeout.
    pub fn context(&self) -> (r: ConsensusContext)
        ensures
            r == self@.context,
    {
        ConsensusContext {
            epoch: self.epoch,
            committee_hash: self.committee_hash,
            genesis_hash: self.genesis_hash,
        }
    }

    /// The message that the timeout's signature is on.
    pub fn signing_data(&self) -> (r: Vec<u8>)
        ensures
            r@ == timeout_message(self@.context, self.view),
    {
        build_timeout_message(self.context(), self.view)
    }
}

impl Clone for Timeout {
    fn clone(&self) -> (r: Self)
        ensures
            r@ == self@,
    {
        Timeout {
            epoch: self.epoch,
            committee_hash: self.committee_hash,
            genesis_hash: self.genesis_hash,
            view: self.view,
            high_qc_view: self.high_qc_view,
            sender: self.sender,
            signature: copy_bytes(&self.signature),
        }
    }
}

/// Evidence that a quorum gave up a view.
pub struct TimeoutCertificate {
    pub epoch: u64,
    pub committee_hash: Hash32,
    pub genesis_hash: Hash32,
    pub view: u64,
    pub high_qc_view: u64,
    pub signers: Vec<NodeId>,
    pub agg_signature: Vec<u8>,
}

/// The contents of a timeout certificate.
pub ghost struct TimeoutCertificateView {
    pub context: ConsensusContext,
    pub view: u64,
    pub high_qc_view: u64,
    pub signers: Seq<NodeId>,
    pub agg_signature: Seq<u8>,
}

impl vstd::view::View for TimeoutCertificate {
    type V = TimeoutCertificateView;

    open spec fn view(&self) -> TimeoutCertificateView {
        TimeoutCertificateView {
            context: ConsensusContext {
                epoch: self.epoch,
                committee_hash: self.committee_hash,
                genesis_hash: self.genesis_hash,
            },
            view: self.view,
            high_qc_view: self.high_qc_view,
            signers: self.signers@,
            agg_signature: self.agg_signature@,
        }
    }
}

impl TimeoutCertificate {
    /// The context of the certificate.
    pub fn context(&self) -> (r: ConsensusContext)
        ensures
            r == self@.context,
    {
        ConsensusContext {
            epoch: self.epoch,
            committee_hash: self.committee_hash,
            genesis_hash: self.genesis_hash,
        }
    }

    /// The message that the signers signed.
    pub fn signing_data(&self) -> (r: Vec<u8>)
        ensures
            r@ == timeout_message(self@.context, self.view),
    {
        build_timeout_message(self.context(), self.view)
    }
}

/// A validator's request to move to another view.
pub struct ViewChange {
    pub epoch: u64,
    pub committee_hash: Hash32,
    pub genesis_hash: Hash32,
    pub from_view: u64,
    pub to_view: u64,
    pub high_qc: Option<Certificate>,
    pub sender: NodeId,
    pub signature: Vec<u8>,
}

/// The contents of a view change.
pub ghost struct ViewChangeView {
    pub context: ConsensusContext,
    pub from_view: u64,
    pub to_view: u64,
    pub high_qc: Option<CertificateView>,
    pub sender: NodeId,
    pub signature: Seq<u8>,
}

impl vstd::view::View for ViewChange {
    type V = ViewChangeView;

    open spec fn view(&self) -> ViewChangeView {
        ViewChangeView {
            context: ConsensusContext {
                epoch: self.epoch,
                committee_hash: self.committee_hash,
                genesis_hash: self.genesis_hash,
            },
            from_view: self.from_view,
            to_view: self.to_view,
            high_qc: option_certificate(self.high_qc),
            sender: self.sender,
            signature: self.signature@,
        }
    }
}

/// The message that a validator signs to change views.
pub open spec fn view_change_message(
    context: ConsensusContext,
    from_view: u64,
    to_view: u64,
    high_qc: Option<CertificateView>,
    sender: NodeId,
) -> Seq<u8> {
    let qc = match high_qc {
        Some(c) => vstd::bytes::spec_u64_to_le_bytes(c.view) + c.block_hash@,
        None => Seq::empty(),
    };
    seq![6u8] + context_bytes(context) + vstd::bytes::spec_u64_to_le_bytes(from_view)
        + vstd::bytes::spec_u64_to_le_bytes(to_view) + sender@ + qc
}

impl ViewChange {
    /// The context of the view change.
    pub fn context(&self) -> (r: ConsensusContext)
        ensures
            r == self@.context,
    {
        ConsensusContext {
            epoch: self.epoch,
            committee_hash: self.committee_hash,
            genesis_hash: self.genesis_hash,
        }
    }

    /// Fails unless the view change belongs to the expected context.
    pub fn validate_context(&self, expected: ConsensusContext) -> (r: Result<(), ContextMismatch>)
        ensures
            r is Ok <==> self@.context == expected,
    {
        self.context().expect(expected)
    }

    /// The message that the signature is on.
    pub fn signing_data(&self) -> (r: Vec<u8>)
        ensures
            r@ == view_change_message(
                self@.context,
                self.from_view,
                self.to_view,
                self@.high_qc,
                self.sender,
            ),
    {
        let mut out: Vec<u8> = Vec::new();
        out.push(6u8);
        self.context().put(&mut out);
        put_u64(&mut out, self.from_view);
        put_u64(&mut out, self.to_view);
        put_hash(&mut out, &self.sender);
        if let Some(qc) = &self.high_qc {
            put_u64(&mut out, qc.view);
            put_hash(&mut out, &qc.block_hash);
        }
        assert(out@ =~= view_change_message(
            self@.context,
            self.from_view,
            self.to_view,
            self@.high_qc,
            self.sender,
        ));
        out
    }
}

impl Clone for ViewChange {
    fn clone(&self) -> (r: Self)
        ensures
            r@ == self@,
    {
        ViewChange {
            epoch: self.epoch,
            committee_hash: self.committee_hash,
            genesis_hash: self.genesis_hash,
            from_view: self.from_view,
            to_view: self.to_view,
            high_qc: copy_option_certificate(&self.high_qc),
            sender: self.sender,
            signature: copy_bytes(&self.signature),
        }
    }
}

/// The contents of a list of view changes.
pub open spec fn view_change_views(list: Seq<ViewChange>) -> Seq<ViewChangeView> {
    list.map_values(|v: ViewChange| v@)
}

/// Copies a list of view changes.
pub fn copy_view_changes(list: &Vec<ViewChange>) -> (r: Vec<ViewChange>)
    ensures
        view_change_views(r@) == view_change_views(list@),
{
    let mut r: Vec<ViewChange> = Vec::new();
    let mut i: usize = 0;
    while i < list.len()
        invariant
            i <= list.len(),
            r.len() == i,
            forall|k: int| 0 <= k < i ==> (#[trigger] r[k])@ == list[k]@,
        decreases list.len() - i,
    {
        r.push(list[i].clone());
        i = i + 1;
    }
    assert(view_change_views(r@) =~= view_change_views(list@));
    r
}

/// Evidence that a quorum asked for a view.
pub struct ViewChangeCertificate {
    pub epoch: u64,
    pub committee_hash: Hash32,
    pub genesis_hash: Hash32,
    pub view: u64,
    pub view_changes: Vec<ViewChange>,
}

/// The contents of a view-change certificate.
pub ghost struct ViewChangeCertificateView {
    pub context: ConsensusContext,
    pub view: u64,
    pub view_changes: Seq<ViewChangeView>,
}

impl vstd::view::View for ViewChangeCertificate {
    type V = ViewChangeCertificateView;

    open spec fn view(&self) -> ViewChangeCertificateView {
        ViewChangeCertificateView {
            context: ConsensusContext {
                epoch: self.epoch,
                committee_hash: self.committee_hash,
                genesis_hash: self.genesis_hash,
            },
            view: self.view,
            view_changes: view_change_views(self.view_changes@),
        }
    }
}

/// The certificate of the highest view among view changes; the first one
/// wins a tie.
pub open spec fn highest_qc_of(list: Seq<ViewChangeView>) -> Option<CertificateView>
    decreases list.len(),
{
    if list.len() == 0 {
        None
    } else {
        let best = highest_qc_of(list.drop_last());
        match list.last().high_qc {
            None => best,
            Some(qc) => if best is Some && qc.view <= best->Some_0.view {
                best
            } else {
                Some(qc)
            },
        }
    }
}

/// Finds the certificate of the highest view among view changes.
pub fn find_highest_qc(list: &Vec<ViewChange>) -> (r: Option<Certificate>)
    ensures
        option_certificate(r) == highest_qc_of(view_change_views(list@)),
{
    let ghost vs = view_change_views(list@);
    let mut best: Option<Certificate> = None;
    let mut i: usize = 0;
    assert(vs.take(0).len() == 0);
    while i < list.len()
        invariant
            i <= list.len(),
            vs == view_change_views(list@),
            option_certificate(best) == highest_qc_of(vs.take(i as int)),
        decreases list.len() - i,
    {
        assert(vs[i as int] == list[i as int]@);
        assert(vs.take(i + 1).drop_last() =~= vs.take(i as int));
        assert(vs.take(i + 1).last() == list[i as int]@);
        if let Some(qc) = &list[i].high_qc {
            let better = match &best {
                Some(b) => qc.view > b.view,
                None => true,
            };
            if better {
                best = Some(qc.clone());
            }
        }
        i = i + 1;
    }
    assert(vs.take(vs.len() as int) =~= vs);
    best
}

impl ViewChangeCertificate {
    /// The context of the certificate.
    pub fn context(&self) -> (r: ConsensusContext)
        ensures
            r == self@.context,
    {
        ConsensusContext {
            epoch: self.epoch,
            committee_hash: self.committee_hash,
            genesis_hash: self.genesis_hash,
        }
    }

    /// The certificate of the highest view among the view changes.
    pub fn highest_qc(&self) -> (r: Option<Certificate>)
        ensures
            option_certificate(r) == highest_qc_of(self@.view_changes),
    {
        find_highest_qc(&self.view_changes)
    }
}

impl Clone for ViewChangeCertificate {
    fn clone(&self) -> (r: Self)
        ensures
            r@ == self@,
    {
        ViewChangeCertificate {
            epoch: self.epoch,
            committee_hash: self.committee_hash,
            genesis_hash: self.genesis_hash,
            view: self.view,
            view_changes: copy_view_changes(&self.view_changes),
        }
    }
}

/// A new leader's announcement of its view.
pub struct NewView {
    pub epoch: u64,
    pub committee_hash: Hash32,
    pub genesis_hash: Hash32,
    pub view: u64,
    pub high_qc: Option<Certificate>,
    pub view_change_cert: ViewChangeCertificate,
}

/// The contents of a new-view announcement.
pub ghost struct NewViewView {
    pub context: ConsensusContext,
    pub view: u64,
    pub high_qc: Option<CertificateView>,
    pub view_change_cert: ViewChangeCertificateView,
}

impl vstd::view::View for NewView {
    type V = NewViewView;

    open spec fn view(&self) -> NewViewView {
        NewViewView {
            context: ConsensusContext {
                epoch: self.epoch,
                committee_hash: self.committee_hash,
                genesis_hash: self.genesis_hash,
            },
            view: self.view,
            high_qc: option_certificate(self.high_qc),
            view_change_cert: self.view_change_cert@,
        }
    }
}

impl NewView {
    /// The context of the announcement.
    pub fn context(&self) -> (r: ConsensusContext)
        ensures
            r == self@.context,
    {
        ConsensusContext {
            epoch: self.epoch,
            committee_hash: self.committee_hash,
            genesis_hash: self.genesis_hash,
        }
    }
}

/// A leader's proposal of a block.
pub struct Propose {
    pub epoch: u64,
    pub committee_hash: Hash32,
    pub genesis_hash: Hash32,
    pub block: Block,
    pub justify: Option<Certificate>,
    pub proposer_signature: Vec<u8>,
}

/// The contents of a proposal.
pub ghost struct ProposeView {
    pub context: ConsensusContext,
    pub block: BlockView,
    pub justify: Option<CertificateView>,
    pub proposer_signature: Seq<u8>,
}

impl vstd::view::View for Propose {
    type V = ProposeView;

    open spec fn view(&self) -> ProposeView {
        ProposeView {
            context: ConsensusContext {
                epoch: self.epoch,
                committee_hash: self.committee_hash,
                genesis_hash: self.genesis_hash,
            },
            block: self.block@,
            justify: option_certificate(self.justify),
            proposer_signature: self.proposer_signature@,
        }
    }
}

/// The message that a leader signs to propose a block.
pub open spec fn propose_message(context: ConsensusContext, block: BlockView) -> Seq<u8> {
    seq![7u8] + context_bytes(context) + block_hash(block)@
}

impl Propose {
    /// The context of the proposal.
    pub fn context(&self) -> (r: ConsensusContext)
        ensures
            r == self@.context,
    {
        ConsensusContext {
            epoch: self.epoch,
            committee_hash: self.committee_hash,
            genesis_hash: self.genesis_hash,
        }
    }

    /// Fails unless the proposal and its block belong to the expected context.
    pub fn validate_context(&self, expected: ConsensusContext) -> (r: Result<(), ContextMismatch>)
        ensures
            r is Ok <==> self@.context == expected && self@.block.context == expected,
    {
        if self.context().same_as(&expected) {
            self.block.validate_context(expected)
        } else {
            Err(ContextMismatch)
        }
    }

    /// The message that the proposer's signature is on.
    pub fn signing_data(&self) -> (r: Vec<u8>)
        ensures
            r@ == propose_message(self@.context, self@.block),
    {
        let mut out: Vec<u8> = Vec::new();
        out.push(7u8);
        self.context().put(&mut out);
        put_hash(&mut out, &self.block.hash());
        assert(out@ =~= propose_message(self@.context, self@.block));
        out
    }
}

impl Clone for Propose {
    fn clone(&self) -> (r: Self)
        ensures
            r@ == self@,
    {
        Propose {
            epoch: self.epoch,
            committee_hash: self.committee_hash,
            genesis_hash: self.genesis_hash,
            block: self.block.clone(),
            justify: copy_option_certificate(&self.justify),
            proposer_signature: copy_bytes(&self.proposer_signature),
        }
    }
}

/// A leader's announcement that a block was certified.
pub struct Prepare {
    pub epoch: u64,
    pub committee_hash: Hash32,
    pub genesis_hash: Hash32,
    pub view: u64,
    pub qc: Certificate,
}

/// The contents of a certification announcement.
pub ghost struct PrepareView {
    pub context: ConsensusContext,
    pub view: u64,
    pub qc: CertificateView,
}

impl vstd::view::View for Prepare {
    type V = PrepareView;

    open spec fn view(&self) -> PrepareView {
        PrepareView {
            context: ConsensusContext {
                epoch: self.epoch,
                committee_hash: self.committee_hash,
                genesis_hash: self.genesis_hash,
            },
            view: self.view,
            qc: self.qc@,
        }
    }
}

impl Prepare {
    /// The context of the announcement.
    pub fn context(&self) -> (r: ConsensusContext)
        ensures
            r == self@.context,
    {
        ConsensusContext {
            epoch: self.epoch,
            committee_hash: self.committee_hash,
            genesis_hash: self.genesis_hash,
        }
    }
}

/// The consensus state that survives a restart.
pub struct ConsensusState {
    pub epoch: u64,
    pub committee_hash: Hash32,
    pub genesis_hash: Hash32,
    pub high_qc: Option<Certificate>,
    pub locked_qc: Option<Certificate>,
    pub voted_views: Vec<u64>,
    pub current_view: u64,
    pub committed_height: u64,
    pub committed_hash: Hash32,
    pub consecutive_timeouts: u32,
    pub vc_sent_for_view: Option<u64>,
}

/// The contents of the surviving state; the order of the votes is not part of
/// it.
pub ghost struct ConsensusStateView {
    pub context: ConsensusContext,
    pub high_qc: Option<CertificateView>,
    pub locked_qc: Option<CertificateView>,
    pub voted: Set<u64>,
    pub current_view: u64,
    pub committed_height: u64,
    pub committed_hash: Hash32,
    pub consecutive_timeouts: u32,
    pub vc_sent_for_view: Option<u64>,
}

impl vstd::view::View for ConsensusState {
    type V = ConsensusStateView;

    open spec fn view(&self) -> ConsensusStateView {
        ConsensusStateView {
            context: ConsensusContext {
                epoch: self.epoch,
                committee_hash: self.committee_hash,
                genesis_hash: self.genesis_hash,
            },
            high_qc: option_certificate(self.high_qc),
            locked_qc: option_certificate(self.locked_qc),
            voted: self.voted_views@.to_set(),
            current_view: self.current_view,
            committed_height: self.committed_height,
            committed_hash: self.committed_hash,
            consecutive_timeouts: self.consecutive_timeouts,
            vc_sent_for_view: self.vc_sent_for_view,
        }
    }
}

impl ConsensusState {
    /// The context of the state.
    pub fn context(&self) -> (r: ConsensusContext)
        ensures
            r == self@.context,
    {
        ConsensusContext {
            epoch: self.epoch,
            committee_hash: self.committee_hash,
            genesis_hash: self.genesis_hash,
        }
    }
}

/// A change of the validators, as the next epoch is staged with it.
pub struct EpochTransitionProof {
    pub effective_height: u64,
    pub old_qc: Certificate,
    pub node_ids: Vec<NodeId>,
    pub voting_powers: Vec<u64>,
    pub bls_pubkeys: Vec<Vec<u8>>,
}

/// The contents of a staged change of the validators.
pub ghost struct TransitionView {
    pub effective_height: u64,
    pub old_qc: CertificateView,
    pub node_ids: Seq<NodeId>,
    pub voting_powers: Seq<u64>,
    pub bls_pubkeys: Seq<Seq<u8>>,
}

impl vstd::view::View for EpochTransitionProof {
    type V = TransitionView;

    open spec fn view(&self) -> TransitionView {
        TransitionView {
            effective_height: self.effective_height,
            old_qc: self.old_qc@,
            node_ids: self.node_ids@,
            voting_powers: self.voting_powers@,
            bls_pubkeys: byte_rows(self.bls_pubkeys@),
        }
    }
}

impl Clone for EpochTransitionProof {
    fn clone(&self) -> (r: Self)
        ensures
            r@ == self@,
    {
        let mut voting_powers: Vec<u64> = Vec::new();
        let mut i: usize = 0;
        while i < self.voting_powers.len()
            invariant
                i <= self.voting_powers.len(),
                voting_powers@ == self.voting_powers@.take(i as int),
            decreases self.voting_powers.len() - i,
        {
            voting_powers.push(self.voting_powers[i]);
            i = i + 1;
            assert(voting_powers@ =~= self.voting_powers@.take(i as int));
        }
        assert(voting_powers@ =~= self.voting_powers@);
        EpochTransitionProof {
            effective_height: self.effective_height,
            old_qc: self.old_qc.clone(),
            node_ids: copy_hashes(&self.node_ids),
            voting_powers,
            bls_pubkeys: copy_rows(&self.bls_pubkeys),
        }
    }
}

impl Clone for NewView {
    fn clone(&self) -> (r: Self)
        ensures
            r@ == self@,
    {
        NewView {
            epoch: self.epoch,
            committee_hash: self.committee_hash,
            genesis_hash: self.genesis_hash,
            view: self.view,
            high_qc: copy_option_certificate(&self.high_qc),
            view_change_cert: self.view_change_cert.clone(),
        }
    }
}

impl Clone for Prepare {
    fn clone(&self) -> (r: Self)
        ensures
            r@ == self@,
    {
        Prepare {
            epoch: self.epoch,
            committee_hash: self.committee_hash,
            genesis_hash: self.genesis_hash,
            view: self.view,
            qc: self.qc.clone(),
        }
    }
}

/// The highest certificate among view changes is one that a view change carries;
/// no view change carries one of a higher view, and none before it one of the
/// same view. There is none exactly if no view change carries one.
pub proof fn lemma_highest_qc_is_maximal(list: Seq<ViewChangeView>)
    ensures
        highest_qc_of(list) is None <==> (forall|i: int|
            0 <= i < list.len() ==> (#[trigger] list[i]).high_qc is None),
        highest_qc_of(list) matches Some(best) ==> exists|k: int|
            {
                &&& 0 <= k < list.len()
                &&& (#[trigger] list[k]).high_qc == Some(best)
                &&& forall|i: int|
                    0 <= i < list.len() ==> ((#[trigger] list[i]).high_qc matches Some(qc)
                        ==> qc.view <= best.view && (i < k ==> qc.view < best.view))
            },
    decreases list.len(),
{
    if list.len() > 0 {
        let front = list.drop_last();
        let n = list.len() - 1;
        lemma_highest_qc_is_maximal(front);
        assert(list[n] == list.last());
        assert forall|i: int| 0 <= i < n implies #[trigger] list[i] == front[i] by {}
        if let Some(best) = highest_qc_of(list) {
            if highest_qc_of(front) == Some(best) && !(list.last().high_qc matches Some(qc)
                && qc.view > best.view) {
                let k = choose|k: int|
                    {
                        &&& 0 <= k < front.len()
                        &&& (#[trigger] front[k]).high_qc == Some(best)
                        &&& forall|i: int|
                            0 <= i < front.len() ==> ((#[trigger] front[i]).high_qc matches Some(qc)
                                ==> qc.view <= best.view && (i < k ==> qc.view < best.view))
                    };
                assert(list[k].high_qc == Some(best));
                assert forall|i: int| 0 <= i < list.len() implies ((
                #[trigger] list[i]).high_qc matches Some(qc) ==> qc.view <= best.view && (i < k
                    ==> qc.view < best.view)) by {
                    if i < n {
                        assert(front[i] == list[i]);
                    }
                }
            } else {
                assert(list[n].high_qc == Some(best));
                assert forall|i: int| 0 <= i < list.len() implies ((
                #[trigger] list[i]).high_qc matches Some(qc) ==> qc.view <= best.view && (i < n
                    ==> qc.view < best.view)) by {
                    if i < n {
                        assert(front[i] == list[i]);
                    }
                }
            }
        }
    }
}

/// No message that is signed or hashed for one purpose is one for another.
pub proof fn lemma_purposes_disjoint(
    context: ConsensusContext,
    other: ConsensusContext,
    view: u64,
    from_view: u64,
    to_view: u64,
    high_qc: Option<CertificateView>,
    id: NodeId,
    block: BlockView,
    hash: Hash32,
    app_hash: Hash32,
)
    ensures
        ({
            let vote = crate::types::vote::vote_message(context, view, hash, app_hash);
            let timeout = timeout_message(other, view);
            let change = view_change_message(other, from_view, to_view, high_qc, id);
            let propose = propose_message(other, block);
            let header = crate::types::block::header_bytes(block);
            &&& vote != timeout
            &&& vote != change
            &&& vote != propose
            &&& vote != header
            &&& timeout != change
            &&& timeout != propose
            &&& timeout != header
            &&& change != propose
            &&& change != header
            &&& propose != header
        }),
{
    let vote = crate::types::vote::vote_message(context, view, hash, app_hash);
    let timeout = timeout_message(other, view);
    let change = view_change_message(other, from_view, to_view, high_qc, id);
    let propose = propose_message(other, block);
    let header = crate::types::block::header_bytes(block);
    assert(vote[0] == 1);
    assert(timeout[0] == 2);
    assert(header[0] == 3);
    assert(change[0] == 6);
    assert(propose[0] == 7);
}

/// A signature on a timeout is for one context and one view.
pub proof fn lemma_timeout_message_injective(
    a: ConsensusContext,
    view_a: u64,
    b: ConsensusContext,
    view_b: u64,
)
    requires
        timeout_message(a, view_a) == timeout_message(b, view_b),
    ensures
        a == b,
        view_a == view_b,
{
    vstd::bytes::lemma_auto_spec_u64_to_from_le_bytes();
    crate::types::context::lemma_context_len(a);
    crate::types::context::lemma_context_len(b);
    let one = seq![2u8];
    let va = vstd::bytes::spec_u64_to_le_bytes(view_a);
    let vb = vstd::bytes::spec_u64_to_le_bytes(view_b);
    crate::bytes::lemma_split(one + context_bytes(a), va, one + context_bytes(b), vb);
    crate::bytes::lemma_split(one, context_bytes(a), one, context_bytes(b));
    crate::types::context::lemma_context_injective(a, b);
}

/// A signature on a proposal is for one context and one block.
pub proof fn lemma_propose_message_injective(
    a: ConsensusContext,
    block_a: BlockView,
    b: ConsensusContext,
    block_b: BlockView,
)
    requires
        propose_message(a, block_a) == propose_message(b, block_b),
    ensures
        a == b,
        block_hash(block_a) == block_hash(block_b),
{
    crate::types::context::lemma_context_len(a);
    crate::types::context::lemma_context_len(b);
    let one = seq![7u8];
    let ha = block_hash(block_a);
    let hb = block_hash(block_b);
    crate::bytes::lemma_hash_view(ha, hb);
    crate::bytes::lemma_split(one + context_bytes(a), ha@, one + context_bytes(b), hb@);
    crate::bytes::lemma_split(one, context_bytes(a), one, context_bytes(b));
    crate::types::context::lemma_context_injective(a, b);
}

/// A signature on a view change is for one context, one step of views, one sender
/// and one certificate, as far as its view and block go.
pub proof fn lemma_view_change_message_injective(
    a: ConsensusContext,
    from_a: u64,
    to_a: u64,
    qc_a: Option<CertificateView>,
    sender_a: NodeId,
    b: ConsensusContext,
    from_b: u64,
    to_b: u64,
    qc_b: Option<CertificateView>,
    sender_b: NodeId,
)
    requires
        view_change_message(a, from_a, to_a, qc_a, sender_a) == view_change_message(
            b,
            from_b,
            to_b,
            qc_b,
            sender_b,
        ),
    ensures
        a == b,
        from_a == from_b,
        to_a == to_b,
        sender_a == sender_b,
        qc_a is Some <==> qc_b is Some,
        qc_a is Some ==> qc_a->Some_0.view == qc_b->Some_0.view && qc_a->Some_0.block_hash
            == qc_b->Some_0.block_hash,
{
    vstd::bytes::lemma_auto_spec_u64_to_from_le_bytes();
    crate::types::context::lemma_context_len(a);
    crate::types::context::lemma_context_len(b);
    let one = seq![6u8];
    let qa = match qc_a {
        Some(c) => vstd::bytes::spec_u64_to_le_bytes(c.view) + c.block_hash@,
        None => Seq::empty(),
    };
    let qb = match qc_b {
        Some(c) => vstd::bytes::spec_u64_to_le_bytes(c.view) + c.block_hash@,
        None => Seq::empty(),
    };
    let a1 = one + context_bytes(a);
    let b1 = one + context_bytes(b);
    let a2 = a1 + vstd::bytes::spec_u64_to_le_bytes(from_a);
    let b2 = b1 + vstd::bytes::spec_u64_to_le_bytes(from_b);
    let a3 = a2 + vstd::bytes::spec_u64_to_le_bytes(to_a);
    let b3 = b2 + vstd::bytes::spec_u64_to_le_bytes(to_b);
    crate::bytes::lemma_hash_view(sender_a, sender_b);
    crate::bytes::lemma_split(a3 + sender_a@, qa, b3 + sender_b@, qb);
    crate::bytes::lemma_split(a3, sender_a@, b3, sender_b@);
    crate::bytes::lemma_split(
        a2,
        vstd::bytes::spec_u64_to_le_bytes(to_a),
        b2,
        vstd::bytes::spec_u64_to_le_bytes(to_b),
    );
    crate::bytes::lemma_split(
        a1,
        vstd::bytes::spec_u64_to_le_bytes(from_a),
        b1,
        vstd::bytes::spec_u64_to_le_bytes(from_b),
    );
    crate::bytes::lemma_split(one, context_bytes(a), one, context_bytes(b));
    crate::types::context::lemma_context_injective(a, b);
    assert(qa.len() == qb.len());
    if let Some(c) = qc_a {
        if let Some(d) = qc_b {
            crate::bytes::lemma_hash_view(c.block_hash, d.block_hash);
            crate::bytes::lemma_split(
                vstd::bytes::spec_u64_to_le_bytes(c.view),
                c.block_hash@,
                vstd::bytes::spec_u64_to_le_bytes(d.view),
                d.block_hash@,
            );
        }
    }
}

/// What the contents of messages are: their fields, under the context that they name.
pub proof fn lemma_message_contents(
    t: Timeout,
    vc: ViewChange,
    nv: NewView,
    p: Propose,
    q: Prepare,
    s: ConsensusState,
    view: u64,
)
    ensures
        t@.view == t.view && t@.high_qc_view == t.high_qc_view && t@.sender == t.sender
            && t@.signature == t.signature@ && t@.context.epoch == t.epoch,
        vc@.from_view == vc.from_view && vc@.to_view == vc.to_view && vc@.sender == vc.sender
            && vc@.signature == vc.signature@ && vc@.high_qc == option_certificate(vc.high_qc),
        nv@.view == nv.view && nv@.high_qc == option_certificate(nv.high_qc) && nv@.view_change_cert
            == nv.view_change_cert@,
        p@.block == p.block@ && p@.justify == option_certificate(p.justify)
            && p@.proposer_signature == p.proposer_signature@,
        q@.view == q.view && q@.qc == q.qc@,
        s@.high_qc == option_certificate(s.high_qc) && s@.locked_qc == option_certificate(
            s.locked_qc,
        ) && s@.current_view == s.current_view && s@.committed_height == s.committed_height
            && s@.committed_hash == s.committed_hash && s@.consecutive_timeouts
            == s.consecutive_timeouts && s@.vc_sent_for_view == s.vc_sent_for_view,
        s@.voted.contains(view) <==> s.voted_views@.contains(view),
{
}

} // verus!
