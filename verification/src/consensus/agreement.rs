//! Agreement: validators that keep the voting rules never finalize conflicting
//! blocks in consecutive views.
//!
//! A block counts as finalized here if it and a child of it are certified in
//! consecutive views. A node commits the parent of every certified block that
//! descends from its head, whether or not the two views follow one another. Its
//! commits are therefore covered only where they do: with a gap between the
//! views, two nodes may commit different children of one block.
//!
//! Two things are assumed of the validators and not shown of the runner. The
//! views in which a validator votes rise: the loop around the runner brings this
//! about, because every round waits for the proposal of the current view alone.
//! And the views of certified blocks rise from parent to child: this is what
//! leaders that propose in their own view, on a certificate of an earlier one,
//! bring about; the rules of voting do not ask for it.

use vstd::prelude::*;

use crate::bytes::{Hash32, NodeId};
use crate::consensus::committee::{certificate_check, lemma_verified_certificate};
use crate::consensus::runner::RunnerView;
use crate::consensus::safety::SafetyView;
use crate::consensus::store::ancestor;
use crate::types::block::{block_hash, BlockView};
use crate::types::certificate::CertificateView;
use crate::types::committee::{
    lemma_power_bounds, lemma_quorum_intersection, power_of, total_power, valid_members, MemberView,
};
use crate::types::context::ConsensusContext;
use crate::types::messages::ProposeView;
use crate::types::vote::VoteView;

verus! {

/// A vote as it was cast: the voting rules before it, the block, and the
/// certificate that came with the block.
pub ghost struct Cast {
    pub before: SafetyView,
    pub block: BlockView,
    pub justify: Option<CertificateView>,
}

impl Cast {
    /// The voting rules once the certificate is taken into account.
    pub open spec fn rules(self) -> SafetyView {
        match self.justify {
            Some(qc) => self.before.after_high_qc(qc),
            None => self.before,
        }
    }

    /// The vote keeps the rules: above the first height a certificate for the
    /// parent comes with the block, and the block breaks no voting rule.
    pub open spec fn allowed(self) -> bool {
        &&& self.block.height > 1 ==> (self.justify matches Some(qc) && qc.block_hash
            == self.block.parent && qc.context == self.block.context)
        &&& self.rules().check(self.block, self.block.app_hash) is Ok
    }

    /// The voting rules after the vote.
    pub open spec fn after(self) -> SafetyView {
        self.rules().after_vote(self.block.view)
    }
}

/// The highest certificate did not fall back.
pub open spec fn kept(a: SafetyView, b: SafetyView) -> bool {
    a.high_qc matches Some(held) ==> (b.high_qc matches Some(qc) && qc.view >= held.view)
}

/// The history of a validator that keeps the rules: each vote is allowed, the
/// views rise, which is assumed, and between votes the highest certificate does
/// not fall back.
pub open spec fn keeps_rules(history: Seq<Cast>) -> bool {
    &&& forall|i: int| 0 <= i < history.len() ==> (#[trigger] history[i]).allowed()
    &&& forall|i: int, j: int|
        0 <= i < j < history.len() ==> (#[trigger] history[i]).block.view < (
        #[trigger] history[j]).block.view && kept(history[i].after(), history[j].before)
}

/// What a committee brings forth: the histories of the correct validators, the
/// certificates, and the blocks by their hashes.
pub ghost struct Network {
    pub members: Seq<MemberView>,
    pub context: ConsensusContext,
    pub require_bls: bool,
    pub correct: Set<NodeId>,
    pub history: Map<NodeId, Seq<Cast>>,
    pub certificates: Set<CertificateView>,
    pub blocks: Map<Hash32, BlockView>,
}

impl Network {
    /// A certificate verifies against the committee.
    pub open spec fn verified(self, c: CertificateView) -> bool {
        certificate_check(
            self.members,
            c,
            self.context,
            c.view,
            c.block_hash,
            None,
            self.require_bls,
        ) is Ok
    }

    /// A validator cast a vote for the block of a certificate, at a position
    /// of its history.
    pub open spec fn cast_at(self, v: NodeId, c: CertificateView, i: int) -> bool {
        &&& 0 <= i < self.history[v].len()
        &&& self.history[v][i].block.view == c.view
        &&& block_hash(self.history[v][i].block) == c.block_hash
    }

    /// The block of a vote is the one that its hash names.
    pub open spec fn names_block(self, cast: Cast) -> bool {
        let h = block_hash(cast.block);
        &&& self.blocks.contains_key(h)
        &&& self.blocks[h].parent == cast.block.parent
        &&& self.blocks[h].view == cast.block.view
        &&& self.blocks[h].height == cast.block.height
    }

    /// At most a third of the voting power is faulty; correct validators keep
    /// the rules and retain verified certificates only; a correct signer of a
    /// certificate voted for its block; a hash names one block; and the views
    /// of certified blocks rise from parent to child, which is assumed.
    pub open spec fn valid(self) -> bool {
        &&& valid_members(self.members)
        &&& 3 * power_of(self.members, self.correct.complement()) <= total_power(self.members)
        &&& forall|v: NodeId| #[trigger]
            self.correct.contains(v) ==> keeps_rules(self.history[v])
        &&& forall|c: CertificateView| #[trigger]
            self.certificates.contains(c) ==> self.verified(c)
        &&& forall|c: CertificateView, v: NodeId|
            self.certificates.contains(c) && self.correct.contains(v) && #[trigger] c.signers().contains(
                v,
            ) ==> exists|i: int| #[trigger] self.cast_at(v, c, i)
        &&& forall|v: NodeId, i: int|
            self.correct.contains(v) && 0 <= i < self.history[v].len() ==> {
                let cast = #[trigger] self.history[v][i];
                &&& self.names_block(cast)
                &&& cast.rules().high_qc matches Some(qc) ==> self.certificates.contains(qc)
            }
        &&& forall|c: CertificateView, d: CertificateView|
            #![trigger self.certificates.contains(c), self.certificates.contains(d)]
            self.certificates.contains(c) && self.certificates.contains(d)
                && self.blocks[c.block_hash].parent == d.block_hash ==> d.view < c.view
    }

    /// A block is another one or descends from it.
    pub open spec fn descends(self, h: Hash32, from: Hash32) -> bool {
        exists|n: nat| #[trigger] ancestor(self.blocks, h, n) == Some(from)
    }

    /// A block is finalized: it and a child of it are certified, in
    /// consecutive views.
    pub open spec fn finalized(self, b: CertificateView, child: CertificateView) -> bool {
        &&& self.certificates.contains(b)
        &&& self.certificates.contains(child)
        &&& self.blocks[child.block_hash].parent == b.block_hash
        &&& self.blocks[child.block_hash].height > 1
        &&& child.view == b.view + 1
    }
}

/// Any two certificates have a correct signer in common, who voted for both
/// blocks.
proof fn lemma_common_voter(net: Network, a: CertificateView, b: CertificateView) -> (r: (NodeId, int, int))
    requires
        net.valid(),
        net.certificates.contains(a),
        net.certificates.contains(b),
    ensures
        net.correct.contains(r.0),
        net.cast_at(r.0, a, r.1),
        net.cast_at(r.0, b, r.2),
{
    let sa = a.signers().to_set();
    let sb = b.signers().to_set();
    lemma_verified_certificate(
        net.members,
        a,
        net.context,
        a.view,
        a.block_hash,
        None,
        net.require_bls,
    );
    lemma_verified_certificate(
        net.members,
        b,
        net.context,
        b.view,
        b.block_hash,
        None,
        net.require_bls,
    );
    lemma_quorum_intersection(net.members, sa, sb);
    let both = sa.intersect(sb);
    if forall|v: NodeId| both.contains(v) ==> !net.correct.contains(v) {
        lemma_power_bounds(net.members, both, net.correct.complement());
    }
    let v = choose|v: NodeId| both.contains(v) && net.correct.contains(v);
    assert(a.signers().contains(v));
    assert(b.signers().contains(v));
    let i = choose|i: int| net.cast_at(v, a, i);
    let j = choose|j: int| net.cast_at(v, b, j);
    (v, i, j)
}

/// A certificate is of the view of its block.
proof fn lemma_certified_view(net: Network, c: CertificateView)
    requires
        net.valid(),
        net.certificates.contains(c),
    ensures
        net.blocks.contains_key(c.block_hash),
        net.blocks[c.block_hash].view == c.view,
{
    let (v, i, _) = lemma_common_voter(net, c, c);
    assert(net.names_block(net.history[v][i]));
}

/// In one view at most one block is certified.
pub proof fn lemma_one_certified_block_per_view(net: Network, a: CertificateView, b: CertificateView)
    requires
        net.valid(),
        net.certificates.contains(a),
        net.certificates.contains(b),
        a.view == b.view,
    ensures
        a.block_hash == b.block_hash,
{
    let (v, i, j) = lemma_common_voter(net, a, b);
    assert(keeps_rules(net.history[v]));
    if i < j {
        assert(net.history[v][i].block.view < net.history[v][j].block.view);
    } else if j < i {
        assert(net.history[v][j].block.view < net.history[v][i].block.view);
    }
}

/// A vote that keeps the rules, for a block above the first height, is for a
/// child of the block of the highest certificate.
proof fn lemma_cast_on_high_qc(cast: Cast)
    requires
        cast.allowed(),
        cast.block.height > 1,
    ensures
        cast.rules().high_qc matches Some(qc) && qc.block_hash == cast.block.parent,
        cast.after().high_qc == cast.rules().high_qc,
{
}

/// What is certified after a block was finalized descends from it.
pub proof fn lemma_certified_after_finalized(
    net: Network,
    b: CertificateView,
    child: CertificateView,
    c: CertificateView,
)
    requires
        net.valid(),
        net.finalized(b, child),
        net.certificates.contains(c),
        c.view >= b.view,
    ensures
        net.descends(c.block_hash, b.block_hash),
    decreases c.view,
{
    lemma_certified_view(net, b);
    lemma_certified_view(net, child);
    lemma_certified_view(net, c);
    if c.view == b.view {
        lemma_one_certified_block_per_view(net, c, b);
        assert(ancestor(net.blocks, c.block_hash, 0) == Some(b.block_hash));
    } else if c.view == child.view {
        lemma_one_certified_block_per_view(net, c, child);
        assert(ancestor(net.blocks, c.block_hash, 0) == Some(c.block_hash));
        assert(ancestor(net.blocks, c.block_hash, 1) == Some(b.block_hash)) by {
            reveal_with_fuel(ancestor, 2);
        }
    } else {
        let (v, i, j) = lemma_common_voter(net, child, c);
        let history = net.history[v];
        assert(keeps_rules(history));
        let first = history[i];
        let later = history[j];
        assert(net.names_block(first));
        assert(net.names_block(later));
        assert(first.allowed());
        assert(later.allowed());
        if j < i {
            assert(history[j].block.view < history[i].block.view);
        }
        assert(i < j);
        lemma_cast_on_high_qc(first);
        let held = first.rules().high_qc->Some_0;
        assert(net.certificates.contains(held));
        assert(held.block_hash == b.block_hash);
        lemma_certified_view(net, held);
        assert(held.view == b.view);
        assert(kept(first.after(), later.before));
        assert(later.rules().high_qc is Some);
        let base = later.rules().high_qc->Some_0;
        assert(base.view >= held.view);
        assert(net.certificates.contains(base));
        assert(base.block_hash == later.block.parent);
        assert(net.blocks[c.block_hash].parent == base.block_hash);
        lemma_certified_after_finalized(net, b, child, base);
        let n = choose|n: nat| #[trigger]
            ancestor(net.blocks, base.block_hash, n) == Some(b.block_hash);
        lemma_ancestor_shift(net.blocks, c.block_hash, n);
    }
}

proof fn lemma_ancestor_shift(blocks: Map<Hash32, BlockView>, h: Hash32, i: nat)
    requires
        blocks.contains_key(h),
    ensures
        ancestor(blocks, blocks[h].parent, i) == ancestor(blocks, h, i + 1),
    decreases i,
{
    reveal_with_fuel(ancestor, 2);
    if i > 0 {
        lemma_ancestor_shift(blocks, h, (i - 1) as nat);
    }
}

/// No conflicting blocks are finalized in consecutive views: of any two, one
/// descends from the other.
pub proof fn lemma_no_conflicting_commits(
    net: Network,
    a: CertificateView,
    a_child: CertificateView,
    b: CertificateView,
    b_child: CertificateView,
)
    requires
        net.valid(),
        net.finalized(a, a_child),
        net.finalized(b, b_child),
    ensures
        net.descends(a.block_hash, b.block_hash) || net.descends(b.block_hash, a.block_hash),
{
    if a.view >= b.view {
        lemma_certified_after_finalized(net, b, b_child, a);
    } else {
        lemma_certified_after_finalized(net, a, a_child, b);
    }
}

/// The votes of a node on proposals are casts that keep the rules.
pub proof fn lemma_node_vote_keeps_rules(
    s: RunnerView,
    p: ProposeView,
    now: u64,
    after: RunnerView,
    vote: VoteView,
)
    requires
        s.votes(p, now, after, vote),
    ensures
        ({
            let cast = Cast { before: s.safety, block: p.block, justify: p.justify };
            &&& cast.allowed()
            &&& after.safety == cast.after()
            &&& vote.view == p.block.view
            &&& vote.block_hash == block_hash(p.block)
        }),
{
}

/// Certificates and commits do not let the highest certificate of a node fall
/// back.
pub proof fn lemma_node_keeps_high_qc(
    s: RunnerView,
    qc: CertificateView,
    blocks: Seq<BlockView>,
    after: RunnerView,
)
    ensures
        kept(s.safety, s.with_qc(qc).safety),
        s.advances(blocks, after) ==> kept(s.safety, after.safety),
{
}

} // verus!
