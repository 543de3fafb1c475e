//! The blocks that a node knows, and how they hang together.

use vstd::prelude::*;

use crate::bytes::{contains_hash, hash_eq, insert_hash, lemma_push_set, Hash32};
use crate::consensus::hooks::AppHook;
use crate::consensus::persistence::{journal_adds, journal_keeps, Halt, PersistentStore};
use crate::consensus::runner::asks::{holds, journal_refuses, journal_takes, pruning_done, pruning_fails};
use crate::consensus::runner::{
    ConsensusRunner, RunnerView, MAX_PENDING_BLOCKS, MAX_PENDING_BYTES, MAX_PENDING_DEPTH,
    MAX_PENDING_SOFT_BLOCKS, MAX_PENDING_SOFT_BYTES,
};
use crate::consensus::safety::{Safety, SafetyView};
use crate::consensus::store::{
    admission, ancestor, below_root, block_map, lemma_ancestor_step, lemma_cycle, lemma_dead_end,
    lemma_order_exists, reaches, BlockStore, StoreError, StoreView,
};
use crate::table::{has_key, lemma_row};
use crate::types::block::{block_hash, block_views, genesis_block, option_block, Block, BlockView};
use crate::types::certificate::{option_certificate, Certificate, CertificateView};
use crate::types::context::ConsensusContext;

verus! {

/// Why a branch cannot be replayed from the committed head.
#[derive(Clone, Copy, Debug, PartialEq, Eq)]
pub enum BranchError {
    /// The committed head is not known.
    HeadUnavailable,
    /// The branch is longer than may be replayed.
    TooDeep,
    /// The parent links form a cycle.
    Cyclic,
    /// A block of the branch is not known.
    Unavailable,
    /// A block of the branch belongs to another context.
    Context,
    /// The branch leads below the committed height.
    BelowCommitted,
    /// The heights or hashes along the branch do not fit together.
    Broken,
}

/// Why a block cannot become pending.
#[derive(Clone, Copy, Debug, PartialEq, Eq)]
pub enum PendingError {
    /// The block is too far above the committed head.
    TooHigh { height: u64, committed: u64 },
    /// There is no room for another block.
    Full,
}

/// The next number, or the largest one.
pub open spec fn next_or_max(n: u64) -> u64 {
    if n == u64::MAX {
        u64::MAX
    } else {
        (n + 1) as u64
    }
}

/// The next number, or the largest one.
pub(crate) fn successor(n: u64) -> (r: u64)
    ensures
        r == next_or_max(n),
{
    if n == u64::MAX {
        u64::MAX
    } else {
        n + 1
    }
}

/// A number of parent links lead from a block to the head, each to a known
/// block one height lower, and the first of them not before the head.
pub open spec fn links_to(
    known: Map<Hash32, BlockView>,
    head: Hash32,
    height: u64,
    h: Hash32,
    n: nat,
) -> bool {
    &&& ancestor(known, h, n) == Some(head)
    &&& forall|i: nat|
        i < n ==> link_ok(known, head, height, #[trigger] ancestor(known, h, i), ancestor(
            known,
            h,
            i + 1,
        ))
}

/// One link of a connected branch: the lower block is the head, right below,
/// or a known block one height lower.
pub open spec fn link_ok(
    known: Map<Hash32, BlockView>,
    head: Hash32,
    height: u64,
    upper: Option<Hash32>,
    lower: Option<Hash32>,
) -> bool {
    &&& upper is Some
    &&& upper->Some_0 != head
    &&& known.contains_key(upper->Some_0)
    &&& known[upper->Some_0].height > height
    &&& lower is Some
    &&& if lower->Some_0 == head {
        known[upper->Some_0].height == next_or_max(height)
    } else {
        known.contains_key(lower->Some_0) && known[upper->Some_0].height == next_or_max(
            known[lower->Some_0].height,
        )
    }
}

/// A block is the committed head, or descends from it by known blocks of
/// sequential heights.
#[verifier::opaque]
pub open spec fn connected_to(known: Map<Hash32, BlockView>, head: Hash32, height: u64, h: Hash32) -> bool {
    exists|n: nat| #[trigger] links_to(known, head, height, h, n)
}

/// The blocks from a hash up to the committed head, newest first. One block
/// less than may be pending is replayed, so that there is a place for the block
/// that builds on them.
pub open spec fn collected(
    known: Map<Hash32, BlockView>,
    head: Hash32,
    height: u64,
    context: ConsensusContext,
    current: Hash32,
    blocks: Seq<BlockView>,
    visited: Seq<Hash32>,
) -> Result<Seq<BlockView>, BranchError>
    decreases MAX_PENDING_DEPTH - blocks.len(),
{
    if current == head {
        Ok(blocks)
    } else if blocks.len() >= MAX_PENDING_DEPTH - 1 {
        Err(BranchError::TooDeep)
    } else if visited.contains(current) {
        Err(BranchError::Cyclic)
    } else if !known.contains_key(current) {
        Err(BranchError::Unavailable)
    } else if known[current].context != context {
        Err(BranchError::Context)
    } else if known[current].height <= height {
        Err(BranchError::BelowCommitted)
    } else {
        collected(
            known,
            head,
            height,
            context,
            known[current].parent,
            blocks.push(known[current]),
            visited.push(current),
        )
    }
}

/// The block at a position builds on the one before it, at the next height;
/// the first one builds on the base.
pub open spec fn builds_on(base: BlockView, blocks: Seq<BlockView>, i: int) -> bool {
    let before = if i == 0 {
        base
    } else {
        blocks[i - 1]
    };
    blocks[i].height == next_or_max(before.height) && blocks[i].parent == block_hash(before)
}

/// Each block builds on the one before it; the first one builds on the base.
pub open spec fn is_closure(base: BlockView, blocks: Seq<BlockView>) -> bool {
    forall|i: int| 0 <= i < blocks.len() ==> #[trigger] builds_on(base, blocks, i)
}

/// Blocks lead from a head to a block without a gap: there are at most as many
/// as may be replayed, each builds on the one before it at the next height, all
/// are known and above the committed height, and there are none exactly for
/// the committed head.
pub open spec fn is_branch(s: RunnerView, target: Hash32, head: BlockView, blocks: Seq<BlockView>) -> bool {
    &&& s.head() == Some(head)
    &&& blocks.len() <= MAX_PENDING_DEPTH - 1
    &&& is_closure(head, blocks)
    &&& blocks.len() == 0 <==> target == s.committed_hash
    &&& blocks.len() > 0 ==> s.known_at(target) == Some(blocks.last())
    &&& forall|i: int|
        0 <= i < blocks.len() ==> (#[trigger] blocks[i]).height > s.committed_height
            && blocks[i].context == s.context
}

impl RunnerView {
    /// The known blocks: pending, cached or durable.
    pub open spec fn known(self) -> Map<Hash32, BlockView> {
        Map::new(
            |h: Hash32|
                self.pending.contains_key(h) || self.store.blocks.contains_key(h)
                    || self.rows.contains_key(h),
            |h: Hash32|
                if self.pending.contains_key(h) {
                    self.pending[h]
                } else if self.store.blocks.contains_key(h) {
                    self.store.blocks[h]
                } else {
                    self.rows[h]
                },
        )
    }

    /// The known block of a hash.
    pub open spec fn known_at(self, h: Hash32) -> Option<BlockView> {
        if self.known().contains_key(h) {
            Some(self.known()[h])
        } else {
            None
        }
    }

    /// The known blocks above the committed height.
    pub open spec fn live(self) -> Map<Hash32, BlockView> {
        self.known().restrict(
            Set::new(
                |h: Hash32| self.known().contains_key(h) && self.known()[h].height > self.committed_height,
            ),
        )
    }

    /// A block is connected to the committed head.
    pub open spec fn connected(self, h: Hash32) -> bool {
        connected_to(self.known(), self.committed_hash, self.committed_height, h)
    }

    /// The committed head, which is genesis at the start.
    pub open spec fn head(self) -> Option<BlockView> {
        match self.known_at(self.committed_hash) {
            Some(b) => Some(b),
            None => if self.committed_height == 0 {
                Some(genesis_block(self.context))
            } else {
                None
            },
        }
    }

    /// The committed head and the branch that leads from it to a block.
    pub open spec fn branch(self, target: Hash32) -> Result<(BlockView, Seq<BlockView>), BranchError> {
        match self.head() {
            None => Err(BranchError::HeadUnavailable),
            Some(head) => match collected(
                self.known(),
                self.committed_hash,
                self.committed_height,
                self.context,
                target,
                Seq::empty(),
                Seq::empty(),
            ) {
                Err(e) => Err(e),
                Ok(blocks) => if is_closure(head, blocks.reverse()) {
                    Ok((head, blocks.reverse()))
                } else {
                    Err(BranchError::Broken)
                },
            },
        }
    }

    /// The highest certificate, if its block is known and connected.
    pub open spec fn connected_high_qc(self) -> Option<CertificateView> {
        match self.safety.high_qc {
            None => None,
            Some(qc) => match self.known_at(qc.block_hash) {
                None => None,
                Some(b) => if block_hash(b) == qc.block_hash && self.connected(block_hash(b)) {
                    Some(qc)
                } else {
                    None
                },
            },
        }
    }

    /// The block that the next proposal builds on: that of the highest
    /// connected certificate, or else the committed head.
    pub open spec fn proposal_parent(self) -> BlockView {
        match self.connected_high_qc() {
            Some(qc) => self.known()[qc.block_hash],
            None => match self.known_at(self.committed_hash) {
                Some(b) => b,
                None => match self.store.at_height(self.committed_height) {
                    Some(b) => b,
                    None => genesis_block(self.context),
                },
            },
        }
    }

    /// A pending block that a root depends on.
    pub open spec fn pending_protected(self, roots: Seq<Hash32>, h: Hash32) -> bool {
        self.pending.contains_key(h) && self.live().contains_key(h) && below_root(
            self.live(),
            roots,
            h,
        )
    }

    /// The pending blocks that roots depend on.
    pub open spec fn protected_set(self, roots: Seq<Hash32>) -> Set<Hash32> {
        Set::new(|h: Hash32| self.pending_protected(roots, h))
    }

    /// Most pending blocks once a block is admitted.
    pub open spec fn pending_limit(b: BlockView) -> usize {
        if b.justify is Some {
            MAX_PENDING_BLOCKS
        } else {
            MAX_PENDING_SOFT_BLOCKS
        }
    }

    /// A block may become pending, if need be after pending blocks that no
    /// root depends on are dropped.
    pub open spec fn admission_available(self, b: BlockView, roots: Seq<Hash32>) -> bool {
        &&& b.height <= self.committed_height + MAX_PENDING_DEPTH
        &&& {
            ||| self.pending.contains_key(block_hash(b))
            ||| self.pending.dom().len() < RunnerView::pending_limit(b)
            ||| self.protected_set(roots).len() < RunnerView::pending_limit(b)
        }
    }

    /// Why a block cannot become pending.
    pub open spec fn pending_fault(self, b: BlockView) -> Option<PendingError> {
        if b.height > self.committed_height + MAX_PENDING_DEPTH {
            Some(PendingError::TooHigh { height: b.height, committed: self.committed_height })
        } else if self.pending.contains_key(block_hash(b)) {
            None
        } else if self.pending.dom().len() >= MAX_PENDING_BLOCKS {
            Some(PendingError::Full)
        } else {
            None
        }
    }

    /// The runner without the pending blocks that no root depends on.
    pub open spec fn pending_pruned(self, roots: Seq<Hash32>) -> RunnerView {
        RunnerView { pending: self.pending.restrict(self.protected_set(roots)), ..self }
    }
}

/// What the walk to the committed head adds to the blocks that were met before.
proof fn lemma_collected(
    known: Map<Hash32, BlockView>,
    head: Hash32,
    height: u64,
    context: ConsensusContext,
    current: Hash32,
    blocks: Seq<BlockView>,
    visited: Seq<Hash32>,
)
    requires
        collected(known, head, height, context, current, blocks, visited) is Ok,
        blocks.len() <= MAX_PENDING_DEPTH - 1,
    ensures
        ({
            let r = collected(known, head, height, context, current, blocks, visited)->Ok_0;
            &&& blocks.len() <= r.len() <= MAX_PENDING_DEPTH - 1
            &&& forall|i: int| 0 <= i < blocks.len() ==> #[trigger] r[i] == blocks[i]
            &&& current == head ==> r == blocks
            &&& current != head ==> r.len() > blocks.len() && known.contains_key(current)
                && r[blocks.len() as int] == known[current]
            &&& forall|i: int|
                blocks.len() <= i < r.len() ==> (#[trigger] r[i]).height > height && r[i].context
                    == context
        }),
    decreases MAX_PENDING_DEPTH - blocks.len(),
{
    if current != head {
        let b = known[current];
        let more = blocks.push(b);
        lemma_collected(known, head, height, context, b.parent, more, visited.push(current));
        let r = collected(known, head, height, context, current, blocks, visited)->Ok_0;
        assert(r[blocks.len() as int] == more[blocks.len() as int]);
        assert forall|i: int| 0 <= i < blocks.len() implies #[trigger] r[i] == blocks[i] by {
            assert(r[i] == more[i]);
        }
    }
}

/// The branch that is replayed for a block leads from the committed head to
/// the block without a gap, and leaves a place for the block that builds on it.
pub proof fn lemma_branch_shape(s: RunnerView, target: Hash32)
    requires
        s.branch(target) is Ok,
    ensures
        is_branch(s, target, s.branch(target)->Ok_0.0, s.branch(target)->Ok_0.1),
{
    let none = Seq::<BlockView>::empty();
    lemma_collected(
        s.known(),
        s.committed_hash,
        s.committed_height,
        s.context,
        target,
        none,
        Seq::empty(),
    );
    let r = collected(
        s.known(),
        s.committed_hash,
        s.committed_height,
        s.context,
        target,
        none,
        Seq::empty(),
    )->Ok_0;
    let blocks = s.branch(target)->Ok_0.1;
    assert(blocks == r.reverse());
    assert forall|i: int| 0 <= i < blocks.len() implies (#[trigger] blocks[i]).height
        > s.committed_height && blocks[i].context == s.context by {
        assert(blocks[i] == r[r.len() - 1 - i]);
    }
    if blocks.len() > 0 {
        assert(blocks.last() == r[0]);
    }
}

/// The blocks that voting rules and a proposal depend on.
pub open spec fn safety_roots(safety: SafetyView, extra: Option<Hash32>) -> Set<Hash32> {
    Set::new(
        |h: Hash32|
            (safety.high_qc is Some && safety.high_qc->Some_0.block_hash == h) || (
            safety.locked_qc is Some && safety.locked_qc->Some_0.block_hash == h) || extra == Some(h),
    )
}

/// The parent of a connected block is connected by one link less.
pub(crate) proof fn lemma_links_parent(
    known: Map<Hash32, BlockView>,
    head: Hash32,
    height: u64,
    h: Hash32,
    n: nat,
)
    requires
        links_to(known, head, height, h, n),
        n > 0,
    ensures
        known.contains_key(h),
        links_to(known, head, height, known[h].parent, (n - 1) as nat),
        n > 1 ==> known.contains_key(known[h].parent) && known[h].parent != head && known[h].height
            == next_or_max(known[known[h].parent].height),
        n == 1 ==> known[h].parent == head && known[h].height == next_or_max(height),
{
    assert(ancestor(known, h, 0) == Some(h));
    assert(link_ok(known, head, height, ancestor(known, h, 0), ancestor(known, h, 1)));
    assert(ancestor(known, h, 1) == Some(known[h].parent)) by {
        reveal_with_fuel(ancestor, 2);
    }
    let p = known[h].parent;
    if n > 1 {
        assert(link_ok(known, head, height, ancestor(known, h, 1), ancestor(known, h, 2)));
        assert(p != head);
    }
    assert forall|i: nat| #[trigger] ancestor(known, p, i) == ancestor(known, h, i + 1) by {
        lemma_shift(known, h, i);
    }
    assert forall|i: nat| i < n - 1 implies link_ok(
        known,
        head,
        height,
        #[trigger] ancestor(known, p, i),
        ancestor(known, p, i + 1),
    ) by {
        assert(ancestor(known, p, i) == ancestor(known, h, i + 1));
        assert(ancestor(known, p, i + 1) == ancestor(known, h, i + 2));
        assert(link_ok(known, head, height, ancestor(known, h, i + 1), ancestor(known, h, i + 2)));
    }
    assert(ancestor(known, p, (n - 1) as nat) == ancestor(known, h, n));
}

/// Heights along a connected branch are sequential: a block a number of links
/// above the head is that many heights above it.
pub proof fn lemma_connected_heights(
    known: Map<Hash32, BlockView>,
    head: Hash32,
    height: u64,
    h: Hash32,
    n: nat,
)
    requires
        links_to(known, head, height, h, n),
        n > 0,
        known[h].height < u64::MAX,
    ensures
        known.contains_key(h),
        known[h].height == height + n,
    decreases n,
{
    lemma_links_parent(known, head, height, h, n);
    if n > 1 {
        lemma_connected_heights(known, head, height, known[h].parent, (n - 1) as nat);
    }
}

/// The ancestors of a connected block are known, and one height lower with
/// each link.
pub(crate) proof fn lemma_ancestor_height(
    known: Map<Hash32, BlockView>,
    head: Hash32,
    height: u64,
    h: Hash32,
    n: nat,
    i: nat,
)
    requires
        links_to(known, head, height, h, n),
        i < n,
        known[h].height < u64::MAX,
    ensures
        ancestor(known, h, i) is Some,
        known.contains_key(ancestor(known, h, i)->Some_0),
        known[ancestor(known, h, i)->Some_0].height == height + n - i,
        ancestor(known, h, i + 1) == Some(known[ancestor(known, h, i)->Some_0].parent),
    decreases i,
{
    lemma_connected_heights(known, head, height, h, n);
    lemma_links_parent(known, head, height, h, n);
    assert(ancestor(known, h, 0) == Some(h));
    if i == 0 {
        assert(ancestor(known, h, 1) == Some(known[h].parent)) by {
            reveal_with_fuel(ancestor, 2);
        }
    } else {
        let p = known[h].parent;
        lemma_ancestor_height(known, head, height, p, (n - 1) as nat, (i - 1) as nat);
        lemma_shift(known, h, (i - 1) as nat);
        lemma_shift(known, h, i);
    }
}

proof fn lemma_shift(known: Map<Hash32, BlockView>, h: Hash32, i: nat)
    requires
        known.contains_key(h),
    ensures
        ancestor(known, known[h].parent, i) == ancestor(known, h, i + 1),
    decreases i,
{
    reveal_with_fuel(ancestor, 2);
    if i > 0 {
        lemma_shift(known, h, (i - 1) as nat);
    }
}

/// A walk up the parent links never meets a block twice, so it is no longer
/// than there are known blocks.
pub proof fn lemma_walk_bounded(known: Map<Hash32, BlockView>, visited: Seq<Hash32>)
    requires
        known.dom().finite(),
        visited.no_duplicates(),
        forall|i: int| 0 <= i < visited.len() ==> known.contains_key(#[trigger] visited[i]),
    ensures
        visited.len() <= known.dom().len(),
{
    visited.unique_seq_to_set();
    assert(visited.to_set().subset_of(known.dom()));
    vstd::set_lib::lemma_len_subset(visited.to_set(), known.dom());
}

/// The walk up the parent links from a block, as far as it got: along valid
/// links, without meeting the head.
#[verifier::opaque]
spec fn walked(
    known: Map<Hash32, BlockView>,
    head: Hash32,
    height: u64,
    h: Hash32,
    visited: Seq<Hash32>,
    current: Hash32,
) -> bool {
    &&& ancestor(known, h, visited.len()) == Some(current)
    &&& visited.no_duplicates()
    &&& forall|i: int|
        0 <= i < visited.len() ==> ancestor(known, h, i as nat) == Some(#[trigger] visited[i])
            && visited[i] != head && known.contains_key(visited[i])
    &&& forall|i: nat|
        i < visited.len() ==> link_ok(
            known,
            head,
            height,
            #[trigger] ancestor(known, h, i),
            ancestor(known, h, i + 1),
        )
}

proof fn lemma_walk_starts(known: Map<Hash32, BlockView>, head: Hash32, height: u64, h: Hash32)
    ensures
        walked(known, head, height, h, Seq::empty(), h),
{
    reveal(walked);
}

proof fn lemma_walk_len(
    known: Map<Hash32, BlockView>,
    head: Hash32,
    height: u64,
    h: Hash32,
    visited: Seq<Hash32>,
    current: Hash32,
)
    requires
        walked(known, head, height, h, visited, current),
        known.dom().finite(),
    ensures
        visited.len() <= known.dom().len(),
{
    reveal(walked);
    lemma_walk_bounded(known, visited);
}

proof fn lemma_walk_at_head(
    known: Map<Hash32, BlockView>,
    head: Hash32,
    height: u64,
    h: Hash32,
    visited: Seq<Hash32>,
    current: Hash32,
)
    requires
        walked(known, head, height, h, visited, current),
        current == head,
    ensures
        connected_to(known, head, height, h),
{
    reveal(connected_to);
    reveal(walked);
    assert(links_to(known, head, height, h, visited.len()));
}

proof fn lemma_walk_cycle(
    known: Map<Hash32, BlockView>,
    head: Hash32,
    height: u64,
    h: Hash32,
    visited: Seq<Hash32>,
    current: Hash32,
)
    requires
        walked(known, head, height, h, visited, current),
        visited.contains(current),
    ensures
        !connected_to(known, head, height, h),
{
    reveal(connected_to);
    reveal(walked);
    let n = visited.len();
    let j = choose|j: int| 0 <= j < visited.len() && visited[j] == current;
    assert(ancestor(known, h, j as nat) == Some(visited[j]));
    assert forall|i: nat| i < n implies #[trigger] ancestor(known, h, i) != Some(head) by {
        assert(ancestor(known, h, i) == Some(visited[i as int]));
    }
    assert forall|m: nat| !#[trigger] links_to(known, head, height, h, m) by {
        lemma_cycle(known, h, j as nat, n, m, head);
    }
}

/// If the block is connected, the next link is valid.
proof fn lemma_walk_decides(
    known: Map<Hash32, BlockView>,
    head: Hash32,
    height: u64,
    h: Hash32,
    visited: Seq<Hash32>,
    current: Hash32,
)
    requires
        walked(known, head, height, h, visited, current),
        current != head,
    ensures
        connected_to(known, head, height, h) ==> known.contains_key(current) && link_ok(
            known,
            head,
            height,
            Some(current),
            Some(known[current].parent),
        ),
{
    reveal(connected_to);
    reveal(walked);
    if connected_to(known, head, height, h) {
        let n = choose|n: nat| #[trigger] links_to(known, head, height, h, n);
        if n < visited.len() {
            assert(visited[n as int] != head);
        }
        assert(link_ok(
            known,
            head,
            height,
            ancestor(known, h, visited.len()),
            ancestor(known, h, visited.len() + 1),
        ));
        lemma_ancestor_step(known, h, visited.len(), current);
    }
}

proof fn lemma_walk_step(
    known: Map<Hash32, BlockView>,
    head: Hash32,
    height: u64,
    h: Hash32,
    visited: Seq<Hash32>,
    current: Hash32,
    parent: Hash32,
)
    requires
        walked(known, head, height, h, visited, current),
        current != head,
        !visited.contains(current),
        known.contains_key(current),
        known[current].parent == parent,
        link_ok(known, head, height, Some(current), Some(parent)),
    ensures
        walked(known, head, height, h, visited.push(current), parent),
{
    reveal(walked);
    let next = visited.push(current);
    let n = visited.len();
    lemma_ancestor_step(known, h, n, current);
    assert forall|i: int| 0 <= i < next.len() implies ancestor(known, h, i as nat) == Some(
        #[trigger] next[i],
    ) && next[i] != head && known.contains_key(next[i]) by {
        if i < n {
            assert(next[i] == visited[i]);
        }
    }
    assert forall|i: nat| i < next.len() implies link_ok(
        known,
        head,
        height,
        #[trigger] ancestor(known, h, i),
        ancestor(known, h, i + 1),
    ) by {
        if i == n {
            assert(ancestor(known, h, n) == Some(current));
        }
    }
}

impl<A: AppHook, P: PersistentStore> ConsensusRunner<A, P> {
    /// There are finitely many known blocks.
    pub(crate) proof fn lemma_known_finite(&self)
        requires
            self.wf(),
        ensures
            self.state().known().dom().finite(),
            self.state().pending.dom().finite(),
    {
        crate::table::lemma_rows_len(self.pending.rows());
        let s = self.state();
        assert(s.pending.dom() =~= self.pending.map().dom());
        self.store.lemma_finite();
        if self.persistent_store is Some {
            self.persistent_store->Some_0.lemma_rows_finite();
        }
        assert(s.known().dom() =~= s.pending.dom().union(s.store.blocks.dom()).union(s.rows.dom()));
    }

    /// The known block of a hash.
    pub(crate) fn known_block(&self, h: &Hash32) -> (r: Option<Block>)
        requires
            self.wf(),
        ensures
            option_block(r) == self.state().known_at(*h),
    {
        if let Some(b) = self.pending.get(h) {
            return Some(b.clone());
        }
        if let Some(b) = self.store.get(h) {
            return Some(b);
        }
        match &self.persistent_store {
            Some(p) => p.get(h),
            None => None,
        }
    }

    /// Whether a block is connected to the committed head by known blocks of
    /// sequential heights. Missing, cyclic or non-sequential ancestry is not.
    pub fn is_chain_connected_to_committed_head(&self, block_hash: &Hash32) -> (r: bool)
        requires
            self.wf(),
        ensures
            r == self.state().connected(*block_hash),
    {
        let ghost known = self.state().known();
        let ghost head = self.state().committed_hash;
        let ghost height = self.state().committed_height;
        let h = *block_hash;
        let mut current = h;
        let mut visited: Vec<Hash32> = Vec::new();
        proof {
            self.lemma_known_finite();
            lemma_walk_starts(known, head, height, h);
        }
        loop
            invariant
                self.wf(),
                known == self.state().known(),
                head == self.state().committed_hash,
                height == self.state().committed_height,
                known.dom().finite(),
                h == *block_hash,
                walked(known, head, height, h, visited@, current),
                visited@.len() <= known.dom().len(),
            decreases known.dom().len() - visited@.len() + 1,
        {
            if hash_eq(&current, &self.committed_hash) {
                proof {
                    lemma_walk_at_head(known, head, height, h, visited@, current);
                }
                return true;
            }
            if contains_hash(&visited, &current) {
                proof {
                    lemma_walk_cycle(known, head, height, h, visited@, current);
                }
                return false;
            }
            proof {
                lemma_walk_decides(known, head, height, h, visited@, current);
            }
            let (block_height, parent) = match self.known_block(&current) {
                Some(b) => (b.height, b.parent),
                None => {
                    return false;
                },
            };
            if block_height <= self.committed_height {
                return false;
            }
            if hash_eq(&parent, &self.committed_hash) {
                let r = block_height == successor(self.committed_height);
                proof {
                    if r {
                        lemma_walk_step(known, head, height, h, visited@, current, parent);
                        lemma_walk_at_head(known, head, height, h, visited@.push(current), parent);
                    }
                }
                return r;
            }
            let fits = match self.known_block(&parent) {
                Some(b) => block_height == successor(b.height),
                None => false,
            };
            if !fits {
                return false;
            }
            proof {
                lemma_walk_step(known, head, height, h, visited@, current, parent);
                lemma_walk_len(known, head, height, h, visited@.push(current), parent);
            }
            visited.push(current);
            current = parent;
        }
    }

    /// Loads the committed head and the branch that leads from it to a block,
    /// oldest block first. The branch is bounded and has sequential heights.
    pub fn load_speculative_branch(&self, target: Hash32) -> (r: Result<(Block, Vec<Block>), BranchError>)
        requires
            self.wf(),
        ensures
            match r {
                Ok((head, list)) => self.state().branch(target) == Ok::<
                    (BlockView, Seq<BlockView>),
                    BranchError,
                >((head@, block_views(list@))) && is_branch(
                    self.state(),
                    target,
                    head@,
                    block_views(list@),
                ) && block_hash(head@) == self.state().committed_hash,
                Err(e) => self.state().branch(target) == Err::<
                    (BlockView, Seq<BlockView>),
                    BranchError,
                >(e),
            },
    {
        let head = match self.known_block(&self.committed_hash) {
            Some(b) => b,
            None => {
                if self.committed_height != 0 {
                    return Err(BranchError::HeadUnavailable);
                }
                Block::genesis(self.context)
            },
        };
        let ghost known = self.state().known();
        let ghost committed = self.state().committed_hash;
        let ghost height = self.state().committed_height;
        let mut blocks: Vec<Block> = Vec::new();
        let mut visited: Vec<Hash32> = Vec::new();
        let mut current = target;
        assert(block_views(blocks@) =~= Seq::empty());
        while !hash_eq(&current, &self.committed_hash)
            invariant
                self.wf(),
                known == self.state().known(),
                committed == self.state().committed_hash,
                height == self.state().committed_height,
                self.state().head() == Some(head@),
                blocks@.len() <= MAX_PENDING_DEPTH - 1,
                collected(
                    known,
                    committed,
                    height,
                    self.state().context,
                    target,
                    Seq::empty(),
                    Seq::empty(),
                ) == collected(
                    known,
                    committed,
                    height,
                    self.state().context,
                    current,
                    block_views(blocks@),
                    visited@,
                ),
            decreases MAX_PENDING_DEPTH - blocks@.len(),
        {
            assert(block_views(blocks@).len() == blocks@.len());
            if blocks.len() as u64 >= MAX_PENDING_DEPTH - 1 {
                return Err(BranchError::TooDeep);
            }
            if contains_hash(&visited, &current) {
                return Err(BranchError::Cyclic);
            }
            let b = match self.known_block(&current) {
                Some(b) => b,
                None => {
                    return Err(BranchError::Unavailable);
                },
            };
            if b.validate_context(self.context).is_err() {
                return Err(BranchError::Context);
            }
            if b.height <= self.committed_height {
                return Err(BranchError::BelowCommitted);
            }
            let ghost before = block_views(blocks@);
            let ghost bv = b@;
            visited.push(current);
            current = b.parent;
            blocks.push(b);
            assert(block_views(blocks@) =~= before.push(bv));
        }
        let ordered = reversed(blocks);
        if check_closure(&head, &ordered) {
            proof {
                lemma_branch_shape(self.state(), target);
                self.lemma_known_named();
            }
            Ok((head, ordered))
        } else {
            Err(BranchError::Broken)
        }
    }

    /// Whether parent links through known blocks above the committed height
    /// lead from one block to another.
    fn leads_to(&self, from: Hash32, target: Hash32) -> (r: bool)
        requires
            self.wf(),
        ensures
            r == reaches(self.state().live(), from, target),
    {
        let ghost live = self.state().live();
        let mut current = from;
        let mut visited: Vec<Hash32> = Vec::new();
        proof {
            self.lemma_known_finite();
            vstd::set_lib::lemma_len_subset(live.dom(), self.state().known().dom());
        }
        loop
            invariant
                self.wf(),
                live == self.state().live(),
                live.dom().finite(),
                ancestor(live, from, visited@.len()) == Some(current),
                forall|i: int|
                    0 <= i < visited@.len() ==> ancestor(live, from, i as nat) == Some(
                        #[trigger] visited@[i],
                    ) && visited@[i] != target && live.contains_key(visited@[i]),
                visited@.no_duplicates(),
                visited@.len() <= live.dom().len(),
            decreases live.dom().len() - visited@.len() + 1,
        {
            if hash_eq(&current, &target) {
                return true;
            }
            let ghost n = visited@.len();
            let ghost before = visited@;
            if contains_hash(&visited, &current) {
                proof {
                    let j = choose|j: int| 0 <= j < visited@.len() && visited@[j] == current;
                    assert(ancestor(live, from, j as nat) == Some(visited@[j]));
                    assert forall|i: nat| i < n implies #[trigger] ancestor(live, from, i) != Some(
                        target,
                    ) by {
                        assert(ancestor(live, from, i) == Some(visited@[i as int]));
                    }
                    assert forall|m: nat| #[trigger] ancestor(live, from, m) != Some(target) by {
                        lemma_cycle(live, from, j as nat, n, m, target);
                    }
                }
                return false;
            }
            let parent: Option<Hash32> = match self.known_block(&current) {
                Some(b) => if b.height > self.committed_height {
                    Some(b.parent)
                } else {
                    None
                },
                None => None,
            };
            let next = match parent {
                Some(p) => p,
                None => {
                    proof {
                        assert(!live.contains_key(current));
                        assert forall|m: nat| #[trigger] ancestor(live, from, m) != Some(target) by {
                            if m > n {
                                lemma_dead_end(live, from, n, m);
                            } else if m < n {
                                assert(ancestor(live, from, m) == Some(visited@[m as int]));
                            }
                        }
                    }
                    return false;
                },
            };
            visited.push(current);
            proof {
                assert(live.contains_key(current) && live[current].parent == next);
                lemma_ancestor_step(live, from, n, current);
                assert forall|i: int| 0 <= i < visited@.len() implies ancestor(live, from, i as nat)
                    == Some(#[trigger] visited@[i]) && visited@[i] != target && live.contains_key(
                    visited@[i],
                ) by {
                    if i < n {
                        assert(visited@[i] == before[i]);
                    }
                }
                lemma_walk_bounded(live, visited@);
            }
            current = next;
        }
    }

    /// The pending blocks that roots depend on.
    pub fn protected_pending_hashes(&self, roots: &Vec<Hash32>) -> (r: Vec<Hash32>)
        requires
            self.wf(),
        ensures
            r@.no_duplicates(),
            r@.to_set() == self.state().protected_set(roots@),
            r@.len() == self.state().protected_set(roots@).len(),
    {
        let ghost s = self.state();
        let ghost rows = self.pending.rows();
        let mut r: Vec<Hash32> = Vec::new();
        let mut i: usize = 0;
        while i < self.pending.len()
            invariant
                i <= rows.len(),
                rows == self.pending.rows(),
                self.wf(),
                s == self.state(),
                r@.no_duplicates(),
                forall|h: Hash32| #[trigger]
                    r@.contains(h) <==> has_key(rows.take(i as int), h) && s.pending_protected(
                        roots@,
                        h,
                    ),
            decreases rows.len() - i,
        {
            let h = self.pending.key_at(i);
            let height: u64 = self.pending.value_at(i).height;
            let ghost before = r@;
            proof {
                lemma_row(rows, i as int);
                crate::consensus::store::lemma_take_key(rows, i as int);
                lemma_push_set(before, h);
                assert(s.pending.contains_key(h) && s.known()[h].height == height);
            }
            let stays = height > self.committed_height && self.below_any_root(roots, &h);
            assert(stays == s.pending_protected(roots@, h));
            if stays {
                r.push(h);
            }
            assert forall|x: Hash32| #[trigger] r@.contains(x) <==> has_key(rows.take(i + 1), x)
                && s.pending_protected(roots@, x) by {
                assert(has_key(rows.take(i + 1), x) <==> has_key(rows.take(i as int), x) || x == h);
                assert(before.push(h).contains(x) <==> before.push(h).to_set().contains(x));
                assert(before.contains(x) <==> before.to_set().contains(x));
            }
            assert(!before.contains(h));
            i = i + 1;
        }
        proof {
            assert(rows.take(rows.len() as int) =~= rows);
            assert forall|h: Hash32| r@.to_set().contains(h) <==> s.protected_set(roots@).contains(h) by {
                if s.pending_protected(roots@, h) {
                    assert(has_key(rows, h));
                    assert(r@.contains(h));
                }
            }
            assert(r@.to_set() =~= s.protected_set(roots@));
            r@.unique_seq_to_set();
        }
        r
    }

    /// Whether some root leads to a block.
    fn below_any_root(&self, roots: &Vec<Hash32>, h: &Hash32) -> (r: bool)
        requires
            self.wf(),
        ensures
            r == below_root(self.state().live(), roots@, *h),
    {
        let mut i: usize = 0;
        while i < roots.len()
            invariant
                i <= roots.len(),
                self.wf(),
                forall|k: int| 0 <= k < i ==> !reaches(self.state().live(), #[trigger] roots@[k], *h),
            decreases roots.len() - i,
        {
            if self.leads_to(roots[i], *h) {
                assert(reaches(self.state().live(), roots@[i as int], *h));
                return true;
            }
            i = i + 1;
        }
        false
    }

    /// Drops the pending blocks that no root depends on.
    pub(crate) fn prune_pending_unprotected_branches_with_roots(&mut self, roots: &Vec<Hash32>)
        requires
            old(self).wf(),
        ensures
            final(self).wf(),
            final(self).state() == old(self).state().pending_pruned(roots@),
            final(self).rest() == old(self).rest(),
    {
        let keep = self.protected_pending_hashes(roots);
        let ghost before = self.pending.map();
        let ghost set = self.state().protected_set(roots@);
        self.pending.keep_only(&keep);
        proof {
            assert forall|h: Hash32| #[trigger] keep@.contains(h) <==> set.contains(h) by {
                assert(keep@.contains(h) <==> keep@.to_set().contains(h));
            }
            assert(block_map(self.pending.map()) =~= block_map(before).restrict(set));
        }
    }

    /// Drops the pending blocks that nothing depends on.
    pub fn prune_pending_unprotected_branches(&mut self, extra: Option<Hash32>)
        requires
            old(self).wf(),
        ensures
            final(self).wf(),
            exists|roots: Seq<Hash32>| #[trigger]
                are_roots(old(self).state(), extra, roots)
                    && final(self).state() == old(self).state().pending_pruned(roots),
            final(self).rest() == old(self).rest(),
    {
        let roots = self.protected_speculative_roots(extra);
        assert(are_roots(self.state(), extra, roots@));
        self.prune_pending_unprotected_branches_with_roots(&roots);
    }

    /// Why a block cannot become pending.
    pub fn ensure_pending_capacity(&self, block: &Block) -> (r: Result<(), PendingError>)
        requires
            self.wf(),
        ensures
            match r {
                Ok(()) => self.state().pending_fault(block@) is None,
                Err(e) => self.state().pending_fault(block@) == Some(e),
            },
    {
        proof {
            crate::table::lemma_rows_len(self.pending.rows());
            assert(self.state().pending.dom() =~= self.pending.map().dom());
        }
        if block.height > self.committed_height && block.height - self.committed_height
            > MAX_PENDING_DEPTH {
            return Err(
                PendingError::TooHigh { height: block.height, committed: self.committed_height },
            );
        }
        let hash = block.hash();
        if self.pending.contains(&hash) {
            return Ok(());
        }
        if self.pending.len() >= MAX_PENDING_BLOCKS {
            return Err(PendingError::Full);
        }
        Ok(())
    }

    /// Makes a block pending, if there is room.
    pub fn insert_pending(&mut self, block: Block) -> (r: Result<(), PendingError>)
        requires
            old(self).wf(),
        ensures
            final(self).wf(),
            final(self).rest() == old(self).rest(),
            match r {
                Ok(()) => old(self).state().pending_fault(block@) is None && final(self).state() == (
                RunnerView {
                    pending: old(self).state().pending.insert(block_hash(block@), block@),
                    ..old(self).state()
                }),
                Err(e) => old(self).state().pending_fault(block@) == Some(e) && final(self).state()
                    == old(self).state(),
            },
    {
        if let Err(e) = self.ensure_pending_capacity(&block) {
            return Err(e);
        }
        let hash = block.hash();
        let ghost before = self.pending.map();
        self.pending.put(hash, block);
        assert(block_map(self.pending.map()) =~= block_map(before).insert(hash, block@));
        Ok(())
    }

    /// Whether a block may become pending, if need be after unprotected
    /// pending blocks are dropped.
    pub fn pending_admission_available(&self, block: &Block, roots: &Vec<Hash32>) -> (r: bool)
        requires
            self.wf(),
        ensures
            r == self.state().admission_available(block@, roots@),
    {
        proof {
            crate::table::lemma_rows_len(self.pending.rows());
            assert(self.state().pending.dom() =~= self.pending.map().dom());
        }
        if block.height > self.committed_height && block.height - self.committed_height
            > MAX_PENDING_DEPTH {
            return false;
        }
        let max_blocks = pending_admission_limit(block);
        let hash = block.hash();
        if self.pending.contains(&hash) || self.pending.len() < max_blocks {
            return true;
        }
        self.protected_pending_hashes(roots).len() < max_blocks
    }

    /// The highest certificate, if its block is known and connected.
    pub fn connected_high_qc(&self) -> (r: Option<Certificate>)
        requires
            self.wf(),
        ensures
            option_certificate(r) == self.state().connected_high_qc(),
    {
        let qc = match self.safety.high_qc() {
            Some(qc) => qc,
            None => {
                return None;
            },
        };
        match self.known_block(&qc.block_hash) {
            Some(b) => {
                let hash = b.hash();
                if hash_eq(&hash, &qc.block_hash) && self.is_chain_connected_to_committed_head(&hash) {
                    Some(qc.clone())
                } else {
                    None
                }
            },
            None => None,
        }
    }

    /// The block that the next proposal builds on.
    pub fn get_proposal_parent(&self) -> (r: Block)
        requires
            self.wf(),
        ensures
            r@ == self.state().proposal_parent(),
    {
        if let Some(qc) = self.connected_high_qc() {
            if let Some(b) = self.known_block(&qc.block_hash) {
                return b;
            }
        }
        if let Some(b) = self.known_block(&self.committed_hash) {
            return b;
        }
        match self.store.get_by_height(self.committed_height) {
            Some(b) => b,
            None => Block::genesis(self.context),
        }
    }

    /// The blocks that voting rules and a proposal depend on.
    pub(crate) fn protected_speculative_roots_for_safety(safety: &Safety, extra: Option<Hash32>) -> (r: Vec<
        Hash32,
    >)
        ensures
            r@.no_duplicates(),
            r@.to_set() == safety_roots(safety@, extra),
    {
        let mut roots: Vec<Hash32> = Vec::new();
        if let Some(qc) = safety.high_qc() {
            let _new = insert_hash(&mut roots, qc.block_hash);
        }
        if let Some(qc) = safety.locked_qc() {
            let _new = insert_hash(&mut roots, qc.block_hash);
        }
        if let Some(h) = extra {
            let _new = insert_hash(&mut roots, h);
        }
        assert(roots@.to_set() =~= safety_roots(safety@, extra));
        roots
    }

    /// The blocks that the voting rules and the next proposal depend on.
    pub fn protected_speculative_roots(&self, extra: Option<Hash32>) -> (r: Vec<Hash32>)
        requires
            self.wf(),
        ensures
            are_roots(self.state(), extra, r@),
    {
        let mut roots = ConsensusRunner::<A, P>::protected_speculative_roots_for_safety(
            &self.safety,
            extra,
        );
        let parent = self.get_proposal_parent().hash();
        let _new = insert_hash(&mut roots, parent);
        roots
    }

    /// Prunes the durable journal and the cache, with the given limits.
    pub fn prune_speculative_stores_with_limits(
        &mut self,
        extra: Option<Hash32>,
        max_blocks: usize,
        max_bytes: usize,
    ) -> (r: Result<(), Halt>)
        requires
            old(self).wf(),
        ensures
            final(self).wf(),
            final(self).rest() == old(self).rest(),
            r is Err ==> r == Err::<(), Halt>(Halt::Prune),
            exists|roots: Seq<Hash32>, order: Seq<Hash32>|
                #![trigger are_roots(old(self).state(), extra, roots), old(self).state().store.is_pruning_order(roots, order)]
                {
                    &&& are_roots(old(self).state(), extra, roots)
                    &&& old(self).state().store.is_pruning_order(roots, order)
                    &&& same_but_journals(old(self).state(), final(self).state())
                    &&& journal_keeps(old(self).state().rows, final(self).state().rows, roots)
                    &&& !old(self).state().durable ==> final(self).state().rows
                        == old(self).state().rows
                    &&& r is Ok ==> old(self).state().store.pruned(
                        roots,
                        order,
                        max_blocks,
                        max_bytes,
                    ) == Ok::<StoreView, StoreError>(final(self).state().store)
                        && journal_pruned::<P>(old(self).state(), roots, max_blocks, max_bytes)
                    &&& r is Err ==> final(self).state().store == old(self).state().store
                        && prune_stops::<P>(
                        old(self).state(),
                        roots,
                        order,
                        max_blocks,
                        max_bytes,
                    )
                },
    {
        let ghost before = self.state();
        let roots = self.protected_speculative_roots(extra);
        let durable = match self.persistent_store.take() {
            Some(mut p) => {
                let ghost own = p;
                assert(holds(own, before));
                let done = match p.prune_speculative(&roots, max_blocks, max_bytes) {
                    Ok(()) => {
                        assert(pruning_done(own, roots@, max_blocks, max_bytes));
                        true
                    },
                    Err(_e) => {
                        assert(pruning_fails(own, roots@, max_blocks, max_bytes));
                        false
                    },
                };
                self.persistent_store = Some(p);
                done
            },
            None => true,
        };
        if !durable {
            proof {
                let order = lemma_order_exists(before.store, roots@);
                assert(are_roots(before, extra, roots@) && before.store.is_pruning_order(
                    roots@,
                    order,
                ));
            }
            return Err(Halt::Prune);
        }
        match self.store.prune_speculative(&roots, max_blocks, max_bytes) {
            Ok(()) => Ok(()),
            Err(_) => Err(Halt::Prune),
        }
    }

    /// Admits a validated block to the durable journal and then to the cache.
    /// If only the cache fails, the node halts.
    pub fn admit_speculative_stores(
        &mut self,
        block: &Block,
        block_bytes: usize,
        roots: &Vec<Hash32>,
    ) -> (r: Result<bool, Halt>)
        requires
            old(self).wf(),
        ensures
            final(self).wf(),
            final(self).rest() == old(self).rest(),
            same_but_journals(old(self).state(), final(self).state()),
            match r {
                Ok(true) => {
                    &&& old(self).state().durable ==> journal_takes(
                        old(self).durable_store()->Some_0,
                        *block,
                        block_bytes,
                        roots@,
                        RunnerView::pending_limit(block@),
                        byte_limit(block@),
                    )
                    &&& admission(
                        old(self).state().store,
                        final(self).state().store,
                        Ok(()),
                        block@,
                        block_bytes,
                        roots@,
                        RunnerView::pending_limit(block@),
                        byte_limit(block@),
                    )
                    &&& final(self).state().store.blocks.contains_key(block_hash(block@))
                    &&& if old(self).state().durable {
                        journal_adds(old(self).state().rows, final(self).state().rows, block@)
                    } else {
                        final(self).state().rows == old(self).state().rows
                    }
                },
                Ok(false) => {
                    &&& old(self).state().durable
                    &&& journal_refuses(
                        old(self).durable_store()->Some_0,
                        *block,
                        block_bytes,
                        roots@,
                        RunnerView::pending_limit(block@),
                        byte_limit(block@),
                    )
                    &&& final(self).state() == old(self).state()
                },
                Err(e) => {
                    &&& e == Halt::CacheMirror
                    &&& old(self).state().durable ==> journal_takes(
                        old(self).durable_store()->Some_0,
                        *block,
                        block_bytes,
                        roots@,
                        RunnerView::pending_limit(block@),
                        byte_limit(block@),
                    )
                    &&& final(self).state().store == old(self).state().store
                    &&& if old(self).state().durable {
                        journal_adds(old(self).state().rows, final(self).state().rows, block@)
                    } else {
                        final(self).state().rows == old(self).state().rows
                    }
                    &&& exists|f: StoreError| #[trigger]
                        admission(
                            old(self).state().store,
                            old(self).state().store,
                            Err(f),
                            block@,
                            block_bytes,
                            roots@,
                            RunnerView::pending_limit(block@),
                            byte_limit(block@),
                        )
                },
            },
    {
        let ghost s = self.state();
        let max_blocks: usize = pending_admission_limit(block);
        let max_bytes: usize = if block.justify.is_some() {
            MAX_PENDING_BYTES
        } else {
            MAX_PENDING_SOFT_BYTES
        };
        let durable = match self.persistent_store.take() {
            Some(mut p) => {
                let ghost own = p;
                let done = match p.admit_speculative_with_rolling_victim(
                    block,
                    block_bytes,
                    roots,
                    max_blocks,
                    max_bytes,
                ) {
                    Ok(()) => {
                        assert(journal_takes(
                            own,
                            *block,
                            block_bytes,
                            roots@,
                            max_blocks,
                            max_bytes,
                        ));
                        true
                    },
                    Err(_e) => {
                        assert(journal_refuses(
                            own,
                            *block,
                            block_bytes,
                            roots@,
                            max_blocks,
                            max_bytes,
                        ));
                        false
                    },
                };
                self.persistent_store = Some(p);
                done
            },
            None => true,
        };
        if !durable {
            return Ok(false);
        }
        match self.store.admit_speculative_with_rolling_victim(
            block,
            block_bytes,
            roots,
            max_blocks,
            max_bytes,
        ) {
            Ok(()) => Ok(true),
            Err(f) => {
                assert(admission(
                    s.store,
                    s.store,
                    Err(f),
                    block@,
                    block_bytes,
                    roots@,
                    RunnerView::pending_limit(block@),
                    byte_limit(block@),
                ));
                Err(Halt::CacheMirror)
            },
        }
    }
}

/// The durable store of a node, if there is one, prunes its unfinalized branches.
pub open spec fn journal_pruned<P: PersistentStore>(
    s: RunnerView,
    roots: Seq<Hash32>,
    max_blocks: usize,
    max_bytes: usize,
) -> bool {
    s.durable ==> exists|store: P|
        holds(store, s) && #[trigger] pruning_done(store, roots, max_blocks, max_bytes)
}

/// The journals cannot be pruned: the durable store fails, or too much of the
/// cache must stay.
pub open spec fn prune_stops<P: PersistentStore>(
    s: RunnerView,
    roots: Seq<Hash32>,
    order: Seq<Hash32>,
    max_blocks: usize,
    max_bytes: usize,
) -> bool {
    ||| exists|store: P|
        holds(store, s) && #[trigger] pruning_fails(store, roots, max_blocks, max_bytes)
    ||| journal_pruned::<P>(s, roots, max_blocks, max_bytes) && s.store.pruned(
        roots,
        order,
        max_blocks,
        max_bytes,
    ) is Err
}

/// Most bytes of speculative blocks once a block is admitted.
pub open spec fn byte_limit(b: BlockView) -> usize {
    if b.justify is Some {
        MAX_PENDING_BYTES
    } else {
        MAX_PENDING_SOFT_BYTES
    }
}

/// Two states differ in the journals of speculative blocks alone.
pub open spec fn same_but_journals(a: RunnerView, b: RunnerView) -> bool {
    b == (RunnerView { store: b.store, rows: b.rows, ..a })
}

/// Roots are what the voting rules and the next proposal depend on.
pub open spec fn are_roots(s: RunnerView, extra: Option<Hash32>, roots: Seq<Hash32>) -> bool {
    roots.no_duplicates() && roots.to_set() == safety_roots(s.safety, extra).insert(
        block_hash(s.proposal_parent()),
    )
}

/// Most pending blocks once a block is admitted.
pub fn pending_admission_limit(block: &Block) -> (r: usize)
    ensures
        r == RunnerView::pending_limit(block@),
{
    if block.justify.is_some() {
        MAX_PENDING_BLOCKS
    } else {
        MAX_PENDING_SOFT_BLOCKS
    }
}

/// The blocks in the opposite order.
fn reversed(blocks: Vec<Block>) -> (r: Vec<Block>)
    ensures
        block_views(r@) == block_views(blocks@).reverse(),
{
    let ghost all = block_views(blocks@);
    let mut rest = blocks;
    let mut r: Vec<Block> = Vec::new();
    assert(block_views(r@) =~= all.skip(all.len() as int).reverse());
    assert(all.take(all.len() as int) =~= all);
    while rest.len() > 0
        invariant
            rest.len() <= all.len(),
            block_views(rest@) == all.take(rest.len() as int),
            block_views(r@) == all.skip(rest.len() as int).reverse(),
        decreases rest.len(),
    {
        let ghost n = rest.len() as int;
        let ghost before = rest@;
        let ghost done = block_views(r@);
        if let Some(b) = rest.pop() {
            proof {
                assert(block_views(before)[n - 1] == b@);
                assert(all.take(n)[n - 1] == all[n - 1]);
                assert(block_views(rest@) =~= all.take(n - 1));
            }
            let ghost v = b@;
            r.push(b);
            proof {
                assert(block_views(r@) =~= done.push(v));
                assert(all.skip(n - 1).reverse() =~= done.push(v));
            }
        }
    }
    assert(all.skip(0) =~= all);
    r
}

/// Whether each block builds on the one before it, at the next height.
fn check_closure(base: &Block, blocks: &Vec<Block>) -> (r: bool)
    ensures
        r == is_closure(base@, block_views(blocks@)),
{
    let ghost bs = block_views(blocks@);
    let mut height: u64 = base.height;
    let mut hash = base.hash();
    let mut i: usize = 0;
    while i < blocks.len()
        invariant
            i <= blocks.len(),
            bs == block_views(blocks@),
            height == (if i == 0 {
                base@.height
            } else {
                bs[i - 1].height
            }),
            hash == block_hash(if i == 0 {
                base@
            } else {
                bs[i - 1]
            }),
            forall|k: int| 0 <= k < i ==> #[trigger] builds_on(base@, bs, k),
        decreases blocks.len() - i,
    {
        let b = &blocks[i];
        assert(bs[i as int] == b@);
        let fits = b.height == successor(height) && hash_eq(&b.parent, &hash);
        assert(fits == builds_on(base@, bs, i as int));
        if !fits {
            return false;
        }
        height = b.height;
        hash = b.hash();
        i = i + 1;
    }
    true
}

/// A block is connected exactly if it is the committed head, or is known above the
/// committed height and one height above its parent, which is connected.
pub proof fn lemma_connected_through_parent(
    known: Map<Hash32, BlockView>,
    head: Hash32,
    height: u64,
    h: Hash32,
)
    requires
        known.contains_key(h) ==> known[h].height < u64::MAX,
    ensures
        h == head ==> connected_to(known, head, height, h),
        h != head ==> (connected_to(known, head, height, h) <==> {
            &&& known.contains_key(h)
            &&& known[h].height > height
            &&& known[h].parent == head ==> known[h].height == height + 1
            &&& known[h].parent != head ==> {
                &&& connected_to(known, head, height, known[h].parent)
                &&& known.contains_key(known[h].parent)
                &&& known[h].height == known[known[h].parent].height + 1
            }
        }),
{
    reveal(connected_to);
    assert(ancestor(known, h, 0) == Some(h));
    if h == head {
        assert(links_to(known, head, height, h, 0));
    } else {
        if connected_to(known, head, height, h) {
            let n = choose|n: nat| #[trigger] links_to(known, head, height, h, n);
            assert(n > 0);
            lemma_links_parent(known, head, height, h, n);
            assert(link_ok(known, head, height, ancestor(known, h, 0), ancestor(known, h, 1)));
            assert(links_to(known, head, height, known[h].parent, (n - 1) as nat));
        }
        if known.contains_key(h) && known[h].height > height {
            let p = known[h].parent;
            if p == head && known[h].height == height + 1 {
                assert(ancestor(known, p, 0) == Some(p));
                assert(links_to(known, head, height, p, 0));
                lemma_links_child(known, head, height, h, 0);
            }
            if p != head && connected_to(known, head, height, p) && known.contains_key(p)
                && known[h].height == known[p].height + 1 {
                let n = choose|n: nat| #[trigger] links_to(known, head, height, p, n);
                lemma_links_child(known, head, height, h, n);
            }
        }
    }
}

/// The links from a block are the one to its parent and those from there on.
proof fn lemma_links_child(known: Map<Hash32, BlockView>, head: Hash32, height: u64, h: Hash32, n: nat)
    requires
        known.contains_key(h),
        h != head,
        known[h].height > height,
        links_to(known, head, height, known[h].parent, n),
        link_ok(known, head, height, Some(h), Some(known[h].parent)),
    ensures
        links_to(known, head, height, h, n + 1),
{
    let p = known[h].parent;
    assert(ancestor(known, h, 0) == Some(h));
    assert forall|i: nat| i < n + 1 implies link_ok(
        known,
        head,
        height,
        #[trigger] ancestor(known, h, i),
        ancestor(known, h, i + 1),
    ) by {
        crate::consensus::store::lemma_ancestor_shift(known, h, i);
        if i > 0 {
            let k = (i - 1) as nat;
            crate::consensus::store::lemma_ancestor_shift(known, h, k);
            assert(link_ok(known, head, height, ancestor(known, p, k), ancestor(known, p, k + 1)));
        } else {
            assert(ancestor(known, p, 0) == Some(p));
        }
    }
    crate::consensus::store::lemma_ancestor_shift(known, h, n);
}

/// A block is known if it is pending, cached or durable, and is taken from the first
/// of these that has it.
pub proof fn lemma_known(s: RunnerView, h: Hash32)
    ensures
        s.known_at(h) == (if s.pending.contains_key(h) {
            Some(s.pending[h])
        } else if s.store.blocks.contains_key(h) {
            Some(s.store.blocks[h])
        } else if s.rows.contains_key(h) {
            Some(s.rows[h])
        } else {
            None
        }),
{
}

/// A leader builds on the block of its highest certificate, if that block is known
/// under its own hash and connected to the committed head; else on the head.
pub proof fn lemma_proposal_parent(s: RunnerView)
    ensures
        (s.safety.high_qc matches Some(qc) && (s.known_at(qc.block_hash) matches Some(b) && block_hash(
            b,
        ) == qc.block_hash && s.connected(qc.block_hash))) ==> s.connected_high_qc()
            == s.safety.high_qc && Some(s.proposal_parent()) == s.known_at(
            s.safety.high_qc->Some_0.block_hash,
        ),
        !(s.safety.high_qc matches Some(qc) && (s.known_at(qc.block_hash) matches Some(b) && block_hash(
            b,
        ) == qc.block_hash && s.connected(qc.block_hash))) ==> s.connected_high_qc() is None && (
        s.known_at(s.committed_hash) matches Some(head) ==> s.proposal_parent() == head),
        s.head() == (match s.known_at(s.committed_hash) {
            Some(b) => Some(b),
            None => if s.committed_height == 0 {
                Some(genesis_block(s.context))
            } else {
                None
            },
        }),
{
}

/// What must not be dropped: the blocks of the highest and of the locked
/// certificate, the block that the next proposal builds on, and one more if named.
pub proof fn lemma_roots(s: RunnerView, extra: Option<Hash32>, roots: Seq<Hash32>, h: Hash32)
    requires
        are_roots(s, extra, roots),
    ensures
        roots.contains(h) <==> {
            ||| s.safety.high_qc matches Some(qc) && qc.block_hash == h
            ||| s.safety.locked_qc matches Some(qc) && qc.block_hash == h
            ||| extra == Some(h)
            ||| h == block_hash(s.proposal_parent())
        },
        roots.no_duplicates(),
{
    assert(roots.contains(h) <==> roots.to_set().contains(h));
}

/// A block becomes pending exactly if it is at most sixteen heights above the
/// committed one and pending already, or one of at most 64.
pub proof fn lemma_pending_room(s: RunnerView, b: BlockView)
    ensures
        s.pending_fault(b) is None <==> b.height - s.committed_height <= 16 && (
        s.pending.contains_key(block_hash(b)) || s.pending.dom().len() < 64),
        b.justify is Some ==> RunnerView::pending_limit(b) == 64 && byte_limit(b) == 96 * 1024 * 1024,
        b.justify is None ==> RunnerView::pending_limit(b) == 63 && byte_limit(b) == 48 * 1024 * 1024,
{
}

/// There is room for a block exactly if it is at most sixteen heights above the
/// committed one and pending already, or there are fewer pending blocks than the
/// limit (64 with a certificate, else 63), at least once those that no root depends
/// on are dropped.
pub proof fn lemma_admission_room(s: RunnerView, b: BlockView, roots: Seq<Hash32>)
    ensures
        s.admission_available(b, roots) <==> {
            let limit: int = if b.justify is Some {
                64
            } else {
                63
            };
            &&& b.height - s.committed_height <= 16
            &&& {
                ||| s.pending.contains_key(block_hash(b))
                ||| s.pending.dom().len() < limit
                ||| s.protected_set(roots).len() < limit
            }
        },
{
}

/// A pending block stays exactly if it is above the committed height and a root
/// leads to it through known blocks above that height.
pub proof fn lemma_pending_kept(s: RunnerView, roots: Seq<Hash32>, h: Hash32)
    ensures
        ({
            let above = s.known().restrict(
                Set::new(
                    |x: Hash32| s.known().contains_key(x) && s.known()[x].height > s.committed_height,
                ),
            );
            let after = s.pending_pruned(roots);
            &&& after.pending.contains_key(h) <==> s.pending.contains_key(h) && s.pending[h].height
                > s.committed_height && (exists|i: int|
                0 <= i < roots.len() && reaches(above, #[trigger] roots[i], h))
            &&& after.pending.contains_key(h) ==> after.pending[h] == s.pending[h]
            &&& after == (RunnerView { pending: after.pending, ..s })
        }),
{
    let above = s.known().restrict(
        Set::new(|x: Hash32| s.known().contains_key(x) && s.known()[x].height > s.committed_height),
    );
    assert(above =~= s.live());
}

/// A branch that can be replayed has at most fifteen blocks, one above the other
/// from the committed head up to the block that was asked for.
pub proof fn lemma_branch(s: RunnerView, target: Hash32, i: int)
    requires
        s.branch(target) is Ok,
    ensures
        ({
            let (head, blocks) = s.branch(target)->Ok_0;
            &&& s.head() == Some(head)
            &&& blocks.len() <= 15
            &&& target == s.committed_hash <==> blocks.len() == 0
            &&& blocks.len() > 0 ==> s.known_at(target) == Some(blocks.last()) && blocks[0].parent
                == block_hash(head)
            &&& 0 <= i < blocks.len() ==> blocks[i].height > s.committed_height && blocks[i].context
                == s.context
            &&& 0 < i < blocks.len() ==> blocks[i].parent == block_hash(blocks[i - 1])
            &&& 0 < i < blocks.len() && blocks[i - 1].height < u64::MAX ==> blocks[i].height
                == blocks[i - 1].height + 1
        }),
{
    lemma_branch_shape(s, target);
    let (head, blocks) = s.branch(target)->Ok_0;
    if 0 < i < blocks.len() {
        assert(builds_on(head, blocks, i));
    }
    if blocks.len() > 0 {
        assert(builds_on(head, blocks, 0));
    }
}

/// A branch of at most fifteen connected blocks of the context is always loaded, whole.
pub proof fn lemma_branch_loads(s: RunnerView, target: Hash32, head: BlockView, n: nat)
    requires
        crate::consensus::store::named_by_hash(s.known()),
        links_to(s.known(), s.committed_hash, s.committed_height, target, n),
        n <= 15,
        s.head() == Some(head),
        head.height == s.committed_height,
        block_hash(head) == s.committed_hash,
        s.known().contains_key(target) ==> s.known()[target].height < u64::MAX,
        forall|i: nat|
            i < n ==> s.known()[(#[trigger] ancestor(s.known(), target, i))->Some_0].context
                == s.context,
    ensures
        s.branch(target) is Ok,
        s.branch(target)->Ok_0.0 == head,
        s.branch(target)->Ok_0.1.len() == n,
{
    let known = s.known();
    let none = Seq::<BlockView>::empty();
    let seen = Seq::<Hash32>::empty();
    lemma_collects_links(
        known,
        s.committed_hash,
        s.committed_height,
        s.context,
        target,
        none,
        seen,
        n,
    );
    let r = collected(
        known,
        s.committed_hash,
        s.committed_height,
        s.context,
        target,
        none,
        seen,
    )->Ok_0;
    let list = r.reverse();
    assert forall|i: int| 0 <= i < list.len() implies #[trigger] builds_on(head, list, i) by {
        let k = (n - 1 - i) as nat;
        assert(list[i] == r[k as int]);
        assert(link_ok(
            known,
            s.committed_hash,
            s.committed_height,
            ancestor(known, target, k),
            ancestor(known, target, k + 1),
        ));
        let h = ancestor(known, target, k)->Some_0;
        assert(r[k as int] == known[h]);
        assert(ancestor(known, target, k + 1) == Some(known[h].parent));
        if i > 0 {
            assert(list[i - 1] == r[k as int + 1]);
            assert(link_ok(
                known,
                s.committed_hash,
                s.committed_height,
                ancestor(known, target, k + 1),
                ancestor(known, target, k + 2),
            ));
            assert(r[k as int + 1] == known[known[h].parent]);
        }
    }
}

/// The walk to the committed head collects all blocks of a connected branch.
proof fn lemma_collects_links(
    known: Map<Hash32, BlockView>,
    head: Hash32,
    height: u64,
    context: ConsensusContext,
    current: Hash32,
    blocks: Seq<BlockView>,
    visited: Seq<Hash32>,
    n: nat,
)
    requires
        links_to(known, head, height, current, n),
        blocks.len() + n <= 15,
        known.contains_key(current) ==> known[current].height < u64::MAX,
        forall|i: nat|
            i < n ==> known[(#[trigger] ancestor(known, current, i))->Some_0].context == context,
        n > 0 ==> forall|k: int|
            0 <= k < visited.len() ==> known[#[trigger] visited[k]].height > known[current].height,
    ensures
        collected(known, head, height, context, current, blocks, visited) is Ok,
        ({
            let r = collected(known, head, height, context, current, blocks, visited)->Ok_0;
            &&& r.len() == blocks.len() + n
            &&& forall|i: int| 0 <= i < blocks.len() ==> #[trigger] r[i] == blocks[i]
            &&& forall|i: nat|
                i < n ==> r[blocks.len() as int + i] == known[(#[trigger] ancestor(
                    known,
                    current,
                    i,
                ))->Some_0]
        }),
    decreases n,
{
    assert(ancestor(known, current, 0) == Some(current));
    if n > 0 {
        let b = known[current];
        let p = b.parent;
        lemma_links_parent(known, head, height, current, n);
        assert(link_ok(
            known,
            head,
            height,
            ancestor(known, current, 0),
            ancestor(known, current, 1),
        ));
        assert(current != head);
        assert(!visited.contains(current));
        let more = blocks.push(b);
        let seen = visited.push(current);
        assert forall|i: nat| i < n - 1 implies known[(#[trigger] ancestor(
            known,
            p,
            i,
        ))->Some_0].context == context by {
            crate::consensus::store::lemma_ancestor_shift(known, current, i);
            assert(ancestor(known, current, i + 1) == ancestor(known, p, i));
        }
        if n > 1 {
            assert(known[p].height < b.height);
            assert forall|k: int| 0 <= k < seen.len() implies known[#[trigger] seen[k]].height
                > known[p].height by {
                if k < visited.len() {
                    assert(seen[k] == visited[k]);
                }
            }
        } else if known.contains_key(p) {
            assert(p == head);
        }
        if n == 1 {
            assert(collected(known, head, height, context, p, more, seen) == Ok::<
                Seq<BlockView>,
                BranchError,
            >(more));
        } else {
            lemma_collects_links(known, head, height, context, p, more, seen, (n - 1) as nat);
        }
        let r = collected(known, head, height, context, p, more, seen)->Ok_0;
        assert(collected(known, head, height, context, current, blocks, visited) == Ok::<
            Seq<BlockView>,
            BranchError,
        >(r));
        assert forall|i: int| 0 <= i < blocks.len() implies #[trigger] r[i] == blocks[i] by {
            assert(more[i] == blocks[i]);
        }
        assert forall|i: nat| i < n implies r[blocks.len() as int + i] == known[(#[trigger] ancestor(
            known,
            current,
            i,
        ))->Some_0] by {
            if i == 0 {
                assert(more[blocks.len() as int] == b);
                assert(r[blocks.len() as int] == more[blocks.len() as int]);
            } else {
                let k = (i - 1) as nat;
                crate::consensus::store::lemma_ancestor_shift(known, current, k);
                assert(ancestor(known, p, k) == ancestor(known, current, i));
                assert(r[more.len() as int + k] == known[ancestor(known, p, k)->Some_0]);
            }
        }
    }
}

/// What the refusal of a pending block or a branch says is so.
pub proof fn lemma_branch_refusal(s: RunnerView, b: BlockView, target: Hash32)
    ensures
        match s.pending_fault(b) {
            None => true,
            Some(PendingError::TooHigh { height, committed }) => height == b.height && committed
                == s.committed_height && height > committed + 16,
            Some(PendingError::Full) => s.pending.dom().len() >= 64,
        },
        s.branch(target) == Err::<(BlockView, Seq<BlockView>), BranchError>(
            BranchError::HeadUnavailable,
        ) ==> s.head() is None,
        s.head() is None ==> s.branch(target) is Err,
        s.head() is Some && target != s.committed_hash && !s.known().contains_key(target) ==> s.branch(
            target,
        ) == Err::<(BlockView, Seq<BlockView>), BranchError>(BranchError::Unavailable),
        s.head() is Some && target != s.committed_hash && s.known().contains_key(target)
            && s.known()[target].context != s.context ==> s.branch(target) == Err::<
            (BlockView, Seq<BlockView>),
            BranchError,
        >(BranchError::Context),
        s.head() is Some && target != s.committed_hash && s.known().contains_key(target)
            && s.known()[target].context == s.context && s.known()[target].height
            <= s.committed_height ==> s.branch(target) == Err::<
            (BlockView, Seq<BlockView>),
            BranchError,
        >(BranchError::BelowCommitted),
{
    let r = collected(
        s.known(),
        s.committed_hash,
        s.committed_height,
        s.context,
        target,
        Seq::empty(),
        Seq::empty(),
    );
    lemma_collected_refusal(
        s.known(),
        s.committed_hash,
        s.committed_height,
        s.context,
        target,
        Seq::empty(),
        Seq::empty(),
    );
    assert(!Seq::<Hash32>::empty().contains(target));
}

proof fn lemma_collected_refusal(
    known: Map<Hash32, BlockView>,
    head: Hash32,
    height: u64,
    context: ConsensusContext,
    current: Hash32,
    blocks: Seq<BlockView>,
    visited: Seq<Hash32>,
)
    ensures
        collected(known, head, height, context, current, blocks, visited) matches Err(e) ==> !(
        e is HeadUnavailable) && !(e is Broken),
    decreases MAX_PENDING_DEPTH - blocks.len(),
{
    if current != head && blocks.len() < MAX_PENDING_DEPTH - 1 && !visited.contains(current)
        && known.contains_key(current) && known[current].context == context && known[current].height
        > height {
        lemma_collected_refusal(
            known,
            head,
            height,
            context,
            known[current].parent,
            blocks.push(known[current]),
            visited.push(current),
        );
    }
}

} // verus!
