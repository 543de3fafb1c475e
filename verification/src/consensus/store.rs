//! Block storage: canonical blocks by height, and a bounded journal of
//! speculative blocks.

use vstd::prelude::*;

use crate::bytes::{
    contains_hash, hash_before, hash_eq, hash_less, insert_hash, lemma_hash_order_total,
    lemma_hash_order_transitive, lemma_push_set, option_hash_eq, Hash32,
};
use crate::table::{distinct_keys, has_key, lemma_row, row_of, rows_map, rows_where, Table};
use crate::types::block::{block_hash, block_views, option_block, Block, BlockView};

verus! {

/// Most speculative blocks in the journal.
pub const MAX_SPECULATIVE_STORE_BLOCKS: usize = 64;

/// Speculative blocks above which branches are pruned, so that one row stays
/// free.
pub const MAX_SPECULATIVE_SOFT_BLOCKS: usize = 63;

/// Most bytes in the journal of speculative blocks.
pub const MAX_SPECULATIVE_STORE_BYTES: usize = 100_663_296;

/// Bytes in the journal above which branches are pruned.
pub const MAX_SPECULATIVE_SOFT_BYTES: usize = 50_331_648;

/// Most bytes of one speculative row.
pub const MAX_SPECULATIVE_BLOCK_BYTES: usize = 50_331_648;

/// Why a block is not stored, or the journal cannot be pruned.
#[derive(Clone, Copy, Debug, PartialEq, Eq)]
pub enum StoreError {
    /// The block is stored and is neither speculative nor indexed by height.
    NoCanonicalIndex(Hash32),
    /// The serialized block is larger than a row may be.
    RowTooLarge { bytes: usize, limit: usize },
    /// The journal has no room for the block.
    CapacityExceeded { max_blocks: usize, max_bytes: usize },
    /// What must be kept exceeds the journal's limits.
    ProtectedBranches { max_blocks: usize, max_bytes: usize },
}

/// The contents of a block store. Speculative blocks are listed in the order
/// of their admission, each with the length of its serialized row.
pub ghost struct StoreView {
    pub blocks: Map<Hash32, BlockView>,
    pub by_height: Map<u64, Hash32>,
    pub committed: Option<Hash32>,
    pub speculative: Seq<(Hash32, usize)>,
}

/// The block a number of steps up the parent links.
pub open spec fn ancestor(blocks: Map<Hash32, BlockView>, h: Hash32, n: nat) -> Option<Hash32>
    decreases n,
{
    if n == 0 {
        Some(h)
    } else {
        match ancestor(blocks, h, (n - 1) as nat) {
            Some(p) => if blocks.contains_key(p) {
                Some(blocks[p].parent)
            } else {
                None
            },
            None => None,
        }
    }
}

/// Parent links through stored blocks lead from one block to another.
pub open spec fn reaches(blocks: Map<Hash32, BlockView>, descendant: Hash32, target: Hash32) -> bool {
    exists|n: nat| #[trigger] ancestor(blocks, descendant, n) == Some(target)
}

/// Every block is named by its own hash.
pub open spec fn named_by_hash(blocks: Map<Hash32, BlockView>) -> bool {
    forall|h: Hash32| #[trigger] blocks.contains_key(h) ==> block_hash(blocks[h]) == h
}

/// Some root leads to the block.
pub open spec fn below_root(blocks: Map<Hash32, BlockView>, roots: Seq<Hash32>, h: Hash32) -> bool {
    exists|i: int| 0 <= i < roots.len() && reaches(blocks, #[trigger] roots[i], h)
}

/// The bytes of a list of rows.
pub open spec fn bytes_of(rows: Seq<(Hash32, usize)>) -> nat
    decreases rows.len(),
{
    if rows.len() == 0 {
        0
    } else {
        bytes_of(rows.drop_last()) + rows.last().1 as nat
    }
}

impl StoreView {
    /// The block is in the speculative journal.
    pub open spec fn is_speculative(self, h: Hash32) -> bool {
        has_key(self.speculative, h)
    }

    /// The block is indexed by a height.
    pub open spec fn is_indexed(self, h: Hash32) -> bool {
        exists|n: u64| #[trigger] self.by_height.contains_key(n) && self.by_height[n] == h
    }

    /// The block is indexed by a height or is the committed head.
    pub open spec fn is_canonical(self, h: Hash32) -> bool {
        self.is_indexed(h) || self.committed == Some(h)
    }

    /// The block is a stored ancestor of a protected root, or such a root.
    pub open spec fn is_protected(self, roots: Seq<Hash32>, h: Hash32) -> bool {
        self.blocks.contains_key(h) && below_root(self.blocks, roots, h)
    }

    /// The store after a block was saved as canonical.
    pub open spec fn saved(self, b: BlockView) -> StoreView {
        StoreView {
            blocks: self.blocks.insert(block_hash(b), b),
            by_height: self.by_height.insert(b.height, block_hash(b)),
            speculative: without(self.speculative, block_hash(b)),
            ..self
        }
    }

    /// The store after a block became the committed head.
    pub open spec fn with_committed(self, h: Hash32) -> StoreView {
        StoreView {
            committed: Some(h),
            by_height: if self.blocks.contains_key(h) {
                self.by_height.insert(self.blocks[h].height, h)
            } else {
                self.by_height
            },
            speculative: without(self.speculative, h),
            ..self
        }
    }

    /// The store after a block was added to the journal.
    pub open spec fn admitted(self, b: BlockView, bytes: usize) -> StoreView {
        StoreView {
            blocks: self.blocks.insert(block_hash(b), b),
            speculative: self.speculative.push((block_hash(b), bytes)),
            ..self
        }
    }

    /// The store without some speculative blocks.
    pub open spec fn dropping(self, gone: spec_fn(Hash32) -> bool) -> StoreView {
        StoreView {
            blocks: self.blocks.restrict(
                Set::new(|h: Hash32| !(self.is_speculative(h) && gone(h))),
            ),
            speculative: rows_where(self.speculative, |h: Hash32| !gone(h)),
            ..self
        }
    }

    /// The block that a hash names.
    pub open spec fn lookup(self, h: Hash32) -> Option<BlockView> {
        if self.blocks.contains_key(h) {
            Some(self.blocks[h])
        } else {
            None
        }
    }

    /// The block at a height.
    pub open spec fn at_height(self, height: u64) -> Option<BlockView> {
        if self.by_height.contains_key(height) {
            self.lookup(self.by_height[height])
        } else {
            None
        }
    }

    /// The committed head.
    pub open spec fn head(self) -> Option<BlockView> {
        match self.committed {
            Some(h) => self.lookup(h),
            None => None,
        }
    }

    /// Why the journal has no room for a block as it stands.
    pub open spec fn capacity_fault(
        self,
        h: Hash32,
        bytes: usize,
        max_blocks: usize,
        max_bytes: usize,
    ) -> Option<StoreError> {
        if self.is_speculative(h) {
            None
        } else if self.blocks.contains_key(h) {
            if self.is_indexed(h) {
                None
            } else {
                Some(StoreError::NoCanonicalIndex(h))
            }
        } else if bytes > MAX_SPECULATIVE_BLOCK_BYTES {
            Some(StoreError::RowTooLarge { bytes, limit: MAX_SPECULATIVE_BLOCK_BYTES })
        } else if self.speculative.len() + 1 > max_blocks || bytes_of(self.speculative) + bytes
            > max_bytes {
            Some(StoreError::CapacityExceeded { max_blocks, max_bytes })
        } else {
            None
        }
    }

    /// The speculative descendants of a block, and the block itself.
    pub open spec fn branch(self, root: Hash32) -> spec_fn(Hash32) -> bool {
        |h: Hash32| !self.is_canonical(h) && reaches(self.blocks, h, root)
    }

    /// Once some rows are dropped, one more row of the given length fits.
    pub open spec fn fits(
        self,
        gone: spec_fn(Hash32) -> bool,
        bytes: usize,
        max_blocks: usize,
        max_bytes: usize,
    ) -> bool {
        let dropped = rows_where(self.speculative, gone);
        &&& self.speculative.len() - dropped.len() + 1 <= max_blocks
        &&& bytes_of(self.speculative) - bytes_of(dropped) + bytes <= max_bytes
    }

    /// A speculative sibling of a justified block, of a lower view, that no
    /// protected root depends on.
    pub open spec fn is_candidate(self, b: BlockView, roots: Seq<Hash32>, h: Hash32) -> bool {
        &&& self.is_speculative(h)
        &&& !self.is_canonical(h)
        &&& !self.is_protected(roots, h)
        &&& b.justify is Some
        &&& self.blocks[h].parent == b.parent
        &&& self.blocks[h].view < b.view
    }

    /// A candidate whose whole branch may go and makes enough room.
    pub open spec fn is_victim(
        self,
        b: BlockView,
        roots: Seq<Hash32>,
        bytes: usize,
        max_blocks: usize,
        max_bytes: usize,
        h: Hash32,
    ) -> bool {
        &&& self.is_candidate(b, roots, h)
        &&& forall|x: Hash32| #[trigger]
            self.is_speculative(x) && (self.branch(h))(x) ==> !self.is_protected(roots, x)
        &&& self.fits(self.branch(h), bytes, max_blocks, max_bytes)
    }

    /// The first block is preferred as a victim: the newer one, or that with
    /// the lower hash.
    pub open spec fn preferred(self, a: Hash32, b: Hash32) -> bool {
        self.blocks[a].view > self.blocks[b].view || (self.blocks[a].view == self.blocks[b].view
            && hash_before(a, b))
    }

    /// A block that pruning may drop: speculative, not canonical, protected by
    /// no root, and not descended from the committed head.
    pub open spec fn is_droppable(self, roots: Seq<Hash32>, h: Hash32) -> bool {
        &&& self.is_speculative(h)
        &&& !self.is_canonical(h)
        &&& !self.is_protected(roots, h)
        &&& self.committed is Some
        &&& !reaches(self.blocks, h, self.committed->Some_0)
    }

    /// The droppable descendants of a block, and the block itself.
    pub open spec fn dead_branch(self, roots: Seq<Hash32>, root: Hash32) -> spec_fn(Hash32) -> bool {
        |h: Hash32| self.is_droppable(roots, h) && reaches(self.blocks, h, root)
    }

    /// The droppable blocks from the lowest height up, by hash at one height.
    pub open spec fn is_pruning_order(self, roots: Seq<Hash32>, order: Seq<Hash32>) -> bool {
        &&& order.no_duplicates()
        &&& forall|h: Hash32| #[trigger] order.contains(h) <==> self.is_droppable(roots, h)
        &&& forall|i: int, j: int|
            0 <= i < j < order.len() ==> lower_first(
                self.blocks,
                #[trigger] order[i],
                #[trigger] order[j],
            )
    }

    /// The number of branches, from the start of the order, that pruning
    /// drops. If the journal was within its limits all go, else as many as it
    /// takes to get there.
    pub open spec fn pruned_count(
        self,
        roots: Seq<Hash32>,
        order: Seq<Hash32>,
        max_blocks: usize,
        max_bytes: usize,
        i: int,
    ) -> int
        decreases order.len() - i,
    {
        if i < 0 || i >= order.len() {
            order.len() as int
        } else if !self.within(max_blocks, max_bytes) && self.left_within(
            roots,
            order,
            i,
            max_blocks,
            max_bytes,
        ) {
            i
        } else {
            self.pruned_count(roots, order, max_blocks, max_bytes, i + 1)
        }
    }

    /// The journal is within its limits.
    pub open spec fn within(self, max_blocks: usize, max_bytes: usize) -> bool {
        self.speculative.len() <= max_blocks && bytes_of(self.speculative) <= max_bytes
    }

    /// The journal rows that remain once the first branches were dropped.
    pub open spec fn left_rows(self, roots: Seq<Hash32>, order: Seq<Hash32>, n: int) -> Seq<
        (Hash32, usize),
    > {
        rows_where(self.speculative, |h: Hash32| !(self.in_branches(roots, order, n))(h))
    }

    /// The journal is within its limits once the first branches were dropped.
    pub open spec fn left_within(
        self,
        roots: Seq<Hash32>,
        order: Seq<Hash32>,
        n: int,
        max_blocks: usize,
        max_bytes: usize,
    ) -> bool {
        &&& self.left_rows(roots, order, n).len() <= max_blocks
        &&& bytes_of(self.left_rows(roots, order, n)) <= max_bytes
    }

    /// The blocks of the first branches in an order.
    pub open spec fn in_branches(self, roots: Seq<Hash32>, order: Seq<Hash32>, n: int) -> spec_fn(
        Hash32,
    ) -> bool {
        |h: Hash32|
            exists|k: int|
                0 <= k < n && (self.dead_branch(roots, #[trigger] order[k]))(h)
    }

    /// The store after pruning, if it succeeds. It fails if what must stay is
    /// over the limits on its own.
    pub open spec fn pruned(
        self,
        roots: Seq<Hash32>,
        order: Seq<Hash32>,
        max_blocks: usize,
        max_bytes: usize,
    ) -> Result<StoreView, StoreError> {
        let n = self.pruned_count(roots, order, max_blocks, max_bytes, 0);
        if !self.left_within(roots, order, n, max_blocks, max_bytes) {
            Err(StoreError::ProtectedBranches { max_blocks, max_bytes })
        } else {
            Ok(self.dropping(self.in_branches(roots, order, n)))
        }
    }

    /// What a short-lived cache keeps: the committed head, and protected
    /// blocks above it.
    pub open spec fn cache_keeps(self, roots: Seq<Hash32>, h: Hash32) -> bool {
        &&& self.blocks.contains_key(h)
        &&& self.committed == Some(h) || (self.is_protected(roots, h) && (self.head() is Some
            ==> self.blocks[h].height > self.head()->Some_0.height))
    }

    /// The store with nothing but what a short-lived cache keeps.
    pub open spec fn cache_pruned(self, roots: Seq<Hash32>) -> StoreView {
        let keep = |h: Hash32| self.cache_keeps(roots, h);
        StoreView {
            blocks: self.blocks.restrict(Set::new(keep)),
            by_height: self.by_height.restrict(
                Set::new(
                    |n: u64|
                        self.head() is Some && n == self.head()->Some_0.height && self.by_height[n]
                            == self.committed->Some_0,
                ),
            ),
            speculative: rows_where(self.speculative, keep),
            ..self
        }
    }
}

/// A lower block, or the one with the lower hash at the same height.
pub open spec fn lower_first(blocks: Map<Hash32, BlockView>, a: Hash32, b: Hash32) -> bool {
    blocks[a].height < blocks[b].height || (blocks[a].height == blocks[b].height && hash_before(a, b))
}

/// Rows without a key.
pub open spec fn without(rows: Seq<(Hash32, usize)>, k: Hash32) -> Seq<(Hash32, usize)> {
    if has_key(rows, k) {
        rows.remove(row_of(rows, k))
    } else {
        rows
    }
}

/// One more parent link.
pub proof fn lemma_ancestor_step(blocks: Map<Hash32, BlockView>, h: Hash32, n: nat, p: Hash32)
    requires
        ancestor(blocks, h, n) == Some(p),
    ensures
        ancestor(blocks, h, n + 1) == (if blocks.contains_key(p) {
            Some(blocks[p].parent)
        } else {
            None
        }),
{
}

/// No parent link leads on from a block that is not stored.
pub proof fn lemma_dead_end(blocks: Map<Hash32, BlockView>, h: Hash32, n: nat, m: nat)
    requires
        ancestor(blocks, h, n) matches Some(p) && !blocks.contains_key(p),
        m > n,
    ensures
        ancestor(blocks, h, m) is None,
    decreases m,
{
    if m > n + 1 {
        lemma_dead_end(blocks, h, n, (m - 1) as nat);
    }
}

proof fn lemma_period(blocks: Map<Hash32, BlockView>, h: Hash32, j: nat, n: nat, k: nat)
    requires
        ancestor(blocks, h, j) == ancestor(blocks, h, n),
    ensures
        ancestor(blocks, h, j + k) == ancestor(blocks, h, n + k),
    decreases k,
{
    if k > 0 {
        lemma_period(blocks, h, j, n, (k - 1) as nat);
    }
}

/// A walk that comes back to a block meets no other blocks from there on.
pub proof fn lemma_cycle(
    blocks: Map<Hash32, BlockView>,
    h: Hash32,
    j: nat,
    n: nat,
    m: nat,
    target: Hash32,
)
    requires
        j < n,
        ancestor(blocks, h, j) == ancestor(blocks, h, n),
        forall|i: nat| i < n ==> #[trigger] ancestor(blocks, h, i) != Some(target),
    ensures
        ancestor(blocks, h, m) != Some(target),
    decreases m,
{
    if m >= n {
        let k = (m - n) as nat;
        lemma_period(blocks, h, j, n, k);
        lemma_cycle(blocks, h, j, n, (j + k) as nat, target);
    }
}

/// The contents of a table of blocks.
pub open spec fn block_map(m: Map<Hash32, Block>) -> Map<Hash32, BlockView> {
    Map::new(|k: Hash32| m.contains_key(k), |k: Hash32| m[k]@)
}

/// Distinct stored blocks are no more than there are rows.
proof fn lemma_visited(rows: Seq<(Hash32, Block)>, visited: Seq<Hash32>)
    requires
        distinct_keys(rows),
        visited.no_duplicates(),
        forall|i: int| 0 <= i < visited.len() ==> rows_map(rows).contains_key(#[trigger] visited[i]),
    ensures
        visited.len() <= rows.len(),
{
    crate::table::lemma_rows_len(rows);
    visited.unique_seq_to_set();
    assert(visited.to_set().subset_of(rows_map(rows).dom()));
    vstd::set_lib::lemma_len_subset(visited.to_set(), rows_map(rows).dom());
}

/// Whether parent links through stored blocks lead from one block to another.
pub fn reaches_ancestor(blocks: &Table<Hash32, Block>, descendant: Hash32, target: Hash32) -> (r: bool)
    requires
        blocks.wf(),
    ensures
        r == reaches(block_map(blocks.map()), descendant, target),
{
    let ghost bm = block_map(blocks.map());
    let mut current = descendant;
    let mut visited: Vec<Hash32> = Vec::new();
    loop
        invariant
            blocks.wf(),
            bm == block_map(blocks.map()),
            ancestor(bm, descendant, visited@.len()) == Some(current),
            forall|i: int|
                0 <= i < visited@.len() ==> ancestor(bm, descendant, i as nat) == Some(
                    #[trigger] visited@[i],
                ) && visited@[i] != target && blocks.map().contains_key(visited@[i]),
            visited@.no_duplicates(),
            visited@.len() <= blocks.rows().len(),
        decreases blocks.rows().len() - visited@.len() + 1,
    {
        if hash_eq(&current, &target) {
            return true;
        }
        let ghost n = visited@.len();
        let ghost before = visited@;
        if contains_hash(&visited, &current) {
            proof {
                let j = choose|j: int| 0 <= j < visited@.len() && visited@[j] == current;
                assert(ancestor(bm, descendant, j as nat) == Some(visited@[j]));
                assert forall|i: nat| i < n implies #[trigger] ancestor(bm, descendant, i) != Some(
                    target,
                ) by {
                    assert(ancestor(bm, descendant, i) == Some(visited@[i as int]));
                }
                assert forall|m: nat| #[trigger] ancestor(bm, descendant, m) != Some(target) by {
                    lemma_cycle(bm, descendant, j as nat, n, m, target);
                }
            }
            return false;
        }
        let parent = match blocks.get(&current) {
            Some(b) => b.parent,
            None => {
                proof {
                    assert forall|m: nat| #[trigger] ancestor(bm, descendant, m) != Some(target) by {
                        if m > n {
                            lemma_dead_end(bm, descendant, n, m);
                        } else if m < n {
                            assert(ancestor(bm, descendant, m) == Some(visited@[m as int]));
                        }
                    }
                }
                return false;
            },
        };
        visited.push(current);
        proof {
            lemma_ancestor_step(bm, descendant, n, current);
            assert forall|i: int| 0 <= i < visited@.len() implies ancestor(bm, descendant, i as nat)
                == Some(#[trigger] visited@[i]) && visited@[i] != target && blocks.map().contains_key(
                visited@[i],
            ) by {
                if i < n {
                    assert(visited@[i] == before[i]);
                }
            }
            lemma_visited(blocks.rows(), visited@);
        }
        current = parent;
    }
}

/// Whether some root leads to a block.
fn below_any(blocks: &Table<Hash32, Block>, roots: &Vec<Hash32>, h: &Hash32) -> (r: bool)
    requires
        blocks.wf(),
    ensures
        r == below_root(block_map(blocks.map()), roots@, *h),
{
    let mut i: usize = 0;
    while i < roots.len()
        invariant
            i <= roots.len(),
            blocks.wf(),
            forall|k: int|
                0 <= k < i ==> !reaches(block_map(blocks.map()), #[trigger] roots@[k], *h),
        decreases roots.len() - i,
    {
        if reaches_ancestor(blocks, roots[i], *h) {
            assert(reaches(block_map(blocks.map()), roots@[i as int], *h));
            return true;
        }
        i = i + 1;
    }
    false
}

/// The stored blocks that are protected roots or their ancestors.
pub fn speculative_ancestor_closure(blocks: &Table<Hash32, Block>, roots: &Vec<Hash32>) -> (r: Vec<
    Hash32,
>)
    requires
        blocks.wf(),
    ensures
        forall|h: Hash32| #[trigger]
            r@.contains(h) <==> blocks.map().contains_key(h) && below_root(
                block_map(blocks.map()),
                roots@,
                h,
            ),
        r@.no_duplicates(),
{
    let ghost rows = blocks.rows();
    let mut r: Vec<Hash32> = Vec::new();
    let mut i: usize = 0;
    while i < blocks.len()
        invariant
            i <= rows.len(),
            rows == blocks.rows(),
            blocks.wf(),
            r@.no_duplicates(),
            forall|h: Hash32| #[trigger]
                r@.contains(h) <==> has_key(rows.take(i as int), h) && below_root(
                    block_map(blocks.map()),
                    roots@,
                    h,
                ),
        decreases rows.len() - i,
    {
        let h = blocks.key_at(i);
        let ghost before = r@;
        let below = below_any(blocks, roots, &h);
        proof {
            lemma_take_key(rows, i as int);
            lemma_push_set(before, h);
        }
        if below {
            r.push(h);
        }
        assert forall|x: Hash32| #[trigger] r@.contains(x) <==> has_key(rows.take(i + 1), x)
            && below_root(block_map(blocks.map()), roots@, x) by {
            assert(has_key(rows.take(i + 1), x) <==> has_key(rows.take(i as int), x) || x == h);
            assert(before.push(h).contains(x) <==> before.push(h).to_set().contains(x));
            assert(before.contains(x) <==> before.to_set().contains(x));
        }
        assert(!before.contains(h));
        i = i + 1;
    }
    assert(rows.take(rows.len() as int) =~= rows);
    r
}

/// A row is a new key after the rows before it.
pub proof fn lemma_take_key<V>(rows: Seq<(Hash32, V)>, i: int)
    requires
        distinct_keys(rows),
        0 <= i < rows.len(),
    ensures
        !has_key(rows.take(i), rows[i].0),
        forall|x: Hash32|
            has_key(rows.take(i + 1), x) <==> #[trigger] has_key(rows.take(i), x) || x == rows[i].0,
        rows.take(i + 1).drop_last() == rows.take(i),
        rows.take(i + 1).last() == rows[i],
{
    let k = rows[i].0;
    assert(rows.take(i + 1).drop_last() =~= rows.take(i));
    if has_key(rows.take(i), k) {
        let j = row_of(rows.take(i), k);
        assert(rows.take(i)[j] == rows[j]);
        assert(rows[j].0 != rows[i].0);
    }
    assert forall|x: Hash32|
        has_key(rows.take(i + 1), x) <==> #[trigger] has_key(rows.take(i), x) || x == k by {
        if has_key(rows.take(i + 1), x) {
            let j = row_of(rows.take(i + 1), x);
            if j < i {
                assert(rows.take(i)[j].0 == x);
            }
        }
        if has_key(rows.take(i), x) {
            let j = row_of(rows.take(i), x);
            assert(rows.take(i + 1)[j].0 == x);
        }
        assert(rows.take(i + 1)[i].0 == k);
    }
}

/// What every store does with a speculative block: once it is accepted, a block
/// of its hash is stored; if it is refused, nothing has changed; and the
/// committed head stays as it is.
pub open spec fn adds_block(
    before: StoreView,
    after: StoreView,
    b: BlockView,
    r: Result<(), StoreError>,
) -> bool {
    &&& r is Ok ==> after.blocks.contains_key(block_hash(b)) && (
    !before.blocks.contains_key(block_hash(b)) ==> after.blocks[block_hash(b)] == b)
    &&& r is Err ==> after == before
    &&& after.committed == before.committed
}

/// The blocks that are indexed by the heights from one on, as far as there is no
/// gap, at most so many.
pub open spec fn indexed_from(
    blocks: Map<Hash32, BlockView>,
    by_height: Map<u64, Hash32>,
    height: int,
    n: nat,
) -> Seq<BlockView>
    decreases n,
{
    let hash = by_height[height as u64];
    if n == 0 || height > u64::MAX || !by_height.contains_key(height as u64)
        || !blocks.contains_key(hash) {
        Seq::empty()
    } else {
        seq![blocks[hash]] + indexed_from(blocks, by_height, height + 1, (n - 1) as nat)
    }
}

/// A store that consensus keeps blocks in.
pub trait BlockStore {
    /// The contents of the store.
    spec fn contents(&self) -> StoreView;

    /// The store is well-formed.
    spec fn wf(&self) -> bool;

    /// A store holds finitely many blocks.
    proof fn lemma_finite(&self)
        requires
            self.wf(),
        ensures
            self.contents().blocks.dom().finite(),
    ;

    /// Saves a canonical block.
    fn save(&mut self, block: &Block)
        requires
            old(self).wf(),
        ensures
            final(self).wf(),
            final(self).contents() == old(self).contents().saved(block@),
    ;

    /// Saves an unfinalized block under its hash, without changing the index
    /// by height. The length is that of the block's serialized row.
    fn save_speculative(&mut self, block: &Block, block_bytes: usize) -> (r: Result<(), StoreError>)
        requires
            old(self).wf(),
        ensures
            final(self).wf(),
            adds_block(old(self).contents(), final(self).contents(), block@, r),
        default_ensures
            r is Ok,
            final(self).contents() == old(self).contents().saved(block@),
    {
        self.save(block);
        Ok(())
    }

    /// Checks that the journal has room for a block.
    fn ensure_speculative_capacity(
        &self,
        block: &Block,
        block_bytes: usize,
        max_blocks: usize,
        max_bytes: usize,
    ) -> (r: Result<(), StoreError>)
        requires
            self.wf(),
        default_ensures
            r is Ok,
    {
        Ok(())
    }

    /// Admits a speculative block, and drops an older unprotected sibling
    /// branch if the journal is full.
    fn admit_speculative_with_rolling_victim(
        &mut self,
        block: &Block,
        block_bytes: usize,
        protected_roots: &Vec<Hash32>,
        max_blocks: usize,
        max_bytes: usize,
    ) -> (r: Result<(), StoreError>)
        requires
            old(self).wf(),
        ensures
            final(self).wf(),
            adds_block(old(self).contents(), final(self).contents(), block@, r),
        default_ensures
            exists|checked: Result<(), StoreError>| #[trigger]
                call_ensures(
                    Self::ensure_speculative_capacity,
                    (&*old(self), block, block_bytes, max_blocks, max_bytes),
                    checked,
                ) && (checked is Err ==> r == checked),
    {
        match self.ensure_speculative_capacity(block, block_bytes, max_blocks, max_bytes) {
            Ok(()) => self.save_speculative(block, block_bytes),
            Err(e) => Err(e),
        }
    }

    /// Drops unfinalized branches that nothing depends on.
    fn prune_speculative(
        &mut self,
        protected_roots: &Vec<Hash32>,
        max_blocks: usize,
        max_bytes: usize,
    ) -> (r: Result<(), StoreError>)
        requires
            old(self).wf(),
        ensures
            final(self).wf(),
        default_ensures
            r is Ok,
            final(self).contents() == old(self).contents(),
    {
        Ok(())
    }

    /// Drops what a short-lived cache does not need.
    fn prune_production_cache(&mut self, protected_roots: &Vec<Hash32>) -> (r: Result<(), StoreError>)
        requires
            old(self).wf(),
        ensures
            final(self).wf(),
        default_ensures
            r is Ok,
            final(self).contents() == old(self).contents(),
    {
        Ok(())
    }

    /// The block that a hash names.
    fn get(&self, hash: &Hash32) -> (r: Option<Block>)
        requires
            self.wf(),
        ensures
            option_block(r) == self.contents().lookup(*hash),
    ;

    /// The block at a height.
    fn get_by_height(&self, height: u64) -> (r: Option<Block>)
        requires
            self.wf(),
        ensures
            option_block(r) == self.contents().at_height(height),
    ;

    /// Makes a block the committed head.
    fn set_committed(&mut self, hash: &Hash32)
        requires
            old(self).wf(),
        ensures
            final(self).wf(),
            final(self).contents() == old(self).contents().with_committed(*hash),
    ;

    /// The committed head.
    fn get_committed_head(&self) -> (r: Option<Block>)
        requires
            self.wf(),
        ensures
            option_block(r) == self.contents().head(),
    ;
}

/// A block store in memory.
pub struct MemoryBlockStore {
    blocks: Table<Hash32, Block>,
    by_height: Table<u64, Hash32>,
    committed: Option<Hash32>,
    speculative: Table<Hash32, usize>,
}

/// A store without blocks.
pub open spec fn empty_store() -> StoreView {
    StoreView {
        blocks: Map::empty(),
        by_height: Map::empty(),
        committed: None,
        speculative: Seq::empty(),
    }
}

/// Marks what either of two lists of the same length marks.
fn either(a: &Vec<bool>, b: &Vec<bool>) -> (r: Vec<bool>)
    requires
        a.len() == b.len(),
    ensures
        r.len() == a.len(),
        forall|i: int| 0 <= i < r.len() ==> #[trigger] r[i] == (a[i] || b[i]),
{
    let mut r: Vec<bool> = Vec::new();
    let mut i: usize = 0;
    while i < a.len()
        invariant
            i <= a.len(),
            a.len() == b.len(),
            r.len() == i,
            forall|k: int| 0 <= k < i ==> #[trigger] r[k] == (a[k] || b[k]),
        decreases a.len() - i,
    {
        r.push(a[i] || b[i]);
        i = i + 1;
    }
    r
}

impl MemoryBlockStore {
    /// The contents of the store.
    pub closed spec fn model(self) -> StoreView {
        StoreView {
            blocks: block_map(self.blocks.map()),
            by_height: self.by_height.map(),
            committed: self.committed,
            speculative: self.speculative.rows(),
        }
    }

    /// No key is listed twice, and speculative blocks are stored, in rows that
    /// are not too long.
    pub closed spec fn ok(self) -> bool {
        &&& self.blocks.wf()
        &&& self.by_height.wf()
        &&& self.speculative.wf()
        &&& forall|h: Hash32| #[trigger]
            self.speculative.map().contains_key(h) ==> self.blocks.map().contains_key(h)
        &&& named_by_hash(block_map(self.blocks.map()))
    }

    /// Finitely many heights are indexed.
    pub proof fn lemma_heights_finite(&self)
        requires
            self.ok(),
        ensures
            self.model().by_height.dom().finite(),
    {
        crate::table::lemma_rows_len(self.by_height.rows());
    }

    /// Blocks are stored under their own hashes.
    pub proof fn lemma_named(&self)
        requires
            self.ok(),
        ensures
            named_by_hash(self.model().blocks),
    {
    }

    /// A store without blocks.
    pub fn new() -> (r: Self)
        ensures
            r.ok(),
            r.model() == empty_store(),
    {
        let r = MemoryBlockStore {
            blocks: Table::new(),
            by_height: Table::new(),
            committed: None,
            speculative: Table::new(),
        };
        assert(block_map(r.blocks.map()) =~= Map::empty());
        r
    }
}

/// A filtered list of rows and the rows filtered out make up the whole.
pub proof fn lemma_rows_split(rows: Seq<(Hash32, usize)>, p: spec_fn(Hash32) -> bool)
    ensures
        rows_where(rows, p).len() + rows_where(rows, |h: Hash32| !p(h)).len() == rows.len(),
        bytes_of(rows_where(rows, p)) + bytes_of(rows_where(rows, |h: Hash32| !p(h))) == bytes_of(
            rows,
        ),
    decreases rows.len(),
{
    let q = |h: Hash32| !p(h);
    reveal(Seq::filter);
    if rows.len() > 0 {
        let front = rows.drop_last();
        lemma_rows_split(front, p);
        let last = rows.last();
        if p(last.0) {
            assert(rows_where(rows, p) =~= rows_where(front, p).push(last));
            assert(rows_where(rows, q) =~= rows_where(front, q));
            assert(rows_where(front, p).push(last).drop_last() =~= rows_where(front, p));
        } else {
            assert(rows_where(rows, p) =~= rows_where(front, p));
            assert(rows_where(rows, q) =~= rows_where(front, q).push(last));
            assert(rows_where(front, q).push(last).drop_last() =~= rows_where(front, q));
        }
    }
}

/// Predicates that agree on the keys of rows keep the same rows.
proof fn lemma_rows_agree<V>(
    rows: Seq<(Hash32, V)>,
    p: spec_fn(Hash32) -> bool,
    q: spec_fn(Hash32) -> bool,
)
    requires
        forall|i: int| 0 <= i < rows.len() ==> p((#[trigger] rows[i]).0) == q(rows[i].0),
    ensures
        rows_where(rows, p) == rows_where(rows, q),
    decreases rows.len(),
{
    reveal(Seq::filter);
    if rows.len() > 0 {
        let front = rows.drop_last();
        assert forall|i: int| 0 <= i < front.len() implies p((#[trigger] front[i]).0) == q(front[i].0) by {
            assert(front[i] == rows[i]);
        }
        lemma_rows_agree(front, p, q);
        assert(rows[rows.len() - 1] == rows.last());
    }
}

proof fn lemma_bytes_bound(rows: Seq<(Hash32, usize)>)
    ensures
        bytes_of(rows) <= rows.len() * usize::MAX,
    decreases rows.len(),
{
    if rows.len() > 0 {
        lemma_bytes_bound(rows.drop_last());
        let n = rows.drop_last().len() as int;
        assert(n * usize::MAX + usize::MAX == (n + 1) * usize::MAX) by (nonlinear_arith);
    }
}

/// Comes first in the order by rank, and by hash within a rank.
pub open spec fn rank_before(a: (u64, Hash32), b: (u64, Hash32)) -> bool {
    a.0 < b.0 || (a.0 == b.0 && hash_before(a.1, b.1))
}

/// Whether one item comes before another in the order by rank and hash.
fn rank_less(a: &(u64, Hash32), b: &(u64, Hash32)) -> (r: bool)
    ensures
        r == rank_before(*a, *b),
{
    a.0 < b.0 || (a.0 == b.0 && hash_less(&a.1, &b.1))
}

proof fn lemma_rank_total(a: (u64, Hash32), b: (u64, Hash32))
    ensures
        a == b || rank_before(a, b) || rank_before(b, a),
        !(rank_before(a, b) && rank_before(b, a)),
        !rank_before(a, a),
{
    lemma_hash_order_total(a.1, b.1);
    lemma_hash_order_total(a.1, a.1);
}

proof fn lemma_rank_transitive(a: (u64, Hash32), b: (u64, Hash32), c: (u64, Hash32))
    requires
        rank_before(a, b),
        rank_before(b, c),
    ensures
        rank_before(a, c),
{
    if a.0 == b.0 && b.0 == c.0 {
        lemma_hash_order_transitive(a.1, b.1, c.1);
    }
}

/// Items in ascending order of rank and hash.
pub open spec fn ranked(items: Seq<(u64, Hash32)>) -> bool {
    forall|i: int, j: int|
        0 <= i < j < items.len() ==> rank_before(#[trigger] items[i], #[trigger] items[j])
}

/// Puts distinct items in ascending order of rank and hash.
fn sort_ranked(items: &Vec<(u64, Hash32)>) -> (r: Vec<(u64, Hash32)>)
    requires
        items@.no_duplicates(),
    ensures
        ranked(r@),
        forall|x: (u64, Hash32)| #[trigger] r@.contains(x) <==> items@.contains(x),
{
    let mut r: Vec<(u64, Hash32)> = Vec::new();
    let mut i: usize = 0;
    while i < items.len()
        invariant
            i <= items.len(),
            items@.no_duplicates(),
            ranked(r@),
            forall|x: (u64, Hash32)| #[trigger]
                r@.contains(x) <==> items@.take(i as int).contains(x),
        decreases items.len() - i,
    {
        let item = items[i];
        let ghost before = r@;
        let mut at: usize = 0;
        while at < r.len() && rank_less(&r[at], &item)
            invariant
                at <= r.len(),
                r@ == before,
                forall|k: int| 0 <= k < at ==> rank_before(#[trigger] before[k], item),
            decreases r.len() - at,
        {
            at = at + 1;
        }
        r.insert(at, item);
        proof {
            assert(!items@.take(i as int).contains(item)) by {
                if items@.take(i as int).contains(item) {
                    let k = choose|k: int| 0 <= k < i && items@.take(i as int)[k] == item;
                    assert(items@[k] == items@[i as int]);
                }
            }
            assert forall|k: int| at <= k < before.len() implies rank_before(
                item,
                #[trigger] before[k],
            ) by {
                assert(before.contains(before[at as int]));
                lemma_rank_total(before[at as int], item);
                if k > at {
                    lemma_rank_transitive(item, before[at as int], before[k]);
                }
            }
            assert forall|a: int, b: int| 0 <= a < b < r@.len() implies rank_before(
                #[trigger] r@[a],
                #[trigger] r@[b],
            ) by {
                let a2 = if a < at { a } else { a - 1 };
                let b2 = if b < at { b } else { b - 1 };
                if a != at {
                    assert(r@[a] == before[a2]);
                }
                if b != at {
                    assert(r@[b] == before[b2]);
                }
            }
            assert(items@.take(i + 1) =~= items@.take(i as int).push(item));
            assert forall|x: (u64, Hash32)| #[trigger] r@.contains(x) <==> items@.take(
                i + 1,
            ).contains(x) by {
                lemma_push_set(items@.take(i as int), item);
                assert(items@.take(i + 1).contains(x) <==> items@.take(i + 1).to_set().contains(x));
                assert(items@.take(i as int).contains(x) <==> items@.take(i as int).to_set().contains(
                    x,
                ));
                if r@.contains(x) {
                    let k = choose|k: int| 0 <= k < r@.len() && r@[k] == x;
                    if k < at {
                        assert(before[k] == x);
                    } else if k > at {
                        assert(before[k - 1] == x);
                    }
                }
                if before.contains(x) {
                    let k = choose|k: int| 0 <= k < before.len() && before[k] == x;
                    if k < at {
                        assert(r@[k] == x);
                    } else {
                        assert(r@[k + 1] == x);
                    }
                }
                assert(r@[at as int] == item);
            }
        }
        i = i + 1;
    }
    assert(items@.take(items@.len() as int) =~= items@);
    r
}

impl MemoryBlockStore {
    /// The blocks that are indexed by the heights from one on, as far as there
    /// is no gap.
    pub fn blocks_from(&self, from: u64) -> (r: Vec<Block>)
        requires
            self.ok(),
        ensures
            block_views(r@) == indexed_from(
                self.model().blocks,
                self.model().by_height,
                from as int,
                self.model().by_height.dom().len(),
            ),
    {
        let ghost m = self.model();
        let ghost n = m.by_height.dom().len();
        let ghost all = indexed_from(m.blocks, m.by_height, from as int, n);
        proof {
            crate::table::lemma_rows_len(self.by_height.rows());
        }
        let mut r: Vec<Block> = Vec::new();
        let mut height: u64 = from;
        proof {
            assert(block_views(r@) =~= Seq::empty());
            assert(all =~= block_views(r@) + indexed_from(m.blocks, m.by_height, height as int, n));
        }
        while r.len() < self.by_height.len()
            invariant
                self.ok(),
                m == self.model(),
                n == m.by_height.dom().len(),
                self.by_height.rows().len() == n,
                r@.len() <= n,
                all == indexed_from(m.blocks, m.by_height, from as int, n),
                all == block_views(r@) + indexed_from(m.blocks, m.by_height, height as int, (n - r@.len()) as nat),
            decreases n - r@.len(),
        {
            let ghost part = block_views(r@);
            let ghost left = (n - r@.len()) as nat;
            let b = match self.get_by_height(height) {
                Some(b) => b,
                None => {
                    assert(part + Seq::<BlockView>::empty() =~= part);
                    return r;
                },
            };
            let ghost v = b@;
            r.push(b);
            proof {
                let rest = indexed_from(m.blocks, m.by_height, height + 1, (left - 1) as nat);
                assert(block_views(r@) =~= part.push(v));
                assert(part + (seq![v] + rest) =~= part.push(v) + rest);
            }
            if height == u64::MAX {
                assert(block_views(r@) + Seq::<BlockView>::empty() =~= block_views(r@));
                return r;
            }
            height = height + 1;
        }
        assert(block_views(r@) + Seq::<BlockView>::empty() =~= block_views(r@));
        r
    }

    /// All blocks, by hash.
    pub fn copy_blocks(&self) -> (r: Table<Hash32, Block>)
        requires
            self.ok(),
        ensures
            r.wf(),
            block_map(r.map()) == self.model().blocks,
    {
        let ghost rows = self.blocks.rows();
        let mut r: Table<Hash32, Block> = Table::new();
        let mut i: usize = 0;
        assert(block_map(r.map()) =~= block_map(rows_map(rows.take(0))));
        while i < self.blocks.len()
            invariant
                self.ok(),
                rows == self.blocks.rows(),
                i <= rows.len(),
                r.wf(),
                block_map(r.map()) == block_map(rows_map(rows.take(i as int))),
            decreases rows.len() - i,
        {
            let h = self.blocks.key_at(i);
            let ghost before = r.map();
            let ghost part = rows.take(i as int);
            let ghost next = rows.take(i + 1);
            let copy = self.blocks.value_at(i).clone();
            let ghost b = copy@;
            r.put(h, copy);
            proof {
                assert(block_map(r.map()) =~= block_map(before).insert(h, b));
                assert(block_map(rows_map(part).insert(h, rows[i as int].1)) =~= block_map(
                    rows_map(part),
                ).insert(h, b));
                assert(next =~= part.push(rows[i as int]));
                lemma_take_key(rows, i as int);
                assert(distinct_keys(part));
                crate::table::lemma_push(part, rows[i as int].0, rows[i as int].1);
                assert(block_map(r.map()) =~= block_map(rows_map(next)));
            }
            i = i + 1;
        }
        assert(rows.take(rows.len() as int) =~= rows);
        r
    }

    /// The recorded length of a speculative block, or zero.
    pub fn row_bytes(&self, h: &Hash32) -> (r: usize)
        requires
            self.ok(),
        ensures
            r == (if self.model().is_speculative(*h) {
                rows_map(self.model().speculative)[*h]
            } else {
                0
            }),
    {
        match self.speculative.get(h) {
            Some(bytes) => *bytes,
            None => 0,
        }
    }

    /// Whether a block is indexed by a height.
    fn indexed(&self, h: &Hash32) -> (r: bool)
        requires
            self.ok(),
        ensures
            r == self.model().is_indexed(*h),
    {
        let ghost rows = self.by_height.rows();
        let mut i: usize = 0;
        while i < self.by_height.len()
            invariant
                i <= rows.len(),
                rows == self.by_height.rows(),
                self.ok(),
                forall|k: int| 0 <= k < i ==> (#[trigger] rows[k]).1 != *h,
            decreases rows.len() - i,
        {
            if hash_eq(self.by_height.value_at(i), h) {
                proof {
                    lemma_row(rows, i as int);
                    assert(self.model().by_height.contains_key(rows[i as int].0));
                }
                return true;
            }
            i = i + 1;
        }
        proof {
            assert forall|n: u64| #[trigger] self.model().by_height.contains_key(
                n,
            ) implies self.model().by_height[n] != *h by {
                assert(has_key(rows, n));
                let k = row_of(rows, n);
                assert(rows[k].1 != *h);
            }
        }
        false
    }

    /// Whether a block is indexed by a height or is the committed head.
    fn canonical(&self, h: &Hash32) -> (r: bool)
        requires
            self.ok(),
        ensures
            r == self.model().is_canonical(*h),
    {
        self.indexed(h) || option_hash_eq(&self.committed, &Some(*h))
    }

    /// Whether a stored block is a protected root or an ancestor of one.
    fn protected(&self, roots: &Vec<Hash32>, h: &Hash32) -> (r: bool)
        requires
            self.ok(),
        ensures
            r == self.model().is_protected(roots@, *h),
    {
        self.blocks.contains(h) && below_any(&self.blocks, roots, h)
    }

    /// The bytes in the journal.
    fn journal_bytes(&self) -> (r: u128)
        ensures
            r == bytes_of(self.model().speculative),
            r <= self.model().speculative.len() * usize::MAX,
            self.model().speculative.len() <= usize::MAX,
    {
        let ghost rows = self.speculative.rows();
        let count: usize = self.speculative.len();
        let mut total: u128 = 0;
        let mut i: usize = 0;
        assert(rows.take(0) =~= Seq::empty());
        while i < count
            invariant
                i <= rows.len(),
                count == rows.len(),
                rows == self.speculative.rows(),
                total == bytes_of(rows.take(i as int)),
            decreases rows.len() - i,
        {
            proof {
                lemma_bytes_bound(rows.take(i as int));
                let n = i as int;
                assert(n * usize::MAX + usize::MAX <= u128::MAX) by (nonlinear_arith)
                    requires
                        0 <= n < 0xffff_ffff_ffff_ffff,
                        0 <= usize::MAX <= 0xffff_ffff_ffff_ffff,
                ;
                assert(rows.take(i + 1).drop_last() =~= rows.take(i as int));
            }
            total = total + *self.speculative.value_at(i) as u128;
            i = i + 1;
        }
        proof {
            assert(rows.take(rows.len() as int) =~= rows);
            lemma_bytes_bound(rows);
        }
        total
    }

    /// The speculative rows that are marked, with their bytes.
    fn pick(&self, marks: &Vec<bool>, p: Ghost<spec_fn(Hash32) -> bool>) -> (r: (Vec<Hash32>, u128))
        requires
            self.ok(),
            marks.len() == self.model().speculative.len(),
            forall|i: int|
                0 <= i < marks.len() ==> #[trigger] marks[i] == p@(self.model().speculative[i].0),
        ensures
            forall|h: Hash32| #[trigger]
                r.0@.contains(h) <==> self.model().is_speculative(h) && p@(h),
            r.0@.no_duplicates(),
            r.0@.len() == rows_where(self.model().speculative, p@).len(),
            r.1 == bytes_of(rows_where(self.model().speculative, p@)),
            r.0@.len() <= self.model().speculative.len(),
            r.1 <= bytes_of(self.model().speculative),
    {
        let ghost rows = self.speculative.rows();
        let mut list: Vec<Hash32> = Vec::new();
        let mut total: u128 = 0;
        let mut i: usize = 0;
        proof {
            reveal(Seq::filter);
            assert(rows_where(rows.take(0), p@) =~= Seq::empty());
        }
        while i < self.speculative.len()
            invariant
                i <= rows.len(),
                rows == self.speculative.rows(),
                rows == self.model().speculative,
                self.ok(),
                marks.len() == rows.len(),
                forall|k: int| 0 <= k < marks.len() ==> #[trigger] marks[k] == p@(rows[k].0),
                list@.no_duplicates(),
                forall|h: Hash32| #[trigger]
                    list@.contains(h) <==> has_key(rows.take(i as int), h) && p@(h),
                list@.len() == rows_where(rows.take(i as int), p@).len(),
                total == bytes_of(rows_where(rows.take(i as int), p@)),
                total <= i * usize::MAX,
            decreases rows.len() - i,
        {
            let h = self.speculative.key_at(i);
            let bytes: usize = *self.speculative.value_at(i);
            let ghost before = list@;
            let ghost part = rows_where(rows.take(i as int), p@);
            proof {
                lemma_take_key(rows, i as int);
                lemma_push_set(before, h);
                reveal(Seq::filter);
                let n = i as int;
                assert(n * usize::MAX + usize::MAX <= u128::MAX && n * usize::MAX + usize::MAX == (n
                    + 1) * usize::MAX) by (nonlinear_arith)
                    requires
                        0 <= n < 0xffff_ffff_ffff_ffff,
                        0 <= usize::MAX <= 0xffff_ffff_ffff_ffff,
                ;
                assert(marks[i as int] == p@(h));
            }
            if marks[i] {
                list.push(h);
                total = total + bytes as u128;
                proof {
                    assert(rows_where(rows.take(i + 1), p@) =~= part.push((h, bytes)));
                    assert(part.push((h, bytes)).drop_last() =~= part);
                }
            } else {
                assert(rows_where(rows.take(i + 1), p@) =~= part);
            }
            assert forall|x: Hash32| #[trigger] list@.contains(x) <==> has_key(rows.take(i + 1), x)
                && p@(x) by {
                assert(has_key(rows.take(i + 1), x) <==> has_key(rows.take(i as int), x) || x == h);
                assert(before.push(h).contains(x) <==> before.push(h).to_set().contains(x));
                assert(before.contains(x) <==> before.to_set().contains(x));
            }
            assert(!before.contains(h));
            i = i + 1;
        }
        proof {
            assert(rows.take(rows.len() as int) =~= rows);
            lemma_rows_split(rows, p@);
        }
        (list, total)
    }

    /// Marks the speculative rows of a block's branch.
    fn mark_branch(&self, root: &Hash32) -> (r: Vec<bool>)
        requires
            self.ok(),
        ensures
            r.len() == self.model().speculative.len(),
            forall|i: int|
                0 <= i < r.len() ==> #[trigger] r[i] == (self.model().branch(*root))(
                    self.model().speculative[i].0,
                ),
    {
        let mut r: Vec<bool> = Vec::new();
        let mut i: usize = 0;
        while i < self.speculative.len()
            invariant
                i <= self.speculative.rows().len(),
                self.ok(),
                r.len() == i,
                forall|k: int|
                    0 <= k < i ==> #[trigger] r[k] == (self.model().branch(*root))(
                        self.model().speculative[k].0,
                    ),
            decreases self.speculative.rows().len() - i,
        {
            let h = self.speculative.key_at(i);
            let mark = !self.canonical(&h) && reaches_ancestor(&self.blocks, h, *root);
            r.push(mark);
            i = i + 1;
        }
        r
    }

    /// Marks the speculative rows that pruning may drop.
    fn mark_droppable(&self, roots: &Vec<Hash32>) -> (r: Vec<bool>)
        requires
            self.ok(),
        ensures
            r.len() == self.model().speculative.len(),
            forall|i: int|
                0 <= i < r.len() ==> #[trigger] r[i] == self.model().is_droppable(
                    roots@,
                    self.model().speculative[i].0,
                ),
    {
        let mut r: Vec<bool> = Vec::new();
        let mut i: usize = 0;
        while i < self.speculative.len()
            invariant
                i <= self.speculative.rows().len(),
                self.ok(),
                r.len() == i,
                forall|k: int|
                    0 <= k < i ==> #[trigger] r[k] == self.model().is_droppable(
                        roots@,
                        self.model().speculative[k].0,
                    ),
            decreases self.speculative.rows().len() - i,
        {
            let h = self.speculative.key_at(i);
            proof {
                lemma_row(self.speculative.rows(), i as int);
                assert(self.model().is_speculative(h));
            }
            let mark = match self.committed {
                Some(head) => !self.canonical(&h) && !self.protected(roots, &h) && !reaches_ancestor(
                    &self.blocks,
                    h,
                    head,
                ),
                None => false,
            };
            r.push(mark);
            i = i + 1;
        }
        r
    }

    /// Marks no row.
    fn mark_none(&self) -> (r: Vec<bool>)
        requires
            self.ok(),
        ensures
            r.len() == self.model().speculative.len(),
            forall|i: int| 0 <= i < r.len() ==> !#[trigger] r[i],
    {
        let mut r: Vec<bool> = Vec::new();
        while r.len() < self.speculative.len()
            invariant
                r.len() <= self.speculative.rows().len(),
                forall|i: int| 0 <= i < r.len() ==> !#[trigger] r[i],
            decreases self.speculative.rows().len() - r.len(),
        {
            r.push(false);
        }
        r
    }

    /// Marks the droppable rows of a block's branch.
    fn mark_dead(&self, droppable: &Vec<bool>, root: &Hash32, roots: Ghost<Seq<Hash32>>) -> (r: Vec<
        bool,
    >)
        requires
            self.ok(),
            droppable.len() == self.model().speculative.len(),
            forall|i: int|
                0 <= i < droppable.len() ==> #[trigger] droppable[i] == self.model().is_droppable(
                    roots@,
                    self.model().speculative[i].0,
                ),
        ensures
            r.len() == self.model().speculative.len(),
            forall|i: int|
                0 <= i < r.len() ==> #[trigger] r[i] == (self.model().dead_branch(roots@, *root))(
                    self.model().speculative[i].0,
                ),
    {
        let mut r: Vec<bool> = Vec::new();
        let mut i: usize = 0;
        while i < self.speculative.len()
            invariant
                i <= self.speculative.rows().len(),
                self.ok(),
                r.len() == i,
                droppable.len() == self.model().speculative.len(),
                forall|k: int|
                    0 <= k < droppable.len() ==> #[trigger] droppable[k]
                        == self.model().is_droppable(roots@, self.model().speculative[k].0),
                forall|k: int|
                    0 <= k < i ==> #[trigger] r[k] == (self.model().dead_branch(roots@, *root))(
                        self.model().speculative[k].0,
                    ),
            decreases self.speculative.rows().len() - i,
        {
            let h = self.speculative.key_at(i);
            let mark = droppable[i] && reaches_ancestor(&self.blocks, h, *root);
            r.push(mark);
            i = i + 1;
        }
        r
    }

    /// Whether one more row fits once some rows are dropped.
    fn room(
        &self,
        dropped: usize,
        dropped_bytes: u128,
        bytes: usize,
        max_blocks: usize,
        max_bytes: usize,
        gone: Ghost<spec_fn(Hash32) -> bool>,
    ) -> (r: bool)
        requires
            self.ok(),
            dropped == rows_where(self.model().speculative, gone@).len(),
            dropped_bytes == bytes_of(rows_where(self.model().speculative, gone@)),
            dropped <= self.model().speculative.len(),
            dropped_bytes <= bytes_of(self.model().speculative),
        ensures
            r == self.model().fits(gone@, bytes, max_blocks, max_bytes),
    {
        let total = self.journal_bytes();
        let count: usize = self.speculative.len();
        proof {
            let n = count as int;
            assert(n * usize::MAX + usize::MAX <= u128::MAX) by (nonlinear_arith)
                requires
                    0 <= n <= usize::MAX <= 0xffff_ffff_ffff_ffff,
            ;
        }
        count - dropped < max_blocks && total - dropped_bytes + bytes as u128 <= max_bytes as u128
    }

    /// The preferred victim whose branch makes room for a block, with that
    /// branch.
    fn find_victim(
        &self,
        block: &Block,
        roots: &Vec<Hash32>,
        bytes: usize,
        max_blocks: usize,
        max_bytes: usize,
    ) -> (r: Option<(Hash32, Vec<Hash32>)>)
        requires
            self.ok(),
        ensures
            match r {
                Some((v, list)) => {
                    &&& self.model().is_victim(block@, roots@, bytes, max_blocks, max_bytes, v)
                    &&& forall|h: Hash32| #[trigger]
                        self.model().is_victim(block@, roots@, bytes, max_blocks, max_bytes, h) ==> h
                            == v || self.model().preferred(v, h)
                    &&& forall|h: Hash32| #[trigger]
                        list@.contains(h) <==> self.model().is_speculative(h) && (
                        self.model().branch(v))(h)
                },
                None => forall|h: Hash32|
                    !#[trigger] self.model().is_victim(
                        block@,
                        roots@,
                        bytes,
                        max_blocks,
                        max_bytes,
                        h,
                    ),
            },
    {
        let ghost m = self.model();
        let ghost rows = self.speculative.rows();
        let mut best: Option<(Hash32, Vec<Hash32>)> = None;
        let mut best_view: u64 = 0;
        let mut i: usize = 0;
        while i < self.speculative.len()
            invariant
                i <= rows.len(),
                rows == self.speculative.rows(),
                m == self.model(),
                self.ok(),
                best matches Some((v, list)) ==> {
                    &&& m.is_victim(block@, roots@, bytes, max_blocks, max_bytes, v)
                    &&& m.blocks[v].view == best_view
                    &&& has_key(rows.take(i as int), v)
                    &&& forall|h: Hash32| #[trigger]
                        list@.contains(h) <==> m.is_speculative(h) && (m.branch(v))(h)
                },
                forall|h: Hash32| #[trigger]
                    m.is_victim(block@, roots@, bytes, max_blocks, max_bytes, h) && has_key(
                        rows.take(i as int),
                        h,
                    ) ==> best is Some && (h == best->Some_0.0 || m.preferred(best->Some_0.0, h)),
            decreases rows.len() - i,
        {
            let h = self.speculative.key_at(i);
            proof {
                lemma_row(rows, i as int);
                lemma_take_key(rows, i as int);
                assert(m.is_speculative(h));
                assert(self.speculative.map().contains_key(h));
            }
            let ghost best_before = best;
            let mut victim: Option<(u64, Vec<Hash32>)> = None;
            if let Some(b) = self.blocks.get(&h) {
                if block.justify.is_some() && hash_eq(&b.parent, &block.parent) && b.view < block.view
                    && !self.canonical(&h) && !self.protected(roots, &h) {
                    let marks = self.mark_branch(&h);
                    let (list, size) = self.pick(&marks, Ghost(m.branch(h)));
                    let clean = !self.any_protected(roots, &list);
                    proof {
                        if clean {
                            assert forall|x: Hash32| #[trigger]
                                m.is_speculative(x) && (m.branch(h))(x) implies !m.is_protected(
                                roots@,
                                x,
                            ) by {
                                assert(list@.contains(x));
                                let k = choose|k: int| 0 <= k < list@.len() && list@[k] == x;
                                assert(!m.is_protected(roots@, list@[k]));
                            }
                        } else {
                            let k = choose|k: int|
                                0 <= k < list.len() && m.is_protected(roots@, #[trigger] list@[k]);
                            assert(list@.contains(list@[k]));
                            assert(m.is_speculative(list@[k]) && (m.branch(h))(list@[k]));
                        }
                    }
                    if clean && self.room(
                        list.len(),
                        size,
                        bytes,
                        max_blocks,
                        max_bytes,
                        Ghost(m.branch(h)),
                    ) {
                        victim = Some((b.view, list));
                    }
                }
            }
            proof {
                assert(victim is Some <==> m.is_victim(
                    block@,
                    roots@,
                    bytes,
                    max_blocks,
                    max_bytes,
                    h,
                ));
            }
            if let Some((view, list)) = victim {
                let better = match &best {
                    Some(old_best) => view > best_view || (view == best_view && hash_less(
                        &h,
                        &old_best.0,
                    )),
                    None => true,
                };
                proof {
                    assert(m.blocks[h].view == view);
                    if best is Some {
                        let v = best->Some_0.0;
                        lemma_hash_order_total(h, v);
                        assert(h != v);
                        assert(better == m.preferred(h, v));
                        assert(better || m.preferred(v, h));
                    }
                }
                if better {
                    best = Some((h, list));
                    best_view = view;
                }
            }
            proof {
                assert forall|x: Hash32| #[trigger]
                    m.is_victim(block@, roots@, bytes, max_blocks, max_bytes, x) && has_key(
                        rows.take(i + 1),
                        x,
                    ) implies best is Some && (x == best->Some_0.0 || m.preferred(
                    best->Some_0.0,
                    x,
                )) by {
                    if x != h {
                        assert(has_key(rows.take(i as int), x));
                        let v = best_before->Some_0.0;
                        if best->Some_0.0 != v && x != v {
                            lemma_preferred_transitive(m, h, v, x);
                        }
                    }
                }
            }
            i = i + 1;
        }
        proof {
            assert(rows.take(rows.len() as int) =~= rows);
        }
        match best {
            Some((v, list)) => Some((v, list)),
            None => None,
        }
    }

    /// Whether a list holds a protected block.
    fn any_protected(&self, roots: &Vec<Hash32>, list: &Vec<Hash32>) -> (r: bool)
        requires
            self.ok(),
        ensures
            r == (exists|i: int|
                0 <= i < list.len() && self.model().is_protected(roots@, #[trigger] list@[i])),
    {
        let mut i: usize = 0;
        while i < list.len()
            invariant
                i <= list.len(),
                self.ok(),
                forall|k: int|
                    0 <= k < i ==> !self.model().is_protected(roots@, #[trigger] list@[k]),
            decreases list.len() - i,
        {
            if self.protected(roots, &list[i]) {
                assert(self.model().is_protected(roots@, list@[i as int]));
                return true;
            }
            i = i + 1;
        }
        false
    }

    /// Drops the listed speculative blocks.
    fn drop_rows(&mut self, list: &Vec<Hash32>, gone: Ghost<spec_fn(Hash32) -> bool>)
        requires
            old(self).ok(),
            forall|h: Hash32| #[trigger]
                list@.contains(h) <==> old(self).model().is_speculative(h) && gone@(h),
        ensures
            final(self).ok(),
            final(self).model() == old(self).model().dropping(gone@),
    {
        let ghost m = self.model();
        let ghost bm = self.blocks.map();
        let ghost rows = self.speculative.rows();
        self.blocks.remove_all(list);
        self.speculative.remove_all(list);
        proof {
            assert(block_map(self.blocks.map()) =~= m.dropping(gone@).blocks);
            assert forall|i: int| 0 <= i < rows.len() implies (|k: Hash32| !list@.contains(k))(
                (#[trigger] rows[i]).0,
            ) == (|h: Hash32| !gone@(h))(rows[i].0) by {
                assert(m.is_speculative(rows[i].0));
            }
            lemma_rows_agree(
                rows,
                |k: Hash32| !list@.contains(k),
                |h: Hash32| !gone@(h),
            );
        }
    }

    /// Adds a block to the journal.
    fn add_row(&mut self, block: &Block, hash: Hash32, bytes: usize)
        requires
            old(self).ok(),
            hash == block_hash(block@),
            !old(self).model().blocks.contains_key(hash),
        ensures
            final(self).ok(),
            final(self).model() == old(self).model().admitted(block@, bytes),
    {
        let ghost bm = self.blocks.map();
        let copy = block.clone();
        proof {
            if has_key(self.speculative.rows(), hash) {
                assert(self.speculative.map().contains_key(hash));
            }
        }
        self.blocks.put(hash, copy);
        self.speculative.push_new(hash, bytes);
        assert(block_map(self.blocks.map()) =~= block_map(bm).insert(hash, block@));
    }
}

proof fn lemma_preferred_transitive(m: StoreView, a: Hash32, b: Hash32, c: Hash32)
    requires
        m.preferred(a, b),
        m.preferred(b, c),
    ensures
        m.preferred(a, c),
{
    if m.blocks[a].view == m.blocks[b].view && m.blocks[b].view == m.blocks[c].view {
        lemma_hash_order_transitive(a, b, c);
    }
}

impl BlockStore for MemoryBlockStore {
    open spec fn contents(&self) -> StoreView {
        self.model()
    }

    open spec fn wf(&self) -> bool {
        self.ok()
    }

    proof fn lemma_finite(&self) {
        crate::table::lemma_rows_len(self.blocks.rows());
        assert(block_map(self.blocks.map()).dom() =~= self.blocks.map().dom());
    }

    fn save(&mut self, block: &Block) {
        let hash = block.hash();
        let ghost bm = self.blocks.map();
        let copy = block.clone();
        self.blocks.put(hash, copy);
        self.by_height.put(block.height, hash);
        let _removed = self.speculative.remove(&hash);
        assert(block_map(self.blocks.map()) =~= block_map(bm).insert(hash, block@));
    }

    /// The first block of a hash is kept: a block that is already speculative
    /// or indexed is not stored again.
    fn save_speculative(&mut self, block: &Block, block_bytes: usize) -> (r: Result<(), StoreError>)
        ensures
            ({
                let s = old(self).model();
                let h = block_hash(block@);
                match s.capacity_fault(
                    h,
                    block_bytes,
                    MAX_SPECULATIVE_STORE_BLOCKS,
                    MAX_SPECULATIVE_STORE_BYTES,
                ) {
                    Some(e) => r == Err::<(), StoreError>(e) && final(self).model() == s,
                    None => r is Ok && final(self).model() == (if s.blocks.contains_key(h) {
                        s
                    } else {
                        s.admitted(block@, block_bytes)
                    }),
                }
            }),
    {
        let hash = block.hash();
        proof {
            if self.model().is_speculative(hash) {
                assert(self.speculative.map().contains_key(hash));
            }
        }
        if let Err(e) = self.ensure_speculative_capacity(
            block,
            block_bytes,
            MAX_SPECULATIVE_STORE_BLOCKS,
            MAX_SPECULATIVE_STORE_BYTES,
        ) {
            return Err(e);
        }
        if self.blocks.contains(&hash) {
            return Ok(());
        }
        self.add_row(block, hash, block_bytes);
        Ok(())
    }

    fn ensure_speculative_capacity(
        &self,
        block: &Block,
        block_bytes: usize,
        max_blocks: usize,
        max_bytes: usize,
    ) -> (r: Result<(), StoreError>)
        ensures
            match self.model().capacity_fault(
                block_hash(block@),
                block_bytes,
                max_blocks,
                max_bytes,
            ) {
                Some(e) => r == Err::<(), StoreError>(e),
                None => r is Ok,
            },
    {
        let hash = block.hash();
        if self.speculative.contains(&hash) {
            return Ok(());
        }
        if self.blocks.contains(&hash) {
            if self.indexed(&hash) {
                return Ok(());
            }
            return Err(StoreError::NoCanonicalIndex(hash));
        }
        if block_bytes > MAX_SPECULATIVE_BLOCK_BYTES {
            return Err(
                StoreError::RowTooLarge { bytes: block_bytes, limit: MAX_SPECULATIVE_BLOCK_BYTES },
            );
        }
        let total = self.journal_bytes();
        let count: usize = self.speculative.len();
        proof {
            let n = count as int;
            assert(n * usize::MAX + usize::MAX <= u128::MAX) by (nonlinear_arith)
                requires
                    0 <= n <= usize::MAX <= 0xffff_ffff_ffff_ffff,
            ;
        }
        if count >= max_blocks || total + block_bytes as u128 > max_bytes as u128 {
            return Err(StoreError::CapacityExceeded { max_blocks, max_bytes });
        }
        Ok(())
    }

    /// If the journal is full, the preferred victim's branch is dropped with
    /// the same step that adds the block. A failure changes nothing.
    fn admit_speculative_with_rolling_victim(
        &mut self,
        block: &Block,
        block_bytes: usize,
        protected_roots: &Vec<Hash32>,
        max_blocks: usize,
        max_bytes: usize,
    ) -> (r: Result<(), StoreError>)
        ensures
            admission(
                old(self).model(),
                final(self).model(),
                r,
                block@,
                block_bytes,
                protected_roots@,
                max_blocks,
                max_bytes,
            ),
    {
        let hash = block.hash();
        let ghost m = self.model();
        let ghost nothing = |h: Hash32| false;
        if self.blocks.contains(&hash) {
            if self.speculative.contains(&hash) || self.canonical(&hash) {
                return Ok(());
            }
            return Err(StoreError::NoCanonicalIndex(hash));
        }
        if block_bytes > MAX_SPECULATIVE_BLOCK_BYTES {
            return Err(
                StoreError::RowTooLarge { bytes: block_bytes, limit: MAX_SPECULATIVE_BLOCK_BYTES },
            );
        }
        proof {
            lemma_rows_none(m.speculative);
        }
        if self.room(0, 0, block_bytes, max_blocks, max_bytes, Ghost(no_rows())) {
            self.add_row(block, hash, block_bytes);
            return Ok(());
        }
        match self.find_victim(block, protected_roots, block_bytes, max_blocks, max_bytes) {
            Some((victim, list)) => {
                self.drop_rows(&list, Ghost(m.branch(victim)));
                self.add_row(block, hash, block_bytes);
                proof {
                    assert(is_choice(
                        m,
                        block@,
                        protected_roots@,
                        block_bytes,
                        max_blocks,
                        max_bytes,
                        victim,
                    ));
                }
                Ok(())
            },
            None => Err(StoreError::ProtectedBranches { max_blocks, max_bytes }),
        }
    }

    /// Branches are dropped from the lowest height up. A failure changes
    /// nothing.
    fn prune_speculative(
        &mut self,
        protected_roots: &Vec<Hash32>,
        max_blocks: usize,
        max_bytes: usize,
    ) -> (r: Result<(), StoreError>)
        ensures
            exists|order: Seq<Hash32>|
                {
                    &&& #[trigger] old(self).model().is_pruning_order(protected_roots@, order)
                    &&& match old(self).model().pruned(
                        protected_roots@,
                        order,
                        max_blocks,
                        max_bytes,
                    ) {
                        Ok(s) => r is Ok && final(self).model() == s,
                        Err(e) => r == Err::<(), StoreError>(e) && final(self).model() == old(self).model(),
                    }
                },
    {
        let ghost m = self.model();
        let ghost roots = protected_roots@;
        let total = self.journal_bytes();
        let count: usize = self.speculative.len();
        let within = count <= max_blocks && total <= max_bytes as u128;
        let droppable = self.mark_droppable(protected_roots);
        let order = self.pruning_order(protected_roots, &droppable);
        let mut gone = self.mark_none();
        let mut removed: Vec<Hash32> = Vec::new();
        let mut left: usize = count;
        let mut left_bytes: u128 = total;
        let mut i: usize = 0;
        proof {
            lemma_left_rows(m, roots, order@, 0);
            lemma_rows_nowhere(m.speculative, m.in_branches(roots, order@, 0));
        }
        while i < order.len() && (within || left > max_blocks || left_bytes > max_bytes as u128)
            invariant
                i <= order.len(),
                self.ok(),
                m == self.model(),
                *self == *old(self),
                roots == protected_roots@,
                count == m.speculative.len(),
                total == bytes_of(m.speculative),
                within == m.within(max_blocks, max_bytes),
                m.is_pruning_order(roots, order@),
                droppable.len() == m.speculative.len(),
                forall|k: int|
                    0 <= k < droppable.len() ==> #[trigger] droppable[k] == m.is_droppable(
                        roots,
                        m.speculative[k].0,
                    ),
                gone.len() == m.speculative.len(),
                forall|k: int|
                    0 <= k < gone.len() ==> #[trigger] gone[k] == (m.in_branches(
                        roots,
                        order@,
                        i as int,
                    ))(m.speculative[k].0),
                left == m.left_rows(roots, order@, i as int).len(),
                left_bytes == bytes_of(m.left_rows(roots, order@, i as int)),
                m.pruned_count(roots, order@, max_blocks, max_bytes, 0) == m.pruned_count(
                    roots,
                    order@,
                    max_blocks,
                    max_bytes,
                    i as int,
                ),
                forall|h: Hash32| #[trigger]
                    removed@.contains(h) <==> m.is_speculative(h) && (m.in_branches(
                        roots,
                        order@,
                        i as int,
                    ))(h),
            decreases order.len() - i,
        {
            let root = order[i];
            let marks = self.mark_dead(&droppable, &root, Ghost(roots));
            let ghost before = gone@;
            gone = either(&gone, &marks);
            proof {
                assert forall|k: int| 0 <= k < gone.len() implies #[trigger] gone[k] == (m.in_branches(
                    roots,
                    order@,
                    i + 1,
                ))(m.speculative[k].0) by {
                    lemma_one_more_branch(m, roots, order@, i as int, m.speculative[k].0);
                    assert(gone[k] == (before[k] || marks[k]));
                }
                lemma_left_rows(m, roots, order@, i + 1);
            }
            let (list, size) = self.pick(&gone, Ghost(m.in_branches(roots, order@, i + 1)));
            removed = list;
            left = count - removed.len();
            left_bytes = total - size;
            i = i + 1;
        }
        if left > max_blocks || left_bytes > max_bytes as u128 {
            return Err(StoreError::ProtectedBranches { max_blocks, max_bytes });
        }
        self.drop_rows(&removed, Ghost(m.in_branches(roots, order@, i as int)));
        Ok(())
    }

    /// Without a committed head nothing is dropped.
    fn prune_production_cache(&mut self, protected_roots: &Vec<Hash32>) -> (r: Result<(), StoreError>)
        ensures
            r is Ok,
            final(self).model() == (if old(self).model().committed is None {
                old(self).model()
            } else {
                old(self).model().cache_pruned(protected_roots@)
            }),
    {
        let head = match self.committed {
            Some(h) => h,
            None => {
                return Ok(());
            },
        };
        let ghost m = self.model();
        let ghost roots = protected_roots@;
        let head_height: Option<u64> = match self.blocks.get(&head) {
            Some(b) => Some(b.height),
            None => None,
        };
        let ghost rows = self.blocks.rows();
        let mut keep: Vec<Hash32> = Vec::new();
        let mut i: usize = 0;
        while i < self.blocks.len()
            invariant
                i <= rows.len(),
                rows == self.blocks.rows(),
                self.ok(),
                m == self.model(),
                *self == *old(self),
                roots == protected_roots@,
                m.committed == Some(head),
                head_height == (match m.head() {
                    Some(b) => Some(b.height),
                    None => None,
                }),
                forall|h: Hash32| #[trigger]
                    keep@.contains(h) <==> has_key(rows.take(i as int), h) && m.cache_keeps(roots, h),
            decreases rows.len() - i,
        {
            let h = self.blocks.key_at(i);
            let height: u64 = self.blocks.value_at(i).height;
            let above = match head_height {
                Some(n) => height > n,
                None => true,
            };
            let stays = hash_eq(&h, &head) || (above && below_any(&self.blocks, protected_roots, &h));
            let ghost before = keep@;
            proof {
                lemma_row(rows, i as int);
                lemma_take_key(rows, i as int);
                lemma_push_set(before, h);
                assert(m.blocks.contains_key(h) && m.blocks[h].height == height);
                assert(stays == m.cache_keeps(roots, h));
            }
            if stays {
                keep.push(h);
            }
            assert forall|x: Hash32| #[trigger] keep@.contains(x) <==> has_key(rows.take(i + 1), x)
                && m.cache_keeps(roots, x) by {
                assert(has_key(rows.take(i + 1), x) <==> has_key(rows.take(i as int), x) || x == h);
                assert(before.push(h).contains(x) <==> before.push(h).to_set().contains(x));
                assert(before.contains(x) <==> before.to_set().contains(x));
            }
            i = i + 1;
        }
        assert(rows.take(rows.len() as int) =~= rows);
        let ghost srows = self.speculative.rows();
        let ghost bh = self.by_height.map();
        self.blocks.keep_only(&keep);
        self.speculative.keep_only(&keep);
        let mut index: Table<u64, Hash32> = Table::new();
        if let Some(n) = head_height {
            if let Some(h) = self.by_height.get(&n) {
                if hash_eq(h, &head) {
                    index.put(n, head);
                }
            }
        }
        self.by_height = index;
        proof {
            let p = |h: Hash32| m.cache_keeps(roots, h);
            assert forall|h: Hash32| keep@.contains(h) <==> p(h) by {
                if p(h) {
                    assert(has_key(rows, h));
                }
            }
            assert(block_map(self.blocks.map()) =~= m.cache_pruned(roots).blocks);
            assert forall|k: int| 0 <= k < srows.len() implies (|h: Hash32| keep@.contains(h))(
                (#[trigger] srows[k]).0,
            ) == p(srows[k].0) by {}
            lemma_rows_agree(srows, |h: Hash32| keep@.contains(h), p);
            assert(self.by_height.map() =~= m.cache_pruned(roots).by_height);
        }
        Ok(())
    }

    fn get(&self, hash: &Hash32) -> (r: Option<Block>) {
        match self.blocks.get(hash) {
            Some(b) => Some(b.clone()),
            None => None,
        }
    }

    fn get_by_height(&self, height: u64) -> (r: Option<Block>) {
        match self.by_height.get(&height) {
            Some(h) => self.get(h),
            None => None,
        }
    }

    fn set_committed(&mut self, hash: &Hash32) {
        self.committed = Some(*hash);
        let _removed = self.speculative.remove(hash);
        let height: Option<u64> = match self.blocks.get(hash) {
            Some(b) => Some(b.height),
            None => None,
        };
        if let Some(n) = height {
            self.by_height.put(n, *hash);
        }
    }

    fn get_committed_head(&self) -> (r: Option<Block>) {
        match &self.committed {
            Some(h) => self.get(h),
            None => None,
        }
    }
}

/// No row.
pub open spec fn no_rows() -> spec_fn(Hash32) -> bool {
    |h: Hash32| false
}

proof fn lemma_rows_none(rows: Seq<(Hash32, usize)>)
    ensures
        rows_where(rows, no_rows()) == Seq::<(Hash32, usize)>::empty(),
        bytes_of(Seq::<(Hash32, usize)>::empty()) == 0,
    decreases rows.len(),
{
    reveal(Seq::filter);
    if rows.len() > 0 {
        lemma_rows_none(rows.drop_last());
    } else {
        assert(rows_where(rows, no_rows()) =~= Seq::<(Hash32, usize)>::empty());
    }
}

/// The victim is the preferred one among those that make room.
pub open spec fn is_choice(
    s: StoreView,
    b: BlockView,
    roots: Seq<Hash32>,
    bytes: usize,
    max_blocks: usize,
    max_bytes: usize,
    v: Hash32,
) -> bool {
    &&& s.is_victim(b, roots, bytes, max_blocks, max_bytes, v)
    &&& forall|h: Hash32| #[trigger]
        s.is_victim(b, roots, bytes, max_blocks, max_bytes, h) ==> h == v || s.preferred(v, h)
}

/// What admission of a speculative block does: a known block is kept as it
/// is; a new one is added, after the preferred victim's branch was dropped if
/// the journal is full; a refused one changes nothing.
pub open spec fn admission(
    before: StoreView,
    after: StoreView,
    r: Result<(), StoreError>,
    b: BlockView,
    bytes: usize,
    roots: Seq<Hash32>,
    max_blocks: usize,
    max_bytes: usize,
) -> bool {
    let h = block_hash(b);
    if before.blocks.contains_key(h) {
        &&& after == before
        &&& r == (if before.is_speculative(h) || before.is_canonical(h) {
            Ok::<(), StoreError>(())
        } else {
            Err(StoreError::NoCanonicalIndex(h))
        })
    } else if bytes > MAX_SPECULATIVE_BLOCK_BYTES {
        &&& after == before
        &&& r == Err::<(), StoreError>(
            StoreError::RowTooLarge { bytes, limit: MAX_SPECULATIVE_BLOCK_BYTES },
        )
    } else if before.fits(no_rows(), bytes, max_blocks, max_bytes) {
        r is Ok && after == before.admitted(b, bytes)
    } else if exists|v: Hash32| before.is_victim(b, roots, bytes, max_blocks, max_bytes, v) {
        &&& r is Ok
        &&& exists|v: Hash32| #[trigger]
            is_choice(before, b, roots, bytes, max_blocks, max_bytes, v) && after == before.dropping(
                before.branch(v),
            ).admitted(b, bytes)
    } else {
        &&& after == before
        &&& r == Err::<(), StoreError>(StoreError::ProtectedBranches { max_blocks, max_bytes })
    }
}

impl MemoryBlockStore {
    /// The droppable blocks from the lowest height up.
    fn pruning_order(&self, roots: &Vec<Hash32>, droppable: &Vec<bool>) -> (r: Vec<Hash32>)
        requires
            self.ok(),
            droppable.len() == self.model().speculative.len(),
            forall|i: int|
                0 <= i < droppable.len() ==> #[trigger] droppable[i] == self.model().is_droppable(
                    roots@,
                    self.model().speculative[i].0,
                ),
        ensures
            self.model().is_pruning_order(roots@, r@),
    {
        let ghost m = self.model();
        let ghost rows = self.speculative.rows();
        let ghost p = |h: Hash32| m.is_droppable(roots@, h);
        let mut items: Vec<(u64, Hash32)> = Vec::new();
        let mut i: usize = 0;
        while i < self.speculative.len()
            invariant
                i <= rows.len(),
                rows == self.speculative.rows(),
                rows == m.speculative,
                m == self.model(),
                self.ok(),
                droppable.len() == rows.len(),
                forall|k: int|
                    0 <= k < droppable.len() ==> #[trigger] droppable[k] == m.is_droppable(
                        roots@,
                        rows[k].0,
                    ),
                items@.no_duplicates(),
                forall|x: (u64, Hash32)| #[trigger]
                    items@.contains(x) <==> has_key(rows.take(i as int), x.1) && m.is_droppable(
                        roots@,
                        x.1,
                    ) && x.0 == m.blocks[x.1].height,
            decreases rows.len() - i,
        {
            let h = self.speculative.key_at(i);
            let ghost before = items@;
            proof {
                lemma_row(rows, i as int);
                lemma_take_key(rows, i as int);
                assert(self.speculative.map().contains_key(h));
                assert(droppable[i as int] == m.is_droppable(roots@, rows[i as int].0));
            }
            if droppable[i] {
                if let Some(b) = self.blocks.get(&h) {
                    let item = (b.height, h);
                    assert(!before.contains(item));
                    items.push(item);
                    proof {
                        lemma_push_set(before, item);
                    }
                }
            }
            assert forall|x: (u64, Hash32)| #[trigger] items@.contains(x) <==> has_key(
                rows.take(i + 1),
                x.1,
            ) && m.is_droppable(roots@, x.1) && x.0 == m.blocks[x.1].height by {
                assert(has_key(rows.take(i + 1), x.1) <==> has_key(rows.take(i as int), x.1) || x.1
                    == h);
                assert(items@.contains(x) <==> items@.to_set().contains(x));
                assert(before.contains(x) <==> before.to_set().contains(x));
            }
            i = i + 1;
        }
        assert(rows.take(rows.len() as int) =~= rows);
        let sorted = sort_ranked(&items);
        let mut r: Vec<Hash32> = Vec::new();
        let mut j: usize = 0;
        while j < sorted.len()
            invariant
                j <= sorted.len(),
                r.len() == j,
                forall|k: int| 0 <= k < j ==> #[trigger] r@[k] == sorted@[k].1,
            decreases sorted.len() - j,
        {
            r.push(sorted[j].1);
            j = j + 1;
        }
        proof {
            assert forall|k: int| 0 <= k < sorted@.len() implies (#[trigger] sorted@[k]).0
                == m.blocks[sorted@[k].1].height && m.is_droppable(roots@, sorted@[k].1) by {
                assert(sorted@.contains(sorted@[k]));
            }
            assert forall|a: int, b: int| 0 <= a < b < r@.len() implies lower_first(
                m.blocks,
                #[trigger] r@[a],
                #[trigger] r@[b],
            ) by {
                assert(rank_before(sorted@[a], sorted@[b]));
            }
            assert forall|a: int, b: int| 0 <= a < r@.len() && 0 <= b < r@.len() && a != b implies r@[a]
                != r@[b] by {
                if a < b {
                    assert(rank_before(sorted@[a], sorted@[b]));
                    lemma_hash_order_total(r@[a], r@[b]);
                } else {
                    assert(rank_before(sorted@[b], sorted@[a]));
                    lemma_hash_order_total(r@[b], r@[a]);
                }
            }
            assert forall|h: Hash32| #[trigger] r@.contains(h) <==> m.is_droppable(roots@, h) by {
                if r@.contains(h) {
                    let k = choose|k: int| 0 <= k < r@.len() && r@[k] == h;
                    assert(sorted@.contains(sorted@[k]));
                }
                if m.is_droppable(roots@, h) {
                    let x = (m.blocks[h].height, h);
                    assert(items@.contains(x));
                    assert(sorted@.contains(x));
                    let k = choose|k: int| 0 <= k < sorted@.len() && sorted@[k] == x;
                    assert(r@[k] == h);
                }
            }
        }
        r
    }
}

impl Default for MemoryBlockStore {
    fn default() -> (r: Self)
        ensures
            r.ok(),
            r.model() == empty_store(),
    {
        MemoryBlockStore::new()
    }
}

/// The droppable blocks can always be put in order.
pub proof fn lemma_order_exists(s: StoreView, roots: Seq<Hash32>) -> (order: Seq<Hash32>)
    ensures
        s.is_pruning_order(roots, order),
{
    let n = s.speculative.len() as int;
    let order = lemma_order_prefix(s, roots, n);
    assert(s.speculative.take(n) =~= s.speculative);
    order
}

/// Hashes from the lowest height up, by hash at one height, without
/// repetition.
spec fn in_order(blocks: Map<Hash32, BlockView>, order: Seq<Hash32>) -> bool {
    forall|i: int, j: int|
        0 <= i < j < order.len() ==> lower_first(blocks, #[trigger] order[i], #[trigger] order[j])
}

proof fn lemma_order_prefix(s: StoreView, roots: Seq<Hash32>, n: int) -> (order: Seq<Hash32>)
    requires
        0 <= n <= s.speculative.len(),
    ensures
        in_order(s.blocks, order),
        order.no_duplicates(),
        forall|h: Hash32| #[trigger]
            order.contains(h) <==> has_key(s.speculative.take(n), h) && s.is_droppable(roots, h),
    decreases n,
{
    if n == 0 {
        Seq::empty()
    } else {
        let front = lemma_order_prefix(s, roots, n - 1);
        let h = s.speculative[n - 1].0;
        assert forall|x: Hash32| has_key(s.speculative.take(n), x) <==> #[trigger] has_key(
            s.speculative.take(n - 1),
            x,
        ) || x == h by {
            if has_key(s.speculative.take(n), x) {
                let j = row_of(s.speculative.take(n), x);
                if j < n - 1 {
                    assert(s.speculative.take(n - 1)[j].0 == x);
                }
            }
            if has_key(s.speculative.take(n - 1), x) {
                let j = row_of(s.speculative.take(n - 1), x);
                assert(s.speculative.take(n)[j].0 == x);
            }
            assert(s.speculative.take(n)[n - 1].0 == h);
        }
        if s.is_droppable(roots, h) && !front.contains(h) {
            lemma_order_insert(s.blocks, front, h, front.len() as int)
        } else {
            front
        }
    }
}

proof fn lemma_order_insert(
    blocks: Map<Hash32, BlockView>,
    order: Seq<Hash32>,
    h: Hash32,
    at: int,
) -> (r: Seq<Hash32>)
    requires
        in_order(blocks, order),
        order.no_duplicates(),
        !order.contains(h),
        0 <= at <= order.len(),
        forall|k: int| at <= k < order.len() ==> lower_first(blocks, h, #[trigger] order[k]),
    ensures
        in_order(blocks, r),
        r.no_duplicates(),
        forall|x: Hash32| #[trigger] r.contains(x) <==> order.contains(x) || x == h,
    decreases at,
{
    if at > 0 && lower_first(blocks, h, order[at - 1]) {
        lemma_order_insert(blocks, order, h, at - 1)
    } else {
        let r = order.insert(at, h);
        assert forall|k: int| 0 <= k < at implies lower_first(blocks, #[trigger] order[k], h) by {
            assert(order.contains(order[at - 1]));
            lemma_hash_order_total(h, order[at - 1]);
            if k < at - 1 {
                assert(lower_first(blocks, order[k], order[at - 1]));
                if blocks[order[k]].height == blocks[order[at - 1]].height
                    && blocks[order[at - 1]].height == blocks[h].height {
                    lemma_hash_order_transitive(order[k], order[at - 1], h);
                }
            }
        }
        assert forall|i: int, j: int| 0 <= i < j < r.len() implies lower_first(
            blocks,
            #[trigger] r[i],
            #[trigger] r[j],
        ) by {
            let i2 = if i < at { i } else { i - 1 };
            let j2 = if j < at { j } else { j - 1 };
            if i != at {
                assert(r[i] == order[i2]);
            }
            if j != at {
                assert(r[j] == order[j2]);
            }
        }
        assert forall|x: Hash32| #[trigger] r.contains(x) <==> order.contains(x) || x == h by {
            if r.contains(x) {
                let k = choose|k: int| 0 <= k < r.len() && r[k] == x;
                if k < at {
                    assert(order[k] == x);
                } else if k > at {
                    assert(order[k - 1] == x);
                }
            }
            if order.contains(x) {
                let k = choose|k: int| 0 <= k < order.len() && order[k] == x;
                if k < at {
                    assert(r[k] == x);
                } else {
                    assert(r[k + 1] == x);
                }
            }
            assert(r[at] == h);
        }
        assert forall|i: int, j: int| 0 <= i < r.len() && 0 <= j < r.len()
            && i != j implies r[i] != r[j] by {
            let i2 = if i < at { i } else { i - 1 };
            let j2 = if j < at { j } else { j - 1 };
            if i != at {
                assert(r[i] == order[i2]);
                assert(order.contains(order[i2]));
            }
            if j != at {
                assert(r[j] == order[j2]);
                assert(order.contains(order[j2]));
            }
        }
        r
    }
}

/// A block that is admitted keeps the journal within its limits.
pub proof fn lemma_admission_within_limits(
    before: StoreView,
    after: StoreView,
    b: BlockView,
    bytes: usize,
    roots: Seq<Hash32>,
    max_blocks: usize,
    max_bytes: usize,
)
    requires
        admission(before, after, Ok(()), b, bytes, roots, max_blocks, max_bytes),
        !before.blocks.contains_key(block_hash(b)),
    ensures
        after.within(max_blocks, max_bytes),
{
    lemma_rows_none(before.speculative);
    let h = block_hash(b);
    if before.fits(no_rows(), bytes, max_blocks, max_bytes) {
        assert(after.speculative.drop_last() =~= before.speculative);
    } else {
        let v = choose|v: Hash32| #[trigger]
            is_choice(before, b, roots, bytes, max_blocks, max_bytes, v) && after == before.dropping(
                before.branch(v),
            ).admitted(b, bytes);
        lemma_rows_split(before.speculative, before.branch(v));
        let kept = rows_where(before.speculative, |x: Hash32| !(before.branch(v))(x));
        assert(after.speculative == kept.push((h, bytes)));
        assert(after.speculative.drop_last() =~= kept);
    }
}

/// Admission never removes a canonical block, a protected root or one of its
/// ancestors, and never changes the index by height or the committed head.
pub proof fn lemma_admission_keeps_protected(
    before: StoreView,
    after: StoreView,
    r: Result<(), StoreError>,
    b: BlockView,
    bytes: usize,
    roots: Seq<Hash32>,
    max_blocks: usize,
    max_bytes: usize,
    h: Hash32,
)
    requires
        admission(before, after, r, b, bytes, roots, max_blocks, max_bytes),
        before.blocks.contains_key(h),
        before.is_canonical(h) || before.is_protected(roots, h) || !before.is_speculative(h),
    ensures
        after.blocks.contains_key(h),
        after.blocks[h] == before.blocks[h],
        after.by_height == before.by_height,
        after.committed == before.committed,
{
}

/// The first body that is stored under a hash stays: a later block with the
/// same hash and another justification does not replace it.
pub proof fn lemma_first_write_wins(
    before: StoreView,
    after: StoreView,
    r: Result<(), StoreError>,
    b: BlockView,
    bytes: usize,
    roots: Seq<Hash32>,
    max_blocks: usize,
    max_bytes: usize,
)
    requires
        admission(before, after, r, b, bytes, roots, max_blocks, max_bytes),
        before.blocks.contains_key(block_hash(b)),
    ensures
        after == before,
{
}

/// Pruning never removes a canonical block, a protected root or one of its
/// ancestors, or a descendant of the committed head.
pub proof fn lemma_pruning_keeps(
    s: StoreView,
    roots: Seq<Hash32>,
    order: Seq<Hash32>,
    max_blocks: usize,
    max_bytes: usize,
    h: Hash32,
)
    requires
        s.is_pruning_order(roots, order),
        s.pruned(roots, order, max_blocks, max_bytes) is Ok,
        s.blocks.contains_key(h),
        !s.is_droppable(roots, h),
    ensures
        s.pruned(roots, order, max_blocks, max_bytes)->Ok_0.blocks.contains_key(h),
        s.pruned(roots, order, max_blocks, max_bytes)->Ok_0.by_height == s.by_height,
        s.pruned(roots, order, max_blocks, max_bytes)->Ok_0.committed == s.committed,
{
}

/// A row is dropped with the first branches and one more if it is dropped with
/// the first ones or belongs to the one more.
proof fn lemma_one_more_branch(
    s: StoreView,
    roots: Seq<Hash32>,
    order: Seq<Hash32>,
    n: int,
    h: Hash32,
)
    requires
        0 <= n < order.len(),
    ensures
        (s.in_branches(roots, order, n + 1))(h) <==> (s.in_branches(roots, order, n))(h) || (
        s.dead_branch(roots, order[n]))(h),
{
    if (s.in_branches(roots, order, n + 1))(h) {
        let k = choose|k: int| 0 <= k < n + 1 && (s.dead_branch(roots, #[trigger] order[k]))(h);
        assert((s.dead_branch(roots, order[k]))(h));
    }
    if (s.in_branches(roots, order, n))(h) {
        let k = choose|k: int| 0 <= k < n && (s.dead_branch(roots, #[trigger] order[k]))(h);
        assert((s.dead_branch(roots, order[k]))(h));
    }
    if (s.dead_branch(roots, order[n]))(h) {
        assert((s.in_branches(roots, order, n + 1))(h));
    }
}

/// Dropped and remaining rows make up the journal.
proof fn lemma_left_rows(s: StoreView, roots: Seq<Hash32>, order: Seq<Hash32>, n: int)
    ensures
        ({
            let dropped = rows_where(s.speculative, s.in_branches(roots, order, n));
            let left = s.left_rows(roots, order, n);
            &&& left.len() + dropped.len() == s.speculative.len()
            &&& bytes_of(left) + bytes_of(dropped) == bytes_of(s.speculative)
        }),
{
    lemma_rows_split(s.speculative, s.in_branches(roots, order, n));
}

/// A predicate that holds of no row keeps none.
proof fn lemma_rows_nowhere(rows: Seq<(Hash32, usize)>, p: spec_fn(Hash32) -> bool)
    requires
        forall|i: int| 0 <= i < rows.len() ==> !p((#[trigger] rows[i]).0),
    ensures
        rows_where(rows, p) == Seq::<(Hash32, usize)>::empty(),
{
    lemma_rows_agree(rows, p, no_rows());
    lemma_rows_none(rows);
}

/// The hard bound: a journal that was pruned is within its limits, whatever it
/// held before.
pub proof fn lemma_pruning_within_limits(
    s: StoreView,
    roots: Seq<Hash32>,
    order: Seq<Hash32>,
    max_blocks: usize,
    max_bytes: usize,
)
    requires
        s.pruned(roots, order, max_blocks, max_bytes) is Ok,
    ensures
        s.pruned(roots, order, max_blocks, max_bytes)->Ok_0.within(max_blocks, max_bytes),
{
}

/// Pruning fails closed: it fails exactly if the rows that it may not drop are
/// over the limits on their own.
pub proof fn lemma_pruning_fails_closed(
    s: StoreView,
    roots: Seq<Hash32>,
    order: Seq<Hash32>,
    max_blocks: usize,
    max_bytes: usize,
)
    requires
        s.is_pruning_order(roots, order),
    ensures
        ({
            let kept = rows_where(s.speculative, |h: Hash32| !s.is_droppable(roots, h));
            s.pruned(roots, order, max_blocks, max_bytes) is Err <==> kept.len() > max_blocks
                || bytes_of(kept) > max_bytes
        }),
{
    let kept = |h: Hash32| !s.is_droppable(roots, h);
    let n = order.len() as int;
    let all = |h: Hash32| !(s.in_branches(roots, order, n))(h);
    assert forall|i: int| 0 <= i < s.speculative.len() implies all((#[trigger] s.speculative[i]).0)
        == kept(s.speculative[i].0) by {
        let h = s.speculative[i].0;
        if s.is_droppable(roots, h) {
            assert(order.contains(h));
            let k = choose|k: int| 0 <= k < order.len() && order[k] == h;
            assert(ancestor(s.blocks, h, 0) == Some(h));
            assert((s.dead_branch(roots, order[k]))(h));
        }
    }
    lemma_rows_agree(s.speculative, all, kept);
    lemma_pruned_count(s, roots, order, max_blocks, max_bytes, 0);
    let m = s.pruned_count(roots, order, max_blocks, max_bytes, 0);
    if m < n {
        // What is kept is part of what remains.
        lemma_fewer_left(s, roots, order, m);
    }
}

/// Pruning stops before the end of the order only where the limits hold.
proof fn lemma_pruned_count(
    s: StoreView,
    roots: Seq<Hash32>,
    order: Seq<Hash32>,
    max_blocks: usize,
    max_bytes: usize,
    i: int,
)
    requires
        0 <= i <= order.len(),
    ensures
        ({
            let m = s.pruned_count(roots, order, max_blocks, max_bytes, i);
            &&& i <= m <= order.len()
            &&& m < order.len() ==> s.left_within(roots, order, m, max_blocks, max_bytes)
        }),
    decreases order.len() - i,
{
    if i < order.len() {
        lemma_pruned_count(s, roots, order, max_blocks, max_bytes, i + 1);
    }
}

/// No more rows remain once all branches were dropped than after the first
/// ones.
proof fn lemma_fewer_left(s: StoreView, roots: Seq<Hash32>, order: Seq<Hash32>, n: int)
    requires
        0 <= n <= order.len(),
    ensures
        s.left_rows(roots, order, order.len() as int).len() <= s.left_rows(roots, order, n).len(),
        bytes_of(s.left_rows(roots, order, order.len() as int)) <= bytes_of(
            s.left_rows(roots, order, n),
        ),
{
    let p = |h: Hash32| !(s.in_branches(roots, order, order.len() as int))(h);
    let q = |h: Hash32| !(s.in_branches(roots, order, n))(h);
    assert forall|i: int| 0 <= i < s.speculative.len() && p((#[trigger] s.speculative[i]).0) implies q(
        s.speculative[i].0,
    ) by {
        let h = s.speculative[i].0;
        if (s.in_branches(roots, order, n))(h) {
            let k = choose|k: int| 0 <= k < n && (s.dead_branch(roots, #[trigger] order[k]))(h);
            assert((s.dead_branch(roots, order[k]))(h));
        }
    }
    lemma_rows_fewer(s.speculative, p, q);
}

/// A stronger predicate keeps no more rows.
proof fn lemma_rows_fewer(
    rows: Seq<(Hash32, usize)>,
    p: spec_fn(Hash32) -> bool,
    q: spec_fn(Hash32) -> bool,
)
    requires
        forall|i: int| 0 <= i < rows.len() && p((#[trigger] rows[i]).0) ==> q(rows[i].0),
    ensures
        rows_where(rows, p).len() <= rows_where(rows, q).len(),
        bytes_of(rows_where(rows, p)) <= bytes_of(rows_where(rows, q)),
    decreases rows.len(),
{
    reveal(Seq::filter);
    if rows.len() > 0 {
        let front = rows.drop_last();
        let last = rows.last();
        assert(rows[rows.len() - 1] == last);
        assert forall|i: int| 0 <= i < front.len() && p((#[trigger] front[i]).0) implies q(front[i].0) by {
            assert(front[i] == rows[i]);
        }
        lemma_rows_fewer(front, p, q);
        if q(last.0) {
            assert(rows_where(rows, q) =~= rows_where(front, q).push(last));
            assert(rows_where(front, q).push(last).drop_last() =~= rows_where(front, q));
        } else {
            assert(rows_where(rows, q) =~= rows_where(front, q));
        }
        if p(last.0) {
            assert(rows_where(rows, p) =~= rows_where(front, p).push(last));
            assert(rows_where(front, p).push(last).drop_last() =~= rows_where(front, p));
        } else {
            assert(rows_where(rows, p) =~= rows_where(front, p));
        }
    }
}

/// Pruning only ever drops blocks, and never a root.
pub proof fn lemma_pruning_keeps_roots(
    s: StoreView,
    roots: Seq<Hash32>,
    order: Seq<Hash32>,
    max_blocks: usize,
    max_bytes: usize,
)
    requires
        s.is_pruning_order(roots, order),
        s.pruned(roots, order, max_blocks, max_bytes) is Ok,
    ensures
        s.pruned(roots, order, max_blocks, max_bytes)->Ok_0.blocks.submap_of(s.blocks),
        forall|h: Hash32| #[trigger]
            roots.contains(h) && s.blocks.contains_key(h) ==> s.pruned(
                roots,
                order,
                max_blocks,
                max_bytes,
            )->Ok_0.blocks.contains_key(h),
{
    assert forall|h: Hash32| #[trigger] roots.contains(h) && s.blocks.contains_key(h) implies s.pruned(
        roots,
        order,
        max_blocks,
        max_bytes,
    )->Ok_0.blocks.contains_key(h) by {
        let k = choose|k: int| 0 <= k < roots.len() && roots[k] == h;
        assert(ancestor(s.blocks, h, 0) == Some(h));
        assert(reaches(s.blocks, roots[k], h));
        assert(s.is_protected(roots, h));
        lemma_pruning_keeps(s, roots, order, max_blocks, max_bytes, h);
    }
}

/// Below its limits, pruning drops every droppable block.
pub proof fn lemma_pruning_complete(
    s: StoreView,
    roots: Seq<Hash32>,
    order: Seq<Hash32>,
    max_blocks: usize,
    max_bytes: usize,
    h: Hash32,
)
    requires
        s.is_pruning_order(roots, order),
        s.within(max_blocks, max_bytes),
        s.is_droppable(roots, h),
        s.pruned(roots, order, max_blocks, max_bytes) is Ok,
    ensures
        !s.pruned(roots, order, max_blocks, max_bytes)->Ok_0.blocks.contains_key(h),
{
    lemma_pruned_all(s, roots, order, max_blocks, max_bytes, 0);
    assert(order.contains(h));
    let k = choose|k: int| 0 <= k < order.len() && order[k] == h;
    assert(ancestor(s.blocks, h, 0) == Some(h));
    assert((s.dead_branch(roots, order[k]))(h));
    assert((s.in_branches(roots, order, order.len() as int))(h));
}

proof fn lemma_pruned_all(
    s: StoreView,
    roots: Seq<Hash32>,
    order: Seq<Hash32>,
    max_blocks: usize,
    max_bytes: usize,
    i: int,
)
    requires
        s.within(max_blocks, max_bytes),
        0 <= i <= order.len(),
    ensures
        s.pruned_count(roots, order, max_blocks, max_bytes, i) == order.len(),
    decreases order.len() - i,
{
    if i < order.len() {
        lemma_pruned_all(s, roots, order, max_blocks, max_bytes, i + 1);
    }
}

/// A short-lived cache always keeps its exact head, and nothing else at or
/// below the head's height.
pub proof fn lemma_cache_keeps_head(s: StoreView, roots: Seq<Hash32>, h: Hash32)
    requires
        s.head() is Some,
    ensures
        s.cache_pruned(roots).head() == s.head(),
        s.cache_pruned(roots).blocks.contains_key(h) && Some(h) != s.committed
            ==> s.blocks[h].height > s.head()->Some_0.height,
        s.is_protected(roots, h) && s.blocks[h].height > s.head()->Some_0.height
            ==> s.cache_pruned(roots).blocks.contains_key(h),
{
}

/// A block leads to itself, and to whatever its parent leads to as far as it is
/// stored, and to nothing else.
pub proof fn lemma_reaches_through_parent(blocks: Map<Hash32, BlockView>, d: Hash32, target: Hash32)
    ensures
        reaches(blocks, d, target) <==> d == target || (blocks.contains_key(d) && reaches(
            blocks,
            blocks[d].parent,
            target,
        )),
{
    assert(ancestor(blocks, d, 0) == Some(d));
    if reaches(blocks, d, target) {
        let n = choose|n: nat| #[trigger] ancestor(blocks, d, n) == Some(target);
        if n > 0 {
            lemma_ancestor_shift(blocks, d, (n - 1) as nat);
            if blocks.contains_key(d) {
                assert(ancestor(blocks, blocks[d].parent, (n - 1) as nat) == Some(target));
            }
        }
    }
    if blocks.contains_key(d) && reaches(blocks, blocks[d].parent, target) {
        let n = choose|n: nat| #[trigger] ancestor(blocks, blocks[d].parent, n) == Some(target);
        lemma_ancestor_shift(blocks, d, n);
        assert(ancestor(blocks, d, n + 1) == Some(target));
    }
}

/// The parent links from a block are those from its parent, one step later.
pub proof fn lemma_ancestor_shift(blocks: Map<Hash32, BlockView>, d: Hash32, n: nat)
    ensures
        blocks.contains_key(d) ==> ancestor(blocks, d, n + 1) == ancestor(blocks, blocks[d].parent, n),
        !blocks.contains_key(d) ==> ancestor(blocks, d, n + 1) is None,
    decreases n,
{
    if n > 0 {
        lemma_ancestor_shift(blocks, d, (n - 1) as nat);
    } else {
        assert(ancestor(blocks, d, 0) == Some(d));
        assert(ancestor(blocks, d, 1) == (if blocks.contains_key(d) {
            Some(blocks[d].parent)
        } else {
            None
        }));
    }
}

/// A canonical block is found under its hash and at its height, is no longer
/// speculative, and displaces only what was at that hash or height.
pub proof fn lemma_saved(s: StoreView, b: BlockView, h: Hash32, n: u64)
    requires
        crate::table::distinct_keys(s.speculative),
    ensures
        s.saved(b).lookup(block_hash(b)) == Some(b),
        s.saved(b).at_height(b.height) == Some(b),
        !s.saved(b).is_speculative(block_hash(b)),
        h != block_hash(b) ==> s.saved(b).lookup(h) == s.lookup(h) && (s.saved(b).is_speculative(h)
            <==> s.is_speculative(h)),
        n != b.height ==> (s.saved(b).by_height.contains_key(n) <==> s.by_height.contains_key(n)) && (
        s.by_height.contains_key(n) ==> s.saved(b).by_height[n] == s.by_height[n]),
        s.saved(b).committed == s.committed,
{
    lemma_without(s.speculative, block_hash(b), h);
}

/// A row that is taken out is gone, and the others are not.
proof fn lemma_without(rows: Seq<(Hash32, usize)>, k: Hash32, h: Hash32)
    requires
        crate::table::distinct_keys(rows),
    ensures
        !has_key(without(rows, k), k),
        h != k ==> (has_key(without(rows, k), h) <==> has_key(rows, h)),
{
    if has_key(rows, k) {
        let r = row_of(rows, k);
        let left = rows.remove(r);
        assert(rows[r].0 == k);
        assert forall|i: int| 0 <= i < left.len() implies (#[trigger] left[i]) == rows[if i < r {
            i
        } else {
            i + 1
        }] by {}
        if has_key(left, k) {
            let i = choose|i: int| 0 <= i < left.len() && (#[trigger] left[i]).0 == k;
            let j = if i < r {
                i
            } else {
                i + 1
            };
            assert(rows[j].0 != rows[r].0);
        }
        if h != k && has_key(rows, h) {
            let j = choose|j: int| 0 <= j < rows.len() && (#[trigger] rows[j]).0 == h;
            let i = if j < r {
                j
            } else {
                j - 1
            };
            assert(left[i].0 == h);
        }
        if has_key(left, h) {
            let i = choose|i: int| 0 <= i < left.len() && (#[trigger] left[i]).0 == h;
            let j = if i < r {
                i
            } else {
                i + 1
            };
            assert(rows[j].0 == h);
        }
    }
}

/// A stored block that becomes the committed head is the head, is found at its
/// height and is no longer speculative; no block comes or goes.
pub proof fn lemma_head_set(s: StoreView, h: Hash32, n: u64)
    requires
        crate::table::distinct_keys(s.speculative),
        s.blocks.contains_key(h),
    ensures
        s.with_committed(h).head() == Some(s.blocks[h]),
        s.with_committed(h).at_height(s.blocks[h].height) == Some(s.blocks[h]),
        s.with_committed(h).blocks == s.blocks,
        !s.with_committed(h).is_speculative(h),
        n != s.blocks[h].height ==> s.with_committed(h).at_height(n) == s.at_height(n),
{
    lemma_without(s.speculative, h, h);
}

/// An admitted block is found under its hash and is the newest row, with its
/// length; the index by height and the head stay as they are.
pub proof fn lemma_admitted(s: StoreView, b: BlockView, bytes: usize, h: Hash32)
    ensures
        s.admitted(b, bytes).lookup(block_hash(b)) == Some(b),
        s.admitted(b, bytes).is_speculative(block_hash(b)),
        s.admitted(b, bytes).speculative.len() == s.speculative.len() + 1,
        s.admitted(b, bytes).speculative.last() == (block_hash(b), bytes),
        bytes_of(s.admitted(b, bytes).speculative) == bytes_of(s.speculative) + bytes,
        s.admitted(b, bytes).by_height == s.by_height,
        s.admitted(b, bytes).committed == s.committed,
        h != block_hash(b) ==> s.admitted(b, bytes).lookup(h) == s.lookup(h),
{
    let rows = s.speculative.push((block_hash(b), bytes));
    assert(rows[rows.len() - 1].0 == block_hash(b));
    assert(rows.drop_last() =~= s.speculative);
}

/// There is room for a block as the journal stands exactly if neither the number
/// of rows nor the sum of their lengths goes over its limit.
pub proof fn lemma_room(s: StoreView, bytes: usize, max_blocks: usize, max_bytes: usize)
    ensures
        s.fits(no_rows(), bytes, max_blocks, max_bytes) <==> s.speculative.len() < max_blocks
            && bytes_of(s.speculative) + bytes <= max_bytes,
        s.within(max_blocks, max_bytes) <==> s.speculative.len() <= max_blocks && bytes_of(
            s.speculative,
        ) <= max_bytes,
{
    lemma_rows_none(s.speculative);
}

/// A row gives way to a block exactly if it is a speculative sibling of an earlier
/// view, the block is certified on its parent, neither the row nor a descendant of
/// it is what a root depends on, and the block has room without them.
pub proof fn lemma_victim_is_an_older_sibling(
    s: StoreView,
    b: BlockView,
    roots: Seq<Hash32>,
    bytes: usize,
    max_blocks: usize,
    max_bytes: usize,
    h: Hash32,
)
    ensures
        s.is_victim(b, roots, bytes, max_blocks, max_bytes, h) <==> {
            let kept = rows_where(
                s.speculative,
                |x: Hash32| s.is_indexed(x) || s.committed == Some(x) || !reaches(s.blocks, x, h),
            );
            &&& b.justify is Some
            &&& s.is_speculative(h)
            &&& s.committed != Some(h)
            &&& !s.is_indexed(h)
            &&& s.blocks[h].parent == b.parent
            &&& s.blocks[h].view < b.view
            &&& s.blocks.contains_key(h) ==> forall|i: int|
                0 <= i < roots.len() ==> !reaches(s.blocks, #[trigger] roots[i], h)
            &&& forall|x: Hash32| #[trigger]
                s.is_speculative(x) && s.blocks.contains_key(x) && !s.is_indexed(x) && s.committed
                    != Some(x) && reaches(s.blocks, x, h) ==> !below_root(s.blocks, roots, x)
            &&& kept.len() < max_blocks
            &&& bytes_of(kept) + bytes <= max_bytes
        },
{
    lemma_rows_split(s.speculative, s.branch(h));
    lemma_same_rows(s.speculative, |x: Hash32| !(s.branch(h))(x), |x: Hash32|
        s.is_indexed(x) || s.committed == Some(x) || !reaches(s.blocks, x, h));
}

/// Two tests that agree on all keys keep the same rows.
proof fn lemma_same_rows(
    rows: Seq<(Hash32, usize)>,
    p: spec_fn(Hash32) -> bool,
    q: spec_fn(Hash32) -> bool,
)
    requires
        forall|h: Hash32| #[trigger] p(h) == q(h),
    ensures
        rows_where(rows, p) == rows_where(rows, q),
    decreases rows.len(),
{
    reveal(Seq::filter);
    if rows.len() > 0 {
        lemma_same_rows(rows.drop_last(), p, q);
        assert(p(rows.last().0) == q(rows.last().0));
    }
}

/// What is left once a store was pruned: all but the droppable rows that descend
/// from one of those that pruning went through.
pub proof fn lemma_pruned_rows(
    s: StoreView,
    roots: Seq<Hash32>,
    order: Seq<Hash32>,
    max_blocks: usize,
    max_bytes: usize,
    h: Hash32,
)
    ensures
        s.pruned(roots, order, max_blocks, max_bytes) matches Ok(after) ==> {
            let n = s.pruned_count(roots, order, max_blocks, max_bytes, 0);
            &&& after.blocks.contains_key(h) <==> s.blocks.contains_key(h) && !(exists|k: int|
                0 <= k < n && s.is_droppable(roots, h) && reaches(s.blocks, h, #[trigger] order[k]))
            &&& after.blocks.contains_key(h) ==> after.blocks[h] == s.blocks[h]
            &&& after.by_height == s.by_height
            &&& after.committed == s.committed
        },
{
    let n = s.pruned_count(roots, order, max_blocks, max_bytes, 0);
    if (s.in_branches(roots, order, n))(h) {
        let k = choose|k: int| 0 <= k < n && (s.dead_branch(roots, #[trigger] order[k]))(h);
        assert(reaches(s.blocks, h, order[k]));
    }
    if exists|k: int|
        0 <= k < n && s.is_droppable(roots, h) && reaches(s.blocks, h, #[trigger] order[k]) {
        let k = choose|k: int|
            0 <= k < n && s.is_droppable(roots, h) && reaches(s.blocks, h, #[trigger] order[k]);
        assert((s.dead_branch(roots, order[k]))(h));
    }
}

/// Of all rows that could give way, one of the latest view does, and among those
/// the one with the smallest hash.
pub proof fn lemma_latest_victim_chosen(
    s: StoreView,
    b: BlockView,
    roots: Seq<Hash32>,
    bytes: usize,
    max_blocks: usize,
    max_bytes: usize,
    v: Hash32,
    h: Hash32,
)
    requires
        is_choice(s, b, roots, bytes, max_blocks, max_bytes, v),
        s.is_victim(b, roots, bytes, max_blocks, max_bytes, h),
        h != v,
    ensures
        s.blocks[h].view <= s.blocks[v].view,
        s.blocks[h].view == s.blocks[v].view ==> hash_before(v, h),
{
}

/// What an admission comes to: a new block of at most 48 mebibytes is taken if it
/// has room or another gives way; where it is refused nothing changes. A taken
/// block is found under its hash, and only descendants of the one that gave way
/// are gone.
pub proof fn lemma_admission(
    before: StoreView,
    after: StoreView,
    r: Result<(), StoreError>,
    b: BlockView,
    bytes: usize,
    roots: Seq<Hash32>,
    max_blocks: usize,
    max_bytes: usize,
)
    requires
        admission(before, after, r, b, bytes, roots, max_blocks, max_bytes),
        !before.blocks.contains_key(block_hash(b)),
    ensures
        r is Err ==> after == before,
        r is Ok ==> after.lookup(block_hash(b)) == Some(b) && after.is_speculative(block_hash(b)),
        r is Ok ==> bytes <= 48 * 1024 * 1024,
        bytes <= 48 * 1024 * 1024 && before.speculative.len() < max_blocks && bytes_of(
            before.speculative,
        ) + bytes <= max_bytes ==> r is Ok && after == before.admitted(b, bytes),
        bytes <= 48 * 1024 * 1024 && (exists|v: Hash32|
            before.is_victim(b, roots, bytes, max_blocks, max_bytes, v)) ==> r is Ok,
        r is Ok && !(before.speculative.len() < max_blocks && bytes_of(before.speculative) + bytes
            <= max_bytes) ==> exists|v: Hash32|
            {
                &&& #[trigger] is_choice(before, b, roots, bytes, max_blocks, max_bytes, v)
                &&& forall|h: Hash32|
                    before.blocks.contains_key(h) && !(#[trigger] after.blocks.contains_key(h))
                        ==> before.is_speculative(h) && reaches(before.blocks, h, v)
            },
{
    lemma_room(before, bytes, max_blocks, max_bytes);
    lemma_admitted(before, b, bytes, block_hash(b));
    if r is Ok && !before.fits(no_rows(), bytes, max_blocks, max_bytes) {
        let v = choose|v: Hash32| #[trigger]
            is_choice(before, b, roots, bytes, max_blocks, max_bytes, v) && after == before.dropping(
                before.branch(v),
            ).admitted(b, bytes);
        lemma_admitted(before.dropping(before.branch(v)), b, bytes, block_hash(b));
        assert(is_choice(before, b, roots, bytes, max_blocks, max_bytes, v));
    }
}

/// A row may be pruned exactly if it is speculative, neither indexed nor the head,
/// no root depends on it, and it does not descend from the committed head.
pub proof fn lemma_droppable(s: StoreView, roots: Seq<Hash32>, h: Hash32)
    requires
        s.blocks.contains_key(h),
    ensures
        s.is_droppable(roots, h) <==> {
            &&& s.is_speculative(h)
            &&& !s.is_indexed(h)
            &&& s.committed matches Some(c) && c != h && !reaches(s.blocks, h, c)
            &&& forall|i: int|
                0 <= i < roots.len() ==> !reaches(s.blocks, #[trigger] roots[i], h)
        },
{
}

/// Pruning goes through the rows from the lowest height up, smaller hashes first.
pub proof fn lemma_pruned_from_below(s: StoreView, roots: Seq<Hash32>, order: Seq<Hash32>, i: int, j: int)
    requires
        s.is_pruning_order(roots, order),
        0 <= i < j < order.len(),
    ensures
        s.blocks[order[i]].height <= s.blocks[order[j]].height,
        s.blocks[order[i]].height == s.blocks[order[j]].height ==> hash_before(order[i], order[j]),
        s.is_droppable(roots, order[i]),
{
    assert(lower_first(s.blocks, order[i], order[j]));
    assert(order.contains(order[i]));
}

/// Over its limits, pruning stops with the first row without which what is left is
/// within them; within its limits it goes through all.
pub proof fn lemma_pruning_stops(
    s: StoreView,
    roots: Seq<Hash32>,
    order: Seq<Hash32>,
    max_blocks: usize,
    max_bytes: usize,
    i: int,
)
    requires
        0 <= i,
    ensures
        ({
            let n = s.pruned_count(roots, order, max_blocks, max_bytes, 0);
            let within = |k: int| s.left_rows(roots, order, k).len() <= max_blocks && bytes_of(
                s.left_rows(roots, order, k),
            ) <= max_bytes;
            &&& 0 <= n <= order.len()
            &&& s.within(max_blocks, max_bytes) ==> n == order.len()
            &&& !s.within(max_blocks, max_bytes) && i < n ==> !within(i)
            &&& !s.within(max_blocks, max_bytes) && n < order.len() ==> within(n)
        }),
{
    lemma_pruned_count_first(s, roots, order, max_blocks, max_bytes, 0, i);
    if s.within(max_blocks, max_bytes) {
        lemma_pruned_all(s, roots, order, max_blocks, max_bytes, 0);
    }
}

/// The count of pruned rows from a position on is the first one that suffices.
proof fn lemma_pruned_count_first(
    s: StoreView,
    roots: Seq<Hash32>,
    order: Seq<Hash32>,
    max_blocks: usize,
    max_bytes: usize,
    from: int,
    i: int,
)
    requires
        0 <= from <= order.len(),
    ensures
        ({
            let n = s.pruned_count(roots, order, max_blocks, max_bytes, from);
            &&& from <= n <= order.len()
            &&& !s.within(max_blocks, max_bytes) && from <= i < n ==> !s.left_within(
                roots,
                order,
                i,
                max_blocks,
                max_bytes,
            )
            &&& !s.within(max_blocks, max_bytes) && n < order.len() ==> s.left_within(
                roots,
                order,
                n,
                max_blocks,
                max_bytes,
            )
        }),
    decreases order.len() - from,
{
    if from < order.len() {
        lemma_pruned_count_first(s, roots, order, max_blocks, max_bytes, from + 1, i);
    }
}

/// A short-lived cache keeps exactly the head and, above its height, what the roots
/// depend on.
pub proof fn lemma_cache_kept(s: StoreView, roots: Seq<Hash32>, h: Hash32)
    ensures
        s.cache_pruned(roots).blocks.contains_key(h) <==> {
            &&& s.blocks.contains_key(h)
            &&& s.committed == Some(h) || ((exists|i: int|
                0 <= i < roots.len() && reaches(s.blocks, #[trigger] roots[i], h)) && (
            s.head() matches Some(head) ==> s.blocks[h].height > head.height))
        },
        s.cache_pruned(roots).blocks.contains_key(h) ==> s.cache_pruned(roots).blocks[h]
            == s.blocks[h],
        s.cache_pruned(roots).committed == s.committed,
{
}

/// What is read from a height on is one block per height, as the index names them,
/// and ends only at a gap or at the number asked for.
pub proof fn lemma_indexed_from(
    blocks: Map<Hash32, BlockView>,
    by_height: Map<u64, Hash32>,
    height: int,
    n: nat,
    i: int,
)
    requires
        0 <= height,
    ensures
        ({
            let list = indexed_from(blocks, by_height, height, n);
            let at = |k: int|
                k <= u64::MAX && by_height.contains_key(k as u64) && blocks.contains_key(
                    by_height[k as u64],
                );
            &&& list.len() <= n
            &&& 0 <= i < list.len() ==> at(height + i) && list[i] == blocks[by_height[(height + i) as u64]]
            &&& list.len() < n ==> !at(height + list.len())
        }),
    decreases n,
{
    if n > 0 && height <= u64::MAX && by_height.contains_key(height as u64) && blocks.contains_key(
        by_height[height as u64],
    ) {
        lemma_indexed_from(blocks, by_height, height + 1, (n - 1) as nat, i - 1);
    }
}

/// What stands in the way of a block that would be saved without anything giving
/// way: its length, the number of rows or their sum; a block that is already
/// speculative or indexed is never in the way.
pub proof fn lemma_capacity(s: StoreView, h: Hash32, bytes: usize, max_blocks: usize, max_bytes: usize)
    ensures
        s.capacity_fault(h, bytes, max_blocks, max_bytes) is None <==> {
            ||| s.is_speculative(h)
            ||| s.blocks.contains_key(h) && s.is_indexed(h)
            ||| !s.blocks.contains_key(h) && bytes <= 48 * 1024 * 1024 && s.speculative.len()
                < max_blocks && bytes_of(s.speculative) + bytes <= max_bytes
        },
{
}

/// The journal holds at most 64 blocks of at most 96 mebibytes together; the last
/// place and the second half of the bytes are for certified continuations.
pub proof fn lemma_journal_limits()
    ensures
        MAX_SPECULATIVE_STORE_BLOCKS == 64,
        MAX_SPECULATIVE_SOFT_BLOCKS == MAX_SPECULATIVE_STORE_BLOCKS - 1,
        MAX_SPECULATIVE_STORE_BYTES == 96 * 1024 * 1024,
        2 * MAX_SPECULATIVE_SOFT_BYTES == MAX_SPECULATIVE_STORE_BYTES,
{
}

/// A short-lived cache keeps of the index by height the head alone, and the rows of the
/// blocks that it keeps.
pub proof fn lemma_cache_index(s: StoreView, roots: Seq<Hash32>, n: u64, h: Hash32)
    requires
        crate::table::distinct_keys(s.speculative),
    ensures
        s.cache_pruned(roots).by_height.contains_key(n) <==> s.by_height.contains_key(n) && (
        s.head() matches Some(b) && b.height == n && Some(s.by_height[n]) == s.committed),
        s.cache_pruned(roots).is_speculative(h) <==> s.is_speculative(h)
            && s.cache_pruned(roots).blocks.contains_key(h),
{
    let keep = |x: Hash32| s.cache_keeps(roots, x);
    let after = s.cache_pruned(roots);
    crate::table::lemma_rows_where(s.speculative, keep);
    assert(after.speculative == rows_where(s.speculative, keep));
    assert(crate::table::rows_map(after.speculative).contains_key(h) == (crate::table::rows_map(
        s.speculative,
    ).contains_key(h) && keep(h)));
}

} // verus!
