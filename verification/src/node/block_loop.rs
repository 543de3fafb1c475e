//! The block production of the single-process server.

use vstd::prelude::*;

use crate::bytes::{zero_hash, zeros, Hash32};
use crate::node::notices::{mark_or_zero, mark_price_or_zero};
use crate::text::{hex_encode, hex_text};
use crate::types::block::{Block, BlockView};
use crate::types::context::ConsensusContext;
use crate::types::messages::{ConsensusState, ConsensusStateView};

verus! {

/// Every so many views a block is produced though there is nothing to do.
pub const HEARTBEAT_VIEWS: u64 = 10;

/// Every so many blocks the status is logged.
pub const STATUS_BLOCKS: u64 = 100;

/// Price levels that are published for each side of a book.
pub const BOOK_DEPTH: usize = 20;

/// How far the server has come. While a block is executed no other view begins.
#[derive(Clone, Copy, Debug, PartialEq, Eq)]
pub struct BlockLoop {
    pub height: u64,
    pub view: u64,
    pub last_snapshot_height: u64,
    pub executing: bool,
}

/// What is logged of a block.
#[derive(Clone, Copy, Debug, PartialEq, Eq)]
pub enum BlockLog {
    /// The block had transactions.
    Committed,
    /// The block was empty, and empty blocks are logged.
    Heartbeat,
    /// Nothing.
    Silent,
}

/// The number of pending transactions in the three classes of the mempool.
pub open spec fn pending_total(pending: (usize, usize, usize)) -> int {
    pending.0 + pending.1 + pending.2
}

/// A block is due in a view.
pub open spec fn block_due(pending: int, view: int) -> bool {
    pending > 0 || view % HEARTBEAT_VIEWS as int == 0
}

/// The loop after one more view.
pub open spec fn after_tick(l: BlockLoop, pending: int) -> BlockLoop {
    BlockLoop {
        height: if block_due(pending, l.view + 1) {
            (l.height + 1) as u64
        } else {
            l.height
        },
        view: (l.view + 1) as u64,
        last_snapshot_height: l.last_snapshot_height,
        executing: block_due(pending, l.view + 1),
    }
}

/// The block that the loop produces.
pub open spec fn loop_block(
    l: BlockLoop,
    context: ConsensusContext,
    proposer: Hash32,
    timestamp: u64,
) -> BlockView {
    BlockView {
        context,
        view: l.view,
        height: l.height,
        parent: zero_hash(),
        payload: Seq::empty(),
        proposer,
        commitment_root: zero_hash(),
        app_hash: zero_hash(),
        timestamp,
        justify: None,
    }
}

/// The state that is made durable with a block; certificates and votes are not
/// kept.
pub open spec fn loop_state(l: BlockLoop, context: ConsensusContext, app_hash: Hash32) -> ConsensusStateView {
    ConsensusStateView {
        context,
        high_qc: None,
        locked_qc: None,
        voted: Set::empty(),
        current_view: l.view,
        committed_height: l.height,
        committed_hash: app_hash,
        consecutive_timeouts: 0,
        vc_sent_for_view: None,
    }
}

impl BlockLoop {
    /// Resumes at a height and view.
    pub fn new(height: u64, view: u64) -> (r: Self)
        ensures
            r == (BlockLoop { height, view, last_snapshot_height: height, executing: false }),
    {
        BlockLoop { height, view, last_snapshot_height: height, executing: false }
    }

    /// Enters the next view. Returns whether a block is produced in it: if
    /// there are transactions, and else in every tenth view.
    pub fn tick(&mut self, pending: (usize, usize, usize)) -> (r: bool)
        requires
            !old(self).executing,
            old(self).view < u64::MAX,
            old(self).height < u64::MAX,
            pending_total(pending) <= usize::MAX,
        ensures
            *final(self) == after_tick(*old(self), pending_total(pending)),
            r == block_due(pending_total(pending), old(self).view + 1),
    {
        self.view = self.view + 1;
        let total: usize = pending.0 + pending.1 + pending.2;
        if total > 0 || self.view % HEARTBEAT_VIEWS == 0 {
            self.height = self.height + 1;
            self.executing = true;
            true
        } else {
            false
        }
    }

    /// The block to execute.
    pub fn block(&self, context: ConsensusContext, proposer: Hash32, timestamp: u64) -> (r: Block)
        ensures
            r@ == loop_block(*self, context, proposer, timestamp),
    {
        let r = Block {
            epoch: context.epoch,
            committee_hash: context.committee_hash,
            genesis_hash: context.genesis_hash,
            view: self.view,
            height: self.height,
            parent: zeros(),
            payload: Vec::new(),
            proposer,
            commitment_root: zeros(),
            app_hash: zeros(),
            timestamp,
            justify: None,
        };
        assert(r@.payload =~= Seq::empty());
        r
    }

    /// Takes the application state after the block was executed, and returns the
    /// state to make durable with the block if blocks are stored.
    pub fn executed(&mut self, context: ConsensusContext, app_hash: Hash32, stores: bool) -> (r: Option<
        ConsensusState,
    >)
        requires
            old(self).executing,
        ensures
            *final(self) == (BlockLoop { executing: false, ..*old(self) }),
            match r {
                Some(s) => stores && s@ == loop_state(*old(self), context, app_hash)
                    && s.voted_views@.len() == 0,
                None => !stores,
            },
    {
        self.executing = false;
        if !stores {
            return None;
        }
        let r = ConsensusState {
            epoch: context.epoch,
            committee_hash: context.committee_hash,
            genesis_hash: context.genesis_hash,
            high_qc: None,
            locked_qc: None,
            voted_views: Vec::new(),
            current_view: self.view,
            committed_height: self.height,
            committed_hash: app_hash,
            consecutive_timeouts: 0,
            vc_sent_for_view: None,
        };
        assert(r.voted_views@.to_set() =~= Set::empty());
        Some(r)
    }

    /// Whether a snapshot is due; an interval of zero turns snapshots off.
    pub fn snapshot_due(&self, interval: u64) -> (r: bool)
        requires
            self.last_snapshot_height <= self.height,
        ensures
            r == (interval > 0 && self.height - self.last_snapshot_height >= interval),
    {
        interval > 0 && self.height - self.last_snapshot_height >= interval
    }

    /// Notes that a snapshot of the current height was saved.
    pub fn snapshot_saved(&mut self)
        ensures
            *final(self) == (BlockLoop { last_snapshot_height: old(self).height, ..*old(self) }),
    {
        self.last_snapshot_height = self.height;
    }

    /// What is logged of the block.
    pub fn log(&self, pending: usize, log_all: bool) -> (r: BlockLog)
        ensures
            r == (if pending > 0 {
                BlockLog::Committed
            } else if log_all {
                BlockLog::Heartbeat
            } else {
                BlockLog::Silent
            }),
    {
        if pending > 0 {
            BlockLog::Committed
        } else if log_all {
            BlockLog::Heartbeat
        } else {
            BlockLog::Silent
        }
    }

    /// Whether the status is logged with the block.
    pub fn status_due(&self) -> (r: bool)
        ensures
            r == (self.height % STATUS_BLOCKS == 0),
    {
        self.height % STATUS_BLOCKS == 0
    }
}

/// What happens to the loop: a view begins with a number of pending
/// transactions, a block was executed, or a snapshot was saved.
pub ghost enum LoopEvent {
    Tick(int),
    Executed(Hash32),
    Saved,
}

/// Where the loop stood when it produced a block, and how many transactions were
/// pending.
pub ghost struct Produced {
    pub at: BlockLoop,
    pub pending: int,
}

impl BlockLoop {
    /// An event can happen: a block is executed once, and before the next view.
    pub open spec fn accepts(self, e: LoopEvent) -> bool {
        match e {
            LoopEvent::Tick(_) => !self.executing && self.view < u64::MAX && self.height < u64::MAX,
            LoopEvent::Executed(_) => self.executing,
            LoopEvent::Saved => true,
        }
    }

    /// The loop after an event.
    pub open spec fn after(self, e: LoopEvent) -> BlockLoop {
        match e {
            LoopEvent::Tick(pending) => after_tick(self, pending),
            LoopEvent::Executed(_) => BlockLoop { executing: false, ..self },
            LoopEvent::Saved => BlockLoop { last_snapshot_height: self.height, ..self },
        }
    }

    /// The loop after some events.
    pub open spec fn ran(self, events: Seq<LoopEvent>) -> BlockLoop
        decreases events.len(),
    {
        if events.len() == 0 {
            self
        } else {
            self.ran(events.drop_last()).after(events.last())
        }
    }

    /// The events can happen one after the other.
    pub open spec fn accepts_all(self, events: Seq<LoopEvent>) -> bool
        decreases events.len(),
    {
        events.len() > 0 ==> self.accepts_all(events.drop_last()) && self.ran(
            events.drop_last(),
        ).accepts(events.last())
    }

    /// The blocks that are produced in a run, oldest first.
    pub open spec fn produced(self, events: Seq<LoopEvent>) -> Seq<Produced>
        decreases events.len(),
    {
        if events.len() == 0 {
            Seq::empty()
        } else {
            let blocks = self.produced(events.drop_last());
            let at = self.ran(events);
            match events.last() {
                LoopEvent::Tick(pending) => if at.executing {
                    blocks.push(Produced { at, pending })
                } else {
                    blocks
                },
                _ => blocks,
            }
        }
    }

    /// The states that are made durable in a run of a server that stores its
    /// blocks, oldest first.
    pub open spec fn writes(self, events: Seq<LoopEvent>, context: ConsensusContext) -> Seq<
        ConsensusStateView,
    >
        decreases events.len(),
    {
        if events.len() == 0 {
            Seq::empty()
        } else {
            let states = self.writes(events.drop_last(), context);
            match events.last() {
                LoopEvent::Executed(app_hash) => states.push(
                    loop_state(self.ran(events.drop_last()), context, app_hash),
                ),
                _ => states,
            }
        }
    }
}

/// The states that the application returned in a run, oldest first.
pub open spec fn returned(events: Seq<LoopEvent>) -> Seq<Hash32>
    decreases events.len(),
{
    if events.len() == 0 {
        Seq::empty()
    } else {
        match events.last() {
            LoopEvent::Executed(app_hash) => returned(events.drop_last()).push(app_hash),
            _ => returned(events.drop_last()),
        }
    }
}

/// In every run the loop produces one block for each height from the next one
/// on, without a gap, in rising views that all come after the first one, and one
/// without transactions only in a heartbeat view.
pub proof fn lemma_gap_free(l: BlockLoop, events: Seq<LoopEvent>)
    requires
        !l.executing,
        l.accepts_all(events),
    ensures
        ({
            let now = l.ran(events);
            let blocks = l.produced(events);
            &&& now.height == l.height + blocks.len()
            &&& blocks.len() <= now.view - l.view
            &&& now.executing ==> blocks.len() > 0 && blocks.last().at.view == now.view
                && blocks.last().at.height == now.height
            &&& forall|i: int|
                0 <= i < blocks.len() ==> (#[trigger] blocks[i]).at.height == l.height + 1 + i
                    && l.view < blocks[i].at.view <= now.view && (blocks[i].pending <= 0
                    ==> blocks[i].at.view % HEARTBEAT_VIEWS == 0)
            &&& forall|i: int, j: int|
                0 <= i < j < blocks.len() ==> (#[trigger] blocks[i]).at.view < (
                #[trigger] blocks[j]).at.view
        }),
    decreases events.len(),
{
    if events.len() > 0 {
        lemma_gap_free(l, events.drop_last());
        let blocks = l.produced(events.drop_last());
        let all = l.produced(events);
        assert forall|i: int| 0 <= i < blocks.len() implies #[trigger] all[i] == blocks[i] by {}
        assert forall|i: int| 0 <= i < all.len() implies (#[trigger] all[i]).at.height == l.height + 1
            + i && l.view < all[i].at.view <= l.ran(events).view && (all[i].pending <= 0
            ==> all[i].at.view % HEARTBEAT_VIEWS == 0) by {
            if i < blocks.len() {
                assert(all[i] == blocks[i]);
            }
        }
        assert forall|i: int, j: int| 0 <= i < j < all.len() implies (#[trigger] all[i]).at.view < (
        #[trigger] all[j]).at.view by {
            assert(all[i] == blocks[i]);
            if j < blocks.len() {
                assert(all[j] == blocks[j]);
            }
        }
    }
}

/// In every run of a server that stores its blocks, each block that was executed
/// is made durable once, with a state that names its view, its height and the
/// application state that its execution returned.
pub proof fn lemma_one_write_each(l: BlockLoop, events: Seq<LoopEvent>, context: ConsensusContext)
    requires
        !l.executing,
        l.accepts_all(events),
    ensures
        ({
            let blocks = l.produced(events);
            let states = l.writes(events, context);
            &&& states.len() == returned(events).len()
            &&& blocks.len() == states.len() + (if l.ran(events).executing {
                1int
            } else {
                0int
            })
            &&& forall|i: int|
                0 <= i < states.len() ==> (#[trigger] states[i]) == loop_state(
                    blocks[i].at,
                    context,
                    returned(events)[i],
                )
            &&& forall|i: int|
                0 <= i < states.len() ==> (#[trigger] states[i]).current_view == blocks[i].at.view
                    && states[i].committed_height == blocks[i].at.height && states[i].committed_hash
                    == returned(events)[i]
        }),
    decreases events.len(),
{
    if events.len() > 0 {
        let front = events.drop_last();
        lemma_one_write_each(l, front, context);
        lemma_gap_free(l, front);
        let blocks = l.produced(events);
        let before = l.writes(front, context);
        let states = l.writes(events, context);
        assert forall|i: int| 0 <= i < states.len() implies (#[trigger] states[i]) == loop_state(
            blocks[i].at,
            context,
            returned(events)[i],
        ) by {
            if i < before.len() {
                assert(states[i] == before[i]);
                assert(blocks[i] == l.produced(front)[i]);
            }
        }
    }
}

/// Without a block there was no heartbeat view.
proof fn lemma_no_heartbeat(l: BlockLoop, events: Seq<LoopEvent>, view: int)
    requires
        !l.executing,
        l.accepts_all(events),
        l.produced(events).len() == 0,
        l.view < view <= l.ran(events).view,
    ensures
        view % HEARTBEAT_VIEWS as int != 0,
    decreases events.len(),
{
    if events.len() > 0 {
        let front = events.drop_last();
        if view <= l.ran(front).view {
            lemma_no_heartbeat(l, front, view);
        }
    }
}

/// Among ten consecutive views there is always one with a block.
pub proof fn lemma_heartbeat(l: BlockLoop, events: Seq<LoopEvent>)
    requires
        !l.executing,
        l.accepts_all(events),
        l.ran(events).view >= l.view + HEARTBEAT_VIEWS,
    ensures
        l.produced(events).len() > 0,
        l.ran(events).height > l.height,
{
    lemma_gap_free(l, events);
    if l.produced(events).len() == 0 {
        let view = l.view + HEARTBEAT_VIEWS - l.view as int % HEARTBEAT_VIEWS as int;
        lemma_no_heartbeat(l, events, view);
    }
}

/// The first bytes of an application hash, as they are published and logged.
pub fn short_hash(app_hash: &Hash32) -> (r: String)
    ensures
        r@ == hex_text(app_hash@.take(4)),
{
    let mut head: Vec<u8> = Vec::new();
    head.push(app_hash[0]);
    head.push(app_hash[1]);
    head.push(app_hash[2]);
    head.push(app_hash[3]);
    assert(head@ =~= app_hash@.take(4));
    hex_encode(head.as_slice())
}

/// A price level of a book.
#[derive(Clone, Copy, Debug, PartialEq, Eq)]
pub struct PriceLevel {
    pub price: i64,
    pub size: i64,
}

/// The best price of a side, whose levels come best first.
pub fn best_price(levels: &Vec<PriceLevel>) -> (r: Option<i64>)
    ensures
        r == (if levels@.len() == 0 {
            None
        } else {
            Some(levels@[0].price)
        }),
{
    if levels.len() == 0 {
        None
    } else {
        Some(levels[0].price)
    }
}

/// The mark and index price that are published after a block: only if it had
/// trades.
pub fn mark_update(fills: usize, mark_price: Option<i64>, index_price: Option<i64>) -> (r: Option<
    (i64, Option<i64>),
>)
    ensures
        r == (if fills == 0 {
            None
        } else {
            Some((mark_or_zero(mark_price), index_price))
        }),
{
    if fills == 0 {
        None
    } else {
        Some((mark_price_or_zero(mark_price), index_price))
    }
}

/// What the application knows of a market.
#[derive(Clone, Copy, Debug, PartialEq, Eq)]
pub struct MarketInfo {
    pub mark_price: Option<i64>,
    pub oracle_price: Option<i64>,
    pub mid_price: Option<i64>,
    pub funding_rate_bps: i64,
    pub premium: Option<i64>,
    pub open_interest: i64,
    pub prev_day_price: Option<i64>,
    pub day_volume: i64,
    pub day_notional_volume: i64,
    pub next_funding_time: u64,
}

/// The published figures of a market; the funding rate is in millionths.
#[derive(Clone, Copy, Debug, PartialEq, Eq)]
pub struct AssetCtx {
    pub mark_price: i64,
    pub oracle_price: Option<i64>,
    pub mid_price: i64,
    pub funding_rate: i64,
    pub premium: i64,
    pub open_interest: i64,
    pub prev_day_price: i64,
    pub day_volume: i64,
    pub day_notional_volume: i64,
    pub next_funding_time: u64,
    pub timestamp: u64,
}

/// The published figures of a market. Without a mid price the mark price
/// stands for it.
pub fn asset_ctx(m: &MarketInfo, timestamp: u64) -> (r: AssetCtx)
    requires
        i64::MIN <= m.funding_rate_bps * 100 <= i64::MAX,
    ensures
        r == (AssetCtx {
            mark_price: mark_or_zero(m.mark_price),
            oracle_price: m.oracle_price,
            mid_price: match m.mid_price {
                Some(p) => p,
                None => mark_or_zero(m.mark_price),
            },
            funding_rate: (m.funding_rate_bps * 100) as i64,
            premium: mark_or_zero(m.premium),
            open_interest: m.open_interest,
            prev_day_price: mark_or_zero(m.prev_day_price),
            day_volume: m.day_volume,
            day_notional_volume: m.day_notional_volume,
            next_funding_time: m.next_funding_time,
            timestamp,
        }),
{
    let mark: i64 = mark_price_or_zero(m.mark_price);
    AssetCtx {
        mark_price: mark,
        oracle_price: m.oracle_price,
        mid_price: match m.mid_price {
            Some(p) => p,
            None => mark,
        },
        funding_rate: m.funding_rate_bps * 100,
        premium: mark_price_or_zero(m.premium),
        open_interest: m.open_interest,
        prev_day_price: mark_price_or_zero(m.prev_day_price),
        day_volume: m.day_volume,
        day_notional_volume: m.day_notional_volume,
        next_funding_time: m.next_funding_time,
        timestamp,
    }
}

/// A view with pending transactions always gets a block, and one without exactly in every
/// tenth view; the block is of that view and of the next height.
pub proof fn lemma_block_due(l: BlockLoop, pending: int, context: ConsensusContext, proposer: Hash32, timestamp: u64)
    requires
        l.view < u64::MAX,
        l.height < u64::MAX,
    ensures
        ({
            let after = after_tick(l, pending);
            let b = loop_block(after, context, proposer, timestamp);
            &&& after.view == l.view + 1
            &&& after.executing <==> pending > 0 || (l.view + 1) % 10 == 0
            &&& after.executing ==> after.height == l.height + 1
            &&& !after.executing ==> after.height == l.height
            &&& b.view == after.view
            &&& b.height == after.height
            &&& b.context == context
            &&& b.proposer == proposer
            &&& b.timestamp == timestamp
            &&& b.payload.len() == 0
            &&& b.justify is None
            &&& b.parent == zero_hash()
            &&& b.app_hash == zero_hash()
        }),
{
}

/// What is made durable with a block: its view, its height and the state after it, and
/// neither certificates nor votes.
pub proof fn lemma_loop_state(l: BlockLoop, context: ConsensusContext, app_hash: Hash32)
    ensures
        ({
            let s = loop_state(l, context, app_hash);
            &&& s.context == context
            &&& s.current_view == l.view
            &&& s.committed_height == l.height
            &&& s.committed_hash == app_hash
            &&& s.high_qc is None
            &&& s.locked_qc is None
            &&& s.voted == Set::<u64>::empty()
        }),
        STATUS_BLOCKS == 100,
        BOOK_DEPTH == 20,
        HEARTBEAT_VIEWS == 10,
{
}

/// Pending transactions are those of all three classes.
pub proof fn lemma_pending_total(a: usize, b: usize, c: usize)
    ensures
        pending_total((a, b, c)) == a + b + c,
{
}

} // verus!
