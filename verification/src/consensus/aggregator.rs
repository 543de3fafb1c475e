//! Collection of votes into certificates, with a rate limit per validator.

use vstd::prelude::*;

use crate::bytes::{hash_eq, zero_hash, zeros, Hash32, NodeId};
use crate::clock::Clock;
use crate::consensus::committee::{collect_signatures, signatures_of};
use crate::consensus::metrics::{ConsensusMetrics, MetricsView};
use crate::crypto::{
    aggregate_signatures, bls_aggregate, bls_signature_decodes, bls_verifies, signature_decodes,
};
use crate::table::{has_key, keys_from, row_of, rows_map, Key, Table, ViewKey};
use crate::types::certificate::{
    keys_of, option_certificate, voters_of, votes_agree, votes_keyed, Certificate, CertificateView,
};
use crate::types::context::ConsensusContext;
use crate::types::vote::{copy_votes, vote_views, Vote, VoteView};

verus! {

/// Most votes of one validator within a second.
pub const MAX_VOTES_PER_VALIDATOR_PER_SECOND: usize = 10;

/// Length of the rate-limit window in nanoseconds.
pub const RATE_WINDOW_NANOS: u64 = 1_000_000_000;

/// Limits how many votes a validator may send within a second.
pub struct VoteRateLimiter {
    windows: Table<NodeId, Vec<u64>>,
    max_per_second: usize,
    clock: Clock,
}

/// A vote came too soon.
#[derive(Clone, Copy, Debug, PartialEq, Eq)]
pub enum RateLimitError {
    /// The window already holds as many votes as are allowed.
    RateLimitExceeded { votes_in_window: usize, max: usize },
}

/// The contents of a rate limiter: when each validator voted.
pub ghost struct LimiterView {
    pub windows: Map<NodeId, Seq<u64>>,
    pub max: usize,
}

/// More than a second lies between two moments.
pub open spec fn is_stale(then: u64, now: u64) -> bool {
    now - then > RATE_WINDOW_NANOS
}

/// A window without its leading stale moments.
pub open spec fn fresh(window: Seq<u64>, now: u64) -> Seq<u64>
    decreases window.len(),
{
    if window.len() > 0 && is_stale(window[0], now) {
        fresh(window.skip(1), now)
    } else {
        window
    }
}

/// Dropping stale moments from a window does not lengthen it, and what is
/// left starts within the last second.
pub proof fn lemma_fresh(window: Seq<u64>, now: u64)
    ensures
        fresh(window, now).len() <= window.len(),
        fresh(window, now).len() > 0 ==> !is_stale(fresh(window, now)[0], now),
    decreases window.len(),
{
    if window.len() > 0 && is_stale(window[0], now) {
        lemma_fresh(window.skip(1), now);
    }
}

/// The moments of a table of windows.
pub open spec fn window_map(m: Map<NodeId, Vec<u64>>) -> Map<NodeId, Seq<u64>> {
    Map::new(|k: NodeId| m.contains_key(k), |k: NodeId| m[k]@)
}

impl LimiterView {
    /// The moments at which a validator voted.
    pub open spec fn window(self, voter: NodeId) -> Seq<u64> {
        if self.windows.contains_key(voter) {
            self.windows[voter]
        } else {
            Seq::empty()
        }
    }

    /// The limit leaves room for a vote.
    pub open spec fn allows(self, voter: NodeId, now: u64) -> bool {
        fresh(self.window(voter), now).len() < self.max
    }

    /// The limiter after a validator tried to vote.
    pub open spec fn after(self, voter: NodeId, now: u64) -> LimiterView {
        let kept = fresh(self.window(voter), now);
        LimiterView {
            windows: self.windows.insert(
                voter,
                if self.allows(voter, now) {
                    kept.push(now)
                } else {
                    kept
                },
            ),
            ..self
        }
    }
}

/// What is stale at a moment is stale at every later one, so dropping it early
/// changes nothing later.
proof fn lemma_fresh_twice(window: Seq<u64>, now: u64, later: u64)
    requires
        now <= later,
    ensures
        fresh(fresh(window, now), later) == fresh(window, later),
    decreases window.len(),
{
    if window.len() > 0 && is_stale(window[0], now) {
        lemma_fresh_twice(window.skip(1), now, later);
    }
}

/// Moments in the order in which they passed.
pub open spec fn in_order(window: Seq<u64>) -> bool {
    forall|i: int, j: int| 0 <= i <= j < window.len() ==> window[i] <= window[j]
}

/// All windows are in order, and none holds a moment after a given one.
pub open spec fn ordered_until(l: LimiterView, now: u64) -> bool {
    forall|k: NodeId| #[trigger]
        l.windows.contains_key(k) ==> in_order(l.windows[k]) && (forall|i: int|
            0 <= i < l.windows[k].len() ==> #[trigger] l.windows[k][i] <= now)
}

/// The moments of a window that lie within the second before a moment.
pub open spec fn recent(window: Seq<u64>, now: u64) -> Seq<u64> {
    window.filter(|then: u64| !is_stale(then, now))
}

/// Of a window in order exactly the recent moments are fresh.
pub proof fn lemma_fresh_is_recent(window: Seq<u64>, now: u64)
    requires
        in_order(window),
    ensures
        fresh(window, now) == recent(window, now),
    decreases window.len(),
{
    let p = |then: u64| !is_stale(then, now);
    if window.len() == 0 {
        reveal(Seq::filter);
        assert(recent(window, now) =~= window);
    } else if is_stale(window[0], now) {
        let rest = window.skip(1);
        assert forall|i: int, j: int| 0 <= i <= j < rest.len() implies rest[i] <= rest[j] by {
            assert(rest[i] == window[i + 1] && rest[j] == window[j + 1]);
        }
        lemma_fresh_is_recent(rest, now);
        lemma_filter_first(window, p);
    } else {
        assert forall|i: int| 0 <= i < window.len() implies p(#[trigger] window[i]) by {
            assert(window[0] <= window[i]);
        }
        lemma_filter_all(window, p);
    }
}

/// A predicate that fails of the first item only looks at the rest.
proof fn lemma_filter_first(s: Seq<u64>, p: spec_fn(u64) -> bool)
    requires
        s.len() > 0,
        !p(s[0]),
    ensures
        s.filter(p) == s.skip(1).filter(p),
    decreases s.len(),
{
    reveal(Seq::filter);
    if s.len() == 1 {
        assert(s.drop_last() =~= Seq::empty());
        assert(s.skip(1) =~= Seq::empty());
    } else {
        lemma_filter_first(s.drop_last(), p);
        assert(s.drop_last().skip(1) =~= s.skip(1).drop_last());
        assert(s.skip(1).last() == s.last());
    }
}

/// A predicate that holds of all items keeps all.
proof fn lemma_filter_all(s: Seq<u64>, p: spec_fn(u64) -> bool)
    requires
        forall|i: int| 0 <= i < s.len() ==> p(#[trigger] s[i]),
    ensures
        s.filter(p) == s,
    decreases s.len(),
{
    reveal(Seq::filter);
    if s.len() > 0 {
        let front = s.drop_last();
        assert forall|i: int| 0 <= i < front.len() implies p(#[trigger] front[i]) by {
            assert(front[i] == s[i]);
        }
        lemma_filter_all(front, p);
        assert(s[s.len() - 1] == s.last());
        assert(front.push(s.last()) =~= s);
    } else {
        assert(s.filter(p) =~= s);
    }
}

/// The windows of a limiter stay in order as long as time does not run
/// backwards.
pub proof fn lemma_order_kept(l: LimiterView, before: u64, voter: NodeId, now: u64)
    requires
        ordered_until(l, before),
        before <= now,
    ensures
        ordered_until(l.after(voter, now), now),
        ordered_until(without_stale(l, now), now),
{
    assert forall|k: NodeId| #[trigger] l.windows.contains_key(k) implies in_order(
        fresh(l.windows[k], now),
    ) && (forall|i: int| 0 <= i < fresh(l.windows[k], now).len() ==> #[trigger] fresh(l.windows[k], now)[i]
        <= now) by {
        lemma_fresh_order(l.windows[k], now, before);
    }
    lemma_fresh_order(l.window(voter), now, before);
    let kept = fresh(l.window(voter), now);
    let pushed = kept.push(now);
    assert forall|i: int, j: int| 0 <= i <= j < pushed.len() implies pushed[i] <= pushed[j] by {
        if j < kept.len() {
            assert(kept[i] <= kept[j]);
        }
    }
}

/// A window stays in order without its stale moments.
proof fn lemma_fresh_order(window: Seq<u64>, now: u64, before: u64)
    requires
        in_order(window),
        forall|i: int| 0 <= i < window.len() ==> #[trigger] window[i] <= before,
        before <= now,
    ensures
        in_order(fresh(window, now)),
        forall|i: int| 0 <= i < fresh(window, now).len() ==> #[trigger] fresh(window, now)[i] <= now,
    decreases window.len(),
{
    if window.len() > 0 && is_stale(window[0], now) {
        let rest = window.skip(1);
        assert forall|i: int, j: int| 0 <= i <= j < rest.len() implies rest[i] <= rest[j] by {
            assert(rest[i] == window[i + 1] && rest[j] == window[j + 1]);
        }
        assert forall|i: int| 0 <= i < rest.len() implies #[trigger] rest[i] <= before by {
            assert(rest[i] == window[i + 1]);
        }
        lemma_fresh_order(rest, now, before);
    }
}

/// Once stale moments were forgotten, the count of a validator is the number of
/// its votes in the last second.
pub proof fn lemma_pruned_count_is_recent(l: LimiterView, now: u64, voter: NodeId)
    requires
        ordered_until(l, now),
    ensures
        without_stale(l, now).window(voter) == recent(l.window(voter), now),
{
    lemma_fresh_is_recent(l.window(voter), now);
    assert(recent(Seq::empty(), now) =~= Seq::<u64>::empty()) by {
        reveal(Seq::filter);
    }
    assert(fresh(l.window(voter), now).len() == 0 ==> fresh(l.window(voter), now) =~= Seq::empty());
}

/// Two limiters count the same votes for every validator from a moment on.
pub open spec fn same_counts(a: LimiterView, b: LimiterView, from: u64) -> bool {
    &&& a.max == b.max
    &&& forall|voter: NodeId, at: u64|
        at >= from ==> #[trigger] fresh(a.window(voter), at) == fresh(b.window(voter), at)
}

/// Forgetting validators that did not vote lately changes no later answer: the
/// limiter counts what it would have counted.
pub proof fn lemma_pruning_changes_no_answer(l: LimiterView, now: u64)
    ensures
        same_counts(without_stale(l, now), l, now),
        forall|voter: NodeId, at: u64|
            at >= now ==> #[trigger] without_stale(l, now).allows(voter, at) == l.allows(voter, at),
{
    let pruned = without_stale(l, now);
    assert forall|voter: NodeId, at: u64| at >= now implies #[trigger] fresh(pruned.window(voter), at)
        == fresh(l.window(voter), at) by {
        lemma_fresh_twice(l.window(voter), now, at);
        assert(fresh(Seq::<u64>::empty(), at) == Seq::<u64>::empty());
    }
}

/// Limiters that count the same go on to count the same.
pub proof fn lemma_same_counts_kept(a: LimiterView, b: LimiterView, from: u64, voter: NodeId, now: u64)
    requires
        same_counts(a, b, from),
        now >= from,
    ensures
        a.allows(voter, now) == b.allows(voter, now),
        same_counts(a.after(voter, now), b.after(voter, now), now),
{
    let a2 = a.after(voter, now);
    let b2 = b.after(voter, now);
    assert(fresh(a.window(voter), now) == fresh(b.window(voter), now));
    assert forall|other: NodeId, at: u64| at >= now implies #[trigger] fresh(a2.window(other), at)
        == fresh(b2.window(other), at) by {
        if other != voter {
            assert(a2.window(other) == a.window(other));
            assert(b2.window(other) == b.window(other));
        }
    }
}

/// No window ever holds more votes than are allowed within a second.
pub proof fn lemma_rate_bounded(l: LimiterView, voter: NodeId, now: u64, other: NodeId)
    requires
        forall|k: NodeId| #[trigger] l.windows.contains_key(k) ==> l.windows[k].len() <= l.max,
    ensures
        l.after(voter, now).window(other).len() <= l.max,
        other != voter ==> l.after(voter, now).window(other) == l.window(other),
{
    lemma_fresh(l.window(voter), now);
    if l.windows.contains_key(voter) {
        assert(l.windows[voter].len() <= l.max);
    }
    if l.windows.contains_key(other) {
        assert(l.windows[other].len() <= l.max);
    }
}

/// Drops the leading stale moments of a window.
fn drop_stale(window: &mut Vec<u64>, now: u64)
    ensures
        final(window)@ == fresh(old(window)@, now),
{
    let ghost before = window@;
    while window.len() > 0 && now > window[0] && now - window[0] > RATE_WINDOW_NANOS
        invariant
            fresh(before, now) == fresh(window@, now),
        decreases window.len(),
    {
        let ghost current = window@;
        let _stale: u64 = window.remove(0);
        assert(window@ =~= current.skip(1));
    }
}

impl vstd::view::View for VoteRateLimiter {
    type V = LimiterView;

    closed spec fn view(&self) -> LimiterView {
        LimiterView { windows: window_map(self.windows.map()), max: self.max_per_second }
    }
}

impl VoteRateLimiter {
    /// No validator is listed twice, and no window is over the limit.
    pub closed spec fn wf(self) -> bool {
        &&& self.windows.wf()
        &&& forall|k: NodeId| #[trigger]
            self.windows.map().contains_key(k) ==> self.windows.map()[k]@.len()
                <= self.max_per_second
    }

    /// A limiter that has seen no votes.
    pub fn new(max_per_second: usize) -> (r: Self)
        ensures
            r.wf(),
            r@ == (LimiterView { windows: Map::empty(), max: max_per_second }),
    {
        let r = VoteRateLimiter { windows: Table::new(), max_per_second, clock: Clock::start() };
        assert(window_map(r.windows.map()) =~= Map::empty());
        r
    }

    /// Counts a vote now, or refuses it.
    pub fn check_and_record(&mut self, voter: &NodeId) -> (r: Result<(), RateLimitError>)
        requires
            old(self).wf(),
        ensures
            final(self).wf(),
            exists|now: u64|
                {
                    &&& final(self)@ == #[trigger] old(self)@.after(*voter, now)
                    &&& r == (if old(self)@.allows(*voter, now) {
                        Ok::<(), RateLimitError>(())
                    } else {
                        Err(
                            RateLimitError::RateLimitExceeded {
                                votes_in_window: fresh(old(self)@.window(*voter), now).len() as usize,
                                max: old(self)@.max,
                            },
                        )
                    })
                },
    {
        let now: u64 = self.clock.now();
        self.check_and_record_at(voter, now)
    }

    /// Counts a vote at a moment, or refuses it.
    pub fn check_and_record_at(&mut self, voter: &NodeId, now: u64) -> (r: Result<(), RateLimitError>)
        requires
            old(self).wf(),
        ensures
            final(self).wf(),
            final(self)@ == old(self)@.after(*voter, now),
            r == (if old(self)@.allows(*voter, now) {
                Ok::<(), RateLimitError>(())
            } else {
                Err(
                    RateLimitError::RateLimitExceeded {
                        votes_in_window: fresh(old(self)@.window(*voter), now).len() as usize,
                        max: old(self)@.max,
                    },
                )
            }),
    {
        let ghost before = self.windows.map();
        let ghost kept = fresh(self@.window(*voter), now);
        proof {
            lemma_fresh(self@.window(*voter), now);
        }
        let i: usize = match self.windows.find(voter) {
            Some(i) => i,
            None => {
                let i = self.windows.len();
                self.windows.push_new(*voter, Vec::new());
                proof {
                    crate::table::lemma_row(self.windows.rows(), i as int);
                    assert(window_map(self.windows.map())[*voter] =~= Seq::<u64>::empty());
                }
                i
            },
        };
        let max: usize = self.max_per_second;
        let ghost mid = self.windows.map();
        let window = self.windows.value_mut(i);
        drop_stale(window, now);
        let count: usize = window.len();
        if count >= max {
            proof {
                assert(window_map(self.windows.map()) =~= window_map(before).insert(*voter, kept));
            }
            return Err(RateLimitError::RateLimitExceeded { votes_in_window: count, max });
        }
        window.push(now);
        proof {
            assert(window_map(self.windows.map()) =~= window_map(before).insert(
                *voter,
                kept.push(now),
            ));
        }
        Ok(())
    }

    /// Forgets validators that did not vote within the last second.
    pub fn prune_stale(&mut self)
        requires
            old(self).wf(),
        ensures
            final(self).wf(),
            exists|now: u64| final(self)@ == #[trigger] without_stale(old(self)@, now),
    {
        let now: u64 = self.clock.now();
        self.prune_stale_at(now);
    }

    /// Forgets validators that did not vote within the second before a moment.
    pub fn prune_stale_at(&mut self, now: u64)
        requires
            old(self).wf(),
        ensures
            final(self).wf(),
            final(self)@ == without_stale(old(self)@, now),
    {
        let ghost start = self.windows.map();
        let ghost rows = self.windows.rows();
        let max: usize = self.max_per_second;
        let mut i: usize = 0;
        let ghost mut done: int = 0;
        while i < self.windows.len()
            invariant
                self.windows.wf(),
                self.max_per_second == max,
                i <= self.windows.rows().len(),
                0 <= done <= rows.len(),
                crate::table::distinct_keys(rows),
                start == rows_map(rows),
                self.windows.rows().len() - i == rows.len() - done,
                forall|k: int|
                    i <= k < self.windows.rows().len() ==> #[trigger] self.windows.rows()[k] == rows[done
                        + k - i],
                forall|k: NodeId| #[trigger]
                    start.contains_key(k) ==> start[k]@.len() <= max,
                forall|k: NodeId| #[trigger]
                    self.windows.map().contains_key(k) ==> start.contains_key(k),
                forall|k: NodeId| #[trigger]
                    start.contains_key(k) ==> {
                        let kept = fresh(start[k]@, now);
                        if row_of(rows, k) < done {
                            if kept.len() > 0 {
                                self.windows.map().contains_key(k) && self.windows.map()[k]@ == kept
                            } else {
                                !self.windows.map().contains_key(k)
                            }
                        } else {
                            self.windows.map().contains_key(k) && self.windows.map()[k] == start[k]
                        }
                    },
            decreases rows.len() - done,
        {
            let ghost k0 = rows[done].0;
            proof {
                assert(self.windows.rows()[i as int] == rows[done]);
                crate::table::lemma_row(rows, done);
                crate::table::lemma_row(self.windows.rows(), i as int);
                assert forall|k: NodeId| #[trigger] start.contains_key(k) && k != k0 implies row_of(
                    rows,
                    k,
                ) != done by {
                    assert(has_key(rows, k));
                }
            }
            let ghost before = self.windows.rows();
            let window = self.windows.value_mut(i);
            drop_stale(window, now);
            let empty = window.len() == 0;
            assert(self.windows.map()[k0]@ == fresh(start[k0]@, now));
            if empty {
                let _row = self.windows.remove_at(i);
            } else {
                i = i + 1;
            }
            proof {
                done = done + 1;
            }
        }
        proof {
            assert forall|k: NodeId| #[trigger] start.contains_key(k) implies row_of(rows, k) < done by {
                assert(has_key(rows, k));
            }
            assert forall|k: NodeId| #[trigger] self.windows.map().contains_key(k) implies self.windows.map()[k]@.len()
                <= max by {
                lemma_fresh(start[k]@, now);
            }
            assert(window_map(self.windows.map()) =~= without_stale(old(self)@, now).windows);
        }
    }

    /// The number of moments in a validator's window.
    pub fn vote_count(&self, voter: &NodeId) -> (r: usize)
        requires
            self.wf(),
        ensures
            r == self@.window(*voter).len(),
    {
        match self.windows.get(voter) {
            Some(w) => w.len(),
            None => 0,
        }
    }
}

/// A limiter without stale moments and without empty windows.
pub open spec fn without_stale(l: LimiterView, now: u64) -> LimiterView {
    LimiterView {
        windows: Map::new(
            |k: NodeId| l.windows.contains_key(k) && fresh(l.windows[k], now).len() > 0,
            |k: NodeId| fresh(l.windows[k], now),
        ),
        ..l
    }
}

/// What votes are collected under: the view and the block.
#[derive(Clone, Copy)]
pub struct BallotKey {
    pub view: u64,
    pub block_hash: Hash32,
}

impl Key for BallotKey {
    fn same(&self, other: &Self) -> (r: bool) {
        self.view == other.view && hash_eq(&self.block_hash, &other.block_hash)
    }
}

impl ViewKey for BallotKey {
    open spec fn at(self) -> u64 {
        self.view
    }

    fn view_number(&self) -> (r: u64) {
        self.view
    }
}

/// Collects votes and forms a certificate once there are enough of them.
pub struct VoteAggregator {
    context: ConsensusContext,
    votes: Table<BallotKey, Vec<Vote>>,
    quorum: usize,
    use_bls: bool,
    skip_verification: bool,
    metrics: Option<ConsensusMetrics>,
    rate_limiter: VoteRateLimiter,
}

/// The contents of an aggregator. Votes are listed in the order in which they
/// came.
pub ghost struct AggregatorView {
    pub context: ConsensusContext,
    pub ballots: Map<BallotKey, Seq<VoteView>>,
    pub quorum: usize,
    pub use_bls: bool,
    pub skip_verification: bool,
    pub metrics: Option<MetricsView>,
    pub limiter: LimiterView,
}

/// The votes of a table of ballots.
pub open spec fn ballot_map(m: Map<BallotKey, Vec<Vote>>) -> Map<BallotKey, Seq<VoteView>> {
    Map::new(|k: BallotKey| m.contains_key(k), |k: BallotKey| vote_views(m[k]@))
}

/// A voter is among the votes.
pub open spec fn has_voted(votes: Seq<VoteView>, voter: NodeId) -> bool {
    exists|i: int| 0 <= i < votes.len() && (#[trigger] votes[i]).voter == voter
}

/// What a vote is collected under.
pub open spec fn ballot_key(vote: VoteView) -> BallotKey {
    BallotKey { view: vote.view, block_hash: vote.block_hash }
}

/// All votes carry a key and a signature of BLS length.
pub open spec fn all_bls(votes: Seq<VoteView>) -> bool {
    forall|i: int| 0 <= i < votes.len() ==> (#[trigger] votes[i]).is_bls()
}

/// All signatures decode.
pub open spec fn all_decode(votes: Seq<VoteView>) -> bool {
    forall|i: int| 0 <= i < votes.len() ==> bls_signature_decodes((#[trigger] votes[i]).signature)
}

/// The certificate that carries its votes, if they agree.
pub open spec fn plain_certificate(context: ConsensusContext, k: BallotKey, votes: Seq<VoteView>) -> Option<
    CertificateView,
> {
    if votes.len() > 0 && votes_agree(votes, context, k.view, k.block_hash) {
        Some(
            CertificateView {
                context,
                view: k.view,
                block_hash: k.block_hash,
                app_hash: Some(votes[0].app_hash),
                votes,
                voters: voters_of(votes),
                bls_pubkeys: Seq::empty(),
                agg_signature: Seq::empty(),
            },
        )
    } else {
        None
    }
}

/// The certificate of enough votes: an aggregate one if signatures are in use,
/// all votes carry one and they can be aggregated, or else one that carries
/// the votes.
pub open spec fn certificate_of(
    context: ConsensusContext,
    k: BallotKey,
    votes: Seq<VoteView>,
    use_bls: bool,
) -> Option<CertificateView> {
    if use_bls && all_bls(votes) && all_decode(votes) && bls_aggregate(signatures_of(votes)) is Some {
        if votes.len() > 0 && votes_agree(votes, context, k.view, k.block_hash) {
            Some(
                CertificateView {
                    context,
                    view: k.view,
                    block_hash: k.block_hash,
                    app_hash: Some(votes[0].app_hash),
                    votes: Seq::empty(),
                    voters: voters_of(votes),
                    bls_pubkeys: keys_of(votes),
                    agg_signature: bls_aggregate(signatures_of(votes))->Some_0,
                },
            )
        } else {
            None
        }
    } else {
        plain_certificate(context, k, votes)
    }
}

/// The counters after a certificate was attempted.
pub open spec fn metrics_after(m: Option<MetricsView>, votes: Seq<VoteView>, use_bls: bool) -> Option<
    MetricsView,
> {
    match m {
        None => None,
        Some(m) => if use_bls && all_bls(votes) && !all_decode(votes) {
            Some(m.with_parse_failure())
        } else if use_bls && all_bls(votes) && bls_aggregate(signatures_of(votes)) is None {
            Some(m.with_aggregation_failure())
        } else {
            Some(m)
        },
    }
}

impl AggregatorView {
    /// The votes collected for a block in a view.
    pub open spec fn ballot(self, k: BallotKey) -> Seq<VoteView> {
        if self.ballots.contains_key(k) {
            self.ballots[k]
        } else {
            Seq::empty()
        }
    }

    /// The signature of a vote is checked and found invalid.
    pub open spec fn rejects_signature(self, vote: VoteView) -> bool {
        self.use_bls && !self.skip_verification && vote.is_bls() && !bls_verifies(
            vote.bls_pubkey->Some_0,
            vote.message(),
            vote.signature,
        )
    }

    /// A vote is collected at a moment.
    pub open spec fn collects(self, vote: VoteView, now: u64) -> bool {
        &&& vote.context == self.context
        &&& self.limiter.allows(vote.voter, now)
        &&& !has_voted(self.ballot(ballot_key(vote)), vote.voter)
        &&& !self.rejects_signature(vote)
    }

    /// The votes for the block of a vote, with that vote.
    pub open spec fn votes_with(self, vote: VoteView) -> Seq<VoteView> {
        self.ballot(ballot_key(vote)).push(vote)
    }

    /// The aggregator after a vote came at a moment.
    pub open spec fn after(self, vote: VoteView, now: u64) -> AggregatorView {
        if vote.context != self.context {
            self
        } else if !self.limiter.allows(vote.voter, now) {
            AggregatorView {
                limiter: self.limiter.after(vote.voter, now),
                metrics: match self.metrics {
                    Some(m) => Some(m.with_rate_limited(vote.voter)),
                    None => None,
                },
                ..self
            }
        } else if has_voted(self.ballot(ballot_key(vote)), vote.voter) {
            AggregatorView { limiter: self.limiter.after(vote.voter, now), ..self }
        } else if self.rejects_signature(vote) {
            AggregatorView {
                limiter: self.limiter.after(vote.voter, now),
                metrics: match self.metrics {
                    Some(m) => Some(m.with_invalid_vote(vote.voter)),
                    None => None,
                },
                ..self
            }
        } else {
            AggregatorView {
                limiter: self.limiter.after(vote.voter, now),
                ballots: self.ballots.insert(ballot_key(vote), self.votes_with(vote)),
                metrics: if self.votes_with(vote).len() >= self.quorum {
                    metrics_after(self.metrics, self.votes_with(vote), self.use_bls)
                } else {
                    self.metrics
                },
                ..self
            }
        }
    }

    /// The certificate that a vote completes at a moment.
    pub open spec fn result(self, vote: VoteView, now: u64) -> Option<CertificateView> {
        if self.collects(vote, now) && self.votes_with(vote).len() >= self.quorum {
            certificate_of(self.context, ballot_key(vote), self.votes_with(vote), self.use_bls)
        } else {
            None
        }
    }
}

/// A certificate is formed from at least a quorum of votes, for the block and
/// the view of the vote that completed it.
pub proof fn lemma_certificate_needs_quorum(a: AggregatorView, vote: VoteView, now: u64)
    requires
        a.result(vote, now) is Some,
    ensures
        a.result(vote, now)->Some_0.voters.len() >= a.quorum,
        a.result(vote, now)->Some_0.block_hash == vote.block_hash,
        a.result(vote, now)->Some_0.view == vote.view,
        a.result(vote, now)->Some_0.context == a.context,
{
}

/// Each validator has at most one vote in a ballot.
pub proof fn lemma_one_vote_each(a: AggregatorView, vote: VoteView, now: u64, k: BallotKey)
    requires
        voters_of(a.ballot(k)).no_duplicates(),
    ensures
        voters_of(a.after(vote, now).ballot(k)).no_duplicates(),
{
    if a.collects(vote, now) && k == ballot_key(vote) {
        let b = a.ballot(k);
        let vs = voters_of(b.push(vote));
        assert(vs =~= voters_of(b).push(vote.voter));
        assert(!voters_of(b).contains(vote.voter)) by {
            if voters_of(b).contains(vote.voter) {
                let i = choose|i: int| 0 <= i < b.len() && voters_of(b)[i] == vote.voter;
                assert(b[i].voter == vote.voter);
            }
        }
    }
}

impl vstd::view::View for VoteAggregator {
    type V = AggregatorView;

    closed spec fn view(&self) -> AggregatorView {
        AggregatorView {
            context: self.context,
            ballots: ballot_map(self.votes.map()),
            quorum: self.quorum,
            use_bls: self.use_bls,
            skip_verification: self.skip_verification,
            metrics: match self.metrics {
                Some(m) => Some(m@),
                None => None,
            },
            limiter: self.rate_limiter@,
        }
    }
}

/// Whether a voter is among the votes.
pub(crate) fn find_voter(votes: &Vec<Vote>, voter: &NodeId) -> (r: bool)
    ensures
        r == has_voted(vote_views(votes@), *voter),
{
    let ghost vs = vote_views(votes@);
    let mut i: usize = 0;
    while i < votes.len()
        invariant
            i <= votes.len(),
            vs == vote_views(votes@),
            forall|k: int| 0 <= k < i ==> (#[trigger] vs[k]).voter != *voter,
        decreases votes.len() - i,
    {
        assert(vs[i as int] == votes[i as int]@);
        if hash_eq(&votes[i].voter, voter) {
            return true;
        }
        i = i + 1;
    }
    false
}

/// Whether all votes carry a key and a signature of BLS length.
fn check_all_bls(votes: &Vec<Vote>) -> (r: bool)
    ensures
        r == all_bls(vote_views(votes@)),
{
    let ghost vs = vote_views(votes@);
    let mut i: usize = 0;
    while i < votes.len()
        invariant
            i <= votes.len(),
            vs == vote_views(votes@),
            forall|k: int| 0 <= k < i ==> (#[trigger] vs[k]).is_bls(),
        decreases votes.len() - i,
    {
        assert(vs[i as int] == votes[i as int]@);
        if !votes[i].is_bls() {
            return false;
        }
        i = i + 1;
    }
    true
}

/// Whether all signatures decode.
fn check_all_decode(votes: &Vec<Vote>) -> (r: bool)
    ensures
        r == all_decode(vote_views(votes@)),
{
    let ghost vs = vote_views(votes@);
    let mut i: usize = 0;
    while i < votes.len()
        invariant
            i <= votes.len(),
            vs == vote_views(votes@),
            forall|k: int| 0 <= k < i ==> bls_signature_decodes((#[trigger] vs[k]).signature),
        decreases votes.len() - i,
    {
        assert(vs[i as int] == votes[i as int]@);
        if !signature_decodes(&votes[i].signature) {
            return false;
        }
        i = i + 1;
    }
    true
}

/// A certificate that carries its votes.
fn plain(context: ConsensusContext, k: BallotKey, votes: Vec<Vote>) -> (r: Option<Certificate>)
    ensures
        option_certificate(r) == plain_certificate(context, k, vote_views(votes@)),
{
    match Certificate::new(context, k.view, k.block_hash, votes) {
        Ok(c) => Some(c),
        Err(_) => None,
    }
}

impl VoteAggregator {
    /// The parts are well-formed.
    pub closed spec fn wf(self) -> bool {
        &&& self.votes.wf()
        &&& self.rate_limiter.wf()
        &&& self.metrics is Some ==> self.metrics->Some_0.wf()
    }

    /// An aggregator without a context of its own.
    pub fn new(quorum: usize, use_bls: bool) -> (r: Self)
        ensures
            r.wf(),
            r@ == empty_aggregator(no_context(), quorum, use_bls, false),
    {
        VoteAggregator::new_with_context(ConsensusContext::new(0, zeros()), quorum, use_bls)
    }

    /// An aggregator for the votes of a context.
    pub fn new_with_context(context: ConsensusContext, quorum: usize, use_bls: bool) -> (r: Self)
        ensures
            r.wf(),
            r@ == empty_aggregator(context, quorum, use_bls, false),
    {
        VoteAggregator::new_with_options_and_context(context, quorum, use_bls, false)
    }

    /// An aggregator that may take signatures on trust.
    pub fn new_with_options(quorum: usize, use_bls: bool, skip_verification: bool) -> (r: Self)
        ensures
            r.wf(),
            r@ == empty_aggregator(no_context(), quorum, use_bls, skip_verification),
    {
        VoteAggregator::new_with_options_and_context(
            ConsensusContext::new(0, zeros()),
            quorum,
            use_bls,
            skip_verification,
        )
    }

    /// An aggregator for the votes of a context that may take signatures on
    /// trust.
    pub fn new_with_options_and_context(
        context: ConsensusContext,
        quorum: usize,
        use_bls: bool,
        skip_verification: bool,
    ) -> (r: Self)
        ensures
            r.wf(),
            r@ == empty_aggregator(context, quorum, use_bls, skip_verification),
    {
        let r = VoteAggregator {
            context,
            votes: Table::new(),
            quorum,
            use_bls,
            skip_verification,
            metrics: None,
            rate_limiter: VoteRateLimiter::new(MAX_VOTES_PER_VALIDATOR_PER_SECOND),
        };
        assert(ballot_map(r.votes.map()) =~= Map::empty());
        r
    }

    /// Counts faults in the given counters.
    pub fn with_metrics(self, metrics: ConsensusMetrics) -> (r: Self)
        requires
            self.wf(),
            metrics.wf(),
        ensures
            r.wf(),
            r@ == (AggregatorView { metrics: Some(metrics@), ..self@ }),
    {
        let mut r = self;
        r.metrics = Some(metrics);
        r
    }

    /// The counters, if faults are counted.
    pub fn metrics(&self) -> (r: Option<&ConsensusMetrics>)
        requires
            self.wf(),
        ensures
            match r {
                Some(m) => self@.metrics == Some(m@) && m.wf(),
                None => self@.metrics is None,
            },
    {
        self.metrics.as_ref()
    }

    /// Takes a vote now, and returns the certificate that it completes.
    pub fn add_vote(&mut self, vote: Vote) -> (r: Option<Certificate>)
        requires
            old(self).wf(),
        ensures
            final(self).wf(),
            exists|now: u64|
                {
                    &&& final(self)@ == #[trigger] old(self)@.after(vote@, now)
                    &&& option_certificate(r) == old(self)@.result(vote@, now)
                },
    {
        let now: u64 = self.rate_limiter.clock.now();
        self.add_vote_at(vote, now)
    }

    /// Takes a vote at a moment, and returns the certificate that it completes.
    pub fn add_vote_at(&mut self, vote: Vote, now: u64) -> (r: Option<Certificate>)
        requires
            old(self).wf(),
        ensures
            final(self).wf(),
            final(self)@ == old(self)@.after(vote@, now),
            option_certificate(r) == old(self)@.result(vote@, now),
    {
        if vote.validate_context(self.context).is_err() {
            return None;
        }
        let k = BallotKey { view: vote.view, block_hash: vote.block_hash };
        let voter = vote.voter;
        let ghost view = vote@;
        let ghost ballots = self.votes.map();
        if self.rate_limiter.check_and_record_at(&voter, now).is_err() {
            if let Some(mut metrics) = self.metrics.take() {
                metrics.record_vote_rate_limited(&voter);
                self.metrics = Some(metrics);
            }
            return None;
        }
        let at: Option<usize> = self.votes.find(&k);
        if let Some(i) = at {
            if find_voter(self.votes.value_at(i), &voter) {
                return None;
            }
        }
        if self.use_bls && !self.skip_verification && vote.is_bls() {
            if !vote.verify_bls() {
                if let Some(mut metrics) = self.metrics.take() {
                    metrics.record_invalid_vote_signature(&voter);
                    self.metrics = Some(metrics);
                }
                return None;
            }
        }
        let ghost all = self@.votes_with(view);
        let i: usize = match at {
            Some(i) => {
                let list = self.votes.value_mut(i);
                list.push(vote);
                assert(vote_views(list@) =~= all);
                i
            },
            None => {
                let i = self.votes.len();
                let mut list: Vec<Vote> = Vec::new();
                list.push(vote);
                assert(vote_views(list@) =~= all);
                self.votes.push_new(k, list);
                i
            },
        };
        proof {
            crate::table::lemma_row(self.votes.rows(), i as int);
            assert(vote_views(self.votes.rows()[i as int].1@) == all);
            assert(ballot_map(self.votes.map()) =~= ballot_map(ballots).insert(k, all));
        }
        if self.votes.value_at(i).len() >= self.quorum {
            let votes = copy_votes(self.votes.value_at(i));
            if self.use_bls && check_all_bls(&votes) {
                self.aggregate_bls(k, votes)
            } else {
                plain(self.context, k, votes)
            }
        } else {
            None
        }
    }

    /// Aggregates the signatures of votes that all carry one.
    fn aggregate_bls(&mut self, k: BallotKey, votes: Vec<Vote>) -> (r: Option<Certificate>)
        requires
            old(self).wf(),
            all_bls(vote_views(votes@)),
            old(self)@.use_bls,
        ensures
            final(self).wf(),
            option_certificate(r) == certificate_of(
                old(self)@.context,
                k,
                vote_views(votes@),
                true,
            ),
            final(self)@ == (AggregatorView {
                metrics: metrics_after(old(self)@.metrics, vote_views(votes@), true),
                ..old(self)@
            }),
    {
        if !check_all_decode(&votes) {
            if let Some(mut metrics) = self.metrics.take() {
                metrics.record_signature_parse_failure();
                self.metrics = Some(metrics);
            }
            return plain(self.context, k, votes);
        }
        let signatures = collect_signatures(&votes);
        match aggregate_signatures(&signatures) {
            Some(aggregate) => {
                assert(votes_keyed(vote_views(votes@)));
                match Certificate::new_bls(self.context, k.view, k.block_hash, votes, aggregate) {
                    Ok(c) => Some(c),
                    Err(_) => None,
                }
            },
            None => {
                if let Some(mut metrics) = self.metrics.take() {
                    metrics.record_aggregation_failure();
                    self.metrics = Some(metrics);
                }
                plain(self.context, k, votes)
            },
        }
    }

    /// The number of votes for a block in a view.
    pub fn vote_count(&self, view: u64, block_hash: &Hash32) -> (r: usize)
        requires
            self.wf(),
        ensures
            r == self@.ballot(BallotKey { view, block_hash: *block_hash }).len(),
    {
        match self.votes.get(&BallotKey { view, block_hash: *block_hash }) {
            Some(list) => list.len(),
            None => 0,
        }
    }

    /// The votes for a block in a view.
    pub fn get_votes(&self, view: u64, block_hash: &Hash32) -> (r: Vec<Vote>)
        requires
            self.wf(),
        ensures
            vote_views(r@) == self@.ballot(BallotKey { view, block_hash: *block_hash }),
    {
        match self.votes.get(&BallotKey { view, block_hash: *block_hash }) {
            Some(list) => copy_votes(list),
            None => {
                let r: Vec<Vote> = Vec::new();
                assert(vote_views(r@) =~= Seq::empty());
                r
            },
        }
    }

    /// Hands out the votes for a block in a view and forgets them.
    pub fn take_votes(&mut self, view: u64, block_hash: &Hash32) -> (r: Vec<Vote>)
        requires
            old(self).wf(),
        ensures
            final(self).wf(),
            vote_views(r@) == old(self)@.ballot(BallotKey { view, block_hash: *block_hash }),
            final(self)@ == (AggregatorView {
                ballots: old(self)@.ballots.remove(BallotKey { view, block_hash: *block_hash }),
                ..old(self)@
            }),
    {
        let k = BallotKey { view, block_hash: *block_hash };
        let ghost before = self.votes.map();
        let taken = self.votes.remove(&k);
        assert(ballot_map(before.remove(k)) =~= ballot_map(before).remove(k));
        match taken {
            Some(list) => list,
            None => {
                let r: Vec<Vote> = Vec::new();
                assert(vote_views(r@) =~= Seq::empty());
                r
            },
        }
    }

    /// Forgets votes in views below the given one.
    pub fn prune_below(&mut self, view: u64)
        requires
            old(self).wf(),
        ensures
            final(self).wf(),
            final(self)@ == (AggregatorView {
                ballots: old(self)@.ballots.restrict(Set::new(keys_from::<BallotKey>(view))),
                ..old(self)@
            }),
    {
        let ghost before = self.votes.map();
        self.votes.retain_from(view);
        assert(ballot_map(before.restrict(Set::new(keys_from::<BallotKey>(view)))) =~= ballot_map(
            before,
        ).restrict(Set::new(keys_from::<BallotKey>(view))));
    }

    /// Forgets all votes.
    pub fn clear(&mut self)
        requires
            old(self).wf(),
        ensures
            final(self).wf(),
            final(self)@ == (AggregatorView { ballots: Map::empty(), ..old(self)@ }),
    {
        self.votes.clear();
        assert(ballot_map(self.votes.map()) =~= Map::empty());
    }

    /// Whether signatures are in use.
    pub fn is_bls_enabled(&self) -> (r: bool)
        ensures
            r == self@.use_bls,
    {
        self.use_bls
    }
}

/// The context of messages that name no committee.
pub open spec fn no_context() -> ConsensusContext {
    ConsensusContext { epoch: 0, committee_hash: zero_hash(), genesis_hash: zero_hash() }
}

/// An aggregator that has seen no votes.
pub open spec fn empty_aggregator(
    context: ConsensusContext,
    quorum: usize,
    use_bls: bool,
    skip_verification: bool,
) -> AggregatorView {
    AggregatorView {
        context,
        ballots: Map::empty(),
        quorum,
        use_bls,
        skip_verification,
        metrics: None,
        limiter: LimiterView {
            windows: Map::empty(),
            max: MAX_VOTES_PER_VALIDATOR_PER_SECOND,
        },
    }
}

/// A validator may vote exactly as long as fewer votes than the limit were taken
/// from it in the last second; a vote that is taken counts from then on, one that
/// is not does not, and nobody else is affected.
pub proof fn lemma_rate_is_per_second(l: LimiterView, voter: NodeId, now: u64, other: NodeId)
    requires
        ordered_until(l, now),
    ensures
        ({
            let last_second = l.window(voter).filter(|then: u64| now - then <= 1_000_000_000);
            &&& l.allows(voter, now) <==> last_second.len() < l.max
            &&& l.allows(voter, now) ==> l.after(voter, now).window(voter) == last_second.push(now)
            &&& !l.allows(voter, now) ==> l.after(voter, now).window(voter) == last_second
            &&& other != voter ==> l.after(voter, now).window(other) == l.window(other)
            &&& l.after(voter, now).max == l.max
        }),
{
    let window = l.window(voter);
    let keep = |then: u64| now - then <= 1_000_000_000;
    if l.windows.contains_key(voter) {
        assert(in_order(l.windows[voter]));
    }
    assert(in_order(window));
    assert forall|i: int| 0 <= i < window.len() implies window[i] <= now by {
        assert(l.windows.contains_key(voter));
        assert(l.windows[voter][i] <= now);
    }
    lemma_fresh_is_recent(window, now);
    lemma_same_filter(window, |then: u64| !is_stale(then, now), keep);
}

/// Two tests that agree on all moments of a list keep the same ones.
proof fn lemma_same_filter(window: Seq<u64>, p: spec_fn(u64) -> bool, q: spec_fn(u64) -> bool)
    requires
        forall|i: int| 0 <= i < window.len() ==> p(#[trigger] window[i]) == q(window[i]),
    ensures
        window.filter(p) == window.filter(q),
    decreases window.len(),
{
    reveal(Seq::filter);
    if window.len() > 0 {
        let front = window.drop_last();
        assert forall|i: int| 0 <= i < front.len() implies p(#[trigger] front[i]) == q(front[i]) by {
            assert(front[i] == window[i]);
        }
        lemma_same_filter(front, p, q);
        assert(p(window[window.len() - 1]) == q(window[window.len() - 1]));
    }
}

/// An aggregator starts without votes and takes at most ten a second from each
/// validator.
pub proof fn lemma_aggregator_starts_empty(
    context: ConsensusContext,
    quorum: usize,
    use_bls: bool,
    skip_verification: bool,
    k: BallotKey,
)
    ensures
        ({
            let a = empty_aggregator(context, quorum, use_bls, skip_verification);
            &&& a.ballot(k).len() == 0
            &&& a.quorum == quorum
            &&& a.context == context
            &&& a.use_bls == use_bls
            &&& a.skip_verification == skip_verification
            &&& a.limiter.max == 10
        }),
{
}

/// A vote is taken exactly if it is of the context, within the rate, the first of
/// its voter for that block and view, and, where signatures are checked and it
/// carries one, verifies under the key that it carries. It then comes last among
/// the votes for its block and view, and no other votes change.
pub proof fn lemma_vote_taken(a: AggregatorView, vote: VoteView, now: u64, k: BallotKey)
    ensures
        ({
            let own = BallotKey { view: vote.view, block_hash: vote.block_hash };
            let after = a.after(vote, now);
            let taken = {
                &&& vote.context == a.context
                &&& a.limiter.allows(vote.voter, now)
                &&& forall|i: int|
                    0 <= i < a.ballot(own).len() ==> (#[trigger] a.ballot(own)[i]).voter != vote.voter
                &&& a.use_bls && !a.skip_verification && vote.signature.len() == 96 && (
                vote.bls_pubkey is Some) ==> bls_verifies(
                    vote.bls_pubkey->Some_0,
                    vote.message(),
                    vote.signature,
                )
            };
            &&& a.collects(vote, now) <==> taken
            &&& taken ==> after.ballot(own) == a.ballot(own).push(vote)
            &&& !taken ==> after.ballots == a.ballots
            &&& k != own ==> after.ballot(k) == a.ballot(k)
            &&& vote.context != a.context ==> after == a
            &&& vote.context == a.context ==> after.limiter == a.limiter.after(vote.voter, now)
            &&& after.quorum == a.quorum
            &&& after.context == a.context
        }),
{
}

/// A certificate comes with exactly the vote that completes a quorum of votes that
/// agree. It is for their block, view and application state, lists their voters
/// in order, and carries the votes or, where all are signed and signatures are
/// used, the aggregate of their signatures with their keys.
pub proof fn lemma_quorum_makes_certificate(a: AggregatorView, vote: VoteView, now: u64)
    ensures
        ({
            let votes = a.ballot(BallotKey { view: vote.view, block_hash: vote.block_hash }).push(
                vote,
            );
            let aggregates = a.use_bls && (forall|i: int|
                0 <= i < votes.len() ==> (#[trigger] votes[i]).bls_pubkey is Some
                    && votes[i].signature.len() == 96 && bls_signature_decodes(votes[i].signature))
                && bls_aggregate(signatures_of(votes)) is Some;
            &&& a.result(vote, now) is Some <==> {
                &&& a.collects(vote, now)
                &&& votes.len() >= a.quorum
                &&& votes_agree(votes, a.context, vote.view, vote.block_hash)
            }
            &&& a.result(vote, now) matches Some(c) ==> {
                &&& c.context == a.context
                &&& c.view == vote.view
                &&& c.block_hash == vote.block_hash
                &&& c.app_hash == Some(vote.app_hash)
                &&& c.voters == voters_of(votes)
                &&& aggregates ==> c.votes.len() == 0 && c.bls_pubkeys == keys_of(votes)
                    && Some(c.agg_signature) == bls_aggregate(signatures_of(votes))
                &&& !aggregates ==> c.votes == votes && c.agg_signature.len() == 0
                    && c.bls_pubkeys.len() == 0
            }
        }),
{
    let votes = a.votes_with(vote);
    assert(votes[votes.len() - 1] == vote);
    let both = forall|i: int|
        0 <= i < votes.len() ==> (#[trigger] votes[i]).bls_pubkey is Some
            && votes[i].signature.len() == 96 && bls_signature_decodes(votes[i].signature);
    if both {
        assert(all_bls(votes));
        assert(all_decode(votes));
    }
    if all_bls(votes) && all_decode(votes) {
        assert forall|i: int| 0 <= i < votes.len() implies (#[trigger] votes[i]).bls_pubkey is Some
            && votes[i].signature.len() == 96 && bls_signature_decodes(votes[i].signature) by {
            assert(votes[i].is_bls());
        }
    }
    if votes_agree(votes, a.context, vote.view, vote.block_hash) {
        assert(votes[votes.len() - 1].app_hash == votes[0].app_hash);
    }
}

/// What votes that reach a quorum add to the metrics: a failure to decode where all are
/// signed and one does not decode, a failure to aggregate where all decode and cannot be
/// put together, and else nothing.
pub proof fn lemma_failures_counted(m: MetricsView, votes: Seq<VoteView>, use_bls: bool)
    ensures
        metrics_after(None, votes, use_bls) is None,
        !use_bls ==> metrics_after(Some(m), votes, use_bls) == Some(m),
        use_bls && all_bls(votes) && !all_decode(votes) ==> metrics_after(Some(m), votes, use_bls)
            == Some(m.with_parse_failure()),
        use_bls && all_bls(votes) && all_decode(votes) && bls_aggregate(signatures_of(votes)) is None
            ==> metrics_after(Some(m), votes, use_bls) == Some(m.with_aggregation_failure()),
        use_bls && all_bls(votes) && all_decode(votes) && bls_aggregate(signatures_of(votes)) is Some
            ==> metrics_after(Some(m), votes, use_bls) == Some(m),
{
}

/// A vote over the rate is counted as such against its voter, and one with a bad signature
/// as that; no other vote is counted against anybody.
pub proof fn lemma_offences_counted(a: AggregatorView, vote: VoteView, now: u64)
    requires
        vote.context == a.context,
        a.metrics is Some,
    ensures
        ({
            let m = a.metrics->Some_0;
            let after = a.after(vote, now).metrics->Some_0;
            &&& a.after(vote, now).metrics is Some
            &&& !a.limiter.allows(vote.voter, now) ==> after == m.with_rate_limited(vote.voter)
            &&& a.limiter.allows(vote.voter, now) && !has_voted(
                a.ballot(ballot_key(vote)),
                vote.voter,
            ) && a.rejects_signature(vote) ==> after == m.with_invalid_vote(vote.voter)
            &&& a.limiter.allows(vote.voter, now) && has_voted(
                a.ballot(ballot_key(vote)),
                vote.voter,
            ) ==> after == m
            &&& a.collects(vote, now) && a.ballot(ballot_key(vote)).len() + 1 < a.quorum ==> after == m
        }),
{
}

/// Pruning forgets a validator exactly if it has not voted lately, and of the others only
/// the stale moments at the start.
pub proof fn lemma_stale_forgotten(l: LimiterView, now: u64, voter: NodeId)
    ensures
        without_stale(l, now).windows.contains_key(voter) <==> l.windows.contains_key(voter) && fresh(
            l.windows[voter],
            now,
        ).len() > 0,
        without_stale(l, now).window(voter) == fresh(l.window(voter), now),
        without_stale(l, now).max == l.max,
        is_stale(0, now) <==> now > 1_000_000_000,
{
    assert(fresh(Seq::<u64>::empty(), now) == Seq::<u64>::empty());
    if l.windows.contains_key(voter) && fresh(l.windows[voter], now).len() == 0 {
        assert(fresh(l.windows[voter], now) =~= Seq::<u64>::empty());
    }
}

/// The votes of a view or later are those for blocks of that view or a later one.
pub proof fn lemma_ballots_from(view: u64, k: BallotKey)
    ensures
        crate::table::keys_from::<BallotKey>(view)(k) <==> k.view >= view,
{
}

} // verus!
