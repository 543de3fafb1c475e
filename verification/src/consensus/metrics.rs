//! Counters of faults that were observed.

use vstd::prelude::*;

use crate::bytes::NodeId;
use crate::table::{distinct_keys, rows_map, Table};

verus! {

/// Counts faults, and for each validator the faults that it is suspected of.
pub struct ConsensusMetrics {
    invalid_vote_signatures: u64,
    invalid_timeout_signatures: u64,
    unknown_validators: u64,
    signature_parse_failures: u64,
    aggregation_failures: u64,
    rate_limited_votes: u64,
    byzantine_suspicions: Table<NodeId, u64>,
}

/// The contents of the counters.
pub ghost struct MetricsView {
    pub invalid_vote_signatures: u64,
    pub invalid_timeout_signatures: u64,
    pub unknown_validators: u64,
    pub signature_parse_failures: u64,
    pub aggregation_failures: u64,
    pub rate_limited_votes: u64,
    pub suspicions: Map<NodeId, u64>,
}

/// A counter after one more event; counters start over after the largest
/// 64-bit number.
pub open spec fn next_count(n: u64) -> u64 {
    if n == u64::MAX {
        0
    } else {
        (n + 1) as u64
    }
}

/// Counters at zero.
pub open spec fn no_metrics() -> MetricsView {
    MetricsView {
        invalid_vote_signatures: 0,
        invalid_timeout_signatures: 0,
        unknown_validators: 0,
        signature_parse_failures: 0,
        aggregation_failures: 0,
        rate_limited_votes: 0,
        suspicions: Map::empty(),
    }
}

impl MetricsView {
    /// The faults that a validator is suspected of.
    pub open spec fn suspicion(self, id: NodeId) -> u64 {
        if self.suspicions.contains_key(id) {
            self.suspicions[id]
        } else {
            0
        }
    }

    /// The counters after a validator was suspected once more.
    pub open spec fn suspecting(self, id: NodeId) -> MetricsView {
        MetricsView {
            suspicions: self.suspicions.insert(id, next_count(self.suspicion(id))),
            ..self
        }
    }

    /// The counters after an invalid vote signature.
    pub open spec fn with_invalid_vote(self, id: NodeId) -> MetricsView {
        MetricsView {
            invalid_vote_signatures: next_count(self.invalid_vote_signatures),
            ..self.suspecting(id)
        }
    }

    /// The counters after an invalid timeout signature.
    pub open spec fn with_invalid_timeout(self, id: NodeId) -> MetricsView {
        MetricsView {
            invalid_timeout_signatures: next_count(self.invalid_timeout_signatures),
            ..self.suspecting(id)
        }
    }

    /// The counters after a message from an unknown validator.
    pub open spec fn with_unknown(self) -> MetricsView {
        MetricsView { unknown_validators: next_count(self.unknown_validators), ..self }
    }

    /// The counters after a signature that does not decode.
    pub open spec fn with_parse_failure(self) -> MetricsView {
        MetricsView { signature_parse_failures: next_count(self.signature_parse_failures), ..self }
    }

    /// The counters after a failed aggregation.
    pub open spec fn with_aggregation_failure(self) -> MetricsView {
        MetricsView { aggregation_failures: next_count(self.aggregation_failures), ..self }
    }

    /// The counters after a vote above the rate limit.
    pub open spec fn with_rate_limited(self, id: NodeId) -> MetricsView {
        MetricsView {
            rate_limited_votes: next_count(self.rate_limited_votes),
            ..self.suspecting(id)
        }
    }
}

/// Counter values at one moment.
#[derive(Clone, Copy, Debug, PartialEq, Eq)]
pub struct MetricsSummary {
    pub invalid_vote_signatures: u64,
    pub invalid_timeout_signatures: u64,
    pub unknown_validators: u64,
    pub signature_parse_failures: u64,
    pub aggregation_failures: u64,
    pub rate_limited_votes: u64,
    pub suspicious_validators: usize,
}

impl vstd::view::View for ConsensusMetrics {
    type V = MetricsView;

    closed spec fn view(&self) -> MetricsView {
        MetricsView {
            invalid_vote_signatures: self.invalid_vote_signatures,
            invalid_timeout_signatures: self.invalid_timeout_signatures,
            unknown_validators: self.unknown_validators,
            signature_parse_failures: self.signature_parse_failures,
            aggregation_failures: self.aggregation_failures,
            rate_limited_votes: self.rate_limited_votes,
            suspicions: self.byzantine_suspicions.map(),
        }
    }
}

/// A counter after one more event.
fn count_up(n: u64) -> (r: u64)
    ensures
        r == next_count(n),
{
    if n == u64::MAX {
        0
    } else {
        n + 1
    }
}

impl ConsensusMetrics {
    /// No validator is listed twice.
    pub closed spec fn wf(self) -> bool {
        self.byzantine_suspicions.wf()
    }

    /// Counters at zero.
    pub fn new() -> (r: Self)
        ensures
            r.wf(),
            r@ == no_metrics(),
    {
        ConsensusMetrics {
            invalid_vote_signatures: 0,
            invalid_timeout_signatures: 0,
            unknown_validators: 0,
            signature_parse_failures: 0,
            aggregation_failures: 0,
            rate_limited_votes: 0,
            byzantine_suspicions: Table::new(),
        }
    }

    /// Records a vote with an invalid signature.
    pub fn record_invalid_vote_signature(&mut self, voter: &NodeId)
        requires
            old(self).wf(),
        ensures
            final(self).wf(),
            final(self)@ == old(self)@.with_invalid_vote(*voter),
    {
        self.invalid_vote_signatures = count_up(self.invalid_vote_signatures);
        self.increment_byzantine_suspicion(voter);
    }

    /// Records a timeout with an invalid signature.
    pub fn record_invalid_timeout_signature(&mut self, sender: &NodeId)
        requires
            old(self).wf(),
        ensures
            final(self).wf(),
            final(self)@ == old(self)@.with_invalid_timeout(*sender),
    {
        self.invalid_timeout_signatures = count_up(self.invalid_timeout_signatures);
        self.increment_byzantine_suspicion(sender);
    }

    /// Records a message from an unknown validator.
    pub fn record_unknown_validator(&mut self, _node_id: &NodeId)
        requires
            old(self).wf(),
        ensures
            final(self).wf(),
            final(self)@ == old(self)@.with_unknown(),
    {
        self.unknown_validators = count_up(self.unknown_validators);
    }

    /// Records a signature that does not decode.
    pub fn record_signature_parse_failure(&mut self)
        requires
            old(self).wf(),
        ensures
            final(self).wf(),
            final(self)@ == old(self)@.with_parse_failure(),
    {
        self.signature_parse_failures = count_up(self.signature_parse_failures);
    }

    /// Records a failed aggregation.
    pub fn record_aggregation_failure(&mut self)
        requires
            old(self).wf(),
        ensures
            final(self).wf(),
            final(self)@ == old(self)@.with_aggregation_failure(),
    {
        self.aggregation_failures = count_up(self.aggregation_failures);
    }

    /// Records a vote above the rate limit.
    pub fn record_vote_rate_limited(&mut self, voter: &NodeId)
        requires
            old(self).wf(),
        ensures
            final(self).wf(),
            final(self)@ == old(self)@.with_rate_limited(*voter),
    {
        self.rate_limited_votes = count_up(self.rate_limited_votes);
        self.increment_byzantine_suspicion(voter);
    }

    fn increment_byzantine_suspicion(&mut self, node_id: &NodeId)
        requires
            old(self).wf(),
        ensures
            final(self).wf(),
            final(self)@ == old(self)@.suspecting(*node_id),
    {
        let count: u64 = match self.byzantine_suspicions.get(node_id) {
            Some(n) => *n,
            None => 0,
        };
        self.byzantine_suspicions.put(*node_id, count_up(count));
    }

    /// The counter values.
    pub fn summary(&self) -> (r: MetricsSummary)
        requires
            self.wf(),
        ensures
            r == (MetricsSummary {
                invalid_vote_signatures: self@.invalid_vote_signatures,
                invalid_timeout_signatures: self@.invalid_timeout_signatures,
                unknown_validators: self@.unknown_validators,
                signature_parse_failures: self@.signature_parse_failures,
                aggregation_failures: self@.aggregation_failures,
                rate_limited_votes: self@.rate_limited_votes,
                suspicious_validators: r.suspicious_validators,
            }),
            r.suspicious_validators == self@.suspicions.dom().len(),
    {
        proof {
            crate::table::lemma_rows_len(self.byzantine_suspicions.rows());
        }
        MetricsSummary {
            invalid_vote_signatures: self.invalid_vote_signatures,
            invalid_timeout_signatures: self.invalid_timeout_signatures,
            unknown_validators: self.unknown_validators,
            signature_parse_failures: self.signature_parse_failures,
            aggregation_failures: self.aggregation_failures,
            rate_limited_votes: self.rate_limited_votes,
            suspicious_validators: self.byzantine_suspicions.len(),
        }
    }

    /// The suspected validators with the number of their faults.
    pub fn get_suspicious_validators(&self) -> (r: Vec<(NodeId, u64)>)
        requires
            self.wf(),
        ensures
            distinct_keys(r@),
            rows_map(r@) == self@.suspicions,
    {
        let mut r: Vec<(NodeId, u64)> = Vec::new();
        let mut i: usize = 0;
        while i < self.byzantine_suspicions.len()
            invariant
                i <= self.byzantine_suspicions.rows().len(),
                r@ == self.byzantine_suspicions.rows().take(i as int),
            decreases self.byzantine_suspicions.rows().len() - i,
        {
            r.push((self.byzantine_suspicions.key_at(i), *self.byzantine_suspicions.value_at(i)));
            i = i + 1;
            assert(r@ =~= self.byzantine_suspicions.rows().take(i as int));
        }
        assert(r@ =~= self.byzantine_suspicions.rows());
        r
    }

    /// Whether a validator is suspected of at least so many faults.
    pub fn is_highly_suspicious(&self, node_id: &NodeId, threshold: u64) -> (r: bool)
        requires
            self.wf(),
        ensures
            r == (self@.suspicion(*node_id) >= threshold),
    {
        match self.byzantine_suspicions.get(node_id) {
            Some(n) => *n >= threshold,
            None => 0 >= threshold,
        }
    }

    /// Sets all counters to zero.
    pub fn reset(&mut self)
        ensures
            final(self).wf(),
            final(self)@ == no_metrics(),
    {
        self.invalid_vote_signatures = 0;
        self.invalid_timeout_signatures = 0;
        self.unknown_validators = 0;
        self.signature_parse_failures = 0;
        self.aggregation_failures = 0;
        self.rate_limited_votes = 0;
        self.byzantine_suspicions.clear();
    }
}

impl Default for ConsensusMetrics {
    fn default() -> (r: Self)
        ensures
            r.wf(),
            r@ == no_metrics(),
    {
        ConsensusMetrics::new()
    }
}

impl MetricsSummary {
    /// Whether invalid signatures or suspected validators were counted.
    pub fn has_byzantine_activity(&self) -> (r: bool)
        ensures
            r == (self.invalid_vote_signatures > 0 || self.invalid_timeout_signatures > 0
                || self.suspicious_validators > 0),
    {
        self.invalid_vote_signatures > 0 || self.invalid_timeout_signatures > 0
            || self.suspicious_validators > 0
    }

    /// The number of signatures that failed.
    pub fn total_signature_failures(&self) -> (r: u64)
        requires
            self.invalid_vote_signatures + self.invalid_timeout_signatures
                + self.signature_parse_failures <= u64::MAX,
        ensures
            r == self.invalid_vote_signatures + self.invalid_timeout_signatures
                + self.signature_parse_failures,
    {
        self.invalid_vote_signatures + self.invalid_timeout_signatures + self.signature_parse_failures
    }
}

/// Each event is counted once, under its own name; an event that a validator is
/// answerable for also makes that validator more suspect by one, and no other.
pub proof fn lemma_events_counted(m: MetricsView, id: NodeId, other: NodeId)
    requires
        m.invalid_vote_signatures < u64::MAX,
        m.invalid_timeout_signatures < u64::MAX,
        m.unknown_validators < u64::MAX,
        m.signature_parse_failures < u64::MAX,
        m.aggregation_failures < u64::MAX,
        m.rate_limited_votes < u64::MAX,
        m.suspicion(id) < u64::MAX,
    ensures
        ({
            let a = m.with_invalid_vote(id);
            let b = m.with_invalid_timeout(id);
            let c = m.with_rate_limited(id);
            &&& a == (MetricsView {
                invalid_vote_signatures: (m.invalid_vote_signatures + 1) as u64,
                suspicions: a.suspicions,
                ..m
            })
            &&& b == (MetricsView {
                invalid_timeout_signatures: (m.invalid_timeout_signatures + 1) as u64,
                suspicions: b.suspicions,
                ..m
            })
            &&& c == (MetricsView {
                rate_limited_votes: (m.rate_limited_votes + 1) as u64,
                suspicions: c.suspicions,
                ..m
            })
            &&& a.suspicion(id) == m.suspicion(id) + 1
            &&& b.suspicion(id) == m.suspicion(id) + 1
            &&& c.suspicion(id) == m.suspicion(id) + 1
            &&& other != id ==> a.suspicion(other) == m.suspicion(other) && b.suspicion(other)
                == m.suspicion(other) && c.suspicion(other) == m.suspicion(other)
        }),
        m.with_unknown() == (MetricsView {
            unknown_validators: (m.unknown_validators + 1) as u64,
            ..m
        }),
        m.with_parse_failure() == (MetricsView {
            signature_parse_failures: (m.signature_parse_failures + 1) as u64,
            ..m
        }),
        m.with_aggregation_failure() == (MetricsView {
            aggregation_failures: (m.aggregation_failures + 1) as u64,
            ..m
        }),
        no_metrics().suspicion(id) == 0,
{
}

} // verus!
