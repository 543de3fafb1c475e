//! The texts of errors.

use vstd::prelude::*;

use crate::bytes::Hash32;
use crate::consensus::aggregator::RateLimitError;
use crate::consensus::safety::SafetyError;
use crate::consensus::store::StoreError;
use crate::consensus::timeout::TimeoutError;
use crate::text::{bytes_text, decimal, hex_encode, hex_text, put_decimal, put_hash_text};
use crate::types::context::ConsensusContext;

verus! {

/// The text of a context: its fields in braces.
pub open spec fn context_text(c: ConsensusContext) -> Seq<char> {
    "ConsensusContext { epoch: "@ + decimal(c.epoch as nat) + ", committee_hash: "@ + bytes_text(
        c.committee_hash@,
    ) + ", genesis_hash: "@ + bytes_text(c.genesis_hash@) + " }"@
}

/// Adds the text of a context to a text.
fn put_context(out: &mut String, c: &ConsensusContext)
    ensures
        final(out)@ == old(out)@ + context_text(*c),
{
    let ghost before = out@;
    out.append("ConsensusContext { epoch: ");
    put_decimal(out, c.epoch);
    out.append(", committee_hash: ");
    put_hash_text(out, &c.committee_hash);
    out.append(", genesis_hash: ");
    put_hash_text(out, &c.genesis_hash);
    out.append(" }");
    assert(out@ =~= before + context_text(*c));
}

/// The text of a refusal by the voting rules.
pub open spec fn safety_text(e: SafetyError) -> Seq<char> {
    match e {
        SafetyError::AlreadyVoted(view) => "already voted in view "@ + decimal(view as nat),
        SafetyError::DoesNotExtendHighQC { block_parent, high_qc_hash } => "block parent "@
            + bytes_text(block_parent@) + " doesn't extend high_qc "@ + bytes_text(high_qc_hash@),
        SafetyError::ViolatesLocking { block_view, locked_view } => "block view "@ + decimal(
            block_view as nat,
        ) + " violates locking at view "@ + decimal(locked_view as nat),
        SafetyError::AppHashMismatch { expected, got } => "app_hash mismatch: expected "@
            + bytes_text(expected@) + ", got "@ + bytes_text(got@),
        SafetyError::ContextMismatch { expected, got } => {
            "consensus context mismatch: expected "@ + context_text(expected) + ", got "@
                + context_text(got)
        },
        SafetyError::InconsistentContext => {
            "safety state contains certificates from inconsistent consensus contexts"@
        },
    }
}

impl SafetyError {
    /// The text of the error.
    pub fn to_string(&self) -> (r: String)
        ensures
            r@ == safety_text(*self),
    {
        match self {
            SafetyError::AlreadyVoted(view) => {
                let mut out = "already voted in view ".to_string();
                put_decimal(&mut out, *view);
                out
            },
            SafetyError::DoesNotExtendHighQC { block_parent, high_qc_hash } => {
                let mut out = "block parent ".to_string();
                put_hash_text(&mut out, block_parent);
                out.append(" doesn't extend high_qc ");
                put_hash_text(&mut out, high_qc_hash);
                out
            },
            SafetyError::ViolatesLocking { block_view, locked_view } => {
                let mut out = "block view ".to_string();
                put_decimal(&mut out, *block_view);
                out.append(" violates locking at view ");
                put_decimal(&mut out, *locked_view);
                out
            },
            SafetyError::AppHashMismatch { expected, got } => {
                let mut out = "app_hash mismatch: expected ".to_string();
                put_hash_text(&mut out, expected);
                out.append(", got ");
                put_hash_text(&mut out, got);
                out
            },
            SafetyError::ContextMismatch { expected, got } => {
                let mut out = "consensus context mismatch: expected ".to_string();
                put_context(&mut out, expected);
                out.append(", got ");
                put_context(&mut out, got);
                out
            },
            SafetyError::InconsistentContext => {
                "safety state contains certificates from inconsistent consensus contexts".to_string()
            },
        }
    }
}

impl RateLimitError {
    /// The text of the error.
    pub fn to_string(&self) -> (r: String)
        ensures
            ({
                let RateLimitError::RateLimitExceeded { votes_in_window, max } = *self;
                r@ == "vote rate limit exceeded: "@ + decimal(votes_in_window as nat)
                    + " votes in last second (max "@ + decimal(max as nat) + ")"@
            }),
    {
        match self {
            RateLimitError::RateLimitExceeded { votes_in_window, max } => {
                let mut out = "vote rate limit exceeded: ".to_string();
                put_decimal(&mut out, *votes_in_window as u64);
                out.append(" votes in last second (max ");
                put_decimal(&mut out, *max as u64);
                out.append(")");
                out
            },
        }
    }
}

/// The text of a refused timeout.
pub open spec fn timeout_text(e: TimeoutError) -> Seq<char> {
    match e {
        TimeoutError::InvalidView { expected, got } => "invalid view: expected "@ + decimal(
            expected as nat,
        ) + ", got "@ + decimal(got as nat),
        TimeoutError::UnknownValidator(id) => "unknown validator: "@ + bytes_text(id@),
        TimeoutError::InvalidSignature => "invalid signature"@,
        TimeoutError::DuplicateTimeout(id) => "duplicate timeout from "@ + bytes_text(id@),
        TimeoutError::ContextMismatch {
            expected_epoch,
            expected_committee,
            got_epoch,
            got_committee,
        } => "timeout context mismatch: expected epoch "@ + decimal(expected_epoch as nat)
            + " / committee "@ + expected_committee@ + ", got epoch "@ + decimal(got_epoch as nat)
            + " / committee "@ + got_committee@,
    }
}

impl TimeoutError {
    /// The text of the error.
    pub fn to_string(&self) -> (r: String)
        ensures
            r@ == timeout_text(*self),
    {
        match self {
            TimeoutError::InvalidView { expected, got } => {
                let mut out = "invalid view: expected ".to_string();
                put_decimal(&mut out, *expected);
                out.append(", got ");
                put_decimal(&mut out, *got);
                out
            },
            TimeoutError::UnknownValidator(id) => {
                let mut out = "unknown validator: ".to_string();
                put_hash_text(&mut out, id);
                out
            },
            TimeoutError::InvalidSignature => "invalid signature".to_string(),
            TimeoutError::DuplicateTimeout(id) => {
                let mut out = "duplicate timeout from ".to_string();
                put_hash_text(&mut out, id);
                out
            },
            TimeoutError::ContextMismatch {
                expected_epoch,
                expected_committee,
                got_epoch,
                got_committee,
            } => {
                let mut out = "timeout context mismatch: expected epoch ".to_string();
                put_decimal(&mut out, *expected_epoch);
                out.append(" / committee ");
                out.append(expected_committee.as_str());
                out.append(", got epoch ");
                put_decimal(&mut out, *got_epoch);
                out.append(" / committee ");
                out.append(got_committee.as_str());
                out
            },
        }
    }
}

/// The text of a refusal by the block store.
pub open spec fn store_text(e: StoreError) -> Seq<char> {
    match e {
        StoreError::NoCanonicalIndex(hash) => "speculative block "@ + hex_text(hash@)
            + " exists without a canonical index"@,
        StoreError::RowTooLarge { bytes, limit } => "speculative block serialization "@ + decimal(
            bytes as nat,
        ) + " bytes exceeds per-row limit "@ + decimal(limit as nat),
        StoreError::CapacityExceeded { max_blocks, max_bytes } => "speculative store capacity "@
            + decimal(max_blocks as nat) + " blocks/"@ + decimal(max_bytes as nat)
            + " bytes would be exceeded"@,
        StoreError::ProtectedBranches { max_blocks, max_bytes } => {
            "protected speculative branches exceed "@ + decimal(max_blocks as nat) + " blocks/"@
                + decimal(max_bytes as nat) + " bytes"@
        },
    }
}

impl StoreError {
    /// The text of the error.
    pub fn to_string(&self) -> (r: String)
        ensures
            r@ == store_text(*self),
    {
        match self {
            StoreError::NoCanonicalIndex(hash) => {
                let mut out = "speculative block ".to_string();
                out.append(hex_encode(hash.as_slice()).as_str());
                out.append(" exists without a canonical index");
                out
            },
            StoreError::RowTooLarge { bytes, limit } => {
                let mut out = "speculative block serialization ".to_string();
                put_decimal(&mut out, *bytes as u64);
                out.append(" bytes exceeds per-row limit ");
                put_decimal(&mut out, *limit as u64);
                out
            },
            StoreError::CapacityExceeded { max_blocks, max_bytes } => {
                let mut out = "speculative store capacity ".to_string();
                put_decimal(&mut out, *max_blocks as u64);
                out.append(" blocks/");
                put_decimal(&mut out, *max_bytes as u64);
                out.append(" bytes would be exceeded");
                out
            },
            StoreError::ProtectedBranches { max_blocks, max_bytes } => {
                let mut out = "protected speculative branches exceed ".to_string();
                put_decimal(&mut out, *max_blocks as u64);
                out.append(" blocks/");
                put_decimal(&mut out, *max_bytes as u64);
                out.append(" bytes");
                out
            },
        }
    }
}

/// The texts of refusals name the views, blocks, states and limits that they are about, in
/// this order.
pub proof fn lemma_texts_name_values(view: u64, other: u64, a: Hash32, b: Hash32, n: usize, m: usize)
    ensures
        safety_text(SafetyError::AlreadyVoted(view)) == "already voted in view "@ + decimal(
            view as nat,
        ),
        safety_text(SafetyError::ViolatesLocking { block_view: view, locked_view: other })
            == "block view "@ + decimal(view as nat) + " violates locking at view "@ + decimal(
            other as nat,
        ),
        safety_text(SafetyError::DoesNotExtendHighQC { block_parent: a, high_qc_hash: b })
            == "block parent "@ + bytes_text(a@) + " doesn't extend high_qc "@ + bytes_text(b@),
        safety_text(SafetyError::AppHashMismatch { expected: a, got: b })
            == "app_hash mismatch: expected "@ + bytes_text(a@) + ", got "@ + bytes_text(b@),
        timeout_text(TimeoutError::InvalidView { expected: view, got: other })
            == "invalid view: expected "@ + decimal(view as nat) + ", got "@ + decimal(other as nat),
        timeout_text(TimeoutError::UnknownValidator(a)) == "unknown validator: "@ + bytes_text(a@),
        timeout_text(TimeoutError::DuplicateTimeout(a)) == "duplicate timeout from "@ + bytes_text(
            a@,
        ),
        store_text(StoreError::RowTooLarge { bytes: n, limit: m })
            == "speculative block serialization "@ + decimal(n as nat)
            + " bytes exceeds per-row limit "@ + decimal(m as nat),
        store_text(StoreError::CapacityExceeded { max_blocks: n, max_bytes: m })
            == "speculative store capacity "@ + decimal(n as nat) + " blocks/"@ + decimal(m as nat)
            + " bytes would be exceeded"@,
        store_text(StoreError::NoCanonicalIndex(a)) == "speculative block "@ + hex_text(a@)
            + " exists without a canonical index"@,
{
}

} // verus!
