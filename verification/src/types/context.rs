//! The domain that every consensus message is bound to.

use vstd::prelude::*;

use crate::bytes::{
    hash_eq, lemma_hash_view, lemma_split, put_hash, put_u64, zero_hash, zeros, Hash32,
};

verus! {

/// Epoch, committee and genesis that a message belongs to.
#[derive(Clone, Copy, Debug, PartialEq, Eq)]
pub struct ConsensusContext {
    pub epoch: u64,
    pub committee_hash: Hash32,
    pub genesis_hash: Hash32,
}

/// A message belongs to another context than the one that was expected.
#[derive(Clone, Copy, Debug, PartialEq, Eq)]
pub struct ContextMismatch;

/// The fixed-length encoding of a context.
pub open spec fn context_bytes(c: ConsensusContext) -> Seq<u8> {
    vstd::bytes::spec_u64_to_le_bytes(c.epoch) + c.committee_hash@ + c.genesis_hash@
}

impl ConsensusContext {
    /// A context without a genesis domain.
    pub fn new(epoch: u64, committee_hash: Hash32) -> (r: Self)
        ensures
            r == (ConsensusContext { epoch, committee_hash, genesis_hash: zero_hash() }),
    {
        ConsensusContext { epoch, committee_hash, genesis_hash: zeros() }
    }

    /// A context inside a genesis domain.
    pub fn with_genesis(epoch: u64, committee_hash: Hash32, genesis_hash: Hash32) -> (r: Self)
        ensures
            r == (ConsensusContext { epoch, committee_hash, genesis_hash }),
    {
        ConsensusContext { epoch, committee_hash, genesis_hash }
    }

    /// Whether the context names a genesis.
    pub fn has_genesis_domain(&self) -> (r: bool)
        ensures
            r == (self.genesis_hash != zero_hash()),
    {
        !hash_eq(&self.genesis_hash, &zeros())
    }

    /// Whether two contexts are the same.
    pub fn same_as(&self, other: &ConsensusContext) -> (r: bool)
        ensures
            r == (*self == *other),
    {
        self.epoch == other.epoch && hash_eq(&self.committee_hash, &other.committee_hash)
            && hash_eq(&self.genesis_hash, &other.genesis_hash)
    }

    /// Fails unless the context is the expected one.
    pub fn expect(&self, expected: ConsensusContext) -> (r: Result<(), ContextMismatch>)
        ensures
            r is Ok <==> *self == expected,
    {
        if self.same_as(&expected) {
            Ok(())
        } else {
            Err(ContextMismatch)
        }
    }

    /// Appends the encoding of the context.
    pub fn put(&self, out: &mut Vec<u8>)
        ensures
            final(out)@ == old(out)@ + context_bytes(*self),
    {
        let ghost before = out@;
        put_u64(out, self.epoch);
        put_hash(out, &self.committee_hash);
        put_hash(out, &self.genesis_hash);
        assert(out@ =~= before + context_bytes(*self));
    }
}

/// The encoding of a context has 72 bytes.
pub proof fn lemma_context_len(c: ConsensusContext)
    ensures
        context_bytes(c).len() == 72,
{
    vstd::bytes::lemma_auto_spec_u64_to_from_le_bytes();
}

/// Distinct contexts have distinct encodings.
pub proof fn lemma_context_injective(a: ConsensusContext, b: ConsensusContext)
    requires
        context_bytes(a) == context_bytes(b),
    ensures
        a == b,
{
    vstd::bytes::lemma_auto_spec_u64_to_from_le_bytes();
    let ea = vstd::bytes::spec_u64_to_le_bytes(a.epoch);
    let eb = vstd::bytes::spec_u64_to_le_bytes(b.epoch);
    lemma_split(ea + a.committee_hash@, a.genesis_hash@, eb + b.committee_hash@, b.genesis_hash@);
    lemma_split(ea, a.committee_hash@, eb, b.committee_hash@);
    lemma_hash_view(a.committee_hash, b.committee_hash);
    lemma_hash_view(a.genesis_hash, b.genesis_hash);
    assert(vstd::bytes::spec_u64_from_le_bytes(ea) == a.epoch);
    assert(vstd::bytes::spec_u64_from_le_bytes(eb) == b.epoch);
}

} // verus!
