//! Installation of genesis, and catching up from a peer.

use vstd::prelude::*;

use crate::bytes::{hash_eq, Hash32, NodeId};
use crate::config::is_blank;
use crate::consensus::runner::setup::genesis_state;
use crate::crypto::{bls_public_key, BlsSecretKey};
use crate::text::{hex_encode, hex_text, trim_text, trimmed};
use crate::types::block::{block_hash, genesis_block, Block, BlockView};
use crate::types::context::ConsensusContext;
use crate::types::messages::{ConsensusState, ConsensusStateView};

verus! {

/// Most blocks that are asked for at once.
pub const MAX_BOOTSTRAP_BATCH_BLOCKS: u64 = 1_000;

/// Most bytes of a peer's status.
pub const MAX_SYNC_STATUS_RESPONSE_BYTES: usize = 65_536;

/// The state of a node that starts for the first time.
pub fn genesis_consensus_state(context: ConsensusContext) -> (r: ConsensusState)
    ensures
        r@ == genesis_state(context),
        r.voted_views@.len() == 0,
{
    let genesis = Block::genesis(context);
    let r = ConsensusState {
        epoch: context.epoch,
        committee_hash: context.committee_hash,
        genesis_hash: context.genesis_hash,
        high_qc: None,
        locked_qc: None,
        voted_views: Vec::new(),
        current_view: 0,
        committed_height: 0,
        committed_hash: genesis.hash(),
        consecutive_timeouts: 0,
        vc_sent_for_view: None,
    };
    assert(r.voted_views@.to_set() =~= Set::empty());
    r
}

/// Why a durable store is not used for catching up.
#[derive(Clone, Copy, Debug, PartialEq, Eq)]
pub enum GenesisError {
    /// The durable state belongs to another context.
    ContextMismatch,
    /// There are durable blocks and no durable state.
    BlocksWithoutState,
}

/// Decides whether genesis has to be installed: returns the block and the
/// state to make durable in one step, or nothing if there is a state of the
/// node's context already. Durable data is never replaced.
pub fn ensure_genesis_state(
    state: &Option<ConsensusState>,
    has_blocks: bool,
    has_head: bool,
    context: ConsensusContext,
) -> (r: Result<Option<(Block, ConsensusState)>, GenesisError>)
    ensures
        match r {
            Ok(Some((b, s))) => state is None && !has_blocks && !has_head && b@ == genesis_block(
                context,
            ) && s@ == genesis_state(context),
            Ok(None) => state matches Some(s) && s@.context == context,
            Err(GenesisError::ContextMismatch) => state matches Some(s) && s@.context != context,
            Err(GenesisError::BlocksWithoutState) => state is None && (has_blocks || has_head),
        },
{
    match state {
        Some(s) => {
            if s.context().same_as(&context) {
                Ok(None)
            } else {
                Err(GenesisError::ContextMismatch)
            }
        },
        None => {
            if has_blocks || has_head {
                return Err(GenesisError::BlocksWithoutState);
            }
            Ok(Some((Block::genesis(context), genesis_consensus_state(context))))
        },
    }
}

/// The height up to which the next batch is asked for: there is none once the
/// node has caught up.
pub open spec fn batch_end(head: u64, peer: u64) -> Option<u64> {
    if head >= peer {
        None
    } else if head + MAX_BOOTSTRAP_BATCH_BLOCKS < peer {
        Some((head + MAX_BOOTSTRAP_BATCH_BLOCKS) as u64)
    } else {
        Some(peer)
    }
}

/// The height up to which the next batch is asked for.
pub fn next_batch(head_height: u64, peer_height: u64) -> (r: Option<u64>)
    ensures
        r == batch_end(head_height, peer_height),
        r matches Some(end) ==> head_height < end <= peer_height && end - head_height
            <= MAX_BOOTSTRAP_BATCH_BLOCKS,
{
    if head_height >= peer_height {
        None
    } else if peer_height - head_height > MAX_BOOTSTRAP_BATCH_BLOCKS {
        Some(head_height + MAX_BOOTSTRAP_BATCH_BLOCKS)
    } else {
        Some(peer_height)
    }
}

/// The committed head is the one that the durable state names.
pub open spec fn head_matches(head: BlockView, state: ConsensusStateView) -> bool {
    head.height == state.committed_height && block_hash(head) == state.committed_hash
}

/// Whether the committed head is the one that the durable state names.
pub fn check_head(head: &Block, state: &ConsensusState) -> (r: bool)
    ensures
        r == head_matches(head@, state@),
{
    head.height == state.committed_height && hash_eq(&head.hash(), &state.committed_hash)
}

/// What the catching up does next.
#[derive(Clone, Copy, Debug, PartialEq, Eq)]
pub enum BootstrapAction {
    /// Download and import the finalized blocks up to a height.
    Import { to_height: u64 },
    /// The node has caught up.
    Done,
}

/// Why catching up fails.
#[derive(Clone, Copy, Debug, PartialEq, Eq)]
pub enum BootstrapError {
    /// There is no durable state.
    NoState,
    /// There is no committed head.
    NoHead,
    /// The committed head is not the one that the durable state names.
    Diverged,
}

/// Decides what the catching up does next, from the durable state and head as
/// they are after genesis was installed and after each import.
pub fn bootstrap_step(state: &Option<ConsensusState>, head: &Option<Block>, peer_height: u64) -> (r: Result<
    BootstrapAction,
    BootstrapError,
>)
    ensures
        r == (if state is None {
            Err(BootstrapError::NoState)
        } else if head is None {
            Err(BootstrapError::NoHead)
        } else if !head_matches(head->Some_0@, state->Some_0@) {
            Err(BootstrapError::Diverged)
        } else {
            match batch_end(head->Some_0.height, peer_height) {
                Some(end) => Ok(BootstrapAction::Import { to_height: end }),
                None => Ok(BootstrapAction::Done),
            }
        }),
{
    let s = match state {
        Some(s) => s,
        None => {
            return Err(BootstrapError::NoState);
        },
    };
    let b = match head {
        Some(b) => b,
        None => {
            return Err(BootstrapError::NoHead);
        },
    };
    if !check_head(b, s) {
        return Err(BootstrapError::Diverged);
    }
    match next_batch(b.height, peer_height) {
        Some(end) => Ok(BootstrapAction::Import { to_height: end }),
        None => Ok(BootstrapAction::Done),
    }
}

/// Whether another part of a peer's status may be read.
pub fn status_part_fits(read: usize, part: usize) -> (r: bool)
    ensures
        r == (read + part <= MAX_SYNC_STATUS_RESPONSE_BYTES),
{
    read <= MAX_SYNC_STATUS_RESPONSE_BYTES && part <= MAX_SYNC_STATUS_RESPONSE_BYTES - read
}

/// A text without the slashes at its end.
pub open spec fn without_slashes(s: Seq<char>) -> Seq<char>
    decreases s.len(),
{
    if s.len() > 0 && s.last() == '/' {
        without_slashes(s.drop_last())
    } else {
        s
    }
}

/// Where the status of a peer is asked for; a blank address is refused.
pub fn sync_status_url(peer: &String) -> (r: Option<String>)
    ensures
        match r {
            Some(url) => trimmed(peer@).len() > 0 && url@ == without_slashes(peer@)
                + "/api/v1/sync/status"@,
            None => trimmed(peer@).len() == 0,
        },
{
    if is_blank(&trim_text(peer.as_str())) {
        return None;
    }
    let text = peer.as_str();
    let mut end: usize = text.unicode_len();
    assert(peer@.take(end as int) =~= peer@);
    while end > 0 && text.get_char(end - 1) == '/'
        invariant
            text@ == peer@,
            end <= text@.len(),
            without_slashes(peer@.take(end as int)) == without_slashes(peer@),
        decreases end,
    {
        proof {
            let s = peer@.take(end as int);
            assert(s.last() == '/');
            assert(s.drop_last() =~= peer@.take(end - 1));
        }
        end = end - 1;
    }
    proof {
        let s = peer@.take(end as int);
        assert(end > 0 ==> s.last() == text@[end - 1]);
        assert(text@.subrange(0, end as int) =~= s);
    }
    let mut url = text.substring_char(0, end).to_string();
    url.append("/api/v1/sync/status");
    Some(url)
}

/// Where a node keeps its data if it is not told: under the genesis and its
/// own identifier, so that chains and nodes do not share data.
pub fn default_data_dir(context: ConsensusContext, node_id: NodeId) -> (r: String)
    ensures
        r@ == ".hyperlicked/data/"@ + hex_text(context.genesis_hash@) + "/"@ + hex_text(node_id@),
{
    let mut path = ".hyperlicked/data/".to_string();
    path.append(hex_encode(context.genesis_hash.as_slice()).as_str());
    path.append("/");
    path.append(hex_encode(node_id.as_slice()).as_str());
    path
}

/// The position of the first argument with a value, if there is one.
pub open spec fn is_first_at(args: Seq<String>, value: Seq<char>, i: int) -> bool {
    &&& 0 <= i < args.len()
    &&& args[i]@ == value
    &&& forall|k: int| 0 <= k < i ==> (#[trigger] args[k])@ != value
}

/// The path that the arguments give after `--data-dir`, or the default one.
/// Without a path after it, the argument is refused.
pub fn multinode_data_dir(args: &Vec<String>, context: ConsensusContext, node_id: NodeId) -> (r: Option<
    String,
>)
    ensures
        (forall|k: int| 0 <= k < args@.len() ==> (#[trigger] args@[k])@ != "--data-dir"@) ==> (
        r matches Some(path) && path@ == ".hyperlicked/data/"@ + hex_text(context.genesis_hash@)
            + "/"@ + hex_text(node_id@)),
        forall|i: int| #[trigger]
            is_first_at(args@, "--data-dir"@, i) ==> match r {
                Some(path) => i + 1 < args@.len() && path@ == args@[i + 1]@,
                None => i + 1 == args@.len(),
            },
{
    let name = "--data-dir".to_string();
    let mut i: usize = 0;
    while i < args.len()
        invariant
            i <= args.len(),
            name@ == "--data-dir"@,
            forall|k: int| 0 <= k < i ==> (#[trigger] args@[k])@ != "--data-dir"@,
        decreases args.len() - i,
    {
        if args[i] == name {
            assert(args@[i as int]@ == "--data-dir"@);
            if i + 1 < args.len() {
                return Some(args[i + 1].clone());
            }
            return None;
        }
        i = i + 1;
    }
    Some(default_data_dir(context, node_id))
}

/// The seed of a node of the local development committee.
pub open spec fn development_seed(node_index: int) -> Seq<u8> {
    Seq::new(32, |i: int| if i == 0 {
        ((node_index + 1) % 256) as u8
    } else if i == 31 {
        0xbeu8
    } else {
        0u8
    })
}

/// The fixed key pair of a node of the local development committee, with its
/// seed. Nodes in production load keys of their own.
pub fn generate_bls_keypair(node_index: usize) -> (r: (Hash32, BlsSecretKey, Vec<u8>))
    requires
        node_index < usize::MAX,
    ensures
        r.0@ == development_seed(node_index as int),
        r.1.seed() == r.0,
        r.2@ == bls_public_key(r.0@),
{
    let mut seed: Hash32 = [0;32];
    seed[0] = ((node_index + 1) % 256) as u8;
    seed[31] = 0xbe;
    assert(seed@ =~= development_seed(node_index as int));
    let secret = BlsSecretKey::from_seed(&seed);
    let public = secret.public_key();
    (seed, secret, public)
}

/// A node catches up in batches of at most a thousand blocks that end at the peer's
/// height, and not at all once it has reached it.
pub proof fn lemma_batches(head: u64, peer: u64)
    ensures
        head >= peer <==> batch_end(head, peer) is None,
        batch_end(head, peer) matches Some(end) ==> {
            &&& head < end <= peer
            &&& end - head <= 1000
            &&& end == peer || end - head == 1000
        },
{
}

/// A head fits a state exactly if it is at the committed height and has the committed
/// hash.
pub proof fn lemma_head_fits(head: BlockView, state: ConsensusStateView)
    ensures
        head_matches(head, state) <==> head.height == state.committed_height && block_hash(head)
            == state.committed_hash,
{
}

/// An address loses exactly the slashes at its end.
pub proof fn lemma_slashes(s: Seq<char>, c: char)
    ensures
        without_slashes(s.push('/')) == without_slashes(s),
        c != '/' ==> without_slashes(s.push(c)) == s.push(c),
        without_slashes(Seq::<char>::empty()) == Seq::<char>::empty(),
{
    assert(s.push('/').drop_last() =~= s);
}

/// The seeds of development nodes are marked at the end and tell the nodes apart.
pub proof fn lemma_development_seeds(a: int, b: int)
    requires
        0 <= a < 255,
        0 <= b < 255,
    ensures
        development_seed(a).len() == 32,
        development_seed(a)[0] == a + 1,
        development_seed(a)[31] == 0xbe,
        forall|i: int| 0 < i < 31 ==> development_seed(a)[i] == 0,
        development_seed(a) == development_seed(b) ==> a == b,
{
    assert(development_seed(a)[0] == a + 1);
    assert(development_seed(b)[0] == b + 1);
}

/// How much is asked for at once, and how long a peer's status may be.
pub proof fn lemma_bootstrap_limits()
    ensures
        MAX_BOOTSTRAP_BATCH_BLOCKS == 1_000,
        MAX_SYNC_STATUS_RESPONSE_BYTES == 64 * 1024,
{
}

/// The first place of an argument is the only first one.
pub proof fn lemma_first_place(args: Seq<String>, value: Seq<char>, i: int, j: int)
    requires
        is_first_at(args, value, i),
        0 <= j < args.len(),
        args[j]@ == value,
    ensures
        i <= j,
        args[i]@ == value,
{
}

} // verus!
