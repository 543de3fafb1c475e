//! The consensus configuration of a node.

use vstd::prelude::*;

use crate::bytes::{
    byte_rows, copy_bytes, copy_hashes, copy_rows, hash_eq, put_bytes, put_hash, put_u64, zeros,
    Hash32, NodeId,
};
use crate::crypto::{sha256, sha256_digest, BlsSecretKey};
use crate::types::committee::{
    distinct_members, leader_index, member_views, Committee, CommitteeConfigError, CommitteeMember,
    MemberView,
};
use crate::types::context::ConsensusContext;

verus! {

/// Who takes part in consensus, and with which keys.
pub struct ConsensusConfig {
    pub epoch: u64,
    pub genesis_hash: Hash32,
    pub node_id: NodeId,
    pub validators: Vec<NodeId>,
    pub voting_powers: Vec<u64>,
    pub view_timeout_ms: u64,
    pub bls_pubkeys: Vec<Vec<u8>>,
    pub bls_secret_key: Option<[u8; 32]>,
}

/// The contents of a configuration.
pub ghost struct ConfigView {
    pub epoch: u64,
    pub genesis_hash: Hash32,
    pub node_id: NodeId,
    pub validators: Seq<NodeId>,
    pub voting_powers: Seq<u64>,
    pub view_timeout_ms: u64,
    pub bls_pubkeys: Seq<Seq<u8>>,
    pub bls_secret_key: Option<[u8; 32]>,
}

impl vstd::view::View for ConsensusConfig {
    type V = ConfigView;

    open spec fn view(&self) -> ConfigView {
        ConfigView {
            epoch: self.epoch,
            genesis_hash: self.genesis_hash,
            node_id: self.node_id,
            validators: self.validators@,
            voting_powers: self.voting_powers@,
            view_timeout_ms: self.view_timeout_ms,
            bls_pubkeys: byte_rows(self.bls_pubkeys@),
            bls_secret_key: self.bls_secret_key,
        }
    }
}

impl ConfigView {
    /// The members that the configuration describes.
    pub open spec fn members(self) -> Seq<MemberView> {
        Seq::new(
            self.validators.len(),
            |i: int|
                MemberView {
                    node_id: self.validators[i],
                    voting_power: self.voting_powers[i] as u128,
                    bls_pubkey: if self.bls_pubkeys.len() == 0 {
                        None
                    } else {
                        Some(self.bls_pubkeys[i])
                    },
                },
        )
    }

    /// Why the configuration describes no committee.
    pub open spec fn fault(self) -> Option<CommitteeConfigError> {
        if self.validators.len() == 0 {
            Some(CommitteeConfigError::Empty)
        } else if self.voting_powers.len() != self.validators.len() {
            Some(CommitteeConfigError::PowerCount)
        } else if self.bls_pubkeys.len() != 0 && self.bls_pubkeys.len() != self.validators.len() {
            Some(CommitteeConfigError::KeyCount)
        } else if !distinct_members(self.members()) {
            Some(CommitteeConfigError::DuplicateValidator)
        } else if exists|i: int|
            0 <= i < self.voting_powers.len() && #[trigger] self.voting_powers[i] == 0 {
            Some(CommitteeConfigError::ZeroPower)
        } else {
            None
        }
    }

    /// The leader of a view: leadership rotates through the validators.
    pub open spec fn leader(self, view: u64) -> NodeId {
        self.validators[(view + 1) % self.validators.len() as int]
    }

    /// The node leads a view.
    pub open spec fn leads(self, view: u64) -> bool {
        self.validators.len() > 0 && self.leader(view) == self.node_id
    }

    /// Every validator has a key.
    pub open spec fn keyed(self) -> bool {
        self.bls_pubkeys.len() > 0 && self.bls_pubkeys.len() == self.validators.len()
    }
}

impl ConsensusConfig {
    /// A committee of one node with a fixed key.
    pub fn single_node() -> (r: Self)
        ensures
            r@.fault() is None,
            r@.validators == seq![r@.node_id],
            r@.keyed(),
            r@.bls_secret_key is Some,
            r@.epoch == 0,
            r@.genesis_hash == crate::bytes::zero_hash(),
    {
        let node_id: NodeId = [1u8; 32];
        let seed: [u8; 32] = [1u8; 32];
        let secret = BlsSecretKey::from_seed(&seed);
        let mut validators: Vec<NodeId> = Vec::new();
        validators.push(node_id);
        let mut voting_powers: Vec<u64> = Vec::new();
        voting_powers.push(1);
        let mut bls_pubkeys: Vec<Vec<u8>> = Vec::new();
        bls_pubkeys.push(secret.public_key());
        let r = ConsensusConfig {
            epoch: 0,
            genesis_hash: zeros(),
            node_id,
            validators,
            voting_powers,
            view_timeout_ms: 1000,
            bls_pubkeys,
            bls_secret_key: Some(seed),
        };
        assert(r@.validators =~= seq![node_id]);
        assert(r@.voting_powers[0] == 1);
        r
    }

    /// The committee that the configuration describes.
    pub fn committee(&self) -> (r: Result<Committee, CommitteeConfigError>)
        ensures
            match r {
                Ok(c) => self@.fault() is None && c.members_view() == self@.members(),
                Err(e) => self@.fault() == Some(e),
            },
    {
        let n: usize = self.validators.len();
        if n == 0 {
            return Err(CommitteeConfigError::Empty);
        }
        if self.voting_powers.len() != n {
            return Err(CommitteeConfigError::PowerCount);
        }
        assert(self@.bls_pubkeys.len() == self.bls_pubkeys.len());
        if self.bls_pubkeys.len() != 0 && self.bls_pubkeys.len() != n {
            return Err(CommitteeConfigError::KeyCount);
        }
        let mut members: Vec<CommitteeMember> = Vec::new();
        let mut i: usize = 0;
        while i < n
            invariant
                i <= n,
                n == self.validators.len(),
                self.voting_powers.len() == n,
                self.bls_pubkeys.len() == 0 || self.bls_pubkeys.len() == n,
                members.len() == i,
                forall|k: int|
                    0 <= k < i ==> (#[trigger] members[k])@ == self@.members()[k]
                        && members[k].voting_power <= u64::MAX,
            decreases n - i,
        {
            let bls_pubkey = if self.bls_pubkeys.len() == 0 {
                None
            } else {
                Some(copy_bytes(&self.bls_pubkeys[i]))
            };
            members.push(
                CommitteeMember {
                    node_id: self.validators[i],
                    voting_power: self.voting_powers[i] as u128,
                    bls_pubkey,
                },
            );
            i = i + 1;
        }
        assert(member_views(members@) =~= self@.members());
        let ghost kept = members@;
        let r = Committee::new(members);
        proof {
            match r {
                Ok(_) => {
                    assert forall|k: int| 0 <= k < n implies #[trigger] self@.voting_powers[k] != 0 by {
                        assert(self@.members()[k].voting_power > 0);
                    }
                },
                Err(CommitteeConfigError::ZeroPower) => {
                    let k = choose|k: int|
                        0 <= k < kept.len() && (#[trigger] kept[k]).voting_power == 0;
                    assert(kept[k]@ == self@.members()[k]);
                    assert(self@.voting_powers[k] == 0);
                },
                Err(_) => {},
            }
        }
        r
    }

    /// The context of the configuration.
    pub fn context(&self) -> (r: Result<ConsensusContext, CommitteeConfigError>)
        ensures
            match r {
                Ok(c) => self@.fault() is None && c == config_context(self@),
                Err(e) => self@.fault() == Some(e),
            },
    {
        match self.committee() {
            Ok(committee) => Ok(
                ConsensusContext {
                    epoch: self.epoch,
                    committee_hash: committee.hash(),
                    genesis_hash: self.genesis_hash,
                },
            ),
            Err(e) => Err(e),
        }
    }

    /// The leader of a view.
    pub fn leader_of_active(&self, view: u64) -> (r: NodeId)
        requires
            self@.validators.len() > 0,
        ensures
            r == self@.leader(view),
    {
        let i = leader_index(self.validators.len(), view);
        self.validators[i]
    }

    /// Whether the node leads a view.
    pub fn is_leader(&self, view: u64) -> (r: bool)
        ensures
            r == self@.leads(view),
    {
        self.validators.len() > 0 && hash_eq(&self.leader_of_active(view), &self.node_id)
    }

    /// Whether every validator has a key.
    pub fn bls_configured(&self) -> (r: bool)
        ensures
            r == self@.keyed(),
    {
        assert(self@.bls_pubkeys.len() == self.bls_pubkeys.len());
        self.bls_pubkeys.len() > 0 && self.bls_pubkeys.len() == self.validators.len()
    }

    /// The key that the node signs with.
    pub fn bls_secret_key(&self) -> (r: Option<BlsSecretKey>)
        ensures
            match r {
                Some(k) => self@.bls_secret_key == Some(k.seed()),
                None => self@.bls_secret_key is None,
            },
    {
        match &self.bls_secret_key {
            Some(seed) => Some(BlsSecretKey::from_seed(seed)),
            None => None,
        }
    }

    /// Replaces the validators; each has one unit of voting power.
    pub fn update_validators(&mut self, node_ids: Vec<NodeId>, bls_pubkeys: Vec<Vec<u8>>)
        ensures
            final(self)@ == (ConfigView {
                validators: node_ids@,
                voting_powers: Seq::new(node_ids@.len(), |i: int| 1u64),
                bls_pubkeys: byte_rows(bls_pubkeys@),
                ..old(self)@
            }),
    {
        let mut powers: Vec<u64> = Vec::new();
        let mut i: usize = 0;
        while i < node_ids.len()
            invariant
                i <= node_ids.len(),
                powers.len() == i,
                forall|k: int| 0 <= k < i ==> powers[k] == 1u64,
                *self == *old(self),
            decreases node_ids.len() - i,
        {
            powers.push(1);
            i = i + 1;
        }
        assert(powers@ =~= Seq::new(node_ids@.len(), |k: int| 1u64));
        self.validators = node_ids;
        self.voting_powers = powers;
        self.bls_pubkeys = bls_pubkeys;
    }

    /// The number of validators.
    pub fn n(&self) -> (r: usize)
        ensures
            r == self@.validators.len(),
    {
        self.validators.len()
    }
}

/// The context of a configuration that describes a committee.
pub open spec fn config_context(c: ConfigView) -> ConsensusContext {
    ConsensusContext {
        epoch: c.epoch,
        committee_hash: crate::types::committee::members_hash(c.members()),
        genesis_hash: c.genesis_hash,
    }
}

impl Clone for ConsensusConfig {
    fn clone(&self) -> (r: Self)
        ensures
            r@ == self@,
    {
        let mut powers: Vec<u64> = Vec::new();
        let mut i: usize = 0;
        while i < self.voting_powers.len()
            invariant
                i <= self.voting_powers.len(),
                powers@ == self.voting_powers@.take(i as int),
            decreases self.voting_powers.len() - i,
        {
            powers.push(self.voting_powers[i]);
            i = i + 1;
            assert(powers@ =~= self.voting_powers@.take(i as int));
        }
        assert(powers@ =~= self.voting_powers@);
        ConsensusConfig {
            epoch: self.epoch,
            genesis_hash: self.genesis_hash,
            node_id: self.node_id,
            validators: copy_hashes(&self.validators),
            voting_powers: powers,
            view_timeout_ms: self.view_timeout_ms,
            bls_pubkeys: copy_rows(&self.bls_pubkeys),
            bls_secret_key: self.bls_secret_key,
        }
    }
}

/// The genesis of a chain: the digest of its name, first epoch, timing and
/// committee.
pub fn genesis_domain_hash(name: &Vec<u8>, epoch: u64, view_timeout_ms: u64, committee_hash: Hash32) -> (r:
    Hash32)
    ensures
        r == sha256(
            seq![8u8] + vstd::bytes::spec_u64_to_le_bytes(epoch)
                + vstd::bytes::spec_u64_to_le_bytes(view_timeout_ms) + committee_hash@ + name@,
        ),
{
    let mut out: Vec<u8> = Vec::new();
    out.push(8u8);
    put_u64(&mut out, epoch);
    put_u64(&mut out, view_timeout_ms);
    put_hash(&mut out, &committee_hash);
    put_bytes(&mut out, name);
    assert(out@ =~= seq![8u8] + vstd::bytes::spec_u64_to_le_bytes(epoch)
        + vstd::bytes::spec_u64_to_le_bytes(view_timeout_ms) + committee_hash@ + name@);
    sha256_digest(&out)
}

/// The members of a configuration are its validators, in order, each with its
/// voting power and, where keys are configured, its key.
pub proof fn lemma_configured_members(c: ConfigView, i: int)
    requires
        0 <= i < c.validators.len(),
    ensures
        c.members().len() == c.validators.len(),
        c.members()[i].node_id == c.validators[i],
        c.members()[i].voting_power == c.voting_powers[i],
        c.bls_pubkeys.len() == 0 ==> c.members()[i].bls_pubkey is None,
        c.bls_pubkeys.len() > 0 ==> c.members()[i].bls_pubkey == Some(c.bls_pubkeys[i]),
        c.keyed() <==> c.bls_pubkeys.len() == c.validators.len(),
{
}

/// A configuration describes a committee exactly if it names validators, each
/// once, with a positive power for each, and with keys for all of them or none.
pub proof fn lemma_configuration_fault(c: ConfigView)
    ensures
        c.fault() is None <==> {
            &&& c.validators.len() > 0
            &&& c.voting_powers.len() == c.validators.len()
            &&& c.bls_pubkeys.len() == 0 || c.bls_pubkeys.len() == c.validators.len()
            &&& c.validators.no_duplicates()
            &&& forall|i: int| 0 <= i < c.voting_powers.len() ==> #[trigger] c.voting_powers[i] > 0
        },
        c.fault() is None ==> crate::types::committee::valid_members(c.members()),
{
    if c.voting_powers.len() == c.validators.len() {
        if distinct_members(c.members()) {
            assert forall|i: int, j: int|
                0 <= i < c.validators.len() && 0 <= j < c.validators.len() && i != j implies c.validators[i]
                != c.validators[j] by {
                assert(c.members()[i].node_id != c.members()[j].node_id);
            }
        }
        if c.validators.no_duplicates() {
            assert forall|i: int, j: int|
                0 <= i < c.members().len() && 0 <= j < c.members().len() && i != j implies (
            #[trigger] c.members()[i]).node_id != (#[trigger] c.members()[j]).node_id by {
                assert(c.validators[i] != c.validators[j]);
            }
        }
        if c.fault() is None {
            assert forall|i: int| 0 <= i < c.members().len() implies 0 < (
            #[trigger] c.members()[i]).voting_power <= u64::MAX by {
                assert(c.voting_powers[i] != 0);
            }
        }
    }
}

/// A node leads exactly the views in which the rotation of the committee comes to
/// it: the configuration and the committee that it describes name one leader.
pub proof fn lemma_configured_leader(c: ConfigView, view: u64)
    requires
        c.validators.len() > 0,
    ensures
        c.leader(view) == crate::types::committee::leader_of(c.members(), view),
        c.leads(view) <==> c.node_id == crate::types::committee::leader_of(c.members(), view),
{
    let n = c.validators.len() as int;
    assert(0 <= (view + 1) % n < n) by (nonlinear_arith)
        requires
            n > 0,
    ;
}

/// The context of a configuration names its epoch, its genesis and the committee
/// that it describes.
pub proof fn lemma_configured_context(c: ConfigView)
    ensures
        config_context(c).epoch == c.epoch,
        config_context(c).genesis_hash == c.genesis_hash,
        config_context(c).committee_hash == crate::types::committee::members_hash(c.members()),
{
}

/// What the refusal of a configured committee says of it is so.
pub proof fn lemma_configuration_refusal(c: ConfigView)
    ensures
        match c.fault() {
            None => true,
            Some(CommitteeConfigError::Empty) => c.validators.len() == 0,
            Some(CommitteeConfigError::PowerCount) => c.voting_powers.len() != c.validators.len(),
            Some(CommitteeConfigError::KeyCount) => c.bls_pubkeys.len() > 0 && c.bls_pubkeys.len()
                != c.validators.len(),
            Some(CommitteeConfigError::DuplicateValidator) => !distinct_members(c.members()),
            Some(CommitteeConfigError::ZeroPower) => exists|i: int|
                0 <= i < c.voting_powers.len() && #[trigger] c.voting_powers[i] == 0,
        },
{
}

} // verus!
