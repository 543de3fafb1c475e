//! The weighted validator committee.

use vstd::prelude::*;

use crate::bytes::{
    contains_hash, copy_option_bytes, hash_eq, option_bytes, put_bytes, put_hash, put_u64,
    zero_hash, zeros, Hash32, NodeId,
};
use crate::crypto::{sha256, sha256_digest};
use crate::types::context::{ConsensusContext, ContextMismatch};

verus! {

/// One validator of a committee.
pub struct CommitteeMember {
    pub node_id: NodeId,
    pub voting_power: u128,
    pub bls_pubkey: Option<Vec<u8>>,
}

/// The contents of a committee member.
pub ghost struct MemberView {
    pub node_id: NodeId,
    pub voting_power: u128,
    pub bls_pubkey: Option<Seq<u8>>,
}

impl vstd::view::View for CommitteeMember {
    type V = MemberView;

    open spec fn view(&self) -> MemberView {
        MemberView {
            node_id: self.node_id,
            voting_power: self.voting_power,
            bls_pubkey: option_bytes(self.bls_pubkey),
        }
    }
}

impl Clone for CommitteeMember {
    fn clone(&self) -> (r: Self)
        ensures
            r@ == self@,
    {
        CommitteeMember {
            node_id: self.node_id,
            voting_power: self.voting_power,
            bls_pubkey: copy_option_bytes(&self.bls_pubkey),
        }
    }
}

/// The validators that may vote, with their voting powers and keys.
pub struct Committee {
    members: Vec<CommitteeMember>,
    digest: Hash32,
}

/// Why validators do not make a committee.
#[derive(Clone, Copy, Debug, PartialEq, Eq)]
pub enum CommitteeConfigError {
    /// There is no validator.
    Empty,
    /// The number of voting powers differs from the number of validators.
    PowerCount,
    /// The number of keys differs from the number of validators.
    KeyCount,
    /// A validator occurs twice.
    DuplicateValidator,
    /// A validator has no voting power.
    ZeroPower,
}

/// Why a list of signers has no weight.
#[derive(Clone, Copy, Debug, PartialEq, Eq)]
pub enum QuorumError {
    /// A signer is not a member.
    UnknownSigner,
    /// A signer occurs twice.
    DuplicateSigner,
}

/// The contents of a list of members.
pub open spec fn member_views(members: Seq<CommitteeMember>) -> Seq<MemberView> {
    members.map_values(|m: CommitteeMember| m@)
}

/// Some member has the identifier.
pub open spec fn is_member(members: Seq<MemberView>, id: NodeId) -> bool {
    exists|i: int| 0 <= i < members.len() && (#[trigger] members[i]).node_id == id
}

/// The member with an identifier.
pub open spec fn member_of(members: Seq<MemberView>, id: NodeId) -> Option<MemberView> {
    if is_member(members, id) {
        Some(members[choose|i: int| 0 <= i < members.len() && (#[trigger] members[i]).node_id == id])
    } else {
        None
    }
}

/// No two members share an identifier.
pub open spec fn distinct_members(members: Seq<MemberView>) -> bool {
    forall|i: int, j: int|
        0 <= i < members.len() && 0 <= j < members.len() && i != j ==> (#[trigger] members[i]).node_id
            != (#[trigger] members[j]).node_id
}

/// The voting power of the members whose identifiers are in a set.
pub open spec fn power_of(members: Seq<MemberView>, ids: Set<NodeId>) -> nat
    decreases members.len(),
{
    if members.len() == 0 {
        0
    } else {
        power_of(members.drop_last(), ids) + if ids.contains(members.last().node_id) {
            members.last().voting_power as nat
        } else {
            0
        }
    }
}

/// The voting power of all members.
pub open spec fn total_power(members: Seq<MemberView>) -> nat {
    power_of(members, Set::full())
}

/// Strictly more than two thirds of the voting power.
pub open spec fn is_quorum(members: Seq<MemberView>, ids: Set<NodeId>) -> bool {
    3 * power_of(members, ids) > 2 * total_power(members)
}

/// The encoding of a list of members.
pub open spec fn members_bytes(members: Seq<MemberView>) -> Seq<u8>
    decreases members.len(),
{
    if members.len() == 0 {
        seq![4u8]
    } else {
        members_bytes(members.drop_last()) + member_bytes(members.last())
    }
}

/// The digest that names a committee of the given members.
pub open spec fn members_hash(members: Seq<MemberView>) -> Hash32 {
    sha256(members_bytes(members))
}

/// The encoding of a member.
pub open spec fn member_bytes(m: MemberView) -> Seq<u8> {
    let key = match m.bls_pubkey {
        Some(k) => k,
        None => Seq::empty(),
    };
    m.node_id@ + vstd::bytes::spec_u64_to_le_bytes(m.voting_power as u64)
        + vstd::bytes::spec_u64_to_le_bytes(key.len() as u64) + key
}

/// A committee is never empty, its members are distinct, and each has a
/// positive voting power of at most 64 bits.
pub open spec fn valid_members(members: Seq<MemberView>) -> bool {
    &&& members.len() > 0
    &&& distinct_members(members)
    &&& forall|i: int| 0 <= i < members.len() ==> 0 < (#[trigger] members[i]).voting_power <= u64::MAX
}

/// Every signer is a member and none occurs twice.
pub open spec fn valid_signers(members: Seq<MemberView>, signers: Seq<NodeId>) -> bool {
    &&& forall|i: int| 0 <= i < signers.len() ==> is_member(members, #[trigger] signers[i])
    &&& signers.no_duplicates()
}

/// The first fault in a list of signers, from a position on.
pub open spec fn signer_check(members: Seq<MemberView>, signers: Seq<NodeId>, i: int) -> Result<
    (),
    QuorumError,
>
    decreases signers.len() - i,
{
    if i < 0 || i >= signers.len() {
        Ok(())
    } else if !is_member(members, signers[i]) {
        Err(QuorumError::UnknownSigner)
    } else if signers.take(i).contains(signers[i]) {
        Err(QuorumError::DuplicateSigner)
    } else {
        signer_check(members, signers, i + 1)
    }
}

/// Whether signers make a quorum, or the first fault among them.
pub open spec fn quorum_check(members: Seq<MemberView>, signers: Seq<NodeId>) -> Result<
    bool,
    QuorumError,
> {
    match signer_check(members, signers, 0) {
        Ok(()) => Ok(is_quorum(members, signers.to_set())),
        Err(e) => Err(e),
    }
}

/// A list of signers has no fault exactly if they are distinct members.
pub proof fn lemma_signer_check(members: Seq<MemberView>, signers: Seq<NodeId>, i: int)
    requires
        0 <= i <= signers.len(),
        forall|k: int| 0 <= k < i ==> is_member(members, #[trigger] signers[k]),
        forall|a: int, b: int| 0 <= a < i && 0 <= b < i && a != b ==> signers[a] != signers[b],
    ensures
        signer_check(members, signers, i) is Ok <==> valid_signers(members, signers),
    decreases signers.len() - i,
{
    if i < signers.len() {
        if is_member(members, signers[i]) {
            if signers.take(i).contains(signers[i]) {
                let j = choose|j: int| 0 <= j < i && signers.take(i)[j] == signers[i];
                assert(signers[j] == signers[i]);
            } else {
                assert forall|a: int| 0 <= a < i implies signers[a] != signers[i] by {
                    assert(signers.take(i)[a] == signers[a]);
                }
                lemma_signer_check(members, signers, i + 1);
            }
        }
    }
}

/// A larger set of members has at least as much voting power, and no set has
/// more than its size times the largest power.
pub proof fn lemma_power_bounds(members: Seq<MemberView>, a: Set<NodeId>, b: Set<NodeId>)
    requires
        a.subset_of(b),
        forall|i: int| 0 <= i < members.len() ==> (#[trigger] members[i]).voting_power <= u64::MAX,
    ensures
        power_of(members, a) <= power_of(members, b),
        power_of(members, b) <= members.len() * u64::MAX,
    decreases members.len(),
{
    if members.len() > 0 {
        let front = members.drop_last();
        assert forall|i: int| 0 <= i < front.len() implies (#[trigger] front[i]).voting_power
            <= u64::MAX by {
            assert(front[i] == members[i]);
        }
        lemma_power_bounds(front, a, b);
        assert(members.last().voting_power <= u64::MAX) by {
            assert(members[members.len() - 1].voting_power <= u64::MAX);
        }
        assert(front.len() * u64::MAX + u64::MAX == members.len() * u64::MAX) by (nonlinear_arith)
            requires
                front.len() + 1 == members.len(),
        ;
    }
}

/// The powers of two sets add up to those of their union and intersection.
pub proof fn lemma_power_inclusion(members: Seq<MemberView>, a: Set<NodeId>, b: Set<NodeId>)
    ensures
        power_of(members, a) + power_of(members, b) == power_of(members, a.union(b)) + power_of(
            members,
            a.intersect(b),
        ),
    decreases members.len(),
{
    if members.len() > 0 {
        lemma_power_inclusion(members.drop_last(), a, b);
    }
}

/// Any two quorums share members with more than a third of the voting power.
pub proof fn lemma_quorum_intersection(members: Seq<MemberView>, a: Set<NodeId>, b: Set<NodeId>)
    requires
        valid_members(members),
        is_quorum(members, a),
        is_quorum(members, b),
    ensures
        3 * power_of(members, a.intersect(b)) > total_power(members),
{
    lemma_power_inclusion(members, a, b);
    lemma_power_bounds(members, a.union(b), Set::full());
}

/// A set of members that all belong to another set has no more members in
/// common with a quorum than the quorum has: enlarging a quorum keeps it one.
pub proof fn lemma_quorum_monotone(members: Seq<MemberView>, a: Set<NodeId>, b: Set<NodeId>)
    requires
        valid_members(members),
        a.subset_of(b),
        is_quorum(members, a),
    ensures
        is_quorum(members, b),
{
    lemma_power_bounds(members, a, b);
}

impl Committee {
    /// The members, in order.
    pub closed spec fn members_view(self) -> Seq<MemberView> {
        member_views(self.members@)
    }

    /// The digest that names the committee.
    pub open spec fn committee_hash(self) -> Hash32 {
        members_hash(self.members_view())
    }

    #[verifier::type_invariant]
    closed spec fn inv(self) -> bool {
        valid_members(member_views(self.members@)) && self.digest == sha256(
            members_bytes(member_views(self.members@)),
        )
    }

    /// A committee of the given members.
    pub fn new(members: Vec<CommitteeMember>) -> (r: Result<Committee, CommitteeConfigError>)
        requires
            forall|i: int|
                0 <= i < members.len() ==> (#[trigger] members[i]).voting_power <= u64::MAX,
        ensures
            match r {
                Ok(c) => c.members_view() == member_views(members@) && valid_members(
                    member_views(members@),
                ),
                Err(CommitteeConfigError::Empty) => members@.len() == 0,
                Err(CommitteeConfigError::DuplicateValidator) => !distinct_members(
                    member_views(members@),
                ),
                Err(CommitteeConfigError::ZeroPower) => distinct_members(member_views(members@))
                    && exists|i: int| 0 <= i < members.len() && (#[trigger] members[i]).voting_power == 0,
                Err(_) => false,
            },
    {
        if members.len() == 0 {
            return Err(CommitteeConfigError::Empty);
        }
        let ghost mv = member_views(members@);
        let mut i: usize = 0;
        while i < members.len()
            invariant
                i <= members.len(),
                mv == member_views(members@),
                forall|a: int, b: int|
                    0 <= a < i && 0 <= b < i && a != b ==> (#[trigger] mv[a]).node_id
                        != (#[trigger] mv[b]).node_id,
            decreases members.len() - i,
        {
            let mut j: usize = 0;
            while j < i
                invariant
                    j <= i,
                    i < members.len(),
                    mv == member_views(members@),
                    forall|a: int| 0 <= a < j ==> (#[trigger] mv[a]).node_id != mv[i as int].node_id,
                decreases i - j,
            {
                assert(mv[j as int] == members[j as int]@ && mv[i as int] == members[i as int]@);
                if hash_eq(&members[i].node_id, &members[j].node_id) {
                    return Err(CommitteeConfigError::DuplicateValidator);
                }
                j = j + 1;
            }
            i = i + 1;
        }
        let mut k: usize = 0;
        while k < members.len()
            invariant
                k <= members.len(),
                mv == member_views(members@),
                distinct_members(mv),
                forall|a: int| 0 <= a < k ==> (#[trigger] mv[a]).voting_power > 0,
            decreases members.len() - k,
        {
            assert(mv[k as int] == members[k as int]@);
            if members[k].voting_power == 0 {
                return Err(CommitteeConfigError::ZeroPower);
            }
            k = k + 1;
        }
        assert forall|a: int| 0 <= a < mv.len() implies (#[trigger] mv[a]).voting_power <= u64::MAX by {
            assert(mv[a] == members[a]@);
        }
        let mut out: Vec<u8> = Vec::new();
        out.push(4u8);
        assert(out@ =~= members_bytes(mv.subrange(0, 0)));
        let mut n: usize = 0;
        while n < members.len()
            invariant
                n <= members.len(),
                mv == member_views(members@),
                valid_members(mv),
                out@ == members_bytes(mv.subrange(0, n as int)),
            decreases members.len() - n,
        {
            let ghost before = out@;
            let member = &members[n];
            assert(mv[n as int] == member@);
            put_hash(&mut out, &member.node_id);
            put_u64(&mut out, member.voting_power as u64);
            match &member.bls_pubkey {
                Some(key) => {
                    put_u64(&mut out, key.len() as u64);
                    put_bytes(&mut out, key);
                },
                None => {
                    put_u64(&mut out, 0);
                },
            }
            assert(out@ =~= before + member_bytes(member@));
            n = n + 1;
            assert(mv.subrange(0, n as int).drop_last() =~= mv.subrange(0, n - 1));
            assert(mv.subrange(0, n as int).last() == member@);
        }
        assert(mv.subrange(0, mv.len() as int) =~= mv);
        let digest = sha256_digest(&out);
        Ok(Committee { members, digest })
    }

    /// The number of members.
    pub fn len(&self) -> (r: usize)
        ensures
            r == self.members_view().len(),
            valid_members(self.members_view()),
    {
        proof {
            use_type_invariant(self);
        }
        self.members.len()
    }

    /// The members, in order.
    pub fn members(&self) -> (r: &Vec<CommitteeMember>)
        ensures
            member_views(r@) == self.members_view(),
    {
        &self.members
    }

    /// The digest that names the committee.
    pub fn hash(&self) -> (r: Hash32)
        ensures
            r == self.committee_hash(),
            valid_members(self.members_view()),
    {
        proof {
            use_type_invariant(self);
        }
        self.digest
    }

    /// The member with an identifier.
    pub fn member(&self, id: &NodeId) -> (r: Option<&CommitteeMember>)
        ensures
            match r {
                Some(m) => member_of(self.members_view(), *id) == Some(m@) && m@.node_id == *id,
                None => !is_member(self.members_view(), *id),
            },
            valid_members(self.members_view()),
    {
        proof {
            use_type_invariant(self);
        }
        let ghost mv = member_views(self.members@);
        let mut i: usize = 0;
        while i < self.members.len()
            invariant
                i <= self.members.len(),
                mv == member_views(self.members@),
                valid_members(mv),
                forall|k: int| 0 <= k < i ==> (#[trigger] mv[k]).node_id != *id,
            decreases self.members.len() - i,
        {
            assert(mv[i as int] == self.members[i as int]@);
            if hash_eq(&self.members[i].node_id, id) {
                return Some(&self.members[i]);
            }
            i = i + 1;
        }
        None
    }

    /// The key of the member with an identifier.
    pub fn bls_pubkey(&self, id: &NodeId) -> (r: Option<&Vec<u8>>)
        ensures
            match r {
                Some(k) => member_of(self.members_view(), *id) matches Some(m) && m.bls_pubkey
                    == Some(k@),
                None => match member_of(self.members_view(), *id) {
                    Some(m) => m.bls_pubkey is None,
                    None => true,
                },
            },
    {
        match self.member(id) {
            Some(m) => m.bls_pubkey.as_ref(),
            None => None,
        }
    }

    /// Whether every member has a key.
    pub fn bls_enabled(&self) -> (r: bool)
        ensures
            r == (forall|i: int|
                0 <= i < self.members_view().len() ==> (
                #[trigger] self.members_view()[i]).bls_pubkey is Some),
    {
        let ghost mv = member_views(self.members@);
        let mut i: usize = 0;
        while i < self.members.len()
            invariant
                i <= self.members.len(),
                mv == member_views(self.members@),
                forall|k: int| 0 <= k < i ==> (#[trigger] mv[k]).bls_pubkey is Some,
            decreases self.members.len() - i,
        {
            assert(mv[i as int] == self.members[i as int]@);
            if self.members[i].bls_pubkey.is_none() {
                assert(self.members_view()[i as int].bls_pubkey is None);
                return false;
            }
            i = i + 1;
        }
        true
    }

    /// The context of the committee in the first epoch, without a genesis.
    pub fn initial_context(&self) -> (r: ConsensusContext)
        ensures
            r == (ConsensusContext {
                epoch: 0,
                committee_hash: self.committee_hash(),
                genesis_hash: zero_hash(),
            }),
    {
        ConsensusContext { epoch: 0, committee_hash: self.hash(), genesis_hash: zeros() }
    }

    /// The context of the committee in an epoch of a genesis domain.
    pub fn context_with_genesis(&self, epoch: u64, genesis_hash: Hash32) -> (r: ConsensusContext)
        ensures
            r == (ConsensusContext { epoch, committee_hash: self.committee_hash(), genesis_hash }),
    {
        ConsensusContext { epoch, committee_hash: self.hash(), genesis_hash }
    }

    /// Fails unless the context names this committee.
    pub fn validate_context(&self, context: ConsensusContext) -> (r: Result<(), ContextMismatch>)
        ensures
            r is Ok <==> context.committee_hash == self.committee_hash(),
    {
        if hash_eq(&context.committee_hash, &self.hash()) {
            Ok(())
        } else {
            Err(ContextMismatch)
        }
    }

    /// The leader of a view.
    pub fn leader(&self, view: u64) -> (r: NodeId)
        ensures
            r == leader_of(self.members_view(), view),
    {
        proof {
            use_type_invariant(self);
        }
        let i = leader_index(self.members.len(), view);
        assert(self.members_view()[i as int] == self.members[i as int]@);
        self.members[i].node_id
    }

    /// Whether distinct members with strictly more than two thirds of the
    /// voting power are among the signers.
    pub fn has_weighted_quorum(&self, signers: &Vec<NodeId>) -> (r: Result<bool, QuorumError>)
        ensures
            r == quorum_check(self.members_view(), signers@),
            r is Ok <==> valid_signers(self.members_view(), signers@),
            valid_members(self.members_view()),
    {
        proof {
            use_type_invariant(self);
            lemma_signer_check(self.members_view(), signers@, 0);
        }
        let ghost mv = self.members_view();
        let mut i: usize = 0;
        while i < signers.len()
            invariant
                i <= signers.len(),
                mv == self.members_view(),
                valid_members(mv),
                signer_check(mv, signers@, 0) == signer_check(mv, signers@, i as int),
                signer_check(mv, signers@, 0) is Ok <==> valid_signers(mv, signers@),
            decreases signers.len() - i,
        {
            if self.member(&signers[i]).is_none() {
                return Err(QuorumError::UnknownSigner);
            }
            let mut j: usize = 0;
            while j < i
                invariant
                    j <= i,
                    i < signers.len(),
                    mv == self.members_view(),
                    valid_members(mv),
                    is_member(mv, signers[i as int]),
                    signer_check(mv, signers@, 0) == signer_check(mv, signers@, i as int),
                    signer_check(mv, signers@, 0) is Ok <==> valid_signers(mv, signers@),
                    forall|a: int| 0 <= a < j ==> signers[a] != signers[i as int],
                decreases i - j,
            {
                if hash_eq(&signers[i], &signers[j]) {
                    assert(signers@.take(i as int)[j as int] == signers@[i as int]);
                    return Err(QuorumError::DuplicateSigner);
                }
                j = j + 1;
            }
            i = i + 1;
        }
        let ghost set = signers@.to_set();
        let mut power: u128 = 0;
        let mut total: u128 = 0;
        let mut n: usize = 0;
        proof {
            assert(mv.subrange(0, 0) =~= Seq::empty());
        }
        while n < self.members.len()
            invariant
                n <= self.members.len(),
                mv == member_views(self.members@),
                valid_members(mv),
                set == signers@.to_set(),
                power == power_of(mv.subrange(0, n as int), set),
                total == total_power(mv.subrange(0, n as int)),
                power <= total,
                total <= n * u64::MAX,
            decreases self.members.len() - n,
        {
            let member = &self.members[n];
            assert(mv[n as int] == member@);
            proof {
                assert(mv.subrange(0, n + 1).drop_last() =~= mv.subrange(0, n as int));
                assert(mv.subrange(0, n + 1).last() == member@);
                assert(n * u64::MAX + u64::MAX <= u128::MAX && n * u64::MAX + u64::MAX == (n + 1)
                    * u64::MAX) by (nonlinear_arith)
                    requires
                        0 <= n <= 0xffff_ffff_ffff_fffe,
                ;
            }
            total = total + member.voting_power;
            if contains_hash(signers, &member.node_id) {
                power = power + member.voting_power;
            }
            n = n + 1;
        }
        assert(mv.subrange(0, mv.len() as int) =~= mv);
        let third: u128 = total / 3;
        let limit: u128 = if total % 3 == 0 {
            total - third
        } else {
            total - third - 1
        };
        Ok(power > limit)
    }
}

/// The leader of a view: leadership rotates through the members.
pub open spec fn leader_of(members: Seq<MemberView>, view: u64) -> NodeId {
    members[(view + 1) % members.len() as int].node_id
}

/// The position of a view's leader among `n` validators.
pub fn leader_index(n: usize, view: u64) -> (r: usize)
    requires
        n > 0,
    ensures
        r == (view + 1) % n as int,
        r < n,
{
    let m: u128 = n as u128;
    let v: u128 = (view as u128 + 1) % m;
    v as usize
}

impl Clone for Committee {
    fn clone(&self) -> (r: Self)
        ensures
            r.members_view() == self.members_view(),
    {
        proof {
            use_type_invariant(self);
        }
        let ghost mv = member_views(self.members@);
        let mut members: Vec<CommitteeMember> = Vec::new();
        let mut i: usize = 0;
        while i < self.members.len()
            invariant
                i <= self.members.len(),
                members.len() == i,
                forall|k: int| 0 <= k < i ==> (#[trigger] members[k])@ == self.members[k]@,
            decreases self.members.len() - i,
        {
            members.push(self.members[i].clone());
            i = i + 1;
        }
        assert(member_views(members@) =~= mv);
        Committee { members, digest: self.digest }
    }
}

/// A member is found under its identifier, and nobody else is.
pub proof fn lemma_member_found(members: Seq<MemberView>, id: NodeId, i: int)
    requires
        distinct_members(members),
    ensures
        0 <= i < members.len() && members[i].node_id == id ==> member_of(members, id) == Some(
            members[i],
        ),
        member_of(members, id) matches Some(m) ==> members.contains(m) && m.node_id == id,
        member_of(members, id) is None ==> (0 <= i < members.len() ==> members[i].node_id != id),
{
    if is_member(members, id) {
        let k = choose|k: int| 0 <= k < members.len() && (#[trigger] members[k]).node_id == id;
        if 0 <= i < members.len() && members[i].node_id == id && i != k {
            assert(members[i].node_id != members[k].node_id);
        }
    }
}

/// One more member adds its voting power to every set that holds it, and nothing
/// to the others.
pub proof fn lemma_power_adds_up(members: Seq<MemberView>, m: MemberView, ids: Set<NodeId>)
    ensures
        power_of(members.push(m), ids) == power_of(members, ids) + (if ids.contains(m.node_id) {
            m.voting_power as nat
        } else {
            0
        }),
        power_of(Seq::empty(), ids) == 0,
        total_power(members.push(m)) == total_power(members) + m.voting_power,
{
    assert(members.push(m).drop_last() =~= members);
}

/// A set is a quorum exactly if the others have less than a third of the voting
/// power.
pub proof fn lemma_quorum_leaves_less_than_a_third(members: Seq<MemberView>, ids: Set<NodeId>)
    ensures
        power_of(members, ids) + power_of(members, ids.complement()) == total_power(members),
        is_quorum(members, ids) <==> 3 * power_of(members, ids.complement()) < total_power(members),
{
    lemma_power_inclusion(members, ids, ids.complement());
    assert(ids.union(ids.complement()) =~= Set::full());
    assert(ids.intersect(ids.complement()) =~= Set::empty());
    lemma_no_power(members);
}

/// Nobody has no voting power.
proof fn lemma_no_power(members: Seq<MemberView>)
    ensures
        power_of(members, Set::empty()) == 0,
    decreases members.len(),
{
    if members.len() > 0 {
        lemma_no_power(members.drop_last());
    }
}

/// Signers make a quorum exactly if they are distinct members with strictly more
/// than two thirds of the voting power.
pub proof fn lemma_signers_make_quorum(members: Seq<MemberView>, signers: Seq<NodeId>)
    ensures
        quorum_check(members, signers) == Ok::<bool, QuorumError>(true) <==> {
            &&& signers.no_duplicates()
            &&& forall|i: int|
                0 <= i < signers.len() ==> is_member(members, #[trigger] signers[i])
            &&& power_of(members, signers.to_set()) * 3 > total_power(members) * 2
        },
        quorum_check(members, signers) is Ok <==> valid_signers(members, signers),
{
    lemma_signer_check(members, signers, 0);
}

/// The first faulty signer decides what is wrong with a list: it is no member, or
/// it has signed before.
pub proof fn lemma_first_faulty_signer(members: Seq<MemberView>, signers: Seq<NodeId>, i: int)
    requires
        0 <= i < signers.len(),
        valid_signers(members, signers.take(i)),
    ensures
        !is_member(members, signers[i]) ==> quorum_check(members, signers) == Err::<
            bool,
            QuorumError,
        >(QuorumError::UnknownSigner),
        is_member(members, signers[i]) && signers.take(i).contains(signers[i]) ==> quorum_check(
            members,
            signers,
        ) == Err::<bool, QuorumError>(QuorumError::DuplicateSigner),
{
    lemma_signers_before(members, signers, 0, i);
}

/// The check of a list reaches the first faulty signer.
proof fn lemma_signers_before(members: Seq<MemberView>, signers: Seq<NodeId>, k: int, i: int)
    requires
        0 <= k <= i < signers.len(),
        valid_signers(members, signers.take(i)),
    ensures
        signer_check(members, signers, k) == signer_check(members, signers, i),
    decreases i - k,
{
    if k < i {
        assert(signers.take(i)[k] == signers[k]);
        if signers.take(k).contains(signers[k]) {
            let j = choose|j: int| 0 <= j < k && signers.take(k)[j] == signers[k];
            assert(signers.take(i)[j] == signers[j]);
        }
        lemma_signers_before(members, signers, k + 1, i);
    }
}

/// Leadership passes from each member to the next one with every view, and from
/// the last one to the first; in view zero the second member leads.
pub proof fn lemma_leadership_rotates(members: Seq<MemberView>, view: u64, k: int)
    requires
        members.len() > 0,
        0 <= k < members.len(),
    ensures
        members.len() > 1 ==> leader_of(members, 0) == members[1].node_id,
        members.len() == 1 ==> leader_of(members, view) == members[0].node_id,
        view < u64::MAX && (view + 1) % members.len() as int == k ==> leader_of(members, view)
            == members[k].node_id && leader_of(members, (view + 1) as u64) == members[if k + 1
            == members.len() {
            0
        } else {
            k + 1
        }].node_id,
{
    let n = members.len() as int;
    if members.len() > 1 {
        vstd::arithmetic::div_mod::lemma_small_mod(1, n as nat);
    }
    if view < u64::MAX && (view + 1) % n == k {
        if k + 1 == n {
            assert((view + 2) % n == 0) by (nonlinear_arith)
                requires
                    (view + 1) % n == n - 1,
                    n > 0,
            ;
        } else {
            assert((view + 2) % n == k + 1) by (nonlinear_arith)
                requires
                    (view + 1) % n == k,
                    0 <= k,
                    k + 1 < n,
            ;
        }
    }
}

/// The encoding of members without its first byte, read from the front.
proof fn lemma_members_front(members: Seq<MemberView>)
    requires
        members.len() > 0,
    ensures
        members_bytes(members) == seq![4u8] + member_bytes(members[0]) + members_bytes(
            members.skip(1),
        ).skip(1),
        members_bytes(members.skip(1)).len() >= 1,
        members_bytes(members.skip(1))[0] == 4u8,
    decreases members.len(),
{
    if members.len() == 1 {
        assert(members.skip(1) =~= Seq::empty());
        assert(members.drop_last() =~= Seq::empty());
        assert(members_bytes(members.drop_last()) == seq![4u8]);
        assert(members_bytes(members.skip(1)) == seq![4u8]);
        assert(members_bytes(members) =~= seq![4u8] + member_bytes(members[0]) + members_bytes(
            members.skip(1),
        ).skip(1));
    } else {
        let front = members.drop_last();
        let last = member_bytes(members.last());
        lemma_members_front(front);
        assert(front[0] == members[0]);
        assert(members.skip(1).drop_last() =~= front.skip(1));
        assert(members.skip(1).last() == members.last());
        let tail = members_bytes(front.skip(1));
        assert(members_bytes(members.skip(1)) =~= tail + last);
        assert((tail + last).skip(1) =~= tail.skip(1) + last);
        assert(members_bytes(members) =~= seq![4u8] + member_bytes(members[0]) + members_bytes(
            members.skip(1),
        ).skip(1));
    }
}

/// A member's powers fit in 64 bits, and its key, if it has one, is not empty.
pub open spec fn encodable(m: MemberView) -> bool {
    &&& m.voting_power <= u64::MAX
    &&& m.bls_pubkey matches Some(k) ==> 0 < k.len() <= u64::MAX
}

/// Different committees have different encodings, so that the digest of a
/// committee stands for its members, in their order, with their powers and keys.
pub proof fn lemma_members_injective(a: Seq<MemberView>, b: Seq<MemberView>)
    requires
        members_bytes(a) == members_bytes(b),
        forall|i: int| 0 <= i < a.len() ==> encodable(#[trigger] a[i]),
        forall|i: int| 0 <= i < b.len() ==> encodable(#[trigger] b[i]),
    ensures
        a == b,
    decreases a.len() + b.len(),
{
    vstd::bytes::lemma_auto_spec_u64_to_from_le_bytes();
    if a.len() > 0 {
        lemma_members_front(a);
    }
    if b.len() > 0 {
        lemma_members_front(b);
    }
    let one = seq![4u8];
    if a.len() == 0 || b.len() == 0 {
        assert(members_bytes(a).len() > 1 || a.len() == 0);
        assert(members_bytes(b).len() > 1 || b.len() == 0);
        assert(a =~= b);
    } else {
        let x = a[0];
        let y = b[0];
        let kx = match x.bls_pubkey {
            Some(k) => k,
            None => Seq::empty(),
        };
        let ky = match y.bls_pubkey {
            Some(k) => k,
            None => Seq::empty(),
        };
        let px = vstd::bytes::spec_u64_to_le_bytes(x.voting_power as u64);
        let py = vstd::bytes::spec_u64_to_le_bytes(y.voting_power as u64);
        let lx = vstd::bytes::spec_u64_to_le_bytes(kx.len() as u64);
        let ly = vstd::bytes::spec_u64_to_le_bytes(ky.len() as u64);
        let ta = members_bytes(a.skip(1));
        let tb = members_bytes(b.skip(1));
        crate::bytes::lemma_hash_view(x.node_id, y.node_id);
        let h1 = one + x.node_id@ + px + lx;
        let h2 = one + y.node_id@ + py + ly;
        assert(members_bytes(a) =~= h1 + (kx + ta.skip(1)));
        assert(members_bytes(b) =~= h2 + (ky + tb.skip(1)));
        crate::bytes::lemma_split(h1, kx + ta.skip(1), h2, ky + tb.skip(1));
        crate::bytes::lemma_split(one + x.node_id@ + px, lx, one + y.node_id@ + py, ly);
        crate::bytes::lemma_split(one + x.node_id@, px, one + y.node_id@, py);
        crate::bytes::lemma_split(one, x.node_id@, one, y.node_id@);
        assert(encodable(a[0]) && encodable(b[0]));
        assert(kx.len() as u64 == ky.len() as u64);
        assert(kx.len() == ky.len());
        crate::bytes::lemma_split(kx, ta.skip(1), ky, tb.skip(1));
        assert(x.voting_power as u64 == y.voting_power as u64);
        assert(x == y);
        assert(ta =~= one + ta.skip(1));
        assert(tb =~= one + tb.skip(1));
        assert forall|i: int| 0 <= i < a.skip(1).len() implies encodable(#[trigger] a.skip(1)[i]) by {
            assert(a.skip(1)[i] == a[i + 1]);
        }
        assert forall|i: int| 0 <= i < b.skip(1).len() implies encodable(#[trigger] b.skip(1)[i]) by {
            assert(b.skip(1)[i] == b[i + 1]);
        }
        lemma_members_injective(a.skip(1), b.skip(1));
        assert(a =~= seq![a[0]] + a.skip(1));
        assert(b =~= seq![b[0]] + b.skip(1));
    }
}

} // verus!
