use hyperlicked::consensus::equivocation::EquivocationProof;
use hyperlicked::consensus::evidence::ConsensusTransaction;
use hyperlicked::consensus::hooks::{AppHook, Applied, EvidenceReading, PayloadBytes};
use hyperlicked::consensus::persistence::{Halt, MemoryJournal};
use hyperlicked::consensus::runner::rounds::{Action, Message, Phase};
use hyperlicked::consensus::runner::setup::{LiveError, SYNC_GAP};
use hyperlicked::consensus::runner::ConsensusRunner;
use hyperlicked::crypto::BlsSecretKey;
use hyperlicked::types::block::{Block, CommitmentV2};
use hyperlicked::types::messages::{Prepare, Propose};
use hyperlicked::types::settings::{genesis_domain_hash, ConsensusConfig};
use hyperlicked::types::vote::Vote;

/// A stateless application that takes evidence.
struct TestApp;

impl AppHook for TestApp {
    fn applied(&self) -> Applied {
        unreachable!("ghost")
    }

    fn evidence_in(_payload: PayloadBytes) -> EvidenceReading {
        unreachable!("ghost")
    }

    fn prepare_payload(&self, parent: &Block) -> Vec<u8> {
        vec![parent.height as u8]
    }

    fn execute(&mut self, _block: &Block) -> [u8; 32] {
        [0u8; 32]
    }

    fn commit(&mut self, block: &Block) -> Result<[u8; 32], String> {
        Ok(block.app_hash)
    }

    fn preflight_commitment(&self, _block: &Block) -> Result<Option<CommitmentV2>, String> {
        Ok(Some(CommitmentV2::default()))
    }

    fn preflight_state_root(&self, _block: &Block) -> Result<Option<[u8; 32]>, String> {
        Ok(Some([0u8; 32]))
    }

    fn submit_equivocation_evidence(&mut self, _evidence: EquivocationProof) -> bool {
        true
    }

    fn decode_consensus_payload(
        &self,
        _payload: &Vec<u8>,
    ) -> Result<Vec<ConsensusTransaction>, String> {
        Ok(vec![])
    }
}

type Node = ConsensusRunner<TestApp, MemoryJournal>;

const NOW: u64 = 1_700_000_000_000;
const SECOND: u64 = 1_000_000_000;

fn id(i: usize) -> [u8; 32] {
    [i as u8 + 1; 32]
}

fn secret(i: usize) -> BlsSecretKey {
    BlsSecretKey::from_seed(&[i as u8 + 50; 32])
}

fn config(i: usize, n: usize) -> ConsensusConfig {
    let mut config = ConsensusConfig {
        epoch: 0,
        genesis_hash: [0u8; 32],
        node_id: id(i),
        validators: (0..n).map(id).collect(),
        voting_powers: vec![1; n],
        view_timeout_ms: 1000,
        bls_pubkeys: (0..n).map(|k| secret(k).public_key()).collect(),
        bls_secret_key: Some([i as u8 + 50; 32]),
    };
    config.genesis_hash = genesis_domain_hash(
        &b"rounds".to_vec(),
        config.epoch,
        config.view_timeout_ms,
        config.committee().unwrap().hash(),
    );
    config
}

fn cluster(n: usize) -> Vec<Node> {
    (0..n)
        .map(|i| {
            let mut node = ConsensusRunner::new_with_recovery(
                config(i, n),
                id(i),
                true,
                MemoryJournal::new(),
            )
            .expect("start")
            .with_app(TestApp);
            node.initialize_live().expect("live");
            node
        })
        .collect()
}

fn leader_index(view: u64, n: usize) -> usize {
    ((view + 1) % n as u64) as usize
}

fn vote_of(node: &mut Node, leader: usize, propose: &Propose, view: u64) -> Vote {
    let action = node
        .receive(
            Phase::Proposal { view },
            id(leader),
            Message::Propose(propose.clone()),
            SECOND,
        )
        .expect("no halt");
    match action {
        Action::Vote(p) => node
            .process_proposal(p, 1_000, NOW)
            .expect("no halt")
            .expect("a valid proposal gets a vote"),
        _ => panic!("the proposal was awaited"),
    }
}

/// Runs one view in which everything works; returns the proposed block.
fn good_round(nodes: &mut Vec<Node>, view: u64) -> (Block, Prepare) {
    let n = nodes.len();
    let leader = leader_index(view, n);
    for node in nodes.iter_mut() {
        assert_eq!(node.current_view(), view);
    }
    assert!(nodes[leader].begin_round().expect("begin"));
    let block = nodes[leader].draft_proposal(view, NOW).expect("draft");
    let (hash, app_hash) = (block.hash(), block.app_hash);
    let propose = nodes[leader]
        .admit_own_proposal(block.clone(), 1_000)
        .expect("admit");
    nodes[leader]
        .vote_own_proposal(view, hash, app_hash)
        .expect("own vote");
    for i in 0..n {
        if i == leader {
            continue;
        }
        assert!(!nodes[i].begin_round().expect("begin"));
        let vote = vote_of(&mut nodes[i], leader, &propose, view);
        assert_eq!(vote.voter, id(i));
        let action = nodes[leader]
            .receive(
                Phase::Votes {
                    view,
                    block_hash: hash,
                    app_hash,
                },
                id(i),
                Message::Vote(vote),
                SECOND * (view + 1),
            )
            .expect("no halt");
        assert!(matches!(action, Action::Nothing));
    }
    assert!(nodes[leader].has_vote_quorum(&hash));
    let prepare = nodes[leader]
        .finish_leader_round(view, hash)
        .expect("form")
        .expect("quorum");
    assert!(nodes[leader].take_certificate(prepare.qc.clone()).is_ok());
    for i in 0..n {
        if i == leader {
            continue;
        }
        let action = nodes[i]
            .receive(
                Phase::Prepare { view },
                id(leader),
                Message::Prepare(prepare.clone()),
                SECOND,
            )
            .expect("no halt");
        match action {
            Action::Follow(p) => {
                assert!(matches!(nodes[i].process_prepare(p), Ok(Ok(()))));
            }
            _ => panic!("the announcement was awaited"),
        }
    }
    (block, prepare)
}

#[test]
fn four_validators_commit_one_chain() {
    let mut nodes = cluster(4);
    let mut blocks = Vec::new();
    for view in 0..80u64 {
        let (block, _) = good_round(&mut nodes, view);
        blocks.push(block);
        for node in &nodes {
            assert_eq!(node.committed_height(), view);
        }
    }
    for (i, block) in blocks.iter().enumerate() {
        assert_eq!(block.height, i as u64 + 1);
        if i > 0 {
            assert_eq!(block.parent, blocks[i - 1].hash());
        }
    }
}

#[test]
fn unawaited_messages_change_nothing() {
    let mut nodes = cluster(4);
    let leader = leader_index(0, 4);
    let block = nodes[leader].draft_proposal(0, NOW).unwrap();
    let propose = nodes[leader].admit_own_proposal(block, 1_000).unwrap();
    let follower = (leader + 1) % 4;
    // From another peer, or in another view, the proposal is not the awaited one.
    for (view, from) in [(0u64, follower), (1u64, leader)] {
        assert!(matches!(
            nodes[follower].receive(
                Phase::Proposal { view },
                id(from),
                Message::Propose(propose.clone()),
                SECOND
            ),
            Ok(Action::Nothing)
        ));
    }
    let mut forged = propose.clone();
    forged.block.timestamp += 1;
    assert!(matches!(
        nodes[follower].receive(
            Phase::Proposal { view: 0 },
            id(leader),
            Message::Propose(forged),
            SECOND
        ),
        Ok(Action::Nothing)
    ));
    assert!(matches!(
        nodes[follower].receive(
            Phase::Proposal { view: 0 },
            id(leader),
            Message::UserTransaction(vec![1, 2]),
            SECOND
        ),
        Ok(Action::Submit(t)) if t == vec![1, 2]
    ));
    assert!(matches!(
        nodes[follower].receive(
            Phase::Prepare { view: 0 },
            id(leader),
            Message::SyncRequest,
            SECOND
        ),
        Ok(Action::AnswerSync)
    ));
    assert!(matches!(
        nodes[follower].receive(
            Phase::Prepare { view: 0 },
            id(leader),
            Message::SyncResponse,
            SECOND
        ),
        Ok(Action::EndSync)
    ));
    assert!(nodes[follower]
        .handle_user_transaction(vec![1, 2], NOW)
        .is_err());
}

#[test]
fn a_double_vote_is_detected_recorded_and_sent_again() {
    let mut nodes = cluster(4);
    let view = 0;
    let leader = leader_index(view, 4);
    let block = nodes[leader].draft_proposal(view, NOW).unwrap();
    let (hash, app_hash) = (block.hash(), block.app_hash);
    nodes[leader].admit_own_proposal(block, 1_000).unwrap();
    let phase = Phase::Votes {
        view,
        block_hash: hash,
        app_hash,
    };
    let cheat = (leader + 1) % 4;
    let context = config(0, 4).context().unwrap();
    let honest = Vote::new_bls(context, view, hash, app_hash, id(cheat), &secret(cheat));
    let other = Vote::new_bls(context, view, [7u8; 32], app_hash, id(cheat), &secret(cheat));
    let relayed = nodes[leader].receive(phase, id(leader), Message::Vote(honest.clone()), SECOND);
    assert!(matches!(relayed, Ok(Action::Nothing)));
    assert_eq!(nodes[leader].equivocation_stats().tracked_votes, 0);
    let first = nodes[leader].receive(phase, id(cheat), Message::Vote(honest), SECOND);
    assert!(matches!(first, Ok(Action::Nothing)));
    let evidence = match nodes[leader].receive(phase, id(cheat), Message::Vote(other), SECOND) {
        Ok(Action::Accuse(e)) => e,
        _ => panic!("two votes in one view are evidence"),
    };
    assert_eq!(evidence.offender, id(cheat));
    let recorded = nodes[leader].handle_equivocation(evidence.clone()).unwrap();
    assert!(nodes[leader].verify_evidence(&recorded).is_ok());
    assert_eq!(nodes[leader].get_equivocations().len(), 1);
    let stats = nodes[leader].equivocation_stats();
    assert_eq!(stats.detected_equivocations, 1);
    assert_eq!(stats.unique_offenders, 1);

    // Another node takes it from the network, and refuses a forged one.
    let observer = (leader + 2) % 4;
    assert!(matches!(
        nodes[observer].receive(
            Phase::Proposal { view },
            id(leader),
            Message::EquivocationEvidence(evidence.clone()),
            SECOND
        ),
        Ok(Action::Examine(_))
    ));
    assert!(matches!(
        nodes[observer].handle_inbound_equivocation(evidence),
        Ok(Some(_))
    ));
    let forged = EquivocationProof {
        offender: id(observer),
        ..recorded.clone()
    };
    assert!(matches!(
        nodes[observer].handle_inbound_equivocation(forged.clone()),
        Ok(None)
    ));
    assert!(matches!(
        nodes[observer].handle_equivocation(forged.clone()),
        Err(Halt::UnverifiedEquivocation)
    ));

    let batch = nodes[leader].rebroadcast_equivocation_batch().unwrap();
    assert_eq!(batch.len(), 1);
    assert_eq!(batch[0].journal_key(), recorded.journal_key());
    assert!(nodes[(leader + 3) % 4]
        .rebroadcast_equivocation_batch()
        .unwrap()
        .is_empty());
    assert!(matches!(
        nodes[leader].evidence_batch(&vec![forged]),
        Err(LiveError::RecordedEvidence)
    ));
}

#[test]
fn timeouts_of_a_quorum_move_every_node_on() {
    let mut nodes = cluster(4);
    let mut timeouts = Vec::new();
    for node in nodes.iter_mut() {
        let plan = node.handle_timeout();
        assert!(plan.fault.is_none());
        assert!(plan.view_change.is_some());
        assert!(plan.new_view.is_none());
        timeouts.push(plan.timeout.expect("nodes with keys sign timeouts"));
        assert_eq!(node.current_view(), 1);
    }
    // Late timeouts of the old view are outside the window.
    let action = nodes[0].receive(
        Phase::Proposal { view: 1 },
        id(1),
        Message::Timeout(timeouts[1].clone()),
        SECOND,
    );
    assert!(matches!(action, Ok(Action::Nothing)));
    assert_eq!(nodes[0].current_view(), 1);
}

#[test]
fn a_timeout_certificate_moves_a_waiting_node_on() {
    let mut nodes = cluster(4);
    let mut timeouts = Vec::new();
    for node in nodes.iter_mut().skip(1) {
        timeouts.push(node.handle_timeout().timeout.unwrap());
    }
    for (i, timeout) in timeouts.into_iter().enumerate() {
        assert_eq!(nodes[0].current_view(), 0);
        let action = nodes[0].receive(
            Phase::Proposal { view: 0 },
            id(i + 1),
            Message::Timeout(timeout),
            SECOND,
        );
        assert!(matches!(action, Ok(Action::Nothing)));
    }
    assert_eq!(nodes[0].current_view(), 1);
    // The certificate has been used: its own timeout starts a view change of
    // the new view.
    let plan = nodes[0].handle_timeout();
    assert_eq!(plan.view_change.unwrap().from_view, 1);
}

#[test]
fn a_view_change_quorum_makes_the_next_leader_announce() {
    let mut nodes = cluster(4);
    let next = leader_index(1, 4);
    let mut changes = Vec::new();
    for i in 0..4 {
        if i != next {
            changes.push((i, nodes[i].handle_timeout().view_change.unwrap()));
        }
    }
    let mut announced = None;
    for (i, change) in changes {
        assert!(announced.is_none());
        match nodes[next].receive(
            Phase::Proposal { view: 0 },
            id(i),
            Message::ViewChange(change),
            SECOND,
        ) {
            Ok(Action::Announce(nv)) => announced = Some(nv),
            Ok(Action::Nothing) => {}
            _ => panic!("view changes are collected"),
        }
    }
    let announced = announced.expect("three of four are a quorum");
    assert_eq!(announced.view, 1);
    assert_eq!(nodes[next].current_view(), 1);

    let mut late = cluster(4).remove((next + 1) % 4);
    assert!(matches!(
        late.receive(
            Phase::Proposal { view: 0 },
            id((next + 2) % 4),
            Message::NewView(announced.clone()),
            SECOND
        ),
        Ok(Action::Nothing)
    ));
    assert_eq!(late.current_view(), 0);
    assert!(late
        .receive(
            Phase::Proposal { view: 0 },
            id(next),
            Message::NewView(announced),
            SECOND
        )
        .is_ok());
    assert_eq!(late.current_view(), 1);
}

#[test]
fn a_leader_without_a_quorum_gives_up_the_view() {
    let mut nodes = cluster(4);
    let leader = leader_index(0, 4);
    let block = nodes[leader].draft_proposal(0, NOW).unwrap();
    let (hash, app_hash) = (block.hash(), block.app_hash);
    nodes[leader].admit_own_proposal(block, 1_000).unwrap();
    nodes[leader].vote_own_proposal(0, hash, app_hash).unwrap();
    assert!(!nodes[leader].has_vote_quorum(&hash));
    assert!(nodes[leader]
        .finish_leader_round(0, hash)
        .unwrap()
        .is_none());
    assert_eq!(nodes[leader].current_view(), 1);
}

#[test]
fn votes_are_rate_limited() {
    let mut nodes = cluster(4);
    let leader = leader_index(0, 4);
    let block = nodes[leader].draft_proposal(0, NOW).unwrap();
    let (hash, app_hash) = (block.hash(), block.app_hash);
    nodes[leader].admit_own_proposal(block, 1_000).unwrap();
    let phase = Phase::Votes {
        view: 0,
        block_hash: hash,
        app_hash,
    };
    let voter = (leader + 1) % 4;
    let context = config(0, 4).context().unwrap();
    // Invalid votes use up the allowance of the second.
    for _ in 0..100 {
        let mut bad = Vote::new_bls(context, 0, hash, app_hash, id(voter), &secret(voter));
        bad.signature = vec![0u8; 96];
        assert!(nodes[leader]
            .receive(phase, id(voter), Message::Vote(bad), SECOND)
            .is_ok());
    }
    let good = Vote::new_bls(context, 0, hash, app_hash, id(voter), &secret(voter));
    assert!(nodes[leader]
        .receive(phase, id(voter), Message::Vote(good.clone()), SECOND)
        .is_ok());
    assert_eq!(nodes[leader].equivocation_stats().tracked_votes, 0);
    assert!(nodes[leader]
        .receive(phase, id(voter), Message::Vote(good), 3 * SECOND)
        .is_ok());
    assert_eq!(nodes[leader].equivocation_stats().tracked_votes, 1);
}

#[test]
fn catching_up_is_asked_of_one_other_validator() {
    let mut nodes = cluster(4);
    assert!(!nodes[0].detect_sync_needed(SYNC_GAP));
    assert!(nodes[0].detect_sync_needed(SYNC_GAP + 1));
    assert_eq!(nodes[0].start_sync(), Some(id(1)));
    assert_eq!(nodes[0].start_sync(), None);
    nodes[0].handle_sync_response();
    assert_eq!(nodes[0].start_sync(), Some(id(1)));
    assert_eq!(nodes[2].start_sync(), Some(id(0)));
}
