//! Nodes of the replicated log, alone and in simulated clusters.

use std::collections::{BTreeMap, BTreeSet};
use std::time::{Duration, Instant};

use aster::ordmap::OrdSet;
use aster::raft::cluster::{FaultProfile, SimError, SimEvent};
use aster::raft::configuration::Configuration;
use aster::raft::machine::Raft;
use aster::raft::simulator::Simulator;
use aster::raft::types::{
    Action, EntryPayload, HardState, Input, LogEntry, Message, PersistentSnapshot, ReadError, Role,
    StableState, StorageMutation, Tick,
};
use aster::raft::violations::Violation;

fn node_set(nodes: &[u64]) -> OrdSet<u64> {
    let mut set = OrdSet::new();
    for node in nodes {
        set.insert(*node);
    }
    set
}

fn config(voters: &[u64]) -> Configuration {
    Configuration::new(voters.to_vec()).expect("non-empty voter set")
}

#[test]
fn single_node_persists_vote_and_noop_before_commit() {
    let mut node = Raft::recover(1, config(&[1]), StableState::default()).unwrap();
    let actions = node.step(Input::Tick(Tick::Election));

    assert_eq!(node.role(), Role::Leader);
    assert_eq!(node.term(), 1);
    assert_eq!(node.commit_index(), 1);
    assert_eq!(node.applied_index(), 1);

    let hard_vote = actions
        .iter()
        .position(|action| {
            matches!(
                action,
                Action::Persist(StorageMutation::HardState(HardState {
                    current_term: 1,
                    voted_for: Some(1),
                    commit_index: 0,
                }))
            )
        })
        .unwrap();
    let noop = actions
        .iter()
        .position(|action| {
            matches!(
                action,
                Action::Persist(StorageMutation::Append(entries))
                    if entries.len() == 1 && entries[0].payload == EntryPayload::Noop
            )
        })
        .unwrap();
    let hard_commit = actions
        .iter()
        .position(|action| {
            matches!(
                action,
                Action::Persist(StorageMutation::HardState(HardState {
                    current_term: 1,
                    voted_for: Some(1),
                    commit_index: 1,
                }))
            )
        })
        .unwrap();
    let apply = actions
        .iter()
        .position(|action| matches!(action, Action::Apply(entry) if entry.index == 1))
        .unwrap();
    assert!(hard_vote < noop && noop < hard_commit && hard_commit < apply);

    let read = node.step(Input::ReadIndex {
        context: b"single-node-read".to_vec(),
    });
    assert!(read.iter().any(|action| matches!(
        action,
        Action::ReadReady { context, index: 1 } if context == b"single-node-read"
    )));
}

#[test]
fn recovering_commit_replays_before_any_protocol_response() {
    let entry = LogEntry {
        index: 1,
        term: 1,
        payload: EntryPayload::Command {
            id: 9,
            bytes: b"durable".to_vec(),
        },
    };
    let stable = StableState {
        hard_state: HardState {
            current_term: 2,
            voted_for: None,
            commit_index: 1,
        },
        snapshot: None,
        entries: vec![entry],
        applied_index: 0,
    };
    let mut node = Raft::recover(1, config(&[1, 2, 3]), stable).unwrap();
    let actions = node.step(Input::Message {
        from: 2,
        message: Message::RequestVote {
            term: 2,
            candidate_id: 2,
            last_log_index: 1,
            last_log_term: 1,
        },
    });
    assert!(matches!(actions.first(), Some(Action::Apply(entry)) if entry.index == 1));
    assert!(
        actions
            .iter()
            .any(|action| matches!(action, Action::Send { to: 2, .. }))
    );
}

#[test]
fn vote_requires_an_up_to_date_log_and_is_stable() {
    let stable = StableState {
        hard_state: HardState {
            current_term: 2,
            voted_for: None,
            commit_index: 0,
        },
        snapshot: None,
        entries: vec![
            LogEntry {
                index: 1,
                term: 1,
                payload: EntryPayload::Noop,
            },
            LogEntry {
                index: 2,
                term: 2,
                payload: EntryPayload::Noop,
            },
        ],
        applied_index: 0,
    };
    let mut node = Raft::recover(1, config(&[1, 2, 3]), stable).unwrap();
    let stale_response = node.step(Input::Message {
        from: 2,
        message: Message::RequestVote {
            term: 3,
            candidate_id: 2,
            last_log_index: 99,
            last_log_term: 1,
        },
    });
    assert!(stale_response.iter().any(|action| matches!(
        action,
        Action::Send {
            to: 2,
            message: Message::RequestVoteResponse {
                term: 3,
                granted: false
            }
        }
    )));

    let granted = node.step(Input::Message {
        from: 3,
        message: Message::RequestVote {
            term: 3,
            candidate_id: 3,
            last_log_index: 2,
            last_log_term: 2,
        },
    });
    assert!(granted.iter().any(|action| matches!(
        action,
        Action::Persist(StorageMutation::HardState(HardState {
            current_term: 3,
            voted_for: Some(3),
            ..
        }))
    )));
}

#[test]
fn append_rejection_returns_first_index_of_conflicting_term() {
    let stable = StableState {
        hard_state: HardState {
            current_term: 3,
            voted_for: None,
            commit_index: 1,
        },
        snapshot: None,
        entries: vec![
            LogEntry {
                index: 1,
                term: 1,
                payload: EntryPayload::Noop,
            },
            LogEntry {
                index: 2,
                term: 2,
                payload: EntryPayload::Noop,
            },
            LogEntry {
                index: 3,
                term: 2,
                payload: EntryPayload::Noop,
            },
        ],
        applied_index: 1,
    };
    let mut node = Raft::recover(1, config(&[1, 2, 3]), stable).unwrap();
    let actions = node.step(Input::Message {
        from: 2,
        message: Message::AppendEntries {
            term: 3,
            leader_id: 2,
            prev_log_index: 3,
            prev_log_term: 1,
            entries: Vec::new(),
            leader_commit: 1,
            read_context: Some(b"barrier".to_vec()),
        },
    });
    assert!(actions.iter().any(|action| matches!(
        action,
        Action::Send {
            to: 2,
            message: Message::AppendEntriesResponse {
                success: false,
                conflict_index: 2,
                conflict_term: Some(2),
                read_context: Some(context),
                ..
            }
        } if context == b"barrier"
    )));
}

#[test]
fn corrupt_snapshot_chunk_never_reaches_persistence() {
    let configuration = config(&[1, 2, 3]);
    let mut node = Raft::recover(1, configuration.clone(), StableState::default()).unwrap();
    let valid = PersistentSnapshot::new(5, 2, configuration, b"correct bytes".to_vec());
    let actions = node.step(Input::Message {
        from: 2,
        message: Message::InstallSnapshot {
            term: 2,
            leader_id: 2,
            metadata: valid.metadata,
            offset: 0,
            data: b"tampered!!!!!".to_vec(),
            done: true,
        },
    });
    assert!(!actions.iter().any(|action| matches!(
        action,
        Action::Persist(StorageMutation::InstallSnapshot { .. })
    )));
    assert!(actions.iter().any(|action| matches!(
        action,
        Action::Send {
            message: Message::InstallSnapshotResponse {
                accepted: false,
                ..
            },
            ..
        }
    )));
}

#[test]
fn reliable_cluster_commits_and_agrees_on_state_hash() {
    let mut sim = Simulator::new(7, vec![1, 2, 3], FaultProfile::reliable()).unwrap();
    sim.campaign(1).unwrap();
    let (leader, _) = sim.run_until_leader(30).unwrap().expect("leader");
    sim.run(8).unwrap();
    sim.propose(leader, 42, b"alpha".to_vec()).unwrap();
    sim.run(16).unwrap();

    let applied = [1, 2, 3]
        .into_iter()
        .map(|node| sim.applied_index(node).unwrap())
        .collect::<BTreeSet<_>>();
    assert_eq!(applied.len(), 1);
    let hashes = [1, 2, 3]
        .into_iter()
        .map(|node| sim.state_hash(node).unwrap())
        .collect::<BTreeSet<_>>();
    assert_eq!(hashes.len(), 1);
    assert!(
        sim.events().iter().any(
            |event| matches!(event, SimEvent::Committed { id: 42, node, .. } if *node == leader)
        )
    );
}

#[test]
fn isolated_leader_cannot_acknowledge_and_steps_down() {
    let mut sim = Simulator::new(11, vec![1, 2, 3], FaultProfile::reliable()).unwrap();
    sim.campaign(1).unwrap();
    let (leader, _) = sim.run_until_leader(30).unwrap().expect("leader");
    sim.run(8).unwrap();
    let baseline = sim.committed_index(leader).unwrap();
    sim.take_events();
    sim.isolate(leader);
    sim.propose(leader, 777, b"minority".to_vec()).unwrap();
    sim.read_index(leader, b"no-quorum".to_vec()).unwrap();
    sim.run(50).unwrap();

    assert_eq!(sim.committed_index(leader), Some(baseline));
    assert!(
        !sim.events()
            .iter()
            .any(|event| matches!(event, SimEvent::Committed { id: 777, .. }))
    );
    assert!(!sim.events().iter().any(
        |event| matches!(event, SimEvent::ReadReady { context, .. } if context == b"no-quorum")
    ));
    assert!(!sim.leaders().iter().any(|(node, _)| *node == leader));
}

#[test]
fn committed_entry_survives_leader_crash_and_failover() {
    let mut sim = Simulator::new(19, vec![1, 2, 3, 4, 5], FaultProfile::reliable()).unwrap();
    let (leader, _) = sim.run_until_leader(80).unwrap().expect("leader");
    sim.propose(leader, 501, b"survives".to_vec()).unwrap();
    sim.run(20).unwrap();
    assert!(sim.events().iter().any(
        |event| matches!(event, SimEvent::Committed { id: 501, node, .. } if *node == leader)
    ));
    sim.crash(leader).unwrap();
    let (replacement, _) = sim.run_until_leader(100).unwrap().expect("replacement");
    assert_ne!(replacement, leader);
    sim.restart(leader).unwrap();
    sim.run(50).unwrap();

    let live_set = sim.live_nodes();
    let live: Vec<u64> = (0..live_set.len()).map(|i| *live_set.member_at(i)).collect();
    let max_applied = live
        .iter()
        .map(|node| sim.applied_index(*node).unwrap())
        .max()
        .unwrap();
    for node in live {
        assert_eq!(sim.applied_index(node), Some(max_applied));
    }
    sim.assert_invariants().unwrap();
}

#[test]
fn lagging_follower_catches_up_via_hashed_snapshot() {
    let mut sim = Simulator::new(23, vec![1, 2, 3], FaultProfile::reliable()).unwrap();
    let (leader, _) = sim.run_until_leader(60).unwrap().expect("leader");
    // Choose either non-leader deterministically without depending on leader ID.
    let lagger = [1, 2, 3].into_iter().find(|node| *node != leader).unwrap();
    sim.crash(lagger).unwrap();
    for id in 1..=12_u128 {
        sim.propose(leader, 10_000 + id, id.to_le_bytes().to_vec())
            .unwrap();
        sim.run(3).unwrap();
    }
    sim.run(10).unwrap();
    let snapshot_index = sim.applied_index(leader).unwrap();
    sim.snapshot(leader, snapshot_index).unwrap();
    sim.discard_queued_messages();
    sim.restart(lagger).unwrap();
    sim.run(100).unwrap();

    assert_eq!(sim.applied_index(lagger), sim.applied_index(leader));
    assert_eq!(sim.state_hash(lagger), sim.state_hash(leader));
    assert!(
        sim.durable_state(lagger)
            .unwrap()
            .snapshot
            .as_ref()
            .is_some_and(PersistentSnapshot::validate)
    );
}

#[test]
fn linearizable_read_needs_a_quorum_echo() {
    let mut sim = Simulator::new(31, vec![1, 2, 3], FaultProfile::reliable()).unwrap();
    let (leader, _) = sim.run_until_leader(60).unwrap().expect("leader");
    sim.run(10).unwrap();
    sim.take_events();
    sim.read_index(leader, b"read-ok".to_vec()).unwrap();
    sim.run(8).unwrap();
    assert!(sim.events().iter().any(|event| matches!(
        event,
        SimEvent::ReadReady { node, context, .. }
            if *node == leader && context == b"read-ok"
    )));
}

#[test]
fn many_hostile_seeds_preserve_all_safety_invariants() {
    let started = Instant::now();
    for seed in 0..8_u64 {
        let mut sim = Simulator::new(seed, vec![1, 2, 3, 4, 5], FaultProfile::hostile())
            .unwrap_or_else(|error| panic!("seed {seed}: {error:?}"));
        sim.set_step_budget(240);
        sim.run_chaos(120)
            .unwrap_or_else(|error| panic!("seed {seed}: {error:?}"));
        sim.assert_invariants()
            .unwrap_or_else(|error| panic!("seed {seed}: {error:?}"));
        assert!(
            started.elapsed() < Duration::from_secs(15),
            "hostile seed sweep exceeded 15-second CI wall budget after seed {seed}"
        );
    }
}

#[test]
fn read_before_current_term_noop_commit_is_rejected() {
    let stable = StableState {
        hard_state: HardState {
            current_term: 4,
            voted_for: None,
            commit_index: 1,
        },
        snapshot: None,
        entries: vec![LogEntry {
            index: 1,
            term: 3,
            payload: EntryPayload::Noop,
        }],
        applied_index: 1,
    };
    let mut node = Raft::recover(1, config(&[1, 2, 3]), stable).unwrap();
    let actions = node.step(Input::Tick(Tick::Election));
    let prospective = actions.iter().find_map(|action| match action {
        Action::Send {
            message: Message::PreVoteRequest {
                prospective_term, ..
            },
            ..
        } => Some(*prospective_term),
        _ => None,
    });
    assert_eq!(prospective, Some(5));
    let _ = node.step(Input::Message {
        from: 2,
        message: Message::PreVoteResponse {
            responder_term: 4,
            prospective_term: 5,
            granted: true,
        },
    });
    let _ = node.step(Input::Message {
        from: 2,
        message: Message::RequestVoteResponse {
            term: 5,
            granted: true,
        },
    });
    assert_eq!(node.role(), Role::Leader);
    assert_eq!(node.commit_index(), 1);
    let rejected = node.step(Input::ReadIndex {
        context: b"not-ready".to_vec(),
    });
    assert!(rejected.iter().any(|action| matches!(
        action,
        Action::ReadRejected {
            error: ReadError::LeaderNotReady,
            ..
        }
    )));
}

#[test]
fn joint_configuration_requires_both_majorities_for_election_and_commit() {
    let joint = Configuration::joint(vec![1, 2, 3], vec![3, 4, 5]).unwrap();
    let old_only = node_set(&[1, 2, 3]);
    let both = node_set(&[1, 3, 4]);
    assert!(!joint.quorum(&old_only));
    assert!(joint.quorum(&both));

    let mut no_new_majority =
        Simulator::with_configuration(41, joint.clone(), FaultProfile::reliable()).unwrap();
    no_new_majority.isolate(4);
    no_new_majority.isolate(5);
    no_new_majority.campaign(1).unwrap();
    no_new_majority.run(35).unwrap();
    assert!(no_new_majority.leaders().is_empty());

    let mut sim = Simulator::with_configuration(43, joint, FaultProfile::reliable()).unwrap();
    sim.campaign(1).unwrap();
    let (leader, _) = sim.run_until_leader(40).unwrap().expect("joint leader");
    sim.run(8).unwrap();
    let baseline = sim.committed_index(leader).unwrap();
    sim.isolate(4);
    sim.isolate(5);
    sim.propose(leader, 88_001, b"needs-new-majority".to_vec())
        .unwrap();
    sim.run(12).unwrap();
    assert_eq!(sim.committed_index(leader), Some(baseline));
    assert!(
        !sim.events()
            .iter()
            .any(|event| matches!(event, SimEvent::Committed { id: 88_001, .. }))
    );
}

#[test]
fn logs_of_hostile_clusters_match() {
    for seed in [3, 77, 1_024] {
        let mut sim = Simulator::new(seed, vec![1, 2, 3, 4, 5], FaultProfile::hostile()).unwrap();
        sim.run_chaos(120).unwrap();
        let logs: Vec<Vec<LogEntry>> = (1..=5)
            .map(|node| sim.durable_state(node).unwrap().entries.clone())
            .collect();
        for left in &logs {
            for right in &logs {
                let pairs: Vec<(&LogEntry, &LogEntry)> = left
                    .iter()
                    .filter_map(|entry| {
                        let other = right.iter().find(|other| other.index == entry.index)?;
                        Some((entry, other))
                    })
                    .collect();
                let agreed = pairs.iter().rposition(|(entry, other)| entry.term == other.term);
                for (entry, other) in pairs.iter().take(agreed.map_or(0, |at| at + 1)) {
                    assert_eq!(entry, other, "seed {seed}");
                }
            }
        }
    }
}

#[test]
fn a_term_has_one_leader() {
    let mut elections = 0;
    for seed in [1, 5, 42, 91] {
        let mut sim = Simulator::new(seed, vec![1, 2, 3, 4, 5], FaultProfile::hostile()).unwrap();
        sim.run_chaos(150).unwrap();
        let mut leaders = BTreeMap::new();
        for event in sim.events() {
            if let SimEvent::Leader { node, term } = event {
                elections += 1;
                assert_eq!(*leaders.entry(*term).or_insert(*node), *node, "seed {seed}");
            }
        }
    }
    assert!(elections > 0);
}

#[test]
fn followers_commit_only_what_the_leader_has_matched() {
    let entry = |index, term| LogEntry { index, term, payload: EntryPayload::Noop };
    let stable = StableState {
        hard_state: HardState { current_term: 2, voted_for: None, commit_index: 0 },
        snapshot: None,
        entries: vec![entry(1, 1), entry(2, 2)],
        applied_index: 0,
    };
    let mut node = Raft::recover(1, config(&[1, 2, 3]), stable).unwrap();
    node.step(Input::Message {
        from: 2,
        message: Message::AppendEntries {
            term: 3,
            leader_id: 2,
            prev_log_index: 0,
            prev_log_term: 0,
            entries: vec![entry(1, 1)],
            leader_commit: 2,
            read_context: None,
        },
    });
    assert_eq!(node.commit_index(), 1);
}

#[test]
fn recovery_refuses_logs_that_do_not_fit() {
    let stable = StableState {
        hard_state: HardState { current_term: 1, voted_for: None, commit_index: 0 },
        snapshot: None,
        entries: vec![LogEntry { index: 5, term: 1, payload: EntryPayload::Noop }],
        applied_index: 0,
    };
    assert!(Raft::recover(1, config(&[1]), stable).is_err());
}

#[test]
fn traces_hold_lines_of_events() {
    let mut simulator = Simulator::new(1, vec![1, 2, 3], FaultProfile::reliable()).unwrap();
    simulator.crash(2).unwrap();
    simulator.partition(1, 3);
    simulator.heal();
    simulator.restart(2).unwrap();
    simulator.discard_queued_messages();
    let lines: Vec<&str> = simulator.trace().iter().map(|line| line.as_str()).collect();
    assert_eq!(
        lines,
        [
            "t=0 restart node=1",
            "t=0 restart node=2",
            "t=0 restart node=3",
            "t=0 crash node=2",
            "t=0 partition 1->3",
            "t=0 heal-all",
            "t=0 restart node=2",
            "t=0 discard-network",
        ]
    );
}

#[test]
fn hostile_clusters_commit_the_same() {
    for seed in [3, 77, 1_024] {
        let mut sim = Simulator::new(seed, vec![1, 2, 3, 4, 5], FaultProfile::hostile()).unwrap();
        sim.run_chaos(120).unwrap();
        let mut committed = BTreeMap::new();
        for node in 1..=5 {
            let state = sim.durable_state(node).unwrap();
            for entry in &state.entries {
                if entry.index <= state.hard_state.commit_index {
                    let first = committed.entry(entry.index).or_insert_with(|| entry.clone());
                    assert_eq!(first, entry, "seed {seed}");
                }
            }
        }
        assert!(!committed.is_empty(), "seed {seed}");
    }
}

#[test]
fn reasons_are_told() {
    let entry = |index, term| LogEntry { index, term, payload: EntryPayload::Noop };
    let stable = StableState {
        hard_state: HardState { current_term: 2, voted_for: None, commit_index: 2 },
        snapshot: None,
        entries: vec![entry(1, 1), entry(2, 1)],
        applied_index: 2,
    };
    let mut node = Raft::recover(1, config(&[1, 2, 3]), stable).unwrap();
    let actions = node.step(Input::Message {
        from: 2,
        message: Message::AppendEntries {
            term: 3,
            leader_id: 2,
            prev_log_index: 1,
            prev_log_term: 1,
            entries: vec![entry(2, 3)],
            leader_commit: 2,
            read_context: None,
        },
    });
    assert_eq!(
        actions.last(),
        Some(&Action::Fatal {
            reason: "leader attempted to replace committed index 2".to_string()
        })
    );
    let early = PersistentSnapshot::new(9, 1, config(&[1, 2, 3]), Vec::new());
    assert_eq!(
        node.step(Input::SnapshotBuilt(early)),
        vec![Action::SnapshotRejected {
            reason: "snapshot hash, membership, or applied log boundary is invalid".to_string()
        }]
    );
}

#[test]
fn entries_behind_a_missing_index_are_refused() {
    let mut node = Raft::recover(1, config(&[1, 2, 3]), StableState::default()).unwrap();
    let input = Input::Message {
        from: 2,
        message: Message::AppendEntries {
            term: 1,
            leader_id: 2,
            prev_log_index: u64::MAX,
            prev_log_term: 1,
            entries: vec![LogEntry { index: 1, term: 1, payload: EntryPayload::Noop }],
            leader_commit: 0,
            read_context: None,
        },
    };
    assert!(node.has_room(&input));
    let actions = node.step(input);
    assert!(actions.contains(&Action::Send {
        to: 2,
        message: Message::AppendEntriesResponse {
            term: 1,
            success: false,
            match_index: 0,
            conflict_index: 1,
            conflict_term: None,
            read_context: None,
        },
    }));
}

#[test]
fn snapshots_of_the_last_index_need_room_only_when_they_are_whole() {
    let configuration = config(&[1, 2, 3]);
    let node = Raft::recover(1, configuration.clone(), StableState::default()).unwrap();
    let last = PersistentSnapshot::new(u64::MAX, 1, configuration, b"bytes".to_vec());
    let chunk = |from: u64, data: &[u8], done| Input::Message {
        from,
        message: Message::InstallSnapshot {
            term: 1,
            leader_id: 2,
            metadata: last.metadata.clone(),
            offset: 0,
            data: data.to_vec(),
            done,
        },
    };
    assert!(node.has_room(&chunk(2, b"by", false)));
    assert!(node.has_room(&chunk(2, b"other", true)));
    assert!(node.has_room(&chunk(3, b"bytes", true)));
    assert!(!node.has_room(&chunk(2, b"bytes", true)));
}

#[test]
fn errors_of_a_simulation_hold_its_trace() {
    let mut simulator = Simulator::new(4, vec![1, 2], FaultProfile::reliable()).unwrap();
    assert_eq!(
        simulator.snapshot(1, 5),
        Err(SimError::Invariant {
            seed: 4,
            step: 0,
            message: "simulator snapshots must use current applied index 0; got 5; bounded replay \
                      trace: t=0 restart node=1 | t=0 restart node=2"
                .to_string(),
        })
    );
}

#[test]
fn violations_read_as_they_should() {
    for (violation, words) in [
        (
            Violation::TermRegressed { node: 1, from: 3, to: 2 },
            "node 1 term regressed from 3 to 2",
        ),
        (
            Violation::CommitRegressed { node: 1, from: 3, to: 2 },
            "node 1 commit regressed from 3 to 2",
        ),
        (
            Violation::VoteChanged { node: 1, term: 4, from: 2, to: 3 },
            "node 1 changed vote in term 4 from 2 to 3",
        ),
        (
            Violation::VotedTwice { node: 1, first: 2, second: 3, term: 4 },
            "node 1 voted for 2 and 3 in term 4",
        ),
        (
            Violation::NonContiguous { node: 1, expected: 6 },
            "node 1 appended non-contiguous log at 6",
        ),
        (
            Violation::TruncatedCommitted { node: 1, from: 6 },
            "node 1 truncated committed index 6",
        ),
        (
            Violation::ReplacedElsewhere { node: 1, from: 6 },
            "node 1 replacement did not start at 6",
        ),
        (
            Violation::CompactedUnapplied { node: 1, index: 6 },
            "node 1 compacted unapplied index 6",
        ),
        (
            Violation::AppliedOutOfTurn { node: 1, index: 9, expected: 6, commit: 8 },
            "node 1 applied 9 with expected 6 and commit 8",
        ),
        (
            Violation::TwoLeaders { previous: 2, node: 1, term: 4 },
            "leaders 2 and 1 both elected in term 4",
        ),
        (
            Violation::LogHole { node: 1, expected: 6, found: 7 },
            "node 1 log hole: expected 6, found 7",
        ),
        (
            Violation::Diverged { left: 1, right: 2, index: 9, term: 4, prefix: 6 },
            "log matching failed for nodes 1/2: equal (9, 4) but divergent prefix at 6",
        ),
        (
            Violation::ReplacedCommitted { node: 1, index: 6 },
            "node 1 replaced committed index 6",
        ),
        (
            Violation::StatesDisagree { left: 1, right: 2, applied: 6 },
            "nodes 1/2 disagree at applied index 6",
        ),
    ] {
        assert_eq!(violation.describe(), words);
    }
}
