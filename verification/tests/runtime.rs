//! The decisions of a running node.

use aster::codec::value_matches_type;
use aster::db::error::{DatabaseError, StorageFailure};
use aster::db::results::{ExecutionResult, QueryResult};
use aster::db::staged::{PageImage, StagedPages};
use aster::engine::state::Engine;
use aster::ordmap::OrdMap;
use aster::raft::configuration::Configuration;
use aster::raft::machine::Raft;
use aster::raft::types::{
    Action, EntryPayload, HardState, Input, LogEntry, Message, PersistentSnapshot, ReadError, Role,
    StableState, StorageMutation, Tick,
};
use aster::runtime::config::{
    command_id, due_ticks, reconcile_database, snapshot_boundary, snapshot_due, Deadlines,
    IpAddress, RuntimeConfig, SocketAddress,
};
use aster::runtime::error::RuntimeError;
use aster::runtime::stable::StableStore;
use aster::runtime::waiters::{
    command_answer, pending_error, Answer, Effect, PendingRead, Waiters,
};
use aster::types::{Column, DataType, Row, Schema, Value};

fn done(applied_index: u64) -> ExecutionResult {
    ExecutionResult::Query(QueryResult {
        columns: Vec::new(),
        rows: Vec::new(),
        affected_rows: 1,
        applied_index,
    })
}

fn pending_read() -> PendingRead {
    PendingRead { client_id: [1; 16], sequence: 1, sql: "SELECT".to_string(), parameters: Vec::new() }
}

#[test]
fn clients_are_told_after_the_change_is_applied() {
    let mut waiters = Waiters::new(7, 5, 2);
    assert!(waiters.refuse_proposal(Role::Leader, Some(7)).is_none());
    assert!(matches!(
        waiters.refuse_proposal(Role::Follower, Some(3)),
        Some(RuntimeError::NotLeader { leader_hint: Some(3) })
    ));
    let id = waiters.propose().unwrap();
    assert_eq!(id, command_id(7, 5));
    assert_eq!(id, (7_u128 << 64) | 5);
    assert!(matches!(
        waiters.refuse_proposal(Role::Leader, Some(7)),
        Some(RuntimeError::ProposalBusy)
    ));
    let committed = Action::ProposalCommitted { id: id + 1, index: 9 };
    assert!(waiters.act(committed, Some(7), 9).unwrap().is_empty());
    waiters.applied(id, 9, Answer::Done(done(9)));
    let committed = Action::ProposalCommitted { id, index: 9 };
    let effects = waiters.act(committed, Some(7), 9).unwrap();
    assert!(matches!(
        effects.as_slice(),
        [Effect::AnswerProposal { id: told, answer: Answer::Done(_) }] if *told == id
    ));

    let id = waiters.propose().unwrap();
    let early = Action::ProposalCommitted { id, index: 10 };
    assert!(matches!(waiters.act(early, Some(7), 9), Err(RuntimeError::Fenced(_))));

    let id = waiters.propose().unwrap();
    waiters.applied(id, 11, Answer::Done(done(11)));
    let elsewhere = Action::ProposalCommitted { id, index: 12 };
    assert!(matches!(waiters.act(elsewhere, Some(7), 12), Err(RuntimeError::Fenced(_))));
}

#[test]
fn reads_wait_for_the_database() {
    let mut waiters = Waiters::new(7, 1, 2);
    assert!(waiters.refuse_read(Role::Leader, None).is_none());
    let context = waiters.read(pending_read()).unwrap();
    assert_eq!(context, [7_u64.to_be_bytes(), 1_u64.to_be_bytes()].concat());
    let second = waiters.read(pending_read()).unwrap();
    assert!(matches!(waiters.refuse_read(Role::Leader, None), Some(RuntimeError::Limit(_))));
    let ready = Action::ReadReady { context: context.clone(), index: 4 };
    let effects = waiters.act(ready, Some(7), 4).unwrap();
    assert!(matches!(effects.as_slice(), [Effect::Query { context: told, .. }] if *told == context));
    let early = Action::ReadReady { context: second, index: 5 };
    assert!(matches!(waiters.act(early, Some(7), 4), Err(RuntimeError::Fenced(_))));
    let third = waiters.read(pending_read()).unwrap();
    let refused = Action::ReadRejected { context: third, error: ReadError::NotLeader };
    assert!(matches!(
        waiters.act(refused, Some(2), 4).unwrap().as_slice(),
        [Effect::AnswerRead { error: RuntimeError::NotLeader { leader_hint: Some(2) }, .. }]
    ));
}

#[test]
fn a_node_that_loses_the_lead_tells_those_who_wait() {
    let mut waiters = Waiters::new(7, 1, 4);
    let id = waiters.propose().unwrap();
    waiters.read(pending_read()).unwrap();
    let lost = Action::RoleChanged { role: Role::Follower, term: 3 };
    let effects = waiters.act(lost, Some(2), 1).unwrap();
    assert!(matches!(
        effects.as_slice(),
        [
            Effect::ResetElection,
            Effect::AnswerProposal { id: told, answer: Answer::Failed(_) },
            Effect::AnswerRead { .. },
        ] if *told == id
    ));
    assert!(waiters.reject_pending(&RuntimeError::Shutdown, None).is_empty());
    let rejected = Action::ProposalRejected { id, leader_hint: None };
    assert!(waiters.act(rejected, None, 1).unwrap().is_empty());
    let built = Action::SnapshotRejected { reason: "no".to_string() };
    assert!(matches!(waiters.act(built, None, 1), Err(RuntimeError::Fenced(_))));
    let fatal = Action::Fatal { reason: "no".to_string() };
    assert!(matches!(waiters.act(fatal, None, 1), Err(RuntimeError::Fenced(_))));
    let lead = Action::RoleChanged { role: Role::Leader, term: 4 };
    assert!(matches!(waiters.act(lead, None, 1).unwrap().as_slice(), [Effect::ResetCheckQuorum]));
}

#[test]
fn rejected_commands_are_answers_and_failures_are_not() {
    assert!(matches!(command_answer(Ok(done(3)), 3, 3), Ok(Answer::Done(_))));
    let refused = || Err(DatabaseError::TransactionControl("no".to_string()));
    assert!(matches!(
        command_answer(refused(), 3, 3),
        Ok(Answer::Failed(RuntimeError::CommandRejected(_)))
    ));
    assert!(matches!(command_answer(refused(), 2, 3), Err(RuntimeError::Database(_))));
}

#[test]
fn timers_go_off_by_role() {
    let deadlines = Deadlines { election: 10, heartbeat: 5, check_quorum: 7 };
    assert_eq!(due_ticks(Role::Leader, 4, deadlines), vec![]);
    assert_eq!(due_ticks(Role::Leader, 5, deadlines), vec![Tick::Heartbeat]);
    assert_eq!(
        due_ticks(Role::Leader, 20, deadlines),
        vec![Tick::Heartbeat, Tick::CheckQuorum]
    );
    assert_eq!(due_ticks(Role::Follower, 9, deadlines), vec![]);
    assert_eq!(due_ticks(Role::Candidate, 10, deadlines), vec![Tick::Election]);
}

fn entry(index: u64) -> LogEntry {
    LogEntry { index, term: 1, payload: EntryPayload::Noop }
}

fn stable(entries: u64, commit: u64, applied: u64) -> StableState {
    StableState {
        hard_state: HardState { current_term: 1, voted_for: Some(1), commit_index: commit },
        snapshot: None,
        entries: (1..=entries).map(entry).collect(),
        applied_index: applied,
    }
}

#[test]
fn databases_agree_with_their_logs() {
    assert!(reconcile_database(2, &stable(3, 3, 2)).is_ok());
    assert!(reconcile_database(3, &stable(3, 3, 2)).is_ok());
    assert!(reconcile_database(1, &stable(3, 3, 2)).is_err());
    assert!(reconcile_database(3, &stable(3, 2, 2)).is_err());
}

#[test]
fn snapshots_are_taken_when_enough_is_kept() {
    let store = StableStore::open(stable(3, 3, 3), None).unwrap();
    let mut peers = OrdMap::new();
    peers.insert(1, SocketAddress { ip: IpAddress::V4([127, 0, 0, 1]), port: 1 });
    let mut config = RuntimeConfig::localhost(1, peers, "data".to_string());
    assert!(!snapshot_due(&store, 3, 10, &config).unwrap());
    config.snapshot_threshold_entries = 3;
    assert!(snapshot_due(&store, 3, 10, &config).unwrap());
    assert!(!snapshot_due(&store, 0, 10, &config).unwrap());
    config.snapshot_threshold_entries = 4;
    config.snapshot_threshold_bytes = 10;
    assert!(snapshot_due(&store, 3, 10, &config).unwrap());
    assert_eq!(snapshot_boundary(&store, 3, 3).unwrap(), 1);
    assert!(matches!(snapshot_boundary(&store, 3, 2), Err(RuntimeError::Fenced(_))));
    assert!(matches!(snapshot_boundary(&store, 9, 9), Err(RuntimeError::Corruption(_))));
}

#[test]
fn votes_are_given_once_and_leaders_are_elected() {
    let voters = || Configuration::new(vec![1, 2, 3]).unwrap();
    let ask = |candidate| Input::Message {
        from: candidate,
        message: Message::RequestVote {
            term: 4,
            candidate_id: candidate,
            last_log_index: 0,
            last_log_term: 0,
        },
    };
    let granted = |actions: &[Action]| {
        actions.iter().any(|action| {
            matches!(
                action,
                Action::Send {
                    message: Message::RequestVoteResponse { term: 4, granted: true },
                    ..
                }
            )
        })
    };
    let mut node = Raft::recover(1, voters(), StableState::default()).unwrap();
    assert!(granted(&node.step(ask(2))));
    assert!(!granted(&node.step(ask(3))));
    assert!(granted(&node.step(ask(2))));
    assert_eq!(node.stable_state().hard_state.voted_for, Some(2));

    let mut candidate = Raft::recover(1, voters(), StableState::default()).unwrap();
    candidate.step(Input::Tick(Tick::Election));
    assert_eq!(candidate.role(), Role::PreCandidate);
    candidate.step(Input::Message {
        from: 2,
        message: Message::PreVoteResponse {
            responder_term: 0,
            prospective_term: 1,
            granted: true,
        },
    });
    assert_eq!(candidate.role(), Role::Candidate);
    let vote = |granted| Input::Message {
        from: 3,
        message: Message::RequestVoteResponse { term: 1, granted },
    };
    candidate.step(vote(false));
    assert_eq!(candidate.role(), Role::Candidate);
    candidate.step(vote(true));
    assert_eq!(candidate.role(), Role::Leader);
    assert!(!Configuration::new(vec![1]).unwrap().is_joint());
}

#[test]
fn pages_are_staged_until_they_are_handed_over() {
    let mut staged = StagedPages::new(5);
    let id = staged.allocate().unwrap();
    assert_eq!(id, 5);
    staged.save(PageImage { id: 9, bytes: vec![9] }).unwrap();
    staged.save(PageImage { id, bytes: vec![1] }).unwrap();
    staged.save(PageImage { id, bytes: vec![2] }).unwrap();
    let disk = |page: u64| Ok(PageImage { id: if page == 3 { 3 } else { 4 }, bytes: vec![0] });
    assert_eq!(staged.load(disk, id).unwrap().bytes, vec![2]);
    assert_eq!(staged.load(disk, 3).unwrap().id, 3);
    assert!(matches!(
        staged.load(disk, 8),
        Err(DatabaseError::Storage { failure: StorageFailure::InvalidPage, .. })
    ));
    let (pages, next) = staged.finish().unwrap();
    assert_eq!(pages.iter().map(|page| page.id).collect::<Vec<_>>(), vec![5, 9]);
    assert_eq!(next, 6);
    assert!(staged.finish().is_err());
    assert!(staged.allocate().is_err());
    assert!(staged.save(PageImage { id: 1, bytes: Vec::new() }).is_err());
    assert!(StagedPages::new(u64::MAX).allocate().is_err());
}

#[test]
fn values_fit_their_columns_and_rows_are_replaced() {
    assert!(value_matches_type(&Value::Int64(1), DataType::Int64, false));
    assert!(!value_matches_type(&Value::Int64(1), DataType::Text, true));
    assert!(value_matches_type(&Value::Null, DataType::Text, true));
    assert!(!value_matches_type(&Value::Null, DataType::Text, false));

    let column = |name: &str, primary_key| Column {
        name: name.to_string(),
        data_type: DataType::Int64,
        nullable: false,
        primary_key,
    };
    let schema = Schema { columns: vec![column("id", true), column("value", false)] };
    let mut engine = Engine::new();
    let mut transaction = engine.begin().unwrap();
    let table = engine.create_table(&mut transaction, "t", schema).unwrap();
    let row = |value| Row { values: vec![Value::Int64(1), Value::Int64(value)] };
    engine.insert(&mut transaction, table, row(1)).unwrap();
    assert!(engine.insert(&mut transaction, table, row(2)).is_err());
    engine.upsert(&mut transaction, table, row(3)).unwrap();
    assert_eq!(engine.get(&transaction, table, &Value::Int64(1)).unwrap(), Some(row(3)));
    assert!(engine.delete(&mut transaction, table, &Value::Int64(1)).unwrap());
    assert_eq!(engine.get(&transaction, table, &Value::Int64(1)).unwrap(), None);
}

#[test]
fn compaction_never_takes_back_a_promise() {
    let mut store = StableStore::open(stable(3, 3, 2), None).unwrap();
    let publish = |_: &StableState| Ok(());
    let truncate = StorageMutation::TruncateAndAppend { from: 3, entries: vec![entry(3)] };
    assert!(store.persist(publish, &truncate).is_err());
    let voters = Configuration::new(vec![1, 2, 3]).unwrap();
    let ahead = StorageMutation::CompactSnapshot {
        snapshot: PersistentSnapshot::new(3, 1, voters, b"state".to_vec()),
        retained_entries: Vec::new(),
    };
    assert!(store.persist(publish, &ahead).is_err());
    assert_eq!(store.retained_entry_count(), 3);
}

fn fenced(result: Result<Vec<Effect>, RuntimeError>) -> String {
    match result {
        Err(RuntimeError::Fenced(text)) => text,
        other => panic!("{other:?}"),
    }
}

#[test]
fn stopped_nodes_say_why() {
    let mut waiters = Waiters::new(7, 5, 2);
    let id = waiters.propose().unwrap();
    assert_eq!(
        fenced(waiters.act(Action::ProposalCommitted { id, index: 9 }, None, 9)),
        format!("proposal {id} acknowledged before local database apply")
    );
    let id = waiters.propose().unwrap();
    waiters.applied(id, 11, Answer::Done(done(11)));
    assert_eq!(
        fenced(waiters.act(Action::ProposalCommitted { id, index: 12 }, None, 12)),
        format!("proposal {id} applied at 11, committed at 12")
    );
    let context = waiters.read(pending_read()).unwrap();
    assert_eq!(
        fenced(waiters.act(Action::ReadReady { context, index: 5 }, None, 4)),
        "ReadIndex 5 became ready before durable database apply"
    );
    let rejected = Action::SnapshotRejected { reason: "no boundary".to_string() };
    assert_eq!(
        fenced(waiters.act(rejected, None, 4)),
        "locally built snapshot was rejected: no boundary"
    );
    let cut = pending_error(&RuntimeError::Corruption("bad".to_string()), Some(3));
    assert_eq!(
        cut.describe(),
        "Raft fenced the node: pending request cancelled: runtime state is corrupt: bad; leader hint Some(3)"
    );
    let cut = pending_error(&RuntimeError::Timeout, None);
    assert_eq!(
        cut.describe(),
        "Raft fenced the node: pending request cancelled: runtime request timed out; leader hint None"
    );
}

fn why<T>(result: Result<T, RuntimeError>) -> String {
    match result {
        Err(error) => error.describe(),
        Ok(_) => panic!("accepted"),
    }
}

#[test]
fn refused_changes_say_which_numbers_were_wrong() {
    let mut store = StableStore::open(StableState::default(), None).unwrap();
    assert_eq!(
        why(store.mark_applied(|_: &StableState| Ok(()), 3)),
        "runtime state is corrupt: cannot mark applied index 3; expected 1, commit is 0"
    );
    let beyond = HardState { current_term: 1, voted_for: None, commit_index: 4 };
    assert_eq!(
        why(store.persist(|_: &StableState| Ok(()), &StorageMutation::HardState(beyond))),
        "runtime state is corrupt: commit 4 is beyond durable log 0"
    );
    let entry = LogEntry { index: 2, term: 1, payload: EntryPayload::Noop };
    assert_eq!(
        why(store.persist(|_: &StableState| Ok(()), &StorageMutation::Append(vec![entry]))),
        "runtime state is corrupt: Raft append starts at 2, expected 1"
    );
    let cut = StorageMutation::TruncateAndAppend { from: 0, entries: Vec::new() };
    assert_eq!(
        why(store.persist(|_: &StableState| Ok(()), &cut)),
        "runtime state is corrupt: attempted to truncate committed Raft index 0"
    );
}
