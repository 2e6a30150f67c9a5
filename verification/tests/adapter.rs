//! Carrying out what a node asks for.

use std::cell::RefCell;
use std::rc::Rc;

use aster::raft::adapter::{
    execute, AdapterError, ClientEvent, ClockAdapter, NetworkAdapter, StableStorageAdapter,
    StateMachineAdapter,
};
use aster::raft::types::{
    Action, EntryPayload, HardState, LogEntry, Message, Role, StorageMutation,
};

/// What was asked, in order, and which call is to fail.
#[derive(Clone)]
struct Asked {
    calls: Rc<RefCell<Vec<String>>>,
    failing: &'static str,
}

impl Asked {
    fn new(failing: &'static str) -> Asked {
        Asked { calls: Rc::new(RefCell::new(Vec::new())), failing }
    }

    fn call(&self, name: &str) -> Result<(), String> {
        self.calls.borrow_mut().push(name.to_string());
        if name == self.failing {
            return Err(format!("{name} failed"));
        }
        Ok(())
    }
}

impl StableStorageAdapter for Asked {
    fn persist(&mut self, _mutation: &StorageMutation) -> Result<(), String> {
        self.call("persist")
    }
}

impl NetworkAdapter for Asked {
    fn send(&mut self, to: u64, _message: &Message) -> Result<(), String> {
        self.call(&format!("send {to}"))
    }
}

impl ClockAdapter for Asked {
    fn reset_election(&mut self) -> Result<(), String> {
        self.call("election")
    }

    fn reset_heartbeat(&mut self) -> Result<(), String> {
        self.call("heartbeat")
    }
}

impl StateMachineAdapter for Asked {
    fn apply(&mut self, entry: &LogEntry) -> Result<(), String> {
        self.call(&format!("apply {}", entry.index))
    }
}

fn actions() -> Vec<Action> {
    let reply = Message::RequestVoteResponse { term: 2, granted: true };
    vec![
        Action::Persist(StorageMutation::HardState(HardState {
            current_term: 2,
            voted_for: Some(3),
            commit_index: 0,
        })),
        Action::Send { to: 3, message: reply },
        Action::ResetElectionTimer,
        Action::RoleChanged { role: Role::Follower, term: 2 },
        Action::Apply(LogEntry { index: 1, term: 1, payload: EntryPayload::Noop }),
        Action::ResetHeartbeatTimer,
    ]
}

fn carried_out(
    actions: &Vec<Action>,
    failing: &'static str,
) -> (Result<Vec<ClientEvent>, AdapterError>, Vec<String>) {
    let asked = Asked::new(failing);
    let result = execute(
        actions,
        &mut asked.clone(),
        &mut asked.clone(),
        &mut asked.clone(),
        &mut asked.clone(),
    );
    let calls = asked.calls.borrow().clone();
    (result, calls)
}

#[test]
fn actions_are_carried_out_in_order() {
    let (result, calls) = carried_out(&actions(), "");
    assert_eq!(result, Ok(vec![ClientEvent::RoleChanged { role: Role::Follower, term: 2 }]));
    assert_eq!(calls, ["persist", "send 3", "election", "apply 1", "heartbeat"]);
}

#[test]
fn nothing_is_carried_out_after_a_failure() {
    let (result, calls) = carried_out(&actions(), "persist");
    assert_eq!(result, Err(AdapterError::Storage("persist failed".to_string())));
    assert_eq!(calls, ["persist"]);
    let (result, calls) = carried_out(&actions(), "send 3");
    assert_eq!(result, Err(AdapterError::Network("send 3 failed".to_string())));
    assert_eq!(calls, ["persist", "send 3"]);
    let (result, calls) = carried_out(&actions(), "election");
    assert_eq!(result, Err(AdapterError::Clock("election failed".to_string())));
    assert_eq!(calls, ["persist", "send 3", "election"]);
    let (result, calls) = carried_out(&actions(), "apply 1");
    assert_eq!(result, Err(AdapterError::StateMachine("apply 1 failed".to_string())));
    assert_eq!(calls, ["persist", "send 3", "election", "apply 1"]);
    let mut fatal = actions();
    fatal.insert(1, Action::Fatal { reason: "broken".to_string() });
    let (result, calls) = carried_out(&fatal, "");
    assert_eq!(result, Err(AdapterError::Fatal("broken".to_string())));
    assert_eq!(calls, ["persist"]);
}

#[test]
fn the_reason_of_a_rejected_snapshot_is_handed_on() {
    let reason = "snapshot hash, membership, or applied log boundary is invalid".to_string();
    let (result, calls) =
        carried_out(&vec![Action::SnapshotRejected { reason: reason.clone() }], "");
    assert_eq!(result, Ok(vec![ClientEvent::SnapshotRejected { reason }]));
    assert!(calls.is_empty());
}
