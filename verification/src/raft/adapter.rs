//! Carrying out the actions of a node.

use vstd::prelude::*;
use crate::model::{Model, outcome};
use crate::raft::types::{
    Action, ActionView, CommandId, LogEntry, LogEntryView, Message, MessageView, ReadError, Role,
    StorageMutation, StorageMutationView,
};
use crate::types::{NodeId, labelled};

verus! {

broadcast use crate::model::group_contents;

/// How a call of an adapter was answered.
pub type Answer = Result<(), Seq<char>>;

/// An answer as a program compares it.
pub open spec fn answered(result: Result<(), String>) -> Answer {
    match result {
        Ok(_) => Ok(()),
        Err(text) => Err(text@),
    }
}

/// Stores what a node must not forget. As with the other adapters, an implementation
/// that is to be verified keeps the record of its calls: one that leaves the record
/// empty cannot meet the contract.
pub trait StableStorageAdapter {
    /// What the adapter was asked to store, in order, and how it answered.
    open spec fn persisted(&self) -> Seq<(StorageMutationView, Answer)> {
        Seq::empty()
    }

    /// Stores a mutation, and returns only once it is durable.
    fn persist(&mut self, mutation: &StorageMutation) -> (result: Result<(), String>)
        ensures
            final(self).persisted() == old(self).persisted().push(
                (mutation.deep_view(), answered(result)),
            ),
    ;
}

/// Sends messages to other nodes.
pub trait NetworkAdapter {
    /// What the adapter was asked to send, in order, and how it answered.
    open spec fn sent(&self) -> Seq<(NodeId, MessageView, Answer)> {
        Seq::empty()
    }

    fn send(&mut self, to: NodeId, message: &Message) -> (result: Result<(), String>)
        ensures
            final(self).sent() == old(self).sent().push(
                (to, message.deep_view(), answered(result)),
            ),
    ;
}

/// A timer of a node.
pub enum Timer {
    Election,
    Heartbeat,
}

/// Keeps the timers of a node.
pub trait ClockAdapter {
    /// The timers that the adapter was asked to arm, in order, and how it
    /// answered.
    open spec fn armed(&self) -> Seq<(Timer, Answer)> {
        Seq::empty()
    }

    /// Picks and arms a new random election deadline.
    fn reset_election(&mut self) -> (result: Result<(), String>)
        ensures
            final(self).armed() == old(self).armed().push((Timer::Election, answered(result))),
    ;

    fn reset_heartbeat(&mut self) -> (result: Result<(), String>)
        ensures
            final(self).armed() == old(self).armed().push((Timer::Heartbeat, answered(result))),
    ;
}

/// Applies committed entries.
pub trait StateMachineAdapter {
    /// The entries that the adapter was asked to apply, in order, and how it
    /// answered.
    open spec fn applied(&self) -> Seq<(LogEntryView, Answer)> {
        Seq::empty()
    }

    /// Applies one entry durably, once for each index.
    fn apply(&mut self, entry: &LogEntry) -> (result: Result<(), String>)
        ensures
            final(self).applied() == old(self).applied().push(
                (entry.deep_view(), answered(result)),
            ),
    ;
}

/// What the client layer is told.
#[derive(Debug, Clone, PartialEq, Eq)]
pub enum ClientEvent {
    RoleChanged { role: Role, term: u64 },
    ProposalCommitted { id: CommandId, index: u64 },
    ProposalRejected { id: CommandId, leader_hint: Option<NodeId> },
    ReadReady { context: Vec<u8>, index: u64 },
    ReadRejected { context: Vec<u8>, error: ReadError },
    SnapshotRejected { reason: String },
}

/// The content of a [`ClientEvent`].
#[verifier::ext_equal]
pub enum ClientEventView {
    RoleChanged { role: Role, term: u64 },
    ProposalCommitted { id: CommandId, index: u64 },
    ProposalRejected { id: CommandId, leader_hint: Option<NodeId> },
    ReadReady { context: Seq<u8>, index: u64 },
    ReadRejected { context: Seq<u8>, error: ReadError },
    SnapshotRejected { reason: Seq<char> },
}

impl DeepView for ClientEvent {
    type V = ClientEventView;

    open spec fn deep_view(&self) -> ClientEventView {
        match self {
            ClientEvent::RoleChanged { role, term } => ClientEventView::RoleChanged {
                role: role.deep_view(),
                term: term.deep_view(),
            },
            ClientEvent::ProposalCommitted { id, index } => ClientEventView::ProposalCommitted {
                id: id.deep_view(),
                index: index.deep_view(),
            },
            ClientEvent::ProposalRejected { id, leader_hint } => ClientEventView::ProposalRejected {
                id: id.deep_view(),
                leader_hint: leader_hint.deep_view(),
            },
            ClientEvent::ReadReady { context, index } => ClientEventView::ReadReady {
                context: context.deep_view(),
                index: index.deep_view(),
            },
            ClientEvent::ReadRejected { context, error } => ClientEventView::ReadRejected {
                context: context.deep_view(),
                error: error.deep_view(),
            },
            ClientEvent::SnapshotRejected { reason } => ClientEventView::SnapshotRejected {
                reason: reason@,
            },
        }
    }
}


/// Why the actions of a node could not all be carried out.
#[derive(Debug, Clone, PartialEq, Eq)]
pub enum AdapterError {
    Storage(String),
    Network(String),
    Clock(String),
    StateMachine(String),
    Fatal(String),
}

/// Who failed.
pub enum AdapterErrorKind {
    Storage,
    Network,
    Clock,
    StateMachine,
    Fatal,
}

impl DeepView for AdapterError {
    type V = AdapterErrorKind;

    open spec fn deep_view(&self) -> AdapterErrorKind {
        match self {
            AdapterError::Storage(_) => AdapterErrorKind::Storage,
            AdapterError::Network(_) => AdapterErrorKind::Network,
            AdapterError::Clock(_) => AdapterErrorKind::Clock,
            AdapterError::StateMachine(_) => AdapterErrorKind::StateMachine,
            AdapterError::Fatal(_) => AdapterErrorKind::Fatal,
        }
    }
}

impl AdapterError {
    /// The error as people read it.
    pub open spec fn shown(&self) -> Seq<char> {
        match self {
            AdapterError::Storage(text) => "stable storage failed: "@ + text@,
            AdapterError::Network(text) => "network send failed: "@ + text@,
            AdapterError::Clock(text) => "timer operation failed: "@ + text@,
            AdapterError::StateMachine(text) => "state-machine apply failed: "@ + text@,
            AdapterError::Fatal(text) => {
                "Raft fenced itself after an invariant failure: "@ + text@
            },
        }
    }

    /// The error as people read it.
    pub fn describe(&self) -> (text: String)
        ensures
            text@ == self.shown(),
    {
        match self {
            AdapterError::Storage(text) => labelled("stable storage failed: ", text.as_str()),
            AdapterError::Network(text) => labelled("network send failed: ", text.as_str()),
            AdapterError::Clock(text) => labelled("timer operation failed: ", text.as_str()),
            AdapterError::StateMachine(text) => labelled(
                "state-machine apply failed: ",
                text.as_str(),
            ),
            AdapterError::Fatal(text) => labelled(
                "Raft fenced itself after an invariant failure: ",
                text.as_str(),
            ),
        }
    }
}

/// Who fails when an action cannot be carried out; `None` where nothing has to
/// be carried out.
pub open spec fn failure_of(action: ActionView) -> Option<AdapterErrorKind> {
    match action {
        ActionView::Persist(_) => Some(AdapterErrorKind::Storage),
        ActionView::Send { .. } => Some(AdapterErrorKind::Network),
        ActionView::ResetElectionTimer => Some(AdapterErrorKind::Clock),
        ActionView::ResetHeartbeatTimer => Some(AdapterErrorKind::Clock),
        ActionView::Apply(_) => Some(AdapterErrorKind::StateMachine),
        _ => None,
    }
}

/// What the client layer is told of an action.
pub open spec fn event_of(action: ActionView) -> Option<ClientEventView> {
    match action {
        ActionView::RoleChanged { role, term } => Some(ClientEventView::RoleChanged { role, term }),
        ActionView::ProposalCommitted { id, index } => Some(
            ClientEventView::ProposalCommitted { id, index },
        ),
        ActionView::ProposalRejected { id, leader_hint } => Some(
            ClientEventView::ProposalRejected { id, leader_hint },
        ),
        ActionView::ReadReady { context, index } => Some(
            ClientEventView::ReadReady { context, index },
        ),
        ActionView::ReadRejected { context, error } => Some(
            ClientEventView::ReadRejected { context, error },
        ),
        ActionView::SnapshotRejected { reason } => Some(
            ClientEventView::SnapshotRejected { reason },
        ),
        _ => None,
    }
}

/// What the client layer is told of the first `n` actions.
pub open spec fn events_of(actions: Seq<ActionView>, n: int) -> Seq<ClientEventView>
    decreases n,
{
    if n <= 0 {
        Seq::empty()
    } else {
        match event_of(actions[n - 1]) {
            Some(event) => events_of(actions, n - 1).push(event),
            None => events_of(actions, n - 1),
        }
    }
}

/// What comes of an action whose work had the given result: an event, nothing,
/// or the end of the batch.
pub open spec fn concluded(action: ActionView, done: bool) -> Result<
    Option<ClientEventView>,
    AdapterErrorKind,
> {
    if action is Fatal {
        Err(AdapterErrorKind::Fatal)
    } else {
        match failure_of(action) {
            Some(failure) => if done {
                Ok(None)
            } else {
                Err(failure)
            },
            None => Ok(event_of(action)),
        }
    }
}

/// Decides what comes of an action once its work is done. `result` is that of
/// the adapter; where the action asks for no work it does not matter.
pub fn conclude(action: &Action, result: Result<(), String>) -> (conclusion: Result<
    Option<ClientEvent>,
    AdapterError,
>)
    ensures
        outcome(conclusion) == concluded(action.deep_view(), result is Ok),
        conclusion matches Err(AdapterError::Storage(text)) ==> result == Err::<(), String>(text),
        conclusion matches Err(AdapterError::Network(text)) ==> result == Err::<(), String>(text),
        conclusion matches Err(AdapterError::Clock(text)) ==> result == Err::<(), String>(text),
        conclusion matches Err(AdapterError::StateMachine(text)) ==> result == Err::<(), String>(
            text,
        ),
        conclusion matches Err(AdapterError::Fatal(text)) ==> (action matches Action::Fatal {
            reason,
        } && text@ == reason@),
{
    match action {
        Action::Persist(_) => match result {
            Ok(_) => Ok(None),
            Err(text) => Err(AdapterError::Storage(text)),
        },
        Action::Send { .. } => match result {
            Ok(_) => Ok(None),
            Err(text) => Err(AdapterError::Network(text)),
        },
        Action::ResetElectionTimer => match result {
            Ok(_) => Ok(None),
            Err(text) => Err(AdapterError::Clock(text)),
        },
        Action::ResetHeartbeatTimer => match result {
            Ok(_) => Ok(None),
            Err(text) => Err(AdapterError::Clock(text)),
        },
        Action::Apply(_) => match result {
            Ok(_) => Ok(None),
            Err(text) => Err(AdapterError::StateMachine(text)),
        },
        Action::RoleChanged { role, term } => Ok(
            Some(ClientEvent::RoleChanged { role: *role, term: *term }),
        ),
        Action::ProposalCommitted { id, index } => Ok(
            Some(ClientEvent::ProposalCommitted { id: *id, index: *index }),
        ),
        Action::ProposalRejected { id, leader_hint } => Ok(
            Some(ClientEvent::ProposalRejected { id: *id, leader_hint: *leader_hint }),
        ),
        Action::ReadReady { context, index } => Ok(
            Some(ClientEvent::ReadReady { context: context.duplicate(), index: *index }),
        ),
        Action::ReadRejected { context, error } => Ok(
            Some(ClientEvent::ReadRejected { context: context.duplicate(), error: *error }),
        ),
        Action::SnapshotRejected { reason } => Ok(
            Some(ClientEvent::SnapshotRejected { reason: reason.duplicate() }),
        ),
        Action::Fatal { reason } => Err(AdapterError::Fatal(reason.duplicate())),
    }
}

/// What an action asks of the storage, with the answer.
pub open spec fn persist_call(action: ActionView, answer: Answer) -> Seq<
    (StorageMutationView, Answer),
> {
    match action {
        ActionView::Persist(mutation) => seq![(mutation, answer)],
        _ => Seq::empty(),
    }
}

/// What an action asks of the network, with the answer.
pub open spec fn send_call(action: ActionView, answer: Answer) -> Seq<
    (NodeId, MessageView, Answer),
> {
    match action {
        ActionView::Send { to, message } => seq![(to, message, answer)],
        _ => Seq::empty(),
    }
}

/// What an action asks of the clock, with the answer.
pub open spec fn arm_call(action: ActionView, answer: Answer) -> Seq<(Timer, Answer)> {
    match action {
        ActionView::ResetElectionTimer => seq![(Timer::Election, answer)],
        ActionView::ResetHeartbeatTimer => seq![(Timer::Heartbeat, answer)],
        _ => Seq::empty(),
    }
}

/// What an action asks of the state machine, with the answer.
pub open spec fn apply_call(action: ActionView, answer: Answer) -> Seq<(LogEntryView, Answer)> {
    match action {
        ActionView::Apply(entry) => seq![(entry, answer)],
        _ => Seq::empty(),
    }
}

/// Everything that the adapters were asked, each in its own order.
#[verifier::ext_equal]
pub struct Calls {
    pub persisted: Seq<(StorageMutationView, Answer)>,
    pub sent: Seq<(NodeId, MessageView, Answer)>,
    pub armed: Seq<(Timer, Answer)>,
    pub applied: Seq<(LogEntryView, Answer)>,
}

impl Calls {
    /// The calls with those of one more action.
    pub open spec fn with(self, action: ActionView, answer: Answer) -> Calls {
        Calls {
            persisted: self.persisted + persist_call(action, answer),
            sent: self.sent + send_call(action, answer),
            armed: self.armed + arm_call(action, answer),
            applied: self.applied + apply_call(action, answer),
        }
    }

    /// The calls with those of the first `n` actions, all of which succeeded.
    pub open spec fn with_first(self, actions: Seq<ActionView>, n: int) -> Calls
        decreases n,
    {
        if n <= 0 {
            self
        } else {
            self.with_first(actions, n - 1).with(actions[n - 1], Ok(()))
        }
    }
}

/// Everything that four adapters were asked.
pub open spec fn calls_of<
    S: StableStorageAdapter,
    N: NetworkAdapter,
    C: ClockAdapter,
    M: StateMachineAdapter,
>(storage: &S, network: &N, clock: &C, state_machine: &M) -> Calls {
    Calls {
        persisted: storage.persisted(),
        sent: network.sent(),
        armed: clock.armed(),
        applied: state_machine.applied(),
    }
}

impl AdapterError {
    /// The text that the one that failed has given.
    pub open spec fn text(&self) -> Seq<char> {
        match self {
            AdapterError::Storage(text) => text@,
            AdapterError::Network(text) => text@,
            AdapterError::Clock(text) => text@,
            AdapterError::StateMachine(text) => text@,
            AdapterError::Fatal(text) => text@,
        }
    }
}

/// Carrying out actions stops at the `k`th: all before it were carried out in
/// order, it is the one that failed, and nothing after it was asked of anyone.
pub open spec fn stops_at(
    actions: Seq<Action>,
    view: Seq<ActionView>,
    k: int,
    before: Calls,
    after: Calls,
    error: AdapterError,
) -> bool {
    &&& 0 <= k < actions.len()
    &&& forall|j: int| 0 <= j < k ==> (#[trigger] view[j]) !is Fatal
    &&& after == before.with_first(view, k).with(view[k], Err(error.text()))
    &&& match actions[k] {
        Action::Fatal { reason } => error is Fatal && error.text() == reason@,
        _ => failure_of(view[k]) == Some(error.deep_view()),
    }
}

/// Carries out actions in order, and stops at the first that fails: nothing
/// after it is carried out. What an adapter does with an action, and whether
/// it succeeds, is up to the adapter.
pub fn execute<
    S: StableStorageAdapter,
    N: NetworkAdapter,
    C: ClockAdapter,
    M: StateMachineAdapter,
>(
    actions: &Vec<Action>,
    storage: &mut S,
    network: &mut N,
    clock: &mut C,
    state_machine: &mut M,
) -> (result: Result<Vec<ClientEvent>, AdapterError>)
    ensures
        ({
            let view = actions.deep_view();
            let before = calls_of(old(storage), old(network), old(clock), old(state_machine));
            let after = calls_of(
                final(storage),
                final(network),
                final(clock),
                final(state_machine),
            );
            match result {
                Ok(events) => {
                    &&& events.deep_view() == events_of(view, view.len() as int)
                    &&& forall|i: int| 0 <= i < view.len() ==> (#[trigger] view[i]) !is Fatal
                    &&& after == before.with_first(view, view.len() as int)
                },
                Err(error) => exists|k: int| #[trigger]
                    stops_at(actions@, view, k, before, after, error),
            }
        }),
{
    let ghost view = actions.deep_view();
    let ghost before = calls_of(&*storage, &*network, &*clock, &*state_machine);
    let mut events: Vec<ClientEvent> = Vec::new();
    let mut i: usize = 0;
    assert(events.deep_view() =~= Seq::empty());
    while i < actions.len()
        invariant
            i <= actions@.len(),
            view == actions.deep_view(),
            events.deep_view() == events_of(view, i as int),
            forall|j: int| 0 <= j < i ==> (#[trigger] view[j]) !is Fatal,
            before == calls_of(old(storage), old(network), old(clock), old(state_machine)),
            calls_of(&*storage, &*network, &*clock, &*state_machine) == before.with_first(
                view,
                i as int,
            ),
        decreases actions@.len() - i,
    {
        let action = &actions[i];
        assert(view[i as int] == action.deep_view());
        let ghost so_far = events.deep_view();
        let ghost calls = before.with_first(view, i as int);
        let result = match action {
            Action::Persist(mutation) => storage.persist(mutation),
            Action::Send { to, message } => network.send(*to, message),
            Action::ResetElectionTimer => clock.reset_election(),
            Action::ResetHeartbeatTimer => clock.reset_heartbeat(),
            Action::Apply(entry) => state_machine.apply(entry),
            _ => Ok(()),
        };
        let ghost answer = answered(result);
        assert(calls_of(&*storage, &*network, &*clock, &*state_machine) =~= calls.with(
            view[i as int],
            answer,
        ));
        match conclude(action, result) {
            Ok(Some(event)) => {
                events.push(event);
                assert(events.deep_view() =~= so_far.push(event.deep_view()));
                assert(calls.with(view[i as int], answer) =~= calls.with(view[i as int], Ok(())));
            },
            Ok(None) => {},
            Err(error) => {
                assert(calls.with(view[i as int], answer) =~= calls.with(
                    view[i as int],
                    Err(error.text()),
                ));
                assert(stops_at(
                    actions@,
                    view,
                    i as int,
                    before,
                    calls_of(&*storage, &*network, &*clock, &*state_machine),
                    error,
                ));
                return Err(error);
            },
        }
        i = i + 1;
    }
    Ok(events)
}

} // verus!
