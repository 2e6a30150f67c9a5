//! The steps of a simulated group.

use vstd::prelude::*;
use crate::model::Model;
use crate::raft::cluster::{
    CHECK_QUORUM_TICKS, Draw, ENVELOPE_OVERHEAD, Envelope, HEARTBEAT_TICKS, Pair, SimError,
    SimEvent, SimState, SimView, TRACE_EVENTS, entries_cost, flow, input_name, lines, message_cost,
    saturating_sum, successor,
};
use crate::raft::disk::{EntryIdentity, SimDiskView};
use crate::raft::types::{
    Action, ActionView, EntryPayload, HardState, Input, LogEntry, Message, Role, StorageMutation,
    StorageMutationView, Tick,
};
use crate::raft::violations::{Violation, traced};
use crate::text::decimal_text;
use crate::types::{NodeId, between};

verus! {

broadcast use crate::model::group_contents;

fn plus(a: usize, b: usize) -> (sum: usize)
    ensures
        sum == saturating_sum(a, b),
{
    if a > usize::MAX - b {
        usize::MAX
    } else {
        a + b
    }
}

fn next_number(n: u64) -> (next: u64)
    ensures
        next == successor(n),
{
    if n == u64::MAX {
        n
    } else {
        n + 1
    }
}

/// How many bytes a message takes on its way.
pub fn message_byte_cost(message: &Message) -> (cost: usize)
    ensures
        cost == message_cost(message.deep_view()),
{
    let payload: usize = match message {
        Message::AppendEntries { entries, read_context, .. } => {
            let ghost view = entries.deep_view();
            let mut total: usize = 0;
            let mut i: usize = 0;
            while i < entries.len()
                invariant
                    i <= entries@.len(),
                    view == entries.deep_view(),
                    total == entries_cost(view, i as int),
                decreases entries@.len() - i,
            {
                assert(view[i as int] == entries@[i as int].deep_view());
                let cost: usize = match &entries[i].payload {
                    EntryPayload::Noop => 32,
                    EntryPayload::Command { bytes, .. } => plus(48, bytes.len()),
                };
                total = plus(total, cost);
                i = i + 1;
            }
            let context: usize = match read_context {
                Some(context) => context.len(),
                None => 0,
            };
            plus(context, total)
        },
        Message::AppendEntriesResponse { read_context, .. } => match read_context {
            Some(context) => context.len(),
            None => 0,
        },
        Message::InstallSnapshot { data, .. } => data.len(),
        _ => 0,
    };
    plus(ENVELOPE_OVERHEAD, payload)
}

/// The name of an event in a trace.
pub fn describe_input(input: &Input) -> (name: &'static str)
    ensures
        name@ == input_name(input.deep_view()),
{
    match input {
        Input::Tick(tick) => match tick {
            Tick::Election => "tick-election",
            Tick::Heartbeat => "tick-heartbeat",
            Tick::CheckQuorum => "tick-check-quorum",
        },
        Input::Message { message, .. } => match message {
            Message::PreVoteRequest { .. } => "recv-prevote",
            Message::PreVoteResponse { .. } => "recv-prevote-response",
            Message::RequestVote { .. } => "recv-vote",
            Message::RequestVoteResponse { .. } => "recv-vote-response",
            Message::AppendEntries { entries, .. } => if entries.len() == 0 {
                "recv-heartbeat"
            } else {
                "recv-append"
            },
            Message::AppendEntriesResponse { .. } => "recv-append-response",
            Message::InstallSnapshot { .. } => "recv-snapshot-chunk",
            Message::InstallSnapshotResponse { .. } => "recv-snapshot-response",
        },
        Input::Propose { .. } => "propose",
        Input::ReadIndex { .. } => "read-index",
        Input::SnapshotBuilt(_) => "snapshot-built",
    }
}

proof fn commits_known_stops(
    state: SimView,
    node: NodeId,
    disk: SimDiskView,
    from: u64,
    mid: u64,
    to: u64,
)
    requires
        from <= mid <= to,
        state.commits_known(node, disk, from, mid).error is Some,
    ensures
        state.commits_known(node, disk, from, to) == state.commits_known(node, disk, from, mid),
    decreases to,
{
    if mid < to {
        commits_known_stops(state, node, disk, from, mid, (to - 1) as u64);
    }
}

/// Nothing is carried out after an action that fails.
pub(crate) proof fn executed_stops(
    state: SimView,
    node: NodeId,
    actions: Seq<ActionView>,
    draws: Seq<Draw>,
    m: int,
    n: int,
)
    requires
        0 <= m <= n,
        state.executed(node, actions, draws, m).error is Some,
    ensures
        state.executed(node, actions, draws, n) == state.executed(node, actions, draws, m),
    decreases n,
{
    if m < n {
        executed_stops(state, node, actions, draws, m, n - 1);
    }
}

impl SimState {
    pub(crate) fn record(&mut self, event: String)
        ensures
            final(self).content() == old(self).content().recorded(event@),
    {
        let ghost before = lines(self.trace@);
        if self.trace.len() == TRACE_EVENTS {
            let _ = self.trace.pop_front();
            assert(lines(self.trace@) =~= before.skip(1));
        }
        let ghost kept = lines(self.trace@);
        self.trace.push_back(event);
        assert(lines(self.trace@) =~= kept.push(event@));
    }

    /// The error that stops the group with a text.
    pub(crate) fn halt(&self, text: String) -> (error: SimError)
        ensures
            self.content().halted(text@) == self.content().stopped(error.deep_view()),
    {
        let mut message = text;
        let ghost trace = lines(self.trace@);
        if self.trace.len() > 0 {
            message.append("; bounded replay trace: ");
            let ghost before = message@;
            message.append(self.trace[0].as_str());
            let mut i: usize = 1;
            while i < self.trace.len()
                invariant
                    1 <= i <= self.trace@.len(),
                    trace == lines(self.trace@),
                    before == text@ + "; bounded replay trace: "@,
                    message@ == before + traced(trace, i as int),
                decreases self.trace@.len() - i,
            {
                message.append(" | ");
                message.append(self.trace[i].as_str());
                i = i + 1;
                assert(message@ =~= before + traced(trace, i as int));
            }
        }
        SimError::Invariant { seed: self.seed, step: self.step_number, message }
    }

    /// The error for a safety property that does not hold.
    pub(crate) fn violation_error(&self, violation: Violation) -> (error: SimError)
        ensures
            self.content().violated(violation) == self.content().stopped(error.deep_view()),
    {
        self.halt(violation.describe())
    }

    fn persist_hard_state(&mut self, node: NodeId, next: HardState) -> (result: Result<(), SimError>)
        ensures
            flow(final(self).content(), result) == old(self).content().hard_state_stored(
                node,
                next,
            ),
    {
        let ghost start = self.content();
        let previous = match self.disks.get(&node) {
            Some(disk) => disk.stable.hard_state,
            None => return Err(SimError::NodeUnavailable(node)),
        };
        if next.current_term < previous.current_term {
            return Err(
                self.violation_error(
                    Violation::TermRegressed {
                        node,
                        from: previous.current_term,
                        to: next.current_term,
                    },
                ),
            );
        }
        if next.commit_index < previous.commit_index {
            return Err(
                self.violation_error(
                    Violation::CommitRegressed {
                        node,
                        from: previous.commit_index,
                        to: next.commit_index,
                    },
                ),
            );
        }
        if next.current_term == previous.current_term {
            if let (Some(old_vote), Some(new_vote)) = (previous.voted_for, next.voted_for) {
                if old_vote != new_vote {
                    return Err(
                        self.violation_error(
                            Violation::VoteChanged {
                                node,
                                term: next.current_term,
                                from: old_vote,
                                to: new_vote,
                            },
                        ),
                    );
                }
            }
        }
        if let Some(candidate) = next.voted_for {
            let slot = Pair { first: node, second: next.current_term };
            if let Some(earlier) = self.votes_by_term.insert(slot, candidate) {
                if earlier != candidate {
                    return Err(
                        self.violation_error(
                            Violation::VotedTwice {
                                node,
                                first: earlier,
                                second: candidate,
                                term: next.current_term,
                            },
                        ),
                    );
                }
            }
        }
        match self.disks.remove(&node) {
            Some(disk) => {
                let mut disk = disk;
                let _ = disk.write(&StorageMutation::HardState(next));
                self.disks.insert(node, disk);
                assert(self.disks.deep_view() =~= start.disks.insert(
                    node,
                    start.disks[node].written(StorageMutationView::HardState(next)).0,
                ));
            },
            None => {},
        }
        Ok(())
    }

    fn know_commit(
        &mut self,
        node: NodeId,
        index: u64,
        identity: Option<EntryIdentity>,
    ) -> (result: Result<(), SimError>)
        ensures
            flow(final(self).content(), result) == old(self).content().commit_known(
                node,
                index,
                identity.deep_view(),
            ),
    {
        match identity {
            None => Err(self.violation_error(Violation::CommittedMissing { node, index })),
            Some(identity) => {
                let copy = identity.duplicate();
                if let Some(previous) = self.committed.insert(index, copy) {
                    if !previous.same(&identity) {
                        return Err(self.violation_error(Violation::CommittedChanged { index }));
                    }
                }
                Ok(())
            },
        }
    }

    fn capture_committed(&mut self, node: NodeId) -> (result: Result<(), SimError>)
        ensures
            flow(final(self).content(), result) == old(self).content().commits_captured(node),
    {
        let ghost start = self.content();
        let disk = match self.disks.get(&node) {
            Some(disk) => disk.duplicate(),
            None => return Err(SimError::NodeUnavailable(node)),
        };
        let captured: u64 = match self.captured_commit.get(&node) {
            Some(captured) => *captured,
            None => 0,
        };
        let base_index = disk.base_index();
        let from: u64 = if captured < base_index {
            base_index
        } else {
            captured
        };
        let commit_index = disk.stable.hard_state.commit_index;
        let ghost view = disk.deep_view();
        let mut index: u64 = from;
        while index < commit_index
            invariant
                start == old(self).content(),
                from <= index,
                index <= commit_index || index == from,
                view == disk.deep_view(),
                start.commits_known(node, view, from, index) == self.content().going(),
                start.commits_captured(node) == ({
                    let known = start.commits_known(node, view, from, commit_index);
                    if known.error is Some {
                        known
                    } else {
                        SimView {
                            captured_commit: known.state.captured_commit.insert(
                                node,
                                commit_index,
                            ),
                            ..known.state
                        }.going()
                    }
                }),
            decreases commit_index - index,
        {
            index = index + 1;
            let identity = disk.known_identity(index);
            let known = self.know_commit(node, index, identity);
            if let Err(error) = known {
                proof {
                    assert(start.commits_known(node, view, from, index).error is Some);
                    commits_known_stops(start, node, view, from, index, commit_index);
                }
                return Err(error);
            }
        }
        proof {
            if commit_index < from {
                assert(start.commits_known(node, view, from, commit_index) == start.going());
            }
        }
        self.captured_commit.insert(node, commit_index);
        Ok(())
    }

    pub(crate) fn persist(&mut self, node: NodeId, mutation: &StorageMutation) -> (result: Result<
        (),
        SimError,
    >)
        ensures
            flow(final(self).content(), result) == old(self).content().persisted(
                node,
                mutation.deep_view(),
            ),
    {
        let ghost start = self.content();
        if let StorageMutation::HardState(next) = mutation {
            let stored = self.persist_hard_state(node, *next);
            if stored.is_err() {
                return stored;
            }
        } else {
            let mut disk = match self.disks.remove(&node) {
                Some(disk) => disk,
                None => {
                    assert(self.disks.deep_view() =~= start.disks);
                    return Err(SimError::NodeUnavailable(node));
                },
            };
            let violation = disk.unsound_write(node, mutation);
            let sound = disk.write(mutation);
            self.disks.insert(node, disk);
            assert(self.disks.deep_view() =~= start.disks.insert(
                node,
                start.disks[node].written(mutation.deep_view()).0,
            ));
            if !sound {
                return Err(self.violation_error(violation));
            }
        }
        self.capture_committed(node)
    }

    fn push_event(&mut self, event: SimEvent)
        ensures
            final(self).content() == old(self).content().with_event(event.deep_view()),
    {
        let ghost before = self.events.deep_view();
        self.events.push(event);
        assert(self.events.deep_view() =~= before.push(event.deep_view()));
    }

    pub(crate) fn apply(&mut self, node: NodeId, entry: &LogEntry) -> (result: Result<(), SimError>)
        ensures
            flow(final(self).content(), result) == old(self).content().entry_applied(
                node,
                entry.deep_view(),
            ),
    {
        let ghost start = self.content();
        let mut disk = match self.disks.remove(&node) {
            Some(disk) => disk,
            None => {
                assert(self.disks.deep_view() =~= start.disks);
                return Err(SimError::NodeUnavailable(node));
            },
        };
        let applied = disk.apply(entry);
        let stable = disk.stable.applied_index;
        let commit = disk.stable.hard_state.commit_index;
        self.disks.insert(node, disk);
        if !applied {
            assert(self.disks.deep_view() =~= start.disks);
            return Err(
                self.violation_error(
                    Violation::AppliedOutOfTurn {
                        node,
                        index: entry.index,
                        expected: stable as u128 + 1,
                        commit,
                    },
                ),
            );
        }
        assert(self.disks.deep_view() =~= start.disks.insert(
            node,
            start.disks[node].with_applied(entry.deep_view()),
        ));
        self.push_event(SimEvent::Applied { node, index: entry.index });
        Ok(())
    }

    /// Whether a message finds room behind some more messages and bytes.
    pub(crate) fn has_room_for(&self, messages: usize, bytes: usize, cost: usize) -> (room: bool)
        ensures
            room == (self.content().messages.len() + messages
                < self.content().profile.max_queued_messages && saturating_sum(
                saturating_sum(self.content().queued_bytes, bytes),
                cost,
            ) <= self.content().profile.max_queued_bytes),
    {
        let limit = self.profile.max_queued_messages;
        messages < limit && self.messages.len() < limit - messages && plus(
            plus(self.queued_bytes, bytes),
            cost,
        ) <= self.profile.max_queued_bytes
    }

    fn queue(&mut self, from: NodeId, to: NodeId, message: &Message, delay: u64)
        requires
            old(self).content().has_time(0),
            delay <= old(self).content().profile.max_delay_ticks,
        ensures
            final(self).content() == old(self).content().queued(
                from,
                to,
                message.deep_view(),
                delay,
            ),
    {
        let byte_cost = message_byte_cost(message);
        let bytes = plus(self.queued_bytes, byte_cost);
        if self.messages.len() >= self.profile.max_queued_messages || bytes
            > self.profile.max_queued_bytes {
            return;
        }
        let wait: u64 = if self.profile.max_delay_ticks == 0 {
            0
        } else {
            delay
        };
        self.next_sequence = next_number(self.next_sequence);
        let envelope = Envelope {
            sequence: self.next_sequence,
            from,
            to,
            deliver_at: self.now + wait,
            message: message.duplicate(),
            byte_cost,
        };
        let ghost before = self.messages.deep_view();
        self.messages.push(envelope);
        assert(self.messages.deep_view() =~= before.push(envelope.deep_view()));
        self.queued_bytes = bytes;
    }

    pub(crate) fn enqueue(&mut self, from: NodeId, to: NodeId, message: &Message, draw: &Draw)
        requires
            old(self).content().has_time(0),
            old(self).content().allows(*draw),
        ensures
            final(self).content() == old(self).content().enqueued(
                from,
                to,
                message.deep_view(),
                *draw,
            ),
    {
        if self.profile.drop_per_mille != 0 && draw.dropped {
            return;
        }
        self.queue(from, to, message, draw.first_delay);
        if self.profile.duplicate_per_mille != 0 && draw.duplicated {
            self.queue(from, to, message, draw.second_delay);
        }
    }

    pub(crate) fn act(&mut self, node: NodeId, action: &Action, draw: &Draw) -> (result: Result<
        (),
        SimError,
    >)
        requires
            old(self).content().has_time(0),
            old(self).content().allows(*draw),
        ensures
            flow(final(self).content(), result) == old(self).content().acted(
                node,
                action.deep_view(),
                *draw,
            ),
    {
        proof {
            reveal(SimView::acted);
        }
        match action {
            Action::Persist(mutation) => self.persist(node, mutation),
            Action::Send { to, message } => {
                self.enqueue(node, *to, message, draw);
                Ok(())
            },
            Action::ResetElectionTimer => {
                self.election_deadline.insert(node, self.now + draw.deadline);
                Ok(())
            },
            Action::ResetHeartbeatTimer => {
                self.heartbeat_deadline.insert(node, self.now + HEARTBEAT_TICKS);
                Ok(())
            },
            Action::RoleChanged { role, term } => {
                if *role == Role::Leader {
                    if let Some(previous) = self.leaders_by_term.insert(*term, node) {
                        if previous != node {
                            return Err(
                                self.violation_error(
                                    Violation::TwoLeaders { previous, node, term: *term },
                                ),
                            );
                        }
                    }
                    self.quorum_deadline.insert(node, self.now + CHECK_QUORUM_TICKS);
                    self.push_event(SimEvent::Leader { node, term: *term });
                }
                Ok(())
            },
            Action::Apply(entry) => self.apply(node, entry),
            Action::ProposalCommitted { id, index } => {
                self.push_event(SimEvent::Committed { node, id: *id, index: *index });
                Ok(())
            },
            Action::ReadReady { context, index } => {
                self.push_event(
                    SimEvent::ReadReady { node, context: context.duplicate(), index: *index },
                );
                Ok(())
            },
            Action::Fatal { reason } => {
                self.push_event(SimEvent::Fatal { node, reason: reason.duplicate() });
                let mut text = between("node ", &decimal_text(node), " fenced itself: ");
                text.append(reason.as_str());
                Err(self.halt(text))
            },
            Action::ProposalRejected { .. } => Ok(()),
            Action::ReadRejected { .. } => Ok(()),
            Action::SnapshotRejected { .. } => Ok(()),
        }
    }
}

/// Actions are carried out alike under draws that are the same so far.
pub(crate) proof fn executed_alike(
    state: SimView,
    node: NodeId,
    actions: Seq<ActionView>,
    draws: Seq<Draw>,
    others: Seq<Draw>,
    n: int,
)
    requires
        forall|i: int| 0 <= i < n ==> draws[i] == others[i],
    ensures
        state.executed(node, actions, draws, n) == state.executed(node, actions, others, n),
    decreases n,
{
    if n > 0 {
        executed_alike(state, node, actions, draws, others, n - 1);
    }
}

proof fn commits_known_keeps_time(
    state: SimView,
    node: NodeId,
    disk: SimDiskView,
    from: u64,
    to: u64,
)
    ensures
        ({
            let after = state.commits_known(node, disk, from, to).state;
            after == (SimView { committed: after.committed, ..state })
        }),
    decreases to,
{
    if to > from {
        commits_known_keeps_time(state, node, disk, from, (to - 1) as u64);
    }
}

/// Carrying out actions takes no time.
pub proof fn acting_keeps_time(state: SimView, node: NodeId, action: ActionView, draw: Draw)
    ensures
        state.acted(node, action, draw).state.now == state.now,
        state.acted(node, action, draw).state.profile == state.profile,
        state.acted(node, action, draw).state.configuration == state.configuration,
        state.acted(node, action, draw).state.nodes == state.nodes,
        state.acted(node, action, draw).state.disks.dom().subset_of(state.disks.dom()),
        state.acted(node, action, draw).state.step_number == state.step_number,
        state.acted(node, action, draw).state.step_budget == state.step_budget,
        state.acted(node, action, draw).state.seed == state.seed,
        state.acted(node, action, draw).state.trace == state.trace,
{
    reveal(SimView::acted);
    if let ActionView::Persist(mutation) = action {
        let stored = match mutation {
            StorageMutationView::HardState(next) => state.hard_state_stored(node, next).state,
            _ => SimView {
                disks: state.disks.insert(node, state.disks[node].written(mutation).0),
                ..state
            },
        };
        if stored.disks.contains_key(node) {
            let disk = stored.disks[node];
            let captured = if stored.captured_commit.contains_key(node) {
                stored.captured_commit[node]
            } else {
                0
            };
            let from = if captured < disk.log().base_index {
                disk.log().base_index
            } else {
                captured
            };
            commits_known_keeps_time(
                stored,
                node,
                disk,
                from,
                disk.stable.hard_state.commit_index,
            );
        }
    }
}

} // verus!
