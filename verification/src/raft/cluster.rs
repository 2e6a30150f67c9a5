//! A simulated group of nodes, where every chance is an argument.

use std::collections::VecDeque;

use vstd::prelude::*;
use crate::digest::sha256;
use crate::model::Model;
use crate::ordmap::{Key, OrdMap, OrdSet, ordered};
use crate::raft::configuration::{Configuration, ConfigurationView};
use crate::raft::disk::{EntryIdentity, EntryIdentityView, SimDisk, SimDiskView, identity_of};
use crate::raft::log::LogView;
use crate::raft::machine::{Raft, recovered, recovery_problem};
use crate::raft::state::RaftView;
use crate::raft::types::{
    ActionView, CommandId, EntryPayloadView, HardState, InputView, LogEntryView, Message,
    MessageView, PersistentSnapshotView, Role, SnapshotMetadataView, StorageMutationView, Tick,
};
use crate::raft::violations::{Violation, fenced_words, reported};
use crate::text::decimal;
use crate::types::{NodeId, message};

verus! {

broadcast use crate::model::group_contents;

pub const ELECTION_MIN_TICKS: u64 = 9;

pub const ELECTION_MAX_TICKS: u64 = 18;

pub const HEARTBEAT_TICKS: u64 = 2;

pub const CHECK_QUORUM_TICKS: u64 = 20;

/// The most events that a trace holds.
pub const TRACE_EVENTS: usize = 96;

/// What a message costs beside its payload.
pub const ENVELOPE_OVERHEAD: usize = 128;

/// How badly the simulated network behaves.
#[derive(Debug, Clone, Copy, PartialEq, Eq, Structural)]
pub struct FaultProfile {
    /// The chance that a message is lost, in thousandths.
    pub drop_per_mille: u16,
    /// The chance that a message arrives twice, in thousandths.
    pub duplicate_per_mille: u16,
    /// The longest delay of a message.
    pub max_delay_ticks: u64,
    /// The most messages under way.
    pub max_queued_messages: usize,
    /// The most bytes under way.
    pub max_queued_bytes: usize,
}

impl DeepView for FaultProfile {
    type V = FaultProfile;

    open spec fn deep_view(&self) -> FaultProfile {
        *self
    }
}

impl Model for FaultProfile {
    fn duplicate(&self) -> (copy: Self) {
        *self
    }

    fn same(&self, other: &Self) -> (equal: bool) {
        *self == *other
    }
}

/// Two numbers, such as the ends of a link.
#[derive(Debug, Clone, Copy, PartialEq, Eq, Structural)]
pub struct Pair {
    pub first: u64,
    pub second: u64,
}

impl DeepView for Pair {
    type V = Pair;

    open spec fn deep_view(&self) -> Pair {
        *self
    }
}

impl Model for Pair {
    fn duplicate(&self) -> (copy: Self) {
        *self
    }

    fn same(&self, other: &Self) -> (equal: bool) {
        *self == *other
    }
}

/// A message under way.
#[derive(Debug, Clone, PartialEq, Eq)]
pub struct Envelope {
    pub sequence: u64,
    pub from: NodeId,
    pub to: NodeId,
    pub deliver_at: u64,
    pub message: Message,
    pub byte_cost: usize,
}

/// The content of a [`Envelope`].
#[verifier::ext_equal]
pub struct EnvelopeView {
    pub sequence: u64,
    pub from: NodeId,
    pub to: NodeId,
    pub deliver_at: u64,
    pub message: MessageView,
    pub byte_cost: usize,
}

impl DeepView for Envelope {
    type V = EnvelopeView;

    open spec fn deep_view(&self) -> EnvelopeView {
        EnvelopeView {
            sequence: self.sequence.deep_view(),
            from: self.from.deep_view(),
            to: self.to.deep_view(),
            deliver_at: self.deliver_at.deep_view(),
            message: self.message.deep_view(),
            byte_cost: self.byte_cost.deep_view(),
        }
    }
}

impl Model for Envelope {
    fn duplicate(&self) -> (copy: Self) {
        Envelope {
            sequence: self.sequence.duplicate(),
            from: self.from.duplicate(),
            to: self.to.duplicate(),
            deliver_at: self.deliver_at.duplicate(),
            message: self.message.duplicate(),
            byte_cost: self.byte_cost.duplicate(),
        }
    }

    fn same(&self, other: &Self) -> (equal: bool) {
        self.sequence.same(&other.sequence)
            && self.from.same(&other.from)
            && self.to.same(&other.to)
            && self.deliver_at.same(&other.deliver_at)
            && self.message.same(&other.message)
            && self.byte_cost.same(&other.byte_cost)
    }
}

/// The chances that decide about one action.
#[derive(Debug, Clone, Copy, PartialEq, Eq, Structural)]
pub struct Draw {
    pub deadline: u64,
    pub dropped: bool,
    pub duplicated: bool,
    pub first_delay: u64,
    pub second_delay: u64,
}

impl DeepView for Draw {
    type V = Draw;

    open spec fn deep_view(&self) -> Draw {
        *self
    }
}

impl Model for Draw {
    fn duplicate(&self) -> (copy: Self) {
        *self
    }

    fn same(&self, other: &Self) -> (equal: bool) {
        *self == *other
    }
}
impl Key for Pair {
    open spec fn before(a: Pair, b: Pair) -> bool {
        a.first < b.first || (a.first == b.first && a.second < b.second)
    }

    proof fn before_irreflexive(a: Pair) {
    }

    proof fn before_transitive(a: Pair, b: Pair, c: Pair) {
    }

    proof fn before_total(a: Pair, b: Pair) {
    }

    fn comes_before(&self, other: &Self) -> (before: bool) {
        self.first < other.first || (self.first == other.first && self.second < other.second)
    }
}

impl FaultProfile {
    /// A network that loses and delays nothing.
    pub open spec fn reliable_profile() -> FaultProfile {
        FaultProfile {
            drop_per_mille: 0,
            duplicate_per_mille: 0,
            max_delay_ticks: 0,
            max_queued_messages: 100_000,
            max_queued_bytes: 67_108_864,
        }
    }

    /// Chances are at most certain.
    pub open spec fn possible(self) -> bool {
        self.drop_per_mille <= 1000 && self.duplicate_per_mille <= 1000
    }

    /// A network that loses and delays nothing.
    pub fn reliable() -> (profile: FaultProfile)
        ensures
            profile == FaultProfile::reliable_profile(),
    {
        FaultProfile {
            drop_per_mille: 0,
            duplicate_per_mille: 0,
            max_delay_ticks: 0,
            max_queued_messages: 100_000,
            max_queued_bytes: 67_108_864,
        }
    }

    /// A network that loses, repeats and delays messages.
    pub fn hostile() -> (profile: FaultProfile)
        ensures
            profile == (FaultProfile {
                drop_per_mille: 120,
                duplicate_per_mille: 150,
                max_delay_ticks: 8,
                max_queued_messages: 4_096,
                max_queued_bytes: 8_388_608,
            }),
    {
        FaultProfile {
            drop_per_mille: 120,
            duplicate_per_mille: 150,
            max_delay_ticks: 8,
            max_queued_messages: 4_096,
            max_queued_bytes: 8_388_608,
        }
    }
}

impl Default for FaultProfile {
    fn default() -> (profile: FaultProfile)
        ensures
            profile == FaultProfile::reliable_profile(),
    {
        FaultProfile::reliable()
    }
}

/// Something that happened in a simulation.
#[derive(Debug, Clone, PartialEq, Eq)]
pub enum SimEvent {
    Leader { node: NodeId, term: u64 },
    Applied { node: NodeId, index: u64 },
    Committed { node: NodeId, id: CommandId, index: u64 },
    ReadReady { node: NodeId, context: Vec<u8>, index: u64 },
    Fatal { node: NodeId, reason: String },
}

/// The content of a [`SimEvent`].
#[verifier::ext_equal]
pub enum SimEventView {
    Leader { node: NodeId, term: u64 },
    Applied { node: NodeId, index: u64 },
    Committed { node: NodeId, id: CommandId, index: u64 },
    ReadReady { node: NodeId, context: Seq<u8>, index: u64 },
    Fatal { node: NodeId, reason: Seq<char> },
}

impl DeepView for SimEvent {
    type V = SimEventView;

    open spec fn deep_view(&self) -> SimEventView {
        match self {
            SimEvent::Leader { node, term } => SimEventView::Leader { node: *node, term: *term },
            SimEvent::Applied { node, index } => SimEventView::Applied {
                node: *node,
                index: *index,
            },
            SimEvent::Committed { node, id, index } => SimEventView::Committed {
                node: *node,
                id: *id,
                index: *index,
            },
            SimEvent::ReadReady { node, context, index } => SimEventView::ReadReady {
                node: *node,
                context: context@,
                index: *index,
            },
            SimEvent::Fatal { node, reason } => SimEventView::Fatal {
                node: *node,
                reason: reason@,
            },
        }
    }
}

/// Why a simulation stopped.
#[derive(Debug, Clone, PartialEq, Eq)]
pub enum SimError {
    Configuration(String),
    Invariant { seed: u64, step: u64, message: String },
    NodeUnavailable(NodeId),
    Recovery { node: NodeId, message: String },
    StepBudget { seed: u64, budget: u64 },
}

/// What a [`SimError`] says to a program.
pub enum SimErrorKind {
    Configuration,
    Invariant { seed: u64, step: u64, message: Seq<char> },
    NodeUnavailable(NodeId),
    Recovery { node: NodeId },
    StepBudget { seed: u64, budget: u64 },
}

impl DeepView for SimError {
    type V = SimErrorKind;

    open spec fn deep_view(&self) -> SimErrorKind {
        match self {
            SimError::Configuration(_) => SimErrorKind::Configuration,
            SimError::Invariant { seed, step, message } => SimErrorKind::Invariant {
                seed: *seed,
                step: *step,
                message: message@,
            },
            SimError::NodeUnavailable(node) => SimErrorKind::NodeUnavailable(*node),
            SimError::Recovery { node, .. } => SimErrorKind::Recovery { node: *node },
            SimError::StepBudget { seed, budget } => SimErrorKind::StepBudget {
                seed: *seed,
                budget: *budget,
            },
        }
    }
}

/// Everything in a simulation but the source of chance.
#[derive(Debug)]
pub(crate) struct SimState {
    pub(crate) seed: u64,
    pub(crate) configuration: Configuration,
    pub(crate) profile: FaultProfile,
    pub(crate) now: u64,
    pub(crate) step_number: u64,
    pub(crate) next_sequence: u64,
    pub(crate) step_budget: u64,
    pub(crate) queued_bytes: usize,
    pub(crate) nodes: OrdMap<NodeId, Raft>,
    pub(crate) disks: OrdMap<NodeId, SimDisk>,
    pub(crate) election_deadline: OrdMap<NodeId, u64>,
    pub(crate) heartbeat_deadline: OrdMap<NodeId, u64>,
    pub(crate) quorum_deadline: OrdMap<NodeId, u64>,
    pub(crate) blocked: OrdSet<Pair>,
    pub(crate) messages: Vec<Envelope>,
    pub(crate) leaders_by_term: OrdMap<u64, NodeId>,
    pub(crate) votes_by_term: OrdMap<Pair, NodeId>,
    pub(crate) committed: OrdMap<u64, EntryIdentity>,
    pub(crate) captured_commit: OrdMap<NodeId, u64>,
    pub(crate) events: Vec<SimEvent>,
    pub(crate) trace: VecDeque<String>,
}

/// The content of a simulation.
#[verifier::ext_equal]
pub struct SimView {
    pub seed: u64,
    pub configuration: ConfigurationView,
    pub profile: FaultProfile,
    pub now: u64,
    pub step_number: u64,
    pub next_sequence: u64,
    pub step_budget: u64,
    pub queued_bytes: usize,
    pub nodes: Map<NodeId, RaftView>,
    pub disks: Map<NodeId, SimDiskView>,
    pub election_deadline: Map<NodeId, u64>,
    pub heartbeat_deadline: Map<NodeId, u64>,
    pub quorum_deadline: Map<NodeId, u64>,
    pub blocked: Set<Pair>,
    pub messages: Seq<EnvelopeView>,
    pub leaders_by_term: Map<u64, NodeId>,
    pub votes_by_term: Map<Pair, NodeId>,
    pub committed: Map<u64, EntryIdentityView>,
    pub captured_commit: Map<NodeId, u64>,
    pub events: Seq<SimEventView>,
    /// The last events, as lines of text.
    pub trace: Seq<Seq<char>>,
}

/// The lines of a trace.
pub open spec fn lines(trace: Seq<String>) -> Seq<Seq<char>> {
    Seq::new(trace.len(), |i: int| trace[i]@)
}

/// How a line of a trace begins.
pub open spec fn at_time(now: u64, what: Seq<char>) -> Seq<char> {
    "t="@ + decimal(now as nat) + what
}

/// The name of an event in a trace.
pub open spec fn input_name(input: InputView) -> Seq<char> {
    match input {
        InputView::Tick(tick) => match tick {
            Tick::Election => "tick-election"@,
            Tick::Heartbeat => "tick-heartbeat"@,
            Tick::CheckQuorum => "tick-check-quorum"@,
        },
        InputView::Message { message, .. } => match message {
            MessageView::PreVoteRequest { .. } => "recv-prevote"@,
            MessageView::PreVoteResponse { .. } => "recv-prevote-response"@,
            MessageView::RequestVote { .. } => "recv-vote"@,
            MessageView::RequestVoteResponse { .. } => "recv-vote-response"@,
            MessageView::AppendEntries { entries, .. } => if entries.len() == 0 {
                "recv-heartbeat"@
            } else {
                "recv-append"@
            },
            MessageView::AppendEntriesResponse { .. } => "recv-append-response"@,
            MessageView::InstallSnapshot { .. } => "recv-snapshot-chunk"@,
            MessageView::InstallSnapshotResponse { .. } => "recv-snapshot-response"@,
        },
        InputView::Propose { .. } => "propose"@,
        InputView::ReadIndex { .. } => "read-index"@,
        InputView::SnapshotBuilt(_) => "snapshot-built"@,
    }
}

/// The line for an event that a node takes in.
pub open spec fn input_line(now: u64, node: NodeId, input: InputView) -> Seq<char> {
    at_time(now, " input node="@) + decimal(node as nat) + " "@ + input_name(input)
}

/// The line for a node that crashes.
pub open spec fn crash_line(now: u64, node: NodeId) -> Seq<char> {
    at_time(now, " crash node="@) + decimal(node as nat)
}

/// The line for a node that starts again.
pub open spec fn restart_line(now: u64, node: NodeId) -> Seq<char> {
    at_time(now, " restart node="@) + decimal(node as nat)
}

/// The line for a link that no longer works.
pub open spec fn partition_line(now: u64, from: NodeId, to: NodeId) -> Seq<char> {
    at_time(now, " partition "@) + decimal(from as nat) + "->"@ + decimal(to as nat)
}

/// The line for a message that arrives.
pub open spec fn delivery_line(now: u64, envelope: EnvelopeView) -> Seq<char> {
    at_time(now, " deliver seq="@) + decimal(envelope.sequence as nat) + " "@ + decimal(
        envelope.from as nat,
    ) + "->"@ + decimal(envelope.to as nat)
}

impl SimState {
    pub(crate) open spec fn content(self) -> SimView {
        SimView {
            seed: self.seed,
            configuration: self.configuration.deep_view(),
            profile: self.profile,
            now: self.now,
            step_number: self.step_number,
            next_sequence: self.next_sequence,
            step_budget: self.step_budget,
            queued_bytes: self.queued_bytes,
            nodes: self.nodes.deep_view(),
            disks: self.disks.deep_view(),
            election_deadline: self.election_deadline.deep_view(),
            heartbeat_deadline: self.heartbeat_deadline.deep_view(),
            quorum_deadline: self.quorum_deadline.deep_view(),
            blocked: self.blocked.deep_view(),
            messages: self.messages.deep_view(),
            leaders_by_term: self.leaders_by_term.deep_view(),
            votes_by_term: self.votes_by_term.deep_view(),
            committed: self.committed.deep_view(),
            captured_commit: self.captured_commit.deep_view(),
            events: self.events.deep_view(),
            trace: lines(self.trace@),
        }
    }
}

/// What a simulation comes to: its state, and an error where it stopped.
#[verifier::ext_equal]
pub struct Flow {
    pub state: SimView,
    pub error: Option<SimErrorKind>,
}

/// The flow of a function that returns `result` and leaves `state`.
pub open spec fn flow(state: SimView, result: Result<(), SimError>) -> Flow {
    Flow {
        state,
        error: match result {
            Ok(_) => None,
            Err(error) => Some(error.deep_view()),
        },
    }
}

/// The flow of a function that returns something more and leaves `state`.
pub open spec fn flow_of<T>(state: SimView, result: Result<T, SimError>) -> Flow {
    Flow {
        state,
        error: match result {
            Ok(_) => None,
            Err(error) => Some(error.deep_view()),
        },
    }
}

/// The sum, or the greatest number where the sum is greater.
pub open spec fn saturating_sum(a: usize, b: usize) -> usize {
    if a + b > usize::MAX {
        usize::MAX
    } else {
        (a + b) as usize
    }
}

/// The number after `n`, if there is one.
pub open spec fn successor(n: u64) -> u64 {
    if n == u64::MAX {
        u64::MAX
    } else {
        (n + 1) as u64
    }
}

/// What the entries of a message cost, counted for the first `n`.
pub open spec fn entries_cost(entries: Seq<LogEntryView>, n: int) -> usize
    decreases n,
{
    if n <= 0 {
        0
    } else {
        saturating_sum(
            entries_cost(entries, n - 1),
            match entries[n - 1].payload {
                EntryPayloadView::Noop => 32,
                EntryPayloadView::Command { bytes, .. } => saturating_sum(
                    48,
                    bytes.len() as usize,
                ),
            },
        )
    }
}

/// How many bytes a message takes on its way.
pub open spec fn message_cost(message: MessageView) -> usize {
    let payload = match message {
        MessageView::AppendEntries { entries, read_context, .. } => saturating_sum(
            match read_context {
                Some(context) => context.len() as usize,
                None => 0,
            },
            entries_cost(entries, entries.len() as int),
        ),
        MessageView::AppendEntriesResponse { read_context, .. } => match read_context {
            Some(context) => context.len() as usize,
            None => 0,
        },
        MessageView::InstallSnapshot { data, .. } => data.len() as usize,
        _ => 0,
    };
    saturating_sum(ENVELOPE_OVERHEAD, payload)
}

/// The earlier of two disks agree on every entry up to the last one of the
/// same term that both hold.
pub open spec fn logs_match(left: LogView, right: LogView) -> bool {
    forall|index: u64, below: u64|
        #![trigger left.entry(index), left.entry(below)]
        below <= index && left.entry(index) is Some && right.entry(index) is Some && left.entry(
            index,
        )->0.term == right.entry(index)->0.term && left.entry(below) is Some && right.entry(
            below,
        ) is Some ==> identity_of(left.entry(below)->0) == identity_of(right.entry(below)->0)
}

impl SimView {
    /// Time does not run out while something is under way.
    pub open spec fn has_time(self, ticks: int) -> bool {
        self.now + ticks + self.profile.max_delay_ticks + CHECK_QUORUM_TICKS <= u64::MAX
    }

    pub open spec fn stopped(self, error: SimErrorKind) -> Flow {
        Flow { state: self, error: Some(error) }
    }

    /// The group stops with a text and the trace that led to it.
    pub open spec fn halted(self, text: Seq<char>) -> Flow {
        self.stopped(
            SimErrorKind::Invariant {
                seed: self.seed,
                step: self.step_number,
                message: reported(text, self.trace),
            },
        )
    }

    /// A safety property does not hold.
    pub open spec fn violated(self, violation: Violation) -> Flow {
        self.halted(violation.words())
    }

    pub open spec fn going(self) -> Flow {
        Flow { state: self, error: None }
    }

    /// One more event in the trace; the oldest goes where it is full.
    pub open spec fn recorded(self, line: Seq<char>) -> SimView {
        SimView {
            trace: if self.trace.len() == TRACE_EVENTS {
                self.trace.skip(1).push(line)
            } else {
                self.trace.push(line)
            },
            ..self
        }
    }

    /// A node stores its hard state. Its term and its commit index must not go
    /// down, and it must not vote twice in a term.
    pub open spec fn hard_state_stored(self, node: NodeId, next: HardState) -> Flow {
        if !self.disks.contains_key(node) {
            self.stopped(SimErrorKind::NodeUnavailable(node))
        } else {
            let disk = self.disks[node];
            let previous = disk.stable.hard_state;
            let slot = Pair { first: node, second: next.current_term };
            let voted = match next.voted_for {
                Some(candidate) => SimView {
                    votes_by_term: self.votes_by_term.insert(slot, candidate),
                    ..self
                },
                None => self,
            };
            if next.current_term < previous.current_term {
                self.violated(
                    Violation::TermRegressed {
                        node,
                        from: previous.current_term,
                        to: next.current_term,
                    },
                )
            } else if next.commit_index < previous.commit_index {
                self.violated(
                    Violation::CommitRegressed {
                        node,
                        from: previous.commit_index,
                        to: next.commit_index,
                    },
                )
            } else if next.current_term == previous.current_term && previous.voted_for is Some
                && next.voted_for is Some && previous.voted_for != next.voted_for {
                self.violated(
                    Violation::VoteChanged {
                        node,
                        term: next.current_term,
                        from: previous.voted_for->0,
                        to: next.voted_for->0,
                    },
                )
            } else if next.voted_for is Some && self.votes_by_term.contains_key(slot)
                && self.votes_by_term[slot] != next.voted_for->0 {
                voted.violated(
                    Violation::VotedTwice {
                        node,
                        first: self.votes_by_term[slot],
                        second: next.voted_for->0,
                        term: next.current_term,
                    },
                )
            } else {
                SimView {
                    disks: self.disks.insert(
                        node,
                        disk.written(StorageMutationView::HardState(next)).0,
                    ),
                    ..voted
                }.going()
            }
        }
    }

    /// The entry at an index is known to be committed; a second report must
    /// agree with the first.
    pub open spec fn commit_known(
        self,
        node: NodeId,
        index: u64,
        identity: Option<EntryIdentityView>,
    ) -> Flow {
        match identity {
            None => self.violated(Violation::CommittedMissing { node, index }),
            Some(identity) => {
                let state = SimView {
                    committed: self.committed.insert(index, identity),
                    ..self
                };
                if self.committed.contains_key(index) && self.committed[index] != identity {
                    state.violated(Violation::CommittedChanged { index })
                } else {
                    state.going()
                }
            },
        }
    }

    /// What the disk of a node holds after `from` up to `to` is known to be committed.
    pub open spec fn commits_known(
        self,
        node: NodeId,
        disk: SimDiskView,
        from: u64,
        to: u64,
    ) -> Flow
        decreases to,
    {
        if to <= from {
            self.going()
        } else {
            let before = self.commits_known(node, disk, from, (to - 1) as u64);
            if before.error is Some {
                before
            } else {
                before.state.commit_known(node, to, disk.known_identity(to))
            }
        }
    }

    /// What a node has newly stored as committed is known to be committed.
    pub open spec fn commits_captured(self, node: NodeId) -> Flow {
        if !self.disks.contains_key(node) {
            self.stopped(SimErrorKind::NodeUnavailable(node))
        } else {
            let disk = self.disks[node];
            let captured = if self.captured_commit.contains_key(node) {
                self.captured_commit[node]
            } else {
                0
            };
            let from = if captured < disk.log().base_index {
                disk.log().base_index
            } else {
                captured
            };
            let commit_index = disk.stable.hard_state.commit_index;
            let known = self.commits_known(node, disk, from, commit_index);
            if known.error is Some {
                known
            } else {
                SimView {
                    captured_commit: known.state.captured_commit.insert(node, commit_index),
                    ..known.state
                }.going()
            }
        }
    }

    /// A node stores a mutation.
    pub open spec fn persisted(self, node: NodeId, mutation: StorageMutationView) -> Flow {
        let stored = match mutation {
            StorageMutationView::HardState(next) => self.hard_state_stored(node, next),
            _ => if !self.disks.contains_key(node) {
                self.stopped(SimErrorKind::NodeUnavailable(node))
            } else {
                let (disk, sound) = self.disks[node].written(mutation);
                let state = SimView { disks: self.disks.insert(node, disk), ..self };
                if sound {
                    state.going()
                } else {
                    state.violated(self.disks[node].unsound_write(node, mutation))
                }
            },
        };
        if stored.error is Some {
            stored
        } else {
            stored.state.commits_captured(node)
        }
    }

    pub open spec fn with_event(self, event: SimEventView) -> SimView {
        SimView { events: self.events.push(event), ..self }
    }

    /// A node applies an entry.
    pub open spec fn entry_applied(self, node: NodeId, entry: LogEntryView) -> Flow {
        if !self.disks.contains_key(node) {
            self.stopped(SimErrorKind::NodeUnavailable(node))
        } else if !self.disks[node].can_apply(entry) {
            self.violated(
                Violation::AppliedOutOfTurn {
                    node,
                    index: entry.index,
                    expected: (self.disks[node].stable.applied_index + 1) as u128,
                    commit: self.disks[node].stable.hard_state.commit_index,
                },
            )
        } else {
            SimView {
                disks: self.disks.insert(node, self.disks[node].with_applied(entry)),
                ..self
            }.with_event(SimEventView::Applied { node, index: entry.index }).going()
        }
    }

    /// One copy of a message goes on its way, unless too much is under way.
    pub open spec fn queued(
        self,
        from: NodeId,
        to: NodeId,
        message: MessageView,
        delay: u64,
    ) -> SimView {
        let byte_cost = message_cost(message);
        let bytes = saturating_sum(self.queued_bytes, byte_cost);
        if self.messages.len() >= self.profile.max_queued_messages || bytes
            > self.profile.max_queued_bytes {
            self
        } else {
            SimView {
                next_sequence: successor(self.next_sequence),
                queued_bytes: bytes,
                messages: self.messages.push(
                    EnvelopeView {
                        sequence: successor(self.next_sequence),
                        from,
                        to,
                        deliver_at: (self.now + (if self.profile.max_delay_ticks == 0 {
                            0
                        } else {
                            delay
                        })) as u64,
                        message,
                        byte_cost,
                    },
                ),
                ..self
            }
        }
    }

    /// A message is sent: it may be lost, or go on its way twice.
    pub open spec fn enqueued(
        self,
        from: NodeId,
        to: NodeId,
        message: MessageView,
        draw: Draw,
    ) -> SimView {
        if self.profile.drop_per_mille != 0 && draw.dropped {
            self
        } else if self.profile.duplicate_per_mille != 0 && draw.duplicated {
            self.queued(from, to, message, draw.first_delay).queued(
                from,
                to,
                message,
                draw.second_delay,
            )
        } else {
            self.queued(from, to, message, draw.first_delay)
        }
    }

    /// The chances of a draw are possible ones.
    pub open spec fn allows(self, draw: Draw) -> bool {
        &&& ELECTION_MIN_TICKS <= draw.deadline <= ELECTION_MAX_TICKS
        &&& draw.first_delay <= self.profile.max_delay_ticks
        &&& draw.second_delay <= self.profile.max_delay_ticks
    }

    /// One action of a node is carried out.
    #[verifier::opaque]
    pub open spec fn acted(self, node: NodeId, action: ActionView, draw: Draw) -> Flow {
        match action {
            ActionView::Persist(mutation) => self.persisted(node, mutation),
            ActionView::Send { to, message } => self.enqueued(node, to, message, draw).going(),
            ActionView::ResetElectionTimer => SimView {
                election_deadline: self.election_deadline.insert(
                    node,
                    (self.now + draw.deadline) as u64,
                ),
                ..self
            }.going(),
            ActionView::ResetHeartbeatTimer => SimView {
                heartbeat_deadline: self.heartbeat_deadline.insert(
                    node,
                    (self.now + HEARTBEAT_TICKS) as u64,
                ),
                ..self
            }.going(),
            ActionView::RoleChanged { role, term } => if role != Role::Leader {
                self.going()
            } else {
                let state = SimView {
                    leaders_by_term: self.leaders_by_term.insert(term, node),
                    ..self
                };
                if self.leaders_by_term.contains_key(term) && self.leaders_by_term[term] != node {
                    state.violated(
                        Violation::TwoLeaders { previous: self.leaders_by_term[term], node, term },
                    )
                } else {
                    SimView {
                        quorum_deadline: self.quorum_deadline.insert(
                            node,
                            (self.now + CHECK_QUORUM_TICKS) as u64,
                        ),
                        ..state
                    }.with_event(SimEventView::Leader { node, term }).going()
                }
            },
            ActionView::Apply(entry) => self.entry_applied(node, entry),
            ActionView::ProposalCommitted { id, index } => self.with_event(
                SimEventView::Committed { node, id, index },
            ).going(),
            ActionView::ReadReady { context, index } => self.with_event(
                SimEventView::ReadReady { node, context, index },
            ).going(),
            ActionView::Fatal { reason } => self.with_event(
                SimEventView::Fatal { node, reason },
            ).halted(fenced_words(node, reason)),
            ActionView::ProposalRejected { .. } => self.going(),
            ActionView::ReadRejected { .. } => self.going(),
            ActionView::SnapshotRejected { .. } => self.going(),
        }
    }

    /// The first `n` actions of a node are carried out, up to the first that
    /// fails.
    pub open spec fn executed(
        self,
        node: NodeId,
        actions: Seq<ActionView>,
        draws: Seq<Draw>,
        n: int,
    ) -> Flow
        decreases n,
    {
        if n <= 0 {
            self.going()
        } else {
            let before = self.executed(node, actions, draws, n - 1);
            if before.error is Some {
                before
            } else {
                before.state.acted(node, actions[n - 1], draws[n - 1])
            }
        }
    }

    /// The indexes of a disk are in order, its log has no hole, and what it
    /// applied is what was committed.
    pub open spec fn disk_sound(self, disk: SimDiskView) -> bool {
        &&& disk.stable.applied_index <= disk.stable.hard_state.commit_index
        &&& disk.stable.hard_state.commit_index <= disk.log().last_index()
        &&& forall|i: int|
            0 <= i < disk.stable.entries.len() ==> (#[trigger] disk.stable.entries[i]).index
                == disk.log().base_index + 1 + i
        &&& forall|index: u64| #[trigger]
            disk.applied.contains_key(index) ==> index <= disk.stable.applied_index && (
            self.committed.contains_key(index) ==> self.committed[index] == disk.applied[index])
    }

    /// A disk keeps what was committed.
    pub open spec fn disk_keeps_committed(self, disk: SimDiskView) -> bool {
        forall|index: u64| #[trigger]
            self.committed.contains_key(index) && disk.log().base_index < index
                <= disk.stable.hard_state.commit_index && index <= disk.log().last_index() ==> (
            disk.known_identity(index) matches Some(identity) ==> identity
                == self.committed[index])
    }

    /// Every disk is sound.
    pub open spec fn disks_sound(self) -> bool {
        forall|node: NodeId| #[trigger]
            self.disks.contains_key(node) ==> self.disk_sound(self.disks[node])
    }

    /// The logs of every two nodes match.
    pub open spec fn logs_matching(self) -> bool {
        forall|left: NodeId, right: NodeId|
            left < right && #[trigger] self.disks.contains_key(left)
                && #[trigger] self.disks.contains_key(right) ==> logs_match(
                self.disks[left].log(),
                self.disks[right].log(),
            )
    }

    /// Every disk keeps what was committed.
    pub open spec fn commits_kept(self) -> bool {
        forall|node: NodeId| #[trigger]
            self.disks.contains_key(node) ==> self.disk_keeps_committed(self.disks[node])
    }

    /// Every two nodes that have applied as much have the same state.
    pub open spec fn states_agree(self) -> bool {
        forall|left: NodeId, right: NodeId|
            left < right && #[trigger] self.disks.contains_key(left)
                && #[trigger] self.disks.contains_key(right)
                && self.disks[left].stable.applied_index
                == self.disks[right].stable.applied_index ==> sha256(
                self.disks[left].state_bytes,
            ) == sha256(self.disks[right].state_bytes)
    }

    /// The safety properties of a group: every disk is sound, logs match,
    /// committed entries stay, and nodes that have applied the same entries
    /// have the same state.
    pub open spec fn safe(self) -> bool {
        &&& self.disks_sound()
        &&& self.logs_matching()
        &&& self.commits_kept()
        &&& self.states_agree()
    }

    /// The group stops where a safety property does not hold.
    pub open spec fn checked(self) -> Flow {
        if self.safe() {
            self.going()
        } else {
            self.violated(self.violation()->0)
        }
    }

    /// A node takes an event in, and its actions are carried out.
    pub open spec fn given(self, node: NodeId, input: InputView, draws: Seq<Draw>) -> Flow {
        let state = self.recorded(input_line(self.now, node, input));
        if !state.nodes.contains_key(node) {
            state.stopped(SimErrorKind::NodeUnavailable(node))
        } else if !state.nodes[node].has_room(input) {
            state.violated(Violation::IndexExhausted)
        } else {
            let turn = state.nodes[node].stepped(input);
            let done = SimView {
                nodes: state.nodes.insert(node, turn.node),
                ..state
            }.executed(node, turn.actions, draws, turn.actions.len() as int);
            if done.error is None {
                done.state.checked()
            } else {
                done
            }
        }
    }

    /// The draws that an event asks for.
    pub open spec fn draws_fit(self, node: NodeId, input: InputView, draws: Seq<Draw>) -> bool {
        &&& self.nodes.contains_key(node) && self.nodes[node].has_room(input) ==> draws.len()
            == self.nodes[node].stepped(input).actions.len()
        &&& forall|i: int| 0 <= i < draws.len() ==> self.allows(#[trigger] draws[i])
    }

    /// A node loses everything but its disk.
    pub open spec fn crashed(self, node: NodeId) -> Flow {
        if !self.nodes.contains_key(node) {
            self.stopped(SimErrorKind::NodeUnavailable(node))
        } else {
            SimView {
                nodes: self.nodes.remove(node),
                election_deadline: self.election_deadline.remove(node),
                heartbeat_deadline: self.heartbeat_deadline.remove(node),
                quorum_deadline: self.quorum_deadline.remove(node),
                ..self
            }.recorded(crash_line(self.now, node)).going()
        }
    }

    /// A node starts again from its disk.
    pub open spec fn restarted(self, node: NodeId, deadline: u64) -> Flow {
        if !self.configuration.voters().contains(node) {
            self.stopped(SimErrorKind::NodeUnavailable(node))
        } else if self.nodes.contains_key(node) {
            self.going()
        } else if !self.disks.contains_key(node) {
            self.stopped(SimErrorKind::NodeUnavailable(node))
        } else if !fits_machine(self.disks[node]) || recovery_problem(
            node,
            self.configuration,
            self.disks[node].stable,
        ) is Some {
            self.stopped(SimErrorKind::Recovery { node })
        } else {
            let state = SimView {
                nodes: self.nodes.insert(
                    node,
                    recovered(node, self.configuration, self.disks[node].stable),
                ),
                election_deadline: self.election_deadline.insert(
                    node,
                    (self.now + deadline) as u64,
                ),
                heartbeat_deadline: self.heartbeat_deadline.insert(
                    node,
                    (self.now + HEARTBEAT_TICKS) as u64,
                ),
                quorum_deadline: self.quorum_deadline.insert(
                    node,
                    (self.now + CHECK_QUORUM_TICKS) as u64,
                ),
                ..self
            }.recorded(restart_line(self.now, node));
            state.checked()
        }
    }

    /// Messages of one node no longer reach another.
    pub open spec fn partitioned(self, from: NodeId, to: NodeId) -> SimView {
        SimView {
            blocked: self.blocked.insert(Pair { first: from, second: to }),
            ..self
        }.recorded(partition_line(self.now, from, to))
    }

    /// A message can be delivered now.
    pub open spec fn deliverable(self, envelope: EnvelopeView) -> bool {
        &&& envelope.deliver_at <= self.now
        &&& self.nodes.contains_key(envelope.to)
        &&& !self.blocked.contains(Pair { first: envelope.from, second: envelope.to })
    }

    /// The first of the given positions whose message can be delivered.
    pub open spec fn selected(self, positions: Seq<usize>, i: int) -> Option<usize>
        decreases positions.len() - i,
    {
        if i >= positions.len() || i < 0 {
            None
        } else if self.deliverable(self.messages[positions[i] as int]) {
            Some(positions[i])
        } else {
            self.selected(positions, i + 1)
        }
    }

    /// A message is taken out; the last one takes its place.
    pub open spec fn without_message(self, position: int) -> SimView {
        let envelope = self.messages[position];
        SimView {
            messages: self.messages.update(position, self.messages.last()).drop_last(),
            queued_bytes: if self.queued_bytes < envelope.byte_cost {
                0
            } else {
                (self.queued_bytes - envelope.byte_cost) as usize
            },
            ..self
        }.recorded(delivery_line(self.now, envelope))
    }

    /// The nodes that lead, with their terms, among the first `n` of a list.
    pub open spec fn leaders_among(self, listed: Seq<NodeId>, n: int) -> Seq<(NodeId, u64)>
        decreases n,
    {
        if n <= 0 {
            Seq::empty()
        } else {
            let node = listed[n - 1];
            if self.nodes[node].role == Role::Leader {
                self.leaders_among(listed, n - 1).push(
                    (node, self.nodes[node].hard_state.current_term),
                )
            } else {
                self.leaders_among(listed, n - 1)
            }
        }
    }

    /// The nodes that lead, with their terms.
    pub open spec fn leaders(self) -> Seq<(NodeId, u64)> {
        let listed = ordered::<NodeId>(self.nodes.dom());
        self.leaders_among(listed, listed.len() as int)
    }

    /// The snapshot of what a node has applied.
    pub open spec fn snapshot_of(self, node: NodeId) -> Option<PersistentSnapshotView> {
        let disk = self.disks[node];
        let index = disk.stable.applied_index;
        match disk.log().term(index) {
            Some(term) => Some(
                PersistentSnapshotView {
                    metadata: SnapshotMetadataView {
                        last_included_index: index,
                        last_included_term: term,
                        byte_len: disk.state_bytes.len() as u64,
                        sha256: sha256(disk.state_bytes),
                        configuration: self.configuration,
                    },
                    data: disk.state_bytes,
                },
            ),
            None => None,
        }
    }
}

/// The indexes of a log fit the machine.
pub open spec fn fits_machine(disk: SimDiskView) -> bool {
    disk.log().base_index + disk.stable.entries.len() <= u64::MAX
}

} // verus!
