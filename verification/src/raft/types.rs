//! What a node is told, and what it asks for.

use vstd::prelude::*;
use crate::digest::{sha256, sha256_digest};
use crate::model::Model;
use crate::raft::configuration::{Configuration, ConfigurationView};
use crate::text::{decimal, decimal_text};
use crate::types::{NodeId, labelled};

verus! {

broadcast use crate::model::group_contents;

pub type CommandId = u128;

/// What a node must not forget beside its log.
#[derive(Debug, Clone, Copy, PartialEq, Eq, Structural)]
pub struct HardState {
    pub current_term: u64,
    pub voted_for: Option<NodeId>,
    /// The highest entry known to be committed.
    pub commit_index: u64,
}

impl DeepView for HardState {
    type V = HardState;

    open spec fn deep_view(&self) -> HardState {
        *self
    }
}

impl Model for HardState {
    fn duplicate(&self) -> (copy: Self) {
        *self
    }

    fn same(&self, other: &Self) -> (equal: bool) {
        *self == *other
    }
}

/// What a log entry carries.
#[derive(Debug, Clone, PartialEq, Eq)]
pub enum EntryPayload {
    Noop,
    Command { id: CommandId, bytes: Vec<u8> },
}

/// The content of a [`EntryPayload`].
#[verifier::ext_equal]
pub enum EntryPayloadView {
    Noop,
    Command { id: CommandId, bytes: Seq<u8> },
}

impl DeepView for EntryPayload {
    type V = EntryPayloadView;

    open spec fn deep_view(&self) -> EntryPayloadView {
        match self {
            EntryPayload::Noop => EntryPayloadView::Noop,
            EntryPayload::Command { id, bytes } => EntryPayloadView::Command {
                id: id.deep_view(),
                bytes: bytes.deep_view(),
            },
        }
    }
}

impl Model for EntryPayload {
    fn duplicate(&self) -> (copy: Self) {
        match self {
            EntryPayload::Noop => EntryPayload::Noop,
            EntryPayload::Command { id, bytes } => EntryPayload::Command {
                id: id.duplicate(),
                bytes: bytes.duplicate(),
            },
        }
    }

    fn same(&self, other: &Self) -> (equal: bool) {
        match (self, other) {
            (EntryPayload::Noop, EntryPayload::Noop) => true,
            (
                EntryPayload::Command { id, bytes },
                EntryPayload::Command { id: other_id, bytes: other_bytes },
            ) => id.same(other_id)
                && bytes.same(other_bytes),
            _ => false,
        }
    }
}

/// One entry of the log.
#[derive(Debug, Clone, PartialEq, Eq)]
pub struct LogEntry {
    pub index: u64,
    pub term: u64,
    pub payload: EntryPayload,
}

/// The content of a [`LogEntry`].
#[verifier::ext_equal]
pub struct LogEntryView {
    pub index: u64,
    pub term: u64,
    pub payload: EntryPayloadView,
}

impl DeepView for LogEntry {
    type V = LogEntryView;

    open spec fn deep_view(&self) -> LogEntryView {
        LogEntryView {
            index: self.index.deep_view(),
            term: self.term.deep_view(),
            payload: self.payload.deep_view(),
        }
    }
}

impl Model for LogEntry {
    fn duplicate(&self) -> (copy: Self) {
        LogEntry {
            index: self.index.duplicate(),
            term: self.term.duplicate(),
            payload: self.payload.duplicate(),
        }
    }

    fn same(&self, other: &Self) -> (equal: bool) {
        self.index.same(&other.index)
            && self.term.same(&other.term)
            && self.payload.same(&other.payload)
    }
}

/// What a snapshot covers, and how its data is recognised.
#[derive(Debug, Clone, PartialEq, Eq)]
pub struct SnapshotMetadata {
    pub last_included_index: u64,
    pub last_included_term: u64,
    pub byte_len: u64,
    pub sha256: [u8; 32],
    pub configuration: Configuration,
}

/// The content of a [`SnapshotMetadata`].
#[verifier::ext_equal]
pub struct SnapshotMetadataView {
    pub last_included_index: u64,
    pub last_included_term: u64,
    pub byte_len: u64,
    pub sha256: Seq<u8>,
    pub configuration: ConfigurationView,
}

impl DeepView for SnapshotMetadata {
    type V = SnapshotMetadataView;

    open spec fn deep_view(&self) -> SnapshotMetadataView {
        SnapshotMetadataView {
            last_included_index: self.last_included_index.deep_view(),
            last_included_term: self.last_included_term.deep_view(),
            byte_len: self.byte_len.deep_view(),
            sha256: self.sha256.deep_view(),
            configuration: self.configuration.deep_view(),
        }
    }
}

impl Model for SnapshotMetadata {
    fn duplicate(&self) -> (copy: Self) {
        SnapshotMetadata {
            last_included_index: self.last_included_index.duplicate(),
            last_included_term: self.last_included_term.duplicate(),
            byte_len: self.byte_len.duplicate(),
            sha256: self.sha256.duplicate(),
            configuration: self.configuration.duplicate(),
        }
    }

    fn same(&self, other: &Self) -> (equal: bool) {
        self.last_included_index.same(&other.last_included_index)
            && self.last_included_term.same(&other.last_included_term)
            && self.byte_len.same(&other.byte_len)
            && self.sha256.same(&other.sha256)
            && self.configuration.same(&other.configuration)
    }
}

/// A snapshot of the state machine.
#[derive(Debug, Clone, PartialEq, Eq)]
pub struct PersistentSnapshot {
    pub metadata: SnapshotMetadata,
    pub data: Vec<u8>,
}

/// The content of a [`PersistentSnapshot`].
#[verifier::ext_equal]
pub struct PersistentSnapshotView {
    pub metadata: SnapshotMetadataView,
    pub data: Seq<u8>,
}

impl DeepView for PersistentSnapshot {
    type V = PersistentSnapshotView;

    open spec fn deep_view(&self) -> PersistentSnapshotView {
        PersistentSnapshotView {
            metadata: self.metadata.deep_view(),
            data: self.data.deep_view(),
        }
    }
}

impl Model for PersistentSnapshot {
    fn duplicate(&self) -> (copy: Self) {
        PersistentSnapshot {
            metadata: self.metadata.duplicate(),
            data: self.data.duplicate(),
        }
    }

    fn same(&self, other: &Self) -> (equal: bool) {
        self.metadata.same(&other.metadata)
            && self.data.same(&other.data)
    }
}

/// What a node needs to start again.
#[derive(Debug, Clone, PartialEq, Eq)]
pub struct StableState {
    pub hard_state: HardState,
    pub snapshot: Option<PersistentSnapshot>,
    pub entries: Vec<LogEntry>,
    pub applied_index: u64,
}

/// The content of a [`StableState`].
#[verifier::ext_equal]
pub struct StableStateView {
    pub hard_state: HardState,
    pub snapshot: Option<PersistentSnapshotView>,
    pub entries: Seq<LogEntryView>,
    pub applied_index: u64,
}

impl DeepView for StableState {
    type V = StableStateView;

    open spec fn deep_view(&self) -> StableStateView {
        StableStateView {
            hard_state: self.hard_state.deep_view(),
            snapshot: self.snapshot.deep_view(),
            entries: self.entries.deep_view(),
            applied_index: self.applied_index.deep_view(),
        }
    }
}

impl Model for StableState {
    fn duplicate(&self) -> (copy: Self) {
        StableState {
            hard_state: self.hard_state.duplicate(),
            snapshot: self.snapshot.duplicate(),
            entries: self.entries.duplicate(),
            applied_index: self.applied_index.duplicate(),
        }
    }

    fn same(&self, other: &Self) -> (equal: bool) {
        self.hard_state.same(&other.hard_state)
            && self.snapshot.same(&other.snapshot)
            && self.entries.same(&other.entries)
            && self.applied_index.same(&other.applied_index)
    }
}

/// The part that a node plays in its term.
#[derive(Debug, Clone, Copy, PartialEq, Eq, Structural)]
pub enum Role {
    Follower,
    PreCandidate,
    Candidate,
    Leader,
}

impl DeepView for Role {
    type V = Role;

    open spec fn deep_view(&self) -> Role {
        *self
    }
}

impl Model for Role {
    fn duplicate(&self) -> (copy: Self) {
        *self
    }

    fn same(&self, other: &Self) -> (equal: bool) {
        *self == *other
    }
}

/// A timer event.
#[derive(Debug, Clone, Copy, PartialEq, Eq, Structural)]
pub enum Tick {
    Election,
    Heartbeat,
    CheckQuorum,
}

impl DeepView for Tick {
    type V = Tick;

    open spec fn deep_view(&self) -> Tick {
        *self
    }
}

impl Model for Tick {
    fn duplicate(&self) -> (copy: Self) {
        *self
    }

    fn same(&self, other: &Self) -> (equal: bool) {
        *self == *other
    }
}

/// A message between nodes.
#[derive(Debug, Clone, PartialEq, Eq)]
pub enum Message {
    PreVoteRequest { prospective_term: u64, candidate_id: NodeId, last_log_index: u64, last_log_term: u64 },
    PreVoteResponse { responder_term: u64, prospective_term: u64, granted: bool },
    RequestVote { term: u64, candidate_id: NodeId, last_log_index: u64, last_log_term: u64 },
    RequestVoteResponse { term: u64, granted: bool },
    AppendEntries { term: u64, leader_id: NodeId, prev_log_index: u64, prev_log_term: u64, entries: Vec<LogEntry>, leader_commit: u64, read_context: Option<Vec<u8>> },
    AppendEntriesResponse { term: u64, success: bool, match_index: u64, conflict_index: u64, conflict_term: Option<u64>, read_context: Option<Vec<u8>> },
    InstallSnapshot { term: u64, leader_id: NodeId, metadata: SnapshotMetadata, offset: u64, data: Vec<u8>, done: bool },
    InstallSnapshotResponse { term: u64, accepted: bool, next_offset: u64, done: bool, match_index: u64 },
}

/// The content of a [`Message`].
#[verifier::ext_equal]
pub enum MessageView {
    PreVoteRequest { prospective_term: u64, candidate_id: NodeId, last_log_index: u64, last_log_term: u64 },
    PreVoteResponse { responder_term: u64, prospective_term: u64, granted: bool },
    RequestVote { term: u64, candidate_id: NodeId, last_log_index: u64, last_log_term: u64 },
    RequestVoteResponse { term: u64, granted: bool },
    AppendEntries { term: u64, leader_id: NodeId, prev_log_index: u64, prev_log_term: u64, entries: Seq<LogEntryView>, leader_commit: u64, read_context: Option<Seq<u8>> },
    AppendEntriesResponse { term: u64, success: bool, match_index: u64, conflict_index: u64, conflict_term: Option<u64>, read_context: Option<Seq<u8>> },
    InstallSnapshot { term: u64, leader_id: NodeId, metadata: SnapshotMetadataView, offset: u64, data: Seq<u8>, done: bool },
    InstallSnapshotResponse { term: u64, accepted: bool, next_offset: u64, done: bool, match_index: u64 },
}

impl DeepView for Message {
    type V = MessageView;

    open spec fn deep_view(&self) -> MessageView {
        match self {
            Message::PreVoteRequest { prospective_term, candidate_id, last_log_index, last_log_term } => MessageView::PreVoteRequest {
                prospective_term: prospective_term.deep_view(),
                candidate_id: candidate_id.deep_view(),
                last_log_index: last_log_index.deep_view(),
                last_log_term: last_log_term.deep_view(),
            },
            Message::PreVoteResponse { responder_term, prospective_term, granted } => MessageView::PreVoteResponse {
                responder_term: responder_term.deep_view(),
                prospective_term: prospective_term.deep_view(),
                granted: granted.deep_view(),
            },
            Message::RequestVote { term, candidate_id, last_log_index, last_log_term } => MessageView::RequestVote {
                term: term.deep_view(),
                candidate_id: candidate_id.deep_view(),
                last_log_index: last_log_index.deep_view(),
                last_log_term: last_log_term.deep_view(),
            },
            Message::RequestVoteResponse { term, granted } => MessageView::RequestVoteResponse {
                term: term.deep_view(),
                granted: granted.deep_view(),
            },
            Message::AppendEntries { term, leader_id, prev_log_index, prev_log_term, entries, leader_commit, read_context } => MessageView::AppendEntries {
                term: term.deep_view(),
                leader_id: leader_id.deep_view(),
                prev_log_index: prev_log_index.deep_view(),
                prev_log_term: prev_log_term.deep_view(),
                entries: entries.deep_view(),
                leader_commit: leader_commit.deep_view(),
                read_context: read_context.deep_view(),
            },
            Message::AppendEntriesResponse { term, success, match_index, conflict_index, conflict_term, read_context } => MessageView::AppendEntriesResponse {
                term: term.deep_view(),
                success: success.deep_view(),
                match_index: match_index.deep_view(),
                conflict_index: conflict_index.deep_view(),
                conflict_term: conflict_term.deep_view(),
                read_context: read_context.deep_view(),
            },
            Message::InstallSnapshot { term, leader_id, metadata, offset, data, done } => MessageView::InstallSnapshot {
                term: term.deep_view(),
                leader_id: leader_id.deep_view(),
                metadata: metadata.deep_view(),
                offset: offset.deep_view(),
                data: data.deep_view(),
                done: done.deep_view(),
            },
            Message::InstallSnapshotResponse { term, accepted, next_offset, done, match_index } => MessageView::InstallSnapshotResponse {
                term: term.deep_view(),
                accepted: accepted.deep_view(),
                next_offset: next_offset.deep_view(),
                done: done.deep_view(),
                match_index: match_index.deep_view(),
            },
        }
    }
}

impl Model for Message {
    fn duplicate(&self) -> (copy: Self) {
        match self {
            Message::PreVoteRequest { prospective_term, candidate_id, last_log_index, last_log_term } => Message::PreVoteRequest {
                prospective_term: prospective_term.duplicate(),
                candidate_id: candidate_id.duplicate(),
                last_log_index: last_log_index.duplicate(),
                last_log_term: last_log_term.duplicate(),
            },
            Message::PreVoteResponse { responder_term, prospective_term, granted } => Message::PreVoteResponse {
                responder_term: responder_term.duplicate(),
                prospective_term: prospective_term.duplicate(),
                granted: granted.duplicate(),
            },
            Message::RequestVote { term, candidate_id, last_log_index, last_log_term } => Message::RequestVote {
                term: term.duplicate(),
                candidate_id: candidate_id.duplicate(),
                last_log_index: last_log_index.duplicate(),
                last_log_term: last_log_term.duplicate(),
            },
            Message::RequestVoteResponse { term, granted } => Message::RequestVoteResponse {
                term: term.duplicate(),
                granted: granted.duplicate(),
            },
            Message::AppendEntries { term, leader_id, prev_log_index, prev_log_term, entries, leader_commit, read_context } => Message::AppendEntries {
                term: term.duplicate(),
                leader_id: leader_id.duplicate(),
                prev_log_index: prev_log_index.duplicate(),
                prev_log_term: prev_log_term.duplicate(),
                entries: entries.duplicate(),
                leader_commit: leader_commit.duplicate(),
                read_context: read_context.duplicate(),
            },
            Message::AppendEntriesResponse { term, success, match_index, conflict_index, conflict_term, read_context } => Message::AppendEntriesResponse {
                term: term.duplicate(),
                success: success.duplicate(),
                match_index: match_index.duplicate(),
                conflict_index: conflict_index.duplicate(),
                conflict_term: conflict_term.duplicate(),
                read_context: read_context.duplicate(),
            },
            Message::InstallSnapshot { term, leader_id, metadata, offset, data, done } => Message::InstallSnapshot {
                term: term.duplicate(),
                leader_id: leader_id.duplicate(),
                metadata: metadata.duplicate(),
                offset: offset.duplicate(),
                data: data.duplicate(),
                done: done.duplicate(),
            },
            Message::InstallSnapshotResponse { term, accepted, next_offset, done, match_index } => Message::InstallSnapshotResponse {
                term: term.duplicate(),
                accepted: accepted.duplicate(),
                next_offset: next_offset.duplicate(),
                done: done.duplicate(),
                match_index: match_index.duplicate(),
            },
        }
    }

    fn same(&self, other: &Self) -> (equal: bool) {
        match (self, other) {
            (
                Message::PreVoteRequest { prospective_term, candidate_id, last_log_index, last_log_term },
                Message::PreVoteRequest { prospective_term: other_prospective_term, candidate_id: other_candidate_id, last_log_index: other_last_log_index, last_log_term: other_last_log_term },
            ) => prospective_term.same(other_prospective_term)
                && candidate_id.same(other_candidate_id)
                && last_log_index.same(other_last_log_index)
                && last_log_term.same(other_last_log_term),
            (
                Message::PreVoteResponse { responder_term, prospective_term, granted },
                Message::PreVoteResponse { responder_term: other_responder_term, prospective_term: other_prospective_term, granted: other_granted },
            ) => responder_term.same(other_responder_term)
                && prospective_term.same(other_prospective_term)
                && granted.same(other_granted),
            (
                Message::RequestVote { term, candidate_id, last_log_index, last_log_term },
                Message::RequestVote { term: other_term, candidate_id: other_candidate_id, last_log_index: other_last_log_index, last_log_term: other_last_log_term },
            ) => term.same(other_term)
                && candidate_id.same(other_candidate_id)
                && last_log_index.same(other_last_log_index)
                && last_log_term.same(other_last_log_term),
            (
                Message::RequestVoteResponse { term, granted },
                Message::RequestVoteResponse { term: other_term, granted: other_granted },
            ) => term.same(other_term)
                && granted.same(other_granted),
            (
                Message::AppendEntries { term, leader_id, prev_log_index, prev_log_term, entries, leader_commit, read_context },
                Message::AppendEntries { term: other_term, leader_id: other_leader_id, prev_log_index: other_prev_log_index, prev_log_term: other_prev_log_term, entries: other_entries, leader_commit: other_leader_commit, read_context: other_read_context },
            ) => term.same(other_term)
                && leader_id.same(other_leader_id)
                && prev_log_index.same(other_prev_log_index)
                && prev_log_term.same(other_prev_log_term)
                && entries.same(other_entries)
                && leader_commit.same(other_leader_commit)
                && read_context.same(other_read_context),
            (
                Message::AppendEntriesResponse { term, success, match_index, conflict_index, conflict_term, read_context },
                Message::AppendEntriesResponse { term: other_term, success: other_success, match_index: other_match_index, conflict_index: other_conflict_index, conflict_term: other_conflict_term, read_context: other_read_context },
            ) => term.same(other_term)
                && success.same(other_success)
                && match_index.same(other_match_index)
                && conflict_index.same(other_conflict_index)
                && conflict_term.same(other_conflict_term)
                && read_context.same(other_read_context),
            (
                Message::InstallSnapshot { term, leader_id, metadata, offset, data, done },
                Message::InstallSnapshot { term: other_term, leader_id: other_leader_id, metadata: other_metadata, offset: other_offset, data: other_data, done: other_done },
            ) => term.same(other_term)
                && leader_id.same(other_leader_id)
                && metadata.same(other_metadata)
                && offset.same(other_offset)
                && data.same(other_data)
                && done.same(other_done),
            (
                Message::InstallSnapshotResponse { term, accepted, next_offset, done, match_index },
                Message::InstallSnapshotResponse { term: other_term, accepted: other_accepted, next_offset: other_next_offset, done: other_done, match_index: other_match_index },
            ) => term.same(other_term)
                && accepted.same(other_accepted)
                && next_offset.same(other_next_offset)
                && done.same(other_done)
                && match_index.same(other_match_index),
            _ => false,
        }
    }
}

/// An event from outside.
#[derive(Debug, Clone, PartialEq, Eq)]
pub enum Input {
    Tick(Tick),
    Message { from: NodeId, message: Message },
    Propose { id: CommandId, command: Vec<u8> },
    ReadIndex { context: Vec<u8> },
    SnapshotBuilt(PersistentSnapshot),
}

/// The content of a [`Input`].
#[verifier::ext_equal]
pub enum InputView {
    Tick(Tick),
    Message { from: NodeId, message: MessageView },
    Propose { id: CommandId, command: Seq<u8> },
    ReadIndex { context: Seq<u8> },
    SnapshotBuilt(PersistentSnapshotView),
}

impl DeepView for Input {
    type V = InputView;

    open spec fn deep_view(&self) -> InputView {
        match self {
            Input::Tick(a) => InputView::Tick(a.deep_view()),
            Input::Message { from, message } => InputView::Message {
                from: from.deep_view(),
                message: message.deep_view(),
            },
            Input::Propose { id, command } => InputView::Propose {
                id: id.deep_view(),
                command: command.deep_view(),
            },
            Input::ReadIndex { context } => InputView::ReadIndex {
                context: context.deep_view(),
            },
            Input::SnapshotBuilt(a) => InputView::SnapshotBuilt(a.deep_view()),
        }
    }
}

impl Model for Input {
    fn duplicate(&self) -> (copy: Self) {
        match self {
            Input::Tick(a) => Input::Tick(a.duplicate()),
            Input::Message { from, message } => Input::Message {
                from: from.duplicate(),
                message: message.duplicate(),
            },
            Input::Propose { id, command } => Input::Propose {
                id: id.duplicate(),
                command: command.duplicate(),
            },
            Input::ReadIndex { context } => Input::ReadIndex {
                context: context.duplicate(),
            },
            Input::SnapshotBuilt(a) => Input::SnapshotBuilt(a.duplicate()),
        }
    }

    fn same(&self, other: &Self) -> (equal: bool) {
        match (self, other) {
            (Input::Tick(a), Input::Tick(other_a)) => a.same(other_a),
            (
                Input::Message { from, message },
                Input::Message { from: other_from, message: other_message },
            ) => from.same(other_from)
                && message.same(other_message),
            (
                Input::Propose { id, command },
                Input::Propose { id: other_id, command: other_command },
            ) => id.same(other_id)
                && command.same(other_command),
            (
                Input::ReadIndex { context },
                Input::ReadIndex { context: other_context },
            ) => context.same(other_context),
            (Input::SnapshotBuilt(a), Input::SnapshotBuilt(other_a)) => a.same(other_a),
            _ => false,
        }
    }
}

/// A change of what is stored.
#[derive(Debug, Clone, PartialEq, Eq)]
pub enum StorageMutation {
    HardState(HardState),
    Append(Vec<LogEntry>),
    TruncateAndAppend { from: u64, entries: Vec<LogEntry> },
    CompactSnapshot { snapshot: PersistentSnapshot, retained_entries: Vec<LogEntry> },
    InstallSnapshot { snapshot: PersistentSnapshot, retained_entries: Vec<LogEntry>, hard_state: HardState },
}

/// The content of a [`StorageMutation`].
#[verifier::ext_equal]
pub enum StorageMutationView {
    HardState(HardState),
    Append(Seq<LogEntryView>),
    TruncateAndAppend { from: u64, entries: Seq<LogEntryView> },
    CompactSnapshot { snapshot: PersistentSnapshotView, retained_entries: Seq<LogEntryView> },
    InstallSnapshot { snapshot: PersistentSnapshotView, retained_entries: Seq<LogEntryView>, hard_state: HardState },
}

impl DeepView for StorageMutation {
    type V = StorageMutationView;

    open spec fn deep_view(&self) -> StorageMutationView {
        match self {
            StorageMutation::HardState(a) => StorageMutationView::HardState(a.deep_view()),
            StorageMutation::Append(a) => StorageMutationView::Append(a.deep_view()),
            StorageMutation::TruncateAndAppend { from, entries } => StorageMutationView::TruncateAndAppend {
                from: from.deep_view(),
                entries: entries.deep_view(),
            },
            StorageMutation::CompactSnapshot { snapshot, retained_entries } => StorageMutationView::CompactSnapshot {
                snapshot: snapshot.deep_view(),
                retained_entries: retained_entries.deep_view(),
            },
            StorageMutation::InstallSnapshot { snapshot, retained_entries, hard_state } => StorageMutationView::InstallSnapshot {
                snapshot: snapshot.deep_view(),
                retained_entries: retained_entries.deep_view(),
                hard_state: hard_state.deep_view(),
            },
        }
    }
}

impl Model for StorageMutation {
    fn duplicate(&self) -> (copy: Self) {
        match self {
            StorageMutation::HardState(a) => StorageMutation::HardState(a.duplicate()),
            StorageMutation::Append(a) => StorageMutation::Append(a.duplicate()),
            StorageMutation::TruncateAndAppend { from, entries } => StorageMutation::TruncateAndAppend {
                from: from.duplicate(),
                entries: entries.duplicate(),
            },
            StorageMutation::CompactSnapshot { snapshot, retained_entries } => StorageMutation::CompactSnapshot {
                snapshot: snapshot.duplicate(),
                retained_entries: retained_entries.duplicate(),
            },
            StorageMutation::InstallSnapshot { snapshot, retained_entries, hard_state } => StorageMutation::InstallSnapshot {
                snapshot: snapshot.duplicate(),
                retained_entries: retained_entries.duplicate(),
                hard_state: hard_state.duplicate(),
            },
        }
    }

    fn same(&self, other: &Self) -> (equal: bool) {
        match (self, other) {
            (StorageMutation::HardState(a), StorageMutation::HardState(other_a)) => a.same(other_a),
            (StorageMutation::Append(a), StorageMutation::Append(other_a)) => a.same(other_a),
            (
                StorageMutation::TruncateAndAppend { from, entries },
                StorageMutation::TruncateAndAppend { from: other_from, entries: other_entries },
            ) => from.same(other_from)
                && entries.same(other_entries),
            (
                StorageMutation::CompactSnapshot { snapshot, retained_entries },
                StorageMutation::CompactSnapshot { snapshot: other_snapshot, retained_entries: other_retained_entries },
            ) => snapshot.same(other_snapshot)
                && retained_entries.same(other_retained_entries),
            (
                StorageMutation::InstallSnapshot { snapshot, retained_entries, hard_state },
                StorageMutation::InstallSnapshot { snapshot: other_snapshot, retained_entries: other_retained_entries, hard_state: other_hard_state },
            ) => snapshot.same(other_snapshot)
                && retained_entries.same(other_retained_entries)
                && hard_state.same(other_hard_state),
            _ => false,
        }
    }
}

/// Why a read was refused.
#[derive(Debug, Clone, Copy, PartialEq, Eq, Structural)]
pub enum ReadError {
    NotLeader,
    LeaderNotReady,
    InvalidContext,
    LeadershipLost,
}

impl DeepView for ReadError {
    type V = ReadError;

    open spec fn deep_view(&self) -> ReadError {
        *self
    }
}

impl Model for ReadError {
    fn duplicate(&self) -> (copy: Self) {
        *self
    }

    fn same(&self, other: &Self) -> (equal: bool) {
        *self == *other
    }
}

/// Something to do, in the order in which it was asked for.
#[derive(Debug, Clone, PartialEq, Eq)]
pub enum Action {
    Persist(StorageMutation),
    Send { to: NodeId, message: Message },
    ResetElectionTimer,
    ResetHeartbeatTimer,
    RoleChanged { role: Role, term: u64 },
    Apply(LogEntry),
    ProposalCommitted { id: CommandId, index: u64 },
    ProposalRejected { id: CommandId, leader_hint: Option<NodeId> },
    ReadReady { context: Vec<u8>, index: u64 },
    ReadRejected { context: Vec<u8>, error: ReadError },
    SnapshotRejected { reason: String },
    Fatal { reason: String },
}

/// The content of an [`Action`].
#[verifier::ext_equal]
pub enum ActionView {
    Persist(StorageMutationView),
    Send { to: NodeId, message: MessageView },
    ResetElectionTimer,
    ResetHeartbeatTimer,
    RoleChanged { role: Role, term: u64 },
    Apply(LogEntryView),
    ProposalCommitted { id: CommandId, index: u64 },
    ProposalRejected { id: CommandId, leader_hint: Option<NodeId> },
    ReadReady { context: Seq<u8>, index: u64 },
    ReadRejected { context: Seq<u8>, error: ReadError },
    SnapshotRejected { reason: Seq<char> },
    Fatal { reason: Seq<char> },
}

impl DeepView for Action {
    type V = ActionView;

    open spec fn deep_view(&self) -> ActionView {
        match self {
            Action::Persist(a) => ActionView::Persist(a.deep_view()),
            Action::Send { to, message } => ActionView::Send {
                to: to.deep_view(),
                message: message.deep_view(),
            },
            Action::ResetElectionTimer => ActionView::ResetElectionTimer,
            Action::ResetHeartbeatTimer => ActionView::ResetHeartbeatTimer,
            Action::RoleChanged { role, term } => ActionView::RoleChanged {
                role: role.deep_view(),
                term: term.deep_view(),
            },
            Action::Apply(a) => ActionView::Apply(a.deep_view()),
            Action::ProposalCommitted { id, index } => ActionView::ProposalCommitted {
                id: id.deep_view(),
                index: index.deep_view(),
            },
            Action::ProposalRejected { id, leader_hint } => ActionView::ProposalRejected {
                id: id.deep_view(),
                leader_hint: leader_hint.deep_view(),
            },
            Action::ReadReady { context, index } => ActionView::ReadReady {
                context: context.deep_view(),
                index: index.deep_view(),
            },
            Action::ReadRejected { context, error } => ActionView::ReadRejected {
                context: context.deep_view(),
                error: error.deep_view(),
            },
            Action::SnapshotRejected { reason } => ActionView::SnapshotRejected { reason: reason@ },
            Action::Fatal { reason } => ActionView::Fatal { reason: reason@ },
        }
    }
}

/// Why a node cannot start from what is stored.
#[derive(Debug, Clone, PartialEq, Eq)]
pub enum RecoveryError {
    NotVoter(NodeId),
    InvalidSnapshot(String),
    InvalidLog(String),
    InvalidIndexes(String),
}

/// What a [`RecoveryError`] says to a program.
pub enum RecoveryErrorKind {
    NotVoter(NodeId),
    InvalidSnapshot,
    InvalidLog,
    InvalidIndexes,
}

impl DeepView for RecoveryError {
    type V = RecoveryErrorKind;

    open spec fn deep_view(&self) -> RecoveryErrorKind {
        match self {
            RecoveryError::NotVoter(id) => RecoveryErrorKind::NotVoter(*id),
            RecoveryError::InvalidSnapshot(_) => RecoveryErrorKind::InvalidSnapshot,
            RecoveryError::InvalidLog(_) => RecoveryErrorKind::InvalidLog,
            RecoveryError::InvalidIndexes(_) => RecoveryErrorKind::InvalidIndexes,
        }
    }
}

impl RecoveryError {
    /// The error as people read it.
    pub open spec fn shown(&self) -> Seq<char> {
        match self {
            RecoveryError::NotVoter(id) => "local node "@ + decimal(*id as nat)
                + " is not a voter"@,
            RecoveryError::InvalidSnapshot(text) => "invalid snapshot: "@ + text@,
            RecoveryError::InvalidLog(text) => "invalid stable log: "@ + text@,
            RecoveryError::InvalidIndexes(text) => "invalid durable indexes: "@ + text@,
        }
    }

    /// The error as people read it.
    pub fn describe(&self) -> (text: String)
        ensures
            text@ == self.shown(),
    {
        match self {
            RecoveryError::NotVoter(id) => {
                let mut text = "local node ".to_owned();
                text.append(decimal_text(*id).as_str());
                text.append(" is not a voter");
                text
            },
            RecoveryError::InvalidSnapshot(text) => labelled("invalid snapshot: ", text.as_str()),
            RecoveryError::InvalidLog(text) => labelled("invalid stable log: ", text.as_str()),
            RecoveryError::InvalidIndexes(text) => labelled(
                "invalid durable indexes: ",
                text.as_str(),
            ),
        }
    }
}

impl ReadError {
    /// The error as people read it.
    pub open spec fn shown(self) -> Seq<char> {
        match self {
            ReadError::NotLeader => "node is not the leader"@,
            ReadError::LeaderNotReady => {
                "leader has not committed an entry in its current term"@
            },
            ReadError::InvalidContext => "read context must be non-empty and unique"@,
            ReadError::LeadershipLost => {
                "leadership was lost before the quorum barrier completed"@
            },
        }
    }

    /// The error as people read it.
    pub fn describe(&self) -> (text: String)
        ensures
            text@ == self.shown(),
    {
        match self {
            ReadError::NotLeader => "node is not the leader".to_owned(),
            ReadError::LeaderNotReady => {
                "leader has not committed an entry in its current term".to_owned()
            },
            ReadError::InvalidContext => "read context must be non-empty and unique".to_owned(),
            ReadError::LeadershipLost => {
                "leadership was lost before the quorum barrier completed".to_owned()
            },
        }
    }
}

impl HardState {
    pub open spec fn initial() -> HardState {
        HardState { current_term: 0, voted_for: None, commit_index: 0 }
    }
}

impl Default for HardState {
    fn default() -> (state: HardState)
        ensures
            state == HardState::initial(),
    {
        HardState { current_term: 0, voted_for: None, commit_index: 0 }
    }
}

impl StableStateView {
    pub open spec fn initial() -> StableStateView {
        StableStateView {
            hard_state: HardState::initial(),
            snapshot: None,
            entries: Seq::empty(),
            applied_index: 0,
        }
    }
}

impl Default for StableState {
    fn default() -> (state: StableState)
        ensures
            state.deep_view() == StableStateView::initial(),
    {
        let state = StableState {
            hard_state: HardState::default(),
            snapshot: None,
            entries: Vec::new(),
            applied_index: 0,
        };
        assert(state.entries.deep_view() =~= Seq::empty());
        state
    }
}

impl PersistentSnapshotView {
    /// The data is what the metadata says.
    pub open spec fn valid(self) -> bool {
        self.metadata.byte_len == self.data.len() && self.metadata.sha256 == sha256(self.data)
    }
}

impl PersistentSnapshot {
    /// A snapshot of the given data.
    pub fn new(
        last_included_index: u64,
        last_included_term: u64,
        configuration: Configuration,
        data: Vec<u8>,
    ) -> (snapshot: PersistentSnapshot)
        ensures
            snapshot.deep_view() == (PersistentSnapshotView {
                metadata: SnapshotMetadataView {
                    last_included_index,
                    last_included_term,
                    byte_len: data@.len() as u64,
                    sha256: sha256(data@),
                    configuration: configuration.deep_view(),
                },
                data: data@,
            }),
            snapshot.deep_view().valid(),
    {
        let digest = sha256_digest(data.as_slice());
        PersistentSnapshot {
            metadata: SnapshotMetadata {
                last_included_index,
                last_included_term,
                byte_len: data.len() as u64,
                sha256: digest,
                configuration,
            },
            data,
        }
    }

    /// Whether the data is what the metadata says.
    pub fn validate(&self) -> (valid: bool)
        ensures
            valid == self.deep_view().valid(),
    {
        let digest = sha256_digest(self.data.as_slice());
        self.metadata.byte_len == self.data.len() as u64 && self.metadata.sha256.same(&digest)
    }
}

} // verus!
