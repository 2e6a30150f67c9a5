//! What a node does, as functions of its state.

use vstd::prelude::*;
use crate::digest::sha256;
use crate::model::Model;
use crate::ordmap::{OrdSet, ordered};
use crate::raft::configuration::ConfigurationView;
use crate::raft::log::LogView;
use crate::raft::types::{
    ActionView, CommandId, EntryPayloadView, HardState, InputView, LogEntryView, MessageView,
    PersistentSnapshotView, ReadError, Role, SnapshotMetadata, SnapshotMetadataView,
    StableStateView, StorageMutationView, Tick,
};
use crate::text::decimal;
use crate::types::NodeId;

verus! {

broadcast use crate::model::group_contents;

/// The most entries of one message.
pub const MAX_APPEND_ENTRIES: usize = 64;

/// The most snapshot bytes of one message.
pub const SNAPSHOT_CHUNK_BYTES: usize = 16_384;

/// The most bytes of a snapshot that a node takes in.
pub const MAX_SNAPSHOT_BYTES: u64 = 536_870_912;

/// How far a peer has come.
#[derive(Debug, Clone, Copy, PartialEq, Eq, Structural)]
pub struct Progress {
    pub match_index: u64,
    pub next_index: u64,
    pub snapshot_offset: Option<u64>,
}

impl DeepView for Progress {
    type V = Progress;

    open spec fn deep_view(&self) -> Progress {
        *self
    }
}

impl Model for Progress {
    fn duplicate(&self) -> (copy: Self) {
        *self
    }

    fn same(&self, other: &Self) -> (equal: bool) {
        *self == *other
    }
}

/// A read that waits for a quorum.
#[derive(Debug, Clone, PartialEq, Eq)]
pub struct PendingRead {
    pub index: u64,
    pub acknowledgements: OrdSet<NodeId>,
}

/// The content of a [`PendingRead`].
#[verifier::ext_equal]
pub struct PendingReadView {
    pub index: u64,
    pub acknowledgements: Set<NodeId>,
}

impl DeepView for PendingRead {
    type V = PendingReadView;

    open spec fn deep_view(&self) -> PendingReadView {
        PendingReadView {
            index: self.index.deep_view(),
            acknowledgements: self.acknowledgements.deep_view(),
        }
    }
}

impl Model for PendingRead {
    fn duplicate(&self) -> (copy: Self) {
        PendingRead {
            index: self.index.duplicate(),
            acknowledgements: self.acknowledgements.duplicate(),
        }
    }

    fn same(&self, other: &Self) -> (equal: bool) {
        self.index.same(&other.index)
            && self.acknowledgements.same(&other.acknowledgements)
    }
}

/// A snapshot that arrives in chunks.
#[derive(Debug, Clone, PartialEq, Eq)]
pub struct IncomingSnapshot {
    pub metadata: SnapshotMetadata,
    pub data: Vec<u8>,
}

/// The content of a [`IncomingSnapshot`].
#[verifier::ext_equal]
pub struct IncomingSnapshotView {
    pub metadata: SnapshotMetadataView,
    pub data: Seq<u8>,
}

impl DeepView for IncomingSnapshot {
    type V = IncomingSnapshotView;

    open spec fn deep_view(&self) -> IncomingSnapshotView {
        IncomingSnapshotView {
            metadata: self.metadata.deep_view(),
            data: self.data.deep_view(),
        }
    }
}

impl Model for IncomingSnapshot {
    fn duplicate(&self) -> (copy: Self) {
        IncomingSnapshot {
            metadata: self.metadata.duplicate(),
            data: self.data.duplicate(),
        }
    }

    fn same(&self, other: &Self) -> (equal: bool) {
        self.metadata.same(&other.metadata)
            && self.data.same(&other.data)
    }
}
/// The content of a node.
#[verifier::ext_equal]
pub struct RaftView {
    pub id: NodeId,
    pub configuration: ConfigurationView,
    pub hard_state: HardState,
    pub log: LogView,
    pub snapshot: Option<PersistentSnapshotView>,
    pub applied_index: u64,
    pub role: Role,
    pub leader_id: Option<NodeId>,
    pub campaign_term: Option<u64>,
    pub votes: Set<NodeId>,
    pub progress: Map<NodeId, Progress>,
    pub recent_active: Set<NodeId>,
    pub pending_reads: Map<Seq<u8>, PendingReadView>,
    pub incoming_snapshot: Option<IncomingSnapshotView>,
}

/// The smaller of two numbers.
pub open spec fn least(a: u64, b: u64) -> u64 {
    if a < b {
        a
    } else {
        b
    }
}

/// The larger of two numbers.
pub open spec fn most(a: u64, b: u64) -> u64 {
    if a < b {
        b
    } else {
        a
    }
}

impl RaftView {
    /// The invariant of a node.
    pub open spec fn well_formed(self) -> bool {
        &&& self.configuration.valid()
        &&& self.configuration.voters().contains(self.id)
        &&& self.log.contiguous()
        &&& self.log.base_index <= self.applied_index
        &&& self.applied_index <= self.hard_state.commit_index
        &&& self.hard_state.commit_index <= self.log.last_index()
        &&& self.campaign_term matches Some(term) ==> term > self.hard_state.current_term
        &&& match self.snapshot {
            Some(snapshot) => {
                &&& snapshot.valid()
                &&& snapshot.metadata.configuration == self.configuration
                &&& self.log.base_index == snapshot.metadata.last_included_index
                &&& self.log.base_term == snapshot.metadata.last_included_term
            },
            None => self.log.base_index == 0 && self.log.base_term == 0,
        }
    }

    /// What the node needs to start again.
    pub open spec fn stable(self) -> StableStateView {
        StableStateView {
            hard_state: self.hard_state,
            snapshot: self.snapshot,
            entries: self.log.entries,
            applied_index: self.applied_index,
        }
    }

    /// The other voters, in order.
    pub open spec fn peers(self) -> Seq<NodeId> {
        ordered::<NodeId>(self.configuration.voters().remove(self.id))
    }

    /// A log that ends at the given position is not behind the node's own.
    pub open spec fn up_to_date(self, index: u64, term: u64) -> bool {
        term > self.log.last_term() || (term == self.log.last_term() && index
            >= self.log.last_index())
    }

    /// How far each peer matches the log.
    pub open spec fn matched(self) -> Map<NodeId, u64> {
        Map::new(
            |node: NodeId| self.progress.contains_key(node),
            |node: NodeId| self.progress[node].match_index,
        )
    }

    /// The part of the snapshot from an offset on that is sent to a peer.
    pub open spec fn chunk_action(self, peer: NodeId, offset: u64) -> ActionView {
        match self.snapshot {
            None => ActionView::Fatal {
                reason: snapshotless_words(peer),
            },
            Some(snapshot) => {
                let length = snapshot.data.len();
                let start = if offset < length {
                    offset as int
                } else {
                    length as int
                };
                let end = if length - start > SNAPSHOT_CHUNK_BYTES {
                    start + SNAPSHOT_CHUNK_BYTES
                } else {
                    length as int
                };
                ActionView::Send {
                    to: peer,
                    message: MessageView::InstallSnapshot {
                        term: self.hard_state.current_term,
                        leader_id: self.id,
                        metadata: snapshot.metadata,
                        offset: start as u64,
                        data: snapshot.data.subrange(start, end),
                        done: end == length,
                    },
                }
            },
        }
    }

    /// What is sent to a peer to bring it forward: entries, or a part of the
    /// snapshot where the log does not reach back far enough.
    pub open spec fn append_action(self, peer: NodeId, read_context: Option<Seq<u8>>) -> Option<
        ActionView,
    > {
        if !self.progress.contains_key(peer) {
            None
        } else {
            let progress = self.progress[peer];
            if progress.next_index <= self.log.base_index {
                Some(
                    self.chunk_action(
                        peer,
                        match progress.snapshot_offset {
                            Some(offset) => offset,
                            None => 0,
                        },
                    ),
                )
            } else {
                let next_index = least(progress.next_index, (self.log.last_index() + 1) as u64);
                let prev_log_index = (next_index - 1) as u64;
                match self.log.term(prev_log_index) {
                    None => Some(
                        ActionView::Fatal {
                            reason: termless_words(prev_log_index),
                        },
                    ),
                    Some(prev_log_term) => Some(
                        ActionView::Send {
                            to: peer,
                            message: MessageView::AppendEntries {
                                term: self.hard_state.current_term,
                                leader_id: self.id,
                                prev_log_index,
                                prev_log_term,
                                entries: self.log.entries_from(
                                    next_index,
                                    MAX_APPEND_ENTRIES as int,
                                ),
                                leader_commit: self.hard_state.commit_index,
                                read_context,
                            },
                        },
                    ),
                }
            }
        }
    }

    /// The node follows another voter as the leader of a term.
    pub open spec fn heeds(self, from: NodeId, leader_id: NodeId, term: u64) -> bool {
        &&& self.configuration.voters().contains(from)
        &&& from != self.id
        &&& leader_id == from
        &&& term >= self.hard_state.current_term
    }

    /// A chunk is the last of a snapshot of the announced length and digest.
    pub open spec fn completes(
        self,
        metadata: SnapshotMetadataView,
        offset: u64,
        data: Seq<u8>,
        done: bool,
    ) -> bool {
        let same_transfer = self.incoming_snapshot matches Some(incoming) && incoming.metadata
            == metadata;
        let earlier = if same_transfer {
            self.incoming_snapshot->0.data
        } else {
            Seq::empty()
        };
        &&& done
        &&& metadata.configuration == self.configuration
        &&& metadata.byte_len <= MAX_SNAPSHOT_BYTES
        &&& offset == earlier.len()
        &&& earlier.len() + data.len() == metadata.byte_len
        &&& sha256(earlier + data) == metadata.sha256
    }

    /// The indexes of the entries in a message fit the machine, where the node takes them.
    #[verifier::opaque]
    pub open spec fn entries_fit(self, from: NodeId, message: MessageView) -> bool {
        message matches MessageView::AppendEntries {
            term,
            leader_id,
            prev_log_index,
            prev_log_term,
            entries,
            ..
        } ==> (self.heeds(from, leader_id, term) && follows_on(
            self.log,
            prev_log_index,
            prev_log_term,
            term,
            entries,
        ) ==> prev_log_index + entries.len() < u64::MAX)
    }

    /// The index of a snapshot in a message fits the machine, where the node installs it.
    #[verifier::opaque]
    pub open spec fn snapshot_fits(self, from: NodeId, message: MessageView) -> bool {
        message matches MessageView::InstallSnapshot {
            term,
            leader_id,
            metadata,
            offset,
            data,
            done,
        } ==> (self.heeds(from, leader_id, term) && self.completes(metadata, offset, data, done)
            ==> metadata.last_included_index < u64::MAX)
    }

    /// The index that a peer has installed fits the machine, where the node leads it.
    #[verifier::opaque]
    pub open spec fn answer_fits(self, from: NodeId, message: MessageView) -> bool {
        message matches MessageView::InstallSnapshotResponse {
            term,
            accepted,
            done,
            match_index,
            ..
        } ==> (self.role == Role::Leader && term == self.hard_state.current_term && from != self.id
            && self.progress.contains_key(from) && done && accepted ==> match_index < u64::MAX)
    }

    /// The indexes that an input leads to fit the machine. A message counts only where it
    /// is taken.
    pub open spec fn has_room(self, input: InputView) -> bool {
        &&& self.log.last_index() + 1 < u64::MAX
        &&& input matches InputView::Message { from, message } ==> self.entries_fit(from, message)
            && self.snapshot_fits(from, message) && self.answer_fits(from, message)
    }
}

/// Applying what is committed changes nothing about the room that an input needs.
pub proof fn applying_keeps_room(turn: Turn, input: InputView)
    ensures
        turn.applied().node.has_room(input) == turn.node.has_room(input),
{
    reveal(RaftView::entries_fit);
    reveal(RaftView::snapshot_fits);
    reveal(RaftView::answer_fits);
}

/// How it reads that a peer needs a snapshot and there is none.
#[verifier::opaque]
pub open spec fn snapshotless_words(peer: NodeId) -> Seq<char> {
    "peer "@ + decimal(peer as nat)
        + " requires index at/before compacted boundary, but no snapshot exists"@
}

/// How it reads that the log does not know the term at an index.
#[verifier::opaque]
pub open spec fn termless_words(index: u64) -> Seq<char> {
    "missing previous log term at "@ + decimal(index as nat)
}

/// How it reads that a leader would replace a committed entry.
#[verifier::opaque]
pub open spec fn replacing_words(index: u64) -> Seq<char> {
    "leader attempted to replace committed index "@ + decimal(index as nat)
}

/// What is done for a committed entry: it is applied, and on the leader the
/// proposer is told.
pub open spec fn application(entry: LogEntryView, leader: bool) -> Seq<ActionView> {
    match entry.payload {
        EntryPayloadView::Command { id, .. } => if leader {
            seq![
                ActionView::Apply(entry),
                ActionView::ProposalCommitted { id, index: entry.index },
            ]
        } else {
            seq![ActionView::Apply(entry)]
        },
        EntryPayloadView::Noop => seq![ActionView::Apply(entry)],
    }
}

/// What is done for the entries after `from` up to `to`, in order.
pub open spec fn applications(log: LogView, leader: bool, from: int, to: int) -> Seq<ActionView>
    decreases to - from,
{
    if to <= from {
        Seq::empty()
    } else {
        applications(log, leader, from, to - 1) + application(log.entry(to as u64)->0, leader)
    }
}

/// The entries follow on `prev_log_index`: their indexes go up one by one, and
/// their terms never go down nor above the leader's.
pub open spec fn valid_entry_sequence(
    prev_log_index: u64,
    prev_log_term: u64,
    leader_term: u64,
    entries: Seq<LogEntryView>,
) -> bool {
    &&& forall|i: int|
        0 <= i < entries.len() ==> (#[trigger] entries[i]).index == prev_log_index + 1 + i
            && prev_log_term <= entries[i].term <= leader_term
    &&& forall|i: int, j: int|
        0 <= i < j < entries.len() ==> (#[trigger] entries[i]).term <= (
        #[trigger] entries[j]).term
}

/// Entries follow on what a log holds.
#[verifier::opaque]
pub open spec fn follows_on(
    log: LogView,
    prev_log_index: u64,
    prev_log_term: u64,
    leader_term: u64,
    entries: Seq<LogEntryView>,
) -> bool {
    &&& log.base_index <= prev_log_index
    &&& log.term(prev_log_index) == Some(prev_log_term)
    &&& valid_entry_sequence(prev_log_index, prev_log_term, leader_term, entries)
}

/// The first position from `i` on whose entry the log does not hold.
pub open spec fn divergence(log: LogView, entries: Seq<LogEntryView>, i: int) -> int
    decreases entries.len() - i,
{
    if i >= entries.len() {
        entries.len() as int
    } else if log.term(entries[i].index) == Some(entries[i].term) {
        divergence(log, entries, i + 1)
    } else {
        i
    }
}

/// The reads that are refused when leadership is lost.
pub open spec fn refused_reads(pending: Map<Seq<u8>, PendingReadView>) -> Seq<ActionView> {
    let contexts = ordered::<Vec<u8>>(pending.dom());
    Seq::new(
        contexts.len(),
        |i: int|
            ActionView::ReadRejected { context: contexts[i], error: ReadError::LeadershipLost },
    )
}

/// A node in the middle of a step, with the actions that the step has asked
/// for so far.
#[verifier::ext_equal]
pub struct Turn {
    pub node: RaftView,
    pub actions: Seq<ActionView>,
}

impl Turn {
    pub open spec fn act(self, action: ActionView) -> Turn {
        Turn { actions: self.actions.push(action), ..self }
    }

    pub open spec fn send(self, to: NodeId, message: MessageView) -> Turn {
        self.act(ActionView::Send { to, message })
    }

    pub open spec fn persist_hard_state(self) -> Turn {
        self.act(ActionView::Persist(StorageMutationView::HardState(self.node.hard_state)))
    }

    /// Committed entries are applied.
    pub open spec fn applied(self) -> Turn {
        Turn {
            node: RaftView { applied_index: self.node.hard_state.commit_index, ..self.node },
            actions: self.actions + applications(
                self.node.log,
                self.node.role == Role::Leader,
                self.node.applied_index as int,
                self.node.hard_state.commit_index as int,
            ),
        }
    }

    /// The commit index goes up, is stored, and the entries are applied.
    pub open spec fn committed(self, index: u64) -> Turn {
        if index <= self.node.hard_state.commit_index {
            self
        } else {
            Turn {
                node: RaftView {
                    hard_state: HardState { commit_index: index, ..self.node.hard_state },
                    ..self.node
                },
                ..self
            }.persist_hard_state().applied()
        }
    }

    /// A leader commits what a quorum holds, if it is of the leader's own term.
    pub open spec fn advanced(self) -> Turn {
        let index = self.node.configuration.quorum_index(self.node.matched());
        if self.node.role == Role::Leader && index > self.node.hard_state.commit_index
            && self.node.log.term(index) == Some(self.node.hard_state.current_term) {
            self.committed(index)
        } else {
            self
        }
    }

    /// One peer is brought forward.
    pub open spec fn append_to(self, peer: NodeId, read_context: Option<Seq<u8>>) -> Turn {
        match self.node.append_action(peer, read_context) {
            Some(action) => self.act(action),
            None => self,
        }
    }

    /// The first `n` peers are brought forward.
    pub open spec fn append_to_first(self, read_context: Option<Seq<u8>>, n: int) -> Turn
        decreases n,
    {
        if n <= 0 {
            self
        } else {
            self.append_to_first(read_context, n - 1).append_to(
                self.node.peers()[n - 1],
                read_context,
            )
        }
    }

    /// All peers are brought forward.
    pub open spec fn broadcast(self, read_context: Option<Seq<u8>>) -> Turn {
        self.append_to_first(read_context, self.node.peers().len() as int)
    }

    /// The node becomes a follower. A higher term is stored, and waiting reads
    /// are refused.
    pub open spec fn stepped_down(self, term: u64, leader_id: Option<NodeId>) -> Turn {
        let termed = if term > self.node.hard_state.current_term {
            Turn {
                node: RaftView {
                    hard_state: HardState {
                        current_term: term,
                        voted_for: None,
                        ..self.node.hard_state
                    },
                    ..self.node
                },
                ..self
            }.persist_hard_state()
        } else {
            self
        };
        let quiet = Turn {
            node: RaftView {
                role: Role::Follower,
                leader_id,
                campaign_term: None,
                votes: Set::empty(),
                progress: Map::empty(),
                recent_active: Set::empty(),
                pending_reads: Map::empty(),
                ..termed.node
            },
            actions: termed.actions + refused_reads(self.node.pending_reads),
        };
        if self.node.role != Role::Follower {
            quiet.act(
                ActionView::RoleChanged {
                    role: Role::Follower,
                    term: quiet.node.hard_state.current_term,
                },
            )
        } else {
            quiet
        }
    }

    /// A message of a higher term was seen.
    pub open spec fn outdated(self, term: u64) -> Turn {
        self.stepped_down(term, None).act(ActionView::ResetElectionTimer)
    }

    /// The node leads its term: it writes an empty entry and brings its peers
    /// forward.
    pub open spec fn leading(self) -> Turn {
        let entry = LogEntryView {
            index: (self.node.log.last_index() + 1) as u64,
            term: self.node.hard_state.current_term,
            payload: EntryPayloadView::Noop,
        };
        let id = self.node.id;
        let voters = self.node.configuration.voters();
        Turn {
            node: RaftView {
                role: Role::Leader,
                leader_id: Some(id),
                votes: Set::empty(),
                pending_reads: Map::empty(),
                log: self.node.log.appended(seq![entry]),
                progress: Map::new(
                    |voter: NodeId| voters.contains(voter),
                    |voter: NodeId|
                        Progress {
                            match_index: if voter == id {
                                entry.index
                            } else {
                                0
                            },
                            next_index: (entry.index + 1) as u64,
                            snapshot_offset: None,
                        },
                ),
                recent_active: voters,
                ..self.node
            },
            ..self
        }.act(ActionView::Persist(StorageMutationView::Append(seq![entry]))).act(
            ActionView::RoleChanged { role: Role::Leader, term: entry.term },
        ).act(ActionView::ResetHeartbeatTimer).advanced().broadcast(None)
    }

    /// The same message goes to the first `n` peers.
    pub open spec fn send_to_first(self, message: MessageView, n: int) -> Turn
        decreases n,
    {
        if n <= 0 {
            self
        } else {
            self.send_to_first(message, n - 1).send(self.node.peers()[n - 1], message)
        }
    }

    /// The same message goes to all peers.
    pub open spec fn send_to_all(self, message: MessageView) -> Turn {
        self.send_to_first(message, self.node.peers().len() as int)
    }

    /// The node votes for itself in a new term and asks for votes.
    pub open spec fn standing(self, term: u64) -> Turn {
        let turn = Turn {
            node: RaftView {
                hard_state: HardState {
                    current_term: term,
                    voted_for: Some(self.node.id),
                    ..self.node.hard_state
                },
                role: Role::Candidate,
                campaign_term: None,
                votes: set![self.node.id],
                ..self.node
            },
            ..self
        }.persist_hard_state().act(
            ActionView::RoleChanged { role: Role::Candidate, term },
        ).act(ActionView::ResetElectionTimer);
        if turn.node.configuration.quorum(turn.node.votes) {
            turn.leading()
        } else {
            turn.send_to_all(
                MessageView::RequestVote {
                    term,
                    candidate_id: turn.node.id,
                    last_log_index: turn.node.log.last_index(),
                    last_log_term: turn.node.log.last_term(),
                },
            )
        }
    }

    /// The node asks whether it would be elected, without a change of term.
    pub open spec fn campaigning(self) -> Turn {
        if self.node.hard_state.current_term == u64::MAX {
            self.act(ActionView::Fatal { reason: "term counter exhausted"@ })
        } else {
            let prospective_term = (self.node.hard_state.current_term + 1) as u64;
            let turn = Turn {
                node: RaftView {
                    role: Role::PreCandidate,
                    leader_id: None,
                    campaign_term: Some(prospective_term),
                    votes: set![self.node.id],
                    ..self.node
                },
                ..self
            }.act(
                ActionView::RoleChanged {
                    role: Role::PreCandidate,
                    term: self.node.hard_state.current_term,
                },
            ).act(ActionView::ResetElectionTimer);
            if turn.node.configuration.quorum(turn.node.votes) {
                turn.standing(prospective_term)
            } else {
                turn.send_to_all(
                    MessageView::PreVoteRequest {
                        prospective_term,
                        candidate_id: turn.node.id,
                        last_log_index: turn.node.log.last_index(),
                        last_log_term: turn.node.log.last_term(),
                    },
                )
            }
        }
    }

    pub open spec fn ticked(self, tick: Tick) -> Turn {
        match tick {
            Tick::Election => if self.node.role == Role::Leader {
                self
            } else {
                self.campaigning()
            },
            Tick::Heartbeat => if self.node.role == Role::Leader {
                self.broadcast(None).act(ActionView::ResetHeartbeatTimer)
            } else {
                self
            },
            Tick::CheckQuorum => if self.node.role != Role::Leader {
                self
            } else if self.node.configuration.quorum(self.node.recent_active) {
                Turn {
                    node: RaftView { recent_active: set![self.node.id], ..self.node },
                    ..self
                }.broadcast(None)
            } else {
                self.outdated(self.node.hard_state.current_term)
            },
        }
    }

    pub open spec fn pre_vote_asked(
        self,
        from: NodeId,
        prospective_term: u64,
        candidate_id: NodeId,
        last_log_index: u64,
        last_log_term: u64,
    ) -> Turn {
        if candidate_id != from {
            self
        } else {
            self.send(
                from,
                MessageView::PreVoteResponse {
                    responder_term: self.node.hard_state.current_term,
                    prospective_term,
                    granted: prospective_term > self.node.hard_state.current_term
                        && self.node.up_to_date(last_log_index, last_log_term),
                },
            )
        }
    }

    pub open spec fn pre_vote_answered(
        self,
        from: NodeId,
        responder_term: u64,
        prospective_term: u64,
        granted: bool,
    ) -> Turn {
        if responder_term > self.node.hard_state.current_term {
            self.outdated(responder_term)
        } else if self.node.role != Role::PreCandidate || self.node.campaign_term != Some(
            prospective_term,
        ) || !granted {
            self
        } else {
            let turn = Turn {
                node: RaftView { votes: self.node.votes.insert(from), ..self.node },
                ..self
            };
            if turn.node.configuration.quorum(turn.node.votes) {
                turn.standing(prospective_term)
            } else {
                turn
            }
        }
    }

    /// A vote is given at most once in a term, and only to a candidate whose
    /// log is not behind.
    pub open spec fn vote_asked(
        self,
        from: NodeId,
        term: u64,
        candidate_id: NodeId,
        last_log_index: u64,
        last_log_term: u64,
    ) -> Turn {
        if candidate_id != from {
            self
        } else {
            let turn = if term > self.node.hard_state.current_term {
                self.stepped_down(term, None)
            } else {
                self
            };
            let hard_state = turn.node.hard_state;
            let granted = term == hard_state.current_term && (hard_state.voted_for is None
                || hard_state.voted_for == Some(candidate_id)) && turn.node.up_to_date(
                last_log_index,
                last_log_term,
            );
            let decided = if !granted {
                turn
            } else {
                let voted = if hard_state.voted_for == Some(candidate_id) {
                    turn
                } else {
                    Turn {
                        node: RaftView {
                            hard_state: HardState { voted_for: Some(candidate_id), ..hard_state },
                            ..turn.node
                        },
                        ..turn
                    }.persist_hard_state()
                };
                Turn { node: RaftView { leader_id: None, ..voted.node }, ..voted }.act(
                    ActionView::ResetElectionTimer,
                )
            };
            decided.send(
                from,
                MessageView::RequestVoteResponse { term: hard_state.current_term, granted },
            )
        }
    }

    pub open spec fn vote_answered(self, from: NodeId, term: u64, granted: bool) -> Turn {
        if term > self.node.hard_state.current_term {
            self.outdated(term)
        } else if self.node.role != Role::Candidate || term != self.node.hard_state.current_term
            || !granted {
            self
        } else {
            let turn = Turn {
                node: RaftView { votes: self.node.votes.insert(from), ..self.node },
                ..self
            };
            if turn.node.configuration.quorum(turn.node.votes) {
                turn.leading()
            } else {
                turn
            }
        }
    }

    pub open spec fn append_refused(
        self,
        to: NodeId,
        read_context: Option<Seq<u8>>,
        conflict_index: u64,
        conflict_term: Option<u64>,
    ) -> Turn {
        self.send(
            to,
            MessageView::AppendEntriesResponse {
                term: self.node.hard_state.current_term,
                success: false,
                match_index: 0,
                conflict_index,
                conflict_term,
                read_context,
            },
        )
    }

    /// The entries from the first one on that the log does not hold are
    /// written, the commit index follows the leader's as far as the log is known
    /// to be the leader's, and the leader is told.
    pub open spec fn entries_taken(
        self,
        from: NodeId,
        prev_log_index: u64,
        entries: Seq<LogEntryView>,
        leader_commit: u64,
        read_context: Option<Seq<u8>>,
    ) -> Turn {
        let position = divergence(self.node.log, entries, 0);
        if position < entries.len() && entries[position].index
            <= self.node.hard_state.commit_index {
            self.act(
                ActionView::Fatal {
                    reason: replacing_words(entries[position].index),
                },
            )
        } else {
            let written = if position < entries.len() {
                let index = entries[position].index;
                let suffix = entries.skip(position);
                Turn {
                    node: RaftView {
                        log: self.node.log.replaced_from(index, suffix),
                        ..self.node
                    },
                    ..self
                }.act(
                    ActionView::Persist(
                        if index <= self.node.log.last_index() {
                            StorageMutationView::TruncateAndAppend { from: index, entries: suffix }
                        } else {
                            StorageMutationView::Append(suffix)
                        },
                    ),
                )
            } else {
                self
            };
            written.committed(
                least(leader_commit, (prev_log_index + entries.len()) as u64),
            ).send(
                from,
                MessageView::AppendEntriesResponse {
                    term: self.node.hard_state.current_term,
                    success: true,
                    match_index: (prev_log_index + entries.len()) as u64,
                    conflict_index: 0,
                    conflict_term: None,
                    read_context,
                },
            )
        }
    }

    /// The entries are taken where they follow on what the log holds.
    pub open spec fn entries_checked(
        self,
        from: NodeId,
        term: u64,
        prev_log_index: u64,
        prev_log_term: u64,
        entries: Seq<LogEntryView>,
        leader_commit: u64,
        read_context: Option<Seq<u8>>,
    ) -> Turn {
        let log = self.node.log;
        if prev_log_index < log.base_index {
            self.append_refused(
                from,
                read_context,
                (log.base_index + 1) as u64,
                Some(log.base_term),
            )
        } else {
            match log.term(prev_log_index) {
                None => self.append_refused(
                    from,
                    read_context,
                    (log.last_index() + 1) as u64,
                    None,
                ),
                Some(local_term) => if local_term != prev_log_term {
                    self.append_refused(
                        from,
                        read_context,
                        log.first_index_of_term(prev_log_index, local_term),
                        Some(local_term),
                    )
                } else if !valid_entry_sequence(prev_log_index, prev_log_term, term, entries) {
                    self.append_refused(from, read_context, (prev_log_index + 1) as u64, None)
                } else {
                    self.entries_taken(from, prev_log_index, entries, leader_commit, read_context)
                },
            }
        }
    }

    pub open spec fn entries_received(
        self,
        from: NodeId,
        term: u64,
        leader_id: NodeId,
        prev_log_index: u64,
        prev_log_term: u64,
        entries: Seq<LogEntryView>,
        leader_commit: u64,
        read_context: Option<Seq<u8>>,
    ) -> Turn {
        if leader_id != from {
            self
        } else if term < self.node.hard_state.current_term {
            self.append_refused(
                from,
                read_context,
                (self.node.log.last_index() + 1) as u64,
                None,
            )
        } else {
            self.stepped_down(term, Some(from)).act(ActionView::ResetElectionTimer).entries_checked(
                from,
                term,
                prev_log_index,
                prev_log_term,
                entries,
                leader_commit,
                read_context,
            )
        }
    }

    /// A waiting read is answered once a quorum has confirmed the leader.
    pub open spec fn read_acknowledged(self, from: NodeId, context: Seq<u8>) -> Turn {
        if !self.node.pending_reads.contains_key(context) {
            self
        } else {
            let pending = self.node.pending_reads[context];
            let acknowledgements = pending.acknowledgements.insert(from);
            if self.node.configuration.quorum(acknowledgements) {
                Turn {
                    node: RaftView {
                        pending_reads: self.node.pending_reads.remove(context),
                        ..self.node
                    },
                    ..self
                }.act(ActionView::ReadReady { context, index: pending.index })
            } else {
                Turn {
                    node: RaftView {
                        pending_reads: self.node.pending_reads.insert(
                            context,
                            PendingReadView { acknowledgements, ..pending },
                        ),
                        ..self.node
                    },
                    ..self
                }
            }
        }
    }

    /// What is known of a peer is replaced, if anything is known of it.
    pub open spec fn with_progress(self, peer: NodeId, progress: Progress) -> Turn {
        if self.node.progress.contains_key(peer) {
            Turn {
                node: RaftView {
                    progress: self.node.progress.insert(peer, progress),
                    ..self.node
                },
                ..self
            }
        } else {
            self
        }
    }

    pub open spec fn append_answered(
        self,
        from: NodeId,
        term: u64,
        success: bool,
        match_index: u64,
        conflict_index: u64,
        conflict_term: Option<u64>,
        read_context: Option<Seq<u8>>,
    ) -> Turn {
        if term > self.node.hard_state.current_term {
            self.outdated(term)
        } else if self.node.role != Role::Leader || term != self.node.hard_state.current_term {
            self
        } else {
            let active = Turn {
                node: RaftView {
                    recent_active: self.node.recent_active.insert(from),
                    ..self.node
                },
                ..self
            };
            let turn = match read_context {
                Some(context) => active.read_acknowledged(from, context),
                None => active,
            };
            let progress = turn.node.progress[from];
            if success {
                let moved = turn.with_progress(
                    from,
                    Progress {
                        match_index: most(progress.match_index, match_index),
                        next_index: most(
                            progress.next_index,
                            if match_index == u64::MAX {
                                u64::MAX
                            } else {
                                (match_index + 1) as u64
                            },
                        ),
                        snapshot_offset: None,
                    },
                ).advanced();
                if match_index < moved.node.log.last_index() {
                    moved.append_to(from, None)
                } else {
                    moved
                }
            } else {
                let hint = match conflict_term {
                    Some(term) => match turn.node.log.last_index_of_term(term) {
                        Some(index) => (index + 1) as u64,
                        None => conflict_index,
                    },
                    None => conflict_index,
                };
                let back = if progress.next_index <= 1 {
                    1
                } else {
                    (progress.next_index - 1) as u64
                };
                turn.with_progress(
                    from,
                    Progress {
                        match_index: progress.match_index,
                        next_index: least(most(hint, 1), most(back, 1)),
                        snapshot_offset: None,
                    },
                ).append_to(from, None)
            }
        }
    }

    pub open spec fn proposed(self, id: CommandId, command: Seq<u8>) -> Turn {
        if self.node.role != Role::Leader {
            self.act(ActionView::ProposalRejected { id, leader_hint: self.node.leader_id })
        } else {
            let entry = LogEntryView {
                index: (self.node.log.last_index() + 1) as u64,
                term: self.node.hard_state.current_term,
                payload: EntryPayloadView::Command { id, bytes: command },
            };
            Turn {
                node: RaftView { log: self.node.log.appended(seq![entry]), ..self.node },
                ..self
            }.with_progress(
                self.node.id,
                Progress {
                    match_index: entry.index,
                    next_index: (entry.index + 1) as u64,
                    ..self.node.progress[self.node.id]
                },
            ).act(
                ActionView::Persist(StorageMutationView::Append(seq![entry])),
            ).advanced().broadcast(None)
        }
    }

    /// A read waits until a quorum has confirmed the leader. Before the leader
    /// has committed an entry of its own term, it cannot tell what is
    /// committed.
    pub open spec fn read_asked(self, context: Seq<u8>) -> Turn {
        if self.node.role != Role::Leader {
            self.act(ActionView::ReadRejected { context, error: ReadError::NotLeader })
        } else if context.len() == 0 || self.node.pending_reads.contains_key(context) {
            self.act(ActionView::ReadRejected { context, error: ReadError::InvalidContext })
        } else if self.node.log.term(self.node.hard_state.commit_index) != Some(
            self.node.hard_state.current_term,
        ) {
            self.act(ActionView::ReadRejected { context, error: ReadError::LeaderNotReady })
        } else if self.node.configuration.quorum(set![self.node.id]) {
            self.act(
                ActionView::ReadReady { context, index: self.node.hard_state.commit_index },
            )
        } else {
            Turn {
                node: RaftView {
                    pending_reads: self.node.pending_reads.insert(
                        context,
                        PendingReadView {
                            index: self.node.hard_state.commit_index,
                            acknowledgements: set![self.node.id],
                        },
                    ),
                    ..self.node
                },
                ..self
            }.broadcast(Some(context))
        }
    }

    /// A snapshot of applied entries replaces them in the log.
    pub open spec fn snapshot_built(self, snapshot: PersistentSnapshotView) -> Turn {
        let metadata = snapshot.metadata;
        if snapshot.valid() && metadata.configuration == self.node.configuration
            && self.node.log.base_index <= metadata.last_included_index <= self.node.applied_index
            && self.node.log.term(metadata.last_included_index) == Some(
            metadata.last_included_term,
        ) {
            let log = self.node.log.compacted(
                metadata.last_included_index,
                metadata.last_included_term,
                true,
            );
            Turn {
                node: RaftView { log, snapshot: Some(snapshot), ..self.node },
                ..self
            }.act(
                ActionView::Persist(
                    StorageMutationView::CompactSnapshot {
                        snapshot,
                        retained_entries: log.entries,
                    },
                ),
            )
        } else {
            self.act(
                ActionView::SnapshotRejected {
                    reason: "snapshot hash, membership, or applied log boundary is invalid"@,
                },
            )
        }
    }

    pub open spec fn snapshot_reply(
        self,
        to: NodeId,
        accepted: bool,
        next_offset: u64,
        done: bool,
        match_index: u64,
    ) -> Turn {
        self.send(
            to,
            MessageView::InstallSnapshotResponse {
                term: self.node.hard_state.current_term,
                accepted,
                next_offset,
                done,
                match_index,
            },
        )
    }

    pub open spec fn with_incoming(self, incoming: Option<IncomingSnapshotView>) -> Turn {
        Turn { node: RaftView { incoming_snapshot: incoming, ..self.node }, ..self }
    }

    /// A complete snapshot replaces the log up to its index.
    pub open spec fn snapshot_installed(self, from: NodeId, snapshot: PersistentSnapshotView) -> Turn {
        let metadata = snapshot.metadata;
        let index = metadata.last_included_index;
        let log = self.node.log.compacted(
            index,
            metadata.last_included_term,
            self.node.log.term(index) == Some(metadata.last_included_term),
        );
        let hard_state = HardState {
            commit_index: most(self.node.hard_state.commit_index, index),
            ..self.node.hard_state
        };
        Turn {
            node: RaftView {
                log,
                snapshot: Some(snapshot),
                hard_state,
                applied_index: index,
                incoming_snapshot: None,
                ..self.node
            },
            ..self
        }.act(
            ActionView::Persist(
                StorageMutationView::InstallSnapshot {
                    snapshot,
                    retained_entries: log.entries,
                    hard_state,
                },
            ),
        ).snapshot_reply(from, true, metadata.byte_len, true, index)
    }

    /// The next chunk of the transfer `incoming`. Chunks are taken in order,
    /// an earlier one again only if it is the same, and the last one only if
    /// the whole has the announced length and digest.
    pub open spec fn chunk_taken(
        self,
        from: NodeId,
        incoming: IncomingSnapshotView,
        offset: u64,
        data: Seq<u8>,
        done: bool,
    ) -> Turn {
        let metadata = incoming.metadata;
        let expected = incoming.data.len();
        let whole = incoming.data + data;
        if offset < expected {
            self.snapshot_reply(
                from,
                offset + data.len() <= expected && incoming.data.subrange(
                    offset as int,
                    offset + data.len(),
                ) == data,
                expected as u64,
                false,
                0,
            )
        } else if offset != expected || whole.len() > metadata.byte_len {
            self.snapshot_reply(from, false, expected as u64, false, 0)
        } else if !done {
            self.with_incoming(
                Some(IncomingSnapshotView { metadata, data: whole }),
            ).snapshot_reply(from, true, whole.len() as u64, false, 0)
        } else if whole.len() != metadata.byte_len || sha256(whole) != metadata.sha256 {
            self.with_incoming(None).snapshot_reply(from, false, 0, false, 0)
        } else {
            self.snapshot_installed(from, PersistentSnapshotView { metadata, data: whole })
        }
    }

    /// A chunk of a snapshot of an acceptable shape.
    pub open spec fn chunk_checked(
        self,
        from: NodeId,
        metadata: SnapshotMetadataView,
        offset: u64,
        data: Seq<u8>,
        done: bool,
    ) -> Turn {
        if metadata.configuration != self.node.configuration || metadata.byte_len
            > MAX_SNAPSHOT_BYTES || metadata.last_included_index == 0 {
            self.with_incoming(None).snapshot_reply(from, false, 0, false, 0)
        } else if metadata.last_included_index <= self.node.applied_index {
            self.snapshot_reply(
                from,
                true,
                metadata.byte_len,
                true,
                metadata.last_included_index,
            )
        } else {
            let same_transfer = self.node.incoming_snapshot matches Some(incoming)
                && incoming.metadata == metadata;
            let turn = if offset == 0 && !same_transfer {
                self.with_incoming(Some(IncomingSnapshotView { metadata, data: Seq::empty() }))
            } else {
                self
            };
            match turn.node.incoming_snapshot {
                None => turn.snapshot_reply(from, false, 0, false, 0),
                Some(incoming) => if incoming.metadata != metadata {
                    turn.snapshot_reply(from, false, 0, false, 0)
                } else {
                    turn.chunk_taken(from, incoming, offset, data, done)
                },
            }
        }
    }

    pub open spec fn chunk_received(
        self,
        from: NodeId,
        term: u64,
        leader_id: NodeId,
        metadata: SnapshotMetadataView,
        offset: u64,
        data: Seq<u8>,
        done: bool,
    ) -> Turn {
        if leader_id != from {
            self
        } else if term < self.node.hard_state.current_term {
            self.snapshot_reply(from, false, 0, false, 0)
        } else {
            self.stepped_down(term, Some(from)).act(ActionView::ResetElectionTimer).chunk_checked(
                from,
                metadata,
                offset,
                data,
                done,
            )
        }
    }

    pub open spec fn chunk_answered(
        self,
        from: NodeId,
        term: u64,
        accepted: bool,
        next_offset: u64,
        done: bool,
        match_index: u64,
    ) -> Turn {
        if term > self.node.hard_state.current_term {
            self.outdated(term)
        } else if self.node.role != Role::Leader || term != self.node.hard_state.current_term {
            self
        } else {
            let turn = Turn {
                node: RaftView {
                    recent_active: self.node.recent_active.insert(from),
                    ..self.node
                },
                ..self
            };
            if !turn.node.progress.contains_key(from) {
                turn
            } else {
                let progress = turn.node.progress[from];
                let moved = if done && accepted {
                    turn.with_progress(
                        from,
                        Progress {
                            match_index: most(progress.match_index, match_index),
                            next_index: most(progress.next_index, (match_index + 1) as u64),
                            snapshot_offset: None,
                        },
                    ).advanced()
                } else {
                    turn.with_progress(
                        from,
                        Progress {
                            snapshot_offset: Some(
                                if accepted {
                                    next_offset
                                } else {
                                    0
                                },
                            ),
                            ..progress
                        },
                    )
                };
                moved.append_to(from, None)
            }
        }
    }

    /// A message of another voter.
    #[verifier::opaque]
    pub open spec fn received(self, from: NodeId, message: MessageView) -> Turn {
        if !self.node.configuration.voters().contains(from) || from == self.node.id {
            self
        } else {
            match message {
                MessageView::PreVoteRequest {
                    prospective_term,
                    candidate_id,
                    last_log_index,
                    last_log_term,
                } => self.pre_vote_asked(
                    from,
                    prospective_term,
                    candidate_id,
                    last_log_index,
                    last_log_term,
                ),
                MessageView::PreVoteResponse { responder_term, prospective_term, granted } => {
                    self.pre_vote_answered(from, responder_term, prospective_term, granted)
                },
                MessageView::RequestVote {
                    term,
                    candidate_id,
                    last_log_index,
                    last_log_term,
                } => self.vote_asked(from, term, candidate_id, last_log_index, last_log_term),
                MessageView::RequestVoteResponse { term, granted } => self.vote_answered(
                    from,
                    term,
                    granted,
                ),
                MessageView::AppendEntries {
                    term,
                    leader_id,
                    prev_log_index,
                    prev_log_term,
                    entries,
                    leader_commit,
                    read_context,
                } => self.entries_received(
                    from,
                    term,
                    leader_id,
                    prev_log_index,
                    prev_log_term,
                    entries,
                    leader_commit,
                    read_context,
                ),
                MessageView::AppendEntriesResponse {
                    term,
                    success,
                    match_index,
                    conflict_index,
                    conflict_term,
                    read_context,
                } => self.append_answered(
                    from,
                    term,
                    success,
                    match_index,
                    conflict_index,
                    conflict_term,
                    read_context,
                ),
                MessageView::InstallSnapshot { term, leader_id, metadata, offset, data, done } => {
                    self.chunk_received(from, term, leader_id, metadata, offset, data, done)
                },
                MessageView::InstallSnapshotResponse {
                    term,
                    accepted,
                    next_offset,
                    done,
                    match_index,
                } => self.chunk_answered(from, term, accepted, next_offset, done, match_index),
            }
        }
    }

    /// One event from outside.
    pub open spec fn handled(self, input: InputView) -> Turn {
        match input {
            InputView::Tick(tick) => self.ticked(tick),
            InputView::Message { from, message } => self.received(from, message),
            InputView::Propose { id, command } => self.proposed(id, command),
            InputView::ReadIndex { context } => self.read_asked(context),
            InputView::SnapshotBuilt(snapshot) => self.snapshot_built(snapshot),
        }
    }
}

impl RaftView {
    /// A step: what is committed is applied first, then the event is handled.
    pub open spec fn stepped(self, input: InputView) -> Turn {
        Turn { node: self, actions: Seq::empty() }.applied().handled(input)
    }
}

} // verus!
