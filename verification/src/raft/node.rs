//! The consensus state machine of one node.

use vstd::prelude::*;
use crate::digest::sha256_digest;
use crate::model::Model;
use crate::ordmap::{OrdMap, OrdSet};
use crate::raft::configuration::Configuration;
use crate::raft::log::{LogView, RaftLog, copied_range, last_index_counts, last_of_term_is_in_log};
use crate::raft::state::{
    IncomingSnapshot, MAX_APPEND_ENTRIES, MAX_SNAPSHOT_BYTES, PendingRead, Progress, RaftView,
    SNAPSHOT_CHUNK_BYTES, Turn, application, applications, applying_keeps_room, divergence,
    follows_on, least, most, refused_reads, replacing_words, snapshotless_words, termless_words,
    valid_entry_sequence,
};
use crate::raft::types::{
    Action, ActionView, CommandId, EntryPayload, HardState, Input, InputView, LogEntry,
    LogEntryView, Message, PersistentSnapshot, PersistentSnapshotView, ReadError, Role,
    SnapshotMetadata, StorageMutation, Tick,
};
use crate::text::decimal_text;
use crate::types::{NodeId, between, labelled};
use crate::wire::put_bytes;

verus! {

broadcast use crate::model::group_contents;

/// The parts of a node.
#[derive(Debug)]
pub(crate) struct RaftCore {
    pub(crate) id: NodeId,
    pub(crate) configuration: Configuration,
    pub(crate) hard_state: HardState,
    pub(crate) log: RaftLog,
    pub(crate) snapshot: Option<PersistentSnapshot>,
    pub(crate) applied_index: u64,
    pub(crate) role: Role,
    pub(crate) leader_id: Option<NodeId>,
    pub(crate) campaign_term: Option<u64>,
    pub(crate) votes: OrdSet<NodeId>,
    pub(crate) progress: OrdMap<NodeId, Progress>,
    pub(crate) recent_active: OrdSet<NodeId>,
    pub(crate) pending_reads: OrdMap<Vec<u8>, PendingRead>,
    pub(crate) incoming_snapshot: Option<IncomingSnapshot>,
}

impl RaftCore {
    pub(crate) open spec fn content(self) -> RaftView {
        RaftView {
            id: self.id,
            configuration: self.configuration.deep_view(),
            hard_state: self.hard_state,
            log: self.log.deep_view(),
            snapshot: self.snapshot.deep_view(),
            applied_index: self.applied_index,
            role: self.role,
            leader_id: self.leader_id,
            campaign_term: self.campaign_term,
            votes: self.votes.deep_view(),
            progress: self.progress.deep_view(),
            recent_active: self.recent_active.deep_view(),
            pending_reads: self.pending_reads.deep_view(),
            incoming_snapshot: self.incoming_snapshot.deep_view(),
        }
    }
}

/// A node with the actions that it has asked for.
pub(crate) open spec fn turn(core: RaftCore, actions: Vec<Action>) -> Turn {
    Turn { node: core.content(), actions: actions.deep_view() }
}

/// The indexes of a node are in order and can still grow.
pub(crate) open spec fn sound(node: RaftView) -> bool {
    &&& node.configuration.valid()
    &&& node.log.contiguous()
    &&& node.log.last_index() < u64::MAX
    &&& node.log.base_index <= node.applied_index
    &&& node.applied_index <= node.hard_state.commit_index
    &&& node.hard_state.commit_index <= node.log.last_index()
}

fn snapshotless_text(peer: NodeId) -> (text: String)
    ensures
        text@ == snapshotless_words(peer),
{
    reveal(snapshotless_words);
    between(
        "peer ",
        &decimal_text(peer),
        " requires index at/before compacted boundary, but no snapshot exists",
    )
}

fn termless_text(index: u64) -> (text: String)
    ensures
        text@ == termless_words(index),
{
    reveal(termless_words);
    labelled("missing previous log term at ", &decimal_text(index))
}

fn replacing_text(index: u64) -> (text: String)
    ensures
        text@ == replacing_words(index),
{
    reveal(replacing_words);
    labelled("leader attempted to replace committed index ", &decimal_text(index))
}

fn push(actions: &mut Vec<Action>, action: Action)
    ensures
        final(actions).deep_view() == old(actions).deep_view().push(action.deep_view()),
{
    let ghost before = actions.deep_view();
    actions.push(action);
    assert(actions.deep_view() =~= before.push(action.deep_view()));
}

fn fatal(text: &str) -> (action: Action)
    ensures
        action.deep_view() == (ActionView::Fatal { reason: text@ }),
{
    Action::Fatal { reason: text.to_owned() }
}

/// Copies of the bytes from `start` up to `end`.
fn copied_bytes(bytes: &Vec<u8>, start: usize, end: usize) -> (copy: Vec<u8>)
    requires
        start <= end <= bytes@.len(),
    ensures
        copy@ == bytes@.subrange(start as int, end as int),
{
    let mut copy: Vec<u8> = Vec::with_capacity(end - start);
    let mut i: usize = start;
    while i < end
        invariant
            start <= i <= end <= bytes@.len(),
            copy@ == bytes@.subrange(start as int, i as int),
        decreases end - i,
    {
        copy.push(bytes[i]);
        assert(copy@ =~= bytes@.subrange(start as int, i + 1));
        i = i + 1;
    }
    copy
}

impl RaftCore {
    fn peers(&self) -> (peers: Vec<NodeId>)
        ensures
            peers@ == self.content().peers(),
    {
        let voters = self.configuration.voters();
        let count: usize = voters.len();
        let ghost listed = voters.listed();
        let id = self.id;
        let mut others: OrdSet<NodeId> = OrdSet::new();
        let mut i: usize = 0;
        assert(others.deep_view() =~= listed.take(0).to_set().remove(id));
        while i < count
            invariant
                i <= count,
                count == listed.len(),
                listed == voters.listed(),
                others.deep_view() == listed.take(i as int).to_set().remove(id),
            decreases count - i,
        {
            let voter = *voters.member_at(i);
            if voter != id {
                others.insert(voter);
            }
            proof {
                let fewer = listed.take(i as int);
                let more = listed.take(i + 1);
                assert(more =~= fewer.push(voter));
                assert forall|node: NodeId| more.to_set().contains(node)
                    <==> fewer.to_set().insert(voter).contains(node) by {
                    if fewer.contains(node) {
                        let k = fewer.index_of(node);
                        assert(more[k] == node);
                    }
                    assert(more[i as int] == voter);
                }
                assert(others.deep_view() =~= more.to_set().remove(id));
            }
            i = i + 1;
        }
        proof {
            assert(listed.take(i as int) =~= listed);
            assert(listed.to_set() =~= voters.deep_view());
        }
        let mut peers: Vec<NodeId> = Vec::new();
        let total: usize = others.len();
        let mut j: usize = 0;
        while j < total
            invariant
                j <= total,
                total == others.listed().len(),
                peers@ == others.listed().take(j as int),
            decreases total - j,
        {
            peers.push(*others.member_at(j));
            assert(peers@ =~= others.listed().take(j + 1));
            j = j + 1;
        }
        assert(peers@ =~= others.listed());
        peers
    }

    fn candidate_log_is_up_to_date(&self, index: u64, term: u64) -> (current: bool)
        ensures
            current == self.content().up_to_date(index, term),
    {
        term > self.log.last_term() || (term == self.log.last_term() && index
            >= self.log.last_index())
    }

    fn apply_committed(&mut self, actions: &mut Vec<Action>)
        requires
            sound(old(self).content()),
        ensures
            turn(*final(self), *final(actions)) == turn(*old(self), *old(actions)).applied(),
    {
        let ghost start = turn(*self, *actions);
        let ghost log = self.log.deep_view();
        let ghost first = self.applied_index as int;
        let leader = self.role == Role::Leader;
        let commit_index = self.hard_state.commit_index;
        proof {
            last_index_counts(log);
            assert(actions.deep_view() =~= start.actions + applications(log, leader, first, first));
        }
        while self.applied_index < commit_index
            invariant
                log == start.node.log,
                log.contiguous(),
                log.base_index <= first <= self.applied_index <= commit_index,
                commit_index == start.node.hard_state.commit_index,
                commit_index <= log.base_index + log.entries.len(),
                leader == (start.node.role == Role::Leader),
                self.content() == (RaftView { applied_index: self.applied_index, ..start.node }),
                actions.deep_view() == start.actions + applications(
                    log,
                    leader,
                    first,
                    self.applied_index as int,
                ),
            decreases commit_index - self.applied_index,
        {
            let next: u64 = self.applied_index + 1;
            let ghost so_far = actions.deep_view();
            match self.log.entry(next) {
                Some(entry) => {
                    push(actions, Action::Apply(entry.duplicate()));
                    if leader {
                        if let EntryPayload::Command { id, .. } = &entry.payload {
                            push(
                                actions,
                                Action::ProposalCommitted { id: *id, index: entry.index },
                            );
                        }
                    }
                    proof {
                        let view = entry.deep_view();
                        assert(log.entry(next) == Some(view));
                        assert(actions.deep_view() =~= so_far + application(view, leader));
                        assert(applications(log, leader, first, next as int) == applications(
                            log,
                            leader,
                            first,
                            next - 1,
                        ) + application(view, leader));
                        assert(actions.deep_view() =~= start.actions + applications(
                            log,
                            leader,
                            first,
                            next as int,
                        ));
                    }
                },
                None => {
                    assert(false);
                },
            }
            self.applied_index = next;
        }
    }

    fn set_commit(&mut self, new_commit: u64, actions: &mut Vec<Action>)
        requires
            sound(old(self).content()),
            new_commit <= old(self).content().log.last_index(),
        ensures
            turn(*final(self), *final(actions)) == turn(*old(self), *old(actions)).committed(
                new_commit,
            ),
    {
        if new_commit <= self.hard_state.commit_index {
            return;
        }
        self.hard_state.commit_index = new_commit;
        push(actions, Action::Persist(StorageMutation::HardState(self.hard_state)));
        self.apply_committed(actions);
    }

    fn matched(&self) -> (matched: OrdMap<NodeId, u64>)
        ensures
            matched.deep_view() == self.content().matched(),
    {
        let count: usize = self.progress.len();
        let ghost listed = self.progress.keys();
        let ghost known = self.progress.deep_view();
        let mut matched: OrdMap<NodeId, u64> = OrdMap::new();
        let mut i: usize = 0;
        while i < count
            invariant
                i <= count,
                count == listed.len(),
                listed == self.progress.keys(),
                known == self.progress.deep_view(),
                forall|node: NodeId| #[trigger]
                    matched.deep_view().contains_key(node) <==> listed.take(i as int).contains(
                        node,
                    ),
                forall|node: NodeId| #[trigger]
                    matched.deep_view().contains_key(node) ==> matched.deep_view()[node]
                        == known[node].match_index,
            decreases count - i,
        {
            let node = *self.progress.key_at(i);
            let progress = self.progress.value_at(i);
            matched.insert(node, progress.match_index);
            proof {
                let fewer = listed.take(i as int);
                let more = listed.take(i + 1);
                assert(more =~= fewer.push(node));
                assert forall|other: NodeId| more.contains(other) <==> (fewer.contains(other)
                    || other == node) by {
                    if fewer.contains(other) {
                        let k = fewer.index_of(other);
                        assert(more[k] == other);
                    }
                    assert(more[i as int] == node);
                }
            }
            i = i + 1;
        }
        proof {
            assert(listed.take(i as int) =~= listed);
            assert forall|node: NodeId| matched.deep_view().contains_key(node)
                <==> known.contains_key(node) by {
                assert(known.dom().contains(node) <==> listed.contains(node));
            }
            assert(matched.deep_view() =~= self.content().matched());
        }
        matched
    }

    fn advance_leader_commit(&mut self, actions: &mut Vec<Action>)
        requires
            sound(old(self).content()),
        ensures
            turn(*final(self), *final(actions)) == turn(*old(self), *old(actions)).advanced(),
    {
        if self.role != Role::Leader {
            return;
        }
        let matched = self.matched();
        let quorum_index: u64 = self.configuration.quorum_index(&matched);
        if quorum_index > self.hard_state.commit_index && self.log.term(quorum_index) == Some(
            self.hard_state.current_term,
        ) {
            proof {
                last_index_counts(self.log.deep_view());
            }
            self.set_commit(quorum_index, actions);
        }
    }

    fn send_snapshot_chunk(&self, peer: NodeId, offset: u64, actions: &mut Vec<Action>)
        ensures
            final(actions).deep_view() == old(actions).deep_view().push(
                self.content().chunk_action(peer, offset),
            ),
    {
        let snapshot = match &self.snapshot {
            Some(snapshot) => snapshot,
            None => {
                push(
                    actions,
                    Action::Fatal {
                        reason: snapshotless_text(peer),
                    },
                );
                return;
            },
        };
        let length: usize = snapshot.data.len();
        let start: usize = if offset < length as u64 {
            offset as usize
        } else {
            length
        };
        let end: usize = if length - start > SNAPSHOT_CHUNK_BYTES {
            start + SNAPSHOT_CHUNK_BYTES
        } else {
            length
        };
        push(
            actions,
            Action::Send {
                to: peer,
                message: Message::InstallSnapshot {
                    term: self.hard_state.current_term,
                    leader_id: self.id,
                    metadata: snapshot.metadata.duplicate(),
                    offset: start as u64,
                    data: copied_bytes(&snapshot.data, start, end),
                    done: end == length,
                },
            },
        );
    }

    fn send_append(&self, peer: NodeId, read_context: Option<Vec<u8>>, actions: &mut Vec<Action>)
        requires
            self.content().log.contiguous(),
            self.content().log.last_index() < u64::MAX,
        ensures
            turn(*self, *final(actions)) == turn(*self, *old(actions)).append_to(
                peer,
                read_context.deep_view(),
            ),
    {
        let progress = match self.progress.get(&peer) {
            Some(progress) => *progress,
            None => return,
        };
        if progress.next_index <= self.log.base_index() {
            let offset: u64 = match progress.snapshot_offset {
                Some(offset) => offset,
                None => 0,
            };
            self.send_snapshot_chunk(peer, offset, actions);
            return;
        }
        let after_last: u64 = self.log.last_index() + 1;
        let next_index: u64 = if progress.next_index < after_last {
            progress.next_index
        } else {
            after_last
        };
        proof {
            last_index_counts(self.log.deep_view());
        }
        let prev_log_index: u64 = next_index - 1;
        let prev_log_term = match self.log.term(prev_log_index) {
            Some(term) => term,
            None => {
                push(
                    actions,
                    Action::Fatal {
                        reason: termless_text(prev_log_index),
                    },
                );
                return;
            },
        };
        push(
            actions,
            Action::Send {
                to: peer,
                message: Message::AppendEntries {
                    term: self.hard_state.current_term,
                    leader_id: self.id,
                    prev_log_index,
                    prev_log_term,
                    entries: self.log.entries_from(next_index, MAX_APPEND_ENTRIES),
                    leader_commit: self.hard_state.commit_index,
                    read_context,
                },
            },
        );
    }

    fn broadcast_append(&self, read_context: Option<Vec<u8>>, actions: &mut Vec<Action>)
        requires
            self.content().log.contiguous(),
            self.content().log.last_index() < u64::MAX,
        ensures
            turn(*self, *final(actions)) == turn(*self, *old(actions)).broadcast(
                read_context.deep_view(),
            ),
    {
        let ghost start = turn(*self, *actions);
        let peers = self.peers();
        let mut i: usize = 0;
        while i < peers.len()
            invariant
                i <= peers@.len(),
                peers@ == self.content().peers(),
                self.content().log.contiguous(),
                self.content().log.last_index() < u64::MAX,
                start.node == self.content(),
                turn(*self, *actions) == start.append_to_first(
                    read_context.deep_view(),
                    i as int,
                ),
            decreases peers@.len() - i,
        {
            self.send_append(peers[i], read_context.duplicate(), actions);
            i = i + 1;
        }
    }

    fn send_to_all(&self, message: &Message, actions: &mut Vec<Action>)
        ensures
            turn(*self, *final(actions)) == turn(*self, *old(actions)).send_to_all(
                message.deep_view(),
            ),
    {
        let ghost start = turn(*self, *actions);
        let peers = self.peers();
        let mut i: usize = 0;
        while i < peers.len()
            invariant
                i <= peers@.len(),
                peers@ == self.content().peers(),
                start.node == self.content(),
                turn(*self, *actions) == start.send_to_first(message.deep_view(), i as int),
            decreases peers@.len() - i,
        {
            push(actions, Action::Send { to: peers[i], message: message.duplicate() });
            i = i + 1;
        }
    }

    fn reject_reads(&mut self, actions: &mut Vec<Action>)
        ensures
            final(self).content() == (RaftView {
                pending_reads: Map::empty(),
                ..old(self).content()
            }),
            final(actions).deep_view() == old(actions).deep_view() + refused_reads(
                old(self).content().pending_reads,
            ),
    {
        let ghost start = actions.deep_view();
        let ghost pending = self.pending_reads.deep_view();
        let ghost refused = refused_reads(pending);
        let count: usize = self.pending_reads.len();
        let mut i: usize = 0;
        assert(actions.deep_view() =~= start + refused.take(0));
        while i < count
            invariant
                i <= count,
                count == refused.len(),
                count == self.pending_reads.keys().len(),
                refused == refused_reads(pending),
                pending == self.pending_reads.deep_view(),
                self.content() == old(self).content(),
                actions.deep_view() == start + refused.take(i as int),
            decreases count - i,
        {
            let ghost so_far = actions.deep_view();
            let context = self.pending_reads.key_at(i).duplicate();
            push(actions, Action::ReadRejected { context, error: ReadError::LeadershipLost });
            proof {
                assert(actions.deep_view() =~= so_far.push(refused[i as int]));
                assert(refused.take(i + 1) =~= refused.take(i as int).push(refused[i as int]));
                assert(actions.deep_view() =~= start + refused.take(i + 1));
            }
            i = i + 1;
        }
        assert(refused.take(i as int) =~= refused);
        self.pending_reads = OrdMap::new();
    }

    fn become_follower(&mut self, term: u64, leader_id: Option<NodeId>, actions: &mut Vec<Action>)
        ensures
            turn(*final(self), *final(actions)) == turn(*old(self), *old(actions)).stepped_down(
                term,
                leader_id,
            ),
    {
        let was_role = self.role;
        if term > self.hard_state.current_term {
            self.hard_state.current_term = term;
            self.hard_state.voted_for = None;
            push(actions, Action::Persist(StorageMutation::HardState(self.hard_state)));
        }
        self.reject_reads(actions);
        self.role = Role::Follower;
        self.leader_id = leader_id;
        self.campaign_term = None;
        self.votes = OrdSet::new();
        self.progress = OrdMap::new();
        self.recent_active = OrdSet::new();
        if was_role != Role::Follower {
            push(
                actions,
                Action::RoleChanged { role: Role::Follower, term: self.hard_state.current_term },
            );
        }
    }

    fn outdated(&mut self, term: u64, actions: &mut Vec<Action>)
        ensures
            turn(*final(self), *final(actions)) == turn(*old(self), *old(actions)).outdated(term),
    {
        self.become_follower(term, None, actions);
        push(actions, Action::ResetElectionTimer);
    }

    fn fresh_progress(&self, index: u64) -> (progress: OrdMap<NodeId, Progress>)
        requires
            index < u64::MAX,
        ensures
            progress.deep_view() == Map::new(
                |voter: NodeId| self.content().configuration.voters().contains(voter),
                |voter: NodeId|
                    Progress {
                        match_index: if voter == self.content().id {
                            index
                        } else {
                            0
                        },
                        next_index: (index + 1) as u64,
                        snapshot_offset: None,
                    },
            ),
    {
        let voters = self.configuration.voters();
        let count: usize = voters.len();
        let ghost listed = voters.listed();
        let id = self.id;
        let next_index: u64 = index + 1;
        let mut progress: OrdMap<NodeId, Progress> = OrdMap::new();
        let mut i: usize = 0;
        while i < count
            invariant
                i <= count,
                count == listed.len(),
                listed == voters.listed(),
                next_index == index + 1,
                forall|node: NodeId| #[trigger]
                    progress.deep_view().contains_key(node) <==> listed.take(i as int).contains(
                        node,
                    ),
                forall|node: NodeId| #[trigger]
                    progress.deep_view().contains_key(node) ==> progress.deep_view()[node] == (
                    Progress {
                        match_index: if node == id {
                            index
                        } else {
                            0
                        },
                        next_index,
                        snapshot_offset: None,
                    }),
            decreases count - i,
        {
            let voter = *voters.member_at(i);
            let match_index: u64 = if voter == id {
                index
            } else {
                0
            };
            progress.insert(voter, Progress { match_index, next_index, snapshot_offset: None });
            proof {
                let fewer = listed.take(i as int);
                let more = listed.take(i + 1);
                assert(more =~= fewer.push(voter));
                assert forall|other: NodeId| more.contains(other) <==> (fewer.contains(other)
                    || other == voter) by {
                    if fewer.contains(other) {
                        let k = fewer.index_of(other);
                        assert(more[k] == other);
                    }
                    assert(more[i as int] == voter);
                }
            }
            i = i + 1;
        }
        proof {
            assert(listed.take(i as int) =~= listed);
            assert forall|node: NodeId| progress.deep_view().contains_key(node)
                <==> voters.deep_view().contains(node) by {
                assert(voters.deep_view().contains(node) <==> listed.contains(node));
            }
            assert(progress.deep_view() =~= Map::new(
                |voter: NodeId| self.content().configuration.voters().contains(voter),
                |voter: NodeId|
                    Progress {
                        match_index: if voter == self.content().id {
                            index
                        } else {
                            0
                        },
                        next_index: (index + 1) as u64,
                        snapshot_offset: None,
                    },
            ));
        }
        progress
    }

    fn become_leader(&mut self, actions: &mut Vec<Action>)
        requires
            sound(old(self).content()),
            old(self).content().log.last_index() + 1 < u64::MAX,
        ensures
            turn(*final(self), *final(actions)) == turn(*old(self), *old(actions)).leading(),
    {
        let ghost start = turn(*self, *actions);
        let ghost log = self.log.deep_view();
        let index: u64 = self.log.last_index() + 1;
        let entry = LogEntry {
            index,
            term: self.hard_state.current_term,
            payload: EntryPayload::Noop,
        };
        let progress = self.fresh_progress(index);
        self.role = Role::Leader;
        self.leader_id = Some(self.id);
        self.votes = OrdSet::new();
        self.pending_reads = OrdMap::new();
        self.log.append(entry.duplicate());
        self.progress = progress;
        // All voters count as active at first, so that the first check comes
        // only after they had the chance to answer.
        self.recent_active = self.configuration.voters().duplicate();
        let mut written: Vec<LogEntry> = Vec::new();
        written.push(entry);
        assert(written.deep_view() =~= seq![entry.deep_view()]);
        push(actions, Action::Persist(StorageMutation::Append(written)));
        push(
            actions,
            Action::RoleChanged { role: Role::Leader, term: self.hard_state.current_term },
        );
        push(actions, Action::ResetHeartbeatTimer);
        proof {
            last_index_counts(log);
            last_index_counts(self.log.deep_view());
        }
        self.advance_leader_commit(actions);
        self.broadcast_append(None, actions);
    }

    fn start_election(&mut self, term: u64, actions: &mut Vec<Action>)
        requires
            sound(old(self).content()),
            old(self).content().log.last_index() + 1 < u64::MAX,
        ensures
            turn(*final(self), *final(actions)) == turn(*old(self), *old(actions)).standing(term),
    {
        self.hard_state.current_term = term;
        self.hard_state.voted_for = Some(self.id);
        self.role = Role::Candidate;
        self.campaign_term = None;
        self.votes = OrdSet::new();
        self.votes.insert(self.id);
        push(actions, Action::Persist(StorageMutation::HardState(self.hard_state)));
        push(actions, Action::RoleChanged { role: Role::Candidate, term });
        push(actions, Action::ResetElectionTimer);
        if self.configuration.quorum(&self.votes) {
            self.become_leader(actions);
            return;
        }
        let request = Message::RequestVote {
            term,
            candidate_id: self.id,
            last_log_index: self.log.last_index(),
            last_log_term: self.log.last_term(),
        };
        self.send_to_all(&request, actions);
    }

    fn start_pre_vote(&mut self, actions: &mut Vec<Action>)
        requires
            sound(old(self).content()),
            old(self).content().log.last_index() + 1 < u64::MAX,
        ensures
            turn(*final(self), *final(actions)) == turn(*old(self), *old(actions)).campaigning(),
    {
        if self.hard_state.current_term == u64::MAX {
            push(actions, fatal("term counter exhausted"));
            return;
        }
        let prospective_term: u64 = self.hard_state.current_term + 1;
        self.role = Role::PreCandidate;
        self.leader_id = None;
        self.campaign_term = Some(prospective_term);
        self.votes = OrdSet::new();
        self.votes.insert(self.id);
        push(
            actions,
            Action::RoleChanged { role: Role::PreCandidate, term: self.hard_state.current_term },
        );
        push(actions, Action::ResetElectionTimer);
        if self.configuration.quorum(&self.votes) {
            self.start_election(prospective_term, actions);
            return;
        }
        let request = Message::PreVoteRequest {
            prospective_term,
            candidate_id: self.id,
            last_log_index: self.log.last_index(),
            last_log_term: self.log.last_term(),
        };
        self.send_to_all(&request, actions);
    }

    fn on_tick(&mut self, tick: Tick, actions: &mut Vec<Action>)
        requires
            sound(old(self).content()),
            old(self).content().log.last_index() + 1 < u64::MAX,
        ensures
            turn(*final(self), *final(actions)) == turn(*old(self), *old(actions)).ticked(tick),
    {
        match tick {
            Tick::Election => {
                if self.role != Role::Leader {
                    self.start_pre_vote(actions);
                }
            },
            Tick::Heartbeat => {
                if self.role == Role::Leader {
                    self.broadcast_append(None, actions);
                    push(actions, Action::ResetHeartbeatTimer);
                }
            },
            Tick::CheckQuorum => {
                if self.role == Role::Leader {
                    if self.configuration.quorum(&self.recent_active) {
                        self.recent_active = OrdSet::new();
                        self.recent_active.insert(self.id);
                        self.broadcast_append(None, actions);
                    } else {
                        let term = self.hard_state.current_term;
                        self.outdated(term, actions);
                    }
                }
            },
        }
    }

    fn on_pre_vote_request(
        &self,
        from: NodeId,
        prospective_term: u64,
        candidate_id: NodeId,
        last_log_index: u64,
        last_log_term: u64,
        actions: &mut Vec<Action>,
    )
        ensures
            turn(*self, *final(actions)) == turn(*self, *old(actions)).pre_vote_asked(
                from,
                prospective_term,
                candidate_id,
                last_log_index,
                last_log_term,
            ),
    {
        if candidate_id != from {
            return;
        }
        let granted = prospective_term > self.hard_state.current_term
            && self.candidate_log_is_up_to_date(last_log_index, last_log_term);
        push(
            actions,
            Action::Send {
                to: from,
                message: Message::PreVoteResponse {
                    responder_term: self.hard_state.current_term,
                    prospective_term,
                    granted,
                },
            },
        );
    }

    fn on_pre_vote_response(
        &mut self,
        from: NodeId,
        responder_term: u64,
        prospective_term: u64,
        granted: bool,
        actions: &mut Vec<Action>,
    )
        requires
            sound(old(self).content()),
            old(self).content().log.last_index() + 1 < u64::MAX,
        ensures
            turn(*final(self), *final(actions)) == turn(
                *old(self),
                *old(actions),
            ).pre_vote_answered(from, responder_term, prospective_term, granted),
    {
        if responder_term > self.hard_state.current_term {
            self.outdated(responder_term, actions);
            return;
        }
        if self.role != Role::PreCandidate || self.campaign_term != Some(prospective_term)
            || !granted {
            return;
        }
        self.votes.insert(from);
        if self.configuration.quorum(&self.votes) {
            self.start_election(prospective_term, actions);
        }
    }

    fn on_vote_request(
        &mut self,
        from: NodeId,
        term: u64,
        candidate_id: NodeId,
        last_log_index: u64,
        last_log_term: u64,
        actions: &mut Vec<Action>,
    )
        ensures
            turn(*final(self), *final(actions)) == turn(*old(self), *old(actions)).vote_asked(
                from,
                term,
                candidate_id,
                last_log_index,
                last_log_term,
            ),
    {
        if candidate_id != from {
            return;
        }
        if term > self.hard_state.current_term {
            self.become_follower(term, None, actions);
        }
        let free = match self.hard_state.voted_for {
            None => true,
            Some(voted_for) => voted_for == candidate_id,
        };
        let granted = term == self.hard_state.current_term && free
            && self.candidate_log_is_up_to_date(last_log_index, last_log_term);
        if granted {
            if self.hard_state.voted_for != Some(candidate_id) {
                self.hard_state.voted_for = Some(candidate_id);
                push(actions, Action::Persist(StorageMutation::HardState(self.hard_state)));
            }
            self.leader_id = None;
            push(actions, Action::ResetElectionTimer);
        }
        push(
            actions,
            Action::Send {
                to: from,
                message: Message::RequestVoteResponse {
                    term: self.hard_state.current_term,
                    granted,
                },
            },
        );
    }

    fn on_vote_response(
        &mut self,
        from: NodeId,
        term: u64,
        granted: bool,
        actions: &mut Vec<Action>,
    )
        requires
            sound(old(self).content()),
            old(self).content().log.last_index() + 1 < u64::MAX,
        ensures
            turn(*final(self), *final(actions)) == turn(*old(self), *old(actions)).vote_answered(
                from,
                term,
                granted,
            ),
    {
        if term > self.hard_state.current_term {
            self.outdated(term, actions);
            return;
        }
        if self.role != Role::Candidate || term != self.hard_state.current_term || !granted {
            return;
        }
        self.votes.insert(from);
        if self.configuration.quorum(&self.votes) {
            self.become_leader(actions);
        }
    }

    fn reject_append(
        &self,
        to: NodeId,
        read_context: Option<Vec<u8>>,
        conflict_index: u64,
        conflict_term: Option<u64>,
        actions: &mut Vec<Action>,
    )
        ensures
            turn(*self, *final(actions)) == turn(*self, *old(actions)).append_refused(
                to,
                read_context.deep_view(),
                conflict_index,
                conflict_term,
            ),
    {
        push(
            actions,
            Action::Send {
                to,
                message: Message::AppendEntriesResponse {
                    term: self.hard_state.current_term,
                    success: false,
                    match_index: 0,
                    conflict_index,
                    conflict_term,
                    read_context,
                },
            },
        );
    }

    pub(crate) fn follows(
        prev_log_index: u64,
        prev_log_term: u64,
        leader_term: u64,
        entries: &Vec<LogEntry>,
    ) -> (valid: bool)
        ensures
            valid == valid_entry_sequence(
                prev_log_index,
                prev_log_term,
                leader_term,
                entries.deep_view(),
            ),
    {
        let ghost view = entries.deep_view();
        let mut previous_term: u64 = prev_log_term;
        let mut i: usize = 0;
        while i < entries.len()
            invariant
                i <= entries@.len(),
                view == entries.deep_view(),
                prev_log_term <= previous_term,
                i > 0 ==> previous_term == view[i - 1].term,
                i == 0 ==> previous_term == prev_log_term,
                forall|j: int|
                    0 <= j < i ==> (#[trigger] view[j]).index == prev_log_index + 1 + j
                        && prev_log_term <= view[j].term <= leader_term && view[j].term
                        <= previous_term,
                forall|j: int, k: int|
                    0 <= j < k < i ==> (#[trigger] view[j]).term <= (#[trigger] view[k]).term,
            decreases entries@.len() - i,
        {
            let entry = &entries[i];
            assert(view[i as int] == entry.deep_view());
            if entry.index <= prev_log_index || entry.index - prev_log_index - 1 != i as u64
                || entry.term > leader_term || entry.term < previous_term {
                return false;
            }
            previous_term = entry.term;
            i = i + 1;
        }
        true
    }

    /// The first position whose entry the log does not hold.
    fn first_divergence(&self, entries: &Vec<LogEntry>) -> (position: usize)
        ensures
            position == divergence(self.content().log, entries.deep_view(), 0),
            position <= entries@.len(),
    {
        let ghost log = self.content().log;
        let ghost view = entries.deep_view();
        let mut position: usize = 0;
        while position < entries.len()
            invariant
                position <= entries@.len(),
                log == self.content().log,
                view == entries.deep_view(),
                divergence(log, view, 0) == divergence(log, view, position as int),
            decreases entries@.len() - position,
        {
            let entry = &entries[position];
            assert(view[position as int] == entry.deep_view());
            if self.log.term(entry.index) != Some(entry.term) {
                return position;
            }
            position = position + 1;
        }
        position
    }

    fn take_entries(
        &mut self,
        from: NodeId,
        prev_log_index: u64,
        prev_log_term: u64,
        leader_term: u64,
        entries: Vec<LogEntry>,
        leader_commit: u64,
        read_context: Option<Vec<u8>>,
        actions: &mut Vec<Action>,
    )
        requires
            sound(old(self).content()),
            prev_log_index + entries@.len() < u64::MAX,
            old(self).content().log.base_index <= prev_log_index <= old(
                self,
            ).content().log.last_index(),
            valid_entry_sequence(prev_log_index, prev_log_term, leader_term, entries.deep_view()),
        ensures
            turn(*final(self), *final(actions)) == turn(*old(self), *old(actions)).entries_taken(
                from,
                prev_log_index,
                entries.deep_view(),
                leader_commit,
                read_context.deep_view(),
            ),
    {
        let ghost start = turn(*self, *actions);
        let ghost log = self.log.deep_view();
        let ghost view = entries.deep_view();
        let position: usize = self.first_divergence(&entries);
        let matched: u64 = prev_log_index + entries.len() as u64;
        proof {
            last_index_counts(log);
            divergence_is_within(log, view, prev_log_index, prev_log_term, leader_term, 0);
        }
        if position < entries.len() {
            let index: u64 = entries[position].index;
            assert(view[position as int] == entries@[position as int].deep_view());
            if index <= self.hard_state.commit_index {
                push(
                    actions,
                    Action::Fatal {
                        reason: replacing_text(index),
                    },
                );
                return;
            }
            let suffix = copied_range(&entries, position, entries.len());
            assert(suffix.deep_view() =~= view.skip(position as int));
            let replacing = index <= self.log.last_index();
            self.log.truncate_and_append(index, &suffix);
            let mutation = if replacing {
                StorageMutation::TruncateAndAppend { from: index, entries: suffix }
            } else {
                StorageMutation::Append(suffix)
            };
            push(actions, Action::Persist(mutation));
            proof {
                replacing_keeps_contiguity(
                    log,
                    view,
                    prev_log_index,
                    prev_log_term,
                    leader_term,
                    position as int,
                );
                last_index_counts(self.log.deep_view());
            }
        }
        let new_commit: u64 = if leader_commit < matched {
            leader_commit
        } else {
            matched
        };
        self.set_commit(new_commit, actions);
        push(
            actions,
            Action::Send {
                to: from,
                message: Message::AppendEntriesResponse {
                    term: self.hard_state.current_term,
                    success: true,
                    match_index: matched,
                    conflict_index: 0,
                    conflict_term: None,
                    read_context,
                },
            },
        );
    }

    fn check_entries(
        &mut self,
        from: NodeId,
        term: u64,
        prev_log_index: u64,
        prev_log_term: u64,
        entries: Vec<LogEntry>,
        leader_commit: u64,
        read_context: Option<Vec<u8>>,
        actions: &mut Vec<Action>,
    )
        requires
            sound(old(self).content()),
            follows_on(
                old(self).content().log,
                prev_log_index,
                prev_log_term,
                term,
                entries.deep_view(),
            ) ==> prev_log_index + entries@.len() < u64::MAX,
        ensures
            turn(*final(self), *final(actions)) == turn(*old(self), *old(actions)).entries_checked(
                from,
                term,
                prev_log_index,
                prev_log_term,
                entries.deep_view(),
                leader_commit,
                read_context.deep_view(),
            ),
    {
        proof {
            last_index_counts(self.log.deep_view());
        }
        if prev_log_index < self.log.base_index() {
            let conflict_index: u64 = self.log.base_index() + 1;
            let conflict_term = Some(self.log.base_term());
            self.reject_append(from, read_context, conflict_index, conflict_term, actions);
            return;
        }
        let local_prev_term = match self.log.term(prev_log_index) {
            Some(term) => term,
            None => {
                let conflict_index: u64 = self.log.last_index() + 1;
                self.reject_append(from, read_context, conflict_index, None, actions);
                return;
            },
        };
        if local_prev_term != prev_log_term {
            let conflict_index: u64 = self.log.first_index_of_term(prev_log_index, local_prev_term);
            self.reject_append(
                from,
                read_context,
                conflict_index,
                Some(local_prev_term),
                actions,
            );
            return;
        }
        if !Self::follows(prev_log_index, prev_log_term, term, &entries) {
            self.reject_append(from, read_context, prev_log_index + 1, None, actions);
            return;
        }
        assert(prev_log_index + entries@.len() < u64::MAX) by {
            reveal(follows_on);
        }
        self.take_entries(
            from,
            prev_log_index,
            prev_log_term,
            term,
            entries,
            leader_commit,
            read_context,
            actions,
        );
    }

    fn on_append_entries(
        &mut self,
        from: NodeId,
        term: u64,
        leader_id: NodeId,
        prev_log_index: u64,
        prev_log_term: u64,
        entries: Vec<LogEntry>,
        leader_commit: u64,
        read_context: Option<Vec<u8>>,
        actions: &mut Vec<Action>,
    )
        requires
            sound(old(self).content()),
            leader_id == from && term >= old(self).content().hard_state.current_term && follows_on(
                old(self).content().log,
                prev_log_index,
                prev_log_term,
                term,
                entries.deep_view(),
            ) ==> prev_log_index + entries@.len() < u64::MAX,
        ensures
            turn(*final(self), *final(actions)) == turn(*old(self), *old(actions)).entries_received(
                from,
                term,
                leader_id,
                prev_log_index,
                prev_log_term,
                entries.deep_view(),
                leader_commit,
                read_context.deep_view(),
            ),
    {
        if leader_id != from {
            return;
        }
        if term < self.hard_state.current_term {
            let conflict_index: u64 = self.log.last_index() + 1;
            self.reject_append(from, read_context, conflict_index, None, actions);
            return;
        }
        self.become_follower(term, Some(from), actions);
        push(actions, Action::ResetElectionTimer);
        self.check_entries(
            from,
            term,
            prev_log_index,
            prev_log_term,
            entries,
            leader_commit,
            read_context,
            actions,
        );
    }

    fn acknowledge_read(&mut self, from: NodeId, context: &Vec<u8>, actions: &mut Vec<Action>)
        ensures
            turn(*final(self), *final(actions)) == turn(
                *old(self),
                *old(actions),
            ).read_acknowledged(from, context.deep_view()),
    {
        let ghost start = turn(*self, *actions);
        let ghost name = context.deep_view();
        let mut pending = match self.pending_reads.remove(context) {
            Some(pending) => pending,
            None => {
                proof {
                    assert(self.pending_reads.deep_view() =~= start.node.pending_reads);
                }
                return;
            },
        };
        pending.acknowledgements.insert(from);
        if self.configuration.quorum(&pending.acknowledgements) {
            push(
                actions,
                Action::ReadReady { context: context.duplicate(), index: pending.index },
            );
        } else {
            self.pending_reads.insert(context.duplicate(), pending);
            proof {
                assert(self.pending_reads.deep_view() =~= start.node.pending_reads.insert(
                    name,
                    pending.deep_view(),
                ));
            }
        }
    }

    /// Replaces what is known of a peer.
    fn set_progress(&mut self, peer: NodeId, progress: Progress)
        requires
            old(self).content().progress.contains_key(peer),
        ensures
            final(self).content() == (RaftView {
                progress: old(self).content().progress.insert(peer, progress),
                ..old(self).content()
            }),
    {
        self.progress.insert(peer, progress);
    }

    fn on_append_response(
        &mut self,
        from: NodeId,
        term: u64,
        success: bool,
        match_index: u64,
        conflict_index: u64,
        conflict_term: Option<u64>,
        read_context: Option<Vec<u8>>,
        actions: &mut Vec<Action>,
    )
        requires
            sound(old(self).content()),
        ensures
            turn(*final(self), *final(actions)) == turn(*old(self), *old(actions)).append_answered(
                from,
                term,
                success,
                match_index,
                conflict_index,
                conflict_term,
                read_context.deep_view(),
            ),
    {
        if term > self.hard_state.current_term {
            self.outdated(term, actions);
            return;
        }
        if self.role != Role::Leader || term != self.hard_state.current_term {
            return;
        }
        self.recent_active.insert(from);
        if let Some(context) = read_context {
            self.acknowledge_read(from, &context, actions);
        }
        let ghost middle = turn(*self, *actions);
        let known = match self.progress.get(&from) {
            Some(progress) => Some(*progress),
            None => None,
        };
        if success {
            if let Some(progress) = known {
                let next: u64 = if match_index == u64::MAX {
                    u64::MAX
                } else {
                    match_index + 1
                };
                self.set_progress(
                    from,
                    Progress {
                        match_index: larger(progress.match_index, match_index),
                        next_index: larger(progress.next_index, next),
                        snapshot_offset: None,
                    },
                );
            }
            self.advance_leader_commit(actions);
            if match_index < self.log.last_index() {
                self.send_append(from, None, actions);
            }
        } else {
            proof {
                if let Some(term) = conflict_term {
                    last_of_term_is_in_log(
                        self.log.deep_view(),
                        term,
                        self.log.deep_view().entries.len() as int,
                    );
                }
            }
            let hint: u64 = match conflict_term {
                Some(term) => match self.log.last_index_of_term(term) {
                    Some(index) => index + 1,
                    None => conflict_index,
                },
                None => conflict_index,
            };
            if let Some(progress) = known {
                let back: u64 = if progress.next_index <= 1 {
                    1
                } else {
                    progress.next_index - 1
                };
                self.set_progress(
                    from,
                    Progress {
                        match_index: progress.match_index,
                        next_index: smaller(larger(hint, 1), larger(back, 1)),
                        snapshot_offset: None,
                    },
                );
            }
            self.send_append(from, None, actions);
        }
    }

    fn propose(&mut self, id: CommandId, command: Vec<u8>, actions: &mut Vec<Action>)
        requires
            sound(old(self).content()),
            old(self).content().log.last_index() + 1 < u64::MAX,
        ensures
            turn(*final(self), *final(actions)) == turn(*old(self), *old(actions)).proposed(
                id,
                command@,
            ),
    {
        if self.role != Role::Leader {
            push(actions, Action::ProposalRejected { id, leader_hint: self.leader_id });
            return;
        }
        let ghost log = self.log.deep_view();
        let entry = LogEntry {
            index: self.log.last_index() + 1,
            term: self.hard_state.current_term,
            payload: EntryPayload::Command { id, bytes: command },
        };
        self.log.append(entry.duplicate());
        let own = match self.progress.get(&self.id) {
            Some(progress) => Some(*progress),
            None => None,
        };
        if let Some(progress) = own {
            let own_id = self.id;
            self.set_progress(
                own_id,
                Progress {
                    match_index: entry.index,
                    next_index: entry.index + 1,
                    snapshot_offset: progress.snapshot_offset,
                },
            );
        }
        let mut written: Vec<LogEntry> = Vec::new();
        written.push(entry);
        assert(written.deep_view() =~= seq![entry.deep_view()]);
        push(actions, Action::Persist(StorageMutation::Append(written)));
        proof {
            last_index_counts(log);
            last_index_counts(self.log.deep_view());
        }
        self.advance_leader_commit(actions);
        self.broadcast_append(None, actions);
    }

    fn read_index(&mut self, context: Vec<u8>, actions: &mut Vec<Action>)
        requires
            sound(old(self).content()),
        ensures
            turn(*final(self), *final(actions)) == turn(*old(self), *old(actions)).read_asked(
                context@,
            ),
    {
        if self.role != Role::Leader {
            push(actions, Action::ReadRejected { context, error: ReadError::NotLeader });
            return;
        }
        if context.len() == 0 || self.pending_reads.contains_key(&context) {
            push(actions, Action::ReadRejected { context, error: ReadError::InvalidContext });
            return;
        }
        if self.log.term(self.hard_state.commit_index) != Some(self.hard_state.current_term) {
            push(actions, Action::ReadRejected { context, error: ReadError::LeaderNotReady });
            return;
        }
        let mut acknowledgements: OrdSet<NodeId> = OrdSet::new();
        acknowledgements.insert(self.id);
        let index = self.hard_state.commit_index;
        if self.configuration.quorum(&acknowledgements) {
            push(actions, Action::ReadReady { context, index });
            return;
        }
        self.pending_reads.insert(context.duplicate(), PendingRead { index, acknowledgements });
        self.broadcast_append(Some(context), actions);
    }

    fn snapshot_built(&mut self, snapshot: PersistentSnapshot, actions: &mut Vec<Action>)
        requires
            sound(old(self).content()),
        ensures
            turn(*final(self), *final(actions)) == turn(*old(self), *old(actions)).snapshot_built(
                snapshot.deep_view(),
            ),
    {
        let metadata = &snapshot.metadata;
        let index = metadata.last_included_index;
        let term = metadata.last_included_term;
        let valid = snapshot.validate() && metadata.configuration.same(&self.configuration)
            && index >= self.log.base_index() && index <= self.applied_index && self.log.term(index)
            == Some(term);
        if !valid {
            push(
                actions,
                Action::SnapshotRejected {
                    reason: "snapshot hash, membership, or applied log boundary is invalid".to_owned(),
                },
            );
            return;
        }
        proof {
            last_index_counts(self.log.deep_view());
        }
        self.log.compact(index, term, true);
        let retained_entries = self.log.all_entries();
        self.snapshot = Some(snapshot.duplicate());
        push(
            actions,
            Action::Persist(StorageMutation::CompactSnapshot { snapshot, retained_entries }),
        );
    }

    fn snapshot_reply(
        &self,
        to: NodeId,
        accepted: bool,
        next_offset: u64,
        done: bool,
        match_index: u64,
        actions: &mut Vec<Action>,
    )
        ensures
            turn(*self, *final(actions)) == turn(*self, *old(actions)).snapshot_reply(
                to,
                accepted,
                next_offset,
                done,
                match_index,
            ),
    {
        push(
            actions,
            Action::Send {
                to,
                message: Message::InstallSnapshotResponse {
                    term: self.hard_state.current_term,
                    accepted,
                    next_offset,
                    done,
                    match_index,
                },
            },
        );
    }

    fn install(
        &mut self,
        from: NodeId,
        metadata: SnapshotMetadata,
        data: Vec<u8>,
        actions: &mut Vec<Action>,
    )
        requires
            sound(old(self).content()),
            metadata.last_included_index > old(self).content().applied_index,
        ensures
            turn(*final(self), *final(actions)) == turn(
                *old(self),
                *old(actions),
            ).snapshot_installed(
                from,
                (PersistentSnapshotView { metadata: metadata.deep_view(), data: data@ }),
            ),
    {
        let index = metadata.last_included_index;
        let term = metadata.last_included_term;
        let byte_len = metadata.byte_len;
        let snapshot = PersistentSnapshot { metadata, data };
        let retain_suffix = self.log.term(index) == Some(term);
        proof {
            last_index_counts(self.log.deep_view());
        }
        self.log.compact(index, term, retain_suffix);
        self.incoming_snapshot = None;
        self.snapshot = Some(snapshot.duplicate());
        self.hard_state.commit_index = larger(self.hard_state.commit_index, index);
        self.applied_index = index;
        let retained_entries = self.log.all_entries();
        push(
            actions,
            Action::Persist(
                StorageMutation::InstallSnapshot {
                    snapshot,
                    retained_entries,
                    hard_state: self.hard_state,
                },
            ),
        );
        self.snapshot_reply(from, true, byte_len, true, index, actions);
    }

    fn take_chunk(
        &mut self,
        from: NodeId,
        incoming: IncomingSnapshot,
        offset: u64,
        data: Vec<u8>,
        done: bool,
        actions: &mut Vec<Action>,
    )
        requires
            sound(old(self).content()),
            old(self).content().incoming_snapshot is None,
            incoming.metadata.last_included_index > old(self).content().applied_index,
            incoming.metadata.byte_len <= MAX_SNAPSHOT_BYTES,
        ensures
            turn(*final(self), *final(actions)) == (Turn {
                node: RaftView {
                    incoming_snapshot: Some(incoming.deep_view()),
                    ..old(self).content()
                },
                actions: old(actions).deep_view(),
            }).chunk_taken(from, incoming.deep_view(), offset, data@, done),
    {
        let ghost view = incoming.deep_view();
        let expected: u64 = incoming.data.len() as u64;
        if offset < expected {
            let start: usize = offset as usize;
            let same = data.len() <= incoming.data.len() - start && copied_bytes(
                &incoming.data,
                start,
                start + data.len(),
            ).same(&data);
            self.incoming_snapshot = Some(incoming);
            self.snapshot_reply(from, same, expected, false, 0, actions);
            return;
        }
        if offset != expected || expected > incoming.metadata.byte_len || data.len() as u64
            > incoming.metadata.byte_len - expected {
            self.incoming_snapshot = Some(incoming);
            self.snapshot_reply(from, false, expected, false, 0, actions);
            return;
        }
        let mut incoming = incoming;
        put_bytes(&mut incoming.data, data.as_slice());
        let next_offset: u64 = incoming.data.len() as u64;
        if !done {
            self.incoming_snapshot = Some(incoming);
            self.snapshot_reply(from, true, next_offset, false, 0, actions);
            return;
        }
        let digest = sha256_digest(incoming.data.as_slice());
        if next_offset != incoming.metadata.byte_len || !digest.same(&incoming.metadata.sha256) {
            self.snapshot_reply(from, false, 0, false, 0, actions);
            return;
        }
        self.install(from, incoming.metadata, incoming.data, actions);
    }

    fn check_chunk(
        &mut self,
        from: NodeId,
        metadata: SnapshotMetadata,
        offset: u64,
        data: Vec<u8>,
        done: bool,
        actions: &mut Vec<Action>,
    )
        requires
            sound(old(self).content()),
        ensures
            turn(*final(self), *final(actions)) == turn(*old(self), *old(actions)).chunk_checked(
                from,
                metadata.deep_view(),
                offset,
                data@,
                done,
            ),
    {
        if !metadata.configuration.same(&self.configuration) || metadata.byte_len
            > MAX_SNAPSHOT_BYTES || metadata.last_included_index == 0 {
            self.incoming_snapshot = None;
            self.snapshot_reply(from, false, 0, false, 0, actions);
            return;
        }
        if metadata.last_included_index <= self.applied_index {
            self.snapshot_reply(
                from,
                true,
                metadata.byte_len,
                true,
                metadata.last_included_index,
                actions,
            );
            return;
        }
        let ghost start = turn(*self, *actions);
        let ghost wanted = metadata.deep_view();
        let same_transfer = match &self.incoming_snapshot {
            Some(incoming) => incoming.metadata.same(&metadata),
            None => false,
        };
        if offset == 0 && !same_transfer {
            let fresh: Vec<u8> = Vec::new();
            assert(fresh@ =~= Seq::empty());
            self.incoming_snapshot = Some(IncomingSnapshot { metadata, data: fresh });
        } else if !same_transfer {
            self.snapshot_reply(from, false, 0, false, 0, actions);
            return;
        }
        let mut transfer: Option<IncomingSnapshot> = None;
        std::mem::swap(&mut transfer, &mut self.incoming_snapshot);
        match transfer {
            Some(incoming) => {
                self.take_chunk(from, incoming, offset, data, done, actions);
            },
            None => {},
        }
    }

    fn on_install_snapshot(
        &mut self,
        from: NodeId,
        term: u64,
        leader_id: NodeId,
        metadata: SnapshotMetadata,
        offset: u64,
        data: Vec<u8>,
        done: bool,
        actions: &mut Vec<Action>,
    )
        requires
            sound(old(self).content()),
        ensures
            turn(*final(self), *final(actions)) == turn(*old(self), *old(actions)).chunk_received(
                from,
                term,
                leader_id,
                metadata.deep_view(),
                offset,
                data@,
                done,
            ),
    {
        if leader_id != from {
            return;
        }
        if term < self.hard_state.current_term {
            self.snapshot_reply(from, false, 0, false, 0, actions);
            return;
        }
        self.become_follower(term, Some(from), actions);
        push(actions, Action::ResetElectionTimer);
        self.check_chunk(from, metadata, offset, data, done, actions);
    }

    fn on_snapshot_response(
        &mut self,
        from: NodeId,
        term: u64,
        accepted: bool,
        next_offset: u64,
        done: bool,
        match_index: u64,
        actions: &mut Vec<Action>,
    )
        requires
            sound(old(self).content()),
            old(self).content().role == Role::Leader && term == old(
                self,
            ).content().hard_state.current_term && old(self).content().progress.contains_key(from)
                && done && accepted ==> match_index < u64::MAX,
        ensures
            turn(*final(self), *final(actions)) == turn(*old(self), *old(actions)).chunk_answered(
                from,
                term,
                accepted,
                next_offset,
                done,
                match_index,
            ),
    {
        if term > self.hard_state.current_term {
            self.outdated(term, actions);
            return;
        }
        if self.role != Role::Leader || term != self.hard_state.current_term {
            return;
        }
        self.recent_active.insert(from);
        let progress = match self.progress.get(&from) {
            Some(progress) => *progress,
            None => return,
        };
        if done && accepted {
            self.set_progress(
                from,
                Progress {
                    match_index: larger(progress.match_index, match_index),
                    next_index: larger(progress.next_index, match_index + 1),
                    snapshot_offset: None,
                },
            );
            self.advance_leader_commit(actions);
        } else {
            let offset: u64 = if accepted {
                next_offset
            } else {
                0
            };
            self.set_progress(
                from,
                Progress {
                    match_index: progress.match_index,
                    next_index: progress.next_index,
                    snapshot_offset: Some(offset),
                },
            );
        }
        self.send_append(from, None, actions);
    }

    fn on_message(&mut self, from: NodeId, message: Message, actions: &mut Vec<Action>)
        requires
            sound(old(self).content()),
            old(self).content().has_room((InputView::Message { from, message: message.deep_view() })),
        ensures
            turn(*final(self), *final(actions)) == turn(*old(self), *old(actions)).received(
                from,
                message.deep_view(),
            ),
    {
        proof {
            reveal(Turn::received);
        }
        if !self.configuration.contains(from) || from == self.id {
            return;
        }
        match message {
            Message::PreVoteRequest {
                prospective_term,
                candidate_id,
                last_log_index,
                last_log_term,
            } => self.on_pre_vote_request(
                from,
                prospective_term,
                candidate_id,
                last_log_index,
                last_log_term,
                actions,
            ),
            Message::PreVoteResponse { responder_term, prospective_term, granted } => {
                self.on_pre_vote_response(from, responder_term, prospective_term, granted, actions)
            },
            Message::RequestVote { term, candidate_id, last_log_index, last_log_term } => {
                self.on_vote_request(
                    from,
                    term,
                    candidate_id,
                    last_log_index,
                    last_log_term,
                    actions,
                )
            },
            Message::RequestVoteResponse { term, granted } => self.on_vote_response(
                from,
                term,
                granted,
                actions,
            ),
            Message::AppendEntries {
                term,
                leader_id,
                prev_log_index,
                prev_log_term,
                entries,
                leader_commit,
                read_context,
            } => {
                proof {
                    reveal(RaftView::entries_fit);
                }
                self.on_append_entries(
                    from,
                    term,
                    leader_id,
                    prev_log_index,
                    prev_log_term,
                    entries,
                    leader_commit,
                    read_context,
                    actions,
                )
            },
            Message::AppendEntriesResponse {
                term,
                success,
                match_index,
                conflict_index,
                conflict_term,
                read_context,
            } => self.on_append_response(
                from,
                term,
                success,
                match_index,
                conflict_index,
                conflict_term,
                read_context,
                actions,
            ),
            Message::InstallSnapshot { term, leader_id, metadata, offset, data, done } => {
                self.on_install_snapshot(
                    from,
                    term,
                    leader_id,
                    metadata,
                    offset,
                    data,
                    done,
                    actions,
                )
            },
            Message::InstallSnapshotResponse {
                term,
                accepted,
                next_offset,
                done,
                match_index,
            } => {
                proof {
                    reveal(RaftView::answer_fits);
                }
                self.on_snapshot_response(
                    from,
                    term,
                    accepted,
                    next_offset,
                    done,
                    match_index,
                    actions,
                )
            },
        }
    }

    pub(crate) fn step(&mut self, input: Input) -> (actions: Vec<Action>)
        requires
            sound(old(self).content()),
            old(self).content().has_room(input.deep_view()),
        ensures
            turn(*final(self), actions) == old(self).content().stepped(input.deep_view()),
    {
        let mut actions: Vec<Action> = Vec::new();
        assert(actions.deep_view() =~= Seq::empty());
        proof {
            applying_keeps_room(turn(*self, actions), input.deep_view());
        }
        // What was committed before a restart may still have to be applied.
        self.apply_committed(&mut actions);
        match input {
            Input::Tick(tick) => self.on_tick(tick, &mut actions),
            Input::Message { from, message } => self.on_message(from, message, &mut actions),
            Input::Propose { id, command } => self.propose(id, command, &mut actions),
            Input::ReadIndex { context } => self.read_index(context, &mut actions),
            Input::SnapshotBuilt(snapshot) => self.snapshot_built(snapshot, &mut actions),
        }
        actions
    }
}

fn larger(a: u64, b: u64) -> (c: u64)
    ensures
        c == most(a, b),
{
    if a < b {
        b
    } else {
        a
    }
}

fn smaller(a: u64, b: u64) -> (c: u64)
    ensures
        c == least(a, b),
{
    if a < b {
        a
    } else {
        b
    }
}

/// Entries that follow on the log diverge from it at the latest where it ends.
pub proof fn divergence_is_within(
    log: LogView,
    entries: Seq<LogEntryView>,
    prev_log_index: u64,
    prev_log_term: u64,
    leader_term: u64,
    i: int,
)
    requires
        log.contiguous(),
        log.base_index <= prev_log_index <= log.last_index(),
        valid_entry_sequence(prev_log_index, prev_log_term, leader_term, entries),
        0 <= i <= entries.len(),
        prev_log_index + i <= log.last_index(),
    ensures
        i <= divergence(log, entries, i) <= entries.len(),
        prev_log_index + divergence(log, entries, i) <= log.last_index(),
        forall|j: int|
            i <= j < divergence(log, entries, i) ==> log.term((#[trigger] entries[j]).index)
                == Some(entries[j].term),
    decreases entries.len() - i,
{
    last_index_counts(log);
    if i < entries.len() && log.term(entries[i].index) == Some(entries[i].term) {
        divergence_is_within(log, entries, prev_log_index, prev_log_term, leader_term, i + 1);
    }
}

/// Entries that follow on the log keep it contiguous when they replace its end.
pub proof fn replacing_keeps_contiguity(
    log: LogView,
    entries: Seq<LogEntryView>,
    prev_log_index: u64,
    prev_log_term: u64,
    leader_term: u64,
    position: int,
)
    requires
        log.contiguous(),
        log.base_index <= prev_log_index,
        valid_entry_sequence(prev_log_index, prev_log_term, leader_term, entries),
        0 <= position < entries.len(),
        prev_log_index + position <= log.last_index(),
        prev_log_index + entries.len() < u64::MAX,
    ensures
        log.replaced_from(entries[position].index, entries.skip(position)).contiguous(),
        log.replaced_from(entries[position].index, entries.skip(position)).last_index()
            == prev_log_index + entries.len(),
{
    last_index_counts(log);
    let index = entries[position].index;
    let suffix = entries.skip(position);
    let replaced = log.replaced_from(index, suffix);
    let kept = index - log.base_index - 1;
    assert(replaced.entries.len() == kept + suffix.len());
    assert forall|i: int| 0 <= i < replaced.entries.len() implies (
    #[trigger] replaced.entries[i]).index == replaced.base_index + 1 + i by {
        if i < kept {
            assert(replaced.entries[i] == log.entries[i]);
        } else {
            assert(replaced.entries[i] == entries[position + i - kept]);
        }
    }
    last_index_counts(replaced);
}

} // verus!
