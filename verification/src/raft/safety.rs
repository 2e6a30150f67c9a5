//! What holds of a whole cluster, whatever its network does.

use vstd::prelude::*;
use crate::raft::configuration::{ConfigurationView, quorum_grows, quorums_intersect};
use crate::raft::elections::{given_votes_are_stored, leaders_are_elected, vote_given, winning_votes};
use crate::raft::laws::{step_keeps_invariant, step_undoes_nothing, succeeds};
use crate::raft::log::{LogView, stored_log};
use crate::raft::machine::recovered;
use crate::raft::matching::{bringing_forward_keeps_node, sending_keeps_node};
use crate::raft::state::{PendingReadView, Progress, RaftView, Turn};
use crate::raft::types::{
    ActionView, CommandId, EntryPayloadView, HardState, InputView, LogEntryView, MessageView, Role,
    SnapshotMetadataView, StorageMutationView, Tick,
};
use crate::types::NodeId;

verus! {

/// How a step changes the role of a node: a leader that still leads does so in
/// its term; a new one was a candidate in the term, or the term is new; a
/// candidate has just voted for itself in a new term, or has counted at most the
/// vote that has come.
pub open spec fn role_step(before: RaftView, input: InputView, after: RaftView) -> bool {
    let term = before.hard_state.current_term;
    match after.role {
        Role::Leader => {
            ||| (before.role == Role::Leader || before.role == Role::Candidate)
                && after.hard_state.current_term == term
            ||| before.role != Role::Leader && after.hard_state.current_term > term
        },
        Role::Candidate => {
            ||| after.votes == set![before.id] && after.hard_state.voted_for == Some(before.id)
                && after.hard_state.current_term > term
            ||| {
                &&& before.role == Role::Candidate
                &&& after.hard_state.current_term == term
                &&& {
                    ||| after.votes == before.votes
                    ||| input matches InputView::Message {
                        from,
                        message: MessageView::RequestVoteResponse { term: answered, granted },
                    } && granted && answered == term && after.votes == before.votes.insert(from)
                }
            }
        },
        _ => true,
    }
}

proof fn leading_leads(turn: Turn)
    ensures
        turn.leading().node.role == Role::Leader,
        turn.leading().node.hard_state.current_term == turn.node.hard_state.current_term,
{
    let entry = LogEntryView {
        index: (turn.node.log.last_index() + 1) as u64,
        term: turn.node.hard_state.current_term,
        payload: EntryPayloadView::Noop,
    };
    let id = turn.node.id;
    let voters = turn.node.configuration.voters();
    let begun = Turn {
        node: RaftView {
            role: Role::Leader,
            leader_id: Some(id),
            votes: Set::empty(),
            pending_reads: Map::empty(),
            log: turn.node.log.appended(seq![entry]),
            progress: Map::new(
                |voter: NodeId| voters.contains(voter),
                |voter: NodeId|
                    Progress {
                        match_index: if voter == id {
                            entry.index
                        } else {
                            0
                        },
                        next_index: (entry.index + 1) as u64,
                        snapshot_offset: None,
                    },
            ),
            recent_active: voters,
            ..turn.node
        },
        ..turn
    }.act(
        ActionView::Persist(StorageMutationView::Append(seq![entry])),
    ).act(ActionView::RoleChanged { role: Role::Leader, term: entry.term }).act(
        ActionView::ResetHeartbeatTimer,
    );
    bringing_forward_keeps_node(
        begun.advanced(),
        None,
        begun.advanced().node.peers().len() as int,
    );
    assert(turn.leading() == begun.advanced().broadcast(None));
}

/// A node that stands for election leads, or is a candidate with its own vote.
proof fn standing_votes_for_itself(turn: Turn, term: u64)
    ensures
        ({
            let after = turn.standing(term).node;
            after.hard_state.current_term == term && (after.role == Role::Leader || (after.role
                == Role::Candidate && after.votes == set![turn.node.id]
                && after.hard_state.voted_for == Some(turn.node.id)))
        }),
{
    let asked = Turn {
        node: RaftView {
            hard_state: HardState {
                current_term: term,
                voted_for: Some(turn.node.id),
                ..turn.node.hard_state
            },
            role: Role::Candidate,
            campaign_term: None,
            votes: set![turn.node.id],
            ..turn.node
        },
        ..turn
    }.persist_hard_state().act(ActionView::RoleChanged { role: Role::Candidate, term }).act(
        ActionView::ResetElectionTimer,
    );
    leading_leads(asked);
    sending_keeps_node(
        asked,
        MessageView::RequestVote {
            term,
            candidate_id: asked.node.id,
            last_log_index: asked.node.log.last_index(),
            last_log_term: asked.node.log.last_term(),
        },
        asked.node.peers().len() as int,
    );
}

proof fn ticking_changes_roles(turn: Turn, tick: Tick)
    ensures
        role_step(turn.node, InputView::Tick(tick), turn.ticked(tick).node),
{
    match tick {
        Tick::Election => {
            if turn.node.role != Role::Leader && turn.node.hard_state.current_term < u64::MAX {
                let prospective_term = (turn.node.hard_state.current_term + 1) as u64;
                let asked = Turn {
                    node: RaftView {
                        role: Role::PreCandidate,
                        leader_id: None,
                        campaign_term: Some(prospective_term),
                        votes: set![turn.node.id],
                        ..turn.node
                    },
                    ..turn
                }.act(
                    ActionView::RoleChanged {
                        role: Role::PreCandidate,
                        term: turn.node.hard_state.current_term,
                    },
                ).act(ActionView::ResetElectionTimer);
                standing_votes_for_itself(asked, prospective_term);
                sending_keeps_node(
                    asked,
                    MessageView::PreVoteRequest {
                        prospective_term,
                        candidate_id: asked.node.id,
                        last_log_index: asked.node.log.last_index(),
                        last_log_term: asked.node.log.last_term(),
                    },
                    asked.node.peers().len() as int,
                );
            }
        },
        Tick::Heartbeat => {
            bringing_forward_keeps_node(turn, None, turn.node.peers().len() as int);
        },
        Tick::CheckQuorum => {
            let checked = Turn {
                node: RaftView { recent_active: set![turn.node.id], ..turn.node },
                ..turn
            };
            bringing_forward_keeps_node(checked, None, checked.node.peers().len() as int);
        },
    }
}

proof fn proposing_keeps_role(turn: Turn, id: CommandId, command: Seq<u8>)
    ensures
        ({
            let after = turn.proposed(id, command).node;
            after.role == turn.node.role && after.hard_state.current_term
                == turn.node.hard_state.current_term && after.votes == turn.node.votes
        }),
{
    if turn.node.role == Role::Leader {
        let entry = LogEntryView {
            index: (turn.node.log.last_index() + 1) as u64,
            term: turn.node.hard_state.current_term,
            payload: EntryPayloadView::Command { id, bytes: command },
        };
        let written = Turn {
            node: RaftView { log: turn.node.log.appended(seq![entry]), ..turn.node },
            ..turn
        }.with_progress(
            turn.node.id,
            Progress {
                match_index: entry.index,
                next_index: (entry.index + 1) as u64,
                ..turn.node.progress[turn.node.id]
            },
        ).act(ActionView::Persist(StorageMutationView::Append(seq![entry])));
        bringing_forward_keeps_node(
            written.advanced(),
            None,
            written.advanced().node.peers().len() as int,
        );
    }
}

proof fn asking_to_read_keeps_role(turn: Turn, context: Seq<u8>)
    ensures
        ({
            let after = turn.read_asked(context).node;
            after.role == turn.node.role && after.hard_state == turn.node.hard_state && after.votes
                == turn.node.votes
        }),
{
    let waiting = Turn {
        node: RaftView {
            pending_reads: turn.node.pending_reads.insert(
                context,
                PendingReadView {
                    index: turn.node.hard_state.commit_index,
                    acknowledgements: set![turn.node.id],
                },
            ),
            ..turn.node
        },
        ..turn
    };
    bringing_forward_keeps_node(waiting, Some(context), waiting.node.peers().len() as int);
}

/// A node follows, or is what it was in the same term.
spec fn steady(before: RaftView, after: RaftView) -> bool {
    ||| after.role == Role::Follower
    ||| after.role == before.role && after.hard_state.current_term
        == before.hard_state.current_term && after.votes == before.votes
}

proof fn receiving_entries_is_steady(
    turn: Turn,
    from: NodeId,
    term: u64,
    leader_id: NodeId,
    prev_log_index: u64,
    prev_log_term: u64,
    entries: Seq<LogEntryView>,
    leader_commit: u64,
    read_context: Option<Seq<u8>>,
)
    ensures
        steady(
            turn.node,
            turn.entries_received(
                from,
                term,
                leader_id,
                prev_log_index,
                prev_log_term,
                entries,
                leader_commit,
                read_context,
            ).node,
        ),
{
}

proof fn answered_entries_are_steady(
    turn: Turn,
    from: NodeId,
    term: u64,
    success: bool,
    match_index: u64,
    conflict_index: u64,
    conflict_term: Option<u64>,
    read_context: Option<Seq<u8>>,
)
    ensures
        steady(
            turn.node,
            turn.append_answered(
                from,
                term,
                success,
                match_index,
                conflict_index,
                conflict_term,
                read_context,
            ).node,
        ),
{
}

proof fn receiving_chunks_is_steady(
    turn: Turn,
    from: NodeId,
    term: u64,
    leader_id: NodeId,
    metadata: SnapshotMetadataView,
    offset: u64,
    data: Seq<u8>,
    done: bool,
)
    ensures
        steady(
            turn.node,
            turn.chunk_received(from, term, leader_id, metadata, offset, data, done).node,
        ),
{
}

proof fn answered_chunks_are_steady(
    turn: Turn,
    from: NodeId,
    term: u64,
    accepted: bool,
    next_offset: u64,
    done: bool,
    match_index: u64,
)
    ensures
        steady(
            turn.node,
            turn.chunk_answered(from, term, accepted, next_offset, done, match_index).node,
        ),
{
}

proof fn asked_votes_are_steady(
    turn: Turn,
    from: NodeId,
    term: u64,
    candidate_id: NodeId,
    last_log_index: u64,
    last_log_term: u64,
)
    ensures
        steady(
            turn.node,
            turn.vote_asked(from, term, candidate_id, last_log_index, last_log_term).node,
        ),
{
}

proof fn receiving_changes_roles(turn: Turn, from: NodeId, message: MessageView)
    requires
        turn.node.campaign_term matches Some(term) ==> term > turn.node.hard_state.current_term,
    ensures
        role_step(
            turn.node,
            InputView::Message { from, message },
            turn.received(from, message).node,
        ),
{
    reveal(Turn::received);
    match message {
        MessageView::PreVoteResponse { prospective_term, .. } => {
            let counted = Turn {
                node: RaftView { votes: turn.node.votes.insert(from), ..turn.node },
                ..turn
            };
            standing_votes_for_itself(counted, prospective_term);
        },
        MessageView::RequestVoteResponse { .. } => {
            let counted = Turn {
                node: RaftView { votes: turn.node.votes.insert(from), ..turn.node },
                ..turn
            };
            leading_leads(counted);
        },
        MessageView::PreVoteRequest { .. } => {},
        MessageView::RequestVote { term, candidate_id, last_log_index, last_log_term } => {
            asked_votes_are_steady(turn, from, term, candidate_id, last_log_index, last_log_term);
        },
        MessageView::AppendEntries {
            term,
            leader_id,
            prev_log_index,
            prev_log_term,
            entries,
            leader_commit,
            read_context,
        } => {
            receiving_entries_is_steady(
                turn,
                from,
                term,
                leader_id,
                prev_log_index,
                prev_log_term,
                entries,
                leader_commit,
                read_context,
            );
        },
        MessageView::AppendEntriesResponse {
            term,
            success,
            match_index,
            conflict_index,
            conflict_term,
            read_context,
        } => {
            answered_entries_are_steady(
                turn,
                from,
                term,
                success,
                match_index,
                conflict_index,
                conflict_term,
                read_context,
            );
        },
        MessageView::InstallSnapshot { term, leader_id, metadata, offset, data, done } => {
            receiving_chunks_is_steady(
                turn,
                from,
                term,
                leader_id,
                metadata,
                offset,
                data,
                done,
            );
        },
        MessageView::InstallSnapshotResponse {
            term,
            accepted,
            next_offset,
            done,
            match_index,
        } => {
            answered_chunks_are_steady(
                turn,
                from,
                term,
                accepted,
                next_offset,
                done,
                match_index,
            );
        },
    }
}

proof fn stepping_changes_roles(node: RaftView, input: InputView)
    requires
        node.well_formed(),
    ensures
        role_step(node, input, node.stepped(input).node),
{
    let turn = Turn { node, actions: Seq::empty() }.applied();
    match input {
        InputView::Tick(tick) => {
            ticking_changes_roles(turn, tick);
        },
        InputView::Propose { id, command } => {
            proposing_keeps_role(turn, id, command);
        },
        InputView::ReadIndex { context } => {
            asking_to_read_keeps_role(turn, context);
        },
        InputView::SnapshotBuilt(_) => {},
        InputView::Message { from, message } => {
            receiving_changes_roles(turn, from, message);
        },
    }
}

/// A step of a node.
#[verifier::opaque]
pub open spec fn turn_of(node: RaftView, input: InputView) -> Turn {
    node.stepped(input)
}

pub(crate) proof fn turns_undo_nothing(node: RaftView, input: InputView)
    requires
        node.well_formed(),
        node.has_room(input),
    ensures
        turn_of(node, input).node.well_formed(),
        succeeds(node, turn_of(node, input).node),
{
    reveal(turn_of);
    step_keeps_invariant(node, input);
    step_undoes_nothing(node, input);
}

pub(crate) proof fn turns_change_roles(node: RaftView, input: InputView)
    requires
        node.well_formed(),
    ensures
        role_step(node, input, turn_of(node, input).node),
{
    reveal(turn_of);
    stepping_changes_roles(node, input);
}

/// How a node has become leader.
spec fn elected_so(node: RaftView, input: InputView, after: RaftView) -> bool {
    &&& node.configuration.quorum(winning_votes(node, input))
    &&& match input {
        InputView::Message { from, message } => match message {
            MessageView::RequestVoteResponse { term, granted } => {
                &&& node.role == Role::Candidate
                &&& granted
                &&& term == node.hard_state.current_term
                &&& after.hard_state.current_term == term
            },
            _ => after.hard_state.voted_for == Some(node.id),
        },
        _ => after.hard_state.voted_for == Some(node.id),
    }
}

proof fn turns_elect_leaders(node: RaftView, input: InputView)
    requires
        node.well_formed(),
        node.role != Role::Leader,
        turn_of(node, input).node.role == Role::Leader,
    ensures
        elected_so(node, input, turn_of(node, input).node),
{
    reveal(turn_of);
    leaders_are_elected(node, input);
}

proof fn turns_store_votes(node: RaftView, input: InputView, i: int)
    requires
        node.well_formed(),
        0 <= i < turn_of(node, input).actions.len(),
        vote_given(turn_of(node, input).actions[i]) is Some,
    ensures
        vote_given(turn_of(node, input).actions[i]) == Some(
            (
                turn_of(node, input).node.hard_state.voted_for->0,
                turn_of(node, input).node.hard_state.current_term,
            ),
        ),
        turn_of(node, input).node.hard_state.voted_for is Some,
{
    reveal(turn_of);
    given_votes_are_stored(node, input, i);
}

/// A message that was sent, with the log of its sender at that time.
pub struct Sent {
    pub from: NodeId,
    pub to: NodeId,
    pub message: MessageView,
    pub log: LogView,
}

/// A cluster, with what has happened in it: every message that was ever sent, how
/// each node has voted in each term, who has led each term, and up to which index
/// the leader of each term has written. The network may lose, repeat, delay and
/// reorder messages.
pub struct World {
    pub configuration: ConfigurationView,
    pub nodes: Map<NodeId, RaftView>,
    pub sent: Set<Sent>,
    pub votes: Map<(NodeId, u64), NodeId>,
    pub leaders: Map<u64, NodeId>,
    pub written: Map<u64, u64>,
}

impl World {
    /// An input can reach a node: a message only if it was sent to the node.
    pub open spec fn can_step(self, id: NodeId, input: InputView) -> bool {
        &&& self.nodes.contains_key(id)
        &&& self.nodes[id].has_room(input)
        &&& input matches InputView::Message { from, message } ==> exists|log: LogView|
            #[trigger] self.sent.contains(Sent { from, to: id, message, log })
    }

    /// The cluster after a node has taken an input.
    pub open spec fn stepped(self, id: NodeId, input: InputView) -> World {
        let turn = turn_of(self.nodes[id], input);
        let after = turn.node;
        let term = after.hard_state.current_term;
        World {
            nodes: self.nodes.insert(id, after),
            sent: self.sent.union(sent_by(id, turn)),
            votes: match after.hard_state.voted_for {
                Some(candidate) => self.votes.insert((id, term), candidate),
                None => self.votes,
            },
            leaders: if after.role == Role::Leader {
                self.leaders.insert(term, id)
            } else {
                self.leaders
            },
            written: if after.role == Role::Leader {
                self.written.insert(term, after.log.last_index())
            } else {
                self.written
            },
            ..self
        }
    }

    /// The cluster after a node has started again from what it had stored.
    pub open spec fn restarted(self, id: NodeId) -> World {
        World {
            nodes: self.nodes.insert(
                id,
                recovered(id, self.configuration, self.nodes[id].stable()),
            ),
            ..self
        }
    }

    /// For whom a node has voted in a term.
    pub open spec fn vote_of(self, voter: NodeId, term: u64) -> Option<NodeId> {
        if self.votes.contains_key((voter, term)) {
            Some(self.votes[(voter, term)])
        } else {
            None
        }
    }

    /// Who has voted for a candidate in a term.
    pub open spec fn supporters(self, term: u64, candidate: NodeId) -> Set<NodeId> {
        Set::new(|voter: NodeId| self.vote_of(voter, term) == Some(candidate))
    }

    /// A node and what has happened in the cluster agree.
    pub open spec fn node_sound(self, id: NodeId) -> bool {
        let node = self.nodes[id];
        let term = node.hard_state.current_term;
        &&& node.id == id
        &&& node.configuration == self.configuration
        &&& node.well_formed()
        &&& self.vote_of(id, term) == node.hard_state.voted_for
        &&& forall|other: u64| #[trigger] self.votes.contains_key((id, other)) ==> other <= term
        &&& forall|led: u64| #[trigger]
            self.leaders.contains_key(led) && self.leaders[led] == id ==> led <= term
        &&& node.role == Role::Candidate ==> {
            &&& !(self.leaders.contains_key(term) && self.leaders[term] == id)
            &&& forall|voter: NodeId| #[trigger]
                node.votes.contains(voter) ==> self.vote_of(voter, term) == Some(id)
        }
        &&& node.role == Role::Leader ==> self.leaders.contains_key(term) && self.leaders[term]
            == id
    }

    /// Elections were won by the votes that were given.
    pub open spec fn elections_sound(self) -> bool {
        &&& self.configuration.valid()
        &&& forall|id: NodeId| #[trigger] self.nodes.contains_key(id) ==> self.node_sound(id)
        &&& forall|sent: Sent| #[trigger]
            self.sent.contains(sent) ==> (vote_given(
                ActionView::Send { to: sent.to, message: sent.message },
            ) matches Some((to, term)) ==> self.vote_of(sent.from, term) == Some(to))
        &&& forall|term: u64| #[trigger]
            self.leaders.contains_key(term) ==> self.configuration.quorum(
                self.supporters(term, self.leaders[term]),
            )
    }
}

/// The messages of a step.
pub open spec fn sent_by(id: NodeId, turn: Turn) -> Set<Sent> {
    Set::new(
        |sent: Sent|
            sent.from == id && sent.log == turn.node.log && turn.actions.contains(
                ActionView::Send { to: sent.to, message: sent.message },
            ),
    )
}

/// Votes that were given stay given, and the vote of the node that has stepped is
/// the one that it holds.
pub(crate) proof fn votes_stay(world: World, id: NodeId, input: InputView)
    requires
        world.elections_sound(),
        world.can_step(id, input),
    ensures
        forall|voter: NodeId, term: u64| #[trigger]
            world.vote_of(voter, term) is Some ==> world.stepped(id, input).vote_of(voter, term)
                == world.vote_of(voter, term),
        forall|voter: NodeId, term: u64|
            voter != id ==> #[trigger] world.stepped(id, input).vote_of(voter, term)
                == world.vote_of(voter, term),
        ({
            let after = turn_of(world.nodes[id], input).node;
            &&& succeeds(world.nodes[id], after)
            &&& after.well_formed()
            &&& world.stepped(id, input).vote_of(id, after.hard_state.current_term)
                == after.hard_state.voted_for
            &&& forall|term: u64| #[trigger]
                world.stepped(id, input).votes.contains_key((id, term)) ==> term
                    <= after.hard_state.current_term
        }),
{
    let before = world.nodes[id];
    assert(world.node_sound(id));
    turns_undo_nothing(before, input);
    let after = turn_of(before, input).node;
    let term = after.hard_state.current_term;
    if world.vote_of(id, term) is Some {
        assert(world.votes.contains_key((id, term)));
        assert(term == before.hard_state.current_term);
    }
    let next = world.stepped(id, input);
    assert forall|t: u64| #[trigger] next.votes.contains_key((id, t)) implies t <= term by {
        if t != term {
            assert(world.votes.contains_key((id, t)));
        }
    }
    assert forall|voter: NodeId, t: u64| #[trigger] world.vote_of(voter, t) is Some implies next.vote_of(
        voter,
        t,
    ) == world.vote_of(voter, t) by {
        if voter == id && t == term {
            assert(before.hard_state.voted_for is Some);
        }
    }
}

/// A node that leads after a step has the votes of a quorum in its term.
pub(crate) proof fn leader_has_support(world: World, id: NodeId, input: InputView)
    requires
        world.elections_sound(),
        world.can_step(id, input),
        turn_of(world.nodes[id], input).node.role == Role::Leader,
    ensures
        ({
            let after = turn_of(world.nodes[id], input).node;
            world.configuration.quorum(
                world.stepped(id, input).supporters(after.hard_state.current_term, id),
            )
        }),
{
    let before = world.nodes[id];
    let after = turn_of(before, input).node;
    let term = after.hard_state.current_term;
    let next = world.stepped(id, input);
    assert(world.node_sound(id));
    votes_stay(world, id, input);
    turns_change_roles(before, input);
    let support = next.supporters(term, id);
    if before.role == Role::Leader {
        let old = world.supporters(term, id);
        assert(old.subset_of(support)) by {
            assert forall|voter: NodeId| old.contains(voter) implies support.contains(voter) by {
                assert(world.vote_of(voter, term) is Some);
            }
        }
        quorum_grows(world.configuration, old, support);
    } else {
        turns_elect_leaders(before, input);
        let winning = winning_votes(before, input);
        assert forall|voter: NodeId| winning.contains(voter) implies support.contains(voter) by {
            match input {
                InputView::Message { from, message } => {
                    let log = choose|log: LogView| #[trigger]
                        world.sent.contains(Sent { from, to: id, message, log });
                    match message {
                        MessageView::RequestVoteResponse { .. } => {
                            assert(world.vote_of(voter, term) == Some(id)) by {
                                if voter == from {
                                    assert(world.sent.contains(Sent { from, to: id, message, log }));
                                } else {
                                    assert(before.votes.contains(voter));
                                }
                            }
                        },
                        _ => {
                            assert(voter == id);
                        },
                    }
                },
                _ => {
                    assert(voter == id);
                },
            }
        }
        quorum_grows(world.configuration, winning, support);
    }
}

/// A term has one leader: whoever leads after a step was not led before it by
/// another in its term.
pub(crate) proof fn leader_is_the_only_one(world: World, id: NodeId, input: InputView)
    requires
        world.elections_sound(),
        world.can_step(id, input),
        turn_of(world.nodes[id], input).node.role == Role::Leader,
    ensures
        ({
            let term = turn_of(world.nodes[id], input).node.hard_state.current_term;
            &&& world.leaders.contains_key(term) ==> world.leaders[term] == id
                && world.nodes[id].role == Role::Leader
            &&& world.nodes[id].role == Role::Leader ==> world.leaders.contains_key(term)
        }),
{
    let before = world.nodes[id];
    let after = turn_of(before, input).node;
    let term = after.hard_state.current_term;
    let next = world.stepped(id, input);
    assert(world.node_sound(id));
    votes_stay(world, id, input);
    turns_change_roles(before, input);
    leader_has_support(world, id, input);
    if world.leaders.contains_key(term) {
        let leader = world.leaders[term];
        let old = world.supporters(term, leader);
        let support = next.supporters(term, id);
        quorums_intersect(world.configuration, old, support);
        let voter = choose|voter: NodeId|
            #![trigger world.configuration.incoming.contains(voter)]
            world.configuration.incoming.contains(voter) && old.contains(voter)
                && support.contains(voter);
        assert(world.vote_of(voter, term) is Some);
        assert(leader == id);
    }
}

/// Elections stay sound, whatever a node takes.
pub proof fn steps_keep_elections_sound(world: World, id: NodeId, input: InputView)
    requires
        world.elections_sound(),
        world.can_step(id, input),
    ensures
        world.stepped(id, input).elections_sound(),
{
    let before = world.nodes[id];
    let turn = turn_of(before, input);
    let after = turn.node;
    let term = after.hard_state.current_term;
    let next = world.stepped(id, input);
    assert(world.node_sound(id));
    votes_stay(world, id, input);
    turns_change_roles(before, input);
    if after.role == Role::Leader {
        leader_has_support(world, id, input);
        leader_is_the_only_one(world, id, input);
    }
    assert forall|node: NodeId| #[trigger] next.nodes.contains_key(node) implies next.node_sound(
        node,
    ) by {
        if node == id {
            if after.role == Role::Candidate {
                assert forall|voter: NodeId| #[trigger]
                    after.votes.contains(voter) implies next.vote_of(voter, term) == Some(id) by {
                    if after.votes == set![id] && after.hard_state.voted_for == Some(id) {
                        assert(voter == id);
                    } else {
                        assert(world.vote_of(voter, term) == Some(id)) by {
                            if !before.votes.contains(voter) {
                                let from = input->from;
                                let message = input->message;
                                let log = choose|log: LogView| #[trigger]
                                    world.sent.contains(Sent { from, to: id, message, log });
                                assert(world.sent.contains(Sent { from, to: id, message, log }));
                            }
                        }
                    }
                }
            }
        } else {
            assert(world.node_sound(node));
            let peer = world.nodes[node];
            assert forall|other: u64| #[trigger] next.votes.contains_key((node, other)) implies other
                <= peer.hard_state.current_term by {
                assert(world.votes.contains_key((node, other)));
            }
            if peer.role == Role::Candidate {
                assert forall|voter: NodeId| #[trigger]
                    peer.votes.contains(voter) implies next.vote_of(
                    voter,
                    peer.hard_state.current_term,
                ) == Some(node) by {
                    assert(world.vote_of(voter, peer.hard_state.current_term) is Some);
                }
            }
        }
    }
    assert forall|sent: Sent| #[trigger] next.sent.contains(sent) implies (vote_given(
        ActionView::Send { to: sent.to, message: sent.message },
    ) matches Some((to, t)) ==> next.vote_of(sent.from, t) == Some(to)) by {
        let action = ActionView::Send { to: sent.to, message: sent.message };
        if let Some((to, t)) = vote_given(action) {
            if world.sent.contains(sent) {
                assert(world.vote_of(sent.from, t) is Some);
            } else {
                let i = choose|i: int|
                    0 <= i < turn.actions.len() && turn.actions[i] == action;
                turns_store_votes(before, input, i);
            }
        }
    }
    assert forall|t: u64| #[trigger] next.leaders.contains_key(t) implies next.configuration.quorum(
        next.supporters(t, next.leaders[t]),
    ) by {
        if !(after.role == Role::Leader && t == term) {
            assert(world.leaders.contains_key(t));
            let old = world.supporters(t, world.leaders[t]);
            let support = next.supporters(t, world.leaders[t]);
            assert forall|voter: NodeId| old.contains(voter) implies support.contains(voter) by {
                assert(world.vote_of(voter, t) is Some);
            }
            quorum_grows(world.configuration, old, support);
        }
    }
}

/// Elections stay sound when a node starts again.
pub proof fn restarts_keep_elections_sound(world: World, id: NodeId)
    requires
        world.elections_sound(),
        world.nodes.contains_key(id),
    ensures
        world.restarted(id).elections_sound(),
{
    let before = world.nodes[id];
    let next = world.restarted(id);
    assert(world.node_sound(id));
    assert(stored_log(before.snapshot, before.log.entries) =~= before.log);
    assert forall|node: NodeId| #[trigger] next.nodes.contains_key(node) implies next.node_sound(
        node,
    ) by {
        assert(world.node_sound(node));
        assert(forall|voter: NodeId, term: u64| #[trigger]
            next.vote_of(voter, term) == world.vote_of(voter, term));
    }
    assert forall|term: u64| #[trigger]
        next.leaders.contains_key(term) implies next.configuration.quorum(
        next.supporters(term, next.leaders[term]),
    ) by {
        assert(world.leaders.contains_key(term));
        assert(next.supporters(term, next.leaders[term]) =~= world.supporters(
            term,
            world.leaders[term],
        ));
    }
    assert forall|sent: Sent| #[trigger] next.sent.contains(sent) implies (vote_given(
        ActionView::Send { to: sent.to, message: sent.message },
    ) matches Some((to, t)) ==> next.vote_of(sent.from, t) == Some(to)) by {
        assert(world.sent.contains(sent));
    }
}

/// No two nodes of a cluster lead the same term.
pub proof fn at_most_one_leader(world: World, first: NodeId, second: NodeId)
    requires
        world.elections_sound(),
        world.nodes.contains_key(first),
        world.nodes.contains_key(second),
        world.nodes[first].role == Role::Leader,
        world.nodes[second].role == Role::Leader,
        world.nodes[first].hard_state.current_term == world.nodes[second].hard_state.current_term,
    ensures
        first == second,
{
    assert(world.node_sound(first));
    assert(world.node_sound(second));
}

} // verus!
