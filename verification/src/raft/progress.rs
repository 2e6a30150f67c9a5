//! What a group of nodes gets done: elections are won, entries are taken and committed, and
//! what is committed is applied.

use vstd::prelude::*;
use crate::ordmap::{finite_set_is_listed, member_is_listed};
use crate::raft::configuration::quorum_index_is_reached;
use crate::raft::log::{LogView, last_index_counts};
use crate::raft::node::divergence_is_within;
use crate::raft::state::{
    Progress, RaftView, Turn, applications, divergence, valid_entry_sequence,
};
use crate::raft::types::{
    ActionView, CommandId, EntryPayloadView, HardState, LogEntryView, MessageView, Role,
    StorageMutationView, Tick,
};
use crate::types::NodeId;

verus! {

/// Every other voter is a peer, and no one else is.
pub proof fn peers_are_the_other_voters(node: RaftView, peer: NodeId)
    requires
        node.configuration.valid(),
    ensures
        node.peers().contains(peer) <==> node.configuration.voters().contains(peer) && peer
            != node.id,
{
    let others = node.configuration.voters().remove(node.id);
    finite_set_is_listed::<NodeId>(others);
    member_is_listed::<NodeId>(node.peers(), others, peer);
}

proof fn sending_reaches_first(turn: Turn, message: MessageView, n: int, k: int)
    requires
        0 <= k < n,
    ensures
        turn.send_to_first(message, n).node == turn.node,
        turn.send_to_first(message, n).actions.contains(
            ActionView::Send { to: turn.node.peers()[k], message },
        ),
    decreases n,
{
    let before = turn.send_to_first(message, n - 1);
    let after = turn.send_to_first(message, n);
    sending_keeps(turn, message, n - 1);
    if k < n - 1 {
        sending_reaches_first(turn, message, n - 1, k);
        let action = ActionView::Send { to: turn.node.peers()[k], message };
        let i = before.actions.index_of(action);
        assert(after.actions[i] == action);
    } else {
        assert(after.actions.last() == (ActionView::Send { to: turn.node.peers()[k], message }));
    }
}

proof fn sending_keeps(turn: Turn, message: MessageView, n: int)
    ensures
        turn.send_to_first(message, n).node == turn.node,
    decreases n,
{
    if n > 0 {
        sending_keeps(turn, message, n - 1);
    }
}

proof fn sending_reaches_all(turn: Turn, message: MessageView, peer: NodeId)
    requires
        turn.node.configuration.valid(),
        turn.node.configuration.voters().contains(peer),
        peer != turn.node.id,
    ensures
        turn.send_to_all(message).actions.contains(ActionView::Send { to: peer, message }),
        turn.send_to_all(message).node == turn.node,
{
    peers_are_the_other_voters(turn.node, peer);
    let k = turn.node.peers().index_of(peer);
    sending_reaches_first(turn, message, turn.node.peers().len() as int, k);
}

proof fn bringing_forward_reaches(turn: Turn, context: Option<Seq<u8>>, n: int)
    ensures
        turn.append_to_first(context, n).node == turn.node,
        forall|k: int|
            0 <= k < n && turn.node.append_action(#[trigger] turn.node.peers()[k], context) is Some
                ==> turn.append_to_first(context, n).actions.contains(
                turn.node.append_action(turn.node.peers()[k], context)->0,
            ),
        forall|i: int|
            0 <= i < turn.actions.len() ==> turn.append_to_first(context, n).actions.contains(
                #[trigger] turn.actions[i],
            ),
    decreases n,
{
    if n > 0 {
        bringing_forward_reaches(turn, context, n - 1);
        let before = turn.append_to_first(context, n - 1);
        let after = turn.append_to_first(context, n);
        assert forall|action: ActionView| before.actions.contains(
            action,
        ) implies after.actions.contains(action) by {
            let i = before.actions.index_of(action);
            assert(after.actions[i] == action);
        }
        if let Some(action) = turn.node.append_action(turn.node.peers()[n - 1], context) {
            assert(after.actions.last() == action);
        }
    }
}

/// A node that hears nothing from a leader asks every other voter whether it would be
/// elected, with its log's end, in the term behind its own.
pub proof fn silent_groups_are_campaigned_in(turn: Turn, peer: NodeId)
    requires
        turn.node.configuration.valid(),
        turn.node.role != Role::Leader,
        turn.node.hard_state.current_term < u64::MAX,
        !turn.node.configuration.quorum(set![turn.node.id]),
        turn.node.configuration.voters().contains(peer),
        peer != turn.node.id,
    ensures
        ({
            let after = turn.ticked(Tick::Election);
            let term = (turn.node.hard_state.current_term + 1) as u64;
            &&& after.node.role == Role::PreCandidate
            &&& after.node.campaign_term == Some(term)
            &&& after.node.votes == set![turn.node.id]
            &&& after.node.hard_state == turn.node.hard_state
            &&& after.actions.contains(
                ActionView::Send {
                    to: peer,
                    message: MessageView::PreVoteRequest {
                        prospective_term: term,
                        candidate_id: turn.node.id,
                        last_log_index: turn.node.log.last_index(),
                        last_log_term: turn.node.log.last_term(),
                    },
                },
            )
        }),
{
    let term = (turn.node.hard_state.current_term + 1) as u64;
    let asking = Turn {
        node: RaftView {
            role: Role::PreCandidate,
            leader_id: None,
            campaign_term: Some(term),
            votes: set![turn.node.id],
            ..turn.node
        },
        ..turn
    }.act(
        ActionView::RoleChanged {
            role: Role::PreCandidate,
            term: turn.node.hard_state.current_term,
        },
    ).act(ActionView::ResetElectionTimer);
    sending_reaches_all(
        asking,
        MessageView::PreVoteRequest {
            prospective_term: term,
            candidate_id: turn.node.id,
            last_log_index: turn.node.log.last_index(),
            last_log_term: turn.node.log.last_term(),
        },
        peer,
    );
}

/// A node that a quorum would elect stands in the new term: it votes for itself and asks
/// every other voter for its vote.
pub proof fn promised_quorums_are_asked(turn: Turn, from: NodeId, term: u64, peer: NodeId)
    requires
        turn.node.configuration.valid(),
        turn.node.role == Role::PreCandidate,
        turn.node.campaign_term == Some(term),
        turn.node.configuration.quorum(turn.node.votes.insert(from)),
        !turn.node.configuration.quorum(set![turn.node.id]),
        turn.node.configuration.voters().contains(peer),
        peer != turn.node.id,
    ensures
        ({
            let after = turn.pre_vote_answered(
                from,
                turn.node.hard_state.current_term,
                term,
                true,
            );
            &&& after.node.role == Role::Candidate
            &&& after.node.hard_state.current_term == term
            &&& after.node.hard_state.voted_for == Some(turn.node.id)
            &&& after.node.votes == set![turn.node.id]
            &&& after.actions.contains(
                ActionView::Send {
                    to: peer,
                    message: MessageView::RequestVote {
                        term,
                        candidate_id: turn.node.id,
                        last_log_index: turn.node.log.last_index(),
                        last_log_term: turn.node.log.last_term(),
                    },
                },
            )
        }),
{
    let standing = Turn {
        node: RaftView {
            hard_state: HardState {
                current_term: term,
                voted_for: Some(turn.node.id),
                ..turn.node.hard_state
            },
            role: Role::Candidate,
            campaign_term: None,
            votes: set![turn.node.id],
            ..turn.node
        },
        ..turn
    }.persist_hard_state().act(
        ActionView::RoleChanged { role: Role::Candidate, term },
    ).act(ActionView::ResetElectionTimer);
    sending_reaches_all(
        standing,
        MessageView::RequestVote {
            term,
            candidate_id: turn.node.id,
            last_log_index: turn.node.log.last_index(),
            last_log_term: turn.node.log.last_term(),
        },
        peer,
    );
}

/// A node gives its vote to a candidate of a later term whose log is not behind, stores
/// that, and says so.
pub proof fn good_candidates_get_votes(
    turn: Turn,
    candidate: NodeId,
    term: u64,
    last_log_index: u64,
    last_log_term: u64,
)
    requires
        term > turn.node.hard_state.current_term,
        last_log_term > turn.node.log.last_term() || last_log_term == turn.node.log.last_term()
            && last_log_index >= turn.node.log.last_index(),
    ensures
        ({
            let after = turn.vote_asked(candidate, term, candidate, last_log_index, last_log_term);
            &&& after.node.hard_state.current_term == term
            &&& after.node.hard_state.voted_for == Some(candidate)
            &&& after.node.role == Role::Follower
            &&& after.actions.contains(
                ActionView::Persist(StorageMutationView::HardState(after.node.hard_state)),
            )
            &&& after.actions.last() == (ActionView::Send {
                to: candidate,
                message: MessageView::RequestVoteResponse { term, granted: true },
            })
        }),
{
    let after = turn.vote_asked(candidate, term, candidate, last_log_index, last_log_term);
    let n = after.actions.len();
    assert(after.actions[n - 3] == ActionView::Persist(
        StorageMutationView::HardState(after.node.hard_state),
    ));
}

/// A node would give its vote to whoever would get it in a later term.
pub proof fn good_candidates_get_promises(
    turn: Turn,
    candidate: NodeId,
    term: u64,
    last_log_index: u64,
    last_log_term: u64,
)
    requires
        term > turn.node.hard_state.current_term,
        last_log_term > turn.node.log.last_term() || last_log_term == turn.node.log.last_term()
            && last_log_index >= turn.node.log.last_index(),
    ensures
        ({
            let after = turn.pre_vote_asked(
                candidate,
                term,
                candidate,
                last_log_index,
                last_log_term,
            );
            &&& after.node == turn.node
            &&& after.actions.last() == (ActionView::Send {
                to: candidate,
                message: MessageView::PreVoteResponse {
                    responder_term: turn.node.hard_state.current_term,
                    prospective_term: term,
                    granted: true,
                },
            })
        }),
{
}

/// A candidate with the votes of a quorum leads its term: it writes an empty entry of the
/// term behind its log, stores it, and expects every voter to need the entries behind it.
pub proof fn quorums_elect(turn: Turn, from: NodeId)
    requires
        turn.node.configuration.valid(),
        turn.node.role == Role::Candidate,
        turn.node.configuration.quorum(turn.node.votes.insert(from)),
        turn.node.log.contiguous(),
        turn.node.log.last_index() + 1 < u64::MAX,
    ensures
        ({
            let term = turn.node.hard_state.current_term;
            let after = turn.vote_answered(from, term, true);
            let entry = LogEntryView {
                index: (turn.node.log.last_index() + 1) as u64,
                term,
                payload: EntryPayloadView::Noop,
            };
            &&& after.node.role == Role::Leader
            &&& after.node.leader_id == Some(turn.node.id)
            &&& after.node.hard_state.current_term == term
            &&& after.node.log.entries == turn.node.log.entries.push(entry)
            &&& after.actions.contains(
                ActionView::Persist(StorageMutationView::Append(seq![entry])),
            )
            &&& after.actions.contains(ActionView::RoleChanged { role: Role::Leader, term })
        }),
{
    let counted = Turn {
        node: RaftView { votes: turn.node.votes.insert(from), ..turn.node },
        ..turn
    };
    let term = turn.node.hard_state.current_term;
    let entry = LogEntryView {
        index: (turn.node.log.last_index() + 1) as u64,
        term,
        payload: EntryPayloadView::Noop,
    };
    let id = turn.node.id;
    let voters = turn.node.configuration.voters();
    let led = Turn {
        node: RaftView {
            role: Role::Leader,
            leader_id: Some(id),
            votes: Set::empty(),
            pending_reads: Map::empty(),
            log: counted.node.log.appended(seq![entry]),
            progress: Map::new(
                |voter: NodeId| voters.contains(voter),
                |voter: NodeId|
                    Progress {
                        match_index: if voter == id {
                            entry.index
                        } else {
                            0
                        },
                        next_index: (entry.index + 1) as u64,
                        snapshot_offset: None,
                    },
            ),
            recent_active: voters,
            ..counted.node
        },
        ..counted
    }.act(ActionView::Persist(StorageMutationView::Append(seq![entry]))).act(
        ActionView::RoleChanged { role: Role::Leader, term: entry.term },
    ).act(ActionView::ResetHeartbeatTimer);
    let n = led.actions.len() as int;
    let advanced = led.advanced();
    assert(counted.leading() == advanced.broadcast(None));
    assert(led.node.log.entries =~= turn.node.log.entries.push(entry));
    assert forall|i: int| 0 <= i < n implies advanced.actions[i] == led.actions[i] by {}
    bringing_forward_reaches(advanced, None, advanced.node.peers().len() as int);
    assert(led.actions[n - 3] == ActionView::Persist(
        StorageMutationView::Append(seq![entry]),
    ));
    assert(led.actions[n - 2] == (ActionView::RoleChanged { role: Role::Leader, term }));
    assert(advanced.broadcast(None).actions.contains(advanced.actions[n - 3]));
    assert(advanced.broadcast(None).actions.contains(advanced.actions[n - 2]));
}

/// A leader commits what a quorum holds of its term, and applies it: an entry of its own
/// term that a quorum holds is committed, with everything before it.
pub proof fn quorums_commit(turn: Turn, index: u64)
    requires
        turn.node.configuration.valid(),
        turn.node.role == Role::Leader,
        turn.node.configuration.quorum(
            turn.node.configuration.reached(turn.node.matched(), index),
        ),
        forall|held: u64|
            held >= index && turn.node.configuration.quorum(
                #[trigger] turn.node.configuration.reached(turn.node.matched(), held),
            ) ==> turn.node.log.term(held) == Some(turn.node.hard_state.current_term),
        turn.node.applied_index == turn.node.hard_state.commit_index,
    ensures
        turn.advanced().node.hard_state.commit_index >= index,
        turn.advanced().node.applied_index == turn.advanced().node.hard_state.commit_index,
        turn.advanced().node.log == turn.node.log,
{
    quorum_index_is_reached(turn.node.configuration, turn.node.matched());
    let highest = turn.node.configuration.quorum_index(turn.node.matched());
    if highest < index {
        assert(!turn.node.configuration.quorum(
            turn.node.configuration.reached(turn.node.matched(), index),
        ));
    }
    assert(turn.node.configuration.quorum(
        turn.node.configuration.reached(turn.node.matched(), highest),
    ));
}

/// Where the entries are applied among actions.
pub open spec fn applies_at(
    log: LogView,
    leader: bool,
    from: int,
    actions: Seq<ActionView>,
    places: Seq<int>,
) -> bool {
    &&& forall|k: int|
        0 <= k < places.len() ==> 0 <= #[trigger] places[k] < actions.len()
            && log.entry((from + 1 + k) as u64) is Some && actions[places[k]] == ActionView::Apply(
            log.entry((from + 1 + k) as u64)->0,
        ) && (leader && log.entry((from + 1 + k) as u64)->0.payload is Command ==> places[k] + 1
            < actions.len() && actions[places[k] + 1] == (ActionView::ProposalCommitted {
            id: log.entry((from + 1 + k) as u64)->0.payload->id,
            index: log.entry((from + 1 + k) as u64)->0.index,
        }))
    &&& forall|j: int, k: int|
        0 <= j < k < places.len() ==> #[trigger] places[j] < #[trigger] places[k]
    &&& forall|i: int|
        0 <= i < actions.len() && #[trigger] actions[i] is Apply ==> places.contains(i)
}

/// What is committed is applied: one action for each entry, in the order of the log, and on
/// the leader the proposer of a command hears of it right behind. Nothing else is applied.
pub proof fn committed_entries_are_applied(log: LogView, leader: bool, from: int, to: int)
    requires
        log.contiguous(),
        log.base_index <= from <= to <= log.last_index(),
    ensures
        exists|places: Seq<int>| #[trigger]
            applies_at(log, leader, from, applications(log, leader, from, to), places)
                && places.len() == to - from,
    decreases to - from,
{
    last_index_counts(log);
    let now = applications(log, leader, from, to);
    if to <= from {
        assert(applies_at(log, leader, from, now, Seq::empty()));
    } else {
        committed_entries_are_applied(log, leader, from, to - 1);
        let before = applications(log, leader, from, to - 1);
        let fewer = choose|places: Seq<int>| #[trigger]
            applies_at(log, leader, from, before, places) && places.len() == to - 1 - from;
        let places = fewer.push(before.len() as int);
        let entry = log.entry(to as u64)->0;
        assert(now[before.len() as int] == ActionView::Apply(entry));
        assert forall|k: int| 0 <= k < places.len() implies 0 <= #[trigger] places[k] < now.len()
            && log.entry((from + 1 + k) as u64) is Some && now[places[k]] == ActionView::Apply(
            log.entry((from + 1 + k) as u64)->0,
        ) && (leader && log.entry((from + 1 + k) as u64)->0.payload is Command ==> places[k] + 1
            < now.len() && now[places[k] + 1] == (ActionView::ProposalCommitted {
            id: log.entry((from + 1 + k) as u64)->0.payload->id,
            index: log.entry((from + 1 + k) as u64)->0.index,
        })) by {
            if k < fewer.len() {
                assert(places[k] == fewer[k]);
            }
        }
        assert forall|i: int| 0 <= i < now.len() && #[trigger] now[i] is Apply implies places.contains(
            i,
        ) by {
            if i < before.len() {
                assert(before[i] == now[i]);
                assert(fewer.contains(i));
                let k = fewer.index_of(i);
                assert(places[k] == i);
            } else {
                assert(places[fewer.len() as int] == before.len());
            }
        }
        assert(applies_at(log, leader, from, now, places));
    }
}

/// A leader writes what is proposed behind its log and stores it; any other node says who
/// leads.
pub proof fn proposals_are_written(turn: Turn, id: CommandId, command: Seq<u8>)
    requires
        turn.node.log.contiguous(),
        turn.node.log.last_index() + 1 < u64::MAX,
    ensures
        ({
            let after = turn.proposed(id, command);
            let entry = LogEntryView {
                index: (turn.node.log.last_index() + 1) as u64,
                term: turn.node.hard_state.current_term,
                payload: EntryPayloadView::Command { id, bytes: command },
            };
            if turn.node.role == Role::Leader {
                &&& after.node.log.entries == turn.node.log.entries.push(entry)
                &&& after.node.log.base_index == turn.node.log.base_index
                &&& after.actions.contains(
                    ActionView::Persist(StorageMutationView::Append(seq![entry])),
                )
                &&& after.node.role == Role::Leader
            } else {
                &&& after.node == turn.node
                &&& after.actions == turn.actions.push(
                    ActionView::ProposalRejected { id, leader_hint: turn.node.leader_id },
                )
            }
        }),
{
    if turn.node.role == Role::Leader {
        let entry = LogEntryView {
            index: (turn.node.log.last_index() + 1) as u64,
            term: turn.node.hard_state.current_term,
            payload: EntryPayloadView::Command { id, bytes: command },
        };
        let written = Turn {
            node: RaftView { log: turn.node.log.appended(seq![entry]), ..turn.node },
            ..turn
        }.with_progress(
            turn.node.id,
            Progress {
                match_index: entry.index,
                next_index: (entry.index + 1) as u64,
                ..turn.node.progress[turn.node.id]
            },
        ).act(ActionView::Persist(StorageMutationView::Append(seq![entry])));
        let n = written.actions.len() as int;
        let advanced = written.advanced();
        assert(turn.proposed(id, command) == advanced.broadcast(None));
        assert(written.node.log.entries =~= turn.node.log.entries.push(entry));
        assert(advanced.actions[n - 1] == written.actions[n - 1]);
        bringing_forward_reaches(advanced, None, advanced.node.peers().len() as int);
        assert(advanced.broadcast(None).actions.contains(advanced.actions[n - 1]));
    }
}

/// A leader sends every peer, with each heartbeat, what brings the peer forward.
pub proof fn heartbeats_reach_every_peer(turn: Turn, peer: NodeId)
    requires
        turn.node.configuration.valid(),
        turn.node.role == Role::Leader,
        turn.node.configuration.voters().contains(peer),
        peer != turn.node.id,
        turn.node.progress.contains_key(peer),
        turn.node.progress[peer].next_index > turn.node.log.base_index,
        turn.node.progress[peer].next_index <= turn.node.log.last_index() + 1,
        turn.node.log.contiguous(),
        turn.node.log.last_index() < u64::MAX,
    ensures
        exists|i: int|
            0 <= i < turn.ticked(Tick::Heartbeat).actions.len() && (
            #[trigger] turn.ticked(Tick::Heartbeat).actions[i] matches ActionView::Send {
                to,
                message: MessageView::AppendEntries {
                    term,
                    leader_id,
                    prev_log_index,
                    entries,
                    leader_commit,
                    ..
                },
            } && to == peer && term == turn.node.hard_state.current_term && leader_id
                == turn.node.id && prev_log_index + 1 == turn.node.progress[peer].next_index
                && leader_commit == turn.node.hard_state.commit_index && (
            turn.node.progress[peer].next_index <= turn.node.log.last_index() ==> entries.len()
                > 0)),
{
    peers_are_the_other_voters(turn.node, peer);
    last_index_counts(turn.node.log);
    let k = turn.node.peers().index_of(peer);
    bringing_forward_reaches(turn, None, turn.node.peers().len() as int);
    let action = turn.node.append_action(peer, None)->0;
    assert(turn.node.peers()[k] == peer);
    let sent = turn.broadcast(None);
    assert(sent.actions.contains(action));
    let i = sent.actions.index_of(action);
    assert(turn.ticked(Tick::Heartbeat).actions[i] == action);
}

/// A leader that hears that a peer has taken its entries counts the peer as holding the log
/// that far, and one that hears that it has not goes back with it, below where it was, and
/// tries again.
pub proof fn answers_move_a_peer(
    turn: Turn,
    peer: NodeId,
    success: bool,
    match_index: u64,
    conflict_index: u64,
)
    requires
        turn.node.role == Role::Leader,
        turn.node.progress.contains_key(peer),
    ensures
        ({
            let after = turn.append_answered(
                peer,
                turn.node.hard_state.current_term,
                success,
                match_index,
                conflict_index,
                None,
                None,
            );
            let old = turn.node.progress[peer];
            let new = after.node.progress[peer];
            &&& after.node.progress.contains_key(peer)
            &&& after.node.recent_active.contains(peer)
            &&& new.snapshot_offset is None
            &&& if success {
                &&& new.match_index >= match_index && new.match_index >= old.match_index
                &&& new.match_index == match_index || new.match_index == old.match_index
                &&& match_index < u64::MAX ==> new.next_index > match_index
                &&& new.next_index >= old.next_index
            } else {
                &&& new.match_index == old.match_index
                &&& new.next_index >= 1
                &&& old.next_index > 1 ==> new.next_index < old.next_index
                &&& new.next_index <= conflict_index || new.next_index == 1
                &&& after.actions.len() == turn.actions.len() + 1
                &&& after.actions.last() is Send || after.actions.last() is Fatal
            }
        }),
{
}

/// A follower takes entries that follow on what it holds: it then holds every one of them,
/// its commit index follows the leader's as far as they reach, and the leader is told how
/// far it is.
pub proof fn fitting_entries_are_taken(
    turn: Turn,
    leader: NodeId,
    term: u64,
    prev_log_index: u64,
    prev_log_term: u64,
    entries: Seq<LogEntryView>,
    leader_commit: u64,
)
    requires
        turn.node.log.contiguous(),
        term >= turn.node.hard_state.current_term,
        turn.node.log.base_index <= prev_log_index,
        turn.node.log.term(prev_log_index) == Some(prev_log_term),
        valid_entry_sequence(prev_log_index, prev_log_term, term, entries),
        prev_log_index + entries.len() < u64::MAX,
        turn.node.hard_state.commit_index <= prev_log_index,
    ensures
        ({
            let after = turn.entries_received(
                leader,
                term,
                leader,
                prev_log_index,
                prev_log_term,
                entries,
                leader_commit,
                None,
            );
            let end = prev_log_index + entries.len();
            &&& after.node.role == Role::Follower
            &&& after.node.leader_id == Some(leader)
            &&& after.node.hard_state.current_term == term
            &&& forall|i: int|
                0 <= i < entries.len() ==> after.node.log.term((#[trigger] entries[i]).index)
                    == Some(entries[i].term)
            &&& after.node.hard_state.commit_index == if leader_commit <= end {
                if leader_commit > turn.node.hard_state.commit_index {
                    leader_commit
                } else {
                    turn.node.hard_state.commit_index
                }
            } else {
                end as u64
            }
            &&& after.actions.last() == (ActionView::Send {
                to: leader,
                message: MessageView::AppendEntriesResponse {
                    term,
                    success: true,
                    match_index: end as u64,
                    conflict_index: 0,
                    conflict_term: None,
                    read_context: None,
                },
            })
        }),
{
    let log = turn.node.log;
    let position = divergence(log, entries, 0);
    last_index_counts(log);
    divergence_is_within(log, entries, prev_log_index, prev_log_term, term, 0);
    let follower = turn.stepped_down(term, Some(leader)).act(ActionView::ResetElectionTimer);
    assert(follower.node.log == log);
    let after = turn.entries_received(
        leader,
        term,
        leader,
        prev_log_index,
        prev_log_term,
        entries,
        leader_commit,
        None,
    );
    assert(after == follower.entries_taken(
        leader,
        prev_log_index,
        entries,
        leader_commit,
        None,
    ));
    if position < entries.len() {
        let from = entries[position].index;
        let replaced = log.replaced_from(from, entries.skip(position));
        assert(from == prev_log_index + 1 + position);
        assert(after.node.log == replaced);
        assert forall|i: int| 0 <= i < entries.len() implies after.node.log.term(
            (#[trigger] entries[i]).index,
        ) == Some(entries[i].term) by {
            let at = entries[i].index - log.base_index - 1;
            if i < position {
                assert(log.term(entries[i].index) == Some(entries[i].term));
                assert(replaced.entries[at] == log.entries[at]);
            } else {
                assert(replaced.entries[at] == entries.skip(position)[i - position]);
            }
        }
    } else {
        assert(after.node.log == log);
    }
}

} // verus!
