//! What holds of elections and of reads that wait for a quorum.

use vstd::prelude::*;
use crate::raft::configuration::{ConfigurationView, quorums_intersect};
use crate::raft::log::LogView;
use crate::raft::state::{
    PendingReadView, Progress, RaftView, Turn, applications, divergence, least, most, refused_reads,
};
use crate::raft::types::{
    ActionView, CommandId, EntryPayloadView, HardState, InputView, LogEntryView, MessageView,
    Role, SnapshotMetadataView, StorageMutationView, Tick,
};
use crate::types::NodeId;

verus! {

/// The vote that an action gives: to whom, and in which term.
pub open spec fn vote_given(action: ActionView) -> Option<(NodeId, u64)> {
    match action {
        ActionView::Send { to, message } => match message {
            MessageView::RequestVoteResponse { term, granted } => if granted {
                Some((to, term))
            } else {
                None
            },
            _ => None,
        },
        _ => None,
    }
}

/// No action gives a vote or answers a read.
spec fn plain(actions: Seq<ActionView>) -> bool {
    forall|i: int|
        0 <= i < actions.len() ==> vote_given(#[trigger] actions[i]) is None
            && !(actions[i] is ReadReady)
}

/// Only plain actions are asked for, and a node that does not lead still does
/// not.
spec fn unremarkable(before: Turn, after: Turn) -> bool {
    &&& plain(before.actions) ==> plain(after.actions)
    &&& before.node.role != Role::Leader ==> after.node.role != Role::Leader
}

proof fn applications_are_plain(log: LogView, leader: bool, from: int, to: int)
    ensures
        plain(applications(log, leader, from, to)),
    decreases to - from,
{
    if to > from {
        applications_are_plain(log, leader, from, to - 1);
    }
}

proof fn applying_is_unremarkable(turn: Turn)
    ensures
        unremarkable(turn, turn.applied()),
        turn.applied().node.role == turn.node.role,
{
    applications_are_plain(
        turn.node.log,
        turn.node.role == Role::Leader,
        turn.node.applied_index as int,
        turn.node.hard_state.commit_index as int,
    );
}

proof fn committing_is_unremarkable(turn: Turn, index: u64)
    ensures
        unremarkable(turn, turn.committed(index)),
        turn.committed(index).node.role == turn.node.role,
{
    if index > turn.node.hard_state.commit_index {
        let raised = Turn {
            node: RaftView {
                hard_state: HardState {
                    commit_index: index,
                    ..turn.node.hard_state
                },
                ..turn.node
            },
            ..turn
        }.persist_hard_state();
        applying_is_unremarkable(raised);
    }
}

proof fn advancing_is_unremarkable(turn: Turn)
    ensures
        unremarkable(turn, turn.advanced()),
        turn.advanced().node.role == turn.node.role,
{
    committing_is_unremarkable(
        turn,
        turn.node.configuration.quorum_index(turn.node.matched()),
    );
}

proof fn appending_is_unremarkable(turn: Turn, read_context: Option<Seq<u8>>, n: int)
    ensures
        unremarkable(turn, turn.append_to_first(read_context, n)),
        turn.append_to_first(read_context, n).node == turn.node,
    decreases n,
{
    if n > 0 {
        appending_is_unremarkable(turn, read_context, n - 1);
    }
}

proof fn asking_is_unremarkable(turn: Turn, message: MessageView, n: int)
    requires
        !(message is RequestVoteResponse),
    ensures
        unremarkable(turn, turn.send_to_first(message, n)),
        turn.send_to_first(message, n).node == turn.node,
    decreases n,
{
    if n > 0 {
        asking_is_unremarkable(turn, message, n - 1);
    }
}

proof fn stepping_down_is_unremarkable(turn: Turn, term: u64, leader_id: Option<NodeId>)
    ensures
        unremarkable(turn, turn.stepped_down(term, leader_id)),
        turn.stepped_down(term, leader_id).node.role == Role::Follower,
        unremarkable(turn, turn.outdated(term)),
        turn.outdated(term).node.role == Role::Follower,
{
    assert(plain(refused_reads(turn.node.pending_reads)));
}

proof fn leading_is_plain(turn: Turn)
    ensures
        plain(turn.actions) ==> plain(turn.leading().actions),
        turn.leading().node.role == Role::Leader,
        turn.leading().node.id == turn.node.id,
        turn.leading().node.hard_state.current_term == turn.node.hard_state.current_term,
        turn.leading().node.hard_state.voted_for == turn.node.hard_state.voted_for,
{
    let entry = LogEntryView {
        index: (turn.node.log.last_index() + 1) as u64,
        term: turn.node.hard_state.current_term,
        payload: EntryPayloadView::Noop,
    };
    let id = turn.node.id;
    let voters = turn.node.configuration.voters();
    let begun = Turn {
        node: RaftView {
            role: Role::Leader,
            leader_id: Some(id),
            votes: Set::empty(),
            pending_reads: Map::empty(),
            log: turn.node.log.appended(seq![entry]),
            progress: Map::new(
                |voter: NodeId| voters.contains(voter),
                |voter: NodeId|
                    Progress {
                        match_index: if voter == id {
                            entry.index
                        } else {
                            0
                        },
                        next_index: (entry.index + 1) as u64,
                        snapshot_offset: None,
                    },
            ),
            recent_active: voters,
            ..turn.node
        },
        ..turn
    }.act(
        ActionView::Persist(StorageMutationView::Append(seq![entry])),
    ).act(ActionView::RoleChanged { role: Role::Leader, term: entry.term }).act(
        ActionView::ResetHeartbeatTimer,
    );
    advancing_is_unremarkable(begun);
    appending_is_unremarkable(
        begun.advanced(),
        None,
        begun.advanced().node.peers().len() as int,
    );
    assert(turn.leading() == begun.advanced().broadcast(None));
}

/// A node that stands for election leads only if its own vote is a quorum.
proof fn standing_is_plain(turn: Turn, term: u64)
    ensures
        plain(turn.actions) ==> plain(turn.standing(term).actions),
        turn.standing(term).node.role == Role::Leader ==> {
            &&& turn.node.configuration.quorum(set![turn.node.id])
            &&& turn.standing(term).node.hard_state.current_term == term
            &&& turn.standing(term).node.hard_state.voted_for == Some(turn.node.id)
        },
{
    let asked = Turn {
        node: RaftView {
            hard_state: HardState {
                current_term: term,
                voted_for: Some(turn.node.id),
                ..turn.node.hard_state
            },
            role: Role::Candidate,
            campaign_term: None,
            votes: set![turn.node.id],
            ..turn.node
        },
        ..turn
    }.persist_hard_state().act(ActionView::RoleChanged { role: Role::Candidate, term }).act(
        ActionView::ResetElectionTimer,
    );
    leading_is_plain(asked);
    asking_is_unremarkable(
        asked,
        MessageView::RequestVote {
            term,
            candidate_id: asked.node.id,
            last_log_index: asked.node.log.last_index(),
            last_log_term: asked.node.log.last_term(),
        },
        asked.node.peers().len() as int,
    );
}

proof fn campaigning_is_plain(turn: Turn)
    ensures
        plain(turn.actions) ==> plain(turn.campaigning().actions),
        turn.node.role != Role::Leader && turn.campaigning().node.role == Role::Leader ==> {
            &&& turn.node.configuration.quorum(set![turn.node.id])
            &&& turn.campaigning().node.hard_state.current_term
                == turn.node.hard_state.current_term + 1
            &&& turn.campaigning().node.hard_state.voted_for == Some(turn.node.id)
        },
{
    if turn.node.hard_state.current_term < u64::MAX {
        let prospective_term = (turn.node.hard_state.current_term + 1) as u64;
        let asked = Turn {
            node: RaftView {
                role: Role::PreCandidate,
                leader_id: None,
                campaign_term: Some(prospective_term),
                votes: set![turn.node.id],
                ..turn.node
            },
            ..turn
        }.act(
            ActionView::RoleChanged {
                role: Role::PreCandidate,
                term: turn.node.hard_state.current_term,
            },
        ).act(ActionView::ResetElectionTimer);
        standing_is_plain(asked, prospective_term);
        asking_is_unremarkable(
            asked,
            MessageView::PreVoteRequest {
                prospective_term,
                candidate_id: asked.node.id,
                last_log_index: asked.node.log.last_index(),
                last_log_term: asked.node.log.last_term(),
            },
            asked.node.peers().len() as int,
        );
    }
}

proof fn ticking_is_plain(turn: Turn, tick: Tick)
    ensures
        plain(turn.actions) ==> plain(turn.ticked(tick).actions),
        turn.node.role != Role::Leader && turn.ticked(tick).node.role == Role::Leader ==> {
            &&& turn.node.configuration.quorum(set![turn.node.id])
            &&& turn.ticked(tick).node.hard_state.voted_for == Some(turn.node.id)
        },
{
    campaigning_is_plain(turn);
    appending_is_unremarkable(turn, None, turn.node.peers().len() as int);
    let checked = Turn {
        node: RaftView { recent_active: set![turn.node.id], ..turn.node },
        ..turn
    };
    appending_is_unremarkable(checked, None, checked.node.peers().len() as int);
    stepping_down_is_unremarkable(turn, turn.node.hard_state.current_term, None);
}

proof fn entries_received_is_unremarkable(
    turn: Turn,
    from: NodeId,
    term: u64,
    leader_id: NodeId,
    prev_log_index: u64,
    prev_log_term: u64,
    entries: Seq<LogEntryView>,
    leader_commit: u64,
    read_context: Option<Seq<u8>>,
)
    ensures
        unremarkable(
            turn,
            turn.entries_received(
                from,
                term,
                leader_id,
                prev_log_index,
                prev_log_term,
                entries,
                leader_commit,
                read_context,
            ),
        ),
{
    stepping_down_is_unremarkable(turn, term, Some(from));
    let follower = turn.stepped_down(term, Some(from)).act(ActionView::ResetElectionTimer);
    let position = divergence(follower.node.log, entries, 0);
    let written = if position < entries.len() {
        let index = entries[position].index;
        let suffix = entries.skip(position);
        Turn {
            node: RaftView {
                log: follower.node.log.replaced_from(index, suffix),
                ..follower.node
            },
            ..follower
        }.act(
            ActionView::Persist(
                if index <= follower.node.log.last_index() {
                    StorageMutationView::TruncateAndAppend {
                        from: index,
                        entries: suffix,
                    }
                } else {
                    StorageMutationView::Append(suffix)
                },
            ),
        )
    } else {
        follower
    };
    committing_is_unremarkable(
        written,
        least(leader_commit, (prev_log_index + entries.len()) as u64),
    );
    assert(unremarkable(
        turn,
        follower.entries_taken(from, prev_log_index, entries, leader_commit, read_context),
    ));
}

proof fn chunk_received_is_unremarkable(
    turn: Turn,
    from: NodeId,
    term: u64,
    leader_id: NodeId,
    metadata: SnapshotMetadataView,
    offset: u64,
    data: Seq<u8>,
    done: bool,
)
    ensures
        unremarkable(
            turn,
            turn.chunk_received(from, term, leader_id, metadata, offset, data, done),
        ),
{
    stepping_down_is_unremarkable(turn, term, Some(from));
}

proof fn chunk_answered_is_unremarkable(
    turn: Turn,
    from: NodeId,
    term: u64,
    accepted: bool,
    next_offset: u64,
    done: bool,
    match_index: u64,
)
    ensures
        unremarkable(
            turn,
            turn.chunk_answered(from, term, accepted, next_offset, done, match_index),
        ),
{
    stepping_down_is_unremarkable(turn, term, None);
    if turn.node.role == Role::Leader {
        let active = Turn {
            node: RaftView {
                recent_active: turn.node.recent_active.insert(from),
                ..turn.node
            },
            ..turn
        };
        let progress = active.node.progress[from];
        let moved = active.with_progress(
            from,
            Progress {
                match_index: most(progress.match_index, match_index),
                next_index: most(
                    progress.next_index,
                    (match_index + 1) as u64,
                ),
                snapshot_offset: None,
            },
        );
        advancing_is_unremarkable(moved);
    }
}

proof fn proposing_is_unremarkable(turn: Turn, id: CommandId, command: Seq<u8>)
    ensures
        unremarkable(turn, turn.proposed(id, command)),
{
    if turn.node.role == Role::Leader {
        let entry = LogEntryView {
            index: (turn.node.log.last_index() + 1) as u64,
            term: turn.node.hard_state.current_term,
            payload: EntryPayloadView::Command { id, bytes: command },
        };
        let written = Turn {
            node: RaftView { log: turn.node.log.appended(seq![entry]), ..turn.node },
            ..turn
        }.with_progress(
            turn.node.id,
            Progress {
                match_index: entry.index,
                next_index: (entry.index + 1) as u64,
                ..turn.node.progress[turn.node.id]
            },
        ).act(ActionView::Persist(StorageMutationView::Append(seq![entry])));
        advancing_is_unremarkable(written);
        appending_is_unremarkable(
            written.advanced(),
            None,
            written.advanced().node.peers().len() as int,
        );
    }
}

/// The votes that make a node the leader: those that it has counted with the one
/// that has just come, or its own where it needs no other.
pub open spec fn winning_votes(node: RaftView, input: InputView) -> Set<NodeId> {
    match input {
        InputView::Message { from, message } => match message {
            MessageView::RequestVoteResponse { .. } => node.votes.insert(from),
            _ => set![node.id],
        },
        _ => set![node.id],
    }
}

/// A node becomes leader only with the votes of a quorum: as a candidate whose
/// vote of another voter in its own term completes a quorum, or by its own vote
/// alone where that is a quorum. It has then voted for itself.
pub proof fn leaders_are_elected(node: RaftView, input: InputView)
    requires
        node.well_formed(),
        node.role != Role::Leader,
        node.stepped(input).node.role == Role::Leader,
    ensures
        node.configuration.quorum(winning_votes(node, input)),
        match input {
            InputView::Message { from, message } => match message {
                MessageView::RequestVoteResponse { term, granted } => {
                    &&& node.role == Role::Candidate
                    &&& granted
                    &&& term == node.hard_state.current_term
                    &&& node.configuration.voters().contains(from)
                    &&& node.stepped(input).node.hard_state.current_term == term
                },
                _ => node.stepped(input).node.hard_state.voted_for == Some(node.id),
            },
            _ => node.stepped(input).node.hard_state.voted_for == Some(node.id),
        },
{
    let start = Turn { node, actions: Seq::empty() };
    let turn = start.applied();
    applying_is_unremarkable(start);
    match input {
        InputView::Tick(tick) => {
            ticking_is_plain(turn, tick);
        },
        InputView::Propose { id, command } => {
            proposing_is_unremarkable(turn, id, command);
        },
        InputView::ReadIndex { .. } => {},
        InputView::SnapshotBuilt(_) => {},
        InputView::Message { from, message } => {
            receiving_leads_by_votes(turn, from, message);
        },
    }
}

proof fn receiving_leads_by_votes(turn: Turn, from: NodeId, message: MessageView)
    requires
        turn.node.role != Role::Leader,
        turn.received(from, message).node.role == Role::Leader,
    ensures
        turn.node.configuration.voters().contains(from),
        match message {
            MessageView::RequestVoteResponse { term, granted } => {
                &&& turn.node.role == Role::Candidate
                &&& granted
                &&& term == turn.node.hard_state.current_term
                &&& turn.node.configuration.quorum(turn.node.votes.insert(from))
                &&& turn.received(from, message).node.hard_state.current_term == term
            },
            _ => {
                &&& turn.node.configuration.quorum(set![turn.node.id])
                &&& turn.received(from, message).node.hard_state.voted_for == Some(turn.node.id)
            },
        },
{
    reveal(Turn::received);
    match message {
        MessageView::PreVoteResponse { responder_term, prospective_term, granted } => {
            stepping_down_is_unremarkable(turn, responder_term, None);
            let counted = Turn {
                node: RaftView { votes: turn.node.votes.insert(from), ..turn.node },
                ..turn
            };
            standing_is_plain(counted, prospective_term);
        },
        MessageView::RequestVoteResponse { term, granted } => {
            stepping_down_is_unremarkable(turn, term, None);
            let counted = Turn {
                node: RaftView { votes: turn.node.votes.insert(from), ..turn.node },
                ..turn
            };
            leading_is_plain(counted);
        },
        MessageView::RequestVote { term, .. } => {
            stepping_down_is_unremarkable(turn, term, None);
        },
        MessageView::AppendEntries {
            term,
            leader_id,
            prev_log_index,
            prev_log_term,
            entries,
            leader_commit,
            read_context,
        } => {
            entries_received_is_unremarkable(
                turn,
                from,
                term,
                leader_id,
                prev_log_index,
                prev_log_term,
                entries,
                leader_commit,
                read_context,
            );
        },
        MessageView::AppendEntriesResponse { term, .. } => {
            stepping_down_is_unremarkable(turn, term, None);
        },
        MessageView::InstallSnapshot { term, leader_id, metadata, offset, data, done } => {
            chunk_received_is_unremarkable(
                turn,
                from,
                term,
                leader_id,
                metadata,
                offset,
                data,
                done,
            );
        },
        MessageView::InstallSnapshotResponse {
            term,
            accepted,
            next_offset,
            done,
            match_index,
        } => {
            chunk_answered_is_unremarkable(
                turn,
                from,
                term,
                accepted,
                next_offset,
                done,
                match_index,
            );
        },
        _ => {},
    }
}

/// Every vote among the actions is the one that the node has stored, in the term
/// that it is in.
spec fn votes_stored(turn: Turn) -> bool {
    forall|i: int|
        0 <= i < turn.actions.len() ==> (vote_given(#[trigger] turn.actions[i]) matches Some(
            (candidate, term),
        ) ==> turn.node.hard_state.voted_for == Some(candidate)
            && turn.node.hard_state.current_term == term)
}

proof fn reads_asked_give_no_vote(turn: Turn, context: Seq<u8>)
    requires
        plain(turn.actions),
    ensures
        unvoting(turn.read_asked(context).actions),
{
    let waiting = Turn {
        node: RaftView {
            pending_reads: turn.node.pending_reads.insert(
                context,
                PendingReadView {
                    index: turn.node.hard_state.commit_index,
                    acknowledgements: set![turn.node.id],
                },
            ),
            ..turn.node
        },
        ..turn
    };
    appending_is_unremarkable(waiting, Some(context), waiting.node.peers().len() as int);
}

/// The actions of an answer to entries, where no vote is given.
proof fn append_answered_gives_no_vote(
    turn: Turn,
    from: NodeId,
    term: u64,
    success: bool,
    match_index: u64,
    conflict_index: u64,
    conflict_term: Option<u64>,
    read_context: Option<Seq<u8>>,
)
    requires
        plain(turn.actions),
    ensures
        unvoting(
            turn.append_answered(
                from,
                term,
                success,
                match_index,
                conflict_index,
                conflict_term,
                read_context,
            ).actions,
        ),
{
    stepping_down_is_unremarkable(turn, term, None);
    if term == turn.node.hard_state.current_term && turn.node.role == Role::Leader {
        let active = Turn {
            node: RaftView { recent_active: turn.node.recent_active.insert(from), ..turn.node },
            ..turn
        };
        let told = match read_context {
            Some(context) => active.read_acknowledged(from, context),
            None => active,
        };
        let progress = told.node.progress[from];
        let moved = told.with_progress(
            from,
            Progress {
                match_index: most(progress.match_index, match_index),
                next_index: most(
                    progress.next_index,
                    if match_index == u64::MAX {
                        u64::MAX
                    } else {
                        (match_index + 1) as u64
                    },
                ),
                snapshot_offset: None,
            },
        );
        advancing_gives_no_vote(moved);
        assert(unvoting(told.actions));
    }
}

/// No action gives a vote.
spec fn unvoting(actions: Seq<ActionView>) -> bool {
    forall|i: int| 0 <= i < actions.len() ==> vote_given(#[trigger] actions[i]) is None
}

proof fn advancing_gives_no_vote(turn: Turn)
    requires
        unvoting(turn.actions),
    ensures
        unvoting(turn.advanced().actions),
{
    applications_are_plain(
        turn.node.log,
        turn.node.role == Role::Leader,
        turn.node.applied_index as int,
        turn.node.configuration.quorum_index(turn.node.matched()) as int,
    );
}

/// A node gives no vote that it has not stored: each one that a step sends is the
/// vote of the node in its term. Since a vote stays in its term, no two
/// candidates get the vote of one node in one term.
pub proof fn given_votes_are_stored(node: RaftView, input: InputView, i: int)
    requires
        node.well_formed(),
        0 <= i < node.stepped(input).actions.len(),
        vote_given(node.stepped(input).actions[i]) is Some,
    ensures
        vote_given(node.stepped(input).actions[i]) == Some(
            (
                node.stepped(input).node.hard_state.voted_for->0,
                node.stepped(input).node.hard_state.current_term,
            ),
        ),
        node.stepped(input).node.hard_state.voted_for is Some,
{
    let start = Turn { node, actions: Seq::empty() };
    let turn = start.applied();
    applying_is_unremarkable(start);
    assert(plain(turn.actions));
    match input {
        InputView::Tick(tick) => {
            ticking_is_plain(turn, tick);
        },
        InputView::Propose { id, command } => {
            proposing_is_unremarkable(turn, id, command);
        },
        InputView::ReadIndex { context } => {
            reads_asked_give_no_vote(turn, context);
        },
        InputView::SnapshotBuilt(_) => {},
        InputView::Message { from, message } => {
            receiving_stores_votes(turn, from, message);
        },
    }
    assert(votes_stored(node.stepped(input)));
}

proof fn receiving_stores_votes(turn: Turn, from: NodeId, message: MessageView)
    requires
        plain(turn.actions),
    ensures
        votes_stored(turn.received(from, message)),
        message is RequestVote || unvoting(turn.received(from, message).actions),
{
    reveal(Turn::received);
    match message {
        MessageView::PreVoteResponse { responder_term, prospective_term, granted } => {
            stepping_down_is_unremarkable(turn, responder_term, None);
            let counted = Turn {
                node: RaftView { votes: turn.node.votes.insert(from), ..turn.node },
                ..turn
            };
            standing_is_plain(counted, prospective_term);
        },
        MessageView::RequestVoteResponse { term, granted } => {
            stepping_down_is_unremarkable(turn, term, None);
            let counted = Turn {
                node: RaftView { votes: turn.node.votes.insert(from), ..turn.node },
                ..turn
            };
            leading_is_plain(counted);
        },
        MessageView::RequestVote { term, .. } => {
            stepping_down_is_unremarkable(turn, term, None);
        },
        MessageView::AppendEntries {
            term,
            leader_id,
            prev_log_index,
            prev_log_term,
            entries,
            leader_commit,
            read_context,
        } => {
            entries_received_is_unremarkable(
                turn,
                from,
                term,
                leader_id,
                prev_log_index,
                prev_log_term,
                entries,
                leader_commit,
                read_context,
            );
        },
        MessageView::AppendEntriesResponse {
            term,
            success,
            match_index,
            conflict_index,
            conflict_term,
            read_context,
        } => {
            append_answered_gives_no_vote(
                turn,
                from,
                term,
                success,
                match_index,
                conflict_index,
                conflict_term,
                read_context,
            );
        },
        MessageView::InstallSnapshot { term, leader_id, metadata, offset, data, done } => {
            chunk_received_is_unremarkable(
                turn,
                from,
                term,
                leader_id,
                metadata,
                offset,
                data,
                done,
            );
        },
        MessageView::InstallSnapshotResponse {
            term,
            accepted,
            next_offset,
            done,
            match_index,
        } => {
            chunk_answered_is_unremarkable(
                turn,
                from,
                term,
                accepted,
                next_offset,
                done,
                match_index,
            );
        },
        _ => {},
    }
}

/// A vote is given only to a candidate that asks for it, and only if the log of
/// the candidate is not behind that of the voter.
pub proof fn votes_need_a_complete_log(node: RaftView, input: InputView, i: int)
    requires
        node.well_formed(),
        0 <= i < node.stepped(input).actions.len(),
        vote_given(node.stepped(input).actions[i]) is Some,
    ensures
        input matches InputView::Message {
            from,
            message: MessageView::RequestVote { term, candidate_id, last_log_index, last_log_term },
        } && candidate_id == from && node.up_to_date(last_log_index, last_log_term) && vote_given(
            node.stepped(input).actions[i],
        ) == Some((from, term)),
{
    let start = Turn { node, actions: Seq::empty() };
    let turn = start.applied();
    applying_is_unremarkable(start);
    assert(plain(turn.actions));
    match input {
        InputView::Tick(tick) => {
            ticking_is_plain(turn, tick);
            assert(unvoting(node.stepped(input).actions));
        },
        InputView::Propose { id, command } => {
            proposing_is_unremarkable(turn, id, command);
            assert(unvoting(node.stepped(input).actions));
        },
        InputView::ReadIndex { context } => {
            reads_asked_give_no_vote(turn, context);
            assert(unvoting(node.stepped(input).actions));
        },
        InputView::SnapshotBuilt(_) => {
            assert(unvoting(node.stepped(input).actions));
        },
        InputView::Message { from, message } => {
            receiving_stores_votes(turn, from, message);
            match message {
                MessageView::RequestVote { term, .. } => {
                    reveal(Turn::received);
                    stepping_down_is_unremarkable(turn, term, None);
                },
                _ => {
                    assert(unvoting(node.stepped(input).actions));
                },
            }
        },
    }
}

/// Two nodes that have each the votes of a quorum in one term, where no voter has
/// voted for two, are the same: a term has at most one leader.
pub proof fn one_leader_per_term(
    configuration: ConfigurationView,
    vote: Map<NodeId, NodeId>,
    first: NodeId,
    first_votes: Set<NodeId>,
    second: NodeId,
    second_votes: Set<NodeId>,
)
    requires
        configuration.valid(),
        configuration.quorum(first_votes),
        configuration.quorum(second_votes),
        forall|voter: NodeId| #[trigger]
            first_votes.contains(voter) ==> vote.contains_key(voter) && vote[voter] == first,
        forall|voter: NodeId| #[trigger]
            second_votes.contains(voter) ==> vote.contains_key(voter) && vote[voter] == second,
    ensures
        first == second,
{
    quorums_intersect(configuration, first_votes, second_votes);
    let voter = choose|voter: NodeId|
        #![trigger configuration.incoming.contains(voter)]
        configuration.incoming.contains(voter) && first_votes.contains(voter)
            && second_votes.contains(voter);
    assert(first_votes.contains(voter) && second_votes.contains(voter));
}

/// A read is answered only after a quorum has confirmed the leader: those that
/// had confirmed it with the one that has just done, and at the commit index of
/// the time when it was asked.
pub proof fn reads_wait_for_a_quorum(turn: Turn, from: NodeId, context: Seq<u8>)
    requires
        turn.read_acknowledged(from, context).actions != turn.actions,
    ensures
        turn.node.pending_reads.contains_key(context),
        turn.node.configuration.quorum(
            turn.node.pending_reads[context].acknowledgements.insert(from),
        ),
        turn.read_acknowledged(from, context).actions == turn.actions.push(
            ActionView::ReadReady { context, index: turn.node.pending_reads[context].index },
        ),
{
}

/// A read waits at the commit index of a leader that has committed an entry of
/// its own term; any other node refuses it.
pub proof fn reads_are_taken_by_ready_leaders(turn: Turn, context: Seq<u8>)
    requires
        !turn.node.pending_reads.contains_key(context),
        turn.read_asked(context).node.pending_reads.contains_key(context),
    ensures
        turn.node.role == Role::Leader,
        turn.node.log.term(turn.node.hard_state.commit_index) == Some(
            turn.node.hard_state.current_term,
        ),
        turn.read_asked(context).node.pending_reads[context].index
            == turn.node.hard_state.commit_index,
        turn.read_asked(context).node.pending_reads[context].acknowledgements
            == set![turn.node.id],
{
    let waiting = Turn {
        node: RaftView {
            pending_reads: turn.node.pending_reads.insert(
                context,
                PendingReadView {
                    index: turn.node.hard_state.commit_index,
                    acknowledgements: set![turn.node.id],
                },
            ),
            ..turn.node
        },
        ..turn
    };
    appending_is_unremarkable(waiting, Some(context), waiting.node.peers().len() as int);
}

} // verus!
