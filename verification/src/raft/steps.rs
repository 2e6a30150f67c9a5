//! What a step of a node does that the rest of a cluster learns of.

use vstd::prelude::*;
use crate::raft::log::LogView;
use crate::raft::matching::{
    asking_to_read_keeps_log, bringing_forward_keeps_node, divergence_is_first, grown,
    leading_adds_an_entry, proposing_grows, sending_keeps_node, standing_grows, ticking_grows,
};
use crate::raft::state::{
    PendingReadView, Progress, RaftView, Turn, applying_keeps_room, divergence, follows_on, most,
};
use crate::raft::types::{
    ActionView, CommandId, EntryPayloadView, HardState, InputView, LogEntryView, MessageView, Role,
    SnapshotMetadataView, StorageMutationView, Tick,
};
use crate::types::NodeId;

verus! {

/// A node has taken entries of a leader: from the first one on that its log did
/// not hold, they have replaced what was there.
pub open spec fn has_taken(
    log: LogView,
    prev_log_index: u64,
    prev_log_term: u64,
    entries: Seq<LogEntryView>,
    after: LogView,
) -> bool {
    let position = divergence(log, entries, 0);
    &&& log.base_index <= prev_log_index
    &&& log.term(prev_log_index) == Some(prev_log_term)
    &&& prev_log_index + entries.len() < u64::MAX
    &&& forall|i: int|
        0 <= i < entries.len() ==> (#[trigger] entries[i]).index == prev_log_index + 1 + i
    &&& after == if position < entries.len() {
        log.replaced_from(entries[position].index, entries.skip(position))
    } else {
        log
    }
}

/// How the log of a node changes in a step: it stays, the node writes one entry as
/// leader, applied entries go behind a snapshot, or a follower takes a snapshot or
/// entries of the leader of its term.
pub open spec fn log_step(before: RaftView, input: InputView, after: RaftView) -> bool {
    let log = before.log;
    ||| grown(log, after)
    ||| match input {
        InputView::SnapshotBuilt(snapshot) => {
            let index = snapshot.metadata.last_included_index;
            let term = snapshot.metadata.last_included_term;
            &&& log.base_index <= index <= before.hard_state.commit_index
            &&& log.term(index) == Some(term)
            &&& after.log == log.compacted(index, term, true)
        },
        InputView::Message { message, .. } => match message {
            MessageView::InstallSnapshot { term, metadata, .. } => {
                let index = metadata.last_included_index;
                &&& after.hard_state.current_term == term
                &&& after.role == Role::Follower
                &&& before.hard_state.commit_index < index
                &&& after.hard_state.commit_index == index
                &&& after.log == log.compacted(
                    index,
                    metadata.last_included_term,
                    log.term(index) == Some(metadata.last_included_term),
                )
            },
            MessageView::AppendEntries { term, prev_log_index, prev_log_term, entries, .. } => {
                &&& after.hard_state.current_term == term
                &&& after.role == Role::Follower
                &&& has_taken(log, prev_log_index, prev_log_term, entries, after.log)
                &&& divergence(log, entries, 0) < entries.len() ==> entries[divergence(
                    log,
                    entries,
                    0,
                )].index > before.hard_state.commit_index
            },
            _ => false,
        },
        _ => false,
    }
}

/// A vote that a node holds was its vote before, is for itself, or was given to a
/// candidate that has asked for it and whose log is not behind.
pub open spec fn vote_step(before: RaftView, input: InputView, after: RaftView) -> bool {
    after.hard_state.voted_for matches Some(candidate) ==> {
        ||| candidate == after.id
        ||| before.hard_state.voted_for == Some(candidate) && before.hard_state.current_term
            == after.hard_state.current_term
        ||| input matches InputView::Message {
            from,
            message: MessageView::RequestVote { term, candidate_id, last_log_index, last_log_term },
        } && candidate == from && candidate_id == from && term == after.hard_state.current_term
            && before.up_to_date(last_log_index, last_log_term) && after.log == before.log
    }
}

/// Up to where a leader believes that a peer holds its log: to where it believed
/// before, or to where the peer has just acknowledged it.
pub open spec fn believed(
    before: RaftView,
    input: InputView,
    after: RaftView,
    peer: NodeId,
) -> bool {
    let index = after.progress[peer].match_index;
    let term = after.hard_state.current_term;
    ||| index == 0
    ||| peer == after.id && index <= after.log.last_index()
    ||| before.role == Role::Leader && before.hard_state.current_term == term
        && before.progress.contains_key(peer) && before.progress[peer].match_index == index
    ||| input matches InputView::Message { from, message } && from == peer && acknowledges(
        message,
        term,
        index,
    )
}

/// A message acknowledges the log of the leader of a term up to an index.
pub open spec fn acknowledges(message: MessageView, term: u64, index: u64) -> bool {
    match message {
        MessageView::AppendEntriesResponse { term: sent, success, match_index, .. } => success
            && sent == term && match_index == index,
        MessageView::InstallSnapshotResponse { term: sent, accepted, done, match_index, .. } => {
            accepted && done && sent == term && match_index == index
        },
        _ => false,
    }
}

/// How a leader comes to believe what it does of its peers.
pub open spec fn progress_step(before: RaftView, input: InputView, after: RaftView) -> bool {
    after.role == Role::Leader ==> forall|peer: NodeId| #[trigger]
        after.progress.contains_key(peer) ==> believed(before, input, after, peer)
}

/// How far a node commits in a step: no further, as far as a quorum holds the log
/// of the leader that it is, as far as the leader of its term says and as its log
/// is known to be the leader's, or up to a snapshot.
pub open spec fn commit_step(before: RaftView, input: InputView, after: RaftView) -> bool {
    let commit = after.hard_state.commit_index;
    ||| commit == before.hard_state.commit_index
    ||| after.role == Role::Leader && commit == after.configuration.quorum_index(after.matched())
        && after.log.term(commit) == Some(after.hard_state.current_term)
    ||| match input {
        InputView::Message { message, .. } => match message {
            MessageView::InstallSnapshot { term, metadata, .. } => commit
                == metadata.last_included_index && after.log.base_index == commit
                && after.log.base_term == metadata.last_included_term
                && after.hard_state.current_term == term,
            MessageView::AppendEntries {
                term,
                prev_log_index,
                prev_log_term,
                entries,
                leader_commit,
                ..
            } => {
                &&& after.hard_state.current_term == term
                &&& commit <= leader_commit
                &&& commit <= prev_log_index + entries.len()
                &&& has_taken(before.log, prev_log_index, prev_log_term, entries, after.log)
            },
            _ => false,
        },
        _ => false,
    }
}

/// A node that becomes leader has just written an entry of its term.
pub open spec fn lead_step(before: RaftView, after: RaftView) -> bool {
    after.role == Role::Leader && before.role != Role::Leader ==> {
        &&& after.log == before.log.appended(seq![after.log.entries.last()])
        &&& after.log.entries.last().term == after.hard_state.current_term
        &&& after.log.entries.last().index == before.log.last_index() + 1
    }
}

/// All that a step does to a node.
pub open spec fn node_step(before: RaftView, input: InputView, after: RaftView) -> bool {
    &&& log_step(before, input, after)
    &&& progress_step(before, input, after)
    &&& commit_step(before, input, after)
    &&& vote_step(before, input, after)
    &&& lead_step(before, after)
}

proof fn leading_steps(turn: Turn, input: InputView)
    requires
        turn.node.log.last_index() + 1 < u64::MAX,
    ensures
        node_step(turn.node, input, turn.leading().node),
        turn.leading().node.role == Role::Leader,
        turn.leading().node.id == turn.node.id,
        turn.leading().node.configuration == turn.node.configuration,
        turn.leading().node.hard_state.current_term == turn.node.hard_state.current_term,
        turn.leading().node.hard_state.voted_for == turn.node.hard_state.voted_for,
        forall|peer: NodeId| #[trigger]
            turn.leading().node.progress.contains_key(peer)
                ==> turn.leading().node.progress[peer].match_index == 0 || (peer == turn.node.id
                && turn.leading().node.progress[peer].match_index
                <= turn.leading().node.log.last_index()),
{
    leading_adds_an_entry(turn);
    let entry = LogEntryView {
        index: (turn.node.log.last_index() + 1) as u64,
        term: turn.node.hard_state.current_term,
        payload: EntryPayloadView::Noop,
    };
    let id = turn.node.id;
    let voters = turn.node.configuration.voters();
    let begun = Turn {
        node: RaftView {
            role: Role::Leader,
            leader_id: Some(id),
            votes: Set::empty(),
            pending_reads: Map::empty(),
            log: turn.node.log.appended(seq![entry]),
            progress: Map::new(
                |voter: NodeId| voters.contains(voter),
                |voter: NodeId|
                    Progress {
                        match_index: if voter == id {
                            entry.index
                        } else {
                            0
                        },
                        next_index: (entry.index + 1) as u64,
                        snapshot_offset: None,
                    },
            ),
            recent_active: voters,
            ..turn.node
        },
        ..turn
    }.act(
        ActionView::Persist(StorageMutationView::Append(seq![entry])),
    ).act(ActionView::RoleChanged { role: Role::Leader, term: entry.term }).act(
        ActionView::ResetHeartbeatTimer,
    );
    bringing_forward_keeps_node(
        begun.advanced(),
        None,
        begun.advanced().node.peers().len() as int,
    );
    assert(turn.leading() == begun.advanced().broadcast(None));
    assert(begun.node.log.entries.last() == entry);
    assert(begun.advanced().node.matched() =~= begun.node.matched());
}

proof fn standing_steps(turn: Turn, input: InputView, term: u64)
    requires
        turn.node.log.last_index() + 1 < u64::MAX,
    ensures
        node_step(turn.node, input, turn.standing(term).node),
{
    let asked = Turn {
        node: RaftView {
            hard_state: HardState {
                current_term: term,
                voted_for: Some(turn.node.id),
                ..turn.node.hard_state
            },
            role: Role::Candidate,
            campaign_term: None,
            votes: set![turn.node.id],
            ..turn.node
        },
        ..turn
    }.persist_hard_state().act(ActionView::RoleChanged { role: Role::Candidate, term }).act(
        ActionView::ResetElectionTimer,
    );
    leading_steps(asked, input);
    sending_keeps_node(
        asked,
        MessageView::RequestVote {
            term,
            candidate_id: asked.node.id,
            last_log_index: asked.node.log.last_index(),
            last_log_term: asked.node.log.last_term(),
        },
        asked.node.peers().len() as int,
    );
    standing_grows(turn, term);
    let after = turn.standing(term).node;
    if asked.node.configuration.quorum(asked.node.votes) {
        assert(after == asked.leading().node);
        assert(progress_step(turn.node, input, after));
        assert(commit_step(turn.node, input, after));
        assert(lead_step(turn.node, after));
    } else {
        assert(after == asked.node);
    }
}

proof fn ticking_steps(turn: Turn, input: InputView, tick: Tick)
    requires
        turn.node.log.last_index() + 1 < u64::MAX,
    ensures
        node_step(turn.node, input, turn.ticked(tick).node),
{
    ticking_grows(turn, tick);
    match tick {
        Tick::Election => {
            if turn.node.role != Role::Leader && turn.node.hard_state.current_term < u64::MAX {
                let prospective_term = (turn.node.hard_state.current_term + 1) as u64;
                let asked = Turn {
                    node: RaftView {
                        role: Role::PreCandidate,
                        leader_id: None,
                        campaign_term: Some(prospective_term),
                        votes: set![turn.node.id],
                        ..turn.node
                    },
                    ..turn
                }.act(
                    ActionView::RoleChanged {
                        role: Role::PreCandidate,
                        term: turn.node.hard_state.current_term,
                    },
                ).act(ActionView::ResetElectionTimer);
                standing_steps(asked, input, prospective_term);
                sending_keeps_node(
                    asked,
                    MessageView::PreVoteRequest {
                        prospective_term,
                        candidate_id: asked.node.id,
                        last_log_index: asked.node.log.last_index(),
                        last_log_term: asked.node.log.last_term(),
                    },
                    asked.node.peers().len() as int,
                );
                let after = turn.ticked(tick).node;
                if after.role == Role::Leader {
                    assert forall|peer: NodeId| #[trigger]
                        after.progress.contains_key(peer) implies believed(
                        turn.node,
                        input,
                        after,
                        peer,
                    ) by {
                        assert(believed(asked.node, input, after, peer));
                    }
                }
            }
        },
        Tick::Heartbeat => {
            bringing_forward_keeps_node(turn, None, turn.node.peers().len() as int);
        },
        Tick::CheckQuorum => {
            let checked = Turn {
                node: RaftView { recent_active: set![turn.node.id], ..turn.node },
                ..turn
            };
            bringing_forward_keeps_node(checked, None, checked.node.peers().len() as int);
        },
    }
}

proof fn proposing_steps(turn: Turn, input: InputView, id: CommandId, command: Seq<u8>)
    requires
        turn.node.log.last_index() + 1 < u64::MAX,
    ensures
        node_step(turn.node, input, turn.proposed(id, command).node),
{
    proposing_grows(turn, id, command);
    if turn.node.role == Role::Leader {
        let entry = LogEntryView {
            index: (turn.node.log.last_index() + 1) as u64,
            term: turn.node.hard_state.current_term,
            payload: EntryPayloadView::Command { id, bytes: command },
        };
        let written = Turn {
            node: RaftView { log: turn.node.log.appended(seq![entry]), ..turn.node },
            ..turn
        }.with_progress(
            turn.node.id,
            Progress {
                match_index: entry.index,
                next_index: (entry.index + 1) as u64,
                ..turn.node.progress[turn.node.id]
            },
        ).act(ActionView::Persist(StorageMutationView::Append(seq![entry])));
        bringing_forward_keeps_node(
            written.advanced(),
            None,
            written.advanced().node.peers().len() as int,
        );
        assert(written.node.log.entries.last() == entry);
        assert(written.advanced().node.matched() =~= written.node.matched());
    }
}

proof fn append_answered_steps(
    turn: Turn,
    from: NodeId,
    term: u64,
    success: bool,
    match_index: u64,
    conflict_index: u64,
    conflict_term: Option<u64>,
    read_context: Option<Seq<u8>>,
)
    ensures
        ({
            let message = MessageView::AppendEntriesResponse {
                term,
                success,
                match_index,
                conflict_index,
                conflict_term,
                read_context,
            };
            node_step(
                turn.node,
                InputView::Message { from, message },
                turn.append_answered(
                    from,
                    term,
                    success,
                    match_index,
                    conflict_index,
                    conflict_term,
                    read_context,
                ).node,
            )
        }),
{
    if turn.node.role == Role::Leader && term == turn.node.hard_state.current_term {
        let active = Turn {
            node: RaftView { recent_active: turn.node.recent_active.insert(from), ..turn.node },
            ..turn
        };
        let told = match read_context {
            Some(context) => active.read_acknowledged(from, context),
            None => active,
        };
        let progress = told.node.progress[from];
        let moved = told.with_progress(
            from,
            Progress {
                match_index: most(progress.match_index, match_index),
                next_index: most(
                    progress.next_index,
                    if match_index == u64::MAX {
                        u64::MAX
                    } else {
                        (match_index + 1) as u64
                    },
                ),
                snapshot_offset: None,
            },
        );
        assert(moved.advanced().node.matched() =~= moved.node.matched());
        assert(moved.advanced().node.progress == moved.node.progress);
    }
}

proof fn chunk_answered_steps(
    turn: Turn,
    from: NodeId,
    term: u64,
    accepted: bool,
    next_offset: u64,
    done: bool,
    match_index: u64,
)
    ensures
        ({
            let message = MessageView::InstallSnapshotResponse {
                term,
                accepted,
                next_offset,
                done,
                match_index,
            };
            node_step(
                turn.node,
                InputView::Message { from, message },
                turn.chunk_answered(
                    from,
                    term,
                    accepted,
                    next_offset,
                    done,
                    match_index,
                ).node,
            )
        }),
{
    if turn.node.role == Role::Leader && term == turn.node.hard_state.current_term
        && turn.node.progress.contains_key(from) {
        let active = Turn {
            node: RaftView { recent_active: turn.node.recent_active.insert(from), ..turn.node },
            ..turn
        };
        let progress = active.node.progress[from];
        let moved = active.with_progress(
            from,
            Progress {
                match_index: most(progress.match_index, match_index),
                next_index: most(progress.next_index, (match_index + 1) as u64),
                snapshot_offset: None,
            },
        );
        assert(moved.advanced().node.matched() =~= moved.node.matched());
        assert(moved.advanced().node.progress == moved.node.progress);
    }
}

proof fn pre_vote_answered_steps(
    turn: Turn,
    input: InputView,
    from: NodeId,
    responder_term: u64,
    prospective_term: u64,
    granted: bool,
)
    requires
        turn.node.log.last_index() + 1 < u64::MAX,
    ensures
        node_step(
            turn.node,
            input,
            turn.pre_vote_answered(from, responder_term, prospective_term, granted).node,
        ),
{
    let counted = Turn {
        node: RaftView { votes: turn.node.votes.insert(from), ..turn.node },
        ..turn
    };
    standing_steps(counted, input, prospective_term);
    let stood = counted.standing(prospective_term).node;
    if turn.node.role == Role::PreCandidate {
        assert(progress_step(turn.node, input, stood)) by {
            if stood.role == Role::Leader {
                assert forall|peer: NodeId| #[trigger]
                    stood.progress.contains_key(peer) implies believed(
                    turn.node,
                    input,
                    stood,
                    peer,
                ) by {
                    assert(believed(counted.node, input, stood, peer));
                }
            }
        }
    }
}

proof fn vote_answered_steps(turn: Turn, input: InputView, from: NodeId, term: u64, granted: bool)
    requires
        turn.node.log.last_index() + 1 < u64::MAX,
    ensures
        node_step(turn.node, input, turn.vote_answered(from, term, granted).node),
{
    let counted = Turn {
        node: RaftView { votes: turn.node.votes.insert(from), ..turn.node },
        ..turn
    };
    leading_steps(counted, input);
    let led = counted.leading().node;
    assert(progress_step(turn.node, input, led)) by {
        assert forall|peer: NodeId| #[trigger] led.progress.contains_key(peer) implies believed(
            turn.node,
            input,
            led,
            peer,
        ) by {}
    }
}

proof fn vote_asked_steps(
    turn: Turn,
    from: NodeId,
    term: u64,
    candidate_id: NodeId,
    last_log_index: u64,
    last_log_term: u64,
)
    ensures
        ({
            let message = MessageView::RequestVote {
                term,
                candidate_id,
                last_log_index,
                last_log_term,
            };
            node_step(
                turn.node,
                InputView::Message { from, message },
                turn.vote_asked(from, term, candidate_id, last_log_index, last_log_term).node,
            )
        }),
{
}

proof fn entries_received_steps(
    turn: Turn,
    from: NodeId,
    term: u64,
    leader_id: NodeId,
    prev_log_index: u64,
    prev_log_term: u64,
    entries: Seq<LogEntryView>,
    leader_commit: u64,
    read_context: Option<Seq<u8>>,
)
    requires
        turn.node.log.contiguous(),
        leader_id == from && term >= turn.node.hard_state.current_term && follows_on(
            turn.node.log,
            prev_log_index,
            prev_log_term,
            term,
            entries,
        ) ==> prev_log_index + entries.len() < u64::MAX,
    ensures
        ({
            let message = MessageView::AppendEntries {
                term,
                leader_id,
                prev_log_index,
                prev_log_term,
                entries,
                leader_commit,
                read_context,
            };
            node_step(
                turn.node,
                InputView::Message { from, message },
                turn.entries_received(
                    from,
                    term,
                    leader_id,
                    prev_log_index,
                    prev_log_term,
                    entries,
                    leader_commit,
                    read_context,
                ).node,
            )
        }),
{
    divergence_is_first(turn.node.log, entries, 0);
    reveal(follows_on);
}

proof fn chunk_received_steps(
    turn: Turn,
    from: NodeId,
    term: u64,
    leader_id: NodeId,
    metadata: SnapshotMetadataView,
    offset: u64,
    data: Seq<u8>,
    done: bool,
)
    requires
        turn.node.applied_index == turn.node.hard_state.commit_index,
    ensures
        ({
            let message = MessageView::InstallSnapshot {
                term,
                leader_id,
                metadata,
                offset,
                data,
                done,
            };
            node_step(
                turn.node,
                InputView::Message { from, message },
                turn.chunk_received(from, term, leader_id, metadata, offset, data, done).node,
            )
        }),
{
}

proof fn receiving_steps(turn: Turn, from: NodeId, message: MessageView)
    requires
        turn.node.log.contiguous(),
        turn.node.applied_index == turn.node.hard_state.commit_index,
        turn.node.log.last_index() + 1 < u64::MAX,
        turn.node.entries_fit(from, message),
    ensures
        node_step(
            turn.node,
            InputView::Message { from, message },
            turn.received(from, message).node,
        ),
{
    reveal(Turn::received);
    let input = InputView::Message { from, message };
    match message {
        MessageView::PreVoteRequest { .. } => {},
        MessageView::PreVoteResponse { responder_term, prospective_term, granted } => {
            pre_vote_answered_steps(turn, input, from, responder_term, prospective_term, granted);
        },
        MessageView::RequestVote { term, candidate_id, last_log_index, last_log_term } => {
            vote_asked_steps(turn, from, term, candidate_id, last_log_index, last_log_term);
        },
        MessageView::RequestVoteResponse { term, granted } => {
            vote_answered_steps(turn, input, from, term, granted);
        },
        MessageView::AppendEntries {
            term,
            leader_id,
            prev_log_index,
            prev_log_term,
            entries,
            leader_commit,
            read_context,
        } => {
            if turn.node.configuration.voters().contains(from) && from != turn.node.id {
                reveal(RaftView::entries_fit);
                entries_received_steps(
                    turn,
                    from,
                    term,
                    leader_id,
                    prev_log_index,
                    prev_log_term,
                    entries,
                    leader_commit,
                    read_context,
                );
            }
        },
        MessageView::InstallSnapshot { term, leader_id, metadata, offset, data, done } => {
            chunk_received_steps(turn, from, term, leader_id, metadata, offset, data, done);
        },
        MessageView::AppendEntriesResponse {
            term,
            success,
            match_index,
            conflict_index,
            conflict_term,
            read_context,
        } => {
            append_answered_steps(
                turn,
                from,
                term,
                success,
                match_index,
                conflict_index,
                conflict_term,
                read_context,
            );
        },
        MessageView::InstallSnapshotResponse {
            term,
            accepted,
            next_offset,
            done,
            match_index,
        } => {
            chunk_answered_steps(turn, from, term, accepted, next_offset, done, match_index);
        },
    }
}

/// What a step does to the log of a node, to what a leader believes of its peers,
/// and to what is committed.
pub proof fn steps_are_justified(node: RaftView, input: InputView)
    requires
        node.well_formed(),
        node.has_room(input),
    ensures
        node_step(node, input, node.stepped(input).node),
{
    let turn = Turn { node, actions: Seq::empty() }.applied();
    let after = node.stepped(input).node;
    applying_keeps_room(Turn { node, actions: Seq::empty() }, input);
    match input {
        InputView::Tick(tick) => {
            ticking_steps(turn, input, tick);
        },
        InputView::Propose { id, command } => {
            proposing_steps(turn, input, id, command);
        },
        InputView::ReadIndex { context } => {
            asking_to_read_keeps_log(turn, context);
            let waiting = Turn {
                node: RaftView {
                    pending_reads: turn.node.pending_reads.insert(
                        context,
                        PendingReadView {
                            index: turn.node.hard_state.commit_index,
                            acknowledgements: set![turn.node.id],
                        },
                    ),
                    ..turn.node
                },
                ..turn
            };
            bringing_forward_keeps_node(
                waiting,
                Some(context),
                waiting.node.peers().len() as int,
            );
        },
        InputView::SnapshotBuilt(_) => {},
        InputView::Message { from, message } => {
            receiving_steps(turn, from, message);
        },
    }
    applying_first_changes_nothing(node, turn.node, input, after);
}

/// What a step does is the same seen from before what is committed is applied.
proof fn applying_first_changes_nothing(
    node: RaftView,
    applied: RaftView,
    input: InputView,
    after: RaftView,
)
    requires
        applied == (RaftView { applied_index: node.hard_state.commit_index, ..node }),
        node_step(applied, input, after),
    ensures
        node_step(node, input, after),
{
    if after.role == Role::Leader {
        assert forall|peer: NodeId| #[trigger] after.progress.contains_key(peer) implies believed(
            node,
            input,
            after,
            peer,
        ) by {
            assert(believed(applied, input, after, peer));
        }
    }
}

} // verus!
