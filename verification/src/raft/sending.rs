//! What messages carry of the log of their sender.

use vstd::prelude::*;
use crate::raft::log::{LogView, last_index_counts};
use crate::raft::matching::{bringing_forward_keeps_node, run_of};
use crate::raft::state::{
    MAX_APPEND_ENTRIES, PendingReadView, Progress, RaftView, Turn, applications, divergence, least,
    most, refused_reads,
};
use crate::raft::types::{
    ActionView, CommandId, EntryPayloadView, HardState, InputView, LogEntryView, MessageView, Role,
    SnapshotMetadataView, StorageMutationView, Tick,
};
use crate::types::NodeId;

verus! {

/// What a message takes from the log of its sender is there: entries are a run of
/// the log, and a snapshot is the one that the log starts behind.
pub open spec fn sound_message(log: LogView, message: MessageView) -> bool {
    match message {
        MessageView::AppendEntries { prev_log_index, prev_log_term, entries, .. } => run_of(
            log,
            prev_log_index,
            prev_log_term,
            entries,
        ),
        MessageView::InstallSnapshot { metadata, .. } => log.base_index
            == metadata.last_included_index && log.base_term == metadata.last_included_term,
        _ => true,
    }
}

spec fn sound_action(log: LogView, action: ActionView) -> bool {
    action matches ActionView::Send { message, .. } ==> sound_message(log, message)
}

/// Every message that has been sent is sound.
spec fn sound_sends(log: LogView, actions: Seq<ActionView>) -> bool {
    forall|i: int| 0 <= i < actions.len() ==> sound_action(log, #[trigger] actions[i])
}

/// No message takes anything from a log.
spec fn takes_nothing(actions: Seq<ActionView>) -> bool {
    forall|i: int|
        0 <= i < actions.len() ==> ((#[trigger] actions[i]) matches ActionView::Send { message, .. }
            ==> !(message is AppendEntries) && !(message is InstallSnapshot))
}

/// The log starts behind the snapshot of the node.
spec fn anchored(node: RaftView) -> bool {
    &&& node.log.contiguous()
    &&& node.snapshot matches Some(snapshot) ==> node.log.base_index
        == snapshot.metadata.last_included_index && node.log.base_term
        == snapshot.metadata.last_included_term
}

proof fn applying_takes_nothing(log: LogView, leader: bool, from: int, to: int)
    ensures
        takes_nothing(applications(log, leader, from, to)),
    decreases to - from,
{
    if to > from {
        applying_takes_nothing(log, leader, from, to - 1);
    }
}

proof fn advancing_takes_nothing(turn: Turn)
    requires
        takes_nothing(turn.actions),
    ensures
        takes_nothing(turn.advanced().actions),
        turn.advanced().node.log == turn.node.log,
        turn.advanced().node.snapshot == turn.node.snapshot,
{
    applying_takes_nothing(
        turn.node.log,
        turn.node.role == Role::Leader,
        turn.node.applied_index as int,
        turn.node.configuration.quorum_index(turn.node.matched()) as int,
    );
}

proof fn bringing_one_forward_is_sound(turn: Turn, peer: NodeId, read_context: Option<Seq<u8>>)
    requires
        anchored(turn.node),
        turn.node.log.last_index() < u64::MAX,
        sound_sends(turn.node.log, turn.actions),
    ensures
        sound_sends(turn.node.log, turn.append_to(peer, read_context).actions),
{
    let log = turn.node.log;
    last_index_counts(log);
    if turn.node.progress.contains_key(peer) {
        let progress = turn.node.progress[peer];
        if progress.next_index > log.base_index {
            let next_index = least(progress.next_index, (log.last_index() + 1) as u64);
            let entries = log.entries_from(next_index, MAX_APPEND_ENTRIES as int);
            let prev_log_index = (next_index - 1) as u64;
            assert forall|i: int| 0 <= i < entries.len() implies log.entry(
                (prev_log_index + 1 + i) as u64,
            ) == Some(#[trigger] entries[i]) by {
                assert(entries[i] == log.entries[next_index - log.base_index - 1 + i]);
            }
        }
    }
}

proof fn bringing_forward_is_sound(turn: Turn, read_context: Option<Seq<u8>>, n: int)
    requires
        anchored(turn.node),
        turn.node.log.last_index() < u64::MAX,
        sound_sends(turn.node.log, turn.actions),
    ensures
        sound_sends(turn.node.log, turn.append_to_first(read_context, n).actions),
    decreases n,
{
    if n > 0 {
        bringing_forward_is_sound(turn, read_context, n - 1);
        bringing_forward_keeps_node(turn, read_context, n - 1);
        bringing_one_forward_is_sound(
            turn.append_to_first(read_context, n - 1),
            turn.node.peers()[n - 1],
            read_context,
        );
    }
}

proof fn asking_takes_nothing(turn: Turn, message: MessageView, n: int)
    requires
        takes_nothing(turn.actions),
        !(message is AppendEntries),
        !(message is InstallSnapshot),
    ensures
        takes_nothing(turn.send_to_first(message, n).actions),
    decreases n,
{
    if n > 0 {
        asking_takes_nothing(turn, message, n - 1);
    }
}

proof fn leading_is_sound(turn: Turn)
    requires
        anchored(turn.node),
        turn.node.log.last_index() + 1 < u64::MAX,
        takes_nothing(turn.actions),
    ensures
        sound_sends(turn.leading().node.log, turn.leading().actions),
{
    let entry = LogEntryView {
        index: (turn.node.log.last_index() + 1) as u64,
        term: turn.node.hard_state.current_term,
        payload: EntryPayloadView::Noop,
    };
    let id = turn.node.id;
    let voters = turn.node.configuration.voters();
    let begun = Turn {
        node: RaftView {
            role: Role::Leader,
            leader_id: Some(id),
            votes: Set::empty(),
            pending_reads: Map::empty(),
            log: turn.node.log.appended(seq![entry]),
            progress: Map::new(
                |voter: NodeId| voters.contains(voter),
                |voter: NodeId|
                    Progress {
                        match_index: if voter == id {
                            entry.index
                        } else {
                            0
                        },
                        next_index: (entry.index + 1) as u64,
                        snapshot_offset: None,
                    },
            ),
            recent_active: voters,
            ..turn.node
        },
        ..turn
    }.act(
        ActionView::Persist(StorageMutationView::Append(seq![entry])),
    ).act(ActionView::RoleChanged { role: Role::Leader, term: entry.term }).act(
        ActionView::ResetHeartbeatTimer,
    );
    last_index_counts(turn.node.log);
    assert(begun.node.log.contiguous());
    assert(begun.node.log.entries.last() == entry);
    advancing_takes_nothing(begun);
    let n = begun.advanced().node.peers().len() as int;
    bringing_forward_keeps_node(begun.advanced(), None, n);
    bringing_forward_is_sound(begun.advanced(), None, n);
    assert(turn.leading() == begun.advanced().broadcast(None));
}

proof fn standing_is_sound(turn: Turn, term: u64)
    requires
        anchored(turn.node),
        turn.node.log.last_index() + 1 < u64::MAX,
        takes_nothing(turn.actions),
    ensures
        sound_sends(turn.standing(term).node.log, turn.standing(term).actions),
{
    let asked = Turn {
        node: RaftView {
            hard_state: HardState {
                current_term: term,
                voted_for: Some(turn.node.id),
                ..turn.node.hard_state
            },
            role: Role::Candidate,
            campaign_term: None,
            votes: set![turn.node.id],
            ..turn.node
        },
        ..turn
    }.persist_hard_state().act(ActionView::RoleChanged { role: Role::Candidate, term }).act(
        ActionView::ResetElectionTimer,
    );
    leading_is_sound(asked);
    asking_takes_nothing(
        asked,
        MessageView::RequestVote {
            term,
            candidate_id: asked.node.id,
            last_log_index: asked.node.log.last_index(),
            last_log_term: asked.node.log.last_term(),
        },
        asked.node.peers().len() as int,
    );
}

proof fn ticking_is_sound(turn: Turn, tick: Tick)
    requires
        anchored(turn.node),
        turn.node.log.last_index() + 1 < u64::MAX,
        takes_nothing(turn.actions),
    ensures
        sound_sends(turn.ticked(tick).node.log, turn.ticked(tick).actions),
{
    match tick {
        Tick::Election => {
            if turn.node.hard_state.current_term < u64::MAX {
                let prospective_term = (turn.node.hard_state.current_term + 1) as u64;
                let asked = Turn {
                    node: RaftView {
                        role: Role::PreCandidate,
                        leader_id: None,
                        campaign_term: Some(prospective_term),
                        votes: set![turn.node.id],
                        ..turn.node
                    },
                    ..turn
                }.act(
                    ActionView::RoleChanged {
                        role: Role::PreCandidate,
                        term: turn.node.hard_state.current_term,
                    },
                ).act(ActionView::ResetElectionTimer);
                standing_is_sound(asked, prospective_term);
                asking_takes_nothing(
                    asked,
                    MessageView::PreVoteRequest {
                        prospective_term,
                        candidate_id: asked.node.id,
                        last_log_index: asked.node.log.last_index(),
                        last_log_term: asked.node.log.last_term(),
                    },
                    asked.node.peers().len() as int,
                );
            }
        },
        Tick::Heartbeat => {
            bringing_forward_is_sound(turn, None, turn.node.peers().len() as int);
            bringing_forward_keeps_node(turn, None, turn.node.peers().len() as int);
        },
        Tick::CheckQuorum => {
            let checked = Turn {
                node: RaftView { recent_active: set![turn.node.id], ..turn.node },
                ..turn
            };
            bringing_forward_is_sound(checked, None, checked.node.peers().len() as int);
            bringing_forward_keeps_node(checked, None, checked.node.peers().len() as int);
            assert(takes_nothing(refused_reads(turn.node.pending_reads)));
        },
    }
}

proof fn proposing_is_sound(turn: Turn, id: CommandId, command: Seq<u8>)
    requires
        anchored(turn.node),
        turn.node.log.last_index() + 1 < u64::MAX,
        takes_nothing(turn.actions),
    ensures
        sound_sends(turn.proposed(id, command).node.log, turn.proposed(id, command).actions),
{
    if turn.node.role == Role::Leader {
        let entry = LogEntryView {
            index: (turn.node.log.last_index() + 1) as u64,
            term: turn.node.hard_state.current_term,
            payload: EntryPayloadView::Command { id, bytes: command },
        };
        let written = Turn {
            node: RaftView { log: turn.node.log.appended(seq![entry]), ..turn.node },
            ..turn
        }.with_progress(
            turn.node.id,
            Progress {
                match_index: entry.index,
                next_index: (entry.index + 1) as u64,
                ..turn.node.progress[turn.node.id]
            },
        ).act(ActionView::Persist(StorageMutationView::Append(seq![entry])));
        last_index_counts(turn.node.log);
        assert(written.node.log.contiguous());
        assert(written.node.log.entries.last() == entry);
        advancing_takes_nothing(written);
        let n = written.advanced().node.peers().len() as int;
        bringing_forward_keeps_node(written.advanced(), None, n);
        bringing_forward_is_sound(written.advanced(), None, n);
    }
}

proof fn asking_to_read_is_sound(turn: Turn, context: Seq<u8>)
    requires
        anchored(turn.node),
        turn.node.log.last_index() + 1 < u64::MAX,
        takes_nothing(turn.actions),
    ensures
        sound_sends(turn.read_asked(context).node.log, turn.read_asked(context).actions),
{
    let waiting = Turn {
        node: RaftView {
            pending_reads: turn.node.pending_reads.insert(
                context,
                PendingReadView {
                    index: turn.node.hard_state.commit_index,
                    acknowledgements: set![turn.node.id],
                },
            ),
            ..turn.node
        },
        ..turn
    };
    bringing_forward_is_sound(waiting, Some(context), waiting.node.peers().len() as int);
    bringing_forward_keeps_node(waiting, Some(context), waiting.node.peers().len() as int);
}

proof fn stepping_down_takes_nothing(turn: Turn, term: u64, leader_id: Option<NodeId>)
    requires
        takes_nothing(turn.actions),
    ensures
        takes_nothing(turn.stepped_down(term, leader_id).actions),
        takes_nothing(turn.outdated(term).actions),
{
    assert(takes_nothing(refused_reads(turn.node.pending_reads)));
}

proof fn committing_takes_nothing(turn: Turn, index: u64)
    requires
        takes_nothing(turn.actions),
    ensures
        takes_nothing(turn.committed(index).actions),
{
    applying_takes_nothing(
        turn.node.log,
        turn.node.role == Role::Leader,
        turn.node.applied_index as int,
        index as int,
    );
}

proof fn receiving_entries_takes_nothing(
    turn: Turn,
    from: NodeId,
    term: u64,
    leader_id: NodeId,
    prev_log_index: u64,
    prev_log_term: u64,
    entries: Seq<LogEntryView>,
    leader_commit: u64,
    read_context: Option<Seq<u8>>,
)
    requires
        takes_nothing(turn.actions),
    ensures
        takes_nothing(
            turn.entries_received(
                from,
                term,
                leader_id,
                prev_log_index,
                prev_log_term,
                entries,
                leader_commit,
                read_context,
            ).actions,
        ),
{
    stepping_down_takes_nothing(turn, term, Some(from));
    let follower = turn.stepped_down(term, Some(from)).act(ActionView::ResetElectionTimer);
    let position = divergence(follower.node.log, entries, 0);
    let written = if position < entries.len() {
        let index = entries[position].index;
        let suffix = entries.skip(position);
        Turn {
            node: RaftView {
                log: follower.node.log.replaced_from(index, suffix),
                ..follower.node
            },
            ..follower
        }.act(
            ActionView::Persist(
                if index <= follower.node.log.last_index() {
                    StorageMutationView::TruncateAndAppend { from: index, entries: suffix }
                } else {
                    StorageMutationView::Append(suffix)
                },
            ),
        )
    } else {
        follower
    };
    committing_takes_nothing(written, least(leader_commit, (prev_log_index + entries.len()) as u64));
    assert(takes_nothing(
        follower.entries_taken(from, prev_log_index, entries, leader_commit, read_context).actions,
    ));
}

proof fn receiving_chunks_takes_nothing(
    turn: Turn,
    from: NodeId,
    term: u64,
    leader_id: NodeId,
    metadata: SnapshotMetadataView,
    offset: u64,
    data: Seq<u8>,
    done: bool,
)
    requires
        takes_nothing(turn.actions),
    ensures
        takes_nothing(
            turn.chunk_received(from, term, leader_id, metadata, offset, data, done).actions,
        ),
{
    stepping_down_takes_nothing(turn, term, Some(from));
}

proof fn answered_entries_are_sound(
    turn: Turn,
    from: NodeId,
    term: u64,
    success: bool,
    match_index: u64,
    conflict_index: u64,
    conflict_term: Option<u64>,
    read_context: Option<Seq<u8>>,
)
    requires
        anchored(turn.node),
        turn.node.log.last_index() + 1 < u64::MAX,
        takes_nothing(turn.actions),
    ensures
        ({
            let after = turn.append_answered(
                from,
                term,
                success,
                match_index,
                conflict_index,
                conflict_term,
                read_context,
            );
            sound_sends(after.node.log, after.actions)
        }),
{
    stepping_down_takes_nothing(turn, term, None);
    if term == turn.node.hard_state.current_term && turn.node.role == Role::Leader {
        let active = Turn {
            node: RaftView { recent_active: turn.node.recent_active.insert(from), ..turn.node },
            ..turn
        };
        let told = match read_context {
            Some(context) => active.read_acknowledged(from, context),
            None => active,
        };
        assert(takes_nothing(told.actions));
        assert(told.node.log == turn.node.log && told.node.snapshot == turn.node.snapshot);
        let progress = told.node.progress[from];
        if success {
            let moved = told.with_progress(
                from,
                Progress {
                    match_index: most(progress.match_index, match_index),
                    next_index: most(
                        progress.next_index,
                        if match_index == u64::MAX {
                            u64::MAX
                        } else {
                            (match_index + 1) as u64
                        },
                    ),
                    snapshot_offset: None,
                },
            );
            advancing_takes_nothing(moved);
            bringing_one_forward_is_sound(moved.advanced(), from, None);
        } else {
            let hint = match conflict_term {
                Some(term) => match told.node.log.last_index_of_term(term) {
                    Some(index) => (index + 1) as u64,
                    None => conflict_index,
                },
                None => conflict_index,
            };
            let back = if progress.next_index <= 1 {
                1
            } else {
                (progress.next_index - 1) as u64
            };
            let moved = told.with_progress(
                from,
                Progress {
                    match_index: progress.match_index,
                    next_index: least(most(hint, 1), most(back, 1)),
                    snapshot_offset: None,
                },
            );
            bringing_one_forward_is_sound(moved, from, None);
        }
    }
}

proof fn answered_chunks_are_sound(
    turn: Turn,
    from: NodeId,
    term: u64,
    accepted: bool,
    next_offset: u64,
    done: bool,
    match_index: u64,
)
    requires
        anchored(turn.node),
        turn.node.log.last_index() + 1 < u64::MAX,
        takes_nothing(turn.actions),
    ensures
        ({
            let after = turn.chunk_answered(from, term, accepted, next_offset, done, match_index);
            sound_sends(after.node.log, after.actions)
        }),
{
    stepping_down_takes_nothing(turn, term, None);
    if term == turn.node.hard_state.current_term && turn.node.role == Role::Leader {
        let active = Turn {
            node: RaftView { recent_active: turn.node.recent_active.insert(from), ..turn.node },
            ..turn
        };
        if active.node.progress.contains_key(from) {
            let progress = active.node.progress[from];
            if done && accepted {
                let moved = active.with_progress(
                    from,
                    Progress {
                        match_index: most(progress.match_index, match_index),
                        next_index: most(progress.next_index, (match_index + 1) as u64),
                        snapshot_offset: None,
                    },
                );
                advancing_takes_nothing(moved);
                bringing_one_forward_is_sound(moved.advanced(), from, None);
            } else {
                let moved = active.with_progress(
                    from,
                    Progress {
                        snapshot_offset: Some(
                            if accepted {
                                next_offset
                            } else {
                                0
                            },
                        ),
                        ..progress
                    },
                );
                bringing_one_forward_is_sound(moved, from, None);
            }
        }
    }
}

proof fn receiving_is_sound(turn: Turn, from: NodeId, message: MessageView)
    requires
        anchored(turn.node),
        turn.node.log.last_index() + 1 < u64::MAX,
        takes_nothing(turn.actions),
    ensures
        sound_sends(
            turn.received(from, message).node.log,
            turn.received(from, message).actions,
        ),
{
    reveal(Turn::received);
    match message {
        MessageView::PreVoteRequest { .. } => {},
        MessageView::PreVoteResponse { responder_term, prospective_term, .. } => {
            stepping_down_takes_nothing(turn, responder_term, None);
            let counted = Turn {
                node: RaftView { votes: turn.node.votes.insert(from), ..turn.node },
                ..turn
            };
            standing_is_sound(counted, prospective_term);
        },
        MessageView::RequestVote { term, .. } => {
            stepping_down_takes_nothing(turn, term, None);
        },
        MessageView::RequestVoteResponse { term, .. } => {
            stepping_down_takes_nothing(turn, term, None);
            let counted = Turn {
                node: RaftView { votes: turn.node.votes.insert(from), ..turn.node },
                ..turn
            };
            leading_is_sound(counted);
        },
        MessageView::AppendEntries {
            term,
            leader_id,
            prev_log_index,
            prev_log_term,
            entries,
            leader_commit,
            read_context,
        } => {
            receiving_entries_takes_nothing(
                turn,
                from,
                term,
                leader_id,
                prev_log_index,
                prev_log_term,
                entries,
                leader_commit,
                read_context,
            );
        },
        MessageView::AppendEntriesResponse {
            term,
            success,
            match_index,
            conflict_index,
            conflict_term,
            read_context,
        } => {
            answered_entries_are_sound(
                turn,
                from,
                term,
                success,
                match_index,
                conflict_index,
                conflict_term,
                read_context,
            );
        },
        MessageView::InstallSnapshot { term, leader_id, metadata, offset, data, done } => {
            receiving_chunks_takes_nothing(
                turn,
                from,
                term,
                leader_id,
                metadata,
                offset,
                data,
                done,
            );
        },
        MessageView::InstallSnapshotResponse {
            term,
            accepted,
            next_offset,
            done,
            match_index,
        } => {
            answered_chunks_are_sound(
                turn,
                from,
                term,
                accepted,
                next_offset,
                done,
                match_index,
            );
        },
    }
}

/// Every message of a step carries what the log of the node holds after it:
/// entries are a run of the log, and a snapshot is the one it starts behind.
pub proof fn step_sends_what_it_holds(node: RaftView, input: InputView, i: int)
    requires
        node.well_formed(),
        node.has_room(input),
        0 <= i < node.stepped(input).actions.len(),
    ensures
        node.stepped(input).actions[i] matches ActionView::Send { message, .. } ==> sound_message(
            node.stepped(input).node.log,
            message,
        ),
{
    let start = Turn { node, actions: Seq::empty() };
    let turn = start.applied();
    applying_takes_nothing(
        node.log,
        node.role == Role::Leader,
        node.applied_index as int,
        node.hard_state.commit_index as int,
    );
    assert(takes_nothing(turn.actions));
    match input {
        InputView::Tick(tick) => {
            ticking_is_sound(turn, tick);
        },
        InputView::Propose { id, command } => {
            proposing_is_sound(turn, id, command);
        },
        InputView::ReadIndex { context } => {
            asking_to_read_is_sound(turn, context);
        },
        InputView::SnapshotBuilt(_) => {
            assert(takes_nothing(turn.handled(input).actions));
        },
        InputView::Message { from, message } => {
            receiving_is_sound(turn, from, message);
        },
    }
    assert(sound_sends(node.stepped(input).node.log, node.stepped(input).actions));
    assert(sound_action(node.stepped(input).node.log, node.stepped(input).actions[i]));
}

} // verus!
