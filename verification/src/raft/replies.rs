//! What the messages of a node promise.

use vstd::prelude::*;
use crate::raft::laws::{applications_are_silent, silent};
use crate::raft::log::{LogView, last_index_counts};
use crate::raft::matching::divergence_is_first;
use crate::raft::state::{
    PendingReadView, Progress, RaftView, Turn, applying_keeps_room, divergence, follows_on, least,
    most, refused_reads, valid_entry_sequence,
};
use crate::raft::types::{
    ActionView, CommandId, EntryPayloadView, HardState, InputView, LogEntryView, MessageView, Role,
    SnapshotMetadataView, StorageMutationView, Tick,
};
use crate::types::NodeId;

verus! {

/// What a message promises of its sender, but for acknowledgements: a leader sends
/// its entries and snapshots in its own term and says how far it has committed, and
/// a candidate asks for votes with the end of its log.
pub open spec fn proper_message(node: RaftView, message: MessageView) -> bool {
    match message {
        MessageView::AppendEntries { term, leader_id, leader_commit, .. } => node.role
            == Role::Leader && term == node.hard_state.current_term && leader_id == node.id
            && leader_commit <= node.hard_state.commit_index,
        MessageView::InstallSnapshot { term, leader_id, .. } => node.role == Role::Leader && term
            == node.hard_state.current_term && leader_id == node.id,
        MessageView::RequestVote { term, candidate_id, last_log_index, last_log_term } => node.role
            == Role::Candidate && term == node.hard_state.current_term && candidate_id == node.id
            && last_log_index == node.log.last_index() && last_log_term == node.log.last_term(),
        MessageView::AppendEntriesResponse { success, .. } => !success,
        MessageView::InstallSnapshotResponse { accepted, done, .. } => !(accepted && done),
        _ => true,
    }
}

spec fn proper_action(node: RaftView, action: ActionView) -> bool {
    action matches ActionView::Send { message, .. } ==> proper_message(node, message)
}

spec fn proper(turn: Turn) -> bool {
    forall|i: int| 0 <= i < turn.actions.len() ==> proper_action(turn.node, #[trigger] turn.actions[i])
}

proof fn silence_is_proper(turn: Turn)
    requires
        silent(turn.actions),
    ensures
        proper(turn),
{
}

proof fn advancing_is_silent(turn: Turn)
    requires
        silent(turn.actions),
    ensures
        silent(turn.advanced().actions),
        turn.advanced().node.role == turn.node.role,
        turn.advanced().node.progress == turn.node.progress,
        turn.advanced().node.log == turn.node.log,
{
    applications_are_silent(
        turn.node.log,
        turn.node.role == Role::Leader,
        turn.node.applied_index as int,
        turn.node.configuration.quorum_index(turn.node.matched()) as int,
    );
}

proof fn appending_one_is_proper(turn: Turn, peer: NodeId, read_context: Option<Seq<u8>>)
    requires
        turn.node.role == Role::Leader,
        proper(turn),
    ensures
        proper(turn.append_to(peer, read_context)),
        turn.append_to(peer, read_context).node == turn.node,
{
}

proof fn appending_is_proper(turn: Turn, read_context: Option<Seq<u8>>, n: int)
    requires
        turn.node.role == Role::Leader,
        proper(turn),
    ensures
        proper(turn.append_to_first(read_context, n)),
        turn.append_to_first(read_context, n).node == turn.node,
    decreases n,
{
    if n > 0 {
        appending_is_proper(turn, read_context, n - 1);
        appending_one_is_proper(
            turn.append_to_first(read_context, n - 1),
            turn.node.peers()[n - 1],
            read_context,
        );
    }
}

proof fn asking_is_proper(turn: Turn, message: MessageView, n: int)
    requires
        proper(turn),
        proper_message(turn.node, message),
    ensures
        proper(turn.send_to_first(message, n)),
        turn.send_to_first(message, n).node == turn.node,
    decreases n,
{
    if n > 0 {
        asking_is_proper(turn, message, n - 1);
    }
}

proof fn stepping_down_is_silent(turn: Turn, term: u64, leader_id: Option<NodeId>)
    requires
        silent(turn.actions),
    ensures
        silent(turn.stepped_down(term, leader_id).actions),
        silent(turn.outdated(term).actions),
{
    assert(silent(refused_reads(turn.node.pending_reads)));
}

proof fn leading_is_proper(turn: Turn)
    requires
        silent(turn.actions),
    ensures
        proper(turn.leading()),
{
    let entry = LogEntryView {
        index: (turn.node.log.last_index() + 1) as u64,
        term: turn.node.hard_state.current_term,
        payload: EntryPayloadView::Noop,
    };
    let id = turn.node.id;
    let voters = turn.node.configuration.voters();
    let begun = Turn {
        node: RaftView {
            role: Role::Leader,
            leader_id: Some(id),
            votes: Set::empty(),
            pending_reads: Map::empty(),
            log: turn.node.log.appended(seq![entry]),
            progress: Map::new(
                |voter: NodeId| voters.contains(voter),
                |voter: NodeId|
                    Progress {
                        match_index: if voter == id {
                            entry.index
                        } else {
                            0
                        },
                        next_index: (entry.index + 1) as u64,
                        snapshot_offset: None,
                    },
            ),
            recent_active: voters,
            ..turn.node
        },
        ..turn
    }.act(
        ActionView::Persist(StorageMutationView::Append(seq![entry])),
    ).act(ActionView::RoleChanged { role: Role::Leader, term: entry.term }).act(
        ActionView::ResetHeartbeatTimer,
    );
    assert(silent(begun.actions));
    advancing_is_silent(begun);
    silence_is_proper(begun.advanced());
    appending_is_proper(
        begun.advanced(),
        None,
        begun.advanced().node.peers().len() as int,
    );
    assert(turn.leading() == begun.advanced().broadcast(None));
}

proof fn standing_is_proper(turn: Turn, term: u64)
    requires
        silent(turn.actions),
    ensures
        proper(turn.standing(term)),
{
    let asked = Turn {
        node: RaftView {
            hard_state: HardState {
                current_term: term,
                voted_for: Some(turn.node.id),
                ..turn.node.hard_state
            },
            role: Role::Candidate,
            campaign_term: None,
            votes: set![turn.node.id],
            ..turn.node
        },
        ..turn
    }.persist_hard_state().act(ActionView::RoleChanged { role: Role::Candidate, term }).act(
        ActionView::ResetElectionTimer,
    );
    assert(silent(asked.actions));
    leading_is_proper(asked);
    silence_is_proper(asked);
    asking_is_proper(
        asked,
        MessageView::RequestVote {
            term,
            candidate_id: asked.node.id,
            last_log_index: asked.node.log.last_index(),
            last_log_term: asked.node.log.last_term(),
        },
        asked.node.peers().len() as int,
    );
}

proof fn ticking_is_proper(turn: Turn, tick: Tick)
    requires
        silent(turn.actions),
    ensures
        proper(turn.ticked(tick)),
{
    silence_is_proper(turn);
    match tick {
        Tick::Election => {
            if turn.node.hard_state.current_term < u64::MAX {
                let prospective_term = (turn.node.hard_state.current_term + 1) as u64;
                let asked = Turn {
                    node: RaftView {
                        role: Role::PreCandidate,
                        leader_id: None,
                        campaign_term: Some(prospective_term),
                        votes: set![turn.node.id],
                        ..turn.node
                    },
                    ..turn
                }.act(
                    ActionView::RoleChanged {
                        role: Role::PreCandidate,
                        term: turn.node.hard_state.current_term,
                    },
                ).act(ActionView::ResetElectionTimer);
                assert(silent(asked.actions));
                standing_is_proper(asked, prospective_term);
                silence_is_proper(asked);
                asking_is_proper(
                    asked,
                    MessageView::PreVoteRequest {
                        prospective_term,
                        candidate_id: asked.node.id,
                        last_log_index: asked.node.log.last_index(),
                        last_log_term: asked.node.log.last_term(),
                    },
                    asked.node.peers().len() as int,
                );
            }
        },
        Tick::Heartbeat => {
            if turn.node.role == Role::Leader {
                appending_is_proper(turn, None, turn.node.peers().len() as int);
            }
        },
        Tick::CheckQuorum => {
            let checked = Turn {
                node: RaftView { recent_active: set![turn.node.id], ..turn.node },
                ..turn
            };
            silence_is_proper(checked);
            if turn.node.role == Role::Leader {
                appending_is_proper(checked, None, checked.node.peers().len() as int);
            }
            stepping_down_is_silent(turn, turn.node.hard_state.current_term, None);
        },
    }
}

proof fn proposing_is_proper(turn: Turn, id: CommandId, command: Seq<u8>)
    requires
        silent(turn.actions),
    ensures
        proper(turn.proposed(id, command)),
{
    if turn.node.role == Role::Leader {
        let entry = LogEntryView {
            index: (turn.node.log.last_index() + 1) as u64,
            term: turn.node.hard_state.current_term,
            payload: EntryPayloadView::Command { id, bytes: command },
        };
        let written = Turn {
            node: RaftView { log: turn.node.log.appended(seq![entry]), ..turn.node },
            ..turn
        }.with_progress(
            turn.node.id,
            Progress {
                match_index: entry.index,
                next_index: (entry.index + 1) as u64,
                ..turn.node.progress[turn.node.id]
            },
        ).act(ActionView::Persist(StorageMutationView::Append(seq![entry])));
        assert(silent(written.actions));
        advancing_is_silent(written);
        silence_is_proper(written.advanced());
        appending_is_proper(
            written.advanced(),
            None,
            written.advanced().node.peers().len() as int,
        );
    }
}

proof fn asking_to_read_is_proper(turn: Turn, context: Seq<u8>)
    requires
        silent(turn.actions),
    ensures
        proper(turn.read_asked(context)),
{
    let waiting = Turn {
        node: RaftView {
            pending_reads: turn.node.pending_reads.insert(
                context,
                PendingReadView {
                    index: turn.node.hard_state.commit_index,
                    acknowledgements: set![turn.node.id],
                },
            ),
            ..turn.node
        },
        ..turn
    };
    silence_is_proper(waiting);
    if turn.node.role == Role::Leader {
        appending_is_proper(waiting, Some(context), waiting.node.peers().len() as int);
    }
}

proof fn append_answered_is_proper(
    turn: Turn,
    from: NodeId,
    term: u64,
    success: bool,
    match_index: u64,
    conflict_index: u64,
    conflict_term: Option<u64>,
    read_context: Option<Seq<u8>>,
)
    requires
        silent(turn.actions),
    ensures
        proper(
            turn.append_answered(
                from,
                term,
                success,
                match_index,
                conflict_index,
                conflict_term,
                read_context,
            ),
        ),
{
    silence_is_proper(turn);
    stepping_down_is_silent(turn, term, None);
    silence_is_proper(turn.outdated(term));
    if turn.node.role == Role::Leader && term == turn.node.hard_state.current_term {
        let active = Turn {
            node: RaftView { recent_active: turn.node.recent_active.insert(from), ..turn.node },
            ..turn
        };
        let told = match read_context {
            Some(context) => active.read_acknowledged(from, context),
            None => active,
        };
        assert(silent(told.actions));
        let progress = told.node.progress[from];
        let moved = told.with_progress(
            from,
            Progress {
                match_index: most(progress.match_index, match_index),
                next_index: most(
                    progress.next_index,
                    if match_index == u64::MAX {
                        u64::MAX
                    } else {
                        (match_index + 1) as u64
                    },
                ),
                snapshot_offset: None,
            },
        );
        advancing_is_silent(moved);
        silence_is_proper(moved.advanced());
        appending_one_is_proper(moved.advanced(), from, None);
        let hint = match conflict_term {
            Some(term) => match told.node.log.last_index_of_term(term) {
                Some(index) => (index + 1) as u64,
                None => conflict_index,
            },
            None => conflict_index,
        };
        let back = if progress.next_index <= 1 {
            1
        } else {
            (progress.next_index - 1) as u64
        };
        let reset = told.with_progress(
            from,
            Progress {
                match_index: progress.match_index,
                next_index: least(most(hint, 1), most(back, 1)),
                snapshot_offset: None,
            },
        );
        silence_is_proper(reset);
        appending_one_is_proper(reset, from, None);
    }
}

proof fn chunk_answered_is_proper(
    turn: Turn,
    from: NodeId,
    term: u64,
    accepted: bool,
    next_offset: u64,
    done: bool,
    match_index: u64,
)
    requires
        silent(turn.actions),
    ensures
        proper(turn.chunk_answered(from, term, accepted, next_offset, done, match_index)),
{
    silence_is_proper(turn);
    stepping_down_is_silent(turn, term, None);
    silence_is_proper(turn.outdated(term));
    if turn.node.role == Role::Leader && term == turn.node.hard_state.current_term {
        let active = Turn {
            node: RaftView { recent_active: turn.node.recent_active.insert(from), ..turn.node },
            ..turn
        };
        silence_is_proper(active);
        let progress = active.node.progress[from];
        let moved = active.with_progress(
            from,
            Progress {
                match_index: most(progress.match_index, match_index),
                next_index: most(progress.next_index, (match_index + 1) as u64),
                snapshot_offset: None,
            },
        );
        advancing_is_silent(moved);
        silence_is_proper(moved.advanced());
        appending_one_is_proper(moved.advanced(), from, None);
        let reset = active.with_progress(
            from,
            Progress {
                snapshot_offset: Some(
                    if accepted {
                        next_offset
                    } else {
                        0
                    },
                ),
                ..progress
            },
        );
        silence_is_proper(reset);
        appending_one_is_proper(reset, from, None);
    }
}

/// A log has the terms of a run of entries, from the index before them on.
pub open spec fn has_terms(
    log: LogView,
    prev_log_index: u64,
    prev_log_term: u64,
    entries: Seq<LogEntryView>,
) -> bool {
    &&& log.term(prev_log_index) == Some(prev_log_term)
    &&& forall|i: int|
        0 <= i < entries.len() ==> log.term((prev_log_index + 1 + i) as u64) == Some(
            (#[trigger] entries[i]).term,
        )
}

/// An acknowledgement is true: the node has taken what the leader of its term sent,
/// and its log holds it, or it holds the snapshot of that leader or has applied as
/// far.
pub open spec fn true_message(
    input: InputView,
    after: RaftView,
    message: MessageView,
) -> bool {
    match message {
        MessageView::AppendEntriesResponse { term, success: true, match_index, .. } => match input {
            InputView::Message {
                message: MessageView::AppendEntries {
                    term: asked,
                    prev_log_index,
                    prev_log_term,
                    entries,
                    ..
                },
                ..
            } => {
                &&& term == asked
                &&& term == after.hard_state.current_term
                &&& after.role == Role::Follower
                &&& match_index == prev_log_index + entries.len() < u64::MAX
                &&& has_terms(after.log, prev_log_index, prev_log_term, entries)
            },
            _ => false,
        },
        MessageView::InstallSnapshotResponse {
            term,
            accepted: true,
            done: true,
            match_index,
            ..
        } => match input {
            InputView::Message {
                message: MessageView::InstallSnapshot { term: asked, metadata, .. },
                ..
            } => {
                &&& term == asked
                &&& term == after.hard_state.current_term
                &&& after.role == Role::Follower
                &&& match_index == metadata.last_included_index
                &&& match_index > 0
                &&& match_index <= after.hard_state.commit_index
            },
            _ => false,
        },
        _ => proper_message(after, message),
    }
}

spec fn true_action(input: InputView, after: RaftView, action: ActionView) -> bool {
    action matches ActionView::Send { message, .. } ==> true_message(input, after, message)
}

spec fn true_sends(input: InputView, turn: Turn) -> bool {
    forall|i: int|
        0 <= i < turn.actions.len() ==> true_action(input, turn.node, #[trigger] turn.actions[i])
}

proof fn proper_is_true(input: InputView, turn: Turn)
    requires
        proper(turn),
    ensures
        true_sends(input, turn),
{
    assert forall|i: int| 0 <= i < turn.actions.len() implies true_action(
        input,
        turn.node,
        #[trigger] turn.actions[i],
    ) by {
        assert(proper_action(turn.node, turn.actions[i]));
    }
}

/// A log that has taken entries has their terms.
pub(crate) proof fn taking_holds(
    log: LogView,
    prev_log_index: u64,
    prev_log_term: u64,
    entries: Seq<LogEntryView>,
)
    requires
        log.contiguous(),
        log.base_index <= prev_log_index,
        log.term(prev_log_index) == Some(prev_log_term),
        prev_log_index + entries.len() < u64::MAX,
        forall|i: int|
            0 <= i < entries.len() ==> (#[trigger] entries[i]).index == prev_log_index + 1 + i,
    ensures
        ({
            let position = divergence(log, entries, 0);
            let after = if position < entries.len() {
                log.replaced_from(entries[position].index, entries.skip(position))
            } else {
                log
            };
            &&& 0 <= position <= entries.len()
            &&& has_terms(after, prev_log_index, prev_log_term, entries)
        }),
{
    let position = divergence(log, entries, 0);
    divergence_is_first(log, entries, 0);
    last_index_counts(log);
    if position < entries.len() {
        let from = entries[position].index;
        let after = log.replaced_from(from, entries.skip(position));
        assert(from == prev_log_index + 1 + position);
        if position > 0 {
            assert(log.term(entries[position - 1].index) == Some(entries[position - 1].term));
        }
        assert(from - log.base_index - 1 <= log.entries.len());
        assert forall|i: int| 0 <= i < entries.len() implies after.term(
            (prev_log_index + 1 + i) as u64,
        ) == Some((#[trigger] entries[i]).term) by {
            if i < position {
                assert(log.term(entries[i].index) == Some(entries[i].term));
                assert(after.entries[prev_log_index + i - log.base_index]
                    == log.entries[prev_log_index + i - log.base_index]);
            } else {
                assert(after.entries[prev_log_index + i - log.base_index] == entries.skip(
                    position,
                )[i - position]);
            }
        }
    }
}

proof fn committing_is_silent(turn: Turn, index: u64)
    requires
        silent(turn.actions),
    ensures
        silent(turn.committed(index).actions),
        turn.committed(index).node.log == turn.node.log,
        turn.committed(index).node.role == turn.node.role,
        turn.committed(index).node.hard_state.current_term == turn.node.hard_state.current_term,
{
    applications_are_silent(
        turn.node.log,
        turn.node.role == Role::Leader,
        turn.node.applied_index as int,
        index as int,
    );
}

proof fn receiving_entries_is_true(
    turn: Turn,
    from: NodeId,
    term: u64,
    leader_id: NodeId,
    prev_log_index: u64,
    prev_log_term: u64,
    entries: Seq<LogEntryView>,
    leader_commit: u64,
    read_context: Option<Seq<u8>>,
)
    requires
        silent(turn.actions),
        turn.node.log.contiguous(),
        leader_id == from && term >= turn.node.hard_state.current_term && follows_on(
            turn.node.log,
            prev_log_index,
            prev_log_term,
            term,
            entries,
        ) ==> prev_log_index + entries.len() < u64::MAX,
    ensures
        ({
            let message = MessageView::AppendEntries {
                term,
                leader_id,
                prev_log_index,
                prev_log_term,
                entries,
                leader_commit,
                read_context,
            };
            true_sends(
                InputView::Message { from, message },
                turn.entries_received(
                    from,
                    term,
                    leader_id,
                    prev_log_index,
                    prev_log_term,
                    entries,
                    leader_commit,
                    read_context,
                ),
            )
        }),
{
    stepping_down_is_silent(turn, term, Some(from));
    let follower = turn.stepped_down(term, Some(from)).act(ActionView::ResetElectionTimer);
    assert(silent(follower.actions));
    let log = follower.node.log;
    let position = divergence(log, entries, 0);
    let written = if position < entries.len() {
        let index = entries[position].index;
        let suffix = entries.skip(position);
        Turn {
            node: RaftView { log: log.replaced_from(index, suffix), ..follower.node },
            ..follower
        }.act(
            ActionView::Persist(
                if index <= log.last_index() {
                    StorageMutationView::TruncateAndAppend { from: index, entries: suffix }
                } else {
                    StorageMutationView::Append(suffix)
                },
            ),
        )
    } else {
        follower
    };
    assert(silent(written.actions));
    committing_is_silent(written, least(leader_commit, (prev_log_index + entries.len()) as u64));
    if log.base_index <= prev_log_index && log.term(prev_log_index) == Some(prev_log_term)
        && valid_entry_sequence(prev_log_index, prev_log_term, term, entries) && leader_id == from
        && term >= turn.node.hard_state.current_term {
        reveal(follows_on);
        taking_holds(log, prev_log_index, prev_log_term, entries);
    }
}

proof fn receiving_chunks_is_true(
    turn: Turn,
    from: NodeId,
    term: u64,
    leader_id: NodeId,
    metadata: SnapshotMetadataView,
    offset: u64,
    data: Seq<u8>,
    done: bool,
)
    requires
        silent(turn.actions),
        turn.node.applied_index <= turn.node.hard_state.commit_index,
    ensures
        ({
            let message = MessageView::InstallSnapshot {
                term,
                leader_id,
                metadata,
                offset,
                data,
                done,
            };
            true_sends(
                InputView::Message { from, message },
                turn.chunk_received(from, term, leader_id, metadata, offset, data, done),
            )
        }),
{
    stepping_down_is_silent(turn, term, Some(from));
}

proof fn receiving_is_true(turn: Turn, from: NodeId, message: MessageView)
    requires
        silent(turn.actions),
        turn.node.log.contiguous(),
        turn.node.applied_index <= turn.node.hard_state.commit_index,
        turn.node.entries_fit(from, message),
    ensures
        true_sends(
            InputView::Message { from, message },
            turn.received(from, message),
        ),
{
    reveal(Turn::received);
    let input = InputView::Message { from, message };
    silence_is_proper(turn);
    proper_is_true(input, turn);
    match message {
        MessageView::PreVoteRequest { .. } => {},
        MessageView::PreVoteResponse { responder_term, prospective_term, .. } => {
            stepping_down_is_silent(turn, responder_term, None);
            silence_is_proper(turn.outdated(responder_term));
            let counted = Turn {
                node: RaftView { votes: turn.node.votes.insert(from), ..turn.node },
                ..turn
            };
            silence_is_proper(counted);
            standing_is_proper(counted, prospective_term);
            proper_is_true(input, turn.received(from, message));
        },
        MessageView::RequestVote { term, .. } => {
            stepping_down_is_silent(turn, term, None);
        },
        MessageView::RequestVoteResponse { term, .. } => {
            stepping_down_is_silent(turn, term, None);
            silence_is_proper(turn.outdated(term));
            let counted = Turn {
                node: RaftView { votes: turn.node.votes.insert(from), ..turn.node },
                ..turn
            };
            silence_is_proper(counted);
            leading_is_proper(counted);
            proper_is_true(input, turn.received(from, message));
        },
        MessageView::AppendEntries {
            term,
            leader_id,
            prev_log_index,
            prev_log_term,
            entries,
            leader_commit,
            read_context,
        } => {
            if turn.node.configuration.voters().contains(from) && from != turn.node.id {
                reveal(RaftView::entries_fit);
                receiving_entries_is_true(
                    turn,
                    from,
                    term,
                    leader_id,
                    prev_log_index,
                    prev_log_term,
                    entries,
                    leader_commit,
                    read_context,
                );
            }
        },
        MessageView::AppendEntriesResponse {
            term,
            success,
            match_index,
            conflict_index,
            conflict_term,
            read_context,
        } => {
            append_answered_is_proper(
                turn,
                from,
                term,
                success,
                match_index,
                conflict_index,
                conflict_term,
                read_context,
            );
            proper_is_true(input, turn.received(from, message));
        },
        MessageView::InstallSnapshot { term, leader_id, metadata, offset, data, done } => {
            receiving_chunks_is_true(turn, from, term, leader_id, metadata, offset, data, done);
        },
        MessageView::InstallSnapshotResponse {
            term,
            accepted,
            next_offset,
            done,
            match_index,
        } => {
            chunk_answered_is_proper(turn, from, term, accepted, next_offset, done, match_index);
            proper_is_true(input, turn.received(from, message));
        },
    }
}

/// Every message that a step sends is true: a node acknowledges only what it has
/// taken of the leader of its term, and sends entries, snapshots and requests for
/// votes only as leader and candidate of its term.
pub proof fn steps_send_the_truth(node: RaftView, input: InputView, i: int)
    requires
        node.well_formed(),
        node.has_room(input),
        0 <= i < node.stepped(input).actions.len(),
    ensures
        node.stepped(input).actions[i] matches ActionView::Send { message, .. } ==> true_message(
            input,
            node.stepped(input).node,
            message,
        ),
{
    let start = Turn { node, actions: Seq::empty() };
    let turn = start.applied();
    applying_keeps_room(start, input);
    applications_are_silent(
        node.log,
        node.role == Role::Leader,
        node.applied_index as int,
        node.hard_state.commit_index as int,
    );
    assert(silent(turn.actions));
    match input {
        InputView::Tick(tick) => {
            ticking_is_proper(turn, tick);
            proper_is_true(input, turn.ticked(tick));
        },
        InputView::Propose { id, command } => {
            proposing_is_proper(turn, id, command);
            proper_is_true(input, turn.proposed(id, command));
        },
        InputView::ReadIndex { context } => {
            asking_to_read_is_proper(turn, context);
            proper_is_true(input, turn.read_asked(context));
        },
        InputView::SnapshotBuilt(_) => {
            silence_is_proper(turn.handled(input));
            proper_is_true(input, turn.handled(input));
        },
        InputView::Message { from, message } => {
            receiving_is_true(turn, from, message);
        },
    }
    assert(true_sends(input, node.stepped(input)));
    assert(true_action(input, node.stepped(input).node, node.stepped(input).actions[i]));
}

} // verus!
