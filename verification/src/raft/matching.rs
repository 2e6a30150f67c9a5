//! What holds of the logs of two nodes.

use vstd::prelude::*;
use crate::raft::log::{LogView, last_index_counts};
use crate::raft::state::{
    PendingReadView, Progress, RaftView, Turn, applying_keeps_room, divergence, follows_on,
    valid_entry_sequence,
};
use crate::raft::types::{
    ActionView, CommandId, EntryPayloadView, HardState, InputView, LogEntryView, MessageView, Role,
    SnapshotMetadataView, StorageMutationView, Tick,
};
use crate::types::NodeId;

verus! {

/// Two logs hold the same at an index that both know.
pub open spec fn same_at(a: LogView, b: LogView, index: u64) -> bool {
    &&& a.term(index) == b.term(index)
    &&& index > a.base_index && index > b.base_index ==> a.entry(index) == b.entry(index)
}

/// Two logs hold the same up to an index, as far down as both reach.
pub open spec fn agree_through(a: LogView, b: LogView, index: u64) -> bool {
    forall|at: u64| a.base_index <= at && b.base_index <= at && at <= index ==> #[trigger] same_at(
        a,
        b,
        at,
    )
}

/// Wherever two logs have an entry of the same term at the same index, they hold
/// the same up to there.
pub open spec fn matching(a: LogView, b: LogView) -> bool {
    forall|index: u64|
        a.base_index <= index && b.base_index <= index && index <= a.last_index() && index
            <= b.last_index() && a.term(index) == b.term(index) ==> #[trigger] agree_through(
            a,
            b,
            index,
        )
}

/// Entries are a run of a log, right after an index at which the log has a term.
pub open spec fn run_of(
    log: LogView,
    prev_log_index: u64,
    prev_log_term: u64,
    entries: Seq<LogEntryView>,
) -> bool {
    &&& log.term(prev_log_index) == Some(prev_log_term)
    &&& forall|i: int|
        0 <= i < entries.len() ==> log.entry((prev_log_index + 1 + i) as u64) == Some(
            #[trigger] entries[i],
        )
}

pub(crate) proof fn divergence_is_first(log: LogView, entries: Seq<LogEntryView>, i: int)
    requires
        0 <= i <= entries.len(),
    ensures
        i <= divergence(log, entries, i) <= entries.len(),
        forall|j: int|
            i <= j < divergence(log, entries, i) ==> log.term((#[trigger] entries[j]).index)
                == Some(entries[j].term),
    decreases entries.len() - i,
{
    if i < entries.len() && log.term(entries[i].index) == Some(entries[i].term) {
        divergence_is_first(log, entries, i + 1);
    }
}

/// A log keeps matching another when it takes a run of a third that matches
/// both.
proof fn taking_keeps_matching(
    log: LogView,
    sender: LogView,
    other: LogView,
    prev_log_index: u64,
    prev_log_term: u64,
    entries: Seq<LogEntryView>,
    position: int,
)
    requires
        log.contiguous(),
        sender.contiguous(),
        other.contiguous(),
        matching(log, sender),
        matching(log, other),
        matching(sender, other),
        prev_log_index + entries.len() < u64::MAX,
        log.term(prev_log_index) == Some(prev_log_term),
        run_of(sender, prev_log_index, prev_log_term, entries),
        position == divergence(log, entries, 0),
        position < entries.len(),
        entries[position].index == prev_log_index + 1 + position,
        forall|i: int|
            0 <= i < entries.len() ==> (#[trigger] entries[i]).index == prev_log_index + 1 + i,
    ensures
        matching(log.replaced_from(entries[position].index, entries.skip(position)), other),
        log.replaced_from(entries[position].index, entries.skip(position)).last_index()
            == prev_log_index + entries.len(),
        forall|i: int|
            0 <= i < entries.len() ==> log.replaced_from(
                entries[position].index,
                entries.skip(position),
            ).term((#[trigger] entries[i]).index) == Some(entries[i].term),
{
    let from = entries[position].index;
    let suffix = entries.skip(position);
    let taken = log.replaced_from(from, suffix);
    divergence_is_first(log, entries, 0);
    last_index_counts(log);
    last_index_counts(sender);
    last_index_counts(other);
    let before = (from - 1) as u64;
    assert(log.term(before) == sender.term(before)) by {
        if position > 0 {
            assert(entries[position - 1].index == before);
            assert(sender.entry((prev_log_index + 1 + (position - 1)) as u64) == Some(
                entries[position - 1],
            ));
        }
    }
    assert(before <= log.last_index());
    assert(sender.entry((prev_log_index + 1 + position) as u64) == Some(entries[position]));
    assert(agree_through(log, sender, before));
    assert(taken.entries.len() == from - log.base_index - 1 + suffix.len());
    assert(taken.last_index() == prev_log_index + entries.len()) by {
        assert(taken.entries.last() == entries.last());
    }
    assert forall|at: u64| log.base_index <= at < from implies taken.term(at) == log.term(at)
        && taken.entry(at) == log.entry(at) by {}
    assert forall|at: u64| from <= at <= prev_log_index + entries.len() implies taken.entry(at)
        == sender.entry(at) && taken.term(at) == sender.term(at) && taken.entry(at) is Some by {
        let i = at - prev_log_index - 1;
        assert(sender.entry((prev_log_index + 1 + i) as u64) == Some(entries[i]));
        assert(taken.entries[at - log.base_index - 1] == suffix[i - position]);
    }
    assert forall|i: int| 0 <= i < entries.len() implies taken.term((#[trigger] entries[i]).index)
        == Some(entries[i].term) by {
        assert(sender.entry((prev_log_index + 1 + i) as u64) == Some(entries[i]));
    }
    assert forall|index: u64|
        taken.base_index <= index && other.base_index <= index && index <= taken.last_index()
            && index <= other.last_index() && taken.term(index) == other.term(
            index,
        ) implies #[trigger] agree_through(taken, other, index) by {
        if index < from {
            assert(agree_through(log, other, index));
            assert forall|at: u64|
                taken.base_index <= at && other.base_index <= at && at
                    <= index implies #[trigger] same_at(taken, other, at) by {
                assert(same_at(log, other, at));
            }
        } else {
            assert(agree_through(sender, other, index));
            let base = sender.base_index;
            if log.base_index <= base && other.base_index <= base {
                assert(same_at(log, sender, base));
                assert(same_at(sender, other, base));
                assert(agree_through(log, other, base));
            }
            assert forall|at: u64|
                taken.base_index <= at && other.base_index <= at && at
                    <= index implies #[trigger] same_at(taken, other, at) by {
                if at <= base {
                    assert(same_at(log, other, at));
                } else {
                    assert(same_at(sender, other, at));
                    if at < from {
                        assert(same_at(log, sender, at));
                    }
                }
            }
        }
    }
}

/// A log keeps matching another when an entry is added that the other does not
/// have.
proof fn adding_keeps_matching(log: LogView, other: LogView, entry: LogEntryView)
    requires
        log.contiguous(),
        other.contiguous(),
        matching(log, other),
        log.last_index() < u64::MAX,
        entry.index == log.last_index() + 1,
        other.term(entry.index) != Some(entry.term),
    ensures
        matching(log.appended(seq![entry]), other),
{
    let added = log.appended(seq![entry]);
    last_index_counts(log);
    last_index_counts(other);
    assert(added.entries.last() == entry);
    assert(added.last_index() == entry.index);
    assert forall|at: u64| log.base_index <= at <= log.last_index() implies added.term(at)
        == log.term(at) && added.entry(at) == log.entry(at) by {}
    assert(added.term(entry.index) == Some(entry.term));
    assert forall|index: u64|
        added.base_index <= index && other.base_index <= index && index <= added.last_index()
            && index <= other.last_index() && added.term(index) == other.term(
            index,
        ) implies #[trigger] agree_through(added, other, index) by {
        assert(index <= log.last_index());
        assert(agree_through(log, other, index));
        assert forall|at: u64|
            added.base_index <= at && other.base_index <= at && at
                <= index implies #[trigger] same_at(added, other, at) by {
            assert(same_at(log, other, at));
        }
    }
}

/// A log keeps matching another when a snapshot replaces its start.
proof fn compacting_keeps_matching(
    log: LogView,
    other: LogView,
    index: u64,
    term: u64,
    retain_suffix: bool,
)
    requires
        log.contiguous(),
        other.contiguous(),
        matching(log, other),
        retain_suffix ==> log.base_index <= index && log.term(index) == Some(term),
    ensures
        matching(log.compacted(index, term, retain_suffix), other),
{
    let compacted = log.compacted(index, term, retain_suffix);
    last_index_counts(log);
    last_index_counts(other);
    if retain_suffix {
        let kept = (log.base_index + log.entries.len() - index) as int;
        assert(compacted.entries.len() == kept);
        if kept > 0 {
            assert(compacted.entries.last() == log.entries.last());
        }
        assert(compacted.last_index() == log.last_index());
        assert forall|at: u64| index <= at <= log.last_index() implies compacted.term(at)
            == log.term(at) && (at > index ==> compacted.entry(at) == log.entry(at)) by {
            if at > index {
                assert(compacted.entries[at - index - 1] == log.entries[at - log.base_index - 1]);
            }
        }
    }
    assert forall|at: u64|
        compacted.base_index <= at && other.base_index <= at && at <= compacted.last_index() && at
            <= other.last_index() && compacted.term(at) == other.term(at) implies #[trigger]
        agree_through(compacted, other, at) by {
        if retain_suffix {
            assert(agree_through(log, other, at));
        }
        assert forall|below: u64|
            compacted.base_index <= below && other.base_index <= below && below
                <= at implies #[trigger] same_at(compacted, other, below) by {
            if retain_suffix {
                assert(same_at(log, other, below));
            }
        }
    }
}

/// A log is as it was, or a leader has added one entry of its own term.
pub open spec fn grown(log: LogView, after: RaftView) -> bool {
    ||| after.log == log
    ||| {
        let entry = after.log.entries.last();
        &&& after.role == Role::Leader
        &&& after.log == log.appended(seq![entry])
        &&& entry.index == log.last_index() + 1
        &&& entry.term == after.hard_state.current_term
    }
}

pub(crate) proof fn bringing_forward_keeps_node(turn: Turn, read_context: Option<Seq<u8>>, n: int)
    ensures
        turn.append_to_first(read_context, n).node == turn.node,
    decreases n,
{
    if n > 0 {
        bringing_forward_keeps_node(turn, read_context, n - 1);
    }
}

pub(crate) proof fn sending_keeps_node(turn: Turn, message: MessageView, n: int)
    ensures
        turn.send_to_first(message, n).node == turn.node,
    decreases n,
{
    if n > 0 {
        sending_keeps_node(turn, message, n - 1);
    }
}

pub(crate) proof fn leading_adds_an_entry(turn: Turn)
    requires
        turn.node.log.last_index() + 1 < u64::MAX,
    ensures
        grown(turn.node.log, turn.leading().node),
        turn.leading().node.incoming_snapshot == turn.node.incoming_snapshot,
{
    let entry = LogEntryView {
        index: (turn.node.log.last_index() + 1) as u64,
        term: turn.node.hard_state.current_term,
        payload: EntryPayloadView::Noop,
    };
    let id = turn.node.id;
    let voters = turn.node.configuration.voters();
    let begun = Turn {
        node: RaftView {
            role: Role::Leader,
            leader_id: Some(id),
            votes: Set::empty(),
            pending_reads: Map::empty(),
            log: turn.node.log.appended(seq![entry]),
            progress: Map::new(
                |voter: NodeId| voters.contains(voter),
                |voter: NodeId|
                    Progress {
                        match_index: if voter == id {
                            entry.index
                        } else {
                            0
                        },
                        next_index: (entry.index + 1) as u64,
                        snapshot_offset: None,
                    },
            ),
            recent_active: voters,
            ..turn.node
        },
        ..turn
    }.act(
        ActionView::Persist(StorageMutationView::Append(seq![entry])),
    ).act(ActionView::RoleChanged { role: Role::Leader, term: entry.term }).act(
        ActionView::ResetHeartbeatTimer,
    );
    bringing_forward_keeps_node(
        begun.advanced(),
        None,
        begun.advanced().node.peers().len() as int,
    );
    assert(turn.leading() == begun.advanced().broadcast(None));
    assert(begun.node.log.entries.last() == entry);
}

pub(crate) proof fn standing_grows(turn: Turn, term: u64)
    requires
        turn.node.log.last_index() + 1 < u64::MAX,
    ensures
        grown(turn.node.log, turn.standing(term).node),
        turn.standing(term).node.incoming_snapshot == turn.node.incoming_snapshot,
{
    let asked = Turn {
        node: RaftView {
            hard_state: HardState {
                current_term: term,
                voted_for: Some(turn.node.id),
                ..turn.node.hard_state
            },
            role: Role::Candidate,
            campaign_term: None,
            votes: set![turn.node.id],
            ..turn.node
        },
        ..turn
    }.persist_hard_state().act(ActionView::RoleChanged { role: Role::Candidate, term }).act(
        ActionView::ResetElectionTimer,
    );
    leading_adds_an_entry(asked);
    sending_keeps_node(
        asked,
        MessageView::RequestVote {
            term,
            candidate_id: asked.node.id,
            last_log_index: asked.node.log.last_index(),
            last_log_term: asked.node.log.last_term(),
        },
        asked.node.peers().len() as int,
    );
}

pub(crate) proof fn ticking_grows(turn: Turn, tick: Tick)
    requires
        turn.node.log.last_index() + 1 < u64::MAX,
    ensures
        grown(turn.node.log, turn.ticked(tick).node),
        turn.ticked(tick).node.incoming_snapshot == turn.node.incoming_snapshot,
{
    match tick {
        Tick::Election => {
            if turn.node.hard_state.current_term < u64::MAX {
                let prospective_term = (turn.node.hard_state.current_term + 1) as u64;
                let asked = Turn {
                    node: RaftView {
                        role: Role::PreCandidate,
                        leader_id: None,
                        campaign_term: Some(prospective_term),
                        votes: set![turn.node.id],
                        ..turn.node
                    },
                    ..turn
                }.act(
                    ActionView::RoleChanged {
                        role: Role::PreCandidate,
                        term: turn.node.hard_state.current_term,
                    },
                ).act(ActionView::ResetElectionTimer);
                standing_grows(asked, prospective_term);
                sending_keeps_node(
                    asked,
                    MessageView::PreVoteRequest {
                        prospective_term,
                        candidate_id: asked.node.id,
                        last_log_index: asked.node.log.last_index(),
                        last_log_term: asked.node.log.last_term(),
                    },
                    asked.node.peers().len() as int,
                );
            }
        },
        Tick::Heartbeat => {
            bringing_forward_keeps_node(turn, None, turn.node.peers().len() as int);
        },
        Tick::CheckQuorum => {
            let checked = Turn {
                node: RaftView { recent_active: set![turn.node.id], ..turn.node },
                ..turn
            };
            bringing_forward_keeps_node(checked, None, checked.node.peers().len() as int);
        },
    }
}

pub(crate) proof fn proposing_grows(turn: Turn, id: CommandId, command: Seq<u8>)
    requires
        turn.node.log.last_index() + 1 < u64::MAX,
    ensures
        grown(turn.node.log, turn.proposed(id, command).node),
        turn.proposed(id, command).node.incoming_snapshot == turn.node.incoming_snapshot,
{
    if turn.node.role == Role::Leader {
        let entry = LogEntryView {
            index: (turn.node.log.last_index() + 1) as u64,
            term: turn.node.hard_state.current_term,
            payload: EntryPayloadView::Command { id, bytes: command },
        };
        let written = Turn {
            node: RaftView { log: turn.node.log.appended(seq![entry]), ..turn.node },
            ..turn
        }.with_progress(
            turn.node.id,
            Progress {
                match_index: entry.index,
                next_index: (entry.index + 1) as u64,
                ..turn.node.progress[turn.node.id]
            },
        ).act(ActionView::Persist(StorageMutationView::Append(seq![entry])));
        bringing_forward_keeps_node(
            written.advanced(),
            None,
            written.advanced().node.peers().len() as int,
        );
        assert(written.node.log.entries.last() == entry);
    }
}

pub(crate) proof fn asking_to_read_keeps_log(turn: Turn, context: Seq<u8>)
    ensures
        turn.read_asked(context).node.log == turn.node.log,
        turn.read_asked(context).node.incoming_snapshot == turn.node.incoming_snapshot,
{
    let waiting = Turn {
        node: RaftView {
            pending_reads: turn.node.pending_reads.insert(
                context,
                PendingReadView {
                    index: turn.node.hard_state.commit_index,
                    acknowledgements: set![turn.node.id],
                },
            ),
            ..turn.node
        },
        ..turn
    };
    bringing_forward_keeps_node(waiting, Some(context), waiting.node.peers().len() as int);
}

/// What an input brings is a part of another log: entries are a run of it.
pub open spec fn brings_run_of(input: InputView, sender: LogView) -> bool {
    match input {
        InputView::Message { message, .. } => match message {
            MessageView::AppendEntries { prev_log_index, prev_log_term, entries, .. } => run_of(
                sender,
                prev_log_index,
                prev_log_term,
                entries,
            ),
            _ => true,
        },
        _ => true,
    }
}

/// An entry that a node has just written as leader is in no other log.
pub open spec fn writes_new(before: RaftView, after: RaftView, other: LogView) -> bool {
    after.role == Role::Leader && after.log.last_index() > before.log.last_index() ==> other.term(
        after.log.last_index(),
    ) != Some(after.hard_state.current_term)
}

proof fn receiving_keeps_matching(
    turn: Turn,
    from: NodeId,
    message: MessageView,
    sender: LogView,
    other: LogView,
)
    requires
        turn.node.log.contiguous(),
        turn.node.log.base_index <= turn.node.applied_index,
        turn.node.log.last_index() + 1 < u64::MAX,
        turn.node.entries_fit(from, message),
        sender.contiguous(),
        other.contiguous(),
        matching(turn.node.log, sender),
        matching(turn.node.log, other),
        matching(sender, other),
        brings_run_of(InputView::Message { from, message }, sender),
        writes_new(turn.node, turn.received(from, message).node, other),
    ensures
        matching(turn.received(from, message).node.log, other),
{
    reveal(Turn::received);
    let log = turn.node.log;
    let after = turn.received(from, message).node;
    last_index_counts(log);
    match message {
        MessageView::PreVoteResponse { prospective_term, .. } => {
            let counted = Turn {
                node: RaftView { votes: turn.node.votes.insert(from), ..turn.node },
                ..turn
            };
            standing_grows(counted, prospective_term);
            assert(grown(log, after));
        },
        MessageView::RequestVoteResponse { .. } => {
            let counted = Turn {
                node: RaftView { votes: turn.node.votes.insert(from), ..turn.node },
                ..turn
            };
            leading_adds_an_entry(counted);
            assert(grown(log, after));
        },
        MessageView::AppendEntries { prev_log_index, prev_log_term, entries, term, .. } => {
            if after.log != log {
                let position = divergence(log, entries, 0);
                divergence_is_first(log, entries, 0);
                assert(valid_entry_sequence(prev_log_index, prev_log_term, term, entries));
                assert(prev_log_index + entries.len() < u64::MAX) by {
                    reveal(RaftView::entries_fit);
                    reveal(follows_on);
                }
                taking_keeps_matching(
                    log,
                    sender,
                    other,
                    prev_log_index,
                    prev_log_term,
                    entries,
                    position,
                );
            }
        },
        MessageView::InstallSnapshot { metadata, .. } => {
            if after.log != log {
                compacting_keeps_matching(
                    log,
                    other,
                    metadata.last_included_index,
                    metadata.last_included_term,
                    log.term(metadata.last_included_index) == Some(metadata.last_included_term),
                );
            }
        },
        _ => {
            answers_keep_log(turn, from, message);
        },
    }
    if grown(log, after) && after.log != log {
        let entry = after.log.entries.last();
        assert(after.log.last_index() == entry.index);
        adding_keeps_matching(log, other, entry);
    }
}

/// The logs of two nodes match after every step of one of them, if they matched
/// before: where the entries that it takes are a run of a log that matches both,
/// and an entry that it writes itself is new.
pub proof fn logs_stay_matching(node: RaftView, input: InputView, sender: LogView, other: LogView)
    requires
        node.well_formed(),
        node.has_room(input),
        sender.contiguous(),
        other.contiguous(),
        matching(node.log, sender),
        matching(node.log, other),
        matching(sender, other),
        brings_run_of(input, sender),
        writes_new(node, node.stepped(input).node, other),
    ensures
        matching(node.stepped(input).node.log, other),
{
    let turn = Turn { node, actions: Seq::empty() }.applied();
    let log = node.log;
    let after = node.stepped(input).node;
    applying_keeps_room(Turn { node, actions: Seq::empty() }, input);
    last_index_counts(log);
    match input {
        InputView::Tick(tick) => {
            ticking_grows(turn, tick);
        },
        InputView::Propose { id, command } => {
            proposing_grows(turn, id, command);
        },
        InputView::ReadIndex { context } => {
            asking_to_read_keeps_log(turn, context);
        },
        InputView::SnapshotBuilt(snapshot) => {
            if after.log != log {
                compacting_keeps_matching(
                    log,
                    other,
                    snapshot.metadata.last_included_index,
                    snapshot.metadata.last_included_term,
                    true,
                );
            }
        },
        InputView::Message { from, message } => {
            receiving_keeps_matching(turn, from, message, sender, other);
        },
    }
    if grown(log, after) && after.log != log {
        let entry = after.log.entries.last();
        assert(after.log.last_index() == entry.index);
        adding_keeps_matching(log, other, entry);
    }
}

/// An input brings an entry, or the end of a snapshot, of a term at an index.
pub open spec fn brings(input: InputView, index: u64, term: u64) -> bool {
    match input {
        InputView::Message { message, .. } => match message {
            MessageView::AppendEntries { entries, .. } => exists|i: int|
                0 <= i < entries.len() && (#[trigger] entries[i]).index == index && entries[i].term
                    == term,
            MessageView::InstallSnapshot { metadata, .. } => metadata.last_included_index == index
                && metadata.last_included_term == term,
            _ => false,
        },
        _ => false,
    }
}

/// What a node has at an index after a step it had before, has got with the
/// input, or has just written as leader.
pub open spec fn comes_from(before: RaftView, input: InputView, after: RaftView, index: u64) -> bool {
    after.log.term(index) matches Some(term) ==> {
        ||| before.log.term(index) == Some(term)
        ||| brings(input, index, term)
        ||| after.role == Role::Leader && index == after.log.last_index() && term
            == after.hard_state.current_term
    }
}

/// Every part of a log is accounted for, and the log of a leader does not get
/// shorter.
pub open spec fn accounted(before: RaftView, input: InputView, after: RaftView) -> bool {
    &&& forall|index: u64| #[trigger] after.log.term(index) is Some ==> comes_from(
        before,
        input,
        after,
        index,
    )
    &&& after.role == Role::Leader ==> after.log.last_index() >= before.log.last_index()
    &&& after.incoming_snapshot matches Some(incoming) ==> {
        ||| before.incoming_snapshot matches Some(had) && had.metadata == incoming.metadata
        ||| input matches InputView::Message {
            message: MessageView::InstallSnapshot { metadata, .. },
            ..
        } && metadata == incoming.metadata
    }
}

proof fn growing_is_accounted(before: RaftView, input: InputView, after: RaftView)
    requires
        before.log.contiguous(),
        before.log.last_index() < u64::MAX,
        grown(before.log, after),
        after.incoming_snapshot == before.incoming_snapshot,
    ensures
        accounted(before, input, after),
{
    last_index_counts(before.log);
    assert forall|index: u64| #[trigger] after.log.term(index) is Some implies comes_from(
        before,
        input,
        after,
        index,
    ) by {
        if after.log != before.log && index != after.log.last_index() {
            assert(after.log.term(index) == before.log.term(index));
        }
    }
}

proof fn compacting_is_accounted(
    before: RaftView,
    input: InputView,
    after: RaftView,
    index: u64,
    term: u64,
    retain_suffix: bool,
)
    requires
        before.log.contiguous(),
        after.log == before.log.compacted(index, term, retain_suffix),
        retain_suffix ==> before.log.base_index <= index && before.log.term(index) == Some(term),
        !retain_suffix ==> brings(input, index, term) && after.role != Role::Leader,
        after.incoming_snapshot is Some ==> after.incoming_snapshot == before.incoming_snapshot,
    ensures
        accounted(before, input, after),
{
    let log = before.log;
    last_index_counts(log);
    if retain_suffix {
        let kept = (log.base_index + log.entries.len() - index) as int;
        assert(after.log.entries.len() == kept);
        if kept > 0 {
            assert(after.log.entries.last() == log.entries.last());
        }
    }
    assert forall|at: u64| #[trigger] after.log.term(at) is Some implies comes_from(
        before,
        input,
        after,
        at,
    ) by {
        if retain_suffix && at > index {
            assert(after.log.entries[at - index - 1] == log.entries[at - log.base_index - 1]);
        }
    }
}

proof fn taking_is_accounted(
    before: RaftView,
    input: InputView,
    after: RaftView,
    prev_log_index: u64,
    entries: Seq<LogEntryView>,
    position: int,
)
    requires
        before.log.contiguous(),
        0 <= position < entries.len(),
        prev_log_index + entries.len() < u64::MAX,
        before.log.base_index <= prev_log_index <= before.log.last_index(),
        position == divergence(before.log, entries, 0),
        after.log == before.log.replaced_from(entries[position].index, entries.skip(position)),
        forall|i: int|
            0 <= i < entries.len() ==> (#[trigger] entries[i]).index == prev_log_index + 1 + i,
        forall|i: int|
            0 <= i < entries.len() ==> brings(
                input,
                (#[trigger] entries[i]).index,
                entries[i].term,
            ),
        after.role != Role::Leader,
        after.incoming_snapshot == before.incoming_snapshot,
    ensures
        accounted(before, input, after),
{
    let log = before.log;
    let from = entries[position].index;
    divergence_is_first(log, entries, 0);
    last_index_counts(log);
    assert(from - 1 <= log.last_index()) by {
        if position > 0 {
            assert(log.term(entries[position - 1].index) is Some);
        }
    }
    assert forall|at: u64| #[trigger] after.log.term(at) is Some implies comes_from(
        before,
        input,
        after,
        at,
    ) by {
        if at >= from {
            let i = at - prev_log_index - 1;
            assert(after.log.entries[at - log.base_index - 1] == entries.skip(position)[i
                - position]);
            assert(entries[i].index == at);
        } else {
            assert(after.log.term(at) == log.term(at));
        }
    }
}

proof fn receiving_entries_is_accounted(
    turn: Turn,
    from: NodeId,
    term: u64,
    leader_id: NodeId,
    prev_log_index: u64,
    prev_log_term: u64,
    entries: Seq<LogEntryView>,
    leader_commit: u64,
    read_context: Option<Seq<u8>>,
)
    requires
        turn.node.log.contiguous(),
        leader_id == from && term >= turn.node.hard_state.current_term && follows_on(
            turn.node.log,
            prev_log_index,
            prev_log_term,
            term,
            entries,
        ) ==> prev_log_index + entries.len() < u64::MAX,
    ensures
        accounted(
            turn.node,
            InputView::Message {
                from,
                message: MessageView::AppendEntries {
                    term,
                    leader_id,
                    prev_log_index,
                    prev_log_term,
                    entries,
                    leader_commit,
                    read_context,
                },
            },
            turn.entries_received(
                from,
                term,
                leader_id,
                prev_log_index,
                prev_log_term,
                entries,
                leader_commit,
                read_context,
            ).node,
        ),
{
    let input = InputView::Message {
        from,
        message: MessageView::AppendEntries {
            term,
            leader_id,
            prev_log_index,
            prev_log_term,
            entries,
            leader_commit,
            read_context,
        },
    };
    let log = turn.node.log;
    let after = turn.entries_received(
        from,
        term,
        leader_id,
        prev_log_index,
        prev_log_term,
        entries,
        leader_commit,
        read_context,
    ).node;
    last_index_counts(log);
    if after.log != log {
        let position = divergence(log, entries, 0);
        divergence_is_first(log, entries, 0);
        assert(valid_entry_sequence(prev_log_index, prev_log_term, term, entries));
        assert forall|i: int| 0 <= i < entries.len() implies brings(
            input,
            (#[trigger] entries[i]).index,
            entries[i].term,
        ) by {}
        assert(prev_log_index + entries.len() < u64::MAX) by {
            reveal(follows_on);
        }
        taking_is_accounted(turn.node, input, after, prev_log_index, entries, position);
    }
}

proof fn receiving_chunks_is_accounted(
    turn: Turn,
    from: NodeId,
    term: u64,
    leader_id: NodeId,
    metadata: SnapshotMetadataView,
    offset: u64,
    data: Seq<u8>,
    done: bool,
)
    requires
        turn.node.log.contiguous(),
        turn.node.log.base_index <= turn.node.applied_index,
    ensures
        accounted(
            turn.node,
            InputView::Message {
                from,
                message: MessageView::InstallSnapshot {
                    term,
                    leader_id,
                    metadata,
                    offset,
                    data,
                    done,
                },
            },
            turn.chunk_received(from, term, leader_id, metadata, offset, data, done).node,
        ),
{
    let input = InputView::Message {
        from,
        message: MessageView::InstallSnapshot { term, leader_id, metadata, offset, data, done },
    };
    let log = turn.node.log;
    let after = turn.chunk_received(from, term, leader_id, metadata, offset, data, done).node;
    last_index_counts(log);
    if after.log != log {
        compacting_is_accounted(
            turn.node,
            input,
            after,
            metadata.last_included_index,
            metadata.last_included_term,
            log.term(metadata.last_included_index) == Some(metadata.last_included_term),
        );
    }
}

pub(crate) proof fn answers_keep_log(turn: Turn, from: NodeId, message: MessageView)
    requires
        message is PreVoteRequest || message is RequestVote || message is AppendEntriesResponse
            || message is InstallSnapshotResponse,
    ensures
        turn.received(from, message).node.log == turn.node.log,
        turn.received(from, message).node.incoming_snapshot == turn.node.incoming_snapshot,
{
    reveal(Turn::received);
    match message {
        MessageView::PreVoteRequest { .. } => {},
        MessageView::RequestVote { .. } => {},
        MessageView::AppendEntriesResponse { .. } => {},
        _ => {},
    }
}

proof fn winning_is_accounted(turn: Turn, from: NodeId, message: MessageView)
    requires
        turn.node.log.contiguous(),
        turn.node.log.last_index() + 1 < u64::MAX,
        message is PreVoteResponse || message is RequestVoteResponse,
    ensures
        accounted(
            turn.node,
            InputView::Message { from, message },
            turn.received(from, message).node,
        ),
{
    reveal(Turn::received);
    let counted = Turn {
        node: RaftView { votes: turn.node.votes.insert(from), ..turn.node },
        ..turn
    };
    leading_adds_an_entry(counted);
    if let MessageView::PreVoteResponse { prospective_term, .. } = message {
        standing_grows(counted, prospective_term);
    }
    growing_is_accounted(
        turn.node,
        InputView::Message { from, message },
        turn.received(from, message).node,
    );
}

/// Every step accounts for what the log holds after it.
pub proof fn step_accounts_for_log(node: RaftView, input: InputView)
    requires
        node.well_formed(),
        node.has_room(input),
    ensures
        accounted(node, input, node.stepped(input).node),
{
    let turn = Turn { node, actions: Seq::empty() }.applied();
    let after = node.stepped(input).node;
    applying_keeps_room(Turn { node, actions: Seq::empty() }, input);
    last_index_counts(node.log);
    match input {
        InputView::Tick(tick) => {
            ticking_grows(turn, tick);
            growing_is_accounted(turn.node, input, after);
        },
        InputView::Propose { id, command } => {
            proposing_grows(turn, id, command);
            growing_is_accounted(turn.node, input, after);
        },
        InputView::ReadIndex { context } => {
            asking_to_read_keeps_log(turn, context);
            growing_is_accounted(turn.node, input, after);
        },
        InputView::SnapshotBuilt(snapshot) => {
            if after.log != node.log {
                compacting_is_accounted(
                    turn.node,
                    input,
                    after,
                    snapshot.metadata.last_included_index,
                    snapshot.metadata.last_included_term,
                    true,
                );
            }
        },
        InputView::Message { from, message } => {
            receiving_is_accounted(turn, from, message);
        },
    }
    assert(accounted(turn.node, input, after));
    assert(accounted(node, input, after));
}

proof fn receiving_is_accounted(turn: Turn, from: NodeId, message: MessageView)
    requires
        turn.node.log.contiguous(),
        turn.node.log.base_index <= turn.node.applied_index,
        turn.node.log.last_index() + 1 < u64::MAX,
        turn.node.entries_fit(from, message),
    ensures
        accounted(
            turn.node,
            InputView::Message { from, message },
            turn.received(from, message).node,
        ),
{
    reveal(Turn::received);
    match message {
        MessageView::PreVoteResponse { .. } => {
            winning_is_accounted(turn, from, message);
        },
        MessageView::RequestVoteResponse { .. } => {
            winning_is_accounted(turn, from, message);
        },
        MessageView::AppendEntries {
            term,
            leader_id,
            prev_log_index,
            prev_log_term,
            entries,
            leader_commit,
            read_context,
        } => {
            if turn.node.configuration.voters().contains(from) && from != turn.node.id {
                reveal(RaftView::entries_fit);
                receiving_entries_is_accounted(
                    turn,
                    from,
                    term,
                    leader_id,
                    prev_log_index,
                    prev_log_term,
                    entries,
                    leader_commit,
                    read_context,
                );
            }
        },
        MessageView::InstallSnapshot { term, leader_id, metadata, offset, data, done } => {
            receiving_chunks_is_accounted(
                turn,
                from,
                term,
                leader_id,
                metadata,
                offset,
                data,
                done,
            );
        },
        _ => {
            answers_keep_log(turn, from, message);
        },
    }
}

} // verus!
