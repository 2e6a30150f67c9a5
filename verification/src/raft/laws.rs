//! What holds of every step of a node.

use vstd::prelude::*;
use crate::raft::configuration::quorum_index_is_reached;
use crate::raft::log::{LogView, last_index_counts, stored_log};
use crate::raft::node::{divergence_is_within, replacing_keeps_contiguity};
use crate::raft::state::{
    IncomingSnapshotView, PendingReadView, Progress, RaftView, Turn, application, applications,
    applying_keeps_room, divergence, follows_on, least, most, refused_reads, valid_entry_sequence,
};
use crate::raft::types::{
    ActionView, CommandId, HardState, InputView, LogEntryView, MessageView, PersistentSnapshotView,
    Role, SnapshotMetadataView, StableStateView, StorageMutationView, Tick,
};
use crate::types::NodeId;

verus! {

/// What is stored after an action was carried out. Applying an entry is stored
/// too, by the state machine.
pub open spec fn stored(stable: StableStateView, action: ActionView) -> StableStateView {
    match action {
        ActionView::Persist(mutation) => match mutation {
            StorageMutationView::HardState(hard_state) => StableStateView { hard_state, ..stable },
            StorageMutationView::Append(entries) => StableStateView {
                entries: stable.entries + entries,
                ..stable
            },
            StorageMutationView::TruncateAndAppend { from, entries } => StableStateView {
                entries: stored_log(stable.snapshot, stable.entries).replaced_from(
                    from,
                    entries,
                ).entries,
                ..stable
            },
            StorageMutationView::CompactSnapshot { snapshot, retained_entries } => StableStateView {
                snapshot: Some(snapshot),
                entries: retained_entries,
                ..stable
            },
            StorageMutationView::InstallSnapshot {
                snapshot,
                retained_entries,
                hard_state,
            } => StableStateView {
                hard_state,
                snapshot: Some(snapshot),
                entries: retained_entries,
                applied_index: snapshot.metadata.last_included_index,
            },
        },
        ActionView::Apply(entry) => StableStateView { applied_index: entry.index, ..stable },
        _ => stable,
    }
}

/// What is stored after actions were carried out in order.
pub open spec fn all_stored(stable: StableStateView, actions: Seq<ActionView>) -> StableStateView
    decreases actions.len(),
{
    if actions.len() == 0 {
        stable
    } else {
        stored(all_stored(stable, actions.drop_last()), actions.last())
    }
}

/// The node has applied all that it knows to be committed.
pub open spec fn settled(node: RaftView) -> bool {
    node.well_formed() && node.applied_index == node.hard_state.commit_index
}

/// What no step undoes.
pub open spec fn succeeds(before: RaftView, after: RaftView) -> bool {
    &&& after.id == before.id
    &&& after.configuration == before.configuration
    &&& after.hard_state.current_term >= before.hard_state.current_term
    &&& after.hard_state.current_term == before.hard_state.current_term
        && before.hard_state.voted_for is Some ==> after.hard_state.voted_for
        == before.hard_state.voted_for
    &&& after.hard_state.commit_index >= before.hard_state.commit_index
    &&& after.applied_index >= before.applied_index
    &&& after.log.base_index >= before.log.base_index
    &&& forall|index: u64|
        after.log.base_index < index <= before.hard_state.commit_index
            ==> #[trigger] after.log.entry(index) == before.log.entry(index)
}

/// No message is sent.
pub open spec fn silent(actions: Seq<ActionView>) -> bool {
    forall|i: int| 0 <= i < actions.len() ==> (#[trigger] actions[i]) !is Send
}

/// Nothing is stored after the first message was sent.
pub open spec fn persists_first(actions: Seq<ActionView>) -> bool {
    forall|i: int, j: int|
        0 <= i < j < actions.len() && (#[trigger] actions[i]) is Send ==> (
        #[trigger] actions[j]) !is Persist && actions[j] !is Apply
}

/// What has been asked for so far stores exactly what the node holds.
pub open spec fn durable(start: StableStateView, turn: Turn) -> bool {
    all_stored(start, turn.actions) == turn.node.stable()
}

/// The terms of the log never go down, and none is above the current one.
pub open spec fn orderly(node: RaftView) -> bool {
    node.log.terms_ordered(node.hard_state.current_term)
}

/// A snapshot that a leader sends is not from a later term than the leader's.
pub open spec fn honest(input: InputView) -> bool {
    match input {
        InputView::Message { message, .. } => match message {
            MessageView::InstallSnapshot { term, metadata, .. } => metadata.last_included_term
                <= term,
            _ => true,
        },
        _ => true,
    }
}

/// What was stored when a step began, and whether its input is honest.
struct Premise {
    stable: StableStateView,
    honest: bool,
}

/// A part of a step that sends nothing.
spec fn prepares(start: Premise, before: Turn, after: Turn) -> bool {
    &&& settled(after.node)
    &&& succeeds(before.node, after.node)
    &&& durable(start.stable, before) ==> durable(start.stable, after)
    &&& start.honest && orderly(before.node) ==> orderly(after.node)
    &&& silent(before.actions) ==> silent(after.actions)
}

/// A part of a step that may send, at its end.
spec fn concludes(start: Premise, before: Turn, after: Turn) -> bool {
    &&& settled(after.node)
    &&& succeeds(before.node, after.node)
    &&& durable(start.stable, before) ==> durable(start.stable, after)
    &&& start.honest && orderly(before.node) ==> orderly(after.node)
    &&& silent(before.actions) ==> persists_first(after.actions)
}

/// An action that stores nothing.
spec fn passing(action: ActionView) -> bool {
    action !is Persist && action !is Apply
}

proof fn push_stores(stable: StableStateView, actions: Seq<ActionView>, action: ActionView)
    ensures
        all_stored(stable, actions.push(action)) == stored(all_stored(stable, actions), action),
{
    assert(actions.push(action).drop_last() =~= actions);
}

/// Actions that store nothing.
proof fn passing_stores_nothing(
    stable: StableStateView,
    actions: Seq<ActionView>,
    more: Seq<ActionView>,
)
    requires
        forall|i: int| 0 <= i < more.len() ==> passing(#[trigger] more[i]),
    ensures
        all_stored(stable, actions + more) == all_stored(stable, actions),
    decreases more.len(),
{
    if more.len() == 0 {
        assert(actions + more =~= actions);
    } else {
        let fewer = more.drop_last();
        assert forall|i: int| 0 <= i < fewer.len() implies passing(#[trigger] fewer[i]) by {
            assert(fewer[i] == more[i]);
        }
        passing_stores_nothing(stable, actions, fewer);
        assert(actions + more =~= (actions + fewer).push(more.last()));
        push_stores(stable, actions + fewer, more.last());
    }
}

proof fn applications_store(
    stable: StableStateView,
    actions: Seq<ActionView>,
    log: LogView,
    leader: bool,
    from: int,
    to: int,
)
    requires
        log.contiguous(),
        log.base_index <= from <= to <= log.base_index + log.entries.len(),
        all_stored(stable, actions).applied_index == from,
    ensures
        all_stored(stable, actions + applications(log, leader, from, to)) == (StableStateView {
            applied_index: to as u64,
            ..all_stored(stable, actions)
        }),
        silent(applications(log, leader, from, to)),
    decreases to - from,
{
    let done = applications(log, leader, from, to);
    if to == from {
        assert(actions + done =~= actions);
    } else {
        applications_store(stable, actions, log, leader, from, to - 1);
        let entry = log.entry(to as u64)->0;
        let last = application(entry, leader);
        let fewer = applications(log, leader, from, to - 1);
        assert(entry.index == to);
        assert(done == fewer + last);
        let first = actions + fewer;
        push_stores(stable, first, last[0]);
        if last.len() == 1 {
            assert(actions + done =~= first.push(last[0]));
        } else {
            push_stores(stable, first.push(last[0]), last[1]);
            assert(actions + done =~= first.push(last[0]).push(last[1]));
        }
    }
}

proof fn acting_prepares(start: Premise, turn: Turn, action: ActionView)
    requires
        settled(turn.node),
        passing(action),
        action !is Send,
    ensures
        prepares(start, turn, turn.act(action)),
{
    push_stores(start.stable, turn.actions, action);
}

proof fn acting_concludes(start: Premise, before: Turn, turn: Turn, action: ActionView)
    requires
        concludes(start, before, turn),
        passing(action),
    ensures
        concludes(start, before, turn.act(action)),
{
    push_stores(start.stable, turn.actions, action);
}

proof fn prepared_concludes(start: Premise, before: Turn, turn: Turn)
    requires
        prepares(start, before, turn),
    ensures
        concludes(start, before, turn),
{
}

proof fn prepares_compose(start: Premise, a: Turn, b: Turn, c: Turn)
    requires
        prepares(start, a, b),
        prepares(start, b, c),
    ensures
        prepares(start, a, c),
{
    assert forall|index: u64|
        c.node.log.base_index < index <= a.node.hard_state.commit_index implies
        #[trigger] c.node.log.entry(index) == a.node.log.entry(index) by {
        assert(c.node.log.entry(index) == b.node.log.entry(index));
        assert(b.node.log.entry(index) == a.node.log.entry(index));
    }
}

proof fn concludes_compose(start: Premise, a: Turn, b: Turn, c: Turn)
    requires
        prepares(start, a, b),
        concludes(start, b, c),
    ensures
        concludes(start, a, c),
{
    assert forall|index: u64|
        c.node.log.base_index < index <= a.node.hard_state.commit_index implies
        #[trigger] c.node.log.entry(index) == a.node.log.entry(index) by {
        assert(c.node.log.entry(index) == b.node.log.entry(index));
        assert(b.node.log.entry(index) == a.node.log.entry(index));
    }
}

/// A change of what a node does not store.
proof fn volatile_prepares(start: Premise, before: Turn, after: Turn)
    requires
        settled(before.node),
        after.actions == before.actions,
        after.node.id == before.node.id,
        after.node.configuration == before.node.configuration,
        after.node.hard_state == before.node.hard_state,
        after.node.log == before.node.log,
        after.node.snapshot == before.node.snapshot,
        after.node.applied_index == before.node.applied_index,
        after.node.campaign_term matches Some(term) ==> term > after.node.hard_state.current_term,
    ensures
        prepares(start, before, after),
{
}

/// Applying what is committed settles a node.
proof fn applying_settles(start: Premise, turn: Turn)
    requires
        turn.node.well_formed(),
    ensures
        prepares(start, turn, turn.applied()),
        turn.applied().node.log == turn.node.log,
        turn.applied().node.hard_state == turn.node.hard_state,
{
    let node = turn.node;
    last_index_counts(node.log);
    let leader = node.role == Role::Leader;
    let from = node.applied_index as int;
    let to = node.hard_state.commit_index as int;
    let more = applications(node.log, leader, from, to);
    applications_are_silent(node.log, leader, from, to);
    if durable(start.stable, turn) {
        applications_store(start.stable, turn.actions, node.log, leader, from, to);
    }
}

pub(crate) proof fn applications_are_silent(log: LogView, leader: bool, from: int, to: int)
    ensures
        silent(applications(log, leader, from, to)),
    decreases to - from,
{
    if to > from {
        applications_are_silent(log, leader, from, to - 1);
    }
}

proof fn committing_prepares(start: Premise, turn: Turn, index: u64)
    requires
        settled(turn.node),
        index <= turn.node.log.last_index(),
    ensures
        prepares(start, turn, turn.committed(index)),
        turn.committed(index).node.log == turn.node.log,
{
    if index > turn.node.hard_state.commit_index {
        let raised = Turn {
            node: RaftView {
                hard_state: HardState { commit_index: index, ..turn.node.hard_state },
                ..turn.node
            },
            ..turn
        }.persist_hard_state();
        push_stores(start.stable, turn.actions, raised.actions.last());
        assert(durable(start.stable, turn) ==> durable(start.stable, raised));
        applying_settles(start, raised);
    }
}

proof fn advancing_prepares(start: Premise, turn: Turn)
    requires
        settled(turn.node),
    ensures
        prepares(start, turn, turn.advanced()),
        turn.advanced().node.log == turn.node.log,
{
    let index = turn.node.configuration.quorum_index(turn.node.matched());
    if turn.node.log.term(index) is Some {
        last_index_counts(turn.node.log);
        committing_prepares(start, turn, index);
    }
}

proof fn appending_concludes(
    start: Premise,
    before: Turn,
    turn: Turn,
    peer: NodeId,
    context: Option<Seq<u8>>,
)
    requires
        concludes(start, before, turn),
    ensures
        concludes(start, before, turn.append_to(peer, context)),
        turn.append_to(peer, context).node == turn.node,
{
    if let Some(action) = turn.node.append_action(peer, context) {
        acting_concludes(start, before, turn, action);
    }
}

proof fn appending_to_first_concludes(
    start: Premise,
    before: Turn,
    turn: Turn,
    context: Option<Seq<u8>>,
    n: int,
)
    requires
        concludes(start, before, turn),
    ensures
        concludes(start, before, turn.append_to_first(context, n)),
        turn.append_to_first(context, n).node == turn.node,
    decreases n,
{
    if n > 0 {
        appending_to_first_concludes(start, before, turn, context, n - 1);
        appending_concludes(
            start,
            before,
            turn.append_to_first(context, n - 1),
            turn.node.peers()[n - 1],
            context,
        );
    }
}

proof fn broadcasting_concludes(
    start: Premise,
    before: Turn,
    turn: Turn,
    context: Option<Seq<u8>>,
)
    requires
        concludes(start, before, turn),
    ensures
        concludes(start, before, turn.broadcast(context)),
        turn.broadcast(context).node == turn.node,
{
    appending_to_first_concludes(
        start,
        before,
        turn,
        context,
        turn.node.peers().len() as int,
    );
}

proof fn sending_concludes(
    start: Premise,
    before: Turn,
    turn: Turn,
    message: MessageView,
    n: int,
)
    requires
        concludes(start, before, turn),
    ensures
        concludes(start, before, turn.send_to_first(message, n)),
        turn.send_to_first(message, n).node == turn.node,
    decreases n,
{
    if n > 0 {
        sending_concludes(start, before, turn, message, n - 1);
        acting_concludes(
            start,
            before,
            turn.send_to_first(message, n - 1),
            ActionView::Send { to: turn.node.peers()[n - 1], message },
        );
    }
}

proof fn replying_concludes(
    start: Premise,
    before: Turn,
    turn: Turn,
    to: NodeId,
    message: MessageView,
)
    requires
        prepares(start, before, turn),
    ensures
        concludes(start, before, turn.send(to, message)),
{
    prepared_concludes(start, before, turn);
    acting_concludes(start, before, turn, ActionView::Send { to, message });
}

proof fn stepping_down_prepares(
    start: Premise,
    turn: Turn,
    term: u64,
    leader_id: Option<NodeId>,
)
    requires
        settled(turn.node),
    ensures
        prepares(start, turn, turn.stepped_down(term, leader_id)),
        turn.stepped_down(term, leader_id).node.log == turn.node.log,
        turn.stepped_down(term, leader_id).node.hard_state.current_term == most(
            term,
            turn.node.hard_state.current_term,
        ),
{
    let termed = if term > turn.node.hard_state.current_term {
        let raised = Turn {
            node: RaftView {
                hard_state: HardState {
                    current_term: term,
                    voted_for: None,
                    ..turn.node.hard_state
                },
                ..turn.node
            },
            ..turn
        };
        push_stores(start.stable,
            turn.actions,
            ActionView::Persist(StorageMutationView::HardState(raised.node.hard_state)),
        );
        raised.persist_hard_state()
    } else {
        turn
    };
    assert(durable(start.stable, turn) ==> durable(start.stable, termed));
    assert(silent(turn.actions) ==> silent(termed.actions));
    let refused = refused_reads(turn.node.pending_reads);
    passing_stores_nothing(start.stable, termed.actions, refused);
    let quiet = Turn {
        node: RaftView {
            role: Role::Follower,
            leader_id,
            campaign_term: None,
            votes: Set::empty(),
            progress: Map::empty(),
            recent_active: Set::empty(),
            pending_reads: Map::empty(),
            ..termed.node
        },
        actions: termed.actions + refused,
    };
    assert(prepares(start, turn, quiet));
    push_stores(start.stable,
        quiet.actions,
        ActionView::RoleChanged {
            role: Role::Follower,
            term: quiet.node.hard_state.current_term,
        },
    );
}

proof fn outdating_prepares(start: Premise, turn: Turn, term: u64)
    requires
        settled(turn.node),
    ensures
        prepares(start, turn, turn.outdated(term)),
{
    stepping_down_prepares(start, turn, term, None);
    let down = turn.stepped_down(term, None);
    acting_prepares(start, down, ActionView::ResetElectionTimer);
    prepares_compose(start, turn, down, turn.outdated(term));
}

/// An entry at the end of the log.
proof fn appending_prepares(start: Premise, turn: Turn, after: Turn, entry: LogEntryView)
    requires
        settled(turn.node),
        turn.node.log.last_index() + 1 < u64::MAX,
        entry.index == turn.node.log.last_index() + 1,
        entry.term == turn.node.hard_state.current_term,
        after.actions == turn.actions.push(
            ActionView::Persist(StorageMutationView::Append(seq![entry])),
        ),
        after.node.log == turn.node.log.appended(seq![entry]),
        after.node.id == turn.node.id,
        after.node.configuration == turn.node.configuration,
        after.node.hard_state == turn.node.hard_state,
        after.node.snapshot == turn.node.snapshot,
        after.node.applied_index == turn.node.applied_index,
        after.node.campaign_term == turn.node.campaign_term,
    ensures
        prepares(start, turn, after),
{
    let log = turn.node.log;
    let longer = after.node.log;
    last_index_counts(log);
    assert forall|i: int| 0 <= i < longer.entries.len() implies (#[trigger] longer.entries[i]).index
        == longer.base_index + 1 + i by {
        if i < log.entries.len() {
            assert(longer.entries[i] == log.entries[i]);
        }
    }
    last_index_counts(longer);
    push_stores(start.stable, turn.actions, after.actions.last());
}

proof fn leading_concludes(start: Premise, turn: Turn)
    requires
        settled(turn.node),
        turn.node.log.last_index() + 1 < u64::MAX,
    ensures
        concludes(start, turn, turn.leading()),
{
    let entry = LogEntryView {
        index: (turn.node.log.last_index() + 1) as u64,
        term: turn.node.hard_state.current_term,
        payload: crate::raft::types::EntryPayloadView::Noop,
    };
    let id = turn.node.id;
    let voters = turn.node.configuration.voters();
    let written = Turn {
        node: RaftView {
            role: Role::Leader,
            leader_id: Some(id),
            votes: Set::empty(),
            pending_reads: Map::empty(),
            log: turn.node.log.appended(seq![entry]),
            progress: Map::new(
                |voter: NodeId| voters.contains(voter),
                |voter: NodeId|
                    Progress {
                        match_index: if voter == id {
                            entry.index
                        } else {
                            0
                        },
                        next_index: (entry.index + 1) as u64,
                        snapshot_offset: None,
                    },
            ),
            recent_active: voters,
            ..turn.node
        },
        ..turn
    }.act(ActionView::Persist(StorageMutationView::Append(seq![entry])));
    appending_prepares(start, turn, written, entry);
    let changed = ActionView::RoleChanged { role: Role::Leader, term: entry.term };
    acting_prepares(start, written, changed);
    let told = written.act(changed);
    prepares_compose(start, turn, written, told);
    acting_prepares(start, told, ActionView::ResetHeartbeatTimer);
    let timed = told.act(ActionView::ResetHeartbeatTimer);
    prepares_compose(start, turn, told, timed);
    advancing_prepares(start, timed);
    prepares_compose(start, turn, timed, timed.advanced());
    prepared_concludes(start, turn, timed.advanced());
    broadcasting_concludes(start, turn, timed.advanced(), None);
}

proof fn standing_concludes(start: Premise, turn: Turn, term: u64)
    requires
        settled(turn.node),
        turn.node.log.last_index() + 1 < u64::MAX,
        term > turn.node.hard_state.current_term,
    ensures
        concludes(start, turn, turn.standing(term)),
{
    let termed = Turn {
        node: RaftView {
            hard_state: HardState {
                current_term: term,
                voted_for: Some(turn.node.id),
                ..turn.node.hard_state
            },
            role: Role::Candidate,
            campaign_term: None,
            votes: set![turn.node.id],
            ..turn.node
        },
        ..turn
    }.persist_hard_state();
    push_stores(start.stable, turn.actions, termed.actions.last());
    assert(prepares(start, turn, termed));
    let changed = ActionView::RoleChanged { role: Role::Candidate, term };
    acting_prepares(start, termed, changed);
    let told = termed.act(changed);
    prepares_compose(start, turn, termed, told);
    acting_prepares(start, told, ActionView::ResetElectionTimer);
    let timed = told.act(ActionView::ResetElectionTimer);
    prepares_compose(start, turn, told, timed);
    leading_concludes(start, timed);
    concludes_compose(start, turn, timed, timed.leading());
    prepared_concludes(start, turn, timed);
    sending_concludes(
        start,
        turn,
        timed,
        MessageView::RequestVote {
            term,
            candidate_id: timed.node.id,
            last_log_index: timed.node.log.last_index(),
            last_log_term: timed.node.log.last_term(),
        },
        timed.node.peers().len() as int,
    );
}

proof fn campaigning_concludes(start: Premise, turn: Turn)
    requires
        settled(turn.node),
        turn.node.log.last_index() + 1 < u64::MAX,
    ensures
        concludes(start, turn, turn.campaigning()),
{
    if turn.node.hard_state.current_term == u64::MAX {
        volatile_prepares(start, turn, turn);
        prepared_concludes(start, turn, turn);
        acting_concludes(
            start,
            turn,
            turn,
            ActionView::Fatal { reason: "term counter exhausted"@ },
        );
    } else {
        let prospective_term = (turn.node.hard_state.current_term + 1) as u64;
        let ready = Turn {
            node: RaftView {
                role: Role::PreCandidate,
                leader_id: None,
                campaign_term: Some(prospective_term),
                votes: set![turn.node.id],
                ..turn.node
            },
            ..turn
        };
        volatile_prepares(start, turn, ready);
        let changed = ActionView::RoleChanged {
            role: Role::PreCandidate,
            term: turn.node.hard_state.current_term,
        };
        acting_prepares(start, ready, changed);
        let told = ready.act(changed);
        prepares_compose(start, turn, ready, told);
        acting_prepares(start, told, ActionView::ResetElectionTimer);
        let timed = told.act(ActionView::ResetElectionTimer);
        prepares_compose(start, turn, told, timed);
        standing_concludes(start, timed, prospective_term);
        concludes_compose(start, turn, timed, timed.standing(prospective_term));
        prepared_concludes(start, turn, timed);
        sending_concludes(
            start,
            turn,
            timed,
            MessageView::PreVoteRequest {
                prospective_term,
                candidate_id: timed.node.id,
                last_log_index: timed.node.log.last_index(),
                last_log_term: timed.node.log.last_term(),
            },
            timed.node.peers().len() as int,
        );
    }
}

proof fn ticking_concludes(start: Premise, turn: Turn, tick: Tick)
    requires
        settled(turn.node),
        turn.node.log.last_index() + 1 < u64::MAX,
    ensures
        concludes(start, turn, turn.ticked(tick)),
{
    volatile_prepares(start, turn, turn);
    prepared_concludes(start, turn, turn);
    match tick {
        Tick::Election => {
            campaigning_concludes(start, turn);
        },
        Tick::Heartbeat => {
            broadcasting_concludes(start, turn, turn, None);
            acting_concludes(
                start,
                turn,
                turn.broadcast(None),
                ActionView::ResetHeartbeatTimer,
            );
        },
        Tick::CheckQuorum => {
            let fresh = Turn {
                node: RaftView { recent_active: set![turn.node.id], ..turn.node },
                ..turn
            };
            volatile_prepares(start, turn, fresh);
            prepared_concludes(start, turn, fresh);
            broadcasting_concludes(start, turn, fresh, None);
            outdating_prepares(start, turn, turn.node.hard_state.current_term);
            prepared_concludes(start, turn, turn.outdated(turn.node.hard_state.current_term));
        },
    }
}

proof fn vote_asked_concludes(
    start: Premise,
    turn: Turn,
    from: NodeId,
    term: u64,
    candidate_id: NodeId,
    last_log_index: u64,
    last_log_term: u64,
)
    requires
        settled(turn.node),
    ensures
        concludes(
            start,
            turn,
            turn.vote_asked(from, term, candidate_id, last_log_index, last_log_term),
        ),
{
    volatile_prepares(start, turn, turn);
    prepared_concludes(start, turn, turn);
    let ready = if term > turn.node.hard_state.current_term {
        stepping_down_prepares(start, turn, term, None);
        turn.stepped_down(term, None)
    } else {
        turn
    };
    let hard_state = ready.node.hard_state;
    let granted = term == hard_state.current_term && (hard_state.voted_for is None
        || hard_state.voted_for == Some(candidate_id)) && ready.node.up_to_date(
        last_log_index,
        last_log_term,
    );
    let reply = MessageView::RequestVoteResponse { term: hard_state.current_term, granted };
    if granted {
        let voted = if hard_state.voted_for == Some(candidate_id) {
            ready
        } else {
            Turn {
                node: RaftView {
                    hard_state: HardState { voted_for: Some(candidate_id), ..hard_state },
                    ..ready.node
                },
                ..ready
            }.persist_hard_state()
        };
        push_stores(start.stable,
            ready.actions,
            ActionView::Persist(StorageMutationView::HardState(voted.node.hard_state)),
        );
        assert(prepares(start, ready, voted));
        prepares_compose(start, turn, ready, voted);
        let free = Turn { node: RaftView { leader_id: None, ..voted.node }, ..voted };
        volatile_prepares(start, voted, free);
        prepares_compose(start, turn, voted, free);
        acting_prepares(start, free, ActionView::ResetElectionTimer);
        let timed = free.act(ActionView::ResetElectionTimer);
        prepares_compose(start, turn, free, timed);
        replying_concludes(start, turn, timed, from, reply);
    } else {
        replying_concludes(start, turn, ready, from, reply);
    }
}

/// Entries that follow on the log keep its terms in order when they replace
/// its end from where they diverge.
proof fn replacing_keeps_order(
    log: LogView,
    entries: Seq<LogEntryView>,
    prev_log_index: u64,
    prev_log_term: u64,
    leader_term: u64,
    current: u64,
)
    requires
        log.contiguous(),
        log.terms_ordered(current),
        log.base_index <= prev_log_index <= log.last_index(),
        log.term(prev_log_index) == Some(prev_log_term),
        leader_term <= current,
        prev_log_index + entries.len() < u64::MAX,
        valid_entry_sequence(prev_log_index, prev_log_term, leader_term, entries),
        divergence(log, entries, 0) < entries.len(),
    ensures
        ({
            let position = divergence(log, entries, 0);
            log.replaced_from(entries[position].index, entries.skip(position)).terms_ordered(
                current,
            )
        }),
{
    let position = divergence(log, entries, 0);
    last_index_counts(log);
    divergence_is_within(log, entries, prev_log_index, prev_log_term, leader_term, 0);
    let index = entries[position].index;
    let suffix = entries.skip(position);
    let replaced = log.replaced_from(index, suffix);
    let kept = index - log.base_index - 1;
    let joint = if position == 0 {
        prev_log_term
    } else {
        assert(log.term(entries[position - 1].index) == Some(entries[position - 1].term));
        entries[position - 1].term
    };
    assert(kept > 0 ==> log.entries[kept - 1].term == joint);
    assert forall|i: int| 0 <= i < replaced.entries.len() implies replaced.base_term <= (
    #[trigger] replaced.entries[i]).term <= current by {
        if i < kept {
            assert(replaced.entries[i] == log.entries[i]);
        } else {
            assert(replaced.entries[i] == entries[position + i - kept]);
        }
    }
    assert forall|i: int, j: int| 0 <= i < j < replaced.entries.len() implies (
    #[trigger] replaced.entries[i]).term <= (#[trigger] replaced.entries[j]).term by {
        if i < kept {
            assert(replaced.entries[i] == log.entries[i]);
            if i < kept - 1 {
                assert(log.entries[i].term <= log.entries[kept - 1].term);
            }
        } else {
            assert(replaced.entries[i] == entries[position + i - kept]);
        }
        if j < kept {
            assert(replaced.entries[j] == log.entries[j]);
        } else {
            assert(replaced.entries[j] == entries[position + j - kept]);
            if position > 0 {
                assert(entries[position - 1].term <= entries[position + j - kept].term);
            }
        }
    }
}

proof fn entries_taken_concludes(
    start: Premise,
    turn: Turn,
    from: NodeId,
    prev_log_index: u64,
    prev_log_term: u64,
    leader_term: u64,
    entries: Seq<LogEntryView>,
    leader_commit: u64,
    read_context: Option<Seq<u8>>,
)
    requires
        settled(turn.node),
        turn.node.log.last_index() + 1 < u64::MAX,
        turn.node.log.base_index <= prev_log_index <= turn.node.log.last_index(),
        prev_log_index + entries.len() < u64::MAX,
        turn.node.log.term(prev_log_index) == Some(prev_log_term),
        leader_term <= turn.node.hard_state.current_term,
        valid_entry_sequence(prev_log_index, prev_log_term, leader_term, entries),
    ensures
        concludes(
            start,
            turn,
            turn.entries_taken(from, prev_log_index, entries, leader_commit, read_context),
        ),
{
    let log = turn.node.log;
    let position = divergence(log, entries, 0);
    volatile_prepares(start, turn, turn);
    prepared_concludes(start, turn, turn);
    last_index_counts(log);
    divergence_is_within(log, entries, prev_log_index, prev_log_term, leader_term, 0);
    if position < entries.len() && entries[position].index <= turn.node.hard_state.commit_index {
        let after = turn.entries_taken(from, prev_log_index, entries, leader_commit, read_context);
        acting_concludes(start, turn, turn, after.actions.last());
    } else {
        let written = if position < entries.len() {
            let index = entries[position].index;
            let suffix = entries.skip(position);
            let mutation = if index <= log.last_index() {
                StorageMutationView::TruncateAndAppend { from: index, entries: suffix }
            } else {
                StorageMutationView::Append(suffix)
            };
            let after = Turn {
                node: RaftView { log: log.replaced_from(index, suffix), ..turn.node },
                ..turn
            }.act(ActionView::Persist(mutation));
            replacing_keeps_contiguity(
                log,
                entries,
                prev_log_index,
                prev_log_term,
                leader_term,
                position,
            );
            push_stores(start.stable, turn.actions, ActionView::Persist(mutation));
            if index > log.last_index() {
                assert(log.entries.take(index - log.base_index - 1) =~= log.entries);
            }
            assert forall|i: u64|
                log.base_index < i <= turn.node.hard_state.commit_index implies
                #[trigger] after.node.log.entry(i) == log.entry(i) by {
                let k = i - log.base_index - 1;
                assert(after.node.log.entries[k] == log.entries[k]);
            }
            if durable(start.stable, turn) {
                assert(stored_log(turn.node.snapshot, log.entries) =~= log);
            }
            if orderly(turn.node) {
                replacing_keeps_order(
                    log,
                    entries,
                    prev_log_index,
                    prev_log_term,
                    leader_term,
                    turn.node.hard_state.current_term,
                );
            }
            assert(prepares(start, turn, after));
            after
        } else {
            turn
        };
        let index = least(leader_commit, (prev_log_index + entries.len()) as u64);
        committing_prepares(start, written, index);
        prepares_compose(start, turn, written, written.committed(index));
        replying_concludes(
            start,
            turn,
            written.committed(index),
            from,
            MessageView::AppendEntriesResponse {
                term: turn.node.hard_state.current_term,
                success: true,
                match_index: (prev_log_index + entries.len()) as u64,
                conflict_index: 0,
                conflict_term: None,
                read_context,
            },
        );
    }
}

proof fn entries_received_concludes(
    start: Premise,
    turn: Turn,
    from: NodeId,
    term: u64,
    leader_id: NodeId,
    prev_log_index: u64,
    prev_log_term: u64,
    entries: Seq<LogEntryView>,
    leader_commit: u64,
    read_context: Option<Seq<u8>>,
)
    requires
        settled(turn.node),
        turn.node.log.last_index() + 1 < u64::MAX,
        leader_id == from && term >= turn.node.hard_state.current_term && follows_on(
            turn.node.log,
            prev_log_index,
            prev_log_term,
            term,
            entries,
        ) ==> prev_log_index + entries.len() < u64::MAX,
    ensures
        concludes(
            start,
            turn,
            turn.entries_received(
                from,
                term,
                leader_id,
                prev_log_index,
                prev_log_term,
                entries,
                leader_commit,
                read_context,
            ),
        ),
{
    let after = turn.entries_received(
        from,
        term,
        leader_id,
        prev_log_index,
        prev_log_term,
        entries,
        leader_commit,
        read_context,
    );
    volatile_prepares(start, turn, turn);
    prepared_concludes(start, turn, turn);
    if leader_id == from {
        if term < turn.node.hard_state.current_term {
            replying_concludes(start, turn, turn, from, after.actions.last()->message);
        } else {
            stepping_down_prepares(start, turn, term, Some(from));
            let down = turn.stepped_down(term, Some(from));
            acting_prepares(start, down, ActionView::ResetElectionTimer);
            let ready = down.act(ActionView::ResetElectionTimer);
            prepares_compose(start, turn, down, ready);
            let log = ready.node.log;
            last_index_counts(log);
            if prev_log_index >= log.base_index && log.term(prev_log_index) == Some(prev_log_term)
                && valid_entry_sequence(prev_log_index, prev_log_term, term, entries) {
                assert(prev_log_index + entries.len() < u64::MAX) by {
                    reveal(follows_on);
                }
                entries_taken_concludes(
                    start,
                    ready,
                    from,
                    prev_log_index,
                    prev_log_term,
                    term,
                    entries,
                    leader_commit,
                    read_context,
                );
                concludes_compose(start, turn, ready, after);
            } else {
                replying_concludes(start, turn, ready, from, after.actions.last()->message);
            }
        }
    }
}

proof fn append_answered_concludes(
    start: Premise,
    turn: Turn,
    from: NodeId,
    term: u64,
    success: bool,
    match_index: u64,
    conflict_index: u64,
    conflict_term: Option<u64>,
    read_context: Option<Seq<u8>>,
)
    requires
        settled(turn.node),
    ensures
        concludes(
            start,
            turn,
            turn.append_answered(
                from,
                term,
                success,
                match_index,
                conflict_index,
                conflict_term,
                read_context,
            ),
        ),
{
    volatile_prepares(start, turn, turn);
    prepared_concludes(start, turn, turn);
    if term > turn.node.hard_state.current_term {
        outdating_prepares(start, turn, term);
        prepared_concludes(start, turn, turn.outdated(term));
    } else if turn.node.role == Role::Leader && term == turn.node.hard_state.current_term {
        let active = Turn {
            node: RaftView { recent_active: turn.node.recent_active.insert(from), ..turn.node },
            ..turn
        };
        volatile_prepares(start, turn, active);
        let ready = match read_context {
            Some(context) => active.read_acknowledged(from, context),
            None => active,
        };
        if let Some(context) = read_context {
            if active.node.pending_reads.contains_key(context) {
                let index = active.node.pending_reads[context].index;
                push_stores(start.stable, active.actions, ActionView::ReadReady { context, index });
            }
        }
        assert(prepares(start, turn, ready));
        let progress = ready.node.progress[from];
        if success {
            let moved = ready.with_progress(
                from,
                Progress {
                    match_index: most(progress.match_index, match_index),
                    next_index: most(
                        progress.next_index,
                        if match_index == u64::MAX {
                            u64::MAX
                        } else {
                            (match_index + 1) as u64
                        },
                    ),
                    snapshot_offset: None,
                },
            );
            volatile_prepares(start, ready, moved);
            prepares_compose(start, turn, ready, moved);
            advancing_prepares(start, moved);
            prepares_compose(start, turn, moved, moved.advanced());
            prepared_concludes(start, turn, moved.advanced());
            appending_concludes(start, turn, moved.advanced(), from, None);
        } else {
            let hint = match conflict_term {
                Some(term) => match ready.node.log.last_index_of_term(term) {
                    Some(index) => (index + 1) as u64,
                    None => conflict_index,
                },
                None => conflict_index,
            };
            let back = if progress.next_index <= 1 {
                1
            } else {
                (progress.next_index - 1) as u64
            };
            let moved = ready.with_progress(
                from,
                Progress {
                    match_index: progress.match_index,
                    next_index: least(most(hint, 1), most(back, 1)),
                    snapshot_offset: None,
                },
            );
            volatile_prepares(start, ready, moved);
            prepares_compose(start, turn, ready, moved);
            prepared_concludes(start, turn, moved);
            appending_concludes(start, turn, moved, from, None);
        }
    }
}

proof fn proposing_concludes(start: Premise, turn: Turn, id: CommandId, command: Seq<u8>)
    requires
        settled(turn.node),
        turn.node.log.last_index() + 1 < u64::MAX,
    ensures
        concludes(start, turn, turn.proposed(id, command)),
{
    volatile_prepares(start, turn, turn);
    prepared_concludes(start, turn, turn);
    if turn.node.role != Role::Leader {
        acting_concludes(
            start,
            turn,
            turn,
            ActionView::ProposalRejected { id, leader_hint: turn.node.leader_id },
        );
    } else {
        let entry = LogEntryView {
            index: (turn.node.log.last_index() + 1) as u64,
            term: turn.node.hard_state.current_term,
            payload: crate::raft::types::EntryPayloadView::Command { id, bytes: command },
        };
        let written = Turn {
            node: RaftView { log: turn.node.log.appended(seq![entry]), ..turn.node },
            ..turn
        }.with_progress(
            turn.node.id,
            Progress {
                match_index: entry.index,
                next_index: (entry.index + 1) as u64,
                ..turn.node.progress[turn.node.id]
            },
        ).act(ActionView::Persist(StorageMutationView::Append(seq![entry])));
        appending_prepares(start, turn, written, entry);
        advancing_prepares(start, written);
        prepares_compose(start, turn, written, written.advanced());
        prepared_concludes(start, turn, written.advanced());
        broadcasting_concludes(start, turn, written.advanced(), None);
    }
}

proof fn read_asked_concludes(start: Premise, turn: Turn, context: Seq<u8>)
    requires
        settled(turn.node),
    ensures
        concludes(start, turn, turn.read_asked(context)),
{
    volatile_prepares(start, turn, turn);
    prepared_concludes(start, turn, turn);
    let after = turn.read_asked(context);
    let waiting = Turn {
        node: RaftView {
            pending_reads: turn.node.pending_reads.insert(
                context,
                PendingReadView {
                    index: turn.node.hard_state.commit_index,
                    acknowledgements: set![turn.node.id],
                },
            ),
            ..turn.node
        },
        ..turn
    };
    volatile_prepares(start, turn, waiting);
    prepared_concludes(start, turn, waiting);
    broadcasting_concludes(start, turn, waiting, Some(context));
    if after != waiting.broadcast(Some(context)) {
        acting_concludes(start, turn, turn, after.actions.last());
    }
}

proof fn snapshot_built_concludes(
    start: Premise,
    turn: Turn,
    snapshot: PersistentSnapshotView,
)
    requires
        settled(turn.node),
    ensures
        concludes(start, turn, turn.snapshot_built(snapshot)),
{
    volatile_prepares(start, turn, turn);
    prepared_concludes(start, turn, turn);
    let metadata = snapshot.metadata;
    let index = metadata.last_included_index;
    let after = turn.snapshot_built(snapshot);
    if after.actions.last() is SnapshotRejected {
        acting_concludes(start, turn, turn, after.actions.last());
    } else {
        let log = turn.node.log;
        last_index_counts(log);
        compacting_keeps_suffix(log, index, metadata.last_included_term);
        push_stores(start.stable, turn.actions, after.actions.last());
        assert(prepares(start, turn, after));
    }
}

/// Entries after a new base keep their places.
proof fn compacting_keeps_suffix(log: LogView, index: u64, term: u64)
    requires
        log.contiguous(),
        log.base_index <= index <= log.last_index(),
    ensures
        log.compacted(index, term, true).contiguous(),
        log.compacted(index, term, true).last_index() == log.last_index(),
        forall|i: u64|
            index < i ==> #[trigger] log.compacted(index, term, true).entry(i) == log.entry(i),
        forall|current: u64|
            log.term(index) == Some(term) && #[trigger] log.terms_ordered(current)
                ==> log.compacted(index, term, true).terms_ordered(current),
{
    let compacted = log.compacted(index, term, true);
    last_index_counts(log);
    assert forall|i: int| 0 <= i < compacted.entries.len() implies (
    #[trigger] compacted.entries[i]).index == compacted.base_index + 1 + i by {
        assert(compacted.entries[i] == log.entries[index - log.base_index + i]);
    }
    last_index_counts(compacted);
    assert forall|current: u64|
        log.term(index) == Some(term) && #[trigger] log.terms_ordered(
            current,
        ) implies compacted.terms_ordered(current) by {
        let skipped = index - log.base_index;
        assert forall|i: int| 0 <= i < compacted.entries.len() implies compacted.base_term <= (
        #[trigger] compacted.entries[i]).term <= current by {
            assert(compacted.entries[i] == log.entries[skipped + i]);
            if skipped > 0 {
                assert(log.entries[skipped - 1].term <= log.entries[skipped + i].term);
            }
        }
        assert forall|i: int, j: int| 0 <= i < j < compacted.entries.len() implies (
        #[trigger] compacted.entries[i]).term <= (#[trigger] compacted.entries[j]).term by {
            assert(compacted.entries[i] == log.entries[skipped + i]);
            assert(compacted.entries[j] == log.entries[skipped + j]);
        }
    }
}

proof fn installing_concludes(
    start: Premise,
    turn: Turn,
    from: NodeId,
    snapshot: PersistentSnapshotView,
)
    requires
        settled(turn.node),
        snapshot.valid(),
        snapshot.metadata.configuration == turn.node.configuration,
        snapshot.metadata.last_included_index > turn.node.applied_index,
        snapshot.metadata.last_included_index < u64::MAX,
        start.honest ==> snapshot.metadata.last_included_term
            <= turn.node.hard_state.current_term,
    ensures
        concludes(start, turn, turn.snapshot_installed(from, snapshot)),
{
    let metadata = snapshot.metadata;
    let index = metadata.last_included_index;
    let old_log = turn.node.log;
    let keep = old_log.term(index) == Some(metadata.last_included_term);
    let log = old_log.compacted(index, metadata.last_included_term, keep);
    let hard_state = HardState {
        commit_index: most(turn.node.hard_state.commit_index, index),
        ..turn.node.hard_state
    };
    last_index_counts(old_log);
    if keep {
        compacting_keeps_suffix(old_log, index, metadata.last_included_term);
    }
    let installed = Turn {
        node: RaftView {
            log,
            snapshot: Some(snapshot),
            hard_state,
            applied_index: index,
            incoming_snapshot: None,
            ..turn.node
        },
        ..turn
    }.act(
        ActionView::Persist(
            StorageMutationView::InstallSnapshot {
                snapshot,
                retained_entries: log.entries,
                hard_state,
            },
        ),
    );
    push_stores(start.stable, turn.actions, installed.actions.last());
    assert(prepares(start, turn, installed));
    replying_concludes(
        start,
        turn,
        installed,
        from,
        MessageView::InstallSnapshotResponse {
            term: hard_state.current_term,
            accepted: true,
            next_offset: metadata.byte_len,
            done: true,
            match_index: index,
        },
    );
}

proof fn chunk_checked_concludes(
    start: Premise,
    turn: Turn,
    from: NodeId,
    metadata: SnapshotMetadataView,
    offset: u64,
    data: Seq<u8>,
    done: bool,
)
    requires
        settled(turn.node),
        turn.node.completes(metadata, offset, data, done) ==> metadata.last_included_index
            < u64::MAX,
        start.honest ==> metadata.last_included_term <= turn.node.hard_state.current_term,
    ensures
        concludes(start, turn, turn.chunk_checked(from, metadata, offset, data, done)),
{
    let after = turn.chunk_checked(from, metadata, offset, data, done);
    volatile_prepares(start, turn, turn);
    volatile_prepares(start, turn, turn.with_incoming(None));
    let same_transfer = turn.node.incoming_snapshot matches Some(incoming) && incoming.metadata
        == metadata;
    let ready = if offset == 0 && !same_transfer {
        turn.with_incoming(Some(IncomingSnapshotView { metadata, data: Seq::empty() }))
    } else {
        turn
    };
    volatile_prepares(start, turn, ready);
    if metadata.configuration != turn.node.configuration || metadata.byte_len
        > crate::raft::state::MAX_SNAPSHOT_BYTES || metadata.last_included_index == 0 {
        replying_concludes(
            start,
            turn,
            turn.with_incoming(None),
            from,
            after.actions.last()->message,
        );
    } else if metadata.last_included_index <= turn.node.applied_index {
        replying_concludes(start, turn, turn, from, after.actions.last()->message);
    } else if ready.node.incoming_snapshot is None || ready.node.incoming_snapshot->0.metadata
        != metadata {
        replying_concludes(start, turn, ready, from, after.actions.last()->message);
    } else {
        let incoming = ready.node.incoming_snapshot->0;
        let whole = incoming.data + data;
        let longer = ready.with_incoming(Some(IncomingSnapshotView { metadata, data: whole }));
        let dropped = ready.with_incoming(None);
        volatile_prepares(start, turn, longer);
        volatile_prepares(start, turn, dropped);
        if offset < incoming.data.len() || offset != incoming.data.len() || whole.len()
            > metadata.byte_len {
            replying_concludes(start, turn, ready, from, after.actions.last()->message);
        } else if !done {
            replying_concludes(start, turn, longer, from, after.actions.last()->message);
        } else if whole.len() != metadata.byte_len || crate::digest::sha256(whole)
            != metadata.sha256 {
            replying_concludes(start, turn, dropped, from, after.actions.last()->message);
        } else {
            let snapshot = PersistentSnapshotView { metadata, data: whole };
            installing_concludes(start, ready, from, snapshot);
            concludes_compose(start, turn, ready, after);
        }
    }
}

proof fn chunk_received_concludes(
    start: Premise,
    turn: Turn,
    from: NodeId,
    term: u64,
    leader_id: NodeId,
    metadata: SnapshotMetadataView,
    offset: u64,
    data: Seq<u8>,
    done: bool,
)
    requires
        settled(turn.node),
        leader_id == from && term >= turn.node.hard_state.current_term && turn.node.completes(
            metadata,
            offset,
            data,
            done,
        ) ==> metadata.last_included_index < u64::MAX,
        start.honest ==> metadata.last_included_term <= term,
    ensures
        concludes(
            start,
            turn,
            turn.chunk_received(from, term, leader_id, metadata, offset, data, done),
        ),
{
    let after = turn.chunk_received(from, term, leader_id, metadata, offset, data, done);
    volatile_prepares(start, turn, turn);
    prepared_concludes(start, turn, turn);
    if leader_id == from {
        if term < turn.node.hard_state.current_term {
            replying_concludes(start, turn, turn, from, after.actions.last()->message);
        } else {
            stepping_down_prepares(start, turn, term, Some(from));
            let down = turn.stepped_down(term, Some(from));
            acting_prepares(start, down, ActionView::ResetElectionTimer);
            let ready = down.act(ActionView::ResetElectionTimer);
            prepares_compose(start, turn, down, ready);
            chunk_checked_concludes(start, ready, from, metadata, offset, data, done);
            concludes_compose(start, turn, ready, after);
        }
    }
}

proof fn chunk_answered_concludes(
    start: Premise,
    turn: Turn,
    from: NodeId,
    term: u64,
    accepted: bool,
    next_offset: u64,
    done: bool,
    match_index: u64,
)
    requires
        settled(turn.node),
    ensures
        concludes(
            start,
            turn,
            turn.chunk_answered(from, term, accepted, next_offset, done, match_index),
        ),
{
    let after = turn.chunk_answered(from, term, accepted, next_offset, done, match_index);
    volatile_prepares(start, turn, turn);
    prepared_concludes(start, turn, turn);
    if term > turn.node.hard_state.current_term {
        outdating_prepares(start, turn, term);
        prepared_concludes(start, turn, turn.outdated(term));
    } else if turn.node.role == Role::Leader && term == turn.node.hard_state.current_term {
        let active = Turn {
            node: RaftView { recent_active: turn.node.recent_active.insert(from), ..turn.node },
            ..turn
        };
        volatile_prepares(start, turn, active);
        prepared_concludes(start, turn, active);
        if active.node.progress.contains_key(from) {
            let progress = active.node.progress[from];
            if done && accepted {
                let moved = active.with_progress(
                    from,
                    Progress {
                        match_index: most(progress.match_index, match_index),
                        next_index: most(progress.next_index, (match_index + 1) as u64),
                        snapshot_offset: None,
                    },
                );
                volatile_prepares(start, turn, moved);
                advancing_prepares(start, moved);
                prepares_compose(start, turn, moved, moved.advanced());
                prepared_concludes(start, turn, moved.advanced());
                appending_concludes(start, turn, moved.advanced(), from, None);
            } else {
                let moved = active.with_progress(
                    from,
                    Progress {
                        snapshot_offset: Some(
                            if accepted {
                                next_offset
                            } else {
                                0
                            },
                        ),
                        ..progress
                    },
                );
                volatile_prepares(start, turn, moved);
                prepared_concludes(start, turn, moved);
                appending_concludes(start, turn, moved, from, None);
            }
        }
    }
}

proof fn receiving_concludes(
    start: Premise,
    turn: Turn,
    from: NodeId,
    message: MessageView,
)
    requires
        settled(turn.node),
        turn.node.has_room(InputView::Message { from, message }),
        start.honest ==> honest(InputView::Message { from, message }),
    ensures
        concludes(start, turn, turn.received(from, message)),
{
    reveal(Turn::received);
    volatile_prepares(start, turn, turn);
    prepared_concludes(start, turn, turn);
    if turn.node.configuration.voters().contains(from) && from != turn.node.id {
        match message {
            MessageView::PreVoteRequest { .. } => {
                let after = turn.received(from, message);
                if after != turn {
                    replying_concludes(start, turn, turn, from, after.actions.last()->message);
                }
            },
            MessageView::PreVoteResponse { responder_term, prospective_term, granted } => {
                if responder_term > turn.node.hard_state.current_term {
                    outdating_prepares(start, turn, responder_term);
                    prepared_concludes(start, turn, turn.outdated(responder_term));
                } else if turn.node.role == Role::PreCandidate && turn.node.campaign_term == Some(
                    prospective_term,
                ) && granted {
                    let counted = Turn {
                        node: RaftView { votes: turn.node.votes.insert(from), ..turn.node },
                        ..turn
                    };
                    volatile_prepares(start, turn, counted);
                    prepared_concludes(start, turn, counted);
                    standing_concludes(start, counted, prospective_term);
                    concludes_compose(start, turn, counted, counted.standing(prospective_term));
                }
            },
            MessageView::RequestVote { term, candidate_id, last_log_index, last_log_term } => {
                vote_asked_concludes(
                    start,
                    turn,
                    from,
                    term,
                    candidate_id,
                    last_log_index,
                    last_log_term,
                );
            },
            MessageView::RequestVoteResponse { term, granted } => {
                if term > turn.node.hard_state.current_term {
                    outdating_prepares(start, turn, term);
                    prepared_concludes(start, turn, turn.outdated(term));
                } else {
                    let counted = Turn {
                        node: RaftView { votes: turn.node.votes.insert(from), ..turn.node },
                        ..turn
                    };
                    volatile_prepares(start, turn, counted);
                    prepared_concludes(start, turn, counted);
                    leading_concludes(start, counted);
                    concludes_compose(start, turn, counted, counted.leading());
                }
            },
            MessageView::AppendEntries {
                term,
                leader_id,
                prev_log_index,
                prev_log_term,
                entries,
                leader_commit,
                read_context,
            } => {
                reveal(RaftView::entries_fit);
                entries_received_concludes(
                    start,
                    turn,
                    from,
                    term,
                    leader_id,
                    prev_log_index,
                    prev_log_term,
                    entries,
                    leader_commit,
                    read_context,
                );
            },
            MessageView::AppendEntriesResponse {
                term,
                success,
                match_index,
                conflict_index,
                conflict_term,
                read_context,
            } => {
                append_answered_concludes(
                    start,
                    turn,
                    from,
                    term,
                    success,
                    match_index,
                    conflict_index,
                    conflict_term,
                    read_context,
                );
            },
            MessageView::InstallSnapshot { term, leader_id, metadata, offset, data, done } => {
                reveal(RaftView::snapshot_fits);
                chunk_received_concludes(
                    start,
                    turn,
                    from,
                    term,
                    leader_id,
                    metadata,
                    offset,
                    data,
                    done,
                );
            },
            MessageView::InstallSnapshotResponse {
                term,
                accepted,
                next_offset,
                done,
                match_index,
            } => {
                chunk_answered_concludes(
                    start,
                    turn,
                    from,
                    term,
                    accepted,
                    next_offset,
                    done,
                    match_index,
                );
            },
        }
    }
}

proof fn handling_concludes(start: Premise, turn: Turn, input: InputView)
    requires
        settled(turn.node),
        turn.node.has_room(input),
        start.honest ==> honest(input),
    ensures
        concludes(start, turn, turn.handled(input)),
{
    match input {
        InputView::Tick(tick) => {
            ticking_concludes(start, turn, tick);
        },
        InputView::Message { from, message } => {
            receiving_concludes(start, turn, from, message);
        },
        InputView::Propose { id, command } => {
            proposing_concludes(start, turn, id, command);
        },
        InputView::ReadIndex { context } => {
            read_asked_concludes(start, turn, context);
        },
        InputView::SnapshotBuilt(snapshot) => {
            snapshot_built_concludes(start, turn, snapshot);
        },
    }
}

proof fn step_concludes(node: RaftView, input: InputView)
    requires
        node.well_formed(),
        node.has_room(input),
    ensures
        concludes(
            (Premise { stable: node.stable(), honest: honest(input) }),
            (Turn { node, actions: Seq::empty() }),
            node.stepped(input),
        ),
{
    let start = Premise { stable: node.stable(), honest: honest(input) };
    let first = Turn { node, actions: Seq::empty() };
    applying_settles(start, first);
    applying_keeps_room(first, input);
    handling_concludes(start, first.applied(), input);
    let after = node.stepped(input);
    assert forall|index: u64|
        after.node.log.base_index < index <= node.hard_state.commit_index implies
        #[trigger] after.node.log.entry(index) == node.log.entry(index) by {
        assert(after.node.log.entry(index) == first.applied().node.log.entry(index));
    }
}

/// A step keeps the invariant, and afterwards everything that is known to be
/// committed has been applied.
pub proof fn step_keeps_invariant(node: RaftView, input: InputView)
    requires
        node.well_formed(),
        node.has_room(input),
    ensures
        node.stepped(input).node.well_formed(),
        node.stepped(input).node.applied_index
            == node.stepped(input).node.hard_state.commit_index,
{
    step_concludes(node, input);
}

/// A step undoes nothing: the term, the commit index and the applied index do
/// not go down, a vote stays in its term, and a committed entry stays as it is
/// until a snapshot covers it.
pub proof fn step_undoes_nothing(node: RaftView, input: InputView)
    requires
        node.well_formed(),
        node.has_room(input),
    ensures
        succeeds(node, node.stepped(input).node),
{
    step_concludes(node, input);
}

/// Within a step everything is stored before the first message is sent.
pub proof fn step_persists_before_it_sends(node: RaftView, input: InputView)
    requires
        node.well_formed(),
        node.has_room(input),
    ensures
        persists_first(node.stepped(input).actions),
{
    step_concludes(node, input);
}

/// Whoever carries out the actions of a step in order has stored exactly what
/// the node holds.
pub proof fn step_stores_what_it_holds(node: RaftView, input: InputView)
    requires
        node.well_formed(),
        node.has_room(input),
    ensures
        all_stored(node.stable(), node.stepped(input).actions) == node.stepped(
            input,
        ).node.stable(),
{
    step_concludes(node, input);
}

/// An honest input keeps the terms of the log in order.
pub proof fn step_keeps_terms_in_order(node: RaftView, input: InputView)
    requires
        node.well_formed(),
        node.has_room(input),
        honest(input),
        orderly(node),
    ensures
        orderly(node.stepped(input).node),
{
    step_concludes(node, input);
}

/// A leader raises its commit index only to an entry of its own term that a
/// quorum holds.
pub proof fn leader_commits_with_a_quorum(turn: Turn)
    requires
        turn.node.well_formed(),
        turn.advanced().node.hard_state.commit_index != turn.node.hard_state.commit_index,
    ensures
        turn.node.role == Role::Leader,
        ({
            let index = turn.advanced().node.hard_state.commit_index;
            &&& turn.node.log.term(index) == Some(turn.node.hard_state.current_term)
            &&& turn.node.configuration.quorum(
                turn.node.configuration.reached(turn.node.matched(), index),
            )
        }),
{
    quorum_index_is_reached(turn.node.configuration, turn.node.matched());
}

} // verus!
