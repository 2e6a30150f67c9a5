//! What holds of the logs of a whole cluster.

use vstd::prelude::*;
use crate::raft::log::{LogView, last_index_counts, stored_log};
use crate::raft::matching::{
    accounted, agree_through, brings, brings_run_of, comes_from, logs_stay_matching, matching,
    same_at, step_accounts_for_log, writes_new,
};
use crate::raft::safety::{
    Sent, World, leader_is_the_only_one, turn_of, turns_change_roles, turns_undo_nothing,
};
use crate::raft::sending::{sound_message, step_sends_what_it_holds};
use crate::raft::state::RaftView;
use crate::raft::types::{ActionView, InputView, MessageView, Role};
use crate::types::NodeId;

verus! {

impl World {
    /// The leader of a term has written an entry at an index, or the index is the
    /// start.
    pub open spec fn traced(self, index: u64, term: u64) -> bool {
        index > 0 ==> self.written.contains_key(term) && index <= self.written[term]
    }

    /// Everything in a log was written by a leader.
    pub open spec fn log_traced(self, log: LogView) -> bool {
        &&& log.contiguous()
        &&& forall|index: u64| #[trigger]
            log.term(index) is Some ==> self.traced(index, log.term(index)->0)
    }

    /// A log is that of a node, or was that of the sender of a message.
    pub open spec fn known(self, log: LogView) -> bool {
        ||| exists|id: NodeId| #[trigger] self.nodes.contains_key(id) && self.nodes[id].log == log
        ||| exists|sent: Sent| #[trigger] self.sent.contains(sent) && sent.log == log
    }

    /// What a message carries is in the log of its sender.
    pub open spec fn message_traced(self, sent: Sent) -> bool {
        sound_message(sent.log, sent.message)
    }

    /// What a node is taking in was written by a leader, and a leader has written
    /// as far as its log reaches.
    pub open spec fn node_traced(self, id: NodeId) -> bool {
        let node = self.nodes[id];
        let term = node.hard_state.current_term;
        &&& node.role == Role::Leader ==> self.written.contains_key(term) && self.written[term]
            == node.log.last_index()
        &&& node.incoming_snapshot matches Some(incoming) ==> self.traced(
            incoming.metadata.last_included_index,
            incoming.metadata.last_included_term,
        )
    }

    /// All logs of the cluster match, and everything in them was written by the
    /// leader of its term.
    pub open spec fn logs_sound(self) -> bool {
        &&& forall|log: LogView| #[trigger] self.known(log) ==> self.log_traced(log)
        &&& forall|a: LogView, b: LogView| #[trigger]
            self.known(a) && #[trigger] self.known(b) ==> matching(a, b)
        &&& forall|sent: Sent| #[trigger] self.sent.contains(sent) ==> self.message_traced(sent)
        &&& forall|id: NodeId| #[trigger] self.nodes.contains_key(id) ==> self.node_traced(id)
        &&& forall|term: u64| #[trigger]
            self.written.contains_key(term) ==> self.leaders.contains_key(term)
    }

    /// A cluster that has just been made: nothing was sent, voted or written.
    pub open spec fn begins(self) -> bool {
        &&& self.configuration.valid()
        &&& self.sent == Set::<Sent>::empty()
        &&& self.votes == Map::<(NodeId, u64), NodeId>::empty()
        &&& self.leaders == Map::<u64, NodeId>::empty()
        &&& self.written == Map::<u64, u64>::empty()
        &&& forall|id: NodeId| #[trigger] self.nodes.contains_key(id) ==> {
            let node = self.nodes[id];
            &&& node.id == id
            &&& node.configuration == self.configuration
            &&& node.well_formed()
            &&& node.role == Role::Follower
            &&& node.hard_state.voted_for is None
            &&& node.incoming_snapshot is None
            &&& node.log == (LogView { base_index: 0, base_term: 0, entries: Seq::empty() })
        }
    }
}

proof fn turns_account_for_logs(node: RaftView, input: InputView)
    requires
        node.well_formed(),
        node.has_room(input),
    ensures
        accounted(node, input, turn_of(node, input).node),
{
    reveal(turn_of);
    step_accounts_for_log(node, input);
}

proof fn turns_send_what_they_hold(node: RaftView, input: InputView, i: int)
    requires
        node.well_formed(),
        node.has_room(input),
        0 <= i < turn_of(node, input).actions.len(),
    ensures
        turn_of(node, input).actions[i] matches ActionView::Send { message, .. } ==> sound_message(
            turn_of(node, input).node.log,
            message,
        ),
{
    reveal(turn_of);
    step_sends_what_it_holds(node, input, i);
}

proof fn turns_keep_matching(node: RaftView, input: InputView, sender: LogView, other: LogView)
    requires
        node.well_formed(),
        node.has_room(input),
        sender.contiguous(),
        other.contiguous(),
        matching(node.log, sender),
        matching(node.log, other),
        matching(sender, other),
        brings_run_of(input, sender),
        writes_new(node, turn_of(node, input).node, other),
    ensures
        matching(turn_of(node, input).node.log, other),
{
    reveal(turn_of);
    logs_stay_matching(node, input, sender, other);
}

proof fn matching_is_symmetric(a: LogView, b: LogView)
    requires
        matching(a, b),
    ensures
        matching(b, a),
{
    assert forall|index: u64|
        b.base_index <= index && a.base_index <= index && index <= b.last_index() && index
            <= a.last_index() && b.term(index) == a.term(index) implies #[trigger] agree_through(
        b,
        a,
        index,
    ) by {
        assert(agree_through(a, b, index));
        assert forall|at: u64| b.base_index <= at && a.base_index <= at && at
            <= index implies #[trigger] same_at(b, a, at) by {
            assert(same_at(a, b, at));
        }
    }
}

proof fn matching_is_reflexive(a: LogView)
    ensures
        matching(a, a),
{
}

/// What was written stays written, and a node that leads has written as far as its
/// log reaches.
proof fn writing_goes_on(world: World, id: NodeId, input: InputView)
    requires
        world.elections_sound(),
        world.logs_sound(),
        world.can_step(id, input),
    ensures
        forall|index: u64, term: u64| #[trigger]
            world.traced(index, term) ==> world.stepped(id, input).traced(index, term),
        ({
            let after = turn_of(world.nodes[id], input).node;
            let term = after.hard_state.current_term;
            after.role == Role::Leader && world.written.contains_key(term)
                ==> world.written[term] == world.nodes[id].log.last_index()
        }),
{
    let before = world.nodes[id];
    let after = turn_of(before, input).node;
    let term = after.hard_state.current_term;
    assert(world.node_sound(id));
    assert(world.node_traced(id));
    turns_change_roles(before, input);
    turns_account_for_logs(before, input);
    if after.role == Role::Leader {
        leader_is_the_only_one(world, id, input);
        if world.written.contains_key(term) {
            assert(world.leaders.contains_key(term));
            assert(before.role == Role::Leader);
        }
    }
}

/// The log of the node that has stepped was written by leaders.
proof fn log_stays_traced(world: World, id: NodeId, input: InputView)
    requires
        world.elections_sound(),
        world.logs_sound(),
        world.can_step(id, input),
    ensures
        world.stepped(id, input).log_traced(turn_of(world.nodes[id], input).node.log),
{
    let before = world.nodes[id];
    let after = turn_of(before, input).node;
    let next = world.stepped(id, input);
    assert(world.node_sound(id));
    assert(world.known(before.log));
    turns_undo_nothing(before, input);
    turns_account_for_logs(before, input);
    writing_goes_on(world, id, input);
    assert forall|index: u64| #[trigger] after.log.term(index) is Some implies next.traced(
        index,
        after.log.term(index)->0,
    ) by {
        let term = after.log.term(index)->0;
        assert(comes_from(before, input, after, index));
        if before.log.term(index) == Some(term) {
            assert(world.traced(index, term));
        } else if brings(input, index, term) {
            let from = input->from;
            let message = input->message;
            let log = choose|log: LogView| #[trigger]
                world.sent.contains(Sent { from, to: id, message, log });
            let sent = Sent { from, to: id, message, log };
            assert(world.sent.contains(sent));
            assert(world.message_traced(sent));
            assert(world.known(log));
            assert(world.log_traced(log));
            assert(log.term(index) == Some(term)) by {
                match message {
                    MessageView::AppendEntries { prev_log_index, entries, .. } => {
                        let i = choose|i: int|
                            0 <= i < entries.len() && (#[trigger] entries[i]).index == index
                                && entries[i].term == term;
                        assert(log.entry((prev_log_index + 1 + i) as u64) == Some(entries[i]));
                        last_index_counts(log);
                    },
                    _ => {},
                }
            }
            assert(world.traced(index, term));
        }
    }
}

/// The log of the node that has stepped matches every other.
proof fn log_stays_matching(world: World, id: NodeId, input: InputView, other: LogView)
    requires
        world.elections_sound(),
        world.logs_sound(),
        world.can_step(id, input),
        world.known(other),
    ensures
        matching(turn_of(world.nodes[id], input).node.log, other),
{
    let before = world.nodes[id];
    let after = turn_of(before, input).node;
    assert(world.node_sound(id));
    assert(world.known(before.log));
    turns_undo_nothing(before, input);
    writing_goes_on(world, id, input);
    assert(writes_new(before, after, other)) by {
        if other.term(after.log.last_index()) == Some(after.hard_state.current_term) {
            assert(world.log_traced(other));
            assert(world.traced(after.log.last_index(), after.hard_state.current_term));
        }
    }
    match input {
        InputView::Message { from, message } => {
            let log = choose|log: LogView| #[trigger]
                world.sent.contains(Sent { from, to: id, message, log });
            let sent = Sent { from, to: id, message, log };
            assert(world.sent.contains(sent));
            assert(world.message_traced(sent));
            assert(world.known(log));
            turns_keep_matching(before, input, log, other);
        },
        _ => {
            matching_is_reflexive(before.log);
            turns_keep_matching(before, input, before.log, other);
        },
    }
}

/// All logs of a cluster stay matching, whatever a node takes.
pub proof fn steps_keep_logs_sound(world: World, id: NodeId, input: InputView)
    requires
        world.elections_sound(),
        world.logs_sound(),
        world.can_step(id, input),
    ensures
        world.stepped(id, input).logs_sound(),
{
    let before = world.nodes[id];
    let turn = turn_of(before, input);
    let after = turn.node;
    let term = after.hard_state.current_term;
    let next = world.stepped(id, input);
    assert(world.node_sound(id));
    assert(world.node_traced(id));
    turns_undo_nothing(before, input);
    turns_account_for_logs(before, input);
    turns_change_roles(before, input);
    writing_goes_on(world, id, input);
    log_stays_traced(world, id, input);
    assert forall|log: LogView| #[trigger] next.known(log) implies log == after.log || world.known(
        log,
    ) by {
        if exists|node: NodeId| #[trigger] next.nodes.contains_key(node) && next.nodes[node].log
            == log {
            let node = choose|node: NodeId| #[trigger]
                next.nodes.contains_key(node) && next.nodes[node].log == log;
            if node != id {
                assert(world.nodes.contains_key(node));
            }
        } else {
            let sent = choose|sent: Sent| #[trigger] next.sent.contains(sent) && sent.log == log;
            if world.sent.contains(sent) {
                assert(world.known(log));
            }
        }
    }
    assert forall|log: LogView| #[trigger] next.known(log) implies next.log_traced(log) by {
        if log != after.log {
            assert(world.log_traced(log));
            assert forall|index: u64| #[trigger] log.term(index) is Some implies next.traced(
                index,
                log.term(index)->0,
            ) by {
                assert(world.traced(index, log.term(index)->0));
            }
        }
    }
    assert forall|a: LogView, b: LogView| #[trigger]
        next.known(a) && #[trigger] next.known(b) implies matching(a, b) by {
        matching_is_reflexive(after.log);
        if a == after.log {
            if b != after.log {
                log_stays_matching(world, id, input, b);
            }
        } else if b == after.log {
            log_stays_matching(world, id, input, a);
            matching_is_symmetric(b, a);
        }
    }
    assert forall|sent: Sent| #[trigger] next.sent.contains(sent) implies next.message_traced(
        sent,
    ) by {
        if world.sent.contains(sent) {
            assert(world.message_traced(sent));
        } else {
            let action = ActionView::Send { to: sent.to, message: sent.message };
            let i = choose|i: int| 0 <= i < turn.actions.len() && turn.actions[i] == action;
            turns_send_what_they_hold(before, input, i);
        }
    }
    assert forall|node: NodeId| #[trigger] next.nodes.contains_key(node) implies next.node_traced(
        node,
    ) by {
        if node == id {
            snapshots_stay_traced(world, id, input);
        } else {
            assert(world.node_sound(node));
            assert(world.node_traced(node));
            let peer = world.nodes[node];
            if peer.role == Role::Leader && after.role == Role::Leader
                && peer.hard_state.current_term == term {
                leader_is_the_only_one(world, id, input);
            }
            if let Some(incoming) = peer.incoming_snapshot {
                assert(world.traced(
                    incoming.metadata.last_included_index,
                    incoming.metadata.last_included_term,
                ));
            }
        }
    }
}

/// A snapshot that a node takes in ends where a leader has written.
proof fn snapshots_stay_traced(world: World, id: NodeId, input: InputView)
    requires
        world.elections_sound(),
        world.logs_sound(),
        world.can_step(id, input),
    ensures
        turn_of(world.nodes[id], input).node.incoming_snapshot matches Some(incoming)
            ==> world.stepped(id, input).traced(
            incoming.metadata.last_included_index,
            incoming.metadata.last_included_term,
        ),
{
    let before = world.nodes[id];
    let after = turn_of(before, input).node;
    assert(world.node_sound(id));
    assert(world.node_traced(id));
    turns_account_for_logs(before, input);
    writing_goes_on(world, id, input);
    if let Some(incoming) = after.incoming_snapshot {
        let metadata = incoming.metadata;
        if !(before.incoming_snapshot matches Some(had) && had.metadata == metadata) {
            let from = input->from;
            let message = input->message;
            let log = choose|log: LogView| #[trigger]
                world.sent.contains(Sent { from, to: id, message, log });
            let sent = Sent { from, to: id, message, log };
            assert(world.sent.contains(sent));
            assert(world.message_traced(sent));
            assert(world.known(log));
            assert(world.log_traced(log));
            assert(log.term(metadata.last_included_index) == Some(metadata.last_included_term));
        }
        assert(world.traced(metadata.last_included_index, metadata.last_included_term));
    }
}

/// All logs of a cluster stay matching when a node starts again.
pub proof fn restarts_keep_logs_sound(world: World, id: NodeId)
    requires
        world.elections_sound(),
        world.logs_sound(),
        world.nodes.contains_key(id),
    ensures
        world.restarted(id).logs_sound(),
{
    let before = world.nodes[id];
    let next = world.restarted(id);
    assert(world.node_sound(id));
    assert(stored_log(before.snapshot, before.log.entries) =~= before.log);
    assert forall|log: LogView| #[trigger] next.known(log) implies world.known(log) by {
        if exists|node: NodeId| #[trigger] next.nodes.contains_key(node) && next.nodes[node].log
            == log {
            let node = choose|node: NodeId| #[trigger]
                next.nodes.contains_key(node) && next.nodes[node].log == log;
            assert(world.nodes.contains_key(node));
            assert(world.nodes[node].log == log);
        } else {
            let sent = choose|sent: Sent| #[trigger] next.sent.contains(sent) && sent.log == log;
            assert(world.sent.contains(sent));
        }
    }
    assert forall|log: LogView| #[trigger] next.known(log) implies next.log_traced(log) by {
        assert(world.log_traced(log));
        assert(forall|index: u64, term: u64| #[trigger]
            next.traced(index, term) == world.traced(index, term));
    }
    assert forall|sent: Sent| #[trigger] next.sent.contains(sent) implies next.message_traced(
        sent,
    ) by {
        assert(world.message_traced(sent));
    }
    assert forall|node: NodeId| #[trigger] next.nodes.contains_key(node) implies next.node_traced(
        node,
    ) by {
        assert(world.node_traced(node));
        assert(forall|index: u64, term: u64| #[trigger]
            next.traced(index, term) == world.traced(index, term));
    }
}

/// A cluster that has just been made is sound.
pub proof fn clusters_begin_sound(world: World)
    requires
        world.begins(),
    ensures
        world.elections_sound(),
        world.logs_sound(),
{
    let start = LogView { base_index: 0, base_term: 0, entries: Seq::empty() };
    assert forall|log: LogView| #[trigger] world.known(log) implies log == start by {}
    matching_is_reflexive(start);
    assert(world.log_traced(start));
    assert forall|id: NodeId| #[trigger] world.nodes.contains_key(id) implies world.node_sound(
        id,
    ) by {}
}

/// Wherever the logs of two nodes of a cluster have an entry of the same term at
/// the same index, the entries are the same there and at every index before it
/// that both logs hold.
pub proof fn logs_of_a_cluster_match(
    world: World,
    first: NodeId,
    second: NodeId,
    index: u64,
    at: u64,
)
    requires
        world.logs_sound(),
        world.nodes.contains_key(first),
        world.nodes.contains_key(second),
        world.nodes[first].log.entry(index) is Some,
        world.nodes[second].log.entry(index) is Some,
        world.nodes[first].log.entry(index)->0.term == world.nodes[second].log.entry(index)->0.term,
        at <= index,
        world.nodes[first].log.entry(at) is Some,
        world.nodes[second].log.entry(at) is Some,
    ensures
        world.nodes[first].log.entry(at) == world.nodes[second].log.entry(at),
{
    let a = world.nodes[first].log;
    let b = world.nodes[second].log;
    assert(world.known(a));
    assert(world.known(b));
    assert(world.log_traced(a));
    assert(world.log_traced(b));
    last_index_counts(a);
    last_index_counts(b);
    assert(agree_through(a, b, index));
    assert(same_at(a, b, at));
}

} // verus!
