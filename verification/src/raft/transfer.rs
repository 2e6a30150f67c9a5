//! A snapshot that is sent in chunks arrives.

use vstd::prelude::*;
use crate::digest::sha256;
use crate::raft::safety::turn_of;
use crate::raft::state::{
    IncomingSnapshotView, MAX_SNAPSHOT_BYTES, Progress, RaftView, SNAPSHOT_CHUNK_BYTES, Turn,
};
use crate::raft::types::{
    ActionView, InputView, MessageView, PersistentSnapshotView, Role, StorageMutationView,
};
use crate::types::NodeId;

verus! {

/// The chunk of a snapshot that begins at an offset, as a leader sends it. The last chunk
/// says that it is the last.
pub open spec fn chunk_from(
    leader: RaftView,
    snapshot: PersistentSnapshotView,
    offset: int,
) -> MessageView {
    let length = snapshot.data.len() as int;
    let end = if offset + SNAPSHOT_CHUNK_BYTES < length {
        offset + SNAPSHOT_CHUNK_BYTES
    } else {
        length
    };
    MessageView::InstallSnapshot {
        term: leader.hard_state.current_term,
        leader_id: leader.id,
        metadata: snapshot.metadata,
        offset: offset as u64,
        data: snapshot.data.subrange(offset, end),
        done: end == length,
    }
}

/// A leader has a snapshot to send to a peer, whose next entry is no longer in the log.
pub open spec fn sends_snapshot(leader: RaftView, peer: NodeId) -> bool {
    &&& leader.role == Role::Leader
    &&& leader.configuration.voters().contains(peer)
    &&& peer != leader.id
    &&& leader.snapshot is Some
    &&& leader.progress.contains_key(peer)
    &&& leader.progress[peer].next_index <= leader.log.base_index
}

/// The answer of a peer to a chunk of a leader's snapshot.
pub open spec fn chunk_answer(
    leader: RaftView,
    peer: NodeId,
    accepted: bool,
    next_offset: u64,
    done: bool,
    match_index: u64,
) -> InputView {
    InputView::Message {
        from: peer,
        message: MessageView::InstallSnapshotResponse {
            term: leader.hard_state.current_term,
            accepted,
            next_offset,
            done,
            match_index,
        },
    }
}

proof fn answers_are_received(leader: RaftView, peer: NodeId, message: MessageView)
    requires
        leader.configuration.voters().contains(peer),
        peer != leader.id,
        message is InstallSnapshotResponse,
    ensures
        message matches MessageView::InstallSnapshotResponse {
            term,
            accepted,
            next_offset,
            done,
            match_index,
        } && turn_of(leader, InputView::Message { from: peer, message }) == (Turn {
            node: leader,
            actions: Seq::empty(),
        }).applied().chunk_answered(peer, term, accepted, next_offset, done, match_index),
{
    reveal(Turn::received);
    reveal(turn_of);
}

proof fn chunks_are_received(follower: RaftView, from: NodeId, message: MessageView)
    requires
        follower.configuration.voters().contains(from),
        from != follower.id,
        message is InstallSnapshot,
    ensures
        message matches MessageView::InstallSnapshot {
            term,
            leader_id,
            metadata,
            offset,
            data,
            done,
        } && turn_of(follower, InputView::Message { from, message }) == (Turn {
            node: follower,
            actions: Seq::empty(),
        }).applied().chunk_received(from, term, leader_id, metadata, offset, data, done),
{
    reveal(Turn::received);
    reveal(turn_of);
}

proof fn following_up(
    turn: Turn,
    peer: NodeId,
    accepted: bool,
    next_offset: u64,
    match_index: u64,
    offset: int,
)
    requires
        turn.node.role == Role::Leader,
        turn.node.snapshot is Some,
        turn.node.progress.contains_key(peer),
        turn.node.progress[peer].next_index <= turn.node.log.base_index,
        offset == if !accepted {
            0
        } else if next_offset < turn.node.snapshot->0.data.len() {
            next_offset as int
        } else {
            turn.node.snapshot->0.data.len() as int
        },
    ensures
        turn.chunk_answered(
            peer,
            turn.node.hard_state.current_term,
            accepted,
            next_offset,
            false,
            match_index,
        ) == (Turn {
            node: RaftView {
                recent_active: turn.node.recent_active.insert(peer),
                progress: turn.node.progress.insert(
                    peer,
                    Progress {
                        snapshot_offset: Some(
                            if accepted {
                                next_offset
                            } else {
                                0
                            },
                        ),
                        ..turn.node.progress[peer]
                    },
                ),
                ..turn.node
            },
            actions: turn.actions.push(
                ActionView::Send {
                    to: peer,
                    message: chunk_from(turn.node, turn.node.snapshot->0, offset),
                },
            ),
        }),
{
}

proof fn answered_chunks_are_followed_up_in_turn(
    leader: RaftView,
    peer: NodeId,
    accepted: bool,
    next_offset: u64,
    match_index: u64,
)
    requires
        sends_snapshot(leader, peer),
    ensures
        ({
            let snapshot = leader.snapshot->0;
            let after = turn_of(
                leader,
                chunk_answer(leader, peer, accepted, next_offset, false, match_index),
            );
            let offset: int = if !accepted {
                0
            } else if next_offset < snapshot.data.len() {
                next_offset as int
            } else {
                snapshot.data.len() as int
            };
            &&& after.actions.len() > 0
            &&& after.actions.last() == (ActionView::Send {
                to: peer,
                message: chunk_from(leader, snapshot, offset),
            })
            &&& after.node.progress == leader.progress.insert(
                peer,
                Progress {
                    snapshot_offset: Some(
                        if accepted {
                            next_offset
                        } else {
                            0
                        },
                    ),
                    ..leader.progress[peer]
                },
            )
            &&& after.node.log == leader.log
            &&& after.node.snapshot == leader.snapshot
            &&& after.node.hard_state == leader.hard_state
            &&& after.node.role == Role::Leader
            &&& after.node.configuration == leader.configuration
            &&& after.node.id == leader.id
            &&& after.node.campaign_term == leader.campaign_term
            &&& after.node.applied_index == leader.hard_state.commit_index
        }),
{
    let input = chunk_answer(leader, peer, accepted, next_offset, false, match_index);
    answers_are_received(leader, peer, input->message);
    let snapshot = leader.snapshot->0;
    let offset: int = if !accepted {
        0
    } else if next_offset < snapshot.data.len() {
        next_offset as int
    } else {
        snapshot.data.len() as int
    };
    let turn = (Turn { node: leader, actions: Seq::empty() }).applied();
    following_up(turn, peer, accepted, next_offset, match_index, offset);
    assert(chunk_from(turn.node, snapshot, offset) == chunk_from(leader, snapshot, offset));
}

/// A leader that hears that a peer has taken a chunk, and not yet all of them, sends the
/// chunk that begins where the peer is; where the peer has refused a chunk it begins again.
/// It remembers how far the peer is and nothing else changes about the transfer.
pub proof fn answered_chunks_are_followed_up(
    leader: RaftView,
    peer: NodeId,
    accepted: bool,
    next_offset: u64,
    match_index: u64,
)
    requires
        sends_snapshot(leader, peer),
    ensures
        ({
            let snapshot = leader.snapshot->0;
            let after = leader.stepped(
                chunk_answer(leader, peer, accepted, next_offset, false, match_index),
            );
            let offset: int = if !accepted {
                0
            } else if next_offset < snapshot.data.len() {
                next_offset as int
            } else {
                snapshot.data.len() as int
            };
            &&& after.actions.len() > 0
            &&& after.actions.last() == (ActionView::Send {
                to: peer,
                message: chunk_from(leader, snapshot, offset),
            })
            &&& after.node.progress == leader.progress.insert(
                peer,
                Progress {
                    snapshot_offset: Some(
                        if accepted {
                            next_offset
                        } else {
                            0
                        },
                    ),
                    ..leader.progress[peer]
                },
            )
            &&& after.node.log == leader.log
            &&& after.node.snapshot == leader.snapshot
            &&& after.node.hard_state == leader.hard_state
            &&& after.node.role == Role::Leader
            &&& after.node.configuration == leader.configuration
            &&& after.node.id == leader.id
            &&& after.node.campaign_term == leader.campaign_term
            &&& after.node.applied_index == leader.hard_state.commit_index
        }),
{
    reveal(turn_of);
    answered_chunks_are_followed_up_in_turn(leader, peer, accepted, next_offset, match_index);
}

/// A leader that hears that a peer has installed a snapshot counts the peer as holding the
/// log up to the snapshot's index, and goes on with the entries behind it.
pub proof fn installed_snapshots_are_followed_by_entries(
    leader: RaftView,
    peer: NodeId,
    next_offset: u64,
    match_index: u64,
)
    requires
        sends_snapshot(leader, peer),
        leader.log.contiguous(),
        leader.log.base_index <= match_index <= leader.log.last_index(),
        leader.log.last_index() < u64::MAX,
    ensures
        ({
            let after = leader.stepped(
                chunk_answer(leader, peer, true, next_offset, true, match_index),
            );
            &&& after.node.progress.contains_key(peer)
            &&& after.node.progress[peer].match_index >= match_index
            &&& after.node.progress[peer].next_index == match_index + 1
            &&& after.node.progress[peer].snapshot_offset is None
            &&& after.actions.len() > 0
            &&& after.actions.last() matches ActionView::Send { to, message } && to == peer && (
            message matches MessageView::AppendEntries { prev_log_index, prev_log_term, .. }
                && prev_log_index == match_index && leader.log.term(match_index) == Some(
                prev_log_term,
            ))
        }),
{
    let input = chunk_answer(leader, peer, true, next_offset, true, match_index);
    answers_are_received(leader, peer, input->message);
    reveal(turn_of);
    crate::raft::log::last_index_counts(leader.log);
}

/// A follower can take a snapshot of a leader: it is new to the follower and of an allowed
/// size, and the follower is not ahead of the leader's term.
pub open spec fn can_take(
    follower: RaftView,
    leader: RaftView,
    snapshot: PersistentSnapshotView,
) -> bool {
    &&& follower.id != leader.id
    &&& follower.configuration == leader.configuration
    &&& follower.configuration.voters().contains(leader.id)
    &&& follower.configuration.voters().contains(follower.id)
    &&& follower.hard_state.current_term <= leader.hard_state.current_term
    &&& follower.hard_state.commit_index < snapshot.metadata.last_included_index
    &&& snapshot.valid()
    &&& snapshot.metadata.configuration == leader.configuration
    &&& snapshot.metadata.byte_len <= MAX_SNAPSHOT_BYTES
}

/// The follower has taken the first bytes of a snapshot.
pub open spec fn has_taken(
    follower: RaftView,
    snapshot: PersistentSnapshotView,
    length: int,
) -> bool {
    if length == 0 {
        !(follower.incoming_snapshot matches Some(incoming) && incoming.metadata
            == snapshot.metadata && incoming.data.len() > 0)
    } else {
        follower.incoming_snapshot matches Some(incoming) && incoming.metadata
            == snapshot.metadata && incoming.data == snapshot.data.subrange(0, length)
    }
}

/// A follower of a leader that has just heard of it.
spec fn following(follower: RaftView, leader: RaftView) -> Turn {
    (Turn { node: follower, actions: Seq::empty() }).applied().stepped_down(
        leader.hard_state.current_term,
        Some(leader.id),
    ).act(ActionView::ResetElectionTimer)
}

proof fn following_keeps(follower: RaftView, leader: RaftView)
    requires
        follower.hard_state.current_term <= leader.hard_state.current_term,
    ensures
        ({
            let node = following(follower, leader).node;
            &&& node.configuration == follower.configuration
            &&& node.id == follower.id
            &&& node.hard_state.current_term == leader.hard_state.current_term
            &&& node.hard_state.commit_index == follower.hard_state.commit_index
            &&& node.role == Role::Follower
            &&& node.leader_id == Some(leader.id)
            &&& node.log == follower.log
            &&& node.snapshot == follower.snapshot
            &&& node.campaign_term is None
            &&& node.applied_index == follower.hard_state.commit_index
            &&& node.incoming_snapshot == follower.incoming_snapshot
        }),
{
}

/// What a chunk makes of a follower that is where the chunk begins.
proof fn taking_a_chunk(
    turn: Turn,
    from: NodeId,
    snapshot: PersistentSnapshotView,
    offset: int,
    data: Seq<u8>,
    done: bool,
)
    requires
        0 <= offset <= snapshot.data.len(),
        snapshot.valid(),
        snapshot.metadata.byte_len <= MAX_SNAPSHOT_BYTES,
        snapshot.metadata.configuration == turn.node.configuration,
        turn.node.applied_index < snapshot.metadata.last_included_index,
        has_taken(turn.node, snapshot, offset),
        offset + data.len() <= snapshot.data.len(),
        data == snapshot.data.subrange(offset, offset + data.len()),
        done == (offset + data.len() == snapshot.data.len()),
    ensures
        turn.chunk_checked(from, snapshot.metadata, offset as u64, data, done) == if done {
            turn.snapshot_installed(from, snapshot)
        } else {
            turn.with_incoming(
                Some(
                    IncomingSnapshotView {
                        metadata: snapshot.metadata,
                        data: snapshot.data.subrange(0, offset + data.len()),
                    },
                ),
            ).snapshot_reply(from, true, (offset + data.len()) as u64, false, 0)
        },
{
    let metadata = snapshot.metadata;
    let same_transfer = turn.node.incoming_snapshot matches Some(incoming) && incoming.metadata
        == metadata;
    let ready = if offset == 0 && !same_transfer {
        turn.with_incoming(Some(IncomingSnapshotView { metadata, data: Seq::empty() }))
    } else {
        turn
    };
    let incoming = ready.node.incoming_snapshot->0;
    let reached = offset + data.len();
    assert(snapshot.data.subrange(0, 0) =~= Seq::empty());
    assert(incoming.data =~= snapshot.data.subrange(0, offset));
    assert(incoming.data + data =~= snapshot.data.subrange(0, reached));
    assert(turn.chunk_checked(from, metadata, offset as u64, data, done) == ready.chunk_taken(
        from,
        incoming,
        offset as u64,
        data,
        done,
    ));
    if done {
        assert(snapshot.data.subrange(0, reached) =~= snapshot.data);
        assert(PersistentSnapshotView { metadata, data: incoming.data + data } == snapshot);
        assert(sha256(incoming.data + data) == metadata.sha256);
    }
}

proof fn unfinished(
    turn: Turn,
    from: NodeId,
    snapshot: PersistentSnapshotView,
    reached: int,
)
    requires
        0 < reached < snapshot.data.len(),
    ensures
        ({
            let after = turn.with_incoming(
                Some(
                    IncomingSnapshotView {
                        metadata: snapshot.metadata,
                        data: snapshot.data.subrange(0, reached),
                    },
                ),
            ).snapshot_reply(from, true, reached as u64, false, 0);
            &&& has_taken(after.node, snapshot, reached)
            &&& after.node == (RaftView {
                incoming_snapshot: after.node.incoming_snapshot,
                ..turn.node
            })
            &&& after.actions.len() > 0
            &&& after.actions.last() == (ActionView::Send {
                to: from,
                message: MessageView::InstallSnapshotResponse {
                    term: turn.node.hard_state.current_term,
                    accepted: true,
                    next_offset: reached as u64,
                    done: false,
                    match_index: 0,
                },
            })
        }),
{
}

proof fn finished(turn: Turn, from: NodeId, snapshot: PersistentSnapshotView)
    requires
        turn.node.hard_state.commit_index < snapshot.metadata.last_included_index,
    ensures
        ({
            let after = turn.snapshot_installed(from, snapshot);
            let index = snapshot.metadata.last_included_index;
            &&& after.node == (RaftView {
                log: after.node.log,
                snapshot: Some(snapshot),
                hard_state: after.node.hard_state,
                applied_index: index,
                incoming_snapshot: None,
                ..turn.node
            })
            &&& after.node.hard_state.commit_index == index
            &&& after.node.hard_state.current_term == turn.node.hard_state.current_term
            &&& after.node.log.base_index == index
            &&& after.node.log.base_term == snapshot.metadata.last_included_term
            &&& after.actions.len() > 1
            &&& after.actions.last() == (ActionView::Send {
                to: from,
                message: MessageView::InstallSnapshotResponse {
                    term: turn.node.hard_state.current_term,
                    accepted: true,
                    next_offset: snapshot.metadata.byte_len,
                    done: true,
                    match_index: index,
                },
            })
            &&& after.actions[after.actions.len() - 2] matches ActionView::Persist(
                StorageMutationView::InstallSnapshot { snapshot: stored, .. },
            ) && stored == snapshot
        }),
{
}

proof fn chunks_are_taken_in_turn(
    follower: RaftView,
    leader: RaftView,
    snapshot: PersistentSnapshotView,
    offset: int,
)
    requires
        can_take(follower, leader, snapshot),
        0 <= offset <= snapshot.data.len(),
        has_taken(follower, snapshot, offset),
    ensures
        ({
            let chunk = chunk_from(leader, snapshot, offset);
            let after = turn_of(
                follower,
                InputView::Message { from: leader.id, message: chunk },
            );
            let reached = offset + chunk->InstallSnapshot_data.len();
            let index = snapshot.metadata.last_included_index;
            &&& after.actions.len() > 0
            &&& after.node.configuration == follower.configuration
            &&& after.node.id == follower.id
            &&& after.node.hard_state.current_term == leader.hard_state.current_term
            &&& after.node.role == Role::Follower
            &&& after.node.leader_id == Some(leader.id)
            &&& if reached < snapshot.data.len() {
                &&& has_taken(after.node, snapshot, reached)
                &&& after.node.log == follower.log
                &&& after.node.snapshot == follower.snapshot
                &&& after.node.hard_state.commit_index == follower.hard_state.commit_index
                &&& after.node.campaign_term is None
                &&& after.node.applied_index == follower.hard_state.commit_index
                &&& after.actions.last() == (ActionView::Send {
                    to: leader.id,
                    message: MessageView::InstallSnapshotResponse {
                        term: leader.hard_state.current_term,
                        accepted: true,
                        next_offset: reached as u64,
                        done: false,
                        match_index: 0,
                    },
                })
            } else {
                &&& after.node.snapshot == Some(snapshot)
                &&& after.node.incoming_snapshot is None
                &&& after.node.applied_index == index
                &&& after.node.hard_state.commit_index == index
                &&& after.node.log.base_index == index
                &&& after.node.log.base_term == snapshot.metadata.last_included_term
                &&& after.actions.last() == (ActionView::Send {
                    to: leader.id,
                    message: MessageView::InstallSnapshotResponse {
                        term: leader.hard_state.current_term,
                        accepted: true,
                        next_offset: snapshot.metadata.byte_len,
                        done: true,
                        match_index: index,
                    },
                })
                &&& exists|i: int|
                    0 <= i < after.actions.len() && (#[trigger] after.actions[i] matches
                        ActionView::Persist(StorageMutationView::InstallSnapshot {
                        snapshot: stored,
                        ..
                    }) && stored == snapshot)
            }
        }),
{
    let chunk = chunk_from(leader, snapshot, offset);
    let data = chunk->InstallSnapshot_data;
    let down = following(follower, leader);
    following_keeps(follower, leader);
    chunks_are_received(follower, leader.id, chunk);
    taking_a_chunk(
        down,
        leader.id,
        snapshot,
        offset,
        data,
        chunk->InstallSnapshot_done,
    );
    let after = turn_of(follower, InputView::Message { from: leader.id, message: chunk });
    assert(after == down.chunk_checked(
        leader.id,
        snapshot.metadata,
        offset as u64,
        data,
        chunk->InstallSnapshot_done,
    ));
    if chunk->InstallSnapshot_done {
        finished(down, leader.id, snapshot);
        let i = after.actions.len() - 2;
        assert(after.actions[i] is Persist);
    } else {
        unfinished(down, leader.id, snapshot, offset + data.len());
    }
}

/// A follower takes the chunk that begins where it is and says how far it is now. With the
/// last chunk it installs the snapshot: its state is what the snapshot says, and so is what
/// it stores.
pub proof fn chunks_are_taken(
    follower: RaftView,
    leader: RaftView,
    snapshot: PersistentSnapshotView,
    offset: int,
)
    requires
        can_take(follower, leader, snapshot),
        0 <= offset <= snapshot.data.len(),
        has_taken(follower, snapshot, offset),
    ensures
        ({
            let chunk = chunk_from(leader, snapshot, offset);
            let after = follower.stepped(
                InputView::Message { from: leader.id, message: chunk },
            );
            let reached = offset + chunk->InstallSnapshot_data.len();
            let index = snapshot.metadata.last_included_index;
            &&& after.actions.len() > 0
            &&& after.node.configuration == follower.configuration
            &&& after.node.id == follower.id
            &&& after.node.hard_state.current_term == leader.hard_state.current_term
            &&& after.node.role == Role::Follower
            &&& after.node.leader_id == Some(leader.id)
            &&& if reached < snapshot.data.len() {
                &&& has_taken(after.node, snapshot, reached)
                &&& after.node.log == follower.log
                &&& after.node.snapshot == follower.snapshot
                &&& after.node.hard_state.commit_index == follower.hard_state.commit_index
                &&& after.node.campaign_term is None
                &&& after.node.applied_index == follower.hard_state.commit_index
                &&& after.actions.last() == (ActionView::Send {
                    to: leader.id,
                    message: MessageView::InstallSnapshotResponse {
                        term: leader.hard_state.current_term,
                        accepted: true,
                        next_offset: reached as u64,
                        done: false,
                        match_index: 0,
                    },
                })
            } else {
                &&& after.node.snapshot == Some(snapshot)
                &&& after.node.incoming_snapshot is None
                &&& after.node.applied_index == index
                &&& after.node.hard_state.commit_index == index
                &&& after.node.log.base_index == index
                &&& after.node.log.base_term == snapshot.metadata.last_included_term
                &&& after.actions.last() == (ActionView::Send {
                    to: leader.id,
                    message: MessageView::InstallSnapshotResponse {
                        term: leader.hard_state.current_term,
                        accepted: true,
                        next_offset: snapshot.metadata.byte_len,
                        done: true,
                        match_index: index,
                    },
                })
                &&& exists|i: int|
                    0 <= i < after.actions.len() && (#[trigger] after.actions[i] matches
                        ActionView::Persist(StorageMutationView::InstallSnapshot {
                        snapshot: stored,
                        ..
                    }) && stored == snapshot)
            }
        }),
{
    reveal(turn_of);
    chunks_are_taken_in_turn(follower, leader, snapshot, offset);
}

/// A leader, a follower, and the message that is on its way to the follower.
pub struct Exchange {
    pub leader: RaftView,
    pub follower: RaftView,
    pub message: MessageView,
}

/// The last message that a node sends in a step.
pub open spec fn last_sent(turn: Turn) -> MessageView {
    turn.actions.last()->message
}

impl Exchange {
    /// The follower takes the message, the leader takes the answer, and what the leader
    /// sends then is on its way.
    pub open spec fn next(self) -> Exchange {
        let taken = turn_of(
            self.follower,
            InputView::Message { from: self.leader.id, message: self.message },
        );
        let answered = turn_of(
            self.leader,
            InputView::Message { from: self.follower.id, message: last_sent(taken) },
        );
        Exchange { leader: answered.node, follower: taken.node, message: last_sent(answered) }
    }

    /// After `n` messages to the follower.
    pub open spec fn after(self, n: int) -> Exchange
        decreases n,
    {
        if n <= 0 {
            self
        } else {
            self.after(n - 1).next()
        }
    }
}

/// The transfer of a snapshot has come as far as an offset.
spec fn under_way(e: Exchange, start: Exchange, offset: int) -> bool {
    let snapshot = start.leader.snapshot->0;
    &&& sends_snapshot(e.leader, e.follower.id)
    &&& e.leader.id == start.leader.id
    &&& e.follower.id == start.follower.id
    &&& e.leader.snapshot == start.leader.snapshot
    &&& e.leader.configuration == start.leader.configuration
    &&& can_take(e.follower, e.leader, snapshot)
    &&& has_taken(e.follower, snapshot, offset)
    &&& e.message == chunk_from(e.leader, snapshot, offset)
}

proof fn transfer_goes_on(e: Exchange, start: Exchange, offset: int)
    requires
        under_way(e, start, offset),
        0 <= offset,
        offset + SNAPSHOT_CHUNK_BYTES < start.leader.snapshot->0.data.len(),
    ensures
        under_way(e.next(), start, offset + SNAPSHOT_CHUNK_BYTES),
{
    let snapshot = start.leader.snapshot->0;
    let reached = offset + SNAPSHOT_CHUNK_BYTES;
    chunks_are_taken_in_turn(e.follower, e.leader, snapshot, offset);
    answered_chunks_are_followed_up_in_turn(e.leader, e.follower.id, true, reached as u64, 0);
    let taken = turn_of(
        e.follower,
        InputView::Message { from: e.leader.id, message: e.message },
    );
    let answered = turn_of(
        e.leader,
        chunk_answer(e.leader, e.follower.id, true, reached as u64, false, 0),
    );
    assert(e.next().follower == taken.node);
    assert(e.next().leader == answered.node);
    assert(chunk_from(e.leader, snapshot, reached) == chunk_from(
        answered.node,
        snapshot,
        reached,
    ));
}

proof fn transfer_reaches(start: Exchange, n: int)
    requires
        under_way(start, start, 0),
        0 <= n,
        n == 0 || n * SNAPSHOT_CHUNK_BYTES < start.leader.snapshot->0.data.len(),
    ensures
        under_way(start.after(n), start, n * SNAPSHOT_CHUNK_BYTES),
    decreases n,
{
    if n > 0 {
        transfer_reaches(start, n - 1);
        transfer_goes_on(start.after(n - 1), start, (n - 1) * SNAPSHOT_CHUNK_BYTES);
    }
}

/// How many chunks a snapshot takes; an empty one takes one, too.
pub open spec fn chunks_of(length: nat) -> int {
    if length == 0 {
        1
    } else {
        (length + SNAPSHOT_CHUNK_BYTES - 1) / SNAPSHOT_CHUNK_BYTES as int
    }
}

/// A leader and a follower that lose no message of each other bring the leader's snapshot
/// to the follower with one message for each chunk, from the first one on.
pub proof fn snapshots_arrive(start: Exchange)
    requires
        sends_snapshot(start.leader, start.follower.id),
        can_take(start.follower, start.leader, start.leader.snapshot->0),
        !(start.follower.incoming_snapshot matches Some(incoming) && incoming.metadata
            == start.leader.snapshot->0.metadata),
        start.message == chunk_from(start.leader, start.leader.snapshot->0, 0),
    ensures
        ({
            let snapshot = start.leader.snapshot->0;
            let end = start.after(chunks_of(snapshot.data.len()));
            &&& end.follower.snapshot == Some(snapshot)
            &&& end.follower.applied_index == snapshot.metadata.last_included_index
            &&& end.follower.log.base_index == snapshot.metadata.last_included_index
            &&& end.follower.log.base_term == snapshot.metadata.last_included_term
        }),
{
    let snapshot = start.leader.snapshot->0;
    let length = snapshot.data.len() as int;
    let n = chunks_of(snapshot.data.len()) - 1;
    assert(n >= 0 && (n == 0 || n * SNAPSHOT_CHUNK_BYTES < length) && length <= (n + 1)
        * SNAPSHOT_CHUNK_BYTES);
    transfer_reaches(start, n);
    let e = start.after(n);
    chunks_are_taken_in_turn(e.follower, e.leader, snapshot, n * SNAPSHOT_CHUNK_BYTES);
    assert(start.after(n + 1) == e.next());
}

} // verus!
