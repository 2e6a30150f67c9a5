//! A seeded simulator of a group of nodes.
//!
//! Disks are modelled apart from the nodes: a crash leaves a node nothing but
//! what it stored. Messages can be late, lost, doubled, out of order, or held
//! back by a partition. The safety properties are checked after every event.

use std::collections::VecDeque;

use rand::rngs::SmallRng;
use rand::{Rng, SeedableRng};
use vstd::prelude::*;
use crate::digest::sha256;
use crate::model::Model;
use crate::ordmap::{Key, OrdMap, OrdSet, lists, ordered};
use crate::raft::cluster::{
    CHECK_QUORUM_TICKS, Draw, ELECTION_MAX_TICKS, ELECTION_MIN_TICKS, FaultProfile, HEARTBEAT_TICKS,
    Pair, SimError, SimErrorKind, SimEvent, SimState, SimView, at_time, fits_machine, flow, flow_of,
    input_line, lines, logs_match,
};
use crate::raft::cluster_steps::{
    acting_keeps_time, describe_input, executed_alike, executed_stops, message_byte_cost,
};
use crate::raft::configuration::{Configuration, ConfigurationView};
use crate::raft::disk::{SimDisk, SimDiskView};
use crate::raft::machine::{Raft, recovered, recovery_problem};
use crate::raft::runs::{DELIVERIES_PER_TICK, DELIVERY_ATTEMPTS};
use crate::raft::types::{
    Action, ActionView, CommandId, Input, InputView, PersistentSnapshot, Role, StableState,
    StableStateView, Tick,
};
use crate::raft::violations::Violation;
use crate::text::decimal_text;
use crate::types::{NodeId, between, message};
use crate::wire::{le_bytes, put_le};

verus! {

broadcast use crate::model::group_contents;

/// The small generator of `rand`.
#[verifier::external_type_specification]
#[verifier::external_body]
pub struct ExSmallRng(SmallRng);

/// Calls `SmallRng::seed_from_u64`. Nothing is claimed of what the generator
/// will draw: it differs between machines.
#[verifier::external_body]
fn seeded_generator(seed: u64) -> (generator: SmallRng) {
    SmallRng::seed_from_u64(seed)
}

/// Calls `Rng::random_range` on an inclusive range, and claims that the number
/// lies in the range. An empty range, on which the call panics, is left out.
#[verifier::external_body]
fn number_between(generator: &mut SmallRng, low: u64, high: u64) -> (number: u64)
    requires
        low <= high,
    ensures
        low <= number <= high,
{
    generator.random_range(low..=high)
}

/// Calls `Rng::random_range` on the positions of a list, and claims that the
/// position lies in the list. An empty list, on which the call panics, is left out.
#[verifier::external_body]
fn position_below(generator: &mut SmallRng, count: usize) -> (position: usize)
    requires
        count > 0,
    ensures
        position < count,
{
    generator.random_range(0..count)
}

/// Calls `Rng::random_range` on the bytes below a bound, and claims that the byte lies
/// below it. An empty range, on which the call panics, is left out.
#[verifier::external_body]
fn byte_below(generator: &mut SmallRng, bound: u8) -> (byte: u8)
    requires
        bound > 0,
    ensures
        byte < bound,
{
    generator.random_range(0..bound)
}

/// Calls `Rng::random_ratio`, and claims that what has no chance does not
/// happen and what is certain does. Ratios above one, on which the call
/// panics, are left out.
#[verifier::external_body]
fn happens(generator: &mut SmallRng, numerator: u32, denominator: u32) -> (happened: bool)
    requires
        numerator <= denominator,
        denominator > 0,
    ensures
        numerator == 0 ==> !happened,
        numerator == denominator ==> happened,
{
    generator.random_ratio(numerator, denominator)
}

/// What stays as it is while events are handled.
pub open spec fn same_setting(before: SimView, after: SimView) -> bool {
    &&& after.seed == before.seed
    &&& after.configuration == before.configuration
    &&& after.profile == before.profile
    &&& after.now == before.now
    &&& after.step_number == before.step_number
    &&& after.step_budget == before.step_budget
    &&& after.blocked == before.blocked
    &&& after.nodes.dom() == before.nodes.dom()
}

proof fn acting_keeps_setting(state: SimView, node: NodeId, action: ActionView, draw: Draw)
    ensures
        same_setting(state, state.acted(node, action, draw).state),
{
    acting_keeps_time(state, node, action, draw);
    acting_keeps_links(state, node, action, draw);
}

proof fn acting_keeps_links(state: SimView, node: NodeId, action: ActionView, draw: Draw)
    ensures
        state.acted(node, action, draw).state.blocked == state.blocked,
{
    reveal(SimView::acted);
    if let ActionView::Persist(mutation) = action {
        persisting_keeps_links(state, node, mutation);
    }
}

proof fn persisting_keeps_links(
    state: SimView,
    node: NodeId,
    mutation: crate::raft::types::StorageMutationView,
)
    ensures
        state.persisted(node, mutation).state.blocked == state.blocked,
{
    let stored = match mutation {
        crate::raft::types::StorageMutationView::HardState(next) => state.hard_state_stored(
            node,
            next,
        ).state,
        _ => SimView {
            disks: state.disks.insert(node, state.disks[node].written(mutation).0),
            ..state
        },
    };
    if stored.disks.contains_key(node) {
        let disk = stored.disks[node];
        let captured = if stored.captured_commit.contains_key(node) {
            stored.captured_commit[node]
        } else {
            0
        };
        let from = if captured < disk.log().base_index {
            disk.log().base_index
        } else {
            captured
        };
        knowing_keeps_links(stored, node, disk, from, disk.stable.hard_state.commit_index);
    }
}

proof fn knowing_keeps_links(
    state: SimView,
    node: NodeId,
    disk: SimDiskView,
    from: u64,
    to: u64,
)
    ensures
        state.commits_known(node, disk, from, to).state.blocked == state.blocked,
    decreases to,
{
    if to > from {
        knowing_keeps_links(state, node, disk, from, (to - 1) as u64);
    }
}

impl SimView {
    /// Where only the last of some positions can be delivered, it is selected.
    proof fn last_is_selected(self, positions: Seq<usize>, i: int)
        requires
            0 <= i < positions.len(),
            forall|j: int|
                i <= j < positions.len() - 1 ==> !self.deliverable(
                    self.messages[(#[trigger] positions[j]) as int],
                ),
            self.deliverable(self.messages[positions.last() as int]),
        ensures
            self.selected(positions, i) == Some(positions.last()),
        decreases positions.len() - i,
    {
        if i < positions.len() - 1 {
            self.last_is_selected(positions, i + 1);
        }
    }

    /// Where none of some positions can be delivered, none is selected.
    proof fn none_is_selected(self, positions: Seq<usize>, i: int)
        requires
            0 <= i <= positions.len(),
            forall|j: int|
                i <= j < positions.len() ==> !self.deliverable(
                    self.messages[(#[trigger] positions[j]) as int],
                ),
        ensures
            self.selected(positions, i) is None,
        decreases positions.len() - i,
    {
        if i < positions.len() {
            self.none_is_selected(positions, i + 1);
        }
    }

    /// Positions after the one that is selected do not count.
    proof fn selected_early(self, positions: Seq<usize>, more: Seq<usize>, i: int)
        requires
            0 <= i <= positions.len() <= more.len(),
            forall|j: int| 0 <= j < positions.len() ==> positions[j] == more[j],
            self.selected(positions, i) is Some,
        ensures
            self.selected(more, i) == self.selected(positions, i),
        decreases positions.len() - i,
    {
        if i < positions.len() && !self.deliverable(self.messages[positions[i] as int]) {
            self.selected_early(positions, more, i + 1);
        }
    }
}

proof fn executing_keeps_setting(
    state: SimView,
    node: NodeId,
    actions: Seq<ActionView>,
    draws: Seq<Draw>,
    n: int,
)
    ensures
        same_setting(state, state.executed(node, actions, draws, n).state),
    decreases n,
{
    if n > 0 {
        executing_keeps_setting(state, node, actions, draws, n - 1);
        let before = state.executed(node, actions, draws, n - 1);
        if before.error is None {
            acting_keeps_setting(before.state, node, actions[n - 1], draws[n - 1]);
        }
    }
}

/// Handling an event takes no time, and neither starts nor stops a node.
pub proof fn giving_keeps_setting(
    state: SimView,
    node: NodeId,
    input: InputView,
    draws: Seq<Draw>,
)
    ensures
        same_setting(state, state.given(node, input, draws).state),
        state.given(node, input, draws).error is None ==> state.given(
            node,
            input,
            draws,
        ).state.safe(),
{
    let start = state.recorded(input_line(state.now, node, input));
    if start.nodes.contains_key(node) && start.nodes[node].has_room(input) {
        let turn = start.nodes[node].stepped(input);
        let moved = SimView { nodes: start.nodes.insert(node, turn.node), ..start };
        assert(moved.nodes.dom() =~= start.nodes.dom());
        executing_keeps_setting(moved, node, turn.actions, draws, turn.actions.len() as int);
    }
}

fn time_text(now: u64, what: &str) -> (line: String)
    ensures
        line@ == at_time(now, what@),
{
    between("t=", &decimal_text(now), what)
}

impl SimState {
    /// Gives a node an event, and returns what the node asks for.
    fn begin(&mut self, node: NodeId, input: Input) -> (result: Result<Vec<Action>, SimError>)
        ensures
            match result {
                Ok(actions) => {
                    &&& old(self).content().nodes.contains_key(node)
                    &&& old(self).content().nodes[node].has_room(input.deep_view())
                    &&& actions.deep_view() == old(self).content().nodes[node].stepped(
                        input.deep_view(),
                    ).actions
                    &&& final(self).content() == (SimView {
                        nodes: old(self).content().nodes.insert(
                            node,
                            old(self).content().nodes[node].stepped(input.deep_view()).node,
                        ),
                        ..old(self).content().recorded(
                            input_line(old(self).content().now, node, input.deep_view()),
                        )
                    })
                },
                Err(error) => {
                    &&& !(old(self).content().nodes.contains_key(node) && old(
                        self,
                    ).content().nodes[node].has_room(input.deep_view()))
                    &&& forall|draws: Seq<Draw>|
                        flow(final(self).content(), Err(error)) == #[trigger] old(
                            self,
                        ).content().given(node, input.deep_view(), draws)
                },
            },
    {
        let name = describe_input(&input);
        let mut line = time_text(self.now, " input node=");
        line.append(&decimal_text(node));
        line.append(" ");
        line.append(name);
        self.record(line);
        let ghost nodes = self.nodes.deep_view();
        let mut raft = match self.nodes.remove(&node) {
            Some(raft) => raft,
            None => {
                assert(self.nodes.deep_view() =~= nodes);
                return Err(SimError::NodeUnavailable(node));
            },
        };
        if !raft.has_room(&input) {
            self.nodes.insert(node, raft);
            assert(self.nodes.deep_view() =~= nodes);
            return Err(self.violation_error(Violation::IndexExhausted));
        }
        let actions = raft.step(input);
        self.nodes.insert(node, raft);
        assert(self.nodes.deep_view() =~= nodes.insert(node, raft.deep_view()));
        Ok(actions)
    }

    fn crash(&mut self, node: NodeId) -> (result: Result<(), SimError>)
        ensures
            flow(final(self).content(), result) == old(self).content().crashed(node),
    {
        let ghost nodes = self.nodes.deep_view();
        if self.nodes.remove(&node).is_none() {
            assert(self.nodes.deep_view() =~= nodes);
            return Err(SimError::NodeUnavailable(node));
        }
        self.election_deadline.remove(&node);
        self.heartbeat_deadline.remove(&node);
        self.quorum_deadline.remove(&node);
        let mut line = time_text(self.now, " crash node=");
        line.append(&decimal_text(node));
        self.record(line);
        Ok(())
    }

    /// Starts a node again; only a node that starts draws when it stands for election.
    fn restart(&mut self, node: NodeId, generator: &mut SmallRng) -> (started: (
        Result<(), SimError>,
        Ghost<u64>,
    ))
        requires
            old(self).content().has_time(0),
        ensures
            ELECTION_MIN_TICKS <= started.1@ <= ELECTION_MAX_TICKS,
            flow(final(self).content(), started.0) == old(self).content().restarted(
                node,
                started.1@,
            ),
    {
        if !self.configuration.contains(node) {
            return (Err(SimError::NodeUnavailable(node)), Ghost(ELECTION_MIN_TICKS));
        }
        if self.nodes.contains_key(&node) {
            return (Ok(()), Ghost(ELECTION_MIN_TICKS));
        }
        let disk = match self.disks.get(&node) {
            Some(disk) => disk,
            None => return (Err(SimError::NodeUnavailable(node)), Ghost(ELECTION_MIN_TICKS)),
        };
        let raft = match Raft::recover(
            node,
            self.configuration.duplicate(),
            disk.stable.duplicate(),
        ) {
            Ok(raft) => raft,
            Err(error) => {
                let failed = SimError::Recovery { node, message: error.describe() };
                return (Err(failed), Ghost(ELECTION_MIN_TICKS));
            },
        };
        self.nodes.insert(node, raft);
        let deadline: u64 = number_between(generator, ELECTION_MIN_TICKS, ELECTION_MAX_TICKS);
        self.election_deadline.insert(node, self.now + deadline);
        self.heartbeat_deadline.insert(node, self.now + HEARTBEAT_TICKS);
        self.quorum_deadline.insert(node, self.now + CHECK_QUORUM_TICKS);
        let mut line = time_text(self.now, " restart node=");
        line.append(&decimal_text(node));
        self.record(line);
        (self.assert_invariants(), Ghost(deadline))
    }

    fn partition(&mut self, from: NodeId, to: NodeId)
        ensures
            final(self).content() == old(self).content().partitioned(from, to),
    {
        self.blocked.insert(Pair { first: from, second: to });
        let mut line = time_text(self.now, " partition ");
        line.append(&decimal_text(from));
        line.append("->");
        line.append(&decimal_text(to));
        self.record(line);
    }

    /// Whether the message at a position can be delivered now.
    fn can_deliver(&self, position: usize) -> (can: bool)
        requires
            position < self.content().messages.len(),
        ensures
            can == self.content().deliverable(self.content().messages[position as int]),
    {
        let envelope = &self.messages[position];
        assert(self.content().messages[position as int] == envelope.deep_view());
        envelope.deliver_at <= self.now && self.nodes.contains_key(&envelope.to)
            && !self.blocked.contains(&Pair { first: envelope.from, second: envelope.to })
    }

    /// Takes a message out.
    fn take_message(&mut self, position: usize) -> (event: (NodeId, Input))
        requires
            position < old(self).content().messages.len(),
        ensures
            final(self).content() == old(self).content().without_message(position as int),
            event.0 == old(self).content().messages[position as int].to,
            event.1.deep_view() == (InputView::Message {
                from: old(self).content().messages[position as int].from,
                message: old(self).content().messages[position as int].message,
            }),
    {
        let ghost before = self.messages.deep_view();
        let envelope = self.messages.swap_remove(position);
        proof {
            assert(before[position as int] == envelope.deep_view());
            assert(self.messages.deep_view() =~= before.update(
                position as int,
                before.last(),
            ).drop_last());
        }
        self.queued_bytes = if self.queued_bytes < envelope.byte_cost {
            0
        } else {
            self.queued_bytes - envelope.byte_cost
        };
        let mut line = time_text(self.now, " deliver seq=");
        line.append(&decimal_text(envelope.sequence));
        line.append(" ");
        line.append(&decimal_text(envelope.from));
        line.append("->");
        line.append(&decimal_text(envelope.to));
        self.record(line);
        (envelope.to, Input::Message { from: envelope.from, message: envelope.message })
    }

    fn leaders(&self) -> (leaders: Vec<(NodeId, u64)>)
        ensures
            leaders@ == self.content().leaders(),
    {
        let ghost state = self.content();
        let count: usize = self.nodes.len();
        let ghost listed = ordered::<NodeId>(state.nodes.dom());
        let mut leaders: Vec<(NodeId, u64)> = Vec::new();
        let mut i: usize = 0;
        while i < count
            invariant
                i <= count,
                state == self.content(),
                listed == ordered::<NodeId>(state.nodes.dom()),
                count == listed.len(),
                leaders@ == state.leaders_among(listed, i as int),
            decreases count - i,
        {
            let node = *self.nodes.key_at(i);
            let raft = self.nodes.value_at(i);
            if raft.role() == Role::Leader {
                leaders.push((node, raft.term()));
            }
            i = i + 1;
        }
        leaders
    }

    /// Whether a node plays the leader, and whether a deadline of it is due.
    fn due(&self, node: NodeId, deadlines: &OrdMap<NodeId, u64>) -> (due: bool)
        ensures
            due == (deadlines.deep_view().contains_key(node) && deadlines.deep_view()[node]
                <= self.content().now),
    {
        match deadlines.get(&node) {
            Some(deadline) => *deadline <= self.now,
            None => false,
        }
    }

    fn leads(&self, node: NodeId) -> (leads: bool)
        ensures
            leads == (self.content().nodes.contains_key(node) && self.content().nodes[node].role
                == Role::Leader),
    {
        match self.nodes.get(&node) {
            Some(raft) => raft.role() == Role::Leader,
            None => false,
        }
    }
}

/// A move of the chaos workload.
#[derive(Debug, Clone, Copy, PartialEq, Eq, Structural)]
pub enum ChaosMove {
    Crash(NodeId),
    Restart(NodeId),
    Partition(NodeId, NodeId),
    Heal,
    Propose(NodeId),
    Nothing,
}

/// The move for a number below a hundred and two voters drawn by chance. A
/// node is crashed only while more than a majority would stay.
pub open spec fn chaos_move(
    choice: u64,
    first: NodeId,
    second: NodeId,
    live: nat,
    voters: nat,
    first_lives: bool,
    leader: Option<NodeId>,
) -> ChaosMove {
    if choice <= 2 {
        if live > voters / 2 + 1 && first_lives {
            ChaosMove::Crash(first)
        } else {
            ChaosMove::Nothing
        }
    } else if choice <= 6 {
        if first_lives {
            ChaosMove::Nothing
        } else {
            ChaosMove::Restart(first)
        }
    } else if choice <= 11 {
        if first != second {
            ChaosMove::Partition(first, second)
        } else {
            ChaosMove::Nothing
        }
    } else if choice <= 15 {
        ChaosMove::Heal
    } else if choice <= 35 {
        match leader {
            Some(leader) => ChaosMove::Propose(leader),
            None => ChaosMove::Nothing,
        }
    } else {
        ChaosMove::Nothing
    }
}

/// Picks the move of the chaos workload.
pub fn pick_chaos_move(
    choice: u64,
    first: NodeId,
    second: NodeId,
    live: usize,
    voters: usize,
    first_lives: bool,
    leader: Option<NodeId>,
) -> (picked: ChaosMove)
    ensures
        picked == chaos_move(
            choice,
            first,
            second,
            live as nat,
            voters as nat,
            first_lives,
            leader,
        ),
{
    if choice <= 2 {
        if live > voters / 2 && live - voters / 2 > 1 && first_lives {
            ChaosMove::Crash(first)
        } else {
            ChaosMove::Nothing
        }
    } else if choice <= 6 {
        if first_lives {
            ChaosMove::Nothing
        } else {
            ChaosMove::Restart(first)
        }
    } else if choice <= 11 {
        if first != second {
            ChaosMove::Partition(first, second)
        } else {
            ChaosMove::Nothing
        }
    } else if choice <= 15 {
        ChaosMove::Heal
    } else if choice <= 35 {
        match leader {
            Some(leader) => ChaosMove::Propose(leader),
            None => ChaosMove::Nothing,
        }
    } else {
        ChaosMove::Nothing
    }
}

/// A group of simulated nodes that can be replayed from its seed.
#[derive(Debug)]
pub struct Simulator {
    rng: SmallRng,
    state: SimState,
}

impl DeepView for Simulator {
    type V = SimView;

    closed spec fn deep_view(&self) -> SimView {
        self.state.content()
    }
}

/// A group that has not taken a step: every node has an empty disk and has
/// just started.
pub open spec fn untouched(
    state: SimView,
    seed: u64,
    configuration: ConfigurationView,
    profile: FaultProfile,
) -> bool {
    &&& state.seed == seed
    &&& state.configuration == configuration
    &&& state.profile == profile
    &&& state.now == 0
    &&& state.step_number == 0
    &&& state.next_sequence == 0
    &&& state.step_budget == 100_000
    &&& state.queued_bytes == 0
    &&& state.blocked == Set::<Pair>::empty()
    &&& state.messages.len() == 0
    &&& state.events.len() == 0
    &&& state.leaders_by_term == Map::<u64, NodeId>::empty()
    &&& state.votes_by_term == Map::<Pair, NodeId>::empty()
    &&& state.committed == Map::<u64, crate::raft::disk::EntryIdentityView>::empty()
    &&& state.disks.dom() == state.nodes.dom()
    &&& forall|node: NodeId| #[trigger]
        state.disks.contains_key(node) ==> state.disks[node] == SimDiskView::blank()
    &&& forall|node: NodeId| #[trigger]
        state.nodes.contains_key(node) ==> state.nodes[node] == recovered(
            node,
            configuration,
            StableStateView::initial(),
        )
}

proof fn untouched_is_safe(state: SimView)
    requires
        forall|node: NodeId| #[trigger]
            state.disks.contains_key(node) ==> state.disks[node] == SimDiskView::blank(),
    ensures
        state.safe(),
{
    assert forall|node: NodeId| #[trigger] state.disks.contains_key(node) implies state.disk_sound(
        state.disks[node],
    ) && state.disk_keeps_committed(state.disks[node]) by {}
    assert forall|left: NodeId, right: NodeId|
        left < right && #[trigger] state.disks.contains_key(left)
            && #[trigger] state.disks.contains_key(right) implies logs_match(
        state.disks[left].log(),
        state.disks[right].log(),
    ) by {}
}

impl Simulator {
    /// Draws what an action needs: a deadline for an election timer, and for a message
    /// whether it is lost, whether it goes twice, and how long each copy takes that
    /// finds room.
    fn draw_for(&mut self, action: &Action) -> (draw: Draw)
        ensures
            final(self).deep_view() == old(self).deep_view(),
            old(self).deep_view().allows(draw),
    {
        let profile = self.state.profile;
        let mut draw = Draw {
            deadline: ELECTION_MIN_TICKS,
            dropped: false,
            duplicated: false,
            first_delay: 0,
            second_delay: 0,
        };
        match action {
            Action::ResetElectionTimer => {
                draw.deadline = number_between(
                    &mut self.rng,
                    ELECTION_MIN_TICKS,
                    ELECTION_MAX_TICKS,
                );
            },
            Action::Send { message, .. } => {
                draw.dropped = profile.drop_per_mille != 0 && (profile.drop_per_mille > 1000
                    || happens(&mut self.rng, profile.drop_per_mille as u32, 1000));
                if !draw.dropped {
                    draw.duplicated = profile.duplicate_per_mille != 0 && (
                    profile.duplicate_per_mille > 1000 || happens(
                        &mut self.rng,
                        profile.duplicate_per_mille as u32,
                        1000,
                    ));
                    let cost = message_byte_cost(message);
                    let room = self.state.has_room_for(0, 0, cost);
                    if room && profile.max_delay_ticks != 0 {
                        draw.first_delay = number_between(
                            &mut self.rng,
                            0,
                            profile.max_delay_ticks,
                        );
                    }
                    let again = if room {
                        self.state.has_room_for(1, cost, cost)
                    } else {
                        false
                    };
                    if draw.duplicated && again && profile.max_delay_ticks != 0 {
                        draw.second_delay = number_between(
                            &mut self.rng,
                            0,
                            profile.max_delay_ticks,
                        );
                    }
                }
            },
            _ => {},
        }
        draw
    }

    /// Carries out the actions of a node, up to the first that fails.
    fn execute_actions(&mut self, node: NodeId, actions: &Vec<Action>) -> (result: (
        Result<(), SimError>,
        Ghost<Seq<Draw>>,
    ))
        requires
            old(self).deep_view().has_time(0),
        ensures
            ({
                let draws = result.1@;
                &&& draws.len() == actions@.len()
                &&& forall|i: int|
                    0 <= i < draws.len() ==> old(self).deep_view().allows(#[trigger] draws[i])
                &&& flow(final(self).deep_view(), result.0) == old(self).deep_view().executed(
                    node,
                    actions.deep_view(),
                    draws,
                    actions@.len() as int,
                )
            }),
    {
        let ghost start = self.deep_view();
        let ghost view = actions.deep_view();
        let ghost mut draws: Seq<Draw> = Seq::empty();
        let mut i: usize = 0;
        while i < actions.len()
            invariant
                start == old(self).deep_view(),
                i <= actions@.len(),
                draws.len() == i,
                view == actions.deep_view(),
                start.executed(node, view, draws, i as int) == self.deep_view().going(),
                start.has_time(0),
                self.deep_view().now == start.now,
                self.deep_view().profile == start.profile,
                forall|j: int| 0 <= j < draws.len() ==> start.allows(#[trigger] draws[j]),
            decreases actions@.len() - i,
        {
            assert(view[i as int] == actions@[i as int].deep_view());
            let ghost before = self.deep_view();
            let draw = self.draw_for(&actions[i]);
            let done = self.state.act(node, &actions[i], &draw);
            proof {
                executed_alike(start, node, view, draws, draws.push(draw), i as int);
                draws = draws.push(draw);
                acting_keeps_time(before, node, view[i as int], draw);
            }
            if let Err(error) = done {
                proof {
                    let more = draws + Seq::new((view.len() - draws.len()) as nat, |j: int| draw);
                    executed_alike(start, node, view, draws, more, i + 1);
                    executed_stops(start, node, view, more, i + 1, view.len() as int);
                    draws = more;
                }
                return (Err(error), Ghost(draws));
            }
            i = i + 1;
        }
        (Ok(()), Ghost(draws))
    }

    fn input(&mut self, node: NodeId, input: Input) -> (result: Result<(), SimError>)
        requires
            old(self).deep_view().has_time(0),
        ensures
            old(self).deep_view().may_give(
                node,
                input.deep_view(),
                flow(final(self).deep_view(), result),
            ),
            same_setting(old(self).deep_view(), final(self).deep_view()),
            result is Ok ==> final(self).deep_view().safe(),
    {
        let ghost start = self.deep_view();
        let ghost event = input.deep_view();
        let actions = match self.state.begin(node, input) {
            Ok(actions) => actions,
            Err(error) => {
                proof {
                    let none = Seq::<Draw>::empty();
                    assert(start.draws_fit(node, event, none));
                    giving_keeps_setting(start, node, event, none);
                    start.gives(node, event, none, flow(self.deep_view(), Err(error)));
                }
                return Err(error);
            },
        };
        let (executed, draws) = self.execute_actions(node, &actions);
        proof {
            assert(start.draws_fit(node, event, draws@));
            giving_keeps_setting(start, node, event, draws@);
        }
        if let Err(error) = executed {
            proof {
                start.gives(node, event, draws@, flow(self.deep_view(), Err(error)));
            }
            return Err(error);
        }
        let result = self.state.assert_invariants();
        proof {
            start.gives(node, event, draws@, flow(self.deep_view(), result));
        }
        result
    }

    /// A group with fixed voters.
    pub fn new(seed: u64, voters: Vec<NodeId>, profile: FaultProfile) -> (result: Result<
        Simulator,
        SimError,
    >)
        requires
            profile.possible(),
            profile.max_delay_ticks + CHECK_QUORUM_TICKS <= u64::MAX,
        ensures
            match result {
                Ok(simulator) => {
                    let configuration = ConfigurationView {
                        incoming: voters@.to_set(),
                        outgoing: None,
                    };
                    &&& voters@.len() > 0
                    &&& untouched(simulator.deep_view(), seed, configuration, profile)
                    &&& simulator.deep_view().nodes.dom() == voters@.to_set()
                    &&& simulator.deep_view().safe()
                },
                Err(error) => voters@.len() == 0 && error.deep_view()
                    == SimErrorKind::Configuration,
            },
    {
        match Configuration::new(voters) {
            Ok(configuration) => Self::with_configuration(seed, configuration, profile),
            Err(error) => Err(SimError::Configuration(error.describe())),
        }
    }

    /// A group with the given configuration.
    pub fn with_configuration(
        seed: u64,
        configuration: Configuration,
        profile: FaultProfile,
    ) -> (result: Result<Simulator, SimError>)
        requires
            profile.possible(),
            profile.max_delay_ticks + CHECK_QUORUM_TICKS <= u64::MAX,
        ensures
            result is Ok,
            result matches Ok(simulator) ==> untouched(
                simulator.deep_view(),
                seed,
                configuration.deep_view(),
                profile,
            ) && simulator.deep_view().nodes.dom() == configuration.deep_view().voters()
                && simulator.deep_view().safe(),
    {
        let ghost voters_view = configuration.deep_view();
        let voters = configuration.voters().duplicate();
        let mut simulator = Simulator {
            rng: seeded_generator(seed),
            state: SimState {
                seed,
                configuration,
                profile,
                now: 0,
                step_number: 0,
                next_sequence: 0,
                step_budget: 100_000,
                queued_bytes: 0,
                nodes: OrdMap::new(),
                disks: OrdMap::new(),
                election_deadline: OrdMap::new(),
                heartbeat_deadline: OrdMap::new(),
                quorum_deadline: OrdMap::new(),
                blocked: OrdSet::new(),
                messages: Vec::new(),
                leaders_by_term: OrdMap::new(),
                votes_by_term: OrdMap::new(),
                committed: OrdMap::new(),
                captured_commit: OrdMap::new(),
                events: Vec::new(),
                trace: VecDeque::new(),
            },
        };
        let count: usize = voters.len();
        let ghost listed = voters.listed();
        let mut i: usize = 0;
        assert(listed.take(0).to_set() =~= Set::empty());
        assert(simulator.deep_view().nodes.dom() =~= Set::empty());
        assert(simulator.deep_view().disks.dom() =~= Set::empty());
        while i < count
            invariant
                i <= count,
                count == listed.len(),
                listed == voters.listed(),
                lists::<NodeId>(listed, voters.deep_view()),
                voters.deep_view() == voters_view.voters(),
                profile.max_delay_ticks + CHECK_QUORUM_TICKS <= u64::MAX,
                untouched(simulator.deep_view(), seed, voters_view, profile),
                simulator.deep_view().nodes.dom() == listed.take(i as int).to_set(),
            decreases count - i,
        {
            let id = *voters.member_at(i);
            let ghost before = simulator.deep_view();
            simulator.state.disks.insert(id, SimDisk::default());
            simulator.state.captured_commit.insert(id, 0);
            let ghost ready = simulator.deep_view();
            let (result, deadline) = simulator.state.restart(id, &mut simulator.rng);
            proof {
                assert(listed.take(i + 1) =~= listed.take(i as int).push(id));
                assert forall|node: NodeId| listed.take(i + 1).to_set().contains(node)
                    <==> listed.take(i as int).to_set().insert(id).contains(node) by {
                    if listed.take(i as int).contains(node) {
                        let k = listed.take(i as int).index_of(node);
                        assert(listed.take(i + 1)[k] == node);
                    }
                    assert(listed.take(i + 1)[i as int] == id);
                }
                if listed.take(i as int).contains(id) {
                    let k = listed.take(i as int).index_of(id);
                    assert(<NodeId as Key>::before(listed[k], listed[i as int]));
                }
                assert(ready.disks[id] == SimDiskView::blank());
                blank_recovers(id, voters_view);
                let started = ready.restarted(id, deadline@).state;
                assert forall|node: NodeId| #[trigger]
                    started.disks.contains_key(node) implies started.disks[node]
                    == SimDiskView::blank() by {
                    if node != id {
                        assert(before.disks.contains_key(node));
                    }
                }
                untouched_is_safe(started);
                assert(started.nodes.dom() =~= listed.take(i + 1).to_set());
                assert(started.disks.dom() =~= started.nodes.dom());
            }
            if let Err(error) = result {
                assert(false);
                return Err(error);
            }
            i = i + 1;
        }
        proof {
            assert(listed.take(i as int) =~= listed);
            assert(listed.to_set() =~= voters.deep_view());
            untouched_is_safe(simulator.deep_view());
        }
        Ok(simulator)
    }

    pub fn seed(&self) -> (seed: u64)
        ensures
            seed == self.deep_view().seed,
    {
        self.state.seed
    }

    pub fn now(&self) -> (now: u64)
        ensures
            now == self.deep_view().now,
    {
        self.state.now
    }

    /// What has happened.
    pub fn events(&self) -> (events: &Vec<SimEvent>)
        ensures
            events.deep_view() == self.deep_view().events,
    {
        &self.state.events
    }

    /// Takes out what has happened.
    pub fn take_events(&mut self) -> (events: Vec<SimEvent>)
        ensures
            events.deep_view() == old(self).deep_view().events,
            final(self).deep_view() == (SimView {
                events: Seq::empty(),
                ..old(self).deep_view()
            }),
    {
        let mut events: Vec<SimEvent> = Vec::new();
        assert(events.deep_view() =~= Seq::empty());
        std::mem::swap(&mut events, &mut self.state.events);
        events
    }

    /// Sets how many times the group may be advanced.
    pub fn set_step_budget(&mut self, budget: u64)
        ensures
            final(self).deep_view() == (SimView { step_budget: budget, ..old(self).deep_view() }),
    {
        self.state.step_budget = budget;
    }

    /// The last events, as texts.
    pub fn trace(&self) -> (trace: &VecDeque<String>)
        ensures
            lines(trace@) == self.deep_view().trace,
    {
        &self.state.trace
    }

    pub fn live_nodes(&self) -> (nodes: OrdSet<NodeId>)
        ensures
            nodes.deep_view() == self.deep_view().nodes.dom(),
    {
        let count: usize = self.state.nodes.len();
        let ghost listed = self.state.nodes.keys();
        let mut nodes: OrdSet<NodeId> = OrdSet::new();
        let mut i: usize = 0;
        assert(nodes.deep_view() =~= listed.take(0).to_set());
        while i < count
            invariant
                i <= count,
                count == listed.len(),
                listed == self.state.nodes.keys(),
                nodes.deep_view() == listed.take(i as int).to_set(),
            decreases count - i,
        {
            let node = *self.state.nodes.key_at(i);
            nodes.insert(node);
            proof {
                assert(listed.take(i + 1) =~= listed.take(i as int).push(node));
                assert forall|other: NodeId| listed.take(i + 1).to_set().contains(other)
                    <==> listed.take(i as int).to_set().insert(node).contains(other) by {
                    if listed.take(i as int).contains(other) {
                        let k = listed.take(i as int).index_of(other);
                        assert(listed.take(i + 1)[k] == other);
                    }
                    assert(listed.take(i + 1)[i as int] == node);
                }
                assert(nodes.deep_view() =~= listed.take(i + 1).to_set());
            }
            i = i + 1;
        }
        proof {
            assert(listed.take(i as int) =~= listed);
            assert(listed.to_set() =~= self.deep_view().nodes.dom());
        }
        nodes
    }

    /// The nodes that lead, with their terms.
    pub fn leaders(&self) -> (leaders: Vec<(NodeId, u64)>)
        ensures
            leaders@ == self.deep_view().leaders(),
    {
        self.state.leaders()
    }

    pub fn committed_index(&self, node: NodeId) -> (index: Option<u64>)
        ensures
            index == (if self.deep_view().disks.contains_key(node) {
                Some(self.deep_view().disks[node].stable.hard_state.commit_index)
            } else {
                None
            }),
    {
        match self.state.disks.get(&node) {
            Some(disk) => Some(disk.stable.hard_state.commit_index),
            None => None,
        }
    }

    pub fn applied_index(&self, node: NodeId) -> (index: Option<u64>)
        ensures
            index == (if self.deep_view().disks.contains_key(node) {
                Some(self.deep_view().disks[node].stable.applied_index)
            } else {
                None
            }),
    {
        match self.state.disks.get(&node) {
            Some(disk) => Some(disk.stable.applied_index),
            None => None,
        }
    }

    /// The digest of the state of a node.
    pub fn state_hash(&self, node: NodeId) -> (digest: Option<[u8; 32]>)
        ensures
            digest.deep_view() == (if self.deep_view().disks.contains_key(node) {
                Some(sha256(self.deep_view().disks[node].state_bytes))
            } else {
                None
            }),
    {
        match self.state.disks.get(&node) {
            Some(disk) => Some(disk.state_hash()),
            None => None,
        }
    }

    /// What a node has stored.
    pub fn durable_state(&self, node: NodeId) -> (stable: Option<&StableState>)
        ensures
            match stable {
                Some(stable) => self.deep_view().disks.contains_key(node) && stable.deep_view()
                    == self.deep_view().disks[node].stable,
                None => !self.deep_view().disks.contains_key(node),
            },
    {
        match self.state.disks.get(&node) {
            Some(disk) => Some(&disk.stable),
            None => None,
        }
    }

    /// Makes a node stand for election.
    pub fn campaign(&mut self, node: NodeId) -> (result: Result<(), SimError>)
        requires
            old(self).deep_view().has_time(0),
        ensures
            old(self).deep_view().may_give(
                node,
                InputView::Tick(Tick::Election),
                flow(final(self).deep_view(), result),
            ),
            same_setting(old(self).deep_view(), final(self).deep_view()),
            result is Ok ==> final(self).deep_view().safe(),
    {
        self.input(node, Input::Tick(Tick::Election))
    }

    /// Proposes a command to a node.
    pub fn propose(&mut self, node: NodeId, id: CommandId, command: Vec<u8>) -> (result: Result<
        (),
        SimError,
    >)
        requires
            old(self).deep_view().has_time(0),
        ensures
            old(self).deep_view().may_give(
                node,
                (InputView::Propose { id, command: command@ }),
                flow(final(self).deep_view(), result),
            ),
            same_setting(old(self).deep_view(), final(self).deep_view()),
            result is Ok ==> final(self).deep_view().safe(),
    {
        self.input(node, Input::Propose { id, command })
    }

    /// Asks a node for a linearizable read.
    pub fn read_index(&mut self, node: NodeId, context: Vec<u8>) -> (result: Result<(), SimError>)
        requires
            old(self).deep_view().has_time(0),
        ensures
            old(self).deep_view().may_give(
                node,
                (InputView::ReadIndex { context: context@ }),
                flow(final(self).deep_view(), result),
            ),
            same_setting(old(self).deep_view(), final(self).deep_view()),
            result is Ok ==> final(self).deep_view().safe(),
    {
        self.input(node, Input::ReadIndex { context })
    }

    /// Hands a node a snapshot of what it has applied, to compact its log with.
    pub fn snapshot(&mut self, node: NodeId, index: u64) -> (result: Result<(), SimError>)
        requires
            old(self).deep_view().has_time(0),
        ensures
            ({
                let state = old(self).deep_view();
                if !state.disks.contains_key(node) {
                    flow(final(self).deep_view(), result) == state.stopped(
                        SimErrorKind::NodeUnavailable(node),
                    )
                } else if index != state.disks[node].stable.applied_index {
                    flow(final(self).deep_view(), result) == state.violated(
                        Violation::SnapshotElsewhere {
                            applied: state.disks[node].stable.applied_index,
                            index,
                        },
                    )
                } else {
                    match state.snapshot_of(node) {
                        None => flow(final(self).deep_view(), result) == state.violated(
                            Violation::SnapshotUnbounded { index },
                        ),
                        Some(snapshot) => state.may_give(
                            node,
                            InputView::SnapshotBuilt(snapshot),
                            flow(final(self).deep_view(), result),
                        ),
                    }
                }
            }),
            same_setting(old(self).deep_view(), final(self).deep_view()),
    {
        let disk = match self.state.disks.get(&node) {
            Some(disk) => disk,
            None => return Err(SimError::NodeUnavailable(node)),
        };
        if index != disk.stable.applied_index {
            return Err(
                self.state.violation_error(
                    Violation::SnapshotElsewhere { applied: disk.stable.applied_index, index },
                ),
            );
        }
        let term: u64 = match disk.entry(index) {
            Some(entry) => entry.term,
            None => if index == disk.base_index() {
                disk.base_term()
            } else {
                return Err(self.state.violation_error(Violation::SnapshotUnbounded { index }));
            },
        };
        let snapshot = PersistentSnapshot::new(
            index,
            term,
            self.state.configuration.duplicate(),
            disk.state_bytes.duplicate(),
        );
        self.input(node, Input::SnapshotBuilt(snapshot))
    }

    /// Stops a node; only its disk stays.
    pub fn crash(&mut self, node: NodeId) -> (result: Result<(), SimError>)
        ensures
            flow(final(self).deep_view(), result) == old(self).deep_view().crashed(node),
    {
        self.state.crash(node)
    }

    /// Starts a node again from its disk.
    pub fn restart(&mut self, node: NodeId) -> (result: Result<(), SimError>)
        requires
            old(self).deep_view().has_time(0),
        ensures
            old(self).deep_view().may_restart(node, flow(final(self).deep_view(), result)),
            ({
                let before = old(self).deep_view();
                let after = final(self).deep_view();
                &&& after.now == before.now
                &&& after.profile == before.profile
                &&& after.configuration == before.configuration
                &&& after.blocked == before.blocked
                &&& before.nodes.dom().subset_of(after.nodes.dom())
                &&& result is Ok ==> after.nodes.contains_key(node)
            }),
    {
        let ghost start = self.deep_view();
        let (result, deadline) = self.state.restart(node, &mut self.rng);
        proof {
            start.restarts(node, deadline@, flow(self.deep_view(), result));
        }
        result
    }

    /// Holds back the messages of one node to another.
    pub fn partition(&mut self, from: NodeId, to: NodeId)
        ensures
            final(self).deep_view() == old(self).deep_view().partitioned(from, to),
    {
        self.state.partition(from, to);
    }

    /// Holds back the messages between two nodes.
    pub fn partition_bidirectional(&mut self, left: NodeId, right: NodeId)
        ensures
            final(self).deep_view() == old(self).deep_view().partitioned(left, right).partitioned(
                right,
                left,
            ),
    {
        self.state.partition(left, right);
        self.state.partition(right, left);
    }

    /// Holds back all messages from and to a node.
    pub fn isolate(&mut self, node: NodeId)
        ensures
            final(self).deep_view() == (SimView {
                blocked: final(self).deep_view().blocked,
                ..old(self).deep_view()
            }),
            forall|link: Pair| #[trigger]
                final(self).deep_view().blocked.contains(link) <==> old(
                    self,
                ).deep_view().blocked.contains(link) || link.first != link.second && (
                link.first == node && old(
                    self,
                ).deep_view().configuration.voters().contains(link.second) || link.second == node
                    && old(self).deep_view().configuration.voters().contains(link.first)),
    {
        let voters = self.state.configuration.voters().duplicate();
        let count: usize = voters.len();
        let ghost listed = voters.listed();
        let ghost start = self.deep_view();
        let mut i: usize = 0;
        while i < count
            invariant
                i <= count,
                count == listed.len(),
                listed == voters.listed(),
                start == old(self).deep_view(),
                self.deep_view() == (SimView { blocked: self.deep_view().blocked, ..start }),
                forall|link: Pair| #[trigger]
                    self.deep_view().blocked.contains(link) <==> start.blocked.contains(link)
                        || link.first != link.second && (link.first == node && listed.take(
                        i as int,
                    ).contains(link.second) || link.second == node && listed.take(
                        i as int,
                    ).contains(link.first)),
            decreases count - i,
        {
            let peer = *voters.member_at(i);
            if peer != node {
                self.state.blocked.insert(Pair { first: node, second: peer });
                self.state.blocked.insert(Pair { first: peer, second: node });
            }
            proof {
                let fewer = listed.take(i as int);
                let more = listed.take(i + 1);
                assert(more =~= fewer.push(peer));
                assert forall|other: NodeId| more.contains(other) <==> (fewer.contains(other)
                    || other == peer) by {
                    if fewer.contains(other) {
                        let k = fewer.index_of(other);
                        assert(more[k] == other);
                    }
                    assert(more[i as int] == peer);
                }
            }
            i = i + 1;
        }
        proof {
            assert(listed.take(i as int) =~= listed);
            assert forall|other: NodeId| listed.contains(other)
                <==> start.configuration.voters().contains(other) by {
                assert(voters.deep_view().contains(other) <==> listed.contains(other));
            }
        }
    }

    /// Lets all messages through again.
    pub fn heal(&mut self)
        ensures
            final(self).deep_view() == (SimView {
                blocked: Set::empty(),
                ..old(self).deep_view()
            }).recorded(at_time(old(self).deep_view().now, " heal-all"@)),
    {
        self.state.blocked = OrdSet::new();
        self.state.record(time_text(self.state.now, " heal-all"));
    }

    /// Loses all messages under way.
    pub fn discard_queued_messages(&mut self)
        ensures
            final(self).deep_view() == (SimView {
                messages: Seq::empty(),
                queued_bytes: 0,
                ..old(self).deep_view()
            }).recorded(at_time(old(self).deep_view().now, " discard-network"@)),
    {
        self.state.messages = Vec::new();
        assert(self.state.messages.deep_view() =~= Seq::empty());
        self.state.queued_bytes = 0;
        self.state.record(time_text(self.state.now, " discard-network"));
    }

    /// Checks the safety properties of the group.
    pub fn assert_invariants(&self) -> (result: Result<(), SimError>)
        ensures
            result is Ok == self.deep_view().safe(),
            result is Ok == (self.deep_view().violation() is None),
            result matches Err(error) ==> self.deep_view().violated(
                self.deep_view().violation()->0,
            ) == self.deep_view().stopped(error.deep_view()),
    {
        self.state.assert_invariants()
    }

    fn deliver_one(&mut self) -> (result: Result<bool, SimError>)
        requires
            old(self).deep_view().has_time(0),
        ensures
            same_setting(old(self).deep_view(), final(self).deep_view()),
            exists|arrived: bool| #[trigger]
                old(self).deep_view().may_deliver(
                    flow_of(final(self).deep_view(), result),
                    arrived,
                ) && (result matches Ok(found) ==> found == arrived),
            result == Ok::<bool, SimError>(false) ==> final(self).deep_view() == old(
                self,
            ).deep_view(),
            result == Ok::<bool, SimError>(true) ==> final(self).deep_view().safe(),
    {
        let ghost start = self.deep_view();
        let count: usize = self.state.messages.len();
        if count == 0 {
            proof {
                assert(start.messages.len() == 0);
                start.delivers(Seq::empty(), start.going(), false);
            }
            return Ok(false);
        }
        let attempts: usize = if count < DELIVERY_ATTEMPTS {
            count
        } else {
            DELIVERY_ATTEMPTS
        };
        let ghost mut positions: Seq<usize> = Seq::empty();
        let mut selected: Option<usize> = None;
        let mut tried: usize = 0;
        while tried < attempts && selected.is_none()
            invariant
                tried <= attempts,
                count > 0,
                count == self.state.messages@.len(),
                start == old(self).deep_view(),
                self.state == old(self).state,
                positions.len() == tried,
                forall|i: int| 0 <= i < positions.len() ==> #[trigger] positions[i] < count,
                match selected {
                    None => forall|i: int|
                        0 <= i < positions.len() ==> !start.deliverable(
                            start.messages[(#[trigger] positions[i]) as int],
                        ),
                    Some(position) => position < count && start.selected(positions, 0) == Some(
                        position,
                    ),
                },
            decreases attempts - tried,
        {
            let position: usize = position_below(&mut self.rng, count);
            proof {
                positions = positions.push(position);
            }
            if self.state.can_deliver(position) {
                selected = Some(position);
                proof {
                    start.last_is_selected(positions, 0);
                }
            }
            tried = tried + 1;
        }
        proof {
            let rest = Seq::new((attempts - tried) as nat, |i: int| 0usize);
            let all = positions + rest;
            match selected {
                None => {
                    start.none_is_selected(positions, 0);
                    assert(all =~= positions);
                },
                Some(_) => {
                    start.selected_early(positions, all, 0);
                },
            }
            positions = all;
        }
        assert(start.positions_fit(positions));
        match selected {
            None => {
                proof {
                    start.delivers(positions, start.going(), false);
                }
                Ok(false)
            },
            Some(position) => {
                let (to, input) = self.state.take_message(position);
                let given = self.input(to, input);
                proof {
                    start.delivers(positions, flow(self.deep_view(), given), true);
                }
                match given {
                    Ok(_) => Ok(true),
                    Err(error) => Err(error),
                }
            },
        }
    }

    fn tick_elections(&mut self, ids: &Vec<NodeId>) -> (result: Result<(), SimError>)
        requires
            old(self).deep_view().has_time(0),
        ensures
            same_setting(old(self).deep_view(), final(self).deep_view()),
            old(self).deep_view().may_tick_elections(
                ids@,
                ids@.len() as int,
                flow(final(self).deep_view(), result),
            ),
    {
        let ghost start = self.deep_view();
        let mut i: usize = 0;
        while i < ids.len()
            invariant
                i <= ids@.len(),
                start == old(self).deep_view(),
                start.has_time(0),
                same_setting(start, self.deep_view()),
                start.may_tick_elections(ids@, i as int, self.deep_view().going()),
            decreases ids@.len() - i,
        {
            let id = ids[i];
            let ghost before = self.deep_view();
            if !self.state.leads(id) && self.state.due(id, &self.state.election_deadline) {
                let given = self.input(id, Input::Tick(Tick::Election));
                let ghost done = flow(self.deep_view(), given);
                proof {
                    before.stands(id, done);
                    assert(before.going().stands_next(ids@[i as int], done));
                    start.elections_go_on(ids@, i + 1, before.going(), done);
                }
                if let Err(error) = given {
                    proof {
                        start.elections_stop(ids@, i + 1, ids@.len() as int, done);
                    }
                    return Err(error);
                }
            } else {
                proof {
                    before.stands(id, before.going());
                    assert(before.going().stands_next(ids@[i as int], before.going()));
                    start.elections_go_on(ids@, i + 1, before.going(), before.going());
                }
            }
            i = i + 1;
        }
        Ok(())
    }

    /// Fires the timers of a node that leads.
    fn tick_leader(&mut self, id: NodeId) -> (result: Result<(), SimError>)
        requires
            old(self).deep_view().has_time(0),
        ensures
            same_setting(old(self).deep_view(), final(self).deep_view()),
            old(self).deep_view().may_tick_leader(id, flow(final(self).deep_view(), result)),
    {
        let ghost start = self.deep_view();
        if self.state.leads(id) && self.state.due(id, &self.state.heartbeat_deadline) {
            let given = self.input(id, Input::Tick(Tick::Heartbeat));
            assert(start.may_beat(id, flow(self.deep_view(), given)));
            if let Err(error) = given {
                proof {
                    let done = flow(self.deep_view(), given);
                    start.ticks_leader(id, done, done);
                }
                return Err(error);
            }
        }
        let ghost beaten = self.deep_view();
        assert(start.may_beat(id, beaten.going()));
        let result = if self.state.leads(id) && self.state.due(id, &self.state.quorum_deadline) {
            self.state.quorum_deadline.insert(id, self.state.now + CHECK_QUORUM_TICKS);
            self.input(id, Input::Tick(Tick::CheckQuorum))
        } else {
            Ok(())
        };
        proof {
            let done = flow(self.deep_view(), result);
            assert(beaten.may_check(id, done));
            start.ticks_leader(id, beaten.going(), done);
        }
        result
    }

    fn tick_leaders(&mut self, ids: &Vec<NodeId>) -> (result: Result<(), SimError>)
        requires
            old(self).deep_view().has_time(0),
        ensures
            same_setting(old(self).deep_view(), final(self).deep_view()),
            old(self).deep_view().may_tick_leaders(
                ids@,
                ids@.len() as int,
                flow(final(self).deep_view(), result),
            ),
    {
        let ghost start = self.deep_view();
        let mut i: usize = 0;
        while i < ids.len()
            invariant
                i <= ids@.len(),
                start == old(self).deep_view(),
                start.has_time(0),
                same_setting(start, self.deep_view()),
                start.may_tick_leaders(ids@, i as int, self.deep_view().going()),
            decreases ids@.len() - i,
        {
            let ghost before = self.deep_view();
            let given = self.tick_leader(ids[i]);
            let ghost done = flow(self.deep_view(), given);
            assert(before.going().leads_next(ids@[i as int], done));
            proof {
                start.leaders_go_on(ids@, i + 1, before.going(), done);
            }
            if let Err(error) = given {
                proof {
                    start.leaders_stop(ids@, i + 1, ids@.len() as int, done);
                }
                return Err(error);
            }
            i = i + 1;
        }
        Ok(())
    }

    fn live_ids(&self) -> (ids: Vec<NodeId>)
        ensures
            ids@ == ordered::<NodeId>(self.deep_view().nodes.dom()),
    {
        let count: usize = self.state.nodes.len();
        let mut ids: Vec<NodeId> = Vec::new();
        while ids.len() < count
            invariant
                ids@.len() <= count,
                count == self.state.nodes.keys().len(),
                ids@ == self.state.nodes.keys().take(ids@.len() as int),
            decreases count - ids@.len(),
        {
            let i: usize = ids.len();
            ids.push(*self.state.nodes.key_at(i));
            assert(ids@ =~= self.state.nodes.keys().take(i + 1));
        }
        assert(ids@ =~= self.state.nodes.keys());
        ids
    }

    /// Delivers messages until none is found or enough have arrived.
    fn deliver_some(&mut self) -> (result: Result<(), SimError>)
        requires
            old(self).deep_view().has_time(0),
        ensures
            same_setting(old(self).deep_view(), final(self).deep_view()),
            exists|more: bool| #[trigger]
                old(self).deep_view().may_deliver_up_to(
                    DELIVERIES_PER_TICK as int,
                    flow(final(self).deep_view(), result),
                    more,
                ),
    {
        let ghost start = self.deep_view();
        let mut delivered: usize = 0;
        while delivered < DELIVERIES_PER_TICK
            invariant
                delivered <= DELIVERIES_PER_TICK,
                start == old(self).deep_view(),
                start.has_time(0),
                same_setting(start, self.deep_view()),
                start.may_deliver_up_to(delivered as int, self.deep_view().going(), true),
            decreases DELIVERIES_PER_TICK - delivered,
        {
            let ghost before = self.deep_view();
            let given = self.deliver_one();
            let ghost done = flow_of(self.deep_view(), given);
            match given {
                Ok(true) => {
                    assert(before.going().delivers_next(true, done, true));
                    assert(start.may_deliver_up_to(delivered + 1, done, true));
                },
                Ok(false) => {
                    proof {
                        assert(before.going().delivers_next(true, done, false));
                        assert(start.may_deliver_up_to(delivered + 1, done, false));
                        start.deliveries_stop(delivered + 1, DELIVERIES_PER_TICK as int, done);
                    }
                    return Ok(());
                },
                Err(error) => {
                    proof {
                        assert(before.going().delivers_next(true, done, false));
                        assert(start.may_deliver_up_to(delivered + 1, done, false));
                        start.deliveries_stop(delivered + 1, DELIVERIES_PER_TICK as int, done);
                    }
                    return Err(error);
                },
            }
            delivered = delivered + 1;
        }
        Ok(())
    }

    /// Lets time go on: timers that are due fire, then up to four messages
    /// that are due arrive.
    pub fn advance(&mut self) -> (result: Result<(), SimError>)
        requires
            old(self).deep_view().has_time(1),
        ensures
            old(self).deep_view().may_advance(flow(final(self).deep_view(), result)),
            old(self).deep_view().step_number < old(self).deep_view().step_budget ==> same_setting(
                old(self).deep_view().ticked(),
                final(self).deep_view(),
            ),
            result is Ok ==> old(self).deep_view().step_number < old(
                self,
            ).deep_view().step_budget && final(self).deep_view().safe(),
    {
        let ghost start = self.deep_view();
        if self.state.step_number >= self.state.step_budget {
            let error = SimError::StepBudget {
                seed: self.state.seed,
                budget: self.state.step_budget,
            };
            proof {
                start.spends_all(flow(start, Err(error)));
            }
            return Err(error);
        }
        self.state.now = self.state.now + 1;
        self.state.step_number = self.state.step_number + 1;
        let ghost ticked = self.deep_view();
        assert(ticked == start.ticked());
        let ids = self.live_ids();
        let stood = self.tick_elections(&ids);
        let ghost standing = self.deep_view();
        assert(ticked.may_tick_elections(ids@, ids@.len() as int, flow(standing, stood)));
        if let Err(error) = stood {
            proof {
                start.advances(flow(standing, stood), flow(standing, stood));
            }
            return Err(error);
        }
        let led = self.tick_leaders(&ids);
        let ghost leading = self.deep_view();
        assert(standing.may_tick_leaders(ids@, ids@.len() as int, flow(leading, led)));
        if let Err(error) = led {
            proof {
                assert(standing.may_lead_and_deliver(ids@, flow(leading, led)));
                start.advances(standing.going(), flow(leading, led));
            }
            return Err(error);
        }
        let given = self.deliver_some();
        let ghost delivered = self.deep_view();
        if let Err(error) = given {
            proof {
                assert(leading.may_deliver_and_check(flow(delivered, given)));
                assert(standing.may_lead_and_deliver(ids@, flow(delivered, given)));
                start.advances(standing.going(), flow(delivered, given));
            }
            return Err(error);
        }
        let result = self.state.assert_invariants();
        proof {
            assert(flow(delivered, result) == delivered.checked());
            assert(leading.may_deliver_and_check(flow(delivered, result)));
            assert(standing.may_lead_and_deliver(ids@, flow(delivered, result)));
            start.advances(standing.going(), flow(delivered, result));
        }
        result
    }

    /// Lets time go on for a while.
    pub fn run(&mut self, ticks: usize) -> (result: Result<(), SimError>)
        requires
            old(self).deep_view().has_time(ticks as int),
        ensures
            old(self).deep_view().may_run(ticks as int, flow(final(self).deep_view(), result)),
            ticks == 0 ==> result is Ok && final(self).deep_view() == old(self).deep_view(),
            result is Ok ==> same_setting(
                (SimView {
                    now: (old(self).deep_view().now + ticks) as u64,
                    step_number: (old(self).deep_view().step_number + ticks) as u64,
                    ..old(self).deep_view()
                }),
                final(self).deep_view(),
            ) && (ticks > 0 ==> final(self).deep_view().safe()),
    {
        let ghost start = self.deep_view();
        let mut i: usize = 0;
        while i < ticks
            invariant
                i <= ticks,
                start == old(self).deep_view(),
                start.has_time(ticks as int),
                start.may_run(i as int, self.deep_view().going()),
                i == 0 ==> self.deep_view() == start,
                same_setting(
                    (SimView {
                        now: (start.now + i) as u64,
                        step_number: (start.step_number + i) as u64,
                        ..start
                    }),
                    self.deep_view(),
                ),
                start.step_number + i <= u64::MAX,
                i > 0 ==> self.deep_view().safe(),
            decreases ticks - i,
        {
            let ghost before = self.deep_view();
            let given = self.advance();
            let ghost done = flow(self.deep_view(), given);
            assert(before.going().advances_next(done));
            assert(start.may_run(i + 1, done));
            if let Err(error) = given {
                proof {
                    start.run_stops(i + 1, ticks as int, done);
                }
                return Err(error);
            }
            i = i + 1;
        }
        Ok(())
    }

    /// Lets time go on until exactly one node leads.
    pub fn run_until_leader(&mut self, max_ticks: usize) -> (result: Result<
        Option<(NodeId, u64)>,
        SimError,
    >)
        requires
            old(self).deep_view().has_time(max_ticks as int),
        ensures
            exists|ticks: int|
                {
                    &&& 0 <= ticks <= max_ticks
                    &&& #[trigger] old(self).deep_view().may_wait(
                        ticks,
                        flow_of(final(self).deep_view(), result),
                    )
                    &&& result matches Ok(Some(leader)) ==> ticks < max_ticks
                        && final(self).deep_view().leaders() == seq![leader]
                    &&& result matches Ok(None) ==> ticks == max_ticks
                },
            max_ticks == 0 ==> (result matches Ok(found) && found is None)
                && final(self).deep_view() == old(self).deep_view(),
            max_ticks > 0 && old(self).deep_view().leaders().len() == 1 ==> (result matches Ok(
                Some(leader),
            ) && leader == old(self).deep_view().leaders()[0]) && final(self).deep_view() == old(
                self,
            ).deep_view(),
            result is Ok ==> final(self).deep_view().now <= old(self).deep_view().now + max_ticks,
            result matches Ok(None) ==> final(self).deep_view().now == old(self).deep_view().now
                + max_ticks,
    {
        let ghost start = self.deep_view();
        let mut i: usize = 0;
        while i < max_ticks
            invariant
                i <= max_ticks,
                start == old(self).deep_view(),
                start.has_time(max_ticks as int),
                start.may_wait(i as int, self.deep_view().going()),
                i == 0 ==> self.deep_view() == start,
                i > 0 ==> start.leaders().len() != 1,
                self.deep_view().now == start.now + i,
                self.deep_view().profile == start.profile,
            decreases max_ticks - i,
        {
            let leaders = self.leaders();
            let ghost before = self.deep_view();
            if leaders.len() == 1 {
                let leader = leaders[0];
                assert(leaders@ =~= seq![leader]);
                assert(start.may_wait(i as int, before.going()));
                return Ok(Some(leader));
            }
            let given = self.advance();
            let ghost done = flow(self.deep_view(), given);
            assert(before.going().waits_next(done));
            assert(start.may_wait(i + 1, done));
            if let Err(error) = given {
                return Err(error);
            }
            i = i + 1;
        }
        assert(start.may_wait(i as int, self.deep_view().going()));
        Ok(None)
    }

    /// One move of the chaos workload.
    fn perturb(&mut self, voters: &Vec<NodeId>, tick: usize, command_id: CommandId) -> (result: Result<
        bool,
        SimError,
    >)
        requires
            old(self).deep_view().has_time(0),
            voters@.len() > 0,
        ensures
            exists|proposed: bool| #[trigger]
                old(self).deep_view().may_perturb(
                    voters@,
                    tick as u64,
                    command_id,
                    flow_of(final(self).deep_view(), result),
                    proposed,
                ) && (result matches Ok(given) ==> given == proposed),
            result is Ok ==> {
                &&& final(self).deep_view().now == old(self).deep_view().now
                &&& final(self).deep_view().profile == old(self).deep_view().profile
                &&& final(self).deep_view().configuration == old(self).deep_view().configuration
            },
    {
        let ghost start = self.deep_view();
        let choice: u64 = byte_below(&mut self.rng, 100) as u64;
        let first_position: usize = if choice <= 11 {
            position_below(&mut self.rng, voters.len())
        } else {
            0
        };
        let second_position: usize = if 7 <= choice && choice <= 11 {
            position_below(&mut self.rng, voters.len())
        } else {
            0
        };
        let first = voters[first_position];
        let second = voters[second_position];
        let leaders = self.leaders();
        let leader = if leaders.len() > 0 {
            Some(leaders[0].0)
        } else {
            None
        };
        let live: usize = self.state.nodes.len();
        let first_lives = self.state.nodes.contains_key(&first);
        let picked = pick_chaos_move(
            choice,
            first,
            second,
            live,
            voters.len(),
            first_lives,
            leader,
        );
        assert(picked == start.chaos_move_for(
            voters@,
            choice,
            first_position as int,
            second_position as int,
        ));
        let moved = match picked {
            ChaosMove::Crash(node) => self.crash(node),
            ChaosMove::Restart(node) => self.restart(node),
            ChaosMove::Partition(from, to) => {
                self.partition(from, to);
                Ok(())
            },
            ChaosMove::Heal => {
                self.heal();
                Ok(())
            },
            ChaosMove::Propose(node) => {
                let mut command: Vec<u8> = Vec::new();
                put_le(&mut command, tick as u64, 8);
                assert(command@ =~= le_bytes(tick as nat, 8));
                self.propose(node, command_id, command)
            },
            ChaosMove::Nothing => Ok(()),
        };
        let proposed = match picked {
            ChaosMove::Propose(_) => true,
            _ => false,
        };
        proof {
            let done = flow(self.deep_view(), moved);
            assert(start.may_move(picked, tick as u64, command_id, done));
            start.perturbs(
                voters@,
                choice,
                first_position as int,
                second_position as int,
                tick as u64,
                command_id,
                done,
            );
        }
        match moved {
            Ok(_) => Ok(proposed),
            Err(error) => Err(error),
        }
    }

    /// Perturbs links and nodes for a while, proposes commands wherever a
    /// leader is seen, then heals everything and lets the group settle.
    pub fn run_chaos(&mut self, ticks: usize) -> (result: Result<(), SimError>)
        requires
            old(self).deep_view().has_time(ticks + 80),
        ensures
            old(self).deep_view().may_survive(
                ticks as int,
                80,
                flow(final(self).deep_view(), result),
            ),
            result is Ok ==> {
                &&& final(self).deep_view().safe()
                &&& final(self).deep_view().now == old(self).deep_view().now + ticks + 80
                &&& final(self).deep_view().blocked == Set::<Pair>::empty()
                &&& final(self).deep_view().configuration == old(self).deep_view().configuration
                &&& final(self).deep_view().configuration.voters().subset_of(
                    final(self).deep_view().nodes.dom(),
                )
            },
    {
        let ghost start = self.deep_view();
        let set = self.state.configuration.voters().duplicate();
        let count: usize = set.len();
        let ghost listed = set.listed();
        let mut voters: Vec<NodeId> = Vec::new();
        while voters.len() < count
            invariant
                voters@.len() <= count,
                count == listed.len(),
                listed == set.listed(),
                voters@ == listed.take(voters@.len() as int),
            decreases count - voters@.len(),
        {
            let i: usize = voters.len();
            voters.push(*set.member_at(i));
            assert(voters@ =~= listed.take(i + 1));
        }
        assert(voters@ =~= listed);
        proof {
            crate::ordmap::listing_is_unique::<NodeId>(
                listed,
                ordered::<NodeId>(start.configuration.voters()),
                start.configuration.voters(),
            );
            let member = start.configuration.incoming.choose();
            assert(start.configuration.incoming.contains(member));
            assert(set.deep_view().contains(member));
            assert(listed.contains(member));
        }
        let mut command_id: CommandId = 1;
        let mut tick: usize = 0;
        while tick < ticks
            invariant
                tick <= ticks,
                voters@.len() > 0,
                start.has_time(ticks + 80),
                self.deep_view().now == start.now + tick,
                self.deep_view().profile == start.profile,
                self.deep_view().configuration == start.configuration,
                start == old(self).deep_view(),
                voters@ == ordered::<NodeId>(start.configuration.voters()),
                start.may_suffer(voters@, tick as int, self.deep_view().going(), command_id),
                command_id <= 1 + tick,
            decreases ticks - tick,
        {
            let ghost before = self.deep_view();
            let ghost id = command_id;
            let given = self.perturb(&voters, tick, command_id);
            let ghost moved = flow_of(self.deep_view(), given);
            match given {
                Ok(true) => {
                    command_id = command_id + 1;
                },
                Ok(false) => {},
                Err(error) => {
                    proof {
                        let proposed = choose|proposed: bool| #[trigger]
                            before.may_perturb(voters@, tick as u64, id, moved, proposed);
                        let next: CommandId = (if proposed {
                            id + 1
                        } else {
                            id as int
                        }) as CommandId;
                        before.suffers_tick(
                            voters@,
                            tick as u64,
                            id,
                            moved,
                            proposed,
                            moved,
                            next,
                        );
                        assert(before.going().suffers_next(
                            voters@,
                            tick as u64,
                            id,
                            moved,
                            next,
                        ));
                        start.suffering_goes_on(voters@, tick + 1, before.going(), id, moved, next);
                        start.suffering_stops(voters@, tick + 1, ticks as int, moved, next);
                    }
                    return Err(error);
                },
            }
            let advanced = self.advance();
            let ghost done = flow(self.deep_view(), advanced);
            proof {
                before.suffers_tick(
                    voters@,
                    tick as u64,
                    id,
                    moved,
                    command_id == id + 1,
                    done,
                    command_id,
                );
                assert(before.going().suffers_next(voters@, tick as u64, id, done, command_id));
                start.suffering_goes_on(
                    voters@,
                    tick + 1,
                    before.going(),
                    id,
                    done,
                    command_id,
                );
            }
            if let Err(error) = advanced {
                proof {
                    start.suffering_stops(voters@, tick + 1, ticks as int, done, command_id);
                }
                return Err(error);
            }
            tick = tick + 1;
        }
        let ghost suffered = self.deep_view();
        assert(start.may_suffer(voters@, ticks as int, suffered.going(), command_id));
        self.heal();
        let ghost opened = self.deep_view();
        assert(opened == suffered.healed());
        let mut i: usize = 0;
        while i < voters.len()
            invariant
                i <= voters@.len(),
                voters@ == listed,
                opened.may_restart_all(voters@, i as int, self.deep_view().going()),
                start == old(self).deep_view(),
                opened == suffered.healed(),
                voters@ == ordered::<NodeId>(start.configuration.voters()),
                start.may_suffer(voters@, ticks as int, suffered.going(), command_id),
                start.has_time(ticks + 80),
                self.deep_view().now == start.now + ticks,
                self.deep_view().profile == start.profile,
                self.deep_view().configuration == start.configuration,
                self.deep_view().blocked == Set::<Pair>::empty(),
                forall|k: int|
                    0 <= k < i ==> self.deep_view().nodes.contains_key(#[trigger] voters@[k]),
            decreases voters@.len() - i,
        {
            let node = voters[i];
            let ghost before = self.deep_view();
            if !self.state.nodes.contains_key(&node) {
                let restarted = self.restart(node);
                let ghost done = flow(self.deep_view(), restarted);
                proof {
                    assert(before.going().restarts_next(voters@[i as int], done));
                    opened.restarting_goes_on(voters@, i + 1, before.going(), done);
                }
                if let Err(error) = restarted {
                    proof {
                        opened.restarting_stops(voters@, i + 1, voters@.len() as int, done);
                        assert(opened.may_settle(voters@, 80, done));
                    }
                    return Err(error);
                }
            } else {
                assert(before.going().restarts_next(voters@[i as int], before.going()));
                proof {
                    opened.restarting_goes_on(voters@, i + 1, before.going(), before.going());
                }
            }
            i = i + 1;
        }
        let ghost healed = self.deep_view();
        let result = self.run(80);
        assert(opened.may_settle(voters@, 80, flow(self.deep_view(), result)));
        proof {
            assert forall|node: NodeId| start.configuration.voters().contains(
                node,
            ) implies healed.nodes.dom().contains(node) by {
                assert(listed.contains(node));
                let k = listed.index_of(node);
                assert(healed.nodes.contains_key(voters@[k]));
            }
        }
        result
    }
}

/// A node can start from an empty disk.
proof fn blank_recovers(id: NodeId, configuration: ConfigurationView)
    requires
        configuration.voters().contains(id),
    ensures
        recovery_problem(id, configuration, SimDiskView::blank().stable) is None,
        fits_machine(SimDiskView::blank()),
{
}

} // verus!
