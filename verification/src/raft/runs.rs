//! What a simulated group may come to, whatever chance picks.

use vstd::prelude::*;
use crate::ordmap::ordered;
use crate::raft::cluster::{
    CHECK_QUORUM_TICKS, Draw, ELECTION_MAX_TICKS, ELECTION_MIN_TICKS, Flow, SimErrorKind,
    SimView, at_time,
};
use crate::raft::simulator::{ChaosMove, chaos_move};
use crate::raft::types::{CommandId, InputView, Role, Tick};
use crate::types::NodeId;
use crate::wire::le_bytes;

verus! {

/// Positions that are tried for one delivery.
pub const DELIVERY_ATTEMPTS: usize = 96;

/// Messages that arrive in one tick at most.
pub const DELIVERIES_PER_TICK: usize = 4;

impl SimView {
    /// Giving a node an event may come to this, for draws that the profile allows.
    #[verifier::opaque]
    pub open spec fn may_give(self, node: NodeId, input: InputView, done: Flow) -> bool {
        exists|draws: Seq<Draw>| #[trigger]
            self.draws_fit(node, input, draws) && done == self.given(node, input, draws)
    }

    pub open spec fn leads(self, node: NodeId) -> bool {
        self.nodes.contains_key(node) && self.nodes[node].role == Role::Leader
    }

    /// The election timer of a node that does not lead fires where it is due.
    #[verifier::opaque]
    pub open spec fn may_stand(self, node: NodeId, done: Flow) -> bool {
        if !self.leads(node) && self.election_deadline.contains_key(node)
            && self.election_deadline[node] <= self.now {
            self.may_give(node, InputView::Tick(Tick::Election), done)
        } else {
            done == self.going()
        }
    }

    /// The heartbeat timer of a leader fires where it is due.
    pub open spec fn may_beat(self, node: NodeId, done: Flow) -> bool {
        if self.leads(node) && self.heartbeat_deadline.contains_key(node)
            && self.heartbeat_deadline[node] <= self.now {
            self.may_give(node, InputView::Tick(Tick::Heartbeat), done)
        } else {
            done == self.going()
        }
    }

    /// A leader looks for its quorum where that is due.
    pub open spec fn may_check(self, node: NodeId, done: Flow) -> bool {
        if self.leads(node) && self.quorum_deadline.contains_key(node)
            && self.quorum_deadline[node] <= self.now {
            (SimView {
                quorum_deadline: self.quorum_deadline.insert(
                    node,
                    (self.now + CHECK_QUORUM_TICKS) as u64,
                ),
                ..self
            }).may_give(node, InputView::Tick(Tick::CheckQuorum), done)
        } else {
            done == self.going()
        }
    }

    /// The election timers of the first `n` nodes of a list, in order.
    pub open spec fn may_tick_elections(self, ids: Seq<NodeId>, n: int, done: Flow) -> bool
        decreases n,
    {
        if n <= 0 {
            done == self.going()
        } else {
            exists|before: Flow|
                self.may_tick_elections(ids, n - 1, before) && #[trigger] before.stands_next(
                    ids[n - 1],
                    done,
                )
        }
    }

    /// The timers of a leader, one after the other.
    #[verifier::opaque]
    pub open spec fn may_tick_leader(self, node: NodeId, done: Flow) -> bool {
        exists|beaten: Flow| #[trigger]
            self.may_beat(node, beaten) && if beaten.error is Some {
                done == beaten
            } else {
                beaten.state.may_check(node, done)
            }
    }

    /// The timers of the leaders among the first `n` nodes of a list, in order.
    pub open spec fn may_tick_leaders(self, ids: Seq<NodeId>, n: int, done: Flow) -> bool
        decreases n,
    {
        if n <= 0 {
            done == self.going()
        } else {
            exists|before: Flow|
                self.may_tick_leaders(ids, n - 1, before) && #[trigger] before.leads_next(
                    ids[n - 1],
                    done,
                )
        }
    }

    /// Positions that chance may pick to look for a message at.
    pub open spec fn positions_fit(self, positions: Seq<usize>) -> bool {
        &&& positions.len() == if self.messages.len() < DELIVERY_ATTEMPTS {
            self.messages.len()
        } else {
            DELIVERY_ATTEMPTS as nat
        }
        &&& forall|i: int|
            0 <= i < positions.len() ==> #[trigger] positions[i] < self.messages.len()
    }

    /// The message at one of the positions arrives, or none of them can.
    pub open spec fn may_deliver_at(self, positions: Seq<usize>, done: Flow, arrived: bool) -> bool {
        match self.selected(positions, 0) {
            None => done == self.going() && !arrived,
            Some(position) => {
                let envelope = self.messages[position as int];
                arrived && self.without_message(position as int).may_give(
                    envelope.to,
                    InputView::Message { from: envelope.from, message: envelope.message },
                    done,
                )
            },
        }
    }

    /// One message may arrive.
    #[verifier::opaque]
    pub open spec fn may_deliver(self, done: Flow, arrived: bool) -> bool {
        exists|positions: Seq<usize>| #[trigger]
            self.positions_fit(positions) && self.may_deliver_at(positions, done, arrived)
    }

    /// Up to `n` messages arrive. Nothing is looked for any more once no message
    /// was found, or an error stopped the group.
    pub open spec fn may_deliver_up_to(self, n: int, done: Flow, more: bool) -> bool
        decreases n,
    {
        if n <= 0 {
            done == self.going() && more
        } else {
            exists|before: Flow, looking: bool|
                self.may_deliver_up_to(n - 1, before, looking) && #[trigger] before.delivers_next(
                    looking,
                    done,
                    more,
                )
        }
    }

    /// One tick of time.
    pub open spec fn ticked(self) -> SimView {
        SimView {
            now: (self.now + 1) as u64,
            step_number: (self.step_number + 1) as u64,
            ..self
        }
    }

    /// A tick: the elections that are due in the order of the nodes, then the
    /// timers of leaders, then at most four messages, then the safety check.
    #[verifier::opaque]
    pub open spec fn may_advance(self, done: Flow) -> bool {
        if self.step_number >= self.step_budget {
            done == self.stopped(
                SimErrorKind::StepBudget { seed: self.seed, budget: self.step_budget },
            )
        } else {
            let ids = ordered::<NodeId>(self.nodes.dom());
            exists|stood: Flow| #[trigger]
                self.ticked().may_tick_elections(ids, ids.len() as int, stood) && if stood.error
                    is Some {
                    done == stood
                } else {
                    stood.state.may_lead_and_deliver(ids, done)
                }
        }
    }

    /// The part of a tick after the elections.
    pub open spec fn may_lead_and_deliver(self, ids: Seq<NodeId>, done: Flow) -> bool {
        exists|led: Flow| #[trigger]
            self.may_tick_leaders(ids, ids.len() as int, led) && if led.error is Some {
                done == led
            } else {
                led.state.may_deliver_and_check(done)
            }
    }

    /// The part of a tick after the timers.
    pub open spec fn may_deliver_and_check(self, done: Flow) -> bool {
        exists|delivered: Flow, more: bool| #[trigger]
            self.may_deliver_up_to(DELIVERIES_PER_TICK as int, delivered, more) && if delivered.error
                is Some {
                done == delivered
            } else {
                done == delivered.state.checked()
            }
    }

    /// A number of ticks; the first error ends them.
    pub open spec fn may_run(self, ticks: int, done: Flow) -> bool
        decreases ticks,
    {
        if ticks <= 0 {
            done == self.going()
        } else {
            exists|before: Flow|
                self.may_run(ticks - 1, before) && #[trigger] before.advances_next(done)
        }
    }

    /// A number of ticks before each of which not exactly one node led.
    pub open spec fn may_wait(self, ticks: int, done: Flow) -> bool
        decreases ticks,
    {
        if ticks <= 0 {
            done == self.going()
        } else {
            exists|before: Flow|
                self.may_wait(ticks - 1, before) && #[trigger] before.waits_next(done)
        }
    }

    /// All links are open again.
    pub open spec fn healed(self) -> SimView {
        SimView { blocked: Set::empty(), ..self }.recorded(at_time(self.now, " heal-all"@))
    }

    /// A node starts again, with a deadline that chance picks.
    #[verifier::opaque]
    pub open spec fn may_restart(self, node: NodeId, done: Flow) -> bool {
        exists|deadline: u64|
            ELECTION_MIN_TICKS <= deadline <= ELECTION_MAX_TICKS && done == #[trigger] self.restarted(
                node,
                deadline,
            )
    }

    /// A move of the chaos workload is made. The command that is proposed is the
    /// number of the tick.
    pub open spec fn may_move(self, picked: ChaosMove, tick: u64, id: CommandId, done: Flow) -> bool {
        match picked {
            ChaosMove::Crash(node) => done == self.crashed(node),
            ChaosMove::Restart(node) => self.may_restart(node, done),
            ChaosMove::Partition(from, to) => done == self.partitioned(from, to).going(),
            ChaosMove::Heal => done == self.healed().going(),
            ChaosMove::Propose(node) => self.may_give(
                node,
                InputView::Propose { id, command: le_bytes(tick as nat, 8) },
                done,
            ),
            ChaosMove::Nothing => done == self.going(),
        }
    }

    /// The move for what chance picks.
    pub open spec fn chaos_move_for(self, voters: Seq<NodeId>, choice: u64, first: int, second: int) -> ChaosMove {
        chaos_move(
            choice,
            voters[first],
            voters[second],
            self.nodes.dom().len(),
            voters.len(),
            self.nodes.contains_key(voters[first]),
            if self.leaders().len() > 0 {
                Some(self.leaders()[0].0)
            } else {
                None
            },
        )
    }

    /// One move of the chaos workload, and whether a command was proposed.
    #[verifier::opaque]
    pub open spec fn may_perturb(
        self,
        voters: Seq<NodeId>,
        tick: u64,
        id: CommandId,
        done: Flow,
        proposed: bool,
    ) -> bool {
        exists|choice: u64, first: int, second: int|
            {
                let picked = #[trigger] self.chaos_move_for(voters, choice, first, second);
                &&& choice <= 99
                &&& 0 <= first < voters.len()
                &&& 0 <= second < voters.len()
                &&& self.may_move(picked, tick, id, done)
                &&& proposed == (picked is Propose)
            }
    }

    /// A number of ticks of chaos, and the id of the next command.
    pub open spec fn may_suffer(self, voters: Seq<NodeId>, ticks: int, done: Flow, next: CommandId) -> bool
        decreases ticks,
    {
        if ticks <= 0 {
            done == self.going() && next == 1
        } else {
            exists|before: Flow, id: CommandId|
                self.may_suffer(voters, ticks - 1, before, id) && #[trigger] before.suffers_next(
                    voters,
                    (ticks - 1) as u64,
                    id,
                    done,
                    next,
                )
        }
    }

    /// One tick of chaos: a move, then time goes on.
    #[verifier::opaque]
    pub open spec fn may_suffer_tick(
        self,
        voters: Seq<NodeId>,
        tick: u64,
        id: CommandId,
        done: Flow,
        next: CommandId,
    ) -> bool {
        exists|moved: Flow, proposed: bool| #[trigger]
            self.may_perturb(voters, tick, id, moved, proposed) && next == (if proposed {
                id + 1
            } else {
                id as int
            }) && if moved.error is Some {
                done == moved
            } else {
                moved.state.may_advance(done)
            }
    }

    /// Those of the first `n` voters that are down start again, in order.
    pub open spec fn may_restart_all(self, voters: Seq<NodeId>, n: int, done: Flow) -> bool
        decreases n,
    {
        if n <= 0 {
            done == self.going()
        } else {
            exists|before: Flow|
                self.may_restart_all(voters, n - 1, before) && #[trigger] before.restarts_next(
                    voters[n - 1],
                    done,
                )
        }
    }

    /// The chaos workload: perturbed ticks, then everything is healed and started
    /// again, and the group settles.
    pub open spec fn may_survive(self, ticks: int, settling: int, done: Flow) -> bool {
        let voters = ordered::<NodeId>(self.configuration.voters());
        exists|suffered: Flow, next: CommandId| #[trigger]
            self.may_suffer(voters, ticks, suffered, next) && if suffered.error is Some {
                done == suffered
            } else {
                suffered.state.healed().may_settle(voters, settling, done)
            }
    }

    /// Every voter is started again, and the group settles.
    pub open spec fn may_settle(self, voters: Seq<NodeId>, settling: int, done: Flow) -> bool {
        exists|restarted: Flow| #[trigger]
            self.may_restart_all(voters, voters.len() as int, restarted) && if restarted.error
                is Some {
                done == restarted
            } else {
                restarted.state.may_run(settling, done)
            }
    }
}

impl Flow {
    /// Nothing more happens after an error; else the election timer of a node.
    pub open spec fn stands_next(self, node: NodeId, done: Flow) -> bool {
        if self.error is Some {
            done == self
        } else {
            self.state.may_stand(node, done)
        }
    }

    /// Nothing more happens after an error; else the timers of a leader.
    pub open spec fn leads_next(self, node: NodeId, done: Flow) -> bool {
        if self.error is Some {
            done == self
        } else {
            self.state.may_tick_leader(node, done)
        }
    }

    /// Nothing more is looked for; else one more message may arrive.
    pub open spec fn delivers_next(self, looking: bool, done: Flow, more: bool) -> bool {
        if !looking {
            done == self && !more
        } else {
            exists|arrived: bool| #[trigger]
                self.state.may_deliver(done, arrived) && more == (arrived && done.error is None)
        }
    }

    /// Nothing more happens after an error; else a tick.
    pub open spec fn advances_next(self, done: Flow) -> bool {
        if self.error is Some {
            done == self
        } else {
            self.state.may_advance(done)
        }
    }

    /// A tick before which not exactly one node led.
    pub open spec fn waits_next(self, done: Flow) -> bool {
        self.error is None && self.state.leaders().len() != 1 && self.state.may_advance(done)
    }

    /// Nothing more happens after an error; else a tick of chaos.
    pub open spec fn suffers_next(
        self,
        voters: Seq<NodeId>,
        tick: u64,
        id: CommandId,
        done: Flow,
        next: CommandId,
    ) -> bool {
        if self.error is Some {
            done == self && next == id
        } else {
            self.state.may_suffer_tick(voters, tick, id, done, next)
        }
    }

    /// Nothing more happens after an error; else a node that is down starts again.
    pub open spec fn restarts_next(self, node: NodeId, done: Flow) -> bool {
        if self.error is Some || self.state.nodes.contains_key(node) {
            done == self
        } else {
            self.state.may_restart(node, done)
        }
    }
}

impl SimView {
    pub(crate) proof fn elections_stop(self, ids: Seq<NodeId>, m: int, n: int, done: Flow)
        requires
            0 <= m <= n,
            done.error is Some,
            self.may_tick_elections(ids, m, done),
        ensures
            self.may_tick_elections(ids, n, done),
        decreases n,
    {
        if m < n {
            self.elections_stop(ids, m, n - 1, done);
            assert(done.stands_next(ids[n - 1], done));
        }
    }

    pub(crate) proof fn leaders_stop(self, ids: Seq<NodeId>, m: int, n: int, done: Flow)
        requires
            0 <= m <= n,
            done.error is Some,
            self.may_tick_leaders(ids, m, done),
        ensures
            self.may_tick_leaders(ids, n, done),
        decreases n,
    {
        if m < n {
            self.leaders_stop(ids, m, n - 1, done);
            assert(done.leads_next(ids[n - 1], done));
        }
    }

    pub(crate) proof fn deliveries_stop(self, m: int, n: int, done: Flow)
        requires
            0 <= m <= n,
            self.may_deliver_up_to(m, done, false),
        ensures
            self.may_deliver_up_to(n, done, false),
        decreases n,
    {
        if m < n {
            self.deliveries_stop(m, n - 1, done);
            assert(done.delivers_next(false, done, false));
        }
    }

    pub(crate) proof fn run_stops(self, m: int, n: int, done: Flow)
        requires
            0 <= m <= n,
            done.error is Some,
            self.may_run(m, done),
        ensures
            self.may_run(n, done),
        decreases n,
    {
        if m < n {
            self.run_stops(m, n - 1, done);
            assert(done.advances_next(done));
        }
    }

    pub(crate) proof fn suffering_stops(
        self,
        voters: Seq<NodeId>,
        m: int,
        n: int,
        done: Flow,
        next: CommandId,
    )
        requires
            0 <= m <= n,
            done.error is Some,
            self.may_suffer(voters, m, done, next),
        ensures
            self.may_suffer(voters, n, done, next),
        decreases n,
    {
        if m < n {
            self.suffering_stops(voters, m, n - 1, done, next);
            assert(done.suffers_next(voters, (n - 1) as u64, next, done, next));
        }
    }

    pub(crate) proof fn restarting_stops(self, voters: Seq<NodeId>, m: int, n: int, done: Flow)
        requires
            0 <= m <= n,
            done.error is Some,
            self.may_restart_all(voters, m, done),
        ensures
            self.may_restart_all(voters, n, done),
        decreases n,
    {
        if m < n {
            self.restarting_stops(voters, m, n - 1, done);
            assert(done.restarts_next(voters[n - 1], done));
        }
    }

    pub(crate) proof fn gives(self, node: NodeId, input: InputView, draws: Seq<Draw>, done: Flow)
        requires
            self.draws_fit(node, input, draws),
            done == self.given(node, input, draws),
        ensures
            self.may_give(node, input, done),
    {
        reveal(SimView::may_give);
    }

    pub(crate) proof fn stands(self, node: NodeId, done: Flow)
        requires
            if !self.leads(node) && self.election_deadline.contains_key(node)
                && self.election_deadline[node] <= self.now {
                self.may_give(node, InputView::Tick(Tick::Election), done)
            } else {
                done == self.going()
            },
        ensures
            self.may_stand(node, done),
    {
        reveal(SimView::may_stand);
    }

    pub(crate) proof fn ticks_leader(self, node: NodeId, beaten: Flow, done: Flow)
        requires
            self.may_beat(node, beaten),
            if beaten.error is Some {
                done == beaten
            } else {
                beaten.state.may_check(node, done)
            },
        ensures
            self.may_tick_leader(node, done),
    {
        reveal(SimView::may_tick_leader);
    }

    pub(crate) proof fn delivers(self, positions: Seq<usize>, done: Flow, arrived: bool)
        requires
            self.positions_fit(positions),
            self.may_deliver_at(positions, done, arrived),
        ensures
            self.may_deliver(done, arrived),
    {
        reveal(SimView::may_deliver);
    }

    /// A tick is refused where the budget is used up.
    pub(crate) proof fn spends_all(self, done: Flow)
        requires
            self.step_number >= self.step_budget,
            done == self.stopped(
                SimErrorKind::StepBudget { seed: self.seed, budget: self.step_budget },
            ),
        ensures
            self.may_advance(done),
    {
        reveal(SimView::may_advance);
    }

    pub(crate) proof fn advances(self, stood: Flow, done: Flow)
        requires
            self.step_number < self.step_budget,
            ({
                let ids = ordered::<NodeId>(self.nodes.dom());
                &&& self.ticked().may_tick_elections(ids, ids.len() as int, stood)
                &&& if stood.error is Some {
                    done == stood
                } else {
                    stood.state.may_lead_and_deliver(ids, done)
                }
            }),
        ensures
            self.may_advance(done),
    {
        reveal(SimView::may_advance);
    }

    pub(crate) proof fn restarts(self, node: NodeId, deadline: u64, done: Flow)
        requires
            ELECTION_MIN_TICKS <= deadline <= ELECTION_MAX_TICKS,
            done == self.restarted(node, deadline),
        ensures
            self.may_restart(node, done),
    {
        reveal(SimView::may_restart);
    }

    pub(crate) proof fn perturbs(
        self,
        voters: Seq<NodeId>,
        choice: u64,
        first: int,
        second: int,
        tick: u64,
        id: CommandId,
        done: Flow,
    )
        requires
            choice <= 99,
            0 <= first < voters.len(),
            0 <= second < voters.len(),
            self.may_move(
                self.chaos_move_for(voters, choice, first, second),
                tick,
                id,
                done,
            ),
        ensures
            self.may_perturb(
                voters,
                tick,
                id,
                done,
                self.chaos_move_for(voters, choice, first, second) is Propose,
            ),
    {
        reveal(SimView::may_perturb);
    }

    pub(crate) proof fn suffers_tick(
        self,
        voters: Seq<NodeId>,
        tick: u64,
        id: CommandId,
        moved: Flow,
        proposed: bool,
        done: Flow,
        next: CommandId,
    )
        requires
            self.may_perturb(voters, tick, id, moved, proposed),
            next == (if proposed {
                id + 1
            } else {
                id as int
            }),
            if moved.error is Some {
                done == moved
            } else {
                moved.state.may_advance(done)
            },
        ensures
            self.may_suffer_tick(voters, tick, id, done, next),
    {
        reveal(SimView::may_suffer_tick);
    }

    pub(crate) proof fn elections_go_on(self, ids: Seq<NodeId>, n: int, before: Flow, done: Flow)
        requires
            n > 0,
            self.may_tick_elections(ids, n - 1, before),
            before.stands_next(ids[n - 1], done),
        ensures
            self.may_tick_elections(ids, n, done),
    {
    }

    pub(crate) proof fn leaders_go_on(self, ids: Seq<NodeId>, n: int, before: Flow, done: Flow)
        requires
            n > 0,
            self.may_tick_leaders(ids, n - 1, before),
            before.leads_next(ids[n - 1], done),
        ensures
            self.may_tick_leaders(ids, n, done),
    {
    }

    pub(crate) proof fn suffering_goes_on(
        self,
        voters: Seq<NodeId>,
        n: int,
        before: Flow,
        id: CommandId,
        done: Flow,
        next: CommandId,
    )
        requires
            n > 0,
            self.may_suffer(voters, n - 1, before, id),
            before.suffers_next(voters, (n - 1) as u64, id, done, next),
        ensures
            self.may_suffer(voters, n, done, next),
    {
    }

    pub(crate) proof fn restarting_goes_on(
        self,
        voters: Seq<NodeId>,
        n: int,
        before: Flow,
        done: Flow,
    )
        requires
            n > 0,
            self.may_restart_all(voters, n - 1, before),
            before.restarts_next(voters[n - 1], done),
        ensures
            self.may_restart_all(voters, n, done),
    {
    }
}

} // verus!
