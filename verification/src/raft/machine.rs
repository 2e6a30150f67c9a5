//! A node as its users see it.

use vstd::prelude::*;
use crate::digest::sha256_digest;
use crate::model::Model;
use crate::ordmap::{OrdMap, OrdSet};
use crate::raft::configuration::{Configuration, ConfigurationView};
use crate::raft::laws::{
    all_stored, orderly, persists_first, step_keeps_invariant, step_persists_before_it_sends,
    step_stores_what_it_holds, step_undoes_nothing, succeeds,
};
use crate::raft::log::{LogView, RaftLog, stored_log};
use crate::raft::node::{RaftCore, turn};
use crate::raft::state::{MAX_SNAPSHOT_BYTES, RaftView, follows_on};
use crate::raft::types::{
    Action, HardState, Input, LogEntry, Message, RecoveryError, RecoveryErrorKind, Role,
    SnapshotMetadata, StableState, StableStateView,
};
use crate::types::{NodeId, message};
use crate::wire::put_bytes;

verus! {

broadcast use crate::model::group_contents;

/// A deterministic consensus state machine. It owns no socket, no clock and no
/// source of randomness.
#[derive(Debug)]
pub struct Raft {
    core: RaftCore,
}

impl DeepView for Raft {
    type V = RaftView;

    closed spec fn deep_view(&self) -> RaftView {
        self.core.content()
    }
}

/// Terms never go down from the base on, and no entry is of a later term than
/// `current`.
pub open spec fn entry_terms_ordered(log: LogView, current: u64) -> bool {
    &&& forall|i: int|
        0 <= i < log.entries.len() ==> log.base_term <= (#[trigger] log.entries[i]).term <= current
    &&& forall|i: int, j: int|
        0 <= i < j < log.entries.len() ==> (#[trigger] log.entries[i]).term <= (
        #[trigger] log.entries[j]).term
}

/// Why a node cannot start from stored state, if it cannot.
pub open spec fn recovery_problem(
    id: NodeId,
    configuration: ConfigurationView,
    stable: StableStateView,
) -> Option<RecoveryErrorKind> {
    let log = stored_log(stable.snapshot, stable.entries);
    let commit_index = stable.hard_state.commit_index;
    if !configuration.voters().contains(id) {
        Some(RecoveryErrorKind::NotVoter(id))
    } else if stable.snapshot matches Some(snapshot) && !(snapshot.valid()
        && snapshot.metadata.configuration == configuration) {
        Some(RecoveryErrorKind::InvalidSnapshot)
    } else if !(log.contiguous() && entry_terms_ordered(log, stable.hard_state.current_term)) {
        Some(RecoveryErrorKind::InvalidLog)
    } else if !(log.base_index <= stable.applied_index <= commit_index <= log.last_index()) {
        Some(RecoveryErrorKind::InvalidIndexes)
    } else {
        None
    }
}

/// The node that starts from stored state: a follower that knows no leader.
pub open spec fn recovered(
    id: NodeId,
    configuration: ConfigurationView,
    stable: StableStateView,
) -> RaftView {
    RaftView {
        id,
        configuration,
        hard_state: stable.hard_state,
        log: stored_log(stable.snapshot, stable.entries),
        snapshot: stable.snapshot,
        applied_index: stable.applied_index,
        role: Role::Follower,
        leader_id: None,
        campaign_term: None,
        votes: Set::empty(),
        progress: Map::empty(),
        recent_active: Set::empty(),
        pending_reads: Map::empty(),
        incoming_snapshot: None,
    }
}

/// What a node stores is enough to start it again where it stopped: a node
/// whose terms are in order recovers with the same term, vote, log, snapshot
/// and indexes.
pub proof fn restart_keeps_what_is_stored(node: RaftView)
    requires
        node.well_formed(),
        orderly(node),
    ensures
        recovery_problem(node.id, node.configuration, node.stable()) is None,
        recovered(node.id, node.configuration, node.stable()).stable() == node.stable(),
        recovered(node.id, node.configuration, node.stable()).log == node.log,
        recovered(node.id, node.configuration, node.stable()).well_formed(),
{
    assert(stored_log(node.snapshot, node.log.entries) =~= node.log);
}

/// A node starts from stored state exactly if it is a voter, the snapshot is whole
/// and of the same configuration, the entries are numbered from the snapshot on
/// with terms that never go down nor exceed the current one, and the indexes are
/// in order. It is then a follower that knows no leader and holds what was stored.
pub proof fn recovery_is_exact(id: NodeId, configuration: ConfigurationView, stable: StableStateView)
    ensures
        ({
            let log = stored_log(stable.snapshot, stable.entries);
            recovery_problem(id, configuration, stable) is None <==> {
                &&& configuration.voters().contains(id)
                &&& stable.snapshot matches Some(snapshot) ==> snapshot.valid()
                    && snapshot.metadata.configuration == configuration
                &&& log.contiguous()
                &&& entry_terms_ordered(log, stable.hard_state.current_term)
                &&& log.base_index <= stable.applied_index <= stable.hard_state.commit_index
                    <= log.last_index()
            }
        }),
        !configuration.voters().contains(id) ==> recovery_problem(id, configuration, stable)
            == Some(RecoveryErrorKind::NotVoter(id)),
        recovered(id, configuration, stable).role == Role::Follower,
        recovered(id, configuration, stable).leader_id is None,
        recovered(id, configuration, stable).stable() == stable,
{
    assert(recovered(id, configuration, stable).stable() =~= stable);
}

fn check_entries(
    entries: &Vec<LogEntry>,
    base_index: u64,
    base_term: u64,
    current_term: u64,
) -> (result: Result<(), RecoveryError>)
    requires
        base_index + entries@.len() <= u64::MAX,
    ensures
        ({
            let log = LogView { base_index, base_term, entries: entries.deep_view() };
            result is Ok == (log.contiguous() && entry_terms_ordered(log, current_term))
        }),
        result matches Err(error) ==> error.deep_view() == RecoveryErrorKind::InvalidLog,
{
    let ghost view = entries.deep_view();
    let mut previous_term: u64 = base_term;
    let mut i: usize = 0;
    while i < entries.len()
        invariant
            i <= entries@.len(),
            view == entries.deep_view(),
            base_index + entries@.len() <= u64::MAX,
            base_term <= previous_term,
            i > 0 ==> previous_term == view[i - 1].term,
            i == 0 ==> previous_term == base_term,
            forall|j: int|
                0 <= j < i ==> (#[trigger] view[j]).index == base_index + 1 + j && base_term
                    <= view[j].term <= current_term && view[j].term <= previous_term,
            forall|j: int, k: int|
                0 <= j < k < i ==> (#[trigger] view[j]).term <= (#[trigger] view[k]).term,
        decreases entries@.len() - i,
    {
        let entry = &entries[i];
        assert(view[i as int] == entry.deep_view());
        let expected: u64 = base_index + 1 + i as u64;
        if entry.index != expected {
            return Err(
                RecoveryError::InvalidLog(
                    message(
                        &[
                            "expected index ",
                            expected.to_string().as_str(),
                            ", found ",
                            entry.index.to_string().as_str(),
                        ],
                    ),
                ),
            );
        }
        if entry.term < previous_term {
            proof {
                let log = LogView { base_index, base_term, entries: view };
                assert(log.entries[i as int].term < previous_term);
                if i > 0 {
                    assert(log.entries[i - 1].term > log.entries[i as int].term);
                }
            }
            return Err(
                RecoveryError::InvalidLog(
                    message(
                        &[
                            "term regressed from ",
                            previous_term.to_string().as_str(),
                            " to ",
                            entry.term.to_string().as_str(),
                            " at index ",
                            entry.index.to_string().as_str(),
                        ],
                    ),
                ),
            );
        }
        if entry.term > current_term {
            return Err(
                RecoveryError::InvalidLog(
                    message(
                        &[
                            "entry ",
                            entry.index.to_string().as_str(),
                            " has future term ",
                            entry.term.to_string().as_str(),
                            " beyond hard-state term ",
                            current_term.to_string().as_str(),
                        ],
                    ),
                ),
            );
        }
        previous_term = entry.term;
        i = i + 1;
    }
    Ok(())
}

fn outside(name: &str, index: u64, low: u64, high: u64) -> (error: RecoveryError)
    ensures
        error.deep_view() == RecoveryErrorKind::InvalidIndexes,
{
    RecoveryError::InvalidIndexes(
        message(
            &[
                name,
                " ",
                index.to_string().as_str(),
                " is outside [",
                low.to_string().as_str(),
                ", ",
                high.to_string().as_str(),
                "]",
            ],
        ),
    )
}

impl Raft {
    #[verifier::type_invariant]
    spec fn kept(self) -> bool {
        self.core.content().well_formed()
    }

    /// A node that starts from what is stored.
    pub fn recover(id: NodeId, configuration: Configuration, stable: StableState) -> (result: Result<
        Raft,
        RecoveryError,
    >)
        ensures
            match result {
                Ok(node) => {
                    &&& recovery_problem(
                        id,
                        configuration.deep_view(),
                        stable.deep_view(),
                    ) is None
                    &&& node.deep_view() == recovered(
                        id,
                        configuration.deep_view(),
                        stable.deep_view(),
                    )
                    &&& node.deep_view().well_formed()
                },
                Err(error) => recovery_problem(
                    id,
                    configuration.deep_view(),
                    stable.deep_view(),
                ) == Some(error.deep_view()),
            },
    {
        let ghost view = stable.deep_view();
        let ghost voters = configuration.deep_view();
        let ghost log_view = stored_log(view.snapshot, view.entries);
        if !configuration.contains(id) {
            return Err(RecoveryError::NotVoter(id));
        }
        let (base_index, base_term) = match &stable.snapshot {
            Some(snapshot) => {
                if !snapshot.validate() {
                    return Err(
                        RecoveryError::InvalidSnapshot("length or SHA-256 mismatch".to_owned()),
                    );
                }
                if !snapshot.metadata.configuration.same(&configuration) {
                    return Err(
                        RecoveryError::InvalidSnapshot(
                            "snapshot voter set differs from local configuration".to_owned(),
                        ),
                    );
                }
                (snapshot.metadata.last_included_index, snapshot.metadata.last_included_term)
            },
            None => (0, 0),
        };
        if stable.entries.len() as u64 > u64::MAX - base_index {
            return Err(RecoveryError::InvalidLog("log indexes do not fit".to_owned()));
        }
        if let Err(error) = check_entries(
            &stable.entries,
            base_index,
            base_term,
            stable.hard_state.current_term,
        ) {
            return Err(error);
        }
        let log = RaftLog::new(stable.snapshot.as_ref(), stable.entries);
        assert(log.deep_view() =~= log_view);
        let last_index: u64 = log.last_index();
        let commit_index = stable.hard_state.commit_index;
        if commit_index < base_index || commit_index > last_index {
            return Err(outside("commit", commit_index, base_index, last_index));
        }
        if stable.applied_index < base_index || stable.applied_index > commit_index {
            return Err(outside("applied", stable.applied_index, base_index, commit_index));
        }
        let voter_count: usize = configuration.voters().len();
        let core = RaftCore {
            id,
            configuration,
            hard_state: stable.hard_state,
            log,
            snapshot: stable.snapshot,
            applied_index: stable.applied_index,
            role: Role::Follower,
            leader_id: None,
            campaign_term: None,
            votes: OrdSet::new(),
            progress: OrdMap::new(),
            recent_active: OrdSet::new(),
            pending_reads: OrdMap::new(),
            incoming_snapshot: None,
        };
        assert(core.content() =~= recovered(id, voters, view));
        Ok(Raft { core })
    }

    pub fn id(&self) -> (id: NodeId)
        ensures
            id == self.deep_view().id,
    {
        self.core.id
    }

    pub fn role(&self) -> (role: Role)
        ensures
            role == self.deep_view().role,
    {
        self.core.role
    }

    pub fn term(&self) -> (term: u64)
        ensures
            term == self.deep_view().hard_state.current_term,
    {
        self.core.hard_state.current_term
    }

    pub fn leader_id(&self) -> (leader: Option<NodeId>)
        ensures
            leader == self.deep_view().leader_id,
    {
        self.core.leader_id
    }

    pub fn commit_index(&self) -> (index: u64)
        ensures
            index == self.deep_view().hard_state.commit_index,
    {
        self.core.hard_state.commit_index
    }

    pub fn applied_index(&self) -> (index: u64)
        ensures
            index == self.deep_view().applied_index,
    {
        self.core.applied_index
    }

    pub fn last_log_index(&self) -> (index: u64)
        ensures
            index == self.deep_view().log.last_index(),
    {
        self.core.log.last_index()
    }

    /// What has to be stored of the node.
    pub fn stable_state(&self) -> (stable: StableState)
        ensures
            stable.deep_view() == self.deep_view().stable(),
    {
        StableState {
            hard_state: self.core.hard_state,
            snapshot: self.core.snapshot.duplicate(),
            entries: self.core.log.all_entries(),
            applied_index: self.core.applied_index,
        }
    }

    /// Whether the indexes that an input leads to fit the machine.
    pub fn has_room(&self, input: &Input) -> (room: bool)
        ensures
            room == self.deep_view().has_room(input.deep_view()),
    {
        proof {
            reveal(RaftView::entries_fit);
            reveal(follows_on);
            reveal(RaftView::snapshot_fits);
            reveal(RaftView::answer_fits);
        }
        if self.core.log.last_index() >= u64::MAX - 1 {
            return false;
        }
        match input {
            Input::Message { from, message } => match message {
                Message::AppendEntries {
                    term,
                    leader_id,
                    prev_log_index,
                    prev_log_term,
                    entries,
                    ..
                } => {
                    (entries.len() as u64) < u64::MAX - *prev_log_index || !self.heeds(
                        *from,
                        *leader_id,
                        *term,
                    ) || *prev_log_index < self.core.log.base_index() || self.core.log.term(
                        *prev_log_index,
                    ) != Some(*prev_log_term) || !RaftCore::follows(
                        *prev_log_index,
                        *prev_log_term,
                        *term,
                        entries,
                    )
                },
                Message::InstallSnapshot { term, leader_id, metadata, offset, data, done } => {
                    metadata.last_included_index < u64::MAX || !self.heeds(
                        *from,
                        *leader_id,
                        *term,
                    ) || !self.completes(metadata, *offset, data, *done)
                },
                Message::InstallSnapshotResponse { term, accepted, done, match_index, .. } => {
                    *match_index < u64::MAX || self.core.role != Role::Leader || *term
                        != self.core.hard_state.current_term || *from == self.core.id
                        || !self.core.progress.contains_key(from) || !*done || !*accepted
                },
                _ => true,
            },
            _ => true,
        }
    }

    fn heeds(&self, from: NodeId, leader_id: NodeId, term: u64) -> (heeded: bool)
        ensures
            heeded == self.deep_view().heeds(from, leader_id, term),
    {
        self.core.configuration.contains(from) && from != self.core.id && leader_id == from && term
            >= self.core.hard_state.current_term
    }

    fn completes(
        &self,
        metadata: &SnapshotMetadata,
        offset: u64,
        data: &Vec<u8>,
        done: bool,
    ) -> (complete: bool)
        ensures
            complete == self.deep_view().completes(metadata.deep_view(), offset, data@, done),
    {
        let mut whole: Vec<u8> = Vec::new();
        if let Some(incoming) = &self.core.incoming_snapshot {
            if incoming.metadata.same(metadata) {
                put_bytes(&mut whole, incoming.data.as_slice());
                assert(whole@ =~= incoming.data@);
            }
        }
        let earlier: u64 = whole.len() as u64;
        put_bytes(&mut whole, data.as_slice());
        done && metadata.configuration.same(&self.core.configuration) && metadata.byte_len
            <= MAX_SNAPSHOT_BYTES && offset == earlier && whole.len() as u64 == metadata.byte_len
            && sha256_digest(whole.as_slice()).same(&metadata.sha256)
    }

    /// Takes one event in, and says what is to be done. The actions are to be
    /// carried out in order, and none after one that fails.
    pub fn step(&mut self, input: Input) -> (actions: Vec<Action>)
        requires
            old(self).deep_view().has_room(input.deep_view()),
        ensures
            final(self).deep_view() == old(self).deep_view().stepped(input.deep_view()).node,
            actions.deep_view() == old(self).deep_view().stepped(input.deep_view()).actions,
            final(self).deep_view().well_formed(),
            succeeds(old(self).deep_view(), final(self).deep_view()),
            persists_first(actions.deep_view()),
            all_stored(old(self).deep_view().stable(), actions.deep_view())
                == final(self).deep_view().stable(),
    {
        proof {
            use_type_invariant(&*self);
        }
        let ghost before = self.core.content();
        let ghost event = input.deep_view();
        let mut core = RaftCore::vacant(self.core.id);
        std::mem::swap(&mut core, &mut self.core);
        let actions = core.step(input);
        proof {
            step_keeps_invariant(before, event);
            step_undoes_nothing(before, event);
            step_persists_before_it_sends(before, event);
            step_stores_what_it_holds(before, event);
            assert(turn(core, actions) == before.stepped(event));
        }
        self.core = core;
        actions
    }
}

impl RaftCore {
    /// A node of a group of one, before its first entry.
    fn vacant(id: NodeId) -> (core: RaftCore)
        ensures
            core.content().well_formed(),
    {
        let none: Vec<LogEntry> = Vec::new();
        assert(none.deep_view() =~= Seq::empty());
        RaftCore {
            id,
            configuration: Configuration::single(id),
            hard_state: HardState::default(),
            log: RaftLog::new(None, none),
            snapshot: None,
            applied_index: 0,
            role: Role::Follower,
            leader_id: None,
            campaign_term: None,
            votes: OrdSet::new(),
            progress: OrdMap::new(),
            recent_active: OrdSet::new(),
            pending_reads: OrdMap::new(),
            incoming_snapshot: None,
        }
    }

    fn copied(&self) -> (copy: RaftCore)
        ensures
            copy.content() == self.content(),
    {
        RaftCore {
            id: self.id,
            configuration: self.configuration.duplicate(),
            hard_state: self.hard_state,
            log: self.log.duplicate(),
            snapshot: self.snapshot.duplicate(),
            applied_index: self.applied_index,
            role: self.role,
            leader_id: self.leader_id,
            campaign_term: self.campaign_term,
            votes: self.votes.duplicate(),
            progress: self.progress.duplicate(),
            recent_active: self.recent_active.duplicate(),
            pending_reads: self.pending_reads.duplicate(),
            incoming_snapshot: self.incoming_snapshot.duplicate(),
        }
    }
}

impl Clone for Raft {
    fn clone(&self) -> (copy: Self)
        ensures
            copy.deep_view() == self.deep_view(),
    {
        proof {
            use_type_invariant(self);
        }
        Raft { core: self.core.copied() }
    }
}

impl Model for Raft {
    fn duplicate(&self) -> (copy: Self) {
        self.clone()
    }

    fn same(&self, other: &Self) -> (equal: bool) {
        let a = &self.core;
        let b = &other.core;
        a.id == b.id && a.configuration.same(&b.configuration) && a.hard_state.same(&b.hard_state)
            && a.log.same(&b.log) && a.snapshot.same(&b.snapshot) && a.applied_index
            == b.applied_index && a.role == b.role && a.leader_id.same(&b.leader_id)
            && a.campaign_term.same(&b.campaign_term) && a.votes.same(&b.votes) && a.progress.same(
            &b.progress,
        ) && a.recent_active.same(&b.recent_active) && a.pending_reads.same(&b.pending_reads)
            && a.incoming_snapshot.same(&b.incoming_snapshot)
    }
}

} // verus!
