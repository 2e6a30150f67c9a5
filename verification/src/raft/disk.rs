//! The modelled disk of a simulated node.

use vstd::prelude::*;
use crate::digest::{sha256, sha256_digest};
use crate::model::Model;
use crate::ordmap::OrdMap;
use crate::raft::log::{LogView, stored_log};
use crate::raft::types::{
    EntryPayload, EntryPayloadView, LogEntry, LogEntryView, StableState, StableStateView,
    StorageMutation, StorageMutationView,
};
use crate::raft::violations::Violation;
use crate::types::NodeId;
use crate::wire::{le_bytes, put_bytes, put_le, put_le_wide};

verus! {

broadcast use crate::model::group_contents;

/// What tells one log entry from another at the same index.
#[derive(Debug, Clone, PartialEq, Eq)]
pub struct EntryIdentity {
    pub term: u64,
    pub payload_hash: [u8; 32],
}

/// The content of a [`EntryIdentity`].
#[verifier::ext_equal]
pub struct EntryIdentityView {
    pub term: u64,
    pub payload_hash: Seq<u8>,
}

impl DeepView for EntryIdentity {
    type V = EntryIdentityView;

    open spec fn deep_view(&self) -> EntryIdentityView {
        EntryIdentityView {
            term: self.term.deep_view(),
            payload_hash: self.payload_hash.deep_view(),
        }
    }
}

impl Model for EntryIdentity {
    fn duplicate(&self) -> (copy: Self) {
        EntryIdentity {
            term: self.term.duplicate(),
            payload_hash: self.payload_hash.duplicate(),
        }
    }

    fn same(&self, other: &Self) -> (equal: bool) {
        self.term.same(&other.term)
            && self.payload_hash.same(&other.payload_hash)
    }
}

/// What one node has stored, with the state that its entries led to.
#[derive(Debug, Clone, PartialEq, Eq)]
pub struct SimDisk {
    pub stable: StableState,
    pub state_bytes: Vec<u8>,
    pub applied: OrdMap<u64, EntryIdentity>,
}

/// The content of a [`SimDisk`].
#[verifier::ext_equal]
pub struct SimDiskView {
    pub stable: StableStateView,
    pub state_bytes: Seq<u8>,
    pub applied: Map<u64, EntryIdentityView>,
}

impl DeepView for SimDisk {
    type V = SimDiskView;

    open spec fn deep_view(&self) -> SimDiskView {
        SimDiskView {
            stable: self.stable.deep_view(),
            state_bytes: self.state_bytes.deep_view(),
            applied: self.applied.deep_view(),
        }
    }
}

impl Model for SimDisk {
    fn duplicate(&self) -> (copy: Self) {
        SimDisk {
            stable: self.stable.duplicate(),
            state_bytes: self.state_bytes.duplicate(),
            applied: self.applied.duplicate(),
        }
    }

    fn same(&self, other: &Self) -> (equal: bool) {
        self.stable.same(&other.stable)
            && self.state_bytes.same(&other.state_bytes)
            && self.applied.same(&other.applied)
    }
}
/// The bytes that stand for the payload of an entry.
pub open spec fn payload_bytes(payload: EntryPayloadView) -> Seq<u8> {
    match payload {
        EntryPayloadView::Noop => seq![0u8],
        EntryPayloadView::Command { id, bytes } => seq![1u8] + le_bytes(id as nat, 16) + le_bytes(
            bytes.len(),
            8,
        ) + bytes,
    }
}

/// The identity of an entry.
pub open spec fn identity_of(entry: LogEntryView) -> EntryIdentityView {
    EntryIdentityView { term: entry.term, payload_hash: sha256(payload_bytes(entry.payload)) }
}

/// What an applied entry adds to the state.
pub open spec fn state_addition(entry: LogEntryView) -> Seq<u8> {
    match entry.payload {
        EntryPayloadView::Noop => Seq::empty(),
        EntryPayloadView::Command { id, bytes } => le_bytes(entry.index as nat, 8) + le_bytes(
            entry.term as nat,
            8,
        ) + le_bytes(id as nat, 16) + le_bytes(bytes.len(), 8) + bytes,
    }
}

impl EntryIdentity {
    /// The identity of an entry.
    pub fn of(entry: &LogEntry) -> (identity: EntryIdentity)
        ensures
            identity.deep_view() == identity_of(entry.deep_view()),
    {
        let mut bytes: Vec<u8> = Vec::new();
        match &entry.payload {
            EntryPayload::Noop => {
                bytes.push(0);
                assert(bytes@ =~= payload_bytes(entry.deep_view().payload));
            },
            EntryPayload::Command { id, bytes: command } => {
                bytes.push(1);
                put_le_wide(&mut bytes, *id, 16);
                put_le(&mut bytes, command.len() as u64, 8);
                put_bytes(&mut bytes, command.as_slice());
                assert(bytes@ =~= payload_bytes(entry.deep_view().payload));
            },
        }
        EntryIdentity { term: entry.term, payload_hash: sha256_digest(bytes.as_slice()) }
    }
}

impl SimDiskView {
    pub open spec fn blank() -> SimDiskView {
        SimDiskView {
            stable: StableStateView::initial(),
            state_bytes: Seq::empty(),
            applied: Map::empty(),
        }
    }

    pub open spec fn log(self) -> LogView {
        stored_log(self.stable.snapshot, self.stable.entries)
    }

    /// What is known of the entry at an index. Of a snapshot only the term at
    /// its end is known.
    pub open spec fn known_identity(self, index: u64) -> Option<EntryIdentityView> {
        match self.log().entry(index) {
            Some(entry) => Some(identity_of(entry)),
            None => if index == self.log().base_index && index != 0 {
                Some(
                    EntryIdentityView {
                        term: self.log().base_term,
                        payload_hash: Seq::new(32, |i: int| 0u8),
                    },
                )
            } else {
                None
            },
        }
    }

    pub open spec fn with_entries(self, entries: Seq<LogEntryView>) -> SimDiskView {
        SimDiskView { stable: StableStateView { entries, ..self.stable }, ..self }
    }

    /// The disk after a mutation, and whether the mutation was one that a
    /// correct node asks for. What a hard state may change is not judged here.
    pub open spec fn written(self, mutation: StorageMutationView) -> (SimDiskView, bool) {
        match mutation {
            StorageMutationView::HardState(hard_state) => (
                SimDiskView { stable: StableStateView { hard_state, ..self.stable }, ..self },
                true,
            ),
            StorageMutationView::Append(entries) => if entries.len() > 0 && entries[0].index
                != self.log().last_index() + 1 {
                (self, false)
            } else {
                (self.with_entries(self.stable.entries + entries), true)
            },
            StorageMutationView::TruncateAndAppend { from, entries } => {
                let keep = if from <= self.log().base_index {
                    0
                } else {
                    from - self.log().base_index - 1
                };
                let kept = if keep < self.stable.entries.len() {
                    self.stable.entries.take(keep)
                } else {
                    self.stable.entries
                };
                if from <= self.stable.hard_state.commit_index {
                    (self, false)
                } else if entries.len() > 0 && entries[0].index != from {
                    (self.with_entries(kept), false)
                } else {
                    (self.with_entries(kept + entries), true)
                }
            },
            StorageMutationView::CompactSnapshot { snapshot, retained_entries } => {
                if snapshot.metadata.last_included_index > self.stable.applied_index {
                    (self, false)
                } else {
                    (
                        SimDiskView {
                            stable: StableStateView {
                                snapshot: Some(snapshot),
                                entries: retained_entries,
                                ..self.stable
                            },
                            ..self
                        },
                        true,
                    )
                }
            },
            StorageMutationView::InstallSnapshot { snapshot, retained_entries, hard_state } => {
                let index = snapshot.metadata.last_included_index;
                if !snapshot.valid() {
                    (self, false)
                } else {
                    (
                        SimDiskView {
                            stable: StableStateView {
                                hard_state,
                                snapshot: Some(snapshot),
                                entries: retained_entries,
                                applied_index: index,
                            },
                            state_bytes: snapshot.data,
                            applied: self.applied.restrict(
                                Set::new(|at: u64| self.applied.contains_key(at) && at > index),
                            ),
                        },
                        true,
                    )
                }
            },
        }
    }

    /// What a node does wrong that writes something unsound.
    pub open spec fn unsound_write(self, node: NodeId, mutation: StorageMutationView) -> Violation {
        match mutation {
            StorageMutationView::Append(_) => Violation::NonContiguous {
                node,
                expected: (self.log().last_index() + 1) as u128,
            },
            StorageMutationView::TruncateAndAppend { from, .. } => {
                if from <= self.stable.hard_state.commit_index {
                    Violation::TruncatedCommitted { node, from }
                } else {
                    Violation::ReplacedElsewhere { node, from }
                }
            },
            StorageMutationView::CompactSnapshot { snapshot, .. } => {
                Violation::CompactedUnapplied {
                    node,
                    index: snapshot.metadata.last_included_index,
                }
            },
            _ => Violation::InvalidSnapshot { node },
        }
    }

    /// The next committed entry can be applied.
    pub open spec fn can_apply(self, entry: LogEntryView) -> bool {
        entry.index == self.stable.applied_index + 1 && entry.index
            <= self.stable.hard_state.commit_index
    }

    /// The disk after an entry was applied.
    pub open spec fn with_applied(self, entry: LogEntryView) -> SimDiskView {
        SimDiskView {
            stable: StableStateView { applied_index: entry.index, ..self.stable },
            state_bytes: self.state_bytes + state_addition(entry),
            applied: self.applied.insert(entry.index, identity_of(entry)),
        }
    }
}

impl Default for SimDisk {
    fn default() -> (disk: SimDisk)
        ensures
            disk.deep_view() == SimDiskView::blank(),
    {
        let disk = SimDisk {
            stable: StableState::default(),
            state_bytes: Vec::new(),
            applied: OrdMap::new(),
        };
        assert(disk.state_bytes@ =~= Seq::empty());
        disk
    }
}

impl SimDisk {
    pub fn base_index(&self) -> (index: u64)
        ensures
            index == self.deep_view().log().base_index,
    {
        match &self.stable.snapshot {
            Some(snapshot) => snapshot.metadata.last_included_index,
            None => 0,
        }
    }

    pub fn base_term(&self) -> (term: u64)
        ensures
            term == self.deep_view().log().base_term,
    {
        match &self.stable.snapshot {
            Some(snapshot) => snapshot.metadata.last_included_term,
            None => 0,
        }
    }

    pub fn last_index(&self) -> (index: u64)
        ensures
            index == self.deep_view().log().last_index(),
    {
        let count: usize = self.stable.entries.len();
        if count == 0 {
            self.base_index()
        } else {
            self.stable.entries[count - 1].index
        }
    }

    pub fn entry(&self, index: u64) -> (entry: Option<&LogEntry>)
        ensures
            match entry {
                Some(entry) => self.deep_view().log().entry(index) == Some(entry.deep_view()),
                None => self.deep_view().log().entry(index) is None,
            },
    {
        let base_index = self.base_index();
        if index <= base_index {
            return None;
        }
        let offset: u64 = index - base_index - 1;
        if offset < self.stable.entries.len() as u64 {
            Some(&self.stable.entries[offset as usize])
        } else {
            None
        }
    }

    pub fn known_identity(&self, index: u64) -> (identity: Option<EntryIdentity>)
        ensures
            identity.deep_view() == self.deep_view().known_identity(index),
    {
        match self.entry(index) {
            Some(entry) => Some(EntryIdentity::of(entry)),
            None => if index == self.base_index() && index != 0 {
                let zeros: [u8; 32] = [0u8; 32];
                assert(zeros@ =~= Seq::new(32, |i: int| 0u8));
                Some(EntryIdentity { term: self.base_term(), payload_hash: zeros })
            } else {
                None
            },
        }
    }

    /// The digest of the state that the applied entries led to.
    pub fn state_hash(&self) -> (digest: [u8; 32])
        ensures
            digest@ == sha256(self.deep_view().state_bytes),
    {
        sha256_digest(self.state_bytes.as_slice())
    }

    fn extend(&mut self, entries: &Vec<LogEntry>)
        ensures
            final(self).deep_view() == old(self).deep_view().with_entries(
                old(self).deep_view().stable.entries + entries.deep_view(),
            ),
    {
        let ghost before = self.stable.entries.deep_view();
        let mut i: usize = 0;
        assert(before =~= before + entries.deep_view().take(0));
        while i < entries.len()
            invariant
                i <= entries@.len(),
                before == old(self).deep_view().stable.entries,
                self.deep_view() == old(self).deep_view().with_entries(
                    before + entries.deep_view().take(i as int),
                ),
            decreases entries@.len() - i,
        {
            let ghost so_far = self.stable.entries.deep_view();
            self.stable.entries.push(entries[i].duplicate());
            proof {
                assert(self.stable.entries.deep_view() =~= so_far.push(
                    entries@[i as int].deep_view(),
                ));
                assert(self.stable.entries.deep_view() =~= before + entries.deep_view().take(
                    i + 1,
                ));
            }
            i = i + 1;
        }
        assert(entries.deep_view().take(i as int) =~= entries.deep_view());
    }

    fn forget_applied_through(&mut self, index: u64)
        ensures
            final(self).deep_view() == (SimDiskView {
                applied: old(self).deep_view().applied.restrict(
                    Set::new(
                        |at: u64| old(self).deep_view().applied.contains_key(at) && at > index,
                    ),
                ),
                ..old(self).deep_view()
            }),
    {
        let ghost before = self.applied.deep_view();
        let count: usize = self.applied.len();
        let ghost listed = self.applied.keys();
        let mut kept: OrdMap<u64, EntryIdentity> = OrdMap::new();
        let mut i: usize = 0;
        while i < count
            invariant
                i <= count,
                count == listed.len(),
                listed == self.applied.keys(),
                before == self.applied.deep_view(),
                self.deep_view() == old(self).deep_view(),
                forall|at: u64| #[trigger]
                    kept.deep_view().contains_key(at) <==> listed.take(i as int).contains(at) && at
                        > index,
                forall|at: u64| #[trigger]
                    kept.deep_view().contains_key(at) ==> kept.deep_view()[at] == before[at],
            decreases count - i,
        {
            let at = *self.applied.key_at(i);
            if at > index {
                kept.insert(at, self.applied.value_at(i).duplicate());
            }
            proof {
                let fewer = listed.take(i as int);
                let more = listed.take(i + 1);
                assert(more =~= fewer.push(at));
                assert forall|other: u64| more.contains(other) <==> (fewer.contains(other) || other
                    == at) by {
                    if fewer.contains(other) {
                        let k = fewer.index_of(other);
                        assert(more[k] == other);
                    }
                    assert(more[i as int] == at);
                }
            }
            i = i + 1;
        }
        proof {
            assert(listed.take(i as int) =~= listed);
            assert forall|at: u64| before.contains_key(at) <==> listed.contains(at) by {
                assert(before.dom().contains(at) <==> listed.contains(at));
            }
            assert(kept.deep_view() =~= before.restrict(
                Set::new(|at: u64| before.contains_key(at) && at > index),
            ));
        }
        self.applied = kept;
    }

    /// What a node does wrong that writes something unsound.
    pub fn unsound_write(&self, node: NodeId, mutation: &StorageMutation) -> (violation: Violation)
        ensures
            violation == self.deep_view().unsound_write(node, mutation.deep_view()),
    {
        match mutation {
            StorageMutation::Append(_) => Violation::NonContiguous {
                node,
                expected: self.last_index() as u128 + 1,
            },
            StorageMutation::TruncateAndAppend { from, .. } => {
                if *from <= self.stable.hard_state.commit_index {
                    Violation::TruncatedCommitted { node, from: *from }
                } else {
                    Violation::ReplacedElsewhere { node, from: *from }
                }
            },
            StorageMutation::CompactSnapshot { snapshot, .. } => {
                Violation::CompactedUnapplied {
                    node,
                    index: snapshot.metadata.last_included_index,
                }
            },
            _ => Violation::InvalidSnapshot { node },
        }
    }

    /// Carries out a mutation, and says whether it was one that a correct node
    /// asks for.
    pub fn write(&mut self, mutation: &StorageMutation) -> (sound: bool)
        ensures
            (final(self).deep_view(), sound) == old(self).deep_view().written(
                mutation.deep_view(),
            ),
    {
        match mutation {
            StorageMutation::HardState(hard_state) => {
                self.stable.hard_state = *hard_state;
                true
            },
            StorageMutation::Append(entries) => {
                let last_index = self.last_index();
                if entries.len() > 0 {
                    let first: u64 = entries[0].index;
                    assert(entries.deep_view()[0] == entries@[0].deep_view());
                    if first == 0 || first - 1 != last_index {
                        return false;
                    }
                }
                self.extend(entries);
                true
            },
            StorageMutation::TruncateAndAppend { from, entries } => {
                if *from <= self.stable.hard_state.commit_index {
                    return false;
                }
                let base_index = self.base_index();
                let keep: u64 = if *from <= base_index {
                    0
                } else {
                    *from - base_index - 1
                };
                let ghost before = self.stable.entries.deep_view();
                if keep < self.stable.entries.len() as u64 {
                    self.stable.entries.truncate(keep as usize);
                    assert(self.stable.entries.deep_view() =~= before.take(keep as int));
                }
                if entries.len() > 0 {
                    assert(entries.deep_view()[0] == entries@[0].deep_view());
                    if entries[0].index != *from {
                        return false;
                    }
                }
                self.extend(entries);
                true
            },
            StorageMutation::CompactSnapshot { snapshot, retained_entries } => {
                if snapshot.metadata.last_included_index > self.stable.applied_index {
                    return false;
                }
                self.stable.snapshot = Some(snapshot.duplicate());
                self.stable.entries = retained_entries.duplicate();
                true
            },
            StorageMutation::InstallSnapshot { snapshot, retained_entries, hard_state } => {
                if !snapshot.validate() {
                    return false;
                }
                let index = snapshot.metadata.last_included_index;
                self.forget_applied_through(index);
                self.state_bytes = snapshot.data.duplicate();
                self.stable.snapshot = Some(snapshot.duplicate());
                self.stable.entries = retained_entries.duplicate();
                self.stable.hard_state = *hard_state;
                self.stable.applied_index = index;
                true
            },
        }
    }

    /// Applies an entry, if it is the next committed one.
    pub fn apply(&mut self, entry: &LogEntry) -> (applied: bool)
        ensures
            applied == old(self).deep_view().can_apply(entry.deep_view()),
            final(self).deep_view() == (if applied {
                old(self).deep_view().with_applied(entry.deep_view())
            } else {
                old(self).deep_view()
            }),
    {
        let last = self.stable.applied_index;
        if entry.index == 0 || entry.index - 1 != last || entry.index
            > self.stable.hard_state.commit_index {
            return false;
        }
        let ghost before = self.state_bytes@;
        if let EntryPayload::Command { id, bytes } = &entry.payload {
            put_le(&mut self.state_bytes, entry.index, 8);
            put_le(&mut self.state_bytes, entry.term, 8);
            put_le_wide(&mut self.state_bytes, *id, 16);
            put_le(&mut self.state_bytes, bytes.len() as u64, 8);
            put_bytes(&mut self.state_bytes, bytes.as_slice());
        }
        assert(self.state_bytes@ =~= before + state_addition(entry.deep_view()));
        self.stable.applied_index = entry.index;
        self.applied.insert(entry.index, EntryIdentity::of(entry));
        true
    }
}

} // verus!
