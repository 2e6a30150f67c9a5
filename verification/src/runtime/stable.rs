//! What a node keeps of the replicated log, and how it may change.

use vstd::prelude::*;
use crate::model::{Model, outcome};
use crate::raft::types::{
    HardState, LogEntry, LogEntryView, PersistentSnapshot, PersistentSnapshotView, StableState,
    StableStateView, StorageMutation, StorageMutationView,
};
use crate::runtime::error::{Result, RuntimeError, RuntimeErrorKind, corrupt};
use crate::runtime::frame::{
    snapshot_file_name, snapshot_name, storable_snapshot, validate_snapshot,
};
use crate::text::decimal_text;
use crate::types::{labelled, message};

verus! {

broadcast use crate::model::group_contents;

/// The format of the file of a state.
pub const STORED_STATE_FORMAT: u16 = 2;

/// The format of the file of an intent.
pub const INSTALL_FORMAT: u16 = 1;

/// A snapshot that is to be taken on, and what is to be stored with it.
#[derive(Debug, Clone, PartialEq, Eq)]
pub struct PendingSnapshotInstall {
    pub snapshot: PersistentSnapshot,
    pub retained_entries: Vec<LogEntry>,
    pub hard_state: HardState,
}

/// The content of a [`PendingSnapshotInstall`].
#[verifier::ext_equal]
pub struct PendingSnapshotInstallView {
    pub snapshot: PersistentSnapshotView,
    pub retained_entries: Seq<LogEntryView>,
    pub hard_state: HardState,
}

impl DeepView for PendingSnapshotInstall {
    type V = PendingSnapshotInstallView;

    open spec fn deep_view(&self) -> PendingSnapshotInstallView {
        PendingSnapshotInstallView {
            snapshot: self.snapshot.deep_view(),
            retained_entries: self.retained_entries.deep_view(),
            hard_state: self.hard_state.deep_view(),
        }
    }
}

impl Model for PendingSnapshotInstall {
    fn duplicate(&self) -> (copy: Self) {
        PendingSnapshotInstall {
            snapshot: self.snapshot.duplicate(),
            retained_entries: self.retained_entries.duplicate(),
            hard_state: self.hard_state.duplicate(),
        }
    }

    fn same(&self, other: &Self) -> (equal: bool) {
        self.snapshot.same(&other.snapshot)
            && self.retained_entries.same(&other.retained_entries)
            && self.hard_state.same(&other.hard_state)
    }
}
/// The entries follow an entry with this index and term, and leave room for one
/// more.
pub open spec fn entries_follow(index: u64, term: u64, entries: Seq<LogEntryView>) -> bool {
    &&& index + 1 + entries.len() <= u64::MAX
    &&& forall|i: int|
        0 <= i < entries.len() ==> (#[trigger] entries[i]).index == index + 1 + i
            && entries[i].term >= term
    &&& forall|i: int, j: int|
        0 <= i < j < entries.len() ==> (#[trigger] entries[i]).term <= (#[trigger] entries[j]).term
}

impl StableStateView {
    /// The last entry that the snapshot stands for.
    pub open spec fn base_index(self) -> u64 {
        match self.snapshot {
            Some(snapshot) => snapshot.metadata.last_included_index,
            None => 0,
        }
    }

    /// The term of the last entry that the snapshot stands for.
    pub open spec fn base_term(self) -> u64 {
        match self.snapshot {
            Some(snapshot) => snapshot.metadata.last_included_term,
            None => 0,
        }
    }

    pub open spec fn last_index(self) -> u64 {
        if self.entries.len() > 0 {
            self.entries.last().index
        } else {
            self.base_index()
        }
    }

    pub open spec fn last_term(self) -> u64 {
        if self.entries.len() > 0 {
            self.entries.last().term
        } else {
            self.base_term()
        }
    }

    /// The term of an entry that is kept, or that the snapshot ends with.
    pub open spec fn term_at(self, index: u64) -> Option<u64> {
        if index == self.base_index() && index != 0 {
            Some(self.base_term())
        } else if index <= self.base_index() || index - self.base_index() - 1
            >= self.entries.len() {
            None
        } else {
            Some(self.entries[index - self.base_index() - 1].term)
        }
    }

    /// The entries behind an index.
    pub open spec fn suffix_after(self, index: u64) -> Option<Seq<LogEntryView>> {
        if index < self.base_index() || index > self.last_index() || index - self.base_index()
            > self.entries.len() {
            None
        } else {
            Some(
                self.entries.subrange(
                    index - self.base_index(),
                    self.entries.len() as int,
                ),
            )
        }
    }

    /// The state is one that a node can start from.
    pub open spec fn consistent(self) -> bool {
        &&& self.snapshot matches Some(snapshot) ==> storable_snapshot(snapshot)
        &&& self.base_index() <= self.applied_index <= self.hard_state.commit_index
            <= self.last_index()
        &&& entries_follow(self.base_index(), self.base_term(), self.entries)
    }

    /// The state after a change, if the change is allowed: neither term nor
    /// commit index go back, a vote stays for its term, and what is committed
    /// stays.
    pub open spec fn changed(self, mutation: StorageMutationView) -> Option<StableStateView> {
        let next = match mutation {
            StorageMutationView::HardState(hard_state) => if keeps_promises(
                self.hard_state,
                hard_state,
            ) && hard_state.commit_index <= self.last_index() {
                Some(StableStateView { hard_state, ..self })
            } else {
                None
            },
            StorageMutationView::Append(entries) => if entries_follow(
                self.last_index(),
                self.last_term(),
                entries,
            ) {
                Some(StableStateView { entries: self.entries + entries, ..self })
            } else {
                None
            },
            StorageMutationView::TruncateAndAppend { from, entries } => if from
                <= self.hard_state.commit_index || from <= self.base_index() || from
                - self.base_index() - 1 > self.entries.len() {
                None
            } else {
                let kept = StableStateView {
                    entries: self.entries.subrange(0, from - self.base_index() - 1),
                    ..self
                };
                if (entries.len() > 0 ==> entries[0].index == from) && entries_follow(
                    kept.last_index(),
                    kept.last_term(),
                    entries,
                ) {
                    Some(StableStateView { entries: kept.entries + entries, ..kept })
                } else {
                    None
                }
            },
            StorageMutationView::CompactSnapshot { snapshot, retained_entries } => {
                let index = snapshot.metadata.last_included_index;
                if storable_snapshot(snapshot) && index <= self.applied_index && self.term_at(index)
                    == Some(snapshot.metadata.last_included_term) && self.suffix_after(index)
                    == Some(retained_entries) {
                    Some(
                        StableStateView {
                            snapshot: Some(snapshot),
                            entries: retained_entries,
                            ..self
                        },
                    )
                } else {
                    None
                }
            },
            StorageMutationView::InstallSnapshot { .. } => None,
        };
        match next {
            Some(state) => if state.consistent() {
                Some(state)
            } else {
                None
            },
            None => None,
        }
    }
}

/// Neither term nor commit index go back, and a vote stays for its term.
pub open spec fn keeps_promises(current: HardState, next: HardState) -> bool {
    &&& next.current_term >= current.current_term
    &&& next.commit_index >= current.commit_index
    &&& next.current_term == current.current_term && current.voted_for is Some ==> next.voted_for
        == current.voted_for
}

impl PendingSnapshotInstallView {
    /// The state after the snapshot is taken on.
    pub open spec fn stable_state(self) -> StableStateView {
        StableStateView {
            hard_state: self.hard_state,
            snapshot: Some(self.snapshot),
            entries: self.retained_entries,
            applied_index: self.snapshot.metadata.last_included_index,
        }
    }
}

impl PendingSnapshotInstall {
    /// The state after the snapshot is taken on.
    pub fn stable_state(&self) -> (state: StableState)
        ensures
            state.deep_view() == self.deep_view().stable_state(),
    {
        StableState {
            hard_state: self.hard_state,
            snapshot: Some(self.snapshot.duplicate()),
            entries: self.retained_entries.duplicate(),
            applied_index: self.snapshot.metadata.last_included_index,
        }
    }
}

fn base_index(state: &StableState) -> (index: u64)
    ensures
        index == state.deep_view().base_index(),
{
    match &state.snapshot {
        Some(snapshot) => snapshot.metadata.last_included_index,
        None => 0,
    }
}

fn base_term(state: &StableState) -> (term: u64)
    ensures
        term == state.deep_view().base_term(),
{
    match &state.snapshot {
        Some(snapshot) => snapshot.metadata.last_included_term,
        None => 0,
    }
}

fn last_index(state: &StableState) -> (index: u64)
    ensures
        index == state.deep_view().last_index(),
{
    let count: usize = state.entries.len();
    if count > 0 {
        assert(state.deep_view().entries[count - 1] == state.entries@[count - 1].deep_view());
        state.entries[count - 1].index
    } else {
        base_index(state)
    }
}

fn last_term(state: &StableState) -> (term: u64)
    ensures
        term == state.deep_view().last_term(),
{
    let count: usize = state.entries.len();
    if count > 0 {
        assert(state.deep_view().entries[count - 1] == state.entries@[count - 1].deep_view());
        state.entries[count - 1].term
    } else {
        base_term(state)
    }
}

/// The term of an entry that is kept, or that the snapshot ends with.
pub fn term_at(state: &StableState, index: u64) -> (term: Option<u64>)
    ensures
        term == state.deep_view().term_at(index),
{
    let base: u64 = base_index(state);
    if index == base && index != 0 {
        return Some(base_term(state));
    }
    if index <= base || index - base - 1 >= state.entries.len() as u64 {
        return None;
    }
    let offset: usize = (index - base - 1) as usize;
    assert(state.deep_view().entries[offset as int] == state.entries@[offset as int].deep_view());
    Some(state.entries[offset].term)
}

/// The entries behind an index.
pub fn suffix_after(state: &StableState, index: u64) -> (suffix: Option<Vec<LogEntry>>)
    ensures
        suffix.deep_view() == state.deep_view().suffix_after(index),
{
    let base: u64 = base_index(state);
    if index < base || index > last_index(state) || index - base > state.entries.len() as u64 {
        return None;
    }
    let offset: usize = (index - base) as usize;
    let suffix = entries_between(&state.entries, offset, state.entries.len());
    Some(suffix)
}

fn entries_between(entries: &Vec<LogEntry>, from: usize, to: usize) -> (part: Vec<LogEntry>)
    requires
        from <= to <= entries@.len(),
    ensures
        part.deep_view() == entries.deep_view().subrange(from as int, to as int),
{
    let ghost view = entries.deep_view();
    let mut part: Vec<LogEntry> = Vec::with_capacity(to - from);
    let mut i: usize = from;
    while i < to
        invariant
            from <= i <= to <= entries@.len(),
            view == entries.deep_view(),
            part@.len() == i - from,
            forall|j: int|
                0 <= j < part@.len() ==> (#[trigger] part@[j]).deep_view() == view[from + j],
        decreases to - i,
    {
        part.push(entries[i].duplicate());
        i = i + 1;
    }
    assert(part.deep_view() =~= view.subrange(from as int, to as int));
    part
}

fn joined_entries(first: &Vec<LogEntry>, second: &Vec<LogEntry>) -> (joined: Vec<LogEntry>)
    ensures
        joined.deep_view() == first.deep_view() + second.deep_view(),
{
    let ghost a = first.deep_view();
    let ghost b = second.deep_view();
    let mut joined = first.duplicate();
    let mut i: usize = 0;
    assert(a + b.subrange(0, 0) =~= a);
    while i < second.len()
        invariant
            i <= second@.len(),
            b == second.deep_view(),
            joined.deep_view() == a + b.subrange(0, i as int),
        decreases second@.len() - i,
    {
        let ghost before = joined.deep_view();
        let entry = second[i].duplicate();
        joined.push(entry);
        assert(joined.deep_view() =~= before.push(entry.deep_view()));
        assert(a + b.subrange(0, i + 1) =~= (a + b.subrange(0, i as int)).push(b[i as int]));
        i = i + 1;
    }
    assert(b.subrange(0, i as int) =~= b);
    joined
}

/// Fails unless the entries follow an entry with this index and term.
pub fn validate_entry_sequence(index: u64, term: u64, entries: &Vec<LogEntry>) -> (result: Result<
    (),
>)
    ensures
        outcome(result) == if entries_follow(index, term, entries.deep_view()) {
            Ok::<(), RuntimeErrorKind>(())
        } else {
            Err(RuntimeErrorKind::Corruption)
        },
{
    let ghost view = entries.deep_view();
    if index == u64::MAX {
        return Err(corrupt("Raft log index overflow"));
    }
    let mut expected: u64 = index + 1;
    let mut previous_term: u64 = term;
    let mut i: usize = 0;
    while i < entries.len()
        invariant
            i <= entries@.len(),
            view == entries.deep_view(),
            expected == index + 1 + i,
            previous_term == (if i == 0 {
                term
            } else {
                view[i - 1].term
            }),
            forall|j: int|
                0 <= j < i ==> (#[trigger] view[j]).index == index + 1 + j && term <= view[j].term
                    <= previous_term,
            forall|j: int, k: int|
                0 <= j < k < i ==> (#[trigger] view[j]).term <= (#[trigger] view[k]).term,
        decreases entries@.len() - i,
    {
        assert(view[i as int] == entries@[i as int].deep_view());
        if entries[i].index != expected || entries[i].term < previous_term {
            proof {
                if i > 0 && entries_follow(index, term, view) {
                    assert(view[i - 1].term <= view[i as int].term);
                }
            }
            return Err(
                RuntimeError::Corruption(
                    message(
                        &[
                            "invalid Raft entry sequence at index ",
                            &decimal_text(entries[i].index),
                            " term ",
                            &decimal_text(entries[i].term),
                        ],
                    ),
                ),
            );
        }
        if expected == u64::MAX {
            return Err(corrupt("Raft log index overflow"));
        }
        expected = expected + 1;
        previous_term = entries[i].term;
        i = i + 1;
    }
    Ok(())
}

/// Fails unless a node can start from the state.
pub fn validate_indexes(state: &StableState) -> (result: Result<()>)
    ensures
        outcome(result) == if state.deep_view().consistent() {
            Ok::<(), RuntimeErrorKind>(())
        } else {
            Err(RuntimeErrorKind::Corruption)
        },
{
    if let Some(snapshot) = &state.snapshot {
        if let Err(error) = validate_snapshot(snapshot) {
            return Err(error);
        }
    }
    let base: u64 = base_index(state);
    let last: u64 = last_index(state);
    if state.applied_index < base || state.applied_index > state.hard_state.commit_index
        || state.hard_state.commit_index > last {
        return Err(
            RuntimeError::Corruption(
                message(
                    &[
                        "invalid Raft indexes base=",
                        &decimal_text(base),
                        " applied=",
                        &decimal_text(state.applied_index),
                        " commit=",
                        &decimal_text(state.hard_state.commit_index),
                        " last=",
                        &decimal_text(last),
                    ],
                ),
            ),
        );
    }
    if state.entries.len() > 0 {
        assert(state.entries.deep_view()[0] == state.entries@[0].deep_view());
        let expected: u64 = if base == u64::MAX {
            base
        } else {
            base + 1
        };
        if state.entries[0].index != expected {
            return Err(
                RuntimeError::Corruption(
                    message(
                        &[
                            "retained Raft log begins at ",
                            &decimal_text(state.entries[0].index),
                            ", expected ",
                            &decimal_text(expected),
                        ],
                    ),
                ),
            );
        }
    }
    validate_entry_sequence(base, base_term(state), &state.entries)
}

/// Fails unless neither term nor commit index go back and a vote stays.
pub fn validate_hard_state_monotonic(current: HardState, next: HardState) -> (result: Result<()>)
    ensures
        outcome(result) == if keeps_promises(current, next) {
            Ok::<(), RuntimeErrorKind>(())
        } else {
            Err(RuntimeErrorKind::Corruption)
        },
{
    if next.current_term < current.current_term || next.commit_index < current.commit_index {
        return Err(corrupt("Raft hard state term or commit index regressed"));
    }
    if next.current_term == current.current_term && current.voted_for.is_some()
        && !next.voted_for.same(&current.voted_for) {
        return Err(corrupt("persisted vote changed within one term"));
    }
    Ok(())
}

/// The state after a change, if the change is allowed.
pub fn apply_mutation(state: &StableState, mutation: &StorageMutation) -> (result: Result<
    StableState,
>)
    ensures
        outcome(result) == match state.deep_view().changed(mutation.deep_view()) {
            Some(next) => Ok::<StableStateView, RuntimeErrorKind>(next),
            None => Err(RuntimeErrorKind::Corruption),
        },
{
    let ghost view = state.deep_view();
    let next = match mutation {
        StorageMutation::HardState(hard_state) => {
            if let Err(error) = validate_hard_state_monotonic(state.hard_state, *hard_state) {
                return Err(error);
            }
            if hard_state.commit_index > last_index(state) {
                return Err(
                    RuntimeError::Corruption(
                        message(
                            &[
                                "commit ",
                                &decimal_text(hard_state.commit_index),
                                " is beyond durable log ",
                                &decimal_text(last_index(state)),
                            ],
                        ),
                    ),
                );
            }
            StableState {
                hard_state: *hard_state,
                snapshot: state.snapshot.duplicate(),
                entries: state.entries.duplicate(),
                applied_index: state.applied_index,
            }
        },
        StorageMutation::Append(entries) => {
            let last: u64 = last_index(state);
            if entries.len() > 0 && last < u64::MAX {
                assert(entries.deep_view()[0] == entries@[0].deep_view());
                if entries[0].index != last + 1 {
                    return Err(
                        RuntimeError::Corruption(
                            message(
                                &[
                                    "Raft append starts at ",
                                    &decimal_text(entries[0].index),
                                    ", expected ",
                                    &decimal_text(last + 1),
                                ],
                            ),
                        ),
                    );
                }
            }
            if let Err(error) = validate_entry_sequence(
                last,
                last_term(state),
                entries,
            ) {
                return Err(error);
            }
            StableState {
                hard_state: state.hard_state,
                snapshot: state.snapshot.duplicate(),
                entries: joined_entries(&state.entries, entries),
                applied_index: state.applied_index,
            }
        },
        StorageMutation::TruncateAndAppend { from, entries } => {
            let base: u64 = base_index(state);
            if *from <= state.hard_state.commit_index {
                return Err(
                    RuntimeError::Corruption(
                        labelled("attempted to truncate committed Raft index ", &decimal_text(*from)),
                    ),
                );
            }
            if *from <= base {
                return Err(corrupt("attempted to truncate before compacted Raft base"));
            }
            if *from - base - 1 > state.entries.len() as u64 {
                return Err(corrupt("Raft truncate starts beyond log end"));
            }
            let keep: usize = (*from - base - 1) as usize;
            let kept = StableState {
                hard_state: state.hard_state,
                snapshot: state.snapshot.duplicate(),
                entries: entries_between(&state.entries, 0, keep),
                applied_index: state.applied_index,
            };
            if entries.len() > 0 {
                assert(entries.deep_view()[0] == entries@[0].deep_view());
                if entries[0].index != *from {
                    return Err(corrupt("replacement Raft suffix starts at the wrong index"));
                }
            }
            if let Err(error) = validate_entry_sequence(
                last_index(&kept),
                last_term(&kept),
                entries,
            ) {
                return Err(error);
            }
            let joined = joined_entries(&kept.entries, entries);
            StableState { entries: joined, ..kept }
        },
        StorageMutation::CompactSnapshot { snapshot, retained_entries } => {
            let index: u64 = snapshot.metadata.last_included_index;
            if let Err(error) = validate_snapshot(snapshot) {
                return Err(error);
            }
            if index > state.applied_index {
                return Err(corrupt("cannot compact beyond the durable applied index"));
            }
            let same_term = term_at(state, index).same(
                &Some(snapshot.metadata.last_included_term),
            );
            let same_suffix = match suffix_after(state, index) {
                Some(suffix) => suffix.same(retained_entries),
                None => false,
            };
            if !same_term || !same_suffix {
                return Err(
                    corrupt(
                        "compacted snapshot boundary or retained suffix disagrees with the durable log",
                    ),
                );
            }
            StableState {
                hard_state: state.hard_state,
                snapshot: Some(snapshot.duplicate()),
                entries: retained_entries.duplicate(),
                applied_index: state.applied_index,
            }
        },
        StorageMutation::InstallSnapshot { .. } => {
            return Err(corrupt("snapshot install must use the durable cross-file intent path"));
        },
    };
    match validate_indexes(&next) {
        Ok(()) => Ok(next),
        Err(error) => Err(error),
    }
}

/// The stored state of a node, and the snapshot that it is about to take on.
#[derive(Debug)]
pub struct StableStore {
    state: StableState,
    pending_install: Option<PendingSnapshotInstall>,
}

/// The content of a [`StableStore`].
#[verifier::ext_equal]
pub struct StableStoreView {
    pub state: StableStateView,
    pub pending_install: Option<PendingSnapshotInstallView>,
}

impl DeepView for StableStore {
    type V = StableStoreView;

    closed spec fn deep_view(&self) -> StableStoreView {
        StableStoreView {
            state: self.state.deep_view(),
            pending_install: self.pending_install.deep_view(),
        }
    }
}

/// Any state can be written down.
pub open spec fn publishable<W: FnOnce(&StableState) -> Result<()>>(publish: W) -> bool {
    forall|state: &StableState| #[trigger] call_requires(publish, (state,))
}

/// A state was given to be written down, and this came back.
pub open spec fn published_as<W: FnOnce(&StableState) -> Result<()>>(
    publish: W,
    state: StableStateView,
    answer: std::result::Result<(), RuntimeErrorKind>,
) -> bool {
    exists|s: StableState, returned: Result<()>|
        s.deep_view() == state && #[trigger] call_ensures(publish, (&s,), returned) && outcome(
            returned,
        ) == answer
}

/// Storing a state: the store takes it on only after it is written down.
pub open spec fn stores<W: FnOnce(&StableState) -> Result<()>>(
    publish: W,
    before: StableStoreView,
    next: StableStateView,
    after: StableStoreView,
    result: std::result::Result<(), RuntimeErrorKind>,
) -> bool {
    published_as(publish, next, result) && after == (if result is Ok {
        StableStoreView { state: next, ..before }
    } else {
        before
    })
}

/// Any snapshot that is to be taken on can be written down.
pub open spec fn intendable<W: FnOnce(&PendingSnapshotInstall) -> Result<()>>(publish: W) -> bool {
    forall|intent: &PendingSnapshotInstall| #[trigger] call_requires(publish, (intent,))
}

/// A snapshot that is to be taken on was given to be written down, and this came
/// back.
pub open spec fn intended_as<W: FnOnce(&PendingSnapshotInstall) -> Result<()>>(
    publish: W,
    intent: PendingSnapshotInstallView,
    answer: std::result::Result<(), RuntimeErrorKind>,
) -> bool {
    exists|i: PendingSnapshotInstall, returned: Result<()>|
        i.deep_view() == intent && #[trigger] call_ensures(publish, (&i,), returned) && outcome(
            returned,
        ) == answer
}

impl StableStoreView {
    /// The names of the snapshot files that the store needs.
    pub open spec fn needed_files(self) -> Seq<Seq<char>> {
        (match self.state.snapshot {
            Some(snapshot) => seq![
                snapshot_name(snapshot.metadata.last_included_index, snapshot.metadata.sha256),
            ],
            None => Seq::empty(),
        }) + (match self.pending_install {
            Some(pending) => seq![
                snapshot_name(
                    pending.snapshot.metadata.last_included_index,
                    pending.snapshot.metadata.sha256,
                ),
            ],
            None => Seq::empty(),
        })
    }

    /// The snapshot may be taken on: it is newer than what is applied, keeps what
    /// was promised, and keeps exactly the entries that follow it here.
    pub open spec fn admits(self, intent: PendingSnapshotInstallView) -> bool {
        let index = intent.snapshot.metadata.last_included_index;
        let suffix = if self.state.term_at(index) == Some(
            intent.snapshot.metadata.last_included_term,
        ) && self.state.suffix_after(index) is Some {
            self.state.suffix_after(index)->0
        } else {
            Seq::empty()
        };
        &&& storable_snapshot(intent.snapshot)
        &&& keeps_promises(self.state.hard_state, intent.hard_state)
        &&& intent.stable_state().consistent()
        &&& intent.retained_entries == suffix
        &&& index > self.state.applied_index
    }

    /// Whether an index may be marked as applied next.
    pub open spec fn may_apply(self, index: u64) -> bool {
        index == self.state.applied_index + 1 && index <= self.state.hard_state.commit_index
    }

    /// The invariant of the store.
    pub open spec fn well_formed(self) -> bool {
        &&& self.state.consistent()
        &&& self.pending_install matches Some(pending) ==> pending.stable_state().consistent()
    }
}

/// A state that was read from a file of a format, if a node can start from it.
pub fn stored_state(format: u16, state: StableState) -> (result: Result<StableState>)
    ensures
        outcome(result) == if format == STORED_STATE_FORMAT && state.deep_view().consistent() {
            Ok::<StableStateView, RuntimeErrorKind>(state.deep_view())
        } else {
            Err(RuntimeErrorKind::Corruption)
        },
{
    if format != STORED_STATE_FORMAT {
        return Err(
            RuntimeError::Corruption(
                labelled("unsupported stored Raft-state format ", &decimal_text(format as u64)),
            ),
        );
    }
    if let Err(error) = validate_indexes(&state) {
        return Err(error);
    }
    Ok(state)
}

/// An intent that was read from a file of a format, if a node can go on with it.
pub fn stored_intent(format: u16, intent: PendingSnapshotInstall) -> (result: Result<
    PendingSnapshotInstall,
>)
    ensures
        outcome(result) == if format == INSTALL_FORMAT
            && intent.deep_view().stable_state().consistent() {
            Ok::<PendingSnapshotInstallView, RuntimeErrorKind>(intent.deep_view())
        } else {
            Err(RuntimeErrorKind::Corruption)
        },
{
    if format != INSTALL_FORMAT {
        return Err(
            RuntimeError::Corruption(
                labelled("unsupported snapshot-install format ", &decimal_text(format as u64)),
            ),
        );
    }
    if let Err(error) = validate_indexes(&intent.stable_state()) {
        return Err(error);
    }
    Ok(intent)
}

impl StableStore {
    #[verifier::type_invariant]
    spec fn kept(self) -> bool {
        self.deep_view().well_formed()
    }

    /// A store with the state that was read, if a node can start from it.
    pub fn open(state: StableState, pending_install: Option<PendingSnapshotInstall>) -> (result:
        Result<StableStore>)
        ensures
            outcome(result) == if state.deep_view().consistent() && (
            pending_install.deep_view() matches Some(pending)
                ==> pending.stable_state().consistent()) {
                Ok::<StableStoreView, RuntimeErrorKind>(
                    StableStoreView {
                        state: state.deep_view(),
                        pending_install: pending_install.deep_view(),
                    },
                )
            } else {
                Err(RuntimeErrorKind::Corruption)
            },
    {
        if let Err(error) = validate_indexes(&state) {
            return Err(error);
        }
        if let Some(pending) = &pending_install {
            if let Err(error) = validate_indexes(&pending.stable_state()) {
                return Err(error);
            }
        }
        Ok(StableStore { state, pending_install })
    }

    pub fn state(&self) -> (state: &StableState)
        ensures
            state.deep_view() == self.deep_view().state,
            state.deep_view().consistent(),
    {
        proof {
            use_type_invariant(self);
        }
        &self.state
    }

    pub fn pending_install(&self) -> (pending: Option<PendingSnapshotInstall>)
        ensures
            pending.deep_view() == self.deep_view().pending_install,
    {
        self.pending_install.duplicate()
    }

    /// The names of the snapshot files that the store needs.
    pub fn needed_files(&self) -> (names: Vec<String>)
        ensures
            names.deep_view() == self.deep_view().needed_files(),
    {
        let mut names: Vec<String> = Vec::new();
        assert(names.deep_view() =~= Seq::<Seq<char>>::empty());
        if let Some(snapshot) = &self.state.snapshot {
            names.push(snapshot_file_name(&snapshot.metadata));
        }
        let ghost first = names.deep_view();
        if let Some(pending) = &self.pending_install {
            let name = snapshot_file_name(&pending.snapshot.metadata);
            let ghost text = name@;
            names.push(name);
            assert(names.deep_view() =~= first.push(text));
        }
        assert(names.deep_view() =~= self.deep_view().needed_files());
        names
    }

    /// The last entry that the stored snapshot stands for.
    pub fn snapshot_index(&self) -> (index: Option<u64>)
        ensures
            index == match self.deep_view().state.snapshot {
                Some(snapshot) => Some(snapshot.metadata.last_included_index),
                None => None,
            },
    {
        match &self.state.snapshot {
            Some(snapshot) => Some(snapshot.metadata.last_included_index),
            None => None,
        }
    }

    /// The length of the data of the stored snapshot.
    pub fn snapshot_bytes(&self) -> (bytes: Option<u64>)
        ensures
            bytes == match self.deep_view().state.snapshot {
                Some(snapshot) => Some(snapshot.metadata.byte_len),
                None => None,
            },
    {
        match &self.state.snapshot {
            Some(snapshot) => Some(snapshot.metadata.byte_len),
            None => None,
        }
    }

    pub fn retained_entry_count(&self) -> (count: usize)
        ensures
            count == self.deep_view().state.entries.len(),
    {
        self.state.entries.len()
    }

    /// The term of an entry that is kept, or that the snapshot ends with.
    pub fn term_at(&self, index: u64) -> (term: Option<u64>)
        ensures
            term == self.deep_view().state.term_at(index),
    {
        term_at(&self.state, index)
    }

    fn replace(&mut self, state: StableState)
        requires
            state.deep_view().consistent(),
        ensures
            final(self).deep_view() == (StableStoreView {
                state: state.deep_view(),
                ..old(self).deep_view()
            }),
    {
        proof {
            use_type_invariant(&*self);
        }
        let mut pending_install: Option<PendingSnapshotInstall> = None;
        std::mem::swap(&mut pending_install, &mut self.pending_install);
        *self = StableStore { state, pending_install };
    }

    /// Makes a change, if it is allowed, after it is written down.
    pub fn persist<W: FnOnce(&StableState) -> Result<()>>(
        &mut self,
        publish: W,
        mutation: &StorageMutation,
    ) -> (result: Result<()>)
        requires
            publishable(publish),
        ensures
            match old(self).deep_view().state.changed(mutation.deep_view()) {
                None => final(self).deep_view() == old(self).deep_view() && outcome(result) == Err::<
                    (),
                    RuntimeErrorKind,
                >(RuntimeErrorKind::Corruption),
                Some(next) => stores(
                    publish,
                    old(self).deep_view(),
                    next,
                    final(self).deep_view(),
                    outcome(result),
                ),
            },
    {
        let next = match apply_mutation(&self.state, mutation) {
            Ok(next) => next,
            Err(error) => return Err(error),
        };
        let written = publish(&next);
        assert(published_as(publish, next.deep_view(), outcome(written)));
        if let Err(error) = written {
            return Err(error);
        }
        self.replace(next);
        Ok(())
    }

    /// Marks an entry as applied, after that is written down. Entries are applied
    /// one by one, and only committed ones; the last one may be marked again.
    pub fn mark_applied<W: FnOnce(&StableState) -> Result<()>>(&mut self, publish: W, index: u64) -> (result:
        Result<()>)
        requires
            publishable(publish),
        ensures
            if index == old(self).deep_view().state.applied_index {
                final(self).deep_view() == old(self).deep_view() && outcome(result) == Ok::<
                    (),
                    RuntimeErrorKind,
                >(())
            } else if !old(self).deep_view().may_apply(index) {
                final(self).deep_view() == old(self).deep_view() && outcome(result) == Err::<
                    (),
                    RuntimeErrorKind,
                >(RuntimeErrorKind::Corruption)
            } else {
                stores(
                    publish,
                    old(self).deep_view(),
                    StableStateView { applied_index: index, ..old(self).deep_view().state },
                    final(self).deep_view(),
                    outcome(result),
                )
            },
    {
        proof {
            use_type_invariant(&*self);
        }
        let applied: u64 = self.state.applied_index;
        if index == applied {
            return Ok(());
        }
        if applied == u64::MAX {
            return Err(corrupt("Raft applied index overflow"));
        }
        if index != applied + 1 || index > self.state.hard_state.commit_index {
            return Err(
                RuntimeError::Corruption(
                    message(
                        &[
                            "cannot mark applied index ",
                            &decimal_text(index),
                            "; expected ",
                            &decimal_text(applied + 1),
                            ", commit is ",
                            &decimal_text(self.state.hard_state.commit_index),
                        ],
                    ),
                ),
            );
        }
        let next = StableState {
            hard_state: self.state.hard_state,
            snapshot: self.state.snapshot.duplicate(),
            entries: self.state.entries.duplicate(),
            applied_index: index,
        };
        let written = publish(&next);
        assert(published_as(publish, next.deep_view(), outcome(written)));
        if let Err(error) = written {
            return Err(error);
        }
        self.replace(next);
        Ok(())
    }

    /// Writes down that a snapshot is to be taken on, before any file changes
    /// for it. The same snapshot may be announced again.
    pub fn begin_snapshot_install<W: FnOnce(&PendingSnapshotInstall) -> Result<()>>(
        &mut self,
        publish: W,
        snapshot: &PersistentSnapshot,
        retained_entries: &Vec<LogEntry>,
        hard_state: HardState,
    ) -> (result: Result<()>)
        requires
            intendable(publish),
        ensures
            ({
                let before = old(self).deep_view();
                let intent = PendingSnapshotInstallView {
                    snapshot: snapshot.deep_view(),
                    retained_entries: retained_entries.deep_view(),
                    hard_state,
                };
                if !before.admits(intent) {
                    final(self).deep_view() == before && outcome(result) == Err::<
                        (),
                        RuntimeErrorKind,
                    >(RuntimeErrorKind::Corruption)
                } else {
                    match before.pending_install {
                        Some(existing) => final(self).deep_view() == before && outcome(result)
                            == if existing == intent {
                            Ok::<(), RuntimeErrorKind>(())
                        } else {
                            Err(RuntimeErrorKind::Corruption)
                        },
                        None => intended_as(publish, intent, outcome(result))
                            && final(self).deep_view() == (if result is Ok {
                            StableStoreView { pending_install: Some(intent), ..before }
                        } else {
                            before
                        }),
                    }
                }
            }),
    {
        proof {
            use_type_invariant(&*self);
        }
        let ghost before = self.deep_view();
        if let Err(error) = validate_snapshot(snapshot) {
            return Err(error);
        }
        let intent = PendingSnapshotInstall {
            snapshot: snapshot.duplicate(),
            retained_entries: retained_entries.duplicate(),
            hard_state,
        };
        if let Err(error) = validate_hard_state_monotonic(self.state.hard_state, hard_state) {
            return Err(error);
        }
        if let Err(error) = validate_indexes(&intent.stable_state()) {
            return Err(error);
        }
        let index: u64 = snapshot.metadata.last_included_index;
        let matching = term_at(&self.state, index).same(
            &Some(snapshot.metadata.last_included_term),
        );
        let mut expected: Vec<LogEntry> = Vec::new();
        assert(expected.deep_view() =~= Seq::empty());
        if matching {
            if let Some(suffix) = suffix_after(&self.state, index) {
                expected = suffix;
            }
        }
        if !retained_entries.same(&expected) {
            return Err(
                corrupt("snapshot install retained a suffix that does not match the durable log"),
            );
        }
        if index <= self.state.applied_index {
            return Err(
                RuntimeError::Corruption(
                    message(
                        &[
                            "snapshot install index ",
                            &decimal_text(index),
                            " is not newer than applied index ",
                            &decimal_text(self.state.applied_index),
                        ],
                    ),
                ),
            );
        }
        if let Some(existing) = &self.pending_install {
            if existing.same(&intent) {
                return Ok(());
            }
            return Err(corrupt("a different snapshot install intent is already durable"));
        }
        let written = publish(&intent);
        assert(intended_as(publish, intent.deep_view(), outcome(written)));
        if let Err(error) = written {
            return Err(error);
        }
        self.pending_install = Some(intent);
        Ok(())
    }

    /// Takes on the state of the announced snapshot, after it is written down,
    /// and withdraws the announcement.
    pub fn complete_snapshot_install<
        W: FnOnce(&StableState) -> Result<()>,
        C: FnOnce() -> Result<()>,
    >(&mut self, publish: W, clear: C) -> (result: Result<()>)
        requires
            publishable(publish),
            call_requires(clear, ()),
        ensures
            match old(self).deep_view().pending_install {
                None => final(self).deep_view() == old(self).deep_view() && outcome(result) == Err::<
                    (),
                    RuntimeErrorKind,
                >(RuntimeErrorKind::Corruption),
                Some(pending) => completes(
                    publish,
                    clear,
                    old(self).deep_view(),
                    pending.stable_state(),
                    final(self).deep_view(),
                    outcome(result),
                ),
            },
    {
        proof {
            use_type_invariant(&*self);
        }
        let desired = match &self.pending_install {
            Some(pending) => pending.stable_state(),
            None => return Err(corrupt("no durable snapshot install intent exists")),
        };
        if !self.state.same(&desired) {
            let written = publish(&desired);
            assert(published_as(publish, desired.deep_view(), outcome(written)));
            if let Err(error) = written {
                return Err(error);
            }
            self.replace(desired);
        }
        let cleared = clear();
        assert(cleared_as(clear, outcome(cleared)));
        if let Err(error) = cleared {
            return Err(error);
        }
        self.pending_install = None;
        Ok(())
    }
}

/// The announcement was withdrawn, and this came back.
pub open spec fn cleared_as<C: FnOnce() -> Result<()>>(
    clear: C,
    answer: std::result::Result<(), RuntimeErrorKind>,
) -> bool {
    exists|returned: Result<()>| #[trigger] call_ensures(clear, (), returned) && outcome(returned)
        == answer
}

/// Taking on a state, unless it is the one at hand, and then withdrawing the
/// announcement.
pub open spec fn completes<W: FnOnce(&StableState) -> Result<()>, C: FnOnce() -> Result<()>>(
    publish: W,
    clear: C,
    before: StableStoreView,
    desired: StableStateView,
    after: StableStoreView,
    result: std::result::Result<(), RuntimeErrorKind>,
) -> bool {
    ||| {
        &&& before.state != desired
        &&& after == before
        &&& result is Err
        &&& published_as(publish, desired, result)
    }
    ||| {
        &&& before.state != desired ==> published_as(publish, desired, Ok(()))
        &&& cleared_as(clear, result)
        &&& after == StableStoreView {
            state: desired,
            pending_install: if result is Ok {
                None
            } else {
                before.pending_install
            },
        }
    }
}

/// No allowed change takes back a term, a vote within its term, or what is
/// committed.
pub proof fn changes_keep_promises(state: StableStateView, mutation: StorageMutationView)
    requires
        state.consistent(),
    ensures
        state.changed(mutation) matches Some(next) ==> {
            &&& next.consistent()
            &&& keeps_promises(state.hard_state, next.hard_state)
            &&& next.applied_index == state.applied_index
            &&& forall|index: u64|
                next.base_index() < index <= state.hard_state.commit_index ==> {
                    &&& #[trigger] next.term_at(index) == state.term_at(index)
                    &&& next.entries[index - next.base_index() - 1] == state.entries[index
                        - state.base_index() - 1]
                }
        },
{
}

} // verus!
