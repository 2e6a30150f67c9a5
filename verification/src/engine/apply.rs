//! Applying log entries to an engine.

use vstd::prelude::*;
use crate::codec::{encode_ordered, ordered_value};
use crate::digest::sha256;
use crate::engine::access::{initial_is_well_formed, newest_row};
use crate::engine::catalog::{
    Catalog, CatalogView, IndexMeta, IndexMetaView, created_indexes, mutations_keep_validity,
    valid_table_key,
};
use crate::engine::error::{EngineError, EngineErrorKind, Result, constraint};
use crate::engine::mvcc::{
    RowVersion, RowVersionView, SecondaryKey, SecondaryKeyView, SecondaryVersion, chain,
    push_version, removed_among, saturated, total_versions, vacuum_map, vacuumed_map,
};
use crate::engine::outcome::{
    AbortReason, ApplyOutcome, ApplyOutcomeView, ClientRecord, CommitResult, EngineStats,
    RequestRejection, VacuumReport, bump, raise, raised,
};
use crate::engine::state::{
    AdmissionView, Engine, EngineState, EngineView, VersionsView, cell, entry_key, row_at,
};
use crate::engine::transaction::{
    LogicalKey, LogicalKeyView, Mutation, TxnAttempt, TxnAttemptView, TxnWrite,
    canonical_write_has_key,
};
use crate::engine::laws::{
    applying_keeps_invariant, recording_keeps_invariant, vacuum_keeps_invariant,
};
use crate::model::{Model, outcome};
use crate::ordmap::{OrdMap, ordered};
use crate::text::decimal_text;
use crate::types::{ClientRequestId, Error, ErrorKind, Row, Value, between, labelled, message};

verus! {

broadcast use {crate::model::group_contents, crate::engine::state::engine_content};

enum Admission {
    New,
    Duplicate(CommitResult),
    Rejected(RequestRejection),
}

impl EngineState {
    fn admit_request(&self, request: &ClientRequestId, hash: &[u8; 32]) -> (admission: Admission)
        ensures
            match admission {
                Admission::New => self.content().admission(request.deep_view(), hash@)
                    == AdmissionView::New,
                Admission::Duplicate(result) => self.content().admission(request.deep_view(), hash@)
                    == AdmissionView::Duplicate(result.deep_view()),
                Admission::Rejected(rejection) => self.content().admission(
                    request.deep_view(),
                    hash@,
                ) == AdmissionView::Rejected(rejection),
            },
    {
        let record = match self.clients.get(&request.client_id) {
            Some(record) => record,
            None => return if request.sequence == 1 {
                Admission::New
            } else {
                Admission::Rejected(
                    RequestRejection::FirstSequenceMustBeOne { actual: request.sequence },
                )
            },
        };
        if request.sequence < record.sequence {
            Admission::Rejected(
                RequestRejection::SequenceTooOld {
                    latest: record.sequence,
                    actual: request.sequence,
                },
            )
        } else if request.sequence == record.sequence {
            if hash.same(&record.request_hash) {
                Admission::Duplicate(record.result.duplicate())
            } else {
                Admission::Rejected(
                    RequestRejection::SequenceHashMismatch { sequence: request.sequence },
                )
            }
        } else if request.sequence == bump(record.sequence) {
            Admission::New
        } else {
            Admission::Rejected(
                RequestRejection::SequenceGap {
                    expected: bump(record.sequence),
                    actual: request.sequence,
                },
            )
        }
    }

    /// Decides whether an attempt commits: the catalog that it leaves behind
    /// and the indexes that it creates, or why it aborts.
    fn validate_attempt_for_apply(&self, attempt: &TxnAttempt) -> (result: std::result::Result<
        (Catalog, Vec<IndexMeta>),
        AbortReason,
    >)
        requires
            self.content().well_formed(),
            attempt.deep_view().canonical() is Ok,
        ensures
            match result {
                Ok((catalog, created)) => {
                    let mutations = attempt.deep_view().catalog_mutations;
                    &&& self.content().abort(attempt.deep_view()) is None
                    &&& self.content().catalog.mutated(mutations) == Ok::<
                        CatalogView,
                        EngineErrorKind,
                    >(catalog.deep_view())
                    &&& created.deep_view() == created_indexes(mutations, mutations.len() as int)
                },
                Err(reason) => self.content().abort(attempt.deep_view()) == Some(
                    reason.deep_view(),
                ),
            },
    {
        let ghost view = self.content();
        let ghost wanted = attempt.deep_view();
        if attempt.read_ts() < self.retained_floor {
            return Err(
                AbortReason::SnapshotVacuumed {
                    read_ts: attempt.read_ts(),
                    retained_floor: self.retained_floor,
                },
            );
        }
        if attempt.read_ts() > self.last_applied {
            return Err(
                AbortReason::Validation(
                    labelled(
                        &between(
                            "read timestamp ",
                            &decimal_text(attempt.read_ts()),
                            " is ahead of applied index ",
                        ),
                        &decimal_text(self.last_applied),
                    ),
                ),
            );
        }
        if attempt.schema_epoch() != self.catalog.schema_epoch() {
            return Err(
                AbortReason::SchemaChanged {
                    expected: attempt.schema_epoch(),
                    actual: self.catalog.schema_epoch(),
                },
            );
        }
        let (catalog, created) = match self.catalog.duplicate().apply_mutations(
            attempt.catalog_mutations(),
        ) {
            Ok(next) => next,
            Err(error) => return Err(AbortReason::Validation(error.describe())),
        };
        let ghost next = catalog.deep_view();
        proof {
            mutations_keep_validity(view.catalog, wanted.catalog_mutations);
        }
        let writes = attempt.writes();
        let mut i: usize = 0;
        while i < writes.len()
            invariant
                i <= writes@.len(),
                view == self.content(),
                wanted == attempt.deep_view(),
                next == catalog.deep_view(),
                next.valid(),
                writes.deep_view() == wanted.writes,
                wanted.read_ts >= view.retained_floor,
                wanted.read_ts <= view.last_applied,
                wanted.schema_epoch == view.catalog.schema_epoch,
                wanted.canonical() is Ok,
                view.catalog.mutated(wanted.catalog_mutations) == Ok::<
                    CatalogView,
                    EngineErrorKind,
                >(next),
                view.first_write_abort(next, wanted, i as int) is None,
            decreases writes@.len() - i,
        {
            assert(wanted.writes[i as int] == writes@[i as int].deep_view());
            proof {
                canonical_write_has_key(wanted, i as int);
            }
            if let Some(reason) = self.write_abort_reason(&catalog, attempt.read_ts(), &writes[i]) {
                proof {
                    view.write_abort_stays(next, wanted, i + 1, wanted.writes.len() as int);
                }
                return Err(reason);
            }
            i = i + 1;
        }
        Ok((catalog, created))
    }

    fn write_abort_reason(&self, catalog: &Catalog, read_ts: u64, write: &TxnWrite) -> (reason:
        Option<AbortReason>)
        requires
            catalog.deep_view().valid(),
            write.deep_view().logical_key() is Ok,
        ensures
            match reason {
                Some(reason) => self.content().write_abort(
                    catalog.deep_view(),
                    read_ts,
                    write.deep_view(),
                ) == Some(reason.deep_view()),
                None => self.content().write_abort(
                    catalog.deep_view(),
                    read_ts,
                    write.deep_view(),
                ) is None,
            },
    {
        let table = match catalog.table(write.table_id) {
            Some(table) => table,
            None => return Some(
                AbortReason::Validation(
                    labelled("unknown table ", &decimal_text(write.table_id)),
                ),
            ),
        };
        proof {
            assert(catalog.deep_view().tables[write.table_id].valid());
            valid_table_key(table.deep_view());
        }
        let column = &table.schema.columns[table.primary_key_column];
        assert(column.deep_view()
            == table.deep_view().schema.columns[table.primary_key_column as int]);
        let fits = match write.primary_key.data_type() {
            Some(data_type) => data_type == column.data_type,
            None => false,
        };
        if !fits {
            return Some(
                AbortReason::Validation(
                    between("invalid primary key for table `", table.name.as_str(), "`"),
                ),
            );
        }
        if let Mutation::Put(row) = &write.mutation {
            if let Err(error) = table.schema.validate_row(row) {
                return Some(AbortReason::Validation(error.describe()));
            }
            if !row.values[table.primary_key_column].same(&write.primary_key) {
                return Some(
                    AbortReason::Validation(
                        between(
                            "row primary key differs from write key in table `",
                            table.name.as_str(),
                            "`",
                        ),
                    ),
                );
            }
        }
        let key = match write.logical_key() {
            Ok(key) => key,
            Err(error) => return Some(AbortReason::Validation(error.describe())),
        };
        if let Some(versions) = self.primary.get(&key) {
            if versions.len() > 0 && versions[0].commit_index > read_ts {
                assert(versions.deep_view()[0] == versions@[0].deep_view());
                return Some(
                    AbortReason::WriteConflict {
                        table_id: write.table_id,
                        primary_key: write.primary_key.duplicate(),
                        winning_commit: versions[0].commit_index,
                    },
                );
            }
        }
        None
    }

    /// Runs an attempt: commits it or aborts it.
    fn evaluate_and_apply(&mut self, index: u64, attempt: &TxnAttempt) -> (result: CommitResult)
        requires
            old(self).content().well_formed(),
            attempt.deep_view().canonical() is Ok,
        ensures
            old(self).content().result_fits(index, attempt.deep_view(), result.deep_view()),
            final(self).content() == old(self).content().evaluated(
                index,
                attempt.deep_view(),
                result.deep_view(),
            ),
    {
        let ghost view = self.content();
        let ghost wanted = attempt.deep_view();
        let (catalog, created) = match self.validate_attempt_for_apply(attempt) {
            Ok(next) => next,
            Err(reason) => {
                self.stats.aborted_transactions = bump(self.stats.aborted_transactions);
                return CommitResult::Aborted { abort_index: index, reason };
            },
        };
        let ghost before = view.versions();
        let writes = attempt.writes();
        let before_rows = self.rows_before(attempt);

        let mut primary: OrdMap<LogicalKey, Vec<RowVersion>> = OrdMap::new();
        let mut secondary: OrdMap<SecondaryKey, Vec<SecondaryVersion>> = OrdMap::new();
        std::mem::swap(&mut primary, &mut self.primary);
        std::mem::swap(&mut secondary, &mut self.secondary);
        let mut i: usize = 0;
        while i < writes.len()
            invariant
                i <= writes@.len(),
                wanted == attempt.deep_view(),
                wanted.canonical() is Ok,
                writes.deep_view() == wanted.writes,
                before == view.versions(),
                self.catalog.deep_view() == view.catalog,
                before_rows@.len() == writes@.len(),
                forall|j: int|
                    0 <= j < before_rows@.len() ==> (#[trigger] before_rows@[j]).deep_view()
                        == row_at(
                        view.primary,
                        wanted.writes[j].logical_key()->Ok_0,
                        view.last_applied,
                    ),
                (VersionsView { primary: primary.deep_view(), secondary: secondary.deep_view() })
                    == before.with_writes(
                    view.last_applied,
                    view.catalog,
                    wanted.writes,
                    i as int,
                    index,
                ),
            decreases writes@.len() - i,
        {
            assert(wanted.writes[i as int] == writes@[i as int].deep_view());
            proof {
                canonical_write_has_key(wanted, i as int);
            }
            let ghost now = VersionsView {
                primary: primary.deep_view(),
                secondary: secondary.deep_view(),
            };
            let write = &writes[i];
            if let Ok(key) = write.logical_key() {
                let new_row = match &write.mutation {
                    Mutation::Put(row) => Some(row.duplicate()),
                    Mutation::Delete => None,
                };
                let indexes = self.catalog.indexes_for_table(write.table_id);
                let ghost listed = indexes.deep_view();
                let ghost old_row = before_rows@[i as int].deep_view();
                let mut j: usize = 0;
                while j < indexes.len()
                    invariant
                        j <= indexes@.len(),
                        i < before_rows@.len(),
                        listed == indexes.deep_view(),
                        old_row == before_rows@[i as int].deep_view(),
                        (VersionsView { primary: now.primary, secondary: secondary.deep_view() })
                            == now.with_index_changes(
                            listed,
                            j as int,
                            key.deep_view().primary_key,
                            old_row,
                            new_row.deep_view(),
                            index,
                        ),
                    decreases indexes@.len() - j,
                {
                    assert(listed[j as int] == indexes@[j as int].deep_view());
                    update_secondary(
                        &mut secondary,
                        &indexes[j],
                        &key,
                        &before_rows[i],
                        &new_row,
                        index,
                        Ghost(now.primary),
                    );
                    j = j + 1;
                }
                let ghost row = new_row.deep_view();
                push_version(&mut primary, key, RowVersion { commit_index: index, row: new_row });
            }
            i = i + 1;
        }
        let ghost written = VersionsView {
            primary: primary.deep_view(),
            secondary: secondary.deep_view(),
        };
        let ghost listed = created.deep_view();
        let mut i: usize = 0;
        while i < created.len()
            invariant
                i <= created@.len(),
                listed == created.deep_view(),
                written.primary == primary.deep_view(),
                (VersionsView { primary: written.primary, secondary: secondary.deep_view() })
                    == written.with_backfills(listed, i as int, index),
            decreases created@.len() - i,
        {
            assert(listed[i as int] == created@[i as int].deep_view());
            proof {
                written.backfills_keep_rows(listed, i as int, index);
            }
            backfill_index(&primary, &mut secondary, &created[i], index);
            i = i + 1;
        }
        proof {
            written.backfills_keep_rows(listed, i as int, index);
        }
        self.primary = primary;
        self.secondary = secondary;
        self.catalog = catalog;
        self.stats.committed_transactions = bump(self.stats.committed_transactions);
        self.refresh_version_stats();
        CommitResult::Committed {
            commit_index: index,
            affected_rows: writes.len(),
            schema_epoch: self.catalog.schema_epoch(),
        }
    }

    /// The rows that the writes of an attempt replace.
    fn rows_before(&self, attempt: &TxnAttempt) -> (rows: Vec<Option<Row>>)
        requires
            attempt.deep_view().canonical() is Ok,
        ensures
            rows@.len() == attempt.deep_view().writes.len(),
            forall|j: int|
                0 <= j < rows@.len() ==> (#[trigger] rows@[j]).deep_view() == row_at(
                    self.content().primary,
                    attempt.deep_view().writes[j].logical_key()->Ok_0,
                    self.content().last_applied,
                ),
    {
        let ghost view = self.content();
        let ghost wanted = attempt.deep_view();
        let writes = attempt.writes();
        let mut rows: Vec<Option<Row>> = Vec::with_capacity(writes.len());
        let mut i: usize = 0;
        while i < writes.len()
            invariant
                i <= writes@.len(),
                view == self.content(),
                wanted == attempt.deep_view(),
                wanted.canonical() is Ok,
                writes.deep_view() == wanted.writes,
                rows@.len() == i,
                forall|j: int|
                    0 <= j < i ==> (#[trigger] rows@[j]).deep_view() == row_at(
                        view.primary,
                        wanted.writes[j].logical_key()->Ok_0,
                        view.last_applied,
                    ),
            decreases writes@.len() - i,
        {
            assert(wanted.writes[i as int] == writes@[i as int].deep_view());
            proof {
                canonical_write_has_key(wanted, i as int);
            }
            let row = match writes[i].logical_key() {
                Ok(key) => match self.primary.get(&key) {
                    Some(versions) => newest_row(versions, self.last_applied),
                    None => None,
                },
                Err(_) => None,
            };
            rows.push(row);
            i = i + 1;
        }
        rows
    }

    fn refresh_version_stats(&mut self)
        ensures
            final(self).content() == (EngineView {
                stats: old(self).content().counted(old(self).content().stats),
                ..old(self).content()
            }),
    {
        self.stats.primary_versions = total_versions(&self.primary) as u64;
        self.stats.secondary_versions = total_versions(&self.secondary) as u64;
    }
}

fn value_of(row: &Option<Row>, column: usize) -> (value: Option<Value>)
    ensures
        value.deep_view() == cell(row.deep_view(), column),
{
    match row {
        Some(row) => if column < row.values.len() {
            Some(row.values[column].duplicate())
        } else {
            None
        },
        None => None,
    }
}

fn update_secondary(
    secondary: &mut OrdMap<SecondaryKey, Vec<SecondaryVersion>>,
    index: &IndexMeta,
    primary_key: &LogicalKey,
    old_row: &Option<Row>,
    new_row: &Option<Row>,
    commit_index: u64,
    Ghost(primary): Ghost<Map<LogicalKeyView, Seq<RowVersionView>>>,
)
    ensures
        (VersionsView { primary, secondary: final(secondary).deep_view() }) == (VersionsView {
            primary,
            secondary: old(secondary).deep_view(),
        }).with_index_change(
            index.deep_view(),
            primary_key.deep_view().primary_key,
            old_row.deep_view(),
            new_row.deep_view(),
            commit_index,
        ),
{
    let old_value = value_of(old_row, index.column);
    let new_value = value_of(new_row, index.column);
    if old_value.same(&new_value) {
        return;
    }
    if let Some(value) = &old_value {
        if !value.is_null() {
            push_secondary(secondary, index.id, value, primary_key, commit_index, false);
        }
    }
    if let Some(value) = &new_value {
        if !value.is_null() {
            push_secondary(secondary, index.id, value, primary_key, commit_index, true);
        }
    }
}

fn push_secondary(
    secondary: &mut OrdMap<SecondaryKey, Vec<SecondaryVersion>>,
    index_id: u64,
    value: &Value,
    primary_key: &LogicalKey,
    commit_index: u64,
    present: bool,
)
    ensures
        ({
            let key = entry_key(index_id, value.deep_view(), primary_key.deep_view().primary_key);
            final(secondary).deep_view() == old(secondary).deep_view().insert(
                key,
                seq![SecondaryVersion { commit_index, present }] + chain(
                    old(secondary).deep_view(),
                    key,
                ),
            )
        }),
{
    let mut encoded: Vec<u8> = Vec::new();
    encode_ordered(value, &mut encoded);
    assert(encoded@ =~= ordered_value(value.deep_view()));
    push_version(
        secondary,
        SecondaryKey {
            index_id,
            secondary_value: encoded,
            primary_key: primary_key.primary_key.duplicate(),
        },
        SecondaryVersion { commit_index, present },
    );
}

fn backfill_index(
    primary: &OrdMap<LogicalKey, Vec<RowVersion>>,
    secondary: &mut OrdMap<SecondaryKey, Vec<SecondaryVersion>>,
    index: &IndexMeta,
    commit_index: u64,
)
    ensures
        ({
            let keys = ordered::<LogicalKey>(primary.deep_view().dom());
            (VersionsView {
                primary: primary.deep_view(),
                secondary: final(secondary).deep_view(),
            }) == (VersionsView {
                primary: primary.deep_view(),
                secondary: old(secondary).deep_view(),
            }).backfilled(index.deep_view(), keys, keys.len() as int, commit_index)
        }),
{
    let ghost before = VersionsView {
        primary: primary.deep_view(),
        secondary: secondary.deep_view(),
    };
    let ghost keys = primary.keys();
    let count = primary.len();
    let mut i: usize = 0;
    while i < count
        invariant
            i <= count,
            keys == primary.keys(),
            count == keys.len(),
            before.primary == primary.deep_view(),
            (VersionsView { primary: primary.deep_view(), secondary: secondary.deep_view() })
                == before.backfilled(index.deep_view(), keys, i as int, commit_index),
        decreases count - i,
    {
        let key = primary.key_at(i);
        if key.table_id == index.table_id {
            let row = newest_row(primary.value_at(i), commit_index);
            if let Some(value) = value_of(&row, index.column) {
                if !value.is_null() {
                    push_secondary(secondary, index.id, &value, key, commit_index, true);
                }
            }
        }
        i = i + 1;
    }
}

impl Engine {
    /// Applies an attempt whose hash is that of its canonical bytes.
    pub fn apply(&mut self, index: u64, command_hash: [u8; 32], attempt: &TxnAttempt) -> (result:
        Result<ApplyOutcome>)
        ensures
            ({
                let before = old(self).deep_view();
                let wanted = attempt.deep_view();
                let problem = if wanted.encoded() is Err {
                    Some(wanted.encoded()->Err_0)
                } else if sha256(wanted.encoded()->Ok_0) != command_hash@ {
                    Some(EngineErrorKind::CommandHashMismatch)
                } else {
                    before.apply_problem(index, command_hash@, wanted)
                };
                match result {
                    Ok(outcome) => problem is None && before.applied_as(
                        index,
                        command_hash@,
                        command_hash@,
                        wanted,
                        outcome.deep_view(),
                        final(self).deep_view(),
                    ),
                    Err(error) => problem == Some(error.deep_view()) && final(self).deep_view()
                        == before,
                }
            }),
    {
        match attempt.command_hash() {
            Ok(hash) => if !hash.same(&command_hash) {
                return Err(EngineError::CommandHashMismatch);
            },
            Err(error) => return Err(error),
        }
        self.apply_with_request_hash(index, command_hash, command_hash, attempt)
    }

    /// Applies an attempt at a log index. `apply_hash` identifies the log
    /// entry, and a replay of the last index must bring the same one;
    /// `request_hash` identifies the client's request across leader terms.
    pub fn apply_with_request_hash(
        &mut self,
        index: u64,
        apply_hash: [u8; 32],
        request_hash: [u8; 32],
        attempt: &TxnAttempt,
    ) -> (result: Result<ApplyOutcome>)
        ensures
            ({
                let before = old(self).deep_view();
                let problem = before.apply_problem(index, apply_hash@, attempt.deep_view());
                match result {
                    Ok(outcome) => problem is None && before.applied_as(
                        index,
                        apply_hash@,
                        request_hash@,
                        attempt.deep_view(),
                        outcome.deep_view(),
                        final(self).deep_view(),
                    ),
                    Err(error) => problem == Some(error.deep_view()) && final(self).deep_view()
                        == before,
                }
            }),
    {
        proof {
            use_type_invariant(&*self);
        }
        let ghost before = self.deep_view();
        let ghost wanted = attempt.deep_view();
        if let Err(error) = attempt.validate_canonical() {
            return Err(error);
        }
        if index == self.state.last_applied {
            if !self.state.last_apply_hash.same(&Some(apply_hash)) {
                return Err(EngineError::ApplyHashMismatch { index });
            }
            return match &self.state.last_apply_outcome {
                Some(outcome) => Ok(outcome.duplicate()),
                None => Err(
                    EngineError::InvalidSnapshot("last apply outcome is missing".to_owned()),
                ),
            };
        }
        if let Err(error) = self.check_position(index) {
            return Err(error);
        }
        let mut state = EngineState::initial();
        proof {
            initial_is_well_formed();
        }
        std::mem::swap(&mut state, &mut self.state);
        let outcome = match state.admit_request(attempt.request(), &request_hash) {
            Admission::New => {
                let result = state.evaluate_and_apply(index, attempt);
                state.clients.insert(
                    attempt.request().client_id,
                    ClientRecord {
                        sequence: attempt.request().sequence,
                        request_hash,
                        result: result.duplicate(),
                    },
                );
                ApplyOutcome::Applied(result)
            },
            Admission::Duplicate(result) => {
                state.stats.duplicate_requests = bump(state.stats.duplicate_requests);
                ApplyOutcome::Duplicate(result)
            },
            Admission::Rejected(rejection) => {
                state.stats.rejected_requests = bump(state.stats.rejected_requests);
                ApplyOutcome::Rejected(rejection)
            },
        };
        let ghost evaluated = state.content();
        state.last_applied = index;
        state.last_apply_hash = Some(apply_hash);
        state.last_apply_outcome = Some(outcome.duplicate());
        proof {
            let next = evaluated.recorded(index, apply_hash@, outcome.deep_view());
            assert(state.content() == next);
            assert(before.applied_as(
                index,
                apply_hash@,
                request_hash@,
                wanted,
                outcome.deep_view(),
                next,
            ));
            applying_keeps_invariant(
                before,
                index,
                apply_hash@,
                request_hash@,
                wanted,
                outcome.deep_view(),
                next,
            );
        }
        self.state = state;
        Ok(outcome)
    }

    /// Checks that a log index follows the last applied one.
    fn check_position(&self, index: u64) -> (result: Result<()>)
        ensures
            match result {
                Ok(()) => self.deep_view().position_problem(index) is None,
                Err(error) => self.deep_view().position_problem(index) == Some(error.deep_view()),
            },
    {
        if self.state.last_applied == u64::MAX {
            return Err(EngineError::Core(Error::Invariant("applied index overflow".to_owned())));
        }
        let expected = self.state.last_applied + 1;
        if index != expected {
            return Err(EngineError::ApplyGap { expected, actual: index });
        }
        Ok(())
    }

    /// Applies a leader's no-op, which only moves the log position: commit
    /// timestamps stay log indexes.
    pub fn apply_noop(&mut self, index: u64, entry_hash: [u8; 32]) -> (result: Result<ApplyOutcome>)
        ensures
            ({
                let before = old(self).deep_view();
                let problem = before.noop_problem(index, entry_hash@);
                match result {
                    Ok(outcome) => problem is None && outcome.deep_view() == ApplyOutcomeView::Noop
                        && final(self).deep_view() == before.recorded(
                        index,
                        entry_hash@,
                        ApplyOutcomeView::Noop,
                    ),
                    Err(error) => problem == Some(error.deep_view()) && final(self).deep_view()
                        == before,
                }
            }),
    {
        proof {
            use_type_invariant(&*self);
        }
        let ghost before = self.deep_view();
        if index == self.state.last_applied {
            let same_hash = self.state.last_apply_hash.same(&Some(entry_hash));
            let noop = match &self.state.last_apply_outcome {
                Some(ApplyOutcome::Noop) => true,
                _ => false,
            };
            if !same_hash || !noop {
                return Err(EngineError::ApplyHashMismatch { index });
            }
            return Ok(ApplyOutcome::Noop);
        }
        if let Err(error) = self.check_position(index) {
            return Err(error);
        }
        let mut state = EngineState::initial();
        proof {
            initial_is_well_formed();
        }
        std::mem::swap(&mut state, &mut self.state);
        state.last_applied = index;
        state.last_apply_hash = Some(entry_hash);
        state.last_apply_outcome = Some(ApplyOutcome::Noop);
        proof {
            recording_keeps_invariant(before, index, entry_hash@, ApplyOutcomeView::Noop);
            assert(state.content() == before.recorded(index, entry_hash@, ApplyOutcomeView::Noop));
        }
        self.state = state;
        Ok(ApplyOutcome::Noop)
    }

    /// Drops the versions that no snapshot from `retain_from` on needs, and
    /// forbids older snapshots.
    pub fn vacuum_offline(&mut self, retain_from: u64) -> (result: Result<VacuumReport>)
        ensures
            ({
                let before = old(self).deep_view();
                match result {
                    Ok(report) => retain_from <= before.last_applied && final(self).deep_view()
                        == before.vacuumed_from(retain_from) && report == before.vacuum_report(
                        retain_from,
                    ),
                    Err(error) => retain_from > before.last_applied && error.deep_view()
                        == EngineErrorKind::Core(ErrorKind::Constraint) && final(self).deep_view()
                        == before,
                }
            }),
    {
        proof {
            use_type_invariant(&*self);
        }
        let ghost before = self.deep_view();
        if retain_from > self.state.last_applied {
            return Err(
                constraint(
                    message(
                        &[
                            "vacuum floor ",
                            retain_from.to_string().as_str(),
                            " is ahead of applied index ",
                            self.state.last_applied.to_string().as_str(),
                        ],
                    ),
                ),
            );
        }
        let previous_floor = self.state.retained_floor;
        let floor = if retain_from > previous_floor {
            retain_from
        } else {
            previous_floor
        };
        let (primary, primary_removed) = vacuum_map(&self.state.primary, floor);
        let (secondary, secondary_removed) = vacuum_map(&self.state.secondary, floor);
        let primary_chains_before = self.state.primary.len();
        let secondary_chains_before = self.state.secondary.len();
        let primary_chains_after = primary.len();
        let secondary_chains_after = secondary.len();
        proof {
            vstd::set_lib::lemma_len_subset(
                primary.deep_view().dom(),
                self.state.primary.deep_view().dom(),
            );
            vstd::set_lib::lemma_len_subset(
                secondary.deep_view().dom(),
                self.state.secondary.deep_view().dom(),
            );
        }
        let mut state = EngineState::initial();
        proof {
            initial_is_well_formed();
        }
        std::mem::swap(&mut state, &mut self.state);
        state.primary = primary;
        state.secondary = secondary;
        state.retained_floor = floor;
        state.stats.vacuumed_primary_versions =
        raise(state.stats.vacuumed_primary_versions, primary_removed as u64);
        state.stats.vacuumed_secondary_versions =
        raise(state.stats.vacuumed_secondary_versions, secondary_removed as u64);
        state.refresh_version_stats();
        proof {
            assert(state.content() == before.vacuumed_from(retain_from));
            vacuum_keeps_invariant(before, retain_from);
        }
        self.state = state;
        Ok(
            VacuumReport {
                previous_floor,
                retained_floor: floor,
                primary_versions_removed: primary_removed,
                secondary_versions_removed: secondary_removed,
                empty_primary_chains_removed: primary_chains_before - primary_chains_after,
                empty_secondary_chains_removed: secondary_chains_before - secondary_chains_after,
            },
        )
    }
}

impl EngineView {
    /// The floor after a vacuum: it never moves back.
    pub open spec fn floor_from(self, retain_from: u64) -> u64 {
        if retain_from > self.retained_floor {
            retain_from
        } else {
            self.retained_floor
        }
    }

    /// The number of row versions that a vacuum takes away.
    pub open spec fn primary_removed(self, floor: u64) -> usize {
        saturated(
            removed_among::<LogicalKeyView, RowVersion>(
                self.primary,
                ordered::<LogicalKey>(self.primary.dom()),
                floor,
                self.primary.dom().len() as int,
            ),
        )
    }

    /// The number of index-entry versions that a vacuum takes away.
    pub open spec fn secondary_removed(self, floor: u64) -> usize {
        saturated(
            removed_among::<SecondaryKeyView, SecondaryVersion>(
                self.secondary,
                ordered::<SecondaryKey>(self.secondary.dom()),
                floor,
                self.secondary.dom().len() as int,
            ),
        )
    }

    /// The engine after a vacuum.
    pub open spec fn vacuumed_from(self, retain_from: u64) -> EngineView {
        let floor = self.floor_from(retain_from);
        let next = EngineView {
            primary: vacuumed_map::<LogicalKeyView, RowVersion>(self.primary, floor),
            secondary: vacuumed_map::<SecondaryKeyView, SecondaryVersion>(self.secondary, floor),
            retained_floor: floor,
            ..self
        };
        EngineView {
            stats: next.counted(
                EngineStats {
                    vacuumed_primary_versions: raised(
                        self.stats.vacuumed_primary_versions,
                        self.primary_removed(floor) as u64,
                    ),
                    vacuumed_secondary_versions: raised(
                        self.stats.vacuumed_secondary_versions,
                        self.secondary_removed(floor) as u64,
                    ),
                    ..self.stats
                },
            ),
            ..next
        }
    }

    /// What a vacuum reports.
    pub open spec fn vacuum_report(self, retain_from: u64) -> VacuumReport {
        let floor = self.floor_from(retain_from);
        let next = self.vacuumed_from(retain_from);
        VacuumReport {
            previous_floor: self.retained_floor,
            retained_floor: floor,
            primary_versions_removed: self.primary_removed(floor),
            secondary_versions_removed: self.secondary_removed(floor),
            empty_primary_chains_removed: (self.primary.dom().len()
                - next.primary.dom().len()) as usize,
            empty_secondary_chains_removed: (self.secondary.dom().len()
                - next.secondary.dom().len()) as usize,
        }
    }

    proof fn write_abort_stays(self, catalog: CatalogView, attempt: TxnAttemptView, m: int, n: int)
        requires
            0 <= m <= n,
            self.first_write_abort(catalog, attempt, m) is Some,
        ensures
            self.first_write_abort(catalog, attempt, n) == self.first_write_abort(
                catalog,
                attempt,
                m,
            ),
        decreases n,
    {
        if m < n {
            self.write_abort_stays(catalog, attempt, m, n - 1);
        }
    }
}

impl VersionsView {
    proof fn backfill_keeps_rows(
        self,
        index: IndexMetaView,
        keys: Seq<LogicalKeyView>,
        n: int,
        commit_index: u64,
    )
        ensures
            self.backfilled(index, keys, n, commit_index).primary == self.primary,
        decreases n,
    {
        if n > 0 {
            self.backfill_keeps_rows(index, keys, n - 1, commit_index);
        }
    }

    proof fn backfills_keep_rows(self, indexes: Seq<IndexMetaView>, n: int, commit_index: u64)
        ensures
            self.with_backfills(indexes, n, commit_index).primary == self.primary,
        decreases n,
    {
        if n > 0 {
            self.backfills_keep_rows(indexes, n - 1, commit_index);
            let keys = ordered::<LogicalKey>(self.primary.dom());
            self.with_backfills(indexes, n - 1, commit_index).backfill_keeps_rows(
                indexes[n - 1],
                keys,
                keys.len() as int,
                commit_index,
            );
        }
    }
}

} // verus!
