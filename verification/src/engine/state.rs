//! The multi-version state machine.

use vstd::prelude::*;
use crate::codec::{encodable, ordered_value};
use crate::engine::catalog::{Catalog, CatalogView, IndexMetaView, TableMetaView, created_indexes};
use crate::engine::error::{EngineErrorKind, Result};
use crate::engine::mvcc::{
    RowVersion, RowVersionView, SecondaryKey, SecondaryKeyView, SecondaryVersion, chain,
    chain_valid, version_count, visible,
};
use crate::engine::outcome::{
    AbortReasonView, ApplyOutcome, ApplyOutcomeView, ClientRecord, ClientRecordView, CommitResultView,
    EngineStats, RequestRejection, bumped,
};
use crate::engine::transaction::{
    LogicalKey, LogicalKeyView, MutationView, TransactionView, TxnAttemptView, TxnWriteView,
};
use crate::model::{Model, outcome};
use crate::ordmap::{OrdMap, ordered};
use crate::text::decimal;
use crate::types::{ClientRequestIdView, ErrorKind, IndexId, RowView, TableId, TxnId, ValueView};

verus! {

broadcast use crate::model::group_contents;

/// The parts of an engine.
#[derive(Debug, Clone)]
pub(crate) struct EngineState {
    pub(crate) catalog: Catalog,
    pub(crate) primary: OrdMap<LogicalKey, Vec<RowVersion>>,
    pub(crate) secondary: OrdMap<SecondaryKey, Vec<SecondaryVersion>>,
    pub(crate) clients: OrdMap<[u8; 16], ClientRecord>,
    pub(crate) last_applied: u64,
    pub(crate) last_apply_hash: Option<[u8; 32]>,
    pub(crate) last_apply_outcome: Option<ApplyOutcome>,
    pub(crate) retained_floor: u64,
    pub(crate) next_txn_id: TxnId,
    pub(crate) stats: EngineStats,
}

/// The content of an [`Engine`].
#[verifier::ext_equal]
pub struct EngineView {
    pub catalog: CatalogView,
    pub primary: Map<LogicalKeyView, Seq<RowVersionView>>,
    pub secondary: Map<SecondaryKeyView, Seq<SecondaryVersion>>,
    pub clients: Map<Seq<u8>, ClientRecordView>,
    pub last_applied: u64,
    pub last_apply_hash: Option<Seq<u8>>,
    pub last_apply_outcome: Option<ApplyOutcomeView>,
    pub retained_floor: u64,
    pub next_txn_id: TxnId,
    pub stats: EngineStats,
}

impl EngineState {
    pub(crate) open spec fn content(self) -> EngineView {
        EngineView {
            catalog: self.catalog.deep_view(),
            primary: self.primary.deep_view(),
            secondary: self.secondary.deep_view(),
            clients: self.clients.deep_view(),
            last_applied: self.last_applied,
            last_apply_hash: self.last_apply_hash.deep_view(),
            last_apply_outcome: self.last_apply_outcome.deep_view(),
            retained_floor: self.retained_floor,
            next_txn_id: self.next_txn_id,
            stats: self.stats,
        }
    }

    pub(crate) fn initial() -> (state: EngineState)
        ensures
            state.content() == EngineView::initial(),
    {
        EngineState {
            catalog: Catalog::default(),
            primary: OrdMap::new(),
            secondary: OrdMap::new(),
            clients: OrdMap::new(),
            last_applied: 0,
            last_apply_hash: None,
            last_apply_outcome: None,
            retained_floor: 0,
            next_txn_id: 1,
            stats: EngineStats::default(),
        }
    }

    pub(crate) fn copied(&self) -> (copy: EngineState)
        ensures
            copy.content() == self.content(),
    {
        EngineState {
            catalog: self.catalog.duplicate(),
            primary: self.primary.duplicate(),
            secondary: self.secondary.duplicate(),
            clients: self.clients.duplicate(),
            last_applied: self.last_applied,
            last_apply_hash: self.last_apply_hash.duplicate(),
            last_apply_outcome: self.last_apply_outcome.duplicate(),
            retained_floor: self.retained_floor,
            next_txn_id: self.next_txn_id,
            stats: self.stats,
        }
    }
}

/// The database as a deterministic state machine over log entries.
#[derive(Debug)]
pub struct Engine {
    pub(crate) state: EngineState,
}

impl DeepView for Engine {
    type V = EngineView;

    closed spec fn deep_view(&self) -> EngineView {
        self.state.content()
    }
}

/// The content of an engine is the content of its parts.
pub(crate) broadcast proof fn engine_content(engine: Engine)
    ensures
        #[trigger] engine.deep_view() == engine.state.content(),
{
}

/// The value of a column of a row, if there is such a row and column.
pub open spec fn cell(row: Option<RowView>, column: usize) -> Option<ValueView> {
    match row {
        Some(row) => if column < row.values.len() {
            Some(row.values[column as int])
        } else {
            None
        },
        None => None,
    }
}

/// The row that a snapshot sees in a chain.
pub open spec fn visible_row(versions: Seq<RowVersionView>, read_ts: u64) -> Option<RowView> {
    match visible::<RowVersion>(versions, read_ts) {
        Some(version) => version.row,
        None => None,
    }
}

/// The row that a snapshot sees under a key.
pub open spec fn row_at(
    primary: Map<LogicalKeyView, Seq<RowVersionView>>,
    key: LogicalKeyView,
    read_ts: u64,
) -> Option<RowView> {
    visible_row(chain(primary, key), read_ts)
}

/// The rows and the index entries.
#[verifier::ext_equal]
pub struct VersionsView {
    pub primary: Map<LogicalKeyView, Seq<RowVersionView>>,
    pub secondary: Map<SecondaryKeyView, Seq<SecondaryVersion>>,
}

/// The key of an index entry.
pub open spec fn entry_key(index_id: IndexId, value: ValueView, primary_key: Seq<u8>) -> SecondaryKeyView {
    SecondaryKeyView { index_id, secondary_value: ordered_value(value), primary_key }
}

impl VersionsView {
    /// One more version of an index entry.
    pub open spec fn with_entry(
        self,
        key: SecondaryKeyView,
        commit_index: u64,
        present: bool,
    ) -> VersionsView {
        VersionsView {
            secondary: self.secondary.insert(
                key,
                seq![SecondaryVersion { commit_index, present }] + chain(self.secondary, key),
            ),
            ..self
        }
    }

    /// An index after a row changed from `old` to `new`: where the indexed
    /// value changed, the old entry goes and the new one comes. `NULL` is not
    /// indexed.
    pub open spec fn with_index_change(
        self,
        index: IndexMetaView,
        primary_key: Seq<u8>,
        old: Option<RowView>,
        new: Option<RowView>,
        commit_index: u64,
    ) -> VersionsView {
        let old_value = cell(old, index.column);
        let new_value = cell(new, index.column);
        if old_value == new_value {
            self
        } else {
            let gone = if old_value is Some && old_value->0 !is Null {
                self.with_entry(
                    entry_key(index.id, old_value->0, primary_key),
                    commit_index,
                    false,
                )
            } else {
                self
            };
            if new_value is Some && new_value->0 !is Null {
                gone.with_entry(entry_key(index.id, new_value->0, primary_key), commit_index, true)
            } else {
                gone
            }
        }
    }

    /// The first `n` indexes after a row changed.
    pub open spec fn with_index_changes(
        self,
        indexes: Seq<IndexMetaView>,
        n: int,
        primary_key: Seq<u8>,
        old: Option<RowView>,
        new: Option<RowView>,
        commit_index: u64,
    ) -> VersionsView
        decreases n,
    {
        if n <= 0 {
            self
        } else {
            self.with_index_changes(indexes, n - 1, primary_key, old, new, commit_index)
                .with_index_change(indexes[n - 1], primary_key, old, new, commit_index)
        }
    }

    /// One more version of a row.
    pub open spec fn with_row(
        self,
        key: LogicalKeyView,
        row: Option<RowView>,
        commit_index: u64,
    ) -> VersionsView {
        VersionsView {
            primary: self.primary.insert(
                key,
                seq![RowVersionView { commit_index, row }] + chain(self.primary, key),
            ),
            ..self
        }
    }

    /// The versions after one write. `before` and `last_applied` give the row
    /// that the write replaces.
    pub open spec fn with_write(
        self,
        before: Map<LogicalKeyView, Seq<RowVersionView>>,
        last_applied: u64,
        catalog: CatalogView,
        write: TxnWriteView,
        commit_index: u64,
    ) -> VersionsView {
        let key = write.logical_key()->Ok_0;
        let indexes = catalog.indexes_of(write.table_id);
        self.with_index_changes(
            indexes,
            indexes.len() as int,
            key.primary_key,
            row_at(before, key, last_applied),
            write.new_row(),
            commit_index,
        ).with_row(key, write.new_row(), commit_index)
    }

    /// The versions after the first `n` writes.
    pub open spec fn with_writes(
        self,
        last_applied: u64,
        catalog: CatalogView,
        writes: Seq<TxnWriteView>,
        n: int,
        commit_index: u64,
    ) -> VersionsView
        decreases n,
    {
        if n <= 0 {
            self
        } else {
            self.with_writes(last_applied, catalog, writes, n - 1, commit_index).with_write(
                self.primary,
                last_applied,
                catalog,
                writes[n - 1],
                commit_index,
            )
        }
    }

    /// A new index with entries for the first `n` of the given rows.
    pub open spec fn backfilled(
        self,
        index: IndexMetaView,
        keys: Seq<LogicalKeyView>,
        n: int,
        commit_index: u64,
    ) -> VersionsView
        decreases n,
    {
        if n <= 0 {
            self
        } else {
            let so_far = self.backfilled(index, keys, n - 1, commit_index);
            let key = keys[n - 1];
            let value = cell(row_at(self.primary, key, commit_index), index.column);
            if key.table_id == index.table_id && value is Some && value->0 !is Null {
                so_far.with_entry(
                    entry_key(index.id, value->0, key.primary_key),
                    commit_index,
                    true,
                )
            } else {
                so_far
            }
        }
    }

    /// The first `n` new indexes with entries for the rows that exist.
    pub open spec fn with_backfills(
        self,
        indexes: Seq<IndexMetaView>,
        n: int,
        commit_index: u64,
    ) -> VersionsView
        decreases n,
    {
        if n <= 0 {
            self
        } else {
            let keys = ordered::<LogicalKey>(self.primary.dom());
            self.with_backfills(indexes, n - 1, commit_index).backfilled(
                indexes[n - 1],
                keys,
                keys.len() as int,
                commit_index,
            )
        }
    }
}

/// Whether a request is new, was already answered, or is out of order.
pub enum AdmissionView {
    New,
    Duplicate(CommitResultView),
    Rejected(RequestRejection),
}

impl EngineView {
    pub open spec fn initial() -> EngineView {
        EngineView {
            catalog: CatalogView::empty(),
            primary: Map::empty(),
            secondary: Map::empty(),
            clients: Map::empty(),
            last_applied: 0,
            last_apply_hash: None,
            last_apply_outcome: None,
            retained_floor: 0,
            next_txn_id: 1,
            stats: EngineStats::zero(),
        }
    }

    /// The invariant of the engine.
    pub open spec fn well_formed(self) -> bool {
        &&& self.catalog.valid()
        &&& self.catalog.finite()
        &&& self.primary.dom().finite()
        &&& self.secondary.dom().finite()
        &&& self.clients.dom().finite()
        &&& forall|key: LogicalKeyView|
            #![trigger self.primary[key]]
            self.primary.contains_key(key) ==> chain_valid::<RowVersion>(
                self.primary[key],
                self.last_applied,
            )
        &&& forall|key: SecondaryKeyView|
            #![trigger self.secondary[key]]
            self.secondary.contains_key(key) ==> chain_valid::<SecondaryVersion>(
                self.secondary[key],
                self.last_applied,
            ) && self.catalog.indexes.contains_key(key.index_id)
        &&& forall|client: Seq<u8>|
            #![trigger self.clients[client]]
            self.clients.contains_key(client) ==> self.clients[client].sequence > 0
        &&& self.retained_floor <= self.last_applied
        &&& self.last_apply_hash is Some == (self.last_applied > 0)
        &&& self.last_apply_outcome is Some == (self.last_applied > 0)
        &&& self.next_txn_id > 0
        &&& self.stats == self.counted(self.stats)
    }

    /// Counters with the numbers of versions brought up to date.
    pub open spec fn counted(self, stats: EngineStats) -> EngineStats {
        EngineStats {
            primary_versions: version_count::<LogicalKey, RowVersionView>(self.primary) as u64,
            secondary_versions: version_count::<SecondaryKey, SecondaryVersion>(self.secondary) as u64,
            ..stats
        }
    }

    pub open spec fn versions(self) -> VersionsView {
        VersionsView { primary: self.primary, secondary: self.secondary }
    }

    /// Why a snapshot cannot be read, if it cannot.
    pub open spec fn snapshot_problem(self, transaction: TransactionView) -> Option<EngineErrorKind> {
        if transaction.read_ts < self.retained_floor {
            Some(
                EngineErrorKind::SnapshotTooOld {
                    requested: transaction.read_ts,
                    floor: self.retained_floor,
                },
            )
        } else if transaction.read_ts > self.last_applied {
            Some(EngineErrorKind::Core(ErrorKind::Invariant))
        } else {
            None
        }
    }

    /// The table that a transaction sees under an id: its own first.
    pub open spec fn table_for(self, transaction: TransactionView, table_id: TableId) -> Option<
        TableMetaView,
    > {
        match transaction.staged_table(table_id) {
            Some(table) => Some(table),
            None => if self.catalog.tables.contains_key(table_id) {
                Some(self.catalog.tables[table_id])
            } else {
                None
            },
        }
    }

    /// Why a value cannot be a primary key of a table, if it cannot.
    pub open spec fn key_problem(
        self,
        transaction: TransactionView,
        table_id: TableId,
        primary_key: ValueView,
    ) -> Option<EngineErrorKind> {
        match self.table_for(transaction, table_id) {
            None => Some(EngineErrorKind::UnknownTable(table_id)),
            Some(table) => if primary_key.data_type() != Some(
                table.schema.columns[table.primary_key_column as int].data_type,
            ) {
                Some(EngineErrorKind::Core(ErrorKind::Type))
            } else if !encodable(primary_key) {
                Some(EngineErrorKind::Core(ErrorKind::LimitExceeded))
            } else {
                None
            },
        }
    }

    /// What a transaction sees under a key: its own write, or the newest
    /// version of its snapshot.
    pub open spec fn read(self, transaction: TransactionView, key: LogicalKeyView) -> Option<
        RowView,
    > {
        if transaction.writes.contains_key(key) {
            transaction.writes[key].new_row()
        } else {
            row_at(self.primary, key, transaction.read_ts)
        }
    }

    /// What asking for a row answers.
    pub open spec fn fetched(
        self,
        transaction: TransactionView,
        table_id: TableId,
        primary_key: ValueView,
    ) -> std::result::Result<Option<RowView>, EngineErrorKind> {
        if self.snapshot_problem(transaction) is Some {
            Err(self.snapshot_problem(transaction)->0)
        } else if self.key_problem(transaction, table_id, primary_key) is Some {
            Err(self.key_problem(transaction, table_id, primary_key)->0)
        } else {
            Ok(
                self.read(
                    transaction,
                    LogicalKeyView { table_id, primary_key: ordered_value(primary_key) },
                ),
            )
        }
    }

    /// The primary key of a row that is to be written, or why it cannot be.
    pub open spec fn row_key(
        self,
        transaction: TransactionView,
        table_id: TableId,
        row: RowView,
    ) -> std::result::Result<ValueView, EngineErrorKind> {
        if self.snapshot_problem(transaction) is Some {
            Err(self.snapshot_problem(transaction)->0)
        } else {
            match self.table_for(transaction, table_id) {
                None => Err(EngineErrorKind::UnknownTable(table_id)),
                Some(table) => match table.schema.row_validated(row) {
                    Err(error) => Err(EngineErrorKind::Core(error)),
                    Ok(()) => {
                        let key = row.values[table.primary_key_column as int];
                        match self.key_problem(transaction, table_id, key) {
                            Some(problem) => Err(problem),
                            None => Ok(key),
                        }
                    },
                },
            }
        }
    }

    /// The transaction after an insert, which a row with the same key forbids.
    pub open spec fn inserted(
        self,
        transaction: TransactionView,
        table_id: TableId,
        row: RowView,
    ) -> std::result::Result<TransactionView, EngineErrorKind> {
        match self.row_key(transaction, table_id, row) {
            Err(error) => Err(error),
            Ok(primary_key) => match self.fetched(transaction, table_id, primary_key) {
                Err(error) => Err(error),
                Ok(Some(_)) => Err(EngineErrorKind::Core(ErrorKind::Constraint)),
                Ok(None) => Ok(
                    transaction.with_write(
                        TxnWriteView { table_id, primary_key, mutation: MutationView::Put(row) },
                    ),
                ),
            },
        }
    }

    /// The transaction after a write that may replace a row.
    pub open spec fn upserted(
        self,
        transaction: TransactionView,
        table_id: TableId,
        row: RowView,
    ) -> std::result::Result<TransactionView, EngineErrorKind> {
        match self.row_key(transaction, table_id, row) {
            Err(error) => Err(error),
            Ok(primary_key) => Ok(
                transaction.with_write(
                    TxnWriteView { table_id, primary_key, mutation: MutationView::Put(row) },
                ),
            ),
        }
    }

    /// Whether an update found its row, and the transaction after it. The
    /// primary key stays.
    pub open spec fn updated(
        self,
        transaction: TransactionView,
        table_id: TableId,
        primary_key: ValueView,
        row: RowView,
    ) -> std::result::Result<(bool, TransactionView), EngineErrorKind> {
        match self.fetched(transaction, table_id, primary_key) {
            Err(error) => Err(error),
            Ok(None) => Ok((false, transaction)),
            Ok(Some(_)) => match self.row_key(transaction, table_id, row) {
                Err(error) => Err(error),
                Ok(row_key) => if row_key != primary_key {
                    Err(EngineErrorKind::Core(ErrorKind::Constraint))
                } else {
                    Ok(
                        (
                            true,
                            transaction.with_write(
                                TxnWriteView {
                                    table_id,
                                    primary_key,
                                    mutation: MutationView::Put(row),
                                },
                            ),
                        ),
                    )
                },
            },
        }
    }

    /// Whether a delete found its row, and the transaction after it.
    pub open spec fn deleted(
        self,
        transaction: TransactionView,
        table_id: TableId,
        primary_key: ValueView,
    ) -> std::result::Result<(bool, TransactionView), EngineErrorKind> {
        match self.fetched(transaction, table_id, primary_key) {
            Err(error) => Err(error),
            Ok(None) => Ok((false, transaction)),
            Ok(Some(_)) => Ok(
                (
                    true,
                    transaction.with_write(
                        TxnWriteView { table_id, primary_key, mutation: MutationView::Delete },
                    ),
                ),
            ),
        }
    }

    /// What starting a transaction answers.
    pub open spec fn started(self, read_ts: u64, schema_epoch: u64) -> std::result::Result<
        TransactionView,
        EngineErrorKind,
    > {
        if read_ts < self.retained_floor {
            Err(
                EngineErrorKind::SnapshotTooOld { requested: read_ts, floor: self.retained_floor },
            )
        } else if read_ts > self.last_applied || schema_epoch > self.catalog.schema_epoch {
            Err(EngineErrorKind::Core(ErrorKind::Constraint))
        } else if self.next_txn_id == u64::MAX {
            Err(EngineErrorKind::Core(ErrorKind::Invariant))
        } else {
            Ok(TransactionView::started(self.next_txn_id, read_ts, schema_epoch))
        }
    }

    /// How a request stands to the latest one of its client.
    pub open spec fn admission(self, request: ClientRequestIdView, hash: Seq<u8>) -> AdmissionView {
        if !self.clients.contains_key(request.client_id) {
            if request.sequence == 1 {
                AdmissionView::New
            } else {
                AdmissionView::Rejected(
                    RequestRejection::FirstSequenceMustBeOne { actual: request.sequence },
                )
            }
        } else {
            let record = self.clients[request.client_id];
            if request.sequence < record.sequence {
                AdmissionView::Rejected(
                    RequestRejection::SequenceTooOld {
                        latest: record.sequence,
                        actual: request.sequence,
                    },
                )
            } else if request.sequence == record.sequence {
                if hash == record.request_hash {
                    AdmissionView::Duplicate(record.result)
                } else {
                    AdmissionView::Rejected(
                        RequestRejection::SequenceHashMismatch { sequence: request.sequence },
                    )
                }
            } else if request.sequence == bumped(record.sequence) {
                AdmissionView::New
            } else {
                AdmissionView::Rejected(
                    RequestRejection::SequenceGap {
                        expected: bumped(record.sequence),
                        actual: request.sequence,
                    },
                )
            }
        }
    }

    /// The newest commit of a row, if it is newer than a snapshot.
    pub open spec fn newer_commit(self, key: LogicalKeyView, read_ts: u64) -> Option<u64> {
        let versions = chain(self.primary, key);
        if versions.len() > 0 && versions[0].commit_index > read_ts {
            Some(versions[0].commit_index)
        } else {
            None
        }
    }

    /// Why one write of a canonical attempt aborts its transaction, if it does.
    /// `catalog` is the catalog that the transaction leaves behind.
    pub open spec fn write_abort(
        self,
        catalog: CatalogView,
        read_ts: u64,
        write: TxnWriteView,
    ) -> Option<AbortReasonView> {
        if !catalog.tables.contains_key(write.table_id) {
            Some(AbortReasonView::Validation("unknown table "@ + decimal(write.table_id as nat)))
        } else {
            let table = catalog.tables[write.table_id];
            let column = table.primary_key_column as int;
            if write.primary_key.data_type() != Some(table.schema.columns[column].data_type) {
                Some(
                    AbortReasonView::Validation(
                        "invalid primary key for table `"@ + table.name + "`"@,
                    ),
                )
            } else if write.mutation is Put && table.schema.row_validated(write.mutation->Put_0)
                is Err {
                Some(AbortReasonView::Validation(table.schema.row_refusal(write.mutation->Put_0)))
            } else if write.mutation is Put && write.mutation->Put_0.values[column]
                != write.primary_key {
                Some(
                    AbortReasonView::Validation(
                        "row primary key differs from write key in table `"@ + table.name + "`"@,
                    ),
                )
            } else {
                match self.newer_commit(write.logical_key()->Ok_0, read_ts) {
                    Some(winning_commit) => Some(
                        AbortReasonView::WriteConflict {
                            table_id: write.table_id,
                            primary_key: write.primary_key,
                            winning_commit,
                        },
                    ),
                    None => None,
                }
            }
        }
    }

    /// The first abort among the first `n` writes.
    pub open spec fn first_write_abort(
        self,
        catalog: CatalogView,
        attempt: TxnAttemptView,
        n: int,
    ) -> Option<AbortReasonView>
        decreases n,
    {
        if n <= 0 {
            None
        } else {
            match self.first_write_abort(catalog, attempt, n - 1) {
                Some(kind) => Some(kind),
                None => self.write_abort(catalog, attempt.read_ts, attempt.writes[n - 1]),
            }
        }
    }

    /// Why an attempt aborts, if it does: its snapshot is gone or lies in the
    /// future, the schema moved, it is not valid, or another transaction committed
    /// a row that it writes after its snapshot. An attempt that is not canonical is
    /// refused before it is evaluated.
    pub open spec fn abort(self, attempt: TxnAttemptView) -> Option<AbortReasonView> {
        if attempt.read_ts < self.retained_floor {
            Some(
                AbortReasonView::SnapshotVacuumed {
                    read_ts: attempt.read_ts,
                    retained_floor: self.retained_floor,
                },
            )
        } else if attempt.read_ts > self.last_applied {
            Some(
                AbortReasonView::Validation(
                    "read timestamp "@ + decimal(attempt.read_ts as nat)
                        + " is ahead of applied index "@ + decimal(self.last_applied as nat),
                ),
            )
        } else if attempt.schema_epoch != self.catalog.schema_epoch {
            Some(
                AbortReasonView::SchemaChanged {
                    expected: attempt.schema_epoch,
                    actual: self.catalog.schema_epoch,
                },
            )
        } else if attempt.canonical() is Err {
            Some(AbortReasonView::Validation("attempt is not canonical"@))
        } else {
            match self.catalog.mutated(attempt.catalog_mutations) {
                Err(_) => Some(
                    AbortReasonView::Validation(self.catalog.refusal(attempt.catalog_mutations)),
                ),
                Ok(catalog) => self.first_write_abort(
                    catalog,
                    attempt,
                    attempt.writes.len() as int,
                ),
            }
        }
    }

    /// The versions after an attempt commits.
    pub open spec fn committed_versions(self, index: u64, attempt: TxnAttemptView) -> VersionsView {
        let created = created_indexes(
            attempt.catalog_mutations,
            attempt.catalog_mutations.len() as int,
        );
        self.versions().with_writes(
            self.last_applied,
            self.catalog,
            attempt.writes,
            attempt.writes.len() as int,
            index,
        ).with_backfills(created, created.len() as int, index)
    }

    /// The engine after an attempt commits, before the client and the log
    /// position are recorded.
    pub open spec fn committed(self, index: u64, attempt: TxnAttemptView) -> EngineView {
        let versions = self.committed_versions(index, attempt);
        let next = EngineView {
            catalog: self.catalog.mutated(attempt.catalog_mutations)->Ok_0,
            primary: versions.primary,
            secondary: versions.secondary,
            ..self
        };
        EngineView {
            stats: next.counted(
                EngineStats {
                    committed_transactions: bumped(self.stats.committed_transactions),
                    ..self.stats
                },
            ),
            ..next
        }
    }

    /// The engine after an attempt aborts.
    pub open spec fn aborted(self) -> EngineView {
        EngineView {
            stats: EngineStats {
                aborted_transactions: bumped(self.stats.aborted_transactions),
                ..self.stats
            },
            ..self
        }
    }

    /// The result of an attempt at a log index.
    pub open spec fn result_fits(
        self,
        index: u64,
        attempt: TxnAttemptView,
        result: CommitResultView,
    ) -> bool {
        match self.abort(attempt) {
            None => result == (CommitResultView::Committed {
                commit_index: index,
                affected_rows: attempt.writes.len() as usize,
                schema_epoch: self.catalog.mutated(attempt.catalog_mutations)->Ok_0.schema_epoch,
            }),
            Some(reason) => result == (CommitResultView::Aborted { abort_index: index, reason }),
        }
    }

    /// The engine after an attempt ended with `result`.
    pub open spec fn evaluated(
        self,
        index: u64,
        attempt: TxnAttemptView,
        result: CommitResultView,
    ) -> EngineView {
        if result is Committed {
            self.committed(index, attempt)
        } else {
            self.aborted()
        }
    }

    /// The engine with the log position moved on.
    pub open spec fn recorded(
        self,
        index: u64,
        apply_hash: Seq<u8>,
        outcome: ApplyOutcomeView,
    ) -> EngineView {
        EngineView {
            last_applied: index,
            last_apply_hash: Some(apply_hash),
            last_apply_outcome: Some(outcome),
            ..self
        }
    }

    /// The engine with the latest request of a client.
    pub open spec fn with_client(
        self,
        request: ClientRequestIdView,
        request_hash: Seq<u8>,
        result: CommitResultView,
    ) -> EngineView {
        EngineView {
            clients: self.clients.insert(
                request.client_id,
                ClientRecordView { sequence: request.sequence, request_hash, result },
            ),
            ..self
        }
    }

    /// Why a log entry cannot be applied, if it cannot.
    pub open spec fn position_problem(self, index: u64) -> Option<EngineErrorKind> {
        if self.last_applied == u64::MAX {
            Some(EngineErrorKind::Core(ErrorKind::Invariant))
        } else if index != self.last_applied + 1 {
            Some(
                EngineErrorKind::ApplyGap {
                    expected: (self.last_applied + 1) as u64,
                    actual: index,
                },
            )
        } else {
            None
        }
    }

    /// Why an attempt cannot be applied at a log index, if it cannot.
    pub open spec fn apply_problem(
        self,
        index: u64,
        apply_hash: Seq<u8>,
        attempt: TxnAttemptView,
    ) -> Option<EngineErrorKind> {
        if attempt.canonical() is Err {
            Some(attempt.canonical()->Err_0)
        } else if index == self.last_applied {
            if self.last_apply_hash != Some(apply_hash) {
                Some(EngineErrorKind::ApplyHashMismatch { index })
            } else {
                None
            }
        } else {
            self.position_problem(index)
        }
    }

    /// `next` and `outcome` are what applying an attempt gives.
    pub open spec fn applied_as(
        self,
        index: u64,
        apply_hash: Seq<u8>,
        request_hash: Seq<u8>,
        attempt: TxnAttemptView,
        outcome: ApplyOutcomeView,
        next: EngineView,
    ) -> bool {
        if index == self.last_applied {
            self.last_apply_outcome == Some(outcome) && next == self
        } else {
            match self.admission(attempt.request, request_hash) {
                AdmissionView::New => {
                    &&& outcome is Applied
                    &&& self.result_fits(index, attempt, outcome->Applied_0)
                    &&& next == self.evaluated(index, attempt, outcome->Applied_0).with_client(
                        attempt.request,
                        request_hash,
                        outcome->Applied_0,
                    ).recorded(index, apply_hash, outcome)
                },
                AdmissionView::Duplicate(result) => {
                    &&& outcome == ApplyOutcomeView::Duplicate(result)
                    &&& next == (EngineView {
                        stats: EngineStats {
                            duplicate_requests: bumped(self.stats.duplicate_requests),
                            ..self.stats
                        },
                        ..self
                    }).recorded(index, apply_hash, outcome)
                },
                AdmissionView::Rejected(rejection) => {
                    &&& outcome == ApplyOutcomeView::Rejected(rejection)
                    &&& next == (EngineView {
                        stats: EngineStats {
                            rejected_requests: bumped(self.stats.rejected_requests),
                            ..self.stats
                        },
                        ..self
                    }).recorded(index, apply_hash, outcome)
                },
            }
        }
    }

    /// Why a no-op cannot be applied at a log index, if it cannot.
    pub open spec fn noop_problem(self, index: u64, entry_hash: Seq<u8>) -> Option<
        EngineErrorKind,
    > {
        if index == self.last_applied {
            if self.last_apply_hash == Some(entry_hash) && self.last_apply_outcome == Some(
                ApplyOutcomeView::Noop,
            ) {
                None
            } else {
                Some(EngineErrorKind::ApplyHashMismatch { index })
            }
        } else {
            self.position_problem(index)
        }
    }
}

} // verus!
