//! Transactions on an engine: starting them, and what they read and stage.

use vstd::prelude::*;
use crate::codec::{encodable, encode_ordered, encode_value, ordered_value};
use crate::engine::catalog::{
    Catalog, CatalogMutation, CatalogMutationView, IndexMeta, IndexMetaView, TableMeta,
    TableMetaView, next_id, valid_table_key,
};
use crate::engine::error::{EngineError, EngineErrorKind, Result, constraint};
use crate::engine::mvcc::{
    RowVersion, SecondaryKey, SecondaryKeyView, SecondaryVersion, seen_from_bounds, seen_position,
    visible,
};
use crate::engine::outcome::{ClientRecord, EngineStats};
use crate::engine::state::{Engine, EngineState, EngineView, cell, entry_key, visible_row};
use crate::engine::transaction::{
    LogicalKey, LogicalKeyView, Mutation, Transaction, TransactionView, TxnWrite, no_staged_index,
    no_staged_table,
};
use crate::model::{Model, outcome};
use crate::ordmap::{OrdSet, finite_set_is_listed, ordered};
use crate::types::{
    Error, ErrorKind, IndexId, Row, RowView, Schema, SchemaView, TableId, Value, ValueView,
    folded_name, message, same_name,
};

verus! {

broadcast use {crate::model::group_contents, crate::engine::state::engine_content};

/// The first id from `id` on under which no table is staged.
pub open spec fn free_table_id(transaction: TransactionView, id: TableId) -> Option<TableId>
    decreases u64::MAX - id,
{
    if transaction.staged_table(id) is None {
        Some(id)
    } else if id == u64::MAX {
        None
    } else {
        free_table_id(transaction, (id + 1) as u64)
    }
}

/// The first id from `id` on under which no index is staged.
pub open spec fn free_index_id(transaction: TransactionView, id: IndexId) -> Option<IndexId>
    decreases u64::MAX - id,
{
    if transaction.staged_index(id) is None {
        Some(id)
    } else if id == u64::MAX {
        None
    } else {
        free_index_id(transaction, (id + 1) as u64)
    }
}

/// A table with the given name, ASCII case aside, is staged.
pub open spec fn table_name_staged(transaction: TransactionView, name: Seq<char>) -> bool {
    exists|i: int|
        0 <= i < transaction.catalog_mutations.len() && (
        #[trigger] transaction.catalog_mutations[i] matches CatalogMutationView::CreateTable(table)
            && folded_name(table.name) == folded_name(name))
}

/// An index with the given name, ASCII case aside, is staged.
pub open spec fn index_name_staged(transaction: TransactionView, name: Seq<char>) -> bool {
    exists|i: int|
        0 <= i < transaction.catalog_mutations.len() && (
        #[trigger] transaction.catalog_mutations[i] matches CatalogMutationView::CreateIndex(index)
            && folded_name(index.name) == folded_name(name))
}

impl EngineView {
    /// The id of a new table, and the transaction that stages it.
    pub open spec fn table_created(
        self,
        transaction: TransactionView,
        name: Seq<char>,
        schema: SchemaView,
    ) -> std::result::Result<(TableId, TransactionView), EngineErrorKind> {
        let first = next_id(ordered::<u64>(self.catalog.tables.dom()));
        if self.snapshot_problem(transaction) is Some {
            Err(self.snapshot_problem(transaction)->0)
        } else {
            match free_table_id(transaction, first) {
                None => Err(EngineErrorKind::Core(ErrorKind::Invariant)),
                Some(id) => match TableMetaView::made(id, name, schema) {
                    Err(error) => Err(error),
                    Ok(table) => if self.catalog.table_names.contains_key(folded_name(name))
                        || table_name_staged(transaction, name) {
                        Err(EngineErrorKind::Core(ErrorKind::Constraint))
                    } else {
                        Ok(
                            (
                                id,
                                transaction.with_catalog(CatalogMutationView::CreateTable(table)),
                            ),
                        )
                    },
                },
            }
        }
    }

    /// The id of a new index, and the transaction that stages it.
    pub open spec fn index_created(
        self,
        transaction: TransactionView,
        name: Seq<char>,
        table_id: TableId,
        column: usize,
    ) -> std::result::Result<(IndexId, TransactionView), EngineErrorKind> {
        let first = next_id(ordered::<u64>(self.catalog.indexes.dom()));
        if self.snapshot_problem(transaction) is Some {
            Err(self.snapshot_problem(transaction)->0)
        } else {
            match self.table_for(transaction, table_id) {
                None => Err(EngineErrorKind::UnknownTable(table_id)),
                Some(table) => match free_index_id(transaction, first) {
                    None => Err(EngineErrorKind::Core(ErrorKind::Invariant)),
                    Some(id) => match IndexMetaView::made(id, name, table, column) {
                        Err(error) => Err(error),
                        Ok(index) => if self.catalog.index_names.contains_key(folded_name(name))
                            || index_name_staged(transaction, name) {
                            Err(EngineErrorKind::Core(ErrorKind::Constraint))
                        } else {
                            Ok(
                                (
                                    id,
                                    transaction.with_catalog(
                                        CatalogMutationView::CreateIndex(index),
                                    ),
                                ),
                            )
                        },
                    },
                },
            }
        }
    }

    /// The keys of a table that a scan looks at.
    pub open spec fn table_keys(self, transaction: TransactionView, table_id: TableId) -> Set<
        LogicalKeyView,
    > {
        Set::new(
            |key: LogicalKeyView|
                key.table_id == table_id && (self.primary.contains_key(key)
                    || transaction.writes.contains_key(key)),
        )
    }

    /// The rows that a transaction sees under the first `n` keys.
    pub open spec fn rows_among(
        self,
        transaction: TransactionView,
        keys: Seq<LogicalKeyView>,
        n: int,
    ) -> Seq<RowView>
        decreases n,
    {
        if n <= 0 {
            Seq::empty()
        } else {
            match self.read(transaction, keys[n - 1]) {
                Some(row) => self.rows_among(transaction, keys, n - 1).push(row),
                None => self.rows_among(transaction, keys, n - 1),
            }
        }
    }

    /// What scanning a table answers: every row that the transaction sees, in
    /// primary-key order.
    pub open spec fn scanned(self, transaction: TransactionView, table_id: TableId) -> std::result::Result<
        Seq<RowView>,
        EngineErrorKind,
    > {
        if self.snapshot_problem(transaction) is Some {
            Err(self.snapshot_problem(transaction)->0)
        } else if self.table_for(transaction, table_id) is None {
            Err(EngineErrorKind::UnknownTable(table_id))
        } else {
            let keys = ordered::<LogicalKey>(self.table_keys(transaction, table_id));
            Ok(self.rows_among(transaction, keys, keys.len() as int))
        }
    }

    /// The index that a transaction sees under an id: a committed one first.
    pub open spec fn index_for(self, transaction: TransactionView, index_id: IndexId) -> Option<
        IndexMetaView,
    > {
        if self.catalog.indexes.contains_key(index_id) {
            Some(self.catalog.indexes[index_id])
        } else {
            transaction.staged_index(index_id)
        }
    }

    /// The keys that an index scan looks at: those with a visible entry for
    /// the value, and those that the transaction writes.
    pub open spec fn entry_keys(
        self,
        transaction: TransactionView,
        index: IndexMetaView,
        index_id: IndexId,
        value: ValueView,
    ) -> Set<LogicalKeyView> {
        Set::new(
            |key: LogicalKeyView|
                key.table_id == index.table_id && (transaction.writes.contains_key(key)
                    || self.entry_visible(
                    entry_key(index_id, value, key.primary_key),
                    transaction.read_ts,
                )),
        )
    }

    /// A snapshot sees an index entry.
    pub open spec fn entry_visible(self, key: SecondaryKeyView, read_ts: u64) -> bool {
        self.secondary.contains_key(key) && visible::<SecondaryVersion>(
            self.secondary[key],
            read_ts,
        ) is Some
    }

    /// The rows under the first `n` keys that hold `value` in `column`.
    pub open spec fn rows_with(
        self,
        transaction: TransactionView,
        keys: Seq<LogicalKeyView>,
        column: usize,
        value: ValueView,
        n: int,
    ) -> Seq<RowView>
        decreases n,
    {
        if n <= 0 {
            Seq::empty()
        } else {
            let so_far = self.rows_with(transaction, keys, column, value, n - 1);
            let row = self.read(transaction, keys[n - 1]);
            if cell(row, column) == Some(value) {
                so_far.push(row->0)
            } else {
                so_far
            }
        }
    }

    /// What looking a value up in an index answers. `NULL` is in no index.
    pub open spec fn looked_up(
        self,
        transaction: TransactionView,
        index_id: IndexId,
        value: ValueView,
    ) -> std::result::Result<Seq<RowView>, EngineErrorKind> {
        if self.snapshot_problem(transaction) is Some {
            Err(self.snapshot_problem(transaction)->0)
        } else {
            match self.index_for(transaction, index_id) {
                None => Err(EngineErrorKind::UnknownIndex(index_id)),
                Some(index) => if value is Null {
                    Ok(Seq::empty())
                } else if !encodable(value) {
                    Err(EngineErrorKind::Core(ErrorKind::LimitExceeded))
                } else {
                    let keys = ordered::<LogicalKey>(
                        self.entry_keys(transaction, index, index_id, value),
                    );
                    Ok(self.rows_with(transaction, keys, index.column, value, keys.len() as int))
                },
            }
        }
    }
}

impl Engine {
    #[verifier::type_invariant]
    pub(crate) open spec fn kept(self) -> bool {
        self.deep_view().well_formed()
    }

    pub fn new() -> (engine: Engine)
        ensures
            engine.deep_view() == EngineView::initial(),
    {
        let state = EngineState::initial();
        proof {
            initial_is_well_formed();
        }
        Engine { state }
    }

    pub fn catalog(&self) -> (catalog: &Catalog)
        ensures
            catalog.deep_view() == self.deep_view().catalog,
    {
        &self.state.catalog
    }

    pub fn last_applied(&self) -> (index: u64)
        ensures
            index == self.deep_view().last_applied,
    {
        self.state.last_applied
    }

    pub fn last_apply_hash(&self) -> (hash: Option<[u8; 32]>)
        ensures
            hash.deep_view() == self.deep_view().last_apply_hash,
    {
        self.state.last_apply_hash
    }

    pub fn retained_floor(&self) -> (floor: u64)
        ensures
            floor == self.deep_view().retained_floor,
    {
        self.state.retained_floor
    }

    pub fn stats(&self) -> (stats: &EngineStats)
        ensures
            *stats == self.deep_view().stats,
    {
        &self.state.stats
    }

    /// The latest request of a client.
    pub fn client_record(&self, client_id: &[u8; 16]) -> (found: Option<&ClientRecord>)
        ensures
            match found {
                Some(record) => self.deep_view().clients.contains_key(client_id@)
                    && self.deep_view().clients[client_id@] == record.deep_view(),
                None => !self.deep_view().clients.contains_key(client_id@),
            },
    {
        self.state.clients.get(client_id)
    }

    pub fn client_count(&self) -> (count: usize)
        ensures
            count == self.deep_view().clients.dom().len(),
            self.deep_view().clients.dom().finite(),
    {
        self.state.clients.len()
    }

    /// Starts a transaction at the current snapshot.
    pub fn begin(&mut self) -> (result: Result<Transaction>)
        ensures
            outcome(result) == old(self).deep_view().started(
                old(self).deep_view().last_applied,
                old(self).deep_view().catalog.schema_epoch,
            ),
            final(self).deep_view() == (if result is Ok {
                EngineView {
                    next_txn_id: (old(self).deep_view().next_txn_id + 1) as u64,
                    ..old(self).deep_view()
                }
            } else {
                old(self).deep_view()
            }),
    {
        let read_ts = self.state.last_applied;
        let schema_epoch = self.state.catalog.schema_epoch();
        self.begin_at(read_ts, schema_epoch)
    }

    /// A transaction at the current snapshot that takes no id, for a leader
    /// that prepares an attempt before consensus.
    pub fn prepare_transaction(&self) -> (result: Result<Transaction>)
        ensures
            outcome(result) == Ok::<TransactionView, EngineErrorKind>(
                TransactionView::started(
                    0,
                    self.deep_view().last_applied,
                    self.deep_view().catalog.schema_epoch,
                ),
            ),
    {
        proof {
            use_type_invariant(self);
        }
        if self.state.last_applied < self.state.retained_floor {
            return Err(
                EngineError::SnapshotTooOld {
                    requested: self.state.last_applied,
                    floor: self.state.retained_floor,
                },
            );
        }
        Ok(Transaction::new(0, self.state.last_applied, self.state.catalog.schema_epoch()))
    }

    /// Starts a transaction at a given snapshot.
    pub fn begin_at(&mut self, read_ts: u64, schema_epoch: u64) -> (result: Result<Transaction>)
        ensures
            outcome(result) == old(self).deep_view().started(read_ts, schema_epoch),
            final(self).deep_view() == (if result is Ok {
                EngineView {
                    next_txn_id: (old(self).deep_view().next_txn_id + 1) as u64,
                    ..old(self).deep_view()
                }
            } else {
                old(self).deep_view()
            }),
    {
        proof {
            use_type_invariant(&*self);
        }
        if read_ts < self.state.retained_floor {
            return Err(
                EngineError::SnapshotTooOld { requested: read_ts, floor: self.state.retained_floor },
            );
        }
        if read_ts > self.state.last_applied {
            return Err(
                constraint(
                    message(
                        &[
                            "snapshot ",
                            read_ts.to_string().as_str(),
                            " is ahead of applied index ",
                            self.state.last_applied.to_string().as_str(),
                        ],
                    ),
                ),
            );
        }
        if schema_epoch > self.state.catalog.schema_epoch() {
            return Err(
                constraint(
                    message(
                        &[
                            "schema epoch ",
                            schema_epoch.to_string().as_str(),
                            " is ahead of current epoch ",
                            self.state.catalog.schema_epoch().to_string().as_str(),
                        ],
                    ),
                ),
            );
        }
        let id = self.state.next_txn_id;
        if id == u64::MAX {
            return Err(EngineError::Core(Error::Invariant("transaction id overflow".to_owned())));
        }
        let mut state = EngineState::initial();
        proof {
            initial_is_well_formed();
        }
        std::mem::swap(&mut state, &mut self.state);
        state.next_txn_id = id + 1;
        self.state = state;
        Ok(Transaction::new(id, read_ts, schema_epoch))
    }

    /// Stages a new table and returns its id.
    pub fn create_table(&self, transaction: &mut Transaction, name: &str, schema: Schema) -> (result:
        Result<TableId>)
        ensures
            match result {
                Ok(id) => self.deep_view().table_created(
                    old(transaction).deep_view(),
                    name@,
                    schema.deep_view(),
                ) == Ok::<(TableId, TransactionView), EngineErrorKind>(
                    (id, final(transaction).deep_view()),
                ),
                Err(error) => self.deep_view().table_created(
                    old(transaction).deep_view(),
                    name@,
                    schema.deep_view(),
                ) == Err::<(TableId, TransactionView), EngineErrorKind>(error.deep_view())
                    && final(transaction).deep_view() == old(transaction).deep_view(),
            },
    {
        proof {
            use_type_invariant(self);
        }
        let ghost staged = transaction.deep_view();
        if let Err(error) = self.ensure_transaction_snapshot(transaction) {
            return Err(error);
        }
        let mut id = self.state.catalog.next_table_id();
        let ghost first = id;
        while transaction.staged_table(id).is_some()
            invariant
                staged == transaction.deep_view(),
                first == next_id(ordered::<u64>(self.deep_view().catalog.tables.dom())),
                self.deep_view().snapshot_problem(staged) is None,
                staged == old(transaction).deep_view(),
                free_table_id(staged, first) == free_table_id(staged, id),
            decreases u64::MAX - id,
        {
            if id == u64::MAX {
                return Err(EngineError::Core(Error::Invariant("table id overflow".to_owned())));
            }
            id = id + 1;
        }
        let table = match TableMeta::new(id, name, schema) {
            Ok(table) => table,
            Err(error) => return Err(error),
        };
        let taken = self.state.catalog.table_named(table.name.as_str()).is_some();
        if taken || table_name_is_staged(transaction, name) {
            return Err(constraint(message(&["table `", name, "` already exists"])));
        }
        proof {
            no_staged_table(
                staged.catalog_mutations,
                id,
                staged.catalog_mutations.len() as int,
            );
        }
        transaction.stage_catalog(CatalogMutation::CreateTable(table));
        Ok(id)
    }

    /// Stages a new index and returns its id.
    pub fn create_index(
        &self,
        transaction: &mut Transaction,
        name: &str,
        table_id: TableId,
        column: usize,
    ) -> (result: Result<IndexId>)
        ensures
            match result {
                Ok(id) => self.deep_view().index_created(
                    old(transaction).deep_view(),
                    name@,
                    table_id,
                    column,
                ) == Ok::<(IndexId, TransactionView), EngineErrorKind>(
                    (id, final(transaction).deep_view()),
                ),
                Err(error) => self.deep_view().index_created(
                    old(transaction).deep_view(),
                    name@,
                    table_id,
                    column,
                ) == Err::<(IndexId, TransactionView), EngineErrorKind>(error.deep_view())
                    && final(transaction).deep_view() == old(transaction).deep_view(),
            },
    {
        proof {
            use_type_invariant(self);
        }
        let ghost staged = transaction.deep_view();
        if let Err(error) = self.ensure_transaction_snapshot(transaction) {
            return Err(error);
        }
        let table = match self.table_for_transaction(transaction, table_id) {
            Ok(table) => table.duplicate(),
            Err(error) => return Err(error),
        };
        let mut id = self.state.catalog.next_index_id();
        let ghost first = id;
        while transaction.staged_index(id).is_some()
            invariant
                staged == transaction.deep_view(),
                first == next_id(ordered::<u64>(self.deep_view().catalog.indexes.dom())),
                self.deep_view().snapshot_problem(staged) is None,
                self.deep_view().table_for(staged, table_id) is Some,
                staged == old(transaction).deep_view(),
                free_index_id(staged, first) == free_index_id(staged, id),
            decreases u64::MAX - id,
        {
            if id == u64::MAX {
                return Err(EngineError::Core(Error::Invariant("index id overflow".to_owned())));
            }
            id = id + 1;
        }
        let index = match IndexMeta::new(id, name, &table, column) {
            Ok(index) => index,
            Err(error) => return Err(error),
        };
        let taken = self.state.catalog.index_named(index.name.as_str()).is_some();
        if taken || index_name_is_staged(transaction, name) {
            return Err(constraint(message(&["index `", name, "` already exists"])));
        }
        proof {
            no_staged_index(
                staged.catalog_mutations,
                id,
                staged.catalog_mutations.len() as int,
            );
        }
        transaction.stage_catalog(CatalogMutation::CreateIndex(index));
        Ok(id)
    }

    /// The row with a primary key, as the transaction sees it.
    pub fn get(&self, transaction: &Transaction, table_id: TableId, primary_key: &Value) -> (result:
        Result<Option<Row>>)
        ensures
            outcome(result) == self.deep_view().fetched(
                transaction.deep_view(),
                table_id,
                primary_key.deep_view(),
            ),
    {
        if let Err(error) = self.ensure_transaction_snapshot(transaction) {
            return Err(error);
        }
        if let Err(error) = self.validate_primary_key(transaction, table_id, primary_key) {
            return Err(error);
        }
        match LogicalKey::new(table_id, primary_key) {
            Ok(key) => Ok(self.read_key(transaction, &key)),
            Err(error) => Err(error),
        }
    }

    /// Stages a new row.
    pub fn insert(&self, transaction: &mut Transaction, table_id: TableId, row: Row) -> (result:
        Result<()>)
        ensures
            match result {
                Ok(()) => self.deep_view().inserted(
                    old(transaction).deep_view(),
                    table_id,
                    row.deep_view(),
                ) == Ok::<TransactionView, EngineErrorKind>(final(transaction).deep_view()),
                Err(error) => self.deep_view().inserted(
                    old(transaction).deep_view(),
                    table_id,
                    row.deep_view(),
                ) == Err::<TransactionView, EngineErrorKind>(error.deep_view()) && final(transaction).deep_view() == old(transaction).deep_view(),
            },
    {
        let primary_key = match self.validate_row(transaction, table_id, &row) {
            Ok(primary_key) => primary_key,
            Err(error) => return Err(error),
        };
        match self.get(transaction, table_id, &primary_key) {
            Err(error) => return Err(error),
            Ok(Some(_)) => return Err(
                constraint(
                    message(&["duplicate primary key ", display_value(&primary_key).as_str()]),
                ),
            ),
            Ok(None) => {},
        }
        transaction.stage_write(TxnWrite { table_id, primary_key, mutation: Mutation::Put(row) })
    }

    /// Stages a row, in place of the one with the same key if there is one.
    pub fn upsert(&self, transaction: &mut Transaction, table_id: TableId, row: Row) -> (result:
        Result<()>)
        ensures
            match result {
                Ok(()) => self.deep_view().upserted(
                    old(transaction).deep_view(),
                    table_id,
                    row.deep_view(),
                ) == Ok::<TransactionView, EngineErrorKind>(final(transaction).deep_view()),
                Err(error) => self.deep_view().upserted(
                    old(transaction).deep_view(),
                    table_id,
                    row.deep_view(),
                ) == Err::<TransactionView, EngineErrorKind>(error.deep_view()) && final(transaction).deep_view() == old(transaction).deep_view(),
            },
    {
        let primary_key = match self.validate_row(transaction, table_id, &row) {
            Ok(primary_key) => primary_key,
            Err(error) => return Err(error),
        };
        transaction.stage_write(TxnWrite { table_id, primary_key, mutation: Mutation::Put(row) })
    }

    /// Stages a new version of a row, and says whether the row exists.
    pub fn update(
        &self,
        transaction: &mut Transaction,
        table_id: TableId,
        primary_key: &Value,
        row: Row,
    ) -> (result: Result<bool>)
        ensures
            match result {
                Ok(found) => self.deep_view().updated(
                    old(transaction).deep_view(),
                    table_id,
                    primary_key.deep_view(),
                    row.deep_view(),
                ) == Ok::<(bool, TransactionView), EngineErrorKind>(
                    (found, final(transaction).deep_view()),
                ),
                Err(error) => self.deep_view().updated(
                    old(transaction).deep_view(),
                    table_id,
                    primary_key.deep_view(),
                    row.deep_view(),
                ) == Err::<(bool, TransactionView), EngineErrorKind>(error.deep_view()) && final(transaction).deep_view() == old(transaction).deep_view(),
            },
    {
        match self.get(transaction, table_id, primary_key) {
            Err(error) => return Err(error),
            Ok(None) => return Ok(false),
            Ok(Some(_)) => {},
        }
        let row_key = match self.validate_row(transaction, table_id, &row) {
            Ok(row_key) => row_key,
            Err(error) => return Err(error),
        };
        if !row_key.same(primary_key) {
            return Err(constraint("UPDATE cannot change the primary-key column".to_owned()));
        }
        match transaction.stage_write(
            TxnWrite { table_id, primary_key: row_key, mutation: Mutation::Put(row) },
        ) {
            Ok(()) => Ok(true),
            Err(error) => Err(error),
        }
    }

    /// Stages the removal of a row, and says whether the row exists.
    pub fn delete(
        &self,
        transaction: &mut Transaction,
        table_id: TableId,
        primary_key: &Value,
    ) -> (result: Result<bool>)
        ensures
            match result {
                Ok(found) => self.deep_view().deleted(
                    old(transaction).deep_view(),
                    table_id,
                    primary_key.deep_view(),
                ) == Ok::<(bool, TransactionView), EngineErrorKind>(
                    (found, final(transaction).deep_view()),
                ),
                Err(error) => self.deep_view().deleted(
                    old(transaction).deep_view(),
                    table_id,
                    primary_key.deep_view(),
                ) == Err::<(bool, TransactionView), EngineErrorKind>(error.deep_view()) && final(transaction).deep_view() == old(transaction).deep_view(),
            },
    {
        match self.get(transaction, table_id, primary_key) {
            Err(error) => return Err(error),
            Ok(None) => return Ok(false),
            Ok(Some(_)) => {},
        }
        match transaction.stage_write(
            TxnWrite {
                table_id,
                primary_key: primary_key.duplicate(),
                mutation: Mutation::Delete,
            },
        ) {
            Ok(()) => Ok(true),
            Err(error) => Err(error),
        }
    }

    /// The rows of a table in primary-key order, as the transaction sees them.
    pub fn scan_table(&self, transaction: &Transaction, table_id: TableId) -> (result: Result<
        Vec<Row>,
    >)
        ensures
            outcome(result) == self.deep_view().scanned(transaction.deep_view(), table_id),
    {
        let ghost view = self.deep_view();
        let ghost reader = transaction.deep_view();
        if let Err(error) = self.ensure_transaction_snapshot(transaction) {
            return Err(error);
        }
        if let Err(error) = self.table_for_transaction(transaction, table_id) {
            return Err(error);
        }
        let mut keys: OrdSet<LogicalKey> = OrdSet::new();
        let count = self.state.primary.len();
        let ghost stored = self.state.primary.keys();
        let mut i: usize = 0;
        while i < count
            invariant
                i <= count,
                view == self.deep_view(),
                stored == self.state.primary.keys(),
                count == stored.len(),
                keys.deep_view() == gathered(Set::empty(), stored, table_id, i as int),
            decreases count - i,
        {
            let key = self.state.primary.key_at(i);
            let ghost before = keys.deep_view();
            if key.table_id == table_id {
                keys.insert(key.duplicate());
            }
            i = i + 1;
        }
        let written = transaction.written_keys();
        let ghost from_table = keys.deep_view();
        let ghost listed = written.deep_view();
        let mut i: usize = 0;
        while i < written.len()
            invariant
                i <= written@.len(),
                listed == written.deep_view(),
                keys.deep_view() == gathered(from_table, listed, table_id, i as int),
            decreases written@.len() - i,
        {
            if written[i].table_id == table_id {
                keys.insert(written[i].duplicate());
            }
            proof {
                assert(listed[i as int] == written@[i as int].deep_view());
            }
            i = i + 1;
        }
        proof {
            assert forall|key: LogicalKeyView| keys.deep_view().contains(key) <==> view.table_keys(
                reader,
                table_id,
            ).contains(key) by {
                gathered_has(Set::empty(), stored, table_id, count as int, key);
                gathered_has(from_table, listed, table_id, i as int, key);
                assert(stored.contains(key) <==> view.primary.contains_key(key));
                assert(listed.contains(key) <==> reader.writes.contains_key(key));
            }
            assert(keys.deep_view() =~= view.table_keys(reader, table_id));
        }
        let total = keys.len();
        let ghost order = keys.listed();
        let mut rows: Vec<Row> = Vec::new();
        let mut i: usize = 0;
        assert(rows.deep_view() =~= Seq::empty());
        while i < total
            invariant
                i <= total,
                view == self.deep_view(),
                reader == transaction.deep_view(),
                order == keys.listed(),
                total == order.len(),
                rows.deep_view() == view.rows_among(reader, order, i as int),
            decreases total - i,
        {
            let ghost before = rows.deep_view();
            if let Some(row) = self.read_key(transaction, keys.member_at(i)) {
                rows.push(row);
                assert(rows.deep_view() =~= before.push(row.deep_view()));
            }
            i = i + 1;
        }
        Ok(rows)
    }

    /// The rows with a value in an indexed column, in primary-key order.
    pub fn scan_secondary(&self, transaction: &Transaction, index_id: IndexId, value: &Value) -> (result:
        Result<Vec<Row>>)
        ensures
            outcome(result) == self.deep_view().looked_up(
                transaction.deep_view(),
                index_id,
                value.deep_view(),
            ),
    {
        let ghost view = self.deep_view();
        let ghost reader = transaction.deep_view();
        if let Err(error) = self.ensure_transaction_snapshot(transaction) {
            return Err(error);
        }
        let index = match self.state.catalog.index(index_id) {
            Some(index) => index.duplicate(),
            None => match transaction.staged_index(index_id) {
                Some(index) => index.duplicate(),
                None => return Err(EngineError::UnknownIndex(index_id)),
            },
        };
        if value.is_null() {
            let rows: Vec<Row> = Vec::new();
            assert(rows.deep_view() =~= Seq::empty());
            return Ok(rows);
        }
        let mut encoded: Vec<u8> = Vec::new();
        if let Err(error) = encode_value(value, &mut encoded) {
            return Err(EngineError::Core(error));
        }
        encoded.clear();
        encode_ordered(value, &mut encoded);
        assert(encoded@ =~= ordered_value(value.deep_view()));

        let mut keys: OrdSet<LogicalKey> = OrdSet::new();
        let count = self.state.secondary.len();
        let ghost stored = self.state.secondary.keys();
        let ghost indexed = index.deep_view();
        let mut i: usize = 0;
        while i < count
            invariant
                i <= count,
                view == self.deep_view(),
                reader == transaction.deep_view(),
                indexed == index.deep_view(),
                encoded.deep_view() == ordered_value(value.deep_view()),
                stored == self.state.secondary.keys(),
                count == stored.len(),
                keys.deep_view() == view.entries_gathered(
                    stored,
                    indexed.table_id,
                    index_id,
                    value.deep_view(),
                    reader.read_ts,
                    i as int,
                ),
            decreases count - i,
        {
            let key = self.state.secondary.key_at(i);
            let versions = self.state.secondary.value_at(i);
            let ghost before = keys.deep_view();
            if key.index_id == index_id && key.secondary_value.same(&encoded) && visible_secondary(
                versions,
                transaction.read_ts(),
            ) {
                keys.insert(
                    LogicalKey {
                        table_id: index.table_id,
                        primary_key: key.primary_key.duplicate(),
                    },
                );
            }
            i = i + 1;
        }
        let written = transaction.written_keys();
        let ghost from_index = keys.deep_view();
        let ghost listed = written.deep_view();
        let mut i: usize = 0;
        while i < written.len()
            invariant
                i <= written@.len(),
                listed == written.deep_view(),
                indexed == index.deep_view(),
                keys.deep_view() == gathered(from_index, listed, indexed.table_id, i as int),
            decreases written@.len() - i,
        {
            if written[i].table_id == index.table_id {
                keys.insert(written[i].duplicate());
            }
            proof {
                assert(listed[i as int] == written@[i as int].deep_view());
            }
            i = i + 1;
        }
        proof {
            let wanted = view.entry_keys(reader, indexed, index_id, value.deep_view());
            assert forall|key: LogicalKeyView| keys.deep_view().contains(key)
                <==> wanted.contains(key) by {
                let entry = entry_key(index_id, value.deep_view(), key.primary_key);
                view.entries_gathered_has(
                    stored,
                    indexed.table_id,
                    index_id,
                    value.deep_view(),
                    reader.read_ts,
                    count as int,
                    key,
                );
                gathered_has(from_index, listed, indexed.table_id, i as int, key);
                assert(listed.contains(key) <==> reader.writes.contains_key(key));
                assert(stored.contains(entry) <==> view.secondary.contains_key(entry));
            }
            assert(keys.deep_view() =~= wanted);
        }
        let total = keys.len();
        let ghost order = keys.listed();
        let mut rows: Vec<Row> = Vec::new();
        let mut i: usize = 0;
        assert(rows.deep_view() =~= Seq::empty());
        while i < total
            invariant
                i <= total,
                view == self.deep_view(),
                reader == transaction.deep_view(),
                indexed == index.deep_view(),
                order == keys.listed(),
                total == order.len(),
                rows.deep_view() == view.rows_with(
                    reader,
                    order,
                    indexed.column,
                    value.deep_view(),
                    i as int,
                ),
            decreases total - i,
        {
            let ghost before = rows.deep_view();
            if let Some(row) = self.read_key(transaction, keys.member_at(i)) {
                if index.column < row.values.len() && row.values[index.column].same(value) {
                    rows.push(row);
                    assert(rows.deep_view() =~= before.push(row.deep_view()));
                }
            }
            i = i + 1;
        }
        Ok(rows)
    }

    fn ensure_transaction_snapshot(&self, transaction: &Transaction) -> (result: Result<()>)
        ensures
            match result {
                Ok(()) => self.deep_view().snapshot_problem(transaction.deep_view()) is None,
                Err(error) => self.deep_view().snapshot_problem(transaction.deep_view()) == Some(
                    error.deep_view(),
                ),
            },
    {
        if transaction.read_ts() < self.state.retained_floor {
            return Err(
                EngineError::SnapshotTooOld {
                    requested: transaction.read_ts(),
                    floor: self.state.retained_floor,
                },
            );
        }
        if transaction.read_ts() > self.state.last_applied {
            return Err(
                EngineError::Core(
                    Error::Invariant("transaction reads a future snapshot".to_owned()),
                ),
            );
        }
        Ok(())
    }

    fn table_for_transaction<'a>(&'a self, transaction: &'a Transaction, table_id: TableId) -> (result:
        Result<&'a TableMeta>)
        ensures
            match result {
                Ok(table) => self.deep_view().table_for(transaction.deep_view(), table_id) == Some(
                    table.deep_view(),
                ) && table.deep_view().valid(),
                Err(error) => self.deep_view().table_for(transaction.deep_view(), table_id) is None
                    && error.deep_view() == EngineErrorKind::UnknownTable(table_id),
            },
    {
        proof {
            use_type_invariant(self);
        }
        match transaction.staged_table(table_id) {
            Some(table) => Ok(table),
            None => match self.state.catalog.table(table_id) {
                Some(table) => {
                    assert(self.deep_view().catalog.tables[table_id].valid());
                    Ok(table)
                },
                None => Err(EngineError::UnknownTable(table_id)),
            },
        }
    }

    fn validate_primary_key(
        &self,
        transaction: &Transaction,
        table_id: TableId,
        primary_key: &Value,
    ) -> (result: Result<()>)
        ensures
            match result {
                Ok(()) => self.deep_view().key_problem(
                    transaction.deep_view(),
                    table_id,
                    primary_key.deep_view(),
                ) is None,
                Err(error) => self.deep_view().key_problem(
                    transaction.deep_view(),
                    table_id,
                    primary_key.deep_view(),
                ) == Some(error.deep_view()),
            },
    {
        let table = match self.table_for_transaction(transaction, table_id) {
            Ok(table) => table,
            Err(error) => return Err(error),
        };
        proof {
            valid_table_key(table.deep_view());
        }
        let column = &table.schema.columns[table.primary_key_column];
        assert(column.deep_view()
            == table.deep_view().schema.columns[table.primary_key_column as int]);
        let fits = match primary_key.data_type() {
            Some(data_type) => data_type == column.data_type,
            None => false,
        };
        if !fits {
            return Err(
                EngineError::Core(
                    Error::Type(
                        message(
                            &[
                                "primary key for `",
                                table.name.as_str(),
                                "` expects ",
                                column.data_type.name(),
                                ", got ",
                                primary_key.sql_type_name(),
                            ],
                        ),
                    ),
                ),
            );
        }
        let mut validation: Vec<u8> = Vec::new();
        match encode_value(primary_key, &mut validation) {
            Ok(()) => Ok(()),
            Err(error) => Err(EngineError::Core(error)),
        }
    }

    fn validate_row(&self, transaction: &Transaction, table_id: TableId, row: &Row) -> (result:
        Result<Value>)
        ensures
            outcome(result) == self.deep_view().row_key(
                transaction.deep_view(),
                table_id,
                row.deep_view(),
            ),
    {
        if let Err(error) = self.ensure_transaction_snapshot(transaction) {
            return Err(error);
        }
        let table = match self.table_for_transaction(transaction, table_id) {
            Ok(table) => table,
            Err(error) => return Err(error),
        };
        if let Err(error) = table.schema.validate_row(row) {
            return Err(EngineError::Core(error));
        }
        proof {
            valid_table_key(table.deep_view());
        }
        let primary_key = row.values[table.primary_key_column].duplicate();
        match self.validate_primary_key(transaction, table_id, &primary_key) {
            Ok(()) => Ok(primary_key),
            Err(error) => Err(error),
        }
    }

    fn read_key(&self, transaction: &Transaction, key: &LogicalKey) -> (found: Option<Row>)
        ensures
            found.deep_view() == self.deep_view().read(transaction.deep_view(), key.deep_view()),
    {
        match transaction.overlay(key) {
            Some(Mutation::Put(row)) => Some(row.duplicate()),
            Some(Mutation::Delete) => None,
            None => match self.state.primary.get(key) {
                Some(versions) => newest_row(versions, transaction.read_ts()),
                None => None,
            },
        }
    }
}

impl Default for Engine {
    fn default() -> (engine: Engine)
        ensures
            engine.deep_view() == EngineView::initial(),
    {
        Engine::new()
    }
}

impl Clone for Engine {
    fn clone(&self) -> (copy: Engine)
        ensures
            copy.deep_view() == self.deep_view(),
    {
        proof {
            use_type_invariant(self);
        }
        let state = self.state.copied();
        Engine { state }
    }
}

/// The empty engine satisfies the invariant.
pub proof fn initial_is_well_formed()
    ensures
        EngineView::initial().well_formed(),
{
    let initial = EngineView::initial();
    finite_set_is_listed::<LogicalKey>(initial.primary.dom());
    finite_set_is_listed::<SecondaryKey>(initial.secondary.dom());
    crate::ordmap::listing_len::<LogicalKey>(
        ordered::<LogicalKey>(initial.primary.dom()),
        initial.primary.dom(),
    );
    crate::ordmap::listing_len::<SecondaryKey>(
        ordered::<SecondaryKey>(initial.secondary.dom()),
        initial.secondary.dom(),
    );
    assert(initial.catalog.valid());
}

/// `base` with those of the first `n` keys that belong to a table.
spec fn gathered(
    base: Set<LogicalKeyView>,
    keys: Seq<LogicalKeyView>,
    table_id: TableId,
    n: int,
) -> Set<LogicalKeyView>
    decreases n,
{
    if n <= 0 {
        base
    } else if keys[n - 1].table_id == table_id {
        gathered(base, keys, table_id, n - 1).insert(keys[n - 1])
    } else {
        gathered(base, keys, table_id, n - 1)
    }
}

proof fn gathered_has(
    base: Set<LogicalKeyView>,
    keys: Seq<LogicalKeyView>,
    table_id: TableId,
    n: int,
    key: LogicalKeyView,
)
    requires
        0 <= n <= keys.len(),
    ensures
        gathered(base, keys, table_id, n).contains(key) <==> base.contains(key) || (key.table_id
            == table_id && exists|i: int| 0 <= i < n && #[trigger] keys[i] == key),
    decreases n,
{
    if n > 0 {
        gathered_has(base, keys, table_id, n - 1, key);
        assert(keys[n - 1] == keys[n - 1]);
    }
}

impl EngineView {
    /// The rows whose entries for a value are among the first `n` index keys.
    spec fn entries_gathered(
        self,
        keys: Seq<SecondaryKeyView>,
        table_id: TableId,
        index_id: IndexId,
        value: ValueView,
        read_ts: u64,
        n: int,
    ) -> Set<LogicalKeyView>
        decreases n,
    {
        if n <= 0 {
            Set::empty()
        } else {
            let so_far = self.entries_gathered(keys, table_id, index_id, value, read_ts, n - 1);
            let key = keys[n - 1];
            if key.index_id == index_id && key.secondary_value == ordered_value(value)
                && self.entry_visible(key, read_ts) {
                so_far.insert(LogicalKeyView { table_id, primary_key: key.primary_key })
            } else {
                so_far
            }
        }
    }

    proof fn entries_gathered_has(
        self,
        keys: Seq<SecondaryKeyView>,
        table_id: TableId,
        index_id: IndexId,
        value: ValueView,
        read_ts: u64,
        n: int,
        key: LogicalKeyView,
    )
        requires
            0 <= n <= keys.len(),
        ensures
            self.entries_gathered(keys, table_id, index_id, value, read_ts, n).contains(key) <==> {
                let entry = entry_key(index_id, value, key.primary_key);
                &&& key.table_id == table_id
                &&& self.entry_visible(entry, read_ts)
                &&& exists|i: int| 0 <= i < n && #[trigger] keys[i] == entry
            },
        decreases n,
    {
        if n > 0 {
            self.entries_gathered_has(keys, table_id, index_id, value, read_ts, n - 1, key);
            assert(keys[n - 1] == keys[n - 1]);
        }
    }
}

/// The row that a snapshot sees in a chain.
pub(crate) fn newest_row(versions: &Vec<RowVersion>, read_ts: u64) -> (found: Option<Row>)
    ensures
        found.deep_view() == visible_row(versions.deep_view(), read_ts),
{
    proof {
        seen_from_bounds::<RowVersion>(versions.deep_view(), read_ts);
    }
    let position = seen_position(versions, read_ts);
    if position < versions.len() {
        versions[position].row.duplicate()
    } else {
        None
    }
}

fn visible_secondary(versions: &Vec<SecondaryVersion>, read_ts: u64) -> (found: bool)
    ensures
        found == (visible::<SecondaryVersion>(versions.deep_view(), read_ts) is Some),
{
    proof {
        seen_from_bounds::<SecondaryVersion>(versions.deep_view(), read_ts);
    }
    let position = seen_position(versions, read_ts);
    position < versions.len() && versions[position].present
}

fn table_name_is_staged(transaction: &Transaction, name: &str) -> (found: bool)
    ensures
        found == table_name_staged(transaction.deep_view(), name@),
{
    let mutations = transaction.catalog_mutations();
    let ghost staged = transaction.deep_view().catalog_mutations;
    let mut i: usize = 0;
    while i < mutations.len()
        invariant
            i <= mutations@.len(),
            staged == mutations.deep_view(),
            staged == transaction.deep_view().catalog_mutations,
            forall|j: int|
                0 <= j < i ==> !(#[trigger] staged[j] matches CatalogMutationView::CreateTable(
                    table,
                ) && folded_name(table.name) == folded_name(name@)),
        decreases mutations@.len() - i,
    {
        assert(staged[i as int] == mutations@[i as int].deep_view());
        if let CatalogMutation::CreateTable(table) = &mutations[i] {
            if same_name(table.name.as_str(), name) {
                return true;
            }
        }
        i = i + 1;
    }
    false
}

fn index_name_is_staged(transaction: &Transaction, name: &str) -> (found: bool)
    ensures
        found == index_name_staged(transaction.deep_view(), name@),
{
    let mutations = transaction.catalog_mutations();
    let ghost staged = transaction.deep_view().catalog_mutations;
    let mut i: usize = 0;
    while i < mutations.len()
        invariant
            i <= mutations@.len(),
            staged == mutations.deep_view(),
            staged == transaction.deep_view().catalog_mutations,
            forall|j: int|
                0 <= j < i ==> !(#[trigger] staged[j] matches CatalogMutationView::CreateIndex(
                    index,
                ) && folded_name(index.name) == folded_name(name@)),
        decreases mutations@.len() - i,
    {
        assert(staged[i as int] == mutations@[i as int].deep_view());
        if let CatalogMutation::CreateIndex(index) = &mutations[i] {
            if same_name(index.name.as_str(), name) {
                return true;
            }
        }
        i = i + 1;
    }
    false
}

fn display_value(value: &Value) -> (text: String) {
    match value {
        Value::Null => "NULL".to_owned(),
        Value::Int64(x) => x.to_string(),
        Value::Bool(b) => b.to_string(),
        Value::Text(text) => message(&["'", text.as_str(), "'"]),
        Value::Bytes(bytes) => message(&["<", bytes.len().to_string().as_str(), " bytes>"]),
    }
}

} // verus!
