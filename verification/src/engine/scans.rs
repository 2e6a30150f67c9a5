//! A table scan lists what point reads find.

use vstd::prelude::*;
use crate::codec::{encodable, ordered_value};
use crate::engine::catalog::{TableMetaView, mutations_keep_validity, valid_table_key};
use crate::engine::error::EngineErrorKind;
use crate::engine::laws::{commit_grows, live_listing, no_write_abort, writes_row};
use crate::engine::mvcc::{
    RowVersion, RowVersionView, Version, chain, seen_from, seen_from_bounds, vacuumed,
};
use crate::engine::outcome::ApplyOutcomeView;
use crate::engine::state::EngineView;
use crate::engine::transaction::{
    LogicalKey, LogicalKeyView, TransactionView, TxnAttemptView, canonical_write_has_key,
};
use crate::order::lex_lt;
use crate::ordmap::{Key, ordered};
use crate::types::{RowView, TableId, ValueView};

verus! {

/// A row stands under the encoding of its own primary key.
pub open spec fn stands_under(table: TableMetaView, key: LogicalKeyView, row: RowView) -> bool {
    let column = table.primary_key_column as int;
    &&& column < row.values.len()
    &&& row.values[column].data_type() == Some(table.schema.columns[column].data_type)
    &&& encodable(row.values[column])
    &&& ordered_value(row.values[column]) == key.primary_key
}

impl EngineView {
    /// A version of a row is of a table of the catalog, and a row that it shows
    /// stands under its own key.
    pub open spec fn version_keyed(self, key: LogicalKeyView, version: RowVersionView) -> bool {
        version.row matches Some(row) ==> self.catalog.tables.contains_key(key.table_id)
            && stands_under(self.catalog.tables[key.table_id], key, row)
    }

    /// Every row stands under its own key.
    pub open spec fn rows_keyed(self) -> bool {
        forall|key: LogicalKeyView, i: int|
            #![trigger self.primary[key][i]]
            self.primary.contains_key(key) && 0 <= i < self.primary[key].len()
                ==> self.version_keyed(key, self.primary[key][i])
    }

    /// Every row that a transaction writes stands under its own key.
    pub open spec fn writes_keyed(self, transaction: TransactionView) -> bool {
        forall|key: LogicalKeyView|
            #![trigger transaction.writes[key]]
            transaction.writes.contains_key(key) ==> (transaction.writes[key].new_row() matches Some(
                row,
            ) ==> self.table_for(transaction, key.table_id) is Some && stands_under(
                self.table_for(transaction, key.table_id)->0,
                key,
                row,
            ))
    }
}

/// The rows of a fresh engine stand under their keys: it has none.
pub proof fn initial_rows_are_keyed()
    ensures
        EngineView::initial().rows_keyed(),
{
}

/// Whatever is applied, every row stands under its own key.
pub proof fn applying_keeps_rows_keyed(
    engine: EngineView,
    index: u64,
    apply_hash: Seq<u8>,
    request_hash: Seq<u8>,
    attempt: TxnAttemptView,
    outcome: ApplyOutcomeView,
    next: EngineView,
)
    requires
        engine.well_formed(),
        engine.apply_problem(index, apply_hash, attempt) is None,
        engine.applied_as(index, apply_hash, request_hash, attempt, outcome, next),
        engine.rows_keyed(),
    ensures
        next.rows_keyed(),
{
    if index != engine.last_applied && engine.admission(attempt.request, request_hash) is New
        && outcome->Applied_0 is Committed {
        commit_grows(engine, index, attempt);
        mutations_keep_validity(engine.catalog, attempt.catalog_mutations);
        let n = attempt.writes.len() as int;
        assert forall|key: LogicalKeyView, i: int|
            #![trigger next.primary[key][i]]
            next.primary.contains_key(key) && 0 <= i
                < next.primary[key].len() implies next.version_keyed(
            key,
            next.primary[key][i],
        ) by {
            let before = chain(engine.primary, key);
            let now = chain(next.primary, key);
            let committed = engine.committed(index, attempt);
            assert(now == chain(committed.primary, key));
            let position = if writes_row(attempt.writes, n, key) {
                i - 1
            } else {
                i
            };
            if writes_row(attempt.writes, n, key) {
                let w = choose|w: int|
                    0 <= w < n && (#[trigger] attempt.writes[w]).logical_key()->Ok_0 == key;
                let write = attempt.writes[w];
                canonical_write_has_key(attempt, w);
                assert(now == seq![RowVersionView { commit_index: index, row: write.new_row() }]
                    + before);
                if i == 0 {
                    no_write_abort(engine, next.catalog, attempt, n, w);
                    valid_table_key(next.catalog.tables[write.table_id]);
                }
            }
            if position >= 0 {
                assert(now[i] == before[position]);
                assert(engine.primary.contains_key(key));
                assert(engine.version_keyed(key, engine.primary[key][position]));
            }
        }
    } else {
        assert forall|key: LogicalKeyView, i: int|
            #![trigger next.primary[key][i]]
            next.primary.contains_key(key) && 0 <= i
                < next.primary[key].len() implies next.version_keyed(
            key,
            next.primary[key][i],
        ) by {
            assert(engine.version_keyed(key, engine.primary[key][i]));
        }
    }
}

/// A vacuum takes versions away and moves none.
pub proof fn vacuum_keeps_rows_keyed(engine: EngineView, retain_from: u64)
    requires
        engine.rows_keyed(),
    ensures
        engine.vacuumed_from(retain_from).rows_keyed(),
{
    let next = engine.vacuumed_from(retain_from);
    let floor = engine.floor_from(retain_from);
    assert forall|key: LogicalKeyView, i: int|
        #![trigger next.primary[key][i]]
        next.primary.contains_key(key) && 0 <= i
            < next.primary[key].len() implies next.version_keyed(key, next.primary[key][i]) by {
        seen_from_bounds::<RowVersion>(engine.primary[key], floor);
        assert(next.primary[key] == vacuumed::<RowVersion>(engine.primary[key], floor));
        assert(next.primary[key][i] == engine.primary[key][i]);
        assert(engine.version_keyed(key, engine.primary[key][i]));
    }
}

/// Inserting, replacing, changing and deleting rows writes each under its own key.
pub proof fn writing_keeps_writes_keyed(
    engine: EngineView,
    transaction: TransactionView,
    table_id: TableId,
    primary_key: ValueView,
    row: RowView,
)
    requires
        engine.catalog.valid(),
        transaction.well_formed(),
        engine.writes_keyed(transaction),
    ensures
        engine.inserted(transaction, table_id, row) matches Ok(next) ==> engine.writes_keyed(next),
        engine.upserted(transaction, table_id, row) matches Ok(next) ==> engine.writes_keyed(next),
        engine.updated(transaction, table_id, primary_key, row) matches Ok((_, next))
            ==> engine.writes_keyed(next),
        engine.deleted(transaction, table_id, primary_key) matches Ok((_, next))
            ==> engine.writes_keyed(next),
{
    if let Ok(key) = engine.row_key(transaction, table_id, row) {
        let table = engine.table_for(transaction, table_id)->0;
        staged_tables_are_valid(transaction, table_id);
        valid_table_key(table);
        assert(stands_under(
            table,
            LogicalKeyView { table_id, primary_key: ordered_value(key) },
            row,
        ));
    }
}

/// A table that a transaction sees is valid.
pub(crate) proof fn staged_tables_are_valid(transaction: TransactionView, table_id: TableId)
    requires
        transaction.well_formed(),
    ensures
        transaction.staged_table(table_id) matches Some(table) ==> table.valid(),
{
    staged_table_is_valid(transaction, table_id, transaction.catalog_mutations.len() as int);
}

proof fn staged_table_is_valid(transaction: TransactionView, table_id: TableId, n: int)
    requires
        transaction.well_formed(),
        0 <= n <= transaction.catalog_mutations.len(),
    ensures
        crate::engine::transaction::staged_table_among(
            transaction.catalog_mutations,
            table_id,
            n,
        ) matches Some(table) ==> table.valid(),
    decreases n,
{
    if n > 0 {
        staged_table_is_valid(transaction, table_id, n - 1);
        let mutation = transaction.catalog_mutations[n - 1];
    }
}

impl EngineView {
    proof fn rows_of_live_keys(
        self,
        transaction: TransactionView,
        live: Seq<LogicalKeyView>,
        n: int,
    )
        requires
            0 <= n <= live.len(),
            forall|i: int|
                0 <= i < live.len() ==> self.read(transaction, #[trigger] live[i]) is Some,
        ensures
            self.rows_among(transaction, live, n).len() == n,
            forall|i: int|
                0 <= i < n ==> #[trigger] self.rows_among(transaction, live, n)[i] == self.read(
                    transaction,
                    live[i],
                )->0,
        decreases n,
    {
        if n > 0 {
            self.rows_of_live_keys(transaction, live, n - 1);
            assert(self.read(transaction, live[n - 1]) is Some);
        }
    }

    /// A row that a transaction sees stands under its own key.
    pub(crate) proof fn read_rows_are_keyed(
        self,
        transaction: TransactionView,
        table_id: TableId,
        key: LogicalKeyView,
    )
        requires
            self.rows_keyed(),
            self.writes_keyed(transaction),
            transaction.staged_table(table_id) is None || !self.catalog.tables.contains_key(
                table_id,
            ),
            key.table_id == table_id,
            self.read(transaction, key) is Some,
        ensures
            self.table_for(transaction, table_id) is Some,
            stands_under(
                self.table_for(transaction, table_id)->0,
                key,
                self.read(transaction, key)->0,
            ),
    {
        if transaction.writes.contains_key(key) {
            assert(transaction.writes[key].new_row() is Some);
        } else {
            let versions = chain(self.primary, key);
            seen_from_bounds::<RowVersion>(versions, transaction.read_ts);
            let position = seen_from::<RowVersion>(versions, transaction.read_ts);
            assert(self.version_keyed(key, self.primary[key][position]));
        }
    }
}

/// A table scan lists exactly the rows that asking for them by primary key finds,
/// each once and in the order of the encodings of their keys. A transaction that
/// stages a table under an id that the catalog has meanwhile given away is left
/// out.
pub proof fn scan_lists_what_reads_find(
    engine: EngineView,
    transaction: TransactionView,
    table_id: TableId,
)
    requires
        engine.well_formed(),
        engine.rows_keyed(),
        transaction.writes.dom().finite(),
        engine.writes_keyed(transaction),
        engine.snapshot_problem(transaction) is None,
        engine.table_for(transaction, table_id) is Some,
        transaction.staged_table(table_id) is None || !engine.catalog.tables.contains_key(table_id),
    ensures
        engine.scanned(transaction, table_id) is Ok,
        ({
            let rows = engine.scanned(transaction, table_id)->Ok_0;
            let column = engine.table_for(transaction, table_id)->0.primary_key_column as int;
            &&& forall|i: int|
                0 <= i < rows.len() ==> column < (#[trigger] rows[i]).values.len()
                    && engine.fetched(transaction, table_id, rows[i].values[column]) == Ok::<
                    Option<RowView>,
                    EngineErrorKind,
                >(Some(rows[i]))
            &&& forall|primary_key: ValueView| #[trigger]
                engine.fetched(transaction, table_id, primary_key) matches Ok(Some(row))
                    ==> rows.contains(row)
            &&& forall|i: int, j: int|
                0 <= i < j < rows.len() ==> lex_lt(
                    ordered_value((#[trigger] rows[i]).values[column]),
                    ordered_value((#[trigger] rows[j]).values[column]),
                )
        }),
{
    live_listing(engine, transaction, table_id);
    let keys = ordered::<LogicalKey>(engine.table_keys(transaction, table_id));
    let live = engine.live_keys(transaction, keys, keys.len() as int);
    let rows = engine.scanned(transaction, table_id)->Ok_0;
    let table = engine.table_for(transaction, table_id)->0;
    let column = table.primary_key_column as int;
    assert forall|i: int| 0 <= i < live.len() implies engine.read(
        transaction,
        #[trigger] live[i],
    ) is Some && live[i].table_id == table_id by {
        assert(live.contains(live[i]));
    }
    engine.rows_of_live_keys(transaction, live, live.len() as int);
    assert(rows == engine.rows_among(transaction, live, live.len() as int));
    assert forall|i: int| 0 <= i < rows.len() implies stands_under(
        table,
        live[i],
        #[trigger] rows[i],
    ) && rows[i] == engine.read(transaction, live[i])->0 by {
        assert(engine.read(transaction, live[i]) is Some);
        engine.read_rows_are_keyed(transaction, table_id, live[i]);
    }
    assert forall|i: int| 0 <= i < rows.len() implies column < (#[trigger] rows[i]).values.len()
        && engine.fetched(transaction, table_id, rows[i].values[column]) == Ok::<
        Option<RowView>,
        EngineErrorKind,
    >(Some(rows[i])) by {
        assert(stands_under(table, live[i], rows[i]));
        assert(live[i].table_id == table_id);
        assert(live[i] == LogicalKeyView {
            table_id,
            primary_key: ordered_value(rows[i].values[column]),
        });
        assert(engine.read(transaction, live[i]) is Some);
    }
    assert forall|primary_key: ValueView| #[trigger]
        engine.fetched(transaction, table_id, primary_key) matches Ok(Some(row)) implies rows.contains(
        engine.fetched(transaction, table_id, primary_key)->Ok_0->0,
    ) by {
        let key = LogicalKeyView { table_id, primary_key: ordered_value(primary_key) };
        assert(live.contains(key));
        let i = choose|i: int| 0 <= i < live.len() && live[i] == key;
        assert(rows[i] == engine.read(transaction, live[i])->0);
    }
    assert forall|i: int, j: int| 0 <= i < j < rows.len() implies lex_lt(
        ordered_value((#[trigger] rows[i]).values[column]),
        ordered_value((#[trigger] rows[j]).values[column]),
    ) by {
        assert(LogicalKey::before(live[i], live[j]));
        assert(stands_under(table, live[i], rows[i]));
        assert(stands_under(table, live[j], rows[j]));
        assert(live[i].table_id == table_id && live[j].table_id == table_id);
    }
}

} // verus!
