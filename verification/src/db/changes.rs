//! Statements change the rows that they name, and no others.

use vstd::prelude::*;
use crate::codec::{ordered_encoding_is_injective, ordered_value};
use crate::db::error::DatabaseErrorKind;
use crate::db::executor::{
    RowChange, StatementOutputView, assigned, primary_key_from, rows_changed, statement_executed,
    table_changed,
};
use crate::db::rows::{all_evaluated, empty_row, plain_row};
use crate::db::scalar::{ExecRowView, Meaning, evaluated, predicate_holds};
use crate::db::sql::{
    AssignmentView, BoundExprView, BoundStatementView, PhysicalPlanView, TableDefView,
};
use crate::engine::catalog::valid_table_key;
use crate::engine::error::EngineErrorKind;
use crate::engine::scans::{scan_lists_what_reads_find, staged_tables_are_valid};
use crate::engine::state::EngineView;
use crate::engine::transaction::{LogicalKeyView, TransactionView};
use crate::types::{ColumnView, RowView, TableId, ValueView};

verus! {

/// A row of a table, without aggregates.
pub open spec fn table_row(row: RowView) -> ExecRowView {
    ExecRowView { row, aggregates: Seq::empty() }
}

/// A row is one that a statement is to change: its condition holds on the row, or it has
/// none.
pub open spec fn is_named(
    meaning: Meaning,
    condition: Option<BoundExprView>,
    row: RowView,
    parameters: Seq<ValueView>,
) -> bool {
    match condition {
        None => true,
        Some(condition) => predicate_holds(meaning, condition, table_row(row), parameters) == Ok::<
            bool,
            DatabaseErrorKind,
        >(true),
    }
}

/// The positions of the rows that a statement is to change.
pub open spec fn named_among(
    meaning: Meaning,
    condition: Option<BoundExprView>,
    rows: Seq<RowView>,
    parameters: Seq<ValueView>,
) -> Set<int> {
    Set::new(
        |i: int| 0 <= i < rows.len() && is_named(meaning, condition, rows[i], parameters),
    )
}

/// `after` is `before` with the assigned columns: each has the value of its last assignment,
/// computed on the row as it was, and every other column is as it was.
pub open spec fn has_assigned(
    meaning: Meaning,
    assignments: Seq<AssignmentView>,
    before: RowView,
    parameters: Seq<ValueView>,
    after: RowView,
) -> bool {
    &&& after.values.len() == before.values.len()
    &&& forall|a: int|
        0 <= a < assignments.len() && (forall|b: int|
            a < b < assignments.len() ==> (#[trigger] assignments[b]).column
                != assignments[a].column) ==> (#[trigger] assignments[a]).column
            < after.values.len() && evaluated(
            meaning,
            assignments[a].value,
            table_row(before),
            parameters,
        ) == Ok::<ValueView, DatabaseErrorKind>(after.values[assignments[a].column as int])
    &&& forall|c: int|
        0 <= c < after.values.len() && (forall|a: int|
            0 <= a < assignments.len() ==> (#[trigger] assignments[a]).column != c)
            ==> #[trigger] after.values[c] == before.values[c]
}

/// What a statement is bound to is the table that the transaction sees, whose rows stand
/// under their own keys. A transaction that stages a table under an id that the catalog has
/// meanwhile given away is left out.
pub open spec fn is_bound(
    engine: EngineView,
    transaction: TransactionView,
    table: TableDefView,
) -> bool {
    &&& engine.well_formed()
    &&& engine.rows_keyed()
    &&& transaction.well_formed()
    &&& engine.writes_keyed(transaction)
    &&& engine.table_for(transaction, table.id) matches Some(meta) && meta.schema == table.schema
    &&& transaction.staged_table(table.id) is None || !engine.catalog.tables.contains_key(table.id)
}

/// Reads of every other table answer what they did.
pub open spec fn other_tables_stay(
    engine: EngineView,
    before: TransactionView,
    after: TransactionView,
    table_id: TableId,
) -> bool {
    forall|other: TableId, key: ValueView|
        other != table_id ==> #[trigger] engine.fetched(after, other, key) == engine.fetched(
            before,
            other,
            key,
        )
}

proof fn primary_key_is_first(columns: Seq<ColumnView>, key: int, n: int)
    requires
        0 <= n <= key < columns.len(),
        columns[key].primary_key,
        forall|i: int| 0 <= i < key ==> !(#[trigger] columns[i]).primary_key,
    ensures
        primary_key_from(columns, n) == Some(key),
    decreases key - n,
{
    if n < key {
        primary_key_is_first(columns, key, n + 1);
    }
}

/// The primary key of a bound table is the one of the table that the transaction sees.
proof fn bound_key(engine: EngineView, transaction: TransactionView, table: TableDefView)
    requires
        is_bound(engine, transaction, table),
    ensures
        ({
            let meta = engine.table_for(transaction, table.id)->0;
            &&& primary_key_from(table.schema.columns, 0) == Some(meta.primary_key_column as int)
            &&& meta.valid()
        }),
{
    let meta = engine.table_for(transaction, table.id)->0;
    staged_tables_are_valid(transaction, table.id);
    if transaction.staged_table(table.id) is None {
        assert(engine.catalog.tables.contains_key(table.id));
        assert(engine.catalog.tables_valid());
        assert(meta == engine.catalog.tables[table.id]);
    }
    valid_table_key(meta);
    let key = meta.primary_key_column as int;
    assert forall|i: int| 0 <= i < key implies !(
    #[trigger] table.schema.columns[i]).primary_key by {}
    primary_key_is_first(table.schema.columns, key, 0);
}

/// The key of the row at a position.
spec fn key_at(table_id: TableId, column: int, rows: Seq<RowView>, i: int) -> LogicalKeyView {
    LogicalKeyView { table_id, primary_key: ordered_value(rows[i].values[column]) }
}

/// One of the first `n` rows is to be changed and stands under the key.
spec fn touched(
    meaning: Meaning,
    condition: Option<BoundExprView>,
    table_id: TableId,
    column: int,
    rows: Seq<RowView>,
    parameters: Seq<ValueView>,
    n: int,
    key: LogicalKeyView,
) -> bool {
    exists|i: int|
        0 <= i < n && is_named(meaning, condition, rows[i], parameters) && #[trigger] key_at(
            table_id,
            column,
            rows,
            i,
        ) == key
}

/// What stands in the place of a row that is changed.
spec fn row_left(
    meaning: Meaning,
    change: RowChange,
    row: RowView,
    parameters: Seq<ValueView>,
) -> Option<RowView> {
    match change {
        RowChange::Remove => None,
        RowChange::Assign(assignments) => Some(
            assigned(meaning, assignments, row, parameters, assignments.len() as int)->Ok_0,
        ),
    }
}

/// Rows that a scan lists: each is what a read of its key finds, and no two have the same.
spec fn listed(
    engine: EngineView,
    transaction: TransactionView,
    table_id: TableId,
    column: int,
    rows: Seq<RowView>,
) -> bool {
    &&& forall|i: int|
        0 <= i < rows.len() ==> column < (#[trigger] rows[i]).values.len() && engine.fetched(
            transaction,
            table_id,
            rows[i].values[column],
        ) == Ok::<Option<RowView>, EngineErrorKind>(Some(rows[i]))
    &&& forall|i: int, j: int|
        0 <= i < j < rows.len() ==> key_at(table_id, column, rows, i) != key_at(
            table_id,
            column,
            rows,
            j,
        )
}

proof fn changing_rows(
    engine: EngineView,
    before: TransactionView,
    meaning: Meaning,
    change: RowChange,
    condition: Option<BoundExprView>,
    table_id: TableId,
    column: int,
    rows: Seq<RowView>,
    parameters: Seq<ValueView>,
    n: int,
)
    requires
        0 <= n <= rows.len(),
        0 <= column,
        listed(engine, before, table_id, column, rows),
        rows_changed(
            engine,
            before,
            meaning,
            change,
            condition,
            table_id,
            column,
            rows,
            parameters,
            n,
        ).1 is Ok,
    ensures
        ({
            let (after, result) = rows_changed(
                engine,
                before,
                meaning,
                change,
                condition,
                table_id,
                column,
                rows,
                parameters,
                n,
            );
            &&& after.read_ts == before.read_ts
            &&& after.catalog_mutations == before.catalog_mutations
            &&& named_among(meaning, condition, rows.take(n), parameters).finite()
            &&& result->Ok_0 == named_among(meaning, condition, rows.take(n), parameters).len()
            &&& forall|i: int|
                0 <= i < n && is_named(meaning, condition, #[trigger] rows[i], parameters)
                    ==> engine.read(after, key_at(table_id, column, rows, i)) == row_left(
                    meaning,
                    change,
                    rows[i],
                    parameters,
                ) && (change matches RowChange::Assign(assignments) ==> assigned(
                    meaning,
                    assignments,
                    rows[i],
                    parameters,
                    assignments.len() as int,
                ) is Ok)
            &&& forall|key: LogicalKeyView|
                !touched(meaning, condition, table_id, column, rows, parameters, n, key)
                    ==> #[trigger] engine.read(after, key) == engine.read(before, key)
        }),
    decreases n,
{
    let named = named_among(meaning, condition, rows.take(n), parameters);
    if n <= 0 {
        assert(named =~= Set::empty());
    } else {
        changing_rows(
            engine,
            before,
            meaning,
            change,
            condition,
            table_id,
            column,
            rows,
            parameters,
            n - 1,
        );
        let (middle, counted) = rows_changed(
            engine,
            before,
            meaning,
            change,
            condition,
            table_id,
            column,
            rows,
            parameters,
            n - 1,
        );
        let (after, result) = rows_changed(
            engine,
            before,
            meaning,
            change,
            condition,
            table_id,
            column,
            rows,
            parameters,
            n,
        );
        let fewer = named_among(meaning, condition, rows.take(n - 1), parameters);
        let row = rows[n - 1];
        let key = key_at(table_id, column, rows, n - 1);
        assert(row.values.len() > column);
        assert(plain_row(row) == table_row(row));
        assert forall|i: int| 0 <= i < n - 1 implies key_at(table_id, column, rows, i) != key by {}
        assert(!touched(meaning, condition, table_id, column, rows, parameters, n - 1, key));
        assert(engine.read(middle, key) == engine.read(before, key));
        assert(engine.fetched(before, table_id, row.values[column]) == Ok::<
            Option<RowView>,
            EngineErrorKind,
        >(Some(row)));
        assert(engine.fetched(middle, table_id, row.values[column]) == Ok::<
            Option<RowView>,
            EngineErrorKind,
        >(Some(row)));
        assert forall|i: int| 0 <= i < n - 1 implies rows.take(n - 1)[i] == rows.take(n)[i] by {}
        if is_named(meaning, condition, row, parameters) {
            assert(named =~= fewer.insert(n - 1));
            assert(!fewer.contains(n - 1));
            assert(engine.read(after, key) == row_left(meaning, change, row, parameters));
            assert forall|other: LogicalKeyView|
                !touched(
                    meaning,
                    condition,
                    table_id,
                    column,
                    rows,
                    parameters,
                    n,
                    other,
                ) implies #[trigger] engine.read(after, other) == engine.read(before, other) by {
                assert(key_at(table_id, column, rows, n - 1) == key);
                assert(other != key);
                if touched(
                    meaning,
                    condition,
                    table_id,
                    column,
                    rows,
                    parameters,
                    n - 1,
                    other,
                ) {
                    let i = choose|i: int|
                        0 <= i < n - 1 && is_named(meaning, condition, rows[i], parameters)
                            && #[trigger] key_at(table_id, column, rows, i) == other;
                    assert(key_at(table_id, column, rows, i) == other);
                }
                assert(engine.read(middle, other) == engine.read(before, other));
            }
            assert forall|i: int|
                0 <= i < n && is_named(
                    meaning,
                    condition,
                    #[trigger] rows[i],
                    parameters,
                ) implies engine.read(after, key_at(table_id, column, rows, i)) == row_left(
                meaning,
                change,
                rows[i],
                parameters,
            ) by {
                if i < n - 1 {
                    assert(key_at(table_id, column, rows, i) != key);
                    assert(engine.read(middle, key_at(table_id, column, rows, i)) == row_left(
                        meaning,
                        change,
                        rows[i],
                        parameters,
                    ));
                }
            }
        } else {
            assert(named =~= fewer);
            assert(after == middle);
            assert forall|other: LogicalKeyView|
                !touched(
                    meaning,
                    condition,
                    table_id,
                    column,
                    rows,
                    parameters,
                    n,
                    other,
                ) implies #[trigger] engine.read(after, other) == engine.read(before, other) by {
                if touched(
                    meaning,
                    condition,
                    table_id,
                    column,
                    rows,
                    parameters,
                    n - 1,
                    other,
                ) {
                    let i = choose|i: int|
                        0 <= i < n - 1 && is_named(meaning, condition, rows[i], parameters)
                            && #[trigger] key_at(table_id, column, rows, i) == other;
                    assert(key_at(table_id, column, rows, i) == other);
                }
            }
        }
    }
}

proof fn assigning_columns(
    meaning: Meaning,
    assignments: Seq<AssignmentView>,
    row: RowView,
    parameters: Seq<ValueView>,
    n: int,
)
    requires
        0 <= n <= assignments.len(),
        assigned(meaning, assignments, row, parameters, n) is Ok,
    ensures
        has_assigned(
            meaning,
            assignments.take(n),
            row,
            parameters,
            assigned(meaning, assignments, row, parameters, n)->Ok_0,
        ),
    decreases n,
{
    if n > 0 {
        assigning_columns(meaning, assignments, row, parameters, n - 1);
        let fewer = assignments.take(n - 1);
        let now = assignments.take(n);
        let before = assigned(meaning, assignments, row, parameters, n - 1)->Ok_0;
        let after = assigned(meaning, assignments, row, parameters, n)->Ok_0;
        let last = assignments[n - 1];
        assert(now[n - 1] == last);
        assert(plain_row(row) == table_row(row));
        assert forall|a: int|
            0 <= a < n && (forall|b: int|
                a < b < n ==> (#[trigger] now[b]).column != now[a].column) implies (
        #[trigger] now[a]).column < after.values.len() && evaluated(
            meaning,
            now[a].value,
            table_row(row),
            parameters,
        ) == Ok::<ValueView, DatabaseErrorKind>(after.values[now[a].column as int]) by {
            if a < n - 1 {
                assert(now[n - 1].column != now[a].column);
                assert(fewer[a] == now[a]);
                assert forall|b: int| a < b < n - 1 implies (#[trigger] fewer[b]).column
                    != fewer[a].column by {
                    assert(now[b] == fewer[b]);
                }
            }
        }
        assert forall|c: int|
            0 <= c < after.values.len() && (forall|a: int|
                0 <= a < n ==> (#[trigger] now[a]).column != c) implies #[trigger] after.values[c]
            == row.values[c] by {
            assert(now[n - 1].column != c);
            assert forall|a: int| 0 <= a < n - 1 implies (#[trigger] fewer[a]).column != c by {
                assert(now[a] == fewer[a]);
            }
            assert(before.values[c] == row.values[c]);
        }
    }
}

/// A scan lists what a statement goes through.
proof fn statement_rows(engine: EngineView, transaction: TransactionView, table: TableDefView)
    requires
        is_bound(engine, transaction, table),
        engine.scanned(transaction, table.id) is Ok,
    ensures
        ({
            let column = engine.table_for(transaction, table.id)->0.primary_key_column as int;
            let rows = engine.scanned(transaction, table.id)->Ok_0;
            &&& listed(engine, transaction, table.id, column, rows)
            &&& forall|key: ValueView| #[trigger]
                engine.fetched(transaction, table.id, key) matches Ok(Some(row)) ==> exists|
                    i: int,
                |
                    0 <= i < rows.len() && rows[i] == row && #[trigger] key_at(
                        table.id,
                        column,
                        rows,
                        i,
                    ) == (LogicalKeyView {
                        table_id: table.id,
                        primary_key: ordered_value(key),
                    })
        }),
{
    let column = engine.table_for(transaction, table.id)->0.primary_key_column as int;
    let rows = engine.scanned(transaction, table.id)->Ok_0;
    scan_lists_what_reads_find(engine, transaction, table.id);
    assert forall|i: int, j: int| 0 <= i < j < rows.len() implies key_at(
        table.id,
        column,
        rows,
        i,
    ) != key_at(table.id, column, rows, j) by {
        crate::order::lex_irreflexive(ordered_value(rows[i].values[column]));
        assert(crate::order::lex_lt(
            ordered_value(rows[i].values[column]),
            ordered_value(rows[j].values[column]),
        ));
    }
    assert forall|key: ValueView| #[trigger]
        engine.fetched(transaction, table.id, key) matches Ok(Some(row)) implies exists|i: int|
        0 <= i < rows.len() && rows[i] == engine.fetched(transaction, table.id, key)->Ok_0->0
            && #[trigger] key_at(table.id, column, rows, i) == (LogicalKeyView {
            table_id: table.id,
            primary_key: ordered_value(key),
        }) by {
        let row = engine.fetched(transaction, table.id, key)->Ok_0->0;
        let name = LogicalKeyView { table_id: table.id, primary_key: ordered_value(key) };
        assert(rows.contains(row));
        let i = rows.index_of(row);
        engine.read_rows_are_keyed(transaction, table.id, name);
        assert(key_at(table.id, column, rows, i) == name);
    }
}

/// What reads find after the rows of a table have been changed.
proof fn reads_after_changes(
    engine: EngineView,
    before: TransactionView,
    meaning: Meaning,
    change: RowChange,
    condition: Option<BoundExprView>,
    table: TableDefView,
    parameters: Seq<ValueView>,
    after: TransactionView,
    output: StatementOutputView,
)
    requires
        is_bound(engine, before, table),
        table_changed(engine, before, meaning, change, condition, table, parameters) == (
            after,
            Ok::<StatementOutputView, DatabaseErrorKind>(output),
        ),
    ensures
        engine.scanned(before, table.id) is Ok,
        ({
            let rows = engine.scanned(before, table.id)->Ok_0;
            &&& named_among(meaning, condition, rows, parameters).finite()
            &&& output == (StatementOutputView::Mutation {
                affected_rows: named_among(meaning, condition, rows, parameters).len() as usize,
            })
        }),
        forall|key: ValueView|
            match #[trigger] engine.fetched(before, table.id, key) {
                Ok(Some(row)) => if is_named(meaning, condition, row, parameters) {
                    &&& engine.fetched(after, table.id, key) == Ok::<
                        Option<RowView>,
                        EngineErrorKind,
                    >(row_left(meaning, change, row, parameters))
                    &&& change matches RowChange::Assign(assignments) ==> assigned(
                        meaning,
                        assignments,
                        row,
                        parameters,
                        assignments.len() as int,
                    ) is Ok
                } else {
                    engine.fetched(after, table.id, key) == engine.fetched(
                        before,
                        table.id,
                        key,
                    )
                },
                _ => engine.fetched(after, table.id, key) == engine.fetched(
                    before,
                    table.id,
                    key,
                ),
            },
        other_tables_stay(engine, before, after, table.id),
{
    let rows = engine.scanned(before, table.id)->Ok_0;
    let column = engine.table_for(before, table.id)->0.primary_key_column as int;
    let n = rows.len() as int;
    bound_key(engine, before, table);
    statement_rows(engine, before, table);
    changing_rows(
        engine,
        before,
        meaning,
        change,
        condition,
        table.id,
        column,
        rows,
        parameters,
        n,
    );
    assert(rows.take(n) =~= rows);
    assert forall|key: ValueView|
        match #[trigger] engine.fetched(before, table.id, key) {
            Ok(Some(row)) => if is_named(meaning, condition, row, parameters) {
                &&& engine.fetched(after, table.id, key) == Ok::<Option<RowView>, EngineErrorKind>(
                    row_left(meaning, change, row, parameters),
                )
                &&& change matches RowChange::Assign(assignments) ==> assigned(
                    meaning,
                    assignments,
                    row,
                    parameters,
                    assignments.len() as int,
                ) is Ok
            } else {
                engine.fetched(after, table.id, key) == engine.fetched(before, table.id, key)
            },
            _ => engine.fetched(after, table.id, key) == engine.fetched(before, table.id, key),
        } by {
        let name = LogicalKeyView { table_id: table.id, primary_key: ordered_value(key) };
        let found = engine.fetched(before, table.id, key);
        if touched(meaning, condition, table.id, column, rows, parameters, n, name) {
            let i = choose|i: int|
                0 <= i < n && is_named(meaning, condition, rows[i], parameters)
                    && #[trigger] key_at(table.id, column, rows, i) == name;
            assert(engine.read(after, name) == row_left(meaning, change, rows[i], parameters));
            assert(engine.fetched(before, table.id, rows[i].values[column]) == Ok::<
                Option<RowView>,
                EngineErrorKind,
            >(Some(rows[i])));
            assert(engine.read(before, name) == Some(rows[i]));
        } else {
            assert(engine.read(after, name) == engine.read(before, name));
            if let Ok(Some(row)) = found {
                let i = choose|i: int|
                    0 <= i < rows.len() && rows[i] == row && #[trigger] key_at(
                        table.id,
                        column,
                        rows,
                        i,
                    ) == name;
                assert(key_at(table.id, column, rows, i) == name);
            }
        }
    }
    assert forall|other: TableId, key: ValueView| other != table.id implies #[trigger] engine.fetched(
        after,
        other,
        key,
    ) == engine.fetched(before, other, key) by {
        let name = LogicalKeyView { table_id: other, primary_key: ordered_value(key) };
        assert(!touched(meaning, condition, table.id, column, rows, parameters, n, name));
        assert(engine.read(after, name) == engine.read(before, name));
    }
}

/// A `DELETE` takes out the rows on which its condition holds, whose number it answers, and
/// leaves every other row of every table as it was.
pub proof fn deletes_remove_the_named_rows(
    engine: EngineView,
    before: TransactionView,
    meaning: Meaning,
    statement: BoundStatementView,
    plan: Option<PhysicalPlanView>,
    parameters: Seq<ValueView>,
    after: TransactionView,
    output: StatementOutputView,
)
    requires
        statement matches BoundStatementView::Delete { table, .. } && is_bound(
            engine,
            before,
            table,
        ),
        statement_executed(engine, before, meaning, statement, plan, parameters) == (
            after,
            Ok::<StatementOutputView, DatabaseErrorKind>(output),
        ),
    ensures
        statement matches BoundStatementView::Delete { table, selection } && {
            &&& engine.scanned(before, table.id) matches Ok(rows) && named_among(
                meaning,
                selection,
                rows,
                parameters,
            ).finite() && output == (StatementOutputView::Mutation {
                affected_rows: named_among(meaning, selection, rows, parameters).len() as usize,
            })
            &&& forall|key: ValueView| #[trigger]
                engine.fetched(before, table.id, key) matches Ok(Some(row)) ==> engine.fetched(
                    after,
                    table.id,
                    key,
                ) == Ok::<Option<RowView>, EngineErrorKind>(
                    if is_named(meaning, selection, row, parameters) {
                        None
                    } else {
                        Some(row)
                    },
                )
            &&& forall|key: ValueView|
                !(#[trigger] engine.fetched(before, table.id, key) matches Ok(Some(_)))
                    ==> engine.fetched(after, table.id, key) == engine.fetched(
                    before,
                    table.id,
                    key,
                )
            &&& other_tables_stay(engine, before, after, table.id)
        },
{
    if let BoundStatementView::Delete { table, selection } = statement {
        reads_after_changes(
            engine,
            before,
            meaning,
            RowChange::Remove,
            selection,
            table,
            parameters,
            after,
            output,
        );
    }
}

/// An `UPDATE` gives the rows on which its condition holds, whose number it answers, the
/// assigned values, which are computed on the row as it was. Every other column and every
/// other row of every table stays as it was.
pub proof fn updates_change_the_named_rows(
    engine: EngineView,
    before: TransactionView,
    meaning: Meaning,
    statement: BoundStatementView,
    plan: Option<PhysicalPlanView>,
    parameters: Seq<ValueView>,
    after: TransactionView,
    output: StatementOutputView,
)
    requires
        statement matches BoundStatementView::Update { table, .. } && is_bound(
            engine,
            before,
            table,
        ),
        statement_executed(engine, before, meaning, statement, plan, parameters) == (
            after,
            Ok::<StatementOutputView, DatabaseErrorKind>(output),
        ),
    ensures
        statement matches BoundStatementView::Update { table, assignments, selection } && {
            &&& engine.scanned(before, table.id) matches Ok(rows) && named_among(
                meaning,
                selection,
                rows,
                parameters,
            ).finite() && output == (StatementOutputView::Mutation {
                affected_rows: named_among(meaning, selection, rows, parameters).len() as usize,
            })
            &&& forall|key: ValueView| #[trigger]
                engine.fetched(before, table.id, key) matches Ok(Some(row)) ==> (engine.fetched(
                    after,
                    table.id,
                    key,
                ) matches Ok(Some(changed)) && if is_named(meaning, selection, row, parameters) {
                    has_assigned(meaning, assignments, row, parameters, changed)
                } else {
                    changed == row
                })
            &&& forall|key: ValueView|
                !(#[trigger] engine.fetched(before, table.id, key) matches Ok(Some(_)))
                    ==> engine.fetched(after, table.id, key) == engine.fetched(
                    before,
                    table.id,
                    key,
                )
            &&& other_tables_stay(engine, before, after, table.id)
        },
{
    if let BoundStatementView::Update { table, assignments, selection } = statement {
        reads_after_changes(
            engine,
            before,
            meaning,
            RowChange::Assign(assignments),
            selection,
            table,
            parameters,
            after,
            output,
        );
        assert forall|key: ValueView| #[trigger]
            engine.fetched(before, table.id, key) matches Ok(Some(row)) implies (engine.fetched(
            after,
            table.id,
            key,
        ) matches Ok(Some(changed)) && if is_named(
            meaning,
            selection,
            engine.fetched(before, table.id, key)->Ok_0->0,
            parameters,
        ) {
            has_assigned(
                meaning,
                assignments,
                engine.fetched(before, table.id, key)->Ok_0->0,
                parameters,
                changed,
            )
        } else {
            changed == engine.fetched(before, table.id, key)->Ok_0->0
        }) by {
            let row = engine.fetched(before, table.id, key)->Ok_0->0;
            if is_named(meaning, selection, row, parameters) {
                assigning_columns(
                    meaning,
                    assignments,
                    row,
                    parameters,
                    assignments.len() as int,
                );
                assert(assignments.take(assignments.len() as int) =~= assignments);
            }
        }
    }
}

proof fn deleting_succeeds(
    engine: EngineView,
    before: TransactionView,
    meaning: Meaning,
    condition: Option<BoundExprView>,
    table_id: TableId,
    column: int,
    rows: Seq<RowView>,
    parameters: Seq<ValueView>,
    n: int,
)
    requires
        0 <= n <= rows.len(),
        0 <= column,
        listed(engine, before, table_id, column, rows),
        condition matches Some(predicate) ==> forall|i: int|
            0 <= i < rows.len() ==> predicate_holds(
                meaning,
                predicate,
                table_row(#[trigger] rows[i]),
                parameters,
            ) is Ok,
    ensures
        rows_changed(
            engine,
            before,
            meaning,
            RowChange::Remove,
            condition,
            table_id,
            column,
            rows,
            parameters,
            n,
        ).1 is Ok,
    decreases n,
{
    if n > 0 {
        deleting_succeeds(
            engine,
            before,
            meaning,
            condition,
            table_id,
            column,
            rows,
            parameters,
            n - 1,
        );
        changing_rows(
            engine,
            before,
            meaning,
            RowChange::Remove,
            condition,
            table_id,
            column,
            rows,
            parameters,
            n - 1,
        );
        let middle = rows_changed(
            engine,
            before,
            meaning,
            RowChange::Remove,
            condition,
            table_id,
            column,
            rows,
            parameters,
            n - 1,
        ).0;
        let row = rows[n - 1];
        assert(row.values.len() > column);
        assert(plain_row(row) == table_row(row));
        assert(engine.fetched(before, table_id, row.values[column]) is Ok);
        assert(engine.fetched(middle, table_id, row.values[column]) is Ok);
    }
}

/// A `DELETE` succeeds where the table can be read and the condition can be tested on each
/// of its rows.
pub proof fn deletes_succeed(
    engine: EngineView,
    before: TransactionView,
    meaning: Meaning,
    statement: BoundStatementView,
    plan: Option<PhysicalPlanView>,
    parameters: Seq<ValueView>,
)
    requires
        statement matches BoundStatementView::Delete { table, selection } && is_bound(
            engine,
            before,
            table,
        ) && (engine.scanned(before, table.id) matches Ok(rows) && (selection matches Some(
            condition,
        ) ==> forall|i: int|
            0 <= i < rows.len() ==> predicate_holds(
                meaning,
                condition,
                table_row(#[trigger] rows[i]),
                parameters,
            ) is Ok)),
    ensures
        statement_executed(engine, before, meaning, statement, plan, parameters).1 is Ok,
{
    if let BoundStatementView::Delete { table, selection } = statement {
        let rows = engine.scanned(before, table.id)->Ok_0;
        let column = engine.table_for(before, table.id)->0.primary_key_column as int;
        bound_key(engine, before, table);
        statement_rows(engine, before, table);
        deleting_succeeds(
            engine,
            before,
            meaning,
            selection,
            table.id,
            column,
            rows,
            parameters,
            rows.len() as int,
        );
    }
}

proof fn inserted_values(
    meaning: Meaning,
    expressions: Seq<BoundExprView>,
    row: ExecRowView,
    parameters: Seq<ValueView>,
    n: int,
)
    requires
        0 <= n <= expressions.len(),
        all_evaluated(meaning, expressions, row, parameters, n) is Ok,
    ensures
        ({
            let values = all_evaluated(meaning, expressions, row, parameters, n)->Ok_0;
            &&& values.len() == n
            &&& forall|k: int|
                0 <= k < n ==> evaluated(meaning, expressions[k], row, parameters) == Ok::<
                    ValueView,
                    DatabaseErrorKind,
                >(#[trigger] values[k])
        }),
    decreases n,
{
    if n > 0 {
        inserted_values(meaning, expressions, row, parameters, n - 1);
        let before = all_evaluated(meaning, expressions, row, parameters, n - 1)->Ok_0;
        let values = all_evaluated(meaning, expressions, row, parameters, n)->Ok_0;
        assert forall|k: int| 0 <= k < n implies evaluated(
            meaning,
            expressions[k],
            row,
            parameters,
        ) == Ok::<ValueView, DatabaseErrorKind>(#[trigger] values[k]) by {
            if k < n - 1 {
                assert(values[k] == before[k]);
            }
        }
    }
}

/// An `INSERT` adds the row of its values under a primary key that had no row, and leaves
/// every other row of every table as it was.
pub proof fn inserts_add_one_row(
    engine: EngineView,
    before: TransactionView,
    meaning: Meaning,
    statement: BoundStatementView,
    plan: Option<PhysicalPlanView>,
    parameters: Seq<ValueView>,
    after: TransactionView,
    output: StatementOutputView,
)
    requires
        statement matches BoundStatementView::Insert { table, .. } && is_bound(
            engine,
            before,
            table,
        ),
        statement_executed(engine, before, meaning, statement, plan, parameters) == (
            after,
            Ok::<StatementOutputView, DatabaseErrorKind>(output),
        ),
    ensures
        output == (StatementOutputView::Mutation { affected_rows: 1 }),
        statement matches BoundStatementView::Insert { table, values } && exists|
            row: RowView,
            key: ValueView,
        |
            {
                &&& #[trigger] engine.fetched(before, table.id, key) == Ok::<
                    Option<RowView>,
                    EngineErrorKind,
                >(None)
                &&& engine.fetched(after, table.id, key) == Ok::<Option<RowView>, EngineErrorKind>(
                    Some(row),
                )
                &&& #[trigger] row.values.len() == values.len() == table.schema.columns.len()
                &&& forall|k: int|
                    0 <= k < values.len() ==> evaluated(
                        meaning,
                        values[k],
                        table_row(RowView { values: Seq::empty() }),
                        parameters,
                    ) == Ok::<ValueView, DatabaseErrorKind>(#[trigger] row.values[k])
                &&& forall|k: int|
                    0 <= k < values.len() && (#[trigger] table.schema.columns[k]).primary_key
                        ==> row.values[k] == key
                &&& forall|other: ValueView|
                    other != key ==> #[trigger] engine.fetched(after, table.id, other)
                        == engine.fetched(before, table.id, other)
                &&& other_tables_stay(engine, before, after, table.id)
            },
{
    if let BoundStatementView::Insert { table, values } = statement {
        let given = all_evaluated(
            meaning,
            values,
            empty_row(),
            parameters,
            values.len() as int,
        )->Ok_0;
        let row = RowView { values: given };
        let meta = engine.table_for(before, table.id)->0;
        let column = meta.primary_key_column as int;
        inserted_values(meaning, values, empty_row(), parameters, values.len() as int);
        assert(empty_row() == table_row(RowView { values: Seq::empty() }));
        bound_key(engine, before, table);
        valid_table_key(meta);
        let key = row.values[column];
        let name = LogicalKeyView { table_id: table.id, primary_key: ordered_value(key) };
        assert(engine.fetched(before, table.id, key) == Ok::<Option<RowView>, EngineErrorKind>(
            None,
        ));
        assert(engine.read(after, name) == Some(row));
        assert forall|other: ValueView| other != key implies #[trigger] engine.fetched(
            after,
            table.id,
            other,
        ) == engine.fetched(before, table.id, other) by {
            ordered_encoding_is_injective(other, key);
            let there = LogicalKeyView { table_id: table.id, primary_key: ordered_value(other) };
            assert(engine.read(after, there) == engine.read(before, there));
        }
        assert forall|k: int|
            0 <= k < values.len() && (
            #[trigger] table.schema.columns[k]).primary_key implies row.values[k] == key by {}
        assert forall|other: TableId, at: ValueView| other
            != table.id implies #[trigger] engine.fetched(after, other, at) == engine.fetched(
            before,
            other,
            at,
        ) by {
            let there = LogicalKeyView { table_id: other, primary_key: ordered_value(at) };
            assert(engine.read(after, there) == engine.read(before, there));
        }
        assert(row.values.len() == values.len());
    }
}

} // verus!
