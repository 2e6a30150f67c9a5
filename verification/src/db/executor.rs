//! The execution of bound statements and of their plans.

use vstd::prelude::*;
use crate::db::error::{DatabaseError, DatabaseErrorKind, Result};
use crate::db::join::{bounded, ensure_intermediate_bound, join_keys, joined_rows};
use crate::db::rows::{
    all_evaluated, bare_rows, empty_row, filtered, grouped, plain_exec_rows, plain_row, plain_rows,
    projected, sorted,
};
use crate::db::scalar::{
    ExecRow, ExecRowView, Meaning, Scalars, evaluated, invariant_error, predicate_holds, sql_error,
};
use crate::db::sql::{
    Assignment, AssignmentView, BinaryOp, BoundExpr, BoundExprView, BoundStatement,
    BoundStatementView, OutputColumn, OutputColumnView, PhysicalPlan, PhysicalPlanView, Span,
    SqlError, SqlErrorKind, SqlErrorView, TableDef, TableDefView,
};
use crate::engine::error::{EngineError, EngineErrorKind};
use crate::engine::state::{Engine, EngineView};
use crate::engine::transaction::{Transaction, TransactionView};
use crate::model::{Model, outcome};
use crate::text::decimal_text;
use crate::types::{ColumnView, Row, RowView, TableId, Value, ValueView, message};

verus! {

broadcast use crate::model::group_contents;

/// The most rows that a statement may return. A larger result fails; it is
/// never cut.
pub const MAX_RESULT_ROWS: usize = 16_384;

/// What a statement produced.
#[derive(Debug, Clone, PartialEq, Eq)]
pub enum StatementOutput {
    Query { columns: Vec<String>, rows: Vec<Row> },
    Mutation { affected_rows: usize },
    Explain(String),
}

/// The content of a [`StatementOutput`].
#[verifier::ext_equal]
pub enum StatementOutputView {
    Query { columns: Seq<Seq<char>>, rows: Seq<RowView> },
    Mutation { affected_rows: usize },
    Explain(Seq<char>),
}

impl DeepView for StatementOutput {
    type V = StatementOutputView;

    open spec fn deep_view(&self) -> StatementOutputView {
        match self {
            StatementOutput::Query { columns, rows } => StatementOutputView::Query {
                columns: columns.deep_view(),
                rows: rows.deep_view(),
            },
            StatementOutput::Mutation { affected_rows } => StatementOutputView::Mutation {
                affected_rows: affected_rows.deep_view(),
            },
            StatementOutput::Explain(a) => StatementOutputView::Explain(a.deep_view()),
        }
    }
}

impl Model for StatementOutput {
    fn duplicate(&self) -> (copy: Self) {
        match self {
            StatementOutput::Query { columns, rows } => StatementOutput::Query {
                columns: columns.duplicate(),
                rows: rows.duplicate(),
            },
            StatementOutput::Mutation { affected_rows } => StatementOutput::Mutation {
                affected_rows: affected_rows.duplicate(),
            },
            StatementOutput::Explain(a) => StatementOutput::Explain(a.duplicate()),
        }
    }

    fn same(&self, other: &Self) -> (equal: bool) {
        match (self, other) {
            (
                StatementOutput::Query { columns, rows },
                StatementOutput::Query { columns: other_columns, rows: other_rows },
            ) => columns.same(other_columns)
                && rows.same(other_rows),
            (
                StatementOutput::Mutation { affected_rows },
                StatementOutput::Mutation { affected_rows: other_affected_rows },
            ) => affected_rows.same(other_affected_rows),
            (StatementOutput::Explain(a), StatementOutput::Explain(other_a)) => a.same(other_a),
            _ => false,
        }
    }
}
/// A result of the engine as one of the database.
pub open spec fn engine_outcome<T>(result: std::result::Result<T, EngineErrorKind>) -> std::result::Result<
    T,
    DatabaseErrorKind,
> {
    match result {
        Ok(value) => Ok(value),
        Err(error) => Err(DatabaseErrorKind::Engine(error)),
    }
}

/// The first column that is a primary key, among the columns from `n` on.
pub open spec fn primary_key_from(columns: Seq<ColumnView>, n: int) -> Option<int>
    decreases columns.len() - n,
{
    if n < 0 || n >= columns.len() {
        None
    } else if columns[n].primary_key {
        Some(n)
    } else {
        primary_key_from(columns, n + 1)
    }
}

/// The column of a table that is its primary key.
pub fn primary_key_column(table: &TableDef) -> (result: Result<usize>)
    ensures
        match result {
            Ok(column) => primary_key_from(table.deep_view().schema.columns, 0) == Some(
                column as int,
            ),
            Err(error) => primary_key_from(table.deep_view().schema.columns, 0) is None
                && error.deep_view() == DatabaseErrorKind::Invariant,
        },
{
    let ghost view = table.deep_view().schema.columns;
    let mut i: usize = 0;
    while i < table.schema.columns.len()
        invariant
            i <= table.schema.columns@.len(),
            view == table.deep_view().schema.columns,
            primary_key_from(view, 0) == primary_key_from(view, i as int),
        decreases table.schema.columns@.len() - i,
    {
        assert(view[i as int] == table.schema.columns@[i as int].deep_view());
        if table.schema.columns[i].primary_key {
            return Ok(i);
        }
        i = i + 1;
    }
    Err(DatabaseError::Invariant(message(&["table `", &table.name, "` has no primary key"])))
}

/// The rows that a limit leaves.
pub open spec fn limited(rows: Seq<ExecRowView>, limit: ValueView, span: Span) -> std::result::Result<
    Seq<ExecRowView>,
    DatabaseErrorKind,
> {
    match limit {
        ValueView::Int64(n) => if n < 0 {
            Err(DatabaseErrorKind::Sql(SqlErrorView { kind: SqlErrorKind::Constraint, span }))
        } else if n > usize::MAX {
            Err(DatabaseErrorKind::ResourceLimit)
        } else if n < rows.len() {
            Ok(rows.subrange(0, n as int))
        } else {
            Ok(rows)
        },
        _ => Err(DatabaseErrorKind::Sql(SqlErrorView { kind: SqlErrorKind::Constraint, span })),
    }
}

fn limit_rows(rows: Vec<ExecRow>, limit: &Value, span: Span) -> (result: Result<Vec<ExecRow>>)
    ensures
        outcome(result) == limited(rows.deep_view(), limit.deep_view(), span),
{
    match limit {
        Value::Int64(n) if *n >= 0 => {
            if *n as u64 > usize::MAX as u64 {
                return Err(
                    DatabaseError::ResourceLimit("LIMIT does not fit this platform".to_owned()),
                );
            }
            let limit: usize = *n as usize;
            let mut rows = rows;
            let ghost all = rows.deep_view();
            rows.truncate(limit);
            assert(limit < all.len() ==> rows.deep_view() =~= all.subrange(0, limit as int));
            assert(limit >= all.len() ==> rows.deep_view() =~= all);
            Ok(rows)
        },
        _ => Err(
            sql_error(
                SqlErrorKind::Constraint,
                "LIMIT must evaluate to a non-negative INT64",
                span,
            ),
        ),
    }
}

/// The rows of an index scan. Only equality with a value that is not `NULL` is
/// looked up in the index; everything else reads the table.
pub open spec fn index_scanned(
    engine: EngineView,
    transaction: TransactionView,
    table_id: TableId,
    index_id: u64,
    operator: BinaryOp,
    value: ValueView,
) -> std::result::Result<Seq<ExecRowView>, DatabaseErrorKind> {
    let rows = if operator == BinaryOp::Eq && value !is Null {
        engine.looked_up(transaction, index_id, value)
    } else {
        engine.scanned(transaction, table_id)
    };
    match rows {
        Err(error) => Err(DatabaseErrorKind::Engine(error)),
        Ok(rows) => Ok(plain_rows(rows)),
    }
}

/// The rows that a plan produces.
pub open spec fn plan_rows(
    engine: EngineView,
    transaction: TransactionView,
    meaning: Meaning,
    plan: PhysicalPlanView,
    parameters: Seq<ValueView>,
) -> std::result::Result<Seq<ExecRowView>, DatabaseErrorKind>
    decreases plan,
{
    bounded(
        match plan {
            PhysicalPlanView::SeqScan { table } => match engine.scanned(transaction, table.id) {
                Err(error) => Err(DatabaseErrorKind::Engine(error)),
                Ok(rows) => Ok(plain_rows(rows)),
            },
            PhysicalPlanView::IndexScan { table, index, constraint } => match evaluated(
                meaning,
                constraint.value,
                empty_row(),
                parameters,
            ) {
                Err(error) => Err(error),
                Ok(value) => index_scanned(
                    engine,
                    transaction,
                    table.id,
                    index.id,
                    constraint.operator,
                    value,
                ),
            },
            PhysicalPlanView::Filter { input, predicate } => match plan_rows(
                engine,
                transaction,
                meaning,
                *input,
                parameters,
            ) {
                Err(error) => Err(error),
                Ok(rows) => filtered(meaning, predicate, rows, parameters, rows.len() as int),
            },
            PhysicalPlanView::Join { left, right, on, algorithm } => match plan_rows(
                engine,
                transaction,
                meaning,
                *left,
                parameters,
            ) {
                Err(error) => Err(error),
                Ok(left_rows) => match plan_rows(
                    engine,
                    transaction,
                    meaning,
                    *right,
                    parameters,
                ) {
                    Err(error) => Err(error),
                    Ok(right_rows) => joined_rows(
                        meaning,
                        left_rows,
                        right_rows,
                        join_keys(on, *right),
                        on,
                        algorithm,
                        parameters,
                    ),
                },
            },
            PhysicalPlanView::HashAggregate { input, group_by, aggregates } => match plan_rows(
                engine,
                transaction,
                meaning,
                *input,
                parameters,
            ) {
                Err(error) => Err(error),
                Ok(rows) => grouped(meaning, group_by, aggregates, rows, parameters),
            },
            PhysicalPlanView::Sort { input, order_by } => match plan_rows(
                engine,
                transaction,
                meaning,
                *input,
                parameters,
            ) {
                Err(error) => Err(error),
                Ok(rows) => sorted(meaning, order_by, rows, parameters),
            },
            PhysicalPlanView::Limit { input, limit } => match plan_rows(
                engine,
                transaction,
                meaning,
                *input,
                parameters,
            ) {
                Err(error) => Err(error),
                Ok(rows) => match evaluated(meaning, limit, empty_row(), parameters) {
                    Err(error) => Err(error),
                    Ok(value) => limited(rows, value, limit.span()),
                },
            },
            PhysicalPlanView::Project { input, expressions } => match plan_rows(
                engine,
                transaction,
                meaning,
                *input,
                parameters,
            ) {
                Err(error) => Err(error),
                Ok(rows) => projected(
                    meaning,
                    expressions,
                    rows,
                    parameters,
                    rows.len() as int,
                ),
            },
        },
    )
}

/// Whether a row is among those that a statement changes.
pub open spec fn chosen(
    meaning: Meaning,
    selection: Option<BoundExprView>,
    row: RowView,
    parameters: Seq<ValueView>,
) -> std::result::Result<bool, DatabaseErrorKind> {
    match selection {
        None => Ok(true),
        Some(predicate) => predicate_holds(meaning, predicate, plain_row(row), parameters),
    }
}

/// A row after the first `n` assignments, whose values come from the row before.
pub open spec fn assigned(
    meaning: Meaning,
    assignments: Seq<AssignmentView>,
    row: RowView,
    parameters: Seq<ValueView>,
    n: int,
) -> std::result::Result<RowView, DatabaseErrorKind>
    decreases n,
{
    if n <= 0 {
        Ok(row)
    } else {
        match assigned(meaning, assignments, row, parameters, n - 1) {
            Err(error) => Err(error),
            Ok(changed) => match evaluated(
                meaning,
                assignments[n - 1].value,
                plain_row(row),
                parameters,
            ) {
                Err(error) => Err(error),
                Ok(value) => if assignments[n - 1].column >= changed.values.len() {
                    Err(DatabaseErrorKind::Invariant)
                } else {
                    Ok(
                        RowView {
                            values: changed.values.update(
                                assignments[n - 1].column as int,
                                value,
                            ),
                        },
                    )
                },
            },
        }
    }
}

proof fn assigned_stops(
    meaning: Meaning,
    assignments: Seq<AssignmentView>,
    row: RowView,
    parameters: Seq<ValueView>,
    m: int,
    n: int,
)
    requires
        0 <= m <= n,
        assigned(meaning, assignments, row, parameters, m) is Err,
    ensures
        assigned(meaning, assignments, row, parameters, n) == assigned(
            meaning,
            assignments,
            row,
            parameters,
            m,
        ),
    decreases n,
{
    if m < n {
        assigned_stops(meaning, assignments, row, parameters, m, n - 1);
    }
}

/// What a statement does to the row at hand.
pub enum RowChange {
    Assign(Seq<AssignmentView>),
    Remove,
}

/// Whether the row at hand was changed, and the transaction after it.
pub open spec fn row_changed(
    engine: EngineView,
    transaction: TransactionView,
    meaning: Meaning,
    change: RowChange,
    selection: Option<BoundExprView>,
    table_id: TableId,
    primary_key: int,
    row: RowView,
    parameters: Seq<ValueView>,
) -> std::result::Result<(bool, TransactionView), DatabaseErrorKind> {
    match chosen(meaning, selection, row, parameters) {
        Err(error) => Err(error),
        Ok(false) => Ok((false, transaction)),
        Ok(true) => match change {
            RowChange::Assign(assignments) => match assigned(
                meaning,
                assignments,
                row,
                parameters,
                assignments.len() as int,
            ) {
                Err(error) => Err(error),
                Ok(changed) => if primary_key >= row.values.len() {
                    Err(DatabaseErrorKind::Invariant)
                } else {
                    engine_outcome(
                        engine.updated(transaction, table_id, row.values[primary_key], changed),
                    )
                },
            },
            RowChange::Remove => if primary_key >= row.values.len() {
                Err(DatabaseErrorKind::Invariant)
            } else {
                engine_outcome(engine.deleted(transaction, table_id, row.values[primary_key]))
            },
        },
    }
}

/// The transaction after the first `n` rows, and how many of them were changed.
/// Where a row fails, the changes before it stay in the transaction.
pub open spec fn rows_changed(
    engine: EngineView,
    transaction: TransactionView,
    meaning: Meaning,
    change: RowChange,
    selection: Option<BoundExprView>,
    table_id: TableId,
    primary_key: int,
    rows: Seq<RowView>,
    parameters: Seq<ValueView>,
    n: int,
) -> (TransactionView, std::result::Result<int, DatabaseErrorKind>)
    decreases n,
{
    if n <= 0 {
        (transaction, Ok(0))
    } else {
        let (before, result) = rows_changed(
            engine,
            transaction,
            meaning,
            change,
            selection,
            table_id,
            primary_key,
            rows,
            parameters,
            n - 1,
        );
        match result {
            Err(error) => (before, Err(error)),
            Ok(count) => match row_changed(
                engine,
                before,
                meaning,
                change,
                selection,
                table_id,
                primary_key,
                rows[n - 1],
                parameters,
            ) {
                Err(error) => (before, Err(error)),
                Ok((true, after)) => (after, Ok(count + 1)),
                Ok((false, after)) => (after, Ok(count)),
            },
        }
    }
}

proof fn rows_changed_stop(
    engine: EngineView,
    transaction: TransactionView,
    meaning: Meaning,
    change: RowChange,
    selection: Option<BoundExprView>,
    table_id: TableId,
    primary_key: int,
    rows: Seq<RowView>,
    parameters: Seq<ValueView>,
    m: int,
    n: int,
)
    requires
        0 <= m <= n,
        rows_changed(
            engine,
            transaction,
            meaning,
            change,
            selection,
            table_id,
            primary_key,
            rows,
            parameters,
            m,
        ).1 is Err,
    ensures
        rows_changed(
            engine,
            transaction,
            meaning,
            change,
            selection,
            table_id,
            primary_key,
            rows,
            parameters,
            n,
        ) == rows_changed(
            engine,
            transaction,
            meaning,
            change,
            selection,
            table_id,
            primary_key,
            rows,
            parameters,
            m,
        ),
    decreases n,
{
    if m < n {
        rows_changed_stop(
            engine,
            transaction,
            meaning,
            change,
            selection,
            table_id,
            primary_key,
            rows,
            parameters,
            m,
            n - 1,
        );
    }
}

/// The transaction after a statement that changes rows of a table, and what the
/// statement produced.
pub open spec fn table_changed(
    engine: EngineView,
    transaction: TransactionView,
    meaning: Meaning,
    change: RowChange,
    selection: Option<BoundExprView>,
    table: TableDefView,
    parameters: Seq<ValueView>,
) -> (TransactionView, std::result::Result<StatementOutputView, DatabaseErrorKind>) {
    match engine.scanned(transaction, table.id) {
        Err(error) => (transaction, Err(DatabaseErrorKind::Engine(error))),
        Ok(rows) => match primary_key_from(table.schema.columns, 0) {
            None => (transaction, Err(DatabaseErrorKind::Invariant)),
            Some(primary_key) => {
                let (after, result) = rows_changed(
                    engine,
                    transaction,
                    meaning,
                    change,
                    selection,
                    table.id,
                    primary_key,
                    rows,
                    parameters,
                    rows.len() as int,
                );
                match result {
                    Err(error) => (after, Err(error)),
                    Ok(count) => (
                        after,
                        Ok(StatementOutputView::Mutation { affected_rows: count as usize }),
                    ),
                }
            },
        },
    }
}

/// The names of result columns.
pub open spec fn column_names(columns: Seq<OutputColumnView>) -> Seq<Seq<char>> {
    Seq::new(columns.len(), |i: int| columns[i].name)
}

/// The transaction after a bound statement, and what the statement produced.
pub open spec fn statement_executed(
    engine: EngineView,
    transaction: TransactionView,
    meaning: Meaning,
    statement: BoundStatementView,
    plan: Option<PhysicalPlanView>,
    parameters: Seq<ValueView>,
) -> (TransactionView, std::result::Result<StatementOutputView, DatabaseErrorKind>) {
    match statement {
        BoundStatementView::CreateTable { name, schema } => match engine.table_created(
            transaction,
            name,
            schema,
        ) {
            Err(error) => (transaction, Err(DatabaseErrorKind::Engine(error))),
            Ok((_, after)) => (after, Ok(StatementOutputView::Mutation { affected_rows: 0 })),
        },
        BoundStatementView::CreateIndex { name, table, column_index } => {
            match engine.index_created(transaction, name, table.id, column_index) {
                Err(error) => (transaction, Err(DatabaseErrorKind::Engine(error))),
                Ok((_, after)) => (after, Ok(StatementOutputView::Mutation { affected_rows: 0 })),
            }
        },
        BoundStatementView::Insert { table, values } => match all_evaluated(
            meaning,
            values,
            empty_row(),
            parameters,
            values.len() as int,
        ) {
            Err(error) => (transaction, Err(error)),
            Ok(values) => match engine.inserted(transaction, table.id, RowView { values }) {
                Err(error) => (transaction, Err(DatabaseErrorKind::Engine(error))),
                Ok(after) => (after, Ok(StatementOutputView::Mutation { affected_rows: 1 })),
            },
        },
        BoundStatementView::Update { table, assignments, selection } => table_changed(
            engine,
            transaction,
            meaning,
            RowChange::Assign(assignments),
            selection,
            table,
            parameters,
        ),
        BoundStatementView::Delete { table, selection } => table_changed(
            engine,
            transaction,
            meaning,
            RowChange::Remove,
            selection,
            table,
            parameters,
        ),
        BoundStatementView::Query { output } => (
            transaction,
            match plan {
                None => Err(DatabaseErrorKind::Invariant),
                Some(plan) => match plan_rows(engine, transaction, meaning, plan, parameters) {
                    Err(error) => Err(error),
                    Ok(rows) => if rows.len() > MAX_RESULT_ROWS {
                        Err(DatabaseErrorKind::ResourceLimit)
                    } else {
                        Ok(
                            StatementOutputView::Query {
                                columns: column_names(output),
                                rows: bare_rows(rows),
                            },
                        )
                    },
                },
            },
        ),
        BoundStatementView::Explain(_) => (transaction, Err(DatabaseErrorKind::Invariant)),
        BoundStatementView::Transaction(_) => (transaction, Err(DatabaseErrorKind::Invariant)),
    }
}

fn engine_error(error: EngineError) -> (converted: DatabaseError)
    ensures
        converted.deep_view() == DatabaseErrorKind::Engine(error.deep_view()),
{
    DatabaseError::Engine(error)
}

fn names_of(columns: &Vec<OutputColumn>) -> (names: Vec<String>)
    ensures
        names.deep_view() == column_names(columns.deep_view()),
{
    let ghost view = columns.deep_view();
    let mut names: Vec<String> = Vec::with_capacity(columns.len());
    let mut i: usize = 0;
    while i < columns.len()
        invariant
            i <= columns@.len(),
            view == columns.deep_view(),
            names@.len() == i,
            forall|j: int| 0 <= j < i ==> (#[trigger] names@[j])@ == view[j].name,
        decreases columns@.len() - i,
    {
        names.push(columns[i].name.duplicate());
        i = i + 1;
    }
    assert(names.deep_view() =~= column_names(view));
    names
}

fn bare(rows: &Vec<ExecRow>) -> (bare: Vec<Row>)
    ensures
        bare.deep_view() == bare_rows(rows.deep_view()),
{
    let ghost view = rows.deep_view();
    let mut bare: Vec<Row> = Vec::with_capacity(rows.len());
    let mut i: usize = 0;
    while i < rows.len()
        invariant
            i <= rows@.len(),
            view == rows.deep_view(),
            bare@.len() == i,
            forall|j: int| 0 <= j < i ==> (#[trigger] bare@[j]).deep_view() == view[j].row,
        decreases rows@.len() - i,
    {
        bare.push(rows[i].row.duplicate());
        i = i + 1;
    }
    assert(bare.deep_view() =~= bare_rows(view));
    bare
}

impl<
    E: Fn(&BoundExpr, &Row, &Vec<Value>) -> std::result::Result<Value, SqlError>,
    P: Fn(&BoundExpr, &Row, &Vec<Value>) -> std::result::Result<bool, SqlError>,
> Scalars<E, P> {
    /// The rows that a plan produces.
    pub fn execute_plan(
        &self,
        engine: &Engine,
        transaction: &Transaction,
        plan: &PhysicalPlan,
        parameters: &Vec<Value>,
    ) -> (result: Result<Vec<ExecRow>>)
        requires
            self.sound(),
        ensures
            outcome(result) == plan_rows(
                engine.deep_view(),
                transaction.deep_view(),
                self.meaning(),
                plan.deep_view(),
                parameters.deep_view(),
            ),
        decreases plan,
    {
        let rows = match plan {
            PhysicalPlan::SeqScan { table } => match engine.scan_table(transaction, table.id) {
                Ok(rows) => plain_exec_rows(&rows),
                Err(error) => return Err(engine_error(error)),
            },
            PhysicalPlan::IndexScan { table, index, constraint } => {
                let value = match self.evaluate_exec(
                    &constraint.value,
                    &ExecRow::empty(),
                    parameters,
                ) {
                    Ok(value) => value,
                    Err(error) => return Err(error),
                };
                let rows = if constraint.operator == BinaryOp::Eq && !value.is_null() {
                    engine.scan_secondary(transaction, index.id, &value)
                } else {
                    engine.scan_table(transaction, table.id)
                };
                match rows {
                    Ok(rows) => plain_exec_rows(&rows),
                    Err(error) => return Err(engine_error(error)),
                }
            },
            PhysicalPlan::Filter { input, predicate } => {
                match self.execute_plan(engine, transaction, input, parameters) {
                    Ok(rows) => match self.filter_rows(predicate, &rows, parameters) {
                        Ok(rows) => rows,
                        Err(error) => return Err(error),
                    },
                    Err(error) => return Err(error),
                }
            },
            PhysicalPlan::Join { left, right, on, algorithm } => {
                let left_rows = match self.execute_plan(engine, transaction, left, parameters) {
                    Ok(rows) => rows,
                    Err(error) => return Err(error),
                };
                let right_rows = match self.execute_plan(engine, transaction, right, parameters) {
                    Ok(rows) => rows,
                    Err(error) => return Err(error),
                };
                match self.join_rows(&left_rows, &right_rows, right, on, *algorithm, parameters) {
                    Ok(rows) => rows,
                    Err(error) => return Err(error),
                }
            },
            PhysicalPlan::HashAggregate { input, group_by, aggregates } => {
                match self.execute_plan(engine, transaction, input, parameters) {
                    Ok(rows) => match self.aggregate_rows(
                        &rows,
                        group_by,
                        aggregates,
                        parameters,
                    ) {
                        Ok(rows) => rows,
                        Err(error) => return Err(error),
                    },
                    Err(error) => return Err(error),
                }
            },
            PhysicalPlan::Sort { input, order_by } => {
                match self.execute_plan(engine, transaction, input, parameters) {
                    Ok(rows) => match self.sort_rows(&rows, order_by, parameters) {
                        Ok(rows) => rows,
                        Err(error) => return Err(error),
                    },
                    Err(error) => return Err(error),
                }
            },
            PhysicalPlan::Limit { input, limit } => {
                let rows = match self.execute_plan(engine, transaction, input, parameters) {
                    Ok(rows) => rows,
                    Err(error) => return Err(error),
                };
                let value = match self.evaluate_exec(limit, &ExecRow::empty(), parameters) {
                    Ok(value) => value,
                    Err(error) => return Err(error),
                };
                match limit_rows(rows, &value, limit.span()) {
                    Ok(rows) => rows,
                    Err(error) => return Err(error),
                }
            },
            PhysicalPlan::Project { input, expressions } => {
                match self.execute_plan(engine, transaction, input, parameters) {
                    Ok(rows) => match self.project_rows(expressions, &rows, parameters) {
                        Ok(rows) => rows,
                        Err(error) => return Err(error),
                    },
                    Err(error) => return Err(error),
                }
            },
        };
        match ensure_intermediate_bound(&rows) {
            Ok(()) => Ok(rows),
            Err(error) => Err(error),
        }
    }

    fn is_chosen(&self, selection: &Option<BoundExpr>, row: &ExecRow, parameters: &Vec<Value>) -> (result:
        Result<bool>)
        requires
            self.sound(),
            row.deep_view() == plain_row(row.deep_view().row),
        ensures
            outcome(result) == chosen(
                self.meaning(),
                selection.deep_view(),
                row.deep_view().row,
                parameters.deep_view(),
            ),
    {
        match selection {
            None => Ok(true),
            Some(predicate) => self.predicate_exec(predicate, row, parameters),
        }
    }

    fn assign(&self, assignments: &Vec<Assignment>, row: &ExecRow, parameters: &Vec<Value>) -> (result:
        Result<Row>)
        requires
            self.sound(),
            row.deep_view() == plain_row(row.deep_view().row),
        ensures
            outcome(result) == assigned(
                self.meaning(),
                assignments.deep_view(),
                row.deep_view().row,
                parameters.deep_view(),
                assignments@.len() as int,
            ),
    {
        let ghost meaning = self.meaning();
        let ghost wanted = assignments.deep_view();
        let ghost view = row.deep_view().row;
        let ghost given = parameters.deep_view();
        let mut changed = row.row.duplicate();
        let mut i: usize = 0;
        while i < assignments.len()
            invariant
                self.sound(),
                i <= assignments@.len(),
                meaning == self.meaning(),
                wanted == assignments.deep_view(),
                row.deep_view() == plain_row(view),
                given == parameters.deep_view(),
                assigned(meaning, wanted, view, given, i as int) == Ok::<
                    RowView,
                    DatabaseErrorKind,
                >(changed.deep_view()),
            decreases assignments@.len() - i,
        {
            assert(wanted[i as int] == assignments@[i as int].deep_view());
            let ghost before = changed.values.deep_view();
            let column: usize = assignments[i].column;
            let value = match self.evaluate_exec(&assignments[i].value, row, parameters) {
                Ok(value) => if column < changed.values.len() {
                    Ok(value)
                } else {
                    Err(
                        DatabaseError::Invariant(
                            message(
                                &[
                                    "UPDATE target column ",
                                    &decimal_text(column as u64),
                                    " is outside row",
                                ],
                            ),
                        ),
                    )
                },
                Err(error) => Err(error),
            };
            match value {
                Ok(value) => {
                    let ghost stored = value.deep_view();
                    changed.values.set(column, value);
                    assert(changed.values.deep_view() =~= before.update(column as int, stored));
                },
                Err(error) => {
                    proof {
                        assigned_stops(meaning, wanted, view, given, i + 1, wanted.len() as int);
                    }
                    return Err(error);
                },
            }
            i = i + 1;
        }
        Ok(changed)
    }

    fn update_row(
        &self,
        engine: &Engine,
        transaction: &mut Transaction,
        assignments: &Vec<Assignment>,
        selection: &Option<BoundExpr>,
        table_id: TableId,
        primary_key: usize,
        row: &Row,
        parameters: &Vec<Value>,
    ) -> (result: Result<bool>)
        requires
            self.sound(),
        ensures
            match result {
                Ok(changed) => row_changed(
                    engine.deep_view(),
                    old(transaction).deep_view(),
                    self.meaning(),
                    RowChange::Assign(assignments.deep_view()),
                    selection.deep_view(),
                    table_id,
                    primary_key as int,
                    row.deep_view(),
                    parameters.deep_view(),
                ) == Ok::<(bool, TransactionView), DatabaseErrorKind>(
                    (changed, final(transaction).deep_view()),
                ),
                Err(error) => row_changed(
                    engine.deep_view(),
                    old(transaction).deep_view(),
                    self.meaning(),
                    RowChange::Assign(assignments.deep_view()),
                    selection.deep_view(),
                    table_id,
                    primary_key as int,
                    row.deep_view(),
                    parameters.deep_view(),
                ) == Err::<(bool, TransactionView), DatabaseErrorKind>(error.deep_view())
                    && final(transaction).deep_view() == old(transaction).deep_view(),
            },
    {
        let exec = ExecRow::plain(row.duplicate());
        match self.is_chosen(selection, &exec, parameters) {
            Ok(true) => {},
            Ok(false) => return Ok(false),
            Err(error) => return Err(error),
        }
        let changed = match self.assign(assignments, &exec, parameters) {
            Ok(changed) => changed,
            Err(error) => return Err(error),
        };
        if primary_key >= row.values.len() {
            return Err(invariant_error("primary-key slot is outside row"));
        }
        match engine.update(transaction, table_id, &row.values[primary_key], changed) {
            Ok(found) => Ok(found),
            Err(error) => Err(engine_error(error)),
        }
    }

    fn delete_row(
        &self,
        engine: &Engine,
        transaction: &mut Transaction,
        selection: &Option<BoundExpr>,
        table_id: TableId,
        primary_key: usize,
        row: &Row,
        parameters: &Vec<Value>,
    ) -> (result: Result<bool>)
        requires
            self.sound(),
        ensures
            match result {
                Ok(changed) => row_changed(
                    engine.deep_view(),
                    old(transaction).deep_view(),
                    self.meaning(),
                    RowChange::Remove,
                    selection.deep_view(),
                    table_id,
                    primary_key as int,
                    row.deep_view(),
                    parameters.deep_view(),
                ) == Ok::<(bool, TransactionView), DatabaseErrorKind>(
                    (changed, final(transaction).deep_view()),
                ),
                Err(error) => row_changed(
                    engine.deep_view(),
                    old(transaction).deep_view(),
                    self.meaning(),
                    RowChange::Remove,
                    selection.deep_view(),
                    table_id,
                    primary_key as int,
                    row.deep_view(),
                    parameters.deep_view(),
                ) == Err::<(bool, TransactionView), DatabaseErrorKind>(error.deep_view())
                    && final(transaction).deep_view() == old(transaction).deep_view(),
            },
    {
        let exec = ExecRow::plain(row.duplicate());
        match self.is_chosen(selection, &exec, parameters) {
            Ok(true) => {},
            Ok(false) => return Ok(false),
            Err(error) => return Err(error),
        }
        if primary_key >= row.values.len() {
            return Err(invariant_error("primary-key slot is outside row"));
        }
        match engine.delete(transaction, table_id, &row.values[primary_key]) {
            Ok(found) => Ok(found),
            Err(error) => Err(engine_error(error)),
        }
    }

    fn change_table(
        &self,
        engine: &Engine,
        transaction: &mut Transaction,
        assignments: Option<&Vec<Assignment>>,
        selection: &Option<BoundExpr>,
        table: &TableDef,
        parameters: &Vec<Value>,
    ) -> (result: Result<StatementOutput>)
        requires
            self.sound(),
        ensures
            (final(transaction).deep_view(), outcome(result)) == table_changed(
                engine.deep_view(),
                old(transaction).deep_view(),
                self.meaning(),
                match assignments {
                    Some(assignments) => RowChange::Assign(assignments.deep_view()),
                    None => RowChange::Remove,
                },
                selection.deep_view(),
                table.deep_view(),
                parameters.deep_view(),
            ),
    {
        let ghost view = engine.deep_view();
        let ghost start = transaction.deep_view();
        let ghost meaning = self.meaning();
        let ghost change = match assignments {
            Some(assignments) => RowChange::Assign(assignments.deep_view()),
            None => RowChange::Remove,
        };
        let ghost wanted = selection.deep_view();
        let ghost given = parameters.deep_view();
        let rows = match engine.scan_table(transaction, table.id) {
            Ok(rows) => rows,
            Err(error) => return Err(engine_error(error)),
        };
        let primary_key: usize = match primary_key_column(table) {
            Ok(column) => column,
            Err(error) => return Err(error),
        };
        let ghost all = rows.deep_view();
        let mut affected_rows: usize = 0;
        let mut i: usize = 0;
        while i < rows.len()
            invariant
                self.sound(),
                i <= rows@.len(),
                affected_rows <= i,
                view == engine.deep_view(),
                start == old(transaction).deep_view(),
                meaning == self.meaning(),
                change == match assignments {
                    Some(assignments) => RowChange::Assign(assignments.deep_view()),
                    None => RowChange::Remove,
                },
                wanted == selection.deep_view(),
                given == parameters.deep_view(),
                all == rows.deep_view(),
                view.scanned(start, table.deep_view().id) == Ok::<Seq<RowView>, EngineErrorKind>(
                    all,
                ),
                primary_key_from(table.deep_view().schema.columns, 0) == Some(primary_key as int),
                rows_changed(
                    view,
                    start,
                    meaning,
                    change,
                    wanted,
                    table.id,
                    primary_key as int,
                    all,
                    given,
                    i as int,
                ) == (
                    transaction.deep_view(),
                    Ok::<int, DatabaseErrorKind>(affected_rows as int),
                ),
            decreases rows@.len() - i,
        {
            assert(all[i as int] == rows@[i as int].deep_view());
            let changed = match assignments {
                Some(assignments) => self.update_row(
                    engine,
                    transaction,
                    assignments,
                    selection,
                    table.id,
                    primary_key,
                    &rows[i],
                    parameters,
                ),
                None => self.delete_row(
                    engine,
                    transaction,
                    selection,
                    table.id,
                    primary_key,
                    &rows[i],
                    parameters,
                ),
            };
            match changed {
                Ok(true) => {
                    affected_rows = affected_rows + 1;
                },
                Ok(false) => {},
                Err(error) => {
                    proof {
                        rows_changed_stop(
                            view,
                            start,
                            meaning,
                            change,
                            wanted,
                            table.id,
                            primary_key as int,
                            all,
                            given,
                            i + 1,
                            all.len() as int,
                        );
                    }
                    return Err(error);
                },
            }
            i = i + 1;
        }
        Ok(StatementOutput::Mutation { affected_rows })
    }

    /// Executes a bound statement in a transaction. A query needs its plan.
    pub fn execute_bound(
        &self,
        engine: &Engine,
        transaction: &mut Transaction,
        statement: &BoundStatement,
        plan: Option<&PhysicalPlan>,
        parameters: &Vec<Value>,
    ) -> (result: Result<StatementOutput>)
        requires
            self.sound(),
        ensures
            (final(transaction).deep_view(), outcome(result)) == statement_executed(
                engine.deep_view(),
                old(transaction).deep_view(),
                self.meaning(),
                statement.deep_view(),
                plan_content(plan),
                parameters.deep_view(),
            ),
    {
        match statement {
            BoundStatement::CreateTable { name, schema } => {
                match engine.create_table(transaction, name, schema.duplicate()) {
                    Ok(_) => Ok(StatementOutput::Mutation { affected_rows: 0 }),
                    Err(error) => Err(engine_error(error)),
                }
            },
            BoundStatement::CreateIndex { name, table, column_index } => {
                match engine.create_index(transaction, name, table.id, *column_index) {
                    Ok(_) => Ok(StatementOutput::Mutation { affected_rows: 0 }),
                    Err(error) => Err(engine_error(error)),
                }
            },
            BoundStatement::Insert { table, values } => {
                let values = match self.evaluate_all(values, &ExecRow::empty(), parameters) {
                    Ok(values) => values,
                    Err(error) => return Err(error),
                };
                match engine.insert(transaction, table.id, Row { values }) {
                    Ok(()) => Ok(StatementOutput::Mutation { affected_rows: 1 }),
                    Err(error) => Err(engine_error(error)),
                }
            },
            BoundStatement::Update { table, assignments, selection } => self.change_table(
                engine,
                transaction,
                Some(assignments),
                selection,
                table,
                parameters,
            ),
            BoundStatement::Delete { table, selection } => self.change_table(
                engine,
                transaction,
                None,
                selection,
                table,
                parameters,
            ),
            BoundStatement::Query { output } => {
                let plan = match plan {
                    Some(plan) => plan,
                    None => return Err(invariant_error("query has no optimized physical plan")),
                };
                let rows = match self.execute_plan(engine, transaction, plan, parameters) {
                    Ok(rows) => rows,
                    Err(error) => return Err(error),
                };
                if rows.len() > MAX_RESULT_ROWS {
                    return Err(
                        DatabaseError::ResourceLimit(
                            message(
                                &[
                                    "query produced ",
                                    &decimal_text(rows.len() as u64),
                                    " rows; maximum is ",
                                    &decimal_text(MAX_RESULT_ROWS as u64),
                                ],
                            ),
                        ),
                    );
                }
                Ok(StatementOutput::Query { columns: names_of(output), rows: bare(&rows) })
            },
            BoundStatement::Explain(_) => Err(
                invariant_error("EXPLAIN must be handled before execution"),
            ),
            BoundStatement::Transaction(_) => Err(
                invariant_error("transaction control must be handled by Database"),
            ),
        }
    }
}

/// The content of a plan, where there is one.
pub open spec fn plan_content(plan: Option<&PhysicalPlan>) -> Option<PhysicalPlanView> {
    match plan {
        Some(plan) => Some(plan.deep_view()),
        None => None,
    }
}

/// The text that explains a statement; the one of a query is the text of its
/// plan.
pub open spec fn explanation(statement: BoundStatementView, plan: Option<Seq<char>>) -> std::result::Result<
    Seq<char>,
    DatabaseErrorKind,
> {
    match statement {
        BoundStatementView::Query { .. } => match plan {
            Some(text) => Ok(text),
            None => Err(DatabaseErrorKind::Invariant),
        },
        BoundStatementView::CreateTable { name, .. } => Ok("CreateTable name="@ + name + "\n"@),
        BoundStatementView::CreateIndex { name, table, .. } => Ok(
            "CreateIndex name="@ + name + " table="@ + table.name + "\n"@,
        ),
        BoundStatementView::Insert { table, .. } => Ok("Insert table="@ + table.name + "\n"@),
        BoundStatementView::Update { table, .. } => Ok("Update table="@ + table.name + "\n"@),
        BoundStatementView::Delete { table, .. } => Ok("Delete table="@ + table.name + "\n"@),
        BoundStatementView::Explain(_) => Err(DatabaseErrorKind::Invariant),
        BoundStatementView::Transaction(_) => Err(DatabaseErrorKind::Invariant),
    }
}

/// A line of the form `label`, `name`, end of line.
fn line(label: &str, name: &str) -> (text: String)
    ensures
        text@ == label@ + name@ + "\n"@,
{
    let mut text = label.to_owned();
    text.append(name);
    text.append("\n");
    text
}

/// Explains a statement. A query is explained by the text of its plan.
pub fn explain_statement(statement: &BoundStatement, plan: Option<String>) -> (result: Result<
    StatementOutput,
>)
    ensures
        outcome(result) == match explanation(statement.deep_view(), plan.deep_view()) {
            Ok(text) => Ok::<StatementOutputView, DatabaseErrorKind>(
                StatementOutputView::Explain(text),
            ),
            Err(error) => Err(error),
        },
{
    let text = match statement {
        BoundStatement::Query { .. } => match plan {
            Some(text) => text,
            None => return Err(invariant_error("EXPLAIN query has no physical plan")),
        },
        BoundStatement::CreateTable { name, .. } => line("CreateTable name=", name),
        BoundStatement::CreateIndex { name, table, .. } => {
            let mut text = "CreateIndex name=".to_owned();
            text.append(name);
            text.append(" table=");
            text.append(&table.name);
            text.append("\n");
            text
        },
        BoundStatement::Insert { table, .. } => line("Insert table=", &table.name),
        BoundStatement::Update { table, .. } => line("Update table=", &table.name),
        BoundStatement::Delete { table, .. } => line("Delete table=", &table.name),
        BoundStatement::Explain(_) => return Err(invariant_error("invalid nested EXPLAIN target")),
        BoundStatement::Transaction(_) => {
            return Err(invariant_error("invalid nested EXPLAIN target"))
        },
    };
    Ok(StatementOutput::Explain(text))
}

/// A query leaves the transaction as it is.
pub proof fn query_changes_nothing(
    engine: EngineView,
    transaction: TransactionView,
    meaning: Meaning,
    output: Seq<OutputColumnView>,
    plan: Option<PhysicalPlanView>,
    parameters: Seq<ValueView>,
)
    ensures
        statement_executed(
            engine,
            transaction,
            meaning,
            BoundStatementView::Query { output },
            plan,
            parameters,
        ).0 == transaction,
{
}

/// No step of a plan holds more rows than the bound, and no statement returns
/// more than its own: larger results fail.
pub proof fn results_are_bounded(
    engine: EngineView,
    transaction: TransactionView,
    meaning: Meaning,
    statement: BoundStatementView,
    plan: PhysicalPlanView,
    parameters: Seq<ValueView>,
)
    ensures
        plan_rows(engine, transaction, meaning, plan, parameters) matches Ok(rows) ==> rows.len()
            <= crate::db::join::MAX_INTERMEDIATE_ROWS,
        statement_executed(
            engine,
            transaction,
            meaning,
            statement,
            Some(plan),
            parameters,
        ).1 matches Ok(StatementOutputView::Query { rows, .. }) ==> rows.len() <= MAX_RESULT_ROWS,
{
}

proof fn rows_changed_keep_id(
    engine: EngineView,
    transaction: TransactionView,
    meaning: Meaning,
    change: RowChange,
    selection: Option<BoundExprView>,
    table_id: TableId,
    primary_key: int,
    rows: Seq<RowView>,
    parameters: Seq<ValueView>,
    n: int,
)
    ensures
        ({
            let after = rows_changed(
                engine,
                transaction,
                meaning,
                change,
                selection,
                table_id,
                primary_key,
                rows,
                parameters,
                n,
            ).0;
            &&& after.id == transaction.id
            &&& after.read_ts == transaction.read_ts
            &&& after.schema_epoch == transaction.schema_epoch
        }),
    decreases n,
{
    if n > 0 {
        rows_changed_keep_id(
            engine,
            transaction,
            meaning,
            change,
            selection,
            table_id,
            primary_key,
            rows,
            parameters,
            n - 1,
        );
    }
}

/// A statement stages changes; the transaction stays the same one, at the same
/// snapshot.
pub proof fn statements_keep_id(
    engine: EngineView,
    transaction: TransactionView,
    meaning: Meaning,
    statement: BoundStatementView,
    plan: Option<PhysicalPlanView>,
    parameters: Seq<ValueView>,
)
    ensures
        ({
            let after = statement_executed(
                engine,
                transaction,
                meaning,
                statement,
                plan,
                parameters,
            ).0;
            &&& after.id == transaction.id
            &&& after.read_ts == transaction.read_ts
            &&& after.schema_epoch == transaction.schema_epoch
        }),
{
    match statement {
        BoundStatementView::Update { table, assignments, selection } => {
            table_changed_keeps_id(
                engine,
                transaction,
                meaning,
                RowChange::Assign(assignments),
                selection,
                table,
                parameters,
            );
        },
        BoundStatementView::Delete { table, selection } => {
            table_changed_keeps_id(
                engine,
                transaction,
                meaning,
                RowChange::Remove,
                selection,
                table,
                parameters,
            );
        },
        _ => {},
    }
}

proof fn table_changed_keeps_id(
    engine: EngineView,
    transaction: TransactionView,
    meaning: Meaning,
    change: RowChange,
    selection: Option<BoundExprView>,
    table: TableDefView,
    parameters: Seq<ValueView>,
)
    ensures
        ({
            let after = table_changed(
                engine,
                transaction,
                meaning,
                change,
                selection,
                table,
                parameters,
            ).0;
            &&& after.id == transaction.id
            &&& after.read_ts == transaction.read_ts
            &&& after.schema_epoch == transaction.schema_epoch
        }),
{
    if let Ok(rows) = engine.scanned(transaction, table.id) {
        if let Some(primary_key) = primary_key_from(table.schema.columns, 0) {
            rows_changed_keep_id(
                engine,
                transaction,
                meaning,
                change,
                selection,
                table.id,
                primary_key,
                rows,
                parameters,
                rows.len() as int,
            );
        }
    }
}

} // verus!
