//! What the plain steps of a plan answer: scans, filters, projections and limits, and the
//! query at their head.

use vstd::prelude::*;
use crate::db::error::DatabaseErrorKind;
use crate::db::executor::{MAX_RESULT_ROWS, StatementOutputView, plan_rows, statement_executed};
use crate::db::join::MAX_INTERMEDIATE_ROWS;
use crate::db::rows::{all_evaluated, filtered, output_expressions, projected};
use crate::db::scalar::{ExecRowView, Meaning, evaluated, predicate_holds};
use crate::db::sql::{
    BinaryOp, BoundExprView, BoundStatementView, OutputColumnView, PhysicalPlanView, SqlErrorKind,
    SqlErrorView,
};
use crate::engine::state::EngineView;
use crate::engine::transaction::TransactionView;
use crate::types::{RowView, ValueView};

verus! {

/// `rows` are the rows of a table, without aggregates.
pub open spec fn are_plain(rows: Seq<ExecRowView>, stored: Seq<RowView>) -> bool {
    &&& rows.len() == stored.len()
    &&& forall|i: int|
        0 <= i < rows.len() ==> (#[trigger] rows[i]).row == stored[i] && rows[i].aggregates.len()
            == 0
}

/// A scan of a table answers the rows that the transaction sees in it, in their order, and
/// fails where they cannot be read or are too many.
pub proof fn scans_answer_the_table(
    engine: EngineView,
    transaction: TransactionView,
    meaning: Meaning,
    plan: PhysicalPlanView,
    parameters: Seq<ValueView>,
)
    requires
        plan is SeqScan,
    ensures
        plan matches PhysicalPlanView::SeqScan { table } && match engine.scanned(
            transaction,
            table.id,
        ) {
            Err(error) => plan_rows(engine, transaction, meaning, plan, parameters) == Err::<
                Seq<ExecRowView>,
                DatabaseErrorKind,
            >(DatabaseErrorKind::Engine(error)),
            Ok(stored) => if stored.len() <= MAX_INTERMEDIATE_ROWS {
                plan_rows(engine, transaction, meaning, plan, parameters) matches Ok(rows)
                    && are_plain(rows, stored)
            } else {
                plan_rows(engine, transaction, meaning, plan, parameters) == Err::<
                    Seq<ExecRowView>,
                    DatabaseErrorKind,
                >(DatabaseErrorKind::ResourceLimit)
            },
        },
{
}

/// A scan of an index for a value that is not `NULL` answers what the index holds for it. Any
/// other comparison, and `NULL`, reads the whole table.
pub proof fn index_scans_look_up_equals(
    engine: EngineView,
    transaction: TransactionView,
    meaning: Meaning,
    plan: PhysicalPlanView,
    parameters: Seq<ValueView>,
    value: ValueView,
)
    requires
        plan matches PhysicalPlanView::IndexScan { constraint, .. } && evaluated(
            meaning,
            constraint.value,
            ExecRowView { row: RowView { values: Seq::empty() }, aggregates: Seq::empty() },
            parameters,
        ) == Ok::<ValueView, DatabaseErrorKind>(value),
    ensures
        plan matches PhysicalPlanView::IndexScan { table, index, constraint } && match (
        if constraint.operator == BinaryOp::Eq && value !is Null {
            engine.looked_up(transaction, index.id, value)
        } else {
            engine.scanned(transaction, table.id)
        }) {
            Err(error) => plan_rows(engine, transaction, meaning, plan, parameters) == Err::<
                Seq<ExecRowView>,
                DatabaseErrorKind,
            >(DatabaseErrorKind::Engine(error)),
            Ok(stored) => stored.len() <= MAX_INTERMEDIATE_ROWS ==> (plan_rows(
                engine,
                transaction,
                meaning,
                plan,
                parameters,
            ) matches Ok(rows) && are_plain(rows, stored)),
        },
{
    assert(crate::db::rows::empty_row() == (ExecRowView {
        row: RowView { values: Seq::empty() },
        aggregates: Seq::empty(),
    }));
}

/// `kept` names the positions of the rows on which a predicate holds, in rising order.
pub open spec fn keeps_matches(
    meaning: Meaning,
    predicate: BoundExprView,
    rows: Seq<ExecRowView>,
    parameters: Seq<ValueView>,
    kept: Seq<int>,
) -> bool {
    &&& forall|k: int, m: int|
        0 <= k < m < kept.len() ==> #[trigger] kept[k] < #[trigger] kept[m]
    &&& forall|i: int| #[trigger]
        kept.contains(i) <==> 0 <= i < rows.len() && predicate_holds(
            meaning,
            predicate,
            rows[i],
            parameters,
        ) == Ok::<bool, DatabaseErrorKind>(true)
}

/// The positions among the first `n` that a filter keeps.
spec fn kept_among(
    meaning: Meaning,
    predicate: BoundExprView,
    rows: Seq<ExecRowView>,
    parameters: Seq<ValueView>,
    n: int,
) -> Seq<int>
    decreases n,
{
    if n <= 0 {
        Seq::empty()
    } else {
        let before = kept_among(meaning, predicate, rows, parameters, n - 1);
        if predicate_holds(meaning, predicate, rows[n - 1], parameters) == Ok::<
            bool,
            DatabaseErrorKind,
        >(true) {
            before.push(n - 1)
        } else {
            before
        }
    }
}

proof fn filtering_keeps(
    meaning: Meaning,
    predicate: BoundExprView,
    rows: Seq<ExecRowView>,
    parameters: Seq<ValueView>,
    n: int,
)
    requires
        0 <= n <= rows.len(),
    ensures
        ({
            let kept = kept_among(meaning, predicate, rows, parameters, n);
            &&& forall|k: int| 0 <= k < kept.len() ==> 0 <= #[trigger] kept[k] < n
            &&& keeps_matches(meaning, predicate, rows.take(n), parameters, kept)
            &&& filtered(meaning, predicate, rows, parameters, n) matches Ok(answered) ==> answered
                == Seq::new(kept.len(), |k: int| rows[kept[k]])
            &&& (forall|i: int|
                0 <= i < n ==> predicate_holds(
                    meaning,
                    predicate,
                    #[trigger] rows[i],
                    parameters,
                ) is Ok) ==> filtered(meaning, predicate, rows, parameters, n) is Ok
        }),
    decreases n,
{
    let kept = kept_among(meaning, predicate, rows, parameters, n);
    if n > 0 {
        filtering_keeps(meaning, predicate, rows, parameters, n - 1);
        let before = kept_among(meaning, predicate, rows, parameters, n - 1);
        assert forall|i: int| #[trigger] kept.contains(i) <==> 0 <= i < n && predicate_holds(
            meaning,
            predicate,
            rows.take(n)[i],
            parameters,
        ) == Ok::<bool, DatabaseErrorKind>(true) by {
            assert(before.contains(i) <==> 0 <= i < n - 1 && predicate_holds(
                meaning,
                predicate,
                rows.take(n - 1)[i],
                parameters,
            ) == Ok::<bool, DatabaseErrorKind>(true));
            if before.contains(i) {
                let k = before.index_of(i);
                assert(kept[k] == i);
            }
            if kept.len() > before.len() {
                assert(kept[before.len() as int] == n - 1);
            }
        }
        if filtered(meaning, predicate, rows, parameters, n) is Ok {
            assert(filtered(meaning, predicate, rows, parameters, n)->Ok_0 =~= Seq::new(
                kept.len(),
                |k: int| rows[kept[k]],
            ));
        }
    } else {
        assert(Seq::new(kept.len(), |k: int| rows[kept[k]]) =~= Seq::empty());
    }
}

/// A filter answers exactly the rows on which its predicate holds, in their order. It fails
/// only where the predicate cannot be tested.
pub proof fn filters_keep_what_matches(
    engine: EngineView,
    transaction: TransactionView,
    meaning: Meaning,
    plan: PhysicalPlanView,
    parameters: Seq<ValueView>,
    given: Seq<ExecRowView>,
)
    requires
        plan matches PhysicalPlanView::Filter { input, .. } && plan_rows(
            engine,
            transaction,
            meaning,
            *input,
            parameters,
        ) == Ok::<Seq<ExecRowView>, DatabaseErrorKind>(given),
    ensures
        plan_rows(engine, transaction, meaning, plan, parameters) matches Ok(rows) ==> exists|
            kept: Seq<int>,
        | #[trigger]
            keeps_matches(meaning, plan->predicate, given, parameters, kept) && rows.len()
                == kept.len() && forall|k: int|
                0 <= k < kept.len() ==> #[trigger] rows[k] == given[kept[k]],
        (forall|i: int|
            0 <= i < given.len() ==> predicate_holds(
                meaning,
                plan->predicate,
                #[trigger] given[i],
                parameters,
            ) is Ok) ==> plan_rows(engine, transaction, meaning, plan, parameters) is Ok,
{
    let n = given.len() as int;
    let kept = kept_among(meaning, plan->predicate, given, parameters, n);
    filtering_keeps(meaning, plan->predicate, given, parameters, n);
    assert(given.take(n) =~= given);
    assert(keeps_matches(meaning, plan->predicate, given, parameters, kept));
    filtering_shortens(meaning, plan->predicate, given, parameters, n);
}

proof fn filtering_shortens(
    meaning: Meaning,
    predicate: BoundExprView,
    rows: Seq<ExecRowView>,
    parameters: Seq<ValueView>,
    n: int,
)
    requires
        0 <= n <= rows.len(),
    ensures
        filtered(meaning, predicate, rows, parameters, n) matches Ok(kept) ==> kept.len() <= n,
    decreases n,
{
    if n > 0 {
        filtering_shortens(meaning, predicate, rows, parameters, n - 1);
    }
}

/// A row holds the values of output columns on another row, and no aggregates.
pub open spec fn is_projection(
    meaning: Meaning,
    columns: Seq<OutputColumnView>,
    row: ExecRowView,
    parameters: Seq<ValueView>,
    projection: ExecRowView,
) -> bool {
    &&& projection.aggregates.len() == 0
    &&& projection.row.values.len() == columns.len()
    &&& forall|c: int|
        0 <= c < columns.len() ==> evaluated(
            meaning,
            (#[trigger] columns[c]).expr,
            row,
            parameters,
        ) == Ok::<ValueView, DatabaseErrorKind>(projection.row.values[c])
}

proof fn values_of_columns(
    meaning: Meaning,
    columns: Seq<OutputColumnView>,
    row: ExecRowView,
    parameters: Seq<ValueView>,
    n: int,
)
    requires
        0 <= n <= columns.len(),
    ensures
        match all_evaluated(meaning, output_expressions(columns), row, parameters, n) {
            Ok(values) => values.len() == n && forall|c: int|
                0 <= c < n ==> evaluated(
                    meaning,
                    (#[trigger] columns[c]).expr,
                    row,
                    parameters,
                ) == Ok::<ValueView, DatabaseErrorKind>(values[c]),
            Err(_) => exists|c: int|
                0 <= c < n && evaluated(
                    meaning,
                    (#[trigger] columns[c]).expr,
                    row,
                    parameters,
                ) is Err,
        },
    decreases n,
{
    if n > 0 {
        values_of_columns(meaning, columns, row, parameters, n - 1);
        assert(output_expressions(columns)[n - 1] == columns[n - 1].expr);
        let before = all_evaluated(
            meaning,
            output_expressions(columns),
            row,
            parameters,
            n - 1,
        );
        if before is Ok && evaluated(meaning, columns[n - 1].expr, row, parameters) is Ok {
            let values = all_evaluated(
                meaning,
                output_expressions(columns),
                row,
                parameters,
                n,
            )->Ok_0;
            assert forall|c: int| 0 <= c < n implies evaluated(
                meaning,
                (#[trigger] columns[c]).expr,
                row,
                parameters,
            ) == Ok::<ValueView, DatabaseErrorKind>(values[c]) by {
                if c < n - 1 {
                    assert(values[c] == before->Ok_0[c]);
                }
            }
        }
    }
}

proof fn projecting_rows(
    meaning: Meaning,
    columns: Seq<OutputColumnView>,
    rows: Seq<ExecRowView>,
    parameters: Seq<ValueView>,
    n: int,
)
    requires
        0 <= n <= rows.len(),
    ensures
        match projected(meaning, columns, rows, parameters, n) {
            Ok(done) => done.len() == n && forall|i: int|
                0 <= i < n ==> is_projection(
                    meaning,
                    columns,
                    #[trigger] rows[i],
                    parameters,
                    done[i],
                ),
            Err(_) => exists|i: int, c: int|
                0 <= i < n && 0 <= c < columns.len() && evaluated(
                    meaning,
                    (#[trigger] columns[c]).expr,
                    #[trigger] rows[i],
                    parameters,
                ) is Err,
        },
    decreases n,
{
    if n > 0 {
        projecting_rows(meaning, columns, rows, parameters, n - 1);
        values_of_columns(meaning, columns, rows[n - 1], parameters, columns.len() as int);
        let before = projected(meaning, columns, rows, parameters, n - 1);
        let now = projected(meaning, columns, rows, parameters, n);
        if now is Ok {
            let done = now->Ok_0;
            assert forall|i: int| 0 <= i < n implies is_projection(
                meaning,
                columns,
                #[trigger] rows[i],
                parameters,
                done[i],
            ) by {
                if i < n - 1 {
                    assert(done[i] == before->Ok_0[i]);
                }
            }
        } else if before is Err {
            let (i, c) = choose|i: int, c: int|
                0 <= i < n - 1 && 0 <= c < columns.len() && evaluated(
                    meaning,
                    (#[trigger] columns[c]).expr,
                    #[trigger] rows[i],
                    parameters,
                ) is Err;
            assert(evaluated(meaning, columns[c].expr, rows[i], parameters) is Err);
        } else {
            let c = choose|c: int|
                0 <= c < columns.len() && evaluated(
                    meaning,
                    (#[trigger] columns[c]).expr,
                    rows[n - 1],
                    parameters,
                ) is Err;
            assert(evaluated(meaning, columns[c].expr, rows[n - 1], parameters) is Err);
        }
    }
}

/// A projection answers, for each row in order, the values of its columns on the row. It
/// fails only where one of them has no value.
pub proof fn projections_compute_their_columns(
    engine: EngineView,
    transaction: TransactionView,
    meaning: Meaning,
    plan: PhysicalPlanView,
    parameters: Seq<ValueView>,
    given: Seq<ExecRowView>,
)
    requires
        plan matches PhysicalPlanView::Project { input, .. } && plan_rows(
            engine,
            transaction,
            meaning,
            *input,
            parameters,
        ) == Ok::<Seq<ExecRowView>, DatabaseErrorKind>(given),
    ensures
        match plan_rows(engine, transaction, meaning, plan, parameters) {
            Ok(rows) => rows.len() == given.len() && forall|i: int|
                0 <= i < rows.len() ==> is_projection(
                    meaning,
                    plan->expressions,
                    given[i],
                    parameters,
                    #[trigger] rows[i],
                ),
            Err(_) => exists|i: int, c: int|
                0 <= i < given.len() && 0 <= c < plan->expressions.len() && evaluated(
                    meaning,
                    (#[trigger] plan->expressions[c]).expr,
                    #[trigger] given[i],
                    parameters,
                ) is Err,
        },
{
    let columns = plan->expressions;
    let n = given.len() as int;
    projecting_rows(meaning, columns, given, parameters, n);
    if let Ok(rows) = plan_rows(engine, transaction, meaning, plan, parameters) {
        assert forall|i: int| 0 <= i < rows.len() implies is_projection(
            meaning,
            columns,
            given[i],
            parameters,
            #[trigger] rows[i],
        ) by {
            assert(is_projection(meaning, columns, given[i], parameters, rows[i]));
        }
    } else {
        let (i, c) = choose|i: int, c: int|
            0 <= i < n && 0 <= c < columns.len() && evaluated(
                meaning,
                (#[trigger] columns[c]).expr,
                #[trigger] given[i],
                parameters,
            ) is Err;
        assert(evaluated(meaning, plan->expressions[c].expr, given[i], parameters) is Err);
    }
}

/// A limit answers the first rows of its input, as many as it allows, and refuses whatever
/// is not a number of rows.
pub proof fn limits_keep_the_first_rows(
    engine: EngineView,
    transaction: TransactionView,
    meaning: Meaning,
    plan: PhysicalPlanView,
    parameters: Seq<ValueView>,
    given: Seq<ExecRowView>,
    limit: ValueView,
)
    requires
        plan matches PhysicalPlanView::Limit { input, limit: expression } && plan_rows(
            engine,
            transaction,
            meaning,
            *input,
            parameters,
        ) == Ok::<Seq<ExecRowView>, DatabaseErrorKind>(given) && evaluated(
            meaning,
            expression,
            ExecRowView { row: RowView { values: Seq::empty() }, aggregates: Seq::empty() },
            parameters,
        ) == Ok::<ValueView, DatabaseErrorKind>(limit),
    ensures
        plan matches PhysicalPlanView::Limit { limit: expression, .. } && match limit {
            ValueView::Int64(most) => if most < 0 {
                plan_rows(engine, transaction, meaning, plan, parameters) == Err::<
                    Seq<ExecRowView>,
                    DatabaseErrorKind,
                >(
                    DatabaseErrorKind::Sql(
                        SqlErrorView { kind: SqlErrorKind::Constraint, span: expression.span() },
                    ),
                )
            } else if most <= usize::MAX {
                plan_rows(engine, transaction, meaning, plan, parameters) matches Ok(rows) && {
                    &&& rows.len() <= most
                    &&& rows.len() <= given.len()
                    &&& rows.len() == most || rows.len() == given.len()
                    &&& forall|i: int| 0 <= i < rows.len() ==> #[trigger] rows[i] == given[i]
                }
            } else {
                plan_rows(engine, transaction, meaning, plan, parameters) is Err
            },
            _ => plan_rows(engine, transaction, meaning, plan, parameters) == Err::<
                Seq<ExecRowView>,
                DatabaseErrorKind,
            >(
                DatabaseErrorKind::Sql(
                    SqlErrorView { kind: SqlErrorKind::Constraint, span: expression.span() },
                ),
            ),
        },
{
    assert(crate::db::rows::empty_row() == (ExecRowView {
        row: RowView { values: Seq::empty() },
        aggregates: Seq::empty(),
    }));
}

/// A query answers the values of every row of its plan, in order, under the names of its
/// columns, and changes nothing. It fails where its plan fails or answers too many rows.
pub proof fn queries_answer_their_plans(
    engine: EngineView,
    transaction: TransactionView,
    meaning: Meaning,
    statement: BoundStatementView,
    plan: PhysicalPlanView,
    parameters: Seq<ValueView>,
)
    requires
        statement is Query,
    ensures
        ({
            let (after, answer) = statement_executed(
                engine,
                transaction,
                meaning,
                statement,
                Some(plan),
                parameters,
            );
            &&& after == transaction
            &&& match plan_rows(engine, transaction, meaning, plan, parameters) {
                Err(error) => answer == Err::<StatementOutputView, DatabaseErrorKind>(error),
                Ok(found) => if found.len() > MAX_RESULT_ROWS {
                    answer == Err::<StatementOutputView, DatabaseErrorKind>(
                        DatabaseErrorKind::ResourceLimit,
                    )
                } else {
                    answer matches Ok(StatementOutputView::Query { columns, rows }) && {
                        &&& columns.len() == statement->output.len()
                        &&& forall|c: int|
                            0 <= c < columns.len() ==> #[trigger] columns[c]
                                == statement->output[c].name
                        &&& rows.len() == found.len()
                        &&& forall|i: int|
                            0 <= i < rows.len() ==> #[trigger] rows[i] == found[i].row
                    }
                },
            }
        }),
{
}

} // verus!
