//! What expressions over groups mean, and that all others are the front end's.

use vstd::prelude::*;
use crate::db::error::DatabaseErrorKind;
use crate::db::ordering::different_keys_are_ordered;
use crate::db::scalar::{ExecRowView, Meaning, computed_among, evaluated, predicate_holds};
use crate::db::sql::{BinaryOp, BoundExprView, Span, UnaryOp};
use crate::types::{ValueView, comparable, smaller};

verus! {

/// No aggregate stands in an expression.
pub open spec fn is_plain(expression: BoundExprView) -> bool
    decreases expression,
{
    match expression {
        BoundExprView::Literal { .. } => true,
        BoundExprView::Parameter { .. } => true,
        BoundExprView::Column { .. } => true,
        BoundExprView::Unary { expr, .. } => is_plain(*expr),
        BoundExprView::Binary { left, right, .. } => is_plain(*left) && is_plain(*right),
        BoundExprView::IsNull { expr, .. } => is_plain(*expr),
        BoundExprView::Aggregate { .. } => false,
    }
}

proof fn plain_has_no_aggregate(expression: BoundExprView)
    ensures
        is_plain(expression) == !expression.contains_aggregate(),
    decreases expression,
{
    match expression {
        BoundExprView::Unary { expr, .. } => plain_has_no_aggregate(*expr),
        BoundExprView::IsNull { expr, .. } => plain_has_no_aggregate(*expr),
        BoundExprView::Binary { left, right, .. } => {
            plain_has_no_aggregate(*left);
            plain_has_no_aggregate(*right);
        },
        _ => {},
    }
}

/// The value of an expression without aggregates, and whether it holds, is what the front
/// end says on the row and the parameters; its errors are handed on.
pub proof fn plain_expressions_are_the_front_ends(
    meaning: Meaning,
    expression: BoundExprView,
    row: ExecRowView,
    parameters: Seq<ValueView>,
)
    requires
        is_plain(expression),
    ensures
        match (meaning.value)(expression, row.row, parameters) {
            Ok(value) => evaluated(meaning, expression, row, parameters) == Ok::<
                ValueView,
                DatabaseErrorKind,
            >(value),
            Err(error) => evaluated(meaning, expression, row, parameters) == Err::<
                ValueView,
                DatabaseErrorKind,
            >(DatabaseErrorKind::Sql(error)),
        },
        match (meaning.holds)(expression, row.row, parameters) {
            Ok(holds) => predicate_holds(meaning, expression, row, parameters) == Ok::<
                bool,
                DatabaseErrorKind,
            >(holds),
            Err(error) => predicate_holds(meaning, expression, row, parameters) == Err::<
                bool,
                DatabaseErrorKind,
            >(DatabaseErrorKind::Sql(error)),
        },
{
    plain_has_no_aggregate(expression);
}

/// A predicate over a group holds exactly where its value is true; it does not where the
/// value is `NULL` or false.
pub proof fn group_predicates_hold_where_true(
    meaning: Meaning,
    expression: BoundExprView,
    row: ExecRowView,
    parameters: Seq<ValueView>,
)
    requires
        !is_plain(expression),
    ensures
        match evaluated(meaning, expression, row, parameters) {
            Ok(ValueView::Bool(value)) => predicate_holds(meaning, expression, row, parameters)
                == Ok::<bool, DatabaseErrorKind>(value),
            Ok(ValueView::Null) => predicate_holds(meaning, expression, row, parameters) == Ok::<
                bool,
                DatabaseErrorKind,
            >(false),
            Ok(_) => predicate_holds(meaning, expression, row, parameters) is Err,
            Err(error) => predicate_holds(meaning, expression, row, parameters) == Err::<
                bool,
                DatabaseErrorKind,
            >(error),
        },
{
    plain_has_no_aggregate(expression);
}

/// An expression as it would stand at the beginning of a statement.
pub open spec fn unplaced(expression: BoundExprView) -> BoundExprView
    decreases expression,
{
    let span = Span { start: 0, end: 0 };
    match expression {
        BoundExprView::Literal { value, .. } => BoundExprView::Literal { value, span },
        BoundExprView::Parameter { index, .. } => BoundExprView::Parameter { index, span },
        BoundExprView::Column { table_id, column_index, .. } => BoundExprView::Column {
            table_id,
            column_index,
            span,
        },
        BoundExprView::Unary { op, expr, .. } => BoundExprView::Unary {
            op,
            expr: Box::new(unplaced(*expr)),
            span,
        },
        BoundExprView::Binary { left, op, right, .. } => BoundExprView::Binary {
            left: Box::new(unplaced(*left)),
            op,
            right: Box::new(unplaced(*right)),
            span,
        },
        BoundExprView::IsNull { expr, negated, .. } => BoundExprView::IsNull {
            expr: Box::new(unplaced(*expr)),
            negated,
            span,
        },
        BoundExprView::Aggregate { function, argument, .. } => BoundExprView::Aggregate {
            function,
            argument: match argument {
                None => None,
                Some(argument) => Some(Box::new(unplaced(*argument))),
            },
            span,
        },
    }
}

/// Two expressions are the same exactly where they differ only in where they stand.
pub proof fn same_expressions_differ_in_place(a: BoundExprView, b: BoundExprView)
    ensures
        a.same_expression(b) == (unplaced(a) == unplaced(b)),
    decreases a,
{
    match (a, b) {
        (BoundExprView::Unary { expr: x, .. }, BoundExprView::Unary { expr: y, .. }) => {
            same_expressions_differ_in_place(*x, *y);
        },
        (BoundExprView::IsNull { expr: x, .. }, BoundExprView::IsNull { expr: y, .. }) => {
            same_expressions_differ_in_place(*x, *y);
        },
        (
            BoundExprView::Binary { left: x, right: u, .. },
            BoundExprView::Binary { left: y, right: v, .. },
        ) => {
            same_expressions_differ_in_place(*x, *y);
            same_expressions_differ_in_place(*u, *v);
        },
        (
            BoundExprView::Aggregate { argument: Some(x), .. },
            BoundExprView::Aggregate { argument: Some(y), .. },
        ) => {
            same_expressions_differ_in_place(*x, *y);
        },
        _ => {},
    }
}

proof fn first_computed(row: ExecRowView, aggregate: BoundExprView, i: int, k: int)
    requires
        0 <= i <= k < row.aggregates.len(),
        unplaced(row.aggregates[k].expression) == unplaced(aggregate),
        forall|j: int|
            0 <= j < k ==> unplaced((#[trigger] row.aggregates[j]).expression) != unplaced(
                aggregate,
            ),
    ensures
        computed_among(row.aggregates, aggregate, i) == Ok::<ValueView, DatabaseErrorKind>(
            row.aggregates[k].value,
        ),
    decreases k - i,
{
    same_expressions_differ_in_place(row.aggregates[i].expression, aggregate);
    if i < k {
        first_computed(row, aggregate, i + 1, k);
    }
}

proof fn none_computed(row: ExecRowView, aggregate: BoundExprView, i: int)
    requires
        0 <= i <= row.aggregates.len(),
        forall|j: int|
            0 <= j < row.aggregates.len() ==> unplaced((#[trigger] row.aggregates[j]).expression)
                != unplaced(aggregate),
    ensures
        computed_among(row.aggregates, aggregate, i) is Err,
    decreases row.aggregates.len() - i,
{
    if i < row.aggregates.len() {
        same_expressions_differ_in_place(row.aggregates[i].expression, aggregate);
        none_computed(row, aggregate, i + 1);
    }
}

/// An aggregate has the value that was computed for it on the group, wherever it stands in
/// the statement, and none where none was computed.
pub proof fn aggregates_are_looked_up(
    meaning: Meaning,
    aggregate: BoundExprView,
    row: ExecRowView,
    parameters: Seq<ValueView>,
)
    requires
        aggregate is Aggregate,
    ensures
        forall|k: int|
            0 <= k < row.aggregates.len() && unplaced((#[trigger] row.aggregates[k]).expression)
                == unplaced(aggregate) && (forall|j: int|
                0 <= j < k ==> unplaced((#[trigger] row.aggregates[j]).expression) != unplaced(
                    aggregate,
                )) ==> evaluated(meaning, aggregate, row, parameters) == Ok::<
                ValueView,
                DatabaseErrorKind,
            >(row.aggregates[k].value),
        (forall|k: int|
            0 <= k < row.aggregates.len() ==> unplaced((#[trigger] row.aggregates[k]).expression)
                != unplaced(aggregate)) ==> evaluated(meaning, aggregate, row, parameters) is Err,
{
    assert forall|k: int|
        0 <= k < row.aggregates.len() && unplaced((#[trigger] row.aggregates[k]).expression)
            == unplaced(aggregate) && (forall|j: int|
            0 <= j < k ==> unplaced((#[trigger] row.aggregates[j]).expression) != unplaced(
                aggregate,
            )) implies evaluated(meaning, aggregate, row, parameters) == Ok::<
        ValueView,
        DatabaseErrorKind,
    >(row.aggregates[k].value) by {
        first_computed(row, aggregate, 0, k);
    }
    if forall|k: int|
        0 <= k < row.aggregates.len() ==> unplaced((#[trigger] row.aggregates[k]).expression)
            != unplaced(aggregate) {
        none_computed(row, aggregate, 0);
    }
}

/// What a comparison says of two values.
pub open spec fn compares(left: ValueView, op: BinaryOp, right: ValueView) -> bool {
    match op {
        BinaryOp::Eq => left == right,
        BinaryOp::NotEq => left != right,
        BinaryOp::Lt => smaller(left, right),
        BinaryOp::LtEq => left == right || smaller(left, right),
        BinaryOp::Gt => smaller(right, left),
        BinaryOp::GtEq => left == right || smaller(right, left),
        _ => false,
    }
}

/// A conjunction or disjunction of truth values, of which `NULL` is the unknown one.
pub open spec fn connected(left: ValueView, op: BinaryOp, right: ValueView) -> ValueView {
    let decisive = ValueView::Bool(op == BinaryOp::Or);
    if left == decisive || right == decisive {
        decisive
    } else if left is Null || right is Null {
        ValueView::Null
    } else {
        ValueView::Bool(op == BinaryOp::And)
    }
}

/// A value is a truth value.
pub open spec fn is_truth(value: ValueView) -> bool {
    value is Bool || value is Null
}

/// The operators over groups: comparisons of values of one type, in which `NULL` makes the
/// answer unknown; `AND`, `OR` and `NOT` in three-valued logic; the sign; and the test for
/// `NULL`, which always answers.
pub proof fn operators_over_groups(
    meaning: Meaning,
    expression: BoundExprView,
    row: ExecRowView,
    parameters: Seq<ValueView>,
)
    requires
        !is_plain(expression),
    ensures
        match expression {
            BoundExprView::Binary { left, op, right, .. } => match (
                evaluated(meaning, *left, row, parameters),
                evaluated(meaning, *right, row, parameters),
            ) {
                (Ok(a), Ok(b)) => {
                    &&& (op == BinaryOp::And || op == BinaryOp::Or) && is_truth(a) && is_truth(b)
                        ==> evaluated(meaning, expression, row, parameters) == Ok::<
                        ValueView,
                        DatabaseErrorKind,
                    >(connected(a, op, b))
                    &&& op != BinaryOp::And && op != BinaryOp::Or && (a is Null || b is Null)
                        ==> evaluated(meaning, expression, row, parameters) == Ok::<
                        ValueView,
                        DatabaseErrorKind,
                    >(ValueView::Null)
                    &&& op != BinaryOp::And && op != BinaryOp::Or && a !is Null && b !is Null
                        ==> if comparable(a, b) {
                        evaluated(meaning, expression, row, parameters) == Ok::<
                            ValueView,
                            DatabaseErrorKind,
                        >(ValueView::Bool(compares(a, op, b)))
                    } else {
                        evaluated(meaning, expression, row, parameters) is Err
                    }
                },
                _ => true,
            },
            BoundExprView::Unary { op, expr, .. } => match evaluated(
                meaning,
                *expr,
                row,
                parameters,
            ) {
                Ok(ValueView::Null) => evaluated(meaning, expression, row, parameters) == Ok::<
                    ValueView,
                    DatabaseErrorKind,
                >(ValueView::Null),
                Ok(ValueView::Bool(value)) => if op == UnaryOp::Not {
                    evaluated(meaning, expression, row, parameters) == Ok::<
                        ValueView,
                        DatabaseErrorKind,
                    >(ValueView::Bool(!value))
                } else {
                    evaluated(meaning, expression, row, parameters) is Err
                },
                Ok(ValueView::Int64(number)) => if op == UnaryOp::Negate && number > i64::MIN {
                    evaluated(meaning, expression, row, parameters) matches Ok(
                        ValueView::Int64(negated),
                    ) && negated + number == 0
                } else {
                    evaluated(meaning, expression, row, parameters) is Err
                },
                _ => evaluated(meaning, expression, row, parameters) is Err,
            },
            BoundExprView::IsNull { expr, negated, .. } => match evaluated(
                meaning,
                *expr,
                row,
                parameters,
            ) {
                Ok(value) => evaluated(meaning, expression, row, parameters) == Ok::<
                    ValueView,
                    DatabaseErrorKind,
                >(
                    ValueView::Bool(
                        if negated {
                            value !is Null
                        } else {
                            value is Null
                        },
                    ),
                ),
                Err(error) => evaluated(meaning, expression, row, parameters) == Err::<
                    ValueView,
                    DatabaseErrorKind,
                >(error),
            },
            _ => true,
        },
{
    plain_has_no_aggregate(expression);
    if let BoundExprView::Binary { left, op, right, .. } = expression {
        if let (Ok(a), Ok(b)) = (
            evaluated(meaning, *left, row, parameters),
            evaluated(meaning, *right, row, parameters),
        ) {
            if comparable(a, b) && a !is Null && b !is Null {
                crate::db::rows::sorts_before_is_strict(a, b);
                if a != b {
                    different_keys_are_ordered(a, b);
                }
            }
        }
    }
}

} // verus!
