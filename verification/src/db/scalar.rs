//! Expressions over rows and the aggregates of their groups.

use std::cmp::Ordering;

use vstd::prelude::*;
use crate::db::error::{DatabaseError, DatabaseErrorKind, Result};
use crate::db::sql::{
    BinaryOp, BoundExpr, BoundExprView, Span, SqlError, SqlErrorKind, SqlErrorView, UnaryOp,
};
use crate::engine::expression::Truth;
use crate::model::{Model, outcome};
use crate::types::{Row, RowView, Value, ValueView, message};

verus! {

broadcast use crate::model::group_contents;

/// The value of an aggregate for a group.
#[derive(Debug, Clone, PartialEq, Eq)]
pub struct Computed {
    pub expression: BoundExpr,
    pub value: Value,
}

/// The content of a [`Computed`].
#[verifier::ext_equal]
pub struct ComputedView {
    pub expression: BoundExprView,
    pub value: ValueView,
}

impl DeepView for Computed {
    type V = ComputedView;

    open spec fn deep_view(&self) -> ComputedView {
        ComputedView {
            expression: self.expression.deep_view(),
            value: self.value.deep_view(),
        }
    }
}

impl Model for Computed {
    fn duplicate(&self) -> (copy: Self) {
        Computed {
            expression: self.expression.duplicate(),
            value: self.value.duplicate(),
        }
    }

    fn same(&self, other: &Self) -> (equal: bool) {
        self.expression.same(&other.expression)
            && self.value.same(&other.value)
    }
}

/// A row under way, with the aggregates of its group.
#[derive(Debug, Clone, PartialEq, Eq)]
pub struct ExecRow {
    pub row: Row,
    pub aggregates: Vec<Computed>,
}

/// The content of a [`ExecRow`].
#[verifier::ext_equal]
pub struct ExecRowView {
    pub row: RowView,
    pub aggregates: Seq<ComputedView>,
}

impl DeepView for ExecRow {
    type V = ExecRowView;

    open spec fn deep_view(&self) -> ExecRowView {
        ExecRowView {
            row: self.row.deep_view(),
            aggregates: self.aggregates.deep_view(),
        }
    }
}

impl Model for ExecRow {
    fn duplicate(&self) -> (copy: Self) {
        ExecRow {
            row: self.row.duplicate(),
            aggregates: self.aggregates.duplicate(),
        }
    }

    fn same(&self, other: &Self) -> (equal: bool) {
        self.row.same(&other.row)
            && self.aggregates.same(&other.aggregates)
    }
}
/// What expressions without aggregates mean: their value on a row, and whether
/// they hold on it as a predicate.
pub struct Meaning {
    pub value: spec_fn(BoundExprView, RowView, Seq<ValueView>) -> std::result::Result<
        ValueView,
        SqlErrorView,
    >,
    pub holds: spec_fn(BoundExprView, RowView, Seq<ValueView>) -> std::result::Result<
        bool,
        SqlErrorView,
    >,
}

/// The functions of the SQL front end that evaluate expressions without
/// aggregates: one for values, one for predicates. Each takes the expression,
/// the row and the parameters of the statement.
pub struct Scalars<E, P> {
    pub evaluate: E,
    pub matches: P,
}

/// `value` can be what `f` returns on arguments of the given content.
pub open spec fn can_return<T: DeepView, F: Fn(&BoundExpr, &Row, &Vec<Value>) -> std::result::Result<
    T,
    SqlError,
>>(
    f: F,
    expression: BoundExprView,
    row: RowView,
    parameters: Seq<ValueView>,
    value: std::result::Result<T::V, SqlErrorView>,
) -> bool {
    exists|e: BoundExpr, r: Row, p: Vec<Value>, returned: std::result::Result<T, SqlError>|
        e.deep_view() == expression && r.deep_view() == row && p.deep_view() == parameters
            && #[trigger] call_ensures(f, (&e, &r, &p), returned) && outcome(returned) == value
}

/// `f` can always be called, and what it returns depends on the content of its
/// arguments alone.
pub open spec fn pure<T: DeepView, F: Fn(&BoundExpr, &Row, &Vec<Value>) -> std::result::Result<
    T,
    SqlError,
>>(f: F) -> bool {
    &&& forall|e: &BoundExpr, r: &Row, p: &Vec<Value>| #[trigger] call_requires(f, (e, r, p))
    &&& forall|
        expression: BoundExprView,
        row: RowView,
        parameters: Seq<ValueView>,
        a: std::result::Result<T::V, SqlErrorView>,
        b: std::result::Result<T::V, SqlErrorView>,
    |
        #[trigger] can_return::<T, F>(f, expression, row, parameters, a)
            && #[trigger] can_return::<T, F>(f, expression, row, parameters, b) ==> a == b
}

impl<
    E: Fn(&BoundExpr, &Row, &Vec<Value>) -> std::result::Result<Value, SqlError>,
    P: Fn(&BoundExpr, &Row, &Vec<Value>) -> std::result::Result<bool, SqlError>,
> Scalars<E, P> {
    /// The functions depend on their arguments alone.
    pub open spec fn sound(self) -> bool {
        pure::<Value, E>(self.evaluate) && pure::<bool, P>(self.matches)
    }

    /// What the functions return.
    pub open spec fn meaning(self) -> Meaning {
        Meaning {
            value: |e: BoundExprView, row: RowView, parameters: Seq<ValueView>|
                choose|value: std::result::Result<ValueView, SqlErrorView>| #[trigger]
                    can_return::<Value, E>(self.evaluate, e, row, parameters, value),
            holds: |e: BoundExprView, row: RowView, parameters: Seq<ValueView>|
                choose|value: std::result::Result<bool, SqlErrorView>| #[trigger]
                    can_return::<bool, P>(self.matches, e, row, parameters, value),
        }
    }

    fn value(&self, expression: &BoundExpr, row: &Row, parameters: &Vec<Value>) -> (result: Result<
        Value,
    >)
        requires
            self.sound(),
        ensures
            outcome(result) == sql_outcome(
                (self.meaning().value)(
                    expression.deep_view(),
                    row.deep_view(),
                    parameters.deep_view(),
                ),
            ),
    {
        let returned = (self.evaluate)(expression, row, parameters);
        proof {
            assert(can_return::<Value, E>(
                self.evaluate,
                expression.deep_view(),
                row.deep_view(),
                parameters.deep_view(),
                outcome(returned),
            ));
        }
        match returned {
            Ok(value) => Ok(value),
            Err(error) => Err(DatabaseError::Sql(error)),
        }
    }

    fn holds(&self, expression: &BoundExpr, row: &Row, parameters: &Vec<Value>) -> (result: Result<
        bool,
    >)
        requires
            self.sound(),
        ensures
            outcome(result) == sql_outcome(
                (self.meaning().holds)(
                    expression.deep_view(),
                    row.deep_view(),
                    parameters.deep_view(),
                ),
            ),
    {
        let returned = (self.matches)(expression, row, parameters);
        proof {
            assert(can_return::<bool, P>(
                self.matches,
                expression.deep_view(),
                row.deep_view(),
                parameters.deep_view(),
                outcome(returned),
            ));
        }
        match returned {
            Ok(value) => Ok(value),
            Err(error) => Err(DatabaseError::Sql(error)),
        }
    }

    /// The value of an expression on a row, with the aggregates of its group.
    pub fn evaluate_exec(
        &self,
        expression: &BoundExpr,
        row: &ExecRow,
        parameters: &Vec<Value>,
    ) -> (result: Result<Value>)
        requires
            self.sound(),
        ensures
            outcome(result) == evaluated(
                self.meaning(),
                expression.deep_view(),
                row.deep_view(),
                parameters.deep_view(),
            ),
        decreases expression,
    {
        if !contains_aggregate(expression) {
            return self.value(expression, &row.row, parameters);
        }
        match expression {
            BoundExpr::Aggregate { .. } => computed_value(&row.aggregates, expression),
            BoundExpr::Unary { op, expr, span } => {
                let value = match self.evaluate_exec(expr, row, parameters) {
                    Ok(value) => value,
                    Err(error) => return Err(error),
                };
                match op {
                    UnaryOp::Not => match truth(&value, *span) {
                        Ok(truth) => Ok(truth.not().into_value()),
                        Err(error) => Err(error),
                    },
                    UnaryOp::Negate => match value {
                        Value::Null => Ok(Value::Null),
                        Value::Int64(number) => if number == i64::MIN {
                            Err(sql_error(SqlErrorKind::Constraint, "INT64 negation overflow", *span))
                        } else {
                            Ok(Value::Int64(-number))
                        },
                        other => Err(type_error("negate", &other, *span)),
                    },
                }
            },
            BoundExpr::Binary { left, op, right, span } => {
                let left_value = match self.evaluate_exec(left, row, parameters) {
                    Ok(value) => value,
                    Err(error) => return Err(error),
                };
                if *op == BinaryOp::And || *op == BinaryOp::Or {
                    let left_truth = match truth(&left_value, *span) {
                        Ok(truth) => truth,
                        Err(error) => return Err(error),
                    };
                    if *op == BinaryOp::And && left_truth == Truth::False {
                        return Ok(Value::Bool(false));
                    }
                    if *op == BinaryOp::Or && left_truth == Truth::True {
                        return Ok(Value::Bool(true));
                    }
                    let right_value = match self.evaluate_exec(right, row, parameters) {
                        Ok(value) => value,
                        Err(error) => return Err(error),
                    };
                    let right_truth = match truth(&right_value, *span) {
                        Ok(truth) => truth,
                        Err(error) => return Err(error),
                    };
                    let joined = if *op == BinaryOp::And {
                        left_truth.and(right_truth)
                    } else {
                        left_truth.or(right_truth)
                    };
                    Ok(joined.into_value())
                } else {
                    let right_value = match self.evaluate_exec(right, row, parameters) {
                        Ok(value) => value,
                        Err(error) => return Err(error),
                    };
                    compare(&left_value, *op, &right_value, *span)
                }
            },
            BoundExpr::IsNull { expr, negated, .. } => {
                match self.evaluate_exec(expr, row, parameters) {
                    Ok(value) => Ok(Value::Bool(value.is_null() != *negated)),
                    Err(error) => Err(error),
                }
            },
            _ => Err(
                invariant_error(
                    "aggregate expression traversal reached an unexpected scalar leaf",
                ),
            ),
        }
    }

    /// Whether a predicate holds on a row, with the aggregates of its group.
    pub fn predicate_exec(
        &self,
        expression: &BoundExpr,
        row: &ExecRow,
        parameters: &Vec<Value>,
    ) -> (result: Result<bool>)
        requires
            self.sound(),
        ensures
            outcome(result) == predicate_holds(
                self.meaning(),
                expression.deep_view(),
                row.deep_view(),
                parameters.deep_view(),
            ),
    {
        if !contains_aggregate(expression) {
            return self.holds(expression, &row.row, parameters);
        }
        let value = match self.evaluate_exec(expression, row, parameters) {
            Ok(value) => value,
            Err(error) => return Err(error),
        };
        match truth(&value, expression.span()) {
            Ok(truth) => Ok(truth.is_true()),
            Err(error) => Err(error),
        }
    }
}

/// A result of the SQL front end as one of the database.
pub open spec fn sql_outcome<T>(result: std::result::Result<T, SqlErrorView>) -> std::result::Result<
    T,
    DatabaseErrorKind,
> {
    match result {
        Ok(value) => Ok(value),
        Err(error) => Err(DatabaseErrorKind::Sql(error)),
    }
}

impl BoundExprView {
    /// An aggregate stands somewhere in the expression.
    pub open spec fn contains_aggregate(self) -> bool
        decreases self,
    {
        match self {
            BoundExprView::Aggregate { .. } => true,
            BoundExprView::Unary { expr, .. } => expr.contains_aggregate(),
            BoundExprView::IsNull { expr, .. } => expr.contains_aggregate(),
            BoundExprView::Binary { left, right, .. } => left.contains_aggregate()
                || right.contains_aggregate(),
            _ => false,
        }
    }

    /// The expressions are the same up to where they stand.
    pub open spec fn same_expression(self, other: BoundExprView) -> bool
        decreases self,
    {
        match (self, other) {
            (
                BoundExprView::Literal { value, .. },
                BoundExprView::Literal { value: other_value, .. },
            ) => value == other_value,
            (
                BoundExprView::Parameter { index, .. },
                BoundExprView::Parameter { index: other_index, .. },
            ) => index == other_index,
            (
                BoundExprView::Column { table_id, column_index, .. },
                BoundExprView::Column { table_id: other_table, column_index: other_column, .. },
            ) => table_id == other_table && column_index == other_column,
            (
                BoundExprView::Unary { op, expr, .. },
                BoundExprView::Unary { op: other_op, expr: other_expr, .. },
            ) => op == other_op && expr.same_expression(*other_expr),
            (
                BoundExprView::Binary { left, op, right, .. },
                BoundExprView::Binary { left: other_left, op: other_op, right: other_right, .. },
            ) => op == other_op && left.same_expression(*other_left) && right.same_expression(
                *other_right,
            ),
            (
                BoundExprView::IsNull { expr, negated, .. },
                BoundExprView::IsNull { expr: other_expr, negated: other_negated, .. },
            ) => negated == other_negated && expr.same_expression(*other_expr),
            (
                BoundExprView::Aggregate { function, argument, .. },
                BoundExprView::Aggregate {
                    function: other_function,
                    argument: other_argument,
                    ..
                },
            ) => function == other_function && match (argument, other_argument) {
                (None, None) => true,
                (Some(argument), Some(other_argument)) => argument.same_expression(
                    *other_argument,
                ),
                _ => false,
            },
            _ => false,
        }
    }
}

/// An expression is the same as itself, wherever it stands.
pub proof fn same_expression_is_reflexive(expression: BoundExprView)
    ensures
        expression.same_expression(expression),
    decreases expression,
{
    match expression {
        BoundExprView::Unary { expr, .. } => same_expression_is_reflexive(*expr),
        BoundExprView::IsNull { expr, .. } => same_expression_is_reflexive(*expr),
        BoundExprView::Binary { left, right, .. } => {
            same_expression_is_reflexive(*left);
            same_expression_is_reflexive(*right);
        },
        BoundExprView::Aggregate { argument: Some(argument), .. } => {
            same_expression_is_reflexive(*argument);
        },
        _ => {},
    }
}

/// The value of the first aggregate from position `i` on that is the same as
/// `expression`.
pub open spec fn computed_among(
    aggregates: Seq<ComputedView>,
    expression: BoundExprView,
    i: int,
) -> std::result::Result<ValueView, DatabaseErrorKind>
    decreases aggregates.len() - i,
{
    if i >= aggregates.len() || i < 0 {
        Err(DatabaseErrorKind::Invariant)
    } else if aggregates[i].expression.same_expression(expression) {
        Ok(aggregates[i].value)
    } else {
        computed_among(aggregates, expression, i + 1)
    }
}

/// The truth value that a value stands for.
pub open spec fn truth_of(value: ValueView, span: Span) -> std::result::Result<
    Truth,
    DatabaseErrorKind,
> {
    match Truth::of(value) {
        Ok(truth) => Ok(truth),
        Err(_) => Err(type_problem(span)),
    }
}

pub open spec fn type_problem(span: Span) -> DatabaseErrorKind {
    DatabaseErrorKind::Sql(SqlErrorView { kind: SqlErrorKind::Type, span })
}

pub open spec fn constraint_problem(span: Span) -> DatabaseErrorKind {
    DatabaseErrorKind::Sql(SqlErrorView { kind: SqlErrorKind::Constraint, span })
}

/// A comparison: unknown if an operand is `NULL`.
pub open spec fn compared_by(left: ValueView, op: BinaryOp, right: ValueView, span: Span) -> std::result::Result<
    ValueView,
    DatabaseErrorKind,
> {
    if left is Null || right is Null {
        Ok(ValueView::Null)
    } else if left.data_type() != right.data_type() {
        Err(type_problem(span))
    } else {
        let less = left.precedes(right);
        let greater = right.precedes(left);
        Ok(
            ValueView::Bool(
                match op {
                    BinaryOp::Eq => !less && !greater,
                    BinaryOp::NotEq => less || greater,
                    BinaryOp::Lt => less,
                    BinaryOp::LtEq => less || !greater,
                    BinaryOp::Gt => !less && greater,
                    BinaryOp::GtEq => !less,
                    _ => false,
                },
            ),
        )
    }
}

/// The value of an expression on a row. Where no aggregate stands in it, the
/// SQL front end decides.
pub open spec fn evaluated(
    meaning: Meaning,
    expression: BoundExprView,
    row: ExecRowView,
    parameters: Seq<ValueView>,
) -> std::result::Result<ValueView, DatabaseErrorKind>
    decreases expression,
{
    if !expression.contains_aggregate() {
        sql_outcome((meaning.value)(expression, row.row, parameters))
    } else {
        match expression {
            BoundExprView::Aggregate { .. } => computed_among(row.aggregates, expression, 0),
            BoundExprView::Unary { op, expr, span } => match evaluated(
                meaning,
                *expr,
                row,
                parameters,
            ) {
                Err(error) => Err(error),
                Ok(value) => match op {
                    UnaryOp::Not => match truth_of(value, span) {
                        Err(error) => Err(error),
                        Ok(truth) => Ok(truth.spec_not().value()),
                    },
                    UnaryOp::Negate => match value {
                        ValueView::Null => Ok(ValueView::Null),
                        ValueView::Int64(number) => if number == i64::MIN {
                            Err(constraint_problem(span))
                        } else {
                            Ok(ValueView::Int64((-number) as i64))
                        },
                        _ => Err(type_problem(span)),
                    },
                },
            },
            BoundExprView::Binary { left, op, right, span } => match evaluated(
                meaning,
                *left,
                row,
                parameters,
            ) {
                Err(error) => Err(error),
                Ok(left_value) => if op == BinaryOp::And || op == BinaryOp::Or {
                    match truth_of(left_value, span) {
                        Err(error) => Err(error),
                        Ok(left_truth) => if op == BinaryOp::And && left_truth == Truth::False {
                            Ok(ValueView::Bool(false))
                        } else if op == BinaryOp::Or && left_truth == Truth::True {
                            Ok(ValueView::Bool(true))
                        } else {
                            match evaluated(meaning, *right, row, parameters) {
                                Err(error) => Err(error),
                                Ok(right_value) => match truth_of(right_value, span) {
                                    Err(error) => Err(error),
                                    Ok(right_truth) => Ok(
                                        if op == BinaryOp::And {
                                            left_truth.spec_and(right_truth).value()
                                        } else {
                                            left_truth.spec_or(right_truth).value()
                                        },
                                    ),
                                },
                            }
                        },
                    }
                } else {
                    match evaluated(meaning, *right, row, parameters) {
                        Err(error) => Err(error),
                        Ok(right_value) => compared_by(left_value, op, right_value, span),
                    }
                },
            },
            BoundExprView::IsNull { expr, negated, .. } => match evaluated(
                meaning,
                *expr,
                row,
                parameters,
            ) {
                Err(error) => Err(error),
                Ok(value) => Ok(ValueView::Bool((value is Null) != negated)),
            },
            _ => Err(DatabaseErrorKind::Invariant),
        }
    }
}

/// Whether a predicate holds on a row.
pub open spec fn predicate_holds(
    meaning: Meaning,
    expression: BoundExprView,
    row: ExecRowView,
    parameters: Seq<ValueView>,
) -> std::result::Result<bool, DatabaseErrorKind> {
    if !expression.contains_aggregate() {
        sql_outcome((meaning.holds)(expression, row.row, parameters))
    } else {
        match evaluated(meaning, expression, row, parameters) {
            Err(error) => Err(error),
            Ok(value) => match truth_of(value, expression.span()) {
                Err(error) => Err(error),
                Ok(truth) => Ok(truth == Truth::True),
            },
        }
    }
}

pub(crate) fn invariant_error(text: &str) -> (error: DatabaseError)
    ensures
        error.deep_view() == DatabaseErrorKind::Invariant,
        error matches DatabaseError::Invariant(words) && words@ == text@,
{
    DatabaseError::Invariant(text.to_owned())
}

pub(crate) fn sql_error(kind: SqlErrorKind, text: &str, span: Span) -> (error: DatabaseError)
    ensures
        error.deep_view() == DatabaseErrorKind::Sql(SqlErrorView { kind, span }),
{
    DatabaseError::Sql(SqlError { kind, message: text.to_owned(), span })
}

pub(crate) fn type_error(operation: &str, value: &Value, span: Span) -> (error: DatabaseError)
    ensures
        error.deep_view() == type_problem(span),
{
    DatabaseError::Sql(
        SqlError {
            kind: SqlErrorKind::Type,
            message: message(&["cannot ", operation, " ", value.sql_type_name()]),
            span,
        },
    )
}

fn truth(value: &Value, span: Span) -> (result: Result<Truth>)
    ensures
        outcome(result) == truth_of(value.deep_view(), span),
{
    match value {
        Value::Bool(true) => Ok(Truth::True),
        Value::Bool(false) => Ok(Truth::False),
        Value::Null => Ok(Truth::Unknown),
        other => Err(type_error("use as a predicate", other, span)),
    }
}

fn compare(left: &Value, op: BinaryOp, right: &Value, span: Span) -> (result: Result<Value>)
    ensures
        outcome(result) == compared_by(left.deep_view(), op, right.deep_view(), span),
{
    let order = match left.checked_cmp(right) {
        Ok(Some(order)) => order,
        Ok(None) => return Ok(Value::Null),
        Err(error) => return Err(
            sql_error(SqlErrorKind::Type, error.describe().as_str(), span),
        ),
    };
    let (less, equal) = match order {
        Ordering::Less => (true, false),
        Ordering::Equal => (false, true),
        Ordering::Greater => (false, false),
    };
    Ok(
        Value::Bool(
            match op {
                BinaryOp::Eq => equal,
                BinaryOp::NotEq => !equal,
                BinaryOp::Lt => less,
                BinaryOp::LtEq => less || equal,
                BinaryOp::Gt => !less && !equal,
                BinaryOp::GtEq => !less,
                _ => false,
            },
        ),
    )
}

/// Whether an aggregate stands somewhere in an expression.
pub fn contains_aggregate(expression: &BoundExpr) -> (found: bool)
    ensures
        found == expression.deep_view().contains_aggregate(),
    decreases expression,
{
    match expression {
        BoundExpr::Aggregate { .. } => true,
        BoundExpr::Unary { expr, .. } => contains_aggregate(expr),
        BoundExpr::IsNull { expr, .. } => contains_aggregate(expr),
        BoundExpr::Binary { left, right, .. } => {
            contains_aggregate(left) || contains_aggregate(right)
        },
        _ => false,
    }
}

/// Whether two expressions are the same up to where they stand.
pub fn same_expression(left: &BoundExpr, right: &BoundExpr) -> (same: bool)
    ensures
        same == left.deep_view().same_expression(right.deep_view()),
    decreases left,
{
    match (left, right) {
        (BoundExpr::Literal { value, .. }, BoundExpr::Literal { value: other_value, .. }) => {
            value.same(other_value)
        },
        (BoundExpr::Parameter { index, .. }, BoundExpr::Parameter { index: other_index, .. }) => {
            *index == *other_index
        },
        (
            BoundExpr::Column { table_id, column_index, .. },
            BoundExpr::Column { table_id: other_table, column_index: other_column, .. },
        ) => *table_id == *other_table && *column_index == *other_column,
        (
            BoundExpr::Unary { op, expr, .. },
            BoundExpr::Unary { op: other_op, expr: other_expr, .. },
        ) => *op == *other_op && same_expression(expr, other_expr),
        (
            BoundExpr::Binary { left, op, right, .. },
            BoundExpr::Binary { left: other_left, op: other_op, right: other_right, .. },
        ) => *op == *other_op && same_expression(left, other_left) && same_expression(
            right,
            other_right,
        ),
        (
            BoundExpr::IsNull { expr, negated, .. },
            BoundExpr::IsNull { expr: other_expr, negated: other_negated, .. },
        ) => *negated == *other_negated && same_expression(expr, other_expr),
        (
            BoundExpr::Aggregate { function, argument, .. },
            BoundExpr::Aggregate { function: other_function, argument: other_argument, .. },
        ) => *function == *other_function && match (argument, other_argument) {
            (None, None) => true,
            (Some(argument), Some(other_argument)) => same_expression(argument, other_argument),
            _ => false,
        },
        _ => false,
    }
}

fn computed_value(aggregates: &Vec<Computed>, expression: &BoundExpr) -> (result: Result<Value>)
    ensures
        outcome(result) == computed_among(aggregates.deep_view(), expression.deep_view(), 0),
{
    let ghost view = aggregates.deep_view();
    let mut i: usize = 0;
    while i < aggregates.len()
        invariant
            i <= aggregates@.len(),
            view == aggregates.deep_view(),
            computed_among(view, expression.deep_view(), 0) == computed_among(
                view,
                expression.deep_view(),
                i as int,
            ),
        decreases aggregates@.len() - i,
    {
        assert(view[i as int] == aggregates@[i as int].deep_view());
        if same_expression(&aggregates[i].expression, expression) {
            return Ok(aggregates[i].value.duplicate());
        }
        i = i + 1;
    }
    Err(invariant_error("aggregate value was not computed"))
}

} // verus!
