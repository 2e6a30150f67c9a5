//! Statements whose names have been resolved, and the plans of queries.

use vstd::prelude::*;
use crate::model::Model;
use crate::types::{IndexId, Schema, SchemaView, TableId, Value, ValueView};

verus! {

/// A part of a statement's text.
#[derive(Debug, Clone, Copy, PartialEq, Eq, Structural)]
pub struct Span {
    pub start: usize,
    pub end: usize,
}

impl DeepView for Span {
    type V = Span;

    open spec fn deep_view(&self) -> Span {
        *self
    }
}

impl Model for Span {
    fn duplicate(&self) -> (copy: Self) {
        *self
    }

    fn same(&self, other: &Self) -> (equal: bool) {
        *self == *other
    }
}

/// What kind of SQL error it is.
#[derive(Debug, Clone, Copy, PartialEq, Eq, Structural)]
pub enum SqlErrorKind {
    Lex,
    Parse,
    Bind,
    Type,
    Constraint,
    Unsupported,
}

impl DeepView for SqlErrorKind {
    type V = SqlErrorKind;

    open spec fn deep_view(&self) -> SqlErrorKind {
        *self
    }
}

impl Model for SqlErrorKind {
    fn duplicate(&self) -> (copy: Self) {
        *self
    }

    fn same(&self, other: &Self) -> (equal: bool) {
        *self == *other
    }
}

/// A table as statements see it.
#[derive(Debug, Clone, PartialEq, Eq)]
pub struct TableDef {
    pub id: TableId,
    pub name: String,
    pub schema: Schema,
}

/// The content of a [`TableDef`].
#[verifier::ext_equal]
pub struct TableDefView {
    pub id: TableId,
    pub name: Seq<char>,
    pub schema: SchemaView,
}

impl DeepView for TableDef {
    type V = TableDefView;

    open spec fn deep_view(&self) -> TableDefView {
        TableDefView {
            id: self.id.deep_view(),
            name: self.name.deep_view(),
            schema: self.schema.deep_view(),
        }
    }
}

impl Model for TableDef {
    fn duplicate(&self) -> (copy: Self) {
        TableDef {
            id: self.id.duplicate(),
            name: self.name.duplicate(),
            schema: self.schema.duplicate(),
        }
    }

    fn same(&self, other: &Self) -> (equal: bool) {
        self.id.same(&other.id)
            && self.name.same(&other.name)
            && self.schema.same(&other.schema)
    }
}

/// An index as statements see it.
#[derive(Debug, Clone, PartialEq, Eq)]
pub struct IndexDef {
    pub id: IndexId,
    pub name: String,
    pub table_id: TableId,
    pub column_index: usize,
}

/// The content of a [`IndexDef`].
#[verifier::ext_equal]
pub struct IndexDefView {
    pub id: IndexId,
    pub name: Seq<char>,
    pub table_id: TableId,
    pub column_index: usize,
}

impl DeepView for IndexDef {
    type V = IndexDefView;

    open spec fn deep_view(&self) -> IndexDefView {
        IndexDefView {
            id: self.id.deep_view(),
            name: self.name.deep_view(),
            table_id: self.table_id.deep_view(),
            column_index: self.column_index.deep_view(),
        }
    }
}

impl Model for IndexDef {
    fn duplicate(&self) -> (copy: Self) {
        IndexDef {
            id: self.id.duplicate(),
            name: self.name.duplicate(),
            table_id: self.table_id.duplicate(),
            column_index: self.column_index.duplicate(),
        }
    }

    fn same(&self, other: &Self) -> (equal: bool) {
        self.id.same(&other.id)
            && self.name.same(&other.name)
            && self.table_id.same(&other.table_id)
            && self.column_index.same(&other.column_index)
    }
}

/// An operator with one operand.
#[derive(Debug, Clone, Copy, PartialEq, Eq, Structural)]
pub enum UnaryOp {
    Not,
    Negate,
}

impl DeepView for UnaryOp {
    type V = UnaryOp;

    open spec fn deep_view(&self) -> UnaryOp {
        *self
    }
}

impl Model for UnaryOp {
    fn duplicate(&self) -> (copy: Self) {
        *self
    }

    fn same(&self, other: &Self) -> (equal: bool) {
        *self == *other
    }
}

/// An operator with two operands.
#[derive(Debug, Clone, Copy, PartialEq, Eq, Structural)]
pub enum BinaryOp {
    Or,
    And,
    Eq,
    NotEq,
    Lt,
    LtEq,
    Gt,
    GtEq,
}

impl DeepView for BinaryOp {
    type V = BinaryOp;

    open spec fn deep_view(&self) -> BinaryOp {
        *self
    }
}

impl Model for BinaryOp {
    fn duplicate(&self) -> (copy: Self) {
        *self
    }

    fn same(&self, other: &Self) -> (equal: bool) {
        *self == *other
    }
}

/// A function over the rows of a group.
#[derive(Debug, Clone, Copy, PartialEq, Eq, Structural)]
pub enum AggregateFunction {
    Count,
    Sum,
    Min,
    Max,
}

impl DeepView for AggregateFunction {
    type V = AggregateFunction;

    open spec fn deep_view(&self) -> AggregateFunction {
        *self
    }
}

impl Model for AggregateFunction {
    fn duplicate(&self) -> (copy: Self) {
        *self
    }

    fn same(&self, other: &Self) -> (equal: bool) {
        *self == *other
    }
}

/// The direction of a sort.
#[derive(Debug, Clone, Copy, PartialEq, Eq, Structural)]
pub enum OrderDirection {
    Asc,
    Desc,
}

impl DeepView for OrderDirection {
    type V = OrderDirection;

    open spec fn deep_view(&self) -> OrderDirection {
        *self
    }
}

impl Model for OrderDirection {
    fn duplicate(&self) -> (copy: Self) {
        *self
    }

    fn same(&self, other: &Self) -> (equal: bool) {
        *self == *other
    }
}

/// How two inputs are joined.
#[derive(Debug, Clone, Copy, PartialEq, Eq, Structural)]
pub enum JoinAlgorithm {
    NestedLoop,
    Hash,
    IndexNestedLoop,
}

impl DeepView for JoinAlgorithm {
    type V = JoinAlgorithm;

    open spec fn deep_view(&self) -> JoinAlgorithm {
        *self
    }
}

impl Model for JoinAlgorithm {
    fn duplicate(&self) -> (copy: Self) {
        *self
    }

    fn same(&self, other: &Self) -> (equal: bool) {
        *self == *other
    }
}

/// A transaction statement.
#[derive(Debug, Clone, Copy, PartialEq, Eq, Structural)]
pub enum TransactionControl {
    Begin,
    Commit,
    Rollback,
}

impl DeepView for TransactionControl {
    type V = TransactionControl;

    open spec fn deep_view(&self) -> TransactionControl {
        *self
    }
}

impl Model for TransactionControl {
    fn duplicate(&self) -> (copy: Self) {
        *self
    }

    fn same(&self, other: &Self) -> (equal: bool) {
        *self == *other
    }
}
/// An error of the SQL front end.
#[derive(Debug, Clone, PartialEq, Eq)]
pub struct SqlError {
    pub kind: SqlErrorKind,
    pub message: String,
    pub span: Span,
}

/// What a [`SqlError`] says to a program.
pub struct SqlErrorView {
    pub kind: SqlErrorKind,
    pub span: Span,
}

impl DeepView for SqlError {
    type V = SqlErrorView;

    open spec fn deep_view(&self) -> SqlErrorView {
        SqlErrorView { kind: self.kind, span: self.span }
    }
}

/// An expression whose names have been resolved.
#[allow(inconsistent_fields)]
#[derive(Debug, PartialEq, Eq)]
pub enum BoundExpr {
    Literal { value: Value, span: Span },
    Parameter { index: usize, span: Span },
    Column { table_id: TableId, column_index: usize, span: Span },
    Unary { op: UnaryOp, expr: Box<BoundExpr>, span: Span },
    Binary { left: Box<BoundExpr>, op: BinaryOp, right: Box<BoundExpr>, span: Span },
    IsNull { expr: Box<BoundExpr>, negated: bool, span: Span },
    Aggregate { function: AggregateFunction, argument: Option<Box<BoundExpr>>, span: Span },
}

/// The content of a [`BoundExpr`].
#[allow(inconsistent_fields)]
pub enum BoundExprView {
    Literal { value: ValueView, span: Span },
    Parameter { index: usize, span: Span },
    Column { table_id: TableId, column_index: usize, span: Span },
    Unary { op: UnaryOp, expr: Box<BoundExprView>, span: Span },
    Binary { left: Box<BoundExprView>, op: BinaryOp, right: Box<BoundExprView>, span: Span },
    IsNull { expr: Box<BoundExprView>, negated: bool, span: Span },
    Aggregate { function: AggregateFunction, argument: Option<Box<BoundExprView>>, span: Span },
}

impl BoundExpr {
    pub open spec fn content(self) -> BoundExprView
        decreases self,
    {
        match self {
            BoundExpr::Literal { value, span } => BoundExprView::Literal {
                value: value.deep_view(),
                span,
            },
            BoundExpr::Parameter { index, span } => BoundExprView::Parameter { index, span },
            BoundExpr::Column { table_id, column_index, span } => BoundExprView::Column {
                table_id,
                column_index,
                span,
            },
            BoundExpr::Unary { op, expr, span } => BoundExprView::Unary {
                op,
                expr: Box::new(expr.content()),
                span,
            },
            BoundExpr::Binary { left, op, right, span } => BoundExprView::Binary {
                left: Box::new(left.content()),
                op,
                right: Box::new(right.content()),
                span,
            },
            BoundExpr::IsNull { expr, negated, span } => BoundExprView::IsNull {
                expr: Box::new(expr.content()),
                negated,
                span,
            },
            BoundExpr::Aggregate { function, argument, span } => BoundExprView::Aggregate {
                function,
                argument: match argument {
                    Some(argument) => Some(Box::new(argument.content())),
                    None => None,
                },
                span,
            },
        }
    }

    /// An independent expression with the same content.
    fn copied(&self) -> (copy: BoundExpr)
        ensures
            copy.deep_view() == self.deep_view(),
        decreases self,
    {
        match self {
            BoundExpr::Literal { value, span } => BoundExpr::Literal {
                value: value.duplicate(),
                span: *span,
            },
            BoundExpr::Parameter { index, span } => BoundExpr::Parameter {
                index: *index,
                span: *span,
            },
            BoundExpr::Column { table_id, column_index, span } => BoundExpr::Column {
                table_id: *table_id,
                column_index: *column_index,
                span: *span,
            },
            BoundExpr::Unary { op, expr, span } => BoundExpr::Unary {
                op: *op,
                expr: Box::new(expr.copied()),
                span: *span,
            },
            BoundExpr::Binary { left, op, right, span } => BoundExpr::Binary {
                left: Box::new(left.copied()),
                op: *op,
                right: Box::new(right.copied()),
                span: *span,
            },
            BoundExpr::IsNull { expr, negated, span } => BoundExpr::IsNull {
                expr: Box::new(expr.copied()),
                negated: *negated,
                span: *span,
            },
            BoundExpr::Aggregate { function, argument, span } => BoundExpr::Aggregate {
                function: *function,
                argument: match argument {
                    Some(argument) => Some(Box::new(argument.copied())),
                    None => None,
                },
                span: *span,
            },
        }
    }

    /// Whether two expressions have the same content.
    fn equals(&self, other: &BoundExpr) -> (equal: bool)
        ensures
            equal == (self.deep_view() == other.deep_view()),
        decreases self,
    {
        match (self, other) {
            (
                BoundExpr::Literal { value, span },
                BoundExpr::Literal { value: other_value, span: other_span },
            ) => value.same(other_value) && *span == *other_span,
            (
                BoundExpr::Parameter { index, span },
                BoundExpr::Parameter { index: other_index, span: other_span },
            ) => *index == *other_index && *span == *other_span,
            (
                BoundExpr::Column { table_id, column_index, span },
                BoundExpr::Column {
                    table_id: other_table,
                    column_index: other_column,
                    span: other_span,
                },
            ) => *table_id == *other_table && *column_index == *other_column && *span
                == *other_span,
            (
                BoundExpr::Unary { op, expr, span },
                BoundExpr::Unary { op: other_op, expr: other_expr, span: other_span },
            ) => *op == *other_op && *span == *other_span && expr.equals(other_expr),
            (
                BoundExpr::Binary { left, op, right, span },
                BoundExpr::Binary {
                    left: other_left,
                    op: other_op,
                    right: other_right,
                    span: other_span,
                },
            ) => *op == *other_op && *span == *other_span && left.equals(other_left)
                && right.equals(other_right),
            (
                BoundExpr::IsNull { expr, negated, span },
                BoundExpr::IsNull { expr: other_expr, negated: other_negated, span: other_span },
            ) => *negated == *other_negated && *span == *other_span && expr.equals(other_expr),
            (
                BoundExpr::Aggregate { function, argument, span },
                BoundExpr::Aggregate {
                    function: other_function,
                    argument: other_argument,
                    span: other_span,
                },
            ) => *function == *other_function && *span == *other_span && match (
                argument,
                other_argument,
            ) {
                (Some(argument), Some(other_argument)) => argument.equals(other_argument),
                (None, None) => true,
                _ => false,
            },
            _ => false,
        }
    }

    /// Where the expression stands in the statement.
    pub fn span(&self) -> (span: Span)
        ensures
            span == self.deep_view().span(),
    {
        match self {
            BoundExpr::Literal { span, .. } => *span,
            BoundExpr::Parameter { span, .. } => *span,
            BoundExpr::Column { span, .. } => *span,
            BoundExpr::Unary { span, .. } => *span,
            BoundExpr::Binary { span, .. } => *span,
            BoundExpr::IsNull { span, .. } => *span,
            BoundExpr::Aggregate { span, .. } => *span,
        }
    }
}

impl BoundExprView {
    pub open spec fn span(self) -> Span {
        match self {
            BoundExprView::Literal { span, .. } => span,
            BoundExprView::Parameter { span, .. } => span,
            BoundExprView::Column { span, .. } => span,
            BoundExprView::Unary { span, .. } => span,
            BoundExprView::Binary { span, .. } => span,
            BoundExprView::IsNull { span, .. } => span,
            BoundExprView::Aggregate { span, .. } => span,
        }
    }
}

impl DeepView for BoundExpr {
    type V = BoundExprView;

    open spec fn deep_view(&self) -> BoundExprView {
        self.content()
    }
}

impl Model for BoundExpr {
    fn duplicate(&self) -> (copy: Self) {
        self.copied()
    }

    fn same(&self, other: &Self) -> (equal: bool) {
        self.equals(other)
    }
}

impl Clone for BoundExpr {
    fn clone(&self) -> (copy: BoundExpr)
        ensures
            copy.deep_view() == self.deep_view(),
    {
        self.copied()
    }
}

/// One key of a sort.
#[derive(Debug, Clone, PartialEq, Eq)]
pub struct BoundOrder {
    pub expr: BoundExpr,
    pub direction: OrderDirection,
}

/// The content of a [`BoundOrder`].
#[verifier::ext_equal]
pub struct BoundOrderView {
    pub expr: BoundExprView,
    pub direction: OrderDirection,
}

impl DeepView for BoundOrder {
    type V = BoundOrderView;

    open spec fn deep_view(&self) -> BoundOrderView {
        BoundOrderView {
            expr: self.expr.deep_view(),
            direction: self.direction.deep_view(),
        }
    }
}

impl Model for BoundOrder {
    fn duplicate(&self) -> (copy: Self) {
        BoundOrder {
            expr: self.expr.duplicate(),
            direction: self.direction.duplicate(),
        }
    }

    fn same(&self, other: &Self) -> (equal: bool) {
        self.expr.same(&other.expr)
            && self.direction.same(&other.direction)
    }
}

/// A column of a result.
#[derive(Debug, Clone, PartialEq, Eq)]
pub struct OutputColumn {
    pub expr: BoundExpr,
    pub name: String,
}

/// The content of a [`OutputColumn`].
#[verifier::ext_equal]
pub struct OutputColumnView {
    pub expr: BoundExprView,
    pub name: Seq<char>,
}

impl DeepView for OutputColumn {
    type V = OutputColumnView;

    open spec fn deep_view(&self) -> OutputColumnView {
        OutputColumnView {
            expr: self.expr.deep_view(),
            name: self.name.deep_view(),
        }
    }
}

impl Model for OutputColumn {
    fn duplicate(&self) -> (copy: Self) {
        OutputColumn {
            expr: self.expr.duplicate(),
            name: self.name.duplicate(),
        }
    }

    fn same(&self, other: &Self) -> (equal: bool) {
        self.expr.same(&other.expr)
            && self.name.same(&other.name)
    }
}

/// The condition that an index scan looks up.
#[derive(Debug, Clone, PartialEq, Eq)]
pub struct IndexConstraint {
    pub operator: BinaryOp,
    pub value: BoundExpr,
}

/// The content of a [`IndexConstraint`].
#[verifier::ext_equal]
pub struct IndexConstraintView {
    pub operator: BinaryOp,
    pub value: BoundExprView,
}

impl DeepView for IndexConstraint {
    type V = IndexConstraintView;

    open spec fn deep_view(&self) -> IndexConstraintView {
        IndexConstraintView {
            operator: self.operator.deep_view(),
            value: self.value.deep_view(),
        }
    }
}

impl Model for IndexConstraint {
    fn duplicate(&self) -> (copy: Self) {
        IndexConstraint {
            operator: self.operator.duplicate(),
            value: self.value.duplicate(),
        }
    }

    fn same(&self, other: &Self) -> (equal: bool) {
        self.operator.same(&other.operator)
            && self.value.same(&other.value)
    }
}

/// A new value for a column.
#[derive(Debug, Clone, PartialEq, Eq)]
pub struct Assignment {
    pub column: usize,
    pub value: BoundExpr,
}

/// The content of a [`Assignment`].
#[verifier::ext_equal]
pub struct AssignmentView {
    pub column: usize,
    pub value: BoundExprView,
}

impl DeepView for Assignment {
    type V = AssignmentView;

    open spec fn deep_view(&self) -> AssignmentView {
        AssignmentView {
            column: self.column.deep_view(),
            value: self.value.deep_view(),
        }
    }
}

impl Model for Assignment {
    fn duplicate(&self) -> (copy: Self) {
        Assignment {
            column: self.column.duplicate(),
            value: self.value.duplicate(),
        }
    }

    fn same(&self, other: &Self) -> (equal: bool) {
        self.column.same(&other.column)
            && self.value.same(&other.value)
    }
}
/// How a query is carried out.
#[allow(inconsistent_fields)]
#[derive(Debug, PartialEq, Eq)]
pub enum PhysicalPlan {
    SeqScan { table: TableDef },
    IndexScan { table: TableDef, index: IndexDef, constraint: IndexConstraint },
    Filter { input: Box<PhysicalPlan>, predicate: BoundExpr },
    Join {
        left: Box<PhysicalPlan>,
        right: Box<PhysicalPlan>,
        on: BoundExpr,
        algorithm: JoinAlgorithm,
    },
    HashAggregate {
        input: Box<PhysicalPlan>,
        group_by: Vec<BoundExpr>,
        aggregates: Vec<BoundExpr>,
    },
    Sort { input: Box<PhysicalPlan>, order_by: Vec<BoundOrder> },
    Limit { input: Box<PhysicalPlan>, limit: BoundExpr },
    Project { input: Box<PhysicalPlan>, expressions: Vec<OutputColumn> },
}

/// The content of a [`PhysicalPlan`].
#[allow(inconsistent_fields)]
pub enum PhysicalPlanView {
    SeqScan { table: TableDefView },
    IndexScan { table: TableDefView, index: IndexDefView, constraint: IndexConstraintView },
    Filter { input: Box<PhysicalPlanView>, predicate: BoundExprView },
    Join {
        left: Box<PhysicalPlanView>,
        right: Box<PhysicalPlanView>,
        on: BoundExprView,
        algorithm: JoinAlgorithm,
    },
    HashAggregate {
        input: Box<PhysicalPlanView>,
        group_by: Seq<BoundExprView>,
        aggregates: Seq<BoundExprView>,
    },
    Sort { input: Box<PhysicalPlanView>, order_by: Seq<BoundOrderView> },
    Limit { input: Box<PhysicalPlanView>, limit: BoundExprView },
    Project { input: Box<PhysicalPlanView>, expressions: Seq<OutputColumnView> },
}

impl PhysicalPlan {
    pub open spec fn content(self) -> PhysicalPlanView
        decreases self,
    {
        match self {
            PhysicalPlan::SeqScan { table } => PhysicalPlanView::SeqScan {
                table: table.deep_view(),
            },
            PhysicalPlan::IndexScan { table, index, constraint } => PhysicalPlanView::IndexScan {
                table: table.deep_view(),
                index: index.deep_view(),
                constraint: constraint.deep_view(),
            },
            PhysicalPlan::Filter { input, predicate } => PhysicalPlanView::Filter {
                input: Box::new(input.content()),
                predicate: predicate.deep_view(),
            },
            PhysicalPlan::Join { left, right, on, algorithm } => PhysicalPlanView::Join {
                left: Box::new(left.content()),
                right: Box::new(right.content()),
                on: on.deep_view(),
                algorithm,
            },
            PhysicalPlan::HashAggregate { input, group_by, aggregates } => {
                PhysicalPlanView::HashAggregate {
                    input: Box::new(input.content()),
                    group_by: group_by.deep_view(),
                    aggregates: aggregates.deep_view(),
                }
            },
            PhysicalPlan::Sort { input, order_by } => PhysicalPlanView::Sort {
                input: Box::new(input.content()),
                order_by: order_by.deep_view(),
            },
            PhysicalPlan::Limit { input, limit } => PhysicalPlanView::Limit {
                input: Box::new(input.content()),
                limit: limit.deep_view(),
            },
            PhysicalPlan::Project { input, expressions } => PhysicalPlanView::Project {
                input: Box::new(input.content()),
                expressions: expressions.deep_view(),
            },
        }
    }
}

impl DeepView for PhysicalPlan {
    type V = PhysicalPlanView;

    open spec fn deep_view(&self) -> PhysicalPlanView {
        self.content()
    }
}

/// A statement whose names have been resolved.
#[allow(inconsistent_fields)]
#[derive(Debug, PartialEq, Eq)]
pub enum BoundStatement {
    CreateTable { name: String, schema: Schema },
    CreateIndex { name: String, table: TableDef, column_index: usize },
    Insert { table: TableDef, values: Vec<BoundExpr> },
    Update { table: TableDef, assignments: Vec<Assignment>, selection: Option<BoundExpr> },
    Delete { table: TableDef, selection: Option<BoundExpr> },
    Query { output: Vec<OutputColumn> },
    Explain(Box<BoundStatement>),
    Transaction(TransactionControl),
}

/// The content of a [`BoundStatement`].
#[allow(inconsistent_fields)]
pub enum BoundStatementView {
    CreateTable { name: Seq<char>, schema: SchemaView },
    CreateIndex { name: Seq<char>, table: TableDefView, column_index: usize },
    Insert { table: TableDefView, values: Seq<BoundExprView> },
    Update {
        table: TableDefView,
        assignments: Seq<AssignmentView>,
        selection: Option<BoundExprView>,
    },
    Delete { table: TableDefView, selection: Option<BoundExprView> },
    Query { output: Seq<OutputColumnView> },
    Explain(Box<BoundStatementView>),
    Transaction(TransactionControl),
}

impl BoundStatement {
    pub open spec fn content(self) -> BoundStatementView
        decreases self,
    {
        match self {
            BoundStatement::CreateTable { name, schema } => BoundStatementView::CreateTable {
                name: name@,
                schema: schema.deep_view(),
            },
            BoundStatement::CreateIndex { name, table, column_index } => {
                BoundStatementView::CreateIndex {
                    name: name@,
                    table: table.deep_view(),
                    column_index,
                }
            },
            BoundStatement::Insert { table, values } => BoundStatementView::Insert {
                table: table.deep_view(),
                values: values.deep_view(),
            },
            BoundStatement::Update { table, assignments, selection } => BoundStatementView::Update {
                table: table.deep_view(),
                assignments: assignments.deep_view(),
                selection: selection.deep_view(),
            },
            BoundStatement::Delete { table, selection } => BoundStatementView::Delete {
                table: table.deep_view(),
                selection: selection.deep_view(),
            },
            BoundStatement::Query { output } => BoundStatementView::Query {
                output: output.deep_view(),
            },
            BoundStatement::Explain(statement) => BoundStatementView::Explain(
                Box::new(statement.content()),
            ),
            BoundStatement::Transaction(control) => BoundStatementView::Transaction(control),
        }
    }
}

impl DeepView for BoundStatement {
    type V = BoundStatementView;

    open spec fn deep_view(&self) -> BoundStatementView {
        self.content()
    }
}

} // verus!
