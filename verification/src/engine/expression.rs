//! Scalar expressions with SQL's three-valued logic.

use std::cmp::Ordering;

use vstd::prelude::*;
use crate::engine::error::{EngineError, EngineErrorKind, Result};
use crate::model::{Model, outcome};
use crate::types::{Error, ErrorKind, Row, RowView, Value, ValueView, message};

verus! {

/// A truth value of SQL.
#[derive(Debug, Clone, Copy, PartialEq, Eq, Structural)]
pub enum Truth {
    True,
    False,
    Unknown,
}

impl DeepView for Truth {
    type V = Truth;

    open spec fn deep_view(&self) -> Truth {
        *self
    }
}

impl Model for Truth {
    fn duplicate(&self) -> (copy: Self) {
        *self
    }

    fn same(&self, other: &Self) -> (equal: bool) {
        *self == *other
    }
}

/// An operator with one operand.
#[derive(Debug, Clone, Copy, PartialEq, Eq, Structural)]
pub enum UnaryOp {
    Not,
    Negate,
    IsNull,
}

impl DeepView for UnaryOp {
    type V = UnaryOp;

    open spec fn deep_view(&self) -> UnaryOp {
        *self
    }
}

impl Model for UnaryOp {
    fn duplicate(&self) -> (copy: Self) {
        *self
    }

    fn same(&self, other: &Self) -> (equal: bool) {
        *self == *other
    }
}

/// An operator with two operands.
#[derive(Debug, Clone, Copy, PartialEq, Eq, Structural)]
pub enum BinaryOp {
    Eq,
    NotEq,
    Less,
    LessEq,
    Greater,
    GreaterEq,
    And,
    Or,
    Add,
    Subtract,
    Multiply,
    Divide,
}

impl DeepView for BinaryOp {
    type V = BinaryOp;

    open spec fn deep_view(&self) -> BinaryOp {
        *self
    }
}

impl Model for BinaryOp {
    fn duplicate(&self) -> (copy: Self) {
        *self
    }

    fn same(&self, other: &Self) -> (equal: bool) {
        *self == *other
    }
}

/// An expression over the columns of a row.
#[allow(inconsistent_fields)]
#[derive(Debug, PartialEq, Eq)]
pub enum Expr {
    Column(usize),
    Literal(Value),
    Unary { op: UnaryOp, expr: Box<Expr> },
    Binary { left: Box<Expr>, op: BinaryOp, right: Box<Expr> },
}

/// The content of an [`Expr`].
#[allow(inconsistent_fields)]
pub enum ExprView {
    Column(usize),
    Literal(ValueView),
    Unary { op: UnaryOp, expr: Box<ExprView> },
    Binary { left: Box<ExprView>, op: BinaryOp, right: Box<ExprView> },
}

impl Expr {
    pub open spec fn content(self) -> ExprView
        decreases self,
    {
        match self {
            Expr::Column(index) => ExprView::Column(index),
            Expr::Literal(value) => ExprView::Literal(value.deep_view()),
            Expr::Unary { op, expr } => ExprView::Unary { op, expr: Box::new(expr.content()) },
            Expr::Binary { left, op, right } => ExprView::Binary {
                left: Box::new(left.content()),
                op,
                right: Box::new(right.content()),
            },
        }
    }
}

impl DeepView for Expr {
    type V = ExprView;

    open spec fn deep_view(&self) -> ExprView {
        self.content()
    }
}

impl Expr {
    /// An independent expression with the same content.
    fn copied(&self) -> (copy: Expr)
        ensures
            copy.deep_view() == self.deep_view(),
        decreases self,
    {
        match self {
            Expr::Column(index) => Expr::Column(*index),
            Expr::Literal(value) => Expr::Literal(value.duplicate()),
            Expr::Unary { op, expr } => Expr::Unary { op: *op, expr: Box::new(expr.copied()) },
            Expr::Binary { left, op, right } => Expr::Binary {
                left: Box::new(left.copied()),
                op: *op,
                right: Box::new(right.copied()),
            },
        }
    }
}

impl Expr {
    /// Whether two expressions have the same content.
    fn equals(&self, other: &Expr) -> (equal: bool)
        ensures
            equal == (self.deep_view() == other.deep_view()),
        decreases self,
    {
        match (self, other) {
            (Expr::Column(a), Expr::Column(b)) => *a == *b,
            (Expr::Literal(a), Expr::Literal(b)) => a.same(b),
            (Expr::Unary { op, expr }, Expr::Unary { op: other_op, expr: other_expr }) => *op
                == *other_op && expr.equals(other_expr),
            (
                Expr::Binary { left, op, right },
                Expr::Binary { left: other_left, op: other_op, right: other_right },
            ) => *op == *other_op && left.equals(other_left) && right.equals(other_right),
            _ => false,
        }
    }
}

impl Model for Expr {
    fn duplicate(&self) -> (copy: Self) {
        self.copied()
    }

    fn same(&self, other: &Self) -> (equal: bool) {
        self.equals(other)
    }
}

impl Clone for Expr {
    fn clone(&self) -> (copy: Expr)
        ensures
            copy.deep_view() == self.deep_view(),
    {
        self.copied()
    }
}

impl Truth {
    pub open spec fn spec_not(self) -> Truth {
        match self {
            Truth::True => Truth::False,
            Truth::False => Truth::True,
            Truth::Unknown => Truth::Unknown,
        }
    }

    pub open spec fn spec_and(self, other: Truth) -> Truth {
        if self == Truth::False || other == Truth::False {
            Truth::False
        } else if self == Truth::True && other == Truth::True {
            Truth::True
        } else {
            Truth::Unknown
        }
    }

    pub open spec fn spec_or(self, other: Truth) -> Truth {
        if self == Truth::True || other == Truth::True {
            Truth::True
        } else if self == Truth::False && other == Truth::False {
            Truth::False
        } else {
            Truth::Unknown
        }
    }

    /// The value that stands for a truth value.
    pub open spec fn value(self) -> ValueView {
        match self {
            Truth::True => ValueView::Bool(true),
            Truth::False => ValueView::Bool(false),
            Truth::Unknown => ValueView::Null,
        }
    }

    /// The truth value that a value stands for.
    pub open spec fn of(value: ValueView) -> std::result::Result<Truth, EngineErrorKind> {
        match value {
            ValueView::Bool(b) => Ok(
                if b {
                    Truth::True
                } else {
                    Truth::False
                },
            ),
            ValueView::Null => Ok(Truth::Unknown),
            _ => Err(EngineErrorKind::Core(ErrorKind::Type)),
        }
    }

    pub fn is_true(self) -> (result: bool)
        ensures
            result == (self == Truth::True),
    {
        matches!(self, Truth::True)
    }

    pub fn not(self) -> (result: Truth)
        ensures
            result == self.spec_not(),
    {
        match self {
            Truth::True => Truth::False,
            Truth::False => Truth::True,
            Truth::Unknown => Truth::Unknown,
        }
    }

    pub fn and(self, other: Truth) -> (result: Truth)
        ensures
            result == self.spec_and(other),
    {
        match (self, other) {
            (Truth::False, _) | (_, Truth::False) => Truth::False,
            (Truth::True, Truth::True) => Truth::True,
            _ => Truth::Unknown,
        }
    }

    pub fn or(self, other: Truth) -> (result: Truth)
        ensures
            result == self.spec_or(other),
    {
        match (self, other) {
            (Truth::True, _) | (_, Truth::True) => Truth::True,
            (Truth::False, Truth::False) => Truth::False,
            _ => Truth::Unknown,
        }
    }

    pub fn from_value(value: &Value) -> (result: Result<Truth>)
        ensures
            outcome(result) == Truth::of(value.deep_view()),
    {
        match value {
            Value::Bool(b) => Ok(
                if *b {
                    Truth::True
                } else {
                    Truth::False
                },
            ),
            Value::Null => Ok(Truth::Unknown),
            _ => Err(
                EngineError::Core(
                    Error::Type(message(&["expected BOOL predicate, got ", value.sql_type_name()])),
                ),
            ),
        }
    }

    pub fn into_value(self) -> (value: Value)
        ensures
            value.deep_view() == self.value(),
    {
        match self {
            Truth::True => Value::Bool(true),
            Truth::False => Value::Bool(false),
            Truth::Unknown => Value::Null,
        }
    }
}

/// The result of a comparison whose operands are in order `order`.
pub open spec fn comparison_holds(op: BinaryOp, order: Ordering) -> bool {
    match op {
        BinaryOp::Eq => order is Equal,
        BinaryOp::NotEq => order !is Equal,
        BinaryOp::Less => order is Less,
        BinaryOp::LessEq => order !is Greater,
        BinaryOp::Greater => order is Greater,
        BinaryOp::GreaterEq => order !is Less,
        _ => false,
    }
}

/// A comparison: unknown if an operand is `NULL`.
pub open spec fn compared_value(left: ValueView, op: BinaryOp, right: ValueView) -> std::result::Result<
    ValueView,
    EngineErrorKind,
> {
    match left.compared(right) {
        Err(error) => Err(EngineErrorKind::Core(error)),
        Ok(None) => Ok(ValueView::Null),
        Ok(Some(order)) => Ok(ValueView::Bool(comparison_holds(op, order))),
    }
}

/// Division towards zero.
pub open spec fn truncated_quotient(a: int, b: int) -> int {
    if a >= 0 {
        a / b
    } else {
        -((-a) / b)
    }
}

/// The mathematical result of an arithmetic operator, if it has one.
pub open spec fn arithmetic_int(a: int, op: BinaryOp, b: int) -> Option<int> {
    match op {
        BinaryOp::Add => Some(a + b),
        BinaryOp::Subtract => Some(a - b),
        BinaryOp::Multiply => Some(a * b),
        _ => if b == 0 {
            None
        } else {
            Some(truncated_quotient(a, b))
        },
    }
}

/// Arithmetic: `NULL` if an operand is, an error outside 64 bits.
pub open spec fn arithmetic_value(left: ValueView, op: BinaryOp, right: ValueView) -> std::result::Result<
    ValueView,
    EngineErrorKind,
> {
    match (left, right) {
        (ValueView::Null, _) => Ok(ValueView::Null),
        (_, ValueView::Null) => Ok(ValueView::Null),
        (ValueView::Int64(a), ValueView::Int64(b)) => match arithmetic_int(a as int, op, b as int) {
            Some(x) => if i64::MIN <= x <= i64::MAX {
                Ok(ValueView::Int64(x as i64))
            } else {
                Err(EngineErrorKind::Expression)
            },
            None => Err(EngineErrorKind::Expression),
        },
        _ => Err(EngineErrorKind::Core(ErrorKind::Type)),
    }
}

/// An operator with one operand applied to a value.
pub open spec fn unary_value(op: UnaryOp, value: ValueView) -> std::result::Result<
    ValueView,
    EngineErrorKind,
> {
    match op {
        UnaryOp::Not => match Truth::of(value) {
            Ok(truth) => Ok(truth.spec_not().value()),
            Err(error) => Err(error),
        },
        UnaryOp::IsNull => Ok(ValueView::Bool(value is Null)),
        UnaryOp::Negate => match value {
            ValueView::Null => Ok(ValueView::Null),
            ValueView::Int64(x) => if x == i64::MIN {
                Err(EngineErrorKind::Expression)
            } else {
                Ok(ValueView::Int64((-x) as i64))
            },
            _ => Err(EngineErrorKind::Core(ErrorKind::Type)),
        },
    }
}

/// An operator with two operands applied to values.
pub open spec fn binary_value(left: ValueView, op: BinaryOp, right: ValueView) -> std::result::Result<
    ValueView,
    EngineErrorKind,
> {
    match op {
        BinaryOp::And | BinaryOp::Or => match (Truth::of(left), Truth::of(right)) {
            (Err(error), _) => Err(error),
            (_, Err(error)) => Err(error),
            (Ok(a), Ok(b)) => Ok(
                (if op == BinaryOp::And {
                    a.spec_and(b)
                } else {
                    a.spec_or(b)
                }).value(),
            ),
        },
        BinaryOp::Add | BinaryOp::Subtract | BinaryOp::Multiply | BinaryOp::Divide => {
            arithmetic_value(left, op, right)
        },
        _ => compared_value(left, op, right),
    }
}

impl ExprView {
    /// The value of an expression on a row. `AND` and `OR` do not look at
    /// their right operand when the left one decides.
    pub open spec fn value_on(self, row: RowView) -> std::result::Result<ValueView, EngineErrorKind>
        decreases self,
    {
        match self {
            ExprView::Column(index) => if index < row.values.len() {
                Ok(row.values[index as int])
            } else {
                Err(EngineErrorKind::Expression)
            },
            ExprView::Literal(value) => Ok(value),
            ExprView::Unary { op, expr } => match expr.value_on(row) {
                Err(error) => Err(error),
                Ok(value) => unary_value(op, value),
            },
            ExprView::Binary { left, op, right } => match left.value_on(row) {
                Err(error) => Err(error),
                Ok(a) => if op == BinaryOp::And && Truth::of(a) is Err {
                    Err(Truth::of(a)->Err_0)
                } else if op == BinaryOp::And && Truth::of(a)->Ok_0 == Truth::False {
                    Ok(ValueView::Bool(false))
                } else if op == BinaryOp::Or && Truth::of(a) is Err {
                    Err(Truth::of(a)->Err_0)
                } else if op == BinaryOp::Or && Truth::of(a)->Ok_0 == Truth::True {
                    Ok(ValueView::Bool(true))
                } else {
                    match right.value_on(row) {
                        Err(error) => Err(error),
                        Ok(b) => binary_value(a, op, b),
                    }
                },
            },
        }
    }

    /// Whether a row satisfies a predicate: only if it is true, not if it is
    /// unknown.
    pub open spec fn holds_on(self, row: RowView) -> std::result::Result<bool, EngineErrorKind> {
        match self.value_on(row) {
            Err(error) => Err(error),
            Ok(value) => match Truth::of(value) {
                Err(error) => Err(error),
                Ok(truth) => Ok(truth == Truth::True),
            },
        }
    }
}

impl Expr {
    pub fn evaluate(&self, row: &Row) -> (result: Result<Value>)
        ensures
            outcome(result) == self.deep_view().value_on(row.deep_view()),
        decreases self,
    {
        match self {
            Expr::Column(index) => if *index < row.values.len() {
                Ok(row.values[*index].duplicate())
            } else {
                Err(
                    EngineError::Expression(
                        message(
                            &[
                                "column offset ",
                                index.to_string().as_str(),
                                " is outside a ",
                                row.values.len().to_string().as_str(),
                                "-column row",
                            ],
                        ),
                    ),
                )
            },
            Expr::Literal(value) => Ok(value.duplicate()),
            Expr::Unary { op, expr } => match expr.evaluate(row) {
                Ok(value) => evaluate_unary(*op, value),
                Err(error) => Err(error),
            },
            Expr::Binary { left, op, right } => {
                let left = match left.evaluate(row) {
                    Ok(left) => left,
                    Err(error) => return Err(error),
                };
                if *op == BinaryOp::And {
                    match Truth::from_value(&left) {
                        Ok(Truth::False) => return Ok(Value::Bool(false)),
                        Ok(_) => {},
                        Err(error) => return Err(error),
                    }
                }
                if *op == BinaryOp::Or {
                    match Truth::from_value(&left) {
                        Ok(Truth::True) => return Ok(Value::Bool(true)),
                        Ok(_) => {},
                        Err(error) => return Err(error),
                    }
                }
                match right.evaluate(row) {
                    Ok(right) => evaluate_binary(left, *op, right),
                    Err(error) => Err(error),
                }
            },
        }
    }

    pub fn evaluate_predicate(&self, row: &Row) -> (result: Result<bool>)
        ensures
            outcome(result) == self.deep_view().holds_on(row.deep_view()),
    {
        match self.evaluate(row) {
            Ok(value) => match Truth::from_value(&value) {
                Ok(truth) => Ok(truth.is_true()),
                Err(error) => Err(error),
            },
            Err(error) => Err(error),
        }
    }
}

fn evaluate_unary(op: UnaryOp, value: Value) -> (result: Result<Value>)
    ensures
        outcome(result) == unary_value(op, value.deep_view()),
{
    match op {
        UnaryOp::Not => match Truth::from_value(&value) {
            Ok(truth) => Ok(truth.not().into_value()),
            Err(error) => Err(error),
        },
        UnaryOp::IsNull => Ok(Value::Bool(value.is_null())),
        UnaryOp::Negate => match value {
            Value::Null => Ok(Value::Null),
            Value::Int64(x) => if x == i64::MIN {
                Err(EngineError::Expression("integer overflow during negation".to_owned()))
            } else {
                Ok(Value::Int64(-x))
            },
            other => Err(
                EngineError::Core(Error::Type(message(&["cannot negate ", other.sql_type_name()]))),
            ),
        },
    }
}

fn evaluate_binary(left: Value, op: BinaryOp, right: Value) -> (result: Result<Value>)
    ensures
        outcome(result) == binary_value(left.deep_view(), op, right.deep_view()),
{
    match op {
        BinaryOp::And | BinaryOp::Or => {
            let a = match Truth::from_value(&left) {
                Ok(a) => a,
                Err(error) => return Err(error),
            };
            let b = match Truth::from_value(&right) {
                Ok(b) => b,
                Err(error) => return Err(error),
            };
            if op == BinaryOp::And {
                Ok(a.and(b).into_value())
            } else {
                Ok(a.or(b).into_value())
            }
        },
        BinaryOp::Add | BinaryOp::Subtract | BinaryOp::Multiply | BinaryOp::Divide => arithmetic(
            left,
            op,
            right,
        ),
        _ => compare(&left, op, &right),
    }
}

fn compare(left: &Value, op: BinaryOp, right: &Value) -> (result: Result<Value>)
    ensures
        outcome(result) == compared_value(left.deep_view(), op, right.deep_view()),
{
    let order = match left.checked_cmp(right) {
        Ok(Some(order)) => order,
        Ok(None) => return Ok(Value::Null),
        Err(error) => return Err(EngineError::Core(error)),
    };
    let (less, equal) = match order {
        Ordering::Less => (true, false),
        Ordering::Equal => (false, true),
        Ordering::Greater => (false, false),
    };
    Ok(
        Value::Bool(
            match op {
                BinaryOp::Eq => equal,
                BinaryOp::NotEq => !equal,
                BinaryOp::Less => less,
                BinaryOp::LessEq => less || equal,
                BinaryOp::Greater => !less && !equal,
                BinaryOp::GreaterEq => !less,
                _ => false,
            },
        ),
    )
}

fn arithmetic(left: Value, op: BinaryOp, right: Value) -> (result: Result<Value>)
    ensures
        outcome(result) == arithmetic_value(left.deep_view(), op, right.deep_view()),
{
    match (left, right) {
        (Value::Null, _) | (_, Value::Null) => Ok(Value::Null),
        (Value::Int64(a), Value::Int64(b)) => {
            let exact = match op {
                BinaryOp::Add => a.checked_add(b),
                BinaryOp::Subtract => a.checked_sub(b),
                BinaryOp::Multiply => a.checked_mul(b),
                _ => quotient(a, b),
            };
            match exact {
                Some(x) => Ok(Value::Int64(x)),
                None => Err(
                    EngineError::Expression("integer overflow or division by zero".to_owned()),
                ),
            }
        },
        (left, right) => Err(
            EngineError::Core(
                Error::Type(
                    message(
                        &[
                            "arithmetic requires INT64, got ",
                            left.sql_type_name(),
                            " and ",
                            right.sql_type_name(),
                        ],
                    ),
                ),
            ),
        ),
    }
}

/// Division towards zero, if the divisor is not zero and the quotient fits.
fn quotient(a: i64, b: i64) -> (result: Option<i64>)
    ensures
        match result {
            Some(x) => b != 0 && x == truncated_quotient(a as int, b as int),
            None => b == 0 || !(i64::MIN <= truncated_quotient(a as int, b as int) <= i64::MAX),
        },
{
    if b == 0 {
        return None;
    }
    let dividend: i128 = if a >= 0 {
        a as i128
    } else {
        -(a as i128)
    };
    let divisor: i128 = if b >= 0 {
        b as i128
    } else {
        -(b as i128)
    };
    let size: u128 = dividend as u128 / divisor as u128;
    proof {
        quotient_by_sign(dividend as int, b as int);
        assert(size <= dividend) by (nonlinear_arith)
            requires
                size == dividend as int / divisor as int,
                divisor > 0,
                dividend >= 0,
        ;
    }
    let exact: i128 = if (a >= 0) == (b >= 0) {
        size as i128
    } else {
        -(size as i128)
    };
    if exact >= i64::MIN as i128 && exact <= i64::MAX as i128 {
        Some(exact as i64)
    } else {
        None
    }
}

proof fn quotient_by_sign(n: int, b: int)
    requires
        n >= 0,
        b != 0,
    ensures
        b < 0 ==> n / b == -(n / (-b)),
{
    if b < 0 {
        assert(n / b == -(n / (-b))) by (nonlinear_arith)
            requires
                n >= 0,
                b < 0,
        ;
    }
}

/// De Morgan's laws hold in three-valued logic.
pub proof fn de_morgan(a: Truth, b: Truth)
    ensures
        a.spec_and(b).spec_not() == a.spec_not().spec_or(b.spec_not()),
        a.spec_or(b).spec_not() == a.spec_not().spec_and(b.spec_not()),
{
}

/// Conjunction and disjunction are commutative and associative, and negating
/// twice changes nothing.
pub proof fn truth_algebra(a: Truth, b: Truth, c: Truth)
    ensures
        a.spec_and(b) == b.spec_and(a),
        a.spec_or(b) == b.spec_or(a),
        a.spec_and(b.spec_and(c)) == a.spec_and(b).spec_and(c),
        a.spec_or(b.spec_or(c)) == a.spec_or(b).spec_or(c),
        a.spec_not().spec_not() == a,
{
}

/// A truth value is kept by the value that stands for it.
pub proof fn truth_round_trip(a: Truth)
    ensures
        Truth::of(a.value()) == Ok::<Truth, EngineErrorKind>(a),
{
}

/// A left operand that decides hides the right one: a false conjunct or a
/// true disjunct gives the result whatever the right operand would do.
pub proof fn deciding_operand_short_circuits(
    left: ExprView,
    op: BinaryOp,
    right: ExprView,
    row: RowView,
)
    requires
        op == BinaryOp::And && left.value_on(row) == Ok::<ValueView, EngineErrorKind>(
            ValueView::Bool(false),
        ) || op == BinaryOp::Or && left.value_on(row) == Ok::<ValueView, EngineErrorKind>(
            ValueView::Bool(true),
        ),
    ensures
        (ExprView::Binary { left: Box::new(left), op, right: Box::new(right) }).value_on(row)
            == left.value_on(row),
{
}

/// No row satisfies a comparison with `NULL`.
pub proof fn null_comparison_is_unknown(left: ValueView, op: BinaryOp, right: ValueView)
    requires
        left is Null || right is Null,
    ensures
        compared_value(left, op, right) == Ok::<ValueView, EngineErrorKind>(ValueView::Null),
{
}

} // verus!
