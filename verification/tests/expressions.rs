//! Expressions over rows.

use aster::engine::expression::{BinaryOp, Expr, Truth, UnaryOp};
use aster::types::{Row, Value};

#[test]
fn sql_three_valued_logic_and_short_circuiting() {
    assert_eq!(Truth::Unknown.and(Truth::False), Truth::False);
    assert_eq!(Truth::Unknown.or(Truth::True), Truth::True);
    assert_eq!(Truth::Unknown.not(), Truth::Unknown);

    let dangerous = Expr::Binary {
        left: Box::new(Expr::Literal(Value::Int64(1))),
        op: BinaryOp::Divide,
        right: Box::new(Expr::Literal(Value::Int64(0))),
    };
    let expression = Expr::Binary {
        left: Box::new(Expr::Literal(Value::Bool(false))),
        op: BinaryOp::And,
        right: Box::new(dangerous),
    };
    assert_eq!(
        expression.evaluate(&Row { values: vec![] }).unwrap(),
        Value::Bool(false)
    );
}

#[test]
fn null_comparisons_are_unknown_and_is_null_is_boolean() {
    let comparison = Expr::Binary {
        left: Box::new(Expr::Column(0)),
        op: BinaryOp::Eq,
        right: Box::new(Expr::Literal(Value::Int64(1))),
    };
    let row = Row {
        values: vec![Value::Null],
    };
    assert_eq!(comparison.evaluate(&row).unwrap(), Value::Null);
    assert!(!comparison.evaluate_predicate(&row).unwrap());
    let is_null = Expr::Unary {
        op: UnaryOp::IsNull,
        expr: Box::new(Expr::Column(0)),
    };
    assert_eq!(is_null.evaluate(&row).unwrap(), Value::Bool(true));
}
