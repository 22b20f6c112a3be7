use kiss_conformance::shape_expr::{eval_dim, Dim, DimValue, ShapeExprError};

fn c(v: i64) -> Box<Dim> {
    Box::new(Dim::Const(v))
}

#[test]
fn concrete_dims_evaluate_with_floor_division() {
    let ops = vec![vec![4, 6]];
    let d = Dim::Div(Box::new(Dim::Mul(Box::new(Dim::Extent { operand: 0, axis: 1 }), c(3))), c(-4));
    assert_eq!(eval_dim(&d, &ops, &[]), Ok(DimValue::Concrete(-5)));
    assert_eq!(eval_dim(&Dim::Div(c(1), c(0)), &ops, &[]), Err(ShapeExprError::DivideByZero));
}

#[test]
fn values_leaving_i64_are_a_decline_not_a_panic() {
    let ops: Vec<Vec<i64>> = Vec::new();
    assert_eq!(eval_dim(&Dim::Add(c(i64::MAX), c(1)), &ops, &[]), Err(ShapeExprError::Overflow));
    assert_eq!(eval_dim(&Dim::Mul(c(1 << 32), c(1 << 32)), &ops, &[]), Err(ShapeExprError::Overflow));
    assert_eq!(eval_dim(&Dim::Div(c(i64::MIN), c(-1)), &ops, &[]), Err(ShapeExprError::Overflow));
    assert_eq!(eval_dim(&Dim::Sub(c(i64::MIN + 1), c(1)), &ops, &[]), Ok(DimValue::Concrete(i64::MIN)));
}
