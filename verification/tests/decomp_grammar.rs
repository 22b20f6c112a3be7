use kiss_conformance::decomp_grammar::{parse_scalar_body, STRUCTURAL_OPS, STRUCTURED_OPS};

#[test]
fn scalar_trees_and_ssa_bodies_parse() {
    assert_eq!(parse_scalar_body("mul(x, add(y, 1.5))"), Ok(()));
    assert_eq!(parse_scalar_body("a = exp(x); b = mul(a, const(f32:3f800000)); div(b, a)"), Ok(()));
    assert_eq!(parse_scalar_body("reduce(x, monoid=sum, axis=K)"), Ok(()));
    assert_eq!(parse_scalar_body("neg(-2)"), Ok(()));
    assert_eq!(parse_scalar_body("f()"), Ok(()));
}

#[test]
fn ssa_violations_are_reported() {
    assert_eq!(
        parse_scalar_body("a = add(a, 1)"),
        Err("`a` references itself or a not-yet-bound name — violates §6.13-0006 SSA".to_string())
    );
    assert_eq!(
        parse_scalar_body("b = a; a = x; b"),
        Err("`a` references itself or a not-yet-bound name — violates §6.13-0006 SSA".to_string())
    );
    assert_eq!(
        parse_scalar_body("a = x; a = y; a"),
        Err("`a` bound more than once — not SSA".to_string())
    );
}

#[test]
fn prose_and_malformed_bodies_are_rejected() {
    assert_eq!(
        parse_scalar_body("index at rank 0 of sort_network"),
        Err("leftover tokens from position 1 — not a scalar-expression body".to_string())
    );
    assert_eq!(
        parse_scalar_body("sum over K: x*y"),
        Err("unexpected character `:` at 10 — prose, not a scalar-expression body".to_string())
    );
    assert_eq!(
        parse_scalar_body("x * y"),
        Err("unexpected character `*` at 2 — prose, not a scalar-expression body".to_string())
    );
    assert_eq!(parse_scalar_body(""), Err("empty body".to_string()));
    assert_eq!(parse_scalar_body("const x"), Err("`const` not followed by `(`".to_string()));
    assert_eq!(parse_scalar_body("const(1"), Err("unbalanced parentheses in `const(...)`".to_string()));
    assert_eq!(parse_scalar_body("f(x"), Err("expected `)`, found None".to_string()));
    assert_eq!(parse_scalar_body("f(x;"), Err("expected `)`, found Some(Semi)".to_string()));
    assert_eq!(parse_scalar_body(")"), Err("expected an expression, found Some(RParen)".to_string()));
    assert_eq!(
        parse_scalar_body("f(k=(1))"),
        Err("keyword-arg value expected, found Some(LParen)".to_string())
    );
}

#[test]
fn structured_ops_name_structural_ops() {
    assert_eq!(STRUCTURED_OPS.len(), 9);
    for (_, target) in STRUCTURED_OPS {
        assert!(STRUCTURAL_OPS.contains(&target));
    }
}
