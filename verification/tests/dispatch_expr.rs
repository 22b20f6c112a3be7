use kiss_conformance::dispatch_expr::{eval, Decline, EvalMode, LaunchScalars};

fn scalars() -> LaunchScalars {
    LaunchScalars {
        rank: 2,
        n: 1000,
        extents: vec![vec![32, 64]],
        strides: vec![vec![64, -1]],
        idx_extents: vec![vec![7, 8, 9]],
        off: vec![5],
        ws_bytes: 4096,
        param: vec![3, 4],
    }
}

#[test]
fn arithmetic_precedence_and_ceil_div() {
    let s = scalars();
    assert_eq!(eval("1 + 2 * 3", &s, EvalMode::Domain), Ok(7));
    assert_eq!(eval("(1 + 2) * 3", &s, EvalMode::Domain), Ok(9));
    assert_eq!(eval("10 - 4 - 3", &s, EvalMode::Domain), Ok(3));
    assert_eq!(eval("ceil_div(n, 256)", &s, EvalMode::Domain), Ok(4));
    assert_eq!(eval("ceil_div(0, 7)", &s, EvalMode::Domain), Ok(0));
    assert_eq!(eval("extents0[1] * strides0[0] + off0", &s, EvalMode::Domain), Ok(64 * 64 + 5));
    assert_eq!(eval("idx_extents0[2] + param1 + ws_bytes", &s, EvalMode::Domain), Ok(9 + 4 + 4096));
    assert_eq!(eval("7 / 2", &s, EvalMode::Domain), Ok(3));
    assert_eq!(eval("strides0[1] * 7 / 2", &s, EvalMode::Structure), Ok(-3));
    assert_eq!(eval("ceil_div(strides0[1] - 4, 2)", &s, EvalMode::Structure), Ok(-2));
}

#[test]
fn vocabulary_declines() {
    let s = scalars();
    assert_eq!(eval("bogus", &s, EvalMode::Domain), Err(Decline::UnknownSymbol("bogus".to_string())));
    assert_eq!(eval("n[0]", &s, EvalMode::Domain), Err(Decline::SubscriptOfScalar("n".to_string())));
    assert_eq!(eval("extents0", &s, EvalMode::Domain), Err(Decline::BareArraySymbol("extents0".to_string())));
    assert_eq!(
        eval("extents0[2]", &s, EvalMode::Domain),
        Err(Decline::SubscriptOutOfBounds { sym: "extents0".to_string(), k: 2, rank: 2 })
    );
    assert_eq!(
        eval("idx_extents0[3]", &s, EvalMode::Domain),
        Err(Decline::SubscriptOutOfBounds { sym: "idx_extents0".to_string(), k: 3, rank: 3 })
    );
    assert_eq!(eval("off1", &s, EvalMode::Domain), Err(Decline::UnknownSymbol("off1".to_string())));
    assert_eq!(eval("extents9[0]", &s, EvalMode::Domain), Err(Decline::UnknownSymbol("extents9".to_string())));
}

#[test]
fn malformed_input_declines_with_its_reason() {
    let s = scalars();
    assert_eq!(eval("1 $ 2", &s, EvalMode::Domain), Err(Decline::ParseError("unexpected character `$`".to_string())));
    assert_eq!(eval("(1 + 2", &s, EvalMode::Domain), Err(Decline::ParseError("expected RParen, found End".to_string())));
    assert_eq!(eval("1 2", &s, EvalMode::Domain), Err(Decline::ParseError("trailing input at token Int(2)".to_string())));
    assert_eq!(eval("", &s, EvalMode::Domain), Err(Decline::ParseError("unexpected token End".to_string())));
    assert_eq!(
        eval("extents0[n]", &s, EvalMode::Domain),
        Err(Decline::ParseError("expected a non-negative integer subscript after `extents0[`, found Ident(\"n\")".to_string()))
    );
    assert_eq!(
        eval("ceil_div(1 2)", &s, EvalMode::Domain),
        Err(Decline::ParseError("expected Comma, found Int(2)".to_string()))
    );
    assert_eq!(eval("4 / 0", &s, EvalMode::Domain), Err(Decline::ParseError("division by zero".to_string())));
    assert_eq!(
        eval("ceil_div(4, 0 - 2)", &s, EvalMode::Structure),
        Err(Decline::ParseError("ceil_div divisor must be positive, got -2".to_string()))
    );
    assert_eq!(
        eval("99999999999999999999", &s, EvalMode::Domain),
        Err(Decline::ParseError("bad integer literal `99999999999999999999`".to_string()))
    );
}

#[test]
fn domain_mode_rejects_any_negative_sub_expression() {
    let s = scalars();
    assert_eq!(eval("strides0[1]", &s, EvalMode::Domain), Err(Decline::NegativeInDomain(-1)));
    assert_eq!(eval("strides0[1]", &s, EvalMode::Structure), Ok(-1));
    // the intermediate 1 - 2 is negative even though the whole is not
    assert_eq!(eval("(1 - 2) * (0 - 3)", &s, EvalMode::Domain), Err(Decline::NegativeInDomain(-1)));
    assert_eq!(eval("(1 - 2) * (0 - 3)", &s, EvalMode::Structure), Ok(3));
}

#[test]
fn arithmetic_leaving_i64_is_a_decline_not_a_panic() {
    let s = scalars();
    let overflow = Err(Decline::ParseError("arithmetic overflows i64".to_string()));
    assert_eq!(eval("9223372036854775807 + 1", &s, EvalMode::Structure), overflow);
    assert_eq!(eval("0 - 9223372036854775807 - 2", &s, EvalMode::Structure), overflow);
    assert_eq!(eval("4294967296 * 4294967296", &s, EvalMode::Structure), overflow);
    assert_eq!(eval("ceil_div(9223372036854775807, 2)", &s, EvalMode::Structure), overflow);
    assert_eq!(eval("(0 - 9223372036854775807 - 1) / (0 - 1)", &s, EvalMode::Structure), overflow);
    assert_eq!(eval("9223372036854775807 - 1", &s, EvalMode::Structure), Ok(i64::MAX - 1));
}
