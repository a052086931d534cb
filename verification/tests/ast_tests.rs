use compute_mcp::{parse_expression, ComputeError, Decimal, Expr, Expression};

fn evaluate(text: &str) -> Result<f64, ComputeError> {
    compute_mcp::evaluate(text).map(|value| f64::from_bits(value.to_bits()))
}

fn eval_expr(expr: &Expr) -> Result<f64, ComputeError> {
    compute_mcp::eval_expr(expr).map(|value| f64::from_bits(value.to_bits()))
}

fn value(literal: &Decimal) -> f64 {
    f64::from_bits(literal.to_binary64().to_bits())
}

fn is_number(expr: &Expr, expected: f64) -> bool {
    match expr {
        Expr::Number(n) => value(n) == expected,
        _ => false,
    }
}

fn parse(text: &str) -> Expr {
    parse_expression(Expression::new(text).unwrap().as_str()).unwrap()
}

#[test]
fn test_ast_construction() {
    // Number
    let expr = parse("42");
    match expr {
        Expr::Number(n) => assert_eq!(value(&n), 42.0),
        _ => panic!("Expected Number, got {:?}", expr),
    }

    // Addition
    let expr = parse("2 + 3");
    match expr {
        Expr::Add(left, right) => {
            if !(is_number(&left, 2.0) && is_number(&right, 3.0)) {
                panic!("Expected Add(2, 3)");
            }
        }
        _ => panic!("Expected Add, got {:?}", expr),
    }

    // Nested expression
    let expr = parse("2 + 3 * 4");
    match expr {
        Expr::Add(left, right) => match (left.as_ref(), right.as_ref()) {
            (l, Expr::Mul(ml, mr)) if is_number(l, 2.0) => {
                if !(is_number(ml, 3.0) && is_number(mr, 4.0)) {
                    panic!("Expected Mul(3, 4)");
                }
            }
            _ => panic!("Expected Add(2, Mul(3, 4))"),
        },
        _ => panic!("Expected Add, got {:?}", expr),
    }
}

#[test]
fn test_ast_negation() {
    // Simple negation
    let expr = parse("-5");
    match expr {
        Expr::Neg(inner) => {
            if !is_number(&inner, 5.0) {
                panic!("Expected Neg(5)");
            }
        }
        _ => panic!("Expected Neg, got {:?}", expr),
    }

    // Negation of expression
    let expr = parse("-(2 + 3)");
    match expr {
        Expr::Neg(inner) => match inner.as_ref() {
            Expr::Add(left, right) => {
                if !(is_number(left, 2.0) && is_number(right, 3.0)) {
                    panic!("Expected Add(2, 3) inside Neg");
                }
            }
            _ => panic!("Expected Add inside Neg"),
        },
        _ => panic!("Expected Neg, got {:?}", expr),
    }
}

#[test]
fn test_ast_all_operators() {
    // Test each operator type
    let test_cases = vec![("5 + 3", "Add"), ("5 - 3", "Sub"), ("5 * 3", "Mul"), ("5 / 3", "Div")];

    for (expr_str, expected_op) in test_cases {
        let expr = parse(expr_str);
        let op_name = match expr {
            Expr::Add(_, _) => "Add",
            Expr::Sub(_, _) => "Sub",
            Expr::Mul(_, _) => "Mul",
            Expr::Div(_, _) => "Div",
            _ => "Other",
        };
        assert_eq!(op_name, expected_op, "Failed for expression: {}", expr_str);
    }
}

#[test]
fn test_ast_deeply_nested() {
    // Test deeply nested expression: ((2 + 3) * (4 - 1)) / 5
    let expr = parse("((2 + 3) * (4 - 1)) / 5");

    // Should be: Div(Mul(Add(2, 3), Sub(4, 1)), 5)
    match expr {
        Expr::Div(left, right) => {
            // Right should be 5
            if !is_number(&right, 5.0) {
                panic!("Expected 5 on right of division");
            }

            // Left should be Mul
            match left.as_ref() {
                Expr::Mul(ml, mr) => {
                    // ml should be Add(2, 3)
                    match ml.as_ref() {
                        Expr::Add(al, ar) => {
                            if !(is_number(al, 2.0) && is_number(ar, 3.0)) {
                                panic!("Expected Add(2, 3)");
                            }
                        }
                        _ => panic!("Expected Add on left of Mul"),
                    }

                    // mr should be Sub(4, 1)
                    match mr.as_ref() {
                        Expr::Sub(sl, sr) => {
                            if !(is_number(sl, 4.0) && is_number(sr, 1.0)) {
                                panic!("Expected Sub(4, 1)");
                            }
                        }
                        _ => panic!("Expected Sub on right of Mul"),
                    }
                }
                _ => panic!("Expected Mul on left of Div"),
            }
        }
        _ => panic!("Expected Div at top level"),
    }
}

#[test]
fn test_ast_evaluation_consistency() {
    // Test that AST evaluation matches direct evaluation
    let test_cases = vec![
        "42",
        "-5",
        "2 + 3",
        "10 - 4",
        "3 * 4",
        "15 / 3",
        "2 + 3 * 4",
        "(2 + 3) * 4",
        "-(10 - 15)",
        "((2 + 3) * 4 - 5) / (6 - 1)",
    ];

    for expr_str in test_cases {
        let direct_result = evaluate(expr_str).unwrap();

        let ast = parse(expr_str);
        let ast_result = eval_expr(&ast).unwrap();

        assert_eq!(direct_result, ast_result, "Results differ for expression: {}", expr_str);
    }
}

#[test]
fn test_ast_invalid_structure_errors() {
    // The parser only builds valid trees, so the error path is reached
    // through texts that do not parse. The empty text is no expression
    // value to begin with, so the texts are parsed as they stand.
    let invalid_exprs = vec![
        "",        // Empty
        "2 +",     // Incomplete
        "+ 3",     // Missing left operand
        "2 + + 3", // Double operator
        "(2 + 3",  // Unclosed paren
    ];

    assert!(Expression::new("").is_none());
    for expr_str in invalid_exprs {
        let result = parse_expression(expr_str);
        assert!(result.is_err(), "Expected parse error for: {}", expr_str);
    }
}
