use compute_mcp::{
    parse_expression, ComputeError, ComputeParser, Decimal, Expected, Expr, ParseFailure,
};

fn evaluate(text: &str) -> Result<f64, ComputeError> {
    compute_mcp::evaluate(text).map(|value| f64::from_bits(value.to_bits()))
}

fn number(text: &str) -> Expr {
    Expr::Number(Decimal::from_text(text).unwrap())
}

fn failure(text: &str) -> ParseFailure {
    match parse_expression(text) {
        Err(ComputeError::ParseError(f)) => f,
        other => panic!("{:?} should not parse, got {:?}", text, other),
    }
}

#[test]
fn a_missing_operand_is_reported_where_it_is_missing() {
    assert_eq!(failure("2 +"), ParseFailure { position: 3, expected: Expected::Operand });
    assert_eq!(failure("2 + * 3"), ParseFailure { position: 4, expected: Expected::Operand });
    assert_eq!(failure(""), ParseFailure { position: 0, expected: Expected::Operand });
    assert_eq!(failure("   "), ParseFailure { position: 3, expected: Expected::Operand });
    assert_eq!(failure("()"), ParseFailure { position: 1, expected: Expected::Operand });
    assert_eq!(failure("-"), ParseFailure { position: 1, expected: Expected::Operand });
    assert_eq!(failure("abc"), ParseFailure { position: 0, expected: Expected::Operand });
    assert_eq!(failure(".5"), ParseFailure { position: 0, expected: Expected::Operand });
}

#[test]
fn a_missing_operator_is_reported_where_it_is_missing() {
    assert_eq!(failure("2 3"), ParseFailure { position: 2, expected: Expected::Operator });
    assert_eq!(failure("1 + 2)"), ParseFailure { position: 5, expected: Expected::Operator });
    assert_eq!(failure("5."), ParseFailure { position: 1, expected: Expected::Operator });
    assert_eq!(failure("1.2.3"), ParseFailure { position: 3, expected: Expected::Operator });
    assert_eq!(failure("1e10"), ParseFailure { position: 1, expected: Expected::Operator });
    assert_eq!(failure("2(3)"), ParseFailure { position: 1, expected: Expected::Operator });
    assert_eq!(failure("2 ^ 3"), ParseFailure { position: 2, expected: Expected::Operator });
}

#[test]
fn an_open_parenthesis_is_reported_where_it_should_close() {
    assert_eq!(
        failure("(1 + 2"),
        ParseFailure { position: 6, expected: Expected::ClosingParenthesis }
    );
    assert_eq!(
        failure("((1 + 2) 3"),
        ParseFailure { position: 9, expected: Expected::ClosingParenthesis }
    );
}

#[test]
fn evaluate_reports_offsets_in_the_trimmed_text() {
    match compute_mcp::evaluate("   2 +   ") {
        Err(ComputeError::ParseError(f)) => {
            assert_eq!(f, ParseFailure { position: 3, expected: Expected::Operand })
        }
        other => panic!("unexpected {:?}", other),
    }
}

#[test]
fn chains_group_to_the_left() {
    assert_eq!(
        parse_expression("10 - 5 - 2").unwrap(),
        Expr::Sub(
            Box::new(Expr::Sub(Box::new(number("10")), Box::new(number("5")))),
            Box::new(number("2"))
        )
    );
    assert_eq!(
        parse_expression("20 / 4 / 2").unwrap(),
        Expr::Div(
            Box::new(Expr::Div(Box::new(number("20")), Box::new(number("4")))),
            Box::new(number("2"))
        )
    );
    assert_eq!(
        parse_expression("1 - 2 + 3").unwrap(),
        Expr::Add(
            Box::new(Expr::Sub(Box::new(number("1")), Box::new(number("2")))),
            Box::new(number("3"))
        )
    );
    assert_eq!(evaluate("10 - 5 - 2").unwrap(), 3.0);
    assert_eq!(evaluate("20 / 4 / 2").unwrap(), 2.5);
}

#[test]
fn multiplication_binds_tighter_than_addition() {
    assert_eq!(
        parse_expression("2 * 3 + 4").unwrap(),
        Expr::Add(
            Box::new(Expr::Mul(Box::new(number("2")), Box::new(number("3")))),
            Box::new(number("4"))
        )
    );
    assert_eq!(evaluate("2 + 3 * 4").unwrap(), 14.0);
    assert_eq!(evaluate("2 * 3 + 4").unwrap(), 10.0);
    assert_eq!(evaluate("(2 + 3) * 4").unwrap(), 20.0);
}

#[test]
fn minus_signs_stack() {
    assert_eq!(
        parse_expression("- - 5").unwrap(),
        Expr::Neg(Box::new(Expr::Neg(Box::new(number("5")))))
    );
    assert_eq!(
        parse_expression("2 - -3").unwrap(),
        Expr::Sub(Box::new(number("2")), Box::new(Expr::Neg(Box::new(number("3")))))
    );
    assert_eq!(
        parse_expression("-2 * 3").unwrap(),
        Expr::Mul(Box::new(Expr::Neg(Box::new(number("2")))), Box::new(number("3")))
    );
    assert_eq!(evaluate("--5").unwrap(), 5.0);
    assert_eq!(evaluate("---5").unwrap(), -5.0);
}

#[test]
fn whitespace_of_the_grammar_is_four_bytes() {
    assert_eq!(parse_expression(" \t\r\n1 \t\r\n").unwrap(), number("1"));
    // A vertical tab is whitespace at the ends of a text, not inside it.
    assert_eq!(evaluate("\u{b}2 + 3\u{c}").unwrap(), 5.0);
    assert!(matches!(evaluate("2\u{b}+ 3"), Err(ComputeError::ParseError(_))));
    assert!(matches!(parse_expression("\u{b}2"), Err(ComputeError::ParseError(_))));
}

#[test]
fn the_ends_of_a_text_are_trimmed_of_all_unicode_whitespace() {
    assert_eq!(evaluate("\u{a0}1 + 1\u{3000}").unwrap(), 2.0);
    assert_eq!(evaluate("\u{2003}\u{85}7\u{2028}\u{1680}").unwrap(), 7.0);
    assert!(matches!(evaluate("\u{2003}"), Err(ComputeError::EmptyExpression)));
    assert!(matches!(evaluate("\u{a0} \u{205f}\t"), Err(ComputeError::EmptyExpression)));
    match compute_mcp::evaluate("1\u{a0}+ 1") {
        Err(ComputeError::ParseError(f)) => {
            assert_eq!(f, ParseFailure { position: 1, expected: Expected::Operator })
        }
        other => panic!("unexpected {:?}", other),
    }
    // A zero-width space is no whitespace.
    assert!(matches!(evaluate("\u{200b}"), Err(ComputeError::ParseError(_))));
}

#[test]
fn the_parser_takes_any_bytes() {
    assert_eq!(
        ComputeParser::parse(&[0xFF, 0xFE]),
        Err(ParseFailure { position: 0, expected: Expected::Operand })
    );
    assert_eq!(
        ComputeParser::parse(b"1 + \x80"),
        Err(ParseFailure { position: 4, expected: Expected::Operand })
    );
    assert_eq!(ComputeParser::parse(b"(1)").unwrap(), number("1"));
    let mut state: u32 = 12345;
    for _ in 0..2000 {
        let mut bytes = Vec::new();
        for _ in 0..(state % 24) {
            state = state.wrapping_mul(1664525).wrapping_add(1013904223);
            let alphabet = b"0123456789.+-*/() \t\n\rxe";
            bytes.push(alphabet[(state >> 16) as usize % alphabet.len()]);
        }
        state = state.wrapping_mul(1664525).wrapping_add(1013904223);
        match ComputeParser::parse(&bytes) {
            Ok(tree) => {
                // what parses prints to a text that parses to the same tree
                assert_eq!(ComputeParser::parse(&tree.to_bytes()).unwrap(), tree);
            }
            Err(f) => assert!(f.position <= bytes.len()),
        }
    }
}

#[test]
fn literals_are_canonical() {
    assert_eq!(Decimal::from_text("1.50"), Decimal::from_text("1.5"));
    assert_eq!(Decimal::from_text("007"), Decimal::from_text("7"));
    assert_eq!(Decimal::from_text("0.0"), Decimal::from_text("0"));
    assert_eq!(Decimal::from_text("000.000"), Decimal::from_text("0"));
    assert_eq!(Decimal::from_text("10.0"), Decimal::from_text("10"));
    assert_ne!(Decimal::from_text("10"), Decimal::from_text("1"));
    assert_ne!(Decimal::from_text("0.1"), Decimal::from_text("0.01"));
    assert_ne!(Decimal::from_text("0.1"), Decimal::from_text("1"));
    assert_eq!(parse_expression("2.0").unwrap(), parse_expression("2").unwrap());
}

#[test]
fn only_whole_numbers_of_the_grammar_are_literals() {
    for text in ["42", "3.14", "0", "0.5", "000", "12345678901234567890.000000001"] {
        assert!(Decimal::from_text(text).is_some(), "{}", text);
    }
    for text in ["", "5.", ".5", "1.2.3", "-1", " 1", "1 ", "1e3", "+1", "1,0", "0x10", "."] {
        assert!(Decimal::from_text(text).is_none(), "{}", text);
    }
}

#[test]
fn literals_print_in_plain_decimal_notation() {
    for (text, printed) in [
        ("42", "42"),
        ("0", "0"),
        ("0.0", "0"),
        ("0.5", "0.5"),
        ("00.50", "0.5"),
        ("100", "100"),
        ("100.001", "100.001"),
        ("0.001", "0.001"),
        ("0.00100", "0.001"),
        ("12.340", "12.34"),
        ("123456789012345678901234567890.5", "123456789012345678901234567890.5"),
    ] {
        let literal = Decimal::from_text(text).unwrap();
        let mut out = Vec::new();
        literal.write_text(&mut out);
        assert_eq!(String::from_utf8(out).unwrap(), printed);
        assert_eq!(number(text).to_string(), printed);
        assert_eq!(Decimal::from_text(printed).unwrap(), literal);
    }
}

#[test]
fn printing_and_parsing_are_inverse() {
    for text in [
        "1",
        "-1",
        "1 + 2",
        "1 - 2 - 3",
        "1 - (2 - 3)",
        "2 * (3 + 4) / -5",
        "-(-(1.5))",
        "((((7))))",
        "0.001 * 1000 + 0 / 3.50",
        " 1\t+\n2 ",
        "1 / 0",
    ] {
        let tree = parse_expression(text).unwrap();
        let printed = tree.to_string();
        assert_eq!(printed.as_bytes(), &tree.to_bytes()[..]);
        let again = parse_expression(&printed).unwrap();
        assert_eq!(again, tree, "{} printed as {}", text, printed);
        assert_eq!(again.to_string(), printed);
        assert_eq!(
            compute_mcp::evaluate(text),
            compute_mcp::evaluate(&printed),
            "{} printed as {}",
            text,
            printed
        );
    }
    assert_eq!(parse_expression("1 - 2 - 3").unwrap().to_string(), "((1 - 2) - 3)");
    assert_eq!(parse_expression("2 * (3 + 4) / -5").unwrap().to_string(), "((2 * (3 + 4)) / -5)");
}

#[test]
fn a_copy_of_a_tree_is_the_tree() {
    let tree = parse_expression("1 + 2 * -(3.5 - 4) / 5").unwrap();
    assert_eq!(tree.clone(), tree);
}
