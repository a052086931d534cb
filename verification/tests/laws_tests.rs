use compute_mcp::{evaluate, evaluate_batch, Binary64, ComputeError, Expected, ParseFailure};

fn float(text: &str) -> f64 {
    f64::from_bits(evaluate(text).unwrap().to_bits())
}

#[test]
fn literals_that_the_format_holds_evaluate_to_themselves() {
    for n in 0..3000u32 {
        assert_eq!(float(&n.to_string()), n as f64);
        assert_eq!(float(&format!("{}.0", n)), n as f64);
    }
    for (text, value) in [
        ("0.5", 0.5),
        ("0.25", 0.25),
        ("0.125", 0.125),
        ("1.5", 1.5),
        ("1024.0009765625", 1024.0009765625),
        ("9007199254740992", 9007199254740992.0),
        ("4503599627370496.5", 4503599627370496.5),
        ("0.000030517578125", 0.000030517578125),
    ] {
        assert_eq!(float(text), value);
    }
    assert_eq!(evaluate("1").unwrap(), Binary64::from_bits(0x3FF0_0000_0000_0000));
    assert_eq!(evaluate("0").unwrap(), Binary64::from_bits(0));
    assert_eq!(evaluate("0.1").unwrap(), Binary64::from_bits(0x3FB9_9999_9999_999A));
}

#[test]
fn sums_products_and_quotients_have_exact_bits() {
    assert_eq!(evaluate("0.1 + 0.2").unwrap().to_bits(), 0x3FD3_3333_3333_3334);
    assert_eq!(evaluate("1 / 3").unwrap().to_bits(), 0x3FD5_5555_5555_5555);
    assert_eq!(evaluate("2 / 3").unwrap().to_bits(), 0x3FE5_5555_5555_5555);
    assert_eq!(evaluate("0.1 * 3").unwrap().to_bits(), 0x3FD3_3333_3333_3334);
    assert_eq!(evaluate("1 - 0.9").unwrap().to_bits(), 0x3FB9_9999_9999_9998);
    assert_eq!(evaluate("3 - 3").unwrap().to_bits(), 0);
    assert_eq!(evaluate("-0").unwrap().to_bits(), 0x8000_0000_0000_0000);
    assert_eq!(evaluate("-0 + -0").unwrap().to_bits(), 0x8000_0000_0000_0000);
    assert_eq!(evaluate("-0 + 0").unwrap().to_bits(), 0);
    assert_eq!(evaluate("0 * -1").unwrap().to_bits(), 0x8000_0000_0000_0000);
}

#[test]
fn division_by_any_zero_is_an_error() {
    for text in [
        "5 / 0",
        "(5 - 5) / (3 - 3)",
        "5 / -0",
        "5 / 0.000",
        "0 / 0",
        "1 / (0 * -1)",
        "1 / (2 - 2) + 7",
        "(1 / 0) / 2",
        "-(1 / 0)",
        "2 * (3 / (1 - 1))",
    ] {
        assert_eq!(evaluate(text), Err(ComputeError::DivisionByZero), "{}", text);
    }
    // A quotient that is merely too large is an infinity, not an error.
    let tiny = format!("0.{}1", "0".repeat(320));
    let huge = format!("1{}", "0".repeat(300));
    let quotient = evaluate(&format!("{} / {}", huge, tiny)).unwrap();
    assert_eq!(quotient.to_bits(), f64::INFINITY.to_bits());
    // A divisor that rounds to zero is a zero.
    let below = format!("0.{}1", "0".repeat(400));
    assert_eq!(evaluate(&format!("1 / {}", below)), Err(ComputeError::DivisionByZero));
}

#[test]
fn blank_texts_are_empty_expressions() {
    for text in ["", " ", "   ", "\t\n", "\r\n\r\n", " \t \n "] {
        assert_eq!(evaluate(text), Err(ComputeError::EmptyExpression));
    }
}

#[test]
fn malformed_numbers_are_parse_errors() {
    for text in [".5", "5.", "1.2.3", "1..2", "1.", "0x1F", "1_000"] {
        assert!(matches!(evaluate(text), Err(ComputeError::ParseError(_))), "{}", text);
    }
}

#[test]
fn unmatched_parentheses_are_parse_errors() {
    assert_eq!(
        evaluate("(1 + 2"),
        Err(ComputeError::ParseError(ParseFailure {
            position: 6,
            expected: Expected::ClosingParenthesis
        }))
    );
    assert_eq!(
        evaluate("1 + 2)"),
        Err(ComputeError::ParseError(ParseFailure { position: 5, expected: Expected::Operator }))
    );
}

#[test]
fn a_batch_keeps_its_order_and_isolates_failures() {
    let results = evaluate_batch(&["2+3", "5/0", "3*4"]);
    assert_eq!(results.len(), 3);
    assert_eq!(results[0].expression, "2+3");
    assert_eq!(results[0].value, Ok(Binary64::from_bits(5.0f64.to_bits())));
    assert_eq!(results[1].expression, "5/0");
    assert_eq!(results[1].value, Err(ComputeError::DivisionByZero));
    assert_eq!(results[2].expression, "3*4");
    assert_eq!(results[2].value, Ok(Binary64::from_bits(12.0f64.to_bits())));
}

#[test]
fn a_batch_reports_blank_and_malformed_entries_in_place() {
    let texts = ["  1 + 1  ", "", "oops", "   ", "4 / 2", "4 / 0"];
    let results = evaluate_batch(&texts);
    assert_eq!(results.len(), texts.len());
    for (text, result) in texts.iter().zip(results.iter()) {
        assert_eq!(result.expression, *text);
        assert_eq!(result.value, evaluate(text));
    }
    assert_eq!(results[1].value, Err(ComputeError::EmptyExpression));
    assert!(matches!(results[2].value, Err(ComputeError::ParseError(_))));
    assert_eq!(results[3].value, Err(ComputeError::EmptyExpression));
    assert_eq!(results[5].value, Err(ComputeError::DivisionByZero));
    assert_eq!(evaluate_batch(&[]).len(), 0);
    let copy = results[0].clone();
    assert_eq!(copy, results[0]);
    let copy = results[2].clone();
    assert_eq!(copy, results[2]);
}

#[test]
fn evaluating_again_gives_the_same() {
    for text in ["1 + 2", "0.1 + 0.2", "1 / 0", "", "2 +", "1 / 3 * 3", "-(4 - 5) * 0.25"] {
        let first = evaluate(text);
        let second = evaluate(text);
        assert_eq!(first, second, "{}", text);
    }
}

#[test]
fn negating_twice_gives_the_value_back() {
    for text in ["5", "0", "0.1", "1 / 3", "3 - 3"] {
        assert_eq!(evaluate(&format!("--({})", text)), evaluate(text));
        assert_eq!(evaluate(&format!("-(-({}))", text)), evaluate(text));
    }
}

#[test]
fn messages_name_what_went_wrong() {
    assert_eq!(ComputeError::DivisionByZero.message(), "Division by zero");
    assert_eq!(ComputeError::EmptyExpression.message(), "Empty expression");
    assert_eq!(ComputeError::InvalidNumber("not a number".to_string()).message(), "not a number");
    assert_eq!(
        ComputeError::InvalidStructure("no expression found".to_string()).message(),
        "no expression found"
    );
    assert_eq!(
        ParseFailure { position: 3, expected: Expected::Operand }.message(),
        "expected a number, '(' or '-' at position 3"
    );
    assert_eq!(
        ParseFailure { position: 0, expected: Expected::Operator }.message(),
        "expected an operator or the end of the input at position 0"
    );
    assert_eq!(
        ParseFailure { position: 1234567890, expected: Expected::ClosingParenthesis }.message(),
        "expected ')' at position 1234567890"
    );
    assert_eq!(
        evaluate("2 +").unwrap_err().message(),
        "expected a number, '(' or '-' at position 3"
    );
    assert_eq!(Expected::Operand.describe(), "a number, '(' or '-'");
    let copy = ComputeError::InvalidNumber("x".to_string()).clone();
    assert_eq!(copy, ComputeError::InvalidNumber("x".to_string()));
}

#[test]
fn values_tell_what_they_are() {
    let zero = Binary64::from_bits(0);
    let minus_zero = Binary64::from_bits(0x8000_0000_0000_0000);
    let one = Binary64::from_bits(1.0f64.to_bits());
    let infinity = Binary64::from_bits(f64::INFINITY.to_bits());
    let nan = Binary64::from_bits(f64::NAN.to_bits());
    assert!(zero.is_zero() && minus_zero.is_zero() && !one.is_zero() && !nan.is_zero());
    assert!(zero.is_finite() && one.is_finite() && !infinity.is_finite() && !nan.is_finite());
    assert!(nan.is_nan() && !infinity.is_nan() && !one.is_nan());
    assert!(Binary64::from_bits(0xFFF0_0000_0000_0001).is_nan());
    assert_eq!(one.to_bits(), 0x3FF0_0000_0000_0000);
    assert_eq!(one.bits, 0x3FF0_0000_0000_0000);
    assert_eq!(one.negated().to_bits(), 0xBFF0_0000_0000_0000);
}
