use compute_mcp::bignat::BigNat;
use compute_mcp::binary64::{bit_length, power_of_two};
use compute_mcp::session::{classify, same_text, step, summarize, Command, Outcome, Summary};
use compute_mcp::{evaluate, evaluate_batch, Binary64, ComputeError, EvaluationResult, Expression};

#[test]
fn lines_are_classified_by_their_trimmed_text() {
    assert_eq!(classify("quit"), Command::Quit);
    assert_eq!(classify("  exit \n"), Command::Quit);
    assert_eq!(classify("help"), Command::Help);
    assert_eq!(classify("\thistory"), Command::History);
    assert_eq!(classify("clear"), Command::Clear);
    assert_eq!(classify(""), Command::Skip);
    assert_eq!(classify(" \t "), Command::Skip);
    assert_eq!(classify("1 + 1"), Command::Evaluate);
    assert_eq!(classify("Quit"), Command::Evaluate);
    assert_eq!(classify("quit now"), Command::Evaluate);
    assert_eq!(classify("helpp"), Command::Evaluate);
}

#[test]
fn texts_are_compared_character_by_character() {
    assert!(same_text("", ""));
    assert!(same_text("abc", "abc"));
    assert!(!same_text("abc", "abd"));
    assert!(!same_text("abc", "ab"));
    assert!(same_text("\u{3000}x", "\u{3000}x"));
    assert!(!same_text("\u{3000}", "\u{3001}"));
}

#[test]
fn a_session_keeps_a_history_of_what_was_evaluated() {
    let mut history: Vec<EvaluationResult> = Vec::new();
    assert_eq!(step(&mut history, "help"), Outcome::Help);
    assert_eq!(step(&mut history, ""), Outcome::Nothing);
    assert_eq!(step(&mut history, "history"), Outcome::History);
    assert!(history.is_empty());

    assert_eq!(step(&mut history, "  1 + 2 "), Outcome::Evaluated);
    assert_eq!(step(&mut history, "1 / 0"), Outcome::Evaluated);
    assert_eq!(step(&mut history, "2 +"), Outcome::Evaluated);
    assert_eq!(history.len(), 3);
    assert_eq!(history[0].expression, "1 + 2");
    assert_eq!(history[0].value, Ok(Binary64::from_bits(3.0f64.to_bits())));
    assert_eq!(history[1].expression, "1 / 0");
    assert_eq!(history[1].value, Err(ComputeError::DivisionByZero));
    assert_eq!(history[2].value, evaluate("2 +"));

    assert_eq!(step(&mut history, "history"), Outcome::History);
    assert_eq!(history.len(), 3);
    assert_eq!(step(&mut history, " clear "), Outcome::Cleared);
    assert!(history.is_empty());
    assert_eq!(step(&mut history, "exit"), Outcome::Quit);
    assert_eq!(step(&mut history, "quit"), Outcome::Quit);
    assert!(history.is_empty());
}

#[test]
fn a_summary_counts_values_and_failures() {
    let results = evaluate_batch(&["1", "1 / 0", "", "2 * 3", "x"]);
    assert_eq!(summarize(&results), Summary { total: 5, successful: 2, failed: 3 });
    assert_eq!(summarize(&Vec::new()), Summary { total: 0, successful: 0, failed: 0 });
    let results = evaluate_batch(&["1", "2"]);
    assert_eq!(summarize(&results), Summary { total: 2, successful: 2, failed: 0 });
}

#[test]
fn expressions_are_never_blank() {
    assert!(Expression::new("").is_none());
    assert!(Expression::new(" \t\r\n").is_none());
    assert!(Expression::new("\u{a0}\u{2009}").is_none());
    let expression = Expression::new("  not even valid  ").unwrap();
    assert_eq!(expression.as_str(), "  not even valid  ");
    assert_eq!(expression.to_string(), "  not even valid  ");
    assert_eq!(expression.clone(), expression);
    assert!(Expression::new("\u{200b}").is_some());
}

#[test]
fn big_numbers_scale_and_compare() {
    let zero = BigNat::zero();
    let five = zero.scaled_plus(0, 5);
    let seven = zero.scaled_plus(7, 7);
    assert!(zero.at_most(&five) && !five.at_most(&zero));
    assert!(five.at_most(&seven) && !seven.at_most(&five));
    assert!(five.at_most(&five) && zero.at_most(&zero));
    // 5 * (2^64 - 1) + (2^64 - 1) = 6 * (2^64 - 1)
    let large = five.scaled_plus(u64::MAX, u64::MAX);
    let same = zero.scaled_plus(0, 6).scaled_plus(u64::MAX, 0);
    assert!(large.at_most(&same) && same.at_most(&large));
    let more = same.scaled_plus(1, 1);
    assert!(large.at_most(&more) && !more.at_most(&large));
    // a number times zero is zero, however many limbs it had
    let none = large.scaled_plus(0, 0);
    assert!(none.at_most(&zero) && zero.at_most(&none));
    // 10^40 by two routes
    let mut by_tens = zero.scaled_plus(0, 1);
    for _ in 0..40 {
        by_tens = by_tens.scaled_plus(10, 0);
    }
    let by_halves = zero
        .scaled_plus(0, 1)
        .scaled_plus(10_000_000_000_000_000_000, 0)
        .scaled_plus(10_000_000_000_000_000_000, 0)
        .scaled_plus(100, 0);
    assert!(by_tens.at_most(&by_halves) && by_halves.at_most(&by_tens));
    assert!(!by_tens.scaled_plus(1, 1).at_most(&by_halves));
}

#[test]
fn powers_of_two_and_bit_lengths() {
    assert_eq!(power_of_two(0), 1);
    assert_eq!(power_of_two(10), 1024);
    assert_eq!(power_of_two(127), 1u128 << 127);
    assert_eq!(bit_length(0), 0);
    assert_eq!(bit_length(1), 1);
    assert_eq!(bit_length(255), 8);
    assert_eq!(bit_length(256), 9);
    assert_eq!(bit_length(u128::MAX), 128);
    for k in 0..128u32 {
        assert_eq!(bit_length(power_of_two(k)), k + 1);
        assert_eq!(bit_length(power_of_two(k) - 1), k);
    }
}
