use compute_mcp::{evaluate, Binary64, Expr};

/// A small deterministic generator of 64-bit patterns.
struct Patterns {
    state: u64,
}

impl Patterns {
    fn next(&mut self) -> u64 {
        self.state ^= self.state << 13;
        self.state ^= self.state >> 7;
        self.state ^= self.state << 17;
        self.state
    }

    /// Bit patterns that visit zeros, subnormals, the ends of the range,
    /// infinities and not-a-numbers often, and values of nearby exponents.
    fn operand(&mut self, near: u64) -> u64 {
        let raw = self.next();
        match raw % 8 {
            0 => raw & 0x800F_FFFF_FFFF_FFFF,
            1 => (raw & 0x800F_FFFF_FFFF_FFFF) | 0x7FE0_0000_0000_0000,
            2 => (raw & 0x8000_0000_0000_0003) | (raw >> 62 << 52),
            3 => {
                let exponent = ((near >> 52) & 0x7FF).wrapping_add(self.next() % 120).wrapping_sub(60) & 0x7FF;
                (raw & 0x800F_FFFF_FFFF_FFFF) | (exponent << 52)
            }
            4 => (raw & 0x8000_0000_0000_0000) | (((raw >> 8) % 3) * 0x3FF8_0000_0000_0000),
            _ => raw,
        }
    }
}

fn same(ours: Binary64, theirs: f64) -> bool {
    if theirs.is_nan() {
        ours.is_nan()
    } else {
        ours.to_bits() == theirs.to_bits()
    }
}

#[test]
fn sums_agree_with_the_hardware() {
    let mut patterns = Patterns { state: 0x9E37_79B9_7F4A_7C15 };
    for _ in 0..200_000 {
        let a = patterns.next();
        let b = patterns.operand(a);
        let ours = Binary64::from_bits(a).plus(Binary64::from_bits(b));
        let theirs = f64::from_bits(a) + f64::from_bits(b);
        assert!(same(ours, theirs), "{:#x} + {:#x}: {:#x} against {:#x}", a, b, ours.to_bits(), theirs.to_bits());
    }
}

#[test]
fn differences_agree_with_the_hardware() {
    let mut patterns = Patterns { state: 0x2545_F491_4F6C_DD1D };
    for _ in 0..200_000 {
        let a = patterns.operand(0x3FF0_0000_0000_0000);
        let b = patterns.operand(a);
        let ours = Binary64::from_bits(a).minus(Binary64::from_bits(b));
        let theirs = f64::from_bits(a) - f64::from_bits(b);
        assert!(same(ours, theirs), "{:#x} - {:#x}: {:#x} against {:#x}", a, b, ours.to_bits(), theirs.to_bits());
    }
}

#[test]
fn products_agree_with_the_hardware() {
    let mut patterns = Patterns { state: 0xD1B5_4A32_D192_ED03 };
    for _ in 0..200_000 {
        let a = patterns.operand(0x3FF0_0000_0000_0000);
        let b = patterns.operand(0x7FE0_0000_0000_0000 - (a & 0x7FF0_0000_0000_0000));
        let ours = Binary64::from_bits(a).times(Binary64::from_bits(b));
        let theirs = f64::from_bits(a) * f64::from_bits(b);
        assert!(same(ours, theirs), "{:#x} * {:#x}: {:#x} against {:#x}", a, b, ours.to_bits(), theirs.to_bits());
    }
}

#[test]
fn quotients_agree_with_the_hardware() {
    let mut patterns = Patterns { state: 0x94D0_49BB_1331_11EB };
    for _ in 0..200_000 {
        let a = patterns.operand(0x3FF0_0000_0000_0000);
        let b = patterns.operand(a);
        let ours = Binary64::from_bits(a).divided_by(Binary64::from_bits(b));
        let theirs = f64::from_bits(a) / f64::from_bits(b);
        assert!(same(ours, theirs), "{:#x} / {:#x}: {:#x} against {:#x}", a, b, ours.to_bits(), theirs.to_bits());
    }
}

#[test]
fn negation_flips_the_sign_of_every_value() {
    let mut patterns = Patterns { state: 0x1234_5678_9ABC_DEF1 };
    for _ in 0..10_000 {
        let a = patterns.operand(0);
        assert_eq!(Binary64::from_bits(a).negated().to_bits(), (-f64::from_bits(a)).to_bits());
    }
    assert_eq!(Binary64::from_bits(0).negated().to_bits(), 0x8000_0000_0000_0000);
}

#[test]
fn literals_round_as_the_standard_library_rounds_them() {
    let mut patterns = Patterns { state: 0x0F0F_1234_5678_9ABD };
    for _ in 0..3_000 {
        let bits = patterns.operand(0x3FF0_0000_0000_0000) & 0x7FFF_FFFF_FFFF_FFFF;
        let value = f64::from_bits(bits);
        if !value.is_finite() {
            continue;
        }
        let text = format!("{}", value);
        let parsed: f64 = text.parse().unwrap();
        let ours = evaluate(&text).unwrap();
        assert_eq!(ours.to_bits(), parsed.to_bits(), "{}", text);
    }
}

#[test]
fn long_literals_round_correctly() {
    let cases = [
        "0.1",
        "0.3",
        "123456789012345678901234567890",
        "0.000000000000000000000000000001",
        "9007199254740993",
        "9007199254740992.5",
        "9007199254740993.0000000000000000000000000000000000000000000000000001",
        "1.00000000000000011102230246251565404236316680908203125",
        "1.00000000000000011102230246251565404236316680908203124",
        "1.00000000000000011102230246251565404236316680908203126",
        "179769313486231570814527423731704356798070567525844996598917476803157260780028538760589558632766878171540458953514382464234321326889464182768467546703537516986049910576551282076245490090389328944075868508455133942304583236903222948165808559332123348274797826204144723168738177180919299881250404026184124858368",
        "179769313486231580793728971405303415079934132710037826936173778980444968292764750946649017977587207096330286416692887910946555547851940402630657488671505820681908902000708383676273854845817711531764475730270069855571366959622842914819860834936475292719074168444365510704342711559699508093042880177904174497791",
        "179769313486231580793728971405303415079934132710037826936173778980444968292764750946649017977587207096330286416692887910946555547851940402630657488671505820681908902000708383676273854845817711531764475730270069855571366959622842914819860834936475292719074168444365510704342711559699508093042880177904174497792",
        "0.000000000000000000000000000000000000000000000000000000000000000000000000000000000000000000000000000000000000000000000000000000000000000000000000000000000000000000000000000000000000000000000000000000000000000000000000000000000000000000000000000000000000000000000000000000000000000000000000000000000000000000000000000000000000000024703282292062327208051222124888168",
        "0.000000000000000000000000000000000000000000000000000000000000000000000000000000000000000000000000000000000000000000000000000000000000000000000000000000000000000000000000000000000000000000000000000000000000000000000000000000000000000000000000000000000000000000000000000000000000000000000000000000000000000000000000000000000000000024703282292062327208051222124888169",
        "0.00000000000000000000000000000000000000000000000000000000000000000000000000000000000000000000000000000000000000000000000000000000000000000000000000000000000000000000000000000000000000000000000000000000000000000000000000000000000000000000000000000000000000000000000000000000000000000000000000000000000000000000000000000000000002",
    ];
    for text in cases {
        let parsed: f64 = text.parse().unwrap();
        let ours = evaluate(text).unwrap();
        assert_eq!(ours.to_bits(), parsed.to_bits(), "{}", text);
    }
}

#[test]
fn a_literal_beyond_the_range_is_infinite() {
    let mut text = String::from("1");
    for _ in 0..400 {
        text.push('0');
    }
    let value = evaluate(&text).unwrap();
    assert_eq!(value.to_bits(), f64::INFINITY.to_bits());
    assert!(!value.is_finite());
    text.push_str("000000000000000000000000000000000000000000000000000000000000");
    for _ in 0..3000 {
        text.push('9');
    }
    assert_eq!(evaluate(&text).unwrap().to_bits(), f64::INFINITY.to_bits());
}

#[test]
fn infinities_cancel_to_a_not_a_number() {
    let mut huge = String::from("1");
    for _ in 0..400 {
        huge.push('0');
    }
    let text = format!("{} - {}", huge, huge);
    let value = evaluate(&text).unwrap();
    assert!(value.is_nan());
    assert_eq!(value.to_bits(), 0x7FF8_0000_0000_0000);
}

/// The value of a tree in the arithmetic of the machine; none where a
/// divisor is zero.
fn native(expr: &Expr) -> Option<f64> {
    Some(match expr {
        Expr::Number(literal) => {
            let mut text = Vec::new();
            literal.write_text(&mut text);
            String::from_utf8(text).unwrap().parse().unwrap()
        }
        Expr::Add(l, r) => native(l)? + native(r)?,
        Expr::Sub(l, r) => native(l)? - native(r)?,
        Expr::Mul(l, r) => native(l)? * native(r)?,
        Expr::Div(l, r) => {
            let divisor = native(r)?;
            if divisor == 0.0 {
                return None;
            }
            native(l)? / divisor
        }
        Expr::Neg(e) => -native(e)?,
    })
}

fn random_expression(patterns: &mut Patterns, depth: u32, out: &mut String) {
    let choice = patterns.next() % 10;
    if depth == 0 || choice < 3 {
        let whole = patterns.next() % 1000;
        match patterns.next() % 4 {
            0 => out.push_str(&format!("{}", whole)),
            1 => out.push_str(&format!("{}.{:03}", whole, patterns.next() % 1000)),
            2 => out.push_str(&format!("0.{:09}", patterns.next() % 1_000_000_000)),
            _ => out.push_str(&format!("{}{:015}", whole, patterns.next() % 1_000_000_000_000_000)),
        }
    } else if choice == 3 {
        out.push('-');
        random_expression(patterns, depth - 1, out);
    } else if choice == 4 {
        out.push_str("( ");
        random_expression(patterns, depth - 1, out);
        out.push(')');
    } else {
        random_expression(patterns, depth - 1, out);
        out.push_str([" + ", "-", " * ", "/", " - ", "\t/\n"][(patterns.next() % 6) as usize]);
        random_expression(patterns, depth - 1, out);
    }
}

#[test]
fn expressions_agree_with_the_arithmetic_of_the_machine() {
    let mut patterns = Patterns { state: 0xA5A5_5A5A_1234_4321 };
    let mut values = 0;
    for _ in 0..5_000 {
        let mut text = String::new();
        random_expression(&mut patterns, 5, &mut text);
        let tree = compute_mcp::parse_expression(&text).unwrap();
        match (evaluate(&text), native(&tree)) {
            (Ok(ours), Some(theirs)) => {
                assert!(same(ours, theirs), "{}: {:#x} against {}", text, ours.to_bits(), theirs);
                values += 1;
            }
            (Err(compute_mcp::ComputeError::DivisionByZero), None) => {}
            (ours, theirs) => panic!("{}: {:?} against {:?}", text, ours, theirs),
        }
    }
    assert!(values > 2_500);
}
