//! The error taxonomy: five kinds, each a value that is returned.

use vstd::prelude::*;
use vstd::string::*;
use crate::printer::{all_text_bytes, ascii_chars, string_of_text};

verus! {

/// What the parser was looking for where it stopped.
#[derive(Debug, Clone, Copy, PartialEq, Eq, Structural)]
pub enum Expected {
    /// A number, an opening parenthesis or a minus sign.
    Operand,
    /// A binary operator, or the end of the input.
    Operator,
    /// The parenthesis that closes an open one.
    ClosingParenthesis,
}

/// Where parsing stopped, and what would have let it go on.
#[derive(Debug, Clone, Copy, PartialEq, Eq, Structural)]
pub struct ParseFailure {
    /// Byte offset into the parsed text. It equals the length of the text
    /// where the text ended too early.
    pub position: usize,
    /// What was expected at that offset.
    pub expected: Expected,
}

/// Why an expression has no value.
#[derive(Debug, PartialEq, Eq)]
pub enum ComputeError {
    /// The text does not conform to the grammar.
    ParseError(ParseFailure),
    /// A number-shaped token has no numeric value. Decimal literals of any
    /// length convert (to infinity where they exceed the range), so the
    /// library itself never reports this kind.
    InvalidNumber(String),
    /// The divisor of a division evaluated to zero.
    DivisionByZero,
    /// A syntax tree that no parse can have produced. Trees are only built
    /// from valid literals, so the library itself never reports this kind.
    InvalidStructure(String),
    /// The text was empty or held only whitespace.
    EmptyExpression,
}

/// The decimal digits of `n`, in ASCII.
pub open spec fn decimal_text(n: nat) -> Seq<u8>
    decreases n,
{
    if n < 10 {
        seq![(48 + n) as u8]
    } else {
        decimal_text(n / 10).push((48 + n % 10) as u8)
    }
}

/// Appends the decimal digits of `n` to `out`.
fn write_decimal(n: usize, out: &mut Vec<u8>)
    requires
        all_text_bytes(old(out)@),
    ensures
        final(out)@ == old(out)@ + decimal_text(n as nat),
        all_text_bytes(final(out)@),
    decreases n,
{
    let ghost before = out@;
    if n >= 10 {
        write_decimal(n / 10, out);
    }
    out.push(48 + (n % 10) as u8);
    assert(out@ =~= before + decimal_text(n as nat));
}

impl Expected {
    /// What was expected, in words.
    pub open spec fn description(self) -> Seq<char> {
        match self {
            Expected::Operand => "a number, '(' or '-'"@,
            Expected::Operator => "an operator or the end of the input"@,
            Expected::ClosingParenthesis => "')'"@,
        }
    }

    /// What was expected, in words.
    pub fn describe(self) -> (r: &'static str)
        ensures
            r@ == self.description(),
    {
        match self {
            Expected::Operand => "a number, '(' or '-'",
            Expected::Operator => "an operator or the end of the input",
            Expected::ClosingParenthesis => "')'",
        }
    }
}

impl ParseFailure {
    /// The message of the failure: what was expected, and the offset.
    pub open spec fn message_text(self) -> Seq<char> {
        "expected "@ + self.expected.description() + " at position "@ + ascii_chars(
            decimal_text(self.position as nat),
        )
    }

    /// The message of the failure: what was expected, and the offset.
    pub fn message(&self) -> (r: String)
        ensures
            r@ == self.message_text(),
    {
        let mut r = String::new();
        r.append("expected ");
        r.append(self.expected.describe());
        r.append(" at position ");
        let mut digits: Vec<u8> = Vec::new();
        write_decimal(self.position, &mut digits);
        let number = string_of_text(&digits);
        r.append(number.as_str());
        proof {
            assert(digits@ =~= decimal_text(self.position as nat));
            assert(r@ =~= self.message_text());
        }
        r
    }
}

impl Clone for ComputeError {
    fn clone(&self) -> (copy: ComputeError)
        ensures
            copy.alike(*self),
    {
        match self {
            ComputeError::ParseError(f) => ComputeError::ParseError(*f),
            ComputeError::InvalidNumber(detail) => ComputeError::InvalidNumber(detail.clone()),
            ComputeError::DivisionByZero => ComputeError::DivisionByZero,
            ComputeError::InvalidStructure(detail) => ComputeError::InvalidStructure(
                detail.clone(),
            ),
            ComputeError::EmptyExpression => ComputeError::EmptyExpression,
        }
    }
}

impl ComputeError {
    /// Whether two errors are of the same kind and say the same: the same
    /// failure for parse errors, the same text where a kind carries one.
    pub open spec fn alike(self, other: ComputeError) -> bool {
        match (self, other) {
            (ComputeError::ParseError(f), ComputeError::ParseError(g)) => f == g,
            (ComputeError::InvalidNumber(a), ComputeError::InvalidNumber(b)) => a@ == b@,
            (ComputeError::DivisionByZero, ComputeError::DivisionByZero) => true,
            (ComputeError::InvalidStructure(a), ComputeError::InvalidStructure(b)) => a@ == b@,
            (ComputeError::EmptyExpression, ComputeError::EmptyExpression) => true,
            _ => false,
        }
    }

    /// The message of the error.
    pub open spec fn message_text(self) -> Seq<char> {
        match self {
            ComputeError::ParseError(f) => f.message_text(),
            ComputeError::InvalidNumber(detail) => detail@,
            ComputeError::DivisionByZero => "Division by zero"@,
            ComputeError::InvalidStructure(detail) => detail@,
            ComputeError::EmptyExpression => "Empty expression"@,
        }
    }

    /// The message of the error, for people to read.
    pub fn message(&self) -> (r: String)
        ensures
            r@ == self.message_text(),
    {
        match self {
            ComputeError::ParseError(f) => f.message(),
            ComputeError::InvalidNumber(detail) => detail.clone(),
            ComputeError::DivisionByZero => "Division by zero".to_owned(),
            ComputeError::InvalidStructure(detail) => detail.clone(),
            ComputeError::EmptyExpression => "Empty expression".to_owned(),
        }
    }
}

} // verus!
