//! The grammar, as mathematical functions on the bytes of a text.
//!
//! ```text
//! expression     := additive
//! additive       := multiplicative (('+' | '-') multiplicative)*
//! multiplicative := unary (('*' | '/') unary)*
//! unary          := '-' unary | primary
//! primary        := number | '(' additive ')'
//! number         := digit+ ('.' digit+)?
//! ```
//!
//! Space, tab, line feed and carriage return may stand between any two
//! tokens, before the first and after the last. Both binary levels associate
//! to the left. Scientific notation is not part of the grammar.
//!
//! Each function below reads one production at a byte offset and gives the
//! tree it denotes together with the offset where reading stopped, or the
//! offset and kind of the first violation.

use vstd::prelude::*;
use crate::ast::Ast;
use crate::error::{Expected, ParseFailure};
use crate::literal::{digit_values, is_digit, Numeral, ASCII_POINT};

verus! {

/// ASCII code of `+`.
pub const ASCII_PLUS: u8 = 43;

/// ASCII code of `-`.
pub const ASCII_MINUS: u8 = 45;

/// ASCII code of `*`.
pub const ASCII_STAR: u8 = 42;

/// ASCII code of `/`.
pub const ASCII_SLASH: u8 = 47;

/// ASCII code of `(`.
pub const ASCII_OPEN: u8 = 40;

/// ASCII code of `)`.
pub const ASCII_CLOSE: u8 = 41;

/// Whether `b` is one of the four whitespace bytes of the grammar.
pub open spec fn is_space(b: u8) -> bool {
    b == 32 || b == 9 || b == 10 || b == 13
}

/// What reading a production gives: a tree and the offset after it, or a
/// failure.
pub type Reading = Result<(Ast, int), ParseFailure>;

/// A failure at offset `pos`.
pub open spec fn failure(pos: int, expected: Expected) -> ParseFailure {
    ParseFailure { position: pos as usize, expected }
}

/// What a chain gives where reading an operand did not move forward. A
/// successful reading always does, and ends inside the text (see the laws
/// of readings); the chains test for it so that their definitions are seen
/// to terminate.
pub open spec fn stalled(pos: int) -> ParseFailure {
    failure(pos, Expected::Operand)
}

/// The offset of the first byte at or after `pos` that is no digit.
pub open spec fn digits_end(s: Seq<u8>, pos: int) -> int
    decreases s.len() - pos,
{
    if 0 <= pos < s.len() && is_digit(s[pos]) {
        digits_end(s, pos + 1)
    } else {
        pos
    }
}

/// Whether a decimal point and at least one digit follow the integer part
/// that ends at `int_end`.
pub open spec fn has_fraction(s: Seq<u8>, int_end: int) -> bool {
    int_end + 1 < s.len() && s[int_end] == ASCII_POINT && is_digit(s[int_end + 1])
}

/// The offset after the number that starts at `pos`.
pub open spec fn number_end(s: Seq<u8>, pos: int) -> int {
    let int_end = digits_end(s, pos);
    if has_fraction(s, int_end) {
        digits_end(s, int_end + 1)
    } else {
        int_end
    }
}

/// The numeral of the number that starts at `pos`.
pub open spec fn number_at(s: Seq<u8>, pos: int) -> Numeral {
    let int_end = digits_end(s, pos);
    let int_part = digit_values(s.subrange(pos, int_end));
    if has_fraction(s, int_end) {
        Numeral::of_parts(
            int_part,
            digit_values(s.subrange(int_end + 1, digits_end(s, int_end + 1))),
        )
    } else {
        Numeral::of_parts(int_part, Seq::empty())
    }
}

/// `primary := number | '(' additive ')'`, read at `pos`.
pub open spec fn primary_at(s: Seq<u8>, pos: int) -> Reading
    decreases s.len() - pos, 0nat,
{
    if 0 <= pos < s.len() && is_digit(s[pos]) {
        Ok((Ast::Number(number_at(s, pos)), number_end(s, pos)))
    } else if 0 <= pos < s.len() && s[pos] == ASCII_OPEN {
        match additive_at(s, pos + 1) {
            Ok((tree, end)) => if 0 <= end < s.len() && s[end] == ASCII_CLOSE {
                Ok((tree, end + 1))
            } else {
                Err(failure(end, Expected::ClosingParenthesis))
            },
            Err(f) => Err(f),
        }
    } else {
        Err(failure(pos, Expected::Operand))
    }
}

/// `unary := '-' unary | primary`, read at `pos` after any whitespace
/// there.
pub open spec fn unary_at(s: Seq<u8>, pos: int) -> Reading
    decreases s.len() - pos, 1nat,
{
    if 0 <= pos < s.len() && is_space(s[pos]) {
        unary_at(s, pos + 1)
    } else if 0 <= pos < s.len() && s[pos] == ASCII_MINUS {
        match unary_at(s, pos + 1) {
            Ok((tree, end)) => Ok((Ast::Neg(Box::new(tree)), end)),
            Err(f) => Err(f),
        }
    } else {
        primary_at(s, pos)
    }
}

/// The rest of a multiplicative chain whose operands so far make `left`:
/// `(('*' | '/') unary)*`, read at `pos` after any whitespace there. The
/// offset of a successful reading is that of the first byte that is neither
/// whitespace nor part of the chain.
pub open spec fn multiplicative_tail(s: Seq<u8>, left: Ast, pos: int) -> Reading
    decreases s.len() - pos, 2nat,
{
    if 0 <= pos < s.len() && is_space(s[pos]) {
        multiplicative_tail(s, left, pos + 1)
    } else if 0 <= pos < s.len() && (s[pos] == ASCII_STAR || s[pos] == ASCII_SLASH) {
        match unary_at(s, pos + 1) {
            Ok((right, end)) => if pos < end <= s.len() {
                multiplicative_tail(
                    s,
                    if s[pos] == ASCII_STAR {
                        Ast::Mul(Box::new(left), Box::new(right))
                    } else {
                        Ast::Div(Box::new(left), Box::new(right))
                    },
                    end,
                )
            } else {
                Err(stalled(pos))
            },
            Err(f) => Err(f),
        }
    } else {
        Ok((left, pos))
    }
}

/// `multiplicative := unary (('*' | '/') unary)*`, read at `pos`.
pub open spec fn multiplicative_at(s: Seq<u8>, pos: int) -> Reading
    decreases s.len() - pos, 3nat,
{
    match unary_at(s, pos) {
        Ok((left, end)) => if pos <= end <= s.len() {
            multiplicative_tail(s, left, end)
        } else {
            Err(stalled(pos))
        },
        Err(f) => Err(f),
    }
}

/// The rest of an additive chain whose operands so far make `left`:
/// `(('+' | '-') multiplicative)*`, read at `pos` after any whitespace
/// there.
pub open spec fn additive_tail(s: Seq<u8>, left: Ast, pos: int) -> Reading
    decreases s.len() - pos, 4nat,
{
    if 0 <= pos < s.len() && is_space(s[pos]) {
        additive_tail(s, left, pos + 1)
    } else if 0 <= pos < s.len() && (s[pos] == ASCII_PLUS || s[pos] == ASCII_MINUS) {
        match multiplicative_at(s, pos + 1) {
            Ok((right, end)) => if pos < end <= s.len() {
                additive_tail(
                    s,
                    if s[pos] == ASCII_PLUS {
                        Ast::Add(Box::new(left), Box::new(right))
                    } else {
                        Ast::Sub(Box::new(left), Box::new(right))
                    },
                    end,
                )
            } else {
                Err(stalled(pos))
            },
            Err(f) => Err(f),
        }
    } else {
        Ok((left, pos))
    }
}

/// `additive := multiplicative (('+' | '-') multiplicative)*`, read at
/// `pos`.
pub open spec fn additive_at(s: Seq<u8>, pos: int) -> Reading
    decreases s.len() - pos, 5nat,
{
    match multiplicative_at(s, pos) {
        Ok((left, end)) => if pos <= end <= s.len() {
            additive_tail(s, left, end)
        } else {
            Err(stalled(pos))
        },
        Err(f) => Err(f),
    }
}

/// The tree that the whole of `s` denotes, or where and why it denotes
/// none.
pub open spec fn parse_text(s: Seq<u8>) -> Result<Ast, ParseFailure> {
    match additive_at(s, 0) {
        Ok((tree, end)) => if end == s.len() {
            Ok(tree)
        } else {
            Err(failure(end, Expected::Operator))
        },
        Err(f) => Err(f),
    }
}

} // verus!
