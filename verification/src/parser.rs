//! The parser: recursive descent over the bytes of a text, one function per
//! production of the grammar.

use vstd::prelude::*;
use vstd::string::StringSliceAdditionalSpecFns;
use crate::ast::{Ast, Expr};
use crate::error::{ComputeError, Expected, ParseFailure};
use crate::grammar::{
    additive_at, additive_tail, digits_end, is_space, multiplicative_at, multiplicative_tail,
    number_at, number_end, parse_text, primary_at, unary_at, Reading, ASCII_CLOSE, ASCII_MINUS,
    ASCII_OPEN, ASCII_PLUS, ASCII_SLASH, ASCII_STAR,
};
use crate::completeness::lemma_written_is_parsed;
use crate::grammar_laws::lemma_parse_sound;
use crate::language::sentence;
use crate::language_laws::lemma_parsed_is_written;
use crate::literal::{
    all_ascii_digits, is_digit, Decimal, Numeral, ASCII_NINE, ASCII_POINT, ASCII_ZERO,
};

verus! {

/// Whether what the parser returned is what the grammar reads.
pub open spec fn reads_as(r: Result<(Expr, usize), ParseFailure>, reading: Reading) -> bool {
    match r {
        Ok((tree, end)) => reading == Ok::<(Ast, int), ParseFailure>((tree@, end as int)),
        Err(f) => reading == Err::<(Ast, int), ParseFailure>(f),
    }
}

/// Whether the result of a parse is what the grammar gives for the text.
pub open spec fn parses_as(r: Result<Expr, ParseFailure>, s: Seq<u8>) -> bool {
    match r {
        Ok(tree) => parse_text(s) == Ok::<Ast, ParseFailure>(tree@),
        Err(f) => parse_text(s) == Err::<Ast, ParseFailure>(f),
    }
}

/// The parser of the expression grammar.
pub struct ComputeParser;

impl ComputeParser {
    /// Parses the whole of `input` as one expression: the tree that the
    /// text writes, or, where it writes none, the offset at which reading
    /// from left to right stopped and what was expected there.
    pub fn parse(input: &[u8]) -> (r: Result<Expr, ParseFailure>)
        ensures
            parses_as(r, input@),
            r matches Ok(tree) ==> sentence(tree@, input@) && tree@.canonical(),
            r matches Err(f) ==> f.position <= input.len() && forall|tree: Ast|
                !sentence(tree, input@),
    {
        let length = input.len();
        proof {
            assert(input@.len() == length);
            lemma_parse_sound(input@);
            if parse_text(input@) is Ok {
                lemma_parsed_is_written(input@);
            } else {
                assert forall|tree: Ast| !sentence(tree, input@) by {
                    if sentence(tree, input@) {
                        lemma_written_is_parsed(input@, tree);
                    }
                }
            }
        }
        match Self::additive(input, 0) {
            Ok((tree, end)) => {
                if end == input.len() {
                    Ok(tree)
                } else {
                    Err(ParseFailure { position: end, expected: Expected::Operator })
                }
            },
            Err(f) => Err(f),
        }
    }

    /// Reads a run of digits that starts at `pos`.
    fn digits(input: &[u8], pos: usize) -> (end: usize)
        requires
            pos <= input.len(),
        ensures
            end == digits_end(input@, pos as int),
            pos <= end <= input.len(),
            pos < input.len() && is_digit(input@[pos as int]) ==> pos < end,
            all_ascii_digits(input@.subrange(pos as int, end as int)),
    {
        let mut end: usize = pos;
        while end < input.len() && ASCII_ZERO <= input[end] && input[end] <= ASCII_NINE
            invariant
                pos <= end <= input.len(),
                digits_end(input@, pos as int) == digits_end(input@, end as int),
                all_ascii_digits(input@.subrange(pos as int, end as int)),
            decreases input.len() - end,
        {
            end = end + 1;
        }
        end
    }

    /// Reads the number that starts at `pos`.
    fn number(input: &[u8], pos: usize) -> (r: (Decimal, usize))
        requires
            pos < input.len(),
            is_digit(input@[pos as int]),
        ensures
            r.0@ == number_at(input@, pos as int),
            r.1 == number_end(input@, pos as int),
            pos < r.1 <= input.len(),
    {
        let int_end = Self::digits(input, pos);
        if int_end < input.len() - 1 && input[int_end] == ASCII_POINT && ASCII_ZERO <= input[int_end
            + 1] && input[int_end + 1] <= ASCII_NINE {
            let frac_end = Self::digits(input, int_end + 1);
            (Decimal::from_runs(input, pos, int_end, int_end + 1, frac_end), frac_end)
        } else {
            assert(input@.subrange(int_end as int, int_end as int) =~= Seq::<u8>::empty());
            (Decimal::from_runs(input, pos, int_end, int_end, int_end), int_end)
        }
    }

    /// Reads `primary := number | '(' additive ')'` at `pos`.
    fn primary(input: &[u8], pos: usize) -> (r: Result<(Expr, usize), ParseFailure>)
        requires
            pos <= input.len(),
        ensures
            reads_as(r, primary_at(input@, pos as int)),
            r matches Ok((_, end)) ==> pos < end <= input.len(),
        decreases input.len() - pos, 0nat,
    {
        if pos < input.len() && ASCII_ZERO <= input[pos] && input[pos] <= ASCII_NINE {
            let (literal, end) = Self::number(input, pos);
            Ok((Expr::Number(literal), end))
        } else if pos < input.len() && input[pos] == ASCII_OPEN {
            match Self::additive(input, pos + 1) {
                Ok((tree, end)) => {
                    if end < input.len() && input[end] == ASCII_CLOSE {
                        Ok((tree, end + 1))
                    } else {
                        Err(ParseFailure { position: end, expected: Expected::ClosingParenthesis })
                    }
                },
                Err(f) => Err(f),
            }
        } else {
            Err(ParseFailure { position: pos, expected: Expected::Operand })
        }
    }

    /// Reads `unary := '-' unary | primary` at `pos`, after any whitespace
    /// there.
    fn unary(input: &[u8], pos: usize) -> (r: Result<(Expr, usize), ParseFailure>)
        requires
            pos <= input.len(),
        ensures
            reads_as(r, unary_at(input@, pos as int)),
            r matches Ok((_, end)) ==> pos < end <= input.len(),
        decreases input.len() - pos, 1nat,
    {
        let mut cur: usize = pos;
        let mut negations: usize = 0;
        // Count the minus signs that lead; whitespace may stand among them.
        while cur < input.len() && (Self::space(input[cur]) || input[cur] == ASCII_MINUS)
            invariant
                pos <= cur <= input.len(),
                negations <= cur - pos,
                unary_at(input@, pos as int) == negated(
                    unary_at(input@, cur as int),
                    negations as nat,
                ),
            decreases input.len() - cur,
        {
            if input[cur] == ASCII_MINUS {
                proof {
                    lemma_negated_once_more(unary_at(input@, cur + 1), negations as nat);
                }
                negations = negations + 1;
            }
            cur = cur + 1;
        }
        match Self::primary(input, cur) {
            Ok((tree, end)) => {
                let mut tree = tree;
                let mut applied: usize = 0;
                while applied < negations
                    invariant
                        applied <= negations,
                        negated(Ok((tree@, end as int)), (negations - applied) as nat) == negated(
                            primary_at(input@, cur as int),
                            negations as nat,
                        ),
                    decreases negations - applied,
                {
                    tree = Expr::Neg(Box::new(tree));
                    applied = applied + 1;
                }
                Ok((tree, end))
            },
            Err(f) => {
                proof {
                    lemma_negated_failure(f, negations as nat);
                }
                Err(f)
            },
        }
    }

    /// Whether `b` is whitespace.
    fn space(b: u8) -> (r: bool)
        ensures
            r == is_space(b),
    {
        b == 32 || b == 9 || b == 10 || b == 13
    }

    /// Reads `multiplicative := unary (('*' | '/') unary)*` at `pos`.
    fn multiplicative(input: &[u8], pos: usize) -> (r: Result<(Expr, usize), ParseFailure>)
        requires
            pos <= input.len(),
        ensures
            reads_as(r, multiplicative_at(input@, pos as int)),
            r matches Ok((_, end)) ==> pos < end <= input.len(),
        decreases input.len() - pos, 3nat,
    {
        let (first, first_end) = match Self::unary(input, pos) {
            Ok(reading) => reading,
            Err(f) => {
                return Err(f);
            },
        };
        let mut left = first;
        let mut cur = first_end;
        loop
            invariant
                pos < cur <= input.len(),
                multiplicative_at(input@, pos as int) == multiplicative_tail(
                    input@,
                    left@,
                    cur as int,
                ),
            decreases input.len() - cur,
        {
            if cur < input.len() && Self::space(input[cur]) {
                cur = cur + 1;
            } else if cur < input.len() && (input[cur] == ASCII_STAR || input[cur]
                == ASCII_SLASH) {
                let operator = input[cur];
                match Self::unary(input, cur + 1) {
                    Ok((right, end)) => {
                        left = if operator == ASCII_STAR {
                            Expr::Mul(Box::new(left), Box::new(right))
                        } else {
                            Expr::Div(Box::new(left), Box::new(right))
                        };
                        cur = end;
                    },
                    Err(f) => {
                        return Err(f);
                    },
                }
            } else {
                return Ok((left, cur));
            }
        }
    }

    /// Reads `additive := multiplicative (('+' | '-') multiplicative)*` at
    /// `pos`.
    fn additive(input: &[u8], pos: usize) -> (r: Result<(Expr, usize), ParseFailure>)
        requires
            pos <= input.len(),
        ensures
            reads_as(r, additive_at(input@, pos as int)),
            r matches Ok((_, end)) ==> pos < end <= input.len(),
        decreases input.len() - pos, 5nat,
    {
        let (first, first_end) = match Self::multiplicative(input, pos) {
            Ok(reading) => reading,
            Err(f) => {
                return Err(f);
            },
        };
        let mut left = first;
        let mut cur = first_end;
        loop
            invariant
                pos < cur <= input.len(),
                additive_at(input@, pos as int) == additive_tail(input@, left@, cur as int),
            decreases input.len() - cur,
        {
            if cur < input.len() && Self::space(input[cur]) {
                cur = cur + 1;
            } else if cur < input.len() && (input[cur] == ASCII_PLUS || input[cur]
                == ASCII_MINUS) {
                let operator = input[cur];
                match Self::multiplicative(input, cur + 1) {
                    Ok((right, end)) => {
                        left = if operator == ASCII_PLUS {
                            Expr::Add(Box::new(left), Box::new(right))
                        } else {
                            Expr::Sub(Box::new(left), Box::new(right))
                        };
                        cur = end;
                    },
                    Err(f) => {
                        return Err(f);
                    },
                }
            } else {
                return Ok((left, cur));
            }
        }
    }
}

/// The numeral that a text writes, where the whole of it is one number of
/// the grammar.
pub open spec fn numeral_of_text(s: Seq<u8>) -> Option<Numeral> {
    if s.len() > 0 && is_digit(s[0]) && number_end(s, 0) == s.len() {
        Some(number_at(s, 0))
    } else {
        None
    }
}

impl Decimal {
    /// The literal that `text` writes; none where `text` is not, as a
    /// whole, a number of the grammar: digits, and optionally a decimal
    /// point and more digits.
    pub fn from_text(text: &str) -> (r: Option<Decimal>)
        ensures
            match r {
                Some(d) => numeral_of_text(text.spec_bytes()) == Some(d@),
                None => numeral_of_text(text.spec_bytes()) is None,
            },
    {
        let input = text.as_bytes();
        if input.len() > 0 && ASCII_ZERO <= input[0] && input[0] <= ASCII_NINE {
            let (literal, end) = ComputeParser::number(input, 0);
            if end == input.len() {
                Some(literal)
            } else {
                None
            }
        } else {
            None
        }
    }
}

/// `reading` with `count` negations laid over the tree of a success.
pub open spec fn negated(reading: Reading, count: nat) -> Reading
    decreases count,
{
    if count == 0 {
        reading
    } else {
        match reading {
            Ok((tree, end)) => negated(Ok((Ast::Neg(Box::new(tree)), end)), (count - 1) as nat),
            Err(f) => reading,
        }
    }
}

proof fn lemma_negated_failure(f: ParseFailure, count: nat)
    ensures
        negated(Err(f), count) == Err::<(Ast, int), ParseFailure>(f),
{
}

/// One negation under `count` others is `count + 1` negations.
proof fn lemma_negated_once_more(reading: Reading, count: nat)
    ensures
        negated(
            match reading {
                Ok((tree, end)) => Ok((Ast::Neg(Box::new(tree)), end)),
                Err(f) => Err(f),
            },
            count,
        ) == negated(reading, count + 1),
{
    match reading {
        Ok((tree, end)) => {
            assert(negated(reading, count + 1) == negated(
                Ok((Ast::Neg(Box::new(tree)), end)),
                count,
            ));
        },
        Err(f) => {
            lemma_negated_failure(f, count);
            lemma_negated_failure(f, count + 1);
        },
    }
}

/// Parses an expression into its syntax tree.
///
/// The text is read as it stands: it is not trimmed first, and leading and
/// trailing whitespace of the grammar is skipped. An empty text is a parse
/// error here, with an operand expected at offset zero.
pub fn parse_expression(expr: &str) -> (r: Result<Expr, ComputeError>)
    ensures
        match r {
            Ok(tree) => parse_text(expr.spec_bytes()) == Ok::<Ast, ParseFailure>(tree@)
                && sentence(tree@, expr.spec_bytes()),
            Err(e) => e matches ComputeError::ParseError(f) && parse_text(expr.spec_bytes())
                == Err::<Ast, ParseFailure>(f) && forall|tree: Ast|
                !sentence(tree, expr.spec_bytes()),
        },
{
    match ComputeParser::parse(expr.as_bytes()) {
        Ok(tree) => Ok(tree),
        Err(f) => Err(ComputeError::ParseError(f)),
    }
}

} // verus!
