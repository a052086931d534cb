//! The evaluator: from a syntax tree, or from a text, to a binary64 value
//! or an error.

use vstd::prelude::*;
use vstd::string::*;
use crate::arith::{difference_bits, product_bits, quotient_bits, sum_bits};
use crate::ast::{Ast, Expr};
use crate::binary64::{is_zero, negation, Binary64};
use crate::conversion::numeral_bits;
use crate::error::ComputeError;
use crate::grammar::parse_text;
use crate::parser::ComputeParser;
use crate::text::{is_blank, trim, trimmed};

verus! {

/// What the two operands of a sum, difference or product give together:
/// the error of the left one, else that of the right one, else the two
/// values combined.
pub open spec fn combined(
    left: Result<Binary64, ComputeError>,
    right: Result<Binary64, ComputeError>,
    operation: spec_fn(u64, u64) -> u64,
) -> Result<Binary64, ComputeError> {
    match left {
        Ok(a) => match right {
            Ok(b) => Ok(Binary64 { bits: operation(a.bits, b.bits) }),
            Err(e) => Err(e),
        },
        Err(e) => Err(e),
    }
}

/// The value of a tree. A division whose divisor is a zero, of either
/// sign, has none; nothing else fails. Infinities and not-a-numbers are
/// values like any other.
pub open spec fn value_of(tree: Ast) -> Result<Binary64, ComputeError>
    decreases tree,
{
    match tree {
        Ast::Number(n) => Ok(Binary64 { bits: numeral_bits(n) }),
        Ast::Add(l, r) => combined(value_of(*l), value_of(*r), |a: u64, b: u64| sum_bits(a, b)),
        Ast::Sub(l, r) => combined(
            value_of(*l),
            value_of(*r),
            |a: u64, b: u64| difference_bits(a, b),
        ),
        Ast::Mul(l, r) => combined(
            value_of(*l),
            value_of(*r),
            |a: u64, b: u64| product_bits(a, b),
        ),
        Ast::Div(l, r) => match value_of(*r) {
            Ok(divisor) => if is_zero(divisor.bits) {
                Err(ComputeError::DivisionByZero)
            } else {
                match value_of(*l) {
                    Ok(dividend) => Ok(
                        Binary64 { bits: quotient_bits(dividend.bits, divisor.bits) },
                    ),
                    Err(e) => Err(e),
                }
            },
            Err(e) => Err(e),
        },
        Ast::Neg(e) => match value_of(*e) {
            Ok(a) => Ok(Binary64 { bits: negation(a.bits) }),
            Err(e) => Err(e),
        },
    }
}

/// What the bytes of a text evaluate to, the text taken as it stands.
pub open spec fn value_of_bytes(s: Seq<u8>) -> Result<Binary64, ComputeError> {
    match parse_text(s) {
        Ok(tree) => value_of(tree),
        Err(f) => Err(ComputeError::ParseError(f)),
    }
}

/// What a text evaluates to: a blank text is an empty expression;
/// otherwise the text is trimmed, parsed and evaluated.
pub open spec fn value_of_text(text: Seq<char>) -> Result<Binary64, ComputeError> {
    if is_blank(text) {
        Err(ComputeError::EmptyExpression)
    } else {
        value_of_bytes(vstd::utf8::encode_utf8(trim(text)))
    }
}

/// Evaluates a syntax tree.
pub fn eval_expr(expr: &Expr) -> (r: Result<Binary64, ComputeError>)
    ensures
        r == value_of(expr@),
    decreases expr,
{
    match expr {
        Expr::Number(literal) => Ok(literal.to_binary64()),
        Expr::Add(l, r) => {
            let a = match eval_expr(l) {
                Ok(a) => a,
                Err(e) => {
                    return Err(e);
                },
            };
            match eval_expr(r) {
                Ok(b) => Ok(a.plus(b)),
                Err(e) => Err(e),
            }
        },
        Expr::Sub(l, r) => {
            let a = match eval_expr(l) {
                Ok(a) => a,
                Err(e) => {
                    return Err(e);
                },
            };
            match eval_expr(r) {
                Ok(b) => Ok(a.minus(b)),
                Err(e) => Err(e),
            }
        },
        Expr::Mul(l, r) => {
            let a = match eval_expr(l) {
                Ok(a) => a,
                Err(e) => {
                    return Err(e);
                },
            };
            match eval_expr(r) {
                Ok(b) => Ok(a.times(b)),
                Err(e) => Err(e),
            }
        },
        Expr::Div(l, r) => {
            let divisor = match eval_expr(r) {
                Ok(b) => b,
                Err(e) => {
                    return Err(e);
                },
            };
            if divisor.is_zero() {
                return Err(ComputeError::DivisionByZero);
            }
            match eval_expr(l) {
                Ok(dividend) => Ok(dividend.divided_by(divisor)),
                Err(e) => Err(e),
            }
        },
        Expr::Neg(e) => match eval_expr(e) {
            Ok(a) => Ok(a.negated()),
            Err(e) => Err(e),
        },
    }
}

/// Parses and evaluates the bytes of a text, taken as they stand.
pub fn evaluate_bytes(input: &[u8]) -> (r: Result<Binary64, ComputeError>)
    ensures
        r == value_of_bytes(input@),
{
    match ComputeParser::parse(input) {
        Ok(tree) => eval_expr(&tree),
        Err(f) => Err(ComputeError::ParseError(f)),
    }
}

/// Evaluates an arithmetic expression given as text.
///
/// A text that is empty or all whitespace is an `EmptyExpression` error
/// here, where `Expression::new` gives no value for it.
pub fn evaluate(expr: &str) -> (r: Result<Binary64, ComputeError>)
    ensures
        r == value_of_text(expr@),
{
    let inner = trimmed(expr);
    if inner.unicode_len() == 0 {
        return Err(ComputeError::EmptyExpression);
    }
    evaluate_bytes(inner.as_bytes())
}

/// The outcome of one expression of a batch.
#[derive(Debug, PartialEq, Eq)]
pub struct EvaluationResult {
    /// The text of the expression, as it was given.
    pub expression: String,
    /// Its value, or why it has none.
    pub value: Result<Binary64, ComputeError>,
}

impl Clone for EvaluationResult {
    fn clone(&self) -> (copy: EvaluationResult)
        ensures
            copy.expression@ == self.expression@,
            match (copy.value, self.value) {
                (Ok(a), Ok(b)) => a == b,
                (Err(a), Err(b)) => a.alike(b),
                _ => false,
            },
    {
        EvaluationResult {
            expression: self.expression.clone(),
            value: match &self.value {
                Ok(v) => Ok(*v),
                Err(e) => Err(e.clone()),
            },
        }
    }
}

/// Evaluates each expression of a batch by itself: one outcome for each,
/// in the order given, whatever becomes of the others.
pub fn evaluate_batch(expressions: &[&str]) -> (results: Vec<EvaluationResult>)
    ensures
        results.len() == expressions.len(),
        forall|i: int|
            0 <= i < expressions.len() ==> (#[trigger] results[i]).expression@
                == expressions[i]@ && results[i].value == value_of_text(expressions[i]@),
{
    let mut results: Vec<EvaluationResult> = Vec::new();
    let mut i: usize = 0;
    while i < expressions.len()
        invariant
            i <= expressions.len(),
            results.len() == i,
            forall|k: int|
                0 <= k < i ==> (#[trigger] results[k]).expression@ == expressions[k]@
                    && results[k].value == value_of_text(expressions[k]@),
        decreases expressions.len() - i,
    {
        let text: &str = expressions[i];
        results.push(EvaluationResult { expression: text.to_owned(), value: evaluate(text) });
        i = i + 1;
    }
    results
}

} // verus!
