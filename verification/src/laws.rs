//! Laws of evaluation, each proved from the definitions.

use vstd::prelude::*;
use vstd::arithmetic::power2::pow2;

use crate::ast::Ast;
use crate::binary64::{
    is_zero, lemma_nearest_exact, lemma_round_is, negation, units, Binary64, INFINITY_BITS,
};
use crate::conversion::numeral_bits;
use crate::error::ComputeError;
use crate::eval::{value_of, value_of_text};
use crate::grammar::parse_text;
use crate::literal::{pow10, Numeral};
use crate::text::is_blank;

verus! {

/// A literal whose value is exactly that of a binary64 evaluates to that
/// binary64: of a number that the format holds, nothing is lost.
pub proof fn lemma_exact_literal(n: Numeral, m: u64)
    requires
        m <= INFINITY_BITS,
        n.numerator() * pow2(1074) == units(m) * n.denominator(),
    ensures
        numeral_bits(n) == m,
        value_of(Ast::Number(n)) == Ok::<Binary64, ComputeError>(Binary64 { bits: m }),
{
    lemma_denominator_positive(n.scale);
    let p = n.numerator() * pow2(1074);
    let d = n.denominator();
    lemma_nearest_exact(p, d, m);
    lemma_round_is(p, d, m);
}

/// A power of ten is positive.
pub proof fn lemma_denominator_positive(scale: nat)
    ensures
        pow10(scale) > 0,
    decreases scale,
{
    if scale > 0 {
        lemma_denominator_positive((scale - 1) as nat);
    }
}

/// The only error that the value of a tree can be is division by zero.
pub proof fn lemma_tree_errors(tree: Ast)
    ensures
        value_of(tree) matches Err(e) ==> e == ComputeError::DivisionByZero,
    decreases tree,
{
    match tree {
        Ast::Number(n) => {},
        Ast::Add(l, r) | Ast::Sub(l, r) | Ast::Mul(l, r) | Ast::Div(l, r) => {
            lemma_tree_errors(*l);
            lemma_tree_errors(*r);
        },
        Ast::Neg(e) => {
            lemma_tree_errors(*e);
        },
    }
}

/// Division by a zero is always an error, whatever the dividend: a
/// quotient is never an infinity or a not-a-number made by a zero divisor.
pub proof fn lemma_division_by_zero(dividend: Ast, divisor: Ast)
    ensures
        (value_of(divisor) matches Ok(d) && is_zero(d.bits)) ==> value_of(
            Ast::Div(Box::new(dividend), Box::new(divisor)),
        ) == Err::<Binary64, ComputeError>(ComputeError::DivisionByZero),
        value_of(Ast::Div(Box::new(dividend), Box::new(divisor))) is Ok ==> (value_of(
            divisor,
        ) matches Ok(d) && !is_zero(d.bits)),
{
    lemma_tree_errors(dividend);
    lemma_tree_errors(divisor);
}

/// Negating twice gives the value back, bit for bit.
pub proof fn lemma_double_negation(tree: Ast)
    ensures
        value_of(Ast::Neg(Box::new(Ast::Neg(Box::new(tree))))) == value_of(tree),
{
    let once = Ast::Neg(Box::new(tree));
    match value_of(tree) {
        Ok(v) => {
            assert(value_of(once) == Ok::<Binary64, ComputeError>(
                Binary64 { bits: negation(v.bits) },
            ));
            assert(negation(negation(v.bits)) == v.bits);
        },
        Err(e) => {
            assert(value_of(once) == Err::<Binary64, ComputeError>(e));
        },
    }
}

/// A text evaluates to an empty-expression error exactly where it is
/// blank, to a parse error exactly where it is not blank and does not
/// conform to the grammar, and to no other error but division by zero.
pub proof fn lemma_error_kinds(text: Seq<char>)
    ensures
        value_of_text(text) == Err::<Binary64, ComputeError>(ComputeError::EmptyExpression)
            <==> is_blank(text),
        value_of_text(text) matches Err(ComputeError::ParseError(f)) <==> !is_blank(text)
            && parse_text(vstd::utf8::encode_utf8(crate::text::trim(text))) is Err,
        value_of_text(text) matches Err(e) ==> e == ComputeError::EmptyExpression || e
            == ComputeError::DivisionByZero || e is ParseError,
{
    if !is_blank(text) {
        let bytes = vstd::utf8::encode_utf8(crate::text::trim(text));
        match parse_text(bytes) {
            Ok(tree) => {
                lemma_tree_errors(tree);
            },
            Err(f) => {},
        }
    }
}

/// Evaluating the same text again gives the same value or the same error:
/// what a text evaluates to depends on the text alone.
pub proof fn lemma_evaluation_repeats(
    text: Seq<char>,
    first: Result<Binary64, ComputeError>,
    second: Result<Binary64, ComputeError>,
)
    requires
        first == value_of_text(text),
        second == value_of_text(text),
    ensures
        first == second,
{
}

} // verus!
