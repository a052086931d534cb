//! Arithmetic expressions over decimal literals: a grammar, a parser that
//! builds a syntax tree, and an evaluator in IEEE 754 binary64 arithmetic.
//!
//! Two operations are the interface: [`evaluate`] takes one text to a value
//! or an error, and [`evaluate_batch`] takes several texts to as many
//! outcomes, in order and each by itself. A blank text is an
//! `EmptyExpression` error to `evaluate`, and no value at all to
//! [`Expression::new`].
//!
//! Values are binary64 numbers held as their bits ([`Binary64`]), and the
//! arithmetic is done on those bits with integers: every sum, difference,
//! product, quotient and literal is proved to be the binary64 nearest to
//! the exact result, ties going to the even significand. Literals are
//! held exactly ([`Decimal`]) until they are evaluated.
//!
//! - `text`: whitespace at the ends of a text, and the type of texts that
//!   are not blank.
//! - `literal`, `ast`: decimal literals and the syntax tree.
//! - `grammar`, `parser`: the grammar as functions that read a text from
//!   left to right, and the parser that computes them.
//! - `language`, `grammar_laws`, `language_laws`, `completeness`: the
//!   language as a relation between trees and texts, and the proof that a
//!   text parses to a tree exactly where it writes the tree.
//! - `binary64`, `rounding`, `arith`, `bignat`, `conversion`: binary64
//!   values, rounding to nearest, the four operations, and the conversion
//!   of literals.
//! - `eval`: the evaluator.
//! - `printer`, `roundtrip`: the canonical text of a tree, and the proof
//!   that it parses back to the tree.
//! - `error`: the five kinds of error, and their messages.
//! - `laws`: laws of evaluation.
//! - `session`: the decisions of an interactive session and of a batch
//!   report.

pub mod text;
pub mod literal;
pub mod error;
pub mod ast;
pub mod grammar;
pub mod language;
pub mod grammar_laws;
pub mod language_laws;
pub mod completeness;
pub mod parser;
pub mod binary64;
pub mod rounding;
pub mod arith;
pub mod bignat;
pub mod conversion;
pub mod eval;
pub mod printer;
pub mod roundtrip;
pub mod laws;
pub mod session;

pub use crate::ast::Expr;
pub use crate::binary64::Binary64;
pub use crate::error::{ComputeError, Expected, ParseFailure};
pub use crate::eval::{eval_expr, evaluate, evaluate_batch, EvaluationResult};
pub use crate::literal::Decimal;
pub use crate::parser::{parse_expression, ComputeParser};
pub use crate::text::Expression;
