//! The language of the grammar, stated as a relation between trees and
//! texts: which texts write which tree. Nothing here reads a text from
//! left to right; each production says how a text splits into the texts of
//! its parts.

use vstd::prelude::*;
use crate::ast::Ast;
use crate::grammar::{
    is_space, ASCII_CLOSE, ASCII_MINUS, ASCII_OPEN, ASCII_PLUS, ASCII_SLASH, ASCII_STAR,
};
use crate::literal::{all_ascii_digits, digit_values, Numeral, ASCII_POINT};

verus! {

/// The productions of the grammar that write trees, from the one that
/// binds tightest.
pub enum Level {
    /// `primary := number | '(' additive ')'`
    Primary,
    /// `unary := '-' unary | primary`
    Unary,
    /// `multiplicative := unary (('*' | '/') unary)*`
    Multiplicative,
    /// `additive := multiplicative (('+' | '-') multiplicative)*`
    Additive,
}

impl Level {
    /// The place of the level among the four, from zero.
    pub open spec fn rank(self) -> nat {
        match self {
            Level::Primary => 0,
            Level::Unary => 1,
            Level::Multiplicative => 2,
            Level::Additive => 3,
        }
    }

    /// The level of the operands of a chain.
    pub open spec fn operand(self) -> Level {
        match self {
            Level::Additive => Level::Multiplicative,
            _ => Level::Unary,
        }
    }
}

/// Every byte is whitespace of the grammar.
pub open spec fn all_spaces(s: Seq<u8>) -> bool {
    forall|i: int| 0 <= i < s.len() ==> is_space(#[trigger] s[i])
}

/// `number := digit+ ('.' digit+)?`: whether `s` writes the numeral `n`,
/// its integer part being the first `k` bytes.
pub open spec fn writes_number_at(s: Seq<u8>, n: Numeral, k: int) -> bool {
    &&& 0 < k <= s.len()
    &&& all_ascii_digits(s.subrange(0, k))
    &&& if k == s.len() {
        n == Numeral::of_parts(digit_values(s.subrange(0, k)), Seq::empty())
    } else {
        &&& k + 1 < s.len()
        &&& s[k] == ASCII_POINT
        &&& all_ascii_digits(s.subrange(k + 1, s.len() as int))
        &&& n == Numeral::of_parts(
            digit_values(s.subrange(0, k)),
            digit_values(s.subrange(k + 1, s.len() as int)),
        )
    }
}

/// Whether `s` writes the numeral `n`.
pub open spec fn writes_number(s: Seq<u8>, n: Numeral) -> bool {
    exists|k: int| writes_number_at(s, n, k)
}

/// Whether `operator` makes `tree` of `left` and `right` at `level`: `+`
/// and `-` at the additive level, `*` and `/` at the multiplicative one.
pub open spec fn joins(level: Level, tree: Ast, left: Ast, operator: u8, right: Ast) -> bool {
    if level == Level::Additive {
        ||| operator == ASCII_PLUS && tree == Ast::Add(Box::new(left), Box::new(right))
        ||| operator == ASCII_MINUS && tree == Ast::Sub(Box::new(left), Box::new(right))
    } else {
        ||| operator == ASCII_STAR && tree == Ast::Mul(Box::new(left), Box::new(right))
        ||| operator == ASCII_SLASH && tree == Ast::Div(Box::new(left), Box::new(right))
    }
}

/// The left operand of a binary node; the tree itself where it is none.
pub open spec fn left_of(tree: Ast) -> Ast {
    match tree {
        Ast::Add(l, r) | Ast::Sub(l, r) | Ast::Mul(l, r) | Ast::Div(l, r) => *l,
        _ => tree,
    }
}

/// The right operand of a binary node; the tree itself where it is none.
pub open spec fn right_of(tree: Ast) -> Ast {
    match tree {
        Ast::Add(l, r) | Ast::Sub(l, r) | Ast::Mul(l, r) | Ast::Div(l, r) => *r,
        _ => tree,
    }
}

/// Whether `s` is a pair of parentheses around `s[i..j]`, with nothing
/// but whitespace between each parenthesis and that part.
pub open spec fn encloses(s: Seq<u8>, i: int, j: int) -> bool {
    &&& 1 <= i <= j < s.len()
    &&& s[0] == ASCII_OPEN
    &&& s[s.len() - 1] == ASCII_CLOSE
    &&& all_spaces(s.subrange(1, i))
    &&& all_spaces(s.subrange(j, s.len() - 1))
}

/// Whether `s` is a minus sign before `s[i..]`, with nothing but
/// whitespace between the two.
pub open spec fn negates(s: Seq<u8>, i: int) -> bool {
    &&& 1 <= i <= s.len()
    &&& s[0] == ASCII_MINUS
    &&& all_spaces(s.subrange(1, i))
}

/// Whether `s` is `s[..i]`, the byte at `j` and `s[k..]`, with nothing but
/// whitespace between each part and that byte.
pub open spec fn splits(s: Seq<u8>, i: int, j: int, k: int) -> bool {
    &&& 0 < i <= j < k <= s.len()
    &&& all_spaces(s.subrange(i, j))
    &&& all_spaces(s.subrange(j + 1, k))
}

/// Whether `s` writes `tree` as a production of the given level, with no
/// whitespace at its ends.
///
/// - A primary is a number, or an additive in parentheses with any
///   whitespace inside them.
/// - A unary is a primary, or a minus sign, any whitespace and a unary.
/// - A chain is the production one level down, or a chain of its own
///   level, an operator of that level with any whitespace around it, and
///   the production one level down: so chains group to the left.
pub open spec fn writes(level: Level, tree: Ast, s: Seq<u8>) -> bool
    decreases s.len(), level.rank(),
{
    match level {
        Level::Primary => {
            ||| tree matches Ast::Number(n) && writes_number(s, n)
            ||| exists|i: int, j: int| #[trigger]
                encloses(s, i, j) && writes(Level::Additive, tree, s.subrange(i, j))
        },
        Level::Unary => {
            ||| writes(Level::Primary, tree, s)
            ||| tree matches Ast::Neg(e) && exists|i: int| #[trigger]
                negates(s, i) && writes(Level::Unary, *e, s.subrange(i, s.len() as int))
        },
        Level::Multiplicative | Level::Additive => {
            ||| writes(level.operand(), tree, s)
            ||| exists|i: int, j: int, k: int| #[trigger]
                splits(s, i, j, k) && joins(level, tree, left_of(tree), s[j], right_of(tree))
                    && writes(level, left_of(tree), s.subrange(0, i)) && writes(
                    level.operand(),
                    right_of(tree),
                    s.subrange(k, s.len() as int),
                )
        },
    }
}

/// Whether `s` is `s[i..j]` with nothing but whitespace before and after
/// it.
pub open spec fn pads(s: Seq<u8>, i: int, j: int) -> bool {
    &&& 0 <= i <= j <= s.len()
    &&& all_spaces(s.subrange(0, i))
    &&& all_spaces(s.subrange(j, s.len() as int))
}

/// `expression := additive`: whether the whole of `s` writes `tree`,
/// whitespace being allowed before and after.
pub open spec fn sentence(tree: Ast, s: Seq<u8>) -> bool {
    exists|i: int, j: int| #[trigger] pads(s, i, j) && writes(Level::Additive, tree, s.subrange(i, j))
}

} // verus!
