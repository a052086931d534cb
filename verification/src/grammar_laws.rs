//! What holds of every reading of the grammar: a successful one moves
//! forward, stays inside the text and gives a tree of canonical numerals;
//! a failed one names an offset inside the text or at its end.

use vstd::prelude::*;
use crate::ast::Ast;

use crate::grammar::{
    additive_at, additive_tail, digits_end, has_fraction, multiplicative_at, multiplicative_tail,
    number_at, number_end, parse_text, primary_at, unary_at, Reading, ASCII_MINUS, ASCII_OPEN,
    ASCII_PLUS, ASCII_SLASH, ASCII_STAR,
};
use crate::literal::{
    all_ascii_digits, digit_values, is_digit, lemma_digit_values_are_digits,
    lemma_of_parts_canonical,
};

verus! {

/// Whether a reading made at `pos` in a text of length `len` is sound: it
/// ends after `pos` (at or after it, where `strictly` does not hold) and
/// inside the text with a canonical tree, or fails at an offset from `pos`
/// to the end of the text.
pub open spec fn sound_reading(reading: Reading, pos: int, len: int, strictly: bool) -> bool {
    match reading {
        Ok((tree, end)) => (if strictly {
            pos < end
        } else {
            pos <= end
        }) && end <= len && tree.canonical(),
        Err(f) => pos <= f.position <= len,
    }
}

/// A run of digits ends where `digits_end` says, inside the text.
pub proof fn lemma_digits_end(s: Seq<u8>, pos: int)
    requires
        0 <= pos <= s.len(),
    ensures
        pos <= digits_end(s, pos) <= s.len(),
        all_ascii_digits(s.subrange(pos, digits_end(s, pos))),
        digits_end(s, pos) < s.len() ==> !is_digit(s[digits_end(s, pos)]),
        pos < s.len() && is_digit(s[pos]) ==> pos < digits_end(s, pos),
    decreases s.len() - pos,
{
    if pos < s.len() && is_digit(s[pos]) {
        lemma_digits_end(s, pos + 1);
        let end = digits_end(s, pos);
        assert forall|i: int| 0 <= i < s.subrange(pos, end).len() implies is_digit(
            s.subrange(pos, end)[i],
        ) by {
            if i > 0 {
                assert(s.subrange(pos, end)[i] == s.subrange(pos + 1, end)[i - 1]);
            }
        }
    }
}

/// A run of digits that something else follows ends where it ends.
pub proof fn lemma_digits_end_of_run(s: Seq<u8>, pos: int, end: int)
    requires
        0 <= pos <= end <= s.len(),
        forall|k: int| pos <= k < end ==> is_digit(s[k]),
        end < s.len() ==> !is_digit(s[end]),
    ensures
        digits_end(s, pos) == end,
    decreases end - pos,
{
    if pos < end {
        lemma_digits_end_of_run(s, pos + 1, end);
    }
}

/// A number that starts with a digit ends after it, inside the text, and
/// its numeral is canonical.
pub proof fn lemma_number(s: Seq<u8>, pos: int)
    requires
        0 <= pos < s.len(),
        is_digit(s[pos]),
    ensures
        pos < number_end(s, pos) <= s.len(),
        number_at(s, pos).canonical(),
{
    lemma_digits_end(s, pos);
    let int_end = digits_end(s, pos);
    let int_text = s.subrange(pos, int_end);
    lemma_digit_values_are_digits(int_text);
    if has_fraction(s, int_end) {
        lemma_digits_end(s, int_end + 1);
        let frac_text = s.subrange(int_end + 1, digits_end(s, int_end + 1));
        lemma_digit_values_are_digits(frac_text);
        lemma_of_parts_canonical(digit_values(int_text), digit_values(frac_text));
    } else {
        lemma_of_parts_canonical(digit_values(int_text), Seq::empty());
    }
}

/// Every reading of a primary is sound.
pub proof fn lemma_primary_reading(s: Seq<u8>, pos: int)
    requires
        0 <= pos <= s.len(),
        s.len() <= usize::MAX,
    ensures
        sound_reading(primary_at(s, pos), pos, s.len() as int, true),
    decreases s.len() - pos, 0nat,
{
    if pos < s.len() && is_digit(s[pos]) {
        lemma_number(s, pos);
    } else if pos < s.len() && s[pos] == ASCII_OPEN {
        lemma_additive_reading(s, pos + 1);
    }
}

/// Every reading of a unary is sound.
pub proof fn lemma_unary_reading(s: Seq<u8>, pos: int)
    requires
        0 <= pos <= s.len(),
        s.len() <= usize::MAX,
    ensures
        sound_reading(unary_at(s, pos), pos, s.len() as int, true),
    decreases s.len() - pos, 1nat,
{
    if pos < s.len() && crate::grammar::is_space(s[pos]) {
        lemma_unary_reading(s, pos + 1);
    } else if pos < s.len() && s[pos] == ASCII_MINUS {
        lemma_unary_reading(s, pos + 1);
    } else {
        lemma_primary_reading(s, pos);
    }
}

/// Every reading of the rest of a multiplicative chain is sound.
pub proof fn lemma_multiplicative_tail_reading(s: Seq<u8>, left: Ast, pos: int)
    requires
        0 <= pos <= s.len(),
        s.len() <= usize::MAX,
        left.canonical(),
    ensures
        sound_reading(multiplicative_tail(s, left, pos), pos, s.len() as int, false),
    decreases s.len() - pos, 2nat,
{
    if pos < s.len() && crate::grammar::is_space(s[pos]) {
        lemma_multiplicative_tail_reading(s, left, pos + 1);
    } else if pos < s.len() && (s[pos] == ASCII_STAR || s[pos] == ASCII_SLASH) {
        lemma_unary_reading(s, pos + 1);
        match unary_at(s, pos + 1) {
            Ok((right, end)) => {
                let node = if s[pos] == ASCII_STAR {
                    Ast::Mul(Box::new(left), Box::new(right))
                } else {
                    Ast::Div(Box::new(left), Box::new(right))
                };
                lemma_multiplicative_tail_reading(s, node, end);
            },
            Err(f) => {},
        }
    }
}

/// Every reading of a multiplicative chain is sound.
pub proof fn lemma_multiplicative_reading(s: Seq<u8>, pos: int)
    requires
        0 <= pos <= s.len(),
        s.len() <= usize::MAX,
    ensures
        sound_reading(multiplicative_at(s, pos), pos, s.len() as int, true),
    decreases s.len() - pos, 3nat,
{
    lemma_unary_reading(s, pos);
    match unary_at(s, pos) {
        Ok((left, end)) => {
            lemma_multiplicative_tail_reading(s, left, end);
        },
        Err(f) => {},
    }
}

/// Every reading of the rest of an additive chain is sound.
pub proof fn lemma_additive_tail_reading(s: Seq<u8>, left: Ast, pos: int)
    requires
        0 <= pos <= s.len(),
        s.len() <= usize::MAX,
        left.canonical(),
    ensures
        sound_reading(additive_tail(s, left, pos), pos, s.len() as int, false),
    decreases s.len() - pos, 4nat,
{
    if pos < s.len() && crate::grammar::is_space(s[pos]) {
        lemma_additive_tail_reading(s, left, pos + 1);
    } else if pos < s.len() && (s[pos] == ASCII_PLUS || s[pos] == ASCII_MINUS) {
        lemma_multiplicative_reading(s, pos + 1);
        match multiplicative_at(s, pos + 1) {
            Ok((right, end)) => {
                let node = if s[pos] == ASCII_PLUS {
                    Ast::Add(Box::new(left), Box::new(right))
                } else {
                    Ast::Sub(Box::new(left), Box::new(right))
                };
                lemma_additive_tail_reading(s, node, end);
            },
            Err(f) => {},
        }
    }
}

/// Every reading of an additive chain is sound.
pub proof fn lemma_additive_reading(s: Seq<u8>, pos: int)
    requires
        0 <= pos <= s.len(),
        s.len() <= usize::MAX,
    ensures
        sound_reading(additive_at(s, pos), pos, s.len() as int, true),
    decreases s.len() - pos, 5nat,
{
    lemma_multiplicative_reading(s, pos);
    match multiplicative_at(s, pos) {
        Ok((left, end)) => {
            lemma_additive_tail_reading(s, left, end);
        },
        Err(f) => {},
    }
}

/// A text that parses gives a tree of canonical numerals; one that does
/// not fails at an offset inside the text or at its end.
pub proof fn lemma_parse_sound(s: Seq<u8>)
    requires
        s.len() <= usize::MAX,
    ensures
        match parse_text(s) {
            Ok(tree) => tree.canonical(),
            Err(f) => f.position <= s.len(),
        },
{
    lemma_additive_reading(s, 0);
}

} // verus!
