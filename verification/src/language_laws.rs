//! The parser and the language agree: a text parses to a tree exactly
//! where the text writes the tree. Hence no text writes two trees.

use vstd::prelude::*;
use crate::ast::Ast;

use crate::grammar::{
    additive_at, additive_tail, digits_end, has_fraction, is_space, multiplicative_at,
    multiplicative_tail, number_at, number_end, parse_text, primary_at, unary_at, ASCII_CLOSE,
    ASCII_MINUS, ASCII_OPEN, ASCII_PLUS, ASCII_SLASH, ASCII_STAR,
};
use crate::grammar_laws::{lemma_digits_end, lemma_primary_reading, lemma_unary_reading};
use crate::language::{
    all_spaces, encloses, joins, left_of, negates, pads, right_of, sentence, splits, writes,
    writes_number, writes_number_at, Level,
};
use crate::literal::is_digit;

verus! {

/// Whether `s[start..stop]` writes `tree` at `level`, with nothing but
/// whitespace from `pos` to `start` and from `stop` to `end`.
pub open spec fn spans(
    level: Level,
    tree: Ast,
    s: Seq<u8>,
    pos: int,
    start: int,
    stop: int,
    end: int,
) -> bool {
    &&& 0 <= pos <= start < stop <= end <= s.len()
    &&& all_spaces(s.subrange(pos, start))
    &&& writes(level, tree, s.subrange(start, stop))
    &&& all_spaces(s.subrange(stop, end))
}

/// A production is also each production above it.
pub proof fn lemma_writes_up(tree: Ast, s: Seq<u8>)
    ensures
        writes(Level::Primary, tree, s) ==> writes(Level::Unary, tree, s),
        writes(Level::Unary, tree, s) ==> writes(Level::Multiplicative, tree, s),
        writes(Level::Multiplicative, tree, s) ==> writes(Level::Additive, tree, s),
{
}

/// Whitespace and one more byte of it is whitespace.
proof fn lemma_spaces_extend(s: Seq<u8>, from: int, to: int)
    requires
        0 <= from <= to < s.len(),
        all_spaces(s.subrange(from, to)),
        is_space(s[to]),
    ensures
        all_spaces(s.subrange(from, to + 1)),
{
    let longer = s.subrange(from, to + 1);
    assert forall|i: int| 0 <= i < longer.len() implies is_space(#[trigger] longer[i]) by {
        if i < to - from {
            assert(s.subrange(from, to)[i] == longer[i]);
        }
    }
}

/// The number read at `pos` is written by the text that was read.
proof fn lemma_number_written(s: Seq<u8>, pos: int)
    requires
        0 <= pos < s.len(),
        is_digit(s[pos]),
    ensures
        writes_number(s.subrange(pos, number_end(s, pos)), number_at(s, pos)),
        pos < number_end(s, pos) <= s.len(),
{
    lemma_digits_end(s, pos);
    let int_end = digits_end(s, pos);
    let end = number_end(s, pos);
    if has_fraction(s, int_end) {
        lemma_digits_end(s, int_end + 1);
    }
    let u = s.subrange(pos, end);
    let k = int_end - pos;
    assert(u.subrange(0, k) =~= s.subrange(pos, int_end));
    if has_fraction(s, int_end) {
        assert(u.subrange(k + 1, u.len() as int) =~= s.subrange(int_end + 1, end));
        assert(u[k] == s[int_end]);
    }
    assert(writes_number_at(u, number_at(s, pos), k));
}

/// A text in parentheses writes, as a primary, what the text inside
/// writes.
proof fn lemma_parentheses_write(s: Seq<u8>, pos: int, start: int, stop: int, end: int, tree: Ast)
    requires
        0 <= pos < s.len(),
        s[pos] == ASCII_OPEN,
        spans(Level::Additive, tree, s, pos + 1, start, stop, end),
        end < s.len(),
        s[end] == ASCII_CLOSE,
    ensures
        writes(Level::Primary, tree, s.subrange(pos, end + 1)),
{
    let u = s.subrange(pos, end + 1);
    let i = start - pos;
    let j = stop - pos;
    assert(u.subrange(1, i) =~= s.subrange(pos + 1, start));
    assert(u.subrange(j, u.len() - 1) =~= s.subrange(stop, end));
    assert(u.subrange(i, j) =~= s.subrange(start, stop));
    assert(u[0] == s[pos]);
    assert(u[u.len() - 1] == s[end]);
    assert(encloses(u, i, j));
}

/// A minus sign, whitespace and a unary write the negation.
proof fn lemma_negation_writes(s: Seq<u8>, pos: int, start: int, end: int, inner: Ast)
    requires
        0 <= pos < s.len(),
        s[pos] == ASCII_MINUS,
        spans(Level::Unary, inner, s, pos + 1, start, end, end),
    ensures
        writes(Level::Unary, Ast::Neg(Box::new(inner)), s.subrange(pos, end)),
{
    let u = s.subrange(pos, end);
    let i = start - pos;
    assert(u.subrange(1, i) =~= s.subrange(pos + 1, start));
    assert(u.subrange(i, u.len() as int) =~= s.subrange(start, end));
    assert(u[0] == s[pos]);
    assert(negates(u, i));
}

/// A chain, an operator of its level and an operand write the node that
/// the operator makes of them.
proof fn lemma_chain_writes(
    level: Level,
    s: Seq<u8>,
    start: int,
    left_stop: int,
    at: int,
    right_start: int,
    stop: int,
    tree: Ast,
)
    requires
        level == Level::Additive || level == Level::Multiplicative,
        0 <= start < left_stop <= at < right_start < stop <= s.len(),
        writes(level, left_of(tree), s.subrange(start, left_stop)),
        all_spaces(s.subrange(left_stop, at)),
        joins(level, tree, left_of(tree), s[at], right_of(tree)),
        all_spaces(s.subrange(at + 1, right_start)),
        writes(level.operand(), right_of(tree), s.subrange(right_start, stop)),
    ensures
        writes(level, tree, s.subrange(start, stop)),
{
    let u = s.subrange(start, stop);
    let i = left_stop - start;
    let j = at - start;
    let k = right_start - start;
    assert(u.subrange(0, i) =~= s.subrange(start, left_stop));
    assert(u.subrange(i, j) =~= s.subrange(left_stop, at));
    assert(u.subrange(j + 1, k) =~= s.subrange(at + 1, right_start));
    assert(u.subrange(k, u.len() as int) =~= s.subrange(right_start, stop));
    assert(u[j] == s[at]);
    assert(splits(u, i, j, k));
}

/// What reading a primary gives is written by the text that was read.
pub proof fn lemma_primary_written(s: Seq<u8>, pos: int)
    requires
        0 <= pos <= s.len(),
        s.len() <= usize::MAX,
        primary_at(s, pos) is Ok,
    ensures
        spans(
            Level::Primary,
            primary_at(s, pos)->Ok_0.0,
            s,
            pos,
            pos,
            primary_at(s, pos)->Ok_0.1,
            primary_at(s, pos)->Ok_0.1,
        ),
    decreases s.len() - pos, 0nat,
{
    let end = primary_at(s, pos)->Ok_0.1;
    lemma_primary_reading(s, pos);
    assert(s.subrange(pos, pos) =~= Seq::<u8>::empty());
    assert(s.subrange(end, end) =~= Seq::<u8>::empty());
    if pos < s.len() && is_digit(s[pos]) {
        lemma_number_written(s, pos);
    } else {
        let (tree, inner_end) = additive_at(s, pos + 1)->Ok_0;
        lemma_additive_written(s, pos + 1);
        let after = pos + 1;
        let (start, stop) = choose|start: int, stop: int|
            spans(Level::Additive, tree, s, after, start, stop, inner_end);
        lemma_parentheses_write(s, pos, start, stop, inner_end, tree);
    }
}

/// What reading a unary gives is written by the text that was read, after
/// the whitespace that led it.
pub proof fn lemma_unary_written(s: Seq<u8>, pos: int)
    requires
        0 <= pos <= s.len(),
        s.len() <= usize::MAX,
        unary_at(s, pos) is Ok,
    ensures
        exists|start: int|
            spans(
                Level::Unary,
                unary_at(s, pos)->Ok_0.0,
                s,
                pos,
                start,
                unary_at(s, pos)->Ok_0.1,
                unary_at(s, pos)->Ok_0.1,
            ),
    decreases s.len() - pos, 1nat,
{
    let (tree, end) = unary_at(s, pos)->Ok_0;
    lemma_unary_reading(s, pos);
    assert(s.subrange(end, end) =~= Seq::<u8>::empty());
    if pos < s.len() && is_space(s[pos]) {
        lemma_unary_written(s, pos + 1);
        let after = pos + 1;
        let start = choose|start: int| spans(Level::Unary, tree, s, after, start, end, end);
        assert(all_spaces(s.subrange(pos, start))) by {
            let lead = s.subrange(pos, start);
            assert forall|i: int| 0 <= i < lead.len() implies is_space(#[trigger] lead[i]) by {
                if i > 0 {
                    assert(s.subrange(pos + 1, start)[i - 1] == lead[i]);
                }
            }
        }
        assert(spans(Level::Unary, tree, s, pos, start, end, end));
    } else if pos < s.len() && s[pos] == ASCII_MINUS {
        lemma_unary_written(s, pos + 1);
        let inner = unary_at(s, pos + 1)->Ok_0.0;
        let after = pos + 1;
        let start = choose|start: int| spans(Level::Unary, inner, s, after, start, end, end);
        lemma_negation_writes(s, pos, start, end, inner);
        assert(s.subrange(pos, pos) =~= Seq::<u8>::empty());
        assert(spans(Level::Unary, tree, s, pos, pos, end, end));
    } else {
        lemma_primary_written(s, pos);
        lemma_writes_up(tree, s.subrange(pos, end));
        assert(spans(Level::Unary, tree, s, pos, pos, end, end));
    }
}

/// What reading the rest of a multiplicative chain gives is written by
/// the text from the start of the chain, where what was read before
/// writes the operands so far.
pub proof fn lemma_multiplicative_tail_written(
    s: Seq<u8>,
    left: Ast,
    pos: int,
    from: int,
    start: int,
    stop: int,
)
    requires
        s.len() <= usize::MAX,
        spans(Level::Multiplicative, left, s, from, start, stop, pos),
        multiplicative_tail(s, left, pos) is Ok,
    ensures
        exists|stop2: int|
            spans(
                Level::Multiplicative,
                multiplicative_tail(s, left, pos)->Ok_0.0,
                s,
                from,
                start,
                stop2,
                multiplicative_tail(s, left, pos)->Ok_0.1,
            ),
    decreases s.len() - pos, 2nat,
{
    let (tree, end) = multiplicative_tail(s, left, pos)->Ok_0;
    if pos < s.len() && is_space(s[pos]) {
        lemma_spaces_extend(s, stop, pos);
        lemma_multiplicative_tail_written(s, left, pos + 1, from, start, stop);
    } else if pos < s.len() && (s[pos] == ASCII_STAR || s[pos] == ASCII_SLASH) {
        let (right, right_end) = unary_at(s, pos + 1)->Ok_0;
        lemma_unary_written(s, pos + 1);
        let after = pos + 1;
        let right_start = choose|right_start: int|
            spans(Level::Unary, right, s, after, right_start, right_end, right_end);
        let node = if s[pos] == ASCII_STAR {
            Ast::Mul(Box::new(left), Box::new(right))
        } else {
            Ast::Div(Box::new(left), Box::new(right))
        };
        lemma_chain_writes(Level::Multiplicative, s, start, stop, pos, right_start, right_end, node);
        lemma_multiplicative_tail_written(s, node, right_end, from, start, right_end);
    } else {
        assert(spans(Level::Multiplicative, tree, s, from, start, stop, end));
    }
}

/// What reading a multiplicative chain gives is written by the text that
/// was read, whitespace at its ends apart.
pub proof fn lemma_multiplicative_written(s: Seq<u8>, pos: int)
    requires
        0 <= pos <= s.len(),
        s.len() <= usize::MAX,
        multiplicative_at(s, pos) is Ok,
    ensures
        exists|start: int, stop: int|
            spans(
                Level::Multiplicative,
                multiplicative_at(s, pos)->Ok_0.0,
                s,
                pos,
                start,
                stop,
                multiplicative_at(s, pos)->Ok_0.1,
            ),
    decreases s.len() - pos, 3nat,
{
    let (left, left_end) = unary_at(s, pos)->Ok_0;
    lemma_unary_written(s, pos);
    let start = choose|start: int| spans(Level::Unary, left, s, pos, start, left_end, left_end);
    lemma_writes_up(left, s.subrange(start, left_end));
    lemma_multiplicative_tail_written(s, left, left_end, pos, start, left_end);
}

/// What reading the rest of an additive chain gives is written by the
/// text from the start of the chain, where what was read before writes
/// the operands so far.
pub proof fn lemma_additive_tail_written(
    s: Seq<u8>,
    left: Ast,
    pos: int,
    from: int,
    start: int,
    stop: int,
)
    requires
        s.len() <= usize::MAX,
        spans(Level::Additive, left, s, from, start, stop, pos),
        additive_tail(s, left, pos) is Ok,
    ensures
        exists|stop2: int|
            spans(
                Level::Additive,
                additive_tail(s, left, pos)->Ok_0.0,
                s,
                from,
                start,
                stop2,
                additive_tail(s, left, pos)->Ok_0.1,
            ),
    decreases s.len() - pos, 4nat,
{
    let (tree, end) = additive_tail(s, left, pos)->Ok_0;
    if pos < s.len() && is_space(s[pos]) {
        lemma_spaces_extend(s, stop, pos);
        lemma_additive_tail_written(s, left, pos + 1, from, start, stop);
    } else if pos < s.len() && (s[pos] == ASCII_PLUS || s[pos] == ASCII_MINUS) {
        let (right, right_end) = multiplicative_at(s, pos + 1)->Ok_0;
        lemma_multiplicative_written(s, pos + 1);
        let after = pos + 1;
        let (right_start, right_stop) = choose|right_start: int, right_stop: int|
            spans(Level::Multiplicative, right, s, after, right_start, right_stop, right_end);
        let node = if s[pos] == ASCII_PLUS {
            Ast::Add(Box::new(left), Box::new(right))
        } else {
            Ast::Sub(Box::new(left), Box::new(right))
        };
        lemma_chain_writes(Level::Additive, s, start, stop, pos, right_start, right_stop, node);
        lemma_additive_tail_written(s, node, right_end, from, start, right_stop);
    } else {
        assert(spans(Level::Additive, tree, s, from, start, stop, end));
    }
}

/// What reading an additive chain gives is written by the text that was
/// read, whitespace at its ends apart.
pub proof fn lemma_additive_written(s: Seq<u8>, pos: int)
    requires
        0 <= pos <= s.len(),
        s.len() <= usize::MAX,
        additive_at(s, pos) is Ok,
    ensures
        exists|start: int, stop: int|
            spans(
                Level::Additive,
                additive_at(s, pos)->Ok_0.0,
                s,
                pos,
                start,
                stop,
                additive_at(s, pos)->Ok_0.1,
            ),
    decreases s.len() - pos, 5nat,
{
    let (left, left_end) = multiplicative_at(s, pos)->Ok_0;
    lemma_multiplicative_written(s, pos);
    let (start, stop) = choose|start: int, stop: int|
        spans(Level::Multiplicative, left, s, pos, start, stop, left_end);
    lemma_writes_up(left, s.subrange(start, stop));
    lemma_additive_tail_written(s, left, left_end, pos, start, stop);
}

/// Soundness: a text that parses to a tree writes that tree.
pub proof fn lemma_parsed_is_written(s: Seq<u8>)
    requires
        s.len() <= usize::MAX,
        parse_text(s) is Ok,
    ensures
        sentence(parse_text(s)->Ok_0, s),
{
    let tree = parse_text(s)->Ok_0;
    lemma_additive_written(s, 0);
    let (start, stop) = choose|start: int, stop: int|
        spans(Level::Additive, tree, s, 0, start, stop, s.len() as int);
    assert(pads(s, start, stop));
}

} // verus!
