//! Completeness of the parser: a text that writes a tree parses to that
//! tree. With it, a text parses to a tree exactly where it writes the
//! tree, and no text writes two trees.

use vstd::prelude::*;
use crate::ast::Ast;
use crate::error::ParseFailure;
use crate::grammar::{
    additive_at, additive_tail, is_space, multiplicative_at, multiplicative_tail, number_at,
    number_end, parse_text, primary_at, unary_at, Reading, ASCII_MINUS, ASCII_OPEN, ASCII_PLUS,
    ASCII_SLASH, ASCII_STAR,
};
use crate::grammar_laws::{
    lemma_digits_end_of_run, lemma_multiplicative_reading, lemma_unary_reading,
};
use crate::language::{
    all_spaces, encloses, joins, left_of, negates, pads, right_of, sentence, splits, writes,
    writes_number, writes_number_at, Level,
};
use crate::language_laws::lemma_parsed_is_written;
use crate::literal::{is_digit, Numeral, ASCII_POINT};

verus! {

/// The offset of the first byte at or after `pos` that is no whitespace.
pub open spec fn skip_spaces(s: Seq<u8>, pos: int) -> int
    decreases s.len() - pos,
{
    if 0 <= pos < s.len() && is_space(s[pos]) {
        skip_spaces(s, pos + 1)
    } else {
        pos
    }
}

/// Whether what stands at `end` cannot go on a number: neither a digit
/// nor a decimal point.
pub open spec fn ends_number(s: Seq<u8>, end: int) -> bool {
    end >= s.len() || !(is_digit(s[end]) || s[end] == ASCII_POINT)
}

/// Whether what follows `end`, whitespace apart, cannot go on a
/// multiplicative chain.
pub open spec fn ends_product(s: Seq<u8>, end: int) -> bool {
    let next = skip_spaces(s, end);
    next >= s.len() || (s[next] != ASCII_STAR && s[next] != ASCII_SLASH)
}

/// Whether what follows `end`, whitespace apart, cannot go on an additive
/// chain.
pub open spec fn ends_sum(s: Seq<u8>, end: int) -> bool {
    let next = skip_spaces(s, end);
    next >= s.len() || (s[next] != ASCII_STAR && s[next] != ASCII_SLASH && s[next]
        != ASCII_PLUS && s[next] != ASCII_MINUS)
}

/// Whitespace is skipped up to the first byte that is none.
proof fn lemma_skip_to(s: Seq<u8>, from: int, to: int)
    requires
        0 <= from <= to <= s.len(),
        all_spaces(s.subrange(from, to)),
        to < s.len() ==> !is_space(s[to]),
    ensures
        skip_spaces(s, from) == to,
    decreases to - from,
{
    if from < to {
        assert(s.subrange(from, to)[0] == s[from]);
        lemma_rest_spaces(s, from, to);
        lemma_skip_to(s, from + 1, to);
    }
}

/// Whitespace without its first byte is whitespace.
proof fn lemma_rest_spaces(s: Seq<u8>, from: int, to: int)
    requires
        0 <= from < to <= s.len(),
        all_spaces(s.subrange(from, to)),
    ensures
        all_spaces(s.subrange(from + 1, to)),
        is_space(s[from]),
{
    let all = s.subrange(from, to);
    let rest = s.subrange(from + 1, to);
    assert(all[0] == s[from]);
    assert forall|i: int| 0 <= i < rest.len() implies is_space(#[trigger] rest[i]) by {
        assert(all[i + 1] == rest[i]);
    }
}

/// Skipping whitespace ends inside the text, and skips whitespace only.
proof fn lemma_skip_spaces(s: Seq<u8>, pos: int)
    requires
        0 <= pos <= s.len(),
    ensures
        pos <= skip_spaces(s, pos) <= s.len(),
        all_spaces(s.subrange(pos, skip_spaces(s, pos))),
        skip_spaces(s, pos) < s.len() ==> !is_space(s[skip_spaces(s, pos)]),
    decreases s.len() - pos,
{
    if pos < s.len() && is_space(s[pos]) {
        lemma_skip_spaces(s, pos + 1);
        let to = skip_spaces(s, pos);
        let all = s.subrange(pos, to);
        assert forall|i: int| 0 <= i < all.len() implies is_space(#[trigger] all[i]) by {
            if i > 0 {
                assert(s.subrange(pos + 1, to)[i - 1] == all[i]);
            }
        }
    } else {
        assert(s.subrange(pos, pos) =~= Seq::<u8>::empty());
    }
}

/// Reading a unary passes over the whitespace that leads it.
proof fn lemma_unary_skips(s: Seq<u8>, from: int, to: int)
    requires
        0 <= from <= to <= s.len(),
        all_spaces(s.subrange(from, to)),
    ensures
        unary_at(s, from) == unary_at(s, to),
    decreases to - from,
{
    if from < to {
        lemma_rest_spaces(s, from, to);
        lemma_unary_skips(s, from + 1, to);
    }
}

/// Reading a multiplicative chain passes over the whitespace that leads
/// it.
proof fn lemma_multiplicative_skips(s: Seq<u8>, from: int, to: int)
    requires
        0 <= from <= to <= s.len(),
        s.len() <= usize::MAX,
        all_spaces(s.subrange(from, to)),
    ensures
        multiplicative_at(s, from) == multiplicative_at(s, to),
{
    lemma_unary_skips(s, from, to);
    lemma_unary_reading(s, to);
}

/// Reading an additive chain passes over the whitespace that leads it.
proof fn lemma_additive_skips(s: Seq<u8>, from: int, to: int)
    requires
        0 <= from <= to <= s.len(),
        s.len() <= usize::MAX,
        all_spaces(s.subrange(from, to)),
    ensures
        additive_at(s, from) == additive_at(s, to),
{
    lemma_multiplicative_skips(s, from, to);
    lemma_multiplicative_reading(s, to);
}

/// Reading the rest of a multiplicative chain passes over whitespace.
proof fn lemma_multiplicative_tail_skips(s: Seq<u8>, left: Ast, from: int, to: int)
    requires
        0 <= from <= to <= s.len(),
        all_spaces(s.subrange(from, to)),
    ensures
        multiplicative_tail(s, left, from) == multiplicative_tail(s, left, to),
    decreases to - from,
{
    if from < to {
        lemma_rest_spaces(s, from, to);
        lemma_multiplicative_tail_skips(s, left, from + 1, to);
    }
}

/// Reading the rest of an additive chain passes over whitespace.
proof fn lemma_additive_tail_skips(s: Seq<u8>, left: Ast, from: int, to: int)
    requires
        0 <= from <= to <= s.len(),
        all_spaces(s.subrange(from, to)),
    ensures
        additive_tail(s, left, from) == additive_tail(s, left, to),
    decreases to - from,
{
    if from < to {
        lemma_rest_spaces(s, from, to);
        lemma_additive_tail_skips(s, left, from + 1, to);
    }
}

/// A multiplicative chain that nothing goes on ends after the whitespace
/// that follows it.
proof fn lemma_product_stops(s: Seq<u8>, tree: Ast, end: int)
    requires
        0 <= end <= s.len(),
        ends_product(s, end),
    ensures
        multiplicative_tail(s, tree, end) == Ok::<(Ast, int), ParseFailure>(
            (tree, skip_spaces(s, end)),
        ),
{
    lemma_skip_spaces(s, end);
    let next = skip_spaces(s, end);
    lemma_multiplicative_tail_skips(s, tree, end, next);
}

/// An additive chain that nothing goes on ends after the whitespace that
/// follows it.
proof fn lemma_sum_stops(s: Seq<u8>, tree: Ast, end: int)
    requires
        0 <= end <= s.len(),
        ends_sum(s, end),
    ensures
        additive_tail(s, tree, end) == Ok::<(Ast, int), ParseFailure>(
            (tree, skip_spaces(s, end)),
        ),
{
    lemma_skip_spaces(s, end);
    let next = skip_spaces(s, end);
    lemma_additive_tail_skips(s, tree, end, next);
}

/// A text that writes a tree is not empty, and begins with a digit, an
/// opening parenthesis or a minus sign.
pub proof fn lemma_written_begins(level: Level, tree: Ast, s: Seq<u8>)
    requires
        writes(level, tree, s),
    ensures
        s.len() > 0,
        is_digit(s[0]) || s[0] == ASCII_OPEN || s[0] == ASCII_MINUS,
    decreases s.len(), level.rank(),
{
    match level {
        Level::Primary => {
            if tree is Number && writes_number(s, tree->Number_0) {
                let n = tree->Number_0;
                let k = choose|k: int| writes_number_at(s, n, k);
                assert(s.subrange(0, k)[0] == s[0]);
            }
        },
        Level::Unary => {
            if writes(Level::Primary, tree, s) {
                lemma_written_begins(Level::Primary, tree, s);
            }
        },
        Level::Multiplicative | Level::Additive => {
            if writes(level.operand(), tree, s) {
                lemma_written_begins(level.operand(), tree, s);
            } else {
                let (i, j, k) = choose|i: int, j: int, k: int| #[trigger]
                    splits(s, i, j, k) && joins(
                        level,
                        tree,
                        left_of(tree),
                        s[j],
                        right_of(tree),
                    ) && writes(level, left_of(tree), s.subrange(0, i)) && writes(
                        level.operand(),
                        right_of(tree),
                        s.subrange(k, s.len() as int),
                    );
                lemma_written_begins(level, left_of(tree), s.subrange(0, i));
                assert(s.subrange(0, i)[0] == s[0]);
            }
        },
    }
}

/// Where a text that writes a numeral stands in `s` from `start` to
/// `end`, and neither a digit nor a decimal point follows, the number
/// read at `start` is that numeral and ends at `end`.
proof fn lemma_written_number_reads(s: Seq<u8>, start: int, end: int, n: Numeral)
    requires
        0 <= start <= end <= s.len(),
        writes_number(s.subrange(start, end), n),
        ends_number(s, end),
    ensures
        start < end,
        is_digit(s[start]),
        number_end(s, start) == end,
        number_at(s, start) == n,
{
    let u = s.subrange(start, end);
    let k = choose|k: int| writes_number_at(u, n, k);
    let int_end = start + k;
    assert(u.subrange(0, k) =~= s.subrange(start, int_end));
    assert forall|x: int| start <= x < int_end implies is_digit(s[x]) by {
        assert(s.subrange(start, int_end)[x - start] == s[x]);
    }
    if k == u.len() {
        lemma_digits_end_of_run(s, start, int_end);
    } else {
        assert(u[k] == s[int_end]);
        lemma_digits_end_of_run(s, start, int_end);
        assert(u.subrange(k + 1, u.len() as int) =~= s.subrange(int_end + 1, end));
        assert forall|x: int| int_end + 1 <= x < end implies is_digit(s[x]) by {
            assert(s.subrange(int_end + 1, end)[x - int_end - 1] == s[x]);
        }
        lemma_digits_end_of_run(s, int_end + 1, end);
    }
}

/// What reading at `start` gives where `s[start..end]` writes `tree` at
/// `level` and no number goes on at `end`: a primary or a unary reads as
/// the tree and ends at `end`; a chain reads as its rest from `end` does
/// with the tree for the operands so far.
pub open spec fn reads_written(level: Level, tree: Ast, s: Seq<u8>, start: int, end: int) -> bool {
    match level {
        Level::Primary => primary_at(s, start) == Ok::<(Ast, int), ParseFailure>((tree, end))
            && unary_at(s, start) == primary_at(s, start),
        Level::Unary => unary_at(s, start) == Ok::<(Ast, int), ParseFailure>((tree, end)),
        Level::Multiplicative => multiplicative_at(s, start) == multiplicative_tail(
            s,
            tree,
            end,
        ),
        Level::Additive => ends_product(s, end) ==> additive_at(s, start) == additive_tail(
            s,
            tree,
            end,
        ),
    }
}

/// The text of a primary in parentheses reads as what stands inside.
proof fn lemma_enclosed_reads(s: Seq<u8>, start: int, end: int, tree: Ast, i: int, j: int)
    requires
        0 <= start < end <= s.len(),
        s.len() <= usize::MAX,
        encloses(s.subrange(start, end), i, j),
        reads_written(Level::Additive, tree, s, start + i, start + j),
    ensures
        reads_written(Level::Primary, tree, s, start, end),
{
    let u = s.subrange(start, end);
    assert(u[0] == s[start]);
    assert(u[u.len() - 1] == s[end - 1]);
    assert(u.subrange(1, i) =~= s.subrange(start + 1, start + i));
    assert(u.subrange(j, u.len() - 1) =~= s.subrange(start + j, end - 1));
    lemma_additive_skips(s, start + 1, start + i);
    lemma_skip_to(s, start + j, end - 1);
    lemma_sum_stops(s, tree, start + j);
    assert(primary_at(s, start) == Ok::<(Ast, int), ParseFailure>((tree, end)));
}

/// The text of a negation reads as the negation of what follows the
/// minus sign.
proof fn lemma_negated_reads(s: Seq<u8>, start: int, end: int, inner: Ast, i: int)
    requires
        0 <= start < end <= s.len(),
        negates(s.subrange(start, end), i),
        reads_written(Level::Unary, inner, s, start + i, end),
    ensures
        reads_written(Level::Unary, Ast::Neg(Box::new(inner)), s, start, end),
{
    let u = s.subrange(start, end);
    assert(u[0] == s[start]);
    assert(u.subrange(1, i) =~= s.subrange(start + 1, start + i));
    lemma_unary_skips(s, start + 1, start + i);
}

/// The text of a chain with an operator reads as its rest does.
proof fn lemma_split_reads(
    level: Level,
    s: Seq<u8>,
    start: int,
    end: int,
    tree: Ast,
    i: int,
    j: int,
    k: int,
)
    requires
        level == Level::Additive || level == Level::Multiplicative,
        0 <= start < end <= s.len(),
        s.len() <= usize::MAX,
        splits(s.subrange(start, end), i, j, k),
        joins(level, tree, left_of(tree), s[start + j], right_of(tree)),
        reads_written(level, left_of(tree), s, start, start + i),
        reads_written(level.operand(), right_of(tree), s, start + k, end),
        k < end - start,
    ensures
        reads_written(level, tree, s, start, end),
{
    let u = s.subrange(start, end);
    let at = start + j;
    assert(u.subrange(i, j) =~= s.subrange(start + i, at));
    assert(u.subrange(j + 1, k) =~= s.subrange(at + 1, start + k));
    lemma_skip_to(s, start + i, at);
    if level == Level::Multiplicative {
        lemma_multiplicative_tail_skips(s, left_of(tree), start + i, at);
        lemma_unary_skips(s, at + 1, start + k);
        assert(multiplicative_tail(s, left_of(tree), at) == multiplicative_tail(s, tree, end));
    } else {
        if ends_product(s, end) {
            lemma_additive_tail_skips(s, left_of(tree), start + i, at);
            lemma_multiplicative_skips(s, at + 1, start + k);
            lemma_product_stops(s, right_of(tree), end);
            lemma_skip_spaces(s, end);
            let next = skip_spaces(s, end);
            lemma_additive_tail_skips(s, tree, end, next);
            assert(additive_tail(s, left_of(tree), at) == additive_tail(s, tree, next));
        }
    }
}

/// Where `s[start..end]` writes `tree` at `level` and no number goes on
/// at `end`, reading at `start` finds the tree.
pub proof fn lemma_written_reads(level: Level, tree: Ast, s: Seq<u8>, start: int, end: int)
    requires
        0 <= start <= end <= s.len(),
        s.len() <= usize::MAX,
        writes(level, tree, s.subrange(start, end)),
        ends_number(s, end),
    ensures
        start < end,
        reads_written(level, tree, s, start, end),
    decreases end - start, level.rank(),
{
    let u = s.subrange(start, end);
    lemma_written_begins(level, tree, u);
    assert(u[0] == s[start]);
    match level {
        Level::Primary => {
            if tree is Number && writes_number(u, tree->Number_0) {
                lemma_written_number_reads(s, start, end, tree->Number_0);
            } else {
                let (i, j) = choose|i: int, j: int| #[trigger]
                    encloses(u, i, j) && writes(Level::Additive, tree, u.subrange(i, j));
                assert(u.subrange(i, j) =~= s.subrange(start + i, start + j));
                assert(u.subrange(j, u.len() - 1) =~= s.subrange(start + j, end - 1));
                assert(u[u.len() - 1] == s[end - 1]);
                if j < u.len() - 1 {
                    assert(s.subrange(start + j, end - 1)[0] == s[start + j]);
                }
                lemma_written_reads(Level::Additive, tree, s, start + i, start + j);
                lemma_skip_to(s, start + j, end - 1);
                lemma_enclosed_reads(s, start, end, tree, i, j);
            }
        },
        Level::Unary => {
            if writes(Level::Primary, tree, u) {
                lemma_written_reads(Level::Primary, tree, s, start, end);
            } else {
                let inner = tree->Neg_0;
                let i = choose|i: int| #[trigger]
                    negates(u, i) && writes(Level::Unary, *inner, u.subrange(i, u.len() as int));
                assert(u.subrange(i, u.len() as int) =~= s.subrange(start + i, end));
                lemma_written_reads(Level::Unary, *inner, s, start + i, end);
                lemma_negated_reads(s, start, end, *inner, i);
            }
        },
        Level::Multiplicative | Level::Additive => {
            if writes(level.operand(), tree, u) {
                lemma_written_reads(level.operand(), tree, s, start, end);
                if level == Level::Multiplicative {
                    lemma_unary_reading(s, start);
                } else {
                    if ends_product(s, end) {
                        lemma_product_stops(s, tree, end);
                        lemma_skip_spaces(s, end);
                        lemma_additive_tail_skips(s, tree, end, skip_spaces(s, end));
                    }
                }
            } else {
                let (i, j, k) = choose|i: int, j: int, k: int| #[trigger]
                    splits(u, i, j, k) && joins(
                        level,
                        tree,
                        left_of(tree),
                        u[j],
                        right_of(tree),
                    ) && writes(level, left_of(tree), u.subrange(0, i)) && writes(
                        level.operand(),
                        right_of(tree),
                        u.subrange(k, u.len() as int),
                    );
                assert(u.subrange(0, i) =~= s.subrange(start, start + i));
                assert(u.subrange(k, u.len() as int) =~= s.subrange(start + k, end));
                assert(u.subrange(i, j) =~= s.subrange(start + i, start + j));
                assert(u[j] == s[start + j]);
                if i < j {
                    assert(s.subrange(start + i, start + j)[0] == s[start + i]);
                }
                lemma_skip_to(s, start + i, start + j);
                lemma_written_reads(level, left_of(tree), s, start, start + i);
                lemma_written_reads(level.operand(), right_of(tree), s, start + k, end);
                lemma_split_reads(level, s, start, end, tree, i, j, k);
            }
        },
    }
}

/// Completeness: a text that writes a tree parses to that tree.
pub proof fn lemma_written_is_parsed(s: Seq<u8>, tree: Ast)
    requires
        s.len() <= usize::MAX,
        sentence(tree, s),
    ensures
        parse_text(s) == Ok::<Ast, ParseFailure>(tree),
{
    let (i, j) = choose|i: int, j: int| #[trigger]
        pads(s, i, j) && writes(Level::Additive, tree, s.subrange(i, j));
    let len = s.len() as int;
    if j < len {
        assert(s.subrange(j, len)[0] == s[j]);
    }
    lemma_written_reads(Level::Additive, tree, s, i, j);
    lemma_additive_skips(s, 0, i);
    lemma_skip_to(s, j, len);
    lemma_sum_stops(s, tree, j);
}

/// A text parses to a tree exactly where it writes the tree.
pub proof fn lemma_parses_iff_written(s: Seq<u8>, tree: Ast)
    requires
        s.len() <= usize::MAX,
    ensures
        parse_text(s) == Ok::<Ast, ParseFailure>(tree) <==> sentence(tree, s),
{
    if sentence(tree, s) {
        lemma_written_is_parsed(s, tree);
    }
    if parse_text(s) == Ok::<Ast, ParseFailure>(tree) {
        lemma_parsed_is_written(s);
    }
}

/// The grammar is unambiguous: no text writes two trees.
pub proof fn lemma_unambiguous(s: Seq<u8>, first: Ast, second: Ast)
    requires
        s.len() <= usize::MAX,
        sentence(first, s),
        sentence(second, s),
    ensures
        first == second,
{
    lemma_written_is_parsed(s, first);
    lemma_written_is_parsed(s, second);
}

} // verus!
