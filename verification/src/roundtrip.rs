//! Printing and parsing are inverse: the canonical text of a tree parses
//! back to that tree.

use vstd::prelude::*;
use crate::ast::Ast;
use crate::error::ParseFailure;
use crate::eval::value_of_bytes;
use crate::grammar::{
    additive_at, additive_tail, multiplicative_at, multiplicative_tail, number_at, number_end,
    parse_text, primary_at, unary_at, ASCII_CLOSE, ASCII_MINUS, ASCII_OPEN, ASCII_PLUS,
    ASCII_SLASH, ASCII_STAR,
};
use crate::grammar_laws::{lemma_digits_end_of_run, lemma_parse_sound};
use crate::literal::{
    all_digit_values, ascii_digits, digit_values, is_digit, strip_leading_zeros,
    strip_trailing_zeros, Numeral, ASCII_POINT,
};
use crate::printer::{
    binary_text, fraction_digits, integer_digits, numeral_text, render, zeros, ASCII_SPACE,
};

verus! {

/// Whether what stands at `end` cannot continue a number or a chain: the
/// end of the text, a space or a closing parenthesis.
pub open spec fn terminated(s: Seq<u8>, end: int) -> bool {
    end == s.len() || (0 <= end < s.len() && (s[end] == ASCII_SPACE || s[end] == ASCII_CLOSE))
}

/// The binary node that an operator makes of two trees.
pub open spec fn binary_node(operator: u8, left: Ast, right: Ast) -> Ast {
    if operator == ASCII_PLUS {
        Ast::Add(Box::new(left), Box::new(right))
    } else if operator == ASCII_MINUS {
        Ast::Sub(Box::new(left), Box::new(right))
    } else if operator == ASCII_STAR {
        Ast::Mul(Box::new(left), Box::new(right))
    } else {
        Ast::Div(Box::new(left), Box::new(right))
    }
}

/// Zeros before a digit that is not zero are all that stripping removes.
proof fn lemma_strip_zero_run(count: nat, digits: Seq<u8>)
    requires
        digits.len() > 0,
        digits[0] != 0,
    ensures
        strip_leading_zeros(zeros(count) + digits) == digits,
    decreases count,
{
    let all = zeros(count) + digits;
    if count > 0 {
        assert(all.drop_first() =~= zeros((count - 1) as nat) + digits);
        lemma_strip_zero_run((count - 1) as nat, digits);
    } else {
        assert(all =~= digits);
    }
}

/// The digits that the text of a canonical numeral shows make that
/// numeral.
pub proof fn lemma_numeral_parts(n: Numeral)
    requires
        n.canonical(),
    ensures
        Numeral::of_parts(integer_digits(n), fraction_digits(n)) == n,
        all_digit_values(integer_digits(n)),
        all_digit_values(fraction_digits(n)),
        integer_digits(n).len() > 0,
        fraction_digits(n).len() == n.scale,
{
    let int_part = integer_digits(n);
    let frac_part = fraction_digits(n);
    let len = n.digits.len();
    if n.scale > 0 {
        assert(frac_part.last() == n.digits.last());
    }
    assert(strip_trailing_zeros(frac_part) == frac_part);
    if n.scale < len {
        assert(int_part + frac_part =~= n.digits);
        assert(strip_leading_zeros(n.digits) == n.digits);
    } else if len == 0 {
        assert(int_part + frac_part =~= seq![0u8]);
        assert(seq![0u8].drop_first() =~= Seq::<u8>::empty());
        assert(strip_leading_zeros(Seq::<u8>::empty()) =~= Seq::<u8>::empty());
        assert(strip_leading_zeros(seq![0u8]) =~= n.digits);
    } else {
        let padding = (n.scale - len) as nat;
        assert(int_part + frac_part =~= zeros(padding + 1) + n.digits);
        lemma_strip_zero_run(padding + 1, n.digits);
    }
}

/// Where the text of a canonical numeral stands in `s` at `pos`, and
/// neither a digit nor a decimal point follows it, the number read at
/// `pos` is that numeral and ends where the text ends.
pub proof fn lemma_number_reads(s: Seq<u8>, pos: int, n: Numeral)
    requires
        n.canonical(),
        0 <= pos,
        pos + numeral_text(n).len() <= s.len(),
        s.subrange(pos, pos + numeral_text(n).len()) == numeral_text(n),
        terminated(s, pos + numeral_text(n).len()),
    ensures
        is_digit(s[pos]),
        number_end(s, pos) == pos + numeral_text(n).len(),
        number_at(s, pos) == n,
{
    lemma_numeral_parts(n);
    let text = numeral_text(n);
    let int_part = integer_digits(n);
    let frac_part = fraction_digits(n);
    let int_end = pos + int_part.len();
    assert forall|k: int| pos <= k < pos + text.len() implies s[k] == text[k - pos] by {
        assert(s.subrange(pos, pos + text.len())[k - pos] == s[k]);
    }
    assert forall|k: int| pos <= k < int_end implies is_digit(s[k]) by {
        assert(text[k - pos] == ascii_digits(int_part)[k - pos]);
    }
    lemma_digits_end_of_run(s, pos, int_end);
    assert(digit_values(s.subrange(pos, int_end)) =~= int_part) by {
        assert forall|i: int| 0 <= i < int_part.len() implies digit_values(
            s.subrange(pos, int_end),
        )[i] == int_part[i] by {
            assert(text[i] == ascii_digits(int_part)[i]);
        }
    }
    if n.scale > 0 {
        let frac_start = int_end + 1;
        let frac_end = frac_start + frac_part.len();
        assert(text[int_part.len() as int] == ASCII_POINT);
        assert forall|k: int| frac_start <= k < frac_end implies is_digit(s[k]) by {
            assert(text[k - pos] == ascii_digits(frac_part)[k - frac_start]);
        }
        lemma_digits_end_of_run(s, frac_start, frac_end);
        assert(digit_values(s.subrange(frac_start, frac_end)) =~= frac_part) by {
            assert forall|i: int| 0 <= i < frac_part.len() implies digit_values(
                s.subrange(frac_start, frac_end),
            )[i] == frac_part[i] by {
                assert(text[i + int_part.len() + 1] == ascii_digits(frac_part)[i]);
            }
        }
    } else {
        assert(frac_part =~= Seq::<u8>::empty());
    }
}

/// Reading a parenthesized binary node whose operands read as `left` and
/// `right`.
proof fn lemma_binary_reads(
    s: Seq<u8>,
    pos: int,
    left: Ast,
    left_end: int,
    operator: u8,
    right: Ast,
    right_end: int,
)
    requires
        0 <= pos,
        s[pos] == ASCII_OPEN,
        unary_at(s, pos + 1) == Ok::<(Ast, int), ParseFailure>((left, left_end)),
        pos + 1 < left_end,
        s[left_end] == ASCII_SPACE,
        s[left_end + 1] == operator,
        operator == ASCII_PLUS || operator == ASCII_MINUS || operator == ASCII_STAR || operator
            == ASCII_SLASH,
        s[left_end + 2] == ASCII_SPACE,
        unary_at(s, left_end + 3) == Ok::<(Ast, int), ParseFailure>((right, right_end)),
        left_end + 3 < right_end < s.len(),
        s[right_end] == ASCII_CLOSE,
    ensures
        unary_at(s, pos) == Ok::<(Ast, int), ParseFailure>(
            (binary_node(operator, left, right), right_end + 1),
        ),
{
    let node = binary_node(operator, left, right);
    assert(unary_at(s, left_end + 2) == unary_at(s, left_end + 3));
    assert(multiplicative_tail(s, right, right_end) == Ok::<(Ast, int), ParseFailure>(
        (right, right_end),
    ));
    if operator == ASCII_PLUS || operator == ASCII_MINUS {
        assert(multiplicative_tail(s, left, left_end + 1) == Ok::<(Ast, int), ParseFailure>(
            (left, left_end + 1),
        ));
        assert(multiplicative_tail(s, left, left_end) == multiplicative_tail(
            s,
            left,
            left_end + 1,
        ));
        assert(multiplicative_at(s, pos + 1) == Ok::<(Ast, int), ParseFailure>(
            (left, left_end + 1),
        ));
        assert(multiplicative_at(s, left_end + 2) == Ok::<(Ast, int), ParseFailure>(
            (right, right_end),
        ));
        assert(additive_tail(s, node, right_end) == Ok::<(Ast, int), ParseFailure>(
            (node, right_end),
        ));
        assert(additive_tail(s, left, left_end + 1) == additive_tail(s, node, right_end));
    } else {
        assert(multiplicative_tail(s, node, right_end) == Ok::<(Ast, int), ParseFailure>(
            (node, right_end),
        ));
        assert(multiplicative_tail(s, left, left_end + 1) == multiplicative_tail(
            s,
            node,
            right_end,
        ));
        assert(multiplicative_tail(s, left, left_end) == multiplicative_tail(
            s,
            left,
            left_end + 1,
        ));
        assert(multiplicative_at(s, pos + 1) == Ok::<(Ast, int), ParseFailure>(
            (node, right_end),
        ));
        assert(additive_tail(s, node, right_end) == Ok::<(Ast, int), ParseFailure>(
            (node, right_end),
        ));
    }
    assert(additive_at(s, pos + 1) == Ok::<(Ast, int), ParseFailure>((node, right_end)));
    assert(primary_at(s, pos) == Ok::<(Ast, int), ParseFailure>((node, right_end + 1)));
}

/// Where the text of a binary node stands in `s` at `pos`: what stands
/// where.
proof fn lemma_binary_layout(s: Seq<u8>, pos: int, l: Seq<u8>, operator: u8, r: Seq<u8>)
    requires
        0 <= pos,
        pos + binary_text(l, operator, r).len() <= s.len(),
        s.subrange(pos, pos + binary_text(l, operator, r).len()) == binary_text(l, operator, r),
    ensures
        binary_text(l, operator, r).len() == l.len() + r.len() + 5,
        s[pos] == ASCII_OPEN,
        s.subrange(pos + 1, pos + 1 + l.len()) == l,
        s[pos + 1 + l.len()] == ASCII_SPACE,
        s[pos + 2 + l.len()] == operator,
        s[pos + 3 + l.len()] == ASCII_SPACE,
        s.subrange(pos + 4 + l.len(), pos + 4 + l.len() + r.len()) == r,
        s[pos + 4 + l.len() + r.len()] == ASCII_CLOSE,
{
    let text = binary_text(l, operator, r);
    assert forall|k: int| pos <= k < pos + text.len() implies s[k] == text[k - pos] by {
        assert(s.subrange(pos, pos + text.len())[k - pos] == s[k]);
    }
    let left_end = pos + 1 + l.len();
    let right_end = left_end + 3 + r.len();
    assert(s[pos] == text[0]);
    assert(s[left_end] == text[left_end - pos]);
    assert(s[left_end + 1] == text[left_end + 1 - pos]);
    assert(s[left_end + 2] == text[left_end + 2 - pos]);
    assert(s[right_end] == text[right_end - pos]);
    assert(s.subrange(pos + 1, left_end) =~= l);
    assert(s.subrange(left_end + 3, right_end) =~= r);
}

/// Where the canonical text of a canonical tree stands in `s` at `pos`,
/// and the end of the text, a space or a closing parenthesis follows it,
/// reading a unary at `pos` gives the tree and ends where its text ends.
pub proof fn lemma_unary_reads(s: Seq<u8>, pos: int, tree: Ast)
    requires
        tree.canonical(),
        0 <= pos,
        pos + render(tree).len() <= s.len(),
        s.subrange(pos, pos + render(tree).len()) == render(tree),
        terminated(s, pos + render(tree).len()),
    ensures
        render(tree).len() > 0,
        unary_at(s, pos) == Ok::<(Ast, int), ParseFailure>((tree, pos + render(tree).len())),
    decreases tree,
{
    crate::printer::lemma_render_bytes(tree);
    match tree {
        Ast::Number(n) => {
            lemma_number_reads(s, pos, n);
            assert(primary_at(s, pos) == Ok::<(Ast, int), ParseFailure>(
                (tree, pos + render(tree).len()),
            ));
            assert(unary_at(s, pos) == primary_at(s, pos));
        },
        Ast::Neg(e) => {
            let text = render(tree);
            let inner = render(*e);
            assert(s.subrange(pos, pos + text.len())[0] == s[pos]);
            assert(s.subrange(pos + 1, pos + 1 + inner.len()) =~= s.subrange(
                pos,
                pos + text.len(),
            ).subrange(1, text.len() as int));
            assert(text.subrange(1, text.len() as int) =~= inner);
            lemma_unary_reads(s, pos + 1, *e);
        },
        Ast::Add(l, r) => {
            let left_end = pos + 1 + render(*l).len();
            lemma_binary_layout(s, pos, render(*l), ASCII_PLUS, render(*r));
            lemma_unary_reads(s, pos + 1, *l);
            lemma_unary_reads(s, left_end + 3, *r);
            lemma_binary_reads(
                s,
                pos,
                *l,
                left_end,
                ASCII_PLUS,
                *r,
                left_end + 3 + render(*r).len(),
            );
        },
        Ast::Sub(l, r) => {
            let left_end = pos + 1 + render(*l).len();
            lemma_binary_layout(s, pos, render(*l), ASCII_MINUS, render(*r));
            lemma_unary_reads(s, pos + 1, *l);
            lemma_unary_reads(s, left_end + 3, *r);
            lemma_binary_reads(
                s,
                pos,
                *l,
                left_end,
                ASCII_MINUS,
                *r,
                left_end + 3 + render(*r).len(),
            );
        },
        Ast::Mul(l, r) => {
            let left_end = pos + 1 + render(*l).len();
            lemma_binary_layout(s, pos, render(*l), ASCII_STAR, render(*r));
            lemma_unary_reads(s, pos + 1, *l);
            lemma_unary_reads(s, left_end + 3, *r);
            lemma_binary_reads(
                s,
                pos,
                *l,
                left_end,
                ASCII_STAR,
                *r,
                left_end + 3 + render(*r).len(),
            );
        },
        Ast::Div(l, r) => {
            let left_end = pos + 1 + render(*l).len();
            lemma_binary_layout(s, pos, render(*l), ASCII_SLASH, render(*r));
            lemma_unary_reads(s, pos + 1, *l);
            lemma_unary_reads(s, left_end + 3, *r);
            lemma_binary_reads(
                s,
                pos,
                *l,
                left_end,
                ASCII_SLASH,
                *r,
                left_end + 3 + render(*r).len(),
            );
        },
    }
}

/// The canonical text of a canonical tree parses back to the tree.
pub proof fn lemma_render_parses(tree: Ast)
    requires
        tree.canonical(),
    ensures
        parse_text(render(tree)) == Ok::<Ast, ParseFailure>(tree),
{
    let s = render(tree);
    assert(s.subrange(0, s.len() as int) =~= s);
    lemma_unary_reads(s, 0, tree);
    let end = s.len() as int;
    assert(multiplicative_tail(s, tree, end) == Ok::<(Ast, int), ParseFailure>((tree, end)));
    assert(multiplicative_at(s, 0) == Ok::<(Ast, int), ParseFailure>((tree, end)));
    assert(additive_tail(s, tree, end) == Ok::<(Ast, int), ParseFailure>((tree, end)));
    assert(additive_at(s, 0) == Ok::<(Ast, int), ParseFailure>((tree, end)));
}

/// Round trip: where a text parses, the canonical text of its tree parses
/// to the same tree, and so evaluates to the same value or the same error
/// as the text itself.
pub proof fn lemma_round_trip(s: Seq<u8>)
    requires
        s.len() <= usize::MAX,
        parse_text(s) is Ok,
    ensures
        parse_text(render(parse_text(s)->Ok_0)) == parse_text(s),
        value_of_bytes(render(parse_text(s)->Ok_0)) == value_of_bytes(s),
{
    lemma_parse_sound(s);
    lemma_render_parses(parse_text(s)->Ok_0);
}

} // verus!
