//! The canonical text of a syntax tree: every binary node in parentheses
//! with one space on each side of its operator, a minus sign directly
//! before what it negates, and numbers in plain decimal notation.

use vstd::prelude::*;
use vstd::string::*;
use crate::ast::{Ast, Expr};
use crate::grammar::{ASCII_CLOSE, ASCII_MINUS, ASCII_OPEN, ASCII_PLUS, ASCII_SLASH, ASCII_STAR};
use crate::literal::{ascii_digits, Numeral, ASCII_POINT};

verus! {

/// ASCII code of the space.
pub const ASCII_SPACE: u8 = 32;

/// `count` zeros.
pub open spec fn zeros(count: nat) -> Seq<u8> {
    Seq::new(count, |i: int| 0u8)
}

/// The digit values that the text of a numeral shows before the decimal
/// point: a single zero where the number is below one.
pub open spec fn integer_digits(n: Numeral) -> Seq<u8> {
    if n.scale < n.digits.len() {
        n.digits.subrange(0, n.digits.len() - n.scale)
    } else {
        seq![0u8]
    }
}

/// The digit values that the text of a numeral shows after the decimal
/// point: none where the scale is zero.
pub open spec fn fraction_digits(n: Numeral) -> Seq<u8> {
    if n.scale < n.digits.len() {
        n.digits.subrange(n.digits.len() - n.scale, n.digits.len() as int)
    } else {
        zeros((n.scale - n.digits.len()) as nat) + n.digits
    }
}

/// The text of a numeral.
pub open spec fn numeral_text(n: Numeral) -> Seq<u8> {
    if n.scale == 0 {
        ascii_digits(integer_digits(n))
    } else {
        ascii_digits(integer_digits(n)) + seq![ASCII_POINT] + ascii_digits(fraction_digits(n))
    }
}

/// The text of a binary node.
pub open spec fn binary_text(left: Seq<u8>, operator: u8, right: Seq<u8>) -> Seq<u8> {
    seq![ASCII_OPEN] + left + seq![ASCII_SPACE, operator, ASCII_SPACE] + right + seq![
        ASCII_CLOSE,
    ]
}

/// The canonical text of a tree.
pub open spec fn render(tree: Ast) -> Seq<u8>
    decreases tree,
{
    match tree {
        Ast::Number(n) => numeral_text(n),
        Ast::Add(l, r) => binary_text(render(*l), ASCII_PLUS, render(*r)),
        Ast::Sub(l, r) => binary_text(render(*l), ASCII_MINUS, render(*r)),
        Ast::Mul(l, r) => binary_text(render(*l), ASCII_STAR, render(*r)),
        Ast::Div(l, r) => binary_text(render(*l), ASCII_SLASH, render(*r)),
        Ast::Neg(e) => seq![ASCII_MINUS] + render(*e),
    }
}

/// Whether `b` is one of the sixteen bytes that canonical texts are made
/// of.
pub open spec fn is_text_byte(b: u8) -> bool {
    ||| 48 <= b <= 57
    ||| b == ASCII_POINT
    ||| b == ASCII_SPACE
    ||| b == ASCII_OPEN
    ||| b == ASCII_CLOSE
    ||| b == ASCII_PLUS
    ||| b == ASCII_MINUS
    ||| b == ASCII_STAR
    ||| b == ASCII_SLASH
}

/// Every byte is one that canonical texts are made of.
pub open spec fn all_text_bytes(s: Seq<u8>) -> bool {
    forall|i: int| 0 <= i < s.len() ==> is_text_byte(#[trigger] s[i])
}

/// The characters of an ASCII text.
pub open spec fn ascii_chars(s: Seq<u8>) -> Seq<char> {
    Seq::new(s.len(), |i: int| s[i] as char)
}

/// The one-character text of a byte of canonical texts.
fn text_of_byte(b: u8) -> (piece: &'static str)
    requires
        is_text_byte(b),
    ensures
        piece@ == seq![b as char],
{
    proof {
        reveal_strlit("0");
        reveal_strlit("1");
        reveal_strlit("2");
        reveal_strlit("3");
        reveal_strlit("4");
        reveal_strlit("5");
        reveal_strlit("6");
        reveal_strlit("7");
        reveal_strlit("8");
        reveal_strlit("9");
        reveal_strlit(".");
        reveal_strlit(" ");
        reveal_strlit("(");
        reveal_strlit(")");
        reveal_strlit("+");
        reveal_strlit("-");
        reveal_strlit("*");
        reveal_strlit("/");
    }
    let piece = if b == 48 {
        "0"
    } else if b == 49 {
        "1"
    } else if b == 50 {
        "2"
    } else if b == 51 {
        "3"
    } else if b == 52 {
        "4"
    } else if b == 53 {
        "5"
    } else if b == 54 {
        "6"
    } else if b == 55 {
        "7"
    } else if b == 56 {
        "8"
    } else if b == 57 {
        "9"
    } else if b == ASCII_POINT {
        "."
    } else if b == ASCII_SPACE {
        " "
    } else if b == ASCII_OPEN {
        "("
    } else if b == ASCII_CLOSE {
        ")"
    } else if b == ASCII_PLUS {
        "+"
    } else if b == ASCII_MINUS {
        "-"
    } else if b == ASCII_STAR {
        "*"
    } else {
        "/"
    };
    assert(piece@ =~= seq![b as char]);
    piece
}

/// The string whose characters are the given bytes.
pub(crate) fn string_of_text(bytes: &Vec<u8>) -> (r: String)
    requires
        all_text_bytes(bytes@),
    ensures
        r@ == ascii_chars(bytes@),
        vstd::utf8::encode_utf8(r@) == bytes@,
{
    let mut r = String::new();
    let mut i: usize = 0;
    while i < bytes.len()
        invariant
            i <= bytes.len(),
            all_text_bytes(bytes@),
            r@ == ascii_chars(bytes@.subrange(0, i as int)),
        decreases bytes.len() - i,
    {
        let piece = text_of_byte(bytes[i]);
        r.append(piece);
        proof {
            assert(ascii_chars(bytes@.subrange(0, i + 1)) =~= ascii_chars(
                bytes@.subrange(0, i as int),
            ) + seq![bytes@[i as int] as char]);
        }
        i = i + 1;
    }
    proof {
        assert(bytes@.subrange(0, i as int) =~= bytes@);
        lemma_ascii_chars_encode(bytes@);
    }
    r
}

/// The canonical text of a canonical tree is made of the sixteen bytes.
pub proof fn lemma_render_bytes(tree: Ast)
    requires
        tree.canonical(),
    ensures
        all_text_bytes(render(tree)),
        render(tree).len() > 0,
    decreases tree,
{
    match tree {
        Ast::Number(n) => {},
        Ast::Add(l, r) | Ast::Sub(l, r) | Ast::Mul(l, r) | Ast::Div(l, r) => {
            lemma_render_bytes(*l);
            lemma_render_bytes(*r);
        },
        Ast::Neg(e) => {
            lemma_render_bytes(*e);
        },
    }
}

impl Expr {
    /// Appends the canonical text of the tree to `out`.
    pub fn write_text(&self, out: &mut Vec<u8>)
        ensures
            final(out)@ == old(out)@ + render(self@),
            self@.canonical(),
        decreases self,
    {
        let ghost before = out@;
        match self {
            Expr::Number(literal) => {
                literal.write_text(out);
            },
            Expr::Add(l, r) => {
                out.push(ASCII_OPEN);
                l.write_text(out);
                Self::write_operator(ASCII_PLUS, out);
                r.write_text(out);
                out.push(ASCII_CLOSE);
                assert(out@ =~= before + binary_text(render(l@), ASCII_PLUS, render(r@)));
            },
            Expr::Sub(l, r) => {
                out.push(ASCII_OPEN);
                l.write_text(out);
                Self::write_operator(ASCII_MINUS, out);
                r.write_text(out);
                out.push(ASCII_CLOSE);
                assert(out@ =~= before + binary_text(render(l@), ASCII_MINUS, render(r@)));
            },
            Expr::Mul(l, r) => {
                out.push(ASCII_OPEN);
                l.write_text(out);
                Self::write_operator(ASCII_STAR, out);
                r.write_text(out);
                out.push(ASCII_CLOSE);
                assert(out@ =~= before + binary_text(render(l@), ASCII_STAR, render(r@)));
            },
            Expr::Div(l, r) => {
                out.push(ASCII_OPEN);
                l.write_text(out);
                Self::write_operator(ASCII_SLASH, out);
                r.write_text(out);
                out.push(ASCII_CLOSE);
                assert(out@ =~= before + binary_text(render(l@), ASCII_SLASH, render(r@)));
            },
            Expr::Neg(e) => {
                out.push(ASCII_MINUS);
                e.write_text(out);
                assert(out@ =~= before + (seq![ASCII_MINUS] + render(e@)));
            },
        }
    }

    /// Appends a binary operator with a space on each side.
    fn write_operator(operator: u8, out: &mut Vec<u8>)
        ensures
            final(out)@ == old(out)@ + seq![ASCII_SPACE, operator, ASCII_SPACE],
    {
        let ghost before = out@;
        out.push(ASCII_SPACE);
        out.push(operator);
        out.push(ASCII_SPACE);
        assert(out@ =~= before + seq![ASCII_SPACE, operator, ASCII_SPACE]);
    }

    /// The canonical text of the tree, as bytes.
    pub fn to_bytes(&self) -> (r: Vec<u8>)
        ensures
            r@ == render(self@),
    {
        let mut out: Vec<u8> = Vec::new();
        self.write_text(&mut out);
        assert(out@ =~= render(self@));
        out
    }

    /// The canonical text of the tree.
    pub fn to_string(&self) -> (r: String)
        ensures
            r@ == ascii_chars(render(self@)),
            vstd::utf8::encode_utf8(r@) == render(self@),
    {
        let mut out: Vec<u8> = Vec::new();
        self.write_text(&mut out);
        proof {
            assert(out@ =~= render(self@));
            lemma_render_bytes(self@);
        }
        string_of_text(&out)
    }
}

/// The UTF-8 encoding of the characters of an ASCII text is the text.
pub proof fn lemma_ascii_chars_encode(s: Seq<u8>)
    requires
        forall|i: int| 0 <= i < s.len() ==> s[i] < 128,
    ensures
        vstd::utf8::encode_utf8(ascii_chars(s)) == s,
{
    let chars = ascii_chars(s);
    assert(vstd::utf8::is_ascii_chars(chars));
    vstd::utf8::is_ascii_chars_encode_utf8(chars);
    assert(vstd::utf8::encode_utf8(chars) =~= s);
}

} // verus!
