//! Decimal literals, held exactly.
//!
//! A literal such as `0.250` denotes the rational 25/100. It is kept as its
//! significant digits and a scale, in a canonical form: without the zeros
//! that lead and without the zeros that end the fraction, neither of which
//! changes the number denoted.

use vstd::prelude::*;
use crate::binary64::Binary64;
use crate::conversion::{nearest_bits, numeral_bits};
use crate::printer::{fraction_digits, numeral_text, zeros};

verus! {

/// ASCII code of the digit `0`.
pub const ASCII_ZERO: u8 = 48;

/// ASCII code of the digit `9`.
pub const ASCII_NINE: u8 = 57;

/// ASCII code of the decimal point.
pub const ASCII_POINT: u8 = 46;

/// Whether `b` is an ASCII decimal digit.
pub open spec fn is_digit(b: u8) -> bool {
    ASCII_ZERO <= b <= ASCII_NINE
}

/// Every element is a digit value, 0 to 9.
pub open spec fn all_digit_values(s: Seq<u8>) -> bool {
    forall|i: int| 0 <= i < s.len() ==> s[i] <= 9
}

/// Every element is an ASCII digit.
pub open spec fn all_ascii_digits(s: Seq<u8>) -> bool {
    forall|i: int| 0 <= i < s.len() ==> is_digit(s[i])
}

/// The digit values of a run of ASCII digits.
pub open spec fn digit_values(text: Seq<u8>) -> Seq<u8> {
    Seq::new(text.len(), |i: int| (text[i] - ASCII_ZERO) as u8)
}

/// The ASCII digits of a run of digit values.
pub open spec fn ascii_digits(values: Seq<u8>) -> Seq<u8> {
    Seq::new(values.len(), |i: int| (values[i] + ASCII_ZERO) as u8)
}

/// The natural number written by `digits`, most significant digit first.
pub open spec fn digits_value(digits: Seq<u8>) -> nat
    decreases digits.len(),
{
    if digits.len() == 0 {
        0
    } else {
        digits_value(digits.drop_last()) * 10 + digits.last() as nat
    }
}

/// `digits` without its leading zeros.
pub open spec fn strip_leading_zeros(digits: Seq<u8>) -> Seq<u8>
    decreases digits.len(),
{
    if digits.len() > 0 && digits[0] == 0 {
        strip_leading_zeros(digits.drop_first())
    } else {
        digits
    }
}

/// `digits` without its trailing zeros.
pub open spec fn strip_trailing_zeros(digits: Seq<u8>) -> Seq<u8>
    decreases digits.len(),
{
    if digits.len() > 0 && digits.last() == 0 {
        strip_trailing_zeros(digits.drop_last())
    } else {
        digits
    }
}

/// Ten to the power `n`.
pub open spec fn pow10(n: nat) -> nat
    decreases n,
{
    if n == 0 {
        1
    } else {
        10 * pow10((n - 1) as nat)
    }
}

/// The mathematical content of a decimal literal: the number
/// `digits_value(digits) / pow10(scale)`.
pub struct Numeral {
    /// Significant digits as values 0 to 9, most significant first.
    pub digits: Seq<u8>,
    /// How many of the digits stand after the decimal point. It may exceed
    /// the number of digits: `0.001` has one digit and scale three.
    pub scale: nat,
}

impl Numeral {
    /// No leading zero among the digits, and no trailing zero after the
    /// decimal point. Zero has no digits and scale zero.
    pub open spec fn canonical(self) -> bool {
        &&& all_digit_values(self.digits)
        &&& (self.digits.len() > 0 ==> self.digits[0] != 0)
        &&& (self.scale > 0 ==> self.digits.len() > 0 && self.digits.last() != 0)
    }

    /// Numerator of the number denoted.
    pub open spec fn numerator(self) -> nat {
        digits_value(self.digits)
    }

    /// Denominator of the number denoted.
    pub open spec fn denominator(self) -> nat {
        pow10(self.scale)
    }

    /// The canonical numeral of a literal with the given digit values before
    /// and after the decimal point.
    pub open spec fn of_parts(int_part: Seq<u8>, frac_part: Seq<u8>) -> Numeral {
        let frac = strip_trailing_zeros(frac_part);
        Numeral { digits: strip_leading_zeros(int_part + frac), scale: frac.len() }
    }
}

/// A decimal literal, held exactly in canonical form.
#[derive(Debug, PartialEq, Eq)]
pub struct Decimal {
    digits: Vec<u8>,
    scale: usize,
}

impl View for Decimal {
    type V = Numeral;

    closed spec fn view(&self) -> Numeral {
        Numeral { digits: self.digits@, scale: self.scale as nat }
    }
}

impl Clone for Decimal {
    fn clone(&self) -> (copy: Decimal)
        ensures
            copy@ == self@,
    {
        proof {
            use_type_invariant(self);
        }
        Decimal { digits: self.digits.clone(), scale: self.scale }
    }
}

impl Decimal {
    #[verifier::type_invariant]
    spec fn well_formed(self) -> bool {
        self@.canonical()
    }

    /// The binary64 nearest to the number that the literal denotes;
    /// infinity where the number lies beyond the range.
    pub fn to_binary64(&self) -> (r: Binary64)
        ensures
            r.bits == numeral_bits(self@),
    {
        proof {
            use_type_invariant(self);
        }
        Binary64 { bits: nearest_bits(&self.digits, self.scale) }
    }

    /// Appends the text of the literal to `out`: plain decimal notation,
    /// with a zero before the decimal point where the number is below one.
    pub fn write_text(&self, out: &mut Vec<u8>)
        ensures
            final(out)@ == old(out)@ + numeral_text(self@),
            self@.canonical(),
    {
        proof {
            use_type_invariant(self);
        }
        let ghost before = out@;
        let len = self.digits.len();
        if self.scale < len {
            let split = len - self.scale;
            push_digits(&self.digits, 0, split, out);
            if self.scale > 0 {
                out.push(ASCII_POINT);
                push_digits(&self.digits, split, len, out);
            }
        } else {
            out.push(ASCII_ZERO);
            assert(ascii_digits(seq![0u8]) =~= seq![ASCII_ZERO]);
            if self.scale > 0 {
                out.push(ASCII_POINT);
                let padding = self.scale - len;
                let ghost at_point = out@;
                let mut i: usize = 0;
                while i < padding
                    invariant
                        i <= padding,
                        out@ == at_point + ascii_digits(zeros(i as nat)),
                    decreases padding - i,
                {
                    out.push(ASCII_ZERO);
                    proof {
                        assert(ascii_digits(zeros((i + 1) as nat)) =~= ascii_digits(
                            zeros(i as nat),
                        ).push(ASCII_ZERO));
                    }
                    i = i + 1;
                }
                push_digits(&self.digits, 0, len, out);
                proof {
                    assert(self.digits@.subrange(0, len as int) =~= self.digits@);
                    assert(ascii_digits(fraction_digits(self@)) =~= ascii_digits(
                        zeros(padding as nat),
                    ) + ascii_digits(self.digits@));
                }
            }
        }
        assert(out@ =~= before + numeral_text(self@));
    }

    /// Reads the literal whose integer part is `input[start..int_end]` and
    /// whose fraction part is `input[frac_start..frac_end]`, both runs of
    /// ASCII digits; the fraction part may be empty.
    pub(crate) fn from_runs(
        input: &[u8],
        start: usize,
        int_end: usize,
        frac_start: usize,
        frac_end: usize,
    ) -> (d: Decimal)
        requires
            start <= int_end <= frac_start <= frac_end <= input.len(),
            all_ascii_digits(input@.subrange(start as int, int_end as int)),
            all_ascii_digits(input@.subrange(frac_start as int, frac_end as int)),
        ensures
            d@ == Numeral::of_parts(
                digit_values(input@.subrange(start as int, int_end as int)),
                digit_values(input@.subrange(frac_start as int, frac_end as int)),
            ),
            d@.canonical(),
    {
        let ghost int_part = digit_values(input@.subrange(start as int, int_end as int));
        let ghost frac_part = digit_values(input@.subrange(frac_start as int, frac_end as int));
        let ghost frac = strip_trailing_zeros(frac_part);
        proof {
            lemma_strip_trailing_zeros(frac_part);
        }
        // Drop the zeros that end the fraction part.
        let mut kept_end: usize = frac_end;
        assert(frac_part.subrange(0, frac_end - frac_start) =~= frac_part);
        while kept_end > frac_start && input[kept_end - 1] == ASCII_ZERO
            invariant
                frac_start <= kept_end <= frac_end <= input.len(),
                frac_part == digit_values(input@.subrange(frac_start as int, frac_end as int)),
                strip_trailing_zeros(frac_part) == strip_trailing_zeros(
                    frac_part.subrange(0, kept_end - frac_start),
                ),
            decreases kept_end,
        {
            proof {
                let cur = frac_part.subrange(0, kept_end - frac_start);
                assert(cur.last() == 0);
                assert(cur.drop_last() =~= frac_part.subrange(0, kept_end - 1 - frac_start));
            }
            kept_end = kept_end - 1;
        }
        proof {
            let cur = frac_part.subrange(0, kept_end - frac_start);
            assert(strip_trailing_zeros(cur) == cur);
            assert(frac == cur);
        }
        // Copy the digits, leaving out the zeros that lead.
        let mut digits: Vec<u8> = Vec::new();
        let mut i: usize = start;
        while i < int_end
            invariant
                start <= i <= int_end <= input.len(),
                int_part == digit_values(input@.subrange(start as int, int_end as int)),
                all_ascii_digits(input@.subrange(start as int, int_end as int)),
                digits@ == strip_leading_zeros(int_part.subrange(0, i - start)),
            decreases int_end - i,
        {
            let ghost before = int_part.subrange(0, i - start);
            assert(is_digit(input@.subrange(start as int, int_end as int)[i - start]));
            let value = input[i] - ASCII_ZERO;
            proof {
                assert(int_part.subrange(0, i + 1 - start) =~= before.push(value));
                lemma_strip_leading_zeros_push(before, value);
            }
            if digits.len() > 0 || value != 0 {
                digits.push(value);
            }
            i = i + 1;
        }
        assert(int_part.subrange(0, int_end - start) =~= int_part);
        let mut j: usize = frac_start;
        while j < kept_end
            invariant
                frac_start <= j <= kept_end <= frac_end <= input.len(),
                frac_part == digit_values(input@.subrange(frac_start as int, frac_end as int)),
                all_ascii_digits(input@.subrange(frac_start as int, frac_end as int)),
                frac == frac_part.subrange(0, kept_end - frac_start),
                digits@ == strip_leading_zeros(int_part + frac.subrange(0, j - frac_start)),
            decreases kept_end - j,
        {
            let ghost before = int_part + frac.subrange(0, j - frac_start);
            assert(is_digit(
                input@.subrange(frac_start as int, frac_end as int)[j - frac_start],
            ));
            let value = input[j] - ASCII_ZERO;
            proof {
                assert(int_part + frac.subrange(0, j + 1 - frac_start) =~= before.push(value));
                lemma_strip_leading_zeros_push(before, value);
            }
            if digits.len() > 0 || value != 0 {
                digits.push(value);
            }
            j = j + 1;
        }
        proof {
            assert(frac.subrange(0, kept_end - frac_start) =~= frac);
            lemma_digit_values_are_digits(input@.subrange(start as int, int_end as int));
            lemma_digit_values_are_digits(input@.subrange(frac_start as int, frac_end as int));
            lemma_of_parts_canonical(int_part, frac_part);
        }
        Decimal { digits, scale: kept_end - frac_start }
    }
}

/// Appends the ASCII digits of `digits[from..to]` to `out`.
fn push_digits(digits: &Vec<u8>, from: usize, to: usize, out: &mut Vec<u8>)
    requires
        from <= to <= digits.len(),
        all_digit_values(digits@),
    ensures
        final(out)@ == old(out)@ + ascii_digits(digits@.subrange(from as int, to as int)),
{
    let ghost before = out@;
    let mut i: usize = from;
    while i < to
        invariant
            from <= i <= to <= digits.len(),
            all_digit_values(digits@),
            out@ == before + ascii_digits(digits@.subrange(from as int, i as int)),
        decreases to - i,
    {
        out.push(digits[i] + ASCII_ZERO);
        proof {
            assert(ascii_digits(digits@.subrange(from as int, i + 1)) =~= ascii_digits(
                digits@.subrange(from as int, i as int),
            ).push((digits@[i as int] + ASCII_ZERO) as u8));
        }
        i = i + 1;
    }
}

/// The digit values of ASCII digits are at most nine.
pub proof fn lemma_digit_values_are_digits(text: Seq<u8>)
    requires
        all_ascii_digits(text),
    ensures
        all_digit_values(digit_values(text)),
{
}

/// Stripping leading zeros, one digit appended.
pub proof fn lemma_strip_leading_zeros_push(digits: Seq<u8>, d: u8)
    ensures
        strip_leading_zeros(digits.push(d)) == if strip_leading_zeros(digits).len() > 0 || d
            != 0 {
            strip_leading_zeros(digits).push(d)
        } else {
            Seq::<u8>::empty()
        },
    decreases digits.len(),
{
    let longer = digits.push(d);
    if digits.len() == 0 {
        if d == 0 {
            assert(longer.drop_first() =~= Seq::<u8>::empty());
            assert(strip_leading_zeros(longer.drop_first()) =~= Seq::<u8>::empty());
        } else {
            assert(strip_leading_zeros(digits) =~= digits);
        }
    } else if digits[0] == 0 {
        assert(longer.drop_first() =~= digits.drop_first().push(d));
        lemma_strip_leading_zeros_push(digits.drop_first(), d);
    }
}

/// Stripping leading zeros keeps digit values and leaves no leading zero.
pub proof fn lemma_strip_leading_zeros(digits: Seq<u8>)
    requires
        all_digit_values(digits),
    ensures
        all_digit_values(strip_leading_zeros(digits)),
        strip_leading_zeros(digits).len() <= digits.len(),
        strip_leading_zeros(digits).len() > 0 ==> strip_leading_zeros(digits)[0] != 0,
        strip_leading_zeros(digits).len() > 0 ==> digits.len() > 0
            && strip_leading_zeros(digits).last() == digits.last(),
        digits_value(strip_leading_zeros(digits)) == digits_value(digits),
    decreases digits.len(),
{
    if digits.len() > 0 && digits[0] == 0 {
        let rest = digits.drop_first();
        lemma_strip_leading_zeros(rest);
        lemma_value_leading_zero(digits);
    }
}

/// A leading zero does not change the value written.
pub proof fn lemma_value_leading_zero(digits: Seq<u8>)
    requires
        digits.len() > 0,
        digits[0] == 0,
    ensures
        digits_value(digits) == digits_value(digits.drop_first()),
    decreases digits.len(),
{
    let front = digits.drop_last();
    let tail = digits.drop_first();
    if digits.len() == 1 {
        assert(digits_value(front) == 0);
        assert(digits_value(tail) == 0);
    } else {
        lemma_value_leading_zero(front);
        assert(front.drop_first() =~= tail.drop_last());
        assert(tail.last() == digits.last());
        assert(digits_value(tail) == digits_value(tail.drop_last()) * 10 + tail.last() as nat);
    }
}

/// Stripping trailing zeros keeps digit values and leaves no trailing zero.
pub proof fn lemma_strip_trailing_zeros(digits: Seq<u8>)
    requires
        all_digit_values(digits),
    ensures
        all_digit_values(strip_trailing_zeros(digits)),
        strip_trailing_zeros(digits).len() <= digits.len(),
        strip_trailing_zeros(digits).len() > 0 ==> strip_trailing_zeros(digits).last() != 0,
        strip_trailing_zeros(digits) =~= digits.subrange(
            0,
            strip_trailing_zeros(digits).len() as int,
        ),
        forall|i: int|
            strip_trailing_zeros(digits).len() <= i < digits.len() ==> digits[i] == 0,
    decreases digits.len(),
{
    if digits.len() > 0 && digits.last() == 0 {
        let front = digits.drop_last();
        lemma_strip_trailing_zeros(front);
        assert forall|i: int|
            strip_trailing_zeros(digits).len() <= i < digits.len() implies digits[i] == 0 by {
            if i < front.len() {
                assert(front[i] == 0);
            }
        }
    }
}

/// Dropping the zeros that end the fraction divides the number written by
/// all the digits by a power of ten.
pub proof fn lemma_trailing_zeros_value(int_part: Seq<u8>, frac_part: Seq<u8>)
    ensures
        strip_trailing_zeros(frac_part).len() <= frac_part.len(),
        digits_value(int_part + frac_part) == digits_value(
            int_part + strip_trailing_zeros(frac_part),
        ) * pow10((frac_part.len() - strip_trailing_zeros(frac_part).len()) as nat),
    decreases frac_part.len(),
{
    if frac_part.len() > 0 && frac_part.last() == 0 {
        let shorter = frac_part.drop_last();
        lemma_trailing_zeros_value(int_part, shorter);
        let all = int_part + frac_part;
        assert(all.drop_last() =~= int_part + shorter);
        assert(all.last() == 0);
        let kept = digits_value(int_part + strip_trailing_zeros(frac_part));
        let dropped = (shorter.len() - strip_trailing_zeros(frac_part).len()) as nat;
        assert((kept * pow10(dropped)) * 10 == kept * (10 * pow10(dropped)))
            by (nonlinear_arith);
    } else {
        assert(digits_value(int_part + frac_part) * 1 == digits_value(int_part + frac_part))
            by (nonlinear_arith);
    }
}

/// The numeral of a literal denotes the number that the literal writes:
/// all the digits of the literal, read as one natural number, are the
/// numerator times the power of ten of the zeros that were dropped from
/// the end of the fraction.
pub proof fn lemma_of_parts_value(int_part: Seq<u8>, frac_part: Seq<u8>)
    requires
        all_digit_values(int_part),
        all_digit_values(frac_part),
    ensures
        Numeral::of_parts(int_part, frac_part).scale <= frac_part.len(),
        digits_value(int_part + frac_part) == Numeral::of_parts(
            int_part,
            frac_part,
        ).numerator() * pow10(
            (frac_part.len() - Numeral::of_parts(int_part, frac_part).scale) as nat,
        ),
{
    lemma_trailing_zeros_value(int_part, frac_part);
    lemma_strip_trailing_zeros(frac_part);
    lemma_strip_leading_zeros(int_part + strip_trailing_zeros(frac_part));
}

/// The numeral of a literal is canonical.
pub proof fn lemma_of_parts_canonical(int_part: Seq<u8>, frac_part: Seq<u8>)
    requires
        all_digit_values(int_part),
        all_digit_values(frac_part),
    ensures
        Numeral::of_parts(int_part, frac_part).canonical(),
{
    let frac = strip_trailing_zeros(frac_part);
    lemma_strip_trailing_zeros(frac_part);
    lemma_strip_leading_zeros(int_part + frac);
    let n = Numeral::of_parts(int_part, frac_part);
    if n.scale > 0 {
        assert((int_part + frac).last() == frac.last());
        // the last digit is not zero, so stripping leading zeros leaves it
        lemma_strip_keeps_nonzero_last(int_part + frac);
    }
}

/// Where the last digit is not zero, stripping leading zeros leaves a
/// sequence that still ends in it.
pub proof fn lemma_strip_keeps_nonzero_last(digits: Seq<u8>)
    requires
        digits.len() > 0,
        digits.last() != 0,
    ensures
        strip_leading_zeros(digits).len() > 0,
        strip_leading_zeros(digits).last() == digits.last(),
    decreases digits.len(),
{
    if digits[0] == 0 {
        lemma_strip_keeps_nonzero_last(digits.drop_first());
    }
}

} // verus!
