//! Fixed-point values: a decimal number with one fractional digit, held as
//! the integer ten times as large. Reading one from text and writing it
//! back are exact.

use vstd::prelude::*;

verus! {

/// The byte `-`.
pub const MINUS: u8 = 45;

/// The byte `.`.
pub const POINT: u8 = 46;

/// The most digits that the integer parser reads.
pub const MAX_DIGITS: usize = 16;

/// The byte is an ASCII digit.
pub open spec fn is_digit(b: u8) -> bool {
    48 <= b <= 57
}

/// Every byte is an ASCII digit.
pub open spec fn all_digits(s: Seq<u8>) -> bool {
    forall|i: int| 0 <= i < s.len() ==> is_digit(#[trigger] s[i])
}

/// The number that a string of digits denotes, the last digit counting
/// least.
pub open spec fn digits_value(s: Seq<u8>) -> nat
    decreases s.len(),
{
    if s.len() == 0 {
        0
    } else {
        (digits_value(s.drop_last()) * 10 + (s.last() - 48)) as nat
    }
}

/// The 16-bit integer that a text denotes: an optional `-`, then one to
/// sixteen digits whose value, with the sign, is of 16-bit range.
pub open spec fn signed_decimal(s: Seq<u8>) -> Option<int> {
    if s.len() > 0 && s[0] == MINUS {
        let body = s.skip(1);
        if 1 <= body.len() <= MAX_DIGITS && all_digits(body) && digits_value(body) <= 32768 {
            Some(-(digits_value(body) as int))
        } else {
            None
        }
    } else {
        if 1 <= s.len() <= MAX_DIGITS && all_digits(s) && digits_value(s) <= 32767 {
            Some(digits_value(s) as int)
        } else {
            None
        }
    }
}

/// The text without its decimal points.
pub open spec fn without_points(s: Seq<u8>) -> Seq<u8>
    decreases s.len(),
{
    if s.len() == 0 {
        Seq::empty()
    } else if s.last() == POINT {
        without_points(s.drop_last())
    } else {
        without_points(s.drop_last()).push(s.last())
    }
}

/// The value in tenths that a text denotes, if it denotes one: the decimal
/// points are passed over, and what is left is read as a 16-bit integer.
pub open spec fn fixed_point(s: Seq<u8>) -> Option<int> {
    signed_decimal(without_points(s))
}

/// The digits of a number, without leading zeros.
pub open spec fn decimal_digits(n: nat) -> Seq<u8>
    decreases n,
{
    if n < 10 {
        seq![(48 + n) as u8]
    } else {
        decimal_digits(n / 10).push((48 + n % 10) as u8)
    }
}

/// The text of a value in tenths: sign, whole part, point, one digit.
pub open spec fn value_text(v: int) -> Seq<u8> {
    let m = if v < 0 { -v } else { v };
    let sign = if v < 0 { seq![MINUS] } else { Seq::<u8>::empty() };
    sign + decimal_digits((m / 10) as nat) + seq![POINT, (48 + m % 10) as u8]
}

/// A text in the input format: an optional `-`, the digits of the whole
/// part, a point, and one fractional digit.
pub open spec fn format_text(negative: bool, whole: Seq<u8>, frac: u8) -> Seq<u8> {
    (if negative { seq![MINUS] } else { Seq::<u8>::empty() }) + whole + seq![POINT, frac]
}

/// Passing over the points of a concatenation is passing over those of
/// its parts.
pub proof fn lemma_without_points_concat(a: Seq<u8>, b: Seq<u8>)
    ensures
        without_points(a + b) == without_points(a) + without_points(b),
    decreases b.len(),
{
    if b.len() == 0 {
        assert(a + b =~= a);
        assert(without_points(a) + without_points(b) =~= without_points(a));
    } else {
        assert((a + b).drop_last() =~= a + b.drop_last());
        assert((a + b).last() == b.last());
        lemma_without_points_concat(a, b.drop_last());
        if b.last() != POINT {
            assert(without_points(a) + without_points(b.drop_last()).push(b.last()) =~= (
            without_points(a) + without_points(b.drop_last())).push(b.last()));
        }
    }
}

/// A text without points is left as it is.
pub proof fn lemma_without_points_none(s: Seq<u8>)
    requires
        forall|i: int| 0 <= i < s.len() ==> #[trigger] s[i] != POINT,
    ensures
        without_points(s) == s,
    decreases s.len(),
{
    if s.len() > 0 {
        assert forall|i: int| 0 <= i < s.drop_last().len() implies #[trigger] s.drop_last()[i]
            != POINT by {
            assert(s.drop_last()[i] == s[i]);
        }
        lemma_without_points_none(s.drop_last());
        assert(s.drop_last().push(s.last()) =~= s);
    }
}

/// The digits written for a number are digits, at least one, and denote
/// that number; below ten thousand there are at most four.
pub proof fn lemma_decimal_digits(n: nat)
    ensures
        decimal_digits(n).len() >= 1,
        all_digits(decimal_digits(n)),
        digits_value(decimal_digits(n)) == n,
        n < 10000 ==> decimal_digits(n).len() <= 4,
    decreases n,
{
    if n < 10 {
        let s = decimal_digits(n);
        assert(s.drop_last() =~= Seq::<u8>::empty());
        assert(digits_value(s.drop_last()) == 0);
    } else {
        let init = decimal_digits(n / 10);
        let s = init.push((48 + n % 10) as u8);
        lemma_decimal_digits(n / 10);
        assert(s.drop_last() =~= init);
        assert forall|i: int| 0 <= i < s.len() implies is_digit(#[trigger] s[i]) by {
            if i < init.len() {
                assert(s[i] == init[i]);
            }
        }
        if n < 10000 {
            reveal_with_fuel(decimal_digits, 5);
        }
    }
}

/// Reading back what was written gives the value that was written, for
/// every 16-bit value.
pub proof fn lemma_round_trip(v: int)
    requires
        i16::MIN <= v <= i16::MAX,
    ensures
        fixed_point(value_text(v)) == Some(v),
{
    let m = if v < 0 { -v } else { v };
    let whole = decimal_digits((m / 10) as nat);
    let frac = (48 + m % 10) as u8;
    lemma_decimal_digits((m / 10) as nat);
    lemma_parse_format(v < 0, whole, frac);
}

/// A text in the input format denotes its digits read as tenths, with the
/// sign, provided that this value is of 16-bit range.
pub proof fn lemma_parse_format(negative: bool, whole: Seq<u8>, frac: u8)
    requires
        1 <= whole.len() < MAX_DIGITS,
        all_digits(whole),
        is_digit(frac),
    ensures
        ({
            let tenths = digits_value(whole) * 10 + (frac - 48);
            let limit: int = if negative { 32768 } else { 32767 };
            fixed_point(format_text(negative, whole, frac)) == if tenths <= limit {
                Some(if negative { -tenths } else { tenths })
            } else {
                None
            }
        }),
{
    let sign = if negative { seq![MINUS] } else { Seq::<u8>::empty() };
    let tail = seq![POINT, frac];
    let digits = whole.push(frac);
    lemma_without_points_concat(sign + whole, tail);
    lemma_without_points_none(sign + whole);
    assert(without_points(tail) =~= seq![frac]) by {
        reveal_with_fuel(without_points, 3);
        assert(tail.drop_last() =~= seq![POINT]);
        assert(seq![POINT].drop_last() =~= Seq::<u8>::empty());
    }
    let stripped = without_points(format_text(negative, whole, frac));
    assert(stripped =~= sign + digits);
    assert(digits.drop_last() =~= whole);
    assert(all_digits(digits));
    if negative {
        assert(stripped.skip(1) =~= digits);
    } else {
        assert(stripped =~= digits);
        assert(stripped[0] == whole[0]);
    }
}

/// `atoi_simd::AtoiSimdError`, what the integer parser gives for a text
/// that it does not accept. Nothing is read from it.
#[verifier::external_type_specification]
#[verifier::external_body]
pub struct ExAtoiSimdError<'a>(atoi_simd::AtoiSimdError<'a>);

/// `atoi_simd::parse::<i16>`. It accepts an optional `-` followed by one
/// to sixteen ASCII digits whose value is of 16-bit range, and gives that
/// value; every other input is an error.
#[verifier::external_body]
fn parse_i16(text: &[u8]) -> (r: Result<i16, atoi_simd::AtoiSimdError<'_>>)
    ensures
        r is Ok <==> signed_decimal(text@) is Some,
        r matches Ok(v) ==> signed_decimal(text@) == Some(v as int),
{
    atoi_simd::parse::<i16>(text)
}

/// Reads a 16-bit integer from its digits.
pub fn parse_digits(text: &[u8]) -> (r: Option<i16>)
    ensures
        r is Some <==> signed_decimal(text@) is Some,
        r matches Some(v) ==> signed_decimal(text@) == Some(v as int),
{
    match parse_i16(text) {
        Ok(v) => Some(v),
        Err(_) => None,
    }
}

/// Copies the text without its decimal points into `digits`, whose earlier
/// content is dropped.
pub fn strip_points(text: &[u8], digits: &mut Vec<u8>)
    ensures
        final(digits)@ == without_points(text@),
{
    digits.clear();
    let mut i: usize = 0;
    while i < text.len()
        invariant
            i <= text.len(),
            digits@ == without_points(text@.take(i as int)),
        decreases text.len() - i,
    {
        proof {
            assert(text@.take(i + 1).drop_last() =~= text@.take(i as int));
        }
        let b = text[i];
        if b != POINT {
            digits.push(b);
        }
        i = i + 1;
    }
    proof {
        assert(text@.take(text.len() as int) =~= text@);
    }
}

/// Reads a value in tenths from its text, such as `-12.3`.
pub fn parse_value(text: &[u8]) -> (r: Option<i16>)
    ensures
        r is Some <==> fixed_point(text@) is Some,
        r matches Some(v) ==> fixed_point(text@) == Some(v as int),
{
    let mut digits: Vec<u8> = Vec::new();
    strip_points(text, &mut digits);
    parse_digits(digits.as_slice())
}

/// Writes a value in tenths as text with one fractional digit.
pub fn render_value(v: i16) -> (text: Vec<u8>)
    ensures
        text@ == value_text(v as int),
{
    let mut text: Vec<u8> = Vec::new();
    if v < 0 {
        text.push(MINUS);
    }
    let m: u32 = if v < 0 { (-(v as i32)) as u32 } else { v as u32 };
    let whole: u32 = m / 10;
    let ghost sign = text@;
    proof {
        reveal_with_fuel(decimal_digits, 5);
    }
    if whole >= 1000 {
        text.push((48 + whole / 1000) as u8);
    }
    if whole >= 100 {
        text.push((48 + whole / 100 % 10) as u8);
    }
    if whole >= 10 {
        text.push((48 + whole / 10 % 10) as u8);
    }
    text.push((48 + whole % 10) as u8);
    assert(text@ =~= sign + decimal_digits(whole as nat));
    text.push(POINT);
    text.push((48 + m % 10) as u8);
    assert(text@ =~= value_text(v as int));
    text
}

} // verus!
