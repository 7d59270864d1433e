//! Coordinates written as decimal text.
//!
//! A coordinate is written in degrees, with as many digits after the point as
//! it needs and no more. What is written reads back as the same coordinate.

use crate::decimal::DECIMAL_POINT;
use crate::decimal::DIGIT_ZERO;
use crate::decimal::EXPONENT_MARK;
use crate::decimal::EXPONENT_MARK_UPPER;
use crate::decimal::FRACTION_DIGITS;
use crate::decimal::MINUS_SIGN;
use crate::decimal::all_digits;
use crate::decimal::coordinate_value;
use crate::decimal::decimal_units;
use crate::decimal::digits_value;
use crate::decimal::exponent_of;
use crate::decimal::first_position_from;
use crate::decimal::fraction_part;
use crate::decimal::is_decimal;
use crate::decimal::is_digit;
use crate::decimal::kept_units;
use crate::decimal::lemma_pow10_of_sum;
use crate::decimal::lemma_pow10_values;
use crate::decimal::lemma_value_of_joined_digits;
use crate::decimal::mantissa_part;
use crate::decimal::pow10;
use crate::decimal::shifted_units;
use crate::decimal::unsigned_part;
use crate::decimal::whole_part;
use vstd::prelude::*;
use vstd::string::StringExecFns;

verus! {

/// Text as characters: each byte read as the character of that code.
pub open spec fn ascii_text(bytes: Seq<u8>) -> Seq<char> {
    bytes.map_values(|b: u8| b as char)
}

/// The byte that writes the digit `d`.
pub open spec fn digit_byte(d: int) -> u8
    recommends
        0 <= d <= 9,
{
    (DIGIT_ZERO + d) as u8
}

/// The digits of a number, without leading zeros; `0` for zero.
pub open spec fn number_digits(n: nat) -> Seq<u8>
    decreases n,
{
    if n < 10 {
        seq![digit_byte(n as int)]
    } else {
        number_digits(n / 10).push(digit_byte(n as int % 10))
    }
}

/// The last `width` digits of a number, with leading zeros where it has fewer.
pub open spec fn padded_digits(n: nat, width: nat) -> Seq<u8>
    decreases width,
{
    if width == 0 {
        Seq::empty()
    } else {
        padded_digits(n / 10, (width - 1) as nat).push(digit_byte(n as int % 10))
    }
}

/// Digits without the zeros at their end.
pub open spec fn without_trailing_zeros(digits: Seq<u8>) -> Seq<u8>
    decreases digits.len(),
{
    if digits.len() > 0 && digits.last() == DIGIT_ZERO {
        without_trailing_zeros(digits.drop_last())
    } else {
        digits
    }
}

/// The magnitude of a coordinate.
pub open spec fn units_magnitude(units: i64) -> nat {
    if units < 0 {
        (-units) as nat
    } else {
        units as nat
    }
}

/// A coordinate written in degrees: a minus sign if it is negative, the whole
/// degrees, and, unless the coordinate is a whole number of degrees, a point
/// and the billionths, without zeros at the end.
pub open spec fn coordinate_text(units: i64) -> Seq<u8> {
    let whole = units_magnitude(units) / 1_000_000_000;
    let fraction = units_magnitude(units) % 1_000_000_000;
    let sign = if units < 0 {
        seq![MINUS_SIGN]
    } else {
        Seq::empty()
    };
    let tail = if fraction == 0 {
        Seq::empty()
    } else {
        seq![DECIMAL_POINT] + without_trailing_zeros(padded_digits(fraction, FRACTION_DIGITS as nat))
    };
    sign + number_digits(whole) + tail
}

/// Appends one digit to a string.
fn push_digit(out: &mut String, d: u64)
    requires
        d <= 9,
    ensures
        final(out)@ == old(out)@.push(digit_byte(d as int) as char),
{
    proof {
        reveal_strlit("0");
        reveal_strlit("1");
        reveal_strlit("2");
        reveal_strlit("3");
        reveal_strlit("4");
        reveal_strlit("5");
        reveal_strlit("6");
        reveal_strlit("7");
        reveal_strlit("8");
        reveal_strlit("9");
    }
    let digit = if d == 0 {
        "0"
    } else if d == 1 {
        "1"
    } else if d == 2 {
        "2"
    } else if d == 3 {
        "3"
    } else if d == 4 {
        "4"
    } else if d == 5 {
        "5"
    } else if d == 6 {
        "6"
    } else if d == 7 {
        "7"
    } else if d == 8 {
        "8"
    } else {
        "9"
    };
    assert(digit@ =~= seq![digit_byte(d as int) as char]);
    out.append(digit);
    assert(out@ =~= old(out)@.push(digit_byte(d as int) as char));
}

/// Appends the digits of a number to a string.
fn push_number(out: &mut String, n: u64)
    ensures
        final(out)@ == old(out)@ + ascii_text(number_digits(n as nat)),
    decreases n,
{
    if n >= 10 {
        push_number(out, n / 10);
    }
    push_digit(out, n % 10);
    proof {
        let digits = number_digits(n as nat);
        if n >= 10 {
            let front = number_digits((n / 10) as nat);
            assert(ascii_text(digits) =~= ascii_text(front).push(digit_byte(n as int % 10) as char));
        } else {
            assert(ascii_text(digits) =~= seq![digit_byte(n as int) as char]);
        }
        assert(out@ =~= old(out)@ + ascii_text(digits));
    }
}

/// Appends the last `width` digits of a number to a string.
fn push_padded(out: &mut String, n: u64, width: usize)
    ensures
        final(out)@ == old(out)@ + ascii_text(padded_digits(n as nat, width as nat)),
    decreases width,
{
    if width > 0 {
        push_padded(out, n / 10, width - 1);
        push_digit(out, n % 10);
        proof {
            let front = padded_digits((n / 10) as nat, (width - 1) as nat);
            assert(ascii_text(padded_digits(n as nat, width as nat)) =~= ascii_text(front).push(
                digit_byte(n as int % 10) as char,
            ));
        }
    }
    assert(out@ =~= old(out)@ + ascii_text(padded_digits(n as nat, width as nat)));
}

/// Appends a coordinate, written in degrees, to a string.
pub fn push_coordinate(out: &mut String, units: i64)
    ensures
        final(out)@ == old(out)@ + ascii_text(coordinate_text(units)),
{
    let magnitude: u64 = if units >= 0 {
        units as u64
    } else if units == i64::MIN {
        0x8000_0000_0000_0000u64
    } else {
        (-units) as u64
    };
    assert(magnitude == units_magnitude(units));
    let whole = magnitude / 1_000_000_000;
    let fraction = magnitude % 1_000_000_000;
    proof {
        reveal_strlit("-");
        reveal_strlit(".");
    }
    if units < 0 {
        out.append("-");
    }
    let ghost signed = out@;
    assert(signed =~= old(out)@ + ascii_text(
        if units < 0 {
            seq![MINUS_SIGN]
        } else {
            Seq::empty()
        },
    ));
    push_number(out, whole);
    let ghost numbered = out@;
    if fraction != 0 {
        out.append(".");
        let mut rest: u64 = fraction;
        let mut width: usize = FRACTION_DIGITS;
        proof {
            lemma_pow10_values();
        }
        while rest % 10 == 0
            invariant
                0 < rest,
                0 < width <= FRACTION_DIGITS,
                without_trailing_zeros(padded_digits(fraction as nat, FRACTION_DIGITS as nat))
                    == without_trailing_zeros(padded_digits(rest as nat, width as nat)),
                rest < pow10(width as nat),
            decreases rest,
        {
            proof {
                let digits = padded_digits(rest as nat, width as nat);
                assert(digits.last() == DIGIT_ZERO);
                assert(digits.drop_last() =~= padded_digits((rest / 10) as nat, (width - 1) as nat));
                reveal_with_fuel(pow10, 2);
                if width == 1 {
                    assert(pow10(1) == 10);
                }
            }
            rest = rest / 10;
            width = width - 1;
        }
        proof {
            let digits = padded_digits(rest as nat, width as nat);
            assert(digits.last() != DIGIT_ZERO);
        }
        push_padded(out, rest, width);
        proof {
            let trimmed = without_trailing_zeros(
                padded_digits(fraction as nat, FRACTION_DIGITS as nat),
            );
            assert(out@ =~= numbered + ascii_text(seq![DECIMAL_POINT] + trimmed));
        }
    }
    assert(out@ =~= old(out)@ + ascii_text(coordinate_text(units)));
}

/// A coordinate written in degrees. What is written reads back as the same
/// coordinate.
pub fn render_coordinate(units: i64) -> (text: String)
    ensures
        text@ == ascii_text(coordinate_text(units)),
        coordinate_value(coordinate_text(units)) == Some(units),
{
    proof {
        lemma_coordinate_text_reads_back(units);
    }
    let mut text = String::new();
    push_coordinate(&mut text, units);
    text
}

/// The digits of a number are digits, at least one, and spell the number.
pub proof fn lemma_number_digits(n: nat)
    ensures
        all_digits(number_digits(n)),
        number_digits(n).len() >= 1,
        digits_value(number_digits(n)) == n,
    decreases n,
{
    let digits = number_digits(n);
    if n < 10 {
        assert(digits.drop_last() =~= Seq::<u8>::empty());
        assert(digits_value(digits) == n) by {
            reveal_with_fuel(digits_value, 2);
        }
    } else {
        let front = number_digits(n / 10);
        lemma_number_digits(n / 10);
        assert(digits.drop_last() =~= front);
        assert forall|i: int| 0 <= i < digits.len() implies is_digit(#[trigger] digits[i]) by {
            if i < front.len() {
                assert(digits[i] == front[i]);
            }
        }
    }
}

/// A number below the `width`-th power of ten, written with `width` digits:
/// they are digits and spell the number.
pub proof fn lemma_padded_digits(n: nat, width: nat)
    requires
        n < pow10(width),
    ensures
        all_digits(padded_digits(n, width)),
        padded_digits(n, width).len() == width,
        digits_value(padded_digits(n, width)) == n,
    decreases width,
{
    let digits = padded_digits(n, width);
    if width > 0 {
        let front = padded_digits(n / 10, (width - 1) as nat);
        lemma_padded_digits(n / 10, (width - 1) as nat);
        assert(digits.drop_last() =~= front);
        assert forall|i: int| 0 <= i < digits.len() implies is_digit(#[trigger] digits[i]) by {
            if i < front.len() {
                assert(digits[i] == front[i]);
            }
        }
    }
}

/// Cutting the zeros off the end of a fraction loses nothing: the digits that
/// stay, read as a fraction of the same width, give the same number.
pub proof fn lemma_trailing_zeros_count_nothing(n: nat, width: nat)
    requires
        0 < n < pow10(width),
    ensures
        all_digits(without_trailing_zeros(padded_digits(n, width))),
        1 <= without_trailing_zeros(padded_digits(n, width)).len() <= width,
        digits_value(without_trailing_zeros(padded_digits(n, width))) * pow10(
            (width - without_trailing_zeros(padded_digits(n, width)).len()) as nat,
        ) == n,
    decreases width,
{
    let digits = padded_digits(n, width);
    let kept = without_trailing_zeros(digits);
    if width > 0 {
        let front = padded_digits(n / 10, (width - 1) as nat);
        assert(digits.drop_last() =~= front);
        assert(digits.last() == digit_byte(n as int % 10));
        if n % 10 == 0 {
            assert(kept == without_trailing_zeros(front));
            lemma_trailing_zeros_count_nothing(n / 10, (width - 1) as nat);
            let value = digits_value(kept);
            let lower = pow10((width - 1 - kept.len()) as nat);
            assert(pow10((width - kept.len()) as nat) == 10 * lower);
            assert(value * (10 * lower) == 10 * (value * lower)) by (nonlinear_arith);
        } else {
            assert(kept == digits);
            lemma_padded_digits(n, width);
            assert(digits_value(digits) * pow10(0) == digits_value(digits)) by (nonlinear_arith)
                requires
                    pow10(0) == 1,
            ;
        }
    }
}

/// Where no byte from `start` up to `position` is `a` or `b`, and the byte at
/// `position`, if there is one, is, the search from `start` ends at
/// `position`.
pub proof fn lemma_first_position(bytes: Seq<u8>, a: u8, b: u8, position: int, start: int)
    requires
        0 <= start <= position <= bytes.len(),
        forall|j: int| start <= j < position ==> bytes[j] != a && bytes[j] != b,
        position < bytes.len() ==> bytes[position] == a || bytes[position] == b,
    ensures
        first_position_from(bytes, a, b, start) == position,
    decreases position - start,
{
    if start < position {
        lemma_first_position(bytes, a, b, position, start + 1);
    }
}

/// What is written is read back: the text of a coordinate stands for that
/// coordinate.
pub proof fn lemma_coordinate_text_reads_back(units: i64)
    ensures
        coordinate_value(coordinate_text(units)) == Some(units),
{
    let magnitude = units_magnitude(units);
    let whole = magnitude / 1_000_000_000;
    let fraction = magnitude % 1_000_000_000;
    let whole_digits = number_digits(whole);
    let kept = if fraction == 0 {
        Seq::<u8>::empty()
    } else {
        without_trailing_zeros(padded_digits(fraction, FRACTION_DIGITS as nat))
    };
    let tail = if fraction == 0 {
        Seq::<u8>::empty()
    } else {
        seq![DECIMAL_POINT] + kept
    };
    let body = whole_digits + tail;
    let text = coordinate_text(units);
    lemma_pow10_values();
    lemma_number_digits(whole);
    assert(is_digit(whole_digits[0]));
    if units < 0 {
        assert(text =~= seq![MINUS_SIGN] + body);
        assert(text[0] == MINUS_SIGN);
        assert(unsigned_part(text) =~= body);
    } else {
        assert(text =~= body);
        assert(text[0] == whole_digits[0]);
        assert(unsigned_part(text) =~= body);
    }
    if fraction != 0 {
        lemma_trailing_zeros_count_nothing(fraction, FRACTION_DIGITS as nat);
    }
    // The text carries no exponent.
    assert forall|j: int| 0 <= j < body.len() implies body[j] != EXPONENT_MARK && body[j]
        != EXPONENT_MARK_UPPER by {
        if j < whole_digits.len() {
            assert(is_digit(whole_digits[j]));
        } else if j > whole_digits.len() {
            assert(body[j] == kept[j - whole_digits.len() - 1]);
            assert(is_digit(kept[j - whole_digits.len() - 1]));
        }
    }
    lemma_first_position(body, EXPONENT_MARK, EXPONENT_MARK_UPPER, body.len() as int, 0);
    assert(mantissa_part(body) =~= body);
    assert(exponent_of(body) == 0);
    // The point stands right after the whole degrees.
    assert forall|j: int| 0 <= j < whole_digits.len() implies body[j] != DECIMAL_POINT by {
        assert(is_digit(whole_digits[j]));
    }
    lemma_first_position(body, DECIMAL_POINT, DECIMAL_POINT, whole_digits.len() as int, 0);
    assert(whole_part(body) =~= whole_digits);
    assert(fraction_part(body) =~= kept);
    assert(is_decimal(body));
    // The digits spell the magnitude.
    let digits = whole_digits + kept;
    let spare = (FRACTION_DIGITS - kept.len()) as nat;
    lemma_value_of_joined_digits(whole_digits, kept);
    lemma_pow10_of_sum(kept.len(), spare);
    let w = digits_value(whole_digits);
    let k = digits_value(kept);
    let p = pow10(kept.len());
    let q = pow10(spare);
    assert(k * q == fraction) by {
        if fraction == 0 {
            assert(k == 0);
            assert(k * q == 0) by (nonlinear_arith)
                requires
                    k == 0,
            ;
        }
    }
    assert(p * q == 1_000_000_000);
    assert((w * p + k) * q == w * 1_000_000_000 + k * q) by (nonlinear_arith)
        requires
            p * q == 1_000_000_000,
    ;
    assert(w == whole);
    assert((w * p + k) * q == magnitude);
    let keep = whole_digits.len() + FRACTION_DIGITS;
    assert(digits.len() == whole_digits.len() + kept.len());
    assert(digits_value(digits) == w * p + k);
    if spare == 0 {
        assert(keep == digits.len());
        assert(digits.take(keep) =~= digits);
        assert((w * p + k) * q == w * p + k) by (nonlinear_arith)
            requires
                q == 1,
        ;
        assert(kept_units(digits, keep) == magnitude);
    } else {
        assert(keep > digits.len());
        assert(keep - digits.len() == spare);
        assert(kept_units(digits, keep) == digits_value(digits) * pow10(spare));
        assert(kept_units(digits, keep) == magnitude);
    }
    assert(mantissa_part(body) == body);
    assert(whole_part(mantissa_part(body)) == whole_digits);
    assert(fraction_part(mantissa_part(body)) == kept);
    assert(shifted_units(whole_digits, kept, 0) == kept_units(digits, keep));
    assert(decimal_units(body) == magnitude);
}

} // verus!
