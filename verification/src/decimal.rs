//! Coordinates as decimal text.
//!
//! A coordinate is written in degrees, as a decimal number: an optional sign,
//! digits, optionally a point and more digits, with a digit on at least one
//! side of the point, and optionally an exponent of ten, marked by `e` or `E`.
//! Read into coordinate units, digits beyond the ninth after the point are
//! cut off. Infinite values and values that are no number are not written in
//! this notation and are not read.

use vstd::prelude::*;
use vstd::slice::slice_subrange;

verus! {

/// The byte `0`.
pub const DIGIT_ZERO: u8 = 0x30;

/// The byte `9`.
pub const DIGIT_NINE: u8 = 0x39;

/// The byte `+`.
pub const PLUS_SIGN: u8 = 0x2b;

/// The byte `-`.
pub const MINUS_SIGN: u8 = 0x2d;

/// The byte `.`.
pub const DECIMAL_POINT: u8 = 0x2e;

/// The byte `e`, which marks an exponent.
pub const EXPONENT_MARK: u8 = 0x65;

/// The byte `E`, which marks an exponent too.
pub const EXPONENT_MARK_UPPER: u8 = 0x45;

/// How many digits after the point a coordinate unit resolves.
pub const FRACTION_DIGITS: usize = 9;

/// Whether a byte is a decimal digit.
pub open spec fn is_digit(b: u8) -> bool {
    DIGIT_ZERO <= b <= DIGIT_NINE
}

/// Whether every byte is a decimal digit.
pub open spec fn all_digits(bytes: Seq<u8>) -> bool {
    forall|i: int| 0 <= i < bytes.len() ==> is_digit(#[trigger] bytes[i])
}

/// The number that a string of decimal digits spells; zero for no digits.
pub open spec fn digits_value(digits: Seq<u8>) -> int
    decreases digits.len(),
{
    if digits.len() == 0 {
        0
    } else {
        10 * digits_value(digits.drop_last()) + (digits.last() - DIGIT_ZERO)
    }
}

/// Ten to the power of `n`.
pub open spec fn pow10(n: nat) -> int
    decreases n,
{
    if n == 0 {
        1
    } else {
        10 * pow10((n - 1) as nat)
    }
}

/// Whether the text begins with a sign.
pub open spec fn has_sign(text: Seq<u8>) -> bool {
    text.len() > 0 && (text[0] == PLUS_SIGN || text[0] == MINUS_SIGN)
}

/// Whether the text begins with a minus sign.
pub open spec fn is_negative(text: Seq<u8>) -> bool {
    text.len() > 0 && text[0] == MINUS_SIGN
}

/// The text without its sign.
pub open spec fn unsigned_part(text: Seq<u8>) -> Seq<u8> {
    if has_sign(text) {
        text.skip(1)
    } else {
        text
    }
}

/// The position of the first byte at or after `start` that is `a` or `b`, or
/// the length of the text if there is none.
pub open spec fn first_position_from(bytes: Seq<u8>, a: u8, b: u8, start: int) -> int
    decreases bytes.len() - start,
{
    if start < 0 || start >= bytes.len() {
        bytes.len() as int
    } else if bytes[start] == a || bytes[start] == b {
        start
    } else {
        first_position_from(bytes, a, b, start + 1)
    }
}

/// The position of the exponent mark in an unsigned text, or its length.
pub open spec fn mark_position(body: Seq<u8>) -> int {
    first_position_from(body, EXPONENT_MARK, EXPONENT_MARK_UPPER, 0)
}

/// Whether an unsigned text holds an exponent mark.
pub open spec fn has_exponent(body: Seq<u8>) -> bool {
    mark_position(body) < body.len()
}

/// What stands before the exponent mark: all of the text, if it has none.
pub open spec fn mantissa_part(body: Seq<u8>) -> Seq<u8> {
    body.take(mark_position(body))
}

/// What stands after the exponent mark; nothing, if the text has none.
pub open spec fn exponent_part(body: Seq<u8>) -> Seq<u8> {
    if has_exponent(body) {
        body.skip(mark_position(body) + 1)
    } else {
        Seq::empty()
    }
}

/// The position of the point in a mantissa, or its length.
pub open spec fn point_position(mantissa: Seq<u8>) -> int {
    first_position_from(mantissa, DECIMAL_POINT, DECIMAL_POINT, 0)
}

/// The digits before the point.
pub open spec fn whole_part(mantissa: Seq<u8>) -> Seq<u8> {
    mantissa.take(point_position(mantissa))
}

/// The digits after the point; none if there is no point.
pub open spec fn fraction_part(mantissa: Seq<u8>) -> Seq<u8> {
    if point_position(mantissa) < mantissa.len() {
        mantissa.skip(point_position(mantissa) + 1)
    } else {
        Seq::empty()
    }
}

/// Whether a text is a mantissa: digits around at most one point, at least one
/// digit in all.
pub open spec fn is_mantissa(mantissa: Seq<u8>) -> bool {
    &&& all_digits(whole_part(mantissa))
    &&& all_digits(fraction_part(mantissa))
    &&& whole_part(mantissa).len() + fraction_part(mantissa).len() > 0
}

/// Whether a text is an exponent: an optional sign and at least one digit.
pub open spec fn is_exponent(exponent: Seq<u8>) -> bool {
    all_digits(unsigned_part(exponent)) && unsigned_part(exponent).len() > 0
}

/// Whether an unsigned text is a decimal number.
pub open spec fn is_decimal(body: Seq<u8>) -> bool {
    &&& is_mantissa(mantissa_part(body))
    &&& has_exponent(body) ==> is_exponent(exponent_part(body))
}

/// The exponent of ten that an unsigned decimal number carries; zero if it
/// carries none.
pub open spec fn exponent_of(body: Seq<u8>) -> int {
    if !has_exponent(body) {
        0
    } else if is_negative(exponent_part(body)) {
        -digits_value(unsigned_part(exponent_part(body)))
    } else {
        digits_value(unsigned_part(exponent_part(body)))
    }
}

/// The number that the first `keep` of the digits spell, zeros standing in
/// for digits that are wanted beyond the last.
pub open spec fn kept_units(digits: Seq<u8>, keep: int) -> int {
    if keep <= 0 {
        0
    } else if keep <= digits.len() {
        digits_value(digits.take(keep))
    } else {
        digits_value(digits) * pow10((keep - digits.len()) as nat)
    }
}

/// The coordinate units of the number `whole.fraction` times ten to the power
/// of `exponent`. The point moves by `exponent` and by nine more places to the
/// right; the digits that then stand before it are the units, and what stands
/// after it is cut off.
pub open spec fn shifted_units(whole: Seq<u8>, fraction: Seq<u8>, exponent: int) -> int {
    kept_units(whole + fraction, whole.len() + FRACTION_DIGITS + exponent)
}

/// The coordinate units that an unsigned decimal number stands for.
pub open spec fn decimal_units(body: Seq<u8>) -> int {
    shifted_units(
        whole_part(mantissa_part(body)),
        fraction_part(mantissa_part(body)),
        exponent_of(body),
    )
}

/// The coordinate that a text stands for, in coordinate units: `None` if the
/// text is no decimal number or if the number is beyond what a coordinate can
/// hold.
pub open spec fn coordinate_value(text: Seq<u8>) -> Option<i64> {
    let body = unsigned_part(text);
    let units = if is_negative(text) {
        -decimal_units(body)
    } else {
        decimal_units(body)
    };
    if is_decimal(body) && i64::MIN <= units <= i64::MAX {
        Some(units as i64)
    } else {
        None
    }
}

/// A number held at a ceiling.
pub open spec fn capped(value: int, ceiling: int) -> int {
    if value < ceiling {
        value
    } else {
        ceiling
    }
}

/// The powers of ten up to the ninth.
pub proof fn lemma_pow10_values()
    ensures
        pow10(0) == 1,
        pow10(1) == 10,
        pow10(2) == 100,
        pow10(3) == 1_000,
        pow10(4) == 10_000,
        pow10(5) == 100_000,
        pow10(6) == 1_000_000,
        pow10(7) == 10_000_000,
        pow10(8) == 100_000_000,
        pow10(9) == 1_000_000_000,
{
    reveal_with_fuel(pow10, 11);
}

/// A higher power of ten is no smaller, and no power of ten is below one.
pub proof fn lemma_pow10_grows(low: nat, high: nat)
    requires
        low <= high,
    ensures
        1 <= pow10(low) <= pow10(high),
    decreases high,
{
    if low < high {
        lemma_pow10_grows(low, (high - 1) as nat);
    } else if low > 0 {
        lemma_pow10_grows((low - 1) as nat, (low - 1) as nat);
    }
}

/// The digits spell no negative number.
pub proof fn lemma_digits_value_not_negative(digits: Seq<u8>)
    requires
        all_digits(digits),
    ensures
        digits_value(digits) >= 0,
    decreases digits.len(),
{
    if digits.len() > 0 {
        assert(is_digit(digits.last()));
        lemma_digits_of_front(digits);
        lemma_digits_value_not_negative(digits.drop_last());
    }
}

/// Digits without the last of them are digits.
pub proof fn lemma_digits_of_front(digits: Seq<u8>)
    requires
        all_digits(digits),
        digits.len() > 0,
    ensures
        all_digits(digits.drop_last()),
{
    assert forall|i: int| 0 <= i < digits.drop_last().len() implies is_digit(
        #[trigger] digits.drop_last()[i],
    ) by {
        assert(digits.drop_last()[i] == digits[i]);
    }
}

/// Digits followed by digits are digits.
pub proof fn lemma_digits_joined(front: Seq<u8>, back: Seq<u8>)
    requires
        all_digits(front),
        all_digits(back),
    ensures
        all_digits(front + back),
{
    assert forall|i: int| 0 <= i < (front + back).len() implies is_digit(
        #[trigger] (front + back)[i],
    ) by {
        if i < front.len() {
            assert((front + back)[i] == front[i]);
        } else {
            assert((front + back)[i] == back[i - front.len()]);
        }
    }
}

/// Digits written one after the other spell the first number, moved left by
/// the length of the second, plus the second.
pub proof fn lemma_value_of_joined_digits(front: Seq<u8>, back: Seq<u8>)
    ensures
        digits_value(front + back) == digits_value(front) * pow10(back.len()) + digits_value(back),
    decreases back.len(),
{
    if back.len() == 0 {
        assert(front + back =~= front);
        assert(digits_value(front) * pow10(0) == digits_value(front)) by (nonlinear_arith)
            requires
                pow10(0) == 1,
        ;
    } else {
        let shorter = back.drop_last();
        assert((front + back).drop_last() =~= front + shorter);
        assert((front + back).last() == back.last());
        lemma_value_of_joined_digits(front, shorter);
        let f = digits_value(front);
        let p = pow10(shorter.len());
        assert(pow10(back.len()) == 10 * p);
        assert(10 * (f * p) == f * (10 * p)) by (nonlinear_arith);
    }
}

/// Whether a byte is a decimal digit.
pub fn is_digit_byte(b: u8) -> (digit: bool)
    ensures
        digit == is_digit(b),
{
    DIGIT_ZERO <= b && b <= DIGIT_NINE
}

/// Whether every byte is a decimal digit.
fn are_digits(bytes: &[u8]) -> (digits: bool)
    ensures
        digits == all_digits(bytes@),
{
    let n = bytes.len();
    let mut i: usize = 0;
    while i < n
        invariant
            i <= n,
            n == bytes@.len(),
            forall|j: int| 0 <= j < i ==> is_digit(#[trigger] bytes@[j]),
        decreases n - i,
    {
        if !is_digit_byte(bytes[i]) {
            return false;
        }
        i += 1;
    }
    true
}

/// The position of the first byte that is `a` or `b`, or the length of the
/// text if there is none.
fn find_first(bytes: &[u8], a: u8, b: u8) -> (position: usize)
    ensures
        position == first_position_from(bytes@, a, b, 0),
        position <= bytes@.len(),
{
    let n = bytes.len();
    let mut i: usize = 0;
    while i < n && bytes[i] != a && bytes[i] != b
        invariant
            i <= n,
            n == bytes@.len(),
            first_position_from(bytes@, a, b, 0) == first_position_from(bytes@, a, b, i as int),
        decreases n - i,
    {
        i += 1;
    }
    i
}

/// The number that `before` and `digits` spell together, held at a ceiling,
/// from the number that `before` spells, held at the same ceiling.
fn capped_digits(start: u128, digits: &[u8], ceiling: u128, Ghost(before): Ghost<Seq<u8>>) -> (value:
    u128)
    requires
        all_digits(before),
        all_digits(digits@),
        ceiling <= 1_000_000_000_000_000_000_000_000_000_000,
        start == capped(digits_value(before), ceiling as int),
    ensures
        value == capped(digits_value(before + digits@), ceiling as int),
{
    let n = digits.len();
    let mut value = start;
    let mut i: usize = 0;
    proof {
        assert(before + digits@.take(0) =~= before);
    }
    while i < n
        invariant
            i <= n,
            n == digits@.len(),
            all_digits(before),
            all_digits(digits@),
            ceiling <= 1_000_000_000_000_000_000_000_000_000_000,
            value == capped(digits_value(before + digits@.take(i as int)), ceiling as int),
        decreases n - i,
    {
        let ghost done = before + digits@.take(i as int);
        let ghost next = before + digits@.take(i + 1);
        proof {
            assert(next.drop_last() =~= done);
            assert(next.last() == digits@[i as int]);
            assert(is_digit(digits@[i as int]));
            lemma_digits_joined(before, digits@.take(i as int));
            lemma_digits_value_not_negative(done);
        }
        value = value * 10 + (digits[i] - DIGIT_ZERO) as u128;
        if value > ceiling {
            value = ceiling;
        }
        i += 1;
    }
    proof {
        assert(digits@.take(n as int) =~= digits@);
    }
    value
}

/// A number times ten to the power of `zeros`, held at a ceiling, from the
/// number held at the same ceiling.
fn capped_scale(start: u128, zeros: u128, ceiling: u128, Ghost(number): Ghost<int>) -> (value: u128)
    requires
        number >= 0,
        1 <= ceiling <= 1_000_000_000_000_000_000_000_000_000_000,
        start == capped(number, ceiling as int),
    ensures
        value == capped(number * pow10(zeros as nat), ceiling as int),
{
    let mut value = start;
    let mut done: u128 = 0;
    proof {
        assert(number * pow10(0) == number) by (nonlinear_arith)
            requires
                pow10(0) == 1,
        ;
    }
    while done < zeros && 0 < value && value < ceiling
        invariant
            done <= zeros,
            number >= 0,
            1 <= ceiling <= 1_000_000_000_000_000_000_000_000_000_000,
            value == capped(number * pow10(done as nat), ceiling as int),
        decreases zeros - done,
    {
        proof {
            let p = pow10(done as nat);
            assert(pow10((done + 1) as nat) == 10 * p);
            assert(number * (10 * p) == 10 * (number * p)) by (nonlinear_arith);
        }
        value = value * 10;
        if value > ceiling {
            value = ceiling;
        }
        done += 1;
    }
    proof {
        let reached = pow10(done as nat);
        let target = pow10(zeros as nat);
        lemma_pow10_grows(done as nat, zeros as nat);
        if done < zeros {
            if value == 0 {
                assert(number == 0) by (nonlinear_arith)
                    requires
                        number >= 0,
                        reached >= 1,
                        number * reached == 0,
                ;
                assert(number * target == 0) by (nonlinear_arith)
                    requires
                        number == 0,
                ;
            } else {
                assert(number * target >= number * reached) by (nonlinear_arith)
                    requires
                        number >= 0,
                        target >= reached,
                ;
            }
        }
    }
    value
}

/// The first of some digits are digits.
pub proof fn lemma_digits_of_prefix(digits: Seq<u8>, n: int)
    requires
        all_digits(digits),
        0 <= n <= digits.len(),
    ensures
        all_digits(digits.take(n)),
{
    assert forall|i: int| 0 <= i < digits.take(n).len() implies is_digit(
        #[trigger] digits.take(n)[i],
    ) by {
        assert(digits.take(n)[i] == digits[i]);
    }
}

/// Ten to a sum is the product of the powers.
pub proof fn lemma_pow10_of_sum(a: nat, b: nat)
    ensures
        pow10(a + b) == pow10(a) * pow10(b),
    decreases b,
{
    if b == 0 {
        assert(pow10(a) * pow10(0) == pow10(a)) by (nonlinear_arith)
            requires
                pow10(0) == 1,
        ;
    } else {
        lemma_pow10_of_sum(a, (b - 1) as nat);
        let p = pow10(a);
        let q = pow10((b - 1) as nat);
        assert(pow10(a + b) == 10 * pow10((a + b - 1) as nat));
        assert(p * (10 * q) == 10 * (p * q)) by (nonlinear_arith);
    }
}

/// Once the point has moved thirty-six places beyond the last digit, how far
/// it has moved no longer matters to a number held at a ceiling: the number
/// is zero, or it is beyond the ceiling.
pub proof fn lemma_far_shift(digits: Seq<u8>, keep: int, other: int, ceiling: int)
    requires
        all_digits(digits),
        keep >= digits.len() + 36,
        other >= digits.len() + 36,
        0 <= ceiling <= 1_000_000_000_000_000_000_000_000_000_000,
    ensures
        capped(kept_units(digits, keep), ceiling) == capped(kept_units(digits, other), ceiling),
{
    let v = digits_value(digits);
    let p = pow10((keep - digits.len()) as nat);
    let q = pow10((other - digits.len()) as nat);
    lemma_digits_value_not_negative(digits);
    lemma_pow10_values();
    lemma_pow10_of_sum(9, 9);
    lemma_pow10_of_sum(18, 18);
    assert(pow10(18) == 1_000_000_000_000_000_000);
    assert(pow10(36) == 1_000_000_000_000_000_000 * 1_000_000_000_000_000_000);
    lemma_pow10_grows(36, (keep - digits.len()) as nat);
    lemma_pow10_grows(36, (other - digits.len()) as nat);
    if v == 0 {
        assert(v * p == 0 && v * q == 0) by (nonlinear_arith)
            requires
                v == 0,
        ;
    } else {
        assert(v * p >= ceiling && v * q >= ceiling) by (nonlinear_arith)
            requires
                v >= 1,
                p >= 1_000_000_000_000_000_000_000_000_000_000,
                q >= 1_000_000_000_000_000_000_000_000_000_000,
                ceiling <= 1_000_000_000_000_000_000_000_000_000_000,
        ;
    }
}

/// The coordinate units that the first `keep` digits of `whole` and
/// `fraction` spell, held at a ceiling.
fn capped_kept(whole: &[u8], fraction: &[u8], keep: u128, ceiling: u128) -> (value: u128)
    requires
        all_digits(whole@),
        all_digits(fraction@),
        1 <= ceiling <= 1_000_000_000_000_000_000_000_000_000_000,
    ensures
        value == capped(kept_units(whole@ + fraction@, keep as int), ceiling as int),
{
    let ghost digits = whole@ + fraction@;
    let ghost none = Seq::<u8>::empty();
    let total: u128 = whole.len() as u128 + fraction.len() as u128;
    if keep == 0 {
        0
    } else if keep <= total {
        let whole_kept: usize = if keep <= whole.len() as u128 {
            keep as usize
        } else {
            whole.len()
        };
        let fraction_kept: usize = (keep - whole_kept as u128) as usize;
        let front = slice_subrange(whole, 0, whole_kept);
        let back = slice_subrange(fraction, 0, fraction_kept);
        proof {
            lemma_digits_of_prefix(whole@, whole_kept as int);
            lemma_digits_of_prefix(fraction@, fraction_kept as int);
            assert(front@ =~= whole@.take(whole_kept as int));
            assert(back@ =~= fraction@.take(fraction_kept as int));
            assert(digits.take(keep as int) =~= front@ + back@);
            assert(none + front@ =~= front@);
        }
        let value = capped_digits(0, front, ceiling, Ghost(none));
        capped_digits(value, back, ceiling, Ghost(front@))
    } else {
        proof {
            assert(none + whole@ =~= whole@);
            lemma_digits_joined(whole@, fraction@);
            lemma_digits_value_not_negative(digits);
        }
        let value = capped_digits(0, whole, ceiling, Ghost(none));
        let value = capped_digits(value, fraction, ceiling, Ghost(whole@));
        capped_scale(value, keep - total, ceiling, Ghost(digits_value(digits)))
    }
}

/// A ceiling beyond any coordinate: numbers are told apart below it only.
pub const UNITS_CEILING: u128 = 10_000_000_000_000_000_000;

/// A ceiling for the size of an exponent: beyond it the number is zero or
/// beyond any coordinate, whatever the exponent is.
pub const EXPONENT_CEILING: u128 = 10_000_000_000_000_000_000_000_000;

/// Reads an exponent: whether it is negative, and its size held at the
/// ceiling for exponents. `None` if the text is no exponent.
fn read_exponent(exponent: &[u8]) -> (result: Option<(bool, u128)>)
    ensures
        result is Some == is_exponent(exponent@),
        result matches Some((negative, size)) ==> negative == is_negative(exponent@) && size
            == capped(digits_value(unsigned_part(exponent@)), EXPONENT_CEILING as int),
{
    let n = exponent.len();
    let signed = n > 0 && (exponent[0] == PLUS_SIGN || exponent[0] == MINUS_SIGN);
    let negative = n > 0 && exponent[0] == MINUS_SIGN;
    let digits = slice_subrange(
        exponent,
        if signed {
            1
        } else {
            0
        },
        n,
    );
    assert(digits@ =~= unsigned_part(exponent@));
    if !are_digits(digits) || digits.len() == 0 {
        return None;
    }
    proof {
        assert(Seq::<u8>::empty() + digits@ =~= digits@);
    }
    let size = capped_digits(0, digits, EXPONENT_CEILING, Ghost(Seq::empty()));
    Some((negative, size))
}

/// The coordinate units of `whole.fraction` times ten to the power of an
/// exponent, held at the ceiling for units. The exponent is given by its sign
/// and by its size, held at the ceiling for exponents.
fn capped_shifted(
    whole: &[u8],
    fraction: &[u8],
    exponent_negative: bool,
    exponent_size: u128,
    Ghost(true_size): Ghost<int>,
) -> (units: u128)
    requires
        all_digits(whole@),
        all_digits(fraction@),
        true_size >= 0,
        exponent_size == capped(true_size, EXPONENT_CEILING as int),
    ensures
        units == capped(
            shifted_units(
                whole@,
                fraction@,
                if exponent_negative {
                    -true_size
                } else {
                    true_size
                },
            ),
            UNITS_CEILING as int,
        ),
{
    let ghost digits = whole@ + fraction@;
    let ghost true_keep: int = whole@.len() + FRACTION_DIGITS + if exponent_negative {
        -true_size
    } else {
        true_size
    };
    let whole_len = whole.len();
    let fraction_len = fraction.len();
    // How many digits stand before the point once it has moved.
    let keep: i128 = if exponent_negative {
        whole_len as i128 + FRACTION_DIGITS as i128 - exponent_size as i128
    } else {
        whole_len as i128 + FRACTION_DIGITS as i128 + exponent_size as i128
    };
    if keep <= 0 {
        0
    } else {
        proof {
            assert(digits.len() == whole_len + fraction_len);
            if exponent_size == EXPONENT_CEILING {
                lemma_digits_joined(whole@, fraction@);
                lemma_far_shift(digits, keep as int, true_keep, UNITS_CEILING as int);
            }
        }
        capped_kept(whole, fraction, keep as u128, UNITS_CEILING)
    }
}

/// Reads an unsigned decimal number: its coordinate units, held at the
/// ceiling for units. `None` if the text is no decimal number.
fn read_magnitude(body: &[u8]) -> (result: Option<u128>)
    ensures
        result is Some == is_decimal(body@),
        result matches Some(units) ==> units == capped(
            decimal_units(body@),
            UNITS_CEILING as int,
        ),
{
    let mark = find_first(body, EXPONENT_MARK, EXPONENT_MARK_UPPER);
    let mantissa = slice_subrange(body, 0, mark);
    assert(mantissa@ =~= mantissa_part(body@));
    let point = find_first(mantissa, DECIMAL_POINT, DECIMAL_POINT);
    let whole = slice_subrange(mantissa, 0, point);
    let fraction = if point < mantissa.len() {
        slice_subrange(mantissa, point + 1, mantissa.len())
    } else {
        slice_subrange(mantissa, point, point)
    };
    assert(whole@ =~= whole_part(mantissa@));
    assert(fraction@ =~= fraction_part(mantissa@));
    if !are_digits(whole) || !are_digits(fraction) || (whole.len() == 0 && fraction.len() == 0) {
        return None;
    }
    if mark < body.len() {
        let exponent = slice_subrange(body, mark + 1, body.len());
        assert(exponent@ =~= exponent_part(body@));
        match read_exponent(exponent) {
            Some((negative, size)) => {
                proof {
                    lemma_digits_value_not_negative(unsigned_part(exponent@));
                }
                Some(
                    capped_shifted(
                        whole,
                        fraction,
                        negative,
                        size,
                        Ghost(digits_value(unsigned_part(exponent@))),
                    ),
                )
            },
            None => None,
        }
    } else {
        Some(capped_shifted(whole, fraction, false, 0, Ghost(0)))
    }
}

/// Reads a coordinate from decimal text.
pub fn parse_coordinate(text: &[u8]) -> (value: Option<i64>)
    ensures
        value == coordinate_value(text@),
{
    let n = text.len();
    let signed = n > 0 && (text[0] == PLUS_SIGN || text[0] == MINUS_SIGN);
    let negative = n > 0 && text[0] == MINUS_SIGN;
    let body = slice_subrange(
        text,
        if signed {
            1
        } else {
            0
        },
        n,
    );
    assert(body@ =~= unsigned_part(text@));
    match read_magnitude(body) {
        None => None,
        Some(units) => {
            if negative {
                if units <= 0x8000_0000_0000_0000u128 {
                    Some((-(units as i128)) as i64)
                } else {
                    None
                }
            } else {
                if units <= 0x7fff_ffff_ffff_ffffu128 {
                    Some(units as i64)
                } else {
                    None
                }
            }
        },
    }
}

} // verus!
