//! Frame rates as fractions.

use crate::text::{
    all_digits, decimal, digits_value, law_decimal, law_digits_value, law_number_read,
    law_number_written, law_split_once, number32, parse_number, split_once, split_once_at,
};
use vstd::arithmetic::div_mod::{
    lemma_fundamental_div_mod, lemma_fundamental_div_mod_converse, lemma_mod_multiples_basic,
};
use vstd::arithmetic::power::pow;
use vstd::prelude::*;
use vstd::utf8::{
    decode_utf8, encode_utf8, encode_utf8_decode_utf8, encode_utf8_valid_utf8, is_ascii_chars,
    is_ascii_chars_encode_utf8, is_char_boundary, is_char_boundary_iff_not_is_continuation_byte,
    is_char_boundary_start_end_of_seq, is_continuation_byte, utf8_byte_ranges_bitwise,
};

verus! {

/// A fraction: a numerator and a denominator.
#[derive(Debug, Clone, Copy, PartialEq, Eq, Structural)]
pub struct Rational(pub i32, pub i32);

/// Why a text is no frame rate.
#[derive(Debug, Clone, Copy, PartialEq, Eq, Structural)]
pub enum FpsError {
    Numerator,
    Denominator,
    Invalid,
    NotPositive,
    /// A character stands across the place where the fraction would be cut off.
    CutInCharacter,
}

impl FpsError {
    /// The text of the error.
    pub open spec fn text(self) -> Seq<char> {
        match self {
            FpsError::Numerator => "--fps numerator is invalid"@,
            FpsError::Denominator => "--fps denominator is invalid"@,
            FpsError::Invalid => "--fps is invalid"@,
            FpsError::NotPositive => "--fps must be positive"@,
            FpsError::CutInCharacter => "--fps fraction is cut inside a character"@,
        }
    }

    /// The error in words.
    pub fn message(&self) -> (message: &'static str)
        ensures
            message@ == self.text(),
    {
        match self {
            FpsError::Numerator => "--fps numerator is invalid",
            FpsError::Denominator => "--fps denominator is invalid",
            FpsError::Invalid => "--fps is invalid",
            FpsError::NotPositive => "--fps must be positive",
            FpsError::CutInCharacter => "--fps fraction is cut inside a character",
        }
    }
}

/// Whether a number is divided by another without a rest.
pub open spec fn divides(divisor: nat, number: nat) -> bool {
    divisor > 0 && number % divisor == 0
}

/// The last number that is not zero when two numbers are replaced, again and again, by the second
/// and the rest of dividing the first by the second.
pub open spec fn euclid(left: nat, right: nat) -> nat
    decreases right,
{
    if right == 0 {
        left
    } else {
        euclid(right, left % right)
    }
}

/// What `gcd` returns: the greatest common divisor, and one for two zeros.
pub open spec fn divisor_of(left: nat, right: nat) -> nat {
    if euclid(left, right) == 0 {
        1
    } else {
        euclid(left, right)
    }
}

proof fn lemma_divides_sum(divisor: nat, left: nat, right: nat)
    requires
        right > 0,
    ensures
        divides(divisor, right) && divides(divisor, left % right) ==> divides(divisor, left),
        divides(divisor, right) && divides(divisor, left) ==> divides(divisor, left % right),
{
    if divisor > 0 {
        let d = divisor as int;
        let quotient = left as int / right as int;
        let rest = left as int % right as int;
        lemma_fundamental_div_mod(left as int, right as int);
        lemma_fundamental_div_mod(right as int, d);
        lemma_fundamental_div_mod(rest, d);
        lemma_fundamental_div_mod(left as int, d);
        let a = right as int / d;
        let b = rest / d;
        let c = left as int / d;
        if right % divisor == 0 && (left % right) % divisor == 0 {
            assert(left == (a * quotient + b) * d) by (nonlinear_arith)
                requires
                    left == right * quotient + rest,
                    right == d * a,
                    rest == d * b,
            ;
            lemma_mod_multiples_basic(a * quotient + b, d);
        }
        if right % divisor == 0 && left % divisor == 0 {
            assert(rest == (c - a * quotient) * d) by (nonlinear_arith)
                requires
                    left == right * quotient + rest,
                    right == d * a,
                    left == d * c,
            ;
            lemma_mod_multiples_basic(c - a * quotient, d);
        }
    }
}

/// The greatest common divisor of two numbers divides both, and every number that divides both
/// divides it.
pub proof fn law_greatest_divisor(left: nat, right: nat)
    requires
        left > 0 || right > 0,
    ensures
        divides(divisor_of(left, right), left),
        divides(divisor_of(left, right), right),
        forall|d: nat|
            divides(d, left) && #[trigger] divides(d, right) ==> divides(d, divisor_of(left, right))
                && d <= divisor_of(left, right),
    decreases right,
{
    if right == 0 {
        assert(left % left == 0) by (nonlinear_arith)
            requires
                left > 0,
        ;
        assert(0nat % left == 0) by (nonlinear_arith)
            requires
                left > 0,
        ;
        assert forall|d: nat| divides(d, left) && #[trigger] divides(d, right) implies divides(
            d,
            divisor_of(left, right),
        ) && d <= divisor_of(left, right) by {
            lemma_divisor_size(d, left);
        }
    } else {
        law_greatest_divisor(right, left % right);
        let g = divisor_of(left, right);
        lemma_divides_sum(g, left, right);
        assert forall|d: nat| divides(d, left) && #[trigger] divides(d, right) implies divides(
            d,
            g,
        ) && d <= g by {
            lemma_divides_sum(d, left, right);
            assert(divides(d, left % right));
        }
    }
}

proof fn lemma_divisor_size(divisor: nat, number: nat)
    requires
        divides(divisor, number),
        number > 0,
    ensures
        divisor <= number,
{
    if divisor > number {
        assert(number % divisor == number) by (nonlinear_arith)
            requires
                0 < number < divisor,
        ;
    }
}

/// The greatest common divisor of two numbers, one for two zeros.
pub fn gcd(left: u32, right: u32) -> (divisor: u32)
    ensures
        divisor == divisor_of(left as nat, right as nat),
{
    let mut a: u32 = left;
    let mut b: u32 = right;
    while b != 0
        invariant
            euclid(a as nat, b as nat) == euclid(left as nat, right as nat),
        decreases b,
    {
        let rest: u32 = a % b;
        a = b;
        b = rest;
    }
    if a == 0 {
        1
    } else {
        a
    }
}

/// A number held down to the largest 32-bit number.
pub open spec fn held(value: int) -> u32 {
    if value > u32::MAX {
        u32::MAX
    } else {
        value as u32
    }
}

/// The signed number with the same 32 bits.
pub open spec fn signed(value: u32) -> i32 {
    if value > i32::MAX {
        (value - 0x1_0000_0000) as i32
    } else {
        value as i32
    }
}

/// The number of fraction digits that count: six at most, in bytes of UTF-8.
pub open spec fn fraction_digits(fraction: Seq<char>) -> nat {
    if encode_utf8(fraction).len() < 6 {
        encode_utf8(fraction).len()
    } else {
        6
    }
}

/// The part of a fraction that counts, unless the cut goes through a character.
pub open spec fn fraction_front(fraction: Seq<char>) -> Option<Seq<char>> {
    let bytes = encode_utf8(fraction);
    let digits = fraction_digits(fraction) as int;
    if is_char_boundary(bytes, digits) {
        Some(decode_utf8(bytes.subrange(0, digits)))
    } else {
        None
    }
}

/// The number that the digits of a fraction write, zero if there are none.
pub open spec fn fraction_value(front: Seq<char>) -> Option<u32> {
    if front.len() == 0 {
        Some(0)
    } else {
        number32(front)
    }
}

/// The numerator and denominator that a text writes: two numbers with a slash between them, a
/// decimal fraction, or a whole number.
pub open spec fn fps_parts(text: Seq<char>) -> Result<(u32, u32), FpsError> {
    match split_once_at(text, '/') {
        Some((front, back)) => match number32(front) {
            None => Err(FpsError::Numerator),
            Some(numerator) => match number32(back) {
                None => Err(FpsError::Denominator),
                Some(denominator) => Ok((numerator, denominator)),
            },
        },
        None => match split_once_at(text, '.') {
            Some((whole, fraction)) => match fraction_front(fraction) {
                None => Err(FpsError::CutInCharacter),
                Some(front) => match (number32(whole), fraction_value(front)) {
                    (Some(whole), Some(value)) => {
                        let denominator = pow(10, fraction_digits(fraction));
                        Ok((held(whole * denominator + value), denominator as u32))
                    },
                    _ => Err(FpsError::Invalid),
                },
            },
            None => match number32(text) {
                None => Err(FpsError::Invalid),
                Some(numerator) => Ok((numerator, 1)),
            },
        },
    }
}

/// A fraction of two positive numbers in lowest terms.
pub open spec fn reduced(numerator: u32, denominator: u32) -> Rational {
    let divisor = divisor_of(numerator as nat, denominator as nat);
    Rational(
        signed((numerator as nat / divisor) as u32),
        signed((denominator as nat / divisor) as u32),
    )
}

proof fn lemma_quotient(divisor: nat, number: nat)
    requires
        divides(divisor, number),
    ensures
        number == divisor * (number / divisor),
        number / divisor <= number,
        number > 0 ==> number / divisor > 0,
{
    lemma_fundamental_div_mod(number as int, divisor as int);
    let quotient = number / divisor;
    assert(quotient <= number && (number > 0 ==> quotient > 0)) by (nonlinear_arith)
        requires
            number == divisor * quotient,
            divisor > 0,
            quotient >= 0,
    ;
}

/// A reduced fraction has the value of the two numbers it was made of, and no number above one
/// divides both of its terms.
pub proof fn law_lowest_terms(numerator: u32, denominator: u32)
    requires
        0 < numerator <= i32::MAX,
        0 < denominator <= i32::MAX,
    ensures
        ({
            let fraction = reduced(numerator, denominator);
            &&& fraction.0 > 0
            &&& fraction.1 > 0
            &&& fraction.0 * denominator == fraction.1 * numerator
            &&& forall|d: nat|
                divides(d, fraction.0 as nat) && #[trigger] divides(d, fraction.1 as nat) ==> d == 1
        }),
{
    let n = numerator as nat;
    let m = denominator as nat;
    let g = divisor_of(n, m);
    law_greatest_divisor(n, m);
    lemma_quotient(g, n);
    lemma_quotient(g, m);
    let a = n / g;
    let b = m / g;
    assert(a * m == b * n) by (nonlinear_arith)
        requires
            n == g * a,
            m == g * b,
    ;
    assert forall|d: nat| divides(d, a) && #[trigger] divides(d, b) implies d == 1 by {
        lemma_quotient(d, a);
        lemma_quotient(d, b);
        let c = a / d;
        let e = b / d;
        let product = d * g;
        assert(n == c * product && m == e * product && product > 0) by (nonlinear_arith)
            requires
                n == g * a,
                m == g * b,
                a == d * c,
                b == d * e,
                product == d * g,
                d > 0,
                g > 0,
        ;
        lemma_mod_multiples_basic(c as int, product as int);
        lemma_mod_multiples_basic(e as int, product as int);
        assert(divides(product, n));
        assert(divides(product, m));
        assert(d <= 1) by (nonlinear_arith)
            requires
                product == d * g,
                product <= g,
                g > 0,
        ;
    }
}

/// A common factor passes through the rest of a division.
proof fn lemma_rest_scaled(factor: nat, left: nat, right: nat)
    requires
        factor > 0,
        right > 0,
    ensures
        (factor * left) % (factor * right) == factor * (left % right),
        (factor * left) / (factor * right) == left / right,
        factor * right > 0,
{
    let q = left as int / right as int;
    let r = left as int % right as int;
    let f = factor as int;
    lemma_fundamental_div_mod(left as int, right as int);
    assert(f * left == q * (f * right) + f * r && 0 <= f * r < f * right && f * right > 0)
        by (nonlinear_arith)
        requires
            left == right * q + r,
            0 <= r < right,
            f > 0,
    ;
    lemma_fundamental_div_mod_converse(f * left, f * right, q, f * r);
}

proof fn lemma_euclid_scaled(factor: nat, left: nat, right: nat)
    requires
        factor > 0,
    ensures
        euclid(factor * left, factor * right) == factor * euclid(left, right),
    decreases right,
{
    if right == 0 {
        assert(factor * right == 0) by (nonlinear_arith)
            requires
                right == 0,
        ;
    } else {
        lemma_rest_scaled(factor, left, right);
        lemma_euclid_scaled(factor, right, left % right);
    }
}

/// A common factor of numerator and denominator changes nothing of the reduced fraction.
pub proof fn law_factor_cancels(factor: nat, numerator: u32, denominator: u32)
    requires
        factor > 0,
        numerator > 0 || denominator > 0,
        factor * numerator <= u32::MAX,
        factor * denominator <= u32::MAX,
    ensures
        reduced((factor * numerator) as u32, (factor * denominator) as u32) == reduced(
            numerator,
            denominator,
        ),
{
    let n = numerator as nat;
    let m = denominator as nat;
    law_greatest_divisor(n, m);
    let g = euclid(n, m);
    assert(factor * numerator >= 0 && factor * denominator >= 0) by (nonlinear_arith);
    lemma_euclid_scaled(factor, n, m);
    assert(g > 0) by {
        if g == 0 {
            lemma_euclid_zero(n, m);
        }
    }
    lemma_rest_scaled(factor, n, g);
    lemma_rest_scaled(factor, m, g);
}

proof fn lemma_euclid_zero(left: nat, right: nat)
    requires
        euclid(left, right) == 0,
    ensures
        left == 0 && right == 0,
    decreases right,
{
    if right > 0 {
        lemma_euclid_zero(right, left % right);
    }
}

/// The frame rate that a text writes.
pub open spec fn fps_of(text: Seq<char>) -> Result<Rational, FpsError> {
    match fps_parts(text) {
        Err(error) => Err(error),
        Ok((numerator, denominator)) => if numerator == 0 || denominator == 0 {
            Err(FpsError::NotPositive)
        } else {
            Ok(reduced(numerator, denominator))
        },
    }
}

/// Two zeros have the common divisor one, like two numbers of which nothing above one divides both.
pub proof fn law_no_common_divisor(left: nat, right: nat)
    ensures
        divisor_of(0, 0) == 1,
        divisor_of(left, right) > 0,
        (forall|d: nat| divides(d, left) && #[trigger] divides(d, right) ==> d <= 1)
            ==> divisor_of(left, right) == 1,
{
    if left > 0 || right > 0 {
        law_greatest_divisor(left, right);
    }
}

/// A number and the signed number with the same 32 bits are the same up to the largest signed number,
/// and above it differ by the number of all 32-bit numbers.
pub proof fn law_signed(value: u32)
    ensures
        signed(value) == value || signed(value) == value - 0x1_0000_0000,
{
}

/// The digits of a fraction that count are the first six.
proof fn lemma_fraction_digits(fraction: Seq<char>)
    requires
        all_digits(fraction),
    ensures
        ({
            let count = if fraction.len() < 6 {
                fraction.len() as int
            } else {
                6
            };
            &&& fraction_digits(fraction) == count
            &&& fraction_front(fraction) == Some(fraction.take(count))
        }),
{
    let count = if fraction.len() < 6 {
        fraction.len() as int
    } else {
        6
    };
    let bytes = encode_utf8(fraction);
    let front = fraction.take(count);
    assert(is_ascii_chars(fraction)) by {
        assert forall|i: int| 0 <= i < fraction.len() implies '\0' <= #[trigger] fraction[i]
            <= '\u{7f}' by {}
    }
    assert(is_ascii_chars(front)) by {
        assert forall|i: int| 0 <= i < front.len() implies '\0' <= #[trigger] front[i]
            <= '\u{7f}' by {
            assert(front[i] == fraction[i]);
        }
    }
    is_ascii_chars_encode_utf8(fraction);
    is_ascii_chars_encode_utf8(front);
    assert(encode_utf8(front) =~= bytes.subrange(0, count)) by {
        assert forall|i: int| 0 <= i < count implies encode_utf8(front)[i] == bytes[i] by {
            assert(front[i] == fraction[i]);
        }
    }
    encode_utf8_decode_utf8(front);
    encode_utf8_valid_utf8(fraction);
    is_char_boundary_start_end_of_seq(bytes);
    if count < bytes.len() {
        let next = bytes[count];
        assert(fraction[count] as u8 == next);
        assert('0' <= fraction[count] <= '9');
        is_char_boundary_iff_not_is_continuation_byte(bytes, count);
        assert(!is_continuation_byte(next)) by {
            utf8_byte_ranges_bitwise(next);
        }
    }
}

/// A frame rate is read as it is written: as two numbers with a slash between them, as a whole
/// number, or as a decimal fraction, of which six digits behind the point count. A number that 32
/// bits do not hold is held down to the largest that they do.
pub proof fn law_fps_read(whole: u32, other: u32, fraction: Seq<char>)
    requires
        all_digits(fraction),
    ensures
        fps_parts(decimal(whole as nat)) == Ok::<(u32, u32), FpsError>((whole, 1)),
        fps_parts(decimal(whole as nat) + seq!['/'] + decimal(other as nat)) == Ok::<
            (u32, u32),
            FpsError,
        >((whole, other)),
        ({
            let count = if fraction.len() < 6 {
                fraction.len() as int
            } else {
                6
            };
            let counted = whole * pow(10, count as nat) + digits_value(fraction.take(count));
            fps_parts(decimal(whole as nat) + seq!['.'] + fraction) == Ok::<(u32, u32), FpsError>(
                (
                    if counted <= u32::MAX {
                        counted as u32
                    } else {
                        u32::MAX
                    },
                    pow(10, count as nat) as u32,
                ),
            )
        }),
{
    let front = decimal(whole as nat);
    let back = decimal(other as nat);
    law_decimal(whole as nat);
    law_decimal(other as nat);
    law_number_written(whole);
    law_number_written(other);
    lemma_no_mark(front, '/');
    lemma_no_mark(front, '.');
    lemma_no_mark(fraction, '/');
    law_split_once(front, front, back, '/');
    law_split_once(front, front, back, '.');
    let decimals = front + seq!['.'] + fraction;
    assert(!decimals.contains('/')) by {
        if decimals.contains('/') {
            let i = choose|i: int| 0 <= i < decimals.len() && decimals[i] == '/';
            if i < front.len() {
                assert(front[i] == '/');
            } else if i > front.len() {
                assert(fraction[i - front.len() - 1] == '/');
            }
        }
    }
    law_split_once(decimals, decimals, back, '/');
    law_split_once(decimals, front, fraction, '.');
    lemma_fraction_digits(fraction);
    let count = fraction_digits(fraction) as int;
    let counting = fraction.take(count);
    assert(all_digits(counting)) by {
        assert forall|i: int| 0 <= i < counting.len() implies '0' <= #[trigger] counting[i]
            <= '9' by {
            assert(counting[i] == fraction[i]);
        }
    }
    law_number_read(counting, counting);
    lemma_few_digits(counting);
    law_digits_value(counting, counting, '0');
    if count == 0 {
        assert(counting =~= Seq::<char>::empty());
    }
    assert(whole * pow(10, count as nat) >= 0) by (nonlinear_arith)
        requires
            whole >= 0,
            pow(10, count as nat) >= 0,
    ;
}

proof fn lemma_no_mark(digits: Seq<char>, mark: char)
    requires
        all_digits(digits),
        mark == '/' || mark == '.',
    ensures
        !digits.contains(mark),
{
    if digits.contains(mark) {
        let i = choose|i: int| 0 <= i < digits.len() && digits[i] == mark;
        assert('0' <= digits[i] <= '9');
    }
}

/// Six digits stay below a million.
proof fn lemma_few_digits(digits: Seq<char>)
    requires
        all_digits(digits),
    ensures
        0 <= digits_value(digits) < pow(10, digits.len()),
        digits.len() <= 6 ==> pow(10, digits.len()) <= 1_000_000,
    decreases digits.len(),
{
    reveal(pow);
    if digits.len() > 0 {
        let front = digits.drop_last();
        assert(all_digits(front)) by {
            assert forall|i: int| 0 <= i < front.len() implies '0' <= #[trigger] front[i]
                <= '9' by {
                assert(front[i] == digits[i]);
            }
        }
        lemma_few_digits(front);
        assert('0' <= digits[digits.len() - 1] <= '9');
        assert(pow(10, digits.len()) == 10 * pow(10, front.len()));
    }
    if digits.len() <= 6 {
        reveal_with_fuel(pow, 7);
    }
}

/// A frame rate is what the two numbers of its text come to; one that is zero, or of which the
/// denominator is, is refused.
pub proof fn law_fps_positive(text: Seq<char>)
    requires
        fps_parts(text) is Ok,
    ensures
        ({
            let (numerator, denominator) = fps_parts(text)->Ok_0;
            &&& numerator == 0 || denominator == 0 ==> fps_of(text) == Err::<Rational, FpsError>(
                FpsError::NotPositive,
            )
            &&& 0 < numerator <= i32::MAX && 0 < denominator <= i32::MAX ==> {
                &&& fps_of(text) matches Ok(fps)
                &&& fps.0 > 0 && fps.1 > 0
                &&& fps.0 * denominator == fps.1 * numerator
            }
        }),
{
    let (numerator, denominator) = fps_parts(text)->Ok_0;
    if 0 < numerator <= i32::MAX && 0 < denominator <= i32::MAX {
        law_lowest_terms(numerator, denominator);
    }
}

/// Of two texts with a slash between them the first that is no number is the reason why there is no
/// frame rate; a text without slash and point has to be a number itself.
pub proof fn law_fps_refused(front: Seq<char>, back: Seq<char>)
    requires
        !front.contains('/'),
    ensures
        ({
            let text = front + seq!['/'] + back;
            &&& number32(front) is None ==> fps_of(text) == Err::<Rational, FpsError>(
                FpsError::Numerator,
            )
            &&& number32(front) is Some && number32(back) is None ==> fps_of(text) == Err::<
                Rational,
                FpsError,
            >(FpsError::Denominator)
        }),
        !front.contains('.') && number32(front) is None ==> fps_of(front) == Err::<
            Rational,
            FpsError,
        >(FpsError::Invalid),
{
    law_split_once(front, front, back, '/');
    law_split_once(front, front, back, '.');
}

/// The frame rate of a stream is its average rate where that is positive, its nominal rate where only
/// that is, and 30 where neither is.
pub proof fn law_rate(average: Rational, nominal: Rational)
    ensures
        ({
            let rate = rate_of(average, nominal);
            &&& rate.0 > 0 && rate.1 > 0
            &&& average.0 > 0 && average.1 > 0 ==> rate == average
            &&& (average.0 <= 0 || average.1 <= 0) && nominal.0 > 0 && nominal.1 > 0 ==> rate
                == nominal
            &&& (average.0 <= 0 || average.1 <= 0) && (nominal.0 <= 0 || nominal.1 <= 0) ==> rate
                == Rational(30, 1)
        }),
{
}

/// The signed number with the same 32 bits.
fn as_signed(value: u32) -> (result: i32)
    ensures
        result == signed(value),
{
    if value > i32::MAX as u32 {
        (value as i64 - 0x1_0000_0000) as i32
    } else {
        value as i32
    }
}

/// Ten to the power of a small number.
fn ten_to(digits: usize) -> (power: u32)
    requires
        digits <= 6,
    ensures
        power == pow(10, digits as nat),
{
    proof {
        reveal_with_fuel(pow, 7);
    }
    match digits {
        0 => 1,
        1 => 10,
        2 => 100,
        3 => 1_000,
        4 => 10_000,
        5 => 100_000,
        _ => 1_000_000,
    }
}

/// The numerator and denominator of a decimal fraction.
fn parse_fraction(whole: &str, fraction: &str) -> (result: Result<(u32, u32), FpsError>)
    ensures
        result == match fraction_front(fraction@) {
            None => Err::<(u32, u32), FpsError>(FpsError::CutInCharacter),
            Some(front) => match (number32(whole@), fraction_value(front)) {
                (Some(whole), Some(value)) => {
                    let denominator = pow(10, fraction_digits(fraction@));
                    Ok::<(u32, u32), FpsError>(
                        (held(whole * denominator + value), denominator as u32),
                    )
                },
                _ => Err::<(u32, u32), FpsError>(FpsError::Invalid),
            },
        },
{
    let bytes: usize = fraction.as_bytes().len();
    let digits: usize = if bytes < 6 {
        bytes
    } else {
        6
    };
    if !fraction.is_char_boundary(digits) {
        return Err(FpsError::CutInCharacter);
    }
    let (front, _) = fraction.split_at(digits);
    proof {
        encode_utf8_decode_utf8(front@);
        assert(fraction_front(fraction@) == Some(front@));
    }
    let denominator: u32 = ten_to(digits);
    let whole: u32 = match parse_number(whole) {
        Some(whole) => whole,
        None => {
            return Err(FpsError::Invalid);
        },
    };
    let value: u32 = if front.is_empty() {
        0
    } else {
        match parse_number(front) {
            Some(value) => value,
            None => {
                return Err(FpsError::Invalid);
            },
        }
    };
    proof {
        assert(0 <= whole * denominator <= u32::MAX * u32::MAX) by (nonlinear_arith)
            requires
                0 <= whole <= u32::MAX,
                0 <= denominator <= u32::MAX,
        ;
    }
    let numerator: u64 = whole as u64 * denominator as u64 + value as u64;
    if numerator > u32::MAX as u64 {
        Ok((u32::MAX, denominator))
    } else {
        Ok((numerator as u32, denominator))
    }
}

/// The numerator and denominator that a text writes.
fn parse_fps_parts(value: &str) -> (result: Result<(u32, u32), FpsError>)
    ensures
        result == fps_parts(value@),
{
    if let Some((front, back)) = split_once(value, '/') {
        match parse_number(front) {
            None => Err(FpsError::Numerator),
            Some(numerator) => match parse_number(back) {
                None => Err(FpsError::Denominator),
                Some(denominator) => Ok((numerator, denominator)),
            },
        }
    } else if let Some((whole, fraction)) = split_once(value, '.') {
        parse_fraction(whole, fraction)
    } else {
        match parse_number(value) {
            None => Err(FpsError::Invalid),
            Some(numerator) => Ok((numerator, 1)),
        }
    }
}

/// Reads a frame rate.
pub fn parse_fps(value: &str) -> (result: Result<Rational, FpsError>)
    ensures
        result == fps_of(value@),
{
    let (numerator, denominator) = parse_fps_parts(value)?;
    if numerator == 0 || denominator == 0 {
        return Err(FpsError::NotPositive);
    }
    let divisor: u32 = gcd(numerator, denominator);
    Ok(Rational(as_signed(numerator / divisor), as_signed(denominator / divisor)))
}

/// The frame rate of a video stream: its average rate, else its nominal rate, else 30.
pub open spec fn rate_of(average: Rational, nominal: Rational) -> Rational {
    if average.0 > 0 && average.1 > 0 {
        average
    } else if nominal.0 > 0 && nominal.1 > 0 {
        nominal
    } else {
        Rational(30, 1)
    }
}

/// The frame rate of a video stream.
pub fn source_fps(average: Rational, nominal: Rational) -> (fps: Rational)
    ensures
        fps == rate_of(average, nominal),
        fps.0 > 0,
        fps.1 > 0,
{
    if average.0 > 0 && average.1 > 0 {
        average
    } else if nominal.0 > 0 && nominal.1 > 0 {
        nominal
    } else {
        Rational(30, 1)
    }
}

} // verus!
