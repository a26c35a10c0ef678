//! Pieces of text: comparing, cutting, reading and writing numbers.

use vstd::arithmetic::power::pow;
use vstd::prelude::*;

verus! {

/// Whether a text begins with another.
pub open spec fn begins(text: Seq<char>, prefix: Seq<char>) -> bool {
    prefix.len() <= text.len() && text.take(prefix.len() as int) == prefix
}

/// Whether a text ends with another.
pub open spec fn ends(text: Seq<char>, suffix: Seq<char>) -> bool {
    suffix.len() <= text.len() && text.skip(text.len() - suffix.len()) == suffix
}

/// The place of the first `mark` in a text, the length of the text if there is none.
pub open spec fn first_mark(text: Seq<char>, mark: char) -> int
    decreases text.len(),
{
    if text.len() == 0 || text[0] == mark {
        0
    } else {
        1 + first_mark(text.skip(1), mark)
    }
}

/// The texts in front of and behind the first `mark`.
pub open spec fn split_once_at(text: Seq<char>, mark: char) -> Option<(Seq<char>, Seq<char>)> {
    let at = first_mark(text, mark);
    if at < text.len() {
        Some((text.take(at), text.skip(at + 1)))
    } else {
        None
    }
}

/// The texts between the marks of a text.
pub open spec fn fields(text: Seq<char>, mark: char) -> Seq<Seq<char>>
    decreases text.len(),
{
    let at = first_mark(text, mark);
    if 0 <= at < text.len() {
        seq![text.take(at)] + fields(text.skip(at + 1), mark)
    } else {
        seq![text]
    }
}

/// Whether a text consists of decimal digits.
pub open spec fn all_digits(text: Seq<char>) -> bool {
    forall|i: int| 0 <= i < text.len() ==> '0' <= #[trigger] text[i] <= '9'
}

/// The number that some decimal digits write.
pub open spec fn digits_value(text: Seq<char>) -> int
    decreases text.len(),
{
    if text.len() == 0 {
        0
    } else {
        10 * digits_value(text.drop_last()) + (text.last() as int - '0' as int)
    }
}

/// The digits of a written number, without the plus sign that may stand in front.
pub open spec fn unsigned_digits(text: Seq<char>) -> Seq<char> {
    if text.len() > 0 && text[0] == '+' {
        text.skip(1)
    } else {
        text
    }
}

/// The 32-bit number that a text writes: an optional plus sign and at least one digit.
pub open spec fn number32(text: Seq<char>) -> Option<u32> {
    let digits = unsigned_digits(text);
    if digits.len() > 0 && all_digits(digits) && digits_value(digits) <= u32::MAX {
        Some(digits_value(digits) as u32)
    } else {
        None
    }
}

/// A digit as a character.
pub open spec fn digit(value: int) -> char {
    ('0' as int + value) as char
}

/// A number in decimal digits, without leading zeros.
pub open spec fn decimal(value: nat) -> Seq<char>
    decreases value,
{
    if value < 10 {
        seq![digit(value as int)]
    } else {
        decimal(value / 10).push(digit((value % 10) as int))
    }
}

/// A number in decimal digits, with a minus sign in front if it is negative.
pub open spec fn signed_decimal(value: int) -> Seq<char> {
    if value < 0 {
        seq!['-'] + decimal((-value) as nat)
    } else {
        decimal(value as nat)
    }
}

proof fn lemma_first_mark(text: Seq<char>, mark: char)
    ensures
        0 <= first_mark(text, mark) <= text.len(),
        first_mark(text, mark) < text.len() ==> text[first_mark(text, mark)] == mark,
        forall|i: int| 0 <= i < first_mark(text, mark) ==> text[i] != mark,
    decreases text.len(),
{
    if text.len() > 0 && text[0] != mark {
        lemma_first_mark(text.skip(1), mark);
        let at = first_mark(text.skip(1), mark);
        assert forall|i: int| 0 <= i < at + 1 implies text[i] != mark by {
            if i > 0 {
                assert(text.skip(1)[i - 1] == text[i]);
            }
        }
        if at < text.skip(1).len() {
            assert(text.skip(1)[at] == text[at + 1]);
        }
    }
}

/// The first mark is the one in front of which there is none.
proof fn lemma_mark_found(text: Seq<char>, mark: char, at: int)
    requires
        0 <= at <= text.len(),
        at < text.len() ==> text[at] == mark,
        forall|i: int| 0 <= i < at ==> text[i] != mark,
    ensures
        first_mark(text, mark) == at,
{
    lemma_first_mark(text, mark);
    let found = first_mark(text, mark);
    if found < at {
        assert(text[found] != mark);
    } else if at < found {
        assert(text[at] != mark);
    }
}

/// A text begins with what stands in front of the rest of it, and with nothing else.
pub proof fn law_begins(text: Seq<char>, prefix: Seq<char>, rest: Seq<char>)
    ensures
        begins(prefix + rest, prefix),
        begins(text, prefix) ==> text == prefix + text.skip(prefix.len() as int),
{
    assert((prefix + rest).take(prefix.len() as int) =~= prefix);
    if begins(text, prefix) {
        assert(text =~= text.take(prefix.len() as int) + text.skip(prefix.len() as int));
    }
}

/// A text ends with what stands behind the rest of it, and with nothing else.
pub proof fn law_ends(text: Seq<char>, suffix: Seq<char>, rest: Seq<char>)
    ensures
        ends(rest + suffix, suffix),
        ends(text, suffix) ==> text == text.take(text.len() - suffix.len()) + suffix,
{
    assert((rest + suffix).skip(rest.len() as int) =~= suffix);
    if ends(text, suffix) {
        let at = text.len() - suffix.len();
        assert(text =~= text.take(at) + text.skip(at));
    }
}

/// A text is cut at its first mark: the parts with the mark between them are the text, and the front
/// has no mark. A text without a mark is not cut.
pub proof fn law_split_once(text: Seq<char>, front: Seq<char>, back: Seq<char>, mark: char)
    ensures
        match split_once_at(text, mark) {
            Some((front, back)) => text == front + seq![mark] + back && !front.contains(mark),
            None => !text.contains(mark),
        },
        !front.contains(mark) ==> split_once_at(front + seq![mark] + back, mark) == Some(
            (front, back),
        ),
        !front.contains(mark) ==> split_once_at(front, mark) is None,
{
    lemma_first_mark(text, mark);
    let at = first_mark(text, mark);
    if at < text.len() {
        assert(text =~= text.take(at) + seq![mark] + text.skip(at + 1));
    }
    if !front.contains(mark) {
        let all = front + seq![mark] + back;
        assert forall|i: int| 0 <= i < front.len() implies all[i] != mark && front[i] != mark by {
            assert(front.contains(front[i]));
        }
        assert(all[front.len() as int] == mark);
        lemma_mark_found(all, mark, front.len() as int);
        lemma_mark_found(front, mark, front.len() as int);
        assert(all.take(front.len() as int) =~= front);
        assert(all.skip(front.len() + 1int) =~= back);
    }
}

/// Some texts with a mark between each and the next.
pub open spec fn joined(parts: Seq<Seq<char>>, mark: char) -> Seq<char>
    decreases parts.len(),
{
    if parts.len() == 0 {
        Seq::empty()
    } else if parts.len() == 1 {
        parts[0]
    } else {
        parts[0] + seq![mark] + joined(parts.drop_first(), mark)
    }
}

/// The fields of a text with the marks between them are the text, and no field has a mark.
pub proof fn law_fields(text: Seq<char>, mark: char)
    ensures
        fields(text, mark).len() > 0,
        joined(fields(text, mark), mark) == text,
        forall|i: int|
            0 <= i < fields(text, mark).len() ==> !(#[trigger] fields(text, mark)[i]).contains(mark),
    decreases text.len(),
{
    lemma_first_mark(text, mark);
    let at = first_mark(text, mark);
    if at < text.len() {
        let back = text.skip(at + 1);
        law_fields(back, mark);
        let all = fields(text, mark);
        assert(all == seq![text.take(at)] + fields(back, mark));
        assert(all.drop_first() =~= fields(back, mark));
        assert(text =~= text.take(at) + seq![mark] + back);
        assert forall|i: int| 0 <= i < all.len() implies !(#[trigger] all[i]).contains(mark) by {
            if i > 0 {
                assert(all[i] == fields(back, mark)[i - 1]);
            }
        }
    }
}

/// A digit counts what it says, and each further digit behind some digits counts for a tenth of what
/// stood there.
pub proof fn law_digits_value(left: Seq<char>, right: Seq<char>, last: char)
    ensures
        digits_value(Seq::empty()) == 0,
        digits_value(seq![last]) == last as int - '0' as int,
        digits_value(left + right) == digits_value(left) * pow(10, right.len()) + digits_value(
            right,
        ),
    decreases right.len(),
{
    reveal(pow);
    assert(seq![last].drop_last() =~= Seq::<char>::empty());
    assert(digits_value(Seq::<char>::empty()) == 0);
    if right.len() == 0 {
        assert(left + right =~= left);
    } else {
        law_digits_value(left, right.drop_last(), last);
        assert((left + right).drop_last() =~= left + right.drop_last());
        let less = pow(10, (right.len() - 1) as nat);
        assert(pow(10, right.len()) == 10 * less);
        assert(10 * (digits_value(left) * less) == digits_value(left) * (10 * less))
            by (nonlinear_arith);
    }
}

/// A number is written in digits that count to it, without a zero in front.
pub proof fn law_decimal(value: nat)
    ensures
        decimal(value).len() > 0,
        all_digits(decimal(value)),
        digits_value(decimal(value)) == value,
        decimal(value)[0] == '0' ==> value == 0 && decimal(value).len() == 1,
    decreases value,
{
    if value < 10 {
        assert(seq![digit(value as int)].drop_last() =~= Seq::<char>::empty());
        assert(digits_value(Seq::<char>::empty()) == 0);
    } else {
        law_decimal(value / 10);
        let front = decimal(value / 10);
        assert(decimal(value).drop_last() =~= front);
        assert(decimal(value)[0] == front[0]);
    }
}

/// A negative number is written with a minus sign in front of its size.
pub proof fn law_signed_decimal(value: int)
    ensures
        value >= 0 ==> signed_decimal(value) == decimal(value as nat),
        value < 0 ==> signed_decimal(value) == seq!['-'] + signed_decimal(-value),
{
}

/// A number is read from at least one digit and nothing but digits, with or without a plus sign in
/// front, where 32 bits hold it, and from no other text.
pub proof fn law_number_read(text: Seq<char>, digits: Seq<char>)
    ensures
        digits.len() > 0 && all_digits(digits) ==> {
            let number = if digits_value(digits) <= u32::MAX {
                Some(digits_value(digits) as u32)
            } else {
                None
            };
            number32(digits) == number && number32(seq!['+'] + digits) == number
        },
        number32(text) matches Some(number) ==> exists|written: Seq<char>|
            {
                &&& text == written || text == seq!['+'] + written
                &&& written.len() > 0
                &&& #[trigger] all_digits(written)
                &&& digits_value(written) == number
            },
{
    let plus = seq!['+'] + digits;
    assert(plus.skip(1) =~= digits);
    if number32(text) is Some {
        let written = unsigned_digits(text);
        if text[0] == '+' && text.len() > 0 {
            assert(text =~= seq!['+'] + written);
        }
        if written.len() > 0 {
            lemma_digits_grow(written, 0);
        }
        assert(all_digits(written));
    }
    if digits.len() > 0 && all_digits(digits) {
        lemma_digits_grow(digits, 0);
        assert('0' <= digits[0] <= '9');
    }
}

/// A written number is read as what it was.
pub proof fn law_number_written(value: u32)
    ensures
        number32(decimal(value as nat)) == Some(value),
{
    law_decimal(value as nat);
    law_number_read(decimal(value as nat), decimal(value as nat));
}

/// Whether two texts are the same.
pub fn same_text(left: &str, right: &str) -> (same: bool)
    ensures
        same == (left@ == right@),
{
    let len: usize = left.unicode_len();
    if len != right.unicode_len() {
        return false;
    }
    let mut index: usize = 0;
    while index < len
        invariant
            index <= len,
            len == left@.len(),
            len == right@.len(),
            forall|i: int| 0 <= i < index ==> left@[i] == right@[i],
        decreases len - index,
    {
        if left.get_char(index) != right.get_char(index) {
            return false;
        }
        index += 1;
    }
    proof {
        assert(left@ =~= right@);
    }
    true
}

/// Whether a text begins with another.
pub fn starts_with(text: &str, prefix: &str) -> (found: bool)
    ensures
        found == begins(text@, prefix@),
{
    let len: usize = prefix.unicode_len();
    if len > text.unicode_len() {
        return false;
    }
    let front = text.substring_char(0, len);
    proof {
        assert(front@ =~= text@.take(len as int));
    }
    same_text(front, prefix)
}

/// Whether a text ends with another.
pub fn ends_with(text: &str, suffix: &str) -> (found: bool)
    ensures
        found == ends(text@, suffix@),
{
    let len: usize = suffix.unicode_len();
    let all: usize = text.unicode_len();
    if len > all {
        return false;
    }
    let back = text.substring_char(all - len, all);
    proof {
        assert(back@ =~= text@.skip(all - len));
    }
    same_text(back, suffix)
}

/// The rest of a text behind a prefix.
pub fn strip_prefix<'a>(text: &'a str, prefix: &str) -> (rest: Option<&'a str>)
    ensures
        rest is Some == begins(text@, prefix@),
        rest matches Some(rest) ==> rest@ == text@.skip(prefix@.len() as int),
{
    if !starts_with(text, prefix) {
        return None;
    }
    let rest = text.substring_char(prefix.unicode_len(), text.unicode_len());
    proof {
        assert(rest@ =~= text@.skip(prefix@.len() as int));
    }
    Some(rest)
}

/// The texts in front of and behind the first `mark`.
pub fn split_once<'a>(text: &'a str, mark: char) -> (parts: Option<(&'a str, &'a str)>)
    ensures
        parts is Some == split_once_at(text@, mark) is Some,
        parts matches Some((front, back)) ==> split_once_at(text@, mark) == Some((front@, back@)),
{
    let len: usize = text.unicode_len();
    let mut index: usize = 0;
    while index < len
        invariant
            index <= len,
            len == text@.len(),
            forall|i: int| 0 <= i < index ==> text@[i] != mark,
        decreases len - index,
    {
        if text.get_char(index) == mark {
            proof {
                lemma_mark_found(text@, mark, index as int);
            }
            let front = text.substring_char(0, index);
            let back = text.substring_char(index + 1, len);
            proof {
                assert(front@ =~= text@.take(index as int));
                assert(back@ =~= text@.skip(index + 1));
            }
            return Some((front, back));
        }
        index += 1;
    }
    proof {
        lemma_mark_found(text@, mark, len as int);
    }
    None
}

/// The texts between the marks of a text.
pub fn split_fields<'a>(text: &'a str, mark: char) -> (parts: Vec<&'a str>)
    ensures
        parts@.len() == fields(text@, mark).len(),
        forall|i: int| 0 <= i < parts@.len() ==> (#[trigger] parts@[i])@ == fields(text@, mark)[i],
{
    let mut parts: Vec<&'a str> = Vec::new();
    let mut rest: &'a str = text;
    loop
        invariant
            fields(text@, mark).len() == parts@.len() + fields(rest@, mark).len(),
            forall|i: int|
                0 <= i < parts@.len() ==> (#[trigger] parts@[i])@ == fields(text@, mark)[i],
            forall|i: int|
                0 <= i < fields(rest@, mark).len() ==> fields(text@, mark)[parts@.len() + i]
                    == #[trigger] fields(rest@, mark)[i],
        decreases rest@.len(),
    {
        let ghost before = fields(rest@, mark);
        let ghost old_parts = parts@;
        proof {
            lemma_first_mark(rest@, mark);
        }
        match split_once(rest, mark) {
            Some((front, back)) => {
                proof {
                    assert(before == seq![front@] + fields(back@, mark));
                    assert(before[0] == front@);
                    assert forall|i: int| 0 <= i < fields(back@, mark).len() implies fields(
                        text@,
                        mark,
                    )[old_parts.len() + 1 + i] == #[trigger] fields(back@, mark)[i] by {
                        assert(before[i + 1] == fields(back@, mark)[i]);
                    }
                }
                parts.push(front);
                rest = back;
            },
            None => {
                proof {
                    assert(before[0] == rest@);
                }
                parts.push(rest);
                return parts;
            },
        }
    }
}

proof fn lemma_digits_grow(text: Seq<char>, count: int)
    requires
        all_digits(text),
        0 <= count <= text.len(),
    ensures
        0 <= digits_value(text.take(count)) <= digits_value(text),
    decreases text.len(),
{
    if count < text.len() {
        assert(all_digits(text.drop_last()));
        lemma_digits_grow(text.drop_last(), count);
        assert(text.drop_last().take(count) =~= text.take(count));
    } else {
        assert(text.take(count) =~= text);
        if text.len() > 0 {
            assert(all_digits(text.drop_last()));
            lemma_digits_grow(text.drop_last(), count - 1);
        }
    }
}

/// Reads a 32-bit number: an optional plus sign and at least one digit.
pub fn parse_number(text: &str) -> (number: Option<u32>)
    ensures
        number == number32(text@),
{
    let len: usize = text.unicode_len();
    let start: usize = if len > 0 && text.get_char(0) == '+' {
        1
    } else {
        0
    };
    let ghost digits = unsigned_digits(text@);
    proof {
        assert(digits =~= text@.skip(start as int));
    }
    if start == len {
        return None;
    }
    let mut value: u64 = 0;
    let mut index: usize = start;
    while index < len
        invariant
            start <= index <= len,
            len == text@.len(),
            digits == unsigned_digits(text@),
            digits == text@.skip(start as int),
            digits.len() > 0,
            value <= u32::MAX,
            value == digits_value(digits.take(index - start)),
            all_digits(digits.take(index - start)),
        decreases len - index,
    {
        let c: char = text.get_char(index);
        let ghost at = index - start;
        proof {
            assert(digits[at] == c);
            assert(digits.take(at + 1).drop_last() =~= digits.take(at));
            assert(digits.take(at + 1).last() == c);
        }
        if c < '0' || c > '9' {
            proof {
                assert(!all_digits(digits)) by {
                    assert(!('0' <= digits[at] <= '9'));
                }
            }
            return None;
        }
        value = value * 10 + (c as u32 - '0' as u32) as u64;
        proof {
            assert(value == digits_value(digits.take(at + 1)));
            assert(all_digits(digits.take(at + 1))) by {
                assert forall|i: int| 0 <= i < at + 1 implies '0' <= #[trigger] digits.take(
                    at + 1,
                )[i] <= '9' by {
                    if i < at {
                        assert(digits.take(at)[i] == digits.take(at + 1)[i]);
                    }
                }
            }
        }
        if value > u32::MAX as u64 {
            proof {
                if all_digits(digits) {
                    lemma_digits_grow(digits, at + 1);
                }
            }
            return None;
        }
        index += 1;
    }
    proof {
        assert(digits.take(index - start) =~= digits);
    }
    Some(value as u32)
}

/// A digit as a text.
fn digit_text(value: u8) -> (text: &'static str)
    requires
        value < 10,
    ensures
        text@ == seq![digit(value as int)],
{
    proof {
        reveal_strlit("0");
        reveal_strlit("1");
        reveal_strlit("2");
        reveal_strlit("3");
        reveal_strlit("4");
        reveal_strlit("5");
        reveal_strlit("6");
        reveal_strlit("7");
        reveal_strlit("8");
        reveal_strlit("9");
    }
    let text = match value {
        0 => "0",
        1 => "1",
        2 => "2",
        3 => "3",
        4 => "4",
        5 => "5",
        6 => "6",
        7 => "7",
        8 => "8",
        _ => "9",
    };
    proof {
        assert(text@ =~= seq![digit(value as int)]);
    }
    text
}

/// Writes a number in decimal digits behind a text.
pub fn push_decimal(text: &mut String, value: u64)
    ensures
        final(text)@ == old(text)@ + decimal(value as nat),
    decreases value,
{
    if value >= 10 {
        push_decimal(text, value / 10);
    }
    let ghost before = text@;
    text.append(digit_text((value % 10) as u8));
    proof {
        assert(text@ =~= old(text)@ + decimal(value as nat));
    }
}

/// Writes a number in decimal digits behind a text, with a minus sign if it is negative.
pub fn push_signed(text: &mut String, value: i32)
    ensures
        final(text)@ == old(text)@ + signed_decimal(value as int),
{
    if value < 0 {
        proof {
            reveal_strlit("-");
        }
        text.append("-");
        let size: u64 = (-(value as i64)) as u64;
        push_decimal(text, size);
        proof {
            assert(text@ =~= old(text)@ + signed_decimal(value as int));
        }
    } else {
        push_decimal(text, value as u64);
    }
}

} // verus!
