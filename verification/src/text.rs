//! Text: comparison, decimal numbers, fields and padding.

use vstd::prelude::*;
use vstd::string::is_ascii_spec_bytes;
use vstd::utf8::{encode_utf8_decode_utf8, is_ascii_chars};

verus! {

/// Whether `text` is the word `word`.
pub fn text_is(text: &str, word: &str) -> (same: bool)
    ensures
        same == (text@ == word@),
{
    let a = text.as_bytes();
    let b = word.as_bytes();
    proof {
        // Two texts are the same if and only if their bytes are.
        encode_utf8_decode_utf8(text@);
        encode_utf8_decode_utf8(word@);
    }
    if a.len() != b.len() {
        return false;
    }
    let mut i: usize = 0;
    while i < a.len()
        invariant
            i <= a.len(),
            a.len() == b.len(),
            a@.take(i as int) == b@.take(i as int),
            text@ == word@ ==> a@ == b@,
        decreases a.len() - i,
    {
        if a[i] != b[i] {
            return false;
        }
        assert(a@.take(i + 1) =~= a@.take(i as int).push(a@[i as int]));
        assert(b@.take(i + 1) =~= b@.take(i as int).push(b@[i as int]));
        i = i + 1;
    }
    assert(a@ =~= a@.take(i as int));
    assert(b@ =~= b@.take(i as int));
    true
}

/// The character of a decimal digit.
pub open spec fn digit_char(digit: nat) -> char {
    if digit == 0 {
        '0'
    } else if digit == 1 {
        '1'
    } else if digit == 2 {
        '2'
    } else if digit == 3 {
        '3'
    } else if digit == 4 {
        '4'
    } else if digit == 5 {
        '5'
    } else if digit == 6 {
        '6'
    } else if digit == 7 {
        '7'
    } else if digit == 8 {
        '8'
    } else {
        '9'
    }
}

/// A number in decimal digits, without sign and without leading zeros.
pub open spec fn decimal(n: nat) -> Seq<char>
    decreases n,
{
    if n < 10 {
        seq![digit_char(n)]
    } else {
        decimal(n / 10).push(digit_char(n % 10))
    }
}

/// The text of one decimal digit.
pub(crate) fn digit_text(digit: u8) -> (text: &'static str)
    requires
        digit < 10,
    ensures
        text@ == seq![digit_char(digit as nat)],
{
    proof {
        reveal_strlit("0");
        reveal_strlit("1");
        reveal_strlit("2");
        reveal_strlit("3");
        reveal_strlit("4");
        reveal_strlit("5");
        reveal_strlit("6");
        reveal_strlit("7");
        reveal_strlit("8");
        reveal_strlit("9");
    }
    let text = if digit == 0 {
        "0"
    } else if digit == 1 {
        "1"
    } else if digit == 2 {
        "2"
    } else if digit == 3 {
        "3"
    } else if digit == 4 {
        "4"
    } else if digit == 5 {
        "5"
    } else if digit == 6 {
        "6"
    } else if digit == 7 {
        "7"
    } else if digit == 8 {
        "8"
    } else {
        "9"
    };
    assert(text@ =~= seq![digit_char(digit as nat)]);
    text
}

/// Writes a number in decimal digits.
pub fn decimal_text(n: u128) -> (text: String)
    ensures
        text@ == decimal(n as nat),
    decreases n,
{
    if n < 10 {
        digit_text(n as u8).to_owned()
    } else {
        let mut text = decimal_text(n / 10);
        text.append(digit_text((n % 10) as u8));
        assert(text@ =~= decimal((n / 10) as nat).push(digit_char((n % 10) as nat)));
        text
    }
}

/// Whether `c` is one of the digits `0` to `9`.
pub open spec fn is_digit(c: char) -> bool {
    '0' <= c <= '9'
}

/// The value of a digit.
pub open spec fn digit_value(c: char) -> nat {
    (c as nat - '0' as nat) as nat
}

/// Whether a text is made of digits alone.
pub open spec fn all_digits(text: Seq<char>) -> bool {
    forall|i: int| 0 <= i < text.len() ==> is_digit(#[trigger] text[i])
}

/// The number that a run of digits writes.
pub open spec fn digits_number(text: Seq<char>) -> nat
    decreases text.len(),
{
    if text.len() == 0 {
        0
    } else {
        digits_number(text.drop_last()) * 10 + digit_value(text.last())
    }
}

/// The digits of an unsigned number: the text behind a `+` sign, where it
/// has one.
pub open spec fn unsigned_digits(text: Seq<char>) -> Seq<char> {
    if text.len() > 0 && text[0] == '+' {
        text.skip(1)
    } else {
        text
    }
}

/// The 32-bit unsigned number that a text writes: at least one digit, with
/// nothing before the digits but one `+` and nothing behind them. A text of
/// another form, and a number that does not fit, give `None`.
pub open spec fn parse_unsigned(text: Seq<char>) -> Option<u32> {
    let digits = unsigned_digits(text);
    if digits.len() > 0 && all_digits(digits) && digits_number(digits) <= u32::MAX {
        Some(digits_number(digits) as u32)
    } else {
        None
    }
}

/// More digits do not write a smaller number.
proof fn lemma_digits_number_grows(text: Seq<char>, i: int)
    requires
        0 <= i <= text.len(),
    ensures
        digits_number(text.take(i)) <= digits_number(text),
    decreases text.len() - i,
{
    if i == text.len() {
        assert(text.take(i) =~= text);
    } else {
        lemma_digits_number_grows(text, i + 1);
        assert(text.take(i + 1).drop_last() =~= text.take(i));
    }
}

/// A text that writes an unsigned number is made of ASCII characters.
proof fn lemma_unsigned_is_ascii(text: Seq<char>)
    requires
        parse_unsigned(text) is Some,
    ensures
        is_ascii_chars(text),
{
    let digits = unsigned_digits(text);
    assert forall|i: int| 0 <= i < text.len() implies '\0' <= #[trigger] text[i] <= '\u{7f}' by {
        if digits.len() == text.len() {
            assert(is_digit(digits[i]));
        } else if i > 0 {
            assert(is_digit(digits[i - 1]));
        }
    }
}

/// Reads a 32-bit unsigned number.
pub fn read_unsigned(text: &str) -> (number: Option<u32>)
    ensures
        number == parse_unsigned(text@),
{
    if !text.is_ascii() {
        proof {
            if parse_unsigned(text@) is Some {
                lemma_unsigned_is_ascii(text@);
            }
        }
        return None;
    }
    let bytes = text.as_bytes();
    proof {
        is_ascii_spec_bytes(text);
    }
    let len = bytes.len();
    let start: usize = if len > 0 && bytes[0] == '+' as u8 {
        1
    } else {
        0
    };
    let ghost digits = unsigned_digits(text@);
    proof {
        if len > 0 {
            assert((start == 1) == (text@[0] == '+'));
        }
        assert(digits =~= text@.skip(start as int));
    }
    if start == len {
        return None;
    }
    let mut value: u64 = 0;
    let mut i: usize = start;
    while i < len
        invariant
            start <= i <= len,
            len == text@.len(),
            len == bytes@.len(),
            is_ascii_chars(text@),
            forall|j: int| 0 <= j < len ==> bytes@[j] == (#[trigger] text@[j]) as u8,
            digits == text@.skip(start as int),
            digits == unsigned_digits(text@),
            all_digits(digits.take(i - start)),
            value == digits_number(digits.take(i - start)),
            value <= u32::MAX,
        decreases len - i,
    {
        let byte = bytes[i];
        let ghost c = text@[i as int];
        assert(c == digits[i - start]);
        if !('0' as u8 <= byte && byte <= '9' as u8) {
            assert(!is_digit(digits[i - start]));
            return None;
        }
        assert(is_digit(c));
        let digit: u64 = (byte - '0' as u8) as u64;
        value = value * 10 + digit;
        proof {
            let next = digits.take(i + 1 - start);
            assert(next.drop_last() =~= digits.take(i - start));
            assert(next.last() == c);
            assert(all_digits(next)) by {
                assert forall|j: int| 0 <= j < next.len() implies is_digit(#[trigger] next[j]) by {
                    if j < next.len() - 1 {
                        assert(next[j] == digits.take(i - start)[j]);
                    }
                }
            }
        }
        if value > 0xffff_ffff {
            proof {
                if all_digits(digits) {
                    lemma_digits_number_grows(digits, i + 1 - start);
                }
            }
            return None;
        }
        i = i + 1;
    }
    assert(digits.take(i - start) =~= digits);
    Some(value as u32)
}

/// The part of a text before its first comma; all of it where it has none.
pub open spec fn first_field(text: Seq<char>) -> Seq<char>
    decreases text.len(),
{
    if text.len() == 0 || text[0] == ',' {
        Seq::empty()
    } else {
        seq![text[0]] + first_field(text.skip(1))
    }
}

/// Cuts a text before its first comma.
pub fn first_field_text(text: &str) -> (field: String)
    ensures
        field@ == first_field(text@),
{
    let len = text.unicode_len();
    let mut i: usize = 0;
    assert(text@.take(0) + first_field(text@.skip(0)) =~= first_field(text@)) by {
        assert(text@.skip(0) =~= text@);
    }
    while i < len
        invariant
            i <= len,
            len == text@.len(),
            first_field(text@) == text@.take(i as int) + first_field(text@.skip(i as int)),
        ensures
            i == len || text@[i as int] == ',',
        decreases len - i,
    {
        let c = text.get_char(i);
        if c == ',' {
            break;
        }
        proof {
            let rest = text@.skip(i as int);
            assert(rest.skip(1) =~= text@.skip(i + 1));
            assert(text@.take(i as int) + (seq![rest[0]] + first_field(rest.skip(1)))
                =~= text@.take(i + 1) + first_field(text@.skip(i + 1)));
        }
        i = i + 1;
    }
    assert(first_field(text@) =~= text@.take(i as int));
    text.substring_char(0, i).to_owned()
}

/// Zeros to fill a text up to a width.
pub open spec fn zeros(count: nat) -> Seq<char> {
    Seq::new(count, |i: int| '0')
}

/// The least width of a number in a record.
pub const FIELD_WIDTH: usize = 8;

/// A text filled up with zeros on the right to the width of a field. A text
/// that is as wide or wider stays as it is.
pub open spec fn padded(text: Seq<char>) -> Seq<char> {
    if text.len() < FIELD_WIDTH {
        text + zeros((FIELD_WIDTH - text.len()) as nat)
    } else {
        text
    }
}

/// Fills a text up with zeros on the right to the width of a field.
pub fn pad_text(text: &str) -> (field: String)
    ensures
        field@ == padded(text@),
        field@.len() >= FIELD_WIDTH,
        field@.len() >= text@.len(),
        field@.take(text@.len() as int) == text@,
{
    let len = text.unicode_len();
    let mut field = text.to_owned();
    let mut width: usize = len;
    while width < FIELD_WIDTH
        invariant
            len == text@.len(),
            len <= width,
            width < FIELD_WIDTH ==> field@ == text@ + zeros((width - len) as nat),
            width >= FIELD_WIDTH ==> field@ == padded(text@),
        decreases FIELD_WIDTH - width,
    {
        proof {
            reveal_strlit("0");
        }
        field.append("0");
        width = width + 1;
        assert(field@ =~= text@ + zeros((width - len) as nat));
    }
    assert(field@.take(text@.len() as int) =~= text@);
    field
}

/// Filling up never cuts a text short: the text stands at the front of the
/// field, the field has the width of a field at least, and a text of that
/// width or more is the field.
pub proof fn law_padding_keeps_text(text: Seq<char>)
    ensures
        padded(text).len() >= FIELD_WIDTH,
        padded(text).len() >= text.len(),
        padded(text).take(text.len() as int) == text,
        text.len() >= FIELD_WIDTH ==> padded(text) == text,
        forall|i: int| text.len() <= i < padded(text).len() ==> padded(text)[i] == '0',
{
    assert(padded(text).take(text.len() as int) =~= text);
}

/// A number in decimal digits has a digit.
pub proof fn lemma_decimal_has_digits(n: nat)
    ensures
        decimal(n).len() >= 1,
    decreases n,
{
    if n >= 10 {
        lemma_decimal_has_digits(n / 10);
    }
}

} // verus!
